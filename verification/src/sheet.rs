//! Textual rendering of a reconstructed state as a character sheet: one
//! `key: value` line per leaf, nested categories as a header line with
//! their children indented two spaces deeper.  Text values are quoted,
//! with quotes and backslashes escaped.

use vstd::prelude::*;

verus! {

use vstd::string::StrSliceExecFns;
use vstd::string::StringExecFns;
use crate::tree::Node;
use crate::tree::SpecNode;
use crate::value::SpecValue;
use crate::value::Value;
use crate::value::int_to_string;
use crate::value::spec_int_string;

/// Text as it appears on a sheet: quoted, with `"` and `\` escaped.
pub open spec fn spec_escape(s: Seq<char>) -> Seq<char>
    decreases s.len(),
{
    if s.len() == 0 {
        Seq::empty()
    } else {
        spec_escape(s.drop_last()) + (if s.last() == '"' || s.last() == '\\' {
            seq!['\\', s.last()]
        } else {
            seq![s.last()]
        })
    }
}

pub open spec fn spec_sheet_value(v: SpecValue) -> Seq<char> {
    match v {
        SpecValue::Num(x) => spec_int_string(x),
        SpecValue::Bool(b) => if b {
            "true"@
        } else {
            "false"@
        },
        SpecValue::Text(s) => seq!['"'] + spec_escape(s) + seq!['"'],
    }
}

/// One rendered entry: a leaf as `indent key: value`, an object as its
/// header line followed by its children one level deeper.
pub open spec fn spec_sheet_entry(key: Seq<char>, n: SpecNode, ind: Seq<char>) -> Seq<char>
    decreases n,
{
    match n {
        SpecNode::Leaf(v) => ind + key + seq![':', ' '] + spec_sheet_value(v),
        SpecNode::Obj(es) => ind + key + seq!['\n'] + spec_sheet_entries(
            es,
            ind + seq![' ', ' '],
        ),
    }
}

/// Entries rendered in order, joined by newlines (an empty object yields
/// an empty block).
pub open spec fn spec_sheet_entries(es: Seq<(Seq<char>, SpecNode)>, ind: Seq<char>) -> Seq<char>
    decreases es,
{
    if es.len() == 0 {
        Seq::empty()
    } else if es.len() == 1 {
        spec_sheet_entry(es[0].0, es[0].1, ind)
    } else {
        spec_sheet_entries(es.drop_last(), ind) + seq!['\n'] + spec_sheet_entry(
            es.last().0,
            es.last().1,
            ind,
        )
    }
}

/// The rendering of a whole tree, entries at the outermost indent.
pub open spec fn spec_sheet(t: SpecNode) -> Seq<char> {
    match t {
        SpecNode::Obj(es) => spec_sheet_entries(es, Seq::empty()),
        SpecNode::Leaf(v) => spec_sheet_value(v),
    }
}

fn escape_text(s: &String, out: &mut String)
    ensures
        final(out)@ == old(out)@ + spec_escape(s@),
{
    let base = s.as_str();
    let len = base.unicode_len();
    let mut j: usize = 0;
    proof {
        assert(out@ =~= old(out)@ + spec_escape(s@.take(0)));
    }
    while j < len
        invariant
            j <= len,
            len == s@.len(),
            base@ == s@,
            out@ == old(out)@ + spec_escape(s@.take(j as int)),
        decreases len - j,
    {
        let c = base.get_char(j);
        proof {
            assert(s@.take(j + 1).drop_last() =~= s@.take(j as int));
            assert(s@.take(j + 1).last() == s@[j as int]);
        }
        if c == '"' || c == '\\' {
            out.push('\\');
            out.push(c);
        } else {
            out.push(c);
        }
        proof {
            assert(out@ =~= old(out)@ + spec_escape(s@.take(j + 1)));
        }
        j += 1;
    }
    proof {
        assert(s@.take(s@.len() as int) =~= s@);
    }
}

fn sheet_value(v: &Value, out: &mut String)
    ensures
        final(out)@ == old(out)@ + spec_sheet_value(v@),
{
    match v {
        Value::Num(x) => {
            let rendered = int_to_string(*x);
            out.append(rendered.as_str());
        },
        Value::Bool(b) => {
            if *b {
                out.append("true");
            } else {
                out.append("false");
            }
        },
        Value::Text(s) => {
            out.push('"');
            escape_text(s, out);
            out.push('"');
            proof {
                assert(out@ =~= old(out)@ + spec_sheet_value(v@));
            }
        },
    }
}

fn sheet_entry(key: &String, n: &Node, ind: &String, out: &mut String)
    ensures
        final(out)@ == old(out)@ + spec_sheet_entry(key@, n@, ind@),
    decreases *n,
{
    out.append(ind.as_str());
    out.append(key.as_str());
    match n {
        Node::Leaf(v) => {
            out.push(':');
            out.push(' ');
            sheet_value(v, out);
            proof {
                assert(out@ =~= old(out)@ + spec_sheet_entry(key@, n@, ind@));
            }
        },
        Node::Obj(entries) => {
            out.push('\n');
            let mut deeper = ind.clone();
            deeper.push(' ');
            deeper.push(' ');
            proof {
                assert(deeper@ =~= ind@ + seq![' ', ' ']);
                assert(*n is Obj);
                assert((*n)->Obj_0 == *entries);
                assert(decreases_to!(*n => (*n)->Obj_0));
                assert(decreases_to!(*entries => entries@));
            }
            sheet_entries(entries, &deeper, out);
            proof {
                assert(out@ =~= old(out)@ + spec_sheet_entry(key@, n@, ind@));
            }
        },
    }
}

fn sheet_entries(entries: &Vec<(String, Node)>, ind: &String, out: &mut String)
    ensures
        final(out)@ == old(out)@ + spec_sheet_entries(crate::tree::view_entry_seq(entries@), ind@),
    decreases entries@,
{
    let ghost es = crate::tree::view_entry_seq(entries@);
    let ghost base = old(out)@;
    proof {
        crate::tree::lemma_view_entries(entries@);
        assert(out@ =~= base + spec_sheet_entries(es.take(0), ind@));
    }
    let mut i: usize = 0;
    while i < entries.len()
        invariant
            i <= entries@.len(),
            es == crate::tree::view_entry_seq(entries@),
            es.len() == entries@.len(),
            forall|k: int|
                0 <= k < entries@.len() ==> #[trigger] es[k] == (
                    entries@[k].0@,
                    crate::tree::node_view(entries@[k].1),
                ),
            out@ == base + spec_sheet_entries(es.take(i as int), ind@),
        decreases entries@.len() - i,
    {
        proof {
            assert(es.take(i + 1).drop_last() =~= es.take(i as int));
            assert(es.take(i + 1).last() == es[i as int]);
            if i == 0 {
                assert(es.take(1)[0] == es[0]);
            }
        }
        if i > 0 {
            out.push('\n');
        }
        proof {
            assert(decreases_to!(entries@ => entries@[i as int]));
            assert(decreases_to!(entries@[i as int] => entries@[i as int].1));
        }
        sheet_entry(&entries[i].0, &entries[i].1, ind, out);
        proof {
            assert(out@ =~= base + spec_sheet_entries(es.take(i + 1), ind@));
        }
        i += 1;
    }
    proof {
        assert(es.take(entries@.len() as int) =~= es);
    }
}

/// Renders a whole reconstructed tree as sheet text.
pub fn render_sheet(t: &Node, out: &mut String)
    ensures
        final(out)@ == old(out)@ + spec_sheet(t@),
{
    match t {
        Node::Leaf(v) => {
            sheet_value(v, out);
        },
        Node::Obj(entries) => {
            let empty_ind = String::new();
            proof {
                assert(*t is Obj);
                assert((*t)->Obj_0 == *entries);
            }
            sheet_entries(entries, &empty_ind, out);
        },
    }
}

/// A full sheet: a `=== name ===` banner over the rendered state.
pub open spec fn spec_character_sheet(name: Seq<char>, t: SpecNode) -> Seq<char> {
    "=== "@ + name + " ===\n"@ + spec_sheet(t)
}

impl crate::store::AppState {
    /// The same reconstruction as `get_entity_state`, rendered as a
    /// label/value sheet under the entity's name.
    pub fn format_character_sheet(&self, entity_id: &String, position: usize) -> (r: Result<
        String,
        crate::model::ErrorKind,
    >)
        ensures
            match r {
                Ok(s) => crate::store::first_entity_idx(self@.entities, entity_id@) >= 0 && s@
                    == spec_character_sheet(
                    self@.entities[crate::store::first_entity_idx(self@.entities, entity_id@)].name,
                    crate::replay::spec_replay(self@.markers, entity_id@, position as int),
                ),
                Err(k) => crate::store::first_entity_idx(self@.entities, entity_id@) == -1 && k
                    == crate::model::ErrorKind::NotFound,
            },
    {
        let ghost ev = crate::model::entities_view(self.entities@);
        match crate::store::find_entity(&self.entities, entity_id) {
            None => Err(crate::model::ErrorKind::NotFound),
            Some(j) => {
                proof {
                    crate::store::lemma_first_entity_idx_props(ev, entity_id@);
                }
                let t = crate::replay::replay_markers(&self.markers, entity_id, position);
                let mut out = String::from_str("=== ");
                out.append(self.entities[j].name.as_str());
                out.append(" ===\n");
                render_sheet(&t, &mut out);
                Ok(out)
            },
        }
    }
}

} // verus!
