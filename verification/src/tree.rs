//! The nested attribute tree.
//!
//! A tree node is either a scalar leaf or an object holding children as an
//! association list in first-insertion order.  Dotted paths address nodes;
//! `set` creates intermediate objects, `remove` never prunes emptied
//! parents, and a type mismatch on the way down (a scalar where an object
//! is needed) makes the operation a no-op for `set`/`remove` and a miss
//! for `get`.

use vstd::prelude::*;

verus! {

use vstd::string::StrSliceExecFns;
use crate::value::SpecValue;
use crate::value::Value;

/// Mathematical model of a tree node.
#[verifier::ext_equal]
pub enum SpecNode {
    Leaf(SpecValue),
    Obj(Seq<(Seq<char>, SpecNode)>),
}

/// A node of the attribute tree: a scalar leaf, or an object holding its
/// children in first-insertion order.
#[derive(Debug)]
pub enum Node {
    Leaf(Value),
    Obj(Vec<(String, Node)>),
}

pub open spec fn node_view(n: Node) -> SpecNode
    decreases n,
{
    match n {
        Node::Leaf(v) => SpecNode::Leaf(v@),
        Node::Obj(entries) => SpecNode::Obj(view_entry_seq(entries@)),
    }
}

pub open spec fn view_entry_seq(s: Seq<(String, Node)>) -> Seq<(Seq<char>, SpecNode)>
    decreases s,
{
    if s.len() == 0 {
        Seq::empty()
    } else {
        view_entry_seq(s.drop_last()).push((s.last().0@, node_view(s.last().1)))
    }
}

impl View for Node {
    type V = SpecNode;

    open spec fn view(&self) -> SpecNode {
        node_view(*self)
    }
}

/// The view of an entry list is its pointwise view.
pub proof fn lemma_view_entries(s: Seq<(String, Node)>)
    ensures
        view_entry_seq(s).len() == s.len(),
        forall|i: int|
            0 <= i < s.len() ==> #[trigger] view_entry_seq(s)[i] == (
                s[i].0@,
                node_view(s[i].1),
            ),
    decreases s.len(),
{
    if s.len() > 0 {
        lemma_view_entries(s.drop_last());
    }
}

/// First binding of a key in an entry list, if any.
pub open spec fn spec_lookup(es: Seq<(Seq<char>, SpecNode)>, k: Seq<char>) -> Option<SpecNode>
    decreases es.len(),
{
    if es.len() == 0 {
        None
    } else if es[0].0 == k {
        Some(es[0].1)
    } else {
        spec_lookup(es.skip(1), k)
    }
}

/// Rebind a key in place, or append the binding if the key is new.
pub open spec fn spec_update(
    es: Seq<(Seq<char>, SpecNode)>,
    k: Seq<char>,
    child: SpecNode,
) -> Seq<(Seq<char>, SpecNode)>
    decreases es.len(),
{
    if es.len() == 0 {
        seq![(k, child)]
    } else if es[0].0 == k {
        seq![(k, child)] + es.skip(1)
    } else {
        seq![es[0]] + spec_update(es.skip(1), k, child)
    }
}

/// Drop the binding of a key, keeping the order of the others.
pub open spec fn spec_remove_key(es: Seq<(Seq<char>, SpecNode)>, k: Seq<char>) -> Seq<
    (Seq<char>, SpecNode),
>
    decreases es.len(),
{
    if es.len() == 0 {
        es
    } else if es[0].0 == k {
        es.skip(1)
    } else {
        seq![es[0]] + spec_remove_key(es.skip(1), k)
    }
}

pub proof fn lemma_lookup_found(es: Seq<(Seq<char>, SpecNode)>, k: Seq<char>, j: int)
    requires
        0 <= j < es.len(),
        es[j].0 == k,
        forall|i: int| 0 <= i < j ==> #[trigger] es[i].0 != k,
    ensures
        spec_lookup(es, k) == Some(es[j].1),
    decreases es.len(),
{
    if j > 0 {
        lemma_lookup_found(es.skip(1), k, j - 1);
    }
}

pub proof fn lemma_lookup_none(es: Seq<(Seq<char>, SpecNode)>, k: Seq<char>)
    requires
        forall|i: int| 0 <= i < es.len() ==> #[trigger] es[i].0 != k,
    ensures
        spec_lookup(es, k) == None::<SpecNode>,
    decreases es.len(),
{
    if es.len() > 0 {
        lemma_lookup_none(es.skip(1), k);
    }
}

pub proof fn lemma_update_found(
    es: Seq<(Seq<char>, SpecNode)>,
    k: Seq<char>,
    child: SpecNode,
    j: int,
)
    requires
        0 <= j < es.len(),
        es[j].0 == k,
        forall|i: int| 0 <= i < j ==> #[trigger] es[i].0 != k,
    ensures
        spec_update(es, k, child) =~= es.update(j, (k, child)),
    decreases es.len(),
{
    if j > 0 {
        lemma_update_found(es.skip(1), k, child, j - 1);
        assert(es.update(j, (k, child)).skip(1) =~= es.skip(1).update(j - 1, (k, child)));
    }
}

pub proof fn lemma_update_missing(es: Seq<(Seq<char>, SpecNode)>, k: Seq<char>, child: SpecNode)
    requires
        forall|i: int| 0 <= i < es.len() ==> #[trigger] es[i].0 != k,
    ensures
        spec_update(es, k, child) =~= es.push((k, child)),
    decreases es.len(),
{
    if es.len() > 0 {
        lemma_update_missing(es.skip(1), k, child);
        assert(es.push((k, child)).skip(1) =~= es.skip(1).push((k, child)));
    }
}

pub proof fn lemma_remove_key_found(es: Seq<(Seq<char>, SpecNode)>, k: Seq<char>, j: int)
    requires
        0 <= j < es.len(),
        es[j].0 == k,
        forall|i: int| 0 <= i < j ==> #[trigger] es[i].0 != k,
    ensures
        spec_remove_key(es, k) =~= es.remove(j),
    decreases es.len(),
{
    if j > 0 {
        lemma_remove_key_found(es.skip(1), k, j - 1);
        assert(es.remove(j).skip(1) =~= es.skip(1).remove(j - 1));
    }
}

pub proof fn lemma_remove_key_missing(es: Seq<(Seq<char>, SpecNode)>, k: Seq<char>)
    requires
        forall|i: int| 0 <= i < es.len() ==> #[trigger] es[i].0 != k,
    ensures
        spec_remove_key(es, k) =~= es,
    decreases es.len(),
{
    if es.len() > 0 {
        lemma_remove_key_missing(es.skip(1), k);
        assert(seq![es[0]] + es.skip(1) =~= es);
    }
}

/// Reading a node by path: every segment but the last must lead through
/// an object; the addressed node itself may be of either kind.
pub open spec fn spec_get(n: SpecNode, path: Seq<Seq<char>>) -> Option<SpecNode>
    decreases path.len(),
{
    if path.len() == 0 {
        Some(n)
    } else {
        match n {
            SpecNode::Leaf(_) => None,
            SpecNode::Obj(es) => match spec_lookup(es, path[0]) {
                Some(child) => spec_get(child, path.skip(1)),
                None => None,
            },
        }
    }
}

/// Writing a value at a path: intermediate objects are created for missing
/// segments, the final segment is overwritten whatever it held, and a
/// scalar met on the way down leaves the tree unchanged.
pub open spec fn spec_set(n: SpecNode, path: Seq<Seq<char>>, v: SpecValue) -> SpecNode
    recommends
        path.len() >= 1,
    decreases path.len(),
{
    match n {
        SpecNode::Leaf(_) => n,
        SpecNode::Obj(es) => {
            if path.len() <= 1 {
                SpecNode::Obj(spec_update(es, path[0], SpecNode::Leaf(v)))
            } else {
                match spec_lookup(es, path[0]) {
                    Some(child) => match child {
                        SpecNode::Obj(_) => SpecNode::Obj(
                            spec_update(es, path[0], spec_set(child, path.skip(1), v)),
                        ),
                        SpecNode::Leaf(_) => n,
                    },
                    None => SpecNode::Obj(
                        spec_update(
                            es,
                            path[0],
                            spec_set(SpecNode::Obj(Seq::empty()), path.skip(1), v),
                        ),
                    ),
                }
            }
        },
    }
}

/// Deleting a path: the parent loses the final key; a missing or scalar
/// ancestor makes this a no-op, and emptied parents are not pruned.
pub open spec fn spec_remove(n: SpecNode, path: Seq<Seq<char>>) -> SpecNode
    recommends
        path.len() >= 1,
    decreases path.len(),
{
    match n {
        SpecNode::Leaf(_) => n,
        SpecNode::Obj(es) => {
            if path.len() <= 1 {
                SpecNode::Obj(spec_remove_key(es, path[0]))
            } else {
                match spec_lookup(es, path[0]) {
                    Some(child) => SpecNode::Obj(
                        spec_update(es, path[0], spec_remove(child, path.skip(1))),
                    ),
                    None => n,
                }
            }
        },
    }
}

/// Views of a sequence of strings, segment by segment.
pub open spec fn str_seq_view(s: Seq<String>) -> Seq<Seq<char>> {
    s.map_values(|x: String| x@)
}

/// Splitting a dotted path at every dot; a path with no dots is one
/// segment, and empty segments are kept.
pub open spec fn spec_split(s: Seq<char>) -> Seq<Seq<char>>
    decreases s.len(),
{
    if s.len() == 0 {
        seq![Seq::empty()]
    } else if s.last() == '.' {
        spec_split(s.drop_last()).push(Seq::empty())
    } else {
        let r = spec_split(s.drop_last());
        r.update(r.len() - 1, r.last().push(s.last()))
    }
}

pub proof fn lemma_split_len(s: Seq<char>)
    ensures
        spec_split(s).len() >= 1,
    decreases s.len(),
{
    if s.len() > 0 {
        lemma_split_len(s.drop_last());
    }
}

pub fn split_path(s: &str) -> (segs: Vec<String>)
    ensures
        str_seq_view(segs@) == spec_split(s@),
        segs@.len() >= 1,
{
    let len = s.unicode_len();
    let mut segs: Vec<String> = Vec::new();
    let mut seg_start: usize = 0;
    let mut j: usize = 0;
    proof {
        assert(s@.subrange(0, 0) =~= Seq::<char>::empty());
        assert(str_seq_view(segs@).push(s@.subrange(0, 0)) =~~= spec_split(s@.subrange(0, 0)));
    }
    while j < len
        invariant
            seg_start <= j <= len,
            len == s@.len(),
            str_seq_view(segs@).push(s@.subrange(seg_start as int, j as int)) =~~= spec_split(
                s@.subrange(0, j as int),
            ),
        decreases len - j,
    {
        let c = s.get_char(j);
        proof {
            assert(s@.subrange(0, j + 1 as int).drop_last() =~= s@.subrange(0, j as int));
            assert(s@.subrange(0, j + 1 as int).last() == s@[j as int]);
            lemma_split_len(s@.subrange(0, j as int));
        }
        if c == '.' {
            let seg = s.substring_char(seg_start, j).to_owned();
            segs.push(seg);
            seg_start = j + 1;
            proof {
                assert(s@.subrange(seg_start as int, j + 1 as int) =~= Seq::<char>::empty());
                assert(str_seq_view(segs@).push(s@.subrange(seg_start as int, j + 1 as int))
                    =~~= spec_split(s@.subrange(0, j + 1 as int)));
            }
        } else {
            proof {
                assert(s@.subrange(seg_start as int, j + 1 as int) =~= s@.subrange(
                    seg_start as int,
                    j as int,
                ).push(s@[j as int]));
                assert(str_seq_view(segs@).push(s@.subrange(seg_start as int, j + 1 as int))
                    =~~= spec_split(s@.subrange(0, j + 1 as int)));
            }
        }
        j += 1;
    }
    let last_seg = s.substring_char(seg_start, len).to_owned();
    segs.push(last_seg);
    proof {
        assert(s@.subrange(0, len as int) =~= s@);
        assert(str_seq_view(segs@) =~~= spec_split(s@));
    }
    segs
}

pub proof fn lemma_lookup_update(es: Seq<(Seq<char>, SpecNode)>, k: Seq<char>, c: SpecNode)
    ensures
        spec_lookup(spec_update(es, k, c), k) == Some(c),
    decreases es.len(),
{
    if es.len() > 0 && es[0].0 != k {
        lemma_lookup_update(es.skip(1), k, c);
        assert((seq![es[0]] + spec_update(es.skip(1), k, c)).skip(1) =~= spec_update(
            es.skip(1),
            k,
            c,
        ));
    } else if es.len() > 0 {
        assert((seq![(k, c)] + es.skip(1))[0] == (k, c));
    }
}

pub proof fn lemma_lookup_update_other(
    es: Seq<(Seq<char>, SpecNode)>,
    k: Seq<char>,
    c: SpecNode,
    k2: Seq<char>,
)
    requires
        k2 != k,
    ensures
        spec_lookup(spec_update(es, k, c), k2) == spec_lookup(es, k2),
    decreases es.len(),
{
    if es.len() == 0 {
        let u = spec_update(es, k, c);
        assert(u == seq![(k, c)]);
        assert(u[0] == (k, c));
        assert(u[0].0 != k2);
        assert(u.skip(1) =~= Seq::<(Seq<char>, SpecNode)>::empty());
        assert(spec_lookup(u, k2) == spec_lookup(u.skip(1), k2));
    } else if es[0].0 == k {
        let u = spec_update(es, k, c);
        assert(u == seq![(k, c)] + es.skip(1));
        assert(u[0] == (k, c));
        assert(u[0].0 != k2);
        assert(u.skip(1) =~= es.skip(1));
        assert(spec_lookup(u, k2) == spec_lookup(es.skip(1), k2));
        assert(es[0].0 != k2);
        assert(spec_lookup(es, k2) == spec_lookup(es.skip(1), k2));
    } else {
        lemma_lookup_update_other(es.skip(1), k, c, k2);
        let u = spec_update(es, k, c);
        assert(u == seq![es[0]] + spec_update(es.skip(1), k, c));
        assert(u[0] == es[0]);
        assert(u.skip(1) =~= spec_update(es.skip(1), k, c));
        if es[0].0 == k2 {
            assert(spec_lookup(u, k2) == Some(u[0].1));
            assert(spec_lookup(es, k2) == Some(es[0].1));
        } else {
            assert(spec_lookup(u, k2) == spec_lookup(spec_update(es.skip(1), k, c), k2));
            assert(spec_lookup(es, k2) == spec_lookup(es.skip(1), k2));
        }
    }
}

/// A lookup that misses means the key is nowhere in the list.
pub proof fn lemma_lookup_none_forall(es: Seq<(Seq<char>, SpecNode)>, k: Seq<char>)
    requires
        spec_lookup(es, k) is None,
    ensures
        forall|i: int| 0 <= i < es.len() ==> (#[trigger] es[i]).0 != k,
    decreases es.len(),
{
    if es.len() > 0 {
        lemma_lookup_none_forall(es.skip(1), k);
        assert forall|i: int| 0 <= i < es.len() implies (#[trigger] es[i]).0 != k by {
            if i > 0 {
                assert(es.skip(1)[i - 1].0 != k);
            }
        }
    }
}

/// Rebinding the same key twice leaves what one rebinding leaves.
pub proof fn lemma_update_update(es: Seq<(Seq<char>, SpecNode)>, k: Seq<char>, c: SpecNode)
    ensures
        spec_update(spec_update(es, k, c), k, c) == spec_update(es, k, c),
    decreases es.len(),
{
    if es.len() == 0 {
        assert(spec_update(es, k, c)[0] == (k, c));
        assert(spec_update(spec_update(es, k, c), k, c) =~= spec_update(es, k, c));
    } else if es[0].0 == k {
        assert((seq![(k, c)] + es.skip(1))[0] == (k, c));
        assert((seq![(k, c)] + es.skip(1)).skip(1) =~= es.skip(1));
        assert(spec_update(spec_update(es, k, c), k, c) =~= spec_update(es, k, c));
    } else {
        lemma_update_update(es.skip(1), k, c);
        assert((seq![es[0]] + spec_update(es.skip(1), k, c))[0] == es[0]);
        assert((seq![es[0]] + spec_update(es.skip(1), k, c)).skip(1) =~= spec_update(
            es.skip(1),
            k,
            c,
        ));
        assert(spec_update(spec_update(es, k, c), k, c) =~= spec_update(es, k, c));
    }
}

/// Rebinding a key twice keeps only the second binding.
pub proof fn lemma_update_overwrite(
    es: Seq<(Seq<char>, SpecNode)>,
    k: Seq<char>,
    c1: SpecNode,
    c2: SpecNode,
)
    ensures
        spec_update(spec_update(es, k, c1), k, c2) == spec_update(es, k, c2),
    decreases es.len(),
{
    if es.len() == 0 {
        assert(spec_update(es, k, c1)[0] == (k, c1));
        assert(spec_update(spec_update(es, k, c1), k, c2) =~= spec_update(es, k, c2));
    } else if es[0].0 == k {
        assert((seq![(k, c1)] + es.skip(1))[0] == (k, c1));
        assert((seq![(k, c1)] + es.skip(1)).skip(1) =~= es.skip(1));
        assert(spec_update(spec_update(es, k, c1), k, c2) =~= spec_update(es, k, c2));
    } else {
        lemma_update_overwrite(es.skip(1), k, c1, c2);
        assert((seq![es[0]] + spec_update(es.skip(1), k, c1))[0] == es[0]);
        assert((seq![es[0]] + spec_update(es.skip(1), k, c1)).skip(1) =~= spec_update(
            es.skip(1),
            k,
            c1,
        ));
        assert(spec_update(spec_update(es, k, c1), k, c2) =~= spec_update(es, k, c2));
    }
}

/// Looking a key up in a concatenation reads the left part first.
pub proof fn lemma_lookup_append(
    b: Seq<(Seq<char>, SpecNode)>,
    es: Seq<(Seq<char>, SpecNode)>,
    k: Seq<char>,
)
    ensures
        spec_lookup(b + es, k) == (match spec_lookup(b, k) {
            Some(c) => Some(c),
            None => spec_lookup(es, k),
        }),
    decreases b.len(),
{
    if b.len() == 0 {
        assert(b + es =~= es);
    } else {
        assert((b + es)[0] == b[0]);
        assert((b + es).skip(1) =~= b.skip(1) + es);
        lemma_lookup_append(b.skip(1), es, k);
    }
}

/// Writing into an object yields an object.
pub proof fn lemma_set_stays_obj(n: SpecNode, path: Seq<Seq<char>>, v: SpecValue)
    requires
        n is Obj,
    ensures
        spec_set(n, path, v) is Obj,
{
}

/// Applying the same SET twice in sequence leaves exactly what one
/// application leaves.
pub proof fn lemma_set_set(n: SpecNode, path: Seq<Seq<char>>, v: SpecValue)
    requires
        path.len() >= 1,
    ensures
        spec_set(spec_set(n, path, v), path, v) == spec_set(n, path, v),
    decreases path.len(),
{
    match n {
        SpecNode::Leaf(_) => {},
        SpecNode::Obj(es) => {
            let k = path[0];
            if path.len() <= 1 {
                lemma_update_update(es, k, SpecNode::Leaf(v));
            } else {
                match spec_lookup(es, k) {
                    Some(child) => {
                        match child {
                            SpecNode::Obj(_) => {
                                let child2 = spec_set(child, path.skip(1), v);
                                lemma_set_stays_obj(child, path.skip(1), v);
                                lemma_set_set(child, path.skip(1), v);
                                lemma_lookup_update(es, k, child2);
                                lemma_update_update(es, k, child2);
                            },
                            SpecNode::Leaf(_) => {},
                        }
                    },
                    None => {
                        let child2 = spec_set(
                            SpecNode::Obj(Seq::<(Seq<char>, SpecNode)>::empty()),
                            path.skip(1),
                            v,
                        );
                        lemma_set_stays_obj(
                            SpecNode::Obj(Seq::<(Seq<char>, SpecNode)>::empty()),
                            path.skip(1),
                            v,
                        );
                        lemma_set_set(
                            SpecNode::Obj(Seq::<(Seq<char>, SpecNode)>::empty()),
                            path.skip(1),
                            v,
                        );
                        lemma_lookup_update(es, k, child2);
                        lemma_update_update(es, k, child2);
                    },
                }
            }
        },
    }
}

proof fn lemma_lookup_some_index(es: Seq<(Seq<char>, SpecNode)>, k: Seq<char>)
    requires
        spec_lookup(es, k) is Some,
    ensures
        exists|j: int|
            0 <= j < es.len() && (#[trigger] es[j]).0 == k && es[j].1 == spec_lookup(
                es,
                k,
            )->Some_0 && forall|i: int| 0 <= i < j ==> (#[trigger] es[i]).0 != k,
    decreases es.len(),
{
    if es[0].0 == k {
        assert(es[0].0 == k && es[0].1 == spec_lookup(es, k)->Some_0);
    } else {
        lemma_lookup_some_index(es.skip(1), k);
        let j0 = choose|j: int|
            0 <= j < es.skip(1).len() && (#[trigger] es.skip(1)[j]).0 == k && es.skip(1)[j].1
                == spec_lookup(es.skip(1), k)->Some_0 && forall|i: int|
                0 <= i < j ==> (#[trigger] es.skip(1)[i]).0 != k;
        assert(es[j0 + 1].0 == k && es[j0 + 1].1 == spec_lookup(es, k)->Some_0);
        assert(forall|i: int| 1 <= i < j0 + 1 ==> (#[trigger] es[i]).0 == es.skip(1)[i - 1].0);
        assert(forall|i: int| 0 <= i < j0 + 1 ==> (#[trigger] es[i]).0 != k);
    }
}

/// Rebinding a key to the value it already has changes nothing.
proof fn lemma_update_same(es: Seq<(Seq<char>, SpecNode)>, k: Seq<char>)
    requires
        spec_lookup(es, k) is Some,
    ensures
        spec_update(es, k, spec_lookup(es, k)->Some_0) == es,
{
    lemma_lookup_some_index(es, k);
    let j = choose|j: int|
        0 <= j < es.len() && (#[trigger] es[j]).0 == k && es[j].1 == spec_lookup(es, k)->Some_0
            && forall|i: int| 0 <= i < j ==> (#[trigger] es[i]).0 != k;
    lemma_update_found(es, k, spec_lookup(es, k)->Some_0, j);
    assert(es.update(j, (k, spec_lookup(es, k)->Some_0)) =~= es);
}

/// REMOVE of a path that addresses nothing is a no-op.
pub proof fn lemma_remove_absent(n: SpecNode, path: Seq<Seq<char>>)
    requires
        path.len() >= 1,
        spec_get(n, path) == None::<SpecNode>,
    ensures
        spec_remove(n, path) == n,
    decreases path.len(),
{
    match n {
        SpecNode::Leaf(_) => {},
        SpecNode::Obj(es) => {
            let k = path[0];
            if path.len() <= 1 {
                assert(path.skip(1) =~= Seq::<Seq<char>>::empty());
                if spec_lookup(es, k) is Some {
                    let child = spec_lookup(es, k)->Some_0;
                    assert(spec_get(n, path) == spec_get(child, path.skip(1)));
                    assert(spec_get(child, Seq::<Seq<char>>::empty()) == Some(child));
                    assert(false);
                }
                lemma_lookup_none_forall(es, k);
                lemma_remove_key_missing(es, k);
                assert(spec_remove_key(es, k) == es);
            } else {
                match spec_lookup(es, k) {
                    Some(child) => {
                        assert(spec_get(child, path.skip(1)) == None::<SpecNode>);
                        lemma_remove_absent(child, path.skip(1));
                        lemma_update_same(es, k);
                    },
                    None => {},
                }
            }
        },
    }
}

/// Whether a SET along this path will take effect: no scalar blocks an
/// intermediate segment.
pub open spec fn spec_settable(n: SpecNode, path: Seq<Seq<char>>) -> bool
    decreases path.len(),
{
    match n {
        SpecNode::Leaf(_) => false,
        SpecNode::Obj(es) => path.len() <= 1 || (match spec_lookup(es, path[0]) {
            Some(child) => child is Obj && spec_settable(child, path.skip(1)),
            None => true,
        }),
    }
}

/// Reading a path straight after setting it yields the set value, as
/// long as no scalar blocked the walk.
pub proof fn lemma_get_after_set(n: SpecNode, path: Seq<Seq<char>>, v: SpecValue)
    requires
        path.len() >= 1,
        spec_settable(n, path),
    ensures
        spec_get(spec_set(n, path, v), path) == Some(SpecNode::Leaf(v)),
    decreases path.len(),
{
    match n {
        SpecNode::Leaf(_) => {
            assert(!spec_settable(n, path));
        },
        SpecNode::Obj(es) => {
            let k = path[0];
            if path.len() <= 1 {
                lemma_lookup_update(es, k, SpecNode::Leaf(v));
                assert(path.skip(1) =~= Seq::<Seq<char>>::empty());
                assert(spec_set(n, path, v) == SpecNode::Obj(
                    spec_update(es, k, SpecNode::Leaf(v)),
                ));
                assert(spec_get(spec_set(n, path, v), path) == spec_get(
                    SpecNode::Leaf(v),
                    path.skip(1),
                ));
                assert(spec_get(SpecNode::Leaf(v), path.skip(1)) == Some(SpecNode::Leaf(v)));
            } else {
                match spec_lookup(es, k) {
                    Some(child) => {
                        assert(child is Obj);
                        lemma_get_after_set(child, path.skip(1), v);
                        let child2 = spec_set(child, path.skip(1), v);
                        lemma_lookup_update(es, k, child2);
                        assert(spec_set(n, path, v) == SpecNode::Obj(spec_update(es, k, child2)));
                        assert(spec_get(spec_set(n, path, v), path) == spec_get(
                            child2,
                            path.skip(1),
                        ));
                    },
                    None => {
                        let empty_obj = SpecNode::Obj(Seq::<(Seq<char>, SpecNode)>::empty());
                        assert(spec_settable(empty_obj, path.skip(1)));
                        lemma_get_after_set(empty_obj, path.skip(1), v);
                        let child2 = spec_set(empty_obj, path.skip(1), v);
                        lemma_lookup_update(es, k, child2);
                        assert(spec_set(n, path, v) == SpecNode::Obj(spec_update(es, k, child2)));
                        assert(spec_get(spec_set(n, path, v), path) == spec_get(
                            child2,
                            path.skip(1),
                        ));
                    },
                }
            }
        },
    }
}

/// A well-formed tree: every object's keys are distinct, recursively.
/// The empty tree is well-formed, and `set`/`remove` preserve it, so every
/// replayed tree is.
pub open spec fn wf_node(n: SpecNode) -> bool
    decreases n,
{
    match n {
        SpecNode::Leaf(_) => true,
        SpecNode::Obj(es) => (forall|i: int, j: int| 0 <= i < j < es.len() ==> es[i].0 != es[j].0)
            && (forall|i: int| 0 <= i < es.len() ==> wf_node(#[trigger] es[i].1)),
    }
}

/// One path addresses at or under another.
pub open spec fn path_is_prefix(p: Seq<Seq<char>>, q: Seq<Seq<char>>) -> bool {
    p.len() <= q.len() && forall|i: int| 0 <= i < p.len() ==> q[i] == p[i]
}

proof fn lemma_update_wf(es: Seq<(Seq<char>, SpecNode)>, k: Seq<char>, c: SpecNode)
    requires
        forall|i: int, j: int| 0 <= i < j < es.len() ==> es[i].0 != es[j].0,
        forall|i: int| 0 <= i < es.len() ==> wf_node(#[trigger] es[i].1),
        wf_node(c),
    ensures
        forall|i: int, j: int|
            0 <= i < j < spec_update(es, k, c).len() ==> spec_update(es, k, c)[i].0 != spec_update(
                es,
                k,
                c,
            )[j].0,
        forall|i: int|
            0 <= i < spec_update(es, k, c).len() ==> wf_node(
                (#[trigger] spec_update(es, k, c)[i]).1,
            ),
{
    let u = spec_update(es, k, c);
    if spec_lookup(es, k) is Some {
        lemma_lookup_some_index(es, k);
        let j = choose|j: int|
            0 <= j < es.len() && (#[trigger] es[j]).0 == k && es[j].1 == spec_lookup(es, k)->Some_0
                && forall|i: int| 0 <= i < j ==> (#[trigger] es[i]).0 != k;
        lemma_update_found(es, k, c, j);
        assert(u =~= es.update(j, (k, c)));
        assert forall|a: int, b: int| 0 <= a < b < u.len() implies u[a].0 != u[b].0 by {
            assert(es[a].0 == if a == j {
                k
            } else {
                u[a].0
            });
            assert(es[b].0 == if b == j {
                k
            } else {
                u[b].0
            });
        }
    } else {
        lemma_lookup_none_forall(es, k);
        lemma_update_missing(es, k, c);
        assert(u =~= es.push((k, c)));
        assert forall|a: int, b: int| 0 <= a < b < u.len() implies u[a].0 != u[b].0 by {
            if b < es.len() {
                assert(u[a] == es[a] && u[b] == es[b]);
            } else {
                assert(u[a] == es[a] && u[b] == (k, c));
            }
        }
    }
}

/// `set` keeps a tree well-formed.
pub proof fn lemma_set_preserves_wf(n: SpecNode, path: Seq<Seq<char>>, v: SpecValue)
    requires
        wf_node(n),
        path.len() >= 1,
    ensures
        wf_node(spec_set(n, path, v)),
    decreases path.len(),
{
    match n {
        SpecNode::Leaf(_) => {},
        SpecNode::Obj(es) => {
            let k = path[0];
            if path.len() <= 1 {
                lemma_update_wf(es, k, SpecNode::Leaf(v));
            } else {
                match spec_lookup(es, k) {
                    Some(child) => {
                        if child is Obj {
                            lemma_lookup_some_index(es, k);
                            let j = choose|j: int|
                                0 <= j < es.len() && (#[trigger] es[j]).0 == k && es[j].1
                                    == spec_lookup(es, k)->Some_0 && forall|i: int|
                                    0 <= i < j ==> (#[trigger] es[i]).0 != k;
                            assert(wf_node(es[j].1));
                            lemma_set_preserves_wf(child, path.skip(1), v);
                            lemma_update_wf(es, k, spec_set(child, path.skip(1), v));
                        }
                    },
                    None => {
                        let empty_obj = SpecNode::Obj(Seq::<(Seq<char>, SpecNode)>::empty());
                        assert(wf_node(empty_obj));
                        lemma_set_preserves_wf(empty_obj, path.skip(1), v);
                        lemma_update_wf(es, k, spec_set(empty_obj, path.skip(1), v));
                    },
                }
            }
        },
    }
}

proof fn lemma_remove_key_wf(es: Seq<(Seq<char>, SpecNode)>, k: Seq<char>)
    requires
        forall|i: int, j: int| 0 <= i < j < es.len() ==> es[i].0 != es[j].0,
        forall|i: int| 0 <= i < es.len() ==> wf_node(#[trigger] es[i].1),
    ensures
        forall|i: int, j: int|
            0 <= i < j < spec_remove_key(es, k).len() ==> spec_remove_key(es, k)[i].0
                != spec_remove_key(es, k)[j].0,
        forall|i: int|
            0 <= i < spec_remove_key(es, k).len() ==> wf_node(
                (#[trigger] spec_remove_key(es, k)[i]).1,
            ),
{
    let u = spec_remove_key(es, k);
    if spec_lookup(es, k) is Some {
        lemma_lookup_some_index(es, k);
        let j = choose|j: int|
            0 <= j < es.len() && (#[trigger] es[j]).0 == k && es[j].1 == spec_lookup(es, k)->Some_0
                && forall|i: int| 0 <= i < j ==> (#[trigger] es[i]).0 != k;
        lemma_remove_key_found(es, k, j);
        assert(u =~= es.remove(j));
        assert forall|a: int, b: int| 0 <= a < b < u.len() implies u[a].0 != u[b].0 by {
            let a0 = if a < j {
                a
            } else {
                a + 1
            };
            let b0 = if b < j {
                b
            } else {
                b + 1
            };
            assert(u[a] == es[a0] && u[b] == es[b0]);
        }
        assert forall|i: int| 0 <= i < u.len() implies wf_node((#[trigger] u[i]).1) by {
            let i0 = if i < j {
                i
            } else {
                i + 1
            };
            assert(u[i] == es[i0]);
            assert(wf_node(es[i0].1));
        }
    } else {
        lemma_lookup_none_forall(es, k);
        lemma_remove_key_missing(es, k);
        assert(u =~= es);
    }
}

/// `remove` keeps a tree well-formed.
pub proof fn lemma_remove_preserves_wf(n: SpecNode, path: Seq<Seq<char>>)
    requires
        wf_node(n),
        path.len() >= 1,
    ensures
        wf_node(spec_remove(n, path)),
    decreases path.len(),
{
    match n {
        SpecNode::Leaf(_) => {},
        SpecNode::Obj(es) => {
            let k = path[0];
            if path.len() <= 1 {
                lemma_remove_key_wf(es, k);
            } else {
                match spec_lookup(es, k) {
                    Some(child) => {
                        lemma_lookup_some_index(es, k);
                        let j = choose|j: int|
                            0 <= j < es.len() && (#[trigger] es[j]).0 == k && es[j].1
                                == spec_lookup(es, k)->Some_0 && forall|i: int|
                                0 <= i < j ==> (#[trigger] es[i]).0 != k;
                        assert(wf_node(es[j].1));
                        lemma_remove_preserves_wf(child, path.skip(1));
                        lemma_update_wf(es, k, spec_remove(child, path.skip(1)));
                    },
                    None => {},
                }
            }
        },
    }
}

/// Writing beside a path cannot bring that path into existence.
pub proof fn lemma_set_off_path(t: SpecNode, p: Seq<Seq<char>>, fp: Seq<Seq<char>>, v: SpecValue)
    requires
        p.len() >= 1,
        fp.len() >= 1,
        !path_is_prefix(fp, p),
        spec_get(t, fp) == None::<SpecNode>,
    ensures
        spec_get(spec_set(t, p, v), fp) == None::<SpecNode>,
    decreases p.len(),
{
    match t {
        SpecNode::Leaf(_) => {},
        SpecNode::Obj(es) => {
            let k = p[0];
            if fp[0] != k {
                match spec_lookup(es, fp[0]) {
                    Some(c0) => {
                        lemma_same_lookup_off_key(es, k, fp, v, p, t);
                    },
                    None => {
                        lemma_same_lookup_off_key(es, k, fp, v, p, t);
                    },
                }
            } else {
                if fp.len() == 1 {
                    assert(path_is_prefix(fp, p));
                    assert(false);
                }
                assert(fp.skip(1).len() >= 1);
                if p.len() <= 1 {
                    lemma_lookup_update(es, k, SpecNode::Leaf(v));
                    assert(spec_get(SpecNode::Leaf(v), fp.skip(1)) == None::<SpecNode>);
                } else {
                    assert(!path_is_prefix(fp.skip(1), p.skip(1))) by {
                        if path_is_prefix(fp.skip(1), p.skip(1)) {
                            assert forall|i: int| 0 <= i < fp.len() implies p[i] == fp[i] by {
                                if i > 0 {
                                    assert(p.skip(1)[i - 1] == fp.skip(1)[i - 1]);
                                }
                            }
                            assert(path_is_prefix(fp, p));
                        }
                    }
                    match spec_lookup(es, k) {
                        Some(child) => {
                            assert(spec_get(child, fp.skip(1)) == None::<SpecNode>);
                            match child {
                                SpecNode::Obj(_) => {
                                    lemma_set_off_path(child, p.skip(1), fp.skip(1), v);
                                    lemma_lookup_update(es, k, spec_set(child, p.skip(1), v));
                                },
                                SpecNode::Leaf(_) => {},
                            }
                        },
                        None => {
                            let empty_obj = SpecNode::Obj(Seq::<(Seq<char>, SpecNode)>::empty());
                            assert(spec_get(empty_obj, fp.skip(1)) == None::<SpecNode>);
                            lemma_set_off_path(empty_obj, p.skip(1), fp.skip(1), v);
                            lemma_lookup_update(es, k, spec_set(empty_obj, p.skip(1), v));
                        },
                    }
                }
            }
        },
    }
}

/// Helper: a set under key `k` leaves lookups of other keys as they were.
proof fn lemma_same_lookup_off_key(
    es: Seq<(Seq<char>, SpecNode)>,
    k: Seq<char>,
    fp: Seq<Seq<char>>,
    v: SpecValue,
    p: Seq<Seq<char>>,
    t: SpecNode,
)
    requires
        t == SpecNode::Obj(es),
        p.len() >= 1,
        fp.len() >= 1,
        p[0] == k,
        fp[0] != k,
        spec_get(t, fp) == None::<SpecNode>,
    ensures
        spec_get(spec_set(t, p, v), fp) == None::<SpecNode>,
{
    if p.len() <= 1 {
        lemma_lookup_update_other(es, k, SpecNode::Leaf(v), fp[0]);
    } else {
        match spec_lookup(es, k) {
            Some(child) => {
                match child {
                    SpecNode::Obj(_) => {
                        lemma_lookup_update_other(es, k, spec_set(child, p.skip(1), v), fp[0]);
                    },
                    SpecNode::Leaf(_) => {},
                }
            },
            None => {
                let empty_obj = SpecNode::Obj(Seq::<(Seq<char>, SpecNode)>::empty());
                lemma_lookup_update_other(es, k, spec_set(empty_obj, p.skip(1), v), fp[0]);
            },
        }
    }
}

proof fn lemma_lookup_remove_key(es: Seq<(Seq<char>, SpecNode)>, k: Seq<char>, k2: Seq<char>)
    requires
        forall|i: int, j: int| 0 <= i < j < es.len() ==> es[i].0 != es[j].0,
    ensures
        k2 == k ==> spec_lookup(spec_remove_key(es, k), k2) == None::<SpecNode>,
        k2 != k ==> spec_lookup(spec_remove_key(es, k), k2) == spec_lookup(es, k2),
    decreases es.len(),
{
    if es.len() == 0 {
    } else if es[0].0 == k {
        assert(spec_remove_key(es, k) == es.skip(1));
        if k2 == k {
            assert forall|i: int| 0 <= i < es.skip(1).len() implies (
            #[trigger] es.skip(1)[i]).0 != k by {
                assert(es.skip(1)[i] == es[i + 1]);
                assert(es[0].0 != es[i + 1].0);
            }
            lemma_lookup_none(es.skip(1), k);
        }
    } else {
        assert(forall|i: int, j: int|
            0 <= i < j < es.skip(1).len() ==> es.skip(1)[i].0 != es.skip(1)[j].0);
        lemma_lookup_remove_key(es.skip(1), k, k2);
        let u = spec_remove_key(es, k);
        assert(u == seq![es[0]] + spec_remove_key(es.skip(1), k));
        assert(u[0] == es[0]);
        assert(u.skip(1) =~= spec_remove_key(es.skip(1), k));
    }
}

/// Removing a path cannot bring another path into existence.
pub proof fn lemma_remove_preserves_none(t: SpecNode, p: Seq<Seq<char>>, fp: Seq<Seq<char>>)
    requires
        wf_node(t),
        p.len() >= 1,
        fp.len() >= 1,
        spec_get(t, fp) == None::<SpecNode>,
    ensures
        spec_get(spec_remove(t, p), fp) == None::<SpecNode>,
    decreases p.len(),
{
    match t {
        SpecNode::Leaf(_) => {},
        SpecNode::Obj(es) => {
            let k = p[0];
            if p.len() <= 1 {
                lemma_lookup_remove_key(es, k, fp[0]);
                if fp[0] != k {
                    assert(spec_lookup(spec_remove_key(es, k), fp[0]) == spec_lookup(es, fp[0]));
                }
            } else {
                match spec_lookup(es, k) {
                    Some(child) => {
                        if fp[0] != k {
                            lemma_lookup_update_other(es, k, spec_remove(child, p.skip(1)), fp[0]);
                        } else {
                            assert(fp.len() >= 2) by {
                                if fp.len() == 1 {
                                    assert(fp.skip(1) =~= Seq::<Seq<char>>::empty());
                                    assert(spec_get(t, fp) == Some(child));
                                }
                            }
                            assert(spec_get(child, fp.skip(1)) == None::<SpecNode>);
                            lemma_lookup_some_index(es, k);
                            let j = choose|j: int|
                                0 <= j < es.len() && (#[trigger] es[j]).0 == k && es[j].1
                                    == spec_lookup(es, k)->Some_0 && forall|i: int|
                                    0 <= i < j ==> (#[trigger] es[i]).0 != k;
                            assert(wf_node(es[j].1));
                            lemma_remove_preserves_none(child, p.skip(1), fp.skip(1));
                            lemma_lookup_update(es, k, spec_remove(child, p.skip(1)));
                        }
                    },
                    None => {},
                }
            }
        },
    }
}

/// Removing a path never prunes its parent: the parent object stays in
/// place, merely losing the final binding — even when that leaves it
/// empty.
pub proof fn lemma_remove_keeps_parent(n: SpecNode, pp: Seq<Seq<char>>, k: Seq<char>)
    requires
        spec_get(n, pp) is Some,
        spec_get(n, pp)->Some_0 is Obj,
    ensures
        spec_get(spec_remove(n, pp.push(k)), pp) == Some(
            SpecNode::Obj(spec_remove_key((spec_get(n, pp)->Some_0)->Obj_0, k)),
        ),
    decreases pp.len(),
{
    let path = pp.push(k);
    if pp.len() == 0 {
        assert(spec_get(n, pp) == Some(n));
        assert(path[0] == k);
        assert(path.len() == 1);
        assert(pp =~= Seq::<Seq<char>>::empty());
    } else {
        match n {
            SpecNode::Leaf(_) => {
                assert(spec_get(n, pp) is None);
            },
            SpecNode::Obj(es) => {
                assert(path[0] == pp[0]);
                assert(path.skip(1) =~= pp.skip(1).push(k));
                match spec_lookup(es, pp[0]) {
                    Some(c) => {
                        assert(spec_get(n, pp) == spec_get(c, pp.skip(1)));
                        lemma_remove_keeps_parent(c, pp.skip(1), k);
                        lemma_lookup_update(es, pp[0], spec_remove(c, path.skip(1)));
                        assert(spec_remove(n, path) == SpecNode::Obj(
                            spec_update(es, pp[0], spec_remove(c, path.skip(1))),
                        ));
                        assert(spec_get(spec_remove(n, path), pp) == spec_get(
                            spec_remove(c, pp.skip(1).push(k)),
                            pp.skip(1),
                        ));
                    },
                    None => {
                        assert(spec_get(n, pp) is None);
                    },
                }
            },
        }
    }
}

/// Current numeric reading of a path: the leaf's number if one is there,
/// zero for anything missing or non-numeric.
pub open spec fn spec_num_at(n: SpecNode, path: Seq<Seq<char>>) -> int {
    match spec_get(n, path) {
        Some(SpecNode::Leaf(SpecValue::Num(x))) => x,
        _ => 0,
    }
}

fn find_key(entries: &Vec<(String, Node)>, key: &String) -> (r: Option<usize>)
    ensures
        match r {
            Some(j) => j < entries@.len() && entries@[j as int].0@ == key@ && forall|i: int|
                0 <= i < j ==> #[trigger] entries@[i].0@ != key@,
            None => forall|i: int| 0 <= i < entries@.len() ==> #[trigger] entries@[i].0@ != key@,
        },
{
    let mut j: usize = 0;
    while j < entries.len()
        invariant
            j <= entries@.len(),
            forall|i: int| 0 <= i < j ==> #[trigger] entries@[i].0@ != key@,
        decreases entries@.len() - j,
    {
        if entries[j].0 == *key {
            return Some(j);
        }
        j += 1;
    }
    None
}

impl Node {
    /// A fresh, empty object node.
    pub fn new_obj() -> (n: Node)
        ensures
            n@ == SpecNode::Obj(Seq::<(Seq<char>, SpecNode)>::empty()),
    {
        let n = Node::Obj(Vec::new());
        proof {
            assert(view_entry_seq(Seq::<(String, Node)>::empty()) =~= Seq::<
                (Seq<char>, SpecNode),
            >::empty());
        }
        n
    }

    /// Walks the tree along the path segments from index `i` on.
    pub fn get_path<'a>(&'a self, segs: &Vec<String>, i: usize) -> (r: Option<&'a Node>)
        requires
            i <= segs@.len(),
        ensures
            match r {
                Some(m) => spec_get(self@, str_seq_view(segs@).skip(i as int)) == Some(m@),
                None => spec_get(self@, str_seq_view(segs@).skip(i as int)) == None::<SpecNode>,
            },
        decreases segs@.len() - i,
    {
        let ghost path = str_seq_view(segs@).skip(i as int);
        if i == segs.len() {
            proof {
                assert(path =~= Seq::<Seq<char>>::empty());
            }
            return Some(self);
        }
        proof {
            assert(path[0] == segs@[i as int]@);
        }
        match self {
            Node::Leaf(_) => None,
            Node::Obj(entries) => {
                proof {
                    lemma_view_entries(entries@);
                }
                let ghost es = view_entry_seq(entries@);
                match find_key(entries, &segs[i]) {
                    Some(j) => {
                        proof {
                            lemma_lookup_found(es, path[0], j as int);
                            assert(path.skip(1) =~= str_seq_view(segs@).skip(i + 1));
                        }
                        entries[j].1.get_path(segs, i + 1)
                    },
                    None => {
                        proof {
                            lemma_lookup_none(es, path[0]);
                        }
                        None
                    },
                }
            },
        }
    }

    /// Reads the numeric value a relative (ADD) change starts from.
    pub fn num_at(&self, segs: &Vec<String>) -> (r: i64)
        ensures
            r as int == spec_num_at(self@, str_seq_view(segs@)),
    {
        proof {
            assert(str_seq_view(segs@).skip(0) =~= str_seq_view(segs@));
        }
        match self.get_path(segs, 0) {
            Some(m) => match m {
                Node::Leaf(v) => match v {
                    Value::Num(x) => *x,
                    _ => 0,
                },
                _ => 0,
            },
            None => 0,
        }
    }

    /// Writes `v` at the path given by the segments from index `i` on.
    pub fn set_path(self, segs: &Vec<String>, i: usize, v: Value) -> (r: Node)
        requires
            i < segs@.len(),
        ensures
            r@ == spec_set(self@, str_seq_view(segs@).skip(i as int), v@),
        decreases segs@.len() - i,
    {
        let ghost path = str_seq_view(segs@).skip(i as int);
        proof {
            assert(path[0] == segs@[i as int]@);
        }
        match self {
            Node::Leaf(val) => Node::Leaf(val),
            Node::Obj(mut entries) => {
                let ghost es = view_entry_seq(entries@);
                proof {
                    lemma_view_entries(entries@);
                }
                let key = &segs[i];
                let hit = find_key(&entries, key);
                if i == segs.len() - 1 {
                    match hit {
                        Some(j) => {
                            proof {
                                lemma_update_found(es, path[0], SpecNode::Leaf(v@), j as int);
                            }
                            let kstr = entries.remove(j).0;
                            entries.insert(j, (kstr, Node::Leaf(v)));
                            proof {
                                lemma_view_entries(entries@);
                                assert(view_entry_seq(entries@) =~~= spec_update(
                                    es,
                                    path[0],
                                    SpecNode::Leaf(v@),
                                ));
                            }
                            Node::Obj(entries)
                        },
                        None => {
                            proof {
                                lemma_update_missing(es, path[0], SpecNode::Leaf(v@));
                            }
                            entries.push((key.clone(), Node::Leaf(v)));
                            proof {
                                lemma_view_entries(entries@);
                                assert(view_entry_seq(entries@) =~~= spec_update(
                                    es,
                                    path[0],
                                    SpecNode::Leaf(v@),
                                ));
                            }
                            Node::Obj(entries)
                        },
                    }
                } else {
                    proof {
                        assert(path.skip(1) =~= str_seq_view(segs@).skip(i + 1));
                    }
                    match hit {
                        Some(j) => {
                            proof {
                                lemma_lookup_found(es, path[0], j as int);
                            }
                            let (kstr, child) = entries.remove(j);
                            if matches!(child, Node::Obj(_)) {
                                let ghost child_v = child@;
                                let nc = child.set_path(segs, i + 1, v);
                                proof {
                                    lemma_update_found(
                                        es,
                                        path[0],
                                        spec_set(child_v, path.skip(1), v@),
                                        j as int,
                                    );
                                }
                                entries.insert(j, (kstr, nc));
                                proof {
                                    lemma_view_entries(entries@);
                                    assert(view_entry_seq(entries@) =~~= spec_update(
                                        es,
                                        path[0],
                                        spec_set(child_v, path.skip(1), v@),
                                    ));
                                }
                                Node::Obj(entries)
                            } else {
                                entries.insert(j, (kstr, child));
                                proof {
                                    lemma_view_entries(entries@);
                                    assert(view_entry_seq(entries@) =~~= es);
                                }
                                Node::Obj(entries)
                            }
                        },
                        None => {
                            proof {
                                lemma_lookup_none(es, path[0]);
                                lemma_update_missing(
                                    es,
                                    path[0],
                                    spec_set(
                                        SpecNode::Obj(Seq::<(Seq<char>, SpecNode)>::empty()),
                                        path.skip(1),
                                        v@,
                                    ),
                                );
                            }
                            let nc = Node::new_obj().set_path(segs, i + 1, v);
                            entries.push((key.clone(), nc));
                            proof {
                                lemma_view_entries(entries@);
                                assert(view_entry_seq(entries@) =~~= spec_update(
                                    es,
                                    path[0],
                                    spec_set(
                                        SpecNode::Obj(Seq::<(Seq<char>, SpecNode)>::empty()),
                                        path.skip(1),
                                        v@,
                                    ),
                                ));
                            }
                            Node::Obj(entries)
                        },
                    }
                }
            },
        }
    }

    /// Deletes the path given by the segments from index `i` on.
    pub fn remove_path(self, segs: &Vec<String>, i: usize) -> (r: Node)
        requires
            i < segs@.len(),
        ensures
            r@ == spec_remove(self@, str_seq_view(segs@).skip(i as int)),
        decreases segs@.len() - i,
    {
        let ghost path = str_seq_view(segs@).skip(i as int);
        proof {
            assert(path[0] == segs@[i as int]@);
        }
        match self {
            Node::Leaf(val) => Node::Leaf(val),
            Node::Obj(mut entries) => {
                let ghost es = view_entry_seq(entries@);
                proof {
                    lemma_view_entries(entries@);
                }
                let key = &segs[i];
                let hit = find_key(&entries, key);
                if i == segs.len() - 1 {
                    match hit {
                        Some(j) => {
                            proof {
                                lemma_remove_key_found(es, path[0], j as int);
                            }
                            entries.remove(j);
                            proof {
                                lemma_view_entries(entries@);
                                assert(view_entry_seq(entries@) =~~= spec_remove_key(es, path[0]));
                            }
                            Node::Obj(entries)
                        },
                        None => {
                            proof {
                                lemma_remove_key_missing(es, path[0]);
                                assert(spec_remove_key(es, path[0]) =~~= es);
                            }
                            Node::Obj(entries)
                        },
                    }
                } else {
                    proof {
                        assert(path.skip(1) =~= str_seq_view(segs@).skip(i + 1));
                    }
                    match hit {
                        Some(j) => {
                            proof {
                                lemma_lookup_found(es, path[0], j as int);
                            }
                            let (kstr, child) = entries.remove(j);
                            let ghost child_v = child@;
                            let nc = child.remove_path(segs, i + 1);
                            proof {
                                lemma_update_found(
                                    es,
                                    path[0],
                                    spec_remove(child_v, path.skip(1)),
                                    j as int,
                                );
                            }
                            entries.insert(j, (kstr, nc));
                            proof {
                                lemma_view_entries(entries@);
                                assert(view_entry_seq(entries@) =~~= spec_update(
                                    es,
                                    path[0],
                                    spec_remove(child_v, path.skip(1)),
                                ));
                            }
                            Node::Obj(entries)
                        },
                        None => {
                            proof {
                                lemma_lookup_none(es, path[0]);
                            }
                            Node::Obj(entries)
                        },
                    }
                }
            },
        }
    }
}

} // verus!
