//! Ordered replay: selecting the markers of one entity up to a position,
//! sorting them stably by position, and applying their change records to
//! a fresh tree.
//!
//! The tie-break for markers sharing a position is their storage order,
//! which the store keeps as insertion order; replay is therefore a pure
//! function of the stored sequence.

use vstd::prelude::*;

verus! {

use crate::model::ChangeType;
use crate::model::FieldChange;
use crate::model::Marker;
use crate::model::SpecFieldChange;
use crate::model::SpecMarker;
use crate::model::markers_view;
use crate::tree::Node;
use crate::tree::SpecNode;
use crate::tree::spec_get;
use crate::tree::spec_num_at;
use crate::tree::spec_remove;
use crate::tree::spec_set;
use crate::tree::spec_split;
use crate::tree::split_path;
use crate::value::SpecValue;
use crate::value::Value;
use crate::value::coerce_value;
use crate::value::sat_add_i64;
use crate::value::spec_coerce;
use crate::value::spec_sat_add;

/// The markers an entity replays at a position: those owned by the entity
/// and anchored at or before the position, in storage order.
pub open spec fn relevant(ms: Seq<SpecMarker>, eid: Seq<char>, pos: int) -> Seq<SpecMarker>
    decreases ms.len(),
{
    if ms.len() == 0 {
        Seq::empty()
    } else {
        let rest = relevant(ms.drop_last(), eid, pos);
        if ms.last().entity_id == eid && ms.last().position <= pos {
            rest.push(ms.last())
        } else {
            rest
        }
    }
}

/// Stable insertion: a marker goes after every marker at its position or
/// earlier, so equal positions keep their storage order.
pub open spec fn insert_by_pos(s: Seq<SpecMarker>, m: SpecMarker) -> Seq<SpecMarker>
    decreases s.len(),
{
    if s.len() == 0 {
        seq![m]
    } else if s.last().position <= m.position {
        s.push(m)
    } else {
        insert_by_pos(s.drop_last(), m).push(s.last())
    }
}

/// Stable sort by position.
pub open spec fn stable_sorted_by_pos(s: Seq<SpecMarker>) -> Seq<SpecMarker>
    decreases s.len(),
{
    if s.len() == 0 {
        s
    } else {
        insert_by_pos(stable_sorted_by_pos(s.drop_last()), s.last())
    }
}

/// One change record applied to a tree: SET coerces and writes, ADD reads
/// the current number (zero when missing or non-numeric) and writes the
/// clamped sum — or falls back to writing the raw text when the payload is
/// not numeric — and REMOVE deletes the path.
pub open spec fn spec_apply_change(t: SpecNode, c: SpecFieldChange) -> SpecNode {
    let path = spec_split(c.field_name);
    match c.change_type {
        ChangeType::Remove => spec_remove(t, path),
        ChangeType::Absolute => spec_set(t, path, spec_coerce(c.value)),
        ChangeType::Relative => match spec_coerce(c.value) {
            SpecValue::Num(d) => spec_set(
                t,
                path,
                SpecValue::Num(spec_sat_add(spec_num_at(t, path), d)),
            ),
            _ => spec_set(t, path, SpecValue::Text(c.value)),
        },
    }
}

/// A marker's change records applied in list order.
pub open spec fn spec_apply_changes(t: SpecNode, cs: Seq<SpecFieldChange>) -> SpecNode
    decreases cs.len(),
{
    if cs.len() == 0 {
        t
    } else {
        spec_apply_change(spec_apply_changes(t, cs.drop_last()), cs.last())
    }
}

/// A sequence of markers applied in order.
pub open spec fn spec_apply_markers(t: SpecNode, ms: Seq<SpecMarker>) -> SpecNode
    decreases ms.len(),
{
    if ms.len() == 0 {
        t
    } else {
        spec_apply_changes(spec_apply_markers(t, ms.drop_last()), ms.last().changes)
    }
}

/// The whole reconstruction: relevant markers, stably ordered by
/// position, replayed through an empty tree.
pub open spec fn spec_replay(ms: Seq<SpecMarker>, eid: Seq<char>, pos: int) -> SpecNode {
    spec_apply_markers(
        SpecNode::Obj(Seq::empty()),
        stable_sorted_by_pos(relevant(ms, eid, pos)),
    )
}

pub fn apply_change(t: Node, c: &FieldChange) -> (r: Node)
    ensures
        r@ == spec_apply_change(t@, c@),
{
    let segs = split_path(c.field_name.as_str());
    proof {
        assert(crate::tree::str_seq_view(segs@).skip(0) =~= crate::tree::str_seq_view(segs@));
    }
    match c.change_type {
        ChangeType::Remove => t.remove_path(&segs, 0),
        ChangeType::Absolute => {
            let v = coerce_value(c.value.as_str());
            t.set_path(&segs, 0, v)
        },
        ChangeType::Relative => {
            let v = coerce_value(c.value.as_str());
            match v {
                Value::Num(d) => {
                    let cur = t.num_at(&segs);
                    let nv = sat_add_i64(cur, d);
                    t.set_path(&segs, 0, Value::Num(nv))
                },
                _ => t.set_path(&segs, 0, Value::Text(c.value.clone())),
            }
        },
    }
}

pub fn apply_marker(t: Node, m: &Marker) -> (r: Node)
    ensures
        r@ == spec_apply_changes(t@, m@.changes),
{
    let ghost t0 = t@;
    let mut cur = t;
    let mut i: usize = 0;
    while i < m.changes.len()
        invariant
            i <= m.changes@.len(),
            cur@ == spec_apply_changes(t0, m@.changes.take(i as int)),
        decreases m.changes@.len() - i,
    {
        proof {
            assert(m@.changes.take(i + 1).drop_last() =~= m@.changes.take(i as int));
            assert(m@.changes.take(i + 1).last() == m@.changes[i as int]);
        }
        cur = apply_change(cur, &m.changes[i]);
        i += 1;
    }
    proof {
        assert(m@.changes.take(m.changes@.len() as int) =~= m@.changes);
    }
    cur
}

fn select_relevant(markers: &Vec<Marker>, eid: &String, pos: usize) -> (r: Vec<Marker>)
    ensures
        markers_view(r@) == relevant(markers_view(markers@), eid@, pos as int),
{
    let ghost mv = markers_view(markers@);
    let mut r: Vec<Marker> = Vec::new();
    let mut i: usize = 0;
    proof {
        assert(markers_view(r@) =~= relevant(mv.take(0), eid@, pos as int));
    }
    while i < markers.len()
        invariant
            i <= markers@.len(),
            mv == markers_view(markers@),
            markers_view(r@) == relevant(mv.take(i as int), eid@, pos as int),
        decreases markers@.len() - i,
    {
        proof {
            assert(mv.take(i + 1).drop_last() =~= mv.take(i as int));
            assert(mv.take(i + 1).last() == mv[i as int]);
        }
        let m = &markers[i];
        if m.entity_id == *eid && m.position <= pos {
            r.push(m.clone());
            proof {
                assert(markers_view(r@) =~= relevant(mv.take(i + 1), eid@, pos as int));
            }
        }
        i += 1;
    }
    proof {
        assert(mv.take(markers@.len() as int) =~= mv);
    }
    r
}

proof fn lemma_insert_by_pos_at(s: Seq<SpecMarker>, m: SpecMarker, idx: int)
    requires
        0 <= idx <= s.len(),
        forall|j: int| idx <= j < s.len() ==> s[j].position > m.position,
        idx > 0 ==> s[idx - 1].position <= m.position,
    ensures
        insert_by_pos(s, m) =~= s.insert(idx, m),
    decreases s.len(),
{
    if s.len() == 0 {
        assert(insert_by_pos(s, m) =~= s.insert(0, m));
    } else if s.last().position <= m.position {
        assert(idx == s.len());
        assert(s.insert(s.len() as int, m) =~= s.push(m));
    } else {
        assert(idx < s.len());
        lemma_insert_by_pos_at(s.drop_last(), m, idx);
        assert(s.insert(idx, m).drop_last() =~= s.drop_last().insert(idx, m));
        assert(s.insert(idx, m).last() == s.last());
        assert(insert_by_pos(s, m) =~= insert_by_pos(s.drop_last(), m).push(s.last()));
    }
}

fn insert_by_position(v: Vec<Marker>, m: Marker) -> (r: Vec<Marker>)
    ensures
        markers_view(r@) == insert_by_pos(markers_view(v@), m@),
{
    let mut v = v;
    let ghost sv = markers_view(v@);
    let mut idx: usize = v.len();
    while idx > 0 && v[idx - 1].position > m.position
        invariant
            idx <= v@.len(),
            sv == markers_view(v@),
            forall|j: int| idx <= j < v@.len() ==> sv[j].position > m@.position,
        decreases idx,
    {
        idx -= 1;
    }
    proof {
        lemma_insert_by_pos_at(sv, m@, idx as int);
    }
    v.insert(idx, m);
    proof {
        assert(markers_view(v@) =~= sv.insert(idx as int, m@));
    }
    v
}

fn sort_by_position(v: Vec<Marker>) -> (r: Vec<Marker>)
    ensures
        markers_view(r@) == stable_sorted_by_pos(markers_view(v@)),
{
    let ghost sv = markers_view(v@);
    let mut r: Vec<Marker> = Vec::new();
    let mut i: usize = 0;
    proof {
        assert(markers_view(r@) =~= stable_sorted_by_pos(sv.take(0)));
    }
    while i < v.len()
        invariant
            i <= v@.len(),
            sv == markers_view(v@),
            markers_view(r@) == stable_sorted_by_pos(sv.take(i as int)),
        decreases v@.len() - i,
    {
        proof {
            assert(sv.take(i + 1).drop_last() =~= sv.take(i as int));
            assert(sv.take(i + 1).last() == sv[i as int]);
        }
        r = insert_by_position(r, v[i].clone());
        i += 1;
    }
    proof {
        assert(sv.take(v@.len() as int) =~= sv);
    }
    r
}

/// Replays the stored markers for one entity up to `pos` and returns the
/// reconstructed attribute tree.
pub fn replay_markers(markers: &Vec<Marker>, eid: &String, pos: usize) -> (t: Node)
    ensures
        t@ == spec_replay(markers_view(markers@), eid@, pos as int),
{
    let selected = select_relevant(markers, eid, pos);
    let ordered = sort_by_position(selected);
    let ghost ov = markers_view(ordered@);
    let mut t = Node::new_obj();
    let mut i: usize = 0;
    proof {
        assert(t@ == spec_apply_markers(SpecNode::Obj(Seq::empty()), ov.take(0)));
    }
    while i < ordered.len()
        invariant
            i <= ordered@.len(),
            ov == markers_view(ordered@),
            t@ == spec_apply_markers(SpecNode::Obj(Seq::empty()), ov.take(i as int)),
        decreases ordered@.len() - i,
    {
        proof {
            assert(ov.take(i + 1).drop_last() =~= ov.take(i as int));
            assert(ov.take(i + 1).last() == ov[i as int]);
        }
        t = apply_marker(t, &ordered[i]);
        i += 1;
    }
    proof {
        assert(ov.take(ordered@.len() as int) =~= ov);
    }
    t
}

/// Applying the same SET record twice in sequence leaves exactly the
/// state one application leaves.
pub proof fn lemma_set_change_idempotent(t: SpecNode, c: SpecFieldChange)
    requires
        c.change_type is Absolute,
    ensures
        spec_apply_change(spec_apply_change(t, c), c) == spec_apply_change(t, c),
{
    crate::tree::lemma_split_len(c.field_name);
    crate::tree::lemma_set_set(t, spec_split(c.field_name), spec_coerce(c.value));
}

/// A REMOVE record for a path that addresses nothing changes nothing.
pub proof fn lemma_remove_absent_noop(t: SpecNode, c: SpecFieldChange)
    requires
        c.change_type is Remove,
        spec_get(t, spec_split(c.field_name)) == None::<SpecNode>,
    ensures
        spec_apply_change(t, c) == t,
{
    crate::tree::lemma_split_len(c.field_name);
    crate::tree::lemma_remove_absent(t, spec_split(c.field_name));
}

/// Every marker `relevant` selects lies at or before the position, and
/// belongs to the entity.
proof fn lemma_relevant_all(ms: Seq<SpecMarker>, eid: Seq<char>, pos: int)
    ensures
        forall|i: int|
            0 <= i < relevant(ms, eid, pos).len() ==> (#[trigger] relevant(ms, eid, pos)[i]).position
                <= pos && relevant(ms, eid, pos)[i].entity_id == eid,
    decreases ms.len(),
{
    if ms.len() > 0 {
        lemma_relevant_all(ms.drop_last(), eid, pos);
        let r = relevant(ms, eid, pos);
        let r0 = relevant(ms.drop_last(), eid, pos);
        if ms.last().entity_id == eid && ms.last().position <= pos {
            assert(r == r0.push(ms.last()));
            assert forall|i: int|
                0 <= i < r.len() implies (#[trigger] r[i]).position <= pos && r[i].entity_id
                == eid by {
                if i < r0.len() {
                    assert(r[i] == r0[i]);
                } else {
                    assert(r[i] == ms.last());
                }
            }
        }
    }
}

proof fn lemma_insert_all_le(s: Seq<SpecMarker>, m: SpecMarker, pos: int)
    requires
        forall|i: int| 0 <= i < s.len() ==> (#[trigger] s[i]).position <= pos,
        m.position <= pos,
    ensures
        forall|i: int|
            0 <= i < insert_by_pos(s, m).len() ==> (#[trigger] insert_by_pos(s, m)[i]).position
                <= pos,
    decreases s.len(),
{
    let r = insert_by_pos(s, m);
    if s.len() == 0 {
        assert(r =~= seq![m]);
        assert(r[0] == m);
    } else if s.last().position <= m.position {
        assert(r == s.push(m));
        assert forall|i: int| 0 <= i < r.len() implies (#[trigger] r[i]).position <= pos by {
            if i < s.len() {
                assert(r[i] == s[i]);
            } else {
                assert(r[i] == m);
            }
        }
    } else {
        assert(forall|i: int|
            0 <= i < s.drop_last().len() ==> (#[trigger] s.drop_last()[i]).position <= pos);
        lemma_insert_all_le(s.drop_last(), m, pos);
        let r0 = insert_by_pos(s.drop_last(), m);
        assert(r == r0.push(s.last()));
        assert forall|i: int| 0 <= i < r.len() implies (#[trigger] r[i]).position <= pos by {
            if i < r0.len() {
                assert(r[i] == r0[i]);
            } else {
                assert(r[i] == s.last());
                assert(s[s.len() - 1].position <= pos);
            }
        }
    }
}

proof fn lemma_sorted_all_le(s: Seq<SpecMarker>, pos: int)
    requires
        forall|i: int| 0 <= i < s.len() ==> (#[trigger] s[i]).position <= pos,
    ensures
        forall|i: int|
            0 <= i < stable_sorted_by_pos(s).len() ==> (#[trigger] stable_sorted_by_pos(
                s,
            )[i]).position <= pos,
    decreases s.len(),
{
    if s.len() > 0 {
        assert(forall|i: int|
            0 <= i < s.drop_last().len() ==> (#[trigger] s.drop_last()[i]).position <= pos);
        lemma_sorted_all_le(s.drop_last(), pos);
        lemma_insert_all_le(stable_sorted_by_pos(s.drop_last()), s.last(), pos);
    }
}

/// Inserting below a tail of strictly later markers leaves that tail in
/// place.
proof fn lemma_insert_skips_tail(s: Seq<SpecMarker>, t: Seq<SpecMarker>, m: SpecMarker)
    requires
        forall|i: int| 0 <= i < t.len() ==> (#[trigger] t[i]).position > m.position,
    ensures
        insert_by_pos(s + t, m) == insert_by_pos(s, m) + t,
    decreases t.len(),
{
    if t.len() == 0 {
        assert(s + t =~= s);
        assert(insert_by_pos(s, m) + t =~= insert_by_pos(s, m));
    } else {
        assert((s + t).len() > 0);
        assert((s + t).last() == t.last());
        assert(t.last().position > m.position);
        assert((s + t).drop_last() =~= s + t.drop_last());
        assert(forall|i: int|
            0 <= i < t.drop_last().len() ==> (#[trigger] t.drop_last()[i]).position > m.position);
        lemma_insert_skips_tail(s, t.drop_last(), m);
        assert(insert_by_pos(s + t, m) == insert_by_pos(s + t.drop_last(), m).push(t.last()));
        assert((insert_by_pos(s, m) + t.drop_last()).push(t.last()) =~= insert_by_pos(s, m) + t);
    }
}

/// Inserting a marker later than everything in a prefix happens inside
/// the tail.
proof fn lemma_insert_into_tail(s1: Seq<SpecMarker>, t: Seq<SpecMarker>, m: SpecMarker)
    requires
        forall|i: int| 0 <= i < s1.len() ==> (#[trigger] s1[i]).position <= m.position,
    ensures
        insert_by_pos(s1 + t, m) == s1 + insert_by_pos(t, m),
    decreases t.len(),
{
    if t.len() == 0 {
        assert(s1 + t =~= s1);
        if s1.len() == 0 {
            assert(insert_by_pos(s1, m) =~= seq![m]);
            assert(s1 + insert_by_pos(t, m) =~= seq![m]);
        } else {
            assert(s1.last().position <= m.position);
            assert(insert_by_pos(s1, m) == s1.push(m));
            assert(s1 + insert_by_pos(t, m) =~= s1.push(m));
        }
    } else {
        assert((s1 + t).last() == t.last());
        assert((s1 + t).len() > 0);
        if t.last().position <= m.position {
            assert(insert_by_pos(s1 + t, m) == (s1 + t).push(m));
            assert(insert_by_pos(t, m) == t.push(m));
            assert((s1 + t).push(m) =~= s1 + t.push(m));
        } else {
            assert((s1 + t).drop_last() =~= s1 + t.drop_last());
            lemma_insert_into_tail(s1, t.drop_last(), m);
            assert(insert_by_pos(s1 + t, m) == insert_by_pos(s1 + t.drop_last(), m).push(
                t.last(),
            ));
            assert((s1 + insert_by_pos(t.drop_last(), m)).push(t.last()) =~= s1 + insert_by_pos(
                t.drop_last(),
                m,
            ).push(t.last()));
            assert(insert_by_pos(t, m) == insert_by_pos(t.drop_last(), m).push(t.last()));
        }
    }
}

proof fn lemma_insert_all_gt(s: Seq<SpecMarker>, m: SpecMarker, pos: int)
    requires
        forall|i: int| 0 <= i < s.len() ==> (#[trigger] s[i]).position > pos,
        m.position > pos,
    ensures
        forall|i: int|
            0 <= i < insert_by_pos(s, m).len() ==> (#[trigger] insert_by_pos(s, m)[i]).position
                > pos,
    decreases s.len(),
{
    let r = insert_by_pos(s, m);
    if s.len() == 0 {
        assert(r =~= seq![m]);
        assert(r[0] == m);
    } else if s.last().position <= m.position {
        assert(r == s.push(m));
        assert forall|i: int| 0 <= i < r.len() implies (#[trigger] r[i]).position > pos by {
            if i < s.len() {
                assert(r[i] == s[i]);
            } else {
                assert(r[i] == m);
            }
        }
    } else {
        assert(forall|i: int|
            0 <= i < s.drop_last().len() ==> (#[trigger] s.drop_last()[i]).position > pos);
        lemma_insert_all_gt(s.drop_last(), m, pos);
        let r0 = insert_by_pos(s.drop_last(), m);
        assert(r == r0.push(s.last()));
        assert forall|i: int| 0 <= i < r.len() implies (#[trigger] r[i]).position > pos by {
            if i < r0.len() {
                assert(r[i] == r0[i]);
            } else {
                assert(r[i] == s.last());
                assert(s[s.len() - 1].position > pos);
            }
        }
    }
}

/// Monotonic replay: what replays at an earlier position is exactly an
/// initial segment of what replays at a later one — no selected marker is
/// ever dropped or reordered by widening the window, and everything the
/// wider window adds lies strictly after the narrower position.
pub proof fn lemma_replay_monotonic(ms: Seq<SpecMarker>, eid: Seq<char>, p1: int, p2: int)
    requires
        p1 <= p2,
    ensures
        stable_sorted_by_pos(relevant(ms, eid, p1)).is_prefix_of(
            stable_sorted_by_pos(relevant(ms, eid, p2)),
        ),
        forall|i: int|
            stable_sorted_by_pos(relevant(ms, eid, p1)).len() <= i < stable_sorted_by_pos(
                relevant(ms, eid, p2),
            ).len() ==> (#[trigger] stable_sorted_by_pos(relevant(ms, eid, p2))[i]).position > p1,
    decreases ms.len(),
{
    if ms.len() == 0 {
    } else {
        lemma_replay_monotonic(ms.drop_last(), eid, p1, p2);
        let m = ms.last();
        let s1 = stable_sorted_by_pos(relevant(ms.drop_last(), eid, p1));
        let s2 = stable_sorted_by_pos(relevant(ms.drop_last(), eid, p2));
        let t = s2.subrange(s1.len() as int, s2.len() as int);
        assert(s2 =~= s1 + t);
        assert(forall|i: int| 0 <= i < t.len() ==> (#[trigger] t[i]).position > p1);
        lemma_relevant_all(ms.drop_last(), eid, p1);
        lemma_sorted_all_le(relevant(ms.drop_last(), eid, p1), p1);
        if m.entity_id == eid && m.position <= p1 {
            assert(relevant(ms, eid, p1) == relevant(ms.drop_last(), eid, p1).push(m));
            assert(relevant(ms, eid, p1).drop_last() =~= relevant(ms.drop_last(), eid, p1));
            assert(relevant(ms, eid, p1).last() == m);
            assert(relevant(ms, eid, p1).len() > 0);
            assert(stable_sorted_by_pos(relevant(ms, eid, p1)) == insert_by_pos(s1, m));
            assert(relevant(ms, eid, p2) == relevant(ms.drop_last(), eid, p2).push(m));
            assert(relevant(ms, eid, p2).drop_last() =~= relevant(ms.drop_last(), eid, p2));
            assert(relevant(ms, eid, p2).last() == m);
            assert(relevant(ms, eid, p2).len() > 0);
            assert(stable_sorted_by_pos(relevant(ms, eid, p2)) == insert_by_pos(s2, m));
            assert(stable_sorted_by_pos(relevant(ms, eid, p2)) == insert_by_pos(s1 + t, m));
            lemma_insert_skips_tail(s1, t, m);
            assert(insert_by_pos(s1 + t, m) == insert_by_pos(s1, m) + t);
            assert(insert_by_pos(s1, m).is_prefix_of(insert_by_pos(s1, m) + t));
            assert(forall|i: int|
                insert_by_pos(s1, m).len() <= i < (insert_by_pos(s1, m) + t).len() ==> (
                #[trigger] (insert_by_pos(s1, m) + t)[i]).position > p1);
        } else if m.entity_id == eid && m.position <= p2 {
            assert(relevant(ms, eid, p1) == relevant(ms.drop_last(), eid, p1));
            assert(stable_sorted_by_pos(relevant(ms, eid, p1)) == s1);
            assert(relevant(ms, eid, p2) == relevant(ms.drop_last(), eid, p2).push(m));
            assert(relevant(ms, eid, p2).drop_last() =~= relevant(ms.drop_last(), eid, p2));
            assert(relevant(ms, eid, p2).last() == m);
            assert(relevant(ms, eid, p2).len() > 0);
            assert(stable_sorted_by_pos(relevant(ms, eid, p2)) == insert_by_pos(s2, m));
            assert(stable_sorted_by_pos(relevant(ms, eid, p2)) == insert_by_pos(s1 + t, m));
            assert(forall|i: int| 0 <= i < s1.len() ==> (#[trigger] s1[i]).position <= m.position);
            lemma_insert_into_tail(s1, t, m);
            assert(insert_by_pos(s1 + t, m) == s1 + insert_by_pos(t, m));
            assert(s1.is_prefix_of(s1 + insert_by_pos(t, m)));
            lemma_insert_all_gt(t, m, p1);
            assert(forall|i: int|
                s1.len() <= i < (s1 + insert_by_pos(t, m)).len() ==> (#[trigger] (s1
                    + insert_by_pos(t, m))[i]).position > p1);
        } else {
            assert(stable_sorted_by_pos(relevant(ms, eid, p1)) == s1);
            assert(stable_sorted_by_pos(relevant(ms, eid, p2)) == s2);
        }
    }
}

/// A change record that cannot re-create the field `f`: either a REMOVE
/// (which never creates anything), or a record whose path does not lie at
/// or under `f`.
pub open spec fn change_avoids(c: SpecFieldChange, f: Seq<char>) -> bool {
    c.change_type is Remove || !crate::tree::path_is_prefix(
        spec_split(f),
        spec_split(c.field_name),
    )
}

pub open spec fn marker_avoids(m: SpecMarker, f: Seq<char>) -> bool {
    forall|j: int| 0 <= j < m.changes.len() ==> change_avoids(#[trigger] m.changes[j], f)
}

/// Purging a field's records leaves a change list that avoids the field,
/// as long as the records that remain do not write under it.
pub proof fn lemma_purge_changes_avoid(cs: Seq<SpecFieldChange>, f: Seq<char>)
    requires
        forall|j: int|
            0 <= j < cs.len() ==> (change_avoids(#[trigger] cs[j], f) || cs[j].field_name == f),
    ensures
        forall|j: int|
            0 <= j < crate::store::spec_purge_changes(cs, f).len() ==> change_avoids(
                #[trigger] crate::store::spec_purge_changes(cs, f)[j],
                f,
            ),
    decreases cs.len(),
{
    if cs.len() > 0 {
        assert(forall|j: int|
            0 <= j < cs.drop_last().len() ==> (change_avoids(#[trigger] cs.drop_last()[j], f)
                || cs.drop_last()[j].field_name == f));
        lemma_purge_changes_avoid(cs.drop_last(), f);
        let r = crate::store::spec_purge_changes(cs, f);
        let r0 = crate::store::spec_purge_changes(cs.drop_last(), f);
        if cs.last().field_name != f {
            assert(r == r0.push(cs.last()));
            assert forall|j: int| 0 <= j < r.len() implies change_avoids(#[trigger] r[j], f) by {
                if j < r0.len() {
                    assert(r[j] == r0[j]);
                } else {
                    assert(r[j] == cs.last());
                    assert(cs[cs.len() - 1].field_name != f);
                }
            }
        }
    }
}

proof fn lemma_apply_change_avoid(t: SpecNode, c: SpecFieldChange, f: Seq<char>)
    requires
        crate::tree::wf_node(t),
        spec_get(t, spec_split(f)) == None::<SpecNode>,
        change_avoids(c, f),
    ensures
        crate::tree::wf_node(spec_apply_change(t, c)),
        spec_get(spec_apply_change(t, c), spec_split(f)) == None::<SpecNode>,
{
    crate::tree::lemma_split_len(c.field_name);
    crate::tree::lemma_split_len(f);
    let path = spec_split(c.field_name);
    let fp = spec_split(f);
    match c.change_type {
        ChangeType::Remove => {
            crate::tree::lemma_remove_preserves_wf(t, path);
            crate::tree::lemma_remove_preserves_none(t, path, fp);
        },
        ChangeType::Absolute => {
            crate::tree::lemma_set_preserves_wf(t, path, spec_coerce(c.value));
            crate::tree::lemma_set_off_path(t, path, fp, spec_coerce(c.value));
        },
        ChangeType::Relative => {
            match spec_coerce(c.value) {
                SpecValue::Num(d) => {
                    let v = SpecValue::Num(spec_sat_add(spec_num_at(t, path), d));
                    crate::tree::lemma_set_preserves_wf(t, path, v);
                    crate::tree::lemma_set_off_path(t, path, fp, v);
                },
                _ => {
                    crate::tree::lemma_set_preserves_wf(t, path, SpecValue::Text(c.value));
                    crate::tree::lemma_set_off_path(t, path, fp, SpecValue::Text(c.value));
                },
            }
        },
    }
}

proof fn lemma_apply_changes_avoid(t: SpecNode, cs: Seq<SpecFieldChange>, f: Seq<char>)
    requires
        crate::tree::wf_node(t),
        spec_get(t, spec_split(f)) == None::<SpecNode>,
        forall|j: int| 0 <= j < cs.len() ==> change_avoids(#[trigger] cs[j], f),
    ensures
        crate::tree::wf_node(spec_apply_changes(t, cs)),
        spec_get(spec_apply_changes(t, cs), spec_split(f)) == None::<SpecNode>,
    decreases cs.len(),
{
    if cs.len() > 0 {
        assert(forall|j: int|
            0 <= j < cs.drop_last().len() ==> change_avoids(#[trigger] cs.drop_last()[j], f));
        lemma_apply_changes_avoid(t, cs.drop_last(), f);
        assert(cs[cs.len() - 1] == cs.last());
        lemma_apply_change_avoid(spec_apply_changes(t, cs.drop_last()), cs.last(), f);
    }
}

proof fn lemma_apply_markers_avoid(t: SpecNode, ms: Seq<SpecMarker>, f: Seq<char>)
    requires
        crate::tree::wf_node(t),
        spec_get(t, spec_split(f)) == None::<SpecNode>,
        forall|i: int| 0 <= i < ms.len() ==> marker_avoids(#[trigger] ms[i], f),
    ensures
        crate::tree::wf_node(spec_apply_markers(t, ms)),
        spec_get(spec_apply_markers(t, ms), spec_split(f)) == None::<SpecNode>,
    decreases ms.len(),
{
    if ms.len() > 0 {
        assert(forall|i: int|
            0 <= i < ms.drop_last().len() ==> marker_avoids(#[trigger] ms.drop_last()[i], f));
        lemma_apply_markers_avoid(t, ms.drop_last(), f);
        assert(ms[ms.len() - 1] == ms.last());
        assert(marker_avoids(ms.last(), f));
        lemma_apply_changes_avoid(spec_apply_markers(t, ms.drop_last()), ms.last().changes, f);
    }
}

proof fn lemma_insert_all_avoid(s: Seq<SpecMarker>, m: SpecMarker, f: Seq<char>)
    requires
        forall|i: int| 0 <= i < s.len() ==> marker_avoids(#[trigger] s[i], f),
        marker_avoids(m, f),
    ensures
        forall|i: int|
            0 <= i < insert_by_pos(s, m).len() ==> marker_avoids(#[trigger] insert_by_pos(s, m)[i], f),
    decreases s.len(),
{
    let r = insert_by_pos(s, m);
    if s.len() == 0 {
        assert(r =~= seq![m]);
        assert(r[0] == m);
    } else if s.last().position <= m.position {
        assert(r == s.push(m));
        assert forall|i: int| 0 <= i < r.len() implies marker_avoids(#[trigger] r[i], f) by {
            if i < s.len() {
                assert(r[i] == s[i]);
            } else {
                assert(r[i] == m);
            }
        }
    } else {
        assert(forall|i: int|
            0 <= i < s.drop_last().len() ==> marker_avoids(#[trigger] s.drop_last()[i], f));
        lemma_insert_all_avoid(s.drop_last(), m, f);
        let r0 = insert_by_pos(s.drop_last(), m);
        assert(r == r0.push(s.last()));
        assert forall|i: int| 0 <= i < r.len() implies marker_avoids(#[trigger] r[i], f) by {
            if i < r0.len() {
                assert(r[i] == r0[i]);
            } else {
                assert(r[i] == s.last());
                assert(marker_avoids(s[s.len() - 1], f));
            }
        }
    }
}

proof fn lemma_sorted_all_avoid(s: Seq<SpecMarker>, f: Seq<char>)
    requires
        forall|i: int| 0 <= i < s.len() ==> marker_avoids(#[trigger] s[i], f),
    ensures
        forall|i: int|
            0 <= i < stable_sorted_by_pos(s).len() ==> marker_avoids(
                #[trigger] stable_sorted_by_pos(s)[i],
                f,
            ),
    decreases s.len(),
{
    if s.len() > 0 {
        assert(forall|i: int|
            0 <= i < s.drop_last().len() ==> marker_avoids(#[trigger] s.drop_last()[i], f));
        lemma_sorted_all_avoid(s.drop_last(), f);
        assert(marker_avoids(s[s.len() - 1], f));
        lemma_insert_all_avoid(stable_sorted_by_pos(s.drop_last()), s.last(), f);
    }
}

proof fn lemma_relevant_all_avoid(ms: Seq<SpecMarker>, eid: Seq<char>, pos: int, f: Seq<char>)
    requires
        forall|i: int| 0 <= i < ms.len() ==> marker_avoids(#[trigger] ms[i], f),
    ensures
        forall|i: int|
            0 <= i < relevant(ms, eid, pos).len() ==> marker_avoids(
                #[trigger] relevant(ms, eid, pos)[i],
                f,
            ),
    decreases ms.len(),
{
    if ms.len() > 0 {
        assert(forall|i: int|
            0 <= i < ms.drop_last().len() ==> marker_avoids(#[trigger] ms.drop_last()[i], f));
        lemma_relevant_all_avoid(ms.drop_last(), eid, pos, f);
        let r = relevant(ms, eid, pos);
        let r0 = relevant(ms.drop_last(), eid, pos);
        if ms.last().entity_id == eid && ms.last().position <= pos {
            assert(r == r0.push(ms.last()));
            assert forall|i: int| 0 <= i < r.len() implies marker_avoids(#[trigger] r[i], f) by {
                if i < r0.len() {
                    assert(r[i] == r0[i]);
                } else {
                    assert(r[i] == ms.last());
                    assert(marker_avoids(ms[ms.len() - 1], f));
                }
            }
        }
    }
}

/// The field-purge cascade law: once no stored marker carries a record
/// that could re-create the field — every record either REMOVEs, or
/// addresses a path not at or under it, as holds after
/// `delete_field_completely` when no deeper path under the field was ever
/// written — reconstruction at any position never contains the field.
pub proof fn lemma_purged_replay_absent(ms: Seq<SpecMarker>, eid: Seq<char>, pos: int, f: Seq<char>)
    requires
        forall|i: int| 0 <= i < ms.len() ==> marker_avoids(#[trigger] ms[i], f),
    ensures
        spec_get(spec_replay(ms, eid, pos), spec_split(f)) == None::<SpecNode>,
{
    crate::tree::lemma_split_len(f);
    lemma_relevant_all_avoid(ms, eid, pos, f);
    lemma_sorted_all_avoid(relevant(ms, eid, pos), f);
    let empty_tree = SpecNode::Obj(Seq::empty());
    assert(crate::tree::wf_node(empty_tree));
    assert(spec_get(empty_tree, spec_split(f)) == None::<SpecNode>);
    lemma_apply_markers_avoid(empty_tree, stable_sorted_by_pos(relevant(ms, eid, pos)), f);
}

impl crate::store::AppState {
    /// Reconstructs one entity's full nested state as of a position, by
    /// replaying all of its markers up to there in position order.  Fails
    /// exactly when no entity bears the id.
    pub fn get_entity_state(&self, entity_id: &String, position: usize) -> (r: Result<
        Node,
        crate::model::ErrorKind,
    >)
        ensures
            match r {
                Ok(t) => crate::store::first_entity_idx(self@.entities, entity_id@) >= 0 && t@
                    == spec_replay(self@.markers, entity_id@, position as int),
                Err(k) => crate::store::first_entity_idx(self@.entities, entity_id@) == -1 && k
                    == crate::model::ErrorKind::NotFound,
            },
    {
        match crate::store::find_entity(&self.entities, entity_id) {
            None => Err(crate::model::ErrorKind::NotFound),
            Some(_) => Ok(replay_markers(&self.markers, entity_id, position)),
        }
    }
}

} // verus!
