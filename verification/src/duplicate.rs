//! Snapshot-baking for entity duplication: a reconstructed tree is
//! flattened depth-first into one synthetic all-SET marker, attached to
//! the copy at the duplication position.

use vstd::prelude::*;

verus! {

use vstd::string::StrSliceExecFns;
use vstd::string::StringExecFns;
use crate::model::ChangeType;
use crate::model::Entity;
use crate::model::ErrorKind;
use crate::model::FieldChange;
use crate::model::Marker;
use crate::model::MarkerVisual;
use crate::model::SpecEntity;
use crate::model::SpecFieldChange;
use crate::model::changes_view;
use crate::model::default_timestamp;
use crate::model::fresh_id;
use crate::replay::relevant;
use crate::replay::spec_replay;
use crate::store::AppState;
use crate::store::find_entity;
use crate::store::first_entity_idx;
use crate::store::first_marker_idx;
use crate::store::lemma_first_entity_idx_props;
use crate::tree::Node;
use crate::tree::SpecNode;
use crate::value::render_value;
use crate::value::spec_render;

/// A child's dotted path under a prefix.
pub open spec fn spec_join(prefix: Seq<char>, key: Seq<char>) -> Seq<char> {
    if prefix.len() == 0 {
        key
    } else {
        prefix + seq!['.'] + key
    }
}

/// Depth-first flattening of a tree into SET records, one per leaf, in
/// the tree's own first-insertion order; empty objects contribute
/// nothing.
pub open spec fn spec_flatten(n: SpecNode, prefix: Seq<char>) -> Seq<SpecFieldChange>
    decreases n,
{
    match n {
        SpecNode::Leaf(v) => seq![
            SpecFieldChange {
                field_name: prefix,
                change_type: ChangeType::Absolute,
                value: spec_render(v),
            },
        ],
        SpecNode::Obj(es) => spec_flatten_entries(es, prefix),
    }
}

pub open spec fn spec_flatten_entries(
    es: Seq<(Seq<char>, SpecNode)>,
    prefix: Seq<char>,
) -> Seq<SpecFieldChange>
    decreases es,
{
    if es.len() == 0 {
        Seq::empty()
    } else {
        spec_flatten_entries(es.drop_last(), prefix) + spec_flatten(
            es.last().1,
            spec_join(prefix, es.last().0),
        )
    }
}

/// A key with no dot in it: exactly what `spec_split` produces, so paths
/// rebuilt by joining such keys split back to the same segments.
pub open spec fn dot_free(k: Seq<char>) -> bool {
    forall|i: int| 0 <= i < k.len() ==> k[i] != '.'
}

/// A tree that survives snapshot-baking intact: keys are unique and
/// dot-free, no nested object is empty, and every leaf survives the
/// render-then-coerce round trip.
pub open spec fn good_node(n: SpecNode) -> bool
    decreases n,
{
    match n {
        SpecNode::Leaf(v) => crate::value::round_stable(v),
        SpecNode::Obj(es) => good_entries(es),
    }
}

pub open spec fn good_entries(es: Seq<(Seq<char>, SpecNode)>) -> bool
    decreases es,
{
    (forall|i: int, j: int| 0 <= i < j < es.len() ==> es[i].0 != es[j].0) && (forall|i: int|
        0 <= i < es.len() ==> (#[trigger] es[i]).0.len() > 0 && dot_free(es[i].0) && good_node(
            es[i].1,
        ) && (es[i].1 is Obj ==> (es[i].1)->Obj_0.len() > 0))
}

/// Segments of a dotted prefix: none for the empty prefix (the root),
/// its split otherwise.
pub open spec fn prefix_path(p: Seq<char>) -> Seq<Seq<char>> {
    if p.len() == 0 {
        Seq::empty()
    } else {
        crate::tree::spec_split(p)
    }
}

proof fn lemma_split_dot_free(k: Seq<char>)
    requires
        dot_free(k),
    ensures
        crate::tree::spec_split(k) == seq![k],
    decreases k.len(),
{
    if k.len() == 0 {
        assert(k =~= Seq::<char>::empty());
        assert(crate::tree::spec_split(k) =~~= seq![k]);
    } else {
        assert(k.last() != '.');
        assert(forall|i: int| 0 <= i < k.drop_last().len() ==> k.drop_last()[i] != '.');
        lemma_split_dot_free(k.drop_last());
        let r = crate::tree::spec_split(k.drop_last());
        assert(r == seq![k.drop_last()]);
        assert(r.update(r.len() - 1, r.last().push(k.last())) =~= seq![k.drop_last().push(
            k.last(),
        )]);
        assert(k.drop_last().push(k.last()) =~= k);
        assert(crate::tree::spec_split(k) =~~= seq![k]);
    }
}

/// Splitting a joined path appends the key as one more segment.
proof fn lemma_split_join(p: Seq<char>, k: Seq<char>)
    requires
        dot_free(k),
    ensures
        crate::tree::spec_split(spec_join(p, k)) == prefix_path(p).push(k),
    decreases k.len(),
{
    if p.len() == 0 {
        lemma_split_dot_free(k);
        assert(prefix_path(p).push(k) =~= seq![k]);
    } else if k.len() == 0 {
        let j = spec_join(p, k);
        assert(j =~= p + seq!['.']);
        assert(j.last() == '.');
        assert(j.drop_last() =~= p);
        assert(crate::tree::spec_split(j) == crate::tree::spec_split(p).push(Seq::empty()));
        assert(k =~= Seq::<char>::empty());
        assert(crate::tree::spec_split(j) =~~= prefix_path(p).push(k));
    } else {
        assert(forall|i: int| 0 <= i < k.drop_last().len() ==> k.drop_last()[i] != '.');
        lemma_split_join(p, k.drop_last());
        let j = spec_join(p, k);
        let j0 = spec_join(p, k.drop_last());
        assert(j.last() == k.last());
        assert(k.last() != '.');
        assert(j.drop_last() =~= j0);
        let r = crate::tree::spec_split(j0);
        assert(r == prefix_path(p).push(k.drop_last()));
        crate::tree::lemma_split_len(j0);
        assert(crate::tree::spec_split(j) == r.update(r.len() - 1, r.last().push(k.last())));
        assert(r.last() == k.drop_last());
        assert(k.drop_last().push(k.last()) =~= k);
        assert(r.update(r.len() - 1, k) =~~= prefix_path(p).push(k));
    }
}

/// Walking a path meets no scalar: each segment either reaches an object
/// or nothing at all, so writing below it can take effect.
pub open spec fn open_at(n: SpecNode, q: Seq<Seq<char>>) -> bool
    decreases q.len(),
{
    match n {
        SpecNode::Leaf(_) => false,
        SpecNode::Obj(b) => q.len() == 0 || (match crate::tree::spec_lookup(b, q[0]) {
            Some(c) => open_at(c, q.skip(1)),
            None => true,
        }),
    }
}

/// None of the keys is already bound in the object at the path (if one
/// is there at all).
pub open spec fn fresh_entries(
    n: SpecNode,
    q: Seq<Seq<char>>,
    es: Seq<(Seq<char>, SpecNode)>,
) -> bool {
    match crate::tree::spec_get(n, q) {
        Some(SpecNode::Obj(b)) => forall|i: int|
            0 <= i < es.len() ==> crate::tree::spec_lookup(b, (#[trigger] es[i]).0)
                is None,
        _ => true,
    }
}

/// Appending entries to the object at a path, creating intermediate
/// objects where segments are missing (a scalar met on the way blocks the
/// whole operation, as it does for `set`).
pub open spec fn spec_extend(
    n: SpecNode,
    q: Seq<Seq<char>>,
    es: Seq<(Seq<char>, SpecNode)>,
) -> SpecNode
    decreases q.len(),
{
    match n {
        SpecNode::Leaf(_) => n,
        SpecNode::Obj(b) => {
            if q.len() == 0 {
                SpecNode::Obj(b + es)
            } else {
                match crate::tree::spec_lookup(b, q[0]) {
                    Some(c) => {
                        if c is Obj {
                            SpecNode::Obj(
                                crate::tree::spec_update(b, q[0], spec_extend(c, q.skip(1), es)),
                            )
                        } else {
                            n
                        }
                    },
                    None => SpecNode::Obj(
                        crate::tree::spec_update(
                            b,
                            q[0],
                            spec_extend(
                                SpecNode::Obj(Seq::<(Seq<char>, SpecNode)>::empty()),
                                q.skip(1),
                                es,
                            ),
                        ),
                    ),
                }
            }
        },
    }
}

/// Change lists apply one after the other.
proof fn lemma_apply_concat(t: SpecNode, cs1: Seq<SpecFieldChange>, cs2: Seq<SpecFieldChange>)
    ensures
        crate::replay::spec_apply_changes(t, cs1 + cs2) == crate::replay::spec_apply_changes(
            crate::replay::spec_apply_changes(t, cs1),
            cs2,
        ),
    decreases cs2.len(),
{
    if cs2.len() == 0 {
        assert(cs1 + cs2 =~= cs1);
    } else {
        assert((cs1 + cs2).drop_last() =~= cs1 + cs2.drop_last());
        assert((cs1 + cs2).last() == cs2.last());
        assert((cs1 + cs2).len() > 0);
        lemma_apply_concat(t, cs1, cs2.drop_last());
    }
}

/// A key not yet bound in the object at the path (if one is there).
pub open spec fn fresh_key(n: SpecNode, q: Seq<Seq<char>>, k: Seq<char>) -> bool {
    match crate::tree::spec_get(n, q) {
        Some(SpecNode::Obj(b)) => crate::tree::spec_lookup(b, k) is None,
        _ => true,
    }
}

/// After extending at `q` with fresh entries, a further fresh key under
/// `q` is still vacant and unblocked.
proof fn lemma_extend_vacant(
    A: SpecNode,
    q: Seq<Seq<char>>,
    es0: Seq<(Seq<char>, SpecNode)>,
    k: Seq<char>,
)
    requires
        open_at(A, q),
        fresh_entries(A, q, es0),
        fresh_key(A, q, k),
        forall|i: int| 0 <= i < es0.len() ==> (#[trigger] es0[i]).0 != k,
    ensures
        ({
            let t = if es0.len() == 0 {
                A
            } else {
                spec_extend(A, q, es0)
            };
            crate::tree::spec_get(t, q.push(k)) == None::<SpecNode> && open_at(t, q.push(k))
        }),
    decreases q.len(),
{
    let t = if es0.len() == 0 {
        A
    } else {
        spec_extend(A, q, es0)
    };
    match A {
        SpecNode::Leaf(_) => {
            assert(!open_at(A, q));
        },
        SpecNode::Obj(b) => {
            if q.len() == 0 {
                assert(crate::tree::spec_get(A, q) == Some(A));
                assert(crate::tree::spec_lookup(b, k) is None);
                crate::tree::lemma_lookup_none(es0, k);
                crate::tree::lemma_lookup_append(b, es0, k);
                assert((q.push(k))[0] == k);
                assert((q.push(k)).skip(1) =~= Seq::<Seq<char>>::empty());
            } else {
                assert((q.push(k))[0] == q[0]);
                assert((q.push(k)).skip(1) =~= q.skip(1).push(k));
                match crate::tree::spec_lookup(b, q[0]) {
                    Some(c) => {
                        assert(open_at(c, q.skip(1)));
                        assert(c is Obj);
                        assert(crate::tree::spec_get(A, q) == crate::tree::spec_get(
                            c,
                            q.skip(1),
                        ));
                        lemma_extend_vacant(c, q.skip(1), es0, k);
                        if es0.len() == 0 {
                            assert(crate::tree::spec_get(A, q.push(k)) == crate::tree::spec_get(
                                c,
                                q.skip(1).push(k),
                            ));
                        } else {
                            let inner = spec_extend(c, q.skip(1), es0);
                            assert(t == SpecNode::Obj(crate::tree::spec_update(b, q[0], inner)));
                            crate::tree::lemma_lookup_update(b, q[0], inner);
                            assert(inner is Obj);
                            assert(crate::tree::spec_get(t, q.push(k)) == crate::tree::spec_get(
                                inner,
                                q.skip(1).push(k),
                            ));
                        }
                    },
                    None => {
                        assert(crate::tree::spec_get(A, q) == None::<SpecNode>);
                        if es0.len() > 0 {
                            let eo = SpecNode::Obj(Seq::<(Seq<char>, SpecNode)>::empty());
                            assert(open_at(eo, q.skip(1)));
                            assert(fresh_entries(eo, q.skip(1), es0));
                            assert(fresh_key(eo, q.skip(1), k));
                            lemma_extend_vacant(eo, q.skip(1), es0, k);
                            let inner = spec_extend(eo, q.skip(1), es0);
                            assert(t == SpecNode::Obj(crate::tree::spec_update(b, q[0], inner)));
                            crate::tree::lemma_lookup_update(b, q[0], inner);
                            assert(inner is Obj);
                            assert(crate::tree::spec_get(t, q.push(k)) == crate::tree::spec_get(
                                inner,
                                q.skip(1).push(k),
                            ));
                        }
                    },
                }
            }
        },
    }
}

/// Setting a fresh leaf under the extension point appends one more
/// binding to the extension.
proof fn lemma_set_after_extend(
    A: SpecNode,
    q: Seq<Seq<char>>,
    es0: Seq<(Seq<char>, SpecNode)>,
    k: Seq<char>,
    v: crate::value::SpecValue,
)
    requires
        open_at(A, q),
        fresh_entries(A, q, es0),
        fresh_key(A, q, k),
        forall|i: int| 0 <= i < es0.len() ==> (#[trigger] es0[i]).0 != k,
    ensures
        crate::tree::spec_set(
            (if es0.len() == 0 {
                A
            } else {
                spec_extend(A, q, es0)
            }),
            q.push(k),
            v,
        ) == spec_extend(A, q, es0.push((k, SpecNode::Leaf(v)))),
    decreases q.len(),
{
    let t = if es0.len() == 0 {
        A
    } else {
        spec_extend(A, q, es0)
    };
    let x = (k, SpecNode::Leaf(v));
    match A {
        SpecNode::Leaf(_) => {
            assert(!open_at(A, q));
        },
        SpecNode::Obj(b) => {
            if q.len() == 0 {
                assert((q.push(k))[0] == k);
                assert(crate::tree::spec_get(A, q) == Some(A));
                assert(crate::tree::spec_lookup(b, k) is None);
                crate::tree::lemma_lookup_none(es0, k);
                crate::tree::lemma_lookup_append(b, es0, k);
                let bb = if es0.len() == 0 {
                    b
                } else {
                    b + es0
                };
                assert(t == SpecNode::Obj(bb));
                assert(crate::tree::spec_lookup(bb, k) is None);
                crate::tree::lemma_lookup_none_forall(bb, k);
                crate::tree::lemma_update_missing(bb, k, SpecNode::Leaf(v));
                assert(crate::tree::spec_set(t, q.push(k), v) == SpecNode::Obj(
                    crate::tree::spec_update(bb, k, SpecNode::Leaf(v)),
                ));
                assert(crate::tree::spec_update(bb, k, SpecNode::Leaf(v)) =~~= b + es0.push(x));
                assert(spec_extend(A, q, es0.push(x)) == SpecNode::Obj(b + es0.push(x)));
            } else {
                assert((q.push(k))[0] == q[0]);
                assert((q.push(k)).skip(1) =~= q.skip(1).push(k));
                match crate::tree::spec_lookup(b, q[0]) {
                    Some(c) => {
                        assert(open_at(c, q.skip(1)));
                        assert(c is Obj);
                        assert(crate::tree::spec_get(A, q) == crate::tree::spec_get(
                            c,
                            q.skip(1),
                        ));
                        lemma_set_after_extend(c, q.skip(1), es0, k, v);
                        if es0.len() == 0 {
                            assert(crate::tree::spec_set(A, q.push(k), v) == SpecNode::Obj(
                                crate::tree::spec_update(
                                    b,
                                    q[0],
                                    crate::tree::spec_set(c, q.skip(1).push(k), v),
                                ),
                            ));
                        } else {
                            let inner = spec_extend(c, q.skip(1), es0);
                            assert(t == SpecNode::Obj(crate::tree::spec_update(b, q[0], inner)));
                            crate::tree::lemma_lookup_update(b, q[0], inner);
                            assert(inner is Obj);
                            assert(crate::tree::spec_set(t, q.push(k), v) == SpecNode::Obj(
                                crate::tree::spec_update(
                                    crate::tree::spec_update(b, q[0], inner),
                                    q[0],
                                    crate::tree::spec_set(inner, q.skip(1).push(k), v),
                                ),
                            ));
                            crate::tree::lemma_update_overwrite(
                                b,
                                q[0],
                                inner,
                                crate::tree::spec_set(inner, q.skip(1).push(k), v),
                            );
                        }
                        assert(spec_extend(A, q, es0.push(x)) == SpecNode::Obj(
                            crate::tree::spec_update(
                                b,
                                q[0],
                                spec_extend(c, q.skip(1), es0.push(x)),
                            ),
                        ));
                    },
                    None => {
                        let eo = SpecNode::Obj(Seq::<(Seq<char>, SpecNode)>::empty());
                        assert(open_at(eo, q.skip(1)));
                        assert(fresh_entries(eo, q.skip(1), es0));
                        assert(fresh_key(eo, q.skip(1), k));
                        lemma_set_after_extend(eo, q.skip(1), es0, k, v);
                        if es0.len() == 0 {
                            assert(crate::tree::spec_set(A, q.push(k), v) == SpecNode::Obj(
                                crate::tree::spec_update(
                                    b,
                                    q[0],
                                    crate::tree::spec_set(eo, q.skip(1).push(k), v),
                                ),
                            ));
                        } else {
                            let inner = spec_extend(eo, q.skip(1), es0);
                            assert(t == SpecNode::Obj(crate::tree::spec_update(b, q[0], inner)));
                            crate::tree::lemma_lookup_update(b, q[0], inner);
                            assert(inner is Obj);
                            assert(crate::tree::spec_set(t, q.push(k), v) == SpecNode::Obj(
                                crate::tree::spec_update(
                                    crate::tree::spec_update(b, q[0], inner),
                                    q[0],
                                    crate::tree::spec_set(inner, q.skip(1).push(k), v),
                                ),
                            ));
                            crate::tree::lemma_update_overwrite(
                                b,
                                q[0],
                                inner,
                                crate::tree::spec_set(inner, q.skip(1).push(k), v),
                            );
                        }
                        assert(spec_extend(A, q, es0.push(x)) == SpecNode::Obj(
                            crate::tree::spec_update(
                                b,
                                q[0],
                                spec_extend(eo, q.skip(1), es0.push(x)),
                            ),
                        ));
                    },
                }
            }
        },
    }
}

/// Extending at a fresh key under the extension point appends one more
/// object binding to the extension.
proof fn lemma_extend_after_extend(
    A: SpecNode,
    q: Seq<Seq<char>>,
    es0: Seq<(Seq<char>, SpecNode)>,
    k: Seq<char>,
    es2: Seq<(Seq<char>, SpecNode)>,
)
    requires
        open_at(A, q),
        fresh_entries(A, q, es0),
        fresh_key(A, q, k),
        forall|i: int| 0 <= i < es0.len() ==> (#[trigger] es0[i]).0 != k,
    ensures
        spec_extend(
            (if es0.len() == 0 {
                A
            } else {
                spec_extend(A, q, es0)
            }),
            q.push(k),
            es2,
        ) == spec_extend(A, q, es0.push((k, SpecNode::Obj(es2)))),
    decreases q.len(),
{
    let t = if es0.len() == 0 {
        A
    } else {
        spec_extend(A, q, es0)
    };
    let x = (k, SpecNode::Obj(es2));
    let eo = SpecNode::Obj(Seq::<(Seq<char>, SpecNode)>::empty());
    match A {
        SpecNode::Leaf(_) => {
            assert(!open_at(A, q));
        },
        SpecNode::Obj(b) => {
            if q.len() == 0 {
                assert((q.push(k))[0] == k);
                assert((q.push(k)).skip(1) =~= Seq::<Seq<char>>::empty());
                assert(crate::tree::spec_get(A, q) == Some(A));
                assert(crate::tree::spec_lookup(b, k) is None);
                crate::tree::lemma_lookup_none(es0, k);
                crate::tree::lemma_lookup_append(b, es0, k);
                let bb = if es0.len() == 0 {
                    b
                } else {
                    b + es0
                };
                assert(t == SpecNode::Obj(bb));
                assert(crate::tree::spec_lookup(bb, k) is None);
                let placed = spec_extend(eo, Seq::<Seq<char>>::empty(), es2);
                assert(placed == SpecNode::Obj(Seq::<(Seq<char>, SpecNode)>::empty() + es2));
                assert(Seq::<(Seq<char>, SpecNode)>::empty() + es2 =~= es2);
                assert(spec_extend(t, q.push(k), es2) == SpecNode::Obj(
                    crate::tree::spec_update(bb, k, placed),
                ));
                crate::tree::lemma_lookup_none_forall(bb, k);
                crate::tree::lemma_update_missing(bb, k, placed);
                assert(crate::tree::spec_update(bb, k, placed) =~~= b + es0.push(x));
                assert(spec_extend(A, q, es0.push(x)) == SpecNode::Obj(b + es0.push(x)));
            } else {
                assert((q.push(k))[0] == q[0]);
                assert((q.push(k)).skip(1) =~= q.skip(1).push(k));
                match crate::tree::spec_lookup(b, q[0]) {
                    Some(c) => {
                        assert(open_at(c, q.skip(1)));
                        assert(c is Obj);
                        assert(crate::tree::spec_get(A, q) == crate::tree::spec_get(
                            c,
                            q.skip(1),
                        ));
                        lemma_extend_after_extend(c, q.skip(1), es0, k, es2);
                        if es0.len() == 0 {
                            assert(spec_extend(A, q.push(k), es2) == SpecNode::Obj(
                                crate::tree::spec_update(
                                    b,
                                    q[0],
                                    spec_extend(c, q.skip(1).push(k), es2),
                                ),
                            ));
                        } else {
                            let inner = spec_extend(c, q.skip(1), es0);
                            assert(t == SpecNode::Obj(crate::tree::spec_update(b, q[0], inner)));
                            crate::tree::lemma_lookup_update(b, q[0], inner);
                            assert(inner is Obj);
                            assert(spec_extend(t, q.push(k), es2) == SpecNode::Obj(
                                crate::tree::spec_update(
                                    crate::tree::spec_update(b, q[0], inner),
                                    q[0],
                                    spec_extend(inner, q.skip(1).push(k), es2),
                                ),
                            ));
                            crate::tree::lemma_update_overwrite(
                                b,
                                q[0],
                                inner,
                                spec_extend(inner, q.skip(1).push(k), es2),
                            );
                        }
                        assert(spec_extend(A, q, es0.push(x)) == SpecNode::Obj(
                            crate::tree::spec_update(
                                b,
                                q[0],
                                spec_extend(c, q.skip(1), es0.push(x)),
                            ),
                        ));
                    },
                    None => {
                        assert(open_at(eo, q.skip(1)));
                        assert(fresh_entries(eo, q.skip(1), es0));
                        assert(fresh_key(eo, q.skip(1), k));
                        lemma_extend_after_extend(eo, q.skip(1), es0, k, es2);
                        if es0.len() == 0 {
                            assert(spec_extend(A, q.push(k), es2) == SpecNode::Obj(
                                crate::tree::spec_update(
                                    b,
                                    q[0],
                                    spec_extend(eo, q.skip(1).push(k), es2),
                                ),
                            ));
                        } else {
                            let inner = spec_extend(eo, q.skip(1), es0);
                            assert(t == SpecNode::Obj(crate::tree::spec_update(b, q[0], inner)));
                            crate::tree::lemma_lookup_update(b, q[0], inner);
                            assert(inner is Obj);
                            assert(spec_extend(t, q.push(k), es2) == SpecNode::Obj(
                                crate::tree::spec_update(
                                    crate::tree::spec_update(b, q[0], inner),
                                    q[0],
                                    spec_extend(inner, q.skip(1).push(k), es2),
                                ),
                            ));
                            crate::tree::lemma_update_overwrite(
                                b,
                                q[0],
                                inner,
                                spec_extend(inner, q.skip(1).push(k), es2),
                            );
                        }
                        assert(spec_extend(A, q, es0.push(x)) == SpecNode::Obj(
                            crate::tree::spec_update(
                                b,
                                q[0],
                                spec_extend(eo, q.skip(1), es0.push(x)),
                            ),
                        ));
                    },
                }
            }
        },
    }
}

/// Applying the flattened records of fresh, well-behaved entries appends
/// exactly those entries to the object at the prefix.
#[verifier::rlimit(80)]
proof fn lemma_flatten_entries_replay(es: Seq<(Seq<char>, SpecNode)>, p: Seq<char>, A: SpecNode)
    requires
        good_entries(es),
        open_at(A, prefix_path(p)),
        fresh_entries(A, prefix_path(p), es),
    ensures
        crate::replay::spec_apply_changes(A, spec_flatten_entries(es, p)) == (if es.len() == 0 {
            A
        } else {
            spec_extend(A, prefix_path(p), es)
        }),
    decreases es,
{
    let q = prefix_path(p);
    if es.len() > 0 {
        let dl = es.drop_last();
        let k = es.last().0;
        let child = es.last().1;
        assert(forall|i: int, j: int| 0 <= i < j < dl.len() ==> dl[i].0 != dl[j].0);
        assert(forall|i: int|
            0 <= i < dl.len() ==> (#[trigger] dl[i]).0.len() > 0 && dot_free(dl[i].0) && good_node(
                dl[i].1,
            ) && (dl[i].1 is Obj ==> (dl[i].1)->Obj_0.len() > 0));
        assert(fresh_entries(A, q, dl)) by {
            match crate::tree::spec_get(A, q) {
                Some(g) => {
                    if g is Obj {
                        assert forall|i: int|
                            0 <= i < dl.len() implies crate::tree::spec_lookup(
                            g->Obj_0,
                            (#[trigger] dl[i]).0,
                        ) is None by {
                            assert(dl[i] == es[i]);
                        }
                    }
                },
                None => {},
            }
        }
        lemma_flatten_entries_replay(dl, p, A);
        let A1 = if dl.len() == 0 {
            A
        } else {
            spec_extend(A, q, dl)
        };
        lemma_apply_concat(A, spec_flatten_entries(dl, p), spec_flatten(child, spec_join(p, k)));
        assert(spec_flatten_entries(es, p) == spec_flatten_entries(dl, p) + spec_flatten(
            child,
            spec_join(p, k),
        ));
        assert(fresh_key(A, q, k)) by {
            match crate::tree::spec_get(A, q) {
                Some(g) => {
                    if g is Obj {
                        assert(crate::tree::spec_lookup(g->Obj_0, es[es.len() - 1].0) is None);
                    }
                },
                None => {},
            }
        }
        assert(forall|i: int| 0 <= i < dl.len() ==> (#[trigger] dl[i]).0 != k) by {
            assert(forall|i: int| 0 <= i < dl.len() ==> dl[i] == es[i] && es[i].0 != es[es.len()
                - 1].0);
        }
        lemma_extend_vacant(A, q, dl, k);
        assert(dot_free(k) && k.len() > 0);
        lemma_split_join(p, k);
        assert(spec_join(p, k).len() > 0);
        assert(prefix_path(spec_join(p, k)) == q.push(k));
        match child {
            SpecNode::Leaf(v) => {
                let c = SpecFieldChange {
                    field_name: spec_join(p, k),
                    change_type: ChangeType::Absolute,
                    value: spec_render(v),
                };
                assert(spec_flatten(child, spec_join(p, k)) == seq![c]);
                assert(seq![c].len() == 1);
                assert(seq![c].drop_last() =~= Seq::<SpecFieldChange>::empty());
                assert(seq![c].last() == c);
                assert(spec_flatten(child, spec_join(p, k)).drop_last()
                    == Seq::<SpecFieldChange>::empty());
                assert(crate::replay::spec_apply_changes(A1, Seq::<SpecFieldChange>::empty())
                    == A1);
                assert(crate::replay::spec_apply_changes(A1, seq![c])
                    == crate::replay::spec_apply_change(
                    crate::replay::spec_apply_changes(A1, seq![c].drop_last()),
                    seq![c].last(),
                ));
                assert(crate::replay::spec_apply_changes(A1, seq![c])
                    == crate::replay::spec_apply_change(A1, c));
                assert(crate::value::round_stable(v));
                assert(crate::value::spec_coerce(crate::value::spec_render(v)) == v);
                assert(crate::replay::spec_apply_change(A1, c) == crate::tree::spec_set(
                    A1,
                    q.push(k),
                    v,
                ));
                lemma_set_after_extend(A, q, dl, k, v);
                assert(dl.push((k, SpecNode::Leaf(v))) =~~= es);
            },
            SpecNode::Obj(es2) => {
                assert(es2.len() > 0);
                assert(good_entries(es2));
                assert(crate::tree::spec_get(A1, q.push(k)) == None::<SpecNode>);
                assert(fresh_entries(A1, q.push(k), es2));
                assert(open_at(A1, q.push(k)));
                assert(decreases_to!(es => es[es.len() - 1]));
                assert(decreases_to!(es[es.len() - 1] => es[es.len() - 1].1));
                assert(decreases_to!(es[es.len() - 1].1 => (es[es.len() - 1].1)->Obj_0));
                lemma_flatten_entries_replay(es2, spec_join(p, k), A1);
                assert(crate::replay::spec_apply_changes(A1, spec_flatten_entries(es2, spec_join(p, k)))
                    == spec_extend(A1, q.push(k), es2));
                lemma_extend_after_extend(A, q, dl, k, es2);
                assert(dl.push((k, SpecNode::Obj(es2))) =~~= es);
            },
        }
    }
}

/// Duplication snapshot fidelity: flattening a reconstructed tree into
/// the synthetic all-SET change list and replaying that list through an
/// empty tree rebuilds exactly the tree, as long as the tree could have
/// come out of the baking unscathed: keys unique, non-empty and dot-free,
/// no empty nested object, and every leaf stable under the
/// render-then-coerce round trip.
pub proof fn lemma_snapshot_bake_fidelity(t: SpecNode)
    requires
        t is Obj,
        good_node(t),
    ensures
        crate::replay::spec_apply_changes(
            SpecNode::Obj(Seq::empty()),
            spec_flatten(t, Seq::empty()),
        ) == t,
{
    let es = t->Obj_0;
    let root = SpecNode::Obj(Seq::<(Seq<char>, SpecNode)>::empty());
    assert(prefix_path(Seq::empty()) =~= Seq::<Seq<char>>::empty());
    assert(open_at(root, Seq::<Seq<char>>::empty()));
    assert(crate::tree::spec_get(root, Seq::<Seq<char>>::empty()) == Some(root));
    assert(fresh_entries(root, Seq::<Seq<char>>::empty(), es));
    assert(spec_flatten(t, Seq::empty()) == spec_flatten_entries(es, Seq::empty()));
    lemma_flatten_entries_replay(es, Seq::empty(), root);
    if es.len() == 0 {
        assert(es =~= Seq::<(Seq<char>, SpecNode)>::empty());
        assert(root =~~= t);
    } else {
        assert(spec_extend(root, Seq::<Seq<char>>::empty(), es) == SpecNode::Obj(
            Seq::<(Seq<char>, SpecNode)>::empty() + es,
        ));
        assert(Seq::<(Seq<char>, SpecNode)>::empty() + es =~= es);
    }
}

/// Duplication fidelity at the replay level: an entity whose only marker
/// is the baked snapshot reconstructs the source's tree at any position
/// at or after the bake.
pub proof fn lemma_duplicate_replay_fidelity(m: crate::model::SpecMarker, t: SpecNode, pos: int)
    requires
        t is Obj,
        good_node(t),
        m.changes == spec_flatten(t, Seq::empty()),
        m.position <= pos,
    ensures
        crate::replay::spec_replay(seq![m], m.entity_id, pos) == t,
{
    let ms = seq![m];
    assert(ms.drop_last() =~= Seq::<crate::model::SpecMarker>::empty());
    assert(ms.last() == m);
    let sel = relevant(ms, m.entity_id, pos);
    assert(relevant(ms.drop_last(), m.entity_id, pos) =~= Seq::<crate::model::SpecMarker>::empty());
    assert(sel == Seq::<crate::model::SpecMarker>::empty().push(m));
    assert(sel.drop_last() =~= Seq::<crate::model::SpecMarker>::empty());
    assert(sel.last() == m);
    assert(sel.len() == 1);
    let sorted = crate::replay::stable_sorted_by_pos(sel);
    assert(crate::replay::stable_sorted_by_pos(sel.drop_last()) =~= Seq::<
        crate::model::SpecMarker,
    >::empty());
    assert(sorted == crate::replay::insert_by_pos(
        Seq::<crate::model::SpecMarker>::empty(),
        m,
    ));
    assert(sorted =~= seq![m]);
    let empty_tree = SpecNode::Obj(Seq::<(Seq<char>, SpecNode)>::empty());
    assert(seq![m].len() == 1);
    assert(seq![m].drop_last() =~= Seq::<crate::model::SpecMarker>::empty());
    assert(seq![m].last() == m);
    assert(crate::replay::spec_apply_markers(
        empty_tree,
        Seq::<crate::model::SpecMarker>::empty(),
    ) == empty_tree);
    assert(crate::replay::spec_apply_markers(empty_tree, seq![m])
        == crate::replay::spec_apply_changes(
        crate::replay::spec_apply_markers(empty_tree, seq![m].drop_last()),
        seq![m].last().changes,
    ));
    assert(crate::replay::spec_apply_markers(empty_tree, seq![m])
        == crate::replay::spec_apply_changes(empty_tree, m.changes));
    lemma_snapshot_bake_fidelity(t);
    assert(SpecNode::Obj(Seq::empty()) == empty_tree) by {
        assert(Seq::<(Seq<char>, SpecNode)>::empty() =~= Seq::empty());
    }
}

fn join_path(prefix: &String, key: &String) -> (r: String)
    ensures
        r@ == spec_join(prefix@, key@),
{
    if prefix.as_str().unicode_len() == 0 {
        key.clone()
    } else {
        let mut r = prefix.clone();
        r.append(".");
        r.append(key.as_str());
        proof {
            reveal_strlit(".");
            assert("."@ =~= seq!['.']);
        }
        r
    }
}

/// Flattens the subtree `n`, whose dotted path is `prefix`, appending one
/// SET record per leaf to `out`.
pub fn flatten_node(n: &Node, prefix: &String, out: &mut Vec<FieldChange>)
    ensures
        changes_view(final(out)@) == changes_view(old(out)@) + spec_flatten(n@, prefix@),
    decreases *n,
{
    match n {
        Node::Leaf(v) => {
            let c = FieldChange {
                field_name: prefix.clone(),
                change_type: ChangeType::Absolute,
                value: render_value(v),
            };
            out.push(c);
            proof {
                assert(changes_view(out@) =~= changes_view(old(out)@) + spec_flatten(
                    n@,
                    prefix@,
                ));
            }
        },
        Node::Obj(entries) => {
            let ghost es = crate::tree::view_entry_seq(entries@);
            proof {
                assert(*n is Obj);
                assert((*n)->Obj_0 == *entries);
                crate::tree::lemma_view_entries(entries@);
                assert(changes_view(out@) =~= changes_view(old(out)@) + spec_flatten_entries(
                    es.take(0),
                    prefix@,
                ));
            }
            let mut i: usize = 0;
            while i < entries.len()
                invariant
                    i <= entries@.len(),
                    *n is Obj,
                    (*n)->Obj_0 == *entries,
                    es == crate::tree::view_entry_seq(entries@),
                    es.len() == entries@.len(),
                    forall|k: int|
                        0 <= k < entries@.len() ==> #[trigger] es[k] == (
                            entries@[k].0@,
                            crate::tree::node_view(entries@[k].1),
                        ),
                    changes_view(out@) == changes_view(old(out)@) + spec_flatten_entries(
                        es.take(i as int),
                        prefix@,
                    ),
                decreases entries@.len() - i,
            {
                proof {
                    assert(es.take(i + 1).drop_last() =~= es.take(i as int));
                    assert(es.take(i + 1).last() == es[i as int]);
                }
                let p = join_path(prefix, &entries[i].0);
                proof {
                    assert((*n)->Obj_0 == *entries);
                    assert(decreases_to!(*n => (*n)->Obj_0));
                    assert(decreases_to!(*entries => entries@));
                    assert(decreases_to!(entries@ => entries@[i as int]));
                    assert(decreases_to!(entries@[i as int] => entries@[i as int].1));
                }
                flatten_node(&entries[i].1, &p, out);
                proof {
                    assert(changes_view(out@) =~= changes_view(old(out)@) + spec_flatten_entries(
                        es.take(i + 1),
                        prefix@,
                    ));
                }
                i += 1;
            }
            proof {
                assert(es.take(entries@.len() as int) =~= es);
            }
        },
    }
}

impl AppState {
    /// Duplicates an entity: a copy with a fresh id and the given name,
    /// keeping the registry, metadata and colour.  The source's state at
    /// the cursor is baked into one synthetic all-SET marker on the copy,
    /// unless that state is empty.
    pub fn duplicate_entity(
        &mut self,
        entity_id: &String,
        new_name: String,
        cursor_position: usize,
    ) -> (r: Result<(Entity, Option<Marker>), ErrorKind>)
        requires
            old(self).wf(),
        ensures
            final(self).wf(),
            ({
                let j = first_entity_idx(old(self)@.entities, entity_id@);
                match r {
                    Ok((e2, om)) => {
                        &&& j >= 0
                        &&& e2@ == SpecEntity {
                            id: e2@.id,
                            name: new_name@,
                            ..old(self)@.entities[j]
                        }
                        &&& ({
                            let ents1 = if first_entity_idx(old(self)@.entities, e2@.id) >= 0 {
                                old(self)@.entities.update(
                                    first_entity_idx(old(self)@.entities, e2@.id),
                                    e2@,
                                )
                            } else {
                                old(self)@.entities.push(e2@)
                            };
                            let baked = spec_flatten(
                                spec_replay(old(self)@.markers, entity_id@, cursor_position as int),
                                Seq::empty(),
                            );
                            match om {
                                Some(m) => {
                                    &&& relevant(
                                        old(self)@.markers,
                                        entity_id@,
                                        cursor_position as int,
                                    ).len() > 0
                                    &&& baked.len() > 0
                                    &&& m@.changes == baked
                                    &&& m@.position == cursor_position as int
                                    &&& m@.entity_id == e2@.id
                                    &&& m@.visual.color == old(self)@.entities[j].color
                                    &&& m@.visual.icon == "\u{1F4CB}"@
                                    &&& m@.description == "Duplicated from "@
                                        + old(self)@.entities[j].name
                                    &&& final(self)@.entities == ents1
                                    &&& ({
                                        let k = first_marker_idx(old(self)@.markers, m@.id);
                                        if k >= 0 {
                                            final(self)@.markers == old(self)@.markers.update(
                                                k,
                                                m@,
                                            )
                                        } else {
                                            final(self)@.markers == old(self)@.markers.push(m@)
                                        }
                                    })
                                },
                                None => {
                                    &&& !(relevant(
                                        old(self)@.markers,
                                        entity_id@,
                                        cursor_position as int,
                                    ).len() > 0 && baked.len() > 0)
                                    &&& final(self)@.entities == ents1
                                    &&& final(self)@.markers == old(self)@.markers
                                },
                            }
                        })
                    },
                    Err(k) => j == -1 && k == ErrorKind::NotFound && final(self)@ == old(self)@,
                }
            }),
    {
        let ghost ev = crate::model::entities_view(self.entities@);
        let ghost mv = crate::model::markers_view(self.markers@);
        match find_entity(&self.entities, entity_id) {
            None => Err(ErrorKind::NotFound),
            Some(j) => {
                proof {
                    lemma_first_entity_idx_props(ev, entity_id@);
                }
                let source = &self.entities[j];
                let source_color = source.color.clone();
                let source_name = source.name.clone();
                let new_entity = Entity {
                    id: fresh_id(),
                    name: new_name,
                    fields: crate::model::clone_string_vec(&source.fields),
                    color: source.color.clone(),
                    field_metadata: crate::model::clone_metadata(&source.field_metadata),
                };
                let e2 = new_entity.clone();
                self.put_entity(new_entity);
                let has_relevant = self.any_relevant(entity_id, cursor_position, Ghost(mv));
                if has_relevant {
                    let state = crate::replay::replay_markers(&self.markers, entity_id, cursor_position);
                    let mut changes: Vec<FieldChange> = Vec::new();
                    let empty_prefix = String::new();
                    flatten_node(&state, &empty_prefix, &mut changes);
                    proof {
                        assert(changes_view(changes@) =~= spec_flatten(state@, Seq::empty()));
                    }
                    if changes.len() > 0 {
                        let now = default_timestamp();
                        let mut description = String::from_str("Duplicated from ");
                        description.append(source_name.as_str());
                        proof {
                            reveal_strlit("Duplicated from ");
                        }
                        let marker = Marker {
                            id: fresh_id(),
                            position: cursor_position,
                            entity_id: e2.id.clone(),
                            changes,
                            visual: MarkerVisual {
                                icon: String::from_str("\u{1F4CB}"),
                                color: source_color,
                            },
                            description,
                            created_at: now,
                            modified_at: now,
                        };
                        let marker_ret = marker.clone();
                        self.put_marker(marker);
                        return Ok((e2, Some(marker_ret)));
                    }
                    Ok((e2, None))
                } else {
                    proof {
                        assert(relevant(mv, entity_id@, cursor_position as int).len() == 0);
                        assert(spec_flatten(
                            spec_replay(mv, entity_id@, cursor_position as int),
                            Seq::empty(),
                        ) =~= Seq::<SpecFieldChange>::empty());
                    }
                    Ok((e2, None))
                }
            },
        }
    }

    /// Whether any stored marker is relevant for this entity and position.
    fn any_relevant(&self, eid: &String, pos: usize, Ghost(mv): Ghost<Seq<crate::model::SpecMarker>>) -> (r:
        bool)
        requires
            mv == crate::model::markers_view(self.markers@),
        ensures
            r == (relevant(mv, eid@, pos as int).len() > 0),
    {
        let mut i: usize = 0;
        while i < self.markers.len()
            invariant
                i <= self.markers@.len(),
                mv == crate::model::markers_view(self.markers@),
                relevant(mv.take(i as int), eid@, pos as int).len() == 0,
            decreases self.markers@.len() - i,
        {
            proof {
                assert(mv.take(i + 1).drop_last() =~= mv.take(i as int));
                assert(mv.take(i + 1).last() == mv[i as int]);
            }
            let m = &self.markers[i];
            if m.entity_id == *eid && m.position <= pos {
                proof {
                    lemma_relevant_take_mono(mv, eid@, pos as int, i + 1);
                }
                return true;
            }
            i += 1;
        }
        proof {
            assert(mv.take(mv.len() as int) =~= mv);
        }
        false
    }
}

/// Once some prefix already selects a marker, the whole sequence does.
proof fn lemma_relevant_take_mono(ms: Seq<crate::model::SpecMarker>, eid: Seq<char>, pos: int, i: int)
    requires
        0 <= i <= ms.len(),
        relevant(ms.take(i), eid, pos).len() > 0,
    ensures
        relevant(ms, eid, pos).len() > 0,
    decreases ms.len() - i,
{
    if i < ms.len() {
        assert(ms.take(i + 1).drop_last() =~= ms.take(i));
        lemma_relevant_take_mono(ms, eid, pos, i + 1);
    } else {
        assert(ms.take(i) =~= ms);
    }
}

} // verus!
