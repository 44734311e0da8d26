//! The in-memory store: the entity registry and the marker index, with
//! the cascades that tie them together (recolor, field purge, entity
//! deletion) and the persistence snapshot.
//!
//! Both collections keep insertion order and unique ids; replacing the
//! binding of an existing id keeps its place, as a keyed map would.

use vstd::prelude::*;

verus! {

use crate::model::Entity;
use crate::model::ErrorKind;
use crate::model::FieldChange;
use crate::model::FieldMetadata;
use crate::model::Marker;
use crate::model::MarkerVisual;
use crate::model::SpecEntity;
use crate::model::SpecFieldChange;
use crate::model::SpecMarker;
use crate::model::Document;
use crate::model::SpecDocument;
use crate::model::changes_view;
use crate::model::default_entity_color;
use crate::model::default_timestamp;
use crate::model::entities_view;
use crate::model::fresh_id;
use crate::model::markers_view;
use crate::model::metadata_view;

/// Index of the first entity bound to an id, or -1.
pub open spec fn first_entity_idx(s: Seq<SpecEntity>, id: Seq<char>) -> int
    decreases s.len(),
{
    if s.len() == 0 {
        -1
    } else if s[0].id == id {
        0
    } else {
        let r = first_entity_idx(s.skip(1), id);
        if r < 0 {
            -1
        } else {
            r + 1
        }
    }
}

/// Index of the first marker bound to an id, or -1.
pub open spec fn first_marker_idx(s: Seq<SpecMarker>, id: Seq<char>) -> int
    decreases s.len(),
{
    if s.len() == 0 {
        -1
    } else if s[0].id == id {
        0
    } else {
        let r = first_marker_idx(s.skip(1), id);
        if r < 0 {
            -1
        } else {
            r + 1
        }
    }
}

pub proof fn lemma_first_entity_idx_at(s: Seq<SpecEntity>, id: Seq<char>, j: int)
    requires
        0 <= j < s.len(),
        s[j].id == id,
        forall|i: int| 0 <= i < j ==> (#[trigger] s[i]).id != id,
    ensures
        first_entity_idx(s, id) == j,
    decreases s.len(),
{
    if j > 0 {
        lemma_first_entity_idx_at(s.skip(1), id, j - 1);
    }
}

pub proof fn lemma_first_entity_idx_none(s: Seq<SpecEntity>, id: Seq<char>)
    requires
        forall|i: int| 0 <= i < s.len() ==> (#[trigger] s[i]).id != id,
    ensures
        first_entity_idx(s, id) == -1,
    decreases s.len(),
{
    if s.len() > 0 {
        lemma_first_entity_idx_none(s.skip(1), id);
    }
}

pub proof fn lemma_first_entity_idx_props(s: Seq<SpecEntity>, id: Seq<char>)
    ensures
        first_entity_idx(s, id) >= 0 ==> first_entity_idx(s, id) < s.len() && s[first_entity_idx(
            s,
            id,
        )].id == id,
        first_entity_idx(s, id) >= 0 ==> forall|i: int|
            0 <= i < first_entity_idx(s, id) ==> (#[trigger] s[i]).id != id,
        first_entity_idx(s, id) == -1 ==> forall|i: int|
            0 <= i < s.len() ==> (#[trigger] s[i]).id != id,
    decreases s.len(),
{
    if s.len() > 0 && s[0].id != id {
        lemma_first_entity_idx_props(s.skip(1), id);
        if first_entity_idx(s.skip(1), id) >= 0 {
            assert forall|i: int| 0 <= i < first_entity_idx(s, id) implies (
            #[trigger] s[i]).id != id by {
                if i > 0 {
                    assert(s.skip(1)[i - 1].id != id);
                }
            }
        } else {
            assert forall|i: int| 0 <= i < s.len() implies (#[trigger] s[i]).id != id by {
                if i > 0 {
                    assert(s.skip(1)[i - 1].id != id);
                }
            }
        }
    }
}

pub proof fn lemma_first_marker_idx_props(s: Seq<SpecMarker>, id: Seq<char>)
    ensures
        first_marker_idx(s, id) >= 0 ==> first_marker_idx(s, id) < s.len() && s[first_marker_idx(
            s,
            id,
        )].id == id,
        first_marker_idx(s, id) >= 0 ==> forall|i: int|
            0 <= i < first_marker_idx(s, id) ==> (#[trigger] s[i]).id != id,
        first_marker_idx(s, id) == -1 ==> forall|i: int|
            0 <= i < s.len() ==> (#[trigger] s[i]).id != id,
    decreases s.len(),
{
    if s.len() > 0 && s[0].id != id {
        lemma_first_marker_idx_props(s.skip(1), id);
        if first_marker_idx(s.skip(1), id) >= 0 {
            assert forall|i: int| 0 <= i < first_marker_idx(s, id) implies (
            #[trigger] s[i]).id != id by {
                if i > 0 {
                    assert(s.skip(1)[i - 1].id != id);
                }
            }
        } else {
            assert forall|i: int| 0 <= i < s.len() implies (#[trigger] s[i]).id != id by {
                if i > 0 {
                    assert(s.skip(1)[i - 1].id != id);
                }
            }
        }
    }
}

pub proof fn lemma_first_marker_idx_at(s: Seq<SpecMarker>, id: Seq<char>, j: int)
    requires
        0 <= j < s.len(),
        s[j].id == id,
        forall|i: int| 0 <= i < j ==> (#[trigger] s[i]).id != id,
    ensures
        first_marker_idx(s, id) == j,
    decreases s.len(),
{
    if j > 0 {
        lemma_first_marker_idx_at(s.skip(1), id, j - 1);
    }
}

pub proof fn lemma_first_marker_idx_none(s: Seq<SpecMarker>, id: Seq<char>)
    requires
        forall|i: int| 0 <= i < s.len() ==> (#[trigger] s[i]).id != id,
    ensures
        first_marker_idx(s, id) == -1,
    decreases s.len(),
{
    if s.len() > 0 {
        lemma_first_marker_idx_none(s.skip(1), id);
    }
}

/// Every id names at most one entity.
pub open spec fn unique_entity_ids(s: Seq<SpecEntity>) -> bool {
    forall|i: int, j: int| 0 <= i < j < s.len() ==> s[i].id != s[j].id
}

/// Every id names at most one marker.
pub open spec fn unique_marker_ids(s: Seq<SpecMarker>) -> bool {
    forall|i: int, j: int| 0 <= i < j < s.len() ==> s[i].id != s[j].id
}

/// The shared application state: the entity registry and the marker
/// index.  All mutation goes through the methods below, each a bounded
/// synchronous computation; callers serialize access.
pub struct AppState {
    pub entities: Vec<Entity>,
    pub markers: Vec<Marker>,
}

#[verifier::ext_equal]
pub struct SpecAppState {
    pub entities: Seq<SpecEntity>,
    pub markers: Seq<SpecMarker>,
}

impl View for AppState {
    type V = SpecAppState;

    open spec fn view(&self) -> SpecAppState {
        SpecAppState { entities: entities_view(self.entities@), markers: markers_view(self.markers@) }
    }
}

pub(crate) fn find_entity(entities: &Vec<Entity>, id: &String) -> (r: Option<usize>)
    ensures
        match r {
            Some(j) => first_entity_idx(entities_view(entities@), id@) == j as int,
            None => first_entity_idx(entities_view(entities@), id@) == -1,
        },
{
    let ghost ev = entities_view(entities@);
    let mut j: usize = 0;
    while j < entities.len()
        invariant
            j <= entities@.len(),
            ev == entities_view(entities@),
            forall|i: int| 0 <= i < j ==> (#[trigger] ev[i]).id != id@,
        decreases entities@.len() - j,
    {
        if entities[j].id == *id {
            proof {
                lemma_first_entity_idx_at(ev, id@, j as int);
            }
            return Some(j);
        }
        j += 1;
    }
    proof {
        lemma_first_entity_idx_none(ev, id@);
    }
    None
}

pub(crate) fn find_marker(markers: &Vec<Marker>, id: &String) -> (r: Option<usize>)
    ensures
        match r {
            Some(j) => first_marker_idx(markers_view(markers@), id@) == j as int,
            None => first_marker_idx(markers_view(markers@), id@) == -1,
        },
{
    let ghost mv = markers_view(markers@);
    let mut j: usize = 0;
    while j < markers.len()
        invariant
            j <= markers@.len(),
            mv == markers_view(markers@),
            forall|i: int| 0 <= i < j ==> (#[trigger] mv[i]).id != id@,
        decreases markers@.len() - j,
    {
        if markers[j].id == *id {
            proof {
                lemma_first_marker_idx_at(mv, id@, j as int);
            }
            return Some(j);
        }
        j += 1;
    }
    proof {
        lemma_first_marker_idx_none(mv, id@);
    }
    None
}

/// Markers of one entity recoloured; everything else untouched.
pub open spec fn spec_recolor_markers(
    ms: Seq<SpecMarker>,
    eid: Seq<char>,
    color: Seq<char>,
) -> Seq<SpecMarker> {
    ms.map_values(
        |m: SpecMarker|
            if m.entity_id == eid {
                SpecMarker {
                    visual: crate::model::SpecMarkerVisual { color: color, ..m.visual },
                    ..m
                }
            } else {
                m
            },
    )
}

/// The markers left after an entity's cascade deletion.
pub open spec fn spec_drop_markers_of(ms: Seq<SpecMarker>, eid: Seq<char>) -> Seq<SpecMarker>
    decreases ms.len(),
{
    if ms.len() == 0 {
        Seq::empty()
    } else {
        let rest = spec_drop_markers_of(ms.drop_last(), eid);
        if ms.last().entity_id == eid {
            rest
        } else {
            rest.push(ms.last())
        }
    }
}

proof fn lemma_drop_markers_of_unique(ms: Seq<SpecMarker>, eid: Seq<char>)
    requires
        unique_marker_ids(ms),
    ensures
        unique_marker_ids(spec_drop_markers_of(ms, eid)),
        forall|k: int|
            0 <= k < spec_drop_markers_of(ms, eid).len() ==> exists|i: int|
                0 <= i < ms.len() && ms[i] == #[trigger] spec_drop_markers_of(ms, eid)[k],
    decreases ms.len(),
{
    if ms.len() > 0 {
        assert(forall|i: int, j: int|
            0 <= i < j < ms.drop_last().len() ==> ms.drop_last()[i].id != ms.drop_last()[j].id);
        lemma_drop_markers_of_unique(ms.drop_last(), eid);
        let rest = spec_drop_markers_of(ms.drop_last(), eid);
        if ms.last().entity_id != eid {
            assert forall|k: int| 0 <= k < rest.len() implies rest[k].id != ms.last().id by {
                let i = choose|i: int| 0 <= i < ms.drop_last().len() && ms.drop_last()[i] == rest[k];
                assert(ms[i] == rest[k]);
                assert(ms[i].id != ms[ms.len() - 1].id);
            }
        }
    }
}

impl AppState {
    /// Both collections obey the keyed-map discipline: unique ids.
    pub open spec fn wf(&self) -> bool {
        unique_entity_ids(self@.entities) && unique_marker_ids(self@.markers)
    }

    /// A fresh, empty state.
    pub fn new() -> (s: Self)
        ensures
            s@.entities.len() == 0,
            s@.markers.len() == 0,
            s.wf(),
    {
        let s = AppState { entities: Vec::new(), markers: Vec::new() };
        proof {
            assert(entities_view(s.entities@) =~= Seq::<SpecEntity>::empty());
            assert(markers_view(s.markers@) =~= Seq::<SpecMarker>::empty());
        }
        s
    }

    /// Creates an entity with a fresh id and the given name, gold unless
    /// a colour is chosen, and an empty field registry.
    pub fn create_entity(&mut self, name: String, color: Option<String>) -> (e: Entity)
        requires
            old(self).wf(),
        ensures
            final(self).wf(),
            e@.name == name@,
            e@.fields.len() == 0,
            e@.field_metadata.len() == 0,
            e@.color == match color {
                Some(c) => c@,
                None => "#FFD700"@,
            },
            final(self)@.markers == old(self)@.markers,
            ({
                let j = first_entity_idx(old(self)@.entities, e@.id);
                if j >= 0 {
                    final(self)@.entities == old(self)@.entities.update(j, e@)
                } else {
                    final(self)@.entities == old(self)@.entities.push(e@)
                }
            }),
    {
        let id = fresh_id();
        let col = match color {
            Some(c) => c,
            None => default_entity_color(),
        };
        let e = Entity {
            id,
            name,
            fields: Vec::new(),
            color: col,
            field_metadata: Vec::new(),
        };
        proof {
            assert(crate::tree::str_seq_view(e.fields@) =~= Seq::<Seq<char>>::empty());
            assert(metadata_view(e.field_metadata@) =~= Seq::<(Seq<char>, FieldMetadata)>::empty());
        }
        let er = e.clone();
        self.put_entity(e);
        er
    }

    /// Binds an entity under its id: replaces the holder of the id in
    /// place, or appends when the id is new.
    pub fn put_entity(&mut self, e: Entity)
        requires
            old(self).wf(),
        ensures
            final(self).wf(),
            final(self)@.markers == old(self)@.markers,
            ({
                let j = first_entity_idx(old(self)@.entities, e@.id);
                if j >= 0 {
                    final(self)@.entities == old(self)@.entities.update(j, e@)
                } else {
                    final(self)@.entities == old(self)@.entities.push(e@)
                }
            }),
    {
        let ghost ev = entities_view(self.entities@);
        match find_entity(&self.entities, &e.id) {
            Some(j) => {
                proof {
                    lemma_first_entity_idx_props(ev, e@.id);
                }
                self.entities.remove(j);
                self.entities.insert(j, e);
                proof {
                    assert(entities_view(self.entities@) =~= ev.update(
                        first_entity_idx(ev, e@.id),
                        e@,
                    ));
                }
            },
            None => {
                proof {
                    lemma_first_entity_idx_props(ev, e@.id);
                }
                self.entities.push(e);
                proof {
                    assert(entities_view(self.entities@) =~= ev.push(e@));
                }
            },
        }
    }

    /// Renames and/or recolours an entity; a new colour cascades to the
    /// visuals of every marker the entity owns.
    pub fn update_entity(
        &mut self,
        entity_id: &String,
        name: Option<String>,
        color: Option<String>,
    ) -> (r: Result<Entity, ErrorKind>)
        requires
            old(self).wf(),
        ensures
            final(self).wf(),
            ({
                let j = first_entity_idx(old(self)@.entities, entity_id@);
                match r {
                    Ok(e) => j >= 0 && e@ == (SpecEntity {
                        name: match name {
                            Some(n) => n@,
                            None => old(self)@.entities[j].name,
                        },
                        color: match color {
                            Some(c) => c@,
                            None => old(self)@.entities[j].color,
                        },
                        ..old(self)@.entities[j]
                    }) && final(self)@.entities == old(self)@.entities.update(j, e@)
                        && final(self)@.markers == match color {
                        Some(c) => spec_recolor_markers(old(self)@.markers, entity_id@, c@),
                        None => old(self)@.markers,
                    },
                    Err(k) => j == -1 && k == ErrorKind::NotFound && final(self)@ == old(self)@,
                }
            }),
    {
        let ghost ev = entities_view(self.entities@);
        let ghost mv = markers_view(self.markers@);
        match find_entity(&self.entities, entity_id) {
            None => Err(ErrorKind::NotFound),
            Some(j) => {
                proof {
                    lemma_first_entity_idx_props(ev, entity_id@);
                }
                let mut e = self.entities.remove(j);
                match name {
                    Some(n) => {
                        e.name = n;
                    },
                    None => {},
                }
                let recolor: Option<String> = match color {
                    Some(c) => {
                        e.color = c.clone();
                        Some(c)
                    },
                    None => None,
                };
                let er = e.clone();
                self.entities.insert(j, e);
                proof {
                    assert(entities_view(self.entities@) =~= ev.update(j as int, er@));
                }
                match recolor {
                    Some(c) => {
                        self.recolor_markers(entity_id, &c);
                    },
                    None => {},
                }
                Ok(er)
            },
        }
    }

    fn recolor_markers(&mut self, entity_id: &String, color: &String)
        ensures
            final(self).entities == old(self).entities,
            final(self)@.markers == spec_recolor_markers(old(self)@.markers, entity_id@, color@),
            unique_marker_ids(old(self)@.markers) ==> unique_marker_ids(final(self)@.markers),
    {
        let ghost mv = markers_view(self.markers@);
        let ghost target = spec_recolor_markers(mv, entity_id@, color@);
        let mut i: usize = 0;
        while i < self.markers.len()
            invariant
                i <= self.markers@.len(),
                self.markers@.len() == mv.len(),
                self.entities == old(self).entities,
                target == spec_recolor_markers(mv, entity_id@, color@),
                target.len() == mv.len(),
                forall|k: int| i <= k < mv.len() ==> markers_view(self.markers@)[k] == mv[k],
                forall|k: int| 0 <= k < i ==> markers_view(self.markers@)[k] == target[k],
            decreases self.markers@.len() - i,
        {
            let matches_entity = self.markers[i].entity_id == *entity_id;
            if matches_entity {
                let mut m = self.markers.remove(i);
                m.visual.color = color.clone();
                self.markers.insert(i, m);
            }
            i += 1;
        }
        proof {
            assert(markers_view(self.markers@) =~= target);
            assert forall|a: int, b: int|
                0 <= a < b < target.len() && unique_marker_ids(mv) implies target[a].id
                != target[b].id by {
                assert(target[a].id == mv[a].id);
                assert(target[b].id == mv[b].id);
            }
        }
    }

    /// Deletes an entity and, in the same step, every marker it owns.
    pub fn delete_entity(&mut self, entity_id: &String) -> (r: Result<(), ErrorKind>)
        requires
            old(self).wf(),
        ensures
            final(self).wf(),
            ({
                let j = first_entity_idx(old(self)@.entities, entity_id@);
                match r {
                    Ok(_) => j >= 0 && final(self)@.entities == old(self)@.entities.remove(j)
                        && final(self)@.markers == spec_drop_markers_of(old(self)@.markers, entity_id@),
                    Err(k) => j == -1 && k == ErrorKind::NotFound && final(self)@ == old(self)@,
                }
            }),
    {
        let ghost ev = entities_view(self.entities@);
        let ghost mv = markers_view(self.markers@);
        match find_entity(&self.entities, entity_id) {
            None => Err(ErrorKind::NotFound),
            Some(j) => {
                proof {
                    lemma_first_entity_idx_props(ev, entity_id@);
                }
                self.entities.remove(j);
                proof {
                    assert(entities_view(self.entities@) =~= ev.remove(j as int));
                }
                let mut kept: Vec<Marker> = Vec::new();
                let mut i: usize = 0;
                proof {
                    assert(markers_view(kept@) =~= spec_drop_markers_of(mv.take(0), entity_id@));
                }
                while i < self.markers.len()
                    invariant
                        i <= self.markers@.len(),
                        mv == markers_view(self.markers@),
                        markers_view(kept@) == spec_drop_markers_of(mv.take(i as int), entity_id@),
                    decreases self.markers@.len() - i,
                {
                    proof {
                        assert(mv.take(i + 1).drop_last() =~= mv.take(i as int));
                        assert(mv.take(i + 1).last() == mv[i as int]);
                    }
                    let m = &self.markers[i];
                    if !(m.entity_id == *entity_id) {
                        kept.push(m.clone());
                        proof {
                            assert(markers_view(kept@) =~= spec_drop_markers_of(
                                mv.take(i + 1),
                                entity_id@,
                            ));
                        }
                    }
                    i += 1;
                }
                proof {
                    assert(mv.take(mv.len() as int) =~= mv);
                }
                self.markers = kept;
                proof {
                    lemma_drop_markers_of_unique(mv, entity_id@);
                }
                Ok(())
            },
        }
    }
}

/// A path occurs in a field registry.
pub open spec fn seq_contains_str(s: Seq<Seq<char>>, x: Seq<char>) -> bool {
    exists|i: int| 0 <= i < s.len() && s[i] == x
}

/// Metadata after one touch of a field: an existing entry keeps its
/// creation time and gets a new `last_modified`; a new entry gets both.
pub open spec fn spec_md_update(
    md: Seq<(Seq<char>, FieldMetadata)>,
    f: Seq<char>,
    now: i64,
) -> Seq<(Seq<char>, FieldMetadata)>
    decreases md.len(),
{
    if md.len() == 0 {
        seq![(f, FieldMetadata { created_at: now, last_modified: now })]
    } else if md[0].0 == f {
        seq![(f, FieldMetadata { created_at: md[0].1.created_at, last_modified: now })] + md.skip(1)
    } else {
        seq![md[0]] + spec_md_update(md.skip(1), f, now)
    }
}

pub proof fn lemma_md_update_found(md: Seq<(Seq<char>, FieldMetadata)>, f: Seq<char>, now: i64, j: int)
    requires
        0 <= j < md.len(),
        md[j].0 == f,
        forall|i: int| 0 <= i < j ==> (#[trigger] md[i]).0 != f,
    ensures
        spec_md_update(md, f, now) =~= md.update(
            j,
            (f, FieldMetadata { created_at: md[j].1.created_at, last_modified: now }),
        ),
    decreases md.len(),
{
    if j > 0 {
        lemma_md_update_found(md.skip(1), f, now, j - 1);
        assert(md.update(
            j,
            (f, FieldMetadata { created_at: md[j].1.created_at, last_modified: now }),
        ).skip(1) =~= md.skip(1).update(
            j - 1,
            (f, FieldMetadata { created_at: md[j].1.created_at, last_modified: now }),
        ));
    }
}

pub proof fn lemma_md_update_missing(md: Seq<(Seq<char>, FieldMetadata)>, f: Seq<char>, now: i64)
    requires
        forall|i: int| 0 <= i < md.len() ==> (#[trigger] md[i]).0 != f,
    ensures
        spec_md_update(md, f, now) =~= md.push(
            (f, FieldMetadata { created_at: now, last_modified: now }),
        ),
    decreases md.len(),
{
    if md.len() > 0 {
        lemma_md_update_missing(md.skip(1), f, now);
        assert(md.push((f, FieldMetadata { created_at: now, last_modified: now })).skip(1)
            =~= md.skip(1).push((f, FieldMetadata { created_at: now, last_modified: now })));
    }
}

/// The registry after one field is touched: appended if first seen, and
/// its metadata refreshed either way.
pub open spec fn spec_note_field(e: SpecEntity, f: Seq<char>, now: i64) -> SpecEntity {
    SpecEntity {
        fields: if seq_contains_str(e.fields, f) {
            e.fields
        } else {
            e.fields.push(f)
        },
        field_metadata: spec_md_update(e.field_metadata, f, now),
        ..e
    }
}

/// The registry after every field of a change list is touched, in list
/// order.
pub open spec fn spec_note_fields(e: SpecEntity, cs: Seq<SpecFieldChange>, now: i64) -> SpecEntity
    decreases cs.len(),
{
    if cs.len() == 0 {
        e
    } else {
        spec_note_field(spec_note_fields(e, cs.drop_last(), now), cs.last().field_name, now)
    }
}

pub proof fn lemma_note_fields_id(e: SpecEntity, cs: Seq<SpecFieldChange>, now: i64)
    ensures
        spec_note_fields(e, cs, now).id == e.id,
        spec_note_fields(e, cs, now).name == e.name,
        spec_note_fields(e, cs, now).color == e.color,
    decreases cs.len(),
{
    if cs.len() > 0 {
        lemma_note_fields_id(e, cs.drop_last(), now);
    }
}

fn contains_field(fields: &Vec<String>, f: &String) -> (r: bool)
    ensures
        r == seq_contains_str(crate::tree::str_seq_view(fields@), f@),
{
    let ghost fv = crate::tree::str_seq_view(fields@);
    let mut j: usize = 0;
    while j < fields.len()
        invariant
            j <= fields@.len(),
            fv == crate::tree::str_seq_view(fields@),
            forall|i: int| 0 <= i < j ==> fv[i] != f@,
        decreases fields@.len() - j,
    {
        if fields[j] == *f {
            proof {
                assert(fv[j as int] == f@);
            }
            return true;
        }
        j += 1;
    }
    false
}

fn md_update(md: &Vec<(String, FieldMetadata)>, f: &String, now: i64) -> (r: Vec<
    (String, FieldMetadata),
>)
    ensures
        metadata_view(r@) == spec_md_update(metadata_view(md@), f@, now),
{
    let ghost mdv = metadata_view(md@);
    let mut out = crate::model::clone_metadata(md);
    let mut j: usize = 0;
    while j < out.len()
        invariant
            j <= out@.len(),
            mdv == metadata_view(out@),
            mdv == metadata_view(md@),
            forall|i: int| 0 <= i < j ==> (#[trigger] mdv[i]).0 != f@,
        decreases out@.len() - j,
    {
        if out[j].0 == *f {
            proof {
                lemma_md_update_found(mdv, f@, now, j as int);
            }
            let entry = out.remove(j);
            out.insert(
                j,
                (f.clone(), FieldMetadata { created_at: entry.1.created_at, last_modified: now }),
            );
            proof {
                assert(metadata_view(out@) =~~= spec_md_update(mdv, f@, now));
            }
            return out;
        }
        j += 1;
    }
    proof {
        lemma_md_update_missing(mdv, f@, now);
    }
    out.push((f.clone(), FieldMetadata { created_at: now, last_modified: now }));
    proof {
        assert(metadata_view(out@) =~~= spec_md_update(mdv, f@, now));
    }
    out
}

fn note_field(e: &Entity, f: &String, now: i64) -> (r: Entity)
    ensures
        r@ == spec_note_field(e@, f@, now),
{
    let ghost ev = e@;
    let mut cur = e.clone();
    if !contains_field(&cur.fields, f) {
        cur.fields.push(f.clone());
        proof {
            assert(crate::tree::str_seq_view(cur.fields@) =~= ev.fields.push(f@));
        }
    }
    cur.field_metadata = md_update(&cur.field_metadata, f, now);
    cur
}

fn note_fields(e: &Entity, changes: &Vec<FieldChange>, now: i64) -> (r: Entity)
    ensures
        r@ == spec_note_fields(e@, changes_view(changes@), now),
{
    let ghost cv = changes_view(changes@);
    let ghost e0 = e@;
    let mut cur = e.clone();
    let mut i: usize = 0;
    proof {
        assert(cv.take(0) =~= Seq::<SpecFieldChange>::empty());
    }
    while i < changes.len()
        invariant
            i <= changes@.len(),
            cv == changes_view(changes@),
            cur@ == spec_note_fields(e0, cv.take(i as int), now),
        decreases changes@.len() - i,
    {
        proof {
            assert(cv.take(i + 1).drop_last() =~= cv.take(i as int));
            assert(cv.take(i + 1).last() == cv[i as int]);
        }
        cur = note_field(&cur, &changes[i].field_name, now);
        i += 1;
    }
    proof {
        assert(cv.take(changes@.len() as int) =~= cv);
    }
    cur
}

/// The registry of one entity, after all changes of a marker touched it.
pub open spec fn spec_noted_entities(
    es: Seq<SpecEntity>,
    eid: Seq<char>,
    cs: Seq<SpecFieldChange>,
    now: i64,
) -> Seq<SpecEntity> {
    let k = first_entity_idx(es, eid);
    if k >= 0 {
        es.update(k, spec_note_fields(es[k], cs, now))
    } else {
        es
    }
}

impl AppState {
    /// Binds a marker under its id: replaces the holder of the id in
    /// place, or appends when the id is new.
    pub fn put_marker(&mut self, m: Marker)
        requires
            old(self).wf(),
        ensures
            final(self).wf(),
            final(self)@.entities == old(self)@.entities,
            ({
                let j = first_marker_idx(old(self)@.markers, m@.id);
                if j >= 0 {
                    final(self)@.markers == old(self)@.markers.update(j, m@)
                } else {
                    final(self)@.markers == old(self)@.markers.push(m@)
                }
            }),
    {
        let ghost mv = markers_view(self.markers@);
        match find_marker(&self.markers, &m.id) {
            Some(j) => {
                proof {
                    lemma_first_marker_idx_props(mv, m@.id);
                }
                self.markers.remove(j);
                self.markers.insert(j, m);
                proof {
                    assert(markers_view(self.markers@) =~= mv.update(
                        first_marker_idx(mv, m@.id),
                        m@,
                    ));
                }
            },
            None => {
                proof {
                    lemma_first_marker_idx_props(mv, m@.id);
                }
                self.markers.push(m);
                proof {
                    assert(markers_view(self.markers@) =~= mv.push(m@));
                }
            },
        }
    }

    fn note_entity(&mut self, entity_id: &String, changes: &Vec<FieldChange>, now: i64)
        requires
            old(self).wf(),
        ensures
            final(self).wf(),
            final(self)@.markers == old(self)@.markers,
            final(self)@.entities == spec_noted_entities(
                old(self)@.entities,
                entity_id@,
                changes_view(changes@),
                now,
            ),
    {
        let ghost ev = entities_view(self.entities@);
        match find_entity(&self.entities, entity_id) {
            Some(k) => {
                proof {
                    lemma_first_entity_idx_props(ev, entity_id@);
                }
                let ent = self.entities.remove(k);
                let ghost entv = ent@;
                let ent = note_fields(&ent, changes, now);
                self.entities.insert(k, ent);
                proof {
                    lemma_note_fields_id(entv, changes_view(changes@), now);
                    assert(entities_view(self.entities@) =~= ev.update(
                        k as int,
                        spec_note_fields(entv, changes_view(changes@), now),
                    ));
                }
            },
            None => {},
        }
    }

    /// Inserts a marker with a fresh id at a position, and registers every
    /// field it touches with the owning entity (first-seen order, with
    /// metadata timestamps).  A marker for an unknown entity is stored all
    /// the same; replay for that entity simply fails until it exists.
    pub fn insert_marker(
        &mut self,
        position: usize,
        entity_id: String,
        changes: Vec<FieldChange>,
        visual: MarkerVisual,
        description: Option<String>,
    ) -> (m: Marker)
        requires
            old(self).wf(),
        ensures
            final(self).wf(),
            m@.position == position as int,
            m@.entity_id == entity_id@,
            m@.changes == changes_view(changes@),
            m@.visual == visual@,
            m@.description == match description {
                Some(d) => d@,
                None => Seq::<char>::empty(),
            },
            m@.created_at == m@.modified_at,
            m@.created_at >= 0,
            ({
                let j = first_marker_idx(old(self)@.markers, m@.id);
                if j >= 0 {
                    final(self)@.markers == old(self)@.markers.update(j, m@)
                } else {
                    final(self)@.markers == old(self)@.markers.push(m@)
                }
            }),
            final(self)@.entities == spec_noted_entities(
                old(self)@.entities,
                entity_id@,
                changes_view(changes@),
                m.created_at,
            ),
    {
        let now = default_timestamp();
        let id = fresh_id();
        let m = Marker {
            id,
            position,
            entity_id,
            changes,
            visual,
            description: match description {
                Some(d) => d,
                None => String::new(),
            },
            created_at: now,
            modified_at: now,
        };
        let ret = m.clone();
        self.put_marker(m);
        self.note_entity(&ret.entity_id, &ret.changes, now);
        ret
    }

    /// Partial update of a marker: each given field replaces the old one,
    /// `modified_at` is refreshed, and a new change list re-registers its
    /// fields with the marker's (possibly new) owning entity.
    pub fn update_marker(
        &mut self,
        marker_id: &String,
        position: Option<usize>,
        entity_id: Option<String>,
        changes: Option<Vec<FieldChange>>,
        visual: Option<MarkerVisual>,
        description: Option<String>,
    ) -> (r: Result<Marker, ErrorKind>)
        requires
            old(self).wf(),
        ensures
            final(self).wf(),
            ({
                let j = first_marker_idx(old(self)@.markers, marker_id@);
                match r {
                    Ok(m) => {
                        &&& j >= 0
                        &&& m@ == SpecMarker {
                            position: match position {
                                Some(p) => p as int,
                                None => old(self)@.markers[j].position,
                            },
                            entity_id: match entity_id {
                                Some(x) => x@,
                                None => old(self)@.markers[j].entity_id,
                            },
                            changes: match changes {
                                Some(cs) => changes_view(cs@),
                                None => old(self)@.markers[j].changes,
                            },
                            visual: match visual {
                                Some(v) => v@,
                                None => old(self)@.markers[j].visual,
                            },
                            description: match description {
                                Some(d) => d@,
                                None => old(self)@.markers[j].description,
                            },
                            modified_at: m.modified_at as int,
                            ..old(self)@.markers[j]
                        }
                        &&& m.modified_at >= 0
                        &&& final(self)@.markers == old(self)@.markers.update(j, m@)
                        &&& final(self)@.entities == match changes {
                            Some(cs) => spec_noted_entities(
                                old(self)@.entities,
                                m@.entity_id,
                                changes_view(cs@),
                                m.modified_at,
                            ),
                            None => old(self)@.entities,
                        }
                    },
                    Err(k) => j == -1 && k == ErrorKind::NotFound && final(self)@ == old(self)@,
                }
            }),
    {
        let ghost mv = markers_view(self.markers@);
        match find_marker(&self.markers, marker_id) {
            None => Err(ErrorKind::NotFound),
            Some(j) => {
                proof {
                    lemma_first_marker_idx_props(mv, marker_id@);
                }
                let now = default_timestamp();
                let mut mk = self.markers.remove(j);
                match position {
                    Some(p) => {
                        mk.position = p;
                    },
                    None => {},
                }
                match entity_id {
                    Some(x) => {
                        mk.entity_id = x;
                    },
                    None => {},
                }
                let had_changes = match changes {
                    Some(cs) => {
                        mk.changes = cs;
                        true
                    },
                    None => false,
                };
                match visual {
                    Some(v) => {
                        mk.visual = v;
                    },
                    None => {},
                }
                match description {
                    Some(d) => {
                        mk.description = d;
                    },
                    None => {},
                }
                mk.modified_at = now;
                let ret = mk.clone();
                self.markers.insert(j, mk);
                proof {
                    assert(markers_view(self.markers@) =~= mv.update(j as int, ret@));
                }
                if had_changes {
                    self.note_entity(&ret.entity_id, &ret.changes, now);
                }
                Ok(ret)
            },
        }
    }

    /// Deletes a marker by id.
    pub fn delete_marker(&mut self, marker_id: &String) -> (r: Result<(), ErrorKind>)
        requires
            old(self).wf(),
        ensures
            final(self).wf(),
            final(self)@.entities == old(self)@.entities,
            ({
                let j = first_marker_idx(old(self)@.markers, marker_id@);
                match r {
                    Ok(_) => j >= 0 && final(self)@.markers == old(self)@.markers.remove(j),
                    Err(k) => j == -1 && k == ErrorKind::NotFound && final(self)@ == old(self)@,
                }
            }),
    {
        let ghost mv = markers_view(self.markers@);
        match find_marker(&self.markers, marker_id) {
            None => Err(ErrorKind::NotFound),
            Some(j) => {
                proof {
                    lemma_first_marker_idx_props(mv, marker_id@);
                }
                self.markers.remove(j);
                proof {
                    assert(markers_view(self.markers@) =~= mv.remove(j as int));
                }
                Ok(())
            },
        }
    }
}

/// Views of a reposition batch.
pub open spec fn pos_updates_view(us: Seq<(String, usize)>) -> Seq<(Seq<char>, int)> {
    us.map_values(|p: (String, usize)| (p.0@, p.1 as int))
}

/// A reposition batch applied in order, each update independently and
/// unknown ids as no-ops.
pub open spec fn spec_apply_pos_updates(
    ms: Seq<SpecMarker>,
    us: Seq<(Seq<char>, int)>,
) -> Seq<SpecMarker>
    decreases us.len(),
{
    if us.len() == 0 {
        ms
    } else {
        let prev = spec_apply_pos_updates(ms, us.drop_last());
        let j = first_marker_idx(prev, us.last().0);
        if j >= 0 {
            prev.update(j, SpecMarker { position: us.last().1, ..prev[j] })
        } else {
            prev
        }
    }
}

impl AppState {
    /// Best-effort bulk repositioning after a document edit: each pair
    /// moves its marker if it exists; unknown ids are skipped.
    pub fn update_marker_positions(&mut self, position_updates: Vec<(String, usize)>)
        requires
            old(self).wf(),
        ensures
            final(self).wf(),
            final(self)@.entities == old(self)@.entities,
            final(self)@.markers == spec_apply_pos_updates(
                old(self)@.markers,
                pos_updates_view(position_updates@),
            ),
    {
        let ghost uv = pos_updates_view(position_updates@);
        let ghost m0 = markers_view(self.markers@);
        let mut i: usize = 0;
        proof {
            assert(spec_apply_pos_updates(m0, uv.take(0)) =~= m0);
        }
        while i < position_updates.len()
            invariant
                i <= position_updates@.len(),
                uv == pos_updates_view(position_updates@),
                unique_marker_ids(markers_view(self.markers@)),
                self.entities == old(self).entities,
                markers_view(self.markers@) == spec_apply_pos_updates(m0, uv.take(i as int)),
            decreases position_updates@.len() - i,
        {
            proof {
                assert(uv.take(i + 1).drop_last() =~= uv.take(i as int));
                assert(uv.take(i + 1).last() == uv[i as int]);
            }
            let ghost prev = markers_view(self.markers@);
            let upd = &position_updates[i];
            match find_marker(&self.markers, &upd.0) {
                Some(j) => {
                    proof {
                        lemma_first_marker_idx_props(prev, upd.0@);
                    }
                    let mut mk = self.markers.remove(j);
                    mk.position = upd.1;
                    self.markers.insert(j, mk);
                    proof {
                        assert(markers_view(self.markers@) =~~= prev.update(
                            j as int,
                            SpecMarker { position: uv[i as int].1, ..prev[j as int] },
                        ));
                        assert forall|a: int, b: int|
                            0 <= a < b < markers_view(self.markers@).len() implies markers_view(
                            self.markers@,
                        )[a].id != markers_view(self.markers@)[b].id by {
                            assert(markers_view(self.markers@)[a].id == prev[a].id);
                            assert(markers_view(self.markers@)[b].id == prev[b].id);
                        }
                    }
                },
                None => {},
            }
            i += 1;
        }
        proof {
            assert(uv.take(position_updates@.len() as int) =~= uv);
        }
    }
}

/// The markers anchored at exactly one position, in storage order.
pub open spec fn spec_markers_at(ms: Seq<SpecMarker>, pos: int) -> Seq<SpecMarker>
    decreases ms.len(),
{
    if ms.len() == 0 {
        Seq::empty()
    } else {
        let rest = spec_markers_at(ms.drop_last(), pos);
        if ms.last().position == pos {
            rest.push(ms.last())
        } else {
            rest
        }
    }
}

impl AppState {
    /// All entities, in insertion order.
    pub fn get_all_entities(&self) -> (r: Vec<Entity>)
        ensures
            entities_view(r@) == self@.entities,
    {
        let mut r: Vec<Entity> = Vec::new();
        let mut i: usize = 0;
        proof {
            assert(entities_view(r@) =~= entities_view(self.entities@).take(0));
        }
        while i < self.entities.len()
            invariant
                i <= self.entities@.len(),
                r@.len() == i,
                entities_view(r@) == entities_view(self.entities@).take(i as int),
            decreases self.entities@.len() - i,
        {
            r.push(self.entities[i].clone());
            proof {
                assert(entities_view(r@) =~~= entities_view(self.entities@).take(i + 1));
            }
            i += 1;
        }
        proof {
            assert(entities_view(self.entities@).take(self.entities@.len() as int)
                =~= entities_view(self.entities@));
        }
        r
    }

    /// All markers, in insertion order.
    pub fn get_all_markers(&self) -> (r: Vec<Marker>)
        ensures
            markers_view(r@) == self@.markers,
    {
        let mut r: Vec<Marker> = Vec::new();
        let mut i: usize = 0;
        proof {
            assert(markers_view(r@) =~= markers_view(self.markers@).take(0));
        }
        while i < self.markers.len()
            invariant
                i <= self.markers@.len(),
                r@.len() == i,
                markers_view(r@) == markers_view(self.markers@).take(i as int),
            decreases self.markers@.len() - i,
        {
            r.push(self.markers[i].clone());
            proof {
                assert(markers_view(r@) =~~= markers_view(self.markers@).take(i + 1));
            }
            i += 1;
        }
        proof {
            assert(markers_view(self.markers@).take(self.markers@.len() as int) =~= markers_view(
                self.markers@,
            ));
        }
        r
    }

    /// The markers at an exact position.
    pub fn get_markers_at_position(&self, position: usize) -> (r: Vec<Marker>)
        ensures
            markers_view(r@) == spec_markers_at(self@.markers, position as int),
    {
        let ghost mv = markers_view(self.markers@);
        let mut r: Vec<Marker> = Vec::new();
        let mut i: usize = 0;
        proof {
            assert(markers_view(r@) =~= spec_markers_at(mv.take(0), position as int));
        }
        while i < self.markers.len()
            invariant
                i <= self.markers@.len(),
                mv == markers_view(self.markers@),
                markers_view(r@) == spec_markers_at(mv.take(i as int), position as int),
            decreases self.markers@.len() - i,
        {
            proof {
                assert(mv.take(i + 1).drop_last() =~= mv.take(i as int));
                assert(mv.take(i + 1).last() == mv[i as int]);
            }
            if self.markers[i].position == position {
                r.push(self.markers[i].clone());
                proof {
                    assert(markers_view(r@) =~= spec_markers_at(mv.take(i + 1), position as int));
                }
            }
            i += 1;
        }
        proof {
            assert(mv.take(self.markers@.len() as int) =~= mv);
        }
        r
    }

    /// Clears everything: a new, empty document.
    pub fn new_document(&mut self)
        ensures
            final(self).wf(),
            final(self)@.entities.len() == 0,
            final(self)@.markers.len() == 0,
    {
        self.entities.clear();
        self.markers.clear();
        proof {
            assert(entities_view(self.entities@) =~= Seq::<SpecEntity>::empty());
            assert(markers_view(self.markers@) =~= Seq::<SpecMarker>::empty());
        }
    }

    /// A full in-memory checkpoint of the current state.
    pub fn snapshot(&self, content: String) -> (d: Document)
        ensures
            d@.content == content@,
            d@.entities == self@.entities,
            d@.markers == self@.markers,
    {
        Document { content, entities: self.get_all_entities(), markers: self.get_all_markers() }
    }

    /// Loading replaces the whole in-memory state with the snapshot's
    /// collections, no merge: each entity and marker is bound under its
    /// id, a later duplicate replacing an earlier one.
    pub fn install(&mut self, doc: &Document)
        ensures
            final(self).wf(),
            final(self)@.entities == spec_install_entities(doc@.entities),
            final(self)@.markers == spec_install_markers(doc@.markers),
    {
        self.entities.clear();
        self.markers.clear();
        proof {
            assert(entities_view(self.entities@) =~= Seq::<SpecEntity>::empty());
            assert(markers_view(self.markers@) =~= Seq::<SpecMarker>::empty());
            assert(spec_install_entities_from(Seq::<SpecEntity>::empty(), doc@.entities.take(0))
                =~= Seq::<SpecEntity>::empty());
            assert(spec_install_markers_from(Seq::<SpecMarker>::empty(), doc@.markers.take(0))
                =~= Seq::<SpecMarker>::empty());
        }
        let ghost dv = doc@;
        let mut i: usize = 0;
        while i < doc.entities.len()
            invariant
                i <= doc.entities@.len(),
                dv == doc@,
                self.wf(),
                markers_view(self.markers@).len() == 0,
                entities_view(self.entities@) == spec_install_entities_from(
                    Seq::<SpecEntity>::empty(),
                    dv.entities.take(i as int),
                ),
            decreases doc.entities@.len() - i,
        {
            proof {
                assert(dv.entities.take(i + 1).drop_last() =~= dv.entities.take(i as int));
                assert(dv.entities.take(i + 1).last() == dv.entities[i as int]);
            }
            self.put_entity(doc.entities[i].clone());
            i += 1;
        }
        proof {
            assert(dv.entities.take(doc.entities@.len() as int) =~= dv.entities);
        }
        let mut k: usize = 0;
        while k < doc.markers.len()
            invariant
                k <= doc.markers@.len(),
                dv == doc@,
                self.wf(),
                entities_view(self.entities@) == spec_install_entities_from(
                    Seq::<SpecEntity>::empty(),
                    dv.entities,
                ),
                markers_view(self.markers@) == spec_install_markers_from(
                    Seq::<SpecMarker>::empty(),
                    dv.markers.take(k as int),
                ),
            decreases doc.markers@.len() - k,
        {
            proof {
                assert(dv.markers.take(k + 1).drop_last() =~= dv.markers.take(k as int));
                assert(dv.markers.take(k + 1).last() == dv.markers[k as int]);
            }
            self.put_marker(doc.markers[k].clone());
            k += 1;
        }
        proof {
            assert(dv.markers.take(doc.markers@.len() as int) =~= dv.markers);
        }
    }
}

/// An entity bound under its id: replaced in place, or appended.
pub open spec fn spec_put_entity(s: Seq<SpecEntity>, e: SpecEntity) -> Seq<SpecEntity> {
    let j = first_entity_idx(s, e.id);
    if j >= 0 {
        s.update(j, e)
    } else {
        s.push(e)
    }
}

pub open spec fn spec_put_marker(s: Seq<SpecMarker>, m: SpecMarker) -> Seq<SpecMarker> {
    let j = first_marker_idx(s, m.id);
    if j >= 0 {
        s.update(j, m)
    } else {
        s.push(m)
    }
}

pub open spec fn spec_install_entities_from(
    s: Seq<SpecEntity>,
    items: Seq<SpecEntity>,
) -> Seq<SpecEntity>
    decreases items.len(),
{
    if items.len() == 0 {
        s
    } else {
        spec_put_entity(spec_install_entities_from(s, items.drop_last()), items.last())
    }
}

pub open spec fn spec_install_markers_from(
    s: Seq<SpecMarker>,
    items: Seq<SpecMarker>,
) -> Seq<SpecMarker>
    decreases items.len(),
{
    if items.len() == 0 {
        s
    } else {
        spec_put_marker(spec_install_markers_from(s, items.drop_last()), items.last())
    }
}

/// What loading a snapshot leaves in the store.
pub open spec fn spec_install_entities(items: Seq<SpecEntity>) -> Seq<SpecEntity> {
    spec_install_entities_from(Seq::empty(), items)
}

pub open spec fn spec_install_markers(items: Seq<SpecMarker>) -> Seq<SpecMarker> {
    spec_install_markers_from(Seq::empty(), items)
}

/// Saving a snapshot and loading it back reproduces the same entity and
/// marker collections, as long as the snapshot's ids are unique — which
/// `snapshot` guarantees of a well-formed store, since ids are preserved
/// verbatim.
pub proof fn lemma_install_entities_identity(items: Seq<SpecEntity>)
    requires
        unique_entity_ids(items),
    ensures
        spec_install_entities(items) == items,
    decreases items.len(),
{
    if items.len() > 0 {
        assert(forall|i: int, j: int|
            0 <= i < j < items.drop_last().len() ==> items.drop_last()[i].id
                != items.drop_last()[j].id);
        lemma_install_entities_identity(items.drop_last());
        assert(forall|i: int|
            0 <= i < items.drop_last().len() ==> (#[trigger] items.drop_last()[i]).id
                != items.last().id);
        lemma_first_entity_idx_none(items.drop_last(), items.last().id);
        assert(items.drop_last().push(items.last()) =~= items);
    } else {
        assert(spec_install_entities(items) =~= items);
    }
}

pub proof fn lemma_install_markers_identity(items: Seq<SpecMarker>)
    requires
        unique_marker_ids(items),
    ensures
        spec_install_markers(items) == items,
    decreases items.len(),
{
    if items.len() > 0 {
        assert(forall|i: int, j: int|
            0 <= i < j < items.drop_last().len() ==> items.drop_last()[i].id
                != items.drop_last()[j].id);
        lemma_install_markers_identity(items.drop_last());
        assert(forall|i: int|
            0 <= i < items.drop_last().len() ==> (#[trigger] items.drop_last()[i]).id
                != items.last().id);
        lemma_first_marker_idx_none(items.drop_last(), items.last().id);
        assert(items.drop_last().push(items.last()) =~= items);
    } else {
        assert(spec_install_markers(items) =~= items);
    }
}

/// The save/load round trip: installing a snapshot document with unique
/// ids reproduces exactly its entity and marker collections.
pub proof fn lemma_save_load_round_trip(d: SpecDocument)
    requires
        unique_entity_ids(d.entities),
        unique_marker_ids(d.markers),
    ensures
        spec_install_entities(d.entities) == d.entities,
        spec_install_markers(d.markers) == d.markers,
{
    lemma_install_entities_identity(d.entities);
    lemma_install_markers_identity(d.markers);
}

/// A field registry with every occurrence of one path dropped.
pub open spec fn spec_remove_field(fs: Seq<Seq<char>>, f: Seq<char>) -> Seq<Seq<char>>
    decreases fs.len(),
{
    if fs.len() == 0 {
        Seq::empty()
    } else {
        let rest = spec_remove_field(fs.drop_last(), f);
        if fs.last() == f {
            rest
        } else {
            rest.push(fs.last())
        }
    }
}

/// A change list with every record naming one field dropped, whatever its
/// change type.
pub open spec fn spec_purge_changes(cs: Seq<SpecFieldChange>, f: Seq<char>) -> Seq<SpecFieldChange>
    decreases cs.len(),
{
    if cs.len() == 0 {
        Seq::empty()
    } else {
        let rest = spec_purge_changes(cs.drop_last(), f);
        if cs.last().field_name == f {
            rest
        } else {
            rest.push(cs.last())
        }
    }
}

/// The marker index after a field purge: every marker of the entity loses
/// the field's records; other markers keep theirs.
pub open spec fn spec_purge_markers(
    ms: Seq<SpecMarker>,
    eid: Seq<char>,
    f: Seq<char>,
) -> Seq<SpecMarker> {
    ms.map_values(
        |m: SpecMarker|
            if m.entity_id == eid {
                SpecMarker { changes: spec_purge_changes(m.changes, f), ..m }
            } else {
                m
            },
    )
}

fn filter_fields(fs: &Vec<String>, f: &String) -> (r: Vec<String>)
    ensures
        crate::tree::str_seq_view(r@) == spec_remove_field(crate::tree::str_seq_view(fs@), f@),
{
    let ghost fv = crate::tree::str_seq_view(fs@);
    let mut r: Vec<String> = Vec::new();
    let mut i: usize = 0;
    proof {
        assert(crate::tree::str_seq_view(r@) =~= spec_remove_field(fv.take(0), f@));
    }
    while i < fs.len()
        invariant
            i <= fs@.len(),
            fv == crate::tree::str_seq_view(fs@),
            crate::tree::str_seq_view(r@) == spec_remove_field(fv.take(i as int), f@),
        decreases fs@.len() - i,
    {
        proof {
            assert(fv.take(i + 1).drop_last() =~= fv.take(i as int));
            assert(fv.take(i + 1).last() == fv[i as int]);
        }
        if !(fs[i] == *f) {
            r.push(fs[i].clone());
            proof {
                assert(crate::tree::str_seq_view(r@) =~= spec_remove_field(fv.take(i + 1), f@));
            }
        }
        i += 1;
    }
    proof {
        assert(fv.take(fs@.len() as int) =~= fv);
    }
    r
}

fn filter_changes(cs: &Vec<FieldChange>, f: &String) -> (r: Vec<FieldChange>)
    ensures
        changes_view(r@) == spec_purge_changes(changes_view(cs@), f@),
{
    let ghost cv = changes_view(cs@);
    let mut r: Vec<FieldChange> = Vec::new();
    let mut i: usize = 0;
    proof {
        assert(changes_view(r@) =~= spec_purge_changes(cv.take(0), f@));
    }
    while i < cs.len()
        invariant
            i <= cs@.len(),
            cv == changes_view(cs@),
            changes_view(r@) == spec_purge_changes(cv.take(i as int), f@),
        decreases cs@.len() - i,
    {
        proof {
            assert(cv.take(i + 1).drop_last() =~= cv.take(i as int));
            assert(cv.take(i + 1).last() == cv[i as int]);
        }
        if !(cs[i].field_name == *f) {
            r.push(cs[i].clone());
            proof {
                assert(changes_view(r@) =~= spec_purge_changes(cv.take(i + 1), f@));
            }
        }
        i += 1;
    }
    proof {
        assert(cv.take(cs@.len() as int) =~= cv);
    }
    r
}

impl AppState {
    /// Purges one field of one entity from history: the path leaves the
    /// entity's registry, and every change record naming it — SET, ADD or
    /// REMOVE alike — is stripped from every marker the entity owns.
    pub fn delete_field_completely(&mut self, entity_id: &String, field_name: &String) -> (r:
        Result<(), ErrorKind>)
        requires
            old(self).wf(),
        ensures
            final(self).wf(),
            ({
                let j = first_entity_idx(old(self)@.entities, entity_id@);
                match r {
                    Ok(_) => j >= 0 && final(self)@.entities == old(self)@.entities.update(
                        j,
                        SpecEntity {
                            fields: spec_remove_field(old(self)@.entities[j].fields, field_name@),
                            ..old(self)@.entities[j]
                        },
                    ) && final(self)@.markers == spec_purge_markers(
                        old(self)@.markers,
                        entity_id@,
                        field_name@,
                    ),
                    Err(k) => j == -1 && k == ErrorKind::NotFound && final(self)@ == old(self)@,
                }
            }),
    {
        let ghost ev = entities_view(self.entities@);
        let ghost mv = markers_view(self.markers@);
        match find_entity(&self.entities, entity_id) {
            None => Err(ErrorKind::NotFound),
            Some(j) => {
                proof {
                    lemma_first_entity_idx_props(ev, entity_id@);
                }
                let mut e = self.entities.remove(j);
                e.fields = filter_fields(&e.fields, field_name);
                self.entities.insert(j, e);
                proof {
                    assert(entities_view(self.entities@) =~~= ev.update(
                        j as int,
                        SpecEntity {
                            fields: spec_remove_field(ev[j as int].fields, field_name@),
                            ..ev[j as int]
                        },
                    ));
                }
                let ghost target = spec_purge_markers(mv, entity_id@, field_name@);
                let ghost enew = entities_view(self.entities@);
                let mut i: usize = 0;
                while i < self.markers.len()
                    invariant
                        i <= self.markers@.len(),
                        self.markers@.len() == mv.len(),
                        entities_view(self.entities@) == enew,
                        target == spec_purge_markers(mv, entity_id@, field_name@),
                        target.len() == mv.len(),
                        forall|k: int|
                            i <= k < mv.len() ==> markers_view(self.markers@)[k] == mv[k],
                        forall|k: int| 0 <= k < i ==> markers_view(self.markers@)[k] == target[k],
                    decreases self.markers@.len() - i,
                {
                    let matches_entity = self.markers[i].entity_id == *entity_id;
                    if matches_entity {
                        let mut m = self.markers.remove(i);
                        m.changes = filter_changes(&m.changes, field_name);
                        self.markers.insert(i, m);
                    }
                    i += 1;
                }
                proof {
                    assert(markers_view(self.markers@) =~= target);
                    assert forall|a: int, b: int| 0 <= a < b < target.len() implies target[a].id
                        != target[b].id by {
                        assert(target[a].id == mv[a].id);
                        assert(target[b].id == mv[b].id);
                    }
                    assert forall|a: int, b: int| 0 <= a < b < enew.len() implies enew[a].id
                        != enew[b].id by {
                        assert(enew[a].id == ev[a].id);
                        assert(enew[b].id == ev[b].id);
                    }
                }
                Ok(())
            },
        }
    }
}

} // verus!
