//! Core data model: entities, markers, change records, and the document
//! snapshot shape used for persistence.

use vstd::prelude::*;

verus! {

use vstd::string::StringExecFns;
use crate::tree::str_seq_view;

/// What can go wrong at the core's boundary: a missing entity or marker,
/// a snapshot that does not parse, a format nobody handles, or an I/O
/// failure at the persistence edge.
#[derive(Debug, Clone, Copy, PartialEq, Eq, Structural)]
pub enum ErrorKind {
    NotFound,
    InvalidFormat,
    UnsupportedFormat,
    IoFailure,
}

/// The kind of a change record: SET an absolute value, ADD a relative
/// numeric delta, or REMOVE the field.
#[derive(Debug, Clone, Copy, PartialEq, Eq, Structural)]
pub enum ChangeType {
    Absolute,
    Relative,
    Remove,
}

/// Creation and last-modification times of one field, in epoch seconds.
#[derive(Debug, Clone, Copy, PartialEq, Eq, Structural)]
pub struct FieldMetadata {
    pub created_at: i64,
    pub last_modified: i64,
}

/// One typed mutation of one dotted attribute path.
#[derive(Debug)]
pub struct FieldChange {
    pub field_name: String,
    pub change_type: ChangeType,
    pub value: String,
}

#[verifier::ext_equal]
pub struct SpecFieldChange {
    pub field_name: Seq<char>,
    pub change_type: ChangeType,
    pub value: Seq<char>,
}

impl View for FieldChange {
    type V = SpecFieldChange;

    open spec fn view(&self) -> SpecFieldChange {
        SpecFieldChange {
            field_name: self.field_name@,
            change_type: self.change_type,
            value: self.value@,
        }
    }
}

impl Clone for FieldChange {
    fn clone(&self) -> (r: Self)
        ensures
            r@ == self@,
    {
        FieldChange {
            field_name: self.field_name.clone(),
            change_type: self.change_type,
            value: self.value.clone(),
        }
    }
}

/// Icon and colour a marker is drawn with.
#[derive(Debug)]
pub struct MarkerVisual {
    pub icon: String,
    pub color: String,
}

#[verifier::ext_equal]
pub struct SpecMarkerVisual {
    pub icon: Seq<char>,
    pub color: Seq<char>,
}

impl View for MarkerVisual {
    type V = SpecMarkerVisual;

    open spec fn view(&self) -> SpecMarkerVisual {
        SpecMarkerVisual { icon: self.icon@, color: self.color@ }
    }
}

impl Clone for MarkerVisual {
    fn clone(&self) -> (r: Self)
        ensures
            r@ == self@,
    {
        MarkerVisual { icon: self.icon.clone(), color: self.color.clone() }
    }
}

/// A tracked character or object: a name, a colour, and the registry of
/// attribute paths its markers have touched, in first-seen order.
#[derive(Debug)]
pub struct Entity {
    pub id: String,
    pub name: String,
    pub fields: Vec<String>,
    pub color: String,
    pub field_metadata: Vec<(String, FieldMetadata)>,
}

#[verifier::ext_equal]
pub struct SpecEntity {
    pub id: Seq<char>,
    pub name: Seq<char>,
    pub fields: Seq<Seq<char>>,
    pub color: Seq<char>,
    pub field_metadata: Seq<(Seq<char>, FieldMetadata)>,
}

pub open spec fn metadata_view(s: Seq<(String, FieldMetadata)>) -> Seq<(Seq<char>, FieldMetadata)> {
    s.map_values(|p: (String, FieldMetadata)| (p.0@, p.1))
}

impl View for Entity {
    type V = SpecEntity;

    open spec fn view(&self) -> SpecEntity {
        SpecEntity {
            id: self.id@,
            name: self.name@,
            fields: str_seq_view(self.fields@),
            color: self.color@,
            field_metadata: metadata_view(self.field_metadata@),
        }
    }
}

/// A state-change event anchored at a document position, carrying the
/// change records for one entity.
#[derive(Debug)]
pub struct Marker {
    pub id: String,
    pub position: usize,
    pub entity_id: String,
    pub changes: Vec<FieldChange>,
    pub visual: MarkerVisual,
    pub description: String,
    pub created_at: i64,
    pub modified_at: i64,
}

#[verifier::ext_equal]
pub struct SpecMarker {
    pub id: Seq<char>,
    pub position: int,
    pub entity_id: Seq<char>,
    pub changes: Seq<SpecFieldChange>,
    pub visual: SpecMarkerVisual,
    pub description: Seq<char>,
    pub created_at: int,
    pub modified_at: int,
}

pub open spec fn changes_view(s: Seq<FieldChange>) -> Seq<SpecFieldChange> {
    s.map_values(|c: FieldChange| c@)
}

impl View for Marker {
    type V = SpecMarker;

    open spec fn view(&self) -> SpecMarker {
        SpecMarker {
            id: self.id@,
            position: self.position as int,
            entity_id: self.entity_id@,
            changes: changes_view(self.changes@),
            visual: self.visual@,
            description: self.description@,
            created_at: self.created_at as int,
            modified_at: self.modified_at as int,
        }
    }
}

/// The complete saved state: document text plus every entity and marker.
#[derive(Debug)]
pub struct Document {
    pub content: String,
    pub entities: Vec<Entity>,
    pub markers: Vec<Marker>,
}

#[verifier::ext_equal]
pub struct SpecDocument {
    pub content: Seq<char>,
    pub entities: Seq<SpecEntity>,
    pub markers: Seq<SpecMarker>,
}

pub open spec fn entities_view(s: Seq<Entity>) -> Seq<SpecEntity> {
    s.map_values(|e: Entity| e@)
}

pub open spec fn markers_view(s: Seq<Marker>) -> Seq<SpecMarker> {
    s.map_values(|m: Marker| m@)
}

impl View for Document {
    type V = SpecDocument;

    open spec fn view(&self) -> SpecDocument {
        SpecDocument {
            content: self.content@,
            entities: entities_view(self.entities@),
            markers: markers_view(self.markers@),
        }
    }
}

pub fn clone_string_vec(v: &Vec<String>) -> (r: Vec<String>)
    ensures
        r@ == v@,
{
    let mut r: Vec<String> = Vec::new();
    let mut i: usize = 0;
    while i < v.len()
        invariant
            i <= v@.len(),
            r@ == v@.subrange(0, i as int),
        decreases v@.len() - i,
    {
        r.push(v[i].clone());
        proof {
            assert(r@ =~= v@.subrange(0, i + 1));
        }
        i += 1;
    }
    proof {
        assert(v@.subrange(0, v@.len() as int) =~= v@);
    }
    r
}

pub fn clone_changes(v: &Vec<FieldChange>) -> (r: Vec<FieldChange>)
    ensures
        changes_view(r@) == changes_view(v@),
        r@.len() == v@.len(),
{
    let mut r: Vec<FieldChange> = Vec::new();
    let mut i: usize = 0;
    while i < v.len()
        invariant
            i <= v@.len(),
            r@.len() == i,
            changes_view(r@) == changes_view(v@).subrange(0, i as int),
        decreases v@.len() - i,
    {
        r.push(v[i].clone());
        proof {
            assert(changes_view(r@) =~= changes_view(v@).subrange(0, i + 1));
        }
        i += 1;
    }
    proof {
        assert(changes_view(v@).subrange(0, v@.len() as int) =~= changes_view(v@));
    }
    r
}

pub fn clone_metadata(v: &Vec<(String, FieldMetadata)>) -> (r: Vec<(String, FieldMetadata)>)
    ensures
        metadata_view(r@) == metadata_view(v@),
        r@.len() == v@.len(),
{
    let mut r: Vec<(String, FieldMetadata)> = Vec::new();
    let mut i: usize = 0;
    while i < v.len()
        invariant
            i <= v@.len(),
            r@.len() == i,
            metadata_view(r@) == metadata_view(v@).subrange(0, i as int),
        decreases v@.len() - i,
    {
        let p = &v[i];
        r.push((p.0.clone(), p.1));
        proof {
            assert(metadata_view(r@) =~= metadata_view(v@).subrange(0, i + 1));
        }
        i += 1;
    }
    proof {
        assert(metadata_view(v@).subrange(0, v@.len() as int) =~= metadata_view(v@));
    }
    r
}

impl Clone for Entity {
    fn clone(&self) -> (r: Self)
        ensures
            r@ == self@,
    {
        Entity {
            id: self.id.clone(),
            name: self.name.clone(),
            fields: clone_string_vec(&self.fields),
            color: self.color.clone(),
            field_metadata: clone_metadata(&self.field_metadata),
        }
    }
}

impl Clone for Marker {
    fn clone(&self) -> (r: Self)
        ensures
            r@ == self@,
    {
        Marker {
            id: self.id.clone(),
            position: self.position,
            entity_id: self.entity_id.clone(),
            changes: clone_changes(&self.changes),
            visual: self.visual.clone(),
            description: self.description.clone(),
            created_at: self.created_at,
            modified_at: self.modified_at,
        }
    }
}

/// Gold, the colour a new entity is given when none is chosen.
pub fn default_entity_color() -> (r: String)
    ensures
        r@ == "#FFD700"@,
{
    String::from_str("#FFD700")
}

/// Relies on `std::time::SystemTime::now`: the wall clock read as seconds
/// since the Unix epoch (zero if the clock reads earlier than the epoch).
#[verifier::external_body]
pub fn default_timestamp() -> (r: i64)
    ensures
        r >= 0,
{
    std::time::SystemTime::now()
        .duration_since(std::time::UNIX_EPOCH)
        .map(|d| d.as_secs() as i64)
        .unwrap_or(0)
}

/// Relies on `uuid::Uuid::new_v4` and its `Display` impl: a random
/// version-4 UUID rendered in the hyphenated form, which is always 36
/// characters long.  Nothing else can be promised of a random identifier.
#[verifier::external_body]
pub fn fresh_id() -> (r: String)
    ensures
        r@.len() == 36,
{
    uuid::Uuid::new_v4().to_string()
}

} // verus!
