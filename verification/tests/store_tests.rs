use questscribe::sheet::render_sheet;
use questscribe::tree::split_path;
use questscribe::AppState;
use questscribe::ChangeType;
use questscribe::ErrorKind;
use questscribe::FieldChange;
use questscribe::MarkerVisual;

fn visual() -> MarkerVisual {
    MarkerVisual { icon: "*".to_string(), color: "#00FF00".to_string() }
}

fn change(field: &str, kind: ChangeType, value: &str) -> FieldChange {
    FieldChange {
        field_name: field.to_string(),
        change_type: kind,
        value: value.to_string(),
    }
}

#[test]
fn create_entity_defaults() {
    let mut st = AppState::new();
    let e = st.create_entity("Hero".to_string(), None);
    assert_eq!(e.name, "Hero");
    assert_eq!(e.color, "#FFD700");
    assert!(e.fields.is_empty());
    assert_eq!(e.id.chars().count(), 36);
    let e2 = st.create_entity("Villain".to_string(), Some("#112233".to_string()));
    assert_eq!(e2.color, "#112233");
    assert_ne!(e.id, e2.id);
    assert_eq!(st.get_all_entities().len(), 2);
}

#[test]
fn update_entity_recolors_markers() {
    let mut st = AppState::new();
    let e = st.create_entity("Hero".to_string(), None);
    let other = st.create_entity("Other".to_string(), None);
    st.insert_marker(3, e.id.clone(), vec![], visual(), None);
    st.insert_marker(4, other.id.clone(), vec![], visual(), None);
    let updated = st
        .update_entity(&e.id, Some("Heroine".to_string()), Some("#ABCDEF".to_string()))
        .unwrap();
    assert_eq!(updated.name, "Heroine");
    assert_eq!(updated.color, "#ABCDEF");
    for m in st.get_all_markers() {
        if m.entity_id == e.id {
            assert_eq!(m.visual.color, "#ABCDEF");
        } else {
            assert_eq!(m.visual.color, "#00FF00");
        }
    }
    let missing = "missing".to_string();
    assert_eq!(st.update_entity(&missing, None, None).unwrap_err(), ErrorKind::NotFound);
}

#[test]
fn delete_entity_cascades_markers() {
    let mut st = AppState::new();
    let e = st.create_entity("Hero".to_string(), None);
    let keep = st.create_entity("Keep".to_string(), None);
    st.insert_marker(1, e.id.clone(), vec![], visual(), None);
    st.insert_marker(2, keep.id.clone(), vec![], visual(), None);
    st.delete_entity(&e.id).unwrap();
    assert_eq!(st.get_all_entities().len(), 1);
    let markers = st.get_all_markers();
    assert_eq!(markers.len(), 1);
    assert_eq!(markers[0].entity_id, keep.id);
    assert_eq!(st.delete_entity(&e.id).unwrap_err(), ErrorKind::NotFound);
}

#[test]
fn insert_marker_registers_fields() {
    let mut st = AppState::new();
    let e = st.create_entity("Hero".to_string(), None);
    st.insert_marker(
        1,
        e.id.clone(),
        vec![
            change("Level", ChangeType::Absolute, "1"),
            change("stats.HP", ChangeType::Relative, "10"),
            change("Level", ChangeType::Absolute, "2"),
        ],
        visual(),
        Some("born".to_string()),
    );
    let entities = st.get_all_entities();
    assert_eq!(entities[0].fields, vec!["Level".to_string(), "stats.HP".to_string()]);
    assert_eq!(entities[0].field_metadata.len(), 2);
    let m = &st.get_all_markers()[0];
    assert_eq!(m.description, "born");
    assert_eq!(m.created_at, m.modified_at);
    assert!(m.created_at >= 0);
    assert_eq!(m.id.chars().count(), 36);
}

#[test]
fn update_marker_partial_fields() {
    let mut st = AppState::new();
    let e = st.create_entity("Hero".to_string(), None);
    let m = st.insert_marker(
        1,
        e.id.clone(),
        vec![change("Level", ChangeType::Absolute, "1")],
        visual(),
        None,
    );
    let updated = st
        .update_marker(
            &m.id,
            Some(9),
            None,
            Some(vec![change("Gold", ChangeType::Absolute, "5")]),
            None,
            Some("moved".to_string()),
        )
        .unwrap();
    assert_eq!(updated.position, 9);
    assert_eq!(updated.entity_id, e.id);
    assert_eq!(updated.changes.len(), 1);
    assert_eq!(updated.changes[0].field_name, "Gold");
    assert_eq!(updated.description, "moved");
    // The new change list registered its field with the entity.
    let fields = &st.get_all_entities()[0].fields;
    assert!(fields.contains(&"Gold".to_string()));
    let missing = "missing".to_string();
    assert_eq!(
        st.update_marker(&missing, None, None, None, None, None).unwrap_err(),
        ErrorKind::NotFound
    );
}

#[test]
fn delete_marker_and_positions() {
    let mut st = AppState::new();
    let e = st.create_entity("Hero".to_string(), None);
    let m1 = st.insert_marker(1, e.id.clone(), vec![], visual(), None);
    let m2 = st.insert_marker(2, e.id.clone(), vec![], visual(), None);
    st.update_marker_positions(vec![
        (m1.id.clone(), 7),
        ("unknown-id".to_string(), 3),
    ]);
    let at7 = st.get_markers_at_position(7);
    assert_eq!(at7.len(), 1);
    assert_eq!(at7[0].id, m1.id);
    st.delete_marker(&m1.id).unwrap();
    assert_eq!(st.get_all_markers().len(), 1);
    assert_eq!(st.delete_marker(&m1.id).unwrap_err(), ErrorKind::NotFound);
    assert_eq!(st.get_all_markers()[0].id, m2.id);
}

#[test]
fn field_purge_cascade() {
    let mut st = AppState::new();
    let e = st.create_entity("Hero".to_string(), None);
    st.insert_marker(
        1,
        e.id.clone(),
        vec![
            change("Level", ChangeType::Absolute, "5"),
            change("Gold", ChangeType::Absolute, "10"),
        ],
        visual(),
        None,
    );
    st.insert_marker(
        4,
        e.id.clone(),
        vec![change("Level", ChangeType::Remove, "")],
        visual(),
        None,
    );
    st.insert_marker(
        6,
        e.id.clone(),
        vec![change("Level", ChangeType::Absolute, "9")],
        visual(),
        None,
    );
    st.delete_field_completely(&e.id, &"Level".to_string()).unwrap();
    // No marker of the entity retains any record naming the field.
    for m in st.get_all_markers() {
        for c in &m.changes {
            assert_ne!(c.field_name, "Level");
        }
    }
    // The registry no longer lists it.
    assert_eq!(st.get_all_entities()[0].fields, vec!["Gold".to_string()]);
    // And no reconstruction at any position contains it.
    for pos in [0usize, 1, 4, 6, 100] {
        let t = st.get_entity_state(&e.id, pos).unwrap();
        assert!(t.get_path(&split_path("Level"), 0).is_none());
    }
    let missing = "missing".to_string();
    assert_eq!(
        st.delete_field_completely(&missing, &"Level".to_string()).unwrap_err(),
        ErrorKind::NotFound
    );
}

#[test]
fn duplication_snapshot_fidelity() {
    let mut st = AppState::new();
    let e = st.create_entity("Hero".to_string(), Some("#123456".to_string()));
    st.insert_marker(
        2,
        e.id.clone(),
        vec![
            change("Level", ChangeType::Absolute, "5"),
            change("stats.HP", ChangeType::Relative, "30"),
            change("Motto", ChangeType::Absolute, "onward"),
            change("Brave", ChangeType::Absolute, "true"),
        ],
        visual(),
        None,
    );
    st.insert_marker(
        7,
        e.id.clone(),
        vec![change("stats.HP", ChangeType::Relative, "-8")],
        visual(),
        None,
    );
    let (copy, marker) = st.duplicate_entity(&e.id, "Hero II".to_string(), 8).unwrap();
    let marker = marker.expect("a non-empty state bakes a marker");
    assert_eq!(marker.position, 8);
    assert_eq!(marker.entity_id, copy.id);
    assert_eq!(marker.visual.color, "#123456");
    assert_eq!(marker.description, "Duplicated from Hero");
    assert_eq!(copy.name, "Hero II");
    assert_eq!(copy.color, "#123456");
    assert_eq!(copy.fields, st.get_all_entities()[0].fields);
    let original = st.get_entity_state(&e.id, 8).unwrap();
    let duplicated = st.get_entity_state(&copy.id, 8).unwrap();
    let mut a = String::new();
    let mut b = String::new();
    render_sheet(&original, &mut a);
    render_sheet(&duplicated, &mut b);
    assert_eq!(a, b);
}

#[test]
fn duplication_of_empty_state_bakes_no_marker() {
    let mut st = AppState::new();
    let e = st.create_entity("Hero".to_string(), None);
    let (copy, marker) = st.duplicate_entity(&e.id, "Hero II".to_string(), 5).unwrap();
    assert!(marker.is_none());
    assert_eq!(copy.name, "Hero II");
    assert_eq!(st.get_all_markers().len(), 0);
    let missing = "missing".to_string();
    assert!(st.duplicate_entity(&missing, "X".to_string(), 0).is_err());
}

#[test]
fn save_load_round_trip() {
    let mut st = AppState::new();
    let e = st.create_entity("Hero".to_string(), None);
    st.insert_marker(
        3,
        e.id.clone(),
        vec![change("Level", ChangeType::Absolute, "2")],
        visual(),
        Some("level up".to_string()),
    );
    let doc = st.snapshot("Once upon a time".to_string());
    let mut st2 = AppState::new();
    st2.install(&doc);
    let doc2 = st2.snapshot("Once upon a time".to_string());
    assert_eq!(doc.content, doc2.content);
    assert_eq!(doc.entities.len(), doc2.entities.len());
    for (a, b) in doc.entities.iter().zip(doc2.entities.iter()) {
        assert_eq!(a.id, b.id);
        assert_eq!(a.name, b.name);
        assert_eq!(a.color, b.color);
        assert_eq!(a.fields, b.fields);
    }
    assert_eq!(doc.markers.len(), doc2.markers.len());
    for (a, b) in doc.markers.iter().zip(doc2.markers.iter()) {
        assert_eq!(a.id, b.id);
        assert_eq!(a.position, b.position);
        assert_eq!(a.entity_id, b.entity_id);
        assert_eq!(a.description, b.description);
        assert_eq!(a.changes.len(), b.changes.len());
        for (ca, cb) in a.changes.iter().zip(b.changes.iter()) {
            assert_eq!(ca.field_name, cb.field_name);
            assert_eq!(ca.value, cb.value);
        }
    }
}

#[test]
fn new_document_clears_everything() {
    let mut st = AppState::new();
    let e = st.create_entity("Hero".to_string(), None);
    st.insert_marker(1, e.id.clone(), vec![], visual(), None);
    st.new_document();
    assert!(st.get_all_entities().is_empty());
    assert!(st.get_all_markers().is_empty());
}
