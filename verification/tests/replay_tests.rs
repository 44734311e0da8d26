use questscribe::sheet::render_sheet;
use questscribe::tree::split_path;
use questscribe::AppState;
use questscribe::ChangeType;
use questscribe::FieldChange;
use questscribe::MarkerVisual;
use questscribe::Node;
use questscribe::Value;

fn visual() -> MarkerVisual {
    MarkerVisual { icon: "*".to_string(), color: "#FFD700".to_string() }
}

fn change(field: &str, kind: ChangeType, value: &str) -> FieldChange {
    FieldChange {
        field_name: field.to_string(),
        change_type: kind,
        value: value.to_string(),
    }
}

fn sheet_of(t: &Node) -> String {
    let mut s = String::new();
    render_sheet(t, &mut s);
    s
}

#[test]
fn add_accumulation() {
    let mut st = AppState::new();
    let e1 = st.create_entity("Hero".to_string(), None);
    st.insert_marker(
        5,
        e1.id.clone(),
        vec![change("stats.HP", ChangeType::Relative, "10")],
        visual(),
        None,
    );
    st.insert_marker(
        10,
        e1.id.clone(),
        vec![change("stats.HP", ChangeType::Relative, "5")],
        visual(),
        None,
    );
    let at7 = st.get_entity_state(&e1.id, 7).unwrap();
    assert_eq!(at7.num_at(&split_path("stats.HP")), 10);
    let at10 = st.get_entity_state(&e1.id, 10).unwrap();
    assert_eq!(at10.num_at(&split_path("stats.HP")), 15);
}

#[test]
fn reconstruction_is_deterministic() {
    let mut st = AppState::new();
    let e = st.create_entity("Hero".to_string(), None);
    st.insert_marker(
        3,
        e.id.clone(),
        vec![
            change("Level", ChangeType::Absolute, "5"),
            change("stats.HP", ChangeType::Relative, "12"),
            change("Name", ChangeType::Absolute, "Alia"),
        ],
        visual(),
        None,
    );
    let a = st.get_entity_state(&e.id, 100).unwrap();
    let b = st.get_entity_state(&e.id, 100).unwrap();
    assert_eq!(sheet_of(&a), sheet_of(&b));
}

#[test]
fn monotonic_replay_keeps_earlier_sets() {
    let mut st = AppState::new();
    let e = st.create_entity("Hero".to_string(), None);
    st.insert_marker(
        2,
        e.id.clone(),
        vec![change("Level", ChangeType::Absolute, "3")],
        visual(),
        None,
    );
    st.insert_marker(
        9,
        e.id.clone(),
        vec![change("Gold", ChangeType::Absolute, "40")],
        visual(),
        None,
    );
    let later = st.get_entity_state(&e.id, 9).unwrap();
    assert_eq!(later.num_at(&split_path("Level")), 3);
    assert_eq!(later.num_at(&split_path("Gold")), 40);
}

#[test]
fn set_twice_and_remove_absent() {
    let mut st = AppState::new();
    let e = st.create_entity("Hero".to_string(), None);
    st.insert_marker(
        1,
        e.id.clone(),
        vec![
            change("Level", ChangeType::Absolute, "5"),
            change("Level", ChangeType::Absolute, "5"),
            change("Ghost", ChangeType::Remove, ""),
        ],
        visual(),
        None,
    );
    let once = {
        let mut st2 = AppState::new();
        let e2 = st2.create_entity("Hero".to_string(), None);
        st2.insert_marker(
            1,
            e2.id.clone(),
            vec![change("Level", ChangeType::Absolute, "5")],
            visual(),
            None,
        );
        sheet_of(&st2.get_entity_state(&e2.id, 1).unwrap())
    };
    let twice = sheet_of(&st.get_entity_state(&e.id, 1).unwrap());
    assert_eq!(once, twice);
}

#[test]
fn nested_path_round_trip() {
    let mut st = AppState::new();
    let e = st.create_entity("Mage".to_string(), None);
    st.insert_marker(
        4,
        e.id.clone(),
        vec![change("spells.fire.Firebolt", ChangeType::Absolute, "learned")],
        visual(),
        None,
    );
    let t = st.get_entity_state(&e.id, 4).unwrap();
    let segs = split_path("spells.fire.Firebolt");
    match t.get_path(&segs, 0) {
        Some(Node::Leaf(Value::Text(s))) => assert_eq!(s, "learned"),
        other => panic!("unexpected node: {:?}", other),
    }
    // Removing the leaf leaves its parent behind as an empty object.
    st.insert_marker(
        5,
        e.id.clone(),
        vec![change("spells.fire.Firebolt", ChangeType::Remove, "")],
        visual(),
        None,
    );
    let t2 = st.get_entity_state(&e.id, 5).unwrap();
    assert!(t2.get_path(&segs, 0).is_none());
    match t2.get_path(&split_path("spells.fire"), 0) {
        Some(Node::Obj(entries)) => assert!(entries.is_empty()),
        other => panic!("parent should stay as an empty object: {:?}", other),
    }
}

#[test]
fn add_on_text_falls_back_and_missing_counts_as_zero() {
    let mut st = AppState::new();
    let e = st.create_entity("Hero".to_string(), None);
    st.insert_marker(
        1,
        e.id.clone(),
        vec![
            change("Missing", ChangeType::Relative, "4"),
            change("Motto", ChangeType::Absolute, "onward"),
            change("Motto", ChangeType::Relative, "really onward"),
        ],
        visual(),
        None,
    );
    let t = st.get_entity_state(&e.id, 1).unwrap();
    assert_eq!(t.num_at(&split_path("Missing")), 4);
    match t.get_path(&split_path("Motto"), 0) {
        Some(Node::Leaf(Value::Text(s))) => assert_eq!(s, "really onward"),
        other => panic!("unexpected node: {:?}", other),
    }
}

#[test]
fn equal_positions_replay_in_insertion_order() {
    let mut st = AppState::new();
    let e = st.create_entity("Hero".to_string(), None);
    st.insert_marker(
        6,
        e.id.clone(),
        vec![change("Level", ChangeType::Absolute, "1")],
        visual(),
        None,
    );
    st.insert_marker(
        6,
        e.id.clone(),
        vec![change("Level", ChangeType::Absolute, "2")],
        visual(),
        None,
    );
    let t = st.get_entity_state(&e.id, 6).unwrap();
    assert_eq!(t.num_at(&split_path("Level")), 2);
}

#[test]
fn reconstruct_unknown_entity_fails() {
    let st = AppState::new();
    let missing = "nobody".to_string();
    assert!(st.get_entity_state(&missing, 5).is_err());
}

#[test]
fn set_through_scalar_is_a_no_op() {
    let mut st = AppState::new();
    let e = st.create_entity("Hero".to_string(), None);
    st.insert_marker(
        1,
        e.id.clone(),
        vec![
            change("stats", ChangeType::Absolute, "7"),
            change("stats.HP", ChangeType::Absolute, "50"),
        ],
        visual(),
        None,
    );
    let t = st.get_entity_state(&e.id, 1).unwrap();
    assert_eq!(t.num_at(&split_path("stats")), 7);
    assert!(t.get_path(&split_path("stats.HP"), 0).is_none());
}
