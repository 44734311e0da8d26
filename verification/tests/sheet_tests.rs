use questscribe::AppState;
use questscribe::ChangeType;
use questscribe::FieldChange;
use questscribe::MarkerVisual;

fn visual() -> MarkerVisual {
    MarkerVisual { icon: "*".to_string(), color: "#FFD700".to_string() }
}

fn change(field: &str, kind: ChangeType, value: &str) -> FieldChange {
    FieldChange {
        field_name: field.to_string(),
        change_type: kind,
        value: value.to_string(),
    }
}

#[test]
fn sheet_exact_layout() {
    let mut st = AppState::new();
    let e = st.create_entity("Hero".to_string(), None);
    st.insert_marker(
        1,
        e.id.clone(),
        vec![
            change("Level", ChangeType::Absolute, "5"),
            change("stats.HP", ChangeType::Absolute, "30"),
            change("stats.MP", ChangeType::Absolute, "12"),
            change("Motto", ChangeType::Absolute, "onward"),
            change("Brave", ChangeType::Absolute, "true"),
        ],
        visual(),
        None,
    );
    let sheet = st.format_character_sheet(&e.id, 1).unwrap();
    let expected = "=== Hero ===\n\
                    Level: 5\n\
                    stats\n  HP: 30\n  MP: 12\n\
                    Motto: \"onward\"\n\
                    Brave: true";
    assert_eq!(sheet, expected);
}

#[test]
fn sheet_escapes_text() {
    let mut st = AppState::new();
    let e = st.create_entity("Hero".to_string(), None);
    st.insert_marker(
        1,
        e.id.clone(),
        vec![change("Quote", ChangeType::Absolute, "say \"hi\" \\ bye")],
        visual(),
        None,
    );
    let sheet = st.format_character_sheet(&e.id, 1).unwrap();
    assert_eq!(sheet, "=== Hero ===\nQuote: \"say \\\"hi\\\" \\\\ bye\"");
}

#[test]
fn sheet_for_unknown_entity_fails() {
    let st = AppState::new();
    let missing = "nobody".to_string();
    assert!(st.format_character_sheet(&missing, 0).is_err());
}

#[test]
fn sheet_of_empty_state_is_just_the_banner() {
    let mut st = AppState::new();
    let e = st.create_entity("Hero".to_string(), None);
    let sheet = st.format_character_sheet(&e.id, 0).unwrap();
    assert_eq!(sheet, "=== Hero ===\n");
}
