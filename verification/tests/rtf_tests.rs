use questscribe::rtf::extract_text_from_rtf;

#[test]
fn plain_text_passes_through() {
    assert_eq!(extract_text_from_rtf("Hello world"), "Hello world");
}

#[test]
fn control_words_and_groups_are_stripped() {
    assert_eq!(extract_text_from_rtf("{\\b Bold}"), "Bold");
    assert_eq!(extract_text_from_rtf("{{{deep}}}ok"), "ok");
}

#[test]
fn escaped_braces_and_backslashes_survive() {
    assert_eq!(extract_text_from_rtf("\\{real\\}"), "{real}");
    assert_eq!(extract_text_from_rtf("a\\\\b"), "a\\b");
}

#[test]
fn delimiter_space_is_consumed_and_result_trimmed() {
    assert_eq!(extract_text_from_rtf("  spaced  "), "spaced");
    assert_eq!(extract_text_from_rtf("{\\i Tilted} text"), "Tilted text");
}
