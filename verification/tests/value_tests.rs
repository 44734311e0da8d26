use questscribe::value::coerce_value;
use questscribe::value::int_to_string;
use questscribe::value::render_value;
use questscribe::value::sat_add_i64;
use questscribe::Value;

#[test]
fn coerce_plain_number() {
    assert!(matches!(coerce_value("42"), Value::Num(42)));
}

#[test]
fn coerce_negative_number() {
    assert!(matches!(coerce_value("-7"), Value::Num(-7)));
}

#[test]
fn coerce_leading_zeros() {
    assert!(matches!(coerce_value("007"), Value::Num(7)));
    assert!(matches!(coerce_value("-0"), Value::Num(0)));
    assert!(matches!(coerce_value("0000000000000000000000001"), Value::Num(1)));
}

#[test]
fn coerce_booleans() {
    assert!(matches!(coerce_value("true"), Value::Bool(true)));
    assert!(matches!(coerce_value("false"), Value::Bool(false)));
}

#[test]
fn coerce_text_fallbacks() {
    assert!(matches!(coerce_value(""), Value::Text(_)));
    assert!(matches!(coerce_value("hello"), Value::Text(_)));
    assert!(matches!(coerce_value("1.5"), Value::Text(_)));
    assert!(matches!(coerce_value("True"), Value::Text(_)));
    assert!(matches!(coerce_value("-"), Value::Text(_)));
    assert!(matches!(coerce_value("12a"), Value::Text(_)));
    assert!(matches!(coerce_value(" 5"), Value::Text(_)));
}

#[test]
fn coerce_i64_bounds() {
    assert!(matches!(coerce_value("9223372036854775807"), Value::Num(i64::MAX)));
    assert!(matches!(coerce_value("-9223372036854775808"), Value::Num(i64::MIN)));
    assert!(matches!(coerce_value("9223372036854775808"), Value::Text(_)));
    assert!(matches!(coerce_value("-9223372036854775809"), Value::Text(_)));
    assert!(matches!(coerce_value("99999999999999999999999"), Value::Text(_)));
}

#[test]
fn int_to_string_exact() {
    assert_eq!(int_to_string(0), "0");
    assert_eq!(int_to_string(907), "907");
    assert_eq!(int_to_string(-35), "-35");
    assert_eq!(int_to_string(i64::MIN), "-9223372036854775808");
    assert_eq!(int_to_string(i64::MAX), "9223372036854775807");
}

#[test]
fn render_round_trips() {
    let n = render_value(&Value::Num(-12));
    assert!(matches!(coerce_value(&n), Value::Num(-12)));
    let b = render_value(&Value::Bool(true));
    assert!(matches!(coerce_value(&b), Value::Bool(true)));
    let t = render_value(&Value::Text("sword".to_string()));
    assert_eq!(t, "sword");
}

#[test]
fn saturating_addition() {
    assert_eq!(sat_add_i64(2, 3), 5);
    assert_eq!(sat_add_i64(i64::MAX, 1), i64::MAX);
    assert_eq!(sat_add_i64(i64::MIN, -1), i64::MIN);
    assert_eq!(sat_add_i64(-2, 7), 5);
}
