use rustdash::objects::{keys, merge, omit, pick, values};
use rustdash::value::{key_less, put, Number, Value};

fn num(n: i64) -> Value {
    Value::integer(n)
}

fn record(entries: Vec<(&str, Value)>) -> Value {
    Value::object(entries.into_iter().map(|(k, v)| (k.to_string(), v)).collect())
}

#[test]
fn test_integer_kinds() {
    assert_eq!(Number::from_i64(0), Number::PosInt(0));
    assert_eq!(Number::from_i64(42), Number::PosInt(42));
    assert_eq!(Number::from_i64(-1), Number::NegInt(-1));
    assert_eq!(Number::from_i64(i64::MIN), Number::NegInt(i64::MIN));
    assert_eq!(Number::from_i64(i64::MAX), Number::PosInt(i64::MAX as u64));
    assert_eq!(Value::integer(-7), Value::Number(Number::NegInt(-7)));
}

#[test]
fn test_text_and_array_builders() {
    assert_eq!(Value::text("hi"), Value::String("hi".to_string()));
    assert_eq!(
        Value::array(vec![num(1), Value::Null]),
        Value::Array(vec![num(1), Value::Null])
    );
}

#[test]
fn test_object_entries_are_ordered_by_key() {
    let built = record(vec![("b", num(2)), ("c", num(3)), ("a", num(1))]);
    assert_eq!(
        built,
        Value::Object(vec![
            ("a".to_string(), num(1)),
            ("b".to_string(), num(2)),
            ("c".to_string(), num(3)),
        ])
    );
    assert_eq!(built, record(vec![("a", num(1)), ("b", num(2)), ("c", num(3))]));
}

#[test]
fn test_object_last_entry_of_a_key_counts() {
    let built = record(vec![("a", num(1)), ("b", num(2)), ("a", num(3))]);
    assert_eq!(built, record(vec![("a", num(3)), ("b", num(2))]));
}

#[test]
fn test_key_order() {
    let less = |a: &str, b: &str| key_less(&a.to_string(), &b.to_string());
    assert!(less("a", "b"));
    assert!(!less("b", "a"));
    assert!(!less("a", "a"));
    assert!(less("", "a"));
    assert!(!less("a", ""));
    assert!(!less("", ""));
    assert!(less("a", "ab"));
    assert!(!less("ab", "a"));
    assert!(less("Z", "a"));
    assert!(less("ab", "b"));
    assert!(less("z", "é"));
    assert!(less("é", "\u{10000}"));
    assert!(less("\u{ffff}", "\u{10000}"));
}

#[test]
fn test_key_order_is_that_of_strings() {
    let samples = ["", "a", "A", "ab", "b", "é", "z", "\u{ffff}", "\u{10000}", "10", "9"];
    for a in samples {
        for b in samples {
            assert_eq!(key_less(&a.to_string(), &b.to_string()), a < b, "{a:?} {b:?}");
        }
    }
}

#[test]
fn test_put_inserts_in_place_and_replaces() {
    let mut entries: Vec<(String, Value)> = vec![];
    put(&mut entries, "m".to_string(), num(1));
    put(&mut entries, "a".to_string(), num(2));
    put(&mut entries, "z".to_string(), num(3));
    put(&mut entries, "m".to_string(), num(4));
    assert_eq!(
        entries,
        vec![
            ("a".to_string(), num(2)),
            ("m".to_string(), num(4)),
            ("z".to_string(), num(3)),
        ]
    );
}

#[test]
fn test_clone_is_equal() {
    let v = record(vec![
        ("a", Value::array(vec![num(1), Value::Bool(true), Value::text("x")])),
        ("b", record(vec![("c", Value::Null)])),
    ]);
    assert_eq!(v.clone(), v);
    assert_eq!(v.duplicate(), v);
}

#[test]
fn test_keys_come_in_order() {
    let v = record(vec![("b", num(2)), ("a", num(1)), ("c", num(3))]);
    assert_eq!(keys(&v), vec!["a", "b", "c"]);
    assert_eq!(values(&v), vec![num(1), num(2), num(3)]);
}

#[test]
fn test_keys_of_entries_out_of_order() {
    let raw = Value::Object(vec![
        ("b".to_string(), num(1)),
        ("a".to_string(), num(2)),
        ("b".to_string(), num(3)),
    ]);
    assert_eq!(keys(&raw), vec!["a", "b"]);
    assert_eq!(values(&raw), vec![num(2), num(3)]);
}

#[test]
fn test_pick_result_is_ordered_whatever_the_order_of_keys() {
    let v = record(vec![("a", num(1)), ("b", num(2)), ("c", num(3))]);
    assert_eq!(pick(&v, &["c", "a", "c"]), record(vec![("a", num(1)), ("c", num(3))]));
}

#[test]
fn test_omit_and_pick_part_the_fields() {
    let v = record(vec![("a", num(1)), ("b", num(2)), ("c", num(3))]);
    let some = ["b", "x"];
    let picked = pick(&v, &some);
    let left = omit(&v, &some);
    assert_eq!(picked, record(vec![("b", num(2))]));
    assert_eq!(left, record(vec![("a", num(1)), ("c", num(3))]));
    assert_eq!(merge(&[picked, left]), v);
}

#[test]
fn test_merge_passes_over_what_is_no_object() {
    let merged = merge(&[
        record(vec![("a", num(1))]),
        num(5),
        Value::array(vec![record(vec![("z", num(0))])]),
        record(vec![("b", num(2)), ("a", num(3))]),
        Value::Null,
    ]);
    assert_eq!(merged, record(vec![("a", num(3)), ("b", num(2))]));
}
