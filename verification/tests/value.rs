use jqr::value::{find_key, insert_entry, JsonValue};

fn num(x: f64) -> JsonValue {
    JsonValue::Num(x.to_bits())
}

fn sample() -> JsonValue {
    JsonValue::Object(vec![
        ("s".into(), JsonValue::Str("text".into())),
        ("b".into(), JsonValue::Boolean(true)),
        ("n".into(), num(1.5)),
        ("a".into(), JsonValue::Array(vec![JsonValue::Null, num(2.0)])),
    ])
}

#[test]
fn accessors_tell_the_kinds_apart() {
    let v = sample();
    assert!(JsonValue::Null.is_null());
    assert!(!v.is_null());
    assert_eq!(v.member("s").unwrap().as_str(), Some("text"));
    assert_eq!(v.member("b").unwrap().as_boolean(), Some(&true));
    assert_eq!(v.member("n").unwrap().as_num(), Some(&1.5f64.to_bits()));
    assert_eq!(
        v.member("a").unwrap().as_array(),
        Some(&vec![JsonValue::Null, num(2.0)])
    );
    assert_eq!(v.as_object().map(|o| o.len()), Some(4));
    assert_eq!(v.as_str(), None);
    assert_eq!(v.as_boolean(), None);
    assert_eq!(v.as_num(), None);
    assert_eq!(v.as_array(), None);
    assert_eq!(JsonValue::Null.as_object(), None);
}

#[test]
fn member_and_item_find_what_is_there() {
    let v = sample();
    assert_eq!(v.member("n"), Some(&num(1.5)));
    assert_eq!(v.member("x"), None);
    assert_eq!(v.item(0), None);
    let a = v.member("a").unwrap();
    assert_eq!(a.item(0), Some(&JsonValue::Null));
    assert_eq!(a.item(1), Some(&num(2.0)));
    assert_eq!(a.item(2), None);
    assert_eq!(a.member("a"), None);
}

#[test]
fn clone_is_a_deep_copy() {
    let v = sample();
    let w = v.clone();
    assert_eq!(v, w);
    assert_eq!(JsonValue::Array(vec![]).clone(), JsonValue::Array(vec![]));
}

#[test]
fn entries_keep_their_keys_distinct() {
    let mut entries: Vec<(String, JsonValue)> = Vec::new();
    insert_entry(&mut entries, "a".into(), num(1.0));
    insert_entry(&mut entries, "b".into(), num(2.0));
    insert_entry(&mut entries, "a".into(), num(3.0));
    assert_eq!(
        entries,
        vec![("a".to_string(), num(3.0)), ("b".to_string(), num(2.0))]
    );
    assert_eq!(find_key(&entries, &"b".to_string()), Some(1));
    assert_eq!(find_key(&entries, &"a".to_string()), Some(0));
    assert_eq!(find_key(&entries, &"c".to_string()), None);
}
