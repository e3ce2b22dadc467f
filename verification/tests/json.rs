use flyio::json::Json;
use flyio::strmap::StrMap;
use flyio::wire::{parse, render, Malformed, MAX_DEPTH};

fn value(text: &str) -> Json {
    parse(text).unwrap()
}

#[test]
fn written_value_is_read_back() {
    let text = r#"{"a":[1,-2,18446744073709551615,true,null,"x\ny"],"b":{"c":1.5}}"#;
    assert_eq!(render(&value(text)), text);
}

#[test]
fn fields_are_written_in_the_order_of_their_names() {
    assert_eq!(render(&value(r#"{"b":1,"a":2,"ab":3,"B":4}"#)), r#"{"B":4,"a":2,"ab":3,"b":1}"#);
}

#[test]
fn control_characters_are_escaped() {
    let line = render(&Json::text("a\nb\u{1}\t\"\\"));
    assert_eq!(line, r#""a\nb\u0001\t\"\\""#);
    assert!(line.chars().all(|c| c >= ' '));
}

#[test]
fn malformed_text_is_refused() {
    assert!(matches!(parse("{"), Err(Malformed)));
    assert!(matches!(parse(""), Err(Malformed)));
    assert!(matches!(parse("1 2"), Err(Malformed)));
    assert!(matches!(parse("nul"), Err(Malformed)));
}

#[test]
fn nesting_is_read_down_to_the_limit() {
    let deep = |n: u64| format!("{}{}", "[".repeat(n as usize), "]".repeat(n as usize));
    assert_eq!(render(&parse(&deep(MAX_DEPTH)).unwrap()), deep(MAX_DEPTH));
    assert!(parse(&deep(MAX_DEPTH + 1)).is_err());
}

#[test]
fn last_of_equal_fields_counts() {
    assert_eq!(value(r#"{"a":1,"a":2}"#).field("a").as_u64(), Some(2));
}

#[test]
fn field_of_anything_is_found_or_null() {
    let v = value(r#"{"a":{"b":"c"},"n":null}"#);
    assert!(v.field("a").field("b").is_text("c"));
    assert!(matches!(v.field("n"), Json::Null));
    assert!(matches!(v.field("missing"), Json::Null));
    assert!(matches!(value("[1]").field("a"), Json::Null));
    assert!(matches!(value("3").field("a"), Json::Null));
}

#[test]
fn numbers_are_read_as_far_as_they_fit() {
    assert_eq!(value("18446744073709551615").as_u64(), Some(u64::MAX));
    assert_eq!(value("18446744073709551615").as_i64(), None);
    assert_eq!(value("-9223372036854775808").as_i64(), Some(i64::MIN));
    assert_eq!(value("-1").as_u64(), None);
    assert_eq!(value("1.0").as_u64(), None);
    assert_eq!(value("1.0").as_i64(), None);
    assert_eq!(value("\"1\"").as_u64(), None);
    assert_eq!(Json::number(u64::MAX).as_u64(), Some(u64::MAX));
    assert_eq!(Json::signed(-5).as_i64(), Some(-5));
    assert_eq!(Json::signed(-5).as_u64(), None);
}

#[test]
fn texts_are_taken_where_there_are_any() {
    assert_eq!(value("\"abc\"").text_or_empty(), "abc");
    assert_eq!(value("7").text_or_empty(), "");
    assert_eq!(value("\"abc\"").as_text().map(|s| s.as_str()), Some("abc"));
    assert!(value("7").as_text().is_none());
    assert!(!value("\"abc\"").is_text("ab"));
}

#[test]
fn setting_a_field_replaces_it() {
    let v = Json::typed("a").with("n", Json::number(1)).with("n", Json::number(2));
    assert_eq!(render(&v), r#"{"n":2,"type":"a"}"#);
    assert_eq!(render(&Json::Null.with("x", Json::Bool(false))), r#"{"x":false}"#);
}

#[test]
fn objects_and_null_are_settable() {
    assert!(Json::object().is_settable());
    assert!(Json::Null.is_settable());
    assert!(!value("[]").is_settable());
    assert!(!value("1").is_settable());
}

#[test]
fn equal_values_are_the_same() {
    assert!(value(r#"{"a":[1,{"b":null}],"c":"d"}"#).same(&value(r#"{"c":"d","a":[1,{"b":null}]}"#)));
    assert!(!value("[1,2]").same(&value("[2,1]")));
    assert!(!value("[1,2]").same(&value("[1,2,3]")));
    assert!(!value(r#"{"a":1}"#).same(&value(r#"{"a":1,"b":2}"#)));
    assert!(!value(r#"{"a":1,"b":2}"#).same(&value(r#"{"a":1}"#)));
    assert!(!value(r#"{"a":1}"#).same(&value(r#"{"b":1}"#)));
    assert!(!value("1").same(&value("1.0")));
    assert!(!value("1").same(&value("2")));
    assert!(!value("true").same(&value("false")));
    assert!(!value("null").same(&value("false")));
}

#[test]
fn zeros_of_both_signs_are_equal() {
    assert!(value("0.0").same(&value("-0.0")));
    assert!(value("0.5").same(&value("0.5")));
    assert!(!value("0.5").same(&value("-0.5")));
    assert!(!value("0").same(&value("0.0")));
}

#[test]
fn copies_are_equal() {
    let v = value(r#"{"a":[1,-1,1.25,"s",true,null],"b":{}}"#);
    assert!(v.clone().same(&v));
    assert_eq!(render(&v.clone()), render(&v));
}

#[test]
fn arrays_and_objects_show_their_parts() {
    assert_eq!(value("[1,2]").as_array().unwrap().len(), 2);
    assert!(value("{}").as_array().is_none());
    let v = value(r#"{"b":1,"a":2}"#);
    let o = v.as_object().unwrap();
    assert_eq!(o.len(), 2);
    assert_eq!(o.key_at(0), "a");
    assert_eq!(o.value_at(1).as_u64(), Some(1));
    assert!(value("[]").as_object().is_none());
}

#[test]
fn map_keeps_its_keys_sorted() {
    let mut m: StrMap<u32> = StrMap::new();
    for (k, v) in [("b", 1), ("", 2), ("a", 3), ("\u{10000}", 4), ("\u{ffff}", 5), ("b", 6)] {
        m.insert(k.to_string(), v);
    }
    let keys: Vec<&str> = (0..m.len()).map(|i| m.key_at(i).as_str()).collect();
    assert_eq!(keys, ["", "a", "b", "\u{ffff}", "\u{10000}"]);
    assert_eq!(m.get("b"), Some(&6));
    assert_eq!(m.get("c"), None);
}

#[test]
fn strings_are_told_apart_by_all_their_characters() {
    assert!(Json::text("n\u{e9}\u{1f600}").is_text("n\u{e9}\u{1f600}"));
    assert!(!Json::text("n\u{e9}").is_text("n\u{e8}"));
    assert!(!Json::text("ab").is_text("abc"));
    assert!(!Json::text("").is_text("a"));
    let mut m: StrMap<u32> = StrMap::new();
    m.insert("abc".to_string(), 1);
    m.insert("ab".to_string(), 2);
    m.insert("\u{e9}".to_string(), 3);
    m.insert("z".to_string(), 4);
    let keys: Vec<&str> = (0..m.len()).map(|i| m.key_at(i).as_str()).collect();
    assert_eq!(keys, ["ab", "abc", "z", "\u{e9}"]);
}

#[test]
fn removed_key_is_gone() {
    let mut m: StrMap<u32> = StrMap::new();
    m.insert("a".to_string(), 1);
    m.insert("b".to_string(), 2);
    m.insert("c".to_string(), 3);
    assert_eq!(m.remove("b"), Some(2));
    assert_eq!(m.remove("b"), None);
    assert_eq!(m.get("a"), Some(&1));
    assert_eq!(m.get("c"), Some(&3));
    assert_eq!(m.len(), 2);
}
