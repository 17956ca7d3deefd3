use easement::json::Json;
use easement::serial::{read, render, render_pretty};

fn value(text: &str) -> Json {
    read(text).expect("valid JSON")
}

#[test]
fn text_is_read_and_written() {
    let text = "{\"b\":[1,-2,true,null,\"\\u00fc\\n\"],\"a\":{},\"b\":[]}";
    assert_eq!(render(&value(text)).unwrap(), "{\"a\":{},\"b\":[]}");
    assert_eq!(render(&value("[1,-2,true,null,\"\\u00fc\\n\"]")).unwrap(), "[1,-2,true,null,\"ü\\n\"]");
    assert_eq!(render_pretty(&value("{\"a\":[1]}")).unwrap(), "{\n  \"a\": [\n    1\n  ]\n}");
    assert!(read("{").is_none());
    assert!(read(&"[".repeat(200)).is_none());
}

#[test]
fn plain_values_come_back() {
    for text in ["null", "[]", "{\"k\":{\"l\":[18446744073709551615,-9223372036854775808]}}", "\"\\u0000\""] {
        let first = value(text);
        let again = value(&render(&first).unwrap());
        assert!(first.same(&again));
    }
}

#[test]
fn equality_is_that_of_values() {
    assert!(value("{\"a\":1,\"b\":2}").same(&value("{\"b\":2,\"a\":1}")));
    assert!(!value("{\"a\":1}").same(&value("{\"a\":1,\"b\":2}")));
    assert!(!value("{\"a\":1,\"b\":2}").same(&value("{\"a\":1}")));
    assert!(!value("1").same(&value("1.0")));
    assert!(value("0.0").same(&value("-0.0")));
    assert!(value("1.5").same(&value("15e-1")));
    assert!(!value("1.5").same(&value("1.25")));
    assert!(!value("[1,2]").same(&value("[1,3]")));
    assert!(Json::Unsigned(3).same(&Json::Negative(3)));
    assert!(Json::Negative(3).same(&Json::Unsigned(3)));
    assert!(!Json::Negative(-3).same(&Json::Unsigned(3)));
    assert!(Json::Bool(true).same(&Json::Bool(true)) && !Json::Bool(true).same(&Json::Bool(false)));
    assert!(Json::Null.same(&Json::Null) && !Json::Null.same(&Json::Bool(false)));
}

#[test]
fn the_last_member_counts() {
    let v = Json::object()
        .with("k", Json::text("first"))
        .with("k", Json::text("second"));
    assert_eq!(v.text_at("k"), Some("second"));
    assert_eq!(v.named("k"), "second");
    assert_eq!(v.named("other"), "");
    assert!(v.says("k", "second") && !v.says("k", "first"));
    assert!(v.get("other").is_none());
    assert!(Json::text("x").get("k").is_none());
    assert!(v.is_object() && !v.is_text() && Json::text("x").is_text());
    assert_eq!(Json::Negative(7).as_uint(), Some(7));
    assert_eq!(Json::Negative(-7).as_uint(), None);
    assert_eq!(v.uint_at("k"), None);
    assert_eq!(render(&v).unwrap(), "{\"k\":\"second\"}");
}

#[test]
fn copies_are_equal() {
    let v = value("{\"a\":[1,-1,0.5,null,true,\"x\"],\"b\":{\"c\":{}}}");
    assert!(v.copy().same(&v));
    assert_eq!(render(&v.copy()), render(&v));
}

#[test]
fn of_two_members_under_one_key_the_later_counts() {
    let member = |key: &str, n: u64| (key.to_owned(), Json::Unsigned(n));
    let doubled = Json::Object(vec![member("a", 1), member("b", 2), member("a", 3)]);
    assert_eq!(doubled.uint_at("a"), Some(3));
    assert_eq!(render(&doubled).unwrap(), "{\"a\":3,\"b\":2}");
    assert!(doubled.same(&value("{\"a\":3,\"b\":2}")));
    let changed = doubled.with("a", Json::Unsigned(4)).with("b", Json::Null);
    assert_eq!(render(&changed).unwrap(), "{\"a\":4,\"b\":null}");
    let once = Json::object().with("a", Json::Unsigned(1)).with("a", Json::Unsigned(2));
    assert!(matches!(once, Json::Object(items) if items.len() == 1));
}
