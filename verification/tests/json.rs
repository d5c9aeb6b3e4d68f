use dsh_desktop::json::Json;

#[test]
fn reads_and_writes_json() {
    let j = Json::parse("{\"b\": [1, -2, 2.5, null, true], \"a\": \"x\\n\"}").unwrap();
    assert_eq!(j.to_text(), "{\"a\":\"x\\n\",\"b\":[1,-2,2.5,null,true]}");
    assert_eq!(j.to_pretty(), "{\n  \"a\": \"x\\n\",\n  \"b\": [\n    1,\n    -2,\n    2.5,\n    null,\n    true\n  ]\n}");
}

#[test]
fn refuses_what_is_no_json() {
    assert!(Json::parse("{\"a\": }").is_none());
    assert!(Json::parse("").is_none());
    assert!(Json::parse("1 2").is_none());
}

#[test]
fn reads_to_a_depth_of_127() {
    let nest = |n: usize| "[".repeat(n) + &"]".repeat(n);
    assert!(Json::parse(&nest(127)).is_some());
    assert!(Json::parse(&nest(128)).is_none());
}

#[test]
fn the_last_of_repeated_keys_counts() {
    let j = Json::parse("{\"k\": 1, \"k\": \"two\"}").unwrap();
    assert_eq!(j.get_str("k"), Some("two".to_string()));
    assert_eq!(j.to_text(), "{\"k\":\"two\"}");
    let built = Json::object().with("k", Json::str("one")).with("k", Json::Bool(true));
    assert_eq!(built.get_bool("k"), Some(true));
    assert_eq!(built.to_text(), "{\"k\":true}");
}

#[test]
fn members_are_found_by_key() {
    let mut j = Json::object();
    assert!(j.get("a").is_none());
    j.set("a", Json::UInt(18446744073709551615));
    j.set("b", Json::opt_str(&None));
    assert!(j.get("a").is_some());
    assert_eq!(j.get_str("b"), None);
    assert_eq!(j.to_text(), "{\"a\":18446744073709551615,\"b\":null}");
    assert!(Json::str("x").get("a").is_none());
}

#[test]
fn text_reads_back_as_the_same_value() {
    let text = "{\"a\":[{\"b\":-9223372036854775808},[]],\"c\":\"\\u0001中\"}";
    let j = Json::parse(text).unwrap();
    let again = Json::parse(&j.to_text()).unwrap();
    assert_eq!(again.to_text(), j.to_text());
    assert_eq!(again.get_str("c"), Some("\u{1}中".to_string()));
}
