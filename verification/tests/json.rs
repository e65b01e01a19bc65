use rustclaw::json::{from_value, parse, Json, JsonObject};

#[test]
fn objects_are_written_with_their_keys_in_order() {
    let o = JsonObject::new()
        .with("b", Json::from_u64(1))
        .with("a", Json::string("x\n"))
        .with("b", Json::Null);
    assert_eq!(o.len(), 2);
    assert_eq!(o.key(0), "a");
    assert_eq!(o.value(1), &Json::Null);
    assert_eq!(Json::Object(o).to_text(), r#"{"a":"x\n","b":null}"#);
}

#[test]
fn text_is_read_back() {
    let j = parse(r#" {"k":[1,-2,true,null,"á"],"o":{}} "#).unwrap();
    assert_eq!(j.get("k").unwrap().elem(1).unwrap().as_i64(), Some(-2));
    assert_eq!(j.get("k").unwrap().elem(1).unwrap().as_u64(), None);
    assert_eq!(j.get("k").unwrap().elem(2).unwrap().as_bool(), Some(true));
    assert!(j.get("k").unwrap().elem(3).unwrap().is_null());
    assert!(j.get("k").unwrap().elem(5).is_none());
    assert_eq!(parse(&j.to_text()), Some(j));
}

#[test]
fn what_is_no_json_is_refused() {
    for bad in ["", "{", "nope", "{} {}", "[1,]", "'a'"] {
        assert_eq!(parse(bad), None, "{bad:?}");
    }
}

#[test]
fn deep_text_is_refused() {
    let ok = format!("{}{}", "[".repeat(127), "]".repeat(127));
    let deep = format!("{}{}", "[".repeat(128), "]".repeat(128));
    assert!(parse(&ok).is_some());
    assert!(parse(&deep).is_none());
}

#[test]
fn values_convert_both_ways() {
    let v: serde_json::Value = serde_json::from_str(r#"{"a":[1.5,"b"],"c":false}"#).unwrap();
    let j = from_value(v.clone());
    assert_eq!(j.to_value(), v);
    assert_eq!(j.get("c"), Some(&Json::Bool(false)));
}

#[test]
fn members_are_read_by_kind() {
    let j = parse(r#"{"s":"x","n":7,"neg":-1}"#).unwrap();
    assert_eq!(j.str_at("s"), Some("x"));
    assert_eq!(j.str_at("n"), None);
    assert_eq!(j.u64_at("n"), 7);
    assert_eq!(j.u64_at("neg"), 0);
    assert_eq!(j.u64_at("none"), 0);
    assert_eq!(Json::string("x").get("s"), None);
    assert_eq!(Json::array(vec![Json::Null]).as_array().map(|a| a.len()), Some(1));
}

#[test]
fn numbers_at_the_edges_survive() {
    assert_eq!(Json::from_u64(u64::MAX).as_u64(), Some(u64::MAX));
    assert_eq!(Json::from_u64(u64::MAX).as_i64(), None);
    assert_eq!(Json::from_i64(i64::MIN).as_i64(), Some(i64::MIN));
    assert_eq!(Json::from_i64(5).as_u64(), Some(5));
    assert_eq!(parse("1.0").unwrap().as_u64(), None);
}
