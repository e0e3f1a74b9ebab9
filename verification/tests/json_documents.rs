use aether::json::{parse, set_member, Json, ObjectBuilder};

#[test]
fn a_document_is_read_and_printed() {
    let j = parse("{\"b\": [1, -2, true, null], \"a\": \"x\\ny\"}").expect("valid");
    assert_eq!(j.str_at("a"), Some("x\ny"));
    let list = j.list_at("b").expect("list");
    assert_eq!(list[0].as_u64(), Some(1));
    assert_eq!(list[1].as_i64(), Some(-2));
    assert_eq!(list[2].as_bool(), Some(true));
    assert_eq!(j.to_text(), "{\"a\":\"x\\ny\",\"b\":[1,-2,true,null]}");
    assert!(parse("{").is_none());
}

#[test]
fn what_is_printed_is_read_back_as_the_same_value() {
    let mut inner = ObjectBuilder::new();
    inner.put("n", Json::whole(-7));
    inner.put_str("text", "quote \" and é");
    let mut b = ObjectBuilder::new();
    b.put("list", Json::list(vec![Json::Bool(false), Json::Null]));
    b.put("inner", inner.build());
    let j = b.build();
    let back = parse(&j.to_text()).expect("compact");
    assert!(j.same(&back) && back.same(&j));
    let back = parse(&j.to_pretty()).expect("pretty");
    assert!(j.same(&back) && back.same(&j));
}

#[test]
fn a_pretty_document_is_indented() {
    let mut b = ObjectBuilder::new();
    b.put("a", Json::whole(1));
    assert_eq!(b.build().to_pretty(), "{\n  \"a\": 1\n}");
}

#[test]
fn setting_a_member_changes_only_it() {
    let mut m = vec![("a".to_string(), Json::whole(1)), ("b".to_string(), Json::whole(2))];
    set_member(&mut m, "a", Json::whole(3));
    set_member(&mut m, "c", Json::whole(4));
    let j = Json::object(m);
    assert_eq!(j.i64_at("a"), Some(3));
    assert_eq!(j.i64_at("b"), Some(2));
    assert_eq!(j.i64_at("c"), Some(4));
}

#[test]
fn numbers_that_are_not_whole_keep_their_text() {
    let j = parse("[1.5, 18446744073709551615]").expect("valid");
    let v = j.as_list().expect("list");
    assert!(v[0].as_i64().is_none());
    assert_eq!(v[1].as_u64(), Some(u64::MAX));
    assert!(v[1].as_i64().is_none());
    assert_eq!(j.to_text(), "[1.5,18446744073709551615]");
}

#[test]
fn names_are_printed_in_order_and_the_last_of_equal_names_counts() {
    let m = vec![
        ("b".to_string(), Json::whole(1)),
        ("a".to_string(), Json::Neg(2)),
        ("b".to_string(), Json::whole(3)),
    ];
    assert_eq!(Json::object(m).to_text(), "{\"a\":2,\"b\":3}");
    assert_eq!(Json::list(vec![Json::Real("1e2".to_string()), Json::Real("x".to_string())]).to_text(), "[100.0,null]");
}
