use ion_win::json::{read_json, write_json, Json, ListBuilder, ObjectBuilder};

#[test]
fn values_are_told_apart() {
    let j = read_json("{\"a\":1,\"b\":\"x\",\"c\":[true,null],\"d\":-1,\"a\":2}").unwrap();
    assert_eq!(j.get_number("a"), Some(2));
    assert_eq!(j.get_text("b"), Some("x".to_string()));
    assert_eq!(j.get_list("c").unwrap().len(), 2);
    assert_eq!(j.get_number("d"), None);
    assert_eq!(j.get("d"), Some(&Json::OtherNumber));
    assert_eq!(j.get_truth("a"), None);
    assert!(j.get("e").is_none());
    assert!(Json::Number(1).get("a").is_none());
}

#[test]
fn what_is_written_is_read_again() {
    let mut list = ListBuilder::new();
    list.add_item(Json::Number(u64::MAX));
    list.add_item(Json::of_text("\u{1f600} \"\n"));
    let mut object = ObjectBuilder::new();
    object.put("z", list.build());
    object.put("a", Json::of_opt_text(&None));
    let j = object.build();
    let text = write_json(&j);
    assert_eq!(text, "{\"a\":null,\"z\":[18446744073709551615,\"\u{1f600} \\\"\\n\"]}");
    let back = read_json(&text).unwrap();
    assert_eq!(write_json(&back), text);
}

#[test]
fn wrong_text_is_refused_with_a_message() {
    let error = read_json("[1,").unwrap_err();
    assert!(error.contains("EOF"), "{error}");
}
