use ftb_translater::snbt::{dump, parse, LangValue};

#[test]
fn roundtrip() {
    let src = "{ title: \"Hello\", desc: [\"A\", \"B\"] }";
    let v = parse(src).unwrap();
    assert_eq!(parse(&dump(&v)).unwrap(), v)
}

#[test]
fn reads_text_and_lines() {
    let v = parse("{ a: \"x\", b: [\"1\", \"2\"] }").unwrap();
    assert_eq!(v.len(), 2);
    assert_eq!(v[0].0, "a");
    assert_eq!(v[0].1, LangValue::Text("x".to_string()));
    assert_eq!(v[1].1, LangValue::Lines(vec!["1".to_string(), "2".to_string()]));
}

#[test]
fn rejects_unclosed_document() {
    assert!(parse("{ a: \"x\"").is_err());
}
