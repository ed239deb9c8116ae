use ftb_translater::chapters::{extract, render_replacements, validate_structure};

fn sources(text: &str) -> Vec<String> {
    extract("chapters/a.snbt", "a.snbt", text).unwrap().into_iter().map(|s| s.source).collect()
}

#[test]
fn extracts_and_replaces() {
    let text = "{\n // title: \"Comment\"\n title: \"Hello\", description: [\"Line one\", \"第二行\"]\n}";
    let s = extract("chapters/a.snbt", "a.snbt", text).unwrap();
    assert_eq!(s.len(), 2);
    let (rendered, count) = render_replacements(text, &vec![(0, "你好".into())]).unwrap();
    assert_eq!(count, 1);
    assert!(rendered.contains("你好"));
}

#[test]
fn token_walker_ignores_field_names_and_comment_markers_inside_strings() {
    let text = r#"{
  description: ["Visit https://example.com/a]b", "Line two"], title: "Real title",
  note: "title: \"Not a field\"",
  // subtitle: "Commented"
  "name": 'Quoted key'
}"#;
    assert_eq!(sources(text), ["Visit https://example.com/a]b", "Line two", "Real title", "Quoted key"]);
}

#[test]
fn token_walker_finds_target_fields_in_nested_compounds() {
    assert_eq!(sources(r#"{ group: { quests: [{ title: "First" }, { subtitle: 'Second' }] } }"#), ["First", "Second"]);
}

#[test]
fn token_walker_finds_rich_text_fields_inside_target_lists_in_source_order() {
    let text = r#"{ description: [{ text: "Nested first" }, "Direct second"] }"#;
    let segments = extract("chapters/rich-list.snbt", "rich-list.snbt", text).unwrap();
    assert_eq!(segments.iter().map(|s| s.source.as_str()).collect::<Vec<_>>(), ["Nested first", "Direct second"]);
    assert_eq!(segments.iter().map(|s| s.index).collect::<Vec<_>>(), [0, 1]);
}

#[test]
fn replacement_text_cannot_escape_the_original_snbt_string() {
    let text = r#"{ title: "Hello" }"#;
    let injected = r#""}], malicious: { value: 1 }, text: ""#;
    let (rendered, count) = render_replacements(text, &vec![(0, injected.into())]).unwrap();
    assert_eq!(count, 1);
    validate_structure(&rendered).unwrap();
    assert!(rendered.contains(r#"\"}], malicious"#));
}

#[test]
fn rejects_missing_or_duplicate_replacement_positions() {
    let text = r#"{ title: "Hello" }"#;
    assert!(render_replacements(text, &vec![(4, "你好".into())]).is_err());
    assert!(render_replacements(text, &vec![(0, "甲".into()), (0, "乙".into())]).is_err());
}

#[test]
fn single_quoted_literals_keep_their_quote() {
    let simple = "{ subtitle: 'Hello' }";
    let (rendered, count) = render_replacements(simple, &vec![(0, "it's".into())]).unwrap();
    assert_eq!(count, 1);
    assert_eq!(rendered, "{ subtitle: 'it\\'s' }");
}

#[test]
fn a_quoted_text_reads_back_as_one_token() {
    for q in ['"', '\''] {
        let text = "Say \"hi\" it's\\ok\nnext\ttab";
        let written: Vec<char> = ftb_translater::chapters::quote(text, q).chars().collect();
        let token = ftb_translater::chapters::quoted_token(&written, 0).unwrap();
        assert_eq!(token.value, text);
        assert_eq!(token.start, 0);
        assert_eq!(token.end, written.len());
        assert_eq!(token.quote, q);
    }
}
