use ftb_translater::entries::protect_for_translation;
use ftb_translater::glossary::{Entry, Loaded};
use ftb_translater::protection::restore;

fn entry(source: &str, target: &str, case_sensitive: bool) -> Entry {
    Entry { source: source.into(), target: target.into(), case_sensitive }
}

fn small() -> Loaded {
    Loaded::from_parts(
        1,
        vec![
            entry("Table", "桌子", false),
            entry("Mekanism", "通用机械", true),
            entry("Enchanting Table", "附魔台", false),
            entry("Oritech", "Oritech", true),
        ],
        b"small",
    )
    .unwrap()
}

#[test]
fn content_changes_produce_a_new_cache_fingerprint() {
    let a_bytes = r#"{"version":1,"entries":[{"source":"Demo","target":"演示"}]}"#;
    let b_bytes = r#"{"version":1,"entries":[{"source":"Demo","target":"示例"}]}"#;
    let a = Loaded::from_parts(1, vec![entry("Demo", "演示", false)], a_bytes.as_bytes()).unwrap();
    let b = Loaded::from_parts(1, vec![entry("Demo", "示例", false)], b_bytes.as_bytes()).unwrap();
    assert_ne!(a.fingerprint(), b.fingerprint());
}

#[test]
fn fingerprint_is_the_sha256_of_the_file() {
    let g = Loaded::from_parts(1, vec![entry("Demo", "演示", false)], b"abc").unwrap();
    assert_eq!(g.fingerprint(), "ba7816bf8f01cfea414140de5dae2223b00361a396177a9cb410ff61f20015ad");
    assert_eq!(g.len(), 1);
}

#[test]
fn prefers_longest_term_and_respects_boundaries() {
    let (text, tokens) = small().protect("Use an Enchanting Table, not a timetable, with Mekanism.");
    assert_eq!(text.matches("⟨G_").count(), 2);
    assert!(text.contains("timetable"));
    assert_eq!(text, "Use an ⟨G_0⟩, not a timetable, with ⟨G_1⟩.");
    assert_eq!(tokens[0], ("⟨G_0⟩".to_string(), "附魔台".to_string()));
    assert_eq!(tokens[1].1, "通用机械");
}

#[test]
fn case_sensitive_terms_match_only_their_own_case() {
    let (text, tokens) = small().protect("mekanism and MEKANISM, but a TABLE.");
    assert_eq!(text, "mekanism and MEKANISM, but a ⟨G_0⟩.");
    assert_eq!(tokens, vec![("⟨G_0⟩".to_string(), "桌子".to_string())]);
}

#[test]
fn text_without_terms_is_unchanged() {
    let (text, tokens) = small().protect("Create a spectrum carefully.");
    assert_eq!(text, "Create a spectrum carefully.");
    assert!(tokens.is_empty());
}

#[test]
fn invalid_glossaries_are_refused() {
    assert_eq!(Loaded::from_parts(0, vec![entry("a", "b", false)], b"x").unwrap_err(), "version 必须大于 0");
    assert_eq!(Loaded::from_parts(1, vec![], b"x").unwrap_err(), "entries 不能为空");
    assert_eq!(Loaded::from_parts(1, vec![entry("  ", "b", false)], b"x").unwrap_err(), "source 和 target 不能为空");
    assert_eq!(
        Loaded::from_parts(1, vec![entry("Demo", "演示", false), entry("DEMO", "示例", false)], b"x").unwrap_err(),
        "存在重复术语：DEMO"
    );
    assert!(Loaded::from_parts(1, vec![entry("Demo", "演示", true), entry("DEMO", "示例", false)], b"x").is_ok());
}

#[test]
fn glossary_is_optional_and_restores_curated_terms() {
    let source = "Use Mekanism with an Enchanting Table";
    let (plain, plain_tokens) = protect_for_translation(source, None);
    assert_eq!(restore(&plain, &plain_tokens).unwrap(), source);
    assert!(!plain.contains("⟨G_"));

    let loaded = small();
    let (protected, tokens) = protect_for_translation(source, Some(&loaded));
    assert_eq!(protected.matches("⟨G_").count(), 2);
    assert_eq!(restore(&protected, &tokens).unwrap(), "Use 通用机械 with an 附魔台");
}
