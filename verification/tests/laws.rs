use ftb_translater::entries::{current_source_fingerprint, prepare_entry, source_fingerprint, source_fingerprint_matches};
use ftb_translater::protection::{protect, restore};
use sha2::Digest;

#[test]
fn restoring_an_unchanged_protected_text_gives_it_back() {
    for text in [
        "§aHello §lworld§r with %s and %1$d",
        "Craft {item} with minecraft:iron_ingot x64 at 50%",
        "Visit https://example.com/a_b?c=1 then @p[distance=..5]",
        "",
        "plain words only",
    ] {
        let (protected, tokens) = protect(text);
        assert_eq!(restore(&protected, &tokens).unwrap(), text);
    }
}

#[test]
fn placeholders_are_numbered_in_order() {
    let (protected, tokens) = protect("§a%s§r");
    for (k, (placeholder, _)) in tokens.iter().enumerate() {
        assert_eq!(placeholder, &format!("⟨P_{k}⟩"));
        assert!(protected.contains(placeholder.as_str()));
    }
}

#[test]
fn source_file_fingerprint_covers_paths_and_bytes() {
    let (entry, _) = prepare_entry("a".into(), "Alpha".into(), 0, None, None);
    let entries = vec![entry];
    let files = vec![("lang/en_us.snbt".to_string(), b"{a:\"Alpha\"}".to_vec())];
    let mut bytes = Vec::new();
    bytes.extend_from_slice(b"ftb-translator-source-v2\0lang-parser-v1\0");
    bytes.extend_from_slice(source_fingerprint(&entries).as_bytes());
    bytes.extend_from_slice(&(15u64).to_le_bytes());
    bytes.extend_from_slice(b"lang/en_us.snbt");
    bytes.extend_from_slice(&(11u64).to_le_bytes());
    bytes.extend_from_slice(b"{a:\"Alpha\"}");
    let expected = format!("v2:{}", hex::encode(sha2::Sha256::digest(&bytes)));
    assert_eq!(current_source_fingerprint("lang", &entries, &files), expected);
    assert!(source_fingerprint_matches(&expected, "lang", &entries, &files));
    assert!(source_fingerprint_matches(&source_fingerprint(&entries), "lang", &entries, &files));
    let changed = vec![("lang/en_us.snbt".to_string(), b"{a:\"Beta\"}".to_vec())];
    assert!(!source_fingerprint_matches(&expected, "lang", &entries, &changed));
}
