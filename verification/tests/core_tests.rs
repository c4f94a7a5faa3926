use chrono::{DateTime, Utc};
use yantra::diff::{merge_additive_patches, parse_unified_diff, HunkLineKind};
use yantra::domain::{Strictness, TaskClass, VerifyingKey, WorkspaceMode};
use yantra::truth::{canonical_payload, timestamp_nanos, SigningKeyPair, TaskId, TruthToken};
use ring::rand::SystemRandom;
use ring::signature::Ed25519KeyPair;
use yantra::ident::{hex_encode, sha256_hex, tier_label, CoreError, ModelId, ModelTier, SymbolId};
use yantra::sacred::{
    built_in_sacred_patterns, canonicalize_within, extend_patterns_from_text, is_sacred,
    is_within_root, normalize_path, sacred_pattern_matches, sacred_patterns_from_sources,
    ProjectRoot,
};

#[test]
fn semantic_merge_of_two_non_conflicting_additive_diffs_produces_correct_union() {
    let diff_a = "--- a/src/greeter.rs
+++ b/src/greeter.rs
@@ -5,6 +5,11 @@ impl Greeter {
     pub fn greet(&self) -> String {
         \"hello\".to_owned()
     }
+
+    pub fn zebra_method(&self) -> String {
+        \"zebra\".to_owned()
+    }
 }
";
    let diff_b = "--- a/src/greeter.rs
+++ b/src/greeter.rs
@@ -5,6 +5,11 @@ impl Greeter {
     pub fn greet(&self) -> String {
         \"hello\".to_owned()
     }
+
+    pub fn alpha_method(&self) -> String {
+        \"alpha\".to_owned()
+    }
 }
";
    let merge_result = merge_additive_patches(diff_a, diff_b);

    assert!(
        merge_result.deferred_paths.is_empty(),
        "no conflicts expected for purely additive diffs"
    );
    assert_eq!(
        merge_result.merged_patches.len(),
        1,
        "one file should be in merged output"
    );

    let file_patch = &merge_result.merged_patches[0];
    assert_eq!(file_patch.path, "src/greeter.rs");

    let added_lines: Vec<&str> = file_patch
        .hunks
        .iter()
        .flat_map(|hunk| hunk.lines.iter())
        .filter(|line| matches!(line.kind, HunkLineKind::Added))
        .map(|line| line.content.as_str())
        .collect();

    let alpha_pos = added_lines
        .iter()
        .position(|line| line.contains("alpha_method"))
        .expect("alpha_method must appear in merged patch");
    let zebra_pos = added_lines
        .iter()
        .position(|line| line.contains("zebra_method"))
        .expect("zebra_method must appear in merged patch");

    assert!(
        alpha_pos < zebra_pos,
        "alpha_method must sort before zebra_method alphabetically"
    );
}

#[test]
fn merge_defers_conflicting_diffs_with_removed_lines() {
    let diff_a = "--- a/src/lib.rs
+++ b/src/lib.rs
@@ -1,4 +1,4 @@
-pub fn old_function() {}
+pub fn new_function() {}
";
    let diff_b = "--- a/src/lib.rs
+++ b/src/lib.rs
@@ -1,4 +1,5 @@
+pub fn another_function() {}
 pub fn old_function() {}
";
    let merge_result = merge_additive_patches(diff_a, diff_b);

    assert!(
        merge_result.deferred_paths.contains(&"src/lib.rs".to_owned()),
        "file with removed lines must be deferred"
    );
    assert!(
        merge_result.merged_patches.is_empty(),
        "no merged patches when the only file has a conflict"
    );
}

#[test]
fn parse_unified_diff_extracts_path_and_added_lines() {
    let diff = "--- a/src/main.rs
+++ b/src/main.rs
@@ -1,3 +1,4 @@
 fn main() {
+    println!(\"added\");
 }
";
    let patches = parse_unified_diff(diff);
    assert_eq!(patches.len(), 1);
    assert_eq!(patches[0].path, "src/main.rs");

    let added: Vec<&str> = patches[0].hunks[0]
        .lines
        .iter()
        .filter(|line| matches!(line.kind, HunkLineKind::Added))
        .map(|line| line.content.as_str())
        .collect();
    assert_eq!(added, vec!["    println!(\"added\");"]);
}

#[test]
fn single_patch_passes_through_unchanged_when_other_is_empty() {
    let diff = "--- a/src/utils.rs
+++ b/src/utils.rs
@@ -1,3 +1,5 @@
 pub fn existing() {}
+
+pub fn new_util() {}
";
    let merge_result = merge_additive_patches(diff, "");

    assert_eq!(merge_result.merged_patches.len(), 1);
    assert!(merge_result.deferred_paths.is_empty());
}

#[test]
fn parse_unified_diff_reads_hunk_header_numbers() {
    let diff = "--- a/x.rs\n+++ b/x.rs\n@@ -12,3 +14,5 @@\n context\n";
    let patches = parse_unified_diff(diff);
    assert_eq!(patches.len(), 1);
    let hunk = &patches[0].hunks[0];
    assert_eq!((hunk.old_start, hunk.old_count, hunk.new_start, hunk.new_count), (12, 3, 14, 5));
    assert_eq!(hunk.lines.len(), 1);
    assert_eq!(hunk.lines[0].kind, HunkLineKind::Context);
    assert_eq!(hunk.lines[0].content, "context");
}

#[test]
fn parse_of_empty_text_has_no_patches() {
    assert!(parse_unified_diff("").is_empty());
}

#[test]
fn merge_with_empty_keeps_every_path_of_the_other_diff() {
    let diff = "--- a/b.rs\n+++ b/b.rs\n@@ -1,1 +1,2 @@\n+fn b() {}\n--- a/a.rs\n+++ b/a.rs\n@@ -1,1 +1,2 @@\n-fn a() {}\n";
    let merge_result = merge_additive_patches("", diff);
    let merged: Vec<&str> = merge_result.merged_patches.iter().map(|p| p.path.as_str()).collect();
    assert_eq!(merged, vec!["a.rs", "b.rs"]);
    assert!(merge_result.deferred_paths.is_empty());
}

#[test]
fn symbol_id_new_rejects_empty_string() {
    assert!(SymbolId::new("".to_string()).is_err());
    assert!(SymbolId::new("   ".to_string()).is_err());
}

#[test]
fn symbol_id_new_keeps_a_non_blank_identifier() {
    let id = SymbolId::new(" sym ".to_string()).unwrap();
    assert_eq!(id.as_str(), " sym ");
    assert!(matches!(
        SymbolId::new("\t".to_string()),
        Err(CoreError::InvalidSymbolId { .. })
    ));
}

#[test]
fn model_id_new_rejects_blank_and_keeps_text() {
    assert!(matches!(
        ModelId::new(" ".to_string()),
        Err(CoreError::InvalidModelId { .. })
    ));
    assert_eq!(ModelId::new("qwen2.5-coder".to_string()).unwrap().as_str(), "qwen2.5-coder");
}

#[test]
fn hex_encode_round_trip_known_bytes() {
    let test_bytes = [0x00_u8, 0x0f, 0xff, 0xab, 0xcd];
    let encoded = hex_encode(&test_bytes);
    assert_eq!(encoded, "000fffabcd");
    assert_eq!(encoded.len(), test_bytes.len() * 2);
}

#[test]
fn sha256_hex_produces_correct_length() {
    let computed_hash = sha256_hex(b"hello world");
    assert_eq!(computed_hash.len(), 64);
    assert!(computed_hash
        .chars()
        .all(|character| character.is_ascii_hexdigit()));
}

#[test]
fn sha256_hex_of_known_input() {
    assert_eq!(
        sha256_hex(b"hello world"),
        "b94d27b9934d3e08a52e52d7da7dabfac484efe37a5380ee9088f7ace2efcde9"
    );
}

#[test]
fn symbol_id_from_parts_is_a_hex_digest_of_the_fingerprint() {
    let id = SymbolId::from_parts("file.rs", "FuncA", "Function");
    assert_eq!(id.as_str(), sha256_hex("file.rs\u{1f}FuncA\u{1f}Function".as_bytes()));
    assert_eq!(id.as_str().len(), 64);
}

#[test]
fn tier_label_covers_all_variants() {
    assert_eq!(tier_label(ModelTier::Tier0), "T0/Local");
    assert_eq!(tier_label(ModelTier::Tier1), "T1/Free");
    assert_eq!(tier_label(ModelTier::Tier2), "T2/Cloud");
    assert_eq!(tier_label(ModelTier::Tier3), "T3/Frontier");
}

#[test]
fn task_class_and_strictness_names() {
    assert_eq!(TaskClass::NewFeature.as_str(), "new_feature");
    assert_eq!(TaskClass::BugFix.as_str(), "bug_fix");
    assert_eq!(TaskClass::Style.as_str(), "style");
    assert_eq!(Strictness::Strict.as_str(), "strict");
    assert_eq!(Strictness::Light.as_str(), "light");
    assert_eq!(Strictness::Trust.as_str(), "trust");
}

#[test]
fn test_detect_no_db_returns_greenfield() {
    assert_eq!(WorkspaceMode::detect(None), WorkspaceMode::Greenfield);
}

#[test]
fn test_detect_empty_db_returns_greenfield() {
    assert_eq!(WorkspaceMode::detect(Some(0)), WorkspaceMode::Greenfield);
    assert_eq!(WorkspaceMode::detect(Some(2)), WorkspaceMode::Greenfield);
}

#[test]
fn test_detect_with_symbols_returns_incremental() {
    assert_eq!(WorkspaceMode::detect(Some(3)), WorkspaceMode::Incremental);
}

#[test]
fn sacred_pattern_glob_double_star_prefix_matches_any_depth() {
    assert!(sacred_pattern_matches("**/Cargo.toml", "Cargo.toml"));
    assert!(sacred_pattern_matches(
        "**/Cargo.toml",
        "crates/forge-core/Cargo.toml"
    ));
    assert!(sacred_pattern_matches("**/Cargo.toml", "a/b/c/Cargo.toml"));
    assert!(!sacred_pattern_matches("**/Cargo.toml", "Cargo.lock"));
}

#[test]
fn sacred_pattern_glob_double_star_suffix_matches_recursive() {
    assert!(sacred_pattern_matches("src/auth/**", "src/auth/jwt.rs"));
    assert!(sacred_pattern_matches(
        "src/auth/**",
        "src/auth/tokens/claims.rs"
    ));
    assert!(sacred_pattern_matches("src/auth/**", "src/auth"));
    assert!(!sacred_pattern_matches("src/auth/**", "src/other/jwt.rs"));
}

#[test]
fn sacred_pattern_without_glob_matches_only_itself() {
    assert!(sacred_pattern_matches("README.md", "README.md"));
    assert!(!sacred_pattern_matches("README.md", "docs/README.md"));
}

#[test]
fn extend_patterns_skips_blank_and_comment_lines() {
    let mut patterns = vec!["a/**".to_string()];
    extend_patterns_from_text(&mut patterns, "  configs/**  \n\n# comment\r\n**/Cargo.toml\n");
    assert_eq!(patterns, vec!["a/**", "configs/**", "**/Cargo.toml"]);
}

#[test]
fn default_sacred_txt_patterns_are_loaded_as_baseline() {
    let patterns = sacred_patterns_from_sources(Some("src/billing/**\n"), None);
    let root = ProjectRoot::new("/work/project".to_string());
    assert!(is_sacred(&root, "src/billing/invoice.rs", None, &patterns).unwrap());
}

#[test]
fn built_in_patterns_active_without_any_sacred_file() {
    let patterns = sacred_patterns_from_sources(None, None);
    assert_eq!(patterns, built_in_sacred_patterns());
    let root = ProjectRoot::new("/work/project".to_string());
    assert!(is_sacred(&root, "src/auth/jwt.rs", None, &patterns).unwrap());
    assert!(!is_sacred(&root, "src/main.rs", None, &patterns).unwrap());
    assert!(is_sacred(&root, "src/auth/tokens/jwt/claims.rs", None, &patterns).unwrap());
}

#[test]
fn sacred_patterns_match_nested_paths() {
    let patterns = sacred_patterns_from_sources(None, Some("configs/**\n**/Cargo.toml\n"));
    let root = ProjectRoot::new("/work/project".to_string());
    assert!(is_sacred(&root, "configs/routing.toml", None, &patterns).unwrap());
    assert!(is_sacred(&root, "crates/forge-core/Cargo.toml", None, &patterns).unwrap());
    assert!(!is_sacred(&root, "README.md", None, &patterns).unwrap());
}

#[test]
fn is_sacred_matches_direct_pattern() {
    let patterns = sacred_patterns_from_sources(None, Some("src/auth/**\nREADME.md\n"));
    let root = ProjectRoot::new("/work/project".to_string());
    assert!(is_sacred(&root, "README.md", None, &patterns).unwrap());
    assert!(is_sacred(&root, "src/auth/token.rs", None, &patterns).unwrap());
    assert!(!is_sacred(&root, "CHANGELOG.md", None, &patterns).unwrap());
}

#[test]
fn repeated_neighbouring_patterns_are_kept_once() {
    let patterns = sacred_patterns_from_sources(Some("**/Cargo.toml\nx/**\n"), Some("x/**\n"));
    let mut expected = built_in_sacred_patterns();
    expected.push("x/**".to_string());
    assert_eq!(patterns, expected);
}

#[test]
fn canonicalize_within_rejects_path_traversal() {
    let root = ProjectRoot::new("/tmp/yantra-core-root".to_string());
    let result = canonicalize_within(&root, "../../../etc/passwd", None);
    match result {
        Err(CoreError::PathEscapesRoot { root, requested }) => {
            assert_eq!(root, "/tmp/yantra-core-root");
            assert_eq!(requested, "/etc/passwd");
        }
        other => panic!("expected an escape, got {other:?}"),
    }
}

#[test]
fn canonicalize_within_normalizes_relative_paths() {
    let root = ProjectRoot::new("/work/project".to_string());
    assert_eq!(
        canonicalize_within(&root, "src/./a/../b.rs", None).unwrap(),
        "/work/project/src/b.rs"
    );
    assert_eq!(
        canonicalize_within(&root, "x", Some("/work/project/real/x".to_string())).unwrap(),
        "/work/project/real/x"
    );
}

#[test]
fn canonicalize_within_reports_absolute_requests_as_given() {
    let root = ProjectRoot::new("/work/project".to_string());
    match canonicalize_within(&root, "/etc/../etc/passwd", None) {
        Err(CoreError::PathEscapesRoot { requested, .. }) => assert_eq!(requested, "/etc/../etc/passwd"),
        other => panic!("expected an escape, got {other:?}"),
    }
    assert!(canonicalize_within(&root, "/work/project/src", None).is_ok());
}

#[test]
fn within_root_is_component_wise() {
    assert!(is_within_root("/work/project", "/work/project/src/a.rs"));
    assert!(is_within_root("/work/project", "/work/project"));
    assert!(!is_within_root("/work/project", "/work/projects/a.rs"));
    assert!(!is_within_root("/work/project", "work/project/a.rs"));
}

#[test]
fn normalize_path_resolves_dots() {
    assert_eq!(normalize_path("/a/./b/../c//d/"), "/a/c/d");
    assert_eq!(normalize_path("../x/y/.."), "x");
    assert_eq!(normalize_path("/.."), "/");
}

#[test]
fn project_root_keeps_its_path() {
    let root = ProjectRoot::new("/work/project".to_string());
    assert_eq!(root.as_path(), "/work/project");
}

fn signing_key_pair() -> SigningKeyPair {
    let random_generator = SystemRandom::new();
    let key_pair_document = Ed25519KeyPair::generate_pkcs8(&random_generator).unwrap();
    SigningKeyPair::new(Ed25519KeyPair::from_pkcs8(key_pair_document.as_ref()).unwrap())
}

#[test]
fn truth_token_verify_succeeds_and_tamper_fails() {
    let signing_key_pair = signing_key_pair();
    let verifying_key = VerifyingKey::from_key_pair(&signing_key_pair);
    let task_id = TaskId::new();

    let truth_token = TruthToken::new(task_id, TaskClass::BugFix, Strictness::Light, &signing_key_pair).unwrap();
    let mut tampered_truth_token = truth_token.clone();
    tampered_truth_token.task_class = TaskClass::NewFeature;

    assert!(truth_token.verify(&verifying_key));
    assert!(!tampered_truth_token.verify(&verifying_key));
}

#[test]
fn truth_token_fails_under_another_key_and_other_time() {
    let signing_key_pair = signing_key_pair();
    let other_key = VerifyingKey::from_key_pair(&signing_key_pair_other());
    let verifying_key = VerifyingKey::from_key_pair(&signing_key_pair);
    let truth_token = TruthToken::issue(TaskId(7), TaskClass::Refactor, Strictness::Strict, &signing_key_pair, -42, 7).unwrap();
    assert_eq!(truth_token.signature.len(), 64);
    assert_eq!(verifying_key.as_bytes().len(), 32);
    assert!(truth_token.verify(&verifying_key));
    assert!(!truth_token.verify(&other_key));
    let mut moved = truth_token.clone();
    moved.issued_at_secs = 42;
    assert!(!moved.verify(&verifying_key));
}

fn signing_key_pair_other() -> SigningKeyPair {
    signing_key_pair()
}

#[test]
fn canonical_payload_has_the_versioned_layout() {
    let id = TaskId(0x0123_4567_89ab_cdef_0123_4567_89ab_cdef);
    assert_eq!(id.to_text(), "01234567-89ab-cdef-0123-456789abcdef");
    assert_eq!(
        canonical_payload(id, TaskClass::BugFix, 1_700_000_000_123, Strictness::Light),
        "v1|01234567-89ab-cdef-0123-456789abcdef|bug_fix|1700000000123|light"
    );
    assert_eq!(
        canonical_payload(TaskId(0), TaskClass::Refactor, i64::MIN, Strictness::Trust),
        "v1|00000000-0000-0000-0000-000000000000|refactor|-9223372036854775808|trust"
    );
    assert_ne!(TaskId::new(), TaskId::new());
}

#[test]
fn task_ids_are_version_four_uuids() {
    let id = TaskId::new();
    assert_eq!((id.0 >> 76) & 0xf, 4);
    assert_eq!((id.0 >> 62) & 0x3, 2);
    assert_eq!(id.to_text().chars().nth(14), Some('4'));
}

#[test]
fn identifiers_parse_from_text() {
    let symbol: SymbolId = "abc123".parse().unwrap();
    assert_eq!(symbol.as_str(), "abc123");
    assert!(matches!("   ".parse::<SymbolId>(), Err(CoreError::InvalidSymbolId { .. })));
    let model: ModelId = "ollama:qwen".parse().unwrap();
    assert_eq!(model.as_str(), "ollama:qwen");
    assert!(matches!("".parse::<ModelId>(), Err(CoreError::InvalidModelId { .. })));
}

#[test]
fn timestamp_nanos_agrees_with_chrono() {
    assert_eq!(timestamp_nanos(1, 5), Some(1_000_000_005));
    assert_eq!(timestamp_nanos(-1, 500_000_000), Some(-500_000_000));
    assert_eq!(timestamp_nanos(i64::MAX, 0), None);
    for (secs, subsec) in [(0i64, 0u32), (1_700_000_000, 123), (-1, 999_999_999), (-9_223_372_037, 0), (-9_223_372_036, 145_224_192), (9_223_372_036, 854_775_807), (9_223_372_036, 854_775_808)] {
        let instant: DateTime<Utc> = DateTime::from_timestamp(secs, subsec).unwrap();
        assert_eq!(timestamp_nanos(secs, subsec), instant.timestamp_nanos_opt(), "{secs} {subsec}");
    }
}

#[test]
fn truth_token_keeps_an_issue_time_outside_the_nanosecond_range() {
    let signing_key_pair = signing_key_pair();
    let verifying_key = VerifyingKey::from_key_pair(&signing_key_pair);
    let far = TruthToken::issue(TaskId(1), TaskClass::BugFix, Strictness::Light, &signing_key_pair, 10_000_000_000, 0).unwrap();
    assert_eq!(far.issued_at_secs, 10_000_000_000);
    assert!(far.verify(&verifying_key));
    let mut zero = far.clone();
    zero.issued_at_secs = 0;
    assert!(zero.verify(&verifying_key));
}

#[test]
fn hex_encoding_decodes_back_to_the_bytes() {
    let bytes = [0x00u8, 0x0f, 0xa0, 0x7e, 0xff];
    let encoded = hex_encode(&bytes);
    assert_eq!(encoded, "000fa07eff");
    assert_eq!(encoded.len(), 2 * bytes.len());
    for (i, byte) in bytes.iter().enumerate() {
        assert_eq!(u8::from_str_radix(&encoded[2 * i..2 * i + 2], 16), Ok(*byte));
    }
    assert_ne!(hex_encode(&[0x01, 0x23]), hex_encode(&[0x12, 0x03]));
}

#[test]
fn verifying_key_is_the_key_pairs_public_key() {
    let random_generator = SystemRandom::new();
    let document = Ed25519KeyPair::generate_pkcs8(&random_generator).unwrap();
    let ring_pair = Ed25519KeyPair::from_pkcs8(document.as_ref()).unwrap();
    let expected = ring::signature::KeyPair::public_key(&ring_pair).as_ref().to_vec();
    let key_pair = SigningKeyPair::new(ring_pair);
    assert_eq!(key_pair.public_key(), expected.as_slice());
    assert_eq!(VerifyingKey::from_key_pair(&key_pair).as_bytes(), expected.as_slice());
    let bytes = vec![7u8; 32];
    assert_eq!(VerifyingKey::new(bytes.clone()).as_bytes(), bytes.as_slice());
}

#[test]
fn issued_tokens_verify_only_under_their_own_key_and_payload() {
    let key_pair = signing_key_pair();
    let key = VerifyingKey::from_key_pair(&key_pair);
    let token = TruthToken::issue(TaskId(9), TaskClass::BugFix, Strictness::Light, &key_pair, 1_700_000_000, 5).unwrap();
    assert!(token.verify(&key));
    assert!(!token.verify(&VerifyingKey::from_key_pair(&signing_key_pair_other())));
    let mut changed = token.clone();
    changed.task_id = TaskId(10);
    assert!(!changed.verify(&key));
    let mut changed = token.clone();
    changed.strictness = Strictness::Strict;
    assert!(!changed.verify(&key));
    let mut changed = token.clone();
    changed.issued_at_subsec_nanos = 6;
    assert!(!changed.verify(&key));
    let mut changed = token.clone();
    changed.signature[0] ^= 1;
    assert!(!changed.verify(&key));
}
