//! Tests of the configuration and the file selector: suffix, depth,
//! default-directory, inclusion and exclusion rules.

use code_status_scanner::selector::{
    accept_entry, default_exclude_dirs, select_files, ConfigError, FileEntry, ScanConfig,
};
use code_status_scanner::vocab::default_vocabulary;

fn base_config() -> ScanConfig {
    ScanConfig::new(
        ".".to_string(),
        None,
        None,
        None,
        true,
        ".rs".to_string(),
        default_vocabulary(),
    )
    .unwrap()
}

fn entry(path: &str, depth: usize, is_file: bool) -> FileEntry {
    FileEntry { path: path.to_string(), depth, is_file }
}

#[test]
fn default_vocabulary_is_accepted_and_complete() {
    let vocab = default_vocabulary();
    assert_eq!(vocab.len(), 20);
    assert_eq!(vocab[0], "untested");
    assert!(vocab.contains(&"benchmark_candidate".to_string()));
    assert!(base_config().vocabulary.len() == 20);
}

#[test]
fn invalid_include_pattern_is_rejected_first() {
    let err = ScanConfig::new(
        ".".to_string(),
        Some("(".to_string()),
        Some(")".to_string()),
        None,
        true,
        ".rs".to_string(),
        default_vocabulary(),
    );
    assert!(matches!(err, Err(ConfigError::InvalidIncludePattern)));
}

#[test]
fn invalid_exclude_pattern_is_rejected() {
    let err = ScanConfig::new(
        ".".to_string(),
        Some("ok".to_string()),
        Some("(".to_string()),
        None,
        true,
        ".rs".to_string(),
        default_vocabulary(),
    );
    assert!(matches!(err, Err(ConfigError::InvalidExcludePattern)));
}

#[test]
fn duplicate_marker_name_is_rejected() {
    let mut vocab = default_vocabulary();
    vocab.push("untested".to_string());
    let err = ScanConfig::new(
        ".".to_string(),
        None,
        None,
        None,
        true,
        ".rs".to_string(),
        vocab,
    );
    assert!(matches!(err, Err(ConfigError::DuplicateMarkerName)));
}

#[test]
fn accepts_only_rust_files() {
    let cfg = base_config();
    assert!(accept_entry(&cfg, &entry("src/main.rs", 1, true)));
    assert!(!accept_entry(&cfg, &entry("src/main.py", 1, true)));
    assert!(!accept_entry(&cfg, &entry("src", 0, false)));
    assert!(!accept_entry(&cfg, &entry("notes.rs.txt", 0, true)));
}

#[test]
fn depth_zero_keeps_only_root_files() {
    let cfg = ScanConfig::new(
        ".".to_string(),
        None,
        None,
        Some(0),
        true,
        ".rs".to_string(),
        default_vocabulary(),
    )
    .unwrap();
    let entries = vec![entry("top.rs", 0, true), entry("sub/below.rs", 1, true)];
    let selected = select_files(&cfg, &entries);
    assert_eq!(selected, vec!["top.rs".to_string()]);
}

#[test]
fn unbounded_depth_keeps_deep_files() {
    let cfg = base_config();
    assert!(accept_entry(&cfg, &entry("a/b/c/d/e.rs", 4, true)));
}

#[test]
fn default_directories_are_skipped_when_enabled() {
    let cfg = base_config();
    assert!(!accept_entry(&cfg, &entry("target/debug/x.rs", 2, true)));
    assert!(!accept_entry(&cfg, &entry("web/node_modules/y.rs", 2, true)));
    assert!(!accept_entry(&cfg, &entry(".git/hook.rs", 1, true)));
}

#[test]
fn default_directories_are_kept_when_disabled() {
    let cfg = ScanConfig::new(
        ".".to_string(),
        None,
        None,
        None,
        false,
        ".rs".to_string(),
        default_vocabulary(),
    )
    .unwrap();
    assert!(accept_entry(&cfg, &entry("target/debug/x.rs", 2, true)));
}

#[test]
fn include_pattern_restricts_selection() {
    let cfg = ScanConfig::new(
        ".".to_string(),
        Some("core/".to_string()),
        None,
        None,
        true,
        ".rs".to_string(),
        default_vocabulary(),
    )
    .unwrap();
    assert!(accept_entry(&cfg, &entry("src/core/lib.rs", 2, true)));
    assert!(!accept_entry(&cfg, &entry("src/extra/lib.rs", 2, true)));
}

#[test]
fn exclude_pattern_removes_matches() {
    let cfg = ScanConfig::new(
        ".".to_string(),
        None,
        Some("_gen\\.rs$".to_string()),
        None,
        true,
        ".rs".to_string(),
        default_vocabulary(),
    )
    .unwrap();
    assert!(!accept_entry(&cfg, &entry("src/types_gen.rs", 1, true)));
    assert!(accept_entry(&cfg, &entry("src/types.rs", 1, true)));
}

#[test]
fn include_and_exclude_compose() {
    let cfg = ScanConfig::new(
        ".".to_string(),
        Some("^src/".to_string()),
        Some("test".to_string()),
        None,
        true,
        ".rs".to_string(),
        default_vocabulary(),
    )
    .unwrap();
    let entries = vec![
        entry("src/a.rs", 1, true),
        entry("src/a_test.rs", 1, true),
        entry("lib/b.rs", 1, true),
    ];
    assert_eq!(select_files(&cfg, &entries), vec!["src/a.rs".to_string()]);
}

#[test]
fn selection_keeps_traversal_order() {
    let cfg = base_config();
    let entries = vec![
        entry("z.rs", 0, true),
        entry("skip.txt", 0, true),
        entry("a.rs", 0, true),
    ];
    assert_eq!(
        select_files(&cfg, &entries),
        vec!["z.rs".to_string(), "a.rs".to_string()]
    );
}

#[test]
fn default_exclude_list_matches_the_documented_set() {
    let dirs = default_exclude_dirs();
    assert_eq!(
        dirs,
        vec![
            "target/".to_string(),
            "node_modules/".to_string(),
            ".git/".to_string(),
            ".idea/".to_string(),
            ".vscode/".to_string(),
            "dist/".to_string(),
            "build/".to_string(),
        ]
    );
}
