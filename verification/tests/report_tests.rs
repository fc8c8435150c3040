//! Tests of the report aggregator: listing, summary tallies and ranking,
//! search filtering, and the end-to-end two-file scenario.

use code_status_scanner::matcher::{scan_files, MarkerInstance, SourceFile};
use code_status_scanner::report::{list_all, search, summarize, CountEntry};
use code_status_scanner::vocab::default_vocabulary;

fn count_of(entries: &[CountEntry], key: &str) -> Option<usize> {
    entries.iter().find(|e| e.key == key).map(|e| e.count)
}

fn sample_instances() -> Vec<MarkerInstance> {
    let vocab = default_vocabulary();
    let files = vec![
        SourceFile {
            path: "a.rs".to_string(),
            content: "#[untested]\n#[untested]\n#[temporary]\n".to_string(),
        },
        SourceFile {
            path: "b.rs".to_string(),
            content: "#[untested]\n#[temporary]\n#[perf_critical]\n".to_string(),
        },
    ];
    scan_files(&files, &vocab)
}

#[test]
fn list_all_returns_instances_unchanged() {
    let instances = sample_instances();
    let listed = list_all(&instances).unwrap();
    assert_eq!(listed.len(), instances.len());
    for (x, y) in listed.iter().zip(instances.iter()) {
        assert_eq!(x.file_path, y.file_path);
        assert_eq!(x.line_number, y.line_number);
        assert_eq!(x.marker_name, y.marker_name);
    }
}

#[test]
fn list_all_reports_nothing_found_on_empty_input() {
    assert!(list_all(&Vec::new()).is_none());
}

#[test]
fn summarize_reports_nothing_found_on_empty_input() {
    assert!(summarize(&Vec::new()).is_none());
}

#[test]
fn summary_counts_are_consistent() {
    let instances = sample_instances();
    let s = summarize(&instances).unwrap();
    assert_eq!(s.total_instances, 6);
    let marker_sum: usize = s.counts_by_marker.iter().map(|e| e.count).sum();
    let file_sum: usize = s.counts_by_file.iter().map(|e| e.count).sum();
    assert_eq!(marker_sum, s.total_instances);
    assert_eq!(file_sum, s.total_instances);
    assert_eq!(count_of(&s.counts_by_marker, "untested"), Some(3));
    assert_eq!(count_of(&s.counts_by_marker, "temporary"), Some(2));
    assert_eq!(count_of(&s.counts_by_marker, "perf_critical"), Some(1));
    assert_eq!(count_of(&s.counts_by_marker, "needs"), None);
    assert_eq!(count_of(&s.counts_by_file, "a.rs"), Some(3));
    assert_eq!(count_of(&s.counts_by_file, "b.rs"), Some(3));
}

#[test]
fn top_files_rank_by_count_with_discovery_tie_break() {
    let vocab = default_vocabulary();
    let mut files = Vec::new();
    for name in ["f1.rs", "f2.rs", "f3.rs", "f4.rs", "f5.rs", "f6.rs"] {
        files.push(SourceFile {
            path: name.to_string(),
            content: "#[untested]\n".to_string(),
        });
    }
    files.push(SourceFile {
        path: "big.rs".to_string(),
        content: "#[untested]\n#[untested]\n".to_string(),
    });
    let instances = scan_files(&files, &vocab);
    let s = summarize(&instances).unwrap();
    assert_eq!(s.top_files.len(), 5);
    assert_eq!(s.top_files[0].key, "big.rs");
    assert_eq!(s.top_files[0].count, 2);
    assert_eq!(s.top_files[1].key, "f1.rs");
    assert_eq!(s.top_files[2].key, "f2.rs");
    assert_eq!(s.top_files[3].key, "f3.rs");
    assert_eq!(s.top_files[4].key, "f4.rs");
}

#[test]
fn search_keeps_only_requested_markers() {
    let vocab = default_vocabulary();
    let files = vec![SourceFile {
        path: "a.rs".to_string(),
        content: "#[untested]\n#[untested]\n#[untested]\n#[temporary]\n#[temporary]\n#[perf_critical]\n"
            .to_string(),
    }];
    let instances = scan_files(&files, &vocab);
    let found = search(&instances, "untested,temporary").unwrap();
    assert_eq!(found.len(), 5);
    assert!(found.iter().all(|i| i.marker_name != "perf_critical"));
}

#[test]
fn search_trims_requested_names() {
    let instances = sample_instances();
    let found = search(&instances, "  perf_critical , nothing ").unwrap();
    assert_eq!(found.len(), 1);
    assert_eq!(found[0].marker_name, "perf_critical");
}

#[test]
fn search_with_no_matches_reports_none() {
    let instances = sample_instances();
    assert!(search(&instances, "deadlock_risk").is_none());
    assert!(search(&Vec::new(), "untested").is_none());
}

#[test]
fn two_file_end_to_end_summary() {
    let vocab = default_vocabulary();
    let files = vec![
        SourceFile {
            path: "a.rs".to_string(),
            content: "#[security_sensitive]\n#[needs_review]\nfn f() {}\n".to_string(),
        },
        SourceFile {
            path: "b.rs".to_string(),
            content: "#[untested]\nx\n#[untested]\ny\n#[untested]\nz\n".to_string(),
        },
    ];
    let instances = scan_files(&files, &vocab);
    let s = summarize(&instances).unwrap();
    assert_eq!(s.total_instances, 5);
    assert_eq!(count_of(&s.counts_by_marker, "security_sensitive"), Some(1));
    assert_eq!(count_of(&s.counts_by_marker, "needs_review"), Some(1));
    assert_eq!(count_of(&s.counts_by_marker, "untested"), Some(3));
    assert_eq!(s.counts_by_marker.len(), 3);
    assert_eq!(count_of(&s.counts_by_file, "a.rs"), Some(2));
    assert_eq!(count_of(&s.counts_by_file, "b.rs"), Some(3));
    assert_eq!(s.counts_by_file.len(), 2);
    assert_eq!(s.top_files.len(), 2);
    assert_eq!(s.top_files[0].key, "b.rs");
    assert_eq!(s.top_files[1].key, "a.rs");
}
