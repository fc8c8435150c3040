//! Tests of the annotation matcher: boundary anchoring, argument
//! normalization, context extraction, line splitting and ordering.

use code_status_scanner::matcher::{scan_file, scan_files, MarkerInstance, SourceFile};
use code_status_scanner::text::{split_lines, trim_str};
use code_status_scanner::vocab::default_vocabulary;

fn names(instances: &[MarkerInstance]) -> Vec<String> {
    instances.iter().map(|i| i.marker_name.clone()).collect()
}

#[test]
fn matches_plain_marker_with_argument() {
    let vocab = default_vocabulary();
    let out = scan_file("a.rs", "#[needs(\"refactor\")]", &vocab);
    assert_eq!(out.len(), 1);
    assert_eq!(out[0].marker_name, "needs");
    assert_eq!(out[0].argument.as_deref(), Some("refactor"));
    assert_eq!(out[0].line_number, 1);
    assert_eq!(out[0].file_path, "a.rs");
}

#[test]
fn prefix_name_does_not_match_longer_marker() {
    let vocab = default_vocabulary();
    let out = scan_file("a.rs", "#[needs_review]", &vocab);
    assert_eq!(out.len(), 1);
    assert_eq!(out[0].marker_name, "needs_review");
    assert!(out.iter().all(|i| i.marker_name != "needs"));
}

#[test]
fn marker_without_argument() {
    let vocab = default_vocabulary();
    let out = scan_file("a.rs", "#[untested]\nfn f() {}\n", &vocab);
    assert_eq!(out.len(), 1);
    assert_eq!(out[0].marker_name, "untested");
    assert_eq!(out[0].argument, None);
    assert_eq!(out[0].context, "fn f() {}");
}

#[test]
fn empty_and_blank_arguments_are_absent() {
    let vocab = default_vocabulary();
    let out = scan_file("a.rs", "#[needs()]\n#[needs(\"\")]\n#[needs(   )]\n", &vocab);
    assert_eq!(out.len(), 3);
    for inst in &out {
        assert_eq!(inst.argument, None);
    }
}

#[test]
fn argument_is_trimmed_and_unquoted() {
    let vocab = default_vocabulary();
    let out = scan_file("a.rs", "#[complexity(  \"high: nested loops\"  )]", &vocab);
    assert_eq!(out.len(), 1);
    assert_eq!(out[0].argument.as_deref(), Some("high: nested loops"));
    let out2 = scan_file("a.rs", "#[needs(bare words)]", &vocab);
    assert_eq!(out2[0].argument.as_deref(), Some("bare words"));
}

#[test]
fn unterminated_annotation_does_not_match() {
    let vocab = default_vocabulary();
    assert_eq!(scan_file("a.rs", "#[needs(\"open", &vocab).len(), 0);
    assert_eq!(scan_file("a.rs", "#[needs", &vocab).len(), 0);
    assert_eq!(scan_file("a.rs", "#[needs(x)y]", &vocab).len(), 0);
}

#[test]
fn context_is_empty_on_last_line() {
    let vocab = default_vocabulary();
    let out = scan_file("a.rs", "fn f() {}\n#[untested]", &vocab);
    assert_eq!(out.len(), 1);
    assert_eq!(out[0].line_number, 2);
    assert_eq!(out[0].context, "");
}

#[test]
fn context_is_trimmed_following_line() {
    let vocab = default_vocabulary();
    let out = scan_file("a.rs", "#[untested]\n    fn deep() {}   \n", &vocab);
    assert_eq!(out[0].context, "fn deep() {}");
}

#[test]
fn two_markers_on_one_line_follow_vocabulary_order() {
    let vocab = default_vocabulary();
    let out = scan_file("a.rs", "#[temporary] #[untested]", &vocab);
    assert_eq!(names(&out), vec!["untested".to_string(), "temporary".to_string()]);
    assert_eq!(out[0].line_number, 1);
    assert_eq!(out[1].line_number, 1);
}

#[test]
fn same_marker_twice_on_one_line_gives_two_instances() {
    let vocab = default_vocabulary();
    let out = scan_file("a.rs", "#[untested] #[untested]", &vocab);
    assert_eq!(out.len(), 2);
    assert_eq!(out[0].marker_name, "untested");
    assert_eq!(out[1].marker_name, "untested");
}

#[test]
fn instances_are_ordered_by_line() {
    let vocab = default_vocabulary();
    let out = scan_file("a.rs", "#[temporary]\nx\n#[untested]\ny\n", &vocab);
    assert_eq!(names(&out), vec!["temporary".to_string(), "untested".to_string()]);
    assert_eq!(out[0].line_number, 1);
    assert_eq!(out[1].line_number, 3);
}

#[test]
fn scan_files_concatenates_in_discovery_order() {
    let vocab = default_vocabulary();
    let files = vec![
        SourceFile { path: "b.rs".to_string(), content: "#[untested]".to_string() },
        SourceFile { path: "a.rs".to_string(), content: "#[temporary]".to_string() },
    ];
    let out = scan_files(&files, &vocab);
    assert_eq!(out.len(), 2);
    assert_eq!(out[0].file_path, "b.rs");
    assert_eq!(out[1].file_path, "a.rs");
}

#[test]
fn scanning_twice_yields_identical_sequence() {
    let vocab = default_vocabulary();
    let files = vec![
        SourceFile {
            path: "a.rs".to_string(),
            content: "#[needs(\"x\")]\n#[untested]\nfn f() {}\n".to_string(),
        },
        SourceFile { path: "b.rs".to_string(), content: "#[temporary]".to_string() },
    ];
    let first = scan_files(&files, &vocab);
    let second = scan_files(&files, &vocab);
    assert_eq!(first.len(), second.len());
    for (x, y) in first.iter().zip(second.iter()) {
        assert_eq!(x.file_path, y.file_path);
        assert_eq!(x.line_number, y.line_number);
        assert_eq!(x.marker_name, y.marker_name);
        assert_eq!(x.argument, y.argument);
        assert_eq!(x.context, y.context);
    }
}

#[test]
fn non_rust_attribute_like_text_does_not_match() {
    let vocab = default_vocabulary();
    assert_eq!(scan_file("a.rs", "#[derive(Debug)]\nuntested here\n", &vocab).len(), 0);
}

#[test]
fn annotation_matches_anywhere_on_the_line() {
    let vocab = default_vocabulary();
    let out = scan_file("a.rs", "    #[untested] // pending", &vocab);
    assert_eq!(out.len(), 1);
    assert_eq!(out[0].marker_name, "untested");
}

#[test]
fn space_between_name_and_delimiter_does_not_match() {
    let vocab = default_vocabulary();
    assert_eq!(scan_file("a.rs", "#[untested ]", &vocab).len(), 0);
    assert_eq!(scan_file("a.rs", "#[needs (\"x\")]", &vocab).len(), 0);
}

#[test]
fn crlf_content_scans_like_lf_content() {
    let vocab = default_vocabulary();
    let out = scan_file("a.rs", "#[untested]\r\n  fn f() {}\r\n", &vocab);
    assert_eq!(out.len(), 1);
    assert_eq!(out[0].line_number, 1);
    assert_eq!(out[0].context, "fn f() {}");
}

#[test]
fn split_lines_handles_crlf_and_trailing_newline() {
    assert_eq!(split_lines("a\r\nb\n"), vec!["a".to_string(), "b".to_string()]);
    assert_eq!(split_lines("a\nb"), vec!["a".to_string(), "b".to_string()]);
    assert_eq!(split_lines(""), Vec::<String>::new());
    assert_eq!(split_lines("a\n\n"), vec!["a".to_string(), "".to_string()]);
    assert_eq!(split_lines("tail\r"), vec!["tail\r".to_string()]);
}

#[test]
fn trim_str_removes_surrounding_whitespace() {
    assert_eq!(trim_str("  x y\t"), "x y");
    assert_eq!(trim_str("\t \r\n"), "");
    assert_eq!(trim_str("plain"), "plain");
}
