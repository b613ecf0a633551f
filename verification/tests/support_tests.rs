use econfcheck::check::Violation;
use econfcheck::properties::Properties;
use econfcheck::report::{
    is_config_file, is_skipped_dir, normalize_separators, report_line, summary_line,
};

#[test]
fn properties_replace_values_and_keep_one_entry_per_key() {
    let mut p = Properties::new();
    assert!(p.is_empty());
    p.insert("b".to_string(), "1".to_string());
    p.insert("a".to_string(), "2".to_string());
    p.insert("b".to_string(), "3".to_string());
    assert_eq!(p.len(), 2);
    assert_eq!(p.get("b").unwrap(), "3");
    assert_eq!(p.get("a").unwrap(), "2");
    assert!(p.get("c").is_none());
    assert!(p.contains_key("a"));
    assert!(!p.contains_key("A"));
}

#[test]
fn properties_are_equal_whatever_the_order_of_insertion() {
    let mut p = Properties::new();
    p.insert("x".to_string(), "1".to_string());
    p.insert("é".to_string(), "2".to_string());
    p.insert("a".to_string(), "3".to_string());
    let mut q = Properties::new();
    q.insert("a".to_string(), "3".to_string());
    q.insert("x".to_string(), "1".to_string());
    q.insert("é".to_string(), "2".to_string());
    assert_eq!(p, q);
    assert_eq!(p.clone(), q);
    assert_eq!(Properties::default(), Properties::new());
}

#[test]
fn merging_lets_the_other_side_win() {
    let mut p = Properties::new();
    p.insert("a".to_string(), "1".to_string());
    p.insert("b".to_string(), "1".to_string());
    let mut q = Properties::new();
    q.insert("b".to_string(), "2".to_string());
    q.insert("c".to_string(), "2".to_string());
    p.merge_from(&q);
    assert_eq!(p.len(), 3);
    assert_eq!(p.get("a").unwrap(), "1");
    assert_eq!(p.get("b").unwrap(), "2");
    assert_eq!(p.get("c").unwrap(), "2");
}

#[test]
fn scans_skip_tool_directories_and_the_config_itself() {
    for name in [".git", "target", "node_modules", "vendor", "dist", "build"] {
        assert!(is_skipped_dir(name));
    }
    assert!(!is_skipped_dir("src"));
    assert!(!is_skipped_dir("Build"));
    assert!(is_config_file(".editorconfig"));
    assert!(!is_config_file("editorconfig"));
}

#[test]
fn backslashes_become_slashes() {
    assert_eq!(normalize_separators("a\\b\\c.rs"), "a/b/c.rs");
    assert_eq!(normalize_separators("plain/path"), "plain/path");
}

#[test]
fn report_lines_carry_the_line_when_there_is_one() {
    let v = Violation {
        line: Some(12),
        rule: "indent_style".to_string(),
        message: "m".to_string(),
    };
    assert_eq!(report_line("src/a.rs", &v), "src/a.rs:12: indent_style — m");
    let w = Violation {
        line: None,
        rule: "insert_final_newline".to_string(),
        message: "file does not end with a newline".to_string(),
    };
    assert_eq!(
        report_line("b.txt", &w),
        "b.txt: insert_final_newline — file does not end with a newline"
    );
}

#[test]
fn summary_counts_violations() {
    assert_eq!(summary_line(0), "econfcheck: clean, no violations found");
    assert_eq!(summary_line(1), "\neconfcheck: 1 violation(s) found");
    assert_eq!(summary_line(1204), "\neconfcheck: 1204 violation(s) found");
}
