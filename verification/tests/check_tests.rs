use econfcheck::check::check_content;
use econfcheck::properties::Properties;

fn props(pairs: &[(&str, &str)]) -> Properties {
    let mut p = Properties::new();
    for (k, v) in pairs {
        p.insert(k.to_string(), v.to_string());
    }
    p
}

#[test]
fn flags_a_tab_indented_line_when_space_style_expected() {
    let v = check_content(
        "fn x() {\n\tlet a = 1;\n}\n",
        b"fn x() {\n\tlet a = 1;\n}\n",
        &props(&[("indent_style", "space")]),
    );
    assert_eq!(v.len(), 1);
    assert_eq!(v[0].rule, "indent_style");
    assert_eq!(v[0].line, Some(2));
}

#[test]
fn space_indented_file_passes_space_style() {
    let content = "fn x() {\n    let a = 1;\n}\n";
    let v = check_content(
        content,
        content.as_bytes(),
        &props(&[("indent_style", "space")]),
    );
    assert!(v.is_empty());
}

#[test]
fn flags_indent_not_a_multiple_of_configured_size() {
    let content = "a\n   b\n";
    let v = check_content(
        content,
        content.as_bytes(),
        &props(&[("indent_style", "space"), ("indent_size", "4")]),
    );
    assert_eq!(v.len(), 1);
    assert_eq!(v[0].rule, "indent_size");
}

#[test]
fn tab_indented_line_is_exempt_from_indent_size_check() {
    let content = "\tx\n";
    let v = check_content(
        content,
        content.as_bytes(),
        &props(&[("indent_style", "space"), ("indent_size", "4")]),
    );
    assert!(v.iter().all(|x| x.rule != "indent_size"));
}

#[test]
fn flags_trailing_whitespace_on_exactly_the_right_line() {
    let content = "clean\ndirty   \nclean\n";
    let v = check_content(
        content,
        content.as_bytes(),
        &props(&[("trim_trailing_whitespace", "true")]),
    );
    assert_eq!(v.len(), 1);
    assert_eq!(v[0].line, Some(2));
}

#[test]
fn does_not_check_trailing_whitespace_when_rule_absent() {
    let content = "dirty   \n";
    let v = check_content(content, content.as_bytes(), &Properties::new());
    assert!(v.is_empty());
}

#[test]
fn flags_missing_final_newline() {
    let content = "no newline at end";
    let v = check_content(
        content,
        content.as_bytes(),
        &props(&[("insert_final_newline", "true")]),
    );
    assert_eq!(v.len(), 1);
    assert_eq!(v[0].rule, "insert_final_newline");
}

#[test]
fn does_not_flag_final_newline_when_present() {
    let content = "has one\n";
    let v = check_content(
        content,
        content.as_bytes(),
        &props(&[("insert_final_newline", "true")]),
    );
    assert!(v.is_empty());
}

#[test]
fn empty_file_never_flags_missing_final_newline() {
    let v = check_content("", b"", &props(&[("insert_final_newline", "true")]));
    assert!(v.is_empty());
}

#[test]
fn flags_crlf_line_when_lf_expected() {
    let raw = b"a\r\nb\n";
    let v = check_content("a\r\nb\n", raw, &props(&[("end_of_line", "lf")]));
    assert_eq!(v.len(), 1);
    assert_eq!(v[0].line, Some(1));
}

#[test]
fn flags_lf_line_when_crlf_expected() {
    let raw = b"a\nb\r\n";
    let v = check_content("a\nb\r\n", raw, &props(&[("end_of_line", "crlf")]));
    assert_eq!(v.len(), 1);
    assert_eq!(v[0].line, Some(1));
}

#[test]
fn consistent_crlf_file_passes_crlf_rule() {
    let raw = b"a\r\nb\r\n";
    let v = check_content("a\r\nb\r\n", raw, &props(&[("end_of_line", "crlf")]));
    assert!(v.is_empty());
}

#[test]
fn no_properties_means_no_violations_at_all() {
    let content = "\tanything   \nwith no final newline";
    let v = check_content(content, content.as_bytes(), &Properties::new());
    assert!(v.is_empty());
}

#[test]
fn multiple_rule_violations_on_one_file_all_reported() {
    let content = "\tbad   \nfine";
    let v = check_content(
        content,
        content.as_bytes(),
        &props(&[
            ("indent_style", "space"),
            ("trim_trailing_whitespace", "true"),
            ("insert_final_newline", "true"),
        ]),
    );
    let rules: Vec<&str> = v.iter().map(|x| x.rule.as_str()).collect();
    assert!(rules.contains(&"indent_style"));
    assert!(rules.contains(&"trim_trailing_whitespace"));
    assert!(rules.contains(&"insert_final_newline"));
}

// Further cases: exact messages, order, and edge cases.

#[test]
fn messages_name_the_expected_setting() {
    let content = "\tx\n  y\n   z\r\n";
    let v = check_content(
        content,
        content.as_bytes(),
        &props(&[("indent_style", "space"), ("indent_size", "2"), ("end_of_line", "lf")]),
    );
    assert_eq!(v.len(), 3);
    assert_eq!(v[0].rule, "indent_style");
    assert_eq!(v[0].message, "expected space indentation, found a leading '\t'");
    assert_eq!(v[1].rule, "indent_size");
    assert_eq!(v[1].line, Some(3));
    assert_eq!(v[1].message, "indented 3 spaces, not a multiple of 2");
    assert_eq!(v[2].rule, "end_of_line");
    assert_eq!(v[2].line, Some(3));
    assert_eq!(v[2].message, "expected lf line ending");
}

#[test]
fn tab_style_flags_space_indentation() {
    let content = "a\n b\n\tc\n";
    let v = check_content(content, content.as_bytes(), &props(&[("indent_style", "tab")]));
    assert_eq!(v.len(), 1);
    assert_eq!(v[0].line, Some(2));
    assert_eq!(v[0].message, "expected tab indentation, found a leading ' '");
}

#[test]
fn a_tab_after_leading_spaces_is_allowed_under_space_style() {
    let content = "  \tx\n";
    let v = check_content(content, content.as_bytes(), &props(&[("indent_style", "space")]));
    assert!(v.is_empty());
}

#[test]
fn indent_size_needs_space_style_and_a_number() {
    let content = "   x\n";
    for p in [
        props(&[("indent_size", "4")]),
        props(&[("indent_style", "tab"), ("indent_size", "4")]),
        props(&[("indent_style", "space"), ("indent_size", "tab")]),
        props(&[("indent_style", "space"), ("indent_size", "0")]),
    ] {
        let v = check_content(content, content.as_bytes(), &p);
        assert!(v.iter().all(|x| x.rule != "indent_size"));
    }
    let v = check_content(
        content,
        content.as_bytes(),
        &props(&[("indent_style", "space"), ("indent_size", "+2")]),
    );
    assert_eq!(v.len(), 1);
    assert_eq!(v[0].message, "indented 3 spaces, not a multiple of 2");
}

#[test]
fn trailing_tab_counts_and_other_rules_need_true() {
    let content = "a\t\nb\n";
    let v = check_content(
        content,
        content.as_bytes(),
        &props(&[("trim_trailing_whitespace", "true")]),
    );
    assert_eq!(v.len(), 1);
    assert_eq!(v[0].line, Some(1));
    assert_eq!(v[0].message, "trailing whitespace");
    let v = check_content(
        content,
        content.as_bytes(),
        &props(&[("trim_trailing_whitespace", "false"), ("insert_final_newline", "yes")]),
    );
    assert!(v.is_empty());
}

#[test]
fn missing_final_newline_is_file_level() {
    let v = check_content("x", b"x", &props(&[("insert_final_newline", "true")]));
    assert_eq!(v[0].line, None);
    assert_eq!(v[0].message, "file does not end with a newline");
}

#[test]
fn line_endings_are_read_from_the_bytes() {
    let raw = b"\n\r\nx\n";
    let v = check_content("", raw, &props(&[("end_of_line", "crlf")]));
    assert_eq!(v.len(), 2);
    assert_eq!(v[0].line, Some(1));
    assert_eq!(v[1].line, Some(3));
    assert_eq!(v[1].message, "expected crlf line ending");
}

#[test]
fn crlf_line_endings_are_not_trailing_whitespace() {
    let content = "a\r\nb \r\nc\r\n";
    let v = check_content(
        content,
        content.as_bytes(),
        &props(&[("trim_trailing_whitespace", "true"), ("indent_style", "tab")]),
    );
    assert_eq!(v.len(), 1);
    assert_eq!(v[0].line, Some(2));
    assert_eq!(v[0].rule, "trim_trailing_whitespace");
}

#[test]
fn indent_size_that_does_not_parse_is_not_checked() {
    let content = "   x\n";
    for size in ["+", "-2", "", " 2", "18446744073709551616", "99999999999999999999"] {
        let v = check_content(
            content,
            content.as_bytes(),
            &props(&[("indent_style", "space"), ("indent_size", size)]),
        );
        assert!(v.is_empty());
    }
    let v = check_content(
        content,
        content.as_bytes(),
        &props(&[("indent_style", "space"), ("indent_size", "0002")]),
    );
    assert_eq!(v.len(), 1);
}
