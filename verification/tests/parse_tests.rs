use econfcheck::parse::{effective_properties, parse, EditorConfig};

#[test]
fn parses_root_and_a_single_section() {
    let cfg = parse("root = true\n\n[*]\nindent_style = space\nindent_size = 2\n");
    assert!(cfg.root);
    assert_eq!(cfg.sections.len(), 1);
    assert_eq!(cfg.sections[0].glob, "*");
    assert_eq!(
        cfg.sections[0].properties.get("indent_style").unwrap(),
        "space"
    );
    assert_eq!(cfg.sections[0].properties.get("indent_size").unwrap(), "2");
}

#[test]
fn root_defaults_to_false_when_absent() {
    let cfg = parse("[*]\nindent_style = tab\n");
    assert!(!cfg.root);
}

#[test]
fn comments_and_blank_lines_are_ignored() {
    let cfg =
        parse("; a semicolon comment\n# a hash comment\n\n[*.rs]\nindent_style = space\n");
    assert_eq!(cfg.sections.len(), 1);
}

#[test]
fn keys_and_values_are_lowercased_and_trimmed() {
    let cfg = parse("[*]\n  Indent_Style  =  SPACE  \n");
    assert_eq!(
        cfg.sections[0].properties.get("indent_style").unwrap(),
        "space"
    );
}

#[test]
fn a_malformed_line_is_skipped_not_fatal() {
    let cfg = parse("[*]\nnot_a_property_line\nindent_style = tab\n");
    assert_eq!(cfg.sections[0].properties.len(), 1);
}

#[test]
fn later_section_overrides_earlier_for_the_same_matching_file() {
    let cfg = parse("[*]\nindent_style = space\n\n[*.md]\nindent_style = tab\n");
    let props = effective_properties(&cfg, "README.md");
    assert_eq!(props.get("indent_style").unwrap(), "tab");
}

#[test]
fn non_matching_section_does_not_contribute_properties() {
    let cfg = parse("[*.py]\nindent_style = space\n");
    let props = effective_properties(&cfg, "main.rs");
    assert!(!props.contains_key("indent_style"));
}

#[test]
fn a_property_before_any_section_header_is_ignored() {
    let cfg = parse("indent_style = tab\n[*]\nindent_size = 4\n");
    let props = effective_properties(&cfg, "x");
    assert!(!props.contains_key("indent_style"));
    assert_eq!(props.get("indent_size").unwrap(), "4");
}

// Further cases.

#[test]
fn root_is_not_set_inside_a_section() {
    let cfg = parse("[*]\nroot = true\n");
    assert!(!cfg.root);
    assert_eq!(cfg.sections[0].properties.get("root").unwrap(), "true");
}

#[test]
fn the_last_root_line_before_any_section_decides() {
    assert!(!parse("root = true\nroot = false\n").root);
    assert!(parse("ROOT = TRUE\n").root);
    assert!(!parse("root = yes\n").root);
}

#[test]
fn a_comment_cuts_a_line_short_anywhere() {
    let cfg = parse("[*]\nindent_size = 4 # four\nkey; = v\n");
    assert_eq!(cfg.sections[0].properties.get("indent_size").unwrap(), "4");
    assert_eq!(cfg.sections[0].properties.len(), 1);
}

#[test]
fn headers_need_both_brackets() {
    let cfg = parse("[\n[]\n[*.rs\n [ *.md ] \n");
    assert_eq!(cfg.sections.len(), 2);
    assert_eq!(cfg.sections[0].glob, "");
    assert_eq!(cfg.sections[1].glob, " *.md ");
}

#[test]
fn value_splits_at_the_first_equals_sign() {
    let cfg = parse("[*]\na = b = c\n = empty key\n");
    let props = &cfg.sections[0].properties;
    assert_eq!(props.get("a").unwrap(), "b = c");
    assert_eq!(props.get("").unwrap(), "empty key");
    assert_eq!(props.len(), 2);
}

#[test]
fn crlf_lines_and_a_missing_final_newline_parse_the_same() {
    let cfg = parse("[*]\r\nindent_style = tab\r\nindent_size = 8");
    let props = &cfg.sections[0].properties;
    assert_eq!(props.get("indent_style").unwrap(), "tab");
    assert_eq!(props.get("indent_size").unwrap(), "8");
}

#[test]
fn a_later_line_in_one_section_overrides_an_earlier_one() {
    let cfg = parse("[*]\nindent_style = tab\nINDENT_STYLE = space\n");
    assert_eq!(cfg.sections[0].properties.get("indent_style").unwrap(), "space");
    assert_eq!(cfg.sections[0].properties.len(), 1);
}

#[test]
fn effective_properties_merge_all_matching_sections() {
    let cfg = parse("[*]\na = 1\nb = 1\n[*.rs]\nb = 2\nc = 2\n[*.md]\nc = 3\n");
    let props = effective_properties(&cfg, "src/lib.rs");
    assert_eq!(props.get("a").unwrap(), "1");
    assert_eq!(props.get("b").unwrap(), "2");
    assert_eq!(props.get("c").unwrap(), "2");
    assert_eq!(props.len(), 3);
}

#[test]
fn an_empty_config_applies_nothing() {
    let cfg = EditorConfig::default();
    assert!(!cfg.root);
    assert!(effective_properties(&cfg, "a.rs").is_empty());
    assert_eq!(parse(""), EditorConfig::default());
}

#[test]
fn unicode_white_space_is_trimmed_and_case_is_folded() {
    let cfg = parse("[*]\n\u{3000}Key\u{a0}=\u{2003}ÄBC\t\n");
    let props = &cfg.sections[0].properties;
    assert_eq!(props.get("key").unwrap(), "äbc");
}

#[test]
fn other_characters_are_not_trimmed() {
    let cfg = parse("[*]\nkey = \u{200b}v\n");
    assert_eq!(cfg.sections[0].properties.get("key").unwrap(), "\u{200b}v");
}
