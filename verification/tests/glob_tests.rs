use econfcheck::glob::glob_match;

#[test]
fn exact_filename_matches_only_itself() {
    assert!(glob_match("Makefile", "Makefile"));
    assert!(!glob_match("Makefile", "makefile"));
}

#[test]
fn star_matches_extension_at_any_depth() {
    assert!(glob_match("*.rs", "main.rs"));
    assert!(glob_match("*.rs", "src/deep/nested/lib.rs"));
    assert!(!glob_match("*.rs", "main.rs.bak"));
}

#[test]
fn star_does_not_cross_a_path_separator() {
    assert!(!glob_match("src/*.rs", "src/deep/lib.rs"));
    assert!(glob_match("src/*.rs", "src/lib.rs"));
}

#[test]
fn double_star_crosses_path_separators() {
    assert!(glob_match("src/**/*.rs", "src/a/b/c.rs"));
    assert!(glob_match("src/**/*.rs", "src/c.rs"));
}

#[test]
fn question_mark_matches_exactly_one_char_not_slash() {
    assert!(glob_match("file?.txt", "file1.txt"));
    assert!(!glob_match("file?.txt", "file12.txt"));
    assert!(!glob_match("a?b", "a/b"));
}

#[test]
fn brace_alternation_matches_any_option() {
    assert!(glob_match("*.{yml,yaml}", "config.yml"));
    assert!(glob_match("*.{yml,yaml}", "config.yaml"));
    assert!(!glob_match("*.{yml,yaml}", "config.json"));
}

#[test]
fn top_level_wildcard_matches_nested_files_too() {
    assert!(glob_match("*", "anything"));
    assert!(glob_match("*.md", "docs/nested/README.md"));
}

#[test]
fn malformed_brace_pattern_does_not_panic() {
    assert!(!glob_match("*.{yml", "config.yml"));
}

// Further cases, one for each law of the matcher.

#[test]
fn literal_pattern_with_a_slash_matches_only_the_same_path() {
    assert!(glob_match("docs/README", "docs/README"));
    assert!(!glob_match("docs/README", "x/docs/README"));
    assert!(!glob_match("docs/README", "docs/README2"));
}

#[test]
fn literal_pattern_without_a_slash_matches_a_final_component() {
    assert!(glob_match("Makefile", "sub/dir/Makefile"));
    assert!(!glob_match("Makefile", "Makefile/sub"));
}

#[test]
fn star_with_slashes_in_pattern_stays_in_one_directory() {
    assert!(glob_match("a/*", "a/b"));
    assert!(!glob_match("a/*", "a/b/c"));
    assert!(glob_match("a/*", "a/"));
}

#[test]
fn double_star_matches_any_depth_and_any_suffix() {
    assert!(glob_match("**/x.rs", "x.rs"));
    assert!(glob_match("**/x.rs", "a/b/x.rs"));
    assert!(glob_match("a/**", "a/b/c/d"));
    assert!(!glob_match("a/**/z", "b/z"));
}

#[test]
fn braces_with_a_rest_and_empty_alternatives() {
    assert!(glob_match("{a,b}/x", "b/x"));
    assert!(!glob_match("{a,b}/x", "c/x"));
    assert!(glob_match("x{,y}", "x"));
    assert!(glob_match("x{,y}", "xy"));
}

#[test]
fn unclosed_brace_never_matches() {
    assert!(!glob_match("{a", "{a"));
    assert!(!glob_match("**/{x", "a/{x"));
}

#[test]
fn question_mark_needs_a_character() {
    assert!(!glob_match("a?", "a"));
    assert!(glob_match("??", "ab"));
}

#[test]
fn question_mark_matches_a_whole_non_ascii_character() {
    assert!(glob_match("*.ü", "datei.ü"));
    assert!(glob_match("é", "é"));
    assert!(glob_match("?", "é"));
    assert!(glob_match("file?.txt", "fileé.txt"));
    assert!(glob_match("file?.txt", "file😀.txt"));
    assert!(!glob_match("??", "é"));
    assert!(glob_match("??", "éa"));
}

#[test]
fn double_star_slash_stands_for_whole_directories() {
    assert!(glob_match("src/**/lib.rs", "src/lib.rs"));
    assert!(glob_match("src/**/lib.rs", "src/a/b/lib.rs"));
    assert!(!glob_match("src/**/lib.rs", "src/mylib.rs"));
    assert!(!glob_match("src/**/lib.rs", "src/a/mylib.rs"));
    assert!(glob_match("a/**/", "a/"));
    assert!(glob_match("a/**/", "a/b/"));
    assert!(!glob_match("a/**/", "a/b"));
}

#[test]
fn slashless_pattern_is_matched_against_the_final_component_only() {
    assert!(!glob_match("a**", "ab/c"));
    assert!(glob_match("a**", "x/ab"));
    assert!(glob_match("{}", "sub/"));
}
