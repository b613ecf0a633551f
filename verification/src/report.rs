//! The decisions and the text of a directory scan: which entries are
//! skipped, how a path is written, and how each violation is reported.

use vstd::prelude::*;
use crate::check::Violation;
use crate::text::{chars_of, decimal, push_char, push_decimal, push_str, str_equal};

verus! {

/// The names of directories that a scan never enters.
pub open spec fn skipped_dir_names() -> Seq<Seq<char>> {
    seq![".git"@, "target"@, "node_modules"@, "vendor"@, "dist"@, "build"@]
}

/// Whether a directory named `name` is left out of a scan.
pub fn is_skipped_dir(name: &str) -> (r: bool)
    ensures
        r == skipped_dir_names().contains(name@),
{
    let names = [".git", "target", "node_modules", "vendor", "dist", "build"];
    let mut i: usize = 0;
    while i < 6
        invariant
            0 <= i <= 6,
            names@ == seq![".git", "target", "node_modules", "vendor", "dist", "build"],
            forall|k: int| 0 <= k < i ==> skipped_dir_names()[k] != name@,
        decreases 6 - i,
    {
        if str_equal(names[i], name) {
            assert(skipped_dir_names()[i as int] == name@);
            return true;
        }
        i += 1;
    }
    proof {
        if skipped_dir_names().contains(name@) {
            let k = choose|k: int| 0 <= k < 6 && skipped_dir_names()[k] == name@;
            assert(false);
        }
    }
    false
}

/// Whether a file named `name` is the configuration itself, which a scan
/// does not check.
pub fn is_config_file(name: &str) -> (r: bool)
    ensures
        r == (name@ == ".editorconfig"@),
{
    str_equal(name, ".editorconfig")
}

/// `c` with a backslash turned into `/`.
pub open spec fn forward_slash(c: char) -> char {
    if c == '\\' {
        '/'
    } else {
        c
    }
}

/// `path` with every backslash turned into `/`, so that globs see
/// `/`-separated paths on every platform.
pub fn normalize_separators(path: &str) -> (r: String)
    ensures
        r@ == path@.map_values(|c: char| forward_slash(c)),
{
    let chars = chars_of(path);
    let mut r = String::new();
    let mut i: usize = 0;
    while i < chars.len()
        invariant
            0 <= i <= chars@.len(),
            chars@ == path@,
            r@ == path@.take(i as int).map_values(|c: char| forward_slash(c)),
        decreases chars@.len() - i,
    {
        let c = chars[i];
        let ghost before = r@;
        if c == '\\' {
            push_char(&mut r, '/');
        } else {
            push_char(&mut r, c);
        }
        assert(path@.take(i + 1).map_values(|c: char| forward_slash(c)) =~= before.push(
            forward_slash(c),
        ));
        i += 1;
    }
    assert(path@.take(i as int) == path@);
    r
}

/// The line that reports `v` for the file at `rel_path`:
/// `path:line: rule — message`, or `path: rule — message` for a
/// file-level violation.
pub open spec fn report_text(rel_path: Seq<char>, line: Option<usize>, rule: Seq<char>, message: Seq<char>) -> Seq<char> {
    let place = match line {
        Some(n) => rel_path + ":"@ + decimal(n as nat),
        None => rel_path,
    };
    place + ": "@ + rule + " — "@ + message
}

/// The line that reports `v` for the file at `rel_path`.
pub fn report_line(rel_path: &str, v: &Violation) -> (r: String)
    ensures
        r@ == report_text(rel_path@, v.line, v.rule@, v.message@),
{
    let mut r = String::new();
    push_str(&mut r, rel_path);
    if let Some(n) = v.line {
        push_str(&mut r, ":");
        push_decimal(&mut r, n);
    }
    push_str(&mut r, ": ");
    push_str(&mut r, v.rule.as_str());
    push_str(&mut r, " — ");
    push_str(&mut r, v.message.as_str());
    r
}

/// The closing line of a scan that found `total` violations.
pub open spec fn summary_text(total: nat) -> Seq<char> {
    if total == 0 {
        "econfcheck: clean, no violations found"@
    } else {
        "\neconfcheck: "@ + decimal(total) + " violation(s) found"@
    }
}

/// The closing line of a scan that found `total` violations.
pub fn summary_line(total: usize) -> (r: String)
    ensures
        r@ == summary_text(total as nat),
{
    let mut r = String::new();
    if total == 0 {
        push_str(&mut r, "econfcheck: clean, no violations found");
    } else {
        push_str(&mut r, "\neconfcheck: ");
        push_decimal(&mut r, total);
        push_str(&mut r, " violation(s) found");
    }
    r
}

} // verus!
