//! Checks one file's bytes against its effective EditorConfig properties
//! (see `parse::effective_properties`) and reports every violation found:
//! line-numbered where the violation is per-line (trailing whitespace,
//! indentation), file-level where it is not (final newline), and by line
//! for line endings.

use vstd::prelude::*;
use crate::properties::Properties;
use crate::text::{
    chars_of, decimal, line_ranges, lines_of, parse_usize, push_char, push_decimal, push_str,
    range_texts, str_equal, usize_text, to_crlf, law_crlf_endings_keep_the_lines,
};

verus! {

/// `\n`.
pub const LF: u8 = 10;
/// `\r`.
pub const CR: u8 = 13;

/// One broken rule: where (a 1-based line, or none for the whole file),
/// which property, and a message for people.
#[derive(Debug, Clone, PartialEq, Eq)]
pub struct Violation {
    pub line: Option<usize>,
    pub rule: String,
    pub message: String,
}

/// A violation as the contracts see it.
pub struct ViolationView {
    pub line: Option<usize>,
    pub rule: Seq<char>,
    pub message: Seq<char>,
}

impl View for Violation {
    type V = ViolationView;

    open spec fn view(&self) -> ViolationView {
        ViolationView { line: self.line, rule: self.rule@, message: self.message@ }
    }
}

/// The views of `vs`, in order.
pub open spec fn violation_views(vs: Seq<Violation>) -> Seq<ViolationView> {
    vs.map_values(|v: Violation| v@)
}

/// The run of spaces and tabs that starts `line`.
pub open spec fn leading_ws(line: Seq<char>) -> Seq<char>
    decreases line.len(),
{
    if line.len() > 0 && (line[0] == ' ' || line[0] == '\t') {
        seq![line[0]] + leading_ws(line.drop_first())
    } else {
        Seq::empty()
    }
}

/// The indentation character that `style` forbids: a tab under `space`,
/// a space under anything else.
pub open spec fn wrong_indent(style: Seq<char>) -> char {
    if style == "space"@ {
        '\t'
    } else {
        ' '
    }
}

/// `line` starts with the forbidden indentation character.
pub open spec fn breaks_indent_style(line: Seq<char>, wrong: char) -> bool {
    leading_ws(line).len() > 0 && leading_ws(line)[0] == wrong
}

/// `line` is indented by spaces only, and their number is not a multiple
/// of `size`.
pub open spec fn breaks_indent_size(line: Seq<char>, size: nat) -> bool {
    let indent = leading_ws(line);
    !indent.contains('\t') && indent.len() > 0 && indent.len() % size != 0
}

/// `line` ends with a space or a tab.
pub open spec fn has_trailing_ws(line: Seq<char>) -> bool {
    line.len() > 0 && (line.last() == ' ' || line.last() == '\t')
}

/// The message of an `indent_style` violation.
pub open spec fn indent_style_message(style: Seq<char>, wrong: char) -> Seq<char> {
    "expected "@ + style + " indentation, found a leading '"@ + seq![wrong] + "'"@
}

/// The message of an `indent_size` violation for an indentation of `n`
/// spaces.
pub open spec fn indent_size_message(n: nat, size: nat) -> Seq<char> {
    "indented "@ + decimal(n) + " spaces, not a multiple of "@ + decimal(size)
}

/// The message of an `end_of_line` violation.
pub open spec fn end_of_line_message(eol: Seq<char>) -> Seq<char> {
    "expected "@ + eol + " line ending"@
}

/// The `indent_style` violations of `ls`, numbering lines from 1.
pub open spec fn indent_style_violations(ls: Seq<Seq<char>>, style: Seq<char>) -> Seq<ViolationView>
    decreases ls.len(),
{
    if ls.len() == 0 {
        Seq::empty()
    } else {
        let before = indent_style_violations(ls.drop_last(), style);
        if breaks_indent_style(ls.last(), wrong_indent(style)) {
            before.push(
                ViolationView {
                    line: Some(ls.len() as usize),
                    rule: "indent_style"@,
                    message: indent_style_message(style, wrong_indent(style)),
                },
            )
        } else {
            before
        }
    }
}

/// The `indent_size` violations of `ls`, numbering lines from 1; none
/// when `size` is zero.
pub open spec fn indent_size_violations(ls: Seq<Seq<char>>, size: nat) -> Seq<ViolationView>
    decreases ls.len(),
{
    if ls.len() == 0 || size == 0 {
        Seq::empty()
    } else {
        let before = indent_size_violations(ls.drop_last(), size);
        if breaks_indent_size(ls.last(), size) {
            before.push(
                ViolationView {
                    line: Some(ls.len() as usize),
                    rule: "indent_size"@,
                    message: indent_size_message(leading_ws(ls.last()).len(), size),
                },
            )
        } else {
            before
        }
    }
}

/// The `trim_trailing_whitespace` violations of `ls`, numbering lines
/// from 1.
pub open spec fn trailing_ws_violations(ls: Seq<Seq<char>>) -> Seq<ViolationView>
    decreases ls.len(),
{
    if ls.len() == 0 {
        Seq::empty()
    } else {
        let before = trailing_ws_violations(ls.drop_last());
        if has_trailing_ws(ls.last()) {
            before.push(
                ViolationView {
                    line: Some(ls.len() as usize),
                    rule: "trim_trailing_whitespace"@,
                    message: "trailing whitespace"@,
                },
            )
        } else {
            before
        }
    }
}

/// The `insert_final_newline` violation of `raw`: one, for the whole file,
/// when it is not empty and its last byte is not `\n`.
pub open spec fn final_newline_violations(raw: Seq<u8>) -> Seq<ViolationView> {
    if raw.len() > 0 && raw.last() != LF {
        seq![
            ViolationView {
                line: None,
                rule: "insert_final_newline"@,
                message: "file does not end with a newline"@,
            },
        ]
    } else {
        Seq::empty()
    }
}

/// The number of `\n` bytes in `raw`.
pub open spec fn newline_count(raw: Seq<u8>) -> nat
    decreases raw.len(),
{
    if raw.len() == 0 {
        0
    } else {
        newline_count(raw.drop_last()) + if raw.last() == LF {
            1nat
        } else {
            0nat
        }
    }
}

/// The `end_of_line` violations of `raw`: one for each `\n` whose line
/// ending (`\r\n` or a bare `\n`) is not the one `eol` asks for, `crlf`
/// asking for `\r\n` and anything else for `\n`; line `k` ends at the
/// `k`-th `\n`.
pub open spec fn end_of_line_violations(raw: Seq<u8>, eol: Seq<char>) -> Seq<ViolationView>
    decreases raw.len(),
{
    if raw.len() == 0 {
        Seq::empty()
    } else {
        let i = raw.len() - 1;
        let before = end_of_line_violations(raw.drop_last(), eol);
        let has_cr = i > 0 && raw[i - 1] == CR;
        if raw[i] == LF && has_cr != (eol == "crlf"@) {
            before.push(
                ViolationView {
                    line: Some((newline_count(raw.drop_last()) + 1) as usize),
                    rule: "end_of_line"@,
                    message: end_of_line_message(eol),
                },
            )
        } else {
            before
        }
    }
}

/// `props` sets `key` to `value`.
pub open spec fn sets(props: Map<Seq<char>, Seq<char>>, key: Seq<char>, value: Seq<char>) -> bool {
    props.contains_key(key) && props[key] == value
}

/// The violations that `check_content` reports, rule by rule in this
/// order: `indent_style` when it is set; `indent_size` when
/// `indent_style` is `space` and `indent_size` is a decimal number;
/// `trim_trailing_whitespace` when it is `true`; `insert_final_newline`
/// when it is `true`; `end_of_line` when it is set. Line-based rules read
/// the lines of `content`; the last two read `raw`.
pub open spec fn content_violations(
    content: Seq<char>,
    raw: Seq<u8>,
    props: Map<Seq<char>, Seq<char>>,
) -> Seq<ViolationView> {
    let ls = lines_of(content);
    style_part(ls, props) + size_part(ls, props) + trailing_part(ls, props) + final_newline_part(
        raw,
        props,
    ) + end_of_line_part(raw, props)
}

/// The `indent_style` part of `content_violations`.
pub open spec fn style_part(ls: Seq<Seq<char>>, props: Map<Seq<char>, Seq<char>>) -> Seq<
    ViolationView,
> {
    if props.contains_key("indent_style"@) {
        indent_style_violations(ls, props["indent_style"@])
    } else {
        Seq::empty()
    }
}

/// The `indent_size` part of `content_violations`.
pub open spec fn size_part(ls: Seq<Seq<char>>, props: Map<Seq<char>, Seq<char>>) -> Seq<
    ViolationView,
> {
    if sets(props, "indent_style"@, "space"@) && props.contains_key("indent_size"@) && usize_text(
        props["indent_size"@],
    ) is Some {
        indent_size_violations(ls, usize_text(props["indent_size"@])->0 as nat)
    } else {
        Seq::empty()
    }
}

/// The `trim_trailing_whitespace` part of `content_violations`.
pub open spec fn trailing_part(ls: Seq<Seq<char>>, props: Map<Seq<char>, Seq<char>>) -> Seq<
    ViolationView,
> {
    if sets(props, "trim_trailing_whitespace"@, "true"@) {
        trailing_ws_violations(ls)
    } else {
        Seq::empty()
    }
}

/// The `insert_final_newline` part of `content_violations`.
pub open spec fn final_newline_part(raw: Seq<u8>, props: Map<Seq<char>, Seq<char>>) -> Seq<
    ViolationView,
> {
    if sets(props, "insert_final_newline"@, "true"@) {
        final_newline_violations(raw)
    } else {
        Seq::empty()
    }
}

/// The `end_of_line` part of `content_violations`.
pub open spec fn end_of_line_part(raw: Seq<u8>, props: Map<Seq<char>, Seq<char>>) -> Seq<
    ViolationView,
> {
    if props.contains_key("end_of_line"@) {
        end_of_line_violations(raw, props["end_of_line"@])
    } else {
        Seq::empty()
    }
}

/// A new string holding `s`.
fn owned(s: &str) -> (r: String)
    ensures
        r@ == s@,
{
    let mut r = String::new();
    push_str(&mut r, s);
    r
}

/// Every violation of the properties `props` in a file whose text is
/// `content` and whose bytes are `raw_bytes`.
pub fn check_content(content: &str, raw_bytes: &[u8], props: &Properties) -> (violations: Vec<
    Violation,
>)
    ensures
        violation_views(violations@) == content_violations(content@, raw_bytes@, props@),
{
    let chars = chars_of(content);
    let ranges = line_ranges(&chars);
    let ghost ls = lines_of(content@);
    let ghost m = props@;
    let ghost e = Seq::<ViolationView>::empty();
    let mut violations: Vec<Violation> = Vec::new();
    assert(violation_views(violations@) =~= e);

    let style = props.get("indent_style");
    if let Some(style) = style {
        check_indent_style(&chars, &ranges, style.as_str(), &mut violations);
    } else {
        assert(e + e =~= e);
    }
    let ghost after_style = violation_views(violations@);
    assert(after_style == style_part(ls, m));

    let size = props.get("indent_size");
    let ghost mut checked_size = false;
    if let (Some(style), Some(size)) = (style, size) {
        if str_equal(style.as_str(), "space") {
            if let Some(size) = parse_usize(size.as_str()) {
                check_indent_size(&chars, &ranges, size, &mut violations);
                proof {
                    checked_size = true;
                }
            }
        }
    }
    proof {
        if !checked_size {
            assert(after_style + e =~= after_style);
        }
    }
    let ghost after_size = violation_views(violations@);
    assert(after_size == after_style + size_part(ls, m));

    let ghost mut checked_trailing = false;
    match props.get("trim_trailing_whitespace") {
        Some(v) => {
            if str_equal(v.as_str(), "true") {
                check_trailing_whitespace(&chars, &ranges, &mut violations);
                proof {
                    checked_trailing = true;
                }
            }
        },
        None => {},
    }
    proof {
        if !checked_trailing {
            assert(after_size + e =~= after_size);
        }
    }
    let ghost after_trailing = violation_views(violations@);
    assert(after_trailing == after_size + trailing_part(ls, m));

    let ghost mut checked_final = false;
    match props.get("insert_final_newline") {
        Some(v) => {
            if str_equal(v.as_str(), "true") {
                check_final_newline(raw_bytes, &mut violations);
                proof {
                    checked_final = true;
                }
            }
        },
        None => {},
    }
    proof {
        if !checked_final {
            assert(after_trailing + e =~= after_trailing);
        }
    }
    let ghost after_final = violation_views(violations@);
    assert(after_final == after_trailing + final_newline_part(raw_bytes@, m));

    if let Some(eol) = props.get("end_of_line") {
        check_end_of_line(raw_bytes, eol.as_str(), &mut violations);
    } else {
        assert(after_final + e =~= after_final);
    }
    assert(violation_views(violations@) == after_final + end_of_line_part(raw_bytes@, m));
    violations
}

/// The end of the run of spaces and tabs that starts `chars[start..end]`.
fn leading_whitespace(chars: &Vec<char>, start: usize, end: usize) -> (r: usize)
    requires
        start <= end <= chars@.len(),
    ensures
        start <= r <= end,
        chars@.subrange(start as int, r as int) == leading_ws(
            chars@.subrange(start as int, end as int),
        ),
{
    let mut i = start;
    while i < end && (chars[i] == ' ' || chars[i] == '\t')
        invariant
            start <= i <= end <= chars@.len(),
            chars@.subrange(start as int, i as int) + leading_ws(chars@.subrange(i as int, end as int))
                == leading_ws(chars@.subrange(start as int, end as int)),
        decreases end - i,
    {
        proof {
            let t = chars@.subrange(i as int, end as int);
            assert(t.drop_first() == chars@.subrange(i + 1, end as int));
            assert(chars@.subrange(start as int, i + 1) == chars@.subrange(start as int, i as int)
                + seq![t[0]]);
            assert(chars@.subrange(start as int, i as int) + (seq![t[0]] + leading_ws(t.drop_first()))
                == chars@.subrange(start as int, i + 1) + leading_ws(t.drop_first()));
        }
        i += 1;
    }
    proof {
        let t = chars@.subrange(i as int, end as int);
        assert(leading_ws(t) == Seq::<char>::empty());
        assert(chars@.subrange(start as int, i as int) + Seq::<char>::empty() == chars@.subrange(
            start as int,
            i as int,
        ));
    }
    i
}

/// Reports each line whose indentation starts with the character that
/// `style` forbids.
fn check_indent_style(
    chars: &Vec<char>,
    ranges: &Vec<(usize, usize)>,
    style: &str,
    out: &mut Vec<Violation>,
)
    requires
        forall|k: int| 0 <= k < ranges@.len() ==> #[trigger] ranges@[k].0 <= ranges@[k].1 <= chars@.len(),
    ensures
        violation_views(final(out)@) == violation_views(old(out)@) + indent_style_violations(
            range_texts(chars@, ranges@),
            style@,
        ),
{
    let space = str_equal(style, "space");
    let wrong = if space {
        '\t'
    } else {
        ' '
    };
    assert(wrong == wrong_indent(style@));
    let ghost ls = range_texts(chars@, ranges@);
    let ghost start = violation_views(old(out)@);
    let mut i: usize = 0;
    assert(ls.take(0) =~= Seq::<Seq<char>>::empty());
    assert(start + Seq::<ViolationView>::empty() =~= start);
    // Only the first character of the indent run matters: a `space`
    // policy still allows tabs used for alignment after some spaces.
    while i < ranges.len()
        invariant
            0 <= i <= ranges@.len(),
            ls == range_texts(chars@, ranges@),
            wrong == wrong_indent(style@),
            forall|k: int| 0 <= k < ranges@.len() ==> #[trigger] ranges@[k].0 <= ranges@[k].1 <= chars@.len(),
            violation_views(out@) == start + indent_style_violations(ls.take(i as int), style@),
        decreases ranges@.len() - i,
    {
        let (a, b) = ranges[i];
        let indent_end = leading_whitespace(chars, a, b);
        proof {
            assert(ls.take(i + 1).drop_last() == ls.take(i as int));
            assert(ls.take(i + 1).last() == ls[i as int]);
            assert(ls[i as int] == chars@.subrange(a as int, b as int));
            assert(leading_ws(ls[i as int]) == chars@.subrange(a as int, indent_end as int));
            if indent_end > a {
                assert(leading_ws(ls[i as int])[0] == chars@[a as int]);
            }
        }
        if indent_end > a && chars[a] == wrong {
            let mut message = owned("expected ");
            push_str(&mut message, style);
            push_str(&mut message, " indentation, found a leading '");
            push_char(&mut message, wrong);
            push_str(&mut message, "'");
            let v = Violation { line: Some(i + 1), rule: owned("indent_style"), message };
            assert(v@.message == indent_style_message(style@, wrong));
            let ghost before = out@;
            out.push(v);
            assert(violation_views(out@) =~= violation_views(before).push(v@));
        }
        i += 1;
    }
    assert(ls.take(i as int) == ls);
}


/// Reports each space-indented line whose indentation is not a multiple
/// of `size`.
fn check_indent_size(
    chars: &Vec<char>,
    ranges: &Vec<(usize, usize)>,
    size: usize,
    out: &mut Vec<Violation>,
)
    requires
        forall|k: int| 0 <= k < ranges@.len() ==> #[trigger] ranges@[k].0 <= ranges@[k].1 <= chars@.len(),
    ensures
        violation_views(final(out)@) == violation_views(old(out)@) + indent_size_violations(
            range_texts(chars@, ranges@),
            size as nat,
        ),
{
    let ghost ls = range_texts(chars@, ranges@);
    let ghost start = violation_views(old(out)@);
    if size == 0 {
        assert(start + Seq::<ViolationView>::empty() =~= start);
        return;
    }
    let mut i: usize = 0;
    assert(ls.take(0) =~= Seq::<Seq<char>>::empty());
    assert(start + Seq::<ViolationView>::empty() =~= start);
    while i < ranges.len()
        invariant
            0 <= i <= ranges@.len(),
            size > 0,
            ls == range_texts(chars@, ranges@),
            forall|k: int| 0 <= k < ranges@.len() ==> #[trigger] ranges@[k].0 <= ranges@[k].1 <= chars@.len(),
            violation_views(out@) == start + indent_size_violations(ls.take(i as int), size as nat),
        decreases ranges@.len() - i,
    {
        let (a, b) = ranges[i];
        let indent_end = leading_whitespace(chars, a, b);
        let ghost indent = chars@.subrange(a as int, indent_end as int);
        proof {
            assert(ls.take(i + 1).drop_last() == ls.take(i as int));
            assert(ls[i as int] == chars@.subrange(a as int, b as int));
        }
        let mut has_tab = false;
        let mut j = a;
        while j < indent_end
            invariant
                a <= j <= indent_end <= chars@.len(),
                indent == chars@.subrange(a as int, indent_end as int),
                has_tab == exists|k: int| 0 <= k < j - a && indent[k] == '\t',
            decreases indent_end - j,
        {
            assert(indent[j - a] == chars@[j as int]);
            if chars[j] == '\t' {
                has_tab = true;
            }
            j += 1;
        }
        // a tab-indented line is `indent_style`'s concern, not this rule's
        if !has_tab {
            assert(!indent.contains('\t'));
            let n = indent_end - a;
            if n > 0 && n % size != 0 {
                let mut message = owned("indented ");
                push_decimal(&mut message, n);
                push_str(&mut message, " spaces, not a multiple of ");
                push_decimal(&mut message, size);
                let v = Violation { line: Some(i + 1), rule: owned("indent_size"), message };
                let ghost before = out@;
                out.push(v);
                assert(violation_views(out@) =~= violation_views(before).push(v@));
            }
        } else {
            assert(indent.contains('\t'));
        }
        i += 1;
    }
    assert(ls.take(i as int) == ls);
}

/// Reports each line that ends with a space or a tab.
fn check_trailing_whitespace(
    chars: &Vec<char>,
    ranges: &Vec<(usize, usize)>,
    out: &mut Vec<Violation>,
)
    requires
        forall|k: int| 0 <= k < ranges@.len() ==> #[trigger] ranges@[k].0 <= ranges@[k].1 <= chars@.len(),
    ensures
        violation_views(final(out)@) == violation_views(old(out)@) + trailing_ws_violations(
            range_texts(chars@, ranges@),
        ),
{
    let ghost ls = range_texts(chars@, ranges@);
    let ghost start = violation_views(old(out)@);
    let mut i: usize = 0;
    assert(ls.take(0) =~= Seq::<Seq<char>>::empty());
    assert(start + Seq::<ViolationView>::empty() =~= start);
    while i < ranges.len()
        invariant
            0 <= i <= ranges@.len(),
            ls == range_texts(chars@, ranges@),
            forall|k: int| 0 <= k < ranges@.len() ==> #[trigger] ranges@[k].0 <= ranges@[k].1 <= chars@.len(),
            violation_views(out@) == start + trailing_ws_violations(ls.take(i as int)),
        decreases ranges@.len() - i,
    {
        let (a, b) = ranges[i];
        proof {
            assert(ls.take(i + 1).drop_last() == ls.take(i as int));
            assert(ls[i as int] == chars@.subrange(a as int, b as int));
        }
        if b > a && (chars[b - 1] == ' ' || chars[b - 1] == '\t') {
            let v = Violation {
                line: Some(i + 1),
                rule: owned("trim_trailing_whitespace"),
                message: owned("trailing whitespace"),
            };
            let ghost before = out@;
            out.push(v);
            assert(violation_views(out@) =~= violation_views(before).push(v@));
        }
        i += 1;
    }
    assert(ls.take(i as int) == ls);
}

/// Reports a non-empty file whose last byte is not `\n`.
fn check_final_newline(raw_bytes: &[u8], out: &mut Vec<Violation>)
    ensures
        violation_views(final(out)@) == violation_views(old(out)@) + final_newline_violations(
            raw_bytes@,
        ),
{
    let ghost start = violation_views(old(out)@);
    assert(start + Seq::<ViolationView>::empty() =~= start);
    if raw_bytes.len() == 0 {
        // an empty file has no missing newline to report
        return;
    }
    if raw_bytes[raw_bytes.len() - 1] != LF {
        let v = Violation {
            line: None,
            rule: owned("insert_final_newline"),
            message: owned("file does not end with a newline"),
        };
        out.push(v);
        assert(violation_views(out@) =~= start.push(v@));
    }
}

/// There are no more `\n` bytes than bytes.
proof fn lemma_newline_count_bound(raw: Seq<u8>)
    ensures
        newline_count(raw) <= raw.len(),
    decreases raw.len(),
{
    if raw.len() > 0 {
        lemma_newline_count_bound(raw.drop_last());
    }
}

/// Reports each `\n` whose line ending is not the one `eol` names.
fn check_end_of_line(raw_bytes: &[u8], eol: &str, out: &mut Vec<Violation>)
    ensures
        violation_views(final(out)@) == violation_views(old(out)@) + end_of_line_violations(
            raw_bytes@,
            eol@,
        ),
{
    let ghost raw = raw_bytes@;
    let ghost start = violation_views(old(out)@);
    let expected_has_cr = str_equal(eol, "crlf");
    // the number of `\n` bytes before `i`: the line `i` is on, less one
    let mut newlines: usize = 0;
    let mut i: usize = 0;
    assert(raw.take(0) =~= Seq::<u8>::empty());
    assert(start + Seq::<ViolationView>::empty() =~= start);
    while i < raw_bytes.len()
        invariant
            0 <= i <= raw.len(),
            raw == raw_bytes@,
            expected_has_cr == (eol@ == "crlf"@),
            newlines == newline_count(raw.take(i as int)),
            violation_views(out@) == start + end_of_line_violations(raw.take(i as int), eol@),
        decreases raw.len() - i,
    {
        proof {
            let t = raw.take(i + 1);
            assert(t.drop_last() == raw.take(i as int));
            lemma_newline_count_bound(raw.take(i as int));
        }
        if raw_bytes[i] == LF {
            let has_cr = i > 0 && raw_bytes[i - 1] == CR;
            if has_cr != expected_has_cr {
                let mut message = owned("expected ");
                push_str(&mut message, eol);
                push_str(&mut message, " line ending");
                let v = Violation { line: Some(newlines + 1), rule: owned("end_of_line"), message };
                let ghost before = out@;
                out.push(v);
                assert(violation_views(out@) =~= violation_views(before).push(v@));
            }
            newlines += 1;
        }
        i += 1;
    }
    assert(raw.take(i as int) == raw);
}


/// With no properties set, nothing is reported.
pub proof fn law_no_properties_no_violations(content: Seq<char>, raw: Seq<u8>)
    ensures
        content_violations(content, raw, Map::empty()).len() == 0,
{
}

/// An empty file never lacks a final newline, and has no line endings to
/// get wrong.
pub proof fn law_empty_file_passes_file_level_rules(eol: Seq<char>)
    ensures
        final_newline_violations(Seq::empty()).len() == 0,
        end_of_line_violations(Seq::empty(), eol).len() == 0,
{
}

/// `indent_style` is reported exactly on the lines that start with the
/// forbidden indentation character, once each, in order.
pub proof fn law_indent_style_flags_exactly_the_offending_lines(ls: Seq<Seq<char>>, style: Seq<char>)
    requires
        ls.len() <= usize::MAX,
    ensures
        ({
            let vs = indent_style_violations(ls, style);
            &&& forall|i: int| 0 <= i < vs.len() ==> {
                &&& #[trigger] vs[i].line matches Some(n) && 1 <= n <= ls.len()
                    && ls[n - 1].len() > 0 && ls[n - 1][0] == (if style == "space"@ { '\t' } else { ' ' })
                &&& vs[i].rule == "indent_style"@
                &&& vs[i].message == "expected "@ + style + " indentation, found a leading '"@ + seq![if style == "space"@ { '\t' } else { ' ' }] + "'"@
            }
            &&& forall|i: int, j: int| 0 <= i < j < vs.len() ==> (#[trigger] vs[i].line)->0 < (
            #[trigger] vs[j].line)->0
            &&& forall|n: int| 1 <= n <= ls.len() && (#[trigger] ls[n - 1]).len() > 0 && ls[n - 1][0] == (if style == "space"@ { '\t' } else { ' ' })
                ==> exists|i: int| 0 <= i < vs.len() && vs[i].line == Some(n as usize)
        }),
    decreases ls.len(),
{
    if ls.len() > 0 {
        let init = ls.drop_last();
        law_indent_style_flags_exactly_the_offending_lines(init, style);
        let before = indent_style_violations(init, style);
        let vs = indent_style_violations(ls, style);
        assert forall|i: int| 0 <= i < before.len() implies (#[trigger] before[i].line)->0 < ls.len() by {
            let n = (before[i].line)->0;
            assert(1 <= n <= init.len());
        }
        assert forall|n: int| 1 <= n <= ls.len() && (#[trigger] ls[n - 1]).len() > 0 && ls[n - 1][0] == (if style == "space"@ { '\t' } else { ' ' })
            implies exists|i: int| 0 <= i < vs.len() && vs[i].line == Some(n as usize) by {
            lemma_line_start_and_end(ls[n - 1], style);
            if n < ls.len() {
                assert(init[n - 1] == ls[n - 1]);
                let i = choose|i: int| 0 <= i < before.len() && before[i].line == Some(n as usize);
                assert(vs[i] == before[i]);
            } else {
                assert(vs[vs.len() - 1].line == Some(n as usize));
            }
        }
        assert forall|i: int| 0 <= i < vs.len() implies {
            &&& #[trigger] vs[i].line matches Some(n) && 1 <= n <= ls.len()
                && ls[n - 1].len() > 0 && ls[n - 1][0] == (if style == "space"@ { '\t' } else { ' ' })
            &&& vs[i].rule == "indent_style"@
            &&& vs[i].message == "expected "@ + style + " indentation, found a leading '"@ + seq![if style == "space"@ { '\t' } else { ' ' }] + "'"@
        } by {
            if i < before.len() {
                assert(vs[i] == before[i]);
                let n = (before[i].line)->0;
                assert(init[n - 1] == ls[n - 1]);
            } else {
                lemma_line_start_and_end(ls[ls.len() - 1], style);
            }
        }
    }
}

/// `trim_trailing_whitespace` is reported exactly on the lines that end
/// with a space or a tab, once each, in order.
pub proof fn law_trailing_whitespace_flags_exactly_the_offending_lines(ls: Seq<Seq<char>>)
    requires
        ls.len() <= usize::MAX,
    ensures
        ({
            let vs = trailing_ws_violations(ls);
            &&& forall|i: int| 0 <= i < vs.len() ==> {
                &&& #[trigger] vs[i].line matches Some(n) && 1 <= n <= ls.len()
                    && ls[n - 1].len() > 0 && (ls[n - 1].last() == ' ' || ls[n - 1].last() == '\t')
                &&& vs[i].rule == "trim_trailing_whitespace"@
                &&& vs[i].message == "trailing whitespace"@
            }
            &&& forall|i: int, j: int| 0 <= i < j < vs.len() ==> (#[trigger] vs[i].line)->0 < (
            #[trigger] vs[j].line)->0
            &&& forall|n: int| 1 <= n <= ls.len() && (#[trigger] ls[n - 1]).len() > 0 && (ls[n - 1].last() == ' ' || ls[n - 1].last() == '\t')
                ==> exists|i: int| 0 <= i < vs.len() && vs[i].line == Some(n as usize)
        }),
    decreases ls.len(),
{
    if ls.len() > 0 {
        let init = ls.drop_last();
        law_trailing_whitespace_flags_exactly_the_offending_lines(init);
        let before = trailing_ws_violations(init);
        let vs = trailing_ws_violations(ls);
        assert forall|i: int| 0 <= i < before.len() implies (#[trigger] before[i].line)->0 < ls.len() by {
            let n = (before[i].line)->0;
            assert(1 <= n <= init.len());
        }
        assert forall|n: int| 1 <= n <= ls.len() && (#[trigger] ls[n - 1]).len() > 0 && (ls[n - 1].last() == ' ' || ls[n - 1].last() == '\t')
            implies exists|i: int| 0 <= i < vs.len() && vs[i].line == Some(n as usize) by {
            lemma_line_start_and_end(ls[n - 1], Seq::empty());
            if n < ls.len() {
                assert(init[n - 1] == ls[n - 1]);
                let i = choose|i: int| 0 <= i < before.len() && before[i].line == Some(n as usize);
                assert(vs[i] == before[i]);
            } else {
                assert(vs[vs.len() - 1].line == Some(n as usize));
            }
        }
        assert forall|i: int| 0 <= i < vs.len() implies {
            &&& #[trigger] vs[i].line matches Some(n) && 1 <= n <= ls.len()
                && ls[n - 1].len() > 0 && (ls[n - 1].last() == ' ' || ls[n - 1].last() == '\t')
            &&& vs[i].rule == "trim_trailing_whitespace"@
            &&& vs[i].message == "trailing whitespace"@
        } by {
            if i < before.len() {
                assert(vs[i] == before[i]);
                let n = (before[i].line)->0;
                assert(init[n - 1] == ls[n - 1]);
            } else {
                lemma_line_start_and_end(ls[ls.len() - 1], Seq::empty());
            }
        }
    }
}

/// `indent_size` is reported only on lines indented by spaces alone,
/// whose count is not a multiple of `size`: a tab-indented line is left
/// to `indent_style`.
pub proof fn law_indent_size_skips_tab_indented_lines(ls: Seq<Seq<char>>, size: nat)
    requires
        ls.len() <= usize::MAX,
    ensures
        ({
            let vs = indent_size_violations(ls, size);
            forall|i: int| 0 <= i < vs.len() ==> {
                &&& #[trigger] vs[i].line matches Some(n) && 1 <= n <= ls.len()
                    && !leading_ws(ls[n - 1]).contains('\t')
                    && leading_ws(ls[n - 1]).len() % size != 0
                &&& vs[i].rule == "indent_size"@
            }
        }),
    decreases ls.len(),
{
    if ls.len() > 0 && size > 0 {
        let init = ls.drop_last();
        law_indent_size_skips_tab_indented_lines(init, size);
        let before = indent_size_violations(init, size);
        let vs = indent_size_violations(ls, size);
        assert forall|i: int| 0 <= i < vs.len() implies {
            &&& #[trigger] vs[i].line matches Some(n) && 1 <= n <= ls.len()
                && !leading_ws(ls[n - 1]).contains('\t')
                && leading_ws(ls[n - 1]).len() % size != 0
            &&& vs[i].rule == "indent_size"@
        } by {
            if i < before.len() {
                assert(vs[i] == before[i]);
                let n = (before[i].line)->0;
                assert(init[n - 1] == ls[n - 1]);
            }
        }
    }
}

/// A file whose every line ending is the one `eol` asks for passes
/// `end_of_line`.
pub proof fn law_consistent_line_endings_pass(raw: Seq<u8>, eol: Seq<char>)
    requires
        forall|i: int| 0 <= i < raw.len() && #[trigger] raw[i] == LF ==> ((i > 0 && raw[i - 1]
            == CR) == (eol == "crlf"@)),
    ensures
        end_of_line_violations(raw, eol).len() == 0,
    decreases raw.len(),
{
    if raw.len() > 0 {
        let init = raw.drop_last();
        assert forall|i: int| 0 <= i < init.len() && #[trigger] init[i] == LF implies ((i > 0
            && init[i - 1] == CR) == (eol == "crlf"@)) by {
            assert(raw[i] == init[i]);
        }
        law_consistent_line_endings_pass(init, eol);
    }
}

/// Each `end_of_line` violation names a line that a `\n` ends.
pub proof fn law_end_of_line_numbers_name_ended_lines(raw: Seq<u8>, eol: Seq<char>)
    requires
        raw.len() <= usize::MAX,
    ensures
        forall|i: int| 0 <= i < end_of_line_violations(raw, eol).len() ==> ((
        #[trigger] end_of_line_violations(raw, eol)[i]).line matches Some(n) && 1 <= n
            <= newline_count(raw)),
    decreases raw.len(),
{
    if raw.len() > 0 {
        let init = raw.drop_last();
        law_end_of_line_numbers_name_ended_lines(init, eol);
        lemma_newline_count_bound(init);
        let before = end_of_line_violations(init, eol);
        let vs = end_of_line_violations(raw, eol);
        assert forall|i: int| 0 <= i < vs.len() implies ((#[trigger] vs[i]).line matches Some(n)
            && 1 <= n <= newline_count(raw)) by {
            if i < before.len() {
                assert(vs[i] == before[i]);
                assert(before[i] == end_of_line_violations(init, eol)[i]);
            }
        }
    }
}

/// Writing the line endings of a text as `\r\n` in place of `\n` changes
/// none of the line-based rules: the `\r` of a line ending is never
/// taken for trailing white space or for indentation.
pub proof fn law_crlf_endings_change_no_line_rule(content: Seq<char>, props: Map<Seq<char>, Seq<char>>)
    requires
        !content.contains('\r'),
    ensures
        style_part(lines_of(to_crlf(content)), props) == style_part(lines_of(content), props),
        size_part(lines_of(to_crlf(content)), props) == size_part(lines_of(content), props),
        trailing_part(lines_of(to_crlf(content)), props) == trailing_part(lines_of(content), props),
{
    law_crlf_endings_keep_the_lines(content);
}

/// The run of spaces and tabs that starts a line is a prefix of it, made
/// of spaces and tabs, and followed by neither.
pub proof fn lemma_leading_ws(l: Seq<char>)
    ensures
        leading_ws(l).len() <= l.len(),
        leading_ws(l) == l.take(leading_ws(l).len() as int),
        forall|j: int| 0 <= j < leading_ws(l).len() ==> #[trigger] l[j] == ' ' || l[j] == '\t',
        leading_ws(l).len() == l.len() || (l[leading_ws(l).len() as int] != ' ' && l[leading_ws(
            l,
        ).len() as int] != '\t'),
    decreases l.len(),
{
    if l.len() > 0 && (l[0] == ' ' || l[0] == '\t') {
        let t = l.drop_first();
        lemma_leading_ws(t);
        assert(leading_ws(l) == seq![l[0]] + leading_ws(t));
        assert(seq![l[0]] + t.take(leading_ws(t).len() as int) =~= l.take(leading_ws(t).len() as int + 1));
        assert forall|j: int| 0 <= j < leading_ws(l).len() implies #[trigger] l[j] == ' ' || l[j] == '\t' by {
            if j > 0 {
                assert(l[j] == t[j - 1]);
            }
        }
        if leading_ws(t).len() < t.len() {
            assert(l[leading_ws(l).len() as int] == t[leading_ws(t).len() as int]);
        }
    } else {
        assert(l.take(0) =~= Seq::<char>::empty());
    }
}

/// What the line-based rules test, stated on the line itself: the first
/// indentation character is the line's first character, when that is a
/// space or a tab; trailing white space is a last space or tab.
proof fn lemma_line_start_and_end(l: Seq<char>, style: Seq<char>)
    ensures
        breaks_indent_style(l, wrong_indent(style)) <==> l.len() > 0 && l[0] == (if style == "space"@ {
            '\t'
        } else {
            ' '
        }),
        indent_style_message(style, wrong_indent(style)) == "expected "@ + style
            + " indentation, found a leading '"@ + seq![if style == "space"@ { '\t' } else { ' ' }] + "'"@,
        has_trailing_ws(l) <==> l.len() > 0 && (l.last() == ' ' || l.last() == '\t'),
{
    lemma_leading_ws(l);
    if l.len() > 0 && (l[0] == ' ' || l[0] == '\t') {
        assert(leading_ws(l)[0] == l[0]);
    }
}

/// The first `k` characters of `l` are spaces and the next one, if any,
/// is neither a space nor a tab: `l` is indented by exactly `k` spaces.
pub open spec fn indented_by_spaces(l: Seq<char>, k: int) -> bool {
    &&& 0 <= k <= l.len()
    &&& forall|j: int| 0 <= j < k ==> #[trigger] l[j] == ' '
    &&& k == l.len() || (l[k] != ' ' && l[k] != '\t')
}

/// A line is indented by exactly `k` spaces when its run of spaces and
/// tabs has no tab and is `k` long.
proof fn lemma_indented_by_spaces(l: Seq<char>, k: int)
    ensures
        indented_by_spaces(l, k) <==> (!leading_ws(l).contains('\t') && leading_ws(l).len() == k),
{
    lemma_leading_ws(l);
    let w = leading_ws(l);
    if indented_by_spaces(l, k) {
        if w.len() < k {
            assert(l[w.len() as int] == ' ');
        } else if w.len() > k {
            assert(l[k] == ' ' || l[k] == '\t');
        }
        assert(!w.contains('\t')) by {
            if w.contains('\t') {
                let j = choose|j: int| 0 <= j < w.len() && #[trigger] w[j] == '\t';
                assert(w[j] == l[j]);
            }
        }
    }
    if !w.contains('\t') && w.len() == k {
        assert forall|j: int| 0 <= j < k implies #[trigger] l[j] == ' ' by {
            assert(w[j] == l[j]);
            assert(l[j] == ' ' || l[j] == '\t');
            if l[j] == '\t' {
                assert(w.contains('\t'));
            }
        }
    }
}

/// `indent_size` is reported exactly on the lines indented by a number
/// of spaces, and no tab, that is not a multiple of `size`, once each,
/// in order, with that number in the message; a zero `size` reports
/// nothing.
pub proof fn law_indent_size_flags_exactly_the_misaligned_lines(ls: Seq<Seq<char>>, size: nat)
    requires
        ls.len() <= usize::MAX,
    ensures
        size == 0 ==> indent_size_violations(ls, size).len() == 0,
        ({
            let vs = indent_size_violations(ls, size);
            &&& forall|i: int| 0 <= i < vs.len() ==> {
                &&& #[trigger] vs[i].line matches Some(n) && 1 <= n <= ls.len() && exists|k: int|
                    #[trigger] indented_by_spaces(ls[n - 1], k) && k > 0 && k % (size as int) != 0
                        && vs[i].message == "indented "@ + decimal(k as nat)
                        + " spaces, not a multiple of "@ + decimal(size)
                &&& vs[i].rule == "indent_size"@
            }
            &&& forall|i: int, j: int| 0 <= i < j < vs.len() ==> (#[trigger] vs[i].line)->0 < (
            #[trigger] vs[j].line)->0
            &&& forall|n: int, k: int|
                size > 0 && 1 <= n <= ls.len() && #[trigger] indented_by_spaces(ls[n - 1], k) && k > 0 && k % (
                size as int) != 0 ==> exists|i: int| 0 <= i < vs.len() && vs[i].line == Some(n as usize)
        }),
    decreases ls.len(),
{
    if ls.len() > 0 && size > 0 {
        let init = ls.drop_last();
        law_indent_size_flags_exactly_the_misaligned_lines(init, size);
        let before = indent_size_violations(init, size);
        let vs = indent_size_violations(ls, size);
        let last = ls[ls.len() - 1];
        lemma_indented_by_spaces(last, leading_ws(last).len() as int);
        assert forall|i: int| 0 <= i < before.len() implies (#[trigger] before[i].line)->0 < ls.len() by {
            let n = (before[i].line)->0;
            assert(1 <= n <= init.len());
        }
        assert forall|n: int, k: int|
            size > 0 && 1 <= n <= ls.len() && #[trigger] indented_by_spaces(ls[n - 1], k) && k > 0 && k % (
            size as int) != 0 implies exists|i: int| 0 <= i < vs.len() && vs[i].line == Some(n as usize) by {
            lemma_indented_by_spaces(ls[n - 1], k);
            if n < ls.len() {
                assert(init[n - 1] == ls[n - 1]);
                let i = choose|i: int| 0 <= i < before.len() && before[i].line == Some(n as usize);
                assert(vs[i] == before[i]);
            } else {
                assert(vs[vs.len() - 1].line == Some(n as usize));
            }
        }
        assert forall|i: int| 0 <= i < vs.len() implies {
            &&& #[trigger] vs[i].line matches Some(n) && 1 <= n <= ls.len() && exists|k: int|
                #[trigger] indented_by_spaces(ls[n - 1], k) && k > 0 && k % (size as int) != 0
                    && vs[i].message == "indented "@ + decimal(k as nat)
                    + " spaces, not a multiple of "@ + decimal(size)
            &&& vs[i].rule == "indent_size"@
        } by {
            if i < before.len() {
                assert(vs[i] == before[i]);
                let n = (before[i].line)->0;
                assert(init[n - 1] == ls[n - 1]);
                let k = choose|k: int|
                    #[trigger] indented_by_spaces(init[n - 1], k) && k > 0 && k % (size as int) != 0
                        && before[i].message == "indented "@ + decimal(k as nat)
                        + " spaces, not a multiple of "@ + decimal(size);
                assert(indented_by_spaces(ls[n - 1], k));
            } else {
                let k = leading_ws(last).len() as int;
                assert(indented_by_spaces(ls[ls.len() - 1], k));
            }
        }
    }
}

/// The number of `\n` bytes in `s`.
pub open spec fn newlines_in(s: Seq<u8>) -> nat {
    s.filter(|b: u8| b == LF).len()
}

/// The line ending at `raw[i]` is a `\n` whose form, `\r\n` or a bare
/// `\n`, is not the one `eol` asks for: `crlf` asks for `\r\n`, anything
/// else for `\n`.
pub open spec fn wrong_line_ending(raw: Seq<u8>, eol: Seq<char>, i: int) -> bool {
    &&& 0 <= i < raw.len()
    &&& raw[i] == LF
    &&& (i > 0 && raw[i - 1] == CR) != (eol == "crlf"@)
}

proof fn lemma_newline_count_is_newlines_in(s: Seq<u8>)
    ensures
        newline_count(s) == newlines_in(s),
    decreases s.len(),
{
    reveal_with_fuel(Seq::filter, 1);
    if s.len() > 0 {
        lemma_newline_count_is_newlines_in(s.drop_last());
    }
}

/// Each `end_of_line` violation answers a wrong line ending.
proof fn lemma_end_of_line_sound(raw: Seq<u8>, eol: Seq<char>)
    requires
        raw.len() <= usize::MAX,
    ensures
        forall|j: int| 0 <= j < end_of_line_violations(raw, eol).len() ==> {
            &&& exists|i: int| #[trigger] wrong_line_ending(raw, eol, i)
                && end_of_line_violations(raw, eol)[j].line == Some((newlines_in(raw.take(i)) + 1) as usize)
            &&& (#[trigger] end_of_line_violations(raw, eol)[j]).rule == "end_of_line"@
            &&& end_of_line_violations(raw, eol)[j].message == "expected "@ + eol + " line ending"@
        },
    decreases raw.len(),
{
    if raw.len() > 0 {
        let init = raw.drop_last();
        let last = raw.len() - 1;
        lemma_end_of_line_sound(init, eol);
        lemma_newline_count_is_newlines_in(init);
        let before = end_of_line_violations(init, eol);
        let vs = end_of_line_violations(raw, eol);
        assert(raw.take(last) == init);
        assert forall|j: int| 0 <= j < vs.len() implies {
            &&& exists|i: int| #[trigger] wrong_line_ending(raw, eol, i)
                && vs[j].line == Some((newlines_in(raw.take(i)) + 1) as usize)
            &&& (#[trigger] vs[j]).rule == "end_of_line"@
            &&& vs[j].message == "expected "@ + eol + " line ending"@
        } by {
            if j < before.len() {
                assert(vs[j] == before[j]);
                assert(before[j] == end_of_line_violations(init, eol)[j]);
                let i = choose|i: int| #[trigger] wrong_line_ending(init, eol, i)
                    && before[j].line == Some((newlines_in(init.take(i)) + 1) as usize);
                assert(raw[i] == init[i]);
                if i > 0 {
                    assert(raw[i - 1] == init[i - 1]);
                }
                assert(raw.take(i) == init.take(i));
                assert(wrong_line_ending(raw, eol, i));
            } else {
                assert(wrong_line_ending(raw, eol, last));
            }
        }
    }
}

/// Each wrong line ending gets an `end_of_line` violation.
proof fn lemma_end_of_line_complete(raw: Seq<u8>, eol: Seq<char>)
    requires
        raw.len() <= usize::MAX,
    ensures
        forall|i: int| #[trigger] wrong_line_ending(raw, eol, i) ==> exists|j: int|
            0 <= j < end_of_line_violations(raw, eol).len() && end_of_line_violations(raw, eol)[j].line
                == Some((newlines_in(raw.take(i)) + 1) as usize),
    decreases raw.len(),
{
    if raw.len() > 0 {
        let init = raw.drop_last();
        let last = raw.len() - 1;
        lemma_end_of_line_complete(init, eol);
        lemma_newline_count_is_newlines_in(init);
        let before = end_of_line_violations(init, eol);
        let vs = end_of_line_violations(raw, eol);
        assert(raw.take(last) == init);
        assert forall|i: int| #[trigger] wrong_line_ending(raw, eol, i) implies exists|j: int|
            0 <= j < vs.len() && vs[j].line == Some((newlines_in(raw.take(i)) + 1) as usize) by {
            if i < last {
                assert(raw[i] == init[i]);
                if i > 0 {
                    assert(raw[i - 1] == init[i - 1]);
                }
                assert(raw.take(i) == init.take(i));
                assert(wrong_line_ending(init, eol, i));
                let j = choose|j: int|
                    0 <= j < before.len() && before[j].line == Some((newlines_in(init.take(i)) + 1) as usize);
                assert(vs[j] == before[j]);
            } else {
                assert(vs[vs.len() - 1].line == Some((newlines_in(raw.take(i)) + 1) as usize));
            }
        }
    }
}

/// `end_of_line` violations come in the order of their lines.
proof fn lemma_end_of_line_ordered(raw: Seq<u8>, eol: Seq<char>)
    requires
        raw.len() <= usize::MAX,
    ensures
        forall|a: int, b: int| 0 <= a < b < end_of_line_violations(raw, eol).len() ==> (
        #[trigger] end_of_line_violations(raw, eol)[a].line)->0 < (#[trigger] end_of_line_violations(
            raw,
            eol,
        )[b].line)->0,
    decreases raw.len(),
{
    if raw.len() > 0 {
        let init = raw.drop_last();
        lemma_end_of_line_ordered(init, eol);
        law_end_of_line_numbers_name_ended_lines(init, eol);
        lemma_newline_count_bound(init);
        let before = end_of_line_violations(init, eol);
        let vs = end_of_line_violations(raw, eol);
        assert forall|a: int, b: int| 0 <= a < b < vs.len() implies (#[trigger] vs[a].line)->0 < (
        #[trigger] vs[b].line)->0 by {
            assert(vs[a] == before[a]);
            assert(before[a] == end_of_line_violations(init, eol)[a]);
            if b < before.len() {
                assert(vs[b] == before[b]);
                assert(before[b] == end_of_line_violations(init, eol)[b]);
            } else {
                assert(vs[b].line == Some((newline_count(init) + 1) as usize));
            }
        }
    }
}

/// `end_of_line` is reported once for each wrong line ending, in order,
/// naming the line that the ending closes (one more than the number of
/// `\n` bytes before it), and for nothing else.
#[verifier::spinoff_prover]
#[verifier::rlimit(30)]
pub proof fn law_end_of_line_flags_exactly_the_wrong_endings(raw: Seq<u8>, eol: Seq<char>)
    requires
        raw.len() <= usize::MAX,
    ensures
        forall|j: int| 0 <= j < end_of_line_violations(raw, eol).len() ==> {
            &&& exists|i: int| #[trigger] wrong_line_ending(raw, eol, i)
                && end_of_line_violations(raw, eol)[j].line == Some((newlines_in(raw.take(i)) + 1) as usize)
            &&& (#[trigger] end_of_line_violations(raw, eol)[j]).rule == "end_of_line"@
            &&& end_of_line_violations(raw, eol)[j].message == "expected "@ + eol + " line ending"@
        },
        forall|i: int| #[trigger] wrong_line_ending(raw, eol, i) ==> exists|j: int|
            0 <= j < end_of_line_violations(raw, eol).len() && end_of_line_violations(raw, eol)[j].line
                == Some((newlines_in(raw.take(i)) + 1) as usize),
        forall|a: int, b: int| 0 <= a < b < end_of_line_violations(raw, eol).len() ==> (
        #[trigger] end_of_line_violations(raw, eol)[a].line)->0 < (#[trigger] end_of_line_violations(
            raw,
            eol,
        )[b].line)->0,
{
    lemma_end_of_line_sound(raw, eol);
    lemma_end_of_line_complete(raw, eol);
    lemma_end_of_line_ordered(raw, eol);
}
} // verus!
