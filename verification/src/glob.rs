//! A minimal EditorConfig glob matcher: `*` (any run of characters
//! except `/`), `**` (any run including `/`; `**/` stands for zero or more
//! whole directories), `?` (one character except `/`), and `{a,b,c}`
//! brace alternation. Character classes (`[abc]`, `[!abc]`) are not
//! supported.

use vstd::prelude::*;
use vstd::slice::slice_subrange;
use vstd::utf8::{char_is_scalar, char_u32_cast, encode_scalar, encode_utf8, has_width_1_encoding, has_width_2_encoding, has_width_3_encoding};
use crate::text::{first_index, last_index, lemma_first_index, lemma_last_index, lemma_first_index_at, lemma_first_index_none, lemma_last_index_at, lemma_last_index_none};

verus! {

/// `/`, the path separator.
pub const SLASH: u8 = 47;
/// `*`.
pub const STAR: u8 = 42;
/// `?`.
pub const QUESTION: u8 = 63;
/// `{`.
pub const OPEN_BRACE: u8 = 123;
/// `}`.
pub const CLOSE_BRACE: u8 = 125;
/// `,`.
pub const COMMA: u8 = 44;

/// The number of bytes of the UTF-8 character that starts with `lead`:
/// what its leading bits announce, and one for a byte that cannot start
/// a character.
pub open spec fn utf8_width(lead: u8) -> int {
    if lead < 0xc0 {
        1
    } else if lead < 0xe0 {
        2
    } else if lead < 0xf0 {
        3
    } else {
        4
    }
}

/// Whether the whole of `text` matches the whole of `pat`.
///
/// - `**/` followed by `rest` matches when `rest` matches the whole text,
///   or matches what follows some prefix of the text that ends with `/`:
///   `**/` stands for zero or more whole directories;
/// - any other `**` matches any run of bytes, `/` included;
/// - `*` matches any run of bytes without `/`;
/// - `?` matches one UTF-8 character other than `/`;
/// - `{a,b}rest` matches when `a` followed by `rest` or `b` followed by
///   `rest` does; the alternatives end at the first `}` of the pattern,
///   and a `{` with no `}` after it never matches;
/// - any other byte matches itself.
pub open spec fn glob_rec(pat: Seq<u8>, text: Seq<u8>) -> bool
    decreases pat.len(), text.len(), 1int,
{
    if pat.len() == 0 {
        text.len() == 0
    } else if pat.len() >= 2 && pat[0] == STAR && pat[1] == STAR {
        if pat.len() >= 3 && pat[2] == SLASH {
            glob_rec(pat.skip(3), text) || after_directories(pat.skip(3), text)
        } else {
            glob_rec(pat.skip(2), text) || (text.len() > 0 && glob_rec(pat, text.skip(1)))
        }
    } else if pat[0] == STAR {
        glob_rec(pat.skip(1), text) || (text.len() > 0 && text[0] != SLASH && glob_rec(
            pat,
            text.skip(1),
        ))
    } else if pat[0] == QUESTION {
        text.len() > 0 && text.len() >= utf8_width(text[0]) && !text.take(
            utf8_width(text[0]),
        ).contains(SLASH) && glob_rec(pat.skip(1), text.skip(utf8_width(text[0])))
    } else if pat[0] == OPEN_BRACE {
        match first_index(pat, CLOSE_BRACE) {
            Some(close) => {
                proof {
                    lemma_first_index(pat, CLOSE_BRACE);
                }
                alternatives_match(pat.subrange(1, close), pat.skip(close + 1), text)
            },
            None => false,
        }
    } else {
        text.len() > 0 && text[0] == pat[0] && glob_rec(pat.skip(1), text.skip(1))
    }
}

/// Whether `rest` matches what follows some `/` of `text`.
pub open spec fn after_directories(rest: Seq<u8>, text: Seq<u8>) -> bool
    decreases rest.len() + 1, text.len(), 0int,
{
    text.len() > 0 && ((text[0] == SLASH && glob_rec(rest, text.skip(1))) || after_directories(
        rest,
        text.skip(1),
    ))
}

/// `utf8_width(lead)`.
fn char_width(lead: u8) -> (w: usize)
    ensures
        w == utf8_width(lead),
        1 <= w <= 4,
{
    if lead < 0xc0 {
        1
    } else if lead < 0xe0 {
        2
    } else if lead < 0xf0 {
        3
    } else {
        4
    }
}

/// Whether some `,`-separated alternative of `inner`, followed by `rest`,
/// matches `text`.
pub open spec fn alternatives_match(inner: Seq<u8>, rest: Seq<u8>, text: Seq<u8>) -> bool
    decreases inner.len() + rest.len() + 1, text.len(), 0int,
{
    match first_index(inner, COMMA) {
        Some(j) => {
            proof {
                lemma_first_index(inner, COMMA);
            }
            glob_rec(inner.take(j) + rest, text) || alternatives_match(inner.skip(j + 1), rest, text)
        },
        None => glob_rec(inner + rest, text),
    }
}

/// The part of `path` after its last `/` (all of it when there is none).
pub open spec fn last_component(path: Seq<u8>) -> Seq<u8> {
    match last_index(path, SLASH) {
        Some(i) => path.skip(i + 1),
        None => path,
    }
}

/// Whether `path` matches `pat`: a pattern without `/` is matched
/// against the path's final component only (`*.rs` means a file named
/// `*.rs` at any depth); any other pattern must match the whole path.
pub open spec fn path_matches(pat: Seq<u8>, path: Seq<u8>) -> bool {
    if !pat.contains(SLASH) {
        glob_rec(pat, last_component(path))
    } else {
        glob_rec(pat, path)
    }
}

/// True if `path` (relative to the `.editorconfig` file's own
/// directory, always `/`-separated) matches `pattern`.
pub fn glob_match(pattern: &str, path: &str) -> (r: bool)
    ensures
        r == path_matches(encode_utf8(pattern@), encode_utf8(path@)),
{
    match_from(pattern.as_bytes(), path.as_bytes())
}

fn match_from(pattern: &[u8], path: &[u8]) -> (r: bool)
    ensures
        r == path_matches(pattern@, path@),
{
    let mut has_slash = false;
    let mut i: usize = 0;
    while i < pattern.len()
        invariant
            0 <= i <= pattern@.len(),
            has_slash == exists|k: int| 0 <= k < i && pattern@[k] == SLASH,
        decreases pattern@.len() - i,
    {
        if pattern[i] == SLASH {
            has_slash = true;
        }
        i += 1;
    }
    if !has_slash {
        assert(!pattern@.contains(SLASH));
        let mut start: usize = path.len();
        while start > 0 && path[start - 1] != SLASH
            invariant
                0 <= start <= path@.len(),
                forall|k: int| start <= k < path@.len() ==> path@[k] != SLASH,
            decreases start,
        {
            start -= 1;
        }
        proof {
            if start > 0 {
                lemma_last_index_at(path@, SLASH, start - 1);
            } else {
                lemma_last_index_none(path@, SLASH);
                assert(path@.skip(0) == path@);
            }
        }
        // A pattern with no `/` at all matches the path's final component
        // only: EditorConfig's shorthand (`*.rs` means "any file named
        // `*.rs` at any depth", not "a top-level file").
        let component = slice_subrange(path, start, path.len());
        return match_here(pattern, component);
    }
    assert(pattern@.contains(SLASH));
    match_here(pattern, path)
}

fn match_here(pattern: &[u8], text: &[u8]) -> (r: bool)
    ensures
        r == glob_rec(pattern@, text@),
{
    match_rec(pattern, text)
}

/// `alt` followed by `rest`, as a new vector.
fn concat_bytes(alt: &[u8], rest: &[u8]) -> (out: Vec<u8>)
    ensures
        out@ == alt@ + rest@,
{
    let mut out: Vec<u8> = Vec::new();
    let mut i: usize = 0;
    while i < alt.len()
        invariant
            0 <= i <= alt@.len(),
            out@ == alt@.take(i as int),
        decreases alt@.len() - i,
    {
        out.push(alt[i]);
        i += 1;
        assert(out@ == alt@.take(i as int));
    }
    let mut j: usize = 0;
    while j < rest.len()
        invariant
            0 <= j <= rest@.len(),
            out@ == alt@ + rest@.take(j as int),
        decreases rest@.len() - j,
    {
        out.push(rest[j]);
        j += 1;
        assert(out@ == alt@ + rest@.take(j as int));
    }
    assert(alt@.take(alt@.len() as int) == alt@);
    assert(rest@.take(rest@.len() as int) == rest@);
    out
}

fn match_rec(pat: &[u8], text: &[u8]) -> (r: bool)
    ensures
        r == glob_rec(pat@, text@),
    decreases pat@.len(), text@.len(), 1int,
{
    if pat.len() == 0 {
        return text.len() == 0;
    }
    if pat.len() >= 2 && pat[0] == STAR && pat[1] == STAR {
        if pat.len() >= 3 && pat[2] == SLASH {
            // `**/` matches zero or more whole directories, so
            // `src/**/*.rs` matches `src/c.rs` and `src/a/b/c.rs`.
            let rest = slice_subrange(pat, 3, pat.len());
            assert(rest@ == pat@.skip(3));
            if match_rec(rest, text) {
                return true;
            }
            let mut i: usize = 0;
            assert(text@.skip(0) == text@);
            while i < text.len()
                invariant
                    0 <= i <= text@.len(),
                    rest@ == pat@.skip(3),
                    rest@.len() < pat@.len(),
                    pat@.len() >= 3 && pat@[0] == STAR && pat@[1] == STAR && pat@[2] == SLASH,
                    glob_rec(pat@, text@) == after_directories(rest@, text@),
                    after_directories(rest@, text@) == after_directories(rest@, text@.skip(i as int)),
                decreases text@.len() - i,
            {
                let ghost t = text@.skip(i as int);
                assert(t.skip(1) == text@.skip(i + 1));
                assert(t[0] == text@[i as int]);
                if text[i] == SLASH && match_rec(rest, slice_subrange(text, i + 1, text.len())) {
                    return true;
                }
                i += 1;
            }
            return false;
        }
        // any other `**` matches zero or more of anything, `/` included
        let after_star = slice_subrange(pat, 2, pat.len());
        if match_rec(after_star, text) {
            return true;
        }
        if text.len() > 0 {
            return match_rec(pat, slice_subrange(text, 1, text.len()));
        }
        return false;
    }
    if pat[0] == STAR {
        // `*` matches zero or more characters except `/`.
        let rest = slice_subrange(pat, 1, pat.len());
        let mut i: usize = 0;
        assert(text@.skip(0) == text@);
        while i <= text.len()
            invariant
                0 <= i <= text@.len(),
                pat@.len() >= 1,
                pat@[0] == STAR,
                !(pat@.len() >= 2 && pat@[1] == STAR),
                rest@ == pat@.skip(1),
                glob_rec(pat@, text@) == glob_rec(pat@, text@.skip(i as int)),
            decreases text@.len() - i,
        {
            let tail = slice_subrange(text, i, text.len());
            if match_rec(rest, tail) {
                return true;
            }
            if i == text.len() || text[i] == SLASH {
                return false;
            }
            assert(text@.skip(i as int).skip(1) == text@.skip(i + 1));
            i += 1;
        }
        return false;
    }
    if pat[0] == QUESTION {
        // `?` matches one character, all of its bytes, other than `/`.
        if text.len() == 0 {
            return false;
        }
        let width = char_width(text[0]);
        if text.len() < width {
            return false;
        }
        let mut k: usize = 0;
        while k < width
            invariant
                0 <= k <= width <= text@.len(),
                width == utf8_width(text@[0]),
                pat@.len() > 0 && pat@[0] == QUESTION,
                forall|j: int| 0 <= j < k ==> text@[j] != SLASH,
            decreases width - k,
        {
            if text[k] == SLASH {
                assert(text@.take(width as int)[k as int] == SLASH);
                assert(text@.take(width as int).contains(SLASH));
                return false;
            }
            k += 1;
        }
        assert(!text@.take(width as int).contains(SLASH)) by {
            if text@.take(width as int).contains(SLASH) {
                let j = choose|j: int| 0 <= j < width && #[trigger] text@.take(width as int)[j] == SLASH;
                assert(text@[j] == SLASH);
            }
        }
        return match_rec(
            slice_subrange(pat, 1, pat.len()),
            slice_subrange(text, width, text.len()),
        );
    }
    if pat[0] == OPEN_BRACE {
        let mut close: usize = 1;
        while close < pat.len() && pat[close] != CLOSE_BRACE
            invariant
                1 <= close <= pat@.len(),
                pat@[0] == OPEN_BRACE,
                forall|k: int| 0 <= k < close ==> pat@[k] != CLOSE_BRACE,
            decreases pat@.len() - close,
        {
            close += 1;
        }
        if close == pat.len() {
            // malformed pattern: unmatched `{`
            proof {
                lemma_first_index_none(pat@, CLOSE_BRACE);
            }
            return false;
        }
        proof {
            lemma_first_index_at(pat@, CLOSE_BRACE, close as int);
        }
        let inner = slice_subrange(pat, 1, close);
        let rest = slice_subrange(pat, close + 1, pat.len());
        return match_alternatives(inner, rest, text, pat);
    }
    if text.len() == 0 || text[0] != pat[0] {
        return false;
    }
    match_rec(slice_subrange(pat, 1, pat.len()), slice_subrange(text, 1, text.len()))
}

/// Tries each `,`-separated alternative of `inner`, followed by `rest`,
/// against `text`.
fn match_alternatives(inner: &[u8], rest: &[u8], text: &[u8], pat: &[u8]) -> (r: bool)
    requires
        inner@.len() + rest@.len() + 1 < pat@.len(),
    ensures
        r == alternatives_match(inner@, rest@, text@),
    decreases pat@.len(), text@.len(), 0int,
{
    let mut start: usize = 0;
    assert(inner@.skip(0) == inner@);
    loop
        invariant
            0 <= start <= inner@.len(),
            inner@.len() + rest@.len() + 1 < pat@.len(),
            alternatives_match(inner@, rest@, text@) == alternatives_match(
                inner@.skip(start as int),
                rest@,
                text@,
            ),
        decreases inner@.len() - start,
    {
        let mut end: usize = start;
        while end < inner.len() && inner[end] != COMMA
            invariant
                start <= end <= inner@.len(),
                forall|k: int| start <= k < end ==> inner@[k] != COMMA,
            decreases inner@.len() - end,
        {
            end += 1;
        }
        let ghost tail = inner@.skip(start as int);
        let alt = slice_subrange(inner, start, end);
        let combined = concat_bytes(alt, rest);
        if end == inner.len() {
            proof {
                lemma_first_index_none(tail, COMMA);
                assert(alt@ == tail);
            }
            return match_rec(combined.as_slice(), text);
        }
        proof {
            lemma_first_index_at(tail, COMMA, end - start);
            assert(alt@ == tail.take(end - start));
            assert(tail.skip(end - start + 1) == inner@.skip(end + 1));
        }
        if match_rec(combined.as_slice(), text) {
            return true;
        }
        start = end + 1;
    }
}


/// `pat` holds none of the bytes that have a meaning in a glob other
/// than themselves: `*`, `?`, `{`.
pub open spec fn is_literal(pat: Seq<u8>) -> bool {
    forall|k: int| 0 <= k < pat.len() ==> #[trigger] pat[k] != STAR && pat[k] != QUESTION && pat[k]
        != OPEN_BRACE
}

/// `text` ends with `suffix`.
pub open spec fn ends_with(text: Seq<u8>, suffix: Seq<u8>) -> bool {
    text.len() >= suffix.len() && text.skip(text.len() - suffix.len()) == suffix
}

/// A pattern without `*`, `?` or `{` matches exactly the text equal to it.
pub proof fn law_literal_matches_only_itself(pat: Seq<u8>, text: Seq<u8>)
    requires
        is_literal(pat),
    ensures
        glob_rec(pat, text) <==> pat == text,
    decreases pat.len(),
{
    if pat.len() == 0 {
        if text.len() == 0 {
            assert(pat =~= text);
        }
    } else {
        assert(is_literal(pat.skip(1)));
        law_literal_matches_only_itself(pat.skip(1), text.skip(1));
        if text.len() > 0 && text[0] == pat[0] && pat.skip(1) == text.skip(1) {
            assert forall|k: int| 0 <= k < pat.len() implies pat[k] == text[k] by {
                if k > 0 {
                    assert(pat[k] == pat.skip(1)[k - 1]);
                    assert(text[k] == text.skip(1)[k - 1]);
                }
            }
            assert(pat =~= text);
        }
        if pat == text {
            assert(pat.skip(1) == text.skip(1));
        }
    }
}

/// `*` followed by a literal `s` matches the texts that end with `s` and
/// have no `/` before that end: `*` never crosses a path separator.
pub proof fn law_star_stops_at_slash(s: Seq<u8>, text: Seq<u8>)
    requires
        is_literal(s),
    ensures
        glob_rec(seq![STAR] + s, text) <==> ends_with(text, s) && !text.take(
            text.len() - s.len(),
        ).contains(SLASH),
    decreases text.len(),
{
    let pat = seq![STAR] + s;
    assert(pat.skip(1) == s);
    assert(pat[0] == STAR);
    if s.len() > 0 {
        assert(pat[1] == s[0]);
    }
    law_literal_matches_only_itself(s, text);
    if text.len() > 0 {
        law_star_stops_at_slash(s, text.skip(1));
    }
    if text.len() >= s.len() {
        let k = text.len() - s.len();
        if k == 0 {
            assert(text.take(0) =~= Seq::<u8>::empty());
            assert(text.skip(0) == text);
        }
        if k > 0 {
            let t1 = text.skip(1);
            assert(t1.skip(t1.len() - s.len()) == text.skip(k));
            assert(text.take(k) == seq![text[0]] + t1.take(k - 1));
            if text.take(k).contains(SLASH) {
                let j = choose|j: int| 0 <= j < text.take(k).len() && #[trigger] text.take(k)[j] == SLASH;
                if j > 0 {
                    assert(t1.take(k - 1)[j - 1] == SLASH);
                }
            }
            if t1.take(k - 1).contains(SLASH) {
                let j = choose|j: int| 0 <= j < t1.take(k - 1).len() && #[trigger] t1.take(k - 1)[j] == SLASH;
                assert(text.take(k)[j + 1] == SLASH);
            }
            if text[0] == SLASH {
                assert(text.take(k)[0] == SLASH);
            }
        }
    }
}

/// `**` followed by a literal `s` that does not start with `/` matches
/// the texts that end with `s`: `**` spans any run, `/` included.
pub proof fn law_double_star_matches_any_run(s: Seq<u8>, text: Seq<u8>)
    requires
        is_literal(s),
        s.len() == 0 || s[0] != SLASH,
    ensures
        glob_rec(seq![STAR, STAR] + s, text) <==> ends_with(text, s),
    decreases text.len(),
{
    let pat = seq![STAR, STAR] + s;
    assert(pat.skip(2) == s);
    if s.len() > 0 {
        assert(pat[2] == s[0]);
    }
    law_literal_matches_only_itself(s, text);
    if text.len() > 0 {
        law_double_star_matches_any_run(s, text.skip(1));
    }
    if text.len() >= s.len() {
        let k = text.len() - s.len();
        if k == 0 {
            assert(text.skip(0) == text);
        } else {
            let t1 = text.skip(1);
            assert(t1.skip(t1.len() - s.len()) == text.skip(k));
        }
    }
}

/// `after_directories` tries each `/` of the text.
proof fn lemma_after_directories(rest: Seq<u8>, text: Seq<u8>)
    ensures
        after_directories(rest, text) <==> exists|k: int|
            1 <= k <= text.len() && text[k - 1] == SLASH && #[trigger] glob_rec(rest, text.skip(k)),
    decreases text.len(),
{
    if text.len() > 0 {
        let t1 = text.skip(1);
        lemma_after_directories(rest, t1);
        if text[0] == SLASH && glob_rec(rest, text.skip(1)) {
            assert(text[1 - 1] == SLASH);
        }
        if exists|k: int| 1 <= k <= t1.len() && t1[k - 1] == SLASH && #[trigger] glob_rec(rest, t1.skip(k)) {
            let k = choose|k: int| 1 <= k <= t1.len() && t1[k - 1] == SLASH && #[trigger] glob_rec(rest, t1.skip(k));
            assert(t1.skip(k) == text.skip(k + 1));
            assert(text[k] == t1[k - 1]);
        }
        if exists|k: int| 1 <= k <= text.len() && text[k - 1] == SLASH && #[trigger] glob_rec(rest, text.skip(k)) {
            let k = choose|k: int| 1 <= k <= text.len() && text[k - 1] == SLASH && #[trigger] glob_rec(rest, text.skip(k));
            if k > 1 {
                assert(t1.skip(k - 1) == text.skip(k));
                assert(t1[k - 2] == text[k - 1]);
            }
        }
    }
}

/// `**/` followed by `rest` matches a text when `rest` matches the whole
/// text, or matches what follows some prefix of the text that ends with
/// `/`: `**/` stands for zero or more whole directories.
pub proof fn law_double_star_slash_spans_whole_directories(rest: Seq<u8>, text: Seq<u8>)
    ensures
        glob_rec(seq![STAR, STAR, SLASH] + rest, text) <==> glob_rec(rest, text) || exists|k: int|
            1 <= k <= text.len() && text[k - 1] == SLASH && #[trigger] glob_rec(rest, text.skip(k)),
{
    let pat = seq![STAR, STAR, SLASH] + rest;
    assert(pat.skip(3) == rest);
    assert(pat[2] == SLASH);
    lemma_after_directories(rest, text);
}

/// `**/` followed by a literal `s` matches `s` itself and the texts that
/// end with `/` followed by `s`.
pub proof fn law_double_star_slash_before_a_literal(s: Seq<u8>, text: Seq<u8>)
    requires
        is_literal(s),
    ensures
        glob_rec(seq![STAR, STAR, SLASH] + s, text) <==> text == s || (ends_with(text, s) && text.len()
            > s.len() && text[text.len() - s.len() - 1] == SLASH),
{
    law_double_star_slash_spans_whole_directories(s, text);
    law_literal_matches_only_itself(s, text);
    if exists|k: int| 1 <= k <= text.len() && text[k - 1] == SLASH && #[trigger] glob_rec(s, text.skip(k)) {
        let k = choose|k: int| 1 <= k <= text.len() && text[k - 1] == SLASH && #[trigger] glob_rec(s, text.skip(k));
        law_literal_matches_only_itself(s, text.skip(k));
    }
    if text != s && ends_with(text, s) && text.len() > s.len() && text[text.len() - s.len() - 1] == SLASH {
        let k = text.len() - s.len();
        law_literal_matches_only_itself(s, text.skip(k));
        assert(glob_rec(s, text.skip(k)));
    }
}

/// `{a,b}` followed by `rest`, where neither alternative holds `,` or `}`,
/// matches what `a` followed by `rest` or `b` followed by `rest` matches.
pub proof fn law_braces_choose_an_alternative(a: Seq<u8>, b: Seq<u8>, rest: Seq<u8>, text: Seq<u8>)
    requires
        !a.contains(COMMA) && !a.contains(CLOSE_BRACE),
        !b.contains(COMMA) && !b.contains(CLOSE_BRACE),
    ensures
        glob_rec(seq![OPEN_BRACE] + a + seq![COMMA] + b + seq![CLOSE_BRACE] + rest, text) <==> (
        glob_rec(a + rest, text) || glob_rec(b + rest, text)),
{
    let pat = seq![OPEN_BRACE] + a + seq![COMMA] + b + seq![CLOSE_BRACE] + rest;
    let close: int = a.len() as int + b.len() as int + 2;
    assert forall|k: int| 0 <= k < close implies pat[k] != CLOSE_BRACE by {
        if 1 <= k < a.len() + 1 {
            assert(pat[k] == a[k - 1]);
        } else if a.len() + 2 <= k < close {
            assert(pat[k] == b[k - a.len() - 2]);
        }
    }
    assert(pat[close] == CLOSE_BRACE);
    lemma_first_index_at(pat, CLOSE_BRACE, close);
    let inner = pat.subrange(1, close);
    assert(inner =~= a + seq![COMMA] + b);
    assert(pat.skip(close + 1) =~= rest);
    assert forall|k: int| 0 <= k < a.len() implies inner[k] != COMMA by {
        assert(inner[k] == a[k]);
    }
    lemma_first_index_at(inner, COMMA, a.len() as int);
    assert(inner.take(a.len() as int) =~= a);
    assert(inner.skip(a.len() as int + 1) =~= b);
    assert forall|k: int| 0 <= k < b.len() implies b[k] != COMMA by {}
    lemma_first_index_none(b, COMMA);
    assert(pat[0] == OPEN_BRACE);
    assert(glob_rec(pat, text) == alternatives_match(inner, rest, text));
    assert(alternatives_match(inner, rest, text) == (glob_rec(a + rest, text) || alternatives_match(
        b,
        rest,
        text,
    )));
    assert(alternatives_match(b, rest, text) == glob_rec(b + rest, text));
}

/// The alternatives `alts` written with a `,` between each two.
pub open spec fn join_commas(alts: Seq<Seq<u8>>) -> Seq<u8>
    decreases alts.len(),
{
    if alts.len() == 0 {
        Seq::empty()
    } else if alts.len() == 1 {
        alts[0]
    } else {
        alts[0] + seq![COMMA] + join_commas(alts.drop_first())
    }
}

/// Alternatives without `}` join into text without `}`.
proof fn lemma_join_commas_no_close(alts: Seq<Seq<u8>>)
    requires
        forall|i: int| 0 <= i < alts.len() ==> !(#[trigger] alts[i]).contains(CLOSE_BRACE),
    ensures
        !join_commas(alts).contains(CLOSE_BRACE),
    decreases alts.len(),
{
    if alts.len() > 1 {
        let t = alts.drop_first();
        assert forall|i: int| 0 <= i < t.len() implies !(#[trigger] t[i]).contains(CLOSE_BRACE) by {
            assert(t[i] == alts[i + 1]);
        }
        lemma_join_commas_no_close(t);
        let j = join_commas(alts);
        let a0 = alts[0];
        let rest = join_commas(t);
        assert(j == a0 + seq![COMMA] + rest);
        if j.contains(CLOSE_BRACE) {
            let k = choose|k: int| 0 <= k < j.len() && #[trigger] j[k] == CLOSE_BRACE;
            if k < a0.len() {
                assert(a0[k] == CLOSE_BRACE);
            } else if k > a0.len() {
                assert(rest[k - a0.len() - 1] == CLOSE_BRACE);
            }
        }
    } else if alts.len() == 1 {
        assert(!alts[0].contains(CLOSE_BRACE));
    }
}

/// Trying the alternatives of a joined list tries each of them.
proof fn lemma_alternatives_of_join(alts: Seq<Seq<u8>>, rest: Seq<u8>, text: Seq<u8>)
    requires
        alts.len() >= 1,
        forall|i: int| 0 <= i < alts.len() ==> !(#[trigger] alts[i]).contains(COMMA),
    ensures
        alternatives_match(join_commas(alts), rest, text) <==> exists|i: int|
            0 <= i < alts.len() && #[trigger] glob_rec(alts[i] + rest, text),
    decreases alts.len(),
{
    let a0 = alts[0];
    assert(!a0.contains(COMMA));
    assert forall|k: int| 0 <= k < a0.len() implies a0[k] != COMMA by {
        if a0[k] == COMMA {
            assert(a0.contains(COMMA));
        }
    }
    if alts.len() == 1 {
        lemma_first_index_none(a0, COMMA);
        assert(glob_rec(alts[0] + rest, text) == alternatives_match(join_commas(alts), rest, text));
    } else {
        let t = alts.drop_first();
        assert forall|i: int| 0 <= i < t.len() implies !(#[trigger] t[i]).contains(COMMA) by {
            assert(t[i] == alts[i + 1]);
        }
        lemma_alternatives_of_join(t, rest, text);
        let j = join_commas(alts);
        assert(j == a0 + seq![COMMA] + join_commas(t));
        assert forall|k: int| 0 <= k < a0.len() implies j[k] != COMMA by {
            assert(j[k] == a0[k]);
        }
        lemma_first_index_at(j, COMMA, a0.len() as int);
        assert(j.take(a0.len() as int) =~= a0);
        assert(j.skip(a0.len() as int + 1) =~= join_commas(t));
        assert(alternatives_match(j, rest, text) == (glob_rec(a0 + rest, text) || alternatives_match(
            join_commas(t),
            rest,
            text,
        )));
        if exists|i: int| 0 <= i < alts.len() && #[trigger] glob_rec(alts[i] + rest, text) {
            let i = choose|i: int| 0 <= i < alts.len() && #[trigger] glob_rec(alts[i] + rest, text);
            if i > 0 {
                assert(t[i - 1] == alts[i]);
            }
        }
        if exists|i: int| 0 <= i < t.len() && #[trigger] glob_rec(t[i] + rest, text) {
            let i = choose|i: int| 0 <= i < t.len() && #[trigger] glob_rec(t[i] + rest, text);
            assert(t[i] == alts[i + 1]);
        }
    }
}

/// `{a1,...,an}` followed by `rest`, where no alternative holds `,` or
/// `}`, matches exactly what some `ai` followed by `rest` matches: every
/// alternative is tried, however many there are.
pub proof fn law_braces_try_every_alternative(alts: Seq<Seq<u8>>, rest: Seq<u8>, text: Seq<u8>)
    requires
        alts.len() >= 1,
        forall|i: int| 0 <= i < alts.len() ==> !(#[trigger] alts[i]).contains(COMMA) && !alts[i].contains(
            CLOSE_BRACE,
        ),
    ensures
        glob_rec(seq![OPEN_BRACE] + join_commas(alts) + seq![CLOSE_BRACE] + rest, text) <==> exists|
            i: int,
        | 0 <= i < alts.len() && #[trigger] glob_rec(alts[i] + rest, text),
{
    let inner = join_commas(alts);
    let pat = seq![OPEN_BRACE] + inner + seq![CLOSE_BRACE] + rest;
    lemma_join_commas_no_close(alts);
    let close: int = inner.len() as int + 1;
    assert forall|k: int| 0 <= k < close implies pat[k] != CLOSE_BRACE by {
        if k >= 1 {
            assert(pat[k] == inner[k - 1]);
            if inner[k - 1] == CLOSE_BRACE {
                assert(inner.contains(CLOSE_BRACE));
            }
        }
    }
    assert(pat[close] == CLOSE_BRACE);
    lemma_first_index_at(pat, CLOSE_BRACE, close);
    assert(pat.subrange(1, close) =~= inner);
    assert(pat.skip(close + 1) =~= rest);
    assert(pat[0] == OPEN_BRACE);
    assert(glob_rec(pat, text) == alternatives_match(inner, rest, text));
    lemma_alternatives_of_join(alts, rest, text);
}

/// `pat.skip(off)` still has a `{` and no `}` when `pat` has them after
/// position `off`.
proof fn lemma_unclosed_suffix(pat: Seq<u8>, off: int, j: int)
    requires
        0 <= off <= j < pat.len(),
        pat[j] == OPEN_BRACE,
        !pat.contains(CLOSE_BRACE),
    ensures
        pat.skip(off).contains(OPEN_BRACE),
        !pat.skip(off).contains(CLOSE_BRACE),
{
    let r = pat.skip(off);
    assert(r[j - off] == OPEN_BRACE);
    if r.contains(CLOSE_BRACE) {
        let i = choose|i: int| 0 <= i < r.len() && #[trigger] r[i] == CLOSE_BRACE;
        assert(pat[i + off] == CLOSE_BRACE);
    }
}

/// A pattern with a `{` and no `}` anywhere matches nothing.
pub proof fn law_unclosed_brace_matches_nothing(pat: Seq<u8>, text: Seq<u8>)
    requires
        pat.contains(OPEN_BRACE),
        !pat.contains(CLOSE_BRACE),
    ensures
        !glob_rec(pat, text),
    decreases pat.len(), text.len(), 1int,
{
    let j = choose|j: int| 0 <= j < pat.len() && #[trigger] pat[j] == OPEN_BRACE;
    if pat.len() >= 2 && pat[0] == STAR && pat[1] == STAR {
        if pat.len() >= 3 && pat[2] == SLASH {
            lemma_unclosed_suffix(pat, 3, j);
            law_unclosed_brace_matches_nothing(pat.skip(3), text);
            lemma_unclosed_never_after_directories(pat.skip(3), text);
        } else {
            lemma_unclosed_suffix(pat, 2, j);
            law_unclosed_brace_matches_nothing(pat.skip(2), text);
            if text.len() > 0 {
                law_unclosed_brace_matches_nothing(pat, text.skip(1));
            }
        }
    } else if pat[0] == OPEN_BRACE {
        lemma_first_index_none(pat, CLOSE_BRACE);
    } else {
        lemma_unclosed_suffix(pat, 1, j);
        let rest = pat.skip(1);
        law_unclosed_brace_matches_nothing(rest, text);
        if text.len() > 0 {
            law_unclosed_brace_matches_nothing(rest, text.skip(1));
            if pat[0] == STAR {
                law_unclosed_brace_matches_nothing(pat, text.skip(1));
            }
            if text.len() >= utf8_width(text[0]) {
                law_unclosed_brace_matches_nothing(rest, text.skip(utf8_width(text[0])));
            }
        }
    }
}

/// A pattern with a `{` and no `}` matches after no `/` either.
proof fn lemma_unclosed_never_after_directories(rest: Seq<u8>, text: Seq<u8>)
    requires
        rest.contains(OPEN_BRACE),
        !rest.contains(CLOSE_BRACE),
    ensures
        !after_directories(rest, text),
    decreases rest.len() + 1, text.len(), 0int,
{
    if text.len() > 0 {
        law_unclosed_brace_matches_nothing(rest, text.skip(1));
        lemma_unclosed_never_after_directories(rest, text.skip(1));
    }
}

/// A pattern with a `{` and no `}` matches no path.
pub proof fn law_unclosed_brace_matches_no_path(pat: Seq<u8>, path: Seq<u8>)
    requires
        pat.contains(OPEN_BRACE),
        !pat.contains(CLOSE_BRACE),
    ensures
        !path_matches(pat, path),
{
    law_unclosed_brace_matches_nothing(pat, path);
    law_unclosed_brace_matches_nothing(pat, last_component(path));
}

/// A pattern without `/` is matched against the path's final component
/// only; a pattern with a `/` against the whole path.
pub proof fn law_where_a_pattern_is_matched(pat: Seq<u8>, path: Seq<u8>)
    ensures
        !pat.contains(SLASH) ==> (path_matches(pat, path) == glob_rec(pat, last_component(path))),
        pat.contains(SLASH) ==> (path_matches(pat, path) == glob_rec(pat, path)),
{
}

/// `*` followed by a literal `s` without `/` matches exactly the paths
/// whose final component ends with `s`, at any depth.
pub proof fn law_star_suffix_matches_final_component(s: Seq<u8>, path: Seq<u8>)
    requires
        is_literal(s),
        !s.contains(SLASH),
    ensures
        path_matches(seq![STAR] + s, path) <==> ends_with(last_component(path), s),
{
    let pat = seq![STAR] + s;
    let lc = last_component(path);
    assert(!pat.contains(SLASH)) by {
        if pat.contains(SLASH) {
            let i = choose|i: int| 0 <= i < pat.len() && #[trigger] pat[i] == SLASH;
            assert(s[i - 1] == SLASH);
        }
    }
    lemma_last_index(path, SLASH);
    assert(!lc.contains(SLASH)) by {
        if lc.contains(SLASH) {
            let i = choose|i: int| 0 <= i < lc.len() && #[trigger] lc[i] == SLASH;
            match last_index(path, SLASH) {
                Some(l) => assert(path[l + 1 + i] == SLASH),
                None => assert(path[i] == SLASH),
            }
        }
    }
    law_star_stops_at_slash(s, lc);
    if ends_with(lc, s) {
        assert(!lc.take(lc.len() - s.len()).contains(SLASH)) by {
            if lc.take(lc.len() - s.len()).contains(SLASH) {
                let i = choose|i: int| 0 <= i < lc.take(lc.len() - s.len()).len() && #[trigger] lc.take(lc.len() - s.len())[i] == SLASH;
                assert(lc[i] == SLASH);
            }
        }
    }
}

/// The UTF-8 encoding of `c`: its first byte announces its length, and
/// it holds a `/` only when `c` is `/`.
proof fn lemma_encoded_char(c: char)
    ensures
        encode_scalar(c as u32).len() >= 1,
        utf8_width(encode_scalar(c as u32)[0]) == encode_scalar(c as u32).len(),
        encode_scalar(c as u32).contains(SLASH) <==> c == '/',
{
    let v = c as u32;
    let e = encode_scalar(v);
    char_is_scalar(c);
    if has_width_1_encoding(v) {
        assert(v <= 0x7f ==> ((v & 0x7f) as u8) as u32 == v) by (bit_vector);
        if e.contains(SLASH) {
            assert(e[0] == SLASH);
            char_u32_cast(c, v);
            assert(c == (47u32 as char));
        }
        if c == '/' {
            assert(e[0] == SLASH);
        }
    } else if has_width_2_encoding(v) {
        assert(0x80 <= v <= 0x7ff ==> 0xc0 <= (0xC0 | ((v >> 6) & 0x1F) as u8) <= 0xdf) by (bit_vector);
        assert(0x80 | (v & 0x3F) as u8 >= 0x80) by (bit_vector);
        assert(!e.contains(SLASH));
        assert(c != '/');
    } else if has_width_3_encoding(v) {
        assert(0x800 <= v <= 0xffff ==> 0xe0 <= (0xE0 | ((v >> 12) & 0x0F) as u8) <= 0xef) by (bit_vector);
        assert(0x80 | (v & 0x3F) as u8 >= 0x80) by (bit_vector);
        assert(0x80 | ((v >> 6) & 0x3F) as u8 >= 0x80) by (bit_vector);
        assert(!e.contains(SLASH));
        assert(c != '/');
    } else {
        assert(0x10000 <= v <= 0x10ffff ==> 0xf0 <= (0xF0 | ((v >> 18) & 0x7) as u8)) by (bit_vector);
        assert(0x80 | (v & 0x3F) as u8 >= 0x80) by (bit_vector);
        assert(0x80 | ((v >> 6) & 0x3F) as u8 >= 0x80) by (bit_vector);
        assert(0x80 | ((v >> 12) & 0x3F) as u8 >= 0x80) by (bit_vector);
        assert(!e.contains(SLASH));
        assert(c != '/');
    }
}

/// `?` followed by `s` matches a text of one character other than `/`,
/// whatever its length in bytes, followed by what `s` matches; it
/// matches no empty text.
pub proof fn law_question_mark_matches_one_character(s: Seq<u8>, c: char, rest: Seq<char>)
    ensures
        glob_rec(seq![QUESTION] + s, encode_utf8(seq![c] + rest)) <==> c != '/' && glob_rec(
            s,
            encode_utf8(rest),
        ),
        !glob_rec(seq![QUESTION] + s, Seq::empty()),
{
    let pat = seq![QUESTION] + s;
    assert(pat.skip(1) == s);
    assert(pat[0] == QUESTION);
    let chars = seq![c] + rest;
    assert(chars[0] == c);
    assert(chars.drop_first() == rest);
    let e = encode_scalar(c as u32);
    let text = encode_utf8(chars);
    assert(text == e + encode_utf8(rest));
    lemma_encoded_char(c);
    assert(text[0] == e[0]);
    assert(text.take(e.len() as int) == e);
    assert(text.skip(e.len() as int) == encode_utf8(rest));
}
} // verus!
