//! Character-level helpers shared by the parser and the checker.

use vstd::prelude::*;
use vstd::string::StringExecFns;
use vstd::utf8::is_ascii_chars;

verus! {

broadcast use vstd::string::group_string_axioms;

/// Index of the first occurrence of `c` in `s`, if any.
pub open spec fn first_index<T>(s: Seq<T>, c: T) -> Option<int>
    decreases s.len(),
{
    if s.len() == 0 {
        None
    } else if s[0] == c {
        Some(0)
    } else {
        match first_index(s.drop_first(), c) {
            Some(i) => Some(i + 1),
            None => None,
        }
    }
}

/// Index of the last occurrence of `c` in `s`, if any.
pub open spec fn last_index<T>(s: Seq<T>, c: T) -> Option<int>
    decreases s.len(),
{
    if s.len() == 0 {
        None
    } else if s.last() == c {
        Some(s.len() - 1)
    } else {
        last_index(s.drop_last(), c)
    }
}

/// What `first_index` returns, stated without recursion.
pub proof fn lemma_first_index<T>(s: Seq<T>, c: T)
    ensures
        match first_index(s, c) {
            Some(i) => 0 <= i < s.len() && s[i] == c && forall|k: int| 0 <= k < i ==> s[k] != c,
            None => forall|k: int| 0 <= k < s.len() ==> s[k] != c,
        },
    decreases s.len(),
{
    if s.len() > 0 && s[0] != c {
        lemma_first_index(s.drop_first(), c);
        if let Some(i) = first_index(s.drop_first(), c) {
            assert forall|k: int| 0 <= k < i + 1 implies s[k] != c by {
                if k > 0 {
                    assert(s[k] == s.drop_first()[k - 1]);
                }
            }
        } else {
            assert forall|k: int| 0 <= k < s.len() implies s[k] != c by {
                if k > 0 {
                    assert(s[k] == s.drop_first()[k - 1]);
                }
            }
        }
    }
}

/// `first_index` is the position of the first `c`.
pub proof fn lemma_first_index_at<T>(s: Seq<T>, c: T, i: int)
    requires
        0 <= i < s.len(),
        s[i] == c,
        forall|k: int| 0 <= k < i ==> s[k] != c,
    ensures
        first_index(s, c) == Some(i),
{
    lemma_first_index(s, c);
    match first_index(s, c) {
        Some(j) => {
            if j < i {
                assert(s[j] != c);
            } else if j > i {
                assert(s[i] != c);
            }
        },
        None => {
            assert(s[i] != c);
        },
    }
}

/// `first_index` is `None` when `c` does not occur.
pub proof fn lemma_first_index_none<T>(s: Seq<T>, c: T)
    requires
        forall|k: int| 0 <= k < s.len() ==> s[k] != c,
    ensures
        first_index(s, c) is None,
{
    lemma_first_index(s, c);
    if let Some(j) = first_index(s, c) {
        assert(s[j] != c);
    }
}

/// What `last_index` returns, stated without recursion.
pub proof fn lemma_last_index<T>(s: Seq<T>, c: T)
    ensures
        match last_index(s, c) {
            Some(i) => 0 <= i < s.len() && s[i] == c && forall|k: int| i < k < s.len() ==> s[k]
                != c,
            None => forall|k: int| 0 <= k < s.len() ==> s[k] != c,
        },
    decreases s.len(),
{
    if s.len() > 0 && s.last() != c {
        lemma_last_index(s.drop_last(), c);
        assert forall|k: int| 0 <= k < s.len() - 1 implies s[k] == s.drop_last()[k] by {}
    }
}

/// `last_index` is the position of the last `c`.
pub proof fn lemma_last_index_at<T>(s: Seq<T>, c: T, i: int)
    requires
        0 <= i < s.len(),
        s[i] == c,
        forall|k: int| i < k < s.len() ==> s[k] != c,
    ensures
        last_index(s, c) == Some(i),
{
    lemma_last_index(s, c);
    match last_index(s, c) {
        Some(j) => {
            if j < i {
                assert(s[i] != c);
            } else if j > i {
                assert(s[j] != c);
            }
        },
        None => {
            assert(s[i] != c);
        },
    }
}

/// `last_index` is `None` when `c` does not occur.
pub proof fn lemma_last_index_none<T>(s: Seq<T>, c: T)
    requires
        forall|k: int| 0 <= k < s.len() ==> s[k] != c,
    ensures
        last_index(s, c) is None,
{
    lemma_last_index(s, c);
    if let Some(j) = last_index(s, c) {
        assert(s[j] != c);
    }
}

/// The characters of `s`, in order.
pub fn chars_of(s: &str) -> (out: Vec<char>)
    ensures
        out@ == s@,
{
    let mut out: Vec<char> = Vec::new();
    for c in it: s.chars()
        invariant
            out@ == it.seq().take(it.index() as int),
            it.seq() == s@,
    {
        out.push(c);
    }
    out
}

/// Whether `c` has the Unicode `White_Space` property, which is what
/// `char::is_whitespace` and `str::trim` test: U+0009 to U+000D, U+0020,
/// U+0085, U+00A0, U+1680, U+2000 to U+200A, U+2028, U+2029, U+202F,
/// U+205F and U+3000.
pub open spec fn unicode_white_space(c: char) -> bool {
    ('\u{9}' <= c <= '\u{d}') || c == ' ' || c == '\u{85}' || c == '\u{a0}' || c == '\u{1680}'
        || ('\u{2000}' <= c <= '\u{200a}') || c == '\u{2028}' || c == '\u{2029}' || c == '\u{202f}'
        || c == '\u{205f}' || c == '\u{3000}'
}

/// The lowercase form of `s` that `str::to_lowercase` returns.
pub uninterp spec fn lowercase_of(s: Seq<char>) -> Seq<char>;

/// `c` with `A` to `Z` turned into `a` to `z`.
pub open spec fn ascii_lower(c: char) -> char {
    if 'A' <= c <= 'Z' {
        ((c as u32) + 32) as char
    } else {
        c
    }
}

/// Whether `c` is white space, as `char::is_whitespace` reports it.
pub fn is_white_space(c: char) -> (r: bool)
    ensures
        r == unicode_white_space(c),
{
    ('\u{9}' <= c && c <= '\u{d}') || c == ' ' || c == '\u{85}' || c == '\u{a0}' || c == '\u{1680}'
        || ('\u{2000}' <= c && c <= '\u{200a}') || c == '\u{2028}' || c == '\u{2029}' || c
        == '\u{202f}' || c == '\u{205f}' || c == '\u{3000}'
}

/// Calls `str::to_lowercase`. The contract names its result, a function
/// of the characters of `s`; of the Unicode case tables it states only
/// the ASCII part, where `A` to `Z` become `a` to `z` and every other
/// character stays.
#[verifier::external_body]
pub(crate) fn to_lowercase(s: &str) -> (r: String)
    ensures
        r@ == lowercase_of(s@),
        is_ascii_chars(s@) ==> r@ == s@.map_values(|c: char| ascii_lower(c)),
{
    s.to_lowercase()
}

/// Calls `String::push`, which appends one character.
#[verifier::external_body]
pub(crate) fn push_char(s: &mut String, c: char)
    ensures
        final(s)@ == old(s)@.push(c),
{
    s.push(c);
}

/// Appends the characters of `t` to `s`.
pub fn push_str(s: &mut String, t: &str)
    ensures
        final(s)@ == old(s)@ + t@,
{
    s.append(t);
}

/// Whether `a` and `b` hold the same characters, as `==` on string slices
/// reports it.
pub fn str_equal(a: &str, b: &str) -> (r: bool)
    ensures
        r == (a@ == b@),
{
    let x = chars_of(a);
    let y = chars_of(b);
    if x.len() != y.len() {
        return false;
    }
    let mut i: usize = 0;
    while i < x.len()
        invariant
            0 <= i <= x@.len(),
            x@ == a@,
            y@ == b@,
            x@.len() == y@.len(),
            forall|k: int| 0 <= k < i ==> x@[k] == y@[k],
        decreases x@.len() - i,
    {
        if x[i] != y[i] {
            return false;
        }
        i += 1;
    }
    assert(x@ =~= y@);
    true
}

/// `a` comes before `b` in the lexicographic order of their code points.
pub open spec fn chars_less(a: Seq<char>, b: Seq<char>) -> bool
    decreases a.len(),
{
    if a.len() == 0 {
        b.len() > 0
    } else if b.len() == 0 {
        false
    } else if a[0] != b[0] {
        (a[0] as int) < (b[0] as int)
    } else {
        chars_less(a.drop_first(), b.drop_first())
    }
}

/// Whether `a` comes before `b`, as `<` on string slices reports it: std
/// orders strings by their UTF-8 bytes, which is the order of their code
/// points.
pub fn str_less(a: &str, b: &str) -> (r: bool)
    ensures
        r == chars_less(a@, b@),
{
    let x = chars_of(a);
    let y = chars_of(b);
    let mut i: usize = 0;
    assert(a@.skip(0) == a@ && b@.skip(0) == b@);
    while i < x.len() && i < y.len() && x[i] == y[i]
        invariant
            0 <= i <= x@.len(),
            i <= y@.len(),
            x@ == a@,
            y@ == b@,
            chars_less(a@, b@) == chars_less(a@.skip(i as int), b@.skip(i as int)),
        decreases x@.len() - i,
    {
        assert(a@.skip(i as int).drop_first() == a@.skip(i + 1));
        assert(b@.skip(i as int).drop_first() == b@.skip(i + 1));
        i += 1;
    }
    if i == x.len() {
        return i < y.len();
    }
    if i == y.len() {
        return false;
    }
    assert(a@.skip(i as int)[0] == x@[i as int]);
    assert(b@.skip(i as int)[0] == y@[i as int]);
    x[i] < y[i]
}

/// No string comes before itself.
pub proof fn lemma_chars_less_irreflexive(a: Seq<char>)
    ensures
        !chars_less(a, a),
    decreases a.len(),
{
    if a.len() > 0 {
        lemma_chars_less_irreflexive(a.drop_first());
    }
}

/// Of two different strings, one comes before the other.
pub proof fn lemma_chars_less_total(a: Seq<char>, b: Seq<char>)
    ensures
        a == b || chars_less(a, b) || chars_less(b, a),
    decreases a.len(),
{
    if a.len() > 0 && b.len() > 0 {
        if a[0] == b[0] {
            lemma_chars_less_total(a.drop_first(), b.drop_first());
            if a.drop_first() == b.drop_first() {
                assert(a.drop_first().len() == b.drop_first().len());
                assert(a.len() == b.len());
                assert(a =~= b) by {
                    assert forall|k: int| 0 <= k < a.len() implies a[k] == b[k] by {
                        if k > 0 {
                            assert(a[k] == a.drop_first()[k - 1]);
                            assert(b[k] == b.drop_first()[k - 1]);
                        }
                    }
                }
            }
        } else {
            assert((a[0] as int) != (b[0] as int));
        }
    } else if a.len() == 0 && b.len() == 0 {
        assert(a =~= b);
    }
}

/// The order is transitive.
pub proof fn lemma_chars_less_transitive(a: Seq<char>, b: Seq<char>, c: Seq<char>)
    requires
        chars_less(a, b),
        chars_less(b, c),
    ensures
        chars_less(a, c),
    decreases a.len(),
{
    if a.len() > 0 && a[0] == b[0] && b[0] == c[0] {
        lemma_chars_less_transitive(a.drop_first(), b.drop_first(), c.drop_first());
    }
}

/// `s` without its leading white space.
pub open spec fn trim_start(s: Seq<char>) -> Seq<char>
    decreases s.len(),
{
    if s.len() > 0 && unicode_white_space(s[0]) {
        trim_start(s.drop_first())
    } else {
        s
    }
}

/// `s` without its trailing white space.
pub open spec fn trim_end(s: Seq<char>) -> Seq<char>
    decreases s.len(),
{
    if s.len() > 0 && unicode_white_space(s.last()) {
        trim_end(s.drop_last())
    } else {
        s
    }
}

/// `s` without leading and trailing white space, as `str::trim` gives it.
pub open spec fn trim(s: Seq<char>) -> Seq<char> {
    trim_end(trim_start(s))
}

/// `trim_start` removes a run of white space: all of it, and no more.
pub proof fn lemma_trim_start_shape(s: Seq<char>)
    ensures
        trim_start(s).len() <= s.len(),
        trim_start(s) == s.skip(s.len() - trim_start(s).len()),
        forall|k: int| 0 <= k < s.len() - trim_start(s).len() ==> unicode_white_space(#[trigger] s[k]),
        trim_start(s).len() > 0 ==> !unicode_white_space(trim_start(s)[0]),
    decreases s.len(),
{
    if s.len() > 0 && unicode_white_space(s[0]) {
        let t = s.drop_first();
        lemma_trim_start_shape(t);
        assert(t.skip(t.len() - trim_start(t).len()) == s.skip(s.len() - trim_start(s).len()));
        assert forall|k: int| 0 <= k < s.len() - trim_start(s).len() implies unicode_white_space(#[trigger] s[k]) by {
            if k > 0 {
                assert(s[k] == t[k - 1]);
            }
        }
    } else {
        assert(s.skip(0) == s);
    }
}

/// `trim_end` removes a run of white space: all of it, and no more.
pub proof fn lemma_trim_end_shape(s: Seq<char>)
    ensures
        trim_end(s).len() <= s.len(),
        trim_end(s) == s.take(trim_end(s).len() as int),
        forall|k: int| trim_end(s).len() <= k < s.len() ==> unicode_white_space(#[trigger] s[k]),
        trim_end(s).len() > 0 ==> !unicode_white_space(trim_end(s).last()),
    decreases s.len(),
{
    if s.len() > 0 && unicode_white_space(s.last()) {
        let t = s.drop_last();
        lemma_trim_end_shape(t);
        assert(t.take(trim_end(t).len() as int) == s.take(trim_end(s).len() as int));
        assert forall|k: int| trim_end(s).len() <= k < s.len() implies unicode_white_space(#[trigger] s[k]) by {
            if k < s.len() - 1 {
                assert(s[k] == t[k]);
            }
        }
    } else {
        assert(s.take(s.len() as int) == s);
    }
}

/// White space before a text does not change its trimmed form.
pub proof fn lemma_trim_start_after_white_space(w: Seq<char>, y: Seq<char>)
    requires
        forall|k: int| 0 <= k < w.len() ==> unicode_white_space(#[trigger] w[k]),
    ensures
        trim_start(w + y) == trim_start(y),
    decreases w.len(),
{
    if w.len() > 0 {
        assert(w[0] == (w + y)[0]);
        assert((w + y).drop_first() == w.drop_first() + y);
        assert forall|k: int| 0 <= k < w.drop_first().len() implies unicode_white_space(#[trigger] w.drop_first()[k]) by {
            assert(w.drop_first()[k] == w[k + 1]);
        }
        lemma_trim_start_after_white_space(w.drop_first(), y);
    } else {
        assert(w + y == y);
    }
}

/// White space after a text does not change where `trim_end` cuts it.
pub proof fn lemma_trim_end_before_white_space(y: Seq<char>, w: Seq<char>)
    requires
        forall|k: int| 0 <= k < w.len() ==> unicode_white_space(#[trigger] w[k]),
    ensures
        trim_end(y + w) == trim_end(y),
    decreases w.len(),
{
    if w.len() > 0 {
        assert((y + w).last() == w.last());
        assert(unicode_white_space(w[w.len() - 1]));
        assert((y + w).drop_last() == y + w.drop_last());
        assert forall|k: int| 0 <= k < w.drop_last().len() implies unicode_white_space(#[trigger] w.drop_last()[k]) by {
            assert(w.drop_last()[k] == w[k]);
        }
        lemma_trim_end_before_white_space(y, w.drop_last());
    } else {
        assert(y + w == y);
    }
}

/// White space before or after a text does not change its trimmed form.
pub proof fn lemma_trim_ignores_outer_white_space(w1: Seq<char>, y: Seq<char>, w2: Seq<char>)
    requires
        forall|k: int| 0 <= k < w1.len() ==> unicode_white_space(#[trigger] w1[k]),
        forall|k: int| 0 <= k < w2.len() ==> unicode_white_space(#[trigger] w2[k]),
    ensures
        trim(w1 + y + w2) == trim(y),
{
    lemma_trim_start_after_white_space(w1, y + w2);
    assert(w1 + y + w2 == w1 + (y + w2));
    lemma_trim_start_shape(y);
    let p = y.len() - trim_start(y).len();
    if trim_start(y).len() == 0 {
        // y is white space only, and so is y + w2
        assert forall|k: int| 0 <= k < (y + w2).len() implies unicode_white_space(#[trigger] (y + w2)[k]) by {
            if k < y.len() {
                assert((y + w2)[k] == y[k]);
            } else {
                assert((y + w2)[k] == w2[k - y.len()]);
            }
        }
        lemma_trim_start_after_white_space(y + w2, Seq::<char>::empty());
        assert((y + w2) + Seq::<char>::empty() == y + w2);
        assert(trim_start(Seq::<char>::empty()) == Seq::<char>::empty());
    } else {
        let py = y.take(p);
        assert(y == py + trim_start(y));
        assert forall|k: int| 0 <= k < py.len() implies unicode_white_space(#[trigger] py[k]) by {
            assert(py[k] == y[k]);
        }
        lemma_trim_start_after_white_space(py, trim_start(y) + w2);
        assert(y + w2 == py + (trim_start(y) + w2));
        // trim_start stops at the first character of trim_start(y)
        let z = trim_start(y) + w2;
        assert(z[0] == trim_start(y)[0]);
        assert(trim_start(z) == z);
        lemma_trim_end_before_white_space(trim_start(y), w2);
    }
}

/// The positions `(a, b)` such that `chars[a..b]` is `chars[start..end]`
/// with its leading and trailing white space removed.
pub fn trim_range(chars: &Vec<char>, start: usize, end: usize) -> (r: (usize, usize))
    requires
        start <= end <= chars@.len(),
    ensures
        start <= r.0 <= r.1 <= end,
        chars@.subrange(r.0 as int, r.1 as int) == trim(chars@.subrange(start as int, end as int)),
{
    let mut a = start;
    while a < end && is_white_space(chars[a])
        invariant
            start <= a <= end <= chars@.len(),
            trim_start(chars@.subrange(a as int, end as int)) == trim_start(
                chars@.subrange(start as int, end as int),
            ),
        decreases end - a,
    {
        assert(chars@.subrange(a as int, end as int).drop_first() == chars@.subrange(
            a + 1,
            end as int,
        ));
        a += 1;
    }
    let mut b = end;
    assert(chars@.subrange(a as int, end as int) == trim_start(
        chars@.subrange(start as int, end as int),
    ));
    while b > a && is_white_space(chars[b - 1])
        invariant
            start <= a <= b <= end <= chars@.len(),
            trim_end(chars@.subrange(a as int, b as int)) == trim(
                chars@.subrange(start as int, end as int),
            ),
        decreases b - a,
    {
        assert(chars@.subrange(a as int, b as int).drop_last() == chars@.subrange(
            a as int,
            b - 1,
        ));
        b -= 1;
    }
    (a, b)
}

/// `line` without one trailing carriage return.
pub open spec fn strip_cr(line: Seq<char>) -> Seq<char> {
    if line.len() > 0 && line.last() == '\r' {
        line.drop_last()
    } else {
        line
    }
}

/// The lines of `s`, as `str::lines` yields them: split at each `\n`,
/// with a `\r` just before the `\n` removed too; a final line ending is
/// optional, so no empty last line follows it.
pub open spec fn lines_of(s: Seq<char>) -> Seq<Seq<char>>
    decreases s.len(),
{
    if s.len() == 0 {
        seq![]
    } else {
        match first_index(s, '\n') {
            Some(j) => {
                proof {
                    lemma_first_index(s, '\n');
                }
                seq![strip_cr(s.take(j))] + lines_of(s.skip(j + 1))
            },
            None => seq![s],
        }
    }
}

/// `s` with each `\n` written as `\r\n`.
pub open spec fn to_crlf(s: Seq<char>) -> Seq<char>
    decreases s.len(),
{
    if s.len() == 0 {
        s
    } else {
        (if s[0] == '\n' {
            seq!['\r', '\n']
        } else {
            seq![s[0]]
        }) + to_crlf(s.drop_first())
    }
}

/// Text without `\n` is written the same with either line ending.
proof fn lemma_to_crlf_no_newline(s: Seq<char>)
    requires
        !s.contains('\n'),
    ensures
        to_crlf(s) == s,
    decreases s.len(),
{
    if s.len() > 0 {
        assert(!s.drop_first().contains('\n')) by {
            if s.drop_first().contains('\n') {
                let k = choose|k: int| 0 <= k < s.drop_first().len() && #[trigger] s.drop_first()[k] == '\n';
                assert(s[k + 1] == '\n');
            }
        }
        lemma_to_crlf_no_newline(s.drop_first());
        assert(s[0] != '\n');
        assert(seq![s[0]] + s.drop_first() =~= s);
    }
}

/// Writing `\r\n` line endings is done piece by piece.
proof fn lemma_to_crlf_concat(a: Seq<char>, b: Seq<char>)
    ensures
        to_crlf(a + b) == to_crlf(a) + to_crlf(b),
    decreases a.len(),
{
    if a.len() == 0 {
        assert(a + b =~= b);
        assert(to_crlf(a) + to_crlf(b) =~= to_crlf(b));
    } else {
        lemma_to_crlf_concat(a.drop_first(), b);
        assert((a + b).drop_first() =~= a.drop_first() + b);
        assert((a + b)[0] == a[0]);
        let head = if a[0] == '\n' {
            seq!['\r', '\n']
        } else {
            seq![a[0]]
        };
        assert(head + (to_crlf(a.drop_first()) + to_crlf(b)) =~= (head + to_crlf(a.drop_first()))
            + to_crlf(b));
    }
}

/// Text without `\r` has the same lines whether its line endings are
/// `\n` or `\r\n`.
pub proof fn law_crlf_endings_keep_the_lines(s: Seq<char>)
    requires
        !s.contains('\r'),
    ensures
        lines_of(to_crlf(s)) == lines_of(s),
    decreases s.len(),
{
    if s.len() > 0 {
        lemma_first_index(s, '\n');
        match first_index(s, '\n') {
            None => {
                assert(!s.contains('\n'));
                lemma_to_crlf_no_newline(s);
            },
            Some(j) => {
                let pre = s.take(j);
                let post = s.skip(j + 1);
                assert(s =~= pre + (seq!['\n'] + post));
                assert(!pre.contains('\n'));
                lemma_to_crlf_no_newline(pre);
                lemma_to_crlf_concat(pre, seq!['\n'] + post);
                lemma_to_crlf_concat(seq!['\n'], post);
                let nl = seq!['\n'];
                assert(nl.drop_first() =~= Seq::<char>::empty());
                assert(to_crlf(nl.drop_first()) =~= Seq::<char>::empty());
                assert(nl[0] == '\n');
                assert(to_crlf(nl) =~= seq!['\r', '\n']);
                let t = to_crlf(s);
                assert(t =~= pre + seq!['\r', '\n'] + to_crlf(post));
                assert forall|k: int| 0 <= k < j + 1 implies t[k] != '\n' by {
                    if k < j {
                        assert(t[k] == pre[k]);
                    }
                }
                lemma_first_index_at(t, '\n', j + 1);
                assert(t.take(j + 1) =~= pre.push('\r'));
                assert(t.take(j + 1).drop_last() =~= pre);
                assert(t.skip(j + 2) =~= to_crlf(post));
                if pre.len() > 0 {
                    assert(pre.last() != '\r') by {
                        assert(pre.last() == s[j - 1]);
                    }
                }
                assert(!post.contains('\r')) by {
                    if post.contains('\r') {
                        let k = choose|k: int| 0 <= k < post.len() && #[trigger] post[k] == '\r';
                        assert(s[j + 1 + k] == '\r');
                    }
                }
                law_crlf_endings_keep_the_lines(post);
            },
        }
    }
}

/// The text that each range selects from `s`.
pub open spec fn range_texts(s: Seq<char>, ranges: Seq<(usize, usize)>) -> Seq<Seq<char>> {
    Seq::new(ranges.len(), |k: int| s.subrange(ranges[k].0 as int, ranges[k].1 as int))
}

/// Every range lies within `len` and is ordered.
pub open spec fn ranges_within(ranges: Seq<(usize, usize)>, len: int) -> bool {
    forall|k: int| 0 <= k < ranges.len() ==> #[trigger] ranges[k].0 <= ranges[k].1 <= len
}

/// The position of each line of `chars`, without its line ending.
pub fn line_ranges(chars: &Vec<char>) -> (r: Vec<(usize, usize)>)
    ensures
        ranges_within(r@, chars@.len() as int),
        range_texts(chars@, r@) == lines_of(chars@),
{
    let ghost s = chars@;
    let mut r: Vec<(usize, usize)> = Vec::new();
    let mut start: usize = 0;
    let mut i: usize = 0;
    assert(s.skip(0) == s);
    assert(range_texts(s, r@) == Seq::<Seq<char>>::empty());
    while i < chars.len()
        invariant
            s == chars@,
            0 <= start <= i <= s.len(),
            forall|k: int| start <= k < i ==> s[k] != '\n',
            ranges_within(r@, s.len() as int),
            lines_of(s) == range_texts(s, r@) + lines_of(s.skip(start as int)),
        decreases s.len() - i,
    {
        if chars[i] == '\n' {
            let ghost tail = s.skip(start as int);
            proof {
                lemma_first_index_at(tail, '\n', i - start);
                assert(tail.take(i - start) == s.subrange(start as int, i as int));
                assert(tail.skip(i - start + 1) == s.skip(i + 1));
            }
            let end = if i > start && chars[i - 1] == '\r' {
                i - 1
            } else {
                i
            };
            assert(s.subrange(start as int, end as int) == strip_cr(
                s.subrange(start as int, i as int),
            ));
            let ghost before = range_texts(s, r@);
            let ghost old_r = r@;
            r.push((start, end));
            assert(range_texts(s, r@) == before.push(s.subrange(start as int, end as int)));
            assert forall|k: int| 0 <= k < r@.len() implies #[trigger] r@[k].0 <= r@[k].1 <= s.len() by {
                if k < old_r.len() {
                    assert(r@[k] == old_r[k]);
                }
            }
            start = i + 1;
        }
        i += 1;
    }
    if start < chars.len() {
        let ghost tail = s.skip(start as int);
        proof {
            lemma_first_index_none(tail, '\n');
            assert(tail == s.subrange(start as int, s.len() as int));
        }
        let ghost before = range_texts(s, r@);
        r.push((start, chars.len()));
        assert(range_texts(s, r@) == before.push(s.subrange(start as int, s.len() as int)));
    } else {
        assert(s.skip(start as int) == Seq::<char>::empty());
    }
    r
}

/// A new string holding `chars[start..end]`.
pub fn string_from_range(chars: &Vec<char>, start: usize, end: usize) -> (r: String)
    requires
        start <= end <= chars@.len(),
    ensures
        r@ == chars@.subrange(start as int, end as int),
{
    let mut r = String::new();
    let mut i = start;
    while i < end
        invariant
            start <= i <= end <= chars@.len(),
            r@ == chars@.subrange(start as int, i as int),
        decreases end - i,
    {
        push_char(&mut r, chars[i]);
        assert(r@ == chars@.subrange(start as int, i + 1));
        i += 1;
    }
    r
}

/// The decimal digit for `d`.
pub open spec fn digit_char(d: nat) -> char {
    if d == 0 { '0' } else if d == 1 { '1' } else if d == 2 { '2' } else if d == 3 { '3' }
    else if d == 4 { '4' } else if d == 5 { '5' } else if d == 6 { '6' } else if d == 7 { '7' }
    else if d == 8 { '8' } else { '9' }
}

/// The decimal representation of `n`, as `Display` writes an unsigned integer.
pub open spec fn decimal(n: nat) -> Seq<char>
    decreases n,
{
    if n < 10 {
        seq![digit_char(n)]
    } else {
        decimal(n / 10).push(digit_char(n % 10))
    }
}

fn digit(d: usize) -> (c: char)
    requires
        d < 10,
    ensures
        c == digit_char(d as nat),
{
    if d == 0 { '0' } else if d == 1 { '1' } else if d == 2 { '2' } else if d == 3 { '3' }
    else if d == 4 { '4' } else if d == 5 { '5' } else if d == 6 { '6' } else if d == 7 { '7' }
    else if d == 8 { '8' } else { '9' }
}

/// Appends the decimal representation of `n` to `s`.
pub fn push_decimal(s: &mut String, n: usize)
    ensures
        final(s)@ == old(s)@ + decimal(n as nat),
    decreases n,
{
    if n >= 10 {
        push_decimal(s, n / 10);
    }
    push_char(s, digit(n % 10));
    assert(old(s)@ + decimal(n as nat) == (if n >= 10 {
        old(s)@ + decimal((n / 10) as nat)
    } else {
        old(s)@
    }).push(digit_char((n % 10) as nat)));
}

/// Whether `c` is one of the ASCII digits `0` to `9`.
pub open spec fn is_decimal_digit(c: char) -> bool {
    '0' <= c <= '9'
}

/// The number that the decimal digits `s` spell.
pub open spec fn digits_value(s: Seq<char>) -> nat
    decreases s.len(),
{
    if s.len() == 0 {
        0
    } else {
        digits_value(s.drop_last()) * 10 + ((s.last() as int) - ('0' as int)) as nat
    }
}

/// `s` without one leading `+`.
pub open spec fn usize_digits(s: Seq<char>) -> Seq<char> {
    if s.len() > 0 && s[0] == '+' {
        s.drop_first()
    } else {
        s
    }
}

/// What `str::parse::<usize>` accepts: an optional `+` followed by one or
/// more decimal digits whose value fits in a `usize`.
pub open spec fn usize_text(s: Seq<char>) -> Option<usize> {
    let digits = usize_digits(s);
    if digits.len() > 0 && (forall|k: int| 0 <= k < digits.len() ==> is_decimal_digit(#[trigger] digits[k]))
        && digits_value(digits) <= usize::MAX {
        Some(digits_value(digits) as usize)
    } else {
        None
    }
}

/// A longer run of digits is worth at least as much as its start.
proof fn lemma_digits_value_grows(s: Seq<char>, k: int)
    requires
        0 <= k <= s.len(),
    ensures
        digits_value(s.take(k)) <= digits_value(s),
    decreases s.len() - k,
{
    if k < s.len() {
        lemma_digits_value_grows(s, k + 1);
        assert(s.take(k + 1).drop_last() == s.take(k));
    } else {
        assert(s.take(k) == s);
    }
}

/// What `str::parse::<usize>` returns, its error dropped: the value of an
/// optional `+` followed by decimal digits, when it fits.
pub fn parse_usize(s: &str) -> (r: Option<usize>)
    ensures
        r == usize_text(s@),
{
    let chars = chars_of(s);
    let start: usize = if chars.len() > 0 && chars[0] == '+' {
        1
    } else {
        0
    };
    let ghost digits = usize_digits(s@);
    assert(digits == chars@.skip(start as int));
    if start == chars.len() {
        return None;
    }
    let mut value: usize = 0;
    let mut i: usize = start;
    assert(digits.take(0) =~= Seq::<char>::empty());
    while i < chars.len()
        invariant
            start <= i <= chars@.len(),
            chars@ == s@,
            digits == chars@.skip(start as int),
            digits == usize_digits(s@),
            digits.len() > 0,
            forall|k: int| 0 <= k < i - start ==> is_decimal_digit(#[trigger] digits[k]),
            value == digits_value(digits.take(i - start)),
        decreases chars@.len() - i,
    {
        let c = chars[i];
        assert(digits[i - start] == c);
        if !('0' <= c && c <= '9') {
            assert(!is_decimal_digit(digits[i - start]));
            assert(0 <= i - start < digits.len());
            assert(!(forall|k: int| 0 <= k < digits.len() ==> is_decimal_digit(#[trigger] digits[k])));
            assert(usize_text(s@) is None);
            return None;
        }
        let d = ((c as u32) - 48) as usize;
        assert(d == (c as int) - ('0' as int));
        assert(digits.take(i - start + 1).drop_last() == digits.take(i - start));
        assert(digits.take(i - start + 1).last() == c);
        proof {
            lemma_digits_value_grows(digits, i - start + 1);
        }
        if value > (usize::MAX - d) / 10 {
            proof {
                assert(value * 10 + d > usize::MAX) by (nonlinear_arith)
                    requires
                        value > (usize::MAX - d) / 10,
                        d <= 9,
                ;
                assert(digits_value(digits.take(i - start + 1)) == value * 10 + d);
                assert(digits_value(digits) > usize::MAX);
            }
            return None;
        }
        proof {
            assert(value * 10 + d <= usize::MAX) by (nonlinear_arith)
                requires
                    value <= (usize::MAX - d) / 10,
                    d <= 9,
            ;
        }
        value = value * 10 + d;
        i += 1;
    }
    assert(digits.take(digits.len() as int) == digits);
    Some(value)
}

} // verus!
