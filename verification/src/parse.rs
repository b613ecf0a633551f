//! Parses `.editorconfig`'s INI-like format: an optional `root = true`
//! at the top, then `[glob]` sections each holding `key = value`
//! properties. Later sections override earlier ones for the same key when
//! both match a given file: the EditorConfig "last matching section wins,
//! per property" merge rule.

use vstd::prelude::*;
use vstd::utf8::encode_utf8;
use crate::glob::{glob_match, path_matches};
use crate::properties::Properties;
use crate::text::{
    chars_of, first_index, lemma_first_index_at, lemma_first_index_none, line_ranges, lines_of,
    lowercase_of, range_texts, str_equal, string_from_range, to_lowercase, trim, trim_range,
    trim_start, unicode_white_space, lemma_trim_start_shape, lemma_trim_end_shape,
    lemma_trim_ignores_outer_white_space, trim_end,
};

verus! {

/// A section as the contracts see it: its glob and its properties.
pub struct SectionView {
    pub glob: Seq<char>,
    pub properties: Map<Seq<char>, Seq<char>>,
}

/// A parsed file as the contracts see it.
pub struct ConfigView {
    pub root: bool,
    pub sections: Seq<SectionView>,
}

/// One `[glob]` section and the properties set under it.
#[derive(Debug, Clone, PartialEq, Eq)]
pub struct Section {
    pub glob: String,
    pub properties: Properties,
}

/// A parsed `.editorconfig` file.
#[derive(Debug, Clone, PartialEq, Eq)]
pub struct EditorConfig {
    pub root: bool,
    pub sections: Vec<Section>,
}

impl View for Section {
    type V = SectionView;

    open spec fn view(&self) -> SectionView {
        SectionView { glob: self.glob@, properties: self.properties@ }
    }
}

impl Default for EditorConfig {
    /// No `root`, no sections.
    fn default() -> (r: Self)
        ensures
            r@ == empty_config(),
    {
        let r = EditorConfig { root: false, sections: Vec::new() };
        assert(section_views(r.sections@) =~= Seq::<SectionView>::empty());
        r
    }
}

/// The views of `sections`, in order.
pub open spec fn section_views(sections: Seq<Section>) -> Seq<SectionView> {
    sections.map_values(|s: Section| s@)
}

impl View for EditorConfig {
    type V = ConfigView;

    open spec fn view(&self) -> ConfigView {
        ConfigView { root: self.root, sections: section_views(self.sections@) }
    }
}

/// `line` up to its first `#` or `;`.
pub open spec fn strip_comment(line: Seq<char>) -> Seq<char>
    decreases line.len(),
{
    if line.len() == 0 {
        line
    } else if line[0] == '#' || line[0] == ';' {
        Seq::empty()
    } else {
        seq![line[0]] + strip_comment(line.drop_first())
    }
}

/// Whether `line` is a section header `[...]`.
pub open spec fn is_header(line: Seq<char>) -> bool {
    line.len() >= 2 && line[0] == '[' && line.last() == ']'
}

/// The state before any line is read.
pub open spec fn empty_config() -> ConfigView {
    ConfigView { root: false, sections: Seq::empty() }
}

/// The effect of one raw line on the parsed state. Comments are cut off
/// and the rest trimmed; a blank line changes nothing; a header opens a
/// new section; a `key = value` line sets the lowercased, trimmed key to
/// the lowercased, trimmed value in the last section, or, before any
/// section, sets `root` when the key is `root`; any other line is ignored.
pub open spec fn apply_line(cfg: ConfigView, raw: Seq<char>) -> ConfigView {
    let line = trim(strip_comment(raw));
    if line.len() == 0 {
        cfg
    } else if is_header(line) {
        ConfigView {
            root: cfg.root,
            sections: cfg.sections.push(
                SectionView { glob: line.subrange(1, line.len() - 1), properties: Map::empty() },
            ),
        }
    } else {
        match first_index(line, '=') {
            None => cfg,
            Some(j) => {
                let key = lowercase_of(trim(line.take(j)));
                let value = lowercase_of(trim(line.skip(j + 1)));
                if cfg.sections.len() > 0 {
                    let last = cfg.sections.last();
                    ConfigView {
                        root: cfg.root,
                        sections: cfg.sections.update(
                            cfg.sections.len() - 1,
                            SectionView {
                                glob: last.glob,
                                properties: last.properties.insert(key, value),
                            },
                        ),
                    }
                } else if key == "root"@ {
                    ConfigView { root: value == "true"@, sections: cfg.sections }
                } else {
                    cfg
                }
            },
        }
    }
}

/// The state after reading `lines` in order.
pub open spec fn parse_lines(lines: Seq<Seq<char>>) -> ConfigView
    decreases lines.len(),
{
    if lines.len() == 0 {
        empty_config()
    } else {
        apply_line(parse_lines(lines.drop_last()), lines.last())
    }
}

/// What `parse` returns for `content`.
pub open spec fn parse_spec(content: Seq<char>) -> ConfigView {
    parse_lines(lines_of(content))
}

/// `strip_comment` cuts `line` at its first `#` or `;`.
proof fn lemma_strip_comment(line: Seq<char>, i: int)
    requires
        0 <= i <= line.len(),
        forall|k: int| 0 <= k < i ==> line[k] != '#' && line[k] != ';',
        i == line.len() || line[i] == '#' || line[i] == ';',
    ensures
        strip_comment(line) == line.take(i),
    decreases line.len(),
{
    if line.len() > 0 && i > 0 {
        lemma_strip_comment(line.drop_first(), i - 1);
        assert(seq![line[0]] + line.drop_first().take(i - 1) =~= line.take(i));
    } else if line.len() == 0 {
        assert(line.take(i) =~= line);
    } else {
        assert(line.take(0) =~= Seq::<char>::empty());
    }
}

/// The end of `chars[start..end]` once a comment is cut off.
fn strip_comment_end(chars: &Vec<char>, start: usize, end: usize) -> (r: usize)
    requires
        start <= end <= chars@.len(),
    ensures
        start <= r <= end,
        chars@.subrange(start as int, r as int) == strip_comment(
            chars@.subrange(start as int, end as int),
        ),
{
    let ghost line = chars@.subrange(start as int, end as int);
    let mut i = start;
    while i < end && chars[i] != '#' && chars[i] != ';'
        invariant
            start <= i <= end <= chars@.len(),
            line == chars@.subrange(start as int, end as int),
            forall|k: int| 0 <= k < i - start ==> line[k] != '#' && line[k] != ';',
        decreases end - i,
    {
        i += 1;
    }
    proof {
        lemma_strip_comment(line, i - start);
        assert(line.take(i - start) == chars@.subrange(start as int, i as int));
    }
    i
}

/// Parses the text of an `.editorconfig` file.
pub fn parse(content: &str) -> (cfg: EditorConfig)
    ensures
        cfg@ == parse_spec(content@),
{
    let chars = chars_of(content);
    let ranges = line_ranges(&chars);
    let ghost lines = lines_of(chars@);
    let mut root = false;
    let mut sections: Vec<Section> = Vec::new();

    let mut idx: usize = 0;
    assert(lines.take(0) =~= Seq::<Seq<char>>::empty());
    assert(section_views(sections@) =~= Seq::<SectionView>::empty());
    while idx < ranges.len()
        invariant
            0 <= idx <= ranges@.len(),
            lines == lines_of(chars@),
            lines == range_texts(chars@, ranges@),
            forall|k: int| 0 <= k < ranges@.len() ==> #[trigger] ranges@[k].0 <= ranges@[k].1 <= chars@.len(),
            (ConfigView { root: root, sections: section_views(sections@) }) == parse_lines(
                lines.take(idx as int),
            ),
        decreases ranges@.len() - idx,
    {
        let ghost before = ConfigView { root: root, sections: section_views(sections@) };
        let ghost raw = lines[idx as int];
        proof {
            assert(lines.take(idx + 1).drop_last() == lines.take(idx as int));
            assert(raw == chars@.subrange(ranges@[idx as int].0 as int, ranges@[idx as int].1 as int));
        }
        let (a, b) = ranges[idx];
        let c = strip_comment_end(&chars, a, b);
        let (s, e) = trim_range(&chars, a, c);
        let ghost line = chars@.subrange(s as int, e as int);
        assert(line == trim(strip_comment(raw)));
        if s == e {
            // blank or comment-only line
            idx += 1;
            continue;
        }
        if e - s >= 2 && chars[s] == '[' && chars[e - 1] == ']' {
            let glob = string_from_range(&chars, s + 1, e - 1);
            assert(glob@ == line.subrange(1, line.len() - 1));
            let ghost views = section_views(sections@);
            sections.push(Section { glob, properties: Properties::new() });
            assert(section_views(sections@) =~= views.push(
                SectionView { glob: line.subrange(1, line.len() - 1), properties: Map::empty() },
            ));
            idx += 1;
            continue;
        }
        let mut eq = s;
        while eq < e && chars[eq] != '='
            invariant
                s <= eq <= e <= chars@.len(),
                line == chars@.subrange(s as int, e as int),
                forall|k: int| 0 <= k < eq - s ==> line[k] != '=',
            decreases e - eq,
        {
            eq += 1;
        }
        if eq == e {
            // malformed line, ignored rather than failing the whole file
            proof {
                lemma_first_index_none(line, '=');
            }
            idx += 1;
            continue;
        }
        proof {
            lemma_first_index_at(line, '=', eq - s);
            assert(line.take(eq - s) == chars@.subrange(s as int, eq as int));
            assert(line.skip(eq - s + 1) == chars@.subrange(eq + 1, e as int));
        }
        let (ks, ke) = trim_range(&chars, s, eq);
        let (vs, ve) = trim_range(&chars, eq + 1, e);
        let key_text = string_from_range(&chars, ks, ke);
        let value_text = string_from_range(&chars, vs, ve);
        let key = to_lowercase(key_text.as_str());
        let value = to_lowercase(value_text.as_str());
        if sections.len() > 0 {
            let ghost views = section_views(sections@);
            let mut last = sections.pop().unwrap();
            assert(views.drop_last() == section_views(sections@));
            let ghost key_view = key@;
            let ghost value_view = value@;
            last.properties.insert(key, value);
            sections.push(last);
            assert(section_views(sections@) =~= views.update(
                views.len() - 1,
                SectionView {
                    glob: views.last().glob,
                    properties: views.last().properties.insert(key_view, value_view),
                },
            ));
        } else if str_equal(key.as_str(), "root") {
            root = str_equal(value.as_str(), "true");
        }
        idx += 1;
    }
    assert(lines.take(ranges@.len() as int) == lines);
    EditorConfig { root, sections }
}

/// The properties that apply to `path`: those of every section whose glob
/// matches it, later sections overriding earlier ones.
pub open spec fn effective(sections: Seq<SectionView>, path: Seq<char>) -> Map<Seq<char>, Seq<char>>
    decreases sections.len(),
{
    if sections.len() == 0 {
        Map::empty()
    } else {
        let before = effective(sections.drop_last(), path);
        let last = sections.last();
        if path_matches(encode_utf8(last.glob), encode_utf8(path)) {
            before.union_prefer_right(last.properties)
        } else {
            before
        }
    }
}

/// Merges every section whose glob matches `relative_path`, in file
/// order, later sections overriding earlier ones property-by-property:
/// the effective rule set for one specific file.
pub fn effective_properties(config: &EditorConfig, relative_path: &str) -> (merged: Properties)
    ensures
        merged@ == effective(config@.sections, relative_path@),
{
    let ghost views = config@.sections;
    let mut merged = Properties::new();
    let mut i: usize = 0;
    assert(views.take(0) =~= Seq::<SectionView>::empty());
    while i < config.sections.len()
        invariant
            0 <= i <= config.sections@.len(),
            views == config@.sections,
            merged@ == effective(views.take(i as int), relative_path@),
        decreases config.sections@.len() - i,
    {
        let section = &config.sections[i];
        assert(views.take(i + 1).drop_last() == views.take(i as int));
        assert(views[i as int] == section@);
        if glob_match(section.glob.as_str(), relative_path) {
            merged.merge_from(&section.properties);
        }
        i += 1;
    }
    assert(views.take(i as int) == views);
    merged
}


/// The key and value that `raw` sets, when it is a `key = value` line.
pub open spec fn property_of(raw: Seq<char>) -> Option<(Seq<char>, Seq<char>)> {
    let line = trim(strip_comment(raw));
    if line.len() == 0 || is_header(line) {
        None
    } else {
        match first_index(line, '=') {
            Some(j) => Some(
                (lowercase_of(trim(line.take(j))), lowercase_of(trim(line.skip(j + 1)))),
            ),
            None => None,
        }
    }
}

/// Whether `raw` is a section header once comments and white space are
/// removed.
pub open spec fn is_header_line(raw: Seq<char>) -> bool {
    is_header(trim(strip_comment(raw)))
}

/// The number of header lines in `lines`.
pub open spec fn header_count(lines: Seq<Seq<char>>) -> nat
    decreases lines.len(),
{
    if lines.len() == 0 {
        0
    } else {
        header_count(lines.drop_last()) + if is_header_line(lines.last()) {
            1nat
        } else {
            0nat
        }
    }
}

/// White space trims to nothing.
proof fn lemma_trim_white_space(w: Seq<char>)
    requires
        forall|k: int| 0 <= k < w.len() ==> unicode_white_space(#[trigger] w[k]),
    ensures
        trim(w).len() == 0,
    decreases w.len(),
{
    if w.len() > 0 {
        lemma_trim_white_space(w.drop_first());
        assert(trim_start(w) == trim_start(w.drop_first()));
    }
}

/// A line holding only white space, or white space and then a comment
/// started by `#` or `;`, changes nothing.
pub proof fn law_blank_and_comment_lines_change_nothing(
    cfg: ConfigView,
    w: Seq<char>,
    comment: Seq<char>,
)
    requires
        forall|k: int| 0 <= k < w.len() ==> unicode_white_space(#[trigger] w[k]),
        comment.len() == 0 || comment[0] == '#' || comment[0] == ';',
    ensures
        apply_line(cfg, w + comment) == cfg,
{
    let raw = w + comment;
    assert forall|k: int| 0 <= k < w.len() implies raw[k] != '#' && raw[k] != ';' by {
        assert(raw[k] == w[k]);
        assert(unicode_white_space(w[k]));
    }
    lemma_strip_comment(raw, w.len() as int);
    assert(raw.take(w.len() as int) =~= w);
    lemma_trim_white_space(w);
}

/// A line that is neither blank, nor a header, nor a `key = value` line
/// changes nothing.
pub proof fn law_malformed_lines_change_nothing(cfg: ConfigView, raw: Seq<char>)
    requires
        !is_header_line(raw),
        property_of(raw) is None,
    ensures
        apply_line(cfg, raw) == cfg,
{
}

/// A property line before any section sets `root` when its key is
/// `root` and changes nothing else; once a section is open, no line
/// changes `root`.
pub proof fn law_root_is_set_only_before_sections(cfg: ConfigView, raw: Seq<char>)
    ensures
        cfg.sections.len() > 0 ==> apply_line(cfg, raw).root == cfg.root,
        cfg.sections.len() == 0 && (property_of(raw) matches Some((k, _)) && k != "root"@)
            ==> apply_line(cfg, raw) == cfg,
{
}

/// Reading lines gives `root` true only when some line sets `root` to
/// `true`; without such a line it stays false.
pub proof fn law_root_defaults_to_false(lines: Seq<Seq<char>>)
    ensures
        parse_lines(lines).root ==> exists|i: int|
            0 <= i < lines.len() && property_of(#[trigger] lines[i]) == Some(
                ("root"@, "true"@),
            ),
    decreases lines.len(),
{
    if lines.len() > 0 {
        let init = lines.drop_last();
        law_root_defaults_to_false(init);
        if parse_lines(lines).root {
            if parse_lines(init).root {
                let i = choose|i: int|
                    0 <= i < init.len() && property_of(#[trigger] init[i]) == Some(
                        ("root"@, "true"@),
                    );
                assert(lines[i] == init[i]);
            } else {
                assert(property_of(lines[lines.len() - 1]) == Some(("root"@, "true"@)));
            }
        }
    }
}

/// Each header line opens one section, with the header's glob; no other
/// line adds or removes a section or changes a glob.
pub proof fn law_sections_follow_headers(lines: Seq<Seq<char>>)
    ensures
        parse_lines(lines).sections.len() == header_count(lines),
    decreases lines.len(),
{
    if lines.len() > 0 {
        law_sections_follow_headers(lines.drop_last());
    }
}

/// A line changes no glob of a section opened before it.
pub proof fn law_globs_are_kept(cfg: ConfigView, raw: Seq<char>, i: int)
    requires
        0 <= i < cfg.sections.len(),
    ensures
        apply_line(cfg, raw).sections[i].glob == cfg.sections[i].glob,
{
}

/// Whether the glob of `section` matches `path`.
pub open spec fn section_matches(section: SectionView, path: Seq<char>) -> bool {
    path_matches(encode_utf8(section.glob), encode_utf8(path))
}

/// A property applies to a file exactly when some section that matches
/// the file sets it: sections that do not match contribute nothing.
pub proof fn law_only_matching_sections_contribute(
    sections: Seq<SectionView>,
    path: Seq<char>,
    key: Seq<char>,
)
    ensures
        effective(sections, path).contains_key(key) <==> exists|i: int|
            0 <= i < sections.len() && section_matches(#[trigger] sections[i], path)
                && sections[i].properties.contains_key(key),
    decreases sections.len(),
{
    if sections.len() > 0 {
        let init = sections.drop_last();
        law_only_matching_sections_contribute(init, path, key);
        if exists|i: int|
            0 <= i < init.len() && section_matches(#[trigger] init[i], path)
                && init[i].properties.contains_key(key) {
            let i = choose|i: int|
                0 <= i < init.len() && section_matches(#[trigger] init[i], path)
                    && init[i].properties.contains_key(key);
            assert(sections[i] == init[i]);
        }
        if exists|i: int|
            0 <= i < sections.len() && section_matches(#[trigger] sections[i], path)
                && sections[i].properties.contains_key(key) {
            let i = choose|i: int|
                0 <= i < sections.len() && section_matches(#[trigger] sections[i], path)
                    && sections[i].properties.contains_key(key);
            if i < sections.len() - 1 {
                assert(init[i] == sections[i]);
            }
        }
    }
}

/// When several matching sections set a property, the last of them
/// decides its value.
pub proof fn law_later_section_wins(
    sections: Seq<SectionView>,
    path: Seq<char>,
    key: Seq<char>,
    j: int,
)
    requires
        0 <= j < sections.len(),
        section_matches(sections[j], path),
        sections[j].properties.contains_key(key),
        forall|l: int|
            j < l < sections.len() && section_matches(#[trigger] sections[l], path)
                ==> !sections[l].properties.contains_key(key),
    ensures
        effective(sections, path).contains_key(key),
        effective(sections, path)[key] == sections[j].properties[key],
    decreases sections.len(),
{
    let init = sections.drop_last();
    if j < sections.len() - 1 {
        assert forall|l: int| j < l < init.len() && section_matches(#[trigger] init[l], path)
            implies !init[l].properties.contains_key(key) by {
            assert(init[l] == sections[l]);
        }
        assert(init[j] == sections[j]);
        law_later_section_wins(init, path, key, j);
    }
}

/// Reading one more line changes the state by that line alone: the
/// effect of a line depends on nothing but the state before it and the
/// line itself.
pub proof fn law_parse_reads_line_by_line(lines: Seq<Seq<char>>, line: Seq<char>)
    ensures
        parse_lines(lines.push(line)) == apply_line(parse_lines(lines), line),
{
    assert(lines.push(line).drop_last() == lines);
}

/// A `key = value` line, without comment, that is not a header, splits at
/// its first `=`: inside a section it sets the lowercased, trimmed key to
/// the lowercased, trimmed value in the last section and changes nothing
/// else; before any section it sets `root` to whether the value is `true`
/// when the key is `root`, and otherwise changes nothing.
pub proof fn law_property_line_sets_its_key(cfg: ConfigView, raw: Seq<char>, j: int)
    requires
        0 <= j < raw.len(),
        raw[j] == '=',
        forall|k: int| 0 <= k < j ==> raw[k] != '=',
        forall|k: int| 0 <= k < raw.len() ==> raw[k] != '#' && raw[k] != ';',
        !is_header(trim(raw)),
    ensures
        ({
            let key = lowercase_of(trim(raw.take(j)));
            let value = lowercase_of(trim(raw.skip(j + 1)));
            &&& cfg.sections.len() > 0 ==> apply_line(cfg, raw) == (ConfigView {
                root: cfg.root,
                sections: cfg.sections.update(
                    cfg.sections.len() - 1,
                    SectionView {
                        glob: cfg.sections.last().glob,
                        properties: cfg.sections.last().properties.insert(key, value),
                    },
                ),
            })
            &&& cfg.sections.len() == 0 && key == "root"@ ==> apply_line(cfg, raw) == (ConfigView {
                root: value == "true"@,
                sections: cfg.sections,
            })
            &&& cfg.sections.len() == 0 && key != "root"@ ==> apply_line(cfg, raw) == cfg
        }),
{
    lemma_strip_comment(raw, raw.len() as int);
    assert(raw.take(raw.len() as int) == raw);
    let ts = trim_start(raw);
    lemma_trim_start_shape(raw);
    lemma_trim_end_shape(ts);
    let a = raw.len() - ts.len();
    let m = trim_end(ts).len() as int;
    let e = a + m;
    let line = trim(raw);
    assert(line == raw.subrange(a, e));
    assert(j >= a) by {
        if j < a {
            assert(unicode_white_space(raw[j]));
        }
    }
    assert(j < e) by {
        if j >= e {
            assert(ts[j - a] == raw[j]);
            assert(unicode_white_space(ts[j - a]));
        }
    }
    assert forall|k: int| 0 <= k < j - a implies line[k] != '=' by {
        assert(line[k] == raw[a + k]);
    }
    assert(line[j - a] == '=');
    lemma_first_index_at(line, '=', j - a);
    // the key: white space before it does not count
    let w1 = raw.take(a);
    assert forall|k: int| 0 <= k < w1.len() implies unicode_white_space(#[trigger] w1[k]) by {
        assert(w1[k] == raw[k]);
    }
    let none = Seq::<char>::empty();
    assert forall|k: int| 0 <= k < none.len() implies unicode_white_space(#[trigger] none[k]) by {}
    lemma_trim_ignores_outer_white_space(w1, raw.subrange(a, j), none);
    assert(raw.take(j) == w1 + raw.subrange(a, j) + none);
    assert(line.take(j - a) == raw.subrange(a, j));
    // the value: white space after it does not count
    let w2 = raw.skip(e);
    assert forall|k: int| 0 <= k < w2.len() implies unicode_white_space(#[trigger] w2[k]) by {
        assert(w2[k] == ts[m + k]);
    }
    lemma_trim_ignores_outer_white_space(none, raw.subrange(j + 1, e), w2);
    assert(raw.skip(j + 1) == none + raw.subrange(j + 1, e) + w2);
    assert(line.skip(j - a + 1) == raw.subrange(j + 1, e));
}
} // verus!
