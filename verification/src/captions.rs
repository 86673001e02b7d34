//! Recognising figure and table captions in the text MinerU extracts, with
//! tolerance for single-character OCR errors ("cigure 5" for "figure 5").
use vstd::prelude::*;
use crate::chars::{
    at_boundary, byte_len, byte_slice, chars_contain, chars_eq, contains_seq, extend_chars, is_ascii_digit, is_ascii_uppercase, is_whitespace, lowercase, lowercase_chars, slice_chars, spec_is_ascii_digit, spec_is_whitespace, str_byte_suffix, string_from_chars, to_chars, trim, trim_chars, trim_start,
};
use crate::mineru::{edit_distance, levenshtein_chars};
use crate::pattern::{
    option_views, regex_capture_groups, regex_captures, regex_find, regex_first_match,
    regex_is_match, regex_matches,
};

verus! {

// ---------------------------------------------------------------------------
// Character helpers.
// ---------------------------------------------------------------------------

/// `_` replaced by a space (MinerU sometimes writes `Fig._9`).
pub open spec fn underscores_to_spaces(s: Seq<char>) -> Seq<char> {
    s.map_values(|c: char| if c == '_' { ' ' } else { c })
}

fn underscores_to_spaces_exec(v: &Vec<char>) -> (r: Vec<char>)
    ensures
        r@ == underscores_to_spaces(v@),
{
    let mut r: Vec<char> = Vec::new();
    for i in 0..v.len()
        invariant
            r@ == underscores_to_spaces(v@.take(i as int)),
    {
        r.push(if v[i] == '_' { ' ' } else { v[i] });
        assert(r@ =~= underscores_to_spaces(v@.take(i + 1)));
    }
    assert(v@.take(v.len() as int) =~= v@);
    r
}

/// Length of the first word of `s`: up to the first white space or `:`
/// (and `.` when `dot`).
pub open spec fn word_end(s: Seq<char>, dot: bool) -> nat
    decreases s.len(),
{
    if s.len() == 0 {
        0
    } else if spec_is_whitespace(s[0]) || s[0] == ':' || (dot && s[0] == '.') {
        0
    } else {
        1 + word_end(s.skip(1), dot)
    }
}

fn word_end_exec(v: &Vec<char>, dot: bool) -> (r: usize)
    ensures
        r == word_end(v@, dot),
        r <= v.len(),
{
    let mut i: usize = 0;
    assert(v@.skip(0) =~= v@);
    while i < v.len() && !(is_whitespace(v[i]) || v[i] == ':' || (dot && v[i] == '.'))
        invariant
            i <= v.len(),
            word_end(v@, dot) == i + word_end(v@.skip(i as int), dot),
        decreases v.len() - i,
    {
        assert(v@.skip(i as int).skip(1) =~= v@.skip(i + 1));
        i += 1;
    }
    assert(word_end(v@.skip(i as int), dot) == 0);
    i
}

/// `s` without leading characters that are white space, or `:` when `colon`.
pub open spec fn skip_ws_colon(s: Seq<char>, colon: bool) -> Seq<char>
    decreases s.len(),
{
    if s.len() > 0 && (spec_is_whitespace(s[0]) || (colon && s[0] == ':')) {
        skip_ws_colon(s.skip(1), colon)
    } else {
        s
    }
}

/// `s` without leading `c` characters.
pub open spec fn skip_char(s: Seq<char>, c: char) -> Seq<char>
    decreases s.len(),
{
    if s.len() > 0 && s[0] == c {
        skip_char(s.skip(1), c)
    } else {
        s
    }
}

fn skip_ws_colon_exec(v: &Vec<char>) -> (r: Vec<char>)
    ensures
        r@ == skip_ws_colon(v@, true),
{
    let mut i: usize = 0;
    assert(v@.skip(0) =~= v@);
    while i < v.len() && (is_whitespace(v[i]) || v[i] == ':')
        invariant
            i <= v.len(),
            skip_ws_colon(v@, true) == skip_ws_colon(v@.skip(i as int), true),
        decreases v.len() - i,
    {
        assert(v@.skip(i as int).skip(1) =~= v@.skip(i + 1));
        i += 1;
    }
    assert(v@.skip(i as int) =~= v@.subrange(i as int, v.len() as int));
    slice_chars(v, i, v.len())
}

fn skip_char_exec(v: &Vec<char>, c: char) -> (r: Vec<char>)
    ensures
        r@ == skip_char(v@, c),
{
    let mut i: usize = 0;
    assert(v@.skip(0) =~= v@);
    while i < v.len() && v[i] == c
        invariant
            i <= v.len(),
            skip_char(v@, c) == skip_char(v@.skip(i as int), c),
        decreases v.len() - i,
    {
        assert(v@.skip(i as int).skip(1) =~= v@.skip(i + 1));
        i += 1;
    }
    assert(v@.skip(i as int) =~= v@.subrange(i as int, v.len() as int));
    slice_chars(v, i, v.len())
}

/// `s` without trailing `.`, `,` and ASCII digits (so "Fig.1" becomes "Fig").
pub open spec fn strip_number_suffix(s: Seq<char>) -> Seq<char>
    decreases s.len(),
{
    if s.len() > 0 && (s.last() == '.' || s.last() == ',' || spec_is_ascii_digit(s.last())) {
        strip_number_suffix(s.drop_last())
    } else {
        s
    }
}

fn strip_number_suffix_exec(v: &Vec<char>) -> (r: Vec<char>)
    ensures
        r@ == strip_number_suffix(v@),
{
    let mut n = v.len();
    assert(v@.take(n as int) =~= v@);
    while n > 0 && (v[n - 1] == '.' || v[n - 1] == ',' || is_ascii_digit(v[n - 1]))
        invariant
            n <= v.len(),
            strip_number_suffix(v@) == strip_number_suffix(v@.take(n as int)),
        decreases n,
    {
        assert(v@.take(n as int).drop_last() =~= v@.take(n - 1));
        n -= 1;
    }
    slice_chars(v, 0, n)
}

/// ASCII letters in upper case (`str::to_ascii_uppercase`).
pub open spec fn ascii_upper(s: Seq<char>) -> Seq<char> {
    s.map_values(|c: char| if 'a' <= c && c <= 'z' { ((c as u32) - 32) as char } else { c })
}

fn ascii_upper_exec(v: &Vec<char>) -> (r: Vec<char>)
    ensures
        r@ == ascii_upper(v@),
{
    let mut r: Vec<char> = Vec::new();
    for i in 0..v.len()
        invariant
            r@ == ascii_upper(v@.take(i as int)),
    {
        let c = v[i];
        let u = if 'a' <= c && c <= 'z' {
            ((c as u32 - 32) as u8) as char
        } else {
            c
        };
        r.push(u);
        assert(r@ =~= ascii_upper(v@.take(i + 1)));
    }
    assert(v@.take(v.len() as int) =~= v@);
    r
}

// ---------------------------------------------------------------------------
// Caption words.
// ---------------------------------------------------------------------------

/// The caption words, with a tolerance of one edit each.
pub open spec fn caption_target(i: int) -> Seq<char> {
    if i == 0 {
        "figure"@
    } else if i == 1 {
        "fig"@
    } else if i == 2 {
        "table"@
    } else {
        "tbl"@
    }
}

fn caption_target_exec(i: usize) -> (r: Vec<char>)
    requires
        i < 4,
    ensures
        r@ == caption_target(i as int),
        r@.len() <= 6,
{
    proof {
        reveal_strlit("figure");
        reveal_strlit("fig");
        reveal_strlit("table");
        reveal_strlit("tbl");
    }
    if i == 0 {
        to_chars("figure")
    } else if i == 1 {
        to_chars("fig")
    } else if i == 2 {
        to_chars("table")
    } else {
        to_chars("tbl")
    }
}

/// `w` is a caption word exactly.
pub open spec fn exact_caption_word(w: Seq<char>) -> bool {
    exists|i: int| 0 <= i < 4 && w == #[trigger] caption_target(i)
}

/// `w` is one edit away from a caption word.
pub open spec fn fuzzy_caption_word(w: Seq<char>) -> bool {
    exists|i: int| 0 <= i < 4 && 0 < #[trigger] edit_distance(w, caption_target(i)) <= 1
}

fn caption_word_match(w: &Vec<char>) -> (r: (bool, bool))
    ensures
        r.0 == exact_caption_word(w@),
        r.1 == fuzzy_caption_word(w@),
{
    let mut exact = false;
    let mut fuzzy = false;
    for i in 0..4usize
        invariant
            exact == exists|j: int| 0 <= j < i && w@ == #[trigger] caption_target(j),
            fuzzy == exists|j: int| 0 <= j < i && 0 < #[trigger] edit_distance(w@, caption_target(j)) <= 1,
    {
        let t = caption_target_exec(i);
        if chars_eq(w, &t) {
            exact = true;
        }
        let d = levenshtein_chars(w, &t);
        if d > 0 && d <= 1 {
            fuzzy = true;
        }
    }
    (exact, fuzzy)
}

// ---------------------------------------------------------------------------
// Caption recognition.
// ---------------------------------------------------------------------------

/// A sub-panel label such as `(a)` followed by white space or the end.
pub open spec fn panel_pattern() -> Seq<char> {
    "^\\([a-zA-Z0-9]+\\)(?:\\s+|$)"@
}

fn panel_pattern_str() -> (r: &'static str)
    ensures
        r@ == panel_pattern(),
{
    "^\\([a-zA-Z0-9]+\\)(?:\\s+|$)"
}

/// Whether `text` looks like a real figure or table caption: a sub-panel
/// label, or a first word (with trailing `.`, `,` and digits dropped) that
/// is a caption word, or one edit away from one and followed by a number.
pub open spec fn looks_like_caption_spec(text: Seq<char>) -> bool {
    let t = trim_start(underscores_to_spaces(text));
    let e = word_end(t, false);
    let first = lowercase(strip_number_suffix(t.take(e as int)));
    let after = skip_ws_colon(t.skip(e as int), true);
    caption_decision(regex_matches(panel_pattern(), text), first, after)
}

/// The caption test once the sub-panel match `panel` and the lower-case
/// first word `first` are known: a sub-panel label, a caption word, or a
/// word one edit away from one whose following text `after` starts with a
/// digit.
pub open spec fn caption_decision(panel: bool, first: Seq<char>, after: Seq<char>) -> bool {
    ||| panel
    ||| exact_caption_word(first)
    ||| (fuzzy_caption_word(first) && after.len() > 0 && spec_is_ascii_digit(after[0]))
}

/// Decides whether text is a caption from whether it starts with a
/// sub-panel label (`panel`), its lower-cased first word with trailing
/// `.`, `,` and digits dropped (`first`), and the text after that word past
/// white space and colons (`after`).
pub fn decide_caption(panel: bool, first: &str, after: &str) -> (r: bool)
    ensures
        r == caption_decision(panel, first@, after@),
{
    if panel {
        return true;
    }
    let f = to_chars(first);
    let a = to_chars(after);
    let (exact, fuzzy) = caption_word_match(&f);
    exact || (fuzzy && a.len() > 0 && is_ascii_digit(a[0]))
}

proof fn lemma_trim_start_prefix(v: Seq<char>) -> (k: nat)
    ensures
        k <= v.len(),
        trim_start(v) == v.skip(k as int),
        forall|i: int| 0 <= i < k ==> spec_is_whitespace(#[trigger] v[i]),
        k < v.len() ==> !spec_is_whitespace(v[k as int]),
{
    crate::chars::lemma_trim_start_skip(v);
    crate::chars::leading_ws(v)
}

pub(crate) fn trim_start_exec(v: &Vec<char>) -> (r: Vec<char>)
    ensures
        r@ == trim_start(v@),
{
    let mut i: usize = 0;
    while i < v.len() && is_whitespace(v[i])
        invariant
            i <= v.len(),
            forall|j: int| 0 <= j < i ==> spec_is_whitespace(#[trigger] v@[j]),
        decreases v.len() - i,
    {
        i += 1;
    }
    proof {
        let k = lemma_trim_start_prefix(v@);
        if k < i {
            assert(spec_is_whitespace(v@[k as int]));
        }
        if i < k {
            assert(spec_is_whitespace(v@[i as int]));
        }
        assert(v@.skip(i as int) =~= v@.subrange(i as int, v.len() as int));
    }
    slice_chars(v, i, v.len())
}

/// Heuristic: does the text look like a real figure/table caption?
pub fn looks_like_caption(text: &str) -> (r: bool)
    ensures
        r == looks_like_caption_spec(text@),
{
    let panel = regex_is_match(panel_pattern_str(), text);
    if panel {
        return decide_caption(panel, "", "");
    }
    let v = to_chars(text);
    let n = underscores_to_spaces_exec(&v);
    let t = trim_start_exec(&n);
    let e = word_end_exec(&t, false);
    let word = slice_chars(&t, 0, e);
    assert(word@ =~= t@.take(e as int));
    let first = string_from_chars(&lowercase_chars(&strip_number_suffix_exec(&word)));
    let rest = slice_chars(&t, e, t.len());
    assert(rest@ =~= t@.skip(e as int));
    let after = string_from_chars(&skip_ws_colon_exec(&rest));
    decide_caption(panel, first.as_str(), after.as_str())
}

/// A number (decimal digits or roman numerals) at the start.
pub open spec fn number_pattern() -> Seq<char> {
    "(?i)^([0-9]+|[ivxlcdm]+)"@
}

fn number_pattern_str() -> (r: &'static str)
    ensures
        r@ == number_pattern(),
{
    "(?i)^([0-9]+|[ivxlcdm]+)"
}

/// Whether `text` starts a caption header: a caption word (exactly or one
/// edit away), then (after white space, `.` and `:`) a number, then `:` or
/// `.`, or white space and an ASCII capital letter.
pub open spec fn caption_header_spec(text: Seq<char>) -> bool {
    let t = trim_start(text);
    let e = word_end(t, true);
    let first = lowercase(t.take(e as int));
    let a = trim_start(t.skip(e as int));
    let a = trim_start(skip_char(a, '.'));
    let a = trim_start(skip_char(a, ':'));
    header_decision(first, a, regex_first_match(number_pattern(), a))
}

/// The caption-header test once the lower-case first word `first`, the
/// text `a` after it and the number match `m` in `a` (a byte span) are
/// known: a caption word, a number, then `:` or `.`, or white space and an
/// ASCII capital letter.
pub open spec fn header_decision(first: Seq<char>, a: Seq<char>, m: Option<(usize, usize)>) -> bool {
    (exact_caption_word(first) || fuzzy_caption_word(first)) && match m {
        None => false,
        Some((_s, end)) => {
            let after = byte_slice(a, end as int, byte_len(a) as int);
            after.len() > 0 && (after[0] == ':' || after[0] == '.' || (spec_is_whitespace(after[0])
                && trim_start(after).len() > 0 && 'A' <= trim_start(after)[0] && trim_start(after)[0] <= 'Z'))
        },
    }
}

/// Decides whether text starts a caption header from its lower-cased first
/// word (`first`), the text after that word past white space, one `.` and
/// one `:` (`a`), and the byte span of the number at the start of `a`
/// (`m`, `None` when there is none).
pub fn decide_caption_header(first: &str, a: &str, m: Option<(usize, usize)>) -> (r: bool)
    requires
        m matches Some((s, e)) ==> e <= byte_len(a@) && at_boundary(a@, e as int),
    ensures
        r == header_decision(first@, a@, m),
{
    let f = to_chars(first);
    let (exact, fuzzy) = caption_word_match(&f);
    if !(exact || fuzzy) {
        return false;
    }
    match m {
        None => false,
        Some((_s, end)) => {
            let after_str = str_byte_suffix(a, end);
            let after = to_chars(after_str);
            if after.len() == 0 {
                return false;
            }
            let c = after[0];
            if c == ':' || c == '.' {
                true
            } else if is_whitespace(c) {
                let tt = trim_start_exec(&after);
                tt.len() > 0 && is_ascii_uppercase(tt[0])
            } else {
                false
            }
        },
    }
}

/// Stricter than [`looks_like_caption`]: true only when `text` starts a
/// caption header such as `Figure 3:`, `Fig. 5.` or `Table IV Results`.
pub fn looks_like_caption_header(text: &str) -> (r: bool)
    ensures
        r == caption_header_spec(text@),
{
    let v = to_chars(text);
    let t = trim_start_exec(&v);
    let e = word_end_exec(&t, true);
    let word = slice_chars(&t, 0, e);
    assert(word@ =~= t@.take(e as int));
    let first = string_from_chars(&lowercase_chars(&word));
    let rest = slice_chars(&t, e, t.len());
    assert(rest@ =~= t@.skip(e as int));
    let a = trim_start_exec(&rest);
    let a = trim_start_exec(&skip_char_exec(&a, '.'));
    let a = trim_start_exec(&skip_char_exec(&a, ':'));
    let a_str = string_from_chars(&a);
    let (exact, fuzzy) = caption_word_match(&to_chars(first.as_str()));
    if !(exact || fuzzy) {
        return decide_caption_header(first.as_str(), a_str.as_str(), None);
    }
    let m = regex_find(number_pattern_str(), a_str.as_str());
    decide_caption_header(first.as_str(), a_str.as_str(), m)
}

/// A sub-panel label such as `(a)` at the start.
pub open spec fn sub_panel_pattern() -> Seq<char> {
    "^\\([a-zA-Z0-9]+\\)\\s*"@
}

pub fn has_sub_panel_label(text: &str) -> (r: bool)
    ensures
        r == regex_matches(sub_panel_pattern(), text@),
{
    regex_is_match("^\\([a-zA-Z0-9]+\\)\\s*", text)
}

// ---------------------------------------------------------------------------
// Caption numbers.
// ---------------------------------------------------------------------------

/// A caption word followed by its number: `B.1`, `2.1`, `5` or a roman numeral.
pub open spec fn caption_number_pattern() -> Seq<char> {
    "(?i)\\b(?:fig(?:ure)?|table|tbl)\\.?\\s*([A-Z]\\.[0-9]+(?:\\.[0-9]+)?|[0-9]+(?:\\.[0-9]+)?|[ivxlcdm]+)\\b"@
}

/// The same number alone at the start.
pub open spec fn bare_number_pattern() -> Seq<char> {
    "(?i)^([A-Z]\\.[0-9]+(?:\\.[0-9]+)?|[0-9]+(?:\\.[0-9]+)?|[ivxlcdm]+)\\b"@
}

pub open spec fn group_or_empty(caps: Option<Seq<Option<Seq<char>>>>, i: int) -> Seq<char> {
    match caps {
        Some(g) => if 0 <= i < g.len() {
            match g[i] {
                Some(s) => s,
                None => Seq::empty(),
            }
        } else {
            Seq::empty()
        },
        None => Seq::empty(),
    }
}

/// `F:<NUMBER>` or `T:<NUMBER>`.
pub open spec fn caption_key(kind: char, number: Seq<char>) -> Seq<char> {
    seq![kind, ':'] + ascii_upper(number)
}

/// The kind of the first caption word one edit away from `w`.
pub open spec fn fuzzy_kind(w: Seq<char>) -> char {
    if 0 < edit_distance(w, "figure"@) <= 1 || 0 < edit_distance(w, "fig"@) <= 1 {
        'F'
    } else {
        'T'
    }
}

/// The normalised figure/table number of a caption: `F:5` for "Figure 5 ...",
/// `T:2` for "Table 2 ...", or, for a first word one edit away from a caption
/// word, the number that follows it.
pub open spec fn caption_number_spec(text: Seq<char>) -> Option<Seq<char>> {
    let n = underscores_to_spaces(text);
    let caps = regex_capture_groups(caption_number_pattern(), n);
    if caps is Some {
        Some(matched_caption_key(lowercase(group_or_empty(caps, 0)), caps))
    } else {
        let t = trim_start(n);
        let e = word_end(t, false);
        let first = lowercase(t.take(e as int));
        let after = skip_ws_colon(t.skip(e as int), true);
        fuzzy_caption_key_spec(first, regex_capture_groups(bare_number_pattern(), after))
    }
}

/// The key of a caption-number match: `T:` when the lower-cased matched
/// text `full` starts with `tab` or `tbl`, else `F:`, then the number
/// (capture group 1 of `caps`) in upper case.
pub open spec fn matched_caption_key(full: Seq<char>, caps: Option<Seq<Option<Seq<char>>>>) -> Seq<char> {
    let kind = if crate::chars::starts_with(full, "tab"@) || crate::chars::starts_with(full, "tbl"@) {
        'T'
    } else {
        'F'
    };
    caption_key(kind, group_or_empty(caps, 1))
}

/// The key for a first word `first` (lower case) one edit away from a
/// caption word, when the text after it starts with a number (`caps`, the
/// capture groups of the bare number pattern there); `None` otherwise.
pub open spec fn fuzzy_caption_key_spec(first: Seq<char>, caps: Option<Seq<Option<Seq<char>>>>) -> Option<Seq<char>> {
    if fuzzy_caption_word(first) && caps is Some {
        Some(caption_key(fuzzy_kind(first), group_or_empty(caps, 1)))
    } else {
        None
    }
}

fn group_or_empty_exec(caps: &Option<Vec<Option<String>>>, i: usize) -> (r: Vec<char>)
    ensures
        r@ == group_or_empty(
            match caps {
                Some(g) => Some(option_views(g@)),
                None => None,
            },
            i as int,
        ),
{
    match caps {
        Some(g) => {
            if i < g.len() {
                match &g[i] {
                    Some(s) => to_chars(s.as_str()),
                    None => Vec::new(),
                }
            } else {
                Vec::new()
            }
        },
        None => Vec::new(),
    }
}

fn caption_key_exec(kind: char, number: &Vec<char>) -> (r: String)
    ensures
        r@ == caption_key(kind, number@),
{
    let mut out: Vec<char> = Vec::new();
    out.push(kind);
    out.push(':');
    extend_chars(&mut out, &ascii_upper_exec(number));
    assert(out@ =~= caption_key(kind, number@));
    string_from_chars(&out)
}

/// Extracts a normalised figure/table number (`F:5`, `T:2`, `F:B.1`) from a
/// caption string. Sub-figure letters such as `(a)` are not part of it.
pub fn extract_caption_number(text: &str) -> (r: Option<String>)
    ensures
        match r {
            Some(s) => caption_number_spec(text@) == Some(s@),
            None => caption_number_spec(text@) is None,
        },
{
    let v = to_chars(text);
    let n = underscores_to_spaces_exec(&v);
    let ns = string_from_chars(&n);
    let caps = regex_captures(
        "(?i)\\b(?:fig(?:ure)?|table|tbl)\\.?\\s*([A-Z]\\.[0-9]+(?:\\.[0-9]+)?|[0-9]+(?:\\.[0-9]+)?|[ivxlcdm]+)\\b",
        ns.as_str(),
    );
    if caps.is_some() {
        let full = string_from_chars(&lowercase_chars(&group_or_empty_exec(&caps, 0)));
        return Some(caption_key_of_match(full.as_str(), &caps));
    }
    let t = trim_start_exec(&n);
    let e = word_end_exec(&t, false);
    let word = slice_chars(&t, 0, e);
    assert(word@ =~= t@.take(e as int));
    let first = lowercase_chars(&word);
    let rest = slice_chars(&t, e, t.len());
    assert(rest@ =~= t@.skip(e as int));
    let after = skip_ws_colon_exec(&rest);
    let after_s = string_from_chars(&after);
    let caps2 = regex_captures(
        "(?i)^([A-Z]\\.[0-9]+(?:\\.[0-9]+)?|[0-9]+(?:\\.[0-9]+)?|[ivxlcdm]+)\\b",
        after_s.as_str(),
    );
    let first_s = string_from_chars(&first);
    fuzzy_caption_key(first_s.as_str(), &caps2)
}

/// The key of a caption-number match from the lower-cased matched text
/// (`full`) and the capture groups of the match (`caps`).
pub fn caption_key_of_match(full: &str, caps: &Option<Vec<Option<String>>>) -> (r: String)
    ensures
        r@ == matched_caption_key(
            full@,
            match caps {
                Some(g) => Some(option_views(g@)),
                None => None,
            },
        ),
{
    let f = to_chars(full);
    let tab = crate::chars::chars_start_with(&f, &to_chars("tab"));
    let tbl = crate::chars::chars_start_with(&f, &to_chars("tbl"));
    let kind = if tab || tbl {
        'T'
    } else {
        'F'
    };
    caption_key_exec(kind, &group_or_empty_exec(caps, 1))
}

/// The key for a lower-cased first word (`first`) that may be one edit
/// away from a caption word, from the capture groups (`caps`) of the bare
/// number pattern on the text after it.
pub fn fuzzy_caption_key(first: &str, caps: &Option<Vec<Option<String>>>) -> (r: Option<String>)
    ensures
        opt_string_view(r) == fuzzy_caption_key_spec(
            first@,
            match caps {
                Some(g) => Some(option_views(g@)),
                None => None,
            },
        ),
{
    let w = to_chars(first);
    let (_exact, fuzzy) = caption_word_match(&w);
    if fuzzy && caps.is_some() {
        let f = caption_target_exec(0);
        let g = caption_target_exec(1);
        let df = levenshtein_chars(&w, &f);
        let dg = levenshtein_chars(&w, &g);
        let kind = if (df > 0 && df <= 1) || (dg > 0 && dg <= 1) {
            'F'
        } else {
            'T'
        };
        Some(caption_key_exec(kind, &group_or_empty_exec(caps, 1)))
    } else {
        None
    }
}

pub open spec fn opt_string_view(o: Option<String>) -> Option<Seq<char>> {
    match o {
        Some(s) => Some(s@),
        None => None,
    }
}

// ---------------------------------------------------------------------------
// Text-based figures.
// ---------------------------------------------------------------------------

/// Labels typical of prompt templates and qualitative comparisons.
pub open spec fn structure_label(i: int) -> Seq<char> {
    if i == 0 { "[system]"@ }
    else if i == 1 { "[user]"@ }
    else if i == 2 { "[assistant]"@ }
    else if i == 3 { "generation:"@ }
    else if i == 4 { "prompt:"@ }
    else if i == 5 { "output:"@ }
    else if i == 6 { "output requirement:"@ }
    else if i == 7 { "guidelines:"@ }
    else if i == 8 { "rules:"@ }
    else if i == 9 { "criteria for"@ }
    else if i == 10 { "true ("@ }
    else if i == 11 { "false ("@ }
    else if i == 12 { "causal scaffold:"@ }
    else if i == 13 { "edit target:"@ }
    else if i == 14 { "important task setting:"@ }
    else { "summarized demonstration"@ }
}

fn structure_label_exec(i: usize) -> (r: &'static str)
    requires
        i < 16,
    ensures
        r@ == structure_label(i as int),
{
    if i == 0 { "[system]" }
    else if i == 1 { "[user]" }
    else if i == 2 { "[assistant]" }
    else if i == 3 { "generation:" }
    else if i == 4 { "prompt:" }
    else if i == 5 { "output:" }
    else if i == 6 { "output requirement:" }
    else if i == 7 { "guidelines:" }
    else if i == 8 { "rules:" }
    else if i == 9 { "criteria for" }
    else if i == 10 { "true (" }
    else if i == 11 { "false (" }
    else if i == 12 { "causal scaffold:" }
    else if i == 13 { "edit target:" }
    else if i == 14 { "important task setting:" }
    else { "summarized demonstration" }
}

/// Upper-case `SYSTEM`, `USER` or `ASSISTANT` as whole words.
pub open spec fn upper_role_pattern() -> Seq<char> {
    "\\b(SYSTEM|USER|ASSISTANT)\\b"@
}

/// `demonstration(s)` as a whole word, in any case.
pub open spec fn demonstration_pattern() -> Seq<char> {
    "(?i)\\b(DEMONSTRATION|DEMONSTRATIONS)\\b"@
}

/// Whether a text block holds labels typical of text-based figures.
pub open spec fn structure_label_spec(text: Seq<char>) -> bool {
    structure_decision(
        lowercase(text),
        regex_matches(upper_role_pattern(), text),
        regex_matches(demonstration_pattern(), text),
    )
}

/// The structure-label test once the lower-cased text (`lower`) and
/// whether the text names an upper-case role (`roles`) or a demonstration
/// (`demo`) are known.
pub open spec fn structure_decision(lower: Seq<char>, roles: bool, demo: bool) -> bool {
    ||| exists|i: int| 0 <= i < 16 && contains_seq(lower, #[trigger] structure_label(i))
    ||| roles
    ||| demo
}

/// Decides whether a text block holds structure labels from its lower-cased
/// text, whether it names an upper-case role (`SYSTEM`, `USER`,
/// `ASSISTANT`) and whether it mentions demonstrations.
pub fn decide_structure_label(lower: &str, roles: bool, demo: bool) -> (r: bool)
    ensures
        r == structure_decision(lower@, roles, demo),
{
    let l = to_chars(lower);
    let mut found = false;
    for i in 0..16usize
        invariant
            found == exists|j: int| 0 <= j < i && contains_seq(l@, #[trigger] structure_label(j)),
            l@ == lower@,
    {
        if chars_contain(&l, &to_chars(structure_label_exec(i))) {
            found = true;
        }
    }
    found || roles || demo
}

/// Checks whether a text block contains structured labels typical of
/// text-based figures (prompt templates, qualitative comparisons, etc.).
pub fn has_structure_label(text: &str) -> (r: bool)
    ensures
        r == structure_label_spec(text@),
{
    let lower = string_from_chars(&lowercase_chars(&to_chars(text)));
    let roles = regex_is_match("\\b(SYSTEM|USER|ASSISTANT)\\b", text);
    let demo = regex_is_match("(?i)\\b(DEMONSTRATION|DEMONSTRATIONS)\\b", text);
    decide_structure_label(lower.as_str(), roles, demo)
}

/// A numbered label such as "1. Baseline".
pub open spec fn numbered_label_pattern() -> Seq<char> {
    "^\\d+\\.\\s+\\w+"@
}

/// Checks whether the trimmed text starts with a numbered label like
/// "1. Baseline (AdaLoRA):" or "3. Output format".
pub fn has_numbered_label(text: &str) -> (r: bool)
    ensures
        r == regex_matches(numbered_label_pattern(), trim(text@)),
{
    let t = trim_chars(&to_chars(text));
    let ts = string_from_chars(&t);
    regex_is_match("^\\d+\\.\\s+\\w+", ts.as_str())
}

} // verus!
