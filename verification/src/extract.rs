//! Locating the introduction, the conclusion and the header block in the
//! plain text extracted from a paper.
//!
//! The scoring that picks the best introduction and conclusion paragraphs
//! works in floating point and is done by the caller; everything else is
//! here.
use vstd::prelude::*;
use crate::chars::{
    char_views, join_chars, join_with, lowercase, lowercase_chars, slice_chars, starts_with, string_from_chars, to_chars, trim, trim_chars, chars_eq, chars_start_with, chars_contain, contains_seq, to_lowercase,
};
use crate::chars::{
    lemma_trim_end_take, lemma_trim_start_skip, spec_is_whitespace, trim_start, trim_end,
};
use crate::env::{lines_from, split_lines, strip_cr, text_lines, views};
use crate::pattern::{regex_is_match, regex_matches};

verus! {

/// Section titles that end the introduction or the conclusion.
pub open spec fn stop_pattern() -> Seq<char> {
    "^(?:\\d+\\.?\\s*)?(?:method|methods|methodology|approach|model|architecture|experiments|experimental|results|evaluation|references|acknowledgments|appendix|biblio|proof|theorem|lemma)\\b"@
}

/// Introduction-like section titles.
pub open spec fn intro_pattern() -> Seq<char> {
    "^(?:\\d+\\.?\\s*)?(?:introduction|background|related work|problem statement|overview|motivation)$"@
}

/// Conclusion-like section titles.
pub open spec fn conclusion_pattern() -> Seq<char> {
    "^(?:\\d+\\.?\\s*)?(?:conclusion|conclusions|discussion|summary|future work|limitations)$"@
}

pub fn stop_pattern_str() -> (r: &'static str)
    ensures
        r@ == stop_pattern(),
{
    "^(?:\\d+\\.?\\s*)?(?:method|methods|methodology|approach|model|architecture|experiments|experimental|results|evaluation|references|acknowledgments|appendix|biblio|proof|theorem|lemma)\\b"
}

pub fn intro_pattern_str() -> (r: &'static str)
    ensures
        r@ == intro_pattern(),
{
    "^(?:\\d+\\.?\\s*)?(?:introduction|background|related work|problem statement|overview|motivation)$"
}

pub fn conclusion_pattern_str() -> (r: &'static str)
    ensures
        r@ == conclusion_pattern(),
{
    "^(?:\\d+\\.?\\s*)?(?:conclusion|conclusions|discussion|summary|future work|limitations)$"
}

// ---------------------------------------------------------------------------
// Paragraphs.
// ---------------------------------------------------------------------------

/// The pieces of `s` between `'\n'` characters (`str::split('\n')`), where
/// `cur` is the piece read so far.
pub open spec fn pieces_from(s: Seq<char>, cur: Seq<char>) -> Seq<Seq<char>>
    decreases s.len(),
{
    if s.len() == 0 {
        seq![cur]
    } else if s[0] == '\n' {
        seq![cur] + pieces_from(s.skip(1), Seq::empty())
    } else {
        pieces_from(s.skip(1), cur.push(s[0]))
    }
}

/// The paragraph made of a group of lines, if not empty.
pub open spec fn emit_group(group: Seq<Seq<char>>) -> Seq<Seq<char>> {
    let p = trim(join_with(group, seq![' ']));
    if p.len() > 0 {
        seq![p]
    } else {
        Seq::empty()
    }
}

/// Paragraphs: trimmed lines grouped between blank lines, each group joined
/// by single spaces; empty paragraphs are dropped.
pub open spec fn paragraphs_from(pieces: Seq<Seq<char>>, group: Seq<Seq<char>>) -> Seq<Seq<char>>
    decreases pieces.len(),
{
    if pieces.len() == 0 {
        emit_group(group)
    } else if trim(pieces[0]).len() == 0 {
        emit_group(group) + paragraphs_from(pieces.skip(1), Seq::empty())
    } else {
        paragraphs_from(pieces.skip(1), group.push(trim(pieces[0])))
    }
}

pub open spec fn paragraphs(text: Seq<char>) -> Seq<Seq<char>> {
    paragraphs_from(pieces_from(text, Seq::empty()), Seq::empty())
}

fn split_pieces(v: &Vec<char>) -> (r: Vec<Vec<char>>)
    ensures
        char_views(r@) == pieces_from(v@, Seq::empty()),
{
    let mut r: Vec<Vec<char>> = Vec::new();
    let mut cur: Vec<char> = Vec::new();
    assert(v@.skip(0) =~= v@);
    for i in 0..v.len()
        invariant
            char_views(r@) + pieces_from(v@.skip(i as int), cur@) == pieces_from(v@, Seq::empty()),
    {
        let ghost rest = v@.skip(i as int);
        assert(rest.skip(1) =~= v@.skip(i + 1));
        if v[i] == '\n' {
            let ghost before = char_views(r@);
            let ghost c = cur@;
            r.push(cur);
            assert(char_views(r@) =~= before + seq![c]);
            cur = Vec::new();
            assert(char_views(r@) + pieces_from(v@.skip(i + 1), cur@) =~= pieces_from(v@, Seq::empty()));
        } else {
            cur.push(v[i]);
        }
    }
    assert(v@.skip(v.len() as int) =~= Seq::<char>::empty());
    let ghost before = char_views(r@);
    let ghost c = cur@;
    r.push(cur);
    assert(char_views(r@) =~= before + seq![c]);
    r
}

fn emit_group_exec(group: &Vec<Vec<char>>, out: &mut Vec<Vec<char>>)
    ensures
        char_views(final(out)@) == char_views(old(out)@) + emit_group(char_views(group@)),
{
    let mut sep: Vec<char> = Vec::new();
    sep.push(' ');
    assert(sep@ =~= seq![' ']);
    let joined = join_chars(group, 0, group.len(), &sep);
    assert(char_views(group@).subrange(0, group.len() as int) =~= char_views(group@));
    let p = trim_chars(&joined);
    if p.len() > 0 {
        let ghost before = char_views(out@);
        let ghost pv = p@;
        out.push(p);
        assert(char_views(out@) =~= before + seq![pv]);
    } else {
        assert(char_views(out@) =~= char_views(out@) + Seq::<Seq<char>>::empty());
    }
}

fn split_paragraphs_chars(v: &Vec<char>) -> (r: Vec<Vec<char>>)
    ensures
        char_views(r@) == paragraphs(v@),
{
    let pieces = split_pieces(v);
    let ghost pv = char_views(pieces@);
    let mut out: Vec<Vec<char>> = Vec::new();
    let mut group: Vec<Vec<char>> = Vec::new();
    assert(pv.skip(0) =~= pv);
    assert(char_views(out@) =~= Seq::<Seq<char>>::empty());
    assert(char_views(group@) =~= Seq::<Seq<char>>::empty());
    for i in 0..pieces.len()
        invariant
            pv == char_views(pieces@),
            pv == pieces_from(v@, Seq::empty()),
            char_views(out@) + paragraphs_from(pv.skip(i as int), char_views(group@)) == paragraphs(v@),
    {
        let ghost rest = pv.skip(i as int);
        assert(rest.skip(1) =~= pv.skip(i + 1));
        assert(rest[0] == pieces@[i as int]@);
        let t = trim_chars(&pieces[i]);
        if t.len() == 0 {
            let ghost g = char_views(group@);
            emit_group_exec(&group, &mut out);
            group = Vec::new();
            assert(char_views(group@) =~= Seq::<Seq<char>>::empty());
            assert(char_views(out@) + paragraphs_from(pv.skip(i + 1), char_views(group@)) =~= paragraphs(v@));
        } else {
            let ghost g = char_views(group@);
            let ghost tv = t@;
            group.push(t);
            assert(char_views(group@) =~= g.push(tv));
        }
    }
    assert(pv.skip(pieces.len() as int) =~= Seq::<Seq<char>>::empty());
    let ghost before = char_views(out@);
    emit_group_exec(&group, &mut out);
    out
}

pub open spec fn string_views(v: Seq<String>) -> Seq<Seq<char>> {
    v.map_values(|s: String| s@)
}

fn to_strings(v: &Vec<Vec<char>>) -> (r: Vec<String>)
    ensures
        string_views(r@) == char_views(v@),
{
    let mut r: Vec<String> = Vec::new();
    for i in 0..v.len()
        invariant
            string_views(r@) == char_views(v@).take(i as int),
    {
        let ghost before = string_views(r@);
        let s = string_from_chars(&v[i]);
        let ghost sv = s@;
        r.push(s);
        assert(char_views(v@)[i as int] == v@[i as int]@);
        assert(string_views(r@) =~= before.push(sv));
        assert(string_views(r@) =~= char_views(v@).take(i + 1));
    }
    assert(char_views(v@).take(v.len() as int) =~= char_views(v@));
    r
}

fn to_char_vecs(v: &Vec<String>) -> (r: Vec<Vec<char>>)
    ensures
        char_views(r@) == string_views(v@),
{
    let mut r: Vec<Vec<char>> = Vec::new();
    for i in 0..v.len()
        invariant
            char_views(r@) == string_views(v@).take(i as int),
    {
        let ghost before = char_views(r@);
        let c = to_chars(v[i].as_str());
        let ghost cv = c@;
        r.push(c);
        assert(string_views(v@)[i as int] == v@[i as int]@);
        assert(char_views(r@) =~= before.push(cv));
        assert(char_views(r@) =~= string_views(v@).take(i + 1));
    }
    assert(string_views(v@).take(v.len() as int) =~= string_views(v@));
    r
}

/// The non-empty paragraphs of `text`: lines are trimmed, consecutive
/// non-blank lines are joined by a space, blank lines separate paragraphs.
pub fn split_paragraphs(text: &str) -> (r: Vec<String>)
    ensures
        string_views(r@) == paragraphs(text@),
{
    let v = to_chars(text);
    let ps = split_paragraphs_chars(&v);
    to_strings(&ps)
}

// ---------------------------------------------------------------------------
// Stops and header.
// ---------------------------------------------------------------------------

pub open spec fn is_stop(p: Seq<char>) -> bool {
    regex_matches(stop_pattern(), lowercase(p))
}

/// The first paragraph from `after` on whose lower-case text starts a
/// method, results, references or similar section; the paragraph count when
/// there is none.
pub open spec fn next_stop(ps: Seq<Seq<char>>, after: nat) -> nat
    decreases ps.len() - after,
{
    if after >= ps.len() {
        ps.len()
    } else if is_stop(ps[after as int]) {
        after
    } else {
        next_stop(ps, after + 1)
    }
}

/// The first position from `after` on whose flag is set; the length when
/// there is none.
pub open spec fn first_set_from(flags: Seq<bool>, after: nat) -> nat
    decreases flags.len() - after,
{
    if after >= flags.len() {
        flags.len()
    } else if flags[after as int] {
        after
    } else {
        first_set_from(flags, after + 1)
    }
}

/// The stop flag of each paragraph.
pub open spec fn stop_flags(ps: Seq<Seq<char>>) -> Seq<bool> {
    Seq::new(ps.len(), |i: int| is_stop(ps[i]))
}

proof fn lemma_next_stop_flags(ps: Seq<Seq<char>>, after: nat)
    ensures
        next_stop(ps, after) == first_set_from(stop_flags(ps), after),
    decreases ps.len() - after,
{
    if after < ps.len() {
        lemma_next_stop_flags(ps, after + 1);
    }
}

/// Given whether each paragraph starts a stop section, the first one at or
/// after `after`; the number of paragraphs when there is none.
pub fn first_flag_from(flags: &Vec<bool>, after: usize) -> (r: usize)
    ensures
        r == first_set_from(flags@, after as nat),
{
    let mut i = after;
    while i < flags.len()
        invariant
            after <= i,
            first_set_from(flags@, after as nat) == first_set_from(flags@, i as nat),
        decreases flags.len() - i,
    {
        if flags[i] {
            return i;
        }
        i += 1;
    }
    flags.len()
}

/// Whether a paragraph starts a method, results, references or similar
/// section: its lower-case text matches the stop pattern.
pub fn is_stop_paragraph(p: &Vec<char>) -> (r: bool)
    ensures
        r == is_stop(p@),
{
    let lower = lowercase_chars(p);
    let ls = string_from_chars(&lower);
    regex_is_match(stop_pattern_str(), ls.as_str())
}

fn find_next_stop_chars(ps: &Vec<Vec<char>>, after: usize) -> (r: usize)
    ensures
        r == next_stop(char_views(ps@), after as nat),
{
    let ghost pv = char_views(ps@);
    let mut flags: Vec<bool> = Vec::new();
    for i in 0..ps.len()
        invariant
            pv == char_views(ps@),
            flags.len() == i,
            forall|k: int| 0 <= k < i ==> #[trigger] flags@[k] == is_stop(pv[k]),
    {
        assert(pv[i as int] == ps@[i as int]@);
        flags.push(is_stop_paragraph(&ps[i]));
    }
    assert(flags@ =~= stop_flags(pv));
    proof {
        lemma_next_stop_flags(pv, after as nat);
    }
    first_flag_from(&flags, after)
}

/// Index of the first paragraph at or after `after` that starts a stop
/// section, or the number of paragraphs.
pub fn find_next_stop(paragraphs: &Vec<String>, after: usize) -> (r: usize)
    ensures
        r == next_stop(string_views(paragraphs@), after as nat),
{
    let ps = to_char_vecs(paragraphs);
    find_next_stop_chars(&ps, after)
}

/// Whether a (trimmed, lower-cased) line ends the header: the abstract,
/// the introduction or the keywords begin.
pub open spec fn header_boundary(lower: Seq<char>) -> bool {
    boundary_decision(lower, regex_matches(intro_pattern(), lower))
}

/// The header-boundary test once it is known whether the line matches the
/// introduction pattern (`intro`).
pub open spec fn boundary_decision(lower: Seq<char>, intro: bool) -> bool {
    ||| lower == "abstract"@
    ||| starts_with(lower, "abstract "@)
    ||| intro
    ||| lower == "keywords"@
    ||| starts_with(lower, "keywords "@)
    ||| starts_with(lower, "key words"@)
}

/// Decides whether a trimmed, lower-cased line (`lower`) ends the header,
/// given whether it matches the introduction pattern (`intro`).
pub fn decide_header_boundary(lower: &str, intro: bool) -> (r: bool)
    ensures
        r == boundary_decision(lower@, intro),
{
    let l = to_chars(lower);
    chars_eq(&l, &to_chars("abstract")) || chars_start_with(&l, &to_chars("abstract ")) || intro || chars_eq(
        &l,
        &to_chars("keywords"),
    ) || chars_start_with(&l, &to_chars("keywords ")) || chars_start_with(&l, &to_chars("key words"))
}

pub open spec fn first_boundary(ls: Seq<Seq<char>>, i: nat) -> Option<nat>
    decreases ls.len() - i,
{
    if i >= ls.len() {
        None
    } else if header_boundary(lowercase(trim(ls[i as int]))) {
        Some(i)
    } else {
        first_boundary(ls, i + 1)
    }
}

/// The header: the lines before the abstract, introduction or keywords
/// (the first 30 lines when none is found), joined by newlines and cut to
/// 5000 characters.
pub open spec fn header_of(text: Seq<char>) -> Seq<char> {
    let ls = text_lines(text);
    let b = match first_boundary(ls, 0) {
        Some(i) => i,
        None => if ls.len() < 30 { ls.len() } else { 30 },
    };
    let h = join_with(ls.take(b as int), seq!['\n']);
    if h.len() <= 5000 {
        h
    } else {
        h.take(5000)
    }
}

fn is_header_boundary(line: &Vec<char>) -> (r: bool)
    ensures
        r == header_boundary(lowercase(trim(line@))),
{
    let t = trim_chars(line);
    let lower = lowercase_chars(&t);
    let ls = string_from_chars(&lower);
    let intro = regex_is_match(intro_pattern_str(), ls.as_str());
    decide_header_boundary(ls.as_str(), intro)
}

/// The raw header text (before Abstract/Introduction), for the author and
/// affiliation parser.
pub fn extract_header(text: &str) -> (r: String)
    ensures
        r@ == header_of(text@),
{
    let v = to_chars(text);
    let lines = split_lines(&v);
    let ghost ls = views(lines@);
    let mut b: usize = 0;
    let mut found = false;
    while b < lines.len() && !found
        invariant
            ls == views(lines@),
            ls == text_lines(text@),
            b <= lines.len(),
            found ==> b < lines.len() && first_boundary(ls, 0) == Some(b as nat),
            !found ==> first_boundary(ls, 0) == first_boundary(ls, b as nat),
        decreases lines.len() - b + (if found { 0int } else { 1int }),
    {
        assert(ls[b as int] == lines@[b as int]@);
        if is_header_boundary(&lines[b]) {
            found = true;
        } else {
            b += 1;
        }
    }
    if !found {
        b = if lines.len() < 30 {
            lines.len()
        } else {
            30
        };
    }
    let mut sep: Vec<char> = Vec::new();
    sep.push('\n');
    assert(sep@ =~= seq!['\n']);
    assert(char_views(lines@) == ls);
    let h = join_chars(&lines, 0, b, &sep);
    assert(ls.subrange(0, b as int) =~= ls.take(b as int));
    let h = if h.len() <= 5000 {
        h
    } else {
        slice_chars(&h, 0, 5000)
    };
    string_from_chars(&h)
}

// ---------------------------------------------------------------------------
// How strongly a paragraph reads as a section title.
// ---------------------------------------------------------------------------

/// How strongly a paragraph reads as an introduction title: 3 when the
/// lower-cased text is one, 2 when it mentions the introduction or the
/// background, 1 when it mentions related work, an overview or the
/// motivation, 0 otherwise. The caller weighs the levels 1.0, 0.6, 0.45, 0.
pub open spec fn intro_level(text: Seq<char>) -> u8 {
    let t = lowercase(text);
    intro_level_of(t, regex_matches(intro_pattern(), t))
}

/// The introduction level of lower-case text `t`, given whether it matches
/// the introduction title pattern (`matched`).
pub open spec fn intro_level_of(t: Seq<char>, matched: bool) -> u8 {
    if matched {
        3
    } else if contains_seq(t, "introduction"@) || contains_seq(t, "background"@) {
        2
    } else if contains_seq(t, "related work"@) || contains_seq(t, "overview"@) || contains_seq(t, "motivation"@) {
        1
    } else {
        0
    }
}

/// How strongly a paragraph reads as a conclusion title, on the same scale
/// as [`intro_level`].
pub open spec fn conclusion_level(text: Seq<char>) -> u8 {
    let t = lowercase(text);
    conclusion_level_of(t, regex_matches(conclusion_pattern(), t))
}

/// The conclusion level of lower-case text `t`, given whether it matches
/// the conclusion title pattern (`matched`).
pub open spec fn conclusion_level_of(t: Seq<char>, matched: bool) -> u8 {
    if matched {
        3
    } else if contains_seq(t, "conclusion"@) || contains_seq(t, "discussion"@) {
        2
    } else if contains_seq(t, "summary"@) || contains_seq(t, "future work"@) || contains_seq(t, "limitations"@) {
        1
    } else {
        0
    }
}

/// The introduction level of lower-cased text, given whether it matches
/// the introduction title pattern.
pub fn intro_level_from(lower: &str, matched: bool) -> (r: u8)
    ensures
        r == intro_level_of(lower@, matched),
{
    let t = to_chars(lower);
    if matched {
        3
    } else if chars_contain(&t, &to_chars("introduction")) || chars_contain(&t, &to_chars("background")) {
        2
    } else if chars_contain(&t, &to_chars("related work")) || chars_contain(&t, &to_chars("overview"))
        || chars_contain(&t, &to_chars("motivation")) {
        1
    } else {
        0
    }
}

/// The conclusion level of lower-cased text, given whether it matches the
/// conclusion title pattern.
pub fn conclusion_level_from(lower: &str, matched: bool) -> (r: u8)
    ensures
        r == conclusion_level_of(lower@, matched),
{
    let t = to_chars(lower);
    if matched {
        3
    } else if chars_contain(&t, &to_chars("conclusion")) || chars_contain(&t, &to_chars("discussion")) {
        2
    } else if chars_contain(&t, &to_chars("summary")) || chars_contain(&t, &to_chars("future work"))
        || chars_contain(&t, &to_chars("limitations")) {
        1
    } else {
        0
    }
}

pub fn intro_match_level(text: &str) -> (r: u8)
    ensures
        r == intro_level(text@),
{
    let lower = to_lowercase(text);
    let matched = regex_is_match(intro_pattern_str(), lower.as_str());
    intro_level_from(lower.as_str(), matched)
}

pub fn conclusion_match_level(text: &str) -> (r: u8)
    ensures
        r == conclusion_level(text@),
{
    let lower = to_lowercase(text);
    let matched = regex_is_match(conclusion_pattern_str(), lower.as_str());
    conclusion_level_from(lower.as_str(), matched)
}

// ---------------------------------------------------------------------------
// Sections.
// ---------------------------------------------------------------------------

/// The extracted sections of a paper.
#[derive(Debug, Clone)]
pub struct ExtractedSections {
    pub intro: String,
    pub conclusion: String,
    pub header: String,
}

/// What the floating-point scoring decided: the best introduction and
/// conclusion paragraphs, and how many paragraphs the fallbacks take when
/// no paragraph scored.
#[derive(Debug, Clone)]
pub struct SectionChoice {
    pub best_intro: Option<usize>,
    pub best_conclusion: Option<usize>,
    pub intro_fallback: usize,
    pub conclusion_fallback: usize,
}

pub open spec fn max_nat(a: nat, b: nat) -> nat {
    if a >= b { a } else { b }
}

pub open spec fn min_nat(a: nat, b: nat) -> nat {
    if a <= b { a } else { b }
}

/// A choice that names paragraphs that exist and fallbacks that fit.
pub open spec fn choice_fits(ps: Seq<Seq<char>>, c: SectionChoice) -> bool {
    let n = max_nat(ps.len(), 1);
    &&& c.best_intro matches Some(i) ==> i < ps.len()
    &&& c.best_conclusion matches Some(i) ==> i < ps.len()
    &&& c.best_intro is None ==> min_nat(c.intro_fallback as nat, n) <= ps.len()
    &&& c.best_conclusion is None ==> c.conclusion_fallback <= n && n - c.conclusion_fallback <= ps.len()
}

pub open spec fn para_sep() -> Seq<char> {
    seq!['\n', '\n']
}

/// The introduction: from the best introduction paragraph up to the next
/// stop section or the conclusion (when it comes later), at least one
/// paragraph; without a best paragraph the first `intro_fallback`
/// paragraphs.
pub open spec fn intro_of(ps: Seq<Seq<char>>, c: SectionChoice) -> Seq<char> {
    let n = max_nat(ps.len(), 1);
    match c.best_intro {
        Some(start) => {
            let end0 = match c.best_conclusion {
                Some(k) => if k > start { k as nat } else { n },
                None => n,
            };
            let end = max_nat(min_nat(end0, next_stop(ps, (start + 1) as nat)), (start + 1) as nat);
            join_with(ps.subrange(start as int, end as int), para_sep())
        },
        None => join_with(ps.take(min_nat(c.intro_fallback as nat, n) as int), para_sep()),
    }
}

/// The conclusion: from the best conclusion paragraph up to the next stop
/// section, at least one paragraph; without a best paragraph the last
/// `conclusion_fallback` paragraphs.
pub open spec fn conclusion_of(ps: Seq<Seq<char>>, c: SectionChoice) -> Seq<char> {
    let n = max_nat(ps.len(), 1);
    match c.best_conclusion {
        Some(start) => {
            let end = max_nat(next_stop(ps, (start + 1) as nat), (start + 1) as nat);
            join_with(ps.subrange(start as int, min_nat(end, n) as int), para_sep())
        },
        None => join_with(ps.skip(n - c.conclusion_fallback), para_sep()),
    }
}

proof fn lemma_next_stop_bound(ps: Seq<Seq<char>>, after: nat)
    ensures
        next_stop(ps, after) <= ps.len(),
        after <= ps.len() ==> after <= next_stop(ps, after),
    decreases ps.len() - after,
{
    if after < ps.len() {
        lemma_next_stop_bound(ps, after + 1);
    }
}

/// Extracts the introduction, the conclusion and the header of a paper's
/// text, given the paragraphs the scoring picked.
pub fn extract_sections(text: &str, choice: &SectionChoice) -> (r: ExtractedSections)
    requires
        choice_fits(paragraphs(text@), *choice),
    ensures
        r.intro@ == intro_of(paragraphs(text@), *choice),
        r.conclusion@ == conclusion_of(paragraphs(text@), *choice),
        r.header@ == header_of(text@),
{
    let v = to_chars(text);
    let ps = split_paragraphs_chars(&v);
    let ghost pv = char_views(ps@);
    let len = ps.len();
    let n = if len > 1 {
        len
    } else {
        1
    };
    let mut sep: Vec<char> = Vec::new();
    sep.push('\n');
    sep.push('\n');
    assert(sep@ =~= para_sep());
    let intro = match choice.best_intro {
        Some(start) => {
            let end0 = match choice.best_conclusion {
                Some(k) => if k > start {
                    k
                } else {
                    n
                },
                None => n,
            };
            let stop = find_next_stop_chars(&ps, start + 1);
            proof {
                lemma_next_stop_bound(pv, (start + 1) as nat);
            }
            let end1 = if end0 < stop {
                end0
            } else {
                stop
            };
            let end = if end1 > start + 1 {
                end1
            } else {
                start + 1
            };
            join_chars(&ps, start, end, &sep)
        },
        None => {
            let take = if choice.intro_fallback < n {
                choice.intro_fallback
            } else {
                n
            };
            assert(pv.subrange(0, take as int) =~= pv.take(take as int));
            join_chars(&ps, 0, take, &sep)
        },
    };
    let conclusion = match choice.best_conclusion {
        Some(start) => {
            let stop = find_next_stop_chars(&ps, start + 1);
            proof {
                lemma_next_stop_bound(pv, (start + 1) as nat);
            }
            let end = if stop > start + 1 {
                stop
            } else {
                start + 1
            };
            let end = if end < n {
                end
            } else {
                n
            };
            join_chars(&ps, start, end, &sep)
        },
        None => {
            let skip = n - choice.conclusion_fallback;
            assert(pv.subrange(skip as int, len as int) =~= pv.skip(skip as int));
            join_chars(&ps, skip, len, &sep)
        },
    };
    let header = extract_header(text);
    ExtractedSections {
        intro: string_from_chars(&intro),
        conclusion: string_from_chars(&conclusion),
        header,
    }
}


/// The introduction and the conclusion are each a run of consecutive
/// paragraphs joined by blank lines. The run is not empty when the scoring
/// named a paragraph, or when the text has paragraphs and the fallback asks
/// for at least one. The header holds at most 5000 characters.
pub proof fn sections_are_paragraph_runs(text: Seq<char>, c: SectionChoice)
    requires
        choice_fits(paragraphs(text), c),
    ensures
        exists|a: int, b: int|
            0 <= a <= b <= paragraphs(text).len() && #[trigger] join_with(paragraphs(text).subrange(a, b), para_sep())
                == intro_of(paragraphs(text), c) && ((c.best_intro is Some || (c.intro_fallback > 0
                && paragraphs(text).len() > 0)) ==> a < b),
        exists|a: int, b: int|
            0 <= a <= b <= paragraphs(text).len() && #[trigger] join_with(paragraphs(text).subrange(a, b), para_sep())
                == conclusion_of(paragraphs(text), c) && ((c.best_conclusion is Some || (c.conclusion_fallback
                > 0 && paragraphs(text).len() > 0)) ==> a < b),
        header_of(text).len() <= 5000,
{
    let ps = paragraphs(text);
    let n = max_nat(ps.len(), 1);
    match c.best_intro {
        Some(start) => {
            lemma_next_stop_bound(ps, (start + 1) as nat);
            let end0 = match c.best_conclusion {
                Some(k) => if k > start { k as nat } else { n },
                None => n,
            };
            let end = max_nat(min_nat(end0, next_stop(ps, (start + 1) as nat)), (start + 1) as nat);
            assert(join_with(ps.subrange(start as int, end as int), para_sep()) == intro_of(ps, c));
        },
        None => {
            let b = min_nat(c.intro_fallback as nat, n) as int;
            assert(ps.subrange(0, b) =~= ps.take(b));
            assert(join_with(ps.subrange(0, b), para_sep()) == intro_of(ps, c));
        },
    }
    match c.best_conclusion {
        Some(start) => {
            lemma_next_stop_bound(ps, (start + 1) as nat);
            let end = max_nat(next_stop(ps, (start + 1) as nat), (start + 1) as nat);
            assert(join_with(ps.subrange(start as int, min_nat(end, n) as int), para_sep()) == conclusion_of(
                ps,
                c,
            ));
        },
        None => {
            let a = (n - c.conclusion_fallback) as int;
            assert(ps.subrange(a, ps.len() as int) =~= ps.skip(a));
            assert(join_with(ps.subrange(a, ps.len() as int), para_sep()) == conclusion_of(ps, c));
        },
    }
}

/// Extraction is defined on every text with at least one paragraph: a
/// choice that names existing paragraphs (or none) and whose conclusion
/// fallback takes at most all the paragraphs fits, whatever the
/// introduction fallback asks for. On a text without paragraphs a choice
/// fits only when it names none, the introduction fallback takes no
/// paragraph and the conclusion fallback takes one; the fallbacks of at
/// least one paragraph each that the scoring picks do not fit there.
pub proof fn choices_fit_texts_with_paragraphs(text: Seq<char>, c: SectionChoice)
    ensures
        paragraphs(text).len() > 0 ==> (choice_fits(paragraphs(text), c) <==> ((c.best_intro matches Some(i) ==> i
            < paragraphs(text).len()) && (c.best_conclusion matches Some(i) ==> i < paragraphs(text).len()) && (
        c.best_conclusion is None ==> c.conclusion_fallback <= paragraphs(text).len()))),
        paragraphs(text).len() == 0 ==> (choice_fits(paragraphs(text), c) <==> (c.best_intro is None
            && c.best_conclusion is None && c.intro_fallback == 0 && c.conclusion_fallback == 1)),
{
}


proof fn lemma_join_front(x: Seq<char>, ys: Seq<Seq<char>>, sep: Seq<char>)
    requires
        ys.len() > 0,
    ensures
        join_with(seq![x] + ys, sep) == x + sep + join_with(ys, sep),
    decreases ys.len(),
{
    let all = seq![x] + ys;
    assert(all.len() >= 2);
    assert(join_with(all, sep) == join_with(all.drop_last(), sep) + sep + all.last());
    assert(all.last() == ys.last());
    if ys.len() == 1 {
        assert(all.drop_last() =~= seq![x]);
        assert(join_with(seq![x], sep) == x);
        assert(join_with(ys, sep) == ys[0]);
        assert(ys.last() == ys[0]);
    } else {
        lemma_join_front(x, ys.drop_last(), sep);
        assert(all.drop_last() =~= seq![x] + ys.drop_last());
        assert(join_with(ys, sep) == join_with(ys.drop_last(), sep) + sep + ys.last());
        assert(x + sep + join_with(ys, sep) =~= x + sep + join_with(ys.drop_last(), sep) + sep + ys.last());
    }
}

spec fn no_cr(s: Seq<char>) -> bool {
    forall|i: int| 0 <= i < s.len() ==> s[i] != '\r'
}

proof fn lemma_lines_prefix(s: Seq<char>, cur: Seq<char>, b: int)
    requires
        no_cr(s),
        no_cr(cur),
        0 <= b <= lines_from(s, cur).len(),
    ensures
        join_with(lines_from(s, cur).take(b), seq!['\n']).is_prefix_of(cur + s),
    decreases s.len(),
{
    let ls = lines_from(s, cur);
    let sep = seq!['\n'];
    if s.len() == 0 {
        if b == 0 || cur.len() == 0 {
            assert(ls.take(b).len() == 0);
        } else {
            assert(ls.take(b) =~= seq![cur]);
            assert(cur + s =~= cur);
        }
    } else if s[0] == '\n' {
        let rest = lines_from(s.skip(1), Seq::empty());
        assert(no_cr(s.skip(1))) by {
            assert forall|i: int| 0 <= i < s.skip(1).len() implies s.skip(1)[i] != '\r' by {
                assert(s.skip(1)[i] == s[i + 1]);
            }
        }
        assert(strip_cr(cur) == cur) by {
            if cur.len() > 0 {
                assert(cur.last() == cur[cur.len() - 1]);
            }
        }
        assert(ls == seq![cur] + rest);
        if b == 0 {
            assert(ls.take(b).len() == 0);
        } else {
            lemma_lines_prefix(s.skip(1), Seq::empty(), b - 1);
            let tail = rest.take(b - 1);
            assert(Seq::<char>::empty() + s.skip(1) =~= s.skip(1));
            if tail.len() == 0 {
                assert(ls.take(b) =~= seq![cur]);
            } else {
                assert(ls.take(b) =~= seq![cur] + tail);
                lemma_join_front(cur, tail, sep);
                assert(cur + s =~= cur + sep + s.skip(1));
                let j = join_with(tail, sep);
                assert((cur + sep + j) =~= (cur + sep + s.skip(1)).subrange(0, (cur + sep + j).len() as int));
            }
        }
    } else {
        assert(no_cr(s.skip(1))) by {
            assert forall|i: int| 0 <= i < s.skip(1).len() implies s.skip(1)[i] != '\r' by {
                assert(s.skip(1)[i] == s[i + 1]);
            }
        }
        assert(no_cr(cur.push(s[0]))) by {
            assert forall|i: int| 0 <= i < cur.push(s[0]).len() implies cur.push(s[0])[i] != '\r' by {
                if i == cur.len() {
                    assert(s[0] != '\r');
                }
            }
        }
        lemma_lines_prefix(s.skip(1), cur.push(s[0]), b);
        assert(cur.push(s[0]) + s.skip(1) =~= cur + s);
    }
}

proof fn lemma_first_boundary_bound(ls: Seq<Seq<char>>, i: nat)
    ensures
        first_boundary(ls, i) matches Some(j) ==> j < ls.len(),
    decreases ls.len() - i,
{
    if i < ls.len() {
        lemma_first_boundary_bound(ls, i + 1);
    }
}

/// For text without carriage returns, the header is the start of the text,
/// at most 5000 characters long.
pub proof fn header_is_start_of_text(text: Seq<char>)
    requires
        forall|i: int| 0 <= i < text.len() ==> text[i] != '\r',
    ensures
        header_of(text).is_prefix_of(text),
        header_of(text).len() <= 5000,
{
    let ls = text_lines(text);
    let b = match first_boundary(ls, 0) {
        Some(i) => i,
        None => if ls.len() < 30 { ls.len() } else { 30 },
    };
    assert(no_cr(Seq::<char>::empty()));
    lemma_first_boundary_bound(ls, 0);
    lemma_lines_prefix(text, Seq::empty(), b as int);
    assert(Seq::<char>::empty() + text =~= text);
    let h = join_with(ls.take(b as int), seq!['\n']);
    if h.len() > 5000 {
        assert(h.take(5000) =~= text.subrange(0, 5000));
    }
}


/// `p` holds a character that is not white space.
pub open spec fn has_visible(p: Seq<char>) -> bool {
    exists|j: int| 0 <= j < p.len() && !spec_is_whitespace(#[trigger] p[j])
}

proof fn lemma_trim_visible(p: Seq<char>)
    ensures
        has_visible(p) <==> trim(p).len() > 0,
        trim(p).len() > 0 ==> has_visible(trim(p)),
{
    lemma_trim_start_skip(p);
    let k = crate::chars::leading_ws(p) as int;
    let y = trim_start(p);
    lemma_trim_end_take(y);
    let m = y.len() - crate::chars::trailing_ws(y);
    assert(trim(p) == trim_end(y));
    if has_visible(p) {
        let j = choose|j: int| 0 <= j < p.len() && !spec_is_whitespace(#[trigger] p[j]);
        assert(k <= j);
        assert(y[j - k] == p[j]);
        assert(m > j - k);
    }
    if trim(p).len() > 0 {
        assert(trim(p)[0] == y[0] && y[0] == p[k]);
        assert(!spec_is_whitespace(trim(p)[0]));
        assert(!spec_is_whitespace(p[k]));
    }
}

proof fn lemma_pieces_visible(s: Seq<char>, cur: Seq<char>)
    requires
        has_visible(cur) || has_visible(s),
    ensures
        exists|k: int| 0 <= k < pieces_from(s, cur).len() && has_visible(#[trigger] pieces_from(s, cur)[k]),
    decreases s.len(),
{
    let ps = pieces_from(s, cur);
    if s.len() == 0 {
        assert(ps[0] == cur);
    } else {
        let t = s.skip(1);
        if !has_visible(cur) {
            let j = choose|j: int| 0 <= j < s.len() && !spec_is_whitespace(#[trigger] s[j]);
            if j > 0 {
                assert(t[j - 1] == s[j]);
            }
        }
        if s[0] == '\n' {
            if has_visible(cur) {
                assert(ps[0] == cur);
            } else {
                lemma_pieces_visible(t, Seq::empty());
                let k = choose|k: int| 0 <= k < pieces_from(t, Seq::empty()).len() && has_visible(
                    #[trigger] pieces_from(t, Seq::empty())[k],
                );
                assert(ps[k + 1] == pieces_from(t, Seq::empty())[k]);
            }
        } else {
            let c2 = cur.push(s[0]);
            if has_visible(cur) {
                let j = choose|j: int| 0 <= j < cur.len() && !spec_is_whitespace(#[trigger] cur[j]);
                assert(c2[j] == cur[j]);
            } else if !spec_is_whitespace(s[0]) {
                assert(c2[cur.len() as int] == s[0]);
            }
            lemma_pieces_visible(t, c2);
        }
    }
}

proof fn lemma_join_visible(ls: Seq<Seq<char>>, sep: Seq<char>, g: int)
    requires
        0 <= g < ls.len(),
        has_visible(ls[g]),
    ensures
        has_visible(join_with(ls, sep)),
    decreases ls.len(),
{
    if ls.len() == 1 {
        assert(join_with(ls, sep) == ls[0]);
    } else {
        let d = ls.drop_last();
        let jn = join_with(ls, sep);
        assert(jn == join_with(d, sep) + sep + ls.last());
        if g < ls.len() - 1 {
            assert(d[g] == ls[g]);
            lemma_join_visible(d, sep, g);
            let jd = join_with(d, sep);
            let j = choose|j: int| 0 <= j < jd.len() && !spec_is_whitespace(#[trigger] jd[j]);
            assert(jn[j] == jd[j]);
        } else {
            let l = ls.last();
            assert(l == ls[g]);
            let j = choose|j: int| 0 <= j < l.len() && !spec_is_whitespace(#[trigger] l[j]);
            let off = join_with(d, sep).len() + sep.len();
            assert(jn[off + j] == l[j]);
        }
    }
}

proof fn lemma_paragraphs_visible(pieces: Seq<Seq<char>>, group: Seq<Seq<char>>)
    requires
        (exists|g: int| 0 <= g < group.len() && has_visible(#[trigger] group[g])) || (exists|k: int|
            0 <= k < pieces.len() && has_visible(#[trigger] pieces[k])),
    ensures
        paragraphs_from(pieces, group).len() > 0,
    decreases pieces.len(),
{
    let group_visible = exists|g: int| 0 <= g < group.len() && has_visible(#[trigger] group[g]);
    if group_visible {
        let g = choose|g: int| 0 <= g < group.len() && has_visible(#[trigger] group[g]);
        lemma_join_visible(group, seq![' '], g);
        lemma_trim_visible(join_with(group, seq![' ']));
        assert(emit_group(group).len() > 0);
    }
    if pieces.len() > 0 {
        let t = pieces.skip(1);
        lemma_trim_visible(pieces[0]);
        if trim(pieces[0]).len() == 0 {
            if !group_visible {
                let k = choose|k: int| 0 <= k < pieces.len() && has_visible(#[trigger] pieces[k]);
                assert(k > 0);
                assert(t[k - 1] == pieces[k]);
                lemma_paragraphs_visible(t, Seq::empty());
            }
        } else {
            let g2 = group.push(trim(pieces[0]));
            assert(g2[group.len() as int] == trim(pieces[0]));
            lemma_paragraphs_visible(t, g2);
        }
    }
}

/// A text with a character that is not white space has a paragraph, so
/// the choices of [`choices_fit_texts_with_paragraphs`] extract from it.
pub proof fn visible_text_has_paragraphs(text: Seq<char>)
    requires
        has_visible(text),
    ensures
        paragraphs(text).len() > 0,
{
    lemma_pieces_visible(text, Seq::empty());
    lemma_paragraphs_visible(pieces_from(text, Seq::empty()), Seq::empty());
}


/// When the best conclusion paragraph comes after the best introduction
/// paragraph, the introduction is a run of paragraphs from the best
/// introduction paragraph that ends at or before the conclusion's first
/// paragraph, and the conclusion is a run from the best conclusion
/// paragraph: the two share no paragraph.
pub proof fn intro_stops_before_conclusion(text: Seq<char>, c: SectionChoice)
    requires
        choice_fits(paragraphs(text), c),
        c.best_intro is Some,
        c.best_conclusion is Some,
        c.best_intro->0 < c.best_conclusion->0,
    ensures
        exists|b: int, d: int|
            c.best_intro->0 < b <= c.best_conclusion->0 < d <= paragraphs(text).len()
                && intro_of(paragraphs(text), c) == join_with(paragraphs(text).subrange(c.best_intro->0 as int, b), para_sep())
                && #[trigger] conclusion_of(paragraphs(text), c) == join_with(
                paragraphs(text).subrange(c.best_conclusion->0 as int, d),
                para_sep(),
            ),
{
    let ps = paragraphs(text);
    let n = max_nat(ps.len(), 1);
    let a = c.best_intro->0;
    let k = c.best_conclusion->0;
    lemma_next_stop_bound(ps, (a + 1) as nat);
    lemma_next_stop_bound(ps, (k + 1) as nat);
    let b = max_nat(min_nat(k as nat, next_stop(ps, (a + 1) as nat)), (a + 1) as nat) as int;
    let end = max_nat(next_stop(ps, (k + 1) as nat), (k + 1) as nat);
    let d = min_nat(end, n) as int;
    assert(intro_of(ps, c) == join_with(ps.subrange(a as int, b), para_sep()));
    assert(conclusion_of(ps, c) == join_with(ps.subrange(k as int, d), para_sep()));
}


proof fn lemma_next_stop_first(ps: Seq<Seq<char>>, after: nat)
    ensures
        forall|j: int| after <= j < next_stop(ps, after) ==> !is_stop(#[trigger] ps[j]),
        next_stop(ps, after) < ps.len() ==> is_stop(ps[next_stop(ps, after) as int]),
    decreases ps.len() - after,
{
    if after < ps.len() && !is_stop(ps[after as int]) {
        lemma_next_stop_first(ps, after + 1);
    }
}

/// The introduction is the paragraphs `a..b`, no paragraph after its first
/// starts a stop section, and the paragraph after it, if any, does or is
/// the best conclusion paragraph.
pub open spec fn intro_run(ps: Seq<Seq<char>>, c: SectionChoice, a: int, b: int) -> bool {
    &&& a < b <= ps.len()
    &&& intro_of(ps, c) == join_with(ps.subrange(a, b), para_sep())
    &&& forall|j: int| a < j < b ==> !is_stop(#[trigger] ps[j])
    &&& b < ps.len() ==> is_stop(ps[b]) || (c.best_conclusion is Some && c.best_conclusion->0 == b)
}

/// The conclusion is the paragraphs `k..d`, no paragraph after its first
/// starts a stop section, and the paragraph after it, if any, does.
pub open spec fn conclusion_run(ps: Seq<Seq<char>>, c: SectionChoice, k: int, d: int) -> bool {
    &&& k < d <= ps.len()
    &&& conclusion_of(ps, c) == join_with(ps.subrange(k, d), para_sep())
    &&& forall|j: int| k < j < d ==> !is_stop(#[trigger] ps[j])
    &&& d < ps.len() ==> is_stop(ps[d])
}

/// A section found by the scoring runs from its best paragraph up to, and
/// not into, the next paragraph that starts a stop section (method,
/// results, references and the like); the introduction also stops at the
/// best conclusion paragraph when that comes later.
pub proof fn sections_end_at_stop_paragraphs(text: Seq<char>, c: SectionChoice)
    requires
        choice_fits(paragraphs(text), c),
    ensures
        c.best_intro matches Some(a) ==> exists|b: int| #[trigger] intro_run(paragraphs(text), c, a as int, b),
        c.best_conclusion matches Some(k) ==> exists|d: int| #[trigger] conclusion_run(paragraphs(text), c, k as int, d),
{
    let ps = paragraphs(text);
    let n = max_nat(ps.len(), 1);
    if let Some(a) = c.best_intro {
        lemma_next_stop_bound(ps, (a + 1) as nat);
        lemma_next_stop_first(ps, (a + 1) as nat);
        let end0 = match c.best_conclusion {
            Some(k) => if k > a { k as nat } else { n },
            None => n,
        };
        let b = max_nat(min_nat(end0, next_stop(ps, (a + 1) as nat)), (a + 1) as nat) as int;
        assert(intro_of(ps, c) == join_with(ps.subrange(a as int, b), para_sep()));
        assert(a < b <= ps.len());
        assert(forall|j: int| a < j < b ==> !is_stop(#[trigger] ps[j]));
        assert(b < ps.len() ==> is_stop(ps[b]) || (c.best_conclusion is Some && c.best_conclusion->0 == b));
        assert(intro_run(ps, c, a as int, b));
    }
    if let Some(k) = c.best_conclusion {
        lemma_next_stop_bound(ps, (k + 1) as nat);
        lemma_next_stop_first(ps, (k + 1) as nat);
        let end = max_nat(next_stop(ps, (k + 1) as nat), (k + 1) as nat);
        let d = min_nat(end, n) as int;
        assert(conclusion_of(ps, c) == join_with(ps.subrange(k as int, d), para_sep()));
        assert(k < d <= ps.len());
        assert(forall|j: int| k < j < d ==> !is_stop(#[trigger] ps[j]));
        assert(d < ps.len() ==> is_stop(ps[d]));
        assert(conclusion_run(ps, c, k as int, d));
    }
}

} // verus!
