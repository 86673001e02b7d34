//! Checks on extracted figures: that each extraction carries a figure or
//! table number, how overlapping extractions are judged, and whether the
//! figure and table numbers run without gaps and cover the captions of the
//! layout. Geometry (bounding boxes) is measured by the caller; these
//! functions decide on the texts and numbers.
use vstd::prelude::*;
use crate::captions::{caption_number_spec, extract_caption_number, has_sub_panel_label, sub_panel_pattern};
use crate::chars::{chars_contain, contains_seq, slice_chars, starts_with, string_from_chars, to_chars};
use crate::config::{parse_unsigned, parsed_at_most};
use crate::mineru::{str_eq, str_starts_with};
use crate::pattern::{regex_is_match, regex_matches};

verus! {

// ---------------------------------------------------------------------------
// Per-extraction checks.
// ---------------------------------------------------------------------------

/// A description that only names the page of a block ("image on page 3"),
/// with no figure or table word in it.
pub open spec fn placeholder_desc(d: Seq<char>) -> bool {
    (starts_with(d, "image on page"@) || starts_with(d, "chart on page"@) || starts_with(
        d,
        "table on page"@,
    )) && !contains_seq(d, "Figure"@) && !contains_seq(d, "Table"@)
}

pub(crate) fn str_contains(s: &str, lit: &str) -> (r: bool)
    ensures
        r == contains_seq(s@, lit@),
{
    let a = to_chars(s);
    let b = to_chars(lit);
    chars_contain(&a, &b)
}

/// Whether a description is a page placeholder rather than a caption.
pub fn is_placeholder_desc(desc: &str) -> (r: bool)
    ensures
        r == placeholder_desc(desc@),
{
    (str_starts_with(desc, "image on page") || str_starts_with(desc, "chart on page")
        || str_starts_with(desc, "table on page")) && !str_contains(desc, "Figure") && !str_contains(
        desc,
        "Table",
    )
}

/// A description whose caption number is a figure or table number, or that
/// starts with a sub-panel label such as `(a)`.
pub open spec fn numbered_desc(d: Seq<char>) -> bool {
    (match caption_number_spec(d) {
        Some(k) => starts_with(k, "F:"@) || starts_with(k, "T:"@),
        None => false,
    }) || regex_matches(sub_panel_pattern(), d)
}

/// The verdict on one extraction.
#[derive(Debug, Clone, Copy, PartialEq, Eq, Structural)]
pub enum ItemCheck {
    /// A placeholder description: reported, never an error.
    Placeholder,
    /// The description carries a number (or a sub-panel label).
    Numbered,
    /// An image or chart without a figure number: an error.
    MissingFigureNumber,
    /// A table without a table number: an error.
    MissingTableNumber,
    /// Another content type, which is not checked.
    Unchecked,
}

pub open spec fn item_check_spec(content_type: Seq<char>, desc: Seq<char>) -> ItemCheck {
    if placeholder_desc(desc) {
        ItemCheck::Placeholder
    } else if content_type == "image"@ || content_type == "chart"@ {
        if numbered_desc(desc) {
            ItemCheck::Numbered
        } else {
            ItemCheck::MissingFigureNumber
        }
    } else if content_type == "table"@ {
        if numbered_desc(desc) {
            ItemCheck::Numbered
        } else {
            ItemCheck::MissingTableNumber
        }
    } else {
        ItemCheck::Unchecked
    }
}

fn is_numbered_desc(desc: &str) -> (r: bool)
    ensures
        r == numbered_desc(desc@),
{
    let numbered = match extract_caption_number(desc) {
        Some(k) => str_starts_with(k.as_str(), "F:") || str_starts_with(k.as_str(), "T:"),
        None => false,
    };
    numbered || has_sub_panel_label(desc)
}

/// Checks that an extraction of the given content type has a figure or
/// table number in its description.
pub fn check_item(content_type: &str, desc: &str) -> (r: ItemCheck)
    ensures
        r == item_check_spec(content_type@, desc@),
{
    if is_placeholder_desc(desc) {
        ItemCheck::Placeholder
    } else if str_eq(content_type, "image") || str_eq(content_type, "chart") {
        if is_numbered_desc(desc) {
            ItemCheck::Numbered
        } else {
            ItemCheck::MissingFigureNumber
        }
    } else if str_eq(content_type, "table") {
        if is_numbered_desc(desc) {
            ItemCheck::Numbered
        } else {
            ItemCheck::MissingTableNumber
        }
    } else {
        ItemCheck::Unchecked
    }
}

// ---------------------------------------------------------------------------
// Overlapping extractions.
// ---------------------------------------------------------------------------

/// A description that starts with a caption word and a number.
pub open spec fn strict_caption_pattern() -> Seq<char> {
    "(?i)^\\s*(?:fig(?:ure)?|table|tbl)\\.?\\s*[0-9]+"@
}

/// How two overlapping extractions on one page are judged.
#[derive(Debug, Clone, Copy, PartialEq, Eq, Structural)]
pub enum OverlapKind {
    /// One of them is a placeholder or a sub-panel: a known, harmless case.
    Loose,
    /// Both start with a proper caption: an error.
    Conflicting,
    /// Anything else: reported, not an error.
    Ambiguous,
}

pub open spec fn overlap_kind_spec(a: Seq<char>, b: Seq<char>) -> OverlapKind {
    overlap_decision(
        a,
        b,
        regex_matches(sub_panel_pattern(), a),
        regex_matches(sub_panel_pattern(), b),
        regex_matches(strict_caption_pattern(), a),
        regex_matches(strict_caption_pattern(), b),
    )
}

/// The judgement once it is known whether each description starts with a
/// sub-panel label (`panel_a`, `panel_b`) and with a caption word and a
/// number (`strict_a`, `strict_b`).
pub open spec fn overlap_decision(
    a: Seq<char>,
    b: Seq<char>,
    panel_a: bool,
    panel_b: bool,
    strict_a: bool,
    strict_b: bool,
) -> OverlapKind {
    if placeholder_desc(a) || placeholder_desc(b) || panel_a || panel_b {
        OverlapKind::Loose
    } else if strict_a && strict_b {
        OverlapKind::Conflicting
    } else {
        OverlapKind::Ambiguous
    }
}

/// Judges two overlapping extractions from their descriptions and what the
/// patterns found in them: a sub-panel label at the start (`panel_a`,
/// `panel_b`), a caption word and number at the start (`strict_a`,
/// `strict_b`).
pub fn decide_overlap(
    desc_a: &str,
    desc_b: &str,
    panel_a: bool,
    panel_b: bool,
    strict_a: bool,
    strict_b: bool,
) -> (r: OverlapKind)
    ensures
        r == overlap_decision(desc_a@, desc_b@, panel_a, panel_b, strict_a, strict_b),
{
    if is_placeholder_desc(desc_a) || is_placeholder_desc(desc_b) || panel_a || panel_b {
        OverlapKind::Loose
    } else if strict_a && strict_b {
        OverlapKind::Conflicting
    } else {
        OverlapKind::Ambiguous
    }
}

/// Judges two extractions whose boxes overlap, by their descriptions.
pub fn overlap_kind(desc_a: &str, desc_b: &str) -> (r: OverlapKind)
    ensures
        r == overlap_kind_spec(desc_a@, desc_b@),
{
    let pattern = "(?i)^\\s*(?:fig(?:ure)?|table|tbl)\\.?\\s*[0-9]+";
    decide_overlap(
        desc_a,
        desc_b,
        has_sub_panel_label(desc_a),
        has_sub_panel_label(desc_b),
        regex_is_match(pattern, desc_a),
        regex_is_match(pattern, desc_b),
    )
}

// ---------------------------------------------------------------------------
// Caption numbers as integers.
// ---------------------------------------------------------------------------

/// A figure (`figure == true`) or table number.
#[derive(Debug, Clone, Copy, PartialEq, Eq, Structural)]
pub struct CaptionRef {
    pub figure: bool,
    pub number: u32,
}

/// The integer figure or table number of a caption text, when its caption
/// number is a plain decimal that fits in `u32`.
pub open spec fn caption_ref_spec(text: Seq<char>) -> Option<CaptionRef> {
    match caption_number_spec(text) {
        Some(k) => match parsed_at_most(k.skip(2), u32::MAX as nat) {
            Some(n) => if starts_with(k, "F:"@) {
                Some(CaptionRef { figure: true, number: n as u32 })
            } else if starts_with(k, "T:"@) {
                Some(CaptionRef { figure: false, number: n as u32 })
            } else {
                None
            },
            None => None,
        },
        None => None,
    }
}

/// Reads the figure or table number of a caption text.
pub fn caption_ref(text: &str) -> (r: Option<CaptionRef>)
    ensures
        r == caption_ref_spec(text@),
{
    match extract_caption_number(text) {
        Some(k) => {
            let v = to_chars(k.as_str());
            assert(v@.len() >= 2);
            let digits = string_from_chars(&slice_chars(&v, 2, v.len()));
            assert(digits@ =~= k@.skip(2));
            match parse_unsigned(digits.as_str(), 4294967295u64) {
                Some(n) => {
                    if str_starts_with(k.as_str(), "F:") {
                        Some(CaptionRef { figure: true, number: n as u32 })
                    } else if str_starts_with(k.as_str(), "T:") {
                        Some(CaptionRef { figure: false, number: n as u32 })
                    } else {
                        None
                    }
                },
                None => None,
            }
        },
        None => None,
    }
}

// ---------------------------------------------------------------------------
// The order of extracted figures.
// ---------------------------------------------------------------------------

/// The sort key of an extraction: figures (0) before tables (1) before the
/// rest (2), then by number (unreadable numbers last), then by page.
pub open spec fn figure_key(desc: Seq<char>, page: i32) -> (u8, u32, i32) {
    match caption_number_spec(desc) {
        Some(k) => {
            let num: u32 = match parsed_at_most(k.skip(2), u32::MAX as nat) {
                Some(n) => n as u32,
                None => u32::MAX,
            };
            if starts_with(k, "F:"@) {
                (0u8, num, page)
            } else if starts_with(k, "T:"@) {
                (1u8, num, page)
            } else {
                (2u8, u32::MAX, page)
            }
        },
        None => (2u8, u32::MAX, page),
    }
}

/// Lexicographic order of sort keys.
pub open spec fn key_lt(a: (u8, u32, i32), b: (u8, u32, i32)) -> bool {
    a.0 < b.0 || (a.0 == b.0 && (a.1 < b.1 || (a.1 == b.1 && a.2 < b.2)))
}

/// Extraction `i` comes before `j`: a smaller key, or an equal key and an
/// earlier position (the sort is stable).
pub open spec fn placed_before(keys: Seq<(u8, u32, i32)>, i: int, j: int) -> bool {
    key_lt(keys[i], keys[j]) || (keys[i] == keys[j] && i < j)
}

pub open spec fn figure_keys(descs: Seq<Seq<char>>, pages: Seq<i32>) -> Seq<(u8, u32, i32)> {
    Seq::new(descs.len(), |i: int| figure_key(descs[i], pages[i]))
}

fn figure_key_exec(desc: &str, page: i32) -> (r: (u8, u32, i32))
    ensures
        r == figure_key(desc@, page),
{
    match extract_caption_number(desc) {
        Some(k) => {
            let v = to_chars(k.as_str());
            assert(v@.len() >= 2);
            let digits = string_from_chars(&slice_chars(&v, 2, v.len()));
            assert(digits@ =~= k@.skip(2));
            let num: u32 = match parse_unsigned(digits.as_str(), 4294967295u64) {
                Some(n) => n as u32,
                None => 4294967295u32,
            };
            if str_starts_with(k.as_str(), "F:") {
                (0u8, num, page)
            } else if str_starts_with(k.as_str(), "T:") {
                (1u8, num, page)
            } else {
                (2u8, 4294967295u32, page)
            }
        },
        None => (2u8, 4294967295u32, page),
    }
}

/// The order in which extractions are kept: every position of `descs`
/// once (each on the page of the same position in `pages`), sorted by
/// their sort key, equal keys in their given order.
pub fn figure_order(descs: &Vec<String>, pages: &Vec<i32>) -> (r: Vec<usize>)
    requires
        descs.len() == pages.len(),
    ensures
        r.len() == descs.len(),
        forall|a: int| 0 <= a < r.len() ==> #[trigger] r@[a] < descs.len(),
        forall|a: int, b: int|
            0 <= a < b < r.len() ==> placed_before(
                figure_keys(desc_views(descs@), pages@),
                #[trigger] r@[a] as int,
                #[trigger] r@[b] as int,
            ),
        forall|a: int, b: int| 0 <= a < b < r.len() ==> #[trigger] r@[a] != #[trigger] r@[b],
{
    let ghost ks = figure_keys(desc_views(descs@), pages@);
    let mut keys: Vec<(u8, u32, i32)> = Vec::new();
    for i in 0..descs.len()
        invariant
            descs.len() == pages.len(),
            ks == figure_keys(desc_views(descs@), pages@),
            keys.len() == i,
            forall|m: int| 0 <= m < i ==> #[trigger] keys@[m] == ks[m],
    {
        keys.push(figure_key_exec(descs[i].as_str(), pages[i]));
    }
    let mut r: Vec<usize> = Vec::new();
    for i in 0..descs.len()
        invariant
            descs.len() == pages.len(),
            keys.len() == descs.len(),
            ks.len() == descs.len(),
            forall|m: int| 0 <= m < keys.len() ==> #[trigger] keys@[m] == ks[m],
            r.len() == i,
            forall|a: int| 0 <= a < r.len() ==> #[trigger] r@[a] < i,
            forall|a: int, b: int|
                0 <= a < b < r.len() ==> placed_before(ks, #[trigger] r@[a] as int, #[trigger] r@[b] as int),
    {
        let k = keys[i];
        let mut pos: usize = 0;
        while pos < r.len() && !(k.0 < keys[r[pos]].0 || (k.0 == keys[r[pos]].0 && (k.1 < keys[r[pos]].1
            || (k.1 == keys[r[pos]].1 && k.2 < keys[r[pos]].2))))
            invariant
                pos <= r.len(),
                r.len() == i,
                i < keys.len(),
                keys.len() == ks.len(),
                k == ks[i as int],
                forall|m: int| 0 <= m < keys.len() ==> #[trigger] keys@[m] == ks[m],
                forall|a: int| 0 <= a < r.len() ==> #[trigger] r@[a] < i,
                forall|a: int| 0 <= a < pos ==> !key_lt(k, ks[#[trigger] r@[a] as int]),
            decreases r.len() - pos,
        {
            pos += 1;
        }
        let ghost old_r = r@;
        r.insert(pos, i);
        assert forall|a: int| 0 <= a < r.len() implies #[trigger] r@[a] < i + 1 by {
            if a < pos {
                assert(r@[a] == old_r[a]);
            } else if a > pos {
                assert(r@[a] == old_r[a - 1]);
            }
        }
        assert forall|a: int, b: int| 0 <= a < b < r.len() implies placed_before(
            ks,
            #[trigger] r@[a] as int,
            #[trigger] r@[b] as int,
        ) by {
            if b < pos {
                assert(r@[a] == old_r[a] && r@[b] == old_r[b]);
            } else if b == pos {
                assert(r@[a] == old_r[a]);
                assert(!key_lt(k, ks[old_r[a] as int]));
            } else if a == pos {
                assert(r@[b] == old_r[b - 1]);
                assert(key_lt(k, ks[old_r[pos as int] as int]));
                if b - 1 > pos {
                    assert(placed_before(ks, old_r[pos as int] as int, old_r[b - 1] as int));
                }
            } else if a < pos {
                assert(r@[a] == old_r[a] && r@[b] == old_r[b - 1]);
            } else {
                assert(r@[a] == old_r[a - 1] && r@[b] == old_r[b - 1]);
            }
        }
    }
    assert forall|a: int, b: int| 0 <= a < b < r.len() implies #[trigger] r@[a] != #[trigger] r@[b] by {
        assert(placed_before(ks, r@[a] as int, r@[b] as int));
    }
    r
}

// ---------------------------------------------------------------------------
// Numbering: gaps and captions missing from the extraction.
// ---------------------------------------------------------------------------

/// What the numbering check found, each list holding figure or table numbers.
#[derive(Debug, Clone)]
pub struct NumberingReport {
    /// Figure numbers below the highest extracted one that were not
    /// extracted although the layout has them, in increasing order.
    pub figure_gaps: Vec<u32>,
    /// The same for tables.
    pub table_gaps: Vec<u32>,
    /// Figure numbers of the layout that were not extracted, each once.
    pub missing_figures: Vec<u32>,
    /// The same for tables.
    pub missing_tables: Vec<u32>,
}

pub open spec fn desc_views(v: Seq<String>) -> Seq<Seq<char>> {
    v.map_values(|s: String| s@)
}

/// Some description has number `n` of the given kind.
pub open spec fn extracted_has(descs: Seq<Seq<char>>, figure: bool, n: u32) -> bool {
    exists|i: int|
        0 <= i < descs.len() && #[trigger] caption_ref_spec(descs[i]) == Some(
            CaptionRef { figure, number: n },
        )
}

/// Some description of the given kind has a number of at least `n`.
pub open spec fn extracted_reaches(descs: Seq<Seq<char>>, figure: bool, n: u32) -> bool {
    exists|i: int|
        0 <= i < descs.len() && (#[trigger] caption_ref_spec(descs[i]) matches Some(r) && r.figure
            == figure && n <= r.number)
}

/// A number that the check leaves out: figures that the caller found to
/// describe code or an equation.
pub open spec fn excused(excluded: Seq<u32>, figure: bool, n: u32) -> bool {
    figure && excluded.contains(n)
}

/// `n` is a gap: below the highest extracted number of its kind, not
/// extracted, known to the layout and not excused.
pub open spec fn is_gap(
    descs: Seq<Seq<char>>,
    layout: Seq<CaptionRef>,
    excluded: Seq<u32>,
    figure: bool,
    n: u32,
) -> bool {
    &&& 1 <= n
    &&& extracted_reaches(descs, figure, n)
    &&& !extracted_has(descs, figure, n)
    &&& layout.contains(CaptionRef { figure, number: n })
    &&& !excused(excluded, figure, n)
}

/// `n` is in the layout but was not extracted, and is not excused.
pub open spec fn is_missing(
    descs: Seq<Seq<char>>,
    layout: Seq<CaptionRef>,
    excluded: Seq<u32>,
    figure: bool,
    n: u32,
) -> bool {
    &&& layout.contains(CaptionRef { figure, number: n })
    &&& !extracted_has(descs, figure, n)
    &&& !excused(excluded, figure, n)
}

pub open spec fn increasing(s: Seq<u32>) -> bool {
    forall|i: int, j: int| 0 <= i < j < s.len() ==> s[i] < s[j]
}

fn u32_in(v: &Vec<u32>, x: u32) -> (r: bool)
    ensures
        r == v@.contains(x),
{
    for i in 0..v.len()
        invariant
            forall|k: int| 0 <= k < i ==> v@[k] != x,
    {
        if v[i] == x {
            return true;
        }
    }
    false
}

fn ref_in(v: &Vec<CaptionRef>, x: CaptionRef) -> (r: bool)
    ensures
        r == v@.contains(x),
{
    for i in 0..v.len()
        invariant
            forall|k: int| 0 <= k < i ==> v@[k] != x,
    {
        if v[i] == x {
            return true;
        }
    }
    false
}

fn has_number(refs: &Vec<Option<CaptionRef>>, figure: bool, n: u32) -> (r: bool)
    ensures
        r == (exists|i: int| 0 <= i < refs.len() && refs@[i] == Some(CaptionRef { figure, number: n })),
{
    for i in 0..refs.len()
        invariant
            forall|k: int| 0 <= k < i ==> refs@[k] != Some(CaptionRef { figure, number: n }),
    {
        if refs[i] == Some(CaptionRef { figure, number: n }) {
            return true;
        }
    }
    false
}

fn max_number(refs: &Vec<Option<CaptionRef>>, figure: bool) -> (r: Option<u32>)
    ensures
        match r {
            Some(m) => (exists|i: int|
                0 <= i < refs.len() && refs@[i] == Some(CaptionRef { figure, number: m }))
                && (forall|i: int|
                0 <= i < refs.len() ==> (#[trigger] refs@[i] matches Some(c) ==> (c.figure == figure
                    ==> c.number <= m))),
            None => forall|i: int|
                0 <= i < refs.len() ==> !(#[trigger] refs@[i] matches Some(c) && c.figure == figure),
        },
{
    let mut best: Option<u32> = None;
    for i in 0..refs.len()
        invariant
            match best {
                Some(m) => (exists|k: int|
                    0 <= k < i && refs@[k] == Some(CaptionRef { figure, number: m })) && (forall|
                    k: int,
                |
                    0 <= k < i ==> (#[trigger] refs@[k] matches Some(c) ==> (c.figure == figure
                        ==> c.number <= m))),
                None => forall|k: int|
                    0 <= k < i ==> !(#[trigger] refs@[k] matches Some(c) && c.figure == figure),
            },
    {
        match refs[i] {
            Some(c) => {
                if c.figure == figure {
                    match best {
                        Some(m) => {
                            if c.number > m {
                                best = Some(c.number);
                            }
                        },
                        None => {
                            best = Some(c.number);
                        },
                    }
                }
            },
            None => {},
        }
    }
    best
}

fn gaps(
    refs: &Vec<Option<CaptionRef>>,
    layout: &Vec<CaptionRef>,
    excluded: &Vec<u32>,
    figure: bool,
) -> (r: Vec<u32>)
    ensures
        increasing(r@),
        forall|n: u32|
            r@.contains(n) <==> (1 <= n && (exists|i: int|
                0 <= i < refs.len() && (#[trigger] refs@[i] matches Some(c) && c.figure == figure
                    && n <= c.number)) && !(exists|i: int|
                0 <= i < refs.len() && refs@[i] == Some(CaptionRef { figure, number: n }))
                && layout@.contains(CaptionRef { figure, number: n }) && !(figure
                && excluded@.contains(n))),
{
    let mut out: Vec<u32> = Vec::new();
    let top = match max_number(refs, figure) {
        Some(m) => m,
        None => {
            assert forall|n: u32| !out@.contains(n) && !(exists|i: int|
                0 <= i < refs.len() && (#[trigger] refs@[i] matches Some(c) && c.figure == figure
                    && n <= c.number)) by {}
            return out;
        },
    };
    let mut n: u64 = 1;
    while n <= top as u64
        invariant
            1 <= n <= top as u64 + 1,
            increasing(out@),
            forall|k: int| 0 <= k < out.len() ==> 1 <= #[trigger] out@[k] < n,
            forall|k: u32|
                1 <= k < n ==> (out@.contains(k) <==> (!(exists|i: int|
                    0 <= i < refs.len() && refs@[i] == Some(CaptionRef { figure, number: k }))
                    && layout@.contains(CaptionRef { figure, number: k }) && !(figure
                    && excluded@.contains(k)))),
        decreases top as u64 + 1 - n,
    {
        let k = n as u32;
        let ghost before = out@;
        if !has_number(refs, figure, k) && ref_in(layout, CaptionRef { figure, number: k }) && !(
        figure && u32_in(excluded, k)) {
            out.push(k);
            assert forall|a: u32| 1 <= a < n implies (before.contains(a) <==> out@.contains(a)) by {
                if out@.contains(a) {
                    let j = choose|j: int| 0 <= j < out@.len() && out@[j] == a;
                    if j < before.len() {
                        assert(before[j] == a);
                    }
                }
                if before.contains(a) {
                    let j = choose|j: int| 0 <= j < before.len() && before[j] == a;
                    assert(out@[j] == a);
                }
            }
            assert(out@[out@.len() - 1] == k);
            assert(out@.contains(k));
        } else {
            assert(!out@.contains(k)) by {
                if out@.contains(k) {
                    let j = choose|j: int| 0 <= j < out@.len() && out@[j] == k;
                    assert(out@[j] < n);
                }
            }
        }
        assert(k as int == n as int);
        assert forall|a: u32|
            1 <= a < n + 1 implies (out@.contains(a) <==> (!(exists|i: int|
                0 <= i < refs.len() && refs@[i] == Some(CaptionRef { figure, number: a }))
                && layout@.contains(CaptionRef { figure, number: a }) && !(figure
                && excluded@.contains(a)))) by {
            if a < n {
                assert(before.contains(a) <==> out@.contains(a));
            } else {
                assert(a == k);
            }
        }
        n = n + 1;
    }
    assert forall|a: u32|
        out@.contains(a) <==> (1 <= a && (exists|i: int|
            0 <= i < refs.len() && (#[trigger] refs@[i] matches Some(c) && c.figure == figure && a
                <= c.number)) && !(exists|i: int|
            0 <= i < refs.len() && refs@[i] == Some(CaptionRef { figure, number: a }))
            && layout@.contains(CaptionRef { figure, number: a }) && !(figure && excluded@.contains(
            a,
        ))) by {
        if out@.contains(a) {
            let j = choose|j: int| 0 <= j < out@.len() && out@[j] == a;
            assert(1 <= out@[j] < n);
            let w = choose|i: int|
                0 <= i < refs.len() && refs@[i] == Some(CaptionRef { figure, number: top });
            assert(refs@[w] matches Some(c) && c.figure == figure && a <= c.number);
        }
        if 1 <= a && (exists|i: int|
            0 <= i < refs.len() && (#[trigger] refs@[i] matches Some(c) && c.figure == figure && a
                <= c.number)) {
            let w = choose|i: int|
                0 <= i < refs.len() && (#[trigger] refs@[i] matches Some(c) && c.figure == figure
                    && a <= c.number);
            assert(a <= top);
        }
    }
    out
}

fn missing(
    refs: &Vec<Option<CaptionRef>>,
    layout: &Vec<CaptionRef>,
    excluded: &Vec<u32>,
    figure: bool,
) -> (r: Vec<u32>)
    ensures
        r@.no_duplicates(),
        forall|n: u32|
            r@.contains(n) <==> (layout@.contains(CaptionRef { figure, number: n }) && !(exists|i: int|
                0 <= i < refs.len() && refs@[i] == Some(CaptionRef { figure, number: n })) && !(
            figure && excluded@.contains(n))),
{
    let mut out: Vec<u32> = Vec::new();
    for j in 0..layout.len()
        invariant
            out@.no_duplicates(),
            forall|n: u32|
                out@.contains(n) <==> (layout@.take(j as int).contains(
                    CaptionRef { figure, number: n },
                ) && !(exists|i: int|
                    0 <= i < refs.len() && refs@[i] == Some(CaptionRef { figure, number: n }))
                    && !(figure && excluded@.contains(n))),
    {
        let c = layout[j];
        let ghost before = out@;
        let ghost pre = layout@.take(j as int);
        let ghost post = layout@.take(j + 1);
        assert(forall|n: u32|
            before.contains(n) <==> (pre.contains(CaptionRef { figure, number: n }) && !(exists|i: int|
                0 <= i < refs.len() && refs@[i] == Some(CaptionRef { figure, number: n })) && !(figure
                && excluded@.contains(n))));
        let known = has_number(refs, figure, c.number);
        let excused_here = figure && u32_in(excluded, c.number);
        let listed = u32_in(&out, c.number);
        let ghost pushed = c.figure == figure && !known && !excused_here && !listed;
        if c.figure == figure && !known && !excused_here && !listed {
            out.push(c.number);
            assert forall|n: u32| out@.contains(n) <==> (before.contains(n) || n == c.number) by {
                if out@.contains(n) {
                    let k = choose|k: int| 0 <= k < out@.len() && out@[k] == n;
                    if k < before.len() {
                        assert(before[k] == n);
                    }
                }
                if before.contains(n) {
                    let k = choose|k: int| 0 <= k < before.len() && before[k] == n;
                    assert(out@[k] == n);
                }
                if n == c.number {
                    assert(out@[out@.len() - 1] == n);
                }
            }
            assert(out@.no_duplicates()) by {
                assert forall|a: int, b: int| 0 <= a < b < out@.len() implies out@[a] != out@[b] by {
                    if b < before.len() {
                        assert(before[a] != before[b]);
                    } else {
                        assert(before[a] == out@[a]);
                        assert(before.contains(out@[a]));
                    }
                }
            }
        } else {
            assert(out@ == before);
        }
        assert forall|n: u32|
            post.contains(CaptionRef { figure, number: n }) <==> (pre.contains(
                CaptionRef { figure, number: n },
            ) || c == CaptionRef { figure, number: n }) by {
            if post.contains(CaptionRef { figure, number: n }) {
                let k = choose|k: int| 0 <= k < post.len() && post[k] == CaptionRef { figure, number: n };
                if k < j {
                    assert(pre[k] == CaptionRef { figure, number: n });
                }
            }
            if pre.contains(CaptionRef { figure, number: n }) {
                let k = choose|k: int| 0 <= k < pre.len() && pre[k] == CaptionRef { figure, number: n };
                assert(post[k] == CaptionRef { figure, number: n });
            }
            if c == (CaptionRef { figure, number: n }) {
                assert(post[j as int] == c);
            }
        }
        assert forall|n: u32|
            out@.contains(n) <==> (post.contains(CaptionRef { figure, number: n }) && !(exists|i: int|
                0 <= i < refs.len() && refs@[i] == Some(CaptionRef { figure, number: n })) && !(
            figure && excluded@.contains(n))) by {
            assert(post.contains(CaptionRef { figure, number: n }) <==> (pre.contains(
                CaptionRef { figure, number: n },
            ) || c == CaptionRef { figure, number: n }));
            assert(before.contains(n) <==> (pre.contains(CaptionRef { figure, number: n }) && !(exists|i: int|
                0 <= i < refs.len() && refs@[i] == Some(CaptionRef { figure, number: n })) && !(figure
                && excluded@.contains(n))));
            if pushed {
                assert(out@.contains(n) <==> (before.contains(n) || n == c.number));
            } else {
                assert(out@ == before);
            }
            if n == c.number && c.figure == figure {
                assert(c == CaptionRef { figure, number: n });
                assert(post.contains(CaptionRef { figure, number: n }));
                if known {
                    assert(!before.contains(n));
                } else if excused_here {
                    assert(!before.contains(n));
                } else if listed {
                    assert(before.contains(n));
                }
            } else {
                assert(c != CaptionRef { figure, number: n });
            }
        }
    }
    assert(layout@.take(layout.len() as int) =~= layout@);
    out
}

fn extracted_refs(descs: &Vec<String>) -> (r: Vec<Option<CaptionRef>>)
    ensures
        r.len() == descs.len(),
        forall|i: int| 0 <= i < descs.len() ==> r@[i] == caption_ref_spec(#[trigger] descs@[i]@),
{
    let mut r: Vec<Option<CaptionRef>> = Vec::new();
    for i in 0..descs.len()
        invariant
            r.len() == i,
            forall|k: int| 0 <= k < i ==> r@[k] == caption_ref_spec(#[trigger] descs@[k]@),
    {
        r.push(caption_ref(descs[i].as_str()));
    }
    r
}

/// Checks that the figure and table numbers of the extracted descriptions
/// run from 1 without gaps that the layout could fill, and lists the
/// numbers whose captions the layout has but the extraction lacks.
/// `layout` holds the numbers read from the layout's captions;
/// `excluded_figures` the figure numbers the caller found to describe code
/// listings or equations, which are never reported.
pub fn numbering_report(
    descs: &Vec<String>,
    layout: &Vec<CaptionRef>,
    excluded_figures: &Vec<u32>,
) -> (r: NumberingReport)
    ensures
        increasing(r.figure_gaps@),
        increasing(r.table_gaps@),
        r.missing_figures@.no_duplicates(),
        r.missing_tables@.no_duplicates(),
        forall|n: u32|
            r.figure_gaps@.contains(n) <==> is_gap(
                desc_views(descs@),
                layout@,
                excluded_figures@,
                true,
                n,
            ),
        forall|n: u32|
            r.table_gaps@.contains(n) <==> is_gap(
                desc_views(descs@),
                layout@,
                excluded_figures@,
                false,
                n,
            ),
        forall|n: u32|
            r.missing_figures@.contains(n) <==> is_missing(
                desc_views(descs@),
                layout@,
                excluded_figures@,
                true,
                n,
            ),
        forall|n: u32|
            r.missing_tables@.contains(n) <==> is_missing(
                desc_views(descs@),
                layout@,
                excluded_figures@,
                false,
                n,
            ),
{
    let refs = extracted_refs(descs);
    let ghost d = desc_views(descs@);
    assert forall|figure: bool, n: u32|
        extracted_has(d, figure, n) <==> (exists|i: int|
            0 <= i < refs.len() && refs@[i] == Some(CaptionRef { figure, number: n })) by {
        if extracted_has(d, figure, n) {
            let i = choose|i: int|
                0 <= i < d.len() && #[trigger] caption_ref_spec(d[i]) == Some(
                    CaptionRef { figure, number: n },
                );
            assert(refs@[i] == caption_ref_spec(descs@[i]@));
        }
        if exists|i: int| 0 <= i < refs.len() && refs@[i] == Some(CaptionRef { figure, number: n }) {
            let i = choose|i: int|
                0 <= i < refs.len() && refs@[i] == Some(CaptionRef { figure, number: n });
            assert(refs@[i] == caption_ref_spec(descs@[i]@));
            assert(caption_ref_spec(d[i]) == Some(CaptionRef { figure, number: n }));
        }
    }
    assert forall|figure: bool, n: u32|
        extracted_reaches(d, figure, n) <==> (exists|i: int|
            0 <= i < refs.len() && (#[trigger] refs@[i] matches Some(c) && c.figure == figure && n
                <= c.number)) by {
        if extracted_reaches(d, figure, n) {
            let i = choose|i: int|
                0 <= i < d.len() && (#[trigger] caption_ref_spec(d[i]) matches Some(r) && r.figure
                    == figure && n <= r.number);
            assert(refs@[i] == caption_ref_spec(descs@[i]@));
        }
        if exists|i: int|
            0 <= i < refs.len() && (#[trigger] refs@[i] matches Some(c) && c.figure == figure && n
                <= c.number) {
            let i = choose|i: int|
                0 <= i < refs.len() && (#[trigger] refs@[i] matches Some(c) && c.figure == figure
                    && n <= c.number);
            assert(refs@[i] == caption_ref_spec(descs@[i]@));
            assert(caption_ref_spec(d[i]) == refs@[i]);
        }
    }
    NumberingReport {
        figure_gaps: gaps(&refs, layout, excluded_figures, true),
        table_gaps: gaps(&refs, layout, excluded_figures, false),
        missing_figures: missing(&refs, layout, excluded_figures, true),
        missing_tables: missing(&refs, layout, excluded_figures, false),
    }
}

} // verus!
