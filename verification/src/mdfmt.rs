//! Smart layout for the images of a markdown insight: image references are
//! found, and each one that needs it is rewritten with a display width and
//! an alignment.
//!
//! Measuring image files and deciding a layout from their dimensions (which
//! works in floating point) is done by the caller; it hands the outcome for
//! each image in as an [`ImageProbe`].
use vstd::prelude::*;
use crate::chars::{
    at_boundary, byte_len, byte_slice, chars_contain, chars_eq, chars_start_with, contains_seq,
    extend_chars, lowercase, lowercase_chars, slice_chars, starts_with,
    str_byte_slice, str_byte_suffix, string_from_chars, to_chars,
};
use crate::pattern::{
    option_views, regex_capture_groups, regex_captures, regex_find_spans, regex_match_spans,
};

verus! {

/// The image reference syntax: `![alt](url =size align)` where the size
/// (`80%`, `400px`, `100%x200px`) and the alignment (`left`, `right`,
/// `inline`, `center`) are optional. Groups: 1 alt, 2 url, 3 size, 4 height,
/// 5 align.
pub open spec fn image_pattern() -> Seq<char> {
    "!\\[([^\\]]*)\\]\\(([^)\\s]+)(?:\\s*=\\s*(\\d+(?:\\.\\d+)?(?:%|px)?)(?:x(\\d+(?:\\.\\d+)?(?:%|px)?))?(?:\\s+(left|right|inline|center))?)?\\)"@
}

pub fn image_pattern_str() -> (r: &'static str)
    ensures
        r@ == image_pattern(),
{
    "!\\[([^\\]]*)\\]\\(([^)\\s]+)(?:\\s*=\\s*(\\d+(?:\\.\\d+)?(?:%|px)?)(?:x(\\d+(?:\\.\\d+)?(?:%|px)?))?(?:\\s+(left|right|inline|center))?)?\\)"
}

/// A single image reference found in markdown.
#[derive(Debug, Clone, PartialEq)]
pub struct ImageRef {
    /// Full match text, e.g. `![desc](figure/foo.png =80% center)`.
    pub full: String,
    /// Alt text inside `![...]`.
    pub alt: String,
    /// URL or path inside `(...)` without the sizing and alignment suffix.
    pub url: String,
    /// Optional sizing suffix, e.g. `80%`, `400px`, `100%x200px`.
    pub size: Option<String>,
    /// Optional alignment: left, right, center, inline.
    pub align: Option<String>,
    /// Byte offset in the markdown where the reference starts.
    pub offset: usize,
}

pub struct ImageRefSpec {
    pub full: Seq<char>,
    pub alt: Seq<char>,
    pub url: Seq<char>,
    pub size: Option<Seq<char>>,
    pub align: Option<Seq<char>>,
    pub offset: nat,
}

pub open spec fn opt_view(o: Option<String>) -> Option<Seq<char>> {
    match o {
        Some(s) => Some(s@),
        None => None,
    }
}

impl View for ImageRef {
    type V = ImageRefSpec;

    open spec fn view(&self) -> ImageRefSpec {
        ImageRefSpec {
            full: self.full@,
            alt: self.alt@,
            url: self.url@,
            size: opt_view(self.size),
            align: opt_view(self.align),
            offset: self.offset as nat,
        }
    }
}

/// Capture group `i`, if the match had it.
pub open spec fn group_at(caps: Option<Seq<Option<Seq<char>>>>, i: int) -> Option<Seq<char>> {
    match caps {
        Some(g) => if 0 <= i < g.len() {
            g[i]
        } else {
            None
        },
        None => None,
    }
}

pub open spec fn or_empty(o: Option<Seq<char>>) -> Seq<char> {
    match o {
        Some(s) => s,
        None => Seq::empty(),
    }
}

/// The image reference of a match `full` at byte offset `offset`, whose
/// capture groups are `caps`: group 1 the alt text, 2 the URL, 3 the size
/// and 5 the alignment.
pub open spec fn image_ref_of(full: Seq<char>, caps: Option<Seq<Option<Seq<char>>>>, offset: nat) -> ImageRefSpec {
    ImageRefSpec {
        full,
        alt: or_empty(group_at(caps, 1)),
        url: or_empty(group_at(caps, 2)),
        size: group_at(caps, 3),
        align: group_at(caps, 5),
        offset,
    }
}

/// The image reference of the match at byte span `span` of `text`.
pub open spec fn image_ref_at(text: Seq<char>, span: (usize, usize)) -> ImageRefSpec {
    let full = byte_slice(text, span.0 as int, span.1 as int);
    image_ref_of(full, regex_capture_groups(image_pattern(), full), span.0 as nat)
}

pub open spec fn image_spans(text: Seq<char>) -> Seq<(usize, usize)> {
    regex_match_spans(image_pattern(), text)
}

fn group_exec(caps: &Option<Vec<Option<String>>>, i: usize) -> (r: Option<String>)
    ensures
        opt_view(r) == group_at(
            match caps {
                Some(g) => Some(option_views(g@)),
                None => None,
            },
            i as int,
        ),
{
    match caps {
        Some(g) => {
            if i < g.len() {
                match &g[i] {
                    Some(s) => Some(s.clone()),
                    None => None,
                }
            } else {
                None
            }
        },
        None => None,
    }
}

fn string_or_empty(o: Option<String>) -> (r: String)
    ensures
        r@ == or_empty(opt_view(o)),
{
    match o {
        Some(s) => s,
        None => String::new(),
    }
}

/// The image reference of the match `full` at byte offset `offset`, from
/// the capture groups `caps` of the image pattern on `full`.
pub fn image_ref_from_groups(full: &str, caps: &Option<Vec<Option<String>>>, offset: usize) -> (r: ImageRef)
    ensures
        r@ == image_ref_of(
            full@,
            match caps {
                Some(g) => Some(option_views(g@)),
                None => None,
            },
            offset as nat,
        ),
{
    let alt = string_or_empty(group_exec(caps, 1));
    let url = string_or_empty(group_exec(caps, 2));
    let size = group_exec(caps, 3);
    let align = group_exec(caps, 5);
    ImageRef { full: full.to_owned(), alt, url, size, align, offset }
}

/// All image references of `text`, in order: their spans lie on character
/// boundaries of `text`, in increasing order and without overlap.
pub fn parse_images(text: &str) -> (r: Vec<ImageRef>)
    ensures
        r.len() == image_spans(text@).len(),
        forall|i: int| 0 <= i < r.len() ==> (#[trigger] r@[i])@ == image_ref_at(text@, image_spans(text@)[i]),
        forall|j: int|
            0 <= j < image_spans(text@).len() ==> {
                &&& (#[trigger] image_spans(text@)[j]).0 <= image_spans(text@)[j].1 <= byte_len(text@)
                &&& at_boundary(text@, image_spans(text@)[j].0 as int)
                &&& at_boundary(text@, image_spans(text@)[j].1 as int)
            },
        forall|j: int, k: int|
            0 <= j < k < image_spans(text@).len() ==> (#[trigger] image_spans(text@)[j]).1 <= (
            #[trigger] image_spans(text@)[k]).0,
{
    parse_images_with_spans(text).1
}

fn parse_images_with_spans(text: &str) -> (r: (Vec<(usize, usize)>, Vec<ImageRef>))
    ensures
        r.0@ == image_spans(text@),
        forall|j: int|
            0 <= j < r.0@.len() ==> {
                &&& (#[trigger] r.0@[j]).0 <= r.0@[j].1 <= byte_len(text@)
                &&& at_boundary(text@, r.0@[j].0 as int)
                &&& at_boundary(text@, r.0@[j].1 as int)
            },
        forall|j: int, k: int| 0 <= j < k < r.0@.len() ==> (#[trigger] r.0@[j]).1 <= (#[trigger] r.0@[k]).0,
        r.1.len() == image_spans(text@).len(),
        forall|i: int| 0 <= i < r.1.len() ==> (#[trigger] r.1@[i])@ == image_ref_at(text@, image_spans(text@)[i]),
{
    let spans = regex_find_spans(image_pattern_str(), text);
    let mut refs: Vec<ImageRef> = Vec::new();
    for i in 0..spans.len()
        invariant
            spans@ == image_spans(text@),
            forall|j: int|
                0 <= j < spans@.len() ==> {
                    &&& (#[trigger] spans@[j]).0 <= spans@[j].1 <= byte_len(text@)
                    &&& at_boundary(text@, spans@[j].0 as int)
                    &&& at_boundary(text@, spans@[j].1 as int)
                },
            refs.len() == i,
            forall|j: int| 0 <= j < i ==> (#[trigger] refs@[j])@ == image_ref_at(text@, spans@[j]),
    {
        let (start, end) = spans[i];
        assert(spans@[i as int] == (start, end));
        let m = str_byte_slice(text, start, end);
        let caps = regex_captures(image_pattern_str(), m);
        let img = image_ref_from_groups(m, &caps, start);
        assert(img@ == image_ref_at(text@, spans@[i as int]));
        refs.push(img);
    }
    (spans, refs)
}

/// Whether an image already has a size or an alignment.
pub open spec fn spec_has_layout(img: ImageRefSpec) -> bool {
    img.size is Some || img.align is Some
}

pub fn has_layout(img: &ImageRef) -> (r: bool)
    ensures
        r == spec_has_layout(img@),
{
    img.size.is_some() || img.align.is_some()
}

/// `![alt](url =size align)` with the given size and alignment.
pub open spec fn rebuilt(img: ImageRefSpec, size: Option<Seq<char>>, align: Option<Seq<char>>) -> Seq<char> {
    let size_part = match size {
        Some(s) => seq![' ', '='] + s,
        None => Seq::empty(),
    };
    let align_part = match align {
        Some(a) => seq![' '] + a,
        None => Seq::empty(),
    };
    seq!['!', '['] + img.alt + seq![']', '('] + img.url + size_part + align_part + seq![')']
}

fn rebuild_chars(img: &ImageRef, new_size: Option<&str>, new_align: Option<&str>) -> (r: Vec<char>)
    ensures
        r@ == rebuilt(img@, opt_str_view(new_size), opt_str_view(new_align)),
{
    let mut out: Vec<char> = Vec::new();
    out.push('!');
    out.push('[');
    extend_chars(&mut out, &to_chars(img.alt.as_str()));
    out.push(']');
    out.push('(');
    extend_chars(&mut out, &to_chars(img.url.as_str()));
    match new_size {
        Some(s) => {
            out.push(' ');
            out.push('=');
            extend_chars(&mut out, &to_chars(s));
        },
        None => {},
    }
    match new_align {
        Some(a) => {
            out.push(' ');
            extend_chars(&mut out, &to_chars(a));
        },
        None => {},
    }
    out.push(')');
    assert(out@ =~= rebuilt(img@, opt_str_view(new_size), opt_str_view(new_align)));
    out
}

pub open spec fn opt_str_view(o: Option<&str>) -> Option<Seq<char>> {
    match o {
        Some(s) => Some(s@),
        None => None,
    }
}

/// The replacement text for an image reference; an existing size or
/// alignment is overwritten.
pub fn rebuild_image(img: &ImageRef, new_size: Option<&str>, new_align: Option<&str>) -> (r: String)
    ensures
        r@ == rebuilt(img@, opt_str_view(new_size), opt_str_view(new_align)),
{
    string_from_chars(&rebuild_chars(img, new_size, new_align))
}

/// The files that may hold an image, in the order they are tried:
/// `figure/<name>` and `table/<name>` map to
/// `figures/<id>/hires/<name>.png`, then `figures/<id>/<name>.jpg`;
/// `page://<n>` maps to `figures/<id>/pages/<n>.png`; anything else (such as
/// an external URL) has no local file.
pub open spec fn image_path_candidates(paper_id: Seq<char>, url: Seq<char>) -> Seq<Seq<char>> {
    let base = "figures/"@ + paper_id;
    if starts_with(url, "figure/"@) {
        let name = url.skip(7);
        seq![base + "/hires/"@ + name + ".png"@, base + "/"@ + name + ".jpg"@]
    } else if starts_with(url, "table/"@) {
        let name = url.skip(6);
        seq![base + "/hires/"@ + name + ".png"@, base + "/"@ + name + ".jpg"@]
    } else if starts_with(url, "page://"@) {
        let page = url.skip(7);
        seq![base + "/pages/"@ + page + ".png"@]
    } else {
        Seq::empty()
    }
}

fn join4(a: &Vec<char>, b: &str, c: &Vec<char>, d: &str) -> (r: String)
    ensures
        r@ == a@ + b@ + c@ + d@,
{
    let mut out = slice_chars(a, 0, a.len());
    extend_chars(&mut out, &to_chars(b));
    extend_chars(&mut out, c);
    extend_chars(&mut out, &to_chars(d));
    assert(out@ =~= a@ + b@ + c@ + d@);
    string_from_chars(&out)
}

/// The files that may hold the image of `url` for paper `paper_id`.
pub fn resolve_image_path(paper_id: &str, url: &str) -> (r: Vec<String>)
    ensures
        r@.map_values(|s: String| s@) == image_path_candidates(paper_id@, url@),
{
    proof {
        reveal_strlit("figure/");
        reveal_strlit("table/");
        reveal_strlit("page://");
    }
    let u = to_chars(url);
    let mut base = to_chars("figures/");
    extend_chars(&mut base, &to_chars(paper_id));
    let mut r: Vec<String> = Vec::new();
    if chars_start_with(&u, &to_chars("figure/")) || chars_start_with(&u, &to_chars("table/")) {
        let skip: usize = if chars_start_with(&u, &to_chars("figure/")) {
            7
        } else {
            6
        };
        let name = slice_chars(&u, skip, u.len());
        let a = join4(&base, "/hires/", &name, ".png");
        let b = join4(&base, "/", &name, ".jpg");
        r.push(a);
        r.push(b);
    } else if chars_start_with(&u, &to_chars("page://")) {
        let page = slice_chars(&u, 7, u.len());
        let a = join4(&base, "/pages/", &page, ".png");
        r.push(a);
    }
    assert(r@.map_values(|s: String| s@) =~= image_path_candidates(paper_id@, url@));
    r
}

/// Whether the URL points outside (`http://` or `https://`).
pub open spec fn is_external(url: Seq<char>) -> bool {
    starts_with(url, "http://"@) || starts_with(url, "https://"@)
}

/// Whether an image shows a table, judged from its URL and alt text.
pub open spec fn spec_is_table_image(img: ImageRefSpec) -> bool {
    table_decision(img.url, lowercase(img.url), lowercase(img.alt))
}

/// The table-image test from the URL, the lower-cased URL and the
/// lower-cased alt text.
pub open spec fn table_decision(url: Seq<char>, url_lower: Seq<char>, alt_lower: Seq<char>) -> bool {
    ||| starts_with(url, "table/"@)
    ||| contains_seq(url_lower, "/table"@)
    ||| contains_seq(url_lower, "_table"@)
    ||| contains_seq(alt_lower, "table"@)
    ||| contains_seq(alt_lower, "表格"@)
}

/// Decides whether an image shows a table from its URL, its lower-cased
/// URL and its lower-cased alt text.
pub fn decide_table_image(url: &str, url_lower: &str, alt_lower: &str) -> (r: bool)
    ensures
        r == table_decision(url@, url_lower@, alt_lower@),
{
    let u = to_chars(url);
    let ul = to_chars(url_lower);
    let al = to_chars(alt_lower);
    chars_start_with(&u, &to_chars("table/")) || chars_contain(&ul, &to_chars("/table")) || chars_contain(
        &ul,
        &to_chars("_table"),
    ) || chars_contain(&al, &to_chars("table")) || chars_contain(&al, &to_chars("表格"))
}

pub fn is_table_image(img: &ImageRef) -> (r: bool)
    ensures
        r == spec_is_table_image(img@),
{
    let url_lower = string_from_chars(&lowercase_chars(&to_chars(img.url.as_str())));
    let alt_lower = string_from_chars(&lowercase_chars(&to_chars(img.alt.as_str())));
    decide_table_image(img.url.as_str(), url_lower.as_str(), alt_lower.as_str())
}

/// Whether the layout of an image depends on its file: it is not skipped
/// for an existing layout (unless forced) and is not external.
pub open spec fn spec_needs_probe(img: ImageRefSpec, force: bool) -> bool {
    !(!force && spec_has_layout(img)) && !is_external(img.url)
}

pub fn needs_probe(img: &ImageRef, force: bool) -> (r: bool)
    ensures
        r == spec_needs_probe(img@, force),
{
    let u = to_chars(img.url.as_str());
    let external = chars_start_with(&u, &to_chars("http://")) || chars_start_with(&u, &to_chars("https://"));
    !(!force && has_layout(img)) && !external
}

/// A layout decision: display width (e.g. `50%`) and alignment.
#[derive(Debug, Clone)]
pub struct Layout {
    pub width: String,
    pub align: String,
}

/// What is known of an image's file: not found (or unreadable), or its
/// pixel size with the layout decided for it (`None` keeps it untouched).
#[derive(Debug, Clone)]
pub enum ImageProbe {
    Missing,
    Measured { width: u32, height: u32, layout: Option<Layout> },
}

/// The decision taken for one image.
#[derive(Debug, Clone)]
pub enum Decision {
    /// Already has a layout, skipped.
    SkippedLayout,
    /// External URL, skipped.
    SkippedExternal,
    /// File not found, skipped.
    SkippedMissing,
    /// Large image, left untouched.
    KeptLarge { width: u32, height: u32 },
    /// Image resized and aligned.
    Resized { width: u32, height: u32, new_width: String, new_align: String },
}

pub enum DecisionView {
    SkippedLayout,
    SkippedExternal,
    SkippedMissing,
    KeptLarge { width: u32, height: u32 },
    Resized { width: u32, height: u32, new_width: Seq<char>, new_align: Seq<char> },
}

impl View for Decision {
    type V = DecisionView;

    open spec fn view(&self) -> DecisionView {
        match self {
            Decision::SkippedLayout => DecisionView::SkippedLayout,
            Decision::SkippedExternal => DecisionView::SkippedExternal,
            Decision::SkippedMissing => DecisionView::SkippedMissing,
            Decision::KeptLarge { width, height } => DecisionView::KeptLarge { width: *width, height: *height },
            Decision::Resized { width, height, new_width, new_align } => DecisionView::Resized {
                width: *width,
                height: *height,
                new_width: new_width@,
                new_align: new_align@,
            },
        }
    }
}

/// The result for a single image.
#[derive(Debug, Clone)]
pub struct ImageResult {
    pub original: String,
    pub decision: Decision,
}

pub open spec fn result_view(r: ImageResult) -> (Seq<char>, DecisionView) {
    (r.original@, r.decision@)
}

/// The probe handed in for image `i` (missing when none was).
pub open spec fn probe_at(probes: Seq<ImageProbe>, i: int) -> ImageProbe {
    if 0 <= i < probes.len() {
        probes[i]
    } else {
        ImageProbe::Missing
    }
}

/// One image: the decision, its replacement text, and whether it now
/// floats right. A right float directly after another becomes centred.
#[verifier::opaque]
pub open spec fn layout_step(img: ImageRefSpec, probe: ImageProbe, force: bool, prev_float: bool) -> (DecisionView, Seq<char>, bool) {
    if !force && spec_has_layout(img) {
        (DecisionView::SkippedLayout, img.full, prev_float)
    } else if is_external(img.url) {
        (DecisionView::SkippedExternal, img.full, false)
    } else {
        match probe {
            ImageProbe::Missing => (DecisionView::SkippedMissing, img.full, false),
            ImageProbe::Measured { width, height, layout } => match layout {
                None => (DecisionView::KeptLarge { width, height }, img.full, false),
                Some(l) => {
                    let align = if l.align@ == "right"@ && prev_float {
                        "center"@
                    } else {
                        l.align@
                    };
                    (
                        DecisionView::Resized { width, height, new_width: l.width@, new_align: align },
                        rebuilt(img, Some(l.width@), Some(align)),
                        align == "right"@,
                    )
                },
            },
        }
    }
}

/// The markdown from byte `last_end` on, with images `i..` laid out, and
/// their results.
#[verifier::opaque]
pub open spec fn transform_from(
    md: Seq<char>,
    spans: Seq<(usize, usize)>,
    probes: Seq<ImageProbe>,
    force: bool,
    i: nat,
    last_end: int,
    prev_float: bool,
) -> (Seq<char>, Seq<(Seq<char>, DecisionView)>)
    decreases spans.len() - i,
{
    if i >= spans.len() {
        (byte_slice(md, last_end, byte_len(md) as int), Seq::empty())
    } else {
        let img = image_ref_at(md, spans[i as int]);
        let (d, repl, pf) = layout_step(img, probe_at(probes, i as int), force, prev_float);
        let (rest, rs) = transform_from(md, spans, probes, force, i + 1, spans[i as int].1 as int, pf);
        (byte_slice(md, last_end, img.offset as int) + repl + rest, seq![(img.full, d)] + rs)
    }
}

pub open spec fn transformed(md: Seq<char>, probes: Seq<ImageProbe>, force: bool) -> (Seq<char>, Seq<(Seq<char>, DecisionView)>) {
    if image_spans(md).len() == 0 {
        (md, Seq::empty())
    } else {
        transform_from(md, image_spans(md), probes, force, 0, 0, false)
    }
}

proof fn lemma_transform_unfold(
    md: Seq<char>,
    spans: Seq<(usize, usize)>,
    probes: Seq<ImageProbe>,
    force: bool,
    i: nat,
    last_end: int,
    prev_float: bool,
)
    requires
        i < spans.len(),
    ensures
        ({
            let img = image_ref_at(md, spans[i as int]);
            let st = layout_step(img, probe_at(probes, i as int), force, prev_float);
            let next = transform_from(md, spans, probes, force, i + 1, spans[i as int].1 as int, st.2);
            &&& transform_from(md, spans, probes, force, i, last_end, prev_float).0 == byte_slice(md, last_end, img.offset as int) + st.1 + next.0
            &&& transform_from(md, spans, probes, force, i, last_end, prev_float).1 == seq![(img.full, st.0)] + next.1
        }),
{
    reveal(transform_from);
}

proof fn lemma_transform_end(
    md: Seq<char>,
    spans: Seq<(usize, usize)>,
    probes: Seq<ImageProbe>,
    force: bool,
    i: nat,
    last_end: int,
    prev_float: bool,
)
    requires
        i >= spans.len(),
    ensures
        transform_from(md, spans, probes, force, i, last_end, prev_float).0 == byte_slice(md, last_end, byte_len(md) as int),
        transform_from(md, spans, probes, force, i, last_end, prev_float).1 == Seq::<(Seq<char>, DecisionView)>::empty(),
{
    reveal(transform_from);
}

fn layout_step_exec(img: &ImageRef, probe: &ImageProbe, force: bool, prev_float: bool) -> (r: (Decision, Vec<char>, bool))
    ensures
        r.0@ == layout_step(img@, *probe, force, prev_float).0,
        r.1@ == layout_step(img@, *probe, force, prev_float).1,
        r.2 == layout_step(img@, *probe, force, prev_float).2,
{
    reveal(layout_step);
    if !force && has_layout(img) {
        return (Decision::SkippedLayout, to_chars(img.full.as_str()), prev_float);
    }
    let u = to_chars(img.url.as_str());
    if chars_start_with(&u, &to_chars("http://")) || chars_start_with(&u, &to_chars("https://")) {
        return (Decision::SkippedExternal, to_chars(img.full.as_str()), false);
    }
    match probe {
        ImageProbe::Missing => (Decision::SkippedMissing, to_chars(img.full.as_str()), false),
        ImageProbe::Measured { width, height, layout } => match layout {
            None => (Decision::KeptLarge { width: *width, height: *height }, to_chars(img.full.as_str()), false),
            Some(l) => {
                let a = to_chars(l.align.as_str());
                let align = if chars_eq(&a, &to_chars("right")) && prev_float {
                    "center".to_owned()
                } else {
                    l.align.clone()
                };
                let repl = rebuild_chars(img, Some(l.width.as_str()), Some(align.as_str()));
                let now_float = chars_eq(&to_chars(align.as_str()), &to_chars("right"));
                (
                    Decision::Resized { width: *width, height: *height, new_width: l.width.clone(), new_align: align },
                    repl,
                    now_float,
                )
            },
        },
    }
}

/// Applies smart layout to the images of `markdown`. `probes[i]` tells what
/// is known of the file of image `i` (consulted only where
/// [`needs_probe`] holds). Returns the new markdown and one result per image.
pub fn transform(markdown: &str, probes: &Vec<ImageProbe>, force: bool) -> (r: (String, Vec<ImageResult>))
    ensures
        (r.0@, r.1@.map_values(|x: ImageResult| result_view(x))) == transformed(markdown@, probes@, force),
{
    let (span_vec, images) = parse_images_with_spans(markdown);
    let ghost spans = image_spans(markdown@);
    let mut results: Vec<ImageResult> = Vec::new();
    if images.len() == 0 {
        assert(results@.map_values(|x: ImageResult| result_view(x)) =~= Seq::<(Seq<char>, DecisionView)>::empty());
        return (markdown.to_owned(), results);
    }
    let mut out: Vec<char> = Vec::new();
    let mut last_end: usize = 0;
    let mut prev_float = false;
    let ghost total = transform_from(markdown@, spans, probes@, force, 0, 0, false);
    proof {
        vstd::utf8::encode_utf8_valid_utf8(markdown@);
        assert(results@.map_values(|x: ImageResult| result_view(x)) =~= Seq::<(Seq<char>, DecisionView)>::empty());
        assert(out@ + total.0 =~= total.0);
        assert(Seq::<(Seq<char>, DecisionView)>::empty() + total.1 =~= total.1);
    }
    for i in 0..images.len()
        invariant
            images.len() == spans.len(),
            span_vec@ == spans,
            forall|j: int| 0 <= j < images.len() ==> (#[trigger] images@[j])@ == image_ref_at(markdown@, spans[j]),
            forall|j: int|
                0 <= j < spans.len() ==> {
                    &&& (#[trigger] spans[j]).0 <= spans[j].1 <= byte_len(markdown@)
                    &&& at_boundary(markdown@, spans[j].0 as int)
                    &&& at_boundary(markdown@, spans[j].1 as int)
                },
            forall|j: int, k: int| 0 <= j < k < spans.len() ==> (#[trigger] spans[j]).1 <= (#[trigger] spans[k]).0,
            total == transform_from(markdown@, spans, probes@, force, 0, 0, false),
            last_end <= byte_len(markdown@),
            at_boundary(markdown@, last_end as int),
            i < spans.len() ==> last_end <= spans[i as int].0,
            out@ + transform_from(markdown@, spans, probes@, force, i as nat, last_end as int, prev_float).0 == total.0,
            results@.map_values(|x: ImageResult| result_view(x)) + transform_from(markdown@, spans, probes@, force, i as nat, last_end as int, prev_float).1 == total.1,
    {
        let img = &images[i];
        let ghost imgv = image_ref_at(markdown@, spans[i as int]);
        assert(img@ == imgv);
        let start = img.offset;
        assert(start == spans[i as int].0);
        let gap = str_byte_slice(markdown, last_end, start);
        let probe = if i < probes.len() {
            &probes[i]
        } else {
            &ImageProbe::Missing
        };
        assert(*probe == probe_at(probes@, i as int));
        let (decision, repl, pf) = layout_step_exec(img, probe, force, prev_float);
        proof {
            lemma_transform_unfold(markdown@, spans, probes@, force, i as nat, last_end as int, prev_float);
        }
        let ghost next = transform_from(markdown@, spans, probes@, force, (i + 1) as nat, spans[i as int].1 as int, pf);
        let ghost before_out = out@;
        let ghost before_res = results@.map_values(|x: ImageResult| result_view(x));
        extend_chars(&mut out, &to_chars(gap));
        extend_chars(&mut out, &repl);
        let end = span_vec[i].1;
        let ghost dv = decision@;
        results.push(ImageResult { original: img.full.clone(), decision });
        assert(results@.map_values(|x: ImageResult| result_view(x)) =~= before_res.push((imgv.full, dv)));
        assert(out@ + next.0 =~= total.0);
        assert(results@.map_values(|x: ImageResult| result_view(x)) + next.1 =~= total.1);
        last_end = end;
        prev_float = pf;
        proof {
            if i + 1 < spans.len() {
                assert(spans[i as int].1 <= spans[i + 1].0);
            }
        }
    }
    let tail = str_byte_suffix(markdown, last_end);
    proof {
        lemma_transform_end(markdown@, spans, probes@, force, images.len() as nat, last_end as int, prev_float);
    }
    let ghost before = results@.map_values(|x: ImageResult| result_view(x));
    extend_chars(&mut out, &to_chars(tail));
    assert(before + Seq::<(Seq<char>, DecisionView)>::empty() =~= before);
    (string_from_chars(&out), results)
}


/// A decision that resizes an image and floats it right.
pub open spec fn floats_right(d: DecisionView) -> bool {
    d matches DecisionView::Resized { new_align, .. } && new_align == "right"@
}

/// Every entry of `rs` before position `m` kept a layout the image had.
pub open spec fn skipped_before(rs: Seq<(Seq<char>, DecisionView)>, from: int, m: int) -> bool {
    forall|j: int| from <= j < m ==> (#[trigger] rs[j]).1 is SkippedLayout
}

proof fn lemma_transform_shape(
    md: Seq<char>,
    spans: Seq<(usize, usize)>,
    probes: Seq<ImageProbe>,
    force: bool,
    i: nat,
    last_end: int,
    pf: bool,
)
    requires
        i <= spans.len(),
    ensures
        ({
            let rs = transform_from(md, spans, probes, force, i, last_end, pf).1;
            &&& rs.len() == spans.len() - i
            &&& forall|k: int| 0 <= k < rs.len() ==> (#[trigger] rs[k]).0 == image_ref_at(md, spans[i + k]).full
            &&& forall|m: int| 0 <= m < rs.len() && floats_right(#[trigger] rs[m].1) && skipped_before(rs, 0, m) ==> !pf
            &&& forall|k: int, m: int|
                0 <= k < m < rs.len() && floats_right(#[trigger] rs[k].1) && floats_right(#[trigger] rs[m].1)
                    ==> !skipped_before(rs, k + 1, m)
        }),
    decreases spans.len() - i,
{
    if i == spans.len() {
        lemma_transform_end(md, spans, probes, force, i, last_end, pf);
    } else {
        let img = image_ref_at(md, spans[i as int]);
        let st = layout_step(img, probe_at(probes, i as int), force, pf);
        lemma_transform_unfold(md, spans, probes, force, i, last_end, pf);
        lemma_transform_shape(md, spans, probes, force, i + 1, spans[i as int].1 as int, st.2);
        let rest = transform_from(md, spans, probes, force, i + 1, spans[i as int].1 as int, st.2).1;
        let rs = transform_from(md, spans, probes, force, i, last_end, pf).1;
        assert(rs == seq![(img.full, st.0)] + rest);
        reveal_strlit("right");
        reveal_strlit("center");
        assert(floats_right(st.0) ==> st.2 && !pf) by {
            reveal(layout_step);
        }
        assert(st.0 is SkippedLayout ==> st.2 == pf) by {
            reveal(layout_step);
        }
        assert forall|k: int| 0 <= k < rs.len() implies (#[trigger] rs[k]).0 == image_ref_at(md, spans[i + k]).full by {
            if k > 0 {
                assert(rs[k] == rest[k - 1]);
            }
        }
        assert forall|m: int| 0 <= m < rs.len() && floats_right(#[trigger] rs[m].1) && skipped_before(rs, 0, m) implies !pf by {
            if m > 0 {
                assert(rs[0].1 is SkippedLayout);
                assert(rs[m] == rest[m - 1]);
                assert(skipped_before(rest, 0, m - 1)) by {
                    assert forall|j: int| 0 <= j < m - 1 implies (#[trigger] rest[j]).1 is SkippedLayout by {
                        assert(rs[j + 1] == rest[j]);
                    }
                }
            }
        }
        assert forall|k: int, m: int|
            0 <= k < m < rs.len() && floats_right(#[trigger] rs[k].1) && floats_right(#[trigger] rs[m].1) implies !skipped_before(
            rs,
            k + 1,
            m,
        ) by {
            assert(rs[m] == rest[m - 1]);
            if k == 0 {
                if skipped_before(rs, 1, m) {
                    assert(skipped_before(rest, 0, m - 1)) by {
                        assert forall|j: int| 0 <= j < m - 1 implies (#[trigger] rest[j]).1 is SkippedLayout by {
                            assert(rs[j + 1] == rest[j]);
                        }
                    }
                }
            } else {
                assert(rs[k] == rest[k - 1]);
                if skipped_before(rs, k + 1, m) {
                    assert(skipped_before(rest, k, m - 1)) by {
                        assert forall|j: int| k <= j < m - 1 implies (#[trigger] rest[j]).1 is SkippedLayout by {
                            assert(rs[j + 1] == rest[j]);
                        }
                    }
                }
            }
        }
    }
}

/// Laying out the images of `md` gives one result per image reference, in
/// order, each naming the reference's full text; and no two images float
/// right one after the other (images that kept their own layout between
/// them aside): the second of such a pair is centred.
pub proof fn transform_results_follow_images(md: Seq<char>, probes: Seq<ImageProbe>, force: bool)
    ensures
        ({
            let rs = transformed(md, probes, force).1;
            &&& rs.len() == image_spans(md).len()
            &&& forall|k: int| 0 <= k < rs.len() ==> (#[trigger] rs[k]).0 == image_ref_at(md, image_spans(md)[k]).full
            &&& forall|k: int, m: int|
                0 <= k < m < rs.len() && floats_right(#[trigger] rs[k].1) && floats_right(#[trigger] rs[m].1)
                    ==> !skipped_before(rs, k + 1, m)
        }),
{
    if image_spans(md).len() > 0 {
        lemma_transform_shape(md, image_spans(md), probes, force, 0, 0, false);
    }
}


/// The alignment asked for image `k`, when its probe gives it a layout.
pub open spec fn requested_align(probes: Seq<ImageProbe>, k: int) -> Option<Seq<char>> {
    match probe_at(probes, k) {
        ImageProbe::Measured { layout: Some(l), .. } => Some(l.align@),
        _ => None,
    }
}

/// The width asked for image `k`, when its probe gives it a layout.
pub open spec fn requested_width(probes: Seq<ImageProbe>, k: int) -> Option<Seq<char>> {
    match probe_at(probes, k) {
        ImageProbe::Measured { layout: Some(l), .. } => Some(l.width@),
        _ => None,
    }
}

/// Before result `m`, the last result that did not keep its image's own
/// layout floats right (`start` tells whether a right float precedes all
/// of `rs`).
pub open spec fn right_float_before(rs: Seq<(Seq<char>, DecisionView)>, m: int, start: bool) -> bool {
    ||| exists|j: int| 0 <= j < m && floats_right(#[trigger] rs[j].1) && skipped_before(rs, j + 1, m)
    ||| start && skipped_before(rs, 0, m)
}

proof fn lemma_transform_align(
    md: Seq<char>,
    spans: Seq<(usize, usize)>,
    probes: Seq<ImageProbe>,
    force: bool,
    i: nat,
    last_end: int,
    pf: bool,
)
    requires
        i <= spans.len(),
    ensures
        ({
            let rs = transform_from(md, spans, probes, force, i, last_end, pf).1;
            forall|m: int|
                0 <= m < rs.len() && (#[trigger] rs[m].1 is Resized) ==> (requested_align(probes, i + m) matches Some(r)
                    && rs[m].1->new_align == (if r == "right"@ && right_float_before(rs, m, pf) {
                    "center"@
                } else {
                    r
                })) && requested_width(probes, i + m) == Some(rs[m].1->new_width)
        }),
    decreases spans.len() - i,
{
    if i == spans.len() {
        lemma_transform_end(md, spans, probes, force, i, last_end, pf);
    } else {
        let img = image_ref_at(md, spans[i as int]);
        let st = layout_step(img, probe_at(probes, i as int), force, pf);
        lemma_transform_unfold(md, spans, probes, force, i, last_end, pf);
        lemma_transform_shape(md, spans, probes, force, i + 1, spans[i as int].1 as int, st.2);
        lemma_transform_align(md, spans, probes, force, i + 1, spans[i as int].1 as int, st.2);
        let rest = transform_from(md, spans, probes, force, i + 1, spans[i as int].1 as int, st.2).1;
        let rs = transform_from(md, spans, probes, force, i, last_end, pf).1;
        let d = st.0;
        assert(rs == seq![(img.full, d)] + rest);
        reveal_strlit("right");
        reveal_strlit("center");
        assert(d is SkippedLayout ==> st.2 == pf) by {
            reveal(layout_step);
        }
        assert(floats_right(d) ==> st.2) by {
            reveal(layout_step);
        }
        assert(!(d is SkippedLayout) && !floats_right(d) ==> !st.2) by {
            reveal(layout_step);
        }
        assert(d is Resized ==> (requested_align(probes, i as int) matches Some(r) && d->new_align == (if r == "right"@ && pf {
            "center"@
        } else {
            r
        }))) by {
            reveal(layout_step);
        }
        assert(d is Resized ==> requested_width(probes, i as int) == Some(d->new_width)) by {
            reveal(layout_step);
        }
        assert forall|m: int|
            0 <= m < rs.len() && (#[trigger] rs[m].1 is Resized) implies (requested_align(probes, i + m) matches Some(r)
                && rs[m].1->new_align == (if r == "right"@ && right_float_before(rs, m, pf) {
                "center"@
            } else {
                r
            })) && requested_width(probes, i + m) == Some(rs[m].1->new_width) by {
            if m == 0 {
                assert(rs[0].1 == d);
                assert(right_float_before(rs, 0, pf) == pf) by {
                    assert(skipped_before(rs, 0, 0));
                }
            } else {
                assert(rs[m] == rest[m - 1]);
                assert(i + m == (i + 1) + (m - 1));
                assert(right_float_before(rs, m, pf) == right_float_before(rest, m - 1, st.2)) by {
                    assert forall|a: int, b: int| 1 <= a <= b <= m implies skipped_before(rs, a, b) == skipped_before(
                        rest,
                        a - 1,
                        b - 1,
                    ) by {
                        if skipped_before(rs, a, b) {
                            assert forall|j: int| a - 1 <= j < b - 1 implies (#[trigger] rest[j]).1 is SkippedLayout by {
                                assert(rs[j + 1] == rest[j]);
                            }
                        }
                        if skipped_before(rest, a - 1, b - 1) {
                            assert forall|j: int| a <= j < b implies (#[trigger] rs[j]).1 is SkippedLayout by {
                                assert(rs[j] == rest[j - 1]);
                            }
                        }
                    }
                    if right_float_before(rs, m, pf) {
                        if exists|j: int| 0 <= j < m && floats_right(#[trigger] rs[j].1) && skipped_before(rs, j + 1, m) {
                            let j = choose|j: int| 0 <= j < m && floats_right(#[trigger] rs[j].1) && skipped_before(rs, j + 1, m);
                            if j == 0 {
                                assert(st.2);
                                assert(skipped_before(rest, 0, m - 1));
                            } else {
                                assert(rs[j] == rest[j - 1]);
                                assert(skipped_before(rest, j, m - 1));
                                assert(floats_right(rest[j - 1].1) && skipped_before(rest, (j - 1) + 1, m - 1));
                            }
                        } else {
                            assert(pf && skipped_before(rs, 0, m));
                            assert(rs[0].1 is SkippedLayout);
                            assert(skipped_before(rs, 1, m));
                            assert(skipped_before(rest, 0, m - 1));
                        }
                    }
                    if right_float_before(rest, m - 1, st.2) {
                        if exists|j: int| 0 <= j < m - 1 && floats_right(#[trigger] rest[j].1) && skipped_before(rest, j + 1, m - 1) {
                            let j = choose|j: int| 0 <= j < m - 1 && floats_right(#[trigger] rest[j].1) && skipped_before(rest, j + 1, m - 1);
                            assert(rs[j + 1] == rest[j]);
                            assert(skipped_before(rs, j + 2, m));
                            assert(floats_right(rs[j + 1].1) && skipped_before(rs, (j + 1) + 1, m));
                        } else {
                            assert(st.2 && skipped_before(rest, 0, m - 1));
                            assert(skipped_before(rs, 1, m));
                            if d is SkippedLayout {
                                assert(pf);
                                assert forall|j: int| 0 <= j < m implies (#[trigger] rs[j]).1 is SkippedLayout by {
                                    if j > 0 {
                                        assert(skipped_before(rs, 1, m));
                                    }
                                }
                                assert(skipped_before(rs, 0, m));
                            } else {
                                assert(floats_right(d));
                                assert(floats_right(rs[0].1) && skipped_before(rs, 1int, m));
                            }
                        }
                    }
                }
            }
        }
    }
}

/// The width of every resized image is the one its probe asks for, and
/// its alignment follows what the probe asks for,
/// except that an image asked to float right is centred when the last
/// image before it that did not keep its own layout floats right; an image
/// kept at its own size, skipped or external in between ends that run.
pub proof fn resized_alignment_follows_requests(md: Seq<char>, probes: Seq<ImageProbe>, force: bool)
    ensures
        ({
            let rs = transformed(md, probes, force).1;
            forall|m: int|
                0 <= m < rs.len() && (#[trigger] rs[m].1 is Resized) ==> (requested_align(probes, m) matches Some(r)
                    && rs[m].1->new_align == (if r == "right"@ && right_float_before(rs, m, false) {
                    "center"@
                } else {
                    r
                })) && requested_width(probes, m) == Some(rs[m].1->new_width)
        }),
{
    if image_spans(md).len() > 0 {
        lemma_transform_align(md, image_spans(md), probes, force, 0, 0, false);
    }
}


/// The text that stands for an image with decision `d`: the image rebuilt
/// with its new width and alignment when resized, its own text otherwise.
pub open spec fn replacement_for(img: ImageRefSpec, d: DecisionView) -> Seq<char> {
    match d {
        DecisionView::Resized { new_width, new_align, .. } => rebuilt(img, Some(new_width), Some(new_align)),
        _ => img.full,
    }
}

/// The markdown from byte `last_end` on, with the image of span `i` and
/// the later ones replaced as the results `rs` (the first one for span `i`)
/// tell.
pub open spec fn replaced_from(
    md: Seq<char>,
    spans: Seq<(usize, usize)>,
    rs: Seq<(Seq<char>, DecisionView)>,
    i: nat,
    last_end: int,
) -> Seq<char>
    decreases spans.len() - i,
{
    if i >= spans.len() {
        byte_slice(md, last_end, byte_len(md) as int)
    } else {
        byte_slice(md, last_end, spans[i as int].0 as int) + replacement_for(image_ref_at(md, spans[i as int]), rs[0].1)
            + replaced_from(md, spans, rs.skip(1), i + 1, spans[i as int].1 as int)
    }
}

proof fn lemma_transform_text(
    md: Seq<char>,
    spans: Seq<(usize, usize)>,
    probes: Seq<ImageProbe>,
    force: bool,
    i: nat,
    last_end: int,
    pf: bool,
)
    requires
        i <= spans.len(),
    ensures
        transform_from(md, spans, probes, force, i, last_end, pf).0 == replaced_from(
            md,
            spans,
            transform_from(md, spans, probes, force, i, last_end, pf).1,
            i,
            last_end,
        ),
    decreases spans.len() - i,
{
    if i == spans.len() {
        lemma_transform_end(md, spans, probes, force, i, last_end, pf);
    } else {
        let img = image_ref_at(md, spans[i as int]);
        let st = layout_step(img, probe_at(probes, i as int), force, pf);
        lemma_transform_unfold(md, spans, probes, force, i, last_end, pf);
        lemma_transform_text(md, spans, probes, force, i + 1, spans[i as int].1 as int, st.2);
        let rest = transform_from(md, spans, probes, force, i + 1, spans[i as int].1 as int, st.2).1;
        let rs = transform_from(md, spans, probes, force, i, last_end, pf).1;
        assert(rs == seq![(img.full, st.0)] + rest);
        assert(rs.skip(1) =~= rest);
        assert(rs[0].1 == st.0);
        assert(st.1 == replacement_for(img, st.0)) by {
            reveal(layout_step);
        }
    }
}

/// The laid-out markdown is the markdown with each image reference
/// replaced as its result says: rebuilt with the new width and alignment
/// when resized, left as it was otherwise; the text between images is
/// kept.
pub proof fn transform_text_follows_results(md: Seq<char>, probes: Seq<ImageProbe>, force: bool)
    ensures
        image_spans(md).len() > 0 ==> transformed(md, probes, force).0 == replaced_from(
            md,
            image_spans(md),
            transformed(md, probes, force).1,
            0,
            0,
        ),
        image_spans(md).len() == 0 ==> transformed(md, probes, force).0 == md,
{
    if image_spans(md).len() > 0 {
        lemma_transform_text(md, image_spans(md), probes, force, 0, 0, false);
    }
}

} // verus!
