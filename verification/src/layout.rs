//! The text of MinerU layout spans: line text, block text and the caption
//! nodes of a caption block. The caller flattens a line or a block into
//! its spans, in document order.
use vstd::prelude::*;
use crate::chars::{char_views, join_chars, join_with, string_from_chars, to_chars, trim, trim_chars};
use crate::mineru::str_eq;

verus! {

/// A span of a layout line.
#[derive(Debug, Clone)]
pub struct LayoutSpan {
    pub span_type: String,
    pub content: Option<String>,
    pub image_path: Option<String>,
}

/// A text node of a caption.
#[derive(Debug)]
pub struct CaptionNode {
    pub node_type: String,
    pub content: String,
}

/// The contents of the spans that have one, in order.
pub open spec fn span_texts(s: Seq<LayoutSpan>) -> Seq<Seq<char>>
    decreases s.len(),
{
    if s.len() == 0 {
        Seq::empty()
    } else {
        let rest = span_texts(s.drop_last());
        match s.last().content {
            Some(c) => rest.push(c@),
            None => rest,
        }
    }
}

/// The trimmed contents of the spans that are not blank, in order.
pub open spec fn trimmed_span_texts(s: Seq<LayoutSpan>) -> Seq<Seq<char>>
    decreases s.len(),
{
    if s.len() == 0 {
        Seq::empty()
    } else {
        let rest = trimmed_span_texts(s.drop_last());
        match s.last().content {
            Some(c) => if trim(c@).len() > 0 { rest.push(trim(c@)) } else { rest },
            None => rest,
        }
    }
}

fn collect_texts(spans: &Vec<LayoutSpan>, trimmed: bool) -> (r: Vec<Vec<char>>)
    ensures
        trimmed ==> char_views(r@) == trimmed_span_texts(spans@),
        !trimmed ==> char_views(r@) == span_texts(spans@),
{
    let mut r: Vec<Vec<char>> = Vec::new();
    for i in 0..spans.len()
        invariant
            trimmed ==> char_views(r@) == trimmed_span_texts(spans@.take(i as int)),
            !trimmed ==> char_views(r@) == span_texts(spans@.take(i as int)),
    {
        let ghost before = r@;
        assert(spans@.take(i + 1).drop_last() =~= spans@.take(i as int));
        assert(spans@.take(i + 1).last() == spans@[i as int]);
        match &spans[i].content {
            Some(c) => {
                let v = to_chars(c.as_str());
                if trimmed {
                    let t = trim_chars(&v);
                    if t.len() > 0 {
                        r.push(t);
                        assert(char_views(r@) =~= char_views(before).push(trim(c@)));
                    }
                } else {
                    r.push(v);
                    assert(char_views(r@) =~= char_views(before).push(c@));
                }
            },
            None => {},
        }
    }
    assert(spans@.take(spans.len() as int) =~= spans@);
    r
}

/// The text of a line: the contents of its spans joined by spaces.
pub fn line_text(spans: &Vec<LayoutSpan>) -> (r: String)
    ensures
        r@ == join_with(span_texts(spans@), seq![' ']),
{
    let parts = collect_texts(spans, false);
    let mut sep: Vec<char> = Vec::new();
    sep.push(' ');
    assert(sep@ =~= seq![' ']);
    let v = join_chars(&parts, 0, parts.len(), &sep);
    assert(char_views(parts@).subrange(0, parts.len() as int) =~= char_views(parts@));
    string_from_chars(&v)
}

/// The text of a block: the trimmed, non-blank contents of its spans
/// joined by spaces.
pub fn extract_block_text(spans: &Vec<LayoutSpan>) -> (r: String)
    ensures
        r@ == join_with(trimmed_span_texts(spans@), seq![' ']),
{
    let parts = collect_texts(spans, true);
    let mut sep: Vec<char> = Vec::new();
    sep.push(' ');
    assert(sep@ =~= seq![' ']);
    let v = join_chars(&parts, 0, parts.len(), &sep);
    assert(char_views(parts@).subrange(0, parts.len() as int) =~= char_views(parts@));
    string_from_chars(&v)
}

pub open spec fn node_views(v: Seq<CaptionNode>) -> Seq<(Seq<char>, Seq<char>)> {
    v.map_values(|n: CaptionNode| (n.node_type@, n.content@))
}

/// The caption nodes of the spans of a caption: one text node for each span
/// with content.
pub fn caption_nodes(spans: &Vec<LayoutSpan>) -> (r: Vec<CaptionNode>)
    ensures
        node_views(r@) == span_texts(spans@).map_values(|c: Seq<char>| ("text"@, c)),
{
    let mut r: Vec<CaptionNode> = Vec::new();
    for i in 0..spans.len()
        invariant
            node_views(r@) == span_texts(spans@.take(i as int)).map_values(|c: Seq<char>| ("text"@, c)),
    {
        let ghost before = r@;
        assert(spans@.take(i + 1).drop_last() =~= spans@.take(i as int));
        assert(spans@.take(i + 1).last() == spans@[i as int]);
        match &spans[i].content {
            Some(c) => {
                let node = CaptionNode { node_type: "text".to_owned(), content: c.clone() };
                r.push(node);
                assert(span_texts(spans@.take(i + 1)) == span_texts(spans@.take(i as int)).push(c@));
                assert(node_views(r@) =~= node_views(before).push(("text"@, c@)));
                assert(node_views(r@) =~= span_texts(spans@.take(i + 1)).map_values(|c: Seq<char>| ("text"@, c)));
            },
            None => {},
        }
    }
    assert(spans@.take(spans.len() as int) =~= spans@);
    r
}

/// The contents of the text nodes, in order.
pub open spec fn text_node_contents(v: Seq<(Seq<char>, Seq<char>)>) -> Seq<Seq<char>>
    decreases v.len(),
{
    if v.len() == 0 {
        Seq::empty()
    } else {
        let rest = text_node_contents(v.drop_last());
        if v.last().0 == "text"@ {
            rest.push(v.last().1)
        } else {
            rest
        }
    }
}

/// The caption text of a block from its caption nodes: the first text node
/// alone, or all of them joined by spaces; none without text nodes.
pub open spec fn caption_text_spec(v: Seq<(Seq<char>, Seq<char>)>, first_only: bool) -> Option<Seq<char>> {
    let t = text_node_contents(v);
    if t.len() == 0 {
        None
    } else if first_only {
        Some(t[0])
    } else {
        Some(join_with(t, seq![' ']))
    }
}

/// The caption text of a block, read from its caption nodes.
pub fn caption_text(nodes: &Vec<CaptionNode>, first_only: bool) -> (r: Option<String>)
    ensures
        match r {
            Some(s) => caption_text_spec(node_views(nodes@), first_only) == Some(s@),
            None => caption_text_spec(node_views(nodes@), first_only) is None,
        },
{
    let mut parts: Vec<Vec<char>> = Vec::new();
    for i in 0..nodes.len()
        invariant
            char_views(parts@) == text_node_contents(node_views(nodes@.take(i as int))),
    {
        let ghost before = parts@;
        assert(node_views(nodes@.take(i + 1)) =~= node_views(nodes@.take(i as int)).push(
            (nodes@[i as int].node_type@, nodes@[i as int].content@),
        ));
        assert(node_views(nodes@.take(i + 1)).drop_last() =~= node_views(nodes@.take(i as int)));
        if str_eq(nodes[i].node_type.as_str(), "text") {
            parts.push(to_chars(nodes[i].content.as_str()));
            assert(char_views(parts@) =~= char_views(before).push(nodes@[i as int].content@));
        }
    }
    assert(nodes@.take(nodes.len() as int) =~= nodes@);
    if parts.len() == 0 {
        None
    } else if first_only {
        Some(string_from_chars(&parts[0]))
    } else {
        let mut sep: Vec<char> = Vec::new();
        sep.push(' ');
        assert(sep@ =~= seq![' ']);
        let v = join_chars(&parts, 0, parts.len(), &sep);
        assert(char_views(parts@).subrange(0, parts.len() as int) =~= char_views(parts@));
        Some(string_from_chars(&v))
    }
}

// ---------------------------------------------------------------------------
// Image paths of a block.
// ---------------------------------------------------------------------------

/// A sub-block of a layout block, with the spans of its lines in order.
#[derive(Debug, Clone)]
pub struct SubBlockSpans {
    pub sub_type: String,
    pub spans: Vec<LayoutSpan>,
    pub image_path: Option<String>,
}

pub open spec fn opt_path(o: Option<String>) -> Option<Seq<char>> {
    match o {
        Some(p) => Some(p@),
        None => None,
    }
}

/// The image path of the first span that has one.
pub open spec fn first_span_path(s: Seq<LayoutSpan>) -> Option<Seq<char>>
    decreases s.len(),
{
    if s.len() == 0 {
        None
    } else {
        match s[0].image_path {
            Some(p) => Some(p@),
            None => first_span_path(s.skip(1)),
        }
    }
}

/// The image path a sub-block carries: that of its first span with one,
/// else its own.
pub open spec fn sub_path(b: SubBlockSpans) -> Option<Seq<char>> {
    match first_span_path(b.spans@) {
        Some(p) => Some(p),
        None => opt_path(b.image_path),
    }
}

pub open spec fn body_type(t: Seq<char>) -> bool {
    t == "image_body"@ || t == "table_body"@ || t == "chart_body"@
}

/// The path of the first sub-block that carries one, among the body-typed
/// ones when `body_only`.
pub open spec fn first_sub_path(subs: Seq<SubBlockSpans>, body_only: bool) -> Option<Seq<char>>
    decreases subs.len(),
{
    if subs.len() == 0 {
        None
    } else if (!body_only || body_type(subs[0].sub_type@)) && sub_path(subs[0]) is Some {
        sub_path(subs[0])
    } else {
        first_sub_path(subs.skip(1), body_only)
    }
}

/// The image of a block: taken from the image, table and chart bodies
/// first, and from any sub-block that carries a path otherwise.
pub open spec fn block_image_path(subs: Seq<SubBlockSpans>) -> Option<Seq<char>> {
    match first_sub_path(subs, true) {
        Some(p) => Some(p),
        None => first_sub_path(subs, false),
    }
}

fn span_path(spans: &Vec<LayoutSpan>) -> (r: Option<String>)
    ensures
        opt_path(r) == first_span_path(spans@),
{
    let mut i: usize = 0;
    assert(spans@.skip(0) =~= spans@);
    while i < spans.len()
        invariant
            i <= spans.len(),
            first_span_path(spans@) == first_span_path(spans@.skip(i as int)),
        decreases spans.len() - i,
    {
        assert(spans@.skip(i as int)[0] == spans@[i as int]);
        assert(spans@.skip(i as int).skip(1) =~= spans@.skip(i + 1));
        match &spans[i].image_path {
            Some(p) => {
                return Some(p.clone());
            },
            None => {},
        }
        i += 1;
    }
    None
}

fn sub_block_path(b: &SubBlockSpans) -> (r: Option<String>)
    ensures
        opt_path(r) == sub_path(*b),
{
    match span_path(&b.spans) {
        Some(p) => Some(p),
        None => match &b.image_path {
            Some(p) => Some(p.clone()),
            None => None,
        },
    }
}

/// Whether a sub-block, or one of its spans, carries an image path.
pub fn has_image_path(b: &SubBlockSpans) -> (r: bool)
    ensures
        r == (sub_path(*b) is Some),
{
    sub_block_path(b).is_some()
}

/// Whether a sub-block is a body: typed as image, table, chart or code body,
/// or carrying an image path.
pub fn is_body(b: &SubBlockSpans) -> (r: bool)
    ensures
        r == (body_type(b.sub_type@) || b.sub_type@ == "code_body"@ || sub_path(*b) is Some),
{
    let t = b.sub_type.as_str();
    str_eq(t, "image_body") || str_eq(t, "table_body") || str_eq(t, "chart_body") || str_eq(t, "code_body")
        || has_image_path(b)
}

fn first_path(subs: &Vec<SubBlockSpans>, body_only: bool) -> (r: Option<String>)
    ensures
        opt_path(r) == first_sub_path(subs@, body_only),
{
    let mut i: usize = 0;
    assert(subs@.skip(0) =~= subs@);
    while i < subs.len()
        invariant
            i <= subs.len(),
            first_sub_path(subs@, body_only) == first_sub_path(subs@.skip(i as int), body_only),
        decreases subs.len() - i,
    {
        assert(subs@.skip(i as int)[0] == subs@[i as int]);
        assert(subs@.skip(i as int).skip(1) =~= subs@.skip(i + 1));
        let b = &subs[i];
        let t = b.sub_type.as_str();
        let typed = str_eq(t, "image_body") || str_eq(t, "table_body") || str_eq(t, "chart_body");
        if !body_only || typed {
            match sub_block_path(b) {
                Some(p) => {
                    return Some(p);
                },
                None => {},
            }
        }
        i += 1;
    }
    None
}

/// The image path of a block with sub-blocks `subs`.
pub fn image_path(subs: &Vec<SubBlockSpans>) -> (r: Option<String>)
    ensures
        opt_path(r) == block_image_path(subs@),
{
    match first_path(subs, true) {
        Some(p) => Some(p),
        None => first_path(subs, false),
    }
}

} // verus!
