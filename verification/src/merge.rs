//! The text side of merging one extraction candidate into another: which
//! description, block type and caption number the merged candidate keeps.
//! The caller merges the boxes and the image path.
use vstd::prelude::*;
use crate::captions::{caption_number_spec, extract_caption_number, looks_like_caption, looks_like_caption_spec, trim_start_exec};
use crate::chars::{byte_len, chars_contain, chars_start_with, contains_seq, push_char, starts_with, to_chars, trim_start};
use crate::config::{chars_end_with, ends_with};
use crate::mineru::{caption_type_mismatch, is_caption_type_mismatch, is_figure_type, same_block_type, str_eq};
use crate::validate::{is_placeholder_desc, placeholder_desc};

verus! {

/// The caption-bearing fields of a candidate.
#[derive(Debug)]
pub struct MergeText {
    pub block_type: String,
    pub desc: String,
    pub caption_number: Option<String>,
}

pub open spec fn opt_view(o: Option<String>) -> Option<Seq<char>> {
    match o {
        Some(s) => Some(s@),
        None => None,
    }
}

/// `shorter` is part of `longer`: a prefix, a suffix, or, when it is at
/// least 20 bytes long, anywhere inside. A short label such as `(a)` deep
/// inside a caption does not count.
pub open spec fn contained_in(shorter: Seq<char>, longer: Seq<char>) -> bool {
    starts_with(longer, shorter) || ends_with(longer, shorter) || (byte_len(shorter) >= 20
        && contains_seq(longer, shorter))
}

/// The description of `t` merged with `o`: one that the other contains is
/// kept (or replaced by the longer one that adds a caption number); a page
/// placeholder yields to a real caption; two captions are joined by `; `.
pub open spec fn merged_desc(t: Seq<char>, o: Seq<char>) -> Seq<char> {
    let t_shorter = byte_len(t) < byte_len(o);
    let contained = t == o || (if t_shorter {
        contained_in(t, o)
    } else {
        contained_in(o, t)
    });
    if contained {
        if t_shorter && starts_with(o, t) && caption_number_spec(t) is None && caption_number_spec(
            o,
        ) is Some {
            o
        } else {
            t
        }
    } else if placeholder_desc(t) {
        o
    } else if placeholder_desc(o) {
        t
    } else {
        t + "; "@ + o
    }
}

/// A merged candidate is an image when either side is.
pub open spec fn merged_type(t: Seq<char>, o: Seq<char>) -> Seq<char> {
    if o == "image"@ {
        "image"@
    } else {
        t
    }
}

/// A caption number that fits its block type.
pub open spec fn fitting(cap: Option<Seq<char>>, block_type: Seq<char>) -> bool {
    match cap {
        Some(c) => !caption_type_mismatch(c, block_type),
        None => false,
    }
}

/// The caption number of the merged candidate: the other side's when it
/// fits and the target's (of the merged type) does not, or when the target
/// has none.
pub open spec fn merged_caption(
    t_cap: Option<Seq<char>>,
    merged_type: Seq<char>,
    o_cap: Option<Seq<char>>,
    o_type: Seq<char>,
) -> Option<Seq<char>> {
    if (!fitting(t_cap, merged_type) && fitting(o_cap, o_type)) || (t_cap is None && o_cap is Some) {
        o_cap
    } else {
        t_cap
    }
}

/// A page placeholder is never joined to another description: when either
/// side is one, the merged description is one of the two, unchanged.
pub proof fn placeholders_are_never_joined(t: Seq<char>, o: Seq<char>)
    requires
        placeholder_desc(t) || placeholder_desc(o),
    ensures
        merged_desc(t, o) == t || merged_desc(t, o) == o,
{
}

/// Merging a description with itself keeps it.
pub proof fn merging_equal_descriptions_keeps_them(t: Seq<char>)
    ensures
        merged_desc(t, t) == t,
{
}

fn contained_in_exec(shorter: &str, longer: &str) -> (r: bool)
    ensures
        r == contained_in(shorter@, longer@),
{
    let s = to_chars(shorter);
    let l = to_chars(longer);
    if chars_start_with(&l, &s) || chars_end_with(&l, &s) {
        return true;
    }
    let n = shorter.as_bytes().len();
    assert(n as nat == byte_len(shorter@));
    if n >= 20 {
        return chars_contain(&l, &s);
    }
    false
}

fn merged_desc_exec(t: &str, o: &str) -> (r: String)
    ensures
        r@ == merged_desc(t@, o@),
{
    let tl = t.as_bytes().len();
    let ol = o.as_bytes().len();
    assert(tl as nat == byte_len(t@) && ol as nat == byte_len(o@));
    let t_shorter = tl < ol;
    let tv = to_chars(t);
    let ov = to_chars(o);
    let same = crate::chars::chars_eq(&tv, &ov);
    let contained = same || if t_shorter {
        contained_in_exec(t, o)
    } else {
        contained_in_exec(o, t)
    };
    if contained {
        if t_shorter && chars_start_with(&ov, &tv) && extract_caption_number(t).is_none()
            && extract_caption_number(o).is_some() {
            o.to_owned()
        } else {
            t.to_owned()
        }
    } else if is_placeholder_desc(t) {
        o.to_owned()
    } else if is_placeholder_desc(o) {
        t.to_owned()
    } else {
        let mut out = t.to_owned();
        push_char(&mut out, ';');
        push_char(&mut out, ' ');
        out.append(o);
        assert(out@ =~= t@ + "; "@ + o@) by {
            reveal_strlit("; ");
        }
        out
    }
}

fn fitting_exec(cap: &Option<String>, block_type: &str) -> (r: bool)
    ensures
        r == fitting(opt_view(*cap), block_type@),
{
    match cap {
        Some(c) => !is_caption_type_mismatch(c.as_str(), block_type),
        None => false,
    }
}

fn clone_cap(o: &Option<String>) -> (r: Option<String>)
    ensures
        opt_view(r) == opt_view(*o),
{
    match o {
        Some(s) => Some(s.clone()),
        None => None,
    }
}

/// Merges the description, block type and caption number of `other` into
/// `target`.
pub fn merge_text_into(target: &mut MergeText, other: &MergeText)
    ensures
        final(target).desc@ == merged_desc(old(target).desc@, other.desc@),
        final(target).block_type@ == merged_type(old(target).block_type@, other.block_type@),
        opt_view(final(target).caption_number) == merged_caption(
            opt_view(old(target).caption_number),
            merged_type(old(target).block_type@, other.block_type@),
            opt_view(other.caption_number),
            other.block_type@,
        ),
{
    target.desc = merged_desc_exec(target.desc.as_str(), other.desc.as_str());
    if str_eq(other.block_type.as_str(), "image") {
        target.block_type = "image".to_owned();
        proof {
            reveal_strlit("image");
        }
    }
    let target_fits = fitting_exec(&target.caption_number, target.block_type.as_str());
    let other_fits = fitting_exec(&other.caption_number, other.block_type.as_str());
    if (!target_fits && other_fits) || (target.caption_number.is_none()
        && other.caption_number.is_some()) {
        target.caption_number = clone_cap(&other.caption_number);
    }
}

// ---------------------------------------------------------------------------
// A caption that leaked out of its container.
// ---------------------------------------------------------------------------

/// The caption number of a candidate: its own, or else the one of its
/// description.
pub open spec fn cap_of(cap: Option<Seq<char>>, desc: Seq<char>) -> Option<Seq<char>> {
    match cap {
        Some(c) => Some(c),
        None => caption_number_spec(desc),
    }
}

/// ASCII letters in lower case (`str::to_ascii_lowercase`).
pub open spec fn ascii_lower(s: Seq<char>) -> Seq<char> {
    s.map_values(|c: char| if 'A' <= c && c <= 'Z' { ((c as u32) + 32) as char } else { c })
}

/// A description that starts (after white space, in any case) with a
/// caption word.
pub open spec fn starts_as_caption(desc: Seq<char>) -> bool {
    let t = ascii_lower(trim_start(desc));
    starts_with(t, "figure"@) || starts_with(t, "fig."@) || starts_with(t, "fig "@) || starts_with(
        t,
        "table"@,
    ) || starts_with(t, "tbl"@)
}

/// The caption number that a container `parent` takes over from a
/// caption-like `child` inside it, as far as the texts decide: both of
/// compatible block types, the child looking like a caption and carrying a
/// number, and the parent not starting with a caption of another number.
pub open spec fn leak_caption_spec(
    parent_type: Seq<char>,
    parent_desc: Seq<char>,
    parent_cap: Option<Seq<char>>,
    child_type: Seq<char>,
    child_desc: Seq<char>,
    child_cap: Option<Seq<char>>,
) -> Option<Seq<char>> {
    if !(parent_type == child_type || (is_figure_type(parent_type) && is_figure_type(child_type))) {
        None
    } else if !looks_like_caption_spec(child_desc) {
        None
    } else {
        match cap_of(child_cap, child_desc) {
            None => None,
            Some(cc) => if starts_as_caption(parent_desc) && cap_of(parent_cap, parent_desc) != Some(
                cc,
            ) {
                None
            } else {
                Some(cc)
            },
        }
    }
}

fn ascii_lower_exec(v: &Vec<char>) -> (r: Vec<char>)
    ensures
        r@ == ascii_lower(v@),
{
    let mut r: Vec<char> = Vec::new();
    for i in 0..v.len()
        invariant
            r@ == ascii_lower(v@.take(i as int)),
    {
        let c = v[i];
        let l = if 'A' <= c && c <= 'Z' {
            ((c as u32 + 32) as u8) as char
        } else {
            c
        };
        r.push(l);
        assert(r@ =~= ascii_lower(v@.take(i + 1)));
    }
    assert(v@.take(v.len() as int) =~= v@);
    r
}

fn starts_as_caption_exec(desc: &str) -> (r: bool)
    ensures
        r == starts_as_caption(desc@),
{
    let t = ascii_lower_exec(&trim_start_exec(&to_chars(desc)));
    chars_start_with(&t, &to_chars("figure")) || chars_start_with(&t, &to_chars("fig."))
        || chars_start_with(&t, &to_chars("fig ")) || chars_start_with(&t, &to_chars("table"))
        || chars_start_with(&t, &to_chars("tbl"))
}

fn cap_of_exec(cap: &Option<String>, desc: &str) -> (r: Option<String>)
    ensures
        opt_view(r) == cap_of(opt_view(*cap), desc@),
{
    match cap {
        Some(c) => Some(c.clone()),
        None => extract_caption_number(desc),
    }
}

/// Decides, on the texts of a container block and of a caption-like block
/// inside it, whether the container takes over the inner caption, and
/// returns that caption number. The caller checks the page and the
/// geometry.
pub fn leak_caption(parent: &MergeText, child: &MergeText) -> (r: Option<String>)
    ensures
        opt_view(r) == leak_caption_spec(
            parent.block_type@,
            parent.desc@,
            opt_view(parent.caption_number),
            child.block_type@,
            child.desc@,
            opt_view(child.caption_number),
        ),
{
    if !same_block_type(parent.block_type.as_str(), child.block_type.as_str()) {
        return None;
    }
    if !looks_like_caption(child.desc.as_str()) {
        return None;
    }
    let child_cap = match cap_of_exec(&child.caption_number, child.desc.as_str()) {
        Some(c) => c,
        None => {
            return None;
        },
    };
    if starts_as_caption_exec(parent.desc.as_str()) {
        let parent_cap = cap_of_exec(&parent.caption_number, parent.desc.as_str());
        let same = match &parent_cap {
            Some(p) => str_eq(p.as_str(), child_cap.as_str()),
            None => false,
        };
        if !same {
            return None;
        }
    }
    Some(child_cap)
}

} // verus!
