use ripple_reader::merge::{leak_caption, merge_text_into, MergeText};
use ripple_reader::caption_swap::{swap_mismatched_captions, CaptionSlot};
use ripple_reader::validate::{
    caption_ref, check_item, figure_order, is_placeholder_desc, numbering_report, overlap_kind, CaptionRef, ItemCheck,
    OverlapKind,
};

fn fig(n: u32) -> CaptionRef {
    CaptionRef { figure: true, number: n }
}

fn tbl(n: u32) -> CaptionRef {
    CaptionRef { figure: false, number: n }
}

fn strings(v: &[&str]) -> Vec<String> {
    v.iter().map(|s| s.to_string()).collect()
}

fn sorted(mut v: Vec<u32>) -> Vec<u32> {
    v.sort();
    v
}

#[test]
fn placeholder_descriptions() {
    assert!(is_placeholder_desc("image on page 3"));
    assert!(is_placeholder_desc("chart on page 1"));
    assert!(is_placeholder_desc("table on page 12"));
    assert!(!is_placeholder_desc("image on page 3 with Figure 2"));
    assert!(!is_placeholder_desc("table on page 2 Table 4"));
    assert!(!is_placeholder_desc("Figure 1: overview"));
    assert!(!is_placeholder_desc("an image on page 3"));
}

#[test]
fn item_checks_by_content_type() {
    assert_eq!(check_item("image", "Figure 2: pipeline"), ItemCheck::Numbered);
    assert_eq!(check_item("chart", "Table 3: a chart captioned as table"), ItemCheck::Numbered);
    assert_eq!(check_item("image", "(a) left panel"), ItemCheck::Numbered);
    assert_eq!(check_item("image", "A photo of a cat"), ItemCheck::MissingFigureNumber);
    assert_eq!(check_item("chart", "Accuracy over time"), ItemCheck::MissingFigureNumber);
    assert_eq!(check_item("table", "Table 1: results"), ItemCheck::Numbered);
    assert_eq!(check_item("table", "Figure 4: grid under a table"), ItemCheck::Numbered);
    assert_eq!(check_item("table", "Results on the benchmark"), ItemCheck::MissingTableNumber);
    assert_eq!(check_item("image", "image on page 2"), ItemCheck::Placeholder);
    assert_eq!(check_item("table", "table on page 5"), ItemCheck::Placeholder);
    assert_eq!(check_item("interline_equation", "E = mc^2"), ItemCheck::Unchecked);
}

#[test]
fn overlap_kinds() {
    assert_eq!(overlap_kind("Figure 1: a", "Figure 2: b"), OverlapKind::Conflicting);
    assert_eq!(overlap_kind("Table 1 x", "fig. 3 y"), OverlapKind::Conflicting);
    assert_eq!(overlap_kind("image on page 1", "Figure 2: b"), OverlapKind::Loose);
    assert_eq!(overlap_kind("Figure 2: b", "(a) sub panel"), OverlapKind::Loose);
    assert_eq!(overlap_kind("Results of Figure 1", "Figure 2: b"), OverlapKind::Ambiguous);
    assert_eq!(overlap_kind("A plot", "Another plot"), OverlapKind::Ambiguous);
}

#[test]
fn caption_refs() {
    assert_eq!(caption_ref("Figure 12: overview"), Some(fig(12)));
    assert_eq!(caption_ref("Table 3 results"), Some(tbl(3)));
    assert_eq!(caption_ref("Fig. 7"), Some(fig(7)));
    assert_eq!(caption_ref("Figure B.1 appendix"), None);
    assert_eq!(caption_ref("Table iv"), None);
    assert_eq!(caption_ref("Figure 99999999999"), None);
    assert_eq!(caption_ref("no caption"), None);
}

#[test]
fn numbering_gaps_and_missing() {
    let descs = strings(&["Figure 1: a", "Figure 3: c", "Table 2: t", "image on page 4"]);
    let layout = vec![fig(2), fig(3), fig(1), tbl(1), tbl(2), fig(4)];
    let r = numbering_report(&descs, &layout, &vec![]);
    assert_eq!(r.figure_gaps, vec![2]);
    assert_eq!(r.table_gaps, vec![1]);
    assert_eq!(sorted(r.missing_figures), vec![2, 4]);
    assert_eq!(r.missing_tables, vec![1]);
}

#[test]
fn numbering_excused_figures_are_not_reported() {
    let descs = strings(&["Figure 1: a", "Figure 3: c"]);
    let layout = vec![fig(1), fig(2), fig(3), fig(4)];
    let r = numbering_report(&descs, &layout, &vec![2, 4]);
    assert!(r.figure_gaps.is_empty());
    assert!(r.missing_figures.is_empty());
}

#[test]
fn numbering_gap_unknown_to_layout_is_not_reported() {
    let descs = strings(&["Figure 1: a", "Figure 4: d", "Table 3: t"]);
    let layout = vec![fig(1), fig(3), fig(4), tbl(3)];
    let r = numbering_report(&descs, &layout, &vec![]);
    assert_eq!(r.figure_gaps, vec![3]);
    assert!(r.table_gaps.is_empty());
    assert_eq!(r.missing_figures, vec![3]);
    assert!(r.missing_tables.is_empty());
}

#[test]
fn numbering_without_extractions_reports_only_missing() {
    let descs: Vec<String> = vec![];
    let layout = vec![fig(1), fig(1), tbl(2)];
    let r = numbering_report(&descs, &layout, &vec![]);
    assert!(r.figure_gaps.is_empty());
    assert!(r.table_gaps.is_empty());
    assert_eq!(r.missing_figures, vec![1]);
    assert_eq!(r.missing_tables, vec![2]);
}

fn slot(block_type: &str, desc: &str, page: i32) -> CaptionSlot {
    CaptionSlot {
        block_type: block_type.to_string(),
        desc: desc.to_string(),
        caption_number: None,
        page_idx: page,
    }
}

#[test]
fn swaps_mismatched_pair_on_same_page() {
    let mut c = vec![slot("table", "Figure 3: grid", 2), slot("image", "Table 1: results", 2)];
    c[0].caption_number = Some("F:3".to_string());
    c[1].caption_number = Some("T:1".to_string());
    let pairs = swap_mismatched_captions(&mut c);
    assert_eq!(pairs, vec![(0, 1)]);
    assert_eq!(c[0].desc, "Table 1: results");
    assert_eq!(c[0].caption_number, Some("T:1".to_string()));
    assert_eq!(c[0].block_type, "table");
    assert_eq!(c[1].desc, "Figure 3: grid");
    assert_eq!(c[1].caption_number, Some("F:3".to_string()));
    assert_eq!(c[1].block_type, "image");
}

#[test]
fn no_swap_across_pages_or_between_same_types() {
    let mut c = vec![
        slot("table", "Figure 3: grid", 1),
        slot("image", "Table 1: results", 2),
        slot("chart", "Table 2: other", 1),
        slot("image", "Table 5: x", 1),
    ];
    let pairs = swap_mismatched_captions(&mut c);
    assert_eq!(pairs, vec![(0, 2)]);
    assert_eq!(c[0].desc, "Table 2: other");
    assert_eq!(c[2].desc, "Figure 3: grid");
    assert_eq!(c[1].desc, "Table 1: results");
    assert_eq!(c[3].desc, "Table 5: x");
}

#[test]
fn correctly_typed_candidates_stay() {
    let mut c = vec![slot("table", "Table 1: ok", 0), slot("image", "Figure 1: ok", 0)];
    let pairs = swap_mismatched_captions(&mut c);
    assert!(pairs.is_empty());
    assert_eq!(c[0].desc, "Table 1: ok");
    assert_eq!(c[1].desc, "Figure 1: ok");
}


fn mt(block_type: &str, desc: &str, cap: Option<&str>) -> MergeText {
    MergeText {
        block_type: block_type.to_string(),
        desc: desc.to_string(),
        caption_number: cap.map(|c| c.to_string()),
    }
}

#[test]
fn merge_joins_two_captions() {
    let mut t = mt("chart", "Figure 2: left", Some("F:2"));
    merge_text_into(&mut t, &mt("chart", "right panel", None));
    assert_eq!(t.desc, "Figure 2: left; right panel");
    assert_eq!(t.block_type, "chart");
    assert_eq!(t.caption_number, Some("F:2".to_string()));
}

#[test]
fn merge_placeholder_yields_to_caption() {
    let mut t = mt("image", "image on page 3", None);
    merge_text_into(&mut t, &mt("image", "Figure 5: results", Some("F:5")));
    assert_eq!(t.desc, "Figure 5: results");
    assert_eq!(t.caption_number, Some("F:5".to_string()));

    let mut t = mt("image", "Figure 5: results", Some("F:5"));
    merge_text_into(&mut t, &mt("image", "image on page 3", None));
    assert_eq!(t.desc, "Figure 5: results");

    let mut t = mt("image", "image on page 3", None);
    merge_text_into(&mut t, &mt("chart", "chart on page 3", None));
    assert_eq!(t.desc, "chart on page 3");
}

#[test]
fn merge_contained_descriptions() {
    let mut t = mt("image", "Figure 1: the full caption text", None);
    merge_text_into(&mut t, &mt("image", "Figure 1", None));
    assert_eq!(t.desc, "Figure 1: the full caption text");

    // A short label deep inside a caption is not containment.
    let mut t = mt("image", "In (a), we observe growth", None);
    merge_text_into(&mut t, &mt("image", "(a)", None));
    assert_eq!(t.desc, "In (a), we observe growth; (a)");

    // A prefix that lacks the caption number gives way to the richer text.
    let mut t = mt("image", "(b) Dataset", None);
    merge_text_into(&mut t, &mt("image", "(b) Dataset Figure 11: overview", None));
    assert_eq!(t.desc, "(b) Dataset Figure 11: overview");
}

#[test]
fn merge_prefers_image_type_and_fitting_caption() {
    let mut t = mt("table", "x", Some("F:7"));
    merge_text_into(&mut t, &mt("image", "x", Some("F:8")));
    assert_eq!(t.block_type, "image");
    // F:7 fits the merged type "image", so it stays.
    assert_eq!(t.caption_number, Some("F:7".to_string()));

    let mut t = mt("image", "x", Some("T:7"));
    merge_text_into(&mut t, &mt("chart", "x", Some("F:3")));
    assert_eq!(t.caption_number, Some("F:3".to_string()));

    let mut t = mt("image", "x", None);
    merge_text_into(&mut t, &mt("table", "x", Some("T:1")));
    assert_eq!(t.block_type, "image");
    assert_eq!(t.caption_number, Some("T:1".to_string()));
}

#[test]
fn leaked_caption_is_taken_over() {
    let parent = mt("image", "image on page 2", None);
    let child = mt("image", "Figure 4: the real caption", None);
    assert_eq!(leak_caption(&parent, &child), Some("F:4".to_string()));

    let child = mt("chart", "Figure 4: the real caption", Some("F:4"));
    assert_eq!(leak_caption(&parent, &child), Some("F:4".to_string()));

    // Incompatible block types.
    assert_eq!(leak_caption(&mt("table", "x", None), &mt("image", "Figure 4: c", None)), None);
    // The child does not look like a caption.
    assert_eq!(leak_caption(&parent, &mt("image", "some body text", None)), None);
    // The parent already starts with another caption.
    assert_eq!(leak_caption(&mt("image", "  FIGURE 3: other", None), &mt("image", "Figure 4: c", None)), None);
    assert_eq!(
        leak_caption(&mt("image", "Fig. 4 same", None), &mt("image", "Figure 4: c", None)),
        Some("F:4".to_string())
    );
}

#[test]
fn figures_before_tables_then_by_number_and_page() {
    let descs = strings(&["Table 2: t", "Figure 3: a", "foo", "Figure 1: b", "Table 1: u", "bar", "Figure 3: c", "Figure B.1 x"]);
    let pages = vec![1, 2, 0, 5, 3, 1, 1, 0];
    assert_eq!(figure_order(&descs, &pages), vec![3, 6, 1, 7, 4, 0, 2, 5]);
    assert!(figure_order(&vec![], &vec![]).is_empty());
}
