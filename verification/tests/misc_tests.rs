use ripple_reader::authors::{find_matching_author, retry_delay_secs, AuthorData};
use ripple_reader::cli::{date_range, is_arxiv_id, mask_key, truncate_authors};
use ripple_reader::layout::{
    caption_nodes, caption_text, extract_block_text, CaptionNode, has_image_path, image_path, is_body, line_text, LayoutSpan, SubBlockSpans,
};
use ripple_reader::logging::{close_mineru_log, mineru_log_path, pp_debug, pp_info, pp_warn, LogRegistry};
use ripple_reader::names::{is_valid_pdf, normalize_name, split_csv};
use ripple_reader::order::str_less;
use ripple_reader::stats::{build_date_tree, TagsDashboard};

fn author(id: &str, name: &str) -> AuthorData {
    AuthorData {
        author_id: id.to_string(),
        name: name.to_string(),
        paper_count: Some(3),
        citation_count: None,
        h_index: Some(7),
    }
}

#[test]
fn csv_items_are_trimmed() {
    assert_eq!(split_csv(" cs.AI, cs.CL ,,  "), vec!["cs.AI".to_string(), "cs.CL".to_string()]);
    assert!(split_csv("").is_empty());
}

#[test]
fn names_are_normalised_for_matching() {
    assert_eq!(normalize_name("  Jean-Luc   O'Neil "), "jeanluc oneil");
    assert_eq!(normalize_name("Zoë Li"), "zoë li");
}

#[test]
fn pdf_signature() {
    assert!(is_valid_pdf(b"%PDF-1.7 rest"));
    assert!(!is_valid_pdf(b"<html>"));
    assert!(!is_valid_pdf(b"%PD"));
}

#[test]
fn first_candidate_with_the_same_name() {
    let cands = vec![author("1", "J. Smith"), author("2", "Jane  SMITH"), author("3", "jane smith")];
    let found = find_matching_author("jane smith", cands).unwrap();
    assert_eq!(found.author_id, "2");
    assert!(find_matching_author("Nobody", vec![author("1", "Somebody")]).is_none());
}

#[test]
fn retry_policy() {
    assert_eq!(retry_delay_secs(429, 0), Some(5));
    assert_eq!(retry_delay_secs(429, 2), Some(15));
    assert_eq!(retry_delay_secs(503, 0), Some(1));
    assert_eq!(retry_delay_secs(500, 2), Some(4));
    assert_eq!(retry_delay_secs(404, 1), None);
    assert_eq!(retry_delay_secs(200, 0), None);
}

#[test]
fn arxiv_ids() {
    assert!(is_arxiv_id("2401.12345"));
    assert!(is_arxiv_id("hep-th/9901001"));
    assert!(!is_arxiv_id("AbCdEf123"));
}

#[test]
fn keys_are_masked() {
    assert_eq!(mask_key("sk-1234567890"), "sk-1...7890");
    assert_eq!(mask_key("short"), "***");
    assert_eq!(mask_key("12345678"), "***");
}

#[test]
fn author_lists_are_cut() {
    let a: Vec<String> = vec!["A".into(), "B".into(), "C".into()];
    assert_eq!(truncate_authors(&a, 2), "A, B, ...");
    assert_eq!(truncate_authors(&a, 3), "A, B, C");
    assert_eq!(truncate_authors(&vec![], 3), "");
}

#[test]
fn date_ranges() {
    assert_eq!(date_range(&vec![]), "none");
    assert_eq!(date_range(&vec!["2024-01-02".to_string()]), "2024-01-02");
    let d: Vec<String> = vec!["2024-03-01".into(), "2023-12-31".into(), "2024-01-15".into()];
    assert_eq!(date_range(&d), "2023-12-31 ~ 2024-03-01");
    assert!(str_less("2023", "2024"));
    assert!(!str_less("b", "abc"));
}

#[test]
fn date_tree_groups_and_counts() {
    let rows: Vec<(String, i64)> = vec![
        ("2024-02-10".into(), 3),
        ("2024-02-01".into(), 1),
        ("2023-12-31".into(), 2),
        ("2024-01-05".into(), 4),
    ];
    let tree = build_date_tree(&rows);
    assert_eq!(tree.len(), 2);
    assert_eq!(tree[0].label, "2024");
    assert_eq!(tree[0].count, 8);
    assert_eq!(tree[0].children.len(), 2);
    assert_eq!(tree[0].children[0].label, "02");
    assert_eq!(tree[0].children[0].count, 4);
    let days: Vec<(&str, usize)> = tree[0].children[0].children.iter().map(|n| (n.label.as_str(), n.count)).collect();
    assert_eq!(days, vec![("01", 1), ("10", 3)]);
    assert_eq!(tree[0].children[1].label, "01");
    assert_eq!(tree[1].label, "2023");
    assert_eq!(tree[1].count, 2);
    assert_eq!(tree[1].children[0].children[0].label, "31");
    assert!(build_date_tree(&vec![]).is_empty());
    // every paper is counted once
    assert_eq!(tree.iter().map(|n| n.count).sum::<usize>(), 10);
}

#[test]
fn tag_dashboard_counts() {
    let d = TagsDashboard::from_counts(
        vec![("llm".into(), 5)],
        2,
        0,
        vec![("robots".into(), 1)],
        vec!["vision".into()],
    );
    assert_eq!(d.tags, vec![("llm".to_string(), 5usize)]);
    assert_eq!(d.orphan_count, 2);
    assert_eq!(d.uninteresting_count, 0);
    assert_eq!(d.disinterest_tags, vec![("robots".to_string(), 1usize)]);
    assert_eq!(d.interest_tags, vec!["vision".to_string()]);
}

fn span(content: Option<&str>) -> LayoutSpan {
    LayoutSpan { span_type: "text".into(), content: content.map(|s| s.to_string()), image_path: None }
}

#[test]
fn span_texts() {
    let spans = vec![span(Some(" Figure 1: ")), span(None), span(Some("  ")), span(Some("A cat."))];
    assert_eq!(line_text(&spans), " Figure 1:     A cat.");
    assert_eq!(extract_block_text(&spans), "Figure 1: A cat.");
    let nodes = caption_nodes(&spans);
    assert_eq!(nodes.len(), 3);
    assert_eq!(nodes[0].node_type, "text");
    assert_eq!(nodes[2].content, "A cat.");
}

#[test]
fn log_registry_tracks_open_logs() {
    let mut logs: LogRegistry<u32> = LogRegistry::new();
    logs.open("p1", 1);
    logs.open("p2", 2);
    logs.open("p1", 3);
    assert_eq!(logs.get("p1"), Some(&3));
    close_mineru_log(&mut logs, "p1");
    assert_eq!(logs.get("p1"), None);
    assert_eq!(logs.get("p2"), Some(&2));
    logs.close("absent");
    assert_eq!(logs.get("p2"), Some(&2));
}

#[test]
fn log_lines() {
    assert_eq!(mineru_log_path("2401.1"), "figures/2401.1/mineru.log");
    assert_eq!(pp_info("x"), "[INFO] x");
    assert_eq!(pp_warn("y"), "[WARN] y");
    assert_eq!(pp_debug("z"), "[DEBUG] z");
}

fn sub(sub_type: &str, spans: Vec<LayoutSpan>, path: Option<&str>) -> SubBlockSpans {
    SubBlockSpans { sub_type: sub_type.into(), spans, image_path: path.map(|p| p.to_string()) }
}

fn image_span(path: &str) -> LayoutSpan {
    LayoutSpan { span_type: "image".into(), content: None, image_path: Some(path.to_string()) }
}

#[test]
fn block_image_paths() {
    let caption = sub("image_caption", vec![image_span("cap.jpg")], None);
    let body = sub("image_body", vec![span(Some("x"))], Some("body.jpg"));
    let body_span = sub("table_body", vec![span(None), image_span("span.jpg")], Some("own.jpg"));
    assert_eq!(image_path(&vec![caption.clone(), body.clone()]), Some("body.jpg".to_string()));
    assert_eq!(image_path(&vec![body_span.clone(), body.clone()]), Some("span.jpg".to_string()));
    assert_eq!(image_path(&vec![caption.clone()]), Some("cap.jpg".to_string()));
    assert_eq!(image_path(&vec![sub("text", vec![span(Some("t"))], None)]), None);
    assert!(has_image_path(&caption));
    assert!(is_body(&caption));
    assert!(is_body(&sub("code_body", vec![], None)));
    assert!(!is_body(&sub("image_caption", vec![span(Some("c"))], None)));
}

use ripple_reader::author_stats::{tally_authors, PaperAuthors};

fn paper(authors: &[&str], critical: bool) -> PaperAuthors {
    PaperAuthors { authors: authors.iter().map(|a| a.to_string()).collect(), critical }
}

#[test]
fn author_tallies_credit_each_listing() {
    let papers = vec![
        paper(&["Alice", " Bob ", "X"], true),
        paper(&["Bob", "Carol"], false),
        paper(&["Alice"], true),
    ];
    let t = tally_authors(&papers);
    let find = |n: &str| t.iter().find(|e| e.name == n).expect("tally");
    assert_eq!(t.len(), 3);
    assert_eq!(find("Alice").papers, vec![0, 2]);
    assert_eq!(find("Alice").critical, 2);
    assert_eq!(find("Bob").papers, vec![0, 1]);
    assert_eq!(find("Bob").critical, 1);
    assert_eq!(find("Carol").papers, vec![1]);
    assert_eq!(find("Carol").critical, 0);
    assert!(t.iter().all(|e| e.name != "X"));
    let total: usize = t.iter().map(|e| e.papers.len()).sum();
    assert_eq!(total, 5);
}

#[test]
fn author_tallies_take_only_first_twenty_authors() {
    let names: Vec<String> = (0..25).map(|i| format!("Author {}", i)).collect();
    let refs: Vec<&str> = names.iter().map(|s| s.as_str()).collect();
    let t = tally_authors(&vec![paper(&refs, false)]);
    assert_eq!(t.len(), 20);
    assert!(t.iter().all(|e| e.name != "Author 20"));
}

use ripple_reader::cli::split_paper_ids;
use ripple_reader::order::sort_strings;

#[test]
fn paper_ids_split_and_sorted() {
    let ids: Vec<String> = ["2401.00002", "abcXYZ", "hep-th/9901001", "2301.12345", "Zq1", "2301.12345"]
        .iter()
        .map(|s| s.to_string())
        .collect();
    let (arxiv, other) = split_paper_ids(&ids);
    assert_eq!(arxiv, vec!["2301.12345", "2301.12345", "2401.00002", "hep-th/9901001"]);
    assert_eq!(other, vec!["Zq1", "abcXYZ"]);
}

#[test]
fn strings_sort_by_code_point() {
    let v: Vec<String> = ["b", "a", "ä", "B", "", "ab", "a"].iter().map(|s| s.to_string()).collect();
    let mut expected = v.clone();
    expected.sort();
    assert_eq!(sort_strings(v), expected);
}

fn node(t: &str, c: &str) -> CaptionNode {
    CaptionNode { node_type: t.to_string(), content: c.to_string() }
}

#[test]
fn caption_text_from_nodes() {
    let nodes = vec![node("text", "Figure 1:"), node("inline_equation", "x^2"), node("text", "the plot")];
    assert_eq!(caption_text(&nodes, false), Some("Figure 1: the plot".to_string()));
    assert_eq!(caption_text(&nodes, true), Some("Figure 1:".to_string()));
    assert_eq!(caption_text(&vec![node("inline_equation", "y")], false), None);
    assert_eq!(caption_text(&vec![], true), None);
}
