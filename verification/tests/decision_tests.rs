use ripple_reader::captions::{
    caption_key_of_match, decide_caption, decide_caption_header, fuzzy_caption_key,
};
use ripple_reader::extract::{
    conclusion_level_from, decide_header_boundary, first_flag_from, intro_level_from,
    is_stop_paragraph,
};
use ripple_reader::captions::decide_structure_label;
use ripple_reader::env::quote_with_flags;
use ripple_reader::mdfmt::{decide_table_image, image_ref_from_groups};
use ripple_reader::mineru::{image_name_from_digest_byte, structured_image_name};
use ripple_reader::names::{name_from_letters, normalize_name};
use ripple_reader::validate::{decide_overlap, OverlapKind};

fn groups(gs: &[Option<&str>]) -> Option<Vec<Option<String>>> {
    Some(gs.iter().map(|g| g.map(|s| s.to_string())).collect())
}

#[test]
fn caption_decision_from_its_parts() {
    assert!(decide_caption(true, "", ""));
    assert!(decide_caption(false, "figure", "3 shows"));
    assert!(decide_caption(false, "tbl", ""));
    assert!(decide_caption(false, "figur", "3"));
    assert!(!decide_caption(false, "figur", "x"));
    assert!(!decide_caption(false, "figur", ""));
    assert!(!decide_caption(false, "graph", "3"));
}

#[test]
fn caption_header_decision_from_its_parts() {
    assert!(decide_caption_header("figure", "3: results", Some((0, 1))));
    assert!(decide_caption_header("fig", "IV Results", Some((0, 2))));
    assert!(decide_caption_header("table", "2. x", Some((0, 1))));
    assert!(!decide_caption_header("table", "3 results", Some((0, 1))));
    assert!(!decide_caption_header("table", "3", Some((0, 1))));
    assert!(!decide_caption_header("table", "x", None));
    assert!(!decide_caption_header("graph", "3:", Some((0, 1))));
}

#[test]
fn caption_keys_from_matches() {
    let caps = groups(&[Some("Table 2"), Some("2")]);
    assert_eq!(caption_key_of_match("table 2", &caps), "T:2");
    let caps = groups(&[Some("Fig. b.1"), Some("b.1")]);
    assert_eq!(caption_key_of_match("fig. b.1", &caps), "F:B.1");
    let caps = groups(&[Some("tbl iv"), Some("iv")]);
    assert_eq!(caption_key_of_match("tbl iv", &caps), "T:IV");
}

#[test]
fn fuzzy_caption_keys_from_matches() {
    let caps = groups(&[Some("4"), Some("4")]);
    assert_eq!(fuzzy_caption_key("figue", &caps), Some("F:4".to_string()));
    assert_eq!(fuzzy_caption_key("tabe", &caps), Some("T:4".to_string()));
    assert_eq!(fuzzy_caption_key("figure", &caps), None);
    assert_eq!(fuzzy_caption_key("figue", &None), None);
}

#[test]
fn first_stop_flag_from_a_position() {
    let flags = vec![false, true, false, true];
    assert_eq!(first_flag_from(&flags, 0), 1);
    assert_eq!(first_flag_from(&flags, 2), 3);
    assert_eq!(first_flag_from(&flags, 4), 4);
    assert_eq!(first_flag_from(&vec![false, false], 0), 2);
}

#[test]
fn stop_paragraphs() {
    let p: Vec<char> = "References".chars().collect();
    assert!(is_stop_paragraph(&p));
    let p: Vec<char> = "3 Methods and data".chars().collect();
    assert!(is_stop_paragraph(&p));
    let p: Vec<char> = "We study x.".chars().collect();
    assert!(!is_stop_paragraph(&p));
}

#[test]
fn header_boundary_decisions() {
    assert!(decide_header_boundary("abstract", false));
    assert!(decide_header_boundary("abstract we study", false));
    assert!(decide_header_boundary("1 introduction", true));
    assert!(decide_header_boundary("key words: x", false));
    assert!(!decide_header_boundary("keywords: x", false));
    assert!(!decide_header_boundary("john smith", false));
}

#[test]
fn section_levels_from_their_parts() {
    assert_eq!(intro_level_from("anything", true), 3);
    assert_eq!(intro_level_from("some background", false), 2);
    assert_eq!(intro_level_from("related work", false), 1);
    assert_eq!(intro_level_from("methods", false), 0);
    assert_eq!(conclusion_level_from("x", true), 3);
    assert_eq!(conclusion_level_from("discussion", false), 2);
    assert_eq!(conclusion_level_from("future work", false), 1);
    assert_eq!(conclusion_level_from("methods", false), 0);
}

#[test]
fn image_fields_from_groups() {
    let full = "![a plot](fig/p.png =50% left)";
    let caps = groups(&[Some(full), Some("a plot"), Some("fig/p.png"), Some("50%"), None, Some("left")]);
    let img = image_ref_from_groups(full, &caps, 7);
    assert_eq!(img.full, full);
    assert_eq!(img.alt, "a plot");
    assert_eq!(img.url, "fig/p.png");
    assert_eq!(img.size, Some("50%".to_string()));
    assert_eq!(img.align, Some("left".to_string()));
    assert_eq!(img.offset, 7);
    let img = image_ref_from_groups("x", &None, 0);
    assert_eq!(img.alt, "");
    assert_eq!(img.size, None);
}

#[test]
fn structure_labels_from_their_parts() {
    assert!(decide_structure_label("[system] you are", false, false));
    assert!(decide_structure_label("plain", true, false));
    assert!(decide_structure_label("plain", false, true));
    assert!(!decide_structure_label("plain text", false, false));
}

#[test]
fn table_images_from_their_parts() {
    assert!(decide_table_image("table/x.png", "table/x.png", ""));
    assert!(decide_table_image("Fig/Table_1.png", "fig/table_1.png", ""));
    assert!(decide_table_image("f.png", "f.png", "results 表格"));
    assert!(!decide_table_image("Table/x.png", "table/x.png", "plot"));
}

#[test]
fn overlap_judgement_from_its_parts() {
    assert_eq!(decide_overlap("Figure 1", "Figure 2", false, false, true, true), OverlapKind::Conflicting);
    assert_eq!(decide_overlap("Figure 1", "(a) left", false, true, true, false), OverlapKind::Loose);
    assert_eq!(decide_overlap("Figure 1", "a chart", false, false, true, false), OverlapKind::Ambiguous);
}

#[test]
fn names_from_letter_flags() {
    let lower: Vec<char> = "j. smith-jones  x".chars().collect();
    let letters: Vec<bool> = lower.iter().map(|c| c.is_alphabetic()).collect();
    assert_eq!(name_from_letters(&lower, &letters), "j smithjones x");
    assert_eq!(normalize_name("J. Smith-Jones  X"), "j smithjones x");
    let none = vec![false; lower.len()];
    assert_eq!(name_from_letters(&lower, &none), "");
}

#[test]
fn quoting_from_alphanumeric_flags() {
    let v: Vec<char> = "a b".chars().collect();
    let q = quote_with_flags(&v, &vec![true, false, true]);
    assert_eq!(q.iter().collect::<String>(), "\"a b\"");
    let v: Vec<char> = "ab/c".chars().collect();
    let q = quote_with_flags(&v, &vec![true, true, false, true]);
    assert_eq!(q.iter().collect::<String>(), "ab/c");
    let v: Vec<char> = "a\"b".chars().collect();
    let q = quote_with_flags(&v, &vec![true, false, true]);
    assert_eq!(q.iter().collect::<String>(), "\"a\\\"b\"");
}

#[test]
fn image_names_from_digest_bytes() {
    assert_eq!(image_name_from_digest_byte("p_", 3, 0), "p_0300");
    assert_eq!(image_name_from_digest_byte("p_", 12, 255), "p_1273");
    let n = structured_image_name("p_", 3, b"abc");
    assert!(n.starts_with("p_03"));
    assert_eq!(n.chars().count(), 6);
}
