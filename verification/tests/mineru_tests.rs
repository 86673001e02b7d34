use ripple_reader::captions::{
    extract_caption_number, has_numbered_label, has_structure_label, has_sub_panel_label,
    looks_like_caption, looks_like_caption_header,
};
use ripple_reader::mineru::{
    desc_snippet, encode_base36_2, is_caption_type_mismatch, levenshtein_distance, same_block_type,
    structured_image_name,
};

#[test]
fn levenshtein_known_values() {
    assert_eq!(levenshtein_distance("cigure", "figure"), 1);
    assert_eq!(levenshtein_distance("kitten", "sitting"), 3);
    assert_eq!(levenshtein_distance("", "abc"), 3);
    assert_eq!(levenshtein_distance("abc", ""), 3);
    assert_eq!(levenshtein_distance("表格", "表"), 1);
}

#[test]
fn levenshtein_zero_exactly_for_equal_strings() {
    assert_eq!(levenshtein_distance("figure", "figure"), 0);
    assert_ne!(levenshtein_distance("figure", "figures"), 0);
}

#[test]
fn base36_two_digits() {
    assert_eq!(encode_base36_2(0), "00");
    assert_eq!(encode_base36_2(35), "0z");
    assert_eq!(encode_base36_2(36), "10");
    assert_eq!(encode_base36_2(1295), "zz");
}

#[test]
fn structured_names_use_the_sha1_first_byte() {
    // SHA-1("") starts with 0xda = 218 = 6 * 36 + 2
    assert_eq!(structured_image_name("ab", 3, b""), "ab0362");
    // SHA-1("abc") starts with 0xa9 = 169 = 4 * 36 + 25
    assert_eq!(structured_image_name("ab", 12, b"abc"), "ab124p");
}

#[test]
fn block_types_group_figures() {
    assert!(same_block_type("table", "table"));
    assert!(same_block_type("image", "chart"));
    assert!(same_block_type("interline_equation", "image"));
    assert!(!same_block_type("image", "table"));
}

#[test]
fn snippets_count_characters() {
    assert_eq!(desc_snippet("héllo", 2), "hé");
    assert_eq!(desc_snippet("abc", 10), "abc");
    assert_eq!(desc_snippet("abc", 0), "");
}

#[test]
fn caption_kind_mismatches() {
    assert!(is_caption_type_mismatch("F:3", "table"));
    assert!(is_caption_type_mismatch("T:1", "image"));
    assert!(is_caption_type_mismatch("T:1", "chart"));
    assert!(!is_caption_type_mismatch("F:3", "image"));
    assert!(!is_caption_type_mismatch("T:1", "table"));
}

#[test]
fn captions_are_recognised() {
    assert!(looks_like_caption("Figure 3: Overview"));
    assert!(looks_like_caption("Fig.1 results"));
    assert!(looks_like_caption("table2 shows"));
    assert!(looks_like_caption("cigure 5: noisy OCR"));
    assert!(looks_like_caption("(a) left panel"));
    assert!(looks_like_caption("Fig._9 something"));
    assert!(!looks_like_caption("future work is planned"));
    assert!(!looks_like_caption("The model"));
}

#[test]
fn caption_headers_need_a_number_and_suffix() {
    assert!(looks_like_caption_header("Figure 3: Overview"));
    assert!(looks_like_caption_header("Fig. 5. Results"));
    assert!(looks_like_caption_header("Table IV The results"));
    assert!(!looks_like_caption_header("Table 2 evaluates whether"));
    assert!(!looks_like_caption_header("Figure shows"));
}

#[test]
fn caption_numbers_are_normalised() {
    assert_eq!(extract_caption_number("Figure 5: x"), Some("F:5".to_string()));
    assert_eq!(extract_caption_number("Table 2 results"), Some("T:2".to_string()));
    assert_eq!(extract_caption_number("Fig. B.1 appendix"), Some("F:B.1".to_string()));
    assert_eq!(extract_caption_number("Figure 2.3 detail"), Some("F:2.3".to_string()));
    assert_eq!(extract_caption_number("Table iv"), Some("T:IV".to_string()));
    assert_eq!(extract_caption_number("no caption here"), None);
}

#[test]
fn sub_panel_and_numbered_labels() {
    assert!(has_sub_panel_label("(b) right"));
    assert!(has_sub_panel_label("(12)"));
    assert!(!has_sub_panel_label("b) right"));
    assert!(has_numbered_label("1. Introduction"));
    assert!(has_numbered_label("  12. Step "));
    assert!(!has_numbered_label("1.Introduction"));
}

#[test]
fn structure_labels_in_prompt_figures() {
    assert!(has_structure_label("[System] You are"));
    assert!(has_structure_label("Output: yes"));
    assert!(has_structure_label("USER: hello"));
    assert!(!has_structure_label("The user experience is important."));
}
