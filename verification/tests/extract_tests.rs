use ripple_reader::extract::{
    conclusion_match_level, extract_header, extract_sections, find_next_stop, intro_match_level,
    split_paragraphs, SectionChoice,
};

const PAPER: &str = "Title\nAuthors\n\nAbstract\n\nWe study x.\n\n1 Introduction\n\nIntro para.\n\n2 Method\n\nMethod text.\n\n5 Conclusion\n\nWe conclude.\n\nReferences\n\n[1] ref";

#[test]
fn paragraphs_join_lines_and_drop_blanks() {
    assert_eq!(split_paragraphs("a\nb\n\n  c  \n\n\n"), vec!["a b".to_string(), "c".to_string()]);
    assert_eq!(split_paragraphs(""), Vec::<String>::new());
    assert_eq!(split_paragraphs(PAPER).len(), 11);
}

#[test]
fn next_stop_finds_method_sections() {
    let ps = split_paragraphs(PAPER);
    assert_eq!(find_next_stop(&ps, 4), 5);
    assert_eq!(find_next_stop(&ps, 8), 9);
    assert_eq!(find_next_stop(&ps, 10), 11);
    assert_eq!(find_next_stop(&ps, 20), 11);
}

#[test]
fn match_levels() {
    assert_eq!(intro_match_level("1 Introduction"), 3);
    assert_eq!(intro_match_level("Background on the task"), 2);
    assert_eq!(intro_match_level("Related work and more"), 1);
    assert_eq!(intro_match_level("Nothing here"), 0);
    assert_eq!(conclusion_match_level("Conclusions"), 3);
    assert_eq!(conclusion_match_level("Discussion of results"), 2);
    assert_eq!(conclusion_match_level("Future work items"), 1);
    assert_eq!(conclusion_match_level("Method"), 0);
}

#[test]
fn header_stops_at_the_abstract() {
    assert_eq!(extract_header(PAPER), "Title\nAuthors\n");
    assert_eq!(extract_header("A\nB"), "A\nB");
}

#[test]
fn sections_from_the_best_paragraphs() {
    let choice = SectionChoice {
        best_intro: Some(3),
        best_conclusion: Some(7),
        intro_fallback: 2,
        conclusion_fallback: 2,
    };
    let s = extract_sections(PAPER, &choice);
    assert_eq!(s.intro, "1 Introduction\n\nIntro para.");
    assert_eq!(s.conclusion, "5 Conclusion\n\nWe conclude.");
    assert_eq!(s.header, "Title\nAuthors\n");
}

#[test]
fn sections_fall_back_to_the_ends() {
    let choice = SectionChoice {
        best_intro: None,
        best_conclusion: None,
        intro_fallback: 2,
        conclusion_fallback: 2,
    };
    let s = extract_sections(PAPER, &choice);
    assert_eq!(s.intro, "Title Authors\n\nAbstract");
    assert_eq!(s.conclusion, "References\n\n[1] ref");
}

#[test]
fn intro_is_at_least_one_paragraph() {
    // a conclusion picked before the introduction does not end it
    let choice = SectionChoice {
        best_intro: Some(4),
        best_conclusion: Some(1),
        intro_fallback: 0,
        conclusion_fallback: 0,
    };
    let s = extract_sections(PAPER, &choice);
    assert_eq!(s.intro, "Intro para.");
    assert_eq!(s.conclusion, "Abstract\n\nWe study x.\n\n1 Introduction\n\nIntro para.");
}

#[test]
fn sections_are_runs_of_paragraphs() {
    let ps = split_paragraphs(PAPER);
    let choice = SectionChoice {
        best_intro: Some(3),
        best_conclusion: None,
        intro_fallback: 2,
        conclusion_fallback: 1,
    };
    let s = extract_sections(PAPER, &choice);
    assert_eq!(s.intro, ps[3..5].join("\n\n"));
    assert_eq!(s.conclusion, ps[ps.len() - 1..].join("\n\n"));
    assert!(s.header.chars().count() <= 5000);
}

#[test]
fn header_is_the_start_of_the_text() {
    let h = extract_header(PAPER);
    assert!(PAPER.starts_with(h.as_str()));
    assert_eq!(h, "Title\nAuthors\n");
    let long = "x".repeat(6000);
    let h = extract_header(&long);
    assert_eq!(h.chars().count(), 5000);
    assert!(long.starts_with(h.as_str()));
}
