use ripple_reader::text::{
    insert_space_after_close_paren, is_valid_insight, normalize_insight_heading, normalize_text,
    normalize_text_convert_quotes, replace_double_quotes,
};

#[test]
fn close_paren_before_cjk_gets_a_space() {
    assert_eq!(normalize_text("Google (Alphabet)完成了"), "Google (Alphabet) 完成了");
    assert_eq!(insert_space_after_close_paren("(a)完"), "(a) 完");
    assert_eq!(insert_space_after_close_paren("(a)b"), "(a)b");
}

#[test]
fn cjk_and_ascii_runs_are_separated() {
    assert_eq!(normalize_text("使用GPT模型"), "使用 GPT 模型");
    assert_eq!(normalize_text("使用 GPT 模型"), "使用 GPT 模型");
    assert_eq!(normalize_text("3个"), "3 个");
}

#[test]
fn blank_runs_collapse_and_text_is_trimmed() {
    assert_eq!(normalize_text("a\n\n\n\nb"), "a\n\nb");
    assert_eq!(normalize_text("a\r\nb"), "a\nb");
    assert_eq!(normalize_text("  hello  "), "hello");
    assert_eq!(normalize_text(""), "");
}

#[test]
fn default_normalizer_keeps_quotes() {
    assert_eq!(normalize_text("他说\"你好\""), "他说\"你好\"");
}

#[test]
fn quotes_become_corner_brackets() {
    assert_eq!(normalize_text_convert_quotes("他说\"你好\""), "他说「你好」");
    assert_eq!(replace_double_quotes("\u{201C}x\u{201D}"), "「x」");
    assert_eq!(replace_double_quotes("\"open"), "「open");
}

#[test]
fn quotes_inside_html_tags_are_kept() {
    assert_eq!(
        replace_double_quotes("<div style=\"text-align:right\">\"a\"</div>"),
        "<div style=\"text-align:right\">「a」</div>"
    );
}

#[test]
fn insight_heading_becomes_blockquote() {
    assert_eq!(normalize_insight_heading("# Title"), "> Title");
    assert_eq!(normalize_insight_heading("  # Title"), "> Title");
    assert_eq!(normalize_insight_heading("## Title"), "## Title");
    assert_eq!(normalize_insight_heading("plain"), "plain");
}

#[test]
fn placeholder_insights_are_not_valid() {
    assert!(is_valid_insight("A real insight."));
    assert!(!is_valid_insight(""));
    assert!(!is_valid_insight("__ANALYZING__"));
    assert!(!is_valid_insight("Figure extraction failed: timeout"));
    assert!(!is_valid_insight("Insight failed"));
    assert!(!is_valid_insight("MinerU API not configured"));
}

#[test]
fn visible_characters_survive_normalization() {
    // every non-whitespace character of the input appears, in order
    let input = "  模型A(x)中\"q\"  ";
    let out = normalize_text(input);
    let kept: String = out.chars().filter(|c| !c.is_whitespace()).collect();
    let orig: String = input.chars().filter(|c| !c.is_whitespace()).collect();
    assert_eq!(kept, orig);
}

#[test]
fn insight_heading_normalisation_is_idempotent() {
    for s in ["# Title\nbody", "  # Title", "## Sub", "> quote", "", "#NoSpace"] {
        let once = normalize_insight_heading(s);
        assert_eq!(normalize_insight_heading(&once), once);
    }
}

#[test]
fn normalizing_twice_changes_nothing() {
    let inputs = [
        "  使用GPT模型 (v2)完成了\n\n\n\n3个结果  ",
        "Google (Alphabet)完成了",
        "a\n\n\n\nb",
        "\n\n\nx\n\n\n",
        "",
    ];
    for s in inputs {
        let once = normalize_text(s);
        assert_eq!(normalize_text(&once), once);
    }
}
