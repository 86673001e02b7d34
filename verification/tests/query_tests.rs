use ripple_reader::query::{
    insight_update_statement, order_clause, paper_update_statement, push_list_paper_filters,
    push_paper_filters, PaperUpdateMask, QueryPart, UpdateField, UpdatePart,
};

fn sql(s: &str) -> QueryPart {
    QueryPart::Sql(s.to_string())
}

fn bind(s: &str) -> QueryPart {
    QueryPart::Bind(s.to_string())
}

#[test]
fn no_filters_only_hide_deleted_papers() {
    let mut parts = Vec::new();
    push_paper_filters(&mut parts, &None, &None, &None, &None, &None, &None);
    assert_eq!(parts, vec![sql(" WHERE NOT EXISTS (SELECT 1 FROM deleted_papers dp WHERE dp.id = p.id) ")]);
}

#[test]
fn mark_tag_and_source_filters_bind_their_values() {
    let mut parts = vec![sql("SELECT 1 FROM papers p")];
    push_paper_filters(
        &mut parts,
        &None,
        &Some("critical".into()),
        &None,
        &Some("llm".into()),
        &None,
        &Some("arxiv".into()),
    );
    assert_eq!(
        parts,
        vec![
            sql("SELECT 1 FROM papers p"),
            sql(" JOIN paper_marks pm ON p.id = pm.paper_id "),
            sql(" WHERE NOT EXISTS (SELECT 1 FROM deleted_papers dp WHERE dp.id = p.id) "),
            sql(" AND pm.mark = "),
            bind("critical"),
            sql(" AND EXISTS (SELECT 1 FROM paper_tags pt WHERE pt.paper_id = p.id AND pt.tag = "),
            bind("llm"),
            sql(") "),
            sql(" AND p.source_type = "),
            bind("arxiv"),
        ]
    );
}

#[test]
fn unmarked_papers_use_an_outer_join() {
    let mut parts = Vec::new();
    push_paper_filters(&mut parts, &None, &Some("none".into()), &Some("has".into()), &None, &Some("none".into()), &None);
    assert_eq!(parts[0], sql(" LEFT JOIN paper_marks pm ON p.id = pm.paper_id "));
    assert_eq!(parts[2], sql(" AND pm.paper_id IS NULL "));
    assert_eq!(parts[3], sql(" AND pi.insight != '' AND pi.insight != '__ANALYZING__' "));
    assert_eq!(parts.len(), 8);
    assert_eq!(parts[7], sql(" AND pi.checked_at IS NULL "));
}

#[test]
fn search_binds_one_pattern_eight_times() {
    let mut parts = Vec::new();
    push_paper_filters(&mut parts, &Some("graph".into()), &None, &None, &None, &None, &None);
    let binds: Vec<&QueryPart> = parts.iter().filter(|p| matches!(p, QueryPart::Bind(_))).collect();
    assert_eq!(binds.len(), 8);
    assert!(binds.iter().all(|b| **b == bind("%graph%")));
    assert_eq!(parts.last(), Some(&sql(")) ")));
}

#[test]
fn full_list_knows_only_checked_and_unchecked() {
    let mut a = Vec::new();
    push_list_paper_filters(&mut a, &None, &None, &None, &None, &Some("has".into()), &None);
    assert_eq!(a.len(), 1);
    let mut b = Vec::new();
    push_list_paper_filters(&mut b, &None, &None, &None, &None, &Some("checked".into()), &None);
    assert_eq!(b[1], sql(" AND pi.checked_at IS NOT NULL "));
}

#[test]
fn sort_clauses() {
    assert_eq!(order_clause(&None, &None), " ORDER BY p.published DESC, p.id DESC");
    assert_eq!(order_clause(&Some("score".into()), &Some("asc".into())), " ORDER BY p.score ASC, p.id ASC");
    assert_eq!(order_clause(&Some("checked".into()), &Some("up".into())), " ORDER BY pi.checked_at DESC, p.id DESC");
    assert_eq!(order_clause(&Some("processed_at".into()), &None), " ORDER BY p.processed_at DESC, p.id DESC");
}

fn mask() -> PaperUpdateMask {
    PaperUpdateMask {
        title: false,
        score: false,
        paper_type: false,
        summary: false,
        abstract_text: false,
        insight: false,
        insight_processed_at: false,
        insight_review: false,
        insight_reviewed_at: false,
        checked_at: false,
        clear_checked_at: false,
    }
}

fn usql(s: &str) -> UpdatePart {
    UpdatePart::Sql(s.to_string())
}

#[test]
fn empty_update_runs_nothing() {
    assert_eq!(paper_update_statement(&mask()), None);
    assert_eq!(insight_update_statement(&mask()), None);
}

#[test]
fn paper_update_separates_assignments() {
    let mut m = mask();
    m.title = true;
    m.summary = true;
    assert_eq!(
        paper_update_statement(&m),
        Some(vec![
            usql("UPDATE papers SET "),
            usql("title = "),
            UpdatePart::Bind(UpdateField::Title),
            usql(", "),
            usql("summary = "),
            UpdatePart::Bind(UpdateField::Summary),
            usql(" WHERE id = "),
            UpdatePart::Bind(UpdateField::Id),
        ])
    );
}

#[test]
fn content_updates_spare_checked_insights() {
    let mut m = mask();
    m.insight = true;
    m.checked_at = true;
    assert_eq!(
        insight_update_statement(&m),
        Some(vec![
            usql("UPDATE paper_insights SET "),
            usql("insight = "),
            UpdatePart::Bind(UpdateField::Insight),
            usql(", "),
            usql("checked_at = "),
            UpdatePart::Bind(UpdateField::CheckedAt),
            usql(" WHERE paper_id = "),
            UpdatePart::Bind(UpdateField::Id),
            usql(" AND checked_at IS NULL"),
        ])
    );
}

#[test]
fn clearing_the_check_wins() {
    let mut m = mask();
    m.insight_review = true;
    m.checked_at = true;
    m.clear_checked_at = true;
    assert_eq!(
        insight_update_statement(&m),
        Some(vec![
            usql("UPDATE paper_insights SET "),
            usql("review = "),
            UpdatePart::Bind(UpdateField::InsightReview),
            usql(", "),
            usql("checked_at = NULL"),
            usql(" WHERE paper_id = "),
            UpdatePart::Bind(UpdateField::Id),
        ])
    );
}
