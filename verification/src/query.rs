//! The filter clauses of the paper list query, as a sequence of SQL text
//! pieces and bound parameters that the caller hands to its query builder.
use vstd::prelude::*;
use crate::chars::{extend_chars, string_from_chars, to_chars};
use crate::mineru::str_eq;

verus! {

/// A piece of a query: SQL text, or a parameter bound at that place.
#[derive(Debug, Clone, PartialEq, Eq)]
pub enum QueryPart {
    Sql(String),
    Bind(String),
}

pub enum QueryPartView {
    Sql(Seq<char>),
    Bind(Seq<char>),
}

impl View for QueryPart {
    type V = QueryPartView;

    open spec fn view(&self) -> QueryPartView {
        match self {
            QueryPart::Sql(s) => QueryPartView::Sql(s@),
            QueryPart::Bind(s) => QueryPartView::Bind(s@),
        }
    }
}

pub open spec fn part_views(v: Seq<QueryPart>) -> Seq<QueryPartView> {
    v.map_values(|p: QueryPart| p@)
}

pub open spec fn opt_text(o: Option<String>) -> Option<Seq<char>> {
    match o {
        Some(s) => Some(s@),
        None => None,
    }
}

pub open spec fn sql(s: &str) -> QueryPartView {
    QueryPartView::Sql(s@)
}

/// The join a mark filter needs: none without a filter, an outer join for
/// papers without a mark, an inner join otherwise.
pub open spec fn mark_join(mark: Option<Seq<char>>) -> Seq<QueryPartView> {
    match mark {
        Some(m) => if m == "none"@ {
            seq![sql(" LEFT JOIN paper_marks pm ON p.id = pm.paper_id ")]
        } else {
            seq![sql(" JOIN paper_marks pm ON p.id = pm.paper_id ")]
        },
        None => Seq::empty(),
    }
}

pub open spec fn mark_condition(mark: Option<Seq<char>>) -> Seq<QueryPartView> {
    match mark {
        Some(m) => if m == "none"@ {
            seq![sql(" AND pm.paper_id IS NULL ")]
        } else {
            seq![sql(" AND pm.mark = "), QueryPartView::Bind(m)]
        },
        None => Seq::empty(),
    }
}

/// `has`: papers with a real insight; `none`: papers without one (empty,
/// in progress or an error placeholder).
pub open spec fn insight_condition(insight: Option<Seq<char>>) -> Seq<QueryPartView> {
    match insight {
        Some(f) => if f == "has"@ {
            seq![
                sql(" AND pi.insight != '' AND pi.insight != '__ANALYZING__' "),
                sql(" AND pi.insight NOT LIKE 'Figure extraction failed%' "),
                sql(" AND pi.insight NOT LIKE 'Insight failed%' "),
                sql(" AND pi.insight NOT LIKE 'MinerU API not configured%' "),
            ]
        } else if f == "none"@ {
            seq![
                sql(" AND (pi.insight IS NULL OR pi.insight = '' OR pi.insight = '__ANALYZING__' "),
                sql(" OR pi.insight LIKE 'Figure extraction failed%' "),
                sql(" OR pi.insight LIKE 'Insight failed%' "),
                sql(" OR pi.insight LIKE 'MinerU API not configured%') "),
            ]
        } else {
            Seq::empty()
        },
        None => Seq::empty(),
    }
}

pub open spec fn tag_condition(tag: Option<Seq<char>>) -> Seq<QueryPartView> {
    match tag {
        Some(t) => seq![
            sql(" AND EXISTS (SELECT 1 FROM paper_tags pt WHERE pt.paper_id = p.id AND pt.tag = "),
            QueryPartView::Bind(t),
            sql(") "),
        ],
        None => Seq::empty(),
    }
}

pub open spec fn checked_condition(checked: Option<Seq<char>>) -> Seq<QueryPartView> {
    match checked {
        Some(c) => if c == "checked"@ || c == "has"@ {
            seq![sql(" AND pi.checked_at IS NOT NULL ")]
        } else if c == "unchecked"@ || c == "none"@ {
            seq![sql(" AND pi.checked_at IS NULL ")]
        } else {
            Seq::empty()
        },
        None => Seq::empty(),
    }
}

pub open spec fn source_condition(source: Option<Seq<char>>) -> Seq<QueryPartView> {
    match source {
        Some(s) => seq![sql(" AND p.source_type = "), QueryPartView::Bind(s)],
        None => Seq::empty(),
    }
}

/// The search: the pattern `%<text>%` matched case-insensitively against
/// the id, title, summary, abstract, authors, insight, review and tags.
pub open spec fn search_condition(search: Option<Seq<char>>) -> Seq<QueryPartView> {
    match search {
        Some(s) => {
            let p = QueryPartView::Bind(seq!['%'] + s + seq!['%']);
            seq![
                sql(" AND (p.id ILIKE "),
                p,
                sql(" OR p.title ILIKE "),
                p,
                sql(" OR p.summary ILIKE "),
                p,
                sql(" OR p.abstract ILIKE "),
                p,
                sql(" OR p.authors::text ILIKE "),
                p,
                sql(" OR pi.insight ILIKE "),
                p,
                sql(" OR pi.review ILIKE "),
                p,
                sql(" OR EXISTS (SELECT 1 FROM paper_tags pt WHERE pt.paper_id = p.id AND pt.tag ILIKE "),
                p,
                sql(")) "),
            ]
        },
        None => Seq::empty(),
    }
}

/// All filter pieces, in the order they are added to the query.
pub open spec fn filter_parts(
    search: Option<Seq<char>>,
    mark: Option<Seq<char>>,
    insight: Option<Seq<char>>,
    tag: Option<Seq<char>>,
    checked: Option<Seq<char>>,
    source: Option<Seq<char>>,
) -> Seq<QueryPartView> {
    mark_join(mark) + seq![sql(" WHERE NOT EXISTS (SELECT 1 FROM deleted_papers dp WHERE dp.id = p.id) ")]
        + mark_condition(mark) + insight_condition(insight) + tag_condition(tag) + checked_condition(checked)
        + source_condition(source) + search_condition(search)
}

fn push_sql(parts: &mut Vec<QueryPart>, s: &str)
    ensures
        part_views(final(parts)@) == part_views(old(parts)@).push(sql(s)),
{
    parts.push(QueryPart::Sql(s.to_owned()));
    assert(part_views(parts@) =~= part_views(old(parts)@).push(sql(s)));
}

fn push_bind(parts: &mut Vec<QueryPart>, s: &String)
    ensures
        part_views(final(parts)@) == part_views(old(parts)@).push(QueryPartView::Bind(s@)),
{
    parts.push(QueryPart::Bind(s.clone()));
    assert(part_views(parts@) =~= part_views(old(parts)@).push(QueryPartView::Bind(s@)));
}

fn push_mark_join(parts: &mut Vec<QueryPart>, mark: &Option<String>)
    ensures
        part_views(final(parts)@) == part_views(old(parts)@) + mark_join(opt_text(*mark)),
{
    let ghost start = part_views(parts@);
    match mark {
        Some(m) => {
            if str_eq(m.as_str(), "none") {
                push_sql(parts, " LEFT JOIN paper_marks pm ON p.id = pm.paper_id ");
            } else {
                push_sql(parts, " JOIN paper_marks pm ON p.id = pm.paper_id ");
            }
        },
        None => {},
    }
    assert(part_views(parts@) =~= start + mark_join(opt_text(*mark)));
}

fn push_mark_condition(parts: &mut Vec<QueryPart>, mark: &Option<String>)
    ensures
        part_views(final(parts)@) == part_views(old(parts)@) + mark_condition(opt_text(*mark)),
{
    let ghost start = part_views(parts@);
    match mark {
        Some(m) => {
            if str_eq(m.as_str(), "none") {
                push_sql(parts, " AND pm.paper_id IS NULL ");
            } else {
                push_sql(parts, " AND pm.mark = ");
                push_bind(parts, m);
            }
        },
        None => {},
    }
    assert(part_views(parts@) =~= start + mark_condition(opt_text(*mark)));
}

fn push_insight_condition(parts: &mut Vec<QueryPart>, insight: &Option<String>)
    ensures
        part_views(final(parts)@) == part_views(old(parts)@) + insight_condition(opt_text(*insight)),
{
    let ghost start = part_views(parts@);
    match insight {
        Some(f) => {
            if str_eq(f.as_str(), "has") {
                push_sql(parts, " AND pi.insight != '' AND pi.insight != '__ANALYZING__' ");
                push_sql(parts, " AND pi.insight NOT LIKE 'Figure extraction failed%' ");
                push_sql(parts, " AND pi.insight NOT LIKE 'Insight failed%' ");
                push_sql(parts, " AND pi.insight NOT LIKE 'MinerU API not configured%' ");
            } else if str_eq(f.as_str(), "none") {
                push_sql(parts, " AND (pi.insight IS NULL OR pi.insight = '' OR pi.insight = '__ANALYZING__' ");
                push_sql(parts, " OR pi.insight LIKE 'Figure extraction failed%' ");
                push_sql(parts, " OR pi.insight LIKE 'Insight failed%' ");
                push_sql(parts, " OR pi.insight LIKE 'MinerU API not configured%') ");
            }
        },
        None => {},
    }
    assert(part_views(parts@) =~= start + insight_condition(opt_text(*insight)));
}

fn push_tag_condition(parts: &mut Vec<QueryPart>, tag: &Option<String>)
    ensures
        part_views(final(parts)@) == part_views(old(parts)@) + tag_condition(opt_text(*tag)),
{
    let ghost start = part_views(parts@);
    match tag {
        Some(t) => {
            push_sql(parts, " AND EXISTS (SELECT 1 FROM paper_tags pt WHERE pt.paper_id = p.id AND pt.tag = ");
            push_bind(parts, t);
            push_sql(parts, ") ");
        },
        None => {},
    }
    assert(part_views(parts@) =~= start + tag_condition(opt_text(*tag)));
}

fn push_checked_condition(parts: &mut Vec<QueryPart>, checked: &Option<String>)
    ensures
        part_views(final(parts)@) == part_views(old(parts)@) + checked_condition(opt_text(*checked)),
{
    let ghost start = part_views(parts@);
    match checked {
        Some(k) => {
            if str_eq(k.as_str(), "checked") || str_eq(k.as_str(), "has") {
                push_sql(parts, " AND pi.checked_at IS NOT NULL ");
            } else if str_eq(k.as_str(), "unchecked") || str_eq(k.as_str(), "none") {
                push_sql(parts, " AND pi.checked_at IS NULL ");
            }
        },
        None => {},
    }
    assert(part_views(parts@) =~= start + checked_condition(opt_text(*checked)));
}

fn push_source_condition(parts: &mut Vec<QueryPart>, source: &Option<String>)
    ensures
        part_views(final(parts)@) == part_views(old(parts)@) + source_condition(opt_text(*source)),
{
    let ghost start = part_views(parts@);
    match source {
        Some(s) => {
            push_sql(parts, " AND p.source_type = ");
            push_bind(parts, s);
        },
        None => {},
    }
    assert(part_views(parts@) =~= start + source_condition(opt_text(*source)));
}

fn push_search_condition(parts: &mut Vec<QueryPart>, search: &Option<String>)
    ensures
        part_views(final(parts)@) == part_views(old(parts)@) + search_condition(opt_text(*search)),
{
    let ghost start = part_views(parts@);
    match search {
        Some(s) => {
            let mut v = to_chars("%");
            extend_chars(&mut v, &to_chars(s.as_str()));
            v.push('%');
            let pattern = string_from_chars(&v);
            proof {
                reveal_strlit("%");
                assert(pattern@ =~= seq!['%'] + s@ + seq!['%']);
            }
            push_sql(parts, " AND (p.id ILIKE ");
            push_bind(parts, &pattern);
            push_sql(parts, " OR p.title ILIKE ");
            push_bind(parts, &pattern);
            push_sql(parts, " OR p.summary ILIKE ");
            push_bind(parts, &pattern);
            push_sql(parts, " OR p.abstract ILIKE ");
            push_bind(parts, &pattern);
            push_sql(parts, " OR p.authors::text ILIKE ");
            push_bind(parts, &pattern);
            push_sql(parts, " OR pi.insight ILIKE ");
            push_bind(parts, &pattern);
            push_sql(parts, " OR pi.review ILIKE ");
            push_bind(parts, &pattern);
            push_sql(parts, " OR EXISTS (SELECT 1 FROM paper_tags pt WHERE pt.paper_id = p.id AND pt.tag ILIKE ");
            push_bind(parts, &pattern);
            push_sql(parts, ")) ");
        },
        None => {},
    }
    assert(part_views(parts@) =~= start + search_condition(opt_text(*search)));
}

/// Appends the filter clauses of the paper list query to `parts`.
pub fn push_paper_filters(
    parts: &mut Vec<QueryPart>,
    search: &Option<String>,
    mark_filter: &Option<String>,
    insight_filter: &Option<String>,
    tag_filter: &Option<String>,
    checked_filter: &Option<String>,
    source_type_filter: &Option<String>,
)
    ensures
        part_views(final(parts)@) == part_views(old(parts)@) + filter_parts(
            opt_text(*search),
            opt_text(*mark_filter),
            opt_text(*insight_filter),
            opt_text(*tag_filter),
            opt_text(*checked_filter),
            opt_text(*source_type_filter),
        ),
{
    let ghost start = part_views(parts@);
    push_mark_join(parts, mark_filter);
    push_sql(parts, " WHERE NOT EXISTS (SELECT 1 FROM deleted_papers dp WHERE dp.id = p.id) ");
    push_mark_condition(parts, mark_filter);
    push_insight_condition(parts, insight_filter);
    push_tag_condition(parts, tag_filter);
    push_checked_condition(parts, checked_filter);
    push_source_condition(parts, source_type_filter);
    push_search_condition(parts, search);
    assert(part_views(parts@) =~= start + filter_parts(
        opt_text(*search),
        opt_text(*mark_filter),
        opt_text(*insight_filter),
        opt_text(*tag_filter),
        opt_text(*checked_filter),
        opt_text(*source_type_filter),
    ));
}

/// The checked filter of the full paper list, which knows only `checked`
/// and `unchecked`.
pub open spec fn strict_checked_condition(checked: Option<Seq<char>>) -> Seq<QueryPartView> {
    match checked {
        Some(c) => if c == "checked"@ {
            seq![sql(" AND pi.checked_at IS NOT NULL ")]
        } else if c == "unchecked"@ {
            seq![sql(" AND pi.checked_at IS NULL ")]
        } else {
            Seq::empty()
        },
        None => Seq::empty(),
    }
}

/// The filter pieces of the full paper list.
pub open spec fn list_filter_parts(
    search: Option<Seq<char>>,
    mark: Option<Seq<char>>,
    insight: Option<Seq<char>>,
    tag: Option<Seq<char>>,
    checked: Option<Seq<char>>,
    source: Option<Seq<char>>,
) -> Seq<QueryPartView> {
    mark_join(mark) + seq![sql(" WHERE NOT EXISTS (SELECT 1 FROM deleted_papers dp WHERE dp.id = p.id) ")]
        + mark_condition(mark) + insight_condition(insight) + tag_condition(tag) + strict_checked_condition(checked)
        + source_condition(source) + search_condition(search)
}

fn push_strict_checked_condition(parts: &mut Vec<QueryPart>, checked: &Option<String>)
    ensures
        part_views(final(parts)@) == part_views(old(parts)@) + strict_checked_condition(opt_text(*checked)),
{
    let ghost start = part_views(parts@);
    match checked {
        Some(k) => {
            if str_eq(k.as_str(), "checked") {
                push_sql(parts, " AND pi.checked_at IS NOT NULL ");
            } else if str_eq(k.as_str(), "unchecked") {
                push_sql(parts, " AND pi.checked_at IS NULL ");
            }
        },
        None => {},
    }
    assert(part_views(parts@) =~= start + strict_checked_condition(opt_text(*checked)));
}

/// Appends the filter clauses of the full paper list query to `parts`.
pub fn push_list_paper_filters(
    parts: &mut Vec<QueryPart>,
    search: &Option<String>,
    mark_filter: &Option<String>,
    insight_filter: &Option<String>,
    tag_filter: &Option<String>,
    checked_filter: &Option<String>,
    source_type_filter: &Option<String>,
)
    ensures
        part_views(final(parts)@) == part_views(old(parts)@) + list_filter_parts(
            opt_text(*search),
            opt_text(*mark_filter),
            opt_text(*insight_filter),
            opt_text(*tag_filter),
            opt_text(*checked_filter),
            opt_text(*source_type_filter),
        ),
{
    let ghost start = part_views(parts@);
    push_mark_join(parts, mark_filter);
    push_sql(parts, " WHERE NOT EXISTS (SELECT 1 FROM deleted_papers dp WHERE dp.id = p.id) ");
    push_mark_condition(parts, mark_filter);
    push_insight_condition(parts, insight_filter);
    push_tag_condition(parts, tag_filter);
    push_strict_checked_condition(parts, checked_filter);
    push_source_condition(parts, source_type_filter);
    push_search_condition(parts, search);
    assert(part_views(parts@) =~= start + list_filter_parts(
        opt_text(*search),
        opt_text(*mark_filter),
        opt_text(*insight_filter),
        opt_text(*tag_filter),
        opt_text(*checked_filter),
        opt_text(*source_type_filter),
    ));
}

/// The column the paper list is sorted by.
pub open spec fn sort_column(sort: Option<Seq<char>>) -> Seq<char> {
    match sort {
        Some(s) => if s == "processed_at"@ {
            "p.processed_at"@
        } else if s == "score"@ {
            "p.score"@
        } else if s == "checked"@ {
            "pi.checked_at"@
        } else {
            "p.published"@
        },
        None => "p.published"@,
    }
}

/// Ascending only when asked for; descending otherwise.
pub open spec fn sort_direction(order: Option<Seq<char>>) -> Seq<char> {
    if order == Some("asc"@) {
        "ASC"@
    } else {
        "DESC"@
    }
}

/// ` ORDER BY <column> <direction>, p.id <direction>`.
pub open spec fn order_by(sort: Option<Seq<char>>, order: Option<Seq<char>>) -> Seq<char> {
    " ORDER BY "@ + sort_column(sort) + seq![' '] + sort_direction(order) + ", p.id "@ + sort_direction(order)
}

/// The sort clause of the paper list.
pub fn order_clause(sort: &Option<String>, order: &Option<String>) -> (r: String)
    ensures
        r@ == order_by(opt_text(*sort), opt_text(*order)),
{
    let col: &str = match sort {
        Some(s) => if str_eq(s.as_str(), "processed_at") {
            "p.processed_at"
        } else if str_eq(s.as_str(), "score") {
            "p.score"
        } else if str_eq(s.as_str(), "checked") {
            "pi.checked_at"
        } else {
            "p.published"
        },
        None => "p.published",
    };
    let asc = match order {
        Some(o) => str_eq(o.as_str(), "asc"),
        None => false,
    };
    let dir: &str = if asc { "ASC" } else { "DESC" };
    assert(dir@ == sort_direction(opt_text(*order)));
    let mut v = to_chars(" ORDER BY ");
    extend_chars(&mut v, &to_chars(col));
    v.push(' ');
    extend_chars(&mut v, &to_chars(dir));
    extend_chars(&mut v, &to_chars(", p.id "));
    extend_chars(&mut v, &to_chars(dir));
    let r = string_from_chars(&v);
    assert(r@ =~= order_by(opt_text(*sort), opt_text(*order)));
    r
}

// ---------------------------------------------------------------------------
// Updating a paper.
// ---------------------------------------------------------------------------

/// Which fields an update of a paper sets.
#[derive(Debug, Clone, Copy)]
pub struct PaperUpdateMask {
    pub title: bool,
    pub score: bool,
    pub paper_type: bool,
    pub summary: bool,
    pub abstract_text: bool,
    pub insight: bool,
    pub insight_processed_at: bool,
    pub insight_review: bool,
    pub insight_reviewed_at: bool,
    pub checked_at: bool,
    /// Set `checked_at` to NULL (this wins over `checked_at`).
    pub clear_checked_at: bool,
}

/// The value bound at a place of an update statement.
#[derive(Debug, Clone, Copy, PartialEq, Eq)]
pub enum UpdateField {
    Title,
    Score,
    PaperType,
    Summary,
    Abstract,
    Insight,
    InsightProcessedAt,
    InsightReview,
    InsightReviewedAt,
    CheckedAt,
    Id,
}

/// A piece of an update statement: SQL text, or the value of a field.
#[derive(Debug, Clone, PartialEq, Eq)]
pub enum UpdatePart {
    Sql(String),
    Bind(UpdateField),
}

pub enum UpdatePartView {
    Sql(Seq<char>),
    Bind(UpdateField),
}

impl View for UpdatePart {
    type V = UpdatePartView;

    open spec fn view(&self) -> UpdatePartView {
        match self {
            UpdatePart::Sql(s) => UpdatePartView::Sql(s@),
            UpdatePart::Bind(f) => UpdatePartView::Bind(*f),
        }
    }
}

pub open spec fn update_views(v: Seq<UpdatePart>) -> Seq<UpdatePartView> {
    v.map_values(|p: UpdatePart| p@)
}

pub open spec fn usql(s: &str) -> UpdatePartView {
    UpdatePartView::Sql(s@)
}

/// The assignments of the given items, separated by `, `; `sep` tells
/// whether one was written before.
pub open spec fn assignments(items: Seq<(bool, Seq<UpdatePartView>)>, sep: bool) -> Seq<UpdatePartView>
    decreases items.len(),
{
    if items.len() == 0 {
        Seq::empty()
    } else if items[0].0 {
        (if sep { seq![usql(", ")] } else { Seq::empty() }) + items[0].1 + assignments(items.skip(1), true)
    } else {
        assignments(items.skip(1), sep)
    }
}

pub open spec fn assign(col: &str, f: UpdateField) -> Seq<UpdatePartView> {
    seq![usql(col), UpdatePartView::Bind(f)]
}

pub open spec fn paper_items(m: PaperUpdateMask) -> Seq<(bool, Seq<UpdatePartView>)> {
    seq![
        (m.title, assign("title = ", UpdateField::Title)),
        (m.score, assign("score = ", UpdateField::Score)),
        (m.paper_type, assign("paper_type = ", UpdateField::PaperType)),
        (m.summary, assign("summary = ", UpdateField::Summary)),
        (m.abstract_text, assign("abstract = ", UpdateField::Abstract)),
    ]
}

pub open spec fn insight_items(m: PaperUpdateMask) -> Seq<(bool, Seq<UpdatePartView>)> {
    seq![
        (m.insight, assign("insight = ", UpdateField::Insight)),
        (m.insight_processed_at, assign("processed_at = ", UpdateField::InsightProcessedAt)),
        (m.insight_review, assign("review = ", UpdateField::InsightReview)),
        (m.insight_reviewed_at, assign("reviewed_at = ", UpdateField::InsightReviewedAt)),
        (m.clear_checked_at, seq![usql("checked_at = NULL")]),
        (!m.clear_checked_at && m.checked_at, assign("checked_at = ", UpdateField::CheckedAt)),
    ]
}

/// The statement that updates the paper row, when any of its fields is set.
pub open spec fn paper_statement(m: PaperUpdateMask) -> Option<Seq<UpdatePartView>> {
    if m.title || m.score || m.paper_type || m.summary || m.abstract_text {
        Some(seq![usql("UPDATE papers SET ")] + assignments(paper_items(m), false) + seq![
            usql(" WHERE id = "),
            UpdatePartView::Bind(UpdateField::Id),
        ])
    } else {
        None
    }
}

/// The statement that updates the insight row, when any of its fields is
/// set. A content update leaves a checked insight alone unless it clears
/// the check.
pub open spec fn insight_statement(m: PaperUpdateMask) -> Option<Seq<UpdatePartView>> {
    let content = m.insight || m.insight_processed_at || m.insight_review || m.insight_reviewed_at;
    if content || m.clear_checked_at || m.checked_at {
        Some(seq![usql("UPDATE paper_insights SET ")] + assignments(insight_items(m), false) + seq![
            usql(" WHERE paper_id = "),
            UpdatePartView::Bind(UpdateField::Id),
        ] + if content && !m.clear_checked_at {
            seq![usql(" AND checked_at IS NULL")]
        } else {
            Seq::empty()
        })
    } else {
        None
    }
}

fn sql_part(s: &str) -> (r: UpdatePart)
    ensures
        r@ == usql(s),
{
    UpdatePart::Sql(s.to_owned())
}

fn copy_part(p: &UpdatePart) -> (r: UpdatePart)
    ensures
        r@ == p@,
{
    match p {
        UpdatePart::Sql(s) => UpdatePart::Sql(s.clone()),
        UpdatePart::Bind(f) => UpdatePart::Bind(*f),
    }
}

fn assign_parts(col: &str, f: UpdateField) -> (r: Vec<UpdatePart>)
    ensures
        update_views(r@) == assign(col, f),
{
    let mut v: Vec<UpdatePart> = Vec::new();
    v.push(sql_part(col));
    v.push(UpdatePart::Bind(f));
    assert(update_views(v@) =~= assign(col, f));
    v
}

pub open spec fn item_views(items: Seq<(bool, Vec<UpdatePart>)>) -> Seq<(bool, Seq<UpdatePartView>)> {
    items.map_values(|it: (bool, Vec<UpdatePart>)| (it.0, update_views(it.1@)))
}

fn push_assignments(out: &mut Vec<UpdatePart>, items: &Vec<(bool, Vec<UpdatePart>)>)
    ensures
        update_views(final(out)@) == update_views(old(out)@) + assignments(item_views(items@), false),
{
    let ghost start = update_views(out@);
    let ghost iv = item_views(items@);
    let mut sep = false;
    let mut i: usize = 0;
    assert(iv.skip(0) =~= iv);
    while i < items.len()
        invariant
            i <= items.len(),
            iv == item_views(items@),
            update_views(out@) + assignments(iv.skip(i as int), sep) == start + assignments(iv, false),
        decreases items.len() - i,
    {
        let ghost rest = iv.skip(i as int);
        assert(rest[0] == iv[i as int]);
        assert(rest.skip(1) =~= iv.skip(i + 1));
        if items[i].0 {
            let ghost before = update_views(out@);
            if sep {
                out.push(sql_part(", "));
            }
            let ghost mid = update_views(out@);
            assert(mid =~= before + (if sep { seq![usql(", ")] } else { Seq::empty() }));
            let parts = &items[i].1;
            for j in 0..parts.len()
                invariant
                    update_views(out@) == mid + update_views(parts@).take(j as int),
            {
                let ghost prev = update_views(out@);
                let part = copy_part(&parts[j]);
                out.push(part);
                assert(update_views(parts@)[j as int] == parts@[j as int]@);
                assert(update_views(out@) =~= prev.push(parts@[j as int]@));
                assert(update_views(parts@).take(j + 1) =~= update_views(parts@).take(j as int).push(parts@[j as int]@));
                assert(update_views(out@) =~= mid + update_views(parts@).take(j + 1));
            }
            assert(update_views(parts@).take(parts.len() as int) =~= update_views(parts@));
            assert(iv[i as int].1 == update_views(parts@));
            sep = true;
        }
        i += 1;
    }
}

/// The statement that updates the paper row, if any field of it is set.
pub fn paper_update_statement(m: &PaperUpdateMask) -> (r: Option<Vec<UpdatePart>>)
    ensures
        match r {
            Some(v) => paper_statement(*m) == Some(update_views(v@)),
            None => paper_statement(*m) is None,
        },
{
    if !(m.title || m.score || m.paper_type || m.summary || m.abstract_text) {
        return None;
    }
    let mut items: Vec<(bool, Vec<UpdatePart>)> = Vec::new();
    items.push((m.title, assign_parts("title = ", UpdateField::Title)));
    items.push((m.score, assign_parts("score = ", UpdateField::Score)));
    items.push((m.paper_type, assign_parts("paper_type = ", UpdateField::PaperType)));
    items.push((m.summary, assign_parts("summary = ", UpdateField::Summary)));
    items.push((m.abstract_text, assign_parts("abstract = ", UpdateField::Abstract)));
    assert(item_views(items@) =~= paper_items(*m));
    let mut out: Vec<UpdatePart> = Vec::new();
    out.push(sql_part("UPDATE papers SET "));
    assert(update_views(out@) =~= seq![usql("UPDATE papers SET ")]);
    push_assignments(&mut out, &items);
    let ghost a = update_views(out@);
    out.push(sql_part(" WHERE id = "));
    out.push(UpdatePart::Bind(UpdateField::Id));
    assert(update_views(out@) =~= a + seq![usql(" WHERE id = "), UpdatePartView::Bind(UpdateField::Id)]);
    assert(update_views(out@) =~= seq![usql("UPDATE papers SET ")] + assignments(paper_items(*m), false) + seq![
        usql(" WHERE id = "),
        UpdatePartView::Bind(UpdateField::Id),
    ]);
    Some(out)
}

/// The statement that updates the insight row, if any field of it is set.
pub fn insight_update_statement(m: &PaperUpdateMask) -> (r: Option<Vec<UpdatePart>>)
    ensures
        match r {
            Some(v) => insight_statement(*m) == Some(update_views(v@)),
            None => insight_statement(*m) is None,
        },
{
    let content = m.insight || m.insight_processed_at || m.insight_review || m.insight_reviewed_at;
    if !(content || m.clear_checked_at || m.checked_at) {
        return None;
    }
    let mut clear: Vec<UpdatePart> = Vec::new();
    clear.push(sql_part("checked_at = NULL"));
    assert(update_views(clear@) =~= seq![usql("checked_at = NULL")]);
    let mut items: Vec<(bool, Vec<UpdatePart>)> = Vec::new();
    items.push((m.insight, assign_parts("insight = ", UpdateField::Insight)));
    items.push((m.insight_processed_at, assign_parts("processed_at = ", UpdateField::InsightProcessedAt)));
    items.push((m.insight_review, assign_parts("review = ", UpdateField::InsightReview)));
    items.push((m.insight_reviewed_at, assign_parts("reviewed_at = ", UpdateField::InsightReviewedAt)));
    items.push((m.clear_checked_at, clear));
    items.push((!m.clear_checked_at && m.checked_at, assign_parts("checked_at = ", UpdateField::CheckedAt)));
    assert(item_views(items@) =~= insight_items(*m));
    let mut out: Vec<UpdatePart> = Vec::new();
    out.push(sql_part("UPDATE paper_insights SET "));
    assert(update_views(out@) =~= seq![usql("UPDATE paper_insights SET ")]);
    push_assignments(&mut out, &items);
    let ghost a = update_views(out@);
    out.push(sql_part(" WHERE paper_id = "));
    out.push(UpdatePart::Bind(UpdateField::Id));
    let ghost base = update_views(out@);
    assert(base =~= a + seq![usql(" WHERE paper_id = "), UpdatePartView::Bind(UpdateField::Id)]);
    if content && !m.clear_checked_at {
        out.push(sql_part(" AND checked_at IS NULL"));
        assert(update_views(out@) =~= base + seq![usql(" AND checked_at IS NULL")]);
    } else {
        assert(update_views(out@) =~= base + Seq::<UpdatePartView>::empty());
    }
    assert(update_views(out@) =~= seq![usql("UPDATE paper_insights SET ")] + assignments(insight_items(*m), false) + seq![
        usql(" WHERE paper_id = "),
        UpdatePartView::Bind(UpdateField::Id),
    ] + if content && !m.clear_checked_at {
        seq![usql(" AND checked_at IS NULL")]
    } else {
        Seq::<UpdatePartView>::empty()
    });
    Some(out)
}


/// The column tests that a search adds, each followed by the bound pattern.
pub open spec fn searched_columns(k: int) -> Seq<char> {
    if k == 0 {
        " AND (p.id ILIKE "@
    } else if k == 1 {
        " OR p.title ILIKE "@
    } else if k == 2 {
        " OR p.summary ILIKE "@
    } else if k == 3 {
        " OR p.abstract ILIKE "@
    } else if k == 4 {
        " OR p.authors::text ILIKE "@
    } else if k == 5 {
        " OR pi.insight ILIKE "@
    } else if k == 6 {
        " OR pi.review ILIKE "@
    } else {
        " OR EXISTS (SELECT 1 FROM paper_tags pt WHERE pt.paper_id = p.id AND pt.tag ILIKE "@
    }
}

/// From position `from` on, `parts` hold the SQL text `col` directly
/// followed by the bound parameter `pat`.
pub open spec fn tests_column(parts: Seq<QueryPartView>, from: int, col: Seq<char>, pat: Seq<char>) -> bool {
    exists|i: int| from <= i < parts.len() - 1 && #[trigger] parts[i] == QueryPartView::Sql(col) && parts[i + 1]
        == QueryPartView::Bind(pat)
}

proof fn lemma_search_tests_columns(base: Seq<QueryPartView>, f: Seq<QueryPartView>, s: Seq<char>)
    requires
        f == base + search_condition(Some(s)),
    ensures
        f.len() == base.len() + 17,
        f.take(base.len() as int) == base,
        forall|k: int|
            0 <= k < 8 ==> #[trigger] tests_column(f, base.len() as int, searched_columns(k), seq!['%'] + s + seq!['%']),
{
    let pat = seq!['%'] + s + seq!['%'];
    let rest = search_condition(Some(s));
    assert(f.take(base.len() as int) =~= base);
    assert forall|k: int| 0 <= k < 8 implies #[trigger] tests_column(f, base.len() as int, searched_columns(k), pat) by {
        let i = base.len() + 2 * k;
        assert(f[i] == rest[2 * k] && f[i + 1] == rest[2 * k + 1]);
        assert(rest[2 * k] == QueryPartView::Sql(searched_columns(k)) && rest[2 * k + 1] == QueryPartView::Bind(pat));
    }
}

/// With a search text, the paper filter ends with the search: the filters
/// without it come first, and then the pattern `%<text>%` is matched,
/// right after its column test, against each of the id, the title, the
/// summary, the abstract, the authors, the insight, the review and the
/// tags. The same holds of the filter of the full paper list.
pub proof fn search_tests_every_column(
    s: Seq<char>,
    mark: Option<Seq<char>>,
    insight: Option<Seq<char>>,
    tag: Option<Seq<char>>,
    checked: Option<Seq<char>>,
    source: Option<Seq<char>>,
)
    ensures
        ({
            let base = filter_parts(None, mark, insight, tag, checked, source);
            let f = filter_parts(Some(s), mark, insight, tag, checked, source);
            &&& f.len() == base.len() + 17
            &&& f.take(base.len() as int) == base
            &&& forall|k: int|
                0 <= k < 8 ==> #[trigger] tests_column(f, base.len() as int, searched_columns(k), seq!['%'] + s + seq!['%'])
        }),
        ({
            let base = list_filter_parts(None, mark, insight, tag, checked, source);
            let f = list_filter_parts(Some(s), mark, insight, tag, checked, source);
            &&& f.len() == base.len() + 17
            &&& f.take(base.len() as int) == base
            &&& forall|k: int|
                0 <= k < 8 ==> #[trigger] tests_column(f, base.len() as int, searched_columns(k), seq!['%'] + s + seq!['%'])
        }),
{
    assert(search_condition(None) =~= Seq::<QueryPartView>::empty());
    let base = filter_parts(None, mark, insight, tag, checked, source);
    assert(base + search_condition(Some(s)) =~= filter_parts(Some(s), mark, insight, tag, checked, source));
    lemma_search_tests_columns(base, filter_parts(Some(s), mark, insight, tag, checked, source), s);
    let lb = list_filter_parts(None, mark, insight, tag, checked, source);
    assert(lb + search_condition(Some(s)) =~= list_filter_parts(Some(s), mark, insight, tag, checked, source));
    lemma_search_tests_columns(lb, list_filter_parts(Some(s), mark, insight, tag, checked, source), s);
}


/// `v` is one of the values a filter may bind: the mark, the tag, the
/// source type or the search pattern.
pub open spec fn given_value(
    v: Seq<char>,
    search: Option<Seq<char>>,
    mark: Option<Seq<char>>,
    tag: Option<Seq<char>>,
    source: Option<Seq<char>>,
) -> bool {
    ||| mark == Some(v)
    ||| tag == Some(v)
    ||| source == Some(v)
    ||| (search matches Some(s) && v == seq!['%'] + s + seq!['%'])
}

/// Every bound parameter of `parts` is a given value.
pub open spec fn binds_given(
    parts: Seq<QueryPartView>,
    search: Option<Seq<char>>,
    mark: Option<Seq<char>>,
    tag: Option<Seq<char>>,
    source: Option<Seq<char>>,
) -> bool {
    forall|i: int| 0 <= i < parts.len() && (#[trigger] parts[i] is Bind) ==> given_value(parts[i]->Bind_0, search, mark, tag, source)
}

proof fn lemma_binds_concat(
    a: Seq<QueryPartView>,
    b: Seq<QueryPartView>,
    search: Option<Seq<char>>,
    mark: Option<Seq<char>>,
    tag: Option<Seq<char>>,
    source: Option<Seq<char>>,
)
    requires
        binds_given(a, search, mark, tag, source),
        binds_given(b, search, mark, tag, source),
    ensures
        binds_given(a + b, search, mark, tag, source),
{
    assert forall|i: int| 0 <= i < (a + b).len() && (#[trigger] (a + b)[i] is Bind) implies given_value(
        (a + b)[i]->Bind_0,
        search,
        mark,
        tag,
        source,
    ) by {
        if i < a.len() {
            assert((a + b)[i] == a[i]);
        } else {
            assert((a + b)[i] == b[i - a.len()]);
        }
    }
}

proof fn lemma_search_binds(
    search: Option<Seq<char>>,
    mark: Option<Seq<char>>,
    tag: Option<Seq<char>>,
    source: Option<Seq<char>>,
)
    ensures
        binds_given(search_condition(search), search, mark, tag, source),
{
    let sr = search_condition(search);
    assert forall|i: int| 0 <= i < sr.len() && (#[trigger] sr[i] is Bind) implies given_value(sr[i]->Bind_0, search, mark, tag, source) by {
        if let Some(s) = search {
            assert(i % 2 == 1);
        }
    }
}

/// Every paper filter binds no value but those it is given: each bound
/// parameter is the mark, the tag, the source type or the search pattern.
pub proof fn filters_bind_only_given_values(
    search: Option<Seq<char>>,
    mark: Option<Seq<char>>,
    insight: Option<Seq<char>>,
    tag: Option<Seq<char>>,
    checked: Option<Seq<char>>,
    source: Option<Seq<char>>,
)
    ensures
        binds_given(filter_parts(search, mark, insight, tag, checked, source), search, mark, tag, source),
        binds_given(list_filter_parts(search, mark, insight, tag, checked, source), search, mark, tag, source),
{
    let mj = mark_join(mark);
    let w = seq![sql(" WHERE NOT EXISTS (SELECT 1 FROM deleted_papers dp WHERE dp.id = p.id) ")];
    let mc = mark_condition(mark);
    let ic = insight_condition(insight);
    let tc = tag_condition(tag);
    let cc = checked_condition(checked);
    let lc = strict_checked_condition(checked);
    let sc = source_condition(source);
    let sr = search_condition(search);
    assert(binds_given(mj, search, mark, tag, source));
    assert(binds_given(w, search, mark, tag, source));
    assert(binds_given(mc, search, mark, tag, source));
    assert(binds_given(ic, search, mark, tag, source));
    assert(binds_given(tc, search, mark, tag, source));
    assert(binds_given(cc, search, mark, tag, source));
    assert(binds_given(lc, search, mark, tag, source));
    assert(binds_given(sc, search, mark, tag, source));
    lemma_search_binds(search, mark, tag, source);
    lemma_binds_concat(mj, w, search, mark, tag, source);
    lemma_binds_concat(mj + w, mc, search, mark, tag, source);
    lemma_binds_concat(mj + w + mc, ic, search, mark, tag, source);
    lemma_binds_concat(mj + w + mc + ic, tc, search, mark, tag, source);
    lemma_binds_concat(mj + w + mc + ic + tc, cc, search, mark, tag, source);
    lemma_binds_concat(mj + w + mc + ic + tc + cc, sc, search, mark, tag, source);
    lemma_binds_concat(mj + w + mc + ic + tc + cc + sc, sr, search, mark, tag, source);
    lemma_binds_concat(mj + w + mc + ic + tc, lc, search, mark, tag, source);
    lemma_binds_concat(mj + w + mc + ic + tc + lc, sc, search, mark, tag, source);
    lemma_binds_concat(mj + w + mc + ic + tc + lc + sc, sr, search, mark, tag, source);
}

/// Every paper filter leaves out deleted papers and binds the mark (unless
/// it is `none`, which asks for papers without a mark), the tag and the
/// source type right after the tests that use them.
pub proof fn filters_test_given_values(
    search: Option<Seq<char>>,
    mark: Option<Seq<char>>,
    insight: Option<Seq<char>>,
    tag: Option<Seq<char>>,
    checked: Option<Seq<char>>,
    source: Option<Seq<char>>,
)
    ensures
        ({
            let f = filter_parts(search, mark, insight, tag, checked, source);
            &&& f.contains(QueryPartView::Sql(" WHERE NOT EXISTS (SELECT 1 FROM deleted_papers dp WHERE dp.id = p.id) "@))
            &&& tag matches Some(t) ==> tests_column(
                f,
                0,
                " AND EXISTS (SELECT 1 FROM paper_tags pt WHERE pt.paper_id = p.id AND pt.tag = "@,
                t,
            )
            &&& source matches Some(x) ==> tests_column(f, 0, " AND p.source_type = "@, x)
            &&& mark matches Some(m) ==> (m != "none"@ ==> tests_column(f, 0, " AND pm.mark = "@, m)) && (m == "none"@
                ==> f.contains(QueryPartView::Sql(" AND pm.paper_id IS NULL "@)))
        }),
{
    let mj = mark_join(mark);
    let w = seq![sql(" WHERE NOT EXISTS (SELECT 1 FROM deleted_papers dp WHERE dp.id = p.id) ")];
    let mc = mark_condition(mark);
    let ic = insight_condition(insight);
    let tc = tag_condition(tag);
    let cc = checked_condition(checked);
    let sc = source_condition(source);
    let sr = search_condition(search);
    let f = filter_parts(search, mark, insight, tag, checked, source);
    assert(f == mj + w + mc + ic + tc + cc + sc + sr);
    let o1 = mj.len() as int;
    let o2 = o1 + 1;
    let o3 = o2 + mc.len();
    let o4 = o3 + ic.len();
    let o5 = o4 + tc.len();
    let o6 = o5 + cc.len();
    assert(f[o1] == w[0]);
    if let Some(t) = tag {
        assert(f[o4] == tc[0] && f[o4 + 1] == tc[1]);
    }
    if let Some(x) = source {
        assert(f[o6] == sc[0] && f[o6 + 1] == sc[1]);
    }
    if let Some(m) = mark {
        assert(f[o2] == mc[0]);
        if m != "none"@ {
            assert(f[o2 + 1] == mc[1]);
        }
    }
}

/// The checked filter `checked` or `has` asks for papers with a check time,
/// `unchecked` or `none` for papers without one.
pub proof fn checked_filter_tests_check_time(
    search: Option<Seq<char>>,
    mark: Option<Seq<char>>,
    insight: Option<Seq<char>>,
    tag: Option<Seq<char>>,
    c: Seq<char>,
    source: Option<Seq<char>>,
)
    ensures
        (c == "checked"@ || c == "has"@) ==> filter_parts(search, mark, insight, tag, Some(c), source).contains(
            QueryPartView::Sql(" AND pi.checked_at IS NOT NULL "@),
        ),
        (c == "unchecked"@ || c == "none"@) ==> filter_parts(search, mark, insight, tag, Some(c), source).contains(
            QueryPartView::Sql(" AND pi.checked_at IS NULL "@),
        ),
{
    reveal_strlit("checked");
    reveal_strlit("has");
    reveal_strlit("unchecked");
    reveal_strlit("none");
    let f = filter_parts(search, mark, insight, tag, Some(c), source);
    let pre = mark_join(mark) + seq![sql(" WHERE NOT EXISTS (SELECT 1 FROM deleted_papers dp WHERE dp.id = p.id) ")]
        + mark_condition(mark) + insight_condition(insight) + tag_condition(tag);
    let cc = checked_condition(Some(c));
    assert(f == pre + cc + source_condition(source) + search_condition(search));
    if c == "unchecked"@ || c == "none"@ {
        assert(c.len() == 9 || c.len() == 4);
        assert(c != "checked"@ && c != "has"@);
        assert(cc == seq![sql(" AND pi.checked_at IS NULL ")]);
        assert(f[pre.len() as int] == cc[0]);
    }
    if c == "checked"@ || c == "has"@ {
        assert(f[pre.len() as int] == cc[0]);
    }
}


/// The paper list is sorted by one column, newest publication first unless
/// asked otherwise, and ties are broken by the paper id in the same
/// direction: ascending exactly when the order is `asc`, descending for any
/// other or no order. Without a sort key, or with an unknown one, the
/// publication date is the column.
pub proof fn order_breaks_ties_by_id(sort: Option<Seq<char>>, order: Option<Seq<char>>)
    ensures
        ({
            let d = if order == Some("asc"@) { "ASC"@ } else { "DESC"@ };
            let c = sort_column(sort);
            &&& order_by(sort, order) == " ORDER BY "@ + c + seq![' '] + d + ", p.id "@ + d
            &&& (c == "p.published"@ || c == "p.processed_at"@ || c == "p.score"@ || c == "pi.checked_at"@)
            &&& (sort is None ==> c == "p.published"@)
            &&& (sort matches Some(k) && k != "processed_at"@ && k != "score"@ && k != "checked"@ ==> c
                == "p.published"@)
        }),
{
}

} // verus!
