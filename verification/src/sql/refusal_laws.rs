//! Which statements are refused, and with which error.

use super::ast::{CreateTableView, ExprView, JoinType, SelectView, StatementView};
use super::error::ParseErrorView;
use super::meaning;
use super::raw::{
    RawBodyView, RawConstraintView, RawCountView, RawCreateTableView, RawDeleteView, RawExprView,
    RawFunctionView, RawInsertView, RawQueryView, RawSelectView, RawTableView, RawUpdateView,
};
use super::text;
use vstd::prelude::*;

verus! {

/// A query with a clause beside its body that is not supported is refused, the first such
/// clause being named.
pub proof fn lemma_query_refused(q: RawQueryView)
    ensures
        (q.with) ==> meaning::query(q) == Err::<SelectView, ParseErrorView>(
            ParseErrorView::UnsupportedStatement(
                "WITH (common table expressions)"@ + " not supported"@),
        ),
        !(q.with) && (q.fetch || q.locks > 0 || q.for_clause)
            ==> meaning::query(q) == Err::<SelectView, ParseErrorView>(
            ParseErrorView::UnsupportedStatement(
                "FETCH / FOR UPDATE / FOR clauses"@ + " not supported"@),
        ),
        !(q.with) && !(q.fetch || q.locks > 0 || q.for_clause) && (q.pipe_operators > 0)
            ==> meaning::query(q) == Err::<SelectView, ParseErrorView>(
            ParseErrorView::UnsupportedStatement("pipe operators"@ + " not supported"@),
        ),
{
}

/// A `SELECT` with a clause that is not supported is refused, the first such clause being
/// named.
pub proof fn lemma_select_refused(q: RawQueryView, s: RawSelectView)
    requires
        q.body == RawBodyView::Select(s),
        !q.with && !q.fetch && q.locks == 0 && !q.for_clause && q.pipe_operators == 0,
    ensures
        (s.flags.top) ==> meaning::query(q) == Err::<SelectView, ParseErrorView>(
            ParseErrorView::UnsupportedStatement("TOP"@ + " not supported"@),
        ),
        !(s.flags.top) && (s.flags.into) ==> meaning::query(q) == Err::<SelectView, ParseErrorView>(
            ParseErrorView::UnsupportedStatement("SELECT INTO"@ + " not supported"@),
        ),
        !(s.flags.top) && !(s.flags.into) && (s.flags.lateral_views > 0)
            ==> meaning::query(q) == Err::<SelectView, ParseErrorView>(
            ParseErrorView::UnsupportedStatement("LATERAL VIEW"@ + " not supported"@),
        ),
        !(s.flags.top) && !(s.flags.into) && !(s.flags.lateral_views > 0) && (s.flags.prewhere)
            ==> meaning::query(q) == Err::<SelectView, ParseErrorView>(
            ParseErrorView::UnsupportedStatement("PREWHERE"@ + " not supported"@),
        ),
        !(s.flags.top) && !(s.flags.into) && !(s.flags.lateral_views > 0) && !(s.flags.prewhere)
            && (s.flags.connect_by > 0) ==> meaning::query(q) == Err::<SelectView, ParseErrorView>(
            ParseErrorView::UnsupportedStatement("CONNECT BY"@ + " not supported"@),
        ),
        !(s.flags.top) && !(s.flags.into) && !(s.flags.lateral_views > 0) && !(s.flags.prewhere)
            && !(s.flags.connect_by > 0) && (s.flags.cluster_by > 0)
            ==> meaning::query(q) == Err::<SelectView, ParseErrorView>(
            ParseErrorView::UnsupportedStatement("CLUSTER BY"@ + " not supported"@),
        ),
        !(s.flags.top) && !(s.flags.into) && !(s.flags.lateral_views > 0) && !(s.flags.prewhere)
            && !(s.flags.connect_by > 0) && !(s.flags.cluster_by > 0) && (s.flags.distribute_by > 0)
            ==> meaning::query(q) == Err::<SelectView, ParseErrorView>(
            ParseErrorView::UnsupportedStatement("DISTRIBUTE BY"@ + " not supported"@),
        ),
        !(s.flags.top) && !(s.flags.into) && !(s.flags.lateral_views > 0) && !(s.flags.prewhere)
            && !(s.flags.connect_by > 0) && !(s.flags.cluster_by > 0)
            && !(s.flags.distribute_by > 0) && (s.flags.sort_by > 0)
            ==> meaning::query(q) == Err::<SelectView, ParseErrorView>(
            ParseErrorView::UnsupportedStatement("SORT BY"@ + " not supported"@),
        ),
        !(s.flags.top) && !(s.flags.into) && !(s.flags.lateral_views > 0) && !(s.flags.prewhere)
            && !(s.flags.connect_by > 0) && !(s.flags.cluster_by > 0)
            && !(s.flags.distribute_by > 0) && !(s.flags.sort_by > 0) && (s.flags.named_window > 0)
            ==> meaning::query(q) == Err::<SelectView, ParseErrorView>(
            ParseErrorView::UnsupportedStatement("WINDOW"@ + " not supported"@),
        ),
        !(s.flags.top) && !(s.flags.into) && !(s.flags.lateral_views > 0) && !(s.flags.prewhere)
            && !(s.flags.connect_by > 0) && !(s.flags.cluster_by > 0)
            && !(s.flags.distribute_by > 0) && !(s.flags.sort_by > 0) && !(s.flags.named_window > 0)
            && (s.flags.qualify) ==> meaning::query(q) == Err::<SelectView, ParseErrorView>(
            ParseErrorView::UnsupportedStatement("QUALIFY"@ + " not supported"@),
        ),
        !(s.flags.top) && !(s.flags.into) && !(s.flags.lateral_views > 0) && !(s.flags.prewhere)
            && !(s.flags.connect_by > 0) && !(s.flags.cluster_by > 0)
            && !(s.flags.distribute_by > 0) && !(s.flags.sort_by > 0) && !(s.flags.named_window > 0)
            && !(s.flags.qualify) && (s.flags.exclude)
            ==> meaning::query(q) == Err::<SelectView, ParseErrorView>(
            ParseErrorView::UnsupportedStatement("EXCLUDE"@ + " not supported"@),
        ),
{
}

/// An `INSERT` with a clause that is not supported is refused, the first such clause being
/// named.
pub proof fn lemma_insert_refused(i: RawInsertView)
    ensures
        (i.flags.or) ==> meaning::insert(i) == Err::<StatementView, ParseErrorView>(
            ParseErrorView::UnsupportedStatement("INSERT OR ..."@ + " not supported"@),
        ),
        !(i.flags.or) && (i.flags.ignore) ==> meaning::insert(i) == Err::<StatementView,
            ParseErrorView>(
            ParseErrorView::UnsupportedStatement("INSERT IGNORE"@ + " not supported"@),
        ),
        !(i.flags.or) && !(i.flags.ignore) && (i.flags.overwrite)
            ==> meaning::insert(i) == Err::<StatementView, ParseErrorView>(
            ParseErrorView::UnsupportedStatement("INSERT OVERWRITE"@ + " not supported"@),
        ),
        !(i.flags.or) && !(i.flags.ignore) && !(i.flags.overwrite) && (i.flags.replace_into)
            ==> meaning::insert(i) == Err::<StatementView, ParseErrorView>(
            ParseErrorView::UnsupportedStatement("REPLACE INTO"@ + " not supported"@),
        ),
        !(i.flags.or) && !(i.flags.ignore) && !(i.flags.overwrite) && !(i.flags.replace_into)
            && (i.flags.on) ==> meaning::insert(i) == Err::<StatementView, ParseErrorView>(
            ParseErrorView::UnsupportedStatement(
                "ON CONFLICT / ON DUPLICATE KEY"@ + " not supported"@),
        ),
        !(i.flags.or) && !(i.flags.ignore) && !(i.flags.overwrite) && !(i.flags.replace_into)
            && !(i.flags.on) && (i.flags.returning)
            ==> meaning::insert(i) == Err::<StatementView, ParseErrorView>(
            ParseErrorView::UnsupportedStatement("RETURNING"@ + " not supported"@),
        ),
        !(i.flags.or) && !(i.flags.ignore) && !(i.flags.overwrite) && !(i.flags.replace_into)
            && !(i.flags.on) && !(i.flags.returning) && (i.flags.output)
            ==> meaning::insert(i) == Err::<StatementView, ParseErrorView>(
            ParseErrorView::UnsupportedStatement("OUTPUT"@ + " not supported"@),
        ),
        !(i.flags.or) && !(i.flags.ignore) && !(i.flags.overwrite) && !(i.flags.replace_into)
            && !(i.flags.on) && !(i.flags.returning) && !(i.flags.output) && (i.flags.partitioned)
            ==> meaning::insert(i) == Err::<StatementView, ParseErrorView>(
            ParseErrorView::UnsupportedStatement("PARTITION"@ + " not supported"@),
        ),
        !(i.flags.or) && !(i.flags.ignore) && !(i.flags.overwrite) && !(i.flags.replace_into)
            && !(i.flags.on) && !(i.flags.returning) && !(i.flags.output) && !(i.flags.partitioned)
            && (i.flags.assignments > 0) ==> meaning::insert(i) == Err::<StatementView,
            ParseErrorView>(
            ParseErrorView::UnsupportedStatement("INSERT ... SET"@ + " not supported"@),
        ),
        !(i.flags.or) && !(i.flags.ignore) && !(i.flags.overwrite) && !(i.flags.replace_into)
            && !(i.flags.on) && !(i.flags.returning) && !(i.flags.output) && !(i.flags.partitioned)
            && !(i.flags.assignments > 0) && (i.flags.table_alias)
            ==> meaning::insert(i) == Err::<StatementView, ParseErrorView>(
            ParseErrorView::UnsupportedStatement("INSERT table alias"@ + " not supported"@),
        ),
{
}

/// An `UPDATE` with a clause that is not supported is refused, the first such clause being
/// named.
pub proof fn lemma_update_refused(u: RawUpdateView)
    ensures
        (u.flags.from) ==> meaning::update(u) == Err::<StatementView, ParseErrorView>(
            ParseErrorView::UnsupportedStatement("UPDATE ... FROM"@ + " not supported"@),
        ),
        !(u.flags.from) && (u.flags.returning)
            ==> meaning::update(u) == Err::<StatementView, ParseErrorView>(
            ParseErrorView::UnsupportedStatement("RETURNING"@ + " not supported"@),
        ),
        !(u.flags.from) && !(u.flags.returning) && (u.flags.output)
            ==> meaning::update(u) == Err::<StatementView, ParseErrorView>(
            ParseErrorView::UnsupportedStatement("OUTPUT"@ + " not supported"@),
        ),
        !(u.flags.from) && !(u.flags.returning) && !(u.flags.output) && (u.flags.or)
            ==> meaning::update(u) == Err::<StatementView, ParseErrorView>(
            ParseErrorView::UnsupportedStatement("UPDATE OR ..."@ + " not supported"@),
        ),
        !(u.flags.from) && !(u.flags.returning) && !(u.flags.output) && !(u.flags.or)
            && (u.flags.order_by > 0) ==> meaning::update(u) == Err::<StatementView,
            ParseErrorView>(
            ParseErrorView::UnsupportedStatement("UPDATE ... ORDER BY"@ + " not supported"@),
        ),
        !(u.flags.from) && !(u.flags.returning) && !(u.flags.output) && !(u.flags.or)
            && !(u.flags.order_by > 0) && (u.flags.limit)
            ==> meaning::update(u) == Err::<StatementView, ParseErrorView>(
            ParseErrorView::UnsupportedStatement("UPDATE ... LIMIT"@ + " not supported"@),
        ),
{
}

/// A `DELETE` with a clause that is not supported is refused, the first such clause being
/// named.
pub proof fn lemma_delete_refused(d: RawDeleteView)
    ensures
        (d.flags.tables > 0) ==> meaning::delete(d) == Err::<StatementView, ParseErrorView>(
            ParseErrorView::UnsupportedStatement("multi table DELETE"@ + " not supported"@),
        ),
        !(d.flags.tables > 0) && (d.flags.using)
            ==> meaning::delete(d) == Err::<StatementView, ParseErrorView>(
            ParseErrorView::UnsupportedStatement("DELETE ... USING"@ + " not supported"@),
        ),
        !(d.flags.tables > 0) && !(d.flags.using) && (d.flags.returning)
            ==> meaning::delete(d) == Err::<StatementView, ParseErrorView>(
            ParseErrorView::UnsupportedStatement("RETURNING"@ + " not supported"@),
        ),
        !(d.flags.tables > 0) && !(d.flags.using) && !(d.flags.returning) && (d.flags.output)
            ==> meaning::delete(d) == Err::<StatementView, ParseErrorView>(
            ParseErrorView::UnsupportedStatement("OUTPUT"@ + " not supported"@),
        ),
        !(d.flags.tables > 0) && !(d.flags.using) && !(d.flags.returning) && !(d.flags.output)
            && (d.flags.order_by > 0) ==> meaning::delete(d) == Err::<StatementView,
            ParseErrorView>(
            ParseErrorView::UnsupportedStatement("DELETE ... ORDER BY"@ + " not supported"@),
        ),
        !(d.flags.tables > 0) && !(d.flags.using) && !(d.flags.returning) && !(d.flags.output)
            && !(d.flags.order_by > 0) && (d.flags.limit)
            ==> meaning::delete(d) == Err::<StatementView, ParseErrorView>(
            ParseErrorView::UnsupportedStatement("DELETE ... LIMIT"@ + " not supported"@),
        ),
{
}

/// A `CREATE TABLE` that is not supported is refused, the first such clause being named.
pub proof fn lemma_create_refused(c: RawCreateTableView)
    ensures
        (c.query) ==> meaning::create_table(c) == Err::<CreateTableView, ParseErrorView>(
            ParseErrorView::UnsupportedStatement("CREATE TABLE ... AS SELECT"@ + " not supported"@),
        ),
        !(c.query) && (c.like || c.clone_of) ==> meaning::create_table(c) == Err::<CreateTableView,
            ParseErrorView>(
            ParseErrorView::UnsupportedStatement(
                "CREATE TABLE ... LIKE/CLONE"@ + " not supported"@),
        ),
        !(c.query) && !(c.like || c.clone_of) && (c.or_replace || c.temporary)
            ==> meaning::create_table(c) == Err::<CreateTableView, ParseErrorView>(
            ParseErrorView::UnsupportedStatement(
                "CREATE OR REPLACE / TEMPORARY TABLE"@ + " not supported"@),
        ),
{
}

/// Joins in an `UPDATE` or a `DELETE` are refused.
pub proof fn lemma_joins_refused(t: RawTableView)
    requires
        t.joins.len() > 0,
    ensures
        meaning::single_table(t) == Err::<(Seq<char>, Option<Seq<char>>), ParseErrorView>(
            ParseErrorView::UnsupportedStatement("JOIN not supported in UPDATE/DELETE"@),
        ),
{
}

/// The conditions of joins that are refused.
pub proof fn lemma_condition_refused(e: RawExprView, kind: JoinType)
    ensures
        meaning::condition(RawConstraintView::Using, kind) == Err::<
            Option<ExprView>,
            ParseErrorView,
        >(ParseErrorView::UnsupportedStatement("JOIN ... USING not supported, use ON"@)),
        meaning::condition(RawConstraintView::Natural, kind) == Err::<
            Option<ExprView>,
            ParseErrorView,
        >(ParseErrorView::UnsupportedStatement("NATURAL JOIN not supported"@)),
        meaning::condition(RawConstraintView::On(e), JoinType::Cross) == Err::<
            Option<ExprView>,
            ParseErrorView,
        >(ParseErrorView::UnsupportedStatement("CROSS JOIN does not take an ON condition"@)),
        !(kind is Cross) ==> meaning::condition(RawConstraintView::Absent, kind) == Err::<
            Option<ExprView>,
            ParseErrorView,
        >(ParseErrorView::MissingClause("JOIN ... ON condition"@)),
{
}

/// A number of rows that is no natural number is refused with its clause and its text.
pub proof fn lemma_count_refused(c: RawCountView, clause: Seq<char>)
    requires
        c.number matches Some(s) ==> text::natural_of(s) is None,
    ensures
        meaning::count(c, clause) == Err::<usize, ParseErrorView>(
            ParseErrorView::UnsupportedExpression(
                clause + " must be a non negative integer literal, got "@ + c.text,
            ),
        ),
{
}

/// The function calls that are refused.
pub proof fn lemma_call_refused(f: RawFunctionView, name: Seq<char>)
    requires
        meaning::table_name(f.name) == Ok::<Seq<char>, ParseErrorView>(name),
    ensures
        f.over ==> meaning::expr(RawExprView::Function(f)) == Err::<ExprView, ParseErrorView>(
            ParseErrorView::UnsupportedExpression("window function "@ + name + " not supported"@),
        ),
        !f.over && (f.filter || f.within_group > 0 || f.null_treatment) ==> meaning::expr(
            RawExprView::Function(f),
        ) == Err::<ExprView, ParseErrorView>(
            ParseErrorView::UnsupportedExpression(
                "FILTER / WITHIN GROUP / null treatment on "@ + name + " not supported"@,
            ),
        ),
        !f.over && !f.filter && f.within_group == 0 && !f.null_treatment && f.parametric
            ==> meaning::expr(RawExprView::Function(f)) == Err::<ExprView, ParseErrorView>(
            ParseErrorView::UnsupportedExpression(
                "parametric function "@ + name + " not supported"@,
            ),
        ),
{
    assert(meaning::expr(RawExprView::Function(f)) == meaning::function(f));
}

} // verus!
