//! Laws of errors: which error a text gives, in which order parts are looked at, and what
//! its message says.

use super::ast::{ColumnConstraintView, ColumnDefView};
use super::error::ParseErrorView;
use super::meaning;
use super::meaning::{Keys, Outcome};
use super::raw::{
    RawArgumentsView, RawAssignmentView, RawColumnDefView, RawColumnOptionView,
    RawCreateTableView, RawDeleteView, RawDistinctView, RawExprView, RawFactorView,
    RawFunctionArgView, RawFunctionView, RawGroupByView, RawIndexColumnView, RawInsertView,
    RawBodyView, RawJoinOperatorView, RawJoinView, RawLimitView, RawNameView, RawOrderByExprView,
    RawOrderByView, RawOrderView, RawPartView, RawQueryView, RawSelectItemView, RawSelectView,
    RawSortView, RawStatementView, RawTableConstraintView, RawTableObjectView, RawTableView,
    RawTargetView, RawUpdateView, RawValueView,
};
use super::reader;
use super::text;
use vstd::prelude::*;

verus! {

/// The outcome is that error.
pub open spec fn fails<T>(r: Outcome<T>, e: ParseErrorView) -> bool {
    r == Err::<T, ParseErrorView>(e)
}

/// The first name that is refused is what a list of names is refused for.
pub proof fn lemma_names_fail(s: Seq<RawNameView>, i: int, e: ParseErrorView)
    requires
        0 <= i < s.len(),
        forall|j: int| 0 <= j < i ==> meaning::table_name(#[trigger] s[j]) is Ok,
        fails(meaning::table_name(s[i]), e),
    ensures
        fails(meaning::table_names(s), e),
    decreases s.len(),
{
    if i > 0 {
        let rest = s.skip(1);
        assert(meaning::table_name(s[0]) is Ok);
        assert forall|j: int| 0 <= j < i - 1 implies meaning::table_name(
            #[trigger] rest[j]) is Ok by {
            assert(rest[j] == s[j + 1]);
        }
        assert(rest[i - 1] == s[i]);
        lemma_names_fail(rest, i - 1, e);
    }
}

/// The first join that is refused is what joins are refused for.
pub proof fn lemma_joins_fail(s: Seq<RawJoinView>, i: int, e: ParseErrorView)
    requires
        0 <= i < s.len(),
        forall|j: int| 0 <= j < i ==> meaning::join(#[trigger] s[j]) is Ok,
        fails(meaning::join(s[i]), e),
    ensures
        fails(meaning::joins(s), e),
    decreases s.len(),
{
    if i > 0 {
        let rest = s.skip(1);
        assert(meaning::join(s[0]) is Ok);
        assert forall|j: int| 0 <= j < i - 1 implies meaning::join(#[trigger] rest[j]) is Ok by {
            assert(rest[j] == s[j + 1]);
        }
        assert(rest[i - 1] == s[i]);
        lemma_joins_fail(rest, i - 1, e);
    }
}

/// The first item that is refused is what a projection is refused for.
pub proof fn lemma_items_fail(s: Seq<RawSelectItemView>, i: int, e: ParseErrorView)
    requires
        0 <= i < s.len(),
        forall|j: int| 0 <= j < i ==> meaning::item(#[trigger] s[j]) is Ok,
        fails(meaning::item(s[i]), e),
    ensures
        fails(meaning::items(s), e),
    decreases s.len(),
{
    if i > 0 {
        let rest = s.skip(1);
        assert(meaning::item(s[0]) is Ok);
        assert forall|j: int| 0 <= j < i - 1 implies meaning::item(#[trigger] rest[j]) is Ok by {
            assert(rest[j] == s[j + 1]);
        }
        assert(rest[i - 1] == s[i]);
        lemma_items_fail(rest, i - 1, e);
    }
}

/// The first key that is refused is what an ordering is refused for.
pub proof fn lemma_keys_fail(s: Seq<RawOrderByExprView>, i: int, e: ParseErrorView)
    requires
        0 <= i < s.len(),
        forall|j: int| 0 <= j < i ==> meaning::key(#[trigger] s[j]) is Ok,
        fails(meaning::key(s[i]), e),
    ensures
        fails(meaning::keys(s), e),
    decreases s.len(),
{
    if i > 0 {
        let rest = s.skip(1);
        assert(meaning::key(s[0]) is Ok);
        assert forall|j: int| 0 <= j < i - 1 implies meaning::key(#[trigger] rest[j]) is Ok by {
            assert(rest[j] == s[j + 1]);
        }
        assert(rest[i - 1] == s[i]);
        lemma_keys_fail(rest, i - 1, e);
    }
}

/// The first column that is refused is what the columns of a table are refused for.
pub proof fn lemma_columns_fail(s: Seq<RawColumnDefView>, i: int, e: ParseErrorView)
    requires
        0 <= i < s.len(),
        forall|j: int| 0 <= j < i ==> meaning::column(#[trigger] s[j]) is Ok,
        fails(meaning::column(s[i]), e),
    ensures
        fails(meaning::columns(s), e),
    decreases s.len(),
{
    if i > 0 {
        let rest = s.skip(1);
        assert(meaning::column(s[0]) is Ok);
        assert forall|j: int| 0 <= j < i - 1 implies meaning::column(#[trigger] rest[j]) is Ok by {
            assert(rest[j] == s[j + 1]);
        }
        assert(rest[i - 1] == s[i]);
        lemma_columns_fail(rest, i - 1, e);
    }
}

/// The first statement that is refused is what a text of several is refused for.
pub proof fn lemma_statements_fail(s: Seq<RawStatementView>, i: int, e: ParseErrorView)
    requires
        0 <= i < s.len(),
        forall|j: int| 0 <= j < i ==> meaning::statement(#[trigger] s[j]) is Ok,
        fails(meaning::statement(s[i]), e),
    ensures
        fails(meaning::statements(s), e),
    decreases s.len(),
{
    if i > 0 {
        let rest = s.skip(1);
        assert(meaning::statement(s[0]) is Ok);
        assert forall|j: int| 0 <= j < i - 1 implies meaning::statement(
            #[trigger] rest[j]) is Ok by {
            assert(rest[j] == s[j + 1]);
        }
        assert(rest[i - 1] == s[i]);
        lemma_statements_fail(rest, i - 1, e);
    }
}

/// The first expression that is refused is what a list of them is refused for.
pub proof fn lemma_exprs_fail(s: Seq<RawExprView>, i: int, e: ParseErrorView)
    requires
        0 <= i < s.len(),
        forall|j: int| 0 <= j < i ==> meaning::expr(#[trigger] s[j]) is Ok,
        fails(meaning::expr(s[i]), e),
    ensures
        fails(meaning::exprs(s), e),
    decreases s.len(),
{
    if i > 0 {
        let rest = s.skip(1);
        assert(meaning::expr(s[0]) is Ok);
        assert forall|j: int| 0 <= j < i - 1 implies meaning::expr(#[trigger] rest[j]) is Ok by {
            assert(rest[j] == s[j + 1]);
        }
        assert(rest[i - 1] == s[i]);
        lemma_exprs_fail(rest, i - 1, e);
    }
}

/// The first argument that is refused is what arguments are refused for.
pub proof fn lemma_argument_list_fail(s: Seq<RawFunctionArgView>, i: int, e: ParseErrorView)
    requires
        0 <= i < s.len(),
        forall|j: int| 0 <= j < i ==> meaning::argument(#[trigger] s[j]) is Ok,
        fails(meaning::argument(s[i]), e),
    ensures
        fails(meaning::argument_list(s), e),
    decreases s.len(),
{
    if i > 0 {
        let rest = s.skip(1);
        assert(meaning::argument(s[0]) is Ok);
        assert forall|j: int| 0 <= j < i - 1 implies meaning::argument(
            #[trigger] rest[j]) is Ok by {
            assert(rest[j] == s[j + 1]);
        }
        assert(rest[i - 1] == s[i]);
        lemma_argument_list_fail(rest, i - 1, e);
    }
}

/// The first row that is refused is what rows are refused for.
pub proof fn lemma_rows_fail(s: Seq<Seq<RawExprView>>, i: int, e: ParseErrorView)
    requires
        0 <= i < s.len(),
        forall|j: int| 0 <= j < i ==> meaning::exprs(#[trigger] s[j]) is Ok,
        fails(meaning::exprs(s[i]), e),
    ensures
        fails(meaning::rows(s), e),
    decreases s.len(),
{
    if i > 0 {
        let rest = s.skip(1);
        assert(meaning::exprs(s[0]) is Ok);
        assert forall|j: int| 0 <= j < i - 1 implies meaning::exprs(#[trigger] rest[j]) is Ok by {
            assert(rest[j] == s[j + 1]);
        }
        assert(rest[i - 1] == s[i]);
        lemma_rows_fail(rest, i - 1, e);
    }
}

/// The first further table that is refused is what those are refused for.
pub proof fn lemma_further_fail(s: Seq<RawTableView>, i: int, e: ParseErrorView)
    requires
        0 <= i < s.len(),
        forall|j: int| 0 <= j < i ==> meaning::further(#[trigger] s[j]) is Ok,
        fails(meaning::further(s[i]), e),
    ensures
        fails(meaning::all_further(s), e),
    decreases s.len(),
{
    if i > 0 {
        let rest = s.skip(1);
        assert(meaning::further(s[0]) is Ok);
        assert forall|j: int| 0 <= j < i - 1 implies meaning::further(#[trigger] rest[j]) is Ok by {
            assert(rest[j] == s[j + 1]);
        }
        assert(rest[i - 1] == s[i]);
        lemma_further_fail(rest, i - 1, e);
    }
}

/// The first assignment that is refused is what assignments are refused for.
pub proof fn lemma_assignments_fail(s: Seq<RawAssignmentView>, table: Seq<char>,
    alias: Option<Seq<char>>, i: int, e: ParseErrorView)
    requires
        0 <= i < s.len(),
        forall|j: int| 0 <= j < i ==> meaning::assignment(#[trigger] s[j], table, alias) is Ok,
        fails(meaning::assignment(s[i], table, alias), e),
    ensures
        fails(meaning::assignments(s, table, alias), e),
    decreases s.len(),
{
    if i > 0 {
        let rest = s.skip(1);
        assert(meaning::assignment(s[0], table, alias) is Ok);
        assert forall|j: int| 0 <= j < i - 1 implies meaning::assignment(#[trigger] rest[j], table,
            alias) is Ok by {
            assert(rest[j] == s[j + 1]);
        }
        assert(rest[i - 1] == s[i]);
        lemma_assignments_fail(rest, table, alias, i - 1, e);
    }
}

/// A name has a part.
pub proof fn lemma_name_refused(n: RawNameView)
    ensures
        n.parts.len() == 0 <==> meaning::table_name(n) is Err,
        n.parts.len() == 0 ==> fails(meaning::table_name(n),
            ParseErrorView::InvalidIdentifier("empty table name"@)),
{
}

/// Which literals are refused, and how.
pub proof fn lemma_value_refused(s: Seq<char>, t: Seq<char>)
    requires
        !text::is_float(t),
        text::integer_of(t) matches Some(n) ==> n < i64::MIN || n > i64::MAX,
    ensures
        fails(meaning::value(RawValueView::Other(s)),
            ParseErrorView::UnsupportedExpression("Unsupported value: "@ + s)),
        fails(meaning::value(RawValueView::Number(t)),
            ParseErrorView::UnsupportedExpression("Invalid number: "@ + t)),
{
}

/// Which expressions are refused for what they are.
pub proof fn lemma_expr_refused(parts: Seq<Seq<char>>, s: Seq<char>, x: RawExprView, p: RawExprView,
    n: bool, c: bool)
    ensures
        parts.len() != 2 ==> fails(meaning::expr(RawExprView::CompoundIdentifier { parts,
            debug: s }),
            ParseErrorView::UnsupportedExpression("Unsupported identifier depth: "@ + s)),
        fails(meaning::like(x, p, n, true, true, c),
            ParseErrorView::UnsupportedExpression("LIKE ANY not supported"@)),
        fails(meaning::like(x, p, n, true, false, c),
            ParseErrorView::UnsupportedExpression("LIKE ANY not supported"@)),
        fails(meaning::like(x, p, n, false, true, c),
            ParseErrorView::UnsupportedExpression("LIKE ... ESCAPE not supported"@)),
        fails(meaning::argument(RawFunctionArgView::Wildcard(s)),
            ParseErrorView::UnsupportedExpression("function argument not supported: "@ + s)),
        fails(meaning::argument(RawFunctionArgView::Other(s)),
            ParseErrorView::UnsupportedExpression("function argument not supported: "@ + s)),
        fails(meaning::arguments(RawArgumentsView::Subquery, s),
            ParseErrorView::UnsupportedExpression("subquery as function argument not supported"@)),
{
}

/// A pattern is a string.
pub proof fn lemma_pattern_refused(v: RawValueView, x: RawExprView)
    ensures
        !(v is SingleQuoted) && !(v is DoubleQuoted)
            ==> fails(meaning::string_of(RawExprView::Value(v)),
            ParseErrorView::UnsupportedExpression("expected string"@)),
        !(x is Value) ==> fails(meaning::string_of(x),
            ParseErrorView::UnsupportedExpression("expected string literal"@)),
{
}

/// Arguments take no clauses.
pub proof fn lemma_clauses_refused(clauses: usize, distinct: bool, args: Seq<RawFunctionArgView>,
    name: Seq<char>)
    ensures
        clauses > 0 ==> fails(meaning::arguments(RawArgumentsView::List { clauses, distinct, args },
            name),
            ParseErrorView::UnsupportedExpression(
                "function argument clauses on "@ + name + " not supported"@)),
        clauses == 0 && !(args.len() == 1 && args[0] is Wildcard && !distinct)
            ==> (meaning::argument_list(args) matches Err(e)
            ==> fails(meaning::arguments(RawArgumentsView::List { clauses, distinct, args }, name),
            e)),
{
}

/// An operator that is not known is named.
pub proof fn lemma_operator_refused(s: Seq<char>)
    ensures
        meaning::binary_op(s) matches Err(e) ==> e
            == ParseErrorView::UnsupportedExpression("Unsupported operator: "@ + s),
        meaning::unary_op(s) matches Err(e) ==> e
            == ParseErrorView::UnsupportedExpression("Unsupported unary operator: "@ + s),
{
}

/// The operand of a unary operator is looked at before the operator.
pub proof fn lemma_unary_fail(op: Seq<char>, x: RawExprView)
    ensures
        meaning::expr(x) matches Err(e) ==> fails(meaning::expr(RawExprView::UnaryOp { op,
            expr: Box::new(x) }), e),
        meaning::unary_op(op) matches Err(e) ==> (meaning::expr(x) is Ok
            ==> fails(meaning::expr(RawExprView::UnaryOp { op, expr: Box::new(x) }), e)),
{
}

/// The operand of `IN` is looked at before the list.
pub proof fn lemma_in_list_fail(x: RawExprView, list: Seq<RawExprView>, negated: bool)
    ensures
        meaning::expr(x) matches Err(e) ==> fails(meaning::expr(RawExprView::InList {
            expr: Box::new(x), list, negated }), e),
        meaning::exprs(list) matches Err(e) ==> (meaning::expr(x) is Ok
            ==> fails(meaning::expr(RawExprView::InList { expr: Box::new(x), list, negated }), e)),
{
}

/// The operands of `BETWEEN` are looked at in their order.
pub proof fn lemma_between_fail(x: RawExprView, low: RawExprView, high: RawExprView, negated: bool)
    ensures
        meaning::expr(x) matches Err(e) ==> fails(meaning::expr(RawExprView::Between {
            expr: Box::new(x), low: Box::new(low), high: Box::new(high), negated }), e),
        meaning::expr(low) matches Err(e) ==> (meaning::expr(x) is Ok
            ==> fails(meaning::expr(RawExprView::Between { expr: Box::new(x), low: Box::new(low),
            high: Box::new(high), negated }), e)),
        meaning::expr(high) matches Err(e) ==> (meaning::expr(x) is Ok && meaning::expr(low) is Ok
            ==> fails(meaning::expr(RawExprView::Between { expr: Box::new(x), low: Box::new(low),
            high: Box::new(high), negated }), e)),
{
}

/// The operand of `LIKE` is looked at before the pattern.
pub proof fn lemma_like_fail(x: RawExprView, p: RawExprView, n: bool, c: bool)
    ensures
        meaning::expr(x) matches Err(e) ==> fails(meaning::like(x, p, n, false, false, c), e),
        meaning::string_of(p) matches Err(e) ==> (meaning::expr(x) is Ok
            ==> fails(meaning::like(x, p, n, false, false, c), e)),
{
}

/// What is wrong inside an expression is wrong with it.
pub proof fn lemma_inner_fail(x: RawExprView, v: RawValueView, f: RawFunctionView)
    ensures
        meaning::expr(x) matches Err(e) ==> fails(meaning::expr(RawExprView::IsNull(Box::new(x))),
            e),
        meaning::expr(x) matches Err(e) ==> fails(meaning::expr(RawExprView::IsNotNull(Box::new(
            x))), e),
        meaning::expr(x) matches Err(e) ==> fails(meaning::expr(RawExprView::Nested(Box::new(x))),
            e),
        meaning::expr(x) matches Err(e) ==> fails(meaning::opt_expr(Some(x)), e),
        meaning::expr(x) matches Err(e) ==> fails(meaning::argument(RawFunctionArgView::Expr(x)),
            e),
        meaning::value(v) matches Err(e) ==> fails(meaning::expr(RawExprView::Value(v)), e),
        meaning::table_name(f.name) matches Err(e) ==> fails(meaning::function(f), e),
        !f.over && !f.filter && f.within_group == 0 && !f.null_treatment && !f.parametric
            ==> (meaning::table_name(f.name) matches Ok(name)
            ==> (meaning::arguments(f.args, name) matches Err(e)
            ==> fails(meaning::function(f), e))),
{
}

/// Which tables of a query are refused.
pub proof fn lemma_factor_refused(s: Seq<char>, f: RawFactorView)
    ensures
        fails(meaning::factor(RawFactorView::Other(s)),
            ParseErrorView::UnsupportedStatement("Unsupported table factor: "@ + s)),
        f matches RawFactorView::Table { name, alias, args } ==> (args
            ==> fails(meaning::factor(
            f), ParseErrorView::UnsupportedStatement("table valued functions not supported"@))),
        f matches RawFactorView::Table { name, alias, args }
            ==> (!args && alias is Some && alias->0.columns > 0
            ==> fails(meaning::factor(
            f), ParseErrorView::UnsupportedStatement(
                "column aliases in table alias not supported"@))),
        f matches RawFactorView::Table { name, alias, args }
            ==> (!args && !(alias is Some && alias->0.columns > 0)
            ==> (meaning::table_name(name) matches Err(e) ==> fails(meaning::factor(f), e))),
{
}

/// A join is refused for its table, then for its type, then for its condition.
pub proof fn lemma_join_refused(j: RawJoinView, s: Seq<char>)
    ensures
        fails(meaning::join_kind(RawJoinOperatorView::Other(s)),
            ParseErrorView::UnsupportedStatement("Unsupported join type: "@ + s)),
        meaning::factor(j.relation) matches Err(e) ==> fails(meaning::join(j), e),
        meaning::factor(j.relation) is Ok ==> (meaning::join_kind(j.operator) matches Err(e)
            ==> fails(meaning::join(j), e)),
        meaning::factor(j.relation) is Ok ==> (meaning::join_kind(j.operator) matches Ok(k)
            ==> (meaning::condition(k.1, k.0) matches Err(e) ==> fails(meaning::join(j), e))),
{
}

/// A query reads from a table. The tables are looked at in their order.
pub proof fn lemma_from_refused(s: Seq<RawTableView>)
    ensures
        s.len() == 0 ==> fails(meaning::from(s), ParseErrorView::MissingClause("FROM"@)),
        s.len() > 0 ==> (meaning::factor(s[0].relation) matches Err(e)
            ==> fails(meaning::from(s), e)),
        s.len() > 0 && meaning::factor(s[0].relation) is Ok
            ==> (meaning::joins(s[0].joins) matches Err(e) ==> fails(meaning::from(s), e)),
        s.len() > 0 && meaning::factor(s[0].relation) is Ok && meaning::joins(s[0].joins) is Ok
            ==> (meaning::all_further(s.skip(1)) matches Err(e) ==> fails(meaning::from(s), e)),
{
}

/// Which items of a projection are refused.
pub proof fn lemma_item_refused(s: Seq<char>, x: RawExprView, aliases: Seq<Seq<char>>,
    n: RawNameView, a: Seq<char>)
    ensures
        fails(meaning::item(RawSelectItemView::QualifiedOther(s)),
            ParseErrorView::UnsupportedExpression("Unsupported qualified wildcard: "@ + s)),
        aliases.len() > 1 ==> fails(meaning::item(RawSelectItemView::ExprWithAliases { expr: x,
            aliases }),
            ParseErrorView::UnsupportedExpression("multiple aliases for a single select item"@)),
        meaning::table_name(n) matches Err(e) ==> fails(meaning::item(
            RawSelectItemView::QualifiedWildcard(n)), e),
        meaning::expr(x) matches Err(e) ==> fails(meaning::item(RawSelectItemView::UnnamedExpr(x)),
            e),
        meaning::expr(x) matches Err(e) ==> fails(meaning::item(RawSelectItemView::ExprWithAlias {
            expr: x, alias: a }), e),
        aliases.len() <= 1 ==> (meaning::expr(x) matches Err(e)
            ==> fails(meaning::item(RawSelectItemView::ExprWithAliases { expr: x, aliases }), e)),
{
}

/// Which orderings are refused.
pub proof fn lemma_order_refused(k: RawOrderByExprView, o: RawOrderView, s: Seq<char>)
    ensures
        k.with_fill ==> fails(meaning::key(k),
            ParseErrorView::UnsupportedStatement("ORDER BY ... WITH FILL not supported"@)),
        !k.with_fill && k.sort == RawSortView::Other(s)
            ==> fails(meaning::key(
            k), ParseErrorView::UnsupportedStatement("ORDER BY "@ + s + " not supported"@)),
        !k.with_fill && !(k.sort is Other) ==> (meaning::expr(k.expr) matches Err(e)
            ==> fails(meaning::key(k), e)),
        o.interpolate ==> fails(meaning::order(o),
            ParseErrorView::UnsupportedStatement("ORDER BY ... INTERPOLATE not supported"@)),
        !o.interpolate && o.kind is All ==> fails(meaning::order(o),
            ParseErrorView::UnsupportedStatement("ORDER BY ALL not supported"@)),
        !o.interpolate ==> (o.kind matches RawOrderByView::Expressions(ks)
            ==> (meaning::keys(ks) matches Err(e) ==> fails(meaning::order(o), e))),
{
}

/// `LIMIT` is looked at before `OFFSET`.
pub proof fn lemma_limits_refused(l: RawLimitView)
    ensures
        l matches RawLimitView::LimitOffset { limit, offset, limit_by } ==> (limit_by > 0
            ==> fails(meaning::limits(
            l), ParseErrorView::UnsupportedStatement("LIMIT BY not supported"@))),
        l matches RawLimitView::LimitOffset { limit: Some(n), offset, limit_by } ==> (limit_by == 0
            ==> (meaning::count(n, "LIMIT"@) matches Err(e) ==> fails(meaning::limits(l), e))),
        l matches RawLimitView::LimitOffset { limit: None, offset: Some(m), limit_by }
            ==> (limit_by == 0 ==> (meaning::count(m, "OFFSET"@) matches Err(e)
            ==> fails(meaning::limits(l), e))),
        l matches RawLimitView::LimitOffset { limit: Some(n), offset: Some(m), limit_by }
            ==> (limit_by == 0 && meaning::count(n, "LIMIT"@) is Ok
            ==> (meaning::count(m, "OFFSET"@) matches Err(e) ==> fails(meaning::limits(l), e))),
        l matches RawLimitView::OffsetCommaLimit { offset, limit }
            ==> (meaning::count(limit, "LIMIT"@) matches Err(e) ==> fails(meaning::limits(l), e)),
        l matches RawLimitView::OffsetCommaLimit { offset, limit }
            ==> (meaning::count(limit, "LIMIT"@) is Ok
            ==> (meaning::count(offset, "OFFSET"@) matches Err(e)
            ==> fails(meaning::limits(l), e))),
{
}

/// Which forms of `DISTINCT` and `GROUP BY` are refused.
pub proof fn lemma_select_parts_refused(s: Seq<char>, xs: Seq<RawExprView>, modifiers: usize)
    ensures
        fails(meaning::distinct(RawDistinctView::Other(s)),
            ParseErrorView::UnsupportedStatement(s + " not supported"@)),
        fails(meaning::group(RawGroupByView::All),
            ParseErrorView::UnsupportedStatement("GROUP BY ALL not supported"@)),
        modifiers > 0 ==> fails(meaning::group(RawGroupByView::Expressions { exprs: xs,
            modifiers }),
            ParseErrorView::UnsupportedStatement(
                "GROUP BY ROLLUP/CUBE/GROUPING SETS not supported"@)),
        modifiers == 0 ==> (meaning::exprs(xs) matches Err(e)
            ==> fails(meaning::group(RawGroupByView::Expressions { exprs: xs, modifiers }), e)),
{
}

/// A query is a `SELECT`.
pub proof fn lemma_body_refused(q: RawQueryView, s: Seq<char>)
    requires
        meaning::query_refusal(q) is None,
    ensures
        q.body == RawBodyView::Other(s) ==> fails(meaning::query(q),
            ParseErrorView::UnsupportedStatement("Unsupported query type: "@ + s)),
        q.body matches RawBodyView::Values { rows, text }
            ==> fails(meaning::query(
            q), ParseErrorView::UnsupportedStatement("Unsupported query type: "@ + text)),
{
}

/// The clauses of a query are looked at in their order, and the first that is wrong is what the
/// query is refused for.
pub proof fn lemma_query_fail(q: RawQueryView, s: RawSelectView)
    requires
        meaning::query_refusal(q) is None,
        meaning::select_refusal(s.flags) is None,
        q.body == RawBodyView::Select(s),
    ensures
        meaning::distinct(s.distinct) matches Err(e) ==> fails(meaning::query(q), e),
        meaning::from(s.from) matches Err(e) ==> (meaning::distinct(s.distinct) is Ok
            ==> fails(meaning::query(q), e)),
        meaning::items(s.projection) matches Err(e)
            ==> (meaning::distinct(s.distinct) is Ok && meaning::from(s.from) is Ok
            ==> fails(meaning::query(q), e)),
        meaning::opt_expr(s.selection) matches Err(e)
            ==> (meaning::distinct(s.distinct) is Ok && meaning::from(s.from) is Ok
            && meaning::items(s.projection) is Ok ==> fails(meaning::query(q), e)),
        meaning::group(s.group_by) matches Err(e)
            ==> (meaning::distinct(s.distinct) is Ok && meaning::from(s.from) is Ok
            && meaning::items(s.projection) is Ok && meaning::opt_expr(s.selection) is Ok
            ==> fails(meaning::query(q), e)),
        meaning::opt_expr(s.having) matches Err(e)
            ==> (meaning::distinct(s.distinct) is Ok && meaning::from(s.from) is Ok
            && meaning::items(s.projection) is Ok && meaning::opt_expr(s.selection) is Ok
            && meaning::group(s.group_by) is Ok ==> fails(meaning::query(q), e)),
        meaning::opt_order(q.order_by) matches Err(e)
            ==> (meaning::distinct(s.distinct) is Ok && meaning::from(s.from) is Ok
            && meaning::items(s.projection) is Ok && meaning::opt_expr(s.selection) is Ok
            && meaning::group(s.group_by) is Ok && meaning::opt_expr(s.having) is Ok
            ==> fails(meaning::query(q), e)),
        meaning::limits(q.limit) matches Err(e)
            ==> (meaning::distinct(s.distinct) is Ok && meaning::from(s.from) is Ok
            && meaning::items(s.projection) is Ok && meaning::opt_expr(s.selection) is Ok
            && meaning::group(s.group_by) is Ok && meaning::opt_expr(s.having) is Ok
            && meaning::opt_order(q.order_by) is Ok ==> fails(meaning::query(q), e)),
{
}

/// Rows are inserted into a table.
pub proof fn lemma_object_refused(f: RawTableObjectView)
    ensures
        f is Function ==> fails(meaning::object(f),
            ParseErrorView::UnsupportedStatement("table function not supported"@)),
        f is Query ==> fails(meaning::object(f),
            ParseErrorView::UnsupportedStatement("table query not supported"@)),
        f matches RawTableObjectView::Name(n) ==> (meaning::table_name(n) matches Err(e)
            ==> fails(meaning::object(f), e)),
{
}

/// Where rows may come from.
pub proof fn lemma_source_refused(q: RawQueryView)
    ensures
        fails(meaning::source(
            None), ParseErrorView::MissingClause("INSERT requires VALUES or SELECT"@)),
        q.body is Values && (q.order_by is Some || !(q.limit is Absent) || q.with)
            ==> fails(meaning::source(Some(q)),
            ParseErrorView::UnsupportedStatement(
                "ORDER BY / LIMIT / WITH on INSERT ... VALUES not supported"@)),
        q.body matches RawBodyView::Values { rows, text }
            ==> (q.order_by is None && q.limit is Absent && !q.with
            ==> (meaning::rows(rows) matches Err(e) ==> fails(meaning::source(Some(q)), e))),
        !(q.body is Values) ==> (meaning::query(q) matches Err(e)
            ==> fails(meaning::source(Some(q)), e)),
{
}

/// The parts of an `INSERT` are looked at in their order.
pub proof fn lemma_insert_fail(i: RawInsertView)
    requires
        meaning::insert_refusal(i.flags) is None,
    ensures
        meaning::object(i.table) matches Err(e) ==> fails(meaning::insert(i), e),
        meaning::insert_columns(i.columns) matches Err(e) ==> (meaning::object(i.table) is Ok
            ==> fails(meaning::insert(i), e)),
        meaning::source(i.source) matches Err(e)
            ==> (meaning::object(i.table) is Ok && meaning::insert_columns(i.columns) is Ok
            ==> fails(meaning::insert(i), e)),
        i.columns.len() > 0 ==> (meaning::table_names(i.columns) matches Err(e)
            ==> fails(meaning::insert_columns(i.columns), e)),
        i.columns.len() == 0 ==> meaning::insert_columns(i.columns) is Ok,
{
}

/// Which assignment targets are refused.
pub proof fn lemma_target_refused(n: RawNameView, parts: Seq<Seq<char>>, table: Seq<char>,
    alias: Option<Seq<char>>)
    requires
        meaning::idents(n.parts) == Ok::<Seq<Seq<char>>, ParseErrorView>(parts),
    ensures
        fails(meaning::target(RawTargetView::Tuple, table, alias),
            ParseErrorView::UnsupportedExpression("tuple assignment targets not supported"@)),
        parts.len() != 1 && parts.len() != 2 ==> fails(meaning::target(RawTargetView::Column(n),
            table, alias), ParseErrorView::InvalidIdentifier(n.text)),
        parts.len() == 2 && alias is None && !text::same_letters(parts[0], table)
            ==> fails(meaning::target(RawTargetView::Column(n), table, alias),
            ParseErrorView::InvalidIdentifier(
                "assignment target "@ + parts[0] + "."@ + parts[1] + " does not refer to table "@
                + table)),
        alias matches Some(a) ==> (parts.len() == 2 && !text::same_letters(parts[0], a)
            ==> fails(meaning::target(RawTargetView::Column(n), table, alias),
            ParseErrorView::InvalidIdentifier(
                "assignment target "@ + parts[0] + "."@ + parts[1] + " does not refer to table "@
                + a))),
{
}

/// The first part of a name that is no identifier is what the name is refused for.
pub proof fn lemma_idents_fail(s: Seq<RawPartView>, i: int)
    requires
        0 <= i < s.len(),
        forall|j: int| 0 <= j < i ==> (#[trigger] s[j]).ident is Some,
        s[i].ident is None,
    ensures
        fails(meaning::idents(s), ParseErrorView::InvalidIdentifier(s[i].text)),
    decreases s.len(),
{
    if i > 0 {
        let rest = s.skip(1);
        assert(s[0].ident is Some);
        assert forall|j: int| 0 <= j < i - 1 implies (#[trigger] rest[j]).ident is Some by {
            assert(rest[j] == s[j + 1]);
        }
        assert(rest[i - 1] == s[i]);
        lemma_idents_fail(rest, i - 1);
    }
}

/// The target of an assignment is looked at before its value.
pub proof fn lemma_assignment_fail(a: RawAssignmentView, table: Seq<char>, alias: Option<Seq<char>>)
    ensures
        meaning::target(a.target, table, alias) matches Err(e)
            ==> fails(meaning::assignment(a, table, alias), e),
        meaning::expr(a.value) matches Err(e) ==> (meaning::target(a.target, table, alias) is Ok
            ==> fails(meaning::assignment(a, table, alias), e)),
        a.target matches RawTargetView::Column(n) ==> (meaning::idents(n.parts) matches Err(e)
            ==> fails(meaning::target(a.target, table, alias), e)),
{
}

/// The table of an `UPDATE` is looked at first, then its assignments, then its condition.
pub proof fn lemma_update_fail(u: RawUpdateView)
    requires
        meaning::update_refusal(u.flags) is None,
    ensures
        meaning::single_table(u.table) matches Err(e) ==> fails(meaning::update(u), e),
        meaning::single_table(u.table) matches Ok(t)
            ==> (meaning::assignments(u.assignments, t.0, t.1) matches Err(e)
            ==> fails(meaning::update(u), e)),
        meaning::single_table(u.table) matches Ok(t)
            ==> (meaning::assignments(u.assignments, t.0, t.1) is Ok
            ==> (meaning::opt_expr(u.selection) matches Err(e) ==> fails(meaning::update(u), e))),
        u.table.joins.len() == 0 ==> (meaning::factor(u.table.relation) matches Err(e)
            ==> fails(meaning::single_table(u.table), e)),
{
}

/// The table of a `DELETE` is looked at before its condition. There is one table.
pub proof fn lemma_delete_fail(d: RawDeleteView)
    requires
        meaning::delete_refusal(d.flags) is None,
    ensures
        d.from.len() != 1 ==> fails(meaning::delete(d),
            ParseErrorView::UnsupportedStatement("DELETE from multiple tables not supported"@)),
        d.from.len() == 1 ==> (meaning::single_table(d.from[0]) matches Err(e)
            ==> fails(meaning::delete(d), e)),
        d.from.len() == 1 && meaning::single_table(d.from[0]) is Ok
            ==> (meaning::opt_expr(d.selection) matches Err(e) ==> fails(meaning::delete(d), e)),
{
}

/// Which columns of a table are refused.
pub proof fn lemma_column_refused(s: Seq<char>, c: RawColumnDefView, x: RawExprView)
    ensures
        meaning::data_type(s) matches Err(e) ==> e == ParseErrorView::UnsupportedDataType(s),
        fails(meaning::column_option(RawColumnOptionView::Other(s)),
            ParseErrorView::UnsupportedStatement("column option not supported: "@ + s)),
        meaning::expr(x) matches Err(e) ==> fails(meaning::column_option(
            RawColumnOptionView::Default(x)), e),
        meaning::data_type(c.data_type) matches Err(e) ==> fails(meaning::column(c), e),
        meaning::column_options(c.options, Seq::empty()) matches Err(e)
            ==> (meaning::data_type(c.data_type) is Ok ==> fails(meaning::column(c), e)),
{
}

/// The first option of a column that is refused is what the column is refused for.
pub proof fn lemma_options_fail(s: Seq<RawColumnOptionView>, acc: Seq<ColumnConstraintView>, i: int,
    e: ParseErrorView)
    requires
        0 <= i < s.len(),
        forall|j: int| 0 <= j < i ==> meaning::column_option(#[trigger] s[j]) is Ok,
        fails(meaning::column_option(s[i]), e),
    ensures
        fails(meaning::column_options(s, acc), e),
    decreases s.len(),
{
    if i > 0 {
        let rest = s.skip(1);
        assert(meaning::column_option(s[0]) is Ok);
        assert forall|j: int| 0 <= j < i - 1 implies meaning::column_option(
            #[trigger] rest[j],
        ) is Ok by {
            assert(rest[j] == s[j + 1]);
        }
        assert(rest[i - 1] == s[i]);
        let more = match meaning::column_option(s[0])->Ok_0 {
            Some(c) => meaning::with_item(acc, c),
            None => acc,
        };
        lemma_options_fail(rest, more, i - 1, e);
    }
}

/// Which columns of a table constraint are refused.
pub proof fn lemma_key_refused(s: Seq<RawIndexColumnView>, columns: Seq<ColumnDefView>,
    acc: Seq<Seq<char>>)
    requires
        s.len() > 0,
    ensures
        s[0].ident is None ==> fails(meaning::key_columns(s, columns, acc),
            ParseErrorView::UnsupportedExpression(
                "constraint column must be a plain column name: "@ + s[0].text)),
        s[0].ident matches Some(name) ==> (meaning::find_column(columns, name) is None
            ==> fails(meaning::key_columns(s, columns, acc),
            ParseErrorView::InvalidIdentifier("constraint references unknown column "@ + name))),
        s[0].ident matches Some(name) ==> (meaning::find_column(columns, name) matches Some(c)
            ==> (acc.contains(c) ==> fails(meaning::key_columns(s, columns, acc),
            ParseErrorView::InvalidIdentifier("column "@ + c + " listed twice in constraint"@)))),
        s[0].ident matches Some(name) ==> (meaning::find_column(columns, name) matches Some(c)
            ==> (!acc.contains(c) ==> meaning::key_columns(s, columns,
            acc) == meaning::key_columns(s.skip(1), columns, acc.push(c)))),
{
}

/// Which table constraints are refused.
pub proof fn lemma_constraint_refused(s: Seq<char>, c: Seq<RawIndexColumnView>,
    columns: Seq<ColumnDefView>, k: Keys)
    ensures
        fails(meaning::key_step(RawTableConstraintView::Other(s), columns, k),
            ParseErrorView::UnsupportedStatement("table constraint not supported: "@ + s)),
        k.primary.len() > 0 ==> fails(meaning::key_step(RawTableConstraintView::PrimaryKey(c),
            columns, k),
            ParseErrorView::UnsupportedStatement("multiple PRIMARY KEY declarations"@)),
        k.primary.len() == 0 ==> (meaning::key_columns(c, columns, Seq::empty()) matches Err(e)
            ==> fails(meaning::key_step(RawTableConstraintView::PrimaryKey(c), columns, k), e)),
        meaning::key_columns(c, columns, Seq::empty()) matches Err(e)
            ==> fails(meaning::key_step(RawTableConstraintView::Unique(c), columns, k), e),
{
}

/// A table has one primary key. The table constraints are looked at in their order.
pub proof fn lemma_table_refused(name: Seq<char>, columns: Seq<ColumnDefView>,
    cs: Seq<RawTableConstraintView>, b: bool)
    ensures
        meaning::own_keys(columns).primary.len() > 1
            ==> fails(meaning::table(name, columns, cs, b),
            ParseErrorView::UnsupportedStatement(
                "multiple column level PRIMARY KEY declarations, use PRIMARY KEY (a, b)"@)),
        meaning::own_keys(columns).primary.len() <= 1
            ==> (meaning::key_steps(cs, columns, meaning::own_keys(columns)) matches Err(e)
            ==> fails(meaning::table(name, columns, cs, b), e)),
{
}

/// The first table constraint that is refused is what the table is refused for.
pub proof fn lemma_steps_fail(s: Seq<RawTableConstraintView>, columns: Seq<ColumnDefView>, k: Keys)
    ensures
        s.len() > 0 ==> (meaning::key_step(s[0], columns, k) matches Err(e)
            ==> fails(meaning::key_steps(s, columns, k), e)),
        s.len() > 0 ==> (meaning::key_step(s[0], columns, k) matches Ok(m)
            ==> meaning::key_steps(s, columns, k) == meaning::key_steps(s.skip(1), columns, m)),
{
}

/// The name of a new table is looked at first, then its columns, then its constraints.
pub proof fn lemma_create_fail(c: RawCreateTableView)
    requires
        meaning::create_refusal(c) is None,
    ensures
        meaning::table_name(c.name) matches Err(e) ==> fails(meaning::create_table(c), e),
        meaning::columns(c.columns) matches Err(e) ==> (meaning::table_name(c.name) is Ok
            ==> fails(meaning::create_table(c), e)),
{
}

/// What may be dropped: one table.
pub proof fn lemma_drop_refused(t: Seq<char>, names: Seq<RawNameView>, b: bool)
    ensures
        t != "Table"@ ==> fails(meaning::drop_table(t, names, b),
            ParseErrorView::UnsupportedStatement("DROP "@ + t + " not supported"@)),
        t == "Table"@ && names.len() != 1 ==> fails(meaning::drop_table(t, names, b),
            ParseErrorView::UnsupportedStatement("DROP multiple tables not supported"@)),
        t == "Table"@ && names.len() == 1 ==> (meaning::table_name(names[0]) matches Err(e)
            ==> fails(meaning::drop_table(t, names, b), e)),
{
}

/// What is wrong with a statement is what its text is refused for.
pub proof fn lemma_statement_fail(c: RawCreateTableView, q: RawQueryView, n: RawNameView,
    s: Seq<char>)
    ensures
        meaning::create_table(c) matches Err(e)
            ==> fails(meaning::statement(RawStatementView::CreateTable(c)), e),
        meaning::query(q) matches Err(e) ==> fails(meaning::statement(RawStatementView::Query(q)),
            e),
        meaning::table_name(n) matches Err(e) ==> fails(meaning::statement(
            RawStatementView::ExplainTable(n)), e),
        fails(meaning::statement(RawStatementView::Other(s)),
            ParseErrorView::UnsupportedStatement(s)),
{
}

/// A `DESCRIBE` names a table, and a text of several statements is one that the SQL parser takes.
pub proof fn lemma_parse_refused(sql: Seq<char>, b: Seq<char>)
    requires
        b == text::trimmed(text::trim_end_of(text::trimmed(sql), ';')),
    ensures
        text::trimmed(sql).len() > 0 && (text::has_prefix(text::uppercase(b), "DESCRIBE "@)
            || text::has_prefix(text::uppercase(b), "DESC "@)) && text::second_word_of(b) is None
            ==> fails(meaning::parse(sql), ParseErrorView::MissingClause("table name"@)),
        reader::parsed(sql) matches Err(m) ==> fails(meaning::parse_multi(sql),
            ParseErrorView::SqlParser(m)),
{
    let u = text::uppercase(b);
    reveal_strlit("DESCRIBE ");
    reveal_strlit("DESC ");
    reveal_strlit("BEGIN");
    reveal_strlit("BEGIN TRANSACTION");
    reveal_strlit("START TRANSACTION");
    reveal_strlit("COMMIT");
    reveal_strlit("ROLLBACK");
    reveal_strlit("SHOW TABLES");
    reveal_strlit("SHOW TABLE");
    assert("DESCRIBE "@.len() == 9 && "DESCRIBE "@[0] == 'D');
    assert("DESC "@.len() == 5 && "DESC "@[0] == 'D');
    assert("BEGIN"@[0] == 'B' && "BEGIN TRANSACTION"@[0] == 'B');
    assert("START TRANSACTION"@[0] == 'S' && "COMMIT"@[0] == 'C' && "ROLLBACK"@[0] == 'R');
    assert("SHOW TABLES"@[0] == 'S' && "SHOW TABLE"@[0] == 'S');
    assert(text::has_prefix(u, "DESCRIBE "@) ==> u.take(9)[0] == u[0]);
    assert(text::has_prefix(u, "DESC "@) ==> u.take(5)[0] == u[0]);
}

} // verus!
