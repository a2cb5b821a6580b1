//! What the statements of the SQL parser mean: the statement of this library,
//! or the first error in the order in which the parts are looked at.

use super::ast::{
    AssignmentView, BinaryOperator, ColumnConstraintView, ColumnDefView, CreateTableView,
    DeleteView, DropTableView, ExprView, FunctionArgsView, InsertSourceView, InsertView, JoinType,
    JoinView, LiteralValueView, OrderByView, SelectColumnView, SelectView, SqlDataType,
    StatementView, TableRefView, UnaryOperator, UpdateView,
};
use super::error::ParseErrorView;
use super::raw::{
    RawArgumentsView, RawAssignmentView, RawBodyView, RawColumnDefView, RawColumnOptionView,
    RawConstraintView, RawCountView, RawCreateTableView, RawDeleteView, RawDistinctView,
    RawExprView, RawFactorView, RawFunctionArgView, RawFunctionView, RawGroupByView,
    RawIndexColumnView, RawInsertFlagsView, RawInsertView, RawJoinOperatorView, RawJoinView,
    RawLimitView, RawNameView, RawOrderByExprView, RawOrderByView, RawOrderView, RawPartView,
    RawQueryView, RawSelectFlagsView, RawSelectItemView, RawSortView, RawStatementView,
    RawTableConstraintView, RawTableObjectView, RawTableView, RawTargetView, RawUpdateFlagsView,
    RawUpdateView, RawDeleteFlagsView, RawValueView,
};
use super::reader;
use super::text;
use vstd::prelude::*;

verus! {

/// A value or an error.
pub type Outcome<T> = Result<T, ParseErrorView>;

/// The error for a statement that is not supported.
pub open spec fn bad_statement<T>(s: Seq<char>) -> Outcome<T> {
    Err(ParseErrorView::UnsupportedStatement(s))
}

/// The error for an expression that is not supported.
pub open spec fn bad_expression<T>(s: Seq<char>) -> Outcome<T> {
    Err(ParseErrorView::UnsupportedExpression(s))
}

/// The error for an identifier that is not valid.
pub open spec fn bad_identifier<T>(s: Seq<char>) -> Outcome<T> {
    Err(ParseErrorView::InvalidIdentifier(s))
}

/// The error for a clause that is missing.
pub open spec fn missing<T>(s: Seq<char>) -> Outcome<T> {
    Err(ParseErrorView::MissingClause(s))
}

/// Items before the items of an outcome.
pub open spec fn prepend<T>(v: Seq<T>, r: Outcome<Seq<T>>) -> Outcome<Seq<T>> {
    match r {
        Ok(w) => Ok(v + w),
        Err(e) => Err(e),
    }
}

/// To prepend one item, and others before it, is to prepend them all.
pub proof fn lemma_prepend<T>(v: Seq<T>, x: T, r: Outcome<Seq<T>>)
    ensures
        prepend(v, prepend(seq![x], r)) == prepend(v.push(x), r),
{
    if let Ok(w) = r {
        assert(v + (seq![x] + w) =~= v.push(x) + w);
    }
}

/// The name of a table, a column or a function: its last part.
pub open spec fn table_name(n: RawNameView) -> Outcome<Seq<char>> {
    if n.parts.len() == 0 {
        bad_identifier("empty table name"@)
    } else {
        match n.parts.last().ident {
            Some(s) => Ok(s),
            None => Ok(n.parts.last().text),
        }
    }
}

/// The names of columns.
pub open spec fn table_names(s: Seq<RawNameView>) -> Outcome<Seq<Seq<char>>>
    decreases s,
{
    if s.len() == 0 {
        Ok(Seq::empty())
    } else {
        match table_name(s[0]) {
            Ok(x) => prepend(seq![x], table_names(s.skip(1))),
            Err(e) => Err(e),
        }
    }
}

/// A literal. A number is an integer if it fits in 64 bits.
pub open spec fn value(v: RawValueView) -> Outcome<LiteralValueView> {
    match v {
        RawValueView::Null => Ok(LiteralValueView::Null),
        RawValueView::Boolean(b) => Ok(LiteralValueView::Boolean(b)),
        RawValueView::Number(s) => match text::integer_of(s) {
            Some(n) if i64::MIN <= n <= i64::MAX => Ok(LiteralValueView::Integer(n as i64)),
            _ => if text::is_float(s) {
                Ok(LiteralValueView::Float(s))
            } else {
                bad_expression("Invalid number: "@ + s)
            },
        },
        RawValueView::SingleQuoted(s) => Ok(LiteralValueView::String(s)),
        RawValueView::DoubleQuoted(s) => Ok(LiteralValueView::String(s)),
        RawValueView::Other(s) => bad_expression("Unsupported value: "@ + s),
    }
}

/// A binary operator by its name.
pub open spec fn binary_op(s: Seq<char>) -> Outcome<BinaryOperator> {
    if s == "Eq"@ {
        Ok(BinaryOperator::Eq)
    } else if s == "NotEq"@ {
        Ok(BinaryOperator::NotEq)
    } else if s == "Lt"@ {
        Ok(BinaryOperator::Lt)
    } else if s == "LtEq"@ {
        Ok(BinaryOperator::LtEq)
    } else if s == "Gt"@ {
        Ok(BinaryOperator::Gt)
    } else if s == "GtEq"@ {
        Ok(BinaryOperator::GtEq)
    } else if s == "And"@ {
        Ok(BinaryOperator::And)
    } else if s == "Or"@ {
        Ok(BinaryOperator::Or)
    } else if s == "Plus"@ {
        Ok(BinaryOperator::Plus)
    } else if s == "Minus"@ {
        Ok(BinaryOperator::Minus)
    } else if s == "Multiply"@ {
        Ok(BinaryOperator::Multiply)
    } else if s == "Divide"@ {
        Ok(BinaryOperator::Divide)
    } else if s == "Modulo"@ {
        Ok(BinaryOperator::Modulo)
    } else if s == "StringConcat"@ {
        Ok(BinaryOperator::Concat)
    } else {
        bad_expression("Unsupported operator: "@ + s)
    }
}

/// A unary operator by its name.
pub open spec fn unary_op(s: Seq<char>) -> Outcome<UnaryOperator> {
    if s == "Not"@ {
        Ok(UnaryOperator::Not)
    } else if s == "Minus"@ {
        Ok(UnaryOperator::Minus)
    } else if s == "Plus"@ {
        Ok(UnaryOperator::Plus)
    } else {
        bad_expression("Unsupported unary operator: "@ + s)
    }
}

/// The string that an expression is.
pub open spec fn string_of(e: RawExprView) -> Outcome<Seq<char>> {
    match e {
        RawExprView::Value(RawValueView::SingleQuoted(s)) => Ok(s),
        RawExprView::Value(RawValueView::DoubleQuoted(s)) => Ok(s),
        RawExprView::Value(_) => bad_expression("expected string"@),
        _ => bad_expression("expected string literal"@),
    }
}

/// A column that is qualified by its table.
pub open spec fn qualified(parts: Seq<Seq<char>>, debug: Seq<char>) -> Outcome<
    (Seq<char>, Seq<char>),
> {
    if parts.len() == 2 {
        Ok((parts[0], parts[1]))
    } else {
        bad_expression("Unsupported identifier depth: "@ + debug)
    }
}

/// `a IS NULL` or `a IS NOT NULL`.
pub open spec fn null_test(e: Outcome<ExprView>, negated: bool) -> Outcome<ExprView> {
    match e {
        Ok(x) => Ok(ExprView::IsNull { expr: Box::new(x), negated }),
        Err(e) => Err(e),
    }
}

/// An expression.
pub open spec fn expr(e: RawExprView) -> Outcome<ExprView>
    decreases e, 0nat,
{
    match e {
        RawExprView::Identifier(s) => Ok(ExprView::Column { table: None, name: s }),
        RawExprView::CompoundIdentifier { parts, debug } => match qualified(parts, debug) {
            Ok((table, name)) => Ok(ExprView::Column { table: Some(table), name }),
            Err(e) => Err(e),
        },
        RawExprView::Value(v) => match value(v) {
            Ok(v) => Ok(ExprView::Literal(v)),
            Err(e) => Err(e),
        },
        RawExprView::BinaryOp { left, op, right } => match (
            expr(*left),
            expr(*right),
            binary_op(op),
        ) {
            (Err(e), _, _) => Err(e),
            (_, Err(e), _) => Err(e),
            (_, _, Err(e)) => Err(e),
            (Ok(l), Ok(r), Ok(o)) => Ok(
                ExprView::BinaryOp { left: Box::new(l), op: o, right: Box::new(r) },
            ),
        },
        RawExprView::UnaryOp { op, expr: x } => match (expr(*x), unary_op(op)) {
            (Err(e), _) => Err(e),
            (_, Err(e)) => Err(e),
            (Ok(v), Ok(o)) => Ok(ExprView::UnaryOp { op: o, expr: Box::new(v) }),
        },
        RawExprView::IsNull(x) => null_test(expr(*x), false),
        RawExprView::IsNotNull(x) => null_test(expr(*x), true),
        RawExprView::InList { expr: x, list, negated } => match (expr(*x), exprs(list)) {
            (Err(e), _) => Err(e),
            (_, Err(e)) => Err(e),
            (Ok(v), Ok(l)) => Ok(ExprView::InList { expr: Box::new(v), list: l, negated }),
        },
        RawExprView::Between { expr: x, low, high, negated } => match (
            expr(*x),
            expr(*low),
            expr(*high),
        ) {
            (Err(e), _, _) => Err(e),
            (_, Err(e), _) => Err(e),
            (_, _, Err(e)) => Err(e),
            (Ok(v), Ok(l), Ok(h)) => Ok(
                ExprView::Between {
                    expr: Box::new(v),
                    low: Box::new(l),
                    high: Box::new(h),
                    negated,
                },
            ),
        },
        RawExprView::Like { expr: x, pattern, negated, any, escape, case_insensitive } => {
            like(*x, *pattern, negated, any, escape, case_insensitive)
        },
        RawExprView::Function(f) => function(f),
        RawExprView::Nested(x) => match expr(*x) {
            Ok(v) => Ok(ExprView::Nested(Box::new(v))),
            Err(e) => Err(e),
        },
        RawExprView::Other(s) => bad_expression(s),
    }
}

/// `LIKE` or `ILIKE`.
pub open spec fn like(
    e: RawExprView,
    pattern: RawExprView,
    negated: bool,
    any: bool,
    escape: bool,
    case_insensitive: bool,
) -> Outcome<ExprView>
    decreases e, 1nat,
{
    if any {
        bad_expression("LIKE ANY not supported"@)
    } else if escape {
        bad_expression("LIKE ... ESCAPE not supported"@)
    } else {
        match (expr(e), string_of(pattern)) {
            (Err(e), _) => Err(e),
            (_, Err(e)) => Err(e),
            (Ok(v), Ok(p)) => Ok(
                ExprView::Like { expr: Box::new(v), pattern: p, negated, case_insensitive },
            ),
        }
    }
}

/// Expressions.
pub open spec fn exprs(s: Seq<RawExprView>) -> Outcome<Seq<ExprView>>
    decreases s, 0nat,
{
    if s.len() == 0 {
        Ok(Seq::empty())
    } else {
        match expr(s[0]) {
            Ok(x) => prepend(seq![x], exprs(s.skip(1))),
            Err(e) => Err(e),
        }
    }
}

/// A function call.
pub open spec fn function(f: RawFunctionView) -> Outcome<ExprView>
    decreases f, 0nat,
{
    match table_name(f.name) {
        Err(e) => Err(e),
        Ok(name) => if f.over {
            bad_expression("window function "@ + name + " not supported"@)
        } else if f.filter || f.within_group > 0 || f.null_treatment {
            bad_expression(
                "FILTER / WITHIN GROUP / null treatment on "@ + name + " not supported"@,
            )
        } else if f.parametric {
            bad_expression("parametric function "@ + name + " not supported"@)
        } else {
            match arguments(f.args, name) {
                Ok(args) => Ok(ExprView::Function { name, args }),
                Err(e) => Err(e),
            }
        },
    }
}

/// The arguments of the function `name`. A sole `*` is special, unless it is to
/// be distinct.
pub open spec fn arguments(a: RawArgumentsView, name: Seq<char>) -> Outcome<FunctionArgsView>
    decreases a, 0nat,
{
    match a {
        RawArgumentsView::Absent => Ok(
            FunctionArgsView::List { args: Seq::empty(), distinct: false },
        ),
        RawArgumentsView::Subquery => bad_expression(
            "subquery as function argument not supported"@,
        ),
        RawArgumentsView::List { clauses, distinct, args } => if clauses > 0 {
            bad_expression("function argument clauses on "@ + name + " not supported"@)
        } else if args.len() == 1 && args[0] is Wildcard && !distinct {
            Ok(FunctionArgsView::Star)
        } else {
            match argument_list(args) {
                Ok(args) => Ok(FunctionArgsView::List { args, distinct }),
                Err(e) => Err(e),
            }
        },
    }
}

/// An argument.
pub open spec fn argument(a: RawFunctionArgView) -> Outcome<ExprView>
    decreases a, 0nat,
{
    match a {
        RawFunctionArgView::Expr(e) => expr(e),
        RawFunctionArgView::Wildcard(s) => bad_expression("function argument not supported: "@ + s),
        RawFunctionArgView::Other(s) => bad_expression("function argument not supported: "@ + s),
    }
}

/// Arguments.
pub open spec fn argument_list(s: Seq<RawFunctionArgView>) -> Outcome<Seq<ExprView>>
    decreases s, 0nat,
{
    if s.len() == 0 {
        Ok(Seq::empty())
    } else {
        match argument(s[0]) {
            Ok(x) => prepend(seq![x], argument_list(s.skip(1))),
            Err(e) => Err(e),
        }
    }
}

/// An expression that may be missing.
pub open spec fn opt_expr(e: Option<RawExprView>) -> Outcome<Option<ExprView>> {
    match e {
        Some(x) => match expr(x) {
            Ok(v) => Ok(Some(v)),
            Err(e) => Err(e),
        },
        None => Ok(None),
    }
}

/// Rows of expressions.
pub open spec fn rows(s: Seq<Seq<RawExprView>>) -> Outcome<Seq<Seq<ExprView>>>
    decreases s,
{
    if s.len() == 0 {
        Ok(Seq::empty())
    } else {
        match exprs(s[0]) {
            Ok(x) => prepend(seq![x], rows(s.skip(1))),
            Err(e) => Err(e),
        }
    }
}

/// A table of a query: its name and its alias.
pub open spec fn factor(f: RawFactorView) -> Outcome<(Seq<char>, Option<Seq<char>>)> {
    match f {
        RawFactorView::Table { name, alias, args } => if args {
            bad_statement("table valued functions not supported"@)
        } else if alias is Some && alias->0.columns > 0 {
            bad_statement("column aliases in table alias not supported"@)
        } else {
            match table_name(name) {
                Ok(t) => Ok(
                    (
                        t,
                        match alias {
                            Some(a) => Some(a.name),
                            None => None,
                        },
                    ),
                ),
                Err(e) => Err(e),
            }
        },
        RawFactorView::Other(s) => bad_statement("Unsupported table factor: "@ + s),
    }
}

/// The type of a join, and its condition.
pub open spec fn join_kind(o: RawJoinOperatorView) -> Outcome<(JoinType, RawConstraintView)> {
    match o {
        RawJoinOperatorView::Join(c) => Ok((JoinType::Inner, c)),
        RawJoinOperatorView::Inner(c) => Ok((JoinType::Inner, c)),
        RawJoinOperatorView::Left(c) => Ok((JoinType::Left, c)),
        RawJoinOperatorView::LeftOuter(c) => Ok((JoinType::Left, c)),
        RawJoinOperatorView::Right(c) => Ok((JoinType::Right, c)),
        RawJoinOperatorView::RightOuter(c) => Ok((JoinType::Right, c)),
        RawJoinOperatorView::FullOuter(c) => Ok((JoinType::Full, c)),
        RawJoinOperatorView::CrossJoin(c) => Ok((JoinType::Cross, c)),
        RawJoinOperatorView::Other(s) => bad_statement("Unsupported join type: "@ + s),
    }
}

/// The condition of a join: a cross join has none, any other has one.
pub open spec fn condition(c: RawConstraintView, kind: JoinType) -> Outcome<Option<ExprView>> {
    match c {
        RawConstraintView::On(e) => if kind is Cross {
            bad_statement("CROSS JOIN does not take an ON condition"@)
        } else {
            opt_expr(Some(e))
        },
        RawConstraintView::Using => bad_statement("JOIN ... USING not supported, use ON"@),
        RawConstraintView::Natural => bad_statement("NATURAL JOIN not supported"@),
        RawConstraintView::Absent => if kind is Cross {
            Ok(None)
        } else {
            missing("JOIN ... ON condition"@)
        },
    }
}

/// A table that is joined.
pub open spec fn join(j: RawJoinView) -> Outcome<JoinView> {
    match factor(j.relation) {
        Err(e) => Err(e),
        Ok((table, alias)) => match join_kind(j.operator) {
            Err(e) => Err(e),
            Ok((join_type, c)) => match condition(c, join_type) {
                Err(e) => Err(e),
                Ok(on) => Ok(JoinView { table, alias, join_type, on }),
            },
        },
    }
}

/// Tables that are joined.
pub open spec fn joins(s: Seq<RawJoinView>) -> Outcome<Seq<JoinView>>
    decreases s,
{
    if s.len() == 0 {
        Ok(Seq::empty())
    } else {
        match join(s[0]) {
            Ok(x) => prepend(seq![x], joins(s.skip(1))),
            Err(e) => Err(e),
        }
    }
}

/// A table with those that are joined to it.
pub open spec fn table_ref(t: RawTableView) -> Outcome<TableRefView> {
    match factor(t.relation) {
        Err(e) => Err(e),
        Ok((base, base_alias)) => match joins(t.joins) {
            Err(e) => Err(e),
            Ok(joins) => Ok(TableRefView { base, base_alias, joins }),
        },
    }
}

/// A further item of `FROM`: its table is cross joined, and those that are
/// joined to it follow.
pub open spec fn further(t: RawTableView) -> Outcome<Seq<JoinView>> {
    match factor(t.relation) {
        Err(e) => Err(e),
        Ok((table, alias)) => prepend(
            seq![JoinView { table, alias, join_type: JoinType::Cross, on: None }],
            joins(t.joins),
        ),
    }
}

/// The further items of `FROM`.
pub open spec fn all_further(s: Seq<RawTableView>) -> Outcome<Seq<JoinView>>
    decreases s,
{
    if s.len() == 0 {
        Ok(Seq::empty())
    } else {
        match further(s[0]) {
            Ok(x) => prepend(x, all_further(s.skip(1))),
            Err(e) => Err(e),
        }
    }
}

/// `FROM`.
pub open spec fn from(s: Seq<RawTableView>) -> Outcome<TableRefView> {
    if s.len() == 0 {
        missing("FROM"@)
    } else {
        match table_ref(s[0]) {
            Err(e) => Err(e),
            Ok(t) => match all_further(s.skip(1)) {
                Err(e) => Err(e),
                Ok(js) => Ok(
                    TableRefView { base: t.base, base_alias: t.base_alias, joins: t.joins + js },
                ),
            },
        }
    }
}

/// The table of an `UPDATE` or a `DELETE`.
pub open spec fn single_table(t: RawTableView) -> Outcome<(Seq<char>, Option<Seq<char>>)> {
    if t.joins.len() > 0 {
        bad_statement("JOIN not supported in UPDATE/DELETE"@)
    } else {
        factor(t.relation)
    }
}

/// A column of the result that is an expression with an alias or none.
pub open spec fn aliased(e: RawExprView, alias: Option<Seq<char>>) -> Outcome<SelectColumnView> {
    match expr(e) {
        Ok(expr) => Ok(SelectColumnView::Expr { expr, alias }),
        Err(e) => Err(e),
    }
}

/// An item of a projection.
pub open spec fn item(i: RawSelectItemView) -> Outcome<SelectColumnView> {
    match i {
        RawSelectItemView::Wildcard => Ok(SelectColumnView::Wildcard),
        RawSelectItemView::UnnamedExpr(e) => match e {
            RawExprView::Identifier(name) => Ok(SelectColumnView::Column { table: None, name }),
            RawExprView::CompoundIdentifier { parts, debug } => match qualified(parts, debug) {
                Ok((table, name)) => Ok(SelectColumnView::Column { table: Some(table), name }),
                Err(e) => Err(e),
            },
            _ => aliased(e, None),
        },
        RawSelectItemView::ExprWithAlias { expr: e, alias } => aliased(e, Some(alias)),
        RawSelectItemView::ExprWithAliases { expr: e, aliases } => if aliases.len() > 1 {
            bad_expression("multiple aliases for a single select item"@)
        } else if aliases.len() == 1 {
            aliased(e, Some(aliases[0]))
        } else {
            aliased(e, None)
        },
        RawSelectItemView::QualifiedWildcard(n) => match table_name(n) {
            Ok(t) => Ok(SelectColumnView::QualifiedWildcard(t)),
            Err(e) => Err(e),
        },
        RawSelectItemView::QualifiedOther(s) => bad_expression(
            "Unsupported qualified wildcard: "@ + s,
        ),
    }
}

/// The items of a projection.
pub open spec fn items(s: Seq<RawSelectItemView>) -> Outcome<Seq<SelectColumnView>>
    decreases s,
{
    if s.len() == 0 {
        Ok(Seq::empty())
    } else {
        match item(s[0]) {
            Ok(x) => prepend(seq![x], items(s.skip(1))),
            Err(e) => Err(e),
        }
    }
}

/// A key of an ordering; it ascends unless it is said to descend.
pub open spec fn key(k: RawOrderByExprView) -> Outcome<OrderByView> {
    if k.with_fill {
        bad_statement("ORDER BY ... WITH FILL not supported"@)
    } else {
        match k.sort {
            RawSortView::Other(s) => bad_statement("ORDER BY "@ + s + " not supported"@),
            _ => match expr(k.expr) {
                Ok(expr) => Ok(
                    OrderByView {
                        expr,
                        ascending: !(k.sort is Desc),
                        nulls_first: k.nulls_first,
                    },
                ),
                Err(e) => Err(e),
            },
        }
    }
}

/// The keys of an ordering.
pub open spec fn keys(s: Seq<RawOrderByExprView>) -> Outcome<Seq<OrderByView>>
    decreases s,
{
    if s.len() == 0 {
        Ok(Seq::empty())
    } else {
        match key(s[0]) {
            Ok(x) => prepend(seq![x], keys(s.skip(1))),
            Err(e) => Err(e),
        }
    }
}

/// `ORDER BY`.
pub open spec fn order(o: RawOrderView) -> Outcome<Seq<OrderByView>> {
    if o.interpolate {
        bad_statement("ORDER BY ... INTERPOLATE not supported"@)
    } else {
        match o.kind {
            RawOrderByView::All => bad_statement("ORDER BY ALL not supported"@),
            RawOrderByView::Expressions(s) => keys(s),
        }
    }
}

/// A number of rows.
pub open spec fn count(c: RawCountView, clause: Seq<char>) -> Outcome<usize> {
    let bad: Outcome<usize> = bad_expression(
        clause + " must be a non negative integer literal, got "@ + c.text,
    );
    match c.number {
        Some(s) => match text::natural_of(s) {
            Some(n) if n <= usize::MAX => Ok(n as usize),
            _ => bad,
        },
        None => bad,
    }
}

/// A number of rows that may be missing.
pub open spec fn opt_count(c: Option<RawCountView>, clause: Seq<char>) -> Outcome<Option<usize>> {
    match c {
        Some(x) => match count(x, clause) {
            Ok(n) => Ok(Some(n)),
            Err(e) => Err(e),
        },
        None => Ok(None),
    }
}

/// `LIMIT` and `OFFSET`.
pub open spec fn limits(l: RawLimitView) -> Outcome<(Option<usize>, Option<usize>)> {
    match l {
        RawLimitView::Absent => Ok((None, None)),
        RawLimitView::LimitOffset { limit, offset, limit_by } => if limit_by > 0 {
            bad_statement("LIMIT BY not supported"@)
        } else {
            match (opt_count(limit, "LIMIT"@), opt_count(offset, "OFFSET"@)) {
                (Err(e), _) => Err(e),
                (_, Err(e)) => Err(e),
                (Ok(l), Ok(o)) => Ok((l, o)),
            }
        },
        RawLimitView::OffsetCommaLimit { offset, limit } => match (
            count(limit, "LIMIT"@),
            count(offset, "OFFSET"@),
        ) {
            (Err(e), _) => Err(e),
            (_, Err(e)) => Err(e),
            (Ok(l), Ok(o)) => Ok((Some(l), Some(o))),
        },
    }
}

/// The first clause of a `SELECT` that is not supported.
pub open spec fn select_refusal(f: RawSelectFlagsView) -> Option<Seq<char>> {
    if f.top {
        Some("TOP"@)
    } else if f.into {
        Some("SELECT INTO"@)
    } else if f.lateral_views > 0 {
        Some("LATERAL VIEW"@)
    } else if f.prewhere {
        Some("PREWHERE"@)
    } else if f.connect_by > 0 {
        Some("CONNECT BY"@)
    } else if f.cluster_by > 0 {
        Some("CLUSTER BY"@)
    } else if f.distribute_by > 0 {
        Some("DISTRIBUTE BY"@)
    } else if f.sort_by > 0 {
        Some("SORT BY"@)
    } else if f.named_window > 0 {
        Some("WINDOW"@)
    } else if f.qualify {
        Some("QUALIFY"@)
    } else if f.exclude {
        Some("EXCLUDE"@)
    } else {
        None
    }
}

/// Nothing, or the error for a clause that is not supported.
pub open spec fn refusal(clause: Option<Seq<char>>) -> Outcome<()> {
    match clause {
        Some(c) => bad_statement(c + " not supported"@),
        None => Ok(()),
    }
}

/// `DISTINCT`.
pub open spec fn distinct(d: RawDistinctView) -> Outcome<bool> {
    match d {
        RawDistinctView::Absent => Ok(false),
        RawDistinctView::All => Ok(false),
        RawDistinctView::Distinct => Ok(true),
        RawDistinctView::Other(s) => bad_statement(s + " not supported"@),
    }
}

/// `GROUP BY`.
pub open spec fn group(g: RawGroupByView) -> Outcome<Seq<ExprView>> {
    match g {
        RawGroupByView::Expressions { exprs: s, modifiers } => if modifiers > 0 {
            bad_statement("GROUP BY ROLLUP/CUBE/GROUPING SETS not supported"@)
        } else {
            exprs(s)
        },
        RawGroupByView::All => bad_statement("GROUP BY ALL not supported"@),
    }
}

/// `ORDER BY`, if it is there.
pub open spec fn opt_order(o: Option<RawOrderView>) -> Outcome<Seq<OrderByView>> {
    match o {
        Some(o) => order(o),
        None => Ok(Seq::empty()),
    }
}

/// What a query says beside its body: nothing but an order and limits is
/// supported.
pub open spec fn query_refusal(q: RawQueryView) -> Option<Seq<char>> {
    if q.with {
        Some("WITH (common table expressions)"@)
    } else if q.fetch || q.locks > 0 || q.for_clause {
        Some("FETCH / FOR UPDATE / FOR clauses"@)
    } else if q.pipe_operators > 0 {
        Some("pipe operators"@)
    } else {
        None
    }
}

/// A query. The errors come in the order of the clauses: those of the query that
/// are not supported, the kind of the query, the clauses of the `SELECT` that are
/// not supported, `DISTINCT`, `FROM`, the projection, `WHERE`, `GROUP BY`,
/// `HAVING`, `ORDER BY`, `LIMIT` and `OFFSET`.
pub open spec fn query(q: RawQueryView) -> Outcome<SelectView> {
    match refusal(query_refusal(q)) {
        Err(e) => Err(e),
        Ok(_) => match q.body {
            RawBodyView::Values { rows: _, text } => bad_statement(
                "Unsupported query type: "@ + text,
            ),
            RawBodyView::Other(s) => bad_statement("Unsupported query type: "@ + s),
            RawBodyView::Select(s) => match (
                refusal(select_refusal(s.flags)),
                distinct(s.distinct),
                from(s.from),
                items(s.projection),
                opt_expr(s.selection),
                group(s.group_by),
                opt_expr(s.having),
                opt_order(q.order_by),
                limits(q.limit),
            ) {
                (Err(e), _, _, _, _, _, _, _, _) => Err(e),
                (_, Err(e), _, _, _, _, _, _, _) => Err(e),
                (_, _, Err(e), _, _, _, _, _, _) => Err(e),
                (_, _, _, Err(e), _, _, _, _, _) => Err(e),
                (_, _, _, _, Err(e), _, _, _, _) => Err(e),
                (_, _, _, _, _, Err(e), _, _, _) => Err(e),
                (_, _, _, _, _, _, Err(e), _, _) => Err(e),
                (_, _, _, _, _, _, _, Err(e), _) => Err(e),
                (_, _, _, _, _, _, _, _, Err(e)) => Err(e),
                (Ok(_), Ok(d), Ok(f), Ok(c), Ok(w), Ok(g), Ok(h), Ok(o), Ok(l)) => Ok(
                    SelectView {
                        distinct: d,
                        columns: c,
                        from: f,
                        where_clause: w,
                        group_by: g,
                        having: h,
                        order_by: o,
                        limit: l.0,
                        offset: l.1,
                    },
                ),
            },
        },
    }
}

/// The target of an `INSERT`.
pub open spec fn object(t: RawTableObjectView) -> Outcome<Seq<char>> {
    match t {
        RawTableObjectView::Name(n) => table_name(n),
        RawTableObjectView::Function => bad_statement("table function not supported"@),
        RawTableObjectView::Query => bad_statement("table query not supported"@),
    }
}

/// The first clause of an `INSERT` that is not supported.
pub open spec fn insert_refusal(f: RawInsertFlagsView) -> Option<Seq<char>> {
    if f.or {
        Some("INSERT OR ..."@)
    } else if f.ignore {
        Some("INSERT IGNORE"@)
    } else if f.overwrite {
        Some("INSERT OVERWRITE"@)
    } else if f.replace_into {
        Some("REPLACE INTO"@)
    } else if f.on {
        Some("ON CONFLICT / ON DUPLICATE KEY"@)
    } else if f.returning {
        Some("RETURNING"@)
    } else if f.output {
        Some("OUTPUT"@)
    } else if f.partitioned {
        Some("PARTITION"@)
    } else if f.assignments > 0 {
        Some("INSERT ... SET"@)
    } else if f.table_alias {
        Some("INSERT table alias"@)
    } else {
        None
    }
}

/// The columns of an `INSERT`, if it names any.
pub open spec fn insert_columns(s: Seq<RawNameView>) -> Outcome<Option<Seq<Seq<char>>>> {
    if s.len() == 0 {
        Ok(None)
    } else {
        match table_names(s) {
            Ok(v) => Ok(Some(v)),
            Err(e) => Err(e),
        }
    }
}

/// Where the rows of an `INSERT` come from.
pub open spec fn source(q: Option<RawQueryView>) -> Outcome<InsertSourceView> {
    match q {
        None => missing("INSERT requires VALUES or SELECT"@),
        Some(q) => match q.body {
            RawBodyView::Values { rows: s, text: _ } => if q.order_by is Some || !(
            q.limit is Absent) || q.with {
                bad_statement("ORDER BY / LIMIT / WITH on INSERT ... VALUES not supported"@)
            } else {
                match rows(s) {
                    Ok(v) => Ok(InsertSourceView::Values(v)),
                    Err(e) => Err(e),
                }
            },
            _ => match query(q) {
                Ok(s) => Ok(InsertSourceView::Select(Box::new(s))),
                Err(e) => Err(e),
            },
        },
    }
}

/// `INSERT`.
pub open spec fn insert(i: RawInsertView) -> Outcome<StatementView> {
    match (
        refusal(insert_refusal(i.flags)),
        object(i.table),
        insert_columns(i.columns),
        source(i.source),
    ) {
        (Err(e), _, _, _) => Err(e),
        (_, Err(e), _, _) => Err(e),
        (_, _, Err(e), _) => Err(e),
        (_, _, _, Err(e)) => Err(e),
        (Ok(_), Ok(table), Ok(columns), Ok(source)) => Ok(
            StatementView::Insert(InsertView { table, columns, source }),
        ),
    }
}

/// The identifiers of a name.
pub open spec fn idents(s: Seq<RawPartView>) -> Outcome<Seq<Seq<char>>>
    decreases s,
{
    if s.len() == 0 {
        Ok(Seq::empty())
    } else {
        match s[0].ident {
            Some(x) => prepend(seq![x], idents(s.skip(1))),
            None => bad_identifier(s[0].text),
        }
    }
}

/// The name under which columns are qualified: the alias, or else the table.
pub open spec fn visible(table: Seq<char>, alias: Option<Seq<char>>) -> Seq<char> {
    match alias {
        Some(a) => a,
        None => table,
    }
}

/// The column that an assignment sets. It may be qualified by the table.
pub open spec fn target(
    t: RawTargetView,
    table: Seq<char>,
    alias: Option<Seq<char>>,
) -> Outcome<Seq<char>> {
    match t {
        RawTargetView::Tuple => bad_expression("tuple assignment targets not supported"@),
        RawTargetView::Column(n) => match idents(n.parts) {
            Err(e) => Err(e),
            Ok(parts) => if parts.len() == 1 {
                Ok(parts[0])
            } else if parts.len() == 2 {
                if text::same_letters(parts[0], visible(table, alias)) {
                    Ok(parts[1])
                } else {
                    bad_identifier(
                        "assignment target "@ + parts[0] + "."@ + parts[1]
                            + " does not refer to table "@ + visible(table, alias),
                    )
                }
            } else {
                bad_identifier(n.text)
            },
        },
    }
}

/// An assignment.
pub open spec fn assignment(
    a: RawAssignmentView,
    table: Seq<char>,
    alias: Option<Seq<char>>,
) -> Outcome<AssignmentView> {
    match (target(a.target, table, alias), expr(a.value)) {
        (Err(e), _) => Err(e),
        (_, Err(e)) => Err(e),
        (Ok(column), Ok(value)) => Ok(AssignmentView { column, value }),
    }
}

/// Assignments.
pub open spec fn assignments(
    s: Seq<RawAssignmentView>,
    table: Seq<char>,
    alias: Option<Seq<char>>,
) -> Outcome<Seq<AssignmentView>>
    decreases s,
{
    if s.len() == 0 {
        Ok(Seq::empty())
    } else {
        match assignment(s[0], table, alias) {
            Ok(x) => prepend(seq![x], assignments(s.skip(1), table, alias)),
            Err(e) => Err(e),
        }
    }
}

/// The first clause of an `UPDATE` that is not supported.
pub open spec fn update_refusal(f: RawUpdateFlagsView) -> Option<Seq<char>> {
    if f.from {
        Some("UPDATE ... FROM"@)
    } else if f.returning {
        Some("RETURNING"@)
    } else if f.output {
        Some("OUTPUT"@)
    } else if f.or {
        Some("UPDATE OR ..."@)
    } else if f.order_by > 0 {
        Some("UPDATE ... ORDER BY"@)
    } else if f.limit {
        Some("UPDATE ... LIMIT"@)
    } else {
        None
    }
}

/// `UPDATE`.
pub open spec fn update(u: RawUpdateView) -> Outcome<StatementView> {
    match refusal(update_refusal(u.flags)) {
        Err(e) => Err(e),
        Ok(_) => match single_table(u.table) {
            Err(e) => Err(e),
            Ok((table, alias)) => match (
                assignments(u.assignments, table, alias),
                opt_expr(u.selection),
            ) {
                (Err(e), _) => Err(e),
                (_, Err(e)) => Err(e),
                (Ok(assignments), Ok(where_clause)) => Ok(
                    StatementView::Update(UpdateView { table, alias, assignments, where_clause }),
                ),
            },
        },
    }
}

/// The first clause of a `DELETE` that is not supported.
pub open spec fn delete_refusal(f: RawDeleteFlagsView) -> Option<Seq<char>> {
    if f.tables > 0 {
        Some("multi table DELETE"@)
    } else if f.using {
        Some("DELETE ... USING"@)
    } else if f.returning {
        Some("RETURNING"@)
    } else if f.output {
        Some("OUTPUT"@)
    } else if f.order_by > 0 {
        Some("DELETE ... ORDER BY"@)
    } else if f.limit {
        Some("DELETE ... LIMIT"@)
    } else {
        None
    }
}

/// `DELETE`.
pub open spec fn delete(d: RawDeleteView) -> Outcome<StatementView> {
    match refusal(delete_refusal(d.flags)) {
        Err(e) => Err(e),
        Ok(_) => if d.from.len() != 1 {
            bad_statement("DELETE from multiple tables not supported"@)
        } else {
            match (single_table(d.from[0]), opt_expr(d.selection)) {
                (Err(e), _) => Err(e),
                (_, Err(e)) => Err(e),
                (Ok((table, alias)), Ok(where_clause)) => Ok(
                    StatementView::Delete(DeleteView { table, alias, where_clause }),
                ),
            }
        },
    }
}

/// The letters and digits that a text starts with.
pub open spec fn head_word(s: Seq<char>) -> Seq<char>
    decreases s.len(),
{
    if s.len() == 0 || !is_word_char(s[0]) {
        Seq::empty()
    } else {
        seq![s[0]] + head_word(s.skip(1))
    }
}

/// ASCII letters and digits.
pub open spec fn is_word_char(c: char) -> bool {
    ('a' <= c && c <= 'z') || ('A' <= c && c <= 'Z') || ('0' <= c && c <= '9')
}

/// The kinds of text.
pub open spec fn is_text_kind(k: Seq<char>) -> bool {
    k == "Text"@ || k == "Varchar"@ || k == "CharVarying"@ || k == "Character"@ || k == "Char"@
        || k == "String"@
}

/// The kinds of integers.
pub open spec fn is_integer_kind(k: Seq<char>) -> bool {
    k == "Int"@ || k == "Integer"@ || k == "BigInt"@ || k == "SmallInt"@ || k == "TinyInt"@
}

/// The kinds of numbers that are not whole.
pub open spec fn is_float_kind(k: Seq<char>) -> bool {
    k == "Float"@ || k == "Real"@ || k == "Double"@ || k == "DoublePrecision"@ || k == "Decimal"@
        || k == "Numeric"@
}

/// A type by its kind.
pub open spec fn data_type(s: Seq<char>) -> Outcome<SqlDataType> {
    let k = head_word(s);
    if is_text_kind(k) {
        Ok(SqlDataType::Text)
    } else if is_integer_kind(k) {
        Ok(SqlDataType::Integer)
    } else if is_float_kind(k) {
        Ok(SqlDataType::Float)
    } else if k == "Boolean"@ || k == "Bool"@ {
        Ok(SqlDataType::Boolean)
    } else if k == "JSON"@ || k == "JSONB"@ {
        Ok(SqlDataType::Json)
    } else if k == "Timestamp"@ || k == "Datetime"@ || k == "Date"@ {
        Ok(SqlDataType::Timestamp)
    } else if k == "Uuid"@ {
        Ok(SqlDataType::Uuid)
    } else {
        Err(ParseErrorView::UnsupportedDataType(s))
    }
}

/// The constraint that an option of a column stands for, if it does for one.
pub open spec fn column_option(o: RawColumnOptionView) -> Outcome<Option<ColumnConstraintView>> {
    match o {
        RawColumnOptionView::Null => Ok(None),
        RawColumnOptionView::NotNull => Ok(Some(ColumnConstraintView::NotNull)),
        RawColumnOptionView::Unique => Ok(Some(ColumnConstraintView::Unique)),
        RawColumnOptionView::PrimaryKey => Ok(Some(ColumnConstraintView::PrimaryKey)),
        RawColumnOptionView::Default(e) => match expr(e) {
            Ok(v) => Ok(Some(ColumnConstraintView::Default(v))),
            Err(e) => Err(e),
        },
        RawColumnOptionView::Comment => Ok(None),
        RawColumnOptionView::Other(s) => bad_statement("column option not supported: "@ + s),
    }
}

/// Items with one more, if it is not among them yet.
pub open spec fn with_item<T>(s: Seq<T>, x: T) -> Seq<T> {
    if s.contains(x) {
        s
    } else {
        s.push(x)
    }
}

/// The constraints that options stand for, behind those in `acc`; none occurs
/// twice.
pub open spec fn column_options(
    s: Seq<RawColumnOptionView>,
    acc: Seq<ColumnConstraintView>,
) -> Outcome<Seq<ColumnConstraintView>>
    decreases s,
{
    if s.len() == 0 {
        Ok(acc)
    } else {
        match column_option(s[0]) {
            Ok(Some(c)) => column_options(s.skip(1), with_item(acc, c)),
            Ok(None) => column_options(s.skip(1), acc),
            Err(e) => Err(e),
        }
    }
}

/// A column of a new table.
pub open spec fn column(c: RawColumnDefView) -> Outcome<ColumnDefView> {
    match (data_type(c.data_type), column_options(c.options, Seq::empty())) {
        (Err(e), _) => Err(e),
        (_, Err(e)) => Err(e),
        (Ok(data_type), Ok(constraints)) => Ok(
            ColumnDefView { name: c.name, data_type, constraints },
        ),
    }
}

/// The columns of a new table.
pub open spec fn columns(s: Seq<RawColumnDefView>) -> Outcome<Seq<ColumnDefView>>
    decreases s,
{
    if s.len() == 0 {
        Ok(Seq::empty())
    } else {
        match column(s[0]) {
            Ok(x) => prepend(seq![x], columns(s.skip(1))),
            Err(e) => Err(e),
        }
    }
}

/// The names of the columns with a constraint.
pub open spec fn columns_with(s: Seq<ColumnDefView>, c: ColumnConstraintView) -> Seq<Seq<char>>
    decreases s.len(),
{
    if s.len() == 0 {
        Seq::empty()
    } else if s.last().constraints.contains(c) {
        columns_with(s.drop_last(), c).push(s.last().name)
    } else {
        columns_with(s.drop_last(), c)
    }
}

/// Keys of one column each.
pub open spec fn single_keys(names: Seq<Seq<char>>) -> Seq<Seq<Seq<char>>> {
    Seq::new(names.len(), |i: int| seq![names[i]])
}

/// The name of the first column that is called `name`, whatever the case of its
/// letters.
pub open spec fn find_column(s: Seq<ColumnDefView>, name: Seq<char>) -> Option<Seq<char>>
    decreases s.len(),
{
    if s.len() == 0 {
        None
    } else if text::same_letters(s[0].name, name) {
        Some(s[0].name)
    } else {
        find_column(s.skip(1), name)
    }
}

/// The columns of a table constraint, behind those in `acc`: each is one of the
/// table, and none occurs twice.
pub open spec fn key_columns(
    s: Seq<RawIndexColumnView>,
    columns: Seq<ColumnDefView>,
    acc: Seq<Seq<char>>,
) -> Outcome<Seq<Seq<char>>>
    decreases s,
{
    if s.len() == 0 {
        Ok(acc)
    } else {
        match s[0].ident {
            None => bad_expression(
                "constraint column must be a plain column name: "@ + s[0].text,
            ),
            Some(name) => match find_column(columns, name) {
                None => bad_identifier("constraint references unknown column "@ + name),
                Some(found) => if acc.contains(found) {
                    bad_identifier("column "@ + found + " listed twice in constraint"@)
                } else {
                    key_columns(s.skip(1), columns, acc.push(found))
                },
            },
        }
    }
}

/// The primary key and the unique keys of a table.
#[verifier::ext_equal]
pub struct Keys {
    pub primary: Seq<Seq<char>>,
    pub unique: Seq<Seq<Seq<char>>>,
}

/// The keys of a table after a table constraint.
pub open spec fn key_step(
    c: RawTableConstraintView,
    columns: Seq<ColumnDefView>,
    k: Keys,
) -> Outcome<Keys> {
    match c {
        RawTableConstraintView::PrimaryKey(s) => if k.primary.len() > 0 {
            bad_statement("multiple PRIMARY KEY declarations"@)
        } else {
            match key_columns(s, columns, Seq::empty()) {
                Ok(v) => Ok(Keys { primary: v, unique: k.unique }),
                Err(e) => Err(e),
            }
        },
        RawTableConstraintView::Unique(s) => match key_columns(s, columns, Seq::empty()) {
            Ok(v) => Ok(Keys { primary: k.primary, unique: with_item(k.unique, v) }),
            Err(e) => Err(e),
        },
        RawTableConstraintView::Other(s) => bad_statement("table constraint not supported: "@ + s),
    }
}

/// The keys of a table after all table constraints.
pub open spec fn key_steps(
    s: Seq<RawTableConstraintView>,
    columns: Seq<ColumnDefView>,
    k: Keys,
) -> Outcome<Keys>
    decreases s,
{
    if s.len() == 0 {
        Ok(k)
    } else {
        match key_step(s[0], columns, k) {
            Ok(k) => key_steps(s.skip(1), columns, k),
            Err(e) => Err(e),
        }
    }
}

/// The keys that the columns of a table declare themselves.
pub open spec fn own_keys(columns: Seq<ColumnDefView>) -> Keys {
    Keys {
        primary: columns_with(columns, ColumnConstraintView::PrimaryKey),
        unique: single_keys(columns_with(columns, ColumnConstraintView::Unique)),
    }
}

/// Constraints with a further one, if `b` says so and it is not there yet.
pub open spec fn with_constraint(
    s: Seq<ColumnConstraintView>,
    c: ColumnConstraintView,
    b: bool,
) -> Seq<ColumnConstraintView> {
    if b {
        with_item(s, c)
    } else {
        s
    }
}

/// A column with what the keys of the table say of it: it is a part of the
/// primary key, or a unique key by itself.
pub open spec fn marked(c: ColumnDefView, k: Keys) -> ColumnDefView {
    ColumnDefView {
        name: c.name,
        data_type: c.data_type,
        constraints: with_constraint(
            with_constraint(
                c.constraints,
                ColumnConstraintView::PrimaryKey,
                k.primary.contains(c.name),
            ),
            ColumnConstraintView::Unique,
            k.unique.contains(seq![c.name]),
        ),
    }
}

/// The columns with what the keys of the table say of them.
pub open spec fn all_marked(s: Seq<ColumnDefView>, k: Keys) -> Seq<ColumnDefView> {
    Seq::new(s.len(), |i: int| marked(s[i], k))
}

/// What a `CREATE TABLE` says that is not supported.
pub open spec fn create_refusal(c: RawCreateTableView) -> Option<Seq<char>> {
    if c.query {
        Some("CREATE TABLE ... AS SELECT"@)
    } else if c.like || c.clone_of {
        Some("CREATE TABLE ... LIKE/CLONE"@)
    } else if c.or_replace || c.temporary {
        Some("CREATE OR REPLACE / TEMPORARY TABLE"@)
    } else {
        None
    }
}

/// The table that columns and table constraints make.
pub open spec fn table(
    name: Seq<char>,
    columns: Seq<ColumnDefView>,
    constraints: Seq<RawTableConstraintView>,
    if_not_exists: bool,
) -> Outcome<CreateTableView> {
    if own_keys(columns).primary.len() > 1 {
        bad_statement(
            "multiple column level PRIMARY KEY declarations, use PRIMARY KEY (a, b)"@,
        )
    } else {
        match key_steps(constraints, columns, own_keys(columns)) {
            Err(e) => Err(e),
            Ok(k) => Ok(
                CreateTableView {
                    name,
                    columns: all_marked(columns, k),
                    primary_key: k.primary,
                    unique_keys: k.unique,
                    if_not_exists,
                },
            ),
        }
    }
}

/// `CREATE TABLE`.
pub open spec fn create_table(c: RawCreateTableView) -> Outcome<CreateTableView> {
    match (refusal(create_refusal(c)), table_name(c.name), columns(c.columns)) {
        (Err(e), _, _) => Err(e),
        (_, Err(e), _) => Err(e),
        (_, _, Err(e)) => Err(e),
        (Ok(_), Ok(name), Ok(columns)) => table(name, columns, c.constraints, c.if_not_exists),
    }
}

/// `DROP`.
pub open spec fn drop_table(
    object_type: Seq<char>,
    names: Seq<RawNameView>,
    if_exists: bool,
) -> Outcome<StatementView> {
    if object_type != "Table"@ {
        bad_statement("DROP "@ + object_type + " not supported"@)
    } else if names.len() != 1 {
        bad_statement("DROP multiple tables not supported"@)
    } else {
        match table_name(names[0]) {
            Ok(name) => Ok(StatementView::DropTable(DropTableView { name, if_exists })),
            Err(e) => Err(e),
        }
    }
}

/// A statement.
pub open spec fn statement(s: RawStatementView) -> Outcome<StatementView> {
    match s {
        RawStatementView::CreateTable(c) => match create_table(c) {
            Ok(t) => Ok(StatementView::CreateTable(t)),
            Err(e) => Err(e),
        },
        RawStatementView::Drop { object_type, names, if_exists } => drop_table(
            object_type,
            names,
            if_exists,
        ),
        RawStatementView::Query(q) => match query(q) {
            Ok(s) => Ok(StatementView::Select(s)),
            Err(e) => Err(e),
        },
        RawStatementView::Insert(i) => insert(i),
        RawStatementView::Update(u) => update(u),
        RawStatementView::Delete(d) => delete(d),
        RawStatementView::StartTransaction => Ok(StatementView::Begin),
        RawStatementView::Commit => Ok(StatementView::Commit),
        RawStatementView::Rollback => Ok(StatementView::Rollback),
        RawStatementView::ShowTables => Ok(StatementView::ShowTables),
        RawStatementView::ExplainTable(n) => match table_name(n) {
            Ok(t) => Ok(StatementView::Describe(t)),
            Err(e) => Err(e),
        },
        RawStatementView::Other(s) => bad_statement(s),
    }
}

/// Statements.
pub open spec fn statements(s: Seq<RawStatementView>) -> Outcome<Seq<StatementView>>
    decreases s,
{
    if s.len() == 0 {
        Ok(Seq::empty())
    } else {
        match statement(s[0]) {
            Ok(x) => prepend(seq![x], statements(s.skip(1))),
            Err(e) => Err(e),
        }
    }
}

/// The statement of a text that is to hold exactly one.
pub open spec fn sole_statement(s: Seq<RawStatementView>) -> Outcome<StatementView> {
    if s.len() == 0 {
        Err(ParseErrorView::EmptyQuery)
    } else if s.len() > 1 {
        Err(ParseErrorView::MultipleStatements)
    } else {
        statement(s[0])
    }
}

/// What a text means that is a command by itself; `upper` is the text in
/// capitals.
pub open spec fn command(s: Seq<char>, upper: Seq<char>) -> Option<Outcome<StatementView>> {
    if upper == "BEGIN"@ || upper == "BEGIN TRANSACTION"@ || upper == "START TRANSACTION"@ {
        Some(Ok(StatementView::Begin))
    } else if upper == "COMMIT"@ {
        Some(Ok(StatementView::Commit))
    } else if upper == "ROLLBACK"@ {
        Some(Ok(StatementView::Rollback))
    } else if upper == "SHOW TABLES"@ || upper == "SHOW TABLE"@ {
        Some(Ok(StatementView::ShowTables))
    } else if text::has_prefix(upper, "DESCRIBE "@) || text::has_prefix(upper, "DESC "@) {
        match text::second_word_of(s) {
            Some(t) => Some(Ok(StatementView::Describe(t))),
            None => Some(missing("table name"@)),
        }
    } else {
        None
    }
}

/// A text without white space around it, and without the semicolons at its end.
pub open spec fn bare(s: Seq<char>) -> Seq<char> {
    text::trimmed(text::trim_end_of(text::trimmed(s), ';'))
}

/// What a text means: a command, or the one statement that the SQL parser finds
/// in it.
pub open spec fn parse(sql: Seq<char>) -> Outcome<StatementView> {
    let s = text::trimmed(sql);
    if s.len() == 0 {
        Err(ParseErrorView::EmptyQuery)
    } else {
        match command(bare(sql), text::uppercase(bare(sql))) {
            Some(r) => r,
            None => match reader::parsed(s) {
                Ok(v) => sole_statement(v),
                Err(e) => Err(ParseErrorView::SqlParser(e)),
            },
        }
    }
}

/// What a text of several statements means.
pub open spec fn parse_multi(sql: Seq<char>) -> Outcome<Seq<StatementView>> {
    match reader::parsed(sql) {
        Ok(v) => statements(v),
        Err(e) => Err(ParseErrorView::SqlParser(e)),
    }
}

} // verus!
