//! Statements as the SQL parser gives them, as far as they matter here.
//!
//! Where a construct is not supported, its text is kept for the error message:
//! as it is written, or as the parser names it for debugging.

use vstd::prelude::*;

verus! {

/// A part of a name: an identifier, if it is one, and the part as it is written.
#[derive(Debug)]
pub struct RawPart {
    pub ident: Option<String>,
    pub text: String,
}

/// The name of a table, a column or a function.
#[derive(Debug)]
pub struct RawName {
    pub parts: Vec<RawPart>,
    pub text: String,
}

/// A literal.
#[derive(Debug)]
pub enum RawValue {
    Null,
    Boolean(bool),
    Number(String),
    SingleQuoted(String),
    DoubleQuoted(String),
    Other(String),
}

/// An argument of a function.
#[derive(Debug)]
pub enum RawFunctionArg {
    Wildcard(String),
    Expr(RawExpr),
    Other(String),
}

/// The arguments of a function.
#[derive(Debug)]
pub enum RawArguments {
    Absent,
    Subquery,
    List {
        clauses: usize,
        distinct: bool,
        args: Vec<RawFunctionArg>,
    },
}

/// A function call.
#[derive(Debug)]
pub struct RawFunction {
    pub name: RawName,
    pub over: bool,
    pub filter: bool,
    pub within_group: usize,
    pub null_treatment: bool,
    pub parametric: bool,
    pub args: RawArguments,
}

/// An expression.
#[derive(Debug)]
pub enum RawExpr {
    Identifier(String),
    CompoundIdentifier {
        parts: Vec<String>,
        debug: String,
    },
    Value(RawValue),
    BinaryOp {
        left: Box<RawExpr>,
        op: String,
        right: Box<RawExpr>,
    },
    UnaryOp {
        op: String,
        expr: Box<RawExpr>,
    },
    IsNull(Box<RawExpr>),
    IsNotNull(Box<RawExpr>),
    InList {
        expr: Box<RawExpr>,
        list: Vec<RawExpr>,
        negated: bool,
    },
    Between {
        expr: Box<RawExpr>,
        low: Box<RawExpr>,
        high: Box<RawExpr>,
        negated: bool,
    },
    Like {
        expr: Box<RawExpr>,
        pattern: Box<RawExpr>,
        negated: bool,
        any: bool,
        escape: bool,
        case_insensitive: bool,
    },
    Function(RawFunction),
    Nested(Box<RawExpr>),
    Other(String),
}

/// An alias of a table, and how many column aliases it has.
#[derive(Debug)]
pub struct RawAlias {
    pub name: String,
    pub columns: usize,
}

/// A table of a query.
#[derive(Debug)]
pub enum RawFactor {
    Table {
        name: RawName,
        alias: Option<RawAlias>,
        args: bool,
    },
    Other(String),
}

/// The condition of a join.
#[derive(Debug)]
pub enum RawConstraint {
    On(RawExpr),
    Using,
    Natural,
    Absent,
}

/// How a table is joined.
#[derive(Debug)]
pub enum RawJoinOperator {
    Join(RawConstraint),
    Inner(RawConstraint),
    Left(RawConstraint),
    LeftOuter(RawConstraint),
    Right(RawConstraint),
    RightOuter(RawConstraint),
    FullOuter(RawConstraint),
    CrossJoin(RawConstraint),
    Other(String),
}

/// A table that is joined.
#[derive(Debug)]
pub struct RawJoin {
    pub relation: RawFactor,
    pub operator: RawJoinOperator,
}

/// A table with those that are joined to it.
#[derive(Debug)]
pub struct RawTable {
    pub relation: RawFactor,
    pub joins: Vec<RawJoin>,
}

/// An item of a projection.
#[derive(Debug)]
pub enum RawSelectItem {
    Wildcard,
    UnnamedExpr(RawExpr),
    ExprWithAlias {
        expr: RawExpr,
        alias: String,
    },
    ExprWithAliases {
        expr: RawExpr,
        aliases: Vec<String>,
    },
    QualifiedWildcard(RawName),
    QualifiedOther(String),
}

/// `DISTINCT`, `ALL` or neither.
#[derive(Debug)]
pub enum RawDistinct {
    Absent,
    All,
    Distinct,
    Other(String),
}

/// `GROUP BY`.
#[derive(Debug)]
pub enum RawGroupBy {
    All,
    Expressions {
        exprs: Vec<RawExpr>,
        modifiers: usize,
    },
}

/// Which clauses a `SELECT` has, and how many of some.
#[derive(Debug)]
pub struct RawSelectFlags {
    pub top: bool,
    pub into: bool,
    pub lateral_views: usize,
    pub prewhere: bool,
    pub connect_by: usize,
    pub cluster_by: usize,
    pub distribute_by: usize,
    pub sort_by: usize,
    pub named_window: usize,
    pub qualify: bool,
    pub exclude: bool,
}

/// `SELECT`.
#[derive(Debug)]
pub struct RawSelect {
    pub flags: RawSelectFlags,
    pub distinct: RawDistinct,
    pub from: Vec<RawTable>,
    pub projection: Vec<RawSelectItem>,
    pub selection: Option<RawExpr>,
    pub group_by: RawGroupBy,
    pub having: Option<RawExpr>,
}

/// The direction of an ordering.
#[derive(Debug)]
pub enum RawSort {
    Absent,
    Asc,
    Desc,
    Other(String),
}

/// A key of an ordering.
#[derive(Debug)]
pub struct RawOrderByExpr {
    pub expr: RawExpr,
    pub sort: RawSort,
    pub nulls_first: Option<bool>,
    pub with_fill: bool,
}

/// The keys of an ordering.
#[derive(Debug)]
pub enum RawOrderBy {
    All,
    Expressions(Vec<RawOrderByExpr>),
}

/// `ORDER BY`.
#[derive(Debug)]
pub struct RawOrder {
    pub kind: RawOrderBy,
    pub interpolate: bool,
}

/// An expression for a number of rows: the number, if it is one, and the expression as it is written.
#[derive(Debug)]
pub struct RawCount {
    pub number: Option<String>,
    pub text: String,
}

/// `LIMIT` and `OFFSET`.
#[derive(Debug)]
pub enum RawLimit {
    Absent,
    LimitOffset {
        limit: Option<RawCount>,
        offset: Option<RawCount>,
        limit_by: usize,
    },
    OffsetCommaLimit {
        offset: RawCount,
        limit: RawCount,
    },
}

/// The body of a query.
#[derive(Debug)]
pub enum RawBody {
    Select(RawSelect),
    Values {
        rows: Vec<Vec<RawExpr>>,
        text: String,
    },
    Other(String),
}

/// A query.
#[derive(Debug)]
pub struct RawQuery {
    pub with: bool,
    pub fetch: bool,
    pub locks: usize,
    pub for_clause: bool,
    pub pipe_operators: usize,
    pub body: RawBody,
    pub order_by: Option<RawOrder>,
    pub limit: RawLimit,
}

/// The target of an `INSERT`.
#[derive(Debug)]
pub enum RawTableObject {
    Name(RawName),
    Function,
    Query,
}

/// Which clauses an `INSERT` has.
#[derive(Debug)]
pub struct RawInsertFlags {
    pub or: bool,
    pub ignore: bool,
    pub overwrite: bool,
    pub replace_into: bool,
    pub on: bool,
    pub returning: bool,
    pub output: bool,
    pub partitioned: bool,
    pub assignments: usize,
    pub table_alias: bool,
}

/// `INSERT`.
#[derive(Debug)]
pub struct RawInsert {
    pub flags: RawInsertFlags,
    pub table: RawTableObject,
    pub columns: Vec<RawName>,
    pub source: Option<RawQuery>,
}

/// The target of an assignment.
#[derive(Debug)]
pub enum RawTarget {
    Column(RawName),
    Tuple,
}

/// An assignment.
#[derive(Debug)]
pub struct RawAssignment {
    pub target: RawTarget,
    pub value: RawExpr,
}

/// Which clauses an `UPDATE` has.
#[derive(Debug)]
pub struct RawUpdateFlags {
    pub from: bool,
    pub returning: bool,
    pub output: bool,
    pub or: bool,
    pub order_by: usize,
    pub limit: bool,
}

/// `UPDATE`.
#[derive(Debug)]
pub struct RawUpdate {
    pub flags: RawUpdateFlags,
    pub table: RawTable,
    pub assignments: Vec<RawAssignment>,
    pub selection: Option<RawExpr>,
}

/// Which clauses a `DELETE` has.
#[derive(Debug)]
pub struct RawDeleteFlags {
    pub tables: usize,
    pub using: bool,
    pub returning: bool,
    pub output: bool,
    pub order_by: usize,
    pub limit: bool,
}

/// `DELETE`.
#[derive(Debug)]
pub struct RawDelete {
    pub flags: RawDeleteFlags,
    pub from: Vec<RawTable>,
    pub selection: Option<RawExpr>,
}

/// An option of a column.
#[derive(Debug)]
pub enum RawColumnOption {
    Null,
    NotNull,
    Unique,
    PrimaryKey,
    Default(RawExpr),
    Comment,
    Other(String),
}

/// A column of a new table. The type starts with the name of its kind.
#[derive(Debug)]
pub struct RawColumnDef {
    pub name: String,
    pub data_type: String,
    pub options: Vec<RawColumnOption>,
}

/// A column of a table constraint: its name, if it is a plain column, and the column as it is written.
#[derive(Debug)]
pub struct RawIndexColumn {
    pub ident: Option<String>,
    pub text: String,
}

/// A table constraint.
#[derive(Debug)]
pub enum RawTableConstraint {
    PrimaryKey(Vec<RawIndexColumn>),
    Unique(Vec<RawIndexColumn>),
    Other(String),
}

/// `CREATE TABLE`.
#[derive(Debug)]
pub struct RawCreateTable {
    pub query: bool,
    pub like: bool,
    pub clone_of: bool,
    pub or_replace: bool,
    pub temporary: bool,
    pub if_not_exists: bool,
    pub name: RawName,
    pub columns: Vec<RawColumnDef>,
    pub constraints: Vec<RawTableConstraint>,
}

/// A statement as the SQL parser gives it.
#[derive(Debug)]
pub enum RawStatement {
    CreateTable(RawCreateTable),
    Drop {
        object_type: String,
        names: Vec<RawName>,
        if_exists: bool,
    },
    Query(RawQuery),
    Insert(RawInsert),
    Update(RawUpdate),
    Delete(RawDelete),
    StartTransaction,
    Commit,
    Rollback,
    ShowTables,
    ExplainTable(RawName),
    Other(String),
}

/// The view of `RawPart`.
#[verifier::ext_equal]
pub struct RawPartView {
    pub ident: Option<Seq<char>>,
    pub text: Seq<char>,
}

/// The view of a value.
pub open spec fn raw_part_view(x: RawPart) -> RawPartView
{
    RawPartView {
        ident: match x.ident { Some(v) => Some(v@), None => None },
        text: x.text@,
    }
}

impl View for RawPart {
    type V = RawPartView;

    open spec fn view(&self) -> RawPartView {
        raw_part_view(*self)
    }
}

/// The view of `RawName`.
#[verifier::ext_equal]
pub struct RawNameView {
    pub parts: Seq<RawPartView>,
    pub text: Seq<char>,
}

/// The view of a value.
pub open spec fn raw_name_view(x: RawName) -> RawNameView
{
    RawNameView {
        parts: Seq::new(
            x.parts@.len(),
            |i: int|
                if 0 <= i < x.parts@.len() {
                    raw_part_view(x.parts@[i])
                } else {
                    arbitrary()
                },
        ),
        text: x.text@,
    }
}

impl View for RawName {
    type V = RawNameView;

    open spec fn view(&self) -> RawNameView {
        raw_name_view(*self)
    }
}

/// The view of `RawValue`.
#[verifier::ext_equal]
pub enum RawValueView {
    Null,
    Boolean(bool),
    Number(Seq<char>),
    SingleQuoted(Seq<char>),
    DoubleQuoted(Seq<char>),
    Other(Seq<char>),
}

/// The view of a value.
pub open spec fn raw_value_view(x: RawValue) -> RawValueView
{
    match x {
        RawValue::Null => RawValueView::Null,
        RawValue::Boolean(a) => RawValueView::Boolean(a),
        RawValue::Number(a) => RawValueView::Number(a@),
        RawValue::SingleQuoted(a) => RawValueView::SingleQuoted(a@),
        RawValue::DoubleQuoted(a) => RawValueView::DoubleQuoted(a@),
        RawValue::Other(a) => RawValueView::Other(a@),
    }
}

impl View for RawValue {
    type V = RawValueView;

    open spec fn view(&self) -> RawValueView {
        raw_value_view(*self)
    }
}

/// The view of `RawFunctionArg`.
#[verifier::ext_equal]
pub enum RawFunctionArgView {
    Wildcard(Seq<char>),
    Expr(RawExprView),
    Other(Seq<char>),
}

/// The view of a value.
pub open spec fn raw_function_arg_view(x: RawFunctionArg) -> RawFunctionArgView
    decreases x,
{
    match x {
        RawFunctionArg::Wildcard(a) => RawFunctionArgView::Wildcard(a@),
        RawFunctionArg::Expr(a) => RawFunctionArgView::Expr(raw_expr_view(a)),
        RawFunctionArg::Other(a) => RawFunctionArgView::Other(a@),
    }
}

impl View for RawFunctionArg {
    type V = RawFunctionArgView;

    open spec fn view(&self) -> RawFunctionArgView {
        raw_function_arg_view(*self)
    }
}

/// The view of `RawArguments`.
#[verifier::ext_equal]
pub enum RawArgumentsView {
    Absent,
    Subquery,
    List {
        clauses: usize,
        distinct: bool,
        args: Seq<RawFunctionArgView>,
    },
}

/// The view of a value.
pub open spec fn raw_arguments_view(x: RawArguments) -> RawArgumentsView
    decreases x,
{
    match x {
        RawArguments::Absent => RawArgumentsView::Absent,
        RawArguments::Subquery => RawArgumentsView::Subquery,
        RawArguments::List { clauses, distinct, args } => RawArgumentsView::List {
            clauses: clauses,
            distinct: distinct,
            args: Seq::new(
                args@.len(),
                |i: int|
                    if 0 <= i < args@.len() {
                        raw_function_arg_view(args@[i])
                    } else {
                        arbitrary()
                    },
            ),
        },
    }
}

impl View for RawArguments {
    type V = RawArgumentsView;

    open spec fn view(&self) -> RawArgumentsView {
        raw_arguments_view(*self)
    }
}

/// The view of `RawFunction`.
#[verifier::ext_equal]
pub struct RawFunctionView {
    pub name: RawNameView,
    pub over: bool,
    pub filter: bool,
    pub within_group: usize,
    pub null_treatment: bool,
    pub parametric: bool,
    pub args: RawArgumentsView,
}

/// The view of a value.
pub open spec fn raw_function_view(x: RawFunction) -> RawFunctionView
    decreases x,
{
    RawFunctionView {
        name: raw_name_view(x.name),
        over: x.over,
        filter: x.filter,
        within_group: x.within_group,
        null_treatment: x.null_treatment,
        parametric: x.parametric,
        args: raw_arguments_view(x.args),
    }
}

impl View for RawFunction {
    type V = RawFunctionView;

    open spec fn view(&self) -> RawFunctionView {
        raw_function_view(*self)
    }
}

/// The view of `RawExpr`.
#[verifier::ext_equal]
pub enum RawExprView {
    Identifier(Seq<char>),
    CompoundIdentifier {
        parts: Seq<Seq<char>>,
        debug: Seq<char>,
    },
    Value(RawValueView),
    BinaryOp {
        left: Box<RawExprView>,
        op: Seq<char>,
        right: Box<RawExprView>,
    },
    UnaryOp {
        op: Seq<char>,
        expr: Box<RawExprView>,
    },
    IsNull(Box<RawExprView>),
    IsNotNull(Box<RawExprView>),
    InList {
        expr: Box<RawExprView>,
        list: Seq<RawExprView>,
        negated: bool,
    },
    Between {
        expr: Box<RawExprView>,
        low: Box<RawExprView>,
        high: Box<RawExprView>,
        negated: bool,
    },
    Like {
        expr: Box<RawExprView>,
        pattern: Box<RawExprView>,
        negated: bool,
        any: bool,
        escape: bool,
        case_insensitive: bool,
    },
    Function(RawFunctionView),
    Nested(Box<RawExprView>),
    Other(Seq<char>),
}

/// The view of a value.
pub open spec fn raw_expr_view(x: RawExpr) -> RawExprView
    decreases x,
{
    match x {
        RawExpr::Identifier(a) => RawExprView::Identifier(a@),
        RawExpr::CompoundIdentifier { parts, debug } => RawExprView::CompoundIdentifier {
            parts: Seq::new(
                parts@.len(),
                |i: int|
                    if 0 <= i < parts@.len() {
                        parts@[i]@
                    } else {
                        arbitrary()
                    },
            ),
            debug: debug@,
        },
        RawExpr::Value(a) => RawExprView::Value(raw_value_view(a)),
        RawExpr::BinaryOp { left, op, right } => RawExprView::BinaryOp {
            left: Box::new(raw_expr_view((*left))),
            op: op@,
            right: Box::new(raw_expr_view((*right))),
        },
        RawExpr::UnaryOp { op, expr } => RawExprView::UnaryOp {
            op: op@,
            expr: Box::new(raw_expr_view((*expr))),
        },
        RawExpr::IsNull(a) => RawExprView::IsNull(Box::new(raw_expr_view((*a)))),
        RawExpr::IsNotNull(a) => RawExprView::IsNotNull(Box::new(raw_expr_view((*a)))),
        RawExpr::InList { expr, list, negated } => RawExprView::InList {
            expr: Box::new(raw_expr_view((*expr))),
            list: Seq::new(
                list@.len(),
                |i: int|
                    if 0 <= i < list@.len() {
                        raw_expr_view(list@[i])
                    } else {
                        arbitrary()
                    },
            ),
            negated: negated,
        },
        RawExpr::Between { expr, low, high, negated } => RawExprView::Between {
            expr: Box::new(raw_expr_view((*expr))),
            low: Box::new(raw_expr_view((*low))),
            high: Box::new(raw_expr_view((*high))),
            negated: negated,
        },
        RawExpr::Like { expr, pattern, negated, any, escape, case_insensitive } => RawExprView::Like {
            expr: Box::new(raw_expr_view((*expr))),
            pattern: Box::new(raw_expr_view((*pattern))),
            negated: negated,
            any: any,
            escape: escape,
            case_insensitive: case_insensitive,
        },
        RawExpr::Function(a) => RawExprView::Function(raw_function_view(a)),
        RawExpr::Nested(a) => RawExprView::Nested(Box::new(raw_expr_view((*a)))),
        RawExpr::Other(a) => RawExprView::Other(a@),
    }
}

impl View for RawExpr {
    type V = RawExprView;

    open spec fn view(&self) -> RawExprView {
        raw_expr_view(*self)
    }
}

/// The view of `RawAlias`.
#[verifier::ext_equal]
pub struct RawAliasView {
    pub name: Seq<char>,
    pub columns: usize,
}

/// The view of a value.
pub open spec fn raw_alias_view(x: RawAlias) -> RawAliasView
{
    RawAliasView {
        name: x.name@,
        columns: x.columns,
    }
}

impl View for RawAlias {
    type V = RawAliasView;

    open spec fn view(&self) -> RawAliasView {
        raw_alias_view(*self)
    }
}

/// The view of `RawFactor`.
#[verifier::ext_equal]
pub enum RawFactorView {
    Table {
        name: RawNameView,
        alias: Option<RawAliasView>,
        args: bool,
    },
    Other(Seq<char>),
}

/// The view of a value.
pub open spec fn raw_factor_view(x: RawFactor) -> RawFactorView
{
    match x {
        RawFactor::Table { name, alias, args } => RawFactorView::Table {
            name: raw_name_view(name),
            alias: match alias { Some(v) => Some(raw_alias_view(v)), None => None },
            args: args,
        },
        RawFactor::Other(a) => RawFactorView::Other(a@),
    }
}

impl View for RawFactor {
    type V = RawFactorView;

    open spec fn view(&self) -> RawFactorView {
        raw_factor_view(*self)
    }
}

/// The view of `RawConstraint`.
#[verifier::ext_equal]
pub enum RawConstraintView {
    On(RawExprView),
    Using,
    Natural,
    Absent,
}

/// The view of a value.
pub open spec fn raw_constraint_view(x: RawConstraint) -> RawConstraintView
{
    match x {
        RawConstraint::On(a) => RawConstraintView::On(raw_expr_view(a)),
        RawConstraint::Using => RawConstraintView::Using,
        RawConstraint::Natural => RawConstraintView::Natural,
        RawConstraint::Absent => RawConstraintView::Absent,
    }
}

impl View for RawConstraint {
    type V = RawConstraintView;

    open spec fn view(&self) -> RawConstraintView {
        raw_constraint_view(*self)
    }
}

/// The view of `RawJoinOperator`.
#[verifier::ext_equal]
pub enum RawJoinOperatorView {
    Join(RawConstraintView),
    Inner(RawConstraintView),
    Left(RawConstraintView),
    LeftOuter(RawConstraintView),
    Right(RawConstraintView),
    RightOuter(RawConstraintView),
    FullOuter(RawConstraintView),
    CrossJoin(RawConstraintView),
    Other(Seq<char>),
}

/// The view of a value.
pub open spec fn raw_join_operator_view(x: RawJoinOperator) -> RawJoinOperatorView
{
    match x {
        RawJoinOperator::Join(a) => RawJoinOperatorView::Join(raw_constraint_view(a)),
        RawJoinOperator::Inner(a) => RawJoinOperatorView::Inner(raw_constraint_view(a)),
        RawJoinOperator::Left(a) => RawJoinOperatorView::Left(raw_constraint_view(a)),
        RawJoinOperator::LeftOuter(a) => RawJoinOperatorView::LeftOuter(raw_constraint_view(a)),
        RawJoinOperator::Right(a) => RawJoinOperatorView::Right(raw_constraint_view(a)),
        RawJoinOperator::RightOuter(a) => RawJoinOperatorView::RightOuter(raw_constraint_view(a)),
        RawJoinOperator::FullOuter(a) => RawJoinOperatorView::FullOuter(raw_constraint_view(a)),
        RawJoinOperator::CrossJoin(a) => RawJoinOperatorView::CrossJoin(raw_constraint_view(a)),
        RawJoinOperator::Other(a) => RawJoinOperatorView::Other(a@),
    }
}

impl View for RawJoinOperator {
    type V = RawJoinOperatorView;

    open spec fn view(&self) -> RawJoinOperatorView {
        raw_join_operator_view(*self)
    }
}

/// The view of `RawJoin`.
#[verifier::ext_equal]
pub struct RawJoinView {
    pub relation: RawFactorView,
    pub operator: RawJoinOperatorView,
}

/// The view of a value.
pub open spec fn raw_join_view(x: RawJoin) -> RawJoinView
{
    RawJoinView {
        relation: raw_factor_view(x.relation),
        operator: raw_join_operator_view(x.operator),
    }
}

impl View for RawJoin {
    type V = RawJoinView;

    open spec fn view(&self) -> RawJoinView {
        raw_join_view(*self)
    }
}

/// The view of `RawTable`.
#[verifier::ext_equal]
pub struct RawTableView {
    pub relation: RawFactorView,
    pub joins: Seq<RawJoinView>,
}

/// The view of a value.
pub open spec fn raw_table_view(x: RawTable) -> RawTableView
{
    RawTableView {
        relation: raw_factor_view(x.relation),
        joins: Seq::new(
            x.joins@.len(),
            |i: int|
                if 0 <= i < x.joins@.len() {
                    raw_join_view(x.joins@[i])
                } else {
                    arbitrary()
                },
        ),
    }
}

impl View for RawTable {
    type V = RawTableView;

    open spec fn view(&self) -> RawTableView {
        raw_table_view(*self)
    }
}

/// The view of `RawSelectItem`.
#[verifier::ext_equal]
pub enum RawSelectItemView {
    Wildcard,
    UnnamedExpr(RawExprView),
    ExprWithAlias {
        expr: RawExprView,
        alias: Seq<char>,
    },
    ExprWithAliases {
        expr: RawExprView,
        aliases: Seq<Seq<char>>,
    },
    QualifiedWildcard(RawNameView),
    QualifiedOther(Seq<char>),
}

/// The view of a value.
pub open spec fn raw_select_item_view(x: RawSelectItem) -> RawSelectItemView
{
    match x {
        RawSelectItem::Wildcard => RawSelectItemView::Wildcard,
        RawSelectItem::UnnamedExpr(a) => RawSelectItemView::UnnamedExpr(raw_expr_view(a)),
        RawSelectItem::ExprWithAlias { expr, alias } => RawSelectItemView::ExprWithAlias {
            expr: raw_expr_view(expr),
            alias: alias@,
        },
        RawSelectItem::ExprWithAliases { expr, aliases } => RawSelectItemView::ExprWithAliases {
            expr: raw_expr_view(expr),
            aliases: Seq::new(
                aliases@.len(),
                |i: int|
                    if 0 <= i < aliases@.len() {
                        aliases@[i]@
                    } else {
                        arbitrary()
                    },
            ),
        },
        RawSelectItem::QualifiedWildcard(a) => RawSelectItemView::QualifiedWildcard(raw_name_view(a)),
        RawSelectItem::QualifiedOther(a) => RawSelectItemView::QualifiedOther(a@),
    }
}

impl View for RawSelectItem {
    type V = RawSelectItemView;

    open spec fn view(&self) -> RawSelectItemView {
        raw_select_item_view(*self)
    }
}

/// The view of `RawDistinct`.
#[verifier::ext_equal]
pub enum RawDistinctView {
    Absent,
    All,
    Distinct,
    Other(Seq<char>),
}

/// The view of a value.
pub open spec fn raw_distinct_view(x: RawDistinct) -> RawDistinctView
{
    match x {
        RawDistinct::Absent => RawDistinctView::Absent,
        RawDistinct::All => RawDistinctView::All,
        RawDistinct::Distinct => RawDistinctView::Distinct,
        RawDistinct::Other(a) => RawDistinctView::Other(a@),
    }
}

impl View for RawDistinct {
    type V = RawDistinctView;

    open spec fn view(&self) -> RawDistinctView {
        raw_distinct_view(*self)
    }
}

/// The view of `RawGroupBy`.
#[verifier::ext_equal]
pub enum RawGroupByView {
    All,
    Expressions {
        exprs: Seq<RawExprView>,
        modifiers: usize,
    },
}

/// The view of a value.
pub open spec fn raw_group_by_view(x: RawGroupBy) -> RawGroupByView
{
    match x {
        RawGroupBy::All => RawGroupByView::All,
        RawGroupBy::Expressions { exprs, modifiers } => RawGroupByView::Expressions {
            exprs: Seq::new(
                exprs@.len(),
                |i: int|
                    if 0 <= i < exprs@.len() {
                        raw_expr_view(exprs@[i])
                    } else {
                        arbitrary()
                    },
            ),
            modifiers: modifiers,
        },
    }
}

impl View for RawGroupBy {
    type V = RawGroupByView;

    open spec fn view(&self) -> RawGroupByView {
        raw_group_by_view(*self)
    }
}

/// The view of `RawSelectFlags`.
#[verifier::ext_equal]
pub struct RawSelectFlagsView {
    pub top: bool,
    pub into: bool,
    pub lateral_views: usize,
    pub prewhere: bool,
    pub connect_by: usize,
    pub cluster_by: usize,
    pub distribute_by: usize,
    pub sort_by: usize,
    pub named_window: usize,
    pub qualify: bool,
    pub exclude: bool,
}

/// The view of a value.
pub open spec fn raw_select_flags_view(x: RawSelectFlags) -> RawSelectFlagsView
{
    RawSelectFlagsView {
        top: x.top,
        into: x.into,
        lateral_views: x.lateral_views,
        prewhere: x.prewhere,
        connect_by: x.connect_by,
        cluster_by: x.cluster_by,
        distribute_by: x.distribute_by,
        sort_by: x.sort_by,
        named_window: x.named_window,
        qualify: x.qualify,
        exclude: x.exclude,
    }
}

impl View for RawSelectFlags {
    type V = RawSelectFlagsView;

    open spec fn view(&self) -> RawSelectFlagsView {
        raw_select_flags_view(*self)
    }
}

/// The view of `RawSelect`.
#[verifier::ext_equal]
pub struct RawSelectView {
    pub flags: RawSelectFlagsView,
    pub distinct: RawDistinctView,
    pub from: Seq<RawTableView>,
    pub projection: Seq<RawSelectItemView>,
    pub selection: Option<RawExprView>,
    pub group_by: RawGroupByView,
    pub having: Option<RawExprView>,
}

/// The view of a value.
pub open spec fn raw_select_view(x: RawSelect) -> RawSelectView
{
    RawSelectView {
        flags: raw_select_flags_view(x.flags),
        distinct: raw_distinct_view(x.distinct),
        from: Seq::new(
            x.from@.len(),
            |i: int|
                if 0 <= i < x.from@.len() {
                    raw_table_view(x.from@[i])
                } else {
                    arbitrary()
                },
        ),
        projection: Seq::new(
            x.projection@.len(),
            |i: int|
                if 0 <= i < x.projection@.len() {
                    raw_select_item_view(x.projection@[i])
                } else {
                    arbitrary()
                },
        ),
        selection: match x.selection { Some(v) => Some(raw_expr_view(v)), None => None },
        group_by: raw_group_by_view(x.group_by),
        having: match x.having { Some(v) => Some(raw_expr_view(v)), None => None },
    }
}

impl View for RawSelect {
    type V = RawSelectView;

    open spec fn view(&self) -> RawSelectView {
        raw_select_view(*self)
    }
}

/// The view of `RawSort`.
#[verifier::ext_equal]
pub enum RawSortView {
    Absent,
    Asc,
    Desc,
    Other(Seq<char>),
}

/// The view of a value.
pub open spec fn raw_sort_view(x: RawSort) -> RawSortView
{
    match x {
        RawSort::Absent => RawSortView::Absent,
        RawSort::Asc => RawSortView::Asc,
        RawSort::Desc => RawSortView::Desc,
        RawSort::Other(a) => RawSortView::Other(a@),
    }
}

impl View for RawSort {
    type V = RawSortView;

    open spec fn view(&self) -> RawSortView {
        raw_sort_view(*self)
    }
}

/// The view of `RawOrderByExpr`.
#[verifier::ext_equal]
pub struct RawOrderByExprView {
    pub expr: RawExprView,
    pub sort: RawSortView,
    pub nulls_first: Option<bool>,
    pub with_fill: bool,
}

/// The view of a value.
pub open spec fn raw_order_by_expr_view(x: RawOrderByExpr) -> RawOrderByExprView
{
    RawOrderByExprView {
        expr: raw_expr_view(x.expr),
        sort: raw_sort_view(x.sort),
        nulls_first: match x.nulls_first { Some(v) => Some(v), None => None },
        with_fill: x.with_fill,
    }
}

impl View for RawOrderByExpr {
    type V = RawOrderByExprView;

    open spec fn view(&self) -> RawOrderByExprView {
        raw_order_by_expr_view(*self)
    }
}

/// The view of `RawOrderBy`.
#[verifier::ext_equal]
pub enum RawOrderByView {
    All,
    Expressions(Seq<RawOrderByExprView>),
}

/// The view of a value.
pub open spec fn raw_order_by_view(x: RawOrderBy) -> RawOrderByView
{
    match x {
        RawOrderBy::All => RawOrderByView::All,
        RawOrderBy::Expressions(a) => RawOrderByView::Expressions(
            Seq::new(
                a@.len(),
                |i: int|
                    if 0 <= i < a@.len() {
                        raw_order_by_expr_view(a@[i])
                    } else {
                        arbitrary()
                    },
            ),
        ),
    }
}

impl View for RawOrderBy {
    type V = RawOrderByView;

    open spec fn view(&self) -> RawOrderByView {
        raw_order_by_view(*self)
    }
}

/// The view of `RawOrder`.
#[verifier::ext_equal]
pub struct RawOrderView {
    pub kind: RawOrderByView,
    pub interpolate: bool,
}

/// The view of a value.
pub open spec fn raw_order_view(x: RawOrder) -> RawOrderView
{
    RawOrderView {
        kind: raw_order_by_view(x.kind),
        interpolate: x.interpolate,
    }
}

impl View for RawOrder {
    type V = RawOrderView;

    open spec fn view(&self) -> RawOrderView {
        raw_order_view(*self)
    }
}

/// The view of `RawCount`.
#[verifier::ext_equal]
pub struct RawCountView {
    pub number: Option<Seq<char>>,
    pub text: Seq<char>,
}

/// The view of a value.
pub open spec fn raw_count_view(x: RawCount) -> RawCountView
{
    RawCountView {
        number: match x.number { Some(v) => Some(v@), None => None },
        text: x.text@,
    }
}

impl View for RawCount {
    type V = RawCountView;

    open spec fn view(&self) -> RawCountView {
        raw_count_view(*self)
    }
}

/// The view of `RawLimit`.
#[verifier::ext_equal]
pub enum RawLimitView {
    Absent,
    LimitOffset {
        limit: Option<RawCountView>,
        offset: Option<RawCountView>,
        limit_by: usize,
    },
    OffsetCommaLimit {
        offset: RawCountView,
        limit: RawCountView,
    },
}

/// The view of a value.
pub open spec fn raw_limit_view(x: RawLimit) -> RawLimitView
{
    match x {
        RawLimit::Absent => RawLimitView::Absent,
        RawLimit::LimitOffset { limit, offset, limit_by } => RawLimitView::LimitOffset {
            limit: match limit { Some(v) => Some(raw_count_view(v)), None => None },
            offset: match offset { Some(v) => Some(raw_count_view(v)), None => None },
            limit_by: limit_by,
        },
        RawLimit::OffsetCommaLimit { offset, limit } => RawLimitView::OffsetCommaLimit {
            offset: raw_count_view(offset),
            limit: raw_count_view(limit),
        },
    }
}

impl View for RawLimit {
    type V = RawLimitView;

    open spec fn view(&self) -> RawLimitView {
        raw_limit_view(*self)
    }
}

/// The view of `RawBody`.
#[verifier::ext_equal]
pub enum RawBodyView {
    Select(RawSelectView),
    Values {
        rows: Seq<Seq<RawExprView>>,
        text: Seq<char>,
    },
    Other(Seq<char>),
}

/// The view of a value.
pub open spec fn raw_body_view(x: RawBody) -> RawBodyView
{
    match x {
        RawBody::Select(a) => RawBodyView::Select(raw_select_view(a)),
        RawBody::Values { rows, text } => RawBodyView::Values {
            rows: Seq::new(
                rows@.len(),
                |i: int|
                    if 0 <= i < rows@.len() {
                        Seq::new(
                            rows@[i]@.len(),
                            |i1: int|
                                if 0 <= i1 < rows@[i]@.len() {
                                    raw_expr_view(rows@[i]@[i1])
                                } else {
                                    arbitrary()
                                },
                        )
                    } else {
                        arbitrary()
                    },
            ),
            text: text@,
        },
        RawBody::Other(a) => RawBodyView::Other(a@),
    }
}

impl View for RawBody {
    type V = RawBodyView;

    open spec fn view(&self) -> RawBodyView {
        raw_body_view(*self)
    }
}

/// The view of `RawQuery`.
#[verifier::ext_equal]
pub struct RawQueryView {
    pub with: bool,
    pub fetch: bool,
    pub locks: usize,
    pub for_clause: bool,
    pub pipe_operators: usize,
    pub body: RawBodyView,
    pub order_by: Option<RawOrderView>,
    pub limit: RawLimitView,
}

/// The view of a value.
pub open spec fn raw_query_view(x: RawQuery) -> RawQueryView
{
    RawQueryView {
        with: x.with,
        fetch: x.fetch,
        locks: x.locks,
        for_clause: x.for_clause,
        pipe_operators: x.pipe_operators,
        body: raw_body_view(x.body),
        order_by: match x.order_by { Some(v) => Some(raw_order_view(v)), None => None },
        limit: raw_limit_view(x.limit),
    }
}

impl View for RawQuery {
    type V = RawQueryView;

    open spec fn view(&self) -> RawQueryView {
        raw_query_view(*self)
    }
}

/// The view of `RawTableObject`.
#[verifier::ext_equal]
pub enum RawTableObjectView {
    Name(RawNameView),
    Function,
    Query,
}

/// The view of a value.
pub open spec fn raw_table_object_view(x: RawTableObject) -> RawTableObjectView
{
    match x {
        RawTableObject::Name(a) => RawTableObjectView::Name(raw_name_view(a)),
        RawTableObject::Function => RawTableObjectView::Function,
        RawTableObject::Query => RawTableObjectView::Query,
    }
}

impl View for RawTableObject {
    type V = RawTableObjectView;

    open spec fn view(&self) -> RawTableObjectView {
        raw_table_object_view(*self)
    }
}

/// The view of `RawInsertFlags`.
#[verifier::ext_equal]
pub struct RawInsertFlagsView {
    pub or: bool,
    pub ignore: bool,
    pub overwrite: bool,
    pub replace_into: bool,
    pub on: bool,
    pub returning: bool,
    pub output: bool,
    pub partitioned: bool,
    pub assignments: usize,
    pub table_alias: bool,
}

/// The view of a value.
pub open spec fn raw_insert_flags_view(x: RawInsertFlags) -> RawInsertFlagsView
{
    RawInsertFlagsView {
        or: x.or,
        ignore: x.ignore,
        overwrite: x.overwrite,
        replace_into: x.replace_into,
        on: x.on,
        returning: x.returning,
        output: x.output,
        partitioned: x.partitioned,
        assignments: x.assignments,
        table_alias: x.table_alias,
    }
}

impl View for RawInsertFlags {
    type V = RawInsertFlagsView;

    open spec fn view(&self) -> RawInsertFlagsView {
        raw_insert_flags_view(*self)
    }
}

/// The view of `RawInsert`.
#[verifier::ext_equal]
pub struct RawInsertView {
    pub flags: RawInsertFlagsView,
    pub table: RawTableObjectView,
    pub columns: Seq<RawNameView>,
    pub source: Option<RawQueryView>,
}

/// The view of a value.
pub open spec fn raw_insert_view(x: RawInsert) -> RawInsertView
{
    RawInsertView {
        flags: raw_insert_flags_view(x.flags),
        table: raw_table_object_view(x.table),
        columns: Seq::new(
            x.columns@.len(),
            |i: int|
                if 0 <= i < x.columns@.len() {
                    raw_name_view(x.columns@[i])
                } else {
                    arbitrary()
                },
        ),
        source: match x.source { Some(v) => Some(raw_query_view(v)), None => None },
    }
}

impl View for RawInsert {
    type V = RawInsertView;

    open spec fn view(&self) -> RawInsertView {
        raw_insert_view(*self)
    }
}

/// The view of `RawTarget`.
#[verifier::ext_equal]
pub enum RawTargetView {
    Column(RawNameView),
    Tuple,
}

/// The view of a value.
pub open spec fn raw_target_view(x: RawTarget) -> RawTargetView
{
    match x {
        RawTarget::Column(a) => RawTargetView::Column(raw_name_view(a)),
        RawTarget::Tuple => RawTargetView::Tuple,
    }
}

impl View for RawTarget {
    type V = RawTargetView;

    open spec fn view(&self) -> RawTargetView {
        raw_target_view(*self)
    }
}

/// The view of `RawAssignment`.
#[verifier::ext_equal]
pub struct RawAssignmentView {
    pub target: RawTargetView,
    pub value: RawExprView,
}

/// The view of a value.
pub open spec fn raw_assignment_view(x: RawAssignment) -> RawAssignmentView
{
    RawAssignmentView {
        target: raw_target_view(x.target),
        value: raw_expr_view(x.value),
    }
}

impl View for RawAssignment {
    type V = RawAssignmentView;

    open spec fn view(&self) -> RawAssignmentView {
        raw_assignment_view(*self)
    }
}

/// The view of `RawUpdateFlags`.
#[verifier::ext_equal]
pub struct RawUpdateFlagsView {
    pub from: bool,
    pub returning: bool,
    pub output: bool,
    pub or: bool,
    pub order_by: usize,
    pub limit: bool,
}

/// The view of a value.
pub open spec fn raw_update_flags_view(x: RawUpdateFlags) -> RawUpdateFlagsView
{
    RawUpdateFlagsView {
        from: x.from,
        returning: x.returning,
        output: x.output,
        or: x.or,
        order_by: x.order_by,
        limit: x.limit,
    }
}

impl View for RawUpdateFlags {
    type V = RawUpdateFlagsView;

    open spec fn view(&self) -> RawUpdateFlagsView {
        raw_update_flags_view(*self)
    }
}

/// The view of `RawUpdate`.
#[verifier::ext_equal]
pub struct RawUpdateView {
    pub flags: RawUpdateFlagsView,
    pub table: RawTableView,
    pub assignments: Seq<RawAssignmentView>,
    pub selection: Option<RawExprView>,
}

/// The view of a value.
pub open spec fn raw_update_view(x: RawUpdate) -> RawUpdateView
{
    RawUpdateView {
        flags: raw_update_flags_view(x.flags),
        table: raw_table_view(x.table),
        assignments: Seq::new(
            x.assignments@.len(),
            |i: int|
                if 0 <= i < x.assignments@.len() {
                    raw_assignment_view(x.assignments@[i])
                } else {
                    arbitrary()
                },
        ),
        selection: match x.selection { Some(v) => Some(raw_expr_view(v)), None => None },
    }
}

impl View for RawUpdate {
    type V = RawUpdateView;

    open spec fn view(&self) -> RawUpdateView {
        raw_update_view(*self)
    }
}

/// The view of `RawDeleteFlags`.
#[verifier::ext_equal]
pub struct RawDeleteFlagsView {
    pub tables: usize,
    pub using: bool,
    pub returning: bool,
    pub output: bool,
    pub order_by: usize,
    pub limit: bool,
}

/// The view of a value.
pub open spec fn raw_delete_flags_view(x: RawDeleteFlags) -> RawDeleteFlagsView
{
    RawDeleteFlagsView {
        tables: x.tables,
        using: x.using,
        returning: x.returning,
        output: x.output,
        order_by: x.order_by,
        limit: x.limit,
    }
}

impl View for RawDeleteFlags {
    type V = RawDeleteFlagsView;

    open spec fn view(&self) -> RawDeleteFlagsView {
        raw_delete_flags_view(*self)
    }
}

/// The view of `RawDelete`.
#[verifier::ext_equal]
pub struct RawDeleteView {
    pub flags: RawDeleteFlagsView,
    pub from: Seq<RawTableView>,
    pub selection: Option<RawExprView>,
}

/// The view of a value.
pub open spec fn raw_delete_view(x: RawDelete) -> RawDeleteView
{
    RawDeleteView {
        flags: raw_delete_flags_view(x.flags),
        from: Seq::new(
            x.from@.len(),
            |i: int|
                if 0 <= i < x.from@.len() {
                    raw_table_view(x.from@[i])
                } else {
                    arbitrary()
                },
        ),
        selection: match x.selection { Some(v) => Some(raw_expr_view(v)), None => None },
    }
}

impl View for RawDelete {
    type V = RawDeleteView;

    open spec fn view(&self) -> RawDeleteView {
        raw_delete_view(*self)
    }
}

/// The view of `RawColumnOption`.
#[verifier::ext_equal]
pub enum RawColumnOptionView {
    Null,
    NotNull,
    Unique,
    PrimaryKey,
    Default(RawExprView),
    Comment,
    Other(Seq<char>),
}

/// The view of a value.
pub open spec fn raw_column_option_view(x: RawColumnOption) -> RawColumnOptionView
{
    match x {
        RawColumnOption::Null => RawColumnOptionView::Null,
        RawColumnOption::NotNull => RawColumnOptionView::NotNull,
        RawColumnOption::Unique => RawColumnOptionView::Unique,
        RawColumnOption::PrimaryKey => RawColumnOptionView::PrimaryKey,
        RawColumnOption::Default(a) => RawColumnOptionView::Default(raw_expr_view(a)),
        RawColumnOption::Comment => RawColumnOptionView::Comment,
        RawColumnOption::Other(a) => RawColumnOptionView::Other(a@),
    }
}

impl View for RawColumnOption {
    type V = RawColumnOptionView;

    open spec fn view(&self) -> RawColumnOptionView {
        raw_column_option_view(*self)
    }
}

/// The view of `RawColumnDef`.
#[verifier::ext_equal]
pub struct RawColumnDefView {
    pub name: Seq<char>,
    pub data_type: Seq<char>,
    pub options: Seq<RawColumnOptionView>,
}

/// The view of a value.
pub open spec fn raw_column_def_view(x: RawColumnDef) -> RawColumnDefView
{
    RawColumnDefView {
        name: x.name@,
        data_type: x.data_type@,
        options: Seq::new(
            x.options@.len(),
            |i: int|
                if 0 <= i < x.options@.len() {
                    raw_column_option_view(x.options@[i])
                } else {
                    arbitrary()
                },
        ),
    }
}

impl View for RawColumnDef {
    type V = RawColumnDefView;

    open spec fn view(&self) -> RawColumnDefView {
        raw_column_def_view(*self)
    }
}

/// The view of `RawIndexColumn`.
#[verifier::ext_equal]
pub struct RawIndexColumnView {
    pub ident: Option<Seq<char>>,
    pub text: Seq<char>,
}

/// The view of a value.
pub open spec fn raw_index_column_view(x: RawIndexColumn) -> RawIndexColumnView
{
    RawIndexColumnView {
        ident: match x.ident { Some(v) => Some(v@), None => None },
        text: x.text@,
    }
}

impl View for RawIndexColumn {
    type V = RawIndexColumnView;

    open spec fn view(&self) -> RawIndexColumnView {
        raw_index_column_view(*self)
    }
}

/// The view of `RawTableConstraint`.
#[verifier::ext_equal]
pub enum RawTableConstraintView {
    PrimaryKey(Seq<RawIndexColumnView>),
    Unique(Seq<RawIndexColumnView>),
    Other(Seq<char>),
}

/// The view of a value.
pub open spec fn raw_table_constraint_view(x: RawTableConstraint) -> RawTableConstraintView
{
    match x {
        RawTableConstraint::PrimaryKey(a) => RawTableConstraintView::PrimaryKey(
            Seq::new(
                a@.len(),
                |i: int|
                    if 0 <= i < a@.len() {
                        raw_index_column_view(a@[i])
                    } else {
                        arbitrary()
                    },
            ),
        ),
        RawTableConstraint::Unique(a) => RawTableConstraintView::Unique(
            Seq::new(
                a@.len(),
                |i: int|
                    if 0 <= i < a@.len() {
                        raw_index_column_view(a@[i])
                    } else {
                        arbitrary()
                    },
            ),
        ),
        RawTableConstraint::Other(a) => RawTableConstraintView::Other(a@),
    }
}

impl View for RawTableConstraint {
    type V = RawTableConstraintView;

    open spec fn view(&self) -> RawTableConstraintView {
        raw_table_constraint_view(*self)
    }
}

/// The view of `RawCreateTable`.
#[verifier::ext_equal]
pub struct RawCreateTableView {
    pub query: bool,
    pub like: bool,
    pub clone_of: bool,
    pub or_replace: bool,
    pub temporary: bool,
    pub if_not_exists: bool,
    pub name: RawNameView,
    pub columns: Seq<RawColumnDefView>,
    pub constraints: Seq<RawTableConstraintView>,
}

/// The view of a value.
pub open spec fn raw_create_table_view(x: RawCreateTable) -> RawCreateTableView
{
    RawCreateTableView {
        query: x.query,
        like: x.like,
        clone_of: x.clone_of,
        or_replace: x.or_replace,
        temporary: x.temporary,
        if_not_exists: x.if_not_exists,
        name: raw_name_view(x.name),
        columns: Seq::new(
            x.columns@.len(),
            |i: int|
                if 0 <= i < x.columns@.len() {
                    raw_column_def_view(x.columns@[i])
                } else {
                    arbitrary()
                },
        ),
        constraints: Seq::new(
            x.constraints@.len(),
            |i: int|
                if 0 <= i < x.constraints@.len() {
                    raw_table_constraint_view(x.constraints@[i])
                } else {
                    arbitrary()
                },
        ),
    }
}

impl View for RawCreateTable {
    type V = RawCreateTableView;

    open spec fn view(&self) -> RawCreateTableView {
        raw_create_table_view(*self)
    }
}

/// The view of `RawStatement`.
#[verifier::ext_equal]
pub enum RawStatementView {
    CreateTable(RawCreateTableView),
    Drop {
        object_type: Seq<char>,
        names: Seq<RawNameView>,
        if_exists: bool,
    },
    Query(RawQueryView),
    Insert(RawInsertView),
    Update(RawUpdateView),
    Delete(RawDeleteView),
    StartTransaction,
    Commit,
    Rollback,
    ShowTables,
    ExplainTable(RawNameView),
    Other(Seq<char>),
}

/// The view of a value.
pub open spec fn raw_statement_view(x: RawStatement) -> RawStatementView
{
    match x {
        RawStatement::CreateTable(a) => RawStatementView::CreateTable(raw_create_table_view(a)),
        RawStatement::Drop { object_type, names, if_exists } => RawStatementView::Drop {
            object_type: object_type@,
            names: Seq::new(
                names@.len(),
                |i: int|
                    if 0 <= i < names@.len() {
                        raw_name_view(names@[i])
                    } else {
                        arbitrary()
                    },
            ),
            if_exists: if_exists,
        },
        RawStatement::Query(a) => RawStatementView::Query(raw_query_view(a)),
        RawStatement::Insert(a) => RawStatementView::Insert(raw_insert_view(a)),
        RawStatement::Update(a) => RawStatementView::Update(raw_update_view(a)),
        RawStatement::Delete(a) => RawStatementView::Delete(raw_delete_view(a)),
        RawStatement::StartTransaction => RawStatementView::StartTransaction,
        RawStatement::Commit => RawStatementView::Commit,
        RawStatement::Rollback => RawStatementView::Rollback,
        RawStatement::ShowTables => RawStatementView::ShowTables,
        RawStatement::ExplainTable(a) => RawStatementView::ExplainTable(raw_name_view(a)),
        RawStatement::Other(a) => RawStatementView::Other(a@),
    }
}

impl View for RawStatement {
    type V = RawStatementView;

    open spec fn view(&self) -> RawStatementView {
        raw_statement_view(*self)
    }
}

} // verus!
