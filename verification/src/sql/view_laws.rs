//! What the views of statements and of the trees of the SQL parser hold.

use super::ast::{
    Assignment, ColumnConstraint, ColumnConstraintView, ColumnDef, CreateTable, Delete,
    DropTable, Expr, ExprView, FunctionArgs, FunctionArgsView, Insert, InsertSource,
    InsertSourceView, Join, LiteralValue, LiteralValueView, OrderBy, Select, SelectColumn,
    SelectColumnView, Statement, StatementView, TableRef, Update,
};
use super::error;
use super::error::{ParseError, ParseErrorView};
use super::raw::{
    RawAlias, RawArguments, RawArgumentsView, RawAssignment, RawBody, RawBodyView, RawColumnDef,
    RawColumnOption, RawColumnOptionView, RawConstraint, RawConstraintView, RawCount,
    RawCreateTable, RawDelete, RawDeleteFlags, RawDistinct, RawDistinctView, RawExpr,
    RawExprView, RawFactor, RawFactorView, RawFunction, RawFunctionArg, RawFunctionArgView,
    RawGroupBy, RawGroupByView, RawIndexColumn, RawInsert, RawInsertFlags, RawJoin,
    RawJoinOperator, RawJoinOperatorView, RawLimit, RawLimitView, RawName, RawOrder, RawOrderBy,
    RawOrderByExpr, RawOrderByView, RawPart, RawQuery, RawSelect, RawSelectFlags, RawSelectItem,
    RawSelectItemView, RawSort, RawSortView, RawStatement, RawStatementView, RawTable,
    RawTableConstraint, RawTableConstraintView, RawTableObject, RawTableObjectView, RawTarget,
    RawTargetView, RawUpdate, RawUpdateFlags, RawValue, RawValueView,
};
use vstd::prelude::*;

verus! {

/// What the view of `LiteralValue` holds: each part as it is.
pub proof fn lemma_literal_value(x: LiteralValue)
    ensures
        x is Null ==> x@ is Null,
        x matches LiteralValue::Boolean(a) ==> (x@ matches LiteralValueView::Boolean(b) && b == a),
        x matches LiteralValue::Integer(a) ==> (x@ matches LiteralValueView::Integer(b) && b == a),
        x matches LiteralValue::Float(a) ==> (x@ matches LiteralValueView::Float(b) && b == a@),
        x matches LiteralValue::String(a) ==> (x@ matches LiteralValueView::String(b) && b == a@),
{
}

/// What the view of `FunctionArgs` holds: each part as it is.
pub proof fn lemma_function_args(x: FunctionArgs)
    ensures
        x is Star ==> x@ is Star,
        x matches FunctionArgs::List { args, distinct }
            ==> (x@ matches FunctionArgsView::List { args: v_args, distinct: v_distinct }
            && (v_args.len() == args@.len() && forall|i: int|
            0 <= i < args@.len() ==> #[trigger] v_args[i] == args@[i]@)
                && (v_distinct == distinct)),
{
}

/// What the view of `Expr` holds: each part as it is.
pub proof fn lemma_expr(x: Expr)
    ensures
        x matches Expr::Column { table, name }
            ==> (x@ matches ExprView::Column { table: v_table, name: v_name }
            && (v_table == (match table {
            Some(o) => Some(o@),
            None => None,
        })) && (v_name == name@)),
        x matches Expr::Literal(a) ==> (x@ matches ExprView::Literal(b) && b == a@),
        x matches Expr::BinaryOp { left, op, right }
            ==> (x@ matches ExprView::BinaryOp { left: v_left, op: v_op, right: v_right }
            && (*v_left == (*left)@) && (v_op == op) && (*v_right == (*right)@)),
        x matches Expr::UnaryOp { op, expr } ==> (x@ matches ExprView::UnaryOp { op: v_op,
            expr: v_expr } && (v_op == op) && (*v_expr == (*expr)@)),
        x matches Expr::IsNull { expr, negated }
            ==> (x@ matches ExprView::IsNull { expr: v_expr, negated: v_negated }
            && (*v_expr == (*expr)@) && (v_negated == negated)),
        x matches Expr::InList { expr, list, negated }
            ==> (x@ matches ExprView::InList { expr: v_expr, list: v_list, negated: v_negated }
            && (*v_expr == (*expr)@) && (v_list.len() == list@.len() && forall|i: int|
            0 <= i < list@.len() ==> #[trigger] v_list[i] == list@[i]@) && (v_negated == negated)),
        x matches Expr::Between { expr, low, high, negated }
            ==> (x@ matches ExprView::Between { expr: v_expr, low: v_low, high: v_high,
            negated: v_negated } && (*v_expr == (*expr)@) && (*v_low == (*low)@)
            && (*v_high == (*high)@) && (v_negated == negated)),
        x matches Expr::Like { expr, pattern, negated, case_insensitive }
            ==> (x@ matches ExprView::Like { expr: v_expr, pattern: v_pattern, negated: v_negated,
            case_insensitive: v_case_insensitive } && (*v_expr == (*expr)@)
            && (v_pattern == pattern@) && (v_negated == negated)
            && (v_case_insensitive == case_insensitive)),
        x matches Expr::Function { name, args }
            ==> (x@ matches ExprView::Function { name: v_name, args: v_args } && (v_name == name@)
            && (v_args == args@)),
        x matches Expr::Nested(a) ==> (x@ matches ExprView::Nested(b) && *b == (*a)@),
{
}

/// What the view of `ColumnConstraint` holds: each part as it is.
pub proof fn lemma_column_constraint(x: ColumnConstraint)
    ensures
        x is NotNull ==> x@ is NotNull,
        x is Unique ==> x@ is Unique,
        x is PrimaryKey ==> x@ is PrimaryKey,
        x matches ColumnConstraint::Default(a)
            ==> (x@ matches ColumnConstraintView::Default(b) && b == a@),
{
}

/// What the view of `ColumnDef` holds: each part as it is.
pub proof fn lemma_column_def(x: ColumnDef)
    ensures
        x@.name == x.name@,
        x@.data_type == x.data_type,
        x@.constraints.len() == x.constraints@.len() && forall|i: int|
            0 <= i < x.constraints@.len() ==> #[trigger] x@.constraints[i] == x.constraints@[i]@,
{
}

/// What the view of `CreateTable` holds: each part as it is.
pub proof fn lemma_create_table(x: CreateTable)
    ensures
        x@.name == x.name@,
        x@.columns.len() == x.columns@.len() && forall|i: int|
            0 <= i < x.columns@.len() ==> #[trigger] x@.columns[i] == x.columns@[i]@,
        x@.primary_key.len() == x.primary_key@.len() && forall|i: int|
            0 <= i < x.primary_key@.len() ==> #[trigger] x@.primary_key[i] == x.primary_key@[i]@,
        x@.unique_keys.len() == x.unique_keys@.len() && forall|i: int|
            0 <= i < x.unique_keys@.len() ==> (#[trigger] x@.unique_keys[i]).len()
                == x.unique_keys@[i]@.len() && forall|j: int|
                0 <= j < x.unique_keys@[i]@.len()
                    ==> #[trigger] x@.unique_keys[i][j] == x.unique_keys@[i]@[j]@,
        x@.if_not_exists == x.if_not_exists,
{
}

/// What the view of `DropTable` holds: each part as it is.
pub proof fn lemma_drop_table(x: DropTable)
    ensures
        x@.name == x.name@,
        x@.if_exists == x.if_exists,
{
}

/// What the view of `Join` holds: each part as it is.
pub proof fn lemma_join(x: Join)
    ensures
        x@.table == x.table@,
        x@.alias == (match x.alias {
            Some(o) => Some(o@),
            None => None,
        }),
        x@.join_type == x.join_type,
        x@.on == (match x.on {
            Some(o) => Some(o@),
            None => None,
        }),
{
}

/// What the view of `TableRef` holds: each part as it is.
pub proof fn lemma_table_ref(x: TableRef)
    ensures
        x@.base == x.base@,
        x@.base_alias == (match x.base_alias {
            Some(o) => Some(o@),
            None => None,
        }),
        x@.joins.len() == x.joins@.len() && forall|i: int|
            0 <= i < x.joins@.len() ==> #[trigger] x@.joins[i] == x.joins@[i]@,
{
}

/// What the view of `SelectColumn` holds: each part as it is.
pub proof fn lemma_select_column(x: SelectColumn)
    ensures
        x is Wildcard ==> x@ is Wildcard,
        x matches SelectColumn::QualifiedWildcard(a)
            ==> (x@ matches SelectColumnView::QualifiedWildcard(b) && b == a@),
        x matches SelectColumn::Column { table, name }
            ==> (x@ matches SelectColumnView::Column { table: v_table, name: v_name }
            && (v_table == (match table {
            Some(o) => Some(o@),
            None => None,
        })) && (v_name == name@)),
        x matches SelectColumn::Expr { expr, alias }
            ==> (x@ matches SelectColumnView::Expr { expr: v_expr, alias: v_alias }
            && (v_expr == expr@) && (v_alias == (match alias {
            Some(o) => Some(o@),
            None => None,
        }))),
{
}

/// What the view of `OrderBy` holds: each part as it is.
pub proof fn lemma_order_by(x: OrderBy)
    ensures
        x@.expr == x.expr@,
        x@.ascending == x.ascending,
        x@.nulls_first == x.nulls_first,
{
}

/// What the view of `Select` holds: each part as it is.
pub proof fn lemma_select(x: Select)
    ensures
        x@.distinct == x.distinct,
        x@.columns.len() == x.columns@.len() && forall|i: int|
            0 <= i < x.columns@.len() ==> #[trigger] x@.columns[i] == x.columns@[i]@,
        x@.from == x.from@,
        x@.where_clause == (match x.where_clause {
            Some(o) => Some(o@),
            None => None,
        }),
        x@.group_by.len() == x.group_by@.len() && forall|i: int|
            0 <= i < x.group_by@.len() ==> #[trigger] x@.group_by[i] == x.group_by@[i]@,
        x@.having == (match x.having {
            Some(o) => Some(o@),
            None => None,
        }),
        x@.order_by.len() == x.order_by@.len() && forall|i: int|
            0 <= i < x.order_by@.len() ==> #[trigger] x@.order_by[i] == x.order_by@[i]@,
        x@.limit == x.limit,
        x@.offset == x.offset,
{
}

/// What the view of `InsertSource` holds: each part as it is.
pub proof fn lemma_insert_source(x: InsertSource)
    ensures
        x matches InsertSource::Values(a) ==> (x@ matches InsertSourceView::Values(b)
            && b.len() == a@.len() && forall|i: int|
            0 <= i < a@.len() ==> (#[trigger] b[i]).len() == a@[i]@.len() && forall|j: int|
                0 <= j < a@[i]@.len() ==> #[trigger] b[i][j] == a@[i]@[j]@),
        x matches InsertSource::Select(a) ==> (x@ matches InsertSourceView::Select(b)
            && *b == (*a)@),
{
}

/// What the view of `Insert` holds: each part as it is.
pub proof fn lemma_insert(x: Insert)
    ensures
        x@.table == x.table@,
        (match (x.columns, x@.columns) {
            (Some(o), Some(p)) => p.len() == o@.len() && forall|i: int|
                0 <= i < o@.len() ==> #[trigger] p[i] == o@[i]@,
            (None, None) => true,
            _ => false,
        }),
        x@.source == x.source@,
{
}

/// What the view of `Assignment` holds: each part as it is.
pub proof fn lemma_assignment(x: Assignment)
    ensures
        x@.column == x.column@,
        x@.value == x.value@,
{
}

/// What the view of `Update` holds: each part as it is.
pub proof fn lemma_update(x: Update)
    ensures
        x@.table == x.table@,
        x@.alias == (match x.alias {
            Some(o) => Some(o@),
            None => None,
        }),
        x@.assignments.len() == x.assignments@.len() && forall|i: int|
            0 <= i < x.assignments@.len() ==> #[trigger] x@.assignments[i] == x.assignments@[i]@,
        x@.where_clause == (match x.where_clause {
            Some(o) => Some(o@),
            None => None,
        }),
{
}

/// What the view of `Delete` holds: each part as it is.
pub proof fn lemma_delete(x: Delete)
    ensures
        x@.table == x.table@,
        x@.alias == (match x.alias {
            Some(o) => Some(o@),
            None => None,
        }),
        x@.where_clause == (match x.where_clause {
            Some(o) => Some(o@),
            None => None,
        }),
{
}

/// What the view of `Statement` holds: each part as it is.
pub proof fn lemma_statement(x: Statement)
    ensures
        x matches Statement::CreateTable(a) ==> (x@ matches StatementView::CreateTable(b)
            && b == a@),
        x matches Statement::DropTable(a) ==> (x@ matches StatementView::DropTable(b) && b == a@),
        x matches Statement::Select(a) ==> (x@ matches StatementView::Select(b) && b == a@),
        x matches Statement::Insert(a) ==> (x@ matches StatementView::Insert(b) && b == a@),
        x matches Statement::Update(a) ==> (x@ matches StatementView::Update(b) && b == a@),
        x matches Statement::Delete(a) ==> (x@ matches StatementView::Delete(b) && b == a@),
        x is Begin ==> x@ is Begin,
        x is Commit ==> x@ is Commit,
        x is Rollback ==> x@ is Rollback,
        x is ShowTables ==> x@ is ShowTables,
        x matches Statement::Describe(a) ==> (x@ matches StatementView::Describe(b) && b == a@),
{
}

/// What the view of `RawPart` holds: each part as it is.
pub proof fn lemma_raw_part(x: RawPart)
    ensures
        x@.ident == (match x.ident {
            Some(o) => Some(o@),
            None => None,
        }),
        x@.text == x.text@,
{
}

/// What the view of `RawName` holds: each part as it is.
pub proof fn lemma_raw_name(x: RawName)
    ensures
        x@.parts.len() == x.parts@.len() && forall|i: int|
            0 <= i < x.parts@.len() ==> #[trigger] x@.parts[i] == x.parts@[i]@,
        x@.text == x.text@,
{
}

/// What the view of `RawValue` holds: each part as it is.
pub proof fn lemma_raw_value(x: RawValue)
    ensures
        x is Null ==> x@ is Null,
        x matches RawValue::Boolean(a) ==> (x@ matches RawValueView::Boolean(b) && b == a),
        x matches RawValue::Number(a) ==> (x@ matches RawValueView::Number(b) && b == a@),
        x matches RawValue::SingleQuoted(a) ==> (x@ matches RawValueView::SingleQuoted(b)
            && b == a@),
        x matches RawValue::DoubleQuoted(a) ==> (x@ matches RawValueView::DoubleQuoted(b)
            && b == a@),
        x matches RawValue::Other(a) ==> (x@ matches RawValueView::Other(b) && b == a@),
{
}

/// What the view of `RawFunctionArg` holds: each part as it is.
pub proof fn lemma_raw_function_arg(x: RawFunctionArg)
    ensures
        x matches RawFunctionArg::Wildcard(a) ==> (x@ matches RawFunctionArgView::Wildcard(b)
            && b == a@),
        x matches RawFunctionArg::Expr(a) ==> (x@ matches RawFunctionArgView::Expr(b) && b == a@),
        x matches RawFunctionArg::Other(a) ==> (x@ matches RawFunctionArgView::Other(b) && b == a@),
{
}

/// What the view of `RawArguments` holds: each part as it is.
pub proof fn lemma_raw_arguments(x: RawArguments)
    ensures
        x is Absent ==> x@ is Absent,
        x is Subquery ==> x@ is Subquery,
        x matches RawArguments::List { clauses, distinct, args }
            ==> (x@ matches RawArgumentsView::List { clauses: v_clauses, distinct: v_distinct,
            args: v_args } && (v_clauses == clauses) && (v_distinct == distinct)
            && (v_args.len() == args@.len() && forall|i: int|
            0 <= i < args@.len() ==> #[trigger] v_args[i] == args@[i]@)),
{
}

/// What the view of `RawFunction` holds: each part as it is.
pub proof fn lemma_raw_function(x: RawFunction)
    ensures
        x@.name == x.name@,
        x@.over == x.over,
        x@.filter == x.filter,
        x@.within_group == x.within_group,
        x@.null_treatment == x.null_treatment,
        x@.parametric == x.parametric,
        x@.args == x.args@,
{
}

/// What the view of `RawExpr` holds: each part as it is.
pub proof fn lemma_raw_expr(x: RawExpr)
    ensures
        x matches RawExpr::Identifier(a) ==> (x@ matches RawExprView::Identifier(b) && b == a@),
        x matches RawExpr::CompoundIdentifier { parts, debug }
            ==> (x@ matches RawExprView::CompoundIdentifier { parts: v_parts, debug: v_debug }
            && (v_parts.len() == parts@.len() && forall|i: int|
            0 <= i < parts@.len() ==> #[trigger] v_parts[i] == parts@[i]@) && (v_debug == debug@)),
        x matches RawExpr::Value(a) ==> (x@ matches RawExprView::Value(b) && b == a@),
        x matches RawExpr::BinaryOp { left, op, right }
            ==> (x@ matches RawExprView::BinaryOp { left: v_left, op: v_op, right: v_right }
            && (*v_left == (*left)@) && (v_op == op@) && (*v_right == (*right)@)),
        x matches RawExpr::UnaryOp { op, expr }
            ==> (x@ matches RawExprView::UnaryOp { op: v_op, expr: v_expr } && (v_op == op@)
            && (*v_expr == (*expr)@)),
        x matches RawExpr::IsNull(a) ==> (x@ matches RawExprView::IsNull(b) && *b == (*a)@),
        x matches RawExpr::IsNotNull(a) ==> (x@ matches RawExprView::IsNotNull(b) && *b == (*a)@),
        x matches RawExpr::InList { expr, list, negated }
            ==> (x@ matches RawExprView::InList { expr: v_expr, list: v_list, negated: v_negated }
            && (*v_expr == (*expr)@) && (v_list.len() == list@.len() && forall|i: int|
            0 <= i < list@.len() ==> #[trigger] v_list[i] == list@[i]@) && (v_negated == negated)),
        x matches RawExpr::Between { expr, low, high, negated }
            ==> (x@ matches RawExprView::Between { expr: v_expr, low: v_low, high: v_high,
            negated: v_negated } && (*v_expr == (*expr)@) && (*v_low == (*low)@)
            && (*v_high == (*high)@) && (v_negated == negated)),
        x matches RawExpr::Like { expr, pattern, negated, any, escape, case_insensitive }
            ==> (x@ matches RawExprView::Like { expr: v_expr, pattern: v_pattern,
            negated: v_negated, any: v_any, escape: v_escape, case_insensitive: v_case_insensitive }
            && (*v_expr == (*expr)@) && (*v_pattern == (*pattern)@) && (v_negated == negated)
            && (v_any == any) && (v_escape == escape) && (v_case_insensitive == case_insensitive)),
        x matches RawExpr::Function(a) ==> (x@ matches RawExprView::Function(b) && b == a@),
        x matches RawExpr::Nested(a) ==> (x@ matches RawExprView::Nested(b) && *b == (*a)@),
        x matches RawExpr::Other(a) ==> (x@ matches RawExprView::Other(b) && b == a@),
{
}

/// What the view of `RawAlias` holds: each part as it is.
pub proof fn lemma_raw_alias(x: RawAlias)
    ensures
        x@.name == x.name@,
        x@.columns == x.columns,
{
}

/// What the view of `RawFactor` holds: each part as it is.
pub proof fn lemma_raw_factor(x: RawFactor)
    ensures
        x matches RawFactor::Table { name, alias, args }
            ==> (x@ matches RawFactorView::Table { name: v_name, alias: v_alias, args: v_args }
            && (v_name == name@) && (v_alias == (match alias {
            Some(o) => Some(o@),
            None => None,
        })) && (v_args == args)),
        x matches RawFactor::Other(a) ==> (x@ matches RawFactorView::Other(b) && b == a@),
{
}

/// What the view of `RawConstraint` holds: each part as it is.
pub proof fn lemma_raw_constraint(x: RawConstraint)
    ensures
        x matches RawConstraint::On(a) ==> (x@ matches RawConstraintView::On(b) && b == a@),
        x is Using ==> x@ is Using,
        x is Natural ==> x@ is Natural,
        x is Absent ==> x@ is Absent,
{
}

/// What the view of `RawJoinOperator` holds: each part as it is.
pub proof fn lemma_raw_join_operator(x: RawJoinOperator)
    ensures
        x matches RawJoinOperator::Join(a) ==> (x@ matches RawJoinOperatorView::Join(b) && b == a@),
        x matches RawJoinOperator::Inner(a) ==> (x@ matches RawJoinOperatorView::Inner(b)
            && b == a@),
        x matches RawJoinOperator::Left(a) ==> (x@ matches RawJoinOperatorView::Left(b) && b == a@),
        x matches RawJoinOperator::LeftOuter(a)
            ==> (x@ matches RawJoinOperatorView::LeftOuter(b) && b == a@),
        x matches RawJoinOperator::Right(a) ==> (x@ matches RawJoinOperatorView::Right(b)
            && b == a@),
        x matches RawJoinOperator::RightOuter(a)
            ==> (x@ matches RawJoinOperatorView::RightOuter(b) && b == a@),
        x matches RawJoinOperator::FullOuter(a)
            ==> (x@ matches RawJoinOperatorView::FullOuter(b) && b == a@),
        x matches RawJoinOperator::CrossJoin(a)
            ==> (x@ matches RawJoinOperatorView::CrossJoin(b) && b == a@),
        x matches RawJoinOperator::Other(a) ==> (x@ matches RawJoinOperatorView::Other(b)
            && b == a@),
{
}

/// What the view of `RawJoin` holds: each part as it is.
pub proof fn lemma_raw_join(x: RawJoin)
    ensures
        x@.relation == x.relation@,
        x@.operator == x.operator@,
{
}

/// What the view of `RawTable` holds: each part as it is.
pub proof fn lemma_raw_table(x: RawTable)
    ensures
        x@.relation == x.relation@,
        x@.joins.len() == x.joins@.len() && forall|i: int|
            0 <= i < x.joins@.len() ==> #[trigger] x@.joins[i] == x.joins@[i]@,
{
}

/// What the view of `RawSelectItem` holds: each part as it is.
pub proof fn lemma_raw_select_item(x: RawSelectItem)
    ensures
        x is Wildcard ==> x@ is Wildcard,
        x matches RawSelectItem::UnnamedExpr(a)
            ==> (x@ matches RawSelectItemView::UnnamedExpr(b) && b == a@),
        x matches RawSelectItem::ExprWithAlias { expr, alias }
            ==> (x@ matches RawSelectItemView::ExprWithAlias { expr: v_expr, alias: v_alias }
            && (v_expr == expr@) && (v_alias == alias@)),
        x matches RawSelectItem::ExprWithAliases { expr, aliases }
            ==> (x@ matches RawSelectItemView::ExprWithAliases { expr: v_expr, aliases: v_aliases }
            && (v_expr == expr@) && (v_aliases.len() == aliases@.len() && forall|i: int|
            0 <= i < aliases@.len() ==> #[trigger] v_aliases[i] == aliases@[i]@)),
        x matches RawSelectItem::QualifiedWildcard(a)
            ==> (x@ matches RawSelectItemView::QualifiedWildcard(b) && b == a@),
        x matches RawSelectItem::QualifiedOther(a)
            ==> (x@ matches RawSelectItemView::QualifiedOther(b) && b == a@),
{
}

/// What the view of `RawDistinct` holds: each part as it is.
pub proof fn lemma_raw_distinct(x: RawDistinct)
    ensures
        x is Absent ==> x@ is Absent,
        x is All ==> x@ is All,
        x is Distinct ==> x@ is Distinct,
        x matches RawDistinct::Other(a) ==> (x@ matches RawDistinctView::Other(b) && b == a@),
{
}

/// What the view of `RawGroupBy` holds: each part as it is.
pub proof fn lemma_raw_group_by(x: RawGroupBy)
    ensures
        x is All ==> x@ is All,
        x matches RawGroupBy::Expressions { exprs, modifiers }
            ==> (x@ matches RawGroupByView::Expressions { exprs: v_exprs, modifiers: v_modifiers }
            && (v_exprs.len() == exprs@.len() && forall|i: int|
            0 <= i < exprs@.len() ==> #[trigger] v_exprs[i] == exprs@[i]@)
                && (v_modifiers == modifiers)),
{
}

/// What the view of `RawSelectFlags` holds: each part as it is.
pub proof fn lemma_raw_select_flags(x: RawSelectFlags)
    ensures
        x@.top == x.top,
        x@.into == x.into,
        x@.lateral_views == x.lateral_views,
        x@.prewhere == x.prewhere,
        x@.connect_by == x.connect_by,
        x@.cluster_by == x.cluster_by,
        x@.distribute_by == x.distribute_by,
        x@.sort_by == x.sort_by,
        x@.named_window == x.named_window,
        x@.qualify == x.qualify,
        x@.exclude == x.exclude,
{
}

/// What the view of `RawSelect` holds: each part as it is.
pub proof fn lemma_raw_select(x: RawSelect)
    ensures
        x@.flags == x.flags@,
        x@.distinct == x.distinct@,
        x@.from.len() == x.from@.len() && forall|i: int|
            0 <= i < x.from@.len() ==> #[trigger] x@.from[i] == x.from@[i]@,
        x@.projection.len() == x.projection@.len() && forall|i: int|
            0 <= i < x.projection@.len() ==> #[trigger] x@.projection[i] == x.projection@[i]@,
        x@.selection == (match x.selection {
            Some(o) => Some(o@),
            None => None,
        }),
        x@.group_by == x.group_by@,
        x@.having == (match x.having {
            Some(o) => Some(o@),
            None => None,
        }),
{
}

/// What the view of `RawSort` holds: each part as it is.
pub proof fn lemma_raw_sort(x: RawSort)
    ensures
        x is Absent ==> x@ is Absent,
        x is Asc ==> x@ is Asc,
        x is Desc ==> x@ is Desc,
        x matches RawSort::Other(a) ==> (x@ matches RawSortView::Other(b) && b == a@),
{
}

/// What the view of `RawOrderByExpr` holds: each part as it is.
pub proof fn lemma_raw_order_by_expr(x: RawOrderByExpr)
    ensures
        x@.expr == x.expr@,
        x@.sort == x.sort@,
        x@.nulls_first == x.nulls_first,
        x@.with_fill == x.with_fill,
{
}

/// What the view of `RawOrderBy` holds: each part as it is.
pub proof fn lemma_raw_order_by(x: RawOrderBy)
    ensures
        x is All ==> x@ is All,
        x matches RawOrderBy::Expressions(a) ==> (x@ matches RawOrderByView::Expressions(b)
            && b.len() == a@.len() && forall|i: int|
            0 <= i < a@.len() ==> #[trigger] b[i] == a@[i]@),
{
}

/// What the view of `RawOrder` holds: each part as it is.
pub proof fn lemma_raw_order(x: RawOrder)
    ensures
        x@.kind == x.kind@,
        x@.interpolate == x.interpolate,
{
}

/// What the view of `RawCount` holds: each part as it is.
pub proof fn lemma_raw_count(x: RawCount)
    ensures
        x@.number == (match x.number {
            Some(o) => Some(o@),
            None => None,
        }),
        x@.text == x.text@,
{
}

/// What the view of `RawLimit` holds: each part as it is.
pub proof fn lemma_raw_limit(x: RawLimit)
    ensures
        x is Absent ==> x@ is Absent,
        x matches RawLimit::LimitOffset { limit, offset, limit_by }
            ==> (x@ matches RawLimitView::LimitOffset { limit: v_limit, offset: v_offset,
            limit_by: v_limit_by } && (v_limit == (match limit {
            Some(o) => Some(o@),
            None => None,
        })) && (v_offset == (match offset {
            Some(o) => Some(o@),
            None => None,
        })) && (v_limit_by == limit_by)),
        x matches RawLimit::OffsetCommaLimit { offset, limit }
            ==> (x@ matches RawLimitView::OffsetCommaLimit { offset: v_offset, limit: v_limit }
            && (v_offset == offset@) && (v_limit == limit@)),
{
}

/// What the view of `RawBody` holds: each part as it is.
pub proof fn lemma_raw_body(x: RawBody)
    ensures
        x matches RawBody::Select(a) ==> (x@ matches RawBodyView::Select(b) && b == a@),
        x matches RawBody::Values { rows, text }
            ==> (x@ matches RawBodyView::Values { rows: v_rows, text: v_text }
            && (v_rows.len() == rows@.len() && forall|i: int|
            0 <= i < rows@.len() ==> (#[trigger] v_rows[i]).len() == rows@[i]@.len()
                && forall|j: int|
                0 <= j < rows@[i]@.len() ==> #[trigger] v_rows[i][j] == rows@[i]@[j]@)
                    && (v_text == text@)),
        x matches RawBody::Other(a) ==> (x@ matches RawBodyView::Other(b) && b == a@),
{
}

/// What the view of `RawQuery` holds: each part as it is.
pub proof fn lemma_raw_query(x: RawQuery)
    ensures
        x@.with == x.with,
        x@.fetch == x.fetch,
        x@.locks == x.locks,
        x@.for_clause == x.for_clause,
        x@.pipe_operators == x.pipe_operators,
        x@.body == x.body@,
        x@.order_by == (match x.order_by {
            Some(o) => Some(o@),
            None => None,
        }),
        x@.limit == x.limit@,
{
}

/// What the view of `RawTableObject` holds: each part as it is.
pub proof fn lemma_raw_table_object(x: RawTableObject)
    ensures
        x matches RawTableObject::Name(a) ==> (x@ matches RawTableObjectView::Name(b) && b == a@),
        x is Function ==> x@ is Function,
        x is Query ==> x@ is Query,
{
}

/// What the view of `RawInsertFlags` holds: each part as it is.
pub proof fn lemma_raw_insert_flags(x: RawInsertFlags)
    ensures
        x@.or == x.or,
        x@.ignore == x.ignore,
        x@.overwrite == x.overwrite,
        x@.replace_into == x.replace_into,
        x@.on == x.on,
        x@.returning == x.returning,
        x@.output == x.output,
        x@.partitioned == x.partitioned,
        x@.assignments == x.assignments,
        x@.table_alias == x.table_alias,
{
}

/// What the view of `RawInsert` holds: each part as it is.
pub proof fn lemma_raw_insert(x: RawInsert)
    ensures
        x@.flags == x.flags@,
        x@.table == x.table@,
        x@.columns.len() == x.columns@.len() && forall|i: int|
            0 <= i < x.columns@.len() ==> #[trigger] x@.columns[i] == x.columns@[i]@,
        x@.source == (match x.source {
            Some(o) => Some(o@),
            None => None,
        }),
{
}

/// What the view of `RawTarget` holds: each part as it is.
pub proof fn lemma_raw_target(x: RawTarget)
    ensures
        x matches RawTarget::Column(a) ==> (x@ matches RawTargetView::Column(b) && b == a@),
        x is Tuple ==> x@ is Tuple,
{
}

/// What the view of `RawAssignment` holds: each part as it is.
pub proof fn lemma_raw_assignment(x: RawAssignment)
    ensures
        x@.target == x.target@,
        x@.value == x.value@,
{
}

/// What the view of `RawUpdateFlags` holds: each part as it is.
pub proof fn lemma_raw_update_flags(x: RawUpdateFlags)
    ensures
        x@.from == x.from,
        x@.returning == x.returning,
        x@.output == x.output,
        x@.or == x.or,
        x@.order_by == x.order_by,
        x@.limit == x.limit,
{
}

/// What the view of `RawUpdate` holds: each part as it is.
pub proof fn lemma_raw_update(x: RawUpdate)
    ensures
        x@.flags == x.flags@,
        x@.table == x.table@,
        x@.assignments.len() == x.assignments@.len() && forall|i: int|
            0 <= i < x.assignments@.len() ==> #[trigger] x@.assignments[i] == x.assignments@[i]@,
        x@.selection == (match x.selection {
            Some(o) => Some(o@),
            None => None,
        }),
{
}

/// What the view of `RawDeleteFlags` holds: each part as it is.
pub proof fn lemma_raw_delete_flags(x: RawDeleteFlags)
    ensures
        x@.tables == x.tables,
        x@.using == x.using,
        x@.returning == x.returning,
        x@.output == x.output,
        x@.order_by == x.order_by,
        x@.limit == x.limit,
{
}

/// What the view of `RawDelete` holds: each part as it is.
pub proof fn lemma_raw_delete(x: RawDelete)
    ensures
        x@.flags == x.flags@,
        x@.from.len() == x.from@.len() && forall|i: int|
            0 <= i < x.from@.len() ==> #[trigger] x@.from[i] == x.from@[i]@,
        x@.selection == (match x.selection {
            Some(o) => Some(o@),
            None => None,
        }),
{
}

/// What the view of `RawColumnOption` holds: each part as it is.
pub proof fn lemma_raw_column_option(x: RawColumnOption)
    ensures
        x is Null ==> x@ is Null,
        x is NotNull ==> x@ is NotNull,
        x is Unique ==> x@ is Unique,
        x is PrimaryKey ==> x@ is PrimaryKey,
        x matches RawColumnOption::Default(a) ==> (x@ matches RawColumnOptionView::Default(b)
            && b == a@),
        x is Comment ==> x@ is Comment,
        x matches RawColumnOption::Other(a) ==> (x@ matches RawColumnOptionView::Other(b)
            && b == a@),
{
}

/// What the view of `RawColumnDef` holds: each part as it is.
pub proof fn lemma_raw_column_def(x: RawColumnDef)
    ensures
        x@.name == x.name@,
        x@.data_type == x.data_type@,
        x@.options.len() == x.options@.len() && forall|i: int|
            0 <= i < x.options@.len() ==> #[trigger] x@.options[i] == x.options@[i]@,
{
}

/// What the view of `RawIndexColumn` holds: each part as it is.
pub proof fn lemma_raw_index_column(x: RawIndexColumn)
    ensures
        x@.ident == (match x.ident {
            Some(o) => Some(o@),
            None => None,
        }),
        x@.text == x.text@,
{
}

/// What the view of `RawTableConstraint` holds: each part as it is.
pub proof fn lemma_raw_table_constraint(x: RawTableConstraint)
    ensures
        x matches RawTableConstraint::PrimaryKey(a)
            ==> (x@ matches RawTableConstraintView::PrimaryKey(b) && b.len() == a@.len()
            && forall|i: int|
            0 <= i < a@.len() ==> #[trigger] b[i] == a@[i]@),
        x matches RawTableConstraint::Unique(a)
            ==> (x@ matches RawTableConstraintView::Unique(b) && b.len() == a@.len()
            && forall|i: int|
            0 <= i < a@.len() ==> #[trigger] b[i] == a@[i]@),
        x matches RawTableConstraint::Other(a)
            ==> (x@ matches RawTableConstraintView::Other(b) && b == a@),
{
}

/// What the view of `RawCreateTable` holds: each part as it is.
pub proof fn lemma_raw_create_table(x: RawCreateTable)
    ensures
        x@.query == x.query,
        x@.like == x.like,
        x@.clone_of == x.clone_of,
        x@.or_replace == x.or_replace,
        x@.temporary == x.temporary,
        x@.if_not_exists == x.if_not_exists,
        x@.name == x.name@,
        x@.columns.len() == x.columns@.len() && forall|i: int|
            0 <= i < x.columns@.len() ==> #[trigger] x@.columns[i] == x.columns@[i]@,
        x@.constraints.len() == x.constraints@.len() && forall|i: int|
            0 <= i < x.constraints@.len() ==> #[trigger] x@.constraints[i] == x.constraints@[i]@,
{
}

/// What the view of `RawStatement` holds: each part as it is.
pub proof fn lemma_raw_statement(x: RawStatement)
    ensures
        x matches RawStatement::CreateTable(a)
            ==> (x@ matches RawStatementView::CreateTable(b) && b == a@),
        x matches RawStatement::Drop { object_type, names, if_exists }
            ==> (x@ matches RawStatementView::Drop { object_type: v_object_type, names: v_names,
            if_exists: v_if_exists } && (v_object_type == object_type@)
            && (v_names.len() == names@.len() && forall|i: int|
            0 <= i < names@.len() ==> #[trigger] v_names[i] == names@[i]@)
                && (v_if_exists == if_exists)),
        x matches RawStatement::Query(a) ==> (x@ matches RawStatementView::Query(b) && b == a@),
        x matches RawStatement::Insert(a) ==> (x@ matches RawStatementView::Insert(b) && b == a@),
        x matches RawStatement::Update(a) ==> (x@ matches RawStatementView::Update(b) && b == a@),
        x matches RawStatement::Delete(a) ==> (x@ matches RawStatementView::Delete(b) && b == a@),
        x is StartTransaction ==> x@ is StartTransaction,
        x is Commit ==> x@ is Commit,
        x is Rollback ==> x@ is Rollback,
        x is ShowTables ==> x@ is ShowTables,
        x matches RawStatement::ExplainTable(a)
            ==> (x@ matches RawStatementView::ExplainTable(b) && b == a@),
        x matches RawStatement::Other(a) ==> (x@ matches RawStatementView::Other(b) && b == a@),
{
}

/// What the view of an error holds: its kind and its text.
pub proof fn lemma_parse_error(x: ParseError)
    ensures
        x is EmptyQuery ==> x@ is EmptyQuery,
        x is MultipleStatements ==> x@ is MultipleStatements,
        x matches ParseError::MissingClause(s) ==> x@ == ParseErrorView::MissingClause(s@),
        x matches ParseError::UnsupportedStatement(s) ==> x@
            == ParseErrorView::UnsupportedStatement(s@),
        x matches ParseError::UnsupportedDataType(s) ==> x@ == ParseErrorView::UnsupportedDataType(
            s@,
        ),
        x matches ParseError::UnsupportedExpression(s) ==> x@
            == ParseErrorView::UnsupportedExpression(s@),
        x matches ParseError::InvalidIdentifier(s) ==> x@ == ParseErrorView::InvalidIdentifier(s@),
        x matches ParseError::SqlParser(s) ==> x@ == ParseErrorView::SqlParser(s@),
{
}

/// The view of an outcome is that of the value or of the error.
pub proof fn lemma_outcome<T: View>(x: T, e: ParseError)
    ensures
        error::outcome(Ok::<T, ParseError>(x)) == Ok::<T::V, ParseErrorView>(x@),
        error::outcome(Err::<T, ParseError>(e)) == Err::<T::V, ParseErrorView>(e@),
{
}

/// How errors read.
pub proof fn lemma_message(s: Seq<char>)
    ensures
        error::message(ParseErrorView::EmptyQuery) == "Empty query"@,
        error::message(ParseErrorView::MultipleStatements) == "Multiple statements not allowed"@,
        error::message(ParseErrorView::MissingClause(s)) == "Missing clause: "@ + s,
        error::message(ParseErrorView::UnsupportedStatement(s)) == "Unsupported statement: "@ + s,
        error::message(ParseErrorView::UnsupportedDataType(s)) == "Unsupported data type: "@ + s,
        error::message(ParseErrorView::UnsupportedExpression(s)) == "Unsupported expression: "@ + s,
        error::message(ParseErrorView::InvalidIdentifier(s)) == "Invalid identifier: "@ + s,
        error::message(ParseErrorView::SqlParser(s)) == "SQL parser error: "@ + s,
{
}

} // verus!
