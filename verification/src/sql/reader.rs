//! Reads what the SQL parser returns into plain values.
//!
//! The types of the parser are opaque here. Each has a name for what a value of
//! it holds, and functions that take a value one step apart.

use super::raw;
use sqlparser::ast as sp;
use sqlparser::ast::{
    Assignment as SpAssignment, ColumnDef as SpColumnDef, CreateTable as SpCreateTable,
    Delete as SpDelete, Expr as SpExpr, Insert as SpInsert, Join as SpJoin, OrderBy as SpOrderBy,
    Select as SpSelect, Statement as SpStatement, Update as SpUpdate,
};
use vstd::prelude::*;

verus! {

/// `sqlparser::parser::ParserError`, whose values are opaque.
#[verifier::external_type_specification]
#[verifier::external_body]
pub struct ExParserError(sqlparser::parser::ParserError);

/// `sqlparser::ast::Ident`, whose values are opaque.
#[verifier::external_type_specification]
#[verifier::external_body]
pub struct ExIdent(sqlparser::ast::Ident);

/// `sqlparser::ast::ObjectNamePart`, whose values are opaque.
#[verifier::external_type_specification]
#[verifier::external_body]
pub struct ExObjectNamePart(sqlparser::ast::ObjectNamePart);

/// `sqlparser::ast::ObjectName`, whose values are opaque.
#[verifier::external_type_specification]
#[verifier::external_body]
pub struct ExObjectName(sqlparser::ast::ObjectName);

/// `sqlparser::ast::Value`, whose values are opaque.
#[verifier::external_type_specification]
#[verifier::external_body]
pub struct ExValue(sqlparser::ast::Value);

/// `sqlparser::ast::FunctionArg`, whose values are opaque.
#[verifier::external_type_specification]
#[verifier::external_body]
pub struct ExFunctionArg(sqlparser::ast::FunctionArg);

/// `sqlparser::ast::FunctionArguments`, whose values are opaque.
#[verifier::external_type_specification]
#[verifier::external_body]
pub struct ExFunctionArguments(sqlparser::ast::FunctionArguments);

/// `sqlparser::ast::Function`, whose values are opaque.
#[verifier::external_type_specification]
#[verifier::external_body]
pub struct ExFunction(sqlparser::ast::Function);

/// `sqlparser::ast::Expr`, whose values are opaque.
#[verifier::external_type_specification]
#[verifier::external_body]
pub struct ExExpr(SpExpr);

/// `sqlparser::ast::TableAlias`, whose values are opaque.
#[verifier::external_type_specification]
#[verifier::external_body]
pub struct ExTableAlias(sqlparser::ast::TableAlias);

/// `sqlparser::ast::TableFactor`, whose values are opaque.
#[verifier::external_type_specification]
#[verifier::external_body]
pub struct ExTableFactor(sqlparser::ast::TableFactor);

/// `sqlparser::ast::JoinConstraint`, whose values are opaque.
#[verifier::external_type_specification]
#[verifier::external_body]
pub struct ExJoinConstraint(sqlparser::ast::JoinConstraint);

/// `sqlparser::ast::JoinOperator`, whose values are opaque.
#[verifier::external_type_specification]
#[verifier::external_body]
pub struct ExJoinOperator(sqlparser::ast::JoinOperator);

/// `sqlparser::ast::Join`, whose values are opaque.
#[verifier::external_type_specification]
#[verifier::external_body]
pub struct ExJoin(SpJoin);

/// `sqlparser::ast::TableWithJoins`, whose values are opaque.
#[verifier::external_type_specification]
#[verifier::external_body]
pub struct ExTableWithJoins(sqlparser::ast::TableWithJoins);

/// `sqlparser::ast::SelectItem`, whose values are opaque.
#[verifier::external_type_specification]
#[verifier::external_body]
pub struct ExSelectItem(sqlparser::ast::SelectItem);

/// `sqlparser::ast::Distinct`, whose values are opaque.
#[verifier::external_type_specification]
#[verifier::external_body]
pub struct ExDistinct(sqlparser::ast::Distinct);

/// `sqlparser::ast::GroupByExpr`, whose values are opaque.
#[verifier::external_type_specification]
#[verifier::external_body]
pub struct ExGroupByExpr(sqlparser::ast::GroupByExpr);

/// `sqlparser::ast::Select`, whose values are opaque.
#[verifier::external_type_specification]
#[verifier::external_body]
pub struct ExSelect(SpSelect);

/// `sqlparser::ast::OrderBySort`, whose values are opaque.
#[verifier::external_type_specification]
#[verifier::external_body]
pub struct ExOrderBySort(sqlparser::ast::OrderBySort);

/// `sqlparser::ast::OrderByExpr`, whose values are opaque.
#[verifier::external_type_specification]
#[verifier::external_body]
pub struct ExOrderByExpr(sqlparser::ast::OrderByExpr);

/// `sqlparser::ast::OrderBy`, whose values are opaque.
#[verifier::external_type_specification]
#[verifier::external_body]
pub struct ExOrderBy(SpOrderBy);

/// `sqlparser::ast::LimitClause`, whose values are opaque.
#[verifier::external_type_specification]
#[verifier::external_body]
pub struct ExLimitClause(sqlparser::ast::LimitClause);

/// `sqlparser::ast::Values`, whose values are opaque.
#[verifier::external_type_specification]
#[verifier::external_body]
pub struct ExValues(sqlparser::ast::Values);

/// `sqlparser::ast::SetExpr`, whose values are opaque.
#[verifier::external_type_specification]
#[verifier::external_body]
pub struct ExSetExpr(sqlparser::ast::SetExpr);

/// `sqlparser::ast::Query`, whose values are opaque.
#[verifier::external_type_specification]
#[verifier::external_body]
pub struct ExQuery(sqlparser::ast::Query);

/// `sqlparser::ast::TableObject`, whose values are opaque.
#[verifier::external_type_specification]
#[verifier::external_body]
pub struct ExTableObject(sqlparser::ast::TableObject);

/// `sqlparser::ast::Insert`, whose values are opaque.
#[verifier::external_type_specification]
#[verifier::external_body]
pub struct ExInsert(SpInsert);

/// `sqlparser::ast::AssignmentTarget`, whose values are opaque.
#[verifier::external_type_specification]
#[verifier::external_body]
pub struct ExAssignmentTarget(sqlparser::ast::AssignmentTarget);

/// `sqlparser::ast::Assignment`, whose values are opaque.
#[verifier::external_type_specification]
#[verifier::external_body]
pub struct ExAssignment(SpAssignment);

/// `sqlparser::ast::Update`, whose values are opaque.
#[verifier::external_type_specification]
#[verifier::external_body]
pub struct ExUpdate(SpUpdate);

/// `sqlparser::ast::Delete`, whose values are opaque.
#[verifier::external_type_specification]
#[verifier::external_body]
pub struct ExDelete(SpDelete);

/// `sqlparser::ast::ColumnOptionDef`, whose values are opaque.
#[verifier::external_type_specification]
#[verifier::external_body]
pub struct ExColumnOptionDef(sqlparser::ast::ColumnOptionDef);

/// `sqlparser::ast::ColumnDef`, whose values are opaque.
#[verifier::external_type_specification]
#[verifier::external_body]
pub struct ExColumnDef(SpColumnDef);

/// `sqlparser::ast::IndexColumn`, whose values are opaque.
#[verifier::external_type_specification]
#[verifier::external_body]
pub struct ExIndexColumn(sqlparser::ast::IndexColumn);

/// `sqlparser::ast::TableConstraint`, whose values are opaque.
#[verifier::external_type_specification]
#[verifier::external_body]
pub struct ExTableConstraint(sqlparser::ast::TableConstraint);

/// `sqlparser::ast::CreateTable`, whose values are opaque.
#[verifier::external_type_specification]
#[verifier::external_body]
pub struct ExCreateTable(SpCreateTable);

/// `sqlparser::ast::Statement`, whose values are opaque.
#[verifier::external_type_specification]
#[verifier::external_body]
pub struct ExStatement(SpStatement);

/// The message of a parser error.
pub uninterp spec fn error_text(x: sqlparser::parser::ParserError) -> Seq<char>;

/// An identifier.
pub uninterp spec fn ident_text(x: sqlparser::ast::Ident) -> Seq<char>;

/// What a part of a name holds.
pub uninterp spec fn part_tree(x: sqlparser::ast::ObjectNamePart) -> raw::RawPartView;

/// What a name holds.
pub uninterp spec fn name_tree(x: sqlparser::ast::ObjectName) -> raw::RawNameView;

/// What a literal holds.
pub uninterp spec fn value_tree(x: sqlparser::ast::Value) -> raw::RawValueView;

/// What a function argument holds.
pub uninterp spec fn arg_tree(x: sqlparser::ast::FunctionArg) -> raw::RawFunctionArgView;

/// What function arguments hold.
pub uninterp spec fn arguments_tree(x: sqlparser::ast::FunctionArguments) -> raw::RawArgumentsView;

/// What a function call holds.
pub uninterp spec fn function_tree(x: sqlparser::ast::Function) -> raw::RawFunctionView;

/// What an expression holds.
pub uninterp spec fn expr_tree(x: sqlparser::ast::Expr) -> raw::RawExprView;

/// What a table alias holds.
pub uninterp spec fn alias_tree(x: sqlparser::ast::TableAlias) -> raw::RawAliasView;

/// What a table of a query holds.
pub uninterp spec fn factor_tree(x: sqlparser::ast::TableFactor) -> raw::RawFactorView;

/// What a join condition holds.
pub uninterp spec fn constraint_tree(x: sqlparser::ast::JoinConstraint) -> raw::RawConstraintView;

/// What a join operator holds.
pub uninterp spec fn operator_tree(x: sqlparser::ast::JoinOperator) -> raw::RawJoinOperatorView;

/// What a join holds.
pub uninterp spec fn join_tree(x: sqlparser::ast::Join) -> raw::RawJoinView;

/// What a table with joins holds.
pub uninterp spec fn table_tree(x: sqlparser::ast::TableWithJoins) -> raw::RawTableView;

/// What an item of a projection holds.
pub uninterp spec fn item_tree(x: sqlparser::ast::SelectItem) -> raw::RawSelectItemView;

/// What a `DISTINCT` clause holds.
pub uninterp spec fn distinct_tree(x: sqlparser::ast::Distinct) -> raw::RawDistinctView;

/// What a `GROUP BY` clause holds.
pub uninterp spec fn group_tree(x: sqlparser::ast::GroupByExpr) -> raw::RawGroupByView;

/// What a `SELECT` holds.
pub uninterp spec fn select_tree(x: sqlparser::ast::Select) -> raw::RawSelectView;

/// What the direction of an ordering holds.
pub uninterp spec fn sort_tree(x: sqlparser::ast::OrderBySort) -> raw::RawSortView;

/// What a key of an ordering holds.
pub uninterp spec fn key_tree(x: sqlparser::ast::OrderByExpr) -> raw::RawOrderByExprView;

/// What an `ORDER BY` clause holds.
pub uninterp spec fn order_tree(x: sqlparser::ast::OrderBy) -> raw::RawOrderView;

/// What an expression for a number of rows holds.
pub uninterp spec fn count_tree(x: sqlparser::ast::Expr) -> raw::RawCountView;

/// What a `LIMIT` clause holds.
pub uninterp spec fn limit_tree(x: sqlparser::ast::LimitClause) -> raw::RawLimitView;

/// The rows of a `VALUES` list.
pub uninterp spec fn rows_tree(x: sqlparser::ast::Values) -> Seq<Seq<raw::RawExprView>>;

/// What the body of a query holds.
pub uninterp spec fn body_tree(x: sqlparser::ast::SetExpr) -> raw::RawBodyView;

/// What a query holds.
pub uninterp spec fn query_tree(x: sqlparser::ast::Query) -> raw::RawQueryView;

/// What the target of an `INSERT` holds.
pub uninterp spec fn object_tree(x: sqlparser::ast::TableObject) -> raw::RawTableObjectView;

/// What an `INSERT` holds.
pub uninterp spec fn insert_tree(x: sqlparser::ast::Insert) -> raw::RawInsertView;

/// What the target of an assignment holds.
pub uninterp spec fn target_tree(x: sqlparser::ast::AssignmentTarget) -> raw::RawTargetView;

/// What an assignment holds.
pub uninterp spec fn assignment_tree(x: sqlparser::ast::Assignment) -> raw::RawAssignmentView;

/// What an `UPDATE` holds.
pub uninterp spec fn update_tree(x: sqlparser::ast::Update) -> raw::RawUpdateView;

/// What a `DELETE` holds.
pub uninterp spec fn delete_tree(x: sqlparser::ast::Delete) -> raw::RawDeleteView;

/// What a column option holds.
pub uninterp spec fn option_tree(x: sqlparser::ast::ColumnOptionDef) -> raw::RawColumnOptionView;

/// What a column definition holds.
pub uninterp spec fn column_tree(x: sqlparser::ast::ColumnDef) -> raw::RawColumnDefView;

/// What a column of a table constraint holds.
pub uninterp spec fn index_column_tree(x: sqlparser::ast::IndexColumn) -> raw::RawIndexColumnView;

/// What a table constraint holds.
pub uninterp spec fn table_constraint_tree(
    x: sqlparser::ast::TableConstraint,
) -> raw::RawTableConstraintView;

/// What a `CREATE TABLE` holds.
pub uninterp spec fn create_tree(x: sqlparser::ast::CreateTable) -> raw::RawCreateTableView;

/// What a statement holds.
pub uninterp spec fn statement_tree(x: sqlparser::ast::Statement) -> raw::RawStatementView;

/// `ParserError::to_string` gives the message of the error, which depends on
/// the error alone.
#[verifier::external_body]
pub(crate) fn parser_error_text(e: &sqlparser::parser::ParserError) -> (s: String)
    ensures
        s@ == error_text(*e),
{
    e.to_string()
}

/// `Ident::value` is the identifier without quotes.
#[verifier::external_body]
fn ident_value(i: &sp::Ident) -> (s: String)
    ensures
        s@ == ident_text(*i),
{
    i.value.clone()
}

/// The two kinds of parts of a name.
enum PartNode<'a> {
    Identifier(&'a sp::Ident),
    Function,
}

/// `ObjectNamePart` is an identifier or a function; with it comes the part as
/// `Display` writes it.
#[verifier::external_body]
fn part_node<'a>(p: &'a sp::ObjectNamePart) -> (r: (PartNode<'a>, String))
    ensures
        part_tree(*p) == (raw::RawPartView {
            ident: match r.0 {
                PartNode::Identifier(i) => Some(ident_text(*i)),
                PartNode::Function => None,
            },
            text: r.1@,
        }),
{
    let node = match p {
        sp::ObjectNamePart::Identifier(i) => PartNode::Identifier(i),
        sp::ObjectNamePart::Function(_) => PartNode::Function,
    };
    (node, p.to_string())
}

fn read_part(p: &sp::ObjectNamePart) -> (r: raw::RawPart)
    ensures
        r@ == part_tree(*p),
{
    let (node, text) = part_node(p);
    let ident = match node {
        PartNode::Identifier(i) => Some(ident_value(i)),
        PartNode::Function => None,
    };
    raw::RawPart { ident, text }
}

/// What some values hold.
pub open spec fn part_trees(v: Seq<sqlparser::ast::ObjectNamePart>) -> Seq<raw::RawPartView> {
    Seq::new(v.len(), |i: int| part_tree(v[i]))
}

/// Reads some values.
fn read_parts(v: &Vec<sp::ObjectNamePart>) -> (r: Vec<raw::RawPart>)
    ensures
        r@.len() == v@.len(),
        forall|i: int| 0 <= i < v@.len() ==> (#[trigger] r@[i])@ == part_tree(v@[i]),
{
    let mut r: Vec<raw::RawPart> = Vec::with_capacity(v.len());
    let mut i: usize = 0;
    while i < v.len()
        invariant
            i <= v@.len(),
            r@.len() == i,
            forall|j: int| 0 <= j < i ==> (#[trigger] r@[j])@ == part_tree(v@[j]),
        decreases v@.len() - i,
    {
        r.push(read_part(&v[i]));
        i = i + 1;
    }
    r
}

/// `ObjectName` is a list of parts; with it comes the name as `Display` writes
/// it.
#[verifier::external_body]
fn name_parts<'a>(n: &'a sp::ObjectName) -> (r: (&'a Vec<sp::ObjectNamePart>, String))
    ensures
        name_tree(*n) == (raw::RawNameView { parts: part_trees(r.0@), text: r.1@ }),
{
    (&n.0, n.to_string())
}

fn read_name(n: &sp::ObjectName) -> (r: raw::RawName)
    ensures
        r@ == name_tree(*n),
{
    let (parts, text) = name_parts(n);
    let r = raw::RawName { parts: read_parts(parts), text };
    assert(r@.parts =~= part_trees(parts@));
    r
}

/// What some values hold.
pub open spec fn name_trees(v: Seq<sqlparser::ast::ObjectName>) -> Seq<raw::RawNameView> {
    Seq::new(v.len(), |i: int| name_tree(v[i]))
}

/// Reads some values.
fn read_names(v: &Vec<sp::ObjectName>) -> (r: Vec<raw::RawName>)
    ensures
        r@.len() == v@.len(),
        forall|i: int| 0 <= i < v@.len() ==> (#[trigger] r@[i])@ == name_tree(v@[i]),
{
    let mut r: Vec<raw::RawName> = Vec::with_capacity(v.len());
    let mut i: usize = 0;
    while i < v.len()
        invariant
            i <= v@.len(),
            r@.len() == i,
            forall|j: int| 0 <= j < i ==> (#[trigger] r@[j])@ == name_tree(v@[j]),
        decreases v@.len() - i,
    {
        r.push(read_name(&v[i]));
        i = i + 1;
    }
    r
}

/// `Value` by its variants. A number is kept as it is written,
/// and other literals than those named here as `Debug` writes them.
#[verifier::external_body]
fn read_value(v: &sp::Value) -> (r: raw::RawValue)
    ensures
        r@ == value_tree(*v),
{
    match v {
        sp::Value::Null => raw::RawValue::Null,
        sp::Value::Boolean(b) => raw::RawValue::Boolean(*b),
        sp::Value::Number(s, _) => raw::RawValue::Number(s.to_string()),
        sp::Value::SingleQuotedString(s) => raw::RawValue::SingleQuoted(s.clone()),
        sp::Value::DoubleQuotedString(s) => raw::RawValue::DoubleQuoted(s.clone()),
        other => raw::RawValue::Other(format!("{:?}", other)),
    }
}

/// The arguments of functions, by kind.
enum ArgNode<'a> {
    Wildcard,
    Expr(&'a sp::Expr),
    Other,
}

/// `FunctionArg` by its variants: an unnamed `*`, an unnamed expression or
/// anything else; with it comes the argument as `Display` writes it.
#[verifier::external_body]
fn arg_node<'a>(a: &'a sp::FunctionArg) -> (r: (ArgNode<'a>, String))
    ensures
        arg_tree(*a) == (match r.0 {
            ArgNode::Wildcard => raw::RawFunctionArgView::Wildcard(r.1@),
            ArgNode::Expr(e) => raw::RawFunctionArgView::Expr(expr_tree(*e)),
            ArgNode::Other => raw::RawFunctionArgView::Other(r.1@),
        }),
{
    let node = match a {
        sp::FunctionArg::Unnamed(sp::FunctionArgExpr::Wildcard) => ArgNode::Wildcard,
        sp::FunctionArg::Unnamed(sp::FunctionArgExpr::Expr(e)) => ArgNode::Expr(e),
        _ => ArgNode::Other,
    };
    (node, a.to_string())
}

fn read_arg(a: &sp::FunctionArg) -> (r: raw::RawFunctionArg)
    ensures
        r@ == arg_tree(*a),
    decreases arg_tree(*a),
{
    let (node, text) = arg_node(a);
    match node {
        ArgNode::Wildcard => raw::RawFunctionArg::Wildcard(text),
        ArgNode::Expr(e) => {
            assert(arg_tree(*a)->Expr_0 == expr_tree(*e));
            raw::RawFunctionArg::Expr(read_expr(e))
        },
        ArgNode::Other => raw::RawFunctionArg::Other(text),
    }
}

/// What some values hold.
pub open spec fn arg_trees(v: Seq<sqlparser::ast::FunctionArg>) -> Seq<raw::RawFunctionArgView> {
    Seq::new(v.len(), |i: int| arg_tree(v[i]))
}

/// Reads some values.
fn read_args(v: &Vec<sp::FunctionArg>) -> (r: Vec<raw::RawFunctionArg>)
    ensures
        r@.len() == v@.len(),
        forall|i: int| 0 <= i < v@.len() ==> (#[trigger] r@[i])@ == arg_tree(v@[i]),
    decreases arg_trees(v@),
{
    let mut r: Vec<raw::RawFunctionArg> = Vec::with_capacity(v.len());
    let mut i: usize = 0;
    while i < v.len()
        invariant
            i <= v@.len(),
            r@.len() == i,
            forall|j: int| 0 <= j < i ==> (#[trigger] r@[j])@ == arg_tree(v@[j]),
        decreases v@.len() - i,
    {
        assert(arg_trees(v@)[i as int] == arg_tree(v@[i as int]));
        r.push(read_arg(&v[i]));
        i = i + 1;
    }
    r
}

/// Function arguments, by kind.
enum ArgumentsNode<'a> {
    Absent,
    Subquery,
    List { clauses: usize, distinct: bool, args: &'a Vec<sp::FunctionArg> },
}

/// `FunctionArguments` by its variants. Of a list: how many clauses it has,
/// whether it has `DISTINCT`, and its arguments.
#[verifier::external_body]
fn arguments_node<'a>(a: &'a sp::FunctionArguments) -> (r: ArgumentsNode<'a>)
    ensures
        arguments_tree(*a) == (match r {
            ArgumentsNode::Absent => raw::RawArgumentsView::Absent,
            ArgumentsNode::Subquery => raw::RawArgumentsView::Subquery,
            ArgumentsNode::List { clauses, distinct, args } => raw::RawArgumentsView::List {
                clauses,
                distinct,
                args: arg_trees(args@),
            },
        }),
{
    match a {
        sp::FunctionArguments::None => ArgumentsNode::Absent,
        sp::FunctionArguments::Subquery(_) => ArgumentsNode::Subquery,
        sp::FunctionArguments::List(l) => ArgumentsNode::List {
            clauses: l.clauses.len(),
            distinct: matches!(l.duplicate_treatment, Some(sp::DuplicateTreatment::Distinct)),
            args: &l.args,
        },
    }
}

fn read_arguments(a: &sp::FunctionArguments) -> (r: raw::RawArguments)
    ensures
        r@ == arguments_tree(*a),
    decreases arguments_tree(*a),
{
    match arguments_node(a) {
        ArgumentsNode::Absent => raw::RawArguments::Absent,
        ArgumentsNode::Subquery => raw::RawArguments::Subquery,
        ArgumentsNode::List { clauses, distinct, args } => {
            assert(arguments_tree(*a)->args == arg_trees(args@));
            let r = raw::RawArguments::List { clauses, distinct, args: read_args(args) };
            assert(r@->args =~= arg_trees(args@));
            r
        },
    }
}

/// The fields of a function call.
struct FunctionNode<'a> {
    name: &'a sp::ObjectName,
    over: bool,
    filter: bool,
    within_group: usize,
    null_treatment: bool,
    parametric: bool,
    args: &'a sp::FunctionArguments,
}

/// The fields of `Function`: of optional ones whether they are there, of
/// `within_group` how many, and of `parameters` whether there are any.
#[verifier::external_body]
fn function_node<'a>(f: &'a sp::Function) -> (r: FunctionNode<'a>)
    ensures
        function_tree(*f) == (raw::RawFunctionView {
            name: name_tree(*r.name),
            over: r.over,
            filter: r.filter,
            within_group: r.within_group,
            null_treatment: r.null_treatment,
            parametric: r.parametric,
            args: arguments_tree(*r.args),
        }),
{
    FunctionNode {
        name: &f.name,
        over: f.over.is_some(),
        filter: f.filter.is_some(),
        within_group: f.within_group.len(),
        null_treatment: f.null_treatment.is_some(),
        parametric: !matches!(f.parameters, sp::FunctionArguments::None),
        args: &f.args,
    }
}

fn read_function(f: &sp::Function) -> (r: raw::RawFunction)
    ensures
        r@ == function_tree(*f),
    decreases function_tree(*f),
{
    let n = function_node(f);
    assert(function_tree(*f).args == arguments_tree(*n.args));
    raw::RawFunction {
        name: read_name(n.name),
        over: n.over,
        filter: n.filter,
        within_group: n.within_group,
        null_treatment: n.null_treatment,
        parametric: n.parametric,
        args: read_arguments(n.args),
    }
}

/// Identifiers, in order.
pub open spec fn ident_texts(v: Seq<sqlparser::ast::Ident>) -> Seq<Seq<char>> {
    Seq::new(v.len(), |i: int| ident_text(v[i]))
}

fn read_idents(v: &Vec<sp::Ident>) -> (r: Vec<String>)
    ensures
        r@.len() == v@.len(),
        forall|i: int| 0 <= i < v@.len() ==> (#[trigger] r@[i])@ == ident_text(v@[i]),
{
    let mut r: Vec<String> = Vec::with_capacity(v.len());
    let mut i: usize = 0;
    while i < v.len()
        invariant
            i <= v@.len(),
            r@.len() == i,
            forall|j: int| 0 <= j < i ==> (#[trigger] r@[j])@ == ident_text(v@[j]),
        decreases v@.len() - i,
    {
        r.push(ident_value(&v[i]));
        i = i + 1;
    }
    r
}

/// Expressions of one part.
enum SimpleNode<'a> {
    Identifier(&'a sp::Ident),
    Compound(&'a Vec<sp::Ident>),
    Value(&'a sp::Value),
    IsNull(&'a sp::Expr),
    IsNotNull(&'a sp::Expr),
    Function(&'a sp::Function),
    Nested(&'a sp::Expr),
}

/// `Expr` by those of its variants that have one part. A compound identifier
/// is described by its parts and by what `Debug` writes for them.
#[verifier::external_body]
fn simple_node<'a>(e: &'a sp::Expr) -> (r: Option<SimpleNode<'a>>)
    ensures
        match r {
            Some(SimpleNode::Identifier(i)) => expr_tree(*e) == raw::RawExprView::Identifier(
                ident_text(*i),
            ),
            Some(SimpleNode::Compound(v)) => expr_tree(*e)
                == raw::RawExprView::CompoundIdentifier {
                parts: ident_texts(v@),
                debug: idents_debug(v@),
            },
            Some(SimpleNode::Value(v)) => expr_tree(*e) == raw::RawExprView::Value(value_tree(*v)),
            Some(SimpleNode::IsNull(x)) => expr_tree(*e) == raw::RawExprView::IsNull(
                Box::new(expr_tree(*x)),
            ),
            Some(SimpleNode::IsNotNull(x)) => expr_tree(*e) == raw::RawExprView::IsNotNull(
                Box::new(expr_tree(*x)),
            ),
            Some(SimpleNode::Function(f)) => expr_tree(*e) == raw::RawExprView::Function(
                function_tree(*f),
            ),
            Some(SimpleNode::Nested(x)) => expr_tree(*e) == raw::RawExprView::Nested(
                Box::new(expr_tree(*x)),
            ),
            None => !is_simple(expr_tree(*e)),
        },
{
    match e {
        sp::Expr::Identifier(i) => Some(SimpleNode::Identifier(i)),
        sp::Expr::CompoundIdentifier(v) => Some(SimpleNode::Compound(v)),
        sp::Expr::Value(v) => Some(SimpleNode::Value(&v.value)),
        sp::Expr::IsNull(x) => Some(SimpleNode::IsNull(x)),
        sp::Expr::IsNotNull(x) => Some(SimpleNode::IsNotNull(x)),
        sp::Expr::Function(f) => Some(SimpleNode::Function(f)),
        sp::Expr::Nested(x) => Some(SimpleNode::Nested(x)),
        _ => None,
    }
}

/// Expressions of one part.
pub open spec fn is_simple(t: raw::RawExprView) -> bool {
    t is Identifier || t is CompoundIdentifier || t is Value || t is IsNull || t is IsNotNull
        || t is Function || t is Nested
}

/// What `Debug` writes for identifiers.
pub uninterp spec fn idents_debug(v: Seq<sqlparser::ast::Ident>) -> Seq<char>;

/// What `Debug` writes for identifiers.
#[verifier::external_body]
fn idents_debug_text(v: &Vec<sp::Ident>) -> (s: String)
    ensures
        s@ == idents_debug(v@),
{
    format!("{:?}", v)
}

/// Expressions with an operator.
enum OperatorNode<'a> {
    Binary(&'a sp::Expr, String, &'a sp::Expr),
    Unary(String, &'a sp::Expr),
    InList(&'a sp::Expr, &'a Vec<sp::Expr>, bool),
    Between(&'a sp::Expr, &'a sp::Expr, &'a sp::Expr, bool),
}

/// `Expr` by those of its variants that have an operator. Operators are kept as
/// `Debug` writes them.
#[verifier::external_body]
fn operator_node<'a>(e: &'a sp::Expr) -> (r: Option<OperatorNode<'a>>)
    ensures
        match r {
            Some(OperatorNode::Binary(a, op, b)) => expr_tree(*e) == raw::RawExprView::BinaryOp {
                left: Box::new(expr_tree(*a)),
                op: op@,
                right: Box::new(expr_tree(*b)),
            },
            Some(OperatorNode::Unary(op, a)) => expr_tree(*e) == raw::RawExprView::UnaryOp {
                op: op@,
                expr: Box::new(expr_tree(*a)),
            },
            Some(OperatorNode::InList(a, list, negated)) => expr_tree(*e)
                == raw::RawExprView::InList {
                expr: Box::new(expr_tree(*a)),
                list: expr_trees(list@),
                negated,
            },
            Some(OperatorNode::Between(a, b, c, negated)) => expr_tree(*e)
                == raw::RawExprView::Between {
                expr: Box::new(expr_tree(*a)),
                low: Box::new(expr_tree(*b)),
                high: Box::new(expr_tree(*c)),
                negated,
            },
            None => !has_operator(expr_tree(*e)),
        },
{
    match e {
        sp::Expr::BinaryOp { left, op, right } => {
            Some(OperatorNode::Binary(left, format!("{:?}", op), right))
        },
        sp::Expr::UnaryOp { op, expr } => Some(OperatorNode::Unary(format!("{:?}", op), expr)),
        sp::Expr::InList { expr, list, negated } => {
            Some(OperatorNode::InList(expr, list, *negated))
        },
        sp::Expr::Between { expr, low, high, negated } => {
            Some(OperatorNode::Between(expr, low, high, *negated))
        },
        _ => None,
    }
}

/// Expressions with an operator.
pub open spec fn has_operator(t: raw::RawExprView) -> bool {
    t is BinaryOp || t is UnaryOp || t is InList || t is Between
}

/// The parts of `LIKE` and `ILIKE`.
struct LikeNode<'a> {
    expr: &'a sp::Expr,
    pattern: &'a sp::Expr,
    negated: bool,
    any: bool,
    escape: bool,
    case_insensitive: bool,
}

/// `Expr` by its variants `Like` and `ILike`; of the escape character whether
/// there is one.
#[verifier::external_body]
fn like_node<'a>(e: &'a sp::Expr) -> (r: Option<LikeNode<'a>>)
    ensures
        match r {
            Some(n) => expr_tree(*e) == raw::RawExprView::Like {
                expr: Box::new(expr_tree(*n.expr)),
                pattern: Box::new(expr_tree(*n.pattern)),
                negated: n.negated,
                any: n.any,
                escape: n.escape,
                case_insensitive: n.case_insensitive,
            },
            None => !(expr_tree(*e) is Like),
        },
{
    let (x, p, n, a, c, i) = match e {
        sp::Expr::Like { expr, pattern, negated, any, escape_char } => {
            (expr, pattern, negated, any, escape_char, false)
        },
        sp::Expr::ILike { expr, pattern, negated, any, escape_char } => {
            (expr, pattern, negated, any, escape_char, true)
        },
        _ => return None,
    };
    let (negated, any, escape) = (*n, *a, c.is_some());
    Some(LikeNode { expr: x, pattern: p, negated, any, escape, case_insensitive: i })
}

/// What `Debug` writes for an expression that is none of the above.
#[verifier::external_body]
fn expr_debug_text(e: &sp::Expr) -> (s: String)
    ensures
        expr_tree(*e) is Other ==> expr_tree(*e) == raw::RawExprView::Other(s@),
{
    format!("{:?}", e)
}

/// Reads an expression.
#[verifier::rlimit(40)]
pub fn read_expr(e: &sp::Expr) -> (r: raw::RawExpr)
    ensures
        r@ == expr_tree(*e),
    decreases expr_tree(*e),
{
    if let Some(node) = simple_node(e) {
        return match node {
            SimpleNode::Identifier(i) => raw::RawExpr::Identifier(ident_value(i)),
            SimpleNode::Compound(v) => {
                let r = raw::RawExpr::CompoundIdentifier {
                    parts: read_idents(v),
                    debug: idents_debug_text(v),
                };
                assert(r@->parts =~= ident_texts(v@));
                r
            },
            SimpleNode::Value(v) => raw::RawExpr::Value(read_value(v)),
            SimpleNode::IsNull(x) => {
                assert(*expr_tree(*e)->IsNull_0 == expr_tree(*x));
                raw::RawExpr::IsNull(Box::new(read_expr(x)))
            },
            SimpleNode::IsNotNull(x) => {
                assert(*expr_tree(*e)->IsNotNull_0 == expr_tree(*x));
                raw::RawExpr::IsNotNull(Box::new(read_expr(x)))
            },
            SimpleNode::Function(f) => {
                assert(expr_tree(*e)->Function_0 == function_tree(*f));
                raw::RawExpr::Function(read_function(f))
            },
            SimpleNode::Nested(x) => {
                assert(*expr_tree(*e)->Nested_0 == expr_tree(*x));
                raw::RawExpr::Nested(Box::new(read_expr(x)))
            },
        };
    }
    if let Some(node) = operator_node(e) {
        return match node {
            OperatorNode::Binary(a, op, b) => {
                assert(*expr_tree(*e)->left == expr_tree(*a));
                assert(*expr_tree(*e)->right == expr_tree(*b));
                raw::RawExpr::BinaryOp {
                    left: Box::new(read_expr(a)),
                    op,
                    right: Box::new(read_expr(b)),
                }
            },
            OperatorNode::Unary(op, a) => {
                assert(*expr_tree(*e)->UnaryOp_expr == expr_tree(*a));
                raw::RawExpr::UnaryOp { op, expr: Box::new(read_expr(a)) }
            },
            OperatorNode::InList(a, list, negated) => {
                assert(*expr_tree(*e)->InList_expr == expr_tree(*a));
                assert(expr_tree(*e)->list == expr_trees(list@));
                let r = raw::RawExpr::InList {
                    expr: Box::new(read_expr(a)),
                    list: read_exprs(list),
                    negated,
                };
                assert(r@->list =~= expr_trees(list@));
                r
            },
            OperatorNode::Between(a, b, c, negated) => {
                assert(*expr_tree(*e)->Between_expr == expr_tree(*a));
                assert(*expr_tree(*e)->low == expr_tree(*b));
                assert(*expr_tree(*e)->high == expr_tree(*c));
                raw::RawExpr::Between {
                    expr: Box::new(read_expr(a)),
                    low: Box::new(read_expr(b)),
                    high: Box::new(read_expr(c)),
                    negated,
                }
            },
        };
    }
    if let Some(n) = like_node(e) {
        assert(*expr_tree(*e)->Like_expr == expr_tree(*n.expr));
        assert(*expr_tree(*e)->pattern == expr_tree(*n.pattern));
        return raw::RawExpr::Like {
            expr: Box::new(read_expr(n.expr)),
            pattern: Box::new(read_expr(n.pattern)),
            negated: n.negated,
            any: n.any,
            escape: n.escape,
            case_insensitive: n.case_insensitive,
        };
    }
    raw::RawExpr::Other(expr_debug_text(e))
}

/// What some values hold.
pub open spec fn expr_trees(v: Seq<sqlparser::ast::Expr>) -> Seq<raw::RawExprView> {
    Seq::new(v.len(), |i: int| expr_tree(v[i]))
}

/// Reads some values.
fn read_exprs(v: &Vec<sp::Expr>) -> (r: Vec<raw::RawExpr>)
    ensures
        r@.len() == v@.len(),
        forall|i: int| 0 <= i < v@.len() ==> (#[trigger] r@[i])@ == expr_tree(v@[i]),
    decreases expr_trees(v@),
{
    let mut r: Vec<raw::RawExpr> = Vec::with_capacity(v.len());
    let mut i: usize = 0;
    while i < v.len()
        invariant
            i <= v@.len(),
            r@.len() == i,
            forall|j: int| 0 <= j < i ==> (#[trigger] r@[j])@ == expr_tree(v@[j]),
        decreases v@.len() - i,
    {
        assert(expr_trees(v@)[i as int] == expr_tree(v@[i as int]));
        r.push(read_expr(&v[i]));
        i = i + 1;
    }
    r
}

/// `TableAlias` by its name and the number of its columns.
#[verifier::external_body]
fn read_alias(a: &sp::TableAlias) -> (r: raw::RawAlias)
    ensures
        r@ == alias_tree(*a),
{
    raw::RawAlias { name: a.name.value.clone(), columns: a.columns.len() }
}

/// The tables of queries, by kind.
enum FactorNode<'a> {
    Table { name: &'a sp::ObjectName, alias: Option<&'a sp::TableAlias>, args: bool },
    Other(String),
}

/// `TableFactor` by its variants: a table, with its name, its alias and whether
/// it has arguments, or anything else as `Display` writes it.
#[verifier::external_body]
fn factor_node<'a>(f: &'a sp::TableFactor) -> (r: FactorNode<'a>)
    ensures
        factor_tree(*f) == (match r {
            FactorNode::Table { name, alias, args } => raw::RawFactorView::Table {
                name: name_tree(*name),
                alias: match alias {
                    Some(a) => Some(alias_tree(*a)),
                    None => None,
                },
                args,
            },
            FactorNode::Other(s) => raw::RawFactorView::Other(s@),
        }),
{
    match f {
        sp::TableFactor::Table { name, alias, args, .. } => {
            FactorNode::Table { name, alias: alias.as_ref(), args: args.is_some() }
        },
        other => FactorNode::Other(other.to_string()),
    }
}

fn read_factor(f: &sp::TableFactor) -> (r: raw::RawFactor)
    ensures
        r@ == factor_tree(*f),
{
    match factor_node(f) {
        FactorNode::Table { name, alias, args } => {
            let alias = match alias {
                Some(a) => Some(read_alias(a)),
                None => None,
            };
            raw::RawFactor::Table { name: read_name(name), alias, args }
        },
        FactorNode::Other(s) => raw::RawFactor::Other(s),
    }
}

/// Join conditions, by kind.
enum ConstraintNode<'a> {
    On(&'a sp::Expr),
    Using,
    Natural,
    Absent,
}

/// `JoinConstraint` by its variants.
#[verifier::external_body]
fn constraint_node<'a>(c: &'a sp::JoinConstraint) -> (r: ConstraintNode<'a>)
    ensures
        constraint_tree(*c) == (match r {
            ConstraintNode::On(e) => raw::RawConstraintView::On(expr_tree(*e)),
            ConstraintNode::Using => raw::RawConstraintView::Using,
            ConstraintNode::Natural => raw::RawConstraintView::Natural,
            ConstraintNode::Absent => raw::RawConstraintView::Absent,
        }),
{
    match c {
        sp::JoinConstraint::On(e) => ConstraintNode::On(e),
        sp::JoinConstraint::Using(_) => ConstraintNode::Using,
        sp::JoinConstraint::Natural => ConstraintNode::Natural,
        sp::JoinConstraint::None => ConstraintNode::Absent,
    }
}

fn read_constraint(c: &sp::JoinConstraint) -> (r: raw::RawConstraint)
    ensures
        r@ == constraint_tree(*c),
{
    match constraint_node(c) {
        ConstraintNode::On(e) => raw::RawConstraint::On(read_expr(e)),
        ConstraintNode::Using => raw::RawConstraint::Using,
        ConstraintNode::Natural => raw::RawConstraint::Natural,
        ConstraintNode::Absent => raw::RawConstraint::Absent,
    }
}

/// Join operators, by kind.
enum JoinNode<'a> {
    Join(&'a sp::JoinConstraint),
    Inner(&'a sp::JoinConstraint),
    Left(&'a sp::JoinConstraint),
    LeftOuter(&'a sp::JoinConstraint),
    Right(&'a sp::JoinConstraint),
    RightOuter(&'a sp::JoinConstraint),
    FullOuter(&'a sp::JoinConstraint),
    CrossJoin(&'a sp::JoinConstraint),
    Other(String),
}

/// `JoinOperator` by its variants; those that are not named here as `Debug`
/// writes them.
#[verifier::external_body]
fn join_node<'a>(o: &'a sp::JoinOperator) -> (r: JoinNode<'a>)
    ensures
        operator_tree(*o) == (match r {
            JoinNode::Join(c) => raw::RawJoinOperatorView::Join(constraint_tree(*c)),
            JoinNode::Inner(c) => raw::RawJoinOperatorView::Inner(constraint_tree(*c)),
            JoinNode::Left(c) => raw::RawJoinOperatorView::Left(constraint_tree(*c)),
            JoinNode::LeftOuter(c) => raw::RawJoinOperatorView::LeftOuter(constraint_tree(*c)),
            JoinNode::Right(c) => raw::RawJoinOperatorView::Right(constraint_tree(*c)),
            JoinNode::RightOuter(c) => raw::RawJoinOperatorView::RightOuter(constraint_tree(*c)),
            JoinNode::FullOuter(c) => raw::RawJoinOperatorView::FullOuter(constraint_tree(*c)),
            JoinNode::CrossJoin(c) => raw::RawJoinOperatorView::CrossJoin(constraint_tree(*c)),
            JoinNode::Other(s) => raw::RawJoinOperatorView::Other(s@),
        }),
{
    match o {
        sp::JoinOperator::Join(c) => JoinNode::Join(c),
        sp::JoinOperator::Inner(c) => JoinNode::Inner(c),
        sp::JoinOperator::Left(c) => JoinNode::Left(c),
        sp::JoinOperator::LeftOuter(c) => JoinNode::LeftOuter(c),
        sp::JoinOperator::Right(c) => JoinNode::Right(c),
        sp::JoinOperator::RightOuter(c) => JoinNode::RightOuter(c),
        sp::JoinOperator::FullOuter(c) => JoinNode::FullOuter(c),
        sp::JoinOperator::CrossJoin(c) => JoinNode::CrossJoin(c),
        other => JoinNode::Other(format!("{:?}", other)),
    }
}

fn read_operator(o: &sp::JoinOperator) -> (r: raw::RawJoinOperator)
    ensures
        r@ == operator_tree(*o),
{
    match join_node(o) {
        JoinNode::Join(c) => raw::RawJoinOperator::Join(read_constraint(c)),
        JoinNode::Inner(c) => raw::RawJoinOperator::Inner(read_constraint(c)),
        JoinNode::Left(c) => raw::RawJoinOperator::Left(read_constraint(c)),
        JoinNode::LeftOuter(c) => raw::RawJoinOperator::LeftOuter(read_constraint(c)),
        JoinNode::Right(c) => raw::RawJoinOperator::Right(read_constraint(c)),
        JoinNode::RightOuter(c) => raw::RawJoinOperator::RightOuter(read_constraint(c)),
        JoinNode::FullOuter(c) => raw::RawJoinOperator::FullOuter(read_constraint(c)),
        JoinNode::CrossJoin(c) => raw::RawJoinOperator::CrossJoin(read_constraint(c)),
        JoinNode::Other(s) => raw::RawJoinOperator::Other(s),
    }
}

/// The fields of `Join` that matter here: the table and the operator.
#[verifier::external_body]
fn join_fields<'a>(j: &'a sp::Join) -> (r: (&'a sp::TableFactor, &'a sp::JoinOperator))
    ensures
        join_tree(*j) == (raw::RawJoinView {
            relation: factor_tree(*r.0),
            operator: operator_tree(*r.1),
        }),
{
    (&j.relation, &j.join_operator)
}

fn read_join(j: &sp::Join) -> (r: raw::RawJoin)
    ensures
        r@ == join_tree(*j),
{
    let (relation, operator) = join_fields(j);
    raw::RawJoin { relation: read_factor(relation), operator: read_operator(operator) }
}

/// What some values hold.
pub open spec fn join_trees(v: Seq<sqlparser::ast::Join>) -> Seq<raw::RawJoinView> {
    Seq::new(v.len(), |i: int| join_tree(v[i]))
}

/// Reads some values.
fn read_joins(v: &Vec<sp::Join>) -> (r: Vec<raw::RawJoin>)
    ensures
        r@.len() == v@.len(),
        forall|i: int| 0 <= i < v@.len() ==> (#[trigger] r@[i])@ == join_tree(v@[i]),
{
    let mut r: Vec<raw::RawJoin> = Vec::with_capacity(v.len());
    let mut i: usize = 0;
    while i < v.len()
        invariant
            i <= v@.len(),
            r@.len() == i,
            forall|j: int| 0 <= j < i ==> (#[trigger] r@[j])@ == join_tree(v@[j]),
        decreases v@.len() - i,
    {
        r.push(read_join(&v[i]));
        i = i + 1;
    }
    r
}

/// The fields of `TableWithJoins`.
#[verifier::external_body]
fn table_fields<'a>(t: &'a sp::TableWithJoins) -> (r: (&'a sp::TableFactor, &'a Vec<sp::Join>))
    ensures
        table_tree(*t) == (raw::RawTableView {
            relation: factor_tree(*r.0),
            joins: join_trees(r.1@),
        }),
{
    (&t.relation, &t.joins)
}

fn read_table(t: &sp::TableWithJoins) -> (r: raw::RawTable)
    ensures
        r@ == table_tree(*t),
{
    let (relation, joins) = table_fields(t);
    let r = raw::RawTable { relation: read_factor(relation), joins: read_joins(joins) };
    assert(r@.joins =~= join_trees(joins@));
    r
}

/// What some values hold.
pub open spec fn table_trees(v: Seq<sqlparser::ast::TableWithJoins>) -> Seq<raw::RawTableView> {
    Seq::new(v.len(), |i: int| table_tree(v[i]))
}

/// Reads some values.
fn read_tables(v: &Vec<sp::TableWithJoins>) -> (r: Vec<raw::RawTable>)
    ensures
        r@.len() == v@.len(),
        forall|i: int| 0 <= i < v@.len() ==> (#[trigger] r@[i])@ == table_tree(v@[i]),
{
    let mut r: Vec<raw::RawTable> = Vec::with_capacity(v.len());
    let mut i: usize = 0;
    while i < v.len()
        invariant
            i <= v@.len(),
            r@.len() == i,
            forall|j: int| 0 <= j < i ==> (#[trigger] r@[j])@ == table_tree(v@[j]),
        decreases v@.len() - i,
    {
        r.push(read_table(&v[i]));
        i = i + 1;
    }
    r
}

/// Items of projections, by kind.
enum ItemNode<'a> {
    Wildcard,
    Unnamed(&'a sp::Expr),
    Alias(&'a sp::Expr, &'a sp::Ident),
    Aliases(&'a sp::Expr, &'a Vec<sp::Ident>),
    Qualified(&'a sp::ObjectName),
    Other(String),
}

/// `SelectItem` by its variants; a wildcard that is qualified by anything but a
/// name as `Debug` writes what qualifies it.
#[verifier::external_body]
fn item_node<'a>(i: &'a sp::SelectItem) -> (r: ItemNode<'a>)
    ensures
        item_tree(*i) == (match r {
            ItemNode::Wildcard => raw::RawSelectItemView::Wildcard,
            ItemNode::Unnamed(e) => raw::RawSelectItemView::UnnamedExpr(expr_tree(*e)),
            ItemNode::Alias(e, a) => raw::RawSelectItemView::ExprWithAlias {
                expr: expr_tree(*e),
                alias: ident_text(*a),
            },
            ItemNode::Aliases(e, v) => raw::RawSelectItemView::ExprWithAliases {
                expr: expr_tree(*e),
                aliases: ident_texts(v@),
            },
            ItemNode::Qualified(n) => raw::RawSelectItemView::QualifiedWildcard(name_tree(*n)),
            ItemNode::Other(s) => raw::RawSelectItemView::QualifiedOther(s@),
        }),
{
    match i {
        sp::SelectItem::Wildcard(_) => ItemNode::Wildcard,
        sp::SelectItem::UnnamedExpr(e) => ItemNode::Unnamed(e),
        sp::SelectItem::ExprWithAlias { expr, alias } => ItemNode::Alias(expr, alias),
        sp::SelectItem::ExprWithAliases { expr, aliases } => ItemNode::Aliases(expr, aliases),
        sp::SelectItem::QualifiedWildcard(kind, _) => match kind {
            sp::SelectItemQualifiedWildcardKind::ObjectName(n) => ItemNode::Qualified(n),
            other => ItemNode::Other(format!("{:?}", other)),
        },
    }
}

fn read_item(i: &sp::SelectItem) -> (r: raw::RawSelectItem)
    ensures
        r@ == item_tree(*i),
{
    match item_node(i) {
        ItemNode::Wildcard => raw::RawSelectItem::Wildcard,
        ItemNode::Unnamed(e) => raw::RawSelectItem::UnnamedExpr(read_expr(e)),
        ItemNode::Alias(e, a) => raw::RawSelectItem::ExprWithAlias {
            expr: read_expr(e),
            alias: ident_value(a),
        },
        ItemNode::Aliases(e, v) => {
            let r = raw::RawSelectItem::ExprWithAliases {
                expr: read_expr(e),
                aliases: read_idents(v),
            };
            assert(r@->aliases =~= ident_texts(v@));
            r
        },
        ItemNode::Qualified(n) => raw::RawSelectItem::QualifiedWildcard(read_name(n)),
        ItemNode::Other(s) => raw::RawSelectItem::QualifiedOther(s),
    }
}

/// What some values hold.
pub open spec fn item_trees(v: Seq<sqlparser::ast::SelectItem>) -> Seq<raw::RawSelectItemView> {
    Seq::new(v.len(), |i: int| item_tree(v[i]))
}

/// Reads some values.
fn read_items(v: &Vec<sp::SelectItem>) -> (r: Vec<raw::RawSelectItem>)
    ensures
        r@.len() == v@.len(),
        forall|i: int| 0 <= i < v@.len() ==> (#[trigger] r@[i])@ == item_tree(v@[i]),
{
    let mut r: Vec<raw::RawSelectItem> = Vec::with_capacity(v.len());
    let mut i: usize = 0;
    while i < v.len()
        invariant
            i <= v@.len(),
            r@.len() == i,
            forall|j: int| 0 <= j < i ==> (#[trigger] r@[j])@ == item_tree(v@[j]),
        decreases v@.len() - i,
    {
        r.push(read_item(&v[i]));
        i = i + 1;
    }
    r
}

/// `Distinct` by its variants; `DISTINCT ON` as `Display` writes it.
#[verifier::external_body]
fn read_distinct(d: &sp::Distinct) -> (r: raw::RawDistinct)
    ensures
        r@ == distinct_tree(*d),
{
    match d {
        sp::Distinct::All => raw::RawDistinct::All,
        sp::Distinct::Distinct => raw::RawDistinct::Distinct,
        other => raw::RawDistinct::Other(other.to_string()),
    }
}

/// Groupings, by kind.
enum GroupNode<'a> {
    All,
    Expressions(&'a Vec<sp::Expr>, usize),
}

/// `GroupByExpr` by its variants; of the modifiers how many there are.
#[verifier::external_body]
fn group_node<'a>(g: &'a sp::GroupByExpr) -> (r: GroupNode<'a>)
    ensures
        group_tree(*g) == (match r {
            GroupNode::All => raw::RawGroupByView::All,
            GroupNode::Expressions(v, n) => raw::RawGroupByView::Expressions {
                exprs: expr_trees(v@),
                modifiers: n,
            },
        }),
{
    match g {
        sp::GroupByExpr::All(_) => GroupNode::All,
        sp::GroupByExpr::Expressions(v, m) => GroupNode::Expressions(v, m.len()),
    }
}

fn read_group(g: &sp::GroupByExpr) -> (r: raw::RawGroupBy)
    ensures
        r@ == group_tree(*g),
{
    match group_node(g) {
        GroupNode::All => raw::RawGroupBy::All,
        GroupNode::Expressions(v, modifiers) => {
            let r = raw::RawGroupBy::Expressions { exprs: read_exprs(v), modifiers };
            assert(r@->exprs =~= expr_trees(v@));
            r
        },
    }
}

/// What optional expressions hold.
pub open spec fn opt_expr_tree(e: Option<&sqlparser::ast::Expr>) -> Option<raw::RawExprView> {
    match e {
        Some(x) => Some(expr_tree(*x)),
        None => None,
    }
}

fn read_opt_expr(e: Option<&sp::Expr>) -> (r: Option<raw::RawExpr>)
    ensures
        match r {
            Some(x) => opt_expr_tree(e) == Some(x@),
            None => opt_expr_tree(e) is None,
        },
{
    match e {
        Some(x) => Some(read_expr(x)),
        None => None,
    }
}

/// The clauses of `Select` that are not supported: of optional ones whether
/// they are there, of lists how long they are.
#[verifier::external_body]
fn select_flags(s: &sp::Select) -> (r: raw::RawSelectFlags)
    ensures
        r@ == select_tree(*s).flags,
{
    raw::RawSelectFlags {
        top: s.top.is_some(),
        into: s.into.is_some(),
        lateral_views: s.lateral_views.len(),
        prewhere: s.prewhere.is_some(),
        connect_by: s.connect_by.len(),
        cluster_by: s.cluster_by.len(),
        distribute_by: s.distribute_by.len(),
        sort_by: s.sort_by.len(),
        named_window: s.named_window.len(),
        qualify: s.qualify.is_some(),
        exclude: s.exclude.is_some(),
    }
}

/// The other fields of `Select`.
struct SelectNode<'a> {
    distinct: Option<&'a sp::Distinct>,
    from: &'a Vec<sp::TableWithJoins>,
    projection: &'a Vec<sp::SelectItem>,
    selection: Option<&'a sp::Expr>,
    group_by: &'a sp::GroupByExpr,
    having: Option<&'a sp::Expr>,
}

/// The fields of `Select` that are converted.
#[verifier::external_body]
fn select_node<'a>(s: &'a sp::Select) -> (r: SelectNode<'a>)
    ensures
        select_tree(*s) == (raw::RawSelectView {
            flags: select_tree(*s).flags,
            distinct: match r.distinct {
                Some(d) => distinct_tree(*d),
                None => raw::RawDistinctView::Absent,
            },
            from: table_trees(r.from@),
            projection: item_trees(r.projection@),
            selection: opt_expr_tree(r.selection),
            group_by: group_tree(*r.group_by),
            having: opt_expr_tree(r.having),
        }),
{
    SelectNode {
        distinct: s.distinct.as_ref(),
        from: &s.from,
        projection: &s.projection,
        selection: s.selection.as_ref(),
        group_by: &s.group_by,
        having: s.having.as_ref(),
    }
}

fn read_select(s: &sp::Select) -> (r: raw::RawSelect)
    ensures
        r@ == select_tree(*s),
{
    let n = select_node(s);
    let distinct = match n.distinct {
        Some(d) => read_distinct(d),
        None => raw::RawDistinct::Absent,
    };
    let r = raw::RawSelect {
        flags: select_flags(s),
        distinct,
        from: read_tables(n.from),
        projection: read_items(n.projection),
        selection: read_opt_expr(n.selection),
        group_by: read_group(n.group_by),
        having: read_opt_expr(n.having),
    };
    assert(r@.from =~= table_trees(n.from@));
    assert(r@.projection =~= item_trees(n.projection@));
    r
}

/// `OrderBySort` by its variants; `USING` as `Debug` writes it.
#[verifier::external_body]
fn read_sort(s: &sp::OrderBySort) -> (r: raw::RawSort)
    ensures
        r@ == sort_tree(*s),
{
    match s {
        sp::OrderBySort::Asc => raw::RawSort::Asc,
        sp::OrderBySort::Desc => raw::RawSort::Desc,
        other => raw::RawSort::Other(format!("{:?}", other)),
    }
}

/// The fields of a key of an ordering.
struct KeyNode<'a> {
    expr: &'a sp::Expr,
    sort: Option<&'a sp::OrderBySort>,
    nulls_first: Option<bool>,
    with_fill: bool,
}

/// The fields of `OrderByExpr`; of `WITH FILL` whether it is there.
#[verifier::external_body]
fn key_node<'a>(k: &'a sp::OrderByExpr) -> (r: KeyNode<'a>)
    ensures
        key_tree(*k) == (raw::RawOrderByExprView {
            expr: expr_tree(*r.expr),
            sort: match r.sort {
                Some(s) => sort_tree(*s),
                None => raw::RawSortView::Absent,
            },
            nulls_first: r.nulls_first,
            with_fill: r.with_fill,
        }),
{
    KeyNode {
        expr: &k.expr,
        sort: k.options.sort.as_ref(),
        nulls_first: k.options.nulls_first,
        with_fill: k.with_fill.is_some(),
    }
}

fn read_key(k: &sp::OrderByExpr) -> (r: raw::RawOrderByExpr)
    ensures
        r@ == key_tree(*k),
{
    let n = key_node(k);
    let sort = match n.sort {
        Some(s) => read_sort(s),
        None => raw::RawSort::Absent,
    };
    let r = raw::RawOrderByExpr {
        expr: read_expr(n.expr),
        sort,
        nulls_first: n.nulls_first,
        with_fill: n.with_fill,
    };
    assert(r@.nulls_first == n.nulls_first);
    r
}

/// What some values hold.
pub open spec fn key_trees(v: Seq<sqlparser::ast::OrderByExpr>) -> Seq<raw::RawOrderByExprView> {
    Seq::new(v.len(), |i: int| key_tree(v[i]))
}

/// Reads some values.
fn read_keys(v: &Vec<sp::OrderByExpr>) -> (r: Vec<raw::RawOrderByExpr>)
    ensures
        r@.len() == v@.len(),
        forall|i: int| 0 <= i < v@.len() ==> (#[trigger] r@[i])@ == key_tree(v@[i]),
{
    let mut r: Vec<raw::RawOrderByExpr> = Vec::with_capacity(v.len());
    let mut i: usize = 0;
    while i < v.len()
        invariant
            i <= v@.len(),
            r@.len() == i,
            forall|j: int| 0 <= j < i ==> (#[trigger] r@[j])@ == key_tree(v@[j]),
        decreases v@.len() - i,
    {
        r.push(read_key(&v[i]));
        i = i + 1;
    }
    r
}

/// `OrderBy`: its keys, or none where it is `ORDER BY ALL`, and whether it has
/// `INTERPOLATE`.
#[verifier::external_body]
fn order_node<'a>(o: &'a sp::OrderBy) -> (r: (Option<&'a Vec<sp::OrderByExpr>>, bool))
    ensures
        order_tree(*o) == (raw::RawOrderView {
            kind: match r.0 {
                Some(v) => raw::RawOrderByView::Expressions(key_trees(v@)),
                None => raw::RawOrderByView::All,
            },
            interpolate: r.1,
        }),
{
    let keys = match &o.kind {
        sp::OrderByKind::Expressions(v) => Some(v),
        sp::OrderByKind::All(_) => None,
    };
    (keys, o.interpolate.is_some())
}

fn read_order(o: &sp::OrderBy) -> (r: raw::RawOrder)
    ensures
        r@ == order_tree(*o),
{
    let (keys, interpolate) = order_node(o);
    match keys {
        Some(v) => {
            let r = raw::RawOrder {
                kind: raw::RawOrderBy::Expressions(read_keys(v)),
                interpolate,
            };
            assert(r@.kind->Expressions_0 =~= key_trees(v@));
            r
        },
        None => raw::RawOrder { kind: raw::RawOrderBy::All, interpolate },
    }
}

/// An `Expr` for a number of rows: the number as it is written, if it is one,
/// and the expression as `Display` writes it.
#[verifier::external_body]
fn read_count(e: &sp::Expr) -> (r: raw::RawCount)
    ensures
        r@ == count_tree(*e),
{
    let number = match e {
        sp::Expr::Value(v) => match &v.value {
            sp::Value::Number(s, _) => Some(s.to_string()),
            _ => None,
        },
        _ => None,
    };
    raw::RawCount { number, text: e.to_string() }
}

/// What optional numbers of rows hold.
pub open spec fn opt_count_tree(e: Option<&sqlparser::ast::Expr>) -> Option<raw::RawCountView> {
    match e {
        Some(x) => Some(count_tree(*x)),
        None => None,
    }
}

fn read_opt_count(e: Option<&sp::Expr>) -> (r: Option<raw::RawCount>)
    ensures
        match r {
            Some(x) => opt_count_tree(e) == Some(x@),
            None => opt_count_tree(e) is None,
        },
{
    match e {
        Some(x) => Some(read_count(x)),
        None => None,
    }
}

/// Limits, by kind.
enum LimitNode<'a> {
    LimitOffset { limit: Option<&'a sp::Expr>, offset: Option<&'a sp::Expr>, limit_by: usize },
    OffsetCommaLimit { offset: &'a sp::Expr, limit: &'a sp::Expr },
}

/// `LimitClause` by its variants; of `LIMIT BY` how many expressions it has.
#[verifier::external_body]
fn limit_node<'a>(l: &'a sp::LimitClause) -> (r: LimitNode<'a>)
    ensures
        limit_tree(*l) == (match r {
            LimitNode::LimitOffset { limit, offset, limit_by } => raw::RawLimitView::LimitOffset {
                limit: opt_count_tree(limit),
                offset: opt_count_tree(offset),
                limit_by,
            },
            LimitNode::OffsetCommaLimit { offset, limit } => raw::RawLimitView::OffsetCommaLimit {
                offset: count_tree(*offset),
                limit: count_tree(*limit),
            },
        }),
{
    match l {
        sp::LimitClause::LimitOffset { limit, offset, limit_by } => LimitNode::LimitOffset {
            limit: limit.as_ref(),
            offset: offset.as_ref().map(|o| &o.value),
            limit_by: limit_by.len(),
        },
        sp::LimitClause::OffsetCommaLimit { offset, limit } => {
            LimitNode::OffsetCommaLimit { offset, limit }
        },
    }
}

fn read_limit(l: &sp::LimitClause) -> (r: raw::RawLimit)
    ensures
        r@ == limit_tree(*l),
{
    match limit_node(l) {
        LimitNode::LimitOffset { limit, offset, limit_by } => raw::RawLimit::LimitOffset {
            limit: read_opt_count(limit),
            offset: read_opt_count(offset),
            limit_by,
        },
        LimitNode::OffsetCommaLimit { offset, limit } => raw::RawLimit::OffsetCommaLimit {
            offset: read_count(offset),
            limit: read_count(limit),
        },
    }
}

/// `Values::rows`: how many rows there are.
#[verifier::external_body]
fn row_count(v: &sp::Values) -> (n: usize)
    ensures
        n == rows_tree(*v).len(),
{
    v.rows.len()
}

/// `Values::rows`: the expressions of a row.
#[verifier::external_body]
fn row<'a>(v: &'a sp::Values, i: usize) -> (r: &'a Vec<sp::Expr>)
    requires
        i < rows_tree(*v).len(),
    ensures
        expr_trees(r@) == rows_tree(*v)[i as int],
{
    &v.rows[i].content
}

fn read_rows(v: &sp::Values) -> (r: Vec<Vec<raw::RawExpr>>)
    ensures
        r@.len() == rows_tree(*v).len(),
        forall|i: int|
            0 <= i < r@.len() ==> (#[trigger] r@[i])@.len() == rows_tree(*v)[i].len()
                && forall|j: int|
                0 <= j < r@[i]@.len() ==> (#[trigger] r@[i]@[j])@ == rows_tree(*v)[i][j],
{
    let n: usize = row_count(v);
    let mut r: Vec<Vec<raw::RawExpr>> = Vec::with_capacity(n);
    let mut i: usize = 0;
    while i < n
        invariant
            i <= n,
            n == rows_tree(*v).len(),
            r@.len() == i,
            forall|i: int|
                0 <= i < r@.len() ==> (#[trigger] r@[i])@.len() == rows_tree(*v)[i].len()
                    && forall|j: int|
                    0 <= j < r@[i]@.len() ==> (#[trigger] r@[i]@[j])@ == rows_tree(*v)[i][j],
        decreases n - i,
    {
        let exprs = row(v, i);
        let read = read_exprs(exprs);
        assert forall|j: int| 0 <= j < read@.len() implies (#[trigger] read@[j])@ == rows_tree(
            *v,
        )[i as int][j] by {
            assert(expr_trees(exprs@)[j] == expr_tree(exprs@[j]));
        }
        r.push(read);
        i = i + 1;
    }
    r
}

/// Bodies of queries, by kind.
enum BodyNode<'a> {
    Select(&'a sp::Select),
    Values(&'a sp::Values),
    Other,
}

/// `SetExpr` by its variants: `SELECT`, `VALUES` or anything else; with it comes
/// the body as `Display` writes it.
#[verifier::external_body]
fn body_node<'a>(b: &'a sp::SetExpr) -> (r: (BodyNode<'a>, String))
    ensures
        body_tree(*b) == (match r.0 {
            BodyNode::Select(s) => raw::RawBodyView::Select(select_tree(*s)),
            BodyNode::Values(v) => raw::RawBodyView::Values { rows: rows_tree(*v), text: r.1@ },
            BodyNode::Other => raw::RawBodyView::Other(r.1@),
        }),
{
    let node = match b {
        sp::SetExpr::Select(s) => BodyNode::Select(s),
        sp::SetExpr::Values(v) => BodyNode::Values(v),
        _ => BodyNode::Other,
    };
    (node, b.to_string())
}

fn read_body(b: &sp::SetExpr) -> (r: raw::RawBody)
    ensures
        r@ == body_tree(*b),
{
    let (node, text) = body_node(b);
    match node {
        BodyNode::Select(s) => raw::RawBody::Select(read_select(s)),
        BodyNode::Values(v) => {
            let r = raw::RawBody::Values { rows: read_rows(v), text };
            assert(r@->rows =~~= rows_tree(*v));
            r
        },
        BodyNode::Other => raw::RawBody::Other(text),
    }
}

/// The fields of a query.
struct QueryNode<'a> {
    with: bool,
    fetch: bool,
    locks: usize,
    for_clause: bool,
    pipe_operators: usize,
    body: &'a sp::SetExpr,
    order_by: Option<&'a sp::OrderBy>,
    limit: Option<&'a sp::LimitClause>,
}

/// The fields of `Query`: of those that are not supported whether they are
/// there, or how many there are.
#[verifier::external_body]
fn query_node<'a>(q: &'a sp::Query) -> (r: QueryNode<'a>)
    ensures
        query_tree(*q) == (raw::RawQueryView {
            with: r.with,
            fetch: r.fetch,
            locks: r.locks,
            for_clause: r.for_clause,
            pipe_operators: r.pipe_operators,
            body: body_tree(*r.body),
            order_by: match r.order_by {
                Some(o) => Some(order_tree(*o)),
                None => None,
            },
            limit: match r.limit {
                Some(l) => limit_tree(*l),
                None => raw::RawLimitView::Absent,
            },
        }),
{
    QueryNode {
        with: q.with.is_some(),
        fetch: q.fetch.is_some(),
        locks: q.locks.len(),
        for_clause: q.for_clause.is_some(),
        pipe_operators: q.pipe_operators.len(),
        body: &q.body,
        order_by: q.order_by.as_ref(),
        limit: q.limit_clause.as_ref(),
    }
}

fn read_query(q: &sp::Query) -> (r: raw::RawQuery)
    ensures
        r@ == query_tree(*q),
{
    let n = query_node(q);
    let order_by = match n.order_by {
        Some(o) => Some(read_order(o)),
        None => None,
    };
    let limit = match n.limit {
        Some(l) => read_limit(l),
        None => raw::RawLimit::Absent,
    };
    raw::RawQuery {
        with: n.with,
        fetch: n.fetch,
        locks: n.locks,
        for_clause: n.for_clause,
        pipe_operators: n.pipe_operators,
        body: read_body(n.body),
        order_by,
        limit,
    }
}

/// Targets of `INSERT`, by kind.
enum ObjectNode<'a> {
    Name(&'a sp::ObjectName),
    Function,
    Query,
}

/// `TableObject` by its variants.
#[verifier::external_body]
fn object_node<'a>(t: &'a sp::TableObject) -> (r: ObjectNode<'a>)
    ensures
        object_tree(*t) == (match r {
            ObjectNode::Name(n) => raw::RawTableObjectView::Name(name_tree(*n)),
            ObjectNode::Function => raw::RawTableObjectView::Function,
            ObjectNode::Query => raw::RawTableObjectView::Query,
        }),
{
    match t {
        sp::TableObject::TableName(n) => ObjectNode::Name(n),
        sp::TableObject::TableFunction(_) => ObjectNode::Function,
        sp::TableObject::TableQuery(_) => ObjectNode::Query,
    }
}

fn read_object(t: &sp::TableObject) -> (r: raw::RawTableObject)
    ensures
        r@ == object_tree(*t),
{
    match object_node(t) {
        ObjectNode::Name(n) => raw::RawTableObject::Name(read_name(n)),
        ObjectNode::Function => raw::RawTableObject::Function,
        ObjectNode::Query => raw::RawTableObject::Query,
    }
}

/// The clauses of `Insert` that are not supported: whether they are there, and
/// of the assignments how many.
#[verifier::external_body]
fn insert_flags(i: &sp::Insert) -> (r: raw::RawInsertFlags)
    ensures
        r@ == insert_tree(*i).flags,
{
    raw::RawInsertFlags {
        or: i.or.is_some(),
        ignore: i.ignore,
        overwrite: i.overwrite,
        replace_into: i.replace_into,
        on: i.on.is_some(),
        returning: i.returning.is_some(),
        output: i.output.is_some(),
        partitioned: i.partitioned.is_some(),
        assignments: i.assignments.len(),
        table_alias: i.table_alias.is_some(),
    }
}

/// The other fields of `Insert`.
struct InsertNode<'a> {
    table: &'a sp::TableObject,
    columns: &'a Vec<sp::ObjectName>,
    source: Option<&'a sp::Query>,
}

/// The fields of `Insert` that are converted.
#[verifier::external_body]
fn insert_node<'a>(i: &'a sp::Insert) -> (r: InsertNode<'a>)
    ensures
        insert_tree(*i) == (raw::RawInsertView {
            flags: insert_tree(*i).flags,
            table: object_tree(*r.table),
            columns: name_trees(r.columns@),
            source: match r.source {
                Some(q) => Some(query_tree(*q)),
                None => None,
            },
        }),
{
    InsertNode { table: &i.table, columns: &i.columns, source: i.source.as_deref() }
}

fn read_insert(i: &sp::Insert) -> (r: raw::RawInsert)
    ensures
        r@ == insert_tree(*i),
{
    let n = insert_node(i);
    let source = match n.source {
        Some(q) => Some(read_query(q)),
        None => None,
    };
    let r = raw::RawInsert {
        flags: insert_flags(i),
        table: read_object(n.table),
        columns: read_names(n.columns),
        source,
    };
    assert(r@.columns =~= name_trees(n.columns@));
    r
}

/// `AssignmentTarget` by its variants: a column, or none for a tuple.
#[verifier::external_body]
fn target_node<'a>(t: &'a sp::AssignmentTarget) -> (r: Option<&'a sp::ObjectName>)
    ensures
        target_tree(*t) == (match r {
            Some(n) => raw::RawTargetView::Column(name_tree(*n)),
            None => raw::RawTargetView::Tuple,
        }),
{
    match t {
        sp::AssignmentTarget::ColumnName(n) => Some(n),
        sp::AssignmentTarget::Tuple(_) => None,
    }
}

/// The fields of `Assignment`.
#[verifier::external_body]
fn assignment_fields<'a>(a: &'a sp::Assignment) -> (r: (&'a sp::AssignmentTarget, &'a sp::Expr))
    ensures
        assignment_tree(*a) == (raw::RawAssignmentView {
            target: target_tree(*r.0),
            value: expr_tree(*r.1),
        }),
{
    (&a.target, &a.value)
}

fn read_assignment(a: &sp::Assignment) -> (r: raw::RawAssignment)
    ensures
        r@ == assignment_tree(*a),
{
    let (target, value) = assignment_fields(a);
    let target = match target_node(target) {
        Some(n) => raw::RawTarget::Column(read_name(n)),
        None => raw::RawTarget::Tuple,
    };
    raw::RawAssignment { target, value: read_expr(value) }
}

/// What some values hold.
pub open spec fn assignment_trees(v: Seq<sqlparser::ast::Assignment>) -> Seq<raw::RawAssignmentView> {
    Seq::new(v.len(), |i: int| assignment_tree(v[i]))
}

/// Reads some values.
fn read_assignments(v: &Vec<sp::Assignment>) -> (r: Vec<raw::RawAssignment>)
    ensures
        r@.len() == v@.len(),
        forall|i: int| 0 <= i < v@.len() ==> (#[trigger] r@[i])@ == assignment_tree(v@[i]),
{
    let mut r: Vec<raw::RawAssignment> = Vec::with_capacity(v.len());
    let mut i: usize = 0;
    while i < v.len()
        invariant
            i <= v@.len(),
            r@.len() == i,
            forall|j: int| 0 <= j < i ==> (#[trigger] r@[j])@ == assignment_tree(v@[j]),
        decreases v@.len() - i,
    {
        r.push(read_assignment(&v[i]));
        i = i + 1;
    }
    r
}

/// The clauses of `Update` that are not supported.
#[verifier::external_body]
fn update_flags(u: &sp::Update) -> (r: raw::RawUpdateFlags)
    ensures
        r@ == update_tree(*u).flags,
{
    raw::RawUpdateFlags {
        from: u.from.is_some(),
        returning: u.returning.is_some(),
        output: u.output.is_some(),
        or: u.or.is_some(),
        order_by: u.order_by.len(),
        limit: u.limit.is_some(),
    }
}

/// The other fields of `Update`.
struct UpdateNode<'a> {
    table: &'a sp::TableWithJoins,
    assignments: &'a Vec<sp::Assignment>,
    selection: Option<&'a sp::Expr>,
}

/// The fields of `Update` that are converted.
#[verifier::external_body]
fn update_node<'a>(u: &'a sp::Update) -> (r: UpdateNode<'a>)
    ensures
        update_tree(*u) == (raw::RawUpdateView {
            flags: update_tree(*u).flags,
            table: table_tree(*r.table),
            assignments: assignment_trees(r.assignments@),
            selection: opt_expr_tree(r.selection),
        }),
{
    UpdateNode { table: &u.table, assignments: &u.assignments, selection: u.selection.as_ref() }
}

fn read_update(u: &sp::Update) -> (r: raw::RawUpdate)
    ensures
        r@ == update_tree(*u),
{
    let n = update_node(u);
    let r = raw::RawUpdate {
        flags: update_flags(u),
        table: read_table(n.table),
        assignments: read_assignments(n.assignments),
        selection: read_opt_expr(n.selection),
    };
    assert(r@.assignments =~= assignment_trees(n.assignments@));
    r
}

/// The clauses of `Delete` that are not supported.
#[verifier::external_body]
fn delete_flags(d: &sp::Delete) -> (r: raw::RawDeleteFlags)
    ensures
        r@ == delete_tree(*d).flags,
{
    raw::RawDeleteFlags {
        tables: d.tables.len(),
        using: d.using.is_some(),
        returning: d.returning.is_some(),
        output: d.output.is_some(),
        order_by: d.order_by.len(),
        limit: d.limit.is_some(),
    }
}

/// The other fields of `Delete`; its tables are the same with and without
/// `FROM`.
#[verifier::external_body]
fn delete_node<'a>(d: &'a sp::Delete) -> (r: (&'a Vec<sp::TableWithJoins>, Option<&'a sp::Expr>))
    ensures
        delete_tree(*d) == (raw::RawDeleteView {
            flags: delete_tree(*d).flags,
            from: table_trees(r.0@),
            selection: opt_expr_tree(r.1),
        }),
{
    let tables = match &d.from {
        sp::FromTable::WithFromKeyword(v) => v,
        sp::FromTable::WithoutKeyword(v) => v,
    };
    (tables, d.selection.as_ref())
}

fn read_delete(d: &sp::Delete) -> (r: raw::RawDelete)
    ensures
        r@ == delete_tree(*d),
{
    let (tables, selection) = delete_node(d);
    let r = raw::RawDelete {
        flags: delete_flags(d),
        from: read_tables(tables),
        selection: read_opt_expr(selection),
    };
    assert(r@.from =~= table_trees(tables@));
    r
}

/// Column options, by kind.
enum OptionNode<'a> {
    Null,
    NotNull,
    Unique,
    PrimaryKey,
    Default(&'a sp::Expr),
    Comment,
    Other(String),
}

/// `ColumnOptionDef::option` by its variants; those that are not named here as
/// `Display` writes them.
#[verifier::external_body]
fn option_node<'a>(o: &'a sp::ColumnOptionDef) -> (r: OptionNode<'a>)
    ensures
        option_tree(*o) == (match r {
            OptionNode::Null => raw::RawColumnOptionView::Null,
            OptionNode::NotNull => raw::RawColumnOptionView::NotNull,
            OptionNode::Unique => raw::RawColumnOptionView::Unique,
            OptionNode::PrimaryKey => raw::RawColumnOptionView::PrimaryKey,
            OptionNode::Default(e) => raw::RawColumnOptionView::Default(expr_tree(*e)),
            OptionNode::Comment => raw::RawColumnOptionView::Comment,
            OptionNode::Other(s) => raw::RawColumnOptionView::Other(s@),
        }),
{
    match &o.option {
        sp::ColumnOption::Null => OptionNode::Null,
        sp::ColumnOption::NotNull => OptionNode::NotNull,
        sp::ColumnOption::Unique(..) => OptionNode::Unique,
        sp::ColumnOption::PrimaryKey(..) => OptionNode::PrimaryKey,
        sp::ColumnOption::Default(e) => OptionNode::Default(e),
        sp::ColumnOption::Comment(_) => OptionNode::Comment,
        other => OptionNode::Other(other.to_string()),
    }
}

fn read_option(o: &sp::ColumnOptionDef) -> (r: raw::RawColumnOption)
    ensures
        r@ == option_tree(*o),
{
    match option_node(o) {
        OptionNode::Null => raw::RawColumnOption::Null,
        OptionNode::NotNull => raw::RawColumnOption::NotNull,
        OptionNode::Unique => raw::RawColumnOption::Unique,
        OptionNode::PrimaryKey => raw::RawColumnOption::PrimaryKey,
        OptionNode::Default(e) => raw::RawColumnOption::Default(read_expr(e)),
        OptionNode::Comment => raw::RawColumnOption::Comment,
        OptionNode::Other(s) => raw::RawColumnOption::Other(s),
    }
}

/// What some values hold.
pub open spec fn option_trees(v: Seq<sqlparser::ast::ColumnOptionDef>) -> Seq<raw::RawColumnOptionView> {
    Seq::new(v.len(), |i: int| option_tree(v[i]))
}

/// Reads some values.
fn read_options(v: &Vec<sp::ColumnOptionDef>) -> (r: Vec<raw::RawColumnOption>)
    ensures
        r@.len() == v@.len(),
        forall|i: int| 0 <= i < v@.len() ==> (#[trigger] r@[i])@ == option_tree(v@[i]),
{
    let mut r: Vec<raw::RawColumnOption> = Vec::with_capacity(v.len());
    let mut i: usize = 0;
    while i < v.len()
        invariant
            i <= v@.len(),
            r@.len() == i,
            forall|j: int| 0 <= j < i ==> (#[trigger] r@[j])@ == option_tree(v@[j]),
        decreases v@.len() - i,
    {
        r.push(read_option(&v[i]));
        i = i + 1;
    }
    r
}

/// The fields of `ColumnDef`. The type is kept as `Debug` writes it, which
/// starts with the name of the variant of `DataType`.
#[verifier::external_body]
fn column_fields<'a>(c: &'a sp::ColumnDef) -> (r: (
    &'a sp::Ident,
    String,
    &'a Vec<sp::ColumnOptionDef>,
))
    ensures
        column_tree(*c) == (raw::RawColumnDefView {
            name: ident_text(*r.0),
            data_type: r.1@,
            options: option_trees(r.2@),
        }),
{
    (&c.name, format!("{:?}", c.data_type), &c.options)
}

fn read_column(c: &sp::ColumnDef) -> (r: raw::RawColumnDef)
    ensures
        r@ == column_tree(*c),
{
    let (name, data_type, options) = column_fields(c);
    let r = raw::RawColumnDef {
        name: ident_value(name),
        data_type,
        options: read_options(options),
    };
    assert(r@.options =~= option_trees(options@));
    r
}

/// What some values hold.
pub open spec fn column_trees(v: Seq<sqlparser::ast::ColumnDef>) -> Seq<raw::RawColumnDefView> {
    Seq::new(v.len(), |i: int| column_tree(v[i]))
}

/// Reads some values.
fn read_columns(v: &Vec<sp::ColumnDef>) -> (r: Vec<raw::RawColumnDef>)
    ensures
        r@.len() == v@.len(),
        forall|i: int| 0 <= i < v@.len() ==> (#[trigger] r@[i])@ == column_tree(v@[i]),
{
    let mut r: Vec<raw::RawColumnDef> = Vec::with_capacity(v.len());
    let mut i: usize = 0;
    while i < v.len()
        invariant
            i <= v@.len(),
            r@.len() == i,
            forall|j: int| 0 <= j < i ==> (#[trigger] r@[j])@ == column_tree(v@[j]),
        decreases v@.len() - i,
    {
        r.push(read_column(&v[i]));
        i = i + 1;
    }
    r
}

/// `IndexColumn::column`: the identifier, if the column is one, and the column
/// as `Display` writes it.
#[verifier::external_body]
fn read_index_column(c: &sp::IndexColumn) -> (r: raw::RawIndexColumn)
    ensures
        r@ == index_column_tree(*c),
{
    let ident = match &c.column.expr {
        sp::Expr::Identifier(i) => Some(i.value.clone()),
        _ => None,
    };
    raw::RawIndexColumn { ident, text: c.column.expr.to_string() }
}

/// What some values hold.
pub open spec fn index_column_trees(v: Seq<sqlparser::ast::IndexColumn>) -> Seq<raw::RawIndexColumnView> {
    Seq::new(v.len(), |i: int| index_column_tree(v[i]))
}

/// Reads some values.
fn read_index_columns(v: &Vec<sp::IndexColumn>) -> (r: Vec<raw::RawIndexColumn>)
    ensures
        r@.len() == v@.len(),
        forall|i: int| 0 <= i < v@.len() ==> (#[trigger] r@[i])@ == index_column_tree(v@[i]),
{
    let mut r: Vec<raw::RawIndexColumn> = Vec::with_capacity(v.len());
    let mut i: usize = 0;
    while i < v.len()
        invariant
            i <= v@.len(),
            r@.len() == i,
            forall|j: int| 0 <= j < i ==> (#[trigger] r@[j])@ == index_column_tree(v@[j]),
        decreases v@.len() - i,
    {
        r.push(read_index_column(&v[i]));
        i = i + 1;
    }
    r
}

/// Table constraints, by kind.
enum TableConstraintNode<'a> {
    PrimaryKey(&'a Vec<sp::IndexColumn>),
    Unique(&'a Vec<sp::IndexColumn>),
    Other(String),
}

/// `TableConstraint` by its variants; those that are not named here as
/// `Display` writes them.
#[verifier::external_body]
fn table_constraint_node<'a>(c: &'a sp::TableConstraint) -> (r: TableConstraintNode<'a>)
    ensures
        table_constraint_tree(*c) == (match r {
            TableConstraintNode::PrimaryKey(v) => raw::RawTableConstraintView::PrimaryKey(
                index_column_trees(v@),
            ),
            TableConstraintNode::Unique(v) => raw::RawTableConstraintView::Unique(
                index_column_trees(v@),
            ),
            TableConstraintNode::Other(s) => raw::RawTableConstraintView::Other(s@),
        }),
{
    match c {
        sp::TableConstraint::PrimaryKey(k) => TableConstraintNode::PrimaryKey(&k.columns),
        sp::TableConstraint::Unique(u) => TableConstraintNode::Unique(&u.columns),
        other => TableConstraintNode::Other(other.to_string()),
    }
}

fn read_table_constraint(c: &sp::TableConstraint) -> (r: raw::RawTableConstraint)
    ensures
        r@ == table_constraint_tree(*c),
{
    match table_constraint_node(c) {
        TableConstraintNode::PrimaryKey(v) => {
            let r = raw::RawTableConstraint::PrimaryKey(read_index_columns(v));
            assert(r@->PrimaryKey_0 =~= index_column_trees(v@));
            r
        },
        TableConstraintNode::Unique(v) => {
            let r = raw::RawTableConstraint::Unique(read_index_columns(v));
            assert(r@->Unique_0 =~= index_column_trees(v@));
            r
        },
        TableConstraintNode::Other(s) => raw::RawTableConstraint::Other(s),
    }
}

/// What some values hold.
pub open spec fn table_constraint_trees(v: Seq<sqlparser::ast::TableConstraint>) -> Seq<raw::RawTableConstraintView> {
    Seq::new(v.len(), |i: int| table_constraint_tree(v[i]))
}

/// Reads some values.
fn read_table_constraints(v: &Vec<sp::TableConstraint>) -> (r: Vec<raw::RawTableConstraint>)
    ensures
        r@.len() == v@.len(),
        forall|i: int| 0 <= i < v@.len() ==> (#[trigger] r@[i])@ == table_constraint_tree(v@[i]),
{
    let mut r: Vec<raw::RawTableConstraint> = Vec::with_capacity(v.len());
    let mut i: usize = 0;
    while i < v.len()
        invariant
            i <= v@.len(),
            r@.len() == i,
            forall|j: int| 0 <= j < i ==> (#[trigger] r@[j])@ == table_constraint_tree(v@[j]),
        decreases v@.len() - i,
    {
        r.push(read_table_constraint(&v[i]));
        i = i + 1;
    }
    r
}

/// The fields of `CREATE TABLE` that matter here.
struct CreateNode<'a> {
    query: bool,
    like: bool,
    clone_of: bool,
    or_replace: bool,
    temporary: bool,
    if_not_exists: bool,
    name: &'a sp::ObjectName,
    columns: &'a Vec<sp::ColumnDef>,
    constraints: &'a Vec<sp::TableConstraint>,
}

/// The fields of `CreateTable` that matter here; of optional ones whether they
/// are there.
#[verifier::external_body]
fn create_node<'a>(c: &'a sp::CreateTable) -> (r: CreateNode<'a>)
    ensures
        create_tree(*c) == (raw::RawCreateTableView {
            query: r.query,
            like: r.like,
            clone_of: r.clone_of,
            or_replace: r.or_replace,
            temporary: r.temporary,
            if_not_exists: r.if_not_exists,
            name: name_tree(*r.name),
            columns: column_trees(r.columns@),
            constraints: table_constraint_trees(r.constraints@),
        }),
{
    CreateNode {
        query: c.query.is_some(),
        like: c.like.is_some(),
        clone_of: c.clone.is_some(),
        or_replace: c.or_replace,
        temporary: c.temporary,
        if_not_exists: c.if_not_exists,
        name: &c.name,
        columns: &c.columns,
        constraints: &c.constraints,
    }
}

fn read_create(c: &sp::CreateTable) -> (r: raw::RawCreateTable)
    ensures
        r@ == create_tree(*c),
{
    let n = create_node(c);
    let r = raw::RawCreateTable {
        query: n.query,
        like: n.like,
        clone_of: n.clone_of,
        or_replace: n.or_replace,
        temporary: n.temporary,
        if_not_exists: n.if_not_exists,
        name: read_name(n.name),
        columns: read_columns(n.columns),
        constraints: read_table_constraints(n.constraints),
    };
    assert(r@.columns =~= column_trees(n.columns@));
    assert(r@.constraints =~= table_constraint_trees(n.constraints@));
    r
}

/// Statements with parts.
enum StatementNode<'a> {
    CreateTable(&'a sp::CreateTable),
    Drop(String, &'a Vec<sp::ObjectName>, bool),
    Query(&'a sp::Query),
    Insert(&'a sp::Insert),
    Update(&'a sp::Update),
    Delete(&'a sp::Delete),
}

/// `Statement` by those of its variants that have parts. What is dropped is
/// kept as `Debug` writes it.
#[verifier::external_body]
fn statement_node<'a>(s: &'a sp::Statement) -> (r: Option<StatementNode<'a>>)
    ensures
        match r {
            Some(StatementNode::CreateTable(c)) => statement_tree(*s)
                == raw::RawStatementView::CreateTable(create_tree(*c)),
            Some(StatementNode::Drop(t, v, b)) => statement_tree(*s)
                == raw::RawStatementView::Drop {
                object_type: t@,
                names: name_trees(v@),
                if_exists: b,
            },
            Some(StatementNode::Query(q)) => statement_tree(*s) == raw::RawStatementView::Query(
                query_tree(*q),
            ),
            Some(StatementNode::Insert(i)) => statement_tree(*s) == raw::RawStatementView::Insert(
                insert_tree(*i),
            ),
            Some(StatementNode::Update(u)) => statement_tree(*s) == raw::RawStatementView::Update(
                update_tree(*u),
            ),
            Some(StatementNode::Delete(d)) => statement_tree(*s) == raw::RawStatementView::Delete(
                delete_tree(*d),
            ),
            None => !has_parts(statement_tree(*s)),
        },
{
    match s {
        sp::Statement::CreateTable(c) => Some(StatementNode::CreateTable(c)),
        sp::Statement::Drop { object_type, names, if_exists, .. } => {
            Some(StatementNode::Drop(format!("{:?}", object_type), names, *if_exists))
        },
        sp::Statement::Query(q) => Some(StatementNode::Query(q)),
        sp::Statement::Insert(i) => Some(StatementNode::Insert(i)),
        sp::Statement::Update(u) => Some(StatementNode::Update(u)),
        sp::Statement::Delete(d) => Some(StatementNode::Delete(d)),
        _ => None,
    }
}

/// Statements with parts.
pub open spec fn has_parts(t: raw::RawStatementView) -> bool {
    t is CreateTable || t is Drop || t is Query || t is Insert || t is Update || t is Delete
}

/// Commands.
enum CommandNode<'a> {
    StartTransaction,
    Commit,
    Rollback,
    ShowTables,
    ExplainTable(&'a sp::ObjectName),
    Other(String),
}

/// `Statement` by its other variants; those that are not named here as `Debug`
/// writes them.
#[verifier::external_body]
fn command_node<'a>(s: &'a sp::Statement) -> (r: CommandNode<'a>)
    ensures
        !has_parts(statement_tree(*s)) ==> statement_tree(*s) == (match r {
            CommandNode::StartTransaction => raw::RawStatementView::StartTransaction,
            CommandNode::Commit => raw::RawStatementView::Commit,
            CommandNode::Rollback => raw::RawStatementView::Rollback,
            CommandNode::ShowTables => raw::RawStatementView::ShowTables,
            CommandNode::ExplainTable(n) => raw::RawStatementView::ExplainTable(name_tree(*n)),
            CommandNode::Other(t) => raw::RawStatementView::Other(t@),
        }),
{
    match s {
        sp::Statement::StartTransaction { .. } => CommandNode::StartTransaction,
        sp::Statement::Commit { .. } => CommandNode::Commit,
        sp::Statement::Rollback { .. } => CommandNode::Rollback,
        sp::Statement::ShowTables { .. } => CommandNode::ShowTables,
        sp::Statement::ExplainTable { table_name, .. } => CommandNode::ExplainTable(table_name),
        other => CommandNode::Other(format!("{:?}", other)),
    }
}

/// Reads a statement.
pub fn read_statement(s: &sp::Statement) -> (r: raw::RawStatement)
    ensures
        r@ == statement_tree(*s),
{
    if let Some(node) = statement_node(s) {
        return match node {
            StatementNode::CreateTable(c) => raw::RawStatement::CreateTable(read_create(c)),
            StatementNode::Drop(object_type, names, if_exists) => {
                let r = raw::RawStatement::Drop {
                    object_type,
                    names: read_names(names),
                    if_exists,
                };
                assert(r@->names =~= name_trees(names@));
                r
            },
            StatementNode::Query(q) => raw::RawStatement::Query(read_query(q)),
            StatementNode::Insert(i) => raw::RawStatement::Insert(read_insert(i)),
            StatementNode::Update(u) => raw::RawStatement::Update(read_update(u)),
            StatementNode::Delete(d) => raw::RawStatement::Delete(read_delete(d)),
        };
    }
    match command_node(s) {
        CommandNode::StartTransaction => raw::RawStatement::StartTransaction,
        CommandNode::Commit => raw::RawStatement::Commit,
        CommandNode::Rollback => raw::RawStatement::Rollback,
        CommandNode::ShowTables => raw::RawStatement::ShowTables,
        CommandNode::ExplainTable(n) => raw::RawStatement::ExplainTable(read_name(n)),
        CommandNode::Other(t) => raw::RawStatement::Other(t),
    }
}

/// What some values hold.
pub open spec fn statement_trees(v: Seq<sqlparser::ast::Statement>) -> Seq<raw::RawStatementView> {
    Seq::new(v.len(), |i: int| statement_tree(v[i]))
}

/// Reads some values.
fn read_statements(v: &Vec<sp::Statement>) -> (r: Vec<raw::RawStatement>)
    ensures
        r@.len() == v@.len(),
        forall|i: int| 0 <= i < v@.len() ==> (#[trigger] r@[i])@ == statement_tree(v@[i]),
{
    let mut r: Vec<raw::RawStatement> = Vec::with_capacity(v.len());
    let mut i: usize = 0;
    while i < v.len()
        invariant
            i <= v@.len(),
            r@.len() == i,
            forall|j: int| 0 <= j < i ==> (#[trigger] r@[j])@ == statement_tree(v@[j]),
        decreases v@.len() - i,
    {
        r.push(read_statement(&v[i]));
        i = i + 1;
    }
    r
}

/// What the parser makes of a text: what its statements hold, or the message
/// of the error.
pub uninterp spec fn parsed(sql: Seq<char>) -> Result<Seq<raw::RawStatementView>, Seq<char>>;

/// `Parser::parse_sql` with the generic dialect: the statements of a text, or an
/// error. The outcome depends on the text alone.
#[verifier::external_body]
fn parse_sql(sql: &str) -> (r: Result<Vec<sp::Statement>, sqlparser::parser::ParserError>)
    ensures
        match r {
            Ok(v) => parsed(sql@) == Ok::<_, Seq<char>>(statement_trees(v@)),
            Err(e) => parsed(sql@) == Err::<Seq<raw::RawStatementView>, _>(error_text(e)),
        },
{
    sqlparser::parser::Parser::parse_sql(&sqlparser::dialect::GenericDialect {}, sql)
}

/// Parses a text.
pub fn read_sql(sql: &str) -> (r: Result<
    Vec<raw::RawStatement>,
    sqlparser::parser::ParserError,
>)
    ensures
        match r {
            Ok(v) => parsed(sql@) == Ok::<_, Seq<char>>(statement_views(v@)),
            Err(e) => parsed(sql@) == Err::<Seq<raw::RawStatementView>, _>(error_text(e)),
        },
{
    match parse_sql(sql) {
        Ok(v) => {
            let r = read_statements(&v);
            assert(statement_views(r@) =~= statement_trees(v@));
            Ok(r)
        },
        Err(e) => Err(e),
    }
}

/// The views of statements.
pub open spec fn statement_views(v: Seq<raw::RawStatement>) -> Seq<raw::RawStatementView> {
    Seq::new(v.len(), |i: int| v[i]@)
}

} // verus!
