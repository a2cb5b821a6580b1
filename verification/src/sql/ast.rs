//! Statements and expressions.

use super::expression_laws;
use super::text;
use vstd::prelude::*;
use vstd::string::*;

verus! {

/// The type of a column.
#[derive(Clone, Copy, Debug, PartialEq, Eq, Structural)]
pub enum SqlDataType {
    Text,
    Integer,
    Float,
    Boolean,
    Json,
    Timestamp,
    Uuid,
}

/// How a table is joined.
#[derive(Clone, Copy, Debug, PartialEq, Eq, Structural)]
pub enum JoinType {
    Inner,
    Left,
    Right,
    Full,
    Cross,
}

/// An operator between two operands.
#[derive(Clone, Copy, Debug, PartialEq, Eq, Hash, Structural)]
pub enum BinaryOperator {
    Eq,
    NotEq,
    Lt,
    LtEq,
    Gt,
    GtEq,
    And,
    Or,
    Plus,
    Minus,
    Multiply,
    Divide,
    Modulo,
    Concat,
}

/// An operator before its operand.
#[derive(Clone, Copy, Debug, PartialEq, Eq, Hash, Structural)]
pub enum UnaryOperator {
    Not,
    Minus,
    Plus,
}

/// A literal.
#[derive(Clone, Debug, PartialEq)]
pub enum LiteralValue {
    Null,
    Boolean(bool),
    Integer(i64),
    /// The text of a floating point number.
    Float(String),
    String(String),
}

/// The arguments of a function.
#[derive(Debug, PartialEq)]
pub enum FunctionArgs {
    /// `*`
    Star,
    List {
        args: Vec<Expr>,
        distinct: bool,
    },
}

/// An expression.
#[derive(Debug, PartialEq)]
pub enum Expr {
    Column {
        table: Option<String>,
        name: String,
    },
    Literal(LiteralValue),
    BinaryOp {
        left: Box<Expr>,
        op: BinaryOperator,
        right: Box<Expr>,
    },
    UnaryOp {
        op: UnaryOperator,
        expr: Box<Expr>,
    },
    IsNull {
        expr: Box<Expr>,
        negated: bool,
    },
    InList {
        expr: Box<Expr>,
        list: Vec<Expr>,
        negated: bool,
    },
    Between {
        expr: Box<Expr>,
        low: Box<Expr>,
        high: Box<Expr>,
        negated: bool,
    },
    Like {
        expr: Box<Expr>,
        pattern: String,
        negated: bool,
        case_insensitive: bool,
    },
    Function {
        name: String,
        args: FunctionArgs,
    },
    Nested(Box<Expr>),
}

/// A constraint on a column.
#[derive(Clone, Debug, PartialEq)]
pub enum ColumnConstraint {
    NotNull,
    Unique,
    PrimaryKey,
    Default(Expr),
}

/// A column of a new table.
#[derive(Clone, Debug, PartialEq)]
pub struct ColumnDef {
    pub name: String,
    pub data_type: SqlDataType,
    pub constraints: Vec<ColumnConstraint>,
}

/// `CREATE TABLE`.
#[derive(Clone, Debug, PartialEq)]
pub struct CreateTable {
    pub name: String,
    pub columns: Vec<ColumnDef>,
    pub primary_key: Vec<String>,
    pub unique_keys: Vec<Vec<String>>,
    pub if_not_exists: bool,
}

/// `DROP TABLE`.
#[derive(Clone, Debug, PartialEq)]
pub struct DropTable {
    pub name: String,
    pub if_exists: bool,
}

/// A table that is joined.
#[derive(Clone, Debug, PartialEq)]
pub struct Join {
    pub table: String,
    pub alias: Option<String>,
    pub join_type: JoinType,
    pub on: Option<Expr>,
}

/// The tables of a query.
#[derive(Clone, Debug, PartialEq)]
pub struct TableRef {
    pub base: String,
    pub base_alias: Option<String>,
    pub joins: Vec<Join>,
}

/// A column of a result.
#[derive(Clone, Debug, PartialEq)]
pub enum SelectColumn {
    Wildcard,
    /// `table.*`
    QualifiedWildcard(String),
    Column {
        table: Option<String>,
        name: String,
    },
    Expr {
        expr: Expr,
        alias: Option<String>,
    },
}

/// A key that a result is ordered by.
#[derive(Clone, Debug, PartialEq)]
pub struct OrderBy {
    pub expr: Expr,
    pub ascending: bool,
    pub nulls_first: Option<bool>,
}

/// `SELECT`.
#[derive(Clone, Debug, PartialEq)]
pub struct Select {
    pub distinct: bool,
    pub columns: Vec<SelectColumn>,
    pub from: TableRef,
    pub where_clause: Option<Expr>,
    pub group_by: Vec<Expr>,
    pub having: Option<Expr>,
    pub order_by: Vec<OrderBy>,
    pub limit: Option<usize>,
    pub offset: Option<usize>,
}

/// Where inserted rows come from.
#[derive(Clone, Debug, PartialEq)]
pub enum InsertSource {
    Values(Vec<Vec<Expr>>),
    Select(Box<Select>),
}

/// `INSERT`.
#[derive(Clone, Debug, PartialEq)]
pub struct Insert {
    pub table: String,
    pub columns: Option<Vec<String>>,
    pub source: InsertSource,
}

/// A new value for a column.
#[derive(Clone, Debug, PartialEq)]
pub struct Assignment {
    pub column: String,
    pub value: Expr,
}

/// `UPDATE`.
#[derive(Clone, Debug, PartialEq)]
pub struct Update {
    pub table: String,
    pub alias: Option<String>,
    pub assignments: Vec<Assignment>,
    pub where_clause: Option<Expr>,
}

/// `DELETE`.
#[derive(Clone, Debug, PartialEq)]
pub struct Delete {
    pub table: String,
    pub alias: Option<String>,
    pub where_clause: Option<Expr>,
}

/// A statement.
#[derive(Clone, Debug, PartialEq)]
pub enum Statement {
    CreateTable(CreateTable),
    DropTable(DropTable),
    Select(Select),
    Insert(Insert),
    Update(Update),
    Delete(Delete),
    Begin,
    Commit,
    Rollback,
    ShowTables,
    Describe(String),
}

impl JoinType {
    /// The name of the join type.
    pub open spec fn name(self) -> Seq<char> {
        match self {
            JoinType::Inner => "Inner"@,
            JoinType::Left => "Left"@,
            JoinType::Right => "Right"@,
            JoinType::Full => "Full"@,
            JoinType::Cross => "Cross"@,
        }
    }

    /// The name of the join type.
    pub fn to_string(&self) -> (s: String)
        ensures
            s@ == self.name(),
    {
        let name = match self {
            JoinType::Inner => "Inner",
            JoinType::Left => "Left",
            JoinType::Right => "Right",
            JoinType::Full => "Full",
            JoinType::Cross => "Cross",
        };
        name.to_owned()
    }
}

impl BinaryOperator {
    /// Whether the operator compares its operands.
    pub fn is_comparison(&self) -> (b: bool)
        ensures
            b == (self is Eq || self is NotEq || self is Lt || self is LtEq || self is Gt
                || self is GtEq),
            b == self.flipped() is Some,
    {
        matches!(
            self,
            BinaryOperator::Eq | BinaryOperator::NotEq | BinaryOperator::Lt | BinaryOperator::LtEq
                | BinaryOperator::Gt | BinaryOperator::GtEq
        )
    }

    /// Whether the operator joins truth values.
    pub fn is_logical(&self) -> (b: bool)
        ensures
            b == (self is And || self is Or),
            b == (self.sign() == "AND"@ || self.sign() == "OR"@),
    {
        proof {
            expression_laws::lemma_binary_sign(*self);
        }
        matches!(self, BinaryOperator::And | BinaryOperator::Or)
    }

    /// Whether the operator computes a number.
    pub fn is_arithmetic(&self) -> (b: bool)
        ensures
            b == (self is Plus || self is Minus || self is Multiply || self is Divide
                || self is Modulo),
            b == (self.sign() == "+"@ || self.sign() == "-"@ || self.sign() == "*"@ || self.sign()
                == "/"@ || self.sign() == "%"@),
    {
        proof {
            expression_laws::lemma_binary_sign(*self);
        }
        matches!(
            self,
            BinaryOperator::Plus | BinaryOperator::Minus | BinaryOperator::Multiply
                | BinaryOperator::Divide | BinaryOperator::Modulo
        )
    }

    /// The comparison that holds of two operands in reverse order.
    pub open spec fn flipped(self) -> Option<BinaryOperator> {
        match self {
            BinaryOperator::Eq => Some(BinaryOperator::Eq),
            BinaryOperator::NotEq => Some(BinaryOperator::NotEq),
            BinaryOperator::Lt => Some(BinaryOperator::Gt),
            BinaryOperator::LtEq => Some(BinaryOperator::GtEq),
            BinaryOperator::Gt => Some(BinaryOperator::Lt),
            BinaryOperator::GtEq => Some(BinaryOperator::LtEq),
            _ => None,
        }
    }

    /// The comparison that holds of two operands in reverse order: only
    /// comparisons have one, and it is the comparison itself when taken twice.
    pub fn flip(&self) -> (r: Option<BinaryOperator>)
        ensures
            r == self.flipped(),
            r is Some == (self is Eq || self is NotEq || self is Lt || self is LtEq || self is Gt
                || self is GtEq),
            r matches Some(op) ==> op.flipped() == Some(*self),
    {
        match self {
            BinaryOperator::Eq => Some(BinaryOperator::Eq),
            BinaryOperator::NotEq => Some(BinaryOperator::NotEq),
            BinaryOperator::Lt => Some(BinaryOperator::Gt),
            BinaryOperator::LtEq => Some(BinaryOperator::GtEq),
            BinaryOperator::Gt => Some(BinaryOperator::Lt),
            BinaryOperator::GtEq => Some(BinaryOperator::LtEq),
            _ => None,
        }
    }

    /// The operator as it is written.
    pub open spec fn sign(self) -> Seq<char> {
        match self {
            BinaryOperator::Eq => "="@,
            BinaryOperator::NotEq => "<>"@,
            BinaryOperator::Lt => "<"@,
            BinaryOperator::LtEq => "<="@,
            BinaryOperator::Gt => ">"@,
            BinaryOperator::GtEq => ">="@,
            BinaryOperator::And => "AND"@,
            BinaryOperator::Or => "OR"@,
            BinaryOperator::Plus => "+"@,
            BinaryOperator::Minus => "-"@,
            BinaryOperator::Multiply => "*"@,
            BinaryOperator::Divide => "/"@,
            BinaryOperator::Modulo => "%"@,
            BinaryOperator::Concat => "||"@,
        }
    }

    /// The operator as it is written.
    pub fn symbol(&self) -> (s: &'static str)
        ensures
            s@ == self.sign(),
    {
        match self {
            BinaryOperator::Eq => "=",
            BinaryOperator::NotEq => "<>",
            BinaryOperator::Lt => "<",
            BinaryOperator::LtEq => "<=",
            BinaryOperator::Gt => ">",
            BinaryOperator::GtEq => ">=",
            BinaryOperator::And => "AND",
            BinaryOperator::Or => "OR",
            BinaryOperator::Plus => "+",
            BinaryOperator::Minus => "-",
            BinaryOperator::Multiply => "*",
            BinaryOperator::Divide => "/",
            BinaryOperator::Modulo => "%",
            BinaryOperator::Concat => "||",
        }
    }
}

impl UnaryOperator {
    /// The operator as it is written.
    pub open spec fn sign(self) -> Seq<char> {
        match self {
            UnaryOperator::Not => "NOT "@,
            UnaryOperator::Minus => "-"@,
            UnaryOperator::Plus => "+"@,
        }
    }

    /// The operator as it is written.
    pub fn symbol(&self) -> (s: &'static str)
        ensures
            s@ == self.sign(),
    {
        match self {
            UnaryOperator::Not => "NOT ",
            UnaryOperator::Minus => "-",
            UnaryOperator::Plus => "+",
        }
    }
}

/// The place of the first default value among constraints.
pub open spec fn default_place(cs: Seq<ColumnConstraintView>) -> int
    decreases cs.len(),
{
    if cs.len() == 0 || cs[0] is Default {
        0
    } else {
        1 + default_place(cs.skip(1))
    }
}

impl ColumnDef {
    /// Whether the column takes no null: it is declared so, or part of the
    /// primary key.
    pub fn is_not_null(&self) -> (b: bool)
        ensures
            b == exists|i: int|
                0 <= i < self@.constraints.len() && (#[trigger] self@.constraints[i] is NotNull
                    || self@.constraints[i] is PrimaryKey),
    {
        let ghost cs = self@.constraints;
        let mut i: usize = 0;
        while i < self.constraints.len()
            invariant
                i <= self.constraints@.len(),
                cs == self@.constraints,
                forall|j: int|
                    0 <= j < i ==> !(#[trigger] cs[j] is NotNull) && !(cs[j] is PrimaryKey),
            decreases self.constraints@.len() - i,
        {
            assert(cs[i as int] == self.constraints@[i as int]@);
            if matches!(
                self.constraints[i],
                ColumnConstraint::NotNull | ColumnConstraint::PrimaryKey
            ) {
                return true;
            }
            i = i + 1;
        }
        false
    }

    /// The default value of the column.
    pub fn default_value(&self) -> (r: Option<&Expr>)
        ensures
            ({
                let cs = self@.constraints;
                let i = default_place(cs);
                if i < cs.len() {
                    r matches Some(e) && cs[i] == ColumnConstraintView::Default(e@)
                } else {
                    r is None
                }
            }),
    {
        let ghost cs = self@.constraints;
        let mut i: usize = 0;
        assert(cs.skip(0) =~= cs);
        while i < self.constraints.len()
            invariant
                i <= self.constraints@.len(),
                cs == self@.constraints,
                default_place(cs) == i + default_place(cs.skip(i as int)),
            decreases self.constraints@.len() - i,
        {
            assert(cs[i as int] == self.constraints@[i as int]@);
            assert(cs.skip(i as int)[0] == cs[i as int]);
            if let ColumnConstraint::Default(val) = &self.constraints[i] {
                return Some(val);
            }
            assert(cs.skip(i as int).skip(1) =~= cs.skip(i + 1));
            i = i + 1;
        }
        None
    }
}

/// A literal as it is written.
pub open spec fn literal_text(v: LiteralValueView) -> Seq<char> {
    match v {
        LiteralValueView::Null => "NULL"@,
        LiteralValueView::Boolean(b) => if b {
            "TRUE"@
        } else {
            "FALSE"@
        },
        LiteralValueView::Integer(i) => text::integer_text(i as int),
        LiteralValueView::Float(x) => x,
        LiteralValueView::String(s) => text::quoted(s),
    }
}

impl LiteralValue {
    /// The literal as it is written. A floating point number keeps its text.
    pub fn to_string(&self) -> (s: String)
        ensures
            s@ == literal_text(self@),
    {
        match self {
            LiteralValue::Null => "NULL".to_owned(),
            LiteralValue::Boolean(b) => if *b {
                "TRUE".to_owned()
            } else {
                "FALSE".to_owned()
            },
            LiteralValue::Integer(i) => text::integer_string(*i),
            LiteralValue::Float(x) => x.clone(),
            LiteralValue::String(s) => text::quote(s),
        }
    }
}

/// `NOT ` or nothing.
pub open spec fn not_text(negated: bool) -> Seq<char> {
    if negated {
        "NOT "@
    } else {
        ""@
    }
}

/// An expression as it is written.
pub open spec fn expr_text(e: ExprView) -> Seq<char>
    decreases e,
{
    match e {
        ExprView::Column { table, name } => match table {
            Some(t) => t + "."@ + name,
            None => name,
        },
        ExprView::Literal(v) => literal_text(v),
        ExprView::BinaryOp { left, op, right } => expr_text(*left) + " "@ + op.sign() + " "@
            + expr_text(*right),
        ExprView::UnaryOp { op, expr } => op.sign() + expr_text(*expr),
        ExprView::IsNull { expr, negated } => if negated {
            expr_text(*expr) + " IS NOT NULL"@
        } else {
            expr_text(*expr) + " IS NULL"@
        },
        ExprView::InList { expr, list, negated } => expr_text(*expr) + " "@ + not_text(negated)
            + "IN ("@ + list_text(list) + ")"@,
        ExprView::Between { expr, low, high, negated } => expr_text(*expr) + " "@ + not_text(
            negated,
        ) + "BETWEEN "@ + expr_text(*low) + " AND "@ + expr_text(*high),
        ExprView::Like { expr, pattern, negated, case_insensitive } => expr_text(*expr) + " "@
            + not_text(negated) + (if case_insensitive {
            "ILIKE"@
        } else {
            "LIKE"@
        }) + " "@ + text::quoted(pattern),
        ExprView::Function { name, args } => call_text(name, args),
        ExprView::Nested(inner) => "("@ + expr_text(*inner) + ")"@,
    }
}

/// A function call as it is written.
pub open spec fn call_text(name: Seq<char>, args: FunctionArgsView) -> Seq<char>
    decreases args,
{
    match args {
        FunctionArgsView::Star => text::uppercase(name) + "(*)"@,
        FunctionArgsView::List { args, distinct } => text::uppercase(name) + "("@ + (
        if distinct {
            "DISTINCT "@
        } else {
            ""@
        }) + list_text(args) + ")"@,
    }
}

/// Expressions as they are written in a list.
pub open spec fn list_text(es: Seq<ExprView>) -> Seq<char>
    decreases es,
{
    if es.len() == 0 {
        ""@
    } else if es.len() == 1 {
        expr_text(es.last())
    } else {
        list_text(es.drop_last()) + ", "@ + expr_text(es.last())
    }
}

impl Expr {
    /// The expression as it is written.
    pub fn to_string(&self) -> (s: String)
        ensures
            s@ == expr_text(self@),
    {
        let mut out = String::new();
        write_expr(&mut out, self);
        assert(out@ =~= expr_text(self@));
        out
    }
}

/// Appends an expression as it is written.
#[verifier::rlimit(40)]
fn write_expr(out: &mut String, e: &Expr)
    ensures
        final(out)@ == old(out)@ + expr_text(e@),
    decreases e,
{
    match e {
        Expr::Column { table, name } => {
            if let Some(t) = table {
                out.append(t);
                out.append(".");
            }
            out.append(name);
            assert(out@ =~= old(out)@ + expr_text(e@));
        },
        Expr::Literal(lit) => {
            let s = lit.to_string();
            out.append(&s);
            assert(out@ =~= old(out)@ + expr_text(e@));
        },
        Expr::BinaryOp { left, op, right } => {
            write_expr(out, left);
            out.append(" ");
            out.append(op.symbol());
            out.append(" ");
            write_expr(out, right);
            assert(out@ =~= old(out)@ + expr_text(e@));
        },
        Expr::UnaryOp { op, expr } => {
            out.append(op.symbol());
            write_expr(out, expr);
            assert(out@ =~= old(out)@ + expr_text(e@));
        },
        Expr::IsNull { expr, negated } => {
            write_expr(out, expr);
            if *negated {
                out.append(" IS NOT NULL");
            } else {
                out.append(" IS NULL");
            }
            assert(out@ =~= old(out)@ + expr_text(e@));
        },
        Expr::InList { expr, list, negated } => {
            write_expr(out, expr);
            out.append(" ");
            write_not(out, *negated);
            out.append("IN (");
            proof {
                assert(e@->list =~= expr_views(list@));
            }
            write_list(out, list);
            out.append(")");
            assert(out@ =~= old(out)@ + expr_text(e@));
        },
        Expr::Between { expr, low, high, negated } => {
            write_expr(out, expr);
            out.append(" ");
            write_not(out, *negated);
            out.append("BETWEEN ");
            write_expr(out, low);
            out.append(" AND ");
            write_expr(out, high);
            assert(out@ =~= old(out)@ + expr_text(e@));
        },
        Expr::Like { expr, pattern, negated, case_insensitive } => {
            write_expr(out, expr);
            out.append(" ");
            write_not(out, *negated);
            if *case_insensitive {
                out.append("ILIKE");
            } else {
                out.append("LIKE");
            }
            out.append(" ");
            let s = text::quote(pattern);
            out.append(&s);
            assert(out@ =~= old(out)@ + expr_text(e@));
        },
        Expr::Function { name, args } => {
            write_call(out, name, args);
            assert(out@ =~= old(out)@ + expr_text(e@));
        },
        Expr::Nested(inner) => {
            out.append("(");
            write_expr(out, inner);
            out.append(")");
            assert(out@ =~= old(out)@ + expr_text(e@));
        },
    }
}

fn write_not(out: &mut String, negated: bool)
    ensures
        final(out)@ == old(out)@ + not_text(negated),
{
    if negated {
        out.append("NOT ");
    } else {
        out.append("");
    }
}

/// The views of expressions.
pub open spec fn expr_views(es: Seq<Expr>) -> Seq<ExprView> {
    Seq::new(es.len(), |i: int| es[i]@)
}

/// Appends a function call as it is written.
fn write_call(out: &mut String, name: &String, args: &FunctionArgs)
    ensures
        final(out)@ == old(out)@ + call_text(name@, args@),
    decreases args,
{
    let s = text::upper(name);
    out.append(&s);
    match args {
        FunctionArgs::Star => {
            out.append("(*)");
            assert(out@ =~= old(out)@ + call_text(name@, args@));
        },
        FunctionArgs::List { args: list, distinct } => {
            out.append("(");
            if *distinct {
                out.append("DISTINCT ");
            } else {
                out.append("");
            }
            write_list(out, list);
            out.append(")");
            proof {
                assert(args@->args =~= expr_views(list@));
                assert(out@ =~= old(out)@ + call_text(name@, args@));
            }
        },
    }
}

/// Appends expressions as they are written in a list.
fn write_list(out: &mut String, items: &Vec<Expr>)
    ensures
        final(out)@ == old(out)@ + list_text(expr_views(items@)),
    decreases items,
{
    let ghost all = expr_views(items@);
    let mut i: usize = 0;
    out.append("");
    assert(all.take(0) =~= Seq::empty());
    assert(out@ =~= old(out)@ + list_text(all.take(0)));
    while i < items.len()
        invariant
            i <= items@.len(),
            all == expr_views(items@),
            out@ == old(out)@ + list_text(all.take(i as int)),
        decreases items@.len() - i,
    {
        if i > 0 {
            out.append(", ");
        }
        write_expr(out, &items[i]);
        proof {
            assert(all.take(i + 1).drop_last() =~= all.take(i as int));
            assert(all.take(i + 1).last() == items@[i as int]@);
            reveal_strlit("");
            if i == 0 {
                assert(list_text(all.take(0)) =~= Seq::empty());
            }
            assert(out@ =~= old(out)@ + list_text(all.take(i + 1)));
        }
        i = i + 1;
    }
    assert(all.take(i as int) =~= all);
}

/// A copy of a value.
fn copy_literal_value(x: &LiteralValue) -> (r: LiteralValue)
    ensures
        r@ == x@,
{
    let r = match x {
        LiteralValue::Null => LiteralValue::Null,
        LiteralValue::Boolean(a) => LiteralValue::Boolean(*a),
        LiteralValue::Integer(a) => LiteralValue::Integer(*a),
        LiteralValue::Float(a) => LiteralValue::Float(a.clone()),
        LiteralValue::String(a) => LiteralValue::String(a.clone()),
    };
    r
}

/// A copy of a value.
fn copy_expr(x: &Expr) -> (r: Expr)
    ensures
        r@ == x@,
    decreases x,
{
    let r = match x {
        Expr::Column { table, name } => Expr::Column {
            table: match table { Some(s) => Some(s.clone()), None => None },
            name: name.clone(),
        },
        Expr::Literal(a) => Expr::Literal(copy_literal_value(a)),
        Expr::BinaryOp { left, op, right } => Expr::BinaryOp {
            left: Box::new(copy_expr(left)),
            op: *op,
            right: Box::new(copy_expr(right)),
        },
        Expr::UnaryOp { op, expr } => Expr::UnaryOp {
            op: *op,
            expr: Box::new(copy_expr(expr)),
        },
        Expr::IsNull { expr, negated } => Expr::IsNull {
            expr: Box::new(copy_expr(expr)),
            negated: *negated,
        },
        Expr::InList { expr, list, negated } => Expr::InList {
            expr: Box::new(copy_expr(expr)),
            list: copy_exprs(list),
            negated: *negated,
        },
        Expr::Between { expr, low, high, negated } => Expr::Between {
            expr: Box::new(copy_expr(expr)),
            low: Box::new(copy_expr(low)),
            high: Box::new(copy_expr(high)),
            negated: *negated,
        },
        Expr::Like { expr, pattern, negated, case_insensitive } => Expr::Like {
            expr: Box::new(copy_expr(expr)),
            pattern: pattern.clone(),
            negated: *negated,
            case_insensitive: *case_insensitive,
        },
        Expr::Function { name, args } => Expr::Function {
            name: name.clone(),
            args: copy_function_args(args),
        },
        Expr::Nested(a) => Expr::Nested(Box::new(copy_expr(a))),
    };
    proof {
        if x is InList {
            assert(r@->list =~= x@->list);
        }
    }
    r
}

/// A copy of a value.
fn copy_function_args(x: &FunctionArgs) -> (r: FunctionArgs)
    ensures
        r@ == x@,
    decreases x,
{
    let r = match x {
        FunctionArgs::Star => FunctionArgs::Star,
        FunctionArgs::List { args, distinct } => FunctionArgs::List {
            args: copy_exprs(args),
            distinct: *distinct,
        },
    };
    proof {
        if x is List {
            assert(r@->args =~= x@->args);
        }
    }
    r
}

/// A copy of expressions.
fn copy_exprs(x: &Vec<Expr>) -> (r: Vec<Expr>)
    ensures
        r@.len() == x@.len(),
        forall|j: int| 0 <= j < x@.len() ==> (#[trigger] r@[j])@ == x@[j]@,
    decreases x,
{
    let mut r: Vec<Expr> = Vec::with_capacity(x.len());
    let mut i: usize = 0;
    while i < x.len()
        invariant
            i <= x@.len(),
            r@.len() == i,
            forall|j: int| 0 <= j < i ==> (#[trigger] r@[j])@ == x@[j]@,
        decreases x@.len() - i,
    {
        r.push(copy_expr(&x[i]));
        i = i + 1;
    }
    r
}

/// Whether two optional texts are the same.
fn same_opt(a: &Option<String>, b: &Option<String>) -> (r: bool)
    ensures
        r == (match (*a, *b) {
            (Some(x), Some(y)) => x@ == y@,
            (None, None) => true,
            _ => false,
        }),
{
    match (a, b) {
        (Some(x), Some(y)) => text::same(x, y),
        (None, None) => true,
        _ => false,
    }
}

/// Whether two literals are the same.
fn same_literal(a: &LiteralValue, b: &LiteralValue) -> (r: bool)
    ensures
        r == (a@ == b@),
{
    match (a, b) {
        (LiteralValue::Null, LiteralValue::Null) => true,
        (LiteralValue::Boolean(x), LiteralValue::Boolean(y)) => *x == *y,
        (LiteralValue::Integer(x), LiteralValue::Integer(y)) => *x == *y,
        (LiteralValue::Float(x), LiteralValue::Float(y)) => text::same(x, y),
        (LiteralValue::String(x), LiteralValue::String(y)) => text::same(x, y),
        _ => false,
    }
}

/// Whether two expressions are the same.
#[verifier::rlimit(60)]
fn same_expr(a: &Expr, b: &Expr) -> (r: bool)
    ensures
        r == (a@ == b@),
    decreases a,
{
    match (a, b) {
        (Expr::Column { table: t, name: n }, Expr::Column { table: u, name: m }) => same_opt(t, u)
            && text::same(n, m),
        (Expr::Literal(x), Expr::Literal(y)) => same_literal(x, y),
        (Expr::BinaryOp { left: l, op: o, right: r }, Expr::BinaryOp { left: x, op: p, right: y }) =>
        *o == *p && same_expr(l, x) && same_expr(r, y),
        (Expr::UnaryOp { op: o, expr: e }, Expr::UnaryOp { op: p, expr: f }) => *o == *p
            && same_expr(e, f),
        (Expr::IsNull { expr: e, negated: n }, Expr::IsNull { expr: f, negated: m }) => *n == *m
            && same_expr(e, f),
        (
            Expr::InList { expr: e, list: l, negated: n },
            Expr::InList { expr: f, list: x, negated: m },
        ) => {
            proof {
                assert(a@->list =~= expr_views(l@));
                assert(b@->list =~= expr_views(x@));
            }
            *n == *m && same_expr(e, f) && same_exprs(l, x)
        },
        (
            Expr::Between { expr: e, low: l, high: h, negated: n },
            Expr::Between { expr: f, low: x, high: y, negated: m },
        ) => *n == *m && same_expr(e, f) && same_expr(l, x) && same_expr(h, y),
        (
            Expr::Like { expr: e, pattern: p, negated: n, case_insensitive: c },
            Expr::Like { expr: f, pattern: q, negated: m, case_insensitive: d },
        ) => *n == *m && *c == *d && text::same(p, q) && same_expr(e, f),
        (Expr::Function { name: n, args: x }, Expr::Function { name: m, args: y }) => text::same(
            n,
            m,
        ) && same_args(x, y),
        (Expr::Nested(x), Expr::Nested(y)) => same_expr(x, y),
        _ => false,
    }
}

/// Whether the arguments of two functions are the same.
fn same_args(a: &FunctionArgs, b: &FunctionArgs) -> (r: bool)
    ensures
        r == (a@ == b@),
    decreases a,
{
    match (a, b) {
        (FunctionArgs::Star, FunctionArgs::Star) => true,
        (
            FunctionArgs::List { args: x, distinct: d },
            FunctionArgs::List { args: y, distinct: e },
        ) => {
            proof {
                assert(a@->args =~= expr_views(x@));
                assert(b@->args =~= expr_views(y@));
            }
            *d == *e && same_exprs(x, y)
        },
        _ => false,
    }
}

/// Whether two lists of expressions are the same.
fn same_exprs(a: &Vec<Expr>, b: &Vec<Expr>) -> (r: bool)
    ensures
        r == (expr_views(a@) == expr_views(b@)),
    decreases a,
{
    if a.len() != b.len() {
        assert(expr_views(a@).len() != expr_views(b@).len());
        return false;
    }
    let mut i: usize = 0;
    while i < a.len()
        invariant
            i <= a@.len() == b@.len(),
            forall|j: int| 0 <= j < i ==> expr_views(a@)[j] == expr_views(b@)[j],
        decreases a@.len() - i,
    {
        assert(expr_views(a@)[i as int] == a@[i as int]@);
        assert(expr_views(b@)[i as int] == b@[i as int]@);
        if !same_expr(&a[i], &b[i]) {
            return false;
        }
        i = i + 1;
    }
    assert(expr_views(a@) =~= expr_views(b@));
    true
}

impl ColumnConstraint {
    /// Whether two constraints are the same.
    fn same(&self, other: &ColumnConstraint) -> (r: bool)
        ensures
            r == (self@ == other@),
    {
        match (self, other) {
            (ColumnConstraint::NotNull, ColumnConstraint::NotNull) => true,
            (ColumnConstraint::Unique, ColumnConstraint::Unique) => true,
            (ColumnConstraint::PrimaryKey, ColumnConstraint::PrimaryKey) => true,
            (ColumnConstraint::Default(a), ColumnConstraint::Default(b)) => same_expr(a, b),
            _ => false,
        }
    }

    /// A copy of the constraint.
    fn copy(&self) -> (r: ColumnConstraint)
        ensures
            r@ == self@,
    {
        match self {
            ColumnConstraint::NotNull => ColumnConstraint::NotNull,
            ColumnConstraint::Unique => ColumnConstraint::Unique,
            ColumnConstraint::PrimaryKey => ColumnConstraint::PrimaryKey,
            ColumnConstraint::Default(e) => ColumnConstraint::Default(copy_expr(e)),
        }
    }
}

impl ColumnDef {
    /// A copy of the column.
    pub(crate) fn copy(&self) -> (r: ColumnDef)
        ensures
            r@ == self@,
    {
        let mut constraints: Vec<ColumnConstraint> = Vec::with_capacity(self.constraints.len());
        let mut i: usize = 0;
        while i < self.constraints.len()
            invariant
                i <= self.constraints@.len(),
                constraints@.len() == i,
                forall|j: int|
                    0 <= j < i ==> (#[trigger] constraints@[j])@ == self.constraints@[j]@,
            decreases self.constraints@.len() - i,
        {
            constraints.push(self.constraints[i].copy());
            i = i + 1;
        }
        let r = ColumnDef { name: self.name.clone(), data_type: self.data_type, constraints };
        assert(r@.constraints =~= self@.constraints);
        r
    }

    /// Whether the column has a constraint.
    pub(crate) fn has_constraint(&self, c: &ColumnConstraint) -> (b: bool)
        ensures
            b == self@.constraints.contains(c@),
    {
        let mut i: usize = 0;
        while i < self.constraints.len()
            invariant
                i <= self.constraints@.len(),
                forall|j: int| 0 <= j < i ==> self@.constraints[j] != c@,
            decreases self.constraints@.len() - i,
        {
            assert(self@.constraints[i as int] == self.constraints@[i as int]@);
            if self.constraints[i].same(c) {
                return true;
            }
            i = i + 1;
        }
        false
    }

    /// Adds a constraint, unless the column has it.
    pub(crate) fn add_constraint(&mut self, c: ColumnConstraint)
        ensures
            final(self)@ == (ColumnDefView {
                name: old(self)@.name,
                data_type: old(self)@.data_type,
                constraints: if old(self)@.constraints.contains(c@) {
                    old(self)@.constraints
                } else {
                    old(self)@.constraints.push(c@)
                },
            }),
    {
        if !self.has_constraint(&c) {
            let ghost cv = c@;
            self.constraints.push(c);
            assert(self@.constraints =~= old(self)@.constraints.push(cv));
        }
    }
}

impl Clone for Expr {
    fn clone(&self) -> (r: Expr)
        ensures
            r@ == self@,
    {
        copy_expr(self)
    }
}

impl Clone for FunctionArgs {
    fn clone(&self) -> (r: FunctionArgs)
        ensures
            r@ == self@,
    {
        copy_function_args(self)
    }
}

/// The view of `LiteralValue`.
#[verifier::ext_equal]
pub enum LiteralValueView {
    Null,
    Boolean(bool),
    Integer(i64),
    Float(Seq<char>),
    String(Seq<char>),
}

/// The view of a value.
pub open spec fn literal_value_view(x: LiteralValue) -> LiteralValueView
{
    match x {
        LiteralValue::Null => LiteralValueView::Null,
        LiteralValue::Boolean(a) => LiteralValueView::Boolean(a),
        LiteralValue::Integer(a) => LiteralValueView::Integer(a),
        LiteralValue::Float(a) => LiteralValueView::Float(a@),
        LiteralValue::String(a) => LiteralValueView::String(a@),
    }
}

impl View for LiteralValue {
    type V = LiteralValueView;

    open spec fn view(&self) -> LiteralValueView {
        literal_value_view(*self)
    }
}

/// The view of `FunctionArgs`.
#[verifier::ext_equal]
pub enum FunctionArgsView {
    Star,
    List {
        args: Seq<ExprView>,
        distinct: bool,
    },
}

/// The view of a value.
pub open spec fn function_args_view(x: FunctionArgs) -> FunctionArgsView
    decreases x,
{
    match x {
        FunctionArgs::Star => FunctionArgsView::Star,
        FunctionArgs::List { args, distinct } => FunctionArgsView::List {
            args: Seq::new(
                args@.len(),
                |i: int|
                    if 0 <= i < args@.len() {
                        expr_view(args@[i])
                    } else {
                        arbitrary()
                    },
            ),
            distinct: distinct,
        },
    }
}

impl View for FunctionArgs {
    type V = FunctionArgsView;

    open spec fn view(&self) -> FunctionArgsView {
        function_args_view(*self)
    }
}

/// The view of `Expr`.
#[verifier::ext_equal]
pub enum ExprView {
    Column {
        table: Option<Seq<char>>,
        name: Seq<char>,
    },
    Literal(LiteralValueView),
    BinaryOp {
        left: Box<ExprView>,
        op: BinaryOperator,
        right: Box<ExprView>,
    },
    UnaryOp {
        op: UnaryOperator,
        expr: Box<ExprView>,
    },
    IsNull {
        expr: Box<ExprView>,
        negated: bool,
    },
    InList {
        expr: Box<ExprView>,
        list: Seq<ExprView>,
        negated: bool,
    },
    Between {
        expr: Box<ExprView>,
        low: Box<ExprView>,
        high: Box<ExprView>,
        negated: bool,
    },
    Like {
        expr: Box<ExprView>,
        pattern: Seq<char>,
        negated: bool,
        case_insensitive: bool,
    },
    Function {
        name: Seq<char>,
        args: FunctionArgsView,
    },
    Nested(Box<ExprView>),
}

/// The view of a value.
pub open spec fn expr_view(x: Expr) -> ExprView
    decreases x,
{
    match x {
        Expr::Column { table, name } => ExprView::Column {
            table: match table { Some(v) => Some(v@), None => None },
            name: name@,
        },
        Expr::Literal(a) => ExprView::Literal(literal_value_view(a)),
        Expr::BinaryOp { left, op, right } => ExprView::BinaryOp {
            left: Box::new(expr_view((*left))),
            op: op,
            right: Box::new(expr_view((*right))),
        },
        Expr::UnaryOp { op, expr } => ExprView::UnaryOp {
            op: op,
            expr: Box::new(expr_view((*expr))),
        },
        Expr::IsNull { expr, negated } => ExprView::IsNull {
            expr: Box::new(expr_view((*expr))),
            negated: negated,
        },
        Expr::InList { expr, list, negated } => ExprView::InList {
            expr: Box::new(expr_view((*expr))),
            list: Seq::new(
                list@.len(),
                |i: int|
                    if 0 <= i < list@.len() {
                        expr_view(list@[i])
                    } else {
                        arbitrary()
                    },
            ),
            negated: negated,
        },
        Expr::Between { expr, low, high, negated } => ExprView::Between {
            expr: Box::new(expr_view((*expr))),
            low: Box::new(expr_view((*low))),
            high: Box::new(expr_view((*high))),
            negated: negated,
        },
        Expr::Like { expr, pattern, negated, case_insensitive } => ExprView::Like {
            expr: Box::new(expr_view((*expr))),
            pattern: pattern@,
            negated: negated,
            case_insensitive: case_insensitive,
        },
        Expr::Function { name, args } => ExprView::Function {
            name: name@,
            args: function_args_view(args),
        },
        Expr::Nested(a) => ExprView::Nested(Box::new(expr_view((*a)))),
    }
}

impl View for Expr {
    type V = ExprView;

    open spec fn view(&self) -> ExprView {
        expr_view(*self)
    }
}

/// The view of `ColumnConstraint`.
#[verifier::ext_equal]
pub enum ColumnConstraintView {
    NotNull,
    Unique,
    PrimaryKey,
    Default(ExprView),
}

/// The view of a value.
pub open spec fn column_constraint_view(x: ColumnConstraint) -> ColumnConstraintView
{
    match x {
        ColumnConstraint::NotNull => ColumnConstraintView::NotNull,
        ColumnConstraint::Unique => ColumnConstraintView::Unique,
        ColumnConstraint::PrimaryKey => ColumnConstraintView::PrimaryKey,
        ColumnConstraint::Default(a) => ColumnConstraintView::Default(expr_view(a)),
    }
}

impl View for ColumnConstraint {
    type V = ColumnConstraintView;

    open spec fn view(&self) -> ColumnConstraintView {
        column_constraint_view(*self)
    }
}

/// The view of `ColumnDef`.
#[verifier::ext_equal]
pub struct ColumnDefView {
    pub name: Seq<char>,
    pub data_type: SqlDataType,
    pub constraints: Seq<ColumnConstraintView>,
}

/// The view of a value.
pub open spec fn column_def_view(x: ColumnDef) -> ColumnDefView
{
    ColumnDefView {
        name: x.name@,
        data_type: x.data_type,
        constraints: Seq::new(
            x.constraints@.len(),
            |i: int|
                if 0 <= i < x.constraints@.len() {
                    column_constraint_view(x.constraints@[i])
                } else {
                    arbitrary()
                },
        ),
    }
}

impl View for ColumnDef {
    type V = ColumnDefView;

    open spec fn view(&self) -> ColumnDefView {
        column_def_view(*self)
    }
}

/// The view of `CreateTable`.
#[verifier::ext_equal]
pub struct CreateTableView {
    pub name: Seq<char>,
    pub columns: Seq<ColumnDefView>,
    pub primary_key: Seq<Seq<char>>,
    pub unique_keys: Seq<Seq<Seq<char>>>,
    pub if_not_exists: bool,
}

/// The view of a value.
pub open spec fn create_table_view(x: CreateTable) -> CreateTableView
{
    CreateTableView {
        name: x.name@,
        columns: Seq::new(
            x.columns@.len(),
            |i: int|
                if 0 <= i < x.columns@.len() {
                    column_def_view(x.columns@[i])
                } else {
                    arbitrary()
                },
        ),
        primary_key: Seq::new(
            x.primary_key@.len(),
            |i: int|
                if 0 <= i < x.primary_key@.len() {
                    x.primary_key@[i]@
                } else {
                    arbitrary()
                },
        ),
        unique_keys: Seq::new(
            x.unique_keys@.len(),
            |i: int|
                if 0 <= i < x.unique_keys@.len() {
                    Seq::new(
                        x.unique_keys@[i]@.len(),
                        |i1: int|
                            if 0 <= i1 < x.unique_keys@[i]@.len() {
                                x.unique_keys@[i]@[i1]@
                            } else {
                                arbitrary()
                            },
                    )
                } else {
                    arbitrary()
                },
        ),
        if_not_exists: x.if_not_exists,
    }
}

impl View for CreateTable {
    type V = CreateTableView;

    open spec fn view(&self) -> CreateTableView {
        create_table_view(*self)
    }
}

/// The view of `DropTable`.
#[verifier::ext_equal]
pub struct DropTableView {
    pub name: Seq<char>,
    pub if_exists: bool,
}

/// The view of a value.
pub open spec fn drop_table_view(x: DropTable) -> DropTableView
{
    DropTableView {
        name: x.name@,
        if_exists: x.if_exists,
    }
}

impl View for DropTable {
    type V = DropTableView;

    open spec fn view(&self) -> DropTableView {
        drop_table_view(*self)
    }
}

/// The view of `Join`.
#[verifier::ext_equal]
pub struct JoinView {
    pub table: Seq<char>,
    pub alias: Option<Seq<char>>,
    pub join_type: JoinType,
    pub on: Option<ExprView>,
}

/// The view of a value.
pub open spec fn join_view(x: Join) -> JoinView
{
    JoinView {
        table: x.table@,
        alias: match x.alias { Some(v) => Some(v@), None => None },
        join_type: x.join_type,
        on: match x.on { Some(v) => Some(expr_view(v)), None => None },
    }
}

impl View for Join {
    type V = JoinView;

    open spec fn view(&self) -> JoinView {
        join_view(*self)
    }
}

/// The view of `TableRef`.
#[verifier::ext_equal]
pub struct TableRefView {
    pub base: Seq<char>,
    pub base_alias: Option<Seq<char>>,
    pub joins: Seq<JoinView>,
}

/// The view of a value.
pub open spec fn table_ref_view(x: TableRef) -> TableRefView
{
    TableRefView {
        base: x.base@,
        base_alias: match x.base_alias { Some(v) => Some(v@), None => None },
        joins: Seq::new(
            x.joins@.len(),
            |i: int|
                if 0 <= i < x.joins@.len() {
                    join_view(x.joins@[i])
                } else {
                    arbitrary()
                },
        ),
    }
}

impl View for TableRef {
    type V = TableRefView;

    open spec fn view(&self) -> TableRefView {
        table_ref_view(*self)
    }
}

/// The view of `SelectColumn`.
#[verifier::ext_equal]
pub enum SelectColumnView {
    Wildcard,
    QualifiedWildcard(Seq<char>),
    Column {
        table: Option<Seq<char>>,
        name: Seq<char>,
    },
    Expr {
        expr: ExprView,
        alias: Option<Seq<char>>,
    },
}

/// The view of a value.
pub open spec fn select_column_view(x: SelectColumn) -> SelectColumnView
{
    match x {
        SelectColumn::Wildcard => SelectColumnView::Wildcard,
        SelectColumn::QualifiedWildcard(a) => SelectColumnView::QualifiedWildcard(a@),
        SelectColumn::Column { table, name } => SelectColumnView::Column {
            table: match table { Some(v) => Some(v@), None => None },
            name: name@,
        },
        SelectColumn::Expr { expr, alias } => SelectColumnView::Expr {
            expr: expr_view(expr),
            alias: match alias { Some(v) => Some(v@), None => None },
        },
    }
}

impl View for SelectColumn {
    type V = SelectColumnView;

    open spec fn view(&self) -> SelectColumnView {
        select_column_view(*self)
    }
}

/// The view of `OrderBy`.
#[verifier::ext_equal]
pub struct OrderByView {
    pub expr: ExprView,
    pub ascending: bool,
    pub nulls_first: Option<bool>,
}

/// The view of a value.
pub open spec fn order_by_view(x: OrderBy) -> OrderByView
{
    OrderByView {
        expr: expr_view(x.expr),
        ascending: x.ascending,
        nulls_first: match x.nulls_first { Some(v) => Some(v), None => None },
    }
}

impl View for OrderBy {
    type V = OrderByView;

    open spec fn view(&self) -> OrderByView {
        order_by_view(*self)
    }
}

/// The view of `Select`.
#[verifier::ext_equal]
pub struct SelectView {
    pub distinct: bool,
    pub columns: Seq<SelectColumnView>,
    pub from: TableRefView,
    pub where_clause: Option<ExprView>,
    pub group_by: Seq<ExprView>,
    pub having: Option<ExprView>,
    pub order_by: Seq<OrderByView>,
    pub limit: Option<usize>,
    pub offset: Option<usize>,
}

/// The view of a value.
pub open spec fn select_view(x: Select) -> SelectView
{
    SelectView {
        distinct: x.distinct,
        columns: Seq::new(
            x.columns@.len(),
            |i: int|
                if 0 <= i < x.columns@.len() {
                    select_column_view(x.columns@[i])
                } else {
                    arbitrary()
                },
        ),
        from: table_ref_view(x.from),
        where_clause: match x.where_clause { Some(v) => Some(expr_view(v)), None => None },
        group_by: Seq::new(
            x.group_by@.len(),
            |i: int|
                if 0 <= i < x.group_by@.len() {
                    expr_view(x.group_by@[i])
                } else {
                    arbitrary()
                },
        ),
        having: match x.having { Some(v) => Some(expr_view(v)), None => None },
        order_by: Seq::new(
            x.order_by@.len(),
            |i: int|
                if 0 <= i < x.order_by@.len() {
                    order_by_view(x.order_by@[i])
                } else {
                    arbitrary()
                },
        ),
        limit: match x.limit { Some(v) => Some(v), None => None },
        offset: match x.offset { Some(v) => Some(v), None => None },
    }
}

impl View for Select {
    type V = SelectView;

    open spec fn view(&self) -> SelectView {
        select_view(*self)
    }
}

/// The view of `InsertSource`.
#[verifier::ext_equal]
pub enum InsertSourceView {
    Values(Seq<Seq<ExprView>>),
    Select(Box<SelectView>),
}

/// The view of a value.
pub open spec fn insert_source_view(x: InsertSource) -> InsertSourceView
{
    match x {
        InsertSource::Values(a) => InsertSourceView::Values(
            Seq::new(
                a@.len(),
                |i: int|
                    if 0 <= i < a@.len() {
                        Seq::new(
                            a@[i]@.len(),
                            |i1: int|
                                if 0 <= i1 < a@[i]@.len() {
                                    expr_view(a@[i]@[i1])
                                } else {
                                    arbitrary()
                                },
                        )
                    } else {
                        arbitrary()
                    },
            ),
        ),
        InsertSource::Select(a) => InsertSourceView::Select(Box::new(select_view((*a)))),
    }
}

impl View for InsertSource {
    type V = InsertSourceView;

    open spec fn view(&self) -> InsertSourceView {
        insert_source_view(*self)
    }
}

/// The view of `Insert`.
#[verifier::ext_equal]
pub struct InsertView {
    pub table: Seq<char>,
    pub columns: Option<Seq<Seq<char>>>,
    pub source: InsertSourceView,
}

/// The view of a value.
pub open spec fn insert_view(x: Insert) -> InsertView
{
    InsertView {
        table: x.table@,
        columns: match x.columns { Some(v) => Some(
            Seq::new(
                v@.len(),
                |i1: int|
                    if 0 <= i1 < v@.len() {
                        v@[i1]@
                    } else {
                        arbitrary()
                    },
            ),
        ), None => None },
        source: insert_source_view(x.source),
    }
}

impl View for Insert {
    type V = InsertView;

    open spec fn view(&self) -> InsertView {
        insert_view(*self)
    }
}

/// The view of `Assignment`.
#[verifier::ext_equal]
pub struct AssignmentView {
    pub column: Seq<char>,
    pub value: ExprView,
}

/// The view of a value.
pub open spec fn assignment_view(x: Assignment) -> AssignmentView
{
    AssignmentView {
        column: x.column@,
        value: expr_view(x.value),
    }
}

impl View for Assignment {
    type V = AssignmentView;

    open spec fn view(&self) -> AssignmentView {
        assignment_view(*self)
    }
}

/// The view of `Update`.
#[verifier::ext_equal]
pub struct UpdateView {
    pub table: Seq<char>,
    pub alias: Option<Seq<char>>,
    pub assignments: Seq<AssignmentView>,
    pub where_clause: Option<ExprView>,
}

/// The view of a value.
pub open spec fn update_view(x: Update) -> UpdateView
{
    UpdateView {
        table: x.table@,
        alias: match x.alias { Some(v) => Some(v@), None => None },
        assignments: Seq::new(
            x.assignments@.len(),
            |i: int|
                if 0 <= i < x.assignments@.len() {
                    assignment_view(x.assignments@[i])
                } else {
                    arbitrary()
                },
        ),
        where_clause: match x.where_clause { Some(v) => Some(expr_view(v)), None => None },
    }
}

impl View for Update {
    type V = UpdateView;

    open spec fn view(&self) -> UpdateView {
        update_view(*self)
    }
}

/// The view of `Delete`.
#[verifier::ext_equal]
pub struct DeleteView {
    pub table: Seq<char>,
    pub alias: Option<Seq<char>>,
    pub where_clause: Option<ExprView>,
}

/// The view of a value.
pub open spec fn delete_view(x: Delete) -> DeleteView
{
    DeleteView {
        table: x.table@,
        alias: match x.alias { Some(v) => Some(v@), None => None },
        where_clause: match x.where_clause { Some(v) => Some(expr_view(v)), None => None },
    }
}

impl View for Delete {
    type V = DeleteView;

    open spec fn view(&self) -> DeleteView {
        delete_view(*self)
    }
}

/// The view of `Statement`.
#[verifier::ext_equal]
pub enum StatementView {
    CreateTable(CreateTableView),
    DropTable(DropTableView),
    Select(SelectView),
    Insert(InsertView),
    Update(UpdateView),
    Delete(DeleteView),
    Begin,
    Commit,
    Rollback,
    ShowTables,
    Describe(Seq<char>),
}

/// The view of a value.
pub open spec fn statement_view(x: Statement) -> StatementView
{
    match x {
        Statement::CreateTable(a) => StatementView::CreateTable(create_table_view(a)),
        Statement::DropTable(a) => StatementView::DropTable(drop_table_view(a)),
        Statement::Select(a) => StatementView::Select(select_view(a)),
        Statement::Insert(a) => StatementView::Insert(insert_view(a)),
        Statement::Update(a) => StatementView::Update(update_view(a)),
        Statement::Delete(a) => StatementView::Delete(delete_view(a)),
        Statement::Begin => StatementView::Begin,
        Statement::Commit => StatementView::Commit,
        Statement::Rollback => StatementView::Rollback,
        Statement::ShowTables => StatementView::ShowTables,
        Statement::Describe(a) => StatementView::Describe(a@),
    }
}

impl View for Statement {
    type V = StatementView;

    open spec fn view(&self) -> StatementView {
        statement_view(*self)
    }
}

} // verus!
