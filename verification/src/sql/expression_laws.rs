//! Laws of expressions: what an expression of the SQL parser is read as, and how an
//! expression is written.

use super::ast::{
    BinaryOperator, ExprView, FunctionArgsView, LiteralValueView, UnaryOperator,
};
use super::error::ParseErrorView;
use super::meaning;
use super::raw::{
    RawArgumentsView, RawExprView, RawFunctionArgView, RawFunctionView, RawNameView,
    RawValueView,
};
use super::text;
use vstd::prelude::*;

verus! {

/// Each binary operator is read from its own name and from no other, and has the sign
/// that SQL has for it. Any other name is refused.
pub proof fn lemma_binary_operator(s: Seq<char>)
    ensures
        meaning::binary_op(s) == Ok::<BinaryOperator, ParseErrorView>(BinaryOperator::Eq) <==> s
            == "Eq"@,
        meaning::binary_op(s) == Ok::<BinaryOperator, ParseErrorView>(BinaryOperator::NotEq) <==> s
            == "NotEq"@,
        meaning::binary_op(s) == Ok::<BinaryOperator, ParseErrorView>(BinaryOperator::Lt) <==> s
            == "Lt"@,
        meaning::binary_op(s) == Ok::<BinaryOperator, ParseErrorView>(BinaryOperator::LtEq) <==> s
            == "LtEq"@,
        meaning::binary_op(s) == Ok::<BinaryOperator, ParseErrorView>(BinaryOperator::Gt) <==> s
            == "Gt"@,
        meaning::binary_op(s) == Ok::<BinaryOperator, ParseErrorView>(BinaryOperator::GtEq) <==> s
            == "GtEq"@,
        meaning::binary_op(s) == Ok::<BinaryOperator, ParseErrorView>(BinaryOperator::And) <==> s
            == "And"@,
        meaning::binary_op(s) == Ok::<BinaryOperator, ParseErrorView>(BinaryOperator::Or) <==> s
            == "Or"@,
        meaning::binary_op(s) == Ok::<BinaryOperator, ParseErrorView>(BinaryOperator::Plus) <==> s
            == "Plus"@,
        meaning::binary_op(s) == Ok::<BinaryOperator, ParseErrorView>(BinaryOperator::Minus) <==> s
            == "Minus"@,
        meaning::binary_op(s) == Ok::<BinaryOperator, ParseErrorView>(BinaryOperator::Multiply)
            <==> s
            == "Multiply"@,
        meaning::binary_op(s) == Ok::<BinaryOperator, ParseErrorView>(BinaryOperator::Divide) <==> s
            == "Divide"@,
        meaning::binary_op(s) == Ok::<BinaryOperator, ParseErrorView>(BinaryOperator::Modulo) <==> s
            == "Modulo"@,
        meaning::binary_op(s) == Ok::<BinaryOperator, ParseErrorView>(BinaryOperator::Concat) <==> s
            == "StringConcat"@,
        s == "Eq"@ ==> meaning::binary_op(s)->Ok_0.sign() == "="@,
        s == "NotEq"@ ==> meaning::binary_op(s)->Ok_0.sign() == "<>"@,
        s == "Lt"@ ==> meaning::binary_op(s)->Ok_0.sign() == "<"@,
        s == "LtEq"@ ==> meaning::binary_op(s)->Ok_0.sign() == "<="@,
        s == "Gt"@ ==> meaning::binary_op(s)->Ok_0.sign() == ">"@,
        s == "GtEq"@ ==> meaning::binary_op(s)->Ok_0.sign() == ">="@,
        s == "And"@ ==> meaning::binary_op(s)->Ok_0.sign() == "AND"@,
        s == "Or"@ ==> meaning::binary_op(s)->Ok_0.sign() == "OR"@,
        s == "Plus"@ ==> meaning::binary_op(s)->Ok_0.sign() == "+"@,
        s == "Minus"@ ==> meaning::binary_op(s)->Ok_0.sign() == "-"@,
        s == "Multiply"@ ==> meaning::binary_op(s)->Ok_0.sign() == "*"@,
        s == "Divide"@ ==> meaning::binary_op(s)->Ok_0.sign() == "/"@,
        s == "Modulo"@ ==> meaning::binary_op(s)->Ok_0.sign() == "%"@,
        s == "StringConcat"@ ==> meaning::binary_op(s)->Ok_0.sign() == "||"@,
        meaning::binary_op(s) matches Err(e) ==> e == ParseErrorView::UnsupportedExpression(
            "Unsupported operator: "@ + s,
        ),
{
    reveal_strlit("Eq");
    reveal_strlit("NotEq");
    reveal_strlit("Lt");
    reveal_strlit("LtEq");
    reveal_strlit("Gt");
    reveal_strlit("GtEq");
    reveal_strlit("And");
    reveal_strlit("Or");
    reveal_strlit("Plus");
    reveal_strlit("Minus");
    reveal_strlit("Multiply");
    reveal_strlit("Divide");
    reveal_strlit("Modulo");
    reveal_strlit("StringConcat");
    assert("Eq"@.len() == 2);
    assert("NotEq"@.len() == 5);
    assert("Lt"@.len() == 2);
    assert("LtEq"@.len() == 4);
    assert("Gt"@.len() == 2);
    assert("GtEq"@.len() == 4);
    assert("And"@.len() == 3);
    assert("Or"@.len() == 2);
    assert("Plus"@.len() == 4);
    assert("Minus"@.len() == 5);
    assert("Multiply"@.len() == 8);
    assert("Divide"@.len() == 6);
    assert("Modulo"@.len() == 6);
    assert("StringConcat"@.len() == 12);
    assert("Eq"@[0] == 'E');
    assert("Lt"@[0] == 'L');
    assert("Gt"@[0] == 'G');
    assert("Or"@[0] == 'O');
    assert("NotEq"@[0] == 'N');
    assert("Minus"@[0] == 'M');
    assert("LtEq"@[0] == 'L');
    assert("GtEq"@[0] == 'G');
    assert("Plus"@[0] == 'P');
    assert("Divide"@[0] == 'D');
    assert("Modulo"@[0] == 'M');
}

/// How the binary operators are written.
pub proof fn lemma_binary_sign(o: BinaryOperator)
    ensures
        o is Eq <==> o.sign() == "="@,
        o is NotEq <==> o.sign() == "<>"@,
        o is Lt <==> o.sign() == "<"@,
        o is LtEq <==> o.sign() == "<="@,
        o is Gt <==> o.sign() == ">"@,
        o is GtEq <==> o.sign() == ">="@,
        o is And <==> o.sign() == "AND"@,
        o is Or <==> o.sign() == "OR"@,
        o is Plus <==> o.sign() == "+"@,
        o is Minus <==> o.sign() == "-"@,
        o is Multiply <==> o.sign() == "*"@,
        o is Divide <==> o.sign() == "/"@,
        o is Modulo <==> o.sign() == "%"@,
        o is Concat <==> o.sign() == "||"@,
{
    reveal_strlit("=");
    reveal_strlit("<>");
    reveal_strlit("<");
    reveal_strlit("<=");
    reveal_strlit(">");
    reveal_strlit(">=");
    reveal_strlit("AND");
    reveal_strlit("OR");
    reveal_strlit("+");
    reveal_strlit("-");
    reveal_strlit("*");
    reveal_strlit("/");
    reveal_strlit("%");
    reveal_strlit("||");
    assert("="@.len() == 1);
    assert("<>"@.len() == 2);
    assert("<"@.len() == 1);
    assert("<="@.len() == 2);
    assert(">"@.len() == 1);
    assert(">="@.len() == 2);
    assert("AND"@.len() == 3);
    assert("OR"@.len() == 2);
    assert("+"@.len() == 1);
    assert("-"@.len() == 1);
    assert("*"@.len() == 1);
    assert("/"@.len() == 1);
    assert("%"@.len() == 1);
    assert("||"@.len() == 2);
    assert("="@[0] == '=');
    assert("<"@[0] == '<');
    assert(">"@[0] == '>');
    assert("+"@[0] == '+');
    assert("-"@[0] == '-');
    assert("*"@[0] == '*');
    assert("/"@[0] == '/');
    assert("%"@[0] == '%');
    assert("<>"@[1] == '>');
    assert("<="@[1] == '=');
    assert("<>"@[0] == '<');
    assert(">="@[0] == '>');
    assert("OR"@[0] == 'O');
    assert("||"@[0] == '|');
    assert("<="@[0] == '<');
}

/// Each unary operator is read from its own name and from no other. Any other name is
/// refused.
pub proof fn lemma_unary_operator(s: Seq<char>)
    ensures
        meaning::unary_op(s) == Ok::<UnaryOperator, ParseErrorView>(UnaryOperator::Not) <==> s
            == "Not"@,
        s == "Not"@ ==> meaning::unary_op(s)->Ok_0.sign() == "NOT "@,
        meaning::unary_op(s) == Ok::<UnaryOperator, ParseErrorView>(UnaryOperator::Minus) <==> s
            == "Minus"@,
        s == "Minus"@ ==> meaning::unary_op(s)->Ok_0.sign() == "-"@,
        meaning::unary_op(s) == Ok::<UnaryOperator, ParseErrorView>(UnaryOperator::Plus) <==> s
            == "Plus"@,
        s == "Plus"@ ==> meaning::unary_op(s)->Ok_0.sign() == "+"@,
        meaning::unary_op(s) matches Err(e) ==> e == ParseErrorView::UnsupportedExpression(
            "Unsupported unary operator: "@ + s,
        ),
{
    reveal_strlit("Not");
    reveal_strlit("Minus");
    reveal_strlit("Plus");
    assert("Not"@.len() == 3);
    assert("Minus"@.len() == 5);
    assert("Plus"@.len() == 4);
}

/// How the unary operators are written.
pub proof fn lemma_unary_sign(o: UnaryOperator)
    ensures
        o is Not <==> o.sign() == "NOT "@,
        o is Minus <==> o.sign() == "-"@,
        o is Plus <==> o.sign() == "+"@,
{
    reveal_strlit("NOT ");
    reveal_strlit("-");
    reveal_strlit("+");
    assert("NOT "@.len() == 4);
    assert("-"@.len() == 1);
    assert("+"@.len() == 1);
    assert("-"@[0] == '-');
    assert("+"@[0] == '+');
}

/// The comparison that holds in reverse order: `a < b` exactly if `b > a`.
pub proof fn lemma_flipped(o: BinaryOperator)
    ensures
        o is Eq <==> o.flipped() == Some(BinaryOperator::Eq),
        o is NotEq <==> o.flipped() == Some(BinaryOperator::NotEq),
        o is Lt <==> o.flipped() == Some(BinaryOperator::Gt),
        o is Gt <==> o.flipped() == Some(BinaryOperator::Lt),
        o is LtEq <==> o.flipped() == Some(BinaryOperator::GtEq),
        o is GtEq <==> o.flipped() == Some(BinaryOperator::LtEq),
{
}

/// Whether a comparison holds of two numbers.
pub open spec fn holds(o: BinaryOperator, a: int, b: int) -> bool {
    match o {
        BinaryOperator::Eq => a == b,
        BinaryOperator::NotEq => a != b,
        BinaryOperator::Lt => a < b,
        BinaryOperator::LtEq => a <= b,
        BinaryOperator::Gt => a > b,
        BinaryOperator::GtEq => a >= b,
        _ => false,
    }
}

/// A comparison holds of two numbers where the flipped one holds of them in reverse
/// order.
pub proof fn lemma_flipped_holds(o: BinaryOperator, a: int, b: int)
    ensures
        o.flipped() matches Some(f) ==> holds(o, a, b) == holds(f, b, a),
{
}

/// What a literal is read as: null, truth values and strings as they are, a number as
/// the integer that its text stands for if that fits in 64 bits.
pub proof fn lemma_literal(v: RawValueView, x: LiteralValueView)
    ensures
        v is Null ==> (meaning::value(v) == Ok::<LiteralValueView, ParseErrorView>(x)
            <==> x is Null),
        v matches RawValueView::Boolean(b) ==> (meaning::value(v) == Ok::<
            LiteralValueView,
            ParseErrorView,
        >(x) <==> x == LiteralValueView::Boolean(b)),
        v matches RawValueView::SingleQuoted(s) ==> (meaning::value(v) == Ok::<
            LiteralValueView,
            ParseErrorView,
        >(x) <==> x == LiteralValueView::String(s)),
        v matches RawValueView::DoubleQuoted(s) ==> (meaning::value(v) == Ok::<
            LiteralValueView,
            ParseErrorView,
        >(x) <==> x == LiteralValueView::String(s)),
        v is Other ==> meaning::value(v) is Err,
{
}

/// What a number is read as: the integer that its text stands for if that fits in 64
/// bits, and a floating point number otherwise.
pub proof fn lemma_number(s: Seq<char>, x: LiteralValueView)
    ensures
        (exists|n: i64| text::integer_of(s) == Some(n as int)) ==> (meaning::value(
            RawValueView::Number(s),
        ) == Ok::<LiteralValueView, ParseErrorView>(x) <==> (x matches LiteralValueView::Integer(n)
            && text::integer_of(s) == Some(n as int))),
        (forall|n: i64| text::integer_of(s) != Some(n as int)) ==> (meaning::value(
            RawValueView::Number(s),
        ) == Ok::<LiteralValueView, ParseErrorView>(x) <==> text::is_float(s) && x
            == LiteralValueView::Float(s)),
{
    if let Some(n) = text::integer_of(s) {
        if i64::MIN <= n <= i64::MAX {
            let m = n as i64;
            assert(text::integer_of(s) == Some(m as int));
        }
    }
}

/// An identifier is a column, of no table in particular.
pub proof fn lemma_identifier(
    s: Seq<char>,
    v: ExprView,
)
    ensures
        meaning::expr(RawExprView::Identifier(s)) == Ok::<ExprView, ParseErrorView>(v)
            <==> v == (ExprView::Column { table: None, name: s }),
{
}

/// A name of two parts is a column of a table; names of any other length are refused.
pub proof fn lemma_compound_identifier(
    parts: Seq<Seq<char>>,
    debug: Seq<char>,
    v: ExprView,
)
    ensures
        meaning::expr(RawExprView::CompoundIdentifier { parts, debug }) == Ok::<ExprView,
            ParseErrorView>(v) <==> parts.len() == 2
            && v == (ExprView::Column { table: Some(parts[0]), name: parts[1] }),
{
}

/// A literal is the literal that it is read as.
pub proof fn lemma_value_expr(
    x: RawValueView,
    v: ExprView,
)
    ensures
        meaning::expr(RawExprView::Value(x)) == Ok::<ExprView, ParseErrorView>(v)
            <==> (v matches ExprView::Literal(y)
            && meaning::value(x) == Ok::<LiteralValueView, ParseErrorView>(y)),
{
}

/// An operator between two operands: the left operand stays left, the right one right.
pub proof fn lemma_binary_expr(
    left: RawExprView,
    op: Seq<char>,
    right: RawExprView,
    v: ExprView,
)
    ensures
        meaning::expr(RawExprView::BinaryOp { left: Box::new(left), op,
            right: Box::new(right) }) == Ok::<ExprView, ParseErrorView>(v)
            <==> (v matches ExprView::BinaryOp { left: l, op: o, right: r }
            && meaning::expr(left) == Ok::<ExprView, ParseErrorView>(*l)
            && meaning::binary_op(op) == Ok::<BinaryOperator, ParseErrorView>(o)
            && meaning::expr(right) == Ok::<ExprView, ParseErrorView>(*r)),
{
}

/// An operator before its operand.
pub proof fn lemma_unary_expr(
    op: Seq<char>,
    e: RawExprView,
    v: ExprView,
)
    ensures
        meaning::expr(RawExprView::UnaryOp { op, expr: Box::new(e) }) == Ok::<ExprView,
            ParseErrorView>(v) <==> (v matches ExprView::UnaryOp { op: o, expr: x }
            && meaning::unary_op(op) == Ok::<UnaryOperator, ParseErrorView>(o)
            && meaning::expr(e) == Ok::<ExprView, ParseErrorView>(*x)),
{
}

/// `e IS NULL`.
pub proof fn lemma_is_null(
    e: RawExprView,
    v: ExprView,
)
    ensures
        meaning::expr(RawExprView::IsNull(Box::new(e))) == Ok::<ExprView, ParseErrorView>(v)
            <==> (v matches ExprView::IsNull { expr: x, negated: n } && !n
            && meaning::expr(e) == Ok::<ExprView, ParseErrorView>(*x)),
{
}

/// `e IS NOT NULL`.
pub proof fn lemma_is_not_null(
    e: RawExprView,
    v: ExprView,
)
    ensures
        meaning::expr(RawExprView::IsNotNull(Box::new(e))) == Ok::<ExprView, ParseErrorView>(v)
            <==> (v matches ExprView::IsNull { expr: x, negated: n } && n
            && meaning::expr(e) == Ok::<ExprView, ParseErrorView>(*x)),
{
}

/// `e IN (..)` or `e NOT IN (..)`.
pub proof fn lemma_in_list(
    e: RawExprView,
    list: Seq<RawExprView>,
    negated: bool,
    v: ExprView,
)
    ensures
        meaning::expr(RawExprView::InList { expr: Box::new(e), list, negated }) == Ok::<ExprView,
            ParseErrorView>(v) <==> (v matches ExprView::InList { expr: x, list: l, negated: n }
            && n == negated && meaning::expr(e) == Ok::<ExprView, ParseErrorView>(*x)
            && meaning::exprs(list) == Ok::<Seq<ExprView>, ParseErrorView>(l)),
{
}

/// `e BETWEEN low AND high` or `e NOT BETWEEN low AND high`.
pub proof fn lemma_between(
    e: RawExprView,
    low: RawExprView,
    high: RawExprView,
    negated: bool,
    v: ExprView,
)
    ensures
        meaning::expr(RawExprView::Between { expr: Box::new(e), low: Box::new(low),
            high: Box::new(high), negated }) == Ok::<ExprView, ParseErrorView>(v)
            <==> (v matches ExprView::Between { expr: x, low: l, high: h, negated: n }
            && n == negated && meaning::expr(e) == Ok::<ExprView, ParseErrorView>(*x)
            && meaning::expr(low) == Ok::<ExprView, ParseErrorView>(*l)
            && meaning::expr(high) == Ok::<ExprView, ParseErrorView>(*h)),
{
}

/// `e LIKE 'p'`, `e ILIKE 'p'` and their negations; `ANY` and `ESCAPE` are refused, and so is a
/// pattern that is no string.
pub proof fn lemma_like(
    e: RawExprView,
    pattern: RawExprView,
    negated: bool,
    any: bool,
    escape: bool,
    case_insensitive: bool,
    v: ExprView,
)
    ensures
        meaning::expr(RawExprView::Like { expr: Box::new(e), pattern: Box::new(pattern), negated,
            any, escape, case_insensitive }) == Ok::<ExprView, ParseErrorView>(v)
            <==> (v matches ExprView::Like { expr: x, pattern: p, negated: n, case_insensitive: c }
            && !any && !escape && n == negated && c == case_insensitive
            && meaning::expr(e) == Ok::<ExprView, ParseErrorView>(*x)
            && (pattern == RawExprView::Value(RawValueView::SingleQuoted(p))
            || pattern == RawExprView::Value(RawValueView::DoubleQuoted(p)))),
{
    let r = RawExprView::Like {
        expr: Box::new(e),
        pattern: Box::new(pattern),
        negated,
        any,
        escape,
        case_insensitive,
    };
    assert(meaning::expr(r) == meaning::like(e, pattern, negated, any, escape, case_insensitive));
}

/// An expression in brackets.
pub proof fn lemma_nested(
    e: RawExprView,
    v: ExprView,
)
    ensures
        meaning::expr(RawExprView::Nested(Box::new(e))) == Ok::<ExprView, ParseErrorView>(v)
            <==> (v matches ExprView::Nested(x)
            && meaning::expr(e) == Ok::<ExprView, ParseErrorView>(*x)),
{
}

/// A function call: the function is called by its own name on its arguments. Windows, filters and
/// parameters are refused.
pub proof fn lemma_call(
    f: RawFunctionView,
    v: ExprView,
)
    ensures
        meaning::expr(RawExprView::Function(f)) == Ok::<ExprView, ParseErrorView>(v)
            <==> (v matches ExprView::Function { name: n, args: a }
            && meaning::table_name(f.name) == Ok::<Seq<char>, ParseErrorView>(n) && !f.over
            && !f.filter && f.within_group == 0 && !f.null_treatment && !f.parametric
            && meaning::arguments(f.args, n) == Ok::<FunctionArgsView, ParseErrorView>(a)),
{
    assert(meaning::expr(RawExprView::Function(f)) == meaning::function(f));
}

/// Any other expression is refused with its text.
pub proof fn lemma_other_expr(s: Seq<char>)
    ensures
        meaning::expr(RawExprView::Other(s)) == Err::<ExprView, ParseErrorView>(
            ParseErrorView::UnsupportedExpression(s),
        ),
{
}

/// The arguments of a function. A sole `*` that is not to be distinct stands for all
/// rows; no other `*` is taken.
pub proof fn lemma_arguments(a: RawArgumentsView, name: Seq<char>, v: FunctionArgsView)
    ensures
        a is Absent ==> (meaning::arguments(a, name) == Ok::<FunctionArgsView, ParseErrorView>(v)
            <==> v == (FunctionArgsView::List { args: Seq::empty(), distinct: false })),
        a is Subquery ==> meaning::arguments(a, name) is Err,
        a matches RawArgumentsView::List { clauses, distinct, args } ==> (meaning::arguments(
            a,
            name,
        ) == Ok::<FunctionArgsView, ParseErrorView>(v) <==> clauses == 0 && (if args.len() == 1
            && args[0] is Wildcard && !distinct {
            v is Star
        } else {
            v matches FunctionArgsView::List { args: xs, distinct: d } && d == distinct
                && meaning::argument_list(args) == Ok::<Seq<ExprView>, ParseErrorView>(xs)
        })),
{
}

/// An argument of a function: an expression, and nothing else.
pub proof fn lemma_argument(a: RawFunctionArgView, v: ExprView)
    ensures
        meaning::argument(a) == Ok::<ExprView, ParseErrorView>(v) <==> (
        a matches RawFunctionArgView::Expr(e) && meaning::expr(e) == Ok::<ExprView, ParseErrorView>(
            v,
        )),
{
}

/// The name that a qualified name ends in.
pub proof fn lemma_last_part(n: RawNameView, v: Seq<char>)
    ensures
        meaning::table_name(n) == Ok::<Seq<char>, ParseErrorView>(v) <==> n.parts.len() > 0 && v
            == (match n.parts[n.parts.len() - 1].ident {
            Some(s) => s,
            None => n.parts[n.parts.len() - 1].text,
        }),
{
}

/// Expressions are read one by one, in their order.
pub proof fn lemma_exprs(s: Seq<RawExprView>, v: Seq<ExprView>)
    ensures
        meaning::exprs(s) == Ok::<Seq<ExprView>, ParseErrorView>(v)
            <==> v.len() == s.len() && forall|i: int|
            0 <= i < s.len() ==> meaning::expr(#[trigger] s[i]) == Ok::<ExprView,
                ParseErrorView>(v[i]),
    decreases s.len(),
{
    if s.len() > 0 {
        let rest = s.skip(1);
        let tail = v.skip(1);
        if v.len() > 0 {
            lemma_exprs(rest, tail);
        }
        if let Ok(x) = meaning::expr(s[0]) {
            if let Ok(w) = meaning::exprs(rest) {
                lemma_exprs(rest, w);
                assert((seq![x] + w).skip(1) =~= w);
                assert forall|i: int| 0 <= i < s.len() implies meaning::expr(#[trigger] s[i])
                    == Ok::<
                    ExprView,
                    ParseErrorView,
                >((seq![x] + w)[i]) by {
                    if i > 0 {
                        assert(rest[i - 1] == s[i]);
                    }
                }
            }
        }
        if v.len() == s.len() && (forall|i: int|
            0 <= i < s.len() ==> meaning::expr(#[trigger] s[i]) == Ok::<ExprView,
                ParseErrorView>(v[i])) {
            assert forall|i: int| 0 <= i < rest.len() implies meaning::expr(#[trigger] rest[i])
                == Ok::<
                ExprView,
                ParseErrorView,
            >(tail[i]) by {
                assert(rest[i] == s[i + 1]);
            }
            assert(meaning::expr(s[0]) == Ok::<ExprView, ParseErrorView>(v[0]));
            assert(seq![v[0]] + tail =~= v);
        }
    } else {
        assert(v.len() == 0 ==> v =~= Seq::empty());
    }
}

/// Arguments are read one by one, in their order.
pub proof fn lemma_argument_list(s: Seq<RawFunctionArgView>, v: Seq<ExprView>)
    ensures
        meaning::argument_list(s) == Ok::<Seq<ExprView>, ParseErrorView>(v)
            <==> v.len() == s.len() && forall|i: int|
            0 <= i < s.len() ==> meaning::argument(#[trigger] s[i]) == Ok::<ExprView,
                ParseErrorView>(v[i]),
    decreases s.len(),
{
    if s.len() > 0 {
        let rest = s.skip(1);
        let tail = v.skip(1);
        if v.len() > 0 {
            lemma_argument_list(rest, tail);
        }
        if let Ok(x) = meaning::argument(s[0]) {
            if let Ok(w) = meaning::argument_list(rest) {
                lemma_argument_list(rest, w);
                assert((seq![x] + w).skip(1) =~= w);
                assert forall|i: int| 0 <= i < s.len() implies meaning::argument(#[trigger] s[i])
                    == Ok::<
                    ExprView,
                    ParseErrorView,
                >((seq![x] + w)[i]) by {
                    if i > 0 {
                        assert(rest[i - 1] == s[i]);
                    }
                }
            }
        }
        if v.len() == s.len() && (forall|i: int|
            0 <= i < s.len() ==> meaning::argument(#[trigger] s[i]) == Ok::<ExprView,
                ParseErrorView>(v[i])) {
            assert forall|i: int| 0 <= i < rest.len() implies meaning::argument(#[trigger] rest[i])
                == Ok::<
                ExprView,
                ParseErrorView,
            >(tail[i]) by {
                assert(rest[i] == s[i + 1]);
            }
            assert(meaning::argument(s[0]) == Ok::<ExprView, ParseErrorView>(v[0]));
            assert(seq![v[0]] + tail =~= v);
        }
    } else {
        assert(v.len() == 0 ==> v =~= Seq::empty());
    }
}

/// Rows are read one by one, in their order.
pub proof fn lemma_rows(s: Seq<Seq<RawExprView>>, v: Seq<Seq<ExprView>>)
    ensures
        meaning::rows(s) == Ok::<Seq<Seq<ExprView>>, ParseErrorView>(v)
            <==> v.len() == s.len() && forall|i: int|
            0 <= i < s.len() ==> meaning::exprs(#[trigger] s[i]) == Ok::<Seq<ExprView>,
                ParseErrorView>(v[i]),
    decreases s.len(),
{
    if s.len() > 0 {
        let rest = s.skip(1);
        let tail = v.skip(1);
        if v.len() > 0 {
            lemma_rows(rest, tail);
        }
        if let Ok(x) = meaning::exprs(s[0]) {
            if let Ok(w) = meaning::rows(rest) {
                lemma_rows(rest, w);
                assert((seq![x] + w).skip(1) =~= w);
                assert forall|i: int| 0 <= i < s.len() implies meaning::exprs(#[trigger] s[i])
                    == Ok::<
                    Seq<ExprView>,
                    ParseErrorView,
                >((seq![x] + w)[i]) by {
                    if i > 0 {
                        assert(rest[i - 1] == s[i]);
                    }
                }
            }
        }
        if v.len() == s.len() && (forall|i: int|
            0 <= i < s.len() ==> meaning::exprs(#[trigger] s[i]) == Ok::<Seq<ExprView>,
                ParseErrorView>(v[i])) {
            assert forall|i: int| 0 <= i < rest.len() implies meaning::exprs(#[trigger] rest[i])
                == Ok::<
                Seq<ExprView>,
                ParseErrorView,
            >(tail[i]) by {
                assert(rest[i] == s[i + 1]);
            }
            assert(meaning::exprs(s[0]) == Ok::<Seq<ExprView>, ParseErrorView>(v[0]));
            assert(seq![v[0]] + tail =~= v);
        }
    } else {
        assert(v.len() == 0 ==> v =~= Seq::empty());
    }
}

/// The error of an operator between two operands is the first of the left operand, the
/// right operand and the operator.
pub proof fn lemma_binary_error(left: RawExprView, op: Seq<char>, right: RawExprView,
    e: ParseErrorView)
    ensures
        meaning::expr(
            RawExprView::BinaryOp { left: Box::new(left), op, right: Box::new(right) },
        ) == Err::<ExprView, ParseErrorView>(e) <==> {
            ||| meaning::expr(left) == Err::<ExprView, ParseErrorView>(e)
            ||| meaning::expr(left) is Ok && meaning::expr(right) == Err::<ExprView,
                ParseErrorView>(e)
            ||| meaning::expr(left) is Ok && meaning::expr(right) is Ok && meaning::binary_op(op)
                == Err::<BinaryOperator, ParseErrorView>(e)
        },
{
}

/// How an expression is written, by its parts.
pub proof fn lemma_written(l: ExprView, o: BinaryOperator, r: ExprView, u: UnaryOperator)
    ensures
        super::ast::expr_text(ExprView::BinaryOp { left: Box::new(l), op: o, right: Box::new(r) })
            == super::ast::expr_text(l) + " "@ + o.sign() + " "@ + super::ast::expr_text(r),
        super::ast::expr_text(ExprView::UnaryOp { op: u, expr: Box::new(l) }) == u.sign()
            + super::ast::expr_text(l),
        super::ast::expr_text(ExprView::IsNull { expr: Box::new(l),
            negated: false }) == super::ast::expr_text(l)
            + " IS NULL"@,
        super::ast::expr_text(ExprView::IsNull { expr: Box::new(l),
            negated: true }) == super::ast::expr_text(l)
            + " IS NOT NULL"@,
        super::ast::expr_text(ExprView::Nested(Box::new(l)))
            == "("@ + super::ast::expr_text(l) + ")"@,
{
}

/// How ranges and patterns are written.
pub proof fn lemma_written_tests(l: ExprView, a: ExprView, b: ExprView, p: Seq<char>)
    ensures
        super::ast::expr_text(
            ExprView::Between {
                expr: Box::new(l),
                low: Box::new(a),
                high: Box::new(b),
                negated: false,
            },
        ) =~= super::ast::expr_text(l) + " BETWEEN "@ + super::ast::expr_text(
            a) + " AND "@ + super::ast::expr_text(b),
        super::ast::expr_text(
            ExprView::Between {
                expr: Box::new(l),
                low: Box::new(a),
                high: Box::new(b),
                negated: true,
            },
        ) =~= super::ast::expr_text(l) + " NOT BETWEEN "@ + super::ast::expr_text(a) + " AND "@
            + super::ast::expr_text(b),
        super::ast::expr_text(
            ExprView::Like {
                expr: Box::new(l),
                pattern: p,
                negated: false,
                case_insensitive: false,
            },
        ) =~= super::ast::expr_text(l) + " LIKE "@ + text::quoted(p),
        super::ast::expr_text(
            ExprView::Like {
                expr: Box::new(l),
                pattern: p,
                negated: true,
                case_insensitive: false,
            },
        ) =~= super::ast::expr_text(l) + " NOT LIKE "@ + text::quoted(p),
        super::ast::expr_text(
            ExprView::Like {
                expr: Box::new(l),
                pattern: p,
                negated: false,
                case_insensitive: true,
            },
        ) =~= super::ast::expr_text(l) + " ILIKE "@ + text::quoted(p),
        super::ast::expr_text(
            ExprView::Like {
                expr: Box::new(l),
                pattern: p,
                negated: true,
                case_insensitive: true,
            },
        ) =~= super::ast::expr_text(l) + " NOT ILIKE "@ + text::quoted(p),
{
    reveal_strlit(" BETWEEN ");
    reveal_strlit(" NOT BETWEEN ");
    reveal_strlit("BETWEEN ");
    reveal_strlit("NOT ");
    reveal_strlit(" ");
    reveal_strlit("");
    reveal_strlit(" LIKE ");
    reveal_strlit(" NOT LIKE ");
    reveal_strlit(" ILIKE ");
    reveal_strlit(" NOT ILIKE ");
    reveal_strlit("LIKE");
    reveal_strlit("ILIKE");
}

/// How columns, literals and calls are written.
pub proof fn lemma_written_leaves(
    t: Seq<char>,
    n: Seq<char>,
    i: i64,
    s: Seq<char>,
    l: ExprView,
    es: Seq<ExprView>,
)
    ensures
        super::ast::expr_text(ExprView::Column { table: None, name: n }) == n,
        super::ast::expr_text(ExprView::Column { table: Some(t), name: n }) == t + "."@ + n,
        super::ast::expr_text(ExprView::Literal(LiteralValueView::Null)) == "NULL"@,
        super::ast::expr_text(ExprView::Literal(LiteralValueView::Boolean(true))) == "TRUE"@,
        super::ast::expr_text(ExprView::Literal(LiteralValueView::Boolean(false))) == "FALSE"@,
        text::integer_of(super::ast::expr_text(ExprView::Literal(LiteralValueView::Integer(i))))
            == Some(
            i as int,
        ),
        super::ast::expr_text(ExprView::Literal(LiteralValueView::Float(s))) == s,
        super::ast::expr_text(ExprView::Literal(LiteralValueView::String(s))) == text::quoted(s),
        super::ast::expr_text(ExprView::Function { name: n, args: FunctionArgsView::Star })
            == text::uppercase(n) + "(*)"@,
        super::ast::expr_text(
            ExprView::Function { name: n, args: FunctionArgsView::List { args: es,
                distinct: false } },
        ) =~= text::uppercase(n) + "("@ + super::ast::list_text(es) + ")"@,
        super::ast::expr_text(
            ExprView::Function { name: n, args: FunctionArgsView::List { args: es,
                distinct: true } },
        ) =~= text::uppercase(n) + "(DISTINCT "@ + super::ast::list_text(es) + ")"@,
        super::ast::expr_text(ExprView::InList { expr: Box::new(l), list: es, negated: false })
            =~= super::ast::expr_text(l) + " IN ("@ + super::ast::list_text(es) + ")"@,
        super::ast::expr_text(ExprView::InList { expr: Box::new(l), list: es, negated: true })
            =~= super::ast::expr_text(l) + " NOT IN ("@ + super::ast::list_text(es) + ")"@,
        super::ast::list_text(Seq::empty()) =~= Seq::<char>::empty(),
        super::ast::list_text(seq![l]) == super::ast::expr_text(l),
        es.len() > 0 ==> super::ast::list_text(es.push(l)) =~= super::ast::list_text(es) + ", "@
            + super::ast::expr_text(l),
{
    reveal_strlit("");
    reveal_strlit("(");
    reveal_strlit("DISTINCT ");
    reveal_strlit("(DISTINCT ");
    reveal_strlit(" ");
    reveal_strlit("NOT ");
    reveal_strlit("IN (");
    reveal_strlit(" IN (");
    reveal_strlit(" NOT IN (");
    text::lemma_integer_text(i as int);
    reveal_with_fuel(super::ast::expr_text, 2);
    assert(seq![l].last() == l);
    assert(es.push(l).drop_last() =~= es);
    assert(es.push(l).last() == l);
}

/// The sign that SQL has for the operator with a name of the SQL parser.
pub open spec fn sign_named(s: Seq<char>) -> Seq<char> {
    if s == "And"@ {
        "AND"@
    } else if s == "Or"@ {
        "OR"@
    } else if s == "Eq"@ {
        "="@
    } else if s == "NotEq"@ {
        "<>"@
    } else if s == "Lt"@ {
        "<"@
    } else if s == "LtEq"@ {
        "<="@
    } else if s == "Gt"@ {
        ">"@
    } else if s == "GtEq"@ {
        ">="@
    } else if s == "Plus"@ {
        "+"@
    } else if s == "Minus"@ {
        "-"@
    } else if s == "Multiply"@ {
        "*"@
    } else if s == "Divide"@ {
        "/"@
    } else if s == "Modulo"@ {
        "%"@
    } else {
        "||"@
    }
}

/// The SQL text of a condition of the SQL parser: comparisons, arithmetic, `AND` and `OR`,
/// null tests and ranges over columns, strings and brackets.
pub open spec fn source_text(e: RawExprView) -> Seq<char>
    decreases e,
{
    match e {
        RawExprView::Identifier(s) => s,
        RawExprView::CompoundIdentifier { parts, debug: _ } => parts[0] + "."@ + parts[1],
        RawExprView::Value(RawValueView::SingleQuoted(s)) => text::quoted(s),
        RawExprView::Value(RawValueView::DoubleQuoted(s)) => text::quoted(s),
        RawExprView::Value(RawValueView::Null) => "NULL"@,
        RawExprView::Value(RawValueView::Boolean(b)) => if b {
            "TRUE"@
        } else {
            "FALSE"@
        },
        RawExprView::BinaryOp { left, op, right } => source_text(*left) + " "@ + sign_named(op)
            + " "@ + source_text(*right),
        RawExprView::UnaryOp { op, expr } => (if op == "Not"@ {
            "NOT "@
        } else if op == "Minus"@ {
            "-"@
        } else {
            "+"@
        }) + source_text(*expr),
        RawExprView::IsNull(x) => source_text(*x) + " IS NULL"@,
        RawExprView::IsNotNull(x) => source_text(*x) + " IS NOT NULL"@,
        RawExprView::Between { expr, low, high, negated } => source_text(*expr) + (if negated {
            " NOT BETWEEN "@
        } else {
            " BETWEEN "@
        }) + source_text(*low) + " AND "@ + source_text(*high),
        RawExprView::Nested(x) => "("@ + source_text(*x) + ")"@,
        _ => Seq::empty(),
    }
}

/// The expressions that `source_text` gives the text of.
pub open spec fn plain(e: RawExprView) -> bool
    decreases e,
{
    match e {
        RawExprView::Identifier(_) => true,
        RawExprView::CompoundIdentifier { parts: _, debug: _ } => true,
        RawExprView::Value(v) => !(v is Number),
        RawExprView::BinaryOp { left, op: _, right } => plain(*left) && plain(*right),
        RawExprView::UnaryOp { op: _, expr } => plain(*expr),
        RawExprView::IsNull(x) => plain(*x),
        RawExprView::IsNotNull(x) => plain(*x),
        RawExprView::Between { expr, low, high, negated: _ } => plain(*expr) && plain(*low)
            && plain(*high),
        RawExprView::Nested(x) => plain(*x),
        _ => false,
    }
}

/// Writing out what a condition is read as gives its text again.
pub proof fn lemma_text_again(e: RawExprView, v: ExprView)
    requires
        plain(e),
        meaning::expr(e) == Ok::<ExprView, ParseErrorView>(v),
    ensures
        super::ast::expr_text(v) == source_text(e),
    decreases e,
{
    match e {
        RawExprView::BinaryOp { left, op, right } => {
            lemma_binary_operator(op);
            lemma_text_again(*left, meaning::expr(*left)->Ok_0);
            lemma_text_again(*right, meaning::expr(*right)->Ok_0);
            reveal_strlit("Eq");
            reveal_strlit("NotEq");
            reveal_strlit("Lt");
            reveal_strlit("LtEq");
            reveal_strlit("Gt");
            reveal_strlit("GtEq");
            reveal_strlit("And");
            reveal_strlit("Or");
            reveal_strlit("Plus");
            reveal_strlit("Minus");
            reveal_strlit("Multiply");
            reveal_strlit("Divide");
            reveal_strlit("Modulo");
            reveal_strlit("StringConcat");
            assert("Eq"@.len() == 2);
            assert("NotEq"@.len() == 5);
            assert("Lt"@.len() == 2);
            assert("LtEq"@.len() == 4);
            assert("Gt"@.len() == 2);
            assert("GtEq"@.len() == 4);
            assert("And"@.len() == 3);
            assert("Or"@.len() == 2);
            assert("Plus"@.len() == 4);
            assert("Minus"@.len() == 5);
            assert("Multiply"@.len() == 8);
            assert("Divide"@.len() == 6);
            assert("Modulo"@.len() == 6);
            assert("StringConcat"@.len() == 12);
            assert("Eq"@[0] == 'E');
            assert("Lt"@[0] == 'L');
            assert("Gt"@[0] == 'G');
            assert("Or"@[0] == 'O');
            assert("NotEq"@[0] == 'N');
            assert("Minus"@[0] == 'M');
            assert("LtEq"@[0] == 'L');
            assert("GtEq"@[0] == 'G');
            assert("Plus"@[0] == 'P');
            assert("Divide"@[0] == 'D');
            assert("Modulo"@[0] == 'M');
        },
        RawExprView::UnaryOp { op, expr } => {
            lemma_unary_operator(op);
            lemma_text_again(*expr, meaning::expr(*expr)->Ok_0);
            reveal_strlit("Not");
            reveal_strlit("Minus");
            reveal_strlit("Plus");
        },
        RawExprView::IsNull(x) => lemma_text_again(*x, meaning::expr(*x)->Ok_0),
        RawExprView::IsNotNull(x) => lemma_text_again(*x, meaning::expr(*x)->Ok_0),
        RawExprView::Between { expr, low, high, negated } => {
            let a = meaning::expr(*expr)->Ok_0;
            let b = meaning::expr(*low)->Ok_0;
            let c = meaning::expr(*high)->Ok_0;
            lemma_text_again(*expr, a);
            lemma_text_again(*low, b);
            lemma_text_again(*high, c);
            lemma_written_tests(a, b, c, Seq::empty());
        },
        RawExprView::Nested(x) => lemma_text_again(*x, meaning::expr(*x)->Ok_0),
        _ => {},
    }
}

} // verus!
