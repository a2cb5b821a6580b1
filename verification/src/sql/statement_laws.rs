//! Laws of statements: what a statement of the SQL parser is read as, part by part.

use super::ast::{
    AssignmentView, ColumnConstraintView, ColumnDefView, CreateTableView, DeleteView,
    DropTableView, ExprView, InsertSourceView, InsertView, JoinType, JoinView, OrderByView,
    SelectColumnView, SelectView, SqlDataType, StatementView, TableRefView, UpdateView,
};
use super::error::ParseErrorView;
use super::meaning;
use super::raw::{
    RawAssignmentView, RawBodyView, RawColumnDefView, RawColumnOptionView, RawConstraintView,
    RawCountView, RawCreateTableView, RawDeleteView, RawDistinctView, RawExprView, RawFactorView,
    RawGroupByView, RawIndexColumnView, RawInsertView, RawJoinOperatorView, RawJoinView,
    RawLimitView, RawNameView, RawOrderByExprView, RawOrderByView, RawOrderView, RawQueryView,
    RawSelectItemView, RawStatementView, RawTableConstraintView, RawTableObjectView, RawTableView,
    RawTargetView, RawUpdateView,
};
use super::reader;
use super::text;
use vstd::prelude::*;

verus! {

/// Names are read one by one, in their order.
pub proof fn lemma_table_names(s: Seq<RawNameView>, v: Seq<Seq<char>>)
    ensures
        meaning::table_names(s) == Ok::<Seq<Seq<char>>, ParseErrorView>(v)
            <==> v.len() == s.len() && forall|i: int|
            0 <= i < s.len() ==> meaning::table_name(#[trigger] s[i]) == Ok::<Seq<char>,
                ParseErrorView>(v[i]),
    decreases s.len(),
{
    if s.len() > 0 {
        let rest = s.skip(1);
        let tail = v.skip(1);
        if v.len() > 0 {
            lemma_table_names(rest, tail);
        }
        if let Ok(x) = meaning::table_name(s[0]) {
            if let Ok(w) = meaning::table_names(rest) {
                lemma_table_names(rest, w);
                assert((seq![x] + w).skip(1) =~= w);
                assert forall|i: int| 0 <= i < s.len() implies meaning::table_name(#[trigger] s[i])
                    == Ok::<
                    Seq<char>,
                    ParseErrorView,
                >((seq![x] + w)[i]) by {
                    if i > 0 {
                        assert(rest[i - 1] == s[i]);
                    }
                }
            }
        }
        if v.len() == s.len() && (forall|i: int|
            0 <= i < s.len() ==> meaning::table_name(#[trigger] s[i]) == Ok::<Seq<char>,
                ParseErrorView>(v[i])) {
            assert forall|i: int| 0 <= i < rest.len() implies meaning::table_name(
                #[trigger] rest[i]) == Ok::<
                Seq<char>,
                ParseErrorView,
            >(tail[i]) by {
                assert(rest[i] == s[i + 1]);
            }
            assert(meaning::table_name(s[0]) == Ok::<Seq<char>, ParseErrorView>(v[0]));
            assert(seq![v[0]] + tail =~= v);
        }
    } else {
        assert(v.len() == 0 ==> v =~= Seq::empty());
    }
}

/// Joins are read one by one, in their order.
pub proof fn lemma_joins(s: Seq<RawJoinView>, v: Seq<JoinView>)
    ensures
        meaning::joins(s) == Ok::<Seq<JoinView>, ParseErrorView>(v)
            <==> v.len() == s.len() && forall|i: int|
            0 <= i < s.len() ==> meaning::join(#[trigger] s[i]) == Ok::<JoinView,
                ParseErrorView>(v[i]),
    decreases s.len(),
{
    if s.len() > 0 {
        let rest = s.skip(1);
        let tail = v.skip(1);
        if v.len() > 0 {
            lemma_joins(rest, tail);
        }
        if let Ok(x) = meaning::join(s[0]) {
            if let Ok(w) = meaning::joins(rest) {
                lemma_joins(rest, w);
                assert((seq![x] + w).skip(1) =~= w);
                assert forall|i: int| 0 <= i < s.len() implies meaning::join(#[trigger] s[i])
                    == Ok::<
                    JoinView,
                    ParseErrorView,
                >((seq![x] + w)[i]) by {
                    if i > 0 {
                        assert(rest[i - 1] == s[i]);
                    }
                }
            }
        }
        if v.len() == s.len() && (forall|i: int|
            0 <= i < s.len() ==> meaning::join(#[trigger] s[i]) == Ok::<JoinView,
                ParseErrorView>(v[i])) {
            assert forall|i: int| 0 <= i < rest.len() implies meaning::join(#[trigger] rest[i])
                == Ok::<
                JoinView,
                ParseErrorView,
            >(tail[i]) by {
                assert(rest[i] == s[i + 1]);
            }
            assert(meaning::join(s[0]) == Ok::<JoinView, ParseErrorView>(v[0]));
            assert(seq![v[0]] + tail =~= v);
        }
    } else {
        assert(v.len() == 0 ==> v =~= Seq::empty());
    }
}

/// The items of a projection are read one by one, in their order.
pub proof fn lemma_items(s: Seq<RawSelectItemView>, v: Seq<SelectColumnView>)
    ensures
        meaning::items(s) == Ok::<Seq<SelectColumnView>, ParseErrorView>(v)
            <==> v.len() == s.len() && forall|i: int|
            0 <= i < s.len() ==> meaning::item(#[trigger] s[i]) == Ok::<SelectColumnView,
                ParseErrorView>(v[i]),
    decreases s.len(),
{
    if s.len() > 0 {
        let rest = s.skip(1);
        let tail = v.skip(1);
        if v.len() > 0 {
            lemma_items(rest, tail);
        }
        if let Ok(x) = meaning::item(s[0]) {
            if let Ok(w) = meaning::items(rest) {
                lemma_items(rest, w);
                assert((seq![x] + w).skip(1) =~= w);
                assert forall|i: int| 0 <= i < s.len() implies meaning::item(#[trigger] s[i])
                    == Ok::<
                    SelectColumnView,
                    ParseErrorView,
                >((seq![x] + w)[i]) by {
                    if i > 0 {
                        assert(rest[i - 1] == s[i]);
                    }
                }
            }
        }
        if v.len() == s.len() && (forall|i: int|
            0 <= i < s.len() ==> meaning::item(#[trigger] s[i]) == Ok::<SelectColumnView,
                ParseErrorView>(v[i])) {
            assert forall|i: int| 0 <= i < rest.len() implies meaning::item(#[trigger] rest[i])
                == Ok::<
                SelectColumnView,
                ParseErrorView,
            >(tail[i]) by {
                assert(rest[i] == s[i + 1]);
            }
            assert(meaning::item(s[0]) == Ok::<SelectColumnView, ParseErrorView>(v[0]));
            assert(seq![v[0]] + tail =~= v);
        }
    } else {
        assert(v.len() == 0 ==> v =~= Seq::empty());
    }
}

/// The keys of an ordering are read one by one, in their order.
pub proof fn lemma_keys(s: Seq<RawOrderByExprView>, v: Seq<OrderByView>)
    ensures
        meaning::keys(s) == Ok::<Seq<OrderByView>, ParseErrorView>(v)
            <==> v.len() == s.len() && forall|i: int|
            0 <= i < s.len() ==> meaning::key(#[trigger] s[i]) == Ok::<OrderByView,
                ParseErrorView>(v[i]),
    decreases s.len(),
{
    if s.len() > 0 {
        let rest = s.skip(1);
        let tail = v.skip(1);
        if v.len() > 0 {
            lemma_keys(rest, tail);
        }
        if let Ok(x) = meaning::key(s[0]) {
            if let Ok(w) = meaning::keys(rest) {
                lemma_keys(rest, w);
                assert((seq![x] + w).skip(1) =~= w);
                assert forall|i: int| 0 <= i < s.len() implies meaning::key(#[trigger] s[i])
                    == Ok::<
                    OrderByView,
                    ParseErrorView,
                >((seq![x] + w)[i]) by {
                    if i > 0 {
                        assert(rest[i - 1] == s[i]);
                    }
                }
            }
        }
        if v.len() == s.len() && (forall|i: int|
            0 <= i < s.len() ==> meaning::key(#[trigger] s[i]) == Ok::<OrderByView,
                ParseErrorView>(v[i])) {
            assert forall|i: int| 0 <= i < rest.len() implies meaning::key(#[trigger] rest[i])
                == Ok::<
                OrderByView,
                ParseErrorView,
            >(tail[i]) by {
                assert(rest[i] == s[i + 1]);
            }
            assert(meaning::key(s[0]) == Ok::<OrderByView, ParseErrorView>(v[0]));
            assert(seq![v[0]] + tail =~= v);
        }
    } else {
        assert(v.len() == 0 ==> v =~= Seq::empty());
    }
}

/// The columns of a new table are read one by one, in their order.
pub proof fn lemma_columns(s: Seq<RawColumnDefView>, v: Seq<ColumnDefView>)
    ensures
        meaning::columns(s) == Ok::<Seq<ColumnDefView>, ParseErrorView>(v)
            <==> v.len() == s.len() && forall|i: int|
            0 <= i < s.len() ==> meaning::column(#[trigger] s[i]) == Ok::<ColumnDefView,
                ParseErrorView>(v[i]),
    decreases s.len(),
{
    if s.len() > 0 {
        let rest = s.skip(1);
        let tail = v.skip(1);
        if v.len() > 0 {
            lemma_columns(rest, tail);
        }
        if let Ok(x) = meaning::column(s[0]) {
            if let Ok(w) = meaning::columns(rest) {
                lemma_columns(rest, w);
                assert((seq![x] + w).skip(1) =~= w);
                assert forall|i: int| 0 <= i < s.len() implies meaning::column(#[trigger] s[i])
                    == Ok::<
                    ColumnDefView,
                    ParseErrorView,
                >((seq![x] + w)[i]) by {
                    if i > 0 {
                        assert(rest[i - 1] == s[i]);
                    }
                }
            }
        }
        if v.len() == s.len() && (forall|i: int|
            0 <= i < s.len() ==> meaning::column(#[trigger] s[i]) == Ok::<ColumnDefView,
                ParseErrorView>(v[i])) {
            assert forall|i: int| 0 <= i < rest.len() implies meaning::column(#[trigger] rest[i])
                == Ok::<
                ColumnDefView,
                ParseErrorView,
            >(tail[i]) by {
                assert(rest[i] == s[i + 1]);
            }
            assert(meaning::column(s[0]) == Ok::<ColumnDefView, ParseErrorView>(v[0]));
            assert(seq![v[0]] + tail =~= v);
        }
    } else {
        assert(v.len() == 0 ==> v =~= Seq::empty());
    }
}

/// Statements are read one by one, in their order.
pub proof fn lemma_statements(s: Seq<RawStatementView>, v: Seq<StatementView>)
    ensures
        meaning::statements(s) == Ok::<Seq<StatementView>, ParseErrorView>(v)
            <==> v.len() == s.len() && forall|i: int|
            0 <= i < s.len() ==> meaning::statement(#[trigger] s[i]) == Ok::<StatementView,
                ParseErrorView>(v[i]),
    decreases s.len(),
{
    if s.len() > 0 {
        let rest = s.skip(1);
        let tail = v.skip(1);
        if v.len() > 0 {
            lemma_statements(rest, tail);
        }
        if let Ok(x) = meaning::statement(s[0]) {
            if let Ok(w) = meaning::statements(rest) {
                lemma_statements(rest, w);
                assert((seq![x] + w).skip(1) =~= w);
                assert forall|i: int| 0 <= i < s.len() implies meaning::statement(#[trigger] s[i])
                    == Ok::<
                    StatementView,
                    ParseErrorView,
                >((seq![x] + w)[i]) by {
                    if i > 0 {
                        assert(rest[i - 1] == s[i]);
                    }
                }
            }
        }
        if v.len() == s.len() && (forall|i: int|
            0 <= i < s.len() ==> meaning::statement(#[trigger] s[i]) == Ok::<StatementView,
                ParseErrorView>(v[i])) {
            assert forall|i: int| 0 <= i < rest.len() implies meaning::statement(#[trigger] rest[i])
                == Ok::<
                StatementView,
                ParseErrorView,
            >(tail[i]) by {
                assert(rest[i] == s[i + 1]);
            }
            assert(meaning::statement(s[0]) == Ok::<StatementView, ParseErrorView>(v[0]));
            assert(seq![v[0]] + tail =~= v);
        }
    } else {
        assert(v.len() == 0 ==> v =~= Seq::empty());
    }
}

/// There are as many assignments as are written, in their order, and each is what is
/// written there.
pub proof fn lemma_assignments(s: Seq<RawAssignmentView>, table: Seq<char>,
    alias: Option<Seq<char>>, v: Seq<AssignmentView>)
    ensures
        meaning::assignments(s, table, alias) == Ok::<Seq<AssignmentView>, ParseErrorView>(v)
            <==> v.len() == s.len() && forall|i: int|
            0 <= i < s.len() ==> meaning::assignment(#[trigger] s[i], table,
                alias) == Ok::<AssignmentView, ParseErrorView>(v[i]),
    decreases s.len(),
{
    if s.len() > 0 {
        let rest = s.skip(1);
        let tail = v.skip(1);
        if v.len() > 0 {
            lemma_assignments(rest, table, alias, tail);
        }
        if let Ok(x) = meaning::assignment(s[0], table, alias) {
            if let Ok(w) = meaning::assignments(rest, table, alias) {
                lemma_assignments(rest, table, alias, w);
                assert((seq![x] + w).skip(1) =~= w);
                assert forall|i: int| 0 <= i < s.len() implies meaning::assignment(#[trigger] s[i],
                    table, alias) == Ok::<
                    AssignmentView,
                    ParseErrorView,
                >((seq![x] + w)[i]) by {
                    if i > 0 {
                        assert(rest[i - 1] == s[i]);
                    }
                }
            }
        }
        if v.len() == s.len() && (forall|i: int|
            0 <= i < s.len() ==> meaning::assignment(#[trigger] s[i], table,
                alias) == Ok::<AssignmentView, ParseErrorView>(v[i])) {
            assert forall|i: int| 0 <= i < rest.len() implies meaning::assignment(
                #[trigger] rest[i], table, alias) == Ok::<
                AssignmentView,
                ParseErrorView,
            >(tail[i]) by {
                assert(rest[i] == s[i + 1]);
            }
            assert(meaning::assignment(s[0], table, alias) == Ok::<AssignmentView,
                ParseErrorView>(v[0]));
            assert(seq![v[0]] + tail =~= v);
        }
    } else {
        assert(v.len() == 0 ==> v =~= Seq::empty());
    }
}

/// A condition that may be missing: it is there exactly if it is written, and is the
/// expression that is written.
pub proof fn lemma_condition(e: Option<RawExprView>, v: Option<ExprView>)
    ensures
        meaning::opt_expr(e) == Ok::<Option<ExprView>, ParseErrorView>(v) <==> (match (e, v) {
            (Some(x), Some(y)) => meaning::expr(x) == Ok::<ExprView, ParseErrorView>(y),
            (None, None) => true,
            _ => false,
        }),
{
}

/// The table of a query and its alias; functions and lists of columns are refused.
pub proof fn lemma_factor(f: RawFactorView, t: Seq<char>, a: Option<Seq<char>>)
    ensures
        meaning::factor(f) == Ok::<(Seq<char>, Option<Seq<char>>), ParseErrorView>((t, a)) <==> (
        f matches RawFactorView::Table { name, alias, args } && !args && meaning::table_name(name)
            == Ok::<Seq<char>, ParseErrorView>(t) && (match (alias, a) {
            (Some(x), Some(y)) => x.columns == 0 && x.name == y,
            (None, None) => true,
            _ => false,
        })),
{
}

/// A table that is joined: its name and alias, how it is joined, and on which condition. A
/// cross join has no condition, and any other join has one.
pub proof fn lemma_join(j: RawJoinView, v: JoinView)
    ensures
        meaning::join(j) == Ok::<JoinView, ParseErrorView>(v) <==> meaning::factor(j.relation)
            == Ok::<(Seq<char>, Option<Seq<char>>), ParseErrorView>((v.table, v.alias)) && (
        match j.operator {
            RawJoinOperatorView::Join(RawConstraintView::On(e)) => v.join_type is Inner && (
            v.on matches Some(x) && meaning::expr(e) == Ok::<ExprView, ParseErrorView>(x)),
            RawJoinOperatorView::Inner(RawConstraintView::On(e)) => v.join_type is Inner && (
            v.on matches Some(x) && meaning::expr(e) == Ok::<ExprView, ParseErrorView>(x)),
            RawJoinOperatorView::Left(RawConstraintView::On(e)) => v.join_type is Left && (
            v.on matches Some(x) && meaning::expr(e) == Ok::<ExprView, ParseErrorView>(x)),
            RawJoinOperatorView::LeftOuter(RawConstraintView::On(e)) => v.join_type is Left && (
            v.on matches Some(x) && meaning::expr(e) == Ok::<ExprView, ParseErrorView>(x)),
            RawJoinOperatorView::Right(RawConstraintView::On(e)) => v.join_type is Right && (
            v.on matches Some(x) && meaning::expr(e) == Ok::<ExprView, ParseErrorView>(x)),
            RawJoinOperatorView::RightOuter(RawConstraintView::On(e)) => v.join_type is Right && (
            v.on matches Some(x) && meaning::expr(e) == Ok::<ExprView, ParseErrorView>(x)),
            RawJoinOperatorView::FullOuter(RawConstraintView::On(e)) => v.join_type is Full && (
            v.on matches Some(x) && meaning::expr(e) == Ok::<ExprView, ParseErrorView>(x)),
            RawJoinOperatorView::CrossJoin(RawConstraintView::Absent) => v.join_type is Cross
                && v.on is None,
            _ => false,
        }),
{
}

/// `FROM` with one table: that table, and what is joined to it.
pub proof fn lemma_from_one(t: RawTableView, v: TableRefView)
    ensures
        meaning::from(seq![t]) == Ok::<TableRefView, ParseErrorView>(v) <==> meaning::factor(
            t.relation,
        ) == Ok::<(Seq<char>, Option<Seq<char>>), ParseErrorView>((v.base, v.base_alias))
            && meaning::joins(t.joins) == Ok::<Seq<JoinView>, ParseErrorView>(v.joins),
        meaning::from(Seq::empty()) is Err,
{
    let s = seq![t];
    assert(s.skip(1) =~= Seq::empty());
    assert(meaning::all_further(s.skip(1)) == Ok::<Seq<JoinView>, ParseErrorView>(Seq::empty()));
    if let Ok(x) = meaning::table_ref(t) {
        assert(x.joins + Seq::<JoinView>::empty() =~= x.joins);
    }
}

/// `FROM` with one table more: it is cross joined, and what is joined to it follows.
pub proof fn lemma_from_more(
    s: Seq<RawTableView>,
    t: RawTableView,
    v: TableRefView,
    name: Seq<char>,
    alias: Option<Seq<char>>,
    js: Seq<JoinView>,
)
    requires
        meaning::from(s) == Ok::<TableRefView, ParseErrorView>(v),
        meaning::factor(t.relation) == Ok::<(Seq<char>, Option<Seq<char>>), ParseErrorView>(
            (name, alias),
        ),
        meaning::joins(t.joins) == Ok::<Seq<JoinView>, ParseErrorView>(js),
    ensures
        meaning::from(s.push(t)) == Ok::<TableRefView, ParseErrorView>(
            TableRefView {
                base: v.base,
                base_alias: v.base_alias,
                joins: v.joins + seq![
                    JoinView { table: name, alias, join_type: JoinType::Cross, on: None },
                ] + js,
            },
        ),
{
    let rest = s.skip(1);
    let more = seq![JoinView { table: name, alias, join_type: JoinType::Cross, on: None }] + js;
    assert(s.push(t).skip(1) =~= rest.push(t));
    assert(s.push(t)[0] == s[0]);
    lemma_further_more(rest, t, more);
    let first = meaning::table_ref(s[0])->Ok_0;
    let others = meaning::all_further(rest)->Ok_0;
    assert(first.joins + (others + more) =~= (first.joins + others) + seq![
        JoinView { table: name, alias, join_type: JoinType::Cross, on: None },
    ] + js);
}

proof fn lemma_further_more(s: Seq<RawTableView>, t: RawTableView, more: Seq<JoinView>)
    requires
        meaning::all_further(s) is Ok,
        meaning::further(t) == Ok::<Seq<JoinView>, ParseErrorView>(more),
    ensures
        meaning::all_further(s.push(t)) == Ok::<Seq<JoinView>, ParseErrorView>(
            meaning::all_further(s)->Ok_0 + more,
        ),
    decreases s.len(),
{
    if s.len() == 0 {
        let one = s.push(t);
        assert(one.skip(1) =~= Seq::empty());
        assert(meaning::all_further(one.skip(1)) == Ok::<Seq<JoinView>, ParseErrorView>(
            Seq::empty(),
        ));
        assert(more + Seq::<JoinView>::empty() =~= more);
        assert(Seq::<JoinView>::empty() + more =~= more);
    } else {
        let rest = s.skip(1);
        assert(s.push(t).skip(1) =~= rest.push(t));
        assert(s.push(t)[0] == s[0]);
        lemma_further_more(rest, t, more);
        let x = meaning::further(s[0])->Ok_0;
        let w = meaning::all_further(rest)->Ok_0;
        assert(x + (w + more) =~= (x + w) + more);
    }
}

/// An item of a projection: all columns, all columns of a table, a column, or an
/// expression with an alias or none.
pub proof fn lemma_item(i: RawSelectItemView, v: SelectColumnView)
    ensures
        meaning::item(i) == Ok::<SelectColumnView, ParseErrorView>(v) <==> (match i {
            RawSelectItemView::Wildcard => v is Wildcard,
            RawSelectItemView::QualifiedWildcard(
                n) => v matches SelectColumnView::QualifiedWildcard(
                t,
            ) && meaning::table_name(n) == Ok::<Seq<char>, ParseErrorView>(t),
            RawSelectItemView::QualifiedOther(_) => false,
            RawSelectItemView::UnnamedExpr(RawExprView::Identifier(s)) => v == (
            SelectColumnView::Column { table: None, name: s }),
            RawSelectItemView::UnnamedExpr(RawExprView::CompoundIdentifier { parts, debug: _ }) => {
                parts.len() == 2 && v == (SelectColumnView::Column {
                    table: Some(parts[0]),
                    name: parts[1],
                })
            },
            RawSelectItemView::UnnamedExpr(e) => v matches SelectColumnView::Expr { expr: x,
                alias: a }
                && a is None && meaning::expr(e) == Ok::<ExprView, ParseErrorView>(x),
            RawSelectItemView::ExprWithAlias { expr: e, alias: b } => {
                v matches SelectColumnView::Expr { expr: x, alias: a } && a == Some(b)
                    && meaning::expr(e) == Ok::<ExprView, ParseErrorView>(x)
            },
            RawSelectItemView::ExprWithAliases { expr: e, aliases: b } => {
                v matches SelectColumnView::Expr { expr: x, alias: a } && b.len() <= 1 && a == (
                if b.len() == 1 {
                    Some(b[0])
                } else {
                    None
                }) && meaning::expr(e) == Ok::<ExprView, ParseErrorView>(x)
            },
        }),
{
}

/// `DISTINCT`: only where it is written, and only plainly.
pub proof fn lemma_distinct(d: RawDistinctView, b: bool)
    ensures
        meaning::distinct(d) == Ok::<bool, ParseErrorView>(b) <==> !(d is Other) && b == (
        d is Distinct),
{
}

/// `GROUP BY` lists expressions.
pub proof fn lemma_group(g: RawGroupByView, v: Seq<ExprView>)
    ensures
        meaning::group(g) == Ok::<Seq<ExprView>, ParseErrorView>(v) <==> (
        g matches RawGroupByView::Expressions { exprs, modifiers } && modifiers == 0
            && meaning::exprs(exprs) == Ok::<Seq<ExprView>, ParseErrorView>(v)),
{
}

/// A key of an ordering: its expression, its direction, which ascends unless `DESC` is
/// written, and where nulls go.
pub proof fn lemma_key(k: RawOrderByExprView, v: OrderByView)
    ensures
        meaning::key(k) == Ok::<OrderByView, ParseErrorView>(v) <==> !k.with_fill && !(
        k.sort is Other) && meaning::expr(k.expr) == Ok::<ExprView, ParseErrorView>(v.expr) && (
        v.ascending <==> k.sort is Asc || k.sort is Absent) && v.nulls_first == k.nulls_first,
{
}

/// `ORDER BY` lists keys; without it there are none.
pub proof fn lemma_order(o: Option<RawOrderView>, v: Seq<OrderByView>)
    ensures
        meaning::opt_order(o) == Ok::<Seq<OrderByView>, ParseErrorView>(v) <==> (match o {
            None => v == Seq::<OrderByView>::empty(),
            Some(x) => !x.interpolate && (x.kind matches RawOrderByView::Expressions(s)
                && meaning::keys(s) == Ok::<Seq<OrderByView>, ParseErrorView>(v)),
        }),
{
}

/// A number of rows is the natural number that is written.
pub proof fn lemma_count(c: RawCountView, clause: Seq<char>, n: usize)
    ensures
        meaning::count(c, clause) == Ok::<usize, ParseErrorView>(n) <==> (c.number matches Some(s)
            && text::natural_of(s) == Some(n as int)),
{
    if let Some(s) = c.number {
        text::lemma_natural_sign(s);
    }
}

/// `LIMIT` and `OFFSET`: each is what is written for it, in either notation, and missing
/// where nothing is written.
pub proof fn lemma_limits(l: RawLimitView, a: Option<usize>, b: Option<usize>)
    ensures
        meaning::limits(l) == Ok::<(Option<usize>, Option<usize>), ParseErrorView>((a, b)) <==> (
        match l {
            RawLimitView::Absent => a is None && b is None,
            RawLimitView::LimitOffset { limit, offset, limit_by } => limit_by == 0 && (match (
                limit,
                a,
            ) {
                (Some(c), Some(n)) => meaning::count(c, "LIMIT"@) == Ok::<usize, ParseErrorView>(n),
                (None, None) => true,
                _ => false,
            }) && (match (offset, b) {
                (Some(c), Some(n)) => meaning::count(c, "OFFSET"@)
                    == Ok::<usize, ParseErrorView>(n),
                (None, None) => true,
                _ => false,
            }),
            RawLimitView::OffsetCommaLimit { offset, limit } => (a matches Some(n)
                && meaning::count(
                limit,
                "LIMIT"@,
            ) == Ok::<usize, ParseErrorView>(n)) && (b matches Some(m) && meaning::count(
                offset,
                "OFFSET"@,
            ) == Ok::<usize, ParseErrorView>(m)),
        }),
{
}

/// A query: each clause of the statement is what that clause of the query is read as, and
/// a query with a clause that is not supported is refused.
pub proof fn lemma_query(q: RawQueryView, v: SelectView)
    ensures
        meaning::query(q) == Ok::<SelectView, ParseErrorView>(v) <==> (
        q.body matches RawBodyView::Select(s) && {
            &&& !q.with && !q.fetch && q.locks == 0 && !q.for_clause && q.pipe_operators == 0
            &&& !s.flags.top && !s.flags.into && s.flags.lateral_views == 0 && !s.flags.prewhere
            &&& s.flags.connect_by == 0 && s.flags.cluster_by == 0 && s.flags.distribute_by == 0
            &&& s.flags.sort_by == 0 && s.flags.named_window == 0 && !s.flags.qualify
            &&& !s.flags.exclude
            &&& meaning::distinct(s.distinct) == Ok::<bool, ParseErrorView>(v.distinct)
            &&& meaning::from(s.from) == Ok::<TableRefView, ParseErrorView>(v.from)
            &&& meaning::items(s.projection) == Ok::<Seq<SelectColumnView>, ParseErrorView>(
                v.columns,
            )
            &&& meaning::opt_expr(s.selection) == Ok::<Option<ExprView>, ParseErrorView>(
                v.where_clause,
            )
            &&& meaning::group(s.group_by) == Ok::<Seq<ExprView>, ParseErrorView>(v.group_by)
            &&& meaning::opt_expr(s.having) == Ok::<Option<ExprView>, ParseErrorView>(v.having)
            &&& meaning::opt_order(q.order_by) == Ok::<Seq<OrderByView>, ParseErrorView>(v.order_by)
            &&& meaning::limits(q.limit) == Ok::<(Option<usize>, Option<usize>), ParseErrorView>(
                (v.limit, v.offset),
            )
        }),
{
}

/// `INSERT`: its table, the columns that it names, and where its rows come from.
pub proof fn lemma_insert(i: RawInsertView, v: InsertView)
    ensures
        meaning::insert(i) == Ok::<StatementView, ParseErrorView>(StatementView::Insert(v)) <==> {
            &&& !i.flags.or && !i.flags.ignore && !i.flags.overwrite && !i.flags.replace_into
            &&& !i.flags.on && !i.flags.returning && !i.flags.output && !i.flags.partitioned
            &&& i.flags.assignments == 0 && !i.flags.table_alias
            &&& i.table matches RawTableObjectView::Name(n) && meaning::table_name(n) == Ok::<
                Seq<char>,
                ParseErrorView,
            >(v.table)
            &&& match v.columns {
                None => i.columns.len() == 0,
                Some(c) => i.columns.len() > 0 && meaning::table_names(i.columns) == Ok::<
                    Seq<Seq<char>>,
                    ParseErrorView,
                >(c),
            }
            &&& i.source matches Some(q) && (match v.source {
                InsertSourceView::Values(rows) => q.body matches RawBodyView::Values {
                    rows: s,
                    text: _,
                } && q.order_by is None && q.limit is Absent && !q.with && meaning::rows(s) == Ok::<
                    Seq<Seq<ExprView>>,
                    ParseErrorView,
                >(rows),
                InsertSourceView::Select(x) => !(q.body is Values) && meaning::query(q) == Ok::<
                    SelectView,
                    ParseErrorView,
                >(*x),
            })
        },
        meaning::insert(i) matches Ok(x) ==> x is Insert,
{
}

/// The column that an assignment sets: it may be qualified by the table, under its alias if
/// it has one, whatever the case of the letters.
pub proof fn lemma_target(
    t: RawTargetView,
    table: Seq<char>,
    alias: Option<Seq<char>>,
    c: Seq<char>,
)
    ensures
        meaning::target(t, table, alias) == Ok::<Seq<char>, ParseErrorView>(c) <==> (
        t matches RawTargetView::Column(n) && (forall|i: int|
            0 <= i < n.parts.len() ==> (#[trigger] n.parts[i]).ident is Some) && (if n.parts.len()
            == 1 {
            n.parts[0].ident == Some(c)
        } else if n.parts.len() == 2 {
            n.parts[1].ident == Some(c) && text::same_letters(
                n.parts[0].ident->0,
                match alias {
                    Some(a) => a,
                    None => table,
                },
            )
        } else {
            false
        })),
{
    if let RawTargetView::Column(n) = t {
        lemma_idents(n.parts);
    }
}

proof fn lemma_idents(s: Seq<super::raw::RawPartView>)
    ensures
        meaning::idents(s) is Ok <==> forall|i: int|
            0 <= i < s.len() ==> (#[trigger] s[i]).ident is Some,
        meaning::idents(s) matches Ok(v) ==> v.len() == s.len() && forall|i: int|
            0 <= i < s.len() ==> (#[trigger] s[i]).ident == Some(v[i]),
    decreases s.len(),
{
    if s.len() > 0 {
        let rest = s.skip(1);
        lemma_idents(rest);
        if s[0].ident is Some {
            if meaning::idents(rest) is Ok {
                assert forall|i: int| 0 <= i < s.len() implies (#[trigger] s[i]).ident is Some by {
                    if i > 0 {
                        assert(rest[i - 1] == s[i]);
                    }
                }
                let v = meaning::idents(s)->Ok_0;
                assert forall|i: int| 0 <= i < s.len() implies (#[trigger] s[i]).ident == Some(
                    v[i],
                ) by {
                    if i > 0 {
                        assert(rest[i - 1] == s[i]);
                    }
                }
            } else {
                let i = choose|i: int| 0 <= i < rest.len() && (#[trigger] rest[i]).ident is None;
                assert(s[i + 1].ident is None);
            }
        }
    }
}

/// An assignment sets the column that is written to the expression that is written.
pub proof fn lemma_assignment(
    a: RawAssignmentView,
    table: Seq<char>,
    alias: Option<Seq<char>>,
    v: AssignmentView,
)
    ensures
        meaning::assignment(a, table, alias) == Ok::<AssignmentView, ParseErrorView>(v) <==> {
            &&& meaning::target(a.target, table, alias) == Ok::<Seq<char>, ParseErrorView>(v.column)
            &&& meaning::expr(a.value) == Ok::<ExprView, ParseErrorView>(v.value)
        },
{
}

/// `UPDATE`: its table, an assignment for each that is written, with the value that is
/// written, and the condition.
pub proof fn lemma_update(u: RawUpdateView, v: UpdateView)
    ensures
        meaning::update(u) == Ok::<StatementView, ParseErrorView>(StatementView::Update(v)) <==> {
            &&& !u.flags.from && !u.flags.returning && !u.flags.output && !u.flags.or
            &&& u.flags.order_by == 0 && !u.flags.limit
            &&& u.table.joins.len() == 0
            &&& meaning::factor(u.table.relation) == Ok::<
                (Seq<char>, Option<Seq<char>>),
                ParseErrorView,
            >((v.table, v.alias))
            &&& v.assignments.len() == u.assignments.len()
            &&& forall|i: int|
                #![trigger u.assignments[i]]
                0 <= i < u.assignments.len() ==> meaning::expr(u.assignments[i].value) == Ok::<
                    ExprView,
                    ParseErrorView,
                >(v.assignments[i].value) && meaning::target(
                    u.assignments[i].target,
                    v.table,
                    v.alias,
                ) == Ok::<Seq<char>, ParseErrorView>(v.assignments[i].column)
            &&& meaning::opt_expr(u.selection) == Ok::<Option<ExprView>, ParseErrorView>(
                v.where_clause,
            )
        },
        meaning::update(u) matches Ok(x) ==> x is Update,
{
    lemma_assignments(u.assignments, v.table, v.alias, v.assignments);
}

/// `DELETE`: its table and the condition.
pub proof fn lemma_delete(d: RawDeleteView, v: DeleteView)
    ensures
        meaning::delete(d) == Ok::<StatementView, ParseErrorView>(StatementView::Delete(v)) <==> {
            &&& d.flags.tables == 0 && !d.flags.using && !d.flags.returning && !d.flags.output
            &&& d.flags.order_by == 0 && !d.flags.limit
            &&& d.from.len() == 1 && d.from[0].joins.len() == 0
            &&& meaning::factor(d.from[0].relation) == Ok::<
                (Seq<char>, Option<Seq<char>>),
                ParseErrorView,
            >((v.table, v.alias))
            &&& meaning::opt_expr(d.selection) == Ok::<Option<ExprView>, ParseErrorView>(
                v.where_clause,
            )
        },
        meaning::delete(d) matches Ok(x) ==> x is Delete,
{
}

/// The type of a column goes by the word that its type begins with, whatever follows it:
/// a size, a precision or a time zone.
pub proof fn lemma_data_type(k: Seq<char>, rest: Seq<char>)
    requires
        forall|i: int|
            0 <= i < k.len() ==> {
                let c = #[trigger] k[i];
                ('a' <= c && c <= 'z') || ('A' <= c && c <= 'Z') || ('0' <= c && c <= '9')
            },
        rest.len() > 0 ==> {
            let c = rest[0];
            !(('a' <= c && c <= 'z') || ('A' <= c && c <= 'Z') || ('0' <= c && c <= '9'))
        },
    ensures
        meaning::data_type(k + rest) == Ok::<SqlDataType, ParseErrorView>(SqlDataType::Text)
            <==> k == "Text"@ || k == "Varchar"@ || k == "CharVarying"@ || k == "Character"@
            || k == "Char"@ || k == "String"@,
        meaning::data_type(k + rest) == Ok::<SqlDataType, ParseErrorView>(SqlDataType::Integer)
            <==> k == "Int"@ || k == "Integer"@ || k == "BigInt"@ || k == "SmallInt"@
            || k == "TinyInt"@,
        meaning::data_type(k + rest) == Ok::<SqlDataType, ParseErrorView>(SqlDataType::Float)
            <==> k == "Float"@ || k == "Real"@ || k == "Double"@ || k == "DoublePrecision"@
            || k == "Decimal"@ || k == "Numeric"@,
        meaning::data_type(k + rest) == Ok::<SqlDataType, ParseErrorView>(SqlDataType::Boolean)
            <==> k == "Boolean"@ || k == "Bool"@,
        meaning::data_type(k + rest) == Ok::<SqlDataType, ParseErrorView>(SqlDataType::Json)
            <==> k == "JSON"@ || k == "JSONB"@,
        meaning::data_type(k + rest) == Ok::<SqlDataType, ParseErrorView>(SqlDataType::Timestamp)
            <==> k == "Timestamp"@ || k == "Datetime"@ || k == "Date"@,
        meaning::data_type(k + rest) == Ok::<SqlDataType, ParseErrorView>(SqlDataType::Uuid)
            <==> k == "Uuid"@,
        meaning::data_type(k + rest) matches Err(e) ==> e == ParseErrorView::UnsupportedDataType(
            k + rest,
        ),
{
    lemma_head_word(k, rest);
    reveal_strlit("Text");
    reveal_strlit("Varchar");
    reveal_strlit("CharVarying");
    reveal_strlit("Character");
    reveal_strlit("Char");
    reveal_strlit("String");
    reveal_strlit("Int");
    reveal_strlit("Integer");
    reveal_strlit("BigInt");
    reveal_strlit("SmallInt");
    reveal_strlit("TinyInt");
    reveal_strlit("Float");
    reveal_strlit("Real");
    reveal_strlit("Double");
    reveal_strlit("DoublePrecision");
    reveal_strlit("Decimal");
    reveal_strlit("Numeric");
    reveal_strlit("Boolean");
    reveal_strlit("Bool");
    reveal_strlit("JSON");
    reveal_strlit("JSONB");
    reveal_strlit("Timestamp");
    reveal_strlit("Datetime");
    reveal_strlit("Date");
    reveal_strlit("Uuid");
    assert("Text"@.len() == 4);
    assert("Varchar"@.len() == 7);
    assert("CharVarying"@.len() == 11);
    assert("Character"@.len() == 9);
    assert("Char"@.len() == 4);
    assert("String"@.len() == 6);
    assert("Int"@.len() == 3);
    assert("Integer"@.len() == 7);
    assert("BigInt"@.len() == 6);
    assert("SmallInt"@.len() == 8);
    assert("TinyInt"@.len() == 7);
    assert("Float"@.len() == 5);
    assert("Real"@.len() == 4);
    assert("Double"@.len() == 6);
    assert("DoublePrecision"@.len() == 15);
    assert("Decimal"@.len() == 7);
    assert("Numeric"@.len() == 7);
    assert("Boolean"@.len() == 7);
    assert("Bool"@.len() == 4);
    assert("JSON"@.len() == 4);
    assert("JSONB"@.len() == 5);
    assert("Timestamp"@.len() == 9);
    assert("Datetime"@.len() == 8);
    assert("Date"@.len() == 4);
    assert("Uuid"@.len() == 4);
    assert("Text"@[0] == 'T');
    assert("Char"@[0] == 'C');
    assert("Real"@[0] == 'R');
    assert("Bool"@[0] == 'B');
    assert("JSON"@[0] == 'J');
    assert("Date"@[0] == 'D');
    assert("Uuid"@[0] == 'U');
    assert("Varchar"@[0] == 'V');
    assert("Integer"@[0] == 'I');
    assert("TinyInt"@[0] == 'T');
    assert("Decimal"@[0] == 'D');
    assert("Numeric"@[0] == 'N');
    assert("Boolean"@[0] == 'B');
    assert("Character"@[0] == 'C');
    assert("Timestamp"@[0] == 'T');
    assert("String"@[0] == 'S');
    assert("BigInt"@[0] == 'B');
    assert("Double"@[0] == 'D');
    assert("SmallInt"@[0] == 'S');
    assert("Datetime"@[0] == 'D');
    assert("Float"@[0] == 'F');
    assert("JSONB"@[0] == 'J');
}

proof fn lemma_head_word(k: Seq<char>, rest: Seq<char>)
    requires
        forall|i: int|
            0 <= i < k.len() ==> {
                let c = #[trigger] k[i];
                ('a' <= c && c <= 'z') || ('A' <= c && c <= 'Z') || ('0' <= c && c <= '9')
            },
        rest.len() > 0 ==> {
            let c = rest[0];
            !(('a' <= c && c <= 'z') || ('A' <= c && c <= 'Z') || ('0' <= c && c <= '9'))
        },
    ensures
        meaning::head_word(k + rest) == k,
    decreases k.len(),
{
    let s = k + rest;
    if k.len() > 0 {
        let t = k.skip(1);
        assert forall|i: int| 0 <= i < t.len() implies {
            let c = #[trigger] t[i];
            ('a' <= c && c <= 'z') || ('A' <= c && c <= 'Z') || ('0' <= c && c <= '9')
        } by {
            assert(t[i] == k[i + 1]);
        }
        lemma_head_word(t, rest);
        assert(s.skip(1) =~= t + rest);
        assert(s[0] == k[0]);
        assert(seq![s[0]] + t =~= k);
    } else {
        assert(s =~= rest);
        assert(k =~= Seq::empty());
    }
}

/// A column of a new table: its name, its type and its constraints are those that are
/// written.
pub proof fn lemma_column(c: RawColumnDefView, v: ColumnDefView)
    ensures
        meaning::column(c) == Ok::<ColumnDefView, ParseErrorView>(v) <==> {
            &&& v.name == c.name
            &&& meaning::data_type(c.data_type) == Ok::<SqlDataType, ParseErrorView>(v.data_type)
            &&& meaning::column_options(c.options, Seq::empty()) == Ok::<
                Seq<ColumnConstraintView>,
                ParseErrorView,
            >(v.constraints)
        },
{
}

/// The constraints of a column with an option more: it stands for the constraint of its
/// name, which goes behind the others if it is not among them; `NULL` and comments stand
/// for none, and other options are refused.
pub proof fn lemma_option_more(
    s: Seq<RawColumnOptionView>,
    o: RawColumnOptionView,
    v: Seq<ColumnConstraintView>,
    w: Seq<ColumnConstraintView>,
)
    requires
        meaning::column_options(s, Seq::empty()) == Ok::<Seq<ColumnConstraintView>, ParseErrorView>(
            v,
        ),
    ensures
        meaning::column_options(s.push(o), Seq::empty()) == Ok::<
            Seq<ColumnConstraintView>,
            ParseErrorView,
        >(w) <==> (match o {
            RawColumnOptionView::Null => w == v,
            RawColumnOptionView::Comment => w == v,
            RawColumnOptionView::NotNull => w == (if v.contains(ColumnConstraintView::NotNull) {
                v
            } else {
                v.push(ColumnConstraintView::NotNull)
            }),
            RawColumnOptionView::Unique => w == (if v.contains(ColumnConstraintView::Unique) {
                v
            } else {
                v.push(ColumnConstraintView::Unique)
            }),
            RawColumnOptionView::PrimaryKey => w == (if v.contains(
                ColumnConstraintView::PrimaryKey,
            ) {
                v
            } else {
                v.push(ColumnConstraintView::PrimaryKey)
            }),
            RawColumnOptionView::Default(e) => meaning::expr(e) matches Ok(x) && w == (
            if v.contains(ColumnConstraintView::Default(x)) {
                v
            } else {
                v.push(ColumnConstraintView::Default(x))
            }),
            RawColumnOptionView::Other(_) => false,
        }),
        meaning::column_options(Seq::empty(), Seq::empty()) == Ok::<
            Seq<ColumnConstraintView>,
            ParseErrorView,
        >(Seq::empty()),
{
    lemma_options_push(s, o, Seq::empty());
    let one = seq![o];
    assert(one.skip(1) =~= Seq::empty());
    reveal_with_fuel(meaning::column_options, 2);
}

proof fn lemma_options_push(
    s: Seq<RawColumnOptionView>,
    o: RawColumnOptionView,
    acc: Seq<ColumnConstraintView>,
)
    requires
        meaning::column_options(s, acc) is Ok,
    ensures
        meaning::column_options(s.push(o), acc) == meaning::column_options(
            seq![o],
            meaning::column_options(s, acc)->Ok_0,
        ),
    decreases s.len(),
{
    if s.len() == 0 {
        assert(s.push(o) =~= seq![o]);
    } else {
        let rest = s.skip(1);
        assert(s.push(o).skip(1) =~= rest.push(o));
        assert(s.push(o)[0] == s[0]);
        match meaning::column_option(s[0]) {
            Ok(Some(c)) => lemma_options_push(rest, o, meaning::with_item(acc, c)),
            Ok(None) => lemma_options_push(rest, o, acc),
            Err(_) => {},
        }
    }
}

/// The columns of a key: each is the first column of the table that is called so, whatever
/// the case of the letters, and none is listed twice.
pub proof fn lemma_key_columns(
    s: Seq<RawIndexColumnView>,
    columns: Seq<ColumnDefView>,
    v: Seq<Seq<char>>,
)
    requires
        meaning::key_columns(s, columns, Seq::empty()) == Ok::<Seq<Seq<char>>, ParseErrorView>(v),
    ensures
        v.len() == s.len(),
        v.no_duplicates(),
        forall|i: int|
            #![trigger s[i]]
            0 <= i < s.len() ==> s[i].ident is Some && exists|j: int| #[trigger]
                first_called(columns, s[i].ident->0, j) && columns[j].name == v[i],
{
    lemma_key_columns_from(s, columns, Seq::empty());
}

/// Column `j` is the first one with a name, whatever the case of the letters.
pub open spec fn first_called(columns: Seq<ColumnDefView>, name: Seq<char>, j: int) -> bool {
    &&& 0 <= j < columns.len()
    &&& text::same_letters(columns[j].name, name)
    &&& forall|k: int| 0 <= k < j ==> !text::same_letters((#[trigger] columns[k]).name, name)
}

proof fn lemma_key_columns_from(
    s: Seq<RawIndexColumnView>,
    columns: Seq<ColumnDefView>,
    acc: Seq<Seq<char>>,
)
    requires
        acc.no_duplicates(),
        meaning::key_columns(s, columns, acc) is Ok,
    ensures
        ({
            let v = meaning::key_columns(s, columns, acc)->Ok_0;
            &&& v.len() == acc.len() + s.len()
            &&& v.no_duplicates()
            &&& v.take(acc.len() as int) == acc
            &&& forall|i: int|
                #![trigger s[i]]
                0 <= i < s.len() ==> s[i].ident is Some && exists|j: int| #[trigger]
                    first_called(columns, s[i].ident->0, j) && columns[j].name == v[acc.len() + i]
        }),
    decreases s.len(),
{
    let v = meaning::key_columns(s, columns, acc)->Ok_0;
    if s.len() == 0 {
        assert(v.take(acc.len() as int) =~= acc);
    } else {
        let rest = s.skip(1);
        let name = s[0].ident->0;
        let found = meaning::find_column(columns, name)->0;
        let more = acc.push(found);
        lemma_found(columns, name);
        lemma_key_columns_from(rest, columns, more);
        assert(v[acc.len() as int] == v.take(more.len() as int)[acc.len() as int]);
        assert(v.take(acc.len() as int) =~= more.take(acc.len() as int)) by {
            assert forall|i: int| 0 <= i < acc.len() implies v[i] == more[i] by {
                assert(v.take(more.len() as int)[i] == v[i]);
            }
        }
        assert(more.take(acc.len() as int) =~= acc);
        assert forall|i: int|
            #![trigger s[i]]
            0 <= i < s.len() implies s[i].ident is Some && exists|j: int| #[trigger]
            first_called(columns, s[i].ident->0, j) && columns[j].name == v[acc.len() + i] by {
            if i > 0 {
                assert(rest[i - 1] == s[i]);
                let j = choose|j: int| #[trigger]
                    first_called(columns, rest[i - 1].ident->0, j)
                        && columns[j].name == v[more.len()
                        + (i - 1)];
                assert(first_called(columns, s[i].ident->0, j));
            }
        }
    }
}

proof fn lemma_found(columns: Seq<ColumnDefView>, name: Seq<char>)
    ensures
        meaning::find_column(columns, name) matches Some(n) ==> exists|j: int| #[trigger]
            first_called(columns, name, j) && columns[j].name == n,
    decreases columns.len(),
{
    if columns.len() > 0 {
        if text::same_letters(columns[0].name, name) {
            assert(first_called(columns, name, 0));
        } else {
            let rest = columns.skip(1);
            lemma_found(rest, name);
            if let Some(n) = meaning::find_column(rest, name) {
                let j = choose|j: int| #[trigger]
                    first_called(rest, name, j) && rest[j].name == n;
                assert forall|k: int| 0 <= k < j + 1 implies !text::same_letters(
                    (#[trigger] columns[k]).name,
                    name,
                ) by {
                    if k > 0 {
                        assert(rest[k - 1] == columns[k]);
                    }
                }
                assert(first_called(columns, name, j + 1));
            }
        }
    }
}

/// A table with a constraint more. `UNIQUE` adds a unique key with the columns that are
/// written, if there is none; `PRIMARY KEY` sets the primary key to them where there is
/// none, and is refused otherwise; other constraints are refused.
pub proof fn lemma_constraint_more(
    name: Seq<char>,
    columns: Seq<ColumnDefView>,
    cs: Seq<RawTableConstraintView>,
    c: RawTableConstraintView,
    b: bool,
    t: CreateTableView,
)
    requires
        meaning::table(name, columns, cs, b) == Ok::<CreateTableView, ParseErrorView>(t),
    ensures
        ({
            let r = meaning::table(name, columns, cs.push(c), b);
            match c {
                RawTableConstraintView::Unique(s) => match meaning::key_columns(
                    s,
                    columns,
                    Seq::empty(),
                ) {
                    Ok(k) => r matches Ok(u) && u.primary_key == t.primary_key && u.unique_keys == (
                    if t.unique_keys.contains(k) {
                        t.unique_keys
                    } else {
                        t.unique_keys.push(k)
                    }),
                    Err(e) => r == Err::<CreateTableView, ParseErrorView>(e),
                },
                RawTableConstraintView::PrimaryKey(s) => if t.primary_key.len() > 0 {
                    r is Err
                } else {
                    match meaning::key_columns(s, columns, Seq::empty()) {
                        Ok(k) => r matches Ok(u) && u.primary_key == k && u.unique_keys
                            == t.unique_keys,
                        Err(e) => r == Err::<CreateTableView, ParseErrorView>(e),
                    }
                },
                RawTableConstraintView::Other(_) => r is Err,
            }
        }),
{
    lemma_steps_push(cs, c, columns, meaning::own_keys(columns));
}

proof fn lemma_steps_push(
    cs: Seq<RawTableConstraintView>,
    c: RawTableConstraintView,
    columns: Seq<ColumnDefView>,
    k: meaning::Keys,
)
    requires
        meaning::key_steps(cs, columns, k) is Ok,
    ensures
        meaning::key_steps(cs.push(c), columns, k) == meaning::key_step(
            c,
            columns,
            meaning::key_steps(cs, columns, k)->Ok_0,
        ),
    decreases cs.len(),
{
    if cs.len() == 0 {
        let one = cs.push(c);
        assert(one.skip(1) =~= Seq::empty());
        reveal_with_fuel(meaning::key_steps, 2);
    } else {
        let rest = cs.skip(1);
        assert(cs.push(c).skip(1) =~= rest.push(c));
        assert(cs.push(c)[0] == cs[0]);
        lemma_steps_push(rest, c, columns, meaning::key_step(cs[0], columns, k)->Ok_0);
    }
}

/// The keys of a table without table constraints: the columns that are declared so, in
/// their order. Two columns cannot both be declared the primary key.
pub proof fn lemma_own_keys(name: Seq<char>, columns: Seq<ColumnDefView>, b: bool)
    ensures
        meaning::table(name, columns, Seq::empty(), b) matches Ok(t) ==> {
            &&& t.name == name
            &&& t.if_not_exists == b
            &&& t.primary_key == columns.filter(
                |c: ColumnDefView| c.constraints.contains(ColumnConstraintView::PrimaryKey),
            ).map_values(|c: ColumnDefView| c.name)
            &&& t.unique_keys == columns.filter(
                |c: ColumnDefView| c.constraints.contains(ColumnConstraintView::Unique),
            ).map_values(|c: ColumnDefView| seq![c.name])
            &&& t.primary_key.len() <= 1
        },
        columns.filter(
            |c: ColumnDefView| c.constraints.contains(ColumnConstraintView::PrimaryKey),
        ).len() <= 1 ==> meaning::table(name, columns, Seq::empty(), b) is Ok,
{
    lemma_columns_with(columns, ColumnConstraintView::PrimaryKey);
    lemma_columns_with(columns, ColumnConstraintView::Unique);
    let p = columns.filter(
        |c: ColumnDefView| c.constraints.contains(ColumnConstraintView::PrimaryKey),
    );
    let u = columns.filter(
        |c: ColumnDefView| c.constraints.contains(ColumnConstraintView::Unique),
    );
    assert(meaning::own_keys(columns).primary =~= p.map_values(|c: ColumnDefView| c.name));
    assert(meaning::own_keys(columns).unique =~= u.map_values(|c: ColumnDefView| seq![c.name]));
}

proof fn lemma_columns_with(columns: Seq<ColumnDefView>, k: ColumnConstraintView)
    ensures
        meaning::columns_with(columns, k) == columns.filter(
            |c: ColumnDefView| c.constraints.contains(k),
        ).map_values(|c: ColumnDefView| c.name),
    decreases columns.len(),
{
    let f = |c: ColumnDefView| c.constraints.contains(k);
    let names = |c: ColumnDefView| c.name;
    reveal(Seq::filter);
    if columns.len() > 0 {
        let init = columns.drop_last();
        lemma_columns_with(init, k);
        assert(columns.filter(f) == (if f(columns.last()) {
            init.filter(f).push(columns.last())
        } else {
            init.filter(f)
        }));
        assert(meaning::columns_with(columns, k) =~= columns.filter(f).map_values(names));
    } else {
        assert(meaning::columns_with(columns, k) =~= columns.filter(f).map_values(names));
    }
}

/// A new table: it has the name and the columns that are written, each at its place with
/// its name and type; table constraints make a column no other and give it no default.
pub proof fn lemma_create_table(c: RawCreateTableView, v: CreateTableView)
    requires
        meaning::create_table(c) == Ok::<CreateTableView, ParseErrorView>(v),
    ensures
        !c.query && !c.like && !c.clone_of && !c.or_replace && !c.temporary,
        meaning::table_name(c.name) == Ok::<Seq<char>, ParseErrorView>(v.name),
        v.if_not_exists == c.if_not_exists,
        v.columns.len() == c.columns.len(),
        forall|i: int|
            #![trigger c.columns[i]]
            #![trigger v.columns[i]]
            0 <= i < c.columns.len() ==> {
                &&& v.columns[i].name == c.columns[i].name
                &&& meaning::data_type(c.columns[i].data_type) == Ok::<SqlDataType, ParseErrorView>(
                    v.columns[i].data_type,
                )
                &&& meaning::column_options(c.columns[i].options, Seq::empty()) matches Ok(own) && {
                    &&& v.columns[i].constraints.contains(ColumnConstraintView::NotNull)
                        == own.contains(ColumnConstraintView::NotNull)
                    &&& forall|e: ExprView|
                        v.columns[i].constraints.contains(ColumnConstraintView::Default(e))
                            == #[trigger] own.contains(ColumnConstraintView::Default(e))
                    &&& own.len() <= v.columns[i].constraints.len()
                    &&& v.columns[i].constraints.take(own.len() as int) == own
                }
            },
{
    let own = meaning::columns(c.columns)->Ok_0;
    lemma_columns(c.columns, own);
    let keys = meaning::key_steps(c.constraints, own, meaning::own_keys(own))->Ok_0;
    assert forall|i: int|
        #![trigger c.columns[i]]
        #![trigger v.columns[i]]
        0 <= i < c.columns.len() implies {
        &&& v.columns[i].name == c.columns[i].name
        &&& meaning::data_type(c.columns[i].data_type) == Ok::<SqlDataType, ParseErrorView>(
            v.columns[i].data_type,
        )
        &&& meaning::column_options(c.columns[i].options, Seq::empty()) matches Ok(o) && {
            &&& v.columns[i].constraints.contains(ColumnConstraintView::NotNull) == o.contains(
                ColumnConstraintView::NotNull,
            )
            &&& forall|e: ExprView|
                v.columns[i].constraints.contains(ColumnConstraintView::Default(e))
                    == #[trigger] o.contains(ColumnConstraintView::Default(e))
            &&& o.len() <= v.columns[i].constraints.len()
            &&& v.columns[i].constraints.take(o.len() as int) == o
        }
    } by {
        assert(meaning::column(c.columns[i]) == Ok::<ColumnDefView, ParseErrorView>(own[i]));
        assert(v.columns[i] == meaning::marked(own[i], keys));
        let o = own[i].constraints;
        let p = meaning::with_constraint(
            o,
            ColumnConstraintView::PrimaryKey,
            keys.primary.contains(own[i].name),
        );
        lemma_with(
            o,
            ColumnConstraintView::PrimaryKey,
            keys.primary.contains(own[i].name),
        );
        lemma_with(
            p,
            ColumnConstraintView::Unique,
            keys.unique.contains(seq![own[i].name]),
        );
        assert(v.columns[i].constraints.take(o.len() as int) =~= o);
    }
}

proof fn lemma_with(s: Seq<ColumnConstraintView>, c: ColumnConstraintView, b: bool)
    ensures
        ({
            let r = meaning::with_constraint(s, c, b);
            &&& s.len() <= r.len() <= s.len() + 1
            &&& r.take(s.len() as int) == s
            &&& forall|d: ColumnConstraintView|
                d != c ==> #[trigger] r.contains(d) == s.contains(d)
        }),
{
    let r = meaning::with_constraint(s, c, b);
    assert(r.take(s.len() as int) =~= s);
    assert forall|d: ColumnConstraintView| d != c implies #[trigger] r.contains(d) == s.contains(
        d,
    ) by {
        if r.contains(d) {
            let i = choose|i: int| 0 <= i < r.len() && r[i] == d;
            assert(s[i] == d);
        }
        if s.contains(d) {
            let i = choose|i: int| 0 <= i < s.len() && s[i] == d;
            assert(r[i] == d);
        }
    }
}

/// A table that is written without a clause that is not supported is the table that its
/// columns and constraints make.
pub proof fn lemma_create_made(c: RawCreateTableView, name: Seq<char>, own: Seq<ColumnDefView>)
    requires
        !c.query && !c.like && !c.clone_of && !c.or_replace && !c.temporary,
        meaning::table_name(c.name) == Ok::<Seq<char>, ParseErrorView>(name),
        own.len() == c.columns.len(),
        forall|i: int|
            0 <= i < own.len() ==> meaning::column(#[trigger] c.columns[i]) == Ok::<
                ColumnDefView,
                ParseErrorView,
            >(own[i]),
    ensures
        meaning::create_table(c) == meaning::table(name, own, c.constraints, c.if_not_exists),
{
    lemma_columns(c.columns, own);
}

/// `DROP TABLE` of one table.
pub proof fn lemma_drop(object_type: Seq<char>, names: Seq<RawNameView>, b: bool, v: DropTableView)
    ensures
        meaning::drop_table(object_type, names, b) == Ok::<StatementView, ParseErrorView>(
            StatementView::DropTable(v),
        ) <==> object_type == "Table"@ && names.len() == 1 && meaning::table_name(names[0]) == Ok::<
            Seq<char>,
            ParseErrorView,
        >(v.name) && v.if_exists == b,
        meaning::drop_table(object_type, names, b) matches Ok(x) ==> x is DropTable,
{
}

/// A statement is read as the statement of its kind.
pub proof fn lemma_statement(s: RawStatementView, v: StatementView)
    ensures
        meaning::statement(s) == Ok::<StatementView, ParseErrorView>(v) <==> (match s {
            RawStatementView::CreateTable(c) => v matches StatementView::CreateTable(t)
                && meaning::create_table(c) == Ok::<CreateTableView, ParseErrorView>(t),
            RawStatementView::Drop { object_type, names, if_exists } => meaning::drop_table(
                object_type,
                names,
                if_exists,
            ) == Ok::<StatementView, ParseErrorView>(v),
            RawStatementView::Query(q) => v matches StatementView::Select(t) && meaning::query(q)
                == Ok::<SelectView, ParseErrorView>(t),
            RawStatementView::Insert(i) => meaning::insert(i) == Ok::<StatementView,
                ParseErrorView>(
                v,
            ),
            RawStatementView::Update(u) => meaning::update(u) == Ok::<StatementView,
                ParseErrorView>(
                v,
            ),
            RawStatementView::Delete(d) => meaning::delete(d) == Ok::<StatementView,
                ParseErrorView>(
                v,
            ),
            RawStatementView::StartTransaction => v is Begin,
            RawStatementView::Commit => v is Commit,
            RawStatementView::Rollback => v is Rollback,
            RawStatementView::ShowTables => v is ShowTables,
            RawStatementView::ExplainTable(n) => v matches StatementView::Describe(t)
                && meaning::table_name(n) == Ok::<Seq<char>, ParseErrorView>(t),
            RawStatementView::Other(_) => false,
        }),
{
}

/// What a text of one statement is read as: a command, which goes by its capitals, or the
/// only statement that the SQL parser finds.
pub proof fn lemma_parse(sql: Seq<char>, v: StatementView)
    ensures
        ({
            let b = text::trimmed(text::trim_end_of(text::trimmed(sql), ';'));
            let u = text::uppercase(b);
            let r = meaning::parse(sql);
            &&& text::trimmed(sql).len() == 0 ==> r == Err::<StatementView, ParseErrorView>(
                ParseErrorView::EmptyQuery,
            )
            &&& text::trimmed(sql).len() > 0 && (u == "BEGIN"@ || u == "BEGIN TRANSACTION"@ || u
                == "START TRANSACTION"@) ==> r == Ok::<StatementView, ParseErrorView>(
                StatementView::Begin,
            )
            &&& text::trimmed(sql).len() > 0 && u == "COMMIT"@ ==> r == Ok::<
                StatementView,
                ParseErrorView,
            >(StatementView::Commit)
            &&& text::trimmed(sql).len() > 0 && u == "ROLLBACK"@ ==> r == Ok::<
                StatementView,
                ParseErrorView,
            >(StatementView::Rollback)
            &&& text::trimmed(sql).len() > 0 && (u == "SHOW TABLES"@ || u == "SHOW TABLE"@) ==> r
                == Ok::<StatementView, ParseErrorView>(StatementView::ShowTables)
            &&& text::trimmed(sql).len() > 0 && (text::has_prefix(u, "DESCRIBE "@)
                || text::has_prefix(u, "DESC "@)) ==> (match text::second_word_of(
                b,
            ) {
                Some(t) => r == Ok::<StatementView, ParseErrorView>(StatementView::Describe(t)),
                None => r is Err,
            })
            &&& text::trimmed(sql).len() > 0 && u != "BEGIN"@ && u != "BEGIN TRANSACTION"@ && u
                != "START TRANSACTION"@ && u != "COMMIT"@ && u != "ROLLBACK"@ && u
                != "SHOW TABLES"@ && u != "SHOW TABLE"@ && !text::has_prefix(u, "DESCRIBE "@)
                && !text::has_prefix(u, "DESC "@) ==> (match reader::parsed(text::trimmed(sql)) {
                Ok(s) => if s.len() == 0 {
                    r == Err::<StatementView, ParseErrorView>(ParseErrorView::EmptyQuery)
                } else if s.len() > 1 {
                    r == Err::<StatementView, ParseErrorView>(ParseErrorView::MultipleStatements)
                } else {
                    r == meaning::statement(s[0])
                },
                Err(e) => r == Err::<StatementView, ParseErrorView>(ParseErrorView::SqlParser(e)),
            })
        }),
{
    reveal_strlit("BEGIN");
    reveal_strlit("BEGIN TRANSACTION");
    reveal_strlit("START TRANSACTION");
    reveal_strlit("COMMIT");
    reveal_strlit("ROLLBACK");
    reveal_strlit("SHOW TABLES");
    reveal_strlit("SHOW TABLE");
    reveal_strlit("DESCRIBE ");
    reveal_strlit("DESC ");
    assert("BEGIN"@.len() == 5);
    assert("BEGIN TRANSACTION"@.len() == 17);
    assert("START TRANSACTION"@.len() == 17);
    assert("COMMIT"@.len() == 6);
    assert("ROLLBACK"@.len() == 8);
    assert("SHOW TABLES"@.len() == 11);
    assert("SHOW TABLE"@.len() == 10);
    assert("DESCRIBE "@.len() == 9);
    assert("DESC "@.len() == 5);
    assert("BEGIN"@[0] == 'B');
    assert("DESC "@[0] == 'D');
    assert("BEGIN TRANSACTION"@[0] == 'B');
    assert("START TRANSACTION"@[0] == 'S');
    let u = text::uppercase(meaning::bare(sql));
    if text::has_prefix(u, "DESCRIBE "@) {
        assert(u.take(9)[0] == u[0] && u.take(9)[8] == u[8]);
        assert("DESCRIBE "@[0] == 'D' && "BEGIN TRANSACTION"@[0] == 'B'
            && "START TRANSACTION"@[0] == 'S' && "COMMIT"@[0] == 'C' && "ROLLBACK"@[0] == 'R'
            && "SHOW TABLES"@[0] == 'S' && "SHOW TABLE"@[0] == 'S' && "BEGIN"@[0] == 'B');
    }
    if text::has_prefix(u, "DESC "@) {
        assert(u.take(5)[0] == u[0]);
        assert("DESC "@[0] == 'D' && "BEGIN TRANSACTION"@[0] == 'B'
            && "START TRANSACTION"@[0] == 'S' && "COMMIT"@[0] == 'C' && "ROLLBACK"@[0] == 'R'
            && "SHOW TABLES"@[0] == 'S' && "SHOW TABLE"@[0] == 'S' && "BEGIN"@[0] == 'B');
    }
}

/// What a text of several statements is read as: every statement that the SQL parser
/// finds, in their order.
pub proof fn lemma_parse_multi(sql: Seq<char>, v: Seq<StatementView>)
    ensures
        meaning::parse_multi(sql) == Ok::<Seq<StatementView>, ParseErrorView>(v) <==> (
        reader::parsed(sql) matches Ok(s) && v.len() == s.len() && forall|i: int|
            0 <= i < s.len() ==> meaning::statement(#[trigger] s[i]) == Ok::<
                StatementView,
                ParseErrorView,
            >(v[i])),
        reader::parsed(sql) matches Err(e) ==> meaning::parse_multi(sql) == Err::<
            Seq<StatementView>,
            ParseErrorView,
        >(ParseErrorView::SqlParser(e)),
{
    if let Ok(s) = reader::parsed(sql) {
        lemma_statements(s, v);
    }
}

/// The columns of a table constraint, each called by a name that the table has and none
/// twice, are read as those columns.
pub proof fn lemma_key_columns_named(
    s: Seq<RawIndexColumnView>,
    columns: Seq<ColumnDefView>,
    v: Seq<Seq<char>>,
)
    requires
        v.len() == s.len(),
        v.no_duplicates(),
        forall|i: int|
            #![trigger s[i]]
            0 <= i < s.len() ==> s[i].ident is Some && exists|j: int| #[trigger]
                first_called(columns, s[i].ident->0, j) && columns[j].name == v[i],
    ensures
        meaning::key_columns(s, columns, Seq::empty()) == Ok::<Seq<Seq<char>>, ParseErrorView>(v),
{
    lemma_key_columns_behind(s, columns, v, Seq::empty());
    assert(Seq::empty() + v =~= v);
}

proof fn lemma_key_columns_behind(
    s: Seq<RawIndexColumnView>,
    columns: Seq<ColumnDefView>,
    v: Seq<Seq<char>>,
    acc: Seq<Seq<char>>,
)
    requires
        v.len() == s.len(),
        (acc + v).no_duplicates(),
        forall|i: int|
            #![trigger s[i]]
            0 <= i < s.len() ==> s[i].ident is Some && exists|j: int| #[trigger]
                first_called(columns, s[i].ident->0, j) && columns[j].name == v[i],
    ensures
        meaning::key_columns(s, columns, acc) == Ok::<Seq<Seq<char>>, ParseErrorView>(acc + v),
    decreases s.len(),
{
    if s.len() == 0 {
        assert(acc + v =~= acc);
    } else {
        let rest = s.skip(1);
        let w = v.skip(1);
        let j = choose|j: int| #[trigger]
            first_called(columns, s[0].ident->0, j) && columns[j].name == v[0];
        lemma_found_at(columns, s[0].ident->0, j);
        assert(acc.push(v[0]) + w =~= acc + v);
        if acc.contains(v[0]) {
            let k = choose|k: int| 0 <= k < acc.len() && acc[k] == v[0];
            assert((acc + v)[k] == (acc + v)[acc.len() as int]);
        }
        assert forall|i: int|
            #![trigger rest[i]]
            0 <= i < rest.len() implies rest[i].ident is Some && exists|j: int| #[trigger]
            first_called(columns, rest[i].ident->0, j) && columns[j].name == w[i] by {
            assert(rest[i] == s[i + 1]);
        }
        lemma_key_columns_behind(rest, columns, w, acc.push(v[0]));
    }
}

proof fn lemma_found_at(columns: Seq<ColumnDefView>, name: Seq<char>, j: int)
    requires
        first_called(columns, name, j),
    ensures
        meaning::find_column(columns, name) == Some(columns[j].name),
    decreases columns.len(),
{
    if j > 0 {
        let rest = columns.skip(1);
        assert(!text::same_letters(columns[0].name, name));
        assert forall|k: int| 0 <= k < j - 1 implies !text::same_letters(
            (#[trigger] rest[k]).name,
            name,
        ) by {
            assert(rest[k] == columns[k + 1]);
        }
        lemma_found_at(rest, name, j - 1);
    }
}

/// A default value counts if no other stands before it.
pub proof fn lemma_default_place(cs: Seq<ColumnConstraintView>, i: int)
    requires
        0 <= i <= cs.len(),
        i < cs.len() ==> cs[i] is Default,
        forall|j: int| 0 <= j < i ==> !(#[trigger] cs[j] is Default),
    ensures
        super::ast::default_place(cs) == i,
    decreases cs.len(),
{
    if i > 0 {
        let rest = cs.skip(1);
        assert(!(cs[0] is Default));
        assert forall|j: int| 0 <= j < i - 1 implies !(#[trigger] rest[j] is Default) by {
            assert(rest[j] == cs[j + 1]);
        }
        lemma_default_place(rest, i - 1);
    }
}

/// The name of each join type.
pub proof fn lemma_join_name(k: JoinType)
    ensures
        k.name() == "Inner"@ <==> k is Inner,
        k.name() == "Left"@ <==> k is Left,
        k.name() == "Right"@ <==> k is Right,
        k.name() == "Full"@ <==> k is Full,
        k.name() == "Cross"@ <==> k is Cross,
{
    reveal_strlit("Inner");
    reveal_strlit("Left");
    reveal_strlit("Right");
    reveal_strlit("Full");
    reveal_strlit("Cross");
    assert("Inner"@.len() == 5 && "Right"@.len() == 5 && "Cross"@.len() == 5);
    assert("Left"@.len() == 4 && "Full"@.len() == 4);
    assert("Inner"@[0] == 'I' && "Right"@[0] == 'R' && "Cross"@[0] == 'C');
    assert("Left"@[0] == 'L' && "Full"@[0] == 'F');
}

} // verus!
