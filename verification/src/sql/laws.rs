//! Laws of statements.

use super::ast::{ColumnConstraintView, ColumnDefView, CreateTableView, StatementView};
use super::error::ParseErrorView;
use super::meaning;
use super::raw::{
    RawColumnDefView, RawColumnOptionView, RawCreateTableView, RawIndexColumnView,
    RawTableConstraintView,
};
use super::reader;
use super::text;
use vstd::prelude::*;

verus! {

/// Whether `name` is the name of a column.
pub open spec fn is_column(columns: Seq<ColumnDefView>, name: Seq<char>) -> bool {
    exists|i: int| 0 <= i < columns.len() && (#[trigger] columns[i]).name == name
}

/// A key: columns of the table, none twice.
pub open spec fn is_key(columns: Seq<ColumnDefView>, key: Seq<Seq<char>>) -> bool {
    &&& key.no_duplicates()
    &&& forall|j: int| 0 <= j < key.len() ==> is_column(columns, #[trigger] key[j])
}

/// A table whose keys and columns agree.
pub open spec fn consistent(t: CreateTableView) -> bool {
    &&& is_key(t.columns, t.primary_key)
    &&& forall|j: int| 0 <= j < t.unique_keys.len() ==> is_key(t.columns, #[trigger] t.unique_keys[j])
    &&& forall|i: int|
        0 <= i < t.columns.len() ==> {
            let c = #[trigger] t.columns[i];
            &&& c.constraints.no_duplicates()
            &&& c.constraints.contains(ColumnConstraintView::PrimaryKey)
                == t.primary_key.contains(c.name)
            &&& c.constraints.contains(ColumnConstraintView::Unique) == t.unique_keys.contains(
                seq![c.name],
            )
        }
}

/// In a table that `CREATE TABLE` makes the keys and the columns agree. The
/// primary key and each unique key list columns of the table, none twice. A column
/// is marked as a primary key exactly if it is part of the primary key, and as
/// unique exactly if it is a unique key by itself, whether the column or the
/// table declares it. No column has a constraint twice.
pub proof fn lemma_create_table_consistent(c: RawCreateTableView)
    requires
        meaning::create_table(c) is Ok,
    ensures
        consistent(meaning::create_table(c)->Ok_0),
{
    let columns = meaning::columns(c.columns)->Ok_0;
    let own = meaning::own_keys(columns);
    let keys = meaning::key_steps(c.constraints, columns, own)->Ok_0;
    let t = meaning::create_table(c)->Ok_0;
    lemma_columns_distinct(c.columns);
    lemma_columns_with(columns, ColumnConstraintView::PrimaryKey);
    lemma_columns_with(columns, ColumnConstraintView::Unique);
    assert forall|j: int| 0 <= j < own.unique.len() implies is_key(
        columns,
        #[trigger] own.unique[j],
    ) by {
        let names = meaning::columns_with(columns, ColumnConstraintView::Unique);
        assert(own.unique[j] == seq![names[j]]);
        assert(names.contains(names[j]));
    }
    assert forall|j: int| 0 <= j < own.primary.len() implies is_column(
        columns,
        #[trigger] own.primary[j],
    ) by {
        assert(own.primary.contains(own.primary[j]));
    }
    lemma_key_steps(c.constraints, columns, own);
    assert(t.columns == meaning::all_marked(columns, keys));
    lemma_same_names(columns, keys);
    assert forall|i: int| 0 <= i < t.columns.len() implies {
        let c = #[trigger] t.columns[i];
        &&& c.constraints.no_duplicates()
        &&& c.constraints.contains(ColumnConstraintView::PrimaryKey) == t.primary_key.contains(
            c.name,
        )
        &&& c.constraints.contains(ColumnConstraintView::Unique) == t.unique_keys.contains(
            seq![c.name],
        )
    } by {
        let b = columns[i];
        assert(t.columns[i] == meaning::marked(b, keys));
        let in_key = keys.primary.contains(b.name);
        let alone = keys.unique.contains(seq![b.name]);
        let first = meaning::with_constraint(
            b.constraints,
            ColumnConstraintView::PrimaryKey,
            in_key,
        );
        lemma_with_constraint(b.constraints, ColumnConstraintView::PrimaryKey, in_key);
        lemma_with_constraint(first, ColumnConstraintView::Unique, alone);
        if b.constraints.contains(ColumnConstraintView::PrimaryKey) {
            assert(own.primary.contains(b.name));
        }
        if b.constraints.contains(ColumnConstraintView::Unique) {
            let names = meaning::columns_with(columns, ColumnConstraintView::Unique);
            assert(names.contains(b.name));
            let j = choose|j: int| 0 <= j < names.len() && names[j] == b.name;
            assert(own.unique[j] == seq![b.name]);
            assert(own.unique.contains(seq![b.name]));
        }
    }
}

/// Marks change no names, and so no keys.
proof fn lemma_same_names(columns: Seq<ColumnDefView>, keys: meaning::Keys)
    ensures
        forall|key: Seq<Seq<char>>|
            is_key(columns, key) ==> #[trigger] is_key(meaning::all_marked(columns, keys), key),
{
    let marked = meaning::all_marked(columns, keys);
    assert forall|key: Seq<Seq<char>>| is_key(columns, key) implies #[trigger] is_key(
        marked,
        key,
    ) by {
        assert forall|j: int| 0 <= j < key.len() implies is_column(marked, #[trigger] key[j]) by {
            assert(is_column(columns, key[j]));
            let i = choose|i: int|
                0 <= i < columns.len() && (#[trigger] columns[i]).name == key[j];
            assert(marked[i].name == key[j]);
        }
    }
}

/// One more item, if it is missing, makes no duplicates.
proof fn lemma_with_item<T>(s: Seq<T>, x: T)
    requires
        s.no_duplicates(),
    ensures
        meaning::with_item(s, x).no_duplicates(),
        forall|y: T|
            #[trigger] meaning::with_item(s, x).contains(y) == (s.contains(y) || y == x),
{
    let r = meaning::with_item(s, x);
    if !s.contains(x) {
        assert(r[s.len() as int] == x);
        assert forall|y: T| #[trigger] r.contains(y) == (s.contains(y) || y == x) by {
            if s.contains(y) {
                let i = choose|i: int| 0 <= i < s.len() && s[i] == y;
                assert(r[i] == y);
            }
            if r.contains(y) {
                let i = choose|i: int| 0 <= i < r.len() && r[i] == y;
                if i < s.len() {
                    assert(s[i] == y);
                }
            }
        }
    }
}

proof fn lemma_with_constraint(s: Seq<ColumnConstraintView>, c: ColumnConstraintView, b: bool)
    requires
        s.no_duplicates(),
    ensures
        meaning::with_constraint(s, c, b).no_duplicates(),
        forall|d: ColumnConstraintView|
            #[trigger] meaning::with_constraint(s, c, b).contains(d) == (s.contains(d) || (b && d
                == c)),
{
    lemma_with_item(s, c);
}

/// The columns of a new table have no constraint twice.
proof fn lemma_columns_distinct(s: Seq<RawColumnDefView>)
    requires
        meaning::columns(s) is Ok,
    ensures
        forall|i: int|
            0 <= i < meaning::columns(s)->Ok_0.len() ==> (
            #[trigger] meaning::columns(s)->Ok_0[i]).constraints.no_duplicates(),
    decreases s.len(),
{
    if s.len() > 0 {
        let x = meaning::column(s[0])->Ok_0;
        let rest = meaning::columns(s.skip(1))->Ok_0;
        lemma_columns_distinct(s.skip(1));
        lemma_options_distinct(s[0].options, Seq::empty());
        let all = meaning::columns(s)->Ok_0;
        assert(all == seq![x] + rest);
        assert forall|i: int| 0 <= i < all.len() implies (
        #[trigger] all[i]).constraints.no_duplicates() by {
            if i > 0 {
                assert(all[i] == rest[i - 1]);
            }
        }
    }
}

proof fn lemma_options_distinct(s: Seq<RawColumnOptionView>, acc: Seq<ColumnConstraintView>)
    requires
        acc.no_duplicates(),
    ensures
        meaning::column_options(s, acc) matches Ok(v) ==> v.no_duplicates(),
    decreases s.len(),
{
    if s.len() > 0 {
        if let Ok(o) = meaning::column_option(s[0]) {
            match o {
                Some(c) => {
                    lemma_with_item(acc, c);
                    lemma_options_distinct(s.skip(1), meaning::with_item(acc, c));
                },
                None => lemma_options_distinct(s.skip(1), acc),
            }
        }
    }
}

/// The names that `columns_with` lists are those of the columns with the
/// constraint.
proof fn lemma_columns_with(s: Seq<ColumnDefView>, c: ColumnConstraintView)
    ensures
        forall|name: Seq<char>|
            #[trigger] meaning::columns_with(s, c).contains(name) ==> is_column(s, name),
        forall|i: int|
            0 <= i < s.len() && (#[trigger] s[i]).constraints.contains(c)
                ==> meaning::columns_with(s, c).contains(s[i].name),
    decreases s.len(),
{
    if s.len() > 0 {
        let init = s.drop_last();
        let names = meaning::columns_with(s, c);
        let before = meaning::columns_with(init, c);
        lemma_columns_with(init, c);
        assert forall|name: Seq<char>| #[trigger] names.contains(name) implies is_column(
            s,
            name,
        ) by {
            let j = choose|j: int| 0 <= j < names.len() && names[j] == name;
            if j < before.len() {
                assert(before[j] == name);
                assert(before.contains(name));
                let i = choose|i: int| 0 <= i < init.len() && (#[trigger] init[i]).name == name;
                assert(s[i].name == name);
            } else {
                assert(s[s.len() - 1].name == name);
            }
        }
        assert forall|i: int|
            0 <= i < s.len() && (#[trigger] s[i]).constraints.contains(c) implies names.contains(
            s[i].name,
        ) by {
            if i < s.len() - 1 {
                assert(init[i] == s[i]);
                assert(before.contains(s[i].name));
                let j = choose|j: int| 0 <= j < before.len() && before[j] == s[i].name;
                assert(names[j] == s[i].name);
            } else {
                assert(names[before.len() as int] == s[i].name);
            }
        }
    }
}

/// What `find_column` finds is a column.
proof fn lemma_find_column(s: Seq<ColumnDefView>, name: Seq<char>)
    ensures
        meaning::find_column(s, name) matches Some(n) ==> is_column(s, n),
    decreases s.len(),
{
    if s.len() > 0 {
        if text::same_letters(s[0].name, name) {
            assert(is_column(s, s[0].name));
        } else {
            lemma_find_column(s.skip(1), name);
            if let Some(n) = meaning::find_column(s.skip(1), name) {
                let i = choose|i: int|
                    0 <= i < s.skip(1).len() && (#[trigger] s.skip(1)[i]).name == n;
                assert(s[i + 1].name == n);
            }
        }
    }
}

/// The columns of a table constraint are a key.
proof fn lemma_key_columns(
    s: Seq<RawIndexColumnView>,
    columns: Seq<ColumnDefView>,
    acc: Seq<Seq<char>>,
)
    requires
        is_key(columns, acc),
    ensures
        meaning::key_columns(s, columns, acc) matches Ok(v) ==> is_key(columns, v),
    decreases s.len(),
{
    if s.len() > 0 && s[0].ident is Some {
        let name = s[0].ident->0;
        lemma_find_column(columns, name);
        if let Some(found) = meaning::find_column(columns, name) {
            if !acc.contains(found) {
                assert(is_key(columns, acc.push(found)));
                lemma_key_columns(s.skip(1), columns, acc.push(found));
            }
        }
    }
}

/// Table constraints keep the keys that are there, and add keys.
proof fn lemma_key_steps(
    s: Seq<RawTableConstraintView>,
    columns: Seq<ColumnDefView>,
    k: meaning::Keys,
)
    requires
        is_key(columns, k.primary),
        forall|j: int| 0 <= j < k.unique.len() ==> is_key(columns, #[trigger] k.unique[j]),
        meaning::key_steps(s, columns, k) is Ok,
    ensures
        ({
            let r = meaning::key_steps(s, columns, k)->Ok_0;
            &&& is_key(columns, r.primary)
            &&& forall|j: int| 0 <= j < r.unique.len() ==> is_key(columns, #[trigger] r.unique[j])
            &&& forall|x: Seq<char>| k.primary.contains(x) ==> #[trigger] r.primary.contains(x)
            &&& forall|x: Seq<Seq<char>>|
                k.unique.contains(x) ==> #[trigger] r.unique.contains(x)
        }),
    decreases s.len(),
{
    if s.len() > 0 {
        let m = meaning::key_step(s[0], columns, k)->Ok_0;
        match s[0] {
            RawTableConstraintView::PrimaryKey(v) => {
                lemma_key_columns(v, columns, Seq::empty());
            },
            RawTableConstraintView::Unique(v) => {
                lemma_key_columns(v, columns, Seq::empty());
                let key = meaning::key_columns(v, columns, Seq::empty())->Ok_0;
                assert forall|j: int| 0 <= j < m.unique.len() implies is_key(
                    columns,
                    #[trigger] m.unique[j],
                ) by {
                    if j < k.unique.len() {
                        assert(m.unique[j] == k.unique[j]);
                    } else {
                        assert(m.unique[j] == key);
                    }
                }
                assert forall|x: Seq<Seq<char>>| k.unique.contains(x) implies m.unique.contains(
                    x,
                ) by {
                    let j = choose|j: int| 0 <= j < k.unique.len() && k.unique[j] == x;
                    assert(m.unique[j] == x);
                }
            },
            RawTableConstraintView::Other(_) => {},
        }
        lemma_key_steps(s.skip(1), columns, m);
    }
}

/// A text without white space around it that is no command is parsed to a
/// statement exactly if it is parsed to a list of that one statement.
pub proof fn lemma_parse_one(sql: Seq<char>, s: StatementView)
    requires
        sql.len() > 0,
        text::trimmed(sql) == sql,
        meaning::command(meaning::bare(sql), text::uppercase(meaning::bare(sql))) is None,
    ensures
        meaning::parse(sql) == Ok::<StatementView, ParseErrorView>(s) <==> meaning::parse_multi(sql)
            == Ok::<Seq<StatementView>, ParseErrorView>(seq![s]),
{
    if let Ok(v) = reader::parsed(sql) {
        lemma_statements_len(v);
        if v.len() == 1 {
            reveal_with_fuel(meaning::statements, 2);
            if let Ok(x) = meaning::statement(v[0]) {
                assert(seq![x] + Seq::<StatementView>::empty() =~= seq![x]);
                assert(seq![x][0] == x);
                assert(seq![s][0] == s);
            }
        }
        assert(seq![s].len() == 1);
    }
}

/// There are as many statements as the SQL parser gives.
pub proof fn lemma_statements_len(v: Seq<super::raw::RawStatementView>)
    ensures
        meaning::statements(v) matches Ok(s) ==> s.len() == v.len(),
    decreases v.len(),
{
    if v.len() > 0 {
        lemma_statements_len(v.skip(1));
    }
}

} // verus!
