//! From SQL text to statements.

use super::ast::{
    Assignment, BinaryOperator, ColumnConstraint, ColumnDef, CreateTable, Delete, DropTable, Expr,
    FunctionArgs, Insert, InsertSource, Join, JoinType, LiteralValue, OrderBy, Select,
    SelectColumn, SqlDataType, Statement, TableRef, UnaryOperator, Update,
};
use super::error;
use super::error::{ParseError, ParseErrorView, ParseResult};
use super::meaning;
use super::raw::{
    RawArguments, RawAssignment, RawBody, RawColumnDef, RawColumnOption, RawConstraint, RawCount,
    RawCreateTable, RawDelete, RawDistinct, RawExpr, RawFactor, RawFunction, RawFunctionArg,
    RawGroupBy, RawIndexColumn, RawInsert, RawJoin, RawJoinOperator, RawLimit, RawName, RawOrder,
    RawOrderBy, RawOrderByExpr, RawPart, RawQuery, RawSelect, RawSelectFlags, RawSelectItem,
    RawSort, RawStatement, RawTable, RawTableConstraint, RawTableObject, RawTarget, RawUpdate,
    RawValue,
};
use super::reader;
use super::text;
use vstd::prelude::*;
use vstd::string::*;

verus! {

/// The views of values.
pub open spec fn views<T: View>(s: Seq<T>) -> Seq<T::V> {
    Seq::new(s.len(), |i: int| s[i]@)
}

/// The view of an optional value.
pub open spec fn opt_view<T: View>(o: Option<T>) -> Option<T::V> {
    match o {
        Some(x) => Some(x@),
        None => None,
    }
}

/// The view of an outcome that is a list.
pub open spec fn list_outcome<T: View>(r: Result<Vec<T>, ParseError>) -> Result<
    Seq<T::V>,
    ParseErrorView,
> {
    match r {
        Ok(v) => Ok(views(v@)),
        Err(e) => Err(e@),
    }
}

/// The view of an outcome that may be missing.
pub open spec fn opt_outcome<T: View>(r: Result<Option<T>, ParseError>) -> Result<
    Option<T::V>,
    ParseErrorView,
> {
    match r {
        Ok(v) => Ok(opt_view(v)),
        Err(e) => Err(e@),
    }
}

/// The view of an outcome that is a plain value.
pub open spec fn plain_outcome<T>(r: Result<T, ParseError>) -> Result<T, ParseErrorView> {
    match r {
        Ok(v) => Ok(v),
        Err(e) => Err(e@),
    }
}

/// The view of an outcome that is a name with an alias.
pub open spec fn alias_outcome(r: Result<(String, Option<String>), ParseError>) -> Result<
    (Seq<char>, Option<Seq<char>>),
    ParseErrorView,
> {
    match r {
        Ok((t, a)) => Ok((t@, opt_view(a))),
        Err(e) => Err(e@),
    }
}

/// Nothing before an outcome leaves it as it is.
proof fn lemma_prepend_none<T>(r: Result<Seq<T>, ParseErrorView>)
    ensures
        meaning::prepend(Seq::empty(), r) == r,
{
    if let Ok(w) = r {
        assert(Seq::<T>::empty() + w =~= w);
    }
}

/// Items before nothing are the items.
proof fn lemma_prepend_last<T>(v: Seq<T>)
    ensures
        meaning::prepend(v, Ok(Seq::empty())) == Ok::<Seq<T>, ParseErrorView>(v),
{
    assert(v + Seq::<T>::empty() =~= v);
}

/// A statement that is not supported.
fn bad_statement<T>(s: &str) -> (r: ParseResult<T>)
    ensures
        r matches Err(e) && e@ == ParseErrorView::UnsupportedStatement(s@),
{
    Err(ParseError::UnsupportedStatement(s.to_owned()))
}

/// An expression that is not supported.
fn bad_expression<T>(s: &str) -> (r: ParseResult<T>)
    ensures
        r matches Err(e) && e@ == ParseErrorView::UnsupportedExpression(s@),
{
    Err(ParseError::UnsupportedExpression(s.to_owned()))
}

/// An identifier that is not valid.
fn bad_identifier<T>(s: &str) -> (r: ParseResult<T>)
    ensures
        r matches Err(e) && e@ == ParseErrorView::InvalidIdentifier(s@),
{
    Err(ParseError::InvalidIdentifier(s.to_owned()))
}

/// A clause that is missing.
fn missing<T>(s: &str) -> (r: ParseResult<T>)
    ensures
        r matches Err(e) && e@ == ParseErrorView::MissingClause(s@),
{
    Err(ParseError::MissingClause(s.to_owned()))
}

/// The error for the clause that is not supported, if there is one.
fn refuse(clause: Option<&str>) -> (r: ParseResult<()>)
    ensures
        plain_outcome(r) == meaning::refusal(
            match clause {
                Some(c) => Some(c@),
                None => None,
            },
        ),
{
    match clause {
        Some(c) => bad_statement(&text::cat(c, " not supported")),
        None => Ok(()),
    }
}

/// Whether a text is among others.
fn contains_text(v: &Vec<String>, s: &String) -> (b: bool)
    ensures
        b == views(v@).contains(s@),
{
    let mut i: usize = 0;
    while i < v.len()
        invariant
            i <= v@.len(),
            forall|j: int| 0 <= j < i ==> views(v@)[j] != s@,
        decreases v@.len() - i,
    {
        assert(views(v@)[i as int] == v@[i as int]@);
        if text::same(&v[i], s) {
            return true;
        }
        i = i + 1;
    }
    false
}

/// The SQL parser.
pub struct Parser;

impl Parser {
    /// The statement that a text stands for.
    pub fn parse(sql: &str) -> (r: ParseResult<Statement>)
        ensures
            error::outcome(r) == meaning::parse(sql@),
    {
        let s = text::trim(sql);
        if text::same(&s, "") {
            proof {
                reveal_strlit("");
            }
            return Err(ParseError::EmptyQuery);
        }
        proof {
            reveal_strlit("");
            if s@.len() == 0 {
                assert(s@ =~= ""@);
            }
        }
        let bare = text::trim(&text::trim_end_matches(&s, ';'));
        let upper = text::upper(&bare);
        if let Some(r) = Self::command(&bare, &upper) {
            return r;
        }
        match reader::read_sql(&s) {
            Ok(statements) => Self::convert_sole(&statements),
            Err(e) => Err(ParseError::from_parser(&e)),
        }
    }

    /// The statements that a text stands for.
    pub fn parse_multi(sql: &str) -> (r: ParseResult<Vec<Statement>>)
        ensures
            list_outcome(r) == meaning::parse_multi(sql@),
    {
        match reader::read_sql(sql) {
            Ok(statements) => {
                assert(reader::statement_views(statements@) =~= views(statements@));
                Self::convert_statements(&statements)
            },
            Err(e) => Err(ParseError::from_parser(&e)),
        }
    }

    /// The statement that a command stands for; `upper` is the text in capitals.
    pub fn command(s: &str, upper: &str) -> (r: Option<ParseResult<Statement>>)
        ensures
            match r {
                Some(x) => meaning::command(s@, upper@) == Some(error::outcome(x)),
                None => meaning::command(s@, upper@) is None,
            },
    {
        if text::same(upper, "BEGIN") || text::same(upper, "BEGIN TRANSACTION") || text::same(
            upper,
            "START TRANSACTION",
        ) {
            return Some(Ok(Statement::Begin));
        }
        if text::same(upper, "COMMIT") {
            return Some(Ok(Statement::Commit));
        }
        if text::same(upper, "ROLLBACK") {
            return Some(Ok(Statement::Rollback));
        }
        if text::same(upper, "SHOW TABLES") || text::same(upper, "SHOW TABLE") {
            return Some(Ok(Statement::ShowTables));
        }
        if text::starts_with(upper, "DESCRIBE ") || text::starts_with(upper, "DESC ") {
            return match text::second_word(s) {
                Some(t) => Some(Ok(Statement::Describe(t))),
                None => Some(missing("table name")),
            };
        }
        None
    }

    /// The only statement of a text.
    pub fn convert_sole(statements: &Vec<RawStatement>) -> (r: ParseResult<Statement>)
        ensures
            error::outcome(r) == meaning::sole_statement(
                reader::statement_views(statements@),
            ),
    {
        if statements.len() == 0 {
            return Err(ParseError::EmptyQuery);
        }
        if statements.len() > 1 {
            return Err(ParseError::MultipleStatements);
        }
        Self::convert_statement(&statements[0])
    }

    /// Statements.
    fn convert_statements(v: &Vec<RawStatement>) -> (r: ParseResult<Vec<Statement>>)
        ensures
            list_outcome(r) == meaning::statements(views(v@)),
    {
        let ghost all = views(v@);
        let mut out: Vec<Statement> = Vec::with_capacity(v.len());
        let mut i: usize = 0;
        proof {
            assert(all.skip(0) =~= all);
            assert(views(out@) =~= Seq::empty());
            lemma_prepend_none(meaning::statements(all));
        }
        while i < v.len()
            invariant
                i <= v@.len(),
                all == views(v@),
                meaning::statements(all) == meaning::prepend(
                    views(out@),
                    meaning::statements(all.skip(i as int)),
                ),
            decreases v@.len() - i,
        {
            proof {
                assert(all.skip(i as int)[0] == v@[i as int]@);
                assert(all.skip(i as int).skip(1) =~= all.skip(i + 1));
            }
            match Self::convert_statement(&v[i]) {
                Err(e) => return Err(e),
                Ok(x) => {
                    let ghost before = views(out@);
                    out.push(x);
                    proof {
                        meaning::lemma_prepend(before, x@, meaning::statements(all.skip(i + 1)));
                        assert(views(out@) =~= before.push(x@));
                    }
                },
            }
            i = i + 1;
        }
        proof {
            assert(all.skip(i as int) =~= Seq::empty());
            lemma_prepend_last(views(out@));
        }
        Ok(out)
    }

    /// A statement.
    pub fn convert_statement(stmt: &RawStatement) -> (r: ParseResult<Statement>)
        ensures
            error::outcome(r) == meaning::statement(stmt@),
    {
        match stmt {
            RawStatement::CreateTable(create) => match Self::convert_create_table(create) {
                Ok(t) => Ok(Statement::CreateTable(t)),
                Err(e) => Err(e),
            },
            RawStatement::Drop { object_type, names, if_exists } => {
                assert(stmt@->names =~= views(names@));
                Self::convert_drop(object_type, names, *if_exists)
            },
            RawStatement::Query(query) => match Self::convert_query(query) {
                Ok(s) => Ok(Statement::Select(s)),
                Err(e) => Err(e),
            },
            RawStatement::Insert(insert) => Self::convert_insert(insert),
            RawStatement::Update(update) => Self::convert_update(update),
            RawStatement::Delete(delete) => Self::convert_delete(delete),
            RawStatement::StartTransaction => Ok(Statement::Begin),
            RawStatement::Commit => Ok(Statement::Commit),
            RawStatement::Rollback => Ok(Statement::Rollback),
            RawStatement::ShowTables => Ok(Statement::ShowTables),
            RawStatement::ExplainTable(name) => match Self::extract_table_name(name) {
                Ok(t) => Ok(Statement::Describe(t)),
                Err(e) => Err(e),
            },
            RawStatement::Other(s) => bad_statement(s),
        }
    }

    /// `CREATE TABLE`.
    pub fn convert_create_table(create: &RawCreateTable) -> (r: ParseResult<CreateTable>)
        ensures
            error::outcome(r) == meaning::create_table(create@),
    {
        let clause: Option<&str> = if create.query {
            Some("CREATE TABLE ... AS SELECT")
        } else if create.like || create.clone_of {
            Some("CREATE TABLE ... LIKE/CLONE")
        } else if create.or_replace || create.temporary {
            Some("CREATE OR REPLACE / TEMPORARY TABLE")
        } else {
            None
        };
        if let Err(e) = refuse(clause) {
            return Err(e);
        }
        let name = match Self::extract_table_name(&create.name) {
            Ok(n) => n,
            Err(e) => return Err(e),
        };
        assert(create@.columns =~= views(create.columns@));
        assert(create@.constraints =~= views(create.constraints@));
        let columns = match Self::convert_column_defs(&create.columns) {
            Ok(c) => c,
            Err(e) => return Err(e),
        };
        Self::build_table(name, columns, &create.constraints, create.if_not_exists)
    }

    /// The table that columns and table constraints make.
    pub fn build_table(
        name: String,
        columns: Vec<ColumnDef>,
        constraints: &Vec<RawTableConstraint>,
        if_not_exists: bool,
    ) -> (r: ParseResult<CreateTable>)
        ensures
            error::outcome(r) == meaning::table(
                name@,
                views(columns@),
                views(constraints@),
                if_not_exists,
            ),
    {
        let ghost cols = views(columns@);
        let primary = Self::columns_with(&columns, &ColumnConstraint::PrimaryKey);
        if primary.len() > 1 {
            return bad_statement(
                "multiple column level PRIMARY KEY declarations, use PRIMARY KEY (a, b)",
            );
        }
        let unique_names = Self::columns_with(&columns, &ColumnConstraint::Unique);
        let unique = Self::single_keys(unique_names);
        let mut keys = TableKeys { primary, unique };
        assert(keys@ =~= meaning::own_keys(cols));
        if let Err(e) = keys.apply_all(constraints, &columns) {
            return Err(e);
        }
        let mut marked: Vec<ColumnDef> = Vec::with_capacity(columns.len());
        let mut i: usize = 0;
        while i < columns.len()
            invariant
                i <= columns@.len(),
                cols == views(columns@),
                marked@.len() == i,
                forall|j: int|
                    0 <= j < i ==> (#[trigger] marked@[j])@ == meaning::marked(cols[j], keys@),
            decreases columns@.len() - i,
        {
            assert(cols[i as int] == columns@[i as int]@);
            marked.push(Self::mark_column(&columns[i], &keys));
            i = i + 1;
        }
        let table = CreateTable {
            name,
            columns: marked,
            primary_key: keys.primary,
            unique_keys: keys.unique,
            if_not_exists,
        };
        proof {
            assert(table@.columns =~= meaning::all_marked(cols, keys@));
            assert(table@.primary_key =~= keys@.primary);
            assert(table@.unique_keys =~~= keys@.unique);
        }
        Ok(table)
    }

    /// The names of the columns with a constraint.
    fn columns_with(columns: &Vec<ColumnDef>, c: &ColumnConstraint) -> (r: Vec<String>)
        ensures
            views(r@) == meaning::columns_with(views(columns@), c@),
    {
        let ghost all = views(columns@);
        let mut r: Vec<String> = Vec::new();
        let mut i: usize = 0;
        assert(all.take(0) =~= Seq::empty());
        assert(views(r@) =~= Seq::empty());
        while i < columns.len()
            invariant
                i <= columns@.len(),
                all == views(columns@),
                views(r@) == meaning::columns_with(all.take(i as int), c@),
            decreases columns@.len() - i,
        {
            proof {
                assert(all.take(i + 1).drop_last() =~= all.take(i as int));
                assert(all.take(i + 1).last() == columns@[i as int]@);
            }
            if columns[i].has_constraint(c) {
                let ghost before = views(r@);
                r.push(columns[i].name.clone());
                assert(views(r@) =~= before.push(columns@[i as int]@.name));
            }
            i = i + 1;
        }
        assert(all.take(i as int) =~= all);
        r
    }

    /// Keys of one column each.
    fn single_keys(names: Vec<String>) -> (r: Vec<Vec<String>>)
        ensures
            key_views(r@) == meaning::single_keys(views(names@)),
    {
        let mut r: Vec<Vec<String>> = Vec::with_capacity(names.len());
        let mut i: usize = 0;
        while i < names.len()
            invariant
                i <= names@.len(),
                r@.len() == i,
                forall|j: int| 0 <= j < i ==> views(#[trigger] r@[j]@) == seq![names@[j]@],
            decreases names@.len() - i,
        {
            let key: Vec<String> = vec![names[i].clone()];
            assert(views(key@) =~= seq![names@[i as int]@]);
            r.push(key);
            i = i + 1;
        }
        assert(key_views(r@) =~= meaning::single_keys(views(names@)));
        r
    }

    /// A column with what the keys of the table say of it.
    fn mark_column(column: &ColumnDef, keys: &TableKeys) -> (r: ColumnDef)
        ensures
            r@ == meaning::marked(column@, keys@),
    {
        let mut r = column.copy();
        if contains_text(&keys.primary, &column.name) {
            r.add_constraint(ColumnConstraint::PrimaryKey);
        }
        if keys.has_single(&column.name) {
            r.add_constraint(ColumnConstraint::Unique);
        }
        r
    }

    /// The columns of a table constraint.
    pub fn constraint_columns(index_columns: &Vec<RawIndexColumn>, columns: &Vec<ColumnDef>) -> (r:
        ParseResult<Vec<String>>)
        ensures
            list_outcome(r) == meaning::key_columns(
                views(index_columns@),
                views(columns@),
                Seq::empty(),
            ),
    {
        let ghost all = views(index_columns@);
        let mut out: Vec<String> = Vec::with_capacity(index_columns.len());
        let mut i: usize = 0;
        proof {
            assert(all.skip(0) =~= all);
            assert(views(out@) =~= Seq::empty());
        }
        while i < index_columns.len()
            invariant
                i <= index_columns@.len(),
                all == views(index_columns@),
                meaning::key_columns(all, views(columns@), Seq::empty()) == meaning::key_columns(
                    all.skip(i as int),
                    views(columns@),
                    views(out@),
                ),
            decreases index_columns@.len() - i,
        {
            let col = &index_columns[i];
            proof {
                assert(all.skip(i as int)[0] == col@);
                assert(all.skip(i as int).skip(1) =~= all.skip(i + 1));
            }
            let ident = match &col.ident {
                Some(s) => s,
                None => return bad_expression(
                    &text::cat("constraint column must be a plain column name: ", &col.text),
                ),
            };
            let found = match Self::find_column(columns, ident) {
                Some(n) => n,
                None => return bad_identifier(
                    &text::cat("constraint references unknown column ", ident),
                ),
            };
            if contains_text(&out, &found) {
                return bad_identifier(
                    &text::cat3("column ", &found, " listed twice in constraint"),
                );
            }
            let ghost before = views(out@);
            let ghost name = found@;
            out.push(found);
            assert(views(out@) =~= before.push(name));
            i = i + 1;
        }
        Ok(out)
    }

    /// The name of the first column that is called `name`, whatever the case of
    /// its letters.
    fn find_column(columns: &Vec<ColumnDef>, name: &str) -> (r: Option<String>)
        ensures
            opt_view(r) == meaning::find_column(views(columns@), name@),
    {
        let ghost all = views(columns@);
        let mut i: usize = 0;
        assert(all.skip(0) =~= all);
        while i < columns.len()
            invariant
                i <= columns@.len(),
                all == views(columns@),
                meaning::find_column(all, name@) == meaning::find_column(all.skip(i as int), name@),
            decreases columns@.len() - i,
        {
            proof {
                assert(all.skip(i as int)[0] == columns@[i as int]@);
                assert(all.skip(i as int).skip(1) =~= all.skip(i + 1));
            }
            if text::eq_ignore_ascii_case(&columns[i].name, name) {
                return Some(columns[i].name.clone());
            }
            i = i + 1;
        }
        None
    }

    /// The columns of a new table.
    fn convert_column_defs(v: &Vec<RawColumnDef>) -> (r: ParseResult<Vec<ColumnDef>>)
        ensures
            list_outcome(r) == meaning::columns(views(v@)),
    {
        let ghost all = views(v@);
        let mut out: Vec<ColumnDef> = Vec::with_capacity(v.len());
        let mut i: usize = 0;
        proof {
            assert(all.skip(0) =~= all);
            assert(views(out@) =~= Seq::empty());
            lemma_prepend_none(meaning::columns(all));
        }
        while i < v.len()
            invariant
                i <= v@.len(),
                all == views(v@),
                meaning::columns(all) == meaning::prepend(
                    views(out@),
                    meaning::columns(all.skip(i as int)),
                ),
            decreases v@.len() - i,
        {
            proof {
                assert(all.skip(i as int)[0] == v@[i as int]@);
                assert(all.skip(i as int).skip(1) =~= all.skip(i + 1));
            }
            match Self::convert_column_def(&v[i]) {
                Err(e) => return Err(e),
                Ok(x) => {
                    let ghost before = views(out@);
                    out.push(x);
                    proof {
                        meaning::lemma_prepend(before, x@, meaning::columns(all.skip(i + 1)));
                        assert(views(out@) =~= before.push(x@));
                    }
                },
            }
            i = i + 1;
        }
        proof {
            assert(all.skip(i as int) =~= Seq::empty());
            lemma_prepend_last(views(out@));
        }
        Ok(out)
    }

    /// A column of a new table.
    pub fn convert_column_def(col: &RawColumnDef) -> (r: ParseResult<ColumnDef>)
        ensures
            error::outcome(r) == meaning::column(col@),
    {
        let data_type = match Self::convert_data_type(&col.data_type) {
            Ok(t) => t,
            Err(e) => return Err(e),
        };
        let mut column = ColumnDef {
            name: col.name.clone(),
            data_type,
            constraints: Vec::new(),
        };
        let ghost all = col@.options;
        let mut i: usize = 0;
        proof {
            assert(all =~= views(col.options@));
            assert(all.skip(0) =~= all);
            assert(column@.constraints =~= Seq::empty());
        }
        while i < col.options.len()
            invariant
                i <= col.options@.len(),
                all == views(col.options@),
                column@.name == col@.name,
                column@.data_type == data_type,
                meaning::column_options(all, Seq::empty()) == meaning::column_options(
                    all.skip(i as int),
                    column@.constraints,
                ),
                meaning::data_type(col@.data_type) == Ok::<SqlDataType, ParseErrorView>(data_type),
                all == col@.options,
            decreases col.options@.len() - i,
        {
            proof {
                assert(all.skip(i as int)[0] == col.options@[i as int]@);
                assert(all.skip(i as int).skip(1) =~= all.skip(i + 1));
            }
            match Self::convert_column_option(&col.options[i]) {
                Ok(Some(c)) => column.add_constraint(c),
                Ok(None) => {},
                Err(e) => return Err(e),
            }
            i = i + 1;
        }
        Ok(column)
    }

    /// A type by its kind.
    pub fn convert_data_type(dt: &str) -> (r: ParseResult<SqlDataType>)
        ensures
            plain_outcome(r) == meaning::data_type(dt@),
    {
        let k = head_word(dt);
        if text::same(&k, "Text") || text::same(&k, "Varchar") || text::same(&k, "CharVarying")
            || text::same(&k, "Character") || text::same(&k, "Char") || text::same(&k, "String") {
            Ok(SqlDataType::Text)
        } else if text::same(&k, "Int") || text::same(&k, "Integer") || text::same(&k, "BigInt")
            || text::same(&k, "SmallInt") || text::same(&k, "TinyInt") {
            Ok(SqlDataType::Integer)
        } else if text::same(&k, "Float") || text::same(&k, "Real") || text::same(&k, "Double")
            || text::same(&k, "DoublePrecision") || text::same(&k, "Decimal") || text::same(
            &k,
            "Numeric",
        ) {
            Ok(SqlDataType::Float)
        } else if text::same(&k, "Boolean") || text::same(&k, "Bool") {
            Ok(SqlDataType::Boolean)
        } else if text::same(&k, "JSON") || text::same(&k, "JSONB") {
            Ok(SqlDataType::Json)
        } else if text::same(&k, "Timestamp") || text::same(&k, "Datetime") || text::same(
            &k,
            "Date",
        ) {
            Ok(SqlDataType::Timestamp)
        } else if text::same(&k, "Uuid") {
            Ok(SqlDataType::Uuid)
        } else {
            Err(ParseError::UnsupportedDataType(dt.to_owned()))
        }
    }

    /// The constraint that an option of a column stands for, if it does for one.
    pub fn convert_column_option(opt: &RawColumnOption) -> (r: ParseResult<
        Option<ColumnConstraint>,
    >)
        ensures
            opt_outcome(r) == meaning::column_option(opt@),
    {
        match opt {
            RawColumnOption::Null => Ok(None),
            RawColumnOption::NotNull => Ok(Some(ColumnConstraint::NotNull)),
            RawColumnOption::Unique => Ok(Some(ColumnConstraint::Unique)),
            RawColumnOption::PrimaryKey => Ok(Some(ColumnConstraint::PrimaryKey)),
            RawColumnOption::Default(expr) => match Self::convert_expr(expr) {
                Ok(e) => Ok(Some(ColumnConstraint::Default(e))),
                Err(e) => Err(e),
            },
            RawColumnOption::Comment => Ok(None),
            RawColumnOption::Other(s) => bad_statement(
                &text::cat("column option not supported: ", s),
            ),
        }
    }

    /// `DROP`.
    pub fn convert_drop(object_type: &str, names: &Vec<RawName>, if_exists: bool) -> (r:
        ParseResult<Statement>)
        ensures
            error::outcome(r) == meaning::drop_table(object_type@, views(names@), if_exists),
    {
        if !text::same(object_type, "Table") {
            return bad_statement(&text::cat3("DROP ", object_type, " not supported"));
        }
        if names.len() != 1 {
            return bad_statement("DROP multiple tables not supported");
        }
        match Self::extract_table_name(&names[0]) {
            Ok(name) => Ok(Statement::DropTable(DropTable { name, if_exists })),
            Err(e) => Err(e),
        }
    }

    /// A query.
    pub fn convert_query(query: &RawQuery) -> (r: ParseResult<Select>)
        ensures
            error::outcome(r) == meaning::query(query@),
    {
        let clause: Option<&str> = if query.with {
            Some("WITH (common table expressions)")
        } else if query.fetch || query.locks > 0 || query.for_clause {
            Some("FETCH / FOR UPDATE / FOR clauses")
        } else if query.pipe_operators > 0 {
            Some("pipe operators")
        } else {
            None
        };
        if let Err(e) = refuse(clause) {
            return Err(e);
        }
        match &query.body {
            RawBody::Select(select) => Self::convert_select(query, select),
            RawBody::Values { rows: _, text } => bad_statement(
                &text::cat("Unsupported query type: ", text),
            ),
            RawBody::Other(s) => bad_statement(&text::cat("Unsupported query type: ", s)),
        }
    }

    /// A query whose body is a `SELECT`.
    fn convert_select(query: &RawQuery, select: &RawSelect) -> (r: ParseResult<Select>)
        requires
            meaning::query_refusal(query@) is None,
            query@.body is Select && query@.body->Select_0 == select@,
        ensures
            error::outcome(r) == meaning::query(query@),
    {
        if let Err(e) = Self::reject_unsupported_select_clauses(&select.flags) {
            return Err(e);
        }
        let distinct = match Self::convert_distinct(&select.distinct) {
            Ok(d) => d,
            Err(e) => return Err(e),
        };
        assert(select@.from =~= views(select.from@));
        assert(select@.projection =~= views(select.projection@));
        let from = match Self::convert_from(&select.from) {
            Ok(f) => f,
            Err(e) => return Err(e),
        };
        let columns = match Self::convert_projection(&select.projection) {
            Ok(c) => c,
            Err(e) => return Err(e),
        };
        let where_clause = match Self::convert_opt_expr(&select.selection) {
            Ok(w) => w,
            Err(e) => return Err(e),
        };
        let group_by = match Self::convert_group_by(&select.group_by) {
            Ok(g) => g,
            Err(e) => return Err(e),
        };
        let having = match Self::convert_opt_expr(&select.having) {
            Ok(h) => h,
            Err(e) => return Err(e),
        };
        let order_by = match &query.order_by {
            Some(o) => match Self::extract_order_by_exprs(o) {
                Ok(v) => v,
                Err(e) => return Err(e),
            },
            None => Vec::new(),
        };
        proof {
            if query.order_by is None {
                assert(views(order_by@) =~= Seq::empty());
            }
        }
        let (limit, offset) = match Self::convert_limit(&query.limit) {
            Ok(l) => l,
            Err(e) => return Err(e),
        };
        let s = Select {
            distinct,
            columns,
            from,
            where_clause,
            group_by,
            having,
            order_by,
            limit,
            offset,
        };
        proof {
            assert(s@.columns =~= views(columns@));
            assert(s@.group_by =~= views(group_by@));
            assert(s@.order_by =~= views(order_by@));
        }
        Ok(s)
    }

    /// `DISTINCT`.
    fn convert_distinct(d: &RawDistinct) -> (r: ParseResult<bool>)
        ensures
            plain_outcome(r) == meaning::distinct(d@),
    {
        match d {
            RawDistinct::Absent => Ok(false),
            RawDistinct::All => Ok(false),
            RawDistinct::Distinct => Ok(true),
            RawDistinct::Other(s) => bad_statement(&text::cat(s, " not supported")),
        }
    }

    /// `GROUP BY`.
    fn convert_group_by(g: &RawGroupBy) -> (r: ParseResult<Vec<Expr>>)
        ensures
            list_outcome(r) == meaning::group(g@),
    {
        match g {
            RawGroupBy::Expressions { exprs, modifiers } => {
                if *modifiers > 0 {
                    return bad_statement("GROUP BY ROLLUP/CUBE/GROUPING SETS not supported");
                }
                assert(g@->exprs =~= views(exprs@));
                Self::convert_exprs(exprs)
            },
            RawGroupBy::All => bad_statement("GROUP BY ALL not supported"),
        }
    }

    /// `LIMIT` and `OFFSET`.
    fn convert_limit(l: &RawLimit) -> (r: ParseResult<(Option<usize>, Option<usize>)>)
        ensures
            plain_outcome(r) == meaning::limits(l@),
    {
        match l {
            RawLimit::Absent => Ok((None, None)),
            RawLimit::LimitOffset { limit, offset, limit_by } => {
                if *limit_by > 0 {
                    return bad_statement("LIMIT BY not supported");
                }
                let n = match Self::opt_count(limit, "LIMIT") {
                    Ok(n) => n,
                    Err(e) => return Err(e),
                };
                match Self::opt_count(offset, "OFFSET") {
                    Ok(m) => Ok((n, m)),
                    Err(e) => Err(e),
                }
            },
            RawLimit::OffsetCommaLimit { offset, limit } => {
                let n: usize = match Self::expr_to_usize(limit, "LIMIT") {
                    Ok(n) => n,
                    Err(e) => return Err(e),
                };
                match Self::expr_to_usize(offset, "OFFSET") {
                    Ok(m) => Ok((Some(n), Some(m))),
                    Err(e) => Err(e),
                }
            },
        }
    }

    fn opt_count(c: &Option<RawCount>, clause: &str) -> (r: ParseResult<Option<usize>>)
        ensures
            plain_outcome(r) == meaning::opt_count(opt_view(*c), clause@),
    {
        match c {
            Some(x) => match Self::expr_to_usize(x, clause) {
                Ok(n) => Ok(Some(n)),
                Err(e) => Err(e),
            },
            None => Ok(None),
        }
    }

    /// Refuses the clauses of a `SELECT` that are not supported.
    pub fn reject_unsupported_select_clauses(f: &RawSelectFlags) -> (r: ParseResult<()>)
        ensures
            plain_outcome(r) == meaning::refusal(meaning::select_refusal(f@)),
    {
        let clause: Option<&str> = if f.top {
            Some("TOP")
        } else if f.into {
            Some("SELECT INTO")
        } else if f.lateral_views > 0 {
            Some("LATERAL VIEW")
        } else if f.prewhere {
            Some("PREWHERE")
        } else if f.connect_by > 0 {
            Some("CONNECT BY")
        } else if f.cluster_by > 0 {
            Some("CLUSTER BY")
        } else if f.distribute_by > 0 {
            Some("DISTRIBUTE BY")
        } else if f.sort_by > 0 {
            Some("SORT BY")
        } else if f.named_window > 0 {
            Some("WINDOW")
        } else if f.qualify {
            Some("QUALIFY")
        } else if f.exclude {
            Some("EXCLUDE")
        } else {
            None
        };
        refuse(clause)
    }

    /// `FROM`.
    pub fn convert_from(from: &Vec<RawTable>) -> (r: ParseResult<TableRef>)
        ensures
            error::outcome(r) == meaning::from(views(from@)),
    {
        if from.len() == 0 {
            return missing("FROM");
        }
        let ghost all = views(from@);
        let mut table_ref = match Self::extract_table_ref(&from[0]) {
            Ok(t) => t,
            Err(e) => return Err(e),
        };
        let ghost first = table_ref@;
        let ghost rest = all.skip(1);
        let mut i: usize = 1;
        proof {
            assert(all[0] == from@[0]@);
            assert(rest.skip(0) =~= rest);
            lemma_prepend_none(meaning::all_further(rest));
            assert(views(table_ref.joins@) =~= first.joins + Seq::empty());
        }
        let ghost mut done: Seq<super::ast::JoinView> = Seq::empty();
        while i < from.len()
            invariant
                1 <= i <= from@.len(),
                all == views(from@),
                rest == all.skip(1),
                meaning::table_ref(all[0]) == Ok::<_, ParseErrorView>(first),
                table_ref@.base == first.base,
                table_ref@.base_alias == first.base_alias,
                views(table_ref.joins@) == first.joins + done,
                meaning::all_further(rest) == meaning::prepend(
                    done,
                    meaning::all_further(rest.skip(i - 1)),
                ),
            decreases from@.len() - i,
        {
            proof {
                assert(rest.skip(i - 1)[0] == from@[i as int]@);
                assert(rest.skip(i - 1).skip(1) =~= rest.skip(i as int));
            }
            let mut further = match Self::convert_further(&from[i]) {
                Ok(f) => f,
                Err(e) => return Err(e),
            };
            let ghost more = views(further@);
            let ghost before = views(table_ref.joins@);
            let ghost old_joins = table_ref.joins@;
            let ghost new_joins = further@;
            table_ref.joins.append(&mut further);
            proof {
                assert(table_ref.joins@ == old_joins + new_joins);
                assert(views(table_ref.joins@) =~= before + more);
                assert(first.joins + done + more =~= first.joins + (done + more));
                if let Ok(w) = meaning::all_further(rest.skip(i as int)) {
                    assert(done + (more + w) =~= done + more + w);
                }
                done = done + more;
            }
            i = i + 1;
        }
        proof {
            assert(rest.skip(i - 1) =~= Seq::empty());
            lemma_prepend_last(done);
            assert(table_ref@.joins =~= first.joins + done);
        }
        Ok(table_ref)
    }

    /// A further item of `FROM`.
    fn convert_further(item: &RawTable) -> (r: ParseResult<Vec<Join>>)
        ensures
            list_outcome(r) == meaning::further(item@),
    {
        let (table, alias) = match Self::extract_table_factor(&item.relation) {
            Ok(t) => t,
            Err(e) => return Err(e),
        };
        assert(item@.joins =~= views(item.joins@));
        let mut joins = match Self::convert_joins(&item.joins) {
            Ok(j) => j,
            Err(e) => return Err(e),
        };
        let first = Join { table, alias, join_type: JoinType::Cross, on: None };
        let ghost before = joins@;
        joins.insert(0, first);
        proof {
            assert(joins@ =~= seq![first] + before);
            assert(views(joins@) =~= seq![first@] + views(before));
        }
        Ok(joins)
    }

    /// The items of a projection.
    pub fn convert_projection(v: &Vec<RawSelectItem>) -> (r: ParseResult<Vec<SelectColumn>>)
        ensures
            list_outcome(r) == meaning::items(views(v@)),
    {
        let ghost all = views(v@);
        let mut out: Vec<SelectColumn> = Vec::with_capacity(v.len());
        let mut i: usize = 0;
        proof {
            assert(all.skip(0) =~= all);
            assert(views(out@) =~= Seq::empty());
            lemma_prepend_none(meaning::items(all));
        }
        while i < v.len()
            invariant
                i <= v@.len(),
                all == views(v@),
                meaning::items(all) == meaning::prepend(
                    views(out@),
                    meaning::items(all.skip(i as int)),
                ),
            decreases v@.len() - i,
        {
            proof {
                assert(all.skip(i as int)[0] == v@[i as int]@);
                assert(all.skip(i as int).skip(1) =~= all.skip(i + 1));
            }
            match Self::convert_select_item(&v[i]) {
                Err(e) => return Err(e),
                Ok(x) => {
                    let ghost before = views(out@);
                    out.push(x);
                    proof {
                        meaning::lemma_prepend(before, x@, meaning::items(all.skip(i + 1)));
                        assert(views(out@) =~= before.push(x@));
                    }
                },
            }
            i = i + 1;
        }
        proof {
            assert(all.skip(i as int) =~= Seq::empty());
            lemma_prepend_last(views(out@));
        }
        Ok(out)
    }

    /// An item of a projection.
    pub fn convert_select_item(item: &RawSelectItem) -> (r: ParseResult<SelectColumn>)
        ensures
            error::outcome(r) == meaning::item(item@),
    {
        match item {
            RawSelectItem::Wildcard => Ok(SelectColumn::Wildcard),
            RawSelectItem::UnnamedExpr(expr) => match expr {
                RawExpr::Identifier(name) => Ok(
                    SelectColumn::Column { table: None, name: name.clone() },
                ),
                RawExpr::CompoundIdentifier { parts, debug } => {
                    assert(expr@->parts =~= views(parts@));
                    match Self::convert_qualified(parts, debug) {
                        Ok((table, name)) => Ok(
                            SelectColumn::Column { table: Some(table), name },
                        ),
                        Err(e) => Err(e),
                    }
                },
                _ => Self::convert_aliased(expr, None),
            },
            RawSelectItem::ExprWithAlias { expr, alias } => Self::convert_aliased(
                expr,
                Some(alias.clone()),
            ),
            RawSelectItem::ExprWithAliases { expr, aliases } => {
                assert(item@->aliases =~= views(aliases@));
                if aliases.len() > 1 {
                    return bad_expression("multiple aliases for a single select item");
                }
                if aliases.len() == 1 {
                    Self::convert_aliased(expr, Some(aliases[0].clone()))
                } else {
                    Self::convert_aliased(expr, None)
                }
            },
            RawSelectItem::QualifiedWildcard(name) => match Self::extract_table_name(name) {
                Ok(t) => Ok(SelectColumn::QualifiedWildcard(t)),
                Err(e) => Err(e),
            },
            RawSelectItem::QualifiedOther(s) => bad_expression(
                &text::cat("Unsupported qualified wildcard: ", s),
            ),
        }
    }

    fn convert_aliased(expr: &RawExpr, alias: Option<String>) -> (r: ParseResult<SelectColumn>)
        ensures
            error::outcome(r) == meaning::aliased(expr@, opt_view(alias)),
    {
        match Self::convert_expr(expr) {
            Ok(e) => Ok(SelectColumn::Expr { expr: e, alias }),
            Err(e) => Err(e),
        }
    }

    /// A column that is qualified by its table.
    fn convert_qualified(parts: &Vec<String>, debug: &str) -> (r: ParseResult<(String, String)>)
        ensures
            match r {
                Ok((t, c)) => meaning::qualified(views(parts@), debug@) == Ok::<_, ParseErrorView>(
                    (t@, c@),
                ),
                Err(e) => meaning::qualified(views(parts@), debug@) == Err::<
                    (Seq<char>, Seq<char>),
                    _,
                >(e@),
            },
    {
        if parts.len() == 2 {
            Ok((parts[0].clone(), parts[1].clone()))
        } else {
            bad_expression(&text::cat("Unsupported identifier depth: ", debug))
        }
    }

    /// `ORDER BY`.
    pub fn extract_order_by_exprs(ob: &RawOrder) -> (r: ParseResult<Vec<OrderBy>>)
        ensures
            list_outcome(r) == meaning::order(ob@),
    {
        if ob.interpolate {
            return bad_statement("ORDER BY ... INTERPOLATE not supported");
        }
        match &ob.kind {
            RawOrderBy::All => bad_statement("ORDER BY ALL not supported"),
            RawOrderBy::Expressions(exprs) => {
                assert(ob@.kind->Expressions_0 =~= views(exprs@));
                Self::convert_order_by_exprs(exprs)
            },
        }
    }

    /// The keys of an ordering.
    fn convert_order_by_exprs(v: &Vec<RawOrderByExpr>) -> (r: ParseResult<Vec<OrderBy>>)
        ensures
            list_outcome(r) == meaning::keys(views(v@)),
    {
        let ghost all = views(v@);
        let mut out: Vec<OrderBy> = Vec::with_capacity(v.len());
        let mut i: usize = 0;
        proof {
            assert(all.skip(0) =~= all);
            assert(views(out@) =~= Seq::empty());
            lemma_prepend_none(meaning::keys(all));
        }
        while i < v.len()
            invariant
                i <= v@.len(),
                all == views(v@),
                meaning::keys(all) == meaning::prepend(
                    views(out@),
                    meaning::keys(all.skip(i as int)),
                ),
            decreases v@.len() - i,
        {
            proof {
                assert(all.skip(i as int)[0] == v@[i as int]@);
                assert(all.skip(i as int).skip(1) =~= all.skip(i + 1));
            }
            match Self::convert_order_by_expr(&v[i]) {
                Err(e) => return Err(e),
                Ok(x) => {
                    let ghost before = views(out@);
                    out.push(x);
                    proof {
                        meaning::lemma_prepend(before, x@, meaning::keys(all.skip(i + 1)));
                        assert(views(out@) =~= before.push(x@));
                    }
                },
            }
            i = i + 1;
        }
        proof {
            assert(all.skip(i as int) =~= Seq::empty());
            lemma_prepend_last(views(out@));
        }
        Ok(out)
    }

    /// A key of an ordering.
    pub fn convert_order_by_expr(expr: &RawOrderByExpr) -> (r: ParseResult<OrderBy>)
        ensures
            error::outcome(r) == meaning::key(expr@),
    {
        if expr.with_fill {
            return bad_statement("ORDER BY ... WITH FILL not supported");
        }
        let ascending: bool = match &expr.sort {
            RawSort::Absent => true,
            RawSort::Asc => true,
            RawSort::Desc => false,
            RawSort::Other(s) => return bad_statement(
                &text::cat3("ORDER BY ", s, " not supported"),
            ),
        };
        match Self::convert_expr(&expr.expr) {
            Ok(e) => Ok(OrderBy { expr: e, ascending, nulls_first: expr.nulls_first }),
            Err(e) => Err(e),
        }
    }

    /// `INSERT`.
    pub fn convert_insert(insert: &RawInsert) -> (r: ParseResult<Statement>)
        ensures
            error::outcome(r) == meaning::insert(insert@),
    {
        let f = &insert.flags;
        let clause: Option<&str> = if f.or {
            Some("INSERT OR ...")
        } else if f.ignore {
            Some("INSERT IGNORE")
        } else if f.overwrite {
            Some("INSERT OVERWRITE")
        } else if f.replace_into {
            Some("REPLACE INTO")
        } else if f.on {
            Some("ON CONFLICT / ON DUPLICATE KEY")
        } else if f.returning {
            Some("RETURNING")
        } else if f.output {
            Some("OUTPUT")
        } else if f.partitioned {
            Some("PARTITION")
        } else if f.assignments > 0 {
            Some("INSERT ... SET")
        } else if f.table_alias {
            Some("INSERT table alias")
        } else {
            None
        };
        if let Err(e) = refuse(clause) {
            return Err(e);
        }
        let table = match Self::extract_table_from_object(&insert.table) {
            Ok(t) => t,
            Err(e) => return Err(e),
        };
        assert(insert@.columns =~= views(insert.columns@));
        let columns = if insert.columns.len() == 0 {
            None
        } else {
            match Self::extract_table_names(&insert.columns) {
                Ok(v) => Some(v),
                Err(e) => return Err(e),
            }
        };
        let source = match &insert.source {
            Some(query) => match Self::convert_source(query) {
                Ok(s) => s,
                Err(e) => return Err(e),
            },
            None => return missing("INSERT requires VALUES or SELECT"),
        };
        let i = Insert { table, columns, source };
        proof {
            if i.columns is Some {
                assert(i@.columns->0 =~= views(i.columns->0@));
            }
        }
        Ok(Statement::Insert(i))
    }

    /// Where the rows of an `INSERT` come from.
    fn convert_source(query: &RawQuery) -> (r: ParseResult<InsertSource>)
        ensures
            error::outcome(r) == meaning::source(Some(query@)),
    {
        match &query.body {
            RawBody::Values { rows, text: _ } => {
                if query.order_by.is_some() || !matches!(query.limit, RawLimit::Absent)
                    || query.with {
                    return bad_statement(
                        "ORDER BY / LIMIT / WITH on INSERT ... VALUES not supported",
                    );
                }
                assert(query@.body->rows =~~= row_views(rows@));
                match Self::convert_rows(rows) {
                    Ok(v) => {
                        let s = InsertSource::Values(v);
                        assert(s@->Values_0 =~~= out_row_views(v@));
                        Ok(s)
                    },
                    Err(e) => Err(e),
                }
            },
            _ => match Self::convert_query(query) {
                Ok(s) => Ok(InsertSource::Select(Box::new(s))),
                Err(e) => Err(e),
            },
        }
    }

    /// Rows of expressions.
    fn convert_rows(v: &Vec<Vec<RawExpr>>) -> (r: ParseResult<Vec<Vec<Expr>>>)
        ensures
            match r {
                Ok(w) => meaning::rows(row_views(v@)) == Ok::<_, ParseErrorView>(
                    out_row_views(w@),
                ),
                Err(e) => meaning::rows(row_views(v@)) == Err::<
                    Seq<Seq<super::ast::ExprView>>,
                    _,
                >(e@),
            },
    {
        let ghost all = row_views(v@);
        let mut out: Vec<Vec<Expr>> = Vec::with_capacity(v.len());
        let mut i: usize = 0;
        proof {
            assert(all.skip(0) =~= all);
            assert(out_row_views(out@) =~= Seq::empty());
            lemma_prepend_none(meaning::rows(all));
        }
        while i < v.len()
            invariant
                i <= v@.len(),
                all == row_views(v@),
                meaning::rows(all) == meaning::prepend(
                    out_row_views(out@),
                    meaning::rows(all.skip(i as int)),
                ),
            decreases v@.len() - i,
        {
            proof {
                assert(all.skip(i as int)[0] == views(v@[i as int]@));
                assert(all.skip(i as int).skip(1) =~= all.skip(i + 1));
            }
            match Self::convert_exprs(&v[i]) {
                Err(e) => return Err(e),
                Ok(x) => {
                    let ghost before = out_row_views(out@);
                    out.push(x);
                    proof {
                        meaning::lemma_prepend(
                            before,
                            views(x@),
                            meaning::rows(all.skip(i + 1)),
                        );
                        assert(out_row_views(out@) =~= before.push(views(x@)));
                    }
                },
            }
            i = i + 1;
        }
        proof {
            assert(all.skip(i as int) =~= Seq::empty());
            lemma_prepend_last(out_row_views(out@));
        }
        Ok(out)
    }

    /// `UPDATE`.
    pub fn convert_update(update: &RawUpdate) -> (r: ParseResult<Statement>)
        ensures
            error::outcome(r) == meaning::update(update@),
    {
        let f = &update.flags;
        let clause: Option<&str> = if f.from {
            Some("UPDATE ... FROM")
        } else if f.returning {
            Some("RETURNING")
        } else if f.output {
            Some("OUTPUT")
        } else if f.or {
            Some("UPDATE OR ...")
        } else if f.order_by > 0 {
            Some("UPDATE ... ORDER BY")
        } else if f.limit {
            Some("UPDATE ... LIMIT")
        } else {
            None
        };
        if let Err(e) = refuse(clause) {
            return Err(e);
        }
        let (table, alias) = match Self::extract_single_table(&update.table) {
            Ok(t) => t,
            Err(e) => return Err(e),
        };
        assert(update@.assignments =~= views(update.assignments@));
        let assignments = match Self::convert_assignments(&update.assignments, &table, &alias) {
            Ok(a) => a,
            Err(e) => return Err(e),
        };
        let where_clause = match Self::convert_opt_expr(&update.selection) {
            Ok(w) => w,
            Err(e) => return Err(e),
        };
        let u = Update { table, alias, assignments, where_clause };
        assert(u@.assignments =~= views(assignments@));
        Ok(Statement::Update(u))
    }

    /// Assignments.
    fn convert_assignments(v: &Vec<RawAssignment>, table: &str, alias: &Option<String>) -> (r:
        ParseResult<Vec<Assignment>>)
        ensures
            list_outcome(r) == meaning::assignments(views(v@), table@, opt_view(*alias)),
    {
        let ghost all = views(v@);
        let ghost a = opt_view(*alias);
        let mut out: Vec<Assignment> = Vec::with_capacity(v.len());
        let mut i: usize = 0;
        proof {
            assert(all.skip(0) =~= all);
            assert(views(out@) =~= Seq::empty());
            lemma_prepend_none(meaning::assignments(all, table@, a));
        }
        while i < v.len()
            invariant
                i <= v@.len(),
                all == views(v@),
                a == opt_view(*alias),
                meaning::assignments(all, table@, a) == meaning::prepend(
                    views(out@),
                    meaning::assignments(all.skip(i as int), table@, a),
                ),
            decreases v@.len() - i,
        {
            proof {
                assert(all.skip(i as int)[0] == v@[i as int]@);
                assert(all.skip(i as int).skip(1) =~= all.skip(i + 1));
            }
            let column = match Self::extract_assignment_target(&v[i].target, table, alias) {
                Ok(c) => c,
                Err(e) => return Err(e),
            };
            let value = match Self::convert_expr(&v[i].value) {
                Ok(x) => x,
                Err(e) => return Err(e),
            };
            let x = Assignment { column, value };
            let ghost before = views(out@);
            out.push(x);
            proof {
                meaning::lemma_prepend(
                    before,
                    x@,
                    meaning::assignments(all.skip(i + 1), table@, a),
                );
                assert(views(out@) =~= before.push(x@));
            }
            i = i + 1;
        }
        proof {
            assert(all.skip(i as int) =~= Seq::empty());
            lemma_prepend_last(views(out@));
        }
        Ok(out)
    }

    /// The column that an assignment sets.
    pub fn extract_assignment_target(target: &RawTarget, table: &str, alias: &Option<String>) -> (r:
        ParseResult<String>)
        ensures
            error::outcome(r) == meaning::target(target@, table@, opt_view(*alias)),
    {
        let name = match target {
            RawTarget::Column(name) => name,
            RawTarget::Tuple => return bad_expression("tuple assignment targets not supported"),
        };
        assert(name@.parts =~= views(name.parts@));
        let parts = match Self::extract_idents(&name.parts) {
            Ok(p) => p,
            Err(e) => return Err(e),
        };
        if parts.len() == 1 {
            return Ok(parts[0].clone());
        }
        if parts.len() != 2 {
            return bad_identifier(&name.text);
        }
        let visible: &str = match alias {
            Some(a) => a,
            None => table,
        };
        if text::eq_ignore_ascii_case(&parts[0], visible) {
            return Ok(parts[1].clone());
        }
        let mut s = text::cat3("assignment target ", &parts[0], ".");
        s.append(&parts[1]);
        s.append(" does not refer to table ");
        s.append(visible);
        bad_identifier(&s)
    }

    /// The identifiers of a name.
    fn extract_idents(v: &Vec<RawPart>) -> (r: ParseResult<Vec<String>>)
        ensures
            list_outcome(r) == meaning::idents(views(v@)),
    {
        let ghost all = views(v@);
        let mut out: Vec<String> = Vec::with_capacity(v.len());
        let mut i: usize = 0;
        proof {
            assert(all.skip(0) =~= all);
            assert(views(out@) =~= Seq::empty());
            lemma_prepend_none(meaning::idents(all));
        }
        while i < v.len()
            invariant
                i <= v@.len(),
                all == views(v@),
                meaning::idents(all) == meaning::prepend(
                    views(out@),
                    meaning::idents(all.skip(i as int)),
                ),
            decreases v@.len() - i,
        {
            proof {
                assert(all.skip(i as int)[0] == v@[i as int]@);
                assert(all.skip(i as int).skip(1) =~= all.skip(i + 1));
            }
            match &v[i].ident {
                None => return bad_identifier(&v[i].text),
                Some(s) => {
                    let ghost before = views(out@);
                    out.push(s.clone());
                    proof {
                        meaning::lemma_prepend(before, s@, meaning::idents(all.skip(i + 1)));
                        assert(views(out@) =~= before.push(s@));
                    }
                },
            }
            i = i + 1;
        }
        proof {
            assert(all.skip(i as int) =~= Seq::empty());
            lemma_prepend_last(views(out@));
        }
        Ok(out)
    }

    /// `DELETE`.
    pub fn convert_delete(delete: &RawDelete) -> (r: ParseResult<Statement>)
        ensures
            error::outcome(r) == meaning::delete(delete@),
    {
        let f = &delete.flags;
        let clause: Option<&str> = if f.tables > 0 {
            Some("multi table DELETE")
        } else if f.using {
            Some("DELETE ... USING")
        } else if f.returning {
            Some("RETURNING")
        } else if f.output {
            Some("OUTPUT")
        } else if f.order_by > 0 {
            Some("DELETE ... ORDER BY")
        } else if f.limit {
            Some("DELETE ... LIMIT")
        } else {
            None
        };
        if let Err(e) = refuse(clause) {
            return Err(e);
        }
        assert(delete@.from =~= views(delete.from@));
        if delete.from.len() != 1 {
            return bad_statement("DELETE from multiple tables not supported");
        }
        let (table, alias) = match Self::extract_single_table(&delete.from[0]) {
            Ok(t) => t,
            Err(e) => return Err(e),
        };
        match Self::convert_opt_expr(&delete.selection) {
            Ok(where_clause) => Ok(Statement::Delete(Delete { table, alias, where_clause })),
            Err(e) => Err(e),
        }
    }

    /// An expression.
    pub fn convert_expr(expr: &RawExpr) -> (r: ParseResult<Expr>)
        ensures
            error::outcome(r) == meaning::expr(expr@),
        decreases expr, 0nat,
    {
        match expr {
            RawExpr::Identifier(name) => Ok(Expr::Column { table: None, name: name.clone() }),
            RawExpr::CompoundIdentifier { parts, debug } => {
                assert(expr@->parts =~= views(parts@));
                match Self::convert_qualified(parts, debug) {
                    Ok((table, name)) => Ok(Expr::Column { table: Some(table), name }),
                    Err(e) => Err(e),
                }
            },
            RawExpr::Value(v) => match Self::convert_value(v) {
                Ok(v) => Ok(Expr::Literal(v)),
                Err(e) => Err(e),
            },
            RawExpr::BinaryOp { left, op, right } => {
                let l = match Self::convert_expr(left) {
                    Ok(l) => l,
                    Err(e) => return Err(e),
                };
                let r = match Self::convert_expr(right) {
                    Ok(r) => r,
                    Err(e) => return Err(e),
                };
                match Self::convert_binary_op(op) {
                    Ok(op) => Ok(Expr::BinaryOp { left: Box::new(l), op, right: Box::new(r) }),
                    Err(e) => Err(e),
                }
            },
            RawExpr::UnaryOp { op, expr: inner } => {
                let e = match Self::convert_expr(inner) {
                    Ok(e) => e,
                    Err(e) => return Err(e),
                };
                match Self::convert_unary_op(op) {
                    Ok(op) => Ok(Expr::UnaryOp { op, expr: Box::new(e) }),
                    Err(e) => Err(e),
                }
            },
            RawExpr::IsNull(inner) => match Self::convert_expr(inner) {
                Ok(e) => Ok(Expr::IsNull { expr: Box::new(e), negated: false }),
                Err(e) => Err(e),
            },
            RawExpr::IsNotNull(inner) => match Self::convert_expr(inner) {
                Ok(e) => Ok(Expr::IsNull { expr: Box::new(e), negated: true }),
                Err(e) => Err(e),
            },
            RawExpr::InList { expr: inner, list, negated } => {
                assert(expr@->list =~= views(list@));
                let e = match Self::convert_expr(inner) {
                    Ok(e) => e,
                    Err(e) => return Err(e),
                };
                match Self::convert_exprs(list) {
                    Ok(items) => {
                        let r = Expr::InList { expr: Box::new(e), list: items, negated: *negated };
                        assert(r@->list =~= views(items@));
                        Ok(r)
                    },
                    Err(e) => Err(e),
                }
            },
            RawExpr::Between { expr: inner, low, high, negated } => {
                let e = match Self::convert_expr(inner) {
                    Ok(e) => e,
                    Err(e) => return Err(e),
                };
                let l = match Self::convert_expr(low) {
                    Ok(l) => l,
                    Err(e) => return Err(e),
                };
                match Self::convert_expr(high) {
                    Ok(h) => Ok(
                        Expr::Between {
                            expr: Box::new(e),
                            low: Box::new(l),
                            high: Box::new(h),
                            negated: *negated,
                        },
                    ),
                    Err(e) => Err(e),
                }
            },
            RawExpr::Like { expr: inner, pattern, negated, any, escape, case_insensitive } => {
                Self::convert_like(inner, pattern, *negated, *any, *escape, *case_insensitive)
            },
            RawExpr::Function(f) => Self::convert_function(f),
            RawExpr::Nested(inner) => match Self::convert_expr(inner) {
                Ok(e) => Ok(Expr::Nested(Box::new(e))),
                Err(e) => Err(e),
            },
            RawExpr::Other(s) => bad_expression(s),
        }
    }

    /// `LIKE` or `ILIKE`.
    pub fn convert_like(
        expr: &RawExpr,
        pattern: &RawExpr,
        negated: bool,
        any: bool,
        has_escape: bool,
        case_insensitive: bool,
    ) -> (r: ParseResult<Expr>)
        ensures
            error::outcome(r) == meaning::like(
                expr@,
                pattern@,
                negated,
                any,
                has_escape,
                case_insensitive,
            ),
        decreases expr, 1nat,
    {
        if any {
            return bad_expression("LIKE ANY not supported");
        }
        if has_escape {
            return bad_expression("LIKE ... ESCAPE not supported");
        }
        let e = match Self::convert_expr(expr) {
            Ok(e) => e,
            Err(e) => return Err(e),
        };
        match Self::extract_string_from_expr(pattern) {
            Ok(pattern) => Ok(
                Expr::Like { expr: Box::new(e), pattern, negated, case_insensitive },
            ),
            Err(e) => Err(e),
        }
    }

    /// Expressions.
    fn convert_exprs(v: &Vec<RawExpr>) -> (r: ParseResult<Vec<Expr>>)
        ensures
            list_outcome(r) == meaning::exprs(views(v@)),
        decreases v, 0nat,
    {
        let ghost all = views(v@);
        let mut out: Vec<Expr> = Vec::with_capacity(v.len());
        let mut i: usize = 0;
        proof {
            assert(all.skip(0) =~= all);
            assert(views(out@) =~= Seq::empty());
            lemma_prepend_none(meaning::exprs(all));
        }
        while i < v.len()
            invariant
                i <= v@.len(),
                all == views(v@),
                meaning::exprs(all) == meaning::prepend(
                    views(out@),
                    meaning::exprs(all.skip(i as int)),
                ),
            decreases v@.len() - i,
        {
            proof {
                assert(all.skip(i as int)[0] == v@[i as int]@);
                assert(all.skip(i as int).skip(1) =~= all.skip(i + 1));
            }
            match Self::convert_expr(&v[i]) {
                Err(e) => return Err(e),
                Ok(x) => {
                    let ghost before = views(out@);
                    out.push(x);
                    proof {
                        meaning::lemma_prepend(before, x@, meaning::exprs(all.skip(i + 1)));
                        assert(views(out@) =~= before.push(x@));
                    }
                },
            }
            i = i + 1;
        }
        proof {
            assert(all.skip(i as int) =~= Seq::empty());
            lemma_prepend_last(views(out@));
        }
        Ok(out)
    }

    /// An expression that may be missing.
    fn convert_opt_expr(e: &Option<RawExpr>) -> (r: ParseResult<Option<Expr>>)
        ensures
            opt_outcome(r) == meaning::opt_expr(opt_view(*e)),
    {
        match e {
            Some(x) => match Self::convert_expr(x) {
                Ok(v) => Ok(Some(v)),
                Err(e) => Err(e),
            },
            None => Ok(None),
        }
    }

    /// A function call.
    pub fn convert_function(f: &RawFunction) -> (r: ParseResult<Expr>)
        ensures
            error::outcome(r) == meaning::function(f@),
        decreases f, 0nat,
    {
        let name = match Self::extract_table_name(&f.name) {
            Ok(n) => n,
            Err(e) => return Err(e),
        };
        if f.over {
            return bad_expression(&text::cat3("window function ", &name, " not supported"));
        }
        if f.filter || f.within_group > 0 || f.null_treatment {
            return bad_expression(
                &text::cat3(
                    "FILTER / WITHIN GROUP / null treatment on ",
                    &name,
                    " not supported",
                ),
            );
        }
        if f.parametric {
            return bad_expression(&text::cat3("parametric function ", &name, " not supported"));
        }
        match Self::convert_arguments(&f.args, &name) {
            Ok(args) => Ok(Expr::Function { name, args }),
            Err(e) => Err(e),
        }
    }

    /// The arguments of the function `name`.
    fn convert_arguments(a: &RawArguments, name: &str) -> (r: ParseResult<FunctionArgs>)
        ensures
            error::outcome(r) == meaning::arguments(a@, name@),
        decreases a, 0nat,
    {
        match a {
            RawArguments::Absent => {
                let r = FunctionArgs::List { args: Vec::new(), distinct: false };
                assert(r@->args =~= Seq::empty());
                Ok(r)
            },
            RawArguments::Subquery => bad_expression(
                "subquery as function argument not supported",
            ),
            RawArguments::List { clauses, distinct, args } => {
                if *clauses > 0 {
                    return bad_expression(
                        &text::cat3("function argument clauses on ", name, " not supported"),
                    );
                }
                assert(a@->args =~= views(args@));
                if args.len() == 1 && matches!(args[0], RawFunctionArg::Wildcard(_)) && !*distinct {
                    return Ok(FunctionArgs::Star);
                }
                match Self::convert_function_args(args) {
                    Ok(v) => {
                        let r = FunctionArgs::List { args: v, distinct: *distinct };
                        assert(r@->args =~= views(v@));
                        Ok(r)
                    },
                    Err(e) => Err(e),
                }
            },
        }
    }

    /// Arguments.
    fn convert_function_args(v: &Vec<RawFunctionArg>) -> (r: ParseResult<Vec<Expr>>)
        ensures
            list_outcome(r) == meaning::argument_list(views(v@)),
        decreases v, 0nat,
    {
        let ghost all = views(v@);
        let mut out: Vec<Expr> = Vec::with_capacity(v.len());
        let mut i: usize = 0;
        proof {
            assert(all.skip(0) =~= all);
            assert(views(out@) =~= Seq::empty());
            lemma_prepend_none(meaning::argument_list(all));
        }
        while i < v.len()
            invariant
                i <= v@.len(),
                all == views(v@),
                meaning::argument_list(all) == meaning::prepend(
                    views(out@),
                    meaning::argument_list(all.skip(i as int)),
                ),
            decreases v@.len() - i,
        {
            proof {
                assert(all.skip(i as int)[0] == v@[i as int]@);
                assert(all.skip(i as int).skip(1) =~= all.skip(i + 1));
            }
            match Self::convert_function_arg(&v[i]) {
                Err(e) => return Err(e),
                Ok(x) => {
                    let ghost before = views(out@);
                    out.push(x);
                    proof {
                        meaning::lemma_prepend(before, x@, meaning::argument_list(all.skip(i + 1)));
                        assert(views(out@) =~= before.push(x@));
                    }
                },
            }
            i = i + 1;
        }
        proof {
            assert(all.skip(i as int) =~= Seq::empty());
            lemma_prepend_last(views(out@));
        }
        Ok(out)
    }

    /// An argument.
    fn convert_function_arg(a: &RawFunctionArg) -> (r: ParseResult<Expr>)
        ensures
            error::outcome(r) == meaning::argument(a@),
        decreases a, 0nat,
    {
        match a {
            RawFunctionArg::Expr(e) => Self::convert_expr(e),
            RawFunctionArg::Wildcard(s) => bad_expression(
                &text::cat("function argument not supported: ", s),
            ),
            RawFunctionArg::Other(s) => bad_expression(
                &text::cat("function argument not supported: ", s),
            ),
        }
    }

    /// A literal.
    pub fn convert_value(v: &RawValue) -> (r: ParseResult<LiteralValue>)
        ensures
            error::outcome(r) == meaning::value(v@),
    {
        match v {
            RawValue::Null => Ok(LiteralValue::Null),
            RawValue::Boolean(b) => Ok(LiteralValue::Boolean(*b)),
            RawValue::Number(s) => match text::parse_i64(s) {
                Some(n) => Ok(LiteralValue::Integer(n)),
                None => if text::is_float_text(s) {
                    Ok(LiteralValue::Float(s.clone()))
                } else {
                    bad_expression(&text::cat("Invalid number: ", s))
                },
            },
            RawValue::SingleQuoted(s) => Ok(LiteralValue::String(s.clone())),
            RawValue::DoubleQuoted(s) => Ok(LiteralValue::String(s.clone())),
            RawValue::Other(s) => bad_expression(&text::cat("Unsupported value: ", s)),
        }
    }

    /// The string that an expression is.
    pub fn extract_string_from_expr(expr: &RawExpr) -> (r: ParseResult<String>)
        ensures
            error::outcome(r) == meaning::string_of(expr@),
    {
        match expr {
            RawExpr::Value(v) => match v {
                RawValue::SingleQuoted(s) => Ok(s.clone()),
                RawValue::DoubleQuoted(s) => Ok(s.clone()),
                _ => bad_expression("expected string"),
            },
            _ => bad_expression("expected string literal"),
        }
    }

    /// A binary operator by its name.
    pub fn convert_binary_op(op: &str) -> (r: ParseResult<BinaryOperator>)
        ensures
            plain_outcome(r) == meaning::binary_op(op@),
    {
        if text::same(op, "Eq") {
            Ok(BinaryOperator::Eq)
        } else if text::same(op, "NotEq") {
            Ok(BinaryOperator::NotEq)
        } else if text::same(op, "Lt") {
            Ok(BinaryOperator::Lt)
        } else if text::same(op, "LtEq") {
            Ok(BinaryOperator::LtEq)
        } else if text::same(op, "Gt") {
            Ok(BinaryOperator::Gt)
        } else if text::same(op, "GtEq") {
            Ok(BinaryOperator::GtEq)
        } else if text::same(op, "And") {
            Ok(BinaryOperator::And)
        } else if text::same(op, "Or") {
            Ok(BinaryOperator::Or)
        } else if text::same(op, "Plus") {
            Ok(BinaryOperator::Plus)
        } else if text::same(op, "Minus") {
            Ok(BinaryOperator::Minus)
        } else if text::same(op, "Multiply") {
            Ok(BinaryOperator::Multiply)
        } else if text::same(op, "Divide") {
            Ok(BinaryOperator::Divide)
        } else if text::same(op, "Modulo") {
            Ok(BinaryOperator::Modulo)
        } else if text::same(op, "StringConcat") {
            Ok(BinaryOperator::Concat)
        } else {
            bad_expression(&text::cat("Unsupported operator: ", op))
        }
    }

    /// A unary operator by its name.
    pub fn convert_unary_op(op: &str) -> (r: ParseResult<UnaryOperator>)
        ensures
            plain_outcome(r) == meaning::unary_op(op@),
    {
        if text::same(op, "Not") {
            Ok(UnaryOperator::Not)
        } else if text::same(op, "Minus") {
            Ok(UnaryOperator::Minus)
        } else if text::same(op, "Plus") {
            Ok(UnaryOperator::Plus)
        } else {
            bad_expression(&text::cat("Unsupported unary operator: ", op))
        }
    }

    /// The last part of a name: the schema does not matter.
    pub fn extract_table_name(name: &RawName) -> (r: ParseResult<String>)
        ensures
            error::outcome(r) == meaning::table_name(name@),
    {
        let n: usize = name.parts.len();
        if n == 0 {
            return bad_identifier("empty table name");
        }
        let last = &name.parts[n - 1];
        assert(name@.parts.last() == last@);
        match &last.ident {
            Some(s) => Ok(s.clone()),
            None => Ok(last.text.clone()),
        }
    }

    /// The names of columns.
    fn extract_table_names(v: &Vec<RawName>) -> (r: ParseResult<Vec<String>>)
        ensures
            list_outcome(r) == meaning::table_names(views(v@)),
    {
        let ghost all = views(v@);
        let mut out: Vec<String> = Vec::with_capacity(v.len());
        let mut i: usize = 0;
        proof {
            assert(all.skip(0) =~= all);
            assert(views(out@) =~= Seq::empty());
            lemma_prepend_none(meaning::table_names(all));
        }
        while i < v.len()
            invariant
                i <= v@.len(),
                all == views(v@),
                meaning::table_names(all) == meaning::prepend(
                    views(out@),
                    meaning::table_names(all.skip(i as int)),
                ),
            decreases v@.len() - i,
        {
            proof {
                assert(all.skip(i as int)[0] == v@[i as int]@);
                assert(all.skip(i as int).skip(1) =~= all.skip(i + 1));
            }
            match Self::extract_table_name(&v[i]) {
                Err(e) => return Err(e),
                Ok(x) => {
                    let ghost before = views(out@);
                    out.push(x);
                    proof {
                        meaning::lemma_prepend(before, x@, meaning::table_names(all.skip(i + 1)));
                        assert(views(out@) =~= before.push(x@));
                    }
                },
            }
            i = i + 1;
        }
        proof {
            assert(all.skip(i as int) =~= Seq::empty());
            lemma_prepend_last(views(out@));
        }
        Ok(out)
    }

    /// The target of an `INSERT`.
    pub fn extract_table_from_object(table: &RawTableObject) -> (r: ParseResult<String>)
        ensures
            error::outcome(r) == meaning::object(table@),
    {
        match table {
            RawTableObject::Name(name) => Self::extract_table_name(name),
            RawTableObject::Function => bad_statement("table function not supported"),
            RawTableObject::Query => bad_statement("table query not supported"),
        }
    }

    /// A table of a query: its name and its alias.
    pub fn extract_table_factor(factor: &RawFactor) -> (r: ParseResult<(String, Option<String>)>)
        ensures
            alias_outcome(r) == meaning::factor(factor@),
    {
        match factor {
            RawFactor::Table { name, alias, args } => {
                if *args {
                    return bad_statement("table valued functions not supported");
                }
                let short = match alias {
                    Some(a) => {
                        if a.columns > 0 {
                            return bad_statement("column aliases in table alias not supported");
                        }
                        Some(a.name.clone())
                    },
                    None => None,
                };
                match Self::extract_table_name(name) {
                    Ok(t) => Ok((t, short)),
                    Err(e) => Err(e),
                }
            },
            RawFactor::Other(s) => bad_statement(&text::cat("Unsupported table factor: ", s)),
        }
    }

    /// A table with those that are joined to it.
    pub fn extract_table_ref(from: &RawTable) -> (r: ParseResult<TableRef>)
        ensures
            error::outcome(r) == meaning::table_ref(from@),
    {
        let (base, base_alias) = match Self::extract_table_factor(&from.relation) {
            Ok(t) => t,
            Err(e) => return Err(e),
        };
        assert(from@.joins =~= views(from.joins@));
        match Self::convert_joins(&from.joins) {
            Ok(joins) => {
                let t = TableRef { base, base_alias, joins };
                assert(t@.joins =~= views(joins@));
                Ok(t)
            },
            Err(e) => Err(e),
        }
    }

    /// Tables that are joined.
    fn convert_joins(v: &Vec<RawJoin>) -> (r: ParseResult<Vec<Join>>)
        ensures
            list_outcome(r) == meaning::joins(views(v@)),
    {
        let ghost all = views(v@);
        let mut out: Vec<Join> = Vec::with_capacity(v.len());
        let mut i: usize = 0;
        proof {
            assert(all.skip(0) =~= all);
            assert(views(out@) =~= Seq::empty());
            lemma_prepend_none(meaning::joins(all));
        }
        while i < v.len()
            invariant
                i <= v@.len(),
                all == views(v@),
                meaning::joins(all) == meaning::prepend(
                    views(out@),
                    meaning::joins(all.skip(i as int)),
                ),
            decreases v@.len() - i,
        {
            proof {
                assert(all.skip(i as int)[0] == v@[i as int]@);
                assert(all.skip(i as int).skip(1) =~= all.skip(i + 1));
            }
            match Self::convert_join(&v[i]) {
                Err(e) => return Err(e),
                Ok(x) => {
                    let ghost before = views(out@);
                    out.push(x);
                    proof {
                        meaning::lemma_prepend(before, x@, meaning::joins(all.skip(i + 1)));
                        assert(views(out@) =~= before.push(x@));
                    }
                },
            }
            i = i + 1;
        }
        proof {
            assert(all.skip(i as int) =~= Seq::empty());
            lemma_prepend_last(views(out@));
        }
        Ok(out)
    }

    /// A table that is joined.
    pub fn convert_join(join: &RawJoin) -> (r: ParseResult<Join>)
        ensures
            error::outcome(r) == meaning::join(join@),
    {
        let (table, alias) = match Self::extract_table_factor(&join.relation) {
            Ok(t) => t,
            Err(e) => return Err(e),
        };
        let (join_type, constraint) = match &join.operator {
            RawJoinOperator::Join(c) => (JoinType::Inner, c),
            RawJoinOperator::Inner(c) => (JoinType::Inner, c),
            RawJoinOperator::Left(c) => (JoinType::Left, c),
            RawJoinOperator::LeftOuter(c) => (JoinType::Left, c),
            RawJoinOperator::Right(c) => (JoinType::Right, c),
            RawJoinOperator::RightOuter(c) => (JoinType::Right, c),
            RawJoinOperator::FullOuter(c) => (JoinType::Full, c),
            RawJoinOperator::CrossJoin(c) => (JoinType::Cross, c),
            RawJoinOperator::Other(s) => return bad_statement(
                &text::cat("Unsupported join type: ", s),
            ),
        };
        match Self::convert_condition(constraint, join_type) {
            Ok(on) => Ok(Join { table, alias, join_type, on }),
            Err(e) => Err(e),
        }
    }

    /// The condition of a join.
    fn convert_condition(c: &RawConstraint, kind: JoinType) -> (r: ParseResult<Option<Expr>>)
        ensures
            opt_outcome(r) == meaning::condition(c@, kind),
    {
        match c {
            RawConstraint::On(e) => {
                if kind == JoinType::Cross {
                    return bad_statement("CROSS JOIN does not take an ON condition");
                }
                match Self::convert_expr(e) {
                    Ok(v) => Ok(Some(v)),
                    Err(e) => Err(e),
                }
            },
            RawConstraint::Using => bad_statement("JOIN ... USING not supported, use ON"),
            RawConstraint::Natural => bad_statement("NATURAL JOIN not supported"),
            RawConstraint::Absent => {
                if kind == JoinType::Cross {
                    Ok(None)
                } else {
                    missing("JOIN ... ON condition")
                }
            },
        }
    }

    /// The table of an `UPDATE` or a `DELETE`.
    pub fn extract_single_table(from: &RawTable) -> (r: ParseResult<(String, Option<String>)>)
        ensures
            alias_outcome(r) == meaning::single_table(from@),
    {
        if from.joins.len() > 0 {
            return bad_statement("JOIN not supported in UPDATE/DELETE");
        }
        Self::extract_table_factor(&from.relation)
    }

    /// A number of rows.
    pub fn expr_to_usize(c: &RawCount, clause: &str) -> (r: ParseResult<usize>)
        ensures
            plain_outcome(r) == meaning::count(c@, clause@),
    {
        if let Some(s) = &c.number {
            if let Some(n) = text::parse_usize(s) {
                return Ok(n);
            }
        }
        bad_expression(
            &text::cat3(clause, " must be a non negative integer literal, got ", &c.text),
        )
    }
}

/// The views of rows.
pub open spec fn row_views(v: Seq<Vec<RawExpr>>) -> Seq<Seq<super::raw::RawExprView>> {
    Seq::new(v.len(), |i: int| views(v[i]@))
}

/// The views of rows.
pub open spec fn out_row_views(v: Seq<Vec<Expr>>) -> Seq<Seq<super::ast::ExprView>> {
    Seq::new(v.len(), |i: int| views(v[i]@))
}

/// The views of keys.
pub open spec fn key_views(v: Seq<Vec<String>>) -> Seq<Seq<Seq<char>>> {
    Seq::new(v.len(), |i: int| views(v[i]@))
}

/// The letters and digits that a text starts with.
fn head_word(s: &str) -> (r: String)
    ensures
        r@ == meaning::head_word(s@),
{
    let v = text::chars_of(s);
    let mut i: usize = 0;
    proof {
        assert(v@.skip(0) =~= v@);
        assert(v@.take(0) + meaning::head_word(v@) =~= meaning::head_word(v@));
    }
    while i < v.len() && (('a' <= v[i] && v[i] <= 'z') || ('A' <= v[i] && v[i] <= 'Z') || ('0'
        <= v[i] && v[i] <= '9'))
        invariant
            i <= v@.len(),
            v@.take(i as int) + meaning::head_word(v@.skip(i as int)) == meaning::head_word(v@),
        decreases v@.len() - i,
    {
        proof {
            let rest = v@.skip(i as int);
            assert(rest[0] == v@[i as int]);
            assert(rest.skip(1) =~= v@.skip(i + 1));
            assert(v@.take(i as int) + (seq![rest[0]] + meaning::head_word(rest.skip(1)))
                =~= v@.take(i + 1) + meaning::head_word(v@.skip(i + 1)));
        }
        i = i + 1;
    }
    proof {
        if i < v.len() {
            assert(v@.skip(i as int)[0] == v@[i as int]);
        }
        assert(v@.subrange(0, i as int) =~= meaning::head_word(v@));
    }
    text::text_of(&v.as_slice()[0..i])
}

/// The primary key and the unique keys of a table.
struct TableKeys {
    primary: Vec<String>,
    unique: Vec<Vec<String>>,
}

impl View for TableKeys {
    type V = meaning::Keys;

    closed spec fn view(&self) -> meaning::Keys {
        meaning::Keys { primary: views(self.primary@), unique: key_views(self.unique@) }
    }
}

impl TableKeys {
    /// Takes in the table constraints.
    fn apply_all(&mut self, constraints: &Vec<RawTableConstraint>, columns: &Vec<ColumnDef>) -> (r:
        ParseResult<()>)
        ensures
            match r {
                Ok(_) => meaning::key_steps(views(constraints@), views(columns@), old(self)@)
                    == Ok::<_, ParseErrorView>(final(self)@),
                Err(e) => meaning::key_steps(views(constraints@), views(columns@), old(self)@)
                    == Err::<meaning::Keys, _>(e@),
            },
    {
        let ghost all = views(constraints@);
        let mut i: usize = 0;
        assert(all.skip(0) =~= all);
        while i < constraints.len()
            invariant
                i <= constraints@.len(),
                all == views(constraints@),
                meaning::key_steps(all, views(columns@), old(self)@) == meaning::key_steps(
                    all.skip(i as int),
                    views(columns@),
                    self@,
                ),
            decreases constraints@.len() - i,
        {
            proof {
                assert(all.skip(i as int)[0] == constraints@[i as int]@);
                assert(all.skip(i as int).skip(1) =~= all.skip(i + 1));
            }
            if let Err(e) = self.apply(&constraints[i], columns) {
                return Err(e);
            }
            i = i + 1;
        }
        Ok(())
    }

    /// Takes in a table constraint.
    fn apply(&mut self, constraint: &RawTableConstraint, columns: &Vec<ColumnDef>) -> (r:
        ParseResult<()>)
        ensures
            match r {
                Ok(_) => meaning::key_step(constraint@, views(columns@), old(self)@) == Ok::<
                    _,
                    ParseErrorView,
                >(final(self)@),
                Err(e) => meaning::key_step(constraint@, views(columns@), old(self)@) == Err::<
                    meaning::Keys,
                    _,
                >(e@),
            },
    {
        match constraint {
            RawTableConstraint::PrimaryKey(v) => {
                assert(constraint@->PrimaryKey_0 =~= views(v@));
                if self.primary.len() > 0 {
                    return bad_statement("multiple PRIMARY KEY declarations");
                }
                match Parser::constraint_columns(v, columns) {
                    Ok(key) => {
                        self.primary = key;
                        Ok(())
                    },
                    Err(e) => Err(e),
                }
            },
            RawTableConstraint::Unique(v) => {
                assert(constraint@->Unique_0 =~= views(v@));
                match Parser::constraint_columns(v, columns) {
                    Ok(key) => {
                        if !self.has_key(&key) {
                            let ghost before = key_views(self.unique@);
                            self.unique.push(key);
                            assert(key_views(self.unique@) =~= before.push(views(key@)));
                        }
                        Ok(())
                    },
                    Err(e) => Err(e),
                }
            },
            RawTableConstraint::Other(s) => bad_statement(
                &text::cat("table constraint not supported: ", s),
            ),
        }
    }

    /// Whether a key is among the unique ones.
    fn has_key(&self, key: &Vec<String>) -> (b: bool)
        ensures
            b == self@.unique.contains(views(key@)),
    {
        let mut i: usize = 0;
        while i < self.unique.len()
            invariant
                i <= self.unique@.len(),
                forall|j: int| 0 <= j < i ==> self@.unique[j] != views(key@),
            decreases self.unique@.len() - i,
        {
            assert(self@.unique[i as int] == views(self.unique@[i as int]@));
            if same_texts(&self.unique[i], key) {
                return true;
            }
            i = i + 1;
        }
        false
    }

    /// Whether a column is a unique key by itself.
    fn has_single(&self, name: &String) -> (b: bool)
        ensures
            b == self@.unique.contains(seq![name@]),
    {
        let key: Vec<String> = vec![name.clone()];
        assert(views(key@) =~= seq![name@]);
        self.has_key(&key)
    }
}

/// Whether two lists of texts are the same.
fn same_texts(a: &Vec<String>, b: &Vec<String>) -> (r: bool)
    ensures
        r == (views(a@) == views(b@)),
{
    if a.len() != b.len() {
        assert(views(a@).len() != views(b@).len());
        return false;
    }
    let mut i: usize = 0;
    while i < a.len()
        invariant
            i <= a@.len() == b@.len(),
            forall|j: int| 0 <= j < i ==> views(a@)[j] == views(b@)[j],
        decreases a@.len() - i,
    {
        assert(views(a@)[i as int] == a@[i as int]@);
        assert(views(b@)[i as int] == b@[i as int]@);
        if !text::same(&a[i], &b[i]) {
            return false;
        }
        i = i + 1;
    }
    assert(views(a@) =~= views(b@));
    true
}

} // verus!
