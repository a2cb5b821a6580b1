//! What statements mean, what is refused, and how expressions are written.

use bplus_engine::sql::ast::{
    BinaryOperator, ColumnConstraint, CreateTable, Expr, FunctionArgs, InsertSource, JoinType,
    LiteralValue, Select, SelectColumn, SqlDataType, Statement, UnaryOperator,
};
use bplus_engine::sql::error::ParseError;
use bplus_engine::sql::parser::Parser;
use bplus_engine::sql::raw::{
    RawArguments, RawColumnDef, RawColumnOption, RawConstraint, RawCount, RawExpr, RawFactor,
    RawFunction, RawJoin, RawJoinOperator, RawName, RawPart, RawStatement, RawValue,
};

fn select(sql: &str) -> Select {
    match Parser::parse(sql).unwrap() {
        Statement::Select(s) => s,
        other => panic!("{:?}", other),
    }
}

fn create(sql: &str) -> CreateTable {
    match Parser::parse(sql).unwrap() {
        Statement::CreateTable(t) => t,
        other => panic!("{:?}", other),
    }
}

fn refused(sql: &str) -> String {
    match Parser::parse(sql) {
        Err(ParseError::UnsupportedStatement(s)) => s,
        other => panic!("{:?}", other),
    }
}

fn bad_expression(sql: &str) -> String {
    match Parser::parse(sql) {
        Err(ParseError::UnsupportedExpression(s)) => s,
        other => panic!("{:?}", other),
    }
}

fn bad_identifier(sql: &str) -> String {
    match Parser::parse(sql) {
        Err(ParseError::InvalidIdentifier(s)) => s,
        other => panic!("{:?}", other),
    }
}

fn condition(sql: &str) -> Expr {
    select(sql).where_clause.unwrap()
}

#[test]
fn commands() {
    for sql in ["begin", "BEGIN TRANSACTION;", " Start Transaction ;; "] {
        assert_eq!(Parser::parse(sql), Ok(Statement::Begin));
    }
    assert_eq!(Parser::parse("commit;"), Ok(Statement::Commit));
    assert_eq!(Parser::parse("RollBack"), Ok(Statement::Rollback));
    assert_eq!(Parser::parse("show tables"), Ok(Statement::ShowTables));
    assert_eq!(Parser::parse("SHOW TABLE"), Ok(Statement::ShowTables));
    assert_eq!(
        Parser::parse("desc Users;"),
        Ok(Statement::Describe("Users".to_string()))
    );
    assert_eq!(
        Parser::command("DESC", "DESC "),
        Some(Err(ParseError::MissingClause("table name".to_string())))
    );
    assert_eq!(Parser::command("SELECT", "SELECT"), None);
}

#[test]
fn texts_without_one_statement() {
    assert_eq!(Parser::parse(";"), Err(ParseError::EmptyQuery));
    assert_eq!(
        Parser::parse("SELECT * FROM a; SELECT * FROM b"),
        Err(ParseError::MultipleStatements)
    );
    assert!(matches!(
        Parser::parse("SELEC * FROM a"),
        Err(ParseError::SqlParser(_))
    ));
    assert_eq!(Parser::parse_multi(""), Ok(Vec::new()));
}

#[test]
fn one_statement_is_one_of_many() {
    let sql = "SELECT a FROM t WHERE b = 1";
    assert_eq!(
        Parser::parse_multi(sql),
        Ok(vec![Parser::parse(sql).unwrap()])
    );
}

#[test]
fn first_error_of_many_statements() {
    let sql = "SELECT * FROM a; DROP VIEW v; DROP INDEX i";
    assert_eq!(
        Parser::parse_multi(sql),
        Err(ParseError::UnsupportedStatement(
            "DROP View not supported".to_string()
        ))
    );
}

#[test]
fn parse_errors_have_messages() {
    let e = ParseError::from(sqlparser::parser::ParserError::RecursionLimitExceeded);
    let text = sqlparser::parser::ParserError::RecursionLimitExceeded.to_string();
    assert_eq!(e, ParseError::SqlParser(text.clone()));
    assert_eq!(e.to_string(), format!("SQL parser error: {}", text));
    assert_eq!(ParseError::EmptyQuery.to_string(), "Empty query");
    assert_eq!(
        ParseError::MultipleStatements.to_string(),
        "Multiple statements not allowed"
    );
    assert_eq!(
        ParseError::MissingClause("FROM".to_string()).to_string(),
        "Missing clause: FROM"
    );
    assert_eq!(
        ParseError::InvalidIdentifier("x".to_string()).to_string(),
        "Invalid identifier: x"
    );
    assert_eq!(
        ParseError::UnsupportedDataType("Blob".to_string()).to_string(),
        "Unsupported data type: Blob"
    );
}

#[test]
fn column_types() {
    let t = create(
        "CREATE TABLE t (a VARCHAR(10), b BIGINT, c DECIMAL(4, 2), d BOOLEAN, e JSON, \
         f TIMESTAMP, g UUID, h CHAR, i DOUBLE PRECISION, j DATE)",
    );
    let types: Vec<SqlDataType> = t.columns.iter().map(|c| c.data_type).collect();
    assert_eq!(
        types,
        vec![
            SqlDataType::Text,
            SqlDataType::Integer,
            SqlDataType::Float,
            SqlDataType::Boolean,
            SqlDataType::Json,
            SqlDataType::Timestamp,
            SqlDataType::Uuid,
            SqlDataType::Text,
            SqlDataType::Float,
            SqlDataType::Timestamp,
        ]
    );
    assert!(matches!(
        Parser::parse("CREATE TABLE t (a BYTEA)"),
        Err(ParseError::UnsupportedDataType(s)) if s == "Bytea"
    ));
    assert!(matches!(
        Parser::parse("CREATE TABLE t (a mytype)"),
        Err(ParseError::UnsupportedDataType(s)) if s.starts_with("Custom(")
    ));
}

#[test]
fn keys_and_columns_agree() {
    let t = create(
        "CREATE TABLE t (a INT UNIQUE, b INT, c INT NOT NULL, \
         PRIMARY KEY (B, c), UNIQUE (a), UNIQUE (b, c), UNIQUE (c))",
    );
    assert_eq!(t.primary_key, vec!["b".to_string(), "c".to_string()]);
    assert_eq!(
        t.unique_keys,
        vec![
            vec!["a".to_string()],
            vec!["b".to_string(), "c".to_string()],
            vec!["c".to_string()]
        ]
    );
    assert_eq!(t.columns[0].constraints, vec![ColumnConstraint::Unique]);
    assert_eq!(t.columns[1].constraints, vec![ColumnConstraint::PrimaryKey]);
    assert_eq!(
        t.columns[2].constraints,
        vec![
            ColumnConstraint::NotNull,
            ColumnConstraint::PrimaryKey,
            ColumnConstraint::Unique
        ]
    );
    assert!(t.columns[1].is_not_null());
    assert!(!t.columns[0].is_not_null());
}

#[test]
fn column_options() {
    let t = create("CREATE TABLE t (a INT NOT NULL DEFAULT 5 NOT NULL NULL, b INT)");
    assert_eq!(
        t.columns[0].constraints,
        vec![
            ColumnConstraint::NotNull,
            ColumnConstraint::Default(Expr::Literal(LiteralValue::Integer(5)))
        ]
    );
    assert_eq!(
        t.columns[0].default_value(),
        Some(&Expr::Literal(LiteralValue::Integer(5)))
    );
    assert_eq!(t.columns[1].default_value(), None);
    assert_eq!(
        refused("CREATE TABLE t (a INT CHECK (a > 0))"),
        "column option not supported: CHECK (a > 0)"
    );
}

#[test]
fn refused_tables() {
    assert_eq!(
        refused("CREATE TABLE t AS SELECT * FROM u"),
        "CREATE TABLE ... AS SELECT not supported"
    );
    assert_eq!(
        refused("CREATE TABLE t LIKE u"),
        "CREATE TABLE ... LIKE/CLONE not supported"
    );
    assert_eq!(
        refused("CREATE TEMPORARY TABLE t (a INT)"),
        "CREATE OR REPLACE / TEMPORARY TABLE not supported"
    );
    assert_eq!(
        refused("CREATE TABLE t (a INT PRIMARY KEY, b INT PRIMARY KEY)"),
        "multiple column level PRIMARY KEY declarations, use PRIMARY KEY (a, b)"
    );
    assert_eq!(
        refused("CREATE TABLE t (a INT PRIMARY KEY, PRIMARY KEY (a))"),
        "multiple PRIMARY KEY declarations"
    );
    assert_eq!(
        refused("CREATE TABLE t (a INT, CHECK (a > 0))"),
        "table constraint not supported: CHECK (a > 0)"
    );
    assert_eq!(
        bad_identifier("CREATE TABLE t (a INT, PRIMARY KEY (z))"),
        "constraint references unknown column z"
    );
    assert_eq!(
        bad_identifier("CREATE TABLE t (a INT, UNIQUE (a, A))"),
        "column a listed twice in constraint"
    );
    assert_eq!(
        bad_expression("CREATE TABLE t (a INT, UNIQUE (a + 1))"),
        "constraint column must be a plain column name: a + 1"
    );
}

#[test]
fn dropped_tables() {
    match Parser::parse("DROP TABLE IF EXISTS s.t").unwrap() {
        Statement::DropTable(d) => {
            assert_eq!(d.name, "t");
            assert!(d.if_exists);
        }
        other => panic!("{:?}", other),
    }
    assert_eq!(
        refused("DROP TABLE a, b"),
        "DROP multiple tables not supported"
    );
    assert_eq!(refused("DROP VIEW v"), "DROP View not supported");
}

#[test]
fn refused_queries() {
    assert_eq!(
        refused("WITH x AS (SELECT * FROM t) SELECT * FROM x"),
        "WITH (common table expressions) not supported"
    );
    assert_eq!(
        refused("SELECT * FROM t FOR UPDATE"),
        "FETCH / FOR UPDATE / FOR clauses not supported"
    );
    assert_eq!(
        refused("SELECT * FROM a UNION SELECT * FROM b"),
        "Unsupported query type: SELECT * FROM a UNION SELECT * FROM b"
    );
    assert_eq!(refused("VALUES (1)"), "Unsupported query type: VALUES (1)");
    assert_eq!(refused("SELECT TOP 3 a FROM t"), "TOP not supported");
    assert_eq!(refused("SELECT a INTO u FROM t"), "SELECT INTO not supported");
    assert_eq!(
        refused("SELECT a FROM t QUALIFY a = 1"),
        "QUALIFY not supported"
    );
    assert_eq!(
        refused("SELECT DISTINCT ON (a) b FROM t"),
        "DISTINCT ON (a) not supported"
    );
    assert_eq!(
        refused("SELECT a FROM t GROUP BY a WITH ROLLUP"),
        "GROUP BY ROLLUP/CUBE/GROUPING SETS not supported"
    );
    assert_eq!(
        refused("SELECT a FROM t LIMIT 1 BY a"),
        "LIMIT BY not supported"
    );
    assert_eq!(
        Parser::parse("SELECT 1"),
        Err(ParseError::MissingClause("FROM".to_string()))
    );
    assert_eq!(
        bad_expression("SELECT a FROM t LIMIT -1"),
        "LIMIT must be a non negative integer literal, got -1"
    );
    assert_eq!(
        bad_expression("SELECT a FROM t LIMIT 1 OFFSET x"),
        "OFFSET must be a non negative integer literal, got x"
    );
}

#[test]
fn queries() {
    let s = select("SELECT DISTINCT t.a AS x, 1 + b FROM t ORDER BY a NULLS FIRST, b DESC LIMIT 3, 4");
    assert!(s.distinct);
    assert!(matches!(&s.columns[0], SelectColumn::Expr { alias: Some(a), .. } if a == "x"));
    assert!(matches!(&s.columns[1], SelectColumn::Expr { alias: None, .. }));
    assert_eq!(s.order_by[0].nulls_first, Some(true));
    assert!(s.order_by[0].ascending);
    assert_eq!(s.order_by[1].nulls_first, None);
    assert!(!s.order_by[1].ascending);
    assert_eq!((s.limit, s.offset), (Some(4), Some(3)));
    assert!(!select("SELECT ALL a FROM t").distinct);
}

#[test]
fn tables_of_queries() {
    let s = select("SELECT * FROM a AS x, b JOIN c ON b.i = c.i, d");
    assert_eq!(s.from.base, "a");
    assert_eq!(s.from.base_alias, Some("x".to_string()));
    let tables: Vec<&str> = s.from.joins.iter().map(|j| j.table.as_str()).collect();
    assert_eq!(tables, vec!["b", "c", "d"]);
    let types: Vec<JoinType> = s.from.joins.iter().map(|j| j.join_type).collect();
    assert_eq!(
        types,
        vec![JoinType::Cross, JoinType::Inner, JoinType::Cross]
    );
    assert!(s.from.joins[1].on.is_some());
    let s = select("SELECT * FROM a RIGHT JOIN b ON a.i = b.i FULL JOIN c ON b.i = c.i");
    assert_eq!(s.from.joins[0].join_type, JoinType::Right);
    assert_eq!(s.from.joins[1].join_type, JoinType::Full);
    assert_eq!(
        Parser::parse("SELECT * FROM a JOIN b"),
        Err(ParseError::MissingClause(
            "JOIN ... ON condition".to_string()
        ))
    );
    assert_eq!(
        refused("SELECT * FROM (SELECT * FROM a) AS x"),
        "Unsupported table factor: (SELECT * FROM a) AS x"
    );
    assert_eq!(
        refused("SELECT * FROM f(1)"),
        "table valued functions not supported"
    );
    assert_eq!(
        refused("SELECT * FROM a AS x (y)"),
        "column aliases in table alias not supported"
    );
    assert!(refused("SELECT * FROM a LEFT SEMI JOIN b ON a.i = b.i")
        .starts_with("Unsupported join type: LeftSemi("));
}

#[test]
fn insertions() {
    match Parser::parse("INSERT INTO t VALUES (1, 'a'), (2, NULL)").unwrap() {
        Statement::Insert(i) => {
            assert_eq!(i.columns, None);
            assert_eq!(
                i.source,
                InsertSource::Values(vec![
                    vec![
                        Expr::Literal(LiteralValue::Integer(1)),
                        Expr::Literal(LiteralValue::String("a".to_string()))
                    ],
                    vec![
                        Expr::Literal(LiteralValue::Integer(2)),
                        Expr::Literal(LiteralValue::Null)
                    ]
                ])
            );
        }
        other => panic!("{:?}", other),
    }
    match Parser::parse("INSERT INTO t (a) SELECT b FROM u").unwrap() {
        Statement::Insert(i) => assert!(matches!(i.source, InsertSource::Select(_))),
        other => panic!("{:?}", other),
    }
    assert_eq!(
        refused("INSERT INTO t VALUES (1) RETURNING a"),
        "RETURNING not supported"
    );
    assert_eq!(
        refused("INSERT OR REPLACE INTO t VALUES (1)"),
        "INSERT OR ... not supported"
    );
    assert_eq!(
        refused("INSERT INTO t VALUES (1) ON CONFLICT DO NOTHING"),
        "ON CONFLICT / ON DUPLICATE KEY not supported"
    );
    assert_eq!(
        refused("INSERT INTO t VALUES (1) LIMIT 1"),
        "ORDER BY / LIMIT / WITH on INSERT ... VALUES not supported"
    );
    assert_eq!(
        Parser::parse("INSERT INTO t DEFAULT VALUES"),
        Err(ParseError::MissingClause(
            "INSERT requires VALUES or SELECT".to_string()
        ))
    );
}

#[test]
fn updates() {
    match Parser::parse("UPDATE users AS u SET U.a = 1, b = 2").unwrap() {
        Statement::Update(u) => {
            assert_eq!(u.table, "users");
            assert_eq!(u.alias, Some("u".to_string()));
            assert_eq!(u.assignments[0].column, "a");
            assert_eq!(u.assignments[1].column, "b");
            assert_eq!(u.where_clause, None);
        }
        other => panic!("{:?}", other),
    }
    assert_eq!(
        bad_identifier("UPDATE users AS u SET users.a = 1"),
        "assignment target users.a does not refer to table u"
    );
    assert_eq!(bad_identifier("UPDATE t SET x.t.a = 1"), "x.t.a");
    assert_eq!(
        bad_expression("UPDATE t SET (a, b) = (1, 2)"),
        "tuple assignment targets not supported"
    );
    assert_eq!(
        refused("UPDATE t SET a = 1 FROM u"),
        "UPDATE ... FROM not supported"
    );
}

#[test]
fn deletions() {
    match Parser::parse("DELETE FROM users AS u").unwrap() {
        Statement::Delete(d) => {
            assert_eq!(d.table, "users");
            assert_eq!(d.alias, Some("u".to_string()));
            assert_eq!(d.where_clause, None);
        }
        other => panic!("{:?}", other),
    }
    assert_eq!(
        refused("DELETE FROM a, b"),
        "DELETE from multiple tables not supported"
    );
    assert_eq!(
        refused("DELETE FROM a USING b WHERE a.i = b.i"),
        "DELETE ... USING not supported"
    );
}

#[test]
fn expressions_are_written() {
    for (text, written) in [
        ("a + 2 * -b", "a + 2 * -b"),
        ("NOT (a = 'it''s')", "NOT (a = 'it''s')"),
        ("t.a IS NOT NULL", "t.a IS NOT NULL"),
        ("a IS NULL", "a IS NULL"),
        ("a NOT IN (1, TRUE, NULL)", "a NOT IN (1, TRUE, NULL)"),
        ("a BETWEEN 1 AND 1.5", "a BETWEEN 1 AND 1.5"),
        ("a NOT ILIKE 'x%'", "a NOT ILIKE 'x%'"),
        ("count(*) <> sum(DISTINCT b)", "COUNT(*) <> SUM(DISTINCT b)"),
        ("a || \"b\" >= f(a, 1)", "a || b >= F(a, 1)"),
    ] {
        let e = condition(&format!("SELECT * FROM t WHERE {}", text));
        assert_eq!(e.to_string(), written);
    }
}

#[test]
fn literals() {
    let e = condition("SELECT * FROM t WHERE a = 9223372036854775808");
    match e {
        Expr::BinaryOp { right, .. } => assert_eq!(
            *right,
            Expr::Literal(LiteralValue::Float("9223372036854775808".to_string()))
        ),
        other => panic!("{:?}", other),
    }
    assert_eq!(
        Parser::convert_value(&RawValue::Number("12".to_string())),
        Ok(LiteralValue::Integer(12))
    );
    assert_eq!(
        Parser::convert_value(&RawValue::Number("x".to_string())),
        Err(ParseError::UnsupportedExpression(
            "Invalid number: x".to_string()
        ))
    );
    assert_eq!(
        Parser::convert_value(&RawValue::DoubleQuoted("s".to_string())),
        Ok(LiteralValue::String("s".to_string()))
    );
    assert!(bad_expression("SELECT * FROM t WHERE a = X'00'").starts_with("Unsupported value: "));
}

#[test]
fn refused_expressions() {
    assert_eq!(
        bad_expression("SELECT * FROM t WHERE a LIKE 'x' ESCAPE '!'"),
        "LIKE ... ESCAPE not supported"
    );
    assert_eq!(
        bad_expression("SELECT * FROM t WHERE a LIKE b"),
        "expected string literal"
    );
    assert_eq!(
        bad_expression("SELECT * FROM t WHERE a LIKE 1"),
        "expected string"
    );
    assert_eq!(
        bad_expression("SELECT * FROM t WHERE a & 1"),
        "Unsupported operator: BitwiseAnd"
    );
    assert_eq!(
        bad_expression("SELECT sum(a) OVER () FROM t"),
        "window function sum not supported"
    );
    assert_eq!(
        bad_expression("SELECT sum(a) FILTER (WHERE a > 1) FROM t"),
        "FILTER / WITHIN GROUP / null treatment on sum not supported"
    );
    assert_eq!(
        bad_expression("SELECT f(a => 1) FROM t"),
        "function argument not supported: a => 1"
    );
    assert_eq!(
        bad_expression("SELECT count(DISTINCT *) FROM t"),
        "function argument not supported: *"
    );
    assert!(bad_expression("SELECT a.b.c FROM t").starts_with("Unsupported identifier depth: ["));
    assert!(bad_expression("SELECT * FROM t WHERE EXISTS (SELECT * FROM u)").starts_with("Exists"));
}

#[test]
fn functions_of_no_arguments() {
    let s = select("SELECT now() AS n FROM t");
    match &s.columns[0] {
        SelectColumn::Expr { expr, .. } => assert_eq!(
            *expr,
            Expr::Function {
                name: "now".to_string(),
                args: FunctionArgs::List {
                    args: Vec::new(),
                    distinct: false
                }
            }
        ),
        other => panic!("{:?}", other),
    }
}

#[test]
fn operators() {
    assert_eq!(BinaryOperator::Lt.flip(), Some(BinaryOperator::Gt));
    assert_eq!(BinaryOperator::And.flip(), None);
    assert!(BinaryOperator::GtEq.is_comparison());
    assert!(BinaryOperator::Or.is_logical());
    assert!(BinaryOperator::Modulo.is_arithmetic());
    assert!(!BinaryOperator::Concat.is_arithmetic());
    assert_eq!(BinaryOperator::NotEq.symbol(), "<>");
    assert_eq!(UnaryOperator::Not.symbol(), "NOT ");
    assert_eq!(JoinType::Full.to_string(), "Full");
    assert_eq!(Parser::convert_binary_op("Eq"), Ok(BinaryOperator::Eq));
    assert_eq!(
        Parser::convert_unary_op("BangNot"),
        Err(ParseError::UnsupportedExpression(
            "Unsupported unary operator: BangNot".to_string()
        ))
    );
}

#[test]
fn parts_that_the_parser_gives() {
    let name = RawName {
        parts: vec![RawPart {
            ident: None,
            text: "f(x)".to_string(),
        }],
        text: "f(x)".to_string(),
    };
    assert_eq!(Parser::extract_table_name(&name), Ok("f(x)".to_string()));
    let empty = RawName {
        parts: Vec::new(),
        text: String::new(),
    };
    assert_eq!(
        Parser::extract_table_name(&empty),
        Err(ParseError::InvalidIdentifier(
            "empty table name".to_string()
        ))
    );
    let column = RawColumnDef {
        name: "a".to_string(),
        data_type: "Varchar(None)".to_string(),
        options: vec![RawColumnOption::Unique, RawColumnOption::Unique],
    };
    let column = Parser::convert_column_def(&column).unwrap();
    assert_eq!(column.data_type, SqlDataType::Text);
    assert_eq!(column.constraints, vec![ColumnConstraint::Unique]);
    let count = RawCount {
        number: Some("7".to_string()),
        text: "7".to_string(),
    };
    assert_eq!(Parser::expr_to_usize(&count, "LIMIT"), Ok(7));
    assert_eq!(
        Parser::convert_expr(&RawExpr::Identifier("c".to_string())),
        Ok(Expr::Column {
            table: None,
            name: "c".to_string()
        })
    );
    assert_eq!(
        Parser::convert_sole(&vec![RawStatement::Commit]),
        Ok(Statement::Commit)
    );
    assert_eq!(
        Parser::convert_sole(&Vec::new()),
        Err(ParseError::EmptyQuery)
    );
}

#[test]
fn commands_that_the_parser_knows() {
    assert_eq!(
        Parser::parse("START TRANSACTION READ ONLY"),
        Ok(Statement::Begin)
    );
    assert_eq!(Parser::parse("COMMIT AND CHAIN"), Ok(Statement::Commit));
    assert_eq!(
        Parser::parse("ROLLBACK TO SAVEPOINT s"),
        Ok(Statement::Rollback)
    );
    assert_eq!(
        Parser::parse("SHOW TABLES LIKE 'x%'"),
        Ok(Statement::ShowTables)
    );
    assert_eq!(
        Parser::parse("EXPLAIN s.users"),
        Ok(Statement::Describe("users".to_string()))
    );
    assert!(refused("CREATE VIEW v AS SELECT * FROM t").starts_with("CreateView"));
}

#[test]
fn refused_functions() {
    let f = RawFunction {
        name: RawName {
            parts: vec![RawPart {
                ident: Some("f".to_string()),
                text: "f".to_string(),
            }],
            text: "f".to_string(),
        },
        over: false,
        filter: false,
        within_group: 0,
        null_treatment: false,
        parametric: false,
        args: RawArguments::Subquery,
    };
    assert_eq!(
        Parser::convert_function(&f),
        Err(ParseError::UnsupportedExpression(
            "subquery as function argument not supported".to_string()
        ))
    );
    assert_eq!(
        bad_expression("SELECT quantile(0.5)(a) FROM t"),
        "parametric function quantile not supported"
    );
    assert_eq!(
        bad_expression("SELECT array_agg(a ORDER BY b) FROM t"),
        "function argument clauses on array_agg not supported"
    );
    assert_eq!(
        bad_expression("SELECT percentile(a) WITHIN GROUP (ORDER BY a) FROM t"),
        "FILTER / WITHIN GROUP / null treatment on percentile not supported"
    );
    assert_eq!(
        bad_expression("SELECT first_value(a) IGNORE NULLS FROM t"),
        "FILTER / WITHIN GROUP / null treatment on first_value not supported"
    );
}

#[test]
fn refused_clauses() {
    assert_eq!(
        refused("SELECT a FROM t LATERAL VIEW explode(b) v AS c"),
        "LATERAL VIEW not supported"
    );
    assert_eq!(refused("SELECT a FROM t CLUSTER BY a"), "CLUSTER BY not supported");
    assert_eq!(
        refused("SELECT a FROM t DISTRIBUTE BY a"),
        "DISTRIBUTE BY not supported"
    );
    assert_eq!(refused("SELECT a FROM t SORT BY a"), "SORT BY not supported");
    assert_eq!(
        refused("SELECT a FROM t WINDOW w AS (PARTITION BY a)"),
        "WINDOW not supported"
    );
    assert_eq!(
        refused("SELECT a FROM t FETCH FIRST 1 ROWS ONLY"),
        "FETCH / FOR UPDATE / FOR clauses not supported"
    );
    let join = RawJoin {
        relation: RawFactor::Table {
            name: RawName {
                parts: vec![RawPart {
                    ident: Some("u".to_string()),
                    text: "u".to_string(),
                }],
                text: "u".to_string(),
            },
            alias: None,
            args: false,
        },
        operator: RawJoinOperator::CrossJoin(RawConstraint::On(RawExpr::Identifier(
            "i".to_string(),
        ))),
    };
    assert_eq!(
        Parser::convert_join(&join),
        Err(ParseError::UnsupportedStatement(
            "CROSS JOIN does not take an ON condition".to_string()
        ))
    );
    assert_eq!(
        refused("INSERT IGNORE INTO t VALUES (1)"),
        "INSERT IGNORE not supported"
    );
    assert_eq!(
        refused("DELETE FROM t WHERE a = 1 RETURNING a"),
        "RETURNING not supported"
    );
    assert_eq!(
        refused("UPDATE t SET a = 1 LIMIT 1"),
        "UPDATE ... LIMIT not supported"
    );
}

#[test]
fn joins_of_all_kinds() {
    let s = select(
        "SELECT * FROM a INNER JOIN b ON a.i = b.i LEFT OUTER JOIN c ON a.i = c.i \
         RIGHT OUTER JOIN d ON a.i = d.i",
    );
    let types: Vec<JoinType> = s.from.joins.iter().map(|j| j.join_type).collect();
    assert_eq!(
        types,
        vec![JoinType::Inner, JoinType::Left, JoinType::Right]
    );
}
