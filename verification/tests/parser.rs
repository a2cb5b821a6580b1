//! The parser on whole statements.

use bplus_engine::sql::ast::{
    BinaryOperator, ColumnConstraint, Expr, InsertSource, JoinType, LiteralValue, SelectColumn,
    Statement,
};
use bplus_engine::sql::error::ParseError;
use bplus_engine::sql::parser::Parser;

#[test]
fn test_parse_create_table() {
    let sql = "CREATE TABLE IF NOT EXISTS users (id TEXT PRIMARY KEY, name TEXT NOT NULL, age INTEGER)";
    let stmt = Parser::parse(sql).unwrap();

    match stmt {
        Statement::CreateTable(ct) => {
            assert_eq!(ct.name, "users");
            assert_eq!(ct.columns.len(), 3);
            assert!(ct.if_not_exists);

            assert_eq!(ct.columns[0].name, "id");
            assert!(
                ct.columns[0]
                    .constraints
                    .contains(&ColumnConstraint::PrimaryKey)
            );

            assert_eq!(ct.columns[1].name, "name");
            assert!(
                ct.columns[1]
                    .constraints
                    .contains(&ColumnConstraint::NotNull)
            );
        }
        _ => panic!("Expected CreateTable"),
    }
}

#[test]
fn test_parse_drop_table() {
    let sql = "DROP TABLE users";
    let stmt = Parser::parse(sql).unwrap();

    match stmt {
        Statement::DropTable(dt) => {
            assert_eq!(dt.name, "users");
            assert!(!dt.if_exists);
        }
        _ => panic!("Expected DropTable"),
    }
}

#[test]
fn test_parse_select_order_limit() {
    let sql = "SELECT * FROM users ORDER BY name DESC LIMIT 10 OFFSET 5";
    let stmt = Parser::parse(sql).unwrap();

    match stmt {
        Statement::Select(s) => {
            assert_eq!(s.order_by.len(), 1);
            assert_eq!(
                s.order_by[0].expr,
                Expr::Column {
                    table: None,
                    name: "name".into(),
                }
            );
            assert!(!s.order_by[0].ascending);
            assert_eq!(s.limit, Some(10));
            assert_eq!(s.offset, Some(5));
        }
        _ => panic!("Expected Select"),
    }
}

#[test]
fn test_parse_complex_where() {
    let sql = "SELECT * FROM users WHERE age >= 18 AND (status = 'active' OR role = 'admin')";
    let stmt = Parser::parse(sql).unwrap();

    match stmt {
        Statement::Select(s) => {
            assert!(s.where_clause.is_some());
        }
        _ => panic!("Expected Select"),
    }
}

#[test]
fn test_parse_insert() {
    let sql = "INSERT INTO users (id, name) VALUES ('1', 'Alice')";
    let stmt = Parser::parse(sql).unwrap();

    match stmt {
        Statement::Insert(i) => {
            assert_eq!(i.table, "users");
            assert_eq!(i.columns, Some(vec!["id".into(), "name".into()]));
            match i.source {
                InsertSource::Values(rows) => {
                    assert_eq!(rows.len(), 1);
                    assert_eq!(rows[0].len(), 2);
                }
                other => panic!("Expected VALUES source, got {:?}", other),
            }
        }
        _ => panic!("Expected Insert"),
    }
}

#[test]
fn test_parse_update() {
    let sql = "UPDATE users SET name = 'Bob' WHERE id = '1'";
    let stmt = Parser::parse(sql).unwrap();

    match stmt {
        Statement::Update(u) => {
            assert_eq!(u.table, "users");
            assert_eq!(u.assignments.len(), 1);
            assert_eq!(u.assignments[0].column, "name");
            assert!(u.where_clause.is_some());
        }
        _ => panic!("Expected Update"),
    }
}

#[test]
fn test_parse_delete() {
    let sql = "DELETE FROM users WHERE id = '1'";
    let stmt = Parser::parse(sql).unwrap();

    match stmt {
        Statement::Delete(d) => {
            assert_eq!(d.table, "users");
            assert!(d.where_clause.is_some());
        }
        _ => panic!("Expected Delete"),
    }
}

#[test]
fn test_parse_describe() {
    match Parser::parse("DESCRIBE users").unwrap() {
        Statement::Describe(table) => assert_eq!(table, "users"),
        _ => panic!("Expected Describe"),
    }
}

#[test]
fn test_parse_in_list() {
    let sql = "SELECT * FROM users WHERE status IN ('active', 'pending')";
    let stmt = Parser::parse(sql).unwrap();

    match stmt {
        Statement::Select(s) => match s.where_clause {
            Some(Expr::InList { list, negated, .. }) => {
                assert_eq!(list.len(), 2);
                assert!(!negated);
            }
            _ => panic!("Expected InList"),
        },
        _ => panic!("Expected Select"),
    }
}

#[test]
fn test_parse_like() {
    let sql = "SELECT * FROM users WHERE name LIKE 'A%'";
    let stmt = Parser::parse(sql).unwrap();

    match stmt {
        Statement::Select(s) => match s.where_clause {
            Some(Expr::Like {
                pattern, negated, ..
            }) => {
                assert_eq!(pattern, "A%");
                assert!(!negated);
            }
            _ => panic!("Expected Like"),
        },
        _ => panic!("Expected Select"),
    }
}

#[test]
fn test_parse_between() {
    let sql = "SELECT * FROM users WHERE age BETWEEN 18 AND 65";
    let stmt = Parser::parse(sql).unwrap();

    match stmt {
        Statement::Select(s) => {
            assert!(matches!(
                s.where_clause,
                Some(Expr::Between { negated: false, .. })
            ));
        }
        _ => panic!("Expected Select"),
    }
}

#[test]
fn test_empty_query() {
    assert!(matches!(
        Parser::parse("").unwrap_err(),
        ParseError::EmptyQuery
    ));
    assert!(matches!(
        Parser::parse("   ").unwrap_err(),
        ParseError::EmptyQuery
    ));
}

#[test]
fn test_parse_multi() {
    let sql = "CREATE TABLE t1 (id INT); SELECT * FROM t1";
    let stmts = Parser::parse_multi(sql).unwrap();
    assert_eq!(stmts.len(), 2);
    assert!(matches!(stmts[0], Statement::CreateTable(_)));
    assert!(matches!(stmts[1], Statement::Select(_)));
}

#[test]
fn test_table_level_constraints() {
    let sql = "CREATE TABLE users (id INT, email TEXT, PRIMARY KEY (id), UNIQUE (email))";
    let stmt = Parser::parse(sql).unwrap();
    match stmt {
        Statement::CreateTable(ct) => {
            assert_eq!(ct.name, "users");
            let id_col = ct.columns.iter().find(|c| c.name == "id").unwrap();
            assert!(id_col.constraints.contains(&ColumnConstraint::PrimaryKey));
            let email_col = ct.columns.iter().find(|c| c.name == "email").unwrap();
            assert!(email_col.constraints.contains(&ColumnConstraint::Unique));
        }
        _ => panic!("Expected CreateTable"),
    }
}

#[test]
fn test_qualified_column_in_expr() {
    let sql = "SELECT * FROM users WHERE users.age >= 18";
    let stmt = Parser::parse(sql).unwrap();
    match stmt {
        Statement::Select(s) => match s.where_clause.unwrap() {
            Expr::BinaryOp { left, .. } => {
                assert_eq!(
                    *left,
                    Expr::Column {
                        table: Some("users".into()),
                        name: "age".into(),
                    }
                );
            }
            other => panic!("Expected BinaryOp, got {:?}", other),
        },
        _ => panic!("Expected Select"),
    }
}

#[test]
fn test_unqualified_column_in_expr() {
    let sql = "SELECT * FROM users WHERE age >= 18";
    let stmt = Parser::parse(sql).unwrap();
    match stmt {
        Statement::Select(s) => match s.where_clause.unwrap() {
            Expr::BinaryOp { left, .. } => {
                assert_eq!(
                    *left,
                    Expr::Column {
                        table: None,
                        name: "age".into(),
                    }
                );
            }
            other => panic!("Expected BinaryOp, got {:?}", other),
        },
        _ => panic!("Expected Select"),
    }
}

#[test]
fn test_qualified_column_in_projection() {
    let sql = "SELECT a.id, b.name FROM a JOIN b ON a.id = b.a_id";
    let stmt = Parser::parse(sql).unwrap();
    match stmt {
        Statement::Select(s) => {
            assert_eq!(
                s.columns[0],
                SelectColumn::Column {
                    table: Some("a".into()),
                    name: "id".into(),
                }
            );
            assert_eq!(
                s.columns[1],
                SelectColumn::Column {
                    table: Some("b".into()),
                    name: "name".into(),
                }
            );
        }
        _ => panic!("Expected Select"),
    }
}

#[test]
fn test_unqualified_column_in_projection() {
    let sql = "SELECT id, name FROM users";
    let stmt = Parser::parse(sql).unwrap();
    match stmt {
        Statement::Select(s) => {
            assert_eq!(
                s.columns[0],
                SelectColumn::Column {
                    table: None,
                    name: "id".into(),
                }
            );
            assert_eq!(
                s.columns[1],
                SelectColumn::Column {
                    table: None,
                    name: "name".into(),
                }
            );
        }
        _ => panic!("Expected Select"),
    }
}

#[test]
fn test_inner_join() {
    let sql = "SELECT * FROM a JOIN b ON a.id = b.a_id";
    let stmt = Parser::parse(sql).unwrap();
    match stmt {
        Statement::Select(s) => {
            assert_eq!(s.from.base, "a");
            assert!(s.from.base_alias.is_none());
            assert_eq!(s.from.joins.len(), 1);
            let j = &s.from.joins[0];
            assert_eq!(j.table, "b");
            assert_eq!(j.join_type, JoinType::Inner);
            match j.on.as_ref().unwrap() {
                Expr::BinaryOp { left, op, right } => {
                    assert_eq!(
                        **left,
                        Expr::Column {
                            table: Some("a".into()),
                            name: "id".into(),
                        }
                    );
                    assert_eq!(*op, BinaryOperator::Eq);
                    assert_eq!(
                        **right,
                        Expr::Column {
                            table: Some("b".into()),
                            name: "a_id".into(),
                        }
                    );
                }
                other => panic!("Expected BinaryOp ON condition, got {:?}", other),
            }
        }
        _ => panic!("Expected Select"),
    }
}

#[test]
fn test_left_join() {
    let sql = "SELECT * FROM a LEFT JOIN b ON a.id = b.a_id";
    let stmt = Parser::parse(sql).unwrap();
    match stmt {
        Statement::Select(s) => {
            assert_eq!(s.from.joins.len(), 1);
            assert_eq!(s.from.joins[0].join_type, JoinType::Left);
        }
        _ => panic!("Expected Select"),
    }
}

#[test]
fn test_multiple_joins() {
    let sql = "SELECT * FROM a JOIN b ON a.id = b.a_id LEFT JOIN c ON b.id = c.b_id";
    let stmt = Parser::parse(sql).unwrap();

    match stmt {
        Statement::Select(s) => {
            assert_eq!(s.from.base, "a");
            assert_eq!(s.from.joins.len(), 2);
            assert_eq!(s.from.joins[0].table, "b");
            assert_eq!(s.from.joins[0].join_type, JoinType::Inner);
            assert_eq!(s.from.joins[1].table, "c");
            assert_eq!(s.from.joins[1].join_type, JoinType::Left);
        }
        _ => panic!("Expected Select"),
    }
}

#[test]
fn test_table_alias() {
    let sql = "SELECT u.name FROM users AS u";
    let stmt = Parser::parse(sql).unwrap();
    match stmt {
        Statement::Select(s) => {
            assert_eq!(s.from.base, "users");
            assert_eq!(s.from.base_alias.as_deref(), Some("u"));
            assert_eq!(
                s.columns[0],
                SelectColumn::Column {
                    table: Some("u".into()),
                    name: "name".into(),
                }
            );
        }
        _ => panic!("Expected Select"),
    }
}

#[test]
fn test_join_alias() {
    let sql = "SELECT * FROM a JOIN b AS bb ON a.id = bb.a_id";
    let stmt = Parser::parse(sql).unwrap();
    match stmt {
        Statement::Select(s) => {
            assert_eq!(s.from.joins[0].table, "b");
            assert_eq!(s.from.joins[0].alias.as_deref(), Some("bb"));
        }
        _ => panic!("Expected Select"),
    }
}

#[test]
fn test_cross_join() {
    let sql = "SELECT * FROM a CROSS JOIN b";
    let stmt = Parser::parse(sql).unwrap();
    match stmt {
        Statement::Select(s) => {
            assert_eq!(s.from.joins.len(), 1);
            assert_eq!(s.from.joins[0].join_type, JoinType::Cross);
            assert!(s.from.joins[0].on.is_none());
        }
        _ => panic!("Expected Select"),
    }
}

#[test]
fn test_group_by() {
    let sql = "SELECT name, COUNT(*) FROM users GROUP BY name";
    let stmt = Parser::parse(sql).unwrap();
    match stmt {
        Statement::Select(s) => {
            assert_eq!(s.group_by.len(), 1);
            assert_eq!(
                s.group_by[0],
                Expr::Column {
                    table: None,
                    name: "name".into(),
                }
            );
        }
        _ => panic!("Expected Select"),
    }
}

#[test]
fn test_having() {
    let sql = "SELECT name, COUNT(*) FROM users GROUP BY name HAVING COUNT(*) > 1";
    let stmt = Parser::parse(sql).unwrap();
    match stmt {
        Statement::Select(s) => {
            assert!(s.having.is_some());
            assert_eq!(s.group_by.len(), 1);
        }
        _ => panic!("Expected Select"),
    }
}

#[test]
fn test_no_group_by_produces_empty_vec() {
    let sql = "SELECT * FROM users";
    let stmt = Parser::parse(sql).unwrap();
    match stmt {
        Statement::Select(s) => {
            assert!(s.group_by.is_empty());
            assert!(s.having.is_none());
        }
        _ => panic!("Expected Select"),
    }
}

#[test]
fn test_group_by_all_errors() {
    let sql = "SELECT name FROM users GROUP BY ALL";
    let result = Parser::parse(sql);
    assert!(result.is_err());
    match result.unwrap_err() {
        ParseError::UnsupportedStatement(msg) => {
            assert!(msg.contains("GROUP BY ALL"), "got: {}", msg);
        }
        other => panic!("Expected UnsupportedStatement, got {:?}", other),
    }
}

#[test]
fn test_order_by_all_parsed_as_column() {
    let sql = "SELECT * FROM users ORDER BY ALL";
    let stmt = Parser::parse(sql).unwrap();
    match stmt {
        Statement::Select(s) => {
            assert_eq!(s.order_by.len(), 1);
            // The generic dialect reads ALL as the name of a column.
            assert_eq!(
                s.order_by[0].expr,
                Expr::Column {
                    table: None,
                    name: "ALL".into(),
                }
            );
        }
        _ => panic!("Expected Select"),
    }
}

#[test]
fn test_qualified_wildcard() {
    let sql = "SELECT a.* FROM a JOIN b ON a.id = b.a_id";
    let stmt = Parser::parse(sql).unwrap();
    match stmt {
        Statement::Select(s) => {
            assert_eq!(s.columns[0], SelectColumn::QualifiedWildcard("a".into()));
        }
        _ => panic!("Expected Select"),
    }
}

#[test]
fn test_update_rejects_join() {
    let sql = "UPDATE a JOIN b ON a.id = b.a_id SET a.name = 'x'";
    let result = Parser::parse(sql);
    assert!(result.is_err());
    match result.unwrap_err() {
        ParseError::UnsupportedStatement(msg) => {
            assert!(msg.contains("JOIN"), "got: {}", msg);
        }
        other => panic!("Expected UnsupportedStatement, got {:?}", other),
    }
}

#[test]
fn test_join_using_errors() {
    let sql = "SELECT * FROM a JOIN b USING (id)";
    let result = Parser::parse(sql);
    assert!(result.is_err());
    match result.unwrap_err() {
        ParseError::UnsupportedStatement(msg) => {
            assert!(msg.contains("USING"), "got: {}", msg);
        }
        other => panic!("Expected UnsupportedStatement, got {:?}", other),
    }
}

#[test]
fn test_natural_join_errors() {
    let sql = "SELECT * FROM a NATURAL JOIN b";
    let result = Parser::parse(sql);
    assert!(result.is_err());
    match result.unwrap_err() {
        ParseError::UnsupportedStatement(msg) => {
            assert!(msg.contains("NATURAL"), "got: {}", msg);
        }
        other => panic!("Expected UnsupportedStatement, got {:?}", other),
    }
}

#[test]
fn test_full_integration_query() {
    let sql = "SELECT a.id, b.name FROM a JOIN b ON a.id = b.a_id WHERE a.age >= 18 GROUP BY b.name HAVING COUNT(*) > 1";
    let stmt = Parser::parse(sql).unwrap();
    match stmt {
        Statement::Select(s) => {
            assert_eq!(
                s.columns[0],
                SelectColumn::Column {
                    table: Some("a".into()),
                    name: "id".into(),
                }
            );
            assert_eq!(
                s.columns[1],
                SelectColumn::Column {
                    table: Some("b".into()),
                    name: "name".into(),
                }
            );

            assert_eq!(s.from.base, "a");
            assert_eq!(s.from.joins.len(), 1);
            assert_eq!(s.from.joins[0].table, "b");
            assert_eq!(s.from.joins[0].join_type, JoinType::Inner);

            match s.from.joins[0].on.as_ref().unwrap() {
                Expr::BinaryOp { left, op, right } => {
                    assert_eq!(
                        **left,
                        Expr::Column {
                            table: Some("a".into()),
                            name: "id".into(),
                        }
                    );
                    assert_eq!(*op, BinaryOperator::Eq);
                    assert_eq!(
                        **right,
                        Expr::Column {
                            table: Some("b".into()),
                            name: "a_id".into(),
                        }
                    );
                }
                other => panic!("Expected BinaryOp, got {:?}", other),
            }

            match s.where_clause.as_ref().unwrap() {
                Expr::BinaryOp { left, op, right } => {
                    assert_eq!(
                        **left,
                        Expr::Column {
                            table: Some("a".into()),
                            name: "age".into(),
                        }
                    );
                    assert_eq!(*op, BinaryOperator::GtEq);
                    assert_eq!(**right, Expr::Literal(LiteralValue::Integer(18)));
                }
                other => panic!("Expected BinaryOp, got {:?}", other),
            }

            assert_eq!(s.group_by.len(), 1);
            assert_eq!(
                s.group_by[0],
                Expr::Column {
                    table: Some("b".into()),
                    name: "name".into(),
                }
            );

            assert!(s.having.is_some());
            match s.having.as_ref().unwrap() {
                Expr::BinaryOp { left, op, right } => {
                    assert_eq!(*op, BinaryOperator::Gt);
                    match left.as_ref() {
                        Expr::Function { name, .. } => {
                            assert_eq!(name.to_uppercase(), "COUNT");
                        }
                        other => panic!("Expected Function, got {:?}", other),
                    }
                    assert_eq!(**right, Expr::Literal(LiteralValue::Integer(1)));
                }
                other => panic!("Expected BinaryOp, got {:?}", other),
            }
        }
        _ => panic!("Expected Select"),
    }
}
