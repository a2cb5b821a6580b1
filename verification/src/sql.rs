//! The SQL front end: statements, and how they are made of what the SQL parser
//! returns.

pub mod ast;
pub mod error;
pub mod error_laws;
pub mod expression_laws;
pub mod laws;
pub mod meaning;
pub mod parser;
pub mod raw;
pub mod reader;
pub mod refusal_laws;
pub mod statement_laws;
pub mod text;
pub mod text_laws;
pub mod view_laws;

pub use ast::{
    Assignment, BinaryOperator, ColumnConstraint, ColumnDef, CreateTable, Delete, DropTable, Expr,
    FunctionArgs, Insert, InsertSource, Join, JoinType, LiteralValue, OrderBy, Select,
    SelectColumn, SqlDataType, Statement, TableRef, UnaryOperator, Update,
};
pub use error::{ParseError, ParseResult};
pub use parser::Parser;
