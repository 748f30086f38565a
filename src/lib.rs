//! A small SQL-style query engine: a scanner and recursive-descent parser for
//! single SELECT statements, an expression tree evaluated against rows, and the
//! stages of an executor (filter, group, project, sort) that turn rows into an
//! answer table.
pub mod text;
pub mod token;
pub mod scanner;
pub mod aggregate;
pub mod expr;
pub mod query;
pub mod parser;
pub mod data;
pub mod row;
pub mod source;
pub mod answer;
pub mod executor;
pub mod canonical;
pub mod canonical_text;

pub use answer::Answer;
pub use data::{Data, Number};
pub use executor::execute;
pub use parser::parse;
pub use query::Query;
