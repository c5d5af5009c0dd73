//! Enumerates every fully parenthesised arithmetic expression over a row of
//! operands and records, for each integer result, the smallest expressions
//! that reach it.
//!
//! Expressions are evaluated on `i64`. A division by zero, or any
//! intermediate result outside the range of `i64`, leaves the expression
//! undefined; undefined expressions are skipped. Operator slots hold positions
//! in the configured operator list, so a list that repeats an operator yields
//! repeated texts, which the table keeps once.

pub mod operation;
pub mod tree;
pub mod shapes;
pub mod odometer;
pub mod table;
pub mod search;
pub mod config;

pub use operation::{Operation, OperationDictionary};
pub use tree::{BinaryNode, Node, NumNode, eval, render};
pub use shapes::{Composed, calculate_parenthesisations, catalan, make_options};
pub use odometer::{next_operands, next_operators};
pub use table::{Entry, ResultTable};
pub use search::search;
pub use config::{Config, ConfigError, configure, split_operations};
