//! Operator-precedence parsing over a partial order.
//!
//! Operators are compared by reachability in an acyclic graph of "binds
//! tighter than" declarations instead of by a numeric precedence table. A flat
//! stream of tokens is combined into a binary application tree that agrees
//! with that order; two operators that the order does not relate, and for
//! which no default applies, are an error.
pub mod builder;
pub mod context;
pub mod expr;
pub mod graph;
pub mod laws;
pub mod reader;

pub use builder::{append, append_left, append_right, associativity, build, combine, infix, parse};
pub use context::Context;
pub use expr::{leftmost, render, Associativity, Error, Expr};
pub use reader::{expr_token, next, peek, token, whitespace};
