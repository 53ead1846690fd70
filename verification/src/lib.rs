//! An interpreter for a small language of finite sets of integers.
//!
//! ```text
//! let universe = {1,2,3,4,5};
//! let A = {1,2};
//! let B = A' \ {2};
//! print A ∪ B;
//! ```
//!
//! [`parse_program`] turns a source text into a [`ast::Program`];
//! [`eval::Env::eval_program`] runs it and gives back what it prints;
//! [`eval::Env::format_set`] writes a set out.
//!
//! The grammar is stated in [`grammar`], the meaning of expressions and
//! programs in [`eval`], and both the parser and the evaluator are proved to
//! compute what is stated there. What follows for every text and every
//! program is proved too:
//!
//! - [`laws`]: the algebra of the operators, and what a program prints;
//! - [`shape`]: parsing fails only on a text that breaks the grammar or
//!   holds too large a number;
//! - [`report`]: a syntax error lists nothing that stands where the error
//!   is;
//! - [`canon`]: every program has a text, and the parser reads it back.

pub mod ast;
pub mod canon;
pub mod engine;
pub mod eval;
pub mod format;
pub mod grammar;
pub mod laws;
pub mod parse;
pub mod report;
pub mod sets;
pub mod shape;
pub mod tree;

pub use engine::{SetLang, SyntaxError};
pub use grammar::{Expected, Text};
pub use parse::{parse_program, ParseError};
pub use tree::{Pair, Rule};
