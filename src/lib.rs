// An arithmetic expression calculator, in two stages: a grammar that turns a
// line into tokens (`grammar`), and precedence climbing that builds the
// expression tree from them (`pratt`). `laws` holds what is proved of both.

pub mod syntax;
pub mod grammar;
pub mod ast;
pub mod pratt;
pub mod laws;

pub use ast::Expr;
pub use grammar::{CalculatorParser, SyntaxError};
pub use pratt::{parse, parse_expr};
pub use syntax::{Op, Token};
