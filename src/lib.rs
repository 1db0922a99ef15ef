pub mod text;
pub mod expr;
pub mod reader;
pub mod token;
pub mod repl;
pub mod laws;

pub use expr::Expr;
pub use reader::{parse_expr, parse_lisp, parse_list, Context, ParseError, Rule};
pub use repl::{normalize_line, respond, Reply};
pub use token::{parse_int, tokenize, Token, Tokens};
