//! Compiles infix expressions, written against a configurable grammar, into
//! postfix token sequences and canonical expression graphs.

pub mod functions;
pub mod lexer;
pub mod nodes;
pub mod operators;
pub mod shunter;
pub mod token;
pub mod varnum;

pub use functions::{default_functions, Function};
pub use lexer::{lex, LexError};
pub use nodes::{
    BuildError, CommutativityType, ExprType, Expression, InputGroup, LeafMake, Node, NodeType,
    Pow, StrMake, Strategy, UnityMake, ZeroMake,
};
pub use operators::{
    default_binary_operators, default_precedence, default_unary_operators, BinaryOperator,
    DefaultOperetor, Op, UnaryOperator,
};
pub use shunter::{shunt, single_input_pairs, stringify_rpn, ParseError};
pub use token::{Context, Operator, Token, TokenKind};
pub use varnum::{Number, Variable, NUMBER_PATTERN};
