//! An infix arithmetic expression evaluator: a lexer, an operator-precedence
//! resolver (shunting-yard), and a postfix evaluator, working over exact
//! rational numbers.

pub mod rational;
pub mod calc;
pub mod laws;
