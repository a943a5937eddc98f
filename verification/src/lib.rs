//! An arithmetic expression engine.
//!
//! Input text in either postfix (reverse Polish) or infix notation is
//! tokenized, infix token streams are reordered into postfix form by an
//! operator-precedence pass, and the resulting token stream drives a stack
//! machine that builds immutable expression trees. The most recent reduction
//! can be reversed ("undo"), which pops a tree and pushes back its immediate
//! children.

pub mod text;
pub mod token;
pub mod expr;
pub mod calc;
pub mod laws;
pub mod requests;
pub mod avl;
pub mod trie;
