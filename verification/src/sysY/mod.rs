//! SysY: the syntax tree, constant folding over it, and its compilation
//! into Eeyore.
pub mod ast;
pub mod eval;
pub mod compile;
