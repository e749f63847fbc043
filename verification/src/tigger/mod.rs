//! Tigger: a register-level language whose instructions are emitted as
//! RISC-V assembly.
pub mod inst;
pub mod parser;
