//! The Eeyore intermediate language: its instructions, their text form,
//! reading them back from text, and translation into Tigger / RISC-V.
pub mod inst;
pub mod parser;
pub mod trans;
