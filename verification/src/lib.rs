//! A small SysY compiler: constant folding over the SysY syntax tree,
//! translation into the Eeyore intermediate language, and code generation
//! from Eeyore into Tigger / RISC-V assembly.
#![allow(non_snake_case)]
#![allow(non_camel_case_types)]

pub mod text;
pub mod sysY;
pub mod eeyore;
pub mod tigger;
