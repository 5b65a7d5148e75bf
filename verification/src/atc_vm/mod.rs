//! The ATC virtual machine: its instructions, their parser, the bytecode verifier
//! that admits programs, the chain-context gate, and the stack machine itself.
pub mod context;
pub mod ops;
pub mod bytecode;
pub mod vm;
