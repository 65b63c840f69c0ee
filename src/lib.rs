//! An assembler for a small stack-machine language and the machine that runs it.
pub mod assembler;
pub mod instruction;
pub mod text;
pub mod vm;
