//! ToastTTA: instruction encoding, a cycle-accurate machine model and an
//! assembler for the ToastTTA transport-triggered architecture.

pub mod assembler;
pub mod diag;
pub mod encoder;
pub mod encoding;
pub mod image;
pub mod isa;
pub mod lexer;
pub mod machine;
pub mod parser;
pub mod text;

pub use assembler::assemble;
pub use encoding::{IWord, Slot};
pub use machine::Machine;
