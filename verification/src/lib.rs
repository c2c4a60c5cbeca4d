//! A minimal stack-based language with two execution strategies that must
//! agree on observable behaviour: a direct interpreter and a generator of
//! native assembly text.
//!
//! The pipeline is: source text -> words -> flat op sequence -> resolved op
//! sequence (jump targets filled in) -> interpreter output, or assembly text.
//! The op sequence is index-stable: resolution only fills `value` fields,
//! never reorders or removes entries, so an instruction pointer means the
//! same thing to both backends.

pub mod ops;
pub mod numfmt;
pub mod semantics;
pub mod interp;
pub mod resolver;
pub mod lexer;
pub mod laws;
pub mod codegen;
