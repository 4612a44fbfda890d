//! An interactive calculator core: exact rational arithmetic (including
//! rational powers with exact n-th roots), a small surface language with
//! user-defined constants and recursive functions, and a lazy, memoizing,
//! stack-safe evaluator over a shared expression store.

pub mod bignat;
pub mod bool_gen;
pub mod compile;
pub mod ctrlc_handler;
pub mod environment;
pub mod expression;
pub mod format;
pub mod garbage;
pub mod numtheory;
pub mod parse;
pub mod pow;
pub mod program;
pub mod rational;
pub mod render;
pub mod text;
pub mod value;
