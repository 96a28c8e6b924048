//! Pattern-matching elaboration for a functional-language compiler: rewrites
//! multi-clause, multi-pattern definitions over algebraic data types into a
//! tree of single-dispatch micro-functions over plain lambda-calculus terms,
//! using the Scott encoding of data.

pub mod ast;
pub mod names;
pub mod model;
pub mod encode;
