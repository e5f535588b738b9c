//! A term-rewriting engine for the untyped lambda calculus: terms with cached
//! free-variable, binder and reducibility data, alpha-equivalence,
//! capture-avoiding substitution, and beta-reduction under normal,
//! applicative and memoized (lazy) evaluation orders.

pub mod alpha;
pub mod ast;
pub mod generator;
pub mod lexer;
pub mod model;
pub mod parser;
pub mod reduction;
pub mod renaming;
pub mod substitution;
pub mod termmap;
pub mod variant;
pub mod varmap;
pub mod varset;
