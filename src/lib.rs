//! Algebraic expressions as immutable trees, a precedence-aware printer for plain text
//! and LaTeX, a bottom-up rewrite engine with copy-on-write rebuilding, and a
//! flattening pass that explains each of its rewrites as a step.
pub mod expression;
pub mod html;
pub mod identity;
pub mod parens;
pub mod printer;
pub mod simplify;
pub mod step;
pub mod symbols;
pub mod token_stream;
pub mod traverse;
