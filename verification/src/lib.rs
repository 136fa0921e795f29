//! Value-and-type layer of a relational term-rewriting engine.
//!
//! Every datum the engine manipulates is a [`value::Value`]: a type tag plus a
//! 64-bit payload.  Aggregate sorts (the ordered map exemplar) keep their
//! structure in a deduplicating, insertion-indexed store ([`container`]) and
//! travel as small handles.  The [`sort`] module holds the type-system side:
//! sort declaration, type-checked primitives, and expression reconstruction.

pub mod container;
pub mod expr;
pub mod sort;
pub mod symbol;
pub mod value;
