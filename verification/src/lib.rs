//! A verified simulator for a small mailbox-and-register assembly language.
//!
//! Source text is lexed into a stream of tokens by ordered backtracking
//! alternation over a fixed grammar (`parser`), the tokens are lowered into a
//! label-resolved linear instruction sequence (`compiler`), and the resulting
//! program runs on a machine with a typed register file, a single
//! accumulator, and arithmetic clamped to `[-999, 999]` (`machine`).
//! `level` builds the input/register/expected-output fixtures of the puzzles
//! the machine is meant to solve.

pub mod compiler;
pub mod level;
pub mod machine;
pub mod parser;
