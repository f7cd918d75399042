//! A compiler and two engines for a language of eight instructions on a tape of bytes.
//!
//! `bfir` turns source text into a folded instruction sequence, or reports the bracket
//! that is at fault. `bfjit` generates native code for x64 from such a sequence, through
//! the assembler of dynasmrt; `assembler` says what is taken on trust of that assembler,
//! `x64` holds the instruction encodings, and `listing` and `linking` prove that the code
//! handed to the assembler can always be linked. `machine` runs a sequence step by step
//! where native code cannot be had. `error` holds the errors that all of them share.

pub mod assembler;
pub mod bfir;
pub mod bfjit;
pub mod error;
pub mod linking;
pub mod listing;
pub mod machine;
pub mod x64;
