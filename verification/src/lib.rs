//! A declarative command-line argument parser.
//!
//! A caller describes the shape of a command — its name, its recognized
//! flag tokens, its ordered positional-argument rules (each required or
//! optional), and its nested subcommands — and the parser consumes a
//! token sequence to produce a structured result or a typed error.
//!
//! The behaviour of parsing is captured by the specification function
//! [`model::spec_parse`]; every public operation carries a contract that
//! relates it to that function, and [`laws`] states and proves the
//! general properties of the algorithm.

pub mod laws;
pub mod model;

mod cmd;

pub use cmd::Command;
pub use cmd::Error;
pub use cmd::ParsedCommand;
