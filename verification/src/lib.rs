//! Table-driven DFA scanning with an x86_64 code image.

use vstd::prelude::*;

mod outside;
pub mod error;
pub mod table;
pub mod machine;
pub mod codegen;
pub mod dfa;

pub use outside::match_of;
pub use error::{Error, Result};
pub use table::TransitionTable;
pub use dfa::JitDfa;
pub use matchkit::Match;
