//! A GADDAG: a dictionary index for word games that answers "is this a word",
//! "which words start with", "which words end with" and "which words contain"
//! from one sorted set of directional entries held in a finite state
//! transducer.

pub mod lex;
pub mod entry;
pub mod error;
pub mod sorted;
pub mod text;
pub mod automaton;
pub mod builder;
pub mod query;
pub mod gaddag;
pub mod laws;

pub use crate::builder::build_entries;
pub use crate::entry::{MAX_WORD_LENGTH, SEP, SEP_STR};
pub use crate::error::GaddagError;
pub use crate::gaddag::Gaddag;
pub use fst::raw::{CompiledAddr, Node};
