//! A word-level Markov chain: it learns which word follows which run of
//! words in a body of text, and strings new sentences together by drawing
//! each next word in proportion to how often it was seen.
//!
//! `model` says what a chain has learned and what feeding does to it;
//! `chain` holds the chain itself, verified against that model; `tally`
//! holds the frequency tables and the weighted choice; `split` and `text`
//! turn text into words and words back into text; `report` writes a
//! chain's tables out for reading; `random` is the one place where chance
//! comes in.

pub mod chain;
pub mod model;
pub mod random;
pub mod report;
pub mod split;
pub mod tally;
pub mod text;
pub mod token;

pub use chain::Chain;
pub use split::tokenize;
pub use tally::Tally;
pub use text::{fix_ponctuation, join};
