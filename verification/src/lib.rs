//! Splits a linkable WebAssembly module into a main module, one module per
//! declared split, and chunk modules for what several splits share.
//!
//! The crate works on a plain description of the input module: the caller
//! parses the binary and hands over names, byte ranges, symbols and
//! relocations (`read`). From these it builds the dependency graph
//! (`module_info`), finds the split points (`split_point`), lays out the
//! output modules (`partition`) and says what each of them is built from
//! (`emit`), with the bodies of its functions (`bodies`), and what the
//! loader script declares (`loader`). What holds of every partition is
//! proved in `laws`.
//!
//! The library calls the `regex` crate to match names (`pattern`); what
//! it takes for granted of that crate is stated there and not proved.

pub mod bodies;
pub mod chunks;
pub mod emit;
pub mod graph;
pub mod groups;
pub mod identifier;
pub mod imports;
pub mod laws;
pub mod layout;
pub mod listing;
pub mod loader;
pub mod module_info;
pub mod nodes;
pub mod order;
pub mod partition;
pub mod pattern;
pub mod ranges;
pub mod reach;
pub mod read;
pub mod roots;
pub mod seqs;
pub mod split_point;
pub mod text;
