//! Hosts tables: parsing, merging and rendering of the hosts-file text format.

pub mod canonical;
pub mod grammar;
pub mod laws;
pub mod listing;
pub mod order;
pub mod parse;
pub mod render;
pub mod strings;
pub mod table;

pub use table::Hosts;
