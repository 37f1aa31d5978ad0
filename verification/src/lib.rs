//! syntaks: the verified core of a Tak engine.
//!
//! `road` decides whether a set of road-bearing squares on the 6x6 board
//! connects two opposite edges; `search` holds the score classification used
//! by the search; `thread` holds the state that search threads share.

pub mod road;
pub mod search;
pub mod thread;
