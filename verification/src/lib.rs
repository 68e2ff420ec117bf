//! A compression-based pattern-mining core: fixed-length bit templates with
//! wildcard positions, a deterministic first-fit covering algorithm over a
//! database of bit records, and the integer building blocks of a
//! minimum-description-length score for the resulting code table.

pub mod database;
pub mod miner;

pub use database::Database;
pub use miner::Miner;
pub use miner::codetable::CodeTable;
pub use miner::codetable::pattern::Pattern;
