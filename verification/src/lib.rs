//! The bookkeeping of an Elo-MMR rating system: standings with rank ranges
//! for ties, the players' records and histories, the ranking by rating, and
//! the details of the contests. The numbers of the rating model come from the
//! caller; the library stores, ranks and files them.

pub mod contest;
pub mod contest_group;
pub mod engine;
pub mod index;
pub mod passes;
pub mod player;
pub mod scalar;
pub mod sorting;
pub mod standings;
pub mod table;

pub use crate::engine::EloMmr;
