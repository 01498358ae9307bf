//! What the operations of the store are for: how their results follow from what they are given,
//! and how one call relates to another.

pub mod events;
pub mod info;
pub mod keysets;
pub mod melt_quotes;
pub mod mint_quotes;
pub mod numbers;
pub mod proofs;
pub mod quotes;
pub mod tags;
pub mod views;
pub mod writing;
