//! A Cashu wallet database that is kept in Nostr events.

pub mod collections;
pub mod database;
pub mod error;
pub mod event;
pub mod keysets;
pub mod laws;
pub mod melt_quote;
pub mod mint_quote;
pub mod nuts;
pub mod proofs;
pub mod quotes;
pub mod sealing;
pub mod tag;
pub mod text;
pub mod wallet_info;
