//! Classification and comparison of five-card poker hands, with a
//! precomputed perfect-hash table for constant-time strength lookups.

pub mod card;
pub mod hand;
mod card_set;
pub mod table;
