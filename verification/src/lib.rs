//! Encoding and decoding of runestones: the messages of a fungible-token
//! protocol that travel in the data-carrier output of a transaction.

pub mod artifact;
pub mod cenotaph;
pub mod edict;
pub mod etching;
pub mod flag;
pub mod flaw;
pub mod laws;
pub mod message;
pub mod rune;
pub mod rune_id;
pub mod runestone;
pub mod tag;
pub mod terms;
pub mod transaction;
pub mod varint;
