//! Verified core of a small payment/ledger service: request validation, the
//! in-memory client registry and balance book, the flush protocol that moves
//! balances to storage, and the start-up checks over what storage holds.

pub mod api;
pub mod bootstrap;
pub mod cache;
pub mod constants;
pub mod date;
pub mod domain;
pub mod error;
pub mod guarantees;
pub mod laws;
pub mod model;
pub mod money;
pub mod storage;
pub mod text;
