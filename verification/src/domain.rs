//! The balance-book design: each client keeps a persisted base balance
//! and an unflushed delta, and a debit that would take the balance below zero
//! is refused.

pub mod bootstrap;
pub mod cache;
pub mod client;
pub mod dto;
