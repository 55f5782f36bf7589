//! Request bodies with their validation rules, and the request-handling flows.

pub mod dto;
pub mod handlers;
