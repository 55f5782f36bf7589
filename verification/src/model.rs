//! The domain model: clients, countries, and the direction of a transaction.
use crate::api::dto::ClientDetails;
use vstd::prelude::*;

verus! {

pub type Document = String;

/// Whether a transaction adds to or takes from a balance.
#[derive(Clone, Copy, Debug, PartialEq, Eq)]
pub enum TransactionDirection {
    Credit,
    Debit,
}

/// Whitelisted countries.
#[derive(Clone, Copy, Debug, PartialEq, Eq)]
pub enum Country {
    Uruguay,
    Peru,
    Chile,
    Argentina,
}

/// A registered client: its identifier (a UUID as 128 bits) and its details.
#[derive(Clone, Debug)]
pub struct Client {
    pub client_id: u128,
    pub details: ClientDetails,
}

/// The version field (bits 76..80) of a UUID held as 128 bits.
pub open spec fn uuid_version(id: u128) -> u128 {
    (id >> 76u128) & 0xfu128
}

/// `uuid::Uuid::now_v7()`, as 128 bits. The identifier depends on the clock and
/// on random bits; the only claim is that it is a version-7 UUID.
#[verifier::external_body]
pub(crate) fn new_v7_id() -> (r: u128)
    ensures
        uuid_version(r) == 7,
{
    uuid::Uuid::now_v7().as_u128()
}

impl Client {
    /// A new client with a fresh time-ordered (version 7) identifier.
    pub fn new(details: ClientDetails) -> (r: Client)
        ensures
            r.details == details,
            uuid_version(r.client_id) == 7,
    {
        Client { client_id: new_v7_id(), details }
    }
}

} // verus!
