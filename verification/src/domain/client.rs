//! Clients of the balance-book design, which carry their balance.
use crate::date::Date;
use crate::domain::dto::NewClientBody;
use crate::model::{new_v7_id, uuid_version, Country, Document};
use crate::money::Money;
use vstd::prelude::*;

verus! {

#[derive(Clone, Debug, PartialEq, Eq)]
pub struct Client {
    pub client_id: u128,
    pub client_name: String,
    pub country: Country,
    pub document_number: Document,
    pub birth_date: Date,
    pub balance: Money,
}

impl Client {
    /// A new client with a fresh time-ordered (version 7) identifier and a
    /// zero balance.
    pub fn new(body: NewClientBody) -> (r: Client)
        ensures
            r.client_name == body.client_name,
            r.country == body.country,
            r.document_number == body.document_number,
            r.birth_date == body.birth_date,
            r.balance == Money::zero_spec(),
            uuid_version(r.client_id) == 7,
    {
        Client {
            client_id: new_v7_id(),
            client_name: body.client_name,
            country: body.country,
            document_number: body.document_number,
            birth_date: body.birth_date,
            balance: Money::zero(),
        }
    }
}

} // verus!
