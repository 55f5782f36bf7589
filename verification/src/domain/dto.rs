//! Request and response bodies of the balance-book design.
use crate::date::Date;
use crate::model::{Country, Document};
use crate::money::Money;
use vstd::prelude::*;

verus! {

/// What a client signs up with.
#[derive(Clone, Debug, PartialEq, Eq)]
pub struct NewClientBody {
    pub client_name: String,
    pub birth_date: Date,
    pub document_number: Document,
    pub country: Country,
}

/// A request to credit a client's balance.
#[derive(Clone, Debug, PartialEq, Eq)]
pub struct NewCreditTransactionBody {
    pub client_id: u128,
    pub credit_amount: Money,
}

/// A request to debit a client's balance.
#[derive(Clone, Debug, PartialEq, Eq)]
pub struct NewDebitTransactionBody {
    pub client_id: u128,
    pub debit_amount: Money,
}

/// A request for a client's balance.
#[derive(Clone, Debug, PartialEq, Eq)]
pub struct GetBalanceQuery {
    pub client_id: u128,
}

/// A client's document number and balance.
#[derive(Clone, Debug, PartialEq, Eq)]
pub struct GetBalanceResponse {
    pub client_id: u128,
    pub document_number: Document,
    pub balance: Money,
}

} // verus!
