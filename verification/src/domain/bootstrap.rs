//! Start-up of the balance book: the stored last nonce is read back, and the
//! book is rebuilt from the clients' records, each with its stored balance as
//! the base and nothing unflushed.
use crate::domain::cache::{Cache, ClientEntry};
use crate::domain::client::Client;
use crate::error::{AppError, BootstrapFailure};
use crate::money::Money;
use crate::text::{chars_of, parse_i32, parse_i32_chars, trim, trim_ws};
use std::collections::{HashMap, HashSet};
use vstd::hash_set::StringHashSet;
use vstd::prelude::*;

verus! {

broadcast use vstd::std_specs::hash::group_hash_axioms;

/// Reads the last nonce from the text of its file: surrounding whitespace is
/// ignored and the rest must be an `i32`.
pub fn parse_last_nonce(text: &str) -> (r: Result<i32, AppError>)
    ensures
        match parse_i32(trim_ws(text@)) {
            Some(n) => r == Ok::<i32, AppError>(n),
            None => r == Err::<i32, AppError>(AppError::Bootstrap(BootstrapFailure::InvalidLastNonce)),
        },
{
    let trimmed = trim(text);
    let chars = chars_of(trimmed);
    assert(chars@.subrange(0, chars@.len() as int) =~= chars@);
    match parse_i32_chars(&chars, 0) {
        Some(n) => Ok(n),
        None => Err(AppError::Bootstrap(BootstrapFailure::InvalidLastNonce)),
    }
}

/// The book rebuilt from the clients' records, in order: each client with its
/// stored balance as the base and a zero delta, a later record for the same
/// identifier replacing an earlier one.
pub open spec fn book_of(records: Seq<Client>) -> Map<u128, ClientEntry>
    decreases records.len(),
{
    if records.len() == 0 {
        Map::empty()
    } else {
        book_of(records.drop_last()).insert(
            records.last().client_id,
            (records.last().document_number, (records.last().balance, Money::zero_spec())),
        )
    }
}

/// Rebuilds the balance book from the clients' records and the last nonce,
/// with nothing in flight and no client dirty.
pub fn hydrate_book(records: &Vec<Client>, last_nonce: i32) -> (r: Cache)
    requires
        forall|i: int| 0 <= i < records@.len() ==> (#[trigger] records@[i]).balance.wf(),
    ensures
        r.wf(),
        r.clients@ == book_of(records@),
        r.nonce == last_nonce,
        r.in_flight@ == Set::<Seq<char>>::empty(),
        r.dirty_clients@ == Set::<u128>::empty(),
{
    let mut clients: HashMap<u128, ClientEntry> = HashMap::new();
    let mut i: usize = 0;
    assert(records@.take(0) =~= Seq::<Client>::empty());
    while i < records.len()
        invariant
            i <= records@.len(),
            forall|j: int| 0 <= j < records@.len() ==> (#[trigger] records@[j]).balance.wf(),
            clients@ == book_of(records@.take(i as int)),
            forall|id: u128| #[trigger]
                clients@.contains_key(id) ==> clients@[id].1.0.wf() && clients@[id].1.1.wf(),
        decreases records@.len() - i,
    {
        assert(records@.take(i + 1).drop_last() =~= records@.take(i as int));
        let record = &records[i];
        clients.insert(
            record.client_id,
            (record.document_number.clone(), (record.balance, Money::zero())),
        );
        i = i + 1;
    }
    assert(records@.take(i as int) =~= records@);
    let in_flight = StringHashSet::new();
    let dirty_clients: HashSet<u128> = HashSet::new();
    Cache { clients, nonce: last_nonce, in_flight, dirty_clients }
}

} // verus!
