//! The balance book. Each client keeps its document
//! number, its persisted base balance and the delta not yet flushed; its
//! current balance is their sum, and a debit that would take it below zero is
//! refused.
use crate::domain::client::Client;
use crate::error::AppError;
use crate::model::{Document, TransactionDirection};
use crate::money::{checked_add, checked_sub, decimal_difference, decimal_sum, greater_than, Money};
use std::collections::{HashMap, HashSet};
use vstd::hash_set::StringHashSet;
use vstd::prelude::*;

verus! {

broadcast use vstd::std_specs::hash::group_hash_axioms;

/// A client's entry: document number, and (persisted base balance, unflushed delta).
pub type ClientEntry = (Document, (Money, Money));

/// Shared state of the balance book.
pub struct Cache {
    /// Every client by identifier: its document, base balance and delta.
    pub clients: HashMap<u128, ClientEntry>,
    /// The latest nonce.
    pub nonce: i32,
    /// Documents of registrations waiting for storage.
    pub in_flight: StringHashSet,
    /// Clients with unflushed deltas.
    pub dirty_clients: HashSet<u128>,
}

/// Every amount the book holds is a valid decimal.
pub open spec fn entries_valid(clients: Map<u128, ClientEntry>) -> bool {
    forall|id: u128| #[trigger]
        clients.contains_key(id) ==> clients[id].1.0.wf() && clients[id].1.1.wf()
}

/// What a credit or debit of `delta` does to a client with base balance `base`
/// and delta `current`, as decimal arithmetic computes it: `Ok((balance, new
/// delta))`, an insufficient-funds refusal for a debit that would leave the
/// balance below zero, or `None` where an addition or subtraction overflows.
pub open spec fn balance_change(
    base: Money,
    current: Money,
    delta: Money,
    direction: TransactionDirection,
) -> Option<Result<(Money, Money), AppError>> {
    match decimal_sum(base, current) {
        None => None,
        Some(total) => match direction {
            TransactionDirection::Credit => match decimal_sum(total, delta) {
                None => None,
                Some(balance) => match decimal_sum(current, delta) {
                    None => None,
                    Some(d) => Some(Ok((balance, d))),
                },
            },
            TransactionDirection::Debit => match decimal_difference(total, delta) {
                None => None,
                Some(balance) => if balance.units() >= 0 {
                    match decimal_difference(current, delta) {
                        None => None,
                        Some(d) => Some(Ok((balance, d))),
                    }
                } else {
                    Some(Err(AppError::InsufficientFunds))
                },
            },
        },
    }
}

/// One step of moving a persisted delta into the base balance: the base gains
/// it, the delta loses it, and a client whose delta reaches zero is clean.
/// Unknown clients are skipped; `None` where the arithmetic overflows.
pub open spec fn persist_step(
    clients: Map<u128, ClientEntry>,
    dirty: Set<u128>,
    entry: (u128, Money),
) -> Option<(Map<u128, ClientEntry>, Set<u128>)> {
    let (id, delta) = entry;
    if !clients.contains_key(id) {
        Some((clients, dirty))
    } else {
        let (doc, (base, current)) = clients[id];
        match (decimal_sum(base, delta), decimal_difference(current, delta)) {
            (Some(b), Some(c)) => Some(
                (clients.insert(id, (doc, (b, c))), if c.mantissa == 0 {
                    dirty.remove(id)
                } else {
                    dirty
                }),
            ),
            _ => None,
        }
    }
}

/// Moving every entry of `deltas` into the base balances, in order.
pub open spec fn persist_all(
    clients: Map<u128, ClientEntry>,
    dirty: Set<u128>,
    deltas: Seq<(u128, Money)>,
) -> Option<(Map<u128, ClientEntry>, Set<u128>)>
    decreases deltas.len(),
{
    if deltas.len() == 0 {
        Some((clients, dirty))
    } else {
        match persist_all(clients, dirty, deltas.drop_last()) {
            Some((c, d)) => persist_step(c, d, deltas.last()),
            None => None,
        }
    }
}

pub proof fn lemma_persist_prefix(
    clients: Map<u128, ClientEntry>,
    dirty: Set<u128>,
    deltas: Seq<(u128, Money)>,
    k: int,
)
    requires
        0 <= k <= deltas.len(),
        persist_all(clients, dirty, deltas) is Some,
    ensures
        persist_all(clients, dirty, deltas.take(k)) is Some,
    decreases deltas.len(),
{
    if k < deltas.len() {
        lemma_persist_prefix(clients, dirty, deltas.drop_last(), k);
        assert(deltas.drop_last().take(k) =~= deltas.take(k));
    } else {
        assert(deltas.take(k) =~= deltas);
    }
}

/// The document numbers held by `clients`.
pub open spec fn has_document(clients: Map<u128, ClientEntry>, document: Seq<char>) -> bool {
    exists|id: u128| #[trigger] clients.contains_key(id) && clients[id].0@ == document
}

impl Cache {
    pub open spec fn wf(&self) -> bool {
        entries_valid(self.clients@)
    }

    /// Inserts a new client into the cache with its balance as the base and a
    /// zero delta.
    pub fn insert_client(&mut self, client: &Client)
        requires
            client.balance.wf(),
        ensures
            final(self).clients@ == old(self).clients@.insert(
                client.client_id,
                (client.document_number, (client.balance, Money::zero_spec())),
            ),
            final(self).nonce == old(self).nonce,
            final(self).in_flight@ == old(self).in_flight@,
            final(self).dirty_clients@ == old(self).dirty_clients@,
    {
        self.clients.insert(
            client.client_id,
            (client.document_number.clone(), (client.balance, Money::zero())),
        );
    }

    /// Applies a credit or debit of `delta` to a client's unflushed delta and
    /// returns the resulting balance, marking the client dirty. A debit that
    /// would leave the balance below zero is refused with nothing changed; so
    /// is an unknown client.
    pub fn apply_balance_change(
        &mut self,
        client_id: u128,
        delta: Money,
        direction: TransactionDirection,
    ) -> (r: Result<Money, AppError>)
        requires
            old(self).wf(),
            delta.wf(),
            old(self).clients@.contains_key(client_id) ==> balance_change(
                old(self).clients@[client_id].1.0,
                old(self).clients@[client_id].1.1,
                delta,
                direction,
            ) is Some,
        ensures
            final(self).wf(),
            final(self).nonce == old(self).nonce,
            final(self).in_flight@ == old(self).in_flight@,
            !old(self).clients@.contains_key(client_id) ==> r == Err::<Money, AppError>(
                AppError::ClientNotFound,
            ) && final(self).clients@ == old(self).clients@ && final(self).dirty_clients@ == old(self).dirty_clients@,
            old(self).clients@.contains_key(client_id) ==> {
                let (doc, (base, current)) = old(self).clients@[client_id];
                match balance_change(base, current, delta, direction).unwrap() {
                    Ok((balance, d)) => r == Ok::<Money, AppError>(balance) && final(self).clients@
                        == old(self).clients@.insert(client_id, (doc, (base, d))) && final(self).dirty_clients@ == old(self).dirty_clients@.insert(client_id),
                    Err(e) => r == Err::<Money, AppError>(e) && final(self).clients@ == old(self).clients@ && final(self).dirty_clients@ == old(self).dirty_clients@,
                }
            },
    {
        let (base, current) = match self.clients.get(&client_id) {
            Some(entry) => entry.1,
            None => {
                return Err(AppError::ClientNotFound);
            },
        };
        let total = match checked_add(base, current) {
            Some(t) => t,
            None => {
                proof {
                    assert(false);
                }
                return Err(AppError::ClientNotFound);
            },
        };
        let (new_balance, new_delta) = match direction {
            TransactionDirection::Credit => {
                match (checked_add(total, delta), checked_add(current, delta)) {
                    (Some(b), Some(d)) => (b, d),
                    _ => {
                        proof {
                            assert(false);
                        }
                        return Err(AppError::ClientNotFound);
                    },
                }
            },
            TransactionDirection::Debit => {
                let b = match checked_sub(total, delta) {
                    Some(b) => b,
                    None => {
                        proof {
                            assert(false);
                        }
                        return Err(AppError::ClientNotFound);
                    },
                };
                if greater_than(Money::zero(), b) {
                    return Err(AppError::InsufficientFunds);
                }
                match checked_sub(current, delta) {
                    Some(d) => (b, d),
                    None => {
                        proof {
                            assert(false);
                        }
                        return Err(AppError::ClientNotFound);
                    },
                }
            },
        };
        let document = match self.clients.remove(&client_id) {
            Some(entry) => entry.0,
            None => {
                proof {
                    assert(false);
                }
                return Err(AppError::ClientNotFound);
            },
        };
        self.clients.insert(client_id, (document, (base, new_delta)));
        assert(self.clients@ =~= old(self).clients@.insert(
            client_id,
            (old(self).clients@[client_id].0, (base, new_delta)),
        ));
        self.insert_dirty_client(client_id);
        Ok(new_balance)
    }

    /// `apply_balance_change` where the decimal arithmetic permits it; `None`,
    /// changing nothing, where the client exists and it would overflow.
    pub fn try_apply_balance_change(
        &mut self,
        client_id: u128,
        delta: Money,
        direction: TransactionDirection,
    ) -> (r: Option<Result<Money, AppError>>)
        requires
            old(self).wf(),
            delta.wf(),
        ensures
            final(self).wf(),
            old(self).clients@.contains_key(client_id) && balance_change(
                old(self).clients@[client_id].1.0,
                old(self).clients@[client_id].1.1,
                delta,
                direction,
            ) is None ==> r is None && final(self).clients@ == old(self).clients@ && final(self).dirty_clients@ == old(self).dirty_clients@,
            !old(self).clients@.contains_key(client_id) ==> r == Some(
                Err::<Money, AppError>(AppError::ClientNotFound),
            ) && final(self).clients@ == old(self).clients@,
            old(self).clients@.contains_key(client_id) && balance_change(
                old(self).clients@[client_id].1.0,
                old(self).clients@[client_id].1.1,
                delta,
                direction,
            ) is Some ==> {
                let (doc, (base, current)) = old(self).clients@[client_id];
                match balance_change(base, current, delta, direction).unwrap() {
                    Ok((balance, d)) => r == Some(Ok::<Money, AppError>(balance))
                        && final(self).clients@ == old(self).clients@.insert(
                        client_id,
                        (doc, (base, d)),
                    ) && final(self).dirty_clients@ == old(self).dirty_clients@.insert(client_id),
                    Err(e) => r == Some(Err::<Money, AppError>(e)) && final(self).clients@ == old(self).clients@ && final(self).dirty_clients@ == old(self).dirty_clients@,
                }
            },
    {
        if let Some(entry) = self.clients.get(&client_id) {
            let (base, current) = entry.1;
            let possible = match checked_add(base, current) {
                None => false,
                Some(total) => match direction {
                    TransactionDirection::Credit => checked_add(total, delta).is_some()
                        && checked_add(current, delta).is_some(),
                    TransactionDirection::Debit => match checked_sub(total, delta) {
                        None => false,
                        Some(b) => greater_than(Money::zero(), b) || checked_sub(
                            current,
                            delta,
                        ).is_some(),
                    },
                },
            };
            if !possible {
                return None;
            }
        }
        Some(self.apply_balance_change(client_id, delta, direction))
    }

    /// Whether moving `deltas` into the base balances would go through without
    /// an overflow.
    pub fn can_persist(&self, deltas: &Vec<(u128, Money)>) -> (r: bool)
        requires
            self.wf(),
            forall|i: int| 0 <= i < deltas@.len() ==> (#[trigger] deltas@[i]).1.wf(),
        ensures
            r == persist_all(self.clients@, self.dirty_clients@, deltas@) is Some,
    {
        let mut scratch = self.clients.clone();
        let ghost mut dirty = self.dirty_clients@;
        let n = deltas.len();
        assert(deltas@.take(0) =~= Seq::<(u128, Money)>::empty());
        for idx in 0..n
            invariant
                n == deltas@.len(),
                forall|i: int| 0 <= i < deltas@.len() ==> (#[trigger] deltas@[i]).1.wf(),
                entries_valid(scratch@),
                persist_all(self.clients@, self.dirty_clients@, deltas@.take(idx as int)) == Some(
                    (scratch@, dirty),
                ),
        {
            let (id, delta) = deltas[idx];
            assert(deltas@.take(idx + 1).drop_last() =~= deltas@.take(idx as int));
            let current_entry = match scratch.get(&id) {
                Some(entry) => Some(entry.1),
                None => None,
            };
            if let Some((base, current)) = current_entry {
                match (checked_add(base, delta), checked_sub(current, delta)) {
                    (Some(b), Some(c)) => {
                        let document = match scratch.remove(&id) {
                            Some(entry) => entry.0,
                            None => {
                                proof {
                                    assert(false);
                                }
                                return false;
                            },
                        };
                        let ghost before = scratch@;
                        scratch.insert(id, (document, (b, c)));
                        proof {
                            let old_scratch = before.insert(id, (document, (base, current)));
                            assert(scratch@ =~= old_scratch.insert(id, (document, (b, c))));
                            if c.mantissa == 0 {
                                dirty = dirty.remove(id);
                            }
                        }
                    },
                    _ => {
                        proof {
                            if persist_all(self.clients@, self.dirty_clients@, deltas@) is Some {
                                lemma_persist_prefix(
                                    self.clients@,
                                    self.dirty_clients@,
                                    deltas@,
                                    idx + 1,
                                );
                            }
                        }
                        return false;
                    },
                }
            }
        }
        assert(deltas@.take(n as int) =~= deltas@);
        true
    }

    /// Moves persisted deltas into the base balances: the base gains each
    /// amount and the delta loses it, so a transaction that landed after the
    /// deltas were collected stays in the delta; a client whose delta reaches
    /// zero is no longer dirty.
    pub fn apply_persisted_deltas(&mut self, clear_deltas: &Vec<(u128, Money)>)
        requires
            old(self).wf(),
            forall|i: int| 0 <= i < clear_deltas@.len() ==> (#[trigger] clear_deltas@[i]).1.wf(),
            persist_all(old(self).clients@, old(self).dirty_clients@, clear_deltas@) is Some,
        ensures
            final(self).wf(),
            final(self).nonce == old(self).nonce,
            final(self).in_flight@ == old(self).in_flight@,
            persist_all(old(self).clients@, old(self).dirty_clients@, clear_deltas@) == Some(
                (final(self).clients@, final(self).dirty_clients@),
            ),
    {
        let n = clear_deltas.len();
        assert(clear_deltas@.take(0) =~= Seq::<(u128, Money)>::empty());
        for idx in 0..n
            invariant
                n == clear_deltas@.len(),
                forall|i: int| 0 <= i < clear_deltas@.len() ==> (#[trigger] clear_deltas@[i]).1.wf(),
                persist_all(old(self).clients@, old(self).dirty_clients@, clear_deltas@) is Some,
                persist_all(
                    old(self).clients@,
                    old(self).dirty_clients@,
                    clear_deltas@.take(idx as int),
                ) == Some((self.clients@, self.dirty_clients@)),
                self.wf(),
                self.nonce == old(self).nonce,
                self.in_flight@ == old(self).in_flight@,
        {
            let (id, delta) = clear_deltas[idx];
            proof {
                lemma_persist_prefix(
                    old(self).clients@,
                    old(self).dirty_clients@,
                    clear_deltas@,
                    idx + 1,
                );
                assert(clear_deltas@.take(idx + 1).drop_last() =~= clear_deltas@.take(idx as int));
            }
            let current_entry = match self.clients.get(&id) {
                Some(entry) => Some(entry.1),
                None => None,
            };
            if let Some((base, current)) = current_entry {
                match (checked_add(base, delta), checked_sub(current, delta)) {
                    (Some(b), Some(c)) => {
                        let ghost before = self.clients@;
                        let document = match self.clients.remove(&id) {
                            Some(entry) => entry.0,
                            None => {
                                proof {
                                    assert(false);
                                }
                                (String::new())
                            },
                        };
                        self.clients.insert(id, (document, (b, c)));
                        assert(self.clients@ =~= before.insert(id, (before[id].0, (b, c))));
                        if c.mantissa == 0 {
                            self.dirty_clients.remove(&id);
                        }
                    },
                    _ => {
                        proof {
                            assert(false);
                        }
                    },
                }
            }
        }
        assert(clear_deltas@.take(n as int) =~= clear_deltas@);
    }

    /// `apply_persisted_deltas` where the decimal arithmetic permits it;
    /// `false`, changing nothing, where it would overflow.
    pub fn try_apply_persisted_deltas(&mut self, clear_deltas: &Vec<(u128, Money)>) -> (r: bool)
        requires
            old(self).wf(),
            forall|i: int| 0 <= i < clear_deltas@.len() ==> (#[trigger] clear_deltas@[i]).1.wf(),
        ensures
            final(self).wf(),
            final(self).nonce == old(self).nonce,
            final(self).in_flight@ == old(self).in_flight@,
            r == persist_all(old(self).clients@, old(self).dirty_clients@, clear_deltas@) is Some,
            r ==> persist_all(old(self).clients@, old(self).dirty_clients@, clear_deltas@) == Some(
                (final(self).clients@, final(self).dirty_clients@),
            ),
            !r ==> final(self).clients@ == old(self).clients@ && final(self).dirty_clients@ == old(self).dirty_clients@,
    {
        if self.can_persist(clear_deltas) {
            self.apply_persisted_deltas(clear_deltas);
            true
        } else {
            false
        }
    }

    /// Returns the client's document number together with its current balance:
    /// the persisted base balance plus the delta not yet flushed.
    pub fn get_client_snapshot(&self, client_id: u128) -> (r: Result<(Document, Money), AppError>)
        requires
            self.wf(),
            self.clients@.contains_key(client_id) ==> decimal_sum(
                self.clients@[client_id].1.0,
                self.clients@[client_id].1.1,
            ) is Some,
        ensures
            !self.clients@.contains_key(client_id) ==> r == Err::<(Document, Money), AppError>(
                AppError::ClientNotFound,
            ),
            self.clients@.contains_key(client_id) ==> r == Ok::<(Document, Money), AppError>(
                (
                    self.clients@[client_id].0,
                    decimal_sum(self.clients@[client_id].1.0, self.clients@[client_id].1.1).unwrap(),
                ),
            ),
    {
        match self.clients.get(&client_id) {
            None => Err(AppError::ClientNotFound),
            Some(entry) => {
                let (base, current) = entry.1;
                match checked_add(base, current) {
                    Some(balance) => Ok((entry.0.clone(), balance)),
                    None => {
                        proof {
                            assert(false);
                        }
                        Err(AppError::ClientNotFound)
                    },
                }
            },
        }
    }

    /// `get_client_snapshot` where the decimal arithmetic permits it; `None`
    /// where the client exists and its balance would overflow.
    pub fn try_get_client_snapshot(&self, client_id: u128) -> (r: Option<
        Result<(Document, Money), AppError>,
    >)
        requires
            self.wf(),
        ensures
            !self.clients@.contains_key(client_id) ==> r == Some(
                Err::<(Document, Money), AppError>(AppError::ClientNotFound),
            ),
            self.clients@.contains_key(client_id) ==> match decimal_sum(
                self.clients@[client_id].1.0,
                self.clients@[client_id].1.1,
            ) {
                None => r is None,
                Some(balance) => r == Some(
                    Ok::<(Document, Money), AppError>((self.clients@[client_id].0, balance)),
                ),
            },
    {
        if let Some(entry) = self.clients.get(&client_id) {
            let (base, current) = entry.1;
            if checked_add(base, current).is_none() {
                return None;
            }
        }
        Some(self.get_client_snapshot(client_id))
    }

    /// Whether some client already holds the document number.
    pub fn is_document_in_use(&self, document_number: &Document) -> (r: bool)
        ensures
            r == has_document(self.clients@, document_number@),
    {
        for pair in it: self.clients.iter()
            invariant
                forall|k: u128| #[trigger]
                    self.clients@.contains_key(k) && self.clients@[k].0@ == document_number@
                        ==> exists|j: int|
                        it.index() <= j < it.seq().len() && *(#[trigger] it.seq()[j]).0 == k,
        {
            let (id, entry) = pair;
            let ghost i = it.index();
            assert(self.clients@.contains_key(*id) && self.clients@[*id] == *entry) by {
                assert(it.seq()[i as int] == pair);
            }
            if entry.0 == *document_number {
                return true;
            }
            assert forall|k: u128| #[trigger]
                self.clients@.contains_key(k) && self.clients@[k].0@ == document_number@
                    implies exists|j: int|
                    i + 1 <= j < it.seq().len() && *(#[trigger] it.seq()[j]).0 == k by {
                let j = choose|j: int| i <= j < it.seq().len() && *(#[trigger] it.seq()[j]).0 == k;
                assert(j != i);
            }
        }
        false
    }

    /// Marks a document as being registered, refusing one already marked.
    pub fn set_document_in_flight(&mut self, document_number: &Document) -> (r: Result<
        (),
        AppError,
    >)
        ensures
            final(self).clients@ == old(self).clients@,
            final(self).nonce == old(self).nonce,
            final(self).dirty_clients@ == old(self).dirty_clients@,
            old(self).in_flight@.contains(document_number@) ==> r == Err::<(), AppError>(
                AppError::DocumentInFlight,
            ) && final(self).in_flight@ == old(self).in_flight@,
            !old(self).in_flight@.contains(document_number@) ==> r == Ok::<(), AppError>(())
                && final(self).in_flight@ == old(self).in_flight@.insert(document_number@),
    {
        if self.in_flight.contains(document_number.as_str()) {
            return Err(AppError::DocumentInFlight);
        }
        self.in_flight.insert(document_number.clone());
        Ok(())
    }

    /// Clears a document's registration mark.
    pub fn remove_document_in_flight(&mut self, document_number: &Document)
        ensures
            final(self).clients@ == old(self).clients@,
            final(self).nonce == old(self).nonce,
            final(self).dirty_clients@ == old(self).dirty_clients@,
            final(self).in_flight@ == old(self).in_flight@.remove(document_number@),
    {
        self.in_flight.remove(document_number.as_str());
    }

    /// Marks a client dirty.
    pub fn insert_dirty_client(&mut self, client_id: u128)
        ensures
            final(self).clients@ == old(self).clients@,
            final(self).nonce == old(self).nonce,
            final(self).in_flight@ == old(self).in_flight@,
            final(self).dirty_clients@ == old(self).dirty_clients@.insert(client_id),
    {
        self.dirty_clients.insert(client_id);
    }

    /// Marks a client clean.
    pub fn remove_dirty_client(&mut self, client_id: &u128)
        ensures
            final(self).clients@ == old(self).clients@,
            final(self).nonce == old(self).nonce,
            final(self).in_flight@ == old(self).in_flight@,
            final(self).dirty_clients@ == old(self).dirty_clients@.remove(*client_id),
    {
        self.dirty_clients.remove(client_id);
    }

    /// A copy of the dirty set.
    pub fn get_dirty_clients(&self) -> (r: HashSet<u128>)
        ensures
            r@ == self.dirty_clients@,
    {
        let mut copy: HashSet<u128> = HashSet::new();
        for id in it: self.dirty_clients.iter()
            invariant
                forall|k: u128| #[trigger] copy@.contains(k) ==> self.dirty_clients@.contains(k),
                forall|k: u128| #[trigger]
                    self.dirty_clients@.contains(k) ==> copy@.contains(k) || exists|j: int|
                        it.index() <= j < it.seq().len() && *(#[trigger] it.seq()[j]) == k,
        {
            let ghost i = it.index() as int;
            proof {
                assert(it.seq().unref()[i] == *it.seq()[i]);
                assert(it.seq().unref().to_set().contains(*it.seq()[i]));
            }
            copy.insert(*id);
            assert forall|k: u128| #[trigger]
                self.dirty_clients@.contains(k) implies copy@.contains(k) || exists|j: int|
                    i + 1 <= j < it.seq().len() && *(#[trigger] it.seq()[j]) == k by {
                if !copy@.contains(k) {
                    let j = choose|j: int| i <= j < it.seq().len() && *(#[trigger] it.seq()[j]) == k;
                    assert(j != i);
                }
            }
        }
        assert(copy@ =~= self.dirty_clients@);
        copy
    }

    /// The current delta of each listed client that exists, in no particular
    /// order, each client once.
    pub fn collect_batch_deltas(&self, dirty_clients: &HashSet<u128>) -> (r: Vec<(u128, Money)>)
        requires
            self.wf(),
        ensures
            r@.map_values(|e: (u128, Money)| e.0).no_duplicates(),
            r@.map_values(|e: (u128, Money)| e.0).to_set() == dirty_clients@.filter(
                |id: u128| self.clients@.contains_key(id),
            ),
            forall|i: int|
                0 <= i < r@.len() ==> (#[trigger] r@[i]).1 == self.clients@[r@[i].0].1.1
                    && r@[i].1.wf(),
    {
        let mut deltas: Vec<(u128, Money)> = Vec::new();
        let ghost mut pos: Seq<int> = Seq::empty();
        let ghost wanted = dirty_clients@.filter(|id: u128| self.clients@.contains_key(id));
        for id in it: dirty_clients.iter()
            invariant
                self.wf(),
                wanted == dirty_clients@.filter(|id: u128| self.clients@.contains_key(id)),
                forall|i: int|
                    0 <= i < deltas@.len() ==> wanted.contains((#[trigger] deltas@[i]).0)
                        && deltas@[i].1 == self.clients@[deltas@[i].0].1.1 && deltas@[i].1.wf(),
                forall|i: int, j: int|
                    0 <= i < j < deltas@.len() ==> (#[trigger] deltas@[i]).0 != (#[trigger] deltas@[j]).0,
                pos.len() == deltas@.len(),
                forall|i: int|
                    0 <= i < deltas@.len() ==> 0 <= #[trigger] pos[i] < it.index() && *it.seq()[pos[i]]
                        == deltas@[i].0,
                forall|k: u128| #[trigger]
                    wanted.contains(k) ==> (exists|i: int|
                        0 <= i < deltas@.len() && (#[trigger] deltas@[i]).0 == k) || exists|j: int|
                        it.index() <= j < it.seq().len() && *(#[trigger] it.seq()[j]) == k,
        {
            let ghost i = it.index() as int;
            let ghost before = deltas@;
            proof {
                assert(it.seq().unref()[i] == *it.seq()[i]);
                assert(it.seq().unref().to_set().contains(*it.seq()[i]));
            }
            let ghost old_pos = pos;
            match self.clients.get(id) {
                Some(entry) => {
                    deltas.push((*id, entry.1.1));
                    proof {
                        pos = pos.push(i);
                    }
                },
                None => {},
            }
            proof {
                assert forall|a: int, c: int|
                    0 <= a < c < deltas@.len() implies (#[trigger] deltas@[a]).0 != (#[trigger] deltas@[c]).0 by {
                    if c == before.len() {
                        let j = old_pos[a];
                        assert(pos[a] == j);
                        assert(it.seq().unref()[j] == *it.seq()[j]);
                        assert(it.seq().unref()[i] == *it.seq()[i]);
                    }
                }
                assert forall|k: u128| #[trigger]
                    wanted.contains(k) implies (exists|a: int|
                        0 <= a < deltas@.len() && (#[trigger] deltas@[a]).0 == k) || exists|j: int|
                        i + 1 <= j < it.seq().len() && *(#[trigger] it.seq()[j]) == k by {
                    if exists|a: int| 0 <= a < before.len() && (#[trigger] before[a]).0 == k {
                        let a = choose|a: int| 0 <= a < before.len() && (#[trigger] before[a]).0 == k;
                        assert(deltas@[a] == before[a]);
                    } else {
                        let j = choose|j: int| i <= j < it.seq().len() && *(#[trigger] it.seq()[j]) == k;
                        if j == i {
                            assert(deltas@[before.len() as int].0 == k);
                        }
                    }
                }
            }
        }
        let ghost ids = deltas@.map_values(|e: (u128, Money)| e.0);
        assert(ids.no_duplicates()) by {
            assert forall|a: int, c: int| 0 <= a < ids.len() && 0 <= c < ids.len() && a != c implies ids[a] != ids[c] by {
                if a < c {
                    assert(deltas@[a].0 != deltas@[c].0);
                } else {
                    assert(deltas@[c].0 != deltas@[a].0);
                }
            }
        }
        assert(ids.to_set() =~= wanted) by {
            assert forall|k: u128| wanted.contains(k) implies ids.to_set().contains(k) by {
                let a = choose|a: int| 0 <= a < deltas@.len() && (#[trigger] deltas@[a]).0 == k;
                assert(ids[a] == k);
            }
            assert forall|k: u128| ids.to_set().contains(k) implies wanted.contains(k) by {
                let a = choose|a: int| 0 <= a < ids.len() && ids[a] == k;
                assert(deltas@[a].0 == k);
            }
        }
        deltas
    }

    /// Advances the nonce by one, wrapping at the top of the range.
    pub fn increment_nonce(&mut self)
        ensures
            old(self).nonce < i32::MAX ==> final(self).nonce == old(self).nonce + 1,
            old(self).nonce == i32::MAX ==> final(self).nonce == i32::MIN,
            final(self).clients@ == old(self).clients@,
            final(self).in_flight@ == old(self).in_flight@,
            final(self).dirty_clients@ == old(self).dirty_clients@,
    {
        if self.nonce == i32::MAX {
            self.nonce = i32::MIN;
        } else {
            self.nonce = self.nonce + 1;
        }
    }
}

} // verus!
