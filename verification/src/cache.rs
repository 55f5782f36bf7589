//! The in-memory application state: the client registry, the running
//! balances, the reservations of documents under registration, the set of
//! clients whose balances await a flush, and the latest flush nonce.
use crate::api::dto::ClientDetails;
use crate::error::AppError;
use crate::model::{Client, Document, TransactionDirection};
use crate::money::{checked_add, checked_sub, decimal_difference, decimal_sum, Money};
use std::collections::{HashMap, HashSet};
use vstd::hash_set::StringHashSet;
use vstd::prelude::*;

verus! {

broadcast use vstd::std_specs::hash::group_hash_axioms;

/// In-memory state of a single registered client.
#[derive(Clone, Debug)]
pub struct ClientState {
    pub details: ClientDetails,
    /// The client's running balance. Starts at zero on boot, accumulates credits
    /// and debits (may go negative), and is brought back towards zero whenever
    /// it is persisted by a flush.
    pub balance: Money,
}

pub type ClientsMap = HashMap<u128, ClientState>;

/// Shared application state.
pub struct Cache {
    /// The latest nonce successfully committed to storage.
    latest_nonce: i32,
    /// Registered clients' details.
    details: HashMap<u128, ClientDetails>,
    /// Registered clients' running balances.
    balances: HashMap<u128, Money>,
    /// Document numbers of all registered clients, for duplicate detection.
    registered_documents: StringHashSet,
    /// Document numbers currently undergoing registration.
    pending_registrations: StringHashSet,
    /// Client IDs with balance changes waiting to be flushed.
    dirty_client_ids: HashSet<u128>,
}

/// `op` applied to `balance` and `amount`, as the decimal arithmetic computes it.
pub open spec fn apply_direction(
    balance: Money,
    amount: Money,
    direction: TransactionDirection,
) -> Option<Money> {
    match direction {
        TransactionDirection::Credit => decimal_sum(balance, amount),
        TransactionDirection::Debit => decimal_difference(balance, amount),
    }
}

/// One step of settling a flushed snapshot: the persisted amount is subtracted
/// from the client's balance, and a client whose balance reaches zero is no
/// longer dirty. Unknown clients are skipped. `None` when the subtraction
/// overflows.
pub open spec fn settle_step(
    balances: Map<u128, Money>,
    dirty: Set<u128>,
    entry: (u128, Money),
) -> Option<(Map<u128, Money>, Set<u128>)> {
    let (id, persisted) = entry;
    if !balances.contains_key(id) {
        Some((balances, dirty))
    } else {
        match decimal_difference(balances[id], persisted) {
            Some(b) => Some(
                (balances.insert(id, b), if b.mantissa == 0 {
                    dirty.remove(id)
                } else {
                    dirty
                }),
            ),
            None => None,
        }
    }
}

/// Settling every entry of `persisted`, in order.
pub open spec fn settle_all(
    balances: Map<u128, Money>,
    dirty: Set<u128>,
    persisted: Seq<(u128, Money)>,
) -> Option<(Map<u128, Money>, Set<u128>)>
    decreases persisted.len(),
{
    if persisted.len() == 0 {
        Some((balances, dirty))
    } else {
        match settle_all(balances, dirty, persisted.drop_last()) {
            Some((b, d)) => settle_step(b, d, persisted.last()),
            None => None,
        }
    }
}

/// Settling a prefix succeeds whenever settling the whole sequence does.
pub proof fn lemma_settle_prefix(
    balances: Map<u128, Money>,
    dirty: Set<u128>,
    persisted: Seq<(u128, Money)>,
    k: int,
)
    requires
        0 <= k <= persisted.len(),
        settle_all(balances, dirty, persisted) is Some,
    ensures
        settle_all(balances, dirty, persisted.take(k)) is Some,
    decreases persisted.len(),
{
    if k < persisted.len() {
        lemma_settle_prefix(balances, dirty, persisted.drop_last(), k);
        assert(persisted.drop_last().take(k) =~= persisted.take(k));
    } else {
        assert(persisted.take(k) =~= persisted);
    }
}

/// Every change not yet flushed is tracked: a registered client that is not
/// dirty holds a zero balance.
pub open spec fn clean_is_zero(balances: Map<u128, Money>, dirty: Set<u128>) -> bool {
    forall|id: u128| #[trigger]
        balances.contains_key(id) && !dirty.contains(id) ==> balances[id].mantissa == 0
}

/// The clients a list of entries names, in order.
pub open spec fn ids_of(entries: Seq<(u128, Money)>) -> Seq<u128> {
    entries.map_values(|e: (u128, Money)| e.0)
}

/// Settling a list of distinct clients that are all dirty keeps every clean
/// client at zero; it registers no client, and a dirty client it does not name
/// stays dirty.
pub proof fn lemma_settle_keeps_clean_zero(
    balances: Map<u128, Money>,
    dirty: Set<u128>,
    persisted: Seq<(u128, Money)>,
)
    requires
        clean_is_zero(balances, dirty),
        ids_of(persisted).no_duplicates(),
        forall|i: int| 0 <= i < persisted.len() ==> dirty.contains(#[trigger] persisted[i].0),
        settle_all(balances, dirty, persisted) is Some,
    ensures
        ({
            let (b, d) = settle_all(balances, dirty, persisted).unwrap();
            &&& clean_is_zero(b, d)
            &&& b.dom() == balances.dom()
            &&& forall|id: u128|
                dirty.contains(id) && !ids_of(persisted).contains(id) ==> #[trigger] d.contains(id)
        }),
    decreases persisted.len(),
{
    if persisted.len() > 0 {
        let rest = persisted.drop_last();
        let n = persisted.len() - 1;
        lemma_settle_prefix(balances, dirty, persisted, n);
        assert(persisted.take(n) =~= rest);
        assert(ids_of(rest) =~= ids_of(persisted).drop_last());
        assert forall|i: int, j: int| 0 <= i < ids_of(rest).len() && 0 <= j < ids_of(rest).len() && i != j
            implies ids_of(rest)[i] != ids_of(rest)[j] by {
            assert(ids_of(rest)[i] == ids_of(persisted)[i]);
            assert(ids_of(rest)[j] == ids_of(persisted)[j]);
        }
        assert forall|i: int| 0 <= i < rest.len() implies dirty.contains(#[trigger] rest[i].0) by {
            assert(rest[i] == persisted[i]);
        }
        lemma_settle_keeps_clean_zero(balances, dirty, rest);
        let (b1, d1) = settle_all(balances, dirty, rest).unwrap();
        let x = persisted[n].0;
        assert(ids_of(persisted)[n] == x);
        assert(!ids_of(rest).contains(x)) by {
            if ids_of(rest).contains(x) {
                let k = choose|k: int| 0 <= k < ids_of(rest).len() && ids_of(rest)[k] == x;
                assert(ids_of(persisted)[k] == x);
            }
        }
        assert(dirty.contains(x));
        assert(d1.contains(x));
        let (b, d) = settle_all(balances, dirty, persisted).unwrap();
        assert forall|id: u128|
            dirty.contains(id) && !ids_of(persisted).contains(id) implies #[trigger] d.contains(id) by {
            assert(id != x);
            if ids_of(rest).contains(id) {
                let k = choose|k: int| 0 <= k < ids_of(rest).len() && ids_of(rest)[k] == id;
                assert(ids_of(persisted)[k] == id);
            }
        }
        assert(b.dom() =~= balances.dom());
    }
}

/// `r` lists every dirty client exactly once, each with its current balance.
pub open spec fn is_dirty_snapshot(
    balances: Map<u128, Money>,
    dirty: Set<u128>,
    r: Seq<(u128, Money)>,
) -> bool {
    &&& r.map_values(|e: (u128, Money)| e.0).no_duplicates()
    &&& r.map_values(|e: (u128, Money)| e.0).to_set() == dirty
    &&& forall|i: int| 0 <= i < r.len() ==> #[trigger] r[i].1 == balances[r[i].0]
}

/// The document numbers of the clients in `details`.
pub open spec fn documents_of(details: Map<u128, ClientDetails>) -> Set<Seq<char>> {
    Set::new(
        |d: Seq<char>|
            exists|id: u128| #[trigger]
                details.contains_key(id) && details[id].document_number@ == d,
    )
}

impl Cache {
    pub closed spec fn nonce(&self) -> i32 {
        self.latest_nonce
    }

    /// Registered clients' details, by client ID.
    pub closed spec fn details(&self) -> Map<u128, ClientDetails> {
        self.details@
    }

    /// Registered clients' running balances, by client ID.
    pub closed spec fn balances(&self) -> Map<u128, Money> {
        self.balances@
    }

    /// Document numbers known to belong to registered clients.
    pub closed spec fn registered(&self) -> Set<Seq<char>> {
        self.registered_documents@
    }

    /// Document numbers reserved by registrations in progress.
    pub closed spec fn pending(&self) -> Set<Seq<char>> {
        self.pending_registrations@
    }

    /// Clients whose balances await a flush.
    pub closed spec fn dirty(&self) -> Set<u128> {
        self.dirty_client_ids@
    }

    /// The state invariant: every registered client has details and a valid
    /// balance, its document is known as registered, and only registered
    /// clients are dirty.
    pub closed spec fn wf(&self) -> bool {
        &&& self.details@.dom() == self.balances@.dom()
        &&& forall|id: u128| #[trigger]
            self.balances@.contains_key(id) ==> self.balances@[id].wf()
        &&& forall|id: u128| #[trigger]
            self.details@.contains_key(id) ==> self.registered_documents@.contains(
                self.details@[id].document_number@,
            )
        &&& forall|id: u128| #[trigger]
            self.dirty_client_ids@.contains(id) ==> self.balances@.contains_key(id)
        &&& self.dirty_client_ids@.finite()
    }

    /// What the state invariant promises of the balance book: every registered
    /// client has details and a valid balance, its document is known as
    /// registered, and only registered clients are dirty.
    pub proof fn lemma_wf_parts(&self)
        requires
            self.wf(),
        ensures
            self.details().dom() == self.balances().dom(),
            forall|id: u128| #[trigger]
                self.balances().contains_key(id) ==> self.balances()[id].wf(),
            forall|id: u128| #[trigger]
                self.details().contains_key(id) ==> self.registered().contains(
                    self.details()[id].document_number@,
                ),
            forall|id: u128| #[trigger] self.dirty().contains(id) ==> self.balances().contains_key(id),
            self.dirty().finite(),
    {
    }

    /// The parts of the state a balance operation leaves alone.
    pub open spec fn same_registry(&self, other: &Cache) -> bool {
        &&& self.nonce() == other.nonce()
        &&& self.details() == other.details()
        &&& self.registered() == other.registered()
        &&& self.pending() == other.pending()
    }
}

impl Cache {
    /// Builds a cache from a hydrated clients map and the latest ledger nonce:
    /// no document reserved, no client dirty, and every client's document
    /// known as registered.
    pub fn new(clients: ClientsMap, nonce: i32) -> (r: Cache)
        requires
            forall|id: u128| #[trigger]
                clients@.contains_key(id) ==> clients@[id].balance.wf(),
        ensures
            r.wf(),
            r.nonce() == nonce,
            r.details() == clients@.map_values(|s: ClientState| s.details),
            r.balances() == clients@.map_values(|s: ClientState| s.balance),
            r.registered() == documents_of(r.details()),
            r.pending() == Set::<Seq<char>>::empty(),
            r.dirty() == Set::<u128>::empty(),
            (forall|id: u128| #[trigger] clients@.contains_key(id) ==> clients@[id].balance.mantissa == 0)
                ==> clean_is_zero(r.balances(), r.dirty()),
    {
        let mut details: HashMap<u128, ClientDetails> = HashMap::new();
        let mut balances: HashMap<u128, Money> = HashMap::new();
        let mut documents = StringHashSet::new();
        assert(documents@ =~= documents_of(details@));
        for pair in it: clients.iter()
            invariant
                forall|k: u128| #[trigger]
                    clients@.contains_key(k) ==> details@.contains_key(k) || exists|j: int|
                        it.index() <= j < it.seq().len() && *(#[trigger] it.seq()[j]).0 == k,
                forall|k: u128| #[trigger]
                    details@.contains_key(k) ==> clients@.contains_key(k) && details@[k]
                        == clients@[k].details && balances@[k] == clients@[k].balance,
                details@.dom() == balances@.dom(),
                documents@ == documents_of(details@),
                forall|id: u128| #[trigger]
                    clients@.contains_key(id) ==> clients@[id].balance.wf(),
        {
            let (id, state) = pair;
            let ghost before = details@;
            let ghost i = it.index();
            assert(clients@.contains_key(*id) && clients@[*id] == *state) by {
                assert(it.seq()[i as int] == pair);
            }
            documents.insert(state.details.document_number.clone());
            details.insert(*id, state.details.duplicate());
            balances.insert(*id, state.balance);
            assert(documents@ =~= documents_of(details@)) by {
                assert forall|d: Seq<char>| documents@.contains(d) implies documents_of(details@).contains(d) by {
                    if d == state.details.document_number@ {
                        assert(details@.contains_key(*id));
                    } else {
                        let w = choose|w: u128| #[trigger] before.contains_key(w) && before[w].document_number@ == d;
                        assert(details@.contains_key(w));
                    }
                }
                assert forall|d: Seq<char>| documents_of(details@).contains(d) implies documents@.contains(d) by {
                    let w = choose|w: u128| #[trigger] details@.contains_key(w) && details@[w].document_number@ == d;
                    if w != *id {
                        assert(before.contains_key(w));
                    }
                }
            }
            assert forall|k: u128| #[trigger]
                clients@.contains_key(k) implies details@.contains_key(k) || exists|j: int|
                    i + 1 <= j < it.seq().len() && *(#[trigger] it.seq()[j]).0 == k by {
                if !details@.contains_key(k) {
                    assert(!before.contains_key(k));
                    let j = choose|j: int| i <= j < it.seq().len() && *(#[trigger] it.seq()[j]).0 == k;
                    assert(j != i);
                }
            }
        }
        assert(details@ =~= clients@.map_values(|s: ClientState| s.details)) by {
        }
        assert(balances@ =~= clients@.map_values(|s: ClientState| s.balance));
        let r = Cache {
            latest_nonce: nonce,
            details,
            balances,
            registered_documents: documents,
            pending_registrations: StringHashSet::new(),
            dirty_client_ids: HashSet::new(),
        };
        assert forall|id: u128| #[trigger] r.details@.contains_key(id) implies r.registered_documents@.contains(
            r.details@[id].document_number@) by {
            assert(documents_of(r.details@).contains(r.details@[id].document_number@));
        }
        r
    }
}


// Client registration
impl Cache {
    /// Whether a document number already belongs to a registered client.
    pub fn is_document_in_use(&self, document_number: &Document) -> (r: bool)
        ensures
            r == self.registered().contains(document_number@),
    {
        self.registered_documents.contains(document_number.as_str())
    }

    /// Reserves a document number for an in-progress registration, rejecting a
    /// concurrent sign-up that races on the same document before it is persisted.
    pub fn reserve_document(&mut self, document_number: &Document) -> (r: Result<(), AppError>)
        requires
            old(self).wf(),
        ensures
            final(self).wf(),
            final(self).nonce() == old(self).nonce(),
            final(self).details() == old(self).details(),
            final(self).balances() == old(self).balances(),
            final(self).registered() == old(self).registered(),
            final(self).dirty() == old(self).dirty(),
            old(self).pending().contains(document_number@) ==> r == Err::<(), AppError>(
                AppError::DocumentInFlight,
            ) && final(self).pending() == old(self).pending(),
            !old(self).pending().contains(document_number@) ==> r == Ok::<(), AppError>(())
                && final(self).pending() == old(self).pending().insert(document_number@),
    {
        if self.pending_registrations.contains(document_number.as_str()) {
            return Err(AppError::DocumentInFlight);
        }
        self.pending_registrations.insert(document_number.clone());
        Ok(())
    }

    /// Releases a reserved document number once registration finishes, whether it
    /// succeeded or failed.
    pub fn release_document(&mut self, document_number: &Document)
        requires
            old(self).wf(),
        ensures
            final(self).wf(),
            final(self).nonce() == old(self).nonce(),
            final(self).details() == old(self).details(),
            final(self).balances() == old(self).balances(),
            final(self).registered() == old(self).registered(),
            final(self).dirty() == old(self).dirty(),
            final(self).pending() == old(self).pending().remove(document_number@),
    {
        self.pending_registrations.remove(document_number.as_str());
    }

    /// Inserts a newly registered client, seeding it with a zero balance and
    /// recording its document number in the duplicate-detection index.
    pub fn insert_client(&mut self, client: &Client)
        requires
            old(self).wf(),
        ensures
            final(self).wf(),
            final(self).nonce() == old(self).nonce(),
            final(self).details() == old(self).details().insert(client.client_id, client.details),
            final(self).balances() == old(self).balances().insert(client.client_id, Money::zero_spec()),
            final(self).registered() == old(self).registered().insert(
                client.details.document_number@,
            ),
            final(self).pending() == old(self).pending(),
            final(self).dirty() == old(self).dirty(),
            clean_is_zero(old(self).balances(), old(self).dirty()) ==> clean_is_zero(final(self).balances(), final(self).dirty()),
    {
        self.registered_documents.insert(client.details.document_number.clone());
        self.details.insert(client.client_id, client.details.duplicate());
        self.balances.insert(client.client_id, Money::zero());
        assert forall|id: u128| #[trigger] self.details@.contains_key(id) implies self.registered_documents@.contains(
            self.details@[id].document_number@) by {
            if id != client.client_id {
                assert(old(self).details@.contains_key(id));
            }
        }
    }
}

// Balance operations
impl Cache {
    /// Applies a credit or debit to a client's balance and returns the resulting
    /// balance, marking the client dirty. Debits are always accepted and may
    /// drive the balance negative. An unknown client is refused and nothing
    /// changes.
    pub fn process_transaction(
        &mut self,
        client_id: u128,
        amount: Money,
        direction: TransactionDirection,
    ) -> (r: Result<Money, AppError>)
        requires
            old(self).wf(),
            amount.wf(),
            old(self).balances().contains_key(client_id) ==> apply_direction(
                old(self).balances()[client_id],
                amount,
                direction,
            ) is Some,
        ensures
            final(self).wf(),
            final(self).same_registry(old(self)),
            !old(self).balances().contains_key(client_id) ==> r == Err::<Money, AppError>(
                AppError::ClientNotFound,
            ) && final(self).balances() == old(self).balances() && final(self).dirty()
                == old(self).dirty(),
            old(self).balances().contains_key(client_id) ==> {
                let b = apply_direction(old(self).balances()[client_id], amount, direction).unwrap();
                &&& r == Ok::<Money, AppError>(b)
                &&& final(self).balances() == old(self).balances().insert(client_id, b)
                &&& final(self).dirty() == old(self).dirty().insert(client_id)
            },
            clean_is_zero(old(self).balances(), old(self).dirty()) ==> clean_is_zero(final(self).balances(), final(self).dirty()),
    {
        let balance = match self.balances.get(&client_id) {
            Some(b) => *b,
            None => {
                return Err(AppError::ClientNotFound);
            },
        };
        let updated = match direction {
            TransactionDirection::Credit => checked_add(balance, amount),
            TransactionDirection::Debit => checked_sub(balance, amount),
        };
        let new_balance = match updated {
            Some(b) => b,
            None => {
                proof {
                    assert(false);
                }
                return Err(AppError::ClientNotFound);
            },
        };
        self.balances.insert(client_id, new_balance);
        assert(self.balances@.dom() =~= old(self).balances@.dom());
        self.mark_dirty(client_id);
        Ok(new_balance)
    }

    /// `process_transaction` where the decimal arithmetic permits it. Returns
    /// `None`, changing nothing, where the client exists and the new balance
    /// would overflow.
    pub fn try_process_transaction(
        &mut self,
        client_id: u128,
        amount: Money,
        direction: TransactionDirection,
    ) -> (r: Option<Result<Money, AppError>>)
        requires
            old(self).wf(),
            amount.wf(),
        ensures
            final(self).wf(),
            final(self).same_registry(old(self)),
            !old(self).balances().contains_key(client_id) ==> r == Some(
                Err::<Money, AppError>(AppError::ClientNotFound),
            ) && final(self).balances() == old(self).balances() && final(self).dirty()
                == old(self).dirty(),
            old(self).balances().contains_key(client_id) ==> match apply_direction(
                old(self).balances()[client_id],
                amount,
                direction,
            ) {
                None => r is None && final(self).balances() == old(self).balances()
                    && final(self).dirty() == old(self).dirty(),
                Some(b) => {
                    &&& r == Some(Ok::<Money, AppError>(b))
                    &&& final(self).balances() == old(self).balances().insert(client_id, b)
                    &&& final(self).dirty() == old(self).dirty().insert(client_id)
                },
            },
            clean_is_zero(old(self).balances(), old(self).dirty()) ==> clean_is_zero(final(self).balances(), final(self).dirty()),
    {
        if let Some(balance) = self.balances.get(&client_id) {
            let probe = match direction {
                TransactionDirection::Credit => checked_add(*balance, amount),
                TransactionDirection::Debit => checked_sub(*balance, amount),
            };
            if probe.is_none() {
                return None;
            }
        }
        Some(self.process_transaction(client_id, amount, direction))
    }

    /// Returns the client's details and current balance.
    pub fn get_client(&self, client_id: u128) -> (r: Result<(ClientDetails, Money), AppError>)
        requires
            self.wf(),
        ensures
            !self.balances().contains_key(client_id) ==> r == Err::<(ClientDetails, Money), AppError>(
                AppError::ClientNotFound,
            ),
            self.balances().contains_key(client_id) ==> r == Ok::<(ClientDetails, Money), AppError>(
                (self.details()[client_id], self.balances()[client_id]),
            ),
    {
        match (self.details.get(&client_id), self.balances.get(&client_id)) {
            (Some(d), Some(b)) => Ok((d.duplicate(), *b)),
            _ => Err(AppError::ClientNotFound),
        }
    }

    /// Flags a client as having in-memory changes awaiting persistence.
    fn mark_dirty(&mut self, client_id: u128)
        ensures
            final(self).dirty() == old(self).dirty().insert(client_id),
            final(self).details@ == old(self).details@,
            final(self).balances@ == old(self).balances@,
            final(self).registered_documents@ == old(self).registered_documents@,
            final(self).pending_registrations@ == old(self).pending_registrations@,
            final(self).latest_nonce == old(self).latest_nonce,
    {
        self.dirty_client_ids.insert(client_id);
    }
}


// Balance persistence
impl Cache {
    /// Snapshots the current balance of every dirty client: each dirty client
    /// appears exactly once, with the balance it has now, in no particular order.
    ///
    /// The flush protocol does not keep the cache locked between this snapshot
    /// and `settle_persisted_balances`, so transactions may land in between;
    /// settling subtracts what was persisted rather than zeroing, so such a
    /// transaction is kept for the next flush instead of being lost.
    pub fn snapshot_dirty_balances(&self) -> (r: Vec<(u128, Money)>)
        requires
            self.wf(),
        ensures
            is_dirty_snapshot(self.balances(), self.dirty(), r@),
            forall|i: int| 0 <= i < r@.len() ==> (#[trigger] r@[i]).1.wf(),
    {
        let mut balances: Vec<(u128, Money)> = Vec::new();
        for id in it: self.dirty_client_ids.iter()
            invariant
                self.wf(),
                balances@.len() == it.index(),
                forall|i: int|
                    0 <= i < balances@.len() ==> (#[trigger] balances@[i]).0 == *it.seq()[i],
                forall|i: int|
                    0 <= i < balances@.len() ==> (#[trigger] balances@[i]).1 == self.balances@[balances@[i].0]
                        && self.dirty_client_ids@.contains(balances@[i].0) && balances@[i].1.wf(),
                forall|i: int, j: int|
                    0 <= i < j < balances@.len() ==> (#[trigger] balances@[i]).0 != (#[trigger] balances@[j]).0,
                forall|k: u128| #[trigger]
                    self.dirty_client_ids@.contains(k) ==> (exists|i: int|
                        0 <= i < balances@.len() && (#[trigger] balances@[i]).0 == k) || exists|j: int|
                        it.index() <= j < it.seq().len() && *(#[trigger] it.seq()[j]) == k,
        {
            let ghost i = it.index() as int;
            let ghost before = balances@;
            proof {
                assert(it.seq().unref().to_set().contains(*it.seq()[i])) by {
                    assert(it.seq().unref()[i] == *it.seq()[i]);
                }
            }
            match self.balances.get(id) {
                Some(b) => {
                    balances.push((*id, *b));
                },
                None => {
                    proof {
                        assert(false);
                    }
                },
            }
            proof {
                assert forall|a: int, c: int|
                    0 <= a < c < balances@.len() implies (#[trigger] balances@[a]).0 != (#[trigger] balances@[c]).0 by {
                    if c == i {
                        assert(balances@[a].0 == *it.seq()[a]);
                        assert(it.seq().unref()[a] == *it.seq()[a]);
                        assert(it.seq().unref()[i] == *it.seq()[i]);
                    }
                }
                assert forall|k: u128| #[trigger]
                    self.dirty_client_ids@.contains(k) implies (exists|a: int|
                        0 <= a < balances@.len() && (#[trigger] balances@[a]).0 == k) || exists|j: int|
                        i + 1 <= j < it.seq().len() && *(#[trigger] it.seq()[j]) == k by {
                    if exists|a: int| 0 <= a < before.len() && (#[trigger] before[a]).0 == k {
                        let a = choose|a: int| 0 <= a < before.len() && (#[trigger] before[a]).0 == k;
                        assert(balances@[a] == before[a]);
                    } else {
                        let j = choose|j: int| i <= j < it.seq().len() && *(#[trigger] it.seq()[j]) == k;
                        if j == i {
                            assert(balances@[i].0 == k);
                        }
                    }
                }
            }
        }
        let ghost ids = balances@.map_values(|e: (u128, Money)| e.0);
        assert(ids.no_duplicates()) by {
            assert forall|a: int, c: int| 0 <= a < ids.len() && 0 <= c < ids.len() && a != c implies ids[a] != ids[c] by {
                if a < c {
                    assert(balances@[a].0 != balances@[c].0);
                } else {
                    assert(balances@[c].0 != balances@[a].0);
                }
            }
        }
        assert(ids.to_set() =~= self.dirty_client_ids@) by {
            assert forall|k: u128| self.dirty_client_ids@.contains(k) implies ids.to_set().contains(k) by {
                let a = choose|a: int| 0 <= a < balances@.len() && (#[trigger] balances@[a]).0 == k;
                assert(ids[a] == k);
            }
            assert forall|k: u128| ids.to_set().contains(k) implies self.dirty_client_ids@.contains(k) by {
                let a = choose|a: int| 0 <= a < ids.len() && ids[a] == k;
                assert(balances@[a].0 == k);
            }
        }
        balances
    }

    /// Whether settling `persisted` would go through without an overflow.
    pub fn can_settle(&self, persisted: &Vec<(u128, Money)>) -> (r: bool)
        requires
            self.wf(),
            forall|i: int| 0 <= i < persisted@.len() ==> (#[trigger] persisted@[i]).1.wf(),
        ensures
            r == settle_all(self.balances(), self.dirty(), persisted@) is Some,
    {
        let mut scratch = self.balances.clone();
        let ghost mut dirty = self.dirty_client_ids@;
        let n = persisted.len();
        assert(persisted@.take(0) =~= Seq::<(u128, Money)>::empty());
        for idx in 0..n
            invariant
                n == persisted@.len(),
                forall|i: int| 0 <= i < persisted@.len() ==> (#[trigger] persisted@[i]).1.wf(),
                forall|id: u128| #[trigger] scratch@.contains_key(id) ==> scratch@[id].wf(),
                settle_all(self.balances@, self.dirty_client_ids@, persisted@.take(idx as int)) == Some(
                    (scratch@, dirty),
                ),
        {
            let (id, amount) = persisted[idx];
            assert(persisted@.take(idx + 1).drop_last() =~= persisted@.take(idx as int));
            match scratch.get(&id) {
                Some(b) => {
                    match checked_sub(*b, amount) {
                        Some(nb) => {
                            scratch.insert(id, nb);
                            proof {
                                if nb.mantissa == 0 {
                                    dirty = dirty.remove(id);
                                }
                            }
                        },
                        None => {
                            proof {
                                if settle_all(self.balances@, self.dirty_client_ids@, persisted@) is Some {
                                    lemma_settle_prefix(
                                        self.balances@,
                                        self.dirty_client_ids@,
                                        persisted@,
                                        idx + 1,
                                    );
                                }
                            }
                            return false;
                        },
                    }
                },
                None => {},
            }
        }
        assert(persisted@.take(n as int) =~= persisted@);
        true
    }

    /// Subtracts each persisted amount from the client's balance (rather than
    /// setting it to zero), which preserves any transaction that landed after
    /// the snapshot was taken; a client whose balance reaches zero is no longer
    /// dirty, and one whose balance does not stays dirty for the next flush.
    pub fn settle_persisted_balances(&mut self, persisted: &Vec<(u128, Money)>)
        requires
            old(self).wf(),
            forall|i: int| 0 <= i < persisted@.len() ==> (#[trigger] persisted@[i]).1.wf(),
            settle_all(old(self).balances(), old(self).dirty(), persisted@) is Some,
        ensures
            final(self).wf(),
            final(self).same_registry(old(self)),
            settle_all(old(self).balances(), old(self).dirty(), persisted@) == Some(
                (final(self).balances(), final(self).dirty()),
            ),
            clean_is_zero(old(self).balances(), old(self).dirty()) && ids_of(persisted@).no_duplicates()
                && (forall|i: int|
                0 <= i < persisted@.len() ==> old(self).dirty().contains(#[trigger] persisted@[i].0))
                ==> clean_is_zero(final(self).balances(), final(self).dirty()),
    {
        proof {
            if clean_is_zero(old(self).balances@, old(self).dirty_client_ids@) && ids_of(persisted@).no_duplicates()
                && (forall|i: int|
                0 <= i < persisted@.len() ==> old(self).dirty_client_ids@.contains(#[trigger] persisted@[i].0)) {
                lemma_settle_keeps_clean_zero(old(self).balances@, old(self).dirty_client_ids@, persisted@);
            }
        }
        let n = persisted.len();
        assert(persisted@.take(0) =~= Seq::<(u128, Money)>::empty());
        for idx in 0..n
            invariant
                n == persisted@.len(),
                forall|i: int| 0 <= i < persisted@.len() ==> (#[trigger] persisted@[i]).1.wf(),
                settle_all(old(self).balances@, old(self).dirty_client_ids@, persisted@) is Some,
                settle_all(
                    old(self).balances@,
                    old(self).dirty_client_ids@,
                    persisted@.take(idx as int),
                ) == Some((self.balances@, self.dirty_client_ids@)),
                self.wf(),
                self.same_registry(old(self)),
        {
            let (id, amount) = persisted[idx];
            proof {
                lemma_settle_prefix(
                    old(self).balances@,
                    old(self).dirty_client_ids@,
                    persisted@,
                    idx + 1,
                );
                assert(persisted@.take(idx + 1).drop_last() =~= persisted@.take(idx as int));
            }
            let current = match self.balances.get(&id) {
                Some(b) => Some(*b),
                None => None,
            };
            if let Some(balance) = current {
                match checked_sub(balance, amount) {
                    Some(nb) => {
                        let ghost pre = self.balances@;
                        self.balances.insert(id, nb);
                        assert(self.balances@.dom() =~= pre.dom());
                        if nb.mantissa == 0 {
                            self.dirty_client_ids.remove(&id);
                        }
                    },
                    None => {
                        proof {
                            assert(false);
                        }
                    },
                }
            }
        }
        assert(persisted@.take(n as int) =~= persisted@);
    }

    /// `settle_persisted_balances` where the decimal arithmetic permits it.
    /// Returns `false`, changing nothing, where some subtraction would overflow.
    pub fn try_settle_persisted_balances(&mut self, persisted: &Vec<(u128, Money)>) -> (r: bool)
        requires
            old(self).wf(),
            forall|i: int| 0 <= i < persisted@.len() ==> (#[trigger] persisted@[i]).1.wf(),
        ensures
            final(self).wf(),
            final(self).same_registry(old(self)),
            r == settle_all(old(self).balances(), old(self).dirty(), persisted@) is Some,
            r ==> settle_all(old(self).balances(), old(self).dirty(), persisted@) == Some(
                (final(self).balances(), final(self).dirty()),
            ),
            !r ==> final(self).balances() == old(self).balances() && final(self).dirty()
                == old(self).dirty(),
            clean_is_zero(old(self).balances(), old(self).dirty()) && ids_of(persisted@).no_duplicates()
                && (forall|i: int|
                0 <= i < persisted@.len() ==> old(self).dirty().contains(#[trigger] persisted@[i].0))
                ==> clean_is_zero(final(self).balances(), final(self).dirty()),
    {
        if self.can_settle(persisted) {
            self.settle_persisted_balances(persisted);
            true
        } else {
            false
        }
    }
}

// Nonce
impl Cache {
    /// Advances the latest nonce by one, wrapping at the top of the range.
    pub fn increment_nonce(&mut self)
        requires
            old(self).wf(),
        ensures
            final(self).wf(),
            old(self).nonce() < i32::MAX ==> final(self).nonce() == old(self).nonce() + 1,
            old(self).nonce() == i32::MAX ==> final(self).nonce() == i32::MIN,
            final(self).details() == old(self).details(),
            final(self).balances() == old(self).balances(),
            final(self).registered() == old(self).registered(),
            final(self).pending() == old(self).pending(),
            final(self).dirty() == old(self).dirty(),
    {
        if self.latest_nonce == i32::MAX {
            self.latest_nonce = i32::MIN;
        } else {
            self.latest_nonce = self.latest_nonce + 1;
        }
    }

    /// The latest nonce committed to storage.
    pub fn get_nonce(&self) -> (r: i32)
        ensures
            r == self.nonce(),
    {
        self.latest_nonce
    }
}

} // verus!
