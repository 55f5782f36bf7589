//! The request-handling flows. Each HTTP endpoint performs its storage work
//! between the steps given here; the decisions about the in-memory state are
//! made and proved here.
use crate::api::dto::{
    amount_failure, details_failure, lemma_settled_details_verdict, settled_details_failure, ClientDetails, GetBalanceRequest, GetBalanceResponse,
    NewCreditTransaction, NewDebitTransaction,
};
use crate::cache::{apply_direction, clean_is_zero, ids_of, is_dirty_snapshot, settle_all, Cache};
use crate::date::{clock_date, today_utc, Date};
use crate::error::{AppError, ValidationFailure};
use crate::model::{uuid_version, Client, TransactionDirection};
use crate::money::Money;
use vstd::prelude::*;

verus! {

/// How a registration request is answered before anything is stored, given the
/// validation verdict on the details.
pub open spec fn registration_refusal(
    cache: Cache,
    details: ClientDetails,
    failure: Option<ValidationFailure>,
) -> Option<AppError> {
    match failure {
        Some(f) => Some(AppError::Validation(f)),
        None => if cache.registered().contains(details.document_number@) {
            Some(AppError::DocumentInUse)
        } else if cache.pending().contains(details.document_number@) {
            Some(AppError::DocumentInFlight)
        } else {
            None
        },
    }
}

/// What the first registration step does given the validation verdict
/// `failure` on the details: a refusal (see `registration_refusal`) changes no
/// reservation; otherwise the document is reserved and a client is minted with
/// the details and a fresh version-7 identifier.
pub open spec fn registration_step(
    before: Cache,
    after: Cache,
    details: ClientDetails,
    failure: Option<ValidationFailure>,
    r: Result<Client, AppError>,
) -> bool {
    match registration_refusal(before, details, failure) {
        Some(e) => r == Err::<Client, AppError>(e) && after.pending() == before.pending(),
        None => r matches Ok(c) && c.details == details && uuid_version(c.client_id) == 7
            && after.pending() == before.pending().insert(details.document_number@),
    }
}

/// First step of registering a client, judging the birth date against `today`:
/// validate the details, reject a document that is registered or already being
/// registered, reserve the document, and mint the client with a fresh
/// identifier. The caller persists the client and then calls
/// `finish_new_client`.
pub fn begin_new_client_on(cache: &mut Cache, details: ClientDetails, today: Date) -> (r: Result<
    Client,
    AppError,
>)
    requires
        old(cache).wf(),
    ensures
        final(cache).wf(),
        final(cache).nonce() == old(cache).nonce(),
        final(cache).details() == old(cache).details(),
        final(cache).balances() == old(cache).balances(),
        final(cache).registered() == old(cache).registered(),
        final(cache).dirty() == old(cache).dirty(),
        registration_step(*old(cache), *final(cache), details, details_failure(details, today), r),
{
    if let Err(e) = details.validate_on(today) {
        return Err(e);
    }
    if cache.is_document_in_use(&details.document_number) {
        return Err(AppError::DocumentInUse);
    }
    cache.reserve_document(&details.document_number)?;
    Ok(Client::new(details))
}

/// First step of registering a client, judging the birth date against today's
/// date in UTC (see `begin_new_client_on`). Where the verdict on the details
/// does not depend on the day, the answer is fixed by it.
pub fn begin_new_client(cache: &mut Cache, details: ClientDetails) -> (r: Result<Client, AppError>)
    requires
        old(cache).wf(),
    ensures
        final(cache).wf(),
        final(cache).nonce() == old(cache).nonce(),
        final(cache).details() == old(cache).details(),
        final(cache).balances() == old(cache).balances(),
        final(cache).registered() == old(cache).registered(),
        final(cache).dirty() == old(cache).dirty(),
        exists|today: Date|
            clock_date(today) && registration_step(
                *old(cache),
                *final(cache),
                details,
                details_failure(details, today),
                r,
            ),
        settled_details_failure(details) matches Some(f) ==> registration_step(
            *old(cache),
            *final(cache),
            details,
            f,
            r,
        ),
{
    let today = today_utc();
    proof {
        lemma_settled_details_verdict(details, today);
    }
    begin_new_client_on(cache, details, today)
}

/// Last step of registering a client: when the client was persisted it is
/// published to the cache with a zero balance; either way the document's
/// reservation is released.
pub fn finish_new_client(cache: &mut Cache, client: &Client, persisted: bool)
    requires
        old(cache).wf(),
    ensures
        final(cache).wf(),
        final(cache).nonce() == old(cache).nonce(),
        final(cache).dirty() == old(cache).dirty(),
        final(cache).pending() == old(cache).pending().remove(client.details.document_number@),
        persisted ==> final(cache).details() == old(cache).details().insert(
            client.client_id,
            client.details,
        ) && final(cache).balances() == old(cache).balances().insert(
            client.client_id,
            Money::zero_spec(),
        ) && final(cache).registered() == old(cache).registered().insert(
            client.details.document_number@,
        ),
        !persisted ==> final(cache).details() == old(cache).details() && final(cache).balances()
            == old(cache).balances() && final(cache).registered() == old(cache).registered(),
        clean_is_zero(old(cache).balances(), old(cache).dirty()) ==> clean_is_zero(final(cache).balances(), final(cache).dirty()),
{
    if persisted {
        cache.insert_client(client);
    }
    cache.release_document(&client.details.document_number);
}

/// Credits a client's balance and returns the updated balance. `None` where
/// the client exists and the new balance would overflow the decimal range.
pub fn new_credit_transaction(cache: &mut Cache, body: &NewCreditTransaction) -> (r: Option<
    Result<Money, AppError>,
>)
    requires
        old(cache).wf(),
        body.credit_amount.wf(),
    ensures
        final(cache).wf(),
        final(cache).same_registry(old(cache)),
        amount_failure(body.credit_amount) matches Some(f) ==> r == Some(
            Err::<Money, AppError>(AppError::Validation(f)),
        ) && final(cache).balances() == old(cache).balances() && final(cache).dirty() == old(
            cache,
        ).dirty(),
        amount_failure(body.credit_amount) is None ==> transaction_outcome(
            *old(cache),
            *final(cache),
            body.client_id,
            body.credit_amount,
            TransactionDirection::Credit,
            r,
        ),
        r matches Some(Ok(b)) ==> final(cache).balances().contains_key(body.client_id)
            && final(cache).balances()[body.client_id] == b,
        clean_is_zero(old(cache).balances(), old(cache).dirty()) ==> clean_is_zero(final(cache).balances(), final(cache).dirty()),
{
    if let Err(e) = body.validate() {
        return Some(Err(e));
    }
    cache.try_process_transaction(body.client_id, body.credit_amount, TransactionDirection::Credit)
}

/// Debits a client's balance (it may go negative) and returns the updated
/// balance. `None` where the client exists and the new balance would overflow
/// the decimal range.
pub fn new_debit_transaction(cache: &mut Cache, body: &NewDebitTransaction) -> (r: Option<
    Result<Money, AppError>,
>)
    requires
        old(cache).wf(),
        body.debit_amount.wf(),
    ensures
        final(cache).wf(),
        final(cache).same_registry(old(cache)),
        amount_failure(body.debit_amount) matches Some(f) ==> r == Some(
            Err::<Money, AppError>(AppError::Validation(f)),
        ) && final(cache).balances() == old(cache).balances() && final(cache).dirty() == old(
            cache,
        ).dirty(),
        amount_failure(body.debit_amount) is None ==> transaction_outcome(
            *old(cache),
            *final(cache),
            body.client_id,
            body.debit_amount,
            TransactionDirection::Debit,
            r,
        ),
        r matches Some(Ok(b)) ==> final(cache).balances().contains_key(body.client_id)
            && final(cache).balances()[body.client_id] == b,
        clean_is_zero(old(cache).balances(), old(cache).dirty()) ==> clean_is_zero(final(cache).balances(), final(cache).dirty()),
{
    if let Err(e) = body.validate() {
        return Some(Err(e));
    }
    cache.try_process_transaction(body.client_id, body.debit_amount, TransactionDirection::Debit)
}

/// What applying a transaction of `amount` in `direction` to `client_id` does:
/// an unknown client is refused with nothing changed; otherwise the balance
/// becomes the decimal sum or difference and the client becomes dirty, or,
/// where that overflows, the answer is `None` with nothing changed.
pub open spec fn transaction_outcome(
    before: Cache,
    after: Cache,
    client_id: u128,
    amount: Money,
    direction: TransactionDirection,
    r: Option<Result<Money, AppError>>,
) -> bool {
    if !before.balances().contains_key(client_id) {
        r == Some(Err::<Money, AppError>(AppError::ClientNotFound)) && after.balances()
            == before.balances() && after.dirty() == before.dirty()
    } else {
        match apply_direction(before.balances()[client_id], amount, direction) {
            None => r is None && after.balances() == before.balances() && after.dirty()
                == before.dirty(),
            Some(b) => {
                &&& r == Some(Ok::<Money, AppError>(b))
                &&& after.balances() == before.balances().insert(client_id, b)
                &&& after.dirty() == before.dirty().insert(client_id)
            },
        }
    }
}

/// Returns a client's details and current balance.
pub fn get_balance(cache: &Cache, query: &GetBalanceRequest) -> (r: Result<
    GetBalanceResponse,
    AppError,
>)
    requires
        cache.wf(),
    ensures
        !cache.balances().contains_key(query.client_id) ==> r == Err::<
            GetBalanceResponse,
            AppError,
        >(AppError::ClientNotFound),
        cache.balances().contains_key(query.client_id) ==> r == Ok::<GetBalanceResponse, AppError>(
            GetBalanceResponse {
                client_id: query.client_id,
                details: cache.details()[query.client_id],
                balance: cache.balances()[query.client_id],
            },
        ),
{
    let client_id = query.client_id;
    let (details, balance) = cache.get_client(client_id)?;
    Ok(GetBalanceResponse { client_id, details, balance })
}

/// First step of flushing balances: snapshot every dirty client's balance and
/// name the nonce the flush will be stored under (one past the latest). `None`
/// when nothing changed since the last flush, so no file is written and no
/// nonce is used up.
pub fn begin_store_balances(cache: &Cache) -> (r: Option<(i32, Vec<(u128, Money)>)>)
    requires
        cache.wf(),
        !cache.dirty().is_empty() ==> cache.nonce() < i32::MAX,
    ensures
        r is None <==> cache.dirty().is_empty(),
        r matches Some((nonce, balances)) ==> nonce == cache.nonce() + 1 && is_dirty_snapshot(
            cache.balances(),
            cache.dirty(),
            balances@,
        ) && balances@.len() > 0 && forall|i: int|
            0 <= i < balances@.len() ==> (#[trigger] balances@[i]).1.wf(),
{
    let balances = cache.snapshot_dirty_balances();
    if balances.len() == 0 {
        proof {
            let ids = balances@.map_values(|e: (u128, Money)| e.0);
            assert(ids =~= Seq::<u128>::empty());
            assert(cache.dirty() =~= Set::<u128>::empty());
        }
        return None;
    }
    proof {
        let ids = balances@.map_values(|e: (u128, Money)| e.0);
        assert(ids.to_set().contains(ids[0]));
    }
    let nonce = cache.get_nonce() + 1;
    Some((nonce, balances))
}

/// Last step of flushing balances, once the snapshot is stored: subtract the
/// stored amounts from the balances and advance the nonce. `false`, changing
/// nothing, where a subtraction would overflow the decimal range.
pub fn finish_store_balances(cache: &mut Cache, persisted: &Vec<(u128, Money)>) -> (r: bool)
    requires
        old(cache).wf(),
        forall|i: int| 0 <= i < persisted@.len() ==> (#[trigger] persisted@[i]).1.wf(),
    ensures
        final(cache).wf(),
        final(cache).details() == old(cache).details(),
        final(cache).registered() == old(cache).registered(),
        final(cache).pending() == old(cache).pending(),
        r == settle_all(old(cache).balances(), old(cache).dirty(), persisted@) is Some,
        r ==> settle_all(old(cache).balances(), old(cache).dirty(), persisted@) == Some(
            (final(cache).balances(), final(cache).dirty()),
        ) && (old(cache).nonce() < i32::MAX ==> final(cache).nonce() == old(cache).nonce() + 1) && (
        old(cache).nonce() == i32::MAX ==> final(cache).nonce() == i32::MIN),
        !r ==> final(cache).balances() == old(cache).balances() && final(cache).dirty() == old(
            cache,
        ).dirty() && final(cache).nonce() == old(cache).nonce(),
        clean_is_zero(old(cache).balances(), old(cache).dirty()) && ids_of(persisted@).no_duplicates()
            && (forall|i: int|
            0 <= i < persisted@.len() ==> old(cache).dirty().contains(#[trigger] persisted@[i].0))
            ==> clean_is_zero(final(cache).balances(), final(cache).dirty()),
{
    if !cache.try_settle_persisted_balances(persisted) {
        return false;
    }
    cache.increment_nonce();
    true
}

} // verus!
