use payment_processor::api::dto::{
    ClientDetails, GetBalanceRequest, NewCreditTransaction, NewDebitTransaction,
};
use payment_processor::api::handlers::{
    begin_new_client, begin_new_client_on, begin_store_balances, finish_new_client, finish_store_balances,
    get_balance, new_credit_transaction, new_debit_transaction,
};
use payment_processor::cache::{Cache, ClientState, ClientsMap};
use payment_processor::date::Date;
use payment_processor::error::{AppError, ValidationFailure};
use payment_processor::model::{Client, Country, TransactionDirection};
use payment_processor::money::Money;
use std::collections::HashMap;

fn money(mantissa: i128, scale: u32) -> Money {
    Money { mantissa, scale }
}

fn details(document: &str) -> ClientDetails {
    ClientDetails {
        client_name: "Ana".to_string(),
        birth_date: Date { year: 1990, month: 3, day: 4 },
        document_number: document.to_string(),
        country: Country::Peru,
    }
}

fn cache_with(ids: &[(u128, &str)]) -> Cache {
    let mut map: ClientsMap = HashMap::new();
    for (id, doc) in ids {
        map.insert(*id, ClientState { details: details(doc), balance: Money::zero() });
    }
    Cache::new(map, 0)
}

fn sorted(mut v: Vec<(u128, Money)>) -> Vec<(u128, Money)> {
    v.sort_by_key(|e| e.0);
    v
}

#[test]
fn new_cache_knows_registered_documents() {
    let cache = cache_with(&[(1, "11111111"), (2, "22222222")]);
    assert!(cache.is_document_in_use(&"11111111".to_string()));
    assert!(cache.is_document_in_use(&"22222222".to_string()));
    assert!(!cache.is_document_in_use(&"33333333".to_string()));
    assert_eq!(cache.get_nonce(), 0);
    assert!(cache.snapshot_dirty_balances().is_empty());
}

#[test]
fn reservations_reject_concurrent_sign_ups() {
    let mut cache = cache_with(&[]);
    let doc = "12345678".to_string();
    assert_eq!(cache.reserve_document(&doc), Ok(()));
    assert_eq!(cache.reserve_document(&doc), Err(AppError::DocumentInFlight));
    cache.release_document(&doc);
    assert_eq!(cache.reserve_document(&doc), Ok(()));
}

#[test]
fn inserted_client_starts_at_zero() {
    let mut cache = cache_with(&[]);
    let client = Client { client_id: 42, details: details("12345678") };
    cache.insert_client(&client);
    assert!(cache.is_document_in_use(&"12345678".to_string()));
    assert_eq!(cache.get_client(42), Ok((details("12345678"), money(0, 0))));
    assert_eq!(cache.get_client(43), Err(AppError::ClientNotFound));
}

#[test]
fn credits_and_debits_accumulate_and_may_go_negative() {
    let mut cache = cache_with(&[(1, "11111111")]);
    assert_eq!(
        cache.process_transaction(1, money(1050, 2), TransactionDirection::Credit),
        Ok(money(1050, 2))
    );
    assert_eq!(
        cache.process_transaction(1, money(25, 1), TransactionDirection::Debit),
        Ok(money(800, 2))
    );
    assert_eq!(
        cache.process_transaction(1, money(20, 0), TransactionDirection::Debit),
        Ok(money(-1200, 2))
    );
    assert_eq!(
        cache.process_transaction(9, money(1, 0), TransactionDirection::Credit),
        Err(AppError::ClientNotFound)
    );
    assert_eq!(cache.snapshot_dirty_balances(), vec![(1, money(-1200, 2))]);
}

#[test]
fn overflowing_transaction_changes_nothing() {
    let mut cache = cache_with(&[(1, "11111111")]);
    let huge = money(79_228_162_514_264_337_593_543_950_335, 0);
    assert_eq!(cache.try_process_transaction(1, huge, TransactionDirection::Credit), Some(Ok(huge)));
    assert_eq!(cache.try_process_transaction(1, money(1, 0), TransactionDirection::Credit), None);
    assert_eq!(cache.get_client(1), Ok((details("11111111"), huge)));
}

#[test]
fn snapshot_lists_every_dirty_client_once() {
    let mut cache = cache_with(&[(1, "11111111"), (2, "22222222"), (3, "33333333")]);
    cache.process_transaction(1, money(5, 0), TransactionDirection::Credit).unwrap();
    cache.process_transaction(3, money(7, 0), TransactionDirection::Debit).unwrap();
    cache.process_transaction(1, money(1, 0), TransactionDirection::Credit).unwrap();
    assert_eq!(
        sorted(cache.snapshot_dirty_balances()),
        vec![(1, money(6, 0)), (3, money(-7, 0))]
    );
}

#[test]
fn settling_subtracts_instead_of_zeroing() {
    let mut cache = cache_with(&[(1, "11111111"), (2, "22222222")]);
    cache.process_transaction(1, money(10, 0), TransactionDirection::Credit).unwrap();
    cache.process_transaction(2, money(3, 0), TransactionDirection::Credit).unwrap();
    let snapshot = sorted(cache.snapshot_dirty_balances());
    // A transaction lands while the snapshot is being written.
    cache.process_transaction(1, money(4, 0), TransactionDirection::Credit).unwrap();
    cache.settle_persisted_balances(&snapshot);
    assert_eq!(cache.get_client(1), Ok((details("11111111"), money(4, 0))));
    assert_eq!(cache.get_client(2), Ok((details("22222222"), money(0, 0))));
    assert_eq!(cache.snapshot_dirty_balances(), vec![(1, money(4, 0))]);
}

#[test]
fn settling_can_be_refused_on_overflow() {
    let mut cache = cache_with(&[(1, "11111111")]);
    let huge = money(79_228_162_514_264_337_593_543_950_335, 0);
    cache.process_transaction(1, huge, TransactionDirection::Debit).unwrap();
    assert!(!cache.can_settle(&vec![(1, money(1, 0))]));
    assert!(!cache.try_settle_persisted_balances(&vec![(1, money(1, 0))]));
    assert_eq!(cache.get_client(1), Ok((details("11111111"), money(-79_228_162_514_264_337_593_543_950_335, 0))));
    assert!(cache.try_settle_persisted_balances(&vec![(1, money(-1, 0)), (5, money(1, 0))]));
}

#[test]
fn nonce_advances_and_wraps() {
    let mut cache = Cache::new(HashMap::new(), 41);
    cache.increment_nonce();
    assert_eq!(cache.get_nonce(), 42);
    let mut top = Cache::new(HashMap::new(), i32::MAX);
    top.increment_nonce();
    assert_eq!(top.get_nonce(), i32::MIN);
}

#[test]
fn registration_flow() {
    let mut cache = cache_with(&[]);
    let client = begin_new_client(&mut cache, details("12345678")).unwrap();
    assert_eq!(client.details, details("12345678"));
    assert_eq!((client.client_id >> 76) & 0xf, 7);
    // While it is being persisted, a second sign-up with the same document is in flight.
    assert_eq!(
        begin_new_client(&mut cache, details("12345678")).map(|c| c.client_id),
        Err(AppError::DocumentInFlight)
    );
    finish_new_client(&mut cache, &client, true);
    assert_eq!(
        begin_new_client(&mut cache, details("12345678")).map(|c| c.client_id),
        Err(AppError::DocumentInUse)
    );
    let response = get_balance(&cache, &GetBalanceRequest { client_id: client.client_id }).unwrap();
    assert_eq!(response.balance, money(0, 0));
    assert_eq!(response.details, details("12345678"));
}

#[test]
fn failed_persist_leaves_no_trace() {
    let mut cache = cache_with(&[]);
    let client = begin_new_client(&mut cache, details("87654321")).unwrap();
    finish_new_client(&mut cache, &client, false);
    assert!(!cache.is_document_in_use(&"87654321".to_string()));
    assert_eq!(get_balance(&cache, &GetBalanceRequest { client_id: client.client_id }), Err(AppError::ClientNotFound));
    // The document may be retried.
    assert!(begin_new_client(&mut cache, details("87654321")).is_ok());
}

#[test]
fn registration_rejects_invalid_details() {
    let mut cache = cache_with(&[]);
    assert_eq!(
        begin_new_client(&mut cache, details("1234")).map(|c| c.client_id),
        Err(AppError::Validation(ValidationFailure::DocumentWrongLength))
    );
    // The document was not reserved.
    assert_eq!(cache.reserve_document(&"1234".to_string()), Ok(()));
}

#[test]
fn transaction_handlers() {
    let mut cache = cache_with(&[(1, "11111111")]);
    let credit = NewCreditTransaction { client_id: 1, credit_amount: money(100, 0) };
    assert_eq!(new_credit_transaction(&mut cache, &credit), Some(Ok(money(100, 0))));
    let debit = NewDebitTransaction { client_id: 1, debit_amount: money(150, 0) };
    assert_eq!(new_debit_transaction(&mut cache, &debit), Some(Ok(money(-50, 0))));
    let bad = NewDebitTransaction { client_id: 1, debit_amount: money(1, 5) };
    assert_eq!(
        new_debit_transaction(&mut cache, &bad),
        Some(Err(AppError::Validation(ValidationFailure::AmountTooPrecise)))
    );
    let unknown = NewCreditTransaction { client_id: 2, credit_amount: money(1, 0) };
    assert_eq!(new_credit_transaction(&mut cache, &unknown), Some(Err(AppError::ClientNotFound)));
}

#[test]
fn store_balances_flow() {
    let mut cache = cache_with(&[(1, "11111111"), (2, "22222222")]);
    assert_eq!(begin_store_balances(&cache), None);
    cache.process_transaction(2, money(5, 0), TransactionDirection::Credit).unwrap();
    let (nonce, snapshot) = begin_store_balances(&cache).unwrap();
    assert_eq!(nonce, 1);
    assert_eq!(snapshot, vec![(2, money(5, 0))]);
    assert!(finish_store_balances(&mut cache, &snapshot));
    assert_eq!(cache.get_nonce(), 1);
    assert_eq!(begin_store_balances(&cache), None);
    assert_eq!(cache.get_client(2), Ok((details("22222222"), money(0, 0))));
}

#[test]
fn registration_against_a_fixed_day() {
    let mut cache = cache_with(&[(1, "11111111")]);
    let today = Date { year: 2020, month: 3, day: 4 };
    let mut young = details("22222222");
    young.birth_date = Date { year: 2010, month: 1, day: 1 };
    assert_eq!(
        begin_new_client_on(&mut cache, young, today).map(|c| c.client_id),
        Err(AppError::Validation(ValidationFailure::ClientTooYoung))
    );
    assert_eq!(
        begin_new_client_on(&mut cache, details("11111111"), today).map(|c| c.client_id),
        Err(AppError::DocumentInUse)
    );
    let c = begin_new_client_on(&mut cache, details("33333333"), today).unwrap();
    assert_eq!(c.details, details("33333333"));
    assert_eq!(
        begin_new_client_on(&mut cache, details("33333333"), today).map(|c| c.client_id),
        Err(AppError::DocumentInFlight)
    );
}

#[test]
fn flushing_at_the_top_nonce_wraps() {
    let mut cache = Cache::new(HashMap::new(), i32::MAX);
    assert!(finish_store_balances(&mut cache, &vec![]));
    assert_eq!(cache.get_nonce(), i32::MIN);
}
