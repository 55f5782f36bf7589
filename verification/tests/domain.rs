use payment_processor::date::Date;
use payment_processor::domain::bootstrap::{hydrate_book, parse_last_nonce};
use payment_processor::domain::cache::Cache;
use payment_processor::domain::client::Client;
use payment_processor::domain::dto::NewClientBody;
use payment_processor::error::{AppError, BootstrapFailure};
use payment_processor::model::{Country, TransactionDirection};
use payment_processor::money::{Money, MAX_MANTISSA};

fn money(mantissa: i128, scale: u32) -> Money {
    Money { mantissa, scale }
}

fn client(id: u128, document: &str, balance: Money) -> Client {
    Client {
        client_id: id,
        client_name: "Bruno".to_string(),
        country: Country::Chile,
        document_number: document.to_string(),
        birth_date: Date { year: 1985, month: 7, day: 20 },
        balance,
    }
}

fn book(records: &[Client]) -> Cache {
    hydrate_book(&records.to_vec(), 3)
}

fn snapshot(cache: &Cache, id: u128) -> Result<(String, Money), AppError> {
    cache.get_client_snapshot(id)
}

#[test]
fn last_nonce_is_read_as_a_trimmed_integer() {
    assert_eq!(parse_last_nonce(" 42\n"), Ok(42));
    assert_eq!(parse_last_nonce("0"), Ok(0));
    assert_eq!(parse_last_nonce("+5"), Ok(5));
    assert_eq!(parse_last_nonce("-7"), Ok(-7));
    assert_eq!(parse_last_nonce("2147483647"), Ok(i32::MAX));
    assert_eq!(parse_last_nonce("-2147483648"), Ok(i32::MIN));
}

#[test]
fn last_nonce_that_is_no_integer_is_refused() {
    let refused = Err(AppError::Bootstrap(BootstrapFailure::InvalidLastNonce));
    assert_eq!(parse_last_nonce(""), refused);
    assert_eq!(parse_last_nonce("   "), refused);
    assert_eq!(parse_last_nonce("abc"), refused);
    assert_eq!(parse_last_nonce("-"), refused);
    assert_eq!(parse_last_nonce("+"), refused);
    assert_eq!(parse_last_nonce("1 2"), refused);
    assert_eq!(parse_last_nonce("2147483648"), refused);
    assert_eq!(parse_last_nonce("-2147483649"), refused);
}

#[test]
fn hydrated_book_keeps_stored_balances() {
    let cache = book(&[
        client(1, "11111111", money(1000, 2)),
        client(2, "22222222", money(7, 0)),
        client(1, "33333333", money(2500, 2)),
    ]);
    assert_eq!(cache.nonce, 3);
    assert_eq!(cache.clients.len(), 2);
    assert_eq!(snapshot(&cache, 1), Ok(("33333333".to_string(), money(2500, 2))));
    assert_eq!(snapshot(&cache, 2), Ok(("22222222".to_string(), money(7, 0))));
    assert_eq!(snapshot(&cache, 9), Err(AppError::ClientNotFound));
    assert!(cache.get_dirty_clients().is_empty());
    assert!(!cache.is_document_in_use(&"11111111".to_string()));
    assert!(cache.is_document_in_use(&"33333333".to_string()));
}

#[test]
fn credit_raises_the_balance_and_marks_the_client_dirty() {
    let mut cache = book(&[client(1, "11111111", money(1000, 2))]);
    let r = cache.apply_balance_change(1, money(550, 2), TransactionDirection::Credit);
    assert_eq!(r, Ok(money(1550, 2)));
    assert_eq!(snapshot(&cache, 1), Ok(("11111111".to_string(), money(1550, 2))));
    assert!(cache.get_dirty_clients().contains(&1));
    assert_eq!(cache.clients.get(&1).unwrap().1, (money(1000, 2), money(550, 2)));
}

#[test]
fn debit_lowers_the_balance() {
    let mut cache = book(&[client(1, "11111111", money(1000, 2))]);
    let r = cache.apply_balance_change(1, money(4, 0), TransactionDirection::Debit);
    assert_eq!(r, Ok(money(600, 2)));
    assert_eq!(cache.clients.get(&1).unwrap().1, (money(1000, 2), money(-4, 0)));
}

#[test]
fn debit_to_exactly_zero_is_allowed() {
    let mut cache = book(&[client(1, "11111111", money(1000, 2))]);
    let r = cache.apply_balance_change(1, money(10, 0), TransactionDirection::Debit);
    assert_eq!(r, Ok(money(0, 2)));
}

#[test]
fn overdraft_is_refused_and_changes_nothing() {
    let mut cache = book(&[client(1, "11111111", money(1000, 2))]);
    let r = cache.apply_balance_change(1, money(2001, 2), TransactionDirection::Debit);
    assert_eq!(r, Err(AppError::InsufficientFunds));
    assert_eq!(cache.clients.get(&1).unwrap().1, (money(1000, 2), Money::zero()));
    assert!(cache.get_dirty_clients().is_empty());
}

#[test]
fn unknown_client_is_not_found() {
    let mut cache = book(&[client(1, "11111111", money(1000, 2))]);
    let r = cache.apply_balance_change(8, money(1, 0), TransactionDirection::Credit);
    assert_eq!(r, Err(AppError::ClientNotFound));
    assert_eq!(cache.try_get_client_snapshot(8), Some(Err(AppError::ClientNotFound)));
}

#[test]
fn overflowing_credit_is_declined_by_the_checked_form() {
    let mut cache = book(&[client(1, "11111111", money(MAX_MANTISSA, 0))]);
    let r = cache.try_apply_balance_change(1, money(1, 0), TransactionDirection::Credit);
    assert_eq!(r, None);
    assert_eq!(cache.clients.get(&1).unwrap().1, (money(MAX_MANTISSA, 0), Money::zero()));
    assert!(cache.get_dirty_clients().is_empty());
    let ok = cache.try_apply_balance_change(1, money(1, 0), TransactionDirection::Debit);
    assert_eq!(ok, Some(Ok(money(MAX_MANTISSA - 1, 0))));
}

#[test]
fn persisting_keeps_a_transaction_that_arrived_after_collection() {
    let mut cache = book(&[client(1, "11111111", money(10, 0)), client(2, "22222222", money(3, 0))]);
    cache.apply_balance_change(1, money(5, 0), TransactionDirection::Credit).unwrap();
    let dirty = cache.get_dirty_clients();
    let deltas = cache.collect_batch_deltas(&dirty);
    assert_eq!(deltas, vec![(1, money(5, 0))]);
    cache.apply_balance_change(1, money(2, 0), TransactionDirection::Credit).unwrap();
    assert!(cache.can_persist(&deltas));
    cache.apply_persisted_deltas(&deltas);
    assert_eq!(cache.clients.get(&1).unwrap().1, (money(15, 0), money(2, 0)));
    assert_eq!(snapshot(&cache, 1), Ok(("11111111".to_string(), money(17, 0))));
    assert!(cache.get_dirty_clients().contains(&1));
}

#[test]
fn quiet_persist_leaves_the_client_clean() {
    let mut cache = book(&[client(1, "11111111", money(10, 0))]);
    cache.apply_balance_change(1, money(5, 0), TransactionDirection::Credit).unwrap();
    let deltas = cache.collect_batch_deltas(&cache.get_dirty_clients());
    assert!(cache.try_apply_persisted_deltas(&deltas));
    assert_eq!(cache.clients.get(&1).unwrap().1, (money(15, 0), money(0, 0)));
    assert!(cache.get_dirty_clients().is_empty());
    assert_eq!(snapshot(&cache, 1), Ok(("11111111".to_string(), money(15, 0))));
}

#[test]
fn collecting_skips_unknown_clients() {
    let mut cache = book(&[client(1, "11111111", money(10, 0))]);
    cache.insert_dirty_client(4);
    let deltas = cache.collect_batch_deltas(&cache.get_dirty_clients());
    assert!(deltas.is_empty());
    cache.remove_dirty_client(&4);
    assert!(cache.get_dirty_clients().is_empty());
}

#[test]
fn overflowing_persist_is_declined() {
    let mut cache = book(&[client(1, "11111111", money(MAX_MANTISSA, 0))]);
    let deltas = vec![(1u128, money(1, 0))];
    assert!(!cache.can_persist(&deltas));
    assert!(!cache.try_apply_persisted_deltas(&deltas));
    assert_eq!(cache.clients.get(&1).unwrap().1, (money(MAX_MANTISSA, 0), Money::zero()));
}

#[test]
fn documents_in_flight_block_a_second_registration() {
    let mut cache = book(&[]);
    let doc = "44444444".to_string();
    assert_eq!(cache.set_document_in_flight(&doc), Ok(()));
    assert_eq!(cache.set_document_in_flight(&doc), Err(AppError::DocumentInFlight));
    cache.remove_document_in_flight(&doc);
    assert_eq!(cache.set_document_in_flight(&doc), Ok(()));
}

#[test]
fn inserted_client_starts_with_a_zero_delta() {
    let mut cache = book(&[]);
    let c = client(5, "55555555", money(12, 1));
    cache.insert_client(&c);
    assert!(cache.is_document_in_use(&"55555555".to_string()));
    assert_eq!(snapshot(&cache, 5), Ok(("55555555".to_string(), money(12, 1))));
}

#[test]
fn nonce_wraps_at_the_top() {
    let mut cache = hydrate_book(&vec![], i32::MAX - 1);
    cache.increment_nonce();
    assert_eq!(cache.nonce, i32::MAX);
    cache.increment_nonce();
    assert_eq!(cache.nonce, i32::MIN);
}

#[test]
fn new_client_has_a_version_seven_id_and_no_balance() {
    let body = NewClientBody {
        client_name: "Carla".to_string(),
        birth_date: Date { year: 2000, month: 2, day: 29 },
        document_number: "66666666".to_string(),
        country: Country::Uruguay,
    };
    let c = Client::new(body);
    assert_eq!(c.client_name, "Carla");
    assert_eq!(c.document_number, "66666666");
    assert_eq!(c.country, Country::Uruguay);
    assert_eq!(c.birth_date, Date { year: 2000, month: 2, day: 29 });
    assert_eq!(c.balance, Money::zero());
    assert_eq!((c.client_id >> 76) & 0xF, 7);
}
