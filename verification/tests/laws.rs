use payment_processor::bootstrap::{collect_nonces, validate_nonce_sequence, DirEntryInfo};
use payment_processor::cache::{Cache, ClientState, ClientsMap};
use payment_processor::api::dto::ClientDetails;
use payment_processor::date::Date;
use payment_processor::model::{Country, TransactionDirection};
use payment_processor::money::Money;
use payment_processor::storage::balance_file_name;
use std::collections::HashMap;

fn money(mantissa: i128, scale: u32) -> Money {
    Money { mantissa, scale }
}

fn cache_with(ids: &[u128]) -> Cache {
    let mut map: ClientsMap = HashMap::new();
    for id in ids {
        map.insert(
            *id,
            ClientState {
                details: ClientDetails {
                    client_name: "Ana".to_string(),
                    birth_date: Date { year: 1990, month: 1, day: 1 },
                    document_number: format!("{:08}", id),
                    country: Country::Argentina,
                },
                balance: Money::zero(),
            },
        );
    }
    Cache::new(map, 0)
}

#[test]
fn late_transactions_survive_a_flush() {
    let mut cache = cache_with(&[1, 2]);
    cache.process_transaction(1, money(125, 2), TransactionDirection::Credit).unwrap();
    cache.process_transaction(2, money(3, 0), TransactionDirection::Debit).unwrap();
    let snapshot = cache.snapshot_dirty_balances();
    // Transactions landing while the snapshot is written.
    cache.process_transaction(1, money(5, 1), TransactionDirection::Credit).unwrap();
    cache.process_transaction(1, money(2, 1), TransactionDirection::Debit).unwrap();
    cache.process_transaction(2, money(1, 0), TransactionDirection::Credit).unwrap();
    cache.process_transaction(2, money(1, 0), TransactionDirection::Debit).unwrap();
    cache.settle_persisted_balances(&snapshot);
    // Client 1 holds exactly what landed late (+0.5 - 0.2); client 2's late ones cancel out.
    assert_eq!(cache.get_client(1).unwrap().1, money(30, 2));
    assert_eq!(cache.get_client(2).unwrap().1, money(0, 0));
    assert_eq!(cache.snapshot_dirty_balances(), vec![(1, money(30, 2))]);
}

#[test]
fn a_quiet_flush_clears_everything() {
    let mut cache = cache_with(&[1, 2, 3]);
    cache.process_transaction(1, money(7, 0), TransactionDirection::Credit).unwrap();
    cache.process_transaction(3, money(725, 3), TransactionDirection::Debit).unwrap();
    let snapshot = cache.snapshot_dirty_balances();
    cache.settle_persisted_balances(&snapshot);
    assert!(cache.snapshot_dirty_balances().is_empty());
    assert!(cache.get_client(1).unwrap().1.mantissa == 0);
    assert!(cache.get_client(3).unwrap().1.mantissa == 0);
}

#[test]
fn unbroken_sequences_are_exactly_the_accepted_ones() {
    assert_eq!(validate_nonce_sequence(vec![4, 2, 1, 3]), Ok(4));
    assert!(validate_nonce_sequence(vec![4, 2, 1]).is_err());
    assert!(validate_nonce_sequence(vec![1, 2, 2, 3]).is_err());
}

#[test]
fn flush_files_carry_their_nonces_to_start_up() {
    let entries: Vec<DirEntryInfo> = [3, 1, 2]
        .iter()
        .map(|n| DirEntryInfo { file_name: balance_file_name("15062024", *n), is_file: true })
        .collect();
    let nonces = collect_nonces(&entries).unwrap();
    assert_eq!(validate_nonce_sequence(nonces), Ok(3));
}

#[test]
fn after_a_flush_balances_show_only_new_transactions() {
    let mut cache = cache_with(&[1, 2, 3]);
    cache.process_transaction(1, money(7, 0), TransactionDirection::Credit).unwrap();
    let snapshot = cache.snapshot_dirty_balances();
    cache.process_transaction(2, money(3, 0), TransactionDirection::Credit).unwrap();
    cache.process_transaction(1, money(2, 0), TransactionDirection::Debit).unwrap();
    cache.settle_persisted_balances(&snapshot);
    assert_eq!(cache.get_client(1).unwrap().1, money(-2, 0));
    assert_eq!(cache.get_client(2).unwrap().1, money(3, 0));
    assert!(cache.get_client(3).unwrap().1.mantissa == 0);
    // Every client that is not dirty holds zero.
    let dirty: Vec<u128> = cache.snapshot_dirty_balances().iter().map(|e| e.0).collect();
    assert!(dirty.contains(&1) && dirty.contains(&2) && !dirty.contains(&3));
}
