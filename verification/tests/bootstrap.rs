use payment_processor::api::dto::ClientDetails;
use payment_processor::bootstrap::{
    collect_nonces, extract_nonce_from_filename, has_extension, hydrate_clients, ledger_records,
    nonce_from_counter, validate_nonce_sequence, DirEntryInfo,
};
use payment_processor::date::Date;
use payment_processor::error::{AppError, BootstrapFailure};
use payment_processor::model::{Client, Country};
use payment_processor::money::Money;

fn file(name: &str) -> DirEntryInfo {
    DirEntryInfo { file_name: name.to_string(), is_file: true }
}

fn dir(name: &str) -> DirEntryInfo {
    DirEntryInfo { file_name: name.to_string(), is_file: false }
}

fn broken(index: u32) -> Result<u32, AppError> {
    Err(AppError::Bootstrap(BootstrapFailure::BrokenNonceSequence { index }))
}

#[test]
fn extension_matching() {
    assert!(has_extension("15062024_3.dat", "dat"));
    assert!(has_extension("15062024_3.DAT", "dat"));
    assert!(has_extension("x.dat.tmp", "tmp"));
    assert!(!has_extension("x.dat.tmp", "dat"));
    assert!(!has_extension(".dat", "dat"));
    assert!(has_extension("..dat", "dat"));
    assert!(!has_extension("dat", "dat"));
    assert!(!has_extension("clients", "dat"));
    assert!(has_extension("clients.dat", "dat"));
    assert!(!has_extension("", "dat"));
    assert!(!has_extension("..", ""));
    assert!(has_extension("name.", ""));
}

#[test]
fn nonce_extraction() {
    assert_eq!(extract_nonce_from_filename("15062024_3.dat"), Some(3));
    assert_eq!(extract_nonce_from_filename("01012000_4294967295.dat"), Some(4294967295));
    assert_eq!(extract_nonce_from_filename("01012000_4294967296.dat"), None);
    assert_eq!(extract_nonce_from_filename("01012000_+7.dat"), Some(7));
    assert_eq!(extract_nonce_from_filename("01012000_007.dat"), Some(7));
    assert_eq!(extract_nonce_from_filename("01012000_-1.dat"), None);
    assert_eq!(extract_nonce_from_filename("01012000_.dat"), None);
    assert_eq!(extract_nonce_from_filename("01012000_1_2.dat"), None);
    assert_eq!(extract_nonce_from_filename("32012000_1.dat"), None);
    assert_eq!(extract_nonce_from_filename("clients.dat"), None);
    assert_eq!(extract_nonce_from_filename("15062024_12"), Some(12));
}

#[test]
fn nonce_from_a_judged_stem() {
    assert_eq!(nonce_from_counter(true, "12"), Some(12));
    assert_eq!(nonce_from_counter(false, "12"), None);
    assert_eq!(nonce_from_counter(true, "+"), None);
}

#[test]
fn collecting_nonces() {
    let entries = vec![
        file("clients.dat"),
        file("15062024_2.dat"),
        dir("01012024_9.dat"),
        file("notes.txt"),
        file("14062024_1.dat"),
    ];
    assert_eq!(collect_nonces(&entries), Ok(vec![2, 1]));
}

#[test]
fn orphan_tmp_files_stop_start_up() {
    let entries = vec![file("14062024_1.dat"), file("15062024_2.dat.tmp")];
    assert_eq!(
        collect_nonces(&entries),
        Err(AppError::Bootstrap(BootstrapFailure::OrphanTmpFile))
    );
    // A directory named like a temporary file is not a file.
    assert_eq!(collect_nonces(&vec![dir("x.tmp")]), Ok(vec![]));
}

#[test]
fn nonce_sequences() {
    assert_eq!(validate_nonce_sequence(vec![]), Ok(0));
    assert_eq!(validate_nonce_sequence(vec![3, 1, 2]), Ok(3));
    assert_eq!(validate_nonce_sequence(vec![2, 3]), broken(1));
    assert_eq!(validate_nonce_sequence(vec![1, 3]), broken(2));
    assert_eq!(validate_nonce_sequence(vec![1, 1, 2]), broken(2));
    assert_eq!(validate_nonce_sequence(vec![0]), broken(1));
}

#[test]
fn ledger_lines() {
    let content = "{\"a\":1}\n\n   \r\n  {\"b\":2}  \r\n{\"c\":3}";
    assert_eq!(
        ledger_records(content),
        vec![
            (1, "{\"a\":1}".to_string()),
            (4, "{\"b\":2}".to_string()),
            (5, "{\"c\":3}".to_string())
        ]
    );
    assert_eq!(ledger_records(""), vec![]);
    assert_eq!(ledger_records("x\n"), vec![(1, "x".to_string())]);
}

#[test]
fn hydration_resets_balances() {
    let d = |doc: &str| ClientDetails {
        client_name: "Ana".to_string(),
        birth_date: Date { year: 1990, month: 1, day: 1 },
        document_number: doc.to_string(),
        country: Country::Chile,
    };
    let records = vec![
        Client { client_id: 1, details: d("11111111") },
        Client { client_id: 2, details: d("22222222") },
        Client { client_id: 1, details: d("33333333") },
    ];
    let map = hydrate_clients(&records);
    assert_eq!(map.len(), 2);
    assert_eq!(map[&1].details, d("33333333"));
    assert_eq!(map[&2].balance, Money::zero());
    assert_eq!(map[&1].balance, Money { mantissa: 0, scale: 0 });
}

#[test]
fn paths_are_judged_by_their_file_name() {
    assert!(has_extension("data/15062024_3.dat", "dat"));
    assert!(has_extension("data/x.tmp", "tmp"));
    assert!(has_extension("/srv/data//15062024_3.dat/", "dat"));
    assert!(has_extension("data/x.dat/.", "dat"));
    assert!(!has_extension("x.dat/..", "dat"));
    assert!(!has_extension("data.dat/", "tmp"));
    assert!(!has_extension("dir.tmp/", "dat"));
    assert!(!has_extension("/", "dat"));
    assert!(!has_extension("data/.dat", "dat"));
    assert_eq!(extract_nonce_from_filename("data/17112026_5.dat"), Some(5));
    assert_eq!(extract_nonce_from_filename("./17112026_5.dat"), Some(5));
    assert_eq!(extract_nonce_from_filename("data/17112026_5.dat/"), Some(5));
    assert_eq!(extract_nonce_from_filename("data_1/x.dat"), None);
    assert_eq!(extract_nonce_from_filename("17112026_5.dat/.."), None);
    assert_eq!(extract_nonce_from_filename("."), None);
}
