use payment_processor::bootstrap::{extract_nonce_from_filename, has_extension};
use payment_processor::money::Money;
use payment_processor::date::Date;
use payment_processor::storage::{
    balance_file_name, balances_file_contents, day_stamp, temporary_file_name, today_stamp,
};

#[test]
fn flush_file_names() {
    assert_eq!(balance_file_name("15062024", 7), "15062024_7.dat");
    assert_eq!(balance_file_name("15062024", 0), "15062024_0.dat");
    assert_eq!(balance_file_name("15062024", -12), "15062024_-12.dat");
    assert_eq!(balance_file_name("15062024", i32::MIN), "15062024_-2147483648.dat");
    assert_eq!(balance_file_name("15062024", i32::MAX), "15062024_2147483647.dat");
    assert_eq!(temporary_file_name("15062024_7.dat"), "15062024_7.dat.tmp");
}

#[test]
fn flush_file_names_read_back() {
    let name = balance_file_name("15062024", 31);
    assert_eq!(extract_nonce_from_filename(&name), Some(31));
    assert!(has_extension(&name, "dat"));
    assert!(has_extension(&temporary_file_name(&name), "tmp"));
    assert_eq!(extract_nonce_from_filename(&balance_file_name("15062024", -3)), None);
}

#[test]
fn flush_file_contents() {
    let balances = vec![
        (0x0191_2f2c_8b7e_7a3c_9d4e_0123_4567_89abu128, Money { mantissa: 1050, scale: 2 }),
        (1u128, Money { mantissa: -5, scale: 3 }),
        (u128::MAX, Money { mantissa: 0, scale: 2 }),
        (2u128, Money { mantissa: 0, scale: 0 }),
        (3u128, Money { mantissa: 12, scale: 0 }),
    ];
    assert_eq!(
        balances_file_contents(&balances),
        "01912f2c-8b7e-7a3c-9d4e-0123456789ab 10.50\n\
         00000000-0000-0000-0000-000000000001 -0.005\n\
         ffffffff-ffff-ffff-ffff-ffffffffffff 0.00\n\
         00000000-0000-0000-0000-000000000002 0\n\
         00000000-0000-0000-0000-000000000003 12\n"
    );
    assert_eq!(balances_file_contents(&vec![]), "");
}

#[test]
fn day_stamps_follow_ddmmyyyy() {
    assert_eq!(day_stamp(Date { year: 2024, month: 6, day: 15 }), "15062024");
    assert_eq!(day_stamp(Date { year: 1970, month: 1, day: 1 }), "01011970");
    assert_eq!(day_stamp(Date { year: 5, month: 12, day: 31 }), "31120005");
    assert_eq!(day_stamp(Date { year: 12345, month: 2, day: 3 }), "0302+12345");
    assert_eq!(day_stamp(Date { year: -1, month: 2, day: 3 }), "0302-0001");
}

#[test]
fn today_stamp_matches_chrono() {
    let expected = chrono::Utc::now().format("%d%m%Y").to_string();
    let stamp = today_stamp();
    // Allow for the day changing between the two readings.
    let again = chrono::Utc::now().format("%d%m%Y").to_string();
    assert!(stamp == expected || stamp == again);
    assert!(extract_nonce_from_filename(&balance_file_name(&stamp, 3)) == Some(3));
}
