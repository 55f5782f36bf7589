use payment_processor::api::dto::{
    validate_amount, validate_birth_date, validate_birth_date_on, validate_client_name,
    validate_document_number, ClientDetails, NewCreditTransaction, NewDebitTransaction,
};
use payment_processor::date::Date;
use payment_processor::error::{AppError, ValidationFailure};
use payment_processor::model::Country;
use payment_processor::money::Money;

fn fail(v: ValidationFailure) -> Result<(), AppError> {
    Err(AppError::Validation(v))
}

fn money(mantissa: i128, scale: u32) -> Money {
    Money { mantissa, scale }
}

fn date(year: i32, month: u32, day: u32) -> Date {
    Date { year, month, day }
}

fn details(name: &str, document: &str, birth: Date) -> ClientDetails {
    ClientDetails {
        client_name: name.to_string(),
        birth_date: birth,
        document_number: document.to_string(),
        country: Country::Uruguay,
    }
}

#[test]
fn client_name_accepts_an_ordinary_name() {
    assert_eq!(validate_client_name("Ana María"), Ok(()));
}

#[test]
fn client_name_rejects_blank_names() {
    assert_eq!(validate_client_name(""), fail(ValidationFailure::BlankName));
    assert_eq!(validate_client_name(" \t\n\u{3000} "), fail(ValidationFailure::BlankName));
}

#[test]
fn client_name_length_counts_trimmed_characters() {
    let exactly = "é".repeat(128);
    assert_eq!(validate_client_name(&exactly), Ok(()));
    let padded = format!("   {}   ", "a".repeat(128));
    assert_eq!(validate_client_name(&padded), Ok(()));
    let too_long = "a".repeat(129);
    assert_eq!(validate_client_name(&too_long), fail(ValidationFailure::NameTooLong));
}

#[test]
fn client_name_rejects_control_characters_anywhere() {
    assert_eq!(
        validate_client_name("Ana\u{7}Maria"),
        fail(ValidationFailure::NameHasControlCharacters)
    );
    assert_eq!(
        validate_client_name("Ana\u{9f}"),
        fail(ValidationFailure::NameHasControlCharacters)
    );
    // A trailing newline is trimmed for the length checks but is still a control character.
    assert_eq!(validate_client_name("Ana\n"), fail(ValidationFailure::NameHasControlCharacters));
}

#[test]
fn document_number_rules() {
    assert_eq!(validate_document_number(&"12345678".to_string()), Ok(()));
    assert_eq!(
        validate_document_number(&"1234567".to_string()),
        fail(ValidationFailure::DocumentWrongLength)
    );
    assert_eq!(
        validate_document_number(&"123456789".to_string()),
        fail(ValidationFailure::DocumentWrongLength)
    );
    assert_eq!(
        validate_document_number(&"1234567a".to_string()),
        fail(ValidationFailure::DocumentNotDigits)
    );
    // Eight bytes, but only seven characters, one of them not a digit.
    assert_eq!(
        validate_document_number(&"123456é".to_string()),
        fail(ValidationFailure::DocumentNotDigits)
    );
    // Eight characters but nine bytes.
    assert_eq!(
        validate_document_number(&"1234567é".to_string()),
        fail(ValidationFailure::DocumentWrongLength)
    );
}

#[test]
fn birth_date_rules_against_a_fixed_day() {
    let today = date(2024, 6, 15);
    assert_eq!(validate_birth_date_on(date(2000, 1, 1), today), Ok(()));
    assert_eq!(
        validate_birth_date_on(date(2024, 6, 16), today),
        fail(ValidationFailure::BirthDateInFuture)
    );
    assert_eq!(
        validate_birth_date_on(date(1899, 12, 31), today),
        fail(ValidationFailure::BirthDateTooEarly)
    );
    assert_eq!(validate_birth_date_on(date(1900, 1, 1), today), Ok(()));
    // Eighteenth birthday today: old enough. Tomorrow: not yet.
    assert_eq!(validate_birth_date_on(date(2006, 6, 15), today), Ok(()));
    assert_eq!(
        validate_birth_date_on(date(2006, 6, 16), today),
        fail(ValidationFailure::ClientTooYoung)
    );
    assert_eq!(
        validate_birth_date_on(date(2006, 7, 1), today),
        fail(ValidationFailure::ClientTooYoung)
    );
    assert_eq!(validate_birth_date_on(today, today), fail(ValidationFailure::ClientTooYoung));
}

#[test]
fn birth_date_against_the_clock() {
    assert_eq!(validate_birth_date(date(1980, 5, 20)), Ok(()));
    assert_eq!(
        validate_birth_date(date(9999, 1, 1)),
        fail(ValidationFailure::BirthDateInFuture)
    );
    assert_eq!(
        validate_birth_date(date(1850, 1, 1)),
        fail(ValidationFailure::BirthDateTooEarly)
    );
}

#[test]
fn details_are_checked_name_then_document_then_birth_date() {
    let today = date(2024, 6, 15);
    assert_eq!(details("Ana", "12345678", date(1990, 1, 1)).validate_on(today), Ok(()));
    assert_eq!(
        details(" ", "x", date(2030, 1, 1)).validate_on(today),
        fail(ValidationFailure::BlankName)
    );
    assert_eq!(
        details("Ana", "x", date(2030, 1, 1)).validate_on(today),
        fail(ValidationFailure::DocumentWrongLength)
    );
    assert_eq!(
        details("Ana", "12345678", date(2030, 1, 1)).validate_on(today),
        fail(ValidationFailure::BirthDateInFuture)
    );
    assert_eq!(details("Ana", "12345678", date(1990, 1, 1)).validate(), Ok(()));
}

#[test]
fn amount_rules() {
    assert_eq!(validate_amount(money(1, 0)), Ok(()));
    assert_eq!(validate_amount(money(1, 3)), Ok(()));
    assert_eq!(validate_amount(money(1_000_000, 0)), Ok(()));
    assert_eq!(validate_amount(money(1_000_000_000, 3)), Ok(()));
    assert_eq!(validate_amount(money(0, 0)), fail(ValidationFailure::AmountNotPositive));
    assert_eq!(validate_amount(money(-5, 1)), fail(ValidationFailure::AmountNotPositive));
    assert_eq!(validate_amount(money(1, 4)), fail(ValidationFailure::AmountTooPrecise));
    assert_eq!(validate_amount(money(10000, 4)), fail(ValidationFailure::AmountTooPrecise));
    assert_eq!(validate_amount(money(1_000_001, 0)), fail(ValidationFailure::AmountTooLarge));
    assert_eq!(validate_amount(money(1_000_000_001, 3)), fail(ValidationFailure::AmountTooLarge));
}

#[test]
fn transaction_bodies_validate_their_amounts() {
    let credit = NewCreditTransaction { client_id: 7, credit_amount: money(2550, 2) };
    assert_eq!(credit.validate(), Ok(()));
    let debit = NewDebitTransaction { client_id: 7, debit_amount: money(0, 0) };
    assert_eq!(debit.validate(), fail(ValidationFailure::AmountNotPositive));
}

#[test]
fn status_codes() {
    assert_eq!(AppError::ClientNotFound.status_code(), 404);
    assert_eq!(AppError::InsufficientFunds.status_code(), 422);
    assert_eq!(AppError::DocumentInUse.status_code(), 409);
    assert_eq!(AppError::DocumentInFlight.status_code(), 409);
    assert_eq!(AppError::Io("disk".to_string()).status_code(), 500);
    assert_eq!(AppError::Serde("json".to_string()).status_code(), 500);
    assert_eq!(
        AppError::Bootstrap(payment_processor::error::BootstrapFailure::OrphanTmpFile).status_code(),
        500
    );
    assert_eq!(AppError::Validation(ValidationFailure::BlankName).status_code(), 400);
}

#[test]
fn birth_dates_that_no_clock_can_change() {
    assert_eq!(validate_birth_date(date(1900, 1, 1)), Ok(()));
    assert_eq!(validate_birth_date(date(1951, 12, 31)), Ok(()));
    assert_eq!(validate_birth_date(date(1899, 12, 31)), fail(ValidationFailure::BirthDateTooEarly));
    assert_eq!(validate_birth_date(date(-40, 1, 1)), fail(ValidationFailure::BirthDateTooEarly));
    assert_eq!(details("Ana", "12345678", date(1951, 6, 1)).validate(), Ok(()));
}
