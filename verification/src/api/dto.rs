//! Request and response bodies, and the rules a request must meet before
//! anything is stored.
use crate::constants::{
    DOCUMENT_LEN, MAX_CLIENT_NAME_LEN, MAX_DECIMAL_PLACES, MAX_TRANSACTION_AMOUNT, MIN_BIRTH_YEAR,
    MIN_CLIENT_AGE_YEARS,
};
use crate::date::{clock_date, today_utc, Date, UNIX_EPOCH_YEAR};
use crate::error::{AppError, ValidationFailure};
use crate::model::{Country, Document};
use crate::money::{greater_than, Money};
use crate::text::{
    all_ascii_digits, any_control, contains_control, only_ascii_digits, trim, trim_ws,
};
use vstd::prelude::*;
use vstd::string::*;

verus! {

/// What a client signs up with.
#[derive(Clone, Debug, PartialEq, Eq)]
pub struct ClientDetails {
    pub client_name: String,
    pub birth_date: Date,
    pub document_number: Document,
    pub country: Country,
}

/// A request to credit a client's balance.
#[derive(Clone, Debug, PartialEq, Eq)]
pub struct NewCreditTransaction {
    pub client_id: u128,
    pub credit_amount: Money,
}

/// A request to debit a client's balance.
#[derive(Clone, Debug, PartialEq, Eq)]
pub struct NewDebitTransaction {
    pub client_id: u128,
    pub debit_amount: Money,
}

/// A request for a client's details and current balance.
#[derive(Clone, Debug, PartialEq, Eq)]
pub struct GetBalanceRequest {
    pub client_id: u128,
}

/// A client's details and current balance.
#[derive(Clone, Debug, PartialEq, Eq)]
pub struct GetBalanceResponse {
    pub client_id: u128,
    pub details: ClientDetails,
    pub balance: Money,
}

/// The result a validator gives for a failure found, or none.
pub open spec fn outcome(f: Option<ValidationFailure>) -> Result<(), AppError> {
    match f {
        Some(v) => Err(AppError::Validation(v)),
        None => Ok(()),
    }
}

/// The first rule a client name breaks: blank once trimmed, longer than the cap
/// once trimmed, or holding a control character anywhere.
pub open spec fn name_failure(name: Seq<char>) -> Option<ValidationFailure> {
    if trim_ws(name).len() == 0 {
        Some(ValidationFailure::BlankName)
    } else if trim_ws(name).len() > MAX_CLIENT_NAME_LEN {
        Some(ValidationFailure::NameTooLong)
    } else if any_control(name) {
        Some(ValidationFailure::NameHasControlCharacters)
    } else {
        None
    }
}

/// The first rule a document number breaks: its UTF-8 length must be exactly
/// the document length, and every character an ASCII digit.
pub open spec fn document_failure(document: Seq<char>) -> Option<ValidationFailure> {
    if vstd::utf8::encode_utf8(document).len() as usize != DOCUMENT_LEN {
        Some(ValidationFailure::DocumentWrongLength)
    } else if !all_ascii_digits(document) {
        Some(ValidationFailure::DocumentNotDigits)
    } else {
        None
    }
}

/// Age in whole years on `today` of someone born on `birth`: the difference of
/// the years, less one if this year's birthday has not come yet.
pub open spec fn age_in_years(birth: Date, today: Date) -> int {
    if today.month < birth.month || (today.month == birth.month && today.day < birth.day) {
        today.year - birth.year - 1
    } else {
        today.year - birth.year
    }
}

/// The first rule a birth date breaks on `today`: not in the future, not before
/// the earliest accepted year, and old enough.
pub open spec fn birth_date_failure(birth: Date, today: Date) -> Option<ValidationFailure> {
    if today.before(birth) {
        Some(ValidationFailure::BirthDateInFuture)
    } else if birth.year < MIN_BIRTH_YEAR {
        Some(ValidationFailure::BirthDateTooEarly)
    } else if age_in_years(birth, today) < MIN_CLIENT_AGE_YEARS {
        Some(ValidationFailure::ClientTooYoung)
    } else {
        None
    }
}

/// The largest amount a single transaction may carry.
pub open spec fn max_amount() -> Money {
    Money { mantissa: MAX_TRANSACTION_AMOUNT as i128, scale: 0 }
}

/// The first rule an amount breaks: strictly positive, at most the allowed
/// number of decimal places, and at most the per-transaction cap.
pub open spec fn amount_failure(amount: Money) -> Option<ValidationFailure> {
    if amount.units() <= 0 {
        Some(ValidationFailure::AmountNotPositive)
    } else if amount.scale > MAX_DECIMAL_PLACES {
        Some(ValidationFailure::AmountTooPrecise)
    } else if amount.units() > max_amount().units() {
        Some(ValidationFailure::AmountTooLarge)
    } else {
        None
    }
}

/// The first rule a set of client details breaks on `today`: the name first,
/// then the document number, then the birth date.
pub open spec fn details_failure(d: ClientDetails, today: Date) -> Option<ValidationFailure> {
    if name_failure(d.client_name@) is Some {
        name_failure(d.client_name@)
    } else if document_failure(d.document_number@) is Some {
        document_failure(d.document_number@)
    } else {
        birth_date_failure(d.birth_date, today)
    }
}

/// The verdict on a birth date that no clock reading can change: a year before
/// the earliest accepted one is too early on every day, and a year early enough
/// that the client is of age on any day from the Unix epoch on passes. `None`
/// where the verdict depends on which day it is.
pub open spec fn settled_birth_failure(birth: Date) -> Option<Option<ValidationFailure>> {
    if birth.year < MIN_BIRTH_YEAR {
        Some(Some(ValidationFailure::BirthDateTooEarly))
    } else if birth.year < UNIX_EPOCH_YEAR - MIN_CLIENT_AGE_YEARS {
        Some(None)
    } else {
        None
    }
}

/// The verdict on a set of client details that no clock reading can change:
/// the name's or the document's failure, or else the settled verdict on the
/// birth date. `None` where the verdict depends on which day it is.
pub open spec fn settled_details_failure(d: ClientDetails) -> Option<Option<ValidationFailure>> {
    if name_failure(d.client_name@) is Some {
        Some(name_failure(d.client_name@))
    } else if document_failure(d.document_number@) is Some {
        Some(document_failure(d.document_number@))
    } else {
        settled_birth_failure(d.birth_date)
    }
}

/// On any day the clock can read, the settled verdict on a birth date is the
/// verdict.
pub proof fn lemma_settled_birth_verdict(birth: Date, today: Date)
    requires
        clock_date(today),
    ensures
        settled_birth_failure(birth) matches Some(f) ==> birth_date_failure(birth, today) == f,
{
}

/// On any day the clock can read, the settled verdict on client details is the
/// verdict.
pub proof fn lemma_settled_details_verdict(d: ClientDetails, today: Date)
    requires
        clock_date(today),
    ensures
        settled_details_failure(d) matches Some(f) ==> details_failure(d, today) == f,
{
    lemma_settled_birth_verdict(d.birth_date, today);
}

impl ClientDetails {
    /// Rejects malformed client data before it is ever persisted, judging the
    /// birth date against `today`.
    pub fn validate_on(&self, today: Date) -> (r: Result<(), AppError>)
        ensures
            r == outcome(details_failure(*self, today)),
    {
        validate_client_name(self.client_name.as_str())?;
        validate_document_number(&self.document_number)?;
        validate_birth_date_on(self.birth_date, today)?;
        Ok(())
    }

    /// Rejects malformed client data before it is ever persisted, judging the
    /// birth date against today's date in UTC.
    pub fn validate(&self) -> (r: Result<(), AppError>)
        ensures
            exists|today: Date| clock_date(today) && r == outcome(details_failure(*self, today)),
            settled_details_failure(*self) matches Some(f) ==> r == outcome(f),
    {
        let today = today_utc();
        proof {
            lemma_settled_details_verdict(*self, today);
        }
        self.validate_on(today)
    }

    /// An identical copy.
    pub fn duplicate(&self) -> (r: ClientDetails)
        ensures
            r == *self,
    {
        ClientDetails {
            client_name: self.client_name.clone(),
            birth_date: self.birth_date,
            document_number: self.document_number.clone(),
            country: self.country,
        }
    }
}

impl NewCreditTransaction {
    pub fn validate(&self) -> (r: Result<(), AppError>)
        requires
            self.credit_amount.wf(),
        ensures
            r == outcome(amount_failure(self.credit_amount)),
    {
        validate_amount(self.credit_amount)
    }
}

impl NewDebitTransaction {
    pub fn validate(&self) -> (r: Result<(), AppError>)
        requires
            self.debit_amount.wf(),
        ensures
            r == outcome(amount_failure(self.debit_amount)),
    {
        validate_amount(self.debit_amount)
    }
}

/// Validates a client's name: non-blank, within the length cap, and free of
/// control characters.
pub fn validate_client_name(name: &str) -> (r: Result<(), AppError>)
    ensures
        r == outcome(name_failure(name@)),
{
    let trimmed = trim(name);
    if trimmed.is_empty() {
        return Err(AppError::Validation(ValidationFailure::BlankName));
    }
    if trimmed.unicode_len() > MAX_CLIENT_NAME_LEN {
        return Err(AppError::Validation(ValidationFailure::NameTooLong));
    }
    if contains_control(name) {
        return Err(AppError::Validation(ValidationFailure::NameHasControlCharacters));
    }
    Ok(())
}

/// Validates a document number's format: digits only, of the required length.
pub fn validate_document_number(document: &Document) -> (r: Result<(), AppError>)
    ensures
        r == outcome(document_failure(document@)),
{
    let len = document.as_str().len();
    if len != DOCUMENT_LEN {
        return Err(AppError::Validation(ValidationFailure::DocumentWrongLength));
    }
    if !only_ascii_digits(document.as_str()) {
        return Err(AppError::Validation(ValidationFailure::DocumentNotDigits));
    }
    Ok(())
}

/// Validates a birth date against `today`: not in the future, not implausibly
/// old, and old enough to register.
pub fn validate_birth_date_on(birth_date: Date, today: Date) -> (r: Result<(), AppError>)
    ensures
        r == outcome(birth_date_failure(birth_date, today)),
{
    if birth_date.is_after(&today) {
        return Err(AppError::Validation(ValidationFailure::BirthDateInFuture));
    }
    if birth_date.year < MIN_BIRTH_YEAR {
        return Err(AppError::Validation(ValidationFailure::BirthDateTooEarly));
    }
    let mut age: i64 = today.year as i64 - birth_date.year as i64;
    if today.month < birth_date.month || (today.month == birth_date.month && today.day
        < birth_date.day) {
        age = age - 1;
    }
    if age < MIN_CLIENT_AGE_YEARS as i64 {
        return Err(AppError::Validation(ValidationFailure::ClientTooYoung));
    }
    Ok(())
}

/// Validates a birth date against today's date in UTC.
pub fn validate_birth_date(birth_date: Date) -> (r: Result<(), AppError>)
    ensures
        exists|today: Date| clock_date(today) && r == outcome(birth_date_failure(birth_date, today)),
        settled_birth_failure(birth_date) matches Some(f) ==> r == outcome(f),
{
    let today = today_utc();
    proof {
        lemma_settled_birth_verdict(birth_date, today);
    }
    validate_birth_date_on(birth_date, today)
}

/// Validates a transaction amount: strictly positive, no more than the allowed
/// number of decimal places, and within the per-transaction cap.
pub fn validate_amount(amount: Money) -> (r: Result<(), AppError>)
    requires
        amount.wf(),
    ensures
        r == outcome(amount_failure(amount)),
{
    if !greater_than(amount, Money::zero()) {
        return Err(AppError::Validation(ValidationFailure::AmountNotPositive));
    }
    if amount.scale > MAX_DECIMAL_PLACES {
        return Err(AppError::Validation(ValidationFailure::AmountTooPrecise));
    }
    let cap = Money { mantissa: MAX_TRANSACTION_AMOUNT as i128, scale: 0 };
    if greater_than(amount, cap) {
        return Err(AppError::Validation(ValidationFailure::AmountTooLarge));
    }
    Ok(())
}

} // verus!
