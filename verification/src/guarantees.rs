//! What the request rules, the transaction answers and start-up guarantee,
//! stated over their inputs and results.
use crate::api::dto::{amount_failure, birth_date_failure, document_failure, name_failure};
use crate::api::handlers::transaction_outcome;
use crate::bootstrap::{dat_ext, has_extension_spec, hydrated, nonce_in_file_name, nonces_of, DirEntryInfo};
use crate::cache::{Cache, ClientState};
use crate::constants::{DOCUMENT_LEN, MAX_CLIENT_NAME_LEN, MAX_DECIMAL_PLACES, MAX_TRANSACTION_AMOUNT, MIN_BIRTH_YEAR, MIN_CLIENT_AGE_YEARS};
use crate::date::Date;
use crate::error::{AppError, ValidationFailure};
use crate::model::{Client, TransactionDirection};
use crate::money::{
    difference_is_exact, lemma_difference_value, lemma_pow10_add,
    lemma_pow10_positive, lemma_sum_value, pow10, sum_is_exact, Money, MAX_SCALE,
};
use crate::laws::lemma_numeral_reads_back;
use crate::storage::i32_text;
use crate::text::{is_white_space, parse_i32, trim_end_ws, trim_start_ws, trim_ws};
use vstd::prelude::*;
use vstd::utf8::{encode_scalar, encode_utf8, has_width_1_encoding};

verus! {

/// The day a person born on `birth` turns `years` old.
pub open spec fn birthday_at(birth: Date, years: i32) -> Date {
    Date { year: (birth.year + years) as i32, month: birth.month, day: birth.day }
}

/// A birth date is judged, in this order: not after today, not before the
/// earliest accepted year, and the client's 18th birthday has come: it is
/// today or earlier, comparing year, then month, then day.
pub proof fn law_birth_date_verdict(birth: Date, today: Date)
    requires
        birth.year + MIN_CLIENT_AGE_YEARS <= i32::MAX,
    ensures
        birth_date_failure(birth, today) == if today.before(birth) {
            Some(ValidationFailure::BirthDateInFuture)
        } else if birth.year < MIN_BIRTH_YEAR {
            Some(ValidationFailure::BirthDateTooEarly)
        } else if today.before(birthday_at(birth, MIN_CLIENT_AGE_YEARS)) {
            Some(ValidationFailure::ClientTooYoung)
        } else {
            None
        },
{
}

/// Every record of the ledger brings its client back on start-up: the client
/// is in the registry with the details of the last record carrying its
/// identifier and a zero balance.
pub proof fn law_every_ledger_client_is_rehydrated(records: Seq<Client>)
    ensures
        forall|i: int|
            0 <= i < records.len() ==> #[trigger] hydrated(records).contains_key(records[i].client_id),
        forall|i: int|
            0 <= i < records.len() && (forall|j: int|
                i < j < records.len() ==> (#[trigger] records[j]).client_id != records[i].client_id)
                ==> #[trigger] hydrated(records)[records[i].client_id] == (ClientState {
                details: records[i].details,
                balance: Money::zero_spec(),
            }),
    decreases records.len(),
{
    if records.len() > 0 {
        let rest = records.drop_last();
        let n = records.len() - 1;
        law_every_ledger_client_is_rehydrated(rest);
        assert forall|i: int| 0 <= i < records.len() implies #[trigger] hydrated(
            records,
        ).contains_key(records[i].client_id) by {
            if i < n {
                assert(records[i] == rest[i]);
            }
        }
        assert forall|i: int|
            0 <= i < records.len() && (forall|j: int|
                i < j < records.len() ==> (#[trigger] records[j]).client_id != records[i].client_id)
                implies #[trigger] hydrated(records)[records[i].client_id] == (ClientState {
            details: records[i].details,
            balance: Money::zero_spec(),
        }) by {
            if i < n {
                assert(records[i] == rest[i]);
                assert(records[n].client_id != records[i].client_id);
                assert forall|j: int| i < j < rest.len() implies (#[trigger] rest[j]).client_id
                    != rest[i].client_id by {
                    assert(rest[j] == records[j]);
                }
            }
        }
    }
}

/// A directory entry that start-up reads a flush nonce from: a regular file
/// with the `.dat` extension whose name carries a nonce.
pub open spec fn carries_nonce(e: DirEntryInfo) -> bool {
    e.is_file && has_extension_spec(e.file_name@, dat_ext()) && nonce_in_file_name(e.file_name@) is Some
}

/// Start-up collects one nonce per flush file, in directory order, duplicates
/// kept: the nonces are those of the entries that carry one, each in turn.
pub proof fn law_one_nonce_per_flush_file(entries: Seq<DirEntryInfo>)
    ensures
        nonces_of(entries) == entries.filter(|e: DirEntryInfo| carries_nonce(e)).map_values(
            |e: DirEntryInfo| nonce_in_file_name(e.file_name@).unwrap(),
        ),
        nonces_of(entries).len() == entries.filter(|e: DirEntryInfo| carries_nonce(e)).len(),
    decreases entries.len(),
{
    reveal(Seq::filter);
    if entries.len() > 0 {
        law_one_nonce_per_flush_file(entries.drop_last());
        let f = entries.drop_last().filter(|e: DirEntryInfo| carries_nonce(e));
        let g = |e: DirEntryInfo| nonce_in_file_name(e.file_name@).unwrap();
        assert(f.push(entries.last()).map_values(g) =~= f.map_values(g).push(g(entries.last())));
    }
}

/// A transaction amount is judged by its value `mantissa / 10^scale`: it must
/// be positive, have at most three decimal places, and be at most 1,000,000,
/// whatever scale it is written at.
pub proof fn law_amount_verdict(amount: Money)
    requires
        amount.wf(),
    ensures
        amount_failure(amount) == if amount.mantissa <= 0 {
            Some(ValidationFailure::AmountNotPositive)
        } else if amount.scale > MAX_DECIMAL_PLACES {
            Some(ValidationFailure::AmountTooPrecise)
        } else if amount.mantissa > MAX_TRANSACTION_AMOUNT * pow10(amount.scale as nat) {
            Some(ValidationFailure::AmountTooLarge)
        } else {
            None
        },
{
    let s = amount.scale as nat;
    let rest = (MAX_SCALE - amount.scale) as nat;
    lemma_pow10_positive(rest);
    lemma_pow10_positive(s);
    lemma_pow10_add(s, rest);
    assert(s + rest == MAX_SCALE as nat);
    let p = pow10(rest);
    let q = pow10(s);
    let m = amount.mantissa as int;
    assert(amount.units() == m * p);
    assert(Money { mantissa: MAX_TRANSACTION_AMOUNT as i128, scale: 0 }.units() == MAX_TRANSACTION_AMOUNT
        * pow10(MAX_SCALE as nat));
    assert(pow10(MAX_SCALE as nat) == q * p);
    assert((m <= 0) == (m * p <= 0)) by (nonlinear_arith)
        requires
            p > 0,
    ;
    assert((m * p > MAX_TRANSACTION_AMOUNT * (q * p)) == (m > MAX_TRANSACTION_AMOUNT * q)) by (
    nonlinear_arith)
        requires
            p > 0,
    ;
}

/// A transaction that goes through answers with the balance the client holds
/// afterwards, and that balance is the old one plus a credit, or minus a debit,
/// wherever the decimal arithmetic is exact.
pub proof fn law_transaction_answers_with_the_new_balance(
    before: Cache,
    after: Cache,
    client_id: u128,
    amount: Money,
    direction: TransactionDirection,
    r: Option<Result<Money, AppError>>,
)
    requires
        before.wf(),
        amount.wf(),
        transaction_outcome(before, after, client_id, amount, direction, r),
    ensures
        r matches Some(Ok(b)) ==> after.balances().contains_key(client_id) && after.balances()[client_id]
            == b,
        r matches Some(Ok(b)) ==> (direction == TransactionDirection::Credit && sum_is_exact(
            before.balances()[client_id],
            amount,
        ) ==> b.units() == before.balances()[client_id].units() + amount.units()),
        r matches Some(Ok(b)) ==> (direction == TransactionDirection::Debit && difference_is_exact(
            before.balances()[client_id],
            amount,
        ) ==> b.units() == before.balances()[client_id].units() - amount.units()),
        before.balances().contains_key(client_id) ==> (r is None || r is Some && r.unwrap() is Ok),
{
    if before.balances().contains_key(client_id) {
        before.lemma_wf_parts();
        let old = before.balances()[client_id];
        if sum_is_exact(old, amount) {
            lemma_sum_value(old, amount);
        }
        if difference_is_exact(old, amount) {
            lemma_difference_value(old, amount);
        }
    }
}

/// Each character takes at least one byte in UTF-8, and an ASCII character
/// exactly one.
proof fn lemma_utf8_len(s: Seq<char>)
    ensures
        encode_utf8(s).len() >= s.len(),
        (forall|i: int| 0 <= i < s.len() ==> (#[trigger] s[i] as u32) <= 0x7F) ==> encode_utf8(s).len()
            == s.len(),
    decreases s.len(),
{
    if s.len() > 0 {
        lemma_utf8_len(s.drop_first());
        let c = s[0] as u32;
        assert(encode_scalar(c).len() >= 1);
        assert(has_width_1_encoding(c) ==> encode_scalar(c).len() == 1);
        assert forall|i: int| 0 <= i < s.drop_first().len() implies s.drop_first()[i] == s[i + 1] by {}
    }
}

/// A document number is accepted exactly when it is eight ASCII digits.
pub proof fn law_document_verdict(document: Seq<char>)
    requires
        document.len() <= usize::MAX,
    ensures
        (document_failure(document) is None) <==> (document.len() == DOCUMENT_LEN && forall|i: int|
            0 <= i < document.len() ==> '0' <= #[trigger] document[i] <= '9'),
{
    lemma_utf8_len(document);
    if document.len() == DOCUMENT_LEN && forall|i: int|
        0 <= i < document.len() ==> '0' <= #[trigger] document[i] <= '9' {
        assert forall|i: int| 0 <= i < document.len() implies (#[trigger] document[i] as u32) <= 0x7F by {
            assert('0' <= document[i] <= '9');
        }
    }
    if document_failure(document) is None {
        assert forall|i: int| 0 <= i < document.len() implies (#[trigger] document[i] as u32) <= 0x7F by {
            assert(crate::text::is_ascii_digit(document[i]));
        }
    }
}

/// The nonce's text reads back as the nonce: `i32::from_str` on what `i32`'s
/// `Display` writes gives the same value, for every value.
pub proof fn law_nonce_text_reads_back(n: i32)
    ensures
        parse_i32(i32_text(n)) == Some(n),
{
    let m = if n < 0 { -(n as int) } else { n as int };
    lemma_numeral_reads_back(m as nat);
    let t = i32_text(n);
    if n < 0 {
        assert(t.drop_first() =~= crate::storage::decimal_numeral(m as nat));
    } else {
        let d = crate::storage::decimal_numeral(m as nat);
        assert(crate::text::is_ascii_digit(d[0]));
    }
}

/// `t` is `s` without a run of white space at its start and one at its end,
/// and keeps neither white space at its own start nor at its own end.
pub open spec fn trimmed_from(s: Seq<char>, t: Seq<char>) -> bool {
    exists|a: int, b: int|
        0 <= a <= b <= s.len() && t == s.subrange(a, b) && (forall|i: int|
            0 <= i < a ==> is_white_space(#[trigger] s[i])) && (forall|i: int|
            b <= i < s.len() ==> is_white_space(#[trigger] s[i])) && (a < b ==> !is_white_space(s[a])
            && !is_white_space(s[b - 1]))
}

proof fn lemma_trim_start(s: Seq<char>)
    ensures
        exists|a: int|
            0 <= a <= s.len() && trim_start_ws(s) == s.subrange(a, s.len() as int) && (forall|i: int|
                0 <= i < a ==> is_white_space(#[trigger] s[i])) && (a < s.len() ==> !is_white_space(
                s[a],
            )),
    decreases s.len(),
{
    if s.len() > 0 && is_white_space(s[0]) {
        let r = s.drop_first();
        lemma_trim_start(r);
        let a = choose|a: int|
            0 <= a <= r.len() && trim_start_ws(r) == r.subrange(a, r.len() as int) && (forall|i: int|
                0 <= i < a ==> is_white_space(#[trigger] r[i])) && (a < r.len() ==> !is_white_space(
                r[a],
            ));
        assert(r.subrange(a, r.len() as int) =~= s.subrange(a + 1, s.len() as int));
        assert forall|i: int| 0 <= i < a + 1 implies is_white_space(#[trigger] s[i]) by {
            if i > 0 {
                assert(s[i] == r[i - 1]);
            }
        }
        assert(a + 1 < s.len() ==> s[a + 1] == r[a]);
    } else {
        assert(s.subrange(0, s.len() as int) =~= s);
    }
}

proof fn lemma_trim_end(s: Seq<char>)
    ensures
        exists|b: int|
            0 <= b <= s.len() && trim_end_ws(s) == s.subrange(0, b) && (forall|i: int|
                b <= i < s.len() ==> is_white_space(#[trigger] s[i])) && (b > 0 ==> !is_white_space(
                s[b - 1],
            )),
    decreases s.len(),
{
    if s.len() > 0 && is_white_space(s.last()) {
        let r = s.drop_last();
        lemma_trim_end(r);
        let b = choose|b: int|
            0 <= b <= r.len() && trim_end_ws(r) == r.subrange(0, b) && (forall|i: int|
                b <= i < r.len() ==> is_white_space(#[trigger] r[i])) && (b > 0 ==> !is_white_space(
                r[b - 1],
            ));
        assert(r.subrange(0, b) =~= s.subrange(0, b));
        assert forall|i: int| b <= i < s.len() implies is_white_space(#[trigger] s[i]) by {
            if i < r.len() {
                assert(s[i] == r[i]);
            }
        }
        assert(b > 0 ==> s[b - 1] == r[b - 1]);
    } else {
        assert(s.subrange(0, s.len() as int) =~= s);
    }
}

/// Trimming removes white space from both ends and nothing else: the result
/// is a stretch of the text, everything before and after it is white space,
/// and it neither starts nor ends with white space.
pub proof fn law_trim_removes_only_surrounding_white_space(s: Seq<char>)
    ensures
        trimmed_from(s, trim_ws(s)),
{
    lemma_trim_start(s);
    let a = choose|a: int|
        0 <= a <= s.len() && trim_start_ws(s) == s.subrange(a, s.len() as int) && (forall|i: int|
            0 <= i < a ==> is_white_space(#[trigger] s[i])) && (a < s.len() ==> !is_white_space(s[a]));
    let m = trim_start_ws(s);
    lemma_trim_end(m);
    let b = choose|b: int|
        0 <= b <= m.len() && trim_end_ws(m) == m.subrange(0, b) && (forall|i: int|
            b <= i < m.len() ==> is_white_space(#[trigger] m[i])) && (b > 0 ==> !is_white_space(
            m[b - 1],
        ));
    assert(trim_ws(s) =~= s.subrange(a, a + b));
    assert forall|i: int| a + b <= i < s.len() implies is_white_space(#[trigger] s[i]) by {
        assert(s[i] == m[i - a]);
    }
    if b > 0 {
        assert(s[a] == m[0]);
        assert(s[a + b - 1] == m[b - 1]);
        if is_white_space(m[0]) {
            assert(a < s.len());
        }
    }
    assert(trimmed_from(s, trim_ws(s)));
}

/// A client name is refused, in this order: when nothing but white space is
/// left once it is trimmed, when more than 128 characters are left, or when
/// any character of it is a control character (U+0000 to U+001F, U+007F to
/// U+009F); otherwise it is accepted.
pub proof fn law_name_verdict(name: Seq<char>)
    ensures
        trimmed_from(name, trim_ws(name)),
        name_failure(name) == if trim_ws(name).len() == 0 {
            Some(ValidationFailure::BlankName)
        } else if trim_ws(name).len() > MAX_CLIENT_NAME_LEN {
            Some(ValidationFailure::NameTooLong)
        } else if exists|i: int|
            0 <= i < name.len() && (#[trigger] name[i] <= '\u{1f}' || '\u{7f}' <= name[i] <= '\u{9f}') {
            Some(ValidationFailure::NameHasControlCharacters)
        } else {
            None
        },
{
    law_trim_removes_only_surrounding_white_space(name);
}

} // verus!
