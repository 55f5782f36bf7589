//! The storage formats this service writes: the name of each balance flush
//! file, `ddmmyyyy_<nonce>.dat` (written first under a `.tmp` name), and its
//! contents, one `<client id> <balance>` line per flushed client.
use crate::date::{clock_date, today_utc, Date};
use crate::money::Money;
use crate::text::chars_of;
use vstd::prelude::*;

verus! {

/// The ASCII digit for `d < 10`.
pub open spec fn digit_char(d: nat) -> char {
    (('0' as u32) + d) as char
}

/// The decimal numeral of `n`, without leading zeros (`0` for zero).
pub open spec fn decimal_numeral(n: nat) -> Seq<char>
    decreases n,
{
    if n < 10 {
        seq![digit_char(n)]
    } else {
        decimal_numeral(n / 10).push(digit_char(n % 10))
    }
}

/// How `i32`'s `Display` writes `n`.
pub open spec fn i32_text(n: i32) -> Seq<char> {
    if n < 0 {
        seq!['-'] + decimal_numeral((-n) as nat)
    } else {
        decimal_numeral(n as nat)
    }
}

/// `String::from_iter` over characters: a string holding exactly `chars`.
#[verifier::external_body]
fn string_from_chars(chars: &Vec<char>) -> (r: String)
    ensures
        r@ == chars@,
{
    chars.iter().collect()
}

/// Appends the decimal numeral of `n` to `out`.
fn push_numeral(out: &mut Vec<char>, n: u32)
    ensures
        final(out)@ == old(out)@ + decimal_numeral(n as nat),
    decreases n,
{
    if n >= 10 {
        push_numeral(out, n / 10);
    }
    let d = n % 10;
    out.push(((('0' as u32) + d) as u8) as char);
    proof {
        assert((((('0' as u32) + d) as u8) as char) == digit_char(d as nat));
        if n >= 10 {
            assert(decimal_numeral(n as nat) == decimal_numeral((n / 10) as nat).push(
                digit_char((n % 10) as nat),
            ));
        }
    }
    assert(final(out)@ =~= old(out)@ + decimal_numeral(n as nat));
}

/// Appends the decimal numeral of `n`, with zeros in front up to `width`
/// characters.
fn push_padded(out: &mut Vec<char>, n: u32, width: usize)
    ensures
        final(out)@ == old(out)@ + pad_with_zeros(decimal_numeral(n as nat), width as nat),
{
    let mut digits: Vec<char> = Vec::new();
    push_numeral(&mut digits, n);
    assert(digits@ =~= decimal_numeral(n as nat));
    let ghost start = out@;
    let mut k = digits.len();
    while k < width
        invariant
            digits.len() <= k,
            k <= width || k == digits.len(),
            out@ =~= start + Seq::new((k - digits.len()) as nat, |i: int| '0'),
        decreases width - k,
    {
        out.push('0');
        k = k + 1;
    }
    let ghost zeros = out@;
    let mut j: usize = 0;
    while j < digits.len()
        invariant
            j <= digits@.len(),
            out@ == zeros + digits@.take(j as int),
        decreases digits@.len() - j,
    {
        out.push(digits[j]);
        assert(digits@.take(j + 1) =~= digits@.take(j as int).push(digits@[j as int]));
        j = j + 1;
    }
    assert(digits@.take(j as int) =~= digits@);
    assert(final(out)@ =~= old(out)@ + pad_with_zeros(decimal_numeral(n as nat), width as nat));
}

/// How chrono's `%Y` writes a year: at least four digits, zero-padded, with a
/// `-` before a negative year and a `+` before one above 9999.
pub open spec fn year_text(y: i32) -> Seq<char> {
    let sign = if y < 0 {
        seq!['-']
    } else if y > 9999 {
        seq!['+']
    } else {
        Seq::empty()
    };
    sign + pad_with_zeros(decimal_numeral(abs(y as int)), 4)
}

/// A day written as chrono's `%d%m%Y` writes it: two-digit day, two-digit
/// month, then the year.
pub open spec fn day_stamp_text(d: Date) -> Seq<char> {
    pad_with_zeros(decimal_numeral(d.day as nat), 2) + pad_with_zeros(
        decimal_numeral(d.month as nat),
        2,
    ) + year_text(d.year)
}

/// Writes a day as `ddmmyyyy`, the form balance flush files are named by.
pub fn day_stamp(d: Date) -> (r: String)
    requires
        d.wf(),
    ensures
        r@ == day_stamp_text(d),
{
    let mut out: Vec<char> = Vec::new();
    push_padded(&mut out, d.day, 2);
    push_padded(&mut out, d.month, 2);
    if d.year < 0 {
        out.push('-');
    } else if d.year > 9999 {
        out.push('+');
    }
    let magnitude: u32 = if d.year < 0 {
        (0i64 - d.year as i64) as u32
    } else {
        d.year as u32
    };
    push_padded(&mut out, magnitude, 4);
    assert(out@ =~= day_stamp_text(d));
    string_from_chars(&out)
}

/// Today's date in UTC written as `ddmmyyyy`; which day it is depends on the
/// clock.
pub fn today_stamp() -> (r: String)
    ensures
        exists|today: Date| clock_date(today) && r@ == day_stamp_text(today),
{
    let today = today_utc();
    day_stamp(today)
}

/// The name a balance flush is stored under: the day, `_`, the nonce, `.dat`.
pub open spec fn balance_file_name_text(date_part: Seq<char>, nonce: i32) -> Seq<char> {
    date_part + seq!['_'] + i32_text(nonce) + seq!['.', 'd', 'a', 't']
}

/// The name a balance flush is stored under, `{date_part}_{nonce}.dat`, where
/// `date_part` is the day written as `ddmmyyyy`.
pub fn balance_file_name(date_part: &str, nonce: i32) -> (r: String)
    ensures
        r@ == balance_file_name_text(date_part@, nonce),
{
    let mut out = chars_of(date_part);
    out.push('_');
    if nonce < 0 {
        out.push('-');
        let magnitude: u32 = if nonce == i32::MIN {
            2147483648u32
        } else {
            (-nonce) as u32
        };
        push_numeral(&mut out, magnitude);
    } else {
        push_numeral(&mut out, nonce as u32);
    }
    out.push('.');
    out.push('d');
    out.push('a');
    out.push('t');
    assert(out@ =~= balance_file_name_text(date_part@, nonce));
    string_from_chars(&out)
}

/// The name a flush is first written under, `{file_name}.tmp`.
pub open spec fn temporary_file_name_text(file_name: Seq<char>) -> Seq<char> {
    file_name + seq!['.', 't', 'm', 'p']
}

/// The name a flush is first written under before it is renamed into place.
pub fn temporary_file_name(file_name: &str) -> (r: String)
    ensures
        r@ == temporary_file_name_text(file_name@),
{
    let mut out = chars_of(file_name);
    out.push('.');
    out.push('t');
    out.push('m');
    out.push('p');
    assert(out@ =~= temporary_file_name_text(file_name@));
    string_from_chars(&out)
}

/// The lowercase hexadecimal digit for `v < 16`.
pub open spec fn hex_digit(v: u128) -> char {
    if v < 10 {
        (('0' as u128) + v) as char
    } else {
        (('a' as u128) + v - 10) as char
    }
}

/// The `k`-th hexadecimal digit of `id`, counting from the most significant.
pub open spec fn uuid_nibble(id: u128, k: int) -> u128 {
    (id >> (((31 - k) * 4) as u128)) & 0xfu128
}

/// The 32 hexadecimal digits of `id`, most significant first.
pub open spec fn uuid_hex(id: u128) -> Seq<char> {
    Seq::new(32, |k: int| hex_digit(uuid_nibble(id, k)))
}

/// A UUID in its hyphenated form: 8-4-4-4-12 lowercase hexadecimal digits.
pub open spec fn uuid_hyphenated(id: u128) -> Seq<char> {
    let h = uuid_hex(id);
    h.subrange(0, 8) + seq!['-'] + h.subrange(8, 12) + seq!['-'] + h.subrange(12, 16) + seq!['-']
        + h.subrange(16, 20) + seq!['-'] + h.subrange(20, 32)
}

/// `uuid::Uuid::from_u128(id).to_string()`: the hyphenated lowercase form of
/// the UUID whose big-endian value is `id`.
#[verifier::external_body]
fn uuid_text(id: u128) -> (r: String)
    ensures
        r@ == uuid_hyphenated(id),
{
    uuid::Uuid::from_u128(id).to_string()
}

/// The decimal digits of `u`, most significant first, and none for zero.
pub open spec fn significant_digits(u: nat) -> Seq<char>
    decreases u,
{
    if u == 0 {
        Seq::empty()
    } else {
        significant_digits(u / 10).push(digit_char(u % 10))
    }
}

/// `d` with zeros in front until it has at least `width` characters.
pub open spec fn pad_with_zeros(d: Seq<char>, width: nat) -> Seq<char> {
    if d.len() >= width {
        d
    } else {
        Seq::new((width - d.len()) as nat, |i: int| '0') + d
    }
}

pub open spec fn abs(m: int) -> nat {
    if m < 0 {
        (-m) as nat
    } else {
        m as nat
    }
}

/// How `rust_decimal::Decimal`'s `Display` writes an amount: a `-` for a
/// negative value, then the digits of the mantissa with a decimal point placed
/// `scale` digits from the right (a `0` before a point that would lead, and
/// every fractional digit kept), or `0` for an integral zero.
pub open spec fn decimal_text(m: Money) -> Seq<char> {
    let sign = if m.mantissa < 0 {
        seq!['-']
    } else {
        Seq::empty()
    };
    let d = pad_with_zeros(significant_digits(abs(m.mantissa as int)), m.scale as nat);
    let body = if m.scale == 0 {
        if d.len() == 0 {
            seq!['0']
        } else {
            d
        }
    } else {
        let w = d.len() - m.scale;
        (if w == 0 {
            seq!['0']
        } else {
            d.subrange(0, w)
        }) + seq!['.'] + d.subrange(w, d.len() as int)
    };
    sign + body
}

/// `rust_decimal::Decimal::to_string` on the decimal `mantissa / 10^scale`.
#[verifier::external_body]
fn money_text(m: Money) -> (r: String)
    requires
        m.wf(),
    ensures
        r@ == decimal_text(m),
{
    rust_decimal::Decimal::from_i128_with_scale(m.mantissa, m.scale).to_string()
}

/// The flush file for `balances`: one `<client id> <balance>` line per entry,
/// in order.
pub open spec fn balances_file_text(balances: Seq<(u128, Money)>) -> Seq<char>
    decreases balances.len(),
{
    if balances.len() == 0 {
        Seq::empty()
    } else {
        let (id, balance) = balances.last();
        balances_file_text(balances.drop_last()) + uuid_hyphenated(id) + seq![' '] + decimal_text(
            balance,
        ) + seq!['\n']
    }
}

/// Lays out the flush file for `balances`: one `<client id> <balance>` line per
/// entry (balances may be negative).
pub fn balances_file_contents(balances: &Vec<(u128, Money)>) -> (r: String)
    requires
        forall|i: int| 0 <= i < balances@.len() ==> (#[trigger] balances@[i]).1.wf(),
    ensures
        r@ == balances_file_text(balances@),
{
    let mut out: Vec<char> = Vec::new();
    let mut i: usize = 0;
    assert(balances@.take(0) =~= Seq::<(u128, Money)>::empty());
    while i < balances.len()
        invariant
            i <= balances@.len(),
            forall|j: int| 0 <= j < balances@.len() ==> (#[trigger] balances@[j]).1.wf(),
            out@ == balances_file_text(balances@.take(i as int)),
        decreases balances@.len() - i,
    {
        let (id, balance) = balances[i];
        assert(balances@.take(i + 1).drop_last() =~= balances@.take(i as int));
        let id_chars = chars_of(uuid_text(id).as_str());
        let amount_chars = chars_of(money_text(balance).as_str());
        let ghost before = out@;
        let mut k: usize = 0;
        while k < id_chars.len()
            invariant
                k <= id_chars@.len(),
                out@ == before + id_chars@.take(k as int),
            decreases id_chars@.len() - k,
        {
            out.push(id_chars[k]);
            assert(id_chars@.take(k + 1) =~= id_chars@.take(k as int).push(id_chars@[k as int]));
            k = k + 1;
        }
        assert(id_chars@.take(k as int) =~= id_chars@);
        out.push(' ');
        let ghost middle = out@;
        let mut k: usize = 0;
        while k < amount_chars.len()
            invariant
                k <= amount_chars@.len(),
                out@ == middle + amount_chars@.take(k as int),
            decreases amount_chars@.len() - k,
        {
            out.push(amount_chars[k]);
            assert(amount_chars@.take(k + 1) =~= amount_chars@.take(k as int).push(
                amount_chars@[k as int],
            ));
            k = k + 1;
        }
        assert(amount_chars@.take(k as int) =~= amount_chars@);
        out.push('\n');
        assert(out@ =~= balances_file_text(balances@.take(i + 1)));
        i = i + 1;
    }
    assert(balances@.take(i as int) =~= balances@);
    string_from_chars(&out)
}

} // verus!
