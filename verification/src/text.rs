//! Character and string facts the validators and the storage formats rely on.
use vstd::prelude::*;

verus! {

/// Unicode `White_Space`, the property `char::is_whitespace` tests.
pub open spec fn is_white_space(c: char) -> bool {
    ||| '\u{9}' <= c <= '\u{d}'
    ||| c == ' '
    ||| c == '\u{85}'
    ||| c == '\u{a0}'
    ||| c == '\u{1680}'
    ||| '\u{2000}' <= c <= '\u{200a}'
    ||| c == '\u{2028}'
    ||| c == '\u{2029}'
    ||| c == '\u{202f}'
    ||| c == '\u{205f}'
    ||| c == '\u{3000}'
}

/// `s` with leading white space removed.
pub open spec fn trim_start_ws(s: Seq<char>) -> Seq<char>
    decreases s.len(),
{
    if s.len() > 0 && is_white_space(s[0]) {
        trim_start_ws(s.drop_first())
    } else {
        s
    }
}

/// `s` with trailing white space removed.
pub open spec fn trim_end_ws(s: Seq<char>) -> Seq<char>
    decreases s.len(),
{
    if s.len() > 0 && is_white_space(s.last()) {
        trim_end_ws(s.drop_last())
    } else {
        s
    }
}

/// `s` with leading and trailing white space removed.
pub open spec fn trim_ws(s: Seq<char>) -> Seq<char> {
    trim_end_ws(trim_start_ws(s))
}

/// `str::trim`: the slice of `s` without leading and trailing white space, as
/// `char::is_whitespace` (Unicode `White_Space`) defines it.
#[verifier::external_body]
pub(crate) fn trim<'a>(s: &'a str) -> (r: &'a str)
    ensures
        r@ == trim_ws(s@),
{
    s.trim()
}

/// General category `Cc`, the property `char::is_control` tests.
pub open spec fn is_control_char(c: char) -> bool {
    ||| c <= '\u{1f}'
    ||| '\u{7f}' <= c <= '\u{9f}'
}

pub open spec fn any_control(s: Seq<char>) -> bool {
    exists|i: int| 0 <= i < s.len() && is_control_char(#[trigger] s[i])
}

pub fn contains_control(s: &str) -> (r: bool)
    ensures
        r == any_control(s@),
{
    let mut found = false;
    for c in it: s.chars()
        invariant
            it.seq() == s@,
            found == any_control(s@.take(it.index() as int)),
    {
        let ghost i = it.index() as int;
        assert(s@.take(i + 1) =~= s@.take(i).push(c));
        if c <= '\u{1f}' || ('\u{7f}' <= c && c <= '\u{9f}') {
            found = true;
            assert(is_control_char(s@.take(i + 1)[i]));
        } else {
            proof {
            if any_control(s@.take(i + 1)) {
                let j = choose|j: int| 0 <= j < i + 1 && is_control_char(#[trigger] s@.take(i + 1)[j]);
                assert(s@.take(i)[j] == s@.take(i + 1)[j]);
            }
            if any_control(s@.take(i)) {
                let j = choose|j: int| 0 <= j < i && is_control_char(#[trigger] s@.take(i)[j]);
                assert(s@.take(i)[j] == s@.take(i + 1)[j]);
            }
            }
        }
    }
    assert(s@.take(s@.len() as int) =~= s@);
    found
}

pub open spec fn is_ascii_digit(c: char) -> bool {
    '0' <= c <= '9'
}

pub open spec fn all_ascii_digits(s: Seq<char>) -> bool {
    forall|i: int| 0 <= i < s.len() ==> is_ascii_digit(#[trigger] s[i])
}

/// Whether every character of `s` is an ASCII digit.
pub fn only_ascii_digits(s: &str) -> (r: bool)
    ensures
        r == all_ascii_digits(s@),
{
    let mut all = true;
    for c in it: s.chars()
        invariant
            it.seq() == s@,
            all == all_ascii_digits(s@.take(it.index() as int)),
    {
        let ghost i = it.index() as int;
        assert(s@.take(i + 1) =~= s@.take(i).push(c));
        if !('0' <= c && c <= '9') {
            all = false;
        }
        proof {
            if all_ascii_digits(s@.take(i)) && is_ascii_digit(c) {
                assert forall|j: int| 0 <= j < i + 1 implies is_ascii_digit(#[trigger] s@.take(i + 1)[j]) by {
                    if j < i {
                        assert(s@.take(i + 1)[j] == s@.take(i)[j]);
                    }
                }
            }
            if !all_ascii_digits(s@.take(i)) {
                let j = choose|j: int| 0 <= j < i && !is_ascii_digit(#[trigger] s@.take(i)[j]);
                assert(s@.take(i + 1)[j] == s@.take(i)[j]);
            }
            if !is_ascii_digit(c) {
                assert(s@.take(i + 1)[i] == c);
            }
        }
    }
    assert(s@.take(s@.len() as int) =~= s@);
    all
}

/// The characters of `s`, in order.
pub fn chars_of(s: &str) -> (r: Vec<char>)
    ensures
        r@ == s@,
{
    let mut out: Vec<char> = Vec::new();
    for c in it: s.chars()
        invariant
            it.seq() == s@,
            out@ == s@.take(it.index() as int),
    {
        let ghost i = it.index() as int;
        out.push(c);
        assert(s@.take(i + 1) =~= s@.take(i).push(c));
    }
    assert(s@.take(s@.len() as int) =~= s@);
    out
}

/// The position of the first `c` in `s` at or after `from`.
pub open spec fn index_of_from(s: Seq<char>, c: char, from: int) -> Option<int>
    decreases s.len() - from,
{
    if from < 0 || from >= s.len() {
        None
    } else if s[from] == c {
        Some(from)
    } else {
        index_of_from(s, c, from + 1)
    }
}

/// The position of the first `c` in `s`.
pub open spec fn first_index_of(s: Seq<char>, c: char) -> Option<int> {
    index_of_from(s, c, 0)
}

/// The position of the last `c` in `s` before `end`.
pub open spec fn last_index_before(s: Seq<char>, c: char, end: int) -> Option<int>
    decreases end,
{
    if end <= 0 || end > s.len() {
        None
    } else if s[end - 1] == c {
        Some(end - 1)
    } else {
        last_index_before(s, c, end - 1)
    }
}

/// The position of the last `c` in `s`.
pub open spec fn last_index_of(s: Seq<char>, c: char) -> Option<int> {
    last_index_before(s, c, s.len() as int)
}

/// Finds the first `c` in `s`.
pub fn find_first(s: &Vec<char>, c: char) -> (r: Option<usize>)
    ensures
        r matches Some(k) ==> first_index_of(s@, c) == Some(k as int) && k < s@.len() && s@[k as int]
            == c,
        r is None ==> first_index_of(s@, c) is None,
{
    let mut i: usize = 0;
    while i < s.len()
        invariant
            i <= s@.len(),
            first_index_of(s@, c) == index_of_from(s@, c, i as int),
        decreases s@.len() - i,
    {
        if s[i] == c {
            return Some(i);
        }
        i = i + 1;
    }
    None
}

/// Finds the last `c` in `s` before position `end`.
pub fn find_last_before(s: &Vec<char>, c: char, end: usize) -> (r: Option<usize>)
    requires
        end <= s@.len(),
    ensures
        r matches Some(k) ==> last_index_before(s@, c, end as int) == Some(k as int) && k < end
            && s@[k as int] == c,
        r is None ==> last_index_before(s@, c, end as int) is None,
{
    let mut e: usize = end;
    while e > 0
        invariant
            e <= end <= s@.len(),
            last_index_before(s@, c, end as int) == last_index_before(s@, c, e as int),
        decreases e,
    {
        if s[e - 1] == c {
            return Some(e - 1);
        }
        e = e - 1;
    }
    None
}

/// Finds the last `c` in `s`.
pub fn find_last(s: &Vec<char>, c: char) -> (r: Option<usize>)
    ensures
        r matches Some(k) ==> last_index_of(s@, c) == Some(k as int) && k < s@.len() && s@[k as int]
            == c,
        r is None ==> last_index_of(s@, c) is None,
{
    let mut end: usize = s.len();
    while end > 0
        invariant
            end <= s@.len(),
            last_index_of(s@, c) == last_index_before(s@, c, end as int),
        decreases end,
    {
        if s[end - 1] == c {
            return Some(end - 1);
        }
        end = end - 1;
    }
    None
}

/// `c` with an ASCII capital letter turned into the small letter.
pub open spec fn ascii_lower(c: char) -> char {
    if 'A' <= c <= 'Z' {
        ((c as u32) + 32) as char
    } else {
        c
    }
}

/// `a` and `b` are equal once ASCII letters are folded to small letters: the
/// relation `str::eq_ignore_ascii_case` decides.
pub open spec fn equal_ignoring_ascii_case(a: Seq<char>, b: Seq<char>) -> bool {
    &&& a.len() == b.len()
    &&& forall|i: int| 0 <= i < a.len() ==> ascii_lower(#[trigger] a[i]) == ascii_lower(b[i])
}

fn lower_char(c: char) -> (r: char)
    ensures
        r == ascii_lower(c),
{
    if 'A' <= c && c <= 'Z' {
        ((c as u8) + 32) as char
    } else {
        c
    }
}

/// Compares `a[from..]` with `b` ignoring ASCII case.
pub fn eq_ignore_ascii_case_from(a: &Vec<char>, from: usize, b: &Vec<char>) -> (r: bool)
    requires
        from <= a@.len(),
    ensures
        r == equal_ignoring_ascii_case(a@.subrange(from as int, a@.len() as int), b@),
{
    let n = a.len() - from;
    if n != b.len() {
        return false;
    }
    let mut i: usize = 0;
    while i < n
        invariant
            n == a@.len() - from,
            from + n == a.len(),
            n == b@.len(),
            from <= a@.len(),
            i <= n,
            forall|j: int| 0 <= j < i ==> ascii_lower(a@[from + j]) == ascii_lower(b@[j]),
        decreases n - i,
    {
        if lower_char(a[from + i]) != lower_char(b[i]) {
            assert(a@.subrange(from as int, a@.len() as int)[i as int] == a@[from + i]);
            return false;
        }
        i = i + 1;
    }
    assert forall|j: int| 0 <= j < n implies ascii_lower(
        #[trigger] a@.subrange(from as int, a@.len() as int)[j],
    ) == ascii_lower(b@[j]) by {
        assert(a@.subrange(from as int, a@.len() as int)[j] == a@[from + j]);
    }
    true
}

/// The number written by the ASCII digits `d`.
pub open spec fn digits_value(d: Seq<char>) -> nat
    decreases d.len(),
{
    if d.len() == 0 {
        0
    } else {
        digits_value(d.drop_last()) * 10 + ((d.last() as u32) - ('0' as u32)) as nat
    }
}

/// What `u32::from_str` gives for `s`: an optional leading `+`, then one or more
/// ASCII digits whose value fits in 32 bits.
pub open spec fn parse_u32(s: Seq<char>) -> Option<u32> {
    let d = if s.len() > 0 && s[0] == '+' {
        s.drop_first()
    } else {
        s
    };
    if d.len() == 0 || !all_ascii_digits(d) || digits_value(d) > u32::MAX {
        None
    } else {
        Some(digits_value(d) as u32)
    }
}

proof fn lemma_digits_value_grows(d: Seq<char>, k: int)
    requires
        0 <= k <= d.len(),
        all_ascii_digits(d),
    ensures
        digits_value(d.take(k)) <= digits_value(d),
    decreases d.len(),
{
    if k < d.len() {
        assert(d.drop_last().take(k) =~= d.take(k));
        assert forall|i: int| 0 <= i < d.drop_last().len() implies is_ascii_digit(
            #[trigger] d.drop_last()[i],
        ) by {
            assert(d.drop_last()[i] == d[i]);
        }
        lemma_digits_value_grows(d.drop_last(), k);
    } else {
        assert(d.take(k) =~= d);
    }
}

/// The value of the decimal digits `s[start..]`, where they are all ASCII
/// digits, there is at least one, and the value is at most `limit`.
fn digit_run_value(s: &Vec<char>, start: usize, limit: u64) -> (r: Option<u64>)
    requires
        start <= s@.len(),
        limit <= u32::MAX + 1,
    ensures
        ({
            let d = s@.subrange(start as int, s@.len() as int);
            r == if d.len() > 0 && all_ascii_digits(d) && digits_value(d) <= limit {
                Some(digits_value(d) as u64)
            } else {
                None::<u64>
            }
        }),
{
    let ghost d = s@.subrange(start as int, s@.len() as int);
    if start == s.len() {
        return None;
    }
    let mut value: u64 = 0;
    let mut i = start;
    while i < s.len()
        invariant
            start <= i <= s@.len(),
            start < s@.len(),
            limit <= u32::MAX + 1,
            d == s@.subrange(start as int, s@.len() as int),
            all_ascii_digits(s@.subrange(start as int, i as int)),
            value == digits_value(s@.subrange(start as int, i as int)),
            value <= limit,
        decreases s@.len() - i,
    {
        let c = s[i];
        assert(s@.subrange(start as int, i + 1).drop_last() =~= s@.subrange(start as int, i as int));
        if !('0' <= c && c <= '9') {
            assert(d[i - start] == c);
            assert(!is_ascii_digit(d[i - start]));
            assert(!all_ascii_digits(d));
            return None;
        }
        value = value * 10 + ((c as u32) - ('0' as u32)) as u64;
        assert(s@.subrange(start as int, i + 1).last() == c);
        assert(value == digits_value(s@.subrange(start as int, i + 1)));
        assert forall|j: int| 0 <= j < i + 1 - start implies is_ascii_digit(
            #[trigger] s@.subrange(start as int, i + 1)[j],
        ) by {
            if j < i - start {
                assert(s@.subrange(start as int, i + 1)[j] == s@.subrange(start as int, i as int)[j]);
            }
        }
        if value > limit {
            proof {
                if all_ascii_digits(d) {
                    assert(d.take(i + 1 - start) =~= s@.subrange(start as int, i + 1));
                    lemma_digits_value_grows(d, i + 1 - start);
                }
            }
            return None;
        }
        i = i + 1;
    }
    assert(s@.subrange(start as int, i as int) =~= d);
    Some(value)
}

/// Parses `s[from..]` as `u32::from_str` does: an optional `+`, then one or
/// more ASCII digits whose value fits.
pub fn parse_u32_chars(s: &Vec<char>, from: usize) -> (r: Option<u32>)
    requires
        from <= s@.len(),
    ensures
        r == parse_u32(s@.subrange(from as int, s@.len() as int)),
{
    let ghost t = s@.subrange(from as int, s@.len() as int);
    let mut start = from;
    if start < s.len() && s[start] == '+' {
        start = start + 1;
    }
    assert(s@.subrange(start as int, s@.len() as int) =~= if t.len() > 0 && t[0] == '+' {
        t.drop_first()
    } else {
        t
    });
    match digit_run_value(s, start, 4294967295) {
        Some(v) => Some(v as u32),
        None => None,
    }
}

/// What `i32::from_str` gives for `s`: an optional `+` or `-`, then one or
/// more ASCII digits, where the signed value fits in an `i32`.
pub open spec fn parse_i32(s: Seq<char>) -> Option<i32> {
    let negative = s.len() > 0 && s[0] == '-';
    let d = if s.len() > 0 && (s[0] == '+' || s[0] == '-') {
        s.drop_first()
    } else {
        s
    };
    if d.len() == 0 || !all_ascii_digits(d) {
        None
    } else {
        let v: int = if negative {
            -(digits_value(d) as int)
        } else {
            digits_value(d) as int
        };
        if i32::MIN <= v <= i32::MAX {
            Some(v as i32)
        } else {
            None
        }
    }
}

/// Parses `s[from..]` as `i32::from_str` does.
pub fn parse_i32_chars(s: &Vec<char>, from: usize) -> (r: Option<i32>)
    requires
        from <= s@.len(),
    ensures
        r == parse_i32(s@.subrange(from as int, s@.len() as int)),
{
    let ghost t = s@.subrange(from as int, s@.len() as int);
    let mut start = from;
    let negative = start < s.len() && s[start] == '-';
    if start < s.len() && (s[start] == '+' || s[start] == '-') {
        start = start + 1;
    }
    assert(s@.subrange(start as int, s@.len() as int) =~= if t.len() > 0 && (t[0] == '+' || t[0]
        == '-') {
        t.drop_first()
    } else {
        t
    });
    match digit_run_value(s, start, 2147483648) {
        None => None,
        Some(v) => {
            if negative {
                Some((0i64 - v as i64) as i32)
            } else if v <= 2147483647 {
                Some(v as i32)
            } else {
                None
            }
        },
    }
}

} // verus!
