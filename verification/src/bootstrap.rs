//! Start-up checks over what storage holds: the flush files must carry an
//! unbroken nonce sequence and no half-written file may be left behind, and
//! the clients ledger (one JSON record per line) is turned back into the
//! in-memory registry, every balance starting at zero.
use crate::cache::{ClientState, ClientsMap};
use crate::error::{AppError, BootstrapFailure};
use crate::model::Client;
use crate::money::Money;
use crate::text::{
    chars_of, eq_ignore_ascii_case_from, equal_ignoring_ascii_case, find_first, find_last,
    find_last_before, first_index_of, last_index_before, last_index_of, parse_u32, parse_u32_chars, trim, trim_ws,
};
use std::collections::HashMap;
use vstd::prelude::*;
use vstd::relations::{sorted_by, total_ordering};
use vstd::string::*;

verus! {

broadcast use vstd::std_specs::hash::group_hash_axioms;

/// `name` can be a file name: it is not empty and not one of the special names
/// `.` and `..`.
pub open spec fn is_plain_file_name(name: Seq<char>) -> bool {
    name.len() > 0 && name != seq!['.'] && name != seq!['.', '.']
}

/// `Path::extension` of a file name: what follows the last `.`, unless there is
/// no `.` or the only one starts the name.
pub open spec fn file_extension(name: Seq<char>) -> Option<Seq<char>> {
    if !is_plain_file_name(name) {
        None
    } else {
        match last_index_of(name, '.') {
            None => None,
            Some(k) => if k == 0 {
                None
            } else {
                Some(name.subrange(k + 1, name.len() as int))
            },
        }
    }
}

/// `Path::file_stem` of a file name: what precedes the last `.`, or the whole
/// name when there is no `.` or the only one starts the name.
pub open spec fn file_stem(name: Seq<char>) -> Option<Seq<char>> {
    if !is_plain_file_name(name) {
        None
    } else {
        match last_index_of(name, '.') {
            None => Some(name),
            Some(k) => if k == 0 {
                Some(name)
            } else {
                Some(name.subrange(0, k))
            },
        }
    }
}

/// `Path::file_name` of the part of the Unix path `p` before `end`: its last
/// component that is neither empty (repeated or trailing `/`) nor `.`; none
/// where there is no such component or it is `..`.
pub open spec fn file_name_before(p: Seq<char>, end: int) -> Option<Seq<char>>
    decreases end,
{
    if end <= 0 || end > p.len() {
        None
    } else {
        let k = last_index_before(p, '/', end);
        let start = match k {
            Some(k) => k + 1,
            None => 0,
        };
        let tail = p.subrange(start, end);
        if tail.len() == 0 || tail == seq!['.'] {
            match k {
                Some(k) => if 0 <= k < end {
                    file_name_before(p, k)
                } else {
                    None
                },
                None => None,
            }
        } else if tail == seq!['.', '.'] {
            None
        } else {
            Some(tail)
        }
    }
}

/// `Path::file_name` of the Unix path `p`.
pub open spec fn path_file_name(p: Seq<char>) -> Option<Seq<char>> {
    file_name_before(p, p.len() as int)
}

proof fn lemma_last_index_before_bounds(s: Seq<char>, c: char, end: int)
    requires
        end <= s.len(),
    ensures
        last_index_before(s, c, end) matches Some(k) ==> 0 <= k < end && s[k] == c && forall|
            j: int,
        | k < j < end ==> s[j] != c,
        last_index_before(s, c, end) is None ==> forall|j: int| 0 <= j < end ==> s[j] != c,
    decreases end,
{
    if 0 < end <= s.len() && s[end - 1] != c {
        lemma_last_index_before_bounds(s, c, end - 1);
    }
}

/// A path's file name is a plain file name with no `/` in it.
proof fn lemma_file_name_is_plain(p: Seq<char>, end: int)
    ensures
        file_name_before(p, end) matches Some(n) ==> is_plain_file_name(n) && !n.contains('/'),
    decreases end,
{
    if 0 < end <= p.len() {
        lemma_last_index_before_bounds(p, '/', end);
        let k = last_index_before(p, '/', end);
        let start = match k {
            Some(k) => k + 1,
            None => 0,
        };
        let tail = p.subrange(start, end);
        if tail.len() == 0 || tail == seq!['.'] {
            if let Some(k) = k {
                lemma_file_name_is_plain(p, k);
            }
        } else if tail != seq!['.', '.'] {
            assert forall|j: int| 0 <= j < tail.len() implies tail[j] != '/' by {
                assert(tail[j] == p[start + j]);
            }
        }
    }
}

/// A name with no `/` in it is its own file name, unless it is empty, `.` or
/// `..`.
pub proof fn lemma_bare_name_is_its_file_name(name: Seq<char>)
    requires
        !name.contains('/'),
        is_plain_file_name(name),
    ensures
        path_file_name(name) == Some(name),
{
    lemma_last_index_before_bounds(name, '/', name.len() as int);
    if let Some(k) = last_index_before(name, '/', name.len() as int) {
        assert(name[k] == '/');
    }
    assert(name.subrange(0, name.len() as int) =~= name);
}

/// The file name of the path `p`, as `Path::file_name` gives it.
pub fn path_file_name_chars(p: &Vec<char>) -> (r: Option<Vec<char>>)
    ensures
        r matches Some(n) ==> path_file_name(p@) == Some(n@),
        r is None ==> path_file_name(p@) is None,
{
    let mut end = p.len();
    loop
        invariant
            end <= p@.len(),
            path_file_name(p@) == file_name_before(p@, end as int),
        decreases end,
    {
        if end == 0 {
            return None;
        }
        let k = find_last_before(p, '/', end);
        let start = match k {
            Some(k) => k + 1,
            None => 0,
        };
        let ghost tail = p@.subrange(start as int, end as int);
        let len = end - start;
        if len == 0 || (len == 1 && p[start] == '.') {
            proof {
                if len == 1 {
                    assert(tail =~= seq!['.']);
                }
            }
            match k {
                Some(k) => {
                    end = k;
                },
                None => {
                    return None;
                },
            }
        } else if len == 2 && p[start] == '.' && p[start + 1] == '.' {
            assert(tail =~= seq!['.', '.']);
            return None;
        } else {
            proof {
                if tail =~= seq!['.'] {
                    assert(tail[0] == '.');
                }
                if tail =~= seq!['.', '.'] {
                    assert(tail[0] == '.' && tail[1] == '.');
                }
            }
            let mut out: Vec<char> = Vec::new();
            let mut i = start;
            while i < end
                invariant
                    start <= i <= end <= p@.len(),
                    out@ == p@.subrange(start as int, i as int),
                decreases end - i,
            {
                out.push(p[i]);
                assert(p@.subrange(start as int, i + 1) =~= p@.subrange(start as int, i as int).push(
                    p@[i as int],
                ));
                i = i + 1;
            }
            return Some(out);
        }
    }
}

/// The file at `path` has extension `ext`, ignoring ASCII case:
/// `Path::extension` then `eq_ignore_ascii_case`.
pub open spec fn has_extension_spec(path: Seq<char>, ext: Seq<char>) -> bool {
    match path_file_name(path) {
        Some(name) => match file_extension(name) {
            Some(e) => equal_ignoring_ascii_case(e, ext),
            None => false,
        },
        None => false,
    }
}

/// Whether the file at `path` has the extension `ext`, ignoring ASCII case.
pub fn has_extension(path: &str, ext: &str) -> (r: bool)
    ensures
        r == has_extension_spec(path@, ext@),
{
    let p = chars_of(path);
    let e = chars_of(ext);
    let name = match path_file_name_chars(&p) {
        None => {
            return false;
        },
        Some(n) => n,
    };
    proof {
        lemma_file_name_is_plain(p@, p@.len() as int);
    }
    let n = name.len();
    match find_last(&name, '.') {
        None => false,
        Some(k) => {
            if k == 0 {
                false
            } else {
                assert(k < n);
                eq_ignore_ascii_case_from(&name, k + 1, &e)
            }
        },
    }
}

/// Whether `chrono::NaiveDate::parse_from_str(s, format)` accepts `s`.
pub uninterp spec fn chrono_accepts_date(s: Seq<char>, format: Seq<char>) -> bool;

/// The format flush file names write their day in: `%d%m%Y`.
pub open spec fn ddmmyyyy_format() -> Seq<char> {
    seq!['%', 'd', '%', 'm', '%', 'Y']
}

/// `chrono::NaiveDate::parse_from_str(text, format).is_ok()` where `text` is
/// the characters `s[from..to]`. What chrono accepts is only named here.
#[verifier::external_body]
fn parses_as_date(s: &Vec<char>, from: usize, to: usize, format: &str) -> (r: bool)
    requires
        from <= to <= s@.len(),
    ensures
        r == chrono_accepts_date(s@.subrange(from as int, to as int), format@),
{
    let text: String = s[from..to].iter().collect();
    chrono::NaiveDate::parse_from_str(&text, format).is_ok()
}

/// The flush nonce a file name carries: the stem must be `<date>_<counter>`
/// where the date is accepted as `ddmmyyyy` and the counter reads as a `u32`.
pub open spec fn nonce_in_file_name(path: Seq<char>) -> Option<u32> {
    match path_file_name(path) {
        None => None,
        Some(name) => match file_stem(name) {
            None => None,
            Some(stem) => match first_index_of(stem, '_') {
                None => None,
                Some(u) => nonce_from_parts(
                    chrono_accepts_date(stem.subrange(0, u), ddmmyyyy_format()),
                    stem.subrange(u + 1, stem.len() as int),
                ),
            },
        },
    }
}

/// The nonce a `<date>_<counter>` stem carries, given whether its date part was
/// accepted.
pub open spec fn nonce_from_parts(date_accepted: bool, counter: Seq<char>) -> Option<u32> {
    if date_accepted {
        parse_u32(counter)
    } else {
        None
    }
}

/// The nonce of a stem's counter part once its date part has been judged.
pub fn nonce_from_counter(date_accepted: bool, counter: &str) -> (r: Option<u32>)
    ensures
        r == nonce_from_parts(date_accepted, counter@),
{
    if !date_accepted {
        return None;
    }
    let c = chars_of(counter);
    assert(c@.subrange(0, c@.len() as int) =~= c@);
    parse_u32_chars(&c, 0)
}

/// Extracts the nonce only from files named `ddmmyyyy_<nonce>.<ext>`.
pub fn extract_nonce_from_filename(path: &str) -> (r: Option<u32>)
    ensures
        r == nonce_in_file_name(path@),
{
    let p = chars_of(path);
    let name = match path_file_name_chars(&p) {
        None => {
            return None;
        },
        Some(n) => n,
    };
    proof {
        lemma_file_name_is_plain(p@, p@.len() as int);
    }
    let stem_end = match find_last(&name, '.') {
        None => name.len(),
        Some(k) => if k == 0 {
            name.len()
        } else {
            k
        },
    };
    let ghost stem = name@.subrange(0, stem_end as int);
    assert(file_stem(name@) == Some(stem)) by {
        if stem_end == name@.len() {
            assert(name@.subrange(0, stem_end as int) =~= name@);
        }
    }
    let mut stem_chars: Vec<char> = Vec::new();
    let mut i: usize = 0;
    while i < stem_end
        invariant
            i <= stem_end <= name@.len(),
            stem_chars@ == name@.subrange(0, i as int),
        decreases stem_end - i,
    {
        stem_chars.push(name[i]);
        assert(name@.subrange(0, i + 1) =~= name@.subrange(0, i as int).push(name@[i as int]));
        i = i + 1;
    }
    assert(stem_chars@ =~= stem);
    match find_first(&stem_chars, '_') {
        None => None,
        Some(u) => {
            let format = "%d%m%Y";
            proof {
                reveal_strlit("%d%m%Y");
                assert(format@ =~= ddmmyyyy_format());
            }
            let date_ok = parses_as_date(&stem_chars, 0, u, format);
            if !date_ok {
                return None;
            }
            parse_u32_chars(&stem_chars, u + 1)
        },
    }
}

/// A directory entry as start-up sees it: its name, and whether it is a
/// regular file.
#[derive(Clone, Debug, PartialEq, Eq)]
pub struct DirEntryInfo {
    pub file_name: String,
    pub is_file: bool,
}

pub open spec fn tmp_ext() -> Seq<char> {
    seq!['t', 'm', 'p']
}

pub open spec fn dat_ext() -> Seq<char> {
    seq!['d', 'a', 't']
}

/// An orphan temporary file: a regular file with the `.tmp` extension.
pub open spec fn is_orphan_tmp(e: DirEntryInfo) -> bool {
    e.is_file && has_extension_spec(e.file_name@, tmp_ext())
}

/// The nonces carried by the regular `.dat` files among `entries`, in order.
pub open spec fn nonces_of(entries: Seq<DirEntryInfo>) -> Seq<u32>
    decreases entries.len(),
{
    if entries.len() == 0 {
        Seq::empty()
    } else {
        let e = entries.last();
        let rest = nonces_of(entries.drop_last());
        if e.is_file && has_extension_spec(e.file_name@, dat_ext()) {
            match nonce_in_file_name(e.file_name@) {
                Some(n) => rest.push(n),
                None => rest,
            }
        } else {
            rest
        }
    }
}

/// Scans the data directory's entries: rejects any orphan `.tmp` file and
/// collects the nonces from regular files named `ddmmyyyy_<nonce>.dat`.
pub fn collect_nonces(entries: &Vec<DirEntryInfo>) -> (r: Result<Vec<u32>, AppError>)
    ensures
        (exists|i: int| 0 <= i < entries@.len() && is_orphan_tmp(#[trigger] entries@[i])) ==> r
            == Err::<Vec<u32>, AppError>(AppError::Bootstrap(BootstrapFailure::OrphanTmpFile)),
        !(exists|i: int| 0 <= i < entries@.len() && is_orphan_tmp(#[trigger] entries@[i])) ==> (r
            matches Ok(v) && v@ == nonces_of(entries@)),
{
    let tmp = "tmp";
    let dat = "dat";
    proof {
        reveal_strlit("tmp");
        reveal_strlit("dat");
        assert(tmp@ =~= tmp_ext());
        assert(dat@ =~= dat_ext());
    }
    let mut nonces: Vec<u32> = Vec::new();
    let mut i: usize = 0;
    assert(entries@.take(0) =~= Seq::<DirEntryInfo>::empty());
    while i < entries.len()
        invariant
            i <= entries@.len(),
            tmp@ == tmp_ext(),
            dat@ == dat_ext(),
            forall|j: int| 0 <= j < i ==> !is_orphan_tmp(#[trigger] entries@[j]),
            nonces@ == nonces_of(entries@.take(i as int)),
        decreases entries@.len() - i,
    {
        let entry = &entries[i];
        assert(entries@.take(i + 1).drop_last() =~= entries@.take(i as int));
        if !entry.is_file {
            i = i + 1;
            continue;
        }
        if has_extension(entry.file_name.as_str(), tmp) {
            assert(is_orphan_tmp(entries@[i as int]));
            return Err(AppError::Bootstrap(BootstrapFailure::OrphanTmpFile));
        }
        if has_extension(entry.file_name.as_str(), dat) {
            if let Some(n) = extract_nonce_from_filename(entry.file_name.as_str()) {
                nonces.push(n);
            }
        }
        i = i + 1;
    }
    assert(entries@.take(i as int) =~= entries@);
    Ok(nonces)
}

/// The order nonces are sorted by.
pub open spec fn nonce_leq() -> spec_fn(u32, u32) -> bool {
    |a: u32, b: u32| a <= b
}

/// `slice::sort_unstable` on `u32`s: the same values, in ascending order.
#[verifier::external_body]
fn sort_nonces(v: &mut Vec<u32>)
    ensures
        final(v)@.to_multiset() == old(v)@.to_multiset(),
        sorted_by(final(v)@, nonce_leq()),
{
    v.sort_unstable();
}

/// The first position at or after `from` where the sorted nonces `s` do not
/// hold the value one past the position (as the 32-bit count the check uses).
pub open spec fn first_out_of_place(s: Seq<u32>, from: int) -> Option<int>
    decreases s.len() - from,
{
    if from < 0 || from >= s.len() {
        None
    } else if s[from] != #[verifier::truncate] ((from + 1) as u32) {
        Some(from)
    } else {
        first_out_of_place(s, from + 1)
    }
}

/// The verdict on a set of flush nonces: sorted, they must read `1, 2, ..., N`;
/// the answer is `N` (zero for none), or the first position, counting from one,
/// where the sequence breaks.
pub open spec fn nonce_sequence_verdict(nonces: Seq<u32>) -> Result<u32, AppError> {
    let s = nonces.sort_by(nonce_leq());
    match first_out_of_place(s, 0) {
        Some(i) => Err(
            AppError::Bootstrap(
                BootstrapFailure::BrokenNonceSequence { index: #[verifier::truncate] ((i + 1) as u32) },
            ),
        ),
        None => Ok(
            if s.len() == 0 {
                0u32
            } else {
                s.last()
            },
        ),
    }
}

proof fn lemma_sorted_is_sort_by(v: Seq<u32>, nonces: Seq<u32>)
    requires
        v.to_multiset() == nonces.to_multiset(),
        sorted_by(v, nonce_leq()),
    ensures
        v == nonces.sort_by(nonce_leq()),
{
    let leq = nonce_leq();
    assert(total_ordering(leq)) by {
        assert(vstd::relations::reflexive(leq));
        assert(vstd::relations::transitive(leq));
        assert(vstd::relations::antisymmetric(leq));
        assert(vstd::relations::strongly_connected(leq));
    }
    nonces.lemma_sort_by_ensures(leq);
    vstd::seq_lib::lemma_sorted_unique(v, nonces.sort_by(leq), leq);
}

/// Validates that nonces form an unbroken sequence from 1 to N, returning N.
/// An empty input (fresh system) resolves to `0`.
pub fn validate_nonce_sequence(nonces: Vec<u32>) -> (r: Result<u32, AppError>)
    ensures
        r == nonce_sequence_verdict(nonces@),
{
    let ghost original = nonces@;
    let mut sorted = nonces;
    sort_nonces(&mut sorted);
    proof {
        lemma_sorted_is_sort_by(sorted@, original);
    }
    let mut index: usize = 0;
    while index < sorted.len()
        invariant
            index <= sorted@.len(),
            sorted@ == original.sort_by(nonce_leq()),
            original == nonces@,
            first_out_of_place(sorted@, 0) == first_out_of_place(sorted@, index as int),
        decreases sorted@.len() - index,
    {
        let expected = #[verifier::truncate] ((index + 1) as u32);
        assert(expected == #[verifier::truncate] ((index as int + 1) as u32));
        if sorted[index] != expected {
            return Err(
                AppError::Bootstrap(BootstrapFailure::BrokenNonceSequence { index: expected }),
            );
        }
        index = index + 1;
    }
    if sorted.len() == 0 {
        Ok(0)
    } else {
        Ok(sorted[sorted.len() - 1])
    }
}

/// A line without one trailing carriage return.
pub open spec fn strip_cr(l: Seq<char>) -> Seq<char> {
    if l.len() > 0 && l.last() == '\r' {
        l.drop_last()
    } else {
        l
    }
}

/// What `str::lines` yields for `s`: the pieces between line feeds, a final
/// line feed ending the last piece rather than starting an empty one, and one
/// carriage return dropped before each line feed.
pub open spec fn lines_of(s: Seq<char>) -> Seq<Seq<char>>
    decreases s.len(),
{
    if s.len() == 0 {
        Seq::empty()
    } else {
        match first_index_of(s, '\n') {
            Some(k) => if 0 <= k < s.len() {
                seq![strip_cr(s.subrange(0, k))] + lines_of(s.subrange(k + 1, s.len() as int))
            } else {
                seq![s]
            },
            None => seq![s],
        }
    }
}

/// `str::lines`, each line copied into a `String`.
#[verifier::external_body]
fn lines(s: &str) -> (r: Vec<String>)
    ensures
        r@.len() == lines_of(s@).len(),
        forall|i: int| 0 <= i < r@.len() ==> (#[trigger] r@[i])@ == lines_of(s@)[i],
{
    s.lines().map(String::from).collect()
}

/// The records of a ledger whose lines are `lines`: each line that is not blank
/// once trimmed, trimmed, with its line number counting from one.
pub open spec fn ledger_entries(lines: Seq<Seq<char>>) -> Seq<(int, Seq<char>)>
    decreases lines.len(),
{
    if lines.len() == 0 {
        Seq::empty()
    } else {
        let rest = ledger_entries(lines.drop_last());
        let t = trim_ws(lines.last());
        if t.len() == 0 {
            rest
        } else {
            rest.push((lines.len() as int, t))
        }
    }
}

/// Splits the clients ledger into its records: each non-blank line, trimmed,
/// with its line number (counting from one) for error reports.
pub fn ledger_records(content: &str) -> (r: Vec<(usize, String)>)
    ensures
        r@.len() == ledger_entries(lines_of(content@)).len(),
        forall|i: int|
            0 <= i < r@.len() ==> (#[trigger] r@[i]).0 == ledger_entries(lines_of(content@))[i].0
                && r@[i].1@ == ledger_entries(lines_of(content@))[i].1,
{
    let all = lines(content);
    let ghost ls = lines_of(content@);
    let mut out: Vec<(usize, String)> = Vec::new();
    let mut i: usize = 0;
    assert(ls.take(0) =~= Seq::<Seq<char>>::empty());
    while i < all.len()
        invariant
            i <= all@.len(),
            all@.len() == ls.len(),
            forall|j: int| 0 <= j < all@.len() ==> (#[trigger] all@[j])@ == ls[j],
            out@.len() == ledger_entries(ls.take(i as int)).len(),
            forall|j: int|
                0 <= j < out@.len() ==> (#[trigger] out@[j]).0 == ledger_entries(ls.take(i as int))[j].0
                    && out@[j].1@ == ledger_entries(ls.take(i as int))[j].1,
        decreases all@.len() - i,
    {
        assert(ls.take(i + 1).drop_last() =~= ls.take(i as int));
        assert(ls.take(i + 1).last() == ls[i as int]);
        let t = trim(all[i].as_str());
        if !t.is_empty() {
            out.push((i + 1, String::from_str(t)));
        }
        i = i + 1;
    }
    assert(ls.take(i as int) =~= ls);
    out
}

/// The registry rebuilt from the ledger's records, in order: each client with
/// a zero balance, a later record for the same identifier replacing an
/// earlier one.
pub open spec fn hydrated(records: Seq<Client>) -> Map<u128, ClientState>
    decreases records.len(),
{
    if records.len() == 0 {
        Map::empty()
    } else {
        hydrated(records.drop_last()).insert(
            records.last().client_id,
            ClientState { details: records.last().details, balance: Money::zero_spec() },
        )
    }
}

/// Rebuilds the in-memory registry from the ledger's client records. Balances
/// always come back at zero: only client metadata is rehydrated.
pub fn hydrate_clients(records: &Vec<Client>) -> (r: ClientsMap)
    ensures
        r@ == hydrated(records@),
        forall|id: u128| #[trigger] r@.contains_key(id) ==> r@[id].balance.wf(),
{
    let mut map: ClientsMap = HashMap::new();
    let mut i: usize = 0;
    assert(records@.take(0) =~= Seq::<Client>::empty());
    while i < records.len()
        invariant
            i <= records@.len(),
            map@ == hydrated(records@.take(i as int)),
            forall|id: u128| #[trigger] map@.contains_key(id) ==> map@[id].balance == Money::zero_spec(),
        decreases records@.len() - i,
    {
        assert(records@.take(i + 1).drop_last() =~= records@.take(i as int));
        let record = &records[i];
        map.insert(
            record.client_id,
            ClientState { details: record.details.duplicate(), balance: Money::zero() },
        );
        i = i + 1;
    }
    assert(records@.take(i as int) =~= records@);
    map
}

} // verus!
