//! Properties of the library that span several operations.
use crate::api::dto::ClientDetails;
use crate::api::handlers::registration_refusal;
use crate::bootstrap::{
    chrono_accepts_date, dat_ext, ddmmyyyy_format, file_extension, file_stem, has_extension_spec, hydrated,
    is_plain_file_name, lemma_bare_name_is_its_file_name, nonce_in_file_name, nonce_leq, nonce_sequence_verdict, first_out_of_place,
    tmp_ext,
};
use crate::cache::{
    apply_direction, clean_is_zero, ids_of, is_dirty_snapshot, lemma_settle_keeps_clean_zero, settle_all,
    settle_step, Cache, ClientState,
};
use crate::domain::bootstrap::book_of;
use crate::domain::cache::{balance_change, entries_valid, persist_all, persist_step, ClientEntry};
use crate::domain::client::Client as BookClient;
use crate::error::AppError;
use crate::model::{Client, TransactionDirection};
use crate::storage::{
    abs,    balance_file_name_text, decimal_numeral, digit_char, i32_text, temporary_file_name_text,
};
use crate::text::{
    all_ascii_digits, digits_value, equal_ignoring_ascii_case, first_index_of, index_of_from,
    last_index_before, last_index_of, parse_u32,
};
use crate::money::{
    decimal_difference, decimal_sum, difference_is_exact, lemma_difference_value, lemma_self_difference_exact,
    lemma_sum_value, lemma_zero_units, pow10, sum_is_exact, Money, MAX_SCALE,
};
use vstd::prelude::*;

verus! {

/// A transaction as the balance book sees it: client, amount, direction.
pub type Transaction = (u128, Money, TransactionDirection);

/// The transaction is exact on `balance`: no rounding is needed.
pub open spec fn transaction_is_exact(balance: Money, tx: Transaction) -> bool {
    match tx.2 {
        TransactionDirection::Credit => sum_is_exact(balance, tx.1),
        TransactionDirection::Debit => difference_is_exact(balance, tx.1),
    }
}

/// The signed value of a transaction, in units of 10^-28.
pub open spec fn signed_units(tx: Transaction) -> int {
    match tx.2 {
        TransactionDirection::Credit => tx.1.units(),
        TransactionDirection::Debit => -tx.1.units(),
    }
}

/// The balances after applying `txs` in order, as `process_transaction` does: a
/// transaction for an unknown client changes nothing (and one that would
/// overflow is not applied).
pub open spec fn balances_after(b: Map<u128, Money>, txs: Seq<Transaction>) -> Map<u128, Money>
    decreases txs.len(),
{
    if txs.len() == 0 {
        b
    } else {
        let before = balances_after(b, txs.drop_last());
        let tx = txs.last();
        if before.contains_key(tx.0) {
            match apply_direction(before[tx.0], tx.1, tx.2) {
                Some(nb) => before.insert(tx.0, nb),
                None => before,
            }
        } else {
            before
        }
    }
}

/// The dirty set after applying `txs`: every client a transaction reached.
pub open spec fn dirty_after(b: Map<u128, Money>, d: Set<u128>, txs: Seq<Transaction>) -> Set<u128>
    decreases txs.len(),
{
    if txs.len() == 0 {
        d
    } else {
        let before = dirty_after(b, d, txs.drop_last());
        if b.contains_key(txs.last().0) {
            before.insert(txs.last().0)
        } else {
            before
        }
    }
}

/// Every transaction of `txs` is exact on the balance it meets.
pub open spec fn transactions_exact(b: Map<u128, Money>, txs: Seq<Transaction>) -> bool
    decreases txs.len(),
{
    if txs.len() == 0 {
        true
    } else {
        let before = balances_after(b, txs.drop_last());
        &&& transactions_exact(b, txs.drop_last())
        &&& before.contains_key(txs.last().0) ==> transaction_is_exact(
            before[txs.last().0],
            txs.last(),
        )
    }
}

/// The net value of the transactions of `txs` on client `id`.
pub open spec fn net_units(txs: Seq<Transaction>, id: u128) -> int
    decreases txs.len(),
{
    if txs.len() == 0 {
        0
    } else {
        net_units(txs.drop_last(), id) + if txs.last().0 == id {
            signed_units(txs.last())
        } else {
            0
        }
    }
}

pub open spec fn all_valid(b: Map<u128, Money>) -> bool {
    forall|id: u128| #[trigger] b.contains_key(id) ==> b[id].wf()
}

/// Applying exact transactions adds their net value to each balance, and marks
/// exactly the clients they reached as dirty.
pub proof fn lemma_transactions_add_up(
    b: Map<u128, Money>,
    d: Set<u128>,
    txs: Seq<Transaction>,
)
    requires
        all_valid(b),
        forall|i: int| 0 <= i < txs.len() ==> (#[trigger] txs[i]).1.wf(),
        transactions_exact(b, txs),
    ensures
        balances_after(b, txs).dom() == b.dom(),
        all_valid(balances_after(b, txs)),
        forall|id: u128| #[trigger]
            b.contains_key(id) ==> balances_after(b, txs)[id].units() == b[id].units() + net_units(
                txs,
                id,
            ),
        forall|id: u128| #[trigger]
            d.contains(id) ==> dirty_after(b, d, txs).contains(id),
        forall|id: u128| #[trigger]
            dirty_after(b, d, txs).contains(id) ==> d.contains(id) || b.contains_key(id),
    decreases txs.len(),
{
    if txs.len() > 0 {
        let rest = txs.drop_last();
        assert forall|i: int| 0 <= i < rest.len() implies (#[trigger] rest[i]).1.wf() by {
            assert(rest[i] == txs[i]);
        }
        lemma_transactions_add_up(b, d, rest);
        assert forall|id: u128| #[trigger]
            dirty_after(b, d, txs).contains(id) implies d.contains(id) || b.contains_key(id) by {
            if !(id == txs.last().0 && b.contains_key(id)) {
                assert(dirty_after(b, d, rest).contains(id));
            }
        }
        assert forall|id: u128| #[trigger] d.contains(id) implies dirty_after(b, d, txs).contains(id) by {
            assert(dirty_after(b, d, rest).contains(id));
        }
        let before = balances_after(b, rest);
        let tx = txs.last();
        assert(tx.1.wf());
        if before.contains_key(tx.0) {
            match tx.2 {
                TransactionDirection::Credit => lemma_sum_value(before[tx.0], tx.1),
                TransactionDirection::Debit => lemma_difference_value(before[tx.0], tx.1),
            }
            assert(balances_after(b, txs).dom() =~= b.dom());
        }
    }
}

/// Settling a snapshot whose clients are distinct, where every subtraction is
/// exact: each listed client's balance loses exactly the listed amount and
/// stays dirty only if it is not zero; everyone else is untouched.
#[verifier::rlimit(40)]
pub proof fn lemma_settle_distinct(b: Map<u128, Money>, d: Set<u128>, snapshot: Seq<(u128, Money)>)
    requires
        all_valid(b),
        forall|i: int| 0 <= i < snapshot.len() ==> (#[trigger] snapshot[i]).1.wf(),
        snapshot.map_values(|e: (u128, Money)| e.0).no_duplicates(),
        forall|i: int|
            0 <= i < snapshot.len() && b.contains_key(#[trigger] snapshot[i].0) ==> difference_is_exact(
                b[snapshot[i].0],
                snapshot[i].1,
            ),
    ensures
        settle_all(b, d, snapshot) matches Some((b2, d2)) && b2.dom() == b.dom() && all_valid(b2)
            && (forall|id: u128| #[trigger] d2.contains(id) ==> d.contains(id)) && (forall|i: int|
            0 <= i < snapshot.len() && b.contains_key(#[trigger] snapshot[i].0) ==> b2[snapshot[i].0].units()
                == b[snapshot[i].0].units() - snapshot[i].1.units() && (d2.contains(snapshot[i].0)
                <==> d.contains(snapshot[i].0) && b2[snapshot[i].0].mantissa != 0)) && (forall|id: u128|
            !snapshot.map_values(|e: (u128, Money)| e.0).contains(id) ==> #[trigger] b2.contains_key(id)
                == b.contains_key(id) && (b.contains_key(id) ==> b2[id] == b[id]) && (d2.contains(id)
                <==> d.contains(id))),
    decreases snapshot.len(),
{
    let ids = snapshot.map_values(|e: (u128, Money)| e.0);
    if snapshot.len() > 0 {
        let rest = snapshot.drop_last();
        let rest_ids = rest.map_values(|e: (u128, Money)| e.0);
        assert(rest_ids =~= ids.drop_last());
        assert forall|i: int| 0 <= i < rest.len() implies (#[trigger] rest[i]).1.wf() by {
            assert(rest[i] == snapshot[i]);
        }
        assert forall|i: int|
            0 <= i < rest.len() && b.contains_key(#[trigger] rest[i].0) implies difference_is_exact(
            b[rest[i].0],
            rest[i].1,
        ) by {
            assert(rest[i] == snapshot[i]);
        }
        assert(rest_ids.no_duplicates()) by {
            assert forall|i: int, j: int|
                0 <= i < rest_ids.len() && 0 <= j < rest_ids.len() && i != j implies rest_ids[i]
                != rest_ids[j] by {
                assert(rest_ids[i] == ids[i] && rest_ids[j] == ids[j]);
            }
        }
        lemma_settle_distinct(b, d, rest);
        let (b1, d1) = settle_all(b, d, rest).unwrap();
        let last = snapshot.last();
        let n = snapshot.len() - 1;
        assert(last == snapshot[n]);
        assert(!rest_ids.contains(last.0)) by {
            if rest_ids.contains(last.0) {
                let j = choose|j: int| 0 <= j < rest_ids.len() && rest_ids[j] == last.0;
                assert(ids[j] == ids[n]);
            }
        }
        if b.contains_key(last.0) {
            assert(b1[last.0] == b[last.0]);
            lemma_difference_value(b1[last.0], last.1);
            let nb = decimal_difference(b1[last.0], last.1).unwrap();
            assert(settle_step(b1, d1, last) == Some(
                (b1.insert(last.0, nb), if nb.mantissa == 0 {
                    d1.remove(last.0)
                } else {
                    d1
                }),
            ));
        }
        let (b2, d2) = settle_all(b, d, snapshot).unwrap();
        assert(b2.dom() =~= b.dom());
        assert forall|i: int|
            0 <= i < snapshot.len() && b.contains_key(#[trigger] snapshot[i].0) implies b2[snapshot[i].0].units()
            == b[snapshot[i].0].units() - snapshot[i].1.units() && (d2.contains(snapshot[i].0)
            <==> d.contains(snapshot[i].0) && b2[snapshot[i].0].mantissa != 0) by {
            if i < n {
                assert(rest[i] == snapshot[i]);
                assert(ids[i] != ids[n]);
            }
        }
        assert forall|id: u128|
            !ids.contains(id) implies #[trigger] b2.contains_key(id) == b.contains_key(id) && (b.contains_key(id)
            ==> b2[id] == b[id]) && (d2.contains(id) <==> d.contains(id)) by {
            assert(id != last.0) by {
                assert(ids[n] == last.0);
            }
            if rest_ids.contains(id) {
                let j = choose|j: int| 0 <= j < rest_ids.len() && rest_ids[j] == id;
                assert(ids[j] == id);
            }
            assert(!rest_ids.contains(id));
            assert(b1.contains_key(id) == b.contains_key(id));
            assert(b.contains_key(id) ==> b1[id] == b[id]);
            assert(d1.contains(id) <==> d.contains(id));
            if b.contains_key(last.0) {
                let nb = decimal_difference(b1[last.0], last.1).unwrap();
                assert(b2 == b1.insert(last.0, nb));
                assert(d2.contains(id) <==> d1.contains(id));
            } else {
                assert(b2 == b1 && d2 == d1);
            }
        }
    }
}

/// A balance flush never loses or double-counts a transaction. Take a snapshot
/// of the dirty balances, let any exact transactions land while the snapshot
/// is being stored, then settle the snapshot: every flushed client is left
/// holding exactly the net value of the transactions that landed after the
/// snapshot, and stays dirty exactly when that is not zero; every other client
/// keeps the balance and dirtiness the transactions gave it.
pub proof fn law_flush_keeps_late_transactions(
    b0: Map<u128, Money>,
    d0: Set<u128>,
    snapshot: Seq<(u128, Money)>,
    txs: Seq<Transaction>,
)
    requires
        all_valid(b0),
        forall|id: u128| #[trigger] d0.contains(id) ==> b0.contains_key(id),
        is_dirty_snapshot(b0, d0, snapshot),
        forall|i: int| 0 <= i < txs.len() ==> (#[trigger] txs[i]).1.wf(),
        transactions_exact(b0, txs),
        forall|id: u128| #[trigger]
            d0.contains(id) ==> difference_is_exact(balances_after(b0, txs)[id], b0[id]),
    ensures
        ({
            let b1 = balances_after(b0, txs);
            let d1 = dirty_after(b0, d0, txs);
            settle_all(b1, d1, snapshot) matches Some((b2, d2)) && b2.dom() == b0.dom() && all_valid(
                b2,
            ) && (forall|id: u128| #[trigger] d2.contains(id) ==> d1.contains(id)) && (forall|
                id: u128,
            | #[trigger]
                d0.contains(id) ==> b2[id].units() == net_units(txs, id) && (d2.contains(id) <==> b2[id].mantissa
                    != 0)) && (forall|id: u128| #[trigger]
                b0.contains_key(id) && !d0.contains(id) ==> b2[id] == b1[id] && (d2.contains(id)
                    <==> d1.contains(id)))
        }),
{
    let b1 = balances_after(b0, txs);
    let d1 = dirty_after(b0, d0, txs);
    lemma_transactions_add_up(b0, d0, txs);
    let ids = snapshot.map_values(|e: (u128, Money)| e.0);
    assert forall|i: int| 0 <= i < snapshot.len() implies (#[trigger] snapshot[i]).1.wf() by {
        assert(ids[i] == snapshot[i].0);
        assert(ids.to_set().contains(ids[i]));
    }
    assert forall|i: int|
        0 <= i < snapshot.len() && b1.contains_key(#[trigger] snapshot[i].0) implies difference_is_exact(
        b1[snapshot[i].0],
        snapshot[i].1,
    ) by {
        assert(ids[i] == snapshot[i].0);
        assert(ids.to_set().contains(ids[i]));
    }
    lemma_settle_distinct(b1, d1, snapshot);
    let (b2, d2) = settle_all(b1, d1, snapshot).unwrap();
    assert forall|id: u128| #[trigger]
        d0.contains(id) implies b2[id].units() == net_units(txs, id) && (d2.contains(id) <==> b2[id].mantissa
        != 0) by {
        assert(ids.to_set().contains(id));
        let i = choose|i: int| 0 <= i < ids.len() && ids[i] == id;
        assert(snapshot[i].0 == id);
        assert(snapshot[i].1 == b0[id]);
        lemma_zero_units(b2[id]);
    }
    assert forall|id: u128| #[trigger]
        b0.contains_key(id) && !d0.contains(id) implies b2[id] == b1[id] && (d2.contains(id)
        <==> d1.contains(id)) by {
        assert(!ids.contains(id));
    }
}

/// A flush with nothing landing in between brings every flushed balance to
/// zero and leaves no client dirty.
pub proof fn law_quiet_flush_clears_everything(
    b0: Map<u128, Money>,
    d0: Set<u128>,
    snapshot: Seq<(u128, Money)>,
)
    requires
        all_valid(b0),
        forall|id: u128| #[trigger] d0.contains(id) ==> b0.contains_key(id),
        is_dirty_snapshot(b0, d0, snapshot),
    ensures
        settle_all(b0, d0, snapshot) matches Some((b2, d2)) && d2.is_empty() && b2.dom() == b0.dom()
            && (forall|id: u128| #[trigger]
            d0.contains(id) ==> b2[id].mantissa == 0) && (forall|id: u128| #[trigger]
            b0.contains_key(id) && !d0.contains(id) ==> b2[id] == b0[id]),
{
    let txs = Seq::<Transaction>::empty();
    assert forall|id: u128| #[trigger] d0.contains(id) implies difference_is_exact(
        balances_after(b0, txs)[id],
        b0[id],
    ) by {
        lemma_self_difference_exact(b0[id]);
    }
    law_flush_keeps_late_transactions(b0, d0, snapshot, txs);
    let (b2, d2) = settle_all(b0, d0, snapshot).unwrap();
    assert forall|id: u128| #[trigger] d0.contains(id) implies b2[id].mantissa == 0 by {
        assert(b2.contains_key(id));
        lemma_zero_units(b2[id]);
    }
    assert(d2 =~= Set::<u128>::empty()) by {
        assert forall|id: u128| !d2.contains(id) by {
            if d2.contains(id) {
                assert(dirty_after(b0, d0, txs).contains(id));
                assert(d0.contains(id));
            }
        }
    }
}

/// The unbroken nonce sequence `1, 2, ..., n`.
pub open spec fn one_to(n: nat) -> Seq<u32> {
    Seq::new(n, |i: int| (i + 1) as u32)
}

proof fn lemma_in_place_from(s: Seq<u32>, from: int)
    requires
        0 <= from,
        forall|k: int| from <= k < s.len() ==> s[k] == #[trigger] ((k + 1) as u32),
    ensures
        first_out_of_place(s, from) is None,
    decreases s.len() - from,
{
    if from < s.len() {
        lemma_in_place_from(s, from + 1);
    }
}

proof fn lemma_none_out_of_place(s: Seq<u32>, from: int)
    requires
        0 <= from,
        first_out_of_place(s, from) is None,
    ensures
        forall|k: int| from <= k < s.len() ==> s[k] == #[trigger] ((k + 1) as u32),
    decreases s.len() - from,
{
    if from < s.len() {
        lemma_none_out_of_place(s, from + 1);
    }
}

proof fn lemma_leq_total()
    ensures
        vstd::relations::total_ordering(nonce_leq()),
{
    let leq = nonce_leq();
    assert(vstd::relations::reflexive(leq));
    assert(vstd::relations::transitive(leq));
    assert(vstd::relations::antisymmetric(leq));
    assert(vstd::relations::strongly_connected(leq));
}

/// Start-up accepts any unbroken set of flush nonces `1..=n`, in whatever order
/// the directory lists them, and resumes from `n`.
pub proof fn law_unbroken_sequence_is_accepted(nonces: Seq<u32>, n: nat)
    requires
        n <= u32::MAX,
        nonces.to_multiset() == one_to(n).to_multiset(),
    ensures
        nonce_sequence_verdict(nonces) == Ok::<u32, AppError>(n as u32),
{
    let v = one_to(n);
    assert(vstd::relations::sorted_by(v, nonce_leq()));
    lemma_leq_total();
    nonces.lemma_sort_by_ensures(nonce_leq());
    vstd::seq_lib::lemma_sorted_unique(v, nonces.sort_by(nonce_leq()), nonce_leq());
    let s = nonces.sort_by(nonce_leq());
    assert(s =~= v);
    lemma_in_place_from(s, 0);
}

/// Start-up accepts a set of flush nonces only if, sorted, it is exactly
/// `1, 2, ..., N`: no gap and no duplicate; it then resumes from `N`.
pub proof fn law_accepted_sequence_is_unbroken(nonces: Seq<u32>)
    requires
        nonces.len() <= u32::MAX,
        nonce_sequence_verdict(nonces) is Ok,
    ensures
        nonces.to_multiset() == one_to(nonces.len()).to_multiset(),
        nonce_sequence_verdict(nonces) == Ok::<u32, AppError>(nonces.len() as u32),
{
    broadcast use vstd::seq_lib::group_to_multiset_ensures;

    lemma_leq_total();
    nonces.lemma_sort_by_ensures(nonce_leq());
    let s = nonces.sort_by(nonce_leq());
    assert(s.len() == nonces.len()) by {
        assert(s.to_multiset().len() == nonces.to_multiset().len());
    }
    lemma_none_out_of_place(s, 0);
    assert(s =~= one_to(nonces.len()));
}

proof fn lemma_index_of_from(s: Seq<char>, c: char, from: int, k: int)
    requires
        0 <= from <= k < s.len(),
        s[k] == c,
        forall|i: int| from <= i < k ==> s[i] != c,
    ensures
        index_of_from(s, c, from) == Some(k),
    decreases k - from,
{
    if from < k {
        lemma_index_of_from(s, c, from + 1, k);
    }
}

/// In `x` followed by `.` and three other characters, the last `.` is the one
/// that starts the suffix.
proof fn lemma_last_dot_of_suffixed(x: Seq<char>, a: char, b: char, c: char)
    requires
        a != '.',
        b != '.',
        c != '.',
    ensures
        last_index_of(x + seq!['.', a, b, c], '.') == Some(x.len() as int),
{
    let s = x + seq!['.', a, b, c];
    let n = s.len() as int;
    assert(s[n - 1] == c && s[n - 2] == b && s[n - 3] == a && s[n - 4] == '.');
    assert(last_index_before(s, '.', n - 3) == Some(n - 4));
    assert(last_index_before(s, '.', n - 2) == Some(n - 4));
    assert(last_index_before(s, '.', n - 1) == Some(n - 4));
    assert(last_index_before(s, '.', n) == Some(n - 4));
}

/// The decimal numeral of `n` is a non-empty run of digits that reads back as `n`.
pub proof fn lemma_numeral_reads_back(n: nat)
    ensures
        decimal_numeral(n).len() > 0,
        all_ascii_digits(decimal_numeral(n)),
        digits_value(decimal_numeral(n)) == n,
    decreases n,
{
    if n >= 10 {
        lemma_numeral_reads_back(n / 10);
        let p = decimal_numeral(n / 10);
        let q = decimal_numeral(n);
        assert(q.drop_last() =~= p);
        assert(q.last() == digit_char(n % 10));
        assert((digit_char(n % 10) as u32) - ('0' as u32) == n % 10);
        assert(digits_value(q) == digits_value(p) * 10 + n % 10);
        assert forall|i: int| 0 <= i < q.len() implies crate::text::is_ascii_digit(#[trigger] q[i]) by {
            if i < p.len() {
                assert(q[i] == p[i]);
            }
        }
    } else {
        let q = decimal_numeral(n);
        assert(q.drop_last() =~= Seq::<char>::empty());
        assert(q.last() == digit_char(n));
        assert((digit_char(n) as u32) - ('0' as u32) == n);
        assert(digits_value(q) == digits_value(q.drop_last()) * 10 + n);
    }
}

/// `i32`'s `Display` reads back through `u32::from_str` exactly for the
/// non-negative values.
proof fn lemma_i32_text_parses(n: i32)
    ensures
        parse_u32(i32_text(n)) == if n >= 0 {
            Some(n as u32)
        } else {
            None::<u32>
        },
{
    if n >= 0 {
        lemma_numeral_reads_back(n as nat);
        let t = decimal_numeral(n as nat);
        assert(t[0] != '+') by {
            assert(crate::text::is_ascii_digit(t[0]));
        }
    } else {
        let t = i32_text(n);
        assert(t[0] == '-');
        assert(!all_ascii_digits(t)) by {
            assert(!crate::text::is_ascii_digit(t[0]));
        }
    }
}

/// The file a balance flush is stored under carries its nonce back to start-up:
/// for a day written without `_`, `.` or `/`, reading the name gives the nonce back
/// exactly when chrono accepts the day and the nonce is not negative; the name
/// has the `.dat` extension start-up collects, and the temporary name it is
/// first written under has the `.tmp` extension that start-up refuses to find.
pub proof fn law_flush_file_name_carries_its_nonce(date: Seq<char>, nonce: i32)
    requires
        !date.contains('_'),
        !date.contains('.'),
        !date.contains('/'),
    ensures
        nonce_in_file_name(balance_file_name_text(date, nonce)) == if nonce >= 0
            && chrono_accepts_date(date, ddmmyyyy_format()) {
            Some(nonce as u32)
        } else {
            None::<u32>
        },
        has_extension_spec(balance_file_name_text(date, nonce), dat_ext()),
        !has_extension_spec(balance_file_name_text(date, nonce), tmp_ext()),
        has_extension_spec(
            temporary_file_name_text(balance_file_name_text(date, nonce)),
            tmp_ext(),
        ),
{
    let body = date + seq!['_'] + i32_text(nonce);
    let name = balance_file_name_text(date, nonce);
    assert(name =~= body + seq!['.', 'd', 'a', 't']);
    lemma_last_dot_of_suffixed(body, 'd', 'a', 't');
    assert(is_plain_file_name(name)) by {
        assert(name.len() > 2);
        assert(name != seq!['.']);
        assert(name != seq!['.', '.']);
    }
    assert(body.len() > 0);
    lemma_numeral_reads_back(abs(nonce as int));
    assert(!i32_text(nonce).contains('/')) by {
        let t = i32_text(nonce);
        let d = decimal_numeral(abs(nonce as int));
        if t.contains('/') {
            let j = choose|j: int| 0 <= j < t.len() && t[j] == '/';
            if nonce < 0 {
                assert(j > 0);
                assert(t[j] == d[j - 1]);
                assert(crate::text::is_ascii_digit(d[j - 1]));
            } else {
                assert(crate::text::is_ascii_digit(d[j]));
            }
        }
    }
    assert(!name.contains('/')) by {
        if name.contains('/') {
            let j = choose|j: int| 0 <= j < name.len() && name[j] == '/';
            if j < date.len() {
                assert(name[j] == date[j]);
            } else if date.len() < j < body.len() {
                assert(name[j] == i32_text(nonce)[j - date.len() - 1]);
            }
        }
    }
    lemma_bare_name_is_its_file_name(name);
    assert(name.subrange(body.len() as int + 1, name.len() as int) =~= dat_ext());
    assert(file_extension(name) == Some(dat_ext()));
    assert(name.subrange(0, body.len() as int) =~= body);
    assert(file_stem(name) == Some(body));
    assert(body[date.len() as int] == '_');
    assert forall|i: int| 0 <= i < date.len() implies body[i] != '_' by {
        assert(body[i] == date[i]);
        if date[i] == '_' {
            assert(date.contains('_'));
        }
    }
    lemma_index_of_from(body, '_', 0, date.len() as int);
    assert(first_index_of(body, '_') == Some(date.len() as int));
    assert(body.subrange(0, date.len() as int) =~= date);
    assert(body.subrange(date.len() as int + 1, body.len() as int) =~= i32_text(nonce));
    lemma_i32_text_parses(nonce);
    assert(!equal_ignoring_ascii_case(dat_ext(), tmp_ext())) by {
        assert(crate::text::ascii_lower(dat_ext()[0]) != crate::text::ascii_lower(tmp_ext()[0]));
    }
    let tmp = temporary_file_name_text(name);
    assert(tmp =~= name + seq!['.', 't', 'm', 'p']);
    lemma_last_dot_of_suffixed(name, 't', 'm', 'p');
    assert(is_plain_file_name(tmp)) by {
        assert(tmp.len() > 2);
        assert(tmp != seq!['.']);
        assert(tmp != seq!['.', '.']);
    }
    assert(!tmp.contains('/')) by {
        if tmp.contains('/') {
            let j = choose|j: int| 0 <= j < tmp.len() && tmp[j] == '/';
            if j < name.len() {
                assert(tmp[j] == name[j]);
            }
        }
    }
    lemma_bare_name_is_its_file_name(tmp);
    assert(tmp.subrange(name.len() as int + 1, tmp.len() as int) =~= tmp_ext());
}

/// Once a client's registration is published, another registration with the
/// same document number is refused as already in use.
pub proof fn law_registered_document_is_refused(
    before: Cache,
    after: Cache,
    client: Client,
    again: ClientDetails,
)
    requires
        after.registered() == before.registered().insert(client.details.document_number@),
        again.document_number@ == client.details.document_number@,
    ensures
        registration_refusal(after, again, None) == Some(AppError::DocumentInUse),
{
}

/// While a registration holds its document's reservation, a concurrent
/// registration of the same, not yet registered, document is refused as in
/// flight; and once the registration finishes, whatever its outcome, no
/// reservation of that document is left behind.
pub proof fn law_reservation_blocks_concurrent_registration(
    before: Cache,
    during: Cache,
    after: Cache,
    details: ClientDetails,
    again: ClientDetails,
)
    requires
        !before.pending().contains(details.document_number@),
        during.pending() == before.pending().insert(details.document_number@),
        after.pending() == during.pending().remove(details.document_number@),
        !during.registered().contains(details.document_number@),
        again.document_number@ == details.document_number@,
    ensures
        registration_refusal(during, again, None) == Some(AppError::DocumentInFlight),
        after.pending() == before.pending(),
{
    assert(after.pending() =~= before.pending());
}

/// On start-up every client is rehydrated with a zero balance, and every
/// rehydrated client comes from a ledger record.
pub proof fn law_boot_balances_start_at_zero(records: Seq<Client>)
    ensures
        forall|id: u128| #[trigger]
            hydrated(records).contains_key(id) ==> hydrated(records)[id].balance == Money::zero_spec()
                && exists|i: int| 0 <= i < records.len() && (#[trigger] records[i]).client_id == id,
    decreases records.len(),
{
    if records.len() > 0 {
        let rest = records.drop_last();
        law_boot_balances_start_at_zero(rest);
        assert forall|id: u128| #[trigger]
            hydrated(records).contains_key(id) implies hydrated(records)[id].balance == Money::zero_spec()
            && exists|i: int| 0 <= i < records.len() && (#[trigger] records[i]).client_id == id by {
            if id == records.last().client_id {
                assert(records[records.len() - 1].client_id == id);
            } else {
                assert(hydrated(rest).contains_key(id));
                let i = choose|i: int| 0 <= i < rest.len() && (#[trigger] rest[i]).client_id == id;
                assert(records[i] == rest[i]);
            }
        }
    }
}

/// In the base-and-delta book, a transaction on a client whose balance is not
/// negative, for a positive amount, with exact arithmetic, never leaves the
/// balance negative: a credit raises it, and a debit that would overdraw is
/// refused. Whenever it goes through, the balance it reports is the base plus
/// the new delta.
pub proof fn law_balance_never_goes_negative(
    base: Money,
    current: Money,
    delta: Money,
    direction: TransactionDirection,
)
    requires
        base.wf(),
        current.wf(),
        delta.wf(),
        base.units() + current.units() >= 0,
        delta.units() > 0,
        sum_is_exact(base, current),
        match decimal_sum(base, current) {
            Some(total) => match direction {
                TransactionDirection::Credit => sum_is_exact(total, delta) && sum_is_exact(
                    current,
                    delta,
                ),
                TransactionDirection::Debit => difference_is_exact(total, delta)
                    && difference_is_exact(current, delta),
            },
            None => true,
        },
    ensures
        balance_change(base, current, delta, direction) matches Some(outcome) && match outcome {
            Ok((balance, d)) => balance.units() >= 0 && balance.units() == base.units() + d.units(),
            Err(e) => direction == TransactionDirection::Debit && e == AppError::InsufficientFunds,
        },
{
    lemma_sum_value(base, current);
    let total = decimal_sum(base, current).unwrap();
    match direction {
        TransactionDirection::Credit => {
            lemma_sum_value(total, delta);
            lemma_sum_value(current, delta);
        },
        TransactionDirection::Debit => {
            lemma_difference_value(total, delta);
            lemma_difference_value(current, delta);
        },
    }
}

/// In the base-and-delta book, moving a batch of persisted deltas (one per
/// client) into the base balances keeps every client's balance: each listed
/// client's base gains what its delta loses, so a transaction that landed
/// after the deltas were collected stays in the delta; a listed client stays
/// dirty exactly when its delta is not yet zero; everyone else is untouched.
pub proof fn law_persisting_keeps_balances(
    clients: Map<u128, ClientEntry>,
    dirty: Set<u128>,
    deltas: Seq<(u128, Money)>,
)
    requires
        entries_valid(clients),
        forall|i: int| 0 <= i < deltas.len() ==> (#[trigger] deltas[i]).1.wf(),
        deltas.map_values(|e: (u128, Money)| e.0).no_duplicates(),
        forall|i: int|
            0 <= i < deltas.len() && clients.contains_key(#[trigger] deltas[i].0) ==> sum_is_exact(
                clients[deltas[i].0].1.0,
                deltas[i].1,
            ) && difference_is_exact(clients[deltas[i].0].1.1, deltas[i].1),
    ensures
        persist_all(clients, dirty, deltas) matches Some((c2, d2)) && c2.dom() == clients.dom()
            && entries_valid(c2) && (forall|id: u128| #[trigger]
            clients.contains_key(id) ==> c2[id].0 == clients[id].0 && c2[id].1.0.units()
                + c2[id].1.1.units() == clients[id].1.0.units() + clients[id].1.1.units()) && (forall|
            i: int,
        |
            0 <= i < deltas.len() && clients.contains_key(#[trigger] deltas[i].0) ==> c2[deltas[i].0].1.1.units()
                == clients[deltas[i].0].1.1.units() - deltas[i].1.units() && (d2.contains(deltas[i].0)
                <==> dirty.contains(deltas[i].0) && c2[deltas[i].0].1.1.mantissa != 0)) && (forall|
            id: u128,
        |
            !deltas.map_values(|e: (u128, Money)| e.0).contains(id) ==> #[trigger] c2.contains_key(id)
                == clients.contains_key(id) && (clients.contains_key(id) ==> c2[id] == clients[id])
                && (d2.contains(id) <==> dirty.contains(id))),
    decreases deltas.len(),
{
    let ids = deltas.map_values(|e: (u128, Money)| e.0);
    if deltas.len() > 0 {
        let rest = deltas.drop_last();
        let rest_ids = rest.map_values(|e: (u128, Money)| e.0);
        assert(rest_ids =~= ids.drop_last());
        assert forall|i: int| 0 <= i < rest.len() implies (#[trigger] rest[i]).1.wf() by {
            assert(rest[i] == deltas[i]);
        }
        assert forall|i: int|
            0 <= i < rest.len() && clients.contains_key(#[trigger] rest[i].0) implies sum_is_exact(
            clients[rest[i].0].1.0,
            rest[i].1,
        ) && difference_is_exact(clients[rest[i].0].1.1, rest[i].1) by {
            assert(rest[i] == deltas[i]);
        }
        assert(rest_ids.no_duplicates()) by {
            assert forall|i: int, j: int|
                0 <= i < rest_ids.len() && 0 <= j < rest_ids.len() && i != j implies rest_ids[i]
                != rest_ids[j] by {
                assert(rest_ids[i] == ids[i] && rest_ids[j] == ids[j]);
            }
        }
        law_persisting_keeps_balances(clients, dirty, rest);
        let (c1, d1) = persist_all(clients, dirty, rest).unwrap();
        let last = deltas.last();
        let n = deltas.len() - 1;
        assert(last == deltas[n]);
        assert(!rest_ids.contains(last.0)) by {
            if rest_ids.contains(last.0) {
                let j = choose|j: int| 0 <= j < rest_ids.len() && rest_ids[j] == last.0;
                assert(ids[j] == ids[n]);
            }
        }
        if clients.contains_key(last.0) {
            assert(c1[last.0] == clients[last.0]);
            let (doc, (base, current)) = c1[last.0];
            lemma_sum_value(base, last.1);
            lemma_difference_value(current, last.1);
            let b = decimal_sum(base, last.1).unwrap();
            let c = decimal_difference(current, last.1).unwrap();
            assert(persist_step(c1, d1, last) == Some(
                (c1.insert(last.0, (doc, (b, c))), if c.mantissa == 0 {
                    d1.remove(last.0)
                } else {
                    d1
                }),
            ));
        }
        let (c2, d2) = persist_all(clients, dirty, deltas).unwrap();
        assert(c2.dom() =~= clients.dom());
        assert forall|i: int|
            0 <= i < deltas.len() && clients.contains_key(#[trigger] deltas[i].0) implies c2[deltas[i].0].1.1.units()
            == clients[deltas[i].0].1.1.units() - deltas[i].1.units() && (d2.contains(deltas[i].0)
            <==> dirty.contains(deltas[i].0) && c2[deltas[i].0].1.1.mantissa != 0) by {
            if i < n {
                assert(rest[i] == deltas[i]);
                assert(ids[i] != ids[n]);
            }
        }
        assert forall|id: u128|
            !ids.contains(id) implies #[trigger] c2.contains_key(id) == clients.contains_key(id) && (
            clients.contains_key(id) ==> c2[id] == clients[id]) && (d2.contains(id)
            <==> dirty.contains(id)) by {
            assert(id != last.0) by {
                assert(ids[n] == last.0);
            }
            if rest_ids.contains(id) {
                let j = choose|j: int| 0 <= j < rest_ids.len() && rest_ids[j] == id;
                assert(ids[j] == id);
            }
        }
    }
}

/// Record `i` is the last one stored for `id`, and the book holds what it
/// stored: its document, its balance as the base and nothing unflushed, so the
/// client's current balance is the stored one.
pub open spec fn restored_from(records: Seq<BookClient>, i: int, id: u128) -> bool {
    &&& 0 <= i < records.len()
    &&& records[i].client_id == id
    &&& book_of(records)[id] == (records[i].document_number, (records[i].balance, Money::zero_spec()))
    &&& forall|j: int| i < j < records.len() ==> (#[trigger] records[j]).client_id != id
    &&& (decimal_sum(records[i].balance, Money::zero_spec()) matches Some(b) && b.units()
        == records[i].balance.units())
}

/// When the balance book is rebuilt from stored records, every stored client is
/// in it, and each client is restored from the last record with its
/// identifier, with its stored balance as its current balance.
pub proof fn law_book_restores_stored_balances(records: Seq<BookClient>)
    ensures
        forall|id: u128| #[trigger]
            book_of(records).contains_key(id) ==> exists|i: int| restored_from(records, i, id),
        forall|i: int|
            0 <= i < records.len() ==> book_of(records).contains_key(#[trigger] records[i].client_id),
    decreases records.len(),
{
    if records.len() > 0 {
        let rest = records.drop_last();
        let n = records.len() - 1;
        law_book_restores_stored_balances(rest);
        assert forall|id: u128| #[trigger]
            book_of(records).contains_key(id) implies exists|i: int| restored_from(records, i, id) by {
            if id == records[n].client_id {
                let bal = records[n].balance;
                if bal.mantissa == 0 {
                    let p = pow10((MAX_SCALE - bal.scale) as nat);
                    let q = pow10((MAX_SCALE - Money::zero_spec().scale) as nat);
                    assert(bal.mantissa * p == 0 && 0int * q == 0) by (nonlinear_arith)
                        requires
                            bal.mantissa == 0,
                    ;
                    assert(bal.units() == 0);
                    assert(Money::zero_spec().units() == 0);
                    assert(decimal_sum(bal, Money::zero_spec()) == Some(Money::zero_spec()));
                } else {
                    assert(decimal_sum(bal, Money::zero_spec()) == Some(bal));
                }
                assert(book_of(records)[id] == (records[n].document_number, (bal, Money::zero_spec())));
                assert(restored_from(records, n, id));
            } else {
                assert(book_of(rest).contains_key(id));
                let i = choose|i: int| restored_from(rest, i, id);
                assert(records[i] == rest[i]);
                assert forall|j: int| i < j < records.len() implies (#[trigger] records[j]).client_id
                    != id by {
                    if j < n {
                        assert(records[j] == rest[j]);
                    }
                }
                assert(restored_from(records, i, id));
            }
        }
        assert forall|i: int| 0 <= i < records.len() implies book_of(records).contains_key(
            #[trigger] records[i].client_id,
        ) by {
            if i < n {
                assert(records[i] == rest[i]);
            }
        }
    }
}

/// Transactions keep every clean client at zero: each client a transaction
/// reaches becomes dirty, no client is registered, and no dirty client becomes
/// clean.
pub proof fn lemma_transactions_keep_clean_zero(
    b0: Map<u128, Money>,
    d0: Set<u128>,
    txs: Seq<Transaction>,
)
    requires
        clean_is_zero(b0, d0),
    ensures
        clean_is_zero(balances_after(b0, txs), dirty_after(b0, d0, txs)),
        balances_after(b0, txs).dom() == b0.dom(),
        forall|id: u128| d0.contains(id) ==> #[trigger] dirty_after(b0, d0, txs).contains(id),
    decreases txs.len(),
{
    if txs.len() > 0 {
        lemma_transactions_keep_clean_zero(b0, d0, txs.drop_last());
        assert(balances_after(b0, txs).dom() =~= b0.dom());
    }
}

/// Every unsaved change is tracked, across a flush: if every clean client holds
/// zero when the snapshot of the dirty balances is taken, then after any
/// transactions land and the snapshot is settled, every clean client still
/// holds zero, whatever the arithmetic rounded.
pub proof fn law_flush_keeps_clean_clients_at_zero(
    b0: Map<u128, Money>,
    d0: Set<u128>,
    snapshot: Seq<(u128, Money)>,
    txs: Seq<Transaction>,
)
    requires
        clean_is_zero(b0, d0),
        is_dirty_snapshot(b0, d0, snapshot),
        settle_all(balances_after(b0, txs), dirty_after(b0, d0, txs), snapshot) is Some,
    ensures
        ({
            let (b2, d2) = settle_all(balances_after(b0, txs), dirty_after(b0, d0, txs), snapshot).unwrap();
            clean_is_zero(b2, d2)
        }),
{
    lemma_transactions_keep_clean_zero(b0, d0, txs);
    let ids = snapshot.map_values(|e: (u128, Money)| e.0);
    assert(ids_of(snapshot) == ids);
    assert forall|i: int| 0 <= i < snapshot.len() implies dirty_after(b0, d0, txs).contains(
        #[trigger] snapshot[i].0,
    ) by {
        assert(ids[i] == snapshot[i].0);
        assert(ids.to_set().contains(ids[i]));
    }
    lemma_settle_keeps_clean_zero(
        balances_after(b0, txs),
        dirty_after(b0, d0, txs),
        snapshot,
    );
}

/// On start-up no client is dirty and every client holds zero, so every
/// clean client holds zero.
pub proof fn law_boot_cache_is_clean(records: Seq<Client>)
    ensures
        clean_is_zero(hydrated(records).map_values(|s: ClientState| s.balance), Set::<u128>::empty()),
{
    law_boot_balances_start_at_zero(records);
    let m = hydrated(records).map_values(|s: ClientState| s.balance);
    assert forall|id: u128| #[trigger] m.contains_key(id) implies m[id].mantissa == 0 by {
        assert(hydrated(records).contains_key(id));
    }
}

/// What a balance read shows after a flush is only what piled up since it: if
/// every clean client held zero when the snapshot was taken, then after exact
/// transactions land and the snapshot is settled, every client's balance is the
/// net value of those transactions alone.
pub proof fn law_balance_shows_only_what_piled_up_since_the_flush(
    b0: Map<u128, Money>,
    d0: Set<u128>,
    snapshot: Seq<(u128, Money)>,
    txs: Seq<Transaction>,
)
    requires
        all_valid(b0),
        forall|id: u128| #[trigger] d0.contains(id) ==> b0.contains_key(id),
        clean_is_zero(b0, d0),
        is_dirty_snapshot(b0, d0, snapshot),
        forall|i: int| 0 <= i < txs.len() ==> (#[trigger] txs[i]).1.wf(),
        transactions_exact(b0, txs),
        forall|id: u128| #[trigger]
            d0.contains(id) ==> difference_is_exact(balances_after(b0, txs)[id], b0[id]),
    ensures
        ({
            let (b2, d2) = settle_all(balances_after(b0, txs), dirty_after(b0, d0, txs), snapshot).unwrap();
            forall|id: u128| #[trigger] b0.contains_key(id) ==> b2[id].units() == net_units(txs, id)
        }),
{
    law_flush_keeps_late_transactions(b0, d0, snapshot, txs);
    lemma_transactions_add_up(b0, d0, txs);
    let (b2, d2) = settle_all(balances_after(b0, txs), dirty_after(b0, d0, txs), snapshot).unwrap();
    assert forall|id: u128| #[trigger] b0.contains_key(id) implies b2[id].units() == net_units(txs, id) by {
        if !d0.contains(id) {
            lemma_zero_units(b0[id]);
        }
    }
}

/// One step of the balance book's life, as the service's calls make it.
pub enum BookStep {
    /// A client is published with a zero balance (`insert_client`).
    Register(u128),
    /// A credit or debit lands (`process_transaction`).
    Transact(Transaction),
    /// A flush: the dirty balances are snapshotted, the transactions `txs`
    /// land while the snapshot is stored, then the snapshot is settled.
    Flush(Seq<(u128, Money)>, Seq<Transaction>),
}

/// The balances and dirty set after `step`; `None` for a flush whose snapshot
/// is not one of the dirty balances, or whose settlement overflows.
pub open spec fn book_step(
    b: Map<u128, Money>,
    d: Set<u128>,
    step: BookStep,
) -> Option<(Map<u128, Money>, Set<u128>)> {
    match step {
        BookStep::Register(id) => Some((b.insert(id, Money::zero_spec()), d)),
        BookStep::Transact(tx) => Some((balances_after(b, seq![tx]), dirty_after(b, d, seq![tx]))),
        BookStep::Flush(snapshot, txs) => if is_dirty_snapshot(b, d, snapshot) {
            settle_all(balances_after(b, txs), dirty_after(b, d, txs), snapshot)
        } else {
            None
        },
    }
}

/// The balances and dirty set after `steps`, in order.
pub open spec fn book_run(
    b: Map<u128, Money>,
    d: Set<u128>,
    steps: Seq<BookStep>,
) -> Option<(Map<u128, Money>, Set<u128>)>
    decreases steps.len(),
{
    if steps.len() == 0 {
        Some((b, d))
    } else {
        match book_run(b, d, steps.drop_last()) {
            Some((b1, d1)) => book_step(b1, d1, steps.last()),
            None => None,
        }
    }
}

/// Every unsaved change stays tracked over any run of registrations,
/// transactions and flushes: if every clean client holds zero at the start
/// (as on start-up), every clean client holds zero after the run, whatever the
/// arithmetic rounded.
pub proof fn law_every_unsaved_change_stays_tracked(
    b0: Map<u128, Money>,
    d0: Set<u128>,
    steps: Seq<BookStep>,
)
    requires
        clean_is_zero(b0, d0),
    ensures
        book_run(b0, d0, steps) matches Some((b, d)) ==> clean_is_zero(b, d),
    decreases steps.len(),
{
    if steps.len() > 0 {
        law_every_unsaved_change_stays_tracked(b0, d0, steps.drop_last());
        if let Some((b1, d1)) = book_run(b0, d0, steps.drop_last()) {
            match steps.last() {
                BookStep::Register(id) => {},
                BookStep::Transact(tx) => {
                    lemma_transactions_keep_clean_zero(b1, d1, seq![tx]);
                },
                BookStep::Flush(snapshot, txs) => {
                    if is_dirty_snapshot(b1, d1, snapshot) && settle_all(
                        balances_after(b1, txs),
                        dirty_after(b1, d1, txs),
                        snapshot,
                    ) is Some {
                        law_flush_keeps_clean_clients_at_zero(b1, d1, snapshot, txs);
                    }
                },
            }
        }
    }
}

} // verus!
