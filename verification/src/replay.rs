//! The ownership replay engine.
//!
//! Balances are reconstructed by a pure pass over stored transfer events:
//! an event adds its values to the receiver and subtracts them from the
//! sender, per token id; address comparison folds ASCII case. Results are
//! returned as key-sorted lists, so that any two replays of the same events
//! produce the identical value.

use crate::ascii::{eq_fold, eq_ignore_case, lower_seq, to_lowercase};
use vstd::prelude::*;
use vstd::seq_lib::lemma_fold_left_permutation;

verus! {

/// Most token ids or values one event may carry.
pub open spec fn max_event_width() -> nat {
    0x10000
}

/// Most events one replay may cover.
pub open spec fn max_events() -> nat {
    0x100000000
}

/// One stored transfer as the replay engine reads it: the two parties as
/// address strings, and the parallel id and value lists projected to `u64`.
pub struct ReplayEvent {
    pub from_address: Vec<u8>,
    pub to_address: Vec<u8>,
    pub ids: Vec<u64>,
    pub values: Vec<u64>,
}

impl ReplayEvent {
    /// Parallel lists of equal length, within the replay width.
    pub open spec fn wf(self) -> bool {
        &&& self.ids@.len() == self.values@.len()
        &&& self.ids@.len() <= max_event_width()
    }
}

pub open spec fn events_wf(evts: Seq<ReplayEvent>) -> bool {
    forall|i: int| 0 <= i < evts.len() ==> (#[trigger] evts[i]).wf()
}

/// The sum of `values[j]` over the positions `j` where `ids[j] == id`.
pub open spec fn id_sum(ids: Seq<u64>, values: Seq<u64>, id: u64) -> int
    decreases ids.len(),
{
    if ids.len() == 0 || values.len() == 0 {
        0
    } else {
        id_sum(ids.drop_last(), values.drop_last(), id) + if ids.last() == id {
            values.last() as int
        } else {
            0
        }
    }
}

/// What one event does to the balance of `wallet` (given lowercased) for
/// token `id`: credit on receive, debit on send, both where the event's
/// address matches case-insensitively.
pub open spec fn event_delta(e: ReplayEvent, wallet: Seq<u8>, id: u64) -> int {
    (if lower_seq(e.to_address@) == wallet {
        id_sum(e.ids@, e.values@, id)
    } else {
        0
    }) - (if lower_seq(e.from_address@) == wallet {
        id_sum(e.ids@, e.values@, id)
    } else {
        0
    })
}

/// The balance of `wallet` (given lowercased) for token `id`: the sum of
/// every event's delta, in any order.
pub open spec fn net_balance(evts: Seq<ReplayEvent>, wallet: Seq<u8>, id: u64) -> int {
    evts.fold_left(0int, |acc: int, e: ReplayEvent| acc + event_delta(e, wallet, id))
}

/// A positive balance clipped into `u64`.
pub open spec fn clamp_u64(v: int) -> u64 {
    if v >= u64::MAX {
        u64::MAX
    } else if v <= 0 {
        0
    } else {
        v as u64
    }
}

pub proof fn lemma_id_sum_bound(ids: Seq<u64>, values: Seq<u64>, id: u64)
    ensures
        0 <= id_sum(ids, values, id) <= ids.len() * 0xFFFFFFFFFFFFFFFF,
    decreases ids.len(),
{
    if ids.len() == 0 || values.len() == 0 {
        assert(ids.len() * 0xFFFFFFFFFFFFFFFF >= 0) by (nonlinear_arith);
    } else {
        lemma_id_sum_bound(ids.drop_last(), values.drop_last(), id);
        assert((ids.len() - 1) * 0xFFFFFFFFFFFFFFFF + 0xFFFFFFFFFFFFFFFF == ids.len()
            * 0xFFFFFFFFFFFFFFFF) by (nonlinear_arith);
    }
}

pub proof fn lemma_delta_bound(e: ReplayEvent, wallet: Seq<u8>, id: u64)
    requires
        e.wf(),
    ensures
        -0x100000000000000000000 <= event_delta(e, wallet, id) <= 0x100000000000000000000,
{
    lemma_id_sum_bound(e.ids@, e.values@, id);
    assert(e.ids@.len() * 0xFFFFFFFFFFFFFFFF <= 0x10000 * 0xFFFFFFFFFFFFFFFF)
        by (nonlinear_arith)
        requires
            e.ids@.len() <= 0x10000,
    ;
    assert(0x10000 * 0xFFFFFFFFFFFFFFFF == 0xFFFFFFFFFFFFFFFF0000) by (nonlinear_arith);
}

pub proof fn lemma_net_bound(evts: Seq<ReplayEvent>, wallet: Seq<u8>, id: u64)
    requires
        events_wf(evts),
    ensures
        -(evts.len() * 0x100000000000000000000) <= net_balance(evts, wallet, id) <= evts.len()
            * 0x100000000000000000000,
    decreases evts.len(),
{
    if evts.len() == 0 {
    } else {
        assert(evts.drop_last().fold_left(
            0int,
            |acc: int, e: ReplayEvent| acc + event_delta(e, wallet, id),
        ) == net_balance(evts.drop_last(), wallet, id));
        assert(events_wf(evts.drop_last())) by {
            assert(forall|i: int|
                0 <= i < evts.len() - 1 ==> evts.drop_last()[i] == evts[i]);
        }
        lemma_net_bound(evts.drop_last(), wallet, id);
        lemma_delta_bound(evts.last(), wallet, id);
        assert((evts.len() - 1) * 0x100000000000000000000 + 0x100000000000000000000 == evts.len()
            * 0x100000000000000000000) by (nonlinear_arith);
    }
}

/// Balances are insensitive to the order of events: any two event lists
/// that are permutations of one another give every wallet and token the
/// same balance.
pub proof fn lemma_net_balance_permutation(
    e1: Seq<ReplayEvent>,
    e2: Seq<ReplayEvent>,
    wallet: Seq<u8>,
)
    requires
        e1.to_multiset() == e2.to_multiset(),
    ensures
        forall|id: u64| net_balance(e1, wallet, id) == net_balance(e2, wallet, id),
{
    assert forall|id: u64| net_balance(e1, wallet, id) == net_balance(e2, wallet, id) by {
        let f = |acc: int, e: ReplayEvent| acc + event_delta(e, wallet, id);
        assert(vstd::seq_lib::commutative_foldl(f));
        lemma_fold_left_permutation(e1, e2, f, 0int);
    }
}

/// Two wallets that differ only in ASCII case have the same balances.
pub proof fn lemma_net_balance_case_insensitive(
    evts: Seq<ReplayEvent>,
    w1: Seq<u8>,
    w2: Seq<u8>,
)
    requires
        eq_fold(w1, w2),
    ensures
        forall|id: u64|
            net_balance(evts, lower_seq(w1), id) == net_balance(evts, lower_seq(w2), id),
{
}

// --- the sorted accumulator -------------------------------------------------

/// The balance recorded for `k`, zero where `k` is absent.
pub open spec fn bal_of(s: Seq<(u64, i128)>, k: u64) -> int
    decreases s.len(),
{
    if s.len() == 0 {
        0
    } else if s[0].0 == k {
        s[0].1 as int
    } else {
        bal_of(s.drop_first(), k)
    }
}

pub open spec fn has_bkey(s: Seq<(u64, i128)>, k: u64) -> bool {
    exists|i: int| 0 <= i < s.len() && (#[trigger] s[i]).0 == k
}

pub open spec fn acc_sorted(s: Seq<(u64, i128)>) -> bool {
    forall|i: int, j: int| 0 <= i < j < s.len() ==> (#[trigger] s[i]).0 < (#[trigger] s[j]).0
}

proof fn lemma_bal_concat(a: Seq<(u64, i128)>, b: Seq<(u64, i128)>, k: u64)
    ensures
        bal_of(a + b, k) == if has_bkey(a, k) {
            bal_of(a, k)
        } else {
            bal_of(b, k)
        },
    decreases a.len(),
{
    if a.len() == 0 {
        assert(a + b =~= b);
        assert(!has_bkey(a, k));
    } else {
        assert((a + b).drop_first() =~= a.drop_first() + b);
        lemma_bal_concat(a.drop_first(), b, k);
        if a[0].0 == k {
            assert((a + b)[0] == a[0]);
            assert(has_bkey(a, k));
        } else {
            assert(has_bkey(a, k) == has_bkey(a.drop_first(), k)) by {
                if has_bkey(a, k) {
                    let i = choose|i: int| 0 <= i < a.len() && (#[trigger] a[i]).0 == k;
                    assert(a.drop_first()[i - 1].0 == k);
                }
                if has_bkey(a.drop_first(), k) {
                    let i = choose|i: int|
                        0 <= i < a.drop_first().len() && (#[trigger] a.drop_first()[i]).0 == k;
                    assert(a[i + 1].0 == k);
                }
            }
        }
    }
}

proof fn lemma_bal_absent(s: Seq<(u64, i128)>, k: u64)
    requires
        !has_bkey(s, k),
    ensures
        bal_of(s, k) == 0,
    decreases s.len(),
{
    if s.len() > 0 {
        assert(s[0].0 != k);
        assert(!has_bkey(s.drop_first(), k)) by {
            if has_bkey(s.drop_first(), k) {
                let i = choose|i: int|
                    0 <= i < s.drop_first().len() && (#[trigger] s.drop_first()[i]).0 == k;
                assert(s[i + 1].0 == k);
            }
        }
        lemma_bal_absent(s.drop_first(), k);
    }
}

/// Add `delta` to the balance recorded for `id`, keeping keys sorted.
fn bal_add(acc: &mut Vec<(u64, i128)>, id: u64, delta: i128)
    requires
        acc_sorted(old(acc)@),
        i128::MIN <= bal_of(old(acc)@, id) + delta <= i128::MAX,
    ensures
        acc_sorted(final(acc)@),
        forall|k: u64|
            bal_of(final(acc)@, k) == bal_of(old(acc)@, k) + if k == id {
                delta as int
            } else {
                0
            },
{
    let n = acc.len();
    let mut i: usize = 0;
    while i < n && acc[i].0 < id
        invariant
            i <= n,
            n == acc@.len(),
            acc@ == old(acc)@,
            forall|j: int| 0 <= j < i ==> (#[trigger] acc@[j]).0 < id,
        decreases n - i,
    {
        i += 1;
    }
    let ghost s = acc@;
    proof {
        assert(s =~= s.take(i as int) + s.skip(i as int));
        lemma_bal_concat(s.take(i as int), s.skip(i as int), id);
        assert(!has_bkey(s.take(i as int), id));
    }
    if i < n && acc[i].0 == id {
        let cur = acc[i].1;
        proof {
            assert(s.skip(i as int)[0] == s[i as int]);
            assert(bal_of(s.skip(i as int), id) == cur as int);
            assert(bal_of(s, id) == cur as int);
        }
        acc[i] = (id, cur + delta);
        proof {
            let t = acc@;
            assert(t == s.update(i as int, (id, (cur + delta) as i128)));
            assert(acc_sorted(t));
            assert forall|k: u64|
                bal_of(t, k) == bal_of(s, k) + if k == id {
                    delta as int
                } else {
                    0int
                } by {
                assert(t.take(i as int) =~= s.take(i as int));
                assert(t.skip(i as int).drop_first() =~= s.skip(i as int).drop_first());
                assert(t =~= t.take(i as int) + t.skip(i as int));
                lemma_bal_concat(t.take(i as int), t.skip(i as int), k);
                lemma_bal_concat(s.take(i as int), s.skip(i as int), k);
                assert(t.skip(i as int)[0] == (id, (cur + delta) as i128));
                assert(s.skip(i as int)[0] == (id, cur));
                if k != id {
                    assert(bal_of(t.skip(i as int), k) == bal_of(t.skip(i as int).drop_first(), k));
                    assert(bal_of(s.skip(i as int), k) == bal_of(s.skip(i as int).drop_first(), k));
                }
            }
        }
    } else {
        proof {
            assert(!has_bkey(s, id)) by {
                if has_bkey(s, id) {
                    let j = choose|j: int| 0 <= j < s.len() && (#[trigger] s[j]).0 == id;
                    if j < i {
                    } else {
                        if i < n {
                            assert(s[i as int].0 > id);
                            if j > i {
                                assert(s[i as int].0 < s[j].0);
                            }
                        }
                    }
                }
            }
            lemma_bal_absent(s, id);
        }
        acc.insert(i, (id, delta));
        proof {
            let t = acc@;
            assert(t == s.insert(i as int, (id, delta)));
            assert(t =~= s.take(i as int) + (seq![(id, delta)] + s.skip(i as int)));
            assert(acc_sorted(t)) by {
                assert forall|p: int, q: int| 0 <= p < q < t.len() implies (#[trigger] t[p]).0 < (
                #[trigger] t[q]).0 by {
                    if i < n {
                        assert(s[i as int].0 > id);
                    }
                    assert(forall|j: int| 0 <= j < i ==> (#[trigger] s[j]).0 < id);
                }
            }
            assert forall|k: u64|
                bal_of(t, k) == bal_of(s, k) + if k == id {
                    delta as int
                } else {
                    0int
                } by {
                lemma_bal_concat(s.take(i as int), seq![(id, delta)] + s.skip(i as int), k);
                lemma_bal_concat(s.take(i as int), s.skip(i as int), k);
                assert((seq![(id, delta)] + s.skip(i as int))[0] == (id, delta));
                if k != id {
                    assert(bal_of(seq![(id, delta)] + s.skip(i as int), k) == bal_of(
                        (seq![(id, delta)] + s.skip(i as int)).drop_first(),
                        k,
                    ));
                    assert((seq![(id, delta)] + s.skip(i as int)).drop_first() =~= s.skip(
                        i as int,
                    ));
                } else {
                    lemma_bal_absent(s.take(i as int), k);
                }
            }
        }
    }
}


/// The zero address, lowercase: minting source and one burn sink.
pub open spec fn zero_addr() -> Seq<u8> {
    seq![48u8, 120u8] + Seq::new(40, |i: int| 48u8)
}

/// The dead address, lowercase: the conventional burn sink.
pub open spec fn dead_addr() -> Seq<u8> {
    seq![48u8, 120u8] + Seq::new(36, |i: int| 48u8) + seq![100u8, 101u8, 97u8, 100u8]
}

pub fn zero_address() -> (r: Vec<u8>)
    ensures
        r@ == zero_addr(),
{
    let mut r: Vec<u8> = Vec::new();
    r.push(48);
    r.push(120);
    let mut i: usize = 0;
    while i < 40
        invariant
            i <= 40,
            r@.len() == 2 + i,
            r@[0] == 48u8 && r@[1] == 120u8,
            forall|j: int| 2 <= j < 2 + i ==> r@[j] == 48u8,
        decreases 40 - i,
    {
        r.push(48);
        i += 1;
    }
    proof {
        assert(r@ =~= zero_addr());
    }
    r
}

pub fn dead_address() -> (r: Vec<u8>)
    ensures
        r@ == dead_addr(),
{
    let mut r: Vec<u8> = Vec::new();
    r.push(48);
    r.push(120);
    let mut i: usize = 0;
    while i < 36
        invariant
            i <= 36,
            r@.len() == 2 + i,
            r@[0] == 48u8 && r@[1] == 120u8,
            forall|j: int| 2 <= j < 2 + i ==> r@[j] == 48u8,
        decreases 36 - i,
    {
        r.push(48);
        i += 1;
    }
    r.push(100);
    r.push(101);
    r.push(97);
    r.push(100);
    proof {
        assert(r@ =~= dead_addr());
    }
    r
}

/// What the first `j` positions of an event contribute to `wallet`'s
/// balance of `id`.
pub open spec fn partial_delta(e: ReplayEvent, wallet: Seq<u8>, id: u64, j: int) -> int {
    (if lower_seq(e.to_address@) == wallet {
        id_sum(e.ids@.take(j), e.values@.take(j), id)
    } else {
        0
    }) - (if lower_seq(e.from_address@) == wallet {
        id_sum(e.ids@.take(j), e.values@.take(j), id)
    } else {
        0
    })
}

/// Fold one event into the balance accumulator.
fn apply_wallet_event(acc: &mut Vec<(u64, i128)>, e: &ReplayEvent, wl: &Vec<u8>)
    requires
        e.wf(),
        wl@ == lower_seq(wl@),
        acc_sorted(old(acc)@),
        forall|k: u64|
            -0x10000000000000000000000000000 <= #[trigger] bal_of(old(acc)@, k)
                <= 0x10000000000000000000000000000,
    ensures
        acc_sorted(final(acc)@),
        forall|k: u64|
            bal_of(final(acc)@, k) == bal_of(old(acc)@, k) + event_delta(*e, wl@, k),
{
    let to_match = eq_ignore_case(&e.to_address, wl);
    let from_match = eq_ignore_case(&e.from_address, wl);
    proof {
        assert(to_match == (lower_seq(e.to_address@) == wl@));
        assert(from_match == (lower_seq(e.from_address@) == wl@));
    }
    let n = e.ids.len();
    let mut j: usize = 0;
    while j < n
        invariant
            j <= n,
            n == e.ids@.len(),
            e.wf(),
            to_match == (lower_seq(e.to_address@) == wl@),
            from_match == (lower_seq(e.from_address@) == wl@),
            acc_sorted(acc@),
            forall|k: u64|
                bal_of(acc@, k) == bal_of(old(acc)@, k) + partial_delta(*e, wl@, k, j as int),
            forall|k: u64|
                -0x10000000000000000000000000000 <= #[trigger] bal_of(old(acc)@, k)
                    <= 0x10000000000000000000000000000,
        decreases n - j,
    {
        let id = e.ids[j];
        let v = e.values[j];
        proof {
            lemma_id_sum_bound(e.ids@.take(j as int), e.values@.take(j as int), id);
            assert(e.ids@.take(j as int).len() * 0xFFFFFFFFFFFFFFFF <= 0x10000
                * 0xFFFFFFFFFFFFFFFF) by (nonlinear_arith)
                requires
                    e.ids@.take(j as int).len() <= 0x10000,
            ;
            assert(0x10000 * 0xFFFFFFFFFFFFFFFF == 0xFFFFFFFFFFFFFFFF0000) by (nonlinear_arith);
        }
        if to_match {
            bal_add(acc, id, v as i128);
        }
        if from_match {
            proof {
                if to_match {
                    lemma_id_sum_bound(e.ids@.take(j as int), e.values@.take(j as int), id);
                }
            }
            bal_add(acc, id, -(v as i128));
        }
        j += 1;
        proof {
            assert(e.ids@.take(j as int).drop_last() =~= e.ids@.take(j - 1));
            assert(e.values@.take(j as int).drop_last() =~= e.values@.take(j - 1));
            assert forall|k: u64|
                bal_of(acc@, k) == bal_of(old(acc)@, k) + partial_delta(*e, wl@, k, j as int) by {
                assert(e.ids@.take(j as int).last() == e.ids@[j - 1]);
                assert(e.values@.take(j as int).last() == e.values@[j - 1]);
                lemma_id_sum_bound(e.ids@.take(j - 1), e.values@.take(j - 1), k);
            }
        }
    }
    proof {
        assert(e.ids@.take(n as int) =~= e.ids@);
        assert(e.values@.take(n as int) =~= e.values@);
        assert(forall|k: u64| partial_delta(*e, wl@, k, n as int) == event_delta(*e, wl@, k));
    }
}


proof fn lemma_bal_at_index(s: Seq<(u64, i128)>, j: int)
    requires
        acc_sorted(s),
        0 <= j < s.len(),
    ensures
        bal_of(s, s[j].0) == s[j].1,
    decreases j,
{
    if j > 0 {
        assert(s[0].0 < s[j].0);
        assert(acc_sorted(s.drop_first()));
        assert(s.drop_first()[j - 1] == s[j]);
        lemma_bal_at_index(s.drop_first(), j - 1);
    }
}

pub open spec fn has_key64(s: Seq<(u64, u64)>, k: u64) -> bool {
    exists|i: int| 0 <= i < s.len() && (#[trigger] s[i]).0 == k
}

pub open spec fn keys_sorted64(s: Seq<(u64, u64)>) -> bool {
    forall|i: int, j: int| 0 <= i < j < s.len() ==> (#[trigger] s[i]).0 < (#[trigger] s[j]).0
}

/// The positive entries of a sorted accumulator, clipped into `u64`.
fn positive_entries(acc: &Vec<(u64, i128)>) -> (r: Vec<(u64, u64)>)
    requires
        acc_sorted(acc@),
    ensures
        keys_sorted64(r@),
        forall|i: int|
            0 <= i < r@.len() ==> bal_of(acc@, (#[trigger] r@[i]).0) > 0 && r@[i].1 == clamp_u64(
                bal_of(acc@, r@[i].0),
            ),
        forall|k: u64| bal_of(acc@, k) > 0 ==> has_key64(r@, k),
{
    let n = acc.len();
    let mut out: Vec<(u64, u64)> = Vec::new();
    let mut i: usize = 0;
    while i < n
        invariant
            i <= n,
            n == acc@.len(),
            acc_sorted(acc@),
            keys_sorted64(out@),
            forall|p: int|
                0 <= p < out@.len() ==> bal_of(acc@, (#[trigger] out@[p]).0) > 0 && out@[p].1
                    == clamp_u64(bal_of(acc@, out@[p].0)),
            forall|p: int|
                0 <= p < out@.len() ==> exists|j: int|
                    0 <= j < i && (#[trigger] acc@[j]).0 == (#[trigger] out@[p]).0,
            forall|j: int|
                0 <= j < i && bal_of(acc@, (#[trigger] acc@[j]).0) > 0 ==> has_key64(
                    out@,
                    acc@[j].0,
                ),
        decreases n - i,
    {
        let (key, v) = acc[i];
        proof {
            lemma_bal_at_index(acc@, i as int);
        }
        let ghost out_prev = out@;
        if v > 0 {
            let clipped: u64 = if v >= 0xFFFFFFFFFFFFFFFFi128 {
                0xFFFFFFFFFFFFFFFFu64
            } else {
                v as u64
            };
            proof {
                assert forall|p: int| 0 <= p < out@.len() implies (#[trigger] out@[p]).0
                    < key by {
                    let j = choose|j: int|
                        0 <= j < i && (#[trigger] acc@[j]).0 == out@[p].0;
                    assert(acc@[j].0 < acc@[i as int].0);
                }
            }
            out.push((key, clipped));
        }
        i += 1;
        proof {
            assert forall|j: int|
                0 <= j < i && bal_of(acc@, (#[trigger] acc@[j]).0) > 0 implies has_key64(
                out@,
                acc@[j].0,
            ) by {
                if j == i - 1 {
                    assert(v > 0);
                    assert(out@[out@.len() - 1].0 == key);
                } else {
                    assert(has_key64(out_prev, acc@[j].0));
                    let p = choose|p: int|
                        0 <= p < out_prev.len() && (#[trigger] out_prev[p]).0 == acc@[j].0;
                    assert(out@[p] == out_prev[p]);
                }
            }
        }
    }
    proof {
        assert forall|k: u64| bal_of(acc@, k) > 0 implies has_key64(out@, k) by {
            if !has_bkey(acc@, k) {
                lemma_bal_absent(acc@, k);
            } else {
                let j = choose|j: int| 0 <= j < acc@.len() && (#[trigger] acc@[j]).0 == k;
            }
        }
    }
    out
}

/// A wallet's holdings in one collection: for every token id, the sum of
/// received values minus the sum of sent values, keeping the ids whose
/// balance ends positive. Address matching folds ASCII case.
pub fn get_entire_collection_for_address(
    events: &Vec<ReplayEvent>,
    wallet_address: &Vec<u8>,
) -> (r: Vec<(u64, u64)>)
    requires
        events_wf(events@),
        events@.len() <= max_events(),
    ensures
        keys_sorted64(r@),
        forall|i: int|
            0 <= i < r@.len() ==> net_balance(
                events@,
                lower_seq(wallet_address@),
                (#[trigger] r@[i]).0,
            ) > 0 && r@[i].1 == clamp_u64(
                net_balance(events@, lower_seq(wallet_address@), r@[i].0),
            ),
        forall|k: u64|
            net_balance(events@, lower_seq(wallet_address@), k) > 0 ==> has_key64(r@, k),
{
    let wl = to_lowercase(wallet_address);
    proof {
        crate::ascii::lemma_lower_idempotent(wallet_address@);
    }
    let mut acc: Vec<(u64, i128)> = Vec::new();
    let n = events.len();
    let mut t: usize = 0;
    proof {
        assert(events@.take(0).fold_left(
            0int,
            |a: int, e: ReplayEvent| a + event_delta(e, wl@, 0u64),
        ) == 0int);
    }
    while t < n
        invariant
            t <= n,
            n == events@.len(),
            events@.len() <= max_events(),
            events_wf(events@),
            wl@ == lower_seq(wallet_address@),
            wl@ == lower_seq(wl@),
            acc_sorted(acc@),
            forall|k: u64|
                #[trigger] bal_of(acc@, k) == net_balance(events@.take(t as int), wl@, k),
        decreases n - t,
    {
        proof {
            assert(events_wf(events@.take(t as int))) by {
                assert(forall|i: int|
                    0 <= i < t ==> events@.take(t as int)[i] == events@[i]);
            }
            assert forall|k: u64|
                -0x10000000000000000000000000000 <= #[trigger] bal_of(acc@, k)
                    <= 0x10000000000000000000000000000 by {
                lemma_net_bound(events@.take(t as int), wl@, k);
                assert(events@.take(t as int).len() * 0x100000000000000000000 <= 0x100000000
                    * 0x100000000000000000000) by (nonlinear_arith)
                    requires
                        events@.take(t as int).len() <= 0x100000000,
                ;
            }
            assert(events@[t as int].wf());
        }
        let ghost prev = acc@;
        apply_wallet_event(&mut acc, &events[t], &wl);
        t += 1;
        proof {
            assert(events@.take(t as int).drop_last() =~= events@.take(t - 1));
            assert(events@.take(t as int).last() == events@[t - 1]);
            assert forall|k: u64|
                #[trigger] bal_of(acc@, k) == net_balance(events@.take(t as int), wl@, k) by {
                let f = |a: int, e: ReplayEvent| a + event_delta(e, wl@, k);
                assert(net_balance(events@.take(t as int), wl@, k) == f(
                    events@.take(t - 1).fold_left(0int, f),
                    events@[t - 1],
                ));
            }
        }
    }
    proof {
        assert(events@.take(n as int) =~= events@);
    }
    positive_entries(&acc)
}


/// What one event does to the circulating count of token `id`: values
/// minted from the zero address count up, values sent to the zero or dead
/// address count down — both where both apply, so a transfer straight
/// from the zero address into a burn sink nets to nothing — and transfers
/// between live wallets do not count.
pub open spec fn supply_delta(e: ReplayEvent, id: u64) -> int {
    (if eq_fold(e.from_address@, zero_addr()) {
        id_sum(e.ids@, e.values@, id)
    } else {
        0
    }) - (if eq_fold(e.to_address@, zero_addr()) || eq_fold(e.to_address@, dead_addr()) {
        id_sum(e.ids@, e.values@, id)
    } else {
        0
    })
}

/// Mints minus burns of token `id` over all events, in any order.
pub open spec fn supply(evts: Seq<ReplayEvent>, id: u64) -> int {
    evts.fold_left(0int, |acc: int, e: ReplayEvent| acc + supply_delta(e, id))
}

/// The circulating count is insensitive to the order of events.
pub proof fn lemma_supply_permutation(e1: Seq<ReplayEvent>, e2: Seq<ReplayEvent>)
    requires
        e1.to_multiset() == e2.to_multiset(),
    ensures
        forall|id: u64| supply(e1, id) == supply(e2, id),
{
    assert forall|id: u64| supply(e1, id) == supply(e2, id) by {
        let f = |acc: int, e: ReplayEvent| acc + supply_delta(e, id);
        assert(vstd::seq_lib::commutative_foldl(f));
        lemma_fold_left_permutation(e1, e2, f, 0int);
    }
}

pub proof fn lemma_supply_bound(evts: Seq<ReplayEvent>, id: u64)
    requires
        events_wf(evts),
    ensures
        -(evts.len() * 0x100000000000000000000) <= supply(evts, id) <= evts.len()
            * 0x100000000000000000000,
    decreases evts.len(),
{
    if evts.len() > 0 {
        assert(events_wf(evts.drop_last())) by {
            assert(forall|i: int|
                0 <= i < evts.len() - 1 ==> evts.drop_last()[i] == evts[i]);
        }
        lemma_supply_bound(evts.drop_last(), id);
        lemma_id_sum_bound(evts.last().ids@, evts.last().values@, id);
        assert(evts.last().ids@.len() * 0xFFFFFFFFFFFFFFFF <= 0x10000 * 0xFFFFFFFFFFFFFFFF)
            by (nonlinear_arith)
            requires
                evts.last().ids@.len() <= 0x10000,
        ;
        assert(0x10000 * 0xFFFFFFFFFFFFFFFF == 0xFFFFFFFFFFFFFFFF0000) by (nonlinear_arith);
        assert((evts.len() - 1) * 0x100000000000000000000 + 0x100000000000000000000 == evts.len()
            * 0x100000000000000000000) by (nonlinear_arith);
    }
}

/// The first `j` positions' contribution to the circulating count.
pub open spec fn partial_supply(e: ReplayEvent, id: u64, j: int) -> int {
    (if eq_fold(e.from_address@, zero_addr()) {
        id_sum(e.ids@.take(j), e.values@.take(j), id)
    } else {
        0
    }) - (if eq_fold(e.to_address@, zero_addr()) || eq_fold(e.to_address@, dead_addr()) {
        id_sum(e.ids@.take(j), e.values@.take(j), id)
    } else {
        0
    })
}

/// Fold one event into the circulating-count accumulator.
fn apply_supply_event(acc: &mut Vec<(u64, i128)>, e: &ReplayEvent, zero: &Vec<u8>, dead: &Vec<u8>)
    requires
        e.wf(),
        zero@ == zero_addr(),
        dead@ == dead_addr(),
        acc_sorted(old(acc)@),
        forall|k: u64|
            -0x10000000000000000000000000000 <= #[trigger] bal_of(old(acc)@, k)
                <= 0x10000000000000000000000000000,
    ensures
        acc_sorted(final(acc)@),
        forall|k: u64| bal_of(final(acc)@, k) == bal_of(old(acc)@, k) + supply_delta(*e, k),
{
    let is_mint = eq_ignore_case(&e.from_address, zero);
    let is_burn = eq_ignore_case(&e.to_address, zero) || eq_ignore_case(&e.to_address, dead);
    proof {
        crate::ascii::lemma_lower_idempotent(zero_addr());
        crate::ascii::lemma_lower_idempotent(dead_addr());
    }
    if !is_mint && !is_burn {
        proof {
            assert(forall|k: u64| supply_delta(*e, k) == 0);
        }
        return ;
    }
    let n = e.ids.len();
    let mut j: usize = 0;
    while j < n
        invariant
            j <= n,
            n == e.ids@.len(),
            e.wf(),
            is_mint == eq_fold(e.from_address@, zero_addr()),
            is_burn == (eq_fold(e.to_address@, zero_addr()) || eq_fold(
                e.to_address@,
                dead_addr(),
            )),
            is_mint || is_burn,
            acc_sorted(acc@),
            forall|k: u64|
                bal_of(acc@, k) == bal_of(old(acc)@, k) + partial_supply(*e, k, j as int),
            forall|k: u64|
                -0x10000000000000000000000000000 <= #[trigger] bal_of(old(acc)@, k)
                    <= 0x10000000000000000000000000000,
        decreases n - j,
    {
        let id = e.ids[j];
        let v = e.values[j];
        proof {
            lemma_id_sum_bound(e.ids@.take(j as int), e.values@.take(j as int), id);
            assert(e.ids@.take(j as int).len() * 0xFFFFFFFFFFFFFFFF <= 0x10000
                * 0xFFFFFFFFFFFFFFFF) by (nonlinear_arith)
                requires
                    e.ids@.take(j as int).len() <= 0x10000,
            ;
            assert(0x10000 * 0xFFFFFFFFFFFFFFFF == 0xFFFFFFFFFFFFFFFF0000) by (nonlinear_arith);
        }
        if is_mint {
            bal_add(acc, id, v as i128);
        }
        if is_burn {
            proof {
                if is_mint {
                    lemma_id_sum_bound(e.ids@.take(j as int), e.values@.take(j as int), id);
                }
            }
            bal_add(acc, id, -(v as i128));
        }
        j += 1;
        proof {
            assert(e.ids@.take(j as int).drop_last() =~= e.ids@.take(j - 1));
            assert(e.values@.take(j as int).drop_last() =~= e.values@.take(j - 1));
            assert forall|k: u64|
                bal_of(acc@, k) == bal_of(old(acc)@, k) + partial_supply(*e, k, j as int) by {
                assert(e.ids@.take(j as int).last() == e.ids@[j - 1]);
                assert(e.values@.take(j as int).last() == e.values@[j - 1]);
                lemma_id_sum_bound(e.ids@.take(j - 1), e.values@.take(j - 1), k);
            }
        }
    }
    proof {
        assert(e.ids@.take(n as int) =~= e.ids@);
        assert(e.values@.take(n as int) =~= e.values@);
        assert(forall|k: u64| partial_supply(*e, k, n as int) == supply_delta(*e, k));
    }
}

/// Every token id currently in existence for a collection: ids whose mints
/// exceed their burns, ascending.
pub fn get_entire_collection(events: &Vec<ReplayEvent>) -> (r: Vec<u64>)
    requires
        events_wf(events@),
        events@.len() <= max_events(),
    ensures
        forall|i: int, j: int| 0 <= i < j < r@.len() ==> r@[i] < r@[j],
        forall|i: int| 0 <= i < r@.len() ==> supply(events@, #[trigger] r@[i]) > 0,
        forall|k: u64| supply(events@, k) > 0 ==> r@.contains(k),
{
    let zero = zero_address();
    let dead = dead_address();
    let mut acc: Vec<(u64, i128)> = Vec::new();
    let n = events.len();
    let mut t: usize = 0;
    while t < n
        invariant
            t <= n,
            n == events@.len(),
            events@.len() <= max_events(),
            events_wf(events@),
            zero@ == zero_addr(),
            dead@ == dead_addr(),
            acc_sorted(acc@),
            forall|k: u64| #[trigger] bal_of(acc@, k) == supply(events@.take(t as int), k),
        decreases n - t,
    {
        proof {
            assert(events_wf(events@.take(t as int))) by {
                assert(forall|i: int|
                    0 <= i < t ==> events@.take(t as int)[i] == events@[i]);
            }
            assert forall|k: u64|
                -0x10000000000000000000000000000 <= #[trigger] bal_of(acc@, k)
                    <= 0x10000000000000000000000000000 by {
                lemma_supply_bound(events@.take(t as int), k);
                assert(events@.take(t as int).len() * 0x100000000000000000000 <= 0x100000000
                    * 0x100000000000000000000) by (nonlinear_arith)
                    requires
                        events@.take(t as int).len() <= 0x100000000,
                ;
            }
            assert(events@[t as int].wf());
        }
        apply_supply_event(&mut acc, &events[t], &zero, &dead);
        t += 1;
        proof {
            assert(events@.take(t as int).drop_last() =~= events@.take(t - 1));
            assert(events@.take(t as int).last() == events@[t - 1]);
            assert forall|k: u64|
                #[trigger] bal_of(acc@, k) == supply(events@.take(t as int), k) by {
                let f = |a: int, e: ReplayEvent| a + supply_delta(e, k);
                assert(supply(events@.take(t as int), k) == f(
                    events@.take(t - 1).fold_left(0int, f),
                    events@[t - 1],
                ));
            }
        }
    }
    proof {
        assert(events@.take(n as int) =~= events@);
    }
    let entries = positive_entries(&acc);
    let m = entries.len();
    let mut out: Vec<u64> = Vec::new();
    let mut i: usize = 0;
    while i < m
        invariant
            i <= m,
            m == entries@.len(),
            keys_sorted64(entries@),
            out@.len() == i,
            forall|p: int| 0 <= p < i ==> out@[p] == (#[trigger] entries@[p]).0,
        decreases m - i,
    {
        let e = entries[i];
        out.push(e.0);
        i += 1;
    }
    proof {
        assert forall|p: int, q: int| 0 <= p < q < out@.len() implies out@[p] < out@[q] by {
            assert(out@[p] == entries@[p].0);
            assert(out@[q] == entries@[q].0);
        }
        assert forall|p: int| 0 <= p < out@.len() implies supply(events@, #[trigger] out@[p])
            > 0 by {
            assert(out@[p] == entries@[p].0);
            assert(bal_of(acc@, entries@[p].0) > 0);
        }
        assert forall|k: u64| supply(events@, k) > 0 implies out@.contains(k) by {
            assert(bal_of(acc@, k) == supply(events@, k));
            assert(has_key64(entries@, k));
            let p = choose|p: int|
                0 <= p < entries@.len() && (#[trigger] entries@[p]).0 == k;
            assert(out@[p] == k);
        }
    }
    out
}

/// Two strictly ascending id lists with the same members are equal.
pub proof fn lemma_sorted_ids_unique(o1: Seq<u64>, o2: Seq<u64>)
    requires
        forall|i: int, j: int| 0 <= i < j < o1.len() ==> o1[i] < o1[j],
        forall|i: int, j: int| 0 <= i < j < o2.len() ==> o2[i] < o2[j],
        forall|k: u64| o1.contains(k) <==> o2.contains(k),
    ensures
        o1 == o2,
    decreases o1.len(),
{
    if o1.len() == 0 {
        if o2.len() > 0 {
            assert(o2.contains(o2[0]));
        }
        assert(o1 =~= o2);
    } else {
        assert(o1.contains(o1[0]));
        assert(o2.contains(o1[0]));
        if o2.len() == 0 {
            assert(!o2.contains(o1[0]));
        }
        assert(o2.contains(o2[0]));
        assert(o1.contains(o2[0]));
        let i1 = choose|i: int| 0 <= i < o1.len() && o1[i] == o2[0];
        let i2 = choose|i: int| 0 <= i < o2.len() && o2[i] == o1[0];
        assert(o1[0] <= o1[i1] == o2[0]);
        assert(o2[0] <= o2[i2] == o1[0]);
        assert(o1[0] == o2[0]);
        assert forall|k: u64| o1.drop_first().contains(k) <==> o2.drop_first().contains(
            k,
        ) by {
            if o1.drop_first().contains(k) {
                let i = choose|i: int|
                    0 <= i < o1.drop_first().len() && o1.drop_first()[i] == k;
                assert(o1[i + 1] == k);
                assert(o1.contains(k));
                assert(o2.contains(k));
                let j = choose|j: int| 0 <= j < o2.len() && o2[j] == k;
                assert(o1[0] < o1[i + 1]);
                assert(j != 0);
                assert(o2.drop_first()[j - 1] == k);
            }
            if o2.drop_first().contains(k) {
                let i = choose|i: int|
                    0 <= i < o2.drop_first().len() && o2.drop_first()[i] == k;
                assert(o2[i + 1] == k);
                assert(o2.contains(k));
                assert(o1.contains(k));
                let j = choose|j: int| 0 <= j < o1.len() && o1[j] == k;
                assert(o2[0] < o2[i + 1]);
                assert(j != 0);
                assert(o1.drop_first()[j - 1] == k);
            }
        }
        lemma_sorted_ids_unique(o1.drop_first(), o2.drop_first());
        assert(o1 =~= seq![o1[0]] + o1.drop_first());
        assert(o2 =~= seq![o2[0]] + o2.drop_first());
    }
}

/// Permuting the events does not change the list of existing tokens: any
/// two results that meet `get_entire_collection`'s contract for event
/// lists with equal multisets are the same list.
pub proof fn lemma_existing_tokens_permutation(
    e1: Seq<ReplayEvent>,
    e2: Seq<ReplayEvent>,
    o1: Seq<u64>,
    o2: Seq<u64>,
)
    requires
        e1.to_multiset() == e2.to_multiset(),
        forall|i: int, j: int| 0 <= i < j < o1.len() ==> o1[i] < o1[j],
        forall|i: int| 0 <= i < o1.len() ==> supply(e1, #[trigger] o1[i]) > 0,
        forall|k: u64| supply(e1, k) > 0 ==> o1.contains(k),
        forall|i: int, j: int| 0 <= i < j < o2.len() ==> o2[i] < o2[j],
        forall|i: int| 0 <= i < o2.len() ==> supply(e2, #[trigger] o2[i]) > 0,
        forall|k: u64| supply(e2, k) > 0 ==> o2.contains(k),
    ensures
        o1 == o2,
{
    lemma_supply_permutation(e1, e2);
    assert forall|k: u64| o1.contains(k) <==> o2.contains(k) by {
        if o1.contains(k) {
            let i = choose|i: int| 0 <= i < o1.len() && o1[i] == k;
            assert(supply(e1, o1[i]) > 0);
        }
        if o2.contains(k) {
            let i = choose|i: int| 0 <= i < o2.len() && o2[i] == k;
            assert(supply(e2, o2[i]) > 0);
        }
    }
    lemma_sorted_ids_unique(o1, o2);
}

/// Two strictly key-sorted balance lists with the same keys and values are
/// equal.
pub proof fn lemma_sorted_pairs_unique(o1: Seq<(u64, u64)>, o2: Seq<(u64, u64)>)
    requires
        keys_sorted64(o1),
        keys_sorted64(o2),
        forall|k: u64| has_key64(o1, k) <==> has_key64(o2, k),
        forall|i: int, j: int|
            0 <= i < o1.len() && 0 <= j < o2.len() && (#[trigger] o1[i]).0 == (
            #[trigger] o2[j]).0 ==> o1[i].1 == o2[j].1,
    ensures
        o1 == o2,
    decreases o1.len(),
{
    if o1.len() == 0 {
        if o2.len() > 0 {
            assert(has_key64(o2, o2[0].0));
        }
        assert(o1 =~= o2);
    } else {
        assert(has_key64(o1, o1[0].0));
        assert(has_key64(o2, o1[0].0));
        if o2.len() == 0 {
            assert(!has_key64(o2, o1[0].0));
        }
        assert(has_key64(o2, o2[0].0));
        assert(has_key64(o1, o2[0].0));
        let i1 = choose|i: int| 0 <= i < o1.len() && (#[trigger] o1[i]).0 == o2[0].0;
        let i2 = choose|i: int| 0 <= i < o2.len() && (#[trigger] o2[i]).0 == o1[0].0;
        assert(o1[0].0 <= o1[i1].0);
        assert(o2[0].0 <= o2[i2].0);
        assert(o1[0].0 == o2[0].0);
        assert(o1[0].1 == o2[0].1);
        assert(o1[0] == o2[0]);
        assert forall|k: u64| has_key64(o1.drop_first(), k) <==> has_key64(
            o2.drop_first(),
            k,
        ) by {
            if has_key64(o1.drop_first(), k) {
                let i = choose|i: int|
                    0 <= i < o1.drop_first().len() && (#[trigger] o1.drop_first()[i]).0 == k;
                assert(o1[i + 1].0 == k);
                assert(has_key64(o1, k));
                assert(has_key64(o2, k));
                let j = choose|j: int| 0 <= j < o2.len() && (#[trigger] o2[j]).0 == k;
                assert(o1[0].0 < o1[i + 1].0);
                assert(j != 0);
                assert(o2.drop_first()[j - 1].0 == k);
            }
            if has_key64(o2.drop_first(), k) {
                let i = choose|i: int|
                    0 <= i < o2.drop_first().len() && (#[trigger] o2.drop_first()[i]).0 == k;
                assert(o2[i + 1].0 == k);
                assert(has_key64(o2, k));
                assert(has_key64(o1, k));
                let j = choose|j: int| 0 <= j < o1.len() && (#[trigger] o1[j]).0 == k;
                assert(o2[0].0 < o2[i + 1].0);
                assert(j != 0);
                assert(o1.drop_first()[j - 1].0 == k);
            }
        }
        assert forall|i: int, j: int|
            0 <= i < o1.drop_first().len() && 0 <= j < o2.drop_first().len() && (
            #[trigger] o1.drop_first()[i]).0 == (#[trigger] o2.drop_first()[j]).0 implies o1
            .drop_first()[i].1 == o2.drop_first()[j].1 by {
            assert(o1.drop_first()[i] == o1[i + 1]);
            assert(o2.drop_first()[j] == o2[j + 1]);
        }
        lemma_sorted_pairs_unique(o1.drop_first(), o2.drop_first());
        assert(o1 =~= seq![o1[0]] + o1.drop_first());
        assert(o2 =~= seq![o2[0]] + o2.drop_first());
    }
}

/// Asking for a wallet's balances under any capitalisation of its address
/// gives the same list: any two results that meet
/// `get_entire_collection_for_address`'s contract for case-equal wallets
/// are the same list.
pub proof fn lemma_balances_case_insensitive_output(
    evts: Seq<ReplayEvent>,
    w1: Seq<u8>,
    w2: Seq<u8>,
    o1: Seq<(u64, u64)>,
    o2: Seq<(u64, u64)>,
)
    requires
        eq_fold(w1, w2),
        keys_sorted64(o1),
        forall|i: int|
            0 <= i < o1.len() ==> net_balance(evts, lower_seq(w1), (#[trigger] o1[i]).0) > 0
                && o1[i].1 == clamp_u64(net_balance(evts, lower_seq(w1), o1[i].0)),
        forall|k: u64| net_balance(evts, lower_seq(w1), k) > 0 ==> has_key64(o1, k),
        keys_sorted64(o2),
        forall|i: int|
            0 <= i < o2.len() ==> net_balance(evts, lower_seq(w2), (#[trigger] o2[i]).0) > 0
                && o2[i].1 == clamp_u64(net_balance(evts, lower_seq(w2), o2[i].0)),
        forall|k: u64| net_balance(evts, lower_seq(w2), k) > 0 ==> has_key64(o2, k),
    ensures
        o1 == o2,
{
    assert(lower_seq(w1) == lower_seq(w2));
    assert forall|k: u64| has_key64(o1, k) <==> has_key64(o2, k) by {
        if has_key64(o1, k) {
            let i = choose|i: int| 0 <= i < o1.len() && (#[trigger] o1[i]).0 == k;
            assert(net_balance(evts, lower_seq(w1), o1[i].0) > 0);
        }
        if has_key64(o2, k) {
            let i = choose|i: int| 0 <= i < o2.len() && (#[trigger] o2[i]).0 == k;
            assert(net_balance(evts, lower_seq(w2), o2[i].0) > 0);
        }
    }
    lemma_sorted_pairs_unique(o1, o2);
}


/// The values summed over one event's positions for `id`, as an integer.
fn sum_for_id(e: &ReplayEvent, id: u64) -> (s: i128)
    requires
        e.wf(),
    ensures
        s == id_sum(e.ids@, e.values@, id),
        0 <= s <= 0x100000000000000000000,
{
    let n = e.ids.len();
    let mut s: i128 = 0;
    let mut j: usize = 0;
    while j < n
        invariant
            j <= n,
            n == e.ids@.len(),
            e.wf(),
            s == id_sum(e.ids@.take(j as int), e.values@.take(j as int), id),
            0 <= s <= j * 0xFFFFFFFFFFFFFFFF,
        decreases n - j,
    {
        proof {
            assert(e.ids@.take(j as int + 1).drop_last() =~= e.ids@.take(j as int));
            assert(e.values@.take(j as int + 1).drop_last() =~= e.values@.take(j as int));
            assert((j + 1) * 0xFFFFFFFFFFFFFFFF == j * 0xFFFFFFFFFFFFFFFF + 0xFFFFFFFFFFFFFFFF)
                by (nonlinear_arith);
        }
        if e.ids[j] == id {
            s = s + e.values[j] as i128;
        }
        j += 1;
    }
    proof {
        assert(e.ids@.take(n as int) =~= e.ids@);
        assert(e.values@.take(n as int) =~= e.values@);
        assert(n * 0xFFFFFFFFFFFFFFFF <= 0x10000 * 0xFFFFFFFFFFFFFFFF) by (nonlinear_arith)
            requires
                n <= 0x10000,
        ;
        assert(0x10000 * 0xFFFFFFFFFFFFFFFF == 0xFFFFFFFFFFFFFFFF0000) by (nonlinear_arith);
    }
    s
}

/// The balance of one wallet (given lowercased) for one token id.
fn net_for(events: &Vec<ReplayEvent>, wl: &Vec<u8>, id: u64) -> (s: i128)
    requires
        events_wf(events@),
        events@.len() <= max_events(),
        wl@ == lower_seq(wl@),
    ensures
        s == net_balance(events@, wl@, id),
{
    let n = events.len();
    let mut s: i128 = 0;
    let mut t: usize = 0;
    while t < n
        invariant
            t <= n,
            n == events@.len(),
            events@.len() <= max_events(),
            events_wf(events@),
            wl@ == lower_seq(wl@),
            s == net_balance(events@.take(t as int), wl@, id),
            -(t * 0x100000000000000000000) <= s <= t * 0x100000000000000000000,
        decreases n - t,
    {
        proof {
            assert(events@[t as int].wf());
            assert(t * 0x100000000000000000000 <= 0x100000000 * 0x100000000000000000000)
                by (nonlinear_arith)
                requires
                    t <= 0x100000000,
            ;
            assert((t + 1) * 0x100000000000000000000 == t * 0x100000000000000000000
                + 0x100000000000000000000) by (nonlinear_arith);
        }
        let e = &events[t];
        let to_match = eq_ignore_case(&e.to_address, wl);
        let from_match = eq_ignore_case(&e.from_address, wl);
        if to_match || from_match {
            let v = sum_for_id(e, id);
            if to_match {
                s = s + v;
            }
            if from_match {
                s = s - v;
            }
        }
        t += 1;
        proof {
            assert(events@.take(t as int).drop_last() =~= events@.take(t - 1));
            assert(events@.take(t as int).last() == events@[t - 1]);
            let f = |a: int, e2: ReplayEvent| a + event_delta(e2, wl@, id);
            assert(net_balance(events@.take(t as int), wl@, id) == f(
                events@.take(t - 1).fold_left(0int, f),
                events@[t - 1],
            ));
        }
    }
    proof {
        assert(events@.take(n as int) =~= events@);
    }
    s
}

/// Membership of a byte string in a list of byte vectors.
pub open spec fn contains_bytes(s: Seq<Vec<u8>>, k: Seq<u8>) -> bool {
    exists|i: int| 0 <= i < s.len() && (#[trigger] s[i])@ == k
}

/// Strictly ascending in lexicographic order.
pub open spec fn addrs_sorted(s: Seq<Vec<u8>>) -> bool {
    forall|i: int, j: int|
        0 <= i < j < s.len() ==> crate::bytes_ord::lex_le((#[trigger] s[i])@, (#[trigger] s[j])@)
            && s[i]@ != s[j]@
}

/// Insert `key` into a sorted list of distinct byte strings, if absent.
pub(crate) fn insert_addr_sorted(list: &mut Vec<Vec<u8>>, key: Vec<u8>)
    requires
        addrs_sorted(old(list)@),
    ensures
        addrs_sorted(final(list)@),
        forall|k: Seq<u8>|
            contains_bytes(final(list)@, k) == (contains_bytes(old(list)@, k) || k == key@),
{
    let n = list.len();
    let mut i: usize = 0;
    loop
        invariant_except_break
            i <= n,
            n == list@.len(),
            list@ == old(list)@,
            forall|j: int|
                0 <= j < i ==> crate::bytes_ord::lex_le((#[trigger] list@[j])@, key@)
                    && list@[j]@ != key@,
        ensures
            i <= n,
            n == list@.len(),
            list@ == old(list)@,
            forall|j: int|
                0 <= j < i ==> crate::bytes_ord::lex_le((#[trigger] list@[j])@, key@)
                    && list@[j]@ != key@,
            i < n ==> !(crate::bytes_ord::lex_le(list@[i as int]@, key@) && list@[i as int]@
                != key@),
        decreases n - i,
    {
        if i == n {
            break;
        }
        let le = crate::bytes_ord::lex_le_bytes(&list[i], &key);
        let eqk = crate::ascii::bytes_eq(&list[i], &key);
        if !le || eqk {
            break;
        }
        i += 1;
    }
    let ghost s = list@;
    if i < n && crate::ascii::bytes_eq(&list[i], &key) {
        proof {
            assert(contains_bytes(s, key@));
        }
        return ;
    }
    proof {
        if i < n {
            assert(!(crate::bytes_ord::lex_le(s[i as int]@, key@) && s[i as int]@ != key@));
            assert(s[i as int]@ != key@);
            crate::bytes_ord::lemma_lex_total(s[i as int]@, key@);
            assert(crate::bytes_ord::lex_le(key@, s[i as int]@));
        }
        assert(!contains_bytes(s, key@)) by {
            if contains_bytes(s, key@) {
                let j = choose|j: int| 0 <= j < s.len() && (#[trigger] s[j])@ == key@;
                if j >= i {
                    if i < n {
                        if j > i {
                            assert(crate::bytes_ord::lex_le(s[i as int]@, s[j]@));
                            crate::bytes_ord::lemma_lex_antisymmetric(s[i as int]@, key@);
                        }
                    }
                }
            }
        }
    }
    list.insert(i, key);
    proof {
        let t = list@;
        assert(t == s.insert(i as int, key));
        assert forall|p: int, q: int|
            0 <= p < q < t.len() implies crate::bytes_ord::lex_le(
            (#[trigger] t[p])@,
            (#[trigger] t[q])@,
        ) && t[p]@ != t[q]@ by {
            if q == i {
                assert(t[p] == s[p]);
                assert(crate::bytes_ord::lex_le(s[p]@, key@));
            } else if p == i {
                assert(t[q] == s[q - 1]);
                assert(i < n);
                if q - 1 > i {
                    assert(crate::bytes_ord::lex_le(s[i as int]@, s[q - 1]@));
                    crate::bytes_ord::lemma_lex_transitive(key@, s[i as int]@, s[q - 1]@);
                    assert(key@ != s[q - 1]@) by {
                        if key@ == s[q - 1]@ {
                            crate::bytes_ord::lemma_lex_antisymmetric(s[i as int]@, key@);
                        }
                    }
                }
            } else if p < i && q > i {
                assert(t[p] == s[p]);
                assert(t[q] == s[q - 1]);
                if p < q - 1 {
                } else {
                    assert(p == q - 1);
                    assert(crate::bytes_ord::lex_le(s[p]@, key@));
                    assert(i < n ==> crate::bytes_ord::lex_le(key@, s[i as int]@));
                    assert(p == i - 1 || p >= i);
                    assert(q - 1 == i || q - 1 > i);
                    assert(p < i && q - 1 >= i && p == q - 1);
                }
            } else if q < i {
                assert(t[p] == s[p] && t[q] == s[q]);
            } else {
                assert(t[p] == s[p - 1] && t[q] == s[q - 1]);
            }
        }
        assert forall|k: Seq<u8>|
            contains_bytes(t, k) == (contains_bytes(s, k) || k == key@) by {
            if contains_bytes(t, k) {
                let j = choose|j: int| 0 <= j < t.len() && (#[trigger] t[j])@ == k;
                if j < i {
                    assert(s[j]@ == k);
                } else if j > i {
                    assert(s[j - 1]@ == k);
                }
            }
            if contains_bytes(s, k) {
                let j = choose|j: int| 0 <= j < s.len() && (#[trigger] s[j])@ == k;
                if j < i {
                    assert(t[j]@ == k);
                } else {
                    assert(t[j + 1]@ == k);
                }
            }
            if k == key@ {
                assert(t[i as int]@ == k);
            }
        }
    }
}

/// The display form of an address string: its EIP-55 rendering where it
/// is a hexadecimal address, else the string itself.
pub open spec fn display_form(a: Seq<u8>) -> Seq<u8> {
    if crate::ascii::is_hex_address(a) {
        crate::checksum::checksum_of(a)
    } else {
        a
    }
}

fn display_address(a: &Vec<u8>) -> (r: Vec<u8>)
    ensures
        r@ == display_form(a@),
{
    if crate::ascii::check_hex_address(a) {
        crate::checksum::checksum_address(a)
    } else {
        copy_bytes(a)
    }
}

/// An owner candidate: an address that an event names, in lowercase,
/// other than the dead burn sink. The zero address is not excluded here;
/// its balance keeps it out wherever mints exceed what it received.
pub open spec fn is_owner_candidate(evts: Seq<ReplayEvent>, a: Seq<u8>) -> bool {
    &&& a != dead_addr()
    &&& exists|i: int|
        0 <= i < evts.len() && (lower_seq((#[trigger] evts[i]).from_address@) == a || lower_seq(
            evts[i].to_address@,
        ) == a)
}

/// The distinct owner candidates of an event list, lowercased and sorted.
fn collect_owner_candidates(events: &Vec<ReplayEvent>) -> (r: Vec<Vec<u8>>)
    ensures
        addrs_sorted(r@),
        forall|a: Seq<u8>| contains_bytes(r@, a) == is_owner_candidate(events@, a),
{
    let dead = dead_address();
    let n = events.len();
    let mut list: Vec<Vec<u8>> = Vec::new();
    let mut t: usize = 0;
    while t < n
        invariant
            t <= n,
            n == events@.len(),
            dead@ == dead_addr(),
            addrs_sorted(list@),
            forall|a: Seq<u8>|
                contains_bytes(list@, a) == (a != dead_addr() && exists|i: int|
                    0 <= i < t && (lower_seq((#[trigger] events@[i]).from_address@) == a
                        || lower_seq(events@[i].to_address@) == a)),
        decreases n - t,
    {
        let fl = to_lowercase(&events[t].from_address);
        let tl = to_lowercase(&events[t].to_address);
        if !crate::ascii::bytes_eq(&fl, &dead) {
            insert_addr_sorted(&mut list, fl);
        }
        if !crate::ascii::bytes_eq(&tl, &dead) {
            insert_addr_sorted(&mut list, tl);
        }
        t += 1;
        proof {
            assert forall|a: Seq<u8>|
                contains_bytes(list@, a) == (a != dead_addr() && exists|i: int|
                    0 <= i < t && (lower_seq((#[trigger] events@[i]).from_address@) == a
                        || lower_seq(events@[i].to_address@) == a)) by {
                if a != dead_addr() && exists|i: int|
                    0 <= i < t && (lower_seq((#[trigger] events@[i]).from_address@) == a
                        || lower_seq(events@[i].to_address@) == a) {
                    let i = choose|i: int|
                        0 <= i < t && (lower_seq((#[trigger] events@[i]).from_address@) == a
                            || lower_seq(events@[i].to_address@) == a);
                    assert(i < t);
                }
            }
        }
    }
    list
}

/// The addresses that hold a positive balance of one token, lowercased,
/// ascending, each rendered in its EIP-55 display form. The dead address
/// never appears; the zero address only ever would on a store whose burns
/// to it outweigh its mints.
pub fn get_token_owners(events: &Vec<ReplayEvent>, token_id: u64) -> (r: Vec<Vec<u8>>)
    requires
        events_wf(events@),
        events@.len() <= max_events(),
    ensures
        exists|owners: Seq<Vec<u8>>|
            {
                &&& addrs_sorted(owners)
                &&& #[trigger] owners.len() == r@.len()
                &&& forall|a: Seq<u8>|
                    contains_bytes(owners, a) == (is_owner_candidate(events@, a) && net_balance(
                        events@,
                        a,
                        token_id,
                    ) > 0)
                &&& forall|i: int|
                    0 <= i < r@.len() ==> (#[trigger] r@[i])@ == display_form(owners[i]@)
            },
{
    let participants = collect_owner_candidates(events);
    let m = participants.len();
    let mut owners: Vec<Vec<u8>> = Vec::new();
    let mut out: Vec<Vec<u8>> = Vec::new();
    let mut i: usize = 0;
    while i < m
        invariant
            i <= m,
            m == participants@.len(),
            events_wf(events@),
            events@.len() <= max_events(),
            addrs_sorted(participants@),
            forall|a: Seq<u8>|
                contains_bytes(participants@, a) == is_owner_candidate(events@, a),
            addrs_sorted(owners@),
            owners@.len() == out@.len(),
            forall|p: int|
                0 <= p < owners@.len() ==> exists|j: int|
                    0 <= j < i && (#[trigger] owners@[p])@ == participants@[j]@,
            forall|a: Seq<u8>|
                contains_bytes(owners@, a) == (exists|j: int|
                    0 <= j < i && (#[trigger] participants@[j])@ == a && net_balance(
                        events@,
                        a,
                        token_id,
                    ) > 0),
            forall|p: int|
                0 <= p < out@.len() ==> (#[trigger] out@[p])@ == display_form(owners@[p]@),
        decreases m - i,
    {
        let a = &participants[i];
        proof {
            assert(contains_bytes(participants@, a@));
            assert(is_owner_candidate(events@, a@));
            let j = choose|j: int|
                0 <= j < events@.len() && (lower_seq(
                    (#[trigger] events@[j]).from_address@,
                ) == a@ || lower_seq(events@[j].to_address@) == a@);
            crate::ascii::lemma_lower_idempotent(events@[j].from_address@);
            crate::ascii::lemma_lower_idempotent(events@[j].to_address@);
        }
        let bal = net_for(events, a, token_id);
        let ghost owners_prev = owners@;
        if bal > 0 {
            proof {
                assert forall|p: int| 0 <= p < owners@.len() implies crate::bytes_ord::lex_le(
                    (#[trigger] owners@[p])@,
                    a@,
                ) && owners@[p]@ != a@ by {
                    let j = choose|j: int|
                        0 <= j < i && (#[trigger] owners@[p])@ == participants@[j]@;
                    assert(crate::bytes_ord::lex_le(participants@[j]@, participants@[i as int]@));
                }
            }
            let c = display_address(a);
            owners.push(a.clone());
            out.push(c);
            proof {
                assert(owners@[owners@.len() - 1]@ == a@);
            }
        }
        i += 1;
        proof {
            assert forall|a2: Seq<u8>|
                contains_bytes(owners@, a2) == (exists|j: int|
                    0 <= j < i && (#[trigger] participants@[j])@ == a2 && net_balance(
                        events@,
                        a2,
                        token_id,
                    ) > 0) by {
                if contains_bytes(owners@, a2) {
                    let p = choose|p: int|
                        0 <= p < owners@.len() && (#[trigger] owners@[p])@ == a2;
                    if p < owners_prev.len() {
                        assert(owners_prev[p]@ == a2);
                        assert(contains_bytes(owners_prev, a2));
                    } else {
                        assert(a2 == participants@[i - 1]@);
                    }
                }
                if exists|j: int|
                    0 <= j < i && (#[trigger] participants@[j])@ == a2 && net_balance(
                        events@,
                        a2,
                        token_id,
                    ) > 0 {
                    let j = choose|j: int|
                        0 <= j < i && (#[trigger] participants@[j])@ == a2 && net_balance(
                            events@,
                            a2,
                            token_id,
                        ) > 0;
                    if j < i - 1 {
                        assert(contains_bytes(owners_prev, a2));
                        let p = choose|p: int|
                            0 <= p < owners_prev.len() && (#[trigger] owners_prev[p])@ == a2;
                        assert(owners@[p]@ == a2);
                    } else {
                        assert(participants@[i - 1]@ == a2);
                        assert(bal > 0);
                        assert(contains_bytes(owners@, a2));
                    }
                }
            }
        }
    }
    proof {
        assert forall|a: Seq<u8>|
            contains_bytes(owners@, a) == (is_owner_candidate(events@, a) && net_balance(
                events@,
                a,
                token_id,
            ) > 0) by {
            if is_owner_candidate(events@, a) && net_balance(events@, a, token_id) > 0 {
                assert(contains_bytes(participants@, a));
                let j = choose|j: int|
                    0 <= j < participants@.len() && (#[trigger] participants@[j])@ == a;
            }
            if contains_bytes(owners@, a) {
                let j = choose|j: int|
                    0 <= j < m && (#[trigger] participants@[j])@ == a && net_balance(
                        events@,
                        a,
                        token_id,
                    ) > 0;
                assert(contains_bytes(participants@, a));
            }
        }
        assert(owners@.len() == out@.len());
    }
    out
}


/// A stored event together with the chain and contract it belongs to.
pub struct CollectionRow {
    pub chain: Vec<u8>,
    pub contract: Vec<u8>,
    pub event: ReplayEvent,
}

pub open spec fn rows_wf(rows: Seq<CollectionRow>) -> bool {
    forall|i: int| 0 <= i < rows.len() ==> (#[trigger] rows[i]).event.wf()
}

/// The balance of `wallet` for token `id` within one collection,
/// identified case-insensitively by chain name and contract address.
pub open spec fn net_in(
    rows: Seq<CollectionRow>,
    wallet: Seq<u8>,
    cn: Seq<u8>,
    xn: Seq<u8>,
    id: u64,
) -> int {
    rows.fold_left(
        0int,
        |acc: int, r: CollectionRow|
            acc + if eq_fold(r.chain@, cn) && eq_fold(r.contract@, xn) {
                event_delta(r.event, wallet, id)
            } else {
                0
            },
    )
}

/// One line of a wallet's cross-chain holdings: the collection, the token
/// and its positive balance. Chain and contract are lowercased.
pub struct FullEntry {
    pub chain: Vec<u8>,
    pub contract: Vec<u8>,
    pub token_id: u64,
    pub balance: u64,
}

/// Strict order on entry keys: chain, then contract, then token id.
pub open spec fn entry_lt(a: FullEntry, b: FullEntry) -> bool {
    ||| (crate::bytes_ord::lex_le(a.chain@, b.chain@) && a.chain@ != b.chain@)
    ||| (a.chain@ == b.chain@ && crate::bytes_ord::lex_le(a.contract@, b.contract@)
        && a.contract@ != b.contract@)
    ||| (a.chain@ == b.chain@ && a.contract@ == b.contract@ && a.token_id < b.token_id)
}

pub open spec fn entries_sorted(s: Seq<FullEntry>) -> bool {
    forall|p: int, q: int| 0 <= p < q < s.len() ==> entry_lt(#[trigger] s[p], #[trigger] s[q])
}

pub open spec fn has_entry(s: Seq<FullEntry>, cn: Seq<u8>, xn: Seq<u8>, id: u64) -> bool {
    exists|p: int|
        0 <= p < s.len() && (#[trigger] s[p]).chain@ == cn && s[p].contract@ == xn
            && s[p].token_id == id
}

/// Copy a byte vector.
pub(crate) fn copy_bytes(v: &Vec<u8>) -> (r: Vec<u8>)
    ensures
        r@ == v@,
{
    let mut r: Vec<u8> = Vec::new();
    let mut i: usize = 0;
    while i < v.len()
        invariant
            i <= v@.len(),
            r@ == v@.take(i as int),
        decreases v@.len() - i,
    {
        r.push(v[i]);
        i += 1;
        proof {
            assert(r@ =~= v@.take(i as int));
        }
    }
    proof {
        assert(v@.take(v@.len() as int) =~= v@);
    }
    r
}

/// Collection keys are matched case-insensitively: lowercasing them does
/// not change the balance.
pub proof fn lemma_net_in_lower(
    rows: Seq<CollectionRow>,
    w: Seq<u8>,
    cn: Seq<u8>,
    xn: Seq<u8>,
    id: u64,
)
    ensures
        net_in(rows, w, cn, xn, id) == net_in(rows, w, lower_seq(cn), lower_seq(xn), id),
    decreases rows.len(),
{
    if rows.len() > 0 {
        lemma_net_in_lower(rows.drop_last(), w, cn, xn, id);
        crate::ascii::lemma_lower_idempotent(cn);
        crate::ascii::lemma_lower_idempotent(xn);
        let f1 = |acc: int, r: CollectionRow|
            acc + if eq_fold(r.chain@, cn) && eq_fold(r.contract@, xn) {
                event_delta(r.event, w, id)
            } else {
                0
            };
        let f2 = |acc: int, r: CollectionRow|
            acc + if eq_fold(r.chain@, lower_seq(cn)) && eq_fold(r.contract@, lower_seq(xn)) {
                event_delta(r.event, w, id)
            } else {
                0
            };
        assert(net_in(rows, w, cn, xn, id) == f1(
            rows.drop_last().fold_left(0int, f1),
            rows.last(),
        ));
        assert(net_in(rows, w, lower_seq(cn), lower_seq(xn), id) == f2(
            rows.drop_last().fold_left(0int, f2),
            rows.last(),
        ));
    }
}

/// Where no row belongs to the collection, the balance is zero.
pub proof fn lemma_net_in_zero(
    rows: Seq<CollectionRow>,
    w: Seq<u8>,
    cn: Seq<u8>,
    xn: Seq<u8>,
    id: u64,
)
    requires
        forall|i: int|
            0 <= i < rows.len() ==> !(eq_fold((#[trigger] rows[i]).chain@, cn) && eq_fold(
                rows[i].contract@,
                xn,
            )),
    ensures
        net_in(rows, w, cn, xn, id) == 0,
    decreases rows.len(),
{
    if rows.len() > 0 {
        assert(forall|i: int|
            0 <= i < rows.len() - 1 ==> rows.drop_last()[i] == rows[i]);
        lemma_net_in_zero(rows.drop_last(), w, cn, xn, id);
        let f = |acc: int, r: CollectionRow|
            acc + if eq_fold(r.chain@, cn) && eq_fold(r.contract@, xn) {
                event_delta(r.event, w, id)
            } else {
                0
            };
        assert(net_in(rows, w, cn, xn, id) == f(
            rows.drop_last().fold_left(0int, f),
            rows.last(),
        ));
        assert(rows[rows.len() - 1] == rows.last());
    }
}

pub proof fn lemma_net_in_bound(
    rows: Seq<CollectionRow>,
    w: Seq<u8>,
    cn: Seq<u8>,
    xn: Seq<u8>,
    id: u64,
)
    requires
        rows_wf(rows),
    ensures
        -(rows.len() * 0x100000000000000000000) <= net_in(rows, w, cn, xn, id) <= rows.len()
            * 0x100000000000000000000,
    decreases rows.len(),
{
    if rows.len() > 0 {
        assert(rows_wf(rows.drop_last())) by {
            assert(forall|i: int|
                0 <= i < rows.len() - 1 ==> rows.drop_last()[i] == rows[i]);
        }
        lemma_net_in_bound(rows.drop_last(), w, cn, xn, id);
        assert(rows[rows.len() - 1] == rows.last());
        lemma_delta_bound(rows.last().event, w, id);
        let f = |acc: int, r: CollectionRow|
            acc + if eq_fold(r.chain@, cn) && eq_fold(r.contract@, xn) {
                event_delta(r.event, w, id)
            } else {
                0
            };
        assert(net_in(rows, w, cn, xn, id) == f(
            rows.drop_last().fold_left(0int, f),
            rows.last(),
        ));
        assert((rows.len() - 1) * 0x100000000000000000000 + 0x100000000000000000000 == rows.len()
            * 0x100000000000000000000) by (nonlinear_arith);
    }
}


/// Where an entry so far may sit: under an earlier chain, or under the
/// current chain and an earlier contract.
pub open spec fn entry_placed(
    chains: Seq<Vec<u8>>,
    ci: int,
    cn: Seq<u8>,
    contracts: Seq<Vec<u8>>,
    xi: int,
    e: FullEntry,
) -> bool {
    ||| (exists|j: int| 0 <= j < ci && e.chain@ == (#[trigger] chains[j])@)
    ||| (e.chain@ == cn && exists|j: int| 0 <= j < xi && e.contract@ == (#[trigger] contracts[j])@)
}

/// A wallet's cross-chain holdings: every chain, contract and token id
/// whose balance over the events comes out positive, with that balance,
/// ordered by chain, contract, then id; chain and contract keys are
/// lowercased. Balances of zero or below never appear, so collections and
/// chains that net to nothing leave no entry.
#[verifier::rlimit(50)]
pub fn get_user_full_collection(
    rows: &Vec<CollectionRow>,
    wallet_address: &Vec<u8>,
) -> (r: Vec<FullEntry>)
    requires
        rows_wf(rows@),
        rows@.len() <= max_events(),
    ensures
        entries_sorted(r@),
        forall|p: int|
            0 <= p < r@.len() ==> (#[trigger] r@[p]).chain@ == lower_seq(r@[p].chain@)
                && r@[p].contract@ == lower_seq(r@[p].contract@) && net_in(
                rows@,
                lower_seq(wallet_address@),
                r@[p].chain@,
                r@[p].contract@,
                r@[p].token_id,
            ) > 0 && r@[p].balance == clamp_u64(
                net_in(
                    rows@,
                    lower_seq(wallet_address@),
                    r@[p].chain@,
                    r@[p].contract@,
                    r@[p].token_id,
                ),
            ),
        forall|cn: Seq<u8>, xn: Seq<u8>, id: u64|
            #[trigger] net_in(rows@, lower_seq(wallet_address@), cn, xn, id) > 0 ==> has_entry(
                r@,
                lower_seq(cn),
                lower_seq(xn),
                id,
            ),
{
    let wl = to_lowercase(wallet_address);
    proof {
        crate::ascii::lemma_lower_idempotent(wallet_address@);
    }
    let nrows = rows.len();
    let mut chains: Vec<Vec<u8>> = Vec::new();
    let mut t: usize = 0;
    while t < nrows
        invariant
            t <= nrows,
            nrows == rows@.len(),
            addrs_sorted(chains@),
            forall|a: Seq<u8>|
                contains_bytes(chains@, a) == (exists|i: int|
                    0 <= i < t && lower_seq((#[trigger] rows@[i]).chain@) == a),
        decreases nrows - t,
    {
        let cl = to_lowercase(&rows[t].chain);
        insert_addr_sorted(&mut chains, cl);
        t += 1;
        proof {
            assert forall|a: Seq<u8>|
                contains_bytes(chains@, a) == (exists|i: int|
                    0 <= i < t && lower_seq((#[trigger] rows@[i]).chain@) == a) by {
                if exists|i: int|
                    0 <= i < t && lower_seq((#[trigger] rows@[i]).chain@) == a {
                    let i = choose|i: int|
                        0 <= i < t && lower_seq((#[trigger] rows@[i]).chain@) == a;
                    assert(i < t);
                }
            }
        }
    }
    let mut out: Vec<FullEntry> = Vec::new();
    let nch = chains.len();
    let mut ci: usize = 0;
    while ci < nch
        invariant
            ci <= nch,
            nch == chains@.len(),
            nrows == rows@.len(),
            rows_wf(rows@),
            rows@.len() <= max_events(),
            wl@ == lower_seq(wallet_address@),
            wl@ == lower_seq(wl@),
            addrs_sorted(chains@),
            forall|a: Seq<u8>|
                contains_bytes(chains@, a) == (exists|i: int|
                    0 <= i < rows@.len() && lower_seq((#[trigger] rows@[i]).chain@) == a),
            entries_sorted(out@),
            forall|p: int|
                0 <= p < out@.len() ==> (#[trigger] out@[p]).chain@ == lower_seq(out@[p].chain@)
                    && out@[p].contract@ == lower_seq(out@[p].contract@) && net_in(
                    rows@,
                    wl@,
                    out@[p].chain@,
                    out@[p].contract@,
                    out@[p].token_id,
                ) > 0 && out@[p].balance == clamp_u64(
                    net_in(rows@, wl@, out@[p].chain@, out@[p].contract@, out@[p].token_id),
                ),
            forall|p: int|
                0 <= p < out@.len() ==> exists|j: int|
                    0 <= j < ci && (#[trigger] out@[p]).chain@ == (#[trigger] chains@[j])@,
            forall|cn2: Seq<u8>, xn2: Seq<u8>, id: u64|
                (exists|j: int| 0 <= j < ci && (#[trigger] chains@[j])@ == lower_seq(cn2))
                    && #[trigger] net_in(rows@, wl@, cn2, xn2, id) > 0 ==> has_entry(
                    out@,
                    lower_seq(cn2),
                    lower_seq(xn2),
                    id,
                ),
        decreases nch - ci,
    {
        let cn = &chains[ci];
        proof {
            assert(contains_bytes(chains@, cn@));
            let i0 = choose|i: int|
                0 <= i < rows@.len() && lower_seq((#[trigger] rows@[i]).chain@) == cn@;
            crate::ascii::lemma_lower_idempotent(rows@[i0].chain@);
            assert(cn@ == lower_seq(cn@));
        }
        let mut contracts: Vec<Vec<u8>> = Vec::new();
        let mut t2: usize = 0;
        while t2 < nrows
            invariant
                t2 <= nrows,
                nrows == rows@.len(),
                cn@ == chains@[ci as int]@,
                addrs_sorted(contracts@),
                forall|x: Seq<u8>|
                    contains_bytes(contracts@, x) == (exists|i: int|
                        0 <= i < t2 && eq_fold((#[trigger] rows@[i]).chain@, cn@) && lower_seq(
                            rows@[i].contract@,
                        ) == x),
            decreases nrows - t2,
        {
            if eq_ignore_case(&rows[t2].chain, cn) {
                let xl = to_lowercase(&rows[t2].contract);
                insert_addr_sorted(&mut contracts, xl);
            }
            t2 += 1;
            proof {
                assert forall|x: Seq<u8>|
                    contains_bytes(contracts@, x) == (exists|i: int|
                        0 <= i < t2 && eq_fold((#[trigger] rows@[i]).chain@, cn@) && lower_seq(
                            rows@[i].contract@,
                        ) == x) by {
                    if exists|i: int|
                        0 <= i < t2 && eq_fold((#[trigger] rows@[i]).chain@, cn@) && lower_seq(
                            rows@[i].contract@,
                        ) == x {
                        let i = choose|i: int|
                            0 <= i < t2 && eq_fold((#[trigger] rows@[i]).chain@, cn@)
                                && lower_seq(rows@[i].contract@) == x;
                        assert(i < t2);
                    }
                }
            }
        }
        let nx = contracts.len();
        let mut xi: usize = 0;
        while xi < nx
            invariant
                xi <= nx,
                nx == contracts@.len(),
                nch == chains@.len(),
                ci < nch,
                nrows == rows@.len(),
                rows_wf(rows@),
                rows@.len() <= max_events(),
                wl@ == lower_seq(wallet_address@),
                wl@ == lower_seq(wl@),
                addrs_sorted(chains@),
                forall|a: Seq<u8>|
                    contains_bytes(chains@, a) == (exists|i: int|
                        0 <= i < rows@.len() && lower_seq((#[trigger] rows@[i]).chain@) == a),
                cn@ == chains@[ci as int]@,
                cn@ == lower_seq(cn@),
                addrs_sorted(contracts@),
                forall|x: Seq<u8>|
                    contains_bytes(contracts@, x) == (exists|i: int|
                        0 <= i < rows@.len() && eq_fold((#[trigger] rows@[i]).chain@, cn@)
                            && lower_seq(rows@[i].contract@) == x),
                entries_sorted(out@),
                forall|p: int|
                    0 <= p < out@.len() ==> (#[trigger] out@[p]).chain@ == lower_seq(
                        out@[p].chain@,
                    ) && out@[p].contract@ == lower_seq(out@[p].contract@) && net_in(
                        rows@,
                        wl@,
                        out@[p].chain@,
                        out@[p].contract@,
                        out@[p].token_id,
                    ) > 0 && out@[p].balance == clamp_u64(
                        net_in(rows@, wl@, out@[p].chain@, out@[p].contract@, out@[p].token_id),
                    ),
                forall|p: int|
                    0 <= p < out@.len() ==> entry_placed(
                        chains@,
                        ci as int,
                        cn@,
                        contracts@,
                        xi as int,
                        #[trigger] out@[p],
                    ),
                forall|cn2: Seq<u8>, xn2: Seq<u8>, id: u64|
                    (exists|j: int| 0 <= j < ci && (#[trigger] chains@[j])@ == lower_seq(cn2))
                        && #[trigger] net_in(rows@, wl@, cn2, xn2, id) > 0 ==> has_entry(
                        out@,
                        lower_seq(cn2),
                        lower_seq(xn2),
                        id,
                    ),
                forall|xn2: Seq<u8>, id: u64|
                    (exists|j: int| 0 <= j < xi && (#[trigger] contracts@[j])@ == lower_seq(xn2))
                        && #[trigger] net_in(rows@, wl@, cn@, xn2, id) > 0 ==> has_entry(
                        out@,
                        cn@,
                        lower_seq(xn2),
                        id,
                    ),
            decreases nx - xi,
        {
            let xn = &contracts[xi];
            proof {
                assert(contains_bytes(contracts@, xn@));
                let i0 = choose|i: int|
                    0 <= i < rows@.len() && eq_fold((#[trigger] rows@[i]).chain@, cn@)
                        && lower_seq(rows@[i].contract@) == xn@;
                crate::ascii::lemma_lower_idempotent(rows@[i0].contract@);
                assert(xn@ == lower_seq(xn@));
            }
            let mut acc: Vec<(u64, i128)> = Vec::new();
            let mut t3: usize = 0;
            while t3 < nrows
                invariant
                    t3 <= nrows,
                    nrows == rows@.len(),
                    rows_wf(rows@),
                    rows@.len() <= max_events(),
                    wl@ == lower_seq(wl@),
                    acc_sorted(acc@),
                    forall|k: u64|
                        #[trigger] bal_of(acc@, k) == net_in(
                            rows@.take(t3 as int),
                            wl@,
                            cn@,
                            xn@,
                            k,
                        ),
                decreases nrows - t3,
            {
                proof {
                    assert(rows_wf(rows@.take(t3 as int))) by {
                        assert(forall|i: int|
                            0 <= i < t3 ==> rows@.take(t3 as int)[i] == rows@[i]);
                    }
                    assert forall|k: u64|
                        -0x10000000000000000000000000000 <= #[trigger] bal_of(acc@, k)
                            <= 0x10000000000000000000000000000 by {
                        lemma_net_in_bound(rows@.take(t3 as int), wl@, cn@, xn@, k);
                        assert(rows@.take(t3 as int).len() * 0x100000000000000000000
                            <= 0x100000000 * 0x100000000000000000000) by (nonlinear_arith)
                            requires
                                rows@.take(t3 as int).len() <= 0x100000000,
                        ;
                    }
                    assert(rows@[t3 as int].event.wf());
                }
                let matched = eq_ignore_case(&rows[t3].chain, cn) && eq_ignore_case(
                    &rows[t3].contract,
                    xn,
                );
                if matched {
                    apply_wallet_event(&mut acc, &rows[t3].event, &wl);
                }
                t3 += 1;
                proof {
                    assert(rows@.take(t3 as int).drop_last() =~= rows@.take(t3 - 1));
                    assert(rows@.take(t3 as int).last() == rows@[t3 - 1]);
                    assert forall|k: u64|
                        #[trigger] bal_of(acc@, k) == net_in(
                            rows@.take(t3 as int),
                            wl@,
                            cn@,
                            xn@,
                            k,
                        ) by {
                        let f = |a: int, r2: CollectionRow|
                            a + if eq_fold(r2.chain@, cn@) && eq_fold(r2.contract@, xn@) {
                                event_delta(r2.event, wl@, k)
                            } else {
                                0
                            };
                        assert(net_in(rows@.take(t3 as int), wl@, cn@, xn@, k) == f(
                            rows@.take(t3 - 1).fold_left(0int, f),
                            rows@[t3 - 1],
                        ));
                    }
                }
            }
            proof {
                assert(rows@.take(nrows as int) =~= rows@);
            }
            let entries = positive_entries(&acc);
            let ne = entries.len();
            let mut k: usize = 0;
            while k < ne
                invariant
                    k <= ne,
                    ne == entries@.len(),
                    nch == chains@.len(),
                    ci < nch,
                    xi < nx,
                    nx == contracts@.len(),
                    cn@ == chains@[ci as int]@,
                    cn@ == lower_seq(cn@),
                    xn@ == contracts@[xi as int]@,
                    xn@ == lower_seq(xn@),
                    addrs_sorted(chains@),
                    addrs_sorted(contracts@),
                    forall|k2: u64|
                        #[trigger] bal_of(acc@, k2) == net_in(rows@, wl@, cn@, xn@, k2),
                    forall|i: int, j: int|
                        0 <= i < j < entries@.len() ==> (#[trigger] entries@[i]).0 < (
                        #[trigger] entries@[j]).0,
                    forall|i: int|
                        0 <= i < entries@.len() ==> bal_of(acc@, (#[trigger] entries@[i]).0) > 0
                            && entries@[i].1 == clamp_u64(bal_of(acc@, entries@[i].0)),
                    entries_sorted(out@),
                    forall|p: int|
                        0 <= p < out@.len() ==> (#[trigger] out@[p]).chain@ == lower_seq(
                            out@[p].chain@,
                        ) && out@[p].contract@ == lower_seq(out@[p].contract@) && net_in(
                            rows@,
                            wl@,
                            out@[p].chain@,
                            out@[p].contract@,
                            out@[p].token_id,
                        ) > 0 && out@[p].balance == clamp_u64(
                            net_in(
                                rows@,
                                wl@,
                                out@[p].chain@,
                                out@[p].contract@,
                                out@[p].token_id,
                            ),
                        ),
                    forall|p: int|
                        0 <= p < out@.len() ==> entry_placed(
                            chains@,
                            ci as int,
                            cn@,
                            contracts@,
                            xi as int,
                            #[trigger] out@[p],
                        ) || (out@[p].chain@ == cn@ && out@[p].contract@ == xn@ && exists|k2: int|
                            0 <= k2 < k && out@[p].token_id == (#[trigger] entries@[k2]).0),
                    forall|cn2: Seq<u8>, xn2: Seq<u8>, id: u64|
                        (exists|j: int| 0 <= j < ci && (#[trigger] chains@[j])@ == lower_seq(cn2))
                            && #[trigger] net_in(rows@, wl@, cn2, xn2, id) > 0 ==> has_entry(
                            out@,
                            lower_seq(cn2),
                            lower_seq(xn2),
                            id,
                        ),
                    forall|xn2: Seq<u8>, id: u64|
                        (exists|j: int|
                            0 <= j < xi && (#[trigger] contracts@[j])@ == lower_seq(xn2))
                            && #[trigger] net_in(rows@, wl@, cn@, xn2, id) > 0 ==> has_entry(
                            out@,
                            cn@,
                            lower_seq(xn2),
                            id,
                        ),
                    forall|k2: int|
                        0 <= k2 < k ==> has_entry(out@, cn@, xn@, (#[trigger] entries@[k2]).0),
                decreases ne - k,
            {
                let (id, b) = entries[k];
                let e = FullEntry {
                    chain: copy_bytes(cn),
                    contract: copy_bytes(xn),
                    token_id: id,
                    balance: b,
                };
                let ghost out_prev = out@;
                proof {
                    assert forall|p: int| 0 <= p < out@.len() implies entry_lt(
                        #[trigger] out@[p],
                        e,
                    ) by {
                        if entry_placed(chains@, ci as int, cn@, contracts@, xi as int, out@[p]) {
                            if exists|j: int|
                                0 <= j < ci && out@[p].chain@ == (#[trigger] chains@[j])@ {
                                let j = choose|j: int|
                                    0 <= j < ci && out@[p].chain@ == (#[trigger] chains@[j])@;
                                assert(crate::bytes_ord::lex_le(chains@[j]@, chains@[ci as int]@)
                                    && chains@[j]@ != chains@[ci as int]@);
                            } else {
                                let j = choose|j: int|
                                    0 <= j < xi && out@[p].contract@ == (
                                    #[trigger] contracts@[j])@;
                                assert(crate::bytes_ord::lex_le(
                                    contracts@[j]@,
                                    contracts@[xi as int]@,
                                ) && contracts@[j]@ != contracts@[xi as int]@);
                            }
                        } else {
                            let k2 = choose|k2: int|
                                0 <= k2 < k && out@[p].token_id == (#[trigger] entries@[k2]).0;
                            assert(entries@[k2].0 < entries@[k as int].0);
                        }
                    }
                }
                out.push(e);
                k += 1;
                proof {
                    assert(out@[out@.len() - 1].chain@ == cn@);
                    assert(out@[out@.len() - 1].contract@ == xn@);
                    assert(out@[out@.len() - 1].token_id == entries@[k - 1].0);
                    assert(has_entry(out@, cn@, xn@, entries@[k - 1].0));
                    assert forall|k2: int|
                        0 <= k2 < k implies has_entry(out@, cn@, xn@, (#[trigger] entries@[k2]).0) by {
                        if k2 < k - 1 {
                            let p = choose|p: int|
                                0 <= p < out_prev.len() && (#[trigger] out_prev[p]).chain@ == cn@
                                    && out_prev[p].contract@ == xn@ && out_prev[p].token_id
                                    == entries@[k2].0;
                            assert(out@[p] == out_prev[p]);
                        }
                    }
                    assert forall|cn2: Seq<u8>, xn2: Seq<u8>, id2: u64|
                        (exists|j: int| 0 <= j < ci && (#[trigger] chains@[j])@ == lower_seq(cn2))
                            && #[trigger] net_in(rows@, wl@, cn2, xn2, id2) > 0 implies has_entry(
                        out@,
                        lower_seq(cn2),
                        lower_seq(xn2),
                        id2,
                    ) by {
                        let p = choose|p: int|
                            0 <= p < out_prev.len() && (#[trigger] out_prev[p]).chain@
                                == lower_seq(cn2) && out_prev[p].contract@ == lower_seq(xn2)
                                && out_prev[p].token_id == id2;
                        assert(out@[p] == out_prev[p]);
                    }
                    assert forall|xn2: Seq<u8>, id2: u64|
                        (exists|j: int|
                            0 <= j < xi && (#[trigger] contracts@[j])@ == lower_seq(xn2))
                            && #[trigger] net_in(rows@, wl@, cn@, xn2, id2) > 0 implies has_entry(
                        out@,
                        cn@,
                        lower_seq(xn2),
                        id2,
                    ) by {
                        let p = choose|p: int|
                            0 <= p < out_prev.len() && (#[trigger] out_prev[p]).chain@ == cn@
                                && out_prev[p].contract@ == lower_seq(xn2) && out_prev[p].token_id
                                == id2;
                        assert(out@[p] == out_prev[p]);
                    }
                }
            }
            xi += 1;
            proof {
                assert forall|xn2: Seq<u8>, id: u64|
                    (exists|j: int| 0 <= j < xi && (#[trigger] contracts@[j])@ == lower_seq(xn2))
                        && #[trigger] net_in(rows@, wl@, cn@, xn2, id) > 0 implies has_entry(
                    out@,
                    cn@,
                    lower_seq(xn2),
                    id,
                ) by {
                    let j = choose|j: int|
                        0 <= j < xi && (#[trigger] contracts@[j])@ == lower_seq(xn2);
                    if j < xi - 1 {
                    } else {
                        assert(contracts@[j]@ == xn@);
                        lemma_net_in_lower(rows@, wl@, cn@, xn2, id);
                        assert(net_in(rows@, wl@, lower_seq(cn@), lower_seq(xn2), id) > 0);
                        assert(lower_seq(cn@) == cn@);
                        assert(net_in(rows@, wl@, cn@, xn@, id) > 0);
                        assert(bal_of(acc@, id) > 0);
                        assert(has_key64(entries@, id));
                        assert(exists|k2: int|
                            0 <= k2 < entries@.len() && (#[trigger] entries@[k2]).0 == id);
                        let k2 = choose|k2: int|
                            0 <= k2 < entries@.len() && (#[trigger] entries@[k2]).0 == id;
                        assert(has_entry(out@, cn@, xn@, entries@[k2].0));
                    }
                }
                assert forall|p: int| 0 <= p < out@.len() implies entry_placed(
                    chains@,
                    ci as int,
                    cn@,
                    contracts@,
                    xi as int,
                    #[trigger] out@[p],
                ) by {
                    if out@[p].chain@ == cn@ && out@[p].contract@ == xn@ {
                        assert(xn@ == contracts@[xi - 1]@);
                    }
                }
            }
        }
        ci += 1;
        proof {
            assert forall|cn2: Seq<u8>, xn2: Seq<u8>, id: u64|
                (exists|j: int| 0 <= j < ci && (#[trigger] chains@[j])@ == lower_seq(cn2))
                    && #[trigger] net_in(rows@, wl@, cn2, xn2, id) > 0 implies has_entry(
                out@,
                lower_seq(cn2),
                lower_seq(xn2),
                id,
            ) by {
                let j = choose|j: int|
                    0 <= j < ci && (#[trigger] chains@[j])@ == lower_seq(cn2);
                if j < ci - 1 {
                } else {
                    assert(chains@[j]@ == cn@);
                    lemma_net_in_lower(rows@, wl@, cn2, xn2, id);
                    assert(net_in(rows@, wl@, cn@, lower_seq(xn2), id) > 0);
                    if exists|j2: int|
                        0 <= j2 < nx && (#[trigger] contracts@[j2])@ == lower_seq(xn2) {
                        let j2 = choose|j2: int|
                            0 <= j2 < nx && (#[trigger] contracts@[j2])@ == lower_seq(xn2);
                        assert(has_entry(out@, cn@, lower_seq(lower_seq(xn2)), id)) by {
                            crate::ascii::lemma_lower_idempotent(xn2);
                            assert(net_in(rows@, wl@, cn@, lower_seq(xn2), id) > 0);
                        }
                        crate::ascii::lemma_lower_idempotent(xn2);
                    } else {
                        assert forall|i: int|
                            0 <= i < rows@.len() implies !(eq_fold(
                            (#[trigger] rows@[i]).chain@,
                            cn@,
                        ) && eq_fold(rows@[i].contract@, lower_seq(xn2))) by {
                            if eq_fold(rows@[i].chain@, cn@) && eq_fold(
                                rows@[i].contract@,
                                lower_seq(xn2),
                            ) {
                                crate::ascii::lemma_lower_idempotent(xn2);
                                crate::ascii::lemma_lower_idempotent(rows@[i].contract@);
                                assert(lower_seq(rows@[i].contract@) == lower_seq(xn2));
                                assert(contains_bytes(contracts@, lower_seq(xn2)));
                                let j3 = choose|j3: int|
                                    0 <= j3 < contracts@.len() && (#[trigger] contracts@[j3])@
                                        == lower_seq(xn2);
                            }
                        }
                        lemma_net_in_zero(rows@, wl@, cn@, lower_seq(xn2), id);
                    }
                }
            }
        }
    }
    proof {
        assert forall|cn: Seq<u8>, xn: Seq<u8>, id: u64|
            #[trigger] net_in(rows@, lower_seq(wallet_address@), cn, xn, id) > 0 implies has_entry(
            out@,
            lower_seq(cn),
            lower_seq(xn),
            id,
        ) by {
            if exists|j: int| 0 <= j < nch && (#[trigger] chains@[j])@ == lower_seq(cn) {
            } else {
                assert forall|i: int|
                    0 <= i < rows@.len() implies !(eq_fold((#[trigger] rows@[i]).chain@, cn)
                    && eq_fold(rows@[i].contract@, xn)) by {
                    if eq_fold(rows@[i].chain@, cn) {
                        assert(lower_seq(rows@[i].chain@) == lower_seq(cn));
                        assert(contains_bytes(chains@, lower_seq(cn)));
                        let j = choose|j: int|
                            0 <= j < chains@.len() && (#[trigger] chains@[j])@ == lower_seq(cn);
                    }
                }
                lemma_net_in_zero(rows@, wl@, cn, xn, id);
            }
        }
    }
    out
}


/// A participant among rows: an address an event names, lowercased, other
/// than the zero and dead addresses.
pub open spec fn rows_participant(rows: Seq<CollectionRow>, a: Seq<u8>) -> bool {
    &&& a != zero_addr()
    &&& a != dead_addr()
    &&& exists|i: int|
        0 <= i < rows.len() && (lower_seq((#[trigger] rows[i]).event.from_address@) == a
            || lower_seq(rows[i].event.to_address@) == a)
}

/// One wallet with its nonempty cross-chain holdings.
pub struct UserCollection {
    pub wallet: Vec<u8>,
    pub entries: Vec<FullEntry>,
}

/// The entries are exactly the wallet's holdings over the rows, as
/// `get_user_full_collection` returns them, and there is at least one.
pub open spec fn user_collection_ok(rows: Seq<CollectionRow>, u: UserCollection) -> bool {
    &&& u.wallet@ == lower_seq(u.wallet@)
    &&& u.entries@.len() > 0
    &&& entries_sorted(u.entries@)
    &&& forall|p: int|
        0 <= p < u.entries@.len() ==> (#[trigger] u.entries@[p]).chain@ == lower_seq(
            u.entries@[p].chain@,
        ) && u.entries@[p].contract@ == lower_seq(u.entries@[p].contract@) && net_in(
            rows,
            u.wallet@,
            u.entries@[p].chain@,
            u.entries@[p].contract@,
            u.entries@[p].token_id,
        ) > 0 && u.entries@[p].balance == clamp_u64(
            net_in(
                rows,
                u.wallet@,
                u.entries@[p].chain@,
                u.entries@[p].contract@,
                u.entries@[p].token_id,
            ),
        )
    &&& forall|cn: Seq<u8>, xn: Seq<u8>, id: u64|
        #[trigger] net_in(rows, u.wallet@, cn, xn, id) > 0 ==> has_entry(
            u.entries@,
            lower_seq(cn),
            lower_seq(xn),
            id,
        )
}

/// The distinct participants of the rows, lowercased and sorted.
fn collect_row_participants(rows: &Vec<CollectionRow>) -> (r: Vec<Vec<u8>>)
    ensures
        addrs_sorted(r@),
        forall|a: Seq<u8>| contains_bytes(r@, a) == rows_participant(rows@, a),
{
    let zero = zero_address();
    let dead = dead_address();
    let n = rows.len();
    let mut list: Vec<Vec<u8>> = Vec::new();
    let mut t: usize = 0;
    while t < n
        invariant
            t <= n,
            n == rows@.len(),
            zero@ == zero_addr(),
            dead@ == dead_addr(),
            addrs_sorted(list@),
            forall|a: Seq<u8>|
                contains_bytes(list@, a) == (a != zero_addr() && a != dead_addr() && exists|i: int|
                    0 <= i < t && (lower_seq((#[trigger] rows@[i]).event.from_address@) == a
                        || lower_seq(rows@[i].event.to_address@) == a)),
        decreases n - t,
    {
        let fl = to_lowercase(&rows[t].event.from_address);
        let tl = to_lowercase(&rows[t].event.to_address);
        if !crate::ascii::bytes_eq(&fl, &zero) && !crate::ascii::bytes_eq(&fl, &dead) {
            insert_addr_sorted(&mut list, fl);
        }
        if !crate::ascii::bytes_eq(&tl, &zero) && !crate::ascii::bytes_eq(&tl, &dead) {
            insert_addr_sorted(&mut list, tl);
        }
        t += 1;
        proof {
            assert forall|a: Seq<u8>|
                contains_bytes(list@, a) == (a != zero_addr() && a != dead_addr() && exists|i: int|
                    0 <= i < t && (lower_seq((#[trigger] rows@[i]).event.from_address@) == a
                        || lower_seq(rows@[i].event.to_address@) == a)) by {
                if a != zero_addr() && a != dead_addr() && exists|i: int|
                    0 <= i < t && (lower_seq((#[trigger] rows@[i]).event.from_address@) == a
                        || lower_seq(rows@[i].event.to_address@) == a) {
                    let i = choose|i: int|
                        0 <= i < t && (lower_seq((#[trigger] rows@[i]).event.from_address@) == a
                            || lower_seq(rows@[i].event.to_address@) == a);
                    assert(i < t);
                }
            }
        }
    }
    list
}

/// Every wallet that holds anything, with its holdings: the distinct
/// participants of the rows, ascending, each with its nonempty collection;
/// wallets none of whose holdings come out positive are left out, and the
/// zero and dead addresses are never wallets.
pub fn get_all_users_collections(rows: &Vec<CollectionRow>) -> (r: Vec<UserCollection>)
    requires
        rows_wf(rows@),
        rows@.len() <= max_events(),
    ensures
        forall|p: int, q: int|
            0 <= p < q < r@.len() ==> crate::bytes_ord::lex_le(
                (#[trigger] r@[p]).wallet@,
                (#[trigger] r@[q]).wallet@,
            ) && r@[p].wallet@ != r@[q].wallet@,
        forall|p: int| 0 <= p < r@.len() ==> user_collection_ok(rows@, #[trigger] r@[p]),
        forall|p: int|
            0 <= p < r@.len() ==> rows_participant(rows@, (#[trigger] r@[p]).wallet@),
        forall|a: Seq<u8>|
            (rows_participant(rows@, a) && exists|cn: Seq<u8>, xn: Seq<u8>, id: u64|
                #[trigger] net_in(rows@, a, cn, xn, id) > 0) ==> exists|p: int|
                0 <= p < r@.len() && (#[trigger] r@[p]).wallet@ == a,
{
    let participants = collect_row_participants(rows);
    let m = participants.len();
    let mut out: Vec<UserCollection> = Vec::new();
    let mut i: usize = 0;
    while i < m
        invariant
            i <= m,
            m == participants@.len(),
            rows_wf(rows@),
            rows@.len() <= max_events(),
            addrs_sorted(participants@),
            forall|a: Seq<u8>| contains_bytes(participants@, a) == rows_participant(rows@, a),
            forall|p: int, q: int|
                0 <= p < q < out@.len() ==> crate::bytes_ord::lex_le(
                    (#[trigger] out@[p]).wallet@,
                    (#[trigger] out@[q]).wallet@,
                ) && out@[p].wallet@ != out@[q].wallet@,
            forall|p: int| 0 <= p < out@.len() ==> user_collection_ok(rows@, #[trigger] out@[p]),
            forall|p: int|
                0 <= p < out@.len() ==> rows_participant(rows@, (#[trigger] out@[p]).wallet@),
            forall|p: int|
                0 <= p < out@.len() ==> exists|j: int|
                    0 <= j < i && (#[trigger] out@[p]).wallet@ == (#[trigger] participants@[j])@,
            forall|j: int|
                0 <= j < i && (exists|cn: Seq<u8>, xn: Seq<u8>, id: u64|
                    #[trigger] net_in(rows@, (#[trigger] participants@[j])@, cn, xn, id) > 0)
                    ==> exists|p: int|
                    0 <= p < out@.len() && (#[trigger] out@[p]).wallet@ == participants@[j]@,
        decreases m - i,
    {
        let a = &participants[i];
        proof {
            assert(contains_bytes(participants@, a@));
            assert(rows_participant(rows@, a@));
            let i0 = choose|i0: int|
                0 <= i0 < rows@.len() && (lower_seq(
                    (#[trigger] rows@[i0]).event.from_address@,
                ) == a@ || lower_seq(rows@[i0].event.to_address@) == a@);
            crate::ascii::lemma_lower_idempotent(rows@[i0].event.from_address@);
            crate::ascii::lemma_lower_idempotent(rows@[i0].event.to_address@);
            assert(a@ == lower_seq(a@));
        }
        let entries = get_user_full_collection(rows, a);
        let ghost out_prev = out@;
        if entries.len() > 0 {
            proof {
                assert forall|p: int| 0 <= p < out@.len() implies crate::bytes_ord::lex_le(
                    (#[trigger] out@[p]).wallet@,
                    a@,
                ) && out@[p].wallet@ != a@ by {
                    let j = choose|j: int|
                        0 <= j < i && (#[trigger] out@[p]).wallet@ == (
                        #[trigger] participants@[j])@;
                    assert(crate::bytes_ord::lex_le(participants@[j]@, participants@[i as int]@));
                }
            }
            let u = UserCollection { wallet: copy_bytes(a), entries };
            proof {
                assert(user_collection_ok(rows@, u));
            }
            out.push(u);
        }
        i += 1;
        proof {
            assert forall|j: int|
                0 <= j < i && (exists|cn: Seq<u8>, xn: Seq<u8>, id: u64|
                    #[trigger] net_in(rows@, (#[trigger] participants@[j])@, cn, xn, id) > 0)
                    implies exists|p: int|
                0 <= p < out@.len() && (#[trigger] out@[p]).wallet@ == participants@[j]@ by {
                if j < i - 1 {
                    let p = choose|p: int|
                        0 <= p < out_prev.len() && (#[trigger] out_prev[p]).wallet@
                            == participants@[j]@;
                    assert(out@[p] == out_prev[p]);
                } else {
                    let (cn, xn, id): (Seq<u8>, Seq<u8>, u64) = choose|
                        cn: Seq<u8>,
                        xn: Seq<u8>,
                        id: u64,
                    | #[trigger] net_in(rows@, participants@[j]@, cn, xn, id) > 0;
                    assert(has_entry(entries@, lower_seq(cn), lower_seq(xn), id));
                    assert(entries@.len() > 0);
                    assert(out@[out@.len() - 1].wallet@ == participants@[j]@);
                }
            }
        }
    }
    proof {
        assert forall|a: Seq<u8>|
            (rows_participant(rows@, a) && exists|cn: Seq<u8>, xn: Seq<u8>, id: u64|
                #[trigger] net_in(rows@, a, cn, xn, id) > 0) implies exists|p: int|
            0 <= p < out@.len() && (#[trigger] out@[p]).wallet@ == a by {
            assert(contains_bytes(participants@, a));
            let j = choose|j: int|
                0 <= j < participants@.len() && (#[trigger] participants@[j])@ == a;
        }
    }
    out
}

} // verus!
