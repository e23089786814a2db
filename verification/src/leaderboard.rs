//! Leaderboard scoring.
//!
//! Every wallet's holdings are priced by the rarity tables — thousandths
//! of a point per token, times the balance — and summed. The wallet shows
//! under its display name; names on the denylist and scores of zero never
//! appear. A name claimed by several wallets keeps the score of the last
//! one in input order, as an overwriting insert would.

use crate::ascii::eq_fold;
use crate::replay::{clamp_u64, FullEntry, UserCollection};
use crate::users::{display_name, UserEntry};
use vstd::prelude::*;

verus! {

/// The rarity prices of one collection, in thousandths of a point per
/// token id.
pub struct RarityTable {
    pub chain: Vec<u8>,
    pub contract: Vec<u8>,
    pub scores: Vec<(u64, u64)>,
}

/// The price of a token in a score list; zero where unpriced.
pub open spec fn table_score(scores: Seq<(u64, u64)>, id: u64) -> u64
    decreases scores.len(),
{
    if scores.len() == 0 {
        0
    } else if scores[0].0 == id {
        scores[0].1
    } else {
        table_score(scores.drop_first(), id)
    }
}

/// The price of a token under the first table of its collection; zero
/// where no table matches — a missing rarity file prices at nothing.
pub open spec fn rarity_milli(
    tables: Seq<RarityTable>,
    chain: Seq<u8>,
    contract: Seq<u8>,
    id: u64,
) -> u64
    decreases tables.len(),
{
    if tables.len() == 0 {
        0
    } else if eq_fold(tables[0].chain@, chain) && eq_fold(tables[0].contract@, contract) {
        table_score(tables[0].scores@, id)
    } else {
        rarity_milli(tables.drop_first(), chain, contract, id)
    }
}

/// Prices bounded so that scoring arithmetic cannot overflow.
pub open spec fn tables_wf(tables: Seq<RarityTable>) -> bool {
    forall|t: int, j: int|
        0 <= t < tables.len() && 0 <= j < (#[trigger] tables[t]).scores@.len() ==> (
        #[trigger] tables[t].scores@[j]).1 <= 0x800000000000
}

proof fn lemma_table_score_bound(scores: Seq<(u64, u64)>, id: u64)
    requires
        forall|j: int| 0 <= j < scores.len() ==> (#[trigger] scores[j]).1 <= 0x800000000000,
    ensures
        table_score(scores, id) <= 0x800000000000,
    decreases scores.len(),
{
    if scores.len() > 0 && scores[0].0 != id {
        assert(forall|j: int|
            0 <= j < scores.len() - 1 ==> scores.drop_first()[j] == scores[j + 1]);
        lemma_table_score_bound(scores.drop_first(), id);
    }
}

pub proof fn lemma_rarity_bound(
    tables: Seq<RarityTable>,
    chain: Seq<u8>,
    contract: Seq<u8>,
    id: u64,
)
    requires
        tables_wf(tables),
    ensures
        rarity_milli(tables, chain, contract, id) <= 0x800000000000,
    decreases tables.len(),
{
    if tables.len() > 0 {
        if eq_fold(tables[0].chain@, chain) && eq_fold(tables[0].contract@, contract) {
            lemma_table_score_bound(tables[0].scores@, id);
        } else {
            assert(tables_wf(tables.drop_first())) by {
                assert(forall|t: int|
                    0 <= t < tables.len() - 1 ==> tables.drop_first()[t] == tables[t + 1]);
            }
            lemma_rarity_bound(tables.drop_first(), chain, contract, id);
        }
    }
}

/// A wallet's score: the priced sum of its holdings, in thousandths.
pub open spec fn score_of(tables: Seq<RarityTable>, u: UserCollection) -> int {
    u.entries@.fold_left(
        0int,
        |acc: int, e: FullEntry|
            acc + rarity_milli(tables, e.chain@, e.contract@, e.token_id) * e.balance,
    )
}

/// Look a token's price up.
pub fn rarity_lookup(tables: &Vec<RarityTable>, chain: &Vec<u8>, contract: &Vec<u8>, id: u64) -> (r:
    u64)
    ensures
        r == rarity_milli(tables@, chain@, contract@, id),
{
    let n = tables.len();
    let mut t: usize = 0;
    proof {
        assert(tables@.skip(0) =~= tables@);
    }
    while t < n
        invariant
            t <= n,
            n == tables@.len(),
            rarity_milli(tables@, chain@, contract@, id) == rarity_milli(
                tables@.skip(t as int),
                chain@,
                contract@,
                id,
            ),
        decreases n - t,
    {
        proof {
            assert(tables@.skip(t as int)[0] == tables@[t as int]);
            assert(tables@.skip(t as int).drop_first() =~= tables@.skip(t as int + 1));
        }
        if crate::ascii::eq_ignore_case(&tables[t].chain, chain) && crate::ascii::eq_ignore_case(
            &tables[t].contract,
            contract,
        ) {
            let scores = &tables[t].scores;
            let m = scores.len();
            let mut j: usize = 0;
            proof {
                assert(tables@[t as int].scores@.skip(0) =~= tables@[t as int].scores@);
            }
            while j < m
                invariant
                    j <= m,
                    t < n,
                    n == tables@.len(),
                    m == tables@[t as int].scores@.len(),
                    scores == tables@[t as int].scores,
                    rarity_milli(tables@, chain@, contract@, id) == table_score(
                        tables@[t as int].scores@,
                        id,
                    ),
                    table_score(tables@[t as int].scores@, id) == table_score(
                        tables@[t as int].scores@.skip(j as int),
                        id,
                    ),
                decreases m - j,
            {
                proof {
                    assert(tables@[t as int].scores@.skip(j as int)[0]
                        == tables@[t as int].scores@[j as int]);
                    assert(tables@[t as int].scores@.skip(j as int).drop_first()
                        =~= tables@[t as int].scores@.skip(j as int + 1));
                }
                if scores[j].0 == id {
                    return scores[j].1;
                }
                j += 1;
            }
            return 0;
        }
        t += 1;
    }
    0
}

/// Price and sum a list of holdings, in thousandths of a point.
pub open spec fn score_of_entries(tables: Seq<RarityTable>, entries: Seq<FullEntry>) -> int {
    entries.fold_left(
        0int,
        |acc: int, e: FullEntry|
            acc + rarity_milli(tables, e.chain@, e.contract@, e.token_id) * e.balance,
    )
}

/// Price and sum one wallet's holdings.
fn score_collection(tables: &Vec<RarityTable>, u: &UserCollection) -> (s: i128)
    requires
        tables_wf(tables@),
        u.entries@.len() <= 0x10000,
    ensures
        s == score_of(tables@, *u),
{
    let n = u.entries.len();
    let mut s: i128 = 0;
    let mut k: usize = 0;
    while k < n
        invariant
            k <= n,
            n == u.entries@.len(),
            n <= 0x10000,
            tables_wf(tables@),
            s == u.entries@.take(k as int).fold_left(
                0int,
                |acc: int, e: FullEntry|
                    acc + rarity_milli(tables@, e.chain@, e.contract@, e.token_id) * e.balance,
            ),
            0 <= s <= k * 0x7fffffffffffffff800000000000,
        decreases n - k,
    {
        let e = &u.entries[k];
        let price = rarity_lookup(tables, &e.chain, &e.contract, e.token_id);
        proof {
            lemma_rarity_bound(tables@, e.chain@, e.contract@, e.token_id);
            assert(0 <= price * e.balance <= 0x7fffffffffffffff800000000000)
                by (nonlinear_arith)
                requires
                    0 <= price <= 0x800000000000,
                    0 <= e.balance <= 0xFFFFFFFFFFFFFFFF,
            ;
            assert((k + 1) * 0x7fffffffffffffff800000000000 == k
                * 0x7fffffffffffffff800000000000 + 0x7fffffffffffffff800000000000)
                by (nonlinear_arith);
            assert(k * 0x7fffffffffffffff800000000000 <= 0x10000
                * 0x7fffffffffffffff800000000000) by (nonlinear_arith)
                requires
                    k <= 0x10000,
            ;
            assert(0x10000 * 0x7fffffffffffffff800000000000
                == 0x7fffffffffffffff8000000000000000) by (nonlinear_arith);
        }
        let prod: i128 = (price as i128) * (e.balance as i128);
        s = s + prod;
        k += 1;
        proof {
            assert(u.entries@.take(k as int).drop_last() =~= u.entries@.take(k - 1));
            assert(u.entries@.take(k as int).last() == u.entries@[k - 1]);
            let f = |acc: int, e2: FullEntry|
                acc + rarity_milli(tables@, e2.chain@, e2.contract@, e2.token_id) * e2.balance;
            assert(u.entries@.take(k as int).fold_left(0int, f) == f(
                u.entries@.take(k - 1).fold_left(0int, f),
                u.entries@[k - 1],
            ));
        }
    }
    proof {
        assert(u.entries@.take(n as int) =~= u.entries@);
    }
    s
}


/// Price and sum a wallet's merged holdings.
pub fn score_entries(tables: &Vec<RarityTable>, entries: &Vec<FullEntry>) -> (s: i128)
    requires
        tables_wf(tables@),
        entries@.len() <= 0x10000,
    ensures
        s == score_of_entries(tables@, entries@),
{
    let n = entries.len();
    let mut s: i128 = 0;
    let mut k: usize = 0;
    while k < n
        invariant
            k <= n,
            n == entries@.len(),
            n <= 0x10000,
            tables_wf(tables@),
            s == entries@.take(k as int).fold_left(
                0int,
                |acc: int, e: FullEntry|
                    acc + rarity_milli(tables@, e.chain@, e.contract@, e.token_id) * e.balance,
            ),
            0 <= s <= k * 0x7fffffffffffffff800000000000,
        decreases n - k,
    {
        let e = &entries[k];
        let price = rarity_lookup(tables, &e.chain, &e.contract, e.token_id);
        proof {
            lemma_rarity_bound(tables@, e.chain@, e.contract@, e.token_id);
            assert(0 <= price * e.balance <= 0x7fffffffffffffff800000000000)
                by (nonlinear_arith)
                requires
                    0 <= price <= 0x800000000000,
                    0 <= e.balance <= 0xFFFFFFFFFFFFFFFF,
            ;
            assert((k + 1) * 0x7fffffffffffffff800000000000 == k
                * 0x7fffffffffffffff800000000000 + 0x7fffffffffffffff800000000000)
                by (nonlinear_arith);
            assert(k * 0x7fffffffffffffff800000000000 <= 0x10000
                * 0x7fffffffffffffff800000000000) by (nonlinear_arith)
                requires
                    k <= 0x10000,
            ;
            assert(0x10000 * 0x7fffffffffffffff800000000000
                == 0x7fffffffffffffff8000000000000000) by (nonlinear_arith);
        }
        let prod: i128 = (price as i128) * (e.balance as i128);
        s = s + prod;
        k += 1;
        proof {
            assert(entries@.take(k as int).drop_last() =~= entries@.take(k - 1));
            assert(entries@.take(k as int).last() == entries@[k - 1]);
            let f = |acc: int, e2: FullEntry|
                acc + rarity_milli(tables@, e2.chain@, e2.contract@, e2.token_id) * e2.balance;
            assert(entries@.take(k as int).fold_left(0int, f) == f(
                entries@.take(k - 1).fold_left(0int, f),
                entries@[k - 1],
            ));
        }
    }
    proof {
        assert(entries@.take(n as int) =~= entries@);
    }
    s
}

/// A user's points and level: the priced sum of the holdings, floored at
/// zero and clipped into `u64`, with the level of that score. Scores past
/// `u32::MAX` thousandths sit far beyond the last level requirement, so
/// clipping cannot change the level.
pub fn user_points_and_level(tables: &Vec<RarityTable>, entries: &Vec<FullEntry>) -> (r: (
    u64,
    u32,
))
    requires
        tables_wf(tables@),
        entries@.len() <= 0x10000,
    ensures
        r.0 == clamp_u64(score_of_entries(tables@, entries@)),
        r.1 == crate::level::spec_points_to_level(
            if clamp_u64(score_of_entries(tables@, entries@)) >= u32::MAX {
                u32::MAX as nat
            } else {
                clamp_u64(score_of_entries(tables@, entries@)) as nat
            },
        ),
{
    let s = score_entries(tables, entries);
    let total: u64 = if s <= 0 {
        0
    } else if s >= 0xFFFFFFFFFFFFFFFFi128 {
        0xFFFFFFFFFFFFFFFFu64
    } else {
        s as u64
    };
    let capped: u32 = if total >= 0xFFFFFFFFu64 {
        0xFFFFFFFFu32
    } else {
        total as u32
    };
    let level = crate::level::points_to_level(capped);
    (total, level)
}

/// Exact bytes membership of a name in a list.
pub open spec fn name_in(list: Seq<Vec<u8>>, n: Seq<u8>) -> bool {
    exists|i: int| 0 <= i < list.len() && (#[trigger] list[i])@ == n
}

/// The score the board shows under `name`: walking the wallets from the
/// last, the first one whose display name is `name`, that is not denied
/// and whose score is positive, sets it; otherwise the name is absent.
pub open spec fn lb_entry(
    colls: Seq<UserCollection>,
    users: Seq<UserEntry>,
    tables: Seq<RarityTable>,
    deny: Seq<Vec<u8>>,
    name: Seq<u8>,
) -> Option<u64>
    decreases colls.len(),
{
    if colls.len() == 0 {
        None
    } else {
        let u = colls.last();
        let n = display_name(users, u.wallet@);
        if n == name && !name_in(deny, n) && score_of(tables, u) > 0 {
            Some(clamp_u64(score_of(tables, u)))
        } else {
            lb_entry(colls.drop_last(), users, tables, deny, name)
        }
    }
}

/// A present entry is positive and never denied.
pub proof fn lemma_lb_entry_allowed(
    colls: Seq<UserCollection>,
    users: Seq<UserEntry>,
    tables: Seq<RarityTable>,
    deny: Seq<Vec<u8>>,
    name: Seq<u8>,
)
    requires
        lb_entry(colls, users, tables, deny, name) is Some,
    ensures
        lb_entry(colls, users, tables, deny, name)->Some_0 > 0,
        !name_in(deny, name),
    decreases colls.len(),
{
    if colls.len() > 0 {
        let u = colls.last();
        let n = display_name(users, u.wallet@);
        if n == name && !name_in(deny, n) && score_of(tables, u) > 0 {
        } else {
            lemma_lb_entry_allowed(colls.drop_last(), users, tables, deny, name);
        }
    }
}

/// The board's value under a name, scanning a sorted association list.
pub open spec fn name_val(s: Seq<(Vec<u8>, u64)>, name: Seq<u8>) -> Option<u64>
    decreases s.len(),
{
    if s.len() == 0 {
        None
    } else if s[0].0@ == name {
        Some(s[0].1)
    } else {
        name_val(s.drop_first(), name)
    }
}

pub open spec fn names_sorted(s: Seq<(Vec<u8>, u64)>) -> bool {
    forall|i: int, j: int|
        0 <= i < j < s.len() ==> crate::bytes_ord::lex_le(
            (#[trigger] s[i]).0@,
            (#[trigger] s[j]).0@,
        ) && s[i].0@ != s[j].0@
}

/// Set `name` to `v`, keeping names sorted; an existing entry is
/// overwritten.
fn set_name(list: &mut Vec<(Vec<u8>, u64)>, name: Vec<u8>, v: u64)
    requires
        names_sorted(old(list)@),
    ensures
        names_sorted(final(list)@),
        forall|n: Seq<u8>|
            name_val(final(list)@, n) == if n == name@ {
                Some(v)
            } else {
                name_val(old(list)@, n)
            },
{
    let n = list.len();
    let mut i: usize = 0;
    loop
        invariant_except_break
            i <= n,
            n == list@.len(),
            list@ == old(list)@,
            forall|j: int|
                0 <= j < i ==> crate::bytes_ord::lex_le((#[trigger] list@[j]).0@, name@)
                    && list@[j].0@ != name@,
        ensures
            i <= n,
            n == list@.len(),
            list@ == old(list)@,
            forall|j: int|
                0 <= j < i ==> crate::bytes_ord::lex_le((#[trigger] list@[j]).0@, name@)
                    && list@[j].0@ != name@,
            i < n ==> !(crate::bytes_ord::lex_le(list@[i as int].0@, name@) && list@[i as int].0@
                != name@),
        decreases n - i,
    {
        if i == n {
            break;
        }
        let le = crate::bytes_ord::lex_le_bytes(&list[i].0, &name);
        let eqk = crate::ascii::bytes_eq(&list[i].0, &name);
        if !le || eqk {
            break;
        }
        i += 1;
    }
    let ghost s = list@;
    proof {
        lemma_prefix_skips_name(s, i as int, name@);
    }
    if i < n && crate::ascii::bytes_eq(&list[i].0, &name) {
        proof {
            assert(s.skip(i as int)[0] == s[i as int]);
        }
        list[i] = (name, v);
        proof {
            let t = list@;
            assert(t == s.update(i as int, (name, v)));
            assert(names_sorted(t)) by {
                assert forall|p: int, q: int|
                    0 <= p < q < t.len() implies crate::bytes_ord::lex_le(
                    (#[trigger] t[p]).0@,
                    (#[trigger] t[q]).0@,
                ) && t[p].0@ != t[q].0@ by {
                    assert(s[p].0@ == t[p].0@ || p == i);
                    assert(s[q].0@ == t[q].0@ || q == i);
                    assert(t[p].0@ == s[p].0@ && t[q].0@ == s[q].0@) by {
                        if p == i {
                            assert(t[p].0@ == name@ && s[p].0@ == name@);
                        }
                        if q == i {
                            assert(t[q].0@ == name@ && s[q].0@ == name@);
                        }
                    }
                }
            }
            assert forall|n2: Seq<u8>|
                name_val(t, n2) == if n2 == name@ {
                    Some(v)
                } else {
                    name_val(s, n2)
                } by {
                assert(t.take(i as int) =~= s.take(i as int));
                assert(t.skip(i as int).drop_first() =~= s.skip(i as int).drop_first());
                assert(t =~= t.take(i as int) + t.skip(i as int));
                assert(s =~= s.take(i as int) + s.skip(i as int));
                lemma_name_val_concat(t.take(i as int), t.skip(i as int), n2);
                lemma_name_val_concat(s.take(i as int), s.skip(i as int), n2);
                assert(t.skip(i as int)[0].0@ == name@);
                assert(s.skip(i as int)[0].0@ == name@);
                if n2 != name@ {
                    assert(name_val(t.skip(i as int), n2) == name_val(
                        t.skip(i as int).drop_first(),
                        n2,
                    ));
                    assert(name_val(s.skip(i as int), n2) == name_val(
                        s.skip(i as int).drop_first(),
                        n2,
                    ));
                }
            }
        }
    } else {
        proof {
            if i < n {
                assert(!(crate::bytes_ord::lex_le(s[i as int].0@, name@) && s[i as int].0@
                    != name@));
                assert(s[i as int].0@ != name@);
                crate::bytes_ord::lemma_lex_total(s[i as int].0@, name@);
                assert(crate::bytes_ord::lex_le(name@, s[i as int].0@));
            }
        }
        list.insert(i, (name, v));
        proof {
            let t = list@;
            assert(t == s.insert(i as int, (name, v)));
            assert(t =~= s.take(i as int) + (seq![(name, v)] + s.skip(i as int)));
            assert(names_sorted(t)) by {
                assert forall|p: int, q: int|
                    0 <= p < q < t.len() implies crate::bytes_ord::lex_le(
                    (#[trigger] t[p]).0@,
                    (#[trigger] t[q]).0@,
                ) && t[p].0@ != t[q].0@ by {
                    if q == i {
                        assert(t[p] == s[p]);
                    } else if p == i {
                        assert(t[q] == s[q - 1]);
                        assert(i < n);
                        if q - 1 > i {
                            assert(crate::bytes_ord::lex_le(s[i as int].0@, s[q - 1].0@));
                            crate::bytes_ord::lemma_lex_transitive(
                                name@,
                                s[i as int].0@,
                                s[q - 1].0@,
                            );
                            assert(name@ != s[q - 1].0@) by {
                                if name@ == s[q - 1].0@ {
                                    crate::bytes_ord::lemma_lex_antisymmetric(
                                        s[i as int].0@,
                                        name@,
                                    );
                                }
                            }
                        }
                    } else if p < i && q > i {
                        assert(t[p] == s[p]);
                        assert(t[q] == s[q - 1]);
                        if p == q - 1 {
                            assert(p < i && q - 1 >= i);
                        }
                    } else if q < i {
                        assert(t[p] == s[p] && t[q] == s[q]);
                    } else {
                        assert(t[p] == s[p - 1] && t[q] == s[q - 1]);
                    }
                }
            }
            assert forall|n2: Seq<u8>|
                name_val(t, n2) == if n2 == name@ {
                    Some(v)
                } else {
                    name_val(s, n2)
                } by {
                assert(s =~= s.take(i as int) + s.skip(i as int));
                lemma_name_val_concat(s.take(i as int), s.skip(i as int), n2);
                lemma_name_val_concat(t.take(i as int), seq![(name, v)] + s.skip(i as int), n2);
                assert(t.take(i as int) =~= s.take(i as int));
                assert((seq![(name, v)] + s.skip(i as int))[0] == (name, v));
                if n2 != name@ {
                    assert(name_val(seq![(name, v)] + s.skip(i as int), n2) == name_val(
                        (seq![(name, v)] + s.skip(i as int)).drop_first(),
                        n2,
                    ));
                    assert((seq![(name, v)] + s.skip(i as int)).drop_first() =~= s.skip(
                        i as int,
                    ));
                } else {
                    assert(name_val(s.take(i as int), n2) is None) by {
                        lemma_prefix_no_name(s.take(i as int), n2);
                    }
                    if i < n {
                        assert(name_val(s.skip(i as int), n2) is None) by {
                            lemma_sorted_skip_no_name(s, i as int, n2);
                        }
                    }
                }
            }
        }
    }
}

/// No prefix entry carries the name being inserted.
proof fn lemma_prefix_skips_name(s: Seq<(Vec<u8>, u64)>, i: int, name: Seq<u8>)
    requires
        0 <= i <= s.len(),
        forall|j: int| 0 <= j < i ==> (#[trigger] s[j]).0@ != name,
    ensures
        name_val(s.take(i), name) is None,
{
    lemma_prefix_no_name(s.take(i), name);
}

proof fn lemma_prefix_no_name(s: Seq<(Vec<u8>, u64)>, name: Seq<u8>)
    requires
        forall|j: int| 0 <= j < s.len() ==> (#[trigger] s[j]).0@ != name,
    ensures
        name_val(s, name) is None,
    decreases s.len(),
{
    if s.len() > 0 {
        assert(forall|j: int| 0 <= j < s.len() - 1 ==> s.drop_first()[j] == s[j + 1]);
        lemma_prefix_no_name(s.drop_first(), name);
    }
}

/// Past the insertion point of a sorted list, the name cannot appear.
proof fn lemma_sorted_skip_no_name(s: Seq<(Vec<u8>, u64)>, i: int, name: Seq<u8>)
    requires
        names_sorted(s),
        0 <= i < s.len(),
        crate::bytes_ord::lex_le(name, s[i].0@),
        s[i].0@ != name,
    ensures
        name_val(s.skip(i), name) is None,
{
    assert forall|j: int| 0 <= j < s.skip(i).len() implies (#[trigger] s.skip(i)[j]).0@
        != name by {
        assert(s.skip(i)[j] == s[i + j]);
        if j > 0 {
            assert(crate::bytes_ord::lex_le(s[i].0@, s[i + j].0@) && s[i].0@ != s[i + j].0@);
            if s[i + j].0@ == name {
                crate::bytes_ord::lemma_lex_antisymmetric(s[i].0@, name);
            }
        }
    }
    lemma_prefix_no_name(s.skip(i), name);
}

proof fn lemma_name_val_concat(a: Seq<(Vec<u8>, u64)>, b: Seq<(Vec<u8>, u64)>, name: Seq<u8>)
    ensures
        name_val(a + b, name) == if name_val(a, name) is Some {
            name_val(a, name)
        } else {
            name_val(b, name)
        },
    decreases a.len(),
{
    if a.len() == 0 {
        assert(a + b =~= b);
    } else {
        assert((a + b).drop_first() =~= a.drop_first() + b);
        assert((a + b)[0] == a[0]);
        lemma_name_val_concat(a.drop_first(), b, name);
    }
}

/// A present value sits at some index.
proof fn lemma_name_val_index(s: Seq<(Vec<u8>, u64)>, name: Seq<u8>)
    requires
        name_val(s, name) is Some,
    ensures
        exists|p: int|
            0 <= p < s.len() && (#[trigger] s[p]).0@ == name && s[p].1 == name_val(
                s,
                name,
            )->Some_0,
    decreases s.len(),
{
    if s.len() > 0 {
        if s[0].0@ == name {
            assert(s[0].0@ == name && s[0].1 == name_val(s, name)->Some_0);
        } else {
            lemma_name_val_index(s.drop_first(), name);
            let p = choose|p: int|
                0 <= p < s.drop_first().len() && (#[trigger] s.drop_first()[p]).0@ == name
                    && s.drop_first()[p].1 == name_val(s.drop_first(), name)->Some_0;
            assert(s[p + 1].0@ == name && s[p + 1].1 == name_val(s, name)->Some_0);
        }
    }
}

/// At a sorted index, the scan returns that entry.
proof fn lemma_name_val_at(s: Seq<(Vec<u8>, u64)>, p: int)
    requires
        names_sorted(s),
        0 <= p < s.len(),
    ensures
        name_val(s, s[p].0@) == Some(s[p].1),
    decreases p,
{
    if p > 0 {
        assert(s[0].0@ != s[p].0@);
        assert(names_sorted(s.drop_first()));
        assert(s.drop_first()[p - 1] == s[p]);
        lemma_name_val_at(s.drop_first(), p - 1);
    }
}

/// Build the leaderboard: one entry per display name, the score of the
/// last wallet carrying the name, names ascending. No denied name and no
/// zero score appears.
pub fn build_leaderboard(
    collections: &Vec<UserCollection>,
    users: &Vec<UserEntry>,
    tables: &Vec<RarityTable>,
    denylist: &Vec<Vec<u8>>,
) -> (r: Vec<(Vec<u8>, u64)>)
    requires
        tables_wf(tables@),
        forall|p: int| 0 <= p < collections@.len() ==> (#[trigger] collections@[p]).entries@.len()
            <= 0x10000,
    ensures
        names_sorted(r@),
        forall|p: int|
            0 <= p < r@.len() ==> lb_entry(
                collections@,
                users@,
                tables@,
                denylist@,
                (#[trigger] r@[p]).0@,
            ) == Some(r@[p].1),
        forall|name: Seq<u8>|
            #[trigger] lb_entry(collections@, users@, tables@, denylist@, name) is Some
                ==> exists|p: int| 0 <= p < r@.len() && (#[trigger] r@[p]).0@ == name,
        forall|p: int|
            0 <= p < r@.len() ==> (#[trigger] r@[p]).1 > 0 && !name_in(denylist@, r@[p].0@),
{
    let n = collections.len();
    let mut list: Vec<(Vec<u8>, u64)> = Vec::new();
    let mut t: usize = 0;
    while t < n
        invariant
            t <= n,
            n == collections@.len(),
            tables_wf(tables@),
            forall|p: int|
                0 <= p < collections@.len() ==> (#[trigger] collections@[p]).entries@.len()
                    <= 0x10000,
            names_sorted(list@),
            forall|name: Seq<u8>|
                #[trigger] name_val(list@, name) == lb_entry(
                    collections@.take(t as int),
                    users@,
                    tables@,
                    denylist@,
                    name,
                ),
        decreases n - t,
    {
        let u = &collections[t];
        let resolved = match crate::users::lookup_username(users, &u.wallet) {
            Some(nm) => nm,
            None => if crate::ascii::check_hex_address(&u.wallet) {
                crate::checksum::checksum_address(&u.wallet)
            } else {
                crate::replay::copy_bytes(&u.wallet)
            },
        };
        proof {
            assert(resolved@ == display_name(users@, u.wallet@));
        }
        let denied = contains_name(denylist, &resolved);
        let score = score_collection(tables, u);
        let ghost prev = list@;
        if !denied && score > 0 {
            let clipped: u64 = if score >= 0xFFFFFFFFFFFFFFFFi128 {
                0xFFFFFFFFFFFFFFFFu64
            } else {
                score as u64
            };
            set_name(&mut list, resolved, clipped);
        }
        t += 1;
        proof {
            assert(collections@.take(t as int).drop_last() =~= collections@.take(t - 1));
            assert(collections@.take(t as int).last() == collections@[t - 1]);
            assert forall|name: Seq<u8>|
                #[trigger] name_val(list@, name) == lb_entry(
                    collections@.take(t as int),
                    users@,
                    tables@,
                    denylist@,
                    name,
                ) by {
                let uu = collections@[t - 1];
                let nm = display_name(users@, uu.wallet@);
                if nm == name && !name_in(denylist@, nm) && score_of(tables@, uu) > 0 {
                } else {
                    assert(name_val(list@, name) == name_val(prev, name));
                }
            }
        }
    }
    proof {
        assert(collections@.take(n as int) =~= collections@);
        assert forall|p: int| 0 <= p < list@.len() implies lb_entry(
            collections@,
            users@,
            tables@,
            denylist@,
            (#[trigger] list@[p]).0@,
        ) == Some(list@[p].1) by {
            lemma_name_val_at(list@, p);
        }
        assert forall|name: Seq<u8>|
            #[trigger] lb_entry(collections@, users@, tables@, denylist@, name)
                is Some implies exists|p: int|
            0 <= p < list@.len() && (#[trigger] list@[p]).0@ == name by {
            lemma_name_val_index(list@, name);
        }
        assert forall|p: int| 0 <= p < list@.len() implies (#[trigger] list@[p]).1 > 0
            && !name_in(denylist@, list@[p].0@) by {
            lemma_name_val_at(list@, p);
            lemma_lb_entry_allowed(collections@, users@, tables@, denylist@, list@[p].0@);
        }
    }
    list
}

/// Exact membership of a name in the denylist.
fn contains_name(list: &Vec<Vec<u8>>, name: &Vec<u8>) -> (r: bool)
    ensures
        r == name_in(list@, name@),
{
    let mut i: usize = 0;
    while i < list.len()
        invariant
            i <= list@.len(),
            forall|j: int| 0 <= j < i ==> (#[trigger] list@[j])@ != name@,
        decreases list@.len() - i,
    {
        if crate::ascii::bytes_eq(&list[i], name) {
            return true;
        }
        i += 1;
    }
    false
}


/// Non-increasing by the first component.
pub open spec fn sorted_desc(s: Seq<(u64, u64)>) -> bool {
    forall|i: int, j: int| 0 <= i < j < s.len() ==> (#[trigger] s[i]).0 >= (#[trigger] s[j]).0
}

/// The `k` highest-priced items: some descending ordering of the input,
/// cut after `k`. Ties keep no particular order.
pub fn top_k_desc(items: &Vec<(u64, u64)>, k: usize) -> (r: Vec<(u64, u64)>)
    ensures
        exists|perm: Seq<(u64, u64)>|
            {
                &&& #[trigger] perm.to_multiset() == items@.to_multiset()
                &&& sorted_desc(perm)
                &&& r@ == perm.take(if k <= items@.len() {
                    k as int
                } else {
                    items@.len() as int
                })
            },
{
    let n = items.len();
    let mut sorted: Vec<(u64, u64)> = Vec::new();
    let mut t: usize = 0;
    proof {
        assert(sorted@ =~= items@.take(0));
    }
    while t < n
        invariant
            t <= n,
            n == items@.len(),
            sorted@.len() == t,
            sorted_desc(sorted@),
            sorted@.to_multiset() == items@.take(t as int).to_multiset(),
        decreases n - t,
    {
        let x = items[t];
        let m = sorted.len();
        let mut i: usize = 0;
        while i < m && sorted[i].0 >= x.0
            invariant
                i <= m,
                m == sorted@.len(),
                forall|j: int| 0 <= j < i ==> (#[trigger] sorted@[j]).0 >= x.0,
            decreases m - i,
        {
            i += 1;
        }
        let ghost before = sorted@;
        sorted.insert(i, x);
        t += 1;
        proof {
            assert(sorted@ == before.insert(i as int, x));
            assert(sorted_desc(sorted@)) by {
                assert forall|p: int, q: int|
                    0 <= p < q < sorted@.len() implies (#[trigger] sorted@[p]).0 >= (
                #[trigger] sorted@[q]).0 by {
                    if i < m {
                        assert(!(before[i as int].0 >= x.0));
                    }
                }
            }
            assert(items@.take(t as int).drop_last() =~= items@.take(t - 1));
            assert(items@.take(t as int) =~= items@.take(t - 1).push(x));
            vstd::seq_lib::to_multiset_insert(before, i as int, x);
            items@.take(t - 1).to_multiset_ensures();
            assert(items@.take(t - 1).push(x).to_multiset() =~= items@.take(
                t - 1,
            ).to_multiset().insert(x));
            assert(sorted@.to_multiset() == items@.take(t as int).to_multiset());
        }
    }
    proof {
        assert(items@.take(n as int) =~= items@);
    }
    let cut = if k <= sorted.len() {
        k
    } else {
        sorted.len()
    };
    let mut out: Vec<(u64, u64)> = Vec::new();
    let mut i: usize = 0;
    while i < cut
        invariant
            i <= cut,
            cut <= sorted@.len(),
            out@ == sorted@.take(i as int),
        decreases cut - i,
    {
        out.push(sorted[i]);
        i += 1;
        proof {
            assert(out@ =~= sorted@.take(i as int));
        }
    }
    proof {
        let perm = sorted@;
        assert(perm.to_multiset() == items@.to_multiset());
        assert(out@ == perm.take(if k <= items@.len() {
            k as int
        } else {
            items@.len() as int
        }));
    }
    out
}

} // verus!
