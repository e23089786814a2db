//! Decoded events and their persisted form.
//!
//! Token ids and amounts are stored as JSON arrays of decimal strings —
//! 256-bit safe, where bare integers would lose precision. The renderer
//! and parser below define that format exactly: the parser accepts
//! precisely the renderer's output.

use crate::config::Contract;
use crate::u256::{dec_digits, p256, p64, U256};
use crate::decode::u256s;
use crate::replay::ReplayEvent;
use vstd::prelude::*;

verus! {

/// A decoded transfer bound to its contract, ready to persist.
pub struct Event {
    pub contract: Contract,
    pub operator: Vec<u8>,
    pub from_address: Vec<u8>,
    pub to_address: Vec<u8>,
    pub ids: Vec<U256>,
    pub values: Vec<U256>,
    pub block_number: u64,
    pub transaction_hash: Vec<u8>,
}

impl Event {
    /// Build an event; the id and value lists must pair up, and an event
    /// carries at least one transfer.
    pub fn new(
        contract: Contract,
        operator: Vec<u8>,
        from_address: Vec<u8>,
        to_address: Vec<u8>,
        ids: Vec<U256>,
        values: Vec<U256>,
        block_number: u64,
        transaction_hash: Vec<u8>,
    ) -> (r: Result<Event, &'static str>)
        ensures
            match r {
                Ok(e) => {
                    &&& ids@.len() == values@.len() && ids@.len() > 0
                    &&& e.operator@ == operator@
                    &&& e.from_address@ == from_address@
                    &&& e.to_address@ == to_address@
                    &&& e.ids@ == ids@
                    &&& e.values@ == values@
                    &&& e.block_number == block_number
                    &&& e.transaction_hash@ == transaction_hash@
                },
                Err(_) => ids@.len() != values@.len() || ids@.len() == 0,
            },
    {
        if ids.len() != values.len() {
            return Err("ids and values must be the same length");
        }
        if ids.len() == 0 {
            return Err("an event must carry at least one transfer");
        }
        Ok(
            Event {
                contract,
                operator,
                from_address,
                to_address,
                ids,
                values,
                block_number,
                transaction_hash,
            },
        )
    }
}

/// One quoted decimal string.
pub open spec fn quoted(n: nat) -> Seq<u8> {
    seq![34u8] + dec_digits(n) + seq![34u8]
}

/// The comma-joined quoted items.
pub open spec fn json_items(vals: Seq<nat>) -> Seq<u8>
    decreases vals.len(),
{
    if vals.len() == 0 {
        Seq::empty()
    } else if vals.len() == 1 {
        quoted(vals[0])
    } else {
        json_items(vals.drop_last()) + seq![44u8] + quoted(vals.last())
    }
}

/// The canonical JSON array of decimal strings.
pub open spec fn json_render(vals: Seq<nat>) -> Seq<u8> {
    seq![91u8] + json_items(vals) + seq![93u8]
}

/// Render 256-bit words as a JSON array of decimal strings.
pub fn u256_vec_to_json_decimal(vals: &Vec<U256>) -> (r: Vec<u8>)
    ensures
        r@ == json_render(u256s(vals@)),
{
    let mut r: Vec<u8> = Vec::new();
    r.push(91);
    let n = vals.len();
    let mut i: usize = 0;
    while i < n
        invariant
            i <= n,
            n == vals@.len(),
            r@ == seq![91u8] + json_items(u256s(vals@).take(i as int)),
        decreases n - i,
    {
        if i > 0 {
            r.push(44);
        }
        r.push(34);
        let digits = vals[i].to_decimal();
        let mut k: usize = 0;
        let ghost mid = r@;
        while k < digits.len()
            invariant
                k <= digits@.len(),
                r@ == mid + digits@.take(k as int),
            decreases digits@.len() - k,
        {
            r.push(digits[k]);
            k += 1;
            proof {
                assert(r@ =~= mid + digits@.take(k as int));
            }
        }
        proof {
            assert(digits@.take(digits@.len() as int) =~= digits@);
        }
        r.push(34);
        i += 1;
        proof {
            let vs = u256s(vals@);
            assert(vs[i - 1] == vals@[i - 1].as_nat());
            assert(vs.take(i as int).drop_last() =~= vs.take(i - 1));
            assert(vs.take(i as int).last() == vs[i - 1]);
            if i == 1 {
                assert(json_items(vs.take(1)) == quoted(vs[0]));
            } else {
                assert(json_items(vs.take(i as int)) == json_items(vs.take(i - 1)) + seq![44u8]
                    + quoted(vs[i - 1]));
            }
            assert(r@ =~= seq![91u8] + json_items(vs.take(i as int)));
        }
    }
    r.push(93);
    proof {
        assert(u256s(vals@).take(n as int) =~= u256s(vals@));
        assert(r@ =~= json_render(u256s(vals@)));
    }
    r
}

/// The end of the run of decimal digits starting at `i`.
pub open spec fn digits_end(s: Seq<u8>, i: int) -> int
    decreases s.len() - i when 0 <= i <= s.len()
{
    if i < s.len() && 48 <= s[i] <= 57 {
        digits_end(s, i + 1)
    } else {
        i
    }
}

pub proof fn lemma_digits_end_bounds(s: Seq<u8>, i: int)
    requires
        0 <= i <= s.len(),
    ensures
        i <= digits_end(s, i) <= s.len(),
    decreases s.len() - i,
{
    if i < s.len() && 48 <= s[i] <= 57 {
        lemma_digits_end_bounds(s, i + 1);
    }
}

/// The value of the digits `s[i..j)`.
pub open spec fn digits_val(s: Seq<u8>, i: int, j: int) -> int
    decreases j - i,
{
    if i >= j {
        0
    } else {
        digits_val(s, i, j - 1) * 10 + (s[j - 1] - 48)
    }
}

/// Where the quoted number starting at `i` ends (one past its closing
/// quote), or -1 where there is none. The number must be canonical: no
/// leading zero except the number zero itself.
pub open spec fn item_end(s: Seq<u8>, i: int) -> int {
    if 0 <= i && i < s.len() && s[i] == 34 && i + 1 <= s.len() {
        let j = digits_end(s, i + 1);
        if j > i + 1 && (s[i + 1] != 48 || j == i + 2) && j < s.len() && s[j] == 34 {
            j + 1
        } else {
            -1
        }
    } else {
        -1
    }
}

/// Parse items from `i` to the closing bracket at the very end.
pub open spec fn parse_tail(s: Seq<u8>, i: int) -> Option<Seq<nat>>
    decreases s.len() - i when 0 <= i <= s.len() via parse_tail_dec
{
    let j = item_end(s, i);
    if j == -1 {
        None
    } else {
        let v = digits_val(s, i + 1, j - 1) as nat;
        if j == s.len() - 1 && s[j] == 93 {
            Some(seq![v])
        } else if j < s.len() && s[j] == 44 {
            match parse_tail(s, j + 1) {
                Some(rest) => Some(seq![v] + rest),
                None => None,
            }
        } else {
            None
        }
    }
}

#[via_fn]
proof fn parse_tail_dec(s: Seq<u8>, i: int) {
    if 0 <= i && i < s.len() && s[i] == 34 {
        lemma_digits_end_bounds(s, i + 1);
    }
}

/// The value lists that a byte string denotes: the canonical JSON array
/// of quoted decimal strings, or nothing.
pub open spec fn spec_parse_json(s: Seq<u8>) -> Option<Seq<nat>> {
    if s.len() >= 2 && s[0] == 91 {
        if s.len() == 2 && s[1] == 93 {
            Some(Seq::empty())
        } else {
            parse_tail(s, 1)
        }
    } else {
        None
    }
}


/// Parse a canonical JSON array of quoted decimal strings. `None` where
/// the string is not exactly canonical, or where a value passes 2^256.
#[verifier::rlimit(50)]
pub fn parse_json_u256_array(s: &Vec<u8>) -> (r: Option<Vec<U256>>)
    ensures
        match r {
            Some(v) => spec_parse_json(s@) == Some(u256s(v@)),
            None => spec_parse_json(s@) is None || exists|k: int|
                0 <= k < spec_parse_json(s@)->Some_0.len() && #[trigger] spec_parse_json(
                    s@,
                )->Some_0[k] >= p256(),
        },
{
    let n = s.len();
    if n < 2 || s[0] != 91 {
        return None;
    }
    if n == 2 {
        if s[1] == 93 {
            return Some(Vec::new());
        } else {
            return None;
        }
    }
    let mut out: Vec<U256> = Vec::new();
    let mut i: usize = 1;
    proof {
        assert(u256s(out@) =~= Seq::<nat>::empty());
    }
    loop
        invariant
            3 <= n,
            n == s@.len(),
            s@[0] == 91,
            1 <= i < n,
            spec_parse_json(s@) == match parse_tail(s@, i as int) {
                Some(rest) => Some(u256s(out@) + rest),
                None => None,
            },
        decreases n - i,
    {
        if s[i] != 34 {
            proof {
                assert(item_end(s@, i as int) == -1);
            }
            return None;
        }
        let start = i + 1;
        let mut j = start;
        let mut val = U256::from_u64(0);
        let mut big = false;
        proof {
            lemma_digits_end_bounds(s@, start as int);
        }
        while j < n && 48 <= s[j] && s[j] <= 57
            invariant
                start <= j <= n,
                n == s@.len(),
                start <= n,
                digits_end(s@, start as int) == digits_end(s@, j as int),
                !big ==> val.as_nat() == digits_val(s@, start as int, j as int),
                big ==> digits_val(s@, start as int, j as int) >= p256(),
                digits_val(s@, start as int, j as int) >= 0,
            decreases n - j,
        {
            let d = s[j] - 48;
            proof {
                assert(digits_val(s@, start as int, j as int + 1) == digits_val(
                    s@,
                    start as int,
                    j as int,
                ) * 10 + (s@[j as int] - 48));
            }
            if !big {
                match val.mul10_add(d as u64) {
                    Some(nv) => {
                        val = nv;
                    },
                    None => {
                        big = true;
                    },
                }
            } else {
                proof {
                    let dv = digits_val(s@, start as int, j as int);
                    assert(dv * 10 + (s@[j as int] - 48) >= dv) by (nonlinear_arith)
                        requires
                            dv >= 0,
                            s@[j as int] >= 48,
                    ;
                }
            }
            j += 1;
        }
        proof {
            assert(digits_end(s@, j as int) == j);
        }
        if j == start {
            proof {
                assert(item_end(s@, i as int) == -1);
            }
            return None;
        }
        if s[start] == 48 && j > start + 1 {
            proof {
                assert(item_end(s@, i as int) == -1);
            }
            return None;
        }
        if j == n || s[j] != 34 {
            proof {
                assert(item_end(s@, i as int) == -1);
            }
            return None;
        }
        proof {
            assert(item_end(s@, i as int) == j + 1);
        }
        if big {
            proof {
                if spec_parse_json(s@) is Some {
                    let rest = parse_tail(s@, i as int)->Some_0;
                    assert(rest[0] == digits_val(s@, i as int + 1, j as int));
                    let k = out@.len() as int;
                    assert(spec_parse_json(s@)->Some_0[k] == rest[0]);
                    assert(spec_parse_json(s@)->Some_0[k] >= p256());
                }
            }
            return None;
        }
        let ghost out_prev = out@;
        out.push(val);
        if j + 1 == n - 1 {
            if s[j + 1] == 93 {
                proof {
                    assert(parse_tail(s@, i as int) == Some(
                        seq![digits_val(s@, i as int + 1, j as int) as nat],
                    ));
                    assert(u256s(out@) =~= u256s(out_prev).push(val.as_nat()));
                    assert(u256s(out_prev) + seq![digits_val(s@, i as int + 1, j as int) as nat]
                        =~= u256s(out@));
                }
                return Some(out);
            } else {
                proof {
                    if s@[j as int + 1] == 44 {
                        assert(item_end(s@, j as int + 2) == -1);
                        assert(parse_tail(s@, j as int + 2) is None);
                    }
                    assert(parse_tail(s@, i as int) is None);
                }
                return None;
            }
        }
        if j + 1 == n {
            proof {
                assert(parse_tail(s@, i as int) is None);
            }
            return None;
        }
        if s[j + 1] == 44 {
            proof {
                assert(j + 2 < n);
                assert(u256s(out@) =~= u256s(out_prev).push(val.as_nat()));
                assert forall|rest2: Seq<nat>| true implies u256s(out_prev) + (seq![
                    digits_val(s@, i as int + 1, j as int) as nat,
                ] + rest2) =~= u256s(out@) + rest2 by {}
            }
            i = j + 2;
        } else {
            proof {
                assert(parse_tail(s@, i as int) is None);
            }
            return None;
        }
    }
}

/// Turn a stored row into a replay event: parse the id and value arrays,
/// and project each element into `u64`. `None` exactly where an array is
/// not canonical, an element passes 2^64, the arrays do not pair up, the
/// event is empty, or it is wider than the replay bound.
pub fn row_to_event(
    from_address: Vec<u8>,
    to_address: Vec<u8>,
    ids_json: &Vec<u8>,
    values_json: &Vec<u8>,
) -> (r: Option<ReplayEvent>)
    ensures
        match r {
            Some(e) => {
                &&& e.wf()
                &&& e.from_address@ == from_address@
                &&& e.to_address@ == to_address@
                &&& e.ids@.len() > 0
                &&& spec_parse_json(ids_json@) == Some(e.ids@.map_values(|x: u64| x as nat))
                &&& spec_parse_json(values_json@) == Some(
                    e.values@.map_values(|x: u64| x as nat),
                )
            },
            None => {
                ||| spec_parse_json(ids_json@) is None
                ||| spec_parse_json(values_json@) is None
                ||| (exists|k: int|
                    0 <= k < spec_parse_json(ids_json@)->Some_0.len()
                        && #[trigger] spec_parse_json(ids_json@)->Some_0[k] >= p64())
                ||| (exists|k: int|
                    0 <= k < spec_parse_json(values_json@)->Some_0.len()
                        && #[trigger] spec_parse_json(values_json@)->Some_0[k] >= p64())
                ||| (spec_parse_json(ids_json@) is Some && spec_parse_json(values_json@) is Some
                    && {
                    let ids = spec_parse_json(ids_json@)->Some_0;
                    let vals = spec_parse_json(values_json@)->Some_0;
                    ids.len() != vals.len() || ids.len() == 0 || ids.len() > 0x10000
                })
            },
        },
{
    let ids256 = match parse_json_u256_array(ids_json) {
        Some(v) => v,
        None => {
            proof {
                if spec_parse_json(ids_json@) is Some {
                    let k = choose|k: int|
                        0 <= k < spec_parse_json(ids_json@)->Some_0.len()
                            && #[trigger] spec_parse_json(ids_json@)->Some_0[k] >= p256();
                    crate::u256::lemma_pow256_le(8, 32);
                }
            }
            return None;
        },
    };
    let values256 = match parse_json_u256_array(values_json) {
        Some(v) => v,
        None => {
            proof {
                if spec_parse_json(values_json@) is Some {
                    let k = choose|k: int|
                        0 <= k < spec_parse_json(values_json@)->Some_0.len()
                            && #[trigger] spec_parse_json(values_json@)->Some_0[k] >= p256();
                    crate::u256::lemma_pow256_le(8, 32);
                }
            }
            return None;
        },
    };
    if ids256.len() != values256.len() || ids256.len() == 0 || ids256.len() > 0x10000 {
        return None;
    }
    let mut ids: Vec<u64> = Vec::new();
    let mut values: Vec<u64> = Vec::new();
    let n = ids256.len();
    let mut k: usize = 0;
    while k < n
        invariant
            k <= n,
            n == ids256@.len(),
            n == values256@.len(),
            spec_parse_json(ids_json@) == Some(u256s(ids256@)),
            spec_parse_json(values_json@) == Some(u256s(values256@)),
            ids@.len() == k,
            values@.len() == k,
            forall|t: int| 0 <= t < k ==> (#[trigger] ids@[t]) as nat == u256s(ids256@)[t],
            forall|t: int| 0 <= t < k ==> (#[trigger] values@[t]) as nat == u256s(values256@)[t],
        decreases n - k,
    {
        let id = match ids256[k].try_to_u64() {
            Some(v) => v,
            None => {
                proof {
                    assert(spec_parse_json(ids_json@)->Some_0 == u256s(ids256@));
                    assert(u256s(ids256@).len() == ids256@.len());
                    assert(u256s(ids256@)[k as int] == ids256@[k as int].as_nat());
                }
                return None;
            },
        };
        let value = match values256[k].try_to_u64() {
            Some(v) => v,
            None => {
                proof {
                    assert(spec_parse_json(values_json@)->Some_0 == u256s(values256@));
                    assert(u256s(values256@).len() == values256@.len());
                    assert(u256s(values256@)[k as int] == values256@[k as int].as_nat());
                }
                return None;
            },
        };
        proof {
            assert(u256s(ids256@)[k as int] == ids256@[k as int].as_nat());
            assert(u256s(values256@)[k as int] == values256@[k as int].as_nat());
        }
        ids.push(id);
        values.push(value);
        k += 1;
    }
    let e = ReplayEvent { from_address, to_address, ids, values };
    proof {
        assert(e.ids@.map_values(|x: u64| x as nat) =~= u256s(ids256@));
        assert(e.values@.map_values(|x: u64| x as nat) =~= u256s(values256@));
    }
    Some(e)
}


/// Bind a normalized transfer to its contract as a persistable event,
/// rendering the parties as lowercase hex address strings.
pub fn normalized_to_event(
    t: crate::decode::NormalizedTransfer,
    contract: Contract,
    block_number: u64,
    transaction_hash: Vec<u8>,
) -> (r: Result<Event, &'static str>)
    requires
        t.operator@.len() == 20,
        t.from@.len() == 20,
        t.to@.len() == 20,
    ensures
        match r {
            Ok(e) => {
                &&& t.ids@.len() == t.values@.len() && t.ids@.len() > 0
                &&& e.operator@ == crate::ascii::hex_render(t.operator@)
                &&& e.from_address@ == crate::ascii::hex_render(t.from@)
                &&& e.to_address@ == crate::ascii::hex_render(t.to@)
                &&& e.ids@ == t.ids@
                &&& e.values@ == t.values@
                &&& e.block_number == block_number
                &&& e.transaction_hash@ == transaction_hash@
            },
            Err(_) => t.ids@.len() != t.values@.len() || t.ids@.len() == 0,
        },
{
    let operator = crate::ascii::render_hex(&t.operator);
    let from_address = crate::ascii::render_hex(&t.from);
    let to_address = crate::ascii::render_hex(&t.to);
    Event::new(
        contract,
        operator,
        from_address,
        to_address,
        t.ids,
        t.values,
        block_number,
        transaction_hash,
    )
}


proof fn lemma_dec_digits_are_digits(n: nat)
    ensures
        dec_digits(n).len() >= 1,
        forall|t: int| 0 <= t < dec_digits(n).len() ==> 48 <= #[trigger] dec_digits(n)[t] <= 57,
    decreases n,
{
    if n >= 10 {
        lemma_dec_digits_are_digits(n / 10);
        assert forall|t: int|
            0 <= t < dec_digits(n).len() implies 48 <= #[trigger] dec_digits(n)[t] <= 57 by {
            if t < dec_digits(n).len() - 1 {
                assert(dec_digits(n)[t] == dec_digits(n / 10)[t]);
            }
        }
    }
}

proof fn lemma_dec_digits_leading(n: nat)
    ensures
        dec_digits(n)[0] == 48 ==> n == 0,
    decreases n,
{
    if n >= 10 {
        lemma_dec_digits_leading(n / 10);
        lemma_dec_digits_are_digits(n / 10);
        assert(dec_digits(n)[0] == dec_digits(n / 10)[0]);
    }
}

proof fn lemma_digits_end_run(s: Seq<u8>, i: int, l: int)
    requires
        0 <= i,
        0 <= l,
        i + l <= s.len(),
        forall|t: int| 0 <= t < l ==> 48 <= #[trigger] s[i + t] <= 57,
        i + l == s.len() || !(48 <= s[i + l] <= 57),
    ensures
        digits_end(s, i) == i + l,
    decreases l,
{
    if l == 0 {
    } else {
        assert(48 <= s[i] <= 57) by {
            assert(s[i + 0] == s[i]);
        }
        assert forall|t: int| 0 <= t < l - 1 implies 48 <= #[trigger] s[i + 1 + t] <= 57 by {
            assert(s[i + (t + 1)] == s[i + 1 + t]);
        }
        lemma_digits_end_run(s, i + 1, l - 1);
    }
}

proof fn lemma_digits_val_of(s: Seq<u8>, i: int, n: nat)
    requires
        0 <= i,
        i + dec_digits(n).len() <= s.len(),
        forall|t: int| 0 <= t < dec_digits(n).len() ==> #[trigger] s[i + t] == dec_digits(n)[t],
    ensures
        digits_val(s, i, i + dec_digits(n).len() as int) == n,
    decreases n,
{
    let l = dec_digits(n).len() as int;
    if n < 10 {
        assert(dec_digits(n) == seq![(48 + n) as u8]);
        assert(s[i + 0] == dec_digits(n)[0]);
        assert(digits_val(s, i, i + 1) == digits_val(s, i, i) * 10 + (s[i] - 48));
    } else {
        let m = n / 10;
        assert(dec_digits(n) == dec_digits(m).push((48 + n % 10) as u8));
        assert forall|t: int|
            0 <= t < dec_digits(m).len() implies #[trigger] s[i + t] == dec_digits(m)[t] by {
            assert(s[i + t] == dec_digits(n)[t]);
            assert(dec_digits(n)[t] == dec_digits(m)[t]);
        }
        lemma_digits_val_of(s, i, m);
        assert(s[i + (l - 1)] == dec_digits(n)[l - 1]);
        assert(dec_digits(n)[l - 1] == (48 + n % 10) as u8);
        assert(digits_val(s, i, i + l) == digits_val(s, i, i + l - 1) * 10 + (s[i + l - 1]
            - 48));
        assert(digits_val(s, i, i + l - 1) == m);
        assert(m * 10 + n % 10 == n) by (nonlinear_arith)
            requires
                m == n / 10,
        ;
    }
}

/// The item starting where the renderer wrote a quoted number ends right
/// after its closing quote, and reads back the same value.
proof fn lemma_item_at(s: Seq<u8>, i: int, n: nat)
    requires
        0 <= i,
        i + dec_digits(n).len() + 2 <= s.len(),
        s[i] == 34,
        forall|t: int|
            0 <= t < dec_digits(n).len() ==> #[trigger] s[i + 1 + t] == dec_digits(n)[t],
        s[i + 1 + dec_digits(n).len()] == 34,
    ensures
        item_end(s, i) == i + dec_digits(n).len() + 2,
        digits_val(s, i + 1, i + 1 + dec_digits(n).len() as int) == n,
{
    let l = dec_digits(n).len() as int;
    lemma_dec_digits_are_digits(n);
    assert forall|t: int| 0 <= t < l implies 48 <= #[trigger] s[i + 1 + t] <= 57 by {
        assert(s[i + 1 + t] == dec_digits(n)[t]);
    }
    assert(!(48 <= s[i + 1 + l] <= 57));
    lemma_digits_end_run(s, i + 1, l);
    assert(digits_end(s, i + 1) == i + 1 + l);
    assert(s[i + 1 + 0] == dec_digits(n)[0]);
    lemma_dec_digits_leading(n);
    if s[i + 1] == 48 {
        assert(n == 0);
        assert(dec_digits(0nat).len() == 1);
    }
    assert forall|t: int|
        0 <= t < dec_digits(n).len() implies #[trigger] s[(i + 1) + t] == dec_digits(n)[t] by {
        assert(s[i + 1 + t] == dec_digits(n)[t]);
    }
    lemma_digits_val_of(s, i + 1, n);
}

/// The items render in head form too: the first quoted number, then a
/// comma and the rest.
proof fn lemma_json_items_head(vals: Seq<nat>)
    requires
        vals.len() >= 1,
    ensures
        vals.len() == 1 ==> json_items(vals) == quoted(vals[0]),
        vals.len() > 1 ==> json_items(vals) == quoted(vals[0]) + seq![44u8] + json_items(
            vals.drop_first(),
        ),
    decreases vals.len(),
{
    if vals.len() == 1 {
    } else if vals.len() == 2 {
        assert(vals.drop_last() =~= seq![vals[0]]);
        assert(vals.drop_first() =~= seq![vals[1]]);
        assert(json_items(vals.drop_last()) == quoted(vals[0]));
        assert(json_items(vals.drop_first()) == quoted(vals[1]));
        assert(vals.last() == vals[1]);
    } else {
        lemma_json_items_head(vals.drop_last());
        assert(vals.drop_last()[0] == vals[0]);
        assert(vals.drop_last().drop_first() =~= vals.drop_first().drop_last());
        assert(vals.drop_first().last() == vals.last());
        assert(vals.drop_first().len() > 1);
        assert(json_items(vals.drop_first()) == json_items(vals.drop_first().drop_last())
            + seq![44u8] + quoted(vals.drop_first().last()));
        assert(json_items(vals) == json_items(vals.drop_last()) + seq![44u8] + quoted(
            vals.last(),
        ));
        assert(json_items(vals) =~= quoted(vals[0]) + seq![44u8] + json_items(
            vals.drop_first(),
        ));
    }
}

/// From any item position the parser reads back exactly the rendered
/// values.
proof fn lemma_parse_tail_of_items(s: Seq<u8>, i: int, vals: Seq<nat>)
    requires
        1 <= i,
        vals.len() >= 1,
        s.len() == i + json_items(vals).len() + 1,
        forall|t: int| 0 <= t < json_items(vals).len() ==> #[trigger] s[i + t] == json_items(
            vals,
        )[t],
        s[s.len() - 1] == 93,
    ensures
        parse_tail(s, i) == Some(vals),
    decreases vals.len(),
{
    let v0 = vals[0];
    let l = dec_digits(v0).len() as int;
    lemma_json_items_head(vals);
    lemma_dec_digits_are_digits(v0);
    if vals.len() == 1 {
        assert(json_items(vals) == quoted(v0));
        assert(quoted(v0).len() == l + 2);
        assert(s[i + 0] == quoted(v0)[0]);
        assert forall|t: int| 0 <= t < l implies #[trigger] s[i + 1 + t] == dec_digits(v0)[t] by {
            assert(s[i + (1 + t)] == quoted(v0)[1 + t]);
            assert(quoted(v0)[1 + t] == dec_digits(v0)[t]);
        }
        assert(s[i + (l + 1)] == quoted(v0)[l + 1]);
        assert(quoted(v0)[l + 1] == 34);
        lemma_item_at(s, i, v0);
        let j = item_end(s, i);
        assert(j == i + l + 2);
        assert(j == s.len() - 1);
        assert(parse_tail(s, i) == Some(seq![v0]));
        assert(seq![v0] =~= vals);
    } else {
        assert(json_items(vals) == quoted(v0) + seq![44u8] + json_items(vals.drop_first()));
        assert(s[i + 0] == quoted(v0)[0]);
        assert forall|t: int| 0 <= t < l implies #[trigger] s[i + 1 + t] == dec_digits(v0)[t] by {
            assert(s[i + (1 + t)] == json_items(vals)[1 + t]);
            assert(json_items(vals)[1 + t] == quoted(v0)[1 + t]);
            assert(quoted(v0)[1 + t] == dec_digits(v0)[t]);
        }
        assert(s[i + (l + 1)] == json_items(vals)[l + 1]);
        assert(json_items(vals)[l + 1] == quoted(v0)[l + 1]);
        assert(quoted(v0)[l + 1] == 34);
        lemma_item_at(s, i, v0);
        let j = item_end(s, i);
        assert(j == i + l + 2);
        assert(s[i + (l + 2)] == json_items(vals)[l + 2]);
        assert(json_items(vals)[l + 2] == 44);
        assert(j < s.len() - 1);
        let rest = vals.drop_first();
        assert forall|t: int|
            0 <= t < json_items(rest).len() implies #[trigger] s[(j + 1) + t] == json_items(
            rest,
        )[t] by {
            assert(s[i + (l + 3 + t)] == json_items(vals)[l + 3 + t]);
            assert(json_items(vals)[l + 3 + t] == json_items(rest)[t]);
        }
        assert(s.len() == (j + 1) + json_items(rest).len() + 1);
        lemma_parse_tail_of_items(s, j + 1, rest);
        assert(parse_tail(s, i) == Some(seq![digits_val(s, i + 1, j - 1) as nat] + rest));
        assert(seq![v0] + rest =~= vals);
    }
}

/// The parser reads back exactly what the renderer wrote: the persisted
/// form of any value list round-trips.
pub proof fn lemma_parse_render_round_trip(vals: Seq<nat>)
    ensures
        spec_parse_json(json_render(vals)) == Some(vals),
{
    let s = json_render(vals);
    assert(s[0] == 91);
    if vals.len() == 0 {
        assert(json_items(vals) == Seq::<u8>::empty());
        assert(s =~= seq![91u8, 93u8]);
        assert(vals =~= Seq::<nat>::empty());
    } else {
        lemma_dec_digits_are_digits(vals[0]);
        lemma_json_items_head(vals);
        assert(json_items(vals).len() >= 3) by {
            if vals.len() == 1 {
                assert(json_items(vals) == quoted(vals[0]));
            }
        }
        assert(s.len() >= 2 && !(s.len() == 2 && s[1] == 93));
        assert forall|t: int|
            0 <= t < json_items(vals).len() implies #[trigger] s[1 + t] == json_items(
            vals,
        )[t] by {}
        assert(s[s.len() - 1] == 93);
        lemma_parse_tail_of_items(s, 1, vals);
    }
}

} // verus!
