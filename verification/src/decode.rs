//! Decoding raw transfer logs.
//!
//! Three event shapes are recognised by the first topic: the ERC-721
//! `Transfer`, the ERC-1155 `TransferSingle` and the ERC-1155
//! `TransferBatch`. Indexed addresses sit in the topics; amounts sit in the
//! data payload, batch amounts as two dynamic arrays in standard ABI
//! encoding (two offset words, each pointing at a length word followed by
//! the elements).

use crate::u256::{be_bytes32, be_val, p64, U256};
use vstd::prelude::*;

verus! {

/// The values of a sequence of 256-bit words.
pub open spec fn u256s(s: Seq<U256>) -> Seq<nat> {
    s.map_values(|u: U256| u.as_nat())
}

/// The 32-byte word of `d` starting at `pos`, as a number.
pub open spec fn word_at(d: Seq<u8>, pos: int) -> nat {
    be_val(d.subrange(pos, pos + 32))
}

/// A dynamic-array head at byte offset `off`: a length word within bounds,
/// followed by that many element words.
pub open spec fn array_ok(d: Seq<u8>, off: nat) -> bool {
    &&& off + 32 <= d.len()
    &&& off + 32 + 32 * word_at(d, off as int) <= d.len()
}

/// The elements of the dynamic array whose head sits at byte offset `off`.
pub open spec fn array_at(d: Seq<u8>, off: nat) -> Seq<nat> {
    Seq::new(word_at(d, off as int), |i: int| word_at(d, off as int + 32 + 32 * i))
}

/// A `TransferBatch` data payload: two offset words, each leading to a
/// well-formed dynamic array.
pub open spec fn batch_data_ok(d: Seq<u8>) -> bool {
    &&& d.len() >= 64
    &&& array_ok(d, word_at(d, 0))
    &&& array_ok(d, word_at(d, 32))
}

/// The two arrays of a `TransferBatch` payload: ids, then values.
pub open spec fn batch_ids(d: Seq<u8>) -> Seq<nat> {
    array_at(d, word_at(d, 0))
}

pub open spec fn batch_values(d: Seq<u8>) -> Seq<nat> {
    array_at(d, word_at(d, 32))
}

/// Four 32-byte topics: the signature and three indexed parameters.
pub open spec fn topics_shape(tops: Seq<Seq<u8>>) -> bool {
    &&& tops.len() == 4
    &&& forall|i: int| 0 <= i < 4 ==> (#[trigger] tops[i]).len() == 32
}

/// The 20-byte address packed into the low bytes of a 32-byte topic.
pub open spec fn topic_addr(t: Seq<u8>) -> Seq<u8> {
    t.subrange(12, 32)
}

pub open spec fn sig_transfer() -> Seq<u8> {
    seq![0xdd, 0xf2, 0x52, 0xad, 0x1b, 0xe2, 0xc8, 0x9b, 0x69, 0xc2, 0xb0, 0x68, 0xfc, 0x37, 0x8d, 0xaa, 0x95, 0x2b, 0xa7, 0xf1, 0x63, 0xc4, 0xa1, 0x16, 0x28, 0xf5, 0x5a, 0x4d, 0xf5, 0x23, 0xb3, 0xefu8]
}

pub fn topic_transfer() -> (r: Vec<u8>)
    ensures
        r@ == sig_transfer(),
{
    let r: Vec<u8> = vec![0xdd, 0xf2, 0x52, 0xad, 0x1b, 0xe2, 0xc8, 0x9b, 0x69, 0xc2, 0xb0, 0x68, 0xfc, 0x37, 0x8d, 0xaa, 0x95, 0x2b, 0xa7, 0xf1, 0x63, 0xc4, 0xa1, 0x16, 0x28, 0xf5, 0x5a, 0x4d, 0xf5, 0x23, 0xb3, 0xef];
    proof {
        assert(r@ =~= sig_transfer());
    }
    r
}

pub open spec fn sig_single() -> Seq<u8> {
    seq![0xc3, 0xd5, 0x81, 0x68, 0xc5, 0xae, 0x73, 0x97, 0x73, 0x1d, 0x06, 0x3d, 0x5b, 0xbf, 0x3d, 0x65, 0x78, 0x54, 0x42, 0x73, 0x43, 0xf4, 0xc0, 0x83, 0x24, 0x0f, 0x7a, 0xac, 0xaa, 0x2d, 0x0f, 0x62u8]
}

pub fn topic_single() -> (r: Vec<u8>)
    ensures
        r@ == sig_single(),
{
    let r: Vec<u8> = vec![0xc3, 0xd5, 0x81, 0x68, 0xc5, 0xae, 0x73, 0x97, 0x73, 0x1d, 0x06, 0x3d, 0x5b, 0xbf, 0x3d, 0x65, 0x78, 0x54, 0x42, 0x73, 0x43, 0xf4, 0xc0, 0x83, 0x24, 0x0f, 0x7a, 0xac, 0xaa, 0x2d, 0x0f, 0x62];
    proof {
        assert(r@ =~= sig_single());
    }
    r
}

pub open spec fn sig_batch() -> Seq<u8> {
    seq![0x4a, 0x39, 0xdc, 0x06, 0xd4, 0xc0, 0xdb, 0xc6, 0x4b, 0x70, 0xaf, 0x90, 0xfd, 0x69, 0x8a, 0x23, 0x3a, 0x51, 0x8a, 0xa5, 0xd0, 0x7e, 0x59, 0x5d, 0x98, 0x3b, 0x8c, 0x05, 0x26, 0xc8, 0xf7, 0xfbu8]
}

pub fn topic_batch() -> (r: Vec<u8>)
    ensures
        r@ == sig_batch(),
{
    let r: Vec<u8> = vec![0x4a, 0x39, 0xdc, 0x06, 0xd4, 0xc0, 0xdb, 0xc6, 0x4b, 0x70, 0xaf, 0x90, 0xfd, 0x69, 0x8a, 0x23, 0x3a, 0x51, 0x8a, 0xa5, 0xd0, 0x7e, 0x59, 0x5d, 0x98, 0x3b, 0x8c, 0x05, 0x26, 0xc8, 0xf7, 0xfb];
    proof {
        assert(r@ =~= sig_batch());
    }
    r
}

/// Why a raw log is not a recognised transfer.
#[derive(Clone, Copy, PartialEq, Eq, Structural, Debug)]
pub enum DecodeError {
    /// The first topic is none of the three transfer signatures.
    UnknownTopic,
    /// Topics or data do not have the shape the signature demands.
    MalformedData,
    /// A batch whose id and value arrays differ in length.
    LengthMismatch,
}

/// A raw log: its topics and its data payload.
#[derive(Debug)]
pub struct RawLog {
    pub topics: Vec<Vec<u8>>,
    pub data: Vec<u8>,
}

/// An ERC-721 `Transfer`.
#[derive(Debug)]
pub struct Transfer {
    pub from: Vec<u8>,
    pub to: Vec<u8>,
    pub token_id: U256,
}

/// An ERC-1155 `TransferSingle`.
#[derive(Debug)]
pub struct TransferSingle {
    pub operator: Vec<u8>,
    pub from: Vec<u8>,
    pub to: Vec<u8>,
    pub id: U256,
    pub value: U256,
}

/// An ERC-1155 `TransferBatch`.
#[derive(Debug)]
pub struct TransferBatch {
    pub operator: Vec<u8>,
    pub from: Vec<u8>,
    pub to: Vec<u8>,
    pub ids: Vec<U256>,
    pub values: Vec<U256>,
}

/// A copy of `src[start..end]`.
fn copy_range(src: &Vec<u8>, start: usize, end: usize) -> (r: Vec<u8>)
    requires
        start <= end <= src@.len(),
    ensures
        r@ == src@.subrange(start as int, end as int),
{
    let mut r: Vec<u8> = Vec::new();
    let mut i: usize = start;
    while i < end
        invariant
            start <= i <= end <= src@.len(),
            r@ == src@.subrange(start as int, i as int),
        decreases end - i,
    {
        r.push(src[i]);
        i += 1;
        proof {
            assert(r@ =~= src@.subrange(start as int, i as int));
        }
    }
    r
}

/// Whether the log carries four 32-byte topics whose first is `sig`.
fn topics_match(log: &RawLog, sig: &Vec<u8>) -> (r: bool)
    requires
        sig@.len() == 32,
    ensures
        r == (topics_shape(log.topics.deep_view()) && log.topics.deep_view()[0] == sig@),
{
    if log.topics.len() != 4 {
        return false;
    }
    let mut i: usize = 0;
    while i < 4
        invariant
            i <= 4,
            log.topics@.len() == 4,
            forall|j: int| 0 <= j < i ==> (#[trigger] log.topics.deep_view()[j]).len() == 32,
        decreases 4 - i,
    {
        if log.topics[i].len() != 32 {
            proof {
                assert(log.topics.deep_view()[i as int].len() != 32);
            }
            return false;
        }
        proof {
            assert(log.topics.deep_view()[i as int].len() == 32);
        }
        i += 1;
    }
    let r = crate::ascii::bytes_eq(&log.topics[0], sig);
    proof {
        assert(log.topics.deep_view()[0] == log.topics@[0]@);
    }
    r
}

/// Read the dynamic array whose offset word sits at `off_pos`; `None`
/// where the offset, length or elements run outside the payload.
fn read_array(data: &Vec<u8>, off_pos: usize) -> (r: Option<Vec<U256>>)
    requires
        off_pos + 32 <= data@.len(),
    ensures
        match r {
            Some(v) => array_ok(data@, word_at(data@, off_pos as int)) && u256s(v@) == array_at(
                data@,
                word_at(data@, off_pos as int),
            ),
            None => !array_ok(data@, word_at(data@, off_pos as int)),
        },
{
    let len: usize = data.len();
    let off_word = U256::from_be_slice(data, off_pos);
    let ghost off_nat = word_at(data@, off_pos as int);
    let off64 = match off_word.try_to_u64() {
        Some(v) => v,
        None => {
            proof {
                assert(off_nat >= p64());
            }
            return None;
        },
    };
    if !(off64 as u128 + 32 <= len as u128) {
        return None;
    }
    let off: usize = off64 as usize;
    let n_word = U256::from_be_slice(data, off);
    let ghost n_nat = word_at(data@, off as int);
    let n64 = match n_word.try_to_u64() {
        Some(v) => v,
        None => {
            proof {
                assert(n_nat >= p64());
                assert(32 * n_nat >= 32 * p64()) by (nonlinear_arith)
                    requires
                        n_nat >= p64(),
                ;
            }
            return None;
        },
    };
    if !(off64 as u128 + 32 + 32 * (n64 as u128) <= len as u128) {
        return None;
    }
    let n: usize = n64 as usize;
    let mut out: Vec<U256> = Vec::new();
    let mut i: usize = 0;
    while i < n
        invariant
            i <= n,
            n == n_nat,
            off == off_nat,
            off + 32 + 32 * n <= data@.len(),
            data@.len() <= usize::MAX,
            n_nat == word_at(data@, off_nat as int),
            array_ok(data@, off_nat),
            u256s(out@) == array_at(data@, off_nat).take(i as int),
        decreases n - i,
    {
        let w = U256::from_be_slice(data, off + 32 + 32 * i);
        proof {
            assert(u256s(out@).len() == out@.len());
            assert(array_at(data@, off_nat).take(i as int).len() == i);
            assert(w.as_nat() == word_at(data@, off_nat as int + 32 + 32 * (i as int)));
            assert(array_at(data@, off_nat)[i as int] == word_at(
                data@,
                off_nat as int + 32 + 32 * (i as int),
            ));
        }
        out.push(w);
        i += 1;
        proof {
            assert(out@.len() == i);
            assert(u256s(out@).len() == out@.len());
            assert(u256s(out@) =~= array_at(data@, off_nat).take(i as int));
        }
    }
    proof {
        assert(array_at(data@, off_nat).take(n as int) =~= array_at(data@, off_nat));
    }
    Some(out)
}

/// Decode the two `uint256[]` arrays of a `TransferBatch` log: the token
/// ids and the transferred values, in payload order.
pub fn decode_erc1155_transfer_batch(log: &RawLog) -> (r: Result<
    (Vec<U256>, Vec<U256>),
    DecodeError,
>)
    ensures
        match r {
            Ok(p) => {
                &&& topics_shape(log.topics.deep_view())
                &&& log.topics.deep_view()[0] == sig_batch()
                &&& batch_data_ok(log.data@)
                &&& u256s(p.0@) == batch_ids(log.data@)
                &&& u256s(p.1@) == batch_values(log.data@)
            },
            Err(e) => {
                &&& e == DecodeError::MalformedData
                &&& !(topics_shape(log.topics.deep_view()) && log.topics.deep_view()[0]
                    == sig_batch() && batch_data_ok(log.data@))
            },
        },
{
    let sig = topic_batch();
    if !topics_match(log, &sig) {
        return Err(DecodeError::MalformedData);
    }
    if log.data.len() < 64 {
        return Err(DecodeError::MalformedData);
    }
    let ids = match read_array(&log.data, 0) {
        Some(v) => v,
        None => {
            return Err(DecodeError::MalformedData);
        },
    };
    let values = match read_array(&log.data, 32) {
        Some(v) => v,
        None => {
            return Err(DecodeError::MalformedData);
        },
    };
    Ok((ids, values))
}


/// Decode the `(id, value)` pair of a `TransferSingle` log from its
/// 64-byte data payload.
pub fn decode_erc1155_transfer_single(log: &RawLog) -> (r: Result<(U256, U256), DecodeError>)
    ensures
        match r {
            Ok(p) => {
                &&& topics_shape(log.topics.deep_view())
                &&& log.topics.deep_view()[0] == sig_single()
                &&& log.data@.len() == 64
                &&& p.0.as_nat() == word_at(log.data@, 0)
                &&& p.1.as_nat() == word_at(log.data@, 32)
            },
            Err(e) => {
                &&& e == DecodeError::MalformedData
                &&& !(topics_shape(log.topics.deep_view()) && log.topics.deep_view()[0]
                    == sig_single() && log.data@.len() == 64)
            },
        },
{
    let sig = topic_single();
    if !topics_match(log, &sig) {
        return Err(DecodeError::MalformedData);
    }
    if log.data.len() != 64 {
        return Err(DecodeError::MalformedData);
    }
    let id = U256::from_be_slice(&log.data, 0);
    let value = U256::from_be_slice(&log.data, 32);
    Ok((id, value))
}

/// Decode an ERC-721 `Transfer` log: both addresses and the token id sit
/// in the topics; the data payload plays no part.
pub fn decode_erc721_transfer(log: &RawLog) -> (r: Result<Transfer, DecodeError>)
    ensures
        match r {
            Ok(t) => {
                &&& topics_shape(log.topics.deep_view())
                &&& log.topics.deep_view()[0] == sig_transfer()
                &&& t.from@ == topic_addr(log.topics.deep_view()[1])
                &&& t.to@ == topic_addr(log.topics.deep_view()[2])
                &&& t.token_id.as_nat() == be_val(log.topics.deep_view()[3])
            },
            Err(e) => {
                &&& e == DecodeError::MalformedData
                &&& !(topics_shape(log.topics.deep_view()) && log.topics.deep_view()[0]
                    == sig_transfer())
            },
        },
{
    let sig = topic_transfer();
    if !topics_match(log, &sig) {
        return Err(DecodeError::MalformedData);
    }
    proof {
        let tops = log.topics.deep_view();
        assert(tops[1] == log.topics@[1]@);
        assert(tops[2] == log.topics@[2]@);
        assert(tops[3] == log.topics@[3]@);
    }
    let from = copy_range(&log.topics[1], 12, 32);
    let to = copy_range(&log.topics[2], 12, 32);
    let token_id = U256::from_be_slice(&log.topics[3], 0);
    proof {
        assert(log.topics@[3]@.subrange(0, 32) =~= log.topics.deep_view()[3]);
    }
    Ok(Transfer { from, to, token_id })
}

/// A transfer in the single shape every consumer reads: the parties and
/// the parallel id and value lists.
#[derive(Debug)]
pub struct NormalizedTransfer {
    pub operator: Vec<u8>,
    pub from: Vec<u8>,
    pub to: Vec<u8>,
    pub ids: Vec<U256>,
    pub values: Vec<U256>,
}

/// One of the three recognised signatures.
pub open spec fn known_sig(t0: Seq<u8>) -> bool {
    t0 == sig_transfer() || t0 == sig_single() || t0 == sig_batch()
}

/// What a successful decode promises, by signature.
pub open spec fn decoded_ok(tops: Seq<Seq<u8>>, d: Seq<u8>, t: NormalizedTransfer) -> bool {
    &&& topics_shape(tops)
    &&& known_sig(tops[0])
    &&& t.ids@.len() == t.values@.len()
    &&& (tops[0] == sig_transfer() ==> {
        &&& t.operator@ == topic_addr(tops[1])
        &&& t.from@ == topic_addr(tops[1])
        &&& t.to@ == topic_addr(tops[2])
        &&& u256s(t.ids@) == seq![be_val(tops[3])]
        &&& u256s(t.values@) == seq![1nat]
    })
    &&& (tops[0] == sig_single() ==> {
        &&& t.operator@ == topic_addr(tops[1])
        &&& t.from@ == topic_addr(tops[2])
        &&& t.to@ == topic_addr(tops[3])
        &&& d.len() == 64
        &&& u256s(t.ids@) == seq![word_at(d, 0)]
        &&& u256s(t.values@) == seq![word_at(d, 32)]
    })
    &&& (tops[0] == sig_batch() ==> {
        &&& t.operator@ == topic_addr(tops[1])
        &&& t.from@ == topic_addr(tops[2])
        &&& t.to@ == topic_addr(tops[3])
        &&& batch_data_ok(d)
        &&& u256s(t.ids@) == batch_ids(d)
        &&& u256s(t.values@) == batch_values(d)
    })
}

/// When a log is rejected as malformed.
pub open spec fn malformed(tops: Seq<Seq<u8>>, d: Seq<u8>) -> bool {
    ||| tops.len() == 0
    ||| tops[0].len() != 32
    ||| (tops[0] == sig_transfer() && !topics_shape(tops))
    ||| (tops[0] == sig_single() && !(topics_shape(tops) && d.len() == 64))
    ||| (tops[0] == sig_batch() && !(topics_shape(tops) && batch_data_ok(d)))
}

/// Decode any of the three transfer shapes into one normalized record.
///
/// The ERC-721 shape carries no operator; the sender stands in for it.
/// A batch whose id and value arrays differ in length is rejected with
/// `LengthMismatch`.
pub fn decode_log(log: &RawLog) -> (r: Result<NormalizedTransfer, DecodeError>)
    ensures
        match r {
            Ok(t) => decoded_ok(log.topics.deep_view(), log.data@, t),
            Err(DecodeError::UnknownTopic) => {
                &&& log.topics.deep_view().len() >= 1
                &&& log.topics.deep_view()[0].len() == 32
                &&& !known_sig(log.topics.deep_view()[0])
            },
            Err(DecodeError::MalformedData) => malformed(log.topics.deep_view(), log.data@),
            Err(DecodeError::LengthMismatch) => {
                &&& topics_shape(log.topics.deep_view())
                &&& log.topics.deep_view()[0] == sig_batch()
                &&& batch_data_ok(log.data@)
                &&& batch_ids(log.data@).len() != batch_values(log.data@).len()
            },
        },
{
    if log.topics.len() == 0 {
        return Err(DecodeError::MalformedData);
    }
    proof {
        assert(log.topics.deep_view()[0] == log.topics@[0]@);
    }
    if log.topics[0].len() != 32 {
        return Err(DecodeError::MalformedData);
    }
    let t0 = &log.topics[0];
    let sig_t = topic_transfer();
    let sig_s = topic_single();
    let sig_b = topic_batch();
    if crate::ascii::bytes_eq(t0, &sig_t) {
        let tr = match decode_erc721_transfer(log) {
            Ok(tr) => tr,
            Err(e) => {
                return Err(e);
            },
        };
        let operator = copy_range(&log.topics[1], 12, 32);
        proof {
            assert(log.topics.deep_view()[1] == log.topics@[1]@);
        }
        let ids = vec![tr.token_id];
        let values = vec![U256::from_u64(1)];
        proof {
            assert(u256s(ids@) =~= seq![be_val(log.topics.deep_view()[3])]);
            assert(u256s(values@) =~= seq![1nat]);
        }
        Ok(NormalizedTransfer { operator, from: tr.from, to: tr.to, ids, values })
    } else if crate::ascii::bytes_eq(t0, &sig_s) {
        let p = match decode_erc1155_transfer_single(log) {
            Ok(p) => p,
            Err(e) => {
                return Err(e);
            },
        };
        proof {
            assert(log.topics.deep_view()[1] == log.topics@[1]@);
            assert(log.topics.deep_view()[2] == log.topics@[2]@);
            assert(log.topics.deep_view()[3] == log.topics@[3]@);
        }
        let operator = copy_range(&log.topics[1], 12, 32);
        let from = copy_range(&log.topics[2], 12, 32);
        let to = copy_range(&log.topics[3], 12, 32);
        let ids = vec![p.0];
        let values = vec![p.1];
        proof {
            assert(u256s(ids@) =~= seq![word_at(log.data@, 0)]);
            assert(u256s(values@) =~= seq![word_at(log.data@, 32)]);
        }
        Ok(NormalizedTransfer { operator, from, to, ids, values })
    } else if crate::ascii::bytes_eq(t0, &sig_b) {
        let p = match decode_erc1155_transfer_batch(log) {
            Ok(p) => p,
            Err(e) => {
                return Err(e);
            },
        };
        if p.0.len() != p.1.len() {
            proof {
                assert(u256s(p.0@).len() == p.0@.len());
                assert(u256s(p.1@).len() == p.1@.len());
            }
            return Err(DecodeError::LengthMismatch);
        }
        proof {
            assert(log.topics.deep_view()[1] == log.topics@[1]@);
            assert(log.topics.deep_view()[2] == log.topics@[2]@);
            assert(log.topics.deep_view()[3] == log.topics@[3]@);
            assert(u256s(p.0@).len() == p.0@.len());
            assert(u256s(p.1@).len() == p.1@.len());
        }
        let operator = copy_range(&log.topics[1], 12, 32);
        let from = copy_range(&log.topics[2], 12, 32);
        let to = copy_range(&log.topics[3], 12, 32);
        Ok(NormalizedTransfer { operator, from, to, ids: p.0, values: p.1 })
    } else {
        Err(DecodeError::UnknownTopic)
    }
}


/// The concatenated 32-byte words of a list of values.
pub open spec fn words_of(s: Seq<nat>) -> Seq<u8>
    decreases s.len(),
{
    if s.len() == 0 {
        Seq::<u8>::empty()
    } else {
        words_of(s.drop_last()) + be_bytes32(s.last())
    }
}

/// The canonical ABI encoding of a `TransferBatch` data payload.
pub open spec fn spec_encode_batch(ids: Seq<nat>, vals: Seq<nat>) -> Seq<u8> {
    be_bytes32(64) + be_bytes32(96 + 32 * ids.len()) + be_bytes32(ids.len()) + words_of(ids)
        + be_bytes32(vals.len()) + words_of(vals)
}

/// Append the 32 big-endian bytes of `w`.
fn append_word(out: &mut Vec<u8>, w: &U256)
    ensures
        final(out)@ == old(out)@ + be_bytes32(w.as_nat()),
{
    let b = w.to_be_bytes();
    let mut k: usize = 0;
    proof {
        assert(b@.len() == 32);
    }
    while k < 32
        invariant
            k <= 32,
            b@ == be_bytes32(w.as_nat()),
            b@.len() == 32,
            out@ == old(out)@ + b@.take(k as int),
        decreases 32 - k,
    {
        out.push(b[k]);
        k += 1;
        proof {
            assert(out@ =~= old(out)@ + b@.take(k as int));
        }
    }
    proof {
        assert(b@.take(32) =~= b@);
    }
}

/// Encode id and value lists as a canonical `TransferBatch` data payload.
///
/// Decoding the result gives the arguments back, and any payload this
/// function produced re-encodes to the identical bytes: the output is
/// pinned, byte for byte, to `spec_encode_batch`.
#[verifier::rlimit(50)]
pub fn encode_batch_data(ids: &Vec<U256>, values: &Vec<U256>) -> (r: Vec<u8>)
    requires
        ids@.len() == values@.len(),
        ids@.len() <= 0x100000,
    ensures
        r@ == spec_encode_batch(u256s(ids@), u256s(values@)),
        batch_data_ok(r@),
        batch_ids(r@) == u256s(ids@),
        batch_values(r@) == u256s(values@),
{
    let n: usize = ids.len();
    let off2: u64 = 96 + 32 * (n as u64);
    let mut r: Vec<u8> = Vec::new();
    let w_off1 = U256::from_u64(64);
    let w_off2 = U256::from_u64(off2);
    let w_n = U256::from_u64(n as u64);
    append_word(&mut r, &w_off1);
    append_word(&mut r, &w_off2);
    append_word(&mut r, &w_n);
    let ghost ids_n = u256s(ids@);
    let ghost vals_n = u256s(values@);
    let ghost head = be_bytes32(64) + be_bytes32(96 + 32 * ids_n.len()) + be_bytes32(ids_n.len());
    proof {
        assert(ids_n.len() == ids@.len());
        assert(vals_n.len() == values@.len());
        assert(r@ =~= head);
        assert(r@.len() == 96);
    }
    let mut i: usize = 0;
    while i < n
        invariant
            i <= n,
            n == ids@.len(),
            ids_n == u256s(ids@),
            ids_n.len() == n,
            r@ == head + words_of(ids_n.take(i as int)),
            head.len() == 96,
            r@.len() == 96 + 32 * i,
        decreases n - i,
    {
        proof {
            assert(words_of(ids_n.take(i as int)).len() == 32 * i) by {
                lemma_words_of_len(ids_n.take(i as int));
            }
            assert(u256s(ids@)[i as int] == ids@[i as int].as_nat());
        }
        append_word(&mut r, &ids[i]);
        i += 1;
        proof {
            let t = ids_n.take(i as int);
            assert(t.drop_last() =~= ids_n.take(i - 1));
            assert(words_of(t) == words_of(ids_n.take(i - 1)) + be_bytes32(ids_n[i - 1]));
            assert(r@ =~= head + words_of(t));
        }
    }
    proof {
        assert(ids_n.take(n as int) =~= ids_n);
        lemma_words_of_len(ids_n);
    }
    let w_m = U256::from_u64(n as u64);
    append_word(&mut r, &w_m);
    let ghost head2 = head + words_of(ids_n) + be_bytes32(vals_n.len());
    proof {
        assert(r@ =~= head2);
        assert(r@.len() == 128 + 32 * ids_n.len());
    }
    let mut k: usize = 0;
    while k < n
        invariant
            k <= n,
            n == values@.len(),
            vals_n == u256s(values@),
            vals_n.len() == n,
            r@ == head2 + words_of(vals_n.take(k as int)),
            head2.len() == 128 + 32 * ids_n.len(),
            ids_n.len() == n,
            r@.len() == 128 + 32 * n + 32 * k,
        decreases n - k,
    {
        proof {
            assert(words_of(vals_n.take(k as int)).len() == 32 * k) by {
                lemma_words_of_len(vals_n.take(k as int));
            }
            assert(u256s(values@)[k as int] == values@[k as int].as_nat());
        }
        append_word(&mut r, &values[k]);
        k += 1;
        proof {
            let t = vals_n.take(k as int);
            assert(t.drop_last() =~= vals_n.take(k - 1));
            assert(words_of(t) == words_of(vals_n.take(k - 1)) + be_bytes32(vals_n[k - 1]));
            assert(r@ =~= head2 + words_of(t));
        }
    }
    proof {
        assert(vals_n.take(n as int) =~= vals_n);
        lemma_words_of_len(vals_n);
        assert(r@ =~= spec_encode_batch(ids_n, vals_n));
        lemma_batch_layout(ids_n, vals_n);
    }
    r
}

/// The byte length of a word list.
pub proof fn lemma_words_of_len(s: Seq<nat>)
    ensures
        words_of(s).len() == 32 * s.len(),
    decreases s.len(),
{
    if s.len() > 0 {
        lemma_words_of_len(s.drop_last());
    }
}

/// Each word of a word list can be read back from its byte position.
proof fn lemma_words_of_index(s: Seq<nat>, i: int)
    requires
        0 <= i < s.len(),
        forall|j: int| 0 <= j < s.len() ==> s[j] < crate::u256::p256(),
    ensures
        words_of(s).subrange(32 * i, 32 * i + 32) == be_bytes32(s[i]),
    decreases s.len(),
{
    lemma_words_of_len(s);
    if i == s.len() - 1 {
        lemma_words_of_len(s.drop_last());
        assert(words_of(s).subrange(32 * i, 32 * i + 32) =~= be_bytes32(s.last()));
    } else {
        lemma_words_of_index(s.drop_last(), i);
        lemma_words_of_len(s.drop_last());
        assert(words_of(s).subrange(32 * i, 32 * i + 32) =~= words_of(s.drop_last()).subrange(
            32 * i,
            32 * i + 32,
        ));
    }
}

/// A canonically encoded batch payload decodes to the encoded lists.
pub proof fn lemma_batch_layout(ids: Seq<nat>, vals: Seq<nat>)
    requires
        ids.len() == vals.len(),
        ids.len() <= 0x100000,
        forall|j: int| 0 <= j < ids.len() ==> ids[j] < crate::u256::p256(),
        forall|j: int| 0 <= j < vals.len() ==> vals[j] < crate::u256::p256(),
    ensures
        batch_data_ok(spec_encode_batch(ids, vals)),
        batch_ids(spec_encode_batch(ids, vals)) == ids,
        batch_values(spec_encode_batch(ids, vals)) == vals,
{
    let d = spec_encode_batch(ids, vals);
    let n = ids.len() as int;
    lemma_words_of_len(ids);
    lemma_words_of_len(vals);
    assert(d.len() == 128 + 32 * n + 32 * n);
    crate::u256::lemma_be_val_be_bytes32(64);
    crate::u256::lemma_be_val_be_bytes32((96 + 32 * n) as nat);
    crate::u256::lemma_be_val_be_bytes32(n as nat);
    assert(d.subrange(0, 32) =~= be_bytes32(64));
    assert(word_at(d, 0) == 64);
    assert(d.subrange(32, 64) =~= be_bytes32((96 + 32 * n) as nat));
    assert(word_at(d, 32) == 96 + 32 * n);
    assert(d.subrange(64, 96) =~= be_bytes32(n as nat));
    assert(word_at(d, 64) == n);
    assert(d.subrange(96 + 32 * n, 128 + 32 * n) =~= be_bytes32(n as nat));
    assert(word_at(d, 96 + 32 * n as int) == n);
    assert(array_ok(d, 64));
    assert(array_ok(d, (96 + 32 * n) as nat));
    assert forall|i: int| 0 <= i < n implies array_at(d, 64)[i] == ids[i] by {
        lemma_words_of_index(ids, i);
        assert(d.subrange(96 + 32 * i, 96 + 32 * i + 32) =~= words_of(ids).subrange(
            32 * i,
            32 * i + 32,
        ));
        crate::u256::lemma_be_val_be_bytes32(ids[i]);
        assert(array_at(d, 64)[i] == word_at(d, 64 + 32 + 32 * i));
    }
    assert(batch_ids(d) =~= ids);
    assert forall|i: int| 0 <= i < n implies array_at(d, (96 + 32 * n) as nat)[i] == vals[i] by {
        lemma_words_of_index(vals, i);
        assert(d.subrange(128 + 32 * n + 32 * i, 128 + 32 * n + 32 * i + 32) =~= words_of(
            vals,
        ).subrange(32 * i, 32 * i + 32));
        crate::u256::lemma_be_val_be_bytes32(vals[i]);
        assert(array_at(d, (96 + 32 * n) as nat)[i] == word_at(d, 96 + 32 * n + 32 + 32 * i));
    }
    assert(batch_values(d) =~= vals);
}

} // verus!


