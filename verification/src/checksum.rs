//! The EIP-55 display form of addresses.
//!
//! Computing it takes a Keccak digest of the address, so the rendering is
//! named rather than spelled out; what the contracts rely on is that it is
//! a function of the input string alone and that it only changes the ASCII
//! case of the hex digits.

use crate::ascii::{is_hex_address, lower_seq};
use vstd::prelude::*;

verus! {

/// What `eth_checksum::checksum` returns for an address string.
pub uninterp spec fn checksum_of(s: Seq<u8>) -> Seq<u8>;

/// Relies on `eth_checksum::checksum`: it lowercases the hex digits after
/// the `0x` prefix, hashes them, and returns `0x` followed by the same
/// digits with some letters uppercased — so the result equals the input up
/// to ASCII case. Only proper addresses may be passed: on longer input the
/// crate's digit-indexed slicing of the 64-character hash panics.
#[verifier::external_body]
pub fn checksum_address(addr: &Vec<u8>) -> (r: Vec<u8>)
    requires
        is_hex_address(addr@),
    ensures
        r@ == checksum_of(addr@),
        lower_seq(r@) == lower_seq(addr@),
{
    let s = String::from_utf8_lossy(addr.as_slice()).into_owned();
    eth_checksum::checksum(&s).into_bytes()
}

} // verus!
