//! Display names: the user file maps usernames to wallet addresses.
//!
//! A wallet resolves to the first username whose address list carries it,
//! compared case-insensitively; a wallet nobody claims shows as its EIP-55
//! form. A username resolves to its addresses.

use crate::ascii::{eq_fold, is_hex_address, is_hex_digit, lower_seq};
use crate::checksum::checksum_of;
use crate::replay::{addrs_sorted, contains_bytes, insert_addr_sorted};
use vstd::prelude::*;

verus! {

/// One line of the user file: a username and its wallet addresses.
pub struct UserEntry {
    pub username: Vec<u8>,
    pub addresses: Vec<Vec<u8>>,
}

/// The address appears in the list, up to ASCII case.
pub open spec fn addr_in_list(addrs: Seq<Vec<u8>>, a: Seq<u8>) -> bool {
    exists|i: int| 0 <= i < addrs.len() && eq_fold((#[trigger] addrs[i])@, a)
}

/// The first username whose addresses carry `a`, scanning in file order.
pub open spec fn username_for(users: Seq<UserEntry>, a: Seq<u8>) -> Option<Seq<u8>>
    decreases users.len(),
{
    if users.len() == 0 {
        None
    } else if addr_in_list(users[0].addresses@, a) {
        Some(users[0].username@)
    } else {
        username_for(users.drop_first(), a)
    }
}

/// The display name of a wallet: its username; an unclaimed address shows
/// as its EIP-55 form, and a wallet string that is not an address shows as
/// itself.
pub open spec fn display_name(users: Seq<UserEntry>, w: Seq<u8>) -> Seq<u8> {
    match username_for(users, w) {
        Some(n) => n,
        None => if is_hex_address(w) {
            checksum_of(w)
        } else {
            w
        },
    }
}

/// A parseable address: `0x` plus 40 hex digits, or 40 bare hex digits;
/// normalized to the prefixed lowercase form.
pub open spec fn spec_normalize_address(s: Seq<u8>) -> Option<Seq<u8>> {
    if is_hex_address(s) {
        Some(lower_seq(s))
    } else if s.len() == 40 && (forall|i: int| 0 <= i < 40 ==> is_hex_digit(#[trigger] s[i])) {
        Some(seq![48u8, 120u8] + lower_seq(s))
    } else {
        None
    }
}

fn all_hex(s: &Vec<u8>, start: usize) -> (r: bool)
    requires
        start <= s@.len(),
    ensures
        r == (forall|i: int| start <= i < s@.len() ==> is_hex_digit(#[trigger] s@[i])),
{
    let mut i: usize = start;
    while i < s.len()
        invariant
            start <= i <= s@.len(),
            forall|j: int| start <= j < i ==> is_hex_digit(#[trigger] s@[j]),
        decreases s@.len() - i,
    {
        let b = s[i];
        if !((48 <= b && b <= 57) || (97 <= b && b <= 102) || (65 <= b && b <= 70)) {
            return false;
        }
        i += 1;
    }
    true
}

/// Normalize an address string, or `None` where it does not parse.
pub fn normalize_address(s: &Vec<u8>) -> (r: Option<Vec<u8>>)
    ensures
        match r {
            Some(v) => spec_normalize_address(s@) == Some(v@),
            None => spec_normalize_address(s@) is None,
        },
{
    if s.len() == 42 && s[0] == 48 && s[1] == 120 && all_hex(s, 2) {
        Some(crate::ascii::to_lowercase(s))
    } else if s.len() == 40 && all_hex(s, 0) {
        let mut r: Vec<u8> = Vec::new();
        r.push(48);
        r.push(120);
        let low = crate::ascii::to_lowercase(s);
        let mut i: usize = 0;
        while i < low.len()
            invariant
                i <= low@.len(),
                low@ == lower_seq(s@),
                r@ == seq![48u8, 120u8] + low@.take(i as int),
            decreases low@.len() - i,
        {
            r.push(low[i]);
            i += 1;
            proof {
                assert(r@ =~= seq![48u8, 120u8] + low@.take(i as int));
            }
        }
        proof {
            assert(low@.take(low@.len() as int) =~= low@);
            assert(!is_hex_address(s@));
        }
        Some(r)
    } else {
        None
    }
}

/// Whether `users` claims `addr`, and under which name.
pub fn lookup_username(users: &Vec<UserEntry>, addr: &Vec<u8>) -> (r: Option<Vec<u8>>)
    ensures
        match r {
            Some(n) => username_for(users@, addr@) == Some(n@),
            None => username_for(users@, addr@) is None,
        },
{
    let n = users.len();
    let mut i: usize = 0;
    proof {
        assert(users@.skip(0) =~= users@);
    }
    while i < n
        invariant
            i <= n,
            n == users@.len(),
            username_for(users@, addr@) == username_for(users@.skip(i as int), addr@),
        decreases n - i,
    {
        proof {
            assert(users@.skip(i as int)[0] == users@[i as int]);
            assert(users@.skip(i as int).drop_first() =~= users@.skip(i as int + 1));
        }
        let entry = &users[i];
        let m = entry.addresses.len();
        let mut j: usize = 0;
        while j < m
            invariant
                j <= m,
                i < n,
                n == users@.len(),
                m == users@[i as int].addresses@.len(),
                entry == users@[i as int],
                username_for(users@, addr@) == username_for(users@.skip(i as int), addr@),
                users@.skip(i as int)[0] == users@[i as int],
                forall|t: int|
                    0 <= t < j ==> !eq_fold(
                        (#[trigger] users@[i as int].addresses@[t])@,
                        addr@,
                    ),
            decreases m - j,
        {
            if crate::ascii::eq_ignore_case(&entry.addresses[j], addr) {
                proof {
                    assert(addr_in_list(users@[i as int].addresses@, addr@));
                    assert(users@.skip(i as int)[0] == users@[i as int]);
                    assert(username_for(users@.skip(i as int), addr@) == Some(
                        users@[i as int].username@,
                    ));
                }
                return Some(crate::replay::copy_bytes(&entry.username));
            }
            j += 1;
        }
        proof {
            assert(!addr_in_list(users@[i as int].addresses@, addr@));
        }
        i += 1;
    }
    None
}

/// Why a wallet cannot be resolved.
#[derive(Clone, Copy, PartialEq, Eq, Structural, Debug)]
pub enum UserLookupError {
    /// The wallet string is not a hexadecimal address.
    InvalidAddress,
}

/// The display name of a wallet: the username claiming it, otherwise its
/// EIP-55 form; an unparseable wallet string is rejected.
pub fn get_username_or_checksummed_address(
    wallet_address: &Vec<u8>,
    users: &Vec<UserEntry>,
) -> (r: Result<Option<Vec<u8>>, UserLookupError>)
    ensures
        match r {
            Ok(opt) => {
                &&& spec_normalize_address(wallet_address@) is Some
                &&& opt is Some
                &&& opt->Some_0@ == display_name(
                    users@,
                    spec_normalize_address(wallet_address@)->Some_0,
                )
            },
            Err(e) => e == UserLookupError::InvalidAddress && spec_normalize_address(
                wallet_address@,
            ) is None,
        },
{
    let norm = match normalize_address(wallet_address) {
        Some(v) => v,
        None => {
            return Err(UserLookupError::InvalidAddress);
        },
    };
    proof {
        if is_hex_address(wallet_address@) {
            crate::ascii::lemma_lower_hex_address(wallet_address@);
        } else {
            assert(norm@ == seq![48u8, 120u8] + lower_seq(wallet_address@));
            assert forall|i: int| 2 <= i < 42 implies is_hex_digit(#[trigger] norm@[i]) by {
                assert(norm@[i] == lower_seq(wallet_address@)[i - 2]);
                assert(is_hex_digit(wallet_address@[i - 2]));
            }
            assert(is_hex_address(norm@));
        }
    }
    match lookup_username(users, &norm) {
        Some(name) => Ok(Some(name)),
        None => Ok(Some(crate::checksum::checksum_address(&norm))),
    }
}

/// The first entry whose username equals `name` exactly.
pub open spec fn entry_for(users: Seq<UserEntry>, name: Seq<u8>) -> Option<Seq<Vec<u8>>>
    decreases users.len(),
{
    if users.len() == 0 {
        None
    } else if users[0].username@ == name {
        Some(users[0].addresses@)
    } else {
        entry_for(users.drop_first(), name)
    }
}

/// Every address of a username, distinct and ascending; a name no entry
/// carries that is itself an address resolves to just itself; anything
/// else resolves to nothing.
pub fn get_all_addresses_for_username(username: &Vec<u8>, users: &Vec<UserEntry>) -> (r: Vec<
    Vec<u8>,
>)
    ensures
        addrs_sorted(r@),
        match entry_for(users@, username@) {
            Some(addrs) => forall|a: Seq<u8>|
                contains_bytes(r@, a) == (exists|i: int|
                    0 <= i < addrs.len() && (#[trigger] addrs[i])@ == a),
            None => {
                if spec_normalize_address(username@) is Some {
                    r@.len() == 1 && r@[0]@ == username@
                } else {
                    r@.len() == 0
                }
            },
        },
{
    let n = users.len();
    let mut i: usize = 0;
    proof {
        assert(users@.skip(0) =~= users@);
    }
    while i < n
        invariant
            i <= n,
            n == users@.len(),
            entry_for(users@, username@) == entry_for(users@.skip(i as int), username@),
        decreases n - i,
    {
        proof {
            assert(users@.skip(i as int)[0] == users@[i as int]);
            assert(users@.skip(i as int).drop_first() =~= users@.skip(i as int + 1));
        }
        if crate::ascii::bytes_eq(&users[i].username, username) {
            let addrs = &users[i].addresses;
            let m = addrs.len();
            let mut out: Vec<Vec<u8>> = Vec::new();
            let mut j: usize = 0;
            while j < m
                invariant
                    j <= m,
                    i < n,
                    n == users@.len(),
                    m == users@[i as int].addresses@.len(),
                    addrs == users@[i as int].addresses,
                    users@[i as int].username@ == username@,
                    entry_for(users@, username@) == entry_for(users@.skip(i as int), username@),
                    users@.skip(i as int)[0] == users@[i as int],
                    addrs_sorted(out@),
                    forall|a: Seq<u8>|
                        contains_bytes(out@, a) == (exists|t: int|
                            0 <= t < j && (#[trigger] users@[i as int].addresses@[t])@ == a),
                decreases m - j,
            {
                let c = crate::replay::copy_bytes(&addrs[j]);
                insert_addr_sorted(&mut out, c);
                j += 1;
                proof {
                    assert forall|a: Seq<u8>|
                        contains_bytes(out@, a) == (exists|t: int|
                            0 <= t < j && (#[trigger] users@[i as int].addresses@[t])@ == a) by {
                        if exists|t: int|
                            0 <= t < j && (#[trigger] users@[i as int].addresses@[t])@ == a {
                            let t = choose|t: int|
                                0 <= t < j && (#[trigger] users@[i as int].addresses@[t])@ == a;
                            assert(t < j);
                        }
                    }
                }
            }
            proof {
                assert(users@.skip(i as int)[0] == users@[i as int]);
                assert(entry_for(users@.skip(i as int), username@) == Some(
                    users@[i as int].addresses@,
                ));
                let addrs = entry_for(users@, username@)->Some_0;
                assert(addrs == users@[i as int].addresses@);
                assert forall|a: Seq<u8>|
                    contains_bytes(out@, a) == (exists|t: int|
                        0 <= t < addrs.len() && (#[trigger] addrs[t])@ == a) by {
                    if exists|t: int| 0 <= t < addrs.len() && (#[trigger] addrs[t])@ == a {
                        let t = choose|t: int|
                            0 <= t < addrs.len() && (#[trigger] addrs[t])@ == a;
                        assert(users@[i as int].addresses@[t]@ == a);
                    }
                    if contains_bytes(out@, a) {
                        let t = choose|t: int|
                            0 <= t < users@[i as int].addresses@.len() && (
                            #[trigger] users@[i as int].addresses@[t])@ == a;
                        assert(addrs[t]@ == a);
                    }
                }
            }
            return out;
        }
        i += 1;
    }
    match normalize_address(username) {
        Some(_) => {
            let mut out: Vec<Vec<u8>> = Vec::new();
            out.push(crate::replay::copy_bytes(username));
            out
        },
        None => Vec::new(),
    }
}


/// The usernames that own an address, sorted; else, where the input is a
/// username, its addresses, distinct and sorted; else nothing.
pub fn get_addresses_by_input(input: &Vec<u8>, users: &Vec<UserEntry>) -> (r: Vec<Vec<u8>>)
    ensures
        addrs_sorted(r@),
        (exists|i: int|
            0 <= i < users@.len() && addr_in_list((#[trigger] users@[i]).addresses@, input@))
            ==> forall|a: Seq<u8>|
            contains_bytes(r@, a) == (exists|i: int|
                0 <= i < users@.len() && (#[trigger] users@[i]).username@ == a && addr_in_list(
                    users@[i].addresses@,
                    input@,
                )),
        !(exists|i: int|
            0 <= i < users@.len() && addr_in_list((#[trigger] users@[i]).addresses@, input@))
            ==> match entry_for(users@, input@) {
            Some(addrs) => forall|a: Seq<u8>|
                contains_bytes(r@, a) == (exists|t: int|
                    0 <= t < addrs.len() && (#[trigger] addrs[t])@ == a),
            None => r@.len() == 0,
        },
{
    let n = users.len();
    let mut names: Vec<Vec<u8>> = Vec::new();
    let mut any = false;
    let mut i: usize = 0;
    while i < n
        invariant
            i <= n,
            n == users@.len(),
            addrs_sorted(names@),
            any == (exists|t: int|
                0 <= t < i && addr_in_list((#[trigger] users@[t]).addresses@, input@)),
            forall|a: Seq<u8>|
                contains_bytes(names@, a) == (exists|t: int|
                    0 <= t < i && (#[trigger] users@[t]).username@ == a && addr_in_list(
                        users@[t].addresses@,
                        input@,
                    )),
        decreases n - i,
    {
        let entry = &users[i];
        let m = entry.addresses.len();
        let mut j: usize = 0;
        let mut owned = false;
        while j < m
            invariant
                j <= m,
                i < n,
                n == users@.len(),
                m == users@[i as int].addresses@.len(),
                entry == users@[i as int],
                owned == (exists|t: int|
                    0 <= t < j && eq_fold(
                        (#[trigger] users@[i as int].addresses@[t])@,
                        input@,
                    )),
            decreases m - j,
        {
            if crate::ascii::eq_ignore_case(&entry.addresses[j], input) {
                owned = true;
            }
            j += 1;
        }
        proof {
            assert(owned == addr_in_list(users@[i as int].addresses@, input@));
        }
        let ghost names_prev = names@;
        if owned {
            any = true;
            insert_addr_sorted(&mut names, crate::replay::copy_bytes(&entry.username));
        }
        i += 1;
        proof {
            assert forall|a: Seq<u8>|
                contains_bytes(names@, a) == (exists|t: int|
                    0 <= t < i && (#[trigger] users@[t]).username@ == a && addr_in_list(
                        users@[t].addresses@,
                        input@,
                    )) by {
                if exists|t: int|
                    0 <= t < i && (#[trigger] users@[t]).username@ == a && addr_in_list(
                        users@[t].addresses@,
                        input@,
                    ) {
                    let t = choose|t: int|
                        0 <= t < i && (#[trigger] users@[t]).username@ == a && addr_in_list(
                            users@[t].addresses@,
                            input@,
                        );
                    assert(t < i);
                }
            }
            assert(any == (exists|t: int|
                0 <= t < i && addr_in_list((#[trigger] users@[t]).addresses@, input@))) by {
                if exists|t: int|
                    0 <= t < i && addr_in_list((#[trigger] users@[t]).addresses@, input@) {
                    let t = choose|t: int|
                        0 <= t < i && addr_in_list(
                            (#[trigger] users@[t]).addresses@,
                            input@,
                        );
                    assert(t < i);
                }
            }
        }
    }
    if any {
        return names;
    }
    let mut i2: usize = 0;
    proof {
        assert(users@.skip(0) =~= users@);
    }
    while i2 < n
        invariant
            i2 <= n,
            n == users@.len(),
            entry_for(users@, input@) == entry_for(users@.skip(i2 as int), input@),
            !(exists|t: int|
                0 <= t < users@.len() && addr_in_list(
                    (#[trigger] users@[t]).addresses@,
                    input@,
                )),
        decreases n - i2,
    {
        proof {
            assert(users@.skip(i2 as int)[0] == users@[i2 as int]);
            assert(users@.skip(i2 as int).drop_first() =~= users@.skip(i2 as int + 1));
        }
        if crate::ascii::bytes_eq(&users[i2].username, input) {
            let addrs = &users[i2].addresses;
            let m = addrs.len();
            let mut out: Vec<Vec<u8>> = Vec::new();
            let mut j: usize = 0;
            while j < m
                invariant
                    j <= m,
                    i2 < n,
                    n == users@.len(),
                    m == users@[i2 as int].addresses@.len(),
                    addrs == users@[i2 as int].addresses,
                    users@[i2 as int].username@ == input@,
                    entry_for(users@, input@) == entry_for(users@.skip(i2 as int), input@),
                    !(exists|t: int|
                        0 <= t < users@.len() && addr_in_list(
                            (#[trigger] users@[t]).addresses@,
                            input@,
                        )),
                    users@.skip(i2 as int)[0] == users@[i2 as int],
                    addrs_sorted(out@),
                    forall|a: Seq<u8>|
                        contains_bytes(out@, a) == (exists|t: int|
                            0 <= t < j && (#[trigger] users@[i2 as int].addresses@[t])@ == a),
                decreases m - j,
            {
                let c = crate::replay::copy_bytes(&addrs[j]);
                insert_addr_sorted(&mut out, c);
                j += 1;
                proof {
                    assert forall|a: Seq<u8>|
                        contains_bytes(out@, a) == (exists|t: int|
                            0 <= t < j && (#[trigger] users@[i2 as int].addresses@[t])@ == a) by {
                        if exists|t: int|
                            0 <= t < j && (#[trigger] users@[i2 as int].addresses@[t])@ == a {
                            let t = choose|t: int|
                                0 <= t < j && (#[trigger] users@[i2 as int].addresses@[t])@ == a;
                            assert(t < j);
                        }
                    }
                }
            }
            proof {
                assert(users@.skip(i2 as int)[0] == users@[i2 as int]);
                assert(entry_for(users@.skip(i2 as int), input@) == Some(
                    users@[i2 as int].addresses@,
                ));
                let addrs2 = entry_for(users@, input@)->Some_0;
                assert(addrs2 == users@[i2 as int].addresses@);
                assert forall|a: Seq<u8>|
                    contains_bytes(out@, a) == (exists|t: int|
                        0 <= t < addrs2.len() && (#[trigger] addrs2[t])@ == a) by {
                    if exists|t: int| 0 <= t < addrs2.len() && (#[trigger] addrs2[t])@ == a {
                        let t = choose|t: int|
                            0 <= t < addrs2.len() && (#[trigger] addrs2[t])@ == a;
                        assert(users@[i2 as int].addresses@[t]@ == a);
                    }
                    if contains_bytes(out@, a) {
                        let t = choose|t: int|
                            0 <= t < users@[i2 as int].addresses@.len() && (
                            #[trigger] users@[i2 as int].addresses@[t])@ == a;
                        assert(addrs2[t]@ == a);
                    }
                }
            }
            return out;
        }
        i2 += 1;
    }
    Vec::new()
}

} // verus!
