//! Byte-string helpers: ASCII case folding and hexadecimal rendering.
//!
//! Addresses and names travel through the library as UTF-8 byte strings;
//! every comparison that the system treats as case-insensitive is folded
//! with `lower_seq` first.

use vstd::prelude::*;

verus! {

/// ASCII lowercase of one byte: `'A'..='Z'` map to `'a'..='z'`, the rest stay.
pub open spec fn lower_byte(b: u8) -> u8 {
    if 65 <= b && b <= 90 {
        (b + 32) as u8
    } else {
        b
    }
}

/// ASCII lowercase of a byte string.
pub open spec fn lower_seq(s: Seq<u8>) -> Seq<u8> {
    s.map_values(|b: u8| lower_byte(b))
}

/// Case-insensitive equality of byte strings (ASCII folding only).
pub open spec fn eq_fold(a: Seq<u8>, b: Seq<u8>) -> bool {
    lower_seq(a) == lower_seq(b)
}

/// Folding is idempotent: a lowered string is fixed under lowering.
pub proof fn lemma_lower_idempotent(s: Seq<u8>)
    ensures
        lower_seq(lower_seq(s)) == lower_seq(s),
{
    assert(lower_seq(lower_seq(s)) =~= lower_seq(s));
}

pub fn to_lowercase(s: &Vec<u8>) -> (r: Vec<u8>)
    ensures
        r@ == lower_seq(s@),
{
    let mut r: Vec<u8> = Vec::new();
    let mut i: usize = 0;
    while i < s.len()
        invariant
            i <= s.len(),
            r@ == lower_seq(s@.take(i as int)),
        decreases s.len() - i,
    {
        let b = s[i];
        if 65 <= b && b <= 90 {
            r.push(b + 32);
        } else {
            r.push(b);
        }
        i += 1;
        proof {
            assert(r@ =~= lower_seq(s@.take(i as int)));
        }
    }
    proof {
        assert(s@.take(s@.len() as int) =~= s@);
    }
    r
}

pub fn bytes_eq(a: &Vec<u8>, b: &Vec<u8>) -> (r: bool)
    ensures
        r == (a@ == b@),
{
    if a.len() != b.len() {
        proof {
            assert(a@ != b@);
        }
        return false;
    }
    let mut i: usize = 0;
    while i < a.len()
        invariant
            i <= a.len(),
            a@.len() == b@.len(),
            forall|j: int| 0 <= j < i ==> a@[j] == b@[j],
        decreases a.len() - i,
    {
        if a[i] != b[i] {
            return false;
        }
        i += 1;
    }
    proof {
        assert(a@ =~= b@);
    }
    true
}

pub fn eq_ignore_case(a: &Vec<u8>, b: &Vec<u8>) -> (r: bool)
    ensures
        r == eq_fold(a@, b@),
{
    if a.len() != b.len() {
        proof {
            assert(lower_seq(a@).len() != lower_seq(b@).len());
        }
        return false;
    }
    let mut i: usize = 0;
    while i < a.len()
        invariant
            i <= a.len(),
            a@.len() == b@.len(),
            forall|j: int| 0 <= j < i ==> lower_byte(a@[j]) == lower_byte(b@[j]),
        decreases a.len() - i,
    {
        let ab = a[i];
        let bb = b[i];
        let al = if 65 <= ab && ab <= 90 {
            ab + 32
        } else {
            ab
        };
        let bl = if 65 <= bb && bb <= 90 {
            bb + 32
        } else {
            bb
        };
        if al != bl {
            proof {
                assert(lower_seq(a@)[i as int] != lower_seq(b@)[i as int]);
            }
            return false;
        }
        i += 1;
    }
    proof {
        assert(lower_seq(a@) =~= lower_seq(b@));
    }
    true
}

/// A hexadecimal digit in either case.
pub open spec fn is_hex_digit(b: u8) -> bool {
    (48 <= b && b <= 57) || (97 <= b && b <= 102) || (65 <= b && b <= 70)
}

/// A `0x`-prefixed 40-digit hexadecimal address string.
pub open spec fn is_hex_address(s: Seq<u8>) -> bool {
    &&& s.len() == 42
    &&& s[0] == 48
    &&& s[1] == 120
    &&& forall|i: int| 2 <= i < 42 ==> is_hex_digit(#[trigger] s[i])
}

/// Decide whether a byte string is a hexadecimal address.
pub fn check_hex_address(s: &Vec<u8>) -> (r: bool)
    ensures
        r == is_hex_address(s@),
{
    if s.len() != 42 || s[0] != 48 || s[1] != 120 {
        return false;
    }
    let mut i: usize = 2;
    while i < 42
        invariant
            2 <= i <= 42,
            s@.len() == 42,
            forall|j: int| 2 <= j < i ==> is_hex_digit(#[trigger] s@[j]),
        decreases 42 - i,
    {
        let b = s[i];
        if !((48 <= b && b <= 57) || (97 <= b && b <= 102) || (65 <= b && b <= 70)) {
            return false;
        }
        i += 1;
    }
    true
}

/// Case folding keeps an address an address.
pub proof fn lemma_lower_hex_address(s: Seq<u8>)
    requires
        is_hex_address(s),
    ensures
        is_hex_address(lower_seq(s)),
{
    assert forall|i: int| 2 <= i < 42 implies is_hex_digit(#[trigger] lower_seq(s)[i]) by {
        assert(is_hex_digit(s[i]));
    }
}

/// The lowercase hexadecimal character of a value below 16.
pub open spec fn hex_char(v: u8) -> u8 {
    if v < 10 {
        (48 + v) as u8
    } else {
        (87 + v) as u8
    }
}

/// The `i`th of the `2 * bytes.len()` hex digits of a big-endian byte string.
pub open spec fn hex_digit_at(bytes: Seq<u8>, i: int) -> u8 {
    if i % 2 == 0 {
        hex_char((bytes[i / 2] / 16) as u8)
    } else {
        hex_char((bytes[i / 2] % 16) as u8)
    }
}

/// `0x` followed by the lowercase hex digits of `bytes`.
pub open spec fn hex_render(bytes: Seq<u8>) -> Seq<u8> {
    seq![48u8, 120u8] + Seq::new((bytes.len() * 2) as nat, |i: int| hex_digit_at(bytes, i))
}

/// Render raw bytes as a `0x`-prefixed lowercase hexadecimal string.
pub fn render_hex(bytes: &Vec<u8>) -> (r: Vec<u8>)
    requires
        2 * bytes@.len() + 2 <= usize::MAX,
    ensures
        r@ == hex_render(bytes@),
{
    let mut r: Vec<u8> = Vec::new();
    r.push(48);
    r.push(120);
    let mut i: usize = 0;
    while i < bytes.len()
        invariant
            i <= bytes.len(),
            2 * bytes@.len() + 2 <= usize::MAX,
            r@.len() == 2 + 2 * i,
            r@[0] == 48u8 && r@[1] == 120u8,
            forall|j: int| 0 <= j < 2 * i ==> r@[2 + j] == hex_digit_at(bytes@, j),
        decreases bytes.len() - i,
    {
        let b = bytes[i];
        let hi = b / 16;
        let lo = b % 16;
        r.push(if hi < 10 {
            48 + hi
        } else {
            87 + hi
        });
        r.push(if lo < 10 {
            48 + lo
        } else {
            87 + lo
        });
        proof {
            assert(r@[2 + 2 * i as int] == hex_digit_at(bytes@, 2 * i as int));
            assert(r@[2 + 2 * i as int + 1] == hex_digit_at(bytes@, 2 * i as int + 1));
        }
        i += 1;
    }
    proof {
        assert(r@ =~= hex_render(bytes@));
    }
    r
}

} // verus!
