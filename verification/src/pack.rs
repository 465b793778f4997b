//! Packing a built application image: the payload binary starts with the
//! application's byte size as an eight-byte little-endian word, and the ELF
//! follows at offset eight. The size word is produced the way the build
//! tool does it: the size printed as sixteen hex digits, decoded through
//! the hex codec back into bytes, and reversed into little-endian order.

use vstd::prelude::*;
use crate::bytes::le64_byte;

verus! {

/// The fixed size of the payload binary image.
pub const BIN_IMAGE_SIZE: usize = 0x2000000;

/// Where the ELF bytes start inside the payload binary.
pub const BIN_ELF_OFFSET: usize = 8;

/// An ASCII hex digit (either case).
pub open spec fn is_hex_digit(c: u8) -> bool {
    (48 <= c <= 57) || (65 <= c <= 70) || (97 <= c <= 102)
}

/// The value of an ASCII hex digit.
pub open spec fn hex_val(c: u8) -> u8 {
    if 48 <= c <= 57 {
        (c - 48) as u8
    } else if 65 <= c <= 70 {
        (c - 55) as u8
    } else {
        (c - 87) as u8
    }
}

/// An even number of hex digits.
pub open spec fn valid_hex(s: Seq<u8>) -> bool {
    s.len() % 2 == 0 && (forall|i: int| 0 <= i < s.len() ==> is_hex_digit(#[trigger] s[i]))
}

/// `r` is `s` decoded: each digit pair becomes one byte, high digit first.
pub open spec fn hex_decoded(s: Seq<u8>, r: Seq<u8>) -> bool {
    &&& r.len() == s.len() / 2
    &&& forall|i: int|
        0 <= i < r.len() ==> (#[trigger] r[i]) as int == 16 * hex_val(s[2 * i]) + hex_val(
            s[2 * i + 1],
        )
}

#[verifier::external_type_specification]
#[verifier::external_body]
pub struct ExFromHexError(hex::FromHexError);

/// Relies on hex::decode: an even string of hex digits (either case)
/// decodes pairwise into bytes, high digit first; an odd length or a
/// non-digit is an error.
#[verifier::external_body]
fn hex_decode(data: &Vec<u8>) -> (r: Result<Vec<u8>, hex::FromHexError>)
    ensures
        ({
            match r {
                Ok(v) => valid_hex(data@) && hex_decoded(data@, v@),
                Err(_) => !valid_hex(data@),
            }
        }),
{
    hex::decode(data)
}

/// Hex digit `k` (most significant first) of the sixteen-digit rendering
/// of `v`.
pub open spec fn hex16_digit(v: u64, k: int) -> u8 {
    ((v >> (((15 - k) * 4) as u64)) & 0xf) as u8
}

/// The ASCII character of a hex digit value, lower case.
pub open spec fn hex_char(d: u8) -> u8 {
    if d < 10 {
        (48 + d) as u8
    } else {
        (87 + d) as u8
    }
}

/// A nibble masked out of a word is below sixteen.
proof fn lemma_nib_bound(v: u64, sh: u64)
    by (bit_vector)
    ensures
        (v >> sh) & 0xf < 16,
{
}

/// A hex digit's character reads back as its value.
pub proof fn lemma_hex_char_val(d: u8)
    requires
        d < 16,
    ensures
        is_hex_digit(hex_char(d)),
        hex_val(hex_char(d)) == d,
{
}

/// Renders `v` as sixteen lower-case hex digits, most significant first.
#[verifier::loop_isolation(false)]
pub fn to_hex16(v: u64) -> (r: Vec<u8>)
    ensures
        r@.len() == 16,
        forall|k: int| 0 <= k < 16 ==> (#[trigger] r@[k]) == hex_char(hex16_digit(v, k)),
        valid_hex(r@),
{
    let mut r: Vec<u8> = Vec::new();
    let mut k: usize = 0;
    while k < 16
        invariant
            k <= 16,
            r@.len() == k,
            forall|m: int| 0 <= m < k ==> (#[trigger] r@[m]) == hex_char(hex16_digit(v, m)),
        decreases 16 - k,
    {
        let sh = (60 - 4 * k) as u64;
        let nib = (v >> sh) & 0xf;
        proof {
            lemma_nib_bound(v, sh);
        }
        let d = nib as u8;
        let c = if d < 10 {
            48 + d
        } else {
            87 + d
        };
        proof {
            assert(d == hex16_digit(v, k as int));
            assert(c == hex_char(hex16_digit(v, k as int)));
        }
        r.push(c);
        k = k + 1;
    }
    proof {
        assert forall|i: int| 0 <= i < r@.len() implies is_hex_digit(#[trigger] r@[i]) by {
            lemma_nib_bound(v, ((15 - i) * 4) as u64);
            lemma_hex_char_val(hex16_digit(v, i));
        }
    }
    r
}

/// The two hex digits of little-endian byte `j` combine into that byte of
/// `v`.
proof fn lemma_hex_pair_byte(v: u64, j: u64)
    by (bit_vector)
    requires
        j < 8,
    ensures
        16 * ((v >> ((8 * j + 4) as u64)) & 0xf) + ((v >> ((8 * j) as u64)) & 0xf) == (v >> ((8 * j)
            as u64)) & 0xff,
{
}

/// Connects the shifted-byte form with the little-endian byte function.
proof fn lemma_shift_is_le_byte(v: u64, j: u64)
    requires
        j < 8,
    ensures
        ((v >> ((8 * j) as u64)) & 0xff) as u8 == le64_byte(v, j),
{
    if j == 0 {
        assert((v >> 0) & 0xff == v & 0xff) by (bit_vector);
    } else if j == 1 {
    } else if j == 2 {
    } else if j == 3 {
    } else if j == 4 {
    } else if j == 5 {
    } else if j == 6 {
    } else {
        assert(j == 7);
    }
}

/// The size word written at the head of a payload binary: the eight bytes
/// of `app_size`, least significant first, produced by rendering the size
/// as sixteen hex digits, decoding them and reversing the byte order.
pub fn size_header(app_size: u64) -> (r: Vec<u8>)
    ensures
        r@.len() == 8,
        forall|j: int| 0 <= j < 8 ==> (#[trigger] r@[j]) == le64_byte(app_size, j as u64),
{
    let chars = to_hex16(app_size);
    let be = match hex_decode(&chars) {
        Ok(v) => v,
        Err(_) => {
            proof {
                assert(false);
            }
            Vec::new()
        },
    };
    let mut r: Vec<u8> = Vec::new();
    let mut j: usize = 0;
    while j < 8
        invariant
            j <= 8,
            be@.len() == 8,
            hex_decoded(chars@, be@),
            chars@.len() == 16,
            forall|k: int| 0 <= k < 16 ==> (#[trigger] chars@[k]) == hex_char(hex16_digit(app_size, k)),
            r@.len() == j,
            forall|m: int| 0 <= m < j ==> (#[trigger] r@[m]) == le64_byte(app_size, m as u64),
        decreases 8 - j,
    {
        let b = be[7 - j];
        proof {
            let jj = j as int;
            let hi = hex16_digit(app_size, 14 - 2 * jj);
            let lo = hex16_digit(app_size, 15 - 2 * jj);
            assert(chars@[2 * (7 - jj)] == hex_char(hi));
            assert(chars@[2 * (7 - jj) + 1] == hex_char(lo));
            lemma_nib_bound(app_size, ((15 - (14 - 2 * jj)) * 4) as u64);
            lemma_nib_bound(app_size, ((15 - (15 - 2 * jj)) * 4) as u64);
            lemma_hex_char_val(hi);
            lemma_hex_char_val(lo);
            assert(b as int == 16 * hi + lo);
            assert(hi == ((app_size >> ((8 * (j as u64) + 4) as u64)) & 0xf) as u8);
            assert(lo == ((app_size >> ((8 * (j as u64)) as u64)) & 0xf) as u8);
            lemma_hex_pair_byte(app_size, j as u64);
            lemma_shift_is_le_byte(app_size, j as u64);
            assert(b == le64_byte(app_size, j as u64));
        }
        r.push(b);
        j = j + 1;
    }
    r
}

} // verus!
