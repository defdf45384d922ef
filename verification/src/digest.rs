//! Content digests: trusted wrappers around the digest crates, plus verified
//! lowercase hex rendering of their raw output.

use vstd::prelude::*;
use md5::Md5;
use sha1::{Digest, Sha1};

verus! {

/// Lowercase hex digit of a nibble.
pub open spec fn hex_digit(n: u8) -> u8
    recommends
        n < 16,
{
    if n < 10 {
        (48 + n) as u8
    } else {
        (87 + n) as u8
    }
}

/// Lowercase hex rendering: two digits per byte, in order.
pub open spec fn hex_of(s: Seq<u8>) -> Seq<u8>
    decreases s.len(),
{
    if s.len() == 0 {
        Seq::<u8>::empty()
    } else {
        hex_of(s.drop_last()) + seq![
            hex_digit(s.last() / 16),
            hex_digit(s.last() % 16),
        ]
    }
}

pub proof fn lemma_hex_len(s: Seq<u8>)
    ensures
        hex_of(s).len() == 2 * s.len(),
    decreases s.len(),
{
    if s.len() > 0 {
        lemma_hex_len(s.drop_last());
    }
}

/// Lowercase hex of a byte string.
pub fn to_hex_lower(s: &[u8]) -> (r: Vec<u8>)
    ensures
        r@ == hex_of(s@),
        r@.len() == 2 * s@.len(),
{
    let mut r: Vec<u8> = Vec::new();
    let mut i: usize = 0;
    while i < s.len()
        invariant
            0 <= i <= s@.len(),
            r@ == hex_of(s@.take(i as int)),
            r@.len() == 2 * i,
        decreases s@.len() - i,
    {
        let b = s[i];
        let hi = b / 16;
        let lo = b % 16;
        r.push(if hi < 10 {
            48 + hi
        } else {
            87 + hi
        });
        r.push(if lo < 10 {
            48 + lo
        } else {
            87 + lo
        });
        proof {
            let t = s@.take(i + 1 as int);
            assert(t.drop_last() =~= s@.take(i as int));
            assert(t.last() == s@[i as int]);
            assert(r@ =~= hex_of(s@.take(i as int)) + seq![
                hex_digit(s@[i as int] / 16),
                hex_digit(s@[i as int] % 16),
            ]);
        }
        i = i + 1;
    }
    proof {
        assert(s@.take(i as int) =~= s@);
    }
    r
}

/// Eight lowercase hex digits of a 32-bit word, most significant first.
pub open spec fn hex_u32(w: u32) -> Seq<u8> {
    seq![
        hex_digit(((w >> 28) & 0xf) as u8),
        hex_digit(((w >> 24) & 0xf) as u8),
        hex_digit(((w >> 20) & 0xf) as u8),
        hex_digit(((w >> 16) & 0xf) as u8),
        hex_digit(((w >> 12) & 0xf) as u8),
        hex_digit(((w >> 8) & 0xf) as u8),
        hex_digit(((w >> 4) & 0xf) as u8),
        hex_digit((w & 0xf) as u8),
    ]
}

fn hex_nibble(n: u8) -> (r: u8)
    requires
        n < 16,
    ensures
        r == hex_digit(n),
{
    if n < 10 {
        48 + n
    } else {
        87 + n
    }
}

/// The 32-bit checksum as eight lowercase hex digits.
pub fn crc_hex(w: u32) -> (r: Vec<u8>)
    ensures
        r@ == hex_u32(w),
{
    let mut r: Vec<u8> = Vec::new();
    proof {
        assert((w >> 28) & 0xf < 16 && (w >> 24) & 0xf < 16 && (w >> 20) & 0xf < 16 && (w >> 16)
            & 0xf < 16 && (w >> 12) & 0xf < 16 && (w >> 8) & 0xf < 16 && (w >> 4) & 0xf < 16 && w
            & 0xf < 16) by (bit_vector);
    }
    r.push(hex_nibble(((w >> 28) & 0xf) as u8));
    r.push(hex_nibble(((w >> 24) & 0xf) as u8));
    r.push(hex_nibble(((w >> 20) & 0xf) as u8));
    r.push(hex_nibble(((w >> 16) & 0xf) as u8));
    r.push(hex_nibble(((w >> 12) & 0xf) as u8));
    r.push(hex_nibble(((w >> 8) & 0xf) as u8));
    r.push(hex_nibble(((w >> 4) & 0xf) as u8));
    r.push(hex_nibble((w & 0xf) as u8));
    proof {
        assert(r@ =~= hex_u32(w));
    }
    r
}

/// SHA-1 of a byte string; a function of the bytes alone.
pub uninterp spec fn sha1_of(data: Seq<u8>) -> Seq<u8>;

/// MD5 of a byte string; a function of the bytes alone.
pub uninterp spec fn md5_of(data: Seq<u8>) -> Seq<u8>;

/// CRC-32 (IEEE) of a byte string; a function of the bytes alone.
pub uninterp spec fn crc32_of(data: Seq<u8>) -> u32;

/// Relies on sha1::Sha1::digest: the SHA-1 digest of the input, 20 bytes,
/// determined by the input bytes alone.
#[verifier::external_body]
fn sha1_bytes(data: &[u8]) -> (r: Vec<u8>)
    ensures
        r@ == sha1_of(data@),
        r@.len() == 20,
{
    Sha1::digest(data).to_vec()
}

/// Relies on md5::Md5::digest: the MD5 digest of the input, 16 bytes,
/// determined by the input bytes alone.
#[verifier::external_body]
fn md5_bytes(data: &[u8]) -> (r: Vec<u8>)
    ensures
        r@ == md5_of(data@),
        r@.len() == 16,
{
    Md5::digest(data).to_vec()
}

/// Relies on crc32fast::hash: the CRC-32 (IEEE) checksum of the input,
/// determined by the input bytes alone.
#[verifier::external_body]
fn crc32_value(data: &[u8]) -> (r: u32)
    ensures
        r == crc32_of(data@),
{
    crc32fast::hash(data)
}

/// The three digests of one file's bytes, as lowercase hex strings
/// (sha1, md5, crc), 40, 32 and 8 digits long.
pub fn calculate_hashes(data: &[u8]) -> (r: (Vec<u8>, Vec<u8>, Vec<u8>))
    ensures
        r.0@ == hex_of(sha1_of(data@)),
        r.1@ == hex_of(md5_of(data@)),
        r.2@ == hex_u32(crc32_of(data@)),
        r.0@.len() == 40,
        r.1@.len() == 32,
        r.2@.len() == 8,
{
    let s = sha1_bytes(data);
    let m = md5_bytes(data);
    let c = crc32_value(data);
    (to_hex_lower(s.as_slice()), to_hex_lower(m.as_slice()), crc_hex(c))
}

} // verus!
