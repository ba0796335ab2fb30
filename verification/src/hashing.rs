//! Content hashing: a cryptographic digest of block and file bodies,
//! rendered as lowercase hex, which names blocks on disk.

use vstd::prelude::*;
use blake2::Digest;
use crate::codec::json_safe;

verus! {

/// The raw 64-byte digest of a byte string: a function of the bytes
/// alone, opaque to the logic.
pub uninterp spec fn digest_of(s: Seq<u8>) -> Seq<u8>;

/// Relies on blake2's Blake2b512 through digest's `Digest::digest`: a
/// 512-bit digest that depends on the input bytes alone, 64 bytes long.
#[verifier::external_body]
pub(crate) fn blake2b512(b: &Vec<u8>) -> (r: Vec<u8>)
    ensures
        r@ == digest_of(b@),
        r@.len() == 64,
{
    blake2::Blake2b512::digest(b.as_slice()).to_vec()
}

/// Lowercase hex digit for a value below sixteen.
pub open spec fn hex_digit(n: u8) -> u8 {
    if n < 10 {
        (48 + n) as u8
    } else {
        (87 + n) as u8
    }
}

/// Lowercase hex rendering, two digits per byte, high digit first.
pub open spec fn hex_bytes(s: Seq<u8>) -> Seq<u8> {
    Seq::new(
        2 * s.len(),
        |i: int|
            if i % 2 == 0 {
                hex_digit(s[i / 2] / 16)
            } else {
                hex_digit(s[i / 2] % 16)
            },
    )
}

/// The hex name of a byte string's digest: the content hash used all
/// through the archive.
pub open spec fn hash_of(s: Seq<u8>) -> Seq<u8> {
    hex_bytes(digest_of(s))
}

/// Hex renderings are printable and free of JSON metacharacters.
pub proof fn lemma_hex_safe(s: Seq<u8>)
    ensures
        hex_bytes(s).len() == 2 * s.len(),
        json_safe(hex_bytes(s)),
{
    assert forall|i: int|
        0 <= i < hex_bytes(s).len() implies 32 <= #[trigger] hex_bytes(s)[i] && hex_bytes(s)[i]
        != 34 && hex_bytes(s)[i] != 92 by {
        let b = s[i / 2];
        assert(b / 16 < 16);
        assert(b % 16 < 16);
    }
}

/// Render bytes as lowercase hex.
pub fn hex_encode(v: &Vec<u8>) -> (r: Vec<u8>)
    ensures
        r@ == hex_bytes(v@),
{
    let mut r: Vec<u8> = Vec::new();
    let mut i: usize = 0;
    while i < v.len()
        invariant
            i <= v.len(),
            r@ =~= hex_bytes(v@).take(2 * i as int),
        decreases v.len() - i,
    {
        let b = v[i];
        let hi = b / 16;
        let lo = b % 16;
        let hd: u8 = if hi < 10 {
            48 + hi
        } else {
            87 + hi
        };
        let ld: u8 = if lo < 10 {
            48 + lo
        } else {
            87 + lo
        };
        r.push(hd);
        r.push(ld);
        proof {
            assert(hex_bytes(v@)[2 * i as int] == hd);
            assert(hex_bytes(v@)[2 * i + 1 as int] == ld);
            assert(r@ =~= hex_bytes(v@).take(2 * (i + 1) as int));
        }
        i = i + 1;
    }
    proof {
        assert(hex_bytes(v@).take(2 * v@.len() as int) =~= hex_bytes(v@));
    }
    r
}

/// The content hash of a byte string, as the hex name used on disk.
pub fn block_hash(b: &Vec<u8>) -> (r: Vec<u8>)
    ensures
        r@ == hash_of(b@),
        r@.len() == 128,
        json_safe(r@),
{
    let d = blake2b512(b);
    let r = hex_encode(&d);
    proof {
        lemma_hex_safe(d@);
    }
    r
}

} // verus!
