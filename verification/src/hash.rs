//! The hash a manifest records for each path: lowercase hex SHA-256.

use vstd::prelude::*;
use vstd::string::StrSliceExecFns;

verus! {

/// The SHA-256 digest of `bytes`.
pub uninterp spec fn sha256_digest(bytes: Seq<u8>) -> Seq<u8>;

/// `sha2::Sha256::digest`: the 32-byte SHA-256 digest of `bytes`. The
/// contract names the result as a function of the bytes alone and states its
/// documented length; the digest's value is not stated.
#[verifier::external_body]
fn digest(bytes: &[u8]) -> (out: Vec<u8>)
    ensures
        out@ == sha256_digest(bytes@),
        out@.len() == 32,
{
    <sha2::Sha256 as sha2::Digest>::digest(bytes).to_vec()
}

/// The lowercase hex digit of a nibble.
pub open spec fn hex_digit(n: u8) -> char {
    seq!['0', '1', '2', '3', '4', '5', '6', '7', '8', '9', 'a', 'b', 'c', 'd', 'e', 'f'][n as int]
}

/// Lowercase hex of `bytes`, two digits per byte, high nibble first.
pub open spec fn hex_lower(bytes: Seq<u8>) -> Seq<char>
    decreases bytes.len(),
{
    if bytes.len() == 0 {
        Seq::empty()
    } else {
        hex_lower(bytes.drop_last()) + seq![
            hex_digit(bytes.last() / 16),
            hex_digit(bytes.last() % 16),
        ]
    }
}

/// The text a manifest records for `bytes`: lowercase hex SHA-256.
pub open spec fn spec_sha256_hex(bytes: Seq<u8>) -> Seq<char> {
    hex_lower(sha256_digest(bytes))
}

/// Lowercase hex SHA-256 of `bytes`.
pub fn sha256_hex(bytes: &[u8]) -> (hex: String)
    ensures
        hex@ == spec_sha256_hex(bytes@),
{
    let raw = digest(bytes);
    to_hex_lower(&raw)
}

/// Lowercase hex of `bytes`.
pub fn to_hex_lower(bytes: &[u8]) -> (hex: String)
    ensures
        hex@ == hex_lower(bytes@),
{
    let digits = "0123456789abcdef";
    proof {
        reveal_strlit("0123456789abcdef");
    }
    assert(digits.is_ascii());
    let mut hex = String::new();
    let mut i: usize = 0;
    while i < bytes.len()
        invariant
            i <= bytes.len(),
            hex@ == hex_lower(bytes@.subrange(0, i as int)),
            digits@ == "0123456789abcdef"@,
            digits.is_ascii(),
            digits@.len() == 16,
        decreases bytes.len() - i,
    {
        let byte = bytes[i];
        let high = (byte / 16) as usize;
        let low = (byte % 16) as usize;
        hex.append(digits.substring_ascii(high, high + 1));
        hex.append(digits.substring_ascii(low, low + 1));
        proof {
            reveal_strlit("0123456789abcdef");
            assert(digits@ =~= seq![
                '0', '1', '2', '3', '4', '5', '6', '7', '8', '9', 'a', 'b', 'c', 'd', 'e', 'f',
            ]);
            let done = bytes@.subrange(0, i + 1);
            assert(done.drop_last() =~= bytes@.subrange(0, i as int));
            assert(done.last() == byte);
            assert(digits@[high as int] == hex_digit(byte / 16));
            assert(digits@[low as int] == hex_digit(byte % 16));
        }
        i = i + 1;
        assert(hex@ =~= hex_lower(bytes@.subrange(0, i as int)));
    }
    assert(bytes@.subrange(0, bytes.len() as int) =~= bytes@);
    hex
}

} // verus!
