//! SHA-256 digests and their lower-case hexadecimal rendering.

use vstd::prelude::*;
use sha2::Digest;

verus! {

/// The SHA-256 digest of a byte string, as computed by the `sha2` crate.
pub uninterp spec fn sha256(data: Seq<u8>) -> Seq<u8>;

/// Calls `<sha2::Sha256 as Digest>::digest` and copies the 32-byte output.
/// The contract names the digest of the argument and states its length,
/// which the `sha2` documentation fixes at 32 bytes; nothing else about the
/// digest is stated.
#[verifier::external_body]
pub(crate) fn sha256_digest(data: &[u8]) -> (res: Vec<u8>)
    ensures
        res@ == sha256(data@),
        res@.len() == 32,
{
    sha2::Sha256::digest(data).to_vec()
}

/// The lower-case hexadecimal digit for a value below sixteen, as an ASCII byte.
pub open spec fn hex_digit(v: int) -> u8 {
    if v < 10 {
        (48 + v) as u8
    } else {
        (87 + v) as u8
    }
}

/// Lower-case hexadecimal rendering, two ASCII digits per byte, high nibble first.
pub open spec fn hex_lower(data: Seq<u8>) -> Seq<u8>
    decreases data.len(),
{
    if data.len() == 0 {
        seq![]
    } else {
        hex_lower(data.drop_last()) + seq![hex_digit(data.last() as int / 16), hex_digit(data.last() as int % 16)]
    }
}

fn hex_digit_exec(v: u8) -> (d: u8)
    requires
        v < 16,
    ensures
        d == hex_digit(v as int),
{
    if v < 10 {
        48 + v
    } else {
        87 + v
    }
}

/// Renders bytes as lower-case hexadecimal ASCII, as `{:x}` does for a digest.
pub fn to_hex_lower(data: &[u8]) -> (res: Vec<u8>)
    ensures
        res@ == hex_lower(data@),
{
    let mut res: Vec<u8> = Vec::new();
    let mut i: usize = 0;
    while i < data.len()
        invariant
            i <= data@.len(),
            res@ == hex_lower(data@.take(i as int)),
        decreases data@.len() - i,
    {
        let b = data[i];
        res.push(hex_digit_exec(b / 16));
        res.push(hex_digit_exec(b % 16));
        assert(data@.take(i + 1).drop_last() =~= data@.take(i as int));
        i = i + 1;
    }
    assert(data@.take(data@.len() as int) =~= data@);
    res
}

/// The hex digest of a byte string.
pub open spec fn sha256_hex(data: Seq<u8>) -> Seq<u8> {
    hex_lower(sha256(data))
}

/// Hashes `data` with SHA-256 and renders the digest in lower-case hex.
pub fn sha256_hex_exec(data: &[u8]) -> (res: Vec<u8>)
    ensures
        res@ == sha256_hex(data@),
        res@.len() == 64,
{
    let digest = sha256_digest(data);
    let res = to_hex_lower(digest.as_slice());
    proof {
        lemma_hex_lower_len(digest@);
    }
    res
}

/// The rendering has two digits per byte.
pub proof fn lemma_hex_lower_len(data: Seq<u8>)
    ensures
        hex_lower(data).len() == 2 * data.len(),
    decreases data.len(),
{
    if data.len() > 0 {
        lemma_hex_lower_len(data.drop_last());
    }
}

} // verus!
