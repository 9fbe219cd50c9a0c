use sha2::Digest;
use vstd::prelude::*;

verus! {

/// The SHA-256 digest of the bytes `b`, as sha2 computes it.
pub uninterp spec fn sha256_of(b: Seq<u8>) -> Seq<u8>;

/// Relies on sha2's `Sha256::digest`: the SHA-256 digest of `b`, which is
/// 32 bytes long.
#[verifier::external_body]
pub(crate) fn sha256(b: &[u8]) -> (r: Vec<u8>)
    ensures
        r@ == sha256_of(b@),
        r@.len() == 32,
{
    sha2::Sha256::digest(b).to_vec()
}

/// A hexadecimal digit in lower case.
pub open spec fn lower_hex_char(d: nat) -> char {
    if d < 10 {
        ((48 + d) as u8) as char
    } else {
        ((87 + d) as u8) as char
    }
}

/// Two lower-case hexadecimal digits for each byte, the high half first.
pub open spec fn lower_hex_text(b: Seq<u8>) -> Seq<char> {
    Seq::new(
        2 * b.len(),
        |i: int|
            if i % 2 == 0 {
                lower_hex_char((b[i / 2] / 16) as nat)
            } else {
                lower_hex_char((b[i / 2] % 16) as nat)
            },
    )
}

/// Relies on `hex::encode`: two lower-case hexadecimal digits for each byte,
/// the high half first.
#[verifier::external_body]
pub(crate) fn hex_encode(b: &[u8]) -> (r: String)
    ensures
        r@ == lower_hex_text(b@),
{
    hex::encode(b)
}

} // verus!
