//! Double-SHA256, the canonical hash of the Bitcoin family, and the
//! display-endian presentation of 32-byte identifiers.

use vstd::prelude::*;

verus! {

/// The double-SHA256 digest of a byte sequence, as computed by the
/// outside hash implementation. The result is a function of the input
/// bytes alone; nothing further is assumed of it.
pub uninterp spec fn sha256d_of(data: Seq<u8>) -> Seq<u8>;

/// Relies on bitcoin_hashes::sha256d::Hash::hash (SHA-256 applied
/// twice) and Hash::to_byte_array: the digest is 32 bytes and depends
/// on the input bytes alone.
#[verifier::external_body]
pub fn sha256d(data: &[u8]) -> (r: [u8; 32])
    ensures
        r@ == sha256d_of(data@),
{
    bitcoin_hashes::sha256d::Hash::hash(data).to_byte_array()
}

/// The reversal of a byte sequence: identifiers are hashed in internal
/// order and presented in display order.
pub open spec fn reversed(s: Seq<u8>) -> Seq<u8> {
    Seq::new(s.len(), |i: int| s[s.len() - 1 - i])
}

/// Reverse a 32-byte identifier into display order.
pub fn reverse_id(id: &[u8; 32]) -> (r: [u8; 32])
    ensures
        r@ == reversed(id@),
{
    let mut r: [u8; 32] = [0; 32];
    let mut i: usize = 0;
    while i < 32
        invariant
            i <= 32,
            r@.len() == 32,
            id@.len() == 32,
            forall|j: int| 0 <= j < i ==> r@[j] == id@[31 - j],
        decreases 32 - i,
    {
        r[i] = id[31 - i];
        i = i + 1;
    }
    assert(r@ =~= reversed(id@));
    r
}

} // verus!
