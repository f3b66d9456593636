//! The strong digest that confirms a weak-checksum match.  The digest
//! itself comes from an outside implementation and is only named here: all
//! the surrounding logic ever relies on is that equal byte windows have
//! equal digests.

use vstd::prelude::*;

verus! {

/// The strong digest of a byte sequence.  The value is fixed by the bytes
/// alone; nothing else is ever assumed of it.
pub uninterp spec fn md5_of(data: Seq<u8>) -> Seq<u8>;

/// Relies on md5::compute (RFC 1321): the digest is a function of the input
/// bytes alone, and is always exactly 16 bytes long.
#[verifier::external_body]
pub(crate) fn md5_digest(data: &Vec<u8>) -> (r: Vec<u8>)
    ensures
        r@ == md5_of(data@),
        r@.len() == 16,
{
    md5::compute(data.as_slice()).0.to_vec()
}

/// Byte-for-byte equality of two buffers.
pub(crate) fn bytes_eq(a: &Vec<u8>, b: &Vec<u8>) -> (r: bool)
    ensures
        r == (a@ == b@),
{
    if a.len() != b.len() {
        return false;
    }
    let mut i: usize = 0;
    while i < a.len()
        invariant
            i <= a.len(),
            a@.len() == b@.len(),
            forall|j: int| 0 <= j < i ==> a@[j] == b@[j],
        decreases a.len() - i,
    {
        if a[i] != b[i] {
            return false;
        }
        i = i + 1;
    }
    proof {
        assert(a@ =~= b@);
    }
    true
}

} // verus!
