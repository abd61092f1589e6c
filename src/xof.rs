//! The extendable-output hash used for seed expansion, `mu`, `tr` and the
//! challenge seed.
use vstd::prelude::*;

use sha3::digest::{ExtendableOutput, Update, XofReader};

verus! {

/// Byte `i` of the SHAKE-256 output stream for `input`.
pub uninterp spec fn shake256_byte(input: Seq<u8>, i: int) -> u8;

/// The first `len` bytes of the SHAKE-256 output stream for `input`.
pub open spec fn shake256_spec(input: Seq<u8>, len: nat) -> Seq<u8> {
    Seq::new(len, |i: int| shake256_byte(input, i))
}

/// Relies on sha3's `Shake256` (absorb `input`, finalize, read `len` bytes):
/// the output is the first `len` bytes of a stream that depends on `input`
/// alone, so a longer read extends a shorter one.
#[verifier::external_body]
pub(crate) fn shake256(input: &[u8], len: usize) -> (r: Vec<u8>)
    ensures
        r@.len() == len,
        forall|i: int| 0 <= i < len ==> #[trigger] r@[i] == shake256_byte(input@, i),
{
    let mut hasher = sha3::Shake256::default();
    hasher.update(input);
    let mut out = vec![0u8; len];
    hasher.finalize_xof().read(&mut out);
    out
}

} // verus!
