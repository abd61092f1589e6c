//! AES-256 in counter mode with the nonce fixed when the stream is made.
use vstd::prelude::*;

use crate::counter::{aes_ctr_byte, Counter, SoftwareAesCounter, KEY_SIZE, STREAM_LIMIT};

verus! {

/// AES-256 in counter mode for a nonce fixed at construction.
pub struct AesCtr {
    ctr: SoftwareAesCounter,
}

impl AesCtr {
    pub closed spec fn wf(&self) -> bool {
        self.ctr.inv()
    }

    pub closed spec fn key(&self) -> Seq<u8> {
        self.ctr.key()
    }

    pub closed spec fn nonce(&self) -> u16 {
        self.ctr.nonce()
    }

    pub closed spec fn position(&self) -> int {
        self.ctr.position()
    }

    pub fn new(key: &[u8; KEY_SIZE], nonce: u16) -> (r: Self)
        ensures
            r.wf(),
            r.key() == key@,
            r.nonce() == nonce,
            r.position() == 0,
    {
        let mut ctr = SoftwareAesCounter::new(key);
        ctr.reset(nonce);
        AesCtr { ctr }
    }

    /// The next `N` bytes of the stream.
    pub fn squeeze<const N: usize>(&mut self) -> (r: [u8; N])
        requires
            old(self).wf(),
            old(self).position() + N <= STREAM_LIMIT,
        ensures
            final(self).wf(),
            final(self).key() == old(self).key(),
            final(self).nonce() == old(self).nonce(),
            final(self).position() == old(self).position() + N,
            forall|i: int|
                0 <= i < N ==> #[trigger] r[i] == aes_ctr_byte(
                    old(self).key(),
                    old(self).nonce(),
                    old(self).position() + i,
                ),
    {
        self.ctr.squeeze()
    }
}

} // verus!
