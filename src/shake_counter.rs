//! A counter stream read from SHAKE-256 of the key followed by the nonce in
//! little-endian order.
use vstd::prelude::*;

use crate::counter::{Counter, KEY_SIZE, STREAM_LIMIT};
use crate::xof::{shake256, shake256_byte};

verus! {

/// The XOF input for `key` and `nonce`: the key, then the nonce in
/// little-endian order.
pub open spec fn shake_counter_input(key: Seq<u8>, nonce: u16) -> Seq<u8> {
    key + seq![nonce as u8, (nonce >> 8u16) as u8]
}

/// Keeps the stream read so far and extends it by reading a longer prefix of
/// the XOF output when a squeeze needs more.
pub struct ShakeCounter {
    key: [u8; KEY_SIZE],
    nonce: u16,
    buf: Vec<u8>,
    pos: usize,
}

impl Counter for ShakeCounter {
    open spec fn stream(key: Seq<u8>, nonce: u16, pos: int) -> u8 {
        shake256_byte(shake_counter_input(key, nonce), pos)
    }

    closed spec fn key(&self) -> Seq<u8> {
        self.key@
    }

    closed spec fn nonce(&self) -> u16 {
        self.nonce
    }

    closed spec fn position(&self) -> int {
        self.pos as int
    }

    closed spec fn inv(&self) -> bool {
        &&& self.pos <= STREAM_LIMIT
        &&& forall|i: int|
            0 <= i < self.buf@.len() ==> #[trigger] self.buf@[i] == shake256_byte(
                shake_counter_input(self.key@, self.nonce),
                i,
            )
    }

    fn new(key: &[u8; KEY_SIZE]) -> (r: Self) {
        ShakeCounter { key: *key, nonce: 0, buf: Vec::new(), pos: 0 }
    }

    fn reset(&mut self, nonce: u16) {
        self.nonce = nonce;
        self.buf = Vec::new();
        self.pos = 0;
    }

    fn squeeze<const N: usize>(&mut self) -> (r: [u8; N]) {
        if self.pos + N > self.buf.len() {
            let mut want = 2 * self.pos + N;
            if want < 136 {
                want = 136;
            }
            if want > STREAM_LIMIT {
                want = STREAM_LIMIT;
            }
            let mut input: Vec<u8> = Vec::new();
            let mut i: usize = 0;
            while i < KEY_SIZE
                invariant
                    i <= KEY_SIZE,
                    input@ == self.key@.subrange(0, i as int),
                decreases KEY_SIZE - i,
            {
                input.push(self.key[i]);
                i += 1;
                assert(input@ =~= self.key@.subrange(0, i as int));
            }
            input.push(#[verifier::truncate] (self.nonce as u8));
            input.push(#[verifier::truncate] ((self.nonce >> 8u16) as u8));
            assert(input@ =~= shake_counter_input(self.key@, self.nonce));
            self.buf = shake256(input.as_slice(), want);
        }
        let mut retval = [0u8; N];
        let mut k: usize = 0;
        while k < N
            invariant
                self.inv(),
                self.key() == old(self).key(),
                self.nonce() == old(self).nonce(),
                self.pos == old(self).pos,
                self.pos + N <= self.buf@.len(),
                self.pos + N <= STREAM_LIMIT,
                k <= N,
                forall|m: int|
                    0 <= m < k ==> #[trigger] retval[m] == shake256_byte(
                        shake_counter_input(self.key@, self.nonce),
                        self.pos + m,
                    ),
            decreases N - k,
        {
            retval[k] = self.buf[self.pos + k];
            k += 1;
        }
        self.pos = self.pos + N;
        retval
    }
}

} // verus!
