//! Keyed pseudorandom byte streams, re-seeded by a 16-bit nonce.
use vstd::prelude::*;

use aes::cipher::{BlockEncrypt, KeyInit};

verus! {

pub const KEY_SIZE: usize = 32;
pub const BLOCK_SIZE: usize = 16;
/// Bytes that a stream yields for one nonce: 65535 blocks of 16 bytes, the
/// blocks whose 16-bit counter does not wrap.
pub const STREAM_LIMIT: usize = 1048560;

/// A keyed stream of bytes. `reset(nonce)` restarts it at position zero of the
/// stream for `(key, nonce)`; `squeeze` reads the next bytes. Equal keys,
/// nonces and positions give equal bytes.
pub trait Counter: Sized {
    /// The byte at `pos` of the stream for `key` and `nonce`.
    spec fn stream(key: Seq<u8>, nonce: u16, pos: int) -> u8;

    spec fn key(&self) -> Seq<u8>;

    spec fn nonce(&self) -> u16;

    spec fn position(&self) -> int;

    spec fn inv(&self) -> bool;

    fn new(key: &[u8; KEY_SIZE]) -> (r: Self)
        ensures
            r.inv(),
            r.key() == key@,
            r.nonce() == 0,
            r.position() == 0,
    ;

    fn reset(&mut self, nonce: u16)
        requires
            old(self).inv(),
        ensures
            final(self).inv(),
            final(self).key() == old(self).key(),
            final(self).nonce() == nonce,
            final(self).position() == 0,
    ;

    fn squeeze<const N: usize>(&mut self) -> (r: [u8; N])
        requires
            old(self).inv(),
            old(self).position() + N <= STREAM_LIMIT,
        ensures
            final(self).inv(),
            final(self).key() == old(self).key(),
            final(self).nonce() == old(self).nonce(),
            final(self).position() == old(self).position() + N,
            forall|i: int|
                0 <= i < N ==> #[trigger] r[i] == Self::stream(
                    old(self).key(),
                    old(self).nonce(),
                    old(self).position() + i,
                ),
    ;
}

/// AES-256 of `block` under `key`.
pub uninterp spec fn aes256_encrypt(key: Seq<u8>, block: Seq<u8>) -> Seq<u8>;

/// Relies on aes's `Aes256Enc`: `encrypt_block_b2b` of one 16-byte block under
/// a 32-byte key, a function of the key and the block alone.
#[verifier::external_body]
fn encrypt_block(key: &[u8; KEY_SIZE], block: &[u8; BLOCK_SIZE]) -> (r: [u8; BLOCK_SIZE])
    ensures
        r@ == aes256_encrypt(key@, block@),
{
    let cipher = aes::Aes256Enc::new(key.into());
    let mut out = [0u8; BLOCK_SIZE];
    cipher.encrypt_block_b2b(block.into(), (&mut out).into());
    out
}

/// The counter block for `nonce` and block number `counter`: the nonce in
/// little-endian order, twelve zero bytes, the counter in big-endian order.
pub open spec fn counter_block(nonce: u16, counter: u16) -> Seq<u8> {
    seq![
        nonce as u8,
        (nonce >> 8u16) as u8,
        0u8,
        0u8,
        0u8,
        0u8,
        0u8,
        0u8,
        0u8,
        0u8,
        0u8,
        0u8,
        0u8,
        0u8,
        (counter >> 8u16) as u8,
        counter as u8,
    ]
}

/// AES-256 in counter mode: byte `pos` is byte `pos % 16` of the encryption
/// of the counter block for `nonce` and `pos / 16`.
pub open spec fn aes_ctr_byte(key: Seq<u8>, nonce: u16, pos: int) -> u8 {
    aes256_encrypt(key, counter_block(nonce, (pos / 16) as u16))[pos % 16]
}

proof fn lemma_counter_block_start(nonce: u16)
    ensures
        counter_block(nonce, 0).len() == 16,
        counter_block(nonce, 0)[0] == nonce as u8,
        counter_block(nonce, 0)[1] == (nonce >> 8u16) as u8,
        forall|i: int| 2 <= i < 16 ==> #[trigger] counter_block(nonce, 0)[i] == 0,
{
    assert((0u16 >> 8u16) as u8 == 0u8 && (0u16 as u8) == 0u8) by (bit_vector);
    assert(0u16 as u8 == 0u8);
}

/// AES-256 in counter mode over a 32-byte key: block `b` of the stream for
/// `nonce` is the encryption of `counter_block(nonce, b)`.
pub struct SoftwareAesCounter {
    key: [u8; KEY_SIZE],
    iv: [u8; BLOCK_SIZE],
    counter: u16,
    buf: [u8; BLOCK_SIZE],
    i: usize,
    nonce: Ghost<u16>,
}

impl Counter for SoftwareAesCounter {
    open spec fn stream(key: Seq<u8>, nonce: u16, pos: int) -> u8 {
        aes_ctr_byte(key, nonce, pos)
    }

    closed spec fn key(&self) -> Seq<u8> {
        self.key@
    }

    closed spec fn nonce(&self) -> u16 {
        self.nonce@
    }

    closed spec fn position(&self) -> int {
        if self.i == BLOCK_SIZE {
            16 * self.counter
        } else {
            16 * (self.counter - 1) + self.i
        }
    }

    closed spec fn inv(&self) -> bool {
        &&& self.i <= BLOCK_SIZE
        &&& self.iv@ == counter_block(self.nonce@, self.counter)
        &&& self.i < BLOCK_SIZE ==> {
            &&& self.counter >= 1
            &&& self.buf@ == aes256_encrypt(
                self.key@,
                counter_block(self.nonce@, (self.counter - 1) as u16),
            )
        }
    }

    fn new(key: &[u8; KEY_SIZE]) -> (r: Self) {
        let r = SoftwareAesCounter {
            key: *key,
            iv: [0u8, 0u8, 0u8, 0u8, 0u8, 0u8, 0u8, 0u8, 0u8, 0u8, 0u8, 0u8, 0u8, 0u8, 0u8, 0u8],
            counter: 0,
            buf: [0; BLOCK_SIZE],
            i: BLOCK_SIZE,
            nonce: Ghost(0),
        };
        proof {
            lemma_counter_block_start(0);
        }
        assert(r.iv@ =~= counter_block(0, 0));
        r
    }

    fn reset(&mut self, nonce: u16) {
        let lo = #[verifier::truncate] (nonce as u8);
        let hi = #[verifier::truncate] ((nonce >> 8u16) as u8);
        self.iv = [lo, hi, 0u8, 0u8, 0u8, 0u8, 0u8, 0u8, 0u8, 0u8, 0u8, 0u8, 0u8, 0u8, 0u8, 0u8];
        self.counter = 0;
        self.i = BLOCK_SIZE;
        self.nonce = Ghost(nonce);
        proof {
            lemma_counter_block_start(nonce);
        }
        assert(self.iv@ =~= counter_block(nonce, 0));
    }

    fn squeeze<const N: usize>(&mut self) -> (r: [u8; N]) {
        let ghost start = self.position();
        let mut retval = [0u8; N];
        let mut k: usize = 0;
        while k < N
            invariant
                self.inv(),
                self.key() == old(self).key(),
                self.nonce() == old(self).nonce(),
                start == old(self).position(),
                start + N <= STREAM_LIMIT,
                k <= N,
                self.position() == start + k,
                forall|m: int|
                    0 <= m < k ==> #[trigger] retval[m] == aes_ctr_byte(
                        self.key(),
                        self.nonce(),
                        start + m,
                    ),
            decreases N - k,
        {
            if self.i == BLOCK_SIZE {
                self.buf = encrypt_block(&self.key, &self.iv);
                self.counter = self.counter + 1;
                self.iv[14] = #[verifier::truncate] ((self.counter >> 8u16) as u8);
                self.iv[15] = #[verifier::truncate] (self.counter as u8);
                self.i = 0;
                assert(self.iv@ =~= counter_block(self.nonce@, self.counter));
            }
            retval[k] = self.buf[self.i];
            proof {
                let pos = start + k;
                assert(pos == 16 * (self.counter - 1) + self.i);
                assert(pos / 16 == self.counter - 1 && pos % 16 == self.i) by {
                    vstd::arithmetic::div_mod::lemma_fundamental_div_mod_converse(
                        pos,
                        16,
                        self.counter - 1,
                        self.i as int,
                    );
                }
            }
            self.i += 1;
            k += 1;
        }
        retval
    }
}

} // verus!
