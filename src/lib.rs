//! CRYSTALS-Dilithium (level 5) signatures: polynomial arithmetic over
//! `Z_q[X]/(X^256 + 1)`, rejection-sampled expansion of seeds, bit-exact
//! encodings of keys and signatures, and the Fiat-Shamir signing loop.
pub mod params;
pub mod coefficient;
pub mod ntt;
pub mod polynomial;
pub mod vector;
pub mod packing;
pub mod xof;
pub mod counter;
pub mod aes_ctr;
pub mod shake_counter;
pub mod expand;
pub mod hint;
pub mod challenge;
pub mod dilithium;
