//! The level-5 parameter set and the sizes of the encodings that follow from it.
use vstd::prelude::*;

verus! {

/// Rows of the public matrix.
pub const K: usize = 8;
/// Columns of the public matrix.
pub const L: usize = 7;
/// Number of coefficients of a polynomial.
pub const NB_COEFFICIENTS: usize = 256;
/// Bytes of a full seed.
pub const SEED_SIZE: usize = 64;
/// Bytes of a half seed, the size of `rho`, `key`, `tr` and the challenge seed.
pub const HALF_SEED_SIZE: usize = 32;

/// The prime modulus.
pub const Q: i32 = 8380417;
/// The inverse of `Q` modulo `2^32`, as a signed 32-bit integer.
pub const Q_MOD_2POW32_INVERSE: i32 = 58728449;
/// Bound of the secret coefficients.
pub const ETA: i32 = 2;
/// Bound of the masking coefficients.
pub const GAMMA1: i32 = 524288;
/// Low-order rounding range, `(Q - 1) / 32`.
pub const GAMMA2: i32 = 261888;
/// `2 * GAMMA2`, the modulus of `decompose`.
pub const ALPHA: i32 = 523776;
/// Bits dropped from `t` by `power2round`.
pub const D: i32 = 13;
/// Number of nonzero coefficients of a challenge.
pub const TAU: usize = 60;
/// Slack subtracted from the norm bounds when signing.
pub const BETA: i32 = 120;
/// Largest number of ones in a hint.
pub const OMEGA: usize = 75;

pub const ETA_PACKED_SIZE: usize = 96;
pub const T0_PACKED_SIZE: usize = 416;
pub const T1_PACKED_SIZE: usize = 320;
pub const POLYZ_PACKED_SIZE: usize = 640;
pub const POLYW1_PACKED_SIZE: usize = 128;
pub const POLYVECH_PACKED_SIZE: usize = 83;

/// `32 + K * T1_PACKED_SIZE`.
pub const PUBLIC_KEY_SIZE: usize = 2592;
/// `3 * 32 + L * ETA_PACKED_SIZE + K * ETA_PACKED_SIZE + K * T0_PACKED_SIZE`.
pub const SECRET_KEY_SIZE: usize = 4864;
/// `32 + L * POLYZ_PACKED_SIZE + OMEGA + K`.
pub const SIGNATURE_SIZE: usize = 4595;

} // verus!
