use rust_dilithium::challenge::{make_challenge, sample_challenge};
use rust_dilithium::counter::{Counter, SoftwareAesCounter};
use rust_dilithium::shake_counter::ShakeCounter;
use rust_dilithium::coefficient::{decompose, power2round};
use rust_dilithium::dilithium::{
    compute_software, make_keys, make_w_and_t_vecs, sign, verify, HINT_OFFSET,
};
use rust_dilithium::expand::{expand_a, expand_s, expand_y};
use rust_dilithium::hint::{make_hint, pack_hint, unpack_hint};
use rust_dilithium::packing::{
    pack_eta, pack_t0, pack_t1, pack_z, unpack_eta, unpack_t0, unpack_t1, unpack_z,
};
use rust_dilithium::params::{
    ETA, GAMMA1, GAMMA2, K, L, OMEGA, PUBLIC_KEY_SIZE, Q, SECRET_KEY_SIZE, SIGNATURE_SIZE,
};
use rust_dilithium::polynomial::PlainPolynomial;
use rust_dilithium::vector::Vector;
use sha3::digest::{ExtendableOutput, Update, XofReader};

type Ctr = SoftwareAesCounter;

/// The 32-byte seed that SHAKE-128 squeezes after absorbing `LE64(nonce)`.
fn seed_from(nonce: u64) -> [u8; 32] {
    let mut hasher = sha3::Shake128::default();
    hasher.update(&nonce.to_le_bytes());
    let mut seed = [0u8; 32];
    hasher.finalize_xof().read(&mut seed);
    seed
}

/// The first `len` bytes of SHAKE-256 of `input`.
fn shake256(input: &[u8], len: usize) -> Vec<u8> {
    let mut hasher = sha3::Shake256::default();
    hasher.update(input);
    let mut out = vec![0u8; len];
    hasher.finalize_xof().read(&mut out);
    out
}

fn polynomial_from(f: impl Fn(usize) -> i32) -> PlainPolynomial {
    let mut c = [0i32; 256];
    for (i, x) in c.iter_mut().enumerate() {
        *x = f(i);
    }
    PlainPolynomial::from_coefficients(c)
}

#[test]
fn aes_counter_first_block_of_zero_key() {
    let mut ctr = Ctr::new(&[0u8; 32]);
    let block: [u8; 16] = ctr.squeeze();
    assert_eq!(
        block,
        [
            0xdc, 0x95, 0xc0, 0x78, 0xa2, 0x40, 0x89, 0x89, 0xad, 0x48, 0xa2, 0x14, 0x92, 0x84,
            0x20, 0x87
        ]
    );
}

#[test]
fn aes_counter_is_reproducible_per_nonce() {
    let key = seed_from(5);
    let mut a = Ctr::new(&key);
    let mut b = Ctr::new(&key);
    a.reset(3);
    b.reset(3);
    let x: [u8; 40] = a.squeeze();
    let y1: [u8; 17] = b.squeeze();
    let y2: [u8; 23] = b.squeeze();
    assert_eq!(&x[..17], &y1[..]);
    assert_eq!(&x[17..], &y2[..]);
    a.reset(4);
    let z: [u8; 40] = a.squeeze();
    assert_ne!(x, z);
    a.reset(3);
    let w: [u8; 40] = a.squeeze();
    assert_eq!(x, w);
}

#[test]
fn packing_round_trips() {
    let t1 = polynomial_from(|i| ((i * 37) % 1024) as i32);
    let t0 = polynomial_from(|i| ((i * 61) % 8192) as i32 - 4095);
    let eta = polynomial_from(|i| (i % 5) as i32 - ETA);
    let z = polynomial_from(|i| ((i * 4099) % (2 * GAMMA1 as usize)) as i32 - GAMMA1 + 1);
    let mut out = Vec::new();
    pack_t1(&t1, &mut out);
    assert_eq!(out.len(), 320);
    assert_eq!(unpack_t1(&out, 0), t1);
    let mut out = vec![0xaa];
    pack_t0(&t0, &mut out);
    assert_eq!(out.len(), 417);
    assert_eq!(unpack_t0(&out, 1), t0);
    let mut out = Vec::new();
    pack_eta(&eta, &mut out);
    assert_eq!(out.len(), 96);
    assert_eq!(unpack_eta(&out, 0), eta);
    let mut out = Vec::new();
    pack_z(&z, &mut out);
    assert_eq!(out.len(), 640);
    assert_eq!(unpack_z(&out, 0), z);
}

#[test]
fn t1_packing_layout() {
    let p = polynomial_from(|i| if i < 4 { [1, 2, 3, 1023][i] } else { 0 });
    let mut out = Vec::new();
    pack_t1(&p, &mut out);
    assert_eq!(&out[..5], &[1, 2 << 2, 3 << 4, 0xc0, 0xff]);
}

#[test]
fn hint_round_trip_and_size() {
    let mut w0 = Vector::<PlainPolynomial, K>::zero();
    let w1 = Vector::<PlainPolynomial, K>::zero();
    w0.coefficients[0].coefficients[3] = GAMMA2 + 1;
    w0.coefficients[0].coefficients[200] = -GAMMA2 - 5;
    w0.coefficients[5].coefficients[0] = GAMMA2 + 7;
    let (hint, count) = make_hint(&w0, &w1);
    assert_eq!(count, 3);
    let packed = pack_hint(&hint);
    assert_eq!(&packed[..4], &[3, 200, 0, 0]);
    assert_eq!(&packed[OMEGA..], &[2, 2, 2, 2, 2, 3, 3, 3]);
    assert_eq!(unpack_hint(&packed), Some(hint));
}

#[test]
fn hint_decoding_rejects_malformed_encodings() {
    let mut packed = [0u8; OMEGA + K];
    packed[0] = 9;
    packed[1] = 4;
    for k in 0..K {
        packed[OMEGA + k] = 2;
    }
    // positions 9, 4 in one polynomial: not ascending.
    assert_eq!(unpack_hint(&packed), None);
    packed[0] = 4;
    packed[1] = 9;
    assert!(unpack_hint(&packed).is_some());
    // counts that decrease.
    packed[OMEGA + 3] = 1;
    assert_eq!(unpack_hint(&packed), None);
    // a count beyond OMEGA.
    packed[OMEGA + 3] = 2;
    packed[OMEGA + K - 1] = OMEGA as u8 + 1;
    assert_eq!(unpack_hint(&packed), None);
}

#[test]
fn test_make_challenge() {
    let c = make_challenge(&seed_from(2)).unwrap();
    let nonzero = c.coefficients.iter().filter(|&&x| x != 0).count();
    assert_eq!(nonzero, 60);
    assert!(c.coefficients.iter().all(|&x| x == -1 || x == 0 || x == 1));
    assert_eq!(make_challenge(&seed_from(2)), Some(c));
    assert_ne!(make_challenge(&seed_from(3)), Some(c));
}

#[test]
fn test_expand_a() {
    for i in 0..3u64 {
        let key = seed_from(3 * i + 1);
        let a = expand_a(Ctr::new(&key)).unwrap();
        for row in a.coefficients.iter() {
            for p in row.coefficients.iter() {
                assert!(p.coefficients.iter().all(|&c| c >= 0 && c < Q));
            }
        }
        assert_eq!(expand_a(Ctr::new(&key)), Some(a));
        assert_ne!(a.coefficients[0].coefficients[0], a.coefficients[0].coefficients[1]);
    }
}

#[test]
fn test_expand_s() {
    for i in 0..3u64 {
        let key = seed_from(3 * i + 1);
        let s = expand_s::<Ctr, L>(Ctr::new(&key), 0).unwrap();
        for p in s.coefficients.iter() {
            assert!(p.coefficients.iter().all(|&c| (-ETA..=ETA).contains(&c)));
        }
        assert_eq!(expand_s::<Ctr, L>(Ctr::new(&key), 0), Some(s));
        let shifted = expand_s::<Ctr, K>(Ctr::new(&key), 1).unwrap();
        assert_eq!(shifted.coefficients[0], s.coefficients[1]);
    }
}

#[test]
fn test_expand_y() {
    for i in 0..3u64 {
        let key = seed_from(3 * i + 1);
        let y = expand_y(Ctr::new(&key), 0);
        for p in y.coefficients.iter() {
            assert!(p.coefficients.iter().all(|&c| c > -GAMMA1 && c <= GAMMA1));
        }
        assert_eq!(expand_y(Ctr::new(&key), 0), y);
        assert_ne!(expand_y(Ctr::new(&key), 1), y);
    }
}

#[test]
fn test_make_w_and_t_vecs() {
    let key = seed_from(1);
    let a = expand_a(Ctr::new(&key)).unwrap();
    let y = expand_y(Ctr::new(&key), 0);
    let (w0, w1, t0, t1) = make_w_and_t_vecs(&a, y);
    for k in 0..K {
        for i in 0..256 {
            let (l, h) = (w0.coefficients[k].coefficients[i], w1.coefficients[k].coefficients[i]);
            let w = t1.coefficients[k].coefficients[i] * 8192 + t0.coefficients[k].coefficients[i];
            assert!(w >= 0 && w < Q);
            assert_eq!(decompose(w), (l, h));
            assert_eq!(power2round(w), (t0.coefficients[k].coefficients[i], t1.coefficients[k].coefficients[i]));
        }
    }
}

#[test]
fn make_keys_rejects_short_seed() {
    assert!(make_keys::<Ctr>(&[0u8; 31]).is_none());
    assert!(compute_software(b"msg", &[1u8; 31]).is_none());
}

#[test]
fn keys_have_their_layout() {
    let seed = seed_from(1);
    let (pk, sk) = make_keys::<Ctr>(&seed).unwrap();
    assert_eq!(pk.len(), PUBLIC_KEY_SIZE);
    assert_eq!(sk.len(), SECRET_KEY_SIZE);
    let h = shake256(&seed, 128);
    assert_eq!(&pk[..32], &h[..32]);
    assert_eq!(&sk[..32], &h[..32]);
    assert_eq!(&sk[32..64], &h[96..128]);
    assert_eq!(&sk[64..96], &shake256(&pk, 32)[..]);
    let mut longer = seed.to_vec();
    longer.extend_from_slice(&[9, 9, 9]);
    assert_eq!(make_keys::<Ctr>(&longer), Some((pk, sk)));
}

#[test]
fn test_make_keys() {
    for i in 0..3u64 {
        let seed = seed_from(3 * i + 1);
        let (pk, sk) = make_keys::<Ctr>(&seed).unwrap();
        let msg: Vec<u8> = (0..(33 * (i as usize + 1))).map(|b| b as u8).collect();
        let sig = sign::<Ctr>(&msg, &sk).unwrap();
        assert_eq!(sig.len(), SIGNATURE_SIZE);
        assert!(verify::<Ctr>(&msg, &sig, &pk));
        let mut other = msg.clone();
        other.push(0);
        assert!(!verify::<Ctr>(&other, &sig, &pk));
    }
}

#[test]
fn signing_is_deterministic() {
    let (_, sk) = make_keys::<Ctr>(&seed_from(4)).unwrap();
    let a = sign::<Ctr>(b"same message", &sk).unwrap();
    let b = sign::<Ctr>(b"same message", &sk).unwrap();
    assert_eq!(a.to_vec(), b.to_vec());
}

#[test]
fn flipped_bits_are_rejected() {
    let (pk, sk) = make_keys::<Ctr>(&seed_from(7)).unwrap();
    let msg = b"tamper";
    let sig = sign::<Ctr>(msg, &sk).unwrap();
    for pos in [0usize, 31, 32, 100, 2000, 4511, 4512, 4590, 4594] {
        for bit in [0u8, 5] {
            let mut bad = sig;
            bad[pos] ^= 1 << bit;
            assert!(!verify::<Ctr>(msg, &bad, &pk), "byte {} bit {}", pos, bit);
        }
    }
}

#[test]
fn hint_count_of_signatures_is_bounded() {
    let (_, sk) = make_keys::<Ctr>(&seed_from(10)).unwrap();
    let sig = sign::<Ctr>(b"hint size", &sk).unwrap();
    let counts = &sig[HINT_OFFSET + OMEGA..];
    assert!(counts.windows(2).all(|w| w[0] <= w[1]));
    assert!(counts[K - 1] as usize <= OMEGA);
}

#[test]
fn verify_rejects_structural_faults() {
    let (pk, sk) = make_keys::<Ctr>(&seed_from(13)).unwrap();
    let msg = b"structure";
    let sig = sign::<Ctr>(msg, &sk).unwrap();
    // non-monotone cumulative counts.
    let mut bad = sig;
    bad[HINT_OFFSET + OMEGA + K - 1] = 0;
    bad[HINT_OFFSET + OMEGA] = 5;
    assert!(!verify::<Ctr>(msg, &bad, &pk));
    // non-ascending positions within the first polynomial.
    let mut bad = sig;
    for k in 0..K {
        bad[HINT_OFFSET + OMEGA + k] = 2;
    }
    bad[HINT_OFFSET] = 7;
    bad[HINT_OFFSET + 1] = 7;
    assert!(!verify::<Ctr>(msg, &bad, &pk));
    // z at its largest encodable magnitude.
    let mut bad = sig;
    bad[32] = 0xff;
    bad[33] = 0xff;
    bad[34] |= 0x0f;
    assert!(!verify::<Ctr>(msg, &bad, &pk));
}

#[test]
fn compute_software_signs_and_verifies() {
    let seed = seed_from(1);
    let msg = [0u8; 32];
    let sig = compute_software(&msg, &seed).unwrap();
    let (pk, sk) = make_keys::<Ctr>(&seed).unwrap();
    assert_eq!(sign::<Ctr>(&msg, &sk).unwrap().to_vec(), sig.to_vec());
    assert!(verify::<Ctr>(&msg, &sig, &pk));
}

#[test]
fn aes_ctr_matches_the_counter() {
    let key = seed_from(8);
    let mut fixed = rust_dilithium::aes_ctr::AesCtr::new(&key, 300);
    let mut ctr = Ctr::new(&key);
    ctr.reset(300);
    let a: [u8; 50] = fixed.squeeze();
    let b: [u8; 50] = ctr.squeeze();
    assert_eq!(a, b);
}

#[test]
fn shake_counter_reads_the_xof_of_key_and_nonce() {
    let key = seed_from(6);
    let mut ctr = ShakeCounter::new(&key);
    ctr.reset(0x0102);
    let a: [u8; 100] = ctr.squeeze();
    let b: [u8; 300] = ctr.squeeze();
    let mut input = key.to_vec();
    input.extend_from_slice(&[0x02, 0x01]);
    let expected = shake256(&input, 400);
    assert_eq!(&a[..], &expected[..100]);
    assert_eq!(&b[..], &expected[100..]);
}

#[test]
fn sign_then_verify_with_the_shake_counter() {
    let (pk, sk) = make_keys::<ShakeCounter>(&seed_from(1)).unwrap();
    let msg = b"shake backend";
    let sig = sign::<ShakeCounter>(msg, &sk).unwrap();
    assert!(verify::<ShakeCounter>(msg, &sig, &pk));
    let mut bad = sig;
    bad[40] ^= 1;
    assert!(!verify::<ShakeCounter>(msg, &bad, &pk));
    let (pk2, _) = make_keys::<Ctr>(&seed_from(1)).unwrap();
    assert_ne!(pk.to_vec(), pk2.to_vec());
}

#[test]
fn challenge_from_given_stream_bytes() {
    // eight zero sign bytes, then picks that are always index 0.
    let mut stream = vec![0u8; 8 + 60];
    let c = sample_challenge(&stream).unwrap();
    assert_eq!(c.coefficients[0], 1);
    assert_eq!(c.coefficients[196], 0);
    for i in 197..256 {
        assert_eq!(c.coefficients[i], 1);
    }
    for i in 1..196 {
        assert_eq!(c.coefficients[i], 0);
    }
    // one byte short.
    stream.pop();
    assert_eq!(sample_challenge(&stream), None);
    // a rejected byte (255 > 196) is skipped; a sign bit of 1 gives -1.
    let mut stream = vec![0u8; 8];
    stream[0] = 1;
    stream.push(255);
    stream.extend_from_slice(&[5u8; 60]);
    let c = sample_challenge(&stream).unwrap();
    assert_eq!(c.coefficients[5], 1);
    assert_eq!(c.coefficients[196], 0);
    assert_eq!(c.coefficients[197], -1);
    assert_eq!(sample_challenge(&[0u8; 7]), None);
}

#[test]
fn hint_with_nonzero_padding_is_rejected() {
    let mut packed = [0u8; OMEGA + K];
    packed[0] = 3;
    for k in 0..K {
        packed[OMEGA + k] = 1;
    }
    assert!(unpack_hint(&packed).is_some());
    packed[OMEGA - 1] = 1;
    assert_eq!(unpack_hint(&packed), None);
}

#[test]
fn flipping_unused_hint_bytes_is_rejected() {
    let (pk, sk) = make_keys::<Ctr>(&seed_from(16)).unwrap();
    let msg = b"padding";
    let sig = sign::<Ctr>(msg, &sk).unwrap();
    let total = sig[HINT_OFFSET + OMEGA + K - 1] as usize;
    assert!(total < OMEGA);
    let mut bad = sig;
    bad[HINT_OFFSET + OMEGA - 1] ^= 0x10;
    assert!(!verify::<Ctr>(msg, &bad, &pk));
    assert!(verify::<Ctr>(msg, &sig, &pk));
}
