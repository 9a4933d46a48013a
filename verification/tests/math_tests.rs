use rand_chacha::ChaCha20Rng;
use rand_core::SeedableRng;

use rune_ring::challenge::{
    challenge_from_stream, hash_chain, normalize_challenge, sample_challenge, validate_challenge,
};
use rune_ring::math::{
    accept_below, bounded_coeff, cbd_coeff, uniform_coeff, poly_add, poly_infinity_norm, poly_is_well_formed, poly_mul_schoolbook,
    poly_reduce_mod_q, poly_sub, zero_poly,
};
use rune_ring::signature::{sign_with_attempts, sign_with_draws, AttemptDraws};
use rune_ring::{
    generate_shared_a, keygen, ring_sign, ring_verify, rune_128, rune_256, Poly, PublicKey,
    RingSignature, RuneError,
};

const Q128: i64 = 998_244_353;
const HALF128: i64 = 499_122_176;

fn unit(n: usize, i: usize, v: i64) -> Poly {
    let mut c = vec![0; n];
    c[i] = v;
    Poly(c)
}

fn small_poly(n: usize, seed: i64) -> Poly {
    Poly((0..n as i64).map(|i| ((i * 7919 + seed * 104_729) % 2001) - 1000).collect())
}

#[test]
fn reduce_mod_q_gives_centered_residues() {
    assert_eq!(poly_reduce_mod_q(10, 7), 3);
    assert_eq!(poly_reduce_mod_q(11, 7), -3);
    assert_eq!(poly_reduce_mod_q(-1, 7), -1);
    assert_eq!(poly_reduce_mod_q(-10, 7), -3);
    assert_eq!(poly_reduce_mod_q(0, 7), 0);
    assert_eq!(poly_reduce_mod_q(499_122_177, Q128), -HALF128);
    assert_eq!(poly_reduce_mod_q(-499_122_177, Q128), HALF128);
    assert_eq!(poly_reduce_mod_q(i128::MIN, Q128), -149_780_032);
    assert_eq!(poly_reduce_mod_q(i128::MAX, Q128), 149_780_031);
}

#[test]
fn add_and_sub_wrap_around_the_modulus() {
    let p = rune_128();
    let n = p.n();
    let a = unit(n, 0, HALF128);
    let b = unit(n, 0, 1);
    let sum = poly_add(&a, &b, &p);
    assert_eq!(sum.coefficients()[0], -HALF128);
    assert_eq!(sum.len(), n);
    let diff = poly_sub(&b, &a, &p);
    assert_eq!(diff.coefficients()[0], -(HALF128 - 1));
    let neg = poly_sub(&zero_poly(&p), &a, &p);
    assert_eq!(neg.coefficients()[0], -HALF128);
}

#[test]
fn add_takes_the_shorter_length() {
    let p = rune_128();
    let a = Poly(vec![1, 2, 3]);
    let b = Poly(vec![10, 20]);
    assert_eq!(poly_add(&a, &b, &p), Poly(vec![11, 22]));
    assert_eq!(poly_sub(&a, &b, &p), Poly(vec![-9, -18]));
}

#[test]
fn x_to_the_n_is_minus_one() {
    let p = rune_128();
    let n = p.n();
    let x = unit(n, 1, 1);
    let x_last = unit(n, n - 1, 1);
    let prod = poly_mul_schoolbook(&x, &x_last, &p);
    assert_eq!(prod, unit(n, 0, -1));
    let prod2 = poly_mul_schoolbook(&unit(n, 2, 3), &unit(n, 5, 4), &p);
    assert_eq!(prod2, unit(n, 7, 12));
}

#[test]
fn product_reduces_mod_q() {
    let p = rune_128();
    let n = p.n();
    let prod = poly_mul_schoolbook(&unit(n, 0, HALF128), &unit(n, 0, 2), &p);
    assert_eq!(prod, unit(n, 0, -1));
}

#[test]
fn left_factors_commute_on_a_common_right_factor() {
    let p = rune_256();
    let n = p.n();
    let a = small_poly(n, 1);
    let c = small_poly(n, 2);
    let s = small_poly(n, 3);
    let lhs = poly_mul_schoolbook(&a, &poly_mul_schoolbook(&c, &s, &p), &p);
    let rhs = poly_mul_schoolbook(&c, &poly_mul_schoolbook(&a, &s, &p), &p);
    assert_eq!(lhs, rhs);
    assert!(poly_is_well_formed(&lhs, &p));
}

#[test]
fn product_distributes_over_sums() {
    let p = rune_128();
    let n = p.n();
    let c = small_poly(n, 4);
    let u = small_poly(n, 5);
    let v = small_poly(n, 6);
    let lhs = poly_mul_schoolbook(&c, &poly_add(&u, &v, &p), &p);
    let rhs = poly_add(&poly_mul_schoolbook(&c, &u, &p), &poly_mul_schoolbook(&c, &v, &p), &p);
    assert_eq!(lhs, rhs);
}

#[test]
fn infinity_norm_values() {
    assert_eq!(poly_infinity_norm(&Poly(vec![])), 0);
    assert_eq!(poly_infinity_norm(&Poly(vec![3, -5, 2])), 5);
    assert_eq!(poly_infinity_norm(&Poly(vec![i64::MIN + 1])), i64::MAX);
}

#[test]
fn well_formed_boundaries() {
    let p = rune_128();
    let n = p.n();
    assert!(poly_is_well_formed(&unit(n, 3, HALF128), &p));
    assert!(poly_is_well_formed(&unit(n, 3, -HALF128), &p));
    assert!(!poly_is_well_formed(&unit(n, 3, HALF128 + 1), &p));
    assert!(!poly_is_well_formed(&Poly(vec![0; n + 1]), &p));
    assert!(poly_is_well_formed(&zero_poly(&p), &p));
}

#[test]
fn from_coefficients_round_trip() {
    let p = rune_128();
    let coeffs = small_poly(p.n(), 9).0;
    let poly = Poly::from_coefficients(coeffs.clone(), &p).unwrap();
    assert_eq!(poly.coefficients(), &coeffs[..]);
    assert!(!poly.is_empty());
}

#[test]
fn accept_below_rejects_the_biased_tail() {
    assert_eq!(accept_below(5, 10), Some(5));
    assert_eq!(accept_below(u64::MAX, 10), None);
    assert_eq!(accept_below(u64::MAX - 6, 10), Some(9));
    assert_eq!(accept_below(123, 1), Some(0));
}

fn crafted_stream(kappa: usize) -> Vec<u8> {
    let mut stream = Vec::new();
    // A position out of range (256) and a repeat are skipped.
    stream.extend_from_slice(&[0, 1]);
    for p in 0..kappa {
        stream.extend_from_slice(&[p as u8, 0, (p % 2) as u8]);
        if p == 0 {
            stream.extend_from_slice(&[0, 0]);
        }
    }
    stream
}

#[test]
fn challenge_from_a_crafted_stream() {
    let p = rune_128();
    let stream = crafted_stream(p.kappa());
    let (c, complete) = challenge_from_stream(&stream, &p);
    assert!(complete);
    for (i, coeff) in c.coefficients().iter().enumerate() {
        let expected = if i < p.kappa() {
            if i % 2 == 0 { 1 } else { -1 }
        } else {
            0
        };
        assert_eq!(*coeff, expected);
    }
    assert!(validate_challenge(&c, &p));

    let (partial, complete) = challenge_from_stream(&stream[..stream.len() - 1], &p);
    assert!(!complete);
    assert!(!validate_challenge(&partial, &p));
}

#[test]
fn validate_challenge_cases() {
    let p = rune_128();
    let n = p.n();
    let mut coeffs = vec![0; n];
    for c in coeffs.iter_mut().take(p.kappa()) {
        *c = -1;
    }
    assert!(validate_challenge(&Poly(coeffs.clone()), &p));
    coeffs[0] = 2;
    assert!(!validate_challenge(&Poly(coeffs.clone()), &p));
    coeffs[0] = 0;
    assert!(!validate_challenge(&Poly(coeffs.clone()), &p));
    assert!(!validate_challenge(&Poly(vec![0; n - 1]), &p));
}

#[test]
fn normalize_challenge_reduces_each_coefficient() {
    let p = rune_128();
    let c = Poly(vec![Q128 + 1, -1, Q128, HALF128 + 1]);
    assert_eq!(normalize_challenge(&c, &p), Poly(vec![1, -1, 0, -HALF128]));
}

#[test]
fn sampled_challenge_is_deterministic() {
    let p = rune_256();
    let a = sample_challenge(&[7u8; 64], &p);
    let b = sample_challenge(&[7u8; 64], &p);
    let c = sample_challenge(&[8u8; 64], &p);
    assert_eq!(a, b);
    assert_ne!(a, c);
    assert!(validate_challenge(&a, &p));
}

fn ring_of(size: usize, seed: u64) -> (Vec<PublicKey>, Vec<rune_ring::SecretKey>) {
    let p = rune_128();
    let mut rng = ChaCha20Rng::seed_from_u64(seed);
    let a = generate_shared_a(&p, &mut rng);
    let mut pks = Vec::new();
    let mut sks = Vec::new();
    for _ in 0..size {
        let (pk, sk) = keygen(&a, &p, &mut rng).unwrap();
        pks.push(pk);
        sks.push(sk);
    }
    (pks, sks)
}

#[test]
fn hash_chain_depends_on_every_input() {
    let p = rune_128();
    let (ring, _) = ring_of(3, 90);
    let w = zero_poly(&p);
    let base = hash_chain(b"m", &ring, 1, &w, &p);
    assert_eq!(base.len(), 64);
    assert_ne!(base, hash_chain(b"n", &ring, 1, &w, &p));
    assert_ne!(base, hash_chain(b"m", &ring, 2, &w, &p));
    assert_ne!(base, hash_chain(b"m", &ring[..2], 1, &w, &p));
    assert_ne!(base, hash_chain(b"m", &ring, 1, &unit(p.n(), 0, 1), &p));
    assert_eq!(base, hash_chain(b"m", &ring, 1, &w, &p));
}

#[test]
fn keygen_rejects_malformed_shared_element() {
    let p = rune_128();
    let mut rng = ChaCha20Rng::seed_from_u64(1);
    let short = Poly(vec![0; p.n() - 1]);
    assert!(matches!(keygen(&short, &p, &mut rng), Err(RuneError::MalformedPublicKey)));
    let wide = unit(p.n(), 0, HALF128 + 1);
    assert!(matches!(keygen(&wide, &p, &mut rng), Err(RuneError::MalformedPublicKey)));
}

#[test]
fn keygen_public_key_carries_shared_element() {
    let p = rune_128();
    let mut rng = ChaCha20Rng::seed_from_u64(2);
    let a = generate_shared_a(&p, &mut rng);
    assert!(poly_is_well_formed(&a, &p));
    let (pk, _sk) = keygen(&a, &p, &mut rng).unwrap();
    assert_eq!(pk.a, a);
    assert!(poly_is_well_formed(&pk.t, &p));
}

#[test]
fn sign_rejects_foreign_secret_key() {
    let p = rune_128();
    let (ring, _) = ring_of(3, 91);
    let (_, other_sks) = ring_of(3, 92);
    let mut rng = ChaCha20Rng::seed_from_u64(3);
    assert_eq!(
        ring_sign(b"m", 0, &other_sks[0], &ring, &p, &mut rng),
        Err(RuneError::MalformedPublicKey)
    );
}

#[test]
fn verify_reports_ring_errors() {
    let p = rune_128();
    let (ring, _) = ring_of(3, 93);
    let sig = RingSignature {
        z_s: vec![zero_poly(&p); 3],
        z_e: vec![zero_poly(&p); 3],
        c: vec![zero_poly(&p); 3],
    };
    assert_eq!(ring_verify(b"m", &sig, &ring[..1], &p), Err(RuneError::RingTooSmall));
    let mut bad = ring.clone();
    bad[0].t = Poly(vec![0; p.n() - 1]);
    assert_eq!(ring_verify(b"m", &sig, &bad, &p), Err(RuneError::MalformedPublicKey));
    let mut bad_a = ring.clone();
    for pk in bad_a.iter_mut() {
        pk.a = Poly(vec![0; 3]);
    }
    assert_eq!(ring_verify(b"m", &sig, &bad_a, &p), Err(RuneError::MalformedPublicKey));
}

#[test]
fn verify_rejects_malformed_and_oversized_responses() {
    let p = rune_128();
    let (ring, sks) = ring_of(3, 94);
    let mut rng = ChaCha20Rng::seed_from_u64(4);
    let sig = ring_sign(b"m", 0, &sks[0], &ring, &p, &mut rng).unwrap();
    assert_eq!(ring_verify(b"m", &sig, &ring, &p), Ok(true));

    let mut wide = sig.clone();
    wide.z_e[1] = unit(p.n(), 0, HALF128 + 1);
    assert_eq!(ring_verify(b"m", &wide, &ring, &p), Err(RuneError::MalformedSignature));

    let mut big = sig.clone();
    big.z_s[2] = unit(p.n(), 0, p.response_bound());
    assert_eq!(ring_verify(b"m", &big, &ring, &p), Ok(false));
}

#[test]
fn signature_shape_matches_ring() {
    let p = rune_128();
    let (ring, sks) = ring_of(4, 95);
    let mut rng = ChaCha20Rng::seed_from_u64(5);
    let sig = ring_sign(b"shape", 3, &sks[3], &ring, &p, &mut rng).unwrap();
    assert_eq!(sig.z_s.len(), 4);
    assert_eq!(sig.z_e.len(), 4);
    assert_eq!(sig.c.len(), 4);
    for i in 0..4 {
        assert!(poly_is_well_formed(&sig.z_s[i], &p));
        assert!(poly_infinity_norm(&sig.z_s[i]) < p.response_bound());
        assert!(poly_infinity_norm(&sig.z_e[i]) < p.response_bound());
        assert!(validate_challenge(&sig.c[i], &p));
    }
}

#[test]
fn params_values() {
    let p = rune_128();
    assert_eq!((p.n(), p.q(), p.eta(), p.kappa()), (256, 998_244_353, 2, 60));
    assert_eq!((p.gamma(), p.beta(), p.omega(), p.max_attempts()), (249_561_088, 120, 60, 256));
    assert_eq!(p.response_bound(), 249_561_088 - 120);
    let p = rune_256();
    assert_eq!((p.n(), p.q(), p.eta(), p.kappa()), (512, 8_380_417, 3, 60));
    assert_eq!((p.gamma(), p.beta(), p.omega(), p.max_attempts()), (524_288, 180, 120, 256));
    assert_eq!(p.response_bound(), 524_288 - 180);
}

#[test]
fn error_messages() {
    assert_eq!(RuneError::RingTooSmall.message(), "ring size is less than 2");
    assert_eq!(RuneError::SignerIndexOutOfRange.message(), "signer index is out of range");
    assert_eq!(
        RuneError::InconsistentRingParameter.message(),
        "public keys do not share the same ring parameter"
    );
    assert_eq!(RuneError::MalformedSignature.message(), "signature has malformed structure");
    assert_eq!(RuneError::MalformedChallenge.message(), "challenge polynomial is malformed");
    assert_eq!(RuneError::MalformedPublicKey.message(), "public key has malformed structure");
    assert_eq!(
        RuneError::RejectionSamplingFailed.message(),
        "rejection sampling failed within the attempt limit"
    );
}

#[test]
fn poly_debug_hides_coefficients() {
    let text = format!("{:?}", Poly(vec![123_456, -7]));
    assert_eq!(text, "Poly(n=2, ||.||_inf=123456)");
}

#[test]
fn malformed_part_wins_over_failed_challenge() {
    let p = rune_128();
    let (ring, sks) = ring_of(3, 96);
    let mut rng = ChaCha20Rng::seed_from_u64(6);
    let sig = ring_sign(b"m", 1, &sks[1], &ring, &p, &mut rng).unwrap();
    let mut bad = sig.clone();
    bad.c[0] = zero_poly(&p);
    assert_eq!(ring_verify(b"m", &bad, &ring, &p), Ok(false));
    bad.z_s[1] = Poly(vec![0; p.n() - 1]);
    assert_eq!(ring_verify(b"m", &bad, &ring, &p), Err(RuneError::MalformedSignature));
}

#[test]
fn uniform_coeff_centers_accepted_words() {
    let p = rune_128();
    assert_eq!(uniform_coeff(5, &p), Some(5));
    assert_eq!(uniform_coeff(Q128 as u64 + 3, &p), Some(3));
    assert_eq!(uniform_coeff(Q128 as u64 - 1, &p), Some(-1));
    assert_eq!(uniform_coeff(HALF128 as u64 + 1, &p), Some(-HALF128));
    assert_eq!(uniform_coeff(u64::MAX, &p), None);
    let limit = u64::MAX - (u64::MAX % Q128 as u64);
    assert_eq!(uniform_coeff(limit, &p), None);
    assert_eq!(uniform_coeff(limit - 1, &p), Some(-1));
}

#[test]
fn cbd_coeff_counts_low_bits_in_pairs() {
    assert_eq!(cbd_coeff(&[]), 0);
    assert_eq!(cbd_coeff(&[1, 0, 3, 2]), 2);
    assert_eq!(cbd_coeff(&[0, 1, 2, 5]), -2);
    assert_eq!(cbd_coeff(&[7, 9, 4, 6]), 0);
}

#[test]
fn poly_summary_gives_length_and_norm() {
    assert_eq!(Poly(vec![123_456, -7]).summary(), (2, 123_456));
    assert_eq!(Poly(vec![3, i64::MIN]).summary(), (2, i64::MAX));
    assert_eq!(Poly(vec![]).summary(), (0, 0));
}

#[test]
fn secret_key_debug_forms() {
    let (_, sks) = ring_of(2, 97);
    assert_eq!(
        format!("{:?}", sks[0]),
        "SecretKey { s: \"[REDACTED]\", e: \"[REDACTED]\", t: \"<public>\" }"
    );
    assert_eq!(
        format!("{:#?}", sks[0]),
        "SecretKey {\n    s: \"[REDACTED]\",\n    e: \"[REDACTED]\",\n    t: \"<public>\",\n}"
    );
}

#[test]
fn sign_with_draws_is_one_deterministic_attempt() {
    let p = rune_128();
    let (ring, sks) = ring_of(3, 98);
    let zero = zero_poly(&p);
    let draws = vec![zero_poly(&p); 3];
    let sig = sign_with_draws(b"m", 2, &sks[2], &ring, &p, &zero, &zero, &draws, &draws).unwrap();
    let again = sign_with_draws(b"m", 2, &sks[2], &ring, &p, &zero, &zero, &draws, &draws).unwrap();
    assert_eq!(sig, again);
    assert_eq!(sig.z_s[0], zero);
    assert_eq!(sig.z_e[1], zero);
    assert!(sig.z_s[2] != zero);
    assert_eq!(ring_verify(b"m", &sig, &ring, &p), Ok(true));
    assert_eq!(ring_verify(b"n", &sig, &ring, &p), Ok(false));

    let big = unit(p.n(), 0, p.gamma());
    assert!(sign_with_draws(b"m", 2, &sks[2], &ring, &p, &big, &zero, &draws, &draws).is_none());
}

#[test]
fn bounded_coeff_maps_accepted_words_into_the_range() {
    let p = rune_128();
    assert_eq!(bounded_coeff(0, 5, &p), Some(-5));
    assert_eq!(bounded_coeff(10, 5, &p), Some(5));
    assert_eq!(bounded_coeff(11, 5, &p), Some(-5));
    assert_eq!(bounded_coeff(16, 5, &p), Some(0));
    assert_eq!(bounded_coeff(u64::MAX, 5, &p), None);
    let limit = u64::MAX - (u64::MAX % 11);
    assert_eq!(bounded_coeff(limit, 5, &p), None);
    assert_eq!(bounded_coeff(limit - 1, 5, &p), Some(5));
    assert_eq!(bounded_coeff(3, 0, &p), Some(0));
}

fn attempt(y_s: Poly, k: usize) -> AttemptDraws {
    let p = rune_128();
    AttemptDraws {
        y_s,
        y_e: zero_poly(&p),
        z_s: vec![zero_poly(&p); k],
        z_e: vec![zero_poly(&p); k],
    }
}

#[test]
fn sign_with_attempts_takes_the_first_accepted() {
    let p = rune_128();
    let (ring, sks) = ring_of(3, 99);
    let big = unit(p.n(), 0, p.gamma());
    let rejected = attempt(big.clone(), 3);
    let accepted = attempt(zero_poly(&p), 3);

    assert_eq!(
        sign_with_attempts(b"m", 1, &sks[1], &ring, &p, &[]),
        Err(RuneError::RejectionSamplingFailed)
    );
    assert_eq!(
        sign_with_attempts(b"m", 1, &sks[1], &ring, &p, &[attempt(big.clone(), 3), attempt(big.clone(), 3)]),
        Err(RuneError::RejectionSamplingFailed)
    );
    let expected = sign_with_draws(
        b"m", 1, &sks[1], &ring, &p, &accepted.y_s, &accepted.y_e, &accepted.z_s, &accepted.z_e,
    )
    .unwrap();
    let sig = sign_with_attempts(b"m", 1, &sks[1], &ring, &p, &[rejected, accepted, attempt(big, 3)]).unwrap();
    assert_eq!(sig, expected);
    assert_eq!(ring_verify(b"m", &sig, &ring, &p), Ok(true));
}
