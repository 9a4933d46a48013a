//! End-to-end flows: key generation, signing and verification, with
//! negative cases for tampered messages and signatures.

use rand_core::OsRng;

use rune_ring::math::zero_poly;
use rune_ring::{generate_shared_a, keygen, ring_sign, ring_verify, rune_256, PublicKey, SecretKey};

/// A ring of `size` members, as (secret keys, public keys).
fn generate_ring(size: usize) -> (Vec<SecretKey>, Vec<PublicKey>) {
    let params = rune_256();
    let mut rng = OsRng;
    let a = generate_shared_a(&params, &mut rng);

    let mut sks = Vec::with_capacity(size);
    let mut pks = Vec::with_capacity(size);

    for _ in 0..size {
        let (pk, sk) = keygen(&a, &params, &mut rng).expect("fresh shared element is valid");
        sks.push(sk);
        pks.push(pk);
    }

    (sks, pks)
}

#[test]
fn test_full_flow_sign_and_verify() {
    let params = rune_256();
    let (sks, pks) = generate_ring(4);

    let msg = b"Rune blind relay: test message payload";
    let mut rng = OsRng;

    let sig = ring_sign(msg, 1, &sks[1], &pks, &params, &mut rng).expect("signing should succeed");

    let valid = ring_verify(msg, &sig, &pks, &params).expect("verification should not error");
    assert!(valid, "valid signature must verify");
}

#[test]
fn test_different_signer_positions() {
    let params = rune_256();
    let (sks, pks) = generate_ring(4);
    let msg = b"testing different signer positions";
    let mut rng = OsRng;

    for signer_idx in 0..4 {
        let sig = ring_sign(msg, signer_idx, &sks[signer_idx], &pks, &params, &mut rng)
            .unwrap_or_else(|_| panic!("signing at index {} should succeed", signer_idx));

        let valid = ring_verify(msg, &sig, &pks, &params).expect("verification should not error");
        assert!(valid, "signature from signer {} must verify", signer_idx);
    }
}

#[test]
fn test_wrong_message_fails_verification() {
    let params = rune_256();
    let (sks, pks) = generate_ring(3);
    let mut rng = OsRng;

    let msg = b"original message";
    let sig = ring_sign(msg, 0, &sks[0], &pks, &params, &mut rng).expect("signing should succeed");

    let wrong_msg = b"tampered message";
    let valid = ring_verify(wrong_msg, &sig, &pks, &params).expect("verification should not error");
    assert!(!valid, "signature must not verify for a different message");
}

#[test]
fn test_modified_response_fails_verification() {
    let params = rune_256();
    let (sks, pks) = generate_ring(3);
    let mut rng = OsRng;

    let msg = b"test modified response";
    let sig = ring_sign(msg, 2, &sks[2], &pks, &params, &mut rng).expect("signing should succeed");

    let mut tampered_sig = sig.clone();
    tampered_sig.z_s[0] = zero_poly(&params);

    let valid = ring_verify(msg, &tampered_sig, &pks, &params).expect("verification should not error");
    assert!(!valid, "tampered signature must not verify");
}

#[test]
fn test_modified_challenge_fails_verification() {
    let params = rune_256();
    let (sks, pks) = generate_ring(3);
    let mut rng = OsRng;

    let msg = b"test modified challenge";
    let sig = ring_sign(msg, 1, &sks[1], &pks, &params, &mut rng).expect("signing should succeed");

    let mut tampered_sig = sig.clone();
    tampered_sig.c[0] = zero_poly(&params);

    let valid = ring_verify(msg, &tampered_sig, &pks, &params).expect("verification should not error");
    assert!(!valid, "tampered challenge must cause verification failure");
}

#[test]
fn test_ring_of_two_members() {
    let params = rune_256();
    let (sks, pks) = generate_ring(2);
    let mut rng = OsRng;

    let msg = b"minimal ring size test";
    let sig = ring_sign(msg, 0, &sks[0], &pks, &params, &mut rng)
        .expect("signing with 2-member ring should succeed");

    let valid = ring_verify(msg, &sig, &pks, &params).expect("verification should not error");
    assert!(valid, "2-member ring signature must verify");
}

#[test]
fn test_signature_size_matches_ring() {
    let params = rune_256();
    let (sks, pks) = generate_ring(5);
    let mut rng = OsRng;

    let msg = b"size check";
    let sig = ring_sign(msg, 3, &sks[3], &pks, &params, &mut rng).expect("signing should succeed");

    assert_eq!(sig.z_s.len(), 5, "responses must match ring size");
    assert_eq!(sig.z_e.len(), 5, "responses_e must match ring size");
    assert_eq!(sig.c.len(), 5, "challenges must match ring size");
}
