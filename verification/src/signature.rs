//! Ring signing and verification.
use vstd::prelude::*;

use crate::algebra::{
    center, centered, cong, ints, lemma_center_cong, lemma_centered, lemma_center_unique, lemma_centered_small,
    lemma_cong_add, lemma_cong_refl, lemma_cong_symm, lemma_cong_trans, lemma_nmul_cong,
    lemma_nmul_distributes, lemma_nmul_left_commute, nmul, vadd, vsub,
};
use crate::challenge::{
    challenge_of_seed, chain_seed, hash_chain, is_valid_challenge, lemma_altered_challenge_invalid,
    lemma_challenge_of_seed, lemma_zero_challenge_invalid,
    normalize_challenge, sample_challenge, validate_challenge,
};
use crate::error::RuneError;
use crate::keys::{key_matches, PublicKey, SecretKey, SecretKeyView};
use crate::math::{
    add_spec, coeffs_bounded, infinity_norm, is_bounded_sample, is_well_formed, lemma_add_ints,
    lemma_infinity_norm_le, lemma_ints_injective, lemma_mul_ints, lemma_ops_well_formed,
    lemma_sub_ints, mul_operand_bound, mul_spec, poly_add, poly_eq, poly_infinity_norm,
    poly_is_well_formed, poly_mul_schoolbook, poly_sub, reduce_spec, sample_bounded_poly, sat_abs,
    sub_spec, zero_poly, zeroize_poly, Poly,
};
use crate::params::{Params, ParamsView};
use crate::rng::{RandomSource, Recorder};
use vstd::arithmetic::div_mod::lemma_fundamental_div_mod_converse;

verus! {

/// A ring signature produced by [`ring_sign`].
///
/// It shows that one member of the ring signed the message without
/// revealing which one; [`ring_verify`] needs only the ring's public keys.
#[derive(Clone, Debug, PartialEq, Eq)]
pub struct RingSignature {
    /// Secret response polynomials.
    pub z_s: Vec<Poly>,
    /// Error response polynomials.
    pub z_e: Vec<Poly>,
    /// Sequential challenge polynomials.
    pub c: Vec<Poly>,
}

/// The coefficient vectors of a ring signature.
pub ghost struct SigView {
    pub z_s: Seq<Seq<i64>>,
    pub z_e: Seq<Seq<i64>>,
    pub c: Seq<Seq<i64>>,
}

/// The coefficient vectors of a list of polynomials.
pub open spec fn polys_view(v: Seq<Poly>) -> Seq<Seq<i64>> {
    Seq::new(v.len(), |i: int| v[i]@)
}

impl View for RingSignature {
    type V = SigView;

    open spec fn view(&self) -> SigView {
        SigView { z_s: polys_view(self.z_s@), z_e: polys_view(self.z_e@), c: polys_view(self.c@) }
    }
}

/// Scans the ring from position `i`: every member must carry the shared
/// element `a` and well-formed polynomials.
pub open spec fn ring_scan(ring: Seq<PublicKey>, a: Seq<i64>, pv: ParamsView, i: int) -> Result<(), RuneError>
    decreases ring.len() - i,
{
    if i < 0 || i >= ring.len() {
        Ok(())
    } else if ring[i].a@ != a {
        Err(RuneError::InconsistentRingParameter)
    } else if !is_well_formed(ring[i].a@, pv) || !is_well_formed(ring[i].t@, pv) {
        Err(RuneError::MalformedPublicKey)
    } else {
        ring_scan(ring, a, pv, i + 1)
    }
}

/// What `validate_ring` decides about a ring.
pub open spec fn ring_check(ring: Seq<PublicKey>, pv: ParamsView) -> Result<(), RuneError> {
    if ring.len() < 2 {
        Err(RuneError::RingTooSmall)
    } else if !is_well_formed(ring[0].a@, pv) {
        Err(RuneError::MalformedPublicKey)
    } else {
        ring_scan(ring, ring[0].a@, pv, 0)
    }
}

/// The ring has at least two members, all sharing one well-formed `a`, and
/// every `t` is well-formed.
pub open spec fn is_valid_ring(ring: Seq<PublicKey>, pv: ParamsView) -> bool {
    &&& ring.len() >= 2
    &&& forall|i: int| 0 <= i < ring.len() ==> #[trigger] ring[i].a@ == ring[0].a@
    &&& forall|i: int| 0 <= i < ring.len() ==> is_well_formed(#[trigger] ring[i].a@, pv)
    &&& forall|i: int| 0 <= i < ring.len() ==> is_well_formed(#[trigger] ring[i].t@, pv)
}

/// Member `j` carries the shared element `a` and well-formed polynomials.
pub open spec fn member_ok(ring: Seq<PublicKey>, a: Seq<i64>, pv: ParamsView, j: int) -> bool {
    ring[j].a@ == a && is_well_formed(ring[j].a@, pv) && is_well_formed(ring[j].t@, pv)
}

proof fn lemma_ring_scan_ok(ring: Seq<PublicKey>, a: Seq<i64>, pv: ParamsView, i: int)
    requires
        0 <= i <= ring.len(),
    ensures
        ring_scan(ring, a, pv, i) is Ok <==> forall|j: int|
            i <= j < ring.len() ==> #[trigger] member_ok(ring, a, pv, j),
    decreases ring.len() - i,
{
    if i < ring.len() {
        lemma_ring_scan_ok(ring, a, pv, i + 1);
        if ring_scan(ring, a, pv, i) is Ok {
            assert(member_ok(ring, a, pv, i));
            assert forall|j: int| i <= j < ring.len() implies #[trigger] member_ok(ring, a, pv, j) by {
                if j > i {
                    assert(i + 1 <= j < ring.len());
                }
            }
        }
        if forall|j: int| i <= j < ring.len() ==> #[trigger] member_ok(ring, a, pv, j) {
            assert(member_ok(ring, a, pv, i));
            assert forall|j: int| i + 1 <= j < ring.len() implies #[trigger] member_ok(ring, a, pv, j) by {
                assert(i <= j < ring.len());
            }
        }
    }
}

/// A ring passes `validate_ring` exactly when it is valid.
pub proof fn lemma_ring_check_ok(ring: Seq<PublicKey>, pv: ParamsView)
    ensures
        ring_check(ring, pv) is Ok <==> is_valid_ring(ring, pv),
{
    if ring.len() >= 2 && is_well_formed(ring[0].a@, pv) {
        let a = ring[0].a@;
        lemma_ring_scan_ok(ring, a, pv, 0);
        if ring_check(ring, pv) is Ok {
            assert forall|i: int| 0 <= i < ring.len() implies #[trigger] ring[i].a@ == ring[0].a@ by {
                assert(member_ok(ring, a, pv, i));
            }
            assert forall|i: int| 0 <= i < ring.len() implies is_well_formed(#[trigger] ring[i].a@, pv) by {
                assert(member_ok(ring, a, pv, i));
            }
            assert forall|i: int| 0 <= i < ring.len() implies is_well_formed(#[trigger] ring[i].t@, pv) by {
                assert(member_ok(ring, a, pv, i));
            }
        }
        if is_valid_ring(ring, pv) {
            assert forall|j: int| 0 <= j < ring.len() implies #[trigger] member_ok(ring, a, pv, j) by {
                assert(ring[j].a@ == ring[0].a@);
                assert(is_well_formed(ring[j].a@, pv));
                assert(is_well_formed(ring[j].t@, pv));
            }
        }
    }
}

/// Checks the ring: at least two members, a well-formed shared element `a`
/// carried by every member, and well-formed public values.
pub(crate) fn validate_ring(ring: &[PublicKey], params: &Params) -> (r: Result<(), RuneError>)
    ensures
        r == ring_check(ring@, params@),
{
    if ring.len() < 2 {
        return Err(RuneError::RingTooSmall);
    }
    let a = &ring[0].a;
    if !poly_is_well_formed(a, params) {
        return Err(RuneError::MalformedPublicKey);
    }
    let k = ring.len();
    for i in 0..k
        invariant
            k == ring@.len(),
            k >= 2,
            a@ == ring@[0].a@,
            is_well_formed(a@, params@),
            ring_scan(ring@, a@, params@, i as int) == ring_check(ring@, params@),
    {
        let pk = &ring[i];
        if !poly_eq(&pk.a, a) {
            return Err(RuneError::InconsistentRingParameter);
        }
        if !poly_is_well_formed(&pk.a, params) || !poly_is_well_formed(&pk.t, params) {
            return Err(RuneError::MalformedPublicKey);
        }
    }
    Ok(())
}

/// The commitment `a * z_s + z_e - c * t` in `R_q`, as verification
/// recomputes it for one ring position.
#[verifier::opaque]
pub open spec fn commitment(
    a: Seq<i64>,
    z_s: Seq<i64>,
    z_e: Seq<i64>,
    c: Seq<i64>,
    t: Seq<i64>,
    pv: ParamsView,
) -> Seq<i64> {
    sub_spec(add_spec(mul_spec(a, z_s, pv.n, pv.q), z_e, pv.q), mul_spec(c, t, pv.n, pv.q), pv.q)
}

/// Opening the commitment of the signer: with `t = a * s + e`, responses
/// `z_s = y_s + c * s` and `z_e = y_e + c * e` recompute the commitment
/// `a * y_s + y_e` that the signer hashed, in `R_q` with centered residues.
pub proof fn lemma_commitment_opens(
    a: Seq<i64>,
    y_s: Seq<i64>,
    y_e: Seq<i64>,
    c: Seq<i64>,
    s: Seq<i64>,
    e: Seq<i64>,
    pv: ParamsView,
)
    requires
        pv.valid(),
        a.len() == pv.n,
        y_s.len() == pv.n,
        y_e.len() == pv.n,
        c.len() == pv.n,
        s.len() == pv.n,
        e.len() == pv.n,
    ensures
        commitment(
            a,
            add_spec(y_s, mul_spec(c, s, pv.n, pv.q), pv.q),
            add_spec(y_e, mul_spec(c, e, pv.n, pv.q), pv.q),
            c,
            add_spec(mul_spec(a, s, pv.n, pv.q), e, pv.q),
            pv,
        ) == add_spec(mul_spec(a, y_s, pv.n, pv.q), y_e, pv.q),
{
    reveal(commitment);
    let n = pv.n;
    let q = pv.q;
    let big_a = ints(a);
    let ys = ints(y_s);
    let ye = ints(y_e);
    let cc = ints(c);
    let ss = ints(s);
    let ee = ints(e);
    let cs = mul_spec(c, s, n, q);
    let ce = mul_spec(c, e, n, q);
    let z_s = add_spec(y_s, cs, q);
    let z_e = add_spec(y_e, ce, q);
    let a_s = mul_spec(a, s, n, q);
    let t = add_spec(a_s, e, q);
    let az = mul_spec(a, z_s, n, q);
    let az_e = add_spec(az, z_e, q);
    let ct = mul_spec(c, t, n, q);
    let w = sub_spec(az_e, ct, q);
    let ay = mul_spec(a, y_s, n, q);
    let rhs = add_spec(ay, y_e, q);

    lemma_mul_ints(c, s, pv);
    lemma_mul_ints(c, e, pv);
    lemma_mul_ints(a, s, pv);
    lemma_mul_ints(a, y_s, pv);
    lemma_add_ints(y_s, cs, pv);
    lemma_add_ints(y_e, ce, pv);
    lemma_add_ints(a_s, e, pv);
    lemma_mul_ints(a, z_s, pv);
    lemma_add_ints(az, z_e, pv);
    lemma_mul_ints(c, t, pv);
    lemma_sub_ints(az_e, ct, pv);
    lemma_add_ints(ay, y_e, pv);

    // z_s = y_s + c s (mod q)
    let ncs = nmul(cc, ss, n);
    lemma_center_cong(ncs, q);
    lemma_cong_refl(ys, q);
    lemma_cong_add(ys, ys, center(ncs, q), ncs, q);
    lemma_center_cong(vadd(ys, center(ncs, q)), q);
    lemma_cong_trans(ints(z_s), vadd(ys, center(ncs, q)), vadd(ys, ncs), q);

    // a z_s = a y_s + a (c s)
    let nay = nmul(big_a, ys, n);
    let nacs = nmul(big_a, ncs, n);
    lemma_nmul_cong(big_a, ints(z_s), vadd(ys, ncs), n, q);
    lemma_nmul_distributes(big_a, ys, ncs, n);
    let p = vadd(nay, nacs);
    lemma_center_cong(nmul(big_a, ints(z_s), n), q);
    lemma_cong_trans(ints(az), nmul(big_a, ints(z_s), n), p, q);

    // z_e = y_e + c e
    let nce = nmul(cc, ee, n);
    lemma_center_cong(nce, q);
    lemma_cong_refl(ye, q);
    lemma_cong_add(ye, ye, center(nce, q), nce, q);
    lemma_center_cong(vadd(ye, center(nce, q)), q);
    lemma_cong_trans(ints(z_e), vadd(ye, center(nce, q)), vadd(ye, nce), q);
    let qe = vadd(ye, nce);

    // a z_s + z_e
    lemma_cong_add(ints(az), p, ints(z_e), qe, q);
    lemma_center_cong(vadd(ints(az), ints(z_e)), q);
    lemma_cong_trans(ints(az_e), vadd(ints(az), ints(z_e)), vadd(p, qe), q);

    // t = a s + e, and c t = c (a s) + c e
    let nas = nmul(big_a, ss, n);
    lemma_center_cong(nas, q);
    lemma_cong_refl(ee, q);
    lemma_cong_add(center(nas, q), nas, ee, ee, q);
    lemma_center_cong(vadd(center(nas, q), ee), q);
    lemma_cong_trans(ints(t), vadd(center(nas, q), ee), vadd(nas, ee), q);
    lemma_nmul_cong(cc, ints(t), vadd(nas, ee), n, q);
    lemma_nmul_distributes(cc, nas, ee, n);
    let r = vadd(nmul(cc, nas, n), nce);
    lemma_center_cong(nmul(cc, ints(t), n), q);
    lemma_cong_trans(ints(ct), nmul(cc, ints(t), n), r, q);

    // the difference
    lemma_cong_add(ints(az_e), vadd(p, qe), ints(ct), r, q);
    let target = vadd(nay, ye);
    lemma_nmul_left_commute(big_a, cc, ss, n);
    assert(vsub(vadd(p, qe), r) =~= target);
    let x = vsub(ints(az_e), ints(ct));
    assert(cong(x, target, q));

    // the right-hand side
    lemma_center_cong(nay, q);
    lemma_cong_add(center(nay, q), nay, ye, ye, q);
    lemma_cong_symm(vadd(center(nay, q), ye), target, q);
    lemma_cong_trans(x, target, vadd(center(nay, q), ye), q);
    lemma_center_unique(x, vadd(center(nay, q), ye), q);
    lemma_ints_injective(w, rhs);
}

/// One response pair and one challenge per ring member, all well-formed.
pub open spec fn sig_well_formed(sig: SigView, k: int, pv: ParamsView) -> bool {
    &&& sig.z_s.len() == k
    &&& sig.z_e.len() == k
    &&& sig.c.len() == k
    &&& forall|i: int| 0 <= i < k ==> is_well_formed(#[trigger] sig.z_s[i], pv)
    &&& forall|i: int| 0 <= i < k ==> is_well_formed(#[trigger] sig.z_e[i], pv)
    &&& forall|i: int| 0 <= i < k ==> is_well_formed(#[trigger] sig.c[i], pv)
}

/// The polynomials of member `i` are well-formed.
pub open spec fn member_well_formed(sig: SigView, pv: ParamsView, i: int) -> bool {
    &&& is_well_formed(sig.z_s[i], pv)
    &&& is_well_formed(sig.z_e[i], pv)
    &&& is_well_formed(sig.c[i], pv)
}

/// Member `i` passes the per-member cryptographic checks: its challenge is
/// a valid, normalized challenge and its responses are below the bound.
pub open spec fn member_passes(sig: SigView, pv: ParamsView, i: int) -> bool {
    &&& is_valid_challenge(sig.c[i], pv.n, pv.kappa)
    &&& reduce_spec(sig.c[i], pv.q) == sig.c[i]
    &&& infinity_norm(sig.z_s[i]) < pv.response_bound()
    &&& infinity_norm(sig.z_e[i]) < pv.response_bound()
}

/// The commitment that verification recomputes at ring position `i`.
pub open spec fn sig_commitment(sig: SigView, ring: Seq<PublicKey>, pv: ParamsView, i: int) -> Seq<i64> {
    commitment(ring[0].a@, sig.z_s[i], sig.z_e[i], sig.c[i], ring[i].t@, pv)
}

/// The position before `i` on a ring of `k` members.
pub open spec fn prev_index(i: int, k: int) -> int {
    (i + k - 1) % k
}

/// The challenge that verification expects at position `i`: derived from
/// the commitment recomputed at the previous position.
pub open spec fn expected_challenge(message: Seq<u8>, sig: SigView, ring: Seq<PublicKey>, pv: ParamsView, i: int) -> Seq<i64> {
    challenge_of_seed(
        chain_seed(message, ring, i, sig_commitment(sig, ring, pv, prev_index(i, ring.len() as int))),
        pv.n,
        pv.kappa,
    )
}

/// The challenge chain check of verification, from position `i` on: the
/// first position whose expected challenge is malformed gives
/// `MalformedChallenge`, the first one that differs from the signature's
/// challenge gives `Ok(false)`.
pub open spec fn chain_check(
    message: Seq<u8>,
    sig: SigView,
    ring: Seq<PublicKey>,
    pv: ParamsView,
    i: int,
) -> Result<bool, RuneError>
    decreases ring.len() - i,
{
    if i < 0 || i >= ring.len() {
        Ok(true)
    } else {
        let expected = expected_challenge(message, sig, ring, pv, i);
        if !is_valid_challenge(expected, pv.n, pv.kappa) {
            Err(RuneError::MalformedChallenge)
        } else if expected != sig.c[i] {
            Ok(false)
        } else {
            chain_check(message, sig, ring, pv, i + 1)
        }
    }
}

/// The outcome of verifying `sig` on `message` against `ring`: ring errors
/// first, then `MalformedSignature` for any malformed part of the
/// signature, then `Ok(false)` if some member fails its checks, and
/// otherwise the outcome of the challenge chain.
pub open spec fn verify_spec(
    message: Seq<u8>,
    sig: SigView,
    ring: Seq<PublicKey>,
    pv: ParamsView,
) -> Result<bool, RuneError> {
    match ring_check(ring, pv) {
        Err(e) => Err(e),
        Ok(_) => if !sig_well_formed(sig, ring.len() as int, pv) {
            Err(RuneError::MalformedSignature)
        } else if !(forall|i: int| 0 <= i < ring.len() ==> #[trigger] member_passes(sig, pv, i)) {
            Ok(false)
        } else {
            chain_check(message, sig, ring, pv, 0)
        },
    }
}

/// The chain check never fails with an error: every challenge derived
/// from a seed is valid.
proof fn lemma_chain_check_ok(message: Seq<u8>, sig: SigView, ring: Seq<PublicKey>, pv: ParamsView, i: int)
    requires
        pv.valid(),
    ensures
        chain_check(message, sig, ring, pv, i) is Ok,
    decreases ring.len() - i,
{
    if 0 <= i < ring.len() {
        let expected = expected_challenge(message, sig, ring, pv, i);
        lemma_challenge_of_seed(
            chain_seed(message, ring, i, sig_commitment(sig, ring, pv, prev_index(i, ring.len() as int))),
            pv.n,
            pv.kappa,
        );
        lemma_chain_check_ok(message, sig, ring, pv, i + 1);
    }
}

/// What an accepted signature satisfies, written out: the ring is valid;
/// every response and challenge is well-formed; every challenge is a valid,
/// normalized challenge and every response is below the response bound; and
/// for every position `i` of the ring, the challenge `c[i]` is the one
/// derived from the hash of the chain input at `i` over the commitment
/// `a * z_s[p] + z_e[p] - c[p] * t[p]` recomputed at the previous position
/// `p = (i + k - 1) % k`.
#[verifier::opaque]
pub open spec fn accepted(message: Seq<u8>, sig: SigView, ring: Seq<PublicKey>, pv: ParamsView) -> bool {
    let k = ring.len() as int;
    &&& is_valid_ring(ring, pv)
    &&& sig_well_formed(sig, k, pv)
    &&& forall|i: int| 0 <= i < k ==> is_valid_challenge(#[trigger] sig.c[i], pv.n, pv.kappa)
    &&& forall|i: int| 0 <= i < k ==> reduce_spec(#[trigger] sig.c[i], pv.q) == sig.c[i]
    &&& forall|i: int| 0 <= i < k ==> infinity_norm(#[trigger] sig.z_s[i]) < pv.response_bound()
    &&& forall|i: int| 0 <= i < k ==> infinity_norm(#[trigger] sig.z_e[i]) < pv.response_bound()
    &&& forall|i: int|
        0 <= i < k ==> #[trigger] sig.c[i] == challenge_of_seed(
            chain_seed(
                message,
                ring,
                i,
                commitment(
                    ring[0].a@,
                    sig.z_s[(i + k - 1) % k],
                    sig.z_e[(i + k - 1) % k],
                    sig.c[(i + k - 1) % k],
                    ring[(i + k - 1) % k].t@,
                    pv,
                ),
            ),
            pv.n,
            pv.kappa,
        )
}

/// From position `i` on, the chain check passes exactly when every
/// challenge is the expected one.
proof fn lemma_chain_check_true(message: Seq<u8>, sig: SigView, ring: Seq<PublicKey>, pv: ParamsView, i: int)
    requires
        pv.valid(),
        0 <= i <= ring.len(),
    ensures
        chain_check(message, sig, ring, pv, i) == Ok::<bool, RuneError>(true) <==> forall|j: int|
            i <= j < ring.len() ==> #[trigger] sig.c[j] == expected_challenge(message, sig, ring, pv, j),
    decreases ring.len() - i,
{
    if i < ring.len() {
        lemma_challenge_of_seed(
            chain_seed(message, ring, i, sig_commitment(sig, ring, pv, prev_index(i, ring.len() as int))),
            pv.n,
            pv.kappa,
        );
        lemma_chain_check_true(message, sig, ring, pv, i + 1);
        if forall|j: int| i + 1 <= j < ring.len() ==> #[trigger] sig.c[j] == expected_challenge(message, sig, ring, pv, j) {
            if sig.c[i] == expected_challenge(message, sig, ring, pv, i) {
                assert forall|j: int| i <= j < ring.len() implies #[trigger] sig.c[j] == expected_challenge(
                    message,
                    sig,
                    ring,
                    pv,
                    j,
                ) by {
                    if j > i {
                        assert(i + 1 <= j);
                    }
                }
            }
        }
    }
}

/// Verification accepts exactly the signatures that satisfy `accepted`:
/// every position's challenge is checked against the commitment at the
/// position before it, the first position included.
pub proof fn lemma_verify_accepts(message: Seq<u8>, sig: SigView, ring: Seq<PublicKey>, pv: ParamsView)
    requires
        pv.valid(),
    ensures
        verify_spec(message, sig, ring, pv) == Ok::<bool, RuneError>(true) <==> accepted(message, sig, ring, pv),
{
    reveal(accepted);
    let k = ring.len() as int;
    lemma_ring_check_ok(ring, pv);
    lemma_chain_check_true(message, sig, ring, pv, 0);
    if is_valid_ring(ring, pv) {
        assert forall|i: int| 0 <= i < k implies #[trigger] expected_challenge(message, sig, ring, pv, i)
            == challenge_of_seed(
            chain_seed(
                message,
                ring,
                i,
                commitment(
                    ring[0].a@,
                    sig.z_s[(i + k - 1) % k],
                    sig.z_e[(i + k - 1) % k],
                    sig.c[(i + k - 1) % k],
                    ring[(i + k - 1) % k].t@,
                    pv,
                ),
            ),
            pv.n,
            pv.kappa,
        ) by {}
        if verify_spec(message, sig, ring, pv) == Ok::<bool, RuneError>(true) {
            assert forall|i: int| 0 <= i < k implies #[trigger] member_passes(sig, pv, i) by {}
            assert forall|i: int| 0 <= i < k implies is_valid_challenge(#[trigger] sig.c[i], pv.n, pv.kappa) by {
                assert(member_passes(sig, pv, i));
            }
            assert forall|i: int| 0 <= i < k implies reduce_spec(#[trigger] sig.c[i], pv.q) == sig.c[i] by {
                assert(member_passes(sig, pv, i));
            }
            assert forall|i: int| 0 <= i < k implies infinity_norm(#[trigger] sig.z_s[i]) < pv.response_bound() by {
                assert(member_passes(sig, pv, i));
            }
            assert forall|i: int| 0 <= i < k implies infinity_norm(#[trigger] sig.z_e[i]) < pv.response_bound() by {
                assert(member_passes(sig, pv, i));
            }
            assert forall|i: int| 0 <= i < k implies #[trigger] sig.c[i] == expected_challenge(message, sig, ring, pv, i) by {}
        }
        if accepted(message, sig, ring, pv) {
            assert forall|i: int| 0 <= i < k implies #[trigger] member_passes(sig, pv, i) by {
                assert(is_valid_challenge(sig.c[i], pv.n, pv.kappa));
                assert(infinity_norm(sig.z_s[i]) < pv.response_bound());
                assert(infinity_norm(sig.z_e[i]) < pv.response_bound());
            }
            assert forall|i: int| 0 <= i < k implies #[trigger] sig.c[i] == expected_challenge(message, sig, ring, pv, i) by {
                assert(sig.c[i] == challenge_of_seed(
                    chain_seed(
                        message,
                        ring,
                        i,
                        commitment(
                            ring[0].a@,
                            sig.z_s[(i + k - 1) % k],
                            sig.z_e[(i + k - 1) % k],
                            sig.c[(i + k - 1) % k],
                            ring[(i + k - 1) % k].t@,
                            pv,
                        ),
                    ),
                    pv.n,
                    pv.kappa,
                ));
            }
        }
    }
}

/// A well-formed signature with an invalid challenge at some position
/// is refused with `Ok(false)` by a valid ring, whatever the message.
pub proof fn lemma_invalid_challenge_rejected(
    message: Seq<u8>,
    sig: SigView,
    ring: Seq<PublicKey>,
    pv: ParamsView,
    i: int,
)
    requires
        is_valid_ring(ring, pv),
        sig_well_formed(sig, ring.len() as int, pv),
        0 <= i < ring.len(),
        !is_valid_challenge(sig.c[i], pv.n, pv.kappa),
    ensures
        verify_spec(message, sig, ring, pv) == Ok::<bool, RuneError>(false),
{
    lemma_ring_check_ok(ring, pv);
    assert(!member_passes(sig, pv, i));
}

/// The signature with one more at coefficient `p` of challenge `i`.
pub open spec fn alter_challenge(sig: SigView, i: int, p: int) -> SigView {
    SigView { c: sig.c.update(i, sig.c[i].update(p, (sig.c[i][p] + 1) as i64)), ..sig }
}

/// The signature with challenge `i` replaced by the zero polynomial.
pub open spec fn zero_challenge(sig: SigView, i: int, pv: ParamsView) -> SigView {
    SigView { c: sig.c.update(i, Seq::new(pv.n, |j: int| 0i64)), ..sig }
}

/// A signature of the shape that signing produces is refused with
/// `Ok(false)` once one is added to a coefficient of its challenge at
/// position `i` (for a modulus that keeps the altered coefficient
/// canonical), or once that challenge is replaced by zero.
pub proof fn lemma_altered_challenge_rejected(
    message: Seq<u8>,
    sig: SigView,
    ring: Seq<PublicKey>,
    pv: ParamsView,
    i: int,
    p: int,
)
    requires
        pv.valid(),
        is_valid_ring(ring, pv),
        sig_shape(sig, ring.len() as int, pv),
        0 <= i < ring.len(),
        0 <= p < pv.n,
    ensures
        pv.half_q() >= 2 ==> verify_spec(message, alter_challenge(sig, i, p), ring, pv) == Ok::<bool, RuneError>(false),
        verify_spec(message, zero_challenge(sig, i, pv), ring, pv) == Ok::<bool, RuneError>(false),
{
    let k = ring.len() as int;
    assert forall|j: int| 0 <= j < k implies is_well_formed(#[trigger] sig.c[j], pv) by {
        assert(is_valid_challenge(sig.c[j], pv.n, pv.kappa));
    }
    assert(is_valid_challenge(sig.c[i], pv.n, pv.kappa));
    lemma_altered_challenge_invalid(sig.c[i], pv.n, pv.kappa, p);
    let alt = alter_challenge(sig, i, p);
    if pv.half_q() >= 2 {
        assert forall|j: int| 0 <= j < k implies is_well_formed(#[trigger] alt.c[j], pv) by {
            if j == i {
                assert(coeffs_bounded(sig.c[i], 1));
                assert(coeffs_bounded(alt.c[i], pv.half_q()));
            }
        }
        lemma_invalid_challenge_rejected(message, alt, ring, pv, i);
    }
    let zc = zero_challenge(sig, i, pv);
    lemma_zero_challenge_invalid(zc.c[i], pv.n, pv.kappa);
    assert forall|j: int| 0 <= j < k implies is_well_formed(#[trigger] zc.c[j], pv) by {}
    lemma_invalid_challenge_rejected(message, zc, ring, pv, i);
}

proof fn lemma_well_formed_is_mul_operand(p: Seq<i64>, pv: ParamsView)
    requires
        pv.valid(),
        is_well_formed(p, pv),
    ensures
        coeffs_bounded(p, mul_operand_bound()),
        p.len() == pv.n,
{
    assert(pv.half_q() <= mul_operand_bound());
}

/// Verifies a Rune ring signature.
///
/// Structural problems with the ring or the signature are errors, and the
/// whole signature is checked for them before any cryptographic check; a
/// signature that fails a cryptographic check gives `Ok(false)`.
pub fn ring_verify(message: &[u8], sig: &RingSignature, ring: &[PublicKey], params: &Params) -> (r: Result<bool, RuneError>)
    ensures
        r == verify_spec(message@, sig@, ring@, params@),
        ring_check(ring@, params@) is Ok && sig_well_formed(sig@, ring@.len() as int, params@) ==> r is Ok,
        r == Ok::<bool, RuneError>(true) <==> accepted(message@, sig@, ring@, params@),
{
    proof {
        use_type_invariant(params);
        lemma_chain_check_ok(message@, sig@, ring@, params@, 0);
        lemma_verify_accepts(message@, sig@, ring@, params@);
    }
    let k = ring.len();
    let checked = validate_ring(ring, params);
    if let Err(e) = checked {
        return Err(e);
    }
    proof {
        lemma_ring_check_ok(ring@, params@);
        assert(is_valid_ring(ring@, params@));
    }
    let ghost sv = sig@;
    if sig.z_s.len() != k || sig.z_e.len() != k || sig.c.len() != k {
        return Err(RuneError::MalformedSignature);
    }
    for i in 0..k
        invariant
            k == ring@.len(),
            k == sig.z_s@.len(),
            k == sig.z_e@.len(),
            k == sig.c@.len(),
            sv == sig@,
            verify_spec(message@, sv, ring@, params@) == Ok::<bool, RuneError>(true) <==> accepted(message@, sv, ring@, params@),
            params@.valid(),
            ring_check(ring@, params@) is Ok,
            forall|j: int| 0 <= j < i ==> #[trigger] member_well_formed(sv, params@, j),
    {
        proof {
            assert(sv.z_s[i as int] == sig.z_s@[i as int]@);
            assert(sv.z_e[i as int] == sig.z_e@[i as int]@);
            assert(sv.c[i as int] == sig.c@[i as int]@);
        }
        if !poly_is_well_formed(&sig.z_s[i], params) || !poly_is_well_formed(&sig.z_e[i], params)
            || !poly_is_well_formed(&sig.c[i], params) {
            assert(!sig_well_formed(sv, k as int, params@));
            return Err(RuneError::MalformedSignature);
        }
        assert(member_well_formed(sv, params@, i as int));
    }
    assert(sig_well_formed(sv, k as int, params@)) by {
        assert forall|j: int| 0 <= j < k implies is_well_formed(#[trigger] sv.z_s[j], params@) by {
            assert(member_well_formed(sv, params@, j));
        }
        assert forall|j: int| 0 <= j < k implies is_well_formed(#[trigger] sv.z_e[j], params@) by {
            assert(member_well_formed(sv, params@, j));
        }
        assert forall|j: int| 0 <= j < k implies is_well_formed(#[trigger] sv.c[j], params@) by {
            assert(member_well_formed(sv, params@, j));
        }
    }
    let response_bound = params.response_bound();
    for i in 0..k
        invariant
            k == ring@.len(),
            k == sig.z_s@.len(),
            k == sig.z_e@.len(),
            k == sig.c@.len(),
            sv == sig@,
            verify_spec(message@, sv, ring@, params@) == Ok::<bool, RuneError>(true) <==> accepted(message@, sv, ring@, params@),
            response_bound == params@.response_bound(),
            params@.valid(),
            is_valid_ring(ring@, params@),
            ring_check(ring@, params@) is Ok,
            sig_well_formed(sv, k as int, params@),
            forall|j: int| 0 <= j < i ==> #[trigger] member_passes(sv, params@, j),
    {
        proof {
            assert(sv.z_s[i as int] == sig.z_s@[i as int]@);
            assert(sv.z_e[i as int] == sig.z_e@[i as int]@);
            assert(sv.c[i as int] == sig.c@[i as int]@);
        }
        let c_ok = validate_challenge(&sig.c[i], params);
        let normalized = c_ok && poly_eq(&normalize_challenge(&sig.c[i], params), &sig.c[i]);
        let bounded = normalized && poly_infinity_norm(&sig.z_s[i]) < response_bound
            && poly_infinity_norm(&sig.z_e[i]) < response_bound;
        if !bounded {
            assert(!member_passes(sv, params@, i as int));
            return Ok(false);
        }
    }
    let a = &ring[0].a;
    let mut commitments: Vec<Poly> = Vec::with_capacity(k);
    for i in 0..k
        invariant
            k == ring@.len(),
            k == sig.z_s@.len(),
            k == sig.z_e@.len(),
            k == sig.c@.len(),
            sv == sig@,
            verify_spec(message@, sv, ring@, params@) == Ok::<bool, RuneError>(true) <==> accepted(message@, sv, ring@, params@),
            params@.valid(),
            a@ == ring@[0].a@,
            is_valid_ring(ring@, params@),
            sig_well_formed(sv, k as int, params@),
            commitments@.len() == i,
            forall|j: int| 0 <= j < i ==> #[trigger] commitments@[j]@ == sig_commitment(sv, ring@, params@, j),
            forall|j: int| 0 <= j < i ==> (#[trigger] commitments@[j])@.len() == params@.n,
    {
        let pk = &ring[i];
        proof {
            lemma_well_formed_is_mul_operand(a@, params@);
            lemma_well_formed_is_mul_operand(sv.z_s[i as int], params@);
            lemma_well_formed_is_mul_operand(sv.c[i as int], params@);
            lemma_well_formed_is_mul_operand(pk.t@, params@);
        }
        let az = poly_mul_schoolbook(a, &sig.z_s[i], params);
        let az_plus_e = poly_add(&az, &sig.z_e[i], params);
        let ct = poly_mul_schoolbook(&sig.c[i], &pk.t, params);
        let w = poly_sub(&az_plus_e, &ct, params);
        proof {
            reveal(commitment);
            assert(w@ == sig_commitment(sv, ring@, params@, i as int));
        }
        commitments.push(w);
    }
    for i in 0..k
        invariant
            k == ring@.len(),
            k >= 2,
            k == sig.c@.len(),
            sv == sig@,
            verify_spec(message@, sv, ring@, params@) == Ok::<bool, RuneError>(true) <==> accepted(message@, sv, ring@, params@),
            params@.valid(),
            commitments@.len() == k,
            forall|j: int| 0 <= j < k ==> #[trigger] commitments@[j]@ == sig_commitment(sv, ring@, params@, j),
            forall|j: int| 0 <= j < k ==> (#[trigger] commitments@[j])@.len() == params@.n,
            chain_check(message@, sv, ring@, params@, i as int) == verify_spec(message@, sv, ring@, params@),
    {
        let prev = if i == 0 {
            k - 1
        } else {
            i - 1
        };
        proof {
            if i == 0 {
                lemma_fundamental_div_mod_converse(k - 1, k as int, 0, k - 1);
            } else {
                lemma_fundamental_div_mod_converse(i + k - 1, k as int, 1, i - 1);
            }
        }
        assert(prev == prev_index(i as int, k as int));
        let seed = hash_chain(message, ring, i, &commitments[prev], params);
        let expected = sample_challenge(seed.as_slice(), params);
        if !validate_challenge(&expected, params) {
            return Err(RuneError::MalformedChallenge);
        }
        if !poly_eq(&expected, &sig.c[i]) {
            return Ok(false);
        }
    }
    Ok(true)
}

// ---------------------------------------------------------------------------
// Signing.

/// Steps from the signer to position `p` going forward around the ring.
pub open spec fn steps_from(signer: int, p: int, k: int) -> int {
    if p >= signer {
        p - signer
    } else {
        p + k - signer
    }
}

/// The position `t` steps after the signer; `t = k` is the signer again.
pub open spec fn ring_pos(signer: int, t: int, k: int) -> int {
    if signer + t < k {
        signer + t
    } else {
        signer + t - k
    }
}

proof fn lemma_prev_index(p: int, k: int)
    requires
        0 <= p < k,
    ensures
        prev_index(p, k) == if p >= 1 { p - 1 } else { k - 1 },
{
    if p >= 1 {
        lemma_fundamental_div_mod_converse(p + k - 1, k, 1, p - 1);
    } else {
        lemma_fundamental_div_mod_converse(k - 1, k, 0, k - 1);
    }
}

proof fn lemma_ring_pos(signer: int, t: int, k: int)
    requires
        0 <= signer < k,
        1 <= t <= k,
    ensures
        0 <= ring_pos(signer, t, k) < k,
        prev_index(ring_pos(signer, t, k), k) == ring_pos(signer, t - 1, k),
        t < k ==> steps_from(signer, ring_pos(signer, t, k), k) == t,
        t < k ==> ring_pos(signer, t, k) != signer,
        ring_pos(signer, k, k) == signer,
{
    lemma_prev_index(ring_pos(signer, t, k), k);
}

/// The random draws of one signing attempt: the masks `y_s`, `y_e` of the
/// signer, and simulated responses for the other members (the signer's
/// entries of `z_s`, `z_e` are not used).
pub ghost struct SignDraws {
    pub y_s: Seq<i64>,
    pub y_e: Seq<i64>,
    pub z_s: Seq<Seq<i64>>,
    pub z_e: Seq<Seq<i64>>,
}

/// A masking polynomial as drawn by signing: `n` centered residues of
/// values within `[-gamma, gamma]`.
pub open spec fn is_masking_sample(y: Seq<i64>, pv: ParamsView) -> bool {
    &&& is_well_formed(y, pv)
    &&& forall|j: int| 0 <= j < y.len() ==> is_bounded_sample(#[trigger] y[j], pv.gamma, pv.q)
}

/// A simulated response: `n` centered residues of values within
/// `[-(response_bound - 1), response_bound - 1]`.
pub open spec fn is_simulated_response(z: Seq<i64>, pv: ParamsView) -> bool {
    &&& is_well_formed(z, pv)
    &&& forall|j: int| 0 <= j < z.len() ==> is_bounded_sample(#[trigger] z[j], pv.response_bound() - 1, pv.q)
}

/// The draws have the shapes that signing draws them with.
pub open spec fn valid_draws(d: SignDraws, signer: int, k: int, pv: ParamsView) -> bool {
    &&& is_masking_sample(d.y_s, pv)
    &&& is_masking_sample(d.y_e, pv)
    &&& d.z_s.len() == k
    &&& d.z_e.len() == k
    &&& forall|i: int| 0 <= i < k && i != signer ==> is_simulated_response(#[trigger] d.z_s[i], pv)
    &&& forall|i: int| 0 <= i < k && i != signer ==> is_simulated_response(#[trigger] d.z_e[i], pv)
}

/// The draws held by the executable values.
pub open spec fn draws_view(y_s: Poly, y_e: Poly, z_s: Seq<Poly>, z_e: Seq<Poly>) -> SignDraws {
    SignDraws { y_s: y_s@, y_e: y_e@, z_s: polys_view(z_s), z_e: polys_view(z_e) }
}

/// The commitment of the chain `t` steps after the signer: `a * y_s + y_e`
/// at the signer, and at every later position the commitment recomputed
/// from its simulated responses and the challenge hashed from the
/// previous commitment.
pub open spec fn chain_commitment(
    message: Seq<u8>,
    ring: Seq<PublicKey>,
    pv: ParamsView,
    signer: int,
    d: SignDraws,
    t: nat,
) -> Seq<i64>
    decreases t,
{
    if t == 0 {
        add_spec(mul_spec(ring[0].a@, d.y_s, pv.n, pv.q), d.y_e, pv.q)
    } else {
        let i = ring_pos(signer, t as int, ring.len() as int);
        let c = challenge_of_seed(
            chain_seed(message, ring, i, chain_commitment(message, ring, pv, signer, d, (t - 1) as nat)),
            pv.n,
            pv.kappa,
        );
        commitment(ring[0].a@, d.z_s[i], d.z_e[i], c, ring[i].t@, pv)
    }
}

/// The challenge of the chain `t >= 1` steps after the signer; `t = k` is
/// the signer's own challenge.
pub open spec fn chain_challenge(
    message: Seq<u8>,
    ring: Seq<PublicKey>,
    pv: ParamsView,
    signer: int,
    d: SignDraws,
    t: nat,
) -> Seq<i64> {
    challenge_of_seed(
        chain_seed(
            message,
            ring,
            ring_pos(signer, t as int, ring.len() as int),
            chain_commitment(message, ring, pv, signer, d, (t - 1) as nat),
        ),
        pv.n,
        pv.kappa,
    )
}

/// The signer's responses `y_s + c * s` and `y_e + c * e` for masks `y_s`,
/// `y_e` and challenge `c`.
pub open spec fn signer_responses(
    y_s: Seq<i64>,
    y_e: Seq<i64>,
    c: Seq<i64>,
    s: Seq<i64>,
    e: Seq<i64>,
    pv: ParamsView,
) -> (Seq<i64>, Seq<i64>) {
    (add_spec(y_s, mul_spec(c, s, pv.n, pv.q), pv.q), add_spec(y_e, mul_spec(c, e, pv.n, pv.q), pv.q))
}

/// Rejection sampling refuses responses of norm `response_bound` or more.
pub open spec fn responses_rejected(z: (Seq<i64>, Seq<i64>), pv: ParamsView) -> bool {
    infinity_norm(z.0) >= pv.response_bound() || infinity_norm(z.1) >= pv.response_bound()
}

/// The outcome of one signing attempt with draws `d`: the chain runs from
/// the signer around the ring back to the signer; `None` when the signer's
/// responses are rejected, and otherwise the signature made of the
/// simulated responses, the signer's responses and the chain's challenges.
pub open spec fn attempt_spec(
    message: Seq<u8>,
    signer: int,
    sk: SecretKeyView,
    ring: Seq<PublicKey>,
    pv: ParamsView,
    d: SignDraws,
) -> Option<SigView> {
    let k = ring.len() as int;
    let c_signer = chain_challenge(message, ring, pv, signer, d, k as nat);
    let z = signer_responses(d.y_s, d.y_e, c_signer, sk.s, sk.e, pv);
    if responses_rejected(z, pv) {
        None
    } else {
        Some(
            SigView {
                z_s: Seq::new(k as nat, |i: int| if i == signer { z.0 } else { d.z_s[i] }),
                z_e: Seq::new(k as nat, |i: int| if i == signer { z.1 } else { d.z_e[i] }),
                c: Seq::new(
                    k as nat,
                    |i: int|
                        if i == signer {
                            c_signer
                        } else {
                            chain_challenge(message, ring, pv, signer, d, steps_from(signer, i, k) as nat)
                        },
                ),
            },
        )
    }
}

/// Shape of a produced signature: one response pair and one challenge per
/// ring member; every response well-formed and below the response bound;
/// every challenge valid: `n` coefficients in `{-1, 0, 1}`, exactly `kappa`
/// of them nonzero.
pub open spec fn sig_shape(sig: SigView, k: int, pv: ParamsView) -> bool {
    &&& sig.z_s.len() == k
    &&& sig.z_e.len() == k
    &&& sig.c.len() == k
    &&& forall|i: int| 0 <= i < k ==> is_well_formed(#[trigger] sig.z_s[i], pv)
    &&& forall|i: int| 0 <= i < k ==> is_well_formed(#[trigger] sig.z_e[i], pv)
    &&& forall|i: int| 0 <= i < k ==> infinity_norm(#[trigger] sig.z_s[i]) < pv.response_bound()
    &&& forall|i: int| 0 <= i < k ==> infinity_norm(#[trigger] sig.z_e[i]) < pv.response_bound()
    &&& forall|i: int| 0 <= i < k ==> is_valid_challenge(#[trigger] sig.c[i], pv.n, pv.kappa)
}

/// `k` polynomials, each the zero polynomial of degree `n`.
fn zero_polys(k: usize, params: &Params) -> (r: Vec<Poly>)
    ensures
        r@.len() == k,
        forall|i: int| 0 <= i < k ==> is_well_formed(#[trigger] r@[i]@, params@),
{
    let mut r: Vec<Poly> = Vec::with_capacity(k);
    for i in 0..k
        invariant
            r@.len() == i,
            forall|j: int| 0 <= j < i ==> is_well_formed(#[trigger] r@[j]@, params@),
    {
        r.push(zero_poly(params));
    }
    r
}

/// A simulated response within `response_bound - 1` passes the norm check.
proof fn lemma_simulated_norm(z: Seq<i64>, pv: ParamsView)
    requires
        pv.valid(),
        is_simulated_response(z, pv),
    ensures
        infinity_norm(z) < pv.response_bound(),
{
    let b = pv.response_bound() - 1;
    assert forall|j: int| 0 <= j < z.len() implies sat_abs(#[trigger] z[j]) <= b by {
        assert(is_bounded_sample(z[j], b, pv.q));
        let x = choose|x: int| -b <= x <= b && #[trigger] centered(x, pv.q) == z[j] as int;
        if -pv.half_q() <= x <= pv.half_q() {
            lemma_centered_small(x, pv.q);
        } else {
            lemma_centered(x, pv.q);
        }
    }
    lemma_infinity_norm_le(z, b);
}

/// A challenge with coefficients in `{-1, 0, 1}` is already normalized:
/// `normalize_challenge` leaves it unchanged.
pub proof fn lemma_small_challenge_normalized(c: Seq<i64>, pv: ParamsView)
    requires
        pv.valid(),
        coeffs_bounded(c, 1),
    ensures
        reduce_spec(c, pv.q) == c,
{
    assert forall|k: int| 0 <= k < c.len() implies #[trigger] reduce_spec(c, pv.q)[k] == c[k] by {
        lemma_centered_small(c[k] as int, pv.q);
    }
    assert(reduce_spec(c, pv.q) =~= c);
}

/// Every challenge is the one derived from the previous commitment.
proof fn lemma_chain_check_passes(message: Seq<u8>, sig: SigView, ring: Seq<PublicKey>, pv: ParamsView, i: int)
    requires
        0 <= i <= ring.len(),
        sig.c.len() == ring.len(),
        forall|j: int|
            i <= j < ring.len() ==> {
                &&& #[trigger] sig.c[j] == expected_challenge(message, sig, ring, pv, j)
                &&& is_valid_challenge(sig.c[j], pv.n, pv.kappa)
            },
    ensures
        chain_check(message, sig, ring, pv, i) == Ok::<bool, RuneError>(true),
    decreases ring.len() - i,
{
    if i < ring.len() {
        lemma_chain_check_passes(message, sig, ring, pv, i + 1);
        assert(sig.c[i] == expected_challenge(message, sig, ring, pv, i));
    }
}

/// Every accepted attempt has the shape of a produced signature: each
/// response well-formed and below the response bound, each challenge
/// valid.
pub proof fn lemma_attempt_shape(
    message: Seq<u8>,
    signer: int,
    sk: SecretKeyView,
    ring: Seq<PublicKey>,
    pv: ParamsView,
    d: SignDraws,
)
    requires
        pv.valid(),
        is_valid_ring(ring, pv),
        0 <= signer < ring.len(),
        valid_draws(d, signer, ring.len() as int, pv),
        attempt_spec(message, signer, sk, ring, pv, d) is Some,
    ensures
        sig_shape(attempt_spec(message, signer, sk, ring, pv, d)->0, ring.len() as int, pv),
{
    let k = ring.len() as int;
    let sv = attempt_spec(message, signer, sk, ring, pv, d)->0;
    let c_signer = chain_challenge(message, ring, pv, signer, d, k as nat);
    assert forall|i: int| #![trigger sv.z_s[i]] #![trigger sv.z_e[i]] #![trigger sv.c[i]] 0 <= i < k implies {
        &&& is_well_formed(sv.z_s[i], pv)
        &&& is_well_formed(sv.z_e[i], pv)
        &&& infinity_norm(sv.z_s[i]) < pv.response_bound()
        &&& infinity_norm(sv.z_e[i]) < pv.response_bound()
        &&& is_valid_challenge(sv.c[i], pv.n, pv.kappa)
    } by {
        if i != signer {
            lemma_simulated_norm(d.z_s[i], pv);
            lemma_simulated_norm(d.z_e[i], pv);
            let t = steps_from(signer, i, k);
            lemma_ring_pos(signer, t, k);
            let seed = chain_seed(message, ring, i, chain_commitment(message, ring, pv, signer, d, (t - 1) as nat));
            lemma_challenge_of_seed(seed, pv.n, pv.kappa);
        } else {
            lemma_ring_pos(signer, k, k);
            let seed = chain_seed(message, ring, signer, chain_commitment(message, ring, pv, signer, d, (k - 1) as nat));
            lemma_challenge_of_seed(seed, pv.n, pv.kappa);
            lemma_ops_well_formed(d.y_s, mul_spec(c_signer, sk.s, pv.n, pv.q), pv);
            lemma_ops_well_formed(d.y_e, mul_spec(c_signer, sk.e, pv.n, pv.q), pv);
        }
    }
}

/// The commitment that verification recomputes at each position of an
/// accepted attempt is the commitment of the chain at that position.
proof fn lemma_attempt_commitments(
    message: Seq<u8>,
    signer: int,
    sk: SecretKeyView,
    ring: Seq<PublicKey>,
    pv: ParamsView,
    d: SignDraws,
)
    requires
        pv.valid(),
        is_valid_ring(ring, pv),
        0 <= signer < ring.len(),
        valid_draws(d, signer, ring.len() as int, pv),
        key_matches(sk, ring[0].a@, pv),
        sk.t == ring[signer].t@,
        attempt_spec(message, signer, sk, ring, pv, d) is Some,
    ensures
        forall|i: int|
            0 <= i < ring.len() ==> #[trigger] sig_commitment(
                attempt_spec(message, signer, sk, ring, pv, d)->0,
                ring,
                pv,
                i,
            ) == chain_commitment(message, ring, pv, signer, d, steps_from(signer, i, ring.len() as int) as nat),
{
    let k = ring.len() as int;
    let sv = attempt_spec(message, signer, sk, ring, pv, d)->0;
    assert forall|i: int| 0 <= i < k implies #[trigger] sig_commitment(sv, ring, pv, i) == chain_commitment(
        message,
        ring,
        pv,
        signer,
        d,
        steps_from(signer, i, k) as nat,
    ) by {
        if i == signer {
            lemma_ring_pos(signer, k, k);
            let seed = chain_seed(message, ring, signer, chain_commitment(message, ring, pv, signer, d, (k - 1) as nat));
            lemma_challenge_of_seed(seed, pv.n, pv.kappa);
            lemma_commitment_opens(ring[0].a@, d.y_s, d.y_e, sv.c[signer], sk.s, sk.e, pv);
        } else {
            let t = steps_from(signer, i, k);
            lemma_ring_pos(signer, t, k);
        }
    }
}

/// Every challenge of an accepted attempt is the one that verification
/// expects from the commitment it recomputes at the previous position.
proof fn lemma_attempt_chain(
    message: Seq<u8>,
    signer: int,
    sk: SecretKeyView,
    ring: Seq<PublicKey>,
    pv: ParamsView,
    d: SignDraws,
)
    requires
        pv.valid(),
        is_valid_ring(ring, pv),
        0 <= signer < ring.len(),
        valid_draws(d, signer, ring.len() as int, pv),
        key_matches(sk, ring[0].a@, pv),
        sk.t == ring[signer].t@,
        attempt_spec(message, signer, sk, ring, pv, d) is Some,
    ensures
        forall|j: int|
            0 <= j < ring.len() ==> #[trigger] (attempt_spec(message, signer, sk, ring, pv, d)->0).c[j]
                == expected_challenge(message, attempt_spec(message, signer, sk, ring, pv, d)->0, ring, pv, j),
{
    let k = ring.len() as int;
    let sv = attempt_spec(message, signer, sk, ring, pv, d)->0;
    lemma_attempt_commitments(message, signer, sk, ring, pv, d);
    assert forall|j: int| 0 <= j < k implies #[trigger] sv.c[j] == expected_challenge(message, sv, ring, pv, j) by {
        lemma_prev_index(j, k);
        let t = steps_from(signer, j, k);
        if j != signer {
            lemma_ring_pos(signer, t, k);
            if t >= 2 {
                lemma_ring_pos(signer, t - 1, k);
            } else {
                assert(ring_pos(signer, 0, k) == signer);
            }
            assert(sig_commitment(sv, ring, pv, prev_index(j, k)) == chain_commitment(
                message,
                ring,
                pv,
                signer,
                d,
                steps_from(signer, prev_index(j, k), k) as nat,
            ));
        } else {
            lemma_ring_pos(signer, k, k);
            lemma_ring_pos(signer, k - 1, k);
            assert(sig_commitment(sv, ring, pv, prev_index(j, k)) == chain_commitment(
                message,
                ring,
                pv,
                signer,
                d,
                steps_from(signer, prev_index(j, k), k) as nat,
            ));
        }
    }
}

/// An accepted attempt whose secret key belongs to the signer's public key
/// verifies.
pub proof fn lemma_attempt_verifies(
    message: Seq<u8>,
    signer: int,
    sk: SecretKeyView,
    ring: Seq<PublicKey>,
    pv: ParamsView,
    d: SignDraws,
)
    requires
        pv.valid(),
        is_valid_ring(ring, pv),
        0 <= signer < ring.len(),
        valid_draws(d, signer, ring.len() as int, pv),
        key_matches(sk, ring[0].a@, pv),
        sk.t == ring[signer].t@,
        attempt_spec(message, signer, sk, ring, pv, d) is Some,
    ensures
        verify_spec(message, attempt_spec(message, signer, sk, ring, pv, d)->0, ring, pv) == Ok::<bool, RuneError>(
            true,
        ),
{
    let k = ring.len() as int;
    let sv = attempt_spec(message, signer, sk, ring, pv, d)->0;
    lemma_attempt_shape(message, signer, sk, ring, pv, d);
    lemma_attempt_chain(message, signer, sk, ring, pv, d);
    lemma_chain_check_passes(message, sv, ring, pv, 0);
    assert forall|j: int| 0 <= j < k implies #[trigger] member_passes(sv, pv, j) by {
        lemma_small_challenge_normalized(sv.c[j], pv);
    }
    assert forall|j: int| 0 <= j < k implies is_well_formed(#[trigger] sv.c[j], pv) by {
        assert(is_valid_challenge(sv.c[j], pv.n, pv.kappa));
    }
    lemma_ring_check_ok(ring, pv);
}

/// Member `p` holds its drawn responses and the challenge of the chain at
/// its position.
spec fn chain_member(
    message: Seq<u8>,
    ring: Seq<PublicKey>,
    pv: ParamsView,
    signer: int,
    d: SignDraws,
    c: Seq<Poly>,
    z_s: Seq<Poly>,
    z_e: Seq<Poly>,
    p: int,
) -> bool {
    &&& c[p]@ == chain_challenge(message, ring, pv, signer, d, steps_from(signer, p, ring.len() as int) as nat)
    &&& z_s[p]@ == d.z_s[p]
    &&& z_e[p]@ == d.z_e[p]
    &&& c[p]@.len() == pv.n
    &&& coeffs_bounded(c[p]@, 1)
}

/// Runs the challenge chain from just after the signer around to just
/// before it: for each other position, derive its challenge from the
/// previous commitment, take its drawn responses, and recompute its
/// commitment.
fn fill_chain(
    message: &[u8],
    ring: &[PublicKey],
    signer: usize,
    params: &Params,
    z_s_draws: &Vec<Poly>,
    z_e_draws: &Vec<Poly>,
    w: &mut Vec<Poly>,
    z_s: &mut Vec<Poly>,
    z_e: &mut Vec<Poly>,
    c: &mut Vec<Poly>,
    Ghost(d): Ghost<SignDraws>,
)
    requires
        params@.valid(),
        is_valid_ring(ring@, params@),
        signer < ring@.len(),
        valid_draws(d, signer as int, ring@.len() as int, params@),
        polys_view(z_s_draws@) == d.z_s,
        polys_view(z_e_draws@) == d.z_e,
        old(w)@.len() == ring@.len(),
        old(z_s)@.len() == ring@.len(),
        old(z_e)@.len() == ring@.len(),
        old(c)@.len() == ring@.len(),
        forall|p: int| 0 <= p < ring@.len() ==> (#[trigger] old(w)@[p])@.len() == params@.n,
        old(w)@[signer as int]@ == chain_commitment(message@, ring@, params@, signer as int, d, 0),
    ensures
        final(w)@.len() == ring@.len(),
        final(z_s)@.len() == ring@.len(),
        final(z_e)@.len() == ring@.len(),
        final(c)@.len() == ring@.len(),
        final(w)@[signer as int] == old(w)@[signer as int],
        final(z_s)@[signer as int] == old(z_s)@[signer as int],
        final(z_e)@[signer as int] == old(z_e)@[signer as int],
        final(c)@[signer as int] == old(c)@[signer as int],
        forall|p: int| 0 <= p < ring@.len() ==> (#[trigger] final(w)@[p])@.len() == params@.n,
        forall|t: int|
            0 <= t < ring@.len() ==> (#[trigger] final(w)@[ring_pos(signer as int, t, ring@.len() as int)])@
                == chain_commitment(message@, ring@, params@, signer as int, d, t as nat),
        forall|p: int|
            0 <= p < ring@.len() && p != signer ==> #[trigger] chain_member(
                message@,
                ring@,
                params@,
                signer as int,
                d,
                final(c)@,
                final(z_s)@,
                final(z_e)@,
                p,
            ),
{
    let k = ring.len();
    let a = &ring[0].a;
    let ghost w0 = w@;
    let ghost zs0 = z_s@;
    let ghost ze0 = z_e@;
    let ghost c0 = c@;
    for j in 1..k
        invariant
            k == ring@.len(),
            signer < k,
            params@.valid(),
            is_valid_ring(ring@, params@),
            a@ == ring@[0].a@,
            valid_draws(d, signer as int, k as int, params@),
            polys_view(z_s_draws@) == d.z_s,
            polys_view(z_e_draws@) == d.z_e,
            w@.len() == k,
            z_s@.len() == k,
            z_e@.len() == k,
            c@.len() == k,
            w@[signer as int] == w0[signer as int],
            z_s@[signer as int] == zs0[signer as int],
            z_e@[signer as int] == ze0[signer as int],
            c@[signer as int] == c0[signer as int],
            w0[signer as int]@ == chain_commitment(message@, ring@, params@, signer as int, d, 0),
            forall|p: int| 0 <= p < k ==> (#[trigger] w@[p])@.len() == params@.n,
            forall|t: int|
                0 <= t < j ==> (#[trigger] w@[ring_pos(signer as int, t, k as int)])@ == chain_commitment(
                    message@,
                    ring@,
                    params@,
                    signer as int,
                    d,
                    t as nat,
                ),
            forall|p: int|
                0 <= p < k && p != signer && steps_from(signer as int, p, k as int) < j ==> #[trigger] chain_member(
                    message@,
                    ring@,
                    params@,
                    signer as int,
                    d,
                    c@,
                    z_s@,
                    z_e@,
                    p,
                ),
    {
        let i = if j < k - signer {
            signer + j
        } else {
            j - (k - signer)
        };
        let prev = if i == 0 {
            k - 1
        } else {
            i - 1
        };
        proof {
            lemma_ring_pos(signer as int, j as int, k as int);
            lemma_prev_index(i as int, k as int);
            assert(i == ring_pos(signer as int, j as int, k as int));
            assert(prev == ring_pos(signer as int, j - 1, k as int));
            assert(w@[prev as int]@ == chain_commitment(message@, ring@, params@, signer as int, d, (j - 1) as nat));
        }
        let seed = hash_chain(message, ring, i, &w[prev], params);
        let ci = sample_challenge(seed.as_slice(), params);
        let zs = z_s_draws[i].duplicate();
        let ze = z_e_draws[i].duplicate();
        proof {
            assert(zs@ == d.z_s[i as int]);
            assert(ze@ == d.z_e[i as int]);
            assert(is_simulated_response(d.z_s[i as int], params@));
            assert(is_simulated_response(d.z_e[i as int], params@));
            assert(params@.half_q() <= mul_operand_bound());
            assert(is_well_formed(ring@[i as int].t@, params@));
        }
        let az = poly_mul_schoolbook(a, &zs, params);
        let az_plus_e = poly_add(&az, &ze, params);
        let ct = poly_mul_schoolbook(&ci, &ring[i].t, params);
        let wi = poly_sub(&az_plus_e, &ct, params);
        proof {
            reveal(commitment);
            lemma_ops_well_formed(az_plus_e@, ct@, params@);
            assert(wi@ == chain_commitment(message@, ring@, params@, signer as int, d, j as nat));
            assert(ci@ == chain_challenge(message@, ring@, params@, signer as int, d, j as nat));
        }
        let ghost w_before = w@;
        let ghost zs_before = z_s@;
        let ghost ze_before = z_e@;
        let ghost c_before = c@;
        c.set(i, ci);
        z_s.set(i, zs);
        z_e.set(i, ze);
        w.set(i, wi);
        proof {
            assert forall|t: int| 0 <= t < j + 1 implies (#[trigger] w@[ring_pos(signer as int, t, k as int)])@
                == chain_commitment(message@, ring@, params@, signer as int, d, t as nat) by {
                if t < j {
                    if t >= 1 {
                        lemma_ring_pos(signer as int, t, k as int);
                    }
                    assert(ring_pos(signer as int, t, k as int) != i);
                    assert(w@[ring_pos(signer as int, t, k as int)] == w_before[ring_pos(signer as int, t, k as int)]);
                }
            }
            assert forall|p: int|
                0 <= p < k && p != signer && steps_from(signer as int, p, k as int) < j + 1 implies #[trigger] chain_member(
                    message@,
                    ring@,
                    params@,
                    signer as int,
                    d,
                    c@,
                    z_s@,
                    z_e@,
                    p,
                ) by {
                if p != i {
                    assert(steps_from(signer as int, p, k as int) < j);
                    assert(chain_member(message@, ring@, params@, signer as int, d, c_before, zs_before, ze_before, p));
                } else {
                    assert(steps_from(signer as int, p, k as int) == j);
                }
            }
        }
    }
    proof {
        assert forall|t: int| 0 <= t < ring@.len() implies (#[trigger] w@[ring_pos(
            signer as int,
            t,
            ring@.len() as int,
        )])@ == chain_commitment(message@, ring@, params@, signer as int, d, t as nat) by {}
    }
}

/// One signing attempt with the given draws: the signer's commitment
/// `a * y_s + y_e` starts a chain of challenges around the ring, every other
/// member takes its drawn responses, and the signer closes the chain with
/// `z_s = y_s + c * s`, `z_e = y_e + c * e`. Returns `None` when these
/// responses reach the response bound.
pub fn sign_with_draws(
    message: &[u8],
    signer: usize,
    sk: &SecretKey,
    ring: &[PublicKey],
    params: &Params,
    y_s: &Poly,
    y_e: &Poly,
    z_s_draws: &Vec<Poly>,
    z_e_draws: &Vec<Poly>,
) -> (r: Option<RingSignature>)
    requires
        is_valid_ring(ring@, params@),
        signer < ring@.len(),
        sk@.t == ring@[signer as int].t@,
        valid_draws(draws_view(*y_s, *y_e, z_s_draws@, z_e_draws@), signer as int, ring@.len() as int, params@),
    ensures
        match r {
            None => attempt_spec(message@, signer as int, sk@, ring@, params@, draws_view(*y_s, *y_e, z_s_draws@, z_e_draws@)) is None,
            Some(sig) => attempt_spec(message@, signer as int, sk@, ring@, params@, draws_view(*y_s, *y_e, z_s_draws@, z_e_draws@)) == Some(sig@),
        },
        r matches Some(sig) ==> sig_shape(sig@, ring@.len() as int, params@),
        r matches Some(sig) ==> (key_matches(sk@, ring@[0].a@, params@) ==> verify_spec(message@, sig@, ring@, params@)
            == Ok::<bool, RuneError>(true)),
{
    proof {
        use_type_invariant(sk);
        use_type_invariant(params);
        assert(params@.half_q() <= mul_operand_bound());
        assert(u8::MAX <= mul_operand_bound());
    }
    let ghost d = draws_view(*y_s, *y_e, z_s_draws@, z_e_draws@);
    let ghost pv = params@;
    let k = ring.len();
    let a = &ring[0].a;
    let rb = params.response_bound();
    let mut z_s = zero_polys(k, params);
    let mut z_e = zero_polys(k, params);
    let mut c = zero_polys(k, params);
    let mut w = zero_polys(k, params);
    let ay = poly_mul_schoolbook(a, y_s, params);
    let w_signer = poly_add(&ay, y_e, params);
    proof {
        lemma_ops_well_formed(ay@, y_e@, params@);
    }
    w.set(signer, w_signer);
    fill_chain(message, ring, signer, params, z_s_draws, z_e_draws, &mut w, &mut z_s, &mut z_e, &mut c, Ghost(d));
    let prev = if signer == 0 {
        k - 1
    } else {
        signer - 1
    };
    proof {
        lemma_ring_pos(signer as int, k as int, k as int);
        lemma_prev_index(signer as int, k as int);
        assert(prev == ring_pos(signer as int, k - 1, k as int));
    }
    let seed = hash_chain(message, ring, signer, &w[prev], params);
    let c_signer = sample_challenge(seed.as_slice(), params);
    proof {
        assert(c_signer@ == chain_challenge(message@, ring@, pv, signer as int, d, k as nat));
    }
    let mut cs = poly_mul_schoolbook(&c_signer, sk.s(), params);
    let mut ce = poly_mul_schoolbook(&c_signer, sk.e(), params);
    let mut zs_signer = poly_add(y_s, &cs, params);
    let mut ze_signer = poly_add(y_e, &ce, params);
    proof {
        lemma_ops_well_formed(y_s@, cs@, params@);
        lemma_ops_well_formed(y_e@, ce@, params@);
        assert(signer_responses(d.y_s, d.y_e, c_signer@, sk@.s, sk@.e, pv) == (zs_signer@, ze_signer@));
    }
    zeroize_poly(&mut cs);
    zeroize_poly(&mut ce);
    if poly_infinity_norm(&zs_signer) >= rb || poly_infinity_norm(&ze_signer) >= rb {
        zeroize_poly(&mut zs_signer);
        zeroize_poly(&mut ze_signer);
        return None;
    }
    let ghost c1 = c@;
    let ghost zs1 = z_s@;
    let ghost ze1 = z_e@;
    c.set(signer, c_signer);
    z_s.set(signer, zs_signer);
    z_e.set(signer, ze_signer);
    let sig = RingSignature { z_s, z_e, c };
    proof {
        let sv = sig@;
        let expected = attempt_spec(message@, signer as int, sk@, ring@, pv, d);
        assert(expected is Some);
        let ev = expected->0;
        assert forall|i: int| #![trigger sv.z_s[i]] #![trigger sv.z_e[i]] #![trigger sv.c[i]] 0 <= i < k implies {
            &&& sv.z_s[i] == ev.z_s[i]
            &&& sv.z_e[i] == ev.z_e[i]
            &&& sv.c[i] == ev.c[i]
        } by {
            if i != signer {
                assert(chain_member(message@, ring@, pv, signer as int, d, c1, zs1, ze1, i));
            }
        }
        assert(sv.z_s =~= ev.z_s);
        assert(sv.z_e =~= ev.z_e);
        assert(sv.c =~= ev.c);
        assert(sv == ev);
        lemma_attempt_shape(message@, signer as int, sk@, ring@, pv, d);
        if key_matches(sk@, ring@[0].a@, pv) {
            lemma_attempt_verifies(message@, signer as int, sk@, ring@, pv, d);
        }
    }
    Some(sig)
}

/// Both drawn responses of member `p` are simulated responses.
spec fn simulated_pair(z_s: Seq<Poly>, z_e: Seq<Poly>, pv: ParamsView, p: int) -> bool {
    is_simulated_response(z_s[p]@, pv) && is_simulated_response(z_e[p]@, pv)
}

/// Draws the masks of one signing attempt and the simulated responses of
/// the other members, in ring order starting after the signer.
fn draw_attempt<R: RandomSource>(
    signer: usize,
    k: usize,
    params: &Params,
    rng: &mut Recorder<'_, R>,
) -> (r: (Poly, Poly, Vec<Poly>, Vec<Poly>))
    requires
        signer < k,
    ensures
        valid_draws(draws_view(r.0, r.1, r.2@, r.3@), signer as int, k as int, params@),
{
    proof {
        use_type_invariant(params);
    }
    let rb = params.response_bound();
    let y_s = sample_bounded_poly(params.gamma(), params, rng);
    let y_e = sample_bounded_poly(params.gamma(), params, rng);
    let mut z_s = zero_polys(k, params);
    let mut z_e = zero_polys(k, params);
    for j in 1..k
        invariant
            signer < k,
            params@.valid(),
            rb == params@.response_bound(),
            z_s@.len() == k,
            z_e@.len() == k,
            forall|p: int|
                0 <= p < k && p != signer && steps_from(signer as int, p, k as int) < j ==> #[trigger] simulated_pair(
                    z_s@,
                    z_e@,
                    params@,
                    p,
                ),
    {
        let i = if j < k - signer {
            signer + j
        } else {
            j - (k - signer)
        };
        proof {
            lemma_ring_pos(signer as int, j as int, k as int);
            assert(i == ring_pos(signer as int, j as int, k as int));
        }
        let zs = sample_bounded_poly(rb - 1, params, rng);
        let ze = sample_bounded_poly(rb - 1, params, rng);
        let ghost zs_before = z_s@;
        let ghost ze_before = z_e@;
        z_s.set(i, zs);
        z_e.set(i, ze);
        proof {
            assert forall|p: int|
                0 <= p < k && p != signer && steps_from(signer as int, p, k as int) < j + 1 implies #[trigger] simulated_pair(
                    z_s@,
                    z_e@,
                    params@,
                    p,
                ) by {
                if p != i {
                    assert(steps_from(signer as int, p, k as int) < j);
                    assert(simulated_pair(zs_before, ze_before, params@, p));
                } else {
                    assert(steps_from(signer as int, p, k as int) == j);
                }
            }
        }
    }
    let ghost d = draws_view(y_s, y_e, z_s@, z_e@);
    assert forall|p: int| 0 <= p < k && p != signer implies is_simulated_response(#[trigger] d.z_s[p], params@) by {
        assert(steps_from(signer as int, p, k as int) < k);
        assert(simulated_pair(z_s@, z_e@, params@, p));
    }
    assert forall|p: int| 0 <= p < k && p != signer implies is_simulated_response(#[trigger] d.z_e[p], params@) by {
        assert(steps_from(signer as int, p, k as int) < k);
        assert(simulated_pair(z_s@, z_e@, params@, p));
    }
    (y_s, y_e, z_s, z_e)
}

/// The draws of one signing attempt, as values.
pub struct AttemptDraws {
    /// Mask for the secret response.
    pub y_s: Poly,
    /// Mask for the error response.
    pub y_e: Poly,
    /// Simulated secret responses, one per member (the signer's is unused).
    pub z_s: Vec<Poly>,
    /// Simulated error responses, one per member (the signer's is unused).
    pub z_e: Vec<Poly>,
}

/// The draws that an `AttemptDraws` holds.
pub open spec fn attempt_view(a: AttemptDraws) -> SignDraws {
    draws_view(a.y_s, a.y_e, a.z_s@, a.z_e@)
}

/// The draws of a list of attempts.
pub open spec fn attempts_view(v: Seq<AttemptDraws>) -> Seq<SignDraws> {
    Seq::new(v.len(), |i: int| attempt_view(v[i]))
}

/// A signing result by its view.
pub open spec fn result_view(r: Result<RingSignature, RuneError>) -> Result<SigView, RuneError> {
    match r {
        Ok(sig) => Ok(sig@),
        Err(e) => Err(e),
    }
}

/// Rejection sampling over successive attempts: the first accepted attempt
/// gives the signature, and `RejectionSamplingFailed` comes when every
/// attempt is rejected.
pub open spec fn sign_outcome(
    message: Seq<u8>,
    signer: int,
    sk: SecretKeyView,
    ring: Seq<PublicKey>,
    pv: ParamsView,
    attempts: Seq<SignDraws>,
) -> Result<SigView, RuneError>
    decreases attempts.len(),
{
    if attempts.len() == 0 {
        Err(RuneError::RejectionSamplingFailed)
    } else {
        match attempt_spec(message, signer, sk, ring, pv, attempts[0]) {
            Some(sig) => Ok(sig),
            None => sign_outcome(message, signer, sk, ring, pv, attempts.drop_first()),
        }
    }
}

/// The attempts that signing makes: at most `max_attempts`, each with draws
/// of the shapes signing draws, and every one but the last rejected; there
/// are fewer than `max_attempts` only when the last one is accepted.
pub open spec fn attempts_made(
    message: Seq<u8>,
    signer: int,
    sk: SecretKeyView,
    ring: Seq<PublicKey>,
    pv: ParamsView,
    attempts: Seq<SignDraws>,
) -> bool {
    &&& attempts.len() <= pv.max_attempts
    &&& forall|j: int| 0 <= j < attempts.len() ==> valid_draws(#[trigger] attempts[j], signer, ring.len() as int, pv)
    &&& forall|j: int|
        0 <= j < attempts.len() - 1 ==> attempt_spec(message, signer, sk, ring, pv, #[trigger] attempts[j]) is None
    &&& attempts.len() < pv.max_attempts ==> attempts.len() > 0 && attempt_spec(
        message,
        signer,
        sk,
        ring,
        pv,
        attempts.last(),
    ) is Some
}

/// Once a prefix of the attempts gives a signature, later attempts do not
/// matter.
proof fn lemma_sign_outcome_prefix(
    message: Seq<u8>,
    signer: int,
    sk: SecretKeyView,
    ring: Seq<PublicKey>,
    pv: ParamsView,
    all: Seq<SignDraws>,
    m: int,
)
    requires
        0 <= m <= all.len(),
    ensures
        sign_outcome(message, signer, sk, ring, pv, all.take(m)) is Ok ==> sign_outcome(
            message,
            signer,
            sk,
            ring,
            pv,
            all,
        ) == sign_outcome(message, signer, sk, ring, pv, all.take(m)),
    decreases m,
{
    if m > 0 {
        assert(all.take(m)[0] == all[0]);
        if attempt_spec(message, signer, sk, ring, pv, all[0]) is None {
            assert(all.take(m).drop_first() =~= all.drop_first().take(m - 1));
            lemma_sign_outcome_prefix(message, signer, sk, ring, pv, all.drop_first(), m - 1);
        }
    }
}

/// The outcome of attempts that were all rejected, followed by one more.
proof fn lemma_sign_outcome_step(
    message: Seq<u8>,
    signer: int,
    sk: SecretKeyView,
    ring: Seq<PublicKey>,
    pv: ParamsView,
    attempts: Seq<SignDraws>,
    d: SignDraws,
)
    requires
        forall|j: int| 0 <= j < attempts.len() ==> attempt_spec(message, signer, sk, ring, pv, #[trigger] attempts[j]) is None,
    ensures
        sign_outcome(message, signer, sk, ring, pv, attempts) == Err::<SigView, RuneError>(
            RuneError::RejectionSamplingFailed,
        ),
        sign_outcome(message, signer, sk, ring, pv, attempts.push(d)) == match attempt_spec(
            message,
            signer,
            sk,
            ring,
            pv,
            d,
        ) {
            Some(sig) => Ok(sig),
            None => Err(RuneError::RejectionSamplingFailed),
        },
    decreases attempts.len(),
{
    if attempts.len() > 0 {
        assert(attempts.push(d).drop_first() =~= attempts.drop_first().push(d));
        assert(attempt_spec(message, signer, sk, ring, pv, attempts[0]) is None);
        assert forall|j: int| 0 <= j < attempts.drop_first().len() implies attempt_spec(
            message,
            signer,
            sk,
            ring,
            pv,
            #[trigger] attempts.drop_first()[j],
        ) is None by {
            assert(attempts.drop_first()[j] == attempts[j + 1]);
        }
        lemma_sign_outcome_step(message, signer, sk, ring, pv, attempts.drop_first(), d);
        assert(attempts.push(d)[0] == attempts[0]);
    } else {
        assert(attempts.push(d).drop_first() =~= Seq::<SignDraws>::empty());
        assert(attempts.push(d)[0] == d);
        assert(sign_outcome(message, signer, sk, ring, pv, Seq::<SignDraws>::empty()) == Err::<SigView, RuneError>(
            RuneError::RejectionSamplingFailed,
        ));
    }
}

/// Rejection sampling over given attempts: tries each in order with
/// `sign_with_draws` and returns the first accepted signature, or
/// `RejectionSamplingFailed` when every attempt is rejected.
pub fn sign_with_attempts(
    message: &[u8],
    signer: usize,
    sk: &SecretKey,
    ring: &[PublicKey],
    params: &Params,
    attempts: &[AttemptDraws],
) -> (r: Result<RingSignature, RuneError>)
    requires
        is_valid_ring(ring@, params@),
        signer < ring@.len(),
        sk@.t == ring@[signer as int].t@,
        forall|j: int|
            0 <= j < attempts@.len() ==> valid_draws(
                #[trigger] attempt_view(attempts@[j]),
                signer as int,
                ring@.len() as int,
                params@,
            ),
    ensures
        result_view(r) == sign_outcome(message@, signer as int, sk@, ring@, params@, attempts_view(attempts@)),
{
    let ghost all = attempts_view(attempts@);
    let mut j: usize = 0;
    while j < attempts.len()
        invariant
            j <= attempts@.len(),
            all == attempts_view(attempts@),
            is_valid_ring(ring@, params@),
            signer < ring@.len(),
            sk@.t == ring@[signer as int].t@,
            forall|i: int|
                0 <= i < attempts@.len() ==> valid_draws(
                    #[trigger] attempt_view(attempts@[i]),
                    signer as int,
                    ring@.len() as int,
                    params@,
                ),
            forall|i: int| 0 <= i < j ==> attempt_spec(message@, signer as int, sk@, ring@, params@, #[trigger] all[i]) is None,
        decreases attempts@.len() - j,
    {
        let a = &attempts[j];
        proof {
            assert(all[j as int] == attempt_view(attempts@[j as int]));
        }
        let result = sign_with_draws(message, signer, sk, ring, params, &a.y_s, &a.y_e, &a.z_s, &a.z_e);
        proof {
            lemma_sign_outcome_step(message@, signer as int, sk@, ring@, params@, all.take(j as int), all[j as int]);
            assert(all.take(j as int).push(all[j as int]) =~= all.take(j + 1));
            lemma_sign_outcome_prefix(message@, signer as int, sk@, ring@, params@, all, j + 1);
        }
        if let Some(sig) = result {
            return Ok(sig);
        }
        j = j + 1;
    }
    proof {
        lemma_sign_outcome_step(message@, signer as int, sk@, ring@, params@, all, all[0]);
    }
    Err(RuneError::RejectionSamplingFailed)
}

/// Signs `message` with the secret key of ring member `signer_index`.
///
/// The signer's commitment starts a chain of challenges that runs around
/// the ring; every other member gets simulated responses, and the signer
/// closes the chain with real responses, retried by rejection sampling up
/// to `max_attempts` times until they fall within the response bound.
///
/// Errors: the ring's own error when it fails validation,
/// `SignerIndexOutOfRange`, `MalformedPublicKey` when the secret key does not
/// belong to the signer's public key, and `RejectionSamplingFailed` when
/// every attempt was rejected.
pub fn ring_sign<R: RandomSource>(
    message: &[u8],
    signer_index: usize,
    sk: &SecretKey,
    ring: &[PublicKey],
    params: &Params,
    rng: &mut R,
) -> (r: Result<RingSignature, RuneError>)
    ensures
        match ring_check(ring@, params@) {
            Err(e) => r == Err::<RingSignature, RuneError>(e),
            Ok(_) => if signer_index >= ring@.len() {
                r == Err::<RingSignature, RuneError>(RuneError::SignerIndexOutOfRange)
            } else if sk@.t != ring@[signer_index as int].t@ {
                r == Err::<RingSignature, RuneError>(RuneError::MalformedPublicKey)
            } else {
                exists|attempts: Seq<SignDraws>|
                    attempts_made(message@, signer_index as int, sk@, ring@, params@, attempts) && result_view(r)
                        == #[trigger] sign_outcome(message@, signer_index as int, sk@, ring@, params@, attempts)
            },
        },
        r matches Ok(sig) ==> sig_shape(sig@, ring@.len() as int, params@),
        r matches Ok(sig) ==> (key_matches(sk@, ring@[0].a@, params@) ==> verify_spec(message@, sig@, ring@, params@)
            == Ok::<bool, RuneError>(true)),
{
    proof {
        use_type_invariant(params);
    }
    let k = ring.len();
    let checked = validate_ring(ring, params);
    if let Err(e) = checked {
        return Err(e);
    }
    proof {
        lemma_ring_check_ok(ring@, params@);
    }
    if signer_index >= k {
        return Err(RuneError::SignerIndexOutOfRange);
    }
    if !poly_eq(sk.t(), &ring[signer_index].t) {
        return Err(RuneError::MalformedPublicKey);
    }
    let attempts = params.max_attempts();
    let mut src = Recorder::new(rng);
    let ghost mut made: Seq<SignDraws> = Seq::empty();
    for attempt in 0..attempts
        invariant
            attempts == params@.max_attempts,
            params@.valid(),
            is_valid_ring(ring@, params@),
            ring_check(ring@, params@) is Ok,
            k == ring@.len(),
            signer_index < k,
            sk@.t == ring@[signer_index as int].t@,
            made.len() == attempt,
            forall|j: int| 0 <= j < made.len() ==> valid_draws(#[trigger] made[j], signer_index as int, k as int, params@),
            forall|j: int|
                0 <= j < made.len() ==> attempt_spec(message@, signer_index as int, sk@, ring@, params@, #[trigger] made[j])
                    is None,
    {
        let (mut y_s, mut y_e, z_s_draws, z_e_draws) = draw_attempt(signer_index, k, params, &mut src);
        let ghost d = draws_view(y_s, y_e, z_s_draws@, z_e_draws@);
        let result = sign_with_draws(message, signer_index, sk, ring, params, &y_s, &y_e, &z_s_draws, &z_e_draws);
        zeroize_poly(&mut y_s);
        zeroize_poly(&mut y_e);
        proof {
            lemma_sign_outcome_step(message@, signer_index as int, sk@, ring@, params@, made, d);
            made = made.push(d);
            assert(made.last() == d);
        }
        match result {
            Some(sig) => {
                proof {
                    assert(attempts_made(message@, signer_index as int, sk@, ring@, params@, made));
                    assert(result_view(Ok::<RingSignature, RuneError>(sig)) == sign_outcome(
                        message@,
                        signer_index as int,
                        sk@,
                        ring@,
                        params@,
                        made,
                    ));
                }
                return Ok(sig);
            },
            None => {},
        }
    }
    proof {
        lemma_sign_outcome_step(message@, signer_index as int, sk@, ring@, params@, made, made[0]);
        assert(attempts_made(message@, signer_index as int, sk@, ring@, params@, made));
    }
    Err(RuneError::RejectionSamplingFailed)
}

} // verus!
