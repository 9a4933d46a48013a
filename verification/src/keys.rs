//! Key generation for Rune.
use vstd::prelude::*;

use crate::error::RuneError;
use crate::math::{
    acceptance_limit, add_spec, cbd_sampled_from, coeffs_bounded, drawn_between, is_cbd_coeff, sampled_from, is_uniform_coeff, is_well_formed, mul_operand_bound, mul_spec, poly_add,
    poly_is_well_formed, poly_mul_schoolbook, sample_cbd, sample_uniform_poly, Poly,
};
use crate::params::{Params, ParamsView};
use crate::rng::{RandomSource, Recorder};

verus! {

/// Rune public key.
#[derive(Clone, Debug, PartialEq, Eq)]
pub struct PublicKey {
    /// Common public ring element shared by every member of a ring.
    pub a: Poly,
    /// Individual Ring-LWE public value `t = a * s + e`.
    pub t: Poly,
}

/// The polynomials of a secret key.
pub ghost struct SecretKeyView {
    pub s: Seq<i64>,
    pub e: Seq<i64>,
    pub t: Seq<i64>,
}

impl SecretKeyView {
    /// `s`, `e` and `t` have one length, and the secrets are short.
    pub open spec fn shaped(self) -> bool {
        &&& self.s.len() == self.t.len()
        &&& self.e.len() == self.t.len()
        &&& coeffs_bounded(self.s, u8::MAX as int)
        &&& coeffs_bounded(self.e, u8::MAX as int)
    }
}

/// `sk` belongs to the shared element `a`: `t = a * s + e` in `R_q`, with
/// `s` and `e` of degree `n` and coefficients within `eta`.
pub open spec fn key_matches(sk: SecretKeyView, a: Seq<i64>, pv: ParamsView) -> bool {
    &&& sk.s.len() == pv.n
    &&& sk.e.len() == pv.n
    &&& coeffs_bounded(sk.s, pv.eta as int)
    &&& coeffs_bounded(sk.e, pv.eta as int)
    &&& sk.t == add_spec(mul_spec(a, sk.s, pv.n, pv.q), sk.e, pv.q)
}

/// Rune secret key: the short secrets `s`, `e` and the public value `t`.
pub struct SecretKey {
    s: Poly,
    e: Poly,
    t: Poly,
}

impl View for SecretKey {
    type V = SecretKeyView;

    closed spec fn view(&self) -> SecretKeyView {
        SecretKeyView { s: self.s@, e: self.e@, t: self.t@ }
    }
}

impl SecretKey {
    /// The secrets are short and all three polynomials have one length.
    #[verifier::type_invariant]
    pub open spec fn inv(&self) -> bool {
        self@.shaped()
    }

    fn new(s: Poly, e: Poly, t: Poly) -> (r: Self)
        requires
            (SecretKeyView { s: s@, e: e@, t: t@ }).shaped(),
        ensures
            r@ == (SecretKeyView { s: s@, e: e@, t: t@ }),
    {
        SecretKey { s, e, t }
    }

    pub(crate) fn s(&self) -> (r: &Poly)
        ensures
            r@ == self@.s,
    {
        &self.s
    }

    pub(crate) fn e(&self) -> (r: &Poly)
        ensures
            r@ == self@.e,
    {
        &self.e
    }

    pub(crate) fn t(&self) -> (r: &Poly)
        ensures
            r@ == self@.t,
    {
        &self.t
    }
}

#[verifier::external_type_specification]
#[verifier::external_body]
pub struct ExDebugStruct<'a, 'b: 'a>(core::fmt::DebugStruct<'a, 'b>);

/// Starts the debug form of a struct through
/// `core::fmt::Formatter::debug_struct`; nothing is claimed of it.
#[verifier::external_body]
fn debug_struct<'a, 'b>(f: &'a mut core::fmt::Formatter<'b>, name: &str) -> (r: core::fmt::DebugStruct<'a, 'b>) {
    f.debug_struct(name)
}

/// Adds a field shown as a string through `core::fmt::DebugStruct::field`;
/// nothing is claimed of it.
#[verifier::external_body]
fn debug_field(b: &mut core::fmt::DebugStruct<'_, '_>, name: &str, value: &str) {
    b.field(name, &value);
}

/// Ends the debug form through `core::fmt::DebugStruct::finish`; nothing is
/// claimed of its result.
#[verifier::external_body]
fn debug_finish(b: &mut core::fmt::DebugStruct<'_, '_>) -> (r: core::fmt::Result) {
    b.finish()
}

/// Shows only that the secret parts are redacted and `t` is public; no
/// coefficient is written.
impl core::fmt::Debug for SecretKey {
    fn fmt(&self, f: &mut core::fmt::Formatter<'_>) -> core::fmt::Result {
        let mut b = debug_struct(f, "SecretKey");
        debug_field(&mut b, "s", "[REDACTED]");
        debug_field(&mut b, "e", "[REDACTED]");
        debug_field(&mut b, "t", "<public>");
        debug_finish(&mut b)
    }
}

/// Generates the common public ring element, uniform in `R_q`.
///
/// Each coefficient is what `uniform_coeff` makes of a word drawn from
/// `rng` and accepted.
pub fn generate_shared_a<R: RandomSource>(params: &Params, rng: &mut R) -> (r: Poly)
    ensures
        is_well_formed(r@, params@),
        forall|i: int| 0 <= i < r@.len() ==> is_uniform_coeff(#[trigger] r@[i], params@.q),
        exists|words: Seq<u64>|
            #[trigger] sampled_from(words, r@, acceptance_limit(params@.q as u64), params@.q, 0, params@.q),
{
    let mut src = Recorder::new(rng);
    let ghost log0 = src.log64();
    let r = sample_uniform_poly(params, &mut src);
    proof {
        let words = drawn_between(log0, src.log64());
        assert(sampled_from(words, r@, acceptance_limit(params@.q as u64), params@.q, 0, params@.q));
    }
    r
}

/// Generates a Rune keypair for the shared element `a`: short `s` and `e`
/// from the centered binomial distribution, and `t = a * s + e`. Each
/// coefficient of `s` and `e` is what `cbd_coeff` makes of `2 * eta`
/// words drawn from `rng`.
///
/// Fails with `MalformedPublicKey` exactly when `a` is not a canonical
/// polynomial for `params`.
pub fn keygen<R: RandomSource>(a: &Poly, params: &Params, rng: &mut R) -> (r: Result<(PublicKey, SecretKey), RuneError>)
    ensures
        r is Err <==> !is_well_formed(a@, params@),
        r matches Err(e) ==> e == RuneError::MalformedPublicKey,
        r matches Ok((pk, sk)) ==> {
            &&& pk.a@ == a@
            &&& pk.t@ == sk@.t
            &&& key_matches(sk@, a@, params@)
            &&& forall|i: int| 0 <= i < sk@.s.len() ==> is_cbd_coeff(#[trigger] sk@.s[i], params@.eta as int)
            &&& forall|i: int| 0 <= i < sk@.e.len() ==> is_cbd_coeff(#[trigger] sk@.e[i], params@.eta as int)
            &&& exists|words: Seq<u32>| #[trigger] cbd_sampled_from(words, sk@.s, params@.eta as int)
            &&& exists|words: Seq<u32>| #[trigger] cbd_sampled_from(words, sk@.e, params@.eta as int)
        },
{
    proof {
        use_type_invariant(params);
    }
    if !poly_is_well_formed(a, params) {
        return Err(RuneError::MalformedPublicKey);
    }
    let mut src = Recorder::new(rng);
    let ghost log0 = src.log32();
    let s = sample_cbd(params, &mut src);
    let ghost log1 = src.log32();
    let e = sample_cbd(params, &mut src);
    proof {
        assert(cbd_sampled_from(drawn_between(log0, log1), s@, params@.eta as int));
        assert(cbd_sampled_from(drawn_between(log1, src.log32()), e@, params@.eta as int));
        assert(params@.eta <= mul_operand_bound());
        assert(params@.half_q() <= mul_operand_bound());
    }
    let a_s = poly_mul_schoolbook(a, &s, params);
    let t = poly_add(&a_s, &e, params);
    let pk = PublicKey { a: a.duplicate(), t: t.duplicate() };
    let sk = SecretKey::new(s, e, t);
    Ok((pk, sk))
}

} // verus!
