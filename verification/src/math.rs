//! Polynomial arithmetic and sampling.
use vstd::prelude::*;

use crate::algebra::{
    center, centered, coeff, ints, lemma_centered, nmul, row_sum, vadd, vsub, xs,
};
use crate::error::RuneError;
use crate::params::{Params, ParamsView, MAX_N, MAX_Q};
use crate::rng::{RandomSource, Recorder};

use vstd::arithmetic::div_mod::{lemma_fundamental_div_mod, lemma_fundamental_div_mod_converse};

verus! {

/// Largest coefficient magnitude accepted by the schoolbook product,
/// `2^59 - 1`: with at most `MAX_N` terms of size `(2^59 - 1)^2` every
/// accumulator stays inside `i128`.
pub open spec fn mul_operand_bound() -> int {
    0x07FF_FFFF_FFFF_FFFF
}

/// Every coefficient of `p` lies in `[-bound, bound]`.
pub open spec fn coeffs_bounded(p: Seq<i64>, bound: int) -> bool {
    forall|i: int| 0 <= i < p.len() ==> -bound <= #[trigger] p[i] <= bound
}

/// `p` has exactly `n` coefficients, each a centered residue modulo `q`.
pub open spec fn is_well_formed(p: Seq<i64>, pv: ParamsView) -> bool {
    &&& p.len() == pv.n
    &&& coeffs_bounded(p, pv.half_q())
}

/// Coefficientwise sum, reduced to centered residues; the shorter operand
/// decides the length.
pub open spec fn add_spec(a: Seq<i64>, b: Seq<i64>, q: int) -> Seq<i64> {
    Seq::new(
        if a.len() <= b.len() { a.len() } else { b.len() },
        |k: int| centered(a[k] + b[k], q) as i64,
    )
}

/// Coefficientwise difference, reduced to centered residues.
pub open spec fn sub_spec(a: Seq<i64>, b: Seq<i64>, q: int) -> Seq<i64> {
    Seq::new(
        if a.len() <= b.len() { a.len() } else { b.len() },
        |k: int| centered(a[k] - b[k], q) as i64,
    )
}

/// The product in `Z_q[X]/(X^n + 1)`, reduced to centered residues.
pub open spec fn mul_spec(a: Seq<i64>, b: Seq<i64>, n: nat, q: int) -> Seq<i64> {
    Seq::new(n, |k: int| centered(nmul(ints(a), ints(b), n)[k], q) as i64)
}

/// Each coefficient replaced by its centered residue.
pub open spec fn reduce_spec(a: Seq<i64>, q: int) -> Seq<i64> {
    Seq::new(a.len(), |k: int| centered(a[k] as int, q) as i64)
}

/// `|x|`, with `i64::MIN` saturating to `i64::MAX`.
pub open spec fn sat_abs(x: i64) -> int {
    if x == i64::MIN {
        i64::MAX as int
    } else if x < 0 {
        -x
    } else {
        x as int
    }
}

/// The infinity norm: the largest saturated absolute value of a
/// coefficient, or 0 for no coefficients.
pub open spec fn infinity_norm(p: Seq<i64>) -> int
    decreases p.len(),
{
    if p.len() == 0 {
        0
    } else {
        let rest = infinity_norm(p.drop_last());
        let last = sat_abs(p.last());
        if last > rest {
            last
        } else {
            rest
        }
    }
}

/// The norm bounds every coefficient, is 0 for no coefficients, and is
/// attained by some coefficient otherwise.
pub proof fn lemma_infinity_norm(p: Seq<i64>)
    ensures
        forall|i: int| 0 <= i < p.len() ==> sat_abs(#[trigger] p[i]) <= infinity_norm(p),
        p.len() == 0 ==> infinity_norm(p) == 0,
        p.len() > 0 ==> exists|i: int| 0 <= i < p.len() && infinity_norm(p) == sat_abs(#[trigger] p[i]),
        0 <= infinity_norm(p) <= i64::MAX,
    decreases p.len(),
{
    if p.len() > 0 {
        let d = p.drop_last();
        lemma_infinity_norm(d);
        assert forall|i: int| 0 <= i < p.len() implies sat_abs(#[trigger] p[i]) <= infinity_norm(p) by {
            if i < p.len() - 1 {
                assert(p[i] == d[i]);
            }
        }
        if sat_abs(p.last()) >= infinity_norm(d) {
            assert(infinity_norm(p) == sat_abs(p[p.len() - 1]));
        } else {
            let j = choose|j: int| 0 <= j < d.len() && infinity_norm(d) == sat_abs(#[trigger] d[j]);
            assert(p[j] == d[j]);
        }
    }
}

/// If every coefficient is within `bound`, so is the norm.
pub proof fn lemma_infinity_norm_le(p: Seq<i64>, bound: int)
    requires
        0 <= bound,
        forall|i: int| 0 <= i < p.len() ==> sat_abs(#[trigger] p[i]) <= bound,
    ensures
        infinity_norm(p) <= bound,
    decreases p.len(),
{
    if p.len() > 0 {
        let d = p.drop_last();
        assert forall|i: int| 0 <= i < d.len() implies sat_abs(#[trigger] d[i]) <= bound by {
            assert(d[i] == p[i]);
        }
        lemma_infinity_norm_le(d, bound);
    }
}

/// A polynomial in `R_q = Z_q[X]/(X^n + 1)`, stored as a centered
/// coefficient vector for the active parameter set.
#[derive(Clone, PartialEq, Eq)]
pub struct Poly(pub Vec<i64>);

#[verifier::external_type_specification]
#[verifier::external_body]
pub struct ExFormatter<'a>(core::fmt::Formatter<'a>);

#[verifier::external_type_specification]
#[verifier::external_body]
pub struct ExFmtError(core::fmt::Error);

/// Writes the debug form of a polynomial's length and norm through
/// `core::write!`; nothing is claimed of the result.
#[verifier::external_body]
fn write_poly_summary(f: &mut core::fmt::Formatter<'_>, n: usize, norm: i64) -> (r: core::fmt::Result) {
    write!(f, "Poly(n={}, ||.||_inf={})", n, norm)
}

/// Shows the degree and the infinity norm, never the coefficients.
impl core::fmt::Debug for Poly {
    fn fmt(&self, f: &mut core::fmt::Formatter<'_>) -> core::fmt::Result {
        let (n, norm) = self.summary();
        write_poly_summary(f, n, norm)
    }
}

impl View for Poly {
    type V = Seq<i64>;

    open spec fn view(&self) -> Seq<i64> {
        self.0@
    }
}

impl Poly {
    /// Builds a polynomial from centered coefficients, rejecting a wrong
    /// length or a non-canonical coefficient.
    pub fn from_coefficients(coefficients: Vec<i64>, params: &Params) -> (r: Result<Self, RuneError>)
        ensures
            match r {
                Ok(p) => p@ == coefficients@ && is_well_formed(coefficients@, params@),
                Err(e) => e == RuneError::MalformedPublicKey && !is_well_formed(
                    coefficients@,
                    params@,
                ),
            },
    {
        let poly = Poly(coefficients);
        if poly_is_well_formed(&poly, params) {
            Ok(poly)
        } else {
            Err(RuneError::MalformedPublicKey)
        }
    }

    /// Number of stored coefficients.
    pub fn len(&self) -> (r: usize)
        ensures
            r == self@.len(),
    {
        self.0.len()
    }

    /// The number of coefficients and the infinity norm: what the debug
    /// form shows of a polynomial.
    pub fn summary(&self) -> (r: (usize, i64))
        ensures
            r.0 == self@.len(),
            r.1 == infinity_norm(self@),
    {
        (self.0.len(), poly_infinity_norm(self))
    }

    /// Whether the polynomial has no coefficients.
    pub fn is_empty(&self) -> (r: bool)
        ensures
            r == (self@.len() == 0),
    {
        self.0.len() == 0
    }

    /// Borrows the centered coefficient vector.
    pub fn coefficients(&self) -> (r: &[i64])
        ensures
            r@ == self@,
    {
        self.0.as_slice()
    }

    /// Mutably borrows the coefficient vector.
    pub fn coefficients_mut(&mut self) -> (r: &mut [i64])
        ensures
            r@ == old(self)@,
            final(self)@ == final(r)@,
    {
        self.0.as_mut_slice()
    }

    /// A copy with the same coefficients.
    pub(crate) fn duplicate(&self) -> (r: Poly)
        ensures
            r@ == self@,
    {
        Poly(self.0.clone())
    }
}

/// Coefficientwise equality of two polynomials.
pub(crate) fn poly_eq(a: &Poly, b: &Poly) -> (r: bool)
    ensures
        r == (a@ == b@),
{
    if a.0.len() != b.0.len() {
        return false;
    }
    let len = a.0.len();
    for i in 0..len
        invariant
            len == a@.len(),
            len == b@.len(),
            forall|j: int| 0 <= j < i ==> a@[j] == b@[j],
    {
        if a.0[i] != b.0[i] {
            return false;
        }
    }
    assert(a@ =~= b@);
    true
}

/// Overwrites the coefficients of `p` with zeros and leaves it empty, through
/// `zeroize::Zeroize::zeroize` on its `Vec<i64>` (which zeroes the elements
/// and the spare capacity, then clears the vector).
#[verifier::external_body]
pub(crate) fn zeroize_poly(p: &mut Poly)
    ensures
        final(p)@ == Seq::<i64>::empty(),
{
    zeroize::Zeroize::zeroize(&mut p.0)
}

/// The zero polynomial of degree `n`.
pub fn zero_poly(params: &Params) -> (r: Poly)
    ensures
        r@ == Seq::new(params@.n, |i: int| 0i64),
        is_well_formed(r@, params@),
{
    proof {
        use_type_invariant(params);
    }
    let r = Poly(vec![0i64; params.n()]);
    assert(r@ =~= Seq::new(params@.n, |i: int| 0i64));
    r
}

/// The centered residue of `x` modulo `q`.
pub fn poly_reduce_mod_q(x: i128, q: i64) -> (r: i64)
    requires
        q > 0,
    ensures
        r == centered(x as int, q as int),
{
    let modulus = q as i128;
    let mut reduced = x % modulus;
    proof {
        let xi = x as int;
        let m = q as int;
        if xi >= 0 {
            assert(reduced == xi % m);
        } else {
            let t = (-xi) % m;
            let d = (-xi) / m;
            lemma_fundamental_div_mod(-xi, m);
            vstd::arithmetic::div_mod::lemma_mod_bound(-xi, m);
            assert(reduced == -t);
            if t == 0 {
                assert(xi == (-d) * m + 0) by (nonlinear_arith)
                    requires -xi == m * d + t, t == 0;
                lemma_fundamental_div_mod_converse(xi, m, -d, 0);
            } else {
                assert(xi == (-d - 1) * m + (m - t)) by (nonlinear_arith)
                    requires -xi == m * d + t;
                lemma_fundamental_div_mod_converse(xi, m, -d - 1, m - t);
            }
        }
    }
    if reduced < 0 {
        reduced += modulus;
    }
    let half = modulus / 2;
    if reduced > half {
        reduced -= modulus;
    }
    reduced as i64
}

/// Whether `poly` has exactly `n` coefficients, each in `[-(q-1)/2, (q-1)/2]`.
pub fn poly_is_well_formed(poly: &Poly, params: &Params) -> (r: bool)
    ensures
        r == is_well_formed(poly@, params@),
{
    proof {
        use_type_invariant(params);
    }
    if poly.0.len() != params.n() {
        return false;
    }
    let half_q = (params.q() - 1) / 2;
    let len = poly.0.len();
    for i in 0..len
        invariant
            len == poly@.len(),
            half_q == params@.half_q(),
            params@.valid(),
            forall|j: int| 0 <= j < i ==> -half_q <= #[trigger] poly@[j] <= half_q,
    {
        let c = poly.0[i];
        if !(-half_q <= c && c <= half_q) {
            return false;
        }
    }
    true
}

/// Coefficientwise `a + b` with each coefficient reduced to its centered
/// residue; the shorter operand decides the length.
pub fn poly_add(a: &Poly, b: &Poly, params: &Params) -> (r: Poly)
    ensures
        r@ == add_spec(a@, b@, params@.q),
{
    proof {
        use_type_invariant(params);
    }
    let q = params.q();
    let len = if a.0.len() <= b.0.len() { a.0.len() } else { b.0.len() };
    let mut coeffs: Vec<i64> = Vec::with_capacity(len);
    for i in 0..len
        invariant
            q == params@.q,
            q > 0,
            len <= a@.len(),
            len <= b@.len(),
            len == (if a@.len() <= b@.len() { a@.len() } else { b@.len() }),
            coeffs@.len() == i,
            forall|j: int| 0 <= j < i ==> coeffs@[j] == centered(a@[j] + b@[j], q as int) as i64,
    {
        let c = poly_reduce_mod_q((a.0[i] as i128) + (b.0[i] as i128), q);
        coeffs.push(c);
    }
    let r = Poly(coeffs);
    assert(r@ =~= add_spec(a@, b@, params@.q));
    r
}

/// Coefficientwise `a - b` with each coefficient reduced to its centered
/// residue; the shorter operand decides the length.
pub fn poly_sub(a: &Poly, b: &Poly, params: &Params) -> (r: Poly)
    ensures
        r@ == sub_spec(a@, b@, params@.q),
{
    proof {
        use_type_invariant(params);
    }
    let q = params.q();
    let len = if a.0.len() <= b.0.len() { a.0.len() } else { b.0.len() };
    let mut coeffs: Vec<i64> = Vec::with_capacity(len);
    for i in 0..len
        invariant
            q == params@.q,
            q > 0,
            len <= a@.len(),
            len <= b@.len(),
            len == (if a@.len() <= b@.len() { a@.len() } else { b@.len() }),
            coeffs@.len() == i,
            forall|j: int| 0 <= j < i ==> coeffs@[j] == centered(a@[j] - b@[j], q as int) as i64,
    {
        let c = poly_reduce_mod_q((a.0[i] as i128) - (b.0[i] as i128), q);
        coeffs.push(c);
    }
    let r = Poly(coeffs);
    assert(r@ =~= sub_spec(a@, b@, params@.q));
    r
}

/// Contribution of row `i` (columns `j < cols`) of the schoolbook product to
/// coefficient `k`.
pub open spec fn partial_row(a: Seq<int>, b: Seq<int>, n: int, i: int, cols: int, k: int) -> int {
    if i <= k {
        if k - i < cols {
            a[i] * b[k - i]
        } else {
            0
        }
    } else {
        if k - i + n < cols {
            -(a[i] * b[k - i + n])
        } else {
            0
        }
    }
}

/// Bound on one product of two operands within `mul_operand_bound()`:
/// `(2^59 - 1)^2`.
pub open spec fn product_bound() -> int {
    0x3F_FFFF_FFFF_FFFF_F000_0000_0000_0001
}

proof fn lemma_product_bound(x: int, y: int)
    requires
        -mul_operand_bound() <= x <= mul_operand_bound(),
        -mul_operand_bound() <= y <= mul_operand_bound(),
    ensures
        -product_bound() <= x * y <= product_bound(),
{
    let b = mul_operand_bound();
    assert(b * b == product_bound());
    if x >= 0 && y >= 0 {
        assert(x * y <= b * b) by (nonlinear_arith)
            requires 0 <= x <= b, 0 <= y <= b;
        assert(x * y >= 0) by (nonlinear_arith)
            requires 0 <= x, 0 <= y;
    } else if x >= 0 {
        assert(x * (-y) <= b * b) by (nonlinear_arith)
            requires 0 <= x <= b, 0 <= -y <= b;
        assert(x * (-y) >= 0) by (nonlinear_arith)
            requires 0 <= x, 0 <= -y;
        assert(x * y == -(x * (-y))) by (nonlinear_arith);
    } else if y >= 0 {
        assert((-x) * y <= b * b) by (nonlinear_arith)
            requires 0 <= -x <= b, 0 <= y <= b;
        assert((-x) * y >= 0) by (nonlinear_arith)
            requires 0 <= -x, 0 <= y;
        assert(x * y == -((-x) * y)) by (nonlinear_arith);
    } else {
        assert((-x) * (-y) <= b * b) by (nonlinear_arith)
            requires 0 <= -x <= b, 0 <= -y <= b;
        assert((-x) * (-y) >= 0) by (nonlinear_arith)
            requires 0 <= -x, 0 <= -y;
        assert(x * y == (-x) * (-y)) by (nonlinear_arith);
    }
}

/// Each row adds at most one product of bounded operands to a coefficient.
proof fn lemma_row_sum_bound(a: Seq<int>, b: Seq<int>, n: int, rows: int, k: int)
    requires
        0 <= rows,
        0 <= k < n,
        forall|i: int| 0 <= i < a.len() ==> -mul_operand_bound() <= #[trigger] a[i] <= mul_operand_bound(),
        forall|i: int| 0 <= i < b.len() ==> -mul_operand_bound() <= #[trigger] b[i] <= mul_operand_bound(),
    ensures
        -rows * product_bound() <= row_sum(a, b, n, rows, k)
            <= rows * product_bound(),
    decreases rows,
{
    if rows > 0 {
        lemma_row_sum_bound(a, b, n, rows - 1, k);
        let i = rows - 1;
        let x = coeff(a, i);
        let y = xs(b, n, i, k);
        assert(-mul_operand_bound() <= y <= mul_operand_bound());
        lemma_product_bound(x, y);
    }
}

/// Rows past the end of `a` contribute nothing.
proof fn lemma_row_sum_past_end(a: Seq<int>, b: Seq<int>, n: int, rows: int, k: int)
    requires
        a.len() <= rows,
    ensures
        row_sum(a, b, n, rows, k) == row_sum(a, b, n, a.len() as int, k),
    decreases rows,
{
    if rows > a.len() {
        lemma_row_sum_past_end(a, b, n, rows - 1, k);
    }
}

/// Multiplies two polynomials in `R_q = Z_q[X]/(X^n + 1)` (schoolbook,
/// `O(n^2)`): exact products accumulate in `i128`, terms that wrap past
/// `X^n` are subtracted, and each coefficient is then reduced to its centered
/// residue.
pub fn poly_mul_schoolbook(a: &Poly, b: &Poly, params: &Params) -> (r: Poly)
    requires
        a@.len() <= params@.n,
        b@.len() <= params@.n,
        coeffs_bounded(a@, mul_operand_bound()),
        coeffs_bounded(b@, mul_operand_bound()),
    ensures
        r@ == mul_spec(a@, b@, params@.n, params@.q),
{
    proof {
        use_type_invariant(params);
    }
    let n = params.n();
    let q = params.q();
    let ghost ai = ints(a@);
    let ghost bi = ints(b@);
    let mut acc: Vec<i128> = vec![0i128; n];
    assert forall|k: int| 0 <= k < n implies acc@[k] == row_sum(ai, bi, n as int, 0, k) by {}
    let alen = a.0.len();
    let blen = b.0.len();
    for i in 0..alen
        invariant
            n == params@.n,
            0 < n <= MAX_N,
            alen == a@.len(),
            blen == b@.len(),
            alen <= n,
            blen <= n,
            ai == ints(a@),
            bi == ints(b@),
            coeffs_bounded(a@, mul_operand_bound()),
            coeffs_bounded(b@, mul_operand_bound()),
            acc@.len() == n,
            forall|k: int| 0 <= k < n ==> acc@[k] == row_sum(ai, bi, n as int, i as int, k),
    {
        let ghost before = acc@;
        for j in 0..blen
            invariant
                n == params@.n,
                0 < n <= MAX_N,
                alen == a@.len(),
                blen == b@.len(),
                alen <= n,
                blen <= n,
                i < alen,
                ai == ints(a@),
                bi == ints(b@),
                coeffs_bounded(a@, mul_operand_bound()),
                coeffs_bounded(b@, mul_operand_bound()),
                acc@.len() == n,
                forall|k: int| 0 <= k < n ==> before[k] == row_sum(ai, bi, n as int, i as int, k),
                forall|k: int|
                    0 <= k < n ==> acc@[k] == before[k] + partial_row(ai, bi, n as int, i as int, j as int, k),
        {
            let x = a.0[i];
            let y = b.0[j];
            proof {
                lemma_product_bound(x as int, y as int);
            }
            let product = (x as i128) * (y as i128);
            let degree = i + j;
            proof {
                lemma_row_sum_bound(ai, bi, n as int, i as int, degree as int % n as int);
            }
            if degree < n {
                proof {
                    lemma_row_sum_bound(ai, bi, n as int, i as int, degree as int);
                }
                let cur = acc[degree];
                acc.set(degree, cur + product);
            } else {
                proof {
                    lemma_row_sum_bound(ai, bi, n as int, i as int, degree - n);
                }
                let cur = acc[degree - n];
                acc.set(degree - n, cur - product);
            }
        }
        assert forall|k: int| 0 <= k < n implies acc@[k] == row_sum(ai, bi, n as int, i + 1, k) by {
            assert(ai.len() == alen && bi.len() == blen);
            let x = ai[i as int];
            if k < i {
                let y = coeff(bi, k - i + n);
                assert(x * (-y) == -(x * y)) by (nonlinear_arith);
            }
            assert(partial_row(ai, bi, n as int, i as int, blen as int, k)
                == coeff(ai, i as int) * xs(bi, n as int, i as int, k));
        }
    }
    let mut coeffs: Vec<i64> = Vec::with_capacity(n);
    for k in 0..n
        invariant
            n == params@.n,
            q == params@.q,
            q > 0,
            acc@.len() == n,
            forall|t: int| 0 <= t < n ==> acc@[t] == row_sum(ai, bi, n as int, alen as int, t),
            alen == a@.len(),
            alen <= n,
            ai == ints(a@),
            bi == ints(b@),
            coeffs@.len() == k,
            forall|t: int|
                0 <= t < k ==> coeffs@[t] == centered(nmul(ai, bi, n as nat)[t], q as int) as i64,
    {
        proof {
            lemma_row_sum_past_end(ai, bi, n as int, n as int, k as int);
        }
        let c = poly_reduce_mod_q(acc[k], q);
        coeffs.push(c);
    }
    let r = Poly(coeffs);
    assert(r@ =~= mul_spec(a@, b@, params@.n, params@.q));
    r
}

/// Infinity norm: the largest absolute coefficient, with `i64::MIN`
/// saturating to `i64::MAX`, and 0 for an empty polynomial. Not constant time.
pub fn poly_infinity_norm(a: &Poly) -> (r: i64)
    ensures
        r == infinity_norm(a@),
{
    let mut best: i64 = 0;
    let len = a.0.len();
    for i in 0..len
        invariant
            len == a@.len(),
            best >= 0,
            best == infinity_norm(a@.subrange(0, i as int)),
    {
        proof {
            assert(a@.subrange(0, i + 1).drop_last() =~= a@.subrange(0, i as int));
            lemma_infinity_norm(a@.subrange(0, i as int));
        }
        let c = a.0[i];
        let abs = if c == i64::MIN {
            i64::MAX
        } else if c < 0 {
            -c
        } else {
            c
        };
        assert(abs == sat_abs(a@[i as int]));
        if abs > best {
            best = abs;
        }
    }
    assert(a@.subrange(0, len as int) =~= a@);
    best
}

/// The rejection threshold for drawing below `bound`: the largest multiple
/// of `bound` that fits in a `u64` word range.
pub open spec fn acceptance_limit(bound: u64) -> int {
    u64::MAX - (u64::MAX % bound)
}

/// Turns one random word into a value below `bound`, or rejects it: words
/// at or above the largest multiple of `bound` are rejected so that the
/// accepted values are unbiased.
pub fn accept_below(sample: u64, bound: u64) -> (r: Option<u64>)
    requires
        bound > 0,
    ensures
        r == (if sample < acceptance_limit(bound) {
            Some((sample % bound) as u64)
        } else {
            None::<u64>
        }),
{
    let max_acceptable = u64::MAX - (u64::MAX % bound);
    if sample < max_acceptable {
        Some(sample % bound)
    } else {
        None
    }
}

/// What rejection sampling modulo `q` makes of one drawn word: `None` for a
/// word at or above the largest multiple of `q`, and otherwise the centered
/// residue of the word.
pub open spec fn uniform_coeff_spec(word: u64, q: int) -> Option<i64> {
    if word < acceptance_limit(q as u64) {
        Some(centered(word as int % q, q) as i64)
    } else {
        None
    }
}

/// `c` is what rejection sampling modulo `q` makes of some accepted word.
pub open spec fn is_uniform_coeff(c: i64, q: int) -> bool {
    exists|word: u64| #[trigger] uniform_coeff_spec(word, q) == Some(c)
}

/// Turns one drawn word into a coefficient uniform modulo `q`, or rejects
/// it.
pub fn uniform_coeff(word: u64, params: &Params) -> (r: Option<i64>)
    ensures
        r == uniform_coeff_spec(word, params@.q),
{
    proof {
        use_type_invariant(params);
    }
    let q = params.q();
    match accept_below(word, q as u64) {
        Some(v) => Some(poly_reduce_mod_q(v as i128, q)),
        None => None,
    }
}

/// A residue below `q` is itself an accepted word.
proof fn lemma_residue_accepted(v: u64, q: int)
    requires
        2 < q < MAX_Q,
        q % 2 == 1,
        v < q,
    ensures
        uniform_coeff_spec(v, q) == Some(centered(v as int, q) as i64),
{
    lemma_value_accepted(v, q);
}

/// The blocks laid end to end.
pub open spec fn joined<T>(blocks: Seq<Seq<T>>) -> Seq<T>
    decreases blocks.len(),
{
    if blocks.len() == 0 {
        Seq::empty()
    } else {
        joined(blocks.drop_last()) + blocks.last()
    }
}

proof fn lemma_joined_push<T>(blocks: Seq<Seq<T>>, b: Seq<T>)
    ensures
        joined(blocks.push(b)) == joined(blocks) + b,
{
    assert(blocks.push(b).drop_last() =~= blocks);
}

/// The words that one coefficient of rejection sampling consumes: every
/// word but the last is at or above `limit` (rejected), and the last is
/// below it (accepted), unless `u64::MAX` words in a row were rejected and
/// one more was drawn.
pub open spec fn draw_block(b: Seq<u64>, limit: int) -> bool {
    &&& 1 <= b.len() <= u64::MAX as int + 1
    &&& forall|j: int| 0 <= j < b.len() - 1 ==> #[trigger] b[j] >= limit
    &&& (b.last() < limit || b.len() == u64::MAX as int + 1)
}

/// `words` split into one block per coefficient of `r`, each block drawn
/// by rejection below `limit`, with coefficient `i` the centered residue
/// modulo `q` of `(last word of block i) % m - shift`.
pub open spec fn sampled_from(words: Seq<u64>, r: Seq<i64>, limit: int, m: int, shift: int, q: int) -> bool {
    exists|blocks: Seq<Seq<u64>>|
        {
            &&& blocks.len() == r.len()
            &&& joined(blocks) == words
            &&& forall|i: int|
                0 <= i < blocks.len() ==> draw_block(#[trigger] blocks[i], limit) && r[i] as int == centered(
                    blocks[i].last() as int % m - shift,
                    q,
                )
        }
}

/// The words drawn from `src` during a call: `before` extended by them is
/// `after`.
pub open spec fn drawn_between<T>(before: Seq<T>, after: Seq<T>) -> Seq<T> {
    after.subrange(before.len() as int, after.len() as int)
}

/// `after` extends `before`.
pub open spec fn extends<T>(before: Seq<T>, after: Seq<T>) -> bool {
    before.len() <= after.len() && after.subrange(0, before.len() as int) == before
}

/// Draws a polynomial with each coefficient uniform modulo `q`, by rejection
/// sampling words below the largest multiple of `q`. After `u64::MAX`
/// consecutive rejections the last word is reduced without rejection, so the
/// loop always ends.
///
/// Every coefficient takes words of its own: the words drawn during the call
/// split into one block per coefficient, and coefficient `i` is the
/// centered residue modulo `q` of the accepted word that ends block `i`.
pub(crate) fn sample_uniform_poly<R: RandomSource>(params: &Params, src: &mut Recorder<'_, R>) -> (r: Poly)
    ensures
        is_well_formed(r@, params@),
        forall|i: int| 0 <= i < r@.len() ==> is_uniform_coeff(#[trigger] r@[i], params@.q),
        extends(old(src).log64(), final(src).log64()),
        final(src).log32() == old(src).log32(),
        sampled_from(
            drawn_between(old(src).log64(), final(src).log64()),
            r@,
            acceptance_limit(params@.q as u64),
            params@.q,
            0,
            params@.q,
        ),
{
    proof {
        use_type_invariant(params);
    }
    let q = params.q();
    let q_u = q as u64;
    let n = params.n();
    let ghost log0 = src.log64();
    let ghost log32 = src.log32();
    let ghost limit = acceptance_limit(q_u);
    let ghost mut blocks: Seq<Seq<u64>> = Seq::empty();
    let mut coeffs: Vec<i64> = Vec::with_capacity(n);
    for i in 0..n
        invariant
            q == params@.q,
            q_u == q,
            limit == acceptance_limit(q_u),
            params@.valid(),
            n == params@.n,
            coeffs@.len() == i,
            coeffs_bounded(coeffs@, params@.half_q()),
            forall|j: int| 0 <= j < i ==> is_uniform_coeff(#[trigger] coeffs@[j], q as int),
            src.log64() == log0 + joined(blocks),
            src.log32() == log32,
            blocks.len() == i,
            forall|j: int|
                0 <= j < i ==> draw_block(#[trigger] blocks[j], limit) && coeffs@[j] as int == centered(
                    blocks[j].last() as int % q as int,
                    q as int,
                ),
    {
        let mut word = src.next_u64();
        let ghost mut b: Seq<u64> = seq![word];
        let mut drawn = uniform_coeff(word, params);
        let mut tries: u64 = 0;
        while drawn.is_none() && tries < u64::MAX
            invariant
                q == params@.q,
                q_u == q,
                limit == acceptance_limit(q_u),
                drawn == uniform_coeff_spec(word, q as int),
                b.len() == tries + 1,
                b.last() == word,
                forall|j: int| 0 <= j < b.len() - 1 ==> #[trigger] b[j] >= limit,
                src.log64() == log0 + joined(blocks) + b,
                src.log32() == log32,
            decreases u64::MAX - tries,
        {
            let ghost prev = b;
            word = src.next_u64();
            proof {
                b = b.push(word);
                assert(prev.last() >= limit);
                assert forall|j: int| 0 <= j < b.len() - 1 implies #[trigger] b[j] >= limit by {
                    if j < prev.len() - 1 {
                        assert(b[j] == prev[j]);
                    }
                }
                assert(log0 + joined(blocks) + b =~= (log0 + joined(blocks) + prev).push(word));
            }
            drawn = uniform_coeff(word, params);
            tries += 1;
        }
        let c = match drawn {
            Some(c) => c,
            None => poly_reduce_mod_q((word % q_u) as i128, q),
        };
        proof {
            if drawn is Some {
                lemma_centered((word % q_u) as int, q as int);
                assert(uniform_coeff_spec(word, q as int) == Some(c));
            } else {
                lemma_residue_accepted(word % q_u, q as int);
                assert(uniform_coeff_spec(word % q_u, q as int) == Some(c));
            }
            lemma_centered((word % q_u) as int, q as int);
            assert(centered(word as int % q as int, q as int) == c as int);
            assert(draw_block(b, limit));
            lemma_joined_push(blocks, b);
            assert(log0 + joined(blocks) + b =~= log0 + (joined(blocks) + b));
            blocks = blocks.push(b);
        }
        coeffs.push(c);
    }
    proof {
        assert(drawn_between(log0, src.log64()) =~= joined(blocks));
        assert(src.log64().subrange(0, log0.len() as int) =~= log0);
    }
    Poly(coeffs)
}

/// The low bit of a drawn word.
pub open spec fn low_bit(w: u32) -> int {
    (w & 1) as int
}

/// The centered binomial value of drawn words taken in pairs: the low bits
/// of the first word of each pair, minus those of the second.
pub open spec fn cbd_spec(words: Seq<u32>) -> int
    decreases words.len(),
{
    if words.len() < 2 {
        0
    } else {
        let k = words.len() as int;
        cbd_spec(words.subrange(0, k - 2)) + low_bit(words[k - 2]) - low_bit(words[k - 1])
    }
}

/// `c` is the centered binomial value of `2 * eta` drawn words.
pub open spec fn is_cbd_coeff(c: i64, eta: int) -> bool {
    exists|words: Seq<u32>| words.len() == 2 * eta && #[trigger] cbd_spec(words) == c as int
}

proof fn lemma_low_bit(w: u32)
    ensures
        0 <= low_bit(w) <= 1,
{
    assert((w & 1) <= 1) by (bit_vector);
}

proof fn lemma_cbd_bound(words: Seq<u32>)
    requires
        words.len() % 2 == 0,
    ensures
        -(words.len() / 2) <= cbd_spec(words) <= words.len() / 2,
    decreases words.len(),
{
    if words.len() >= 2 {
        let k = words.len() as int;
        lemma_cbd_bound(words.subrange(0, k - 2));
        lemma_low_bit(words[k - 2]);
        lemma_low_bit(words[k - 1]);
    }
}

/// The centered binomial coefficient of drawn words taken in pairs.
pub fn cbd_coeff(words: &[u32]) -> (r: i64)
    requires
        words@.len() % 2 == 0,
    ensures
        r == cbd_spec(words@),
{
    let len = words.len();
    let pairs = len / 2;
    let mut lhs: i64 = 0;
    let mut rhs: i64 = 0;
    for t in 0..pairs
        invariant
            len == words@.len(),
            pairs == len / 2,
            words@.len() % 2 == 0,
            0 <= lhs <= t,
            0 <= rhs <= t,
            lhs - rhs == cbd_spec(words@.subrange(0, 2 * t)),
    {
        assert(2 * t + 1 < words@.len());
        let x = words[2 * t];
        let y = words[2 * t + 1];
        proof {
            lemma_low_bit(x);
            lemma_low_bit(y);
            let prefix = words@.subrange(0, 2 * t + 2);
            assert(prefix.subrange(0, 2 * t as int) =~= words@.subrange(0, 2 * t as int));
            assert(prefix[2 * t as int] == x);
            assert(prefix[2 * t + 1] == y);
        }
        lhs += (x & 1) as i64;
        rhs += (y & 1) as i64;
    }
    proof {
        assert(words@.subrange(0, 2 * pairs as int) =~= words@);
    }
    lhs - rhs
}

/// `words` holds `2 * eta` words for each coefficient of `r`, in order, and
/// coefficient `i` is the centered binomial value of block `i`:
/// `words[2 * eta * i .. 2 * eta * (i + 1)]`.
pub open spec fn cbd_sampled_from(words: Seq<u32>, r: Seq<i64>, eta: int) -> bool {
    &&& words.len() == 2 * eta * r.len()
    &&& forall|i: int|
        0 <= i < r.len() ==> #[trigger] r[i] as int == cbd_spec(words.subrange(2 * eta * i, 2 * eta * (i + 1)))
}

/// Draws a polynomial from the centered binomial distribution: each
/// coefficient is the difference of two sums of `eta` random bits, drawn in
/// turn from `2 * eta` words of its own.
pub(crate) fn sample_cbd<R: RandomSource>(params: &Params, src: &mut Recorder<'_, R>) -> (r: Poly)
    ensures
        r@.len() == params@.n,
        coeffs_bounded(r@, params@.eta as int),
        forall|i: int| 0 <= i < r@.len() ==> is_cbd_coeff(#[trigger] r@[i], params@.eta as int),
        extends(old(src).log32(), final(src).log32()),
        final(src).log64() == old(src).log64(),
        cbd_sampled_from(drawn_between(old(src).log32(), final(src).log32()), r@, params@.eta as int),
{
    let n = params.n();
    let eta = params.eta();
    let ghost log0 = src.log32();
    let ghost log64 = src.log64();
    let ghost e = eta as int;
    let ghost mut d: Seq<u32> = Seq::empty();
    let mut coeffs: Vec<i64> = Vec::with_capacity(n);
    assert(2 * e * 0 == 0);
    for i in 0..n
        invariant
            n == params@.n,
            eta == params@.eta,
            e == eta,
            coeffs@.len() == i,
            coeffs_bounded(coeffs@, eta as int),
            forall|j: int| 0 <= j < i ==> is_cbd_coeff(#[trigger] coeffs@[j], eta as int),
            src.log32() == log0 + d,
            src.log64() == log64,
            d.len() == 2 * e * i,
            forall|j: int|
                0 <= j < i ==> #[trigger] coeffs@[j] as int == cbd_spec(d.subrange(2 * e * j, 2 * e * (j + 1))),
    {
        let mut words: Vec<u32> = Vec::with_capacity(2 * eta as usize);
        for t in 0..eta
            invariant
                words@.len() == 2 * t,
                src.log32() == log0 + d + words@,
                src.log64() == log64,
        {
            let x = src.next_u32();
            words.push(x);
            let y = src.next_u32();
            words.push(y);
            proof {
                assert(log0 + d + words@ =~= (log0 + d + words@.drop_last().drop_last()).push(x).push(y));
            }
        }
        let c = cbd_coeff(words.as_slice());
        proof {
            lemma_cbd_bound(words@);
            assert(words@.len() == 2 * eta);
            assert(cbd_spec(words@) == c as int);
            let d2 = d + words@;
            assert(2 * e * (i + 1) == 2 * e * i + 2 * e) by (nonlinear_arith);
            assert forall|j: int| 0 <= j < i implies #[trigger] coeffs@[j] as int == cbd_spec(
                d2.subrange(2 * e * j, 2 * e * (j + 1)),
            ) by {
                assert(2 * e * (j + 1) <= 2 * e * i) by (nonlinear_arith)
                    requires
                        j + 1 <= i,
                        e >= 0,
                ;
                assert(0 <= 2 * e * j) by (nonlinear_arith)
                    requires
                        j >= 0,
                        e >= 0,
                ;
                assert(2 * e * j <= 2 * e * (j + 1)) by (nonlinear_arith)
                    requires
                        e >= 0,
                ;
                let lo = 2 * e * j;
                let hi = 2 * e * (j + 1);
                assert(hi <= d.len());
                assert forall|k: int| 0 <= k < hi - lo implies d2.subrange(lo, hi)[k] == d.subrange(lo, hi)[k] by {
                    assert(d2[lo + k] == d[lo + k]);
                }
                assert(d2.subrange(lo, hi) =~= d.subrange(lo, hi));
            }
            assert(d2.subrange(2 * e * i, 2 * e * (i + 1)) =~= words@);
            assert(log0 + d + words@ =~= log0 + d2);
            d = d2;
        }
        coeffs.push(c);
    }
    proof {
        assert(drawn_between(log0, src.log32()) =~= d);
        assert(src.log32().subrange(0, log0.len() as int) =~= log0);
    }
    Poly(coeffs)
}

/// `c` is the centered residue modulo `q` of some value in `[-bound, bound]`.
pub open spec fn is_bounded_sample(c: i64, bound: int, q: int) -> bool {
    exists|x: int| -bound <= x <= bound && #[trigger] centered(x, q) == c as int
}

/// What bounded sampling makes of one drawn word: `None` for a word at or
/// above the largest multiple of `2 * bound + 1`, and otherwise the
/// centered residue of `word % (2 * bound + 1) - bound`.
pub open spec fn bounded_coeff_spec(word: u64, bound: int, q: int) -> Option<i64> {
    let range = 2 * bound + 1;
    if word < acceptance_limit(range as u64) {
        Some(centered(word as int % range - bound, q) as i64)
    } else {
        None
    }
}

/// `c` is what bounded sampling makes of some accepted word.
pub open spec fn is_bounded_coeff(c: i64, bound: int, q: int) -> bool {
    exists|word: u64| #[trigger] bounded_coeff_spec(word, bound, q) == Some(c)
}

/// Turns one drawn word into a coefficient uniform over the centered
/// residues of `[-bound, bound]`, or rejects it.
pub fn bounded_coeff(word: u64, bound: i64, params: &Params) -> (r: Option<i64>)
    requires
        0 <= bound,
        2 * bound + 1 <= i64::MAX,
    ensures
        r == bounded_coeff_spec(word, bound as int, params@.q),
{
    proof {
        use_type_invariant(params);
    }
    let range = (2 * bound + 1) as u64;
    match accept_below(word, range) {
        Some(v) => Some(poly_reduce_mod_q((v as i64 - bound) as i128, params.q())),
        None => None,
    }
}

/// A value below the range is itself an accepted word.
proof fn lemma_value_accepted(v: u64, range: int)
    requires
        0 < range <= i64::MAX,
        v < range,
    ensures
        v < acceptance_limit(range as u64),
        v as int % range == v,
{
    let m = u64::MAX as int;
    assert(m % range < range) by (nonlinear_arith)
        requires
            range > 0,
    ;
    lemma_fundamental_div_mod_converse(v as int, range, 0, v as int);
}

/// Draws a polynomial whose coefficients are centered residues of values
/// drawn uniformly from `[-bound, bound]`, by rejection sampling words below
/// the largest multiple of `2 * bound + 1`. After `u64::MAX` consecutive
/// rejections the last word is reduced without rejection, so the loop always
/// ends.
///
/// Every coefficient takes words of its own: the words drawn during the call
/// split into one block per coefficient, and coefficient `i` is the
/// centered residue of `w % (2 * bound + 1) - bound` for the accepted word
/// `w` that ends block `i`.
pub(crate) fn sample_bounded_poly<R: RandomSource>(bound: i64, params: &Params, src: &mut Recorder<'_, R>) -> (r: Poly)
    requires
        0 <= bound,
        2 * bound + 1 <= i64::MAX,
    ensures
        is_well_formed(r@, params@),
        forall|i: int| 0 <= i < r@.len() ==> is_bounded_sample(#[trigger] r@[i], bound as int, params@.q),
        forall|i: int| 0 <= i < r@.len() ==> is_bounded_coeff(#[trigger] r@[i], bound as int, params@.q),
        extends(old(src).log64(), final(src).log64()),
        final(src).log32() == old(src).log32(),
        sampled_from(
            drawn_between(old(src).log64(), final(src).log64()),
            r@,
            acceptance_limit((2 * bound + 1) as u64),
            2 * bound + 1,
            bound as int,
            params@.q,
        ),
{
    proof {
        use_type_invariant(params);
    }
    let range = (2 * bound + 1) as u64;
    let n = params.n();
    let q = params.q();
    let ghost log0 = src.log64();
    let ghost log32 = src.log32();
    let ghost limit = acceptance_limit(range);
    let ghost mut blocks: Seq<Seq<u64>> = Seq::empty();
    let mut coeffs: Vec<i64> = Vec::with_capacity(n);
    for i in 0..n
        invariant
            q == params@.q,
            params@.valid(),
            n == params@.n,
            range == 2 * bound + 1,
            limit == acceptance_limit(range),
            0 <= bound,
            2 * bound + 1 <= i64::MAX,
            coeffs@.len() == i,
            coeffs_bounded(coeffs@, params@.half_q()),
            forall|j: int| 0 <= j < i ==> is_bounded_sample(#[trigger] coeffs@[j], bound as int, q as int),
            forall|j: int| 0 <= j < i ==> is_bounded_coeff(#[trigger] coeffs@[j], bound as int, q as int),
            src.log64() == log0 + joined(blocks),
            src.log32() == log32,
            blocks.len() == i,
            forall|j: int|
                0 <= j < i ==> draw_block(#[trigger] blocks[j], limit) && coeffs@[j] as int == centered(
                    blocks[j].last() as int % range as int - bound,
                    q as int,
                ),
    {
        let mut word = src.next_u64();
        let ghost mut b: Seq<u64> = seq![word];
        let mut drawn = bounded_coeff(word, bound, params);
        let mut tries: u64 = 0;
        while drawn.is_none() && tries < u64::MAX
            invariant
                q == params@.q,
                0 <= bound,
                2 * bound + 1 <= i64::MAX,
                range == 2 * bound + 1,
                limit == acceptance_limit(range),
                drawn == bounded_coeff_spec(word, bound as int, q as int),
                b.len() == tries + 1,
                b.last() == word,
                forall|j: int| 0 <= j < b.len() - 1 ==> #[trigger] b[j] >= limit,
                src.log64() == log0 + joined(blocks) + b,
                src.log32() == log32,
            decreases u64::MAX - tries,
        {
            let ghost prev = b;
            word = src.next_u64();
            proof {
                b = b.push(word);
                assert(prev.last() >= limit);
                assert forall|j: int| 0 <= j < b.len() - 1 implies #[trigger] b[j] >= limit by {
                    if j < prev.len() - 1 {
                        assert(b[j] == prev[j]);
                    }
                }
                assert(log0 + joined(blocks) + b =~= (log0 + joined(blocks) + prev).push(word));
            }
            drawn = bounded_coeff(word, bound, params);
            tries += 1;
        }
        let v = word % range;
        let c = match drawn {
            Some(c) => c,
            None => poly_reduce_mod_q(((v as i64) - bound) as i128, q),
        };
        proof {
            let x = v as int - bound;
            lemma_value_accepted(v, range as int);
            lemma_centered(x, q as int);
            assert(bounded_coeff_spec(v, bound as int, q as int) == Some(c));
            assert(centered(x, q as int) == c as int);
            assert(is_bounded_sample(c, bound as int, q as int));
            assert(draw_block(b, limit));
            lemma_joined_push(blocks, b);
            assert(log0 + joined(blocks) + b =~= log0 + (joined(blocks) + b));
            blocks = blocks.push(b);
        }
        coeffs.push(c);
    }
    proof {
        assert(drawn_between(log0, src.log64()) =~= joined(blocks));
        assert(src.log64().subrange(0, log0.len() as int) =~= log0);
    }
    Poly(coeffs)
}

// ---------------------------------------------------------------------------
// The `i64` operations agree with the integer model.

proof fn lemma_centered_fits(x: int, q: int)
    requires
        2 < q < MAX_Q,
        q % 2 == 1,
    ensures
        -((q - 1) / 2) <= centered(x, q) <= (q - 1) / 2,
        (centered(x, q) as i64) as int == centered(x, q),
{
    lemma_centered(x, q);
}

/// Two `i64` polynomials with equal integer coefficients are equal.
pub proof fn lemma_ints_injective(a: Seq<i64>, b: Seq<i64>)
    requires
        ints(a) == ints(b),
    ensures
        a == b,
{
    assert(a.len() == ints(a).len());
    assert(b.len() == ints(b).len());
    assert forall|i: int| 0 <= i < a.len() implies a[i] == b[i] by {
        assert(ints(a)[i] == a[i] as int);
        assert(ints(b)[i] == b[i] as int);
    }
    assert(a =~= b);
}

/// `add_spec` is the centered integer sum.
pub proof fn lemma_add_ints(a: Seq<i64>, b: Seq<i64>, pv: ParamsView)
    requires
        pv.valid(),
        a.len() == b.len(),
    ensures
        ints(add_spec(a, b, pv.q)) == center(vadd(ints(a), ints(b)), pv.q),
{
    assert forall|k: int| 0 <= k < a.len() implies #[trigger] ints(add_spec(a, b, pv.q))[k] == center(
        vadd(ints(a), ints(b)),
        pv.q,
    )[k] by {
        lemma_centered_fits(a[k] + b[k], pv.q);
    }
    assert(ints(add_spec(a, b, pv.q)) =~= center(vadd(ints(a), ints(b)), pv.q));
}

/// `sub_spec` is the centered integer difference.
pub proof fn lemma_sub_ints(a: Seq<i64>, b: Seq<i64>, pv: ParamsView)
    requires
        pv.valid(),
        a.len() == b.len(),
    ensures
        ints(sub_spec(a, b, pv.q)) == center(vsub(ints(a), ints(b)), pv.q),
{
    assert forall|k: int| 0 <= k < a.len() implies #[trigger] ints(sub_spec(a, b, pv.q))[k] == center(
        vsub(ints(a), ints(b)),
        pv.q,
    )[k] by {
        lemma_centered_fits(a[k] - b[k], pv.q);
    }
    assert(ints(sub_spec(a, b, pv.q)) =~= center(vsub(ints(a), ints(b)), pv.q));
}

/// `mul_spec` is the centered integer product.
pub proof fn lemma_mul_ints(a: Seq<i64>, b: Seq<i64>, pv: ParamsView)
    requires
        pv.valid(),
    ensures
        ints(mul_spec(a, b, pv.n, pv.q)) == center(nmul(ints(a), ints(b), pv.n), pv.q),
{
    assert forall|k: int| 0 <= k < pv.n implies #[trigger] ints(mul_spec(a, b, pv.n, pv.q))[k] == center(
        nmul(ints(a), ints(b), pv.n),
        pv.q,
    )[k] by {
        lemma_centered_fits(nmul(ints(a), ints(b), pv.n)[k], pv.q);
    }
    assert(ints(mul_spec(a, b, pv.n, pv.q)) =~= center(nmul(ints(a), ints(b), pv.n), pv.q));
}

/// Results of `add_spec`, `sub_spec`, `mul_spec` and `reduce_spec` are
/// centered residues.
pub proof fn lemma_ops_well_formed(a: Seq<i64>, b: Seq<i64>, pv: ParamsView)
    requires
        pv.valid(),
        a.len() == pv.n,
        b.len() == pv.n,
    ensures
        is_well_formed(add_spec(a, b, pv.q), pv),
        is_well_formed(sub_spec(a, b, pv.q), pv),
        is_well_formed(mul_spec(a, b, pv.n, pv.q), pv),
        is_well_formed(reduce_spec(a, pv.q), pv),
{
    assert forall|k: int| 0 <= k < pv.n implies -pv.half_q() <= #[trigger] add_spec(a, b, pv.q)[k] <= pv.half_q() by {
        lemma_centered_fits(a[k] + b[k], pv.q);
    }
    assert forall|k: int| 0 <= k < pv.n implies -pv.half_q() <= #[trigger] sub_spec(a, b, pv.q)[k] <= pv.half_q() by {
        lemma_centered_fits(a[k] - b[k], pv.q);
    }
    assert forall|k: int| 0 <= k < pv.n implies -pv.half_q() <= #[trigger] mul_spec(a, b, pv.n, pv.q)[k] <= pv.half_q() by {
        lemma_centered_fits(nmul(ints(a), ints(b), pv.n)[k], pv.q);
    }
    assert forall|k: int| 0 <= k < pv.n implies -pv.half_q() <= #[trigger] reduce_spec(a, pv.q)[k] <= pv.half_q() by {
        lemma_centered_fits(a[k] as int, pv.q);
    }
}

} // verus!
