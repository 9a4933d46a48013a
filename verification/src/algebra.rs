//! Mathematical model of `R_q = Z_q[X]/(X^n + 1)`: centered residues, exact
//! negacyclic products over the integers, and the ring laws they obey.
use vstd::prelude::*;
use vstd::arithmetic::div_mod::{
    lemma_add_mod_noop, lemma_fundamental_div_mod, lemma_fundamental_div_mod_converse,
    lemma_mod_bound, lemma_mul_mod_noop_right, lemma_sub_mod_noop,
};
use vstd::arithmetic::mul::{
    lemma_mul_is_associative, lemma_mul_is_commutative, lemma_mul_is_distributive_add,
    lemma_mul_is_distributive_sub, lemma_mul_unary_negation,
};

verus! {

/// The centered representative of `x` modulo `q`: the residue `x mod q`
/// moved into `(-q/2, q/2]`.
pub open spec fn centered(x: int, q: int) -> int {
    let r = x % q;
    if r > q / 2 {
        r - q
    } else {
        r
    }
}

/// Coefficient `i` of `v`, with zero beyond its end.
pub open spec fn coeff(v: Seq<int>, i: int) -> int {
    if 0 <= i < v.len() {
        v[i]
    } else {
        0
    }
}

/// Coefficient `k` of `X^i * b` in `Z[X]/(X^n + 1)`, for `0 <= i, k < n`.
pub open spec fn xs(b: Seq<int>, n: int, i: int, k: int) -> int {
    if i <= k {
        coeff(b, k - i)
    } else {
        -coeff(b, k - i + n)
    }
}

/// Coefficient `k` of `sum_{i < rows} a_i * X^i * b` over the integers.
pub open spec fn row_sum(a: Seq<int>, b: Seq<int>, n: int, rows: int, k: int) -> int
    decreases rows,
{
    if rows <= 0 {
        0
    } else {
        row_sum(a, b, n, rows - 1, k) + coeff(a, rows - 1) * xs(b, n, rows - 1, k)
    }
}

/// The exact product `a * b` in `Z[X]/(X^n + 1)`, as `n` integer coefficients.
pub open spec fn nmul(a: Seq<int>, b: Seq<int>, n: nat) -> Seq<int> {
    Seq::new(n, |k: int| row_sum(a, b, n as int, n as int, k))
}

/// The coefficients of an `i64` polynomial as integers.
pub open spec fn ints(p: Seq<i64>) -> Seq<int> {
    Seq::new(p.len(), |i: int| p[i] as int)
}

/// `centered(x, q)` is congruent to `x` modulo `q` and lies in
/// `[-(q - 1) / 2, (q - 1) / 2]` for odd `q`.
pub proof fn lemma_centered(x: int, q: int)
    requires
        q > 0,
    ensures
        (centered(x, q) - x) % q == 0,
        q % 2 == 1 ==> -((q - 1) / 2) <= centered(x, q) <= (q - 1) / 2,
{
    let r = x % q;
    lemma_mod_bound(x, q);
    lemma_fundamental_div_mod(x, q);
    let d = x / q;
    if r > q / 2 {
        assert(centered(x, q) - x == (-d - 1) * q) by (nonlinear_arith)
            requires
                centered(x, q) == r - q,
                x == q * d + r,
        ;
    } else {
        assert(centered(x, q) - x == (-d) * q) by (nonlinear_arith)
            requires
                centered(x, q) == r,
                x == q * d + r,
        ;
    }
    assert((centered(x, q) - x) % q == 0) by {
        vstd::arithmetic::div_mod::lemma_mod_multiples_basic(
            if r > q / 2 { -d - 1 } else { -d },
            q,
        );
    }
}

/// A value already in the centered range is its own representative.
pub proof fn lemma_centered_small(x: int, q: int)
    requires
        q > 0,
        q % 2 == 1,
        -((q - 1) / 2) <= x <= (q - 1) / 2,
    ensures
        centered(x, q) == x,
{
    if x >= 0 {
        lemma_fundamental_div_mod_converse(x, q, 0, x);
    } else {
        lemma_fundamental_div_mod_converse(x, q, -1, x + q);
    }
}

// ---------------------------------------------------------------------------
// Divisibility by q.

proof fn lemma_div_add(x: int, y: int, q: int)
    requires
        q > 0,
        x % q == 0,
        y % q == 0,
    ensures
        (x + y) % q == 0,
        (x - y) % q == 0,
{
    lemma_add_mod_noop(x, y, q);
    lemma_sub_mod_noop(x, y, q);
    vstd::arithmetic::div_mod::lemma_small_mod(0, q as nat);
}

proof fn lemma_div_mul(x: int, y: int, q: int)
    requires
        q > 0,
        y % q == 0,
    ensures
        (x * y) % q == 0,
{
    lemma_mul_mod_noop_right(x, y, q);
    assert(x * 0 == 0);
    vstd::arithmetic::div_mod::lemma_small_mod(0, q as nat);
}

/// Integers that differ by a multiple of `q` have the same residue.
proof fn lemma_same_residue(x: int, y: int, q: int)
    requires
        q > 0,
        (x - y) % q == 0,
    ensures
        x % q == y % q,
{
    lemma_sub_mod_noop(x, y, q);
    lemma_mod_bound(x, q);
    lemma_mod_bound(y, q);
    let d = x % q - y % q;
    if d > 0 {
        lemma_fundamental_div_mod_converse(d, q, 0, d);
    } else if d < 0 {
        lemma_fundamental_div_mod_converse(d, q, -1, d + q);
    }
}

// ---------------------------------------------------------------------------
// Integer vectors of length n.

/// Coefficientwise sum.
pub open spec fn vadd(u: Seq<int>, v: Seq<int>) -> Seq<int> {
    Seq::new(u.len(), |k: int| u[k] + v[k])
}

/// Coefficientwise difference.
pub open spec fn vsub(u: Seq<int>, v: Seq<int>) -> Seq<int> {
    Seq::new(u.len(), |k: int| u[k] - v[k])
}

/// Scalar multiple.
pub open spec fn vscale(c: int, u: Seq<int>) -> Seq<int> {
    Seq::new(u.len(), |k: int| c * u[k])
}

/// Each coefficient replaced by its centered residue.
pub open spec fn center(v: Seq<int>, q: int) -> Seq<int> {
    Seq::new(v.len(), |k: int| centered(v[k], q))
}

/// `u` and `v` agree coefficientwise modulo `q`.
pub open spec fn cong(u: Seq<int>, v: Seq<int>, q: int) -> bool {
    &&& u.len() == v.len()
    &&& forall|k: int| 0 <= k < u.len() ==> (#[trigger] u[k] - v[k]) % q == 0
}

/// Multiplication by `X` in `Z[X]/(X^n + 1)`.
pub open spec fn shift(v: Seq<int>, n: int) -> Seq<int> {
    Seq::new(n as nat, |k: int| if k >= 1 { coeff(v, k - 1) } else { -coeff(v, n - 1) })
}

/// Multiplication by `X^i` in `Z[X]/(X^n + 1)`.
pub open spec fn shn(v: Seq<int>, n: int, i: int) -> Seq<int> {
    Seq::new(n as nat, |k: int| xs(v, n, i, k))
}

/// The partial product `sum_{i < rows} a_i * X^i * s` as a vector.
pub open spec fn vrow(a: Seq<int>, s: Seq<int>, n: int, rows: int) -> Seq<int> {
    Seq::new(n as nat, |p: int| row_sum(a, s, n, rows, p))
}

pub proof fn lemma_cong_trans(u: Seq<int>, v: Seq<int>, w: Seq<int>, q: int)
    requires
        q > 0,
        cong(u, v, q),
        cong(v, w, q),
    ensures
        cong(u, w, q),
{
    assert forall|k: int| 0 <= k < u.len() implies (#[trigger] u[k] - w[k]) % q == 0 by {
        assert((u[k] - v[k]) % q == 0);
        assert((v[k] - w[k]) % q == 0);
        lemma_div_add(u[k] - v[k], v[k] - w[k], q);
    }
}

pub proof fn lemma_cong_add(u1: Seq<int>, v1: Seq<int>, u2: Seq<int>, v2: Seq<int>, q: int)
    requires
        q > 0,
        cong(u1, v1, q),
        cong(u2, v2, q),
        u1.len() == u2.len(),
    ensures
        cong(vadd(u1, u2), vadd(v1, v2), q),
        cong(vsub(u1, u2), vsub(v1, v2), q),
{
    assert forall|k: int| 0 <= k < u1.len() implies (#[trigger] vadd(u1, u2)[k] - vadd(v1, v2)[k]) % q == 0 by {
        assert((u1[k] - v1[k]) % q == 0);
        assert((u2[k] - v2[k]) % q == 0);
        lemma_div_add(u1[k] - v1[k], u2[k] - v2[k], q);
    }
    assert forall|k: int| 0 <= k < u1.len() implies (#[trigger] vsub(u1, u2)[k] - vsub(v1, v2)[k]) % q == 0 by {
        assert((u1[k] - v1[k]) % q == 0);
        assert((u2[k] - v2[k]) % q == 0);
        lemma_div_add(u1[k] - v1[k], u2[k] - v2[k], q);
    }
}

pub proof fn lemma_cong_refl(u: Seq<int>, q: int)
    requires
        q > 0,
    ensures
        cong(u, u, q),
{
    assert forall|k: int| 0 <= k < u.len() implies (#[trigger] u[k] - u[k]) % q == 0 by {
        vstd::arithmetic::div_mod::lemma_small_mod(0, q as nat);
    }
}

pub proof fn lemma_cong_symm(u: Seq<int>, v: Seq<int>, q: int)
    requires
        q > 0,
        cong(u, v, q),
    ensures
        cong(v, u, q),
{
    assert forall|k: int| 0 <= k < v.len() implies (#[trigger] v[k] - u[k]) % q == 0 by {
        assert((u[k] - v[k]) % q == 0);
        vstd::arithmetic::div_mod::lemma_small_mod(0, q as nat);
        lemma_div_add(0, u[k] - v[k], q);
    }
}

/// Centering keeps each coefficient's residue.
pub proof fn lemma_center_cong(u: Seq<int>, q: int)
    requires
        q > 0,
    ensures
        cong(center(u, q), u, q),
{
    assert forall|k: int| 0 <= k < u.len() implies (#[trigger] center(u, q)[k] - u[k]) % q == 0 by {
        lemma_centered(u[k], q);
    }
}

/// Congruent vectors have the same centered representative.
pub proof fn lemma_center_unique(u: Seq<int>, v: Seq<int>, q: int)
    requires
        q > 0,
        cong(u, v, q),
    ensures
        center(u, q) == center(v, q),
{
    assert forall|k: int| 0 <= k < u.len() implies #[trigger] center(u, q)[k] == center(v, q)[k] by {
        assert((u[k] - v[k]) % q == 0);
        lemma_same_residue(u[k], v[k], q);
    }
    assert(center(u, q) =~= center(v, q));
}

// ---------------------------------------------------------------------------
// Linearity of the product in its second operand.

proof fn lemma_row_sum_add(c: Seq<int>, u: Seq<int>, v: Seq<int>, n: int, rows: int, k: int)
    requires
        u.len() == n,
        v.len() == n,
        0 <= rows <= n,
        0 <= k < n,
    ensures
        row_sum(c, vadd(u, v), n, rows, k) == row_sum(c, u, n, rows, k) + row_sum(c, v, n, rows, k),
        row_sum(c, vsub(u, v), n, rows, k) == row_sum(c, u, n, rows, k) - row_sum(c, v, n, rows, k),
    decreases rows,
{
    if rows > 0 {
        let i = rows - 1;
        lemma_row_sum_add(c, u, v, n, i, k);
        assert(xs(vadd(u, v), n, i, k) == xs(u, n, i, k) + xs(v, n, i, k));
        assert(xs(vsub(u, v), n, i, k) == xs(u, n, i, k) - xs(v, n, i, k));
        lemma_mul_is_distributive_add(coeff(c, i), xs(u, n, i, k), xs(v, n, i, k));
        lemma_mul_is_distributive_sub(coeff(c, i), xs(u, n, i, k), xs(v, n, i, k));
    }
}

proof fn lemma_row_sum_scale(c: Seq<int>, l: int, u: Seq<int>, n: int, rows: int, k: int)
    requires
        u.len() == n,
        0 <= rows <= n,
        0 <= k < n,
    ensures
        row_sum(c, vscale(l, u), n, rows, k) == l * row_sum(c, u, n, rows, k),
    decreases rows,
{
    if rows > 0 {
        let i = rows - 1;
        lemma_row_sum_scale(c, l, u, n, i, k);
        let x = xs(u, n, i, k);
        if i > k {
            lemma_mul_unary_negation(l, u[k - i + n]);
        }
        assert(xs(vscale(l, u), n, i, k) == l * x);
        lemma_mul_is_associative(coeff(c, i), l, x);
        lemma_mul_is_commutative(coeff(c, i), l);
        lemma_mul_is_associative(l, coeff(c, i), x);
        lemma_mul_is_distributive_add(l, row_sum(c, u, n, i, k), coeff(c, i) * x);
    }
}

proof fn lemma_row_sum_zero(c: Seq<int>, z: Seq<int>, n: int, rows: int, k: int)
    requires
        z.len() == n,
        forall|p: int| 0 <= p < n ==> #[trigger] z[p] == 0,
        0 <= rows <= n,
        0 <= k < n,
    ensures
        row_sum(c, z, n, rows, k) == 0,
    decreases rows,
{
    if rows > 0 {
        lemma_row_sum_zero(c, z, n, rows - 1, k);
        assert(xs(z, n, rows - 1, k) == 0);
    }
}

// ---------------------------------------------------------------------------
// Multiplication by X commutes with the product.

proof fn lemma_xs_shift(y: Seq<int>, n: int, i: int, k: int)
    requires
        y.len() == n,
        0 <= i < n,
        0 <= k < n,
    ensures
        xs(shift(y, n), n, i, k) == if k >= 1 {
            xs(y, n, i, k - 1)
        } else {
            -xs(y, n, i, n - 1)
        },
{
}

proof fn lemma_row_sum_shift(c: Seq<int>, y: Seq<int>, n: int, rows: int, k: int)
    requires
        y.len() == n,
        0 <= rows <= n,
        0 <= k < n,
    ensures
        row_sum(c, shift(y, n), n, rows, k) == if k >= 1 {
            row_sum(c, y, n, rows, k - 1)
        } else {
            -row_sum(c, y, n, rows, n - 1)
        },
    decreases rows,
{
    if rows > 0 {
        let i = rows - 1;
        lemma_row_sum_shift(c, y, n, i, k);
        lemma_xs_shift(y, n, i, k);
        lemma_mul_unary_negation(coeff(c, i), xs(y, n, i, n - 1));
    }
}

proof fn lemma_nmul_shift(c: Seq<int>, y: Seq<int>, n: nat)
    requires
        y.len() == n,
        n > 0,
    ensures
        nmul(c, shift(y, n as int), n) == shift(nmul(c, y, n), n as int),
{
    assert forall|k: int| 0 <= k < n implies #[trigger] nmul(c, shift(y, n as int), n)[k] == shift(
        nmul(c, y, n),
        n as int,
    )[k] by {
        lemma_row_sum_shift(c, y, n as int, n as int, k);
    }
    assert(nmul(c, shift(y, n as int), n) =~= shift(nmul(c, y, n), n as int));
}

proof fn lemma_shn_step(y: Seq<int>, n: int, i: int)
    requires
        y.len() == n,
        0 <= i,
        i + 1 < n,
    ensures
        shn(y, n, i + 1) == shift(shn(y, n, i), n),
{
    assert(shn(y, n, i + 1) =~= shift(shn(y, n, i), n));
}

proof fn lemma_shn_zero(y: Seq<int>, n: int)
    requires
        y.len() == n,
    ensures
        shn(y, n, 0) == y,
{
    assert(shn(y, n, 0) =~= y);
}

proof fn lemma_shn_nmul(c: Seq<int>, s: Seq<int>, n: nat, i: int)
    requires
        s.len() == n,
        0 <= i < n,
    ensures
        shn(nmul(c, s, n), n as int, i) == nmul(c, shn(s, n as int, i), n),
    decreases i,
{
    let ni = n as int;
    if i == 0 {
        lemma_shn_zero(nmul(c, s, n), ni);
        lemma_shn_zero(s, ni);
    } else {
        lemma_shn_nmul(c, s, n, i - 1);
        lemma_shn_step(nmul(c, s, n), ni, i - 1);
        lemma_shn_step(s, ni, i - 1);
        lemma_nmul_shift(c, shn(s, ni, i - 1), n);
    }
}

// ---------------------------------------------------------------------------
// a * (c * s) == c * (a * s).

/// `sum_{i < rows} a_i * (c * X^i s)[k]`.
spec fn weighted(c: Seq<int>, a: Seq<int>, s: Seq<int>, n: nat, rows: int, k: int) -> int
    decreases rows,
{
    if rows <= 0 {
        0
    } else {
        weighted(c, a, s, n, rows - 1, k) + coeff(a, rows - 1) * nmul(c, shn(s, n as int, rows - 1), n)[k]
    }
}

proof fn lemma_outer_weighted(c: Seq<int>, a: Seq<int>, s: Seq<int>, n: nat, rows: int, k: int)
    requires
        s.len() == n,
        0 <= rows <= n,
        0 <= k < n,
    ensures
        row_sum(a, nmul(c, s, n), n as int, rows, k) == weighted(c, a, s, n, rows, k),
    decreases rows,
{
    if rows > 0 {
        let i = rows - 1;
        lemma_outer_weighted(c, a, s, n, i, k);
        lemma_shn_nmul(c, s, n, i);
        assert(xs(nmul(c, s, n), n as int, i, k) == shn(nmul(c, s, n), n as int, i)[k]);
    }
}

proof fn lemma_inner_weighted(c: Seq<int>, a: Seq<int>, s: Seq<int>, n: nat, rows: int, k: int)
    requires
        s.len() == n,
        0 <= rows <= n,
        0 <= k < n,
    ensures
        row_sum(c, vrow(a, s, n as int, rows), n as int, n as int, k) == weighted(c, a, s, n, rows, k),
    decreases rows,
{
    let ni = n as int;
    if rows == 0 {
        lemma_row_sum_zero(c, vrow(a, s, ni, 0), ni, ni, k);
    } else {
        let i = rows - 1;
        lemma_inner_weighted(c, a, s, n, i, k);
        let prev = vrow(a, s, ni, i);
        let term = vscale(coeff(a, i), shn(s, ni, i));
        assert(vrow(a, s, ni, rows) =~= vadd(prev, term));
        lemma_row_sum_add(c, prev, term, ni, ni, k);
        lemma_row_sum_scale(c, coeff(a, i), shn(s, ni, i), ni, ni, k);
    }
}

/// Products with a common right factor commute on the left:
/// `a * (c * s) == c * (a * s)` in `Z[X]/(X^n + 1)`.
pub proof fn lemma_nmul_left_commute(a: Seq<int>, c: Seq<int>, s: Seq<int>, n: nat)
    requires
        s.len() == n,
        n > 0,
    ensures
        nmul(a, nmul(c, s, n), n) == nmul(c, nmul(a, s, n), n),
{
    assert forall|k: int| 0 <= k < n implies #[trigger] nmul(a, nmul(c, s, n), n)[k] == nmul(
        c,
        nmul(a, s, n),
        n,
    )[k] by {
        lemma_outer_weighted(c, a, s, n, n as int, k);
        lemma_inner_weighted(c, a, s, n, n as int, k);
        assert(vrow(a, s, n as int, n as int) =~= nmul(a, s, n));
    }
    assert(nmul(a, nmul(c, s, n), n) =~= nmul(c, nmul(a, s, n), n));
}

/// The product distributes over a sum in its second operand.
pub proof fn lemma_nmul_distributes(c: Seq<int>, u: Seq<int>, v: Seq<int>, n: nat)
    requires
        u.len() == n,
        v.len() == n,
    ensures
        nmul(c, vadd(u, v), n) == vadd(nmul(c, u, n), nmul(c, v, n)),
{
    assert forall|k: int| 0 <= k < n implies #[trigger] nmul(c, vadd(u, v), n)[k] == vadd(
        nmul(c, u, n),
        nmul(c, v, n),
    )[k] by {
        lemma_row_sum_add(c, u, v, n as int, n as int, k);
    }
    assert(nmul(c, vadd(u, v), n) =~= vadd(nmul(c, u, n), nmul(c, v, n)));
}

// ---------------------------------------------------------------------------
// The product respects congruence modulo q.

proof fn lemma_row_sum_divisible(c: Seq<int>, d: Seq<int>, n: int, rows: int, k: int, q: int)
    requires
        q > 0,
        d.len() == n,
        forall|p: int| 0 <= p < n ==> #[trigger] d[p] % q == 0,
        0 <= rows <= n,
        0 <= k < n,
    ensures
        row_sum(c, d, n, rows, k) % q == 0,
    decreases rows,
{
    if rows == 0 {
        vstd::arithmetic::div_mod::lemma_small_mod(0, q as nat);
    } else {
        let i = rows - 1;
        lemma_row_sum_divisible(c, d, n, i, k, q);
        let x = xs(d, n, i, k);
        assert(x % q == 0) by {
            if i > k {
                vstd::arithmetic::div_mod::lemma_small_mod(0, q as nat);
                lemma_div_add(0, d[k - i + n], q);
            }
        }
        lemma_div_mul(coeff(c, i), x, q);
        lemma_div_add(row_sum(c, d, n, i, k), coeff(c, i) * x, q);
    }
}

/// Congruent right operands give congruent products.
pub proof fn lemma_nmul_cong(c: Seq<int>, u: Seq<int>, v: Seq<int>, n: nat, q: int)
    requires
        q > 0,
        u.len() == n,
        cong(u, v, q),
    ensures
        cong(nmul(c, u, n), nmul(c, v, n), q),
{
    let d = vsub(u, v);
    assert forall|p: int| 0 <= p < n implies #[trigger] d[p] % q == 0 by {
        assert((u[p] - v[p]) % q == 0);
    }
    assert forall|k: int| 0 <= k < n implies (#[trigger] nmul(c, u, n)[k] - nmul(c, v, n)[k]) % q == 0 by {
        lemma_row_sum_add(c, u, v, n as int, n as int, k);
        lemma_row_sum_divisible(c, d, n as int, n as int, k, q);
    }
}

} // verus!
