//! Cryptographic parameter sets for Rune.
use vstd::prelude::*;

verus! {

/// Largest polynomial degree this implementation supports.
pub const MAX_N: usize = 512;

/// Bound on the coefficient modulus, `2^60`: below it, a schoolbook
/// accumulator of `MAX_N` products of centered coefficients stays inside
/// `i128`, and at `2^60 + 1` it no longer does.
pub const MAX_Q: i64 = 0x1000_0000_0000_0000;

/// Mathematical content of a parameter set.
pub ghost struct ParamsView {
    pub n: nat,
    pub q: int,
    pub eta: nat,
    pub kappa: nat,
    pub gamma: int,
    pub beta: int,
    pub omega: nat,
    pub max_attempts: nat,
}

impl ParamsView {
    /// The consistency conditions every parameter set satisfies.
    pub open spec fn valid(self) -> bool {
        &&& 0 < self.n <= MAX_N
        &&& 2 < self.q < MAX_Q
        &&& self.q % 2 == 1
        &&& 0 < self.eta <= u8::MAX
        &&& 0 < self.kappa < self.n
        &&& 0 < self.gamma <= (i64::MAX - 1) / 2
        &&& 0 < self.beta < self.gamma
        &&& 0 < self.omega <= usize::MAX
        &&& 0 < self.max_attempts <= usize::MAX
    }

    /// Largest magnitude of a centered coefficient, `(q - 1) / 2`.
    pub open spec fn half_q(self) -> int {
        (self.q - 1) / 2
    }

    /// The response norm bound `gamma - beta`.
    pub open spec fn response_bound(self) -> int {
        self.gamma - self.beta
    }
}

/// System parameters for the Rune ring signature scheme.
///
/// Obtained from [`rune_128`] or [`rune_256`]; custom parameter sets are
/// not exposed, since incorrect choices can silently weaken the scheme.
#[derive(Debug, Clone, Copy, PartialEq, Eq, Structural)]
pub struct Params {
    n: usize,
    q: i64,
    eta: u8,
    kappa: usize,
    gamma: i64,
    beta: i64,
    omega: usize,
    max_attempts: usize,
}

impl View for Params {
    type V = ParamsView;

    closed spec fn view(&self) -> ParamsView {
        ParamsView {
            n: self.n as nat,
            q: self.q as int,
            eta: self.eta as nat,
            kappa: self.kappa as nat,
            gamma: self.gamma as int,
            beta: self.beta as int,
            omega: self.omega as nat,
            max_attempts: self.max_attempts as nat,
        }
    }
}

impl Params {
    /// Every parameter set is internally consistent.
    #[verifier::type_invariant]
    pub open spec fn inv(&self) -> bool {
        self@.valid()
    }

    /// Creates a validated parameter set.
    ///
    /// Besides the consistency conditions, two machine limits hold: `q`
    /// below `MAX_Q` keeps the schoolbook accumulators of `n` products in
    /// `i128`, and `gamma` at most `(i64::MAX - 1) / 2` keeps the mask range
    /// `2 * gamma + 1` in `i64`.
    #[allow(clippy::too_many_arguments)]
    pub(crate) fn new(
        n: usize,
        q: i64,
        eta: u8,
        kappa: usize,
        gamma: i64,
        beta: i64,
        omega: usize,
        max_attempts: usize,
    ) -> (p: Self)
        requires
            0 < n <= MAX_N,
            2 < q < MAX_Q,
            q % 2 == 1,
            eta > 0,
            0 < kappa < n,
            0 < gamma <= (i64::MAX - 1) / 2,
            0 < beta < gamma,
            omega > 0,
            max_attempts > 0,
        ensures
            p@ == (ParamsView {
                n: n as nat,
                q: q as int,
                eta: eta as nat,
                kappa: kappa as nat,
                gamma: gamma as int,
                beta: beta as int,
                omega: omega as nat,
                max_attempts: max_attempts as nat,
            }),
    {
        Params { n, q, eta, kappa, gamma, beta, omega, max_attempts }
    }

    /// Polynomial degree.
    pub fn n(&self) -> (r: usize)
        ensures
            r == self@.n,
    {
        self.n
    }

    /// Coefficient modulus.
    pub fn q(&self) -> (r: i64)
        ensures
            r == self@.q,
    {
        self.q
    }

    /// Centered binomial sampling parameter.
    pub fn eta(&self) -> (r: u8)
        ensures
            r == self@.eta,
    {
        self.eta
    }

    /// Challenge Hamming weight.
    pub fn kappa(&self) -> (r: usize)
        ensures
            r == self@.kappa,
    {
        self.kappa
    }

    /// Masking range.
    pub fn gamma(&self) -> (r: i64)
        ensures
            r == self@.gamma,
    {
        self.gamma
    }

    /// Rejection margin.
    pub fn beta(&self) -> (r: i64)
        ensures
            r == self@.beta,
    {
        self.beta
    }

    /// Response norm bound used during rejection sampling, `gamma - beta`.
    pub fn response_bound(&self) -> (r: i64)
        ensures
            r == self@.response_bound(),
            0 < r < self@.gamma,
    {
        proof {
            use_type_invariant(self);
        }
        self.gamma - self.beta
    }

    /// Maximum hint weight for parameter sets with hints.
    pub fn omega(&self) -> (r: usize)
        ensures
            r == self@.omega,
    {
        self.omega
    }

    /// Maximum signing attempt count.
    pub fn max_attempts(&self) -> (r: usize)
        ensures
            r == self@.max_attempts,
    {
        self.max_attempts
    }
}

/// The parameter set with `n = 256` and `q = 998244353`.
///
/// Demonstration parameters only: security is approximately 10 bits. Use
/// [`rune_256`] for any real deployment.
pub fn rune_128() -> (p: Params)
    ensures
        p@ == (ParamsView {
            n: 256,
            q: 998_244_353,
            eta: 2,
            kappa: 60,
            gamma: 249_561_088,
            beta: 120,
            omega: 60,
            max_attempts: 256,
        }),
{
    Params::new(256, 998_244_353, 2, 60, 249_561_088, 120, 60, 256)
}

/// The parameter set with `n = 512` and `q = 8380417`, targeting
/// approximately 128 bits of classical security (NIST category 1).
pub fn rune_256() -> (p: Params)
    ensures
        p@ == (ParamsView {
            n: 512,
            q: 8_380_417,
            eta: 3,
            kappa: 60,
            gamma: 524_288,
            beta: 180,
            omega: 120,
            max_attempts: 256,
        }),
{
    Params::new(512, 8_380_417, 3, 60, 524_288, 180, 120, 256)
}

} // verus!
