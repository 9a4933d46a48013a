//! Sequential challenge chain hashing.
use vstd::prelude::*;

use crate::algebra::centered;
use crate::keys::PublicKey;
use crate::math::{coeffs_bounded, poly_reduce_mod_q, reduce_spec, zero_poly, Poly};
use crate::params::Params;

verus! {

/// The bytes that SHAKE256 (FIPS 202) produces when it absorbs `input` and
/// `len` bytes of output are read.
pub uninterp spec fn shake256_output(input: Seq<u8>, len: nat) -> Seq<u8>;

/// SHAKE256 through `sha3::Shake256`: absorbs `input` with
/// `digest::Update::update`, finalizes with
/// `digest::ExtendableOutput::finalize_xof` and fills `len` bytes with
/// `digest::XofReader::read`. The contract names the output and states its
/// length; nothing else is claimed of the hash. A longer buffer than
/// `isize::MAX` bytes cannot be allocated, so `len` stays within it.
#[verifier::external_body]
fn shake256(input: &[u8], len: usize) -> (out: Vec<u8>)
    requires
        len <= isize::MAX,
    ensures
        out@ == shake256_output(input@, len as nat),
        out@.len() == len,
{
    let mut hasher = sha3::Shake256::default();
    sha3::digest::Update::update(&mut hasher, input);
    let mut reader = sha3::digest::ExtendableOutput::finalize_xof(hasher);
    let mut out = vec![0u8; len];
    sha3::digest::XofReader::read(&mut reader, &mut out);
    out
}

/// The domain separator `"Rune-CHAIN-v2"` that starts every chain input.
pub open spec fn domain_separator() -> Seq<u8> {
    seq![82u8, 117u8, 110u8, 101u8, 45u8, 67u8, 72u8, 65u8, 73u8, 78u8, 45u8, 118u8, 50u8]
}

/// The eight little-endian bytes of `x`.
pub open spec fn le_bytes(x: u64) -> Seq<u8> {
    seq![
        x as u8,
        (x >> 8u64) as u8,
        (x >> 16u64) as u8,
        (x >> 24u64) as u8,
        (x >> 32u64) as u8,
        (x >> 40u64) as u8,
        (x >> 48u64) as u8,
        (x >> 56u64) as u8,
    ]
}

/// The little-endian two's-complement bytes of each coefficient, in order.
pub open spec fn coeff_bytes(p: Seq<i64>) -> Seq<u8>
    decreases p.len(),
{
    if p.len() == 0 {
        Seq::empty()
    } else {
        coeff_bytes(p.drop_last()) + le_bytes(p.last() as u64)
    }
}

/// The coefficient bytes of the `t` of every ring member, in ring order.
pub open spec fn ring_t_bytes(ring: Seq<PublicKey>) -> Seq<u8>
    decreases ring.len(),
{
    if ring.len() == 0 {
        Seq::empty()
    } else {
        ring_t_bytes(ring.drop_last()) + coeff_bytes(ring.last().t@)
    }
}

/// What the chain hash absorbs for position `index` with previous
/// commitment `w`.
pub open spec fn chain_input(message: Seq<u8>, ring: Seq<PublicKey>, index: int, w: Seq<i64>) -> Seq<u8> {
    domain_separator() + le_bytes(message.len() as u64) + message + le_bytes(ring.len() as u64)
        + ring_t_bytes(ring) + le_bytes(index as u64) + coeff_bytes(w)
}

/// The 64-byte seed of the challenge at position `index`.
#[verifier::opaque]
pub open spec fn chain_seed(message: Seq<u8>, ring: Seq<PublicKey>, index: int, w: Seq<i64>) -> Seq<u8> {
    shake256_output(chain_input(message, ring, index, w), 64)
}

fn push_le_bytes(buf: &mut Vec<u8>, x: u64)
    ensures
        final(buf)@ == old(buf)@ + le_bytes(x),
{
    buf.push(x as u8);
    buf.push((x >> 8) as u8);
    buf.push((x >> 16) as u8);
    buf.push((x >> 24) as u8);
    buf.push((x >> 32) as u8);
    buf.push((x >> 40) as u8);
    buf.push((x >> 48) as u8);
    buf.push((x >> 56) as u8);
    assert(buf@ =~= old(buf)@ + le_bytes(x));
}

fn push_coeff_bytes(buf: &mut Vec<u8>, p: &Poly)
    ensures
        final(buf)@ == old(buf)@ + coeff_bytes(p@),
{
    let ghost start = buf@;
    let len = p.0.len();
    for i in 0..len
        invariant
            len == p@.len(),
            buf@ == start + coeff_bytes(p@.subrange(0, i as int)),
    {
        proof {
            assert(p@.subrange(0, i + 1).drop_last() =~= p@.subrange(0, i as int));
        }
        push_le_bytes(buf, p.0[i] as u64);
        proof {
            assert(buf@ =~= start + coeff_bytes(p@.subrange(0, i + 1)));
        }
    }
    assert(p@.subrange(0, len as int) =~= p@);
}

/// Hashes the chain input for position `index` with previous commitment `w`
/// into a 64-byte seed.
pub fn hash_chain(message: &[u8], ring: &[PublicKey], index: usize, w: &Poly, params: &Params) -> (r: Vec<u8>)
    requires
        w@.len() == params@.n,
    ensures
        r@ == chain_seed(message@, ring@, index as int, w@),
{
    let mut buf: Vec<u8> = Vec::new();
    buf.push(82u8);
    buf.push(117u8);
    buf.push(110u8);
    buf.push(101u8);
    buf.push(45u8);
    buf.push(67u8);
    buf.push(72u8);
    buf.push(65u8);
    buf.push(73u8);
    buf.push(78u8);
    buf.push(45u8);
    buf.push(118u8);
    buf.push(50u8);
    assert(buf@ =~= domain_separator());
    push_le_bytes(&mut buf, message.len() as u64);
    let ghost before_message = buf@;
    let mlen = message.len();
    for i in 0..mlen
        invariant
            mlen == message@.len(),
            buf@ == before_message + message@.subrange(0, i as int),
    {
        buf.push(message[i]);
        proof {
            assert(buf@ =~= before_message + message@.subrange(0, i + 1));
        }
    }
    assert(message@.subrange(0, mlen as int) =~= message@);
    push_le_bytes(&mut buf, ring.len() as u64);
    let ghost before_ring = buf@;
    let k = ring.len();
    for j in 0..k
        invariant
            k == ring@.len(),
            buf@ == before_ring + ring_t_bytes(ring@.subrange(0, j as int)),
    {
        proof {
            assert(ring@.subrange(0, j + 1).drop_last() =~= ring@.subrange(0, j as int));
        }
        push_coeff_bytes(&mut buf, &ring[j].t);
        proof {
            assert(buf@ =~= before_ring + ring_t_bytes(ring@.subrange(0, j + 1)));
        }
    }
    assert(ring@.subrange(0, k as int) =~= ring@);
    push_le_bytes(&mut buf, index as u64);
    push_coeff_bytes(&mut buf, w);
    assert(buf@ =~= chain_input(message@, ring@, index as int, w@));
    proof {
        reveal(chain_seed);
    }
    shake256(buf.as_slice(), 64)
}

/// One step of challenge sampling over an output stream: from offset `off`,
/// with coefficients `coeffs` and `placed` nonzero positions so far. Each
/// attempt reads a little-endian 16-bit position; positions out of range or
/// already occupied are skipped (which avoids modulo bias), otherwise one
/// more byte gives the sign. The flag tells whether `kappa` positions were
/// placed before the stream ran out.
pub open spec fn challenge_walk(
    stream: Seq<u8>,
    n: nat,
    kappa: nat,
    off: nat,
    coeffs: Seq<i64>,
    placed: nat,
) -> (Seq<i64>, bool)
    decreases stream.len() - off,
{
    if placed >= kappa {
        (coeffs, true)
    } else if off + 2 > stream.len() {
        (coeffs, false)
    } else {
        let pos = stream[off as int] as int + 256 * (stream[off + 1int] as int);
        if pos >= n || coeffs[pos] != 0 {
            challenge_walk(stream, n, kappa, off + 2, coeffs, placed)
        } else if off + 3 > stream.len() {
            (coeffs, false)
        } else {
            let sign: i64 = if stream[off + 2int] & 1u8 == 0u8 { 1i64 } else { -1i64 };
            challenge_walk(stream, n, kappa, off + 3, coeffs.update(pos, sign), placed + 1)
        }
    }
}

/// The challenge sampled from the start of `stream`, and whether it is complete.
pub open spec fn stream_challenge(stream: Seq<u8>, n: nat, kappa: nat) -> (Seq<i64>, bool) {
    challenge_walk(stream, n, kappa, 0, Seq::new(n, |i: int| 0i64), 0)
}

/// Samples a challenge polynomial from the bytes of an output stream,
/// returning it with whether `kappa` positions were placed before the bytes
/// ran out.
pub fn challenge_from_stream(stream: &[u8], params: &Params) -> (r: (Poly, bool))
    ensures
        (r.0@, r.1) == stream_challenge(stream@, params@.n, params@.kappa),
        r.0@.len() == params@.n,
        coeffs_bounded(r.0@, 1),
        r.1 ==> is_valid_challenge(r.0@, params@.n, params@.kappa),
{
    let n = params.n();
    let kappa = params.kappa();
    let mut out = zero_poly(params);
    let mut occupied: Vec<bool> = vec![false; n];
    let mut placed: usize = 0;
    let mut off: usize = 0;
    proof {
        lemma_nonzero_count_zeros(out@);
    }
    let ghost goal = stream_challenge(stream@, n as nat, kappa as nat);
    while placed < kappa
        invariant
            n == params@.n,
            kappa == params@.kappa,
            out@.len() == n,
            coeffs_bounded(out@, 1),
            nonzero_count(out@) == placed,
            occupied@.len() == n,
            forall|p: int| 0 <= p < n ==> (occupied@[p] <==> out@[p] != 0),
            off <= stream@.len(),
            placed <= kappa,
            challenge_walk(stream@, n as nat, kappa as nat, off as nat, out@, placed as nat) == goal,
            goal == stream_challenge(stream@, n as nat, kappa as nat),
        decreases stream@.len() - off,
    {
        if stream.len() - off < 2 {
            assert(challenge_walk(stream@, n as nat, kappa as nat, off as nat, out@, placed as nat) == (out@, false));
            return (out, false);
        }
        let pos = (stream[off] as usize) + 256 * (stream[off + 1] as usize);
        if pos >= n || occupied[pos] {
            off = off + 2;
            continue;
        }
        if stream.len() - off < 3 {
            assert(challenge_walk(stream@, n as nat, kappa as nat, off as nat, out@, placed as nat) == (out@, false));
            return (out, false);
        }
        let sign: i64 = if stream[off + 2] & 1 == 0 { 1 } else { -1 };
        proof {
            lemma_nonzero_count_update(out@, pos as int, sign);
        }
        out.0.set(pos, sign);
        occupied.set(pos, true);
        placed = placed + 1;
        off = off + 3;
    }
    (out, true)
}

/// Length of the first stream read when sampling a challenge.
pub const INITIAL_STREAM_LEN: usize = 32768;

/// Completes a challenge from position `j` on: while fewer than `kappa`
/// positions are nonzero, the next zero coefficient becomes `+1`.
pub open spec fn fill_free(c: Seq<i64>, kappa: nat, j: nat, placed: nat) -> Seq<i64>
    decreases c.len() - j,
{
    if j >= c.len() || placed >= kappa {
        c
    } else if c[j as int] == 0 {
        fill_free(c.update(j as int, 1), kappa, j + 1, placed + 1)
    } else {
        fill_free(c, kappa, j + 1, placed)
    }
}

/// The challenge derived from `seed`: the stream is read with lengths
/// doubling from `len` until the challenge is complete. A challenge still
/// incomplete once the length can no longer double within `isize::MAX`
/// (more bytes than any vector can hold) has its free positions filled in
/// order.
pub open spec fn challenge_search(seed: Seq<u8>, n: nat, kappa: nat, len: nat) -> Seq<i64>
    decreases isize::MAX - len,
{
    let w = stream_challenge(shake256_output(seed, len), n, kappa);
    if w.1 {
        w.0
    } else if len > isize::MAX / 2 || len == 0 {
        fill_free(w.0, kappa, 0, nonzero_count(w.0))
    } else {
        challenge_search(seed, n, kappa, 2 * len)
    }
}

/// The challenge polynomial that `sample_challenge` derives from `seed`.
#[verifier::opaque]
pub open spec fn challenge_of_seed(seed: Seq<u8>, n: nat, kappa: nat) -> Seq<i64> {
    challenge_search(seed, n, kappa, INITIAL_STREAM_LEN as nat)
}

/// Fills the free positions of an incomplete challenge in order with `+1`
/// until `kappa` positions are nonzero.
fn fill_free_positions(c: Poly, params: &Params) -> (r: Poly)
    requires
        c@.len() == params@.n,
        coeffs_bounded(c@, 1),
        nonzero_count(c@) <= params@.kappa,
    ensures
        r@ == fill_free(c@, params@.kappa, 0, nonzero_count(c@)),
{
    let n = params.n();
    let kappa = params.kappa();
    let mut placed: usize = 0;
    for j in 0..n
        invariant
            n == c@.len(),
            placed == nonzero_count(c@.take(j as int)),
            placed <= j,
    {
        proof {
            assert(c@.take(j + 1).drop_last() =~= c@.take(j as int));
        }
        if c.0[j] != 0 {
            placed = placed + 1;
        }
    }
    proof {
        assert(c@.take(n as int) =~= c@);
    }
    let mut out = c;
    let ghost c0 = out@;
    for j in 0..n
        invariant
            n == out@.len(),
            kappa == params@.kappa,
            fill_free(out@, kappa as nat, j as nat, placed as nat) == fill_free(c0, kappa as nat, 0, nonzero_count(c0)),
    {
        if placed < kappa && out.0[j] == 0 {
            out.0.set(j, 1);
            placed = placed + 1;
        }
    }
    out
}

/// Expands a seed with SHAKE256 into a challenge polynomial with `kappa`
/// coefficients of `+1` or `-1` at distinct positions, reading the output
/// stream until `kappa` positions are placed. Each read takes a stream
/// twice as long as the one before; a challenge still incomplete when the
/// length can no longer double within `isize::MAX` has its free positions
/// filled in order with `+1`, so the result is always a valid challenge.
pub fn sample_challenge(seed: &[u8], params: &Params) -> (r: Poly)
    ensures
        r@ == challenge_of_seed(seed@, params@.n, params@.kappa),
        is_valid_challenge(r@, params@.n, params@.kappa),
        r@.len() == params@.n,
        coeffs_bounded(r@, 1),
{
    proof {
        use_type_invariant(params);
        lemma_challenge_of_seed(seed@, params@.n, params@.kappa);
    }
    let mut len: usize = INITIAL_STREAM_LEN;
    proof {
        reveal(challenge_of_seed);
    }
    loop
        invariant
            INITIAL_STREAM_LEN <= len <= isize::MAX,
            challenge_search(seed@, params@.n, params@.kappa, len as nat)
                == challenge_of_seed(seed@, params@.n, params@.kappa),
            is_valid_challenge(challenge_of_seed(seed@, params@.n, params@.kappa), params@.n, params@.kappa),
        decreases isize::MAX - len,
    {
        let stream = shake256(seed, len);
        let (c, complete) = challenge_from_stream(stream.as_slice(), params);
        if complete {
            return c;
        }
        if len > (isize::MAX as usize) / 2 {
            proof {
                lemma_walk_count(stream@, params@.n, params@.kappa);
            }
            return fill_free_positions(c, params);
        }
        len = len * 2;
    }
}

/// Number of nonzero coefficients.
pub open spec fn nonzero_count(s: Seq<i64>) -> nat
    decreases s.len(),
{
    if s.len() == 0 {
        0
    } else {
        nonzero_count(s.drop_last()) + if s.last() != 0 {
            1nat
        } else {
            0nat
        }
    }
}

proof fn lemma_nonzero_count_zeros(s: Seq<i64>)
    requires
        forall|i: int| 0 <= i < s.len() ==> #[trigger] s[i] == 0,
    ensures
        nonzero_count(s) == 0,
    decreases s.len(),
{
    if s.len() > 0 {
        lemma_nonzero_count_zeros(s.drop_last());
    }
}

/// Writing `v` at position `p` changes the count by the change at `p`.
proof fn lemma_nonzero_count_update(s: Seq<i64>, p: int, v: i64)
    requires
        0 <= p < s.len(),
    ensures
        nonzero_count(s.update(p, v)) + (if s[p] != 0 { 1int } else { 0int })
            == nonzero_count(s) + (if v != 0 { 1int } else { 0int }),
    decreases s.len(),
{
    let u = s.update(p, v);
    if p == s.len() - 1 {
        assert(u.drop_last() =~= s.drop_last());
    } else {
        lemma_nonzero_count_update(s.drop_last(), p, v);
        assert(u.drop_last() =~= s.drop_last().update(p, v));
    }
}

proof fn lemma_walk(stream: Seq<u8>, n: nat, kappa: nat, off: nat, coeffs: Seq<i64>, placed: nat)
    requires
        coeffs.len() == n,
        coeffs_bounded(coeffs, 1),
        nonzero_count(coeffs) == placed,
        placed <= kappa,
    ensures
        challenge_walk(stream, n, kappa, off, coeffs, placed).0.len() == n,
        coeffs_bounded(challenge_walk(stream, n, kappa, off, coeffs, placed).0, 1),
        nonzero_count(challenge_walk(stream, n, kappa, off, coeffs, placed).0) <= kappa,
        challenge_walk(stream, n, kappa, off, coeffs, placed).1 ==> nonzero_count(
            challenge_walk(stream, n, kappa, off, coeffs, placed).0,
        ) == kappa,
    decreases stream.len() - off,
{
    if placed < kappa && off + 2 <= stream.len() {
        let pos = stream[off as int] as int + 256 * (stream[off + 1int] as int);
        if pos >= n || coeffs[pos] != 0 {
            lemma_walk(stream, n, kappa, off + 2, coeffs, placed);
        } else if off + 3 <= stream.len() {
            let sign: i64 = if stream[off + 2int] & 1u8 == 0u8 { 1i64 } else { -1i64 };
            lemma_nonzero_count_update(coeffs, pos, sign);
            lemma_walk(stream, n, kappa, off + 3, coeffs.update(pos, sign), placed + 1);
        }
    }
}

/// The walk from the start of a stream gives `n` coefficients in
/// `{-1, 0, 1}`, at most `kappa` of them nonzero.
proof fn lemma_walk_count(stream: Seq<u8>, n: nat, kappa: nat)
    ensures
        stream_challenge(stream, n, kappa).0.len() == n,
        coeffs_bounded(stream_challenge(stream, n, kappa).0, 1),
        nonzero_count(stream_challenge(stream, n, kappa).0) <= kappa,
        stream_challenge(stream, n, kappa).1 ==> nonzero_count(stream_challenge(stream, n, kappa).0) == kappa,
{
    let zeros = Seq::new(n, |i: int| 0i64);
    lemma_nonzero_count_zeros(zeros);
    lemma_walk(stream, n, kappa, 0, zeros, 0);
}

/// A sequence with no zero has as many nonzero coefficients as entries.
proof fn lemma_nonzero_count_full(s: Seq<i64>)
    requires
        forall|i: int| 0 <= i < s.len() ==> #[trigger] s[i] != 0,
    ensures
        nonzero_count(s) == s.len(),
    decreases s.len(),
{
    if s.len() > 0 {
        lemma_nonzero_count_full(s.drop_last());
    }
}

/// Filling free positions completes a challenge: with fewer than `n`
/// required positions, `kappa` of them end up nonzero.
proof fn lemma_fill_free(c: Seq<i64>, kappa: nat, j: nat, placed: nat)
    requires
        c.len() > kappa,
        coeffs_bounded(c, 1),
        nonzero_count(c) == placed,
        placed <= kappa,
        j <= c.len(),
        placed < kappa ==> forall|k: int| 0 <= k < j ==> #[trigger] c[k] != 0,
    ensures
        fill_free(c, kappa, j, placed).len() == c.len(),
        coeffs_bounded(fill_free(c, kappa, j, placed), 1),
        nonzero_count(fill_free(c, kappa, j, placed)) == kappa,
    decreases c.len() - j,
{
    if j >= c.len() {
        if placed < kappa {
            lemma_nonzero_count_full(c);
        }
    } else if placed < kappa {
        if c[j as int] == 0 {
            let u = c.update(j as int, 1);
            lemma_nonzero_count_update(c, j as int, 1);
            lemma_fill_free(u, kappa, j + 1, placed + 1);
        } else {
            lemma_fill_free(c, kappa, j + 1, placed);
        }
    }
}

proof fn lemma_challenge_search(seed: Seq<u8>, n: nat, kappa: nat, len: nat)
    requires
        INITIAL_STREAM_LEN <= len <= isize::MAX,
        kappa < n,
    ensures
        is_valid_challenge(challenge_search(seed, n, kappa, len), n, kappa),
    decreases isize::MAX - len,
{
    let stream = shake256_output(seed, len);
    lemma_walk_count(stream, n, kappa);
    let w = stream_challenge(stream, n, kappa);
    if !w.1 {
        if len > (isize::MAX as usize) / 2 {
            lemma_fill_free(w.0, kappa, 0, nonzero_count(w.0));
        } else {
            lemma_challenge_search(seed, n, kappa, 2 * len);
        }
    }
}

/// The challenge derived from any seed is valid: `n` coefficients in
/// `{-1, 0, 1}`, exactly `kappa` of them nonzero.
pub proof fn lemma_challenge_of_seed(seed: Seq<u8>, n: nat, kappa: nat)
    requires
        kappa < n,
    ensures
        is_valid_challenge(challenge_of_seed(seed, n, kappa), n, kappa),
{
    reveal(challenge_of_seed);
    lemma_challenge_search(seed, n, kappa, INITIAL_STREAM_LEN as nat);
}

/// At offset `o` the stream names position `p` (little-endian in the two
/// bytes at `o`) and is followed by a sign byte that gives `v`: `+1` for an
/// even byte and `-1` for an odd one.
pub open spec fn placement_at(stream: Seq<u8>, o: int, p: int, v: i64) -> bool {
    &&& 0 <= o
    &&& o + 2 < stream.len()
    &&& stream[o] as int + 256 * (stream[o + 1] as int) == p
    &&& v as int == 1 - 2 * (stream[o + 2] as int % 2)
}

/// Some offset of the stream places `v` at position `p`.
pub open spec fn placed_by_stream(stream: Seq<u8>, p: int, v: i64) -> bool {
    exists|o: int| #[trigger] placement_at(stream, o, p, v)
}

proof fn lemma_sign_bit(b: u8)
    ensures
        (if b & 1u8 == 0u8 { 1i64 } else { -1i64 }) as int == 1 - 2 * (b as int % 2),
{
    assert(b & 1u8 == 0u8 <==> b % 2u8 == 0u8) by (bit_vector);
    assert(b % 2u8 == 0u8 || b % 2u8 == 1u8) by (bit_vector);
}

/// The walk never changes a coefficient that is already nonzero, and every
/// nonzero coefficient it leaves is placed by some offset of the stream.
proof fn lemma_walk_signs(stream: Seq<u8>, n: nat, kappa: nat, off: nat, coeffs: Seq<i64>, placed: nat)
    requires
        coeffs.len() == n,
        forall|p: int| 0 <= p < n && coeffs[p] != 0 ==> placed_by_stream(stream, p, #[trigger] coeffs[p]),
    ensures
        challenge_walk(stream, n, kappa, off, coeffs, placed).0.len() == n,
        forall|p: int|
            0 <= p < n && coeffs[p] != 0 ==> #[trigger] challenge_walk(stream, n, kappa, off, coeffs, placed).0[p]
                == coeffs[p],
        forall|p: int|
            0 <= p < n && #[trigger] challenge_walk(stream, n, kappa, off, coeffs, placed).0[p] != 0
                ==> placed_by_stream(stream, p, challenge_walk(stream, n, kappa, off, coeffs, placed).0[p]),
    decreases stream.len() - off,
{
    if placed < kappa && off + 2 <= stream.len() {
        let pos = stream[off as int] as int + 256 * (stream[off + 1int] as int);
        if pos >= n || coeffs[pos] != 0 {
            lemma_walk_signs(stream, n, kappa, off + 2, coeffs, placed);
        } else if off + 3 <= stream.len() {
            let b = stream[off + 2int];
            let sign: i64 = if b & 1u8 == 0u8 { 1i64 } else { -1i64 };
            lemma_sign_bit(b);
            let u = coeffs.update(pos, sign);
            assert(placement_at(stream, off as int, pos, sign));
            assert forall|p: int| 0 <= p < n && u[p] != 0 implies placed_by_stream(stream, p, #[trigger] u[p]) by {
                if p != pos {
                    assert(coeffs[p] != 0);
                }
            }
            lemma_walk_signs(stream, n, kappa, off + 3, u, placed + 1);
            assert forall|p: int|
                0 <= p < n && coeffs[p] != 0 implies #[trigger] challenge_walk(stream, n, kappa, off, coeffs, placed).0[p]
                == coeffs[p] by {
                assert(u[p] == coeffs[p]);
            }
        }
    }
}

/// The signs of a sampled challenge come from the low bit of the byte after
/// each position: every nonzero coefficient is `+1` or `-1` as an offset of
/// the stream names its position and is followed by an even or an odd byte;
/// and the position named by the first two bytes, when in range and
/// followed by a third byte, is placed first, with the sign of that byte.
pub proof fn lemma_challenge_signs(stream: Seq<u8>, n: nat, kappa: nat)
    ensures
        forall|p: int|
            0 <= p < n && #[trigger] stream_challenge(stream, n, kappa).0[p] != 0 ==> placed_by_stream(
                stream,
                p,
                stream_challenge(stream, n, kappa).0[p],
            ),
        kappa > 0 && stream.len() >= 3 && stream[0] as int + 256 * (stream[1] as int) < n ==> stream_challenge(
            stream,
            n,
            kappa,
        ).0[stream[0] as int + 256 * (stream[1] as int)] as int == 1 - 2 * (stream[2] as int % 2),
{
    let zeros = Seq::new(n, |i: int| 0i64);
    lemma_walk_signs(stream, n, kappa, 0, zeros, 0);
    if kappa > 0 && stream.len() >= 3 && stream[0] as int + 256 * (stream[1] as int) < n {
        let pos = stream[0] as int + 256 * (stream[1] as int);
        let b = stream[2];
        let sign: i64 = if b & 1u8 == 0u8 { 1i64 } else { -1i64 };
        lemma_sign_bit(b);
        let u = zeros.update(pos, sign);
        assert(placement_at(stream, 0, pos, sign));
        assert forall|p: int| 0 <= p < n && u[p] != 0 implies placed_by_stream(stream, p, #[trigger] u[p]) by {
            assert(p == pos);
        }
        lemma_walk_signs(stream, n, kappa, 3, u, 1);
        assert(u[pos] == sign);
    }
}

/// `c` has `n` coefficients, all in `{-1, 0, 1}`, exactly `kappa` of them nonzero.
pub open spec fn is_valid_challenge(c: Seq<i64>, n: nat, kappa: nat) -> bool {
    &&& c.len() == n
    &&& forall|i: int| 0 <= i < c.len() ==> -1 <= #[trigger] c[i] <= 1
    &&& nonzero_count(c) == kappa
}

/// Adding one to a coefficient of a valid challenge makes it invalid: the
/// coefficient leaves `{-1, 0, 1}` or the count of nonzero coefficients
/// changes.
pub proof fn lemma_altered_challenge_invalid(c: Seq<i64>, n: nat, kappa: nat, p: int)
    requires
        is_valid_challenge(c, n, kappa),
        0 <= p < n,
    ensures
        !is_valid_challenge(c.update(p, (c[p] + 1) as i64), n, kappa),
{
    let v = (c[p] + 1) as i64;
    lemma_nonzero_count_update(c, p, v);
    if c[p] == 1 {
        assert(c.update(p, v)[p] == 2);
    }
}

/// A challenge with no nonzero coefficient is not valid.
pub proof fn lemma_zero_challenge_invalid(c: Seq<i64>, n: nat, kappa: nat)
    requires
        kappa > 0,
        forall|i: int| 0 <= i < c.len() ==> #[trigger] c[i] == 0,
    ensures
        !is_valid_challenge(c, n, kappa),
{
    lemma_nonzero_count_zeros(c);
}

/// Whether `c` is a well-shaped challenge for `params`.
pub fn validate_challenge(c: &Poly, params: &Params) -> (r: bool)
    ensures
        r == is_valid_challenge(c@, params@.n, params@.kappa),
{
    if c.0.len() != params.n() {
        return false;
    }
    let len = c.0.len();
    let mut nonzero: usize = 0;
    for i in 0..len
        invariant
            len == c@.len(),
            nonzero == nonzero_count(c@.subrange(0, i as int)),
            nonzero <= i,
            forall|j: int| 0 <= j < i ==> -1 <= #[trigger] c@[j] <= 1,
    {
        proof {
            assert(c@.subrange(0, i + 1).drop_last() =~= c@.subrange(0, i as int));
        }
        let coeff = c.0[i];
        if coeff == 0 {
        } else if coeff == 1 || coeff == -1 {
            nonzero = nonzero + 1;
        } else {
            return false;
        }
    }
    assert(c@.subrange(0, len as int) =~= c@);
    nonzero == params.kappa()
}

/// Each coefficient of `c` replaced by its centered residue modulo `q`.
pub fn normalize_challenge(c: &Poly, params: &Params) -> (r: Poly)
    ensures
        r@ == reduce_spec(c@, params@.q),
{
    proof {
        use_type_invariant(params);
    }
    let q = params.q();
    let len = c.0.len();
    let mut coeffs: Vec<i64> = Vec::with_capacity(len);
    for i in 0..len
        invariant
            len == c@.len(),
            q == params@.q,
            q > 0,
            coeffs@.len() == i,
            forall|j: int| 0 <= j < i ==> coeffs@[j] == centered(c@[j] as int, q as int) as i64,
    {
        coeffs.push(poly_reduce_mod_q(c.0[i] as i128, q));
    }
    let r = Poly(coeffs);
    assert(r@ =~= reduce_spec(c@, params@.q));
    r
}

} // verus!
