//! The random generator behind numpy's `default_rng(seed)`: a seed sequence that stretches an
//! integer seed into state words, and the PCG64 generator with its `choice` and `random` draws.

use crate::lcg::lcg_iter;
use crate::lcg::lemma_lcg_covers;
use vstd::arithmetic::power2::pow2;
use vstd::prelude::*;

verus! {

pub const INIT_A: u32 = 0x43b0d7e5;

pub const MULT_A: u32 = 0x931e8875;

pub const INIT_B: u32 = 0x8b51f9dd;

pub const MULT_B: u32 = 0x58f38ded;

pub const MIX_MULT_L: u32 = 0xca01f9dd;

pub const MIX_MULT_R: u32 = 0x4973f715;

pub const XSHIFT: u32 = 16;

pub const POOL_SIZE: usize = 4;

pub const PCG_MULT: u128 = 0x2360ed051fc65da44385df649fccf645;

// ---------------------------------------------------------------------------
// Seed sequence
// ---------------------------------------------------------------------------

/// A value hashed under `hash_const`, and the hash constant for the next value.
pub open spec fn hashmix_spec(value: u32, hash_const: u32) -> (u32, u32) {
    let next = hash_const.wrapping_mul(MULT_A);
    let v = (value ^ hash_const).wrapping_mul(next);
    (v ^ (v >> XSHIFT), next)
}

/// Two words folded into one.
pub open spec fn mix_spec(x: u32, y: u32) -> u32 {
    let r = MIX_MULT_L.wrapping_mul(x).wrapping_sub(MIX_MULT_R.wrapping_mul(y));
    r ^ (r >> XSHIFT)
}

/// Hashes `value` and advances the hash constant.
pub fn hashmix(value: u32, hash_const: &mut u32) -> (r: u32)
    ensures
        (r, *final(hash_const)) == hashmix_spec(value, *old(hash_const)),
{
    let mut v: u32 = value ^ *hash_const;
    *hash_const = (*hash_const).wrapping_mul(MULT_A);
    v = v.wrapping_mul(*hash_const);
    v ^ (v >> XSHIFT)
}

/// Folds two words into one.
pub fn mix(x: u32, y: u32) -> (r: u32)
    ensures
        r == mix_spec(x, y),
{
    let r: u32 = MIX_MULT_L.wrapping_mul(x).wrapping_sub(MIX_MULT_R.wrapping_mul(y));
    r ^ (r >> XSHIFT)
}

/// The `i`-th 32-bit word of a seed, lowest first; zero past the seed's end.
pub open spec fn entropy_word(seed: u64, i: int) -> u32 {
    if i == 0 {
        (seed & 0xFFFF_FFFF) as u32
    } else if i == 1 {
        (seed >> 32) as u32
    } else {
        0
    }
}

/// The first `n` pool words, each hashed from its entropy word, and the next hash constant.
pub open spec fn pool_init(seed: u64, n: nat) -> (Seq<u32>, u32)
    decreases n,
{
    if n == 0 {
        (Seq::empty(), INIT_A)
    } else {
        let (pool, hc) = pool_init(seed, (n - 1) as nat);
        let (v, hc2) = hashmix_spec(entropy_word(seed, n - 1), hc);
        (pool.push(v), hc2)
    }
}

/// The pool after `t` of the sixteen (source, destination) pairs, taken source by source; a word
/// is not mixed with itself.
pub open spec fn pool_cross(pool: Seq<u32>, hc: u32, t: nat) -> (Seq<u32>, u32)
    decreases t,
{
    if t == 0 {
        (pool, hc)
    } else {
        let (p, h) = pool_cross(pool, hc, (t - 1) as nat);
        let src = (t - 1) / 4;
        let dst = (t - 1) % 4;
        if src == dst {
            (p, h)
        } else {
            let (v, h2) = hashmix_spec(p[src], h);
            (p.update(dst, mix_spec(p[dst], v)), h2)
        }
    }
}

/// The entropy pool of a seed.
pub open spec fn pool_of(seed: u64) -> Seq<u32> {
    let (pool, hc) = pool_init(seed, 4);
    pool_cross(pool, hc, 16).0
}

/// A number whose odd multiple is a multiple of a power of two is one itself.
proof fn lemma_odd_divides(c: int, d: int, k: nat, q: int) -> (r: int)
    requires
        c % 2 == 1,
        c * d == pow2(k) * q,
    ensures
        d == pow2(k) * r,
    decreases k,
{
    if k == 0 {
        assert(pow2(k) == 1) by {
            vstd::arithmetic::power2::lemma2_to64();
        }
        d
    } else {
        let p = pow2((k - 1) as nat) as int;
        let m = c / 2;
        vstd::arithmetic::power2::lemma_pow2_unfold(k);
        assert(pow2(k) == 2 * p);
        let e = p * q - m * d;
        assert(c == 2 * m + 1);
        assert(d == 2 * e) by (nonlinear_arith)
            requires
                c == 2 * m + 1,
                c * d == (2 * p) * q,
                e == p * q - m * d,
        ;
        assert(c * e == p * q) by (nonlinear_arith)
            requires
                d == 2 * e,
                c * d == (2 * p) * q,
        ;
        let r = lemma_odd_divides(c, e, (k - 1) as nat, q);
        assert(d == (2 * p) * r) by (nonlinear_arith)
            requires
                d == 2 * e,
                e == p * r,
        ;
        r
    }
}

/// Multiplying by an odd word loses nothing.
proof fn lemma_odd_product(x: u32, y: u32, c: u32)
    requires
        c % 2 == 1,
        x.wrapping_mul(c) == y.wrapping_mul(c),
    ensures
        x == y,
{
    vstd::arithmetic::power2::lemma2_to64();
    let a = x * c;
    let b = y * c;
    let q = a / 0x1_0000_0000 - b / 0x1_0000_0000;
    assert(a - b == 0x1_0000_0000 * q);
    assert(c * (x - y) == a - b) by (nonlinear_arith)
        requires
            a == x * c,
            b == y * c,
    ;
    let r = lemma_odd_divides(c as int, x - y, 32, q);
    assert(x - y == 0x1_0000_0000 * r);
}

proof fn lemma_odd_stays_odd(x: u32, y: u32)
    requires
        x % 2 == 1,
        y % 2 == 1,
    ensures
        x.wrapping_mul(y) % 2 == 1,
{
    let a = (x / 2) as int;
    let b = (y / 2) as int;
    let n = 2 * (a * b) + a + b;
    assert(x * y == 2 * n + 1) by (nonlinear_arith)
        requires
            x == 2 * a + 1,
            y == 2 * b + 1,
            n == 2 * (a * b) + a + b,
    ;
}

/// Folding the upper half of a word onto its lower half loses nothing.
proof fn lemma_shift_fold(x: u32, y: u32)
    by (bit_vector)
    requires
        x ^ (x >> 16) == y ^ (y >> 16),
    ensures
        x == y,
{
}

/// Under one hash constant different words get different hashes, and the next constant is odd too.
proof fn lemma_hashmix_injective(x: u32, y: u32, hc: u32)
    requires
        hc % 2 == 1,
    ensures
        hashmix_spec(x, hc).1 == hashmix_spec(y, hc).1,
        hashmix_spec(x, hc).1 % 2 == 1,
        hashmix_spec(x, hc).0 == hashmix_spec(y, hc).0 ==> x == y,
{
    let next = hc.wrapping_mul(MULT_A);
    lemma_odd_stays_odd(hc, MULT_A);
    if hashmix_spec(x, hc).0 == hashmix_spec(y, hc).0 {
        lemma_shift_fold((x ^ hc).wrapping_mul(next), (y ^ hc).wrapping_mul(next));
        lemma_odd_product(x ^ hc, y ^ hc, next);
        assert(x == y) by (bit_vector)
            requires
                x ^ hc == y ^ hc,
        ;
    }
}

/// Different words stay different when the same word is folded into them.
proof fn lemma_mix_injective(x: u32, y: u32, v: u32)
    requires
        mix_spec(x, v) == mix_spec(y, v),
    ensures
        x == y,
{
    let a = MIX_MULT_L.wrapping_mul(x);
    let b = MIX_MULT_L.wrapping_mul(y);
    let w = MIX_MULT_R.wrapping_mul(v);
    lemma_shift_fold(a.wrapping_sub(w), b.wrapping_sub(w));
    assert(a == b);
    assert(x * MIX_MULT_L == MIX_MULT_L * x && y * MIX_MULT_L == MIX_MULT_L * y)
        by (nonlinear_arith);
    lemma_odd_product(x, y, MIX_MULT_L);
}

proof fn lemma_cross_shape(p: Seq<u32>, q: Seq<u32>, hc: u32, t: nat)
    requires
        p.len() == 4,
        q.len() == 4,
        hc % 2 == 1,
    ensures
        pool_cross(p, hc, t).0.len() == 4,
        pool_cross(p, hc, t).1 == pool_cross(q, hc, t).1,
        pool_cross(p, hc, t).1 % 2 == 1,
    decreases t,
{
    if t > 0 {
        lemma_cross_shape(p, q, hc, (t - 1) as nat);
        let src = (t - 1) / 4;
        let a = pool_cross(p, hc, (t - 1) as nat);
        let b = pool_cross(q, hc, (t - 1) as nat);
        lemma_hashmix_injective(a.0[src], b.0[src], a.1);
    }
}

/// Mixing the words of a pool with each other loses nothing: each pair leaves its source as it is,
/// and with the source its destination can be told.
proof fn lemma_cross_injective(p: Seq<u32>, q: Seq<u32>, hc: u32, t: nat)
    requires
        p.len() == 4,
        q.len() == 4,
        hc % 2 == 1,
        t <= 16,
        pool_cross(p, hc, t).0 == pool_cross(q, hc, t).0,
    ensures
        p == q,
    decreases t,
{
    if t > 0 {
        let src = (t - 1) / 4;
        let dst = (t - 1) % 4;
        let (a, h) = pool_cross(p, hc, (t - 1) as nat);
        let (b, g) = pool_cross(q, hc, (t - 1) as nat);
        lemma_cross_shape(p, q, hc, (t - 1) as nat);
        lemma_cross_shape(q, p, hc, (t - 1) as nat);
        if src != dst {
            let v = hashmix_spec(a[src], h).0;
            let w = hashmix_spec(b[src], g).0;
            let a2 = a.update(dst, mix_spec(a[dst], v));
            let b2 = b.update(dst, mix_spec(b[dst], w));
            assert(a2 == b2);
            assert(a2[src] == a[src] && b2[src] == b[src]);
            assert(a2[dst] == mix_spec(a[dst], v) && b2[dst] == mix_spec(b[dst], w));
            lemma_mix_injective(a[dst], b[dst], v);
            assert forall|i: int| 0 <= i < 4 implies a[i] == b[i] by {
                if i != dst {
                    assert(a2[i] == a[i] && b2[i] == b[i]);
                }
            }
            assert(a =~= b);
        }
        lemma_cross_injective(p, q, hc, (t - 1) as nat);
    }
}

proof fn lemma_init_shape(a: u64, b: u64, n: nat)
    ensures
        pool_init(a, n).0.len() == n,
        pool_init(a, n).1 == pool_init(b, n).1,
        pool_init(a, n).1 % 2 == 1,
    decreases n,
{
    if n > 0 {
        lemma_init_shape(a, b, (n - 1) as nat);
        lemma_hashmix_injective(
            entropy_word(a, n - 1),
            entropy_word(b, n - 1),
            pool_init(a, (n - 1) as nat).1,
        );
    }
}

proof fn lemma_init_injective(a: u64, b: u64, n: nat)
    requires
        pool_init(a, n).0 == pool_init(b, n).0,
    ensures
        forall|i: int| 0 <= i < n ==> #[trigger] entropy_word(a, i) == entropy_word(b, i),
    decreases n,
{
    if n > 0 {
        let (p, h) = pool_init(a, (n - 1) as nat);
        let (q, g) = pool_init(b, (n - 1) as nat);
        lemma_init_shape(a, b, (n - 1) as nat);
        lemma_init_shape(b, a, (n - 1) as nat);
        let v = hashmix_spec(entropy_word(a, n - 1), h).0;
        let w = hashmix_spec(entropy_word(b, n - 1), g).0;
        assert(p.push(v).last() == q.push(w).last());
        assert(p.push(v).drop_last() =~= p && q.push(w).drop_last() =~= q);
        lemma_hashmix_injective(entropy_word(a, n - 1), entropy_word(b, n - 1), h);
        lemma_init_injective(a, b, (n - 1) as nat);
    }
}

/// Different seeds have different entropy pools.
pub proof fn lemma_pools_differ(a: u64, b: u64)
    ensures
        pool_of(a) == pool_of(b) ==> a == b,
{
    if pool_of(a) == pool_of(b) {
        lemma_init_shape(a, b, 4);
        lemma_init_shape(b, a, 4);
        lemma_cross_injective(pool_init(a, 4).0, pool_init(b, 4).0, pool_init(a, 4).1, 16);
        lemma_init_injective(a, b, 4);
        assert(entropy_word(a, 0) == entropy_word(b, 0));
        assert(entropy_word(a, 1) == entropy_word(b, 1));
        assert(a == b) by (bit_vector)
            requires
                (a & 0xFFFF_FFFF) as u32 == (b & 0xFFFF_FFFF) as u32,
                (a >> 32) as u32 == (b >> 32) as u32,
        ;
    }
}

/// The hash constant for the `i`-th generated word.
pub open spec fn generate_hash(i: nat) -> u32
    decreases i,
{
    if i == 0 {
        INIT_B
    } else {
        generate_hash((i - 1) as nat).wrapping_mul(MULT_B)
    }
}

/// The `i`-th 32-bit word generated from a pool, which is read round and round.
pub open spec fn generate_word(pool: Seq<u32>, i: nat) -> u32 {
    let d = (pool[i as int % 4] ^ generate_hash(i)).wrapping_mul(generate_hash(i + 1));
    d ^ (d >> XSHIFT)
}

/// The `i`-th 64-bit word generated from a pool: two 32-bit words, the first one low.
pub open spec fn generate_word64(pool: Seq<u32>, i: nat) -> u64 {
    ((generate_word(pool, 2 * i + 1) as u64) << 32) | (generate_word(pool, 2 * i) as u64)
}

proof fn lemma_generate_hash_odd(i: nat)
    ensures
        generate_hash(i) % 2 == 1,
    decreases i,
{
    if i > 0 {
        lemma_generate_hash_odd((i - 1) as nat);
        lemma_odd_stays_odd(generate_hash((i - 1) as nat), MULT_B);
    }
}

/// Words generated at the same place from different pool words differ.
proof fn lemma_generate_injective(p: Seq<u32>, q: Seq<u32>, i: nat)
    requires
        generate_word(p, i) == generate_word(q, i),
    ensures
        p[i as int % 4] == q[i as int % 4],
{
    let x = p[i as int % 4];
    let y = q[i as int % 4];
    let hc = generate_hash(i);
    let next = generate_hash(i + 1);
    lemma_generate_hash_odd(i + 1);
    lemma_shift_fold((x ^ hc).wrapping_mul(next), (y ^ hc).wrapping_mul(next));
    lemma_odd_product(x ^ hc, y ^ hc, next);
    assert(x == y) by (bit_vector)
        requires
            x ^ hc == y ^ hc,
    ;
}

/// Different seeds generate different words, and show it in the first two.
pub proof fn lemma_states_differ(a: u64, b: u64)
    requires
        a != b,
    ensures
        generate_word64(pool_of(a), 0) != generate_word64(pool_of(b), 0) || generate_word64(
            pool_of(a),
            1,
        ) != generate_word64(pool_of(b), 1),
{
    let p = pool_of(a);
    let q = pool_of(b);
    if generate_word64(p, 0) == generate_word64(q, 0) && generate_word64(p, 1) == generate_word64(
        q,
        1,
    ) {
        lemma_double_word(
            generate_word(p, 0),
            generate_word(p, 1),
            generate_word(q, 0),
            generate_word(q, 1),
        );
        lemma_double_word(
            generate_word(p, 2),
            generate_word(p, 3),
            generate_word(q, 2),
            generate_word(q, 3),
        );
        lemma_generate_injective(p, q, 0);
        lemma_generate_injective(p, q, 1);
        lemma_generate_injective(p, q, 2);
        lemma_generate_injective(p, q, 3);
        lemma_init_shape(a, b, 4);
        lemma_init_shape(b, a, 4);
        lemma_cross_shape(pool_init(a, 4).0, pool_init(b, 4).0, pool_init(a, 4).1, 16);
        lemma_cross_shape(pool_init(b, 4).0, pool_init(a, 4).0, pool_init(b, 4).1, 16);
        assert(p =~= q);
        lemma_pools_differ(a, b);
    }
}

/// A double word can be told apart into its halves.
proof fn lemma_double_word(x: u32, y: u32, v: u32, w: u32)
    by (bit_vector)
    requires
        ((y as u64) << 32) | (x as u64) == ((w as u64) << 32) | (v as u64),
    ensures
        x == v,
        y == w,
{
}

/// An entropy pool.
pub struct SeedSequence {
    pool: [u32; POOL_SIZE],
}

impl View for SeedSequence {
    type V = Seq<u32>;

    closed spec fn view(&self) -> Seq<u32> {
        self.pool@
    }
}

impl SeedSequence {
    /// The pool of `seed`.
    pub fn new(seed: u64) -> (r: Self)
        ensures
            r@ == pool_of(seed),
    {
        let mut pool: [u32; POOL_SIZE] = [0u32; POOL_SIZE];
        let mut hc: u32 = INIT_A;
        let mut i: usize = 0;
        while i < POOL_SIZE
            invariant
                i <= POOL_SIZE,
                pool@.take(i as int) == pool_init(seed, i as nat).0,
                hc == pool_init(seed, i as nat).1,
            decreases POOL_SIZE - i,
        {
            let val: u32 = if i == 0 {
                (seed & 0xFFFF_FFFF) as u32
            } else if i == 1 {
                (seed >> 32) as u32
            } else {
                0
            };
            let ghost before = pool@;
            let h: u32 = hashmix(val, &mut hc);
            pool[i] = h;
            proof {
                assert(pool@.take(i + 1) =~= before.take(i as int).push(h));
            }
            i += 1;
        }
        let ghost pool0 = pool@;
        let ghost hc0 = hc;
        proof {
            assert(pool@.take(4) =~= pool@);
        }
        let mut s: usize = 0;
        while s < POOL_SIZE
            invariant
                s <= POOL_SIZE,
                (pool@, hc) == pool_cross(pool0, hc0, (4 * s) as nat),
            decreases POOL_SIZE - s,
        {
            let mut d: usize = 0;
            while d < POOL_SIZE
                invariant
                    s < POOL_SIZE,
                    d <= POOL_SIZE,
                    (pool@, hc) == pool_cross(pool0, hc0, (4 * s + d) as nat),
                decreases POOL_SIZE - d,
            {
                proof {
                    let t = (4 * s + d + 1) as nat;
                    assert((t - 1) / 4 == s as int && (t - 1) % 4 == d as int);
                }
                if s != d {
                    let h: u32 = hashmix(pool[s], &mut hc);
                    pool[d] = mix(pool[d], h);
                }
                d += 1;
            }
            s += 1;
        }
        SeedSequence { pool }
    }

    /// The first `n` 64-bit words generated from the pool.
    pub fn generate_state_u64(&self, n: usize) -> (r: Vec<u64>)
        requires
            2 * n <= usize::MAX,
        ensures
            r@ == Seq::new(n as nat, |i: int| generate_word64(self@, i as nat)),
    {
        let mut words: Vec<u32> = Vec::new();
        let mut hc: u32 = INIT_B;
        let mut i: usize = 0;
        while i < 2 * n
            invariant
                2 * n <= usize::MAX,
                i <= 2 * n,
                hc == generate_hash(i as nat),
                words@ == Seq::new(i as nat, |j: int| generate_word(self@, j as nat)),
            decreases 2 * n - i,
        {
            let mut d: u32 = self.pool[i % POOL_SIZE];
            d = d ^ hc;
            hc = hc.wrapping_mul(MULT_B);
            d = d.wrapping_mul(hc);
            d = d ^ (d >> XSHIFT);
            proof {
                assert(hc == generate_hash((i + 1) as nat));
                assert(d == generate_word(self@, i as nat));
            }
            words.push(d);
            i += 1;
        }
        let mut out: Vec<u64> = Vec::new();
        let mut k: usize = 0;
        while k < n
            invariant
                2 * n <= usize::MAX,
                k <= n,
                words@ == Seq::new((2 * n) as nat, |j: int| generate_word(self@, j as nat)),
                out@ == Seq::new(k as nat, |j: int| generate_word64(self@, j as nat)),
            decreases n - k,
        {
            let v: u64 = ((words[2 * k + 1] as u64) << 32) | (words[2 * k] as u64);
            out.push(v);
            k += 1;
        }
        out
    }
}

// ---------------------------------------------------------------------------
// PCG64
// ---------------------------------------------------------------------------

/// What a generator holds: the 128-bit state and increment, and the 32-bit half that the next
/// 32-bit draw will hand out.
#[verifier::ext_equal]
pub struct PcgState {
    pub state: u128,
    pub inc: u128,
    pub has_uint32: bool,
    pub uinteger: u32,
}

/// The state after one step.
pub open spec fn pcg_step(state: u128, inc: u128) -> u128 {
    state.wrapping_mul(PCG_MULT).wrapping_add(inc)
}

/// A 64-bit word turned right by `r` places.
pub open spec fn rotate_right64(v: u64, r: u32) -> u64 {
    (v >> r) | (v << (((64 - r) as u32) & 63))
}

/// The 64-bit word that a state gives out: its halves xored, turned by its top six bits.
pub open spec fn pcg_output(state: u128) -> u64 {
    rotate_right64(((state >> 64) as u64) ^ (state as u64), ((state >> 122) as u32) & 63)
}

impl PcgState {
    /// The state that a seed gives.
    pub open spec fn seeded(seed: u64) -> PcgState {
        let pool = pool_of(seed);
        let w0 = generate_word64(pool, 0);
        let w1 = generate_word64(pool, 1);
        let w2 = generate_word64(pool, 2);
        let w3 = generate_word64(pool, 3);
        let initstate = ((w0 as u128) << 64) | (w1 as u128);
        let initseq = ((w2 as u128) << 64) | (w3 as u128);
        let inc = (initseq << 1) | 1;
        PcgState {
            state: pcg_step(pcg_step(0, inc).wrapping_add(initstate), inc),
            inc,
            has_uint32: false,
            uinteger: 0,
        }
    }

    /// The next 64-bit draw.
    pub open spec fn draw64(self) -> u64 {
        pcg_output(pcg_step(self.state, self.inc))
    }

    /// The generator after a 64-bit draw.
    pub open spec fn after64(self) -> PcgState {
        PcgState { state: pcg_step(self.state, self.inc), ..self }
    }

    /// The next 32-bit draw: the half kept from the last one, else the low half of a new word.
    pub open spec fn draw32(self) -> u32 {
        if self.has_uint32 {
            self.uinteger
        } else {
            self.draw64() as u32
        }
    }

    /// The generator after a 32-bit draw.
    pub open spec fn after32(self) -> PcgState {
        if self.has_uint32 {
            PcgState { has_uint32: false, ..self }
        } else {
            PcgState {
                state: pcg_step(self.state, self.inc),
                inc: self.inc,
                has_uint32: true,
                uinteger: (self.draw64() >> 32) as u32,
            }
        }
    }

    /// The generator after `k` 32-bit draws.
    pub open spec fn after32_times(self, k: nat) -> PcgState
        decreases k,
    {
        if k == 0 {
            self
        } else {
            self.after32_times((k - 1) as nat).after32()
        }
    }

    /// The `k`-th 32-bit draw, counted from zero.
    pub open spec fn nth_draw32(self, k: nat) -> u32 {
        self.after32_times(k).draw32()
    }

    /// The `k`-th 32-bit draw is the first one that a choice among `n` accepts.
    pub open spec fn first_accepted(self, n: u32, k: nat) -> bool {
        &&& choice_accepts(n, self.nth_draw32(k))
        &&& forall|j: nat| j < k ==> !choice_accepts(n, #[trigger] self.nth_draw32(j))
    }

    /// How many 32-bit draws a choice among `n` rejects.
    pub open spec fn rejections(self, n: u32) -> nat {
        choose|k: nat| self.first_accepted(n, k)
    }

    /// The number that a choice among `n` picks.
    pub open spec fn choice_value(self, n: u32) -> u32 {
        if n == 1 {
            0
        } else {
            scaled(n, self.nth_draw32(self.rejections(n)))
        }
    }

    /// The generator after a choice among `n`; a choice among one draws nothing.
    pub open spec fn after_choice(self, n: u32) -> PcgState {
        if n == 1 {
            self
        } else {
            self.after32_times(self.rejections(n) + 1)
        }
    }

    /// The next draw of a fraction, in units of `2^-53`.
    pub open spec fn draw_fraction(self) -> u64 {
        self.draw64() >> 11
    }
}

/// Whether a choice among `n` accepts the draw `x`: the low half of `x * n` is not among the
/// `2^32 % n` smallest values, which would favour some numbers over others.
pub open spec fn choice_accepts(n: u32, x: u32) -> bool {
    n == 0 || (x * n) % 0x1_0000_0000 >= 0x1_0000_0000int % n as int
}

/// A draw scaled down to a number below `n`.
pub open spec fn scaled(n: u32, x: u32) -> u32 {
    ((x * n) / 0x1_0000_0000) as u32
}

/// A choice among `n` is fair: the draws that it accepts for a number are a run of `2^32 / n` of
/// them, as many for each number below `n`, so that every number can be chosen.
pub proof fn lemma_choice_fair(n: u32, k: u32) -> (from: int)
    requires
        k < n,
    ensures
        0 <= from,
        from + 0x1_0000_0000int / n as int <= 0x1_0000_0000,
        0x1_0000_0000int / n as int > 0,
        forall|x: u32|
            (#[trigger] choice_accepts(n, x) && scaled(n, x) == k) <==> from <= x < from
                + 0x1_0000_0000int / n as int,
{
    let w: int = 0x1_0000_0000;
    let m = n as int;
    let t = w % m;
    let q = w / m;
    let low = k * w + t;
    let from = (low + m - 1) / m;
    vstd::arithmetic::div_mod::lemma_fundamental_div_mod(w, m);
    vstd::arithmetic::div_mod::lemma_fundamental_div_mod(low + m - 1, m);
    vstd::arithmetic::div_mod::lemma_mod_bound(low + m - 1, m);
    vstd::arithmetic::div_mod::lemma_mod_bound(w, m);
    assert(w == m * q + t);
    assert(q > 0) by (nonlinear_arith)
        requires
            w == m * q + t,
            0 <= t < m,
            m <= w,
    ;
    assert(0 <= low) by (nonlinear_arith)
        requires
            low == k * w + t,
            0 <= k,
            0 <= t,
            w > 0,
    ;
    assert(low <= m * from < low + m);
    assert(m * (from + q) == m * from + m * q) by (nonlinear_arith);
    assert(low + m * q == (k + 1) * w) by (nonlinear_arith)
        requires
            low == k * w + t,
            w == m * q + t,
    ;
    assert forall|x: u32| (#[trigger] choice_accepts(n, x) && scaled(n, x) == k) <==> from <= x
        < from + q by {
        let p = (x * n) as int;
        assert(p == m * x) by (nonlinear_arith)
            requires
                p == x * n,
                m == n,
        ;
        vstd::arithmetic::div_mod::lemma_fundamental_div_mod(p, w);
        vstd::arithmetic::div_mod::lemma_mod_bound(p, w);
        assert(0 <= p < w * m) by (nonlinear_arith)
            requires
                p == m * x,
                0 <= x < w,
                m > 0,
        ;
        assert(0 <= p / w < m) by (nonlinear_arith)
            requires
                0 <= p < w * m,
                p == w * (p / w) + p % w,
                0 <= p % w < w,
                w > 0,
        ;
        let hit = p % w >= t && p / w == k;
        if hit {
            assert(low <= p < (k + 1) * w) by (nonlinear_arith)
                requires
                    p == w * (p / w) + p % w,
                    t <= p % w < w,
                    p / w == k,
                    low == k * w + t,
            ;
        }
        if low <= p && p < (k + 1) * w {
            assert(p / w == k) by (nonlinear_arith)
                requires
                    p == w * (p / w) + p % w,
                    0 <= p % w < w,
                    low <= p < (k + 1) * w,
                    low == k * w + t,
                    0 <= t,
                    w > 0,
            ;
            assert(p % w == p - k * w) by (nonlinear_arith)
                requires
                    p == w * (p / w) + p % w,
                    p / w == k,
            ;
        }
        assert(hit <==> low <= p < (k + 1) * w);
        if from <= x {
            assert(m * from <= p) by (nonlinear_arith)
                requires
                    from <= x,
                    p == m * x,
                    m > 0,
            ;
        } else {
            assert(p <= m * from - m) by (nonlinear_arith)
                requires
                    x <= from - 1,
                    p == m * x,
                    m > 0,
            ;
        }
        if x < from + q {
            assert(p <= m * (from + q) - m) by (nonlinear_arith)
                requires
                    x <= from + q - 1,
                    p == m * x,
                    m > 0,
            ;
        } else {
            assert(p >= m * (from + q)) by (nonlinear_arith)
                requires
                    x >= from + q,
                    p == m * x,
                    m > 0,
            ;
        }
    }
    assert(from + q <= w) by (nonlinear_arith)
        requires
            m * from < low + m,
            low + m * q == (k + 1) * w,
            k + 1 <= m,
            m > 0,
            w > 0,
    ;
    from
}

/// A choice among one draws nothing; a choice among more scales the first draw that it accepts, and
/// uses up that draw and those before it.
pub proof fn lemma_choice_draws(p: PcgState, n: u32, k: nat)
    requires
        choice_accepts(n, p.nth_draw32(k)),
        forall|j: nat| j < k ==> !choice_accepts(n, #[trigger] p.nth_draw32(j)),
    ensures
        p.choice_value(1) == 0,
        p.after_choice(1) == p,
        n != 1 ==> p.choice_value(n) as int == p.nth_draw32(k) * n / 0x1_0000_0000,
        n != 1 ==> p.after_choice(n) == p.after32_times(k + 1),
{
    assert(p.first_accepted(n, k));
    lemma_first_accepted_unique(p, n, k);
    let x = p.nth_draw32(k);
    assert(0 <= (x * n) / 0x1_0000_0000 < 0x1_0000_0000) by {
        assert(0 <= x * n < 0x1_0000_0000 * 0x1_0000_0000) by (nonlinear_arith)
            requires
                0 <= x < 0x1_0000_0000,
                0 <= n < 0x1_0000_0000,
        ;
    }
}

/// Two 32-bit draws in a row take the two halves of one 64-bit draw, the low half first, and leave
/// the generator as that draw does.
pub proof fn lemma_halves_drawn(p: PcgState)
    requires
        !p.has_uint32,
    ensures
        p.nth_draw32(0) == p.draw64() as u32,
        p.nth_draw32(1) == (p.draw64() >> 32) as u32,
        p.after32_times(2).draw64() == p.after64().draw64(),
        !p.after32_times(2).has_uint32,
{
    reveal_with_fuel(PcgState::after32_times, 3);
}

/// The number of steps from `state` until the state is one, less one.
spec fn steps_to_one(state: u128, inc: u128) -> nat {
    choose|k: nat| reaches_one_first(state, inc, k)
}

spec fn pcg_iter(state: u128, inc: u128, k: nat) -> u128
    decreases k,
{
    if k == 0 {
        state
    } else {
        pcg_step(pcg_iter(state, inc, (k - 1) as nat), inc)
    }
}

spec fn reaches_one_first(state: u128, inc: u128, k: nat) -> bool {
    &&& pcg_iter(state, inc, k + 1) == 1
    &&& forall|j: nat| j < k ==> #[trigger] pcg_iter(state, inc, j + 1) != 1
}

proof fn lemma_pow2_128()
    ensures
        pow2(128) == 0x1_0000_0000_0000_0000_0000_0000_0000_0000int,
{
    vstd::arithmetic::power2::lemma2_to64();
    vstd::arithmetic::power2::lemma_pow2_adds(64, 64);
    assert(pow2(64) == 0x1_0000_0000_0000_0000);
    assert(0x1_0000_0000_0000_0000nat * 0x1_0000_0000_0000_0000nat
        == 0x1_0000_0000_0000_0000_0000_0000_0000_0000nat) by (nonlinear_arith);
}

/// One step is the linear congruential map modulo `2^128`.
proof fn lemma_step_mod(state: u128, inc: u128)
    ensures
        pcg_step(state, inc) as int == (PCG_MULT * state + inc)
            % 0x1_0000_0000_0000_0000_0000_0000_0000_0000int,
{
    let m = 0x1_0000_0000_0000_0000_0000_0000_0000_0000int;
    let p = (state as nat * PCG_MULT as nat) as int;
    assert(p == PCG_MULT * state) by (nonlinear_arith)
        requires
            p == (state as nat * PCG_MULT as nat) as int,
    ;
    let w = p % m;
    vstd::arithmetic::div_mod::lemma_add_mod_noop(p, inc as int, m);
    vstd::arithmetic::div_mod::lemma_small_mod(inc as nat, m as nat);
    assert((w + inc) % m == (p + inc) % m);
    if w + inc >= m {
        vstd::arithmetic::div_mod::lemma_mod_sub_multiples_vanish(w + inc, m);
        vstd::arithmetic::div_mod::lemma_small_mod((w + inc - m) as nat, m as nat);
    } else {
        vstd::arithmetic::div_mod::lemma_small_mod((w + inc) as nat, m as nat);
    }
}

/// The states of the generator are the residues of a linear congruential sequence.
proof fn lemma_iter_mod(state: u128, inc: u128, k: nat)
    ensures
        pcg_iter(state, inc, k) as int == lcg_iter(state as int, PCG_MULT as int, inc as int, k)
            % 0x1_0000_0000_0000_0000_0000_0000_0000_0000int,
    decreases k,
{
    let m = 0x1_0000_0000_0000_0000_0000_0000_0000_0000int;
    if k == 0 {
        vstd::arithmetic::div_mod::lemma_small_mod(state as nat, m as nat);
    } else {
        let h = (k - 1) as nat;
        lemma_iter_mod(state, inc, h);
        let s = pcg_iter(state, inc, h);
        let l = lcg_iter(state as int, PCG_MULT as int, inc as int, h);
        lemma_step_mod(s, inc);
        vstd::arithmetic::div_mod::lemma_mul_mod_noop_right(PCG_MULT as int, l, m);
        vstd::arithmetic::div_mod::lemma_add_mod_noop(PCG_MULT * s, inc as int, m);
        vstd::arithmetic::div_mod::lemma_add_mod_noop(PCG_MULT * l, inc as int, m);
    }
}

proof fn lemma_least(state: u128, inc: u128, k: nat)
    requires
        pcg_iter(state, inc, k + 1) == 1,
    ensures
        exists|d: nat| reaches_one_first(state, inc, d),
    decreases k,
{
    if !reaches_one_first(state, inc, k) {
        let j = choose|j: nat| j < k && #[trigger] pcg_iter(state, inc, j + 1) == 1;
        lemma_least(state, inc, j);
    }
}

/// Every state comes to the state one.
proof fn lemma_reaches_one(state: u128, inc: u128)
    requires
        inc % 2 == 1,
    ensures
        reaches_one_first(state, inc, steps_to_one(state, inc)),
{
    let m = 0x1_0000_0000_0000_0000_0000_0000_0000_0000int;
    let s1 = pcg_step(state, inc);
    let (k, q) = lemma_lcg_covers(s1 as int, 1, PCG_MULT as int, inc as int, 128);
    lemma_pow2_128();
    lemma_iter_mod(s1, inc, k);
    let l = lcg_iter(s1 as int, PCG_MULT as int, inc as int, k);
    assert(l == m * q + 1);
    vstd::arithmetic::div_mod::lemma_mod_multiples_vanish(q, 1, m);
    vstd::arithmetic::div_mod::lemma_small_mod(1, m as nat);
    lemma_iter_shift(state, inc, k);
    lemma_least(state, inc, k);
}

proof fn lemma_iter_shift(state: u128, inc: u128, k: nat)
    ensures
        pcg_iter(state, inc, k + 1) == pcg_iter(pcg_step(state, inc), inc, k),
    decreases k,
{
    if k > 0 {
        lemma_iter_shift(state, inc, (k - 1) as nat);
    } else {
        assert(pcg_iter(state, inc, 1) == pcg_step(pcg_iter(state, inc, 0), inc));
    }
}

/// A step that does not come to one brings it one step nearer.
proof fn lemma_step_nearer(state: u128, inc: u128)
    requires
        inc % 2 == 1,
        pcg_step(state, inc) != 1,
    ensures
        steps_to_one(pcg_step(state, inc), inc) + 1 == steps_to_one(state, inc),
{
    let s1 = pcg_step(state, inc);
    let d = steps_to_one(state, inc);
    let d1 = steps_to_one(s1, inc);
    lemma_reaches_one(state, inc);
    lemma_reaches_one(s1, inc);
    lemma_iter_shift(state, inc, d);
    lemma_iter_shift(state, inc, d1 + 1);
    lemma_iter_shift(state, inc, 0);
    assert(pcg_iter(s1, inc, 0) == s1);
    assert(d != 0);
    assert(pcg_iter(s1, inc, ((d - 1) as nat) + 1) == 1);
    assert(pcg_iter(state, inc, (d1 + 1) + 1) == 1);
    if d1 + 1 < d {
        assert(pcg_iter(state, inc, (d1 + 1) + 1) != 1);
    }
    if d < d1 + 1 {
        assert(pcg_iter(s1, inc, ((d - 1) as nat) + 1) != 1);
    }
}

/// The state one gives out the word one.
proof fn lemma_output_of_one()
    ensures
        pcg_output(1) as u32 == 1,
{
    assert(pcg_output(1) as u32 == 1) by (bit_vector);
}

/// Every choice accepts the draw one.
proof fn lemma_one_accepted(n: u32)
    ensures
        choice_accepts(n, 1),
{
    if n != 0 {
        assert((1 * n as int) % 0x1_0000_0000 == n);
        vstd::arithmetic::div_mod::lemma_mod_bound(0x1_0000_0000, n as int);
    }
}

/// What the rejection loop of a choice counts down.
spec fn draws_left(p: PcgState) -> nat {
    2 * steps_to_one(p.state, p.inc) + (if p.has_uint32 {
        1nat
    } else {
        0
    })
}

/// A rejected draw leaves fewer draws to come.
proof fn lemma_rejected_draw(p: PcgState, n: u32)
    requires
        p.inc % 2 == 1,
        !choice_accepts(n, p.draw32()),
    ensures
        draws_left(p.after32()) < draws_left(p),
{
    if !p.has_uint32 {
        if pcg_step(p.state, p.inc) == 1 {
            lemma_output_of_one();
            lemma_one_accepted(n);
        }
        lemma_step_nearer(p.state, p.inc);
    }
}

proof fn lemma_first_accepted_unique(p: PcgState, n: u32, k: nat)
    requires
        p.first_accepted(n, k),
    ensures
        p.rejections(n) == k,
{
    let r = p.rejections(n);
    assert(p.first_accepted(n, r));
    if r < k {
        assert(!choice_accepts(n, p.nth_draw32(r)));
    }
    if k < r {
        assert(!choice_accepts(n, p.nth_draw32(k)));
    }
}

/// The PCG64 generator.
pub struct Pcg64 {
    state: u128,
    inc: u128,
    has_uint32: bool,
    uinteger: u32,
}

impl View for Pcg64 {
    type V = PcgState;

    closed spec fn view(&self) -> PcgState {
        PcgState {
            state: self.state,
            inc: self.inc,
            has_uint32: self.has_uint32,
            uinteger: self.uinteger,
        }
    }
}

impl Pcg64 {
    #[verifier::type_invariant]
    spec fn inv(self) -> bool {
        self.inc % 2 == 1
    }

    /// The generator that `seed` gives.
    pub fn new(seed: u64) -> (r: Self)
        ensures
            r@ == PcgState::seeded(seed),
    {
        let s: Vec<u64> = SeedSequence::new(seed).generate_state_u64(4);
        let initstate: u128 = ((s[0] as u128) << 64) | (s[1] as u128);
        let initseq: u128 = ((s[2] as u128) << 64) | (s[3] as u128);
        let inc: u128 = (initseq << 1) | 1;
        assert(((initseq << 1u32) | 1u128) % 2 == 1) by (bit_vector);
        let mut state: u128 = 0;
        state = state.wrapping_mul(PCG_MULT).wrapping_add(inc);
        state = state.wrapping_add(initstate);
        state = state.wrapping_mul(PCG_MULT).wrapping_add(inc);
        Pcg64 { state, inc, has_uint32: false, uinteger: 0 }
    }

    /// The next 64-bit draw.
    pub fn next_u64(&mut self) -> (r: u64)
        ensures
            r == old(self)@.draw64(),
            final(self)@ == old(self)@.after64(),
    {
        proof {
            use_type_invariant(&*self);
        }
        self.state = self.state.wrapping_mul(PCG_MULT).wrapping_add(self.inc);
        let st: u128 = self.state;
        let hi: u64 = (st >> 64) as u64;
        let lo: u64 = st as u64;
        let val: u64 = hi ^ lo;
        let rot: u32 = (st >> 122) as u32 & 63;
        assert(((st >> 122u32) as u32) & 63 < 64) by (bit_vector);
        let rest: u32 = 64 - rot;
        let back: u32 = rest & 63;
        assert(rest & 63 < 64) by (bit_vector);
        (val >> rot) | (val << back)
    }

    /// The next 32-bit draw.
    pub fn next_u32(&mut self) -> (r: u32)
        ensures
            r == old(self)@.draw32(),
            final(self)@ == old(self)@.after32(),
    {
        proof {
            use_type_invariant(&*self);
        }
        if self.has_uint32 {
            self.has_uint32 = false;
            return self.uinteger;
        }
        let v: u64 = self.next_u64();
        proof {
            use_type_invariant(&*self);
        }
        self.uinteger = (v >> 32) as u32;
        self.has_uint32 = true;
        v as u32
    }

    /// The next draw of a fraction in `[0, 1)`, in units of `2^-53`.
    pub fn random(&mut self) -> (r: u64)
        ensures
            r == old(self)@.draw_fraction(),
            r < 0x20_0000_0000_0000,
            final(self)@ == old(self)@.after64(),
    {
        let v: u64 = self.next_u64();
        assert((v >> 11u32) < 0x20_0000_0000_0000) by (bit_vector);
        v >> 11
    }

    /// A number below `n`, every one equally likely. A choice among one draws nothing.
    pub fn choice(&mut self, n: u32) -> (r: u32)
        ensures
            n == 1 || old(self)@.first_accepted(n, old(self)@.rejections(n)),
            r == old(self)@.choice_value(n),
            final(self)@ == old(self)@.after_choice(n),
            n > 0 ==> r < n,
    {
        if n == 1 {
            return 0;
        }
        let ghost start = self@;
        let mut rnd: u64 = self.next_u32() as u64;
        let ghost mut k: nat = 0;
        proof {
            lemma_draw_product(rnd as u32, n);
            reveal_with_fuel(PcgState::after32_times, 2);
        }
        let mut m: u64 = rnd * (n as u64);
        let mut leftover: u32 = (m & 0xFFFF_FFFF) as u32;
        proof {
            lemma_halves(m);
        }
        if leftover < n {
            let threshold: u32 = 0u32.wrapping_sub(n) % n;
            proof {
                lemma_threshold(n);
            }
            while leftover < threshold
                invariant
                    n > 1,
                    rnd == start.nth_draw32(k),
                    m == rnd * n,
                    leftover == m as int % 0x1_0000_0000,
                    threshold == 0x1_0000_0000int % n as int,
                    self@ == start.after32_times(k + 1),
                    forall|j: nat| j < k ==> !choice_accepts(n, #[trigger] start.nth_draw32(j)),
                decreases
                        (if leftover < threshold {
                            draws_left(self@) + 1
                        } else {
                            0
                        }),
            {
                let ghost before = self@;
                proof {
                    use_type_invariant(&*self);
                    assert(!choice_accepts(n, start.nth_draw32(k)));
                }
                rnd = self.next_u32() as u64;
                proof {
                    lemma_draw_product(rnd as u32, n);
                    k = k + 1;
                }
                m = rnd * (n as u64);
                leftover = (m & 0xFFFF_FFFF) as u32;
                proof {
                    lemma_halves(m);
                    if leftover < threshold {
                        assert(!choice_accepts(n, before.draw32()));
                        lemma_rejected_draw(before, n);
                    }
                }
            }
        } else {
            proof {
                if n != 0 {
                    vstd::arithmetic::div_mod::lemma_mod_bound(0x1_0000_0000, n as int);
                }
            }
        }
        proof {
            assert(start.first_accepted(n, k));
            lemma_first_accepted_unique(start, n, k);
            lemma_halves(m);
            if n > 0 {
                assert((rnd as int) * (n as int) < 0x1_0000_0000 * (n as int)) by (nonlinear_arith)
                    requires
                        rnd < 0x1_0000_0000,
                        n > 0,
                ;
            }
        }
        (m >> 32) as u32
    }
}

proof fn lemma_draw_product(x: u32, n: u32)
    ensures
        0 <= (x as u64) * (n as u64) <= u64::MAX,
{
    assert(0 <= (x as u64) * (n as u64) <= 0xFFFF_FFFF * 0xFFFF_FFFF) by (nonlinear_arith)
        requires
            x <= 0xFFFF_FFFFu32,
            n <= 0xFFFF_FFFFu32,
    ;
}

proof fn lemma_halves(m: u64)
    ensures
        ((m & 0xFFFF_FFFF) as u32) as int == m as int % 0x1_0000_0000,
        ((m >> 32u32) as u32) as int == m as int / 0x1_0000_0000,
{
    assert(((m & 0xFFFF_FFFF) as u32) as u64 == m % 0x1_0000_0000) by (bit_vector);
    assert(((m >> 32u32) as u32) as u64 == m / 0x1_0000_0000) by (bit_vector);
}

proof fn lemma_threshold(n: u32)
    requires
        n > 0,
    ensures
        0u32.wrapping_sub(n) as int % n as int == 0x1_0000_0000int % n as int,
{
    vstd::arithmetic::div_mod::lemma_mod_sub_multiples_vanish(0x1_0000_0000, n as int);
}

/// A seed is taken in words: its lower half, its upper half, and nothing after them.
pub proof fn lemma_entropy(seed: u64, i: int)
    ensures
        entropy_word(seed, 0) + 0x1_0000_0000 * entropy_word(seed, 1) == seed,
        i > 1 ==> entropy_word(seed, i) == 0,
{
    assert((seed & 0xFFFF_FFFF) as u32 == seed % 0x1_0000_0000) by (bit_vector);
    assert((seed >> 32) as u32 == seed / 0x1_0000_0000) by (bit_vector);
}

/// A fraction is the upper 53 bits of a draw.
pub proof fn lemma_fraction(p: PcgState)
    ensures
        p.draw_fraction() == p.draw64() / 2048,
        p.draw_fraction() < 0x20_0000_0000_0000,
{
    let x = p.draw64();
    assert(x >> 11 == x / 2048) by (bit_vector);
}

} // verus!
