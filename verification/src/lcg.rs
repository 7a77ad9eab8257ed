//! Linear congruential sequences `x -> a*x + c` over the integers, and the proof that modulo a
//! power of two such a sequence passes through every residue when `a % 4 == 1` and `c` is odd.

use vstd::arithmetic::power2::lemma_pow2_unfold;
use vstd::arithmetic::power2::pow2;
use vstd::prelude::*;

verus! {

/// The `k`-th value of the sequence that starts at `x`.
pub open spec fn lcg_iter(x: int, a: int, c: int, k: nat) -> int
    decreases k,
{
    if k == 0 {
        x
    } else {
        a * lcg_iter(x, a, c, (k - 1) as nat) + c
    }
}

/// Running `j` steps and then `k` more is running `j + k` steps.
pub proof fn lemma_lcg_iter_add(x: int, a: int, c: int, j: nat, k: nat)
    ensures
        lcg_iter(x, a, c, j + k) == lcg_iter(lcg_iter(x, a, c, j), a, c, k),
    decreases k,
{
    if k > 0 {
        lemma_lcg_iter_add(x, a, c, j, (k - 1) as nat);
    }
}

/// `2^e` steps at once are the map `x -> mul*x + add`.
spec fn jump_mul(a: int, e: nat) -> int
    decreases e,
{
    if e == 0 {
        a
    } else {
        jump_mul(a, (e - 1) as nat) * jump_mul(a, (e - 1) as nat)
    }
}

spec fn jump_add(a: int, c: int, e: nat) -> int
    decreases e,
{
    if e == 0 {
        c
    } else {
        jump_mul(a, (e - 1) as nat) * jump_add(a, c, (e - 1) as nat) + jump_add(
            a,
            c,
            (e - 1) as nat,
        )
    }
}

proof fn lemma_jump_is_iter(x: int, a: int, c: int, e: nat)
    ensures
        lcg_iter(x, a, c, pow2(e)) == jump_mul(a, e) * x + jump_add(a, c, e),
    decreases e,
{
    if e == 0 {
        assert(pow2(0) == 1) by {
            vstd::arithmetic::power2::lemma2_to64();
        }
        assert(lcg_iter(x, a, c, 1) == a * lcg_iter(x, a, c, 0) + c);
    } else {
        lemma_pow2_unfold(e);
        let h = (e - 1) as nat;
        let y = lcg_iter(x, a, c, pow2(h));
        assert(pow2(e) == pow2(h) + pow2(h));
        lemma_lcg_iter_add(x, a, c, pow2(h), pow2(h));
        lemma_jump_is_iter(x, a, c, h);
        lemma_jump_is_iter(y, a, c, h);
        let m = jump_mul(a, h);
        let n = jump_add(a, c, h);
        assert(m * (m * x + n) + n == (m * m) * x + (m * n + n)) by (nonlinear_arith);
    }
}

/// With `a % 4 == 1` and `c` odd, the jump multiplier is `1 + 2^(e+2) * r.0` and the jump
/// increment is `2^e * (2 * r.1 + 1)`.
proof fn lemma_jump_shape(a: int, c: int, e: nat) -> (r: (int, int))
    requires
        a % 4 == 1,
        c % 2 == 1,
    ensures
        jump_mul(a, e) == 1 + 4 * (pow2(e) * r.0),
        jump_add(a, c, e) == pow2(e) * (2 * r.1 + 1),
    decreases e,
{
    if e == 0 {
        assert(pow2(0) == 1) by {
            vstd::arithmetic::power2::lemma2_to64();
        }
        let r = ((a - 1) / 4, (c - 1) / 2);
        assert(1 * r.0 == r.0 && 1 * (2 * r.1 + 1) == 2 * r.1 + 1);
        r
    } else {
        lemma_pow2_unfold(e);
        let h = (e - 1) as nat;
        let p = pow2(h) as int;
        let (q, t) = lemma_jump_shape(a, c, h);
        let m = jump_mul(a, h);
        let n = jump_add(a, c, h);
        let q2 = q + 2 * (p * q * q);
        let t2 = t + p * q + 2 * (t * (p * q));
        assert(m * m == 1 + 4 * ((2 * p) * q2)) by (nonlinear_arith)
            requires
                m == 1 + 4 * (p * q),
                q2 == q + 2 * (p * q * q),
        ;
        assert(m * n + n == (2 * p) * (2 * t2 + 1)) by (nonlinear_arith)
            requires
                m == 1 + 4 * (p * q),
                n == p * (2 * t + 1),
                t2 == t + p * q + 2 * (t * (p * q)),
        ;
        (q2, t2)
    }
}

/// Among the first `2^e` values of the sequence one agrees with `target` modulo `2^e`: the
/// `r.0`-th, which differs from `target` by `2^e * r.1`.
pub proof fn lemma_lcg_covers(x: int, target: int, a: int, c: int, e: nat) -> (r: (nat, int))
    requires
        a % 4 == 1,
        c % 2 == 1,
    ensures
        r.0 < pow2(e),
        lcg_iter(x, a, c, r.0) - target == pow2(e) * r.1,
    decreases e,
{
    if e == 0 {
        assert(pow2(0) == 1) by {
            vstd::arithmetic::power2::lemma2_to64();
        }
        (0, x - target)
    } else {
        lemma_pow2_unfold(e);
        let h = (e - 1) as nat;
        let p = pow2(h) as int;
        let (k, m) = lemma_lcg_covers(x, target, a, c, h);
        let y = lcg_iter(x, a, c, k);
        if m % 2 == 0 {
            assert(p * m == (2 * p) * (m / 2)) by (nonlinear_arith)
                requires
                    m % 2 == 0,
            ;
            (k, m / 2)
        } else {
            let (q, t) = lemma_jump_shape(a, c, h);
            lemma_jump_is_iter(y, a, c, h);
            lemma_lcg_iter_add(x, a, c, k, pow2(h));
            let w = (m - 1) / 2 + 2 * (q * y) + t + 1;
            let mm = jump_mul(a, h);
            let nn = jump_add(a, c, h);
            assert(mm * y + nn - target == (2 * p) * w) by (nonlinear_arith)
                requires
                    mm == 1 + 4 * (p * q),
                    nn == p * (2 * t + 1),
                    y - target == p * m,
                    m == 2 * ((m - 1) / 2) + 1,
                    w == (m - 1) / 2 + 2 * (q * y) + t + 1,
            ;
            (k + pow2(h), w)
        }
    }
}

} // verus!
