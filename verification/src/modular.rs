//! Integers modulo a small prime.
use vstd::arithmetic::div_mod::*;
use vstd::arithmetic::mul::*;
use vstd::arithmetic::power::*;
use vstd::prelude::*;

verus! {

/// `x` and `y` leave the same residue modulo `q`.
pub open spec fn same(x: int, y: int, q: int) -> bool {
    x % q == y % q
}

pub proof fn lemma_reduced(x: int, q: int)
    requires
        q > 0,
    ensures
        same(x % q, x, q),
        0 <= x % q < q,
{
    lemma_mod_twice(x, q);
    lemma_mod_bound(x, q);
}

pub proof fn lemma_add(x: int, y: int, a: int, b: int, q: int)
    requires
        q > 0,
        same(x, a, q),
        same(y, b, q),
    ensures
        same(x + y, a + b, q),
{
    lemma_add_mod_noop(x, y, q);
    lemma_add_mod_noop(a, b, q);
}

pub proof fn lemma_sub(x: int, y: int, a: int, b: int, q: int)
    requires
        q > 0,
        same(x, a, q),
        same(y, b, q),
    ensures
        same(x - y, a - b, q),
{
    lemma_sub_mod_noop(x, y, q);
    lemma_sub_mod_noop(a, b, q);
}

pub proof fn lemma_mul(x: int, y: int, a: int, b: int, q: int)
    requires
        q > 0,
        same(x, a, q),
        same(y, b, q),
    ensures
        same(x * y, a * b, q),
{
    lemma_mul_mod_noop(x, y, q);
    lemma_mul_mod_noop(a, b, q);
}

/// Residues in range are equal where they are congruent.
pub proof fn lemma_small(x: int, y: int, q: int)
    requires
        0 <= x < q,
        0 <= y < q,
        same(x, y, q),
    ensures
        x == y,
{
    lemma_small_mod(x as nat, q as nat);
    lemma_small_mod(y as nat, q as nat);
}

/// Multiples of `q` vanish.
pub proof fn lemma_multiple(x: int, k: int, q: int)
    requires
        q > 0,
    ensures
        same(x + k * q, x, q),
        same(k * q, 0, q),
{
    lemma_mod_multiples_vanish(k, x, q);
    lemma_mod_multiples_vanish(k, 0, q);
    assert(q * k == k * q) by (nonlinear_arith);
}

/// Powers of congruent numbers are congruent.
pub proof fn lemma_power(x: int, y: int, e: nat, q: int)
    requires
        q > 0,
        same(x, y, q),
    ensures
        same(pow(x, e), pow(y, e), q),
    decreases e,
{
    reveal(pow);
    if e > 0 {
        lemma_power(x, y, (e - 1) as nat, q);
        lemma_mul(x, pow(x, (e - 1) as nat), y, pow(y, (e - 1) as nat), q);
    }
}

/// A power whose exponent is a multiple of the order is 1.
pub proof fn lemma_order(x: int, order: nat, k: nat, q: int)
    requires
        q > 0,
        same(pow(x, order), 1, q),
    ensures
        same(pow(x, order * k), 1, q),
    decreases k,
{
    if k == 0 {
        assert(order * 0 == 0) by (nonlinear_arith);
        lemma_pow0(x);
    } else {
        lemma_order(x, order, (k - 1) as nat, q);
        assert(order * k == order * ((k - 1) as nat) + order) by (nonlinear_arith)
            requires
                k >= 1,
        ;
        lemma_pow_adds(x, order * ((k - 1) as nat), order);
        lemma_mul(pow(x, order * ((k - 1) as nat)), pow(x, order), 1, 1, q);
    }
}

/// `base^e mod q`.
pub fn pow_mod(base: u64, e: u64, q: u64) -> (r: u64)
    requires
        1 < q <= 0x1_0000,
    ensures
        r == pow(base as int, e as nat) % (q as int),
        r < q,
{
    let mut r: u64 = 1;
    let mut b: u64 = base % q;
    let mut k: u64 = e;
    proof {
        lemma_reduced(base as int, q as int);
        lemma_small_mod(1, q as nat);
        lemma_power(b as int, base as int, e as nat, q as int);
        assert(1 * pow(b as int, k as nat) == pow(b as int, k as nat));
    }
    while k > 0
        invariant
            1 < q <= 0x1_0000,
            r < q,
            b < q,
            same(r * pow(b as int, k as nat), pow(base as int, e as nat), q as int),
        decreases k,
    {
        let ghost (r0, b0, k0) = (r as int, b as int, k as nat);
        proof {
            assert(r * b < 0x1_0000 * 0x1_0000) by (nonlinear_arith)
                requires
                    r < 0x1_0000,
                    b < 0x1_0000,
            ;
            assert(b * b < 0x1_0000 * 0x1_0000) by (nonlinear_arith)
                requires
                    b < 0x1_0000,
            ;
        }
        if k % 2 == 1 {
            r = r * b % q;
        }
        b = b * b % q;
        k = k / 2;
        proof {
            lemma_halve(r0, b0, k0, q as int);
        }
    }
    proof {
        lemma_pow0(b as int);
        lemma_small_mod(r as nat, q as nat);
        assert(r * 1 == r);
    }
    r
}

proof fn lemma_halve(r: int, b: int, k: nat, q: int)
    requires
        q > 0,
        k > 0,
    ensures
        same(
            (if k % 2 == 1 {
                r * b % q
            } else {
                r
            }) * pow(b * b % q, k / 2),
            r * pow(b, k),
            q,
        ),
{
    let h = k / 2;
    lemma_reduced(b * b, q);
    lemma_power(b * b % q, b * b, h, q);
    lemma_pow_multiplies(b, 2, h);
    lemma_pow1(b);
    lemma_pow_adds(b, 1, 1);
    assert(pow(b, 2) == b * b);
    let t = pow(b, 2 * h);
    if k % 2 == 1 {
        assert(k == 1 + 2 * h);
        lemma_pow_adds(b, 1, 2 * h);
        lemma_reduced(r * b, q);
        lemma_mul(r * b % q, pow(b * b % q, h), r * b, t, q);
        assert(r * b * t == r * (b * t)) by (nonlinear_arith);
    } else {
        assert(k == 2 * h);
        lemma_mul(r, pow(b * b % q, h), r, t, q);
    }
}

} // verus!
