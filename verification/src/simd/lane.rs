//! Sixteen-bit lane arithmetic modulo a limb's prime: two reductions and a Montgomery product, with
//! the bounds the transforms are scheduled by.
use crate::modular;
use crate::modular::same;
use crate::params;
use vstd::arithmetic::div_mod::*;
use vstd::prelude::*;

verus! {

/// The magnitude of a lane.
pub open spec fn abs(x: int) -> int {
    if x < 0 {
        -x
    } else {
        x
    }
}

/// The number in a lane that is `x` modulo `2^16`.
pub open spec fn wrapped(x: int) -> int {
    (x + 32768) % 65536 - 32768
}

proof fn lemma_wrapped(x: int)
    ensures
        -32768 <= wrapped(x) < 32768,
        same(wrapped(x), x, 65536),
        -32768 <= x < 32768 ==> wrapped(x) == x,
{
    lemma_mod_bound(x + 32768, 65536);
    modular::lemma_reduced(x + 32768, 65536);
    modular::lemma_sub((x + 32768) % 65536, 32768, x + 32768, 32768, 65536);
    if -32768 <= x < 32768 {
        lemma_small_mod((x + 32768) as nat, 65536);
    }
}

/// `x` in a lane, dropping what does not fit.
fn wrap(x: i64) -> (r: i16)
    requires
        -0x1000_0000_0000_0000 < x < 0x1000_0000_0000_0000,
    ensures
        r == wrapped(x as int),
{
    let k: i64 = 0x1000_0000_0000_0000;
    let y: i64 = (x + 32768 + k) % 65536;
    proof {
        assert(k == 65536 * 0x1000_0000_0000);
        lemma_mod_multiples_vanish(0x1000_0000_0000, x + 32768, 65536);
    }
    (y - 32768) as i16
}

// ---------------------------------------------------------------------------------------------
// the lookup reduction
// ---------------------------------------------------------------------------------------------

/// The signed value of a five-bit window.
pub open spec fn window_value(s: int) -> int {
    if s < 16 {
        s
    } else {
        s - 32
    }
}

/// The multiple of `q` nearest to the middle of the interval whose window is `s`.
pub open spec fn nearest(s: int, q: int) -> int {
    let num = 4096 * window_value(s) + 2047;
    if num >= 0 {
        (num + q) / (2 * q)
    } else {
        -((-num + q) / (2 * q))
    }
}

proof fn lemma_nearest(s: int, q: int)
    requires
        0 <= s < 32,
        q > 0,
    ensures
        -q <= 4096 * window_value(s) + 2047 - 2 * q * nearest(s, q) <= q,
{
    let num = 4096 * window_value(s) + 2047;
    let d = 2 * q;
    let m = if num >= 0 {
        num
    } else {
        -num
    };
    let k = (m + q) / d;
    lemma_fundamental_div_mod(m + q, d);
    lemma_mod_bound(m + q, d);
    assert(m - d * k == (m + q) % d - q);
    if num < 0 {
        assert(d * -k == -(d * k)) by (nonlinear_arith);
    }
}

/// Quotient estimate of the lookup reduction: the multiple of `q` subtracted from a value whose
/// five-bit window `(a >> 11) & 31` is `s`. The value is then known to lie in an interval of width
/// `2^11` centred at `2048 s + 1023.5`, and this is the nearest multiple to that centre.
pub fn lut_k(s: usize, q: u16) -> (k: i64)
    requires
        s < 32,
        q > 0,
    ensures
        k == nearest(s as int, q as int),
        -32768 <= k <= 32768,
{
    let sgn: i64 = if s < 16 {
        s as i64
    } else {
        s as i64 - 32
    };
    let num: i64 = 4096 * sgn + 2047;
    let q1: i64 = q as i64;
    let den: i64 = 2 * q1;
    let m: i64 = if num >= 0 {
        num
    } else {
        -num
    };
    let k: i64 = (m + q1) / den;
    proof {
        lemma_fundamental_div_mod(m + q1, den as int);
        lemma_mod_bound(m + q1, den as int);
        assert(0 <= k <= 32768) by (nonlinear_arith)
            requires
                den * k <= m + q1,
                0 <= m <= 65535,
                den == 2 * q1,
                q1 >= 1,
                k * den + den > m + q1,
        ;
    }
    if num >= 0 {
        k
    } else {
        -k
    }
}

/// What the lookup reduction adds for window `s`: minus the estimated multiple of `q`, in a lane.
pub fn barrett_lut_corr(s: usize, q: u16) -> (c: i16)
    requires
        s < 32,
        q > 0,
    ensures
        c == wrapped(-nearest(s as int, q as int) * q),
{
    let k: i64 = lut_k(s, q);
    let q1: i64 = q as i64;
    proof {
        assert(-0x8000_0000 <= k * q1 <= 0x8000_0000) by (nonlinear_arith)
            requires
                -32768 <= k <= 32768,
                0 <= q1 <= 65535,
        ;
        assert(-(k * q1) == -k * q1) by (nonlinear_arith);
    }
    wrap(-(k * q1))
}

/// Byte `u` of the table of corrections: the low halves at `u < 32`, the high halves behind them.
pub fn lut_byte(u: usize, q: u16) -> (b: u8)
    requires
        u < 64,
        q > 0,
    ensures
        u < 32 ==> b == wrapped(-nearest(u as int, q as int) * q) % 256,
        u >= 32 ==> b == wrapped(-nearest(u - 32, q as int) * q) % 65536 / 256,
{
    let c: i16 = barrett_lut_corr(u % 32, q);
    let w: i32 = if c < 0 {
        c as i32 + 65536
    } else {
        c as i32
    };
    proof {
        let x = c as int;
        if x < 0 {
            lemma_mod_multiples_vanish(1, x, 65536);
            lemma_mod_multiples_vanish(256, x, 256);
        }
        lemma_small_mod(w as nat, 65536);
        assert(w as int % 256 == x % 256);
    }
    if u < 32 {
        (w % 256) as u8
    } else {
        (w / 256) as u8
    }
}

/// The five-bit window of a lane.
pub open spec fn window(a: int) -> int {
    a / 2048 % 32
}

/// `a` less the nearest multiple of `q` to its window's centre.
pub open spec fn lookup_reduced(a: int, q: int) -> int {
    a - nearest(window(a), q) * q
}

proof fn lemma_window(a: int)
    requires
        -32768 <= a < 32768,
    ensures
        0 <= window(a) < 32,
        2048 * window_value(window(a)) <= a <= 2048 * window_value(window(a)) + 2047,
{
    let f = a / 2048;
    assert(-16 <= f < 16);
    assert(2048 * f <= a <= 2048 * f + 2047);
    if f >= 0 {
        lemma_small_mod(f as nat, 32);
    } else {
        lemma_mod_multiples_vanish(1, f, 32);
        lemma_small_mod((f + 32) as nat, 32);
    }
}

/// The lookup reduction leaves at most half of `q` and half of a window: for every lane the
/// magnitude is at most `q/2 + 2^10`.
pub proof fn lookup_bound(a: int, q: int)
    requires
        -32768 <= a < 32768,
        q > 0,
    ensures
        2 * abs(lookup_reduced(a, q)) <= q + 2047,
        same(lookup_reduced(a, q), a, q),
{
    lemma_window(a);
    let s = window(a);
    let k = nearest(s, q);
    lemma_nearest(s, q);
    let num = 4096 * window_value(s) + 2047;
    assert(-2047 <= 2 * a - num <= 2047);
    assert(2 * q * k == 2 * (k * q)) by (nonlinear_arith);
    modular::lemma_multiple(a, -k, q);
    assert(-k * q == -(k * q)) by (nonlinear_arith);
}

/// One lane through the lookup reduction.
pub fn barrett_lut_i16(a: i16, q: u16) -> (r: i16)
    requires
        0 < q <= 32767,
    ensures
        r == lookup_reduced(a as int, q as int),
        2 * abs(r as int) <= q + 2047,
        same(r as int, a as int, q as int),
{
    let f: i32 = (a as i32 + 32768) / 2048;
    let s: usize = ((f + 16) % 32) as usize;
    proof {
        let x = a as int;
        assert((x + 32768) / 2048 == x / 2048 + 16);
        lemma_mod_multiples_vanish(1, x / 2048, 32);
        assert(s == window(x));
        lookup_bound(x, q as int);
    }
    let c: i16 = barrett_lut_corr(s, q);
    let r: i16 = wrap(a as i64 + c as i64);
    proof {
        let (x, m) = (a as int, -nearest(window(a as int), q as int) * q);
        assert(m == -(nearest(window(a as int), q as int) * q)) by (nonlinear_arith)
            requires
                m == -nearest(window(a as int), q as int) * q,
        ;
        lemma_wrapped(m);
        lemma_wrapped(x + m);
        modular::lemma_add(x, c as int, x, m, 65536);
        lemma_wrapped(x + c);
        assert(same(x + c, x + m, 65536));
        assert((x + c + 32768) % 65536 == (x + m + 32768) % 65536) by {
            modular::lemma_add(x + c, 32768, x + m, 32768, 65536);
        }
    }
    r
}

// ---------------------------------------------------------------------------------------------
// the multiplying reduction
// ---------------------------------------------------------------------------------------------

/// The quotient estimate of the multiplying reduction at the two primes above `2^14`, where
/// `round(2^15 / q)` is two.
pub open spec fn estimate(a: int) -> int {
    (4 * a + 32768) / 65536
}

/// The multiplying reduction at a prime above `2^14`: `t = round(2 a / 2^15)`, `r = a - t q`.
pub fn barrett_mul_i16(a: i16, q: u16) -> (r: i16)
    requires
        q == 17497 || q == 19441,
    ensures
        r == a - estimate(a as int) * q,
        same(r as int, a as int, q as int),
{
    let t: i32 = ((4 * (a as i32) + 32768) + 262144) / 65536 - 4;
    proof {
        let x = 4 * (a as int) + 32768;
        assert((x + 262144) / 65536 == x / 65536 + 4);
        assert(-2 <= t <= 2);
        modular::lemma_multiple(a as int, -(t as int), q as int);
        assert(-(t as int) * q == -(t * q)) by (nonlinear_arith);
        assert(65536 * t <= x < 65536 * t + 65536);
    }
    let m: i32 = q as i32;
    proof {
        assert(-2 * 19441 <= t * m <= 2 * 19441) by (nonlinear_arith)
            requires
                -2 <= t <= 2,
                0 <= m <= 19441,
        ;
        if t == 2 {
            assert(t * m == 2 * m);
        } else if t == 1 {
            assert(t * m == m);
        } else if t == 0 {
            assert(t * m == 0);
        } else if t == -1 {
            assert(t * m == -m);
        } else {
            assert(t * m == -2 * m);
        }
    }
    (a as i32 - t * m) as i16
}

/// The largest magnitude the multiplying reduction leaves.
pub fn barrett_mul_max(q: u16) -> (m: i32)
    requires
        q == 17497 || q == 19441,
    ensures
        forall|a: int|
            -32768 <= a < 32768 ==> abs(a - (#[trigger] estimate(a)) * q) <= m,
        exists|a: int| -32768 <= a < 32768 && abs(a - (#[trigger] estimate(a)) * q) == m,
        0 < m <= 32767,
{
    let mut m: i32 = 0;
    let mut a: i32 = -32768;
    let ghost mut at: int = 0;
    while a < 32768
        invariant
            q == 17497 || q == 19441,
            -32768 <= a <= 32768,
            0 <= m <= 32767,
            forall|x: int| -32768 <= x < a ==> abs(x - (#[trigger] estimate(x)) * q) <= m,
            a == -32768 ==> m == 0,
            a > -32768 ==> -32768 <= at < a && abs(at - estimate(at) * q) == m,
        decreases 32768 - a,
    {
        let r: i32 = barrett_mul_i16(a as i16, q) as i32;
        let s: i32 = if r < 0 {
            -r
        } else {
            r
        };
        proof {
            let x = a as int;
            assert(r == x - estimate(x) * q);
            assert(s <= 32767) by {
                let t = estimate(x);
                assert(-2 <= t <= 2);
                if t == 2 {
                    assert(t * q == 2 * q);
                } else if t == 1 {
                    assert(t * q == q);
                } else if t == 0 {
                    assert(t * q == 0);
                } else if t == -1 {
                    assert(t * q == -q);
                } else {
                    assert(t * q == -2 * q);
                }
            }
            if s > m || a == -32768 {
                at = x;
            }
        }
        if s > m {
            m = s;
        }
        a += 1;
    }
    proof {
        assert(abs(at - estimate(at) * q) == m);
        assert(estimate(1) == 0);
        assert(abs(1 - estimate(1) * q) <= m) by {
            assert(estimate(1) * q == 0) by (nonlinear_arith)
                requires
                    estimate(1) == 0,
            ;
        }
    }
    m
}

/// The largest magnitude the lookup reduction leaves.
pub fn barrett_lut_max(q: u16) -> (m: i32)
    requires
        0 < q <= 32767,
    ensures
        forall|a: int| -32768 <= a < 32768 ==> abs(#[trigger] lookup_reduced(a, q as int)) <= m,
        exists|a: int|
            -32768 <= a < 32768 && abs(#[trigger] lookup_reduced(a, q as int)) == m,
        0 <= m,
        2 * m <= q + 2047,
{
    let mut m: i32 = -1;
    let mut a: i32 = -32768;
    let ghost mut at: int = 0;
    while a < 32768
        invariant
            0 < q <= 32767,
            -32768 <= a <= 32768,
            -1 <= m,
            2 * m <= q + 2047,
            forall|x: int|
                -32768 <= x < a ==> abs(#[trigger] lookup_reduced(x, q as int)) <= m,
            a == -32768 ==> m == -1,
            a > -32768 ==> -32768 <= at < a && abs(lookup_reduced(at, q as int)) == m,
        decreases 32768 - a,
    {
        let r: i32 = barrett_lut_i16(a as i16, q) as i32;
        let s: i32 = if r < 0 {
            -r
        } else {
            r
        };
        proof {
            if s > m {
                at = a as int;
            }
        }
        if s > m {
            m = s;
        }
        a += 1;
    }
    proof {
        assert(abs(lookup_reduced(at, q as int)) == m);
    }
    m
}

/// Does the growth of a transform without reductions, seven and a half times `q`, leave a lane?
pub fn needs_barrett(q: u16) -> (r: bool)
    ensures
        r == (15 * q >= 65536),
{
    15 * (q as u32) >= 65536
}

/// The largest lane of the binary transform at the primes below `2^14`, in thousandths of `q`.
pub open spec fn declared_milli(q: u16) -> int {
    if 15 * q >= 65536 {
        2294
    } else {
        7500
    }
}

/// The output bound of the binary transform as a multiple of `q`, in thousandths.
pub fn output_bound_milli_q(q: u16) -> (b: u32)
    ensures
        b == declared_milli(q),
{
    if needs_barrett(q) {
        2294
    } else {
        7500
    }
}

// ---------------------------------------------------------------------------------------------
// the Montgomery product
// ---------------------------------------------------------------------------------------------

/// A multiplier in Montgomery form with its companion.
#[derive(Clone, Copy, Debug)]
pub struct Twiddle {
    pub w: i16,
    pub wp: i16,
}

/// The multiplier is centred, and the companion is the multiplier over `q` modulo `2^16`.
pub open spec fn paired(t: Twiddle, q: int) -> bool {
    &&& 2 * abs(t.w as int) <= q
    &&& same(t.wp * q, t.w as int, 65536)
}

/// `t` stands for the multiplier `z`: `w` is `2^16 z` modulo `q`.
pub open spec fn stands_for(t: Twiddle, z: int, q: int) -> bool {
    same(t.w as int, 65536 * z, q)
}

/// Twice a number is nothing modulo an odd `q` only where the number is.
proof fn lemma_half(x: int, q: int)
    requires
        q > 0,
        q % 2 == 1,
        same(2 * x, 0, q),
    ensures
        same(x, 0, q),
{
    lemma_small_mod(0, q as nat);
    lemma_fundamental_div_mod(2 * x, q);
    let k = 2 * x / q;
    assert(2 * x == q * k);
    assert(k % 2 == 0) by {
        if k % 2 == 1 {
            let (a, b) = (q / 2, k / 2);
            assert(q * k == 2 * (2 * a * b + a + b) + 1) by (nonlinear_arith)
                requires
                    q == 2 * a + 1,
                    k == 2 * b + 1,
            ;
        }
    }
    let h = k / 2;
    assert(x == h * q) by (nonlinear_arith)
        requires
            2 * x == q * k,
            k == 2 * h,
    ;
    lemma_mod_multiples_basic(h, q);
}

/// Cancelling a power of two.
proof fn lemma_cancel(x: int, n: nat, q: int)
    requires
        q > 0,
        q % 2 == 1,
        same(vstd::arithmetic::power2::pow2(n) * x, 0, q),
    ensures
        same(x, 0, q),
    decreases n,
{
    if n == 0 {
        vstd::arithmetic::power2::lemma2_to64();
        assert(1 * x == x);
    } else {
        let m = (n - 1) as nat;
        let p = vstd::arithmetic::power2::pow2(m) as int;
        vstd::arithmetic::power2::lemma_pow2_unfold(n);
        assert(2 * p * x == 2 * (p * x)) by (nonlinear_arith);
        lemma_half(p * x, q);
        lemma_cancel(x, m, q);
    }
}

/// The bound of a Montgomery product of a lane of magnitude `b`.
pub open spec fn product_bound(b: int, q: int) -> int {
    b * q / 131072 + (q + 1) / 2
}

/// `|mont(a, w)| <= |a| q / 2^17 + q/2`.
pub fn mont_bound(b: i32, q: u16) -> (r: i32)
    requires
        0 <= b <= 0x100_0000,
        q <= 32767,
    ensures
        r == product_bound(b as int, q as int),
        0 <= r <= b / 4 + 16384,
{
    let (x, m): (i64, i64) = (b as i64, q as i64);
    proof {
        assert(0 <= x * m <= x * 32767) by (nonlinear_arith)
            requires
                0 <= x,
                0 <= m <= 32767,
        ;
    }
    (x * m / 131072) as i32 + (q as i32 + 1) / 2
}

/// The bound grows with the lane.
pub proof fn product_bound_monotone(a: int, b: int, q: int)
    requires
        a <= b,
        q > 0,
    ensures
        product_bound(a, q) <= product_bound(b, q),
{
    assert(a * q <= b * q) by (nonlinear_arith)
        requires
            a <= b,
            q > 0,
    ;
    lemma_div_is_ordered(a * q, b * q, 131072);
}

proof fn lemma_mont(a: int, t: Twiddle, m: int, r: int, z: int, q: int)
    requires
        q > 0,
        q % 2 == 1,
        stands_for(t, z, q),
        65536 * r == a * t.w - m * q,
    ensures
        same(r, a * z, q),
{
    // r 2^16 == a w == a z 2^16 modulo q
    modular::lemma_multiple(a * t.w, -m, q);
    assert(-m * q == -(m * q)) by (nonlinear_arith);
    modular::lemma_mul(a, t.w as int, a, 65536 * z, q);
    assert(a * (65536 * z) == 65536 * (a * z)) by (nonlinear_arith);
    modular::lemma_sub(65536 * r, 65536 * (a * z), 65536 * (a * z), 65536 * (a * z), q);
    let d = r - a * z;
    assert(65536 * r - 65536 * (a * z) == 65536 * d) by (nonlinear_arith)
        requires
            d == r - a * z,
    ;
    vstd::arithmetic::power2::lemma2_to64();
    assert(vstd::arithmetic::power2::pow2(16) == 65536);
    lemma_cancel(d, 16, q);
    modular::lemma_add(d, a * z, 0, a * z, q);
}

proof fn lemma_mont_bound(a: int, t: Twiddle, m: int, r: int, q: int)
    requires
        q > 0,
        2 * abs(t.w as int) <= q,
        65536 * r == a * t.w - m * q,
        -32768 <= m <= 32768,
    ensures
        abs(r) <= product_bound(abs(a), q),
        65536 * abs(r) <= abs(a) * abs(t.w as int) + 32768 * q,
{
    let (x, w) = (abs(a), abs(t.w as int));
    assert(abs(a * t.w) == x * w) by (nonlinear_arith)
        requires
            x == abs(a),
            w == abs(t.w as int),
    ;
    assert(2 * (x * w) <= x * q) by (nonlinear_arith)
        requires
            0 <= x,
            2 * w <= q,
    ;
    assert(-32768 * q <= m * q <= 32768 * q) by (nonlinear_arith)
        requires
            -32768 <= m <= 32768,
            q > 0,
    ;
    assert(131072 * abs(r) <= x * q + 65536 * q);
    let y = x * q;
    let k = y / 131072;
    lemma_fundamental_div_mod(y, 131072);
    assert(abs(r) <= k + (q + 1) / 2);
}

/// Signed Montgomery product: the lane times the twiddle's multiplier, modulo `q`.
pub fn mont(a: i16, t: &Twiddle, q: u16) -> (r: i16)
    requires
        0 < q <= 32767,
        q % 2 == 1,
        paired(*t, q as int),
        product_bound(abs(a as int), q as int) <= 32767,
    ensures
        forall|z: int| #[trigger] stands_for(*t, z, q as int) ==> same(r as int, a * z, q as int),
        abs(r as int) <= product_bound(abs(a as int), q as int),
        65536 * abs(r as int) <= abs(a as int) * abs(t.w as int) + 32768 * q,
{
    let (x, w, wp, m): (i64, i64, i64, i64) = (a as i64, t.w as i64, t.wp as i64, q as i64);
    proof {
        assert(-0x4000_0000 <= x * wp <= 0x4000_0000) by (nonlinear_arith)
            requires
                -32768 <= x <= 32767,
                -32768 <= wp <= 32767,
        ;
        assert(-0x4000_0000 <= x * w <= 0x4000_0000) by (nonlinear_arith)
            requires
                -32768 <= x <= 32767,
                -32768 <= w <= 32767,
        ;
    }
    let l: i64 = wrap(x * wp) as i64;
    proof {
        assert(-0x4000_0000 <= l * m <= 0x4000_0000) by (nonlinear_arith)
            requires
                -32768 <= l <= 32767,
                0 <= m <= 32767,
        ;
        // the difference is a multiple of 2^16
        lemma_wrapped(x * wp);
        modular::lemma_mul(l as int, m as int, x * wp, m as int, 65536);
        assert(x * wp * m == x * (wp * m)) by (nonlinear_arith);
        modular::lemma_mul(x as int, wp * m, x as int, w as int, 65536);
        modular::lemma_sub(x * w, l * m, x * w, x * w, 65536);
        lemma_fundamental_div_mod(x * w - l * m, 65536);
    }
    let d: i64 = x * w - l * m;
    let k: i64 = 0x1_0000_0000_0000;
    let r: i64 = (d + k) / 65536 - 0x1_0000_0000;
    proof {
        assert(d as int % 65536 == 0);
        let e = d as int / 65536;
        assert(d + k == 65536 * (e + 0x1_0000_0000));
        assert(r == e);
        lemma_mont_bound(a as int, *t, l as int, r as int, q as int);
        assert forall|z: int| #[trigger] stands_for(*t, z, q as int) implies same(
            r as int,
            a * z,
            q as int,
        ) by {
            lemma_mont(a as int, *t, l as int, r as int, z, q as int);
        }
    }
    r as i16
}

/// `q^-1` modulo `2^16`.
fn inverse16(q: u16) -> (r: i64)
    requires
        params::limb_prime(q),
    ensures
        0 <= r < 65536,
        same(r * q, 1, 65536),
{
    let r: i64 = match q {
        2917 => 11885,
        3889 => 59857,
        4861 => 6741,
        9721 => 35913,
        12637 => 43765,
        17497 => 50153,
        _ => 17681,
    };
    proof {
        assert(11885int * 2917 % 65536 == 1 && 59857int * 3889 % 65536 == 1);
        assert(6741int * 4861 % 65536 == 1 && 35913int * 9721 % 65536 == 1);
        assert(43765int * 12637 % 65536 == 1 && 50153int * 17497 % 65536 == 1);
        assert(17681int * 19441 % 65536 == 1);
    }
    r
}

/// The twiddle that multiplies by `z`.
pub fn twiddle(z: u64, q: u16) -> (t: Twiddle)
    requires
        params::limb_prime(q),
        z < q,
    ensures
        paired(t, q as int),
        stands_for(t, z as int, q as int),
{
    let m: i64 = q as i64;
    let y: i64 = (z as i64 * 65536) % m;
    let w: i64 = if y > (m - 1) / 2 {
        y - m
    } else {
        y
    };
    let v: i64 = inverse16(q);
    proof {
        modular::lemma_reduced(65536 * z, q as int);
        modular::lemma_multiple(y as int, -1, q as int);
        assert(-20000 * 65536 <= w * v <= 20000 * 65536) by (nonlinear_arith)
            requires
                -20000 <= w <= 20000,
                0 <= v < 65536,
        ;
    }
    let wp: i16 = wrap(w * v);
    proof {
        lemma_wrapped(w * v);
        modular::lemma_mul(wp as int, m as int, w * v, m as int, 65536);
        assert(w * v * m == w * (v * m)) by (nonlinear_arith);
        modular::lemma_mul(w as int, v * m, w as int, 1, 65536);
        assert(w * 1 == w);
    }
    Twiddle { w: w as i16, wp }
}

// ---------------------------------------------------------------------------------------------
// one site of a schedule
// ---------------------------------------------------------------------------------------------

/// The multiplying reduction: the quotient is `a` over `q` by `round(2^15 / q)`, which is three at
/// 9721 and two above `2^14`.
pub open spec fn mul_reduced(a: int, q: int) -> int {
    if q == 9721 {
        a - (6 * a + 32768) / 65536 * q
    } else {
        a - estimate(a) * q
    }
}

/// What a site makes of a lane: the lookup reduction at 1, the multiplying one at 2, and the lane
/// itself otherwise.
pub open spec fn site(k: u8, a: int, q: int) -> int {
    if k == 1 {
        lookup_reduced(a, q)
    } else if k == 2 {
        mul_reduced(a, q)
    } else {
        a
    }
}

/// The site takes lanes of magnitude `b` to lanes of magnitude `r`.
#[verifier::opaque]
pub open spec fn settles(k: u8, b: int, r: int, q: int) -> bool {
    forall|a: int| -32768 <= a < 32768 && abs(a) <= b ==> abs(#[trigger] site(k, a, q)) <= r
}

/// The multiplying reduction at 9721.
fn barrett_mul_9721(a: i16) -> (r: i16)
    ensures
        r == mul_reduced(a as int, 9721),
        abs(r as int) <= 7864,
        same(r as int, a as int, 9721),
{
    let t: i32 = ((6 * (a as i32) + 32768) + 393216) / 65536 - 6;
    proof {
        let x = 6 * (a as int) + 32768;
        assert((x + 393216) / 65536 == x / 65536 + 6);
        assert(65536 * t <= x < 65536 * t + 65536);
        assert(-3 <= t <= 3);
        modular::lemma_multiple(a as int, -(t as int), 9721);
    }
    (a as i32 - t * 9721) as i16
}

/// What the multiplying reduction leaves at 9721.
pub proof fn thirds_bound(a: int)
    requires
        -32768 <= a < 32768,
    ensures
        abs(mul_reduced(a, 9721)) <= 7864,
{
    let x = 6 * a + 32768;
    let t = x / 65536;
    assert(65536 * t <= x < 65536 * t + 65536);
    assert(-3 <= t <= 3);
}

/// One lane through a site.
pub fn reduce(a: i16, q: u16, k: u8) -> (r: i16)
    requires
        params::limb_prime(q),
        k == 2 ==> q == 9721 || q == 17497 || q == 19441,
    ensures
        r == site(k, a as int, q as int),
        same(r as int, a as int, q as int),
{
    if k == 1 {
        barrett_lut_i16(a, q)
    } else if k == 2 && q == 9721 {
        barrett_mul_9721(a)
    } else if k == 2 {
        barrett_mul_i16(a, q)
    } else {
        a
    }
}

} // verus!
