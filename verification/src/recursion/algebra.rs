//! Products in `S` by their monomials: what `Z^t` is worth modulo `Z^162 + Z^81 + 1`, and sums over
//! it.
use super::chunk;
use crate::ntt::poly;
use vstd::prelude::*;

verus! {

/// `f(0) + .. + f(n - 1)`.
pub open spec fn total(f: spec_fn(int) -> int, n: nat) -> int
    decreases n,
{
    if n == 0 {
        0
    } else {
        total(f, (n - 1) as nat) + f(n - 1)
    }
}

pub proof fn lemma_same(f: spec_fn(int) -> int, g: spec_fn(int) -> int, n: nat)
    requires
        forall|k: int| 0 <= k < n ==> #[trigger] f(k) == g(k),
    ensures
        total(f, n) == total(g, n),
    decreases n,
{
    if n > 0 {
        lemma_same(f, g, (n - 1) as nat);
        assert(f(n - 1) == g(n - 1));
    }
}

pub proof fn lemma_sum(
    f: spec_fn(int) -> int,
    g: spec_fn(int) -> int,
    h: spec_fn(int) -> int,
    n: nat,
)
    requires
        forall|k: int| 0 <= k < n ==> #[trigger] h(k) == f(k) + g(k),
    ensures
        total(h, n) == total(f, n) + total(g, n),
    decreases n,
{
    if n > 0 {
        lemma_sum(f, g, h, (n - 1) as nat);
        assert(h(n - 1) == f(n - 1) + g(n - 1));
    }
}

pub proof fn lemma_scaled(c: int, f: spec_fn(int) -> int, h: spec_fn(int) -> int, n: nat)
    requires
        forall|k: int| 0 <= k < n ==> #[trigger] h(k) == c * f(k),
    ensures
        total(h, n) == c * total(f, n),
    decreases n,
{
    if n == 0 {
        assert(c * 0 == 0) by (nonlinear_arith);
    } else {
        lemma_scaled(c, f, h, (n - 1) as nat);
        assert(h(n - 1) == c * f(n - 1));
        let (x, y) = (total(f, (n - 1) as nat), f(n - 1));
        assert(c * (x + y) == c * x + c * y) by (nonlinear_arith);
    }
}

pub proof fn lemma_zero(f: spec_fn(int) -> int, n: nat)
    requires
        forall|k: int| 0 <= k < n ==> #[trigger] f(k) == 0,
    ensures
        total(f, n) == 0,
    decreases n,
{
    if n > 0 {
        lemma_zero(f, (n - 1) as nat);
        assert(f(n - 1) == 0);
    }
}

/// What is zero outside a window sums to the window.
pub proof fn lemma_window(f: spec_fn(int) -> int, h: spec_fn(int) -> int, s: int, n: nat, l: nat)
    requires
        0 <= s,
        s + n <= l,
        forall|k: int|
            0 <= k < l ==> #[trigger] f(k) == (if 0 <= k - s < n {
                h(k - s)
            } else {
                0
            }),
    ensures
        total(f, l) == total(h, n),
    decreases l,
{
    if n == 0 {
        lemma_zero(f, l);
    } else {
        assert(f(l - 1) == (if 0 <= l - 1 - s < n {
            h(l - 1 - s)
        } else {
            0
        }));
        if l > s + n {
            lemma_window(f, h, s, n, (l - 1) as nat);
        } else {
            lemma_window(f, h, s, (n - 1) as nat, (l - 1) as nat);
        }
    }
}

/// A sum in two parts.
pub proof fn lemma_split(f: spec_fn(int) -> int, g: spec_fn(int) -> int, m: nat, n: nat)
    requires
        forall|k: int| 0 <= k < n ==> #[trigger] g(k) == f(m + k),
    ensures
        total(f, m + n) == total(f, m) + total(g, n),
    decreases n,
{
    if n > 0 {
        lemma_split(f, g, m, (n - 1) as nat);
        assert(g(n - 1) == f(m + n - 1));
    }
}

/// A sum in groups of `k`.
pub proof fn lemma_grouped(f: spec_fn(int) -> int, h: spec_fn(int) -> int, k: nat, n: nat)
    requires
        forall|a: int| 0 <= a < n ==> #[trigger] h(a) == total(|u: int| f(k * a + u), k),
    ensures
        total(h, n) == total(f, k * n),
    decreases n,
{
    if n == 0 {
        assert(k * 0 == 0) by (nonlinear_arith);
    } else {
        let m = (n - 1) as nat;
        lemma_grouped(f, h, k, m);
        assert(k * n == k * m + k) by (nonlinear_arith)
            requires
                n == m + 1,
        ;
        assert(h(m as int) == total(|u: int| f(k * m + u), k));
        lemma_split(f, |u: int| f(k * m + u), k * m, k);
    }
}

/// The order of a double sum is free.
pub proof fn lemma_swap(
    f: spec_fn(int, int) -> int,
    g: spec_fn(int) -> int,
    h: spec_fn(int) -> int,
    n: nat,
    m: nat,
)
    requires
        forall|a: int| 0 <= a < n ==> #[trigger] g(a) == total(|b: int| f(a, b), m),
        forall|b: int| 0 <= b < m ==> #[trigger] h(b) == total(|a: int| f(a, b), n),
    ensures
        total(g, n) == total(h, m),
    decreases n,
{
    if n == 0 {
        lemma_zero(h, m);
    } else {
        let k = (n - 1) as nat;
        let r = |b: int| total(|a: int| f(a, b), k);
        let last = |b: int| f(n - 1, b);
        lemma_swap(f, g, r, k, m);
        assert forall|b: int| 0 <= b < m implies #[trigger] h(b) == r(b) + last(b) by {
            assert(total(|a: int| f(a, b), n) == total(|a: int| f(a, b), k) + f(n - 1, b));
        }
        lemma_sum(r, last, h, m);
        assert(g(n - 1) == total(|b: int| f(n - 1, b), m));
        lemma_same(last, |b: int| f(n - 1, b), m);
    }
}

/// Coefficient `i` of `Z^t` in `S`.
pub open spec fn monomial(t: int, i: int) -> int {
    (if t % 243 == i {
        1int
    } else {
        0
    }) - (if t % 243 == 162 + i % 81 {
        1int
    } else {
        0
    })
}

proof fn lemma_times(x: int, m: int)
    ensures
        m == 0 ==> x * m == 0 && m * x == 0,
        m == 1 ==> x * m == x && m * x == x,
        m == -1 ==> x * m == -x && m * x == -x,
{
    assert((m == 0 ==> x * m == 0 && m * x == 0) && (m == 1 ==> x * m == x && m * x == x) && (m
        == -1 ==> x * m == -x && m * x == -x)) by (nonlinear_arith);
}

/// `Z^s + Z^(s + 81) + Z^(s + 162)` is zero.
pub proof fn lemma_relation(s: int, i: int)
    requires
        0 <= s,
        0 <= i < 162,
    ensures
        monomial(s, i) + monomial(s + 81, i) + monomial(s + 162, i) == 0,
{
    let r = s % 243;
    assert((s + 81) % 243 == (if r < 162 {
        r + 81
    } else {
        r - 162
    }));
    assert((s + 162) % 243 == (if r < 81 {
        r + 162
    } else {
        r - 81
    }));
}

/// Coefficient `i` of `Z^v a` in `S`.
pub open spec fn moved(a: Seq<int>, v: int, i: int, n: nat) -> int {
    total(|c: int| a[c] * monomial(c + v, i), n)
}

/// Reduction is reading the monomials.
pub proof fn lemma_coefficient(p: Seq<int>, i: int, n: nat)
    requires
        0 <= i < 162,
    ensures
        chunk::coefficient(p, i, n) == total(|t: int| p[t] * monomial(t, i), n),
    decreases n,
{
    if n > 0 {
        lemma_coefficient(p, i, (n - 1) as nat);
        lemma_times(p[n - 1], monomial(n - 1, i));
    }
}

/// `Z^t` reduced and multiplied by `Z^v` is `Z^(t + v)`.
proof fn lemma_monomials(t: int, v: int, i: int)
    requires
        0 <= t,
        0 <= v,
        0 <= i < 162,
    ensures
        total(|c: int| monomial(t, c) * monomial(c + v, i), 162) == monomial(t + v, i),
{
    let f = |c: int| monomial(t, c) * monomial(c + v, i);
    let r = t % 243;
    assert forall|c: int| 0 <= c < 162 implies #[trigger] f(c) == (if c == r {
        monomial(c + v, i)
    } else if r >= 162 && (c == r - 162 || c == r - 81) {
        -monomial(c + v, i)
    } else {
        0
    }) by {
        lemma_times(monomial(c + v, i), monomial(t, c));
    }
    assert((t + v) % 243 == (r + v) % 243);
    if r < 162 {
        lemma_window(f, |k: int| f(r + k), r, 1, 162);
        assert(total(|k: int| f(r + k), 1) == f(r)) by {
            reveal_with_fuel(total, 2);
        }
    } else {
        let s = r - 162;
        let g = |k: int| f(s + k);
        lemma_window(f, g, s, 82, 162);
        lemma_window(
            g,
            |k: int| f(s + k),
            0,
            1,
            81,
        );
        assert(total(|k: int| f(s + k), 1) == f(s)) by {
            reveal_with_fuel(total, 2);
        }
        assert(g(81) == f(s + 81));
        lemma_relation(s + v, i);
        assert(s + v + 162 == r + v);
    }
}

/// A polynomial that is reduced first and moved then is the polynomial moved.
pub proof fn lemma_moved(p: Seq<int>, v: int, i: int, n: nat)
    requires
        0 <= v,
        0 <= i < 162,
    ensures
        total(|c: int| chunk::coefficient(p, c, n) * monomial(c + v, i), 162) == moved(p, v, i, n),
    decreases n,
{
    let f = |c: int| chunk::coefficient(p, c, n) * monomial(c + v, i);
    if n == 0 {
        assert forall|c: int| 0 <= c < 162 implies #[trigger] f(c) == 0 by {
            lemma_times(monomial(c + v, i), 0);
        }
        lemma_zero(f, 162);
    } else {
        let m = (n - 1) as nat;
        let g = |c: int| chunk::coefficient(p, c, m) * monomial(c + v, i);
        let h = |c: int| monomial(m as int, c) * monomial(c + v, i);
        let top = |c: int| p[m as int] * h(c);
        lemma_moved(p, v, i, m);
        lemma_monomials(m as int, v, i);
        assert forall|c: int| 0 <= c < 162 implies #[trigger] f(c) == g(c) + top(c) by {
            let (x, y, z) = (p[m as int], monomial(m as int, c), monomial(c + v, i));
            lemma_times(x, y);
            let w = chunk::coefficient(p, c, m);
            assert(chunk::coefficient(p, c, n) == w + x * y);
            assert((w + x * y) * z == w * z + x * (y * z)) by (nonlinear_arith);
        }
        lemma_sum(g, top, f, 162);
        lemma_scaled(p[m as int], h, top, 162);
        lemma_same(h, |c: int| monomial(m as int, c) * monomial(c + v, i), 162);
        lemma_same(g, |c: int| chunk::coefficient(p, c, m) * monomial(c + v, i), 162);
    }
    lemma_same(f, |c: int| chunk::coefficient(p, c, n) * monomial(c + v, i), 162);
}

/// The first `n` terms of a product read by its monomials.
proof fn lemma_terms(a: Seq<int>, b: Seq<int>, i: int, n: nat, l: nat)
    requires
        0 <= i < 162,
        n <= a.len(),
        l >= a.len() + b.len(),
    ensures
        total(|t: int| poly::conv(a, b, t, n) * monomial(t, i), l) == total(
            |w: int| b[w] * moved(a, w, i, n),
            b.len(),
        ),
    decreases n,
{
    let f = |t: int| poly::conv(a, b, t, n) * monomial(t, i);
    let r = |w: int| b[w] * moved(a, w, i, n);
    if n == 0 {
        assert forall|t: int| 0 <= t < l implies #[trigger] f(t) == 0 by {
            lemma_times(monomial(t, i), 0);
        }
        assert forall|w: int| 0 <= w < b.len() implies #[trigger] r(w) == 0 by {
            lemma_times(b[w], 0);
        }
        lemma_zero(f, l);
        lemma_zero(r, b.len());
    } else {
        let m = (n - 1) as nat;
        let x = a[m as int];
        let g = |t: int| poly::conv(a, b, t, m) * monomial(t, i);
        let q = |w: int| b[w] * moved(a, w, i, m);
        let own = |w: int| b[w] * (x * monomial(m + w, i));
        let placed = |t: int|
            if 0 <= t - m < b.len() {
                own(t - m)
            } else {
                0
            };
        lemma_terms(a, b, i, m, l);
        assert forall|t: int| 0 <= t < l implies #[trigger] f(t) == g(t) + placed(t) by {
            let (y, z) = (poly::conv(a, b, t, m), monomial(t, i));
            if 0 <= t - m < b.len() {
                let w = b[t - m];
                assert((y + x * w) * z == y * z + w * (x * z)) by (nonlinear_arith);
                assert(m + (t - m) == t);
            }
        }
        lemma_sum(g, placed, f, l);
        lemma_window(placed, own, m as int, b.len(), l);
        assert forall|w: int| 0 <= w < b.len() implies #[trigger] r(w) == q(w) + own(w) by {
            let (y, z) = (moved(a, w, i, m), x * monomial(m + w, i));
            assert(moved(a, w, i, n) == y + z);
            let u = b[w];
            assert(u * (y + z) == u * y + u * z) by (nonlinear_arith);
        }
        lemma_sum(q, own, r, b.len());
        lemma_same(g, |t: int| poly::conv(a, b, t, m) * monomial(t, i), l);
        lemma_same(q, |w: int| b[w] * moved(a, w, i, m), b.len());
    }
    lemma_same(f, |t: int| poly::conv(a, b, t, n) * monomial(t, i), l);
    lemma_same(r, |w: int| b[w] * moved(a, w, i, n), b.len());
}

/// A product in `S`, one coefficient of the second factor at a time.
pub proof fn lemma_product(a: Seq<int>, b: Seq<int>, i: int)
    requires
        0 <= i < 162,
    ensures
        chunk::reduced(poly::product(a, b))[i] == total(
            |w: int| b[w] * moved(a, w, i, a.len()),
            b.len(),
        ),
{
    let p = poly::product(a, b);
    let l = a.len() + b.len();
    lemma_coefficient(p, i, l);
    lemma_terms(a, b, i, a.len(), l);
    lemma_same(
        |t: int| p[t] * monomial(t, i),
        |t: int| poly::conv(a, b, t, a.len()) * monomial(t, i),
        l,
    );
}

/// A product in `S` is that of its first factor reduced.
pub proof fn product_of_reduced(a: Seq<int>, b: Seq<int>)
    ensures
        chunk::reduced(poly::product(chunk::reduced(a), b)) == chunk::reduced(poly::product(a, b)),
{
    let c = chunk::reduced(a);
    assert forall|i: int| 0 <= i < 162 implies chunk::reduced(poly::product(c, b))[i]
        == chunk::reduced(poly::product(a, b))[i] by {
        lemma_product(c, b, i);
        lemma_product(a, b, i);
        let (f, g) = (
            |w: int| b[w] * moved(c, w, i, c.len()),
            |w: int| b[w] * moved(a, w, i, a.len()),
        );
        assert forall|w: int| 0 <= w < b.len() implies #[trigger] f(w) == g(w) by {
            lemma_moved(a, w, i, a.len());
            lemma_same(
                |k: int| c[k] * monomial(k + w, i),
                |k: int| chunk::coefficient(a, k, a.len()) * monomial(k + w, i),
                162,
            );
        }
        lemma_same(f, g, b.len());
    }
    assert(chunk::reduced(poly::product(c, b)) =~= chunk::reduced(poly::product(a, b)));
}

} // verus!
