//! What a chain of products is worth, and what its equations prove of it.
use super::algebra;
use super::algebra::{monomial, moved, total};
use super::carry;
use super::chain;
use super::chunk;
use super::{Blocks, Poly};
use crate::modular;
use crate::modular::same;
use crate::ntt::poly;
use vstd::prelude::*;

verus! {

/// The polynomial keeps to positions `0 .. 54`.
pub open spec fn kept(x: Seq<int>) -> bool {
    x.len() == 64 && forall|j: int| 54 <= j < 64 ==> (#[trigger] x[j]) == 0
}

/// Coefficient `i` of `Z^s x` in `S`, over the first 54 coefficients.
spec fn placed(x: Seq<int>, s: int, i: int) -> int {
    total(|v: int| x[v] * monomial(s + v, i), 54)
}

/// The taps of a sub-chunk against a polynomial, read by their monomials.
proof fn lemma_taps(g: Seq<int>, x: Seq<int>, s: int, i: int, n: nat)
    requires
        kept(x),
        n <= 9,
    ensures
        total(|j: int| chain::nega(g, x, j, n) * monomial(s + j, i), 62) == total(
            |u: int| g[u] * placed(x, s + u, i),
            n,
        ),
    decreases n,
{
    let f = |j: int| chain::nega(g, x, j, n) * monomial(s + j, i);
    if n == 0 {
        assert forall|j: int| 0 <= j < 62 implies #[trigger] f(j) == 0 by {
            let z = monomial(s + j, i);
            assert(0 * z == 0) by (nonlinear_arith);
        }
        algebra::lemma_zero(f, 62);
    } else {
        let u = n - 1;
        let y = g[u];
        let h = |j: int| chain::nega(g, x, j, u as nat) * monomial(s + j, i);
        let own = |v: int| x[v] * monomial(s + u + v, i);
        let spot = |j: int|
            if 0 <= j - u < 54 {
                own(j - u)
            } else {
                0
            };
        let last = |j: int| y * spot(j);
        lemma_taps(g, x, s, i, u as nat);
        assert forall|j: int| 0 <= j < 62 implies #[trigger] f(j) == h(j) + last(j) by {
            let (a, z) = (chain::nega(g, x, j, u as nat), monomial(s + j, i));
            let w = if j >= u {
                x[j - u]
            } else {
                -x[j - u + 64]
            };
            assert((a + y * w) * z == a * z + y * (w * z)) by (nonlinear_arith);
            if 0 <= j - u < 54 {
                assert(s + u + (j - u) == s + j);
            } else {
                assert(w == 0);
                assert(0 * z == 0) by (nonlinear_arith);
            }
        }
        algebra::lemma_sum(h, last, f, 62);
        algebra::lemma_scaled(y, spot, last, 62);
        algebra::lemma_window(spot, own, u, 54, 62);
        algebra::lemma_same(own, |v: int| x[v] * monomial(s + u + v, i), 54);
        algebra::lemma_same(
            h,
            |j: int| chain::nega(g, x, j, u as nat) * monomial(s + j, i),
            62,
        );
    }
    algebra::lemma_same(f, |j: int| chain::nega(g, x, j, n) * monomial(s + j, i), 62);
}

/// Diagonal `a`, read by its monomials.
spec fn line(d: Seq<Seq<int>>, a: int, i: int) -> int {
    total(|j: int| d[a][j] * monomial(9 * a + j, i), 62)
}

/// The stack of the first `n` diagonals, read by its monomials.
proof fn lemma_stack(d: Seq<Seq<int>>, i: int, n: nat)
    requires
        n <= 18,
    ensures
        total(|t: int| carry::stack(d, n, t) * monomial(t, i), 215) == total(
            |a: int| line(d, a, i),
            n,
        ),
    decreases n,
{
    let f = |t: int| carry::stack(d, n, t) * monomial(t, i);
    if n == 0 {
        assert forall|t: int| 0 <= t < 215 implies #[trigger] f(t) == 0 by {
            let z = monomial(t, i);
            assert(0 * z == 0) by (nonlinear_arith);
        }
        algebra::lemma_zero(f, 215);
    } else {
        let a = n - 1;
        let g = |t: int| carry::stack(d, a as nat, t) * monomial(t, i);
        let own = |j: int| d[a][j] * monomial(9 * a + j, i);
        let spot = |t: int|
            if 0 <= t - 9 * a < 62 {
                own(t - 9 * a)
            } else {
                0
            };
        lemma_stack(d, i, a as nat);
        assert forall|t: int| 0 <= t < 215 implies #[trigger] f(t) == g(t) + spot(t) by {
            let (x, z) = (carry::stack(d, a as nat, t), monomial(t, i));
            if 0 <= t - 9 * a < 62 {
                let w = d[a][t - 9 * a];
                assert((x + w) * z == x * z + w * z) by (nonlinear_arith);
                assert(9 * a + (t - 9 * a) == t);
            }
        }
        algebra::lemma_sum(g, spot, f, 215);
        algebra::lemma_window(spot, own, 9 * a, 62, 215);
        algebra::lemma_same(own, |j: int| d[a][j] * monomial(9 * a + j, i), 62);
        algebra::lemma_same(g, |t: int| carry::stack(d, a as nat, t) * monomial(t, i), 215);
    }
    algebra::lemma_same(f, |t: int| carry::stack(d, n, t) * monomial(t, i), 215);
}

/// The value of diagonals, one diagonal at a time.
proof fn lemma_value(d: Seq<Seq<int>>, i: int)
    requires
        0 <= i < 162,
    ensures
        carry::value_of(d)[i] == total(|a: int| line(d, a, i), 18),
{
    let p = carry::stacked(d);
    algebra::lemma_coefficient(p, i, 215);
    lemma_stack(d, i, 18);
    algebra::lemma_same(
        |t: int| p[t] * monomial(t, i),
        |t: int| carry::stack(d, 18, t) * monomial(t, i),
        215,
    );
}

/// The public blocks `b` are those of `g`.
pub open spec fn are_blocks(b: Blocks, g: Seq<int>) -> bool {
    forall|k: int, a: int, u: int|
        0 <= k < 3 && 0 <= a < 18 && 0 <= u < 9 ==> (#[trigger] b@[k]@[a]@[u]) == chunk::block(
            g,
            k,
            a,
            u,
        )
}

/// What one product adds to coefficient `i` of the value: `Z^(54 chunk) g` times the polynomial.
pub open spec fn share(g: Seq<int>, x: Seq<int>, k: int, i: int) -> int {
    total(|v: int| x[v] * moved(g, 54 * k + v, i, g.len()), 54)
}

/// The blocks of `g` in chunk `k` against a polynomial.
proof fn lemma_share(b: Blocks, g: Seq<int>, x: Seq<int>, k: int, i: int)
    requires
        are_blocks(b, g),
        g.len() == 162,
        kept(x),
        0 <= k < 3,
        0 <= i < 162,
    ensures
        total(
            |a: int|
                total(
                    |j: int|
                        chain::nega(chunk::shorts(b@[k]@[a]@), x, j, 9) * monomial(9 * a + j, i),
                    62,
                ),
            18,
        ) == share(g, x, k, i),
{
    let r = chunk::raised(g, (54 * k) as nat);
    let h = chunk::reduced(r);
    let f = |c: int| h[c] * placed(x, c, i);
    let rows = |a: int|
        total(
            |j: int| chain::nega(chunk::shorts(b@[k]@[a]@), x, j, 9) * monomial(9 * a + j, i),
            62,
        );
    assert forall|a: int| 0 <= a < 18 implies #[trigger] rows(a) == total(
        |u: int| f(9 * a + u),
        9,
    ) by {
        let w = chunk::shorts(b@[k]@[a]@);
        lemma_taps(w, x, 9 * a, i, 9);
        let (own, there) = (|u: int| w[u] * placed(x, 9 * a + u, i), |u: int| f(9 * a + u));
        assert forall|u: int| 0 <= u < 9 implies #[trigger] own(u) == there(u) by {
            assert(b@[k]@[a]@[u] == chunk::block(g, k, a, u));
        }
        algebra::lemma_same(own, there, 9);
        algebra::lemma_same(own, |u: int| w[u] * placed(x, 9 * a + u, i), 9);
    }
    algebra::lemma_grouped(f, rows, 9, 18);
    // the sums over the coefficients of both factors, in either order
    let both = |c: int, v: int| h[c] * (x[v] * monomial(c + v, i));
    let back = |v: int| total(|c: int| both(c, v), 162);
    assert forall|c: int| 0 <= c < 162 implies #[trigger] f(c) == total(|v: int| both(c, v), 54) by {
        algebra::lemma_scaled(
            h[c],
            |v: int| x[v] * monomial(c + v, i),
            |v: int| both(c, v),
            54,
        );
    }
    algebra::lemma_swap(both, f, back, 162, 54);
    let own = |v: int| x[v] * moved(g, 54 * k + v, i, g.len());
    assert forall|v: int| 0 <= v < 54 implies #[trigger] back(v) == own(v) by {
        let y = x[v];
        let reading = |c: int| h[c] * monomial(c + v, i);
        let column = |c: int| both(c, v);
        assert forall|c: int| 0 <= c < 162 implies #[trigger] column(c) == y * reading(c) by {
            let (p, z) = (h[c], monomial(c + v, i));
            assert(p * (y * z) == y * (p * z)) by (nonlinear_arith);
        }
        algebra::lemma_scaled(y, reading, column, 162);
        algebra::lemma_moved(r, v, i, r.len());
        algebra::lemma_same(
            reading,
            |c: int| chunk::coefficient(r, c, r.len()) * monomial(c + v, i),
            162,
        );
        lemma_raised(g, 54 * k, v, i);
        algebra::lemma_same(column, |c: int| both(c, v), 162);
    }
    algebra::lemma_same(back, own, 54);
    algebra::lemma_same(own, |v: int| x[v] * moved(g, 54 * k + v, i, g.len()), 54);
    algebra::lemma_same(
        rows,
        |a: int|
            total(
                |j: int|
                    chain::nega(chunk::shorts(b@[k]@[a]@), x, j, 9) * monomial(9 * a + j, i),
                62,
            ),
        18,
    );
}

/// `Z^v (Z^s g)` is `Z^(s + v) g`.
proof fn lemma_raised(g: Seq<int>, s: int, v: int, i: int)
    requires
        0 <= s,
    ensures
        moved(chunk::raised(g, s as nat), v, i, s as nat + g.len()) == moved(
            g,
            s + v,
            i,
            g.len(),
        ),
{
    let r = chunk::raised(g, s as nat);
    let (f, h) = (|c: int| r[c] * monomial(c + v, i), |c: int| g[c] * monomial(c + (s + v), i));
    assert forall|c: int| 0 <= c < s + g.len() implies #[trigger] f(c) == (if 0 <= c - s
        < g.len() {
        h(c - s)
    } else {
        0
    }) by {
        let z = monomial(c + v, i);
        assert(0 * z == 0) by (nonlinear_arith);
        assert(c - s + (s + v) == c + v);
    }
    algebra::lemma_window(f, h, s, g.len(), s as nat + g.len());
    algebra::lemma_same(f, |c: int| r[c] * monomial(c + v, i), s as nat + g.len());
    algebra::lemma_same(h, |c: int| g[c] * monomial(c + (s + v), i), g.len());
}

/// The diagonals of the first `n` products.
pub open spec fn lines(
    products: Seq<chain::Product>,
    public: Seq<Blocks>,
    w: Seq<Vec<Poly>>,
    n: nat,
) -> Seq<Seq<int>> {
    Seq::new(
        18,
        |a: int| Seq::new(64, |j: int| chain::diagonal(products, public, w, a, j, n)),
    )
}

/// Product `k` meets the blocks of `g` and keeps to its places.
pub open spec fn meets(
    products: Seq<chain::Product>,
    public: Seq<Blocks>,
    w: Seq<Vec<Poly>>,
    k: int,
    g: Seq<int>,
) -> bool {
    &&& products[k].chunk < 3
    &&& g.len() == 162
    &&& are_blocks(public[products[k].blocks as int], g)
    &&& kept(chain::poly_at(w, products[k].at))
}

/// The value of a chain of products: the sum over them of `Z^(54 chunk) g` times the witness
/// polynomial. Every diagonal keeps to its degree bound.
pub proof fn value_of_products(
    products: Seq<chain::Product>,
    public: Seq<Blocks>,
    w: Seq<Vec<Poly>>,
    g: Seq<Seq<int>>,
    i: int,
    n: nat,
)
    requires
        n <= products.len(),
        0 <= i < 162,
        forall|k: int| 0 <= k < n ==> #[trigger] meets(products, public, w, k, g[k]),
    ensures
        carry::bounded(lines(products, public, w, n)),
        carry::value_of(lines(products, public, w, n))[i] == total(
            |k: int|
                share(g[k], chain::poly_at(w, products[k].at), products[k].chunk as int, i),
            n,
        ),
    decreases n,
{
    let d = lines(products, public, w, n);
    let f = |a: int| line(d, a, i);
    lemma_value(d, i);
    if n == 0 {
        assert forall|a: int| 0 <= a < 18 implies #[trigger] f(a) == 0 by {
            let h = |j: int| d[a][j] * monomial(9 * a + j, i);
            assert forall|j: int| 0 <= j < 62 implies #[trigger] h(j) == 0 by {
                let z = monomial(9 * a + j, i);
                assert(0 * z == 0) by (nonlinear_arith);
            }
            algebra::lemma_zero(h, 62);
            algebra::lemma_same(h, |j: int| d[a][j] * monomial(9 * a + j, i), 62);
        }
        algebra::lemma_zero(f, 18);
    } else {
        let k = n - 1;
        let m = k as nat;
        let e = lines(products, public, w, m);
        let p = products[k];
        let x = chain::poly_at(w, p.at);
        let b = public[p.blocks as int];
        let c = p.chunk as int;
        assert(meets(products, public, w, k, g[k]));
        value_of_products(products, public, w, g, i, m);
        lemma_value(e, i);
        lemma_share(b, g[k], x, c, i);
        let before = |a: int| line(e, a, i);
        let last = |a: int|
            total(
                |j: int| chain::nega(chunk::shorts(b@[c]@[a]@), x, j, 9) * monomial(9 * a + j, i),
                62,
            );
        assert forall|a: int| 0 <= a < 18 implies #[trigger] f(a) == before(a) + last(a) by {
            let q = chunk::shorts(b@[c]@[a]@);
            let (now, old_row, own) = (
                |j: int| d[a][j] * monomial(9 * a + j, i),
                |j: int| e[a][j] * monomial(9 * a + j, i),
                |j: int| chain::nega(q, x, j, 9) * monomial(9 * a + j, i),
            );
            assert forall|j: int| 0 <= j < 62 implies #[trigger] now(j) == old_row(j) + own(j) by {
                let (s, y, z) = (e[a][j], chain::nega(q, x, j, 9), monomial(9 * a + j, i));
                assert(d[a][j] == s + y);
                assert((s + y) * z == s * z + y * z) by (nonlinear_arith);
            }
            algebra::lemma_sum(old_row, own, now, 62);
            algebra::lemma_same(now, |j: int| d[a][j] * monomial(9 * a + j, i), 62);
            algebra::lemma_same(old_row, |j: int| e[a][j] * monomial(9 * a + j, i), 62);
            algebra::lemma_same(
                own,
                |j: int| chain::nega(chunk::shorts(b@[c]@[a]@), x, j, 9) * monomial(9 * a + j, i),
                62,
            );
        }
        algebra::lemma_sum(before, last, f, 18);
        algebra::lemma_same(before, |a: int| line(e, a, i), 18);
        algebra::lemma_same(
            last,
            |a: int|
                total(
                    |j: int|
                        chain::nega(chunk::shorts(b@[c]@[a]@), x, j, 9) * monomial(9 * a + j, i),
                    62,
                ),
            18,
        );
        assert forall|a: int, j: int| 0 <= a < 18 && 62 <= j < 64 implies (#[trigger] d[a][j])
            == 0 by {
            assert(e[a][j] == 0);
            lemma_past(chunk::shorts(b@[c]@[a]@), x, j, 9);
        }
    }
    algebra::lemma_same(f, |a: int| line(d, a, i), 18);
}

/// Nothing stands past the degree bound.
proof fn lemma_past(g: Seq<int>, x: Seq<int>, j: int, n: nat)
    requires
        kept(x),
        62 <= j < 64,
        n <= 9,
    ensures
        chain::nega(g, x, j, n) == 0,
    decreases n,
{
    if n > 0 {
        lemma_past(g, x, j, (n - 1) as nat);
        let y = g[n - 1];
        assert(y * 0 == 0) by (nonlinear_arith);
        assert(x[j - (n - 1)] == 0);
    }
}

/// The sums of the three products of the blocks of `g` with the chunks of `x` are worth the product
/// of `g` and `x` in `S`, and every diagonal keeps to its degree bound.
pub proof fn chain_is_product(
    products: Seq<chain::Product>,
    public: Seq<Blocks>,
    w: Seq<Vec<Poly>>,
    g: Seq<int>,
    x: Seq<int>,
    sums: chain::Sums,
)
    requires
        g.len() == 162,
        x.len() == 162,
        products.len() == 3,
        forall|b: int|
            0 <= b < 3 ==> {
                &&& (#[trigger] products[b]).chunk == b
                &&& are_blocks(public[products[b].blocks as int], g)
                &&& chain::poly_at(w, products[b].at) == chunk::chunk(x, b)
            },
        forall|a: int, j: int|
            0 <= a < 18 && 0 <= j < 64 ==> (#[trigger] sums@[a]@[j]) == chain::diagonal(
                products,
                public,
                w,
                a,
                j,
                3,
            ),
    ensures
        carry::bounded(carry::diagonals(sums)),
        carry::value_of(carry::diagonals(sums)) == chunk::reduced(poly::product(g, x)),
{
    let d = carry::diagonals(sums);
    let e = lines(products, public, w, 3);
    assert forall|a: int| 0 <= a < 18 implies d[a] =~= e[a] by {
        assert forall|j: int| 0 <= j < 64 implies d[a][j] == e[a][j] by {
            assert(sums@[a]@[j] == chain::diagonal(products, public, w, a, j, 3));
        }
    }
    assert(d =~= e);
    let gs = Seq::new(3, |k: int| g);
    assert forall|k: int| 0 <= k < 3 implies #[trigger] meets(products, public, w, k, gs[k]) by {
        assert(products[k].chunk == k);
        assert(kept(chunk::chunk(x, k)));
    }
    value_of_products(products, public, w, gs, 0, 3);
    let v = chunk::reduced(poly::product(g, x));
    assert forall|i: int| 0 <= i < 162 implies carry::value_of(d)[i] == v[i] by {
        value_of_products(products, public, w, gs, i, 3);
        algebra::lemma_product(g, x, i);
        let f = |t: int| x[t] * moved(g, t, i, g.len());
        let h = |k: int|
            share(gs[k], chain::poly_at(w, products[k].at), products[k].chunk as int, i);
        assert forall|k: int| 0 <= k < 3 implies #[trigger] h(k) == total(
            |u: int| f(54 * k + u),
            54,
        ) by {
            assert(products[k].chunk == k);
            let y = chunk::chunk(x, k);
            algebra::lemma_same(
                |v: int| y[v] * moved(g, 54 * k + v, i, g.len()),
                |u: int| f(54 * k + u),
                54,
            );
        }
        algebra::lemma_grouped(f, h, 54, 3);
        algebra::lemma_same(
            h,
            |k: int|
                share(gs[k], chain::poly_at(w, products[k].at), products[k].chunk as int, i),
            3,
        );
        algebra::lemma_same(f, |t: int| x[t] * moved(g, t, i, g.len()), 162);
    }
    assert(carry::value_of(d) =~= v);
}

// ---------------------------------------------------------------------------------------------
// any carries
// ---------------------------------------------------------------------------------------------

/// Carry `a` times `Z^s`, read by its monomials.
spec fn lifted(e: spec_fn(int, int) -> int, a: int, s: int, i: int) -> int {
    total(|j: int| e(a, j) * monomial(s + j, i), 64)
}

/// Equation `a`, read by its monomials.
spec fn reading(d: Seq<Seq<int>>, e: spec_fn(int, int) -> int, a: int, i: int) -> int {
    total(|j: int| carry::equation(d, e, a, j) * monomial(9 * a + j, i), 64)
}

/// No carry reaches the places that `Z^9` would move past the degree.
pub open spec fn carries_kept(e: spec_fn(int, int) -> int) -> bool {
    forall|a: int, j: int| 0 <= a < 18 && 55 <= j < 64 ==> #[trigger] e(a, j) == 0
}

proof fn lemma_reading(d: Seq<Seq<int>>, e: spec_fn(int, int) -> int, a: int, i: int)
    requires
        carry::bounded(d),
        carries_kept(e),
        0 <= a < 18,
    ensures
        reading(d, e, a, i) == line(d, a, i) + (if a > 0 {
            lifted(e, a - 1, 9 * a, i)
        } else {
            0
        }) - lifted(e, a, 9 * a + 9, i) - (if a == 0 || a == 9 {
            lifted(e, 17, 9 * a, i)
        } else {
            0
        }),
{
    let s = 9 * a;
    let all = |j: int| carry::equation(d, e, a, j) * monomial(s + j, i);
    let own = |j: int| d[a][j] * monomial(s + j, i);
    let before = |j: int|
        if a > 0 {
            e(a - 1, j) * monomial(s + j, i)
        } else {
            0
        };
    let after = |j: int|
        if j >= 9 {
            e(a, j - 9) * monomial(s + j, i)
        } else {
            0
        };
    let wrap = |j: int|
        if a == 0 || a == 9 {
            e(17, j) * monomial(s + j, i)
        } else {
            0
        };
    let (minus_after, minus_wrap) = (|j: int| -1 * after(j), |j: int| -1 * wrap(j));
    let (first, second) = (|j: int| own(j) + before(j), |j: int| minus_after(j) + minus_wrap(j));
    assert forall|j: int| 0 <= j < 64 implies #[trigger] all(j) == first(j) + second(j) by {
        let z = monomial(s + j, i);
        let w = d[a][j];
        let x = if a > 0 {
            e(a - 1, j)
        } else {
            0
        };
        let y = if j >= 9 {
            e(a, j - 9)
        } else {
            -e(a, j - 9 + 64)
        };
        let v = if a == 0 || a == 9 {
            e(17, j)
        } else {
            0
        };
        assert((w + x - y - v) * z == w * z + x * z + -1 * (y * z) + -1 * (v * z))
            by (nonlinear_arith);
        assert(0 * z == 0) by (nonlinear_arith);
    }
    algebra::lemma_sum(first, second, all, 64);
    algebra::lemma_sum(own, before, first, 64);
    algebra::lemma_sum(minus_after, minus_wrap, second, 64);
    algebra::lemma_scaled(-1, after, minus_after, 64);
    algebra::lemma_scaled(-1, wrap, minus_wrap, 64);
    // the diagonal ends at 62 places
    assert(total(own, 64) == line(d, a, i)) by {
        let h = |j: int| d[a][j] * monomial(9 * a + j, i);
        assert forall|j: int| 0 <= j < 64 implies #[trigger] own(j) == (if 0 <= j - 0 < 62 {
            h(j - 0)
        } else {
            0
        }) by {
            let z = monomial(s + j, i);
            assert(0 * z == 0) by (nonlinear_arith);
            if j >= 62 {
                assert(d[a][j] == 0);
            }
        }
        algebra::lemma_window(own, h, 0, 62, 64);
    }
    if a > 0 {
        algebra::lemma_same(before, |j: int| e(a - 1, j) * monomial(s + j, i), 64);
    } else {
        algebra::lemma_zero(before, 64);
    }
    if a == 0 || a == 9 {
        algebra::lemma_same(wrap, |j: int| e(17, j) * monomial(s + j, i), 64);
    } else {
        algebra::lemma_zero(wrap, 64);
    }
    // the moved carry
    let moved_on = |j: int| e(a, j) * monomial(s + 9 + j, i);
    assert forall|j: int| 0 <= j < 64 implies #[trigger] after(j) == (if 0 <= j - 9 < 55 {
        moved_on(j - 9)
    } else {
        0
    }) by {
        assert(s + 9 + (j - 9) == s + j);
    }
    algebra::lemma_window(after, moved_on, 9, 55, 64);
    let full = |j: int| e(a, j) * monomial(s + 9 + j, i);
    assert forall|j: int| 0 <= j < 64 implies #[trigger] full(j) == (if 0 <= j - 0 < 55 {
        moved_on(j - 0)
    } else {
        0
    }) by {
        let z = monomial(s + 9 + j, i);
        assert(0 * z == 0) by (nonlinear_arith);
        if j >= 55 {
            assert(e(a, j) == 0);
        }
    }
    algebra::lemma_window(full, moved_on, 0, 55, 64);
    algebra::lemma_same(full, |j: int| e(a, j) * monomial(9 * a + 9 + j, i), 64);
    algebra::lemma_same(all, |j: int| carry::equation(d, e, a, j) * monomial(9 * a + j, i), 64);
}

/// The carries telescope.
proof fn lemma_telescope(d: Seq<Seq<int>>, e: spec_fn(int, int) -> int, i: int, n: nat)
    requires
        carry::bounded(d),
        carries_kept(e),
        n <= 18,
    ensures
        total(|a: int| reading(d, e, a, i), n) == total(|a: int| line(d, a, i), n) - (if n > 0 {
            lifted(e, n - 1, 9 * n as int, i) + lifted(e, 17, 0, i)
        } else {
            0
        }) - (if n > 9 {
            lifted(e, 17, 81, i)
        } else {
            0
        }),
    decreases n,
{
    if n > 0 {
        let a = n - 1;
        lemma_telescope(d, e, i, a as nat);
        lemma_reading(d, e, a, i);
        assert(9 * a + 9 == 9 * n);
    }
}

/// Whatever the carries are, as long as they keep to their places, the equations read by their
/// monomials add up to the value: summed against `Z^(9 a)` the carries leave the multiple
/// `(Z^162 + Z^81 + 1) e_17`, which is zero in `S`.
proof fn lemma_readings(d: Seq<Seq<int>>, e: spec_fn(int, int) -> int, i: int)
    requires
        carry::bounded(d),
        carries_kept(e),
        0 <= i < 162,
    ensures
        carry::value_of(d)[i] == total(|a: int| reading(d, e, a, i), 18),
{
    lemma_value(d, i);
    lemma_telescope(d, e, i, 18);
    let (f0, f1, f2) = (
        |j: int| e(17, j) * monomial(0 + j, i),
        |j: int| e(17, j) * monomial(81 + j, i),
        |j: int| e(17, j) * monomial(162 + j, i),
    );
    let two = |j: int| f0(j) + f1(j);
    let three = |j: int| two(j) + f2(j);
    assert forall|j: int| 0 <= j < 64 implies #[trigger] three(j) == 0 by {
        algebra::lemma_relation(j, i);
        let (x, p, q, r) = (
            e(17, j),
            monomial(0 + j, i),
            monomial(81 + j, i),
            monomial(162 + j, i),
        );
        assert(x * p + x * q + x * r == 0) by (nonlinear_arith)
            requires
                p + q + r == 0,
        ;
    }
    algebra::lemma_zero(three, 64);
    algebra::lemma_sum(two, f2, three, 64);
    algebra::lemma_sum(f0, f1, two, 64);
    algebra::lemma_same(f0, |j: int| e(17, j) * monomial(0 + j, i), 64);
    algebra::lemma_same(f1, |j: int| e(17, j) * monomial(81 + j, i), 64);
    algebra::lemma_same(f2, |j: int| e(17, j) * monomial(162 + j, i), 64);
}

/// The windows of an element, read by their monomials, make it up.
proof fn lemma_windows(z: Seq<int>, rows: spec_fn(int) -> int, i: int)
    requires
        z.len() == 162,
        0 <= i < 162,
        forall|a: int|
            0 <= a < 18 ==> #[trigger] rows(a) == total(
                |j: int|
                    (if j < 9 {
                        z[9 * a + j]
                    } else {
                        0
                    }) * monomial(9 * a + j, i),
                64,
            ),
    ensures
        total(rows, 18) == z[i],
{
    let out = |c: int| z[c] * monomial(c, i);
    assert forall|a: int| 0 <= a < 18 implies #[trigger] rows(a) == total(
        |u: int| out(9 * a + u),
        9,
    ) by {
        let f = |j: int|
            (if j < 9 {
                z[9 * a + j]
            } else {
                0
            }) * monomial(9 * a + j, i);
        let h = |u: int| out(9 * a + u);
        assert forall|j: int| 0 <= j < 64 implies #[trigger] f(j) == (if 0 <= j - 0 < 9 {
            h(j - 0)
        } else {
            0
        }) by {
            let y = monomial(9 * a + j, i);
            assert(0 * y == 0) by (nonlinear_arith);
        }
        algebra::lemma_window(f, h, 0, 9, 64);
        algebra::lemma_same(
            f,
            |j: int|
                (if j < 9 {
                    z[9 * a + j]
                } else {
                    0
                }) * monomial(9 * a + j, i),
            64,
        );
    }
    algebra::lemma_grouped(out, rows, 9, 18);
    algebra::lemma_coefficient(z, i, 162);
    algebra::lemma_same(out, |t: int| z[t] * monomial(t, i), 162);
    chunk::lemma_reduced_short(z, 162, i);
}

/// Sums of terms that agree modulo `q`.
pub proof fn lemma_total_modulo(f: spec_fn(int) -> int, g: spec_fn(int) -> int, n: nat, q: int)
    requires
        q > 0,
        forall|k: int| 0 <= k < n ==> same(#[trigger] f(k), g(k), q),
    ensures
        same(total(f, n), total(g, n), q),
    decreases n,
{
    if n > 0 {
        let m = (n - 1) as nat;
        lemma_total_modulo(f, g, m, q);
        assert(same(f(n - 1), g(n - 1), q));
        modular::lemma_add(total(f, m), f(n - 1), total(g, m), g(n - 1), q);
    }
}

/// Whatever the carries are, as long as they keep to their places: if every equation of a chain
/// holds modulo `q` then the identity does.
pub proof fn equations_suffice_modulo(
    d: Seq<Seq<int>>,
    e: spec_fn(int, int) -> int,
    z: Seq<int>,
    q: int,
)
    requires
        q > 0,
        carry::bounded(d),
        carries_kept(e),
        z.len() == 162,
        forall|a: int, j: int|
            0 <= a < 18 && 0 <= j < 64 ==> same(
                #[trigger] carry::equation(d, e, a, j),
                if j < 9 {
                    z[9 * a + j]
                } else {
                    0
                },
                q,
            ),
    ensures
        forall|i: int| 0 <= i < 162 ==> same(#[trigger] carry::value_of(d)[i], z[i], q),
{
    assert forall|i: int| 0 <= i < 162 implies same(
        #[trigger] carry::value_of(d)[i],
        z[i],
        q,
    ) by {
        lemma_readings(d, e, i);
        let rows = |a: int| reading(d, e, a, i);
        let windows = |a: int|
            total(
                |j: int|
                    (if j < 9 {
                        z[9 * a + j]
                    } else {
                        0
                    }) * monomial(9 * a + j, i),
                64,
            );
        assert forall|a: int| 0 <= a < 18 implies same(#[trigger] rows(a), windows(a), q) by {
            let f = |j: int| carry::equation(d, e, a, j) * monomial(9 * a + j, i);
            let g = |j: int|
                (if j < 9 {
                    z[9 * a + j]
                } else {
                    0
                }) * monomial(9 * a + j, i);
            assert forall|j: int| 0 <= j < 64 implies same(#[trigger] f(j), g(j), q) by {
                let y = monomial(9 * a + j, i);
                let x = carry::equation(d, e, a, j);
                modular::lemma_mul(
                    x,
                    y,
                    if j < 9 {
                        z[9 * a + j]
                    } else {
                        0
                    },
                    y,
                    q,
                );
            }
            lemma_total_modulo(f, g, 64, q);
            algebra::lemma_same(
                f,
                |j: int| carry::equation(d, e, a, j) * monomial(9 * a + j, i),
                64,
            );
        }
        lemma_total_modulo(rows, windows, 18, q);
        lemma_windows(z, windows, i);
        algebra::lemma_same(rows, |a: int| reading(d, e, a, i), 18);
    }
}

/// Whatever the carries are, as long as they keep to their places: if every equation of a chain
/// holds then the identity does.
pub proof fn equations_suffice(d: Seq<Seq<int>>, e: spec_fn(int, int) -> int, z: Seq<int>)
    requires
        carry::bounded(d),
        carries_kept(e),
        z.len() == 162,
        forall|a: int, j: int|
            0 <= a < 18 && 0 <= j < 64 ==> #[trigger] carry::equation(d, e, a, j) == (if j < 9 {
                z[9 * a + j]
            } else {
                0
            }),
    ensures
        carry::value_of(d) == z,
{
    assert forall|i: int| 0 <= i < 162 implies carry::value_of(d)[i] == z[i] by {
        lemma_readings(d, e, i);
        let rows = |a: int| reading(d, e, a, i);
        assert forall|a: int| 0 <= a < 18 implies #[trigger] rows(a) == total(
            |j: int|
                (if j < 9 {
                    z[9 * a + j]
                } else {
                    0
                }) * monomial(9 * a + j, i),
            64,
        ) by {
            algebra::lemma_same(
                |j: int| carry::equation(d, e, a, j) * monomial(9 * a + j, i),
                |j: int|
                    (if j < 9 {
                        z[9 * a + j]
                    } else {
                        0
                    }) * monomial(9 * a + j, i),
                64,
            );
        }
        lemma_windows(z, rows, i);
        algebra::lemma_same(rows, |a: int| reading(d, e, a, i), 18);
    }
    assert(carry::value_of(d) =~= z);
}

} // verus!
