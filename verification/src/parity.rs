//! Folding modulo 2: `R_648 / 2` is four copies of `F162`, and a challenge acts on each of them by
//! its residue modulo 2.
use crate::ajtai;
use crate::challenge::short::ShortChallenge;
use crate::eval;
use crate::fields::scalar;
use crate::fold;
use crate::ntt::laws;
use crate::ntt::poly;
use vstd::prelude::*;

verus! {

/// The parities of component `k` of a ring element.
pub open spec fn comp(a: Seq<int>, k: int) -> Seq<bool> {
    Seq::new(162, |m: int| a[4 * m + k] % 2 != 0)
}

/// An entry, or zero outside.
spec fn at(w: Seq<int>, j: int) -> int {
    if 0 <= j < 648 {
        w[j]
    } else {
        0
    }
}

/// `X^s w` reduced.
spec fn turned(w: Seq<int>, s: int) -> Seq<int> {
    Seq::new(
        648,
        |i: int|
            if i < 324 {
                at(w, i - s) - at(w, i + 648 - s) - at(w, i + 972 - s)
            } else {
                at(w, i - s) + at(w, i + 324 - s)
            },
    )
}

/// Multiplying by `X^4` multiplies every component by the generator.
proof fn lemma_turn(w: Seq<int>, n: int, k: int)
    requires
        w.len() == 648,
        0 <= n < 161,
        0 <= k < 4,
    ensures
        comp(turned(w, 4 * n + 4), k) == scalar::f162().xtime(comp(turned(w, 4 * n), k)),
{
    let (a, b) = (turned(w, 4 * n), turned(w, 4 * n + 4));
    let f = scalar::f162();
    assert forall|m: int| 0 <= m < 162 implies (#[trigger] comp(b, k)[m]) == f.xtime(comp(a, k))[m] by {
        let i = 4 * m + k;
        let t = 644 + k;
        assert(comp(a, k)[161] == (a[644 + k] % 2 != 0));
        if m == 0 {
            assert(b[i] == -a[644 + k]);
        } else {
            assert(comp(a, k)[m - 1] == (a[4 * (m - 1) + k] % 2 != 0));
            if m == 81 {
                assert(b[i] == a[i - 4] + a[644 + k]);
            } else {
                assert(b[i] == a[i - 4]);
            }
        }
    }
    assert(comp(b, k) =~= f.xtime(comp(a, k)));
}

proof fn lemma_turns(w: Seq<int>, n: nat, k: int)
    requires
        w.len() == 648,
        n < 162,
        0 <= k < 4,
    ensures
        comp(turned(w, 4 * n as int), k) == scalar::f162().shl(comp(w, k), n),
    decreases n,
{
    if n == 0 {
        assert(turned(w, 0) =~= w);
    } else {
        lemma_turns(w, (n - 1) as nat, k);
        lemma_turn(w, n - 1, k);
    }
}

/// The product with the first `n` coefficients of a factor, reduced.
spec fn partial(a: Seq<int>, w: Seq<int>, n: nat) -> Seq<int> {
    laws::reduce_phi(Seq::new(1296, |x: int| poly::conv(a, w, x, 4 * n)))
}

/// One more coefficient.
proof fn lemma_partial(a: Seq<int>, w: Seq<int>, n: nat)
    requires
        ajtai::sparse(a),
        w.len() == 648,
        n < 162,
    ensures
        forall|i: int|
            0 <= i < 648 ==> (#[trigger] partial(a, w, n + 1)[i]) == partial(a, w, n)[i] + a[4 * n
                as int] * turned(w, 4 * n as int)[i],
{
    let s = 4 * n as int;
    let y = a[s];
    assert forall|x: int| 0 <= x < 1296 implies #[trigger] poly::conv(a, w, x, 4 * (n + 1))
        == poly::conv(a, w, x, 4 * n) + y * at(w, x - s) by {
        reveal_with_fuel(poly::conv, 5);
        assert(a[s + 1] == 0 && a[s + 2] == 0 && a[s + 3] == 0);
        let (w1, w2, w3) = (w[x - s - 1], w[x - s - 2], w[x - s - 3]);
        assert(0 * w1 == 0 && 0 * w2 == 0 && 0 * w3 == 0 && y * 0 == 0) by (nonlinear_arith);
    }
    assert forall|i: int| 0 <= i < 648 implies (#[trigger] partial(a, w, n + 1)[i]) == partial(
        a,
        w,
        n,
    )[i] + y * turned(w, s)[i] by {
        if i < 324 {
            let (u, v, z) = (at(w, i - s), at(w, i + 648 - s), at(w, i + 972 - s));
            assert(y * (u - v - z) == y * u - y * v - y * z) by (nonlinear_arith);
            assert(poly::conv(a, w, i, 4 * (n + 1)) == poly::conv(a, w, i, 4 * n) + y * u);
            assert(poly::conv(a, w, i + 648, 4 * (n + 1)) == poly::conv(a, w, i + 648, 4 * n) + y
                * v);
            assert(poly::conv(a, w, i + 972, 4 * (n + 1)) == poly::conv(a, w, i + 972, 4 * n) + y
                * z);
        } else {
            let (u, v) = (at(w, i - s), at(w, i + 324 - s));
            assert(y * (u + v) == y * u + y * v) by (nonlinear_arith);
            assert(poly::conv(a, w, i, 4 * (n + 1)) == poly::conv(a, w, i, 4 * n) + y * u);
            assert(poly::conv(a, w, i + 324, 4 * (n + 1)) == poly::conv(a, w, i + 324, 4 * n) + y
                * v);
        }
    }
}

/// A coefficient of a challenge is odd at its positions.
proof fn lemma_odd(c: ShortChallenge, n: int)
    requires
        c.wf(),
        0 <= n < 162,
    ensures
        fold::challenge(c)[4 * n] % 2 != 0 <==> c.has(n),
        -1 <= fold::challenge(c)[4 * n] <= 1,
{
    assert((4 * n) % 4 == 0 && (4 * n) / 4 == n);
}

/// The product of a ring element with the first coefficients of a challenge, modulo 2.
proof fn lemma_product_to(c: ShortChallenge, w: Seq<int>, k: int, n: nat)
    requires
        c.wf(),
        w.len() == 648,
        0 <= k < 4,
        n <= 162,
    ensures
        comp(partial(fold::challenge(c), w, n), k) == scalar::f162().mul_to(
            comp(w, k),
            eval::mod2(c),
            n,
        ),
    decreases n,
{
    let f = scalar::f162();
    let a = fold::challenge(c);
    if n == 0 {
        assert(comp(partial(a, w, 0), k) =~= f.zero());
    } else {
        let m = (n - 1) as nat;
        lemma_product_to(c, w, k, m);
        lemma_sparse(c);
        lemma_partial(a, w, m);
        lemma_turns(w, m, k);
        lemma_odd(c, m as int);
        let (p, q, t) = (partial(a, w, n), partial(a, w, m), turned(w, 4 * m as int));
        let y = a[4 * m as int];
        assert(p == partial(a, w, m + 1));
        let r = f.sum(
            f.mul_to(comp(w, k), eval::mod2(c), m),
            f.scale(eval::mod2(c)[m as int], f.shl(comp(w, k), m)),
        );
        assert forall|i: int| 0 <= i < 162 implies (#[trigger] comp(p, k)[i]) == r[i] by {
            let x = 4 * i + k;
            assert(partial(a, w, m + 1)[x] == q[x] + y * t[x]);
            assert(comp(q, k)[i] == (q[x] % 2 != 0));
            assert(comp(t, k)[i] == (t[x] % 2 != 0));
            let z = t[x];
            if y == 0 {
                assert(y * z == 0) by (nonlinear_arith)
                    requires
                        y == 0,
                ;
            } else if y == 1 {
                assert(y * z == z) by (nonlinear_arith)
                    requires
                        y == 1,
                ;
            } else {
                assert(y * z == -z) by (nonlinear_arith)
                    requires
                        y == -1,
                ;
            }
        }
        assert(comp(p, k) =~= r);
    }
}

/// A challenge is a polynomial in `X^4`.
pub proof fn lemma_sparse(c: ShortChallenge)
    ensures
        ajtai::sparse(fold::challenge(c)),
{
}

/// A challenge acts on every component by its residue modulo 2.
pub proof fn product_parity(c: ShortChallenge, w: Seq<int>, k: int)
    requires
        c.wf(),
        w.len() == 648,
        0 <= k < 4,
    ensures
        comp(laws::reduce_phi(poly::product(fold::challenge(c), w)), k) == scalar::f162().mul(
            comp(w, k),
            eval::mod2(c),
        ),
{
    let a = fold::challenge(c);
    lemma_product_to(c, w, k, 162);
    assert(Seq::new(1296, |x: int| poly::conv(a, w, x, 4 * 162)) =~= poly::product(a, w));
}

/// The parities of a fold.
pub proof fn fold_parity(c: Seq<ShortChallenge>, w: Seq<Seq<Seq<int>>>, i: int, k: int, m: nat)
    requires
        fold::sound(c),
        m <= c.len(),
        m <= w.len(),
        forall|j: int| 0 <= j < m ==> (#[trigger] w[j])[i].len() == 648,
        0 <= k < 4,
    ensures
        comp(ajtai::fold_poly(fold::challenge_list(c), w, i, m), k) == scalar::f162().total(
            |j: int| scalar::f162().mul(comp(w[j][i], k), eval::mod2(c[j])),
            m,
        ),
    decreases m,
{
    let f = scalar::f162();
    let cl = fold::challenge_list(c);
    let g = |j: int| f.mul(comp(w[j][i], k), eval::mod2(c[j]));
    if m == 0 {
        assert(comp(ajtai::fold_poly(cl, w, i, 0), k) =~= f.zero());
    } else {
        let n = (m - 1) as nat;
        fold_parity(c, w, i, k, n);
        assert(c[m - 1].wf() && w[m - 1][i].len() == 648);
        product_parity(c[m - 1], w[m - 1][i], k);
        ajtai::lemma_fold_len(cl, w, i, n);
        let (a, b) = (
            ajtai::fold_poly(cl, w, i, n),
            laws::reduce_phi(poly::product(cl[m - 1], w[m - 1][i])),
        );
        assert(comp(poly::plus(a, b), k) =~= f.sum(comp(a, k), comp(b, k))) by {
            assert forall|t: int| 0 <= t < 162 implies comp(poly::plus(a, b), k)[t] == f.sum(
                comp(a, k),
                comp(b, k),
            )[t] by {
                assert(poly::plus(a, b)[4 * t + k] == a[4 * t + k] + b[4 * t + k]);
            }
        }
        assert(f.total(g, m) == f.sum(f.total(g, n), g(m - 1)));
    }
}

} // verus!
