//! A product in `R_648` by its components: component `m` is the sum over `l` of component
//! `(m - l) mod 4` of the one factor times component `l` of the other in `S`, times `-Z` where
//! `l > m`.
use super::algebra;
use super::chunk;
use super::limbs;
use super::SElem;
use crate::ntt::laws;
use crate::ntt::poly;
use vstd::prelude::*;

verus! {

/// `x` with the sign of `(-1)^s`.
pub open spec fn signed(s: int, x: int) -> int {
    if s % 2 == 0 {
        x
    } else {
        -x
    }
}

/// The component that meets component `l` on the way to component `m`.
pub open spec fn partner(m: int, l: int) -> int {
    if l <= m {
        m - l
    } else {
        m - l + 4
    }
}

/// Coefficient `t` of the product of two components on the way to component `m`, times `-Z` where
/// the indices pass four.
pub open spec fn term_at(a: Seq<int>, v: Seq<int>, m: int, l: int, t: int, n: nat) -> int {
    let (x, y) = (limbs::component(a, partner(m, l)), limbs::component(v, l));
    if l <= m {
        poly::conv(x, y, t, n)
    } else {
        -poly::conv(x, y, t - 1, n)
    }
}

/// The product of two components on the way to component `m`.
pub open spec fn term(a: Seq<int>, v: Seq<int>, m: int, l: int) -> Seq<int> {
    Seq::new(324, |t: int| term_at(a, v, m, l, t, 162))
}

proof fn lemma_signs(s: int, r: int, x: int, y: int)
    ensures
        signed(s, x) * signed(r, y) == signed(s + r, x * y),
{
    assert((s + r) % 2 == (s % 2 + r % 2) % 2);
    assert(-x * -y == x * y && -x * y == -(x * y) && x * -y == -(x * y)) by (nonlinear_arith);
}

/// One factor's contribution, term by term.
proof fn lemma_step(a: Seq<int>, v: Seq<int>, m: int, l: int, t: int, n: nat)
    requires
        a.len() == 648,
        v.len() == 648,
        0 <= m < 4,
        0 <= l < 4,
        0 <= n < 162,
    ensures
        ({
            let i = 4 * n + partner(m, l);
            let k = 4 * t + m - i;
            term_at(a, v, m, l, t, n + 1) == term_at(a, v, m, l, t, n) + signed(
                t,
                if 0 <= k < 648 {
                    a[i] * v[k]
                } else {
                    0
                },
            )
        }),
{
    let p = partner(m, l);
    let (x, y) = (limbs::component(a, p), limbs::component(v, l));
    let s = n as int;
    let i = 4 * s + p;
    let k = 4 * t + m - i;
    let r = if l <= m {
        t - s
    } else {
        t - 1 - s
    };
    assert(k == 4 * r + l);
    if 0 <= r < 162 {
        assert(x[s] == signed(s, a[i]));
        assert(y[r] == signed(r, v[k]));
        lemma_signs(s, r, a[i], v[k]);
        if l > m {
            assert((s + r) % 2 != t % 2);
        }
    }
}

/// Four terms of a product at a time.
proof fn lemma_four_terms(a: Seq<int>, v: Seq<int>, k: int, n: nat)
    ensures
        poly::conv(a, v, k, (4 * n + 4) as nat) == poly::conv(a, v, k, 4 * n) + at(a, v, k, 4 * n)
            + at(a, v, k, 4 * n + 1) + at(a, v, k, 4 * n + 2) + at(a, v, k, 4 * n + 3),
{
    assert(poly::conv(a, v, k, (4 * n + 1) as nat) == poly::conv(a, v, k, 4 * n) + at(
        a,
        v,
        k,
        4 * n,
    ));
    assert(poly::conv(a, v, k, (4 * n + 2) as nat) == poly::conv(a, v, k, (4 * n + 1) as nat) + at(
        a,
        v,
        k,
        4 * n + 1,
    ));
    assert(poly::conv(a, v, k, (4 * n + 3) as nat) == poly::conv(a, v, k, (4 * n + 2) as nat) + at(
        a,
        v,
        k,
        4 * n + 2,
    ));
    assert(poly::conv(a, v, k, (4 * n + 4) as nat) == poly::conv(a, v, k, (4 * n + 3) as nat) + at(
        a,
        v,
        k,
        4 * n + 3,
    ));
}

/// Term `i` of coefficient `k` of a product.
spec fn at(a: Seq<int>, v: Seq<int>, k: int, i: nat) -> int {
    if 0 <= k - i < v.len() {
        a[i as int] * v[k - i]
    } else {
        0
    }
}

/// A coefficient of the product is the sum of the components' products.
proof fn lemma_coefficient(a: Seq<int>, v: Seq<int>, m: int, t: int, n: nat)
    requires
        a.len() == 648,
        v.len() == 648,
        0 <= m < 4,
        0 <= t < 324,
        n <= 162,
    ensures
        signed(t, poly::conv(a, v, 4 * t + m, 4 * n)) == term_at(a, v, m, 0, t, n) + term_at(
            a,
            v,
            m,
            1,
            t,
            n,
        ) + term_at(a, v, m, 2, t, n) + term_at(a, v, m, 3, t, n),
    decreases n,
{
    if n > 0 {
        let p = (n - 1) as nat;
        lemma_coefficient(a, v, m, t, p);
        lemma_step(a, v, m, 0, t, p);
        lemma_step(a, v, m, 1, t, p);
        lemma_step(a, v, m, 2, t, p);
        lemma_step(a, v, m, 3, t, p);
        lemma_four_terms(a, v, 4 * t + m, p);
        assert(4 * p + 4 == 4 * n);
        let k = 4 * t + m;
        let (x0, x1, x2, x3) = (
            at(a, v, k, (4 * p + partner(m, 0)) as nat),
            at(a, v, k, (4 * p + partner(m, 1)) as nat),
            at(a, v, k, (4 * p + partner(m, 2)) as nat),
            at(a, v, k, (4 * p + partner(m, 3)) as nat),
        );
        assert(x0 + x1 + x2 + x3 == at(a, v, k, 4 * p) + at(a, v, k, 4 * p + 1) + at(
            a,
            v,
            k,
            4 * p + 2,
        ) + at(a, v, k, 4 * p + 3)) by {
            if m == 0 {
                assert(partner(m, 0) == 0 && partner(m, 1) == 3 && partner(m, 2) == 2 && partner(
                    m,
                    3,
                ) == 1);
            } else if m == 1 {
                assert(partner(m, 0) == 1 && partner(m, 1) == 0 && partner(m, 2) == 3 && partner(
                    m,
                    3,
                ) == 2);
            } else if m == 2 {
                assert(partner(m, 0) == 2 && partner(m, 1) == 1 && partner(m, 2) == 0 && partner(
                    m,
                    3,
                ) == 3);
            } else {
                assert(partner(m, 0) == 3 && partner(m, 1) == 2 && partner(m, 2) == 1 && partner(
                    m,
                    3,
                ) == 0);
            }
        }
    }
}

/// What stands at `r` modulo 243 in a polynomial of at most 486 coefficients.
proof fn lemma_cyclic(p: Seq<int>, r: int, n: nat)
    requires
        0 <= r < 243,
        n <= 486,
    ensures
        chunk::cyclic(p, r, n) == (if r < n {
            p[r]
        } else {
            0
        }) + (if r + 243 < n {
            p[r + 243]
        } else {
            0
        }),
    decreases n,
{
    if n > 0 {
        lemma_cyclic(p, r, (n - 1) as nat);
        let i = n - 1;
        if i < 243 {
            assert(i % 243 == i);
        } else {
            assert(i % 243 == i - 243);
        }
    }
}

/// Component `m` of a product of ring elements: the sum over `l` of the products of components,
/// reduced in `S`.
pub proof fn component_product(a: Seq<int>, v: Seq<int>, m: int, i: int)
    requires
        a.len() == 648,
        v.len() == 648,
        0 <= m < 4,
        0 <= i < 162,
    ensures
        limbs::component(laws::reduce_phi(poly::product(a, v)), m)[i] == chunk::reduced(
            term(a, v, m, 0),
        )[i] + chunk::reduced(term(a, v, m, 1))[i] + chunk::reduced(term(a, v, m, 2))[i]
            + chunk::reduced(term(a, v, m, 3))[i],
{
    let c = poly::product(a, v);
    let r = 162 + i % 81;
    let (t0, t1, t2, t3) = (term(a, v, m, 0), term(a, v, m, 1), term(a, v, m, 2), term(a, v, m, 3));
    lemma_cyclic(t0, i, 324);
    lemma_cyclic(t1, i, 324);
    lemma_cyclic(t2, i, 324);
    lemma_cyclic(t3, i, 324);
    lemma_cyclic(t0, r, 324);
    lemma_cyclic(t1, r, 324);
    lemma_cyclic(t2, r, 324);
    lemma_cyclic(t3, r, 324);
    let x = 4 * i + m;
    let low = laws::reduce_phi(c);
    assert(limbs::component(low, m)[i] == signed(i, low[x]));
    lemma_coefficient(a, v, m, i, 162);
    lemma_coefficient(a, v, m, r, 162);
    assert(c[x] == poly::conv(a, v, x, 648));
    assert(c[4 * r + m] == poly::conv(a, v, 4 * r + m, 648));
    if i < 81 {
        assert(r == 162 + i);
        lemma_coefficient(a, v, m, i + 243, 162);
        assert(c[4 * (i + 243) + m] == poly::conv(a, v, 4 * (i + 243) + m, 648));
        assert(low[x] == c[x] - c[x + 648] - c[x + 972]);
        assert(x + 648 == 4 * r + m && x + 972 == 4 * (i + 243) + m);
        assert(r % 2 == i % 2 && (i + 243) % 2 != i % 2);
    } else {
        assert(r == 81 + i);
        assert(low[x] == c[x] + c[x + 324]);
        assert(x + 324 == 4 * r + m);
        assert(r % 2 != i % 2);
    }
}

/// The element with its signs turned.
pub open spec fn negated(a: Seq<int>) -> Seq<int> {
    Seq::new(a.len(), |i: int| -a[i])
}

/// What component `l` of the second factor is multiplied by on the way to component `m`: component
/// `m - l` of the first one, and past four minus `Z` times it.
pub open spec fn multiplier(a: Seq<int>, m: int, l: int) -> Seq<int> {
    let x = limbs::component(a, partner(m, l));
    if l <= m {
        x
    } else {
        negated(chunk::reduced(chunk::raised(x, 1)))
    }
}

proof fn lemma_conv_negated(a: Seq<int>, b: Seq<int>, k: int, n: nat)
    requires
        n <= a.len(),
    ensures
        poly::conv(negated(a), b, k, n) == -poly::conv(a, b, k, n),
    decreases n,
{
    if n > 0 {
        lemma_conv_negated(a, b, k, (n - 1) as nat);
        if 0 <= k - (n - 1) < b.len() {
            let (x, y) = (a[n - 1], b[k - (n - 1)]);
            assert(-x * y == -(x * y)) by (nonlinear_arith);
        }
    }
}

proof fn lemma_conv_raised(a: Seq<int>, b: Seq<int>, k: int, n: nat)
    requires
        n <= a.len(),
    ensures
        poly::conv(chunk::raised(a, 1), b, k, n + 1) == poly::conv(a, b, k - 1, n),
    decreases n,
{
    if n == 0 {
        reveal_with_fuel(poly::conv, 2);
        if 0 <= k < b.len() {
            let y = b[k];
            assert(0 * y == 0) by (nonlinear_arith);
        }
    } else {
        lemma_conv_raised(a, b, k, (n - 1) as nat);
    }
}

/// Reduction keeps signs.
proof fn lemma_coefficient_negated(p: Seq<int>, q: Seq<int>, i: int, n: nat)
    requires
        forall|t: int| 0 <= t < n ==> (#[trigger] q[t]) == -p[t],
    ensures
        chunk::cyclic(q, i, n) == -chunk::cyclic(p, i, n),
    decreases n,
{
    if n > 0 {
        lemma_coefficient_negated(p, q, i, (n - 1) as nat);
        assert(q[n - 1] == -p[n - 1]);
    }
}

/// Reduction of a polynomial and of the same with zeros behind it.
proof fn lemma_coefficient_padded(p: Seq<int>, q: Seq<int>, i: int, m: nat, n: nat)
    requires
        m <= n,
        forall|t: int|
            0 <= t < n ==> (#[trigger] q[t]) == (if t < m {
                p[t]
            } else {
                0
            }),
    ensures
        chunk::cyclic(q, i, n) == chunk::cyclic(p, i, m),
    decreases n,
{
    if n > 0 {
        assert(q[n - 1] == (if n - 1 < m {
            p[n - 1]
        } else {
            0
        }));
        if m < n {
            lemma_coefficient_padded(p, q, i, m, (n - 1) as nat);
        } else {
            lemma_coefficient_padded(p, q, i, (m - 1) as nat, (n - 1) as nat);
        }
    }
}

/// No term of a product stands past the lengths of its factors.
proof fn lemma_conv_past(a: Seq<int>, b: Seq<int>, k: int, n: nat)
    requires
        k + 1 >= n + b.len(),
    ensures
        poly::conv(a, b, k, n) == 0,
    decreases n,
{
    if n > 0 {
        lemma_conv_past(a, b, k, (n - 1) as nat);
    }
}

/// The product with the multiplier is the term of the components' product.
proof fn lemma_multiplied(a: Seq<int>, v: Seq<int>, m: int, l: int)
    requires
        a.len() == 648,
        v.len() == 648,
        0 <= m < 4,
        0 <= l < 4,
    ensures
        chunk::reduced(poly::product(multiplier(a, m, l), limbs::component(v, l)))
            == chunk::reduced(term(a, v, m, l)),
{
    let (x, y) = (limbs::component(a, partner(m, l)), limbs::component(v, l));
    if l <= m {
        assert(poly::product(x, y) =~= term(a, v, m, l));
    } else {
        let z = chunk::raised(x, 1);
        let r = chunk::reduced(z);
        let (p, q) = (poly::product(r, y), poly::product(negated(r), y));
        let (big, t) = (poly::product(z, y), term(a, v, m, l));
        algebra::product_of_reduced(z, y);
        assert forall|k: int| 0 <= k < 324 implies (#[trigger] q[k]) == -p[k] by {
            lemma_conv_negated(r, y, k, 162);
        }
        assert forall|k: int| 0 <= k < 325 implies (#[trigger] big[k]) == (if k < 324 {
            negated(t)[k]
        } else {
            0
        }) by {
            lemma_conv_raised(x, y, k, 162);
            if k == 324 {
                lemma_conv_past(x, y, 323, 162);
            }
        }
        assert forall|i: int| 0 <= i < 162 implies chunk::reduced(q)[i] == chunk::reduced(t)[i] by {
            let o = 162 + i % 81;
            lemma_coefficient_negated(p, q, i, 324);
            lemma_coefficient_negated(p, q, o, 324);
            lemma_coefficient_padded(negated(t), big, i, 324, 325);
            lemma_coefficient_padded(negated(t), big, o, 324, 325);
            lemma_coefficient_negated(t, negated(t), i, 324);
            lemma_coefficient_negated(t, negated(t), o, 324);
            assert(chunk::reduced(p)[i] == chunk::reduced(big)[i]);
        }
        assert(chunk::reduced(q) =~= chunk::reduced(t));
    }
}

/// Component `m` of a product of ring elements is the sum over `l` of the products in `S` of
/// component `l` of the second factor and component `m - l` of the first one, the latter shifted by
/// one and negated where `l` is beyond `m`.
pub proof fn component_of_product(a: Seq<int>, v: Seq<int>, m: int, i: int)
    requires
        a.len() == 648,
        v.len() == 648,
        0 <= m < 4,
        0 <= i < 162,
    ensures
        limbs::component(laws::reduce_phi(poly::product(a, v)), m)[i] == chunk::reduced(
            poly::product(multiplier(a, m, 0), limbs::component(v, 0)),
        )[i] + chunk::reduced(poly::product(multiplier(a, m, 1), limbs::component(v, 1)))[i]
            + chunk::reduced(poly::product(multiplier(a, m, 2), limbs::component(v, 2)))[i]
            + chunk::reduced(poly::product(multiplier(a, m, 3), limbs::component(v, 3)))[i],
{
    component_product(a, v, m, i);
    lemma_multiplied(a, v, m, 0);
    lemma_multiplied(a, v, m, 1);
    lemma_multiplied(a, v, m, 2);
    lemma_multiplied(a, v, m, 3);
}

/// The same of the elements themselves: with `f[l]` the multiplier of component `l` and `p[l]` the
/// product of the two in `S`, component `m` of the product is `p[0] + p[1] + p[2] + p[3]`.
pub proof fn split_of_product(
    a: Seq<int>,
    v: Seq<int>,
    ea: Seq<SElem>,
    ev: Seq<SElem>,
    ec: Seq<SElem>,
    f: Seq<SElem>,
    p: Seq<SElem>,
    m: int,
)
    requires
        a.len() == 648,
        v.len() == 648,
        0 <= m < 4,
        limbs::is_split(ea, a),
        limbs::is_split(ev, v),
        limbs::is_split(ec, laws::reduce_phi(poly::product(a, v))),
        forall|l: int|
            0 <= l < 4 ==> chunk::ints((#[trigger] f[l])@) == (if l <= m {
                chunk::ints(ea[m - l]@)
            } else {
                negated(chunk::reduced(chunk::raised(chunk::ints(ea[m - l + 4]@), 1)))
            }),
        forall|l: int|
            0 <= l < 4 ==> chunk::ints((#[trigger] p[l])@) == chunk::reduced(
                poly::product(chunk::ints(f[l]@), chunk::ints(ev[l]@)),
            ),
    ensures
        forall|i: int|
            0 <= i < 162 ==> (#[trigger] ec[m]@[i]) == p[0]@[i] + p[1]@[i] + p[2]@[i] + p[3]@[i],
{
    assert forall|l: int| 0 <= l < 4 implies chunk::ints((#[trigger] p[l])@) == chunk::reduced(
        poly::product(multiplier(a, m, l), limbs::component(v, l)),
    ) by {
        let x = ea[partner(m, l)];
        assert(chunk::ints(x@) == limbs::component(a, partner(m, l)));
        assert(chunk::ints(ev[l]@) == limbs::component(v, l));
        assert(chunk::ints(f[l]@) == multiplier(a, m, l));
    }
    assert forall|i: int| 0 <= i < 162 implies (#[trigger] ec[m]@[i]) == p[0]@[i] + p[1]@[i]
        + p[2]@[i] + p[3]@[i] by {
        component_of_product(a, v, m, i);
        assert(chunk::ints(ec[m]@)[i] == ec[m]@[i]);
        assert(chunk::ints(p[0]@)[i] == p[0]@[i]);
        assert(chunk::ints(p[1]@)[i] == p[1]@[i]);
        assert(chunk::ints(p[2]@)[i] == p[2]@[i]);
        assert(chunk::ints(p[3]@)[i] == p[3]@[i]);
    }
}

} // verus!
