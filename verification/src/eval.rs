//! Evaluation of the witness: rows first, then columns.
//!
//! The witness is `W[i + n j]` with `i` the index inside a column and `j` the column. A point's
//! halves are read least significant coordinate first.
use crate::challenge::short::ShortChallenge;
use crate::fields::crossfield;
use crate::fields::linear;
use crate::fields::scalar;
use crate::fields::scalar::F162;
use crate::fold;
use crate::ring::RingElement;
use crate::scheme::params;
use vstd::arithmetic::power2::*;
use vstd::prelude::*;

verus! {

/// The weights `eq(p, i)`, the first coordinate of `p` at the least significant bit of `i`.
pub open spec fn weights(p: Seq<Seq<bool>>) -> Seq<Seq<bool>> {
    scalar::f162().eq(p.reverse())
}

/// `u_j = sum_i eq(p0, i) w[i + n j]`, `n = 2^p0.len()`.
pub open spec fn row(w: Seq<Seq<bool>>, p0: Seq<Seq<bool>>, j: int) -> Seq<bool> {
    let f = scalar::f162();
    let n = pow2(p0.len());
    f.total(|i: int| f.mul(w[i + n * j], weights(p0)[i]), n)
}

/// `u_j` for every column of `w`.
pub open spec fn rows(w: Seq<Seq<bool>>, p0: Seq<Seq<bool>>) -> Seq<Seq<bool>> {
    Seq::new(w.len() / pow2(p0.len()), |j: int| row(w, p0, j))
}

/// `sum_j u_j eq(p1, j)`.
pub open spec fn claimed(u: Seq<Seq<bool>>, p1: Seq<Seq<bool>>) -> Seq<bool> {
    scalar::f162().dot(u, weights(p1))
}

fn reversed(p: &[F162]) -> (r: Vec<F162>)
    ensures
        r@ == p@.reverse(),
{
    let n: usize = p.len();
    let mut r: Vec<F162> = Vec::with_capacity(n);
    let mut i: usize = 0;
    while i < n
        invariant
            i <= n == p@.len(),
            r@ == p@.reverse().take(i as int),
        decreases n - i,
    {
        r.push(p[n - 1 - i]);
        i += 1;
        assert(r@ =~= p@.reverse().take(i as int));
    }
    assert(p@.reverse().take(n as int) =~= p@.reverse());
    r
}

fn eq_weights(p: &[F162]) -> (e: Vec<F162>)
    requires
        linear::all_wf(p@),
        pow2(p@.len()) <= usize::MAX,
    ensures
        linear::all_wf(e@),
        e@.len() == pow2(p@.len()),
        linear::views(e@) == weights(linear::views(p@)),
{
    let r = reversed(p);
    proof {
        assert forall|i: int| 0 <= i < r@.len() implies (#[trigger] r@[i]).wf() by {
            assert(r@[i] == p@[p@.len() - 1 - i]);
        }
        assert(linear::views(r@) =~= linear::views(p@).reverse());
    }
    crossfield::eq_expand_f162(r.as_slice())
}

/// `u_j = sum_i eq(p0, i) w[i + n j]`, one field element per column.
pub fn row_evaluate(w: &[F162], p0: &[F162]) -> (u: Vec<F162>)
    requires
        linear::all_wf(w@),
        linear::all_wf(p0@),
        pow2(p0@.len()) <= usize::MAX,
    ensures
        linear::all_wf(u@),
        linear::views(u@) == rows(linear::views(w@), linear::views(p0@)),
{
    let e = eq_weights(p0);
    let n: usize = e.len();
    proof {
        lemma_pow2_pos(p0@.len());
    }
    let len: usize = w.len();
    let m: usize = len / n;
    let ghost (ww, pp) = (linear::views(w@), linear::views(p0@));
    let ghost f = scalar::f162();
    proof {
        vstd::arithmetic::div_mod::lemma_fundamental_div_mod(len as int, n as int);
        assert(n * m <= len);
    }
    let mut u: Vec<F162> = Vec::with_capacity(m);
    let mut j: usize = 0;
    while j < m
        invariant
            j <= m,
            n * m <= len == w@.len(),
            n == e@.len() == pow2(p0@.len()),
            linear::all_wf(w@),
            linear::all_wf(e@),
            linear::views(e@) == weights(pp),
            ww == linear::views(w@),
            pp == linear::views(p0@),
            f == scalar::f162(),
            u@.len() == j,
            linear::all_wf(u@),
            forall|k: int| 0 <= k < j ==> (#[trigger] u@[k])@ == row(ww, pp, k),
        decreases m - j,
    {
        proof {
            let (nn, mm, jj) = (n as int, m as int, j as int);
            assert(0 <= nn * jj && nn * jj + nn <= nn * mm) by (nonlinear_arith)
                requires
                    0 <= jj < mm,
                    0 <= nn,
            ;
        }
        let base: usize = n * j;
        let mut acc = F162::zero();
        let mut i: usize = 0;
        while i < n
            invariant
                i <= n,
                base == n * j,
                base + n <= w@.len() == len,
                n == e@.len() == pow2(p0@.len()),
                linear::all_wf(w@),
                linear::all_wf(e@),
                linear::views(e@) == weights(pp),
                ww == linear::views(w@),
                pp == linear::views(p0@),
                f == scalar::f162(),
                acc.wf(),
                acc@ == f.total(
                    |i: int| f.mul(ww[i + pow2(pp.len()) * j], weights(pp)[i]),
                    i as nat,
                ),
            decreases n - i,
        {
            acc = acc + w[base + i] * e[i];
            assert(ww[i + pow2(pp.len()) * j] == w@[base + i]@);
            assert(weights(pp)[i as int] == e@[i as int]@);
            i += 1;
        }
        assert(acc@ == row(ww, pp, j as int)) by {
            let n = pow2(pp.len());
            f.total_ext(
                |i: int| f.mul(ww[i + pow2(pp.len()) * j], weights(pp)[i]),
                |i: int| f.mul(ww[i + n * j as int], weights(pp)[i]),
                n,
            );
        }
        u.push(acc);
        j += 1;
    }
    assert(linear::views(u@) =~= rows(ww, pp));
    u
}

/// `sum_j u_j eq(p1, j)`.
pub fn claim(u: &[F162], p1: &[F162]) -> (r: F162)
    requires
        linear::all_wf(u@),
        linear::all_wf(p1@),
        u@.len() == pow2(p1@.len()),
    ensures
        r.wf(),
        r@ == claimed(linear::views(u@), linear::views(p1@)),
{
    let n: usize = u.len();
    let e = eq_weights(p1);
    let mut acc = F162::zero();
    let mut j: usize = 0;
    while j < n
        invariant
            j <= n == u@.len() == e@.len(),
            linear::all_wf(u@),
            linear::all_wf(e@),
            acc.wf(),
            acc@ == scalar::f162().dot_to(linear::views(u@), linear::views(e@), j as nat),
        decreases n - j,
    {
        acc = acc + u[j] * e[j];
        j += 1;
    }
    acc
}

/// The bits at the positions of a challenge.
pub open spec fn mod2(c: ShortChallenge) -> Seq<bool> {
    Seq::new(162, |p: int| c.has(p))
}

/// `sum_j u_j (c_j mod 2)`.
pub open spec fn folded_row(u: Seq<Seq<bool>>, c: Seq<ShortChallenge>, n: nat) -> Seq<bool> {
    let f = scalar::f162();
    f.total(|j: int| f.mul(u[j], mod2(c[j])), n)
}

/// `sum_j u_j (c_j mod 2)` over the entries that both lists have.
pub fn fold_binary(u: &[F162], c: &[ShortChallenge]) -> (r: F162)
    requires
        linear::all_wf(u@),
        forall|j: int| 0 <= j < c@.len() ==> (#[trigger] c@[j]).wf(),
    ensures
        r.wf(),
        r@ == folded_row(
            linear::views(u@),
            c@,
            if u@.len() < c@.len() {
                u@.len()
            } else {
                c@.len()
            },
        ),
{
    let n: usize = if u.len() < c.len() {
        u.len()
    } else {
        c.len()
    };
    let mut acc = F162::zero();
    let mut j: usize = 0;
    while j < n
        invariant
            j <= n <= u@.len(),
            n <= c@.len(),
            linear::all_wf(u@),
            forall|j: int| 0 <= j < c@.len() ==> (#[trigger] c@[j]).wf(),
            acc.wf(),
            acc@ == folded_row(linear::views(u@), c@, j as nat),
        decreases n - j,
    {
        let b = c[j].to_f162();
        assert(b@ =~= mod2(c@[j as int]));
        acc = acc + u[j] * b;
        j += 1;
    }
    acc
}

/// Coefficients modulo 2, read four field elements at a time: coefficient `m` of element `4 i + k`
/// is the parity of coefficient `4 m + k` of ring element `i`.
pub open spec fn parity(v: Seq<Seq<int>>) -> Seq<Seq<bool>> {
    Seq::new(
        4 * v.len(),
        |e: int| Seq::new(162, |m: int| v[e / 4][4 * m + e % 4] % 2 != 0),
    )
}

/// The parities of component `k` of a ring element.
fn parity_element(v: &RingElement, k: usize) -> (r: F162)
    requires
        k < 4,
    ensures
        r.wf(),
        forall|m: int| 0 <= m < 162 ==> (#[trigger] r@[m]) == (v.v@[4 * m + k] as int % 2 != 0),
{
    let mut r = F162::zero();
    let mut m: usize = 0;
    while m < 162
        invariant
            m <= 162,
            k < 4,
            r.wf(),
            forall|i: int| 0 <= i < m ==> (#[trigger] r@[i]) == (v.v@[4 * i + k] as int % 2 != 0),
            forall|i: int| m <= i < 162 ==> !(#[trigger] r@[i]),
        decreases 162 - m,
    {
        let x: i16 = v.v[4 * m + k];
        let y: i32 = if x < 0 {
            -(x as i32)
        } else {
            x as i32
        };
        if y % 2 != 0 {
            r = r.with_bit(m);
        }
        m += 1;
    }
    r
}

/// `eq(p0) . (v mod 2) == value`, for a fold with as many field elements as the point has weights.
pub fn binary_check(p0: &[F162], v: &[RingElement], value: F162) -> (r: bool)
    requires
        linear::all_wf(p0@),
        value.wf(),
        4 * v@.len() <= usize::MAX,
    ensures
        r == (4 * v@.len() == pow2(p0@.len()) && scalar::f162().dot(
            parity(fold::integers(v@)),
            weights(linear::views(p0@)),
        ) == value@),
{
    let n: usize = 4 * v.len();
    let len: usize = p0.len();
    if len >= usize::BITS as usize {
        proof {
            lemma_large(len as nat);
        }
        return false;
    }
    if params::shift(len as u32) != n {
        return false;
    }
    let e = eq_weights(p0);
    let mut acc = F162::zero();
    let ghost (pv, ws) = (parity(fold::integers(v@)), weights(linear::views(p0@)));
    let mut j: usize = 0;
    while j < n
        invariant
            j <= n == 4 * v@.len() == e@.len(),
            linear::all_wf(e@),
            linear::views(e@) == ws,
            pv == parity(fold::integers(v@)),
            acc.wf(),
            acc@ == scalar::f162().dot_to(pv, ws, j as nat),
        decreases n - j,
    {
        let x = parity_element(&v[j / 4], j % 4);
        assert(x@ =~= pv[j as int]);
        assert(linear::views(e@)[j as int] == e@[j as int]@);
        acc = acc + x * e[j];
        j += 1;
    }
    assert(pv.len() == n);
    equal(acc, value)
}

/// Equality of field elements.
pub fn equal(a: F162, b: F162) -> (r: bool)
    requires
        a.wf(),
        b.wf(),
    ensures
        r == (a@ == b@),
{
    let r = a == b;
    proof {
        if r {
            F162::lemma_limbs(a, b);
        } else if a@ == b@ {
            F162::ext(a, b);
        }
    }
    r
}

proof fn lemma_large(n: nat)
    requires
        n >= usize::BITS,
    ensures
        pow2(n) > usize::MAX,
{
    lemma2_to64();
    lemma2_to64_rest();
    if n > usize::BITS {
        lemma_pow2_strictly_increases(usize::BITS as nat, n);
    }
}

/// Rows then columns is the multilinear extension of the flat witness: the column coordinates,
/// most significant first, and then the row coordinates.
pub proof fn claim_is_mle(w: Seq<Seq<bool>>, p0: Seq<Seq<bool>>, p1: Seq<Seq<bool>>)
    requires
        scalar::f162().elems(w),
        scalar::f162().elems(p0),
        scalar::f162().elems(p1),
        w.len() == pow2(p1.len() + p0.len()),
    ensures
        rows(w, p0).len() == pow2(p1.len()),
        claimed(rows(w, p0), p1) == scalar::f162().mle(w, p1.reverse() + p0.reverse()),
{
    let f = scalar::f162();
    let (a, b) = (p1.reverse(), p0.reverse());
    let (n, m) = (pow2(p0.len()), pow2(p1.len()));
    lemma_pow2_adds(p1.len(), p0.len());
    lemma_pow2_pos(p0.len());
    let u = rows(w, p0);
    assert(w.len() as int / n as int == m as int) by {
        vstd::arithmetic::div_mod::lemma_div_by_multiple(m as int, n as int);
    }
    assert forall|k: int| 0 <= k < a.len() implies f.elem(#[trigger] a[k]) by {}
    assert forall|k: int| 0 <= k < b.len() implies f.elem(#[trigger] b[k]) by {}
    f.eq_shape(a);
    f.eq_shape(b);
    let e = f.eq(a + b);
    let g = |k: int| f.mul(w[k], e[k]);
    assert(n * m == w.len()) by (nonlinear_arith)
        requires
            w.len() == m * n,
    ;
    f.total_blocks(g, n, m);
    let blocks = |j: int| f.total(|i: int| g(i + n * j), n);
    let want = |j: int| f.mul(u[j], f.eq(a)[j]);
    assert forall|j: int| 0 <= j < m implies #[trigger] blocks(j) == want(j) by {
        let x = f.eq(a)[j];
        let inner = |i: int| f.mul(w[i + n * j], weights(p0)[i]);
        let xi = |i: int| f.mul(x, inner(i));
        let gi = |i: int| g(i + n * j);
        f.total_mul(x, inner, n);
        f.total_elem(inner, n);
        f.mul_comm(f.total(inner, n), x);
        assert forall|i: int| 0 <= i < n implies #[trigger] gi(i) == xi(i) by {
            f.eq_join(a, b, j, i);
            let (y, z) = (f.eq(b)[i], w[i + n * j]);
            // w (x y) = x (w y)
            f.mul_comm(z, f.mul(x, y));
            f.mul_elem(x, y);
            f.mul_assoc(x, y, z);
            f.mul_comm(y, z);
        }
        f.total_ext(gi, xi, n);
        f.total_ext(gi, |i: int| g(i + n * j), n);
    }
    f.total_ext(blocks, want, m);
}

// ---------------------------------------------------------------------------------------------
// the corners of the cube
// ---------------------------------------------------------------------------------------------

/// The bits of `j` as coordinates, the least significant one first.
pub open spec fn corner(n: nat, j: int) -> Seq<Seq<bool>>
    decreases n,
{
    if n == 0 {
        Seq::empty()
    } else {
        seq![scalar::f162().scale(j % 2 == 1, scalar::f162().one())] + corner(
            (n - 1) as nat,
            j / 2,
        )
    }
}

/// The weights at a corner pick its index.
pub proof fn corner_weights(n: nat, j: int)
    requires
        0 <= j < pow2(n),
    ensures
        corner(n, j).len() == n,
        scalar::f162().elems(corner(n, j)),
        weights(corner(n, j)).len() == pow2(n),
        forall|x: int|
            0 <= x < pow2(n) ==> (#[trigger] weights(corner(n, j))[x]) == scalar::f162().scale(
                x == j,
                scalar::f162().one(),
            ),
    decreases n,
{
    let f = scalar::f162();
    lemma2_to64();
    if n == 0 {
        assert(corner(n, j).reverse() =~= Seq::<Seq<bool>>::empty());
    } else {
        let m = (n - 1) as nat;
        lemma_pow2_unfold(n);
        corner_weights(m, j / 2);
        let b = f.scale(j % 2 == 1, f.one());
        let (c, d) = (corner(n, j), corner(m, j / 2));
        assert forall|i: int| 0 <= i < c.len() implies f.elem(#[trigger] c[i]) by {
            if i > 0 {
                assert(c[i] == d[i - 1]);
            }
        }
        assert(c.reverse().drop_last() =~= d.reverse());
        assert(c.reverse().last() == b);
        let t = weights(d);
        assert(weights(c) == f.eq_step(t, b));
        assert forall|x: int| 0 <= x < pow2(n) implies (#[trigger] weights(c)[x]) == f.scale(
            x == j,
            f.one(),
        ) by {
            let y = t[x / 2];
            assert(y == f.scale(x / 2 == j / 2, f.one()));
            f.mul_zero(y);
            f.mul_one(y);
            f.sum_self(y);
            f.sum_zero(y);
        }
    }
}

/// A sum against the weights of a corner is the entry there.
proof fn lemma_picked(g: spec_fn(int) -> Seq<bool>, h: spec_fn(int) -> Seq<bool>, j: int, n: nat)
    requires
        0 <= j,
        scalar::f162().elem(g(j)),
        forall|x: int|
            0 <= x < n ==> #[trigger] h(x) == (if x == j {
                g(j)
            } else {
                scalar::f162().zero()
            }),
    ensures
        scalar::f162().total(h, n) == (if j < n {
            g(j)
        } else {
            scalar::f162().zero()
        }),
    decreases n,
{
    let f = scalar::f162();
    if n > 0 {
        lemma_picked(g, h, j, (n - 1) as nat);
        assert(h(n - 1) == (if n - 1 == j {
            g(j)
        } else {
            f.zero()
        }));
        f.sum_zero(g(j));
        f.sum_zero(f.zero());
    }
}

/// At a corner of the row variables the row evaluation of a column is an entry of the column.
pub proof fn row_at_corner(w: Seq<Seq<bool>>, n: nat, i: int, j: int)
    requires
        0 <= i < pow2(n),
        scalar::f162().elem(w[i + pow2(n) * j]),
    ensures
        row(w, corner(n, i), j) == w[i + pow2(n) * j],
{
    let f = scalar::f162();
    let c = corner(n, i);
    corner_weights(n, i);
    let g = |x: int| w[x + pow2(n) * j];
    let h = |x: int| f.mul(w[x + pow2(n) * j], weights(c)[x]);
    assert forall|x: int| 0 <= x < pow2(n) implies #[trigger] h(x) == (if x == i {
        g(i)
    } else {
        f.zero()
    }) by {
        f.mul_zero(g(x));
        if x == i {
            f.mul_one(g(x));
        }
    }
    lemma_picked(g, h, i, pow2(n));
    f.total_ext(h, |x: int| f.mul(w[x + pow2(n) * j], weights(c)[x]), pow2(n));
}

/// At a corner of the column variables the claim is the entry of that column.
pub proof fn claim_at_corner(u: Seq<Seq<bool>>, m: nat, j: int)
    requires
        u.len() == pow2(m),
        scalar::f162().elems(u),
        0 <= j < pow2(m),
    ensures
        claimed(u, corner(m, j)) == u[j],
{
    let f = scalar::f162();
    let c = corner(m, j);
    corner_weights(m, j);
    let g = |x: int| u[x];
    let h = |x: int| f.mul(u[x], weights(c)[x]);
    assert forall|x: int| 0 <= x < pow2(m) implies #[trigger] h(x) == (if x == j {
        g(j)
    } else {
        f.zero()
    }) by {
        f.mul_zero(u[x]);
        if x == j {
            f.mul_one(u[x]);
        }
    }
    lemma_picked(g, h, j, pow2(m));
    f.total_ext(h, |i: int| f.mul(u[i], weights(c)[i]), u.len());
}

} // verus!
