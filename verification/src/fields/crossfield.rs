//! The switch from a claim in `B128` on a packed trace to one in `F162` on the lifted trace.
use super::field;
use super::linear;
use super::scalar;
use super::scalar::{B128, F162};
use super::sumcheck;
use super::sumcheck::Poly;
use vstd::arithmetic::power2::*;
use vstd::prelude::*;

verus! {

pub const LOG_PACK: usize = 7;

/// Bits per word.
pub const PACK: usize = 128;

// ---------------------------------------------------------------------------------------------
// the equality weights
// ---------------------------------------------------------------------------------------------

/// The weights `eq(r, j)` for all `2^r.len()` indices, the first coordinate most significant.
pub fn eq_expand_f162(r: &[F162]) -> (t: Vec<F162>)
    requires
        linear::all_wf(r@),
        pow2(r@.len()) <= usize::MAX,
    ensures
        linear::all_wf(t@),
        t@.len() == pow2(r@.len()),
        linear::views(t@) == scalar::f162().eq(linear::views(r@)),
{
    let mut t: Vec<F162> = vec![F162::one()];
    let mut i: usize = 0;
    proof {
        lemma2_to64();
        assert(linear::views(r@).take(0) =~= Seq::<Seq<bool>>::empty());
        assert(linear::views(t@) =~= scalar::f162().eq(linear::views(r@).take(0)));
    }
    while i < r.len()
        invariant
            i <= r@.len(),
            linear::all_wf(r@),
            pow2(r@.len()) <= usize::MAX,
            linear::all_wf(t@),
            t@.len() == pow2(i as nat),
            linear::views(t@) == scalar::f162().eq(linear::views(r@).take(i as int)),
        decreases r@.len() - i,
    {
        proof {
            lemma_pow2_unfold((i + 1) as nat);
            if i + 1 < r@.len() {
                lemma_pow2_strictly_increases((i + 1) as nat, r@.len());
            }
        }
        let mut n: Vec<F162> = Vec::with_capacity(t.len() * 2);
        let ri = r[i];
        let ghost full = scalar::f162().eq_step(linear::views(t@), ri@);
        let mut j: usize = 0;
        while j < t.len()
            invariant
                j <= t@.len(),
                2 * t@.len() <= usize::MAX,
                ri.wf(),
                linear::all_wf(t@),
                linear::all_wf(n@),
                n@.len() == 2 * j,
                full == scalar::f162().eq_step(linear::views(t@), ri@),
                forall|k: int| 0 <= k < 2 * j ==> (#[trigger] n@[k])@ == full[k],
            decreases t@.len() - j,
        {
            let x = t[j];
            let hi = x * ri;
            let lo = x + hi;
            proof {
                assert(linear::views(t@)[j as int] == x@);
                assert(full[2 * j] == lo@);
                assert((2 * j + 1) / 2 == j && (2 * j + 1) % 2 == 1);
                assert(full[2 * j + 1] == hi@);
            }
            n.push(lo);
            n.push(hi);
            j += 1;
        }
        proof {
            let rv = linear::views(r@);
            assert(rv.take(i + 1).drop_last() =~= rv.take(i as int));
            assert(rv.take(i + 1).last() == ri@);
            assert(linear::views(n@) =~= full);
        }
        t = n;
        i += 1;
    }
    assert(linear::views(r@).take(r@.len() as int) =~= linear::views(r@));
    t
}

/// The weights `eq(r, j)` for all `2^r.len()` indices, the first coordinate most significant.
pub fn eq_expand_b128(r: &[B128]) -> (t: Vec<B128>)
    requires
        pow2(r@.len()) <= usize::MAX,
    ensures
        t@.len() == pow2(r@.len()),
        linear::words(t@) == scalar::ghash().eq(linear::words(r@)),
{
    let mut t: Vec<B128> = vec![B128::one()];
    let mut i: usize = 0;
    proof {
        lemma2_to64();
        assert(linear::words(r@).take(0) =~= Seq::<Seq<bool>>::empty());
        assert(linear::words(t@) =~= scalar::ghash().eq(linear::words(r@).take(0)));
    }
    while i < r.len()
        invariant
            i <= r@.len(),
            pow2(r@.len()) <= usize::MAX,
            t@.len() == pow2(i as nat),
            linear::words(t@) == scalar::ghash().eq(linear::words(r@).take(i as int)),
        decreases r@.len() - i,
    {
        proof {
            lemma_pow2_unfold((i + 1) as nat);
            if i + 1 < r@.len() {
                lemma_pow2_strictly_increases((i + 1) as nat, r@.len());
            }
        }
        let mut n: Vec<B128> = Vec::with_capacity(t.len() * 2);
        let ri = r[i];
        let ghost full = scalar::ghash().eq_step(linear::words(t@), ri@);
        let mut j: usize = 0;
        while j < t.len()
            invariant
                j <= t@.len(),
                2 * t@.len() <= usize::MAX,
                n@.len() == 2 * j,
                full == scalar::ghash().eq_step(linear::words(t@), ri@),
                forall|k: int| 0 <= k < 2 * j ==> (#[trigger] n@[k])@ == full[k],
            decreases t@.len() - j,
        {
            let x = t[j];
            let hi = x * ri;
            let lo = x + hi;
            proof {
                assert(linear::words(t@)[j as int] == x@);
                assert(full[2 * j] == lo@);
                assert((2 * j + 1) / 2 == j && (2 * j + 1) % 2 == 1);
                assert(full[2 * j + 1] == hi@);
            }
            n.push(lo);
            n.push(hi);
            j += 1;
        }
        proof {
            let rv = linear::words(r@);
            assert(rv.take(i + 1).drop_last() =~= rv.take(i as int));
            assert(rv.take(i + 1).last() == ri@);
            assert(linear::words(n@) =~= full);
        }
        t = n;
        i += 1;
    }
    assert(linear::words(r@).take(r@.len() as int) =~= linear::words(r@));
    t
}

// ---------------------------------------------------------------------------------------------
// the tensor
// ---------------------------------------------------------------------------------------------

/// `X c` for a tensor `c` with 128 coordinates, multiplied in its `B128` factor.
spec fn shifted(c: Seq<Seq<bool>>) -> Seq<Seq<bool>> {
    let f = scalar::f162();
    Seq::new(
        128,
        |k: int|
            f.sum(
                if k > 0 {
                    c[k - 1]
                } else {
                    f.zero()
                },
                if scalar::ghash().taps.contains(k) {
                    c[127]
                } else {
                    f.zero()
                },
            ),
    )
}

/// `sum_{i >= k} h_i X^(i - k) c`.
spec fn scaled(c: Seq<Seq<bool>>, h: Seq<bool>, k: nat) -> Seq<Seq<bool>>
    decreases 128 - k,
{
    let f = scalar::f162();
    if k >= 128 {
        Seq::new(128, |i: int| f.zero())
    } else {
        let s = shifted(scaled(c, h, k + 1));
        Seq::new(128, |i: int| f.sum(s[i], f.scale(h[k as int], c[i])))
    }
}

/// The coordinates of `sum_{j < n} x_j (x) e_j`.
spec fn tensor(e: Seq<Seq<bool>>, x: Seq<Seq<bool>>, n: nat) -> Seq<Seq<bool>> {
    Seq::new(128, |k: int| scalar::f162().slice(e, x, k, n))
}

proof fn lemma_shifted(e: Seq<Seq<bool>>, x: Seq<Seq<bool>>, n: nat)
    requires
        scalar::f162().elems(x),
        e.len() == n,
        x.len() == n,
    ensures
        shifted(tensor(e, x, n)) == tensor(
            Seq::new(n, |j: int| scalar::ghash().xtime(e[j])),
            x,
            n,
        ),
{
    let u = Seq::new(n, |j: int| scalar::ghash().xtime(e[j]));
    assert forall|k: int| 0 <= k < 128 implies shifted(tensor(e, x, n))[k] == tensor(u, x, n)[k] by {
        scalar::f162().slice_shift(scalar::ghash(), e, u, x, k, n);
    }
    assert(shifted(tensor(e, x, n)) =~= tensor(u, x, n));
}

proof fn lemma_scaled(e: Seq<Seq<bool>>, x: Seq<Seq<bool>>, h: Seq<bool>, n: nat, k: nat)
    requires
        scalar::f162().elems(x),
        scalar::ghash().elems(e),
        e.len() == n,
        x.len() == n,
        k <= 128,
    ensures
        scaled(tensor(e, x, n), h, k) == tensor(
            Seq::new(n, |j: int| scalar::ghash().horner(e[j], h, k)),
            x,
            n,
        ),
    decreases 128 - k,
{
    let (f, g) = (scalar::f162(), scalar::ghash());
    let c = tensor(e, x, n);
    let u = Seq::new(n, |j: int| g.horner(e[j], h, k));
    if k == 128 {
        assert forall|i: int| 0 <= i < 128 implies f.zero() == tensor(u, x, n)[i] by {
            let s = |j: int| f.scale(u[j][i], x[j]);
            f.total_zero(n);
            f.total_ext(s, |j: int| f.zero(), n);
        }
        assert(scaled(c, h, k) =~= tensor(u, x, n));
    } else {
        let next = Seq::new(n, |j: int| g.horner(e[j], h, k + 1));
        let up = Seq::new(n, |j: int| g.xtime(next[j]));
        lemma_scaled(e, x, h, n, k + 1);
        lemma_shifted(next, x, n);
        let hk = h[k as int];
        let he = Seq::new(n, |j: int| g.scale(hk, e[j]));
        assert forall|i: int| 0 <= i < 128 implies scaled(c, h, k)[i] == tensor(u, x, n)[i] by {
            assert forall|j: int| 0 <= j < n implies #[trigger] u[j] == g.sum(up[j], he[j]) by {
                assert(next[j] == g.horner(e[j], h, k + 1));
            }
            f.slice_sum_left(g, up, he, u, x, i, n);
            if hk {
                assert(he =~= e);
            } else {
                let s = |j: int| f.scale(he[j][i], x[j]);
                f.total_zero(n);
                f.total_ext(s, |j: int| f.zero(), n);
            }
            assert(f.slice(he, x, i, n) == f.scale(hk, c[i]));
        }
        assert(scaled(c, h, k) =~= tensor(u, x, n));
    }
}

/// An element of `F162 (x) B128`: `c[k]` goes with the basis element `X^k` of `B128`.
struct Tensor {
    c: Vec<F162>,
}

impl View for Tensor {
    type V = Seq<Seq<bool>>;

    closed spec fn view(&self) -> Seq<Seq<bool>> {
        linear::views(self.c@)
    }
}

impl Tensor {
    spec fn wf(&self) -> bool {
        self.c@.len() == 128 && linear::all_wf(self.c@)
    }

    fn zero() -> (r: Tensor)
        ensures
            r.wf(),
            r@ == Seq::new(128, |k: int| scalar::f162().zero()),
    {
        let z = F162::zero();
        let r = Tensor { c: vec![z; 128] };
        assert(r@ =~= Seq::new(128, |k: int| scalar::f162().zero()));
        r
    }

    /// `a (x) 1`.
    fn from_vertical(a: F162) -> (r: Tensor)
        requires
            a.wf(),
        ensures
            r.wf(),
            r@ == tensor(seq![scalar::ghash().one()], seq![a@], 1),
    {
        let mut t = Tensor::zero();
        let ghost z = t@;
        t.c.set(0, a);
        proof {
            let f = scalar::f162();
            assert(t@ =~= z.update(0, a@));
            let (e, x) = (seq![scalar::ghash().one()], seq![a@]);
            assert forall|k: int| 0 <= k < 128 implies (#[trigger] t@[k]) == f.slice(e, x, k, 1) by {
                let g = |j: int| f.scale(e[j][k], x[j]);
                assert(f.total(g, 1) == f.sum(f.total(g, 0), g(0)));
                assert(f.total(g, 0) == f.zero());
                f.sum_zero(a@);
                f.sum_zero(f.zero());
            }
            assert(t@ =~= tensor(e, x, 1));
        }
        t
    }

    fn scale_vertical(&self, a: F162) -> (r: Tensor)
        requires
            a.wf(),
            self.wf(),
        ensures
            r.wf(),
            r@ == Seq::new(128, |k: int| scalar::f162().mul(self@[k], a@)),
    {
        let mut c: Vec<F162> = Vec::with_capacity(128);
        let mut k: usize = 0;
        while k < 128
            invariant
                k <= 128,
                a.wf(),
                self.wf(),
                c@.len() == k,
                linear::all_wf(c@),
                forall|i: int|
                    0 <= i < k ==> (#[trigger] c@[i])@ == scalar::f162().mul(self@[i], a@),
            decreases 128 - k,
        {
            c.push(self.c[k] * a);
            k += 1;
        }
        let r = Tensor { c };
        assert(r@ =~= Seq::new(128, |k: int| scalar::f162().mul(self@[k], a@)));
        r
    }

    /// Multiplication by `X` in the `B128` factor.
    fn shift_x(&self) -> (r: Tensor)
        requires
            self.wf(),
        ensures
            r.wf(),
            r@ == shifted(self@),
    {
        let top = self.c[127];
        let mut c: Vec<F162> = Vec::with_capacity(128);
        let mut k: usize = 0;
        let ghost f = scalar::f162();
        while k < 128
            invariant
                k <= 128,
                self.wf(),
                top.wf(),
                f == scalar::f162(),
                top@ == self@[127],
                c@.len() == k,
                linear::all_wf(c@),
                forall|i: int| 0 <= i < k ==> (#[trigger] c@[i])@ == shifted(self@)[i],
            decreases 128 - k,
        {
            let x = if k > 0 {
                self.c[k - 1]
            } else {
                F162::zero()
            };
            let y = if k == 0 || k == 1 || k == 2 || k == 7 {
                top
            } else {
                F162::zero()
            };
            c.push(x + y);
            k += 1;
        }
        let r = Tensor { c };
        assert(r@ =~= shifted(self@));
        r
    }

    /// Multiplication by `h` in the `B128` factor.
    fn scale_horizontal(&self, h: B128) -> (r: Tensor)
        requires
            self.wf(),
        ensures
            r.wf(),
            r@ == scaled(self@, h@, 0),
    {
        let mut acc = Tensor::zero();
        let mut k: usize = 128;
        while k > 0
            invariant
                k <= 128,
                self.wf(),
                acc.wf(),
                acc@ == scaled(self@, h@, k as nat),
            decreases k,
        {
            k -= 1;
            acc = acc.shift_x();
            let ghost s = acc@;
            if h.bit(k) {
                acc = acc.plus(self);
            }
            proof {
                let f = scalar::f162();
                assert forall|i: int| 0 <= i < 128 implies acc@[i] == scaled(
                    self@,
                    h@,
                    k as nat,
                )[i] by {
                    f.sum_zero(s[i]);
                }
                assert(acc@ =~= scaled(self@, h@, k as nat));
            }
        }
        acc
    }

    fn plus(&self, o: &Tensor) -> (r: Tensor)
        requires
            self.wf(),
            o.wf(),
        ensures
            r.wf(),
            r@ == Seq::new(128, |k: int| scalar::f162().sum(self@[k], o@[k])),
    {
        let mut c: Vec<F162> = Vec::with_capacity(128);
        let mut k: usize = 0;
        while k < 128
            invariant
                k <= 128,
                self.wf(),
                o.wf(),
                c@.len() == k,
                linear::all_wf(c@),
                forall|i: int|
                    0 <= i < k ==> (#[trigger] c@[i])@ == scalar::f162().sum(self@[i], o@[i]),
            decreases 128 - k,
        {
            c.push(self.c[k] + o.c[k]);
            k += 1;
        }
        let r = Tensor { c };
        assert(r@ =~= Seq::new(128, |k: int| scalar::f162().sum(self@[k], o@[k])));
        r
    }

    /// `sum_k c_k batch_k`.
    fn fold_vertical(&self, batch: &[F162]) -> (r: F162)
        requires
            self.wf(),
            linear::all_wf(batch@),
        ensures
            r.wf(),
            r@ == scalar::f162().dot_to(
                self@,
                linear::views(batch@),
                (if batch@.len() < 128 {
                    batch@.len()
                } else {
                    128
                }),
            ),
    {
        let n: usize = if batch.len() < 128 {
            batch.len()
        } else {
            128
        };
        let mut acc = F162::zero();
        let mut k: usize = 0;
        while k < n
            invariant
                k <= n <= 128,
                n <= batch@.len(),
                self.wf(),
                linear::all_wf(batch@),
                acc.wf(),
                acc@ == scalar::f162().dot_to(self@, linear::views(batch@), k as nat),
            decreases n - k,
        {
            acc = acc + self.c[k] * batch[k];
            k += 1;
        }
        acc
    }
}

proof fn lemma_tensor_step(
    e: Seq<Seq<bool>>,
    x: Seq<Seq<bool>>,
    h: Seq<bool>,
    v: Seq<bool>,
    n: nat,
    k: int,
)
    requires
        scalar::f162().elems(x),
        scalar::ghash().elems(e),
        scalar::f162().elem(v),
        scalar::ghash().elem(h),
        e.len() == n,
        x.len() == n,
        0 <= k < 128,
    ensures
        ({
            let f = scalar::f162();
            let t = tensor(e, x, n);
            f.slice(scalar::ghash().eq_step(e, h), f.eq_step(x, v), k, 2 * n) == f.sum(
                f.sum(t[k], f.mul(t[k], v)),
                scaled(t, h, 0)[k],
            )
        }),
{
    let (f, g) = (scalar::f162(), scalar::ghash());
    let (e1, x1) = (g.eq_step(e, h), f.eq_step(x, v));
    let all = |j: int| f.scale(e1[j][k], x1[j]);
    let pair = |j: int| f.sum(all(2 * j), all(2 * j + 1));
    let a = |j: int| f.scale(e[j][k], x[j]);
    let va = |j: int| f.mul(v, a(j));
    let u = Seq::new(n, |j: int| g.horner(e[j], h, 0));
    let b = |j: int| f.scale(u[j][k], x[j]);
    let low = |j: int| f.sum(a(j), va(j));
    let sum3 = |j: int| f.sum(low(j), b(j));
    f.total_pairs(all, n);
    assert forall|j: int| 0 <= j < n implies #[trigger] pair(j) == sum3(j) by {
        let (ej, xj) = (e[j], x[j]);
        let (eh, xv) = (g.mul(ej, h), f.mul(xj, v));
        g.horner_mul(ej, h);
        assert(u[j] == eh);
        assert((2 * j) / 2 == j && (2 * j) % 2 == 0 && (2 * j + 1) / 2 == j && (2 * j + 1) % 2
            == 1);
        assert(e1[2 * j] == g.sum(ej, eh) && e1[2 * j + 1] == eh);
        assert(x1[2 * j] == f.sum(xj, xv) && x1[2 * j + 1] == xv);
        f.scale_mul(ej[k], xj, v);
        f.mul_comm(v, a(j));
        f.mul_elem(xj, v);
        assert(va(j) == f.scale(ej[k], xv));
        assert(pair(j) =~= sum3(j));
    }
    f.total_ext(pair, sum3, n);
    f.total_sum(low, b, n);
    f.total_sum(a, va, n);
    f.total_mul(v, a, n);
    f.total_elem(a, n);
    f.mul_comm(v, f.total(a, n));
    lemma_scaled(e, x, h, n, 0);
}

proof fn lemma_fold(
    e: Seq<Seq<bool>>,
    x: Seq<Seq<bool>>,
    batch: Seq<Seq<bool>>,
    n: nat,
    m: nat,
)
    requires
        scalar::f162().elems(x),
        scalar::f162().elems(batch),
        n <= x.len(),
        m <= 128,
        m <= batch.len(),
    ensures
        ({
            let f = scalar::f162();
            f.dot_to(tensor(e, x, n), batch, m) == f.total(
                |j: int| f.mul(x[j], f.pick(e[j], batch, m)),
                n,
            )
        }),
{
    let f = scalar::f162();
    let t = tensor(e, x, n);
    let cell = |k: int, j: int| f.scale(e[j][k], f.mul(x[j], batch[k]));
    let left = |k: int| f.mul(t[k], batch[k]);
    let rows = |k: int| f.total(|j: int| cell(k, j), n);
    assert forall|k: int| 0 <= k < m implies #[trigger] left(k) == rows(k) by {
        let a = |j: int| f.scale(e[j][k], x[j]);
        let ba = |j: int| f.mul(batch[k], a(j));
        f.total_elem(a, n);
        f.mul_comm(f.total(a, n), batch[k]);
        f.total_mul(batch[k], a, n);
        assert forall|j: int| 0 <= j < n implies #[trigger] ba(j) == cell(k, j) by {
            assert(f.elem(x[j]));
            f.mul_comm(batch[k], a(j));
            f.scale_mul(e[j][k], x[j], batch[k]);
        }
        f.total_ext(ba, |j: int| cell(k, j), n);
    }
    f.total_ext(left, rows, m);
    f.total_exchange(cell, m, n);
    let cols = |j: int| f.total(|k: int| cell(k, j), m);
    let right = |j: int| f.mul(x[j], f.pick(e[j], batch, m));
    assert forall|j: int| 0 <= j < n implies #[trigger] cols(j) == right(j) by {
        let p = |k: int| f.scale(e[j][k], batch[k]);
        let xp = |k: int| f.mul(x[j], p(k));
        assert(f.elem(x[j]));
        f.total_mul(x[j], p, m);
        assert forall|k: int| 0 <= k < m implies #[trigger] xp(k) == cell(k, j) by {
            f.scale_mul(e[j][k], x[j], batch[k]);
        }
        f.total_ext(xp, |k: int| cell(k, j), m);
    }
    f.total_ext(cols, right, n);
}

/// The weight of the opened value in the switch: `sum_j eq(r_pp, j) psi(eq(r_hi, j))`, where
/// `psi(x) = sum_k x_k batch_k` over the bits `x_k` of a word.
pub open spec fn transparent(
    r_hi: Seq<Seq<bool>>,
    r_pp: Seq<Seq<bool>>,
    batch: Seq<Seq<bool>>,
) -> Seq<bool> {
    let f = scalar::f162();
    let (e, x) = (scalar::ghash().eq(r_hi), f.eq(r_pp));
    f.total(
        |j: int|
            f.mul(
                x[j],
                f.pick(
                    e[j],
                    batch,
                    if batch.len() < 128 {
                        batch.len()
                    } else {
                        128
                    },
                ),
            ),
        pow2(r_pp.len()),
    )
}

pub fn transparent_coeff(r_hi: &[B128], r_pp: &[F162], batch: &[F162]) -> (d: F162)
    requires
        r_hi@.len() == r_pp@.len(),
        linear::all_wf(r_pp@),
        linear::all_wf(batch@),
    ensures
        d.wf(),
        d@ == transparent(linear::words(r_hi@), linear::views(r_pp@), linear::views(batch@)),
{
    let mut t = Tensor::from_vertical(F162::one());
    let mut i: usize = 0;
    let ghost (f, g) = (scalar::f162(), scalar::ghash());
    let ghost (rh, rp) = (linear::words(r_hi@), linear::views(r_pp@));
    proof {
        lemma2_to64();
        assert(rh.take(0) =~= Seq::<Seq<bool>>::empty());
        assert(rp.take(0) =~= Seq::<Seq<bool>>::empty());
    }
    while i < r_pp.len()
        invariant
            i <= r_pp@.len() == r_hi@.len(),
            linear::all_wf(r_pp@),
            f == scalar::f162(),
            g == scalar::ghash(),
            rh == linear::words(r_hi@),
            rp == linear::views(r_pp@),
            t.wf(),
            t@ == tensor(g.eq(rh.take(i as int)), f.eq(rp.take(i as int)), pow2(i as nat)),
        decreases r_pp@.len() - i,
    {
        let v = r_pp[i];
        let h = r_hi[i];
        let ghost t0 = t@;
        let vs = t.scale_vertical(v);
        let hs = t.scale_horizontal(h);
        t = t.plus(&vs).plus(&hs);
        proof {
            let (h0, p0) = (rh.take(i as int), rp.take(i as int));
            let (h1, p1) = (rh.take(i + 1), rp.take(i + 1));
            assert(h1.drop_last() =~= h0 && h1.last() == h@);
            assert(p1.drop_last() =~= p0 && p1.last() == v@);
            g.eq_shape(h0);
            f.eq_shape(p0);
            lemma_pow2_unfold((i + 1) as nat);
            let n = pow2(i as nat);
            assert forall|k: int| 0 <= k < 128 implies t@[k] == tensor(
                g.eq(h1),
                f.eq(p1),
                2 * n,
            )[k] by {
                lemma_tensor_step(g.eq(h0), f.eq(p0), h@, v@, n, k);
            }
            assert(t@ =~= tensor(g.eq(h1), f.eq(p1), 2 * n));
        }
        i += 1;
    }
    proof {
        assert(rh.take(rh.len() as int) =~= rh);
        assert(rp.take(rp.len() as int) =~= rp);
        f.eq_shape(rp);
        let b = linear::views(batch@);
        let m = if b.len() < 128 {
            b.len()
        } else {
            128
        };
        lemma_fold(g.eq(rh), f.eq(rp), b, pow2(rp.len()), m);
    }
    t.fold_vertical(batch)
}

// ---------------------------------------------------------------------------------------------
// the byte tables
// ---------------------------------------------------------------------------------------------

/// `sum_{b < n} bit_b(m) batch_{8 chunk + b}`.
pub open spec fn chunk_sum(batch: Seq<F162>, chunk: int, m: int, n: nat) -> Seq<bool> {
    let f = scalar::f162();
    f.total(
        |b: int| f.scale(scalar::bit128(m as u128, b), batch[8 * chunk + b]@),
        n,
    )
}

proof fn lemma_index_bits(m: u128, n: u128, b: u128, i: u128)
    requires
        b < 8,
        n == 1u128 << b,
        m < n,
        i <= b,
    ensures
        scalar::bit128((n + m) as u128, i as int) == (i == b || scalar::bit128(m, i as int)),
{
    assert((((n + m) as u128) >> i) & 1 == 1 <==> (i == b || (m >> i) & 1 == 1)) by (bit_vector)
        requires
            b < 8,
            n == 1u128 << b,
            m < n,
            i <= b,
    ;
}

/// One table: entry `m` is the sum of the `batch_{8 chunk + b}` over the bits `b` of `m`.
fn chunk_table(batch: &[F162], chunk: usize) -> (t: Vec<F162>)
    requires
        chunk < 16,
        batch@.len() >= 128,
        linear::all_wf(batch@),
    ensures
        t@.len() == 256,
        linear::all_wf(t@),
        forall|m: int|
            0 <= m < 256 ==> (#[trigger] t@[m])@ == chunk_sum(batch@, chunk as int, m, 8),
{
    let mut t: Vec<F162> = Vec::with_capacity(256);
    t.push(F162::zero());
    let mut b: usize = 0;
    let ghost mut n: u128 = 1;
    proof {
        assert(1u128 << 0u128 == 1u128) by (bit_vector);
    }
    while b < 8
        invariant
            b <= 8,
            chunk < 16,
            batch@.len() >= 128,
            linear::all_wf(batch@),
            linear::all_wf(t@),
            n == 1u128 << (b as u128),
            n <= 256,
            t@.len() == n,
            forall|m: int|
                0 <= m < n ==> (#[trigger] t@[m])@ == chunk_sum(
                    batch@,
                    chunk as int,
                    m,
                    b as nat,
                ),
            b == 8 ==> n == 256,
        decreases 8 - b,
    {
        let len: usize = t.len();
        let x = batch[8 * chunk + b];
        let ghost bb = b as u128;
        proof {
            assert(n <= 128 && 1u128 << ((bb + 1) as u128) == 2 * n && (bb == 7 ==> n == 128)) by (bit_vector)
                requires
                    bb < 8,
                    n == 1u128 << bb,
            ;
        }
        let mut m: usize = 0;
        while m < len
            invariant
                m <= len == n <= 128,
                b < 8,
                chunk < 16,
                bb == b,
                n == 1u128 << bb,
                batch@.len() >= 128,
                linear::all_wf(batch@),
                linear::all_wf(t@),
                x == batch@[8 * chunk + b],
                t@.len() == n + m,
                forall|i: int|
                    0 <= i < n ==> (#[trigger] t@[i])@ == chunk_sum(
                        batch@,
                        chunk as int,
                        i,
                        b as nat,
                    ),
                forall|i: int|
                    n <= i < n + m ==> (#[trigger] t@[i])@ == chunk_sum(
                        batch@,
                        chunk as int,
                        i,
                        (b + 1) as nat,
                    ),
            decreases len - m,
        {
            let y = t[m] + x;
            proof {
                let f = scalar::f162();
                let c = chunk as int;
                let lo = |i: int| f.scale(scalar::bit128(m as u128, i), batch@[8 * c + i]@);
                let up = |i: int|
                    f.scale(scalar::bit128((n + m) as u128, i), batch@[8 * c + i]@);
                assert forall|i: int| 0 <= i < b implies #[trigger] up(i) == lo(i) by {
                    lemma_index_bits(m as u128, n, bb, i as u128);
                }
                f.total_ext(up, lo, b as nat);
                lemma_index_bits(m as u128, n, bb, bb);
                assert(chunk_sum(batch@, c, n + m, (b + 1) as nat) == f.sum(
                    f.total(up, b as nat),
                    up(b as int),
                ));
                assert(t@[m as int]@ == f.total(lo, b as nat));
                assert(y@ == chunk_sum(batch@, c, n + m, (b + 1) as nat));
            }
            t.push(y);
            m += 1;
        }
        proof {
            let f = scalar::f162();
            let c = chunk as int;
            assert forall|i: int| 0 <= i < 2 * n implies (#[trigger] t@[i])@ == chunk_sum(
                batch@,
                c,
                i,
                (b + 1) as nat,
            ) by {
                if i < n {
                    let mm = i as u128;
                    assert((mm >> bb) & 1 == 0) by (bit_vector)
                        requires
                            bb < 8,
                            n == 1u128 << bb,
                            mm < n,
                    ;
                    f.total_elem(
                        |k: int| f.scale(scalar::bit128(i as u128, k), batch@[8 * c + k]@),
                        b as nat,
                    );
                    f.sum_zero(chunk_sum(batch@, c, i, b as nat));
                }
            }
            n = (2 * n) as u128;
        }
        b += 1;
    }
    t
}

/// The sixteen byte tables of `psi`: entry `m` of table `c` is `sum_b bit_b(m) batch_{8 c + b}`.
pub fn psi_table(batch: &[F162]) -> (tab: Vec<Vec<F162>>)
    requires
        batch@.len() >= 128,
        linear::all_wf(batch@),
    ensures
        is_psi_table(tab@, batch@),
{
    let mut tab: Vec<Vec<F162>> = Vec::with_capacity(16);
    let mut c: usize = 0;
    while c < 16
        invariant
            c <= 16,
            batch@.len() >= 128,
            linear::all_wf(batch@),
            tab@.len() == c,
            forall|i: int|
                0 <= i < c ==> (#[trigger] tab@[i])@.len() == 256 && linear::all_wf(tab@[i]@),
            forall|i: int, m: int|
                0 <= i < c && 0 <= m < 256 ==> (#[trigger] tab@[i]@[m])@ == chunk_sum(
                    batch@,
                    i,
                    m,
                    8,
                ),
        decreases 16 - c,
    {
        tab.push(chunk_table(batch, c));
        c += 1;
    }
    tab
}

/// The tables hold the byte sums of `batch`.
pub open spec fn is_psi_table(tab: Seq<Vec<F162>>, batch: Seq<F162>) -> bool {
    &&& tab.len() == 16
    &&& forall|i: int| 0 <= i < 16 ==> (#[trigger] tab[i])@.len() == 256 && linear::all_wf(tab[i]@)
    &&& forall|i: int, m: int|
        0 <= i < 16 && 0 <= m < 256 ==> (#[trigger] tab[i]@[m])@ == chunk_sum(batch, i, m, 8)
}

/// Byte `c` of `x`.
pub open spec fn byte_of(x: u128, c: int) -> int {
    ((x >> ((8 * c) as u128)) & 0xff) as int
}

/// `sum_c tab_c[byte c of x]`.
pub fn psi(tab: &[Vec<F162>], x: B128) -> (r: F162)
    requires
        tab@.len() <= 16,
        forall|c: int|
            0 <= c < tab@.len() ==> byte_of(x.0, c) < (#[trigger] tab@[c])@.len()
                && linear::all_wf(tab@[c]@),
    ensures
        r.wf(),
        r@ == scalar::f162().total(|c: int| tab@[c]@[byte_of(x.0, c)]@, tab@.len()),
{
    let mut acc = F162::zero();
    let mut c: usize = 0;
    while c < tab.len()
        invariant
            c <= tab@.len() <= 16,
            forall|c: int|
                0 <= c < tab@.len() ==> byte_of(x.0, c) < (#[trigger] tab@[c])@.len()
                    && linear::all_wf(tab@[c]@),
            acc.wf(),
            acc@ == scalar::f162().total(|c: int| tab@[c]@[byte_of(x.0, c)]@, c as nat),
        decreases tab@.len() - c,
    {
        let s: u128 = (8 * c) as u128;
        let w: u128 = x.0;
        proof {
            assert((w >> s) & 0xff <= 0xff) by (bit_vector);
            assert(byte_of(x.0, c as int) < tab@[c as int]@.len());
        }
        let m: usize = ((w >> s) & 0xff) as usize;
        acc = acc + tab[c][m];
        c += 1;
    }
    acc
}

/// Through the tables of a batch, `psi` is `sum_k x_k batch_k` over the bits of the word.
pub proof fn lemma_psi(tab: Seq<Vec<F162>>, batch: Seq<F162>, x: B128)
    requires
        batch.len() >= 128,
        is_psi_table(tab, batch),
    ensures
        forall|c: int|
            0 <= c < 16 ==> byte_of(x.0, c) < (#[trigger] tab[c])@.len() && linear::all_wf(
                tab[c]@,
            ),
        scalar::f162().total(|c: int| tab[c]@[byte_of(x.0, c)]@, 16) == scalar::f162().pick(
            x@,
            linear::views(batch),
            128,
        ),
{
    let f = scalar::f162();
    let w = x.0;
    assert forall|c: int| 0 <= c < 16 implies 0 <= #[trigger] byte_of(w, c) < 256 by {
        let s = (8 * c) as u128;
        assert((w >> s) & 0xff <= 0xff) by (bit_vector);
    }
    assert forall|c: int| 0 <= c < 16 implies byte_of(w, c) < (#[trigger] tab[c])@.len()
        && linear::all_wf(tab[c]@) by {
        assert(0 <= byte_of(w, c) < 256);
    }
    lemma_psi_to(tab, batch, x, 16);
}

proof fn lemma_psi_to(tab: Seq<Vec<F162>>, batch: Seq<F162>, x: B128, c: nat)
    requires
        batch.len() >= 128,
        is_psi_table(tab, batch),
        c <= 16,
    ensures
        scalar::f162().total(|c: int| tab[c]@[byte_of(x.0, c)]@, c) == scalar::f162().pick(
            x@,
            linear::views(batch),
            8 * c,
        ),
    decreases c,
{
    let f = scalar::f162();
    let w = x.0;
    if c > 0 {
        let d = (c - 1) as nat;
        lemma_psi_to(tab, batch, x, d);
        let s = (8 * d) as u128;
        let m = (w >> s) & 0xff;
        assert(m <= 0xff) by (bit_vector)
            requires
                m == (w >> s) & 0xff,
        ;
        let bits = |k: int| f.scale(x@[k], linear::views(batch)[k]);
        f.total_split(bits, 8 * d, 8);
        let high = |b: int| bits(8 * d + b);
        let entry = |b: int| f.scale(scalar::bit128(m, b), batch[8 * d + b]@);
        assert forall|b: int| 0 <= b < 8 implies #[trigger] high(b) == entry(b) by {
            let bb = b as u128;
            let k = (8 * d + b) as u128;
            assert((m >> bb) & 1 == (w >> k) & 1) by (bit_vector)
                requires
                    m == (w >> s) & 0xff,
                    bb < 8,
                    s <= 120,
                    k == s + bb,
            ;
            assert(x@[8 * d + b] == scalar::bit128(w, 8 * d + b));
        }
        f.total_ext(high, entry, 8);
        assert(tab[d as int]@[m as int]@ == chunk_sum(batch, d as int, m as int, 8));
        assert(byte_of(w, d as int) == m);
        assert(chunk_sum(batch, d as int, m as int, 8) == f.total(entry, 8)) by {
            f.total_ext(
                |b: int| f.scale(scalar::bit128(m as int as u128, b), batch[8 * d as int + b]@),
                entry,
                8,
            );
        }
    }
}

// ---------------------------------------------------------------------------------------------
// the partial evaluations
// ---------------------------------------------------------------------------------------------

/// `v_k = sum_j bit_k(trace_j) e_j` for the 128 bit positions `k`.
pub open spec fn partials(trace: Seq<Seq<bool>>, e: Seq<Seq<bool>>) -> Seq<Seq<bool>> {
    Seq::new(128, |k: int| scalar::ghash().slice(trace, e, k, trace.len()))
}

/// `v[k] = sum_j bit_k(pi0[j]) eq_hi[j]`.
pub fn partial_evals(pi0: &[B128], eq_hi: &[B128]) -> (v: Vec<B128>)
    requires
        pi0@.len() == eq_hi@.len(),
    ensures
        linear::words(v@) == partials(linear::words(pi0@), linear::words(eq_hi@)),
{
    let z = B128::zero();
    let mut v: Vec<B128> = vec![z; 128];
    let ghost (p, e) = (linear::words(pi0@), linear::words(eq_hi@));
    let ghost g = scalar::ghash();
    let mut j: usize = 0;
    while j < pi0.len()
        invariant
            j <= pi0@.len() == eq_hi@.len(),
            p == linear::words(pi0@),
            e == linear::words(eq_hi@),
            g == scalar::ghash(),
            v@.len() == 128,
            forall|k: int| 0 <= k < 128 ==> (#[trigger] v@[k])@ == g.slice(p, e, k, j as nat),
        decreases pi0@.len() - j,
    {
        let mut k: usize = 0;
        let (w, x) = (pi0[j], eq_hi[j]);
        while k < 128
            invariant
                k <= 128,
                j < pi0@.len() == eq_hi@.len(),
                p == linear::words(pi0@),
                e == linear::words(eq_hi@),
                g == scalar::ghash(),
                w@ == p[j as int],
                x@ == e[j as int],
                v@.len() == 128,
                forall|i: int|
                    0 <= i < 128 ==> (#[trigger] v@[i])@ == g.slice(
                        p,
                        e,
                        i,
                        (if i < k {
                            j + 1
                        } else {
                            j as int
                        }) as nat,
                    ),
            decreases 128 - k,
        {
            proof {
                g.sum_zero(v@[k as int]@);
            }
            if w.bit(k) {
                let y = v[k] + x;
                v.set(k, y);
            }
            k += 1;
        }
        j += 1;
    }
    assert(linear::words(v@) =~= partials(p, e));
    v
}

/// `pi0` in the layout of the sumcheck: the bits of a word are the low coefficients of an `F162`.
pub fn poly_from_b128(pi0: &[B128]) -> (r: Poly)
    ensures
        r.wf(),
        r.n == pi0@.len(),
        r@ == lifted(linear::words(pi0@)),
{
    let n: usize = pi0.len();
    let mut r = Poly::zero(n);
    let mut j: usize = 0;
    while j < n
        invariant
            j <= n == pi0@.len(),
            r.wf(),
            r.n == n,
            forall|i: int| 0 <= i < j ==> (#[trigger] r@[i]) == scalar::lift(pi0@[i]@),
        decreases n - j,
    {
        r.set(j, F162::from_b128(pi0[j]));
        j += 1;
    }
    assert(r@ =~= lifted(linear::words(pi0@)));
    r
}

/// Each word as an element of `F162`.
pub open spec fn lifted(trace: Seq<Seq<bool>>) -> Seq<Seq<bool>> {
    Seq::new(trace.len(), |j: int| scalar::lift(trace[j]))
}

/// `sum_{i < n} psi_i(eqs_i[j])`, `psi_i(x) = sum_k x_k batches_i[k]`.
pub open spec fn psi_sum(eqs: Seq<&[B128]>, batches: Seq<Vec<F162>>, j: int, n: nat) -> Seq<bool> {
    let f = scalar::f162();
    f.total(|i: int| f.pick(eqs[i]@[j]@, linear::views(batches[i]@), 128), n)
}

/// `a[j] = sum_i sum_k bit_k(eqs[i][j]) batches[i][k]`.
pub fn poly_from_eq(eqs: &[&[B128]], batches: &[Vec<F162>]) -> (r: Poly)
    requires
        eqs@.len() >= 1,
        forall|i: int| 0 <= i < eqs@.len() ==> (#[trigger] eqs@[i])@.len() == eqs@[0]@.len(),
        forall|i: int|
            0 <= i < batches@.len() ==> (#[trigger] batches@[i])@.len() >= 128 && linear::all_wf(
                batches@[i]@,
            ),
    ensures
        r.wf(),
        r.n == eqs@[0]@.len(),
        forall|j: int|
            0 <= j < r.n ==> (#[trigger] r@[j]) == psi_sum(
                eqs@,
                batches@,
                j,
                (if eqs@.len() < batches@.len() {
                    eqs@.len()
                } else {
                    batches@.len()
                }),
            ),
{
    let n: usize = eqs[0].len();
    let m: usize = if eqs.len() < batches.len() {
        eqs.len()
    } else {
        batches.len()
    };
    let mut r = Poly::zero(n);
    let mut tabs: Vec<Vec<Vec<F162>>> = Vec::new();
    let mut i: usize = 0;
    while i < m
        invariant
            i <= m <= batches@.len(),
            forall|i: int|
                0 <= i < batches@.len() ==> (#[trigger] batches@[i])@.len() >= 128
                    && linear::all_wf(batches@[i]@),
            tabs@.len() == i,
            forall|k: int|
                0 <= k < i ==> is_psi_table((#[trigger] tabs@[k])@, batches@[k]@),
        decreases m - i,
    {
        tabs.push(psi_table(batches[i].as_slice()));
        i += 1;
    }
    let mut j: usize = 0;
    while j < n
        invariant
            j <= n,
            n == eqs@[0]@.len(),
            m <= eqs@.len(),
            m <= batches@.len(),
            m == tabs@.len(),
            eqs@.len() >= 1,
            forall|i: int| 0 <= i < eqs@.len() ==> (#[trigger] eqs@[i])@.len() == eqs@[0]@.len(),
            forall|i: int|
                0 <= i < batches@.len() ==> (#[trigger] batches@[i])@.len() >= 128
                    && linear::all_wf(batches@[i]@),
            forall|k: int|
                0 <= k < m ==> is_psi_table((#[trigger] tabs@[k])@, batches@[k]@),
            r.wf(),
            r.n == n,
            forall|k: int| 0 <= k < j ==> (#[trigger] r@[k]) == psi_sum(eqs@, batches@, k, m as nat),
        decreases n - j,
    {
        let mut x = F162::zero();
        let mut i: usize = 0;
        while i < m
            invariant
                i <= m,
                j < n,
                n == eqs@[0]@.len(),
                m <= eqs@.len(),
                m <= batches@.len(),
                m == tabs@.len(),
                forall|i: int|
                    0 <= i < eqs@.len() ==> (#[trigger] eqs@[i])@.len() == eqs@[0]@.len(),
                forall|i: int|
                    0 <= i < batches@.len() ==> (#[trigger] batches@[i])@.len() >= 128
                        && linear::all_wf(batches@[i]@),
                forall|k: int|
                    0 <= k < m ==> is_psi_table((#[trigger] tabs@[k])@, batches@[k]@),
                x.wf(),
                x@ == psi_sum(eqs@, batches@, j as int, i as nat),
            decreases m - i,
        {
            assert(eqs@[i as int]@.len() == n);
            let w = eqs[i][j];
            proof {
                assert(is_psi_table(tabs@[i as int]@, batches@[i as int]@));
                lemma_psi(tabs@[i as int]@, batches@[i as int]@, w);
            }
            x = x + psi(tabs[i].as_slice(), w);
            i += 1;
        }
        r.set(j, x);
        j += 1;
    }
    r
}

// ---------------------------------------------------------------------------------------------
// the sum of the slices
// ---------------------------------------------------------------------------------------------

/// Bit `k` of every entry of `v`, as the bits of a word.
pub open spec fn column(v: Seq<Seq<bool>>, k: int) -> Seq<bool> {
    Seq::new(128, |i: int| i < v.len() && v[i][k])
}

/// `sum_k lift(u_k) batch_k`, where bit `i` of `u_k` is bit `k` of `v_i`.
pub open spec fn sliced(v: Seq<Seq<bool>>, batch: Seq<Seq<bool>>) -> Seq<bool> {
    let f = scalar::f162();
    f.total(|k: int| f.mul(scalar::lift(column(v, k)), batch[k]), 128)
}

/// Bit `k` of every entry of `v`, as a word.
fn transpose_bit(v: &[B128], k: usize) -> (u: B128)
    requires
        v@.len() <= 128,
        k < 128,
    ensures
        u@ == column(linear::words(v@), k as int),
{
    let mut u: u128 = 0;
    let mut i: usize = 0;
    proof {
        scalar::lemma_zero_bits();
    }
    while i < v.len()
        invariant
            i <= v@.len() <= 128,
            k < 128,
            forall|b: int|
                0 <= b < 128 ==> #[trigger] scalar::bit128(u, b) == (b < i && v@[b]@[k as int]),
        decreases v@.len() - i,
    {
        if v[i].bit(k) {
            let ghost u0 = u;
            let s: u128 = i as u128;
            u = u | (1u128 << s);
            proof {
                assert forall|b: int| 0 <= b < 128 implies #[trigger] scalar::bit128(u, b) == (
                scalar::bit128(u0, b) || b == i) by {
                    let c = b as u128;
                    assert(((u0 | (1u128 << s)) >> c) & 1 == 1 <==> ((u0 >> c) & 1 == 1 || c == s)) by (bit_vector)
                        requires
                            s < 128,
                            c < 128,
                    ;
                }
            }
        }
        i += 1;
    }
    let r = B128(u);
    assert forall|b: int| 0 <= b < 128 implies r@[b] == column(linear::words(v@), k as int)[b] by {
        assert(r@[b] == scalar::bit128(u, b));
    }
    assert(r@ =~= column(linear::words(v@), k as int));
    r
}

pub fn slice_sum(v: &[B128], batch: &[F162]) -> (s: F162)
    requires
        v@.len() <= 128,
        batch@.len() >= 128,
        linear::all_wf(batch@),
    ensures
        s.wf(),
        s@ == sliced(linear::words(v@), linear::views(batch@)),
{
    let mut s = F162::zero();
    let mut k: usize = 0;
    let ghost f = scalar::f162();
    let ghost (vv, bb) = (linear::words(v@), linear::views(batch@));
    while k < 128
        invariant
            k <= 128,
            v@.len() <= 128,
            batch@.len() >= 128,
            linear::all_wf(batch@),
            f == scalar::f162(),
            vv == linear::words(v@),
            bb == linear::views(batch@),
            s.wf(),
            s@ == f.total(|k: int| f.mul(scalar::lift(column(vv, k)), bb[k]), k as nat),
        decreases 128 - k,
    {
        s = s + F162::from_b128(transpose_bit(v, k)) * batch[k];
        k += 1;
    }
    s
}

/// The value at `r_pp` of the multilinear extension of the lifted words.
pub fn eval_pi1(pi0: &[B128], r_pp: &[F162]) -> (r: F162)
    requires
        linear::all_wf(r_pp@),
        pow2(r_pp@.len()) <= usize::MAX,
    ensures
        r.wf(),
        r@ == scalar::f162().dot_to(
            lifted(linear::words(pi0@)),
            scalar::f162().eq(linear::views(r_pp@)),
            if pi0@.len() < pow2(r_pp@.len()) {
                pi0@.len()
            } else {
                pow2(r_pp@.len())
            },
        ),
{
    let eq = eq_expand_f162(r_pp);
    let n: usize = if pi0.len() < eq.len() {
        pi0.len()
    } else {
        eq.len()
    };
    let mut a = F162::zero();
    let mut j: usize = 0;
    let ghost (p, e) = (lifted(linear::words(pi0@)), linear::views(eq@));
    while j < n
        invariant
            j <= n <= pi0@.len(),
            n <= eq@.len(),
            linear::all_wf(eq@),
            p == lifted(linear::words(pi0@)),
            e == linear::views(eq@),
            a.wf(),
            a@ == scalar::f162().dot_to(p, e, j as nat),
        decreases n - j,
    {
        a = a + F162::from_b128(pi0[j]) * eq[j];
        j += 1;
    }
    a
}

// ---------------------------------------------------------------------------------------------
// laws of the partial evaluations
// ---------------------------------------------------------------------------------------------

/// The value of a word at the weights of a bit-level point: `sum_k bit_k(x) w_k`, `w` being
/// `eq(r_lo, .)`.
pub open spec fn bit_claim(
    trace: Seq<Seq<bool>>,
    w: Seq<Seq<bool>>,
    e: Seq<Seq<bool>>,
    n: nat,
) -> Seq<bool> {
    let g = scalar::ghash();
    g.total(|j: int| g.mul(g.pick(trace[j], w, 128), e[j]), n)
}

/// The partial evaluations weighed by any `w`: `sum_k v_k w_k = sum_j (sum_k bit_k(trace_j) w_k)
/// e_j`.
pub proof fn partials_weighed(
    trace: Seq<Seq<bool>>,
    e: Seq<Seq<bool>>,
    w: Seq<Seq<bool>>,
)
    requires
        scalar::ghash().elems(trace),
        scalar::ghash().elems(e),
        scalar::ghash().elems(w),
        trace.len() <= e.len(),
        w.len() >= 128,
    ensures
        scalar::ghash().dot_to(partials(trace, e), w, 128) == bit_claim(trace, w, e, trace.len()),
{
    let g = scalar::ghash();
    let n = trace.len();
    let v = partials(trace, e);
    let cell = |k: int, j: int| g.scale(trace[j][k], g.mul(e[j], w[k]));
    let left = |k: int| g.mul(v[k], w[k]);
    let rows = |k: int| g.total(|j: int| cell(k, j), n);
    assert forall|k: int| 0 <= k < 128 implies #[trigger] left(k) == rows(k) by {
        let a = |j: int| g.scale(trace[j][k], e[j]);
        let wa = |j: int| g.mul(w[k], a(j));
        g.total_elem(a, n);
        g.mul_comm(g.total(a, n), w[k]);
        g.total_mul(w[k], a, n);
        assert forall|j: int| 0 <= j < n implies #[trigger] wa(j) == cell(k, j) by {
            assert(g.elem(e[j]));
            g.mul_comm(w[k], a(j));
            g.scale_mul(trace[j][k], e[j], w[k]);
        }
        g.total_ext(wa, |j: int| cell(k, j), n);
    }
    g.total_ext(left, rows, 128);
    g.total_exchange(cell, 128, n);
    let cols = |j: int| g.total(|k: int| cell(k, j), 128);
    let right = |j: int| g.mul(g.pick(trace[j], w, 128), e[j]);
    assert forall|j: int| 0 <= j < n implies #[trigger] cols(j) == right(j) by {
        let p = |k: int| g.scale(trace[j][k], w[k]);
        let ep = |k: int| g.mul(e[j], p(k));
        assert(g.elem(e[j]));
        g.total_mul(e[j], p, 128);
        g.total_elem(p, 128);
        g.mul_comm(e[j], g.total(p, 128));
        assert forall|k: int| 0 <= k < 128 implies #[trigger] ep(k) == cell(k, j) by {
            g.scale_mul(trace[j][k], e[j], w[k]);
        }
        g.total_ext(ep, |k: int| cell(k, j), 128);
    }
    g.total_ext(cols, right, n);
}

/// The basis `1, X, ..., X^127` of `B128`.
pub open spec fn basis() -> Seq<Seq<bool>> {
    Seq::new(128, |k: int| scalar::ghash().monomial(k))
}

/// A word is the sum of the basis elements at its bits.
pub proof fn lemma_basis(x: Seq<bool>, n: nat)
    requires
        scalar::ghash().elem(x),
        n <= 128,
    ensures
        scalar::ghash().pick(x, basis(), n) == scalar::ghash().low(x, n as int),
        n == 128 ==> scalar::ghash().pick(x, basis(), n) == x,
    decreases n,
{
    let g = scalar::ghash();
    if n == 0 {
        assert(g.low(x, 0) =~= g.zero());
    } else {
        let k = (n - 1) as nat;
        lemma_basis(x, k);
        assert(g.sum(g.low(x, k as int), g.scale(x[k as int], g.monomial(k as int))) =~= g.low(
            x,
            n as int,
        ));
    }
    if n == 128 {
        assert(g.low(x, 128) =~= x);
    }
}

/// The partial evaluations of a trace at `r`, weighed by the basis, give the multilinear
/// extension of its words.
pub proof fn partials_words(trace: Seq<Seq<bool>>, r: Seq<Seq<bool>>)
    requires
        scalar::ghash().elems(trace),
        scalar::ghash().elems(r),
        trace.len() == pow2(r.len()),
    ensures
        scalar::ghash().dot_to(partials(trace, scalar::ghash().eq(r)), basis(), 128)
            == scalar::ghash().mle(trace, r),
{
    let g = scalar::ghash();
    let e = g.eq(r);
    g.eq_shape(r);
    partials_weighed(trace, e, basis());
    let left = |j: int| g.mul(g.pick(trace[j], basis(), 128), e[j]);
    let right = |j: int| g.mul(trace[j], e[j]);
    assert forall|j: int| 0 <= j < trace.len() implies #[trigger] left(j) == right(j) by {
        lemma_basis(trace[j], 128);
    }
    g.total_ext(left, right, trace.len());
}

proof fn lemma_column(trace: Seq<Seq<bool>>, e: Seq<Seq<bool>>, v: Seq<Seq<bool>>, k: int, n: nat)
    requires
        n <= trace.len(),
        trace.len() <= e.len(),
        scalar::ghash().elems(trace),
        scalar::ghash().elems(e),
        0 <= k < 128,
        v.len() == 128,
        forall|i: int|
            0 <= i < 128 ==> #[trigger] v[i] == scalar::ghash().slice(trace, e, i, n),
    ensures
        scalar::lift(column(v, k)) == scalar::f162().slice(e, lifted(trace), k, n),
    decreases n,
{
    let (f, g) = (scalar::f162(), scalar::ghash());
    if n == 0 {
        assert(scalar::lift(column(v, k)) =~= f.zero());
    } else {
        let m = (n - 1) as nat;
        let j = n - 1;
        let u = Seq::new(128, |i: int| g.slice(trace, e, i, m));
        lemma_column(trace, e, u, k, m);
        let x = scalar::lift(trace[j]);
        assert(lifted(trace)[j] == x);
        assert(g.elem(e[j]));
        assert forall|i: int| 0 <= i < 128 implies v[i][k] == (u[i][k] != (trace[j][i] && e[j][k])) by {
            assert(v[i] == g.sum(u[i], g.scale(trace[j][i], e[j])));
        }
        assert(scalar::lift(column(v, k)) =~= f.sum(
            scalar::lift(column(u, k)),
            f.scale(e[j][k], x),
        ));
    }
}

/// The table `psi(e_j) = sum_k bit_k(e_j) batch_k`.
pub open spec fn psi_of(e: Seq<Seq<bool>>, batch: Seq<Seq<bool>>) -> Seq<Seq<bool>> {
    Seq::new(e.len(), |j: int| scalar::f162().pick(e[j], batch, 128))
}

/// The slices of the partial evaluations sum to what the sumcheck proves:
/// `sum_j psi(e_j) lift(trace_j)`.
pub proof fn partials_sliced(
    trace: Seq<Seq<bool>>,
    e: Seq<Seq<bool>>,
    batch: Seq<Seq<bool>>,
)
    requires
        scalar::ghash().elems(trace),
        scalar::ghash().elems(e),
        scalar::f162().elems(batch),
        trace.len() == e.len(),
        batch.len() >= 128,
    ensures
        sliced(partials(trace, e), batch) == scalar::f162().dot(psi_of(e, batch), lifted(trace)),
{
    let f = scalar::f162();
    let n = trace.len();
    let v = partials(trace, e);
    let x = lifted(trace);
    let t = tensor(e, x, n);
    let left = |k: int| f.mul(scalar::lift(column(v, k)), batch[k]);
    let mid = |k: int| f.mul(t[k], batch[k]);
    assert forall|k: int| 0 <= k < 128 implies #[trigger] left(k) == mid(k) by {
        lemma_column(trace, e, v, k, n);
    }
    f.total_ext(left, mid, 128);
    lemma_fold(e, x, batch, n, 128);
    let a = psi_of(e, batch);
    let right = |j: int| f.mul(x[j], f.pick(e[j], batch, 128));
    let want = |j: int| f.mul(a[j], x[j]);
    assert forall|j: int| 0 <= j < n implies #[trigger] right(j) == want(j) by {
        f.total_elem(|k: int| f.scale(e[j][k], batch[k]), 128);
        f.mul_comm(x[j], a[j]);
    }
    f.total_ext(right, want, n);
}

/// The weight of the opened value is the multilinear extension of `psi(eq(r_hi, .))` at `r_pp`.
pub proof fn transparent_mle(
    r_hi: Seq<Seq<bool>>,
    r_pp: Seq<Seq<bool>>,
    batch: Seq<Seq<bool>>,
)
    requires
        r_hi.len() == r_pp.len(),
        scalar::ghash().elems(r_hi),
        scalar::f162().elems(r_pp),
        scalar::f162().elems(batch),
        batch.len() >= 128,
    ensures
        transparent(r_hi, r_pp, batch) == scalar::f162().mle(
            psi_of(scalar::ghash().eq(r_hi), batch),
            r_pp,
        ),
{
    let f = scalar::f162();
    let (e, x) = (scalar::ghash().eq(r_hi), f.eq(r_pp));
    scalar::ghash().eq_shape(r_hi);
    f.eq_shape(r_pp);
    let a = psi_of(e, batch);
    let n = pow2(r_pp.len());
    let left = |j: int|
        f.mul(
            x[j],
            f.pick(
                e[j],
                batch,
                if batch.len() < 128 {
                    batch.len()
                } else {
                    128
                },
            ),
        );
    let right = |j: int| f.mul(a[j], x[j]);
    assert forall|j: int| 0 <= j < n implies #[trigger] left(j) == right(j) by {
        f.total_elem(|k: int| f.scale(e[j][k], batch[k]), 128);
        f.mul_comm(x[j], a[j]);
    }
    f.total_ext(left, right, n);
}

// ---------------------------------------------------------------------------------------------
// the switch
// ---------------------------------------------------------------------------------------------

pub struct SwitchProof {
    /// The 128 partial evaluations.
    pub v: Vec<B128>,
    /// The sumcheck messages.
    pub rounds: Vec<[F162; 2]>,
    /// The value of the lifted trace at the challenges.
    pub final_eval: F162,
}

/// The challenges of the switch, drawn beforehand.
pub struct Transcript {
    pub r_prime: Vec<F162>,
    pub r_pp: Vec<F162>,
}

/// Both coefficients of each message.
pub open spec fn pairs(ms: Seq<[F162; 2]>) -> Seq<(Seq<bool>, Seq<bool>)> {
    Seq::new(ms.len(), |k: int| (ms[k][0]@, ms[k][1]@))
}

/// Both coefficients of each message are well formed.
pub open spec fn pairs_wf(ms: Seq<[F162; 2]>) -> bool {
    forall|k: int| 0 <= k < ms.len() ==> (#[trigger] ms[k])[0].wf() && ms[k][1].wf()
}

/// The first `half` entries after a round are the folded table.
pub(crate) proof fn lemma_live(t: Seq<Seq<bool>>, next: Seq<Seq<bool>>, half: nat, r: Seq<bool>)
    requires
        2 * half <= t.len(),
        next == scalar::f162().fold(t.take(2 * half as int), r) + t.skip(half as int),
    ensures
        next.len() == t.len(),
        next.take(half as int) == scalar::f162().fold(t.take(2 * half as int), r),
{
    assert(next.take(half as int) =~= scalar::f162().fold(t.take(2 * half as int), r));
}

/// A message depends on the first `2 half` entries alone.
pub(crate) proof fn lemma_live_message(a: Seq<Seq<bool>>, p: Seq<Seq<bool>>, half: nat)
    requires
        2 * half <= a.len(),
        2 * half <= p.len(),
    ensures
        ({
            let f = scalar::f162();
            let (x, y) = (a.take(2 * half as int), p.take(2 * half as int));
            &&& f.at_zero(a, p, half) == f.at_zero(x, y, half)
            &&& f.at_inf(a, p, half) == f.at_inf(x, y, half)
        }),
{
    let f = scalar::f162();
    let (x, y) = (a.take(2 * half as int), p.take(2 * half as int));
    f.total_ext(|i: int| f.mul(a[i], p[i]), |i: int| f.mul(x[i], y[i]), half);
    f.total_ext(
        |j: int| f.mul(f.sum(a[j], a[j + half]), f.sum(p[j], p[j + half])),
        |j: int| f.mul(f.sum(x[j], x[j + half]), f.sum(y[j], y[j + half])),
        half,
    );
}

/// The proof for `pi0` at the point `r_hi` with the given challenges: its partial evaluations,
/// the messages of the sumcheck for `sum_j psi(eq(r_hi, j)) lift(pi0_j)`, and the value that
/// sumcheck ends on.
pub open spec fn is_proof(
    pf: SwitchProof,
    trace: Seq<Seq<bool>>,
    r_hi: Seq<Seq<bool>>,
    batch: Seq<Seq<bool>>,
    r_pp: Seq<Seq<bool>>,
) -> bool {
    let f = scalar::f162();
    let a = psi_of(scalar::ghash().eq(r_hi), batch);
    let p = lifted(trace);
    &&& linear::words(pf.v@) == partials(trace, scalar::ghash().eq(r_hi))
    &&& pf.rounds@.len() == r_hi.len()
    &&& pairs_wf(pf.rounds@)
    &&& forall|k: int|
        0 <= k < r_hi.len() ==> #[trigger] pairs(pf.rounds@)[k] == f.message(a, p, r_pp, k as nat)
    &&& pf.final_eval.wf()
    &&& pf.final_eval@ == f.mle(p, r_pp)
}

pub fn prove(pi0: &[B128], r_lo: &[B128], r_hi: &[B128], challenges: &Transcript) -> (r: SwitchProof)
    requires
        r_lo@.len() == LOG_PACK,
        pi0@.len() == pow2(r_hi@.len()),
        challenges.r_prime@.len() >= LOG_PACK,
        pow2(challenges.r_prime@.len()) <= usize::MAX,
        challenges.r_pp@.len() >= r_hi@.len(),
        linear::all_wf(challenges.r_prime@),
        linear::all_wf(challenges.r_pp@),
    ensures
        is_proof(
            r,
            linear::words(pi0@),
            linear::words(r_hi@),
            scalar::f162().eq(linear::views(challenges.r_prime@)),
            linear::views(challenges.r_pp@).take(r_hi@.len() as int),
        ),
{
    let l: usize = r_hi.len();
    let n: usize = pi0.len();
    assert(pow2(l as nat) == n);
    let eq_hi = eq_expand_b128(r_hi);
    let v = partial_evals(pi0, eq_hi.as_slice());
    let batch = eq_expand_f162(challenges.r_prime.as_slice());
    proof {
        lemma2_to64();
        if challenges.r_prime@.len() > 7 {
            lemma_pow2_strictly_increases(7, challenges.r_prime@.len());
        }
    }
    let mut prover = SwitchProver::new(pi0, eq_hi.as_slice(), batch.as_slice());
    let mut rounds: Vec<[F162; 2]> = Vec::with_capacity(l);
    let mut round: usize = 0;
    let ghost f = scalar::f162();
    let ghost rs = linear::views(challenges.r_pp@).take(l as int);
    let ghost (a0, p0) = (prover.a@, prover.p@);
    proof {
        prover.a.lemma_elems();
        prover.p.lemma_elems();
        assert(a0.take(a0.len() as int) =~= a0);
        assert(p0.take(p0.len() as int) =~= p0);
    }
    while round < l
        invariant
            round <= l == r_hi@.len(),
            l <= challenges.r_pp@.len(),
            linear::all_wf(challenges.r_pp@),
            f == scalar::f162(),
            rs == linear::views(challenges.r_pp@).take(l as int),
            f.elems(a0),
            f.elems(p0),
            a0.len() == pow2(l as nat),
            p0.len() == pow2(l as nat),
            prover.wf(),
            prover.a.n == pow2(l as nat),
            prover.p.n == pow2(l as nat),
            prover.half == pow2((l - round) as nat),
            prover.a@.take(prover.half as int) == f.folded(a0, rs, round as nat),
            prover.p@.take(prover.half as int) == f.folded(p0, rs, round as nat),
            rounds@.len() == round,
            pairs_wf(rounds@),
            forall|k: int|
                0 <= k < round ==> #[trigger] pairs(rounds@)[k] == f.message(a0, p0, rs, k as nat),
        decreases l - round,
    {
        proof {
            lemma_pow2_unfold((l - round) as nat);
        }
        let ghost (ta, tp) = (prover.a@, prover.p@);
        let m = prover.msg();
        let ghost half = prover.half as nat;
        prover.fold(challenges.r_pp[round]);
        proof {
            lemma_live(ta, prover.a@, half, rs[round as int]);
            lemma_live(tp, prover.p@, half, rs[round as int]);
            lemma_live_message(ta, tp, half);
            assert((m[0]@, m[1]@) == f.message(a0, p0, rs, round as nat));
        }
        let ghost before = rounds@;
        rounds.push(m);
        proof {
            assert forall|k: int| 0 <= k < round + 1 implies #[trigger] pairs(rounds@)[k]
                == f.message(a0, p0, rs, k as nat) by {
                if k < round {
                    assert(pairs(rounds@)[k] == pairs(before)[k]);
                }
            }
        }
        round += 1;
    }
    proof {
        lemma2_to64();
        f.folded_mle(p0, rs, l as nat);
        assert(prover.p@[0] == prover.p@.take(1)[0]);
    }
    SwitchProof { v, rounds, final_eval: prover.final_eval() }
}

/// `sum_k v_k w_k` over the entries that both have.
pub open spec fn weighed(v: Seq<Seq<bool>>, w: Seq<Seq<bool>>) -> Seq<bool> {
    scalar::ghash().dot_to(
        v,
        w,
        if v.len() < w.len() {
            v.len()
        } else {
            w.len()
        },
    )
}

/// The partial evaluations, weighed at `r_lo`, are the claim.
pub open spec fn partials_match(v: Seq<B128>, r_lo: Seq<B128>, claim: B128) -> bool {
    weighed(linear::words(v), scalar::ghash().eq(linear::words(r_lo))) == claim@
}

pub(crate) fn weigh(v: &[B128], w: &[B128]) -> (r: B128)
    ensures
        r@ == weighed(linear::words(v@), linear::words(w@)),
{
    let n: usize = if v.len() < w.len() {
        v.len()
    } else {
        w.len()
    };
    let mut acc = B128::zero();
    let mut k: usize = 0;
    while k < n
        invariant
            k <= n <= v@.len(),
            n <= w@.len(),
            acc@ == scalar::ghash().dot_to(linear::words(v@), linear::words(w@), k as nat),
        decreases n - k,
    {
        acc = acc + v[k] * w[k];
        k += 1;
    }
    acc
}

/// The value that the verifier of [`verify`] ends on.
pub open spec fn verified_sum(
    v: Seq<Seq<bool>>,
    rounds: Seq<(Seq<bool>, Seq<bool>)>,
    batch: Seq<Seq<bool>>,
    r_pp: Seq<Seq<bool>>,
) -> Seq<bool> {
    scalar::f162().run(sliced(v, batch), rounds, r_pp, rounds.len())
}

pub fn verify(
    pf: &SwitchProof,
    claim: B128,
    r_lo: &[B128],
    r_hi: &[B128],
    challenges: &Transcript,
) -> (r: Result<F162, &'static str>)
    requires
        pow2(r_lo@.len()) <= usize::MAX,
        partials_match(pf.v@, r_lo@, claim) ==> {
            &&& pf.v@.len() <= 128
            &&& challenges.r_prime@.len() >= LOG_PACK
            &&& pow2(challenges.r_prime@.len()) <= usize::MAX
            &&& pf.rounds@.len() <= challenges.r_pp@.len()
            &&& r_hi@.len() == challenges.r_pp@.len()
        },
        pairs_wf(pf.rounds@),
        pf.final_eval.wf(),
        linear::all_wf(challenges.r_prime@),
        linear::all_wf(challenges.r_pp@),
    ensures
        ({
            let f = scalar::f162();
            let batch = f.eq(linear::views(challenges.r_prime@));
            let r_pp = linear::views(challenges.r_pp@);
            let v = linear::words(pf.v@);
            let sums = partials_match(pf.v@, r_lo@, claim);
            let ends = verified_sum(v, pairs(pf.rounds@), batch, r_pp) == f.mul(
                transparent(linear::words(r_hi@), r_pp, batch),
                pf.final_eval@,
            );
            match r {
                Ok(x) => sums && ends && x == pf.final_eval,
                Err(e) if !sums => e@ == "partial evaluation mismatch"@,
                Err(e) => !ends && e@ == "sumcheck final check failed"@,
            }
        }),
{
    let eq_lo = eq_expand_b128(r_lo);
    let recomputed = weigh(pf.v.as_slice(), eq_lo.as_slice());
    if recomputed != claim {
        proof {
            if recomputed@ == claim@ {
                B128::ext(recomputed, claim);
            }
        }
        return Err("partial evaluation mismatch");
    }
    proof {
        lemma2_to64();
        if challenges.r_prime@.len() > 7 {
            lemma_pow2_strictly_increases(7, challenges.r_prime@.len());
        }
    }
    let batch = eq_expand_f162(challenges.r_prime.as_slice());
    let mut verifier = SwitchVerifier::from_sum(slice_sum(pf.v.as_slice(), batch.as_slice()));
    let mut k: usize = 0;
    let ghost f = scalar::f162();
    let ghost s0 = verifier.s@;
    let ghost ms = pairs(pf.rounds@);
    let ghost rs = linear::views(challenges.r_pp@);
    while k < pf.rounds.len()
        invariant
            k <= pf.rounds@.len() <= challenges.r_pp@.len(),
            pairs_wf(pf.rounds@),
            linear::all_wf(challenges.r_pp@),
            f == scalar::f162(),
            ms == pairs(pf.rounds@),
            rs == linear::views(challenges.r_pp@),
            verifier.round == k,
            verifier.s.wf(),
            verifier.s@ == f.run(s0, ms, rs, k as nat),
        decreases pf.rounds@.len() - k,
    {
        assert(pairs_wf(pf.rounds@) ==> pf.rounds@[k as int][0].wf()
            && pf.rounds@[k as int][1].wf());
        verifier.round(pf.rounds[k], challenges.r_pp[k]);
        assert(ms[k as int] == (pf.rounds@[k as int][0]@, pf.rounds@[k as int][1]@));
        k += 1;
    }
    match verifier.finish(
        r_hi,
        challenges.r_pp.as_slice(),
        batch.as_slice(),
        pf.final_eval,
    ) {
        Ok(_) => Ok(pf.final_eval),
        Err(e) => Err(e),
    }
}

/// The prover's side of the switch, one round at a time.
pub struct SwitchProver {
    pub a: Poly,
    pub p: Poly,
    pub half: usize,
}

impl SwitchProver {
    /// Both tables are well formed and hold the live part.
    pub open spec fn wf(&self) -> bool {
        &&& self.a.wf()
        &&& self.p.wf()
        &&& self.half <= self.a.n
        &&& self.half <= self.p.n
    }

    /// The partial evaluations of `pi0` at `r_hi`, and the weights `eq(r_hi, .)`.
    pub fn partial_evals_and_eq(pi0: &[B128], r_hi: &[B128]) -> (r: (Vec<B128>, Vec<B128>))
        requires
            pi0@.len() == pow2(r_hi@.len()),
        ensures
            linear::words(r.1@) == scalar::ghash().eq(linear::words(r_hi@)),
            r.1@.len() == pi0@.len(),
            linear::words(r.0@) == partials(
                linear::words(pi0@),
                scalar::ghash().eq(linear::words(r_hi@)),
            ),
    {
        let n: usize = pi0.len();
        assert(pow2(r_hi@.len()) == n);
        let eq_hi = eq_expand_b128(r_hi);
        let v = partial_evals(pi0, eq_hi.as_slice());
        (v, eq_hi)
    }

    pub fn new(pi0: &[B128], eq_hi: &[B128], batch: &[F162]) -> (r: SwitchProver)
        requires
            pi0@.len() == eq_hi@.len(),
            batch@.len() >= 128,
            linear::all_wf(batch@),
        ensures
            r.wf(),
            r.half == pi0@.len(),
            r.a@ == psi_of(linear::words(eq_hi@), linear::views(batch@)),
            r.p@ == lifted(linear::words(pi0@)),
    {
        let eqs: [&[B128]; 1] = [eq_hi];
        let gammas: [F162; 1] = [F162::one()];
        let r = SwitchProver::batched(pi0, eqs.as_slice(), gammas.as_slice(), batch);
        proof {
            let f = scalar::f162();
            let (e, b) = (linear::words(eq_hi@), linear::views(batch@));
            assert forall|j: int| 0 <= j < e.len() implies r.a@[j] == psi_of(e, b)[j] by {
                let g = |i: int| f.pick(eqs@[i]@[j]@, scaled_batch(gammas@[i]@, b), 128);
                assert(f.total(g, 1) == f.sum(f.total(g, 0), g(0)));
                assert(f.total(g, 0) == f.zero());
                let one = scaled_batch(f.one(), b);
                let x = |k: int| f.scale(e[j][k], one[k]);
                let y = |k: int| f.scale(e[j][k], b[k]);
                assert forall|k: int| 0 <= k < 128 implies #[trigger] x(k) == y(k) by {
                    f.mul_one(b[k]);
                }
                f.total_ext(x, y, 128);
                f.total_elem(y, 128);
                f.sum_zero(f.total(y, 128));
            }
            assert(r.a@ =~= psi_of(e, b));
        }
        r
    }

    /// Several claims on one trace, claim `i` with weights `eq_his[i]` and factor `gammas[i]`.
    pub fn batched(
        pi0: &[B128],
        eq_his: &[&[B128]],
        gammas: &[F162],
        batch: &[F162],
    ) -> (r: SwitchProver)
        requires
            eq_his@.len() >= 1,
            forall|i: int| 0 <= i < eq_his@.len() ==> (#[trigger] eq_his@[i])@.len() == pi0@.len(),
            batch@.len() >= 128,
            linear::all_wf(batch@),
            linear::all_wf(gammas@),
        ensures
            r.wf(),
            r.half == pi0@.len(),
            r.a.n == pi0@.len(),
            forall|j: int|
                0 <= j < r.a.n ==> (#[trigger] r.a@[j]) == batched_sum(
                    eq_his@,
                    gammas@,
                    linear::views(batch@),
                    j,
                    if eq_his@.len() < gammas@.len() {
                        eq_his@.len()
                    } else {
                        gammas@.len()
                    },
                ),
            r.p@ == lifted(linear::words(pi0@)),
    {
        let mut batches: Vec<Vec<F162>> = Vec::with_capacity(gammas.len());
        let ghost b = linear::views(batch@);
        let mut i: usize = 0;
        while i < gammas.len()
            invariant
                i <= gammas@.len(),
                batch@.len() >= 128,
                linear::all_wf(batch@),
                linear::all_wf(gammas@),
                b == linear::views(batch@),
                batches@.len() == i,
                forall|k: int|
                    0 <= k < i ==> (#[trigger] batches@[k])@.len() == batch@.len()
                        && linear::all_wf(batches@[k]@) && linear::views(batches@[k]@)
                        == scaled_batch(gammas@[k]@, b),
            decreases gammas@.len() - i,
        {
            let g = gammas[i];
            let mut row: Vec<F162> = Vec::with_capacity(batch.len());
            let mut k: usize = 0;
            while k < batch.len()
                invariant
                    k <= batch@.len(),
                    g.wf(),
                    linear::all_wf(batch@),
                    b == linear::views(batch@),
                    row@.len() == k,
                    linear::all_wf(row@),
                    forall|j: int|
                        0 <= j < k ==> (#[trigger] row@[j])@ == scalar::f162().mul(g@, b[j]),
                decreases batch@.len() - k,
            {
                row.push(g * batch[k]);
                k += 1;
            }
            assert(linear::views(row@) =~= scaled_batch(g@, b));
            batches.push(row);
            i += 1;
        }
        let a = poly_from_eq(eq_his, batches.as_slice());
        proof {
            let f = scalar::f162();
            let n = if eq_his@.len() < gammas@.len() {
                eq_his@.len()
            } else {
                gammas@.len()
            };
            assert forall|j: int| 0 <= j < a.n implies (#[trigger] a@[j]) == batched_sum(
                eq_his@,
                gammas@,
                b,
                j,
                n,
            ) by {
                f.total_ext(
                    |i: int| f.pick(eq_his@[i]@[j]@, linear::views(batches@[i]@), 128),
                    |i: int| f.pick(eq_his@[i]@[j]@, scaled_batch(gammas@[i]@, b), 128),
                    n,
                );
            }
        }
        SwitchProver { a, p: poly_from_b128(pi0), half: pi0.len() }
    }

    /// The message of the next round.
    pub fn msg(&mut self) -> (m: [F162; 2])
        requires
            old(self).wf(),
        ensures
            final(self).wf(),
            final(self).a == old(self).a,
            final(self).p == old(self).p,
            final(self).half == old(self).half / 2,
            m[0].wf(),
            m[1].wf(),
            m[0]@ == scalar::f162().at_zero(old(self).a@, old(self).p@, (old(self).half / 2) as nat),
            m[1]@ == scalar::f162().at_inf(old(self).a@, old(self).p@, (old(self).half / 2) as nat),
    {
        self.half = self.half / 2;
        sumcheck::msg(&self.a, &self.p, self.half)
    }

    /// Fix the variable of the round at `r`.
    pub fn fold(&mut self, r: F162)
        requires
            old(self).wf(),
            2 * old(self).half <= old(self).a.n,
            2 * old(self).half <= old(self).p.n,
            r.wf(),
        ensures
            final(self).wf(),
            final(self).half == old(self).half,
            final(self).a@ == scalar::f162().fold(old(self).a@.take(2 * old(self).half), r@)
                + old(self).a@.skip(old(self).half as int),
            final(self).p@ == scalar::f162().fold(old(self).p@.take(2 * old(self).half), r@)
                + old(self).p@.skip(old(self).half as int),
    {
        let h: usize = self.half;
        let ghost (a0, p0) = (self.a@, self.p@);
        sumcheck::fold(&mut self.a, &mut self.p, h, r);
        assert(self.a@.len() == a0.len() && self.p@.len() == p0.len());
    }

    /// The value of the lifted trace at the challenges, once every round is folded.
    pub fn final_eval(&self) -> (r: F162)
        requires
            self.wf(),
            self.p.n >= 1,
        ensures
            r.wf(),
            r@ == self.p@[0],
    {
        self.p.get(0)
    }
}

/// `g batch_k` for every `k`.
pub open spec fn scaled_batch(g: Seq<bool>, batch: Seq<Seq<bool>>) -> Seq<Seq<bool>> {
    Seq::new(batch.len(), |k: int| scalar::f162().mul(g, batch[k]))
}

/// `sum_{i < n} sum_k bit_k(eqs_i[j]) gammas_i batch_k`.
pub open spec fn batched_sum(
    eqs: Seq<&[B128]>,
    gammas: Seq<F162>,
    batch: Seq<Seq<bool>>,
    j: int,
    n: nat,
) -> Seq<bool> {
    let f = scalar::f162();
    f.total(|i: int| f.pick(eqs[i]@[j]@, scaled_batch(gammas[i]@, batch), 128), n)
}

/// The verifier's side of the switch: the claim `s` it holds, and the rounds it has read.
pub struct SwitchVerifier {
    pub s: F162,
    pub round: usize,
}

impl SwitchVerifier {
    pub fn start(v: &[B128], claim: B128, r_lo: &[B128], batch: &[F162]) -> (r: Result<
        SwitchVerifier,
        &'static str,
    >)
        requires
            pow2(r_lo@.len()) <= usize::MAX,
            partials_match(v@, r_lo@, claim) ==> {
                &&& v@.len() <= 128
                &&& batch@.len() >= 128
            },
            linear::all_wf(batch@),
        ensures
            match r {
                Ok(x) => {
                    &&& partials_match(v@, r_lo@, claim)
                    &&& x.s.wf()
                    &&& x.s@ == sliced(linear::words(v@), linear::views(batch@))
                    &&& x.round == 0
                },
                Err(e) => {
                    &&& !partials_match(v@, r_lo@, claim)
                    &&& e@ == "partial evaluation mismatch"@
                },
            },
    {
        let eq_lo = eq_expand_b128(r_lo);
        let recomputed = weigh(v, eq_lo.as_slice());
        if recomputed != claim {
            proof {
                if recomputed@ == claim@ {
                    B128::ext(recomputed, claim);
                }
            }
            return Err("partial evaluation mismatch");
        }
        Ok(SwitchVerifier::from_sum(slice_sum(v, batch)))
    }

    pub fn from_sum(s: F162) -> (r: SwitchVerifier)
        ensures
            r.s == s,
            r.round == 0,
    {
        SwitchVerifier { s, round: 0 }
    }

    /// The claim after a round: the round polynomial's value at `r`.
    pub fn round(&mut self, msg: [F162; 2], r: F162)
        requires
            old(self).s.wf(),
            old(self).round < usize::MAX,
            msg[0].wf(),
            msg[1].wf(),
            r.wf(),
        ensures
            final(self).s.wf(),
            final(self).round == old(self).round + 1,
            final(self).s@ == scalar::f162().round_at(old(self).s@, msg[0]@, msg[1]@, r@),
    {
        let e0 = msg[0];
        let einf = msg[1];
        let e1 = self.s + e0;
        self.s = e0 + r * (e0 + e1 + einf) + r * r * einf;
        self.round = self.round + 1;
    }

    /// The last check: the claim is the opened value times its weight.
    pub fn finish(&self, r_hi: &[B128], r_pp: &[F162], batch: &[F162], opened: F162) -> (r: Result<
        (),
        &'static str,
    >)
        requires
            self.s.wf(),
            opened.wf(),
            r_hi@.len() == r_pp@.len(),
            linear::all_wf(r_pp@),
            linear::all_wf(batch@),
        ensures
            ({
                let ends = self.s@ == scalar::f162().mul(
                    transparent(
                        linear::words(r_hi@),
                        linear::views(r_pp@),
                        linear::views(batch@),
                    ),
                    opened@,
                );
                match r {
                    Ok(_) => ends,
                    Err(e) => !ends && e@ == "sumcheck final check failed"@,
                }
            }),
    {
        let d = transparent_coeff(r_hi, r_pp, batch);
        let want = d * opened;
        if self.s != want {
            proof {
                if self.s@ == want@ {
                    F162::ext(self.s, want);
                }
            }
            return Err("sumcheck final check failed");
        }
        proof {
            F162::lemma_limbs(self.s, want);
        }
        Ok(())
    }
}

/// The switch is complete: the honest proof of a claim `bit_mle(trace, r_lo, r_hi) = claim`
/// passes both checks of [`verify`], at every choice of the challenges.
pub proof fn switch_complete(
    pf: SwitchProof,
    trace: Seq<Seq<bool>>,
    r_lo: Seq<Seq<bool>>,
    r_hi: Seq<Seq<bool>>,
    batch: Seq<Seq<bool>>,
    r_pp: Seq<Seq<bool>>,
)
    requires
        scalar::ghash().elems(trace),
        scalar::ghash().elems(r_lo),
        scalar::ghash().elems(r_hi),
        scalar::f162().elems(batch),
        scalar::f162().elems(r_pp),
        r_lo.len() == LOG_PACK,
        batch.len() >= 128,
        r_pp.len() == r_hi.len(),
        trace.len() == pow2(r_hi.len()),
        is_proof(pf, trace, r_hi, batch, r_pp),
    ensures
        weighed(linear::words(pf.v@), scalar::ghash().eq(r_lo)) == bit_claim(
            trace,
            scalar::ghash().eq(r_lo),
            scalar::ghash().eq(r_hi),
            trace.len(),
        ),
        verified_sum(linear::words(pf.v@), pairs(pf.rounds@), batch, r_pp) == scalar::f162().mul(
            transparent(r_hi, r_pp, batch),
            pf.final_eval@,
        ),
{
    let (f, g) = (scalar::f162(), scalar::ghash());
    let e = g.eq(r_hi);
    lemma2_to64();
    g.eq_shape(r_lo);
    g.eq_shape(r_hi);
    partials_weighed(trace, e, g.eq(r_lo));
    lemma_sum_complete(pf.v@, pairs(pf.rounds@), trace, r_hi, batch, r_pp);
}

/// With honest partial evaluations and messages the sumcheck ends on the value of the lifted
/// trace times its weight.
pub proof fn lemma_sum_complete(
    v: Seq<B128>,
    rounds: Seq<(Seq<bool>, Seq<bool>)>,
    trace: Seq<Seq<bool>>,
    r_hi: Seq<Seq<bool>>,
    batch: Seq<Seq<bool>>,
    r_pp: Seq<Seq<bool>>,
)
    requires
        scalar::ghash().elems(trace),
        scalar::ghash().elems(r_hi),
        scalar::f162().elems(batch),
        scalar::f162().elems(r_pp),
        batch.len() >= 128,
        r_pp.len() == r_hi.len(),
        rounds.len() == r_hi.len(),
        trace.len() == pow2(r_hi.len()),
        linear::words(v) == partials(trace, scalar::ghash().eq(r_hi)),
        forall|k: int|
            0 <= k < rounds.len() ==> #[trigger] rounds[k] == scalar::f162().message(
                psi_of(scalar::ghash().eq(r_hi), batch),
                lifted(trace),
                r_pp,
                k as nat,
            ),
    ensures
        verified_sum(linear::words(v), rounds, batch, r_pp) == scalar::f162().mul(
            transparent(r_hi, r_pp, batch),
            scalar::f162().mle(lifted(trace), r_pp),
        ),
{
    let (f, g) = (scalar::f162(), scalar::ghash());
    let e = g.eq(r_hi);
    let (a, p) = (psi_of(e, batch), lifted(trace));
    g.eq_shape(r_hi);
    partials_sliced(trace, e, batch);
    assert forall|j: int| 0 <= j < a.len() implies f.elem(#[trigger] a[j]) by {
        f.total_elem(|k: int| f.scale(e[j][k], batch[k]), 128);
    }
    f.sumcheck_complete(a, p, rounds, r_pp);
    transparent_mle(r_hi, r_pp, batch);
}

pub proof fn lemma_transparent_elem(
    r_hi: Seq<Seq<bool>>,
    r_pp: Seq<Seq<bool>>,
    batch: Seq<Seq<bool>>,
)
    ensures
        scalar::f162().elem(transparent(r_hi, r_pp, batch)),
{
    let f = scalar::f162();
    let (e, x) = (scalar::ghash().eq(r_hi), f.eq(r_pp));
    f.total_elem(
        |j: int|
            f.mul(
                x[j],
                f.pick(
                    e[j],
                    batch,
                    if batch.len() < 128 {
                        batch.len()
                    } else {
                        128
                    },
                ),
            ),
        pow2(r_pp.len()),
    );
}

/// Where the weight of the opened value is not zero, [`SwitchVerifier::finish`] accepts one opened
/// value at most: once `opened` passes, every other value is refused.
pub proof fn wrong_value_refused(
    v: SwitchVerifier,
    r_hi: Seq<Seq<bool>>,
    r_pp: Seq<Seq<bool>>,
    batch: Seq<Seq<bool>>,
    opened: F162,
    other: F162,
)
    requires
        opened.wf(),
        other.wf(),
        opened != other,
        transparent(r_hi, r_pp, batch) != scalar::f162().zero(),
        v.s@ == scalar::f162().mul(transparent(r_hi, r_pp, batch), opened@),
    ensures
        v.s@ != scalar::f162().mul(transparent(r_hi, r_pp, batch), other@),
{
    let f = scalar::f162();
    let t = transparent(r_hi, r_pp, batch);
    lemma_transparent_elem(r_hi, r_pp, batch);
    if v.s@ == f.mul(t, other@) {
        field::cancels(t, opened@, other@);
        F162::ext(opened, other);
    }
}

// ---------------------------------------------------------------------------------------------
// the rounds one by one
// ---------------------------------------------------------------------------------------------

/// One round of the prover: the message `m` of the state `p`, and the state `q` once the variable is
/// fixed at `r`.
pub open spec fn prover_round(p: SwitchProver, m: [F162; 2], r: Seq<bool>, q: SwitchProver) -> bool {
    let f = scalar::f162();
    let half = (p.half / 2) as nat;
    &&& m[0]@ == f.at_zero(p.a@, p.p@, half)
    &&& m[1]@ == f.at_inf(p.a@, p.p@, half)
    &&& q.half == half
    &&& q.a@ == f.fold(p.a@.take(2 * half as int), r) + p.a@.skip(half as int)
    &&& q.p@ == f.fold(p.p@.take(2 * half as int), r) + p.p@.skip(half as int)
}

/// One round of the verifier.
pub open spec fn verifier_round(v: SwitchVerifier, m: [F162; 2], r: Seq<bool>, w: SwitchVerifier) -> bool {
    w.s@ == scalar::f162().round_at(v.s@, m[0]@, m[1]@, r)
}

/// The prover and the verifier run against each other: `ps` and `vs` are their states before every
/// round and behind the last one, `ms` the messages, `r_pp` the challenges.
pub open spec fn is_run(
    ps: Seq<SwitchProver>,
    vs: Seq<SwitchVerifier>,
    ms: Seq<[F162; 2]>,
    r_pp: Seq<Seq<bool>>,
) -> bool {
    &&& ms.len() == r_pp.len()
    &&& ps.len() == r_pp.len() + 1
    &&& vs.len() == r_pp.len() + 1
    &&& forall|i: int|
        0 <= i < r_pp.len() ==> prover_round(ps[i], #[trigger] ms[i], r_pp[i], ps[i + 1])
            && verifier_round(vs[i], ms[i], r_pp[i], vs[i + 1])
}

proof fn lemma_run(
    ps: Seq<SwitchProver>,
    vs: Seq<SwitchVerifier>,
    ms: Seq<[F162; 2]>,
    r_pp: Seq<Seq<bool>>,
    k: nat,
)
    requires
        is_run(ps, vs, ms, r_pp),
        k <= r_pp.len(),
        ps[0].half == pow2(r_pp.len()),
        ps[0].a@.len() == pow2(r_pp.len()),
        ps[0].p@.len() == pow2(r_pp.len()),
        scalar::f162().elems(ps[0].a@),
        scalar::f162().elems(ps[0].p@),
    ensures
        ({
            let f = scalar::f162();
            let (a, p) = (ps[0].a@, ps[0].p@);
            &&& ps[k as int].half == pow2((r_pp.len() - k) as nat)
            &&& ps[k as int].a@.len() == a.len()
            &&& ps[k as int].p@.len() == p.len()
            &&& ps[k as int].a@.take(ps[k as int].half as int) == f.folded(a, r_pp, k)
            &&& ps[k as int].p@.take(ps[k as int].half as int) == f.folded(p, r_pp, k)
            &&& vs[k as int].s@ == f.run(vs[0].s@, pairs(ms), r_pp, k)
            &&& forall|i: int|
                0 <= i < k ==> #[trigger] pairs(ms)[i] == f.message(a, p, r_pp, i as nat)
        }),
    decreases k,
{
    let f = scalar::f162();
    let (a, p) = (ps[0].a@, ps[0].p@);
    if k == 0 {
        assert(a.take(a.len() as int) =~= a);
        assert(p.take(p.len() as int) =~= p);
    } else {
        let j = k - 1;
        lemma_run(ps, vs, ms, r_pp, j as nat);
        f.folded_shape(a, r_pp, j as nat);
        f.folded_shape(p, r_pp, j as nat);
        lemma_pow2_unfold((r_pp.len() - j) as nat);
        let (now, m) = (ps[j], ms[j]);
        let half = (now.half / 2) as nat;
        assert(prover_round(ps[j], ms[j], r_pp[j], ps[j + 1]));
        assert(verifier_round(vs[j], ms[j], r_pp[j], vs[j + 1]));
        if j > 0 {
            lemma_pow2_strictly_increases((r_pp.len() - j) as nat, r_pp.len());
        }
        assert(2 * half == now.half && now.half <= a.len());
        lemma_live(now.a@, ps[k as int].a@, half, r_pp[j]);
        lemma_live(now.p@, ps[k as int].p@, half, r_pp[j]);
        lemma_live_message(now.a@, now.p@, half);
        assert(pairs(ms)[j] == (m[0]@, m[1]@));
        assert(pairs(ms)[j] == f.message(a, p, r_pp, j as nat));
    }
}

/// A run of the switch against an honest prover: the verifier holds the value of the lifted trace at
/// the challenges times its weight, the prover's last value is that value, [`SwitchVerifier::finish`]
/// accepts it, and refuses every other value where the weight is not zero.
pub proof fn run_complete(
    ps: Seq<SwitchProver>,
    vs: Seq<SwitchVerifier>,
    ms: Seq<[F162; 2]>,
    v: Seq<B128>,
    trace: Seq<Seq<bool>>,
    r_hi: Seq<Seq<bool>>,
    batch: Seq<Seq<bool>>,
    r_pp: Seq<Seq<bool>>,
)
    requires
        scalar::ghash().elems(trace),
        scalar::ghash().elems(r_hi),
        scalar::f162().elems(batch),
        scalar::f162().elems(r_pp),
        batch.len() >= 128,
        r_pp.len() == r_hi.len(),
        trace.len() == pow2(r_hi.len()),
        linear::words(v) == partials(trace, scalar::ghash().eq(r_hi)),
        is_run(ps, vs, ms, r_pp),
        ps[0].half == trace.len(),
        ps[0].a@ == psi_of(scalar::ghash().eq(r_hi), batch),
        ps[0].p@ == lifted(trace),
        vs[0].s@ == sliced(linear::words(v), batch),
    ensures
        ps.last().p@.len() >= 1,
        ps.last().p@[0] == scalar::f162().mle(lifted(trace), r_pp),
        vs.last().s@ == scalar::f162().mul(transparent(r_hi, r_pp, batch), ps.last().p@[0]),
        forall|x: F162|
            transparent(r_hi, r_pp, batch) != scalar::f162().zero() && x.wf() && x@
                != ps.last().p@[0] ==> vs.last().s@ != #[trigger] scalar::f162().mul(
                transparent(r_hi, r_pp, batch),
                x@,
            ),
{
    let (f, g) = (scalar::f162(), scalar::ghash());
    let e = g.eq(r_hi);
    let (a, p) = (psi_of(e, batch), lifted(trace));
    let n = r_pp.len();
    g.eq_shape(r_hi);
    assert forall|j: int| 0 <= j < a.len() implies f.elem(#[trigger] a[j]) by {
        f.total_elem(|k: int| f.scale(e[j][k], batch[k]), 128);
    }
    lemma2_to64();
    lemma_pow2_pos(n);
    lemma_run(ps, vs, ms, r_pp, n);
    lemma_sum_complete(v, pairs(ms), trace, r_hi, batch, r_pp);
    f.folded_mle(p, r_pp, n);
    f.folded_shape(p, r_pp, n);
    assert(ps.last().p@[0] == ps.last().p@.take(1)[0]);
    let t = transparent(r_hi, r_pp, batch);
    lemma_transparent_elem(r_hi, r_pp, batch);
    f.total_elem(|i: int| f.mul(p[i], f.eq(r_pp)[i]), p.len());
    assert forall|x: F162|
        t != f.zero() && x.wf() && x@ != ps.last().p@[0] implies vs.last().s@ != #[trigger] f.mul(
        t,
        x@,
    ) by {
        if vs.last().s@ == f.mul(t, x@) {
            field::cancels(t, ps.last().p@[0], x@);
        }
    }
}

/// A batched switch is the switches with their weights: entry `j` of its table is the sum of each
/// statement's `psi` value there times the weight of the statement.
pub proof fn batched_is_weighted(
    eqs: Seq<&[B128]>,
    gammas: Seq<F162>,
    batch: Seq<Seq<bool>>,
    j: int,
    n: nat,
)
    requires
        scalar::f162().elems(batch),
        batch.len() >= 128,
        forall|i: int| 0 <= i < n ==> (#[trigger] gammas[i]).wf(),
        n <= gammas.len(),
    ensures
        batched_sum(eqs, gammas, batch, j, n) == scalar::f162().total(
            |i: int|
                scalar::f162().mul(
                    gammas[i]@,
                    scalar::f162().pick(eqs[i]@[j]@, batch, 128),
                ),
            n,
        ),
{
    let f = scalar::f162();
    let left = |i: int| f.pick(eqs[i]@[j]@, scaled_batch(gammas[i]@, batch), 128);
    let right = |i: int| f.mul(gammas[i]@, f.pick(eqs[i]@[j]@, batch, 128));
    assert forall|i: int| 0 <= i < n implies #[trigger] left(i) == right(i) by {
        let (g, x) = (gammas[i]@, eqs[i]@[j]@);
        assert(gammas[i].wf());
        let own = |k: int| f.scale(x[k], batch[k]);
        let scaled = |k: int| f.scale(x[k], scaled_batch(g, batch)[k]);
        f.total_mul(g, own, 128);
        assert forall|k: int| 0 <= k < 128 implies #[trigger] scaled(k) == f.mul(g, own(k)) by {
            f.scale_mul(x[k], g, batch[k]);
        }
        f.total_ext(scaled, |k: int| f.mul(g, own(k)), 128);
        f.total_ext(own, |k: int| f.scale(x[k], batch[k]), 128);
        f.total_ext(scaled, |k: int| f.scale(x[k], scaled_batch(g, batch)[k]), 128);
    }
    f.total_ext(left, right, n);
}

/// The claim that partial evaluations match is their multilinear extension at the low coordinates, so that
/// one list of them matches one claim.
pub proof fn matched_claim_is_mle(v: Seq<B128>, r_lo: Seq<B128>, claim: B128, other: B128)
    requires
        v.len() == pow2(r_lo.len()),
        partials_match(v, r_lo, claim),
    ensures
        scalar::ghash().mle(linear::words(v), linear::words(r_lo)) == claim@,
        partials_match(v, r_lo, other) <==> other == claim,
{
    scalar::ghash().eq_shape(linear::words(r_lo));
    assert(linear::words(v).len() == v.len());
    if partials_match(v, r_lo, other) {
        B128::ext(other, claim);
    }
}


/// A sum with one term that is not zero is that term.
proof fn lemma_single(f: spec_fn(int) -> Seq<bool>, i: int, n: nat)
    requires
        0 <= i < n,
        scalar::f162().elem(f(i)),
        forall|k: int| 0 <= k < n && k != i ==> #[trigger] f(k) == scalar::f162().zero(),
    ensures
        scalar::f162().total(f, n) == f(i),
    decreases n,
{
    let g = scalar::f162();
    let m = (n - 1) as nat;
    if i == m {
        g.total_ext(f, |k: int| g.zero(), m);
        g.total_zero(m);
    } else {
        lemma_single(f, i, m);
        assert(f(m as int) == g.zero());
    }
    g.sum_zero(f(i));
}

/// Every bit of every equality table weighs what its own batch says: where bit `k` of the entry of
/// table `i` is the only one that is set at place `j`, the batched entry there is entry `k` of batch
/// `i`.
pub proof fn batched_bit_weighs(
    eqs: Seq<&[B128]>,
    batches: Seq<Vec<F162>>,
    j: int,
    n: nat,
    i: int,
    k: int,
)
    requires
        0 <= i < n <= eqs.len(),
        n <= batches.len(),
        0 <= k < 128,
        forall|t: int| 0 <= t < n ==> (#[trigger] batches[t])@.len() >= 128,
        forall|t: int| 0 <= t < n ==> linear::all_wf((#[trigger] batches[t])@),
        forall|t: int, b: int|
            0 <= t < n && 0 <= b < 128 ==> ((#[trigger] eqs[t]@[j]@[b]) <==> t == i && b == k),
    ensures
        psi_sum(eqs, batches, j, n) == batches[i]@[k]@,
{
    let f = scalar::f162();
    let w = linear::views(batches[i]@);
    let term = |t: int| f.pick(eqs[t]@[j]@, linear::views(batches[t]@), 128);
    let bit = |b: int| f.scale(eqs[i]@[j]@[b], w[b]);
    assert(f.elem(w[k]));
    assert(bit(k) == w[k]);
    assert forall|b: int| 0 <= b < 128 && b != k implies #[trigger] bit(b) == f.zero() by {
        assert(!eqs[i]@[j]@[b]);
    }
    lemma_single(bit, k, 128);
    assert(term(i) == w[k]);
    assert forall|t: int| 0 <= t < n && t != i implies #[trigger] term(t) == f.zero() by {
        let other = |b: int| f.scale(eqs[t]@[j]@[b], linear::views(batches[t]@)[b]);
        assert forall|b: int| 0 <= b < 128 implies #[trigger] other(b) == f.zero() by {
            assert(!eqs[t]@[j]@[b]);
        }
        f.total_ext(other, |b: int| f.zero(), 128);
        f.total_zero(128);
    }
    lemma_single(term, i, n);
}

} // verus!
