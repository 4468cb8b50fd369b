//! Sums, equality weights and multilinear extensions over a ring of [`Gf`].
use super::gf2::Gf;
use super::scalar::{B128, F162};
use vstd::arithmetic::power2::*;
use vstd::prelude::*;

verus! {

impl Gf {
    /// Every entry is an element of the ring.
    pub open spec fn elems(self, a: Seq<Seq<bool>>) -> bool {
        forall|i: int| 0 <= i < a.len() ==> self.elem(#[trigger] a[i])
    }

    /// `sum_{i < k} f(i)`.
    pub open spec fn total(self, f: spec_fn(int) -> Seq<bool>, k: nat) -> Seq<bool>
        decreases k,
    {
        if k == 0 {
            self.zero()
        } else {
            self.sum(self.total(f, (k - 1) as nat), f(k - 1))
        }
    }

    /// `sum_{i < k} a_i b_i`.
    pub open spec fn dot_to(self, a: Seq<Seq<bool>>, b: Seq<Seq<bool>>, k: nat) -> Seq<bool> {
        self.total(|i: int| self.mul(a[i], b[i]), k)
    }

    /// `sum_i a_i b_i` over the entries of `a`.
    pub open spec fn dot(self, a: Seq<Seq<bool>>, b: Seq<Seq<bool>>) -> Seq<bool> {
        self.dot_to(a, b, a.len())
    }

    /// The weights `eq(r, j) = prod_i (if bit i of j { r_i } else { 1 + r_i })` for every index
    /// `j`, the first coordinate at the most significant bit of `j`.
    pub open spec fn eq(self, r: Seq<Seq<bool>>) -> Seq<Seq<bool>>
        decreases r.len(),
    {
        if r.len() == 0 {
            seq![self.one()]
        } else {
            self.eq_step(self.eq(r.drop_last()), r.last())
        }
    }

    /// The weights with one more variable, at the least significant bit.
    pub open spec fn eq_step(self, t: Seq<Seq<bool>>, x: Seq<bool>) -> Seq<Seq<bool>> {
        Seq::new(
            2 * t.len(),
            |j: int|
                if j % 2 == 0 {
                    self.sum(t[j / 2], self.mul(t[j / 2], x))
                } else {
                    self.mul(t[j / 2], x)
                },
        )
    }

    /// The multilinear extension of the table `p` at `r`: `sum_j p_j eq(r, j)`.
    pub open spec fn mle(self, p: Seq<Seq<bool>>, r: Seq<Seq<bool>>) -> Seq<bool> {
        self.dot(p, self.eq(r))
    }

    /// The table with its most significant variable fixed at `x`.
    pub open spec fn fold(self, p: Seq<Seq<bool>>, x: Seq<bool>) -> Seq<Seq<bool>> {
        Seq::new(
            p.len() / 2,
            |j: int|
                self.sum(p[j], self.mul(x, self.sum(p[j], p[j + (p.len() / 2) as int]))),
        )
    }

    /// The value at 0 of the round polynomial of `sum_j a_j p_j`.
    pub open spec fn at_zero(self, a: Seq<Seq<bool>>, p: Seq<Seq<bool>>, half: nat) -> Seq<bool> {
        self.dot_to(a, p, half)
    }

    /// The leading coefficient of the round polynomial of `sum_j a_j p_j`.
    pub open spec fn at_inf(self, a: Seq<Seq<bool>>, p: Seq<Seq<bool>>, half: nat) -> Seq<bool> {
        self.total(
            |j: int| self.mul(self.sum(a[j], a[j + half]), self.sum(p[j], p[j + half])),
            half,
        )
    }

    /// The value at `r` of the round polynomial with `e0` at 0, leading coefficient `einf`, and
    /// the values at 0 and 1 summing to `s`.
    pub open spec fn round_at(
        self,
        s: Seq<bool>,
        e0: Seq<bool>,
        einf: Seq<bool>,
        r: Seq<bool>,
    ) -> Seq<bool> {
        let e1 = self.sum(s, e0);
        self.sum(
            self.sum(e0, self.mul(r, self.sum(self.sum(e0, e1), einf))),
            self.mul(self.mul(r, r), einf),
        )
    }

    /// The table with its `k` most significant variables fixed at the first `k` entries of `rs`.
    pub open spec fn folded(self, p: Seq<Seq<bool>>, rs: Seq<Seq<bool>>, k: nat) -> Seq<Seq<bool>>
        decreases k,
    {
        if k == 0 {
            p
        } else {
            self.fold(self.folded(p, rs, (k - 1) as nat), rs[k - 1])
        }
    }

    /// The message of round `k` of the sumcheck for `sum_j a_j p_j` with challenges `rs`.
    pub open spec fn message(
        self,
        a: Seq<Seq<bool>>,
        p: Seq<Seq<bool>>,
        rs: Seq<Seq<bool>>,
        k: nat,
    ) -> (Seq<bool>, Seq<bool>) {
        let (x, y) = (self.folded(a, rs, k), self.folded(p, rs, k));
        (self.at_zero(x, y, x.len() / 2), self.at_inf(x, y, x.len() / 2))
    }

    /// The claim that the verifier holds after `k` rounds with messages `ms`, starting from `s`.
    pub open spec fn run(
        self,
        s: Seq<bool>,
        ms: Seq<(Seq<bool>, Seq<bool>)>,
        rs: Seq<Seq<bool>>,
        k: nat,
    ) -> Seq<bool>
        decreases k,
    {
        if k == 0 {
            s
        } else {
            self.round_at(
                self.run(s, ms, rs, (k - 1) as nat),
                ms[k - 1].0,
                ms[k - 1].1,
                rs[k - 1],
            )
        }
    }

    /// `sum_{k < n} x_k w_k` for bits `x_k`.
    pub open spec fn pick(self, x: Seq<bool>, w: Seq<Seq<bool>>, n: nat) -> Seq<bool> {
        self.total(|k: int| self.scale(x[k], w[k]), n)
    }

    /// `sum_{j < n} e_j[k] x_j`: coordinate `k` of the tensor `sum_j x_j (x) e_j`.
    pub open spec fn slice(
        self,
        e: Seq<Seq<bool>>,
        x: Seq<Seq<bool>>,
        k: int,
        n: nat,
    ) -> Seq<bool> {
        self.total(|j: int| self.scale(e[j][k], x[j]), n)
    }

    /// `sum_{i >= k} h_i X^(i - k) e`, by Horner's rule from the top coefficient down.
    pub open spec fn horner(self, e: Seq<bool>, h: Seq<bool>, k: nat) -> Seq<bool>
        decreases self.deg - k,
    {
        if k >= self.deg {
            self.zero()
        } else {
            self.sum(self.xtime(self.horner(e, h, k + 1)), self.scale(h[k as int], e))
        }
    }

    // ---------------------------------------------------------------------------------------
    // sums
    // ---------------------------------------------------------------------------------------

    pub proof fn total_elem(self, f: spec_fn(int) -> Seq<bool>, k: nat)
        ensures
            self.elem(self.total(f, k)),
    {
    }

    pub proof fn total_ext(
        self,
        f: spec_fn(int) -> Seq<bool>,
        h: spec_fn(int) -> Seq<bool>,
        k: nat,
    )
        requires
            forall|i: int| 0 <= i < k ==> #[trigger] f(i) == h(i),
        ensures
            self.total(f, k) == self.total(h, k),
        decreases k,
    {
        if k > 0 {
            self.total_ext(f, h, (k - 1) as nat);
            assert(f(k - 1) == h(k - 1));
        }
    }

    /// A sum of sums is the sum of the two totals.
    pub proof fn total_sum(
        self,
        f: spec_fn(int) -> Seq<bool>,
        h: spec_fn(int) -> Seq<bool>,
        k: nat,
    )
        ensures
            self.total(|i: int| self.sum(f(i), h(i)), k) == self.sum(
                self.total(f, k),
                self.total(h, k),
            ),
        decreases k,
    {
        if k == 0 {
            self.sum_self(self.zero());
        } else {
            let j = (k - 1) as nat;
            self.total_sum(f, h, j);
            self.sum_swap(self.total(f, j), self.total(h, j), f(k - 1), h(k - 1));
        }
    }

    /// A common factor leaves the sum.
    pub proof fn total_mul(self, x: Seq<bool>, f: spec_fn(int) -> Seq<bool>, k: nat)
        requires
            self.deg > 0,
            self.elem(x),
        ensures
            self.total(|i: int| self.mul(x, f(i)), k) == self.mul(x, self.total(f, k)),
        decreases k,
    {
        if k == 0 {
            self.mul_zero(x);
        } else {
            let j = (k - 1) as nat;
            self.total_mul(x, f, j);
            self.mul_sum_right(x, self.total(f, j), f(k - 1));
        }
    }

    pub proof fn total_zero(self, k: nat)
        ensures
            self.total(|i: int| self.zero(), k) == self.zero(),
        decreases k,
    {
        if k > 0 {
            self.total_zero((k - 1) as nat);
            self.sum_self(self.zero());
        }
    }

    /// The sum over `m + k` indices is the sum over the first `m` and the sum over the next `k`.
    pub proof fn total_split(self, f: spec_fn(int) -> Seq<bool>, m: nat, k: nat)
        ensures
            self.total(f, m + k) == self.sum(
                self.total(f, m),
                self.total(|i: int| f(m + i), k),
            ),
        decreases k,
    {
        let h = |i: int| f(m + i);
        if k == 0 {
            self.sum_zero(self.total(f, m));
        } else {
            let j = (k - 1) as nat;
            self.total_split(f, m, j);
            self.sum_assoc(self.total(f, m), self.total(h, j), h(k - 1));
            assert(h(k - 1) == f(m + k - 1));
        }
    }

    /// Two sums change places.
    pub proof fn total_exchange(
        self,
        f: spec_fn(int, int) -> Seq<bool>,
        n: nat,
        m: nat,
    )
        ensures
            self.total(|i: int| self.total(|j: int| f(i, j), m), n) == self.total(
                |j: int| self.total(|i: int| f(i, j), n),
                m,
            ),
        decreases n,
    {
        let row = |i: int| self.total(|j: int| f(i, j), m);
        let col = |j: int| self.total(|i: int| f(i, j), n);
        if n == 0 {
            let z = |j: int| self.zero();
            self.total_zero(m);
            self.total_ext(col, z, m);
        } else {
            let i = (n - 1) as nat;
            self.total_exchange(f, i, m);
            let low = |j: int| self.total(|i: int| f(i, j), i);
            let last = |j: int| f(n - 1, j);
            let both = |j: int| self.sum(low(j), last(j));
            self.total_sum(low, last, m);
            assert forall|j: int| 0 <= j < m implies #[trigger] col(j) == both(j) by {
                let g = |i: int| f(i, j);
                assert(self.total(g, n) == self.sum(self.total(g, i), g(n - 1)));
            }
            self.total_ext(col, both, m);
            self.total_ext(last, |j: int| f(n - 1, j), m);
            assert(self.total(row, n) == self.sum(self.total(row, i), row(n - 1)));
            assert(row(n - 1) == self.total(last, m));
        }
    }

    /// A sum over `2 n` indices by pairs.
    pub proof fn total_pairs(self, f: spec_fn(int) -> Seq<bool>, n: nat)
        ensures
            self.total(f, 2 * n) == self.total(|j: int| self.sum(f(2 * j), f(2 * j + 1)), n),
        decreases n,
    {
        if n > 0 {
            let m = (n - 1) as nat;
            self.total_pairs(f, m);
            assert(self.total(f, 2 * n) == self.sum(self.total(f, (2 * n - 1) as nat), f(2 * n - 1)));
            assert(self.total(f, (2 * n - 1) as nat) == self.sum(
                self.total(f, 2 * m),
                f(2 * n - 2),
            ));
            self.sum_assoc(self.total(f, 2 * m), f(2 * n - 2), f(2 * n - 1));
            assert(2 * (n - 1) + 1 == 2 * n - 1);
        }
    }

    /// A bit passes through a product.
    pub proof fn scale_mul(self, b: bool, x: Seq<bool>, y: Seq<bool>)
        requires
            self.deg > 0,
        ensures
            self.mul(self.scale(b, x), y) == self.scale(b, self.mul(x, y)),
            self.mul(x, self.scale(b, y)) == self.scale(b, self.mul(x, y)),
    {
        self.mul_zero(x);
        self.mul_zero(y);
    }

    /// Horner's rule gives the product.
    pub proof fn horner_mul(self, e: Seq<bool>, h: Seq<bool>)
        requires
            self.deg > 0,
            self.elem(e),
        ensures
            self.horner(e, h, 0) == self.mul(e, h),
    {
        self.horner_split(e, h, 0);
        self.sum_zero(self.horner(e, h, 0));
    }

    proof fn horner_split(self, e: Seq<bool>, h: Seq<bool>, k: nat)
        requires
            self.deg > 0,
            self.elem(e),
            k <= self.deg,
        ensures
            self.sum(self.shl(self.horner(e, h, k), k), self.mul_to(e, h, k)) == self.mul(e, h),
        decreases self.deg - k,
    {
        if k == self.deg {
            self.shl_zero(k);
            self.mul_elem(e, h);
            self.sum_zero(self.mul(e, h));
        } else {
            let next = self.horner(e, h, k + 1);
            let low = self.mul_to(e, h, k);
            let term = self.scale(h[k as int], self.shl(e, k));
            self.horner_split(e, h, k + 1);
            self.shl_sum(self.xtime(next), self.scale(h[k as int], e), k);
            self.shl_shl(next, 1, k);
            assert(self.shl(next, 1) == self.xtime(next)) by {
                reveal_with_fuel(Gf::shl, 2);
            }
            self.shl_zero(k);
            let top = self.shl(next, k + 1);
            assert(self.shl(self.horner(e, h, k), k) == self.sum(top, term));
            assert(self.mul_to(e, h, k + 1) == self.sum(low, term));
            assert(self.sum(self.sum(top, term), low) =~= self.sum(top, self.sum(low, term)));
        }
    }

    /// The tensor with every second factor multiplied by `X`.
    pub proof fn slice_shift(
        self,
        g: Gf,
        e: Seq<Seq<bool>>,
        u: Seq<Seq<bool>>,
        x: Seq<Seq<bool>>,
        k: int,
        n: nat,
    )
        requires
            self.elems(x),
            n <= x.len(),
            0 <= k < g.deg,
            forall|j: int| 0 <= j < n ==> #[trigger] u[j] == g.xtime(e[j]),
        ensures
            self.slice(u, x, k, n) == self.sum(
                if k > 0 {
                    self.slice(e, x, k - 1, n)
                } else {
                    self.zero()
                },
                if g.taps.contains(k) {
                    self.slice(e, x, g.deg - 1, n)
                } else {
                    self.zero()
                },
            ),
        decreases n,
    {
        if n == 0 {
            self.sum_self(self.zero());
        } else {
            let m = (n - 1) as nat;
            let j = n - 1;
            self.slice_shift(g, e, u, x, k, m);
            let lo = if k > 0 {
                self.slice(e, x, k - 1, m)
            } else {
                self.zero()
            };
            let hi = if g.taps.contains(k) {
                self.slice(e, x, g.deg - 1, m)
            } else {
                self.zero()
            };
            let lo1 = self.scale(k > 0 && e[j][k - 1], x[j]);
            let hi1 = self.scale(e[j][g.deg - 1] && g.taps.contains(k), x[j]);
            assert(u[j] == g.xtime(e[j]));
            assert(self.elem(x[j]));
            assert(self.scale(u[j][k], x[j]) =~= self.sum(lo1, hi1));
            self.sum_swap(lo, hi, lo1, hi1);
            self.sum_zero(self.zero());
        }
    }

    /// The tensor is linear in its second factor.
    pub proof fn slice_sum_left(
        self,
        g: Gf,
        d: Seq<Seq<bool>>,
        e: Seq<Seq<bool>>,
        u: Seq<Seq<bool>>,
        x: Seq<Seq<bool>>,
        k: int,
        n: nat,
    )
        requires
            self.elems(x),
            n <= x.len(),
            0 <= k < g.deg,
            forall|j: int| 0 <= j < n ==> #[trigger] u[j] == g.sum(d[j], e[j]),
        ensures
            self.slice(u, x, k, n) == self.sum(self.slice(d, x, k, n), self.slice(e, x, k, n)),
        decreases n,
    {
        if n == 0 {
            self.sum_self(self.zero());
        } else {
            let m = (n - 1) as nat;
            let j = n - 1;
            self.slice_sum_left(g, d, e, u, x, k, m);
            assert(u[j] == g.sum(d[j], e[j]));
            assert(self.elem(x[j]));
            let (a, b) = (self.scale(d[j][k], x[j]), self.scale(e[j][k], x[j]));
            assert(self.scale(u[j][k], x[j]) =~= self.sum(a, b));
            self.sum_swap(self.slice(d, x, k, m), self.slice(e, x, k, m), a, b);
        }
    }

    // ---------------------------------------------------------------------------------------
    // the equality weights
    // ---------------------------------------------------------------------------------------

    pub proof fn eq_shape(self, r: Seq<Seq<bool>>)
        requires
            self.deg > 0,
            self.elems(r),
        ensures
            self.eq(r).len() == pow2(r.len()),
            self.elems(self.eq(r)),
        decreases r.len(),
    {
        lemma2_to64();
        if r.len() == 0 {
        } else {
            self.eq_shape(r.drop_last());
            lemma_pow2_unfold(r.len());
            let t = self.eq(r.drop_last());
            assert forall|j: int| 0 <= j < self.eq(r).len() implies self.elem(
                #[trigger] self.eq(r)[j],
            ) by {
                self.mul_elem(t[j / 2], r.last());
            }
        }
    }

    /// The first coordinate is the most significant bit of the index: the lower half of the
    /// weights carries the factor `1 + x`, the upper half the factor `x`.
    pub proof fn eq_first(self, x: Seq<bool>, r: Seq<Seq<bool>>)
        requires
            self.deg > 0,
            self.elem(x),
            self.elems(r),
        ensures
            self.eq(seq![x] + r).len() == 2 * self.eq(r).len(),
            forall|j: int|
                #![trigger self.eq(seq![x] + r)[j]]
                0 <= j < 2 * self.eq(r).len() ==> self.eq(seq![x] + r)[j] == (if j < self.eq(
                    r,
                ).len() {
                    self.sum(self.eq(r)[j], self.mul(self.eq(r)[j], x))
                } else {
                    self.mul(self.eq(r)[j - self.eq(r).len()], x)
                }),
        decreases r.len(),
    {
        let s = seq![x] + r;
        if r.len() == 0 {
            assert(s.drop_last() =~= Seq::<Seq<bool>>::empty());
            assert(s.last() == x);
            assert(r =~= Seq::<Seq<bool>>::empty());
        } else {
            let q = r.drop_last();
            let y = r.last();
            assert(s.drop_last() =~= seq![x] + q);
            assert(s.last() == y);
            self.eq_first(x, q);
            self.eq_shape(q);
            let t = self.eq(q);
            let u = self.eq(seq![x] + q);
            let n = t.len();
            assert forall|j: int| 0 <= j < 2 * self.eq(r).len() implies #[trigger] self.eq(s)[j]
                == (if j < self.eq(r).len() {
                self.sum(self.eq(r)[j], self.mul(self.eq(r)[j], x))
            } else {
                self.mul(self.eq(r)[j - self.eq(r).len()], x)
            }) by {
                let i = j / 2;
                assert(self.eq(r).len() == 2 * n);
                if j < 2 * n {
                    let w = t[i];
                    assert(u[i] == self.sum(w, self.mul(w, x)));
                    self.mul_sum_left(w, self.mul(w, x), y);
                    self.mul_swap(w, x, y);
                    self.mul_sum_left(w, self.mul(w, y), x);
                    self.sum_swap(w, self.mul(w, x), self.mul(w, y), self.mul(self.mul(w, x), y));
                } else {
                    let w = t[i - n];
                    assert(u[i] == self.mul(w, x));
                    self.mul_swap(w, x, y);
                    self.mul_sum_left(w, self.mul(w, y), x);
                    assert((j - 2 * n) / 2 == i - n);
                    assert((j - 2 * n) % 2 == j % 2);
                }
            }
        }
    }

    /// `(a b) c = (a c) b`.
    pub proof fn mul_swap(self, a: Seq<bool>, b: Seq<bool>, c: Seq<bool>)
        requires
            self.deg > 0,
            self.elem(a),
            self.elem(b),
            self.elem(c),
        ensures
            self.mul(self.mul(a, b), c) == self.mul(self.mul(a, c), b),
    {
        self.mul_assoc(a, b, c);
        self.mul_comm(b, c);
        self.mul_assoc(a, c, b);
    }

    /// The weights at two points joined: index `i + 2^b.len() j` carries `eq(a, j) eq(b, i)`.
    pub proof fn eq_join(self, a: Seq<Seq<bool>>, b: Seq<Seq<bool>>, j: int, i: int)
        requires
            self.deg > 0,
            self.elems(a),
            self.elems(b),
            0 <= j < pow2(a.len()),
            0 <= i < pow2(b.len()),
        ensures
            0 <= i + pow2(b.len()) * j < pow2(a.len() + b.len()),
            self.eq(a + b).len() == pow2(a.len() + b.len()),
            self.eq(a + b)[i + pow2(b.len()) * j] == self.mul(self.eq(a)[j], self.eq(b)[i]),
        decreases b.len(),
    {
        lemma_pow2_adds(a.len(), b.len());
        let (n, m) = (pow2(b.len()) as int, pow2(a.len()) as int);
        assert(0 <= n * j && i + n * j < m * n) by (nonlinear_arith)
            requires
                0 <= i < n,
                0 <= j < m,
        ;
        assert forall|k: int| 0 <= k < (a + b).len() implies self.elem(#[trigger] (a + b)[k]) by {}
        self.eq_shape(a + b);
        self.eq_shape(a);
        self.eq_shape(b);
        if b.len() == 0 {
            lemma2_to64();
            assert(a + b =~= a);
            assert(n * j == j) by (nonlinear_arith)
                requires
                    n == 1,
            ;
            self.mul_one(self.eq(a)[j]);
        } else {
            let c = b.drop_last();
            let x = b.last();
            assert((a + b).drop_last() =~= a + c);
            assert((a + b).last() == x);
            lemma_pow2_unfold(b.len());
            let h = pow2(c.len()) as int;
            self.eq_join(a, c, j, i / 2);
            let k = i + n * j;
            assert(k / 2 == i / 2 + h * j && k % 2 == i % 2) by {
                assert(n * j == 2 * (h * j)) by (nonlinear_arith)
                    requires
                        n == 2 * h,
                ;
            }
            let (u, v) = (self.eq(a)[j], self.eq(c)[i / 2]);
            self.eq_shape(c);
            self.mul_assoc(u, v, x);
            self.mul_elem(v, x);
            self.mul_sum_right(u, v, self.mul(v, x));
            let w = self.eq(a + c)[k / 2];
            assert(w == self.mul(u, v));
            assert(self.eq(a + b)[k] == (if k % 2 == 0 {
                self.sum(w, self.mul(w, x))
            } else {
                self.mul(w, x)
            }));
        }
    }

    /// A sum over `n m` indices by blocks of `n`.
    pub proof fn total_blocks(self, f: spec_fn(int) -> Seq<bool>, n: nat, m: nat)
        ensures
            self.total(f, n * m) == self.total(
                |j: int| self.total(|i: int| f(i + n * j), n),
                m,
            ),
        decreases m,
    {
        if m == 0 {
            assert(n * m == 0) by (nonlinear_arith)
                requires
                    m == 0,
            ;
        } else {
            let k = (m - 1) as nat;
            self.total_blocks(f, n, k);
            assert(n * m == n * k + n) by (nonlinear_arith)
                requires
                    m == k + 1,
            ;
            self.total_split(f, n * k, n);
            let block = |j: int| self.total(|i: int| f(i + n * j), n);
            self.total_ext(|i: int| f((n * k) + i), |i: int| f(i + n * k as int), n);
            assert(self.total(block, m) == self.sum(self.total(block, k), block(k as int)));
        }
    }

    /// Folding fixes the most significant variable of a multilinear extension.
    pub proof fn mle_fold(self, p: Seq<Seq<bool>>, x: Seq<bool>, r: Seq<Seq<bool>>)
        requires
            self.deg > 0,
            self.elem(x),
            self.elems(r),
            self.elems(p),
            p.len() == 2 * self.eq(r).len(),
        ensures
            self.mle(p, seq![x] + r) == self.mle(self.fold(p, x), r),
    {
        let e = self.eq(r);
        let n = e.len();
        let big = self.eq(seq![x] + r);
        let q = self.fold(p, x);
        self.eq_first(x, r);
        self.eq_shape(r);
        let f = |i: int| self.mul(p[i], big[i]);
        let up = |i: int| f(n + i);
        let h = |i: int| self.mul(q[i], e[i]);
        self.total_split(f, n, n);
        self.total_sum(f, up, n);
        let both = |i: int| self.sum(f(i), up(i));
        assert forall|i: int| 0 <= i < n implies #[trigger] both(i) == h(i) by {
            let (a, b, w) = (p[i], p[n + i], e[i]);
            assert(big[i] == self.sum(w, self.mul(w, x)));
            assert(big[n + i] == self.mul(w, x));
            assert(q[i] == self.sum(a, self.mul(x, self.sum(a, b))));
            let wx = self.mul(w, x);
            self.mul_elem(w, x);
            // a (w + wx) + b wx = a w + (a + b) wx
            self.mul_sum_right(a, w, wx);
            self.mul_sum_left(a, b, wx);
            self.sum_assoc(self.mul(a, w), self.mul(a, wx), self.mul(b, wx));
            // (a + x (a + b)) w = a w + (a + b) wx
            let c = self.sum(a, b);
            self.mul_sum_left(a, self.mul(x, c), w);
            self.mul_comm(x, c);
            self.mul_assoc(c, x, w);
            self.mul_comm(x, w);
        }
        self.total_ext(both, h, n);
        assert(self.dot(p, big) == self.total(f, n + n));
        assert(self.dot(q, e) == self.total(h, n));
    }

    // ---------------------------------------------------------------------------------------
    // sumcheck
    // ---------------------------------------------------------------------------------------

    /// `(a0 + r (a0 + a1)) (p0 + r (p0 + p1))` as a polynomial in `r`.
    proof fn round_term(
        self,
        a0: Seq<bool>,
        a1: Seq<bool>,
        p0: Seq<bool>,
        p1: Seq<bool>,
        r: Seq<bool>,
    )
        requires
            self.deg > 0,
            self.elem(a0),
            self.elem(a1),
            self.elem(p0),
            self.elem(p1),
            self.elem(r),
        ensures
            ({
                let (f0, f1) = (self.mul(a0, p0), self.mul(a1, p1));
                let c = self.sum(a0, a1);
                let d = self.sum(p0, p1);
                let finf = self.mul(c, d);
                self.mul(self.sum(a0, self.mul(r, c)), self.sum(p0, self.mul(r, d))) == self.sum(
                    self.sum(f0, self.mul(r, self.sum(self.sum(f0, f1), finf))),
                    self.mul(self.mul(r, r), finf),
                )
            }),
    {
        let (f0, f1) = (self.mul(a0, p0), self.mul(a1, p1));
        let c = self.sum(a0, a1);
        let d = self.sum(p0, p1);
        let (rc, rd) = (self.mul(r, c), self.mul(r, d));
        let finf = self.mul(c, d);
        self.mul_elem(r, c);
        self.mul_elem(r, d);
        self.mul_elem(c, d);
        let right = self.sum(p0, rd);
        self.mul_sum_left(a0, rc, right);
        self.mul_sum_right(a0, p0, rd);
        self.mul_sum_right(rc, p0, rd);
        // a0 (r d) = r (a0 d), (r c) p0 = r (c p0), (r c) (r d) = (r r) (c d)
        self.mul_comm(a0, rd);
        self.mul_assoc(r, d, a0);
        self.mul_comm(d, a0);
        self.mul_assoc(r, c, p0);
        self.mul_assoc(rc, r, d);
        self.mul_swap(r, c, r);
        self.mul_elem(r, r);
        self.mul_assoc(self.mul(r, r), c, d);
        let (ad, cp) = (self.mul(a0, d), self.mul(c, p0));
        self.mul_sum_right(r, ad, cp);
        // a0 d + c p0 = f0 + f1 + finf
        self.mul_sum_left(a0, a1, d);
        self.mul_sum_right(a1, p0, p1);
        self.mul_sum_left(a0, a1, p0);
        self.mul_elem(a0, d);
        self.mul_elem(a0, p0);
        self.mul_elem(a1, p0);
        self.mul_elem(a1, p1);
        self.mul_elem(c, p0);
        assert(self.sum(ad, cp) =~= self.sum(self.sum(f0, f1), finf));
        let (rad, rcp) = (self.mul(r, ad), self.mul(r, cp));
        let last = self.mul(self.mul(r, r), finf);
        assert(self.sum(self.sum(f0, rad), self.sum(rcp, last)) =~= self.sum(
            self.sum(f0, self.sum(rad, rcp)),
            last,
        ));
    }

    /// One round of the sumcheck for `s = sum_j a_j p_j`: the value that the round polynomial
    /// takes at `r` is the sum over the folded tables.
    pub proof fn sumcheck_round(
        self,
        a: Seq<Seq<bool>>,
        p: Seq<Seq<bool>>,
        half: nat,
        r: Seq<bool>,
    )
        requires
            self.deg > 0,
            self.elems(a),
            self.elems(p),
            self.elem(r),
            a.len() == 2 * half,
            p.len() == 2 * half,
        ensures
            self.dot(self.fold(a, r), self.fold(p, r)) == self.round_at(
                self.dot(a, p),
                self.at_zero(a, p, half),
                self.at_inf(a, p, half),
                r,
            ),
    {
        let f = |j: int| self.mul(a[j], p[j]);
        let f1 = |j: int| f(half + j);
        let finf = |j: int| self.mul(self.sum(a[j], a[j + half]), self.sum(p[j], p[j + half]));
        let f01 = |j: int| self.sum(f(j), f1(j));
        let mid = |j: int| self.sum(f01(j), finf(j));
        let rmid = |j: int| self.mul(r, mid(j));
        let low = |j: int| self.sum(f(j), rmid(j));
        let rr = self.mul(r, r);
        let high = |j: int| self.mul(rr, finf(j));
        let all = |j: int| self.sum(low(j), high(j));
        let (fa, fp) = (self.fold(a, r), self.fold(p, r));
        let g = |j: int| self.mul(fa[j], fp[j]);
        assert forall|j: int| 0 <= j < half implies #[trigger] g(j) == all(j) by {
            self.round_term(a[j], a[j + half], p[j], p[j + half], r);
            assert(fa[j] == self.sum(a[j], self.mul(r, self.sum(a[j], a[j + half]))));
            assert(fp[j] == self.sum(p[j], self.mul(r, self.sum(p[j], p[j + half]))));
            assert(f1(j) == self.mul(a[j + half], p[j + half]));
        }
        self.mul_elem(r, r);
        self.total_ext(g, all, half);
        self.total_sum(low, high, half);
        self.total_sum(f, rmid, half);
        self.total_mul(r, mid, half);
        self.total_mul(rr, finf, half);
        self.total_sum(f01, finf, half);
        self.total_sum(f, f1, half);
        self.total_split(f, half, half);
        let (s, e0, einf) = (self.dot(a, p), self.at_zero(a, p, half), self.at_inf(a, p, half));
        assert(s == self.total(f01, half));
        assert(einf == self.total(finf, half));
        assert(e0 == self.total(f, half));
        self.total_elem(f01, half);
        self.total_elem(finf, half);
        assert(self.sum(self.sum(e0, self.sum(s, e0)), einf) =~= self.sum(s, einf));
        assert(self.dot(fa, fp) == self.total(g, half));
    }

    pub proof fn folded_shape(self, p: Seq<Seq<bool>>, rs: Seq<Seq<bool>>, k: nat)
        requires
            self.elems(p),
            p.len() == pow2(rs.len()),
            k <= rs.len(),
        ensures
            self.elems(self.folded(p, rs, k)),
            self.folded(p, rs, k).len() == pow2((rs.len() - k) as nat),
        decreases k,
    {
        if k > 0 {
            self.folded_shape(p, rs, (k - 1) as nat);
            lemma_pow2_unfold((rs.len() - k + 1) as nat);
        }
    }

    /// Fixing all the variables gives the multilinear extension.
    pub proof fn folded_mle(self, p: Seq<Seq<bool>>, rs: Seq<Seq<bool>>, k: nat)
        requires
            self.deg > 0,
            self.elems(p),
            self.elems(rs),
            p.len() == pow2(rs.len()),
            k <= rs.len(),
        ensures
            self.mle(self.folded(p, rs, k), rs.skip(k as int)) == self.mle(p, rs),
            k == rs.len() ==> self.folded(p, rs, k)[0] == self.mle(p, rs),
        decreases k,
    {
        if k == 0 {
            assert(rs.skip(0) =~= rs);
        } else {
            let j = (k - 1) as nat;
            self.folded_mle(p, rs, j);
            self.folded_shape(p, rs, j);
            lemma_pow2_unfold((rs.len() - j) as nat);
            let rest = rs.skip(k as int);
            assert(rs.skip(j as int) =~= seq![rs[j as int]] + rest);
            self.eq_shape(rest);
            self.mle_fold(self.folded(p, rs, j), rs[j as int], rest);
        }
        if k == rs.len() {
            let q = self.folded(p, rs, k);
            self.folded_shape(p, rs, k);
            lemma2_to64();
            let e = self.eq(rs.skip(k as int));
            assert(e == seq![self.one()]);
            let f = |i: int| self.mul(q[i], e[i]);
            assert(self.total(f, 1) == self.sum(self.total(f, 0), f(0)));
            assert(self.total(f, 0) == self.zero());
            self.mul_one(q[0]);
            self.sum_zero(q[0]);
        }
    }

    /// The sumcheck for `s = sum_j a_j p_j` with honest messages: after `k` rounds the verifier
    /// holds the sum over the folded tables.
    pub proof fn run_honest(
        self,
        a: Seq<Seq<bool>>,
        p: Seq<Seq<bool>>,
        ms: Seq<(Seq<bool>, Seq<bool>)>,
        rs: Seq<Seq<bool>>,
        k: nat,
    )
        requires
            self.deg > 0,
            self.elems(a),
            self.elems(p),
            self.elems(rs),
            a.len() == pow2(rs.len()),
            p.len() == pow2(rs.len()),
            k <= rs.len(),
            forall|i: int| 0 <= i < k ==> #[trigger] ms[i] == self.message(a, p, rs, i as nat),
        ensures
            self.run(self.dot(a, p), ms, rs, k) == self.dot(
                self.folded(a, rs, k),
                self.folded(p, rs, k),
            ),
        decreases k,
    {
        if k > 0 {
            let j = (k - 1) as nat;
            self.run_honest(a, p, ms, rs, j);
            self.folded_shape(a, rs, j);
            self.folded_shape(p, rs, j);
            lemma_pow2_unfold((rs.len() - j) as nat);
            assert(ms[j as int] == self.message(a, p, rs, j));
            let (x, y) = (self.folded(a, rs, j), self.folded(p, rs, j));
            self.sumcheck_round(x, y, x.len() / 2, rs[j as int]);
        }
    }

    /// The sumcheck for `s = sum_j a_j p_j` is complete: with honest messages the verifier ends
    /// on the product of the two multilinear extensions at the challenges.
    pub proof fn sumcheck_complete(
        self,
        a: Seq<Seq<bool>>,
        p: Seq<Seq<bool>>,
        ms: Seq<(Seq<bool>, Seq<bool>)>,
        rs: Seq<Seq<bool>>,
    )
        requires
            self.deg > 0,
            self.elems(a),
            self.elems(p),
            self.elems(rs),
            a.len() == pow2(rs.len()),
            p.len() == pow2(rs.len()),
            ms.len() == rs.len(),
            forall|i: int|
                0 <= i < ms.len() ==> #[trigger] ms[i] == self.message(a, p, rs, i as nat),
        ensures
            self.run(self.dot(a, p), ms, rs, rs.len()) == self.mul(self.mle(a, rs), self.mle(p, rs)),
    {
        let n = rs.len();
        self.run_honest(a, p, ms, rs, n);
        self.folded_mle(a, rs, n);
        self.folded_mle(p, rs, n);
        self.folded_shape(a, rs, n);
        self.folded_shape(p, rs, n);
        lemma2_to64();
        let (x, y) = (self.folded(a, rs, n), self.folded(p, rs, n));
        let f = |i: int| self.mul(x[i], y[i]);
        assert(self.total(f, 1) == self.sum(self.total(f, 0), f(0)));
        assert(self.total(f, 0) == self.zero());
        self.mul_elem(x[0], y[0]);
        self.sum_zero(self.mul(x[0], y[0]));
    }
}

/// The coefficients of each element.
pub open spec fn views(s: Seq<F162>) -> Seq<Seq<bool>> {
    Seq::new(s.len(), |i: int| s[i]@)
}

/// The coefficients of each element.
pub open spec fn words(s: Seq<B128>) -> Seq<Seq<bool>> {
    Seq::new(s.len(), |i: int| s[i]@)
}

/// Every element is well formed.
pub open spec fn all_wf(s: Seq<F162>) -> bool {
    forall|i: int| 0 <= i < s.len() ==> (#[trigger] s[i]).wf()
}

} // verus!
