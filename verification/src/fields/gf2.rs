//! Quotient rings of `GF(2)[X]` over bit sequences, and their ring laws.
//!
//! An element is the sequence of its coefficients, constant term first. A ring is given by its
//! degree `n` and by the set of exponents `t < n` with `X^n = sum_t X^t`.
use vstd::prelude::*;

verus! {

/// The ring `GF(2)[X]/(X^deg + sum_{t in taps} X^t)`.
pub struct Gf {
    pub deg: nat,
    pub taps: Set<int>,
}

impl Gf {
    /// `a` is the coefficient sequence of an element.
    pub open spec fn elem(self, a: Seq<bool>) -> bool {
        a.len() == self.deg
    }

    pub open spec fn zero(self) -> Seq<bool> {
        Seq::new(self.deg, |i: int| false)
    }

    /// `X^k` for `k < deg`.
    pub open spec fn monomial(self, k: int) -> Seq<bool> {
        Seq::new(self.deg, |i: int| i == k)
    }

    pub open spec fn one(self) -> Seq<bool> {
        self.monomial(0)
    }

    /// The sum, coefficient by coefficient.
    pub open spec fn sum(self, a: Seq<bool>, b: Seq<bool>) -> Seq<bool> {
        Seq::new(self.deg, |i: int| a[i] != b[i])
    }

    /// `b a` for a bit `b`.
    pub open spec fn scale(self, b: bool, a: Seq<bool>) -> Seq<bool> {
        if b {
            a
        } else {
            self.zero()
        }
    }

    /// `X a`: the coefficients move up one place and the one that leaves comes back at the taps.
    pub open spec fn xtime(self, a: Seq<bool>) -> Seq<bool> {
        Seq::new(
            self.deg,
            |i: int| (i > 0 && a[i - 1]) != (a[self.deg - 1] && self.taps.contains(i)),
        )
    }

    /// `X^k a`.
    pub open spec fn shl(self, a: Seq<bool>, k: nat) -> Seq<bool>
        decreases k,
    {
        if k == 0 {
            a
        } else {
            self.xtime(self.shl(a, (k - 1) as nat))
        }
    }

    /// `sum_{i < k} b_i X^i a`.
    pub open spec fn mul_to(self, a: Seq<bool>, b: Seq<bool>, k: nat) -> Seq<bool>
        decreases k,
    {
        if k == 0 {
            self.zero()
        } else {
            self.sum(
                self.mul_to(a, b, (k - 1) as nat),
                self.scale(b[k - 1], self.shl(a, (k - 1) as nat)),
            )
        }
    }

    /// The product `a b = sum_i b_i X^i a`.
    pub open spec fn mul(self, a: Seq<bool>, b: Seq<bool>) -> Seq<bool> {
        self.mul_to(a, b, self.deg)
    }

    /// The first `k` coefficients of `a`, the others zero.
    pub open spec fn low(self, a: Seq<bool>, k: int) -> Seq<bool> {
        Seq::new(self.deg, |i: int| i < k && a[i])
    }

    // ---------------------------------------------------------------------------------------
    // the additive group
    // ---------------------------------------------------------------------------------------

    /// Addition is commutative.
    pub proof fn sum_comm(self, a: Seq<bool>, b: Seq<bool>)
        ensures
            self.sum(a, b) == self.sum(b, a),
    {
        assert(self.sum(a, b) =~= self.sum(b, a));
    }

    /// Addition is associative.
    pub proof fn sum_assoc(self, a: Seq<bool>, b: Seq<bool>, c: Seq<bool>)
        ensures
            self.sum(self.sum(a, b), c) == self.sum(a, self.sum(b, c)),
    {
        assert(self.sum(self.sum(a, b), c) =~= self.sum(a, self.sum(b, c)));
    }

    /// Zero is neutral for addition.
    pub proof fn sum_zero(self, a: Seq<bool>)
        requires
            self.elem(a),
        ensures
            self.sum(a, self.zero()) == a,
            self.sum(self.zero(), a) == a,
    {
        assert(self.sum(a, self.zero()) =~= a);
        assert(self.sum(self.zero(), a) =~= a);
    }

    /// Every element is its own negative.
    pub proof fn sum_self(self, a: Seq<bool>)
        ensures
            self.sum(a, a) == self.zero(),
    {
        assert(self.sum(a, a) =~= self.zero());
    }

    /// `(a + b) + (c + d) = (a + c) + (b + d)`.
    pub proof fn sum_swap(self, a: Seq<bool>, b: Seq<bool>, c: Seq<bool>, d: Seq<bool>)
        ensures
            self.sum(self.sum(a, b), self.sum(c, d)) == self.sum(self.sum(a, c), self.sum(b, d)),
    {
        assert(self.sum(self.sum(a, b), self.sum(c, d)) =~= self.sum(
            self.sum(a, c),
            self.sum(b, d),
        ));
    }

    // ---------------------------------------------------------------------------------------
    // multiplication by X
    // ---------------------------------------------------------------------------------------

    pub proof fn xtime_sum(self, a: Seq<bool>, b: Seq<bool>)
        requires
            self.deg > 0,
        ensures
            self.xtime(self.sum(a, b)) == self.sum(self.xtime(a), self.xtime(b)),
    {
        assert(self.xtime(self.sum(a, b)) =~= self.sum(self.xtime(a), self.xtime(b)));
    }

    pub proof fn xtime_zero(self)
        requires
            self.deg > 0,
        ensures
            self.xtime(self.zero()) == self.zero(),
    {
        assert(self.xtime(self.zero()) =~= self.zero());
    }

    pub proof fn shl_elem(self, a: Seq<bool>, k: nat)
        requires
            self.elem(a),
        ensures
            self.elem(self.shl(a, k)),
        decreases k,
    {
        if k > 0 {
            self.shl_elem(a, (k - 1) as nat);
        }
    }

    pub proof fn shl_sum(self, a: Seq<bool>, b: Seq<bool>, k: nat)
        requires
            self.deg > 0,
        ensures
            self.shl(self.sum(a, b), k) == self.sum(self.shl(a, k), self.shl(b, k)),
        decreases k,
    {
        if k > 0 {
            self.shl_sum(a, b, (k - 1) as nat);
            self.xtime_sum(self.shl(a, (k - 1) as nat), self.shl(b, (k - 1) as nat));
        }
    }

    pub proof fn shl_zero(self, k: nat)
        requires
            self.deg > 0,
        ensures
            self.shl(self.zero(), k) == self.zero(),
        decreases k,
    {
        if k > 0 {
            self.shl_zero((k - 1) as nat);
            self.xtime_zero();
        }
    }

    pub proof fn shl_shl(self, a: Seq<bool>, j: nat, k: nat)
        ensures
            self.shl(self.shl(a, j), k) == self.shl(a, j + k),
        decreases k,
    {
        if k > 0 {
            self.shl_shl(a, j, (k - 1) as nat);
        }
    }

    proof fn shl_one(self, k: nat)
        requires
            k < self.deg,
        ensures
            self.shl(self.one(), k) == self.monomial(k as int),
        decreases k,
    {
        if k > 0 {
            self.shl_one((k - 1) as nat);
            assert(self.xtime(self.monomial(k - 1)) =~= self.monomial(k as int));
        }
    }

    // ---------------------------------------------------------------------------------------
    // the product
    // ---------------------------------------------------------------------------------------

    pub proof fn mul_to_elem(self, a: Seq<bool>, b: Seq<bool>, k: nat)
        ensures
            self.elem(self.mul_to(a, b, k)),
    {
    }

    pub proof fn mul_elem(self, a: Seq<bool>, b: Seq<bool>)
        ensures
            self.elem(self.mul(a, b)),
    {
    }

    proof fn mul_to_sum_left(self, a: Seq<bool>, b: Seq<bool>, c: Seq<bool>, k: nat)
        requires
            self.deg > 0,
        ensures
            self.mul_to(self.sum(a, b), c, k) == self.sum(
                self.mul_to(a, c, k),
                self.mul_to(b, c, k),
            ),
        decreases k,
    {
        if k == 0 {
            self.sum_self(self.zero());
        } else {
            let j = (k - 1) as nat;
            self.mul_to_sum_left(a, b, c, j);
            self.shl_sum(a, b, j);
            self.sum_self(self.zero());
            self.sum_swap(
                self.mul_to(a, c, j),
                self.mul_to(b, c, j),
                self.scale(c[k - 1], self.shl(a, j)),
                self.scale(c[k - 1], self.shl(b, j)),
            );
        }
    }

    proof fn mul_to_sum_right(self, a: Seq<bool>, b: Seq<bool>, c: Seq<bool>, k: nat)
        requires
            self.deg > 0,
            self.elem(a),
            k <= self.deg,
        ensures
            self.mul_to(a, self.sum(b, c), k) == self.sum(
                self.mul_to(a, b, k),
                self.mul_to(a, c, k),
            ),
        decreases k,
    {
        if k == 0 {
            self.sum_self(self.zero());
        } else {
            let j = (k - 1) as nat;
            self.mul_to_sum_right(a, b, c, j);
            let s = self.shl(a, j);
            self.shl_elem(a, j);
            assert(self.scale(self.sum(b, c)[k - 1], s) =~= self.sum(
                self.scale(b[k - 1], s),
                self.scale(c[k - 1], s),
            ));
            self.sum_swap(
                self.mul_to(a, b, j),
                self.mul_to(a, c, j),
                self.scale(b[k - 1], s),
                self.scale(c[k - 1], s),
            );
        }
    }

    /// The product distributes over a sum on the left.
    pub proof fn mul_sum_left(self, a: Seq<bool>, b: Seq<bool>, c: Seq<bool>)
        requires
            self.deg > 0,
        ensures
            self.mul(self.sum(a, b), c) == self.sum(self.mul(a, c), self.mul(b, c)),
    {
        self.mul_to_sum_left(a, b, c, self.deg);
    }

    /// The product distributes over a sum on the right.
    pub proof fn mul_sum_right(self, a: Seq<bool>, b: Seq<bool>, c: Seq<bool>)
        requires
            self.deg > 0,
            self.elem(a),
        ensures
            self.mul(a, self.sum(b, c)) == self.sum(self.mul(a, b), self.mul(a, c)),
    {
        self.mul_to_sum_right(a, b, c, self.deg);
    }

    proof fn mul_to_zero(self, a: Seq<bool>, k: nat)
        requires
            self.deg > 0,
            k <= self.deg,
        ensures
            self.mul_to(a, self.zero(), k) == self.zero(),
            self.mul_to(self.zero(), a, k) == self.zero(),
        decreases k,
    {
        if k > 0 {
            let j = (k - 1) as nat;
            self.mul_to_zero(a, j);
            self.shl_zero(j);
            self.sum_self(self.zero());
        }
    }

    /// Zero absorbs.
    pub proof fn mul_zero(self, a: Seq<bool>)
        requires
            self.deg > 0,
        ensures
            self.mul(a, self.zero()) == self.zero(),
            self.mul(self.zero(), a) == self.zero(),
    {
        self.mul_to_zero(a, self.deg);
    }

    proof fn mul_to_monomial(self, a: Seq<bool>, i: nat, k: nat)
        requires
            self.elem(a),
            i < self.deg,
            k <= self.deg,
        ensures
            self.mul_to(a, self.monomial(i as int), k) == self.scale(i < k, self.shl(a, i)),
        decreases k,
    {
        if k > 0 {
            let j = (k - 1) as nat;
            self.mul_to_monomial(a, i, j);
            self.shl_elem(a, i);
            self.sum_zero(self.shl(a, i));
            self.sum_self(self.zero());
        }
    }

    /// `a X^i` is `X^i a`.
    pub proof fn mul_monomial(self, a: Seq<bool>, i: nat)
        requires
            self.elem(a),
            i < self.deg,
        ensures
            self.mul(a, self.monomial(i as int)) == self.shl(a, i),
    {
        self.mul_to_monomial(a, i, self.deg);
    }

    proof fn mul_to_one_left(self, a: Seq<bool>, k: nat)
        requires
            self.elem(a),
            k <= self.deg,
        ensures
            self.mul_to(self.one(), a, k) == self.low(a, k as int),
        decreases k,
    {
        if k == 0 {
            assert(self.low(a, 0) =~= self.zero());
        } else {
            let j = (k - 1) as nat;
            self.mul_to_one_left(a, j);
            self.shl_one(j);
            assert(self.mul_to(self.one(), a, k) =~= self.low(a, k as int));
        }
    }

    /// One is neutral for the product.
    pub proof fn mul_one(self, a: Seq<bool>)
        requires
            self.elem(a),
            self.deg > 0,
        ensures
            self.mul(self.one(), a) == a,
            self.mul(a, self.one()) == a,
    {
        self.mul_to_one_left(a, self.deg);
        assert(self.low(a, self.deg as int) =~= a);
        self.mul_monomial(a, 0);
    }

    proof fn mul_to_shl_left(self, a: Seq<bool>, b: Seq<bool>, i: nat, k: nat)
        requires
            self.deg > 0,
            self.elem(a),
            k <= self.deg,
        ensures
            self.mul_to(self.shl(a, i), b, k) == self.shl(self.mul_to(a, b, k), i),
        decreases k,
    {
        if k == 0 {
            self.shl_zero(i);
        } else {
            let j = (k - 1) as nat;
            self.mul_to_shl_left(a, b, i, j);
            self.shl_shl(a, i, j);
            self.shl_shl(a, j, i);
            self.shl_zero(i);
            self.shl_sum(self.mul_to(a, b, j), self.scale(b[k - 1], self.shl(a, j)), i);
        }
    }

    /// `(X^i a) b = X^i (a b)`.
    pub proof fn mul_shl_left(self, a: Seq<bool>, b: Seq<bool>, i: nat)
        requires
            self.deg > 0,
            self.elem(a),
        ensures
            self.mul(self.shl(a, i), b) == self.shl(self.mul(a, b), i),
    {
        self.mul_to_shl_left(a, b, i, self.deg);
    }

    proof fn mul_comm_low(self, a: Seq<bool>, b: Seq<bool>, k: nat)
        requires
            self.deg > 0,
            self.elem(a),
            self.elem(b),
            k <= self.deg,
        ensures
            self.mul(self.low(a, k as int), b) == self.mul(b, self.low(a, k as int)),
        decreases k,
    {
        if k == 0 {
            assert(self.low(a, 0) =~= self.zero());
            self.mul_zero(b);
        } else {
            let j = (k - 1) as nat;
            let e = self.monomial(j as int);
            self.mul_comm_low(a, b, j);
            self.mul_monomial(b, j);
            self.shl_one(j);
            self.mul_shl_left(self.one(), b, j);
            self.mul_one(b);
            self.mul_zero(b);
            let t = self.scale(a[j as int], e);
            assert(self.low(a, k as int) =~= self.sum(self.low(a, j as int), t));
            self.mul_sum_left(self.low(a, j as int), t, b);
            self.mul_sum_right(b, self.low(a, j as int), t);
        }
    }

    /// The product is commutative.
    pub proof fn mul_comm(self, a: Seq<bool>, b: Seq<bool>)
        requires
            self.deg > 0,
            self.elem(a),
            self.elem(b),
        ensures
            self.mul(a, b) == self.mul(b, a),
    {
        self.mul_comm_low(a, b, self.deg);
        assert(self.low(a, self.deg as int) =~= a);
    }

    /// `a (X^i b) = X^i (a b)`.
    pub proof fn mul_shl_right(self, a: Seq<bool>, b: Seq<bool>, i: nat)
        requires
            self.deg > 0,
            self.elem(a),
            self.elem(b),
        ensures
            self.mul(a, self.shl(b, i)) == self.shl(self.mul(a, b), i),
    {
        self.shl_elem(b, i);
        self.mul_comm(a, self.shl(b, i));
        self.mul_shl_left(b, a, i);
        self.mul_comm(a, b);
    }

    proof fn mul_assoc_to(self, a: Seq<bool>, b: Seq<bool>, c: Seq<bool>, k: nat)
        requires
            self.deg > 0,
            self.elem(a),
            self.elem(b),
            self.elem(c),
            k <= self.deg,
        ensures
            self.mul_to(self.mul(a, b), c, k) == self.mul(a, self.mul_to(b, c, k)),
        decreases k,
    {
        if k == 0 {
            self.mul_zero(a);
        } else {
            let j = (k - 1) as nat;
            self.mul_assoc_to(a, b, c, j);
            self.mul_shl_right(a, b, j);
            self.mul_zero(a);
            self.mul_sum_right(a, self.mul_to(b, c, j), self.scale(c[k - 1], self.shl(b, j)));
        }
    }

    /// The product is associative.
    pub proof fn mul_assoc(self, a: Seq<bool>, b: Seq<bool>, c: Seq<bool>)
        requires
            self.deg > 0,
            self.elem(a),
            self.elem(b),
            self.elem(c),
        ensures
            self.mul(self.mul(a, b), c) == self.mul(a, self.mul(b, c)),
    {
        self.mul_assoc_to(a, b, c, self.deg);
    }
}

} // verus!
