//! The polynomial in limb-sliced layout, and the sumcheck round it drives.
use super::linear;
use super::scalar::F162;
use super::scalar;
use vstd::prelude::*;

verus! {

/// A table of `n` elements of `F162`, limb `k` of all of them in `w[k]`.
#[derive(Clone)]
pub struct Poly {
    pub w: [Vec<u64>; 3],
    pub n: usize,
}

impl View for Poly {
    type V = Seq<Seq<bool>>;

    open spec fn view(&self) -> Seq<Seq<bool>> {
        Seq::new(self.n as nat, |i: int| self.at(i)@)
    }
}

impl Poly {
    /// Element `i`.
    pub open spec fn at(&self, i: int) -> F162 {
        F162([self.w[0]@[i], self.w[1]@[i], self.w[2]@[i]])
    }

    /// The three limb vectors have the table's length, and every element is well formed.
    pub open spec fn wf(&self) -> bool {
        &&& self.w[0]@.len() == self.n
        &&& self.w[1]@.len() == self.n
        &&& self.w[2]@.len() == self.n
        &&& forall|i: int| 0 <= i < self.n ==> (#[trigger] self.at(i)).wf()
    }

    pub proof fn lemma_elems(&self)
        ensures
            scalar::f162().elems(self@),
    {
    }

    /// The zero table.
    pub fn zero(n: usize) -> (r: Poly)
        ensures
            r.wf(),
            r.n == n,
            forall|i: int| 0 <= i < n ==> (#[trigger] r@[i]) == scalar::f162().zero(),
    {
        proof {
            F162::lemma_consts();
        }
        let r = Poly { w: [vec![0u64; n], vec![0u64; n], vec![0u64; n]], n };
        assert forall|i: int| 0 <= i < n implies (#[trigger] r.at(i)) == F162([0, 0, 0]) by {
            assert(r.at(i).0@ =~= F162([0, 0, 0]).0@);
            assert(r.at(i).0 =~= F162([0, 0, 0]).0);
        }
        r
    }

    pub fn from_scalars(v: &[F162]) -> (r: Poly)
        requires
            linear::all_wf(v@),
        ensures
            r.wf(),
            r@ == linear::views(v@),
    {
        let n: usize = v.len();
        let mut r = Poly::zero(n);
        let mut i: usize = 0;
        while i < n
            invariant
                i <= n,
                n == v@.len(),
                r.wf(),
                r.n == n,
                linear::all_wf(v@),
                forall|j: int| 0 <= j < i ==> (#[trigger] r@[j]) == v@[j]@,
            decreases n - i,
        {
            r.set(i, v[i]);
            i += 1;
        }
        assert(r@ =~= linear::views(v@));
        r
    }

    pub fn get(&self, i: usize) -> (r: F162)
        requires
            self.wf(),
            i < self.n,
        ensures
            r == self.at(i as int),
            r.wf(),
            r@ == self@[i as int],
    {
        assert(self.at(i as int).wf());
        F162([self.w[0][i], self.w[1][i], self.w[2][i]])
    }

    pub(crate) fn set(&mut self, i: usize, x: F162)
        requires
            old(self).wf(),
            x.wf(),
            i < old(self).n,
        ensures
            final(self).wf(),
            final(self).n == old(self).n,
            final(self)@ == old(self)@.update(i as int, x@),
    {
        self.w[0].set(i, x.0[0]);
        self.w[1].set(i, x.0[1]);
        self.w[2].set(i, x.0[2]);
        proof {
            assert(self.at(i as int).0@ =~= x.0@);
            assert(self.at(i as int).0 =~= x.0);
            assert forall|j: int| 0 <= j < self.n && j != i implies self.at(j) == old(self).at(
                j,
            ) by {}
            assert forall|j: int| 0 <= j < self.n implies (#[trigger] self.at(j)).wf() by {
                if j != i {
                    assert(old(self).at(j).wf());
                }
            }
            assert(self@ =~= old(self)@.update(i as int, x@));
        }
    }
}

/// The round message of `sum_j a_j p_j` over the first `2 half` entries: the round polynomial's
/// value at 0 and its leading coefficient.
pub fn msg(a: &Poly, p: &Poly, half: usize) -> (r: [F162; 2])
    requires
        a.wf(),
        p.wf(),
        2 * half <= a.n,
        2 * half <= p.n,
    ensures
        r[0].wf(),
        r[1].wf(),
        r[0]@ == scalar::f162().at_zero(a@, p@, half as nat),
        r[1]@ == scalar::f162().at_inf(a@, p@, half as nat),
{
    let mut e0 = F162::zero();
    let mut einf = F162::zero();
    let mut j: usize = 0;
    while j < half
        invariant
            j <= half,
            a.wf(),
            p.wf(),
            2 * half <= a.n,
            2 * half <= p.n,
            e0.wf(),
            einf.wf(),
            e0@ == scalar::f162().at_zero(a@, p@, j as nat),
            einf@ == scalar::f162().total(
                |i: int|
                    scalar::f162().mul(
                        scalar::f162().sum(a@[i], a@[i + half]),
                        scalar::f162().sum(p@[i], p@[i + half]),
                    ),
                j as nat,
            ),
        decreases half - j,
    {
        let (a0, a1) = (a.get(j), a.get(j + half));
        let (p0, p1) = (p.get(j), p.get(j + half));
        e0 = e0 + a0 * p0;
        einf = einf + (a0 + a1) * (p0 + p1);
        j += 1;
    }
    let ghost h = half as nat;
    assert(scalar::f162().at_inf(a@, p@, h) == einf@) by {
        let f = |i: int|
            scalar::f162().mul(
                scalar::f162().sum(a@[i], a@[i + half]),
                scalar::f162().sum(p@[i], p@[i + half]),
            );
        let g = |i: int|
            scalar::f162().mul(
                scalar::f162().sum(a@[i], a@[i + h]),
                scalar::f162().sum(p@[i], p@[i + h]),
            );
        scalar::f162().total_ext(f, g, h);
    }
    [e0, einf]
}

/// Fix the most significant variable of the first `2 half` entries of both tables at `r`: the
/// folded table fills the first `half` entries, the others stay.
pub fn fold(a: &mut Poly, p: &mut Poly, half: usize, r: F162)
    requires
        old(a).wf(),
        old(p).wf(),
        2 * half <= old(a).n,
        2 * half <= old(p).n,
        r.wf(),
    ensures
        final(a).wf(),
        final(p).wf(),
        final(a)@ == scalar::f162().fold(old(a)@.take(2 * half), r@) + old(a)@.skip(half as int),
        final(p)@ == scalar::f162().fold(old(p)@.take(2 * half), r@) + old(p)@.skip(half as int),
{
    let mut j: usize = 0;
    let ghost (a0s, p0s) = (a@, p@);
    let ghost (fa, fp) = (
        scalar::f162().fold(a@.take(2 * half), r@),
        scalar::f162().fold(p@.take(2 * half), r@),
    );
    while j < half
        invariant
            j <= half,
            a.wf(),
            p.wf(),
            2 * half <= a.n == a0s.len(),
            2 * half <= p.n == p0s.len(),
            r.wf(),
            fa == scalar::f162().fold(a0s.take(2 * half), r@),
            fp == scalar::f162().fold(p0s.take(2 * half), r@),
            forall|i: int| 0 <= i < j ==> (#[trigger] a@[i]) == fa[i],
            forall|i: int| 0 <= i < j ==> (#[trigger] p@[i]) == fp[i],
            forall|i: int| j <= i < a.n ==> (#[trigger] a@[i]) == a0s[i],
            forall|i: int| j <= i < p.n ==> (#[trigger] p@[i]) == p0s[i],
        decreases half - j,
    {
        let (a0, a1) = (a.get(j), a.get(j + half));
        let (p0, p1) = (p.get(j), p.get(j + half));
        assert(a0s.take(2 * half)[j as int] == a0@ && a0s.take(2 * half)[j + half] == a1@);
        assert(p0s.take(2 * half)[j as int] == p0@ && p0s.take(2 * half)[j + half] == p1@);
        a.set(j, a0 + r * (a0 + a1));
        p.set(j, p0 + r * (p0 + p1));
        j += 1;
    }
    assert(a@ =~= fa + a0s.skip(half as int));
    assert(p@ =~= fp + p0s.skip(half as int));
}

/// The round message, then the fold.
pub fn round(a: &mut Poly, p: &mut Poly, half: usize, r: F162) -> (m: [F162; 2])
    requires
        old(a).wf(),
        old(p).wf(),
        2 * half <= old(a).n,
        2 * half <= old(p).n,
        r.wf(),
    ensures
        final(a).wf(),
        final(p).wf(),
        m[0].wf(),
        m[1].wf(),
        m[0]@ == scalar::f162().at_zero(old(a)@, old(p)@, half as nat),
        m[1]@ == scalar::f162().at_inf(old(a)@, old(p)@, half as nat),
        final(a)@ == scalar::f162().fold(old(a)@.take(2 * half), r@) + old(a)@.skip(half as int),
        final(p)@ == scalar::f162().fold(old(p)@.take(2 * half), r@) + old(p)@.skip(half as int),
{
    let m = msg(a, p, half);
    fold(a, p, half, r);
    m
}

} // verus!
