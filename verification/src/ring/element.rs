//! Ring elements and the matrix of a commitment.
use vstd::prelude::*;

verus! {

/// The representative of `x` modulo `q` in `[0, q)`.
pub fn residue(x: i16, q: u16) -> (r: u32)
    requires
        q > 0,
    ensures
        r == (x as int) % (q as int),
        r < q,
{
    let m: i32 = q as i32;
    let y: i32 = x as i32;
    if y >= 0 {
        (y % m) as u32
    } else {
        let t: i32 = (-y) % m;
        proof {
            let (yi, mi) = (y as int, m as int);
            vstd::arithmetic::div_mod::lemma_fundamental_div_mod(-yi, mi);
            let k = (-yi) / mi;
            if t == 0 {
                assert(yi == mi * (-k) + 0) by (nonlinear_arith)
                    requires
                        -yi == mi * k + 0,
                ;
                vstd::arithmetic::div_mod::lemma_fundamental_div_mod_converse(yi, mi, -k, 0);
            } else {
                assert(yi == mi * (-k - 1) + (mi - t)) by (nonlinear_arith)
                    requires
                        -yi == mi * k + t,
                ;
                vstd::arithmetic::div_mod::lemma_fundamental_div_mod_converse(
                    yi,
                    mi,
                    -k - 1,
                    mi - t,
                );
            }
        }
        if t == 0 {
            0
        } else {
            (m - t) as u32
        }
    }
}

/// One element of `R_162 = Z_q[Z]/Phi_243(Z)` for a single prime, in the NTT domain: 162 centered
/// residues.
#[derive(Clone, Copy, PartialEq, Eq, Debug)]
pub struct PowerOfThreeRingElement {
    pub v: [i16; 162],
}

impl PowerOfThreeRingElement {
    pub fn zero() -> (r: PowerOfThreeRingElement)
        ensures
            r.v@ == Seq::new(162, |s: int| 0i16),
    {
        let r = PowerOfThreeRingElement { v: [0i16; 162] };
        assert(r.v@ =~= Seq::new(162, |s: int| 0i16));
        r
    }

    /// The canonical non-negative representatives in `[0, q)`.
    pub fn normalized(&self, q: u16) -> (out: [u32; 162])
        requires
            q > 0,
        ensures
            forall|s: int| 0 <= s < 162 ==> #[trigger] out@[s] == (self.v@[s] as int) % (q as int),
    {
        let mut out = [0u32; 162];
        let mut s: usize = 0;
        while s < 162
            invariant
                s <= 162,
                q > 0,
                forall|k: int|
                    0 <= k < s ==> #[trigger] out@[k] == (self.v@[k] as int) % (q as int),
            decreases 162 - s,
        {
            out[s] = residue(self.v[s], q);
            s += 1;
        }
        out
    }
}

impl Default for PowerOfThreeRingElement {
    fn default() -> (r: PowerOfThreeRingElement)
        ensures
            r.v@ == Seq::new(162, |s: int| 0i16),
    {
        PowerOfThreeRingElement::zero()
    }
}

/// One element of `R_162` given by its residues modulo the limbs of a key: `limbs[0]` is the
/// residue modulo the base limb and `limbs[1 + i]` the one modulo the `i`-th additional limb.
#[derive(Clone, PartialEq, Eq, Debug)]
pub struct PowerOfThreeRingElementWithLimbs {
    pub limbs: Vec<PowerOfThreeRingElement>,
}

impl PowerOfThreeRingElementWithLimbs {
    /// `n` zero limbs.
    pub fn zero(n: usize) -> (r: PowerOfThreeRingElementWithLimbs)
        ensures
            r.limbs@.len() == n,
            forall|k: int|
                0 <= k < n ==> (#[trigger] r.limbs@[k]).v@ == Seq::new(162, |s: int| 0i16),
    {
        let z = PowerOfThreeRingElement::zero();
        PowerOfThreeRingElementWithLimbs { limbs: vec![z; n] }
    }

    /// The residue modulo the base limb.
    pub fn base(&self) -> (r: &PowerOfThreeRingElement)
        requires
            self.limbs@.len() > 0,
        ensures
            *r == self.limbs@[0],
    {
        &self.limbs[0]
    }

    /// The residue modulo the `i`-th additional limb.
    pub fn additional(&self, i: usize) -> (r: &PowerOfThreeRingElement)
        requires
            i + 1 < self.limbs@.len(),
        ensures
            *r == self.limbs@[i + 1],
    {
        let n: usize = self.limbs.len();
        assert(i + 1 < n);
        &self.limbs[1 + i]
    }

    /// Number of limbs.
    pub fn len(&self) -> (n: usize)
        ensures
            n == self.limbs@.len(),
    {
        self.limbs.len()
    }

    pub fn is_empty(&self) -> (r: bool)
        ensures
            r == (self.limbs@.len() == 0),
    {
        self.limbs.len() == 0
    }
}

/// A `rows x cols` matrix stored column by column, one column being one commitment.
#[derive(Clone, PartialEq, Eq, Debug)]
pub struct VerticallyAlignedMatrix<T> {
    pub rows: usize,
    pub cols: usize,
    pub data: Vec<T>,
}

impl<T> VerticallyAlignedMatrix<T> {
    /// The data fill the matrix.
    pub open spec fn wf(&self) -> bool {
        self.data@.len() == self.rows * self.cols
    }

    /// The entry at `(row, col)`.
    pub open spec fn at(&self, row: int, col: int) -> T {
        self.data@[col * self.rows + row]
    }

    /// `data` in column-major order: entry `(row, col)` at `data[col * rows + row]`.
    pub fn new(rows: usize, cols: usize, data: Vec<T>) -> (r: VerticallyAlignedMatrix<T>)
        requires
            data@.len() == rows * cols,
        ensures
            r.wf(),
            r.rows == rows,
            r.cols == cols,
            r.data == data,
    {
        VerticallyAlignedMatrix { rows, cols, data }
    }

    pub fn rows(&self) -> (n: usize)
        ensures
            n == self.rows,
    {
        self.rows
    }

    pub fn cols(&self) -> (n: usize)
        ensures
            n == self.cols,
    {
        self.cols
    }

    pub proof fn lemma_index(&self, row: int, col: int)
        requires
            self.wf(),
            0 <= row < self.rows,
            0 <= col < self.cols,
        ensures
            0 <= col * self.rows,
            col * self.rows + row < (col + 1) * self.rows <= self.data@.len(),
    {
        let (r, c) = (self.rows as int, self.cols as int);
        assert(0 <= col * r && (col + 1) * r == col * r + r && (col + 1) * r <= r * c)
            by (nonlinear_arith)
            requires
                0 <= col < c,
                0 <= r,
        ;
    }

    /// Every item of the data is the entry at exactly one place, and the items of a column are its
    /// entries in the order of the rows.
    pub proof fn entries_are_data(&self, i: int, col: int, row: int)
        requires
            self.wf(),
            0 <= i < self.data@.len(),
            0 <= row < self.rows,
            0 <= col < self.cols,
        ensures
            0 <= i / (self.rows as int) < self.cols,
            self.at(i % self.rows as int, i / self.rows as int) == self.data@[i],
            self.data@.subrange(col * self.rows, (col + 1) * self.rows)[row] == self.at(row, col),
    {
        self.lemma_index(row, col);
        let (r, c) = (self.rows as int, self.cols as int);
        vstd::arithmetic::div_mod::lemma_fundamental_div_mod(i, r);
        assert((i / r) * r == r * (i / r)) by (nonlinear_arith);
        assert(0 <= i / r < c) by (nonlinear_arith)
            requires
                0 <= i < r * c,
                r > 0,
        ;
    }

    pub fn get(&self, row: usize, col: usize) -> (r: &T)
        requires
            self.wf(),
            row < self.rows,
            col < self.cols,
        ensures
            *r == self.at(row as int, col as int),
    {
        let n: usize = self.data.len();
        proof {
            self.lemma_index(row as int, col as int);
        }
        &self.data[col * self.rows + row]
    }

    /// One whole column: one commitment, its `rows` components in order.
    pub fn column(&self, col: usize) -> (r: &[T])
        requires
            self.wf(),
            col < self.cols,
        ensures
            r@ == self.data@.subrange(col * self.rows, (col + 1) * self.rows),
            r@.len() == self.rows,
    {
        let n: usize = self.data.len();
        proof {
            let (r, c, k) = (self.rows as int, self.cols as int, col as int);
            assert(0 <= k * r && (k + 1) * r == k * r + r && (k + 1) * r <= r * c)
                by (nonlinear_arith)
                requires
                    0 <= k < c,
                    0 <= r,
            ;
        }
        let start: usize = col * self.rows;
        vstd::slice::slice_subrange(self.data.as_slice(), start, start + self.rows)
    }

    pub fn as_slice(&self) -> (r: &[T])
        ensures
            r@ == self.data@,
    {
        self.data.as_slice()
    }
}

/// How the entries of a ring element are to be read.
#[derive(Clone, Copy, PartialEq, Eq, Debug, Structural)]
pub enum Representation {
    /// Plain coefficients `a_0..a_647` of `a(X)`.
    Coefficients,
    /// The NTT domain in tree order, lazily reduced.
    Ntt,
}

/// One ring element of `R_648`: signed 16-bit residues and a representation tag.
#[derive(Clone, PartialEq, Eq, Debug)]
pub struct RingElement {
    pub v: [i16; 648],
    pub representation: Representation,
}

impl RingElement {
    pub fn zero(representation: Representation) -> (r: RingElement)
        ensures
            r.v@ == Seq::new(648, |i: int| 0i16),
            r.representation == representation,
    {
        let r = RingElement { v: [0i16; 648], representation };
        assert(r.v@ =~= Seq::new(648, |i: int| 0i16));
        r
    }

    /// Fully reduced non-negative coefficients in `[0, q)`.
    pub fn normalized(&self, q: u16) -> (out: [u32; 648])
        requires
            q > 0,
        ensures
            forall|i: int| 0 <= i < 648 ==> #[trigger] out@[i] == (self.v@[i] as int) % (q as int),
    {
        let mut out = [0u32; 648];
        let mut i: usize = 0;
        while i < 648
            invariant
                i <= 648,
                q > 0,
                forall|k: int|
                    0 <= k < i ==> #[trigger] out@[k] == (self.v@[k] as int) % (q as int),
            decreases 648 - i,
        {
            out[i] = residue(self.v[i], q);
            i += 1;
        }
        out
    }
}

/// 32 ring elements in vertical layout: `v[j][p]` is coefficient or slot `j` of polynomial `p`.
#[derive(Clone)]
pub struct Batch32 {
    pub v: [[i16; 32]; 648],
    pub representation: Representation,
}

impl Batch32 {
    pub fn zero(representation: Representation) -> (r: Batch32)
        ensures
            forall|j: int, p: int| 0 <= j < 648 && 0 <= p < 32 ==> #[trigger] r.v@[j]@[p] == 0,
            r.representation == representation,
    {
        Batch32 { v: [[0i16; 32]; 648], representation }
    }

    /// Element `p` of the batch.
    pub fn get(&self, p: usize) -> (e: RingElement)
        requires
            p < 32,
        ensures
            forall|j: int| 0 <= j < 648 ==> #[trigger] e.v@[j] == self.v@[j]@[p as int],
            e.representation == self.representation,
    {
        let mut e = RingElement::zero(self.representation);
        let mut j: usize = 0;
        while j < 648
            invariant
                j <= 648,
                p < 32,
                e.representation == self.representation,
                forall|k: int| 0 <= k < j ==> #[trigger] e.v@[k] == self.v@[k]@[p as int],
            decreases 648 - j,
        {
            e.v[j] = self.v[j][p];
            j += 1;
        }
        e
    }

    /// Put `e` at place `p` of the batch.
    pub fn set(&mut self, p: usize, e: &RingElement)
        requires
            p < 32,
            e.representation == old(self).representation,
        ensures
            final(self).representation == old(self).representation,
            forall|j: int, k: int|
                0 <= j < 648 && 0 <= k < 32 ==> #[trigger] final(self).v@[j]@[k] == (if k == p {
                    e.v@[j]
                } else {
                    old(self).v@[j]@[k]
                }),
    {
        let ghost before = *self;
        let mut j: usize = 0;
        while j < 648
            invariant
                j <= 648,
                p < 32,
                self.representation == before.representation,
                forall|i: int, k: int|
                    0 <= i < 648 && 0 <= k < 32 ==> #[trigger] self.v@[i]@[k] == (if i < j && k
                        == p {
                        e.v@[i]
                    } else {
                        before.v@[i]@[k]
                    }),
            decreases 648 - j,
        {
            let mut row: [i16; 32] = self.v[j];
            row[p] = e.v[j];
            self.v[j] = row;
            j += 1;
        }
    }
}

} // verus!
