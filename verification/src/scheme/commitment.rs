//! The values that pass between the two parties.
use super::params::Params;
use crate::fields::linear;
use crate::fields::scalar::F162;
use crate::bd::Dropped;
use crate::labrador::PolxBuf;
use crate::ring::element::{
    PowerOfThreeRingElement, PowerOfThreeRingElementWithLimbs, VerticallyAlignedMatrix,
};
use crate::ring::RingElement;
use crate::wire::uniform;
use std::sync::Arc;
use vstd::prelude::*;

verus! {

/// The commitment: a `4 x columns()` matrix of `R_162` elements per modulus. Row `k` is the
/// coefficient of `X^k` in the basis `1, X, X^2, X^3` of `R_648` over `R_162`, column `j` is the
/// commitment of column `j` of the witness.
#[derive(Clone, PartialEq, Eq, Debug)]
pub struct Commitment {
    pub primes: Vec<u16>,
    pub columns: usize,
    pub value: CommitmentValue,
}

/// The forms a commitment takes: the matrix itself, the Ajtai commitment `T_Y` to the residues
/// of its columns, which is a few transformed elements, or the bit-dropped digits.
#[derive(Clone, PartialEq, Eq, Debug)]
pub enum CommitmentValue {
    Matrix(VerticallyAlignedMatrix<PowerOfThreeRingElementWithLimbs>),
    Recursive(Arc<PolxBuf>),
    Dropped(Arc<Dropped>),
}

impl Commitment {
    /// The value has the shape its primes and columns announce.
    pub open spec fn wf(&self) -> bool {
        &&& uniform::sound_primes(self.primes@)
        &&& self.primes@.len() >= 1
        &&& match self.value {
            CommitmentValue::Matrix(m) => {
                &&& m.wf()
                &&& m.rows == 4
                &&& m.cols == self.columns
                &&& forall|j: int|
                    0 <= j < m.data@.len() ==> (#[trigger] m.data@[j]).limbs@.len()
                        == self.primes@.len()
            },
            CommitmentValue::Recursive(t) => t.wf(),
            CommitmentValue::Dropped(d) => {
                &&& d.wf()
                &&& d.primes@ == self.primes@
                &&& d.columns == self.columns
            },
        }
    }

    /// A commitment from its parts.
    pub fn of(primes: Vec<u16>, columns: usize, value: CommitmentValue) -> (r: Commitment)
        ensures
            r == (Commitment { primes, columns, value }),
    {
        Commitment { primes, columns, value }
    }

    pub fn rows(&self) -> (n: usize)
        ensures
            n == 4,
    {
        4
    }

    pub fn columns(&self) -> (n: usize)
        ensures
            n == self.columns,
    {
        self.columns
    }

    /// The primes, in the index order [`element`](Self::element) takes: the base modulus first.
    pub fn moduli(&self) -> (r: &[u16])
        ensures
            r@ == self.primes@,
    {
        self.primes.as_slice()
    }

    pub fn value(&self) -> (r: &CommitmentValue)
        ensures
            *r == self.value,
    {
        &self.value
    }

    /// The matrix. Only a commitment made without recursion holds one.
    pub fn matrix(&self) -> (r: &VerticallyAlignedMatrix<PowerOfThreeRingElementWithLimbs>)
        requires
            self.value is Matrix,
        ensures
            CommitmentValue::Matrix(*r) == self.value,
    {
        match &self.value {
            CommitmentValue::Matrix(m) => m,
            CommitmentValue::Recursive(_) => vstd::pervasive::unreached(),
            CommitmentValue::Dropped(_) => vstd::pervasive::unreached(),
        }
    }

    pub fn dropped(&self) -> (r: &Arc<Dropped>)
        requires
            self.value is Dropped,
        ensures
            CommitmentValue::Dropped(*r) == self.value,
    {
        match &self.value {
            CommitmentValue::Dropped(d) => d,
            _ => vstd::pervasive::unreached(),
        }
    }

    /// `T_Y`. Only a commitment made with recursion holds one.
    pub fn t_y(&self) -> (r: &Arc<PolxBuf>)
        requires
            self.value is Recursive,
        ensures
            CommitmentValue::Recursive(*r) == self.value,
    {
        match &self.value {
            CommitmentValue::Recursive(t) => t,
            _ => vstd::pervasive::unreached(),
        }
    }

    pub fn element(&self, row: usize, column: usize, modulus_index: usize) -> (r:
        &PowerOfThreeRingElement)
        requires
            self.wf(),
            self.value is Matrix,
            row < 4,
            column < self.columns,
            modulus_index < self.primes@.len(),
        ensures
            *r == self.value->Matrix_0.at(row as int, column as int).limbs@[modulus_index as int],
    {
        let m = self.matrix();
        proof {
            m.lemma_index(row as int, column as int);
        }
        &m.get(row, column).limbs[modulus_index]
    }
}

/// A point of `F162^nu` split the way the witness is: `p0` over the row variables (the index
/// inside a column), `p1` over the column variables, both least significant first.
#[derive(Clone, PartialEq, Eq, Debug)]
pub struct EvaluationPoint {
    pub p0: Vec<F162>,
    pub p1: Vec<F162>,
}

impl EvaluationPoint {
    pub open spec fn wf(&self) -> bool {
        linear::all_wf(self.p0@) && linear::all_wf(self.p1@)
    }

    /// The coordinates most significant first.
    pub open spec fn msb(&self) -> Seq<Seq<bool>> {
        linear::views(self.p1@).reverse() + linear::views(self.p0@).reverse()
    }

    /// A point from its two halves.
    pub fn of(p0: Vec<F162>, p1: Vec<F162>) -> (r: EvaluationPoint)
        ensures
            r.p0 == p0,
            r.p1 == p1,
    {
        EvaluationPoint { p0, p1 }
    }

    /// A point given by its `witness_log_len` coordinates most significant first, the order that
    /// a sumcheck over the flat witness hands back: the leading `column_log_len` coordinates are
    /// `p1` reversed, and the trailing ones are `p0` reversed.
    pub fn msb_first(params: &Params, coordinates: &[F162]) -> (r: EvaluationPoint)
        requires
            params.wf(),
            coordinates@.len() == params.witness_log_len,
        ensures
            r.p1@ == coordinates@.take(params.column_log_len as int).reverse(),
            r.p0@ == coordinates@.skip(params.column_log_len as int).reverse(),
            linear::all_wf(coordinates@) ==> r.wf(),
            r.msb() == linear::views(coordinates@),
    {
        let n: usize = coordinates.len();
        let c: usize = params.column_log_len as usize;
        let mut p0: Vec<F162> = Vec::with_capacity(n - c);
        let mut p1: Vec<F162> = Vec::with_capacity(c);
        let mut i: usize = n;
        while i > c
            invariant
                c <= i <= n == coordinates@.len(),
                p0@ == coordinates@.subrange(i as int, n as int).reverse(),
            decreases i,
        {
            i -= 1;
            p0.push(coordinates[i]);
            assert(p0@ =~= coordinates@.subrange(i as int, n as int).reverse());
        }
        while i > 0
            invariant
                i <= c <= n == coordinates@.len(),
                p1@ == coordinates@.subrange(i as int, c as int).reverse(),
            decreases i,
        {
            i -= 1;
            p1.push(coordinates[i]);
            assert(p1@ =~= coordinates@.subrange(i as int, c as int).reverse());
        }
        let r = EvaluationPoint { p0, p1 };
        proof {
            let x = coordinates@;
            assert(x.subrange(0, c as int) =~= x.take(c as int));
            assert(x.subrange(c as int, n as int) =~= x.skip(c as int));
            if linear::all_wf(x) {
                assert forall|k: int| 0 <= k < p0@.len() implies (#[trigger] p0@[k]).wf() by {
                    assert(p0@[k] == x[n - 1 - k]);
                }
                assert forall|k: int| 0 <= k < p1@.len() implies (#[trigger] p1@[k]).wf() by {
                    assert(p1@[k] == x[c - 1 - k]);
                }
            }
            assert(r.msb() =~= linear::views(x));
        }
        r
    }

    pub fn p0(&self) -> (r: &[F162])
        ensures
            r@ == self.p0@,
    {
        self.p0.as_slice()
    }

    pub fn p1(&self) -> (r: &[F162])
        ensures
            r@ == self.p1@,
    {
        self.p1.as_slice()
    }
}

/// `u_j = sum_i eq(p0, i) W[i, j]`, one field element per column.
#[derive(Clone, PartialEq, Eq, Debug)]
pub struct RowEvaluation {
    pub values: Vec<F162>,
}

impl RowEvaluation {
    /// A row evaluation from its values.
    pub fn of(values: Vec<F162>) -> (r: RowEvaluation)
        ensures
            r.values == values,
    {
        RowEvaluation { values }
    }

    pub fn values(&self) -> (r: &[F162])
        ensures
            r@ == self.values@,
    {
        self.values.as_slice()
    }

    pub fn values_mut(&mut self) -> (r: &mut [F162])
        ensures
            r@ == old(self).values@,
            final(self).values@ == final(r)@,
    {
        self.values.as_mut_slice()
    }
}

/// The amortised witness `v = sum_j c_j W_j`: one column's worth of `R_648` elements in
/// coefficient form, centered.
#[derive(Clone, PartialEq, Eq, Debug)]
pub struct FoldedWitness {
    pub elements: Vec<RingElement>,
}

impl FoldedWitness {
    /// A fold from its elements.
    pub fn of(elements: Vec<RingElement>) -> (r: FoldedWitness)
        ensures
            r.elements == elements,
    {
        FoldedWitness { elements }
    }

    pub fn elements(&self) -> (r: &[RingElement])
        ensures
            r@ == self.elements@,
    {
        self.elements.as_slice()
    }

    pub fn elements_mut(&mut self) -> (r: &mut [RingElement])
        ensures
            r@ == old(self).elements@,
            final(self).elements@ == final(r)@,
    {
        self.elements.as_mut_slice()
    }

    pub fn len(&self) -> (n: usize)
        ensures
            n == self.elements@.len(),
    {
        self.elements.len()
    }

    pub fn is_empty(&self) -> (r: bool)
        ensures
            r == (self.elements@.len() == 0),
    {
        self.elements.len() == 0
    }
}

} // verus!
