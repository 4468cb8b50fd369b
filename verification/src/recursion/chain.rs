//! One `S`-identity `sum_nu g_nu x_nu = z` as 18 degree-1 constraints over `Z[X]/(X^64 + 1)`.
//!
//! Diagonal `a` carries the sub-products of every public sub-chunk `a` against every witness chunk;
//! its positions `0 .. 9` are the `a`-th window of the output, its positions `9 .. 62` define the
//! carry `e_a`, and positions above that are zero. With `e_{-1} = 0` the equation at diagonal `a` is
//!
//! ```text
//!     D_a + e_{a-1} - Z^9 e_a - [a = 0] e_17 - [a = 9] e_17 - b_a = 0,
//! ```
//!
//! the two wrap terms being `Z^162 e_17` moved back by `Z^162 = -Z^81 - 1`.
use super::chunk;
use super::{Blocks, Poly, SElem};
use vstd::prelude::*;

verus! {

/// The sums of the diagonals, negacyclically reduced in `X^64 + 1`.
pub type Sums = [[i64; 64]; 18];

/// A witness polynomial: entry `off` of vector `vector`.
#[derive(Clone, Copy, PartialEq, Eq, Debug)]
pub struct At {
    pub vector: usize,
    pub off: usize,
}

/// `public[blocks][chunk][a]` against the witness polynomial at `at`.
#[derive(Clone, Copy, PartialEq, Eq, Debug)]
pub struct Product {
    pub blocks: usize,
    pub chunk: usize,
    pub at: At,
}

/// A constant public multiplier: `factor` against the witness polynomial at `at`, which is chunk
/// `chunk` of its element and so lands whole at diagonal `6 chunk`.
#[derive(Clone, Copy, PartialEq, Eq, Debug)]
pub struct Scaled {
    pub factor: i64,
    pub chunk: usize,
    pub at: At,
}

/// Digits in base `base`, `levels` of them.
#[derive(Clone, Copy, PartialEq, Eq, Debug)]
pub struct Gadget {
    pub base: i64,
    pub levels: usize,
}

/// The carries of one chain: gadget digits per diagonal, `at[d]` the first of the 18 polynomials of
/// level `d`.
#[derive(Clone, Debug)]
pub struct Carries {
    pub gadget: Gadget,
    pub at: Vec<At>,
}

/// One `S`-identity.
#[derive(Clone, Debug)]
pub struct Chain {
    pub name: String,
    pub products: Vec<Product>,
    pub scaled: Vec<Scaled>,
    pub output: SElem,
    pub carries: Carries,
}

/// Witness vectors.
pub type Vectors = Vec<Vec<Poly>>;

/// The entry exists.
pub open spec fn inside(w: Seq<Vec<Poly>>, at: At) -> bool {
    at.vector < w.len() && at.off < w[at.vector as int]@.len()
}

/// The witness polynomial at a place.
pub open spec fn poly_at(w: Seq<Vec<Poly>>, at: At) -> Seq<int> {
    chunk::shorts(w[at.vector as int]@[at.off as int]@)
}

/// Place `j` of the negacyclic product of the first `n` taps of `g` with `x`.
pub open spec fn nega(g: Seq<int>, x: Seq<int>, j: int, n: nat) -> int
    decreases n,
{
    if n == 0 {
        0
    } else {
        let u = n - 1;
        nega(g, x, j, u as nat) + g[u] * (if j >= u {
            x[j - u]
        } else {
            -x[j - u + 64]
        })
    }
}

/// Sub-chunk `a` of a public multiplier.
pub open spec fn sub_chunk(public: Seq<Blocks>, p: Product, a: int) -> Seq<int> {
    chunk::shorts(public[p.blocks as int]@[p.chunk as int]@[a]@)
}

/// Place `j` of diagonal `a` over the first `n` products.
pub open spec fn diagonal(
    products: Seq<Product>,
    public: Seq<Blocks>,
    w: Seq<Vec<Poly>>,
    a: int,
    j: int,
    n: nat,
) -> int
    decreases n,
{
    if n == 0 {
        0
    } else {
        diagonal(products, public, w, a, j, (n - 1) as nat) + nega(
            sub_chunk(public, products[n - 1], a),
            poly_at(w, products[n - 1].at),
            j,
            9,
        )
    }
}

/// Every product names an entry.
pub open spec fn well_placed(products: Seq<Product>, public: Seq<Blocks>, w: Seq<Vec<Poly>>) -> bool {
    forall|i: int|
        0 <= i < products.len() ==> {
            &&& (#[trigger] products[i]).blocks < public.len()
            &&& products[i].chunk < 3
            &&& inside(w, products[i].at)
        }
}

proof fn lemma_product16(x: int, y: int)
    requires
        -0x8000 <= x <= 0x7FFF,
        -0x8000 <= y <= 0x8000,
    ensures
        -0x4000_0000 <= x * y <= 0x4000_0000,
{
    assert(-0x4000_0000 <= x * y <= 0x4000_0000) by (nonlinear_arith)
        requires
            -0x8000 <= x <= 0x7FFF,
            -0x8000 <= y <= 0x8000,
    ;
}

/// Place `j` of the negacyclic product of a sub-chunk and a polynomial.
fn nega_at(g: &[i16; 9], x: &Poly, j: usize) -> (r: i64)
    requires
        j < 64,
    ensures
        r == nega(chunk::shorts(g@), chunk::shorts(x@), j as int, 9),
        -0x2_4000_0000 <= r <= 0x2_4000_0000,
{
    let ghost (gg, xx) = (chunk::shorts(g@), chunk::shorts(x@));
    let mut r: i64 = 0;
    let mut u: usize = 0;
    while u < 9
        invariant
            u <= 9,
            j < 64,
            gg == chunk::shorts(g@),
            xx == chunk::shorts(x@),
            r == nega(gg, xx, j as int, u as nat),
            -0x4000_0000 * u <= r <= 0x4000_0000 * u,
        decreases 9 - u,
    {
        let y: i64 = if j >= u {
            x[j - u] as i64
        } else {
            -(x[j + 64 - u] as i64)
        };
        proof {
            lemma_product16(g@[u as int] as int, y as int);
        }
        r = r + g[u] as i64 * y;
        u += 1;
    }
    r
}

/// Adds one product to every diagonal.
pub(crate) fn add_product(out: &mut Sums, g: &[[i16; 9]; 18], x: &Poly, n: u64)
    requires
        n < 0x100_0000,
        forall|a: int, j: int|
            0 <= a < 18 && 0 <= j < 64 ==> -0x2_4000_0000 * n <= (#[trigger] old(out)@[a]@[j])
                <= 0x2_4000_0000 * n,
    ensures
        forall|a: int, j: int|
            0 <= a < 18 && 0 <= j < 64 ==> (#[trigger] final(out)@[a]@[j]) == old(out)@[a]@[j]
                + nega(chunk::shorts(g@[a]@), chunk::shorts(x@), j, 9),
        forall|a: int, j: int|
            0 <= a < 18 && 0 <= j < 64 ==> -0x2_4000_0000 * (n + 1) <= (
            #[trigger] final(out)@[a]@[j]) <= 0x2_4000_0000 * (n + 1),
{
    let ghost before = out@;
    let mut a: usize = 0;
    while a < 18
        invariant
            a <= 18,
            n < 0x100_0000,
            forall|c: int, j: int|
                0 <= c < 18 && 0 <= j < 64 ==> -0x2_4000_0000 * n <= (#[trigger] before[c]@[j])
                    <= 0x2_4000_0000 * n,
            forall|c: int, j: int|
                0 <= c < a && 0 <= j < 64 ==> (#[trigger] out@[c]@[j]) == before[c]@[j] + nega(
                    chunk::shorts(g@[c]@),
                    chunk::shorts(x@),
                    j,
                    9,
                ),
            forall|c: int, j: int|
                0 <= c < a && 0 <= j < 64 ==> -0x2_4000_0000 * (n + 1) <= (
                #[trigger] out@[c]@[j]) <= 0x2_4000_0000 * (n + 1),
            forall|c: int| a <= c < 18 ==> (#[trigger] out@[c]) == before[c],
        decreases 18 - a,
    {
        let mut row: [i64; 64] = out[a];
        let mut j: usize = 0;
        while j < 64
            invariant
                a < 18,
                j <= 64,
                n < 0x100_0000,
                forall|c: int, j: int|
                    0 <= c < 18 && 0 <= j < 64 ==> -0x2_4000_0000 * n <= (
                    #[trigger] before[c]@[j]) <= 0x2_4000_0000 * n,
                forall|i: int|
                    0 <= i < j ==> (#[trigger] row@[i]) == before[a as int]@[i] + nega(
                        chunk::shorts(g@[a as int]@),
                        chunk::shorts(x@),
                        i,
                        9,
                    ),
                forall|i: int|
                    0 <= i < j ==> -0x2_4000_0000 * (n + 1) <= (#[trigger] row@[i])
                        <= 0x2_4000_0000 * (n + 1),
                forall|i: int| j <= i < 64 ==> (#[trigger] row@[i]) == before[a as int]@[i],
            decreases 64 - j,
        {
            let y: i64 = nega_at(&g[a], x, j);
            assert(row@[j as int] == before[a as int]@[j as int]);
            row[j] = row[j] + y;
            j += 1;
        }
        out[a] = row;
        a += 1;
    }
}

impl Chain {
    /// `D_a` for every diagonal: the products alone, one sub-product at a time.
    pub fn reference_sums(&self, public: &[Blocks], w: &Vectors) -> (out: Sums)
        requires
            well_placed(self.products@, public@, w@),
            self.products@.len() <= 0x100_0000,
        ensures
            forall|a: int, j: int|
                0 <= a < 18 && 0 <= j < 64 ==> (#[trigger] out@[a]@[j]) == diagonal(
                    self.products@,
                    public@,
                    w@,
                    a,
                    j,
                    self.products@.len(),
                ),
            forall|a: int, j: int|
                0 <= a < 18 && 0 <= j < 64 ==> -0x240_0000_0000_0000 <= (#[trigger] out@[a]@[j])
                    <= 0x240_0000_0000_0000,
    {
        let mut out: Sums = [[0;64];18];
        let n: usize = self.products.len();
        let mut i: usize = 0;
        while i < n
            invariant
                i <= n == self.products@.len(),
                n <= 0x100_0000,
                well_placed(self.products@, public@, w@),
                forall|a: int, j: int|
                    0 <= a < 18 && 0 <= j < 64 ==> (#[trigger] out@[a]@[j]) == diagonal(
                        self.products@,
                        public@,
                        w@,
                        a,
                        j,
                        i as nat,
                    ),
                forall|a: int, j: int|
                    0 <= a < 18 && 0 <= j < 64 ==> -0x2_4000_0000 * i <= (#[trigger] out@[a]@[j])
                        <= 0x2_4000_0000 * i,
            decreases n - i,
        {
            let p = self.products[i];
            assert(well_placed(self.products@, public@, w@));
            assert(self.products@[i as int].blocks < public@.len());
            let ghost before = out@;
            add_product(
                &mut out,
                &public[p.blocks][p.chunk],
                &w[p.at.vector][p.at.off],
                i as u64,
            );
            assert forall|a: int, j: int| 0 <= a < 18 && 0 <= j < 64 implies (
            #[trigger] out@[a]@[j]) == diagonal(
                self.products@,
                public@,
                w@,
                a,
                j,
                (i + 1) as nat,
            ) by {
                assert(before[a]@[j] == diagonal(self.products@, public@, w@, a, j, i as nat));
            }
            i += 1;
        }
        out
    }
}

} // verus!
