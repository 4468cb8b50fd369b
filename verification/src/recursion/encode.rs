//! Where the terms of one limb's four component identities stand.
use super::chain::{At, Product};
use vstd::prelude::*;

verus! {

/// Where one limb's data stands: the eight parts of the key rows from `base_key` on, part `2 k` the
/// components `k` and part `2 k + 1` the same times `-Z`, each of `n` public entries; the `r`
/// challenges from `challenges` on; chunk `b` of component `l` of folded element `i` at
/// `folded[3 l + b]` plus `i` steps; and the residues of component `m` in `residues[m]`.
pub struct Places {
    pub n: usize,
    pub r: usize,
    pub base_key: usize,
    pub challenges: usize,
    pub folded: Vec<At>,
    pub step: usize,
    pub residues: Vec<usize>,
}

/// The part of the key rows that multiplies component `l` towards component `m`.
pub open spec fn key_part(m: int, l: int) -> int {
    2 * ((m + 4 - l) % 4) + (if l > m {
        1int
    } else {
        0
    })
}

impl Places {
    pub open spec fn wf(&self) -> bool {
        &&& self.folded@.len() == 12
        &&& self.residues@.len() == 4
        &&& self.base_key + 8 * self.n <= usize::MAX
        &&& self.challenges + self.r <= usize::MAX
        &&& 3 * self.r <= usize::MAX
        &&& 12 * self.n + 3 * self.r <= usize::MAX
        &&& forall|i: int|
            0 <= i < 12 ==> (#[trigger] self.folded@[i]).off + self.n * self.step <= usize::MAX
    }

    /// The witness polynomial of chunk `b` of component `l` of folded element `i`.
    pub open spec fn folded_at(&self, l: int, b: int, i: int) -> (int, int) {
        (self.folded@[3 * l + b].vector as int, self.folded@[3 * l + b].off + i * self.step)
    }

    /// `p` is the product of key row `i` and chunk `b` of component `l`, towards component `m`.
    pub open spec fn is_key_product(&self, p: Product, m: int, l: int, b: int, i: int) -> bool {
        &&& p.blocks == self.base_key + key_part(m, l) * self.n + i
        &&& p.chunk == b
        &&& (p.at.vector as int, p.at.off as int) == self.folded_at(l, b, i)
    }

    /// `p` is the product of challenge `j` and chunk `b` of component `m` of column `j`.
    pub open spec fn is_challenge_product(&self, p: Product, m: int, b: int, j: int) -> bool {
        &&& p.blocks == self.challenges + j
        &&& p.chunk == b
        &&& p.at.vector == self.residues@[m]
        &&& p.at.off == b * self.r + j
    }

    fn key_products(&self, m: usize, l: usize, b: usize, products: &mut Vec<Product>)
        requires
            self.wf(),
            m < 4,
            l < 4,
            b < 3,
        ensures
            final(products)@.len() == old(products)@.len() + self.n,
            forall|i: int|
                0 <= i < old(products)@.len() ==> (#[trigger] final(products)@[i]) == old(
                    products,
                )@[i],
            forall|i: int|
                old(products)@.len() <= i < final(products)@.len() ==> self.is_key_product(
                    #[trigger] final(products)@[i],
                    m as int,
                    l as int,
                    b as int,
                    i - old(products)@.len(),
                ),
    {
        let ghost start = products@;
        let part: usize = (m + 4 - l) % 4 * 2 + if l > m {
            1
        } else {
            0
        };
        let first = self.folded[3 * l + b];
        let n: usize = self.n;
        proof {
            assert(part * n <= 7 * n) by (nonlinear_arith)
                requires
                    0 <= part <= 7,
                    0 <= n,
            ;
            assert(self.folded@[3 * l + b].off + n * self.step <= usize::MAX);
        }
        let base: usize = self.base_key + part * n;
        let mut i: usize = 0;
        while i < n
            invariant
                i <= n == self.n,
                self.wf(),
                m < 4,
                l < 4,
                b < 3,
                part == key_part(m as int, l as int),
                base == self.base_key + part * n,
                base + n <= usize::MAX,
                first == self.folded@[3 * l + b],
                first.off + n * self.step <= usize::MAX,
                products@.len() == start.len() + i,
                forall|t: int| 0 <= t < start.len() ==> (#[trigger] products@[t]) == start[t],
                forall|t: int|
                    start.len() <= t < products@.len() ==> self.is_key_product(
                        #[trigger] products@[t],
                        m as int,
                        l as int,
                        b as int,
                        t - start.len(),
                    ),
            decreases n - i,
        {
            proof {
                let (s, k, c) = (self.step as int, i as int, n as int);
                assert(0 <= k * s <= c * s) by (nonlinear_arith)
                    requires
                        0 <= k <= c,
                        0 <= s,
                ;
            }
            products.push(
                Product {
                    blocks: base + i,
                    chunk: b,
                    at: At { vector: first.vector, off: first.off + i * self.step },
                },
            );
            i += 1;
        }
    }

    fn challenge_products(&self, m: usize, b: usize, products: &mut Vec<Product>)
        requires
            self.wf(),
            m < 4,
            b < 3,
        ensures
            final(products)@.len() == old(products)@.len() + self.r,
            forall|i: int|
                0 <= i < old(products)@.len() ==> (#[trigger] final(products)@[i]) == old(
                    products,
                )@[i],
            forall|i: int|
                old(products)@.len() <= i < final(products)@.len() ==> self.is_challenge_product(
                    #[trigger] final(products)@[i],
                    m as int,
                    b as int,
                    i - old(products)@.len(),
                ),
    {
        let ghost start = products@;
        let r: usize = self.r;
        let vector: usize = self.residues[m];
        proof {
            assert(b * r <= 2 * r) by (nonlinear_arith)
                requires
                    0 <= b <= 2,
                    0 <= r,
            ;
        }
        let off: usize = b * r;
        let mut j: usize = 0;
        while j < r
            invariant
                j <= r == self.r,
                self.wf(),
                m < 4,
                b < 3,
                vector == self.residues@[m as int],
                off == b * r,
                off <= 2 * r,
                products@.len() == start.len() + j,
                forall|t: int| 0 <= t < start.len() ==> (#[trigger] products@[t]) == start[t],
                forall|t: int|
                    start.len() <= t < products@.len() ==> self.is_challenge_product(
                        #[trigger] products@[t],
                        m as int,
                        b as int,
                        t - start.len(),
                    ),
            decreases r - j,
        {
            products.push(
                Product {
                    blocks: self.challenges + j,
                    chunk: b,
                    at: At { vector, off: off + j },
                },
            );
            j += 1;
        }
    }

    /// `products` are the terms of component `m`.
    pub open spec fn is_component(&self, m: int, products: Seq<Product>) -> bool {
        &&& products.len() == 12 * self.n + 3 * self.r
        &&& forall|c: int, i: int|
            0 <= c < 12 && 0 <= i < self.n ==> self.is_key_product(
                #[trigger] products[c * self.n + i],
                m,
                c / 3,
                c % 3,
                i,
            )
        &&& forall|b: int, j: int|
            0 <= b < 3 && 0 <= j < self.r ==> self.is_challenge_product(
                #[trigger] products[12 * self.n + (b * self.r + j)],
                m,
                b,
                j,
            )
    }

    /// The terms of the identity of component `m`.
    pub fn component(&self, m: usize) -> (products: Vec<Product>)
        requires
            self.wf(),
            m < 4,
        ensures
            self.is_component(m as int, products@),
    {
        let (n, r): (usize, usize) = (self.n, self.r);
        let mut products: Vec<Product> = Vec::new();
        let mut c: usize = 0;
        while c < 12
            invariant
                c <= 12,
                n == self.n,
                self.wf(),
                m < 4,
                products@.len() == c * n,
                forall|d: int, i: int|
                    0 <= d < c && 0 <= i < n ==> self.is_key_product(
                        #[trigger] products@[d * n + i],
                        m as int,
                        d / 3,
                        d % 3,
                        i,
                    ),
            decreases 12 - c,
        {
            let ghost before = products@;
            self.key_products(m, c / 3, c % 3, &mut products);
            assert forall|d: int, i: int| 0 <= d <= c && 0 <= i < n implies self.is_key_product(
                #[trigger] products@[d * n + i],
                m as int,
                d / 3,
                d % 3,
                i,
            ) by {
                if d < c {
                    assert(0 <= d * n + i < c * n) by (nonlinear_arith)
                        requires
                            0 <= d < c,
                            0 <= i < n,
                    ;
                    assert(products@[d * n + i] == before[d * n + i]);
                }
            }
            assert(c * n + n == (c + 1) * n) by (nonlinear_arith);
            c += 1;
        }
        let ghost keys = products@;
        let mut b: usize = 0;
        while b < 3
            invariant
                b <= 3,
                r == self.r,
                n == self.n,
                self.wf(),
                m < 4,
                keys.len() == 12 * n,
                products@.len() == 12 * n + b * r,
                forall|t: int| 0 <= t < keys.len() ==> (#[trigger] products@[t]) == keys[t],
                forall|d: int, j: int|
                    0 <= d < b && 0 <= j < r ==> self.is_challenge_product(
                        #[trigger] products@[12 * n + (d * r + j)],
                        m as int,
                        d,
                        j,
                    ),
            decreases 3 - b,
        {
            let ghost before = products@;
            self.challenge_products(m, b, &mut products);
            assert forall|d: int, j: int| 0 <= d <= b && 0 <= j < r implies self.is_challenge_product(
                #[trigger] products@[12 * n + (d * r + j)],
                m as int,
                d,
                j,
            ) by {
                if d < b {
                    assert(0 <= d * r + j < b * r) by (nonlinear_arith)
                        requires
                            0 <= d < b,
                            0 <= j < r,
                    ;
                    assert(products@[12 * n + (d * r + j)] == before[12 * n + (d * r + j)]);
                }
            }
            assert(b * r + r == (b + 1) * r) by (nonlinear_arith);
            b += 1;
        }
        assert forall|c: int, i: int| 0 <= c < 12 && 0 <= i < n implies self.is_key_product(
            #[trigger] products@[c * n + i],
            m as int,
            c / 3,
            c % 3,
            i,
        ) by {
            assert(0 <= c * n + i < 12 * n) by (nonlinear_arith)
                requires
                    0 <= c < 12,
                    0 <= i < n,
            ;
            assert(products@[c * n + i] == keys[c * n + i]);
        }
        products
    }
}

/// The terms of the four component identities of one limb.
pub fn encode(places: &Places) -> (chains: Vec<Vec<Product>>)
    requires
        places.wf(),
    ensures
        chains@.len() == 4,
        forall|m: int| 0 <= m < 4 ==> places.is_component(m, (#[trigger] chains@[m])@),
{
    let mut chains: Vec<Vec<Product>> = Vec::new();
    let mut m: usize = 0;
    while m < 4
        invariant
            m <= 4,
            places.wf(),
            chains@.len() == m,
            forall|i: int| 0 <= i < m ==> places.is_component(i, (#[trigger] chains@[i])@),
        decreases 4 - m,
    {
        chains.push(places.component(m));
        m += 1;
    }
    chains
}

} // verus!
