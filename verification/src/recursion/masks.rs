//! The masks of the zero positions: uniform scalars for every position at which a witness chunk
//! claims to be zero.
use crate::bytes;
use crate::challenge::transcript::{Script, Transcript};
use crate::labrador;
use crate::modular;
use crate::modular::same;
use vstd::arithmetic::div_mod::*;
use vstd::prelude::*;
use vstd::string::*;

verus! {

/// Independent repetitions of the zero-part test, `ceil(128 / LOGQ)`.
pub fn lifts() -> (n: usize)
    ensures
        n == 3,
{
    (128 + labrador::logq() - 1) / labrador::logq()
}

/// The shape of the witness vectors: `ranks[i]` polynomials, of which the first `used[i]` keep to
/// the positions below `supports[i]` and the others are zero.
pub struct Supports {
    pub ranks: Vec<usize>,
    pub used: Vec<usize>,
    pub supports: Vec<usize>,
}

impl Supports {
    pub open spec fn wf(&self) -> bool {
        &&& self.used@.len() == self.ranks@.len()
        &&& self.supports@.len() == self.ranks@.len()
        &&& forall|i: int| 0 <= i < self.supports@.len() ==> (#[trigger] self.supports@[i]) <= 64
    }

    /// Where the zeros of polynomial `p` of vector `i` begin.
    pub open spec fn zeros(&self, i: int, p: int) -> usize {
        if p < self.used@[i] {
            self.supports@[i]
        } else {
            0
        }
    }

    /// Where the zeros of every polynomial of the first `n` vectors begin.
    pub open spec fn starts(&self, n: nat) -> Seq<usize>
        decreases n,
    {
        if n == 0 {
            Seq::empty()
        } else {
            self.starts((n - 1) as nat) + Seq::new(
                self.ranks@[n - 1] as nat,
                |p: int| self.zeros(n - 1, p),
            )
        }
    }

    /// Where the zeros of every polynomial begin.
    pub fn zero_starts(&self) -> (z: Vec<usize>)
        requires
            self.wf(),
        ensures
            z@ == self.starts(self.ranks@.len()),
            forall|k: int| 0 <= k < z@.len() ==> (#[trigger] z@[k]) <= 64,
    {
        let n: usize = self.ranks.len();
        let mut z: Vec<usize> = Vec::new();
        let mut i: usize = 0;
        while i < n
            invariant
                i <= n == self.ranks@.len(),
                self.wf(),
                z@ == self.starts(i as nat),
                forall|k: int| 0 <= k < z@.len() ==> (#[trigger] z@[k]) <= 64,
            decreases n - i,
        {
            let ghost before = z@;
            let m: usize = self.ranks[i];
            let mut p: usize = 0;
            while p < m
                invariant
                    p <= m == self.ranks@[i as int],
                    i < n == self.ranks@.len(),
                    self.wf(),
                    z@ == before + Seq::new(p as nat, |p: int| self.zeros(i as int, p)),
                    forall|k: int| 0 <= k < z@.len() ==> (#[trigger] z@[k]) <= 64,
                decreases m - p,
            {
                assert(self.supports@[i as int] <= 64);
                let x: usize = if p < self.used[i] {
                    self.supports[i]
                } else {
                    0
                };
                let ghost old_z = z@;
                z.push(x);
                assert(z@ =~= before + Seq::new((p + 1) as nat, |p: int| self.zeros(i as int, p)));
                p += 1;
            }
            i += 1;
        }
        z
    }
}

/// The zero positions of the first `n` polynomials.
pub open spec fn zero_count(z: Seq<usize>, n: nat) -> nat
    decreases n,
{
    if n == 0 {
        0
    } else {
        zero_count(z, (n - 1) as nat) + (64 - z[n - 1]) as nat
    }
}

impl Supports {
    /// The shape is one, and the bytes of one repetition of its masks can be counted.
    pub open spec fn fits(&self) -> bool {
        &&& self.wf()
        &&& 12 * zero_count(
            self.starts(self.ranks@.len()),
            self.starts(self.ranks@.len()).len(),
        ) <= usize::MAX
    }

    /// Is the shape one whose mask bytes can be counted?
    pub fn has_room(&self) -> (r: bool)
        ensures
            r == self.fits(),
    {
        let n: usize = self.ranks.len();
        if self.used.len() != n || self.supports.len() != n {
            return false;
        }
        let mut i: usize = 0;
        while i < n
            invariant
                i <= n == self.supports@.len(),
                forall|k: int| 0 <= k < i ==> (#[trigger] self.supports@[k]) <= 64,
            decreases n - i,
        {
            if self.supports[i] > 64 {
                assert(self.supports@[i as int] > 64);
                return false;
            }
            i += 1;
        }
        let z = self.zero_starts();
        let m: usize = z.len();
        let mut total: u128 = 0;
        let mut k: usize = 0;
        while k < m
            invariant
                k <= m == z@.len(),
                forall|k: int| 0 <= k < z@.len() ==> (#[trigger] z@[k]) <= 64,
                total == zero_count(z@, k as nat),
                total <= 64 * k,
            decreases m - k,
        {
            assert(z@[k as int] <= 64);
            total = total + (64 - z[k]) as u128;
            k += 1;
        }
        12 * total <= usize::MAX as u128
    }
}

proof fn lemma_zero_count(z: Seq<usize>, k: nat, n: nat)
    requires
        k <= n <= z.len(),
        forall|k: int| 0 <= k < z.len() ==> (#[trigger] z[k]) <= 64,
    ensures
        zero_count(z, k) <= zero_count(z, n) <= 64 * n,
    decreases n,
{
    if k < n {
        lemma_zero_count(z, k, (n - 1) as nat);
    } else if n > 0 {
        lemma_zero_count(z, (n - 1) as nat, (n - 1) as nat);
    }
}

/// Scalar `t` read from the bytes: twelve of them, modulo `q`.
pub open spec fn rho(b: Seq<u8>, t: int, q: int) -> int {
    bytes::of_le(b.subrange(12 * t, 12 * t + 12)) as int % q
}

/// Coefficient `c` of `sum_j rho_j X^(-j)` over the positions `z <= j < 64`, the scalars from `t` on:
/// `X^(-j) = -X^(64 - j)`.
pub open spec fn mask(b: Seq<u8>, q: int, t: int, z: int, c: int) -> int {
    if c == 0 {
        if z == 0 {
            rho(b, t, q)
        } else {
            0
        }
    } else if 64 - c >= z {
        -rho(b, t + (64 - c - z), q) % q
    } else {
        0
    }
}

/// The label of repetition `h`.
pub open spec fn mask_label(h: int) -> Seq<u8> {
    if h == 0 {
        "labinius/recursion/mask/0".spec_bytes()
    } else if h == 1 {
        "labinius/recursion/mask/1".spec_bytes()
    } else {
        "labinius/recursion/mask/2".spec_bytes()
    }
}

pub proof fn lemma_mask_labels()
    ensures
        mask_label(0).len() == 25,
        mask_label(1).len() == 25,
        mask_label(2).len() == 25,
{
    reveal_strlit("labinius/recursion/mask/0");
    reveal_strlit("labinius/recursion/mask/1");
    reveal_strlit("labinius/recursion/mask/2");
    assert("labinius/recursion/mask/0".is_ascii());
    assert("labinius/recursion/mask/1".is_ascii());
    assert("labinius/recursion/mask/2".is_ascii());
    is_ascii_spec_bytes("labinius/recursion/mask/0");
    is_ascii_spec_bytes("labinius/recursion/mask/1");
    is_ascii_spec_bytes("labinius/recursion/mask/2");
}

/// The script once `n` more derivations are made.
pub open spec fn advanced(s: Script, n: nat) -> Script
    decreases n,
{
    if n == 0 {
        s
    } else {
        advanced(s, (n - 1) as nat).next()
    }
}

/// The masks of the zero positions, one `phi` per witness polynomial and repetition.
pub struct Masks {
    pub rows: Vec<Vec<[i64; 64]>>,
}

/// `e` is the mask of one polynomial.
pub open spec fn is_mask(e: Seq<i64>, b: Seq<u8>, q: int, t: int, z: int) -> bool {
    forall|c: int| 0 <= c < 64 ==> (#[trigger] e[c]) == mask(b, q, t, z, c)
}

/// `row` holds the masks of all polynomials, read from the bytes `b`.
pub open spec fn is_row(row: Seq<[i64; 64]>, b: Seq<u8>, q: int, z: Seq<usize>) -> bool {
    &&& row.len() == z.len()
    &&& forall|k: int|
        0 <= k < row.len() ==> is_mask(
            (#[trigger] row[k])@,
            b,
            q,
            zero_count(z, k as nat) as int,
            z[k] as int,
        )
}

/// The mask of one polynomial whose zeros begin at `z`.
fn mask_poly(b: &Vec<u8>, q: i64, t: usize, z: usize) -> (e: [i64; 64])
    requires
        q > 0,
        z <= 64,
        12 * (t + (64 - z)) <= b@.len(),
    ensures
        is_mask(e@, b@, q as int, t as int, z as int),
{
    let len: usize = b.len();
    let mut e: [i64; 64] = [0;64];
    let mut j: usize = z;
    while j < 64
        invariant
            q > 0,
            z <= j <= 64,
            12 * (t + (64 - z)) <= b@.len() == len,
            forall|c: int|
                0 <= c < 64 ==> (#[trigger] e@[c]) == (if (c == 0 && z == 0 && j > 0) || (c > 0 && z
                    <= 64 - c < j) {
                    mask(b@, q as int, t as int, z as int, c)
                } else {
                    0
                }),
        decreases 64 - j,
    {
        let i: usize = t + (j - z);
        let w: u128 = bytes::read_le(b.as_slice(), 12 * i, 12);
        let r: i64 = (w % (q as u128)) as i64;
        proof {
            assert(12 * i + 12 == 12 * (i + 1));
            assert(r == rho(b@, i as int, q as int));
            lemma_negated(r as int, q as int);
        }
        if j == 0 {
            e[0] = r;
        } else if r == 0 {
            e[64 - j] = 0;
        } else {
            e[64 - j] = q - r;
        }
        j += 1;
    }
    e
}

proof fn lemma_negated(r: int, q: int)
    requires
        0 <= r < q,
    ensures
        -r % q == (if r == 0 {
            0
        } else {
            q - r
        }),
{
    if r == 0 {
        lemma_small_mod(0, q as nat);
    } else {
        lemma_mod_multiples_vanish(1, -r, q);
        lemma_small_mod((q - r) as nat, q as nat);
    }
}

/// The masks of all polynomials for one repetition.
fn mask_row(b: &Vec<u8>, q: i64, z: &Vec<usize>) -> (row: Vec<[i64; 64]>)
    requires
        q > 0,
        forall|k: int| 0 <= k < z@.len() ==> (#[trigger] z@[k]) <= 64,
        b@.len() == 12 * zero_count(z@, z@.len()),
    ensures
        is_row(row@, b@, q as int, z@),
{
    let n: usize = z.len();
    let len: usize = b.len();
    let mut row: Vec<[i64; 64]> = Vec::new();
    let mut at: usize = 0;
    let mut k: usize = 0;
    while k < n
        invariant
            q > 0,
            k <= n == z@.len(),
            forall|k: int| 0 <= k < z@.len() ==> (#[trigger] z@[k]) <= 64,
            len == b@.len() == 12 * zero_count(z@, z@.len()),
            at == zero_count(z@, k as nat),
            row@.len() == k,
            forall|i: int|
                0 <= i < k ==> is_mask(
                    (#[trigger] row@[i])@,
                    b@,
                    q as int,
                    zero_count(z@, i as nat) as int,
                    z@[i] as int,
                ),
        decreases n - k,
    {
        proof {
            lemma_zero_count(z@, (k + 1) as nat, n as nat);
            assert(z@[k as int] <= 64);
        }
        row.push(mask_poly(b, q, at, z[k]));
        at = at + (64 - z[k]);
        k += 1;
    }
    row
}

impl Masks {
    /// `phi_xi = sum_j rho_{xi,j} X^{-j}` over the zero positions `j` of the chunk `xi`, so that
    /// the constant coefficient of `sum_xi phi_xi xi` is `sum rho_{xi,j} xi_j`. `q` is the modulus of
    /// the backend.
    pub fn squeeze(shape: &Supports, transcript: &mut Transcript, q: i64) -> (m: Masks)
        requires
            shape.wf(),
            q > 0,
            12 * zero_count(
                shape.starts(shape.ranks@.len()),
                shape.starts(shape.ranks@.len()).len(),
            ) <= usize::MAX,
            old(transcript)@.room(41),
            old(transcript)@.counter <= u64::MAX - 3,
        ensures
            final(transcript)@ == advanced(old(transcript)@, 3),
            m.rows@.len() == 3,
            forall|h: int|
                0 <= h < 3 ==> is_row(
                    (#[trigger] m.rows@[h])@,
                    advanced(old(transcript)@, h as nat).output(
                        mask_label(h),
                        12 * zero_count(
                            shape.starts(shape.ranks@.len()),
                            shape.starts(shape.ranks@.len()).len(),
                        ),
                    ),
                    q as int,
                    shape.starts(shape.ranks@.len()),
                ),
    {
        let z = shape.zero_starts();
        let n: usize = z.len();
        let mut total: usize = 0;
        let mut k: usize = 0;
        while k < n
            invariant
                k <= n == z@.len(),
                forall|k: int| 0 <= k < z@.len() ==> (#[trigger] z@[k]) <= 64,
                12 * zero_count(z@, z@.len()) <= usize::MAX,
                total == zero_count(z@, k as nat),
            decreases n - k,
        {
            proof {
                lemma_zero_count(z@, (k + 1) as nat, n as nat);
                assert(z@[k as int] <= 64);
            }
            total = total + (64 - z[k]);
            k += 1;
        }
        proof {
            lemma_mask_labels();
            reveal_with_fuel(advanced, 4);
        }
        let l0 = "labinius/recursion/mask/0".as_bytes();
        let l1 = "labinius/recursion/mask/1".as_bytes();
        let l2 = "labinius/recursion/mask/2".as_bytes();
        let mut b0: Vec<u8> = vec![0u8; 12 * total];
        let mut b1: Vec<u8> = vec![0u8; 12 * total];
        let mut b2: Vec<u8> = vec![0u8; 12 * total];
        transcript.fill(l0, b0.as_mut_slice());
        transcript.fill(l1, b1.as_mut_slice());
        transcript.fill(l2, b2.as_mut_slice());
        let r0 = mask_row(&b0, q, &z);
        let r1 = mask_row(&b1, q, &z);
        let r2 = mask_row(&b2, q, &z);
        let mut rows: Vec<Vec<[i64; 64]>> = Vec::new();
        rows.push(r0);
        rows.push(r1);
        rows.push(r2);
        Masks { rows }
    }
}

/// The first `n` terms of the constant coefficient of `e x` modulo `X^64 + 1`, by the position in
/// `x`.
pub open spec fn constant_term(e: Seq<i64>, x: Seq<int>, n: nat) -> int
    decreases n,
{
    if n == 0 {
        0
    } else {
        let j = n - 1;
        constant_term(e, x, j as nat) + (if j == 0 {
            e[0] * x[0]
        } else {
            -(e[64 - j] * x[j])
        })
    }
}

/// The scalars against the first `n` positions of `x` from `z` on.
pub open spec fn masked_sum(b: Seq<u8>, q: int, t: int, z: int, x: Seq<int>, n: nat) -> int
    decreases n,
{
    if n == 0 {
        0
    } else {
        let j = n - 1;
        masked_sum(b, q, t, z, x, j as nat) + (if j >= z {
            rho(b, t + (j - z), q) * x[j]
        } else {
            0
        })
    }
}

/// The constant coefficient of a mask times its polynomial is the sum of the scalars against the
/// positions that the polynomial claims to be zero: it vanishes where the claim holds.
pub proof fn mask_tests_zeros(
    e: Seq<i64>,
    b: Seq<u8>,
    q: int,
    t: int,
    z: int,
    x: Seq<int>,
    n: nat,
)
    requires
        q > 0,
        0 <= z <= 64,
        n <= 64,
        e.len() == 64,
        x.len() == 64,
        is_mask(e, b, q, t, z),
    ensures
        same(constant_term(e, x, n), masked_sum(b, q, t, z, x, n), q),
        (forall|j: int| z <= j < n ==> (#[trigger] x[j]) == 0) ==> masked_sum(b, q, t, z, x, n)
            == 0,
    decreases n,
{
    if n > 0 {
        let j = n - 1;
        mask_tests_zeros(e, b, q, t, z, x, j as nat);
        let c = if j == 0 {
            0
        } else {
            64 - j
        };
        let r = rho(b, t + (j - z), q);
        assert(e[c] == mask(b, q, t, z, c));
        let (term, wanted) = (
            if j == 0 {
                e[0] * x[0]
            } else {
                -(e[c] * x[j])
            },
            if j >= z {
                r * x[j]
            } else {
                0
            },
        );
        assert(0 * x[j] == 0) by (nonlinear_arith);
        assert(r * 0 == 0) by (nonlinear_arith);
        if j >= z && j > 0 {
            assert(e[c] == -r % q);
            modular::lemma_reduced(-r, q);
            modular::lemma_mul(e[c] as int, -x[j], -r, -x[j], q);
            assert(e[c] * -x[j] == -(e[c] * x[j]) && -r * -x[j] == r * x[j]) by (nonlinear_arith);
        }
        modular::lemma_add(
            constant_term(e, x, j as nat),
            term,
            masked_sum(b, q, t, z, x, j as nat),
            wanted,
            q,
        );
    }
}

/// A mask scalar is the number that its twelve bytes spell, reduced: every residue is that of some bytes,
/// and the scalars of different places read different bytes.
pub proof fn scalars_read_own_bytes(b: Seq<u8>, t: int, q: int, x: nat)
    requires
        q > 0,
        0 <= t,
        12 * t + 12 <= b.len(),
        b.subrange(12 * t, 12 * t + 12) == bytes::le(x, 12),
        x < bytes::radix(12),
    ensures
        rho(b, t, q) == x as int % q,
        0 <= rho(b, t, q) < q,
        x < q ==> rho(b, t, q) == x,
{
    bytes::lemma_of_le_le(x, 12);
    lemma_mod_bound(x as int, q);
    if x < q {
        lemma_small_mod(x, q as nat);
    }
}

} // verus!
