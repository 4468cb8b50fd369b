//! `S = Z[Z]/(Z^162 + Z^81 + 1)` over the integers, and the chunk encoding of one element.
use super::algebra;
use super::{Blocks, Poly, SElem};
use crate::ntt::poly;
use vstd::prelude::*;

verus! {

/// The sum of the first `n` coefficients whose index is `r` modulo 243.
pub open spec fn cyclic(p: Seq<int>, r: int, n: nat) -> int
    decreases n,
{
    if n == 0 {
        0
    } else {
        cyclic(p, r, (n - 1) as nat) + if (n - 1) % 243 == r {
            p[n - 1]
        } else {
            0
        }
    }
}

/// Coefficient `i` of the first `n` terms of `p` modulo `Z^162 + Z^81 + 1`: since `Z^243 = 1` and
/// `Z^162 = -Z^81 - 1`, what stands above `Z^161` comes back negated at `i mod 81`.
pub open spec fn coefficient(p: Seq<int>, i: int, n: nat) -> int {
    cyclic(p, i, n) - cyclic(p, 162 + i % 81, n)
}

/// `p` modulo `Z^162 + Z^81 + 1`.
pub open spec fn reduced(p: Seq<int>) -> Seq<int> {
    Seq::new(162, |i: int| coefficient(p, i, p.len()))
}

/// The coefficients as integers.
pub open spec fn ints(a: Seq<i64>) -> Seq<int> {
    Seq::new(a.len(), |i: int| a[i] as int)
}

/// The magnitude of a number.
pub open spec fn abs(x: int) -> int {
    if x < 0 {
        -x
    } else {
        x
    }
}

/// The sum of the magnitudes of the first `n` coefficients.
pub open spec fn mass(p: Seq<int>, n: nat) -> int
    decreases n,
{
    if n == 0 {
        0
    } else {
        mass(p, (n - 1) as nat) + abs(p[n - 1])
    }
}

proof fn lemma_mass(p: Seq<int>, i: nat, n: nat)
    requires
        i <= n,
    ensures
        0 <= mass(p, i) <= mass(p, n),
    decreases n,
{
    if i < n {
        lemma_mass(p, i, (n - 1) as nat);
    } else if n > 0 {
        lemma_mass(p, (n - 1) as nat, (n - 1) as nat);
    }
}

/// A coefficient is no larger than the mass.
proof fn lemma_coefficient(p: Seq<int>, i: int, n: nat)
    requires
        0 <= i < 162,
    ensures
        abs(coefficient(p, i, n)) <= mass(p, n),
    decreases n,
{
    if n > 0 {
        lemma_coefficient(p, i, (n - 1) as nat);
    }
}

/// `p mod Phi_243`, using `Z^162 = -Z^81 - 1`.
pub fn reduce(p: &[i64]) -> (out: SElem)
    requires
        mass(ints(p@), p@.len()) <= i64::MAX,
    ensures
        ints(out@) == reduced(ints(p@)),
{
    let n: usize = p.len();
    let ghost pp = ints(p@);
    let mut out: SElem = [0;162];
    let mut t: usize = 0;
    while t < n
        invariant
            t <= n == p@.len(),
            pp == ints(p@),
            mass(pp, n as nat) <= i64::MAX,
            forall|i: int| 0 <= i < 162 ==> (#[trigger] out@[i]) == coefficient(pp, i, t as nat),
        decreases n - t,
    {
        let r: usize = t % 243;
        let x: i64 = p[t];
        proof {
            lemma_mass(pp, (t + 1) as nat, n as nat);
            assert forall|i: int| 0 <= i < 162 implies abs(
                #[trigger] coefficient(pp, i, (t + 1) as nat),
            ) <= i64::MAX by {
                lemma_coefficient(pp, i, (t + 1) as nat);
            }
            assert forall|i: int| 0 <= i < 162 implies (#[trigger] coefficient(
                pp,
                i,
                (t + 1) as nat,
            )) == coefficient(pp, i, t as nat) + (if i == r {
                x as int
            } else {
                0
            }) - (if 162 + i % 81 == r {
                x as int
            } else {
                0
            }) by {}
        }
        if r < 162 {
            assert(coefficient(pp, r as int, (t + 1) as nat) == out@[r as int] + x);
            out[r] = out[r] + x;
        } else {
            assert(coefficient(pp, r - 162, (t + 1) as nat) == out@[r - 162] - x);
            assert(coefficient(pp, r - 81, (t + 1) as nat) == out@[r - 81] - x);
            out[r - 162] = out[r - 162] - x;
            out[r - 81] = out[r - 81] - x;
        }
        t += 1;
    }
    assert(ints(out@) =~= reduced(pp));
    out
}

/// `Z^s a`.
pub open spec fn raised(a: Seq<int>, s: nat) -> Seq<int> {
    Seq::new(s + a.len(), |t: int| if t < s { 0 } else { a[t - s] })
}

/// The mass of `Z^s a`.
proof fn lemma_raised_mass(a: Seq<int>, s: nat, n: nat)
    requires
        n <= a.len(),
    ensures
        mass(raised(a, s), s + n) == mass(a, n),
    decreases s + n,
{
    if n > 0 {
        lemma_raised_mass(a, s, (n - 1) as nat);
    } else if s > 0 {
        lemma_zero_mass(raised(a, s), s);
    }
}

proof fn lemma_zero_mass(p: Seq<int>, n: nat)
    requires
        forall|i: int| 0 <= i < n ==> (#[trigger] p[i]) == 0,
    ensures
        mass(p, n) == 0,
    decreases n,
{
    if n > 0 {
        lemma_zero_mass(p, (n - 1) as nat);
    }
}

/// `Z^s a mod Phi_243`.
pub fn shift(a: &SElem, s: usize) -> (out: SElem)
    requires
        mass(ints(a@), 162) <= i64::MAX,
        s + 162 <= usize::MAX,
    ensures
        ints(out@) == reduced(raised(ints(a@), s as nat)),
{
    let mut p: Vec<i64> = vec![0i64; s];
    let ghost aa = ints(a@);
    let mut i: usize = 0;
    while i < 162
        invariant
            i <= 162,
            aa == ints(a@),
            p@.len() == s + i,
            forall|t: int| 0 <= t < s + i ==> (#[trigger] p@[t]) == raised(aa, s as nat)[t],
        decreases 162 - i,
    {
        p.push(a[i]);
        i += 1;
    }
    proof {
        assert(ints(p@) =~= raised(aa, s as nat));
        lemma_raised_mass(aa, s as nat, 162);
    }
    reduce(p.as_slice())
}

/// The first `n` terms of a product.
spec fn partial(a: Seq<int>, b: Seq<int>, n: nat) -> Seq<int> {
    Seq::new(324, |k: int| poly::conv(a, b, k, n))
}

/// Masses add up.
proof fn lemma_mass_sum(p: Seq<int>, q: Seq<int>, s: Seq<int>, n: nat)
    requires
        forall|i: int| 0 <= i < n ==> (#[trigger] s[i]) == p[i] + q[i],
    ensures
        mass(s, n) <= mass(p, n) + mass(q, n),
    decreases n,
{
    if n > 0 {
        lemma_mass_sum(p, q, s, (n - 1) as nat);
        assert(s[n - 1] == p[n - 1] + q[n - 1]);
    }
}

/// `c Z^i b`, in 324 places.
spec fn term(c: int, b: Seq<int>, i: int) -> Seq<int> {
    Seq::new(
        324,
        |k: int|
            if 0 <= k - i < b.len() {
                c * b[k - i]
            } else {
                0
            },
    )
}

proof fn lemma_term_mass(c: int, b: Seq<int>, i: int, n: nat)
    requires
        b.len() == 162,
        0 <= i < 162,
        n <= 324,
    ensures
        mass(term(c, b, i), n) == abs(c) * mass(
            b,
            if n <= i {
                0
            } else if n <= i + 162 {
                (n - i) as nat
            } else {
                162
            },
        ),
    decreases n,
{
    let m = abs(c);
    if n == 0 {
        assert(m * 0 == 0) by (nonlinear_arith);
    } else {
        lemma_term_mass(c, b, i, (n - 1) as nat);
        let k = n - 1;
        assert(m * 0 == 0) by (nonlinear_arith);
        if i <= k < i + 162 {
            let (x, y) = (b[k - i], mass(b, (k - i) as nat));
            lemma_abs_mul(c, x);
            assert(m * (y + abs(x)) == m * y + m * abs(x)) by (nonlinear_arith);
        }
    }
}

proof fn lemma_abs_mul(x: int, y: int)
    ensures
        abs(x * y) == abs(x) * abs(y),
{
    assert(abs(x * y) == abs(x) * abs(y)) by (nonlinear_arith)
        requires
            abs(x) == (if x < 0 {
                -x
            } else {
                x
            }),
            abs(y) == (if y < 0 {
                -y
            } else {
                y
            }),
            abs(x * y) == (if x * y < 0 {
                -(x * y)
            } else {
                x * y
            }),
    ;
}

/// The mass of a product is at most the product of the masses.
proof fn lemma_product_mass(a: Seq<int>, b: Seq<int>, n: nat)
    requires
        a.len() == 162,
        b.len() == 162,
        n <= 162,
    ensures
        mass(partial(a, b, n), 324) <= mass(a, n) * mass(b, 162),
    decreases n,
{
    let m = mass(b, 162);
    if n == 0 {
        lemma_zero_mass(partial(a, b, 0), 324);
        assert(0 * m == 0) by (nonlinear_arith);
    } else {
        let i = (n - 1) as nat;
        lemma_product_mass(a, b, i);
        lemma_term_mass(a[n - 1], b, n - 1, 324);
        lemma_mass_sum(partial(a, b, i), term(a[n - 1], b, n - 1), partial(a, b, n), 324);
        let (x, y) = (mass(a, i), abs(a[n - 1]));
        assert((x + y) * m == x * m + y * m) by (nonlinear_arith);
    }
}

/// A coefficient is no larger than the mass.
proof fn lemma_entry_mass(p: Seq<int>, k: int, n: nat)
    requires
        0 <= k < n,
    ensures
        abs(p[k]) <= mass(p, n),
    decreases n,
{
    lemma_mass(p, k as nat, n);
    if k < n - 1 {
        lemma_entry_mass(p, k, (n - 1) as nat);
    } else {
        lemma_mass(p, (n - 1) as nat, n);
    }
}

/// Adds `c Z^i b` to a product.
fn add_term(p: &mut Vec<i64>, c: i64, b: &SElem, i: usize, Ghost(a): Ghost<Seq<int>>)
    requires
        i < 162,
        a.len() == 162,
        a[i as int] == c,
        mass(a, 162) * mass(ints(b@), 162) <= i64::MAX,
        ints(old(p)@) == partial(a, ints(b@), i as nat),
    ensures
        ints(final(p)@) == partial(a, ints(b@), (i + 1) as nat),
{
    let ghost bb = ints(b@);
    let ghost before = ints(p@);
    let ghost after = partial(a, bb, (i + 1) as nat);
    proof {
        lemma_product_mass(a, bb, (i + 1) as nat);
        lemma_mass(a, (i + 1) as nat, 162);
        lemma_mass(bb, 162, 162);
        let (x, y, m) = (mass(a, (i + 1) as nat), mass(a, 162), mass(bb, 162));
        assert(x * m <= y * m) by (nonlinear_arith)
            requires
                x <= y,
                0 <= m,
        ;
    }
    assert(ints(p@).len() == 324);
    assert forall|k: int| 0 <= k < 324 implies (#[trigger] p@[k]) == before[k] by {
        assert(ints(p@)[k] == before[k]);
    }
    let mut j: usize = 0;
    while j < 162
        invariant
            i < 162,
            j <= 162,
            a.len() == 162,
            a[i as int] == c,
            bb == ints(b@),
            before == partial(a, bb, i as nat),
            after == partial(a, bb, (i + 1) as nat),
            mass(a, 162) * mass(bb, 162) <= i64::MAX,
            mass(after, 324) <= i64::MAX,
            p@.len() == 324,
            forall|k: int|
                0 <= k < 324 ==> (#[trigger] p@[k]) == (if i <= k < i + j {
                    after[k]
                } else {
                    before[k]
                }),
        decreases 162 - j,
    {
        proof {
            let k = i + j;
            assert(after[k] == before[k] + c * bb[j as int]);
            lemma_entry_mass(after, k as int, 324);
            lemma_entry_mass(a, i as int, 162);
            lemma_entry_mass(bb, j as int, 162);
            lemma_abs_mul(c as int, bb[j as int]);
            let (x, y, m, n) = (abs(c as int), abs(bb[j as int]), mass(a, 162), mass(bb, 162));
            assert(x * y <= m * n) by (nonlinear_arith)
                requires
                    0 <= x <= m,
                    0 <= y <= n,
            ;
        }
        let t: i64 = c * b[j];
        let z: i64 = p[i + j] + t;
        p.set(i + j, z);
        j += 1;
    }
    proof {
        assert forall|k: int| 0 <= k < 324 && !(i <= k < i + 162) implies after[k] == before[k] by {}
        assert(ints(p@) =~= after);
    }
}

/// `a b mod Phi_243`, schoolbook.
pub fn mul(a: &SElem, b: &SElem) -> (out: SElem)
    requires
        mass(ints(a@), 162) * mass(ints(b@), 162) <= i64::MAX,
    ensures
        ints(out@) == reduced(poly::product(ints(a@), ints(b@))),
{
    let mut p: Vec<i64> = vec![0i64; 324];
    let ghost (aa, bb) = (ints(a@), ints(b@));
    let mut i: usize = 0;
    assert(ints(p@) =~= partial(aa, bb, 0));
    while i < 162
        invariant
            i <= 162,
            aa == ints(a@),
            bb == ints(b@),
            mass(aa, 162) * mass(bb, 162) <= i64::MAX,
            ints(p@) == partial(aa, bb, i as nat),
        decreases 162 - i,
    {
        add_term(&mut p, a[i], b, i, Ghost(aa));
        i += 1;
    }
    proof {
        assert(ints(p@) =~= poly::product(aa, bb));
        lemma_product_mass(aa, bb, 162);
    }
    reduce(p.as_slice())
}

/// Coefficient `9 a + u` of `Z^(54 b) g`.
pub open spec fn block(g: Seq<int>, b: int, a: int, u: int) -> int {
    reduced(raised(g, (54 * b) as nat))[9 * a + u]
}

/// The public blocks of `g`: `blocks[b][a][u]` is coefficient `9 a + u` of `Z^(54 b) g mod Phi_243`,
/// the multiplier chunk `b` of a witness meets at diagonal `a`.
pub fn blocks(g: &SElem) -> (out: Blocks)
    requires
        mass(ints(g@), 162) <= i64::MAX,
        forall|b: int, a: int, u: int|
            0 <= b < 3 && 0 <= a < 18 && 0 <= u < 9 ==> -0x8000 <= #[trigger] block(
                ints(g@),
                b,
                a,
                u,
            ) <= 0x7FFF,
    ensures
        forall|b: int, a: int, u: int|
            0 <= b < 3 && 0 <= a < 18 && 0 <= u < 9 ==> (#[trigger] out@[b]@[a]@[u]) == block(
                ints(g@),
                b,
                a,
                u,
            ),
{
    let ghost gg = ints(g@);
    let mut out: Blocks = [[[0;9];18];3];
    let mut b: usize = 0;
    while b < 3
        invariant
            b <= 3,
            gg == ints(g@),
            mass(gg, 162) <= i64::MAX,
            forall|b: int, a: int, u: int|
                0 <= b < 3 && 0 <= a < 18 && 0 <= u < 9 ==> -0x8000 <= #[trigger] block(
                    gg,
                    b,
                    a,
                    u,
                ) <= 0x7FFF,
            forall|c: int, a: int, u: int|
                0 <= c < b && 0 <= a < 18 && 0 <= u < 9 ==> (#[trigger] out@[c]@[a]@[u]) == block(
                    gg,
                    c,
                    a,
                    u,
                ),
        decreases 3 - b,
    {
        let h = shift(g, 54 * b);
        let mut plane: [[i16; 9]; 18] = [[0;9];18];
        let mut a: usize = 0;
        while a < 18
            invariant
                b < 3,
                a <= 18,
                gg == ints(g@),
                ints(h@) == reduced(raised(gg, (54 * b) as nat)),
                forall|b: int, a: int, u: int|
                    0 <= b < 3 && 0 <= a < 18 && 0 <= u < 9 ==> -0x8000 <= #[trigger] block(
                        gg,
                        b,
                        a,
                        u,
                    ) <= 0x7FFF,
                forall|c: int, u: int|
                    0 <= c < a && 0 <= u < 9 ==> (#[trigger] plane@[c]@[u]) == block(
                        gg,
                        b as int,
                        c,
                        u,
                    ),
            decreases 18 - a,
        {
            let mut row: [i16; 9] = [0;9];
            let mut u: usize = 0;
            while u < 9
                invariant
                    b < 3,
                    a < 18,
                    u <= 9,
                    ints(h@) == reduced(raised(gg, (54 * b) as nat)),
                    forall|b: int, a: int, u: int|
                        0 <= b < 3 && 0 <= a < 18 && 0 <= u < 9 ==> -0x8000 <= #[trigger] block(
                            gg,
                            b,
                            a,
                            u,
                        ) <= 0x7FFF,
                    forall|c: int|
                        0 <= c < u ==> (#[trigger] row@[c]) == block(gg, b as int, a as int, c),
                decreases 9 - u,
            {
                assert(ints(h@)[9 * a + u] == block(gg, b as int, a as int, u as int));
                row[u] = h[9 * a + u] as i16;
                u += 1;
            }
            plane[a] = row;
            a += 1;
        }
        out[b] = plane;
        b += 1;
    }
    out
}

/// Chunk `b` of an element, in 64 places.
pub open spec fn chunk(x: Seq<int>, b: int) -> Seq<int> {
    Seq::new(64, |j: int| if j < 54 { x[54 * b + j] } else { 0 })
}

/// The coefficients of a polynomial as integers.
pub open spec fn shorts(p: Seq<i16>) -> Seq<int> {
    Seq::new(p.len(), |i: int| p[i] as int)
}

/// The chunk polynomials of a witness element: chunk `b` holds coefficients `54 b .. 54 (b + 1)` at
/// positions `0 .. 54`, the rest zero.
pub fn chunks(x: &SElem) -> (out: [Poly; 3])
    requires
        forall|i: int| 0 <= i < 162 ==> -0x8000 <= (#[trigger] x@[i]) <= 0x7FFF,
    ensures
        forall|b: int| 0 <= b < 3 ==> shorts((#[trigger] out@[b])@) == chunk(ints(x@), b),
{
    let mut out: [Poly; 3] = [[0;64];3];
    let mut b: usize = 0;
    while b < 3
        invariant
            b <= 3,
            forall|i: int| 0 <= i < 162 ==> -0x8000 <= (#[trigger] x@[i]) <= 0x7FFF,
            forall|c: int| 0 <= c < b ==> shorts((#[trigger] out@[c])@) == chunk(ints(x@), c),
        decreases 3 - b,
    {
        let mut p: Poly = [0;64];
        let mut j: usize = 0;
        while j < 54
            invariant
                b < 3,
                j <= 54,
                forall|i: int| 0 <= i < 162 ==> -0x8000 <= (#[trigger] x@[i]) <= 0x7FFF,
                forall|i: int| 0 <= i < j ==> (#[trigger] p@[i]) == x@[54 * b + i],
                forall|i: int| j <= i < 64 ==> (#[trigger] p@[i]) == 0,
            decreases 54 - j,
        {
            assert(-0x8000 <= x@[54 * b + j] <= 0x7FFF);
            p[j] = x[54 * b + j] as i16;
            j += 1;
        }
        assert(shorts(p@) =~= chunk(ints(x@), b as int));
        out[b] = p;
        b += 1;
    }
    out
}

/// `sum_b Z^(54 b) c_b`, before reduction.
pub open spec fn spread(c: Seq<Poly>) -> Seq<int> {
    Seq::new(
        172,
        |t: int|
            (if t < 64 {
                c[0]@[t] as int
            } else {
                0
            }) + (if 54 <= t < 118 {
                c[1]@[t - 54] as int
            } else {
                0
            }) + (if 108 <= t {
                c[2]@[t - 108] as int
            } else {
                0
            }),
    )
}

/// Every chunk keeps to positions `0 .. 54`.
pub open spec fn is_supported(c: Seq<Poly>) -> bool {
    forall|b: int, j: int| 0 <= b < 3 && 54 <= j < 64 ==> (#[trigger] c[b]@[j]) == 0
}

proof fn lemma_spread_mass(c: Seq<Poly>, n: nat)
    requires
        n <= 172,
    ensures
        mass(spread(c), n) <= n * 0x1_8000,
    decreases n,
{
    if n > 0 {
        lemma_spread_mass(c, (n - 1) as nat);
    }
}

/// `sum_b Z^(54 b) chunk_b mod Phi_243`: the inverse of [`chunks`] on a well-formed encoding, and
/// the value a malformed one actually stands for.
pub fn decode(c: &[Poly; 3]) -> (x: SElem)
    ensures
        ints(x@) == reduced(spread(c@)),
{
    let mut p: Vec<i64> = Vec::new();
    let mut t: usize = 0;
    while t < 172
        invariant
            t <= 172,
            p@.len() == t,
            forall|i: int| 0 <= i < t ==> (#[trigger] p@[i]) == spread(c@)[i],
        decreases 172 - t,
    {
        let mut y: i64 = 0;
        if t < 64 {
            y = c[0][t] as i64;
        }
        if 54 <= t && t < 118 {
            y = y + c[1][t - 54] as i64;
        }
        if 108 <= t {
            y = y + c[2][t - 108] as i64;
        }
        p.push(y);
        t += 1;
    }
    proof {
        assert(ints(p@) =~= spread(c@));
        lemma_spread_mass(c@, 172);
    }
    reduce(p.as_slice())
}

/// Does every chunk keep to positions `0 .. 54`?
pub fn supported(c: &[Poly; 3]) -> (r: bool)
    ensures
        r == is_supported(c@),
{
    let mut b: usize = 0;
    while b < 3
        invariant
            b <= 3,
            forall|i: int, j: int| 0 <= i < b && 54 <= j < 64 ==> (#[trigger] c@[i]@[j]) == 0,
        decreases 3 - b,
    {
        let mut j: usize = 54;
        while j < 64
            invariant
                b < 3,
                54 <= j <= 64,
                forall|i: int| 54 <= i < j ==> (#[trigger] c@[b as int]@[i]) == 0,
            decreases 64 - j,
        {
            if c[b][j] != 0 {
                assert(c@[b as int]@[j as int] != 0);
                return false;
            }
            j += 1;
        }
        b += 1;
    }
    true
}

/// Short polynomials are reduced already.
pub proof fn lemma_reduced_short(p: Seq<int>, n: nat, i: int)
    requires
        0 <= i < 162,
        n <= 162 || forall|t: int| 162 <= t < n ==> (#[trigger] p[t]) == 0,
        n <= 243,
    ensures
        coefficient(p, i, n) == (if i < n {
            p[i]
        } else {
            0
        }),
    decreases n,
{
    if n > 0 {
        lemma_reduced_short(p, (n - 1) as nat, i);
    }
}

/// Decoding undoes the chunk encoding, and the encoding keeps to its places.
pub proof fn decode_chunks(x: Seq<int>, c: Seq<Poly>)
    requires
        x.len() == 162,
        c.len() == 3,
        forall|b: int| 0 <= b < 3 ==> shorts((#[trigger] c[b])@) == chunk(x, b),
    ensures
        reduced(spread(c)) == x,
        is_supported(c),
{
    assert forall|b: int, j: int| 0 <= b < 3 && 0 <= j < 64 implies (#[trigger] c[b]@[j]) == chunk(
        x,
        b,
    )[j] by {
        assert(shorts(c[b]@)[j] == chunk(x, b)[j]);
    }
    let p = spread(c);
    assert forall|t: int| 0 <= t < 162 implies (#[trigger] p[t]) == x[t] by {
        if t < 54 {
            assert(c[0]@[t] == chunk(x, 0)[t]);
        } else if t < 108 {
            assert(c[1]@[t - 54] == chunk(x, 1)[t - 54]);
            if t < 64 {
                assert(c[0]@[t] == chunk(x, 0)[t]);
            }
        } else {
            assert(c[2]@[t - 108] == chunk(x, 2)[t - 108]);
            if t < 118 {
                assert(c[1]@[t - 54] == chunk(x, 1)[t - 54]);
            }
        }
    }
    assert forall|t: int| 162 <= t < 172 implies (#[trigger] p[t]) == 0 by {
        assert(c[2]@[t - 108] == chunk(x, 2)[t - 108]);
    }
    assert forall|i: int| 0 <= i < 162 implies reduced(p)[i] == x[i] by {
        lemma_reduced_short(p, 172, i);
    }
    assert(reduced(p) =~= x);
}

// ---------------------------------------------------------------------------------------------
// windows
// ---------------------------------------------------------------------------------------------

/// The sign that window `w` of an element carries in sub-chunk `a` of its block `b`. Every shift of
/// the reduction is a multiple of nine, so whole windows of nine coefficients move together.
pub open spec fn tap(b: int, a: int, w: int) -> int {
    let e = (6 * b + w) % 27;
    (if e == a {
        1int
    } else {
        0
    }) - (if e == 18 + a % 9 {
        1int
    } else {
        0
    })
}

/// `sum over w < n of tap(b, a, w) g[9 w + u]`.
pub open spec fn tap_sum(g: Seq<int>, b: int, a: int, u: int, n: nat) -> int
    decreases n,
{
    if n == 0 {
        0
    } else {
        tap_sum(g, b, a, u, (n - 1) as nat) + tap(b, a, n - 1) * g[9 * (n - 1) + u]
    }
}

/// What comes to place `9 r + u` from the first `n` windows.
spec fn gathered(g: Seq<int>, b: int, r: int, u: int, n: nat) -> int
    decreases n,
{
    if n == 0 {
        0
    } else {
        gathered(g, b, r, u, (n - 1) as nat) + if (6 * b + (n - 1)) % 27 == r {
            g[9 * (n - 1) + u]
        } else {
            0
        }
    }
}

proof fn lemma_before(g: Seq<int>, s: nat, r: int, n: nat)
    requires
        n <= s,
    ensures
        cyclic(raised(g, s), r, n) == 0,
    decreases n,
{
    if n > 0 {
        lemma_before(g, s, r, (n - 1) as nat);
    }
}

/// A place of the shifted element, one term at a time.
proof fn lemma_step(g: Seq<int>, b: int, r: int, u: int, w: int, v: int)
    requires
        g.len() == 162,
        0 <= b < 3,
        0 <= r < 27,
        0 <= u < 9,
        0 <= w < 18,
        0 <= v < 9,
    ensures
        ({
            let t = 54 * b + 9 * w + v;
            let p = raised(g, (54 * b) as nat);
            cyclic(p, 9 * r + u, (t + 1) as nat) == cyclic(p, 9 * r + u, t as nat) + if v == u && (6
                * b + w) % 27 == r {
                g[9 * w + u]
            } else {
                0
            }
        }),
{
    let t = 54 * b + 9 * w + v;
    let e = 6 * b + w;
    assert(t == 9 * e + v);
    let k = e / 27;
    assert(e == 27 * k + e % 27);
    assert(t == 243 * k + (9 * (e % 27) + v));
    assert(t % 243 == 9 * (e % 27) + v);
}

proof fn lemma_window(g: Seq<int>, b: int, r: int, u: int, n: nat)
    requires
        g.len() == 162,
        0 <= b < 3,
        0 <= r < 27,
        0 <= u < 9,
        n <= 18,
    ensures
        cyclic(raised(g, (54 * b) as nat), 9 * r + u, (54 * b + 9 * n) as nat) == gathered(
            g,
            b,
            r,
            u,
            n,
        ),
    decreases n,
{
    if n == 0 {
        lemma_before(g, (54 * b) as nat, 9 * r + u, (54 * b) as nat);
    } else {
        lemma_window(g, b, r, u, (n - 1) as nat);
        let w = n - 1;
        lemma_step(g, b, r, u, w, 0);
        lemma_step(g, b, r, u, w, 1);
        lemma_step(g, b, r, u, w, 2);
        lemma_step(g, b, r, u, w, 3);
        lemma_step(g, b, r, u, w, 4);
        lemma_step(g, b, r, u, w, 5);
        lemma_step(g, b, r, u, w, 6);
        lemma_step(g, b, r, u, w, 7);
        lemma_step(g, b, r, u, w, 8);
    }
}

proof fn lemma_tap_sum(g: Seq<int>, b: int, a: int, u: int, n: nat)
    ensures
        tap_sum(g, b, a, u, n) == gathered(g, b, a, u, n) - gathered(g, b, 18 + a % 9, u, n),
    decreases n,
{
    if n > 0 {
        lemma_tap_sum(g, b, a, u, (n - 1) as nat);
        let x = g[9 * (n - 1) + u];
        assert(0 * x == 0 && 1 * x == x && (-1) * x == -x) by (nonlinear_arith);
    }
}

/// A sub-chunk of a block is the signed sum of windows that the taps name.
pub proof fn taps_are_blocks(g: Seq<int>, b: int, a: int, u: int)
    requires
        g.len() == 162,
        0 <= b < 3,
        0 <= a < 18,
        0 <= u < 9,
    ensures
        block(g, b, a, u) == tap_sum(g, b, a, u, 18),
{
    let i = 9 * a + u;
    lemma_window(g, b, a, u, 18);
    lemma_window(g, b, 18 + a % 9, u, 18);
    lemma_tap_sum(g, b, a, u, 18);
    assert(162 + i % 81 == 9 * (18 + a % 9) + u);
    assert(raised(g, (54 * b) as nat).len() == 54 * b + 162);
}

/// The windows below `n` with a sign, in order.
pub open spec fn tap_list(b: int, a: int, n: nat) -> Seq<(u16, i8)>
    decreases n,
{
    if n == 0 {
        Seq::empty()
    } else if tap(b, a, n - 1) == 0 {
        tap_list(b, a, (n - 1) as nat)
    } else {
        tap_list(b, a, (n - 1) as nat).push(((n - 1) as u16, tap(b, a, n - 1) as i8))
    }
}

fn taps_of(b: usize, a: usize) -> (t: Vec<(u16, i8)>)
    requires
        b < 3,
        a < 18,
    ensures
        t@ == tap_list(b as int, a as int, 18),
{
    let mut t: Vec<(u16, i8)> = Vec::new();
    let mut w: usize = 0;
    while w < 18
        invariant
            w <= 18,
            b < 3,
            a < 18,
            t@ == tap_list(b as int, a as int, w as nat),
        decreases 18 - w,
    {
        let e: usize = (6 * b + w) % 27;
        if e == a {
            t.push((w as u16, 1));
        } else if e == 18 + a % 9 {
            t.push((w as u16, -1));
        }
        w += 1;
    }
    t
}

/// The windows that make up sub-chunk `a` of block `b`, with signs: `taps()[b][a]`.
pub fn taps() -> (out: Vec<Vec<Vec<(u16, i8)>>>)
    ensures
        out@.len() == 3,
        forall|b: int| 0 <= b < 3 ==> (#[trigger] out@[b])@.len() == 18,
        forall|b: int, a: int|
            0 <= b < 3 && 0 <= a < 18 ==> (#[trigger] out@[b]@[a])@ == tap_list(b, a, 18),
{
    let mut out: Vec<Vec<Vec<(u16, i8)>>> = Vec::new();
    let mut b: usize = 0;
    while b < 3
        invariant
            b <= 3,
            out@.len() == b,
            forall|c: int| 0 <= c < b ==> (#[trigger] out@[c])@.len() == 18,
            forall|c: int, a: int|
                0 <= c < b && 0 <= a < 18 ==> (#[trigger] out@[c]@[a])@ == tap_list(c, a, 18),
        decreases 3 - b,
    {
        let mut row: Vec<Vec<(u16, i8)>> = Vec::new();
        let mut a: usize = 0;
        while a < 18
            invariant
                b < 3,
                a <= 18,
                row@.len() == a,
                forall|c: int|
                    0 <= c < a ==> (#[trigger] row@[c])@ == tap_list(b as int, c, 18),
            decreases 18 - a,
        {
            row.push(taps_of(b, a));
            a += 1;
        }
        out.push(row);
        b += 1;
    }
    out
}

/// The taps that are listed make up a sub-chunk of a block: it is the sum of the windows they name, with
/// their signs.
pub proof fn listed_taps_are_blocks(g: Seq<int>, b: int, a: int, u: int)
    requires
        g.len() == 162,
        0 <= b < 3,
        0 <= a < 18,
        0 <= u < 9,
    ensures
        ({
            let l = tap_list(b, a, 18);
            &&& block(g, b, a, u) == algebra::total(
                |t: int| l[t].1 as int * g[9 * l[t].0 as int + u],
                l.len(),
            )
            &&& forall|t: int| 0 <= t < l.len() ==> (#[trigger] l[t]).1 == 1 || l[t].1 == -1
        }),
{
    taps_are_blocks(g, b, a, u);
    lemma_listed(g, b, a, u, 18);
}

proof fn lemma_listed(g: Seq<int>, b: int, a: int, u: int, n: nat)
    requires
        n <= 18,
    ensures
        ({
            let l = tap_list(b, a, n);
            &&& tap_sum(g, b, a, u, n) == algebra::total(
                |t: int| l[t].1 as int * g[9 * l[t].0 as int + u],
                l.len(),
            )
            &&& forall|t: int| 0 <= t < l.len() ==> (#[trigger] l[t]).1 == 1 || l[t].1 == -1
        }),
    decreases n,
{
    if n > 0 {
        let m = (n - 1) as nat;
        lemma_listed(g, b, a, u, m);
        let (k, l) = (tap_list(b, a, m), tap_list(b, a, n));
        let x = g[9 * (n - 1) + u];
        assert(0 * x == 0) by (nonlinear_arith);
        if tap(b, a, n - 1) != 0 {
            let f = |t: int| l[t].1 as int * g[9 * l[t].0 as int + u];
            assert(algebra::total(f, l.len()) == algebra::total(f, k.len()) + f(l.len() - 1));
            algebra::lemma_same(f, |t: int| k[t].1 as int * g[9 * k[t].0 as int + u], k.len());
            assert(l[l.len() - 1] == ((n - 1) as u16, tap(b, a, n - 1) as i8));
        }
    }
}

} // verus!
