//! A chain's products as term-major tables, and the sums over them.
use super::algebra;
use super::chain;
use super::chain::{Product, Sums};
use super::chunk;
use super::{Blocks, Poly};
use vstd::arithmetic::div_mod::*;
use vstd::prelude::*;

verus! {

/// A term-major table and the largest magnitude in it.
#[derive(Clone, Debug)]
pub struct Table {
    pub data: Vec<i16>,
    pub bound: i64,
}

/// One run of a chain's terms in term-major form: `g[(9 a + u) terms + t]` is coefficient `u` of
/// sub-chunk `a` of the public multiplier of term `t`, `x[j terms + t]` coefficient `j` of its
/// witness polynomial. Both tables are zero past the run.
#[derive(Clone, Debug)]
pub struct Run {
    pub g: Table,
    pub x: Table,
    pub terms: usize,
}

/// The next multiple of 32, at least 32.
pub open spec fn padded_to(len: int) -> int {
    if len <= 32 {
        32
    } else {
        (len + 31) / 32 * 32
    }
}

pub fn padded(len: usize) -> (n: usize)
    requires
        len + 31 <= usize::MAX,
    ensures
        n == padded_to(len as int),
        n >= len,
        n % 32 == 0,
        n >= 32,
{
    if len <= 32 {
        32
    } else {
        (len + 31) / 32 * 32
    }
}

/// The largest magnitude among the first `n` entries.
pub open spec fn largest(d: Seq<i16>, n: nat) -> int
    decreases n,
{
    if n == 0 {
        0
    } else {
        let m = largest(d, (n - 1) as nat);
        let x = chunk::abs(d[n - 1] as int);
        if x > m {
            x
        } else {
            m
        }
    }
}

impl Table {
    fn of(data: Vec<i16>) -> (t: Table)
        ensures
            t.data == data,
            t.bound == largest(data@, data@.len()),
    {
        let n: usize = data.len();
        let mut bound: i64 = 0;
        let mut i: usize = 0;
        while i < n
            invariant
                i <= n == data@.len(),
                bound == largest(data@, i as nat),
                0 <= bound <= 0x8000,
            decreases n - i,
        {
            let x: i64 = data[i] as i64;
            let y: i64 = if x < 0 {
                -x
            } else {
                x
            };
            if y > bound {
                bound = y;
            }
            i += 1;
        }
        Table { data, bound }
    }
}

/// Entry `i` of the target holds entry `(i mod ds, i / ds)` of the source, for the rows from `r0` to
/// `r1` and the columns from `c0` to `c1`; the other entries are left alone.
pub open spec fn is_transposed(
    before: Seq<i16>,
    after: Seq<i16>,
    src: Seq<i16>,
    ss: int,
    ds: int,
    r0: int,
    r1: int,
    c0: int,
    c1: int,
) -> bool {
    &&& after.len() == before.len()
    &&& forall|i: int|
        0 <= i < after.len() ==> (#[trigger] after[i]) == (if within(ds, r0, r1, c0, c1, i) {
            turned(src, ss, ds, i)
        } else {
            before[i]
        })
}

/// Entry `i` of the target stands in the rows and columns.
pub open spec fn within(ds: int, r0: int, r1: int, c0: int, c1: int, i: int) -> bool {
    r0 <= i % ds < r1 && c0 <= i / ds < c1
}

/// The entry of the source that comes to entry `i` of the target.
pub open spec fn turned(src: Seq<i16>, ss: int, ds: int, i: int) -> i16 {
    src[i % ds * ss + i / ds]
}

/// The index of row `r`, column `c`.
proof fn lemma_index(ds: int, r: int, c: int)
    requires
        0 <= r < ds,
        0 <= c,
    ensures
        (c * ds + r) / ds == c,
        (c * ds + r) % ds == r,
        c * ds + r >= 0,
{
    assert(0 <= c * ds) by (nonlinear_arith)
        requires
            0 <= c,
            0 < ds,
    ;
    lemma_fundamental_div_mod_converse(c * ds + r, ds, c, r);
}

/// The source and the target hold the rectangle.
pub open spec fn rectangle(src: Seq<i16>, dst: Seq<i16>, ss: int, ds: int, rows: int, cols: int) -> bool {
    &&& 0 < ds
    &&& 0 <= cols <= ss
    &&& 0 <= rows <= ds
    &&& rows * ss <= src.len()
    &&& cols * ds <= dst.len()
}

/// One tile: `dst[c ds + r] = src[r ss + c]` for `r0 <= r < r1` and `c0 <= c < c1`.
fn tile(
    src: &[i16],
    ss: usize,
    r0: usize,
    r1: usize,
    c0: usize,
    c1: usize,
    dst: &mut Vec<i16>,
    ds: usize,
)
    requires
        r0 <= r1,
        c0 <= c1,
        rectangle(src@, old(dst)@, ss as int, ds as int, r1 as int, c1 as int),
    ensures
        is_transposed(
            old(dst)@,
            final(dst)@,
            src@,
            ss as int,
            ds as int,
            r0 as int,
            r1 as int,
            c0 as int,
            c1 as int,
        ),
{
    let ghost before = dst@;
    let slen: usize = src.len();
    let dlen: usize = dst.len();
    let mut c: usize = c0;
    while c < c1
        invariant
            c0 <= c <= c1,
            r0 <= r1,
            slen == src@.len(),
            dlen == dst@.len(),
            rectangle(src@, dst@, ss as int, ds as int, r1 as int, c1 as int),
            is_transposed(
                before,
                dst@,
                src@,
                ss as int,
                ds as int,
                r0 as int,
                r1 as int,
                c0 as int,
                c as int,
            ),
        decreases c1 - c,
    {
        let ghost start = dst@;
        let mut r: usize = r0;
        while r < r1
            invariant
                c0 <= c < c1,
                r0 <= r <= r1,
                slen == src@.len(),
                dlen == dst@.len() == start.len(),
                rectangle(src@, dst@, ss as int, ds as int, r1 as int, c1 as int),
                forall|i: int|
                    0 <= i < dst@.len() ==> (#[trigger] dst@[i]) == (if within(
                        ds as int,
                        r0 as int,
                        r as int,
                        c as int,
                        c + 1,
                        i,
                    ) {
                        turned(src@, ss as int, ds as int, i)
                    } else {
                        start[i]
                    }),
            decreases r1 - r,
        {
            proof {
                lemma_index(ds as int, r as int, c as int);
                let (s, d, rr, cc, r2, c2) = (
                    ss as int,
                    ds as int,
                    r as int,
                    c as int,
                    r1 as int,
                    c1 as int,
                );
                assert(0 <= rr * s && rr * s + s <= r2 * s) by (nonlinear_arith)
                    requires
                        0 <= rr,
                        rr + 1 <= r2,
                        0 <= s,
                ;
                assert(0 <= cc * d && cc * d + d <= c2 * d) by (nonlinear_arith)
                    requires
                        0 <= cc,
                        cc + 1 <= c2,
                        0 <= d,
                ;
            }
            let ghost was = dst@;
            let x: i16 = src[r * ss + c];
            dst.set(c * ds + r, x);
            proof {
                let k = c * ds + r;
                assert forall|i: int| 0 <= i < dst@.len() implies (#[trigger] dst@[i]) == (if within(
                    ds as int,
                    r0 as int,
                    r + 1,
                    c as int,
                    c + 1,
                    i,
                ) {
                    turned(src@, ss as int, ds as int, i)
                } else {
                    start[i]
                }) by {
                    if i == k {
                    } else {
                        assert(dst@[i] == was[i]);
                        lemma_fundamental_div_mod(i, ds as int);
                        if i % (ds as int) == r && i / (ds as int) == c {
                            assert(ds as int * c == c * ds) by (nonlinear_arith);
                            assert(i == k);
                        }
                    }
                }
            }
            r += 1;
        }
        proof {
            assert forall|i: int| 0 <= i < dst@.len() implies (#[trigger] dst@[i]) == (if within(
                ds as int,
                r0 as int,
                r1 as int,
                c0 as int,
                c + 1,
                i,
            ) {
                turned(src@, ss as int, ds as int, i)
            } else {
                before[i]
            }) by {
                assert(start[i] == (if within(
                    ds as int,
                    r0 as int,
                    r1 as int,
                    c0 as int,
                    c as int,
                    i,
                ) {
                    turned(src@, ss as int, ds as int, i)
                } else {
                    before[i]
                }));
            }
        }
        c += 1;
    }
}

fn least(a: usize, b: usize) -> (m: usize)
    ensures
        m == (if a < b {
            a
        } else {
            b
        }),
{
    if a < b {
        a
    } else {
        b
    }
}

/// `dst[c ds + r] = src[r ss + c]` for `r < rows`, `c < cols`, in 32 x 32 tiles; `dst` outside that
/// rectangle is left alone.
fn transpose(src: &[i16], ss: usize, rows: usize, cols: usize, dst: &mut Vec<i16>, ds: usize)
    requires
        rectangle(src@, old(dst)@, ss as int, ds as int, rows as int, cols as int),
        rows + 32 <= usize::MAX,
        cols + 32 <= usize::MAX,
    ensures
        is_transposed(
            old(dst)@,
            final(dst)@,
            src@,
            ss as int,
            ds as int,
            0,
            rows as int,
            0,
            cols as int,
        ),
{
    let ghost before = dst@;
    proof {
        lemma_none(before, src@, ss as int, ds as int, cols as int);
    }
    let mut r: usize = 0;
    while r < rows
        invariant
            r <= rows,
            rows + 32 <= usize::MAX,
            cols + 32 <= usize::MAX,
            rectangle(src@, dst@, ss as int, ds as int, rows as int, cols as int),
            is_transposed(
                before,
                dst@,
                src@,
                ss as int,
                ds as int,
                0,
                r as int,
                0,
                cols as int,
            ),
        decreases rows - r,
    {
        let next: usize = least(r + 32, rows);
        let ghost start = dst@;
        let mut c: usize = 0;
        while c < cols
            invariant
                r <= next <= rows,
                c <= cols,
                cols + 32 <= usize::MAX,
                rectangle(src@, dst@, ss as int, ds as int, rows as int, cols as int),
                is_transposed(
                    start,
                    dst@,
                    src@,
                    ss as int,
                    ds as int,
                    r as int,
                    next as int,
                    0,
                    c as int,
                ),
            decreases cols - c,
        {
            let end: usize = least(c + 32, cols);
            let ghost was = dst@;
            proof {
                lemma_inner(src@, was, ss as int, ds as int, rows as int, cols as int, next as int, end as int);
            }
            tile(src, ss, r, next, c, end, dst, ds);
            proof {
                assert forall|i: int| 0 <= i < dst@.len() implies (#[trigger] dst@[i]) == (if within(
                    ds as int,
                    r as int,
                    next as int,
                    0,
                    end as int,
                    i,
                ) {
                    turned(src@, ss as int, ds as int, i)
                } else {
                    start[i]
                }) by {
                    lemma_div_pos_is_pos(i, ds as int);
                    assert(was[i] == (if within(
                        ds as int,
                        r as int,
                        next as int,
                        0,
                        c as int,
                        i,
                    ) {
                        turned(src@, ss as int, ds as int, i)
                    } else {
                        start[i]
                    }));
                }
            }
            c = end;
        }
        proof {
            assert forall|i: int| 0 <= i < dst@.len() implies (#[trigger] dst@[i]) == (if within(
                ds as int,
                0,
                next as int,
                0,
                cols as int,
                i,
            ) {
                turned(src@, ss as int, ds as int, i)
            } else {
                before[i]
            }) by {
                lemma_mod_bound(i, ds as int);
                assert(start[i] == (if within(
                    ds as int,
                    0,
                    r as int,
                    0,
                    cols as int,
                    i,
                ) {
                    turned(src@, ss as int, ds as int, i)
                } else {
                    before[i]
                }));
            }
        }
        r = next;
    }
}

proof fn lemma_none(before: Seq<i16>, src: Seq<i16>, ss: int, ds: int, cols: int)
    requires
        ds > 0,
    ensures
        is_transposed(before, before, src, ss, ds, 0, 0, 0, cols),
{
    assert forall|i: int| 0 <= i < before.len() implies !(#[trigger] within(ds, 0, 0, 0, cols, i)) by {}
}

/// A smaller rectangle.
proof fn lemma_inner(
    src: Seq<i16>,
    dst: Seq<i16>,
    ss: int,
    ds: int,
    rows: int,
    cols: int,
    r: int,
    c: int,
)
    requires
        rectangle(src, dst, ss, ds, rows, cols),
        0 <= r <= rows,
        0 <= c <= cols,
    ensures
        rectangle(src, dst, ss, ds, r, c),
{
    assert(r * ss <= rows * ss && c * ds <= cols * ds) by (nonlinear_arith)
        requires
            0 <= r <= rows,
            0 <= c <= cols,
            0 <= ss,
            0 <= ds,
    ;
}

/// A table holds `rows` terms of `cols` coefficients, `terms` places apart, and zeros past them.
pub open spec fn holds(
    data: Seq<i16>,
    terms: int,
    cols: int,
    rows: int,
    f: spec_fn(int, int) -> int,
) -> bool {
    &&& data.len() == cols * terms
    &&& forall|c: int, t: int|
        0 <= c < cols && 0 <= t < terms ==> (#[trigger] data[c * terms + t]) == (if t < rows {
            f(t, c)
        } else {
            0
        })
}

/// A transposed table from rows laid end to end.
fn table_of(src: &Vec<i16>, rows: usize, cols: usize, f: Ghost<spec_fn(int, int) -> int>) -> (t: Table)
    requires
        cols <= 256,
        rows + 63 <= usize::MAX,
        cols * padded_to(rows as int) <= usize::MAX,
        src@.len() == rows * cols,
        forall|t: int, c: int|
            0 <= t < rows && 0 <= c < cols ==> (#[trigger] src@[t * cols + c]) == f@(t, c),
    ensures
        holds(t.data@, padded_to(rows as int), cols as int, rows as int, f@),
        t.bound == largest(t.data@, t.data@.len()),
{
    let terms: usize = padded(rows);
    let mut g: Vec<i16> = vec![0i16; cols * terms];
    let ghost zeros = g@;
    transpose(src.as_slice(), cols, rows, cols, &mut g, terms);
    proof {
        let (n, m) = (terms as int, cols as int);
        assert forall|c: int, t: int| 0 <= c < m && 0 <= t < n implies (#[trigger] g@[c * n + t])
            == (if t < rows {
            f@(t, c)
        } else {
            0
        }) by {
            lemma_index(n, t, c);
            let i = c * n + t;
            assert(i < m * n) by (nonlinear_arith)
                requires
                    i == c * n + t,
                    c + 1 <= m,
                    t < n,
                    0 <= n,
            ;
            if t < rows {
                assert(within(n, 0, rows as int, 0, m, i));
                assert(turned(src@, m, n, i) == src@[t * m + c]);
            }
        }
    }
    Table::of(g)
}

/// The term-major sub-chunks of `len` consecutive public entries from `first`, at chunk `b`.
pub fn public_table(public: &[Blocks], first: usize, len: usize, b: usize) -> (t: Table)
    requires
        first + len <= public@.len(),
        b < 3,
        len + 63 <= usize::MAX,
        162 * padded_to(len as int) <= usize::MAX,
    ensures
        holds(
            t.data@,
            padded_to(len as int),
            162,
            len as int,
            |i: int, c: int| public@[first + i]@[b as int]@[c / 9]@[c % 9] as int,
        ),
        t.bound == largest(t.data@, t.data@.len()),
{
    let total: usize = public.len();
    let ghost f = |i: int, c: int| public@[first + i]@[b as int]@[c / 9]@[c % 9] as int;
    let mut src: Vec<i16> = Vec::new();
    let mut i: usize = 0;
    while i < len
        invariant
            i <= len,
            first + len <= public@.len() == total,
            b < 3,
            f == (|i: int, c: int| public@[first + i]@[b as int]@[c / 9]@[c % 9] as int),
            src@.len() == i * 162,
            forall|t: int, c: int|
                0 <= t < i && 0 <= c < 162 ==> (#[trigger] src@[t * 162 + c]) == f(t, c),
        decreases len - i,
    {
        let ghost before = src@;
        let mut c: usize = 0;
        while c < 162
            invariant
                c <= 162,
                i < len,
                first + len <= public@.len() == total,
                b < 3,
                f == (|i: int, c: int| public@[first + i]@[b as int]@[c / 9]@[c % 9] as int),
                before.len() == i * 162,
                src@.len() == i * 162 + c,
                forall|k: int| 0 <= k < before.len() ==> (#[trigger] src@[k]) == before[k],
                forall|k: int| 0 <= k < c ==> (#[trigger] src@[i * 162 + k]) == f(i as int, k),
            decreases 162 - c,
        {
            src.push(public[first + i][b][c / 9][c % 9]);
            c += 1;
        }
        assert forall|t: int, c: int| 0 <= t <= i && 0 <= c < 162 implies (
        #[trigger] src@[t * 162 + c]) == f(t, c) by {
            if t < i {
                assert(src@[t * 162 + c] == before[t * 162 + c]);
            }
        }
        i += 1;
    }
    table_of(&src, len, 162, Ghost(f))
}

/// The last of `len` entries from `first`, `step` apart, is inside.
pub open spec fn strided(first: int, len: int, step: int, n: int) -> bool {
    len == 0 || first + (len - 1) * step < n
}

/// The term-major coefficients of `len` polynomials from `polys[first]`, every `step`-th.
pub fn witness_table(polys: &[Poly], first: usize, len: usize, step: usize) -> (t: Table)
    requires
        strided(first as int, len as int, step as int, polys@.len() as int),
        len + 63 <= usize::MAX,
        64 * padded_to(len as int) <= usize::MAX,
    ensures
        holds(
            t.data@,
            padded_to(len as int),
            64,
            len as int,
            |i: int, j: int| polys@[first + i * step]@[j] as int,
        ),
        t.bound == largest(t.data@, t.data@.len()),
{
    let total: usize = polys.len();
    let ghost f = |i: int, j: int| polys@[first + i * step]@[j] as int;
    let mut src: Vec<i16> = Vec::new();
    let mut i: usize = 0;
    while i < len
        invariant
            i <= len,
            strided(first as int, len as int, step as int, polys@.len() as int),
            polys@.len() == total,
            f == (|i: int, j: int| polys@[first + i * step]@[j] as int),
            src@.len() == i * 64,
            forall|t: int, c: int|
                0 <= t < i && 0 <= c < 64 ==> (#[trigger] src@[t * 64 + c]) == f(t, c),
        decreases len - i,
    {
        proof {
            let (a, b, s) = (i as int, len as int, step as int);
            assert(0 <= a * s <= (b - 1) * s) by (nonlinear_arith)
                requires
                    0 <= a <= b - 1,
                    0 <= s,
            ;
        }
        let at: usize = first + i * step;
        let ghost before = src@;
        let mut c: usize = 0;
        while c < 64
            invariant
                c <= 64,
                at < polys@.len(),
                at == first + i * step,
                f == (|i: int, j: int| polys@[first + i * step]@[j] as int),
                before.len() == i * 64,
                src@.len() == i * 64 + c,
                forall|k: int| 0 <= k < before.len() ==> (#[trigger] src@[k]) == before[k],
                forall|k: int| 0 <= k < c ==> (#[trigger] src@[i * 64 + k]) == f(i as int, k),
            decreases 64 - c,
        {
            src.push(polys[at][c]);
            c += 1;
        }
        assert forall|t: int, c: int| 0 <= t <= i && 0 <= c < 64 implies (
        #[trigger] src@[t * 64 + c]) == f(t, c) by {
            if t < i {
                assert(src@[t * 64 + c] == before[t * 64 + c]);
            }
        }
        i += 1;
    }
    table_of(&src, len, 64, Ghost(f))
}

// ---------------------------------------------------------------------------------------------
// sums
// ---------------------------------------------------------------------------------------------

impl Run {
    /// The tables have the sizes of the run.
    pub open spec fn wf(&self) -> bool {
        &&& self.g.data@.len() == 162 * self.terms
        &&& self.x.data@.len() == 64 * self.terms
    }

    /// Sub-chunk `a` of the multiplier of term `t`.
    pub open spec fn multiplier(&self, a: int, t: int) -> Seq<int> {
        Seq::new(9, |u: int| self.g.data@[(9 * a + u) * self.terms + t] as int)
    }

    /// The witness polynomial of term `t`.
    pub open spec fn operand(&self, t: int) -> Seq<int> {
        Seq::new(64, |j: int| self.x.data@[j * self.terms + t] as int)
    }

    /// Place `j` of diagonal `a` over the first `n` terms.
    pub open spec fn sum(&self, a: int, j: int, n: nat) -> int
        decreases n,
    {
        if n == 0 {
            0
        } else {
            self.sum(a, j, (n - 1) as nat) + chain::nega(
                self.multiplier(a, n - 1),
                self.operand(n - 1),
                j,
                9,
            )
        }
    }

    fn multipliers(&self, t: usize) -> (g: [[i16; 9]; 18])
        requires
            self.wf(),
            t < self.terms,
        ensures
            forall|a: int| 0 <= a < 18 ==> chunk::shorts((#[trigger] g@[a])@) == self.multiplier(
                a,
                t as int,
            ),
    {
        let len: usize = self.g.data.len();
        let mut g: [[i16; 9]; 18] = [[0;9];18];
        let mut a: usize = 0;
        while a < 18
            invariant
                a <= 18,
                self.wf(),
                len == self.g.data@.len(),
                t < self.terms,
                forall|c: int|
                    0 <= c < a ==> chunk::shorts((#[trigger] g@[c])@) == self.multiplier(
                        c,
                        t as int,
                    ),
            decreases 18 - a,
        {
            let mut row: [i16; 9] = [0;9];
            let mut u: usize = 0;
            while u < 9
                invariant
                    a < 18,
                    u <= 9,
                    self.wf(),
                    len == self.g.data@.len(),
                    t < self.terms,
                    forall|k: int|
                        0 <= k < u ==> (#[trigger] row@[k]) == self.multiplier(
                            a as int,
                            t as int,
                        )[k],
                decreases 9 - u,
            {
                proof {
                    lemma_place(9 * a + u, 162, self.terms as int, t as int);
                }
                row[u] = self.g.data[(9 * a + u) * self.terms + t];
                u += 1;
            }
            assert(chunk::shorts(row@) =~= self.multiplier(a as int, t as int));
            g[a] = row;
            a += 1;
        }
        g
    }

    fn polynomial(&self, t: usize) -> (x: Poly)
        requires
            self.wf(),
            t < self.terms,
        ensures
            chunk::shorts(x@) == self.operand(t as int),
    {
        let len: usize = self.x.data.len();
        let mut x: Poly = [0;64];
        let mut j: usize = 0;
        while j < 64
            invariant
                j <= 64,
                self.wf(),
                len == self.x.data@.len(),
                t < self.terms,
                forall|k: int| 0 <= k < j ==> (#[trigger] x@[k]) == self.operand(t as int)[k],
            decreases 64 - j,
        {
            proof {
                lemma_place(j as int, 64, self.terms as int, t as int);
            }
            x[j] = self.x.data[j * self.terms + t];
            j += 1;
        }
        assert(chunk::shorts(x@) =~= self.operand(t as int));
        x
    }
}

proof fn lemma_place(c: int, cols: int, n: int, t: int)
    requires
        0 <= c < cols,
        0 <= t < n,
    ensures
        0 <= c * n,
        c * n + t < cols * n,
{
    assert(0 <= c * n && c * n + n <= cols * n) by (nonlinear_arith)
        requires
            0 <= c,
            c + 1 <= cols,
            0 <= n,
    ;
}

/// Place `j` of diagonal `a` over the first `n` runs.
pub open spec fn prepared_sum(prep: Seq<Run>, a: int, j: int, n: nat) -> int
    decreases n,
{
    if n == 0 {
        0
    } else {
        prepared_sum(prep, a, j, (n - 1) as nat) + prep[n - 1].sum(a, j, prep[n - 1].terms as nat)
    }
}

/// The terms of the first `n` runs.
pub open spec fn term_count(prep: Seq<Run>, n: nat) -> int
    decreases n,
{
    if n == 0 {
        0
    } else {
        term_count(prep, (n - 1) as nat) + prep[n - 1].terms
    }
}

proof fn lemma_count(prep: Seq<Run>, i: nat, n: nat)
    requires
        i <= n,
    ensures
        0 <= term_count(prep, i) <= term_count(prep, n),
    decreases n,
{
    if i < n {
        lemma_count(prep, i, (n - 1) as nat);
    } else if n > 0 {
        lemma_count(prep, (n - 1) as nat, (n - 1) as nat);
    }
}

impl chain::Chain {
    /// `D_a` for every diagonal from the prepared runs: the products alone, reduced negacyclically
    /// in `X^64 + 1`.
    pub fn sums(prep: &[Run]) -> (out: Sums)
        requires
            forall|i: int| 0 <= i < prep@.len() ==> (#[trigger] prep@[i]).wf(),
            term_count(prep@, prep@.len()) <= 0x100_0000,
        ensures
            forall|a: int, j: int|
                0 <= a < 18 && 0 <= j < 64 ==> (#[trigger] out@[a]@[j]) == prepared_sum(
                    prep@,
                    a,
                    j,
                    prep@.len(),
                ),
    {
        let mut out: Sums = [[0;64];18];
        let m: usize = prep.len();
        let mut count: u64 = 0;
        let mut i: usize = 0;
        while i < m
            invariant
                i <= m == prep@.len(),
                forall|i: int| 0 <= i < prep@.len() ==> (#[trigger] prep@[i]).wf(),
                term_count(prep@, prep@.len()) <= 0x100_0000,
                count == term_count(prep@, i as nat),
                forall|a: int, j: int|
                    0 <= a < 18 && 0 <= j < 64 ==> (#[trigger] out@[a]@[j]) == prepared_sum(
                        prep@,
                        a,
                        j,
                        i as nat,
                    ),
                forall|a: int, j: int|
                    0 <= a < 18 && 0 <= j < 64 ==> -0x2_4000_0000 * count <= (
                    #[trigger] out@[a]@[j]) <= 0x2_4000_0000 * count,
            decreases m - i,
        {
            let run = &prep[i];
            let ghost base = out@;
            proof {
                lemma_count(prep@, i as nat, m as nat);
                lemma_count(prep@, (i + 1) as nat, m as nat);
                assert(prep@[i as int].wf());
            }
            let mut t: usize = 0;
            while t < run.terms
                invariant
                    t <= run.terms,
                    run.wf(),
                    i < m == prep@.len(),
                    *run == prep@[i as int],
                    term_count(prep@, i as nat) + run.terms <= 0x100_0000,
                    count == term_count(prep@, i as nat) + t,
                    forall|a: int, j: int|
                        0 <= a < 18 && 0 <= j < 64 ==> (#[trigger] out@[a]@[j]) == base[a]@[j]
                            + run.sum(a, j, t as nat),
                    forall|a: int, j: int|
                        0 <= a < 18 && 0 <= j < 64 ==> -0x2_4000_0000 * count <= (
                        #[trigger] out@[a]@[j]) <= 0x2_4000_0000 * count,
                decreases run.terms - t,
            {
                let g = run.multipliers(t);
                let x = run.polynomial(t);
                let ghost was = out@;
                chain::add_product(&mut out, &g, &x, count);
                assert forall|a: int, j: int| 0 <= a < 18 && 0 <= j < 64 implies (
                #[trigger] out@[a]@[j]) == base[a]@[j] + run.sum(a, j, (t + 1) as nat) by {
                    assert(was[a]@[j] == base[a]@[j] + run.sum(a, j, t as nat));
                    assert(chunk::shorts(g@[a]@) == run.multiplier(a, t as int));
                }
                count = count + 1;
                t += 1;
            }
            assert forall|a: int, j: int| 0 <= a < 18 && 0 <= j < 64 implies (
            #[trigger] out@[a]@[j]) == prepared_sum(prep@, a, j, (i + 1) as nat) by {
                assert(base[a]@[j] == prepared_sum(prep@, a, j, i as nat));
            }
            i += 1;
        }
        out
    }
}

/// A product with nothing is nothing.
proof fn lemma_nega_zero(g: Seq<int>, x: Seq<int>, j: int, n: nat)
    requires
        n <= 9,
        forall|u: int| 0 <= u < 9 ==> (#[trigger] g[u]) == 0,
    ensures
        chain::nega(g, x, j, n) == 0,
    decreases n,
{
    if n > 0 {
        lemma_nega_zero(g, x, j, (n - 1) as nat);
        let y = if j >= n - 1 {
            x[j - (n - 1)]
        } else {
            -x[j - (n - 1) + 64]
        };
        assert(0 * y == 0) by (nonlinear_arith);
    }
}

/// The run made from the tables of `len` public entries and `len` witness polynomials sums the same
/// products that a chain names one by one.
pub proof fn run_is_products(
    run: Run,
    products: Seq<Product>,
    public: Seq<Blocks>,
    w: Seq<Vec<Poly>>,
    first: int,
    b: int,
    vector: int,
    off: int,
    step: int,
    len: int,
    a: int,
    j: int,
)
    requires
        0 <= len,
        0 <= first,
        0 <= b < 3,
        0 <= a < 18,
        0 <= j < 64,
        run.terms == padded_to(len),
        holds(
            run.g.data@,
            padded_to(len),
            162,
            len,
            |i: int, c: int| public[first + i]@[b]@[c / 9]@[c % 9] as int,
        ),
        holds(
            run.x.data@,
            padded_to(len),
            64,
            len,
            |i: int, j: int| w[vector]@[off + i * step]@[j] as int,
        ),
        products.len() == len,
        forall|t: int|
            0 <= t < len ==> {
                &&& (#[trigger] products[t]).blocks == first + t
                &&& products[t].chunk == b
                &&& products[t].at.vector == vector
                &&& products[t].at.off == off + t * step
            },
    ensures
        run.sum(a, j, run.terms as nat) == chain::diagonal(products, public, w, a, j, len as nat),
{
    lemma_run_to(run, products, public, w, first, b, vector, off, step, len, a, j, run.terms as nat);
}

proof fn lemma_run_to(
    run: Run,
    products: Seq<Product>,
    public: Seq<Blocks>,
    w: Seq<Vec<Poly>>,
    first: int,
    b: int,
    vector: int,
    off: int,
    step: int,
    len: int,
    a: int,
    j: int,
    n: nat,
)
    requires
        0 <= len,
        0 <= first,
        0 <= b < 3,
        0 <= a < 18,
        0 <= j < 64,
        n <= run.terms,
        run.terms == padded_to(len),
        holds(
            run.g.data@,
            padded_to(len),
            162,
            len,
            |i: int, c: int| public[first + i]@[b]@[c / 9]@[c % 9] as int,
        ),
        holds(
            run.x.data@,
            padded_to(len),
            64,
            len,
            |i: int, j: int| w[vector]@[off + i * step]@[j] as int,
        ),
        products.len() == len,
        forall|t: int|
            0 <= t < len ==> {
                &&& (#[trigger] products[t]).blocks == first + t
                &&& products[t].chunk == b
                &&& products[t].at.vector == vector
                &&& products[t].at.off == off + t * step
            },
    ensures
        run.sum(a, j, n) == chain::diagonal(
            products,
            public,
            w,
            a,
            j,
            if n <= len {
                n
            } else {
                len as nat
            },
        ),
    decreases n,
{
    if n > 0 {
        lemma_run_to(
            run,
            products,
            public,
            w,
            first,
            b,
            vector,
            off,
            step,
            len,
            a,
            j,
            (n - 1) as nat,
        );
        let t = n - 1;
        let terms = padded_to(len);
        let g = run.multiplier(a, t);
        let x = run.operand(t);
        assert forall|u: int| 0 <= u < 9 implies (#[trigger] g[u]) == (if t < len {
            public[first + t]@[b]@[a]@[u] as int
        } else {
            0
        }) by {
            let c = 9 * a + u;
            assert(c / 9 == a && c % 9 == u);
            assert(run.g.data@[c * terms + t] == g[u]);
        }
        if t < len {
            let p = products[t];
            assert(g =~= chain::sub_chunk(public, p, a));
            assert forall|k: int| 0 <= k < 64 implies (#[trigger] x[k])
                == w[vector]@[off + t * step]@[k] by {
                assert(run.x.data@[k * terms + t] == x[k]);
            }
            assert(x =~= chain::poly_at(w, p.at));
        } else {
            lemma_nega_zero(g, x, j, 9);
        }
    }
}

/// The padded length of a run is the least multiple of 32 that holds it and is not zero.
pub proof fn padded_is_least(len: int, n: int)
    requires
        0 <= len,
        n > 0,
        n % 32 == 0,
        n >= len,
    ensures
        padded_to(len) > 0,
        padded_to(len) % 32 == 0,
        padded_to(len) >= len,
        padded_to(len) <= n,
{
}

/// The bound of a table is the largest magnitude in it.
pub proof fn bound_is_largest(d: Seq<i16>, n: nat)
    requires
        n <= d.len(),
    ensures
        forall|i: int|
            0 <= i < n ==> -largest(d, n) <= (#[trigger] d[i]) <= largest(d, n),
        n > 0 ==> exists|i: int|
            0 <= i < n && ((#[trigger] d[i]) == largest(d, n) || d[i] == -largest(d, n)),
    decreases n,
{
    if n > 0 {
        let m = (n - 1) as nat;
        bound_is_largest(d, m);
        if largest(d, n) == largest(d, m) && m > 0 {
            let i = choose|i: int|
                0 <= i < m && ((#[trigger] d[i]) == largest(d, m) || d[i] == -largest(d, m));
            assert(d[i] == largest(d, n) || d[i] == -largest(d, n));
        } else {
            assert(d[n - 1] == largest(d, n) || d[n - 1] == -largest(d, n));
        }
    }
}

/// The sums of prepared runs are the sums of their own, in any order.
pub proof fn runs_add_up(prep: Seq<Run>, a: int, j: int, n: nat)
    requires
        n <= prep.len(),
    ensures
        prepared_sum(prep, a, j, n) == algebra::total(
            |i: int| prep[i].sum(a, j, prep[i].terms as nat),
            n,
        ),
    decreases n,
{
    if n > 0 {
        runs_add_up(prep, a, j, (n - 1) as nat);
        let f = |i: int| prep[i].sum(a, j, prep[i].terms as nat);
        assert(algebra::total(f, n) == algebra::total(f, (n - 1) as nat) + f(n - 1));
    }
}

} // verus!
