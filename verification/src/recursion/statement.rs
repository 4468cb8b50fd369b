//! The backend's statement of one round, built the same way by the prover and by the verifier.
//!
//! Nothing here reads the witness: the layout already fixes every block, and the only per-proof
//! numbers are the three pre-commitments, the announced norms and the mask scalars.
use super::chain::{At, Chain};
use super::masks::{Masks, Supports};
use super::Blocks;
use crate::labrador::{
    BSource, Block, Constraint, PhiBlock, PhiSource, PolxBuf, ShortPhi, Statement, VectorSpec,
};
use crate::scheme::public::share;
use std::sync::Arc;
use vstd::arithmetic::div_mod::*;
use vstd::prelude::*;

verus! {

/// What a group of public entries stands for.
#[derive(Clone, Copy, Debug, PartialEq, Eq)]
pub enum Kind {
    /// Part `part` of the key rows of a limb.
    Key { limb: usize, part: usize },
    /// The binary lifts.
    Lift,
    /// The folding challenges.
    Challenge,
    /// Anything else.
    Loose,
}

/// Consecutive public entries.
pub struct Group {
    pub kind: Kind,
    pub first: usize,
    pub len: usize,
}

/// `len` consecutive entries of a group from `offset` on, at one chunk, against as many consecutive
/// witness polynomials.
pub struct Stretch {
    pub group: usize,
    pub chunk: usize,
    pub offset: usize,
    pub at: At,
    pub len: usize,
}

/// Everything about a round that the witness does not decide.
pub struct Layout {
    pub groups: Vec<Group>,
    pub public: Vec<Blocks>,
    pub chains: Vec<Chain>,
    /// The products of every chain, in stretches.
    pub stretches: Vec<Vec<Stretch>>,
}

/// A commitment key of the backend.
pub struct RankedKey {
    pub rank: usize,
    pub buf: Arc<PolxBuf>,
}

/// What depends on the public matrix alone.
pub struct Setup {
    pub shape: Supports,
    pub binary: Vec<bool>,
    /// The vectors behind the first, second and third pre-commitment.
    pub residues: Vec<usize>,
    pub left_expansion: usize,
    pub rest: Vec<usize>,
    pub key_y: RankedKey,
    pub key_u: RankedKey,
    pub key_r: RankedKey,
    /// `keys[8 limb + part][18 b + a]` is sub-chunk `a` at chunk `b` of every row.
    pub keys: Vec<Vec<Arc<ShortPhi>>>,
    /// `scalars[i]` is the constant `factors[i]`.
    pub factors: Vec<i64>,
    pub scalars: Vec<Arc<PolxBuf>>,
    /// `carries[i][18 d + a]` holds the carry weights of level `d` at diagonal `a` in the base
    /// `bases[i]`.
    pub bases: Vec<i64>,
    pub carries: Vec<Vec<Arc<PolxBuf>>>,
    /// The modulus of the backend.
    pub q: i64,
}

/// The first place from `i` on that holds `x`, or the length.
pub open spec fn first_from(v: Seq<i64>, x: i64, i: int) -> int
    decreases v.len() - i,
{
    if i < 0 || i >= v.len() {
        v.len() as int
    } else if v[i] == x {
        i
    } else {
        first_from(v, x, i + 1)
    }
}

fn find(v: &Vec<i64>, x: i64) -> (i: usize)
    requires
        first_from(v@, x, 0) < v@.len(),
    ensures
        i == first_from(v@, x, 0),
        i < v@.len(),
        v@[i as int] == x,
{
    let n: usize = v.len();
    let mut i: usize = 0;
    while v[i] != x
        invariant
            i < n == v@.len(),
            first_from(v@, x, 0) < v@.len(),
            first_from(v@, x, 0) == first_from(v@, x, i as int),
        decreases n - i,
    {
        assert(first_from(v@, x, i as int) == first_from(v@, x, i + 1));
        assert(i + 1 < n);
        i += 1;
    }
    i
}

// ---------------------------------------------------------------------------------------------
// the per-proof `phi`
// ---------------------------------------------------------------------------------------------

/// The per-proof `phi`: one buffer per group, chunk and diagonal for every group that is not a
/// function of the key alone.
pub struct ProofPhi {
    pub buffers: Vec<Vec<Arc<ShortPhi>>>,
}

/// Sub-chunk `a` at chunk `b` of `len` public entries from `first` on, end to end.
pub open spec fn is_group_phi(
    p: ShortPhi,
    public: Seq<Blocks>,
    first: int,
    len: int,
    b: int,
    a: int,
) -> bool {
    &&& p.off == 0
    &&& p.wid == 9
    &&& p.c@.len() == 9 * len
    &&& forall|i: int, u: int|
        0 <= i < len && 0 <= u < 9 ==> (#[trigger] p.c@[9 * i + u]) == public[first
            + i]@[b]@[a]@[u]
}

pub open spec fn buffer(p: Arc<ShortPhi>) -> ShortPhi {
    *p
}

fn group_phi(public: &Vec<Blocks>, first: usize, len: usize, b: usize, a: usize) -> (p: ShortPhi)
    requires
        first + len <= public@.len(),
        b < 3,
        a < 18,
    ensures
        is_group_phi(p, public@, first as int, len as int, b as int, a as int),
        p.wf(),
{
    let n: usize = public.len();
    let mut c: Vec<i16> = Vec::new();
    let mut i: usize = 0;
    while i < len
        invariant
            i <= len,
            first + len <= public@.len() == n,
            b < 3,
            a < 18,
            c@.len() == 9 * i,
            forall|t: int, u: int|
                0 <= t < i && 0 <= u < 9 ==> (#[trigger] c@[9 * t + u]) == public@[first
                    + t]@[b as int]@[a as int]@[u],
        decreases len - i,
    {
        let mut u: usize = 0;
        while u < 9
            invariant
                u <= 9,
                i < len,
                first + len <= public@.len() == n,
                b < 3,
                a < 18,
                c@.len() == 9 * i + u,
                forall|t: int, u: int|
                    0 <= t < i && 0 <= u < 9 ==> (#[trigger] c@[9 * t + u]) == public@[first
                        + t]@[b as int]@[a as int]@[u],
                forall|t: int|
                    0 <= t < u ==> (#[trigger] c@[9 * i + t]) == public@[first
                        + i]@[b as int]@[a as int]@[t],
            decreases 9 - u,
        {
            c.push(public[first + i][b][a][u]);
            u += 1;
        }
        i += 1;
    }
    proof {
        lemma_mod_multiples_basic(len as int, 9);
        assert(len * 9 == 9 * len) by (nonlinear_arith);
    }
    ShortPhi::new(0, 9, c)
}

/// The groups lie inside the public entries.
pub open spec fn grouped(layout: Layout) -> bool {
    forall|g: int|
        0 <= g < layout.groups@.len() ==> (#[trigger] layout.groups@[g]).first
            + layout.groups@[g].len <= layout.public@.len()
}

impl ProofPhi {
    /// The buffers hold the sub-chunks of the layout's groups.
    pub open spec fn holds(&self, layout: Layout) -> bool {
        &&& self.buffers@.len() == layout.groups@.len()
        &&& forall|g: int|
            0 <= g < layout.groups@.len() ==> (#[trigger] self.buffers@[g])@.len() == (
            if layout.groups@[g].kind is Key {
                0nat
            } else {
                54
            })
        &&& forall|g: int, k: int|
            0 <= g < layout.groups@.len() && !(layout.groups@[g].kind is Key) && 0 <= k < 54
                ==> is_group_phi(
                buffer(#[trigger] self.buffers@[g]@[k]),
                layout.public@,
                layout.groups@[g].first as int,
                layout.groups@[g].len as int,
                k / 18,
                k % 18,
            )
    }

    pub fn new(layout: &Layout) -> (phi: ProofPhi)
        requires
            grouped(*layout),
        ensures
            phi.holds(*layout),
    {
        let n: usize = layout.groups.len();
        let mut buffers: Vec<Vec<Arc<ShortPhi>>> = Vec::new();
        let mut g: usize = 0;
        while g < n
            invariant
                g <= n == layout.groups@.len(),
                grouped(*layout),
                buffers@.len() == g,
                forall|t: int|
                    0 <= t < g ==> (#[trigger] buffers@[t])@.len() == (
                    if layout.groups@[t].kind is Key {
                        0nat
                    } else {
                        54
                    }),
                forall|t: int, k: int|
                    0 <= t < g && !(layout.groups@[t].kind is Key) && 0 <= k < 54 ==> is_group_phi(
                        buffer(#[trigger] buffers@[t]@[k]),
                        layout.public@,
                        layout.groups@[t].first as int,
                        layout.groups@[t].len as int,
                        k / 18,
                        k % 18,
                    ),
            decreases n - g,
        {
            let group = &layout.groups[g];
            assert(layout.groups@[g as int].first + layout.groups@[g as int].len
                <= layout.public@.len());
            let wanted: usize = match group.kind {
                Kind::Key { .. } => 0,
                _ => 54,
            };
            let mut list: Vec<Arc<ShortPhi>> = Vec::new();
            let mut k: usize = 0;
            while k < wanted
                invariant
                    k <= wanted <= 54,
                    *group == layout.groups@[g as int],
                    group.first + group.len <= layout.public@.len(),
                    list@.len() == k,
                    forall|t: int|
                        0 <= t < k ==> is_group_phi(
                            buffer(#[trigger] list@[t]),
                            layout.public@,
                            group.first as int,
                            group.len as int,
                            t / 18,
                            t % 18,
                        ),
                decreases wanted - k,
            {
                let p = group_phi(&layout.public, group.first, group.len, k / 18, k % 18);
                list.push(Arc::new(p));
                k += 1;
            }
            buffers.push(list);
            g += 1;
        }
        ProofPhi { buffers }
    }

    /// The coefficients held by the first `n` groups.
    pub open spec fn held(&self, n: nat) -> int
        decreases n,
    {
        if n == 0 {
            0
        } else {
            self.held((n - 1) as nat) + group_held(self.buffers@[n - 1]@, self.buffers@[n - 1]@.len())
        }
    }

    /// Bytes held.
    pub fn footprint(&self) -> (n: usize)
        requires
            2 * self.held(self.buffers@.len()) <= usize::MAX,
        ensures
            n == 2 * self.held(self.buffers@.len()),
    {
        let m: usize = self.buffers.len();
        let mut total: usize = 0;
        let mut g: usize = 0;
        while g < m
            invariant
                g <= m == self.buffers@.len(),
                2 * self.held(m as nat) <= usize::MAX,
                total == 2 * self.held(g as nat),
            decreases m - g,
        {
            proof {
                self.lemma_held((g + 1) as nat, m as nat);
            }
            let list = &self.buffers[g];
            let l: usize = list.len();
            let ghost base = total as int;
            let mut k: usize = 0;
            while k < l
                invariant
                    k <= l == list@.len(),
                    base + 2 * group_held(list@, l as nat) <= usize::MAX,
                    base >= 0,
                    total == base + 2 * group_held(list@, k as nat),
                decreases l - k,
            {
                proof {
                    lemma_group_held(list@, (k + 1) as nat, l as nat);
                    lemma_group_held(list@, 0, k as nat);
                    assert(list@[k as int].c@.len() == buffer(list@[k as int]).c@.len());
                }
                let p = &*list[k];
                total = total + p.bytes();
                k += 1;
            }
            g += 1;
        }
        total
    }

    proof fn lemma_held(&self, a: nat, b: nat)
        requires
            a <= b,
        ensures
            0 <= self.held(a) <= self.held(b),
        decreases b,
    {
        if a < b {
            self.lemma_held(a, (b - 1) as nat);
            lemma_group_held(self.buffers@[b - 1]@, 0, self.buffers@[b - 1]@.len());
        } else if b > 0 {
            self.lemma_held((b - 1) as nat, (b - 1) as nat);
            lemma_group_held(self.buffers@[b - 1]@, 0, self.buffers@[b - 1]@.len());
        }
    }
}

/// The coefficients held by the first `n` buffers.
pub open spec fn group_held(list: Seq<Arc<ShortPhi>>, n: nat) -> int
    decreases n,
{
    if n == 0 {
        0
    } else {
        group_held(list, (n - 1) as nat) + buffer(list[n - 1]).c@.len()
    }
}

proof fn lemma_group_held(list: Seq<Arc<ShortPhi>>, a: nat, b: nat)
    requires
        a <= b,
    ensures
        0 <= group_held(list, a) <= group_held(list, b),
    decreases b,
{
    if a < b {
        lemma_group_held(list, a, (b - 1) as nat);
    } else if b > 0 {
        lemma_group_held(list, (b - 1) as nat, (b - 1) as nat);
    }
}

// ---------------------------------------------------------------------------------------------
// the constraints
// ---------------------------------------------------------------------------------------------

/// The buffer of a stretch at diagonal `a`.
pub open spec fn stretch_phi(
    setup: Setup,
    layout: Layout,
    phi: ProofPhi,
    t: Stretch,
    a: int,
) -> Arc<ShortPhi> {
    match layout.groups@[t.group as int].kind {
        Kind::Key { limb, part } => setup.keys@[8 * limb + part]@[18 * t.chunk + a],
        _ => phi.buffers@[t.group as int]@[18 * t.chunk + a],
    }
}

/// The constant a scaled term has at diagonal `a`: the whole factor where the chunk begins.
pub open spec fn factor_at(c: Chain, k: int, a: int) -> i64 {
    if a == 6 * c.scaled@[k].chunk {
        c.scaled@[k].factor
    } else {
        0
    }
}

/// Window `a` of the output, in `[0, q)`.
pub open spec fn window(c: Chain, a: int, q: int) -> Seq<int> {
    Seq::new(
        64,
        |u: int|
            if u < 9 {
                c.output@[9 * a + u] as int % q
            } else {
                0
            },
    )
}

/// The window as the right-hand side of a constraint: none where it is zero.
pub open spec fn is_right_hand(b: Option<BSource>, w: Seq<int>) -> bool {
    match b {
        None => forall|u: int| 0 <= u < 64 ==> (#[trigger] w[u]) == 0,
        Some(BSource::Int64(v)) => {
            &&& v@.len() == 1
            &&& forall|u: int| 0 <= u < 64 ==> (#[trigger] v@[0]@[u]) == w[u]
            &&& exists|u: int| 0 <= u < 64 && (#[trigger] w[u]) != 0
        },
        _ => false,
    }
}

/// `parts` and `blocks` are the terms of diagonal `a` of a chain: its stretches, its scaled terms,
/// its carries.
pub open spec fn is_terms(
    setup: Setup,
    layout: Layout,
    phi: ProofPhi,
    ci: int,
    a: int,
    blocks: Seq<Block>,
    parts: Seq<PhiBlock>,
) -> bool {
    let c = layout.chains@[ci];
    let st = layout.stretches@[ci]@;
    let (n, m, l) = (st.len(), c.scaled@.len(), c.carries.at@.len());
    &&& blocks.len() == n + m + l
    &&& parts.len() == n + m + l
    &&& forall|t: int|
        0 <= t < n ==> (#[trigger] blocks[t]) == (Block {
            idx: st[t].at.vector,
            off: st[t].at.off,
            len: st[t].len,
        })
    &&& forall|t: int|
        0 <= t < n ==> (#[trigger] parts[t]) == PhiBlock::Short(
            stretch_phi(setup, layout, phi, st[t], a),
            st[t].offset,
        )
    &&& forall|k: int|
        n <= k < n + m ==> (#[trigger] blocks[k]) == (Block {
            idx: c.scaled@[k - n].at.vector,
            off: c.scaled@[k - n].at.off,
            len: 1,
        })
    &&& forall|k: int|
        n <= k < n + m ==> (#[trigger] parts[k]) == PhiBlock::Polx(
            setup.scalars@[first_from(setup.factors@, factor_at(c, k - n, a), 0)],
            0,
        )
    &&& forall|d: int|
        n + m <= d < n + m + l ==> (#[trigger] blocks[d]) == (Block {
            idx: c.carries.at@[d - n - m].vector,
            off: c.carries.at@[d - n - m].off,
            len: 18,
        })
    &&& forall|d: int|
        n + m <= d < n + m + l ==> (#[trigger] parts[d]) == PhiBlock::Polx(
            setup.carries@[first_from(setup.bases@, c.carries.gadget.base, 0)]@[18 * (d - n - m)
                + a],
            0,
        )
}

/// The constraint of diagonal `a` of chain `ci`.
pub open spec fn is_diagonal(
    setup: Setup,
    layout: Layout,
    phi: ProofPhi,
    ci: int,
    a: int,
    k: Constraint,
) -> bool {
    &&& k.deg == 1
    &&& k.phi matches PhiSource::Blocks(parts) && is_terms(
        setup,
        layout,
        phi,
        ci,
        a,
        k.blocks@,
        parts@,
    )
    &&& is_right_hand(k.b, window(layout.chains@[ci], a, setup.q as int))
}

/// A stretch whose buffers are there.
pub open spec fn stretch_sound(setup: Setup, layout: Layout, t: Stretch) -> bool {
    &&& t.group < layout.groups@.len()
    &&& t.chunk < 3
    &&& match layout.groups@[t.group as int].kind {
        Kind::Key { limb, part } => {
            &&& part < 8
            &&& 8 * limb + part < setup.keys@.len()
            &&& setup.keys@[8 * limb + part]@.len() == 54
        },
        _ => true,
    }
}

/// A chain whose constants and carry weights are there.
pub open spec fn chain_sound(setup: Setup, c: Chain) -> bool {
    &&& forall|k: int|
        0 <= k < c.scaled@.len() ==> first_from(
            setup.factors@,
            (#[trigger] c.scaled@[k]).factor,
            0,
        ) < setup.factors@.len()
    &&& c.scaled@.len() > 0 ==> first_from(setup.factors@, 0, 0) < setup.factors@.len()
    &&& c.carries.at@.len() > 0 ==> {
        &&& first_from(setup.bases@, c.carries.gadget.base, 0) < setup.bases@.len()
        &&& setup.carries@[first_from(setup.bases@, c.carries.gadget.base, 0)]@.len() >= 18
            * c.carries.at@.len()
    }
}

/// Every name in the layout is defined.
pub open spec fn sound(setup: Setup, layout: Layout) -> bool {
    &&& setup.q > 0
    &&& setup.scalars@.len() == setup.factors@.len()
    &&& setup.carries@.len() == setup.bases@.len()
    &&& layout.stretches@.len() == layout.chains@.len()
    &&& forall|ci: int, t: int|
        0 <= ci < layout.stretches@.len() && 0 <= t < layout.stretches@[ci]@.len()
            ==> stretch_sound(setup, layout, #[trigger] layout.stretches@[ci]@[t])
    &&& forall|ci: int|
        0 <= ci < layout.chains@.len() ==> chain_sound(setup, #[trigger] layout.chains@[ci])
}

/// Does the constant occur?
fn occurs(v: &Vec<i64>, x: i64) -> (r: bool)
    ensures
        r == (first_from(v@, x, 0) < v@.len()),
{
    let n: usize = v.len();
    let mut i: usize = 0;
    while i < n
        invariant
            i <= n == v@.len(),
            first_from(v@, x, 0) == first_from(v@, x, i as int),
        decreases n - i,
    {
        if v[i] == x {
            return true;
        }
        i += 1;
    }
    false
}

fn is_stretch_sound(setup: &Setup, layout: &Layout, t: &Stretch) -> (r: bool)
    ensures
        r == stretch_sound(*setup, *layout, *t),
{
    if t.group >= layout.groups.len() || t.chunk >= 3 {
        return false;
    }
    match layout.groups[t.group].kind {
        Kind::Key { limb, part } => {
            let n: usize = setup.keys.len();
            part < 8 && limb <= n / 8 && 8 * limb + part < n && setup.keys[8 * limb + part].len()
                == 54
        },
        _ => true,
    }
}

fn is_chain_sound(setup: &Setup, c: &Chain) -> (r: bool)
    requires
        setup.carries@.len() == setup.bases@.len(),
    ensures
        r == chain_sound(*setup, *c),
{
    let n: usize = c.scaled.len();
    let mut k: usize = 0;
    while k < n
        invariant
            k <= n == c.scaled@.len(),
            forall|t: int|
                0 <= t < k ==> first_from(setup.factors@, (#[trigger] c.scaled@[t]).factor, 0)
                    < setup.factors@.len(),
        decreases n - k,
    {
        if !occurs(&setup.factors, c.scaled[k].factor) {
            assert(first_from(setup.factors@, c.scaled@[k as int].factor, 0)
                >= setup.factors@.len());
            return false;
        }
        k += 1;
    }
    if n > 0 && !occurs(&setup.factors, 0) {
        return false;
    }
    let levels: usize = c.carries.at.len();
    if levels == 0 {
        return true;
    }
    if !occurs(&setup.bases, c.carries.gadget.base) {
        return false;
    }
    let weights: usize = setup.carries[find(&setup.bases, c.carries.gadget.base)].len();
    weights / 18 >= levels
}

/// Does every name in the layout stand for something, and every group lie inside the public entries?
fn is_sound(setup: &Setup, layout: &Layout) -> (r: bool)
    ensures
        r == (sound(*setup, *layout) && grouped(*layout)),
{
    let chains: usize = layout.chains.len();
    if setup.q <= 0 || setup.scalars.len() != setup.factors.len() || setup.carries.len()
        != setup.bases.len() || layout.stretches.len() != chains {
        return false;
    }
    let mut ci: usize = 0;
    while ci < chains
        invariant
            ci <= chains == layout.chains@.len() == layout.stretches@.len(),
            setup.carries@.len() == setup.bases@.len(),
            forall|i: int, t: int|
                0 <= i < ci && 0 <= t < layout.stretches@[i]@.len() ==> stretch_sound(
                    *setup,
                    *layout,
                    #[trigger] layout.stretches@[i]@[t],
                ),
            forall|i: int|
                0 <= i < ci ==> chain_sound(*setup, #[trigger] layout.chains@[i]),
        decreases chains - ci,
    {
        if !is_chain_sound(setup, &layout.chains[ci]) {
            assert(!chain_sound(*setup, layout.chains@[ci as int]));
            return false;
        }
        let list = &layout.stretches[ci];
        let n: usize = list.len();
        let mut t: usize = 0;
        while t < n
            invariant
                ci < layout.stretches@.len(),
                list@ == layout.stretches@[ci as int]@,
                t <= n == list@.len(),
                forall|u: int|
                    0 <= u < t ==> stretch_sound(
                        *setup,
                        *layout,
                        #[trigger] layout.stretches@[ci as int]@[u],
                    ),
            decreases n - t,
        {
            if !is_stretch_sound(setup, layout, &list[t]) {
                assert(!stretch_sound(*setup, *layout, layout.stretches@[ci as int]@[t as int]));
                return false;
            }
            t += 1;
        }
        ci += 1;
    }
    let groups: usize = layout.groups.len();
    let mut g: usize = 0;
    while g < groups
        invariant
            g <= groups == layout.groups@.len(),
            forall|i: int|
                0 <= i < g ==> (#[trigger] layout.groups@[i]).first + layout.groups@[i].len
                    <= layout.public@.len(),
        decreases groups - g,
    {
        let entries: usize = layout.public.len();
        let group = &layout.groups[g];
        if group.first > entries || group.len > entries - group.first {
            assert(layout.groups@[g as int].first + layout.groups@[g as int].len
                > layout.public@.len());
            return false;
        }
        g += 1;
    }
    true
}

/// Is every index below `n`?
fn below(v: &Vec<usize>, n: usize) -> (r: bool)
    ensures
        r == forall|t: int| 0 <= t < v@.len() ==> (#[trigger] v@[t]) < n,
{
    let m: usize = v.len();
    let mut t: usize = 0;
    while t < m
        invariant
            t <= m == v@.len(),
            forall|i: int| 0 <= i < t ==> (#[trigger] v@[i]) < n,
        decreases m - t,
    {
        if v[t] >= n {
            assert(v@[t as int] >= n);
            return false;
        }
        t += 1;
    }
    true
}

/// What [`build`] needs of the public data.
pub open spec fn admitted(setup: Setup, layout: Layout, norms: Seq<u64>) -> bool {
    &&& grouped(layout)
    &&& sound(setup, layout)
    &&& complete(setup, norms)
    &&& setup.shape.fits()
}

/// Can a statement be built from the public data?
pub fn admits(setup: &Setup, layout: &Layout, norms: &[u64]) -> (r: bool)
    ensures
        r == admitted(*setup, *layout, norms@),
{
    let n: usize = setup.shape.ranks.len();
    is_sound(setup, layout) && setup.binary.len() == n && norms.len() == n && setup.left_expansion
        < n && below(&setup.residues, n) && below(&setup.rest, n) && setup.shape.has_room()
}

/// The representative of `x` in `[0, q)`.
fn reduced(x: i64, q: i64) -> (r: i64)
    requires
        q > 0,
    ensures
        r == x as int % q as int,
{
    let y: i128 = x as i128;
    let m: i128 = q as i128;
    let k: i128 = 0x8000_0000_0000_0000;
    proof {
        assert(k * m >= k) by (nonlinear_arith)
            requires
                m >= 1,
                k >= 0,
        ;
        assert(k * m <= k * 0x8000_0000_0000_0000) by (nonlinear_arith)
            requires
                m <= 0x8000_0000_0000_0000,
                k >= 0,
        ;
        lemma_mod_multiples_vanish(k as int, y as int, m as int);
        assert(m * k == k * m) by (nonlinear_arith);
    }
    ((y + k * m) % m) as i64
}

/// Window `a` of the output.
fn right_hand(c: &Chain, a: usize, q: i64) -> (b: Option<BSource>)
    requires
        q > 0,
        a < 18,
    ensures
        is_right_hand(b, window(*c, a as int, q as int)),
{
    let ghost w = window(*c, a as int, q as int);
    let mut b: [i64; 64] = [0;64];
    let mut zero = true;
    let mut u: usize = 0;
    while u < 9
        invariant
            q > 0,
            a < 18,
            u <= 9,
            w == window(*c, a as int, q as int),
            forall|t: int| 0 <= t < u ==> (#[trigger] b@[t]) == w[t],
            forall|t: int| u <= t < 64 ==> (#[trigger] b@[t]) == 0,
            zero <==> forall|t: int| 0 <= t < u ==> (#[trigger] w[t]) == 0,
        decreases 9 - u,
    {
        let x: i64 = reduced(c.output[9 * a + u], q);
        assert(w[u as int] == x);
        b[u] = x;
        if x != 0 {
            zero = false;
        }
        u += 1;
    }
    if zero {
        assert forall|t: int| 0 <= t < 64 implies (#[trigger] w[t]) == 0 by {}
        None
    } else {
        let mut v: Vec<[i64; 64]> = Vec::new();
        v.push(b);
        assert(exists|t: int| 0 <= t < 64 && (#[trigger] w[t]) != 0);
        Some(BSource::Int64(v))
    }
}

/// The constraint of diagonal `a` of chain `ci`.
fn diagonal_constraint(
    setup: &Setup,
    layout: &Layout,
    phi: &ProofPhi,
    ci: usize,
    a: usize,
) -> (k: Constraint)
    requires
        sound(*setup, *layout),
        phi.holds(*layout),
        ci < layout.chains@.len(),
        a < 18,
    ensures
        is_diagonal(*setup, *layout, *phi, ci as int, a as int, k),
{
    let c = &layout.chains[ci];
    let st = &layout.stretches[ci];
    assert(chain_sound(*setup, layout.chains@[ci as int]));
    let (n, m, l): (usize, usize, usize) = (st.len(), c.scaled.len(), c.carries.at.len());
    let mut blocks: Vec<Block> = Vec::new();
    let mut parts: Vec<PhiBlock> = Vec::new();
    let mut t: usize = 0;
    while t < n
        invariant
            t <= n == st@.len(),
            sound(*setup, *layout),
            phi.holds(*layout),
            ci < layout.chains@.len(),
            *st == layout.stretches@[ci as int],
            a < 18,
            blocks@.len() == t,
            parts@.len() == t,
            forall|i: int|
                0 <= i < t ==> (#[trigger] blocks@[i]) == (Block {
                    idx: st@[i].at.vector,
                    off: st@[i].at.off,
                    len: st@[i].len,
                }),
            forall|i: int|
                0 <= i < t ==> (#[trigger] parts@[i]) == PhiBlock::Short(
                    stretch_phi(*setup, *layout, *phi, st@[i], a as int),
                    st@[i].offset,
                ),
        decreases n - t,
    {
        let x = &st[t];
        assert(stretch_sound(*setup, *layout, layout.stretches@[ci as int]@[t as int]));
        assert(phi.buffers@[x.group as int]@.len() == (if layout.groups@[x.group as int].kind is Key {
            0nat
        } else {
            54
        }));
        blocks.push(Block::new(x.at.vector, x.at.off, x.len));
        let held: usize = setup.keys.len();
        assert(held == setup.keys@.len());
        let p = match layout.groups[x.group].kind {
            Kind::Key { limb, part } => share(&setup.keys[8 * limb + part][18 * x.chunk + a]),
            _ => share(&phi.buffers[x.group][18 * x.chunk + a]),
        };
        parts.push(PhiBlock::Short(p, x.offset));
        t += 1;
    }
    let ghost (b0, p0) = (blocks@, parts@);
    let mut k: usize = 0;
    while k < m
        invariant
            k <= m == c.scaled@.len(),
            a < 18,
            *c == layout.chains@[ci as int],
            chain_sound(*setup, *c),
            setup.scalars@.len() == setup.factors@.len(),
            b0.len() == n,
            p0.len() == n,
            blocks@.len() == n + k,
            parts@.len() == n + k,
            forall|i: int| 0 <= i < n ==> (#[trigger] blocks@[i]) == b0[i],
            forall|i: int| 0 <= i < n ==> (#[trigger] parts@[i]) == p0[i],
            forall|i: int|
                n <= i < n + k ==> (#[trigger] blocks@[i]) == (Block {
                    idx: c.scaled@[i - n].at.vector,
                    off: c.scaled@[i - n].at.off,
                    len: 1,
                }),
            forall|i: int|
                n <= i < n + k ==> (#[trigger] parts@[i]) == PhiBlock::Polx(
                    setup.scalars@[first_from(
                        setup.factors@,
                        factor_at(*c, i - n, a as int),
                        0,
                    )],
                    0,
                ),
        decreases m - k,
    {
        let x = &c.scaled[k];
        assert(first_from(setup.factors@, c.scaled@[k as int].factor, 0) < setup.factors@.len());
        blocks.push(Block::new(x.at.vector, x.at.off, 1));
        let whole = x.chunk < 3 && a == 6 * x.chunk;
        let factor: i64 = if whole {
            x.factor
        } else {
            0
        };
        let i: usize = find(&setup.factors, factor);
        parts.push(PhiBlock::Polx(share(&setup.scalars[i]), 0));
        k += 1;
    }
    let ghost (b1, p1) = (blocks@, parts@);
    let mut d: usize = 0;
    while d < l
        invariant
            d <= l == c.carries.at@.len(),
            a < 18,
            *c == layout.chains@[ci as int],
            chain_sound(*setup, *c),
            setup.carries@.len() == setup.bases@.len(),
            b1.len() == n + m,
            p1.len() == n + m,
            blocks@.len() == n + m + d,
            parts@.len() == n + m + d,
            forall|i: int| 0 <= i < n + m ==> (#[trigger] blocks@[i]) == b1[i],
            forall|i: int| 0 <= i < n + m ==> (#[trigger] parts@[i]) == p1[i],
            forall|i: int|
                n + m <= i < n + m + d ==> (#[trigger] blocks@[i]) == (Block {
                    idx: c.carries.at@[i - n - m].vector,
                    off: c.carries.at@[i - n - m].off,
                    len: 18,
                }),
            forall|i: int|
                n + m <= i < n + m + d ==> (#[trigger] parts@[i]) == PhiBlock::Polx(
                    setup.carries@[first_from(setup.bases@, c.carries.gadget.base, 0)]@[18 * (i - n
                        - m) + a],
                    0,
                ),
        decreases l - d,
    {
        let at = c.carries.at[d];
        blocks.push(Block::new(at.vector, at.off, 18));
        let i: usize = find(&setup.bases, c.carries.gadget.base);
        let weights = &setup.carries[i];
        let held: usize = weights.len();
        assert(18 * d + a < held);
        parts.push(PhiBlock::Polx(share(&weights[18 * d + a]), 0));
        d += 1;
    }
    let b = right_hand(c, a, setup.q);
    Constraint::new(1, blocks, PhiSource::Blocks(parts), b)
}

// ---------------------------------------------------------------------------------------------
// the statement
// ---------------------------------------------------------------------------------------------

/// Chains whose constraints come diagonal by diagonal rather than chain by chain: the four
/// components of a limb read the same buffers at the same diagonal.
pub const FAMILY: usize = 4;

/// The chains of the family of chain `ci`.
pub open spec fn family_len(ci: int, n: int) -> int {
    if n - ci / 4 * 4 < 4 {
        n - ci / 4 * 4
    } else {
        4
    }
}

/// Where the constraint of diagonal `a` of chain `ci` stands.
pub open spec fn place(ci: int, a: int, n: int) -> int {
    18 * (ci / 4 * 4) + a * family_len(ci, n) + ci % 4
}

/// The three pre-commitments and the exact norms the prover announces.
pub struct Opening<'a> {
    pub t_y: &'a Arc<PolxBuf>,
    pub t_u: &'a Arc<PolxBuf>,
    pub t_r: &'a Arc<PolxBuf>,
    pub norms: &'a [u64],
}

/// What an opening announces.
pub struct Announced {
    pub t_y: Arc<PolxBuf>,
    pub t_u: Arc<PolxBuf>,
    pub t_r: Arc<PolxBuf>,
    pub norms: Seq<u64>,
}

impl<'a> View for Opening<'a> {
    type V = Announced;

    open spec fn view(&self) -> Announced {
        Announced { t_y: *self.t_y, t_u: *self.t_u, t_r: *self.t_r, norms: self.norms@ }
    }
}

/// A vector with its rank; a norm of zero is announced as one, since zero marks a binary vector.
pub open spec fn vector_spec(setup: Setup, norms: Seq<u64>, i: int) -> VectorSpec {
    if setup.binary@[i] {
        VectorSpec { n: setup.shape.ranks@[i], betasq: 0, binary: true }
    } else {
        VectorSpec {
            n: setup.shape.ranks@[i],
            betasq: if norms[i] == 0 {
                1
            } else {
                norms[i]
            },
            binary: false,
        }
    }
}

/// Whole vectors.
pub open spec fn whole(ranks: Seq<usize>, group: Seq<usize>, blocks: Seq<Block>) -> bool {
    &&& blocks.len() == group.len()
    &&& forall|t: int|
        0 <= t < group.len() ==> (#[trigger] blocks[t]) == (Block {
            idx: group[t],
            off: 0,
            len: ranks[group[t] as int],
        })
}

/// The constraint that the vectors of `group` commit to `t`.
pub open spec fn is_commitment(
    ranks: Seq<usize>,
    key: RankedKey,
    group: Seq<usize>,
    t: Arc<PolxBuf>,
    k: Constraint,
) -> bool {
    &&& k.deg == key.rank
    &&& whole(ranks, group, k.blocks@)
    &&& k.phi == PhiSource::Polx(key.buf, 0)
    &&& k.b == Some(BSource::Polx(t))
}

/// The constraint that a row of masks finds nothing.
pub open spec fn is_mask_constraint(ranks: Seq<usize>, row: Seq<[i64; 64]>, k: Constraint) -> bool {
    &&& k.deg == 0
    &&& whole(ranks, Seq::new(ranks.len(), |i: int| i as usize), k.blocks@)
    &&& k.phi matches PhiSource::Int64(v) && v@ == row
    &&& k.b is None
}

/// Every vector that is named is there.
pub open spec fn complete(setup: Setup, norms: Seq<u64>) -> bool {
    let n = setup.shape.ranks@.len();
    &&& setup.binary@.len() == n
    &&& norms.len() == n
    &&& setup.left_expansion < n
    &&& forall|t: int| 0 <= t < setup.residues@.len() ==> (#[trigger] setup.residues@[t]) < n
    &&& forall|t: int| 0 <= t < setup.rest@.len() ==> (#[trigger] setup.rest@[t]) < n
}

/// The blocks of whole vectors.
fn whole_blocks(ranks: &Vec<usize>, group: &[usize]) -> (blocks: Vec<Block>)
    requires
        forall|t: int| 0 <= t < group@.len() ==> (#[trigger] group@[t]) < ranks@.len(),
    ensures
        whole(ranks@, group@, blocks@),
{
    let n: usize = group.len();
    let mut blocks: Vec<Block> = Vec::new();
    let mut t: usize = 0;
    while t < n
        invariant
            t <= n == group@.len(),
            blocks@.len() == t,
            forall|t: int| 0 <= t < group@.len() ==> (#[trigger] group@[t]) < ranks@.len(),
            forall|i: int|
                0 <= i < t ==> (#[trigger] blocks@[i]) == (Block {
                    idx: group@[i],
                    off: 0,
                    len: ranks@[group@[i] as int],
                }),
        decreases n - t,
    {
        assert(group@[t as int] < ranks@.len());
        blocks.push(Block::new(group[t], 0, ranks[group[t]]));
        t += 1;
    }
    blocks
}

fn commitment(ranks: &Vec<usize>, key: &RankedKey, group: &[usize], t: &Arc<PolxBuf>) -> (k:
    Constraint)
    requires
        forall|t: int| 0 <= t < group@.len() ==> (#[trigger] group@[t]) < ranks@.len(),
    ensures
        is_commitment(ranks@, *key, group@, *t, k),
{
    let blocks = whole_blocks(ranks, group);
    Constraint::new(
        key.rank,
        blocks,
        PhiSource::polx(share(&key.buf)),
        Some(BSource::Polx(share(t))),
    )
}

/// The specifications of the vectors.
fn vector_specs(setup: &Setup, norms: &[u64]) -> (v: Vec<VectorSpec>)
    requires
        complete(*setup, norms@),
    ensures
        v@.len() == norms@.len(),
        forall|i: int| 0 <= i < v@.len() ==> (#[trigger] v@[i]) == vector_spec(*setup, norms@, i),
{
    let n: usize = norms.len();
    let mut v: Vec<VectorSpec> = Vec::new();
    let mut i: usize = 0;
    while i < n
        invariant
            i <= n == norms@.len(),
            complete(*setup, norms@),
            v@.len() == i,
            forall|t: int|
                0 <= t < i ==> (#[trigger] v@[t]) == vector_spec(*setup, norms@, t),
        decreases n - i,
    {
        let rank: usize = setup.shape.ranks[i];
        if setup.binary[i] {
            v.push(VectorSpec::binary(rank));
        } else {
            let b: u64 = if norms[i] == 0 {
                1
            } else {
                norms[i]
            };
            v.push(VectorSpec::norm_bounded(rank, b));
        }
        i += 1;
    }
    v
}

pub proof fn lemma_family(f: int, j: int, a: int, n: int)
    requires
        0 <= f,
        4 * f < n,
        0 <= a < 18,
        0 <= j < (if n - 4 * f < 4 {
            n - 4 * f
        } else {
            4
        }),
    ensures
        (4 * f + j) / 4 == f,
        (4 * f + j) % 4 == j,
        place(4 * f + j, a, n) == 18 * (4 * f) + a * (if n - 4 * f < 4 {
            n - 4 * f
        } else {
            4
        }) + j,
{
    assert((4 * f + j) / 4 == f && (4 * f + j) % 4 == j);
}

proof fn lemma_place_bound(a: int, b: int, len: int)
    requires
        0 <= a < b,
        0 <= len,
    ensures
        a * len + len <= b * len,
{
    assert(a * len + len == (a + 1) * len) by (nonlinear_arith);
    assert((a + 1) * len <= b * len) by (nonlinear_arith)
        requires
            a + 1 <= b,
            0 <= len,
    ;
}

/// The constraints of one family: diagonal by diagonal, one per chain.
fn family(
    setup: &Setup,
    layout: &Layout,
    phi: &ProofPhi,
    first: usize,
    len: usize,
    out: &mut Vec<Constraint>,
)
    requires
        sound(*setup, *layout),
        phi.holds(*layout),
        first + len <= layout.chains@.len(),
        0 < len <= 4,
    ensures
        final(out)@.len() == old(out)@.len() + 18 * len,
        forall|t: int|
            0 <= t < old(out)@.len() ==> (#[trigger] final(out)@[t]) == old(out)@[t],
        forall|a: int, j: int|
            0 <= a < 18 && 0 <= j < len ==> is_diagonal(
                *setup,
                *layout,
                *phi,
                first + j,
                a,
                #[trigger] final(out)@[old(out)@.len() + (a * len + j)],
            ),
{
    let ghost start = out@;
    let n: usize = layout.chains.len();
    let mut a: usize = 0;
    while a < 18
        invariant
            a <= 18,
            sound(*setup, *layout),
            phi.holds(*layout),
            first + len <= layout.chains@.len() == n,
            0 < len <= 4,
            out@.len() == start.len() + a * len,
            forall|t: int| 0 <= t < start.len() ==> (#[trigger] out@[t]) == start[t],
            forall|d: int, j: int|
                0 <= d < a && 0 <= j < len ==> is_diagonal(
                    *setup,
                    *layout,
                    *phi,
                    first + j,
                    d,
                    #[trigger] out@[start.len() + (d * len + j)],
                ),
        decreases 18 - a,
    {
        let ghost before = out@;
        let mut j: usize = 0;
        while j < len
            invariant
                a < 18,
                j <= len,
                sound(*setup, *layout),
                phi.holds(*layout),
                first + len <= layout.chains@.len() == n,
                0 < len <= 4,
                before.len() == start.len() + a * len,
                out@.len() == before.len() + j,
                forall|t: int| 0 <= t < before.len() ==> (#[trigger] out@[t]) == before[t],
                forall|i: int|
                    0 <= i < j ==> is_diagonal(
                        *setup,
                        *layout,
                        *phi,
                        first + i,
                        a as int,
                        #[trigger] out@[before.len() + i],
                    ),
            decreases len - j,
        {
            out.push(diagonal_constraint(setup, layout, phi, first + j, a));
            j += 1;
        }
        assert forall|d: int, j: int| 0 <= d <= a && 0 <= j < len implies is_diagonal(
            *setup,
            *layout,
            *phi,
            first + j,
            d,
            #[trigger] out@[start.len() + (d * len + j)],
        ) by {
            if d < a {
                lemma_place_bound(d, a as int, len as int);
                assert(out@[start.len() + (d * len + j)] == before[start.len() + (d * len + j)]);
            } else {
                assert(out@[before.len() + j] == out@[start.len() + (d * len + j)]);
            }
        }
        assert(a * len + len == (a + 1) * len) by (nonlinear_arith);
        a += 1;
    }
}

/// The constraints of every chain, each at its place.
fn diagonals(setup: &Setup, layout: &Layout, phi: &ProofPhi) -> (out: Vec<Constraint>)
    requires
        sound(*setup, *layout),
        phi.holds(*layout),
    ensures
        out@.len() == 18 * layout.chains@.len(),
        forall|ci: int, a: int|
            0 <= ci < layout.chains@.len() && 0 <= a < 18 ==> is_diagonal(
                *setup,
                *layout,
                *phi,
                ci,
                a,
                #[trigger] out@[place(ci, a, layout.chains@.len() as int)],
            ),
{
    let n: usize = layout.chains.len();
    let mut out: Vec<Constraint> = Vec::new();
    let mut at: usize = 0;
    let ghost mut f: int = 0;
    while at < n
        invariant
            at <= n == layout.chains@.len(),
            at == 4 * f || at == n,
            at <= 4 * f,
            0 <= f,
            sound(*setup, *layout),
            phi.holds(*layout),
            out@.len() == 18 * at,
            forall|ci: int, a: int|
                0 <= ci < at && 0 <= a < 18 ==> is_diagonal(
                    *setup,
                    *layout,
                    *phi,
                    ci,
                    a,
                    #[trigger] out@[place(ci, a, n as int)],
                ),
        decreases n - at,
    {
        let len: usize = if n - at < FAMILY {
            n - at
        } else {
            FAMILY
        };
        let ghost before = out@;
        family(setup, layout, phi, at, len, &mut out);
        proof {
            assert forall|ci: int, a: int| 0 <= ci < at + len && 0 <= a < 18 implies is_diagonal(
                *setup,
                *layout,
                *phi,
                ci,
                a,
                #[trigger] out@[place(ci, a, n as int)],
            ) by {
                if ci < at {
                    let g = ci / 4;
                    lemma_family(g, ci % 4, a, n as int);
                    assert(4 * g + 4 <= at);
                    lemma_place_bound(a, 18, family_len(ci, n as int));
                    assert(family_len(ci, n as int) == 4);
                    assert(out@[place(ci, a, n as int)] == before[place(ci, a, n as int)]);
                } else {
                    let j = ci - at;
                    lemma_family(f, j, a, n as int);
                    assert(place(ci, a, n as int) == before.len() + (a * len + j));
                }
            }
            f = f + 1;
        }
        at = at + len;
    }
    out
}

/// `s` is the statement of one round: the diagonals of every chain, the three commitments, and the
/// masks.
pub open spec fn is_built(
    s: Statement,
    setup: Setup,
    layout: Layout,
    phi: ProofPhi,
    opening: Announced,
    rows: Seq<Vec<[i64; 64]>>,
) -> bool {
    let (n, r, c) = (18 * layout.chains@.len() as int, setup.shape.ranks@, s.constraints@);
    &&& s.vectors@.len() == r.len()
    &&& forall|i: int|
        0 <= i < s.vectors@.len() ==> (#[trigger] s.vectors@[i]) == vector_spec(
            setup,
            opening.norms,
            i,
        )
    &&& c.len() == n + 3 + rows.len()
    &&& forall|ci: int, a: int|
        0 <= ci < layout.chains@.len() && 0 <= a < 18 ==> is_diagonal(
            setup,
            layout,
            phi,
            ci,
            a,
            #[trigger] c[place(ci, a, layout.chains@.len() as int)],
        )
    &&& is_commitment(r, setup.key_y, setup.residues@, opening.t_y, c[n])
    &&& is_commitment(r, setup.key_u, seq![setup.left_expansion], opening.t_u, c[n + 1])
    &&& is_commitment(r, setup.key_r, setup.rest@, opening.t_r, c[n + 2])
    &&& forall|h: int|
        n + 3 <= h < n + 3 + rows.len() ==> is_mask_constraint(
            r,
            rows[h - n - 3]@,
            #[trigger] c[h],
        )
}

/// The statement of one round: the diagonals of every chain, the three commitments, and the masks.
pub fn build(
    setup: &Setup,
    layout: &Layout,
    phi: &ProofPhi,
    opening: Opening,
    masks: Masks,
    digest: [u8; 32],
) -> (s: Statement)
    requires
        sound(*setup, *layout),
        phi.holds(*layout),
        complete(*setup, opening.norms@),
    ensures
        s.digest == digest,
        is_built(s, *setup, *layout, *phi, opening@, masks.rows@),
{
    let vectors = vector_specs(setup, opening.norms);
    let mut constraints = diagonals(setup, layout, phi);
    let ghost chains = constraints@;
    let ranks = &setup.shape.ranks;
    let left: [usize; 1] = [setup.left_expansion];
    let ky = commitment(ranks, &setup.key_y, setup.residues.as_slice(), opening.t_y);
    let ku = commitment(ranks, &setup.key_u, left.as_slice(), opening.t_u);
    assert(left@ =~= seq![setup.left_expansion]);
    let kr = commitment(ranks, &setup.key_r, setup.rest.as_slice(), opening.t_r);
    constraints.push(ky);
    constraints.push(ku);
    constraints.push(kr);
    let ghost kept = constraints@;
    let ghost given = masks.rows@;
    let mut all: Vec<usize> = Vec::new();
    let n: usize = ranks.len();
    let mut i: usize = 0;
    while i < n
        invariant
            i <= n == ranks@.len(),
            all@ == Seq::new(i as nat, |t: int| t as usize),
        decreases n - i,
    {
        all.push(i);
        assert(all@ =~= Seq::new((i + 1) as nat, |t: int| t as usize));
        i += 1;
    }
    let mut rows = masks.rows;
    let mut reversed: Vec<Vec<[i64; 64]>> = Vec::new();
    let m: usize = rows.len();
    let mut h: usize = 0;
    while h < m
        invariant
            h <= m == given.len(),
            rows@ =~= given.take(m - h),
            reversed@ =~= given.skip(m - h).reverse(),
        decreases m - h,
    {
        let row = rows.pop().unwrap();
        reversed.push(row);
        h += 1;
    }
    let mut g: usize = 0;
    while g < m
        invariant
            g <= m == given.len(),
            n == ranks@.len(),
            *ranks == setup.shape.ranks,
            all@ == Seq::new(n as nat, |t: int| t as usize),
            reversed@ =~= given.skip(g as int).reverse(),
            constraints@.len() == kept.len() + g,
            forall|t: int| 0 <= t < kept.len() ==> (#[trigger] constraints@[t]) == kept[t],
            forall|t: int|
                kept.len() <= t < kept.len() + g ==> is_mask_constraint(
                    ranks@,
                    given[t - kept.len()]@,
                    #[trigger] constraints@[t],
                ),
        decreases m - g,
    {
        let row = reversed.pop().unwrap();
        assert(row == given[g as int]);
        let blocks = whole_blocks(ranks, all.as_slice());
        constraints.push(Constraint::new(0, blocks, PhiSource::Int64(row), None));
        g += 1;
    }
    proof {
        let c = layout.chains@.len() as int;
        assert forall|ci: int, a: int| 0 <= ci < c && 0 <= a < 18 implies is_diagonal(
            *setup,
            *layout,
            *phi,
            ci,
            a,
            #[trigger] constraints@[place(ci, a, c)],
        ) by {
            lemma_family(ci / 4, ci % 4, a, c);
            lemma_place_bound(a, 18, family_len(ci, c));
            assert(0 <= a * family_len(ci, c)) by (nonlinear_arith)
                requires
                    0 <= a,
                    0 <= family_len(ci, c),
            ;
            assert(ci / 4 * 4 + family_len(ci, c) <= c);
            assert(constraints@[place(ci, a, c)] == kept[place(ci, a, c)]);
            assert(kept[place(ci, a, c)] == chains[place(ci, a, c)]);
        }
        assert(constraints@[18 * c] == kept[18 * c]);
        assert(constraints@[18 * c + 1] == kept[18 * c + 1]);
        assert(constraints@[18 * c + 2] == kept[18 * c + 2]);
    }
    Statement::with_digest(vectors, constraints, digest)
}

} // verus!
