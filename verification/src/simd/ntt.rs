//! The transforms of 32 elements side by side.
//!
//! The forward transforms leave lanes that are congruent to the values of the elements and within the
//! output bound of the prime; the inverse ones leave centred coefficients.
use super::gen_large;
use super::gen_quad;
use super::gen_quad::Cap;
use super::network;
use super::schedule;
use super::schedule::Caps;
use crate::fold;
use crate::modular;
use crate::modular::same;
use crate::ntt::poly;
use crate::params;
use crate::recursion::chunk;
use crate::ring;
use crate::ring::decompose;
use crate::ring::{Batch32, Representation, RingElement};
use crate::scalar;
use vstd::arithmetic::div_mod::*;
use vstd::prelude::*;

verus! {

/// Element `p` of a batch.
pub open spec fn lane(b: Batch32, p: int) -> Seq<i16> {
    Seq::new(648, |j: int| b.v@[j]@[p])
}

/// The residues of a lane in `[0, q)`.
pub open spec fn residues(v: Seq<i16>, q: u16) -> Seq<u32> {
    Seq::new(v.len(), |j: int| (v[j] as int % q as int) as u32)
}

/// `y` is the transform of `a`, modulo `q`.
pub open spec fn is_lane_transform(q: u16, y: Seq<i16>, a: Seq<i16>) -> bool {
    decompose::is_transform(q, residues(y, q), chunk::shorts(a))
}

/// Every value is the centred representative of its residue.
pub open spec fn centred(v: Seq<i16>, q: u16) -> bool {
    forall|j: int| 0 <= j < v.len() ==> -((q - 1) / 2) <= (#[trigger] v[j]) <= (q - 1) / 2
}

proof fn lemma_residue(x: i16, q: u16)
    requires
        q > 0,
    ensures
        same((x as int % q as int) as u32 as int, x as int, q as int),
        0 <= x as int % (q as int) < q,
{
    lemma_mod_bound(x as int, q as int);
    modular::lemma_reduced(x as int, q as int);
}

/// Lanes that hold the leaves of a tree are a transform.
pub(crate) proof fn lemma_lane(q: u16, v: Seq<i16>, a: Seq<int>)
    requires
        params::limb_prime(q),
        v.len() == 648,
        params::tree_of(q).holds(network::residues(v, q as u64), a, 1),
    ensures
        decompose::is_transform(q, residues(v, q), a),
{
    let (w, y) = (network::residues(v, q as u64), residues(v, q));
    scalar::lemma_leaves(q, w, a);
    assert forall|j: int| 0 <= j < 648 implies (#[trigger] y[j]) == w[j] by {
        lemma_residue(v[j], q);
    }
}

/// The centred representatives of residues.
pub(crate) fn centre_all(y: &[u32; 648], q: u16, representation: Representation) -> (e: RingElement)
    requires
        params::limb_prime(q),
        scalar::in_range(y@, q),
    ensures
        e.representation == representation,
        centred(e.v@, q),
        residues(e.v@, q) == y@,
{
    let mut e = RingElement::zero(representation);
    let mut j: usize = 0;
    while j < 648
        invariant
            j <= 648,
            params::limb_prime(q),
            scalar::in_range(y@, q),
            e.representation == representation,
            forall|i: int| 0 <= i < j ==> -((q - 1) / 2) <= (#[trigger] e.v@[i]) <= (q - 1) / 2,
            forall|i: int| 0 <= i < j ==> (#[trigger] e.v@[i]) as int % q as int == y@[i],
        decreases 648 - j,
    {
        assert(y@[j as int] < q);
        proof {
            let x = y@[j as int] as int;
            lemma_small_mod(x as nat, q as nat);
            lemma_mod_multiples_vanish(-1, x, q as int);
        }
        e.v[j] = decompose::centred(y[j], q);
        j += 1;
    }
    assert(residues(e.v@, q) =~= y@);
    e
}

/// The forward transform of a prime: centred, or one of the lazily reduced ones with its schedule.
enum Kernel {
    Centred,
    Large(Caps),
    Quad(Cap, (bool, bool, [bool; 4])),
}

impl Kernel {
    spec fn wf(&self, q: u16) -> bool {
        match *self {
            Kernel::Centred => q == 3889 || q == 9721,
            Kernel::Large(c) => c.wf() && c.q == q,
            Kernel::Quad(c, f) => {
                &&& c.wf()
                &&& c.q == q
                &&& gen_quad::peak_after(c, f.0, f.1, f.2@, 4) <= 32767
                &&& exists|mask: int| #[trigger]
                    gen_quad::is_best(c, mask, 64) && gen_quad::is_placement(f, mask)
            },
        }
    }
}

/// The transform of `q`.
fn kernel_of(q: u16) -> (k: Kernel)
    requires
        params::limb_prime(q),
    ensures
        k.wf(q),
{
    if q == 3889 || q == 9721 {
        Kernel::Centred
    } else if q == 17497 || q == 19441 {
        Kernel::Large(Caps::of(q))
    } else {
        let c = Cap::of(q);
        let f = gen_quad::gen_flags(&c);
        Kernel::Quad(c, f)
    }
}

/// The lanes a transform takes: of magnitude at most `q`, and any at 3889 and 9721.
pub open spec fn taken(q: u16, a: Seq<i16>) -> bool {
    q == 3889 || q == 9721 || network::within(a, q as int)
}

/// The lanes a transform leaves: centred at 3889 and 9721, elsewhere up to the output bound of the
/// prime's schedule.
pub open spec fn left(q: u16, y: Seq<i16>) -> bool {
    if q == 3889 || q == 9721 {
        centred(y, q)
    } else if params::splitting(q) {
        forall|c: Caps|
            c.q == q && #[trigger] c.wf() ==> network::within(y, gen_large::forward_bound(c, 4))
    } else {
        forall|c: Cap, out: int|
            c.q == q && #[trigger] c.wf() && #[trigger] gen_quad::leaves(c, out)
                ==> network::within(y, out)
    }
}

/// The transform of one element.
fn forward(q: u16, k: &Kernel, e: &RingElement) -> (r: RingElement)
    requires
        params::limb_prime(q),
        k.wf(q),
        taken(q, e.v@),
    ensures
        r.representation == Representation::Ntt,
        left(q, r.v@),
        is_lane_transform(q, r.v@, e.v@),
{
    match k {
        Kernel::Centred => forward_centred(q, e),
        Kernel::Large(c) => {
            let v = gen_large::transform(c, &e.v);
            proof {
                lemma_lane(q, v@, chunk::shorts(e.v@));
                assert forall|d: Caps| d.q == q && #[trigger] d.wf() implies network::within(
                    v@,
                    gen_large::forward_bound(d, 4),
                ) by {
                    schedule::caps_unique(*c, d);
                }
            }
            RingElement { v, representation: Representation::Ntt }
        },
        Kernel::Quad(c, f) => {
            let v = gen_quad::transform(c, f, &e.v);
            proof {
                lemma_lane(q, v@, chunk::shorts(e.v@));
                let mask = choose|mask: int| #[trigger]
                    gen_quad::is_best(*c, mask, 64) && gen_quad::is_placement(*f, mask);
                assert forall|d: Cap, out: int|
                    d.q == q && #[trigger] d.wf() && #[trigger] gen_quad::leaves(
                        d,
                        out,
                    ) implies network::within(v@, out) by {
                    gen_quad::bound_unique(*c, d, *f, mask, out);
                }
            }
            RingElement { v, representation: Representation::Ntt }
        },
    }
}

/// The transform of one element, centred.
fn forward_centred(q: u16, e: &RingElement) -> (r: RingElement)
    requires
        params::limb_prime(q),
    ensures
        r.representation == Representation::Ntt,
        centred(r.v@, q),
        is_lane_transform(q, r.v@, e.v@),
{
    let a = e.normalized(q);
    let y = scalar::transform(q, &a);
    proof {
        let (x, z) = (poly::ints(a@), chunk::shorts(e.v@));
        assert forall|i: int| 0 <= i < 648 implies same(#[trigger] x[i], z[i], q as int) by {
            assert(a@[i] == e.v@[i] as int % q as int);
            modular::lemma_reduced(z[i], q as int);
        }
        fold::lemma_same_transform(q, y@, x, z);
    }
    centre_all(&y, q, Representation::Ntt)
}

/// The inverse transform of one element.
fn backward(q: u16, e: &RingElement) -> (r: RingElement)
    requires
        params::limb_prime(q),
    ensures
        r.representation == Representation::Coefficients,
        centred(r.v@, q),
        is_lane_transform(q, e.v@, r.v@),
{
    let y = e.normalized(q);
    proof {
        assert forall|i: int| 0 <= i < 648 implies (#[trigger] y@[i]) < q && y@[i] == residues(
            e.v@,
            q,
        )[i] by {
            assert(y@[i] == e.v@[i] as int % q as int);
            lemma_residue(e.v@[i], q);
        }
        assert(y@ =~= residues(e.v@, q));
    }
    let a = scalar::inverse_transform(q, &y);
    let r = centre_all(&a, q, Representation::Coefficients);
    proof {
        let (x, z) = (poly::ints(a@), chunk::shorts(r.v@));
        assert forall|i: int| 0 <= i < 648 implies same(#[trigger] x[i], z[i], q as int) by {
            assert(residues(r.v@, q)[i] == a@[i]);
            lemma_residue(r.v@[i], q);
        }
        fold::lemma_same_transform(q, y@, x, z);
    }
    r
}

/// Every lane is one the transform of `q` takes.
pub open spec fn all_taken(q: u16, a: Batch32) -> bool {
    forall|p: int| 0 <= p < 32 ==> taken(q, #[trigger] lane(a, p))
}

/// Every lane of `out` is the transform of the lane of `a`, within the bound of the prime.
pub open spec fn is_forward(q: u16, out: Batch32, a: Batch32) -> bool {
    &&& out.representation == Representation::Ntt
    &&& forall|p: int|
        0 <= p < 32 ==> left(q, #[trigger] lane(out, p)) && is_lane_transform(
            q,
            lane(out, p),
            lane(a, p),
        )
}

/// Every lane of `out` holds the centred coefficients whose transform is the lane of `y`.
pub open spec fn is_backward(q: u16, out: Batch32, y: Batch32) -> bool {
    &&& out.representation == Representation::Coefficients
    &&& forall|p: int|
        0 <= p < 32 ==> centred(#[trigger] lane(out, p), q) && is_lane_transform(
            q,
            lane(y, p),
            lane(out, p),
        )
}

/// The transforms of all lanes, lazily reduced but at 3889 and 9721.
pub fn ntt_batch32(q: u16, batch: &Batch32) -> (out: Batch32)
    requires
        params::limb_prime(q),
        all_taken(q, *batch),
    ensures
        is_forward(q, out, *batch),
{
    let k = kernel_of(q);
    let mut out = Batch32::zero(Representation::Ntt);
    let mut p: usize = 0;
    while p < 32
        invariant
            p <= 32,
            params::limb_prime(q),
            k.wf(q),
            all_taken(q, *batch),
            out.representation == Representation::Ntt,
            forall|i: int|
                0 <= i < p ==> left(q, #[trigger] lane(out, i)) && is_lane_transform(
                    q,
                    lane(out, i),
                    lane(*batch, i),
                ),
        decreases 32 - p,
    {
        let e = batch.get(p);
        assert(e.v@ =~= lane(*batch, p as int));
        let r = forward(q, &k, &e);
        let ghost before = out;
        out.set(p, &r);
        assert(lane(out, p as int) =~= r.v@);
        assert forall|i: int| 0 <= i <= p implies left(q, #[trigger] lane(out, i))
            && is_lane_transform(q, lane(out, i), lane(*batch, i)) by {
            if i < p {
                assert(lane(out, i) =~= lane(before, i));
            }
        }
        p += 1;
    }
    out
}

/// The inverse transforms of all lanes.
pub fn intt_batch32(q: u16, batch: &Batch32) -> (out: Batch32)
    requires
        params::limb_prime(q),
    ensures
        is_backward(q, out, *batch),
{
    let mut out = Batch32::zero(Representation::Coefficients);
    let mut p: usize = 0;
    while p < 32
        invariant
            p <= 32,
            params::limb_prime(q),
            out.representation == Representation::Coefficients,
            forall|i: int|
                0 <= i < p ==> centred(#[trigger] lane(out, i), q) && is_lane_transform(
                    q,
                    lane(*batch, i),
                    lane(out, i),
                ),
        decreases 32 - p,
    {
        let e = batch.get(p);
        assert(e.v@ =~= lane(*batch, p as int));
        let r = backward(q, &e);
        let ghost before = out;
        out.set(p, &r);
        assert(lane(out, p as int) =~= r.v@);
        assert forall|i: int| 0 <= i <= p implies centred(#[trigger] lane(out, i), q)
            && is_lane_transform(q, lane(*batch, i), lane(out, i)) by {
            if i < p {
                assert(lane(out, i) =~= lane(before, i));
            }
        }
        p += 1;
    }
    out
}

/// The transform of a batch at a splitting prime, in place.
pub fn ntt_gen_batch32<const Q: u16>(batch: &mut Batch32)
    requires
        params::splitting(Q),
        all_taken(Q, *old(batch)),
    ensures
        is_forward(Q, *final(batch), *old(batch)),
{
    *batch = ntt_batch32(Q, batch);
}

/// The inverse transform of a batch at a splitting prime, in place.
pub fn intt_gen_batch32<const Q: u16>(batch: &mut Batch32)
    requires
        params::splitting(Q),
    ensures
        is_backward(Q, *final(batch), *old(batch)),
{
    *batch = intt_batch32(Q, batch);
}

/// The transform of a batch at a quadratic-slot prime, in place.
pub fn ntt_quad_gen_batch32<const Q: u16>(batch: &mut Batch32)
    requires
        ring::quadratic(Q),
        all_taken(Q, *old(batch)),
    ensures
        is_forward(Q, *final(batch), *old(batch)),
{
    *batch = ntt_batch32(Q, batch);
}

/// The inverse transform of a batch at a quadratic-slot prime, in place.
pub fn intt_quad_gen_batch32<const Q: u16>(batch: &mut Batch32)
    requires
        ring::quadratic(Q),
    ensures
        is_backward(Q, *final(batch), *old(batch)),
{
    *batch = intt_batch32(Q, batch);
}

/// Transforming a batch and inverting the result gives the batch back, modulo `q`.
pub proof fn batch_round_trip(q: u16, a: Batch32, y: Batch32, b: Batch32, j: int, p: int)
    requires
        params::limb_prime(q),
        is_forward(q, y, a),
        is_backward(q, b, y),
        0 <= j < 648,
        0 <= p < 32,
    ensures
        same(b.v@[j]@[p] as int, a.v@[j]@[p] as int, q as int),
{
    assert(left(q, lane(y, p)));
    assert(centred(lane(b, p), q));
    let (x, z) = (chunk::shorts(lane(a, p)), chunk::shorts(lane(b, p)));
    scalar::transform_determines_residues(q, residues(lane(y, p), q), z, x);
    assert(same(z[j], x[j], q as int));
}

} // verus!
