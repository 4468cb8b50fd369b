//! What the switch binds: what holds of every claim that its verifier accepts.
use crate::bytes;
use crate::challenge::transcript;
use crate::challenge::transcript::Script;
use crate::fields::crossfield;
use crate::fields::linear;
use crate::fields::scalar;
use crate::fields::scalar::{B128, F162};
use crate::hash;
use crate::scheme::{EvaluationPoint, Params};
use crate::switch;
use crate::switch::{SwitchError, SwitchProof};
use vstd::arithmetic::div_mod::*;
use vstd::arithmetic::power2::*;
use vstd::prelude::*;

verus! {

/// The bits of the words as a table of zeros and ones, bit `k` of word `j` at index `k + 128 j`.
pub open spec fn bit_table(trace: Seq<Seq<bool>>) -> Seq<Seq<bool>> {
    Seq::new(
        128 * trace.len(),
        |i: int| scalar::ghash().scale(trace[i / 128][i % 128], scalar::ghash().one()),
    )
}

/// The bit-level claim is the multilinear extension of the table of bits, the word index above the bit
/// index.
pub proof fn bit_claim_is_mle(
    trace: Seq<Seq<bool>>,
    r_lo: Seq<Seq<bool>>,
    r_hi: Seq<Seq<bool>>,
)
    requires
        scalar::ghash().elems(trace),
        scalar::ghash().elems(r_lo),
        scalar::ghash().elems(r_hi),
        r_lo.len() == 7,
        trace.len() == pow2(r_hi.len()),
    ensures
        crossfield::bit_claim(
            trace,
            scalar::ghash().eq(r_lo),
            scalar::ghash().eq(r_hi),
            trace.len(),
        ) == scalar::ghash().mle(bit_table(trace), r_hi + r_lo),
{
    let g = scalar::ghash();
    let (n, m) = (128nat, trace.len());
    lemma2_to64();
    g.eq_shape(r_lo);
    g.eq_shape(r_hi);
    let (w, h) = (g.eq(r_lo), g.eq(r_hi));
    let e = g.eq(r_hi + r_lo);
    let t = bit_table(trace);
    let f = |k: int| g.mul(t[k], e[k]);
    g.total_blocks(f, n, m);
    let blocks = |j: int| g.total(|i: int| f(i + n * j), n);
    let want = |j: int| g.mul(g.pick(trace[j], w, 128), h[j]);
    assert forall|j: int| 0 <= j < m implies #[trigger] blocks(j) == want(j) by {
        let x = h[j];
        let inner = |i: int| g.scale(trace[j][i], w[i]);
        let xi = |i: int| g.mul(x, inner(i));
        let fi = |i: int| f(i + n * j);
        g.total_mul(x, inner, n);
        g.total_elem(inner, n);
        g.mul_comm(g.total(inner, n), x);
        assert forall|i: int| 0 <= i < n implies #[trigger] fi(i) == xi(i) by {
            g.eq_join(r_hi, r_lo, j, i);
            lemma_fundamental_div_mod_converse(i + 128 * j, 128, j, i);
            let b = trace[j][i];
            assert(t[i + 128 * j] == g.scale(b, g.one()));
            let y = g.mul(x, w[i]);
            g.mul_elem(x, w[i]);
            g.scale_mul(b, g.one(), y);
            g.mul_comm(g.one(), y);
            g.mul_one(y);
            g.scale_mul(b, x, w[i]);
        }
        g.total_ext(fi, xi, n);
        g.total_ext(fi, |i: int| f(i + n * j), n);
        g.total_ext(inner, |k: int| g.scale(trace[j][k], w[k]), 128);
    }
    g.total_ext(blocks, want, m);
    assert(n * m == t.len());
}

/// What every accepted bit-level claim satisfies: the proof has the shape of the parameters, and the
/// claim is the multilinear extension of its 128 partial evaluations at the low coordinates.
pub proof fn accepted_bits(
    params: Params,
    pf: SwitchProof,
    s: Script,
    r_lo: Seq<B128>,
    r_hi: Seq<B128>,
    claim: B128,
    out: Result<(EvaluationPoint, F162), SwitchError>,
    after: Script,
)
    requires
        r_lo.len() == 7,
        switch::answers(out, after, params, pf, s, r_lo, r_hi, claim),
        out is Ok,
    ensures
        r_hi.len() == params.witness_log_len,
        pf.partials@.len() == 128,
        pf.rounds@.len() == params.witness_log_len,
        scalar::ghash().mle(linear::words(pf.partials@), linear::words(r_lo)) == claim@,
        out->Ok_0.1 == pf.opened,
{
    let g = scalar::ghash();
    lemma2_to64();
    g.eq_shape(linear::words(r_lo));
    assert(linear::words(pf.partials@).len() == 128);
}

/// What every accepted word-level claim satisfies: the proof has the shape of the parameters, and the
/// claim is the combination of its 128 partial evaluations with the powers of `X`.
pub proof fn accepted_words(
    params: Params,
    pf: SwitchProof,
    s: Script,
    r: Seq<B128>,
    claim: B128,
    out: Result<(EvaluationPoint, F162), SwitchError>,
    after: Script,
)
    requires
        switch::answers(out, after, params, pf, s, Seq::empty(), r, claim),
        out is Ok,
    ensures
        r.len() == params.witness_log_len,
        pf.partials@.len() == 128,
        pf.rounds@.len() == params.witness_log_len,
        scalar::ghash().total(
            |k: int|
                scalar::ghash().mul(pf.partials@[k]@, scalar::ghash().monomial(k)),
            128,
        ) == claim@,
        out->Ok_0.1 == pf.opened,
{
    let g = scalar::ghash();
    assert(linear::words(Seq::<B128>::empty()).len() == 0);
    assert(linear::words(pf.partials@).len() == 128);
    let v = linear::words(pf.partials@);
    g.total_ext(
        |k: int| g.mul(v[k], crossfield::basis()[k]),
        |k: int| g.mul(pf.partials@[k]@, g.monomial(k)),
        128,
    );
}

/// One list of partial evaluations has one bit-level claim accepted at a point, whatever else the two
/// proofs, their transcripts and their parameters differ in: what is accepted for one claim is refused
/// for every other.
pub proof fn bits_claim_unique(
    params: Params,
    pf: SwitchProof,
    s: Script,
    r_hi: Seq<B128>,
    claim: B128,
    out: Result<(EvaluationPoint, F162), SwitchError>,
    after: Script,
    other_params: Params,
    other_pf: SwitchProof,
    t: Script,
    other_hi: Seq<B128>,
    other: B128,
    r: Result<(EvaluationPoint, F162), SwitchError>,
    behind: Script,
    r_lo: Seq<B128>,
)
    requires
        r_lo.len() == 7,
        other_pf.partials@ == pf.partials@,
        switch::answers(out, after, params, pf, s, r_lo, r_hi, claim),
        switch::answers(r, behind, other_params, other_pf, t, r_lo, other_hi, other),
        out is Ok,
    ensures
        other != claim ==> r is Err,
{
    accepted_bits(params, pf, s, r_lo, r_hi, claim, out, after);
    if r is Ok {
        accepted_bits(other_params, other_pf, t, r_lo, other_hi, other, r, behind);
        B128::ext(claim, other);
    }
}

/// One list of partial evaluations has one word-level claim accepted.
pub proof fn words_claim_unique(
    params: Params,
    pf: SwitchProof,
    s: Script,
    p: Seq<B128>,
    claim: B128,
    out: Result<(EvaluationPoint, F162), SwitchError>,
    after: Script,
    other_params: Params,
    other_pf: SwitchProof,
    t: Script,
    q: Seq<B128>,
    other: B128,
    r: Result<(EvaluationPoint, F162), SwitchError>,
    behind: Script,
)
    requires
        other_pf.partials@ == pf.partials@,
        switch::answers(out, after, params, pf, s, Seq::empty(), p, claim),
        switch::answers(r, behind, other_params, other_pf, t, Seq::empty(), q, other),
        out is Ok,
    ensures
        other != claim ==> r is Err,
{
    accepted_words(params, pf, s, p, claim, out, after);
    if r is Ok {
        accepted_words(other_params, other_pf, t, q, other, r, behind);
        B128::ext(claim, other);
    }
}

/// The partial evaluations of a trace: partial evaluation `k` adds up the weights of the words whose
/// bit `k` is set.
pub open spec fn are_partials(v: Seq<B128>, trace: Seq<B128>, r_hi: Seq<B128>) -> bool {
    let g = scalar::ghash();
    &&& v.len() == 128
    &&& forall|k: int|
        0 <= k < 128 ==> (#[trigger] v[k])@ == g.total(
            |j: int| g.scale(trace[j]@[k], g.eq(linear::words(r_hi))[j]),
            trace.len(),
        )
}

proof fn lemma_partials(v: Seq<B128>, trace: Seq<B128>, r_hi: Seq<B128>)
    requires
        are_partials(v, trace, r_hi),
    ensures
        linear::words(v) == crossfield::partials(
            linear::words(trace),
            scalar::ghash().eq(linear::words(r_hi)),
        ),
{
    let g = scalar::ghash();
    let (t, e) = (linear::words(trace), g.eq(linear::words(r_hi)));
    assert forall|k: int| 0 <= k < 128 implies linear::words(v)[k] == crossfield::partials(
        t,
        e,
    )[k] by {
        assert(v[k]@ == g.total(|j: int| g.scale(trace[j]@[k], e[j]), trace.len()));
        g.total_ext(
            |j: int| g.scale(trace[j]@[k], e[j]),
            |j: int| g.scale(t[j][k], e[j]),
            trace.len(),
        );
    }
    assert(linear::words(v) =~= crossfield::partials(t, e));
}

/// With the partial evaluations of a trace only the true bit-level claim is accepted: the multilinear
/// extension of the bits of its words.
pub proof fn honest_partials_bits(
    params: Params,
    pf: SwitchProof,
    trace: Seq<B128>,
    s: Script,
    r_lo: Seq<B128>,
    r_hi: Seq<B128>,
    claim: B128,
    out: Result<(EvaluationPoint, F162), SwitchError>,
    after: Script,
)
    requires
        r_lo.len() == 7,
        trace.len() == pow2(r_hi.len()),
        are_partials(pf.partials@, trace, r_hi),
        switch::answers(out, after, params, pf, s, r_lo, r_hi, claim),
        out is Ok,
    ensures
        claim@ == scalar::ghash().mle(
            bit_table(linear::words(trace)),
            linear::words(r_hi) + linear::words(r_lo),
        ),
{
    let g = scalar::ghash();
    let (t, lo, hi) = (linear::words(trace), linear::words(r_lo), linear::words(r_hi));
    accepted_bits(params, pf, s, r_lo, r_hi, claim, out, after);
    lemma_partials(pf.partials@, trace, r_hi);
    lemma2_to64();
    g.eq_shape(lo);
    g.eq_shape(hi);
    crossfield::partials_weighed(t, g.eq(hi), g.eq(lo));
    bit_claim_is_mle(t, lo, hi);
}

/// With the partial evaluations of a trace only the true word-level claim is accepted: the multilinear
/// extension of its words.
pub proof fn honest_partials_words(
    params: Params,
    pf: SwitchProof,
    trace: Seq<B128>,
    s: Script,
    r: Seq<B128>,
    claim: B128,
    out: Result<(EvaluationPoint, F162), SwitchError>,
    after: Script,
)
    requires
        trace.len() == pow2(r.len()),
        are_partials(pf.partials@, trace, r),
        switch::answers(out, after, params, pf, s, Seq::empty(), r, claim),
        out is Ok,
    ensures
        claim@ == scalar::ghash().mle(linear::words(trace), linear::words(r)),
{
    let g = scalar::ghash();
    accepted_words(params, pf, s, r, claim, out, after);
    lemma_partials(pf.partials@, trace, r);
    crossfield::partials_words(linear::words(trace), linear::words(r));
    let v = linear::words(pf.partials@);
    g.total_ext(
        |k: int| g.mul(v[k], crossfield::basis()[k]),
        |k: int| g.mul(pf.partials@[k]@, g.monomial(k)),
        128,
    );
}

// ---------------------------------------------------------------------------------------------
// the transcript
// ---------------------------------------------------------------------------------------------

/// Two lists of words at the front of the same bytes.
proof fn lemma_list(v: Seq<B128>, w: Seq<B128>, x: Seq<u8>, y: Seq<u8>)
    requires
        bytes::le(v.len(), 8) + transcript::b128_bytes(v) + x == bytes::le(w.len(), 8)
            + transcript::b128_bytes(w) + y,
        v.len() <= u64::MAX,
        w.len() <= u64::MAX,
    ensures
        v == w,
        x == y,
{
    let (a, b) = (transcript::b128_bytes(v), transcript::b128_bytes(w));
    assert(bytes::le(v.len(), 8) + a + x =~= bytes::le(v.len(), 8) + (a + x));
    assert(bytes::le(w.len(), 8) + b + y =~= bytes::le(w.len(), 8) + (b + y));
    transcript::lemma_front(v.len(), w.len(), a + x, b + y);
    transcript::lemma_b128_bytes_len(v);
    transcript::lemma_b128_bytes_len(w);
    let n = a.len() as int;
    assert((a + x).take(n) =~= a);
    assert((b + y).take(n) =~= b);
    assert((a + x).skip(n) =~= x);
    assert((b + y).skip(n) =~= y);
    transcript::b128_bytes_injective(v, w);
}

/// A list of words as it is absorbed.
spec fn list(v: Seq<B128>) -> Seq<u8> {
    bytes::le(v.len(), 8) + transcript::b128_bytes(v)
}

/// The script that the batching weights are derived from determines the statement and the partial
/// evaluations.
pub proof fn statement_binds(
    s: Script,
    a_lo: Seq<B128>,
    a_hi: Seq<B128>,
    a: B128,
    v: Seq<B128>,
    b_lo: Seq<B128>,
    b_hi: Seq<B128>,
    b: B128,
    w: Seq<B128>,
)
    requires
        a_lo.len() <= u64::MAX,
        a_hi.len() <= u64::MAX,
        v.len() <= u64::MAX,
        b_lo.len() <= u64::MAX,
        b_hi.len() <= u64::MAX,
        w.len() <= u64::MAX,
        switch::at_sumcheck(s, a_lo, a_hi, a, v).absorbed == switch::at_sumcheck(
            s,
            b_lo,
            b_hi,
            b,
            w,
        ).absorbed,
    ensures
        a_lo == b_lo,
        a_hi == b_hi,
        a == b,
        v == w,
{
    let l = switch::switch_label();
    let e = Seq::<u8>::empty();
    let (x1, y1) = (list(v) + e, list(w) + e);
    let (x2, y2) = (list(seq![a]) + x1, list(seq![b]) + y1);
    let (x3, y3) = (list(a_hi) + x2, list(b_hi) + y2);
    let (x4, y4) = (list(a_lo) + x3, list(b_lo) + y3);
    let h = s.absorb_bytes(l).absorbed;
    assert(switch::at_sumcheck(s, a_lo, a_hi, a, v).absorbed =~= h + x4);
    assert(switch::at_sumcheck(s, b_lo, b_hi, b, w).absorbed =~= h + y4);
    let n = h.len() as int;
    assert((h + x4).skip(n) =~= x4);
    assert((h + y4).skip(n) =~= y4);
    lemma_list(a_lo, b_lo, x3, y3);
    lemma_list(a_hi, b_hi, x2, y2);
    lemma_list(seq![a], seq![b], x1, y1);
    assert(seq![a][0] == seq![b][0]);
    lemma_list(v, w, e, e);
}

/// The script behind the rounds determines their messages.
pub proof fn rounds_bind(s: Script, a: Seq<[F162; 2]>, b: Seq<[F162; 2]>, k: nat)
    requires
        k <= a.len(),
        k <= b.len(),
        switch::behind(s, a, k).absorbed == switch::behind(s, b, k).absorbed,
    ensures
        forall|i: int| 0 <= i < k ==> (#[trigger] a[i])@ == b[i]@,
    decreases k,
{
    if k > 0 {
        let (p, q) = (
            switch::behind(s, a, (k - 1) as nat).absorbed,
            switch::behind(s, b, (k - 1) as nat).absorbed,
        );
        let (m, n) = (a[k - 1]@, b[k - 1]@);
        let (x, y) = (
            bytes::le(2, 8) + transcript::f162_bytes(m),
            bytes::le(2, 8) + transcript::f162_bytes(n),
        );
        transcript::lemma_f162_bytes_len(m);
        transcript::lemma_f162_bytes_len(n);
        bytes::lemma_le_len(2, 8);
        assert(switch::behind(s, a, k).absorbed == p + x);
        assert(switch::behind(s, b, k).absorbed == q + y);
        assert((p + x).len() == p.len() + 56 && (q + y).len() == q.len() + 56);
        let l = p.len() as int;
        assert((p + x).take(l) =~= p);
        assert((q + y).take(l) =~= q);
        assert((p + x).skip(l) =~= x);
        assert((q + y).skip(l) =~= y);
        transcript::lemma_front(2, 2, transcript::f162_bytes(m), transcript::f162_bytes(n));
        transcript::f162_bytes_injective(m, n);
        rounds_bind(s, a, b, (k - 1) as nat);
    }
}


proof fn lemma_behind(s: Script, ms: Seq<[F162; 2]>, k: nat)
    requires
        k <= ms.len(),
    ensures
        switch::behind(s, ms, k).absorbed.len() == s.absorbed.len() + 56 * k,
        switch::behind(s, ms, k).key == s.key,
    decreases k,
{
    if k > 0 {
        lemma_behind(s, ms, (k - 1) as nat);
        transcript::lemma_f162_bytes_len(ms[k - 1]@);
        bytes::lemma_le_len(2, 8);
    }
}

/// The weights and the challenges of a switch come from hash inputs of their own. The input of the
/// weights holds all that was absorbed up to the partial evaluations, that of the challenge of a round
/// holds every message up to its own, and no two inputs are the same.
pub proof fn derivations_apart(
    s: Script,
    r_lo: Seq<B128>,
    r_hi: Seq<B128>,
    claim: B128,
    pf: SwitchProof,
) -> (inputs: Seq<Seq<u8>>)
    ensures
        inputs.len() == pf.rounds@.len() + 1,
        inputs.no_duplicates(),
        switch::at_sumcheck(s, r_lo, r_hi, claim, pf.partials@).absorbed.is_prefix_of(inputs[0]),
        switch::batch_at(s, r_lo, r_hi, claim, pf.partials@) == scalar::f162().eq(
            Seq::new(
                7,
                |i: int|
                    transcript::f162_at(
                        Seq::new(168, |b: int| hash::xof_byte(s.key, inputs[0], b)),
                        24 * i,
                    )@,
            ),
        ),
        switch::challenges_at(s, r_lo, r_hi, claim, pf).len() == pf.rounds@.len(),
        forall|k: int|
            0 <= k < pf.rounds@.len() ==> {
                &&& switch::behind(
                    switch::at_sumcheck(s, r_lo, r_hi, claim, pf.partials@),
                    pf.rounds@,
                    (k + 1) as nat,
                ).absorbed.is_prefix_of(inputs[k + 1])
                &&& (#[trigger] switch::challenges_at(s, r_lo, r_hi, claim, pf)[k])
                    == transcript::f162_at(
                    Seq::new(24, |b: int| hash::xof_byte(s.key, inputs[k + 1], b)),
                    0,
                )
            },
{
    let x = switch::with_words(switch::with_statement(s, r_lo, r_hi, claim), pf.partials@);
    let t = switch::at_sumcheck(s, r_lo, r_hi, claim, pf.partials@);
    let ms = pf.rounds@;
    let (bl, rl) = (switch::batch_label(), switch::round_label());
    let at = |k: int| switch::with_message(switch::behind(t, ms, k as nat), ms[k]);
    let inputs = Seq::new(
        ms.len() + 1,
        |h: int|
            if h == 0 {
                x.seed(bl)
            } else {
                at(h - 1).seed(rl)
            },
    );
    switch::lemma_labels();
    assert(x.key == s.key && x.absorbed == t.absorbed);
    bytes::lemma_le_len(x.counter as nat, 8);
    bytes::lemma_le_len(bl.len(), 8);
    bytes::lemma_le_len(rl.len(), 8);
    assert forall|k: int| 0 <= k < ms.len() implies at(k).key == s.key && (#[trigger] at(k)).absorbed
        == switch::behind(t, ms, (k + 1) as nat).absorbed && at(k).absorbed.len()
        == t.absorbed.len() + 56 * (k + 1) by {
        lemma_behind(t, ms, k as nat);
        lemma_behind(t, ms, (k + 1) as nat);
    }
    assert forall|h: int| 0 <= h <= ms.len() implies (#[trigger] inputs[h]).len()
        == t.absorbed.len() + 56 * h + 37 by {
        if h > 0 {
            assert(at(h - 1).absorbed.len() == t.absorbed.len() + 56 * h);
            bytes::lemma_le_len(at(h - 1).counter as nat, 8);
        }
    }
    assert(x.absorbed.is_prefix_of(x.seed(bl)));
    let d = Seq::new(168, |b: int| hash::xof_byte(s.key, inputs[0], b));
    assert(x.output(bl, 168) =~= d);
    assert(linear::views(transcript::f162s_of(d, 7)) =~= Seq::new(
        7,
        |i: int| transcript::f162_at(d, 24 * i)@,
    ));
    assert forall|k: int| 0 <= k < ms.len() implies {
        &&& switch::behind(t, ms, (k + 1) as nat).absorbed.is_prefix_of(inputs[k + 1])
        &&& (#[trigger] switch::challenges_at(s, r_lo, r_hi, claim, pf)[k]) == transcript::f162_at(
            Seq::new(24, |b: int| hash::xof_byte(s.key, inputs[k + 1], b)),
            0,
        )
    } by {
        assert(inputs[k + 1] == at(k).seed(rl));
        assert(at(k).absorbed.is_prefix_of(at(k).seed(rl)));
        assert(at(k).output(rl, 24) =~= Seq::new(
            24,
            |b: int| hash::xof_byte(s.key, inputs[k + 1], b),
        ));
    }
    inputs
}

} // verus!
