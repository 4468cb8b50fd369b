//! The cross-field switch as one call each way. A `B128` trace of `2^l` words carries a claim in
//! `B128`; the switch turns it into the `F162` claim that a commitment to the lifted trace opens,
//! at the point the switch's sumcheck ends on. The prover and the verifier drive the same
//! transcript.
//!
//! Two kinds of claim: [`prove`] and [`verify`] take the multilinear extension of the words at a
//! point of `B128^l`; [`prove_bits`] and [`verify_bits`] take that of the words' bits at a point
//! of `B128^(7 + l)`. Both reduce to the same 128 partial evaluations and differ only in how those
//! are weighed against the claim.
use crate::bytes;
use crate::challenge::transcript;
use crate::challenge::transcript::Transcript;
use crate::fields::crossfield;
use crate::fields::crossfield::{SwitchProver, SwitchVerifier};
use crate::fields::field;
use crate::fields::linear;
use crate::fields::scalar;
use crate::fields::scalar::{B128, F162};
use crate::scheme::{EvaluationPoint, Params};
use vstd::arithmetic::power2::*;
use vstd::prelude::*;
use vstd::string::*;

verus! {

/// Bits per word: the low seven coordinates of a bit-level point pick the bit within a word.
pub const LOG_WORD: usize = 7;

#[derive(Clone, Debug, PartialEq, Eq)]
pub struct SwitchProof {
    /// The 128 partial evaluations, one per bit position of a word.
    pub partials: Vec<B128>,
    /// The sumcheck, two `F162` per round.
    pub rounds: Vec<[F162; 2]>,
    /// The value of the lifted trace at the point the switch ends on.
    pub opened: F162,
}

impl SwitchProof {
    /// The field elements are well formed.
    pub open spec fn wf(&self) -> bool {
        crossfield::pairs_wf(self.rounds@) && self.opened.wf()
    }
}

#[derive(Clone, Copy, Debug, PartialEq, Eq)]
pub struct SwitchError(pub &'static str);

// ---------------------------------------------------------------------------------------------
// the two claims
// ---------------------------------------------------------------------------------------------

/// The multilinear extension of the words at `r`: `sum_j trace[j] eq(r, j)`.
pub fn mle(trace: &[B128], r: &[B128]) -> (x: B128)
    requires
        pow2(r@.len()) <= usize::MAX,
    ensures
        x@ == crossfield::weighed(linear::words(trace@), scalar::ghash().eq(linear::words(r@))),
        trace@.len() == pow2(r@.len()) ==> x@ == scalar::ghash().mle(
            linear::words(trace@),
            linear::words(r@),
        ),
{
    let e = crossfield::eq_expand_b128(r);
    crossfield::weigh(trace, e.as_slice())
}

/// The multilinear extension of the words' bits at `(r_lo, r_hi)`, bit `k` of word `j` at index
/// `k + 128 j`.
pub fn bit_mle(trace: &[B128], r_lo: &[B128], r_hi: &[B128]) -> (x: B128)
    requires
        r_lo@.len() >= LOG_WORD,
        pow2(r_lo@.len()) <= usize::MAX,
        pow2(r_hi@.len()) <= usize::MAX,
    ensures
        x@ == crossfield::bit_claim(
            linear::words(trace@),
            scalar::ghash().eq(linear::words(r_lo@)),
            scalar::ghash().eq(linear::words(r_hi@)),
            if trace@.len() < pow2(r_hi@.len()) {
                trace@.len()
            } else {
                pow2(r_hi@.len())
            },
        ),
{
    let eq_lo = crossfield::eq_expand_b128(r_lo);
    let eq_hi = crossfield::eq_expand_b128(r_hi);
    let n: usize = if trace.len() < eq_hi.len() {
        trace.len()
    } else {
        eq_hi.len()
    };
    let ghost (t, lo, hi) = (linear::words(trace@), linear::words(eq_lo@), linear::words(eq_hi@));
    let ghost g = scalar::ghash();
    proof {
        lemma2_to64();
        if r_lo@.len() > 7 {
            lemma_pow2_strictly_increases(7, r_lo@.len());
        }
    }
    let mut acc = B128::zero();
    let mut j: usize = 0;
    while j < n
        invariant
            j <= n <= trace@.len(),
            n <= eq_hi@.len(),
            eq_lo@.len() >= 128,
            t == linear::words(trace@),
            lo == linear::words(eq_lo@),
            hi == linear::words(eq_hi@),
            g == scalar::ghash(),
            acc@ == crossfield::bit_claim(t, lo, hi, j as nat),
        decreases n - j,
    {
        let word = trace[j];
        let mut bits = B128::zero();
        let mut k: usize = 0;
        while k < 128
            invariant
                k <= 128,
                eq_lo@.len() >= 128,
                lo == linear::words(eq_lo@),
                g == scalar::ghash(),
                bits@ == g.pick(word@, lo, k as nat),
            decreases 128 - k,
        {
            proof {
                g.sum_zero(bits@);
            }
            if word.bit(k) {
                bits = bits + eq_lo[k];
            }
            k += 1;
        }
        acc = acc + bits * eq_hi[j];
        j += 1;
    }
    acc
}

// ---------------------------------------------------------------------------------------------
// the transcript
// ---------------------------------------------------------------------------------------------

pub open spec fn switch_label() -> Seq<u8> {
    "labinius/switch".spec_bytes()
}

pub open spec fn batch_label() -> Seq<u8> {
    "labinius/switch-batch".spec_bytes()
}

pub open spec fn round_label() -> Seq<u8> {
    "labinius/switch-round".spec_bytes()
}

pub proof fn lemma_labels()
    ensures
        switch_label().len() == 15,
        batch_label().len() == 21,
        round_label().len() == 21,
{
    reveal_strlit("labinius/switch");
    reveal_strlit("labinius/switch-batch");
    reveal_strlit("labinius/switch-round");
    assert("labinius/switch".is_ascii());
    assert("labinius/switch-batch".is_ascii());
    assert("labinius/switch-round".is_ascii());
    vstd::string::is_ascii_spec_bytes("labinius/switch");
    vstd::string::is_ascii_spec_bytes("labinius/switch-batch");
    vstd::string::is_ascii_spec_bytes("labinius/switch-round");
}

/// The script once a list of words is absorbed.
pub open spec fn with_words(s: transcript::Script, v: Seq<B128>) -> transcript::Script {
    s.absorb(bytes::le(v.len(), 8) + transcript::b128_bytes(v))
}

/// The script once the statement is absorbed.
pub open spec fn with_statement(
    s: transcript::Script,
    r_lo: Seq<B128>,
    r_hi: Seq<B128>,
    claim: B128,
) -> transcript::Script {
    with_words(
        with_words(with_words(s.absorb_bytes(switch_label()), r_lo), r_hi),
        seq![claim],
    )
}

/// The batching weights that a script gives.
pub open spec fn batch_of(s: transcript::Script) -> Seq<Seq<bool>> {
    scalar::f162().eq(linear::views(transcript::f162s_of(s.output(batch_label(), 168), 7)))
}

/// The script once the message of a round is absorbed.
pub open spec fn with_message(s: transcript::Script, m: [F162; 2]) -> transcript::Script {
    s.absorb(bytes::le(2, 8) + transcript::f162_bytes(m@))
}

/// The challenge that follows.
pub open spec fn challenge_of(s: transcript::Script) -> F162 {
    transcript::f162s_of(s.output(round_label(), 24), 1)[0]
}

/// The script behind `k` rounds with messages `ms`.
pub open spec fn behind(s: transcript::Script, ms: Seq<[F162; 2]>, k: nat) -> transcript::Script
    decreases k,
{
    if k == 0 {
        s
    } else {
        with_message(behind(s, ms, (k - 1) as nat), ms[k - 1]).next()
    }
}

/// The challenges of the rounds with messages `ms`.
pub open spec fn challenges(s: transcript::Script, ms: Seq<[F162; 2]>) -> Seq<F162> {
    Seq::new(ms.len(), |k: int| challenge_of(with_message(behind(s, ms, k as nat), ms[k])))
}

/// The script that the sumcheck starts from.
pub open spec fn at_sumcheck(
    s: transcript::Script,
    r_lo: Seq<B128>,
    r_hi: Seq<B128>,
    claim: B128,
    partials: Seq<B128>,
) -> transcript::Script {
    with_words(with_statement(s, r_lo, r_hi, claim), partials).next()
}

/// The batching weights of a proof.
pub open spec fn batch_at(
    s: transcript::Script,
    r_lo: Seq<B128>,
    r_hi: Seq<B128>,
    claim: B128,
    partials: Seq<B128>,
) -> Seq<Seq<bool>> {
    batch_of(with_words(with_statement(s, r_lo, r_hi, claim), partials))
}

/// The challenges of a proof.
pub open spec fn challenges_at(
    s: transcript::Script,
    r_lo: Seq<B128>,
    r_hi: Seq<B128>,
    claim: B128,
    pf: SwitchProof,
) -> Seq<F162> {
    challenges(at_sumcheck(s, r_lo, r_hi, claim, pf.partials@), pf.rounds@)
}

/// The transcript has room for a switch.
pub open spec fn has_room(s: transcript::Script) -> bool {
    s.room(0x4000) && s.counter <= u64::MAX - 0x100
}

proof fn lemma_statement_len(
    s: transcript::Script,
    r_lo: Seq<B128>,
    r_hi: Seq<B128>,
    claim: B128,
)
    ensures
        with_statement(s, r_lo, r_hi, claim).absorbed.len() == s.absorbed.len() + 63 + 16
            * r_lo.len() + 16 * r_hi.len(),
        with_statement(s, r_lo, r_hi, claim).counter == s.counter,
{
    lemma_labels();
    bytes::lemma_le_len(15, 8);
    bytes::lemma_le_len(r_lo.len(), 8);
    bytes::lemma_le_len(r_hi.len(), 8);
    bytes::lemma_le_len(1, 8);
    transcript::lemma_b128_bytes_len(r_lo);
    transcript::lemma_b128_bytes_len(r_hi);
    transcript::lemma_b128_bytes_len(seq![claim]);
}

proof fn lemma_message_len(s: transcript::Script, m: [F162; 2])
    ensures
        with_message(s, m).absorbed.len() == s.absorbed.len() + 56,
{
    bytes::lemma_le_len(2, 8);
    transcript::lemma_f162_bytes_len(m@);
}

proof fn lemma_behind_len(s: transcript::Script, ms: Seq<[F162; 2]>, k: nat)
    requires
        s.counter + k <= u64::MAX,
    ensures
        behind(s, ms, k).absorbed.len() == s.absorbed.len() + 56 * k,
        behind(s, ms, k).counter == s.counter + k,
    decreases k,
{
    if k > 0 {
        lemma_behind_len(s, ms, (k - 1) as nat);
        lemma_message_len(behind(s, ms, (k - 1) as nat), ms[k - 1]);
    }
}

/// The messages behind round `k` do not matter to it.
proof fn lemma_behind_prefix(s: transcript::Script, a: Seq<[F162; 2]>, b: Seq<[F162; 2]>, k: nat)
    requires
        k <= a.len(),
        k <= b.len(),
        forall|i: int| 0 <= i < k ==> #[trigger] a[i] == b[i],
    ensures
        behind(s, a, k) == behind(s, b, k),
    decreases k,
{
    if k > 0 {
        lemma_behind_prefix(s, a, b, (k - 1) as nat);
    }
}

fn absorb_statement(transcript: &mut Transcript, r_lo: &[B128], r_hi: &[B128], claim: B128)
    requires
        has_room(old(transcript)@),
        r_lo@.len() <= 7,
        r_hi@.len() <= 64,
    ensures
        final(transcript)@ == with_statement(old(transcript)@, r_lo@, r_hi@, claim),
{
    proof {
        lemma_labels();
        bytes::lemma_le_len(15, 8);
        bytes::lemma_le_len(r_lo@.len(), 8);
        bytes::lemma_le_len(r_hi@.len(), 8);
        transcript::lemma_b128_bytes_len(r_lo@);
        transcript::lemma_b128_bytes_len(r_hi@);
    }
    transcript.absorb_bytes("labinius/switch".as_bytes());
    transcript.absorb_b128(r_lo);
    transcript.absorb_b128(r_hi);
    let one: [B128; 1] = [claim];
    transcript.absorb_b128(one.as_slice());
    assert(one@ =~= seq![claim]);
}

/// The message goes in and the challenge comes out.
fn exchange(transcript: &mut Transcript, m: [F162; 2]) -> (r: F162)
    requires
        old(transcript)@.room(0x100),
        old(transcript)@.counter < u64::MAX,
    ensures
        r.wf(),
        r == challenge_of(with_message(old(transcript)@, m)),
        final(transcript)@ == with_message(old(transcript)@, m).next(),
{
    proof {
        lemma_labels();
        lemma_message_len(transcript@, m);
    }
    transcript.absorb_f162(m.as_slice());
    let v = transcript.sample_f162("labinius/switch-round".as_bytes(), 1);
    v[0]
}

// ---------------------------------------------------------------------------------------------
// the weights
// ---------------------------------------------------------------------------------------------

/// The weights of the partial evaluations in the claim: `eq(r_lo, k)` for a bit-level claim, and
/// for a word-level one the `k`-th basis element, since `p = sum_k bit_k(p) X^k`.
pub open spec fn weights_of(r_lo: Seq<Seq<bool>>) -> Seq<Seq<bool>> {
    if r_lo.len() == 0 {
        crossfield::basis()
    } else {
        scalar::ghash().eq(r_lo)
    }
}

fn weights(r_lo: &[B128]) -> (w: Vec<B128>)
    requires
        r_lo@.len() == 0 || r_lo@.len() == 7,
    ensures
        w@.len() == 128,
        linear::words(w@) == weights_of(linear::words(r_lo@)),
{
    proof {
        lemma2_to64();
    }
    if r_lo.len() == 0 {
        let mut w: Vec<B128> = Vec::with_capacity(128);
        let mut k: usize = 0;
        while k < 128
            invariant
                k <= 128,
                w@.len() == k,
                forall|i: int| 0 <= i < k ==> (#[trigger] w@[i])@ == scalar::ghash().monomial(i),
            decreases 128 - k,
        {
            let s: u128 = k as u128;
            let x = B128(1u128 << s);
            proof {
                assert forall|i: int| 0 <= i < 128 implies x@[i] == scalar::ghash().monomial(
                    k as int,
                )[i] by {
                    scalar::lemma_one_bit(s, i);
                }
                assert(x@ =~= scalar::ghash().monomial(k as int));
            }
            w.push(x);
            k += 1;
        }
        assert(linear::words(w@) =~= crossfield::basis());
        w
    } else {
        crossfield::eq_expand_b128(r_lo)
    }
}

// ---------------------------------------------------------------------------------------------
// the prover
// ---------------------------------------------------------------------------------------------

/// The honest proof of a claim on `trace` under the transcript `s`.
pub open spec fn is_honest(
    pf: SwitchProof,
    trace: Seq<B128>,
    s: transcript::Script,
    r_lo: Seq<B128>,
    r_hi: Seq<B128>,
    claim: B128,
) -> bool {
    let f = scalar::f162();
    let e = scalar::ghash().eq(linear::words(r_hi));
    let batch = batch_at(s, r_lo, r_hi, claim, pf.partials@);
    let rs = linear::views(challenges_at(s, r_lo, r_hi, claim, pf));
    let a = crossfield::psi_of(e, batch);
    let p = crossfield::lifted(linear::words(trace));
    &&& pf.wf()
    &&& linear::words(pf.partials@) == crossfield::partials(linear::words(trace), e)
    &&& pf.rounds@.len() == r_hi.len()
    &&& forall|k: int|
        0 <= k < r_hi.len() ==> #[trigger] crossfield::pairs(pf.rounds@)[k] == f.message(
            a,
            p,
            rs,
            k as nat,
        )
    &&& pf.opened@ == f.mle(p, rs)
}

/// A message depends on the challenges before it alone.
proof fn lemma_message_prefix(
    a: Seq<Seq<bool>>,
    p: Seq<Seq<bool>>,
    x: Seq<Seq<bool>>,
    y: Seq<Seq<bool>>,
    k: nat,
)
    requires
        k <= x.len(),
        k <= y.len(),
        forall|i: int| 0 <= i < k ==> #[trigger] x[i] == y[i],
    ensures
        scalar::f162().folded(a, x, k) == scalar::f162().folded(a, y, k),
        scalar::f162().folded(p, x, k) == scalar::f162().folded(p, y, k),
        scalar::f162().message(a, p, x, k) == scalar::f162().message(a, p, y, k),
    decreases k,
{
    if k > 0 {
        lemma_message_prefix(a, p, x, y, (k - 1) as nat);
    }
}

/// The point whose coordinates, most significant first, are `c`: the leading ones are those of the
/// columns, the others those of the rows, each list least significant first.
pub open spec fn is_point(params: Params, point: EvaluationPoint, c: Seq<F162>) -> bool {
    &&& point.wf()
    &&& point.p1@ == c.take(params.column_log_len as int).reverse()
    &&& point.p0@ == c.skip(params.column_log_len as int).reverse()
}

/// The point has the two lengths of the parameters, and `c` are its coordinates.
pub proof fn point_coordinates(params: Params, point: EvaluationPoint, c: Seq<F162>)
    requires
        params.wf(),
        c.len() == params.witness_log_len,
        is_point(params, point, c),
    ensures
        point.p0@.len() == params.witness_log_len - params.column_log_len,
        point.p1@.len() == params.column_log_len,
        point.msb() == linear::views(c),
{
    assert(point.msb() =~= linear::views(c));
}

fn prove_with(
    params: &Params,
    trace: &[B128],
    r_lo: &[B128],
    r_hi: &[B128],
    claim: B128,
    transcript: &mut Transcript,
) -> (r: (SwitchProof, EvaluationPoint))
    requires
        params.wf(),
        r_lo@.len() <= 7,
        r_hi@.len() == params.witness_log_len,
        trace@.len() == pow2(params.witness_log_len as nat),
        has_room(old(transcript)@),
    ensures
        is_honest(r.0, trace@, old(transcript)@, r_lo@, r_hi@, claim),
        is_point(*params, r.1, challenges_at(old(transcript)@, r_lo@, r_hi@, claim, r.0)),
        final(transcript)@ == behind(
            at_sumcheck(old(transcript)@, r_lo@, r_hi@, claim, r.0.partials@),
            r.0.rounds@,
            r_hi@.len(),
        ),
{
    let ghost s0 = transcript@;
    let l: usize = r_hi.len();
    proof {
        lemma_labels();
        lemma_statement_len(s0, r_lo@, r_hi@, claim);
        lemma2_to64();
    }
    absorb_statement(transcript, r_lo, r_hi, claim);
    let (partials, eq_hi) = SwitchProver::partial_evals_and_eq(trace, r_hi);
    proof {
        assert(partials@.len() == linear::words(partials@).len());
        transcript::lemma_b128_bytes_len(partials@);
        bytes::lemma_le_len(partials@.len(), 8);
    }
    transcript.absorb_b128(partials.as_slice());
    let r_prime = transcript.sample_f162("labinius/switch-batch".as_bytes(), LOG_WORD);
    let batch = crossfield::eq_expand_f162(r_prime.as_slice());
    let mut prover = SwitchProver::new(trace, eq_hi.as_slice(), batch.as_slice());
    let mut rounds: Vec<[F162; 2]> = Vec::with_capacity(l);
    let mut r_pp: Vec<F162> = Vec::with_capacity(l);
    let ghost f = scalar::f162();
    let ghost s1 = at_sumcheck(s0, r_lo@, r_hi@, claim, partials@);
    let ghost (a0, p0) = (prover.a@, prover.p@);
    proof {
        prover.a.lemma_elems();
        prover.p.lemma_elems();
        assert(a0.take(a0.len() as int) =~= a0);
        assert(p0.take(p0.len() as int) =~= p0);
    }
    let mut k: usize = 0;
    while k < l
        invariant
            k <= l <= 64,
            f == scalar::f162(),
            s1.room(0x3000),
            s1.counter <= u64::MAX - 0xf0,
            transcript@ == behind(s1, rounds@, k as nat),
            f.elems(a0),
            f.elems(p0),
            a0.len() == pow2(l as nat),
            p0.len() == pow2(l as nat),
            prover.wf(),
            prover.a.n == pow2(l as nat),
            prover.p.n == pow2(l as nat),
            prover.half == pow2((l - k) as nat),
            rounds@.len() == k,
            r_pp@ == challenges(s1, rounds@),
            linear::all_wf(r_pp@),
            crossfield::pairs_wf(rounds@),
            prover.a@.take(prover.half as int) == f.folded(a0, linear::views(r_pp@), k as nat),
            prover.p@.take(prover.half as int) == f.folded(p0, linear::views(r_pp@), k as nat),
            forall|i: int|
                0 <= i < k ==> #[trigger] crossfield::pairs(rounds@)[i] == f.message(
                    a0,
                    p0,
                    linear::views(r_pp@),
                    i as nat,
                ),
        decreases l - k,
    {
        proof {
            lemma_pow2_unfold((l - k) as nat);
            lemma_behind_len(s1, rounds@, k as nat);
        }
        let ghost (ta, tp) = (prover.a@, prover.p@);
        let ghost (ms0, rs0) = (rounds@, linear::views(r_pp@));
        let msg = prover.msg();
        let ghost half = prover.half as nat;
        let r = exchange(transcript, msg);
        prover.fold(r);
        rounds.push(msg);
        r_pp.push(r);
        proof {
            let ms = rounds@;
            let rs = linear::views(r_pp@);
            crossfield::lemma_live(ta, prover.a@, half, r@);
            crossfield::lemma_live(tp, prover.p@, half, r@);
            crossfield::lemma_live_message(ta, tp, half);
            lemma_behind_prefix(s1, ms0, ms, k as nat);
            assert forall|i: int| 0 <= i < k + 1 implies r_pp@[i] == challenges(s1, ms)[i] by {
                lemma_behind_prefix(s1, ms0, ms, i as nat);
                if i < k {
                    assert(challenges(s1, ms0)[i] == challenges(s1, ms)[i]);
                }
            }
            assert(r_pp@ =~= challenges(s1, ms));
            assert(rs[k as int] == r@);
            lemma_message_prefix(a0, p0, rs0, rs, k as nat);
            assert(f.folded(a0, rs, (k + 1) as nat) == f.fold(f.folded(a0, rs, k as nat), r@));
            assert(f.folded(p0, rs, (k + 1) as nat) == f.fold(f.folded(p0, rs, k as nat), r@));
            assert forall|i: int| 0 <= i < k + 1 implies #[trigger] crossfield::pairs(ms)[i]
                == f.message(a0, p0, rs, i as nat) by {
                lemma_message_prefix(a0, p0, rs0, rs, i as nat);
                if i < k {
                    assert(crossfield::pairs(ms)[i] == crossfield::pairs(ms0)[i]);
                }
            }
        }
        k += 1;
    }
    proof {
        lemma2_to64();
        f.folded_mle(p0, linear::views(r_pp@), l as nat);
        assert(prover.p@[0] == prover.p@.take(1)[0]);
    }
    let point = EvaluationPoint::msb_first(params, r_pp.as_slice());
    (SwitchProof { partials, rounds, opened: prover.final_eval() }, point)
}

/// Prove `mle(trace, r) == claim`. The point returned is where the commitment to the lifted trace
/// must open to `opened`.
pub fn prove(
    params: &Params,
    trace: &[B128],
    r: &[B128],
    claim: B128,
    transcript: &mut Transcript,
) -> (out: (SwitchProof, EvaluationPoint))
    requires
        params.wf(),
        r@.len() == params.witness_log_len,
        trace@.len() == pow2(params.witness_log_len as nat),
        has_room(old(transcript)@),
    ensures
        is_honest(out.0, trace@, old(transcript)@, Seq::empty(), r@, claim),
        is_point(
            *params,
            out.1,
            challenges_at(old(transcript)@, Seq::empty(), r@, claim, out.0),
        ),
        final(transcript)@ == behind(
            at_sumcheck(old(transcript)@, Seq::empty(), r@, claim, out.0.partials@),
            out.0.rounds@,
            r@.len(),
        ),
{
    let none: [B128; 0] = [];
    assert(none@ =~= Seq::empty());
    prove_with(params, trace, none.as_slice(), r, claim, transcript)
}

/// Prove `bit_mle(trace, r_lo, r_hi) == claim`, otherwise as [`prove`].
pub fn prove_bits(
    params: &Params,
    trace: &[B128],
    r_lo: &[B128],
    r_hi: &[B128],
    claim: B128,
    transcript: &mut Transcript,
) -> (out: (SwitchProof, EvaluationPoint))
    requires
        params.wf(),
        r_lo@.len() == LOG_WORD,
        r_hi@.len() == params.witness_log_len,
        trace@.len() == pow2(params.witness_log_len as nat),
        has_room(old(transcript)@),
    ensures
        is_honest(out.0, trace@, old(transcript)@, r_lo@, r_hi@, claim),
        is_point(*params, out.1, challenges_at(old(transcript)@, r_lo@, r_hi@, claim, out.0)),
        final(transcript)@ == behind(
            at_sumcheck(old(transcript)@, r_lo@, r_hi@, claim, out.0.partials@),
            out.0.rounds@,
            r_hi@.len(),
        ),
{
    prove_with(params, trace, r_lo, r_hi, claim, transcript)
}

// ---------------------------------------------------------------------------------------------
// the verifier
// ---------------------------------------------------------------------------------------------

/// The partial evaluations sum to the claim.
pub open spec fn sums(pf: SwitchProof, r_lo: Seq<B128>, claim: B128) -> bool {
    crossfield::weighed(linear::words(pf.partials@), weights_of(linear::words(r_lo))) == claim@
}

/// The sumcheck ends on the opened value times its weight.
pub open spec fn ends(
    pf: SwitchProof,
    s: transcript::Script,
    r_lo: Seq<B128>,
    r_hi: Seq<B128>,
    claim: B128,
) -> bool {
    let batch = batch_at(s, r_lo, r_hi, claim, pf.partials@);
    let rs = linear::views(challenges_at(s, r_lo, r_hi, claim, pf));
    crossfield::verified_sum(
        linear::words(pf.partials@),
        crossfield::pairs(pf.rounds@),
        batch,
        rs,
    ) == scalar::f162().mul(
        crossfield::transparent(linear::words(r_hi), rs, batch),
        pf.opened@,
    )
}

/// What the verifier answers, and the script it leaves.
pub open spec fn answers(
    r: Result<(EvaluationPoint, F162), SwitchError>,
    after: transcript::Script,
    params: Params,
    pf: SwitchProof,
    s: transcript::Script,
    r_lo: Seq<B128>,
    r_hi: Seq<B128>,
    claim: B128,
) -> bool {
    if r_hi.len() != params.witness_log_len {
        &&& r matches Err(e) && e.0@ == "the point does not match the parameters"@
        &&& after == s
    } else if pf.partials@.len() != 128 || pf.rounds@.len() != params.witness_log_len {
        &&& r matches Err(e) && e.0@ == "the proof does not match the parameters"@
        &&& after == s
    } else if !sums(pf, r_lo, claim) {
        &&& r matches Err(e) && e.0@ == "the partial evaluations do not sum to the claim"@
        &&& after == with_statement(s, r_lo, r_hi, claim)
    } else {
        &&& after == behind(
            at_sumcheck(s, r_lo, r_hi, claim, pf.partials@),
            pf.rounds@,
            pf.rounds@.len(),
        )
        &&& if ends(pf, s, r_lo, r_hi, claim) {
            r matches Ok((point, opened)) && opened == pf.opened && is_point(
                params,
                point,
                challenges_at(s, r_lo, r_hi, claim, pf),
            )
        } else {
            r matches Err(e) && e.0@ == "sumcheck final check failed"@
        }
    }
}

/// A proof that ends well does not once its opened value alone is changed, wherever the weight of
/// that value is not zero.
pub proof fn changed_value_refused(
    pf: SwitchProof,
    other: SwitchProof,
    s: transcript::Script,
    r_lo: Seq<B128>,
    r_hi: Seq<B128>,
    claim: B128,
)
    requires
        pf.wf(),
        other.wf(),
        other.partials@ == pf.partials@,
        other.rounds@ == pf.rounds@,
        other.opened != pf.opened,
        crossfield::transparent(
            linear::words(r_hi),
            linear::views(challenges_at(s, r_lo, r_hi, claim, pf)),
            batch_at(s, r_lo, r_hi, claim, pf.partials@),
        ) != scalar::f162().zero(),
        ends(pf, s, r_lo, r_hi, claim),
    ensures
        !ends(other, s, r_lo, r_hi, claim),
{
    let batch = batch_at(s, r_lo, r_hi, claim, pf.partials@);
    let rs = linear::views(challenges_at(s, r_lo, r_hi, claim, pf));
    let t = crossfield::transparent(linear::words(r_hi), rs, batch);
    assert(challenges_at(s, r_lo, r_hi, claim, other) == challenges_at(s, r_lo, r_hi, claim, pf));
    if ends(other, s, r_lo, r_hi, claim) {
        crossfield::lemma_transparent_elem(linear::words(r_hi), rs, batch);
        field::cancels(t, pf.opened@, other.opened@);
        F162::ext(pf.opened, other.opened);
    }
}

fn verify_with(
    params: &Params,
    r_lo: &[B128],
    r_hi: &[B128],
    claim: B128,
    pf: &SwitchProof,
    transcript: &mut Transcript,
) -> (r: Result<(EvaluationPoint, F162), SwitchError>)
    requires
        params.wf(),
        r_lo@.len() == 0 || r_lo@.len() == 7,
        pf.wf(),
        has_room(old(transcript)@),
    ensures
        answers(r, final(transcript)@, *params, *pf, old(transcript)@, r_lo@, r_hi@, claim),
{
    let ghost s0 = transcript@;
    let l: usize = params.witness_log_len as usize;
    if r_hi.len() != l {
        return Err(SwitchError("the point does not match the parameters"));
    }
    if pf.partials.len() != 128 || pf.rounds.len() != l {
        return Err(SwitchError("the proof does not match the parameters"));
    }
    proof {
        lemma_labels();
        lemma_statement_len(s0, r_lo@, r_hi@, claim);
        lemma2_to64();
        transcript::lemma_b128_bytes_len(pf.partials@);
        bytes::lemma_le_len(pf.partials@.len(), 8);
    }
    absorb_statement(transcript, r_lo, r_hi, claim);
    let w = weights(r_lo);
    let recomputed = crossfield::weigh(pf.partials.as_slice(), w.as_slice());
    if recomputed != claim {
        proof {
            if recomputed@ == claim@ {
                B128::ext(recomputed, claim);
            }
        }
        return Err(SwitchError("the partial evaluations do not sum to the claim"));
    }
    transcript.absorb_b128(pf.partials.as_slice());
    let r_prime = transcript.sample_f162("labinius/switch-batch".as_bytes(), LOG_WORD);
    let batch = crossfield::eq_expand_f162(r_prime.as_slice());
    let mut verifier = SwitchVerifier::from_sum(
        crossfield::slice_sum(pf.partials.as_slice(), batch.as_slice()),
    );
    let mut r_pp: Vec<F162> = Vec::with_capacity(l);
    let ghost f = scalar::f162();
    let ghost s1 = at_sumcheck(s0, r_lo@, r_hi@, claim, pf.partials@);
    let ghost start = verifier.s@;
    let ghost ms = crossfield::pairs(pf.rounds@);
    let ghost rs = challenges(s1, pf.rounds@);
    let mut k: usize = 0;
    while k < l
        invariant
            k <= l <= 64,
            l == pf.rounds@.len(),
            crossfield::pairs_wf(pf.rounds@),
            f == scalar::f162(),
            ms == crossfield::pairs(pf.rounds@),
            rs == challenges(s1, pf.rounds@),
            s1.room(0x3000),
            s1.counter <= u64::MAX - 0xf0,
            transcript@ == behind(s1, pf.rounds@, k as nat),
            r_pp@ == rs.take(k as int),
            linear::all_wf(r_pp@),
            verifier.round == k,
            verifier.s.wf(),
            verifier.s@ == f.run(start, ms, linear::views(rs), k as nat),
        decreases l - k,
    {
        proof {
            lemma_behind_len(s1, pf.rounds@, k as nat);
            assert(pf.rounds@[k as int][0].wf() && pf.rounds@[k as int][1].wf());
        }
        let msg: [F162; 2] = pf.rounds[k];
        let r = exchange(transcript, msg);
        verifier.round(msg, r);
        r_pp.push(r);
        proof {
            assert(rs[k as int] == r);
            assert(ms[k as int] == (msg[0]@, msg[1]@));
            assert(linear::views(rs)[k as int] == r@);
            assert(r_pp@ =~= rs.take(k + 1));
        }
        k += 1;
    }
    assert(r_pp@ =~= rs);
    match verifier.finish(r_hi, r_pp.as_slice(), batch.as_slice(), pf.opened) {
        Ok(_) => {
            let point = EvaluationPoint::msb_first(params, r_pp.as_slice());
            Ok((point, pf.opened))
        },
        Err(e) => Err(SwitchError(e)),
    }
}

/// The verifier's half of [`prove`]: on success, the point at which the commitment must open to
/// the value returned with it.
pub fn verify(
    params: &Params,
    r: &[B128],
    claim: B128,
    pf: &SwitchProof,
    transcript: &mut Transcript,
) -> (out: Result<(EvaluationPoint, F162), SwitchError>)
    requires
        params.wf(),
        pf.wf(),
        has_room(old(transcript)@),
    ensures
        answers(out, final(transcript)@, *params, *pf, old(transcript)@, Seq::empty(), r@, claim),
{
    let none: [B128; 0] = [];
    assert(none@ =~= Seq::empty());
    verify_with(params, none.as_slice(), r, claim, pf, transcript)
}

/// The verifier's half of [`prove_bits`].
pub fn verify_bits(
    params: &Params,
    r_lo: &[B128],
    r_hi: &[B128],
    claim: B128,
    pf: &SwitchProof,
    transcript: &mut Transcript,
) -> (out: Result<(EvaluationPoint, F162), SwitchError>)
    requires
        params.wf(),
        pf.wf(),
        has_room(old(transcript)@),
    ensures
        r_lo@.len() != LOG_WORD ==> {
            &&& out matches Err(e) && e.0@ == "the point does not pick a bit"@
            &&& final(transcript)@ == old(transcript)@
        },
        r_lo@.len() == LOG_WORD ==> answers(
            out,
            final(transcript)@,
            *params,
            *pf,
            old(transcript)@,
            r_lo@,
            r_hi@,
            claim,
        ),
{
    if r_lo.len() != LOG_WORD {
        return Err(SwitchError("the point does not pick a bit"));
    }
    verify_with(params, r_lo, r_hi, claim, pf, transcript)
}

// ---------------------------------------------------------------------------------------------
// completeness
// ---------------------------------------------------------------------------------------------

proof fn lemma_complete(
    pf: SwitchProof,
    trace: Seq<B128>,
    s: transcript::Script,
    r_lo: Seq<B128>,
    r_hi: Seq<B128>,
    claim: B128,
)
    requires
        is_honest(pf, trace, s, r_lo, r_hi, claim),
        trace.len() == pow2(r_hi.len()),
    ensures
        pf.partials@.len() == 128,
        ends(pf, s, r_lo, r_hi, claim),
{
    let f = scalar::f162();
    let batch = batch_at(s, r_lo, r_hi, claim, pf.partials@);
    let rs = linear::views(challenges_at(s, r_lo, r_hi, claim, pf));
    let prime = linear::views(
        transcript::f162s_of(
            with_words(with_statement(s, r_lo, r_hi, claim), pf.partials@).output(
                batch_label(),
                168,
            ),
            7,
        ),
    );
    lemma2_to64();
    f.eq_shape(prime);
    assert(pf.partials@.len() == linear::words(pf.partials@).len());
    crossfield::lemma_sum_complete(
        pf.partials@,
        crossfield::pairs(pf.rounds@),
        linear::words(trace),
        linear::words(r_hi),
        batch,
        rs,
    );
}

/// The verifier's point `p` is the prover's, of the two lengths of the parameters, and the opened value
/// is that of the lifted trace there.
pub open spec fn opens_at(
    params: Params,
    trace: Seq<B128>,
    pf: SwitchProof,
    point: EvaluationPoint,
    p: EvaluationPoint,
    opened: F162,
) -> bool {
    &&& opened == pf.opened
    &&& p.wf()
    &&& p.p0@ == point.p0@
    &&& p.p1@ == point.p1@
    &&& p.p0@.len() == params.witness_log_len - params.column_log_len
    &&& p.p1@.len() == params.column_log_len
    &&& opened@ == scalar::f162().mle(crossfield::lifted(linear::words(trace)), p.msb())
}

/// The word-level switch is complete: on the honest proof of a true claim the verifier accepts, at
/// the prover's point, and the value it returns is the multilinear extension of the lifted trace
/// there, whatever the transcript holds.
pub proof fn words_complete(
    params: Params,
    pf: SwitchProof,
    trace: Seq<B128>,
    s: transcript::Script,
    r: Seq<B128>,
    claim: B128,
    point: EvaluationPoint,
    out: Result<(EvaluationPoint, F162), SwitchError>,
    after: transcript::Script,
)
    requires
        params.wf(),
        r.len() == params.witness_log_len,
        trace.len() == pow2(params.witness_log_len as nat),
        claim@ == scalar::ghash().mle(linear::words(trace), linear::words(r)),
        is_honest(pf, trace, s, Seq::empty(), r, claim),
        is_point(params, point, challenges_at(s, Seq::empty(), r, claim, pf)),
        answers(out, after, params, pf, s, Seq::empty(), r, claim),
    ensures
        out matches Ok((p, opened)) && opens_at(params, trace, pf, point, p, opened),
{
    lemma_complete(pf, trace, s, Seq::empty(), r, claim);
    if let Ok((p, _)) = out {
        point_coordinates(params, p, challenges_at(s, Seq::empty(), r, claim, pf));
    }
    crossfield::partials_words(linear::words(trace), linear::words(r));
    assert(linear::words(Seq::<B128>::empty()).len() == 0);
}

/// The bit-level switch is complete, as [`words_complete`].
pub proof fn bits_complete(
    params: Params,
    pf: SwitchProof,
    trace: Seq<B128>,
    s: transcript::Script,
    r_lo: Seq<B128>,
    r_hi: Seq<B128>,
    claim: B128,
    point: EvaluationPoint,
    out: Result<(EvaluationPoint, F162), SwitchError>,
    after: transcript::Script,
)
    requires
        params.wf(),
        r_lo.len() == LOG_WORD,
        r_hi.len() == params.witness_log_len,
        trace.len() == pow2(params.witness_log_len as nat),
        claim@ == crossfield::bit_claim(
            linear::words(trace),
            scalar::ghash().eq(linear::words(r_lo)),
            scalar::ghash().eq(linear::words(r_hi)),
            trace.len(),
        ),
        is_honest(pf, trace, s, r_lo, r_hi, claim),
        is_point(params, point, challenges_at(s, r_lo, r_hi, claim, pf)),
        answers(out, after, params, pf, s, r_lo, r_hi, claim),
    ensures
        out matches Ok((p, opened)) && opens_at(params, trace, pf, point, p, opened),
{
    let g = scalar::ghash();
    lemma_complete(pf, trace, s, r_lo, r_hi, claim);
    if let Ok((p, _)) = out {
        point_coordinates(params, p, challenges_at(s, r_lo, r_hi, claim, pf));
    }
    lemma2_to64();
    g.eq_shape(linear::words(r_lo));
    g.eq_shape(linear::words(r_hi));
    crossfield::partials_weighed(
        linear::words(trace),
        g.eq(linear::words(r_hi)),
        g.eq(linear::words(r_lo)),
    );
}

} // verus!
