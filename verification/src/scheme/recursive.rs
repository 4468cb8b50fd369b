//! The recursive opening: what the prover and the verifier compute around the backend's proof.
use super::commitment::{Commitment, RowEvaluation};
use super::messages::{
    CommitmentOpening, LeftExpansionCommitment, OpeningProof, VerificationError,
};
use super::prover;
use super::prover::Prover;
use super::script;
use super::verify::Verifier;
use super::witness::Witness;
use crate::challenge::transcript;
use crate::challenge::transcript::{Script, Transcript};
use crate::fields::linear;
use crate::fields::scalar::F162;
use crate::key::{AuxData, CommitmentKey};
use crate::labrador::binding::{same_statement, same_wide};
use crate::hash;
use crate::labrador::{PhiSource, PolxBuf, Statement};
use crate::modular;
use crate::modular::same;
use crate::ntt::poly;
use crate::params;
use crate::recursion::chunk;
use crate::recursion::limbs;
use crate::recursion::masks;
use crate::recursion::masks::Masks;
use crate::recursion::statement;
use crate::recursion::statement::{Announced, Layout, Opening, ProofPhi, Setup};
use crate::recursion::unique;
use crate::recursion::{Poly, SElem};
use crate::ring::decompose;
use crate::ring::recombine;
use crate::ring::{PowerOfThreeRingElementWithLimbs, VerticallyAlignedMatrix};
use vstd::arithmetic::power2::pow2;
use vstd::prelude::*;

verus! {

// ---------------------------------------------------------------------------------------------
// the commitment
// ---------------------------------------------------------------------------------------------

/// `vectors` are the residues of the commitments that `aux` keeps.
pub open spec fn are_residues(
    key: CommitmentKey,
    aux: AuxData,
    vectors: Seq<Vec<Poly>>,
    pad: nat,
) -> bool {
    exists|m: VerticallyAlignedMatrix<PowerOfThreeRingElementWithLimbs>|
        #[trigger] prover::is_matrix(key, aux, m) && limbs::are_stored(
            vectors,
            m,
            key.prime_list(),
            pad,
        )
}

impl Prover {
    /// What the recursive mode commits to in place of the matrix, its residues in coefficient form,
    /// each vector padded to a multiple of `pad`, together with what the fold will need.
    pub fn commit_residues(&mut self, witness: &Witness, pad: usize) -> (r: CommitmentOpening)
        requires
            old(self).wf(),
            witness.wf(),
            witness.params.same(&old(self).params),
            pad > 0,
            3 * pow2(old(self).params.column_log_len as nat) + pad <= usize::MAX,
        ensures
            final(self).wf(),
            final(self).params == old(self).params,
            final(self).key == old(self).key,
            prover::opens(*old(self).key, witness, r.aux),
            r.residues matches Some(x) && are_residues(
                *old(self).key,
                r.aux,
                x.vectors@,
                pad as nat,
            ),
    {
        let primes = self.params.primes();
        let (m, opening) = self.commit_matrix(witness);
        proof {
            let key = *old(self).key;
            assert(primes@ =~= key.prime_list());
            assert forall|k: int, j: int| 0 <= k < 4 && 0 <= j < m.cols implies (#[trigger] m.at(
                k,
                j,
            )).limbs@.len() == primes@.len() by {}
        }
        let residues = limbs::residues(&m, primes.as_slice(), pad);
        CommitmentOpening { aux: opening.aux, residues: Some(residues) }
    }
}

/// What the recursive mode stores for a column of a limb is the column's commitment in coefficient
/// form: the residue and the element whose transform was committed agree modulo the prime.
pub proof fn residue_is_commitment(
    key: CommitmentKey,
    aux: AuxData,
    m: VerticallyAlignedMatrix<PowerOfThreeRingElementWithLimbs>,
    limb: int,
    j: int,
    a: Seq<i64>,
    b: Seq<int>,
)
    requires
        key.wf(),
        prover::is_matrix(key, aux, m),
        0 <= limb < key.a@.len(),
        0 <= j < aux.chunks,
        limbs::is_residue(m, key.prime_at(limb), limb, j, a),
        b.len() == 648,
        decompose::is_transform(key.prime_at(limb), aux.raw@[limb]@[j]@, b),
    ensures
        forall|i: int|
            0 <= i < 648 ==> same(#[trigger] chunk::ints(a)[i], b[i], key.prime_at(limb) as int),
{
    let q = key.prime_at(limb);
    let n = q as int;
    assert(key.prime_list()[limb] == q);
    params::lemma_limb(q);
    let x = chunk::ints(a);
    let y = aux.raw@[limb]@[j]@;
    assert forall|k: int, s: int| 0 <= k < 4 && 0 <= s < 162 implies same(
        #[trigger] decompose::component(q, x, k, s),
        decompose::component(q, b, k, s),
        n,
    ) by {
        assert(decompose::component(q, x, k, s) % n == m.at(k, j).limbs@[limb].v@[s] as int % n);
        decompose::transform_decomposes(q, y, b, k, s);
        let d = decompose::decomposed(q, poly::ints(y), k, s);
        modular::lemma_reduced(decompose::component(q, b, k, s), n);
        modular::lemma_sub(d, n, d, 0, n);
    }
    recombine::components_determine(q, x, b);
}

// ---------------------------------------------------------------------------------------------
// the left expansion
// ---------------------------------------------------------------------------------------------

/// The binary lift of a field element: its bits as integers.
pub open spec fn lifted(x: F162) -> Seq<int> {
    Seq::new(
        162,
        |m: int|
            if x@[m] {
                1
            } else {
                0
            },
    )
}

/// The binary lift of a field element.
pub fn lift(x: &F162) -> (s: SElem)
    ensures
        chunk::ints(s@) == lifted(*x),
{
    let mut s: SElem = [0;162];
    let mut m: usize = 0;
    while m < 162
        invariant
            m <= 162,
            forall|i: int| 0 <= i < m ==> (#[trigger] s@[i]) == lifted(*x)[i],
        decreases 162 - m,
    {
        if x.bit(m) {
            s[m] = 1;
        } else {
            s[m] = 0;
        }
        m += 1;
    }
    assert(chunk::ints(s@) =~= lifted(*x));
    s
}

/// The coefficients of the left expansion: chunk `b` of the lift of value `j` is polynomial
/// `b r + j`.
pub open spec fn is_left_expansion(values: Seq<F162>, rank: int, u: Seq<i16>) -> bool {
    &&& u.len() == 64 * rank
    &&& forall|p: int, c: int|
        0 <= p < rank && 0 <= c < 64 ==> (#[trigger] u[64 * p + c]) == (if p < 3 * values.len() {
            chunk::chunk(lifted(values[p % values.len() as int]), p / values.len() as int)[c]
        } else {
            0
        })
}

/// The witness vector of the left expansion, `rank` polynomials.
pub fn left_expansion(row: &RowEvaluation, rank: usize) -> (u: Vec<i16>)
    requires
        3 * row.values@.len() <= rank,
        64 * rank <= usize::MAX,
    ensures
        is_left_expansion(row.values@, rank as int, u@),
{
    let r: usize = row.values.len();
    let mut lifts: Vec<[Poly; 3]> = Vec::new();
    let mut j: usize = 0;
    while j < r
        invariant
            j <= r == row.values@.len(),
            lifts@.len() == j,
            forall|i: int, b: int|
                0 <= i < j && 0 <= b < 3 ==> chunk::shorts((#[trigger] lifts@[i]@[b])@)
                    == chunk::chunk(lifted(row.values@[i]), b),
        decreases r - j,
    {
        let s = lift(&row.values[j]);
        assert forall|i: int| 0 <= i < 162 implies -0x8000 <= (#[trigger] s@[i]) <= 0x7FFF by {
            assert(chunk::ints(s@)[i] == lifted(row.values@[j as int])[i]);
        }
        lifts.push(chunk::chunks(&s));
        j += 1;
    }
    let mut u: Vec<i16> = Vec::new();
    let mut p: usize = 0;
    while p < rank
        invariant
            p <= rank,
            3 * r <= rank,
            64 * rank <= usize::MAX,
            r == row.values@.len(),
            lifts@.len() == r,
            u@.len() == 64 * p,
            forall|i: int, b: int|
                0 <= i < r && 0 <= b < 3 ==> chunk::shorts((#[trigger] lifts@[i]@[b])@)
                    == chunk::chunk(lifted(row.values@[i]), b),
            forall|t: int, c: int|
                0 <= t < p && 0 <= c < 64 ==> (#[trigger] u@[64 * t + c]) == (if t < 3 * r {
                    chunk::chunk(lifted(row.values@[t % (r as int)]), t / (r as int))[c]
                } else {
                    0
                }),
        decreases rank - p,
    {
        let poly: Poly = if p < 3 * r {
            proof {
                assert(0 <= p as int / r as int && (p as int / r as int) < 3) by (nonlinear_arith)
                    requires
                        0 <= p < 3 * r,
                        r > 0,
                ;
            }
            lifts[p % r][p / r]
        } else {
            [0;64]
        };
        let ghost wanted = if p < 3 * r {
            chunk::chunk(lifted(row.values@[p as int % r as int]), p as int / r as int)
        } else {
            Seq::new(64, |c: int| 0int)
        };
        assert(chunk::shorts(poly@) =~= wanted);
        let mut c: usize = 0;
        while c < 64
            invariant
                c <= 64,
                p < rank,
                64 * rank <= usize::MAX,
                u@.len() == 64 * p + c,
                chunk::shorts(poly@) == wanted,
                wanted == (if p < 3 * r {
                    chunk::chunk(lifted(row.values@[p as int % r as int]), p as int / r as int)
                } else {
                    Seq::new(64, |c: int| 0int)
                }),
                forall|t: int, c: int|
                    0 <= t < p && 0 <= c < 64 ==> (#[trigger] u@[64 * t + c]) == (if t < 3 * r {
                        chunk::chunk(lifted(row.values@[t % (r as int)]), t / (r as int))[c]
                    } else {
                        0
                    }),
                forall|i: int| 0 <= i < c ==> (#[trigger] u@[64 * p + i]) == wanted[i],
            decreases 64 - c,
        {
            assert(chunk::shorts(poly@)[c as int] == poly@[c as int]);
            u.push(poly[c]);
            c += 1;
        }
        p += 1;
    }
    u
}

// ---------------------------------------------------------------------------------------------
// the statement of a round
// ---------------------------------------------------------------------------------------------

/// The polynomials of all vectors whose zeros are masked.
pub open spec fn starts(setup: Setup) -> Seq<usize> {
    setup.shape.starts(setup.shape.ranks@.len())
}

/// The mask bytes of one repetition.
pub open spec fn mask_bytes(setup: Setup) -> nat {
    12 * masks::zero_count(starts(setup), starts(setup).len())
}

/// The rows of masks that the script `s` gives.
pub open spec fn are_masks(setup: Setup, s: Script, rows: Seq<Vec<[i64; 64]>>) -> bool {
    &&& rows.len() == 3
    &&& forall|h: int|
        0 <= h < 3 ==> masks::is_row(
            (#[trigger] rows[h])@,
            masks::advanced(s, h as nat).output(masks::mask_label(h), mask_bytes(setup)),
            setup.q as int,
            starts(setup),
        )
}

/// `s` is the statement of the round whose script is `t` once the opening is absorbed.
pub open spec fn is_round(
    s: Statement,
    setup: Setup,
    layout: Layout,
    opening: Announced,
    t: Script,
) -> bool {
    &&& s.digest@ == masks::advanced(t, 3).output(script::statement_label(), 32)
    &&& exists|phi: ProofPhi, rows: Seq<Vec<[i64; 64]>>|
        {
            &&& phi.holds(layout)
            &&& are_masks(setup, t, rows)
            &&& #[trigger] statement::is_built(s, setup, layout, phi, opening, rows)
        }
}

/// The setup and the layout fit, and the transcript has room.
pub open spec fn ready(setup: Setup, layout: Layout, opening: Announced, t: Script) -> bool {
    &&& statement::admitted(setup, layout, opening.norms)
    &&& t.room(200 + opening.t_r.bytes@.len() + 8 * opening.norms.len())
    &&& t.counter <= u64::MAX - 4
}

/// The statement of one round, the same for the prover and the verifier: the opening is absorbed,
/// the masks and the digest are derived, and the constraints are built from public data alone.
pub fn round_statement(
    setup: &Setup,
    layout: &Layout,
    phi: &ProofPhi,
    transcript: &mut Transcript,
    opening: Opening,
    claimed_value: &F162,
) -> (s: Statement)
    requires
        ready(*setup, *layout, opening@, old(transcript)@),
        phi.holds(*layout),
    ensures
        is_round(
            s,
            *setup,
            *layout,
            opening@,
            script::absorb_opening(
                old(transcript)@,
                *claimed_value,
                opening@.t_r.bytes@,
                opening@.norms,
            ),
        ),
        final(transcript)@ == masks::advanced(
            script::absorb_opening(
                old(transcript)@,
                *claimed_value,
                opening@.t_r.bytes@,
                opening@.norms,
            ),
            4,
        ),
{
    let t_r: &PolxBuf = &**opening.t_r;
    script::push_opening(transcript, claimed_value, t_r, opening.norms);
    let ghost t = transcript@;
    let m = Masks::squeeze(&setup.shape, transcript, setup.q);
    proof {
        reveal_with_fuel(masks::advanced, 5);
    }
    let digest = script::statement_digest(transcript);
    let ghost rows = m.rows@;
    let s = statement::build(setup, layout, phi, opening, m, digest);
    proof {
        assert(are_masks(*setup, t, rows));
        assert(statement::is_built(s, *setup, *layout, *phi, opening@, rows));
    }
    s
}

/// The verifier rebuilds what the prover proved: from the same public data and the same script there
/// is one statement, and its digest is the same.
pub proof fn round_unique(
    s: Statement,
    o: Statement,
    setup: Setup,
    layout: Layout,
    opening: Announced,
    t: Script,
)
    requires
        statement::sound(setup, layout),
        is_round(s, setup, layout, opening, t),
        is_round(o, setup, layout, opening, t),
    ensures
        same_statement(s, o),
        s.digest@ == o.digest@,
{
    let (f, rows) = choose|phi: ProofPhi, rows: Seq<Vec<[i64; 64]>>|
        {
            &&& phi.holds(layout)
            &&& are_masks(setup, t, rows)
            &&& #[trigger] statement::is_built(s, setup, layout, phi, opening, rows)
        };
    let (g, others) = choose|phi: ProofPhi, rows: Seq<Vec<[i64; 64]>>|
        {
            &&& phi.holds(layout)
            &&& are_masks(setup, t, rows)
            &&& #[trigger] statement::is_built(o, setup, layout, phi, opening, rows)
        };
    assert forall|h: int| 0 <= h < rows.len() implies same_wide(
        (#[trigger] rows[h])@,
        others[h]@,
    ) by {
        let b = masks::advanced(t, h as nat).output(masks::mask_label(h), mask_bytes(setup));
        assert(masks::is_row(others[h]@, b, setup.q as int, starts(setup)));
        unique::lemma_same_row(rows[h]@, others[h]@, b, setup.q as int, starts(setup));
    }
    unique::built_unique(s, o, setup, layout, f, g, opening, rows, others);
}

/// Every announced norm is within its cap.
pub open spec fn within_caps(norms: Seq<u64>, caps: Seq<u64>) -> bool {
    &&& norms.len() == caps.len()
    &&& forall|i: int| 0 <= i < norms.len() ==> (#[trigger] norms[i]) <= caps[i]
}

/// A statement is handed out: every announced norm is within its cap and the no-wraparound bound is
/// cleared.
pub open spec fn lets_through(norms: Seq<u64>, caps: Seq<u64>, cleared: bool) -> bool {
    within_caps(norms, caps) && cleared
}

/// Is every announced norm within its cap?
pub fn norms_within(norms: &[u64], caps: &[u64]) -> (r: bool)
    ensures
        r == within_caps(norms@, caps@),
{
    let n: usize = norms.len();
    if n != caps.len() {
        return false;
    }
    let mut i: usize = 0;
    while i < n
        invariant
            i <= n == norms@.len() == caps@.len(),
            forall|k: int| 0 <= k < i ==> (#[trigger] norms@[k]) <= caps@[k],
        decreases n - i,
    {
        if norms[i] > caps[i] {
            assert(norms@[i as int] > caps@[i as int]);
            return false;
        }
        i += 1;
    }
    true
}

/// What the messages of a recursive opening announce.
pub open spec fn announced(
    commitment: Commitment,
    left: LeftExpansionCommitment,
    message: OpeningProof,
) -> Announced {
    Announced {
        t_y: commitment.value->Recursive_0,
        t_u: left.t_u,
        t_r: message.t_r,
        norms: message.norms@,
    }
}

impl Verifier {
    /// The statement that the backend's proof is checked against: refused where an announced norm is
    /// over its cap or the no-wraparound bound is not cleared, and otherwise the same function of
    /// public data that the prover ran.
    pub fn opening_statement(
        &self,
        transcript: &mut Transcript,
        commitment: &Commitment,
        left: &LeftExpansionCommitment,
        claimed_value: &F162,
        message: &OpeningProof,
        setup: &Setup,
        layout: &Layout,
        caps: &[u64],
        cleared: bool,
    ) -> (r: Result<Statement, VerificationError>)
        requires
            commitment.value is Recursive,
            within_caps(message.norms@, caps@) ==> ready(
                *setup,
                *layout,
                announced(*commitment, *left, *message),
                old(transcript)@,
            ),
        ensures
            r is Ok <==> lets_through(message.norms@, caps@, cleared),
            r matches Ok(s) ==> is_round(
                s,
                *setup,
                *layout,
                announced(*commitment, *left, *message),
                script::absorb_opening(
                    old(transcript)@,
                    *claimed_value,
                    message.t_r.bytes@,
                    message.norms@,
                ),
            ),
            !within_caps(message.norms@, caps@) ==> final(transcript)@ == old(transcript)@,
            within_caps(message.norms@, caps@) ==> final(transcript)@ == masks::advanced(
                script::absorb_opening(
                    old(transcript)@,
                    *claimed_value,
                    message.t_r.bytes@,
                    message.norms@,
                ),
                4,
            ),
    {
        if !norms_within(message.norms.as_slice(), caps) {
            return Err(VerificationError::Rejected);
        }
        let opening = Opening {
            t_y: commitment.t_y(),
            t_u: &left.t_u,
            t_r: &message.t_r,
            norms: message.norms.as_slice(),
        };
        let phi = ProofPhi::new(layout);
        let s = round_statement(setup, layout, &phi, transcript, opening, claimed_value);
        if cleared {
            Ok(s)
        } else {
            Err(VerificationError::Rejected)
        }
    }
}

// ---------------------------------------------------------------------------------------------
// laws
// ---------------------------------------------------------------------------------------------

/// The left expansion is binary and holds every bit of every value: bit `m` of value `j` stands at place
/// `m % 54` of polynomial `j + r (m / 54)`, and every other place is zero.
pub proof fn left_expansion_holds(values: Seq<F162>, rank: int, u: Seq<i16>)
    requires
        is_left_expansion(values, rank, u),
        3 * values.len() <= rank,
    ensures
        forall|j: int, m: int|
            #![trigger values[j]@[m]]
            0 <= j < values.len() && 0 <= m < 162 ==> u[64 * (j + values.len() * (m / 54)) + m % 54]
                == (if values[j]@[m] {
                1int
            } else {
                0
            }),
        forall|t: int| 0 <= t < u.len() ==> (#[trigger] u[t]) == 0 || u[t] == 1,
        forall|t: int|
            0 <= t < u.len() && (t % 64 >= 54 || t / 64 >= 3 * values.len()) ==> (#[trigger] u[t])
                == 0,
{
    let r = values.len() as int;
    assert forall|j: int, m: int|
        #![trigger values[j]@[m]]
        0 <= j < r && 0 <= m < 162 implies u[64 * (j + r * (m / 54)) + m % 54] == (if values[j]@[m] {
        1int
    } else {
        0
    }) by {
        let (b, c) = (m / 54, m % 54);
        let p = j + r * b;
        assert(0 <= r * b && r * b + r <= 3 * r) by (nonlinear_arith)
            requires
                0 <= b <= 2,
                0 < r,
        ;
        vstd::arithmetic::div_mod::lemma_fundamental_div_mod_converse(p, r, b, j);
        assert(u[64 * p + c] == chunk::chunk(lifted(values[p % r]), p / r)[c]);
        assert(54 * b + c == m);
    }
    assert forall|t: int| 0 <= t < u.len() implies ((#[trigger] u[t]) == 0 || u[t] == 1) && (t % 64
        >= 54 || t / 64 >= 3 * r ==> u[t] == 0) by {
        let (p, c) = (t / 64, t % 64);
        assert(t == 64 * p + c);
        assert(u[64 * p + c] == (if p < 3 * r {
            chunk::chunk(lifted(values[p % r]), p / r)[c]
        } else {
            0
        }));
        if p < 3 * r && c < 54 {
            let (j, b) = (p % r, p / r);
            vstd::arithmetic::div_mod::lemma_fundamental_div_mod(p, r);
            vstd::arithmetic::div_mod::lemma_mod_bound(p, r);
            assert(0 <= b <= 2) by (nonlinear_arith)
                requires
                    p == r * b + j,
                    0 <= j < r,
                    0 <= p < 3 * r,
            ;
            assert(0 <= 54 * b + c < 162);
            assert(lifted(values[j])[54 * b + c] == 0 || lifted(values[j])[54 * b + c] == 1);
        }
    }
}

/// The left expansion determines the row evaluation.
pub proof fn left_expansion_determines(a: Seq<F162>, b: Seq<F162>, rank: int, u: Seq<i16>)
    requires
        is_left_expansion(a, rank, u),
        is_left_expansion(b, rank, u),
        a.len() == b.len(),
        3 * a.len() <= rank,
        linear::all_wf(a),
        linear::all_wf(b),
    ensures
        a == b,
{
    left_expansion_holds(a, rank, u);
    left_expansion_holds(b, rank, u);
    assert forall|j: int| 0 <= j < a.len() implies a[j] == b[j] by {
        assert(a[j]@.len() == 162 && b[j]@.len() == 162);
        assert forall|m: int| 0 <= m < 162 implies a[j]@[m] == b[j]@[m] by {}
        assert(a[j]@ =~= b[j]@);
        assert(a[j].wf() && b[j].wf());
        F162::ext(a[j], b[j]);
    }
    assert(a =~= b);
}

/// Caps are the largest norms that are let through, vector by vector: norms equal to their caps are, and
/// so are smaller ones, but none that is one more than its cap and none that has no cap.
pub proof fn caps_are_tight(norms: Seq<u64>, caps: Seq<u64>, other: Seq<u64>)
    requires
        within_caps(norms, caps),
    ensures
        within_caps(caps, caps),
        other.len() == norms.len() && (forall|i: int|
            0 <= i < norms.len() ==> (#[trigger] other[i]) <= norms[i]) ==> within_caps(other, caps),
        within_caps(other, caps) ==> other.len() == norms.len(),
        forall|i: int|
            0 <= i < other.len() && (#[trigger] other[i]) > caps[i] ==> !within_caps(other, caps),
{
    if other.len() == norms.len() && (forall|i: int|
        0 <= i < norms.len() ==> (#[trigger] other[i]) <= norms[i]) {
        assert forall|i: int| 0 <= i < other.len() implies (#[trigger] other[i]) <= caps[i] by {
            assert(norms[i] <= caps[i]);
        }
    }
}

/// The vectors of a round are those of the setup, binary where it says so, and otherwise bounded by the
/// announced norm: a vector of that squared norm is within the bound, and the bound is no more than the
/// norm but for a norm of zero, which a bound cannot say.
pub proof fn vectors_are_announced(
    s: Statement,
    setup: Setup,
    layout: Layout,
    opening: Announced,
    t: Script,
    i: int,
)
    requires
        is_round(s, setup, layout, opening, t),
        0 <= i < setup.shape.ranks@.len(),
    ensures
        s.vectors@.len() == setup.shape.ranks@.len(),
        s.vectors@[i].n == setup.shape.ranks@[i],
        s.vectors@[i].binary == setup.binary@[i],
        !s.vectors@[i].binary ==> {
            &&& s.vectors@[i].betasq >= opening.norms[i]
            &&& s.vectors@[i].betasq >= 1
            &&& s.vectors@[i].betasq == opening.norms[i] || (opening.norms[i] == 0
                && s.vectors@[i].betasq == 1)
        },
{
    let (phi, rows) = choose|phi: ProofPhi, rows: Seq<Vec<[i64; 64]>>|
        {
            &&& phi.holds(layout)
            &&& are_masks(setup, t, rows)
            &&& #[trigger] statement::is_built(s, setup, layout, phi, opening, rows)
        };
    assert(s.vectors@[i] == statement::vector_spec(setup, opening.norms, i));
}

/// What the recursive mode commits to is the commitment: for every limb and column the chunks that stand
/// in the vectors are those of the centred element whose transform was committed, and of no other.
pub proof fn residues_hold_commitments(
    key: CommitmentKey,
    aux: AuxData,
    vectors: Seq<Vec<Poly>>,
    pad: nat,
    limb: int,
    j: int,
    b: Seq<int>,
) -> (a: Seq<i64>)
    requires
        key.wf(),
        are_residues(key, aux, vectors, pad),
        0 <= limb < key.a@.len(),
        0 <= j < aux.chunks,
        b.len() == 648,
        decompose::is_transform(key.prime_at(limb), aux.raw@[limb]@[j]@, b),
    ensures
        a.len() == 648,
        limbs::centred(a, key.prime_at(limb)),
        forall|i: int|
            0 <= i < 648 ==> same(#[trigger] chunk::ints(a)[i], b[i], key.prime_at(limb) as int),
        forall|m: int, c: int|
            0 <= m < 4 && 0 <= c < 3 ==> chunk::shorts(
                (#[trigger] vectors[4 * limb + m]@[c * aux.chunks + j])@,
            ) == chunk::chunk(limbs::component(chunk::ints(a), m), c),
{
    let m = choose|m: VerticallyAlignedMatrix<PowerOfThreeRingElementWithLimbs>|
        #[trigger] prover::is_matrix(key, aux, m) && limbs::are_stored(
            vectors,
            m,
            key.prime_list(),
            pad,
        );
    assert(limbs::column_stored(vectors, m, key.prime_list()[limb], limb, j));
    let q = key.prime_at(limb);
    let a = choose|a: Seq<i64>| #[trigger]
        limbs::is_residue(m, q, limb, j, a) && limbs::stored(vectors, limb, m.cols as int, j, a);
    residue_is_commitment(key, aux, m, limb, j, a, b);
    a
}

/// The masks of a round and its digest come from hash inputs of their own, which hold all that was
/// absorbed: the inputs of the three repetitions and of the digest differ.
pub proof fn round_derivations_apart(
    s: Statement,
    setup: Setup,
    layout: Layout,
    opening: Announced,
    t: Script,
) -> (inputs: Seq<Seq<u8>>)
    requires
        is_round(s, setup, layout, opening, t),
        t.counter + 3 <= u64::MAX,
    ensures
        inputs.len() == 4,
        inputs.no_duplicates(),
        forall|h: int| 0 <= h < 4 ==> t.absorbed.is_prefix_of(#[trigger] inputs[h]),
        s.digest@ == Seq::new(32, |i: int| hash::xof_byte(t.key, inputs[3], i)),
        forall|h: int|
            0 <= h < 3 ==> {
                let k = s.constraints@[18 * layout.chains@.len() + 3 + h];
                k.phi matches PhiSource::Int64(v) && masks::is_row(
                    v@,
                    Seq::new(
                        mask_bytes(setup),
                        |i: int| hash::xof_byte(t.key, #[trigger] inputs[h], i),
                    ),
                    setup.q as int,
                    starts(setup),
                )
            },
{
    reveal_with_fuel(masks::advanced, 5);
    masks::lemma_mask_labels();
    script::lemma_labels();
    let label = |h: int|
        if h == 3 {
            script::statement_label()
        } else {
            masks::mask_label(h)
        };
    let inputs = Seq::new(4, |h: int| masks::advanced(t, h as nat).seed(label(h)));
    let (phi, rows) = choose|phi: ProofPhi, rows: Seq<Vec<[i64; 64]>>|
        {
            &&& phi.holds(layout)
            &&& are_masks(setup, t, rows)
            &&& #[trigger] statement::is_built(s, setup, layout, phi, opening, rows)
        };
    lemma_advanced(t, 3);
    assert forall|h: int, k: int| 0 <= h < 4 && 0 <= k < 4 && h != k implies inputs[h]
        != inputs[k] by {
        let (a, b) = (masks::advanced(t, h as nat), masks::advanced(t, k as nat));
        lemma_advanced(t, h as nat);
        lemma_advanced(t, k as nat);
        if inputs[h] == inputs[k] {
            transcript::derivations_differ(a, b, label(h), label(k));
        }
    }
    assert forall|h: int| 0 <= h < 4 implies t.absorbed.is_prefix_of(#[trigger] inputs[h]) by {
        lemma_advanced(t, h as nat);
        assert(inputs[h].take(t.absorbed.len() as int) =~= t.absorbed);
    }
    assert(s.digest@ =~= Seq::new(32, |i: int| hash::xof_byte(t.key, inputs[3], i)));
    assert forall|h: int| 0 <= h < 3 implies {
        let k = s.constraints@[18 * layout.chains@.len() + 3 + h];
        k.phi matches PhiSource::Int64(v) && masks::is_row(
            v@,
            Seq::new(
                mask_bytes(setup),
                |i: int| hash::xof_byte(t.key, #[trigger] inputs[h], i),
            ),
            setup.q as int,
            starts(setup),
        )
    } by {
        let k = s.constraints@[18 * layout.chains@.len() + 3 + h];
        assert(statement::is_mask_constraint(setup.shape.ranks@, rows[h]@, k));
        lemma_advanced(t, h as nat);
        let b = masks::advanced(t, h as nat).output(masks::mask_label(h), mask_bytes(setup));
        assert(masks::is_row(rows[h]@, b, setup.q as int, starts(setup)));
        assert(b =~= Seq::new(
            mask_bytes(setup),
            |i: int| hash::xof_byte(t.key, inputs[h], i),
        ));
    }
    inputs
}

proof fn lemma_advanced(t: Script, n: nat)
    requires
        t.counter + n <= u64::MAX,
    ensures
        masks::advanced(t, n) == (Script { counter: (t.counter + n) as u64, ..t }),
    decreases n,
{
    if n > 0 {
        lemma_advanced(t, (n - 1) as nat);
    }
}


/// No statement is handed out for an announced norm over its cap, for a vector without an announced
/// norm, or where the no-wraparound bound is not cleared; where none of these holds, one is.
pub proof fn refused_openings(norms: Seq<u64>, caps: Seq<u64>, cleared: bool, i: int)
    ensures
        !lets_through(norms, caps, false),
        norms.len() != caps.len() ==> !lets_through(norms, caps, cleared),
        0 <= i < norms.len() && norms[i] > caps[i] ==> !lets_through(norms, caps, cleared),
        norms.len() == caps.len() && (forall|j: int|
            0 <= j < norms.len() ==> (#[trigger] norms[j]) <= caps[j]) ==> lets_through(
            norms,
            caps,
            true,
        ),
{
}

} // verus!
