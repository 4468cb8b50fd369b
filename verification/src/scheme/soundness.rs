//! What acceptance binds: what holds of every opening that a verifier accepts.
use super::commitment::{Commitment, EvaluationPoint, RowEvaluation};
use super::messages::{FoldingChallenges, OpeningMessage};
use super::params::{FoldCap, Params};
use super::prover;
use super::verify;
use super::verify::Verifier;
use crate::ajtai;
use crate::bd;
use crate::bd::digits;
use crate::bd::garner;
use crate::bd::residual;
use crate::challenge::short;
use crate::challenge::short::ShortChallenge;
use crate::challenge::transcript;
use crate::challenge::transcript::Script;
use crate::eval;
use crate::fields::linear;
use crate::fields::scalar;
use crate::fields::scalar::F162;
use crate::fold;
use crate::modular;
use crate::modular::same;
use crate::params;
use crate::recursion::algebra;
use crate::recursion::algebra::total;
use crate::ring::{Batch32, Representation, RingElement};
use crate::simd::norm;
use crate::wire::commitment::held;
use vstd::arithmetic::div_mod::*;
use vstd::arithmetic::power2::*;
use vstd::prelude::*;

verus! {

/// The fold that a message opens.
pub open spec fn fold_of(message: OpeningMessage) -> Seq<RingElement> {
    match message {
        OpeningMessage::Clear { folded_witness, .. } => folded_witness.elements@,
        OpeningMessage::BitDropped { folded_witness, .. } => folded_witness.elements@,
    }
}

/// The folded row value that a message claims.
pub open spec fn row_value_of(message: OpeningMessage) -> Seq<bool> {
    match message {
        OpeningMessage::Clear { folded_row_value, .. } => folded_row_value@,
        OpeningMessage::BitDropped { folded_row_value, .. } => folded_row_value@,
    }
}

/// Coefficient `m` of component `k` of element `i` is odd.
pub open spec fn odd(v: Seq<RingElement>, i: int, k: int, m: int) -> bool {
    v[i].v@[4 * m + k] as int % 2 != 0
}

/// The fold modulo two: four elements of `GF(2^162)` per ring element.
pub open spec fn bits_of(v: Seq<RingElement>) -> Seq<Seq<bool>> {
    Seq::new(4 * v.len(), |e: int| Seq::new(162, |m: int| odd(v, e / 4, e % 4, m)))
}

/// The sum of the squares of all coefficients.
pub open spec fn squares(v: Seq<RingElement>) -> int {
    total(|i: int| total(|x: int| v[i].v@[x] as int * v[i].v@[x] as int, 648), v.len())
}

// ---------------------------------------------------------------------------------------------
// shortness
// ---------------------------------------------------------------------------------------------

proof fn lemma_element_squares(a: Seq<i16>, n: nat)
    requires
        n <= a.len(),
    ensures
        garner::normsq(norm::signed(a), n) == total(|x: int| a[x] as int * a[x] as int, n),
    decreases n,
{
    if n > 0 {
        lemma_element_squares(a, (n - 1) as nat);
        let f = |x: int| a[x] as int * a[x] as int;
        assert(total(f, n) == total(f, (n - 1) as nat) + f(n - 1));
        assert(norm::signed(a)[n - 1] == a[n - 1]);
    }
}

proof fn lemma_squares(v: Seq<RingElement>, n: nat)
    requires
        n <= v.len(),
    ensures
        prover::fold_normsq(v, n) == total(
            |i: int| total(|x: int| v[i].v@[x] as int * v[i].v@[x] as int, 648),
            n,
        ),
    decreases n,
{
    if n > 0 {
        lemma_squares(v, (n - 1) as nat);
        let f = |i: int| total(|x: int| v[i].v@[x] as int * v[i].v@[x] as int, 648);
        assert(total(f, n) == total(f, (n - 1) as nat) + f(n - 1));
        let a = v[n - 1].v@;
        lemma_element_squares(a, 648);
        algebra::lemma_same(
            |x: int| a[x] as int * a[x] as int,
            |x: int| v[n - 1].v@[x] as int * v[n - 1].v@[x] as int,
            648,
        );
    }
}

proof fn lemma_within(a: Seq<i16>, n: nat, b: int)
    requires
        n <= a.len(),
        0 <= b,
        forall|x: int| 0 <= x < n ==> -b <= (#[trigger] a[x]) <= b,
    ensures
        norm::peak(a, n) <= b,
    decreases n,
{
    if n > 0 {
        lemma_within(a, (n - 1) as nat, b);
        assert(-b <= a[n - 1] <= b);
    }
}

/// Short means what it says: every coefficient is within half the prime, and the squares of all
/// coefficients add up to the cap at most. Nothing else is asked of elements in coefficient form whose
/// squares a lane can hold.
pub proof fn short_folds(v: Seq<RingElement>, q: u16, cap: u64)
    requires
        q >= 1,
    ensures
        verify::is_short(v, q, cap) <==> {
            &&& forall|i: int|
                0 <= i < v.len() ==> (#[trigger] v[i]).representation
                    == Representation::Coefficients && !norm::overflows(v[i].v@)
            &&& forall|i: int, x: int|
                0 <= i < v.len() && 0 <= x < 648 ==> -((q - 1) / 2) <= (#[trigger] v[i].v@[x]) <= (q
                    - 1) / 2
            &&& squares(v) <= cap
        },
{
    lemma_squares(v, v.len());
    let b = (q - 1) / 2;
    if verify::is_short(v, q, cap) {
        assert forall|i: int, x: int| 0 <= i < v.len() && 0 <= x < 648 implies -b <= (
        #[trigger] v[i].v@[x]) <= b by {
            assert(norm::peak(v[i].v@, 648) <= b);
            norm::lemma_peak(v[i].v@, 648, x);
        }
    }
    if forall|i: int, x: int|
        0 <= i < v.len() && 0 <= x < 648 ==> -b <= (#[trigger] v[i].v@[x]) <= b {
        assert forall|i: int| 0 <= i < v.len() implies norm::peak((#[trigger] v[i]).v@, 648)
            <= b by {
            assert forall|x: int| 0 <= x < 648 implies -b <= (#[trigger] v[i].v@[x]) <= b by {}
            lemma_within(v[i].v@, 648, b);
        }
    }
}

// ---------------------------------------------------------------------------------------------
// the cap
// ---------------------------------------------------------------------------------------------

/// The coefficients of a fold: 648 for each of the `witness_len / (4 columns)` ring elements.
pub open spec fn coefficients(p: Params) -> nat {
    pow2((p.witness_log_len - p.column_log_len) as nat) / 4 * 648
}

proof fn lemma_split(p: Params)
    requires
        p.wf(),
    ensures
        pow2(p.witness_log_len as nat) / 4 * 648 == coefficients(p) * pow2(p.column_log_len as nat),
{
    p.lemma_distinct();
    let (a, c) = ((p.witness_log_len - p.column_log_len) as nat, p.column_log_len as nat);
    lemma_pow2_adds(a, c);
    lemma_pow2_adds((a - 2) as nat, 2);
    lemma_pow2_adds((a - 2) as nat + c, 2);
    lemma_pow2_adds((a - 2) as nat, c);
    lemma2_to64();
    let (h, k) = (pow2((a - 2) as nat), pow2(c));
    let g = pow2((a - 2) as nat + c);
    assert(g == h * k);
    assert(pow2(a) == h * 4);
    assert(pow2(p.witness_log_len as nat) == g * 4) by {
        assert((a - 2) as nat + c + 2 == p.witness_log_len);
    }
    assert(coefficients(p) == h * 648);
    assert((h * k) * 648 == (h * 648) * k) by (nonlinear_arith);
}

/// The cap allows the stated mean square per coefficient and no whole unit more: it is the least
/// number not below `num / den` per coefficient and column.
pub proof fn cap_per_coefficient(p: Params, cap: FoldCap)
    requires
        p.wf(),
        cap.den > 0,
    ensures
        ({
            let c = p.fold_cap_of(cap);
            let n = coefficients(p) * pow2(p.column_log_len as nat);
            c * cap.den >= cap.num * n && cap.num * n > (c - 1) * cap.den
        }),
{
    lemma_split(p);
    let n = (coefficients(p) * pow2(p.column_log_len as nat)) as int;
    let d = cap.den as int;
    let x = cap.num * n;
    let c = p.fold_cap_of(cap);
    assert(c == (x + d - 1) / d);
    lemma_fundamental_div_mod(x + d - 1, d);
    lemma_mod_bound(x + d - 1, d);
    assert(c * d >= x && x > (c - 1) * d) by (nonlinear_arith)
        requires
            x + d - 1 == d * c + (x + d - 1) % d,
            0 <= (x + d - 1) % d < d,
    ;
}

/// A fold whose coefficients have the mean square that the cap states is short: at most `num / den` per
/// coefficient and column, within half the base prime, in coefficient form.
pub proof fn mean_square_admitted(u: Verifier, cap: FoldCap, v: Seq<RingElement>)
    requires
        u.wf(),
        cap.den > 0,
        u.fold_cap == u.params.fold_cap_of(cap),
        648 * v.len() == coefficients(u.params),
        forall|i: int|
            0 <= i < v.len() ==> (#[trigger] v[i]).representation == Representation::Coefficients
                && !norm::overflows(v[i].v@),
        forall|i: int, x: int|
            0 <= i < v.len() && 0 <= x < 648 ==> -((u.params.prime_list()[0] - 1) / 2) <= (
            #[trigger] v[i].v@[x]) <= (u.params.prime_list()[0] - 1) / 2,
        squares(v) * cap.den <= cap.num * (coefficients(u.params) * pow2(
            u.params.column_log_len as nat,
        )),
    ensures
        verify::is_short(v, u.key.prime_at(0), u.fold_cap),
{
    cap_per_coefficient(u.params, cap);
    let (s, c, d) = (squares(v), u.fold_cap as int, cap.den as int);
    assert(s <= c) by (nonlinear_arith)
        requires
            s * d <= c * d,
            d > 0,
    ;
    assert(u.key.prime_at(0) == u.key.prime_list()[0]);
    short_folds(v, u.key.prime_at(0), u.fold_cap);
}

/// The cap on the error of a bit-dropped fold is four times its expected square: `648` coefficients, each
/// a sum of `28 columns` signed rounding errors of mean square `(4^d - 1) / 12`.
pub proof fn error_cap(columns: nat, d: nat)
    ensures
        12 * bd::cap_of(columns, d) == 4 * (648 * (28 * columns) * ((pow2(d) * pow2(d) - 1) as int)),
{
    lemma_pow2_adds(d, d);
    lemma_pow2_pos(2 * d);
    let (c, m) = (columns as int, pow2(2 * d) - 1);
    assert(12 * (6048 * c * m) == 4 * (648 * (28 * c) * m)) by (nonlinear_arith);
}

// ---------------------------------------------------------------------------------------------
// acceptance
// ---------------------------------------------------------------------------------------------

/// What every accepted opening satisfies, in either mode: the fold has the length of a column, is
/// centred and short, and the folded row value is the multilinear extension of its parities at the row
/// point.
pub proof fn accepted_opening(
    u: Verifier,
    commitment: Commitment,
    challenges: FoldingChallenges,
    point: EvaluationPoint,
    message: OpeningMessage,
)
    requires
        u.wf(),
        u.accepts(commitment, challenges, point, message),
    ensures
        match message {
            OpeningMessage::Clear { .. } => u.params.opening is Clear,
            OpeningMessage::BitDropped { .. } => u.params.opening is BitDropped,
        },
        4 * fold_of(message).len() == pow2(
            (u.params.witness_log_len - u.params.column_log_len) as nat,
        ),
        pow2(point.p0@.len()) == 4 * fold_of(message).len(),
        forall|i: int, x: int|
            0 <= i < fold_of(message).len() && 0 <= x < 648 ==> -((u.params.prime_list()[0] - 1)
                / 2) <= (#[trigger] fold_of(message)[i].v@[x]) <= (u.params.prime_list()[0] - 1)
                / 2,
        squares(fold_of(message)) <= u.fold_cap,
        scalar::f162().mle(bits_of(fold_of(message)), linear::views(point.p0@).reverse())
            == row_value_of(message),
{
    let v = fold_of(message);
    u.params.lemma_distinct();
    let a = (u.params.witness_log_len - u.params.column_log_len) as nat;
    lemma_pow2_adds((a - 2) as nat, 2);
    lemma2_to64();
    assert(u.key.prime_at(0) == u.key.prime_list()[0]);
    short_folds(v, u.key.prime_at(0), u.fold_cap);
    lemma_bits(v);
}

proof fn lemma_bits(v: Seq<RingElement>)
    ensures
        eval::parity(fold::integers(v)) == bits_of(v),
{
    let (a, b) = (eval::parity(fold::integers(v)), bits_of(v));
    assert forall|e: int| 0 <= e < 4 * v.len() implies a[e] == b[e] by {
        assert forall|m: int| 0 <= m < 162 implies a[e][m] == b[e][m] by {
            assert(fold::integers(v)[e / 4][4 * m + e % 4] == v[e / 4].v@[4 * m + e % 4]);
        }
        assert(a[e] =~= b[e]);
    }
    assert(a =~= b);
}

/// For one fold and one row point a single folded row value is accepted, whatever else the two openings
/// differ in.
pub proof fn row_value_unique(
    u: Verifier,
    c: Commitment,
    x: FoldingChallenges,
    p: EvaluationPoint,
    m: OpeningMessage,
    d: Commitment,
    y: FoldingChallenges,
    r: EvaluationPoint,
    n: OpeningMessage,
)
    requires
        u.wf(),
        u.accepts(c, x, p, m),
        u.accepts(d, y, r, n),
        p.p0@ == r.p0@,
        fold_of(m).len() == fold_of(n).len(),
        forall|i: int, j: int|
            0 <= i < fold_of(m).len() && 0 <= j < 648 ==> (#[trigger] fold_of(m)[i].v@[j])
                == fold_of(n)[i].v@[j],
    ensures
        row_value_of(m) == row_value_of(n),
{
    accepted_opening(u, c, x, p, m);
    accepted_opening(u, d, y, r, n);
    let (a, b) = (bits_of(fold_of(m)), bits_of(fold_of(n)));
    assert forall|e: int| 0 <= e < a.len() implies a[e] == b[e] by {
        assert(a[e] =~= b[e]) by {
            assert forall|k: int| 0 <= k < 162 implies a[e][k] == b[e][k] by {
                assert(fold_of(m)[e / 4].v@[4 * k + e % 4] == fold_of(n)[e / 4].v@[4 * k + e % 4]);
            }
        }
    }
    assert(a =~= b);
}

/// Acceptance in the bit-dropped mode binds the image up to a small error: some `e`, centred and with
/// `12 |e|^2` at most `4 * 648 * 28 columns * (4^d - 1)`, has `A v = sum_j c_j z_j + e` in every row of
/// the transform modulo every prime, where `z_j` is what column `j` of the commitment stands for.
pub proof fn accepted_error(
    u: Verifier,
    commitment: Commitment,
    challenges: FoldingChallenges,
    point: EvaluationPoint,
    message: OpeningMessage,
) -> (e: Seq<int>)
    requires
        u.wf(),
        u.params.opening is BitDropped,
        u.accepts(commitment, challenges, point, message),
        bd::cap_of(pow2(u.params.column_log_len as nat), u.params.bits() as nat) < u128::MAX,
    ensures
        commitment.value is Dropped,
        held(commitment.value->Dropped_0).dropped_bits == u.params.bits(),
        held(commitment.value->Dropped_0).columns == challenges.challenges@.len(),
        held(commitment.value->Dropped_0).primes@ == u.params.prime_list(),
        e.len() == 648,
        garner::centred(u.params.prime_list(), e),
        12 * total(|x: int| e[x] * e[x], 648) <= 4 * (648 * (28 * pow2(
            u.params.column_log_len as nat,
        )) * ((pow2(u.params.bits() as nat) * pow2(u.params.bits() as nat) - 1) as int)),
        forall|k: int, r: int|
            #![trigger ajtai::hat(u.key.prime_at(k), e, r)]
            0 <= k < u.key.a@.len() && 0 <= r < 648 ==> ({
                let q = u.key.prime_at(k);
                same(
                    ajtai::dot(
                        q,
                        ajtai::lanes(u.key.a@[k]@),
                        ajtai::all_hats(q, fold::integers(fold_of(message))),
                        r,
                        fold_of(message).len(),
                    ),
                    ajtai::dot(
                        q,
                        ajtai::all_hats(q, fold::challenge_list(challenges.challenges@)),
                        ajtai::all_hats(q, digits::columns(held(commitment.value->Dropped_0))),
                        r,
                        challenges.challenges@.len(),
                    ) + ajtai::hat(q, e, r),
                    q as int,
                )
            }),
{
    let d = held(commitment.value->Dropped_0);
    let v = fold_of(message);
    let c = challenges.challenges@;
    let n = choose|n: u128|
        n <= bd::cap_of(pow2(u.params.column_log_len as nat), u.params.bits() as nat)
            && #[trigger] residual::measures(*u.key, d, c, v, n);
    let e = choose|e: Seq<int>| #[trigger] residual::is_residual(*u.key, d, c, v, e, n);
    assert(residual::is_residual(*u.key, d, c, v, e, n));
    error_cap(pow2(u.params.column_log_len as nat), u.params.bits() as nat);
    lemma_sum_squares(e, 648);
    assert forall|k: int, r: int|
        #![trigger ajtai::hat(u.key.prime_at(k), e, r)]
        0 <= k < u.key.a@.len() && 0 <= r < 648 implies ({
        let q = u.key.prime_at(k);
        same(
            ajtai::dot(
                q,
                ajtai::lanes(u.key.a@[k]@),
                ajtai::all_hats(q, fold::integers(v)),
                r,
                v.len(),
            ),
            ajtai::dot(
                q,
                ajtai::all_hats(q, fold::challenge_list(c)),
                ajtai::all_hats(q, digits::columns(d)),
                r,
                c.len(),
            ) + ajtai::hat(q, e, r),
            q as int,
        )
    }) by {
        let q = u.key.prime_at(k);
        assert(crate::params::limb_prime(u.key.prime_list()[k]));
        let h = ajtai::hat(q, e, r);
        let x = ajtai::dot(
            q,
            ajtai::lanes(u.key.a@[k]@),
            ajtai::all_hats(q, fold::integers(v)),
            r,
            v.len(),
        );
        let y = ajtai::dot(
            q,
            ajtai::all_hats(q, fold::challenge_list(c)),
            ajtai::all_hats(q, digits::columns(d)),
            r,
            c.len(),
        );
        assert(same(h, x - y, q as int));
        modular::lemma_add(y, h, y, x - y, q as int);
    }
    e
}

proof fn lemma_sum_squares(e: Seq<int>, n: nat)
    requires
        n <= e.len(),
    ensures
        garner::normsq(e, n) == total(|x: int| e[x] * e[x], n),
    decreases n,
{
    if n > 0 {
        lemma_sum_squares(e, (n - 1) as nat);
        let f = |x: int| e[x] * e[x];
        assert(total(f, n) == total(f, (n - 1) as nat) + f(n - 1));
    }
}

/// What every accepted claim satisfies: the claimed value is the multilinear extension of the row
/// evaluation at the column point, so that one row evaluation has one claim accepted at a point.
pub proof fn accepted_claim(
    u: Verifier,
    point: EvaluationPoint,
    claim: F162,
    other: F162,
    row: RowEvaluation,
)
    requires
        u.accepts_claim(point, claim, row),
    ensures
        point.p1@.len() == u.params.column_log_len,
        row.values@.len() == pow2(u.params.column_log_len as nat),
        scalar::f162().mle(linear::views(row.values@), linear::views(point.p1@).reverse())
            == claim@,
        u.accepts_claim(point, other, row) <==> other@ == claim@,
{
}

/// Every folding challenge has weight 28: 28 of its 162 coefficients are one or minus one, and the
/// caller's norm bound accepted it. A script gives one such challenge.
pub proof fn drawn_challenges<F: Fn(&ShortChallenge) -> bool>(
    within: F,
    s: Script,
    c: ShortChallenge,
    d: ShortChallenge,
)
    requires
        verify::drawn(within, s, c),
        verify::drawn(within, s, d),
        forall|x: ShortChallenge|
            !(#[trigger] within.ensures((&x,), true) && within.ensures((&x,), false)),
    ensures
        c == d,
        c.wf(),
        c.weight == 28,
        within.ensures((&c,), true),
{
    let n = choose|n: u64| #[trigger] short::sampled(within, s, 28, Some((c, n)));
    let m = choose|m: u64| #[trigger] short::sampled(within, s, 28, Some((d, m)));
    short::sampled_unique(within, s, 28, c, n, d, m);
    short::lemma_sampled_wf(within, s, 28, c, n);
}

/// The folding challenges of a round are determined by the script, one per column, each of weight 28 and
/// within the norm bound, so that a prover and a verifier who absorbed the same derive the same.
pub proof fn folding_challenges_unique<F: Fn(&ShortChallenge) -> bool>(
    within: F,
    s: Script,
    n: nat,
    c: Seq<ShortChallenge>,
    d: Seq<ShortChallenge>,
)
    requires
        verify::are_challenges(within, s, n, c),
        verify::are_challenges(within, s, n, d),
        forall|x: ShortChallenge|
            !(#[trigger] within.ensures((&x,), true) && within.ensures((&x,), false)),
    ensures
        c == d,
        c.len() == n,
        forall|j: int|
            0 <= j < n ==> (#[trigger] c[j]).weight == 28 && c[j].wf() && within.ensures(
                (&c[j],),
                true,
            ),
{
    assert forall|j: int| 0 <= j < n implies c[j] == d[j] && (#[trigger] c[j]).weight == 28
        && c[j].wf() && within.ensures((&c[j],), true) by {
        assert(verify::drawn(within, verify::advanced(s, j as nat), c[j]));
        assert(verify::drawn(within, verify::advanced(s, j as nat), d[j]));
        drawn_challenges(within, verify::advanced(s, j as nat), c[j], d[j]);
    }
    assert(c =~= d);
}

/// Every folding challenge is drawn from a hash input of its own, which holds all that was absorbed.
pub proof fn folding_challenges_apart<F: Fn(&ShortChallenge) -> bool>(
    within: F,
    s: Script,
    n: nat,
    c: Seq<ShortChallenge>,
) -> (scripts: Seq<Script>)
    requires
        verify::are_challenges(within, s, n, c),
        s.counter + n <= u64::MAX,
        s.absorbed.len() <= u64::MAX,
    ensures
        scripts.len() == n,
        forall|j: int|
            0 <= j < n ==> verify::drawn(within, #[trigger] scripts[j], c[j])
                && scripts[j].absorbed == s.absorbed && scripts[j].key == s.key,
        forall|i: int, j: int|
            0 <= i < j < n ==> (#[trigger] scripts[i]).seed(short::challenge_label()) != (
            #[trigger] scripts[j]).seed(short::challenge_label()),
{
    let scripts = Seq::new(n, |j: int| verify::advanced(s, j as nat));
    let l = short::challenge_label();
    short::lemma_challenge_label();
    assert forall|j: int| 0 <= j < n implies verify::drawn(within, #[trigger] scripts[j], c[j])
        && scripts[j].absorbed == s.absorbed && scripts[j].key == s.key by {
        assert(verify::drawn(within, verify::advanced(s, j as nat), c[j]));
    }
    assert forall|i: int, j: int| 0 <= i < j < n implies (#[trigger] scripts[i]).seed(l) != (
    #[trigger] scripts[j]).seed(l) by {
        if scripts[i].seed(l) == scripts[j].seed(l) {
            transcript::derivations_differ(scripts[i], scripts[j], l, l);
        }
    }
    scripts
}


/// The image that the verifier compares is that of the whole fold: where the matrix holds the
/// transforms of the ring elements `k`, its rows are those of the transform of `sum_i k_i v_i` in the
/// ring.
pub proof fn image_is_product(
    q: u16,
    a: Seq<Batch32>,
    k: Seq<Seq<int>>,
    v: Seq<Seq<int>>,
    r: int,
)
    requires
        params::limb_prime(q),
        v.len() <= k.len(),
        v.len() <= 32 * a.len(),
        forall|i: int| 0 <= i < v.len() ==> (#[trigger] k[i]).len() == 648,
        forall|i: int| 0 <= i < v.len() ==> (#[trigger] v[i]).len() == 648,
        forall|i: int, t: int|
            0 <= i < v.len() && 0 <= t < 648 ==> same(
                #[trigger] ajtai::lanes(a)[i][t],
                ajtai::hat(q, k[i], t),
                q as int,
            ),
        0 <= r < 648,
    ensures
        verify::image_rows(q, a, v)[r] == ajtai::hat(
            q,
            ajtai::product_sum(k, v, v.len()),
            r,
        ) % (q as int),
{
    let n = v.len();
    let (x, y, z) = (ajtai::lanes(a), ajtai::all_hats(q, k), ajtai::all_hats(q, v));
    assert forall|i: int, t: int| 0 <= i < n && 0 <= t < 648 implies same(
        #[trigger] x[i][t],
        y[i][t],
        q as int,
    ) by {
        assert(y[i][t] == ajtai::hat(q, k[i], t));
    }
    params::lemma_limb(q);
    ajtai::lemma_dot_rows(q, x, y, z, r, n);
    ajtai::dot_is_product(q, k, v, r, n);
}

} // verus!
