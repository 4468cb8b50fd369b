//! What a transcript holds, it binds: nothing that is absorbed can be exchanged for anything else.
use super::commitment::{Commitment, CommitmentValue, EvaluationPoint, RowEvaluation};
use super::messages;
use super::messages::{FoldingSource, LeftExpansionCommitment};
use super::params::Params;
use super::script;
use super::verify;
use super::verify::Verifier;
use crate::bytes;
use crate::challenge::short;
use crate::challenge::transcript;
use crate::challenge::transcript::Script;
use crate::fields::scalar::F162;
use crate::ring::{PowerOfThreeRingElementWithLimbs, VerticallyAlignedMatrix};
use crate::wire::bits;
use crate::wire::commitment::held;
use crate::wire::dropped;
use crate::wire::tagged;
use vstd::prelude::*;

verus! {

/// A byte string behind its length.
spec fn frame(b: Seq<u8>) -> Seq<u8> {
    bytes::le(b.len(), 8) + b
}

spec fn word(x: u64) -> Seq<u8> {
    bytes::le(x as nat, 8)
}

proof fn lemma_words_apart(x: u64, y: u64, a: Seq<u8>, b: Seq<u8>)
    requires
        x != y,
    ensures
        word(x) + a != word(y) + b,
{
    if word(x) + a == word(y) + b {
        transcript::lemma_front(x as nat, y as nat, a, b);
    }
}

proof fn lemma_frames_apart(b: Seq<u8>, c: Seq<u8>, x: Seq<u8>, y: Seq<u8>)
    requires
        b.len() != c.len(),
        b.len() <= u64::MAX,
        c.len() <= u64::MAX,
    ensures
        frame(b) + x != frame(c) + y,
{
    if frame(b) + x == frame(c) + y {
        transcript::lemma_framed(b, c, x, y);
    }
}

proof fn lemma_tail(s: Seq<u8>, a: Seq<u8>, b: Seq<u8>)
    requires
        s + a == s + b,
    ensures
        a == b,
{
    let n = s.len() as int;
    assert((s + a).skip(n) =~= a);
    assert((s + b).skip(n) =~= b);
}

// ---------------------------------------------------------------------------------------------
// what the folding challenges are derived from
// ---------------------------------------------------------------------------------------------

/// Absorbing a source only adds bytes: what was absorbed before stays in front of them.
pub proof fn source_extends(s: Script, row: RowEvaluation, left: LeftExpansionCommitment)
    ensures
        s.absorbed.is_prefix_of(row.absorbed(s).absorbed),
        s.absorbed.is_prefix_of(left.absorbed(s).absorbed),
        row.absorbed(s).key == s.key,
        left.absorbed(s).key == s.key,
        row.absorbed(s).counter == s.counter,
        left.absorbed(s).counter == s.counter,
{
    assert(row.absorbed(s).absorbed =~= s.absorbed + (frame(messages::row_label()) + frame(
        row.payload(),
    )));
    assert(left.absorbed(s).absorbed =~= s.absorbed + (frame(messages::left_label()) + frame(
        left.payload(),
    )));
}

/// The script that the folding challenges are derived from determines the row evaluation: two row
/// evaluations that leave it with the same bytes have the same values.
pub proof fn row_evaluation_binds(s: Script, a: RowEvaluation, b: RowEvaluation)
    requires
        24 * a.values@.len() <= u64::MAX,
        24 * b.values@.len() <= u64::MAX,
        a.absorbed(s).absorbed == b.absorbed(s).absorbed,
    ensures
        a.values@ == b.values@,
{
    let l = messages::row_label();
    messages::lemma_labels();
    transcript::lemma_f162_bytes_len(a.values@);
    transcript::lemma_f162_bytes_len(b.values@);
    let (p, q) = (transcript::f162_bytes(a.values@), transcript::f162_bytes(b.values@));
    assert(a.absorbed(s).absorbed =~= s.absorbed + (frame(l) + frame(p)));
    assert(b.absorbed(s).absorbed =~= s.absorbed + (frame(l) + frame(q)));
    lemma_tail(s.absorbed, frame(l) + frame(p), frame(l) + frame(q));
    transcript::lemma_framed(l, l, frame(p), frame(q));
    assert(frame(p) =~= frame(p) + Seq::<u8>::empty());
    assert(frame(q) =~= frame(q) + Seq::<u8>::empty());
    transcript::lemma_framed(p, q, Seq::empty(), Seq::empty());
    transcript::f162_bytes_injective(a.values@, b.values@);
}

/// The script that the folding challenges are derived from determines `T_u`.
pub proof fn left_expansion_binds(
    s: Script,
    a: LeftExpansionCommitment,
    b: LeftExpansionCommitment,
)
    requires
        a.t_u.bytes@.len() <= u64::MAX,
        b.t_u.bytes@.len() <= u64::MAX,
        a.absorbed(s).absorbed == b.absorbed(s).absorbed,
    ensures
        a.t_u.bytes@ == b.t_u.bytes@,
{
    let l = messages::left_label();
    messages::lemma_labels();
    let (p, q) = (a.t_u.bytes@, b.t_u.bytes@);
    assert(a.absorbed(s).absorbed =~= s.absorbed + (frame(l) + frame(p)));
    assert(b.absorbed(s).absorbed =~= s.absorbed + (frame(l) + frame(q)));
    lemma_tail(s.absorbed, frame(l) + frame(p), frame(l) + frame(q));
    transcript::lemma_framed(l, l, frame(p), frame(q));
    assert(frame(p) =~= frame(p) + Seq::<u8>::empty());
    assert(frame(q) =~= frame(q) + Seq::<u8>::empty());
    transcript::lemma_framed(p, q, Seq::empty(), Seq::empty());
}

/// A row evaluation in the clear and a commitment to one never leave the same bytes.
pub proof fn sources_differ(s: Script, a: RowEvaluation, b: LeftExpansionCommitment)
    ensures
        a.absorbed(s).absorbed != b.absorbed(s).absorbed,
{
    let (l, m) = (messages::row_label(), messages::left_label());
    messages::lemma_labels();
    let (p, q) = (a.payload(), b.payload());
    assert(a.absorbed(s).absorbed =~= s.absorbed + (frame(l) + frame(p)));
    assert(b.absorbed(s).absorbed =~= s.absorbed + (frame(m) + frame(q)));
    lemma_frames_apart(l, m, frame(p), frame(q));
    if a.absorbed(s).absorbed == b.absorbed(s).absorbed {
        lemma_tail(s.absorbed, frame(l) + frame(p), frame(m) + frame(q));
    }
}

// ---------------------------------------------------------------------------------------------
// lists of numbers
// ---------------------------------------------------------------------------------------------

/// The bytes of the first `n` numbers.
spec fn words(v: Seq<u64>, n: nat) -> Seq<u8>
    decreases n,
{
    if n == 0 {
        Seq::empty()
    } else {
        words(v, (n - 1) as nat) + word(v[n - 1])
    }
}

proof fn lemma_words(s: Script, v: Seq<u64>, n: nat)
    ensures
        script::absorb_all(s, v, n).absorbed == s.absorbed + words(v, n),
        words(v, n).len() == 8 * n,
    decreases n,
{
    if n > 0 {
        lemma_words(s, v, (n - 1) as nat);
        bytes::lemma_le_len(v[n - 1] as nat, 8);
        assert(script::absorb_all(s, v, n).absorbed =~= s.absorbed + words(v, n));
    } else {
        assert(s.absorbed =~= s.absorbed + words(v, n));
    }
}

proof fn lemma_words_front(v: Seq<u64>, n: nat)
    requires
        0 < n <= v.len(),
    ensures
        words(v, n) == word(v[0]) + words(v.skip(1), (n - 1) as nat),
    decreases n,
{
    if n > 1 {
        lemma_words_front(v, (n - 1) as nat);
        assert(v.skip(1)[n - 2] == v[n - 1]);
        assert(words(v, n) =~= word(v[0]) + words(v.skip(1), (n - 1) as nat));
    } else {
        assert(words(v, 0) =~= Seq::<u8>::empty());
        assert(words(v, n) =~= word(v[0]) + words(v.skip(1), 0));
    }
}

/// Lists of one length at the front of the same bytes.
proof fn lemma_words_unique(v: Seq<u64>, w: Seq<u64>)
    requires
        words(v, v.len()) == words(w, w.len()),
    ensures
        v == w,
    decreases v.len(),
{
    let s = Script { key: arbitrary(), absorbed: Seq::empty(), counter: 0 };
    lemma_words(s, v, v.len());
    lemma_words(s, w, w.len());
    if v.len() > 0 {
        lemma_words_front(v, v.len());
        lemma_words_front(w, w.len());
        let n = (v.len() - 1) as nat;
        transcript::lemma_front(v[0] as nat, w[0] as nat, words(v.skip(1), n), words(w.skip(1), n));
        lemma_words_unique(v.skip(1), w.skip(1));
        assert(v =~= seq![v[0]] + v.skip(1));
        assert(w =~= seq![w[0]] + w.skip(1));
    } else {
        assert(v =~= w);
    }
}

/// Lists of numbers above one that end in a number not above one.
proof fn lemma_words_ended(v: Seq<u64>, w: Seq<u64>, m: u64, n: u64, x: Seq<u8>, y: Seq<u8>)
    requires
        forall|i: int| 0 <= i < v.len() ==> (#[trigger] v[i]) > 1,
        forall|i: int| 0 <= i < w.len() ==> (#[trigger] w[i]) > 1,
        m <= 1,
        n <= 1,
        words(v, v.len()) + (word(m) + x) == words(w, w.len()) + (word(n) + y),
    ensures
        v == w,
        m == n,
        x == y,
    decreases v.len(),
{
    if v.len() == 0 && w.len() == 0 {
        assert(words(v, 0) + (word(m) + x) =~= word(m) + x);
        assert(words(w, 0) + (word(n) + y) =~= word(n) + y);
        transcript::lemma_front(m as nat, n as nat, x, y);
        assert(v =~= w);
    } else if v.len() == 0 {
        let r = words(w.skip(1), (w.len() - 1) as nat) + (word(n) + y);
        lemma_words_front(w, w.len());
        assert(words(v, 0) + (word(m) + x) =~= word(m) + x);
        assert(words(w, w.len()) + (word(n) + y) =~= word(w[0]) + r);
        lemma_words_apart(m, w[0], x, r);
    } else if w.len() == 0 {
        let r = words(v.skip(1), (v.len() - 1) as nat) + (word(m) + x);
        lemma_words_front(v, v.len());
        assert(words(w, 0) + (word(n) + y) =~= word(n) + y);
        assert(words(v, v.len()) + (word(m) + x) =~= word(v[0]) + r);
        lemma_words_apart(v[0], n, r, y);
    } else {
        lemma_words_front(v, v.len());
        lemma_words_front(w, w.len());
        let r = words(v.skip(1), (v.len() - 1) as nat) + (word(m) + x);
        let t = words(w.skip(1), (w.len() - 1) as nat) + (word(n) + y);
        assert(words(v, v.len()) + (word(m) + x) =~= word(v[0]) + r);
        assert(words(w, w.len()) + (word(n) + y) =~= word(w[0]) + t);
        transcript::lemma_front(v[0] as nat, w[0] as nat, r, t);
        assert forall|i: int| 0 <= i < v.skip(1).len() implies (#[trigger] v.skip(1)[i]) > 1 by {
            assert(v[i + 1] > 1);
        }
        assert forall|i: int| 0 <= i < w.skip(1).len() implies (#[trigger] w.skip(1)[i]) > 1 by {
            assert(w[i + 1] > 1);
        }
        lemma_words_ended(v.skip(1), w.skip(1), m, n, x, y);
        assert(v =~= seq![v[0]] + v.skip(1));
        assert(w =~= seq![w[0]] + w.skip(1));
    }
}

// ---------------------------------------------------------------------------------------------
// the parameters
// ---------------------------------------------------------------------------------------------

spec fn mode_of(p: Params) -> u64 {
    if p.opening is Recursive {
        1
    } else {
        0
    }
}

/// What stands behind the mode.
spec fn behind_mode(p: Params, seed: Seq<u8>) -> Seq<u8> {
    if p.bits() > 0 {
        frame(script::dropped_bits_label()) + (word(p.bits() as u64) + frame(seed))
    } else if p.opening is Recursive {
        word(48) + frame(seed)
    } else {
        frame(seed)
    }
}

spec fn parameter_bytes(p: Params, seed: Seq<u8>) -> Seq<u8> {
    frame(script::parameters_label()) + (word(p.witness_log_len as u64) + (word(
        p.column_log_len as u64,
    ) + (words(script::wide(p.prime_list()), p.prime_list().len()) + (word(mode_of(p))
        + behind_mode(p, seed)))))
}

#[verifier::rlimit(40)]
proof fn lemma_parameters(s: Script, p: Params, seed: Seq<u8>)
    ensures
        script::absorb_parameters(s, p, seed).absorbed == s.absorbed + parameter_bytes(p, seed),
{
    let shape = s.absorb_bytes(script::parameters_label()).absorb_u64(
        p.witness_log_len as u64,
    ).absorb_u64(p.column_log_len as u64);
    lemma_words(shape, script::wide(p.prime_list()), p.prime_list().len());
    assert(script::absorb_parameters(s, p, seed).absorbed =~= s.absorbed + parameter_bytes(p, seed));
}

/// The shape, the moduli, the mode and the dropped bits of two parameters agree.
pub open spec fn same_parameters(p: Params, o: Params) -> bool {
    &&& p.witness_log_len == o.witness_log_len
    &&& p.column_log_len == o.column_log_len
    &&& p.prime_list() == o.prime_list()
    &&& (p.opening is Recursive <==> o.opening is Recursive)
    &&& p.bits() == o.bits()
}

proof fn lemma_regrouped(p: Params, a: Seq<u8>, x: Seq<u8>)
    ensures
        parameter_bytes(p, a) + x == frame(script::parameters_label()) + (word(
            p.witness_log_len as u64,
        ) + (word(p.column_log_len as u64) + (words(
            script::wide(p.prime_list()),
            p.prime_list().len(),
        ) + (word(mode_of(p)) + (behind_mode(p, a) + x))))),
{
    assert(parameter_bytes(p, a) + x =~= frame(script::parameters_label()) + (word(
        p.witness_log_len as u64,
    ) + (word(p.column_log_len as u64) + (words(
        script::wide(p.prime_list()),
        p.prime_list().len(),
    ) + (word(mode_of(p)) + (behind_mode(p, a) + x))))));
}

/// What stands behind the mode determines the dropped bits and the seed.
proof fn lemma_behind_mode(
    p: Params,
    a: Seq<u8>,
    x: Seq<u8>,
    o: Params,
    b: Seq<u8>,
    y: Seq<u8>,
)
    requires
        a.len() == 32,
        b.len() == 32,
        p.opening is Recursive <==> o.opening is Recursive,
        behind_mode(p, a) + x == behind_mode(o, b) + y,
    ensures
        p.bits() == o.bits(),
        a == b,
        x == y,
{
    script::lemma_labels();
    let (e, f) = (behind_mode(p, a), behind_mode(o, b));
    let d = script::dropped_bits_label();
    let (g, h) = (frame(a) + x, frame(b) + y);
    if p.opening is Recursive {
        assert(e + x =~= word(48) + g);
        assert(f + y =~= word(48) + h);
        transcript::lemma_front(48, 48, g, h);
        transcript::lemma_framed(a, b, x, y);
    } else if p.bits() > 0 && o.bits() > 0 {
        let (i, j) = (word(p.bits() as u64) + g, word(o.bits() as u64) + h);
        assert(e + x =~= frame(d) + i);
        assert(f + y =~= frame(d) + j);
        transcript::lemma_framed(d, d, i, j);
        transcript::lemma_front(p.bits() as nat, o.bits() as nat, g, h);
        transcript::lemma_framed(a, b, x, y);
    } else if p.bits() > 0 {
        let i = word(p.bits() as u64) + g;
        assert(e + x =~= frame(d) + i);
        lemma_frames_apart(d, b, i, y);
    } else if o.bits() > 0 {
        let j = word(o.bits() as u64) + h;
        assert(f + y =~= frame(d) + j);
        lemma_frames_apart(a, d, x, j);
    } else {
        transcript::lemma_framed(a, b, x, y);
    }
}

proof fn lemma_parameters_unique(
    p: Params,
    a: Seq<u8>,
    x: Seq<u8>,
    o: Params,
    b: Seq<u8>,
    y: Seq<u8>,
)
    requires
        a.len() == 32,
        b.len() == 32,
        parameter_bytes(p, a) + x == parameter_bytes(o, b) + y,
    ensures
        same_parameters(p, o),
        a == b,
        x == y,
{
    script::lemma_labels();
    lemma_regrouped(p, a, x);
    lemma_regrouped(o, b, y);
    let l = script::parameters_label();
    let (v, w) = (script::wide(p.prime_list()), script::wide(o.prime_list()));
    let (m, n) = (mode_of(p), mode_of(o));
    let (e, f) = (behind_mode(p, a) + x, behind_mode(o, b) + y);
    let (e4, f4) = (words(v, v.len()) + (word(m) + e), words(w, w.len()) + (word(n) + f));
    let (e3, f3) = (word(p.column_log_len as u64) + e4, word(o.column_log_len as u64) + f4);
    let (e2, f2) = (word(p.witness_log_len as u64) + e3, word(o.witness_log_len as u64) + f3);
    transcript::lemma_framed(l, l, e2, f2);
    transcript::lemma_front(p.witness_log_len as nat, o.witness_log_len as nat, e3, f3);
    transcript::lemma_front(p.column_log_len as nat, o.column_log_len as nat, e4, f4);
    assert forall|i: int| 0 <= i < v.len() implies (#[trigger] v[i]) > 1 by {
        assert(p.prime_list()[i] > 1);
    }
    assert forall|i: int| 0 <= i < w.len() implies (#[trigger] w[i]) > 1 by {
        assert(o.prime_list()[i] > 1);
    }
    lemma_words_ended(v, w, m, n, e, f);
    assert(p.prime_list() =~= o.prime_list()) by {
        assert(p.prime_list().len() == v.len() && o.prime_list().len() == w.len());
        assert forall|i: int| 0 <= i < v.len() implies p.prime_list()[i] == o.prime_list()[i] by {
            assert(v[i] == w[i]);
        }
    }
    lemma_behind_mode(p, a, x, o, b, y);
}

/// Absorbing the parameters binds them and the matrix seed.
pub proof fn parameters_bind(s: Script, p: Params, a: Seq<u8>, o: Params, b: Seq<u8>)
    requires
        a.len() == 32,
        b.len() == 32,
        script::absorb_parameters(s, p, a).absorbed == script::absorb_parameters(s, o, b).absorbed,
    ensures
        same_parameters(p, o),
        a == b,
{
    lemma_parameters(s, p, a);
    lemma_parameters(s, o, b);
    let (x, y) = (parameter_bytes(p, a), parameter_bytes(o, b));
    lemma_tail(s.absorbed, x, y);
    let e = Seq::<u8>::empty();
    assert(x + e =~= x);
    assert(y + e =~= y);
    lemma_parameters_unique(p, a, e, o, b, e);
}

// ---------------------------------------------------------------------------------------------
// the commitment
// ---------------------------------------------------------------------------------------------

/// Column `j` of a matrix.
spec fn column(
    m: VerticallyAlignedMatrix<PowerOfThreeRingElementWithLimbs>,
    j: int,
) -> Seq<PowerOfThreeRingElementWithLimbs> {
    m.data@.subrange(j * m.rows, (j + 1) * m.rows)
}

spec fn column_bytes(
    m: VerticallyAlignedMatrix<PowerOfThreeRingElementWithLimbs>,
    n: nat,
) -> Seq<u8>
    decreases n,
{
    if n == 0 {
        Seq::empty()
    } else {
        column_bytes(m, (n - 1) as nat) + (bytes::le(m.rows as nat, 8) + tagged::matrix_bytes(
            column(m, n - 1),
        ))
    }
}

proof fn lemma_columns(
    s: Script,
    m: VerticallyAlignedMatrix<PowerOfThreeRingElementWithLimbs>,
    n: nat,
)
    ensures
        script::absorb_columns(s, m, n).absorbed == s.absorbed + column_bytes(m, n),
    decreases n,
{
    if n > 0 {
        lemma_columns(s, m, (n - 1) as nat);
        assert(script::absorb_columns(s, m, n).absorbed =~= s.absorbed + column_bytes(m, n));
    } else {
        assert(s.absorbed =~= s.absorbed + column_bytes(m, n));
    }
}

/// A column of four elements.
proof fn lemma_column(
    m: VerticallyAlignedMatrix<PowerOfThreeRingElementWithLimbs>,
    k: nat,
    j: int,
)
    requires
        m.wf(),
        m.rows == 4,
        forall|j: int| 0 <= j < m.data@.len() ==> (#[trigger] m.data@[j]).limbs@.len() == k,
        0 <= j < m.cols,
    ensures
        column(m, j).len() == 4,
        forall|t: int| 0 <= t < 4 ==> (#[trigger] column(m, j)[t]) == m.data@[4 * j + t],
        forall|t: int| 0 <= t < 4 ==> (#[trigger] column(m, j)[t]).limbs@.len() == k,
        tagged::matrix_bytes(column(m, j)).len() == 4 * (k * 324),
{
    assert(4 * m.cols == m.cols * 4);
    assert(0 <= j * 4 && (j + 1) * 4 <= m.data@.len());
    tagged::lemma_matrix_len(column(m, j), k);
}

/// Matrices of one shape with the same columns.
proof fn lemma_columns_unique(
    a: VerticallyAlignedMatrix<PowerOfThreeRingElementWithLimbs>,
    b: VerticallyAlignedMatrix<PowerOfThreeRingElementWithLimbs>,
    k: nat,
    n: nat,
)
    requires
        a.wf(),
        b.wf(),
        a.rows == 4,
        b.rows == 4,
        forall|j: int| 0 <= j < a.data@.len() ==> (#[trigger] a.data@[j]).limbs@.len() == k,
        forall|j: int| 0 <= j < b.data@.len() ==> (#[trigger] b.data@[j]).limbs@.len() == k,
        n <= a.cols,
        n <= b.cols,
        column_bytes(a, n) == column_bytes(b, n),
    ensures
        forall|j: int|
            0 <= j < 4 * n ==> (#[trigger] a.data@[j]).limbs@ == b.data@[j].limbs@,
    decreases n,
{
    if n > 0 {
        let j = n - 1;
        lemma_column(a, k, j);
        lemma_column(b, k, j);
        let (x, y) = (tagged::matrix_bytes(column(a, j)), tagged::matrix_bytes(column(b, j)));
        let (p, q) = (column_bytes(a, j as nat), column_bytes(b, j as nat));
        let (u, v) = (bytes::le(4, 8) + x, bytes::le(4, 8) + y);
        bytes::lemma_le_len(4, 8);
        let l = p.len() as int;
        assert(column_bytes(a, n) == p + u && column_bytes(b, n) == q + v);
        assert((p + u).len() == p.len() + u.len() && (q + v).len() == q.len() + v.len());
        assert((p + u).take(l) =~= p);
        assert((q + v).take(l) =~= q);
        assert((p + u).skip(l) =~= u);
        assert((q + v).skip(l) =~= v);
        transcript::lemma_front(4, 4, x, y);
        tagged::matrix_bytes_injective(column(a, j), column(b, j), k);
        lemma_columns_unique(a, b, k, j as nat);
        assert forall|i: int| 0 <= i < 4 * n implies (#[trigger] a.data@[i]).limbs@
            == b.data@[i].limbs@ by {
            if i >= 4 * j {
                let t = i - 4 * j;
                assert(column(a, j)[t] == a.data@[4 * j + t]);
                assert(column(b, j)[t] == b.data@[4 * j + t]);
                assert(column(a, j)[t].limbs@ == column(b, j)[t].limbs@);
            }
        }
    }
}

/// What a commitment adds behind its column count.
spec fn value_bytes(c: Commitment) -> Seq<u8> {
    match c.value {
        CommitmentValue::Matrix(m) => column_bytes(m, c.columns as nat),
        CommitmentValue::Recursive(t) => frame(t.bytes@),
        CommitmentValue::Dropped(d) => frame(script::dropped_label()) + frame(
            bits::packed(dropped::dropped_code(*d)),
        ),
    }
}

proof fn lemma_commitment(s: Script, c: Commitment)
    ensures
        script::absorb_commitment(s, c).absorbed == s.absorbed + (frame(script::commitment_label())
            + (word(c.columns as u64) + value_bytes(c))),
{
    let head = s.absorb_bytes(script::commitment_label()).absorb_u64(c.columns as u64);
    if let CommitmentValue::Matrix(m) = c.value {
        lemma_columns(head, m, c.columns as nat);
    }
    assert(script::absorb_commitment(s, c).absorbed =~= s.absorbed + (frame(
        script::commitment_label(),
    ) + (word(c.columns as u64) + value_bytes(c))));
}

/// The commitment takes the form that the parameters ask for.
pub open spec fn takes_form(c: Commitment, params: Params) -> bool {
    &&& c.wf()
    &&& c.primes@ == params.prime_list()
    &&& match c.value {
        CommitmentValue::Matrix(m) => params.bits() == 0 && !(params.opening is Recursive),
        CommitmentValue::Recursive(t) => params.opening is Recursive && t.bytes@.len() <= u64::MAX,
        CommitmentValue::Dropped(d) => {
            &&& params.bits() > 0
            &&& dropped::fits_params(*d, params)
            &&& bits::packed(dropped::dropped_code(*d)).len() <= u64::MAX
        },
    }
}

proof fn lemma_commitment_unique(params: Params, c: Commitment, o: Commitment)
    requires
        takes_form(c, params),
        takes_form(o, params),
        c.columns == o.columns,
        value_bytes(c) == value_bytes(o),
    ensures
        tagged::same_value(c, o),
{
    script::lemma_labels();
    let e = Seq::<u8>::empty();
    match (c.value, o.value) {
        (CommitmentValue::Matrix(m), CommitmentValue::Matrix(n)) => {
            lemma_columns_unique(m, n, c.primes@.len(), c.columns as nat);
        },
        (CommitmentValue::Recursive(t), CommitmentValue::Recursive(u)) => {
            assert(frame(t.bytes@) =~= frame(t.bytes@) + e);
            assert(frame(u.bytes@) =~= frame(u.bytes@) + e);
            transcript::lemma_framed(t.bytes@, u.bytes@, e, e);
        },
        (CommitmentValue::Dropped(x), CommitmentValue::Dropped(y)) => {
            let l = script::dropped_label();
            let (d, f) = (held(x), held(y));
            let (a, b) = (dropped::dropped_code(d), dropped::dropped_code(f));
            let (p, q) = (bits::packed(a), bits::packed(b));
            transcript::lemma_framed(l, l, frame(p), frame(q));
            assert(frame(p) =~= frame(p) + e);
            assert(frame(q) =~= frame(q) + e);
            transcript::lemma_framed(p, q, e, e);
            bits::lemma_packed(a);
            bits::lemma_packed(b);
            dropped::lemma_coefficient_pieces(d);
            dropped::lemma_coefficient_pieces(f);
            assert(a == b);
            dropped::dropped_code_injective(d, f);
        },
        _ => {},
    }
}

/// Absorbing a commitment binds it: commitments of one form that leave a transcript with the same bytes
/// have the same columns and hold the same.
pub proof fn commitment_binds(s: Script, params: Params, c: Commitment, o: Commitment)
    requires
        takes_form(c, params),
        takes_form(o, params),
        script::absorb_commitment(s, c).absorbed == script::absorb_commitment(s, o).absorbed,
    ensures
        c.columns == o.columns,
        tagged::same_value(c, o),
{
    script::lemma_labels();
    let l = script::commitment_label();
    lemma_commitment(s, c);
    lemma_commitment(s, o);
    let (x, y) = (
        word(c.columns as u64) + value_bytes(c),
        word(o.columns as u64) + value_bytes(o),
    );
    lemma_tail(s.absorbed, frame(l) + x, frame(l) + y);
    transcript::lemma_framed(l, l, x, y);
    transcript::lemma_front(c.columns as nat, o.columns as nat, value_bytes(c), value_bytes(o));
    lemma_commitment_unique(params, c, o);
}

/// The script that the evaluation point is derived from determines everything before it: the
/// parameters, the matrix seed and the commitment.
pub proof fn point_binds(s: Script, u: Verifier, c: Commitment, v: Verifier, o: Commitment)
    requires
        takes_form(c, u.params),
        takes_form(o, v.params),
        u.point_script(s, c).absorbed == v.point_script(s, o).absorbed,
    ensures
        same_parameters(u.params, v.params),
        u.matrix_seed@ == v.matrix_seed@,
        c.columns == o.columns,
        tagged::same_value(c, o),
{
    let (a, b) = (u.matrix_seed@, v.matrix_seed@);
    let (p, q) = (
        script::absorb_parameters(s, u.params, a),
        script::absorb_parameters(s, v.params, b),
    );
    lemma_parameters(s, u.params, a);
    lemma_parameters(s, v.params, b);
    lemma_commitment(p, c);
    lemma_commitment(q, o);
    let l = script::commitment_label();
    let x = frame(l) + (word(c.columns as u64) + value_bytes(c));
    let y = frame(l) + (word(o.columns as u64) + value_bytes(o));
    let (d, e) = (parameter_bytes(u.params, a), parameter_bytes(v.params, b));
    assert(u.point_script(s, c).absorbed =~= s.absorbed + (d + x));
    assert(v.point_script(s, o).absorbed =~= s.absorbed + (e + y));
    lemma_tail(s.absorbed, d + x, e + y);
    lemma_parameters_unique(u.params, a, x, v.params, b, y);
    script::lemma_labels();
    transcript::lemma_framed(
        l,
        l,
        word(c.columns as u64) + value_bytes(c),
        word(o.columns as u64) + value_bytes(o),
    );
    transcript::lemma_front(c.columns as nat, o.columns as nat, value_bytes(c), value_bytes(o));
    lemma_commitment_unique(u.params, c, o);
}

// ---------------------------------------------------------------------------------------------
// the opening
// ---------------------------------------------------------------------------------------------

/// Absorbing an opening binds the claimed value, `T_R` and the announced norms.
pub proof fn opening_binds(
    s: Script,
    claim: F162,
    t_r: Seq<u8>,
    norms: Seq<u64>,
    other: F162,
    t_o: Seq<u8>,
    sizes: Seq<u64>,
)
    requires
        t_r.len() <= u64::MAX,
        t_o.len() <= u64::MAX,
        script::absorb_opening(s, claim, t_r, norms).absorbed == script::absorb_opening(
            s,
            other,
            t_o,
            sizes,
        ).absorbed,
    ensures
        claim == other,
        t_r == t_o,
        norms == sizes,
{
    lemma_opening(s, claim, t_r, norms);
    lemma_opening(s, other, t_o, sizes);
    script::lemma_labels();
    let (l, m, n) = (script::claim_label(), script::rest_label(), script::norms_label());
    let (x1, y1) = (words(norms, norms.len()), words(sizes, sizes.len()));
    let (x2, y2) = (frame(n) + x1, frame(n) + y1);
    let (x3, y3) = (frame(t_r) + x2, frame(t_o) + y2);
    let (x4, y4) = (frame(m) + x3, frame(m) + y3);
    let (x5, y5) = (word(claim.0[2]) + x4, word(other.0[2]) + y4);
    let (x6, y6) = (word(claim.0[1]) + x5, word(other.0[1]) + y5);
    let (x7, y7) = (word(claim.0[0]) + x6, word(other.0[0]) + y6);
    lemma_tail(s.absorbed, frame(l) + x7, frame(l) + y7);
    transcript::lemma_framed(l, l, x7, y7);
    transcript::lemma_front(claim.0[0] as nat, other.0[0] as nat, x6, y6);
    transcript::lemma_front(claim.0[1] as nat, other.0[1] as nat, x5, y5);
    transcript::lemma_front(claim.0[2] as nat, other.0[2] as nat, x4, y4);
    transcript::lemma_framed(m, m, x3, y3);
    transcript::lemma_framed(t_r, t_o, x2, y2);
    transcript::lemma_framed(n, n, x1, y1);
    lemma_words_unique(norms, sizes);
    assert(claim.0@ =~= other.0@);
    assert(claim.0 =~= other.0);
}

proof fn lemma_opening(s: Script, claim: F162, t_r: Seq<u8>, norms: Seq<u64>)
    ensures
        script::absorb_opening(s, claim, t_r, norms).absorbed == s.absorbed + (frame(
            script::claim_label(),
        ) + (word(claim.0[0]) + (word(claim.0[1]) + (word(claim.0[2]) + (frame(script::rest_label())
            + (frame(t_r) + (frame(script::norms_label()) + words(norms, norms.len())))))))),
{
    let a = s.absorb_bytes(script::claim_label()).absorb_u64(claim.0[0]).absorb_u64(
        claim.0[1],
    ).absorb_u64(claim.0[2]);
    let b = a.absorb_bytes(script::rest_label()).absorb_bytes(t_r).absorb_bytes(
        script::norms_label(),
    );
    lemma_words(b, norms, norms.len());
    assert(script::absorb_opening(s, claim, t_r, norms).absorbed =~= s.absorbed + (frame(
        script::claim_label(),
    ) + (word(claim.0[0]) + (word(claim.0[1]) + (word(claim.0[2]) + (frame(script::rest_label())
        + (frame(t_r) + (frame(script::norms_label()) + words(norms, norms.len())))))))));
}

// ---------------------------------------------------------------------------------------------
// what is derived
// ---------------------------------------------------------------------------------------------

/// Hash inputs that end in a counter and a label of the same length.
proof fn lemma_seeds(a: Script, b: Script, l: Seq<u8>)
    requires
        a.seed(l) == b.seed(l),
    ensures
        a.absorbed == b.absorbed,
        a.counter == b.counter,
{
    let (x, y) = (word(a.counter), word(b.counter));
    bytes::lemma_le_len(a.counter as nat, 8);
    bytes::lemma_le_len(b.counter as nat, 8);
    let t = bytes::le(l.len(), 8) + l;
    assert(a.seed(l) =~= a.absorbed + (x + t));
    assert(b.seed(l) =~= b.absorbed + (y + t));
    assert((a.absorbed + (x + t)).len() == a.absorbed.len() + 8 + t.len());
    assert((b.absorbed + (y + t)).len() == b.absorbed.len() + 8 + t.len());
    let n = a.absorbed.len() as int;
    assert((a.absorbed + (x + t)).take(n) =~= a.absorbed);
    assert((b.absorbed + (y + t)).take(n) =~= b.absorbed);
    assert((a.absorbed + (x + t)).skip(n) =~= x + t);
    assert((b.absorbed + (y + t)).skip(n) =~= y + t);
    transcript::lemma_front(a.counter as nat, b.counter as nat, t, t);
}

/// The hash input of a folding challenge determines the row evaluation and the number of the challenge:
/// no two challenges of a round are derived from one input, and none from another row evaluation.
pub proof fn challenge_inputs_bind(s: Script, a: RowEvaluation, i: nat, b: RowEvaluation, j: nat)
    requires
        24 * a.values@.len() <= u64::MAX,
        24 * b.values@.len() <= u64::MAX,
        s.counter + i <= u64::MAX,
        s.counter + j <= u64::MAX,
        short::challenge_stream(verify::advanced(a.absorbed(s), i)).input
            == short::challenge_stream(verify::advanced(b.absorbed(s), j)).input,
    ensures
        a.values@ == b.values@,
        i == j,
{
    let (x, y) = (verify::advanced(a.absorbed(s), i), verify::advanced(b.absorbed(s), j));
    lemma_seeds(x, y, short::challenge_label());
    row_evaluation_binds(s, a, b);
}

/// The same where the challenges are derived from `T_u`.
pub proof fn recursive_challenge_inputs_bind(
    s: Script,
    a: LeftExpansionCommitment,
    i: nat,
    b: LeftExpansionCommitment,
    j: nat,
)
    requires
        a.t_u.bytes@.len() <= u64::MAX,
        b.t_u.bytes@.len() <= u64::MAX,
        s.counter + i <= u64::MAX,
        s.counter + j <= u64::MAX,
        short::challenge_stream(verify::advanced(a.absorbed(s), i)).input
            == short::challenge_stream(verify::advanced(b.absorbed(s), j)).input,
    ensures
        a.t_u.bytes@ == b.t_u.bytes@,
        i == j,
{
    let (x, y) = (verify::advanced(a.absorbed(s), i), verify::advanced(b.absorbed(s), j));
    lemma_seeds(x, y, short::challenge_label());
    left_expansion_binds(s, a, b);
}

/// Every coordinate of the evaluation point has bytes of its own in the output of the transcript: the
/// coordinates in order are what is read at multiples of 24, the row coordinates first.
pub proof fn point_reads_all(s: Script, params: Params, p: EvaluationPoint, i: int)
    requires
        params.wf(),
        verify::is_point(s, params, p),
        0 <= i < params.witness_log_len,
    ensures
        p.p0@.len() == params.witness_log_len - params.column_log_len,
        p.p1@.len() == params.column_log_len,
        (p.p0@ + p.p1@)[i] == transcript::f162_at(
            s.output(script::point_label(), 24 * params.witness_log_len as nat),
            24 * i,
        ),
{
    params.lemma_distinct();
}

} // verus!
