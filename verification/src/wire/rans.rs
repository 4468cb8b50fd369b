//! The folded witness: interleaved static rANS over a transmitted histogram.
//!
//! Coefficient `i` of the flattened witness belongs to lane `i mod 64`. All lanes share one word
//! sequence: the encoder runs the coefficients backwards and pushes its renormalisation words
//! onto a single stack, whose reversal is the order in which a forward decoder pulls them.
use super::bits;
use super::bits::{BitReader, BitWriter};
use super::quantize;
use super::WireError;
use crate::bytes;
use crate::ring::{Representation, RingElement};
use crate::scheme::FoldedWitness;
use vstd::arithmetic::div_mod::*;
use vstd::arithmetic::mul::*;
use vstd::arithmetic::power2::*;
use vstd::prelude::*;

verus! {

/// Interleaved states.
pub const LANES: usize = 64;

/// Bytes of the header.
pub const HEADER: usize = 16;

/// A cap on the element count a header may announce.
pub const MAX_ELEMENTS: usize = 16777216;

// ---------------------------------------------------------------------------------------------
// the coder, one step at a time
// ---------------------------------------------------------------------------------------------

/// The state, its low word pushed onto the stack where that is needed.
pub open spec fn push_word(x: nat, w: Seq<u16>, needed: bool) -> (nat, Seq<u16>) {
    if needed {
        (x / 65536, w.push((x % 65536) as u16))
    } else {
        (x, w)
    }
}

/// A symbol of frequency `f` whose slots start at `start`.
pub open spec fn put_symbol(x: nat, w: Seq<u16>, f: nat, start: nat) -> (nat, Seq<u16>) {
    let (y, v) = push_word(x, w, x / 0x10_0000 >= f);
    (y / f * 4096 + y % f + start, v)
}

/// `k` raw bits.
pub open spec fn put_bits(x: nat, w: Seq<u16>, value: nat, k: nat) -> (nat, Seq<u16>) {
    if k == 0 {
        (x, w)
    } else {
        let (y, v) = push_word(x, w, x / pow2((32 - k) as nat) != 0);
        (y * pow2(k) + value, v)
    }
}

/// Bits one symbol index outside the histogram spends after the escape.
pub open spec fn raw_width(length: nat) -> nat {
    if length <= 1 {
        0
    } else {
        bits::log2((length - 1) as nat) + 1
    }
}

/// Symbol `s` under the frequencies `f`, whose last entry is the escape symbol: a symbol without
/// slots goes as raw bits behind the escape.
pub open spec fn put_one(x: nat, w: Seq<u16>, f: Seq<u32>, s: nat) -> (nat, Seq<u16>) {
    let length = (f.len() - 1) as nat;
    if f[s as int] == 0 {
        let (y, v) = put_bits(x, w, s, raw_width(length));
        put_symbol(y, v, f[length as int] as nat, quantize::prefix(f, length))
    } else {
        put_symbol(x, w, f[s as int] as nat, quantize::prefix(f, s))
    }
}

/// The word at `pos`, zero past the end.
pub open spec fn word_at(stream: Seq<u16>, pos: nat) -> nat {
    if pos < stream.len() {
        stream[pos as int] as nat
    } else {
        0
    }
}

/// The state, the next word pulled in where it is below `2^16`.
pub open spec fn pull_word(y: nat, stream: Seq<u16>, pos: nat) -> (nat, nat) {
    if y < 65536 {
        (y * 65536 + word_at(stream, pos), pos + 1)
    } else {
        (y, pos)
    }
}

/// The symbol whose slots hold `slot`, looked for from `s` on.
pub open spec fn symbol_of(f: Seq<u32>, slot: nat, s: nat) -> nat
    decreases f.len() - s,
{
    if s >= f.len() || slot < quantize::prefix(f, s + 1) {
        s
    } else {
        symbol_of(f, slot, s + 1)
    }
}

/// The next symbol, the state and the position behind it.
pub open spec fn take_symbol(x: nat, pos: nat, f: Seq<u32>, stream: Seq<u16>) -> (nat, nat, nat) {
    let slot = x % 4096;
    let s = symbol_of(f, slot, 0);
    let y = (f[s as int] as nat * (x / 4096) + slot - quantize::prefix(f, s)) as nat;
    let (z, p) = pull_word(y, stream, pos);
    (s, z, p)
}

/// `k` raw bits, the state and the position behind them.
pub open spec fn take_bits(x: nat, pos: nat, k: nat, stream: Seq<u16>) -> (nat, nat, nat) {
    if k == 0 {
        (0, x, pos)
    } else {
        let (z, p) = pull_word(x / pow2(k), stream, pos);
        (x % pow2(k), z, p)
    }
}

/// The next symbol, an escaped one included; `None` for an index outside the histogram.
pub open spec fn take_one(x: nat, pos: nat, f: Seq<u32>, stream: Seq<u16>) -> Option<
    (nat, nat, nat),
> {
    let length = (f.len() - 1) as nat;
    let (s, y, p) = take_symbol(x, pos, f, stream);
    if s == length {
        let (t, z, q) = take_bits(y, p, raw_width(length), stream);
        if t >= length {
            None
        } else {
            Some((t, z, q))
        }
    } else {
        Some((s, y, p))
    }
}

/// The frequencies make up the whole table.
pub open spec fn is_table(f: Seq<u32>) -> bool {
    &&& 2 <= f.len() <= 65537
    &&& quantize::prefix(f, f.len()) == 4096
}

proof fn lemma_prefix_mono(f: Seq<u32>, m: nat, n: nat)
    requires
        m <= n,
    ensures
        quantize::prefix(f, m) <= quantize::prefix(f, n),
    decreases n,
{
    if m < n {
        lemma_prefix_mono(f, m, (n - 1) as nat);
    }
}

/// The symbol of a slot has it.
proof fn lemma_symbol_of(f: Seq<u32>, slot: nat, s: nat)
    requires
        s <= f.len(),
        quantize::prefix(f, s) <= slot < quantize::prefix(f, f.len()),
    ensures
        ({
            let t = symbol_of(f, slot, s);
            &&& s <= t < f.len()
            &&& quantize::prefix(f, t) <= slot < quantize::prefix(f, t) + f[t as int]
        }),
    decreases f.len() - s,
{
    if s == f.len() {
    } else if slot < quantize::prefix(f, s + 1) {
    } else {
        lemma_symbol_of(f, slot, s + 1);
    }
}

/// A slot of symbol `t` names it.
proof fn lemma_symbol_is(f: Seq<u32>, slot: nat, s: nat, t: nat)
    requires
        s <= t < f.len(),
        quantize::prefix(f, t) <= slot < quantize::prefix(f, t) + f[t as int],
    ensures
        symbol_of(f, slot, s) == t,
    decreases t - s,
{
    if s < t {
        lemma_prefix_mono(f, s + 1, t);
        lemma_symbol_is(f, slot, s + 1, t);
    }
}

/// `stream` from `pos` on is the stack `w`, the top first.
pub open spec fn mirrors(stream: Seq<u16>, pos: nat, w: Seq<u16>) -> bool {
    &&& pos + w.len() == stream.len()
    &&& forall|i: int| 0 <= i < w.len() ==> #[trigger] w[i] == stream[stream.len() - 1 - i]
}

/// A pushed word is pulled back.
proof fn lemma_word(x: nat, w: Seq<u16>, needed: bool, stream: Seq<u16>, pos: nat)
    requires
        65536 <= x < 0x1_0000_0000,
        mirrors(stream, pos, push_word(x, w, needed).1),
    ensures
        ({
            let (y, _) = push_word(x, w, needed);
            let (z, p) = pull_word(y, stream, pos);
            z == x && mirrors(stream, p, w)
        }),
{
    let v = push_word(x, w, needed).1;
    if needed {
        assert(v[w.len() as int] == stream[pos as int]);
        assert forall|i: int| 0 <= i < w.len() implies #[trigger] w[i] == stream[stream.len() - 1
            - i] by {
            assert(v[i] == w[i]);
        }
    }
}

/// A coded symbol is taken back, and the state stays in its interval.
proof fn lemma_put_symbol(
    x: nat,
    w: Seq<u16>,
    f: Seq<u32>,
    s: nat,
    stream: Seq<u16>,
    pos: nat,
)
    requires
        is_table(f),
        s < f.len(),
        f[s as int] > 0,
        65536 <= x < 0x1_0000_0000,
    ensures
        ({
            let (z, v) = put_symbol(x, w, f[s as int] as nat, quantize::prefix(f, s));
            &&& 65536 <= z < 0x1_0000_0000
            &&& mirrors(stream, pos, v) ==> {
                let (t, y, p) = take_symbol(z, pos, f, stream);
                t == s && y == x && mirrors(stream, p, w)
            }
        }),
{
    let g = f[s as int] as nat;
    let start = quantize::prefix(f, s);
    lemma_prefix_mono(f, s + 1, f.len());
    let needed = x / 0x10_0000 >= g;
    let (y, v) = push_word(x, w, needed);
    let (q, r) = (y / g, y % g);
    lemma_fundamental_div_mod(y as int, g as int);
    lemma_mod_bound(y as int, g as int);
    let z = (q * 4096 + r + start) as nat;
    assert(16 <= q < 0x10_0000) by {
        assert(16 * g <= y < g * 0x10_0000) by {
            if needed {
                assert(g * 0x10_0000 <= x);
            }
        }
        let (qq, gg) = (q as int, g as int);
        assert(16 <= qq < 0x10_0000) by (nonlinear_arith)
            requires
                y == gg * qq + r,
                0 <= r < gg,
                16 * gg <= y < gg * 0x10_0000,
        ;
    }
    assert(r + start < 4096);
    if mirrors(stream, pos, v) {
        let slot = z % 4096;
        assert(slot == r + start && z / 4096 == q);
        lemma_symbol_is(f, slot, 0, s);
        assert(g * q + slot - start == y);
        lemma_word(x, w, needed, stream, pos);
    }
}

/// Coded bits are taken back, and the state stays in its interval.
proof fn lemma_put_bits(
    x: nat,
    w: Seq<u16>,
    value: nat,
    k: nat,
    stream: Seq<u16>,
    pos: nat,
)
    requires
        k <= 16,
        value < pow2(k),
        65536 <= x < 0x1_0000_0000,
    ensures
        ({
            let (z, v) = put_bits(x, w, value, k);
            &&& 65536 <= z < 0x1_0000_0000
            &&& mirrors(stream, pos, v) ==> {
                let (t, y, p) = take_bits(z, pos, k, stream);
                t == value && y == x && mirrors(stream, p, w)
            }
        }),
{
    lemma2_to64();
    if k > 0 {
        let (a, b) = (pow2(k) as int, pow2((32 - k) as nat) as int);
        lemma_pow2_adds(k, (32 - k) as nat);
        lemma_pow2_pos(k);
        lemma_pow2_pos((32 - k) as nat);
        if k < 16 {
            lemma_pow2_strictly_increases(k, 16);
        }
        if 32 - k > 16 {
            lemma_pow2_strictly_increases(16, (32 - k) as nat);
        }
        let needed = x as int / b != 0;
        let (y, v) = push_word(x, w, needed);
        lemma_fundamental_div_mod(x as int, b);
        lemma_mod_bound(x as int, b);
        if needed {
            let d = x as int / b;
            assert(x >= b) by (nonlinear_arith)
                requires
                    x == b * d + (x as int % b),
                    d != 0,
                    d >= 0,
                    b > 0,
                    0 <= (x as int % b),
            ;
            assert(b >= 65536 && b % 65536 == 0) by {
                lemma_pow2_adds(16, (16 - k) as nat);
                lemma_mod_multiples_basic(pow2((16 - k) as nat) as int, 65536);
            }
            assert(y * a >= 65536) by (nonlinear_arith)
                requires
                    y >= b / 65536,
                    b % 65536 == 0,
                    a * b == 0x1_0000_0000,
                    a > 0,
                    b >= 65536,
            ;
        } else {
            assert(y * a >= 65536) by (nonlinear_arith)
                requires
                    y >= 65536,
                    a >= 1,
            ;
        }
        assert(0 <= y < b) by {
            if !needed {
                lemma_small_div_converse(x as int, b);
            }
        }
        assert(y * a + value < 0x1_0000_0000) by (nonlinear_arith)
            requires
                0 <= y < b,
                0 <= value < a,
                a * b == 0x1_0000_0000,
        ;
        let z = (y * pow2(k) + value) as nat;
        lemma_fundamental_div_mod_converse(z as int, a, y as int, value as int);
        if mirrors(stream, pos, v) {
            lemma_word(x, w, needed, stream, pos);
        }
    }
}

proof fn lemma_small_div_converse(x: int, b: int)
    requires
        b > 0,
        0 <= x,
        x / b == 0,
    ensures
        x < b,
{
    lemma_fundamental_div_mod(x, b);
    lemma_mod_bound(x, b);
}

/// The raw width holds every symbol index.
proof fn lemma_raw_width(length: nat)
    requires
        1 <= length <= 65536,
    ensures
        raw_width(length) <= 16,
        length <= pow2(raw_width(length)),
{
    lemma2_to64();
    if length > 1 {
        let x = (length - 1) as nat;
        bits::lemma_log2(x);
        let k = bits::log2(x);
        lemma_pow2_unfold(k + 1);
        if k >= 16 {
            if k > 16 {
                lemma_pow2_strictly_increases(16, k);
            }
        }
    }
}

/// A symbol can be coded: it has slots, or the escape symbol has.
pub open spec fn codable(f: Seq<u32>, s: nat) -> bool {
    s < f.len() - 1 && (f[s as int] > 0 || f[f.len() - 1] > 0)
}

/// A coded symbol is taken back, escaped or not.
proof fn lemma_put_one(x: nat, w: Seq<u16>, f: Seq<u32>, s: nat, stream: Seq<u16>, pos: nat)
    requires
        is_table(f),
        codable(f, s),
        65536 <= x < 0x1_0000_0000,
    ensures
        ({
            let (z, v) = put_one(x, w, f, s);
            &&& 65536 <= z < 0x1_0000_0000
            &&& mirrors(stream, pos, v) ==> {
                &&& take_one(z, pos, f, stream) matches Some((t, y, p)) && t == s && y == x
                    && mirrors(stream, p, w)
            }
        }),
{
    let length = (f.len() - 1) as nat;
    lemma_raw_width(length);
    if f[s as int] == 0 {
        let k = raw_width(length);
        let (y, u) = put_bits(x, w, s, k);
        lemma_put_bits(x, w, s, k, stream, pos);
        lemma_put_symbol(y, u, f, length, stream, pos);
        let (z, v) = put_one(x, w, f, s);
        if mirrors(stream, pos, v) {
            let (t, yy, p) = take_symbol(z, pos, f, stream);
            lemma_put_bits(x, w, s, k, stream, p);
        }
    } else {
        lemma_put_symbol(x, w, f, s, stream, pos);
    }
}

// ---------------------------------------------------------------------------------------------
// the whole message
// ---------------------------------------------------------------------------------------------

/// The states of the lanes and the stack of words.
pub struct Coder {
    pub x: Seq<u32>,
    pub w: Seq<u16>,
}

/// The coder before the first symbol.
pub open spec fn idle() -> Coder {
    Coder { x: Seq::new(64, |k: int| 65536u32), w: Seq::empty() }
}

/// The coder once the symbols from `i` on are coded, the last one first.
pub open spec fn coded(f: Seq<u32>, syms: Seq<nat>, i: nat) -> Coder
    decreases syms.len() - i,
{
    if i >= syms.len() {
        idle()
    } else {
        let c = coded(f, syms, i + 1);
        let k = i as int % 64;
        let (z, v) = put_one(c.x[k] as nat, c.w, f, syms[i as int]);
        Coder { x: c.x.update(k, z as u32), w: v }
    }
}

/// What a decoder holds: the symbols so far, the states of the lanes, the position in the stream.
pub struct Decoded {
    pub syms: Seq<nat>,
    pub x: Seq<u32>,
    pub pos: nat,
}

/// The decoder behind `i` of `n` symbols. Symbols go in groups of 64, and a group that read past
/// the end of the stream is refused behind its last symbol.
pub open spec fn taken(f: Seq<u32>, x: Seq<u32>, stream: Seq<u16>, n: nat, i: nat) -> Result<
    Decoded,
    WireError,
>
    decreases i,
{
    if i == 0 {
        Ok(Decoded { syms: Seq::empty(), x, pos: 0 })
    } else {
        match taken(f, x, stream, n, (i - 1) as nat) {
            Err(e) => Err(e),
            Ok(d) => {
                let k = (i - 1) % 64;
                match take_one(d.x[k] as nat, d.pos, f, stream) {
                    None => Err(WireError::Malformed),
                    Some((s, z, p)) => if (i % 64 == 0 || i == n) && p > stream.len() {
                        Err(WireError::Truncated)
                    } else {
                        Ok(Decoded { syms: d.syms.push(s), x: d.x.update(k, z as u32), pos: p })
                    },
                }
            },
        }
    }
}

/// The states are in their interval.
pub open spec fn in_range(x: Seq<u32>) -> bool {
    x.len() == 64 && forall|k: int| 0 <= k < 64 ==> #[trigger] x[k] >= 65536
}

proof fn lemma_coded(f: Seq<u32>, syms: Seq<nat>, i: nat)
    requires
        is_table(f),
        i <= syms.len(),
        forall|j: int| 0 <= j < syms.len() ==> codable(f, #[trigger] syms[j]),
    ensures
        in_range(coded(f, syms, i).x),
        coded(f, syms, i).w.len() <= 2 * (syms.len() - i),
    decreases syms.len() - i,
{
    if i < syms.len() {
        lemma_coded(f, syms, i + 1);
        let c = coded(f, syms, i + 1);
        let k = i as int % 64;
        lemma_put_one(c.x[k] as nat, c.w, f, syms[i as int], Seq::empty(), 0);
    }
}

/// The decoder undoes the coder, symbol by symbol.
proof fn lemma_taken(f: Seq<u32>, syms: Seq<nat>, i: nat)
    requires
        is_table(f),
        i <= syms.len(),
        forall|j: int| 0 <= j < syms.len() ==> codable(f, #[trigger] syms[j]),
    ensures
        ({
            let c = coded(f, syms, 0);
            &&& taken(f, c.x, c.w.reverse(), syms.len(), i) matches Ok(d) && d.syms == syms.take(
                i as int,
            ) && d.x == coded(f, syms, i).x && mirrors(
                c.w.reverse(),
                d.pos,
                coded(f, syms, i).w,
            )
        }),
    decreases i,
{
    let c = coded(f, syms, 0);
    let stream = c.w.reverse();
    if i == 0 {
        assert(syms.take(0) =~= Seq::<nat>::empty());
    } else {
        let j = (i - 1) as nat;
        lemma_taken(f, syms, j);
        lemma_coded(f, syms, i);
        let d = taken(f, c.x, stream, syms.len(), j)->Ok_0;
        let (here, next) = (coded(f, syms, j), coded(f, syms, i));
        let k = j as int % 64;
        lemma_put_one(next.x[k] as nat, next.w, f, syms[j as int], stream, d.pos);
        let (z, v) = put_one(next.x[k] as nat, next.w, f, syms[j as int]);
        assert(here.x[k] == z);
        let t = take_one(z, d.pos, f, stream);
        assert(t is Some);
        assert(here.x.update(k, next.x[k]) =~= next.x);
        assert(syms.take(j as int).push(syms[j as int]) =~= syms.take(i as int));
    }
}

proof fn lemma_taken_err(f: Seq<u32>, x: Seq<u32>, stream: Seq<u16>, n: nat, i: nat, j: nat)
    requires
        i <= j,
        taken(f, x, stream, n, i) is Err,
    ensures
        taken(f, x, stream, n, j) == taken(f, x, stream, n, i),
    decreases j,
{
    if i < j {
        lemma_taken_err(f, x, stream, n, i, (j - 1) as nat);
    }
}

// ---------------------------------------------------------------------------------------------
// the histogram on the wire
// ---------------------------------------------------------------------------------------------

/// The gamma codes of the first `k` frequencies plus one.
pub open spec fn gammas(f: Seq<u32>, k: nat) -> Seq<bool>
    decreases k,
{
    if k == 0 {
        Seq::empty()
    } else {
        gammas(f, (k - 1) as nat) + bits::gamma((f[k - 1] + 1) as nat)
    }
}

/// The first `k` frequencies read from a bit string, with the bit behind them. A total beyond
/// 4096 is refused as soon as it is reached.
pub open spec fn frequencies(s: Seq<bool>, k: nat) -> Result<(Seq<u32>, nat), WireError>
    decreases k,
{
    if k == 0 {
        Ok((Seq::empty(), 0))
    } else {
        match frequencies(s, (k - 1) as nat) {
            Err(e) => Err(e),
            Ok((f, at)) => match bits::gamma_at(s, at) {
                Err(e) => Err(e),
                Ok((v, end)) => if quantize::prefix(f, f.len()) + v - 1 > 4096 {
                    Err(WireError::Malformed)
                } else {
                    Ok((f.push((v - 1) as u32), end))
                },
            },
        }
    }
}

proof fn lemma_frequencies_err(s: Seq<bool>, i: nat, j: nat)
    requires
        i <= j,
        frequencies(s, i) is Err,
    ensures
        frequencies(s, j) == frequencies(s, i),
    decreases j,
{
    if i < j {
        lemma_frequencies_err(s, i, (j - 1) as nat);
    }
}

proof fn lemma_prefix_take(f: Seq<u32>, k: nat, n: nat)
    requires
        n <= k <= f.len(),
    ensures
        quantize::prefix(f.take(k as int), n) == quantize::prefix(f, n),
    decreases n,
{
    if n > 0 {
        lemma_prefix_take(f, k, (n - 1) as nat);
    }
}

proof fn lemma_gammas_mono(f: Seq<u32>, i: nat, j: nat)
    requires
        i <= j,
    ensures
        gammas(f, i).len() <= gammas(f, j).len(),
        gammas(f, j).take(gammas(f, i).len() as int) == gammas(f, i),
    decreases j,
{
    if i < j {
        lemma_gammas_mono(f, i, (j - 1) as nat);
        assert(gammas(f, j).take(gammas(f, i).len() as int) =~= gammas(f, i));
    } else {
        assert(gammas(f, j).take(gammas(f, i).len() as int) =~= gammas(f, i));
    }
}

/// The histogram is read back.
proof fn lemma_frequencies(s: Seq<bool>, f: Seq<u32>, k: nat)
    requires
        k <= f.len(),
        quantize::prefix(f, f.len()) <= 4096,
        gammas(f, f.len()).len() <= s.len(),
        s.take(gammas(f, f.len()).len() as int) == gammas(f, f.len()),
    ensures
        frequencies(s, k) == Ok::<(Seq<u32>, nat), WireError>(
            (f.take(k as int), gammas(f, k).len()),
        ),
    decreases k,
{
    if k == 0 {
        assert(f.take(0) =~= Seq::<u32>::empty());
    } else {
        let j = (k - 1) as nat;
        lemma_frequencies(s, f, j);
        lemma_prefix_mono(f, k, f.len());
        lemma_prefix_take(f, j, j);
        lemma_gammas_mono(f, j, k);
        lemma_gammas_mono(f, k, f.len());
        let x = (f[j as int] + 1) as nat;
        let at = gammas(f, j).len();
        let all = gammas(f, f.len());
        assert(s.subrange(at as int, (at + bits::gamma(x).len()) as int) =~= bits::gamma(x)) by {
            assert forall|i: int| 0 <= i < bits::gamma(x).len() implies s[at + i] == bits::gamma(
                x,
            )[i] by {
                assert(s.take(all.len() as int)[at + i] == all[at + i]);
                assert(all.take(gammas(f, k).len() as int)[at + i] == gammas(f, k)[at + i]);
            }
        }
        bits::lemma_gamma_at(s, at, x);
        assert(f.take(j as int).push(f[j as int]) =~= f.take(k as int));
    }
}

// ---------------------------------------------------------------------------------------------
// decoding
// ---------------------------------------------------------------------------------------------

/// The coefficients of the elements, one element after the other.
pub open spec fn flat(v: Seq<RingElement>) -> Seq<i16> {
    Seq::new(648 * v.len(), |i: int| v[i / 648].v@[i % 648])
}

/// The two's complement integer of four bytes.
pub open spec fn i32_of(b: Seq<u8>) -> int {
    let x = bytes::of_le(b);
    if x < 0x8000_0000 {
        x as int
    } else {
        x - 0x1_0000_0000
    }
}

/// The element count of a header.
pub open spec fn header_count(b: Seq<u8>) -> nat {
    bytes::of_le(b.subrange(4, 8))
}

/// The lowest coefficient of a header.
pub open spec fn header_low(b: Seq<u8>) -> int {
    i32_of(b.subrange(8, 12))
}

/// The length of the range of coefficients of a header.
pub open spec fn header_length(b: Seq<u8>) -> nat {
    bytes::of_le(b.subrange(12, 16))
}

/// The `u32` with index `k` of a byte string.
pub open spec fn u32_at(b: Seq<u8>, k: int) -> u32 {
    bytes::of_le(b.subrange(4 * k, 4 * k + 4)) as u32
}

/// The states at the start of a byte string.
pub open spec fn states_of(b: Seq<u8>) -> Seq<u32> {
    Seq::new(64, |k: int| u32_at(b, k))
}

/// The words of a byte string.
pub open spec fn words_of(b: Seq<u8>) -> Seq<u16> {
    Seq::new(b.len() / 2, |i: int| bytes::of_le(b.subrange(2 * i, 2 * i + 2)) as u16)
}

/// The symbols behind the header and the histogram.
pub open spec fn body_of(f: Seq<u32>, rest: Seq<u8>, n: nat) -> Result<Seq<nat>, WireError> {
    if rest.len() < 256 {
        Err(WireError::Truncated)
    } else if !in_range(states_of(rest)) || rest.len() % 2 != 0 {
        Err(WireError::Malformed)
    } else {
        let stream = words_of(rest.skip(256));
        match taken(f, states_of(rest), stream, n, n) {
            Err(e) => Err(e),
            Ok(d) => if d.pos != stream.len() || d.x != idle().x {
                Err(WireError::Malformed)
            } else {
                Ok(d.syms)
            },
        }
    }
}

/// What a byte string decodes to: the representation and the coefficients.
pub open spec fn decoded(b: Seq<u8>) -> Result<(Representation, Seq<i16>), WireError> {
    let (count, low, length) = (header_count(b), header_low(b), header_length(b));
    let representation = if b[1] == 1 {
        Representation::Ntt
    } else {
        Representation::Coefficients
    };
    if b.len() < 16 {
        Err(WireError::Truncated)
    } else if b[0] != 1 || b[1] > 1 {
        Err(WireError::Malformed)
    } else if count == 0 {
        if b.len() == 16 && length == 0 {
            Ok((representation, Seq::empty()))
        } else {
            Err(WireError::Malformed)
        }
    } else if length == 0 || length > 65536 || count > MAX_ELEMENTS || low < -32768 || low + length
        - 1 > 32767 {
        Err(WireError::Malformed)
    } else {
        match frequencies(bits::bit_string(b.skip(16)), length + 1) {
            Err(e) => Err(e),
            Ok((f, at)) => if quantize::prefix(f, f.len()) != 4096 {
                Err(WireError::Malformed)
            } else {
                match body_of(f, b.skip((16 + (at + 7) / 8) as int), 648 * count) {
                    Err(e) => Err(e),
                    Ok(syms) => Ok(
                        (representation, Seq::new(syms.len(), |i: int| (low + syms[i]) as i16)),
                    ),
                }
            },
        }
    }
}

/// The prefix sums of the frequencies, and the symbol of each of the 4096 slots.
struct Slots {
    f: Vec<u32>,
    start: Vec<u32>,
    symbol: Vec<u32>,
}

impl Slots {
    spec fn wf(&self) -> bool {
        &&& is_table(self.f@)
        &&& self.start@.len() == self.f@.len()
        &&& forall|s: int|
            0 <= s < self.f@.len() ==> #[trigger] self.start@[s] == quantize::prefix(
                self.f@,
                s as nat,
            )
        &&& self.symbol@.len() == 4096
        &&& forall|j: int|
            0 <= j < 4096 ==> #[trigger] self.symbol@[j] == symbol_of(self.f@, j as nat, 0)
    }

    fn new(f: Vec<u32>) -> (r: Slots)
        requires
            is_table(f@),
        ensures
            r.wf(),
            r.f == f,
    {
        let start = starts(f.as_slice());
        let n: usize = f.len();
        let mut symbol: Vec<u32> = Vec::with_capacity(4096);
        let mut s: usize = 0;
        while s < n
            invariant
                s <= n == f@.len(),
                is_table(f@),
                symbol@.len() == quantize::prefix(f@, s as nat),
                forall|j: int|
                    0 <= j < symbol@.len() ==> #[trigger] symbol@[j] == symbol_of(f@, j as nat, 0),
            decreases n - s,
        {
            let mut i: u32 = 0;
            let g: u32 = f[s];
            proof {
                lemma_prefix_mono(f@, (s + 1) as nat, n as nat);
            }
            while i < g
                invariant
                    i <= g == f@[s as int],
                    s < n == f@.len() <= 65537,
                    symbol@.len() == quantize::prefix(f@, s as nat) + i,
                    forall|j: int|
                        0 <= j < symbol@.len() ==> #[trigger] symbol@[j] == symbol_of(
                            f@,
                            j as nat,
                            0,
                        ),
                decreases g - i,
            {
                proof {
                    lemma_symbol_is(
                        f@,
                        (quantize::prefix(f@, s as nat) + i) as nat,
                        0,
                        s as nat,
                    );
                }
                symbol.push(s as u32);
                i += 1;
            }
            s += 1;
        }
        Slots { f, start, symbol }
    }

    /// The next symbol.
    fn take_symbol(&self, x: u32, pos: usize, stream: &[u16]) -> (r: (u32, u32, usize))
        requires
            self.wf(),
            x >= 65536,
            pos < usize::MAX,
        ensures
            (r.0 as nat, r.1 as nat, r.2 as nat) == take_symbol(
                x as nat,
                pos as nat,
                self.f@,
                stream@,
            ),
            r.0 < self.f@.len(),
            r.1 >= 65536,
            pos <= r.2 <= pos + 1,
    {
        let slot: u32 = x % 4096;
        let s: u32 = self.symbol[slot as usize];
        proof {
            lemma_symbol_of(self.f@, slot as nat, 0);
            lemma_prefix_mono(self.f@, s as nat + 1, self.f@.len());
        }
        let g: u32 = self.f[s as usize];
        let st: u32 = self.start[s as usize];
        let h: u32 = x / 4096;
        proof {
            assert(g * h <= 4096 * h && g * h >= 16) by (nonlinear_arith)
                requires
                    1 <= g <= 4096,
                    h >= 16,
            ;
        }
        let y: u32 = g * h + (slot - st);
        if y < 65536 {
            let w: u32 = if pos < stream.len() {
                stream[pos] as u32
            } else {
                0
            };
            (s, y * 65536 + w, pos + 1)
        } else {
            (s, y, pos)
        }
    }
}

fn starts(f: &[u32]) -> (r: Vec<u32>)
    requires
        quantize::prefix(f@, f@.len()) <= 4096,
    ensures
        r@.len() == f@.len(),
        forall|s: int| 0 <= s < f@.len() ==> #[trigger] r@[s] == quantize::prefix(f@, s as nat),
{
    let n: usize = f.len();
    let mut r: Vec<u32> = Vec::with_capacity(n);
    let mut acc: u32 = 0;
    let mut s: usize = 0;
    while s < n
        invariant
            s <= n == f@.len(),
            quantize::prefix(f@, n as nat) <= 4096,
            acc == quantize::prefix(f@, s as nat),
            r@.len() == s,
            forall|t: int| 0 <= t < s ==> #[trigger] r@[t] == quantize::prefix(f@, t as nat),
        decreases n - s,
    {
        proof {
            lemma_prefix_mono(f@, (s + 1) as nat, n as nat);
        }
        r.push(acc);
        acc = acc + f[s];
        s += 1;
    }
    r
}

/// Bits one symbol index outside the histogram spends.
fn raw_bits(length: usize) -> (k: u32)
    requires
        1 <= length <= 65536,
    ensures
        k == raw_width(length as nat),
        k <= 16,
{
    proof {
        lemma_raw_width(length as nat);
    }
    if length == 1 {
        return 0;
    }
    let mut x: usize = length - 1;
    let mut k: u32 = 0;
    while x >= 2
        invariant
            1 <= x,
            k + bits::log2(x as nat) == bits::log2((length - 1) as nat),
            bits::log2((length - 1) as nat) < 16,
        decreases x,
    {
        x = x / 2;
        k += 1;
    }
    k + 1
}

/// `k` raw bits.
fn take_raw(x: u32, pos: usize, k: u32, stream: &[u16]) -> (r: (u32, u32, usize))
    requires
        x >= 65536,
        k <= 16,
        pos < usize::MAX,
    ensures
        (r.0 as nat, r.1 as nat, r.2 as nat) == take_bits(x as nat, pos as nat, k as nat, stream@),
        r.1 >= 65536,
        pos <= r.2 <= pos + 1,
{
    if k == 0 {
        return (0, x, pos);
    }
    let m: u64 = bits::two_to(k);
    proof {
        lemma2_to64();
        if k < 16 {
            lemma_pow2_strictly_increases(k as nat, 16);
        }
        lemma_fundamental_div_mod(x as int, m as int);
        lemma_mod_bound(x as int, m as int);
        let (xx, mm) = (x as int, m as int);
        let q = xx / mm;
        assert(q >= 1) by (nonlinear_arith)
            requires
                xx == mm * q + xx % mm,
                xx >= 65536,
                0 < mm <= 65536,
                0 <= xx % mm < mm,
        ;
        assert(q <= xx) by (nonlinear_arith)
            requires
                xx == mm * q + xx % mm,
                mm >= 1,
                q >= 1,
                0 <= xx % mm,
        ;
    }
    let value: u32 = (x as u64 % m) as u32;
    let y: u32 = (x as u64 / m) as u32;
    if y < 65536 {
        let w: u32 = if pos < stream.len() {
            stream[pos] as u32
        } else {
            0
        };
        (value, y * 65536 + w, pos + 1)
    } else {
        (value, y, pos)
    }
}

fn read_words(b: &[u8]) -> (w: Vec<u16>)
    requires
        b@.len() % 2 == 0,
    ensures
        w@ == words_of(b@),
{
    let len: usize = b.len();
    let n: usize = len / 2;
    let mut w: Vec<u16> = Vec::with_capacity(n);
    let mut i: usize = 0;
    while i < n
        invariant
            i <= n,
            len == b@.len(),
            n == len / 2,
            w@ == words_of(b@).take(i as int),
        decreases n - i,
    {
        proof {
            bytes::lemma_radix_values();
        }
        let x: u128 = bytes::read_le(b, 2 * i, 2);
        w.push(x as u16);
        i += 1;
        assert(w@ =~= words_of(b@).take(i as int));
    }
    assert(words_of(b@).take(n as int) =~= words_of(b@));
    w
}

/// The histogram at the start of a byte string, with the bytes it takes.
fn read_frequencies(b: &[u8], n: usize) -> (r: Result<(Vec<u32>, usize), WireError>)
    requires
        1 <= n <= 65537,
    ensures
        match (r, frequencies(bits::bit_string(b@), n as nat)) {
            (Ok((f, used)), Ok((g, at))) => {
                &&& quantize::prefix(g, g.len()) == 4096
                &&& f@ == g
                &&& f@.len() == n
                &&& used == (at + 7) / 8
                &&& used <= b@.len()
            },
            (Err(e), Ok((g, at))) => quantize::prefix(g, g.len()) != 4096 && e
                == WireError::Malformed,
            (Err(e), Err(d)) => e == d,
            _ => false,
        },
{
    let ghost s = bits::bit_string(b@);
    let mut r = BitReader::new(b);
    let mut f: Vec<u32> = Vec::with_capacity(n);
    let mut total: u64 = 0;
    let mut k: usize = 0;
    while k < n
        invariant
            k <= n,
            s == bits::bit_string(b@),
            r.wf(),
            r.stream() == s,
            f@.len() == k,
            total == quantize::prefix(f@, k as nat),
            total <= 4096,
            frequencies(s, k as nat) == Ok::<(Seq<u32>, nat), WireError>((f@, r.at())),
        decreases n - k,
    {
        let g: u64 = match r.get_gamma() {
            Ok(v) => v - 1,
            Err(e) => {
                proof {
                    lemma_frequencies_err(s, (k + 1) as nat, n as nat);
                }
                return Err(e);
            },
        };
        total = total + g;
        if total > 4096 {
            proof {
                lemma_frequencies_err(s, (k + 1) as nat, n as nat);
            }
            return Err(WireError::Malformed);
        }
        let ghost before = f@;
        f.push(g as u32);
        proof {
            lemma_prefix_take(f@, k as nat, k as nat);
            assert(f@.take(k as int) =~= before);
        }
        k += 1;
    }
    if total != 4096 {
        return Err(WireError::Malformed);
    }
    proof {
        bits::lemma_bit_string_len(b@);
    }
    Ok((f, r.consumed()))
}

/// The symbols of a message.
fn read_symbols(slots: &Slots, rest: &[u8], n: u64) -> (r: Result<Vec<u32>, WireError>)
    requires
        slots.wf(),
    ensures
        match (r, body_of(slots.f@, rest@, n as nat)) {
            (Ok(v), Ok(syms)) => {
                &&& v@.len() == n
                &&& syms.len() == n
                &&& forall|i: int| 0 <= i < n ==> #[trigger] v@[i] == syms[i]
                &&& forall|i: int| 0 <= i < n ==> (#[trigger] v@[i]) < slots.f@.len() - 1
            },
            (Err(e), Err(d)) => e == d,
            _ => false,
        },
{
    if rest.len() < 256 {
        return Err(WireError::Truncated);
    }
    let ghost x0 = states_of(rest@);
    let mut x = [0u32; 64];
    let mut k: usize = 0;
    while k < 64
        invariant
            k <= 64,
            rest@.len() >= 256,
            x0 == states_of(rest@),
            forall|j: int| 0 <= j < k ==> #[trigger] x@[j] == x0[j] && x@[j] >= 65536,
        decreases 64 - k,
    {
        proof {
            bytes::lemma_radix_values();
        }
        let state: u32 = bytes::read_le(rest, 4 * k, 4) as u32;
        assert(state == x0[k as int]);
        if state < 65536 {
            return Err(WireError::Malformed);
        }
        x[k] = state;
        k += 1;
    }
    assert(x@ =~= x0);
    let len: usize = rest.len();
    if len % 2 != 0 {
        return Err(WireError::Malformed);
    }
    let tail: &[u8] = vstd::slice::slice_subrange(rest, 256, len);
    assert(tail@ =~= rest@.skip(256));
    let stream = read_words(tail);
    let words: usize = stream.len();
    let length: usize = slots.f.len() - 1;
    let raw: u32 = raw_bits(length);
    let ghost ff = slots.f@;
    let mut out: Vec<u32> = Vec::new();
    let mut pos: usize = 0;
    let mut i: u64 = 0;
    while i < n
        invariant
            i <= n,
            slots.wf(),
            slots.f@ == ff,
            length == ff.len() - 1,
            1 <= length <= 65536,
            raw == raw_width(length as nat),
            raw <= 16,
            words == stream@.len() <= usize::MAX / 2,
            stream@ == words_of(rest@.skip(256)),
            in_range(x@),
            in_range(x0),
            x0 == states_of(rest@),
            rest@.len() >= 256,
            rest@.len() % 2 == 0,
            pos <= words + 2 * (i % 64),
            out@.len() == i,
            forall|j: int| 0 <= j < i ==> (#[trigger] out@[j]) < length,
            ({
                &&& taken(ff, x0, stream@, n as nat, i as nat) matches Ok(d) && d.x == x@ && d.pos
                    == pos && d.syms.len() == i && (forall|j: int|
                    0 <= j < i ==> #[trigger] out@[j] == d.syms[j])
            }),
        decreases n - i,
    {
        let k: usize = (i % 64) as usize;
        let (s, y, p) = slots.take_symbol(x[k], pos, stream.as_slice());
        let (t, z, q): (u32, u32, usize) = if s as usize == length {
            take_raw(y, p, raw, stream.as_slice())
        } else {
            (s, y, p)
        };
        if t as usize >= length {
            proof {
                assert(taken(ff, x0, stream@, n as nat, (i + 1) as nat) == Err::<
                    Decoded,
                    WireError,
                >(WireError::Malformed));
                lemma_taken_err(ff, x0, stream@, n as nat, (i + 1) as nat, n as nat);
            }
            return Err(WireError::Malformed);
        }
        if ((i + 1) % 64 == 0 || i + 1 == n) && q > words {
            proof {
                assert(taken(ff, x0, stream@, n as nat, (i + 1) as nat) == Err::<
                    Decoded,
                    WireError,
                >(WireError::Truncated));
                lemma_taken_err(ff, x0, stream@, n as nat, (i + 1) as nat, n as nat);
            }
            return Err(WireError::Truncated);
        }
        let ghost before = x@;
        x[k] = z;
        pos = q;
        out.push(t);
        i += 1;
        assert(x@ =~= before.update(k as int, z));
    }
    let mut k: usize = 0;
    while k < 64
        invariant
            k <= 64,
            forall|j: int| 0 <= j < k ==> #[trigger] x@[j] == 65536,
            ff == slots.f@,
            taken(ff, x0, stream@, n as nat, n as nat) matches Ok(d) && d.x == x@,
            x0 == states_of(rest@),
            in_range(x0),
            rest@.len() >= 256,
            rest@.len() % 2 == 0,
            stream@ == words_of(rest@.skip(256)),
        decreases 64 - k,
    {
        if x[k] != 65536 {
            assert(x@[k as int] != idle().x[k as int]);
            return Err(WireError::Malformed);
        }
        k += 1;
    }
    assert(x@ =~= idle().x);
    if pos != words {
        return Err(WireError::Malformed);
    }
    Ok(out)
}

/// The elements whose coefficients are `low` plus the symbols.
fn assemble(syms: &[u32], low: i32, representation: Representation, count: usize) -> (v: Vec<
    RingElement,
>)
    requires
        syms@.len() == 648 * count,
        -32768 <= low,
        forall|i: int| 0 <= i < syms@.len() ==> low + (#[trigger] syms@[i]) <= 32767,
    ensures
        v@.len() == count,
        forall|e: int| 0 <= e < count ==> (#[trigger] v@[e]).representation == representation,
        flat(v@) == Seq::new(syms@.len(), |i: int| (low + syms@[i]) as i16),
{
    let len: usize = syms.len();
    let mut v: Vec<RingElement> = Vec::with_capacity(count);
    let mut e: usize = 0;
    while e < count
        invariant
            e <= count,
            syms@.len() == 648 * count == len,
            -32768 <= low,
            forall|i: int| 0 <= i < syms@.len() ==> low + (#[trigger] syms@[i]) <= 32767,
            v@.len() == e,
            forall|k: int| 0 <= k < e ==> (#[trigger] v@[k]).representation == representation,
            forall|k: int, j: int|
                0 <= k < e && 0 <= j < 648 ==> #[trigger] v@[k].v@[j] == (low + syms@[648 * k
                    + j]) as i16,
        decreases count - e,
    {
        let mut r = RingElement::zero(representation);
        let mut j: usize = 0;
        while j < 648
            invariant
                j <= 648,
                e < count,
                syms@.len() == 648 * count == len,
                -32768 <= low,
                forall|i: int| 0 <= i < syms@.len() ==> low + (#[trigger] syms@[i]) <= 32767,
                r.representation == representation,
                forall|k: int|
                    0 <= k < j ==> #[trigger] r.v@[k] == (low + syms@[648 * e + k]) as i16,
            decreases 648 - j,
        {
            let s: u32 = syms[648 * e + j];
            assert(low + syms@[648 * e + j] <= 32767);
            r.v[j] = (low as i64 + s as i64) as i16;
            j += 1;
        }
        v.push(r);
        e += 1;
    }
    proof {
        let want = Seq::new(syms@.len(), |i: int| (low + syms@[i]) as i16);
        assert forall|i: int| 0 <= i < 648 * count implies flat(v@)[i] == want[i] by {
            let (k, j) = (i / 648, i % 648);
            assert(v@[k].v@[j] == (low + syms@[648 * k + j]) as i16);
        }
        assert(flat(v@) =~= want);
    }
    v
}

/// The exact inverse of [`encode`].
pub fn decode(b: &[u8]) -> (r: Result<FoldedWitness, WireError>)
    ensures
        match (r, decoded(b@)) {
            (Ok(v), Ok((representation, c))) => {
                &&& flat(v.elements@) == c
                &&& forall|e: int|
                    0 <= e < v.elements@.len() ==> (#[trigger] v.elements@[e]).representation
                        == representation
            },
            (Err(e), Err(d)) => e == d,
            _ => false,
        },
{
    let len: usize = b.len();
    if len < HEADER {
        return Err(WireError::Truncated);
    }
    if b[0] != 1 || b[1] > 1 {
        return Err(WireError::Malformed);
    }
    let representation = if b[1] == 1 {
        Representation::Ntt
    } else {
        Representation::Coefficients
    };
    proof {
        bytes::lemma_radix_values();
    }
    let count: u64 = bytes::read_le(b, 4, 4) as u64;
    let raw_low: u64 = bytes::read_le(b, 8, 4) as u64;
    let length: u64 = bytes::read_le(b, 12, 4) as u64;
    let low: i64 = if raw_low < 0x8000_0000 {
        raw_low as i64
    } else {
        raw_low as i64 - 0x1_0000_0000
    };
    if count == 0 {
        return if len == HEADER && length == 0 {
            let none: Vec<RingElement> = Vec::new();
            assert(flat(none@) =~= Seq::<i16>::empty());
            Ok(FoldedWitness { elements: none })
        } else {
            Err(WireError::Malformed)
        };
    }
    if length == 0 || length > 65536 || count > MAX_ELEMENTS as u64 || low < -32768 || low
        + length as i64 - 1 > 32767 {
        return Err(WireError::Malformed);
    }
    let head: &[u8] = vstd::slice::slice_subrange(b, HEADER, len);
    assert(head@ =~= b@.skip(16));
    let (f, used) = match read_frequencies(head, length as usize + 1) {
        Ok(t) => t,
        Err(e) => return Err(e),
    };
    let rest: &[u8] = vstd::slice::slice_subrange(b, HEADER + used, len);
    assert(rest@ =~= b@.skip(16 + used));
    let n: u64 = count * 648;
    let ghost ff = f@;
    let slots = Slots::new(f);
    match read_symbols(&slots, rest, n) {
        Err(e) => Err(e),
        Ok(syms) => {
            assert forall|i: int| 0 <= i < syms@.len() implies low + (#[trigger] syms@[i])
                <= 32767 by {}
            let m: usize = syms.len();
            let v = assemble(syms.as_slice(), low as i32, representation, count as usize);
            proof {
                let got = body_of(ff, rest@, n as nat)->Ok_0;
                assert(Seq::new(syms@.len(), |i: int| (low as i32 + syms@[i]) as i16) =~= Seq::new(
                    got.len(),
                    |i: int| (low + got[i]) as i16,
                ));
            }
            Ok(FoldedWitness { elements: v })
        },
    }
}

// ---------------------------------------------------------------------------------------------
// encoding
// ---------------------------------------------------------------------------------------------

/// The least of the first `n` coefficients.
pub open spec fn lowest(c: Seq<i16>, n: nat) -> int
    decreases n,
{
    if n == 0 {
        32767
    } else if lowest(c, (n - 1) as nat) < c[n - 1] {
        lowest(c, (n - 1) as nat)
    } else {
        c[n - 1] as int
    }
}

/// The greatest of the first `n` coefficients.
pub open spec fn highest(c: Seq<i16>, n: nat) -> int
    decreases n,
{
    if n == 0 {
        -32768
    } else if highest(c, (n - 1) as nat) > c[n - 1] {
        highest(c, (n - 1) as nat)
    } else {
        c[n - 1] as int
    }
}

/// How often `x` occurs among the first `n` coefficients.
pub open spec fn occurrences(c: Seq<i16>, x: int, n: nat) -> nat
    decreases n,
{
    if n == 0 {
        0
    } else {
        occurrences(c, x, (n - 1) as nat) + (if c[n - 1] == x {
            1nat
        } else {
            0nat
        })
    }
}

/// The counts over the range `[low, low + length)`, and a zero for the escape symbol.
pub open spec fn histogram(c: Seq<i16>, low: int, length: nat) -> Seq<u64> {
    Seq::new(
        length + 1,
        |i: int|
            if i < length {
                occurrences(c, low + i, c.len()) as u64
            } else {
                0
            },
    )
}

/// The bytes of the first `k` states.
pub open spec fn state_bytes(x: Seq<u32>, k: nat) -> Seq<u8>
    decreases k,
{
    if k == 0 {
        Seq::empty()
    } else {
        state_bytes(x, (k - 1) as nat) + bytes::le(x[k - 1] as nat, 4)
    }
}

/// The bytes of the first `k` words.
pub open spec fn word_bytes(w: Seq<u16>, k: nat) -> Seq<u8>
    decreases k,
{
    if k == 0 {
        Seq::empty()
    } else {
        word_bytes(w, (k - 1) as nat) + bytes::le(w[k - 1] as nat, 2)
    }
}

/// The four bytes of a two's complement integer.
pub open spec fn i32_bytes(x: int) -> Seq<u8> {
    bytes::le(
        (if x < 0 {
            x + 0x1_0000_0000
        } else {
            x
        }) as nat,
        4,
    )
}

/// The length of the occupied range.
pub open spec fn range_of(c: Seq<i16>) -> nat {
    (highest(c, c.len()) - lowest(c, c.len()) + 1) as nat
}

/// The frequencies of a message.
pub open spec fn frequencies_of(c: Seq<i16>) -> Seq<u32> {
    quantize::quantized(histogram(c, lowest(c, c.len()), range_of(c)))
}

/// The symbols of a message.
pub open spec fn symbols_of(c: Seq<i16>) -> Seq<nat> {
    Seq::new(c.len(), |i: int| (c[i] - lowest(c, c.len())) as nat)
}

/// The first eight bytes of the header.
pub open spec fn header_of(v: Seq<RingElement>, base_q: u16) -> Seq<u8> {
    seq![
        1u8,
        if v.len() > 0 && v[0].representation == Representation::Ntt {
            1u8
        } else {
            0u8
        },
    ] + bytes::le(base_q as nat, 2) + bytes::le(v.len(), 4)
}

/// The folded witness on the wire.
pub open spec fn encoded(v: Seq<RingElement>, base_q: u16) -> Seq<u8> {
    let head = header_of(v, base_q);
    if v.len() == 0 {
        head + bytes::le(0, 4) + bytes::le(0, 4)
    } else {
        let c = flat(v);
        let f = frequencies_of(c);
        let m = coded(f, symbols_of(c), 0);
        head + i32_bytes(lowest(c, c.len())) + bytes::le(range_of(c), 4) + bits::packed(
            gammas(f, f.len()),
        ) + state_bytes(m.x, 64) + word_bytes(m.w.reverse(), m.w.len())
    }
}

proof fn lemma_extremes(c: Seq<i16>, n: nat, i: int)
    requires
        0 <= i < n <= c.len(),
    ensures
        lowest(c, n) <= c[i] <= highest(c, n),
        -32768 <= lowest(c, n),
        highest(c, n) <= 32767,
    decreases n,
{
    reveal_with_fuel(lowest, 2);
    reveal_with_fuel(highest, 2);
    let x: i16 = c[n - 1];
    assert(-32768 <= x <= 32767);
    if i < n - 1 {
        lemma_extremes(c, (n - 1) as nat, i);
    } else if n > 1 {
        lemma_extremes(c, (n - 1) as nat, 0);
    }
}

proof fn lemma_occurs(c: Seq<i16>, i: int, n: nat)
    requires
        0 <= i < n,
    ensures
        occurrences(c, c[i] as int, n) >= 1,
    decreases n,
{
    if i < n - 1 {
        lemma_occurs(c, i, (n - 1) as nat);
    }
}

/// The histogram of the first `n` coefficients.
spec fn partial_histogram(c: Seq<i16>, low: int, length: nat, n: nat) -> Seq<u64> {
    Seq::new(
        length + 1,
        |i: int|
            if i < length {
                occurrences(c, low + i, n) as u64
            } else {
                0
            },
    )
}

proof fn lemma_histogram(c: Seq<i16>, low: int, length: nat, n: nat)
    requires
        n <= c.len() <= 0x4_0000_0000_0000,
        forall|i: int| 0 <= i < c.len() ==> low <= #[trigger] c[i] < low + length,
    ensures
        quantize::sum(partial_histogram(c, low, length, n), length + 1) == n,
    decreases n,
{
    let h = partial_histogram(c, low, length, n);
    if n == 0 {
        quantize::lemma_sum_zero(h, length + 1);
    } else {
        let m = (n - 1) as nat;
        lemma_histogram(c, low, length, m);
        let g = partial_histogram(c, low, length, m);
        let s = c[n - 1] - low;
        assert forall|i: int| 0 <= i < length + 1 implies h[i] == g.update(
            s,
            (g[s] + 1) as u64,
        )[i] by {
            lemma_occurrences_bound(c, low + i, m);
        }
        lemma_occurrences_bound(c, low + s, m);
        assert(h =~= g.update(s, (g[s] + 1) as u64));
        quantize::lemma_sum_update(g, s, (g[s] + 1) as u64, length + 1);
    }
}

/// The frequencies of a message code every symbol in it.
proof fn lemma_frequencies_of(c: Seq<i16>)
    requires
        0 < c.len() <= 0x4_0000_0000_0000,
    ensures
        1 <= range_of(c) <= 65536,
        frequencies_of(c).len() == range_of(c) + 1,
        is_table(frequencies_of(c)),
        forall|j: int|
            0 <= j < c.len() ==> codable(frequencies_of(c), #[trigger] symbols_of(c)[j]),
{
    let (low, length) = (lowest(c, c.len()), range_of(c));
    let w = histogram(c, low, length);
    lemma_extremes(c, c.len(), 0);
    assert forall|i: int| 0 <= i < c.len() implies low <= #[trigger] c[i] < low + length by {
        lemma_extremes(c, c.len(), i);
    }
    lemma_histogram(c, low, length, c.len());
    assert(partial_histogram(c, low, length, c.len()) =~= w);
    quantize::lemma_quantized(w);
    assert forall|j: int| 0 <= j < c.len() implies codable(
        frequencies_of(c),
        #[trigger] symbols_of(c)[j],
    ) by {
        lemma_extremes(c, c.len(), j);
        lemma_occurs(c, j, c.len());
        lemma_occurrences_bound(c, c[j] as int, c.len());
        let s = c[j] - low;
        assert(w[s] == occurrences(c, low + s, c.len()));
        quantize::lemma_folded_nonzero(w, s);
        assert(frequencies_of(c)[s] == 0 <==> quantize::folded_counts(w)[s] == 0);
        assert(frequencies_of(c)[length as int] == 0 <==> quantize::folded_counts(w)[length as int]
            == 0);
    }
}

proof fn lemma_occurrences_bound(c: Seq<i16>, x: int, n: nat)
    ensures
        occurrences(c, x, n) <= n,
    decreases n,
{
    if n > 0 {
        lemma_occurrences_bound(c, x, (n - 1) as nat);
    }
}

/// The counts of the coefficients.
fn count(v: &[RingElement], low: i32, length: usize) -> (w: Vec<u64>)
    requires
        v@.len() <= 0xFFFF_FFFF,
        1 <= length <= 65536,
        forall|i: int|
            0 <= i < flat(v@).len() ==> low <= #[trigger] flat(v@)[i] < low + length,
    ensures
        w@ == histogram(flat(v@), low as int, length as nat),
        quantize::sum(w@, w@.len()) == flat(v@).len(),
{
    let ghost c = flat(v@);
    let mut w: Vec<u64> = vec![0u64; length + 1];
    let n: u64 = 648 * (v.len() as u64);
    let mut i: u64 = 0;
    proof {
        quantize::lemma_sum_zero(w@, w@.len());
    }
    while i < n
        invariant
            i <= n == c.len(),
            n == 648 * v@.len(),
            n <= 0xFFFF_FFFF * 648,
            c == flat(v@),
            1 <= length <= 65536,
            forall|i: int| 0 <= i < c.len() ==> low <= #[trigger] c[i] < low + length,
            w@.len() == length + 1,
            w@[length as int] == 0,
            quantize::sum(w@, w@.len()) == i,
            forall|j: int|
                0 <= j < length ==> #[trigger] w@[j] == occurrences(c, low + j, i as nat),
        decreases n - i,
    {
        let x: i16 = v[(i / 648) as usize].v[(i % 648) as usize];
        assert(x == c[i as int]);
        let s: usize = (x as i64 - low as i64) as usize;
        let ghost before = w@;
        proof {
            quantize::lemma_entry_bound(w@, s as int);
            quantize::lemma_sum_update(w@, s as int, (w@[s as int] + 1) as u64, w@.len());
        }
        let y: u64 = w[s] + 1;
        w.set(s, y);
        i += 1;
    }
    proof {
        assert forall|j: int| 0 <= j < length + 1 implies w@[j] == histogram(
            c,
            low as int,
            length as nat,
        )[j] by {
            lemma_occurrences_bound(c, low + j, c.len());
        }
        assert(w@ =~= histogram(c, low as int, length as nat));
    }
    w
}

/// The low word goes onto the stack.
fn emit_symbol(x: u32, words: &mut Vec<u16>, f: u32, start: u32) -> (z: u32)
    requires
        x >= 65536,
        1 <= f,
        f + start <= 4096,
    ensures
        (z as nat, final(words)@) == put_symbol(x as nat, old(words)@, f as nat, start as nat),
        z >= 65536,
{
    proof {
        lemma_emit(x, f, start);
    }
    let y: u32 = if x / 0x10_0000 >= f {
        words.push((x % 65536) as u16);
        x / 65536
    } else {
        x
    };
    y / f * 4096 + y % f + start
}

proof fn lemma_emit(x: u32, f: u32, start: u32)
    requires
        x >= 65536,
        1 <= f,
        f + start <= 4096,
    ensures
        ({
            let y = if x / 0x10_0000 >= f {
                x / 65536
            } else {
                x
            };
            16 <= y / f < 0x10_0000 && y % f < f
        }),
{
    let y = (if x / 0x10_0000 >= f {
        x / 65536
    } else {
        x
    }) as int;
    let g = f as int;
    lemma_fundamental_div_mod(y, g);
    lemma_mod_bound(y, g);
    let q = y / g;
    assert(16 * g <= y < g * 0x10_0000) by {
        if x / 0x10_0000 >= f {
            assert(f * 0x10_0000 <= x);
        }
    }
    assert(16 <= q < 0x10_0000) by (nonlinear_arith)
        requires
            y == g * q + y % g,
            0 <= y % g < g,
            16 * g <= y < g * 0x10_0000,
    ;
}

/// Raw bits go into the state.
fn emit_bits(x: u32, words: &mut Vec<u16>, value: u32, k: u32) -> (z: u32)
    requires
        x >= 65536,
        k <= 16,
        value < pow2(k as nat),
    ensures
        (z as nat, final(words)@) == put_bits(x as nat, old(words)@, value as nat, k as nat),
        z >= 65536,
{
    if k == 0 {
        return x;
    }
    proof {
        lemma_put_bits(x as nat, words@, value as nat, k as nat, Seq::empty(), 0);
    }
    let m: u64 = bits::two_to(k);
    let h: u64 = bits::two_to(32 - k);
    let y: u64 = if x as u64 / h != 0 {
        words.push((x % 65536) as u16);
        (x / 65536) as u64
    } else {
        x as u64
    };
    proof {
        assert(y * m <= 0x1_0000_0000);
        assert(y * m >= 0) by (nonlinear_arith)
            requires
                y >= 0,
                m >= 0,
        ;
    }
    (y * m + value as u64) as u32
}

/// The message, coded: the states of the lanes and the stack of words.
fn run(v: &[RingElement], low: i32, f: &[u32]) -> (r: ([u32; 64], Vec<u16>))
    requires
        v@.len() <= 0xFFFF_FFFF,
        is_table(f@),
        forall|i: int|
            0 <= i < flat(v@).len() ==> low <= #[trigger] flat(v@)[i] < low + f@.len() - 1,
        ({
            let syms = Seq::new(flat(v@).len(), |i: int| (flat(v@)[i] - low) as nat);
            forall|j: int| 0 <= j < syms.len() ==> codable(f@, #[trigger] syms[j])
        }),
    ensures
        ({
            let syms = Seq::new(flat(v@).len(), |i: int| (flat(v@)[i] - low) as nat);
            let c = coded(f@, syms, 0);
            r.0@ == c.x && r.1@ == c.w
        }),
{
    let ghost c = flat(v@);
    let ghost syms = Seq::new(c.len(), |i: int| (c[i] - low) as nat);
    let start = starts(f);
    let length: usize = f.len() - 1;
    let raw: u32 = raw_bits(length);
    let mut x = [65536u32; 64];
    let mut words: Vec<u16> = Vec::new();
    let n: u64 = 648 * (v.len() as u64);
    let mut i: u64 = n;
    assert(x@ =~= idle().x);
    proof {
        lemma_raw_width(length as nat);
    }
    while i > 0
        invariant
            i <= n == c.len(),
            n == 648 * v@.len(),
            v@.len() <= 0xFFFF_FFFF,
            c == flat(v@),
            is_table(f@),
            length == f@.len() - 1,
            raw == raw_width(length as nat) <= 16,
            length <= pow2(raw as nat),
            forall|i: int| 0 <= i < c.len() ==> low <= #[trigger] c[i] < low + f@.len() - 1,
            syms == Seq::new(c.len(), |i: int| (c[i] - low) as nat),
            forall|j: int| 0 <= j < syms.len() ==> codable(f@, #[trigger] syms[j]),
            start@.len() == f@.len(),
            forall|s: int|
                0 <= s < f@.len() ==> #[trigger] start@[s] == quantize::prefix(f@, s as nat),
            in_range(x@),
            x@ == coded(f@, syms, i as nat).x,
            words@ == coded(f@, syms, i as nat).w,
        decreases i,
    {
        i -= 1;
        let k: usize = (i % 64) as usize;
        let y: i16 = v[(i / 648) as usize].v[(i % 648) as usize];
        assert(y == c[i as int]);
        let s: usize = (y as i64 - low as i64) as usize;
        assert(syms[i as int] == s);
        assert(codable(f@, syms[i as int]));
        proof {
            lemma_prefix_mono(f@, s as nat + 1, f@.len());
            lemma_prefix_mono(f@, length as nat + 1, f@.len());
            lemma_coded(f@, syms, i as nat);
        }
        let ghost before = x@;
        let z: u32 = if f[s] == 0 {
            let t: u32 = emit_bits(x[k], &mut words, s as u32, raw);
            emit_symbol(t, &mut words, f[length], start[length])
        } else {
            emit_symbol(x[k], &mut words, f[s], start[s])
        };
        x[k] = z;
        assert(x@ =~= before.update(k as int, z));
        assert(x@ =~= coded(f@, syms, i as nat).x);
    }
    (x, words)
}

/// The least and the greatest coefficient.
fn extremes(v: &[RingElement]) -> (r: (i16, i16))
    requires
        0 < v@.len() <= 0xFFFF_FFFF,
    ensures
        r.0 == lowest(flat(v@), flat(v@).len()),
        r.1 == highest(flat(v@), flat(v@).len()),
{
    let ghost c = flat(v@);
    let mut low: i16 = 32767;
    let mut high: i16 = -32768;
    let n: u64 = 648 * (v.len() as u64);
    let mut i: u64 = 0;
    while i < n
        invariant
            i <= n == c.len(),
            n == 648 * v@.len(),
            v@.len() <= 0xFFFF_FFFF,
            c == flat(v@),
            low == lowest(c, i as nat),
            high == highest(c, i as nat),
        decreases n - i,
    {
        let x: i16 = v[(i / 648) as usize].v[(i % 648) as usize];
        assert(x == c[i as int]);
        if x <= low {
            low = x;
        }
        if x >= high {
            high = x;
        }
        i += 1;
    }
    (low, high)
}

/// The folded witness, entropy-coded against its own histogram. `base_q` is the modulus its
/// coefficients are centered modulo; it is carried in the header, so [`decode`] needs nothing but
/// the bytes.
pub fn encode(folded: &FoldedWitness, base_q: u16) -> (out: Vec<u8>)
    requires
        folded.elements@.len() <= 0xFFFF_FFFF,
    ensures
        out@ == encoded(folded.elements@, base_q),
{
    let v: &[RingElement] = folded.elements.as_slice();
    let count_: usize = v.len();
    let mut out: Vec<u8> = Vec::new();
    out.push(1);
    out.push(
        if count_ > 0 && v[0].representation == Representation::Ntt {
            1
        } else {
            0
        },
    );
    bytes::push_le(&mut out, base_q as u128, 2);
    bytes::push_le(&mut out, count_ as u128, 4);
    let ghost head = header_of(v@, base_q);
    assert(out@ =~= head);
    if count_ == 0 {
        bytes::push_le(&mut out, 0, 4);
        bytes::push_le(&mut out, 0, 4);
        return out;
    }
    let ghost c = flat(v@);
    let (low16, high16) = extremes(v);
    let low: i32 = low16 as i32;
    proof {
        lemma_extremes(c, c.len(), 0);
    }
    let length: usize = (high16 as i32 - low + 1) as usize;
    let raw_low: u64 = if low < 0 {
        (low as i64 + 0x1_0000_0000) as u64
    } else {
        low as u64
    };
    bytes::push_le(&mut out, raw_low as u128, 4);
    bytes::push_le(&mut out, length as u128, 4);
    let ghost head2 = head + i32_bytes(low as int) + bytes::le(length as nat, 4);
    assert(out@ =~= head2);
    proof {
        assert forall|i: int| 0 <= i < c.len() implies low <= #[trigger] c[i] < low + length by {
            lemma_extremes(c, c.len(), i);
        }
    }
    let w = count(v, low, length);
    let f = quantize::quantize(w.as_slice());
    proof {
        lemma_frequencies_of(c);
        assert(Seq::new(flat(v@).len(), |i: int| (flat(v@)[i] - low) as nat) =~= symbols_of(c));
    }
    let mut bw = BitWriter::with_capacity(length / 4 + 16);
    let mut s: usize = 0;
    while s < f.len()
        invariant
            s <= f@.len(),
            bw.wf(),
            bw@ == gammas(f@, s as nat),
            quantize::prefix(f@, f@.len()) == 4096,
        decreases f@.len() - s,
    {
        proof {
            lemma_prefix_mono(f@, (s + 1) as nat, f@.len());
        }
        bw.put_gamma(f[s] as u64 + 1);
        s += 1;
    }
    let histogram_bytes = bw.finish();
    push_all(&mut out, histogram_bytes.as_slice());
    let (x, words) = run(v, low, f.as_slice());
    let ghost m = coded(f@, symbols_of(c), 0);
    let ghost head3 = out@;
    let mut k: usize = 0;
    assert(out@ =~= head3 + state_bytes(x@, 0));
    while k < 64
        invariant
            k <= 64,
            out@ == head3 + state_bytes(x@, k as nat),
        decreases 64 - k,
    {
        bytes::push_le(&mut out, x[k] as u128, 4);
        k += 1;
        assert(out@ =~= head3 + state_bytes(x@, k as nat));
    }
    let ghost head4 = out@;
    let ghost rev = words@.reverse();
    let top: usize = words.len();
    let mut i: usize = 0;
    assert(out@ =~= head4 + word_bytes(rev, 0));
    while i < top
        invariant
            i <= top == words@.len(),
            rev == words@.reverse(),
            out@ == head4 + word_bytes(rev, i as nat),
        decreases top - i,
    {
        bytes::push_le(&mut out, words[top - 1 - i] as u128, 2);
        i += 1;
        assert(out@ =~= head4 + word_bytes(rev, i as nat));
    }
    assert(out@ =~= encoded(v@, base_q));
    out
}

/// Append a byte string.
pub(crate) fn push_all(out: &mut Vec<u8>, b: &[u8])
    ensures
        final(out)@ == old(out)@ + b@,
{
    let ghost start = out@;
    let mut i: usize = 0;
    assert(out@ =~= start + b@.take(0));
    while i < b.len()
        invariant
            i <= b@.len(),
            out@ == start + b@.take(i as int),
        decreases b@.len() - i,
    {
        out.push(b[i]);
        i += 1;
        assert(out@ =~= start + b@.take(i as int));
    }
    assert(b@.take(b@.len() as int) =~= b@);
}

// ---------------------------------------------------------------------------------------------
// the round trip
// ---------------------------------------------------------------------------------------------

proof fn lemma_state_bytes(x: Seq<u32>, k: nat)
    requires
        k <= x.len(),
    ensures
        state_bytes(x, k).len() == 4 * k,
        forall|i: int|
            0 <= i < k ==> #[trigger] state_bytes(x, k).subrange(4 * i, 4 * i + 4) == bytes::le(
                x[i] as nat,
                4,
            ),
    decreases k,
{
    if k > 0 {
        let j = (k - 1) as nat;
        lemma_state_bytes(x, j);
        bytes::lemma_le_len(x[j as int] as nat, 4);
        assert forall|i: int| 0 <= i < k implies #[trigger] state_bytes(x, k).subrange(
            4 * i,
            4 * i + 4,
        ) == bytes::le(x[i] as nat, 4) by {
            if i < j {
                assert(state_bytes(x, k).subrange(4 * i, 4 * i + 4) =~= state_bytes(
                    x,
                    j,
                ).subrange(4 * i, 4 * i + 4));
            } else {
                assert(state_bytes(x, k).subrange(4 * i, 4 * i + 4) =~= bytes::le(
                    x[i] as nat,
                    4,
                ));
            }
        }
    }
}

proof fn lemma_word_bytes(w: Seq<u16>, k: nat)
    requires
        k <= w.len(),
    ensures
        word_bytes(w, k).len() == 2 * k,
        forall|i: int|
            0 <= i < k ==> #[trigger] word_bytes(w, k).subrange(2 * i, 2 * i + 2) == bytes::le(
                w[i] as nat,
                2,
            ),
    decreases k,
{
    if k > 0 {
        let j = (k - 1) as nat;
        lemma_word_bytes(w, j);
        bytes::lemma_le_len(w[j as int] as nat, 2);
        assert forall|i: int| 0 <= i < k implies #[trigger] word_bytes(w, k).subrange(
            2 * i,
            2 * i + 2,
        ) == bytes::le(w[i] as nat, 2) by {
            if i < j {
                assert(word_bytes(w, k).subrange(2 * i, 2 * i + 2) =~= word_bytes(w, j).subrange(
                    2 * i,
                    2 * i + 2,
                ));
            } else {
                assert(word_bytes(w, k).subrange(2 * i, 2 * i + 2) =~= bytes::le(w[i] as nat, 2));
            }
        }
    }
}

/// States and words are read back.
proof fn lemma_body(f: Seq<u32>, syms: Seq<nat>)
    requires
        is_table(f),
        forall|j: int| 0 <= j < syms.len() ==> codable(f, #[trigger] syms[j]),
    ensures
        ({
            let m = coded(f, syms, 0);
            let rest = state_bytes(m.x, 64) + word_bytes(m.w.reverse(), m.w.len());
            body_of(f, rest, syms.len()) == Ok::<Seq<nat>, WireError>(syms)
        }),
{
    let m = coded(f, syms, 0);
    let rev = m.w.reverse();
    let (a, b) = (state_bytes(m.x, 64), word_bytes(rev, m.w.len()));
    let rest = a + b;
    lemma_coded(f, syms, 0);
    lemma_state_bytes(m.x, 64);
    lemma_word_bytes(rev, m.w.len());
    bytes::lemma_radix_values();
    assert forall|k: int| 0 <= k < 64 implies states_of(rest)[k] == m.x[k] by {
        assert(rest.subrange(4 * k, 4 * k + 4) =~= a.subrange(4 * k, 4 * k + 4));
        bytes::lemma_of_le_le(m.x[k] as nat, 4);
    }
    assert(states_of(rest) =~= m.x);
    assert(rest.skip(256) =~= b);
    assert forall|i: int| 0 <= i < rev.len() implies words_of(b)[i] == rev[i] by {
        assert(b.subrange(2 * i, 2 * i + 2) == bytes::le(rev[i] as nat, 2));
        bytes::lemma_of_le_le(rev[i] as nat, 2);
    }
    assert(words_of(b) =~= rev);
    lemma_taken(f, syms, syms.len());
    assert(syms.take(syms.len() as int) =~= syms);
}

/// The representation that a header carries.
pub open spec fn representation_of(v: Seq<RingElement>) -> Representation {
    if v.len() > 0 && v[0].representation == Representation::Ntt {
        Representation::Ntt
    } else {
        Representation::Coefficients
    }
}

/// The first sixteen bytes of a witness that is not empty.
spec fn opening_of(v: Seq<RingElement>, base_q: u16) -> Seq<u8> {
    let c = flat(v);
    header_of(v, base_q) + i32_bytes(lowest(c, c.len())) + bytes::le(range_of(c), 4)
}

/// The header is read back, whatever follows it.
proof fn lemma_opening(v: Seq<RingElement>, base_q: u16, tail: Seq<u8>)
    requires
        0 < v.len() <= 0xFFFF_FFFF,
    ensures
        ({
            let b = opening_of(v, base_q) + tail;
            let c = flat(v);
            &&& b.len() == 16 + tail.len()
            &&& b[0] == 1
            &&& b[1] == (if representation_of(v) == Representation::Ntt {
                1u8
            } else {
                0u8
            })
            &&& header_count(b) == v.len()
            &&& header_low(b) == lowest(c, c.len())
            &&& header_length(b) == range_of(c)
            &&& b.skip(16) == tail
        }),
{
    let head = header_of(v, base_q);
    let c = flat(v);
    let (low, length) = (lowest(c, c.len()), range_of(c));
    let raw = (if low < 0 {
        low + 0x1_0000_0000
    } else {
        low
    }) as nat;
    let b = opening_of(v, base_q) + tail;
    lemma_frequencies_of(c);
    lemma_extremes(c, c.len(), 0);
    bytes::lemma_radix_values();
    bytes::lemma_le_len(base_q as nat, 2);
    bytes::lemma_le_len(v.len(), 4);
    bytes::lemma_of_le_le(v.len(), 4);
    bytes::lemma_le_len(raw, 4);
    bytes::lemma_of_le_le(raw, 4);
    bytes::lemma_le_len(length, 4);
    bytes::lemma_of_le_le(length, 4);
    assert(head.len() == 8);
    assert(head.subrange(4, 8) =~= bytes::le(v.len(), 4));
    assert(b.subrange(4, 8) =~= bytes::le(v.len(), 4));
    assert(b.subrange(8, 12) =~= bytes::le(raw, 4));
    assert(b.subrange(12, 16) =~= bytes::le(length, 4));
    assert(b.skip(16) =~= tail);
}

/// The histogram is read back, whatever follows it.
proof fn lemma_histogram_read(f: Seq<u32>, rest: Seq<u8>)
    requires
        quantize::prefix(f, f.len()) <= 4096,
    ensures
        ({
            let g = gammas(f, f.len());
            let p = bits::packed(g);
            &&& frequencies(bits::bit_string(p + rest), f.len()) == Ok::<
                (Seq<u32>, nat),
                WireError,
            >((f, g.len()))
            &&& p.len() == (g.len() + 7) / 8
        }),
{
    let g = gammas(f, f.len());
    let p = bits::packed(g);
    bits::lemma_packed(g);
    bits::lemma_bit_string_add(p, rest);
    let s = bits::bit_string(p + rest);
    assert(s.take(g.len() as int) =~= bits::bit_string(p).take(g.len() as int));
    lemma_frequencies(s, f, f.len());
    assert(f.take(f.len() as int) =~= f);
}

/// An empty witness is read back.
proof fn lemma_decode_empty(v: Seq<RingElement>, base_q: u16)
    requires
        v.len() == 0,
    ensures
        decoded(encoded(v, base_q)) == Ok::<(Representation, Seq<i16>), WireError>(
            (representation_of(v), flat(v)),
        ),
{
    let b = encoded(v, base_q);
    bytes::lemma_radix_values();
    bytes::lemma_le_len(base_q as nat, 2);
    bytes::lemma_le_len(0, 4);
    bytes::lemma_of_le_le(0, 4);
    assert(b.subrange(4, 8) =~= bytes::le(0, 4));
    assert(b.subrange(12, 16) =~= bytes::le(0, 4));
    assert(flat(v) =~= Seq::<i16>::empty());
}

/// The bytes of a folded witness decode to its coefficients, whatever they are.
pub proof fn decode_encode(v: Seq<RingElement>, base_q: u16)
    requires
        v.len() <= MAX_ELEMENTS,
    ensures
        decoded(encoded(v, base_q)) == Ok::<(Representation, Seq<i16>), WireError>(
            (representation_of(v), flat(v)),
        ),
{
    if v.len() == 0 {
        lemma_decode_empty(v, base_q);
    } else {
        let b = encoded(v, base_q);
        let c = flat(v);
        let low = lowest(c, c.len());
        let f = frequencies_of(c);
        let syms = symbols_of(c);
        let m = coded(f, syms, 0);
        let g = gammas(f, f.len());
        let p = bits::packed(g);
        let rest = state_bytes(m.x, 64) + word_bytes(m.w.reverse(), m.w.len());
        assert(b =~= opening_of(v, base_q) + (p + rest));
        lemma_opening(v, base_q, p + rest);
        lemma_frequencies_of(c);
        lemma_extremes(c, c.len(), 0);
        lemma_histogram_read(f, rest);
        assert(b.skip((16 + (g.len() + 7) / 8) as int) =~= rest) by {
            assert((p + rest).skip(p.len() as int) =~= rest);
        }
        lemma_body(f, syms);
        assert(Seq::new(syms.len(), |i: int| (low + syms[i]) as i16) =~= c) by {
            assert forall|i: int| 0 <= i < c.len() implies (low + syms[i]) as i16 == c[i] by {
                lemma_extremes(c, c.len(), i);
            }
        }
    }
}

// ---------------------------------------------------------------------------------------------
// no message begins another
// ---------------------------------------------------------------------------------------------

proof fn lemma_frequencies_extended(s: Seq<bool>, t: Seq<bool>, k: nat)
    requires
        frequencies(s, k) is Ok,
    ensures
        frequencies(s + t, k) == frequencies(s, k),
        frequencies(s, k)->Ok_0.1 <= s.len(),
    decreases k,
{
    if k > 0 {
        lemma_frequencies_extended(s, t, (k - 1) as nat);
        let (f, at) = frequencies(s, (k - 1) as nat)->Ok_0;
        bits::lemma_gamma_extended(s, t, at);
    }
}

/// A symbol that ends inside the stream is read in the same way where more words follow.
proof fn lemma_one_extended(x: nat, pos: nat, f: Seq<u32>, stream: Seq<u16>, more: Seq<u16>)
    requires
        take_one(x, pos, f, stream) matches Some((s, z, p)) && p <= stream.len(),
    ensures
        take_one(x, pos, f, stream + more) == take_one(x, pos, f, stream),
{
    let (s, y, p) = take_symbol(x, pos, f, stream);
    assert(p == pos || (p == pos + 1 && p <= stream.len()));
    assert(take_symbol(x, pos, f, stream + more) == take_symbol(x, pos, f, stream));
}

proof fn lemma_taken_extended(
    f: Seq<u32>,
    x: Seq<u32>,
    stream: Seq<u16>,
    more: Seq<u16>,
    n: nat,
    i: nat,
)
    requires
        taken(f, x, stream, n, i) matches Ok(d) && d.pos <= stream.len(),
    ensures
        taken(f, x, stream + more, n, i) == taken(f, x, stream, n, i),
    decreases i,
{
    if i > 0 {
        let d = taken(f, x, stream, n, (i - 1) as nat)->Ok_0;
        let k = (i - 1) % 64;
        lemma_taken_extended(f, x, stream, more, n, (i - 1) as nat);
        lemma_one_extended(d.x[k] as nat, d.pos, f, stream, more);
    }
}

proof fn lemma_body_extended(f: Seq<u32>, rest: Seq<u8>, more: Seq<u8>, n: nat)
    requires
        body_of(f, rest, n) is Ok,
        more.len() > 0,
    ensures
        body_of(f, rest + more, n) is Err,
{
    let all = rest + more;
    assert forall|k: int| 0 <= k < 64 implies states_of(all)[k] == states_of(rest)[k] by {
        assert(all.subrange(4 * k, 4 * k + 4) =~= rest.subrange(4 * k, 4 * k + 4));
    }
    assert(states_of(all) =~= states_of(rest));
    if all.len() % 2 == 0 {
        let (a, b) = (rest.skip(256), all.skip(256));
        let (stream, tail) = (words_of(a), words_of(b).skip(words_of(a).len() as int));
        assert forall|i: int| 0 <= i < stream.len() implies words_of(b)[i] == stream[i] by {
            assert(b.subrange(2 * i, 2 * i + 2) =~= a.subrange(2 * i, 2 * i + 2));
        }
        assert(words_of(b) =~= stream + tail);
        lemma_taken_extended(f, states_of(rest), stream, tail, n, n);
    }
}

/// A string that decodes is refused once anything is appended to it, so no message begins another.
pub proof fn prefix_free(b: Seq<u8>, more: Seq<u8>)
    requires
        decoded(b) is Ok,
        more.len() > 0,
    ensures
        decoded(b + more) is Err,
{
    let all = b + more;
    assert(all.subrange(4, 8) =~= b.subrange(4, 8));
    assert(all.subrange(8, 12) =~= b.subrange(8, 12));
    assert(all.subrange(12, 16) =~= b.subrange(12, 16));
    if header_count(b) > 0 {
        let s = bits::bit_string(b.skip(16));
        let length = header_length(b);
        assert(all.skip(16) =~= b.skip(16) + more);
        bits::lemma_bit_string_add(b.skip(16), more);
        bits::lemma_bit_string_len(b.skip(16));
        lemma_frequencies_extended(s, bits::bit_string(more), length + 1);
        let (f, at) = frequencies(s, length + 1)->Ok_0;
        let k = (16 + (at + 7) / 8) as int;
        assert(all.skip(k) =~= b.skip(k) + more);
        lemma_body_extended(f, b.skip(k), more, 648 * header_count(b));
    }
}

/// A header that announces more elements than a message may hold is refused, whatever follows it.
proof fn lemma_too_many(v: Seq<RingElement>, base_q: u16, tail: Seq<u8>)
    requires
        MAX_ELEMENTS < v.len() <= 0xFFFF_FFFF,
    ensures
        decoded(opening_of(v, base_q) + tail) == Err::<(Representation, Seq<i16>), WireError>(
            WireError::Malformed,
        ),
{
    lemma_opening(v, base_q, tail);
}

/// What stands behind the header of a witness that is not empty.
spec fn behind_opening(v: Seq<RingElement>) -> Seq<u8> {
    let f = frequencies_of(flat(v));
    let m = coded(f, symbols_of(flat(v)), 0);
    bits::packed(gammas(f, f.len())) + state_bytes(m.x, 64) + word_bytes(m.w.reverse(), m.w.len())
}

/// `decode` refuses a witness of more elements than a message may hold.
pub proof fn too_many_refused(v: Seq<RingElement>, base_q: u16)
    requires
        MAX_ELEMENTS < v.len() <= 0xFFFF_FFFF,
    ensures
        decoded(encoded(v, base_q)) == Err::<(Representation, Seq<i16>), WireError>(
            WireError::Malformed,
        ),
{
    lemma_too_many(v, base_q, behind_opening(v));
    assert(encoded(v, base_q) =~= opening_of(v, base_q) + behind_opening(v));
}

/// The bytes of a witness are refused with anything appended to them.
pub proof fn extended_refused(v: Seq<RingElement>, base_q: u16, more: Seq<u8>)
    requires
        v.len() <= 0xFFFF_FFFF,
        more.len() > 0,
    ensures
        decoded(encoded(v, base_q) + more) is Err,
{
    let b = encoded(v, base_q);
    if v.len() <= MAX_ELEMENTS {
        decode_encode(v, base_q);
        prefix_free(b, more);
    } else {
        let rest = behind_opening(v);
        lemma_too_many(v, base_q, rest + more);
        assert(b + more =~= opening_of(v, base_q) + (rest + more));
    }
}

/// The bytes of a witness are refused where the end of them is missing, and called truncated where
/// the header is not whole.
#[verifier::spinoff_prover]
#[verifier::rlimit(40)]
pub proof fn cut_refused(v: Seq<RingElement>, base_q: u16, n: int)
    requires
        v.len() <= 0xFFFF_FFFF,
        0 <= n < encoded(v, base_q).len(),
    ensures
        decoded(encoded(v, base_q).take(n)) is Err,
        n < 16 ==> decoded(encoded(v, base_q).take(n)) == Err::<
            (Representation, Seq<i16>),
            WireError,
        >(WireError::Truncated),
{
    let b = encoded(v, base_q);
    if v.len() <= MAX_ELEMENTS {
        decode_encode(v, base_q);
        if decoded(b.take(n)) is Ok {
            assert(b =~= b.take(n) + b.skip(n));
            prefix_free(b.take(n), b.skip(n));
        }
    } else if n >= 16 {
        let rest = behind_opening(v);
        lemma_opening(v, base_q, rest);
        assert(b =~= opening_of(v, base_q) + rest);
        assert(opening_of(v, base_q).len() == 16);
        lemma_too_many(v, base_q, rest.take(n - 16));
        assert(b.take(n) =~= opening_of(v, base_q) + rest.take(n - 16));
    }
}

/// `decode` is the exact inverse of `encode`: an answer of `decode` on the bytes of a witness in
/// one representation is that witness.
pub proof fn round_trip(v: FoldedWitness, base_q: u16, w: FoldedWitness)
    requires
        v.elements@.len() <= MAX_ELEMENTS,
        forall|e: int|
            0 <= e < v.elements@.len() ==> (#[trigger] v.elements@[e]).representation
                == representation_of(v.elements@),
        decoded(encoded(v.elements@, base_q)) matches Ok((representation, c)) && flat(w.elements@)
            == c && (forall|e: int|
            0 <= e < w.elements@.len() ==> (#[trigger] w.elements@[e]).representation
                == representation),
    ensures
        w.elements@.len() == v.elements@.len(),
        forall|e: int|
            0 <= e < v.elements@.len() ==> (#[trigger] w.elements@[e]).v@ == v.elements@[e].v@
                && w.elements@[e].representation == v.elements@[e].representation,
{
    decode_encode(v.elements@, base_q);
    let (a, b) = (w.elements@, v.elements@);
    assert(flat(a).len() == flat(b).len());
    assert forall|e: int| 0 <= e < b.len() implies (#[trigger] a[e]).v@ == b[e].v@
        && a[e].representation == b[e].representation by {
        assert forall|j: int| 0 <= j < 648 implies a[e].v@[j] == b[e].v@[j] by {
            let i = 648 * e + j;
            assert(i / 648 == e && i % 648 == j);
            assert(flat(a)[i] == flat(b)[i]);
        }
        assert(a[e].v@ =~= b[e].v@);
        assert(b[e].representation == representation_of(b));
    }
}

} // verus!
