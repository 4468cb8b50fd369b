//! The bit-dropped commitment on the wire.
use super::bits;
use super::bits::{BitReader, BitWriter};
use super::cat;
use super::uniform;
use super::WireError;
use crate::bd;
use crate::bd::Dropped;
use crate::scheme::params::Params;
use vstd::arithmetic::mul::*;
use vstd::arithmetic::power2::*;
use vstd::prelude::*;

verus! {

/// The bits of part `k` of a coefficient.
pub open spec fn part_width(primes: Seq<u16>, d: nat, k: int) -> nat {
    if k == 0 {
        bd::width_of(primes[0] as nat, d)
    } else {
        super::residue_width(primes[k] as nat)
    }
}

/// Part `k` of a coefficient is in its range.
pub open spec fn part_ok(x: u16, primes: Seq<u16>, d: nat, k: int) -> bool {
    if k == 0 {
        x <= bd::bound_of(primes[0] as nat, d)
    } else {
        x < primes[k]
    }
}

/// The parts of a coefficient are in their ranges.
pub open spec fn parts_ok(c: Seq<u16>, primes: Seq<u16>, d: nat) -> bool {
    &&& c.len() == primes.len()
    &&& forall|k: int| 0 <= k < c.len() ==> part_ok(#[trigger] c[k], primes, d, k)
}

/// The pieces of [`coefficient_code`].
pub open spec fn part_piece(c: Seq<u16>, primes: Seq<u16>, d: nat) -> spec_fn(int) -> Seq<bool> {
    |k: int| bits::bits_of(c[k] as nat, part_width(primes, d, k))
}

/// The top part, then the digits.
pub open spec fn coefficient_code(c: Seq<u16>, primes: Seq<u16>, d: nat) -> Seq<bool> {
    cat::cat(part_piece(c, primes, d), c.len())
}

/// The pieces of [`dropped_code`].
pub open spec fn coefficient_piece(x: Dropped) -> spec_fn(int) -> Seq<bool> {
    |i: int| coefficient_code(x.coefficient(i), x.primes@, x.dropped_bits as nat)
}

/// The coefficients, one behind the other.
pub open spec fn dropped_code(x: Dropped) -> Seq<bool> {
    cat::cat(coefficient_piece(x), (648 * x.columns) as nat)
}

proof fn lemma_part(x: u16, primes: Seq<u16>, d: nat, k: int)
    requires
        uniform::sound_primes(primes),
        1 <= d <= 31,
        0 <= k < primes.len(),
    ensures
        part_width(primes, d, k) <= 16,
        part_ok(x, primes, d, k) ==> x < pow2(part_width(primes, d, k)),
        bits::bits_of(x as nat, part_width(primes, d, k)).len() == part_width(primes, d, k),
{
    bd::lemma_width(primes[0], d);
    super::lemma_residue_width(primes[k]);
    bits::lemma_bits_len(x as nat, part_width(primes, d, k));
}

proof fn lemma_coefficient_len(c: Seq<u16>, primes: Seq<u16>, d: nat, n: nat)
    requires
        uniform::sound_primes(primes),
        1 <= d <= 31,
        c.len() == primes.len(),
        n <= c.len(),
    ensures
        cat::cat(part_piece(c, primes, d), n).len() == bd::coefficient_width(primes, d, n),
    decreases n,
{
    if n > 0 {
        lemma_coefficient_len(c, primes, d, (n - 1) as nat);
        lemma_part(c[n - 1], primes, d, n - 1);
        if n == 1 {
            assert(bd::coefficient_width(primes, d, 0) == 0);
        }
    }
}

proof fn lemma_coefficient_mono(primes: Seq<u16>, d: nat, a: nat, b: nat)
    requires
        a <= b,
    ensures
        bd::coefficient_width(primes, d, a) <= bd::coefficient_width(primes, d, b),
    decreases b,
{
    if a < b {
        lemma_coefficient_mono(primes, d, a, (b - 1) as nat);
        reveal_with_fuel(bd::coefficient_width, 2);
    }
}

pub proof fn lemma_coefficient_pieces(x: Dropped)
    requires
        x.wf(),
    ensures
        forall|i: int|
            0 <= i < 648 * x.columns ==> (#[trigger] coefficient_piece(x)(i)).len()
                == bd::coefficient_width(x.primes@, x.dropped_bits as nat, x.primes@.len()),
        dropped_code(x).len() == (648 * x.columns) as nat * bd::coefficient_width(
            x.primes@,
            x.dropped_bits as nat,
            x.primes@.len(),
        ),
{
    let w = bd::coefficient_width(x.primes@, x.dropped_bits as nat, x.primes@.len());
    assert forall|i: int| 0 <= i < 648 * x.columns implies (#[trigger] coefficient_piece(
        x,
    )(i)).len() == w by {
        lemma_coefficient_len(
            x.coefficient(i),
            x.primes@,
            x.dropped_bits as nat,
            x.primes@.len(),
        );
    }
    cat::lemma_len(coefficient_piece(x), (648 * x.columns) as nat, w);
}

/// Coefficients in range with the same code are the same.
proof fn lemma_coefficient_injective(a: Seq<u16>, b: Seq<u16>, primes: Seq<u16>, d: nat)
    requires
        uniform::sound_primes(primes),
        1 <= d <= 31,
        parts_ok(a, primes, d),
        parts_ok(b, primes, d),
        coefficient_code(a, primes, d) == coefficient_code(b, primes, d),
    ensures
        a == b,
{
    let n = primes.len();
    assert forall|k: int| 0 <= k < n implies a[k] == b[k] by {
        cat::lemma_slice(part_piece(a, primes, d), n, k as nat);
        cat::lemma_slice(part_piece(b, primes, d), n, k as nat);
        lemma_coefficient_len(a, primes, d, k as nat);
        lemma_coefficient_len(b, primes, d, k as nat);
        lemma_part(a[k], primes, d, k);
        lemma_part(b[k], primes, d, k);
        assert(part_piece(a, primes, d)(k) == part_piece(b, primes, d)(k));
        bits::lemma_of_bits(a[k] as nat, part_width(primes, d, k));
        bits::lemma_of_bits(b[k] as nat, part_width(primes, d, k));
    }
    assert(a =~= b);
}

/// Two bit-dropped commitments of the same shape, in range and with the same code, hold the same
/// parts.
pub proof fn dropped_code_injective(a: Dropped, b: Dropped)
    requires
        a.wf(),
        b.wf(),
        a.in_range(),
        b.in_range(),
        a.primes@ == b.primes@,
        a.columns == b.columns,
        a.dropped_bits == b.dropped_bits,
        dropped_code(a) == dropped_code(b),
    ensures
        a.top@ == b.top@,
        forall|k: int| 0 <= k < a.digits@.len() ==> (#[trigger] a.digits@[k])@ == b.digits@[k]@,
{
    let n = (648 * a.columns) as nat;
    let d = a.dropped_bits as nat;
    let w = bd::coefficient_width(a.primes@, d, a.primes@.len());
    lemma_coefficient_pieces(a);
    lemma_coefficient_pieces(b);
    assert forall|i: int| 0 <= i < n implies #[trigger] a.coefficient(i) == b.coefficient(i) by {
        cat::lemma_even_slice(coefficient_piece(a), n, w, i as nat);
        cat::lemma_even_slice(coefficient_piece(b), n, w, i as nat);
        lemma_in_range(a, i);
        lemma_in_range(b, i);
        lemma_coefficient_injective(a.coefficient(i), b.coefficient(i), a.primes@, d);
    }
    assert forall|i: int| 0 <= i < n implies a.top@[i] == b.top@[i] by {
        assert(a.coefficient(i)[0] == b.coefficient(i)[0]);
    }
    assert(a.top@ =~= b.top@);
    assert forall|k: int| 0 <= k < a.digits@.len() implies (#[trigger] a.digits@[k])@
        == b.digits@[k]@ by {
        assert forall|i: int| 0 <= i < n implies a.digits@[k]@[i] == b.digits@[k]@[i] by {
            assert(a.coefficient(i)[k + 1] == b.coefficient(i)[k + 1]);
        }
        assert(a.digits@[k]@ =~= b.digits@[k]@);
    }
}

/// The ranges of a whole commitment are those of its coefficients.
proof fn lemma_in_range(x: Dropped, i: int)
    requires
        x.wf(),
        x.in_range(),
        0 <= i < 648 * x.columns,
    ensures
        parts_ok(x.coefficient(i), x.primes@, x.dropped_bits as nat),
{
    let c = x.coefficient(i);
    assert forall|k: int| 0 <= k < c.len() implies part_ok(
        #[trigger] c[k],
        x.primes@,
        x.dropped_bits as nat,
        k,
    ) by {
        if k > 0 {
            assert(x.digits@[k - 1]@[i] < x.primes@[k - 1 + 1]);
        } else {
            assert(x.top@[i] <= bd::bound_of(x.primes@[0] as nat, x.dropped_bits as nat));
        }
    }
}

pub fn pack_dropped(dropped: &Dropped) -> (b: Vec<u8>)
    requires
        dropped.wf(),
    ensures
        b@ == bits::packed(dropped_code(*dropped)),
{
    let primes = dropped.primes();
    let d: u32 = dropped.dropped_bits();
    let width: u32 = bd::top_bits(primes[0], d);
    let mut w = BitWriter::with_capacity(0);
    let count: usize = dropped.top.len();
    let mut i: usize = 0;
    while i < count
        invariant
            i <= count == 648 * dropped.columns,
            dropped.wf(),
            primes@ == dropped.primes@,
            d == dropped.dropped_bits,
            width == bd::width_of(primes@[0] as nat, d as nat),
            width <= 16,
            w.wf(),
            w@ == cat::cat(coefficient_piece(*dropped), i as nat),
        decreases count - i,
    {
        let ghost base = w@;
        let ghost c = dropped.coefficient(i as int);
        let ghost f = part_piece(c, primes@, d as nat);
        w.put(dropped.top[i] as u64, width);
        proof {
            assert(f(0) == bits::bits_of(dropped.top@[i as int] as nat, width as nat));
            reveal_with_fuel(cat::cat, 2);
            assert(w@ =~= base + cat::cat(f, 1));
        }
        let mut k: usize = 1;
        while k < primes.len()
            invariant
                1 <= k <= primes@.len(),
                i < 648 * dropped.columns,
                dropped.wf(),
                primes@ == dropped.primes@,
                d == dropped.dropped_bits,
                c == dropped.coefficient(i as int),
                f == part_piece(c, primes@, d as nat),
                w.wf(),
                w@ == base + cat::cat(f, k as nat),
            decreases primes@.len() - k,
        {
            let bits: u32 = super::residue_bits(primes[k]);
            w.put(dropped.digits[k - 1][i] as u64, bits);
            proof {
                assert(f(k as int) == bits::bits_of(c[k as int] as nat, bits as nat));
                assert(w@ =~= base + cat::cat(f, (k + 1) as nat));
            }
            k += 1;
        }
        assert(coefficient_piece(*dropped)(i as int) == cat::cat(f, primes@.len()));
        i += 1;
    }
    w.finish()
}

/// Reads the parts of one coefficient.
fn read_coefficient(r: &mut BitReader, primes: &[u16], d: u32) -> (c: Option<Vec<u16>>)
    requires
        old(r).wf(),
        primes@.len() >= 1,
        uniform::sound_primes(primes@),
        1 <= d <= 31,
        old(r).at() + bd::coefficient_width(primes@, d as nat, primes@.len()) <= old(
            r,
        ).stream().len(),
    ensures
        final(r).stream() == old(r).stream(),
        match c {
            Some(c) => {
                &&& final(r).wf()
                &&& final(r).at() == old(r).at() + bd::coefficient_width(
                    primes@,
                    d as nat,
                    primes@.len(),
                )
                &&& parts_ok(c@, primes@, d as nat)
                &&& coefficient_code(c@, primes@, d as nat) == old(r).stream().subrange(
                    old(r).at() as int,
                    final(r).at() as int,
                )
            },
            None => forall|c: Seq<u16>|
                parts_ok(c, primes@, d as nat) ==> #[trigger] coefficient_code(
                    c,
                    primes@,
                    d as nat,
                ) != old(r).stream().subrange(
                    old(r).at() as int,
                    (old(r).at() + bd::coefficient_width(
                        primes@,
                        d as nat,
                        primes@.len(),
                    )) as int,
                ),
        },
{
    let ghost s = r.stream();
    let ghost at = r.at() as int;
    let ghost n = primes@.len();
    let width: u32 = bd::top_bits(primes[0], d);
    let bound: u32 = bd::top_bound(primes[0], d);
    let mut c: Vec<u16> = Vec::with_capacity(primes.len());
    assert(cat::cat(part_piece(c@, primes@, d as nat), 0) =~= s.subrange(at, at));
    let mut k: usize = 0;
    while k < primes.len()
        invariant
            k <= n == primes@.len(),
            uniform::sound_primes(primes@),
            1 <= d <= 31,
            width == bd::width_of(primes@[0] as nat, d as nat),
            width <= 16,
            bound == bd::bound_of(primes@[0] as nat, d as nat),
            bound <= 0xFFFF,
            r.wf(),
            r.stream() == s,
            s == old(r).stream(),
            0 <= at == old(r).at(),
            r.at() == at + bd::coefficient_width(primes@, d as nat, k as nat),
            at + bd::coefficient_width(primes@, d as nat, n) <= s.len(),
            c@.len() == k,
            forall|i: int| 0 <= i < k ==> part_ok(#[trigger] c@[i], primes@, d as nat, i),
            cat::cat(part_piece(c@, primes@, d as nat), k as nat) == s.subrange(
                at,
                r.at() as int,
            ),
        decreases n - k,
    {
        let ghost here = r.at() as int;
        let ghost wide = part_width(primes@, d as nat, k as int);
        let bits: u32 = if k == 0 {
            width
        } else {
            super::residue_bits(primes[k])
        };
        let limit: u64 = if k == 0 {
            bound as u64 + 1
        } else {
            primes[k] as u64
        };
        proof {
            lemma_coefficient_mono(primes@, d as nat, (k + 1) as nat, n);
            reveal_with_fuel(bd::coefficient_width, 2);
        }
        let value: u64 = match r.get(bits) {
            Ok(x) => x,
            Err(_) => {
                return None;
            },
        };
        if value >= limit {
            proof {
                let z = s.subrange(at, at + bd::coefficient_width(primes@, d as nat, n));
                assert forall|c: Seq<u16>| parts_ok(c, primes@, d as nat) implies
                    #[trigger] coefficient_code(c, primes@, d as nat) != z by {
                    if coefficient_code(c, primes@, d as nat) == z {
                        cat::lemma_slice(part_piece(c, primes@, d as nat), n, k as nat);
                        lemma_coefficient_len(c, primes@, d as nat, k as nat);
                        assert(part_ok(c[k as int], primes@, d as nat, k as int));
                        lemma_part(c[k as int], primes@, d as nat, k as int);
                        bits::lemma_of_bits(c[k as int] as nat, wide);
                        assert(z.subrange(here - at, here - at + wide) =~= s.subrange(
                            here,
                            here + wide,
                        ));
                    }
                }
            }
            return None;
        }
        let ghost prior = c@;
        c.push(value as u16);
        proof {
            bits::lemma_bits_of(s.subrange(here, here + wide));
            assert forall|i: int| 0 <= i < k implies #[trigger] part_piece(
                prior,
                primes@,
                d as nat,
            )(i) == part_piece(c@, primes@, d as nat)(i) by {
                assert(prior[i] == c@[i]);
            }
            cat::lemma_same(
                part_piece(prior, primes@, d as nat),
                part_piece(c@, primes@, d as nat),
                k as nat,
            );
            assert(part_piece(c@, primes@, d as nat)(k as int) == s.subrange(here, here + wide));
            assert(s.subrange(at, here) + s.subrange(here, here + wide) =~= s.subrange(
                at,
                here + wide,
            ));
            assert(part_ok(c@[k as int], primes@, d as nat, k as int));
        }
        k += 1;
    }
    Some(c)
}

/// A bit-dropped commitment of the shape `params` asks for, in range.
pub open spec fn fits_params(x: Dropped, params: Params) -> bool {
    &&& x.wf()
    &&& x.in_range()
    &&& x.primes@ == params.prime_list()
    &&& x.columns == pow2(params.column_log_len as nat)
    &&& x.dropped_bits == params.bits()
}

/// The bytes of a bit-dropped commitment of this shape.
pub open spec fn dropped_len(params: Params) -> nat {
    bd::byte_count(
        params.prime_list(),
        pow2(params.column_log_len as nat),
        params.bits() as nat,
    )
}

/// The bytes begin with the code of `x`.
pub open spec fn reads_dropped(bytes: Seq<u8>, x: Dropped) -> bool {
    &&& dropped_code(x).len() <= 8 * bytes.len()
    &&& dropped_code(x) == bits::bit_string(bytes).take(dropped_code(x).len() as int)
}

/// The primes of parameters fit the slots.
pub proof fn lemma_params_primes(params: Params)
    ensures
        uniform::sound_primes(params.prime_list()),
        params.prime_list().len() == 1 + params.extra_moduli@.len(),
{
}

/// The inverse of [`pack_dropped`], against the parameters the verifier holds.
pub fn unpack_dropped(params: &Params, bytes: &[u8]) -> (r: Result<Dropped, WireError>)
    requires
        params.wf(),
        params.bits() <= 31,
        648 * pow2(params.column_log_len as nat) <= usize::MAX,
    ensures
        match r {
            Ok(x) => {
                &&& params.bits() > 0
                &&& bytes@.len() == dropped_len(*params)
                &&& fits_params(x, *params)
                &&& reads_dropped(bytes@, x)
            },
            Err(e) => {
                &&& e == WireError::Malformed
                &&& params.bits() == 0 || bytes@.len() != dropped_len(*params) || forall|x: Dropped|
                    fits_params(x, *params) ==> !(#[trigger] reads_dropped(bytes@, x))
            },
        },
{
    let primes = params.primes();
    let columns: usize = params.columns();
    let d: u32 = params.dropped_bits();
    if d == 0 {
        return Err(WireError::Malformed);
    }
    proof {
        lemma_params_primes(*params);
        params.lemma_few();
    }
    let width: u32 = bd::coefficient_bits(primes.as_slice(), d);
    let ghost w = bd::coefficient_width(primes@, d as nat, primes@.len());
    proof {
        let (c, x) = (columns as int, width as int);
        assert(0 <= c * 648 * x <= 0xFFFF_FFFF_FFFF_FFFF * 648 * 0xFFFF_FFFF) by (nonlinear_arith)
            requires
                0 <= c <= 0xFFFF_FFFF_FFFF_FFFF,
                0 <= x <= 0xFFFF_FFFF,
        ;
        assert(0 <= c * 648 <= 0xFFFF_FFFF_FFFF_FFFF * 648);
    }
    if bytes.len() as u128 != (columns as u128 * 648 * (width as u128) + 7) / 8 {
        return Err(WireError::Malformed);
    }
    let mut r = BitReader::new(bytes);
    let ghost s = bits::bit_string(bytes@);
    let mut x = Dropped::of(primes, columns, d, Vec::new(), Vec::new());
    let mut k: usize = 1;
    while k < x.primes.len()
        invariant
            1 <= k <= x.primes@.len(),
            x.primes@ == params.prime_list(),
            x.columns == columns,
            x.dropped_bits == d,
            x.top@.len() == 0,
            x.digits@.len() == k - 1,
            forall|j: int| 0 <= j < k - 1 ==> (#[trigger] x.digits@[j])@.len() == 0,
        decreases x.primes@.len() - k,
    {
        x.digits.push(Vec::new());
        k += 1;
    }
    let total: usize = columns * 648;
    let mut i: usize = 0;
    proof {
        bits::lemma_bit_string_len(bytes@);
        assert(cat::cat(coefficient_piece(x), 0) =~= s.take(0));
        assert(0 * w == 0);
    }
    while i < total
        invariant
            i <= total == 648 * columns,
            x.primes@ == params.prime_list(),
            uniform::sound_primes(x.primes@),
            x.primes@.len() >= 1,
            x.columns == columns == pow2(params.column_log_len as nat),
            x.dropped_bits == d == params.bits(),
            1 <= d <= 31,
            params.wf(),
            r.wf(),
            r.stream() == s,
            s == bits::bit_string(bytes@),
            s.len() == 8 * bytes@.len(),
            w == bd::coefficient_width(x.primes@, d as nat, x.primes@.len()),
            total * w <= s.len(),
            r.at() == i * w,
            x.top@.len() == i,
            x.digits@.len() == x.primes@.len() - 1,
            forall|j: int| 0 <= j < x.digits@.len() ==> (#[trigger] x.digits@[j])@.len() == i,
            x.in_range(),
            cat::cat(coefficient_piece(x), i as nat) == s.take(i * w),
        decreases total - i,
    {
        let ghost here = i * w;
        proof {
            assert((i + 1) * w == i * w + w && (i + 1) * w <= total * w && 0 <= i * w)
                by (nonlinear_arith)
                requires
                    0 <= i < total,
                    0 <= w,
            ;
        }
        let c: Vec<u16> = match read_coefficient(&mut r, x.primes.as_slice(), d) {
            Some(c) => c,
            None => {
                proof {
                    assert forall|y: Dropped| fits_params(y, *params) implies !(
                    #[trigger] reads_dropped(bytes@, y)) by {
                        if reads_dropped(bytes@, y) {
                            lemma_coefficient_pieces(y);
                            lemma_in_range(y, i as int);
                            cat::lemma_even_slice(
                                coefficient_piece(y),
                                total as nat,
                                w,
                                i as nat,
                            );
                            let z = s.take((total * w) as int);
                            assert(z.subrange(here, here + w) =~= s.subrange(here, here + w));
                            assert(coefficient_code(
                                y.coefficient(i as int),
                                y.primes@,
                                d as nat,
                            ) == s.subrange(here, here + w));
                        }
                    }
                }
                return Err(WireError::Malformed);
            },
        };
        let ghost prior = x;
        x.top.push(c[0]);
        let mut k: usize = 1;
        while k < x.primes.len()
            invariant
                1 <= k <= x.primes@.len(),
                prior.primes@ == x.primes@,
                prior.columns == x.columns,
                prior.dropped_bits == x.dropped_bits,
                c@.len() == x.primes@.len(),
                x.top@ == prior.top@.push(c@[0]),
                x.digits@.len() == prior.digits@.len() == x.primes@.len() - 1,
                forall|j: int|
                    0 <= j < x.digits@.len() ==> (#[trigger] x.digits@[j])@ == (if j < k - 1 {
                        prior.digits@[j]@.push(c@[j + 1])
                    } else {
                        prior.digits@[j]@
                    }),
            decreases x.primes@.len() - k,
        {
            let ghost before = x.digits@;
            x.digits[k - 1].push(c[k]);
            k += 1;
        }
        proof {
            assert forall|j: int| 0 <= j < i implies #[trigger] coefficient_piece(prior)(j)
                == coefficient_piece(x)(j) by {
                assert(prior.coefficient(j) =~= x.coefficient(j));
            }
            cat::lemma_same(coefficient_piece(prior), coefficient_piece(x), i as nat);
            assert(x.coefficient(i as int) =~= c@);
            assert(coefficient_piece(x)(i as int) == s.subrange(here, here + w));
            assert(s.take(here) + s.subrange(here, here + w) =~= s.take(here + w));
            assert forall|j: int| 0 <= j < x.top@.len() implies (#[trigger] x.top@[j])
                <= bd::bound_of(x.primes@[0] as nat, d as nat) by {
                if j == i {
                    assert(part_ok(c@[0], x.primes@, d as nat, 0));
                } else {
                    assert(prior.top@[j] == x.top@[j]);
                }
            }
            assert forall|k: int, j: int|
                0 <= k < x.digits@.len() && 0 <= j < x.digits@[k]@.len() implies (
            #[trigger] x.digits@[k]@[j]) < x.primes@[k + 1] by {
                if j == i {
                    assert(part_ok(c@[k + 1], x.primes@, d as nat, k + 1));
                } else {
                    assert(prior.digits@[k]@[j] == x.digits@[k]@[j]);
                }
            }
        }
        i += 1;
    }
    proof {
        lemma_coefficient_pieces(x);
    }
    Ok(x)
}

/// A packed bit-dropped commitment has the length of its shape and unpacks to the same parts:
/// it reads as itself, and as nothing else of its shape.
pub proof fn dropped_round_trip(params: Params, x: Dropped, y: Dropped)
    requires
        params.bits() <= 31,
        fits_params(x, params),
        fits_params(y, params),
    ensures
        bits::packed(dropped_code(x)).len() == dropped_len(params),
        reads_dropped(bits::packed(dropped_code(x)), x),
        reads_dropped(bits::packed(dropped_code(x)), y) ==> y.top@ == x.top@ && forall|k: int|
            0 <= k < x.digits@.len() ==> (#[trigger] y.digits@[k])@ == x.digits@[k]@,
{
    let b = bits::packed(dropped_code(x));
    lemma_coefficient_pieces(x);
    lemma_coefficient_pieces(y);
    bits::lemma_packed(dropped_code(x));
    let (c, w) = (
        x.columns as int,
        bd::coefficient_width(x.primes@, x.dropped_bits as nat, x.primes@.len()) as int,
    );
    assert((648 * c) * w == c * 648 * w) by (nonlinear_arith);
    if reads_dropped(b, y) {
        dropped_code_injective(y, x);
    }
}

/// Bytes read as one bit-dropped commitment of a shape at most.
pub proof fn lemma_reads_once(params: Params, b: Seq<u8>, x: Dropped, y: Dropped)
    requires
        params.bits() <= 31,
        fits_params(x, params),
        fits_params(y, params),
        reads_dropped(b, x),
        reads_dropped(b, y),
    ensures
        x.top@ == y.top@,
        forall|k: int| 0 <= k < x.digits@.len() ==> (#[trigger] x.digits@[k])@ == y.digits@[k]@,
{
    lemma_coefficient_pieces(x);
    lemma_coefficient_pieces(y);
    dropped_code_injective(x, y);
}

/// The code of a shape is whole bytes, so that bytes of its length that read as `x` are the packed
/// `x`.
pub proof fn lemma_reads_packed(params: Params, b: Seq<u8>, x: Dropped)
    requires
        fits_params(x, params),
        b.len() == dropped_len(params),
        reads_dropped(b, x),
    ensures
        bits::packed(dropped_code(x)) == b,
{
    lemma_coefficient_pieces(x);
    let (c, w) = (
        x.columns as int,
        bd::coefficient_width(x.primes@, x.dropped_bits as nat, x.primes@.len()) as int,
    );
    assert((648 * c) * w == 8 * (81 * (c * w)) && c * 648 * w == 8 * (81 * (c * w)))
        by (nonlinear_arith);
    let s = dropped_code(x);
    assert(s.len() == 8 * b.len());
    bits::lemma_packed(s);
    bits::lemma_bit_string_len(b);
    assert(bits::bit_string(b).take(s.len() as int) =~= bits::bit_string(b));
    assert(bits::bit_string(bits::packed(s)).take(s.len() as int) =~= bits::bit_string(
        bits::packed(s),
    ));
    bits::lemma_bit_string_unique(bits::packed(s), b);
}

} // verus!
