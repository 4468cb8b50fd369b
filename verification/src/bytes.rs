//! Little-endian integers in byte strings.
use vstd::prelude::*;

verus! {

/// The `n` low bytes of `x`, the least significant first.
pub open spec fn le(x: nat, n: nat) -> Seq<u8>
    decreases n,
{
    if n == 0 {
        Seq::empty()
    } else {
        seq![(x % 256) as u8] + le(x / 256, (n - 1) as nat)
    }
}

/// The integer whose bytes are `b`, the least significant first.
pub open spec fn of_le(b: Seq<u8>) -> nat
    decreases b.len(),
{
    if b.len() == 0 {
        0
    } else {
        b[0] as nat + 256 * of_le(b.skip(1))
    }
}

/// `256^n`.
pub open spec fn radix(n: nat) -> nat
    decreases n,
{
    if n == 0 {
        1
    } else {
        256 * radix((n - 1) as nat)
    }
}

pub proof fn lemma_le_len(x: nat, n: nat)
    ensures
        le(x, n).len() == n,
    decreases n,
{
    if n > 0 {
        lemma_le_len(x / 256, (n - 1) as nat);
    }
}

/// The bytes of an integer read back as the integer.
pub proof fn lemma_of_le_le(x: nat, n: nat)
    requires
        x < radix(n),
    ensures
        of_le(le(x, n)) == x,
    decreases n,
{
    if n > 0 {
        let m = (n - 1) as nat;
        assert(x / 256 < radix(m));
        lemma_of_le_le(x / 256, m);
        assert(le(x, n).skip(1) =~= le(x / 256, m));
    }
}

/// A byte string is the bytes of the integer it reads as.
pub proof fn lemma_le_of_le(b: Seq<u8>)
    ensures
        le(of_le(b), b.len()) == b,
        of_le(b) < radix(b.len()),
    decreases b.len(),
{
    if b.len() > 0 {
        let r = b.skip(1);
        lemma_le_of_le(r);
        let x = of_le(b);
        assert(x % 256 == b[0] as nat && x / 256 == of_le(r));
        assert(seq![b[0]] + r =~= b);
    } else {
        assert(le(0, 0) =~= b);
    }
}

proof fn lemma_le_step(x: nat, n: nat, i: nat)
    requires
        i < n,
    ensures
        le(x, n).len() == n,
        le(x, n).take(i as int + 1) == le(x, n).take(i as int).push(le(x, n)[i as int]),
{
    lemma_le_len(x, n);
    assert(le(x, n).take(i as int + 1) =~= le(x, n).take(i as int).push(le(x, n)[i as int]));
}

proof fn lemma_le_index(x: nat, n: nat, i: nat)
    requires
        i < n,
    ensures
        le(x, n)[i as int] == (x / radix(i)) % 256,
    decreases i,
{
    lemma_le_len(x, n);
    if i == 0 {
        assert(radix(0) == 1 && x / 1 == x);
    } else {
        let m = (n - 1) as nat;
        let j = (i - 1) as nat;
        lemma_le_len(x / 256, m);
        lemma_le_index(x / 256, m, j);
        assert(le(x, n)[i as int] == le(x / 256, m)[j as int]);
        lemma_radix_pos(j);
        vstd::arithmetic::div_mod::lemma_div_denominator(x as int, 256, radix(j) as int);
    }
}

pub proof fn lemma_radix_pos(n: nat)
    ensures
        radix(n) > 0,
    decreases n,
{
    if n > 0 {
        lemma_radix_pos((n - 1) as nat);
    }
}

/// The values of `256^n` that the integer types need.
pub proof fn lemma_radix_values()
    ensures
        radix(1) == 0x100,
        radix(2) == 0x1_0000,
        radix(4) == 0x1_0000_0000,
        radix(8) == 0x1_0000_0000_0000_0000,
        radix(16) == 0x1_0000_0000_0000_0000_0000_0000_0000_0000,
{
    reveal_with_fuel(radix, 17);
}

/// Append the `n` low bytes of `x`.
pub fn push_le(out: &mut Vec<u8>, x: u128, n: usize)
    requires
        n <= 16,
    ensures
        final(out)@ == old(out)@ + le(x as nat, n as nat),
{
    let ghost start = out@;
    let ghost all = le(x as nat, n as nat);
    let mut y: u128 = x;
    let mut i: usize = 0;
    proof {
        lemma_le_len(x as nat, n as nat);
        assert(start + all.take(0) =~= start);
        assert(radix(0) == 1 && x as nat / 1 == x);
    }
    while i < n
        invariant
            i <= n <= 16,
            all == le(x as nat, n as nat),
            all.len() == n,
            y == x as nat / radix(i as nat),
            out@ == start + all.take(i as int),
        decreases n - i,
    {
        proof {
            lemma_le_index(x as nat, n as nat, i as nat);
            lemma_le_step(x as nat, n as nat, i as nat);
            lemma_radix_pos(i as nat);
            vstd::arithmetic::div_mod::lemma_div_denominator(x as int, radix(i as nat) as int, 256);
        }
        out.push((y % 256) as u8);
        y = y / 256;
        i += 1;
        assert(out@ =~= start + all.take(i as int));
    }
    assert(all.take(n as int) =~= all);
}

/// The integer whose `n` bytes start at `o`.
pub fn read_le(b: &[u8], o: usize, n: usize) -> (x: u128)
    requires
        n <= 16,
        o + n <= b@.len(),
    ensures
        x == of_le(b@.subrange(o as int, o + n)),
        x < radix(n as nat),
{
    let mut x: u128 = 0;
    let mut i: usize = n;
    let len: usize = b.len();
    proof {
        lemma_radix_values();
        assert(b@.subrange(o + n, o + n).len() == 0);
        lemma_le_of_le(b@.subrange(o as int, o + n));
    }
    while i > 0
        invariant
            i <= n <= 16,
            o + n <= b@.len() == len,
            x == of_le(b@.subrange(o + i, o + n)),
            x < radix((n - i) as nat),
        decreases i,
    {
        i -= 1;
        proof {
            let s = b@.subrange(o + i, o + n);
            assert(s.skip(1) =~= b@.subrange(o + i + 1, o + n));
            assert(s[0] == b@[o + i]);
            assert(radix((n - i) as nat) == 256 * radix((n - i - 1) as nat));
            lemma_radix_values();
            lemma_radix_mono((n - i) as nat, 16);
        }
        x = x * 256 + b[o + i] as u128;
    }
    x
}

proof fn lemma_radix_mono(a: nat, b: nat)
    requires
        a <= b,
    ensures
        radix(a) <= radix(b),
    decreases b,
{
    if a < b {
        lemma_radix_mono(a, (b - 1) as nat);
        lemma_radix_pos((b - 1) as nat);
    }
}

/// The `u64` at byte `o`.
pub fn read_u64(b: &[u8], o: usize) -> (x: u64)
    requires
        o + 8 <= b@.len(),
    ensures
        x == of_le(b@.subrange(o as int, o + 8)),
{
    proof {
        lemma_radix_values();
    }
    read_le(b, o, 8) as u64
}

} // verus!
