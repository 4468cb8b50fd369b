//! Byte transposes of 64-word tiles, so that a product of bit matrices sees eight different words
//! in each group of eight bytes. The byte order inside a tile is the scramble [`word_at`].
use crate::bytes;
use vstd::prelude::*;

verus! {

/// Where word `w` stands in a transposed tile.
pub open spec fn position(w: int) -> int {
    32 * (w / 2 % 2) + 16 * (w % 2) + w / 4
}

/// The word at byte position `p` of a transposed tile.
pub open spec fn word_of(p: int) -> int {
    2 * (p / 32 % 2) + p / 16 % 2 + 4 * (p % 16)
}

/// The two orders undo each other.
pub proof fn position_of_word(w: int)
    requires
        0 <= w < 64,
    ensures
        0 <= position(w) < 64,
        word_of(position(w)) == w,
        0 <= word_of(w) < 64,
        position(word_of(w)) == w,
{
    let (a, b, c) = (w / 2 % 2, w % 2, w / 4);
    assert(w == 4 * c + 2 * a + b);
    let p = position(w);
    assert(p / 32 == a && p / 16 % 2 == b && p % 16 == c);
    let (d, e, f) = (w / 32 % 2, w / 16 % 2, w % 16);
    assert(w == 32 * d + 16 * e + f);
    let v = word_of(w);
    assert(v / 4 == f && v / 2 % 2 == d && v % 2 == e);
}

/// The word at byte position `p` of a transposed tile.
pub fn word_at(p: usize) -> (w: usize)
    requires
        p < 64,
    ensures
        w == word_of(p as int),
        w < 64,
{
    (p / 32) % 2 * 2 + (p / 16) % 2 + p % 16 * 4
}

/// `out[k][p]` is byte `k` of word `word_at(p)` of the 64 words.
pub fn transpose_tile(words: &[u128; 64]) -> (out: [[u8; 64]; 16])
    ensures
        forall|k: int, p: int|
            0 <= k < 16 && 0 <= p < 64 ==> (#[trigger] out@[k]@[p]) == bytes::le(
                words@[word_of(p)] as nat,
                16,
            )[k],
{
    let mut out: [[u8; 64]; 16] = [[0;64];16];
    let mut p: usize = 0;
    while p < 64
        invariant
            p <= 64,
            forall|k: int, i: int|
                0 <= k < 16 && 0 <= i < p ==> (#[trigger] out@[k]@[i]) == bytes::le(
                    words@[word_of(i)] as nat,
                    16,
                )[k],
        decreases 64 - p,
    {
        let mut b: Vec<u8> = Vec::new();
        let w: u128 = words[word_at(p)];
        bytes::push_le(&mut b, w, 16);
        proof {
            bytes::lemma_le_len(w as nat, 16);
            assert(b@ =~= bytes::le(w as nat, 16));
        }
        let mut k: usize = 0;
        while k < 16
            invariant
                k <= 16,
                p < 64,
                w == words@[word_of(p as int)],
                b@ == bytes::le(w as nat, 16),
                b@.len() == 16,
                forall|t: int, i: int|
                    0 <= t < 16 && 0 <= i < p ==> (#[trigger] out@[t]@[i]) == bytes::le(
                        words@[word_of(i)] as nat,
                        16,
                    )[t],
                forall|t: int| 0 <= t < k ==> (#[trigger] out@[t]@[p as int]) == b@[t],
            decreases 16 - k,
        {
            let mut row = out[k];
            row[p] = b[k];
            out[k] = row;
            k += 1;
        }
        p += 1;
    }
    out
}

/// The eight bytes of word `w` across the planes.
pub open spec fn plane_bytes(planes: Seq<[u8; 64]>, w: int) -> Seq<u8> {
    Seq::new(8, |c: int| planes[c]@[position(w)])
}

/// `planes[c][p]` as byte `c` of word `word_at(p)` becomes byte `c` of `out[g][i]`, word `8 g + i`.
pub fn untranspose_planes(planes: &[[u8; 64]; 8]) -> (out: [[u64; 8]; 8])
    ensures
        forall|g: int, i: int|
            0 <= g < 8 && 0 <= i < 8 ==> (#[trigger] out@[g]@[i]) == bytes::of_le(
                plane_bytes(planes@, 8 * g + i),
            ),
{
    let mut out: [[u64; 8]; 8] = [[0;8];8];
    let mut g: usize = 0;
    while g < 8
        invariant
            g <= 8,
            forall|h: int, i: int|
                0 <= h < g && 0 <= i < 8 ==> (#[trigger] out@[h]@[i]) == bytes::of_le(
                    plane_bytes(planes@, 8 * h + i),
                ),
        decreases 8 - g,
    {
        let mut row: [u64; 8] = [0;8];
        let mut i: usize = 0;
        while i < 8
            invariant
                g < 8,
                i <= 8,
                forall|t: int|
                    0 <= t < i ==> (#[trigger] row@[t]) == bytes::of_le(
                        plane_bytes(planes@, 8 * g + t),
                    ),
            decreases 8 - i,
        {
            let w: usize = 8 * g + i;
            proof {
                position_of_word(w as int);
            }
            let p: usize = (w / 2) % 2 * 32 + w % 2 * 16 + w / 4;
            let b: [u8; 8] = [
                planes[0][p],
                planes[1][p],
                planes[2][p],
                planes[3][p],
                planes[4][p],
                planes[5][p],
                planes[6][p],
                planes[7][p],
            ];
            assert(b@ =~= plane_bytes(planes@, w as int));
            assert(b@.subrange(0, 8) =~= b@);
            row[i] = bytes::read_u64(b.as_slice(), 0);
            i += 1;
        }
        out[g] = row;
        g += 1;
    }
    out
}

proof fn lemma_prefix(x: nat, n: nat, m: nat, k: int)
    requires
        0 <= k < n <= m,
    ensures
        bytes::le(x, n)[k] == bytes::le(x, m)[k],
    decreases n,
{
    bytes::lemma_le_len(x / 256, (n - 1) as nat);
    bytes::lemma_le_len(x / 256, (m - 1) as nat);
    if k > 0 {
        lemma_prefix(x / 256, (n - 1) as nat, (m - 1) as nat, k - 1);
    }
}

proof fn lemma_low(x: nat, n: nat)
    ensures
        bytes::of_le(bytes::le(x, n)) == x as int % bytes::radix(n) as int,
    decreases n,
{
    bytes::lemma_radix_pos(n);
    if n > 0 {
        let m = (n - 1) as nat;
        lemma_low(x / 256, m);
        bytes::lemma_radix_pos(m);
        assert(bytes::le(x, n).skip(1) =~= bytes::le(x / 256, m));
        let r = bytes::radix(m) as int;
        vstd::arithmetic::div_mod::lemma_mod_breakdown(x as int, 256, r);
        assert(256 * r == bytes::radix(n));
    } else {
        vstd::arithmetic::div_mod::lemma_mod_self_0(1);
        assert(x as int % 1 == 0);
    }
}

/// The first eight planes of a transposed tile give the low halves of its words back.
pub proof fn planes_give_words(words: Seq<u128>, planes: Seq<[u8; 64]>, w: int)
    requires
        words.len() == 64,
        0 <= w < 64,
        forall|k: int, p: int|
            0 <= k < 8 && 0 <= p < 64 ==> (#[trigger] planes[k]@[p]) == bytes::le(
                words[word_of(p)] as nat,
                16,
            )[k],
    ensures
        bytes::of_le(plane_bytes(planes, w)) == words[w] as int % 0x1_0000_0000_0000_0000,
{
    position_of_word(w);
    let x = words[w] as nat;
    bytes::lemma_le_len(x, 8);
    assert forall|k: int| 0 <= k < 8 implies #[trigger] plane_bytes(planes, w)[k] == bytes::le(
        x,
        8,
    )[k] by {
        assert(planes[k]@[position(w)] == bytes::le(words[word_of(position(w))] as nat, 16)[k]);
        lemma_prefix(x, 8, 16, k);
    }
    assert(plane_bytes(planes, w) =~= bytes::le(x, 8));
    lemma_low(x, 8);
    bytes::lemma_radix_values();
}

} // verus!
