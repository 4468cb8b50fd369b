//! The order of the slots: which exponent a slot of `R_648` has, and which class a slot of `R_162`.
use crate::ntt::tree;
use vstd::prelude::*;

verus! {

/// The base-3 digits of `x < 81`, reversed.
#[verifier::opaque]
pub open spec fn reversed(x: int) -> int {
    x / 27 + 3 * (x / 9 % 3) + 9 * (x / 3 % 3) + 27 * (x % 3)
}

/// Four base-3 digits.
proof fn lemma_digits(a: int, b: int, c: int, d: int)
    requires
        0 <= a < 3,
        0 <= b < 3,
        0 <= c < 3,
        0 <= d < 3,
    ensures
        ({
            let y = a + 3 * b + 9 * c + 27 * d;
            y / 27 == d && y / 9 % 3 == c && y / 3 % 3 == b && y % 3 == a && 0 <= y < 81
        }),
{
    let y = a + 3 * b + 9 * c + 27 * d;
    assert(y / 3 == b + 3 * c + 9 * d);
    assert(y / 9 == c + 3 * d);
}

pub proof fn lemma_reversed(x: int)
    requires
        0 <= x < 81,
    ensures
        0 <= reversed(x) < 81,
        reversed(reversed(x)) == x,
{
    reveal(reversed);
    let (a, b, c, d) = (x / 27, x / 9 % 3, x / 3 % 3, x % 3);
    assert(x / 3 == c + 3 * (x / 9));
    assert(x / 9 == b + 3 * a);
    lemma_digits(a, b, c, d);
}

/// The exponent of slot `j` of a splitting limb.
pub open spec fn slot_exponent(j: int) -> int {
    1 + 4 * (j / 324) + 6 * (j / 162 % 2) + 12 * (j / 81 % 2) + 24 * reversed(j % 81)
}

/// The exponent of leaf `j` of a quadratic-slot limb.
pub open spec fn leaf_exponent(j: int) -> int {
    1 + 4 * (j / 162) + 6 * (j / 81 % 2) + 24 * reversed(j % 81)
}

/// The four radix-3 levels.
proof fn lemma_place81(split: bool, j: int)
    requires
        0 <= j,
    ensures
        tree::place(split, 1, j) == tree::place(split, 81, j / 81) + 24 * reversed(j % 81),
{
    reveal(reversed);
    assert(1944int / 3 == 648 && 1944int / 9 == 216 && 1944int / 27 == 72 && 1944int / 81 == 24);
    let (a, b, c) = (j / 3, j / 9, j / 27);
    assert(a / 3 == b && b / 3 == c && c / 3 == j / 81);
    assert(tree::place(split, 1, j) == tree::place(split, 3, a) + (j % 3) * 648);
    assert(tree::place(split, 3, a) == tree::place(split, 9, b) + (a % 3) * 216);
    assert(tree::place(split, 9, b) == tree::place(split, 27, c) + (b % 3) * 72);
    assert(tree::place(split, 27, c) == tree::place(split, 81, j / 81) + (c % 3) * 24);
    let x = j % 81;
    assert(x % 3 == j % 3 && x / 3 % 3 == a % 3 && x / 9 % 3 == b % 3 && x / 27 == c % 3);
}

/// The exponent of a slot, digit by digit.
pub proof fn lemma_slot_exponent(j: int)
    requires
        0 <= j < 648,
    ensures
        tree::place(true, 1, j) == slot_exponent(j),
{
    lemma_place81(true, j);
    assert(1944int / 162 == 12 && 1944int / 324 == 6);
    let k = j / 81;
    assert(tree::place(true, 81, k) == tree::place(true, 162, k / 2) + (k % 2) * 12);
    assert(tree::place(true, 162, k / 2) == tree::place(true, 324, k / 2 / 2) + (k / 2 % 2) * 6);
    assert(k / 2 == j / 162 && k / 2 / 2 == j / 324);
}

/// The exponent of a leaf, digit by digit.
pub proof fn lemma_leaf_exponent(j: int)
    requires
        0 <= j < 324,
    ensures
        tree::place(false, 1, j) == leaf_exponent(j),
{
    lemma_place81(false, j);
    let k = j / 81;
    assert(tree::place(false, 81, k) == tree::place(false, 162, k / 2) + (k % 2) * 6);
    assert(k / 2 == j / 162);
}

/// The slot with exponent `u`, for `u` prime to 6.
pub open spec fn slot_of(u: int) -> int {
    let b = if u % 6 == 1 {
        0int
    } else {
        1
    };
    let x = (u - 1 - 4 * b) / 6;
    324 * b + 162 * (x % 2) + 81 * (x / 2 % 2) + reversed(x / 4)
}

pub proof fn lemma_slot_of(u: int)
    requires
        0 <= u < 1944,
        u % 6 == 1 || u % 6 == 5,
    ensures
        0 <= slot_of(u) < 648,
        slot_exponent(slot_of(u)) == u,
{
    let b = if u % 6 == 1 {
        0int
    } else {
        1
    };
    let x = (u - 1 - 4 * b) / 6;
    assert(u == 1 + 4 * b + 6 * x);
    assert(0 <= x < 324);
    let (b1, b2, d) = (x % 2, x / 2 % 2, x / 4);
    assert(x == b1 + 2 * b2 + 4 * d);
    lemma_reversed(d);
    let j = slot_of(u);
    let r = reversed(d);
    assert(j == 324 * b + 162 * b1 + 81 * b2 + r);
    assert(j / 324 == b && j / 162 % 2 == b1 && j / 81 % 2 == b2 && j % 81 == r);
}

/// `slot_of` in executable form.
pub fn slot_index(u: usize) -> (j: usize)
    requires
        u < 1944,
        u % 6 == 1 || u % 6 == 5,
    ensures
        j == slot_of(u as int),
        j < 648,
{
    proof {
        lemma_slot_of(u as int);
    }
    let b: usize = if u % 6 == 1 {
        0
    } else {
        1
    };
    let x: usize = (u - 1 - 4 * b) / 6;
    324 * b + 162 * (x % 2) + 81 * (x / 2 % 2) + reverse(x / 4)
}

/// The base-3 digits of `x < 81`, reversed.
pub fn reverse(x: usize) -> (r: usize)
    requires
        x < 81,
    ensures
        r == reversed(x as int),
        r < 81,
{
    proof {
        lemma_reversed(x as int);
        reveal(reversed);
    }
    x / 27 + 3 * (x / 9 % 3) + 9 * (x / 3 % 3) + 27 * (x % 3)
}

/// The class of slot `s` of `R_162`: the slots of `R_648` whose exponents are `class(s)` modulo 486
/// are those its value is read from. The classes come in the order in which they first appear
/// along the slots of `R_648`.
pub open spec fn class(s: int) -> int {
    (1 + 4 * (s / 81) + 24 * reversed(s % 81)) % 486
}

pub proof fn lemma_class(s: int)
    requires
        0 <= s < 162,
    ensures
        1 <= class(s) < 486,
        class(s) % 6 == 1 || class(s) % 6 == 5,
{
    lemma_reversed(s % 81);
    let u = 1 + 4 * (s / 81) + 24 * reversed(s % 81);
    let c = u % 486;
    assert(c % 6 == u % 6);
    assert(u % 6 == (1 + 4 * (s / 81)) % 6);
}

/// The class of slot `s`.
pub fn class_of(s: usize) -> (v: u64)
    requires
        s < 162,
    ensures
        v == class(s as int),
        v < 486,
{
    (1 + 4 * (s / 81) as u64 + 24 * reverse(s % 81) as u64) % 486
}

/// The classes of all slots of `R_162`.
pub fn pow3_slot_exp() -> (r: [u16; 162])
    ensures
        forall|s: int| 0 <= s < 162 ==> (#[trigger] r@[s]) == class(s),
{
    let mut r: [u16; 162] = [0;162];
    let mut s: usize = 0;
    while s < 162
        invariant
            s <= 162,
            forall|i: int| 0 <= i < s ==> (#[trigger] r@[i]) == class(i),
        decreases 162 - s,
    {
        r[s] = class_of(s) as u16;
        s += 1;
    }
    r
}

/// The first slot of `R_648` in the class of slot `s`, and that the classes come in the order of
/// their first slots: the slots `0 .. 81` and `324 .. 405`.
pub proof fn class_order(s: int)
    requires
        0 <= s < 162,
    ensures
        slot_exponent(s + 243 * (s / 81)) % 486 == class(s),
        forall|j: int|
            0 <= j < 648 && #[trigger] slot_exponent(j) % 486 == class(s) ==> s + 243 * (s / 81)
                <= j,
{
    let j0 = s + 243 * (s / 81);
    assert(j0 / 324 == s / 81 && j0 / 162 % 2 == 0 && j0 / 81 % 2 == 0 && j0 % 81 == s % 81);
    lemma_reversed(s % 81);
    assert forall|j: int|
        0 <= j < 648 && #[trigger] slot_exponent(j) % 486 == class(s) implies j0 <= j by {
        lemma_first_slot(s, j);
    }
}

/// A number and its remainder by 486 leave the same remainder by 6.
proof fn lemma_six(u: int)
    ensures
        u % 486 % 6 == u % 6,
{
    let k = u / 486;
    assert(u == 486 * k + u % 486);
    assert(u % 6 == (6 * (81 * k) + u % 486) % 6);
}

proof fn lemma_first_slot(s: int, j: int)
    requires
        0 <= s < 162,
        0 <= j < 648,
        slot_exponent(j) % 486 == class(s),
    ensures
        s + 243 * (s / 81) <= j,
{
    let (b, c, d, x) = (j / 324, j / 162 % 2, j / 81 % 2, j % 81);
    let (b0, y) = (s / 81, s % 81);
    let (r, t) = (reversed(x), reversed(y));
    lemma_reversed(x);
    lemma_reversed(y);
    let u = 1 + 4 * b + 6 * c + 12 * d + 24 * r;
    let w = 1 + 4 * b0 + 24 * t;
    lemma_six(u);
    lemma_six(w);
    assert(u % 6 == (1 + 4 * b) % 6);
    assert(w % 6 == (1 + 4 * b0) % 6);
    assert(b == b0);
    assert(j / 81 == 4 * b + 2 * c + d);
    assert(j == 81 * (4 * b + 2 * c + d) + x);
    assert(s == 81 * b0 + y);
    if c == 0 && d == 0 {
        lemma_class_digit(r, t, 1 + 4 * b);
        assert(x == y);
    }
}

proof fn lemma_class_digit(r: int, t: int, e: int)
    requires
        0 <= r < 81,
        0 <= t < 81,
        (e + 24 * r) % 486 == (e + 24 * t) % 486,
    ensures
        r == t,
{
    let (a, b) = ((e + 24 * r) / 486, (e + 24 * t) / 486);
    assert(24 * (r - t) == 486 * (a - b));
    assert(4 * (r - t) == 81 * (a - b));
}

/// The leaf of a quadratic-slot limb with exponent `class(s)` modulo 972, or that plus 486.
pub open spec fn leaf_of(s: int, plus: bool) -> int {
    let (b, d) = (s / 81, reversed(s % 81));
    let u = 1 + 4 * b + 24 * d;
    if (u % 972 < 486) == plus {
        162 * b + s % 81
    } else {
        162 * b + 81 + reversed((d + 20) % 81)
    }
}

pub proof fn lemma_leaf_of(s: int, plus: bool)
    requires
        0 <= s < 162,
    ensures
        0 <= leaf_of(s, plus) < 324,
        leaf_exponent(leaf_of(s, plus)) % 972 == class(s) + (if plus {
            0int
        } else {
            486
        }),
        0 <= leaf_exponent(leaf_of(s, plus)) < 1944,
{
    let (b, d) = (s / 81, reversed(s % 81));
    let u = 1 + 4 * b + 24 * d;
    lemma_reversed(s % 81);
    let e = (d + 20) % 81;
    lemma_reversed(e);
    let j = leaf_of(s, plus);
    lemma_nine(u);
    if (u % 972 < 486) == plus {
        lemma_leaf_index(b, 0, s % 81);
    } else {
        let r = reversed(e);
        lemma_leaf_index(b, 1, r);
        assert(leaf_exponent(j) == 1 + 4 * b + 6 + 24 * e);
        if d + 20 < 81 {
            assert(leaf_exponent(j) == u + 486);
            lemma_opposite(u);
        } else {
            assert(leaf_exponent(j) == u + 486 - 1944);
            lemma_opposite(u);
            vstd::arithmetic::div_mod::lemma_mod_multiples_vanish(-2, u + 486, 972);
        }
    }
}

proof fn lemma_leaf_index(b: int, c: int, x: int)
    requires
        0 <= b,
        0 <= c < 2,
        0 <= x < 81,
    ensures
        ({
            let j = 162 * b + 81 * c + x;
            j / 162 == b && j / 81 % 2 == c && j % 81 == x
        }),
{
    let j = 162 * b + 81 * c + x;
    assert(j / 81 == 2 * b + c);
}

/// The remainders by 972 and by 486.
proof fn lemma_nine(u: int)
    ensures
        u % 972 == u % 486 || u % 972 == u % 486 + 486,
{
    let k = u / 972;
    let r = u % 972;
    assert(u == 486 * (2 * k) + r);
    if r < 486 {
        assert(u % 486 == r);
    } else {
        assert(u == 486 * (2 * k + 1) + (r - 486));
        assert(u % 486 == r - 486);
    }
}

proof fn lemma_opposite(u: int)
    ensures
        u % 972 == u % 486 ==> (u + 486) % 972 == u % 486 + 486,
        u % 972 == u % 486 + 486 ==> (u + 486) % 972 == u % 486,
{
    let k = u / 972;
    let r = u % 972;
    assert(u == 972 * k + r);
    if r < 486 {
        assert((u + 486) % 972 == r + 486);
    } else {
        assert(u + 486 == 972 * (k + 1) + (r - 486));
        assert((u + 486) % 972 == r - 486);
    }
}

/// `leaf_of` in executable form.
pub fn leaf_index(s: usize, plus: bool) -> (j: usize)
    requires
        s < 162,
    ensures
        j == leaf_of(s as int, plus),
        j < 324,
{
    proof {
        lemma_leaf_of(s as int, plus);
    }
    let b: usize = s / 81;
    let d: usize = reverse(s % 81);
    let u: usize = 1 + 4 * b + 24 * d;
    if (u % 972 < 486) == plus {
        162 * b + s % 81
    } else {
        162 * b + 81 + reverse((d + 20) % 81)
    }
}

} // verus!
