//! The primes of the limbs and their roots of unity.
use crate::modular;
use crate::modular::same;
use crate::ntt::tree;
use crate::ntt::tree::Tree;
use crate::ring;
use vstd::arithmetic::power::*;
use vstd::prelude::*;

verus! {

/// The primes that split `X^648 - X^324 + 1` into 648 linear factors.
pub open spec fn splitting(q: u16) -> bool {
    q == 3889 || q == 9721 || q == 17497 || q == 19441
}

/// A prime of a limb.
pub open spec fn limb_prime(q: u16) -> bool {
    splitting(q) || ring::quadratic(q)
}

/// The root of unity of a limb: of order 1944 for a splitting prime, of order 972 for a
/// quadratic-slot one.
pub open spec fn psi_of(q: u16) -> u64 {
    match q {
        3889 => 121,
        9721 => 7086,
        17497 => 10958,
        19441 => 8488,
        2917 => 125,
        4861 => 638,
        12637 => 8192,
        _ => 1,
    }
}

/// The tree of a limb.
pub open spec fn tree_of(q: u16) -> Tree {
    Tree { q: q as u64, psi: psi_of(q), split: splitting(q) }
}

proof fn lemma_join(x: int, e: nat, f: nat, r: int, s: int, q: int)
    requires
        q > 0,
        pow(x, e) % q == r,
        pow(x, f) % q == s,
    ensures
        pow(x, e + f) % q == r * s % q,
{
    lemma_pow_adds(x, e, f);
    modular::lemma_reduced(pow(x, e), q);
    modular::lemma_reduced(pow(x, f), q);
    modular::lemma_mul(pow(x, e), pow(x, f), r, s, q);
}

/// What a root of unity needs, from its powers.
proof fn lemma_tree(t: Tree, z: int, w: int)
    requires
        2917 <= t.q <= 19441,
        t.q as int % 6 == 1,
        t.psi < t.q,
        pow(t.psi as int, tree::order(t.split)) % (t.q as int) == 1,
        pow(t.psi as int, tree::order(t.split) / 2) % (t.q as int) == t.q - 1,
        pow(t.psi as int, tree::top(t.split) as nat) % (t.q as int) == z,
        pow(t.psi as int, 648) % (t.q as int) == w,
        (z * z - z + 1) % (t.q as int) == 0,
        (w * w + w + 1) % (t.q as int) == 0,
    ensures
        t.wf(),
{
    let q = t.q as int;
    let (zz, ww) = (pow(t.psi as int, tree::top(t.split) as nat), pow(t.psi as int, 648));
    modular::lemma_reduced(zz, q);
    modular::lemma_reduced(ww, q);
    modular::lemma_mul(zz, zz, z, z, q);
    modular::lemma_sub(zz * zz, zz, z * z, z, q);
    modular::lemma_add(zz * zz - zz, 1, z * z - z, 1, q);
    modular::lemma_mul(ww, ww, w, w, q);
    modular::lemma_add(ww * ww, ww, w * w, w, q);
    modular::lemma_add(ww * ww + ww, 1, w * w + w, 1, q);
    vstd::arithmetic::div_mod::lemma_small_mod(1, q as nat);
    vstd::arithmetic::div_mod::lemma_small_mod(0, q as nat);
    vstd::arithmetic::div_mod::lemma_small_mod((q - 1) as nat, q as nat);
    modular::lemma_multiple(-1, 1, q);
    assert(same(q - 1, -1, q));
    modular::lemma_reduced(pow(t.psi as int, tree::order(t.split) / 2), q);
}

proof fn lemma_3889()
    ensures
        tree_of(3889).wf(),
{
    let x = 121int;
    lemma_pow1(x);
    assert(pow(x, 1) % 3889 == 121);
    lemma_join(x, 1, 1, 121, 121, 3889);
    assert(121int * 121 % 3889 == 2974);
    lemma_join(x, 2, 2, 2974, 2974, 3889);
    assert(2974int * 2974 % 3889 == 1090);
    lemma_join(x, 4, 1, 1090, 121, 3889);
    assert(1090int * 121 % 3889 == 3553);
    lemma_join(x, 5, 5, 3553, 3553, 3889);
    assert(3553int * 3553 % 3889 == 115);
    lemma_join(x, 10, 10, 115, 115, 3889);
    assert(115int * 115 % 3889 == 1558);
    lemma_join(x, 20, 20, 1558, 1558, 3889);
    assert(1558int * 1558 % 3889 == 628);
    lemma_join(x, 40, 40, 628, 628, 3889);
    assert(628int * 628 % 3889 == 1595);
    lemma_join(x, 80, 1, 1595, 121, 3889);
    assert(1595int * 121 % 3889 == 2434);
    lemma_join(x, 81, 81, 2434, 2434, 3889);
    assert(2434int * 2434 % 3889 == 1409);
    lemma_join(x, 162, 162, 1409, 1409, 3889);
    assert(1409int * 1409 % 3889 == 1891);
    lemma_join(x, 324, 324, 1891, 1891, 3889);
    assert(1891int * 1891 % 3889 == 1890);
    lemma_join(x, 648, 324, 1890, 1891, 3889);
    assert(1890int * 1891 % 3889 == 3888);
    lemma_join(x, 972, 972, 3888, 3888, 3889);
    assert(3888int * 3888 % 3889 == 1);
    lemma_tree(tree_of(3889), 1891, 1890);
}

proof fn lemma_9721()
    ensures
        tree_of(9721).wf(),
{
    let x = 7086int;
    lemma_pow1(x);
    assert(pow(x, 1) % 9721 == 7086);
    lemma_join(x, 1, 1, 7086, 7086, 9721);
    assert(7086int * 7086 % 9721 == 2431);
    lemma_join(x, 2, 2, 2431, 2431, 9721);
    assert(2431int * 2431 % 9721 == 9114);
    lemma_join(x, 4, 1, 9114, 7086, 9721);
    assert(9114int * 7086 % 9721 == 5201);
    lemma_join(x, 5, 5, 5201, 5201, 9721);
    assert(5201int * 5201 % 9721 == 6579);
    lemma_join(x, 10, 10, 6579, 6579, 9721);
    assert(6579int * 6579 % 9721 == 5349);
    lemma_join(x, 20, 20, 5349, 5349, 9721);
    assert(5349int * 5349 % 9721 == 2898);
    lemma_join(x, 40, 40, 2898, 2898, 9721);
    assert(2898int * 2898 % 9721 == 9181);
    lemma_join(x, 80, 1, 9181, 7086, 9721);
    assert(9181int * 7086 % 9721 == 3634);
    lemma_join(x, 81, 81, 3634, 3634, 9721);
    assert(3634int * 3634 % 9721 == 4838);
    lemma_join(x, 162, 162, 4838, 4838, 9721);
    assert(4838int * 4838 % 9721 == 7797);
    lemma_join(x, 324, 324, 7797, 7797, 9721);
    assert(7797int * 7797 % 9721 == 7796);
    lemma_join(x, 648, 324, 7796, 7797, 9721);
    assert(7796int * 7797 % 9721 == 9720);
    lemma_join(x, 972, 972, 9720, 9720, 9721);
    assert(9720int * 9720 % 9721 == 1);
    lemma_tree(tree_of(9721), 7797, 7796);
}

proof fn lemma_17497()
    ensures
        tree_of(17497).wf(),
{
    let x = 10958int;
    lemma_pow1(x);
    assert(pow(x, 1) % 17497 == 10958);
    lemma_join(x, 1, 1, 10958, 10958, 17497);
    assert(10958int * 10958 % 17497 == 13350);
    lemma_join(x, 2, 2, 13350, 13350, 17497);
    assert(13350int * 13350 % 17497 == 15555);
    lemma_join(x, 4, 1, 15555, 10958, 17497);
    assert(15555int * 10958 % 17497 == 13413);
    lemma_join(x, 5, 5, 13413, 13413, 17497);
    assert(13413int * 13413 % 17497 == 4415);
    lemma_join(x, 10, 10, 4415, 4415, 17497);
    assert(4415int * 4415 % 17497 == 567);
    lemma_join(x, 20, 20, 567, 567, 17497);
    assert(567int * 567 % 17497 == 6543);
    lemma_join(x, 40, 40, 6543, 6543, 17497);
    assert(6543int * 6543 % 17497 == 13187);
    lemma_join(x, 80, 1, 13187, 10958, 17497);
    assert(13187int * 10958 % 17497 == 12920);
    lemma_join(x, 81, 81, 12920, 12920, 17497);
    assert(12920int * 12920 % 17497 == 5020);
    lemma_join(x, 162, 162, 5020, 5020, 17497);
    assert(5020int * 5020 % 17497 == 4720);
    lemma_join(x, 324, 324, 4720, 4720, 17497);
    assert(4720int * 4720 % 17497 == 4719);
    lemma_join(x, 648, 324, 4719, 4720, 17497);
    assert(4719int * 4720 % 17497 == 17496);
    lemma_join(x, 972, 972, 17496, 17496, 17497);
    assert(17496int * 17496 % 17497 == 1);
    lemma_tree(tree_of(17497), 4720, 4719);
}

proof fn lemma_19441()
    ensures
        tree_of(19441).wf(),
{
    let x = 8488int;
    lemma_pow1(x);
    assert(pow(x, 1) % 19441 == 8488);
    lemma_join(x, 1, 1, 8488, 8488, 19441);
    assert(8488int * 8488 % 19441 == 17239);
    lemma_join(x, 2, 2, 17239, 17239, 19441);
    assert(17239int * 17239 % 19441 == 7995);
    lemma_join(x, 4, 1, 7995, 8488, 19441);
    assert(7995int * 8488 % 19441 == 12470);
    lemma_join(x, 5, 5, 12470, 12470, 19441);
    assert(12470int * 12470 % 19441 == 11782);
    lemma_join(x, 10, 10, 11782, 11782, 19441);
    assert(11782int * 11782 % 19441 == 6784);
    lemma_join(x, 20, 20, 6784, 6784, 19441);
    assert(6784int * 6784 % 19441 == 5809);
    lemma_join(x, 40, 40, 5809, 5809, 19441);
    assert(5809int * 5809 % 19441 == 14346);
    lemma_join(x, 80, 1, 14346, 8488, 19441);
    assert(14346int * 8488 % 19441 == 9865);
    lemma_join(x, 81, 81, 9865, 9865, 19441);
    assert(9865int * 9865 % 19441 == 16020);
    lemma_join(x, 162, 162, 16020, 16020, 19441);
    assert(16020int * 16020 % 19441 == 19200);
    lemma_join(x, 324, 324, 19200, 19200, 19441);
    assert(19200int * 19200 % 19441 == 19199);
    lemma_join(x, 648, 324, 19199, 19200, 19441);
    assert(19199int * 19200 % 19441 == 19440);
    lemma_join(x, 972, 972, 19440, 19440, 19441);
    assert(19440int * 19440 % 19441 == 1);
    lemma_tree(tree_of(19441), 19200, 19199);
}

proof fn lemma_2917()
    ensures
        tree_of(2917).wf(),
{
    let x = 125int;
    lemma_pow1(x);
    assert(pow(x, 1) % 2917 == 125);
    lemma_join(x, 1, 1, 125, 125, 2917);
    assert(125int * 125 % 2917 == 1040);
    lemma_join(x, 2, 2, 1040, 1040, 2917);
    assert(1040int * 1040 % 2917 == 2310);
    lemma_join(x, 4, 1, 2310, 125, 2917);
    assert(2310int * 125 % 2917 == 2884);
    lemma_join(x, 5, 5, 2884, 2884, 2917);
    assert(2884int * 2884 % 2917 == 1089);
    lemma_join(x, 10, 10, 1089, 1089, 2917);
    assert(1089int * 1089 % 2917 == 1619);
    lemma_join(x, 20, 20, 1619, 1619, 2917);
    assert(1619int * 1619 % 2917 == 1695);
    lemma_join(x, 40, 40, 1695, 1695, 2917);
    assert(1695int * 1695 % 2917 == 2697);
    lemma_join(x, 80, 1, 2697, 125, 2917);
    assert(2697int * 125 % 2917 == 1670);
    lemma_join(x, 81, 81, 1670, 1670, 2917);
    assert(1670int * 1670 % 2917 == 248);
    lemma_join(x, 162, 162, 248, 248, 2917);
    assert(248int * 248 % 2917 == 247);
    lemma_join(x, 324, 324, 247, 247, 2917);
    assert(247int * 247 % 2917 == 2669);
    lemma_join(x, 324, 162, 247, 248, 2917);
    assert(247int * 248 % 2917 == 2916);
    lemma_join(x, 486, 486, 2916, 2916, 2917);
    assert(2916int * 2916 % 2917 == 1);
    lemma_tree(tree_of(2917), 248, 2669);
}

proof fn lemma_4861()
    ensures
        tree_of(4861).wf(),
{
    let x = 638int;
    lemma_pow1(x);
    assert(pow(x, 1) % 4861 == 638);
    lemma_join(x, 1, 1, 638, 638, 4861);
    assert(638int * 638 % 4861 == 3581);
    lemma_join(x, 2, 2, 3581, 3581, 4861);
    assert(3581int * 3581 % 4861 == 243);
    lemma_join(x, 4, 1, 243, 638, 4861);
    assert(243int * 638 % 4861 == 4343);
    lemma_join(x, 5, 5, 4343, 4343, 4861);
    assert(4343int * 4343 % 4861 == 969);
    lemma_join(x, 10, 10, 969, 969, 4861);
    assert(969int * 969 % 4861 == 788);
    lemma_join(x, 20, 20, 788, 788, 4861);
    assert(788int * 788 % 4861 == 3597);
    lemma_join(x, 40, 40, 3597, 3597, 4861);
    assert(3597int * 3597 % 4861 == 3288);
    lemma_join(x, 80, 1, 3288, 638, 4861);
    assert(3288int * 638 % 4861 == 2653);
    lemma_join(x, 81, 81, 2653, 2653, 4861);
    assert(2653int * 2653 % 4861 == 4542);
    lemma_join(x, 162, 162, 4542, 4542, 4861);
    assert(4542int * 4542 % 4861 == 4541);
    lemma_join(x, 324, 324, 4541, 4541, 4861);
    assert(4541int * 4541 % 4861 == 319);
    lemma_join(x, 324, 162, 4541, 4542, 4861);
    assert(4541int * 4542 % 4861 == 4860);
    lemma_join(x, 486, 486, 4860, 4860, 4861);
    assert(4860int * 4860 % 4861 == 1);
    lemma_tree(tree_of(4861), 4542, 319);
}

proof fn lemma_12637()
    ensures
        tree_of(12637).wf(),
{
    let x = 8192int;
    lemma_pow1(x);
    assert(pow(x, 1) % 12637 == 8192);
    lemma_join(x, 1, 1, 8192, 8192, 12637);
    assert(8192int * 8192 % 12637 == 6394);
    lemma_join(x, 2, 2, 6394, 6394, 12637);
    assert(6394int * 6394 % 12637 == 2541);
    lemma_join(x, 4, 1, 2541, 8192, 12637);
    assert(2541int * 8192 % 12637 == 2733);
    lemma_join(x, 5, 5, 2733, 2733, 12637);
    assert(2733int * 2733 % 12637 == 822);
    lemma_join(x, 10, 10, 822, 822, 12637);
    assert(822int * 822 % 12637 == 5923);
    lemma_join(x, 20, 20, 5923, 5923, 12637);
    assert(5923int * 5923 % 12637 == 1617);
    lemma_join(x, 40, 40, 1617, 1617, 12637);
    assert(1617int * 1617 % 12637 == 11467);
    lemma_join(x, 80, 1, 11467, 8192, 12637);
    assert(11467int * 8192 % 12637 == 6843);
    lemma_join(x, 81, 81, 6843, 6843, 12637);
    assert(6843int * 6843 % 12637 == 6564);
    lemma_join(x, 162, 162, 6564, 6564, 12637);
    assert(6564int * 6564 % 12637 == 6563);
    lemma_join(x, 324, 324, 6563, 6563, 12637);
    assert(6563int * 6563 % 12637 == 6073);
    lemma_join(x, 324, 162, 6563, 6564, 12637);
    assert(6563int * 6564 % 12637 == 12636);
    lemma_join(x, 486, 486, 12636, 12636, 12637);
    assert(12636int * 12636 % 12637 == 1);
    lemma_tree(tree_of(12637), 6564, 6073);
}

/// Every limb has its tree.
pub proof fn lemma_limb(q: u16)
    requires
        limb_prime(q),
    ensures
        tree_of(q).wf(),
{
    lemma_3889();
    lemma_9721();
    lemma_17497();
    lemma_19441();
    lemma_2917();
    lemma_4861();
    lemma_12637();
}

/// The tree of a limb.
pub fn limb_tree(q: u16) -> (t: Tree)
    requires
        limb_prime(q),
    ensures
        t == tree_of(q),
        t.wf(),
{
    proof {
        lemma_limb(q);
    }
    let psi: u64 = match q {
        3889 => 121,
        9721 => 7086,
        17497 => 10958,
        19441 => 8488,
        2917 => 125,
        4861 => 638,
        12637 => 8192,
        _ => 1,
    };
    let split = q == 3889 || q == 9721 || q == 17497 || q == 19441;
    Tree { q: q as u64, psi, split }
}

/// Does `X^648 - X^324 + 1` end in quadratic factors for this prime?
pub fn quadratic_slots(q: u16) -> (r: bool)
    ensures
        r == ring::quadratic(q),
{
    q == 2917 || q == 4861 || q == 12637
}

} // verus!
