//! The limbs by the kind of their transform.
use crate::params;
use crate::ring;
use vstd::prelude::*;

verus! {

/// How a limb's modulus factors, and whether three of its residues fit a lane.
#[derive(Clone, Copy, PartialEq, Eq, Debug, Structural)]
pub enum Class {
    SplitSmall,
    SplitLarge,
    Quad,
}

/// Number of limbs there are.
pub const LIMBS: usize = 7;

/// Every limb: the small splitting ones, the large splitting ones, the quadratic-slot ones.
pub const PRIMES: [u16; 7] = [3889, 9721, 17497, 19441, 2917, 4861, 12637];

/// The class of a limb.
pub open spec fn class_of(q: u16) -> Class {
    if ring::quadratic(q) {
        Class::Quad
    } else if q == 17497 || q == 19441 {
        Class::SplitLarge
    } else {
        Class::SplitSmall
    }
}

/// Is `q` one of the splitting primes above `2^14`?
pub fn is_large(q: u16) -> (r: bool)
    ensures
        r == (q == 17497 || q == 19441),
{
    q == 17497 || q == 19441
}

pub fn class(q: u16) -> (c: Class)
    requires
        params::limb_prime(q),
    ensures
        c == class_of(q),
{
    if params::quadratic_slots(q) {
        Class::Quad
    } else if is_large(q) {
        Class::SplitLarge
    } else {
        Class::SplitSmall
    }
}

pub fn is_quad(q: u16) -> (r: bool)
    requires
        params::limb_prime(q),
    ensures
        r == ring::quadratic(q),
{
    match class(q) {
        Class::Quad => true,
        _ => false,
    }
}

/// The limbs are the primes with a transform, and they come class by class.
pub proof fn limbs_by_class(i: int)
    requires
        0 <= i < LIMBS,
    ensures
        params::limb_prime(PRIMES@[i]),
        class_of(PRIMES@[i]) == (if i < 2 {
            Class::SplitSmall
        } else if i < 4 {
            Class::SplitLarge
        } else {
            Class::Quad
        }),
{
}

} // verus!
