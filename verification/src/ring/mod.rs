//! The two rings `R_648 = Z_q[X]/(X^648 - X^324 + 1)` and `R_162 = Z_q[Z]/Phi_243(Z)`, and the
//! moduli they are taken over.
pub mod decompose;
pub mod element;
pub mod recombine;
pub mod slots;

pub use element::{
    Batch32, PowerOfThreeRingElement, PowerOfThreeRingElementWithLimbs, Representation, RingElement,
    VerticallyAlignedMatrix,
};

use vstd::prelude::*;

verus! {

/// Degree of the large ring.
pub const N: usize = 648;

/// Degree of the small ring.
pub const N162: usize = 162;

/// The primes of the default limb list.
pub const PRIMES: [u16; 2] = [3889, 9721];

/// The default base limb.
pub const BASE_PRIME: u16 = 3889;

/// A limb a commitment key can carry, as its base or on top of it.
///
/// The suffix names the family: `_FS_S` fully splitting below `2^14` (648 linear slots), `_Q_S`
/// quadratic-slot (324 quadratic leaves), `_FS_L` fully splitting above `2^14`.
#[allow(non_camel_case_types)]
#[derive(Clone, Copy, PartialEq, Eq, Debug, Hash, Structural)]
pub enum Modulus {
    Q2917_Q_S,
    Q3889_FS_S,
    Q4861_Q_S,
    Q9721_FS_S,
    Q12637_Q_S,
    Q17497_FS_L,
    Q19441_FS_L,
}

/// The prime of a limb.
pub open spec fn prime_of(m: Modulus) -> u16 {
    match m {
        Modulus::Q2917_Q_S => 2917,
        Modulus::Q3889_FS_S => 3889,
        Modulus::Q4861_Q_S => 4861,
        Modulus::Q9721_FS_S => 9721,
        Modulus::Q12637_Q_S => 12637,
        Modulus::Q17497_FS_L => 17497,
        Modulus::Q19441_FS_L => 19441,
    }
}

/// `R_648` ends in 324 quadratic leaves for this prime, rather than in 648 linear slots.
pub open spec fn quadratic(q: u16) -> bool {
    q == 2917 || q == 4861 || q == 12637
}

impl Modulus {
    /// The default base limb.
    pub const BASE: Modulus = Modulus::Q3889_FS_S;

    /// Every limb, in ascending order of modulus.
    pub const ALL: [Modulus; 7] = [
        Modulus::Q2917_Q_S,
        Modulus::Q3889_FS_S,
        Modulus::Q4861_Q_S,
        Modulus::Q9721_FS_S,
        Modulus::Q12637_Q_S,
        Modulus::Q17497_FS_L,
        Modulus::Q19441_FS_L,
    ];

    /// The prime.
    pub fn prime(self) -> (q: u16)
        ensures
            q == prime_of(self),
    {
        match self {
            Modulus::Q2917_Q_S => 2917,
            Modulus::Q3889_FS_S => 3889,
            Modulus::Q4861_Q_S => 4861,
            Modulus::Q9721_FS_S => 9721,
            Modulus::Q12637_Q_S => 12637,
            Modulus::Q17497_FS_L => 17497,
            Modulus::Q19441_FS_L => 19441,
        }
    }

    /// Does `R_648` end in 324 quadratic leaves for this prime?
    pub fn is_quadratic(self) -> (r: bool)
        ensures
            r == quadratic(prime_of(self)),
    {
        let q: u16 = self.prime();
        q == 2917 || q == 4861 || q == 12637
    }

    /// The limb of a prime, if it is one.
    pub fn from_prime(q: u16) -> (r: Option<Modulus>)
        ensures
            match r {
                Some(m) => prime_of(m) == q,
                None => forall|m: Modulus| prime_of(m) != q,
            },
    {
        let all: [Modulus; 7] = Modulus::ALL;
        let mut i: usize = 0;
        while i < 7
            invariant
                i <= 7,
                all == Modulus::ALL,
                forall|k: int| 0 <= k < i ==> prime_of(#[trigger] all[k]) != q,
            decreases 7 - i,
        {
            if all[i].prime() == q {
                return Some(all[i]);
            }
            i += 1;
        }
        assert forall|m: Modulus| prime_of(m) != q by {
            let k: int = match m {
                Modulus::Q2917_Q_S => 0,
                Modulus::Q3889_FS_S => 1,
                Modulus::Q4861_Q_S => 2,
                Modulus::Q9721_FS_S => 3,
                Modulus::Q12637_Q_S => 4,
                Modulus::Q17497_FS_L => 5,
                Modulus::Q19441_FS_L => 6,
            };
            assert(all[k] == m);
        }
        None
    }
}

} // verus!
