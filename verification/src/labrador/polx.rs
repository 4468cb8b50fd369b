//! Ring elements in the backend's transformed form.
use vstd::prelude::*;

verus! {

/// Degree of the backend's ring.
pub const N: usize = 64;

/// Bytes of one transformed ring element.
pub const POLX_BYTES: usize = 1024;

/// log2 of the backend's modulus, rounded up.
pub const LOGQ: usize = 48;

/// Transformed ring elements, as the bytes the backend reads.
#[derive(Clone, PartialEq, Eq, Debug)]
pub struct PolxBuf {
    pub bytes: Vec<u8>,
    pub count: usize,
}

impl PolxBuf {
    /// Every element has its bytes.
    pub open spec fn wf(&self) -> bool {
        self.bytes@.len() == 1024 * self.count
    }

    /// `count` elements from their bytes; `None` for any other number of bytes.
    pub fn from_bytes(count: usize, b: &[u8]) -> (r: Option<PolxBuf>)
        ensures
            match r {
                Some(p) => p.wf() && p.count == count && p.bytes@ == b@,
                None => b@.len() != 1024 * count,
            },
    {
        let len: usize = b.len();
        if len % POLX_BYTES != 0 || len / POLX_BYTES != count {
            return None;
        }
        let mut bytes: Vec<u8> = Vec::with_capacity(len);
        let mut i: usize = 0;
        while i < len
            invariant
                i <= len == b@.len(),
                bytes@ == b@.take(i as int),
            decreases len - i,
        {
            bytes.push(b[i]);
            i += 1;
            assert(bytes@ =~= b@.take(i as int));
        }
        assert(b@.take(len as int) =~= b@);
        Some(PolxBuf { bytes, count })
    }

    /// The number of elements.
    pub fn len(&self) -> (n: usize)
        ensures
            n == self.count,
    {
        self.count
    }

    pub fn is_empty(&self) -> (r: bool)
        ensures
            r == (self.count == 0),
    {
        self.count == 0
    }

    pub fn as_bytes(&self) -> (r: &[u8])
        ensures
            r@ == self.bytes@,
    {
        self.bytes.as_slice()
    }
}

/// `len` padded to a multiple of `deg`.
pub open spec fn padded(len: nat, deg: nat) -> nat {
    (len + deg - 1) as nat / deg * deg
}

/// The ring elements of `phi` for a block of `len` witness elements under a constraint of degree
/// `deg`: one each for a constant-coefficient constraint, the padded length otherwise.
pub open spec fn phi_padded(len: nat, deg: nat) -> nat {
    if deg == 0 {
        len
    } else {
        padded(len, deg)
    }
}

pub proof fn lemma_padded(len: nat, deg: nat)
    requires
        deg >= 1,
    ensures
        len <= padded(len, deg) < len + deg,
        padded(len, 1) == len,
{
    let (x, d) = ((len + deg - 1) as int, deg as int);
    vstd::arithmetic::div_mod::lemma_fundamental_div_mod(x, d);
    vstd::arithmetic::div_mod::lemma_mod_bound(x, d);
    assert(x / d * d == d * (x / d)) by (nonlinear_arith);
    assert((len + 1 - 1) as nat / 1 * 1 == len);
}

/// `len` padded to a multiple of `deg`; `None` past the machine's counts.
pub(crate) fn checked_padded(len: usize, deg: usize) -> (r: Option<usize>)
    requires
        deg >= 1,
    ensures
        match r {
            Some(n) => n == padded(len as nat, deg as nat),
            None => padded(len as nat, deg as nat) > usize::MAX,
        },
{
    proof {
        lemma_padded(len as nat, deg as nat);
        let (x, d) = (len + deg - 1, deg as int);
        vstd::arithmetic::div_mod::lemma_fundamental_div_mod(x, d);
        vstd::arithmetic::div_mod::lemma_div_pos_is_pos(x, d);
        assert(x / d * d == d * (x / d)) by (nonlinear_arith);
    }
    let k: u128 = (len as u128 + deg as u128 - 1) / (deg as u128);
    let n: u128 = k * (deg as u128);
    if n > usize::MAX as u128 {
        None
    } else {
        Some(n as usize)
    }
}

/// `len` padded to a multiple of `deg`.
pub fn extlen(len: usize, deg: usize) -> (n: usize)
    requires
        deg >= 1,
        padded(len as nat, deg as nat) <= usize::MAX,
    ensures
        n == padded(len as nat, deg as nat),
{
    match checked_padded(len, deg) {
        Some(n) => n,
        None => 0,
    }
}

/// The ring elements of `phi` for a block of `len` witness elements.
pub fn philen(len: usize, deg: usize) -> (n: usize)
    requires
        phi_padded(len as nat, deg as nat) <= usize::MAX,
    ensures
        n == phi_padded(len as nat, deg as nat),
{
    if deg == 0 {
        len
    } else {
        extlen(len, deg)
    }
}

/// Bits of the backend's modulus.
pub fn logq() -> (n: usize)
    ensures
        n == 48,
{
    LOGQ
}

/// Bytes of one transformed ring element.
pub fn sizeof_polx() -> (n: usize)
    ensures
        n == 1024,
{
    POLX_BYTES
}

/// A padded length is the least multiple of the degree that is not below the length.
pub proof fn padded_is_least(len: nat, deg: nat, k: nat)
    requires
        deg >= 1,
    ensures
        padded(len, deg) >= len,
        padded(len, deg) < len + deg,
        padded(len, deg) % deg == 0,
        k * deg >= len ==> k * deg >= padded(len, deg),
{
    let (x, d) = ((len + deg - 1) as int, deg as int);
    vstd::arithmetic::div_mod::lemma_fundamental_div_mod(x, d);
    vstd::arithmetic::div_mod::lemma_mod_bound(x, d);
    let m = x / d;
    assert(m * d == d * m) by (nonlinear_arith);
    vstd::arithmetic::div_mod::lemma_mod_multiples_basic(m, d);
    if k * deg >= len {
        assert(k >= m) by (nonlinear_arith)
            requires
                x == d * m + x % d,
                0 <= x % d < d,
                x == len + d - 1,
                k * d >= len,
                d >= 1,
        ;
        assert(k * d >= m * d) by (nonlinear_arith)
            requires
                k >= m,
                d >= 1,
        ;
    }
}

} // verus!
