//! A small deterministic generator, for expanding a seed into a public matrix.
use vstd::arithmetic::div_mod::*;
use vstd::prelude::*;

verus! {

/// What the state advances by.
pub const STEP: u64 = 0x9E37_79B9_7F4A_7C15;

/// A counter whose values are mixed into outputs.
#[derive(Clone, Copy, PartialEq, Eq, Debug)]
pub struct Rng {
    pub state: u64,
}

/// The state `t` draws after `s`.
pub open spec fn state_after(s: u64, t: nat) -> u64 {
    ((s + t * STEP) % 0x1_0000_0000_0000_0000) as u64
}

/// The output at a state.
pub open spec fn mixed(s: u64) -> u64 {
    let a = (s ^ (s >> 30)).wrapping_mul(0xBF58_476D_1CE4_E5B9);
    let b = (a ^ (a >> 27)).wrapping_mul(0x94D0_49BB_1331_11EB);
    b ^ (b >> 31)
}

/// Draw `t` from the state `s`, scaled to `[0, n)`.
pub open spec fn draw(s: u64, n: u32, t: nat) -> int {
    (mixed(state_after(s, t + 1)) as int / 0x1_0000_0000) * n / 0x1_0000_0000
}

/// Draws add up.
pub proof fn lemma_state_after(s: u64, a: nat, b: nat)
    ensures
        state_after(state_after(s, a), b) == state_after(s, a + b),
        state_after(s, 0) == s,
{
    let m = 0x1_0000_0000_0000_0000int;
    let (x, y) = (s + a * STEP, b * STEP);
    lemma_mod_bound(x, m);
    assert(x % m + y == (x % m) + y);
    lemma_add_mod_noop(x % m, y, m);
    lemma_mod_twice(x, m);
    lemma_add_mod_noop(x, y, m);
    lemma_small_mod(s as nat, m as nat);
}

impl Rng {
    pub fn new(seed: u64) -> (r: Rng)
        ensures
            r.state == seed,
    {
        Rng { state: seed }
    }

    pub fn next_u64(&mut self) -> (r: u64)
        ensures
            final(self).state == state_after(old(self).state, 1),
            r == mixed(final(self).state),
    {
        let s: u64 = self.state.wrapping_add(STEP);
        proof {
            let (x, m) = (old(self).state as int, 0x1_0000_0000_0000_0000int);
            if x + STEP < m {
                lemma_small_mod((x + STEP) as nat, m as nat);
            } else {
                lemma_fundamental_div_mod_converse(x + STEP, m, 1, x + STEP - m);
            }
        }
        self.state = s;
        let a: u64 = (s ^ (s >> 30)).wrapping_mul(0xBF58_476D_1CE4_E5B9);
        let b: u64 = (a ^ (a >> 27)).wrapping_mul(0x94D0_49BB_1331_11EB);
        b ^ (b >> 31)
    }

    /// A number in `[0, n)`.
    pub fn below(&mut self, n: u32) -> (r: u32)
        requires
            n > 0,
        ensures
            final(self).state == state_after(old(self).state, 1),
            r == draw(old(self).state, n, 0),
            r < n,
    {
        let x: u64 = self.next_u64() / 0x1_0000_0000;
        proof {
            assert(x * n < 0x1_0000_0000 * n && x * n <= 0xFFFF_FFFF * 0xFFFF_FFFF)
                by (nonlinear_arith)
                requires
                    x < 0x1_0000_0000,
                    0 < n <= 0xFFFF_FFFF,
            ;
        }
        (x * n as u64 / 0x1_0000_0000) as u32
    }
}

/// The generator does not come back to a state before it has been through all of them: states less than
/// `2^64` draws apart differ.
pub proof fn states_differ(s: u64, a: nat, b: nat)
    requires
        a < b,
        b - a < 0x1_0000_0000_0000_0000,
    ensures
        state_after(s, a) != state_after(s, b),
{
    let m = 0x1_0000_0000_0000_0000int;
    if state_after(s, a) == state_after(s, b) {
        let (x, y) = (s + a * STEP, s + b * STEP);
        lemma_mod_bound(x, m);
        lemma_mod_bound(y, m);
        let d = b - a;
        assert(y - x == d * STEP) by (nonlinear_arith)
            requires
                x == s + a * STEP,
                y == s + b * STEP,
                d == b - a,
        ;
        lemma_sub_mod_noop(y, x, m);
        lemma_small_mod(0, m as nat);
        assert((d * STEP) % m == 0);
        // the step has an inverse
        let inverse = 0xF1DE_83E1_9937_733Dint;
        let k = 0x957B_BF35_006E_D677int;
        assert(0x9E37_79B9_7F4A_7C15int * 0xF1DE_83E1_9937_733Dint == 0x1_0000_0000_0000_0000int
            * 0x957B_BF35_006E_D677int + 1);
        assert(STEP as int * inverse == m * k + 1);
        let t = d * STEP;
        lemma_fundamental_div_mod(t, m);
        let h = t / m;
        assert(t == m * h);
        assert(d == m * (h * inverse - d * k)) by (nonlinear_arith)
            requires
                t == m * h,
                t == d * STEP,
                STEP as int * inverse == m * k + 1,
        ;
        let e = h * inverse - d * k;
        assert(false) by (nonlinear_arith)
            requires
                d == m * e,
                0 < d < m,
        ;
    }
}

/// A draw below `n` is the place of the output in `n` equal parts of its range: it is `r` exactly where
/// the upper half of the output lies in part `r`.
pub proof fn draws_by_parts(s: u64, n: u32, t: nat, r: int)
    requires
        n > 0,
    ensures
        0 <= draw(s, n, t) < n,
        ({
            let h = mixed(state_after(s, t + 1)) as int / 0x1_0000_0000;
            draw(s, n, t) == r <==> r * 0x1_0000_0000 <= h * n < (r + 1) * 0x1_0000_0000
        }),
{
    let h = mixed(state_after(s, t + 1)) as int / 0x1_0000_0000;
    let m = 0x1_0000_0000int;
    let x = h * n;
    assert(0 <= x < m * n) by (nonlinear_arith)
        requires
            0 <= h < m,
            n > 0,
            x == h * n,
    ;
    let d = draw(s, n, t);
    assert(d == x / m);
}

} // verus!
