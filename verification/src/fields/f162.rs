//! Eight products in `GF(2^162)` side by side: limb `k` of element `i` is `a[k][i]`.
use super::scalar::{f162, F162};
use vstd::prelude::*;

verus! {

/// Element `i`.
pub open spec fn lane(a: [[u64; 8]; 3], i: int) -> F162 {
    F162([a@[0]@[i], a@[1]@[i], a@[2]@[i]])
}

/// Every element is reduced.
pub open spec fn reduced(a: [[u64; 8]; 3]) -> bool {
    forall|i: int| 0 <= i < 8 ==> (#[trigger] lane(a, i)).wf()
}

fn get(a: &[[u64; 8]; 3], i: usize) -> (x: F162)
    requires
        i < 8,
    ensures
        x == lane(*a, i as int),
{
    F162([a[0][i], a[1][i], a[2][i]])
}

/// `acc_i + a_i b_i` for every `i`.
pub fn mac_soa8(acc: &mut [[u64; 8]; 3], a: &[[u64; 8]; 3], b: &[[u64; 8]; 3])
    requires
        reduced(*old(acc)),
        reduced(*a),
        reduced(*b),
    ensures
        reduced(*final(acc)),
        forall|i: int|
            0 <= i < 8 ==> (#[trigger] lane(*final(acc), i))@ == f162().sum(
                lane(*old(acc), i)@,
                f162().mul(lane(*a, i)@, lane(*b, i)@),
            ),
{
    let ghost start = *acc;
    let mut r0: [u64; 8] = acc[0];
    let mut r1: [u64; 8] = acc[1];
    let mut r2: [u64; 8] = acc[2];
    let mut i: usize = 0;
    while i < 8
        invariant
            i <= 8,
            *acc == start,
            reduced(start),
            reduced(*a),
            reduced(*b),
            forall|k: int|
                #![trigger r0@[k]]
                0 <= k < i ==> F162([r0@[k], r1@[k], r2@[k]]).wf() && F162(
                    [r0@[k], r1@[k], r2@[k]],
                )@ == f162().sum(lane(start, k)@, f162().mul(lane(*a, k)@, lane(*b, k)@)),
        decreases 8 - i,
    {
        let (x, y, z) = (get(a, i), get(b, i), get(acc, i));
        assert(lane(*a, i as int).wf() && lane(*b, i as int).wf() && lane(start, i as int).wf());
        let s = z + x * y;
        assert(F162([s.0[0], s.0[1], s.0[2]]).0@ =~= s.0@);
        assert(F162([s.0[0], s.0[1], s.0[2]])@ =~= s@);
        r0[i] = s.0[0];
        r1[i] = s.0[1];
        r2[i] = s.0[2];
        i += 1;
    }
    *acc = [r0, r1, r2];
    assert forall|k: int| 0 <= k < 8 implies (#[trigger] lane(*acc, k)).wf() && lane(*acc, k)@
        == f162().sum(lane(start, k)@, f162().mul(lane(*a, k)@, lane(*b, k)@)) by {
        assert(acc@[0] == r0 && acc@[1] == r1 && acc@[2] == r2);
        assert(r0@[k] == acc@[0]@[k]);
    }
}

/// `a_i b_i` for every `i`.
pub fn mul_soa8(a: &[[u64; 8]; 3], b: &[[u64; 8]; 3]) -> (c: [[u64; 8]; 3])
    requires
        reduced(*a),
        reduced(*b),
    ensures
        reduced(c),
        forall|i: int|
            0 <= i < 8 ==> (#[trigger] lane(c, i))@ == f162().mul(lane(*a, i)@, lane(*b, i)@),
{
    let z: [u64; 8] = [0;8];
    let mut c: [[u64; 8]; 3] = [z, z, z];
    proof {
        assert(c@[0] == z && c@[1] == z && c@[2] == z);
        assert forall|i: int| 0 <= i < 8 implies (#[trigger] lane(c, i)).wf() && lane(c, i)
            == F162([0, 0, 0]) by {}
    }
    let ghost start = c;
    mac_soa8(&mut c, a, b);
    proof {
        F162::lemma_consts();
        assert forall|i: int| 0 <= i < 8 implies (#[trigger] lane(c, i))@ == f162().mul(
            lane(*a, i)@,
            lane(*b, i)@,
        ) by {
            let p = f162().mul(lane(*a, i)@, lane(*b, i)@);
            assert(lane(start, i)@ == f162().zero());
            f162().mul_to_elem(lane(*a, i)@, lane(*b, i)@, 162);
            f162().sum_zero(p);
        }
    }
    c
}

} // verus!
