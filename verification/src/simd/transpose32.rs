//! Thirty-two rows side by side.
use crate::ring::Batch32;
use vstd::prelude::*;

verus! {

/// Value `j` of every source goes to row `rows[j]` of the batch.
pub fn transpose_into(src: &Vec<Vec<i16>>, rows: &[u16], dst: &mut Batch32)
    requires
        src@.len() == 32,
        forall|p: int| 0 <= p < 32 ==> (#[trigger] src@[p])@.len() >= rows@.len(),
        forall|j: int| 0 <= j < rows@.len() ==> (#[trigger] rows@[j]) < 648,
        forall|i: int, j: int| 0 <= i < j < rows@.len() ==> (#[trigger] rows@[i]) != (#[trigger] rows@[j]),
    ensures
        final(dst).representation == old(dst).representation,
        forall|j: int, p: int|
            0 <= j < rows@.len() && 0 <= p < 32 ==> (#[trigger] final(dst).v@[rows@[j] as int]@[p])
                == src@[p]@[j],
        forall|r: int|
            0 <= r < 648 && (forall|j: int| 0 <= j < rows@.len() ==> (#[trigger] rows@[j]) != r)
                ==> (#[trigger] final(dst).v@[r]) == old(dst).v@[r],
{
    let n: usize = rows.len();
    let ghost start = dst.v@;
    let mut j: usize = 0;
    while j < n
        invariant
            j <= n == rows@.len(),
            src@.len() == 32,
            forall|p: int| 0 <= p < 32 ==> (#[trigger] src@[p])@.len() >= rows@.len(),
            forall|j: int| 0 <= j < rows@.len() ==> (#[trigger] rows@[j]) < 648,
            forall|i: int, j: int|
                0 <= i < j < rows@.len() ==> (#[trigger] rows@[i]) != (#[trigger] rows@[j]),
            dst.representation == old(dst).representation,
            forall|i: int, p: int|
                0 <= i < j && 0 <= p < 32 ==> (#[trigger] dst.v@[rows@[i] as int]@[p])
                    == src@[p]@[i],
            forall|r: int|
                0 <= r < 648 && (forall|i: int| 0 <= i < rows@.len() ==> (#[trigger] rows@[i]) != r)
                    ==> (#[trigger] dst.v@[r]) == start[r],
        decreases n - j,
    {
        let mut row: [i16; 32] = [0;32];
        let mut p: usize = 0;
        while p < 32
            invariant
                p <= 32,
                j < n == rows@.len(),
                src@.len() == 32,
                forall|p: int| 0 <= p < 32 ==> (#[trigger] src@[p])@.len() >= rows@.len(),
                forall|i: int| 0 <= i < p ==> (#[trigger] row@[i]) == src@[i]@[j as int],
            decreases 32 - p,
        {
            row[p] = src[p][j];
            p += 1;
        }
        assert(rows@[j as int] < 648);
        dst.v[rows[j] as usize] = row;
        j += 1;
    }
}

} // verus!
