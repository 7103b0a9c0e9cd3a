//! The host-side steps of the GPU touch engine: finding the blob starts in the
//! label buffer it computed, and unpacking the positions it packed.
use vstd::prelude::*;

verus! {

/// The indices below `n` whose entry is nonzero, ascending.
pub open spec fn nonzero_indices(r: Seq<u32>, n: int) -> Seq<int>
    decreases n,
{
    if n <= 0 {
        seq![]
    } else if r[n - 1] != 0 {
        nonzero_indices(r, n - 1).push(n - 1)
    } else {
        nonzero_indices(r, n - 1)
    }
}

proof fn lemma_nonzero_indices_mono(r: Seq<u32>, m: int, n: int)
    requires
        0 <= m <= n,
    ensures
        nonzero_indices(r, m).len() <= nonzero_indices(r, n).len(),
        nonzero_indices(r, n).take(nonzero_indices(r, m).len() as int) == nonzero_indices(r, m),
    decreases n - m,
{
    if m < n {
        lemma_nonzero_indices_mono(r, m, n - 1);
        let k = nonzero_indices(r, m).len() as int;
        assert(nonzero_indices(r, n).take(k) =~= nonzero_indices(r, n - 1).take(k));
    } else {
        assert(nonzero_indices(r, n).take(nonzero_indices(r, n).len() as int) =~= nonzero_indices(
            r,
            n,
        ));
    }
}

/// The starts of the touch blobs: the indices of the nonzero entries of the
/// label buffer, padded with `!0` to ten. `None` when there are more than
/// ten ("too many fingers").
pub fn find_starts(r: &[u32]) -> (res: Option<([u32; 10], usize)>)
    ensures
        nonzero_indices(r@, r@.len() as int).len() > 10 <==> res is None,
        res matches Some((starts, count)) ==> {
            &&& count == nonzero_indices(r@, r@.len() as int).len()
            &&& forall|i: int|
                0 <= i < count ==> #[trigger] starts[i] == nonzero_indices(r@, r@.len() as int)[i]
                    as u32
            &&& forall|i: int| count <= i < 10 ==> #[trigger] starts[i] == !0u32
        },
{
    let mut starts = [!0u32; 10];
    let mut count: usize = 0;
    let mut k: usize = 0;
    while k < r.len()
        invariant
            0 <= k <= r@.len(),
            count == nonzero_indices(r@, k as int).len(),
            count <= 10,
            forall|i: int|
                0 <= i < count ==> #[trigger] starts[i] == nonzero_indices(r@, k as int)[i] as u32,
            forall|i: int| count <= i < 10 ==> #[trigger] starts[i] == !0u32,
        decreases r@.len() - k,
    {
        if r[k] != 0 {
            if count == 10 {
                proof {
                    lemma_nonzero_indices_mono(r@, k + 1, r@.len() as int);
                }
                return None;
            }
            starts[count] = k as u32;
            count += 1;
        }
        k += 1;
    }
    Some((starts, count))
}

/// A packed position: x in the high 16 bits, y in the low 16.
pub open spec fn unpack(packed: u32) -> (u32, u32) {
    (packed >> 16u32, packed & 0xFFFFu32)
}

/// Unpacks the first `p.len()` positions into `results`; the rest stay.
pub fn unpack_positions(p: &[u32], results: &mut [(u32, u32); 10])
    requires
        p@.len() <= 10,
    ensures
        forall|i: int| 0 <= i < p@.len() ==> #[trigger] final(results)@[i] == unpack(p@[i]),
        forall|i: int| p@.len() <= i < 10 ==> #[trigger] final(results)@[i] == old(results)@[i],
{
    let mut i: usize = 0;
    while i < p.len()
        invariant
            0 <= i <= p@.len() <= 10,
            forall|j: int| 0 <= j < i ==> #[trigger] results@[j] == unpack(p@[j]),
            forall|j: int| i <= j < 10 ==> #[trigger] results@[j] == old(results)@[j],
        decreases p@.len() - i,
    {
        let packed = p[i];
        let x = packed >> 16;
        let y = packed & 0xFFFF;
        results[i] = (x, y);
        i += 1;
    }
}

} // verus!
