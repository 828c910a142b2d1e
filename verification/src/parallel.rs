use vstd::prelude::*;

verus! {

use vstd::arithmetic::div_mod::lemma_fundamental_div_mod;
use vstd::arithmetic::mul::lemma_mul_inequality;

/// Splits the index range `0 .. len` into at most `num_slices` contiguous
/// chunks, each of the ceiling size `(len + num_slices - 1) / num_slices`
/// except possibly the last.  Workers are handed one chunk each, so the
/// chunks cover the range exactly, in order and without overlap.
pub fn partition(len: usize, num_slices: usize) -> (r: Vec<(usize, usize)>)
    requires
        1 <= len,
        1 <= num_slices,
    ensures
        1 <= r@.len() <= num_slices,
        r@[0].0 == 0,
        r@[r@.len() - 1].1 == len,
        forall|i: int| 0 <= i < r@.len() ==> (#[trigger] r@[i]).0 < r@[i].1 <= len,
        forall|i: int| 0 <= i < r@.len() - 1 ==> (#[trigger] r@[i]).1 == r@[i + 1].0,
        forall|i: int|
            0 <= i < r@.len() - 1 ==> (#[trigger] r@[i]).1 - r@[i].0 == (len - 1) / (
            num_slices as int) + 1,
        r@[r@.len() - 1].1 - r@[r@.len() - 1].0 <= (len - 1) / (num_slices as int) + 1,
{
    let chunk: usize = (len - 1) / num_slices + 1;
    proof {
        let q = ((len - 1) as int) / (num_slices as int);
        let m = ((len - 1) as int) % (num_slices as int);
        lemma_fundamental_div_mod(len - 1, num_slices as int);
        assert(chunk * num_slices >= len) by (nonlinear_arith)
            requires
                chunk == q + 1,
                (len - 1) as int == num_slices * q + m,
                m < num_slices,
                0 <= q,
        ;
    }
    let mut r: Vec<(usize, usize)> = Vec::new();
    let mut start: usize = 0;
    assert(r@.len() * chunk == 0) by (nonlinear_arith)
        requires r@.len() == 0,
    ;
    while start < len
        invariant
            1 <= chunk,
            start <= len,
            chunk * num_slices >= len,
            start < len ==> start == r@.len() * chunk,
            start == len ==> r@.len() >= 1 && (r@.len() - 1) * chunk < len,
            r@.len() >= 1 ==> r@[0].0 == 0 && r@[r@.len() - 1].1 == start,
            forall|i: int| 0 <= i < r@.len() ==> (#[trigger] r@[i]).0 < r@[i].1 <= len,
            forall|i: int| 0 <= i < r@.len() - 1 ==> (#[trigger] r@[i]).1 == r@[i + 1].0,
            forall|i: int|
                0 <= i < r@.len() ==> (#[trigger] r@[i]).1 - r@[i].0 == chunk || r@[i].1
                    == len,
            forall|i: int| 0 <= i < r@.len() ==> (#[trigger] r@[i]).1 - r@[i].0 <= chunk,
            chunk == (len - 1) / (num_slices as int) + 1,
        decreases len - start,
    {
        let end: usize = if len - start < chunk {
            len
        } else {
            start + chunk
        };
        proof {
            assert((r@.len() + 1) * chunk == r@.len() * chunk + chunk) by (nonlinear_arith);
        }
        r.push((start, end));
        start = end;
    }
    proof {
        assert forall|i: int|
            0 <= i < r@.len() - 1 implies (#[trigger] r@[i]).1 - r@[i].0 == chunk by {
            if r@[i].1 == len {
                assert(r@[i].1 == r@[i + 1].0);
                assert(r@[i + 1].0 < r@[i + 1].1 <= len);
            }
        }
        let k = r@.len() as int;
        assert(k <= num_slices) by {
            if k > num_slices {
                lemma_mul_inequality(num_slices as int, k - 1, chunk as int);
                assert(num_slices * chunk == chunk * num_slices) by (nonlinear_arith);
                assert((k - 1) * chunk >= num_slices * chunk);
            }
        }
    }
    r
}

} // verus!
