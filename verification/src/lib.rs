pub mod be;
pub mod buf;
pub mod decode;
pub mod encode;
pub mod error;
pub mod header;
pub mod laws;

use vstd::prelude::*;

verus! {

/// Copies `src` into `dst`, which must have the same length.
pub fn copy_from_slice<T: Copy>(dst: &mut [T], src: &[T])
    requires
        old(dst)@.len() == src@.len(),
    ensures
        final(dst)@ == src@,
{
    let mut i: usize = 0;
    while i < src.len()
        invariant
            0 <= i <= src@.len(),
            dst@.len() == src@.len(),
            forall|j: int| 0 <= j < i ==> dst@[j] == src@[j],
        decreases src@.len() - i,
    {
        dst[i] = src[i];
        i = i + 1;
    }
    proof {
        assert(dst@ =~= src@);
    }
}

} // verus!
