use vstd::prelude::*;

verus! {

/// Sets the first `size` bytes of `s` to `c`.
pub fn memset(s: &mut Vec<u8>, c: u8, size: usize)
    requires
        size <= old(s)@.len(),
    ensures
        final(s)@.len() == old(s)@.len(),
        forall|i: int| 0 <= i < final(s)@.len() ==> #[trigger] final(s)@[i] == (if i < size { c } else { old(s)@[i] }),
{
    let mut i: usize = 0;
    while i < size
        invariant
            i <= size,
            size <= s@.len(),
            s@.len() == old(s)@.len(),
            forall|j: int| 0 <= j < s@.len() ==> #[trigger] s@[j] == (if j < i { c } else { old(s)@[j] }),
        decreases size - i,
    {
        s.set(i, c);
        i = i + 1;
    }
}

} // verus!
