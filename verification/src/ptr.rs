use vstd::prelude::*;

verus! {

/// The address `count` bytes away from `ptr`; the result must stay an address.
pub fn mut_offset(ptr: usize, count: isize) -> (res: usize)
    requires
        0 <= ptr + count <= usize::MAX,
    ensures
        res == ptr + count,
{
    if count >= 0 {
        ptr + count as usize
    } else {
        ptr - (-(count + 1)) as usize - 1
    }
}

} // verus!
