use vstd::prelude::*;

verus! {

/// Adds two integers.
pub fn add_two(a: i32, b: i32) -> (sum: i32)
    requires
        i32::MIN <= a + b <= i32::MAX,
    ensures
        sum == a + b,
{
    a + b
}

} // verus!
