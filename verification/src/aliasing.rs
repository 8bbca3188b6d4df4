//! Why shared data stays put while it is read: a value reached through a
//! shared reference cannot be the target of a mutable one.

use vstd::prelude::*;

verus! {

/// Reads `a`, adds one to `b`, reads `a` again, and says whether the two
/// readings differ. They never do: `b` cannot refer to what `a` refers to.
pub fn data_race(a: &i32, b: &mut i32) -> (changed: bool)
    requires
        *old(b) < i32::MAX,
    ensures
        *final(b) == *old(b) + 1,
        !changed,
{
    let before: i32 = *a;
    *b = *b + 1;
    let after: i32 = *a;
    before != after
}

} // verus!
