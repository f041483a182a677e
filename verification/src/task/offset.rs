//! How far the replacements made so far have moved what follows them.

use vstd::prelude::*;

verus! {

/// The net number of bytes by which a buffer has grown (positive) or shrunk
/// (negative).
#[derive(Debug, Clone, Copy, PartialEq, Eq, Structural)]
pub struct Offset {
    pub delta: i64,
}

impl View for Offset {
    type V = int;

    open spec fn view(&self) -> int {
        self.delta as int
    }
}

impl Offset {
    /// Where the position `num` of the text lies in the buffer, once the
    /// replacements before it are made.
    pub fn apply(&self, num: usize) -> (r: usize)
        requires
            0 <= num + self@ <= usize::MAX,
        ensures
            r == num + self@,
    {
        let moved: i128 = num as i128 + self.delta as i128;
        moved as usize
    }

    /// The sum of two displacements.
    pub fn add(a: Offset, b: Offset) -> (r: Self)
        requires
            i64::MIN <= a@ + b@ <= i64::MAX,
        ensures
            r@ == a@ + b@,
    {
        Offset { delta: a.delta + b.delta }
    }

    /// The displacement that replacing `b` bytes by `a` bytes causes.
    pub fn from_diff(a: usize, b: usize) -> (r: Self)
        requires
            i64::MIN <= a - b <= i64::MAX,
        ensures
            r@ == a - b,
    {
        let diff: i128 = a as i128 - b as i128;
        Offset { delta: diff as i64 }
    }
}

} // verus!
