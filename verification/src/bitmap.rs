//! Per-chunk-class bitmaps. A `Bitmap` stores one flag per possible chunk of
//! one size class and offers constant-time test, set and clear, the only
//! operations the buddy core needs.

use vstd::prelude::*;

verus! {

/// One flag per chunk of a single chunk class. Viewed as a `Seq<bool>`,
/// where index `i` tells whether the flag of chunk `i` is raised.
pub struct Bitmap {
    flags: Vec<bool>,
}

impl Bitmap {
    pub closed spec fn view(&self) -> Seq<bool> {
        self.flags@
    }

    pub open spec fn len(&self) -> nat {
        self.view().len()
    }

    /// A fresh bitmap of `len` flags, all clear.
    pub fn new(len: usize) -> (r: Bitmap)
        ensures
            r.view() == Seq::new(len as nat, |i: int| false),
    {
        let mut flags: Vec<bool> = Vec::new();
        let mut i: usize = 0;
        while i < len
            invariant
                0 <= i <= len,
                flags@ == Seq::new(i as nat, |j: int| false),
            decreases len - i,
        {
            flags.push(false);
            proof {
                assert(flags@ =~= Seq::new((i + 1) as nat, |j: int| false));
            }
            i = i + 1;
        }
        Bitmap { flags }
    }

    /// Tests the flag of chunk `i`.
    pub fn get(&self, i: usize) -> (b: bool)
        requires
            i < self.len(),
        ensures
            b == self.view()[i as int],
    {
        self.flags[i]
    }

    /// Raises the flag of chunk `i`.
    pub fn set(&mut self, i: usize)
        requires
            i < old(self).len(),
        ensures
            final(self).view() == old(self).view().update(i as int, true),
    {
        self.flags[i] = true;
    }

    /// Clears the flag of chunk `i`.
    pub fn clear(&mut self, i: usize)
        requires
            i < old(self).len(),
        ensures
            final(self).view() == old(self).view().update(i as int, false),
    {
        self.flags[i] = false;
    }
}

} // verus!
