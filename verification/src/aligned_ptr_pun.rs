//! A machine word that packs an even "pointer" value with a one-bit flag.

use vstd::prelude::*;

verus! {

/// One machine word holding an even value (a "pointer": here, a scaled arena
/// index) together with a boolean flag stored in the word's low bit.
///
/// The tree keeps a node's right-child link and its color in a single such
/// word, which makes the per-node linkage as compact as possible.
#[derive(Clone, Copy)]
pub struct AlignedPtrPun {
    bits: usize,
}

impl AlignedPtrPun {
    /// The pointer half of the word: its value with the low bit cleared.
    pub closed spec fn ptr(self) -> usize {
        (self.bits - (self.bits % 2)) as usize
    }

    /// The flag packed into the low bit.
    pub closed spec fn flag(self) -> bool {
        self.bits % 2 == 1
    }

    /// Packs an even value and a flag into one word.
    pub fn new(ptr: usize, flag: bool) -> (r: AlignedPtrPun)
        requires
            ptr % 2 == 0,
            ptr + 1 <= usize::MAX,
        ensures
            r.ptr() == ptr,
            r.flag() == flag,
    {
        AlignedPtrPun { bits: if flag { ptr + 1 } else { ptr } }
    }

    /// Recovers the even value and the flag.
    pub fn eliminate(self) -> (r: (usize, bool))
        ensures
            r.0 == self.ptr(),
            r.1 == self.flag(),
    {
        let low = self.bits % 2;
        (self.bits - low, low == 1)
    }

    /// Replaces the pointer half while preserving the flag.
    pub fn set_ptr(&mut self, ptr: usize)
        requires
            ptr % 2 == 0,
            ptr + 1 <= usize::MAX,
        ensures
            final(self).ptr() == ptr,
            final(self).flag() == old(self).flag(),
    {
        self.bits = ptr + self.bits % 2;
    }

    /// Replaces the flag while preserving the pointer half.
    pub fn set_flag(&mut self, flag: bool)
        requires
            old(self).ptr() + 1 <= usize::MAX,
        ensures
            final(self).flag() == flag,
            final(self).ptr() == old(self).ptr(),
    {
        let base = self.bits - self.bits % 2;
        self.bits = if flag { base + 1 } else { base };
    }
}

} // verus!
