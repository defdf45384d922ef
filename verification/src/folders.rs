//! Numbered holding folders: an explicit allocator owning the next candidate
//! index per prefix; the search is bounded and exhaustion is reported, never
//! an endless walk.

use vstd::prelude::*;
use crate::bytes::{copy_bytes, dec_rep, u64_to_dec};

verus! {

/// Allocates names `prefix1`, `prefix2`, ... in order; a name the file
/// system rejects as taken is skipped by `advance`. The search gives up
/// after the bound.
pub struct FolderAllocator {
    pub prefix: Vec<u8>,
    pub next: usize,
}

/// Smallest index never tried; the search is bounded by 1000.
pub open spec fn allocator_bound() -> int {
    1000
}

impl FolderAllocator {
    pub open spec fn candidate_name(self) -> Seq<u8> {
        self.prefix@ + dec_rep(self.next as nat)
    }

    pub fn new(prefix: &[u8]) -> (r: FolderAllocator)
        ensures
            r.prefix@ == prefix@,
            r.next == 1,
    {
        FolderAllocator { prefix: copy_bytes(prefix), next: 1 }
    }

    /// The next candidate name, or nothing once the bound is exhausted.
    pub fn candidate(&self) -> (r: Option<Vec<u8>>)
        ensures
            match r {
                Some(v) => self.next < allocator_bound() && v@ == self.candidate_name(),
                None => self.next >= allocator_bound(),
            },
    {
        if self.next >= 1000 {
            return None;
        }
        let mut v = copy_bytes(self.prefix.as_slice());
        let digits = u64_to_dec(self.next as u64);
        let mut i: usize = 0;
        while i < digits.len()
            invariant
                0 <= i <= digits@.len(),
                v@ == self.prefix@ + digits@.take(i as int),
            decreases digits@.len() - i,
        {
            v.push(digits[i]);
            proof {
                assert(self.prefix@ + digits@.take(i + 1 as int) =~= (self.prefix@
                    + digits@.take(i as int)).push(digits@[i as int]));
            }
            i = i + 1;
        }
        proof {
            assert(digits@.take(i as int) =~= digits@);
        }
        Some(v)
    }

    /// Skip a candidate that turned out to be taken.
    pub fn advance(&mut self)
        requires
            old(self).next < allocator_bound(),
        ensures
            final(self).prefix@ == old(self).prefix@,
            final(self).next == old(self).next + 1,
    {
        self.next = self.next + 1;
    }
}

} // verus!
