use vstd::prelude::*;

verus! {

/// Issues row ids that are unique and strictly increasing.
pub struct RowIdAllocator {
    pub next: u64,
}

impl RowIdAllocator {
    pub fn new() -> (r: RowIdAllocator)
        ensures
            r.next == 1,
    {
        RowIdAllocator { next: 1 }
    }

    /// The next id, greater than every id issued before; `None` once the ids
    /// are used up.
    pub fn next_id(&mut self) -> (r: Option<u64>)
        ensures
            old(self).next < u64::MAX ==> r == Some(old(self).next) && final(self).next == old(self).next + 1,
            old(self).next == u64::MAX ==> r.is_none() && final(self).next == old(self).next,
    {
        if self.next < u64::MAX {
            let id = self.next;
            self.next = self.next + 1;
            Some(id)
        } else {
            None
        }
    }
}

} // verus!
