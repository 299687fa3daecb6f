//! A stream that cycles through a vector forever.
use vstd::prelude::*;

verus! {

/// Cycles through a non-empty vector.
pub struct RepeatVec<T: Copy> {
    vec: Vec<T>,
    pos: usize,
}

impl<T: Copy> RepeatVec<T> {
    pub closed spec fn items(&self) -> Seq<T> {
        self.vec@
    }

    /// Index of the item the next poll gives.
    pub closed spec fn next_index(&self) -> int {
        self.pos as int
    }

    pub closed spec fn wf(&self) -> bool {
        self.vec@.len() > 0 && self.pos < self.vec@.len()
    }

    /// A stream over `vec`, from its first item.
    pub fn new(vec: Vec<T>) -> (r: RepeatVec<T>)
        requires
            vec@.len() > 0,
        ensures
            r.wf(),
            r.items() == vec@,
            r.next_index() == 0,
    {
        RepeatVec { vec, pos: 0 }
    }

    /// The next item; after the last item comes the first again.
    pub fn poll(&mut self) -> (r: T)
        requires
            old(self).wf(),
        ensures
            final(self).wf(),
            final(self).items() == old(self).items(),
            r == old(self).items()[old(self).next_index()],
            final(self).next_index() == (old(self).next_index() + 1) % (old(self).items().len() as int),
    {
        let item = self.vec[self.pos];
        let n = self.vec.len();
        if self.pos < n - 1 {
            proof {
                vstd::arithmetic::div_mod::lemma_small_mod((self.pos + 1) as nat, n as nat);
            }
            self.pos = self.pos + 1;
        } else {
            proof {
                vstd::arithmetic::div_mod::lemma_mod_self_0(n as int);
            }
            self.pos = 0;
        }
        item
    }
}

} // verus!
