//! A pool of reusable values, so that scratch storage is not allocated
//! anew on every call.

use vstd::prelude::*;

verus! {

/// A stack of values handed back for reuse.
pub struct Pool<T> {
    values: Vec<T>,
}

impl<T> Pool<T> {
    /// The values held, the last one handed back at the end.
    pub closed spec fn held(&self) -> Seq<T> {
        self.values@
    }

    /// An empty pool.
    pub fn new() -> (r: Self)
        ensures
            r.held() == Seq::<T>::empty(),
    {
        Pool { values: Vec::new() }
    }

    /// Borrow the value handed back last, if any.
    pub fn take_one(&mut self) -> (r: Option<T>)
        ensures
            old(self).held().len() == 0 ==> r is None && final(self).held() == old(self).held(),
            old(self).held().len() > 0 ==> r == Some(old(self).held().last()) && final(self).held() == old(self).held().drop_last(),
    {
        self.values.pop()
    }

    /// Hand a value back for later reuse.
    pub fn give_back(&mut self, value: T)
        ensures
            final(self).held() == old(self).held().push(value),
    {
        self.values.push(value);
    }
}

} // verus!
