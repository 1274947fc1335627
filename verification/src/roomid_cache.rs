//! The ids of the active rooms, kept in memory between fetch runs.

use vstd::prelude::*;

verus! {

/// The cached ids of the active rooms.
#[derive(Debug)]
pub struct RoomIdCache {
    ids: Vec<i32>,
}

impl RoomIdCache {
    /// The cached ids, in the order they were loaded.
    pub closed spec fn ids(&self) -> Seq<i32> {
        self.ids@
    }

    /// A cache holding the ids just loaded.
    pub fn new(loaded: Vec<i32>) -> (c: RoomIdCache)
        ensures
            c.ids() == loaded@,
    {
        RoomIdCache { ids: loaded }
    }

    /// Replaces the cached ids with the ones just loaded.
    pub fn refresh(&mut self, loaded: Vec<i32>)
        ensures
            final(self).ids() == loaded@,
    {
        self.ids = loaded;
    }

    /// A copy of the cached ids.
    pub fn get_all(&self) -> (r: Vec<i32>)
        ensures
            r@ == self.ids(),
    {
        let mut r: Vec<i32> = Vec::new();
        let mut i: usize = 0;
        while i < self.ids.len()
            invariant
                i <= self.ids@.len(),
                r@ == self.ids@.take(i as int),
            decreases self.ids@.len() - i,
        {
            r.push(self.ids[i]);
            proof {
                assert(r@ =~= self.ids@.take(i + 1));
            }
            i = i + 1;
        }
        proof {
            assert(self.ids@.take(self.ids@.len() as int) =~= self.ids@);
        }
        r
    }

    /// The number of cached ids.
    pub fn len(&self) -> (n: usize)
        ensures
            n == self.ids().len(),
    {
        self.ids.len()
    }

    /// No id is cached.
    pub fn is_empty(&self) -> (r: bool)
        ensures
            r == (self.ids().len() == 0),
    {
        self.ids.len() == 0
    }
}

} // verus!
