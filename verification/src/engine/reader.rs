//! The handles that one reading thread keeps open, one for each segment that
//! it has read from.
//!
//! The pool holds the handles and decides which of them to close; opening a
//! segment and reading from it is left to whoever owns the files.

use std::collections::BTreeMap;
use vstd::prelude::*;
use vstd::std_specs::btree::*;

verus! {

/// The open read handles of one thread, by generation.
pub struct KvStoreReader<H> {
    readers: BTreeMap<u64, H>,
}

impl<H> View for KvStoreReader<H> {
    type V = Map<u64, H>;

    closed spec fn view(&self) -> Map<u64, H> {
        self.readers@
    }
}

/// The handles that stay open when the segments below `safe_point` are
/// retired.
pub open spec fn kept<H>(handles: Map<u64, H>, safe_point: u64) -> Map<u64, H> {
    handles.restrict(Set::new(|g: u64| g >= safe_point))
}

impl<H> KvStoreReader<H> {
    /// A pool without handles.
    pub fn new() -> (r: Self)
        ensures
            r@ == Map::<u64, H>::empty(),
    {
        KvStoreReader { readers: BTreeMap::new() }
    }

    /// Closes the handles of the segments below `safe_point`: they are
    /// retired, and their files may be gone.
    pub fn close_stale_handle(&mut self, safe_point: u64)
        ensures
            final(self)@ == kept(old(self)@, safe_point),
    {
        broadcast use group_btree_axioms;

        let mut stale: Vec<u64> = Vec::new();
        for k in it: self.readers.keys()
            invariant
                forall|j: int| 0 <= j < stale@.len() ==> stale@[j] < safe_point,
                forall|j: int|
                    0 <= j < it.index() && *it.seq()[j] < safe_point ==> stale@.contains(
                        *it.seq()[j],
                    ),
        {
            let ghost before = stale@;
            if *k < safe_point {
                stale.push(*k);
            }
            proof {
                assert forall|j: int|
                    0 <= j < it.index() + 1 && *it.seq()[j] < safe_point implies stale@.contains(
                    *it.seq()[j],
                ) by {
                    if j < it.index() {
                        let w = choose|w: int| 0 <= w < before.len() && before[w] == *it.seq()[j];
                        assert(stale@[w] == *it.seq()[j]);
                    } else {
                        assert(stale@[stale@.len() - 1] == *k);
                    }
                }
            }
        }
        let mut i: usize = 0;
        while i < stale.len()
            invariant
                i <= stale@.len(),
                forall|j: int| 0 <= j < stale@.len() ==> stale@[j] < safe_point,
                forall|g: u64| #[trigger]
                    self@.contains_key(g) ==> old(self)@.contains_key(g) && self@[g] == old(
                        self,
                    )@[g] && (g >= safe_point || (exists|j: int|
                        i <= j < stale@.len() && stale@[j] == g)),
                forall|g: u64| #[trigger]
                    old(self)@.contains_key(g) && g >= safe_point ==> self@.contains_key(g),
            decreases stale@.len() - i,
        {
            let ghost prev = self@;
            self.readers.remove(&stale[i]);
            proof {
                assert(self@ == prev.remove(stale@[i as int]));
                assert forall|g: u64| #[trigger] self@.contains_key(g) implies g >= safe_point || (
                exists|j: int| i + 1 <= j < stale@.len() && stale@[j] == g) by {
                    assert(prev.contains_key(g));
                    if g < safe_point {
                        let j = choose|j: int| i <= j < stale@.len() && stale@[j] == g;
                        assert(j != i);
                    }
                }
            }
            i += 1;
        }
        assert(self@ =~= kept(old(self)@, safe_point));
    }

    /// Prepares a read from the segment of generation `gen`: closes the
    /// handles below `safe_point`, then hands out the handle of that segment
    /// if the pool holds one. On `None` the caller opens the segment.
    pub fn checkout(&mut self, safe_point: u64, gen: u64) -> (r: Option<H>)
        ensures
            r == kept(old(self)@, safe_point).get(gen),
            final(self)@ == kept(old(self)@, safe_point).remove(gen),
    {
        broadcast use group_btree_axioms;

        self.close_stale_handle(safe_point);
        self.readers.remove(&gen)
    }

    /// Takes a handle back after a read, to keep it open for the next one.
    pub fn checkin(&mut self, gen: u64, handle: H)
        ensures
            final(self)@ == old(self)@.insert(gen, handle),
    {
        broadcast use group_btree_axioms;

        self.readers.insert(gen, handle);
    }

    /// Whether the pool holds a handle for the segment of generation `gen`.
    pub fn is_open(&self, gen: u64) -> (r: bool)
        ensures
            r == self@.contains_key(gen),
    {
        broadcast use group_btree_axioms;

        self.readers.contains_key(&gen)
    }
}

} // verus!
