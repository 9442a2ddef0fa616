//! The matcher registry: a table from opaque positive integer handles to
//! compiled rule sets.  Handles are allocated monotonically and never reused
//! while the registry lives; destroying an unknown handle does nothing.

use vstd::prelude::*;
use std::collections::HashMap;
use crate::pattern::RuleSet;
use crate::pattern::compile;
use crate::pattern::compile_spec;

verus! {

broadcast use vstd::std_specs::hash::group_hash_axioms;

/// The table of live matchers.
pub struct Registry {
    pub table: HashMap<i32, RuleSet>,
    pub next_handle: i32,
}

impl Registry {
    /// Handles start at one, every live handle lies below the next one to be
    /// issued, and every stored rule set is well formed.
    pub open spec fn wf(self) -> bool {
        &&& 1 <= self.next_handle
        &&& forall|h: i32| self.table@.dom().contains(h) ==> 1 <= h < self.next_handle
        &&& forall|h: i32|
            self.table@.dom().contains(h) ==> (#[trigger] self.table@[h]).wf()
    }

    /// An empty registry; the first handle to be issued is one.
    pub fn new() -> (r: Registry)
        ensures
            r.wf(),
            r.table@ == Map::<i32, RuleSet>::empty(),
            r.next_handle == 1,
    {
        Registry { table: HashMap::new(), next_handle: 1 }
    }

    /// Stores a rule set under a fresh positive handle.  Once the handle
    /// space is exhausted nothing is stored and a negative code comes back.
    pub fn store(&mut self, rs: RuleSet) -> (h: i32)
        requires
            old(self).wf(),
            rs.wf(),
        ensures
            final(self).wf(),
            h > 0 ==> {
                &&& h == old(self).next_handle
                &&& !old(self).table@.dom().contains(h)
                &&& final(self).table@ == old(self).table@.insert(h, rs)
                &&& final(self).next_handle == old(self).next_handle + 1
            },
            h <= 0 ==> h == -3 && *final(self) == *old(self),
            h > 0 <==> old(self).next_handle < i32::MAX,
    {
        if self.next_handle == i32::MAX {
            return -3;
        }
        let h = self.next_handle;
        self.table.insert(h, rs);
        self.next_handle = self.next_handle + 1;
        h
    }

    /// Compiles pattern text and stores the rule set under a fresh handle.
    pub fn create(&mut self, text: &str) -> (h: i32)
        requires
            old(self).wf(),
        ensures
            final(self).wf(),
            h > 0 ==> {
                &&& h == old(self).next_handle
                &&& !old(self).table@.dom().contains(h)
                &&& final(self).table@.dom() == old(self).table@.dom().insert(h)
                &&& final(self).table@[h]@ == compile_spec(text@)
                &&& final(self).table@[h].wf()
                &&& forall|k: i32|
                    k != h && old(self).table@.dom().contains(k) ==> final(self).table@[k] == old(
                        self,
                    ).table@[k]
                &&& final(self).next_handle == old(self).next_handle + 1
            },
            h <= 0 ==> *final(self) == *old(self),
            h > 0 <==> old(self).next_handle < i32::MAX,
    {
        let rs = compile(text);
        let h = self.store(rs);
        proof {
            if h > 0 {
                assert(self.table@.dom() =~= old(self).table@.dom().insert(h));
            }
        }
        h
    }

    /// Removes the entry of `handle` if it is present; unknown or
    /// non-positive handles change nothing.
    pub fn destroy(&mut self, handle: i32)
        requires
            old(self).wf(),
        ensures
            final(self).wf(),
            final(self).next_handle == old(self).next_handle,
            handle >= 1 ==> final(self).table@ == old(self).table@.remove(handle),
            handle < 1 ==> final(self).table@ == old(self).table@,
    {
        if handle >= 1 {
            self.table.remove(&handle);
        }
    }

    /// The rule set of `handle`, if that handle is live.
    pub fn lookup(&self, handle: i32) -> (r: Option<&RuleSet>)
        requires
            self.wf(),
        ensures
            match r {
                Some(rs) => self.table@.dom().contains(handle) && *rs == self.table@[handle]
                    && rs.wf(),
                None => !self.table@.dom().contains(handle),
            },
    {
        self.table.get(&handle)
    }

    /// How many matchers are live.
    pub fn len(&self) -> (n: usize)
        ensures
            n == self.table@.dom().len(),
    {
        self.table.len()
    }
}

} // verus!
