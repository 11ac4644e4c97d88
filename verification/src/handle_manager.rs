use vstd::prelude::*;
use crate::objects::{GcHandle, HandleType, empty_handle};

verus! {

/// Slots of a [`HandleManager`].
pub const HANDLE_CAPACITY: usize = 65536;

/// A simple handle store: a fixed array of 65536 handle slots handed out in
/// order. The handle of slot `i` is `i + 1`.
pub struct HandleManager {
    handles: Vec<GcHandle>,
    used_handles: usize,
}

impl HandleManager {
    pub closed spec fn slots(self) -> Seq<GcHandle> {
        self.handles@
    }

    pub closed spec fn used(self) -> nat {
        self.used_handles as nat
    }

    /// There are [`HANDLE_CAPACITY`] slots, the first `used()` handed out.
    pub open spec fn wf(self) -> bool {
        &&& self.slots().len() == HANDLE_CAPACITY
        &&& self.used() <= HANDLE_CAPACITY
    }

    /// Whether `h` is one of the handles handed out so far.
    pub open spec fn spec_contains_handle(self, h: usize) -> bool {
        1 <= h <= self.used()
    }

    /// A store with every slot cleared and none handed out.
    pub fn new() -> (r: HandleManager)
        ensures
            r.wf(),
            r.used() == 0,
            forall|i: int| 0 <= i < HANDLE_CAPACITY ==> #[trigger] r.slots()[i] == empty_handle(),
    {
        let mut handles: Vec<GcHandle> = Vec::new();
        let mut k: usize = 0;
        while k < HANDLE_CAPACITY
            invariant
                k <= HANDLE_CAPACITY,
                handles@.len() == k,
                forall|j: int| 0 <= j < k ==> #[trigger] handles@[j] == empty_handle(),
            decreases HANDLE_CAPACITY - k,
        {
            handles.push(GcHandle::default());
            k = k + 1;
        }
        HandleManager { handles, used_handles: 0 }
    }

    /// Whether `h` is one of the handles handed out so far.
    pub fn contains_handle(&self, h: usize) -> (r: bool)
        requires
            self.wf(),
        ensures
            r == self.spec_contains_handle(h),
    {
        1 <= h && h <= self.used_handles
    }

    /// Hands out the next slot holding the given handle. The store must not
    /// be full.
    pub fn create_handle(&mut self, object: usize, extra_or_secondary: usize, handle_type: HandleType) -> (r: usize)
        requires
            old(self).wf(),
            old(self).used() < HANDLE_CAPACITY,
        ensures
            final(self).wf(),
            r == old(self).used() + 1,
            final(self).used() == old(self).used() + 1,
            final(self).slots() == old(self).slots().update(
                old(self).used() as int,
                GcHandle { object, extra_or_secondary, handle_type },
            ),
    {
        let idx = self.used_handles;
        self.handles.set(idx, GcHandle { object, extra_or_secondary, handle_type });
        self.used_handles = idx + 1;
        idx + 1
    }

    /// Hands out the next slot holding a copy of the handle `h`.
    pub fn duplicate_handle(&mut self, h: usize) -> (r: usize)
        requires
            old(self).wf(),
            1 <= h <= HANDLE_CAPACITY,
            old(self).used() < HANDLE_CAPACITY,
        ensures
            final(self).wf(),
            r == old(self).used() + 1,
            final(self).used() == old(self).used() + 1,
            final(self).slots() == old(self).slots().update(old(self).used() as int, old(self).slots()[h - 1]),
    {
        let copy = self.handles[h - 1];
        let idx = self.used_handles;
        self.handles.set(idx, copy);
        self.used_handles = idx + 1;
        idx + 1
    }

    /// Clears the slot of `h`; the slot is not handed out again.
    pub fn destroy_handle(&mut self, h: usize)
        requires
            old(self).wf(),
            1 <= h <= HANDLE_CAPACITY,
        ensures
            final(self).wf(),
            final(self).used() == old(self).used(),
            final(self).slots() == old(self).slots().update(h - 1, empty_handle()),
    {
        self.handles.set(h - 1, GcHandle::default());
    }

    /// The handles handed out so far, in order.
    pub fn for_each_handle(&self) -> (r: Vec<GcHandle>)
        requires
            self.wf(),
        ensures
            r@ == self.slots().take(self.used() as int),
    {
        let mut out: Vec<GcHandle> = Vec::new();
        let mut i: usize = 0;
        while i < self.used_handles
            invariant
                self.wf(),
                i <= self.used_handles,
                out@ == self.slots().take(i as int),
            decreases self.used_handles - i,
        {
            out.push(self.handles[i]);
            proof {
                assert(self.slots().take(i + 1) =~= self.slots().take(i as int).push(self.slots()[i as int]));
            }
            i = i + 1;
        }
        out
    }

    /// Replaces the handles handed out so far by `updated`, one per slot in
    /// order (what a pass over every handle writes back).
    pub fn for_each_handle_mut(&mut self, updated: &Vec<GcHandle>)
        requires
            old(self).wf(),
            updated@.len() == old(self).used(),
        ensures
            final(self).wf(),
            final(self).used() == old(self).used(),
            final(self).slots() == updated@ + old(self).slots().skip(old(self).used() as int),
    {
        let mut i: usize = 0;
        while i < self.used_handles
            invariant
                self.wf(),
                self.used_handles == old(self).used_handles,
                old(self).slots().len() == HANDLE_CAPACITY,
                updated@.len() == self.used_handles,
                i <= self.used_handles,
                self.slots() == updated@.take(i as int) + old(self).slots().skip(i as int),
            decreases self.used_handles - i,
        {
            let ghost prev = self.slots();
            self.handles.set(i, updated[i]);
            proof {
                let want = updated@.take(i + 1) + old(self).slots().skip(i + 1);
                assert(want.len() == self.slots().len());
                assert forall|j: int| 0 <= j < want.len() implies self.slots()[j] == want[j] by {
                    if j < i {
                        assert(prev[j] == (updated@.take(i as int) + old(self).slots().skip(i as int))[j]);
                    } else if j > i {
                        assert(prev[j] == (updated@.take(i as int) + old(self).slots().skip(i as int))[j]);
                    }
                }
                assert(self.slots() =~= want);
            }
            i = i + 1;
        }
        proof {
            assert(updated@.take(i as int) =~= updated@);
        }
    }
}

} // verus!
