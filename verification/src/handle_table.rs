use vstd::prelude::*;
use crate::bits::{
    FlagBits, count_used, flag_bits, lemma_count_full, lemma_count_used_bounds, lemma_count_used_update,
    lemma_count_zero,
};
use crate::objects::{GcHandle, empty_handle};

verus! {

/// Handles per segment of the handle table.
pub const HANDLE_SEGMENT_SIZE: usize = 1000;

/// A segment of the handle table: 1000 handle slots, a bit per slot telling
/// whether it is in use, and the number of slots in use.
pub struct HandleTableSegment {
    pub handles: Vec<GcHandle>,
    pub used_map: FlagBits,
    pub used_count: usize,
}

impl HandleTableSegment {
    pub open spec fn used(self) -> Seq<bool> {
        flag_bits(self.used_map)
    }

    pub open spec fn wf(self) -> bool {
        &&& self.handles@.len() == HANDLE_SEGMENT_SIZE
        &&& self.used().len() >= HANDLE_SEGMENT_SIZE
        &&& self.used_count == count_used(self.used(), HANDLE_SEGMENT_SIZE as int)
        &&& forall|i: int|
            0 <= i < HANDLE_SEGMENT_SIZE && !self.used()[i] ==> #[trigger] self.handles@[i]
                == empty_handle()
    }
}

/// The handle of slot `idx` of segment `seg`.
pub open spec fn handle_id(seg: int, idx: int) -> int {
    seg * HANDLE_SEGMENT_SIZE + idx + 1
}

/// The segment of the handle `h`.
pub open spec fn handle_seg(h: usize) -> int {
    (h - 1) / HANDLE_SEGMENT_SIZE as int
}

/// The slot of the handle `h` in its segment.
pub open spec fn handle_idx(h: usize) -> int {
    (h - 1) % HANDLE_SEGMENT_SIZE as int
}

proof fn lemma_handle_id(seg: int, idx: int)
    requires
        seg >= 0,
        0 <= idx < HANDLE_SEGMENT_SIZE,
        handle_id(seg, idx) <= usize::MAX,
    ensures
        handle_seg(handle_id(seg, idx) as usize) == seg,
        handle_idx(handle_id(seg, idx) as usize) == idx,
{
    let h = handle_id(seg, idx);
    assert((seg * 1000 + idx) / 1000 == seg && (seg * 1000 + idx) % 1000 == idx) by (nonlinear_arith)
        requires
            seg >= 0,
            0 <= idx < 1000,
    ;
}

/// The GC handles, in segments of 1000 that never move. A handle is named
/// by a non-zero number that gives its segment and slot.
pub struct HandleTable {
    segments: Vec<HandleTableSegment>,
}

impl HandleTable {
    pub closed spec fn segs(self) -> Seq<HandleTableSegment> {
        self.segments@
    }

    pub closed spec fn wf(self) -> bool {
        &&& forall|s: int| 0 <= s < self.segments@.len() ==> #[trigger] self.segments@[s].wf()
        &&& self.segments@.len() * HANDLE_SEGMENT_SIZE < usize::MAX
    }

    /// Whether `h` names a slot of an existing segment.
    pub open spec fn in_range(self, h: usize) -> bool {
        h >= 1 && handle_seg(h) < self.segs().len()
    }

    /// Whether `h` is a handle in use.
    pub open spec fn spec_contains(self, h: usize) -> bool {
        self.in_range(h) && self.segs()[handle_seg(h)].used()[handle_idx(h)]
    }

    /// The handle stored in slot `h`.
    pub open spec fn spec_handle(self, h: usize) -> GcHandle {
        self.segs()[handle_seg(h)].handles@[handle_idx(h)]
    }

    /// An empty table.
    pub fn new() -> (r: HandleTable)
        ensures
            r.wf(),
            forall|h: usize| !r.spec_contains(h),
    {
        HandleTable { segments: Vec::new() }
    }

    /// Whether `h` is a handle in use.
    pub fn contains(&self, h: usize) -> (r: bool)
        requires
            self.wf(),
        ensures
            r == self.spec_contains(h),
    {
        if h == 0 {
            return false;
        }
        let seg = (h - 1) / HANDLE_SEGMENT_SIZE;
        let idx = (h - 1) % HANDLE_SEGMENT_SIZE;
        if seg >= self.segments.len() {
            return false;
        }
        proof {
            assert(self.segments@[seg as int].wf());
        }
        self.segments[seg].used_map.get(idx)
    }

    /// Takes the first free slot (in segment and slot order), adding a new
    /// segment where all are full, and returns its handle, which holds the
    /// cleared handle. `None` only where handle numbers would overflow.
    pub fn create_new(&mut self) -> (r: Option<usize>)
        requires
            old(self).wf(),
        ensures
            final(self).wf(),
            r matches Some(h) ==> {
                &&& !old(self).spec_contains(h)
                &&& final(self).spec_contains(h)
                &&& final(self).spec_handle(h) == empty_handle()
                &&& forall|g: usize|
                    g != h ==> (#[trigger] final(self).spec_contains(g) == old(self).spec_contains(g))
                        && (old(self).spec_contains(g) ==> final(self).spec_handle(g)
                        == old(self).spec_handle(g))
            },
            r matches Some(h) ==> old(self).in_range(h) || h == handle_id(old(self).segs().len() as int, 0),
            r matches Some(h) ==> forall|g: usize|
                #[trigger] old(self).in_range(g) && g < h ==> old(self).spec_contains(g),
            r is None ==> *final(self) == *old(self),
            r is None ==> (forall|g: usize| #[trigger] old(self).in_range(g) ==> old(self).spec_contains(g))
                && old(self).segs().len() >= usize::MAX / HANDLE_SEGMENT_SIZE - 1,
    {
        let n = self.segments.len();
        let mut s: usize = 0;
        while s < n
            invariant
                self.wf(),
                n == self.segments@.len(),
                *self == *old(self),
                s <= n,
                forall|g: usize| #[trigger] self.in_range(g) && handle_seg(g) < s ==> self.spec_contains(g),
            decreases n - s,
        {
            if self.segments[s].used_count != HANDLE_SEGMENT_SIZE {
                let mut i: usize = 0;
                while i < HANDLE_SEGMENT_SIZE
                    invariant
                        self.wf(),
                        n == self.segments@.len(),
                        *self == *old(self),
                        s < n,
                        i <= HANDLE_SEGMENT_SIZE,
                        forall|j: int| 0 <= j < i ==> #[trigger] self.segments@[s as int].used()[j],
                        forall|g: usize| #[trigger] self.in_range(g) && handle_seg(g) < s ==> self.spec_contains(g),
                    decreases HANDLE_SEGMENT_SIZE - i,
                {
                    proof {
                        assert(self.segments@[s as int].wf());
                    }
                    if !self.segments[s].used_map.get(i) {
                        let mut seg = self.segments.remove(s);
                        let ghost old_used = seg.used();
                        seg.used_map.replace(i, true);
                        proof {
                            lemma_count_used_update(old_used, HANDLE_SEGMENT_SIZE as int, i as int, true);
                            lemma_count_used_bounds(seg.used(), HANDLE_SEGMENT_SIZE as int);
                        }
                        seg.used_count = seg.used_count + 1;
                        self.segments.insert(s, seg);
                        let h = s * HANDLE_SEGMENT_SIZE + i + 1;
                        proof {
                            assert(self.segments@ == old(self).segments@.update(s as int, seg));
                            lemma_handle_id(s as int, i as int);
                            assert forall|g: usize| #[trigger] old(self).in_range(g) && g < h implies old(self).spec_contains(g) by {
                                if handle_seg(g) >= s {
                                    assert(handle_seg(g) == s && handle_idx(g) < i) by (nonlinear_arith)
                                        requires
                                            handle_seg(g) >= s,
                                            handle_seg(g) == (g - 1) / 1000,
                                            handle_idx(g) == (g - 1) % 1000,
                                            g >= 1,
                                            g < h,
                                            h == s * 1000 + i + 1,
                                            i < 1000,
                                    ;
                                }
                            }
                            assert forall|g: usize|
                                g != h implies (#[trigger] self.spec_contains(g) == old(self).spec_contains(g))
                                && (old(self).spec_contains(g) ==> self.spec_handle(g) == old(self).spec_handle(g))
                            by {
                                if self.in_range(g) && handle_seg(g) == s {
                                    if handle_idx(g) == i {
                                        assert(handle_id(s as int, i as int) == g) by (nonlinear_arith)
                                            requires
                                                handle_seg(g) == s,
                                                handle_idx(g) == i,
                                                g >= 1,
                                        ;
                                    }
                                }
                            }
                            assert forall|j: int| 0 <= j < self.segments@.len() implies #[trigger] self.segments@[j].wf() by {
                                if j != s {
                                    assert(self.segments@[j] == old(self).segments@[j]);
                                }
                            }
                        }
                        return Some(h);
                    }
                    i = i + 1;
                }
            }
            proof {
                assert(self.segments@[s as int].wf());
                if self.segments@[s as int].used_count == HANDLE_SEGMENT_SIZE {
                    lemma_count_full(self.segments@[s as int].used(), HANDLE_SEGMENT_SIZE as int);
                }
                assert forall|g: usize| #[trigger] self.in_range(g) && handle_seg(g) < s + 1 implies self.spec_contains(g) by {
                    if handle_seg(g) == s {
                        assert(0 <= handle_idx(g) < 1000);
                    }
                }
            }
            s = s + 1;
        }
        if n >= usize::MAX / HANDLE_SEGMENT_SIZE - 1 {
            return None;
        }
        let mut handles: Vec<GcHandle> = Vec::new();
        let mut k: usize = 0;
        while k < HANDLE_SEGMENT_SIZE
            invariant
                k <= HANDLE_SEGMENT_SIZE,
                handles@.len() == k,
                forall|j: int| 0 <= j < k ==> #[trigger] handles@[j] == empty_handle(),
            decreases HANDLE_SEGMENT_SIZE - k,
        {
            handles.push(GcHandle::default());
            k = k + 1;
        }
        let mut used_map = FlagBits::zero();
        let ghost zero_bits = flag_bits(used_map);
        used_map.replace(0, true);
        proof {
            assert forall|m: int| 0 <= m <= HANDLE_SEGMENT_SIZE implies count_used(zero_bits, m) == 0 by {
                lemma_count_zero(zero_bits, m);
            }
            lemma_count_used_update(zero_bits, HANDLE_SEGMENT_SIZE as int, 0, true);
        }
        let seg = HandleTableSegment { handles, used_map, used_count: 1 };
        self.segments.push(seg);
        let h = n * HANDLE_SEGMENT_SIZE + 1;
        proof {
            lemma_handle_id(n as int, 0);
            assert forall|j: int| 0 <= j < self.segments@.len() implies #[trigger] self.segments@[j].wf() by {
                if j < n {
                    assert(self.segments@[j] == old(self).segments@[j]);
                }
            }
            assert forall|g: usize|
                g != h implies (#[trigger] self.spec_contains(g) == old(self).spec_contains(g))
                && (old(self).spec_contains(g) ==> self.spec_handle(g) == old(self).spec_handle(g))
            by {
                if self.in_range(g) && handle_seg(g) == n {
                    if handle_idx(g) == 0 {
                        assert(g == h) by (nonlinear_arith)
                            requires
                                handle_seg(g) == n,
                                handle_idx(g) == 0,
                                g >= 1,
                                h == n * 1000 + 1,
                        ;
                    }
                }
            }
        }
        Some(h)
    }
}

impl HandleTable {
    /// Frees the slot of `h` and clears the handle in it; an error where `h`
    /// names no slot of an existing segment.
    pub fn remove(&mut self, h: usize) -> (r: Result<(), ()>)
        requires
            old(self).wf(),
        ensures
            final(self).wf(),
            r is Ok <==> old(self).in_range(h),
            r is Ok ==> !final(self).spec_contains(h) && final(self).spec_handle(h) == empty_handle(),
            forall|g: usize|
                g != h ==> (#[trigger] final(self).spec_contains(g) == old(self).spec_contains(g)) && (
                old(self).spec_contains(g) ==> final(self).spec_handle(g) == old(self).spec_handle(g)),
            r is Err ==> *final(self) == *old(self),
    {
        if h == 0 {
            return Err(());
        }
        let s = (h - 1) / HANDLE_SEGMENT_SIZE;
        let i = (h - 1) % HANDLE_SEGMENT_SIZE;
        if s >= self.segments.len() {
            return Err(());
        }
        proof {
            assert(self.segments@[s as int].wf());
        }
        let mut seg = self.segments.remove(s);
        let ghost old_used = seg.used();
        if seg.used_map.replace(i, false) {
            proof {
                lemma_count_used_update(old_used, HANDLE_SEGMENT_SIZE as int, i as int, false);
                lemma_count_used_bounds(seg.used(), HANDLE_SEGMENT_SIZE as int);
            }
            seg.used_count = seg.used_count - 1;
        } else {
            proof {
                assert(seg.used() =~= old_used);
            }
        }
        seg.handles.set(i, GcHandle::default());
        self.segments.insert(s, seg);
        proof {
            assert(self.segments@ == old(self).segments@.update(s as int, seg));
            assert forall|g: usize|
                g != h implies (#[trigger] self.spec_contains(g) == old(self).spec_contains(g)) && (
                old(self).spec_contains(g) ==> self.spec_handle(g) == old(self).spec_handle(g))
            by {
                if self.in_range(g) && handle_seg(g) == s && handle_idx(g) == i {
                    assert(g == h) by (nonlinear_arith)
                        requires
                            handle_seg(g) == s,
                            handle_idx(g) == i,
                            s == (h - 1) / 1000,
                            i == (h - 1) % 1000,
                            g >= 1,
                            h >= 1,
                    ;
                }
            }
            assert forall|j: int| 0 <= j < self.segments@.len() implies #[trigger] self.segments@[j].wf() by {
                if j != s {
                    assert(self.segments@[j] == old(self).segments@[j]);
                }
            }
        }
        Ok(())
    }

    /// The handle stored in slot `h`.
    pub fn get(&self, h: usize) -> (r: GcHandle)
        requires
            self.wf(),
            self.in_range(h),
        ensures
            r == self.spec_handle(h),
    {
        let s = (h - 1) / HANDLE_SEGMENT_SIZE;
        let i = (h - 1) % HANDLE_SEGMENT_SIZE;
        proof {
            assert(self.segments@[s as int].wf());
        }
        self.segments[s].handles[i]
    }

    /// Stores `value` in the slot of the handle `h`, which is in use.
    pub fn set(&mut self, h: usize, value: GcHandle)
        requires
            old(self).wf(),
            old(self).spec_contains(h),
        ensures
            final(self).wf(),
            final(self).spec_handle(h) == value,
            forall|g: usize| #[trigger] final(self).spec_contains(g) == old(self).spec_contains(g),
            forall|g: usize|
                g != h && old(self).spec_contains(g) ==> #[trigger] final(self).spec_handle(g)
                    == old(self).spec_handle(g),
    {
        let s = (h - 1) / HANDLE_SEGMENT_SIZE;
        let i = (h - 1) % HANDLE_SEGMENT_SIZE;
        proof {
            assert(self.segments@[s as int].wf());
        }
        let mut seg = self.segments.remove(s);
        seg.handles.set(i, value);
        self.segments.insert(s, seg);
        proof {
            assert(self.segments@ == old(self).segments@.update(s as int, seg));
            assert forall|g: usize|
                g != h && old(self).spec_contains(g) implies #[trigger] self.spec_handle(g) == old(self).spec_handle(g)
            by {
                if handle_seg(g) == s && handle_idx(g) == i {
                    assert(g == h) by (nonlinear_arith)
                        requires
                            handle_seg(g) == s,
                            handle_idx(g) == i,
                            s == (h - 1) / 1000,
                            i == (h - 1) % 1000,
                            g >= 1,
                            h >= 1,
                    ;
                }
            }
            assert forall|g: usize| #[trigger] self.spec_contains(g) == old(self).spec_contains(g) by {
                if self.in_range(g) && handle_seg(g) == s {
                }
            }
            assert forall|j: int| 0 <= j < self.segments@.len() implies #[trigger] self.segments@[j].wf() by {
                if j != s {
                    assert(self.segments@[j] == old(self).segments@[j]);
                }
            }
        }
    }

    /// The handles in use, in segment and slot order.
    pub fn used_handles(&self) -> (r: Vec<usize>)
        requires
            self.wf(),
        ensures
            forall|k: int| 0 <= k < r@.len() ==> self.spec_contains(#[trigger] r@[k]),
            forall|h: usize| self.spec_contains(h) ==> r@.contains(h),
            forall|a: int, b: int| 0 <= a < b < r@.len() ==> r@[a] < r@[b],
    {
        let mut out: Vec<usize> = Vec::new();
        let n = self.segments.len();
        let mut s: usize = 0;
        while s < n
            invariant
                self.wf(),
                n == self.segments@.len(),
                s <= n,
                forall|k: int| 0 <= k < out@.len() ==> self.spec_contains(#[trigger] out@[k]),
                forall|k: int| 0 <= k < out@.len() ==> #[trigger] out@[k] < handle_id(s as int, 0),
                forall|h: usize| self.spec_contains(h) && handle_seg(h) < s ==> out@.contains(h),
                forall|a: int, b: int| 0 <= a < b < out@.len() ==> out@[a] < out@[b],
            decreases n - s,
        {
            proof {
                assert(self.segments@[s as int].wf());
            }
            let mut i: usize = 0;
            while i < HANDLE_SEGMENT_SIZE
                invariant
                    self.wf(),
                    n == self.segments@.len(),
                    s < n,
                    i <= HANDLE_SEGMENT_SIZE,
                    forall|k: int| 0 <= k < out@.len() ==> self.spec_contains(#[trigger] out@[k]),
                    forall|k: int| 0 <= k < out@.len() ==> #[trigger] out@[k] < handle_id(s as int, i as int),
                    forall|h: usize|
                        self.spec_contains(h) && (handle_seg(h) < s || (handle_seg(h) == s && handle_idx(h) < i))
                            ==> out@.contains(h),
                    forall|a: int, b: int| 0 <= a < b < out@.len() ==> out@[a] < out@[b],
                decreases HANDLE_SEGMENT_SIZE - i,
            {
                proof {
                    assert(self.segments@[s as int].wf());
                }
                if self.segments[s].used_map.get(i) {
                    let h = s * HANDLE_SEGMENT_SIZE + i + 1;
                    proof {
                        lemma_handle_id(s as int, i as int);
                    }
                    let ghost prev = out@;
                    out.push(h);
                    proof {
                        assert forall|g: usize|
                            self.spec_contains(g) && (handle_seg(g) < s || (handle_seg(g) == s && handle_idx(g) < i + 1))
                                implies out@.contains(g)
                        by {
                            if handle_seg(g) == s && handle_idx(g) == i {
                                assert(g == h) by (nonlinear_arith)
                                    requires
                                        handle_seg(g) == s,
                                        handle_idx(g) == i,
                                        g >= 1,
                                        h == s * 1000 + i + 1,
                                ;
                                assert(out@[out@.len() - 1] == h);
                            } else {
                                assert(prev.contains(g));
                                let k = choose|k: int| 0 <= k < prev.len() && prev[k] == g;
                                assert(out@[k] == g);
                            }
                        }
                    }
                } else {
                    proof {
                        assert forall|g: usize|
                            self.spec_contains(g) && (handle_seg(g) < s || (handle_seg(g) == s && handle_idx(g) < i + 1))
                                implies out@.contains(g)
                        by {
                            if handle_seg(g) == s && handle_idx(g) == i {
                                assert(false);
                            }
                        }
                    }
                }
                i = i + 1;
            }
            s = s + 1;
        }
        out
    }
}

} // verus!
