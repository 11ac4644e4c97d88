use vstd::prelude::*;
use std::collections::VecDeque;
use crate::heap_segment::HeapSegment;
use crate::segment::{LargeSegment, Segment, POINTER_SIZE, SEGMENT_SIZE, header_with_finalizer_run, object_words};
use crate::segment::{lemma_live_words_nonneg, lemma_live_from_range, readable, walk_end, walkable};
use crate::segment::{lemma_object_slots_aligned, object_slots};
use crate::bits::count_used;
use crate::handle_table::HandleTable;
use crate::type_table::{TypeEntry, TypeTable, is_valid_entry, type_kept};
use crate::objects::{GcHandle, HandleType};

verus! {

/// Index of the first segment, from `k` on, that contains `or`
/// (`segs.len()` where none does).
pub open spec fn first_seg_from(segs: Seq<HeapSegment>, or: usize, k: int) -> int
    decreases segs.len() - k,
{
    if k >= segs.len() || k < 0 {
        segs.len() as int
    } else if segs[k].hs_contains(or) {
        k
    } else {
        first_seg_from(segs, or, k + 1)
    }
}

/// Index of the first segment that contains `or` (`segs.len()` where none does).
pub open spec fn find_seg(segs: Seq<HeapSegment>, or: usize) -> int {
    first_seg_from(segs, or, 0)
}

/// Whether `or` points into the heap.
pub open spec fn in_heap(segs: Seq<HeapSegment>, or: usize) -> bool {
    find_seg(segs, or) < segs.len()
}

/// Whether the object at `or` lies in a small-object segment of the heap
/// and is pinned there.
pub open spec fn heap_pinned(segs: Seq<HeapSegment>, or: usize) -> bool {
    in_heap(segs, or) && segs[find_seg(segs, or)].hs_pinned_at(or)
}

/// Whether the object at `or` lies in a small-object segment of the heap.
pub open spec fn in_small(segs: Seq<HeapSegment>, or: usize) -> bool {
    in_heap(segs, or) && segs[find_seg(segs, or)].is_small()
}

/// Whether the object at `or` is marked.
pub open spec fn heap_marked(segs: Seq<HeapSegment>, or: usize) -> bool {
    in_heap(segs, or) && segs[find_seg(segs, or)].hs_marked(or)
}

/// Whether `or` is a non-null reference to a heap position that has a mark bit.
pub open spec fn markable(segs: Seq<HeapSegment>, or: usize) -> bool {
    or != 0 && in_heap(segs, or) && segs[find_seg(segs, or)].hs_mark_index(or) is Some
}

/// Whether the object at `or` is dead: null, or in the heap and not marked.
pub open spec fn is_dead(segs: Seq<HeapSegment>, or: usize) -> bool {
    or == 0 || (in_heap(segs, or) && !heap_marked(segs, or))
}

/// The references held in the reference fields of the object at `or`.
pub open spec fn children(segs: Seq<HeapSegment>, types: TypeTable, or: usize) -> Seq<usize> {
    if in_heap(segs, or) {
        let seg = segs[find_seg(segs, or)];
        let slots = seg.hs_slots(types, or);
        Seq::new(slots.len(), |j: int| seg.hs_word_at(slots[j]).unwrap())
    } else {
        Seq::empty()
    }
}

/// Whether the address ranges of the segments do not overlap.
pub open spec fn segs_disjoint(segs: Seq<HeapSegment>) -> bool {
    forall|j: int, k: int|
        0 <= j < segs.len() && 0 <= k < segs.len() && j != k ==> #[trigger] segs[j].hs_end()
            <= #[trigger] segs[k].hs_base() || segs[k].hs_end() <= segs[j].hs_base()
}

/// Whether the moved-from segments are well formed small-object segments.
pub open spec fn rel_ok(rel: Seq<HeapSegment>) -> bool {
    forall|k: int| 0 <= k < rel.len() ==> #[trigger] rel[k].hs_wf() && rel[k].is_small()
}

/// Sum of the clear mark bits of the segments from `k` on.
pub open spec fn unmarked_from(segs: Seq<HeapSegment>, k: int) -> int
    decreases segs.len() - k,
{
    if k >= segs.len() || k < 0 {
        0
    } else {
        segs[k].hs_unmarked() + unmarked_from(segs, k + 1)
    }
}

/// Whether every segment of `b` differs from the one of `a` only in more
/// mark and pin bits.
pub open spec fn heap_marks_grow(a: Seq<HeapSegment>, b: Seq<HeapSegment>) -> bool {
    a.len() == b.len() && forall|k: int| 0 <= k < a.len() ==> HeapSegment::marks_grow(#[trigger] a[k], b[k])
}

pub proof fn lemma_first_seg_from(segs: Seq<HeapSegment>, or: usize, k: int)
    requires
        0 <= k <= segs.len(),
    ensures
        k <= first_seg_from(segs, or, k) <= segs.len(),
        first_seg_from(segs, or, k) < segs.len() ==> segs[first_seg_from(segs, or, k)].hs_contains(or),
        forall|j: int| k <= j < first_seg_from(segs, or, k) ==> !segs[j].hs_contains(or),
    decreases segs.len() - k,
{
    if k < segs.len() && !segs[k].hs_contains(or) {
        lemma_first_seg_from(segs, or, k + 1);
    }
}

pub proof fn lemma_unmarked_from(segs: Seq<HeapSegment>, k: int)
    requires
        0 <= k <= segs.len(),
    ensures
        unmarked_from(segs, k) >= 0,
    decreases segs.len() - k,
{
    if k < segs.len() {
        segs[k].lemma_unmarked_bounds();
        lemma_unmarked_from(segs, k + 1);
    }
}

pub proof fn lemma_unmarked_update(segs: Seq<HeapSegment>, k: int, i: int, s: HeapSegment)
    requires
        0 <= k <= segs.len(),
        0 <= i < segs.len(),
    ensures
        unmarked_from(segs.update(i, s), k) == unmarked_from(segs, k) + if i >= k {
            s.hs_unmarked() - segs[i].hs_unmarked()
        } else {
            0
        },
    decreases segs.len() - k,
{
    if k < segs.len() {
        lemma_unmarked_update(segs, k + 1, i, s);
    }
}

pub proof fn lemma_grow_same(a: Seq<HeapSegment>, b: Seq<HeapSegment>, types: TypeTable, or: usize)
    requires
        heap_marks_grow(a, b),
        forall|k: int| 0 <= k < a.len() ==> #[trigger] a[k].hs_wf(),
    ensures
        find_seg(a, or) == find_seg(b, or),
        in_heap(a, or) == in_heap(b, or),
        markable(a, or) == markable(b, or),
        heap_marked(a, or) ==> heap_marked(b, or),
        heap_pending(a, or) == heap_pending(b, or),
        is_dead(b, or) ==> is_dead(a, or),
        children(a, types, or) == children(b, types, or),
        heap_pinned(a, or) ==> heap_pinned(b, or),
        in_small(a, or) == in_small(b, or),
{
    lemma_first_seg_from_same(a, b, or, 0);
    lemma_first_seg_from(a, or, 0);
    if in_heap(a, or) {
        let k = find_seg(a, or);
        assert(HeapSegment::marks_grow(a[k], b[k]));
        assert(a[k].hs_mark_index(or) == b[k].hs_mark_index(or));
        assert(a[k].hs_wf());
        a[k].lemma_mark_index(or);
        match a[k].hs_mark_index(or) {
            Some(i) => {
                if a[k].hs_marks()[i] {
                    assert(b[k].hs_marks()[i]);
                }
            },
            None => {},
        }
        assert(a[k].hs_slots(types, or) == b[k].hs_slots(types, or));
        assert(children(a, types, or) =~= children(b, types, or));
    }
}

pub proof fn lemma_grow_unmarked(a: Seq<HeapSegment>, b: Seq<HeapSegment>, k: int)
    requires
        heap_marks_grow(a, b),
        0 <= k <= a.len(),
    ensures
        unmarked_from(b, k) <= unmarked_from(a, k),
    decreases a.len() - k,
{
    if k < a.len() {
        lemma_grow_unmarked(a, b, k + 1);
        assert(HeapSegment::marks_grow(a[k], b[k]));
        let ma = a[k].hs_marks();
        let mb = b[k].hs_marks();
        lemma_count_mono(ma, mb, ma.len() as int);
    }
}

pub proof fn lemma_count_mono(a: Seq<bool>, b: Seq<bool>, n: int)
    requires
        0 <= n <= a.len(),
        a.len() == b.len(),
        forall|i: int| 0 <= i < a.len() && #[trigger] a[i] ==> b[i],
    ensures
        count_used(a, n) <= count_used(b, n),
    decreases n,
{
    if n > 0 {
        lemma_count_mono(a, b, n - 1);
    }
}

/// In a heap of disjoint segments, an address inside segment `k` belongs to
/// segment `k`.
pub proof fn lemma_find_seg_disjoint(segs: Seq<HeapSegment>, k: int, x: usize)
    requires
        segs_disjoint(segs),
        forall|j: int| 0 <= j < segs.len() ==> #[trigger] segs[j].hs_wf(),
        0 <= k < segs.len(),
        segs[k].hs_contains(x),
    ensures
        find_seg(segs, x) == k,
{
    lemma_first_seg_from(segs, x, 0);
    let f = find_seg(segs, x);
    if f != k {
        assert(segs[f].hs_wf());
        assert(segs[k].hs_wf());
        assert(segs[f].hs_contains(x));
        assert(segs[f].hs_end() <= segs[k].hs_base() || segs[k].hs_end() <= segs[f].hs_base());
    }
}

pub proof fn lemma_null_not_in_heap(segs: Seq<HeapSegment>)
    requires
        forall|k: int| 0 <= k < segs.len() ==> #[trigger] segs[k].hs_wf(),
    ensures
        !in_heap(segs, 0),
        !heap_marked(segs, 0),
        !markable(segs, 0),
{
    lemma_first_seg_from(segs, 0, 0);
    if in_heap(segs, 0) {
        let k = find_seg(segs, 0);
        assert(segs[k].hs_wf());
    }
}

pub proof fn lemma_grow_refl(a: Seq<HeapSegment>)
    ensures
        heap_marks_grow(a, a),
{
}

proof fn lemma_first_seg_from_same(a: Seq<HeapSegment>, b: Seq<HeapSegment>, or: usize, k: int)
    requires
        heap_marks_grow(a, b),
    ensures
        first_seg_from(a, or, k) == first_seg_from(b, or, k),
    decreases a.len() - k,
{
    if 0 <= k < a.len() {
        assert(HeapSegment::marks_grow(a[k], b[k]));
        assert(a[k].hs_contains(or) == b[k].hs_contains(or));
        lemma_first_seg_from_same(a, b, or, k + 1);
    }
}

/// Whether every marked object that is not in `queue` has all its markable
/// children marked.
pub open spec fn closed_except(segs: Seq<HeapSegment>, types: TypeTable, queue: Seq<usize>) -> bool {
    forall|or: usize|
        #[trigger] heap_marked(segs, or) && !queue.contains(or) ==> forall|j: int|
            0 <= j < children(segs, types, or).len() ==> !markable(segs, children(segs, types, or)[j])
                || heap_marked(segs, children(segs, types, or)[j])
}

/// Whether marking `y` is a reason to mark `x`: `x` is referenced from a
/// reference slot of `y`, or `y` is the primary object of a dependent handle
/// in use whose secondary object is `x`.
pub open spec fn mark_edge(segs: Seq<HeapSegment>, types: TypeTable, handles: HandleTable, y: usize, x: usize) -> bool {
    ||| children(segs, types, y).contains(x)
    ||| exists|h: usize|
        #[trigger] handles.spec_contains(h) && handles.spec_handle(h).handle_type == HandleType::Dependent
            && handles.spec_handle(h).object == y && handles.spec_handle(h).extra_or_secondary == x
}

/// Whether step `k` of `path` follows a [`mark_edge`].
pub open spec fn path_step(segs: Seq<HeapSegment>, types: TypeTable, handles: HandleTable, path: Seq<usize>, k: int) -> bool {
    mark_edge(segs, types, handles, path[k - 1], path[k])
}

/// Whether `path` starts at one of `seeds` and follows mark edges.
pub open spec fn mark_path(
    segs: Seq<HeapSegment>,
    types: TypeTable,
    handles: HandleTable,
    seeds: Set<usize>,
    path: Seq<usize>,
) -> bool {
    &&& path.len() > 0
    &&& seeds.contains(path[0])
    &&& forall|k: int| 0 < k < path.len() ==> #[trigger] path_step(segs, types, handles, path, k)
}

/// Whether `x` is reachable from `seeds` through reference slots and
/// dependent handles.
pub open spec fn reachable(segs: Seq<HeapSegment>, types: TypeTable, handles: HandleTable, seeds: Set<usize>, x: usize) -> bool {
    exists|path: Seq<usize>| #[trigger] mark_path(segs, types, handles, seeds, path) && path.last() == x
}

/// Whether every object marked in `now` is reachable from `seeds` in the
/// heap `segs`.
pub open spec fn marks_reachable(
    segs: Seq<HeapSegment>,
    types: TypeTable,
    handles: HandleTable,
    seeds: Set<usize>,
    now: Seq<HeapSegment>,
) -> bool {
    forall|x: usize| #[trigger] heap_marked(now, x) ==> reachable(segs, types, handles, seeds, x)
}

/// Whether `seeds` holds the secondary object of every dependent handle in
/// use whose primary object is outside the heap (and so never dies).
pub open spec fn dependent_seeds(segs: Seq<HeapSegment>, handles: HandleTable, seeds: Set<usize>) -> bool {
    forall|h: usize|
        #[trigger] handles.spec_contains(h) && handles.spec_handle(h).handle_type == HandleType::Dependent
            && handles.spec_handle(h).object != 0 && !in_heap(segs, handles.spec_handle(h).object) ==> seeds.contains(
            handles.spec_handle(h).extra_or_secondary,
        )
}

/// A seed is reachable.
pub proof fn lemma_reach_seed(segs: Seq<HeapSegment>, types: TypeTable, handles: HandleTable, seeds: Set<usize>, x: usize)
    requires
        seeds.contains(x),
    ensures
        reachable(segs, types, handles, seeds, x),
{
    let path = seq![x];
    assert(mark_path(segs, types, handles, seeds, path));
}

/// What a reachable object is a reason to mark is reachable.
pub proof fn lemma_reach_extend(
    segs: Seq<HeapSegment>,
    types: TypeTable,
    handles: HandleTable,
    seeds: Set<usize>,
    y: usize,
    x: usize,
)
    requires
        reachable(segs, types, handles, seeds, y),
        mark_edge(segs, types, handles, y, x),
    ensures
        reachable(segs, types, handles, seeds, x),
{
    let path = choose|path: Seq<usize>| #[trigger] mark_path(segs, types, handles, seeds, path) && path.last() == y;
    let p2 = path.push(x);
    assert forall|k: int| 0 < k < p2.len() implies #[trigger] path_step(segs, types, handles, p2, k) by {
        if k < path.len() {
            assert(path_step(segs, types, handles, path, k));
            assert(p2[k - 1] == path[k - 1] && p2[k] == path[k]);
        } else {
            assert(p2[k - 1] == y && p2[k] == x);
        }
    }
    assert(mark_path(segs, types, handles, seeds, p2));
}

/// Marking one reachable object keeps every marked object reachable.
pub proof fn lemma_mark_one(
    segs: Seq<HeapSegment>,
    types: TypeTable,
    handles: HandleTable,
    seeds: Set<usize>,
    before: Seq<HeapSegment>,
    after: Seq<HeapSegment>,
    or: usize,
)
    requires
        marks_reachable(segs, types, handles, seeds, before),
        forall|x: usize| #[trigger] heap_marked(after, x) ==> heap_marked(before, x) || x == or,
        heap_marked(after, or) && !heap_marked(before, or) ==> reachable(segs, types, handles, seeds, or),
    ensures
        marks_reachable(segs, types, handles, seeds, after),
{
    assert forall|x: usize| #[trigger] heap_marked(after, x) implies reachable(segs, types, handles, seeds, x) by {
        if heap_marked(before, x) {
        }
    }
}

/// Growing marks twice is growing them once.
pub proof fn lemma_marks_grow_trans(a: Seq<HeapSegment>, b: Seq<HeapSegment>, c: Seq<HeapSegment>)
    requires
        heap_marks_grow(a, b),
        heap_marks_grow(b, c),
    ensures
        heap_marks_grow(a, c),
{
    assert forall|k: int| 0 <= k < a.len() implies HeapSegment::marks_grow(#[trigger] a[k], c[k]) by {
        assert(HeapSegment::marks_grow(a[k], b[k]));
        assert(HeapSegment::marks_grow(b[k], c[k]));
    }
}

/// The collector: the known types, the GC handles, the heap segments and the
/// queue of objects waiting for their finalizer.
pub struct RustGc {
    types: TypeTable,
    handle_table: HandleTable,
    segments: Vec<HeapSegment>,
    finalization_queue: VecDeque<usize>,
    relocated: Vec<HeapSegment>,
}

impl RustGc {
    pub closed spec fn spec_types(self) -> TypeTable {
        self.types
    }

    pub closed spec fn handles(self) -> HandleTable {
        self.handle_table
    }

    pub closed spec fn segs(self) -> Seq<HeapSegment> {
        self.segments@
    }

    pub closed spec fn queue(self) -> Seq<usize> {
        self.finalization_queue@
    }

    /// The segments whose objects were moved by the current collection.
    pub closed spec fn rel(self) -> Seq<HeapSegment> {
        self.relocated@
    }

    pub open spec fn wf(self) -> bool {
        &&& self.spec_types().wf()
        &&& self.handles().wf()
        &&& forall|k: int| 0 <= k < self.segs().len() ==> #[trigger] self.segs()[k].hs_wf()
        &&& segs_disjoint(self.segs())
        &&& rel_ok(self.rel())
    }

    /// A collector with an empty heap, no handles and no finalizable object.
    pub fn new(types: TypeTable) -> (r: RustGc)
        requires
            types.wf(),
        ensures
            r.wf(),
            r.spec_types() == types,
            r.segs().len() == 0,
            r.queue().len() == 0,
            r.rel().len() == 0,
            forall|h: usize| !r.handles().spec_contains(h),
    {
        RustGc {
            types,
            handle_table: HandleTable::new(),
            segments: Vec::new(),
            finalization_queue: VecDeque::new(),
            relocated: Vec::new(),
        }
    }

    /// The index of the first segment that contains `or`.
    fn find_segment(&self, or: usize) -> (r: Option<usize>)
        requires
            self.wf(),
        ensures
            r matches Some(k) ==> k == find_seg(self.segs(), or) && k < self.segs().len(),
            r is None ==> !in_heap(self.segs(), or),
    {
        let mut k: usize = 0;
        while k < self.segments.len()
            invariant
                self.wf(),
                k <= self.segs().len(),
                first_seg_from(self.segs(), or, k as int) == find_seg(self.segs(), or),
            decreases self.segs().len() - k,
        {
            if self.segments[k].contains(or) {
                return Some(k);
            }
            k = k + 1;
        }
        None
    }

    /// Marks the object at `or` as reachable (pinning it when asked) and, if
    /// it was not marked yet, queues it for field walking. Null references and
    /// references outside the heap are skipped.
    fn try_mark_push(&mut self, queue: &mut VecDeque<usize>, or: usize, pin: bool)
        requires
            old(self).wf(),
        ensures
            final(self).wf(),
            final(self).spec_types() == old(self).spec_types(),
            final(self).handles() == old(self).handles(),
            final(self).queue() == old(self).queue(),
            heap_marks_grow(old(self).segs(), final(self).segs()),
            markable(old(self).segs(), or) ==> heap_marked(final(self).segs(), or),
            pin && markable(old(self).segs(), or) && in_small(old(self).segs(), or) ==> heap_pinned(
                final(self).segs(),
                or,
            ),
            forall|x: usize| #[trigger] heap_marked(final(self).segs(), x) ==> heap_marked(old(self).segs(), x) || x == or,
            final(queue)@ == old(queue)@ || (final(queue)@ == old(queue)@.push(or) && !heap_marked(old(self).segs(), or)
                && heap_marked(final(self).segs(), or)),
            heap_marked(final(self).segs(), or) && !heap_marked(old(self).segs(), or) ==> final(queue)@ == old(queue)@.push(or),
            scan_step(*old(self), *final(self), old(queue)@, final(queue)@),
            2 * unmarked_from(final(self).segs(), 0) + final(queue)@.len() <= 2 * unmarked_from(old(self).segs(), 0) + old(queue)@.len(),
    {
        proof {
            lemma_unmarked_from(self.segs(), 0);
        }
        if or == 0 {
            proof {
                assert(queue@.take(queue@.len() as int) =~= queue@);
                lemma_grow_refl(self.segs());
            }
            return;
        }
        let k = match self.find_segment(or) {
            Some(k) => k,
            None => {
                proof {
                    assert(queue@.take(queue@.len() as int) =~= queue@);
                    lemma_grow_refl(self.segs());
                }
                return;
            },
        };
        proof {
            lemma_first_seg_from(self.segs(), or, 0);
            assert(self.segs()[k as int].hs_wf());
        }
        let ghost segs0 = self.segs();
        let mut seg = self.segments.remove(k);
        let ghost seg0 = seg;
        let newly = seg.mark_object(or, pin);
        self.segments.insert(k, seg);
        proof {
            assert(self.segs() == segs0.update(k as int, seg));
            lemma_unmarked_update(segs0, 0, k as int, seg);
            assert forall|j: int| 0 <= j < self.segs().len() implies #[trigger] self.segs()[j].hs_wf() by {
                if j != k {
                    assert(self.segs()[j] == segs0[j]);
                }
            }
            assert(heap_marks_grow(segs0, self.segs())) by {
                assert forall|j: int| 0 <= j < segs0.len() implies HeapSegment::marks_grow(#[trigger] segs0[j], self.segs()[j]) by {
                    if j != k {
                        assert(self.segs()[j] == segs0[j]);
                    }
                }
            }
            lemma_grow_same(segs0, self.segs(), self.types, or);
            assert forall|x: usize| #[trigger] heap_marked(self.segs(), x) implies heap_marked(segs0, x) || x == or by {
                lemma_grow_same(segs0, self.segs(), self.types, x);
                lemma_first_seg_from(segs0, x, 0);
                let kx = find_seg(segs0, x);
                if kx == k && x != or {
                    match seg0.hs_mark_index(x) {
                        Some(ix) => {
                            match seg0.hs_mark_index(or) {
                                Some(io) => {
                                    if ix == io {
                                        seg0.lemma_mark_index_injective(x, or);
                                    } else {
                                        assert(seg.hs_marks()[ix] == seg0.hs_marks()[ix]);
                                    }
                                },
                                None => {
                                    assert(seg.hs_marks() == seg0.hs_marks());
                                },
                            }
                        },
                        None => {},
                    }
                } else if kx != k && kx < segs0.len() {
                    assert(self.segs()[kx] == segs0[kx]);
                }
            }
        }
        let ghost q0 = queue@;
        if let Ok(true) = newly {
            queue.push_back(or);
            proof {
                assert(queue@[q0.len() as int] == or);
                assert(queue@.take(q0.len() as int) =~= q0);
                assert forall|x: usize| #[trigger] queue@.contains(x) implies q0.contains(x) || heap_marked(self.segs(), x) by {
                    if x != or {
                        let i = choose|i: int| 0 <= i < queue@.len() && queue@[i] == x;
                        assert(q0[i] == x);
                    }
                }
            }
        } else {
            proof {
                assert(queue@.take(q0.len() as int) =~= q0);
            }
        }
    }
}


/// The facts that walking objects keeps: the same types and handles and
/// finalization queue, more marks, every queued object marked, and every
/// newly marked object queued.
pub open spec fn scan_step(
    old_gc: RustGc,
    new_gc: RustGc,
    old_q: Seq<usize>,
    new_q: Seq<usize>,
) -> bool {
    &&& new_gc.wf()
    &&& new_gc.spec_types() == old_gc.spec_types()
    &&& new_gc.handles() == old_gc.handles()
    &&& new_gc.queue() == old_gc.queue()
    &&& heap_marks_grow(old_gc.segs(), new_gc.segs())
    &&& forall|x: usize| #[trigger] new_q.contains(x) ==> old_q.contains(x) || heap_marked(new_gc.segs(), x)
    &&& forall|x: usize|
        #[trigger] heap_marked(new_gc.segs(), x) && !heap_marked(old_gc.segs(), x) ==> new_q.contains(x)
    &&& 2 * unmarked_from(new_gc.segs(), 0) + new_q.len() <= 2 * unmarked_from(old_gc.segs(), 0) + old_q.len()
    &&& new_q.len() >= old_q.len()
    &&& new_q.take(old_q.len() as int) == old_q
}

proof fn lemma_scan_step_trans(a: RustGc, b: RustGc, c: RustGc, qa: Seq<usize>, qb: Seq<usize>, qc: Seq<usize>)
    requires
        a.wf(),
        scan_step(a, b, qa, qb),
        scan_step(b, c, qb, qc),
    ensures
        scan_step(a, c, qa, qc),
{
    assert(heap_marks_grow(a.segs(), c.segs())) by {
        assert forall|k: int| 0 <= k < a.segs().len() implies HeapSegment::marks_grow(#[trigger] a.segs()[k], c.segs()[k]) by {
            assert(HeapSegment::marks_grow(a.segs()[k], b.segs()[k]));
            assert(HeapSegment::marks_grow(b.segs()[k], c.segs()[k]));
        }
    }
    assert forall|x: usize| #[trigger] qc.contains(x) implies qa.contains(x) || heap_marked(c.segs(), x) by {
        if qb.contains(x) && !qa.contains(x) {
            lemma_grow_same(b.segs(), c.segs(), a.spec_types(), x);
        }
    }
    assert(qc.take(qa.len() as int) =~= qa) by {
        assert(qc.take(qb.len() as int).take(qa.len() as int) =~= qc.take(qa.len() as int));
    }
    assert forall|x: usize| #[trigger] heap_marked(c.segs(), x) && !heap_marked(a.segs(), x) implies qc.contains(x) by {
        if heap_marked(b.segs(), x) {
            assert(qb.contains(x));
            let k = choose|k: int| 0 <= k < qb.len() && qb[k] == x;
            lemma_prefix_contains(qb, qc, k);
        }
    }
}

proof fn lemma_prefix_contains(qb: Seq<usize>, qc: Seq<usize>, k: int)
    requires
        0 <= k < qb.len(),
        qb.len() <= qc.len(),
        qc.take(qb.len() as int) == qb,
    ensures
        qc.contains(qb[k]),
{
    assert(qc[k] == qc.take(qb.len() as int)[k]);
}

impl RustGc {
    /// Walks the reference fields of the object at `or`, marking and queueing
    /// every object they point to.
    fn scan_object(
        &mut self,
        queue: &mut VecDeque<usize>,
        or: usize,
        Ghost(s0): Ghost<Seq<HeapSegment>>,
        Ghost(h0): Ghost<HandleTable>,
        Ghost(seeds): Ghost<Set<usize>>,
    )
        requires
            old(self).wf(),
            forall|k: int| 0 <= k < s0.len() ==> #[trigger] s0[k].hs_wf(),
            heap_marks_grow(s0, old(self).segs()),
            marks_reachable(s0, old(self).spec_types(), h0, seeds, old(self).segs()),
            reachable(s0, old(self).spec_types(), h0, seeds, or),
        ensures
            marks_reachable(s0, old(self).spec_types(), h0, seeds, final(self).segs()),
            scan_step(*old(self), *final(self), old(queue)@, final(queue)@),
            final(queue)@.len() >= old(queue)@.len(),
            final(queue)@.take(old(queue)@.len() as int) == old(queue)@,
            forall|j: int|
                0 <= j < children(old(self).segs(), old(self).spec_types(), or).len() && markable(
                    old(self).segs(),
                    #[trigger] children(old(self).segs(), old(self).spec_types(), or)[j],
                ) ==> heap_marked(final(self).segs(), children(old(self).segs(), old(self).spec_types(), or)[j]),
    {
        let ghost gc0 = *self;
        let ghost q0 = queue@;
        let ghost kids = children(self.segs(), self.types, or);
        proof {
            lemma_grow_same(s0, self.segs(), self.types, or);
            lemma_unmarked_from(self.segs(), 0);
            assert(queue@.take(q0.len() as int) =~= q0);
        }
        let k = match self.find_segment(or) {
            Some(k) => k,
            None => {
                proof {
                    lemma_grow_refl(self.segs());
                }
                return;
            },
        };
        proof {
            assert(self.segs()[k as int].hs_wf());
            lemma_grow_refl(self.segs());
        }
        let slots = self.segments[k].object_ref_slots(&self.types, or);
        let mut j: usize = 0;
        while j < slots.len()
            invariant
                gc0.wf(),
                self.wf(),
                k == find_seg(gc0.segs(), or),
                k < gc0.segs().len(),
                slots@.map_values(|x: usize| x as int) == gc0.segs()[k as int].hs_slots(gc0.spec_types(), or),
                kids == children(gc0.segs(), gc0.spec_types(), or),
                kids.len() == slots@.len(),
                j <= slots@.len(),
                scan_step(gc0, *self, q0, queue@),
                queue@.len() >= q0.len(),
                queue@.take(q0.len() as int) == q0,
                forall|i: int| 0 <= i < j && markable(gc0.segs(), #[trigger] kids[i]) ==> heap_marked(self.segs(), kids[i]),
                marks_reachable(s0, gc0.spec_types(), h0, seeds, self.segs()),
                reachable(s0, gc0.spec_types(), h0, seeds, or),
                kids == children(s0, gc0.spec_types(), or),
                forall|k: int| 0 <= k < s0.len() ==> #[trigger] s0[k].hs_wf(),
            decreases slots@.len() - j,
        {
            proof {
                assert(self.segs()[k as int].hs_wf());
                assert(HeapSegment::marks_grow(gc0.segs()[k as int], self.segs()[k as int]));
            }
            let v = match self.segments[k].load_word(slots[j]) {
                Some(v) => v,
                None => 0,
            };
            proof {
                assert(slots@.map_values(|x: usize| x as int)[j as int] == slots@[j as int] as int);
                gc0.segs()[k as int].lemma_slots_valid(gc0.spec_types(), or);
                lemma_first_seg_from(gc0.segs(), or, 0);
                assert(kids[j as int] == v);
            }
            let ghost before = *self;
            let ghost qb = queue@;
            self.try_mark_push(queue, v, false);
            proof {
                assert(kids.contains(v));
                lemma_reach_extend(s0, gc0.spec_types(), h0, seeds, or, v);
                lemma_mark_one(s0, gc0.spec_types(), h0, seeds, before.segs(), self.segs(), v);
                lemma_scan_step_trans(gc0, before, *self, q0, qb, queue@);
                assert forall|i: int| 0 <= i < j + 1 && markable(gc0.segs(), #[trigger] kids[i]) implies heap_marked(self.segs(), kids[i]) by {
                    lemma_grow_same(gc0.segs(), before.segs(), gc0.spec_types(), kids[i]);
                    lemma_grow_same(before.segs(), self.segs(), gc0.spec_types(), kids[i]);
                }
                assert(queue@.take(q0.len() as int) =~= q0);
            }
            j = j + 1;
        }
    }
}

/// Whether every object in `q` is marked.
pub open spec fn queue_marked(segs: Seq<HeapSegment>, q: Seq<usize>) -> bool {
    forall|x: usize| #[trigger] q.contains(x) ==> heap_marked(segs, x)
}

impl RustGc {
    /// Walks the queued objects until the queue is empty, marking and queueing
    /// what their fields reach.
    fn drain(
        &mut self,
        queue: &mut VecDeque<usize>,
        Ghost(s0): Ghost<Seq<HeapSegment>>,
        Ghost(h0): Ghost<HandleTable>,
        Ghost(seeds): Ghost<Set<usize>>,
    )
        requires
            old(self).wf(),
            forall|k: int| 0 <= k < s0.len() ==> #[trigger] s0[k].hs_wf(),
            closed_except(old(self).segs(), old(self).spec_types(), old(queue)@),
            queue_marked(old(self).segs(), old(queue)@),
            heap_marks_grow(s0, old(self).segs()),
            marks_reachable(s0, old(self).spec_types(), h0, seeds, old(self).segs()),
        ensures
            marks_reachable(s0, old(self).spec_types(), h0, seeds, final(self).segs()),
            final(self).wf(),
            final(self).spec_types() == old(self).spec_types(),
            final(self).handles() == old(self).handles(),
            final(self).queue() == old(self).queue(),
            heap_marks_grow(old(self).segs(), final(self).segs()),
            final(queue)@.len() == 0,
            closed_except(final(self).segs(), final(self).spec_types(), Seq::empty()),
            unmarked_from(final(self).segs(), 0) <= unmarked_from(old(self).segs(), 0),
    {
        let ghost gc0 = *self;
        let ghost q0 = queue@;
        proof {
            lemma_grow_refl(self.segs());
            lemma_unmarked_from(self.segs(), 0);
        }
        loop
            invariant
                gc0.wf(),
                self.wf(),
                self.spec_types() == gc0.spec_types(),
                self.handles() == gc0.handles(),
                self.queue() == gc0.queue(),
                heap_marks_grow(gc0.segs(), self.segs()),
                closed_except(self.segs(), self.spec_types(), queue@),
                queue_marked(self.segs(), queue@),
                2 * unmarked_from(self.segs(), 0) + queue@.len() <= 2 * unmarked_from(gc0.segs(), 0) + q0.len(),
                heap_marks_grow(s0, self.segs()),
                marks_reachable(s0, gc0.spec_types(), h0, seeds, self.segs()),
                forall|k: int| 0 <= k < s0.len() ==> #[trigger] s0[k].hs_wf(),
            ensures
                queue@.len() == 0,
            decreases 2 * unmarked_from(self.segs(), 0) + queue@.len(),
        {
            proof {
                lemma_unmarked_from(self.segs(), 0);
            }
            let ghost q_before = queue@;
            match queue.pop_front() {
                None => {
                    break;
                },
                Some(or) => {
                    let ghost gc1 = *self;
                    let ghost q1 = queue@;
                    proof {
                        assert(q_before[0] == or);
                        assert(q_before.contains(or));
                        assert(heap_marked(gc1.segs(), or));
                    }
                    self.scan_object(queue, or, Ghost(s0), Ghost(h0), Ghost(seeds));
                    proof {
                        lemma_marks_grow_trans(s0, gc1.segs(), self.segs());
                        assert(q1.len() == q_before.len() - 1);
                        lemma_unmarked_from(self.segs(), 0);
                        let types = self.spec_types();
                        assert(heap_marks_grow(gc0.segs(), self.segs())) by {
                            assert forall|k: int| 0 <= k < gc0.segs().len() implies HeapSegment::marks_grow(#[trigger] gc0.segs()[k], self.segs()[k]) by {
                                assert(HeapSegment::marks_grow(gc0.segs()[k], gc1.segs()[k]));
                                assert(HeapSegment::marks_grow(gc1.segs()[k], self.segs()[k]));
                            }
                        }
                        assert forall|y: usize|
                            #[trigger] heap_marked(self.segs(), y) && !queue@.contains(y) implies forall|j: int|
                                0 <= j < children(self.segs(), types, y).len() ==> !markable(
                                    self.segs(),
                                    children(self.segs(), types, y)[j],
                                ) || heap_marked(self.segs(), children(self.segs(), types, y)[j])
                        by {
                            lemma_grow_same(gc1.segs(), self.segs(), types, y);
                            assert forall|j: int| 0 <= j < children(self.segs(), types, y).len() implies !markable(
                                self.segs(),
                                children(self.segs(), types, y)[j],
                            ) || heap_marked(self.segs(), children(self.segs(), types, y)[j]) by {
                                let c = children(self.segs(), types, y)[j];
                                lemma_grow_same(gc1.segs(), self.segs(), types, c);
                                if y != or && heap_marked(gc1.segs(), y) {
                                    if q_before.contains(y) {
                                        let i = choose|i: int| 0 <= i < q_before.len() && q_before[i] == y;
                                        assert(i != 0);
                                        assert(q1[i - 1] == y);
                                        lemma_prefix_contains(q1, queue@, i - 1);
                                    }
                                }
                            }
                        }
                        assert forall|x: usize| #[trigger] queue@.contains(x) implies heap_marked(self.segs(), x) by {
                            if q1.contains(x) {
                                let i = choose|i: int| 0 <= i < q1.len() && q1[i] == x;
                                assert(q_before[i + 1] == x);
                                assert(q_before.contains(x));
                                lemma_grow_same(gc1.segs(), self.segs(), types, x);
                            }
                        }
                    }
                },
            }
        }
        proof {
            assert(queue@ =~= Seq::<usize>::empty());
            lemma_grow_unmarked(gc0.segs(), self.segs(), 0);
        }
    }
}

/// A dependent handle whose primary object is marked keeps its secondary
/// object marked.
pub open spec fn dependent_ok(segs: Seq<HeapSegment>, g: GcHandle) -> bool {
    g.handle_type == HandleType::Dependent && heap_marked(segs, g.object) ==> !markable(
        segs,
        g.extra_or_secondary,
    ) || heap_marked(segs, g.extra_or_secondary)
}

/// Every dependent handle in use with a marked primary keeps its secondary marked.
pub open spec fn dependents_ok(segs: Seq<HeapSegment>, handles: HandleTable) -> bool {
    forall|h: usize| #[trigger] handles.spec_contains(h) ==> dependent_ok(segs, handles.spec_handle(h))
}

/// A dependent handle whose primary object lies outside the heap (and so
/// never dies) keeps its secondary object marked.
pub open spec fn outside_dependent_ok(segs: Seq<HeapSegment>, g: GcHandle) -> bool {
    g.handle_type == HandleType::Dependent && g.object != 0 && !in_heap(segs, g.object) ==> !markable(
        segs,
        g.extra_or_secondary,
    ) || heap_marked(segs, g.extra_or_secondary)
}

/// Every dependent handle in use whose primary object lies outside the heap
/// keeps its secondary object marked.
pub open spec fn outside_dependents_ok(segs: Seq<HeapSegment>, handles: HandleTable) -> bool {
    forall|h: usize| #[trigger] handles.spec_contains(h) ==> outside_dependent_ok(segs, handles.spec_handle(h))
}

/// Marking more keeps the secondaries of dependent handles with a primary
/// outside the heap marked.
proof fn lemma_outside_grow(a: Seq<HeapSegment>, b: Seq<HeapSegment>, types: TypeTable, handles: HandleTable)
    requires
        heap_marks_grow(a, b),
        forall|k: int| 0 <= k < a.len() ==> #[trigger] a[k].hs_wf(),
        outside_dependents_ok(a, handles),
    ensures
        outside_dependents_ok(b, handles),
{
    assert forall|h: usize| #[trigger] handles.spec_contains(h) implies outside_dependent_ok(b, handles.spec_handle(h)) by {
        let g = handles.spec_handle(h);
        assert(outside_dependent_ok(a, g));
        lemma_grow_same(a, b, types, g.object);
        lemma_grow_same(a, b, types, g.extra_or_secondary);
    }
}

impl RustGc {
    /// Whether the object at `or` is dead: null, or in the heap and not marked.
    fn is_object_dead(&self, or: usize) -> (r: bool)
        requires
            self.wf(),
        ensures
            r == is_dead(self.segs(), or),
    {
        if or == 0 {
            return true;
        }
        match self.find_segment(or) {
            None => false,
            Some(k) => {
                proof {
                    assert(self.segs()[k as int].hs_wf());
                    self.segs()[k as int].lemma_mark_index(or);
                }
                match self.segments[k].is_marked(or) {
                    Ok(m) => !m,
                    Err(_) => true,
                }
            },
        }
    }

    /// For every dependent handle whose primary object is alive, marks and
    /// queues the secondary object.
    fn mark_dependents(
        &mut self,
        queue: &mut VecDeque<usize>,
        Ghost(s0): Ghost<Seq<HeapSegment>>,
        Ghost(h0): Ghost<HandleTable>,
        Ghost(seeds): Ghost<Set<usize>>,
    )
        requires
            old(self).wf(),
            forall|k: int| 0 <= k < s0.len() ==> #[trigger] s0[k].hs_wf(),
            old(queue)@.len() == 0,
            heap_marks_grow(s0, old(self).segs()),
            old(self).handles() == h0,
            marks_reachable(s0, old(self).spec_types(), h0, seeds, old(self).segs()),
            dependent_seeds(s0, h0, seeds),
        ensures
            marks_reachable(s0, old(self).spec_types(), h0, seeds, final(self).segs()),
            scan_step(*old(self), *final(self), old(queue)@, final(queue)@),
            final(queue)@.len() == 0 ==> dependents_ok(final(self).segs(), final(self).handles()),
            outside_dependents_ok(final(self).segs(), final(self).handles()),
    {
        let ghost gc0 = *self;
        let ghost q0 = queue@;
        proof {
            lemma_grow_refl(self.segs());
            lemma_unmarked_from(self.segs(), 0);
            assert(queue@.take(0) =~= q0);
        }
        let hs = self.handle_table.used_handles();
        let mut i: usize = 0;
        while i < hs.len()
            invariant
                gc0.wf(),
                self.wf(),
                q0.len() == 0,
                scan_step(gc0, *self, q0, queue@),
                i <= hs@.len(),
                forall|k: int| 0 <= k < hs@.len() ==> gc0.handles().spec_contains(#[trigger] hs@[k]),
                forall|h: usize| gc0.handles().spec_contains(h) ==> hs@.contains(h),
                queue@.len() == 0 ==> forall|k: int|
                    0 <= k < i ==> dependent_ok(self.segs(), gc0.handles().spec_handle(#[trigger] hs@[k])),
                forall|k: int| 0 <= k < i ==> outside_dependent_ok(self.segs(), gc0.handles().spec_handle(#[trigger] hs@[k])),
                heap_marks_grow(s0, self.segs()),
                gc0.handles() == h0,
                marks_reachable(s0, gc0.spec_types(), h0, seeds, self.segs()),
                forall|k: int| 0 <= k < s0.len() ==> #[trigger] s0[k].hs_wf(),
                dependent_seeds(s0, h0, seeds),
            decreases hs@.len() - i,
        {
            let h = hs[i];
            let g = self.handle_table.get(h);
            let ghost before = *self;
            let ghost qb = queue@;
            if g.handle_type == HandleType::Dependent && !self.is_object_dead(g.object) {
                self.try_mark_push(queue, g.extra_or_secondary, false);
                proof {
                    let types = gc0.spec_types();
                    assert(h0.spec_contains(h));
                    lemma_grow_same(s0, before.segs(), types, g.object);
                    if in_heap(s0, g.object) {
                        assert(heap_marked(before.segs(), g.object));
                        assert(mark_edge(s0, types, h0, g.object, g.extra_or_secondary));
                        lemma_reach_extend(s0, types, h0, seeds, g.object, g.extra_or_secondary);
                    } else {
                        lemma_reach_seed(s0, types, h0, seeds, g.extra_or_secondary);
                    }
                    lemma_mark_one(s0, types, h0, seeds, before.segs(), self.segs(), g.extra_or_secondary);
                    lemma_marks_grow_trans(s0, before.segs(), self.segs());
                    lemma_scan_step_trans(gc0, before, *self, q0, qb, queue@);
                }
            }
            proof {
                assert forall|k: int| 0 <= k < i + 1 implies outside_dependent_ok(
                    self.segs(),
                    gc0.handles().spec_handle(#[trigger] hs@[k]),
                ) by {
                    let gk = gc0.handles().spec_handle(hs@[k]);
                    lemma_grow_same(before.segs(), self.segs(), gc0.spec_types(), gk.object);
                    lemma_grow_same(before.segs(), self.segs(), gc0.spec_types(), gk.extra_or_secondary);
                    if k < i {
                        assert(outside_dependent_ok(before.segs(), gk));
                    } else {
                        assert(hs@[k] == h);
                        if gk.handle_type == HandleType::Dependent && gk.object != 0 && !in_heap(before.segs(), gk.object) {
                            assert(!is_dead(before.segs(), g.object));
                        }
                    }
                }
                if queue@.len() == 0 {
                    assert(qb.len() == 0);
                    assert forall|x: usize| #[trigger] heap_marked(self.segs(), x) == heap_marked(before.segs(), x) by {
                        lemma_grow_same(before.segs(), self.segs(), gc0.spec_types(), x);
                        if heap_marked(self.segs(), x) && !heap_marked(before.segs(), x) {
                            assert(queue@.contains(x));
                        }
                    }
                    assert forall|x: usize| #[trigger] markable(self.segs(), x) == markable(before.segs(), x) by {
                        lemma_grow_same(before.segs(), self.segs(), gc0.spec_types(), x);
                    }
                    assert forall|k: int| 0 <= k < i + 1 implies dependent_ok(self.segs(), gc0.handles().spec_handle(#[trigger] hs@[k])) by {
                        if k < i {
                            assert(dependent_ok(before.segs(), gc0.handles().spec_handle(hs@[k])));
                        } else {
                            assert(hs@[k] == h);
                            assert(g == gc0.handles().spec_handle(h));
                            if g.handle_type == HandleType::Dependent && heap_marked(self.segs(), g.object) {
                                assert(heap_marked(before.segs(), g.object));
                                lemma_null_not_in_heap(before.segs());
                                assert(!is_dead(before.segs(), g.object));
                            }
                        }
                    }
                }
            }
            i = i + 1;
        }
        proof {
            if queue@.len() == 0 {
                assert forall|h: usize| #[trigger] self.handles().spec_contains(h) implies dependent_ok(self.segs(), self.handles().spec_handle(h)) by {
                    assert(hs@.contains(h));
                    let k = choose|k: int| 0 <= k < hs@.len() && hs@[k] == h;
                    assert(dependent_ok(self.segs(), gc0.handles().spec_handle(hs@[k])));
                }
            }
            assert forall|h: usize| #[trigger] self.handles().spec_contains(h) implies outside_dependent_ok(
                self.segs(),
                self.handles().spec_handle(h),
            ) by {
                assert(hs@.contains(h));
                let k = choose|k: int| 0 <= k < hs@.len() && hs@[k] == h;
                assert(outside_dependent_ok(self.segs(), gc0.handles().spec_handle(hs@[k])));
            }
        }
    }

    /// Marks everything reachable from the queued objects, through reference
    /// fields and through dependent handles, until nothing new is marked.
    fn propagate(
        &mut self,
        queue: &mut VecDeque<usize>,
        Ghost(s0): Ghost<Seq<HeapSegment>>,
        Ghost(h0): Ghost<HandleTable>,
        Ghost(seeds): Ghost<Set<usize>>,
    )
        requires
            old(self).wf(),
            forall|k: int| 0 <= k < s0.len() ==> #[trigger] s0[k].hs_wf(),
            closed_except(old(self).segs(), old(self).spec_types(), old(queue)@),
            queue_marked(old(self).segs(), old(queue)@),
            old(queue)@.len() > 0 || dependents_ok(old(self).segs(), old(self).handles()),
            heap_marks_grow(s0, old(self).segs()),
            old(self).handles() == h0,
            marks_reachable(s0, old(self).spec_types(), h0, seeds, old(self).segs()),
            dependent_seeds(s0, h0, seeds),
        ensures
            marks_reachable(s0, old(self).spec_types(), h0, seeds, final(self).segs()),
            final(self).wf(),
            final(self).spec_types() == old(self).spec_types(),
            final(self).handles() == old(self).handles(),
            final(self).queue() == old(self).queue(),
            heap_marks_grow(old(self).segs(), final(self).segs()),
            final(queue)@.len() == 0,
            closed_except(final(self).segs(), final(self).spec_types(), Seq::empty()),
            dependents_ok(final(self).segs(), final(self).handles()),
            old(queue)@.len() > 0 ==> outside_dependents_ok(final(self).segs(), final(self).handles()),
            outside_dependents_ok(old(self).segs(), old(self).handles()) ==> outside_dependents_ok(
                final(self).segs(),
                final(self).handles(),
            ),
    {
        let ghost gc0 = *self;
        let ghost q0len = queue@.len();
        proof {
            lemma_grow_refl(self.segs());
        }
        while queue.len() > 0
            invariant
                gc0.wf(),
                self.wf(),
                self.spec_types() == gc0.spec_types(),
                self.handles() == gc0.handles(),
                self.queue() == gc0.queue(),
                heap_marks_grow(gc0.segs(), self.segs()),
                closed_except(self.segs(), self.spec_types(), queue@),
                queue_marked(self.segs(), queue@),
                queue@.len() > 0 || dependents_ok(self.segs(), self.handles()),
                q0len > 0 ==> queue@.len() > 0 || outside_dependents_ok(self.segs(), self.handles()),
                outside_dependents_ok(gc0.segs(), gc0.handles()) ==> outside_dependents_ok(self.segs(), self.handles()),
                heap_marks_grow(s0, self.segs()),
                self.handles() == h0,
                marks_reachable(s0, gc0.spec_types(), h0, seeds, self.segs()),
                forall|k: int| 0 <= k < s0.len() ==> #[trigger] s0[k].hs_wf(),
                dependent_seeds(s0, h0, seeds),
            decreases 2 * unmarked_from(self.segs(), 0) + queue@.len(),
        {
            let ghost gc1 = *self;
            let ghost qlen1 = queue@.len();
            proof {
                lemma_unmarked_from(self.segs(), 0);
            }
            self.drain(queue, Ghost(s0), Ghost(h0), Ghost(seeds));
            let ghost gc2 = *self;
            let ghost q2 = queue@;
            proof {
                lemma_marks_grow_trans(s0, gc1.segs(), gc2.segs());
            }
            self.mark_dependents(queue, Ghost(s0), Ghost(h0), Ghost(seeds));
            proof {
                lemma_marks_grow_trans(s0, gc2.segs(), self.segs());
                lemma_unmarked_from(self.segs(), 0);
                let types = self.spec_types();
                assert(heap_marks_grow(gc0.segs(), self.segs())) by {
                    assert forall|k: int| 0 <= k < gc0.segs().len() implies HeapSegment::marks_grow(#[trigger] gc0.segs()[k], self.segs()[k]) by {
                        assert(HeapSegment::marks_grow(gc0.segs()[k], gc1.segs()[k]));
                        assert(HeapSegment::marks_grow(gc1.segs()[k], gc2.segs()[k]));
                        assert(HeapSegment::marks_grow(gc2.segs()[k], self.segs()[k]));
                    }
                }
                assert forall|y: usize|
                    #[trigger] heap_marked(self.segs(), y) && !queue@.contains(y) implies forall|j: int|
                        0 <= j < children(self.segs(), types, y).len() ==> !markable(
                            self.segs(),
                            children(self.segs(), types, y)[j],
                        ) || heap_marked(self.segs(), children(self.segs(), types, y)[j])
                by {
                    lemma_grow_same(gc2.segs(), self.segs(), types, y);
                    assert forall|j: int| 0 <= j < children(self.segs(), types, y).len() implies !markable(
                        self.segs(),
                        children(self.segs(), types, y)[j],
                    ) || heap_marked(self.segs(), children(self.segs(), types, y)[j]) by {
                        let c = children(self.segs(), types, y)[j];
                        lemma_grow_same(gc2.segs(), self.segs(), types, c);
                        assert(!q2.contains(y));
                    }
                }
                assert forall|x: usize| #[trigger] queue@.contains(x) implies heap_marked(self.segs(), x) by {
                    assert(!q2.contains(x));
                }
            }
        }
    }
}

/// A root reported by the runtime: the reference, whether it may point
/// inside an object (rather than at its start), and whether it pins.
#[derive(Clone, Copy)]
pub struct RootRef {
    pub value: usize,
    pub interior: bool,
    pub pinned: bool,
}

/// The object a root keeps alive: itself, or for an interior root the heap
/// object holding the address; none for null.
pub open spec fn root_target(segs: Seq<HeapSegment>, types: TypeTable, r: RootRef) -> Option<usize> {
    if r.value == 0 {
        None
    } else if r.interior {
        if in_heap(segs, r.value) {
            match segs[find_seg(segs, r.value)].hs_find(types, r.value) {
                Some(a) => Some(a as usize),
                None => None,
            }
        } else {
            None
        }
    } else {
        Some(r.value)
    }
}

/// Whether the object that root `r` keeps alive (in `before`) is marked in
/// `after`, where it is a markable heap object.
pub open spec fn root_kept(before: Seq<HeapSegment>, after: Seq<HeapSegment>, types: TypeTable, r: RootRef) -> bool {
    match root_target(before, types, r) {
        Some(o) => markable(before, o) ==> heap_marked(after, o),
        None => true,
    }
}

/// Whether the root `r`, where it pins, leaves its object in a small-object
/// segment of `before` pinned in `after`.
pub open spec fn root_pinned(before: Seq<HeapSegment>, after: Seq<HeapSegment>, types: TypeTable, r: RootRef) -> bool {
    match root_target(before, types, r) {
        Some(o) => r.pinned && markable(before, o) && in_small(before, o) ==> heap_pinned(after, o),
        None => true,
    }
}

/// Whether `x` is where the mark phase starts from: an object that a root
/// keeps alive, the object of a strong or pinned handle, an object of the
/// finalization queue, or the secondary object of a dependent handle whose
/// primary object is outside the heap.
pub open spec fn is_root_seed(
    segs: Seq<HeapSegment>,
    types: TypeTable,
    handles: HandleTable,
    queue: Seq<usize>,
    roots: Seq<RootRef>,
    x: usize,
) -> bool {
    ||| exists|k: int| 0 <= k < roots.len() && #[trigger] root_target(segs, types, roots[k]) == Some(x)
    ||| exists|h: usize|
        #[trigger] handles.spec_contains(h) && (handles.spec_handle(h).handle_type == HandleType::Strong
            || handles.spec_handle(h).handle_type == HandleType::Pinned) && handles.spec_handle(h).object == x
    ||| queue.contains(x)
    ||| exists|h: usize|
        #[trigger] handles.spec_contains(h) && handles.spec_handle(h).handle_type == HandleType::Dependent
            && handles.spec_handle(h).object != 0 && !in_heap(segs, handles.spec_handle(h).object)
            && handles.spec_handle(h).extra_or_secondary == x
}

/// The objects the mark phase starts from (see [`is_root_seed`]).
pub open spec fn root_seeds(
    segs: Seq<HeapSegment>,
    types: TypeTable,
    handles: HandleTable,
    queue: Seq<usize>,
    roots: Seq<RootRef>,
) -> Set<usize> {
    Set::new(|x: usize| is_root_seed(segs, types, handles, queue, roots, x))
}

/// What the mark phase from the roots leaves: the heap `before` with more
/// marks (`after`); the objects that the roots, the strong and pinned
/// handles and the queue start from marked, and those of pinning roots and
/// pinned handles pinned where they lie in a small-object segment; the marked objects closed under
/// reference fields and under dependent handles with a marked primary; the
/// secondaries of dependent handles whose primary lies outside the heap
/// marked; the handles `h0` become
/// `h1`, with short weak handles to dead objects cleared.
pub open spec fn marked_from_roots(
    before: Seq<HeapSegment>,
    after: Seq<HeapSegment>,
    types: TypeTable,
    h0: HandleTable,
    h1: HandleTable,
    queue: Seq<usize>,
    roots: Seq<RootRef>,
) -> bool {
    &&& heap_marks_grow(before, after)
    &&& forall|k: int| 0 <= k < roots.len() ==> root_kept(before, after, types, #[trigger] roots[k])
    &&& forall|h: usize|
        #[trigger] h0.spec_contains(h) && (h0.spec_handle(h).handle_type == HandleType::Strong
            || h0.spec_handle(h).handle_type == HandleType::Pinned) && markable(before, h0.spec_handle(h).object)
            ==> heap_marked(after, h0.spec_handle(h).object)
    &&& forall|x: usize| #[trigger] queue.contains(x) && markable(before, x) ==> heap_marked(after, x)
    &&& forall|k: int| 0 <= k < roots.len() ==> root_pinned(before, after, types, #[trigger] roots[k])
    &&& forall|h: usize|
        #[trigger] h0.spec_contains(h) && h0.spec_handle(h).handle_type == HandleType::Pinned && markable(
            before,
            h0.spec_handle(h).object,
        ) && in_small(before, h0.spec_handle(h).object) ==> heap_pinned(after, h0.spec_handle(h).object)
    &&& closed_except(after, types, Seq::empty())
    &&& dependents_ok(after, h1)
    &&& forall|h: usize| #[trigger] h1.spec_contains(h) == h0.spec_contains(h)
    &&& forall|h: usize| #[trigger] h0.spec_contains(h) ==> short_cleared(after, h0.spec_handle(h), h1.spec_handle(h))
    &&& outside_dependents_ok(after, h1)
}

/// Whether no mark bit is set anywhere in the heap.
pub open spec fn no_marks(segs: Seq<HeapSegment>) -> bool {
    forall|k: int, i: int|
        0 <= k < segs.len() && 0 <= i < segs[k].hs_marks().len() ==> !#[trigger] segs[k].hs_marks()[i]
}

/// Whether the handle `h` of a collection is what it should be after weak
/// (short) handles to dead objects were cleared.
pub open spec fn short_cleared(segs: Seq<HeapSegment>, before: GcHandle, after: GcHandle) -> bool {
    if before.handle_type == HandleType::Short && is_dead(segs, before.object) {
        after == (GcHandle { object: 0, ..before })
    } else {
        after == before
    }
}

impl RustGc {
    /// The object that root `r` keeps alive.
    fn resolve_root(&self, r: RootRef) -> (t: Option<usize>)
        requires
            self.wf(),
        ensures
            t == root_target(self.segs(), self.spec_types(), r),
    {
        if r.value == 0 {
            None
        } else if r.interior {
            match self.find_segment(r.value) {
                Some(k) => {
                    proof {
                        assert(self.segs()[k as int].hs_wf());
                    }
                    match self.segments[k].find_object(&self.types, r.value) {
                        Some(a) => Some(a),
                        None => None,
                    }
                },
                None => None,
            }
        } else {
            Some(r.value)
        }
    }

    /// The mark phase from the roots: marks the objects that the roots, the
    /// strong and pinned handles and the finalization queue keep alive, and
    /// everything reachable from them (through fields and dependent
    /// handles), then clears the short weak handles to dead objects.
    pub fn mark_from_roots(&mut self, roots: &Vec<RootRef>)
        requires
            old(self).wf(),
            no_marks(old(self).segs()),
        ensures
            final(self).wf(),
            final(self).spec_types() == old(self).spec_types(),
            final(self).queue() == old(self).queue(),
            heap_marks_grow(old(self).segs(), final(self).segs()),
            forall|k: int|
                0 <= k < roots@.len() ==> root_kept(
                    old(self).segs(),
                    final(self).segs(),
                    old(self).spec_types(),
                    #[trigger] roots@[k],
                ),
            forall|h: usize|
                #[trigger] old(self).handles().spec_contains(h) && (old(self).handles().spec_handle(h).handle_type
                    == HandleType::Strong || old(self).handles().spec_handle(h).handle_type == HandleType::Pinned)
                    && markable(old(self).segs(), old(self).handles().spec_handle(h).object) ==> heap_marked(
                    final(self).segs(),
                    old(self).handles().spec_handle(h).object,
                ),
            forall|x: usize|
                #[trigger] old(self).queue().contains(x) && markable(old(self).segs(), x) ==> heap_marked(
                    final(self).segs(),
                    x,
                ),
            closed_except(final(self).segs(), final(self).spec_types(), Seq::empty()),
            dependents_ok(final(self).segs(), final(self).handles()),
            forall|h: usize| #[trigger] final(self).handles().spec_contains(h) == old(self).handles().spec_contains(h),
            forall|h: usize|
                #[trigger] old(self).handles().spec_contains(h) ==> short_cleared(
                    final(self).segs(),
                    old(self).handles().spec_handle(h),
                    final(self).handles().spec_handle(h),
                ),
            marks_reachable(
                old(self).segs(),
                old(self).spec_types(),
                old(self).handles(),
                root_seeds(old(self).segs(), old(self).spec_types(), old(self).handles(), old(self).queue(), roots@),
                final(self).segs(),
            ),
            outside_dependents_ok(final(self).segs(), final(self).handles()),
            marked_from_roots(
                old(self).segs(),
                final(self).segs(),
                old(self).spec_types(),
                old(self).handles(),
                final(self).handles(),
                old(self).queue(),
                roots@,
            ),
            forall|k: int|
                0 <= k < roots@.len() ==> root_pinned(
                    old(self).segs(),
                    final(self).segs(),
                    old(self).spec_types(),
                    #[trigger] roots@[k],
                ),
            forall|h: usize|
                #[trigger] old(self).handles().spec_contains(h) && old(self).handles().spec_handle(h).handle_type
                    == HandleType::Pinned && markable(old(self).segs(), old(self).handles().spec_handle(h).object)
                    && in_small(old(self).segs(), old(self).handles().spec_handle(h).object) ==> heap_pinned(
                    final(self).segs(),
                    old(self).handles().spec_handle(h).object,
                ),
    {
        let ghost gc0 = *self;
        let ghost seeds = root_seeds(gc0.segs(), gc0.spec_types(), gc0.handles(), gc0.queue(), roots@);
        let mut queue: VecDeque<usize> = VecDeque::new();
        proof {
            lemma_grow_refl(self.segs());
            lemma_unmarked_from(self.segs(), 0);
            assert(queue@.take(0) =~= queue@);
            assert forall|x: usize| #[trigger] heap_marked(self.segs(), x) implies reachable(
                gc0.segs(),
                gc0.spec_types(),
                gc0.handles(),
                seeds,
                x,
            ) by {
                lemma_no_marks(gc0.segs(), x);
            }
        }
        // roots reported by the runtime
        let mut i: usize = 0;
        while i < roots.len()
            invariant
                gc0.wf(),
                no_marks(gc0.segs()),
                scan_step(gc0, *self, Seq::empty(), queue@),
                i <= roots@.len(),
                forall|k: int|
                    0 <= k < i ==> (root_kept(gc0.segs(), self.segs(), gc0.spec_types(), #[trigger] roots@[k]) && root_pinned(gc0.segs(), self.segs(), gc0.spec_types(), roots@[k])),
                seeds == root_seeds(gc0.segs(), gc0.spec_types(), gc0.handles(), gc0.queue(), roots@),
                marks_reachable(gc0.segs(), gc0.spec_types(), gc0.handles(), seeds, self.segs()),
            decreases roots@.len() - i,
        {
            let r = roots[i];
            let ghost before = *self;
            let ghost qb = queue@;
            proof {
                lemma_grow_same(gc0.segs(), self.segs(), gc0.spec_types(), r.value);
                assert(root_target(self.segs(), self.spec_types(), r) == root_target(gc0.segs(), gc0.spec_types(), r)) by {
                    if r.value != 0 && r.interior && in_heap(gc0.segs(), r.value) {
                        let k = find_seg(gc0.segs(), r.value);
                        lemma_first_seg_from(gc0.segs(), r.value, 0);
                        assert(HeapSegment::marks_grow(gc0.segs()[k], self.segs()[k]));
                    }
                }
            }
            match self.resolve_root(r) {
                Some(o) => {
                    self.try_mark_push(&mut queue, o, r.pinned);
                    proof {
                        assert(root_target(gc0.segs(), gc0.spec_types(), roots@[i as int]) == Some(o));
                        assert(is_root_seed(gc0.segs(), gc0.spec_types(), gc0.handles(), gc0.queue(), roots@, o));
                        lemma_reach_seed(gc0.segs(), gc0.spec_types(), gc0.handles(), seeds, o);
                        lemma_mark_one(gc0.segs(), gc0.spec_types(), gc0.handles(), seeds, before.segs(), self.segs(), o);
                        lemma_scan_step_trans(gc0, before, *self, Seq::empty(), qb, queue@);
                        lemma_grow_same(gc0.segs(), before.segs(), gc0.spec_types(), o);
                    }
                },
                None => {},
            }
            proof {
                assert forall|k: int|
                    0 <= k < i + 1 implies (root_kept(gc0.segs(), self.segs(), gc0.spec_types(), #[trigger] roots@[k]) && root_pinned(gc0.segs(), self.segs(), gc0.spec_types(), roots@[k])) by {
                    if let Some(o) = root_target(gc0.segs(), gc0.spec_types(), roots@[k]) {
                        lemma_grow_same(before.segs(), self.segs(), gc0.spec_types(), o);
                    }
                }
            }
            i = i + 1;
        }
        // strong and pinned handles
        let hs = self.handle_table.used_handles();
        let mut j: usize = 0;
        while j < hs.len()
            invariant
                gc0.wf(),
                no_marks(gc0.segs()),
                scan_step(gc0, *self, Seq::empty(), queue@),
                j <= hs@.len(),
                forall|k: int| 0 <= k < hs@.len() ==> gc0.handles().spec_contains(#[trigger] hs@[k]),
                forall|h: usize| gc0.handles().spec_contains(h) ==> hs@.contains(h),
                forall|k: int|
                    0 <= k < roots@.len() ==> (root_kept(gc0.segs(), self.segs(), gc0.spec_types(), #[trigger] roots@[k]) && root_pinned(gc0.segs(), self.segs(), gc0.spec_types(), roots@[k])),
                forall|k: int|
                    0 <= k < j && (gc0.handles().spec_handle(#[trigger] hs@[k]).handle_type == HandleType::Strong
                        || gc0.handles().spec_handle(hs@[k]).handle_type == HandleType::Pinned) && markable(
                        gc0.segs(),
                        gc0.handles().spec_handle(hs@[k]).object,
                    ) ==> heap_marked(self.segs(), gc0.handles().spec_handle(hs@[k]).object),
                forall|k: int|
                    0 <= k < j && gc0.handles().spec_handle(#[trigger] hs@[k]).handle_type == HandleType::Pinned
                        && markable(gc0.segs(), gc0.handles().spec_handle(hs@[k]).object) && in_small(
                        gc0.segs(),
                        gc0.handles().spec_handle(hs@[k]).object,
                    ) ==> heap_pinned(self.segs(), gc0.handles().spec_handle(hs@[k]).object),
                seeds == root_seeds(gc0.segs(), gc0.spec_types(), gc0.handles(), gc0.queue(), roots@),
                marks_reachable(gc0.segs(), gc0.spec_types(), gc0.handles(), seeds, self.segs()),
            decreases hs@.len() - j,
        {
            let g = self.handle_table.get(hs[j]);
            let ghost before = *self;
            let ghost qb = queue@;
            proof {
                assert(gc0.handles().spec_contains(hs@[j as int]));
                if g.handle_type == HandleType::Strong || g.handle_type == HandleType::Pinned {
                    assert(is_root_seed(gc0.segs(), gc0.spec_types(), gc0.handles(), gc0.queue(), roots@, g.object));
                    lemma_reach_seed(gc0.segs(), gc0.spec_types(), gc0.handles(), seeds, g.object);
                }
            }
            if g.object != 0 {
                if g.handle_type == HandleType::Strong {
                    self.try_mark_push(&mut queue, g.object, false);
                    proof {
                        lemma_mark_one(gc0.segs(), gc0.spec_types(), gc0.handles(), seeds, before.segs(), self.segs(), g.object);
                        lemma_scan_step_trans(gc0, before, *self, Seq::empty(), qb, queue@);
                    }
                } else if g.handle_type == HandleType::Pinned {
                    self.try_mark_push(&mut queue, g.object, true);
                    proof {
                        lemma_mark_one(gc0.segs(), gc0.spec_types(), gc0.handles(), seeds, before.segs(), self.segs(), g.object);
                        lemma_scan_step_trans(gc0, before, *self, Seq::empty(), qb, queue@);
                    }
                }
            }
            proof {
                lemma_grow_same(gc0.segs(), before.segs(), gc0.spec_types(), g.object);
                assert forall|k: int|
                    0 <= k < roots@.len() implies (root_kept(gc0.segs(), self.segs(), gc0.spec_types(), #[trigger] roots@[k]) && root_pinned(gc0.segs(), self.segs(), gc0.spec_types(), roots@[k])) by {
                    if let Some(o) = root_target(gc0.segs(), gc0.spec_types(), roots@[k]) {
                        lemma_grow_same(before.segs(), self.segs(), gc0.spec_types(), o);
                    }
                }
                assert forall|k: int|
                    0 <= k < j + 1 && (gc0.handles().spec_handle(#[trigger] hs@[k]).handle_type == HandleType::Strong
                        || gc0.handles().spec_handle(hs@[k]).handle_type == HandleType::Pinned) && markable(
                        gc0.segs(),
                        gc0.handles().spec_handle(hs@[k]).object,
                    ) implies heap_marked(self.segs(), gc0.handles().spec_handle(hs@[k]).object) by {
                    lemma_grow_same(before.segs(), self.segs(), gc0.spec_types(), gc0.handles().spec_handle(hs@[k]).object);
                }
                assert forall|k: int|
                    0 <= k < j + 1 && gc0.handles().spec_handle(#[trigger] hs@[k]).handle_type == HandleType::Pinned
                        && markable(gc0.segs(), gc0.handles().spec_handle(hs@[k]).object) && in_small(
                        gc0.segs(),
                        gc0.handles().spec_handle(hs@[k]).object,
                    ) implies heap_pinned(self.segs(), gc0.handles().spec_handle(hs@[k]).object) by {
                    lemma_grow_same(before.segs(), self.segs(), gc0.spec_types(), gc0.handles().spec_handle(hs@[k]).object);
                }
            }
            j = j + 1;
        }
        // the finalization queue
        let mut f: usize = 0;
        while f < self.finalization_queue.len()
            invariant
                gc0.wf(),
                no_marks(gc0.segs()),
                scan_step(gc0, *self, Seq::empty(), queue@),
                f <= self.queue().len(),
                forall|k: int| 0 <= k < hs@.len() ==> gc0.handles().spec_contains(#[trigger] hs@[k]),
                forall|h: usize| gc0.handles().spec_contains(h) ==> hs@.contains(h),
                forall|k: int|
                    0 <= k < roots@.len() ==> (root_kept(gc0.segs(), self.segs(), gc0.spec_types(), #[trigger] roots@[k]) && root_pinned(gc0.segs(), self.segs(), gc0.spec_types(), roots@[k])),
                forall|k: int|
                    0 <= k < hs@.len() && (gc0.handles().spec_handle(#[trigger] hs@[k]).handle_type == HandleType::Strong
                        || gc0.handles().spec_handle(hs@[k]).handle_type == HandleType::Pinned) && markable(
                        gc0.segs(),
                        gc0.handles().spec_handle(hs@[k]).object,
                    ) ==> heap_marked(self.segs(), gc0.handles().spec_handle(hs@[k]).object),
                forall|k: int|
                    0 <= k < hs@.len() && gc0.handles().spec_handle(#[trigger] hs@[k]).handle_type == HandleType::Pinned
                        && markable(gc0.segs(), gc0.handles().spec_handle(hs@[k]).object) && in_small(
                        gc0.segs(),
                        gc0.handles().spec_handle(hs@[k]).object,
                    ) ==> heap_pinned(self.segs(), gc0.handles().spec_handle(hs@[k]).object),
                forall|k: int|
                    0 <= k < f && markable(gc0.segs(), #[trigger] self.queue()[k]) ==> heap_marked(
                        self.segs(),
                        self.queue()[k],
                    ),
                seeds == root_seeds(gc0.segs(), gc0.spec_types(), gc0.handles(), gc0.queue(), roots@),
                marks_reachable(gc0.segs(), gc0.spec_types(), gc0.handles(), seeds, self.segs()),
            decreases self.queue().len() - f,
        {
            let x = self.finalization_queue[f];
            let ghost before = *self;
            let ghost qb = queue@;
            self.try_mark_push(&mut queue, x, false);
            proof {
                assert(gc0.queue().contains(x)) by {
                    assert(gc0.queue()[f as int] == x);
                }
                assert(is_root_seed(gc0.segs(), gc0.spec_types(), gc0.handles(), gc0.queue(), roots@, x));
                lemma_reach_seed(gc0.segs(), gc0.spec_types(), gc0.handles(), seeds, x);
                lemma_mark_one(gc0.segs(), gc0.spec_types(), gc0.handles(), seeds, before.segs(), self.segs(), x);
                lemma_scan_step_trans(gc0, before, *self, Seq::empty(), qb, queue@);
                lemma_grow_same(gc0.segs(), before.segs(), gc0.spec_types(), x);
                assert forall|k: int|
                    0 <= k < roots@.len() implies (root_kept(gc0.segs(), self.segs(), gc0.spec_types(), #[trigger] roots@[k]) && root_pinned(gc0.segs(), self.segs(), gc0.spec_types(), roots@[k])) by {
                    if let Some(o) = root_target(gc0.segs(), gc0.spec_types(), roots@[k]) {
                        lemma_grow_same(before.segs(), self.segs(), gc0.spec_types(), o);
                    }
                }
                assert forall|k: int|
                    0 <= k < hs@.len() && (gc0.handles().spec_handle(#[trigger] hs@[k]).handle_type == HandleType::Strong
                        || gc0.handles().spec_handle(hs@[k]).handle_type == HandleType::Pinned) && markable(
                        gc0.segs(),
                        gc0.handles().spec_handle(hs@[k]).object,
                    ) implies heap_marked(self.segs(), gc0.handles().spec_handle(hs@[k]).object) by {
                    lemma_grow_same(before.segs(), self.segs(), gc0.spec_types(), gc0.handles().spec_handle(hs@[k]).object);
                }
                assert forall|k: int|
                    0 <= k < hs@.len() && gc0.handles().spec_handle(#[trigger] hs@[k]).handle_type == HandleType::Pinned
                        && markable(gc0.segs(), gc0.handles().spec_handle(hs@[k]).object) && in_small(
                        gc0.segs(),
                        gc0.handles().spec_handle(hs@[k]).object,
                    ) implies heap_pinned(self.segs(), gc0.handles().spec_handle(hs@[k]).object) by {
                    lemma_grow_same(before.segs(), self.segs(), gc0.spec_types(), gc0.handles().spec_handle(hs@[k]).object);
                }
                assert forall|k: int|
                    0 <= k < f + 1 && markable(gc0.segs(), #[trigger] self.queue()[k]) implies heap_marked(
                        self.segs(),
                        self.queue()[k],
                    ) by {
                    lemma_grow_same(gc0.segs(), before.segs(), gc0.spec_types(), self.queue()[k]);
                    lemma_grow_same(before.segs(), self.segs(), gc0.spec_types(), self.queue()[k]);
                }
            }
            f = f + 1;
        }
        proof {
            // nothing was marked before this collection: every marked object is queued
            assert forall|y: usize| #[trigger] heap_marked(self.segs(), y) && !queue@.contains(y) implies forall|jj: int|
                0 <= jj < children(self.segs(), self.spec_types(), y).len() ==> !markable(
                    self.segs(),
                    children(self.segs(), self.spec_types(), y)[jj],
                ) || heap_marked(self.segs(), children(self.segs(), self.spec_types(), y)[jj]) by {
                lemma_no_marks(gc0.segs(), y);
            }
            assert forall|x: usize| #[trigger] queue@.contains(x) implies heap_marked(self.segs(), x) by {
            }
            if queue@.len() == 0 {
                assert forall|h: usize| #[trigger] self.handles().spec_contains(h) implies dependent_ok(
                    self.segs(),
                    self.handles().spec_handle(h),
                ) by {
                    lemma_no_marks(gc0.segs(), self.handles().spec_handle(h).object);
                }
            }
        }
        let ghost gc1 = *self;
        proof {
            assert forall|h: usize|
                #[trigger] gc0.handles().spec_contains(h) && gc0.handles().spec_handle(h).handle_type == HandleType::Dependent
                    && gc0.handles().spec_handle(h).object != 0 && !in_heap(gc0.segs(), gc0.handles().spec_handle(h).object)
                    implies seeds.contains(gc0.handles().spec_handle(h).extra_or_secondary) by {
                assert(is_root_seed(
                    gc0.segs(),
                    gc0.spec_types(),
                    gc0.handles(),
                    gc0.queue(),
                    roots@,
                    gc0.handles().spec_handle(h).extra_or_secondary,
                ));
            }
        }
        if queue.len() == 0 {
            // nothing is queued: the secondaries of dependent handles whose
            // primary lies outside the heap still start the marking
            let ghost gc_a = *self;
            self.mark_dependents(&mut queue, Ghost(gc0.segs()), Ghost(gc0.handles()), Ghost(seeds));
            proof {
                lemma_marks_grow_trans(gc0.segs(), gc_a.segs(), self.segs());
                assert forall|y: usize| #[trigger] heap_marked(self.segs(), y) && !queue@.contains(y) implies forall|jj: int|
                    0 <= jj < children(self.segs(), self.spec_types(), y).len() ==> !markable(
                        self.segs(),
                        children(self.segs(), self.spec_types(), y)[jj],
                    ) || heap_marked(self.segs(), children(self.segs(), self.spec_types(), y)[jj]) by {
                    lemma_no_marks(gc0.segs(), y);
                }
            }
        }
        self.propagate(&mut queue, Ghost(gc0.segs()), Ghost(gc0.handles()), Ghost(seeds));
        let ghost gc2 = *self;
        proof {
            assert forall|k: int|
                0 <= k < roots@.len() implies (root_kept(gc0.segs(), self.segs(), gc0.spec_types(), #[trigger] roots@[k]) && root_pinned(gc0.segs(), self.segs(), gc0.spec_types(), roots@[k])) by {
                if let Some(o) = root_target(gc0.segs(), gc0.spec_types(), roots@[k]) {
                    lemma_grow_same(gc1.segs(), self.segs(), gc0.spec_types(), o);
                }
            }
            assert forall|h: usize|
                #[trigger] gc0.handles().spec_contains(h) && (gc0.handles().spec_handle(h).handle_type
                    == HandleType::Strong || gc0.handles().spec_handle(h).handle_type == HandleType::Pinned)
                    && markable(gc0.segs(), gc0.handles().spec_handle(h).object) implies heap_marked(
                    self.segs(),
                    gc0.handles().spec_handle(h).object,
                ) by {
                assert(hs@.contains(h));
                let k = choose|k: int| 0 <= k < hs@.len() && hs@[k] == h;
                lemma_grow_same(gc1.segs(), self.segs(), gc0.spec_types(), gc0.handles().spec_handle(h).object);
            }
            assert forall|x: usize| #[trigger] gc0.queue().contains(x) && markable(gc0.segs(), x) implies heap_marked(
                self.segs(),
                x,
            ) by {
                let k = choose|k: int| 0 <= k < gc0.queue().len() && gc0.queue()[k] == x;
                lemma_grow_same(gc1.segs(), self.segs(), gc0.spec_types(), x);
            }
            assert forall|h: usize|
                #[trigger] gc0.handles().spec_contains(h) && gc0.handles().spec_handle(h).handle_type == HandleType::Pinned
                    && markable(gc0.segs(), gc0.handles().spec_handle(h).object) && in_small(
                    gc0.segs(),
                    gc0.handles().spec_handle(h).object,
                ) implies heap_pinned(self.segs(), gc0.handles().spec_handle(h).object) by {
                assert(hs@.contains(h));
                let k = choose|k: int| 0 <= k < hs@.len() && hs@[k] == h;
                lemma_grow_same(gc1.segs(), self.segs(), gc0.spec_types(), gc0.handles().spec_handle(h).object);
            }
            assert(heap_marks_grow(gc0.segs(), self.segs())) by {
                assert forall|k: int| 0 <= k < gc0.segs().len() implies HeapSegment::marks_grow(#[trigger] gc0.segs()[k], self.segs()[k]) by {
                    assert(HeapSegment::marks_grow(gc0.segs()[k], gc1.segs()[k]));
                    assert(HeapSegment::marks_grow(gc1.segs()[k], self.segs()[k]));
                }
            }
        }
        self.clear_short_handles();
        proof {
            assert forall|h: usize| #[trigger] self.handles().spec_contains(h) implies dependent_ok(
                self.segs(),
                self.handles().spec_handle(h),
            ) by {
                assert(dependent_ok(gc2.segs(), gc2.handles().spec_handle(h)));
            }
            assert forall|h: usize| #[trigger] self.handles().spec_contains(h) implies outside_dependent_ok(
                self.segs(),
                self.handles().spec_handle(h),
            ) by {
                assert(outside_dependent_ok(gc2.segs(), gc2.handles().spec_handle(h)));
            }
        }
    }
}

impl RustGc {
    /// Clears the short weak handles whose object is dead.
    fn clear_short_handles(&mut self)
        requires
            old(self).wf(),
        ensures
            final(self).wf(),
            final(self).spec_types() == old(self).spec_types(),
            final(self).segs() == old(self).segs(),
            final(self).queue() == old(self).queue(),
            forall|h: usize| #[trigger] final(self).handles().spec_contains(h) == old(self).handles().spec_contains(h),
            forall|h: usize|
                #[trigger] old(self).handles().spec_contains(h) ==> short_cleared(
                    old(self).segs(),
                    old(self).handles().spec_handle(h),
                    final(self).handles().spec_handle(h),
                ),
            forall|h: usize|
                #[trigger] old(self).handles().spec_contains(h) && old(self).handles().spec_handle(h).handle_type
                    != HandleType::Short ==> final(self).handles().spec_handle(h) == old(self).handles().spec_handle(h),
    {
        let ghost gc0 = *self;
        let hs = self.handle_table.used_handles();
        let mut j: usize = 0;
        while j < hs.len()
            invariant
                gc0.wf(),
                self.wf(),
                self.spec_types() == gc0.spec_types(),
                self.segs() == gc0.segs(),
                self.queue() == gc0.queue(),
                j <= hs@.len(),
                forall|k: int| 0 <= k < hs@.len() ==> gc0.handles().spec_contains(#[trigger] hs@[k]),
                forall|h: usize| gc0.handles().spec_contains(h) ==> hs@.contains(h),
                forall|a: int, b: int| 0 <= a < b < hs@.len() ==> hs@[a] < hs@[b],
                forall|h: usize| #[trigger] self.handles().spec_contains(h) == gc0.handles().spec_contains(h),
                forall|k: int|
                    0 <= k < j ==> short_cleared(
                        gc0.segs(),
                        gc0.handles().spec_handle(#[trigger] hs@[k]),
                        self.handles().spec_handle(hs@[k]),
                    ),
                forall|k: int|
                    j <= k < hs@.len() ==> self.handles().spec_handle(#[trigger] hs@[k]) == gc0.handles().spec_handle(
                        hs@[k],
                    ),
            decreases hs@.len() - j,
        {
            let h = hs[j];
            proof {
                assert(gc0.handles().spec_contains(hs@[j as int]));
                assert(self.handles().spec_contains(h));
            }
            let g = self.handle_table.get(h);
            let ghost before = self.handles();
            if g.handle_type == HandleType::Short && self.is_object_dead(g.object) {
                self.handle_table.set(h, GcHandle { object: 0, extra_or_secondary: g.extra_or_secondary, handle_type: g.handle_type });
            }
            proof {
                assert forall|k: int|
                    0 <= k < j + 1 implies short_cleared(
                        gc0.segs(),
                        gc0.handles().spec_handle(#[trigger] hs@[k]),
                        self.handles().spec_handle(hs@[k]),
                    ) by {
                    if k < j {
                        assert(hs@[k] != h);
                    }
                }
                assert forall|k: int|
                    j + 1 <= k < hs@.len() implies self.handles().spec_handle(#[trigger] hs@[k]) == gc0.handles().spec_handle(
                        hs@[k],
                    ) by {
                    assert(hs@[k] != h);
                }
            }
            j = j + 1;
        }
        proof {
            assert forall|h: usize|
                #[trigger] gc0.handles().spec_contains(h) implies short_cleared(
                    gc0.segs(),
                    gc0.handles().spec_handle(h),
                    self.handles().spec_handle(h),
                ) by {
                assert(hs@.contains(h));
                let k = choose|k: int| 0 <= k < hs@.len() && hs@[k] == h;
            }
        }
    }
}

/// The bytes of the segment that `add_segment` makes for an object of
/// `size` bytes (pinned where `pin`): the object and a header word for a
/// pinned or large object, else a whole small-object segment.
pub open spec fn segment_bytes(size: usize, pin: bool) -> int {
    if pin || size >= SEGMENT_SIZE {
        size + 8
    } else {
        SEGMENT_SIZE as int
    }
}

/// Whether the address range from `start` to `end` overlaps a segment of
/// `segs`.
pub open spec fn range_overlaps(segs: Seq<HeapSegment>, start: int, end: int) -> bool {
    exists|k: int| 0 <= k < segs.len() && !(#[trigger] segs[k].hs_end() <= start || end <= segs[k].hs_base())
}

/// Whether `n` is a segment as `add_segment` makes it for an object of
/// `size` bytes (pinned where `pin`): a single-object segment of `size`
/// bytes plus a header word for a pinned or large object, else a small-object
/// segment, with every word zero.
pub open spec fn fresh_segment(n: HeapSegment, size: usize, pin: bool) -> bool {
    &&& n.hs_wf()
    &&& n.is_small() == !(pin || size >= SEGMENT_SIZE)
    &&& !n.is_small() ==> n.hs_words().len() == size / 8 + 1
    &&& forall|i: int| 0 <= i < n.hs_words().len() ==> #[trigger] n.hs_words()[i] == 0
}

/// Why no segment was added.
pub enum AddSegmentError {
    /// The segment's buffer could not be sized on this platform.
    Unavailable,
    /// The segment that was made overlaps a segment of the heap; it is
    /// handed back and not added.
    Overlaps(HeapSegment),
}

impl RustGc {
    /// Adds a segment for allocation: a single-object segment of `size`
    /// bytes for a pinned or large (at least a segment's size) object,
    /// otherwise a small-object segment, every word zero. Returns its address
    /// range. An error leaves the heap unchanged: `Overlaps` hands back the
    /// segment this call made where its buffer overlaps a segment of the heap.
    pub fn add_segment(&mut self, size: usize, pin: bool) -> (r: Result<(usize, usize), AddSegmentError>)
        requires
            old(self).wf(),
            pin || size >= SEGMENT_SIZE ==> size % 8 == 0 && size >= 8,
        ensures
            final(self).wf(),
            final(self).spec_types() == old(self).spec_types(),
            final(self).handles() == old(self).handles(),
            final(self).queue() == old(self).queue(),
            r is Err ==> final(self).segs() == old(self).segs(),
            r matches Err(AddSegmentError::Unavailable) ==> usize::BITS != 64,
            r matches Err(AddSegmentError::Overlaps(n)) ==> {
                &&& fresh_segment(n, size, pin)
                &&& n.hs_end() == n.hs_base() + segment_bytes(size, pin)
                &&& range_overlaps(old(self).segs(), n.hs_base() as int, n.hs_end() as int)
            },
            r matches Ok((start, end)) ==> {
                &&& final(self).segs().len() == old(self).segs().len() + 1
                &&& final(self).segs().take(old(self).segs().len() as int) == old(self).segs()
                &&& fresh_segment(final(self).segs().last(), size, pin)
                &&& final(self).segs().last().hs_base() == start
                &&& final(self).segs().last().hs_end() == end
                &&& final(self).segs().last().is_small() == !(pin || size >= SEGMENT_SIZE)
                &&& !(pin || size >= SEGMENT_SIZE) ==> end == start + SEGMENT_SIZE
                &&& (pin || size >= SEGMENT_SIZE) ==> end == start + size + 8
                &&& final(self).segs().last().hs_live(final(self).spec_types()).len() == 0
                    || !final(self).segs().last().is_small()
            },
            no_marks(old(self).segs()) ==> no_marks(final(self).segs()),
    {
        let new_seg = if pin || size >= SEGMENT_SIZE {
            match LargeSegment::new(size) {
                Some(l) => HeapSegment::Large(l),
                None => return Err(AddSegmentError::Unavailable),
            }
        } else {
            match Segment::new_boxed() {
                Some(s) => HeapSegment::Small(s),
                None => return Err(AddSegmentError::Unavailable),
            }
        };
        let start = new_seg.base();
        let end = new_seg.end();
        proof {
            assert forall|k: int| 0 <= k < self.segs().len() implies #[trigger] self.segs()[k].hs_wf() by {}
        }
        if !RustGc::apart_from_all(&new_seg, &self.segments) {
            proof {
                let k = choose|k: int| 0 <= k < self.segs().len() && !seg_apart(#[trigger] self.segs()[k], new_seg);
                assert(!(self.segs()[k].hs_end() <= start || end <= self.segs()[k].hs_base()));
            }
            return Err(AddSegmentError::Overlaps(new_seg));
        }
        proof {
            assert forall|j: int| 0 <= j < self.segs().len() implies #[trigger] self.segs()[j].hs_end() <= start
                || end <= self.segs()[j].hs_base() by {
                assert(seg_apart(self.segs()[j], new_seg));
            }
        }
        let ghost segs0 = self.segs();
        let ghost ns0 = new_seg;
        self.segments.push(new_seg);
        proof {
            assert(self.segs() == segs0.push(ns0));
            assert(self.segs().take(segs0.len() as int) =~= segs0);
            assert forall|j: int| 0 <= j < self.segs().len() implies #[trigger] self.segs()[j].hs_wf() by {
                if j < segs0.len() {
                    assert(self.segs()[j] == segs0[j]);
                }
            }
            assert forall|a: int, b: int|
                0 <= a < self.segs().len() && 0 <= b < self.segs().len() && a != b implies #[trigger] self.segs()[a].hs_end()
                    <= #[trigger] self.segs()[b].hs_base() || self.segs()[b].hs_end() <= self.segs()[a].hs_base() by {
                if a < segs0.len() && b < segs0.len() {
                    assert(self.segs()[a] == segs0[a]);
                    assert(self.segs()[b] == segs0[b]);
                } else if a < segs0.len() {
                    assert(self.segs()[a] == segs0[a]);
                } else {
                    assert(self.segs()[b] == segs0[b]);
                }
            }
            if no_marks(segs0) {
                assert forall|j: int, i: int|
                    0 <= j < self.segs().len() && 0 <= i < self.segs()[j].hs_marks().len() implies !#[trigger] self.segs()[j].hs_marks()[i] by {
                    if j < segs0.len() {
                        assert(self.segs()[j] == segs0[j]);
                    }
                }
            }
            if let HeapSegment::Small(ns) = ns0 {
                assert(ns.words()[1] == 0);
                assert(ns.live_objects(self.types) =~= Seq::<int>::empty());
            }
        }
        Ok((start, end))
    }
}

/// Whether the object at `a` has a clear mark bit in `seg`.
pub open spec fn unmarked_at(seg: HeapSegment, a: usize) -> bool {
    seg.hs_mark_index(a) matches Some(i) && !seg.hs_marks()[i]
}

/// Whether the object at `a` has a clear finalization-pending bit in `seg`.
pub open spec fn not_pending_at(seg: HeapSegment, a: usize) -> bool {
    seg.hs_mark_index(a) matches Some(i) && !seg.hs_pendings()[i]
}

/// The objects of `live` (addresses in `seg`) that become eligible for
/// finalization: unmarked, with a finalizer to run, not pending already.
pub open spec fn seg_candidates(seg: HeapSegment, types: TypeTable, live: Seq<int>) -> Seq<usize>
    decreases live.len(),
{
    if live.len() == 0 {
        Seq::empty()
    } else {
        let rest = seg_candidates(seg, types, live.drop_last());
        let a = live.last() as usize;
        if unmarked_at(seg, a) && seg.hs_needs_finalization(types, a) && not_pending_at(seg, a) {
            rest.push(a)
        } else {
            rest
        }
    }
}

/// The objects of the first `k` segments that become eligible for
/// finalization, in segment and address order.
pub open spec fn candidates_upto(segs: Seq<HeapSegment>, types: TypeTable, k: int) -> Seq<usize>
    decreases k,
{
    if k <= 0 {
        Seq::empty()
    } else {
        candidates_upto(segs, types, k - 1) + seg_candidates(segs[k - 1], types, segs[k - 1].hs_live(types))
    }
}

/// The objects of the heap that become eligible for finalization.
pub open spec fn finalization_candidates(segs: Seq<HeapSegment>, types: TypeTable) -> Seq<usize> {
    candidates_upto(segs, types, segs.len() as int)
}

/// Whether the object at `x` is pending finalization.
pub open spec fn heap_pending(segs: Seq<HeapSegment>, x: usize) -> bool {
    in_heap(segs, x) && segs[find_seg(segs, x)].hs_pending(x)
}

/// Whether `b` has the same segments as `a` with the same words and layout
/// (flag bits aside).
pub open spec fn same_layout(a: Seq<HeapSegment>, b: Seq<HeapSegment>) -> bool {
    &&& a.len() == b.len()
    &&& forall|k: int|
        0 <= k < a.len() ==> {
            &&& (#[trigger] a[k]).is_small() == b[k].is_small()
            &&& a[k].hs_words() == b[k].hs_words()
            &&& a[k].hs_base() == b[k].hs_base()
        }
}

/// The handle `after` is `before` with its object cleared when the object is
/// dead (and, for a dependent handle, the secondary object too).
pub open spec fn dead_cleared(segs: Seq<HeapSegment>, before: GcHandle, after: GcHandle) -> bool {
    if is_dead(segs, before.object) {
        after == (GcHandle {
            object: 0,
            extra_or_secondary: if before.handle_type == HandleType::Dependent {
                0
            } else {
                before.extra_or_secondary
            },
            ..before
        })
    } else {
        after == before
    }
}

/// Whether `b` differs from `a` only in finalization-pending bits.
pub open spec fn only_pendings(a: Seq<HeapSegment>, b: Seq<HeapSegment>) -> bool {
    &&& a.len() == b.len()
    &&& forall|k: int|
        0 <= k < a.len() ==> {
            &&& (#[trigger] a[k]).is_small() == b[k].is_small()
            &&& a[k].hs_words() == b[k].hs_words()
            &&& a[k].hs_base() == b[k].hs_base()
            &&& a[k].hs_marks() == b[k].hs_marks()
            &&& forall|or: usize| a[k].hs_mark_index(or) == b[k].hs_mark_index(or)
            &&& forall|or: usize| a[k].hs_contains(or) == b[k].hs_contains(or)
            &&& forall|or: usize| #[trigger] a[k].hs_pinned_at(or) == b[k].hs_pinned_at(or)
        }
}

proof fn lemma_only_pendings_seg(a: Seq<HeapSegment>, b: Seq<HeapSegment>, types: TypeTable, or: usize, k: int)
    requires
        only_pendings(a, b),
        0 <= k < a.len(),
    ensures
        a[k].hs_slots(types, or) == b[k].hs_slots(types, or),
        a[k].hs_word_at(or as int) == b[k].hs_word_at(or as int),
        a[k].hs_marked(or) == b[k].hs_marked(or),
        a[k].hs_unmarked() == b[k].hs_unmarked(),
        a[k].hs_live(types) == b[k].hs_live(types),
        a[k].hs_object(types, or) == b[k].hs_object(types, or),
        a[k].hs_end() == b[k].hs_end(),
{
    assert(a[k].hs_mark_index(or) == b[k].hs_mark_index(or));
}

proof fn lemma_first_seg_only_pendings(a: Seq<HeapSegment>, b: Seq<HeapSegment>, or: usize, k: int)
    requires
        only_pendings(a, b),
    ensures
        first_seg_from(a, or, k) == first_seg_from(b, or, k),
    decreases a.len() - k,
{
    if 0 <= k < a.len() {
        assert(a[k].hs_contains(or) == b[k].hs_contains(or));
        lemma_first_seg_only_pendings(a, b, or, k + 1);
    }
}

proof fn lemma_only_pendings(a: Seq<HeapSegment>, b: Seq<HeapSegment>, types: TypeTable, or: usize)
    requires
        only_pendings(a, b),
    ensures
        find_seg(a, or) == find_seg(b, or),
        in_heap(a, or) == in_heap(b, or),
        markable(a, or) == markable(b, or),
        heap_marked(a, or) == heap_marked(b, or),
        is_dead(a, or) == is_dead(b, or),
        children(a, types, or) == children(b, types, or),
        heap_pinned(a, or) == heap_pinned(b, or),
{
    lemma_first_seg_only_pendings(a, b, or, 0);
    lemma_first_seg_from(a, or, 0);
    if in_heap(a, or) {
        let k = find_seg(a, or);
        lemma_only_pendings_seg(a, b, types, or, k);
        let ca = children(a, types, or);
        let cb = children(b, types, or);
        assert forall|j: int| 0 <= j < ca.len() implies ca[j] == cb[j] by {
            lemma_only_pendings_seg(a, b, types, a[k].hs_slots(types, or)[j] as usize, k);
            assert(a[k].hs_word_at(a[k].hs_slots(types, or)[j]) == b[k].hs_word_at(b[k].hs_slots(types, or)[j]));
        }
        assert(ca =~= cb);
    }
}

impl RustGc {
    /// The objects that become eligible for finalization, with the index of
    /// their segment.
    fn collect_candidates(&self) -> (r: (Vec<usize>, Vec<usize>))
        requires
            self.wf(),
        ensures
            r.0@ == finalization_candidates(self.segs(), self.spec_types()),
            r.1@.len() == r.0@.len(),
            forall|i: int|
                0 <= i < r.0@.len() ==> {
                    &&& (#[trigger] r.1@[i]) < self.segs().len()
                    &&& self.segs()[r.1@[i] as int].hs_contains(r.0@[i])
                    &&& unmarked_at(self.segs()[r.1@[i] as int], r.0@[i])
                    &&& not_pending_at(self.segs()[r.1@[i] as int], r.0@[i])
                },
    {
        let mut cands: Vec<usize> = Vec::new();
        let mut seg_of: Vec<usize> = Vec::new();
        let mut k: usize = 0;
        while k < self.segments.len()
            invariant
                self.wf(),
                k <= self.segs().len(),
                cands@ == candidates_upto(self.segs(), self.spec_types(), k as int),
                seg_of@.len() == cands@.len(),
                forall|i: int|
                    0 <= i < cands@.len() ==> {
                        &&& (#[trigger] seg_of@[i]) < self.segs().len()
                        &&& self.segs()[seg_of@[i] as int].hs_contains(cands@[i])
                        &&& unmarked_at(self.segs()[seg_of@[i] as int], cands@[i])
                        &&& not_pending_at(self.segs()[seg_of@[i] as int], cands@[i])
                    },
            decreases self.segs().len() - k,
        {
            proof {
                assert(self.segs()[k as int].hs_wf());
                self.segs()[k as int].lemma_live_in_seg(self.types);
            }
            let seg = &self.segments[k];
            let objs = seg.iter(&self.types);
            let ghost live = seg.hs_live(self.types);
            let ghost base_c = cands@;
            let mut j: usize = 0;
            while j < objs.len()
                invariant
                    self.wf(),
                    k < self.segs().len(),
                    *seg == self.segs()[k as int],
                    seg.hs_wf(),
                    objs@.map_values(|a: usize| a as int) == live,
                    live == seg.hs_live(self.types),
                    forall|jj: int|
                        0 <= jj < live.len() ==> (#[trigger] live[jj]) <= usize::MAX
                            && seg.hs_mark_index(live[jj] as usize) is Some
                            && seg.hs_contains(live[jj] as usize),
                    j <= objs@.len(),
                    base_c == candidates_upto(self.segs(), self.spec_types(), k as int),
                    cands@ == base_c + seg_candidates(*seg, self.spec_types(), live.take(j as int)),
                    seg_of@.len() == cands@.len(),
                    forall|i: int|
                        0 <= i < cands@.len() ==> {
                            &&& (#[trigger] seg_of@[i]) < self.segs().len()
                            &&& self.segs()[seg_of@[i] as int].hs_contains(cands@[i])
                            &&& unmarked_at(self.segs()[seg_of@[i] as int], cands@[i])
                            &&& not_pending_at(self.segs()[seg_of@[i] as int], cands@[i])
                        },
                decreases objs@.len() - j,
            {
                let a = objs[j];
                proof {
                    assert(live[j as int] == a as int);
                    assert(live.take(j + 1).drop_last() =~= live.take(j as int));
                    assert(live.take(j + 1).last() == a as int);
                    seg.lemma_mark_index(a);
                }
                let unmarked = match seg.is_marked(a) {
                    Ok(m) => !m,
                    Err(_) => false,
                };
                let not_pending = match seg.get_finalization_pending(a) {
                    Ok(p) => !p,
                    Err(_) => false,
                };
                if unmarked && seg.needs_finalization_at(&self.types, a) && not_pending {
                    let ghost prev = cands@;
                    let ghost prev_s = seg_of@;
                    cands.push(a);
                    seg_of.push(k);
                    proof {
                        assert forall|i: int|
                            0 <= i < cands@.len() implies {
                                &&& (#[trigger] seg_of@[i]) < self.segs().len()
                                &&& self.segs()[seg_of@[i] as int].hs_contains(cands@[i])
                                &&& unmarked_at(self.segs()[seg_of@[i] as int], cands@[i])
                                &&& not_pending_at(self.segs()[seg_of@[i] as int], cands@[i])
                            } by {
                            if i < prev.len() {
                                assert(cands@[i] == prev[i]);
                                assert(seg_of@[i] == prev_s[i]);
                            }
                        }
                    }
                }
                j = j + 1;
            }
            proof {
                assert(live.take(j as int) =~= live);
            }
            k = k + 1;
        }
        (cands, seg_of)
    }
}

impl RustGc {
    /// Sets the finalization-pending flag of each `cands[i]` in segment
    /// `seg_of[i]`.
    fn set_pending_all(&mut self, cands: &Vec<usize>, seg_of: &Vec<usize>)
        requires
            old(self).wf(),
            seg_of@.len() == cands@.len(),
            forall|i: int|
                0 <= i < cands@.len() ==> (#[trigger] seg_of@[i]) < old(self).segs().len()
                    && old(self).segs()[seg_of@[i] as int].hs_contains(cands@[i])
                    && old(self).segs()[seg_of@[i] as int].hs_mark_index(cands@[i]) is Some,
        ensures
            final(self).wf(),
            final(self).spec_types() == old(self).spec_types(),
            final(self).handles() == old(self).handles(),
            final(self).queue() == old(self).queue(),
            only_pendings(old(self).segs(), final(self).segs()),
            forall|i: int| 0 <= i < cands@.len() ==> heap_pending(final(self).segs(), #[trigger] cands@[i]),
            forall|x: usize| heap_pending(old(self).segs(), x) ==> #[trigger] heap_pending(final(self).segs(), x),
    {
        let ghost gc0 = *self;
        let mut i: usize = 0;
        while i < cands.len()
            invariant
                gc0.wf(),
                self.wf(),
                self.spec_types() == gc0.spec_types(),
                self.handles() == gc0.handles(),
                self.queue() == gc0.queue(),
                only_pendings(gc0.segs(), self.segs()),
                seg_of@.len() == cands@.len(),
                forall|ii: int|
                    0 <= ii < cands@.len() ==> (#[trigger] seg_of@[ii]) < gc0.segs().len()
                        && gc0.segs()[seg_of@[ii] as int].hs_contains(cands@[ii])
                        && gc0.segs()[seg_of@[ii] as int].hs_mark_index(cands@[ii]) is Some,
                i <= cands@.len(),
                forall|ii: int| 0 <= ii < i ==> heap_pending(self.segs(), #[trigger] cands@[ii]),
                forall|x: usize| heap_pending(gc0.segs(), x) ==> #[trigger] heap_pending(self.segs(), x),
            decreases cands@.len() - i,
        {
            let k = seg_of[i];
            let a = cands[i];
            let ghost segs1 = self.segs();
            proof {
                assert(self.segs()[k as int].hs_wf());
                assert(gc0.segs()[k as int].hs_contains(a));
            }
            let mut seg = self.segments.remove(k);
            let ghost seg1 = seg;
            let _ = seg.set_finalization_pending(a, true);
            self.segments.insert(k, seg);
            proof {
                assert(self.segs() == segs1.update(k as int, seg));
                assert forall|j: int| 0 <= j < self.segs().len() implies #[trigger] self.segs()[j].hs_wf() by {
                    if j != k {
                        assert(self.segs()[j] == segs1[j]);
                    }
                }
                assert(only_pendings(gc0.segs(), self.segs())) by {
                    assert forall|j: int| 0 <= j < gc0.segs().len() implies {
                        &&& (#[trigger] gc0.segs()[j]).is_small() == self.segs()[j].is_small()
                        &&& gc0.segs()[j].hs_words() == self.segs()[j].hs_words()
                        &&& gc0.segs()[j].hs_base() == self.segs()[j].hs_base()
                        &&& gc0.segs()[j].hs_marks() == self.segs()[j].hs_marks()
                        &&& forall|or: usize| gc0.segs()[j].hs_mark_index(or) == self.segs()[j].hs_mark_index(or)
                        &&& forall|or: usize| gc0.segs()[j].hs_contains(or) == self.segs()[j].hs_contains(or)
                        &&& forall|or: usize| #[trigger] gc0.segs()[j].hs_pinned_at(or) == self.segs()[j].hs_pinned_at(or)
                    } by {
                        if j != k {
                            assert(self.segs()[j] == segs1[j]);
                        }
                    }
                }
                assert forall|j: int, kk: int|
                    0 <= j < self.segs().len() && 0 <= kk < self.segs().len() && j != kk implies #[trigger] self.segs()[j].hs_end()
                        <= #[trigger] self.segs()[kk].hs_base() || self.segs()[kk].hs_end() <= self.segs()[j].hs_base() by {
                    lemma_only_pendings_seg(gc0.segs(), self.segs(), gc0.spec_types(), 0, j);
                    lemma_only_pendings_seg(gc0.segs(), self.segs(), gc0.spec_types(), 0, kk);
                    assert(gc0.segs()[j].hs_end() <= gc0.segs()[kk].hs_base() || gc0.segs()[kk].hs_end() <= gc0.segs()[j].hs_base());
                }
                lemma_find_seg_disjoint(self.segs(), k as int, a);
                assert forall|x: usize| #[trigger] heap_pending(segs1, x) implies heap_pending(self.segs(), x) by {
                    lemma_first_seg_only_pendings(segs1, self.segs(), x, 0);
                    lemma_first_seg_from(segs1, x, 0);
                    let kx = find_seg(segs1, x);
                    if kx == k {
                        let ix = seg1.hs_mark_index(x).unwrap();
                        let ia = seg1.hs_mark_index(a).unwrap();
                        if ix != ia {
                            assert(seg.hs_pendings()[ix] == seg1.hs_pendings()[ix]);
                        }
                    } else {
                        assert(self.segs()[kx] == segs1[kx]);
                    }
                }
                assert forall|x: usize| heap_pending(gc0.segs(), x) implies #[trigger] heap_pending(self.segs(), x) by {
                    assert(heap_pending(segs1, x));
                }
                assert forall|ii: int| 0 <= ii < i + 1 implies heap_pending(self.segs(), #[trigger] cands@[ii]) by {
                    if ii < i {
                        assert(heap_pending(segs1, cands@[ii]));
                    }
                }
            }
            i = i + 1;
        }
    }

    /// Clears every handle whose object is dead, and the secondary object of
    /// a dependent handle with it.
    fn clear_dead_handles(&mut self)
        requires
            old(self).wf(),
        ensures
            final(self).wf(),
            final(self).spec_types() == old(self).spec_types(),
            final(self).segs() == old(self).segs(),
            final(self).queue() == old(self).queue(),
            forall|h: usize| #[trigger] final(self).handles().spec_contains(h) == old(self).handles().spec_contains(h),
            forall|h: usize|
                #[trigger] old(self).handles().spec_contains(h) ==> dead_cleared(
                    old(self).segs(),
                    old(self).handles().spec_handle(h),
                    final(self).handles().spec_handle(h),
                ),
    {
        let ghost gc0 = *self;
        let hs = self.handle_table.used_handles();
        let mut j: usize = 0;
        while j < hs.len()
            invariant
                gc0.wf(),
                self.wf(),
                self.spec_types() == gc0.spec_types(),
                self.segs() == gc0.segs(),
                self.queue() == gc0.queue(),
                j <= hs@.len(),
                forall|k: int| 0 <= k < hs@.len() ==> gc0.handles().spec_contains(#[trigger] hs@[k]),
                forall|h: usize| gc0.handles().spec_contains(h) ==> hs@.contains(h),
                forall|a: int, b: int| 0 <= a < b < hs@.len() ==> hs@[a] < hs@[b],
                forall|h: usize| #[trigger] self.handles().spec_contains(h) == gc0.handles().spec_contains(h),
                forall|k: int|
                    0 <= k < j ==> dead_cleared(
                        gc0.segs(),
                        gc0.handles().spec_handle(#[trigger] hs@[k]),
                        self.handles().spec_handle(hs@[k]),
                    ),
                forall|k: int|
                    j <= k < hs@.len() ==> self.handles().spec_handle(#[trigger] hs@[k]) == gc0.handles().spec_handle(
                        hs@[k],
                    ),
            decreases hs@.len() - j,
        {
            let h = hs[j];
            proof {
                assert(gc0.handles().spec_contains(hs@[j as int]));
                assert(self.handles().spec_contains(h));
            }
            let g = self.handle_table.get(h);
            if self.is_object_dead(g.object) {
                let extra = if g.handle_type == HandleType::Dependent { 0 } else { g.extra_or_secondary };
                self.handle_table.set(h, GcHandle { object: 0, extra_or_secondary: extra, handle_type: g.handle_type });
            }
            proof {
                assert forall|k: int|
                    0 <= k < j + 1 implies dead_cleared(
                        gc0.segs(),
                        gc0.handles().spec_handle(#[trigger] hs@[k]),
                        self.handles().spec_handle(hs@[k]),
                    ) by {
                    if k < j {
                        assert(hs@[k] != h);
                    }
                }
                assert forall|k: int|
                    j + 1 <= k < hs@.len() implies self.handles().spec_handle(#[trigger] hs@[k]) == gc0.handles().spec_handle(
                        hs@[k],
                    ) by {
                    assert(hs@[k] != h);
                }
            }
            j = j + 1;
        }
        proof {
            assert forall|h: usize|
                #[trigger] gc0.handles().spec_contains(h) implies dead_cleared(
                    gc0.segs(),
                    gc0.handles().spec_handle(h),
                    self.handles().spec_handle(h),
                ) by {
                assert(hs@.contains(h));
                let k = choose|k: int| 0 <= k < hs@.len() && hs@[k] == h;
            }
        }
    }
}

impl RustGc {
    /// The finalization phase: the unmarked objects that still need their
    /// finalizer become pending and are queued for finalization; they and
    /// everything they reach are marked (kept alive). Then every handle to a
    /// dead object is cleared. Returns whether any object waits for
    /// finalization.
    pub fn mark_finalizable(&mut self) -> (r: bool)
        requires
            old(self).wf(),
            closed_except(old(self).segs(), old(self).spec_types(), Seq::empty()),
            dependents_ok(old(self).segs(), old(self).handles()),
        ensures
            final(self).wf(),
            final(self).spec_types() == old(self).spec_types(),
            same_layout(old(self).segs(), final(self).segs()),
            final(self).queue() == old(self).queue() + finalization_candidates(old(self).segs(), old(self).spec_types()),
            forall|k: int|
                0 <= k < finalization_candidates(old(self).segs(), old(self).spec_types()).len() ==> heap_marked(
                    final(self).segs(),
                    #[trigger] finalization_candidates(old(self).segs(), old(self).spec_types())[k],
                ) && heap_pending(final(self).segs(), finalization_candidates(old(self).segs(), old(self).spec_types())[k]),
            forall|x: usize| #[trigger] heap_marked(old(self).segs(), x) ==> heap_marked(final(self).segs(), x),
            forall|x: usize| #[trigger] heap_pending(old(self).segs(), x) ==> heap_pending(final(self).segs(), x),
            closed_except(final(self).segs(), final(self).spec_types(), Seq::empty()),
            dependents_ok(final(self).segs(), final(self).handles()),
            forall|h: usize| #[trigger] final(self).handles().spec_contains(h) == old(self).handles().spec_contains(h),
            forall|h: usize|
                #[trigger] old(self).handles().spec_contains(h) ==> dead_cleared(
                    final(self).segs(),
                    old(self).handles().spec_handle(h),
                    final(self).handles().spec_handle(h),
                ),
            r == (final(self).queue().len() > 0),
            outside_dependents_ok(old(self).segs(), old(self).handles()) ==> outside_dependents_ok(
                final(self).segs(),
                final(self).handles(),
            ),
            marks_reachable(
                old(self).segs(),
                old(self).spec_types(),
                old(self).handles(),
                finalization_seeds(old(self).segs(), old(self).spec_types(), old(self).handles()),
                final(self).segs(),
            ),
            forall|x: usize| #[trigger] heap_pinned(old(self).segs(), x) ==> heap_pinned(final(self).segs(), x),
    {
        let ghost gc0 = *self;
        let ghost seeds = finalization_seeds(gc0.segs(), gc0.spec_types(), gc0.handles());
        let (cands, seg_of) = self.collect_candidates();
        self.set_pending_all(&cands, &seg_of);
        let ghost gc_a = *self;
        proof {
            assert forall|x: usize| #[trigger] heap_marked(gc_a.segs(), x) implies reachable(
                gc_a.segs(),
                gc0.spec_types(),
                gc0.handles(),
                seeds,
                x,
            ) by {
                lemma_only_pendings(gc0.segs(), gc_a.segs(), gc0.spec_types(), x);
                lemma_reach_seed(gc_a.segs(), gc0.spec_types(), gc0.handles(), seeds, x);
            }
            assert forall|y: usize| #[trigger] heap_marked(gc_a.segs(), y) implies forall|jj: int|
                0 <= jj < children(gc_a.segs(), gc_a.spec_types(), y).len() ==> !markable(
                    gc_a.segs(),
                    children(gc_a.segs(), gc_a.spec_types(), y)[jj],
                ) || heap_marked(gc_a.segs(), children(gc_a.segs(), gc_a.spec_types(), y)[jj]) by {
                lemma_only_pendings(gc0.segs(), gc_a.segs(), gc0.spec_types(), y);
                assert(!Seq::<usize>::empty().contains(y));
                assert forall|jj: int| 0 <= jj < children(gc_a.segs(), gc_a.spec_types(), y).len() implies !markable(
                    gc_a.segs(),
                    children(gc_a.segs(), gc_a.spec_types(), y)[jj],
                ) || heap_marked(gc_a.segs(), children(gc_a.segs(), gc_a.spec_types(), y)[jj]) by {
                    lemma_only_pendings(gc0.segs(), gc_a.segs(), gc0.spec_types(), children(gc0.segs(), gc0.spec_types(), y)[jj]);
                }
            }
            assert forall|h: usize| #[trigger] gc_a.handles().spec_contains(h) implies dependent_ok(
                gc_a.segs(),
                gc_a.handles().spec_handle(h),
            ) by {
                let g = gc_a.handles().spec_handle(h);
                lemma_only_pendings(gc0.segs(), gc_a.segs(), gc0.spec_types(), g.object);
                lemma_only_pendings(gc0.segs(), gc_a.segs(), gc0.spec_types(), g.extra_or_secondary);
                assert(dependent_ok(gc0.segs(), g));
            }
            lemma_grow_refl(self.segs());
            lemma_unmarked_from(self.segs(), 0);
        }
        let mut queue: VecDeque<usize> = VecDeque::new();
        proof {
            assert(queue@.take(0) =~= queue@);
        }
        let mut i: usize = 0;
        while i < cands.len()
            invariant
                gc0.wf(),
                gc_a.wf(),
                scan_step(gc_a, *self, Seq::empty(), queue@),
                only_pendings(gc0.segs(), gc_a.segs()),
                seg_of@.len() == cands@.len(),
                forall|ii: int|
                    0 <= ii < cands@.len() ==> (#[trigger] seg_of@[ii]) < gc0.segs().len()
                        && gc0.segs()[seg_of@[ii] as int].hs_contains(cands@[ii])
                        && unmarked_at(gc0.segs()[seg_of@[ii] as int], cands@[ii]),
                i <= cands@.len(),
                forall|ii: int| 0 <= ii < i ==> heap_marked(self.segs(), #[trigger] cands@[ii]),
                cands@ == finalization_candidates(gc0.segs(), gc0.spec_types()),
                seeds == finalization_seeds(gc0.segs(), gc0.spec_types(), gc0.handles()),
                marks_reachable(gc_a.segs(), gc0.spec_types(), gc0.handles(), seeds, self.segs()),
            decreases cands@.len() - i,
        {
            let a = cands[i];
            let ghost before = *self;
            let ghost qb = queue@;
            proof {
                let k = seg_of@[i as int] as int;
                lemma_only_pendings_seg(gc0.segs(), gc_a.segs(), gc0.spec_types(), a, k);
                assert(gc_a.segs()[k].hs_contains(a));
                assert(gc_a.segs()[k].hs_wf());
                lemma_find_seg_disjoint(gc_a.segs(), k, a);
                assert(gc0.segs()[k].hs_mark_index(a) == gc_a.segs()[k].hs_mark_index(a));
                lemma_null_not_in_heap(gc_a.segs());
                assert(markable(gc_a.segs(), a));
                lemma_grow_same(gc_a.segs(), before.segs(), gc0.spec_types(), a);
            }
            self.try_mark_push(&mut queue, a, false);
            proof {
                assert(cands@.contains(a)) by {
                    assert(cands@[i as int] == a);
                }
                assert(seeds.contains(a));
                lemma_reach_seed(gc_a.segs(), gc0.spec_types(), gc0.handles(), seeds, a);
                lemma_mark_one(gc_a.segs(), gc0.spec_types(), gc0.handles(), seeds, before.segs(), self.segs(), a);
                lemma_scan_step_trans(gc_a, before, *self, Seq::empty(), qb, queue@);
                assert forall|ii: int| 0 <= ii < i + 1 implies heap_marked(self.segs(), #[trigger] cands@[ii]) by {
                    if ii < i {
                        lemma_grow_same(before.segs(), self.segs(), gc0.spec_types(), cands@[ii]);
                    }
                }
            }
            i = i + 1;
        }
        proof {
            let types = self.spec_types();
            assert forall|y: usize|
                #[trigger] heap_marked(self.segs(), y) && !queue@.contains(y) implies forall|jj: int|
                    0 <= jj < children(self.segs(), types, y).len() ==> !markable(
                        self.segs(),
                        children(self.segs(), types, y)[jj],
                    ) || heap_marked(self.segs(), children(self.segs(), types, y)[jj]) by {
                lemma_grow_same(gc_a.segs(), self.segs(), types, y);
                assert forall|jj: int| 0 <= jj < children(self.segs(), types, y).len() implies !markable(
                    self.segs(),
                    children(self.segs(), types, y)[jj],
                ) || heap_marked(self.segs(), children(self.segs(), types, y)[jj]) by {
                    lemma_grow_same(gc_a.segs(), self.segs(), types, children(gc_a.segs(), types, y)[jj]);
                }
            }
            if queue@.len() == 0 {
                assert forall|h: usize| #[trigger] self.handles().spec_contains(h) implies dependent_ok(
                    self.segs(),
                    self.handles().spec_handle(h),
                ) by {
                    let g = self.handles().spec_handle(h);
                    lemma_grow_same(gc_a.segs(), self.segs(), types, g.object);
                    lemma_grow_same(gc_a.segs(), self.segs(), types, g.extra_or_secondary);
                    if heap_marked(self.segs(), g.object) && !heap_marked(gc_a.segs(), g.object) {
                        assert(queue@.contains(g.object));
                    }
                    if heap_marked(self.segs(), g.extra_or_secondary) && !heap_marked(gc_a.segs(), g.extra_or_secondary) {
                        assert(queue@.contains(g.extra_or_secondary));
                    }
                }
            }
        }
        let ghost gc_b = *self;
        proof {
            assert forall|h: usize|
                #[trigger] gc0.handles().spec_contains(h) && gc0.handles().spec_handle(h).handle_type == HandleType::Dependent
                    && gc0.handles().spec_handle(h).object != 0 && !in_heap(gc_a.segs(), gc0.handles().spec_handle(h).object)
                    implies seeds.contains(gc0.handles().spec_handle(h).extra_or_secondary) by {
                lemma_only_pendings(gc0.segs(), gc_a.segs(), gc0.spec_types(), gc0.handles().spec_handle(h).object);
            }
        }
        proof {
            if outside_dependents_ok(gc0.segs(), gc0.handles()) {
                assert forall|h: usize| #[trigger] gc0.handles().spec_contains(h) implies outside_dependent_ok(
                    gc_a.segs(),
                    gc0.handles().spec_handle(h),
                ) by {
                    let g = gc0.handles().spec_handle(h);
                    assert(outside_dependent_ok(gc0.segs(), g));
                    lemma_only_pendings(gc0.segs(), gc_a.segs(), gc0.spec_types(), g.object);
                    lemma_only_pendings(gc0.segs(), gc_a.segs(), gc0.spec_types(), g.extra_or_secondary);
                }
                lemma_outside_grow(gc_a.segs(), gc_b.segs(), gc0.spec_types(), gc0.handles());
            }
        }
        self.propagate(&mut queue, Ghost(gc_a.segs()), Ghost(gc0.handles()), Ghost(seeds));
        let ghost gc_c = *self;
        let mut m: usize = 0;
        while m < cands.len()
            invariant
                gc_c.wf(),
                self.wf(),
                self.spec_types() == gc_c.spec_types(),
                self.segs() == gc_c.segs(),
                self.handles() == gc_c.handles(),
                m <= cands@.len(),
                self.queue() == gc_c.queue() + cands@.take(m as int),
            decreases cands@.len() - m,
        {
            self.finalization_queue.push_back(cands[m]);
            proof {
                assert(cands@.take(m + 1) =~= cands@.take(m as int).push(cands@[m as int]));
                assert(self.queue() =~= gc_c.queue() + cands@.take(m + 1));
            }
            m = m + 1;
        }
        proof {
            assert(cands@.take(m as int) =~= cands@);
        }
        let ghost gc_d = *self;
        self.clear_dead_handles();
        proof {
            let types = self.spec_types();
            assert(same_layout(gc0.segs(), self.segs())) by {
                assert forall|k: int| 0 <= k < gc0.segs().len() implies {
                    &&& (#[trigger] gc0.segs()[k]).is_small() == self.segs()[k].is_small()
                    &&& gc0.segs()[k].hs_words() == self.segs()[k].hs_words()
                    &&& gc0.segs()[k].hs_base() == self.segs()[k].hs_base()
                } by {
                    assert(HeapSegment::marks_grow(gc_a.segs()[k], gc_b.segs()[k]));
                    assert(HeapSegment::marks_grow(gc_b.segs()[k], gc_c.segs()[k]));
                }
            }
            assert forall|x: usize| #[trigger] heap_marked(gc0.segs(), x) implies heap_marked(self.segs(), x) by {
                lemma_only_pendings(gc0.segs(), gc_a.segs(), types, x);
                lemma_grow_same(gc_a.segs(), gc_b.segs(), types, x);
                lemma_grow_same(gc_b.segs(), gc_c.segs(), types, x);
            }
            assert forall|x: usize| #[trigger] heap_pinned(gc0.segs(), x) implies heap_pinned(self.segs(), x) by {
                lemma_only_pendings(gc0.segs(), gc_a.segs(), types, x);
                lemma_grow_same(gc_a.segs(), gc_b.segs(), types, x);
                lemma_grow_same(gc_b.segs(), gc_c.segs(), types, x);
            }
            assert forall|x: usize| #[trigger] heap_pending(gc0.segs(), x) implies heap_pending(self.segs(), x) by {
                lemma_grow_same(gc_a.segs(), gc_b.segs(), types, x);
                lemma_grow_same(gc_b.segs(), gc_c.segs(), types, x);
            }
            assert forall|k: int|
                0 <= k < cands@.len() implies heap_marked(self.segs(), #[trigger] cands@[k])
                    && heap_pending(self.segs(), cands@[k]) by {
                lemma_grow_same(gc_b.segs(), gc_c.segs(), types, cands@[k]);
                lemma_grow_same(gc_a.segs(), gc_b.segs(), types, cands@[k]);
            }
            assert forall|h: usize| #[trigger] self.handles().spec_contains(h) implies dependent_ok(
                self.segs(),
                self.handles().spec_handle(h),
            ) by {
                lemma_null_not_in_heap(self.segs());
                assert(dependent_ok(gc_d.segs(), gc_d.handles().spec_handle(h)));
            }
            assert forall|h: usize|
                #[trigger] gc0.handles().spec_contains(h) implies dead_cleared(
                    self.segs(),
                    gc0.handles().spec_handle(h),
                    self.handles().spec_handle(h),
                ) by {
                assert(gc_d.handles().spec_handle(h) == gc0.handles().spec_handle(h));
            }
            assert forall|y: usize| #[trigger] children(gc_a.segs(), types, y) == children(gc0.segs(), types, y) by {
                lemma_only_pendings(gc0.segs(), gc_a.segs(), types, y);
            }
            if outside_dependents_ok(gc0.segs(), gc0.handles()) {
                assert forall|h: usize| #[trigger] self.handles().spec_contains(h) implies outside_dependent_ok(
                    self.segs(),
                    self.handles().spec_handle(h),
                ) by {
                    let g = gc0.handles().spec_handle(h);
                    assert(outside_dependent_ok(gc_c.segs(), g));
                    if g.handle_type == HandleType::Dependent && g.object != 0 && !in_heap(self.segs(), g.object) {
                        assert(!is_dead(self.segs(), g.object));
                        assert(dead_cleared(self.segs(), g, self.handles().spec_handle(h)));
                    }
                }
            }
            assert forall|x: usize| #[trigger] heap_marked(self.segs(), x) implies reachable(
                gc0.segs(),
                types,
                gc0.handles(),
                seeds,
                x,
            ) by {
                assert(heap_marked(gc_c.segs(), x));
                lemma_reach_same(gc_a.segs(), gc0.segs(), types, gc0.handles(), seeds, x);
            }
        }
        self.finalization_queue.len() > 0
    }
}

/// Whether `l[j]` covers the same addresses as `src[idx[j]]`, for distinct
/// indices `idx`.
pub open spec fn drawn_from(l: Seq<HeapSegment>, src: Seq<HeapSegment>, idx: Seq<int>) -> bool {
    &&& l.len() == idx.len()
    &&& forall|j: int|
        0 <= j < l.len() ==> 0 <= #[trigger] idx[j] < src.len() && l[j].hs_base() == src[idx[j]].hs_base()
            && l[j].hs_end() == src[idx[j]].hs_end()
    &&& forall|a: int, b: int| 0 <= a < l.len() && 0 <= b < l.len() && a != b ==> idx[a] != idx[b]
}

pub proof fn lemma_drawn_disjoint(l: Seq<HeapSegment>, src: Seq<HeapSegment>, idx: Seq<int>)
    requires
        drawn_from(l, src, idx),
        segs_disjoint(src),
    ensures
        segs_disjoint(l),
{
    assert forall|a: int, b: int|
        0 <= a < l.len() && 0 <= b < l.len() && a != b implies #[trigger] l[a].hs_end() <= #[trigger] l[b].hs_base()
            || l[b].hs_end() <= l[a].hs_base() by {
        let ia = idx[a];
        let ib = idx[b];
        assert(src[ia].hs_end() <= src[ib].hs_base() || src[ib].hs_end() <= src[ia].hs_base());
    }
}

/// Whether `end` is the limit of an allocation context.
pub open spec fn is_alloc_limit(limits: Seq<usize>, end: int) -> bool {
    exists|j: int| 0 <= j < limits.len() && limits[j] != 0 && limits[j] == end
}

/// Whether `after` is what sweeping turns the segment `before` into: the
/// same where an allocation context uses it, swept otherwise.
pub open spec fn seg_sweep_result(before: HeapSegment, after: HeapSegment, used: bool, types: TypeTable) -> bool {
    if used {
        after == before
    } else {
        before.hs_swept_into(after, types)
    }
}

/// Whether a segment stays in the heap through a sweep: an allocation
/// context uses it, or some object of it survives.
pub open spec fn seg_stays(s: HeapSegment, types: TypeTable, limits: Seq<usize>) -> bool {
    is_alloc_limit(limits, s.hs_end()) || s.hs_survives(types)
}

/// Whether the heap `after` (with `in_use` telling which segments an
/// allocation context uses) is the heap `before` swept, the segment `j` of
/// `after` coming from the segment `idx[j]` of `before`.
pub open spec fn swept_heap(
    before: Seq<HeapSegment>,
    after: Seq<HeapSegment>,
    in_use: Seq<bool>,
    types: TypeTable,
    limits: Seq<usize>,
    idx: Seq<int>,
) -> bool {
    &&& idx.len() == after.len()
    &&& in_use.len() == after.len()
    &&& forall|j: int, m: int| 0 <= j < m < idx.len() ==> #[trigger] idx[j] < #[trigger] idx[m]
    &&& forall|j: int|
        0 <= j < idx.len() ==> 0 <= #[trigger] idx[j] < before.len() && in_use[j] == is_alloc_limit(
            limits,
            before[idx[j]].hs_end(),
        ) && seg_sweep_result(before[idx[j]], after[j], in_use[j], types)
    &&& forall|k: int| 0 <= k < before.len() ==> (seg_stays(#[trigger] before[k], types, limits) <==> idx.contains(k))
}

impl RustGc {
    /// Whether `end` is the nonzero limit of one of the allocation contexts.
    fn in_use(end: usize, alloc_limits: &Vec<usize>) -> (r: bool)
        ensures
            r == is_alloc_limit(alloc_limits@, end as int),
    {
        let mut j: usize = 0;
        while j < alloc_limits.len()
            invariant
                j <= alloc_limits@.len(),
                forall|i: int| 0 <= i < j ==> !(alloc_limits@[i] != 0 && alloc_limits@[i] == end),
            decreases alloc_limits@.len() - j,
        {
            if alloc_limits[j] != 0 && alloc_limits[j] == end {
                return true;
            }
            j = j + 1;
        }
        false
    }

    /// Sweeps every segment that no allocation context is using, and takes
    /// the swept segments with no surviving object out of the heap. Returns
    /// them, and for each remaining segment whether it is in use.
    pub fn sweep_segments(&mut self, alloc_limits: &Vec<usize>) -> (r: (Vec<HeapSegment>, Vec<bool>))
        requires
            old(self).wf(),
        ensures
            final(self).wf(),
            final(self).spec_types() == old(self).spec_types(),
            final(self).handles() == old(self).handles(),
            final(self).queue() == old(self).queue(),
            final(self).rel() == old(self).rel(),
            r.1@.len() == final(self).segs().len(),
            exists|idx: Seq<int>|
                swept_heap(old(self).segs(), final(self).segs(), r.1@, old(self).spec_types(), alloc_limits@, idx),
            r.0@.len() + final(self).segs().len() == old(self).segs().len(),
            forall|k: int| 0 <= k < r.0@.len() ==> #[trigger] r.0@[k].hs_wf() && empty_ready(r.0@[k]),
            segs_disjoint(r.0@),
            all_apart(final(self).segs(), r.0@),
            forall|k: int|
                0 <= k < final(self).segs().len() ==> #[trigger] r.1@[k] == is_alloc_limit(
                    alloc_limits@,
                    final(self).segs()[k].hs_end(),
                ),
            forall|k: int|
                0 <= k < final(self).segs().len() && !r.1@[k] ==> (#[trigger] final(self).segs()[k]).live_bytes_ok(
                    final(self).spec_types(),
                ),
    {
        let ghost src = self.segs();
        let mut all: Vec<HeapSegment> = Vec::new();
        std::mem::swap(&mut all, &mut self.segments);
        let mut kept: Vec<HeapSegment> = Vec::new();
        let mut in_use: Vec<bool> = Vec::new();
        let mut empty: Vec<HeapSegment> = Vec::new();
        let ghost mut idx: Seq<int> = Seq::empty();
        let ghost mut eidx: Seq<int> = Seq::empty();
        let ghost mut consumed: int = 0;
        proof {
            assert(all@ == src);
        }
        while all.len() > 0
            invariant
                forall|k: int| 0 <= k < src.len() ==> #[trigger] src[k].hs_wf(),
                segs_disjoint(src),
                drawn_from(empty@, src, eidx),
                forall|w: int|
                    0 <= w < eidx.len() ==> #[trigger] eidx[w] < consumed && !seg_stays(
                        src[eidx[w]],
                        self.spec_types(),
                        alloc_limits@,
                    ),
                forall|k: int| 0 <= k < empty@.len() ==> empty_ready(#[trigger] empty@[k]),
                self.spec_types().wf(),
                0 <= consumed <= src.len(),
                all@ == src.subrange(consumed, src.len() as int),
                drawn_from(kept@, src, idx),
                forall|j: int| 0 <= j < idx.len() ==> #[trigger] idx[j] < consumed,
                forall|k: int| 0 <= k < kept@.len() ==> #[trigger] kept@[k].hs_wf(),
                forall|k: int| 0 <= k < empty@.len() ==> #[trigger] empty@[k].hs_wf(),
                in_use@.len() == kept@.len(),
                forall|k: int|
                    0 <= k < kept@.len() ==> #[trigger] in_use@[k] == is_alloc_limit(alloc_limits@, kept@[k].hs_end()),
                forall|k: int|
                    0 <= k < kept@.len() && !in_use@[k] ==> (#[trigger] kept@[k]).live_bytes_ok(self.spec_types()),
                forall|j: int, m: int| 0 <= j < m < idx.len() ==> #[trigger] idx[j] < #[trigger] idx[m],
                forall|j: int|
                    0 <= j < idx.len() ==> in_use@[j] == is_alloc_limit(alloc_limits@, src[#[trigger] idx[j]].hs_end())
                        && seg_sweep_result(src[idx[j]], kept@[j], in_use@[j], self.spec_types()),
                forall|k: int|
                    0 <= k < consumed ==> (seg_stays(#[trigger] src[k], self.spec_types(), alloc_limits@)
                        <==> idx.contains(k)),
                empty@.len() + kept@.len() == consumed,
            decreases all@.len(),
        {
            let mut seg = all.remove(0);
            proof {
                assert(seg == src[consumed]);
            }
            let ghost seg0 = seg;
            let end = seg.end();
            let used = RustGc::in_use(end, alloc_limits);
            let mut keep = true;
            if !used {
                if !seg.sweep(&self.types) {
                    keep = false;
                }
            }
            proof {
                assert(keep == seg_stays(seg0, self.spec_types(), alloc_limits@));
                assert(seg_sweep_result(seg0, seg, used, self.spec_types()));
            }
            proof {
                assert(seg.hs_end() == seg0.hs_end());
            }
            if keep {
                let ghost kept0 = kept@;
                kept.push(seg);
                in_use.push(used);
                proof {
                    let nidx = idx.push(consumed);
                    assert(drawn_from(kept@, src, nidx)) by {
                        assert forall|j: int|
                            0 <= j < kept@.len() implies 0 <= #[trigger] nidx[j] < src.len() && kept@[j].hs_base()
                                == src[nidx[j]].hs_base() && kept@[j].hs_end() == src[nidx[j]].hs_end() by {
                            if j < kept0.len() {
                                assert(kept@[j] == kept0[j]);
                                assert(nidx[j] == idx[j]);
                            }
                        }
                    }
                    assert forall|j: int|
                        0 <= j < nidx.len() implies in_use@[j] == is_alloc_limit(alloc_limits@, src[#[trigger] nidx[j]].hs_end())
                            && seg_sweep_result(src[nidx[j]], kept@[j], in_use@[j], self.spec_types()) by {
                        if j < kept0.len() {
                            assert(kept@[j] == kept0[j]);
                            assert(nidx[j] == idx[j]);
                        }
                    }
                    assert forall|k: int|
                        0 <= k < consumed + 1 implies (seg_stays(#[trigger] src[k], self.spec_types(), alloc_limits@)
                            <==> nidx.contains(k)) by {
                        if k < consumed {
                            if idx.contains(k) {
                                let w = choose|w: int| 0 <= w < idx.len() && idx[w] == k;
                                assert(nidx[w] == k);
                            }
                            if nidx.contains(k) {
                                let w = choose|w: int| 0 <= w < nidx.len() && nidx[w] == k;
                                assert(w < idx.len());
                                assert(idx[w] == k);
                            }
                        } else {
                            assert(nidx[nidx.len() - 1] == k);
                        }
                    }
                    idx = nidx;
                }
            } else {
                let ghost empty0 = empty@;
                empty.push(seg);
                proof {
                    let neidx = eidx.push(consumed);
                    assert forall|w: int|
                        0 <= w < empty@.len() implies 0 <= #[trigger] neidx[w] < src.len() && empty@[w].hs_base()
                            == src[neidx[w]].hs_base() && empty@[w].hs_end() == src[neidx[w]].hs_end() by {
                        if w < empty0.len() {
                            assert(empty@[w] == empty0[w]);
                            assert(neidx[w] == eidx[w]);
                        }
                    }
                    assert forall|a: int, b: int|
                        0 <= a < empty@.len() && 0 <= b < empty@.len() && a != b implies neidx[a] != neidx[b] by {
                        if a < empty0.len() {
                            assert(neidx[a] == eidx[a]);
                        }
                        if b < empty0.len() {
                            assert(neidx[b] == eidx[b]);
                        }
                    }
                    assert forall|k: int| 0 <= k < empty@.len() implies empty_ready(#[trigger] empty@[k]) by {
                        if k < empty0.len() {
                            assert(empty@[k] == empty0[k]);
                        }
                    }
                    eidx = neidx;
                    assert forall|k: int|
                        0 <= k < consumed + 1 implies (seg_stays(#[trigger] src[k], self.spec_types(), alloc_limits@)
                            <==> idx.contains(k)) by {
                        if k == consumed && idx.contains(k) {
                            let w = choose|w: int| 0 <= w < idx.len() && idx[w] == k;
                            assert(idx[w] < consumed);
                        }
                    }
                }
            }
            proof {
                consumed = consumed + 1;
                assert(all@ =~= src.subrange(consumed, src.len() as int));
            }
        }
        proof {
            lemma_drawn_disjoint(kept@, src, idx);
            lemma_drawn_disjoint(empty@, src, eidx);
            assert(swept_heap(src, kept@, in_use@, self.spec_types(), alloc_limits@, idx));
            assert forall|i: int, j: int|
                0 <= i < kept@.len() && 0 <= j < empty@.len() implies seg_apart(#[trigger] kept@[i], #[trigger] empty@[j]) by {
                assert(idx.contains(idx[i]));
                assert(seg_stays(src[idx[i]], self.spec_types(), alloc_limits@));
                assert(!seg_stays(src[eidx[j]], self.spec_types(), alloc_limits@));
                assert(idx[i] != eidx[j]);
                assert(src[idx[i]].hs_end() <= src[eidx[j]].hs_base() || src[eidx[j]].hs_end() <= src[idx[i]].hs_base());
            }
        }
        self.segments = kept;
        (empty, in_use)
    }
}

/// Whether a segment taken out of the heap as empty can receive objects
/// from its start: a small-object segment has all of its space available.
pub open spec fn empty_ready(seg: HeapSegment) -> bool {
    seg matches HeapSegment::Small(s) ==> s.spec_available_from() == 0
}

/// Whether two segments cover no common address.
pub open spec fn seg_apart(a: HeapSegment, b: HeapSegment) -> bool {
    a.hs_end() <= b.hs_base() || b.hs_end() <= a.hs_base()
}

/// Whether every segment of `a` is apart from every segment of `b`.
pub open spec fn all_apart(a: Seq<HeapSegment>, b: Seq<HeapSegment>) -> bool {
    forall|i: int, j: int| 0 <= i < a.len() && 0 <= j < b.len() ==> seg_apart(#[trigger] a[i], #[trigger] b[j])
}

/// Whether `seg` is a small-object segment with more than `alive` bytes free.
pub open spec fn dest_fits(seg: HeapSegment, alive: int) -> bool {
    match seg {
        HeapSegment::Small(d) => 8 * (POINTER_SIZE - d.spec_available_from()) > alive,
        HeapSegment::Large(_) => false,
    }
}

/// Taking a segment out of the empty segments keeps them well formed, ready,
/// disjoint, and, the small ones, apart from `kept` and `others`.
proof fn lemma_empties_remove(e: Seq<HeapSegment>, k: int, kept: Seq<HeapSegment>, others: Seq<HeapSegment>)
    requires
        0 <= k < e.len(),
        forall|j: int| 0 <= j < e.len() ==> #[trigger] e[j].hs_wf() && empty_ready(e[j]),
        segs_disjoint(e),
        forall|i: int, j: int|
            0 <= i < kept.len() && 0 <= j < e.len() && e[j].is_small() ==> seg_apart(#[trigger] kept[i], #[trigger] e[j]),
        forall|i: int, j: int|
            0 <= i < others.len() && 0 <= j < e.len() && e[j].is_small() ==> seg_apart(#[trigger] others[i], #[trigger] e[j]),
    ensures
        forall|j: int| 0 <= j < e.remove(k).len() ==> #[trigger] e.remove(k)[j].hs_wf() && empty_ready(e.remove(k)[j]),
        segs_disjoint(e.remove(k)),
        forall|i: int, j: int|
            0 <= i < kept.len() && 0 <= j < e.remove(k).len() && e.remove(k)[j].is_small() ==> seg_apart(
                #[trigger] kept[i],
                #[trigger] e.remove(k)[j],
            ),
        forall|i: int, j: int|
            0 <= i < others.len() && 0 <= j < e.remove(k).len() && e.remove(k)[j].is_small() ==> seg_apart(
                #[trigger] others[i],
                #[trigger] e.remove(k)[j],
            ),
        forall|j: int| 0 <= j < e.remove(k).len() ==> seg_apart(e[k], #[trigger] e.remove(k)[j]),
{
    let r = e.remove(k);
    assert forall|j: int| 0 <= j < r.len() implies r[j] == e[if j < k { j } else { j + 1 }] by {}
    assert forall|j: int| 0 <= j < r.len() implies #[trigger] r[j].hs_wf() && empty_ready(r[j]) by {
        assert(r[j] == e[if j < k { j } else { j + 1 }]);
    }
    assert forall|a: int, b: int|
        0 <= a < r.len() && 0 <= b < r.len() && a != b implies #[trigger] r[a].hs_end() <= #[trigger] r[b].hs_base()
            || r[b].hs_end() <= r[a].hs_base() by {
        let ea = if a < k { a } else { a + 1 };
        let eb = if b < k { b } else { b + 1 };
        assert(r[a] == e[ea] && r[b] == e[eb]);
        assert(e[ea].hs_end() <= e[eb].hs_base() || e[eb].hs_end() <= e[ea].hs_base());
    }
    assert forall|i: int, j: int|
        0 <= i < kept.len() && 0 <= j < r.len() && r[j].is_small() implies seg_apart(#[trigger] kept[i], #[trigger] r[j]) by {
        let ej = if j < k { j } else { j + 1 };
        assert(r[j] == e[ej]);
        assert(seg_apart(kept[i], e[ej]));
    }
    assert forall|i: int, j: int|
        0 <= i < others.len() && 0 <= j < r.len() && r[j].is_small() implies seg_apart(#[trigger] others[i], #[trigger] r[j]) by {
        let ej = if j < k { j } else { j + 1 };
        assert(r[j] == e[ej]);
        assert(seg_apart(others[i], e[ej]));
    }
    assert forall|j: int| 0 <= j < r.len() implies seg_apart(e[k], #[trigger] r[j]) by {
        let ej = if j < k { j } else { j + 1 };
        assert(r[j] == e[ej]);
        assert(e[k].hs_end() <= e[ej].hs_base() || e[ej].hs_end() <= e[k].hs_base());
    }
}

/// Several refused segments stay refused when the segments they were
/// weighed against keep their places and more are added, and more refused
/// segments are added after them.
proof fn lemma_some_refused_keep(
    ra: Seq<HeapSegment>,
    rb: Seq<HeapSegment>,
    a: Seq<HeapSegment>,
    b: Seq<HeapSegment>,
    others: Seq<HeapSegment>,
)
    requires
        some_refused(ra, a, others),
        ra.len() <= rb.len(),
        forall|k: int| 0 <= k < ra.len() ==> #[trigger] rb[k] == ra[k],
        a.len() <= b.len(),
        forall|j: int| 0 <= j < a.len() ==> #[trigger] b[j].hs_base() == a[j].hs_base() && b[j].hs_end() == a[j].hs_end(),
    ensures
        some_refused(rb, b, others),
{
    let k = choose|k: int| 0 <= k < ra.len() && #[trigger] refused_dest(ra[k], a, others);
    lemma_refused_keep(ra[k], a, b, others);
    assert(rb[k] == ra[k]);
}

/// Whether `x` is a fresh small-object segment, all zero with all of its
/// space available, that was made to receive the objects of a compacted
/// segment and refused because it overlaps a segment of `kept` or of
/// `others`.
pub open spec fn refused_dest(x: HeapSegment, kept: Seq<HeapSegment>, others: Seq<HeapSegment>) -> bool {
    &&& x.hs_wf()
    &&& x.is_small()
    &&& small(x).words() == Seq::new(POINTER_SIZE as nat, |i: int| 0usize)
    &&& small(x).spec_available_from() == 0
    &&& {
        ||| exists|j: int| 0 <= j < kept.len() && !seg_apart(#[trigger] kept[j], x)
        ||| exists|j: int| 0 <= j < others.len() && !seg_apart(#[trigger] others[j], x)
    }
}

/// A refused segment stays refused when the segments it was weighed
/// against keep their places and more are added.
proof fn lemma_refused_keep(x: HeapSegment, a: Seq<HeapSegment>, b: Seq<HeapSegment>, others: Seq<HeapSegment>)
    requires
        refused_dest(x, a, others),
        a.len() <= b.len(),
        forall|j: int| 0 <= j < a.len() ==> #[trigger] b[j].hs_base() == a[j].hs_base() && b[j].hs_end() == a[j].hs_end(),
    ensures
        refused_dest(x, b, others),
{
    if exists|j: int| 0 <= j < a.len() && !seg_apart(#[trigger] a[j], x) {
        let j = choose|j: int| 0 <= j < a.len() && !seg_apart(#[trigger] a[j], x);
        assert(!seg_apart(b[j], x));
    }
}

/// Whether some segment of `refused` is refused against `kept` and
/// `others` ([`refused_dest`]).
pub open spec fn some_refused(refused: Seq<HeapSegment>, kept: Seq<HeapSegment>, others: Seq<HeapSegment>) -> bool {
    exists|k: int| 0 <= k < refused.len() && #[trigger] refused_dest(refused[k], kept, others)
}

/// Whether the objects of `src` can be moved into `dest`.
pub open spec fn can_move(src: HeapSegment, dest: HeapSegment) -> bool {
    match src {
        HeapSegment::Small(s) => dest_fits(dest, s.spec_alive_bytes() as int),
        HeapSegment::Large(_) => false,
    }
}

/// Whether `seg` can be moved from: a well formed small-object segment
/// whose live objects fit in the bytes of its last sweep.
pub open spec fn droppable(seg: HeapSegment, types: TypeTable) -> bool {
    seg.hs_wf() && seg.is_small() && seg.live_bytes_ok(types)
}

/// The threshold of surviving bytes under which a segment is compacted.
pub const COMPACT_THRESHOLD: usize = 8192;

proof fn lemma_disjoint_push(a: Seq<HeapSegment>, x: HeapSegment)
    requires
        segs_disjoint(a),
        forall|i: int| 0 <= i < a.len() ==> seg_apart(#[trigger] a[i], x),
    ensures
        segs_disjoint(a.push(x)),
{
    let b = a.push(x);
    assert forall|i: int, j: int|
        0 <= i < b.len() && 0 <= j < b.len() && i != j implies #[trigger] b[i].hs_end() <= #[trigger] b[j].hs_base()
            || b[j].hs_end() <= b[i].hs_base() by {
        if i < a.len() && j < a.len() {
            assert(b[i] == a[i] && b[j] == a[j]);
        } else if i < a.len() {
            assert(b[i] == a[i] && b[j] == x);
            assert(seg_apart(a[i], x));
        } else {
            assert(b[j] == a[j] && b[i] == x);
            assert(seg_apart(a[j], x));
        }
    }
}

proof fn lemma_disjoint_tail(a: Seq<HeapSegment>)
    requires
        segs_disjoint(a),
        a.len() > 0,
    ensures
        segs_disjoint(a.subrange(1, a.len() as int)),
        forall|j: int| 0 <= j < a.len() - 1 ==> seg_apart(a[0], #[trigger] a.subrange(1, a.len() as int)[j]),
{
    let t = a.subrange(1, a.len() as int);
    assert forall|i: int, j: int|
        0 <= i < t.len() && 0 <= j < t.len() && i != j implies #[trigger] t[i].hs_end() <= #[trigger] t[j].hs_base()
            || t[j].hs_end() <= t[i].hs_base() by {
        assert(t[i] == a[i + 1] && t[j] == a[j + 1]);
    }
    assert forall|j: int| 0 <= j < a.len() - 1 implies seg_apart(a[0], #[trigger] t[j]) by {
        assert(t[j] == a[j + 1]);
        assert(a[0].hs_end() <= a[j + 1].hs_base() || a[j + 1].hs_end() <= a[0].hs_base());
    }
}

/// The small-object segment inside `h`.
pub open spec fn small(h: HeapSegment) -> Segment {
    match h {
        HeapSegment::Small(s) => s,
        HeapSegment::Large(_) => arbitrary(),
    }
}

/// Whether the small-object segment `dest` holds, at the address `fwd` and
/// below its free space, a copy of the object at word `i` of `src`: its
/// words, header included, and its finalization-pending flag.
pub open spec fn copy_in(dest: HeapSegment, fwd: usize, src: Segment, i: int, types: TypeTable) -> bool {
    let w = object_words(types, src.words(), i);
    let ds = small(dest);
    &&& dest.is_small()
    &&& ds.word_index(fwd) is Some
    &&& ds.word_index(fwd).unwrap() >= 1
    &&& ds.word_index(fwd).unwrap() - 1 + w <= ds.spec_available_from()
    &&& ds.words().subrange(ds.word_index(fwd).unwrap() - 1, ds.word_index(fwd).unwrap() - 1 + w)
        == src.words().subrange(i - 1, i - 1 + w)
    &&& ds.pendings()[ds.word_index(fwd).unwrap()] == src.pendings()[i]
}

/// Whether some segment of `segs` holds, at the address `fwd`, a copy of
/// the object at word `i` of `src` (see [`copy_in`]).
pub open spec fn has_copy(segs: Seq<HeapSegment>, fwd: usize, src: Segment, i: int, types: TypeTable) -> bool {
    exists|d: int| 0 <= d < segs.len() && #[trigger] copy_in(segs[d], fwd, src, i, types)
}

/// Whether the small-object segment `d1` is `d0` with words added only in
/// its free space: the same place, flags and words below the free space of
/// `d0`, which has not shrunk.
pub open spec fn grows_from(d0: HeapSegment, d1: HeapSegment) -> bool {
    let a = small(d0);
    let b = small(d1);
    &&& d0.is_small()
    &&& d1.is_small()
    &&& d1.hs_wf()
    &&& b.spec_base() == a.spec_base()
    &&& b.marks() == a.marks()
    &&& b.pins() == a.pins()
    &&& b.spec_available_from() >= a.spec_available_from()
    &&& forall|j: int| 0 <= j < a.spec_available_from() ==> #[trigger] b.words()[j] == a.words()[j]
    &&& forall|j: int| 0 <= j <= a.spec_available_from() ==> #[trigger] b.pendings()[j] == a.pendings()[j]
}

/// Copies below the free space survive further copies into the segment.
pub proof fn lemma_copy_in_grows(d0: HeapSegment, d1: HeapSegment, fwd: usize, src: Segment, i: int, types: TypeTable)
    requires
        d0.hs_wf(),
        grows_from(d0, d1),
        copy_in(d0, fwd, src, i, types),
        object_words(types, src.words(), i) >= 1,
    ensures
        copy_in(d1, fwd, src, i, types),
{
    let a = small(d0);
    let b = small(d1);
    let n = a.word_index(fwd).unwrap();
    let w = object_words(types, src.words(), i);
    assert(b.word_index(fwd) == a.word_index(fwd));
    assert(b.words().subrange(n - 1, n - 1 + w) =~= a.words().subrange(n - 1, n - 1 + w));
    assert(b.pendings()[n] == a.pendings()[n]);
}

impl RustGc {
    /// Whether `x` covers no address of the segments in `v`.
    fn apart_from_all(x: &HeapSegment, v: &Vec<HeapSegment>) -> (r: bool)
        requires
            x.hs_wf(),
            forall|k: int| 0 <= k < v@.len() ==> #[trigger] v@[k].hs_wf(),
        ensures
            r == forall|k: int| 0 <= k < v@.len() ==> seg_apart(#[trigger] v@[k], *x),
    {
        let b = x.base();
        let e = x.end();
        let mut k: usize = 0;
        while k < v.len()
            invariant
                x.hs_wf(),
                b == x.hs_base(),
                e == x.hs_end(),
                forall|k: int| 0 <= k < v@.len() ==> #[trigger] v@[k].hs_wf(),
                k <= v@.len(),
                forall|j: int| 0 <= j < k ==> seg_apart(#[trigger] v@[j], *x),
            decreases v@.len() - k,
        {
            if !(v[k].end() <= b || e <= v[k].base()) {
                proof {
                    assert(!seg_apart(v@[k as int], *x));
                }
                return false;
            }
            k = k + 1;
        }
        true
    }

    /// The first segment of `kept` that no allocation context uses and whose
    /// free space is larger than `alive` bytes.
    fn find_destination(kept: &Vec<HeapSegment>, in_use: &Vec<bool>, alive: usize) -> (r: Option<usize>)
        requires
            forall|k: int| 0 <= k < kept@.len() ==> #[trigger] kept@[k].hs_wf(),
            in_use@.len() == kept@.len(),
        ensures
            r matches Some(k) ==> k < kept@.len() && !in_use@[k as int] && dest_fits(kept@[k as int], alive as int),
            r matches Some(k) ==> forall|j: int|
                0 <= j < k ==> in_use@[j] || !dest_fits(#[trigger] kept@[j], alive as int),
            r is None ==> forall|j: int|
                0 <= j < kept@.len() ==> in_use@[j] || !dest_fits(#[trigger] kept@[j], alive as int),
    {
        let mut k: usize = 0;
        while k < kept.len()
            invariant
                forall|k: int| 0 <= k < kept@.len() ==> #[trigger] kept@[k].hs_wf(),
                in_use@.len() == kept@.len(),
                k <= kept@.len(),
                forall|j: int| 0 <= j < k ==> in_use@[j] || !dest_fits(#[trigger] kept@[j], alive as int),
            decreases kept@.len() - k,
        {
            proof {
                assert(kept@[k as int].hs_wf());
            }
            if !in_use[k] && kept[k].available_bytes() > alive {
                proof {
                    assert(kept@[k as int].hs_wf());
                }
                return Some(k);
            }
            k = k + 1;
        }
        None
    }

    /// Moves the objects of `src` (a small segment just swept) into the
    /// segment `dest` of `kept`.
    fn move_into(kept: &mut Vec<HeapSegment>, dest: usize, src: &mut HeapSegment, types: &TypeTable)
        requires
            types.wf(),
            forall|k: int| 0 <= k < old(kept)@.len() ==> #[trigger] old(kept)@[k].hs_wf(),
            dest < old(kept)@.len(),
            old(src).hs_wf(),
            old(src).live_bytes_ok(*types),
            can_move(*old(src), old(kept)@[dest as int]),
        ensures
            final(kept)@.len() == old(kept)@.len(),
            forall|k: int| 0 <= k < final(kept)@.len() ==> #[trigger] final(kept)@[k].hs_wf(),
            forall|k: int|
                0 <= k < final(kept)@.len() ==> (#[trigger] final(kept)@[k]).hs_base() == old(kept)@[k].hs_base()
                    && final(kept)@[k].hs_end() == old(kept)@[k].hs_end(),
            forall|k: int| 0 <= k < final(kept)@.len() && k != dest ==> #[trigger] final(kept)@[k] == old(kept)@[k],
            final(src).hs_wf(),
            final(src).is_small(),
            final(src).hs_base() == old(src).hs_base(),
            final(src).hs_end() == old(src).hs_end(),
            grows_from(old(kept)@[dest as int], final(kept)@[dest as int]),
            forall|k: int|
                0 <= k < small(*old(src)).live_objects(*types).len() ==> copy_in(
                    final(kept)@[dest as int],
                    small(*final(src)).words()[#[trigger] small(*old(src)).live_objects(*types)[k] - 1],
                    small(*old(src)),
                    small(*old(src)).live_objects(*types)[k],
                    *types,
                ),
            forall|j: int|
                #![trigger small(*final(src)).words()[j]]
                0 <= j < POINTER_SIZE && !small(*old(src)).live_objects(*types).contains(j + 1) ==> small(
                    *final(src),
                ).words()[j] == small(*old(src)).words()[j],
            small(*final(src)).marks() == small(*old(src)).marks(),
            small(*final(src)).pins() == small(*old(src)).pins(),
            small(*final(src)).pendings() == small(*old(src)).pendings(),
            small(*final(src)).spec_alive_bytes() == small(*old(src)).spec_alive_bytes(),
    {
        let mut d = kept.remove(dest);
        let ghost kept1 = kept@;
        proof {
            assert(d == old(kept)@[dest as int]);
            assert(d.hs_wf());
        }
        if let HeapSegment::Small(ss) = src {
            proof {
                lemma_live_words_nonneg(*types, ss.words(), 1);
            }
            if let HeapSegment::Small(ds) = &mut d {
                ds.move_objects_from(ss, types);
            }
        }
        kept.insert(dest, d);
        proof {
            assert forall|k: int| 0 <= k < kept@.len() && k != dest implies #[trigger] kept@[k] == old(kept)@[k] by {
                if k < dest {
                    assert(kept@[k] == kept1[k]);
                } else {
                    assert(kept@[k] == kept1[k - 1]);
                }
            }
        }
    }
}

impl RustGc {
    /// Takes the first small-object segment out of `empty`.
    fn take_small(empty: &mut Vec<HeapSegment>) -> (r: Option<HeapSegment>)
        requires
            forall|k: int| 0 <= k < old(empty)@.len() ==> #[trigger] old(empty)@[k].hs_wf(),
        ensures
            forall|k: int| 0 <= k < final(empty)@.len() ==> #[trigger] final(empty)@[k].hs_wf(),
            r matches Some(x) ==> x.hs_wf() && x.is_small(),
            r matches Some(x) ==> exists|k: int|
                0 <= k < old(empty)@.len() && old(empty)@[k] == x && final(empty)@ == old(empty)@.remove(k)
                    && forall|j: int| 0 <= j < k ==> !(#[trigger] old(empty)@[j]).is_small(),
            r is None ==> final(empty)@ == old(empty)@ && forall|j: int|
                0 <= j < old(empty)@.len() ==> !(#[trigger] old(empty)@[j]).is_small(),
    {
        let mut k: usize = 0;
        while k < empty.len()
            invariant
                forall|k: int| 0 <= k < empty@.len() ==> #[trigger] empty@[k].hs_wf(),
                k <= empty@.len(),
                empty@ == old(empty)@,
                forall|j: int| 0 <= j < k ==> !(#[trigger] old(empty)@[j]).is_small(),
            decreases empty@.len() - k,
        {
            let small = match &empty[k] {
                HeapSegment::Small(_) => true,
                HeapSegment::Large(_) => false,
            };
            if small {
                let ghost e0 = empty@;
                let x = empty.remove(k);
                proof {
                    assert(e0[k as int] == x);
                    assert(empty@ == e0.remove(k as int));
                    assert forall|j: int| 0 <= j < empty@.len() implies #[trigger] empty@[j].hs_wf() by {
                        if j < k {
                            assert(empty@[j] == e0[j]);
                        } else {
                            assert(empty@[j] == e0[j + 1]);
                        }
                    }
                }
                return Some(x);
            }
            k = k + 1;
        }
        None
    }

}

/// Whether a collection compacts the segment `seg` (used by an allocation
/// context where `used`): a small-object segment that no allocation context
/// uses, with no pinned object, whose surviving objects take fewer than
/// [`COMPACT_THRESHOLD`] bytes.
pub open spec fn compactable(seg: HeapSegment, used: bool) -> bool {
    &&& !used
    &&& seg.is_small()
    &&& !seg.hs_pinned()
    &&& small(seg).spec_alive_bytes() < COMPACT_THRESHOLD
}

/// Whether `kept` (with `kin`) and `dropped` split `src`: `dropped` holds
/// exactly the compactable segments (`didx` giving where each comes from,
/// `dord` the way back), `kept` the others (`kmap` giving where each went).
pub open spec fn partition_ok(
    src: Seq<HeapSegment>,
    in_use: Seq<bool>,
    kept: Seq<HeapSegment>,
    kin: Seq<bool>,
    dropped: Seq<HeapSegment>,
    kmap: Seq<int>,
    didx: Seq<int>,
    dord: Seq<int>,
) -> bool {
    &&& kmap.len() == src.len()
    &&& dord.len() == src.len()
    &&& didx.len() == dropped.len()
    &&& kin.len() == kept.len()
    &&& forall|u: int|
        0 <= u < didx.len() ==> 0 <= #[trigger] didx[u] < src.len() && dropped[u] == src[didx[u]] && dord[didx[u]]
            == u && compactable(src[didx[u]], in_use[didx[u]])
    &&& forall|u: int, v: int| 0 <= u < v < didx.len() ==> #[trigger] didx[u] < #[trigger] didx[v]
    &&& forall|m: int|
        0 <= m < src.len() && compactable(#[trigger] src[m], in_use[m]) ==> 0 <= dord[m] < didx.len() && didx[dord[m]]
            == m
    &&& forall|m: int|
        0 <= m < src.len() && !compactable(#[trigger] src[m], in_use[m]) ==> 0 <= kmap[m] < kept.len() && kept[kmap[m]]
            == src[m] && kin[kmap[m]] == in_use[m]
}

/// What moving the segments `d_all` did, `k0` (with `kin0`) being the
/// segments kept in place before: the kept segments only received copies in
/// their free space (never one that an allocation context uses); `rel[q]` is
/// `d_all[mord[q]]` moved from, and every live object of it has a copy in
/// `kept` at the address left in its header word; a segment of `d_all` that
/// could not be moved was kept, at `dpos`.
pub open spec fn moves_ok(
    k0: Seq<HeapSegment>,
    kin0: Seq<bool>,
    d_all: Seq<HeapSegment>,
    kept: Seq<HeapSegment>,
    kin: Seq<bool>,
    rel: Seq<HeapSegment>,
    mord: Seq<int>,
    dpos: Seq<int>,
    types: TypeTable,
) -> bool {
    &&& kept.len() >= k0.len()
    &&& kin.len() == kept.len()
    &&& forall|j: int|
        0 <= j < k0.len() ==> #[trigger] kin[j] == kin0[j] && (kept[j] == k0[j] || (!kin0[j] && grows_from(
            k0[j],
            kept[j],
        )))
    &&& mord.len() == rel.len()
    &&& forall|q: int|
        0 <= q < mord.len() ==> 0 <= #[trigger] mord[q] < d_all.len() && rel[q].is_small() && rel[q].hs_wf()
            && rel[q].hs_base() == d_all[mord[q]].hs_base() && rel[q].hs_end() == d_all[mord[q]].hs_end()
    &&& forall|q1: int, q2: int| 0 <= q1 < q2 < mord.len() ==> #[trigger] mord[q1] < #[trigger] mord[q2]
    &&& dpos.len() == d_all.len()
    &&& forall|u: int|
        0 <= u < d_all.len() && #[trigger] dpos[u] >= 0 ==> k0.len() <= dpos[u] < kept.len() && !kin[dpos[u]] && (
        kept[dpos[u]] == d_all[u] || grows_from(d_all[u], kept[dpos[u]]))
    &&& forall|u: int| 0 <= u < d_all.len() && #[trigger] dpos[u] < 0 ==> exists|q: int| 0 <= q < mord.len() && #[trigger] mord[q] == u
    &&& forall|q: int, k: int|
        0 <= q < mord.len() && 0 <= k < small(d_all[mord[q]]).live_objects(types).len() ==> has_copy(
            kept,
            small(rel[q]).words()[#[trigger] small(d_all[mord[q]]).live_objects(types)[k] - 1],
            small(d_all[mord[q]]),
            small(d_all[mord[q]]).live_objects(types)[k],
            types,
        )
}

/// Whether every live object of each moved-from segment (`orig[q]` before
/// the move) has a copy in `segs` at the address that [`relocated_ref`]
/// gives for it.
pub open spec fn relocation_holds(orig: Seq<HeapSegment>, rel: Seq<HeapSegment>, segs: Seq<HeapSegment>, types: TypeTable) -> bool {
    forall|q: int, k: int|
        0 <= q < orig.len() && 0 <= k < small(orig[q]).live_objects(types).len() ==> has_copy(
            segs,
            relocated_ref(rel, small(orig[q]).addr(#[trigger] small(orig[q]).live_objects(types)[k]) as usize),
            small(orig[q]),
            small(orig[q]).live_objects(types)[k],
            types,
        )
}

/// Whether `after` is the segment `before` kept through compaction: the
/// same, or, where no allocation context uses it, with copies added in its
/// free space.
pub open spec fn kept_through(before: HeapSegment, after: HeapSegment, used: bool) -> bool {
    after == before || (!used && grows_from(before, after))
}

/// Whether, where at least two segments of `before` are compactable, every
/// compactable segment was moved (its index is in `midx`), but for one whose
/// destination, a fresh segment made for it, was refused because it
/// overlaps a segment of the heap: such a destination is in `refused`.
pub open spec fn all_moved(
    before: Seq<HeapSegment>,
    in_use: Seq<bool>,
    after: Seq<HeapSegment>,
    midx: Seq<int>,
    refused: Seq<HeapSegment>,
) -> bool {
    forall|m: int|
        0 <= m < before.len() && #[trigger] compactable(before[m], in_use[m]) && !midx.contains(m) && (exists|m2: int|
            0 <= m2 < before.len() && m2 != m && compactable(before[m2], in_use[m2])) ==> usize::BITS != 64
            || some_refused(refused, after, before)
}

/// What compaction did to the heap `before` (with `in_use`): `orig[q]` is
/// the compactable segment `before[midx[q]]`, moved from (`rel[q]` after the
/// move), and every live object of it has a copy in the heap `after` at its
/// relocated address; it moves only where at least two segments are
/// compactable (see [`all_moved`] for which then move); every segment not
/// moved is kept, at `kidx`, possibly with copies added in its free space.
pub open spec fn compaction_done(
    before: Seq<HeapSegment>,
    in_use: Seq<bool>,
    types: TypeTable,
    rel: Seq<HeapSegment>,
    after: Seq<HeapSegment>,
    orig: Seq<HeapSegment>,
    midx: Seq<int>,
    kidx: Seq<int>,
) -> bool {
    &&& orig.len() == rel.len()
    &&& midx.len() == orig.len()
    &&& forall|q: int|
        0 <= q < midx.len() ==> 0 <= #[trigger] midx[q] < before.len() && orig[q] == before[midx[q]] && compactable(
            before[midx[q]],
            in_use[midx[q]],
        ) && rel[q].is_small() && rel[q].hs_base() == orig[q].hs_base() && rel[q].hs_end() == orig[q].hs_end()
    &&& forall|q1: int, q2: int| 0 <= q1 < q2 < midx.len() ==> #[trigger] midx[q1] < #[trigger] midx[q2]
    &&& segs_disjoint(rel)
    &&& relocation_holds(orig, rel, after, types)
    &&& midx.len() > 0 ==> exists|m: int|
        0 <= m < before.len() && m != midx[0] && #[trigger] compactable(before[m], in_use[m])
    &&& kidx.len() == before.len()
    &&& forall|m: int|
        0 <= m < before.len() && !midx.contains(m) ==> 0 <= #[trigger] kidx[m] < after.len() && kept_through(
            before[m],
            after[kidx[m]],
            in_use[m],
        )
}

/// Adding copies in the free space twice is adding them once.
pub proof fn lemma_grows_trans(a: HeapSegment, b: HeapSegment, c: HeapSegment)
    requires
        grows_from(a, b),
        grows_from(b, c),
    ensures
        grows_from(a, c),
{
}

impl RustGc {
    /// Splits the segments into those kept in place and the compactable
    /// ones, both in heap order.
    fn partition_compactable(all: Vec<HeapSegment>, in_use: &Vec<bool>, types: &TypeTable) -> (r: (
        Vec<HeapSegment>,
        Vec<bool>,
        Vec<HeapSegment>,
        Ghost<Seq<int>>,
        Ghost<Seq<int>>,
        Ghost<Seq<int>>,
    ))
        requires
            types.wf(),
            in_use@.len() == all@.len(),
            forall|k: int| 0 <= k < all@.len() ==> #[trigger] all@[k].hs_wf(),
            segs_disjoint(all@),
            forall|k: int| 0 <= k < all@.len() && !in_use@[k] ==> (#[trigger] all@[k]).live_bytes_ok(*types),
        ensures
            segs_disjoint(r.0@),
            segs_disjoint(r.2@),
            all_apart(r.0@, r.2@),
            forall|k: int| 0 <= k < r.0@.len() ==> #[trigger] r.0@[k].hs_wf(),
            forall|k: int| 0 <= k < r.2@.len() ==> droppable(#[trigger] r.2@[k], *types),
            forall|k: int| 0 <= k < r.0@.len() ==> all@.contains(#[trigger] r.0@[k]),
            partition_ok(all@, in_use@, r.0@, r.1@, r.2@, r.3@, r.4@, r.5@),
    {
        let mut all = all;
        let mut kept: Vec<HeapSegment> = Vec::new();
        let mut kin: Vec<bool> = Vec::new();
        let mut dropped: Vec<HeapSegment> = Vec::new();
        let ghost src = all@;
        let ghost n = src.len();
        let ghost mut kmap: Seq<int> = Seq::new(n as nat, |i: int| -1int);
        let ghost mut dord: Seq<int> = Seq::new(n as nat, |i: int| -1int);
        let ghost mut didx: Seq<int> = Seq::empty();
        let mut c: usize = 0;
        proof {
            assert(all@.subrange(0, all@.len() as int) =~= all@);
        }
        while c < in_use.len()
            invariant
                types.wf(),
                src.len() == in_use@.len(),
                n == src.len(),
                c <= in_use@.len(),
                all@ == src.subrange(c as int, src.len() as int),
                forall|k: int| 0 <= k < src.len() ==> #[trigger] src[k].hs_wf(),
                forall|k: int| 0 <= k < src.len() && !in_use@[k] ==> (#[trigger] src[k]).live_bytes_ok(*types),
                segs_disjoint(all@),
                segs_disjoint(kept@),
                segs_disjoint(dropped@),
                all_apart(kept@, dropped@),
                all_apart(kept@, all@),
                all_apart(dropped@, all@),
                forall|k: int| 0 <= k < kept@.len() ==> #[trigger] kept@[k].hs_wf(),
                forall|k: int| 0 <= k < kept@.len() ==> src.contains(#[trigger] kept@[k]),
                forall|k: int| 0 <= k < dropped@.len() ==> droppable(#[trigger] dropped@[k], *types),
                kin@.len() == kept@.len(),
                kmap.len() == n,
                dord.len() == n,
                didx.len() == dropped@.len(),
                forall|u: int|
                    0 <= u < didx.len() ==> 0 <= #[trigger] didx[u] < c && dropped@[u] == src[didx[u]] && dord[didx[u]]
                        == u && compactable(src[didx[u]], in_use@[didx[u]]),
                forall|u: int, v: int| 0 <= u < v < didx.len() ==> #[trigger] didx[u] < #[trigger] didx[v],
                forall|m: int|
                    0 <= m < c && compactable(#[trigger] src[m], in_use@[m]) ==> 0 <= dord[m] < didx.len()
                        && didx[dord[m]] == m,
                forall|m: int|
                    0 <= m < c && !compactable(#[trigger] src[m], in_use@[m]) ==> 0 <= kmap[m] < kept@.len()
                        && kept@[kmap[m]] == src[m] && kin@[kmap[m]] == in_use@[m],
            decreases in_use@.len() - c,
        {
            let ghost all0 = all@;
            proof {
                lemma_disjoint_tail(all0);
                assert(all0[0] == src[c as int]);
            }
            let seg = all.remove(0);
            let used = in_use[c];
            let is_small = match &seg {
                HeapSegment::Small(_) => true,
                HeapSegment::Large(_) => false,
            };
            proof {
                assert(all@ == all0.subrange(1, all0.len() as int));
                assert(all@ =~= src.subrange(c + 1, src.len() as int));
                assert forall|i: int, j: int|
                    0 <= i < kept@.len() && 0 <= j < all@.len() implies seg_apart(#[trigger] kept@[i], #[trigger] all@[j]) by {
                    assert(all@[j] == all0[j + 1]);
                    assert(seg_apart(kept@[i], all0[j + 1]));
                }
                assert forall|i: int, j: int|
                    0 <= i < dropped@.len() && 0 <= j < all@.len() implies seg_apart(#[trigger] dropped@[i], #[trigger] all@[j]) by {
                    assert(all@[j] == all0[j + 1]);
                    assert(seg_apart(dropped@[i], all0[j + 1]));
                }
            }
            if !used && is_small && !seg.contains_pinned() && seg.alive_bytes() < COMPACT_THRESHOLD {
                let ghost d0 = dropped@;
                proof {
                    assert(compactable(seg, used));
                    assert forall|i: int| 0 <= i < d0.len() implies seg_apart(#[trigger] d0[i], seg) by {
                        assert(seg_apart(d0[i], all0[0]));
                    }
                    lemma_disjoint_push(d0, seg);
                }
                dropped.push(seg);
                proof {
                    assert forall|i: int, j: int|
                        0 <= i < kept@.len() && 0 <= j < dropped@.len() implies seg_apart(#[trigger] kept@[i], #[trigger] dropped@[j]) by {
                        if j < d0.len() {
                            assert(dropped@[j] == d0[j]);
                        } else {
                            assert(seg_apart(kept@[i], all0[0]));
                        }
                    }
                    assert forall|i: int, j: int|
                        0 <= i < dropped@.len() && 0 <= j < all@.len() implies seg_apart(#[trigger] dropped@[i], #[trigger] all@[j]) by {
                        if i < d0.len() {
                            assert(dropped@[i] == d0[i]);
                        } else {
                            assert(seg_apart(all0[0], all@[j]));
                        }
                    }
                    assert forall|k: int| 0 <= k < dropped@.len() implies droppable(#[trigger] dropped@[k], *types) by {
                        if k < d0.len() {
                            assert(dropped@[k] == d0[k]);
                        }
                    }
                    let ndidx = didx.push(c as int);
                    let ndord = dord.update(c as int, d0.len() as int);
                    assert forall|u: int|
                        0 <= u < ndidx.len() implies 0 <= #[trigger] ndidx[u] < c + 1 && dropped@[u] == src[ndidx[u]]
                            && ndord[ndidx[u]] == u && compactable(src[ndidx[u]], in_use@[ndidx[u]]) by {
                        if u < didx.len() {
                            assert(ndidx[u] == didx[u]);
                            assert(dropped@[u] == d0[u]);
                        }
                    }
                    assert forall|m: int|
                        0 <= m < c + 1 && compactable(#[trigger] src[m], in_use@[m]) implies 0 <= ndord[m] < ndidx.len()
                            && ndidx[ndord[m]] == m by {
                        if m < c {
                            assert(ndidx[dord[m]] == didx[dord[m]]);
                        }
                    }
                    assert forall|m: int|
                        0 <= m < c + 1 && !compactable(#[trigger] src[m], in_use@[m]) implies 0 <= kmap[m] < kept@.len()
                            && kept@[kmap[m]] == src[m] && kin@[kmap[m]] == in_use@[m] by {
                        if m == c {
                            assert(compactable(src[m], in_use@[m]));
                        }
                    }
                    didx = ndidx;
                    dord = ndord;
                }
            } else {
                let ghost k0 = kept@;
                let ghost kin0 = kin@;
                proof {
                    assert(!compactable(seg, used));
                    assert forall|i: int| 0 <= i < k0.len() implies seg_apart(#[trigger] k0[i], seg) by {
                        assert(seg_apart(k0[i], all0[0]));
                    }
                    lemma_disjoint_push(k0, seg);
                }
                kept.push(seg);
                kin.push(used);
                proof {
                    assert forall|i: int, j: int|
                        0 <= i < kept@.len() && 0 <= j < dropped@.len() implies seg_apart(#[trigger] kept@[i], #[trigger] dropped@[j]) by {
                        if i < k0.len() {
                            assert(kept@[i] == k0[i]);
                        } else {
                            assert(seg_apart(dropped@[j], all0[0]));
                        }
                    }
                    assert forall|i: int, j: int|
                        0 <= i < kept@.len() && 0 <= j < all@.len() implies seg_apart(#[trigger] kept@[i], #[trigger] all@[j]) by {
                        if i < k0.len() {
                            assert(kept@[i] == k0[i]);
                        } else {
                            assert(seg_apart(all0[0], all@[j]));
                        }
                    }
                    assert forall|k: int| 0 <= k < kept@.len() implies #[trigger] kept@[k].hs_wf() by {
                        if k < k0.len() {
                            assert(kept@[k] == k0[k]);
                        }
                    }
                    assert forall|k: int| 0 <= k < kept@.len() implies src.contains(#[trigger] kept@[k]) by {
                        if k < k0.len() {
                            assert(kept@[k] == k0[k]);
                        } else {
                            assert(kept@[k] == src[c as int]);
                        }
                    }
                    let nkmap = kmap.update(c as int, k0.len() as int);
                    assert forall|m: int|
                        0 <= m < c + 1 && !compactable(#[trigger] src[m], in_use@[m]) implies 0 <= nkmap[m] < kept@.len()
                            && kept@[nkmap[m]] == src[m] && kin@[nkmap[m]] == in_use@[m] by {
                        if m < c {
                            assert(kept@[kmap[m]] == k0[kmap[m]]);
                            assert(kin@[kmap[m]] == kin0[kmap[m]]);
                        }
                    }
                    assert forall|m: int|
                        0 <= m < c + 1 && compactable(#[trigger] src[m], in_use@[m]) implies 0 <= dord[m] < didx.len()
                            && didx[dord[m]] == m by {
                        if m == c {
                            assert(!compactable(src[m], in_use@[m]));
                        }
                    }
                    kmap = nkmap;
                }
            }
            c = c + 1;
        }
        (kept, kin, dropped, Ghost(kmap), Ghost(didx), Ghost(dord))
    }
}

impl RustGc {
    /// Moves each segment of `dropped` in turn into the first kept segment
    /// that no allocation context uses and that has room, or else into an
    /// empty segment or a new one; a segment that cannot be moved is kept.
    /// Returns the moved-from segments, in order, with which segment of
    /// `dropped` each is and where each unmoved one was kept, and the new
    /// segments that were refused for overlapping a segment of the heap.
    fn move_dropped(
        kept: &mut Vec<HeapSegment>,
        kin: &mut Vec<bool>,
        dropped: Vec<HeapSegment>,
        empty: Vec<HeapSegment>,
        types: &TypeTable,
    ) -> (r: (Vec<HeapSegment>, Ghost<Seq<int>>, Ghost<Seq<int>>, Vec<HeapSegment>))
        requires
            types.wf(),
            segs_disjoint(old(kept)@),
            segs_disjoint(dropped@),
            all_apart(old(kept)@, dropped@),
            forall|k: int| 0 <= k < old(kept)@.len() ==> #[trigger] old(kept)@[k].hs_wf(),
            forall|k: int| 0 <= k < dropped@.len() ==> droppable(#[trigger] dropped@[k], *types),
            forall|k: int| 0 <= k < dropped@.len() ==> small(#[trigger] dropped@[k]).spec_alive_bytes() < COMPACT_THRESHOLD,
            forall|k: int| 0 <= k < empty@.len() ==> #[trigger] empty@[k].hs_wf() && empty_ready(empty@[k]),
            segs_disjoint(empty@),
            all_apart(old(kept)@, empty@),
            all_apart(dropped@, empty@),
            old(kin)@.len() == old(kept)@.len(),
        ensures
            segs_disjoint(final(kept)@),
            forall|k: int| 0 <= k < final(kept)@.len() ==> #[trigger] final(kept)@[k].hs_wf(),
            moves_ok(old(kept)@, old(kin)@, dropped@, final(kept)@, final(kin)@, r.0@, r.1@, r.2@, *types),
            forall|u: int|
                0 <= u < dropped@.len() && #[trigger] r.2@[u] >= 0 ==> usize::BITS != 64 || some_refused(
                    r.3@,
                    final(kept)@,
                    dropped@,
                ),
    {
        let ghost k0 = kept@;
        let ghost kin0 = kin@;
        let ghost d_all = dropped@;
        let ghost nd = d_all.len();
        let mut dropped = dropped;
        let mut empty = empty;
        let mut relocated: Vec<HeapSegment> = Vec::new();
        let mut refused: Vec<HeapSegment> = Vec::new();
        let ghost mut t: int = 0;
        let ghost mut mord: Seq<int> = Seq::empty();
        let ghost mut dpos: Seq<int> = Seq::empty();
        proof {
            assert(d_all.subrange(0, nd as int) =~= d_all);
            assert(moves_ok(k0, kin0, d_all.take(0), kept@, kin@, relocated@, mord, dpos, *types));
        }
        while dropped.len() > 0
            invariant
                types.wf(),
                0 <= t <= nd,
                nd == d_all.len(),
                dropped@ == d_all.subrange(t, nd as int),
                segs_disjoint(d_all),
                forall|k: int| 0 <= k < d_all.len() ==> droppable(#[trigger] d_all[k], *types),
                forall|k: int| 0 <= k < k0.len() ==> #[trigger] k0[k].hs_wf(),
                segs_disjoint(kept@),
                segs_disjoint(dropped@),
                all_apart(kept@, dropped@),
                forall|k: int| 0 <= k < kept@.len() ==> #[trigger] kept@[k].hs_wf(),
                forall|k: int| 0 <= k < dropped@.len() ==> droppable(#[trigger] dropped@[k], *types),
                forall|k: int| 0 <= k < empty@.len() ==> #[trigger] empty@[k].hs_wf() && empty_ready(empty@[k]),
                forall|k: int| 0 <= k < d_all.len() ==> small(#[trigger] d_all[k]).spec_alive_bytes() < COMPACT_THRESHOLD,
                segs_disjoint(empty@),
                forall|i: int, j: int|
                    0 <= i < kept@.len() && 0 <= j < empty@.len() && empty@[j].is_small() ==> seg_apart(
                        #[trigger] kept@[i],
                        #[trigger] empty@[j],
                    ),
                forall|i: int, j: int|
                    0 <= i < d_all.len() && 0 <= j < empty@.len() && empty@[j].is_small() ==> seg_apart(
                        #[trigger] d_all[i],
                        #[trigger] empty@[j],
                    ),
                kin@.len() == kept@.len(),
                moves_ok(k0, kin0, d_all.take(t), kept@, kin@, relocated@, mord, dpos, *types),
                forall|u: int|
                    0 <= u < t && #[trigger] dpos[u] >= 0 ==> usize::BITS != 64 || some_refused(refused@, kept@, d_all),
            decreases dropped@.len(),
        {
            let ghost dr0 = dropped@;
            let ghost kept_a = kept@;
            let ghost kin_a = kin@;
            let ghost rel_a = relocated@;
            proof {
                lemma_disjoint_tail(dr0);
            }
            let mut seg = dropped.remove(0);
            let ghost seg0 = seg;
            proof {
                assert(dropped@ == dr0.subrange(1, dr0.len() as int));
                assert(seg == dr0[0]);
                assert(seg == d_all[t]);
                assert(dropped@ =~= d_all.subrange(t + 1, nd as int));
                assert forall|i: int, j: int|
                    0 <= i < kept@.len() && 0 <= j < dropped@.len() implies seg_apart(#[trigger] kept@[i], #[trigger] dropped@[j]) by {
                    assert(dropped@[j] == dr0[j + 1]);
                }
                assert forall|k: int| 0 <= k < dropped@.len() implies droppable(#[trigger] dropped@[k], *types) by {
                    assert(dropped@[k] == dr0[k + 1]);
                }
                assert(droppable(dr0[0], *types));
            }
            let alive = seg.alive_bytes();
            let mut dest = RustGc::find_destination(kept, kin, alive);
            let ghost mut why: Option<HeapSegment> = None;
            let ghost mut from_empty: bool = false;
            let ghost e_a = empty@;
            let ghost ref_a = refused@;
            if dest.is_none() {
                let cand = match RustGc::take_small(&mut empty) {
                    Some(x) => {
                        proof {
                            from_empty = true;
                        }
                        Some(x)
                    },
                    None => match Segment::new_boxed() {
                        Some(s) => Some(HeapSegment::Small(s)),
                        None => None,
                    },
                };
                proof {
                    if usize::BITS == 64 {
                        assert(cand is Some);
                    }
                    if from_empty {
                        let k = choose|k: int|
                            0 <= k < e_a.len() && cand == Some(e_a[k]) && empty@ == e_a.remove(k) && forall|j: int|
                                0 <= j < k ==> !(#[trigger] e_a[j]).is_small();
                        lemma_empties_remove(e_a, k, kept@, d_all);
                    }
                }
                if let Some(x) = cand {
                    proof {
                        why = Some(x);
                        if from_empty {
                            let k = choose|k: int|
                                0 <= k < e_a.len() && e_a[k] == x && empty@ == e_a.remove(k) && forall|j: int|
                                    0 <= j < k ==> !(#[trigger] e_a[j]).is_small();
                            assert(empty_ready(e_a[k]));
                            assert forall|j: int| 0 <= j < kept@.len() implies seg_apart(#[trigger] kept@[j], x) by {
                                assert(seg_apart(kept@[j], e_a[k]));
                            }
                            assert forall|j: int| 0 <= j < dropped@.len() implies seg_apart(#[trigger] dropped@[j], x) by {
                                assert(dropped@[j] == d_all[t + 1 + j]);
                                assert(seg_apart(d_all[t + 1 + j], e_a[k]));
                            }
                            assert(small(seg).spec_alive_bytes() < COMPACT_THRESHOLD);
                        }
                    }
                    if x.available_bytes() > alive && RustGc::apart_from_all(&x, kept)
                        && RustGc::apart_from_all(&x, &dropped) {
                        let ghost kp = kept@;
                        proof {
                            lemma_disjoint_push(kp, x);
                        }
                        kept.push(x);
                        kin.push(false);
                        proof {
                            assert forall|i: int, j: int|
                                0 <= i < kept@.len() && 0 <= j < dropped@.len() implies seg_apart(#[trigger] kept@[i], #[trigger] dropped@[j]) by {
                                if i < kp.len() {
                                    assert(kept@[i] == kp[i]);
                                } else {
                                    assert(seg_apart(dropped@[j], x));
                                }
                            }
                            assert forall|i: int, j: int|
                                0 <= i < kept@.len() && 0 <= j < empty@.len() && empty@[j].is_small() implies seg_apart(
                                    #[trigger] kept@[i],
                                    #[trigger] empty@[j],
                                ) by {
                                if i < kp.len() {
                                    assert(kept@[i] == kp[i]);
                                } else {
                                    assert(seg_apart(x, empty@[j]));
                                }
                            }
                        }
                        dest = Some(kept.len() - 1);
                    } else {
                        proof {
                            assert(!from_empty);
                        }
                        refused.push(x);
                    }
                }
            }
            // The kept segments before the move, pushes included.
            let ghost kept_b = kept@;
            let ghost kin_b = kin@;
            proof {
                if dest is None && usize::BITS == 64 {
                    let x = why.unwrap();
                    assert(!from_empty);
                    assert(refused@ == ref_a.push(x));
                    assert(x.hs_wf() && x.is_small());
                    assert(small(seg0).spec_alive_bytes() < COMPACT_THRESHOLD);
                    assert(dest_fits(x, alive as int));
                    if forall|j: int| 0 <= j < kept_b.len() ==> seg_apart(#[trigger] kept_b[j], x) {
                        assert(!(forall|j: int| 0 <= j < dropped@.len() ==> seg_apart(#[trigger] dropped@[j], x)));
                        let j = choose|j: int| 0 <= j < dropped@.len() && !seg_apart(#[trigger] dropped@[j], x);
                        assert(dropped@[j] == d_all[t + 1 + j]);
                        assert(!seg_apart(d_all[t + 1 + j], x));
                    }
                    assert(refused_dest(x, kept_b, d_all));
                    assert(refused@[refused@.len() - 1] == x);
                    assert(some_refused(refused@, kept_b, d_all));
                }
                if dest is Some {
                    assert(refused@ == ref_a);
                }
            }
            proof {
                assert(kept_b.len() >= kept_a.len());
                assert forall|j: int| 0 <= j < kept_a.len() implies kept_b[j] == kept_a[j] && kin_b[j] == kin_a[j] by {
                }
            }
            match dest {
                Some(k) => {
                    proof {
                        assert(dest_fits(kept@[k as int], alive as int));
                        if let HeapSegment::Small(ss) = &seg {
                            assert(ss.spec_alive_bytes() == alive);
                        }
                        assert(can_move(seg, kept@[k as int]));
                    }
                    RustGc::move_into(kept, k, &mut seg, types);
                    proof {
                        assert(segs_disjoint(kept@)) by {
                            assert forall|a: int, b: int|
                                0 <= a < kept@.len() && 0 <= b < kept@.len() && a != b implies #[trigger] kept@[a].hs_end()
                                    <= #[trigger] kept@[b].hs_base() || kept@[b].hs_end() <= kept@[a].hs_base() by {
                                assert(kept_b[a].hs_end() <= kept_b[b].hs_base() || kept_b[b].hs_end() <= kept_b[a].hs_base());
                            }
                        }
                        assert forall|i: int, j: int|
                            0 <= i < kept@.len() && 0 <= j < dropped@.len() implies seg_apart(#[trigger] kept@[i], #[trigger] dropped@[j]) by {
                            assert(seg_apart(kept_b[i], dropped@[j]));
                        }
                        assert forall|i: int, j: int|
                            0 <= i < kept@.len() && 0 <= j < empty@.len() && empty@[j].is_small() implies seg_apart(
                                #[trigger] kept@[i],
                                #[trigger] empty@[j],
                            ) by {
                            assert(seg_apart(kept_b[i], empty@[j]));
                        }
                    }
                    relocated.push(seg);
                    proof {
                        let nmord = mord.push(t);
                        let ndpos = dpos.push(-1int);
                        let dt = d_all.take(t + 1);
                        assert(!kin_b[k as int]);
                        // Kept segments: the destination grew, the others stayed.
                        assert forall|j: int| 0 <= j < k0.len() implies #[trigger] kin@[j] == kin0[j] && (kept@[j] == k0[j] || (
                            !kin0[j] && grows_from(k0[j], kept@[j]))) by {
                            assert(kept_b[j] == kept_a[j]);
                            if j == k {
                                if kept_a[j] == k0[j] {
                                } else {
                                    lemma_grows_trans(k0[j], kept_b[j], kept@[j]);
                                }
                            }
                        }
                        assert forall|q: int|
                            0 <= q < nmord.len() implies 0 <= #[trigger] nmord[q] < dt.len() && relocated@[q].is_small()
                                && relocated@[q].hs_wf() && relocated@[q].hs_base() == dt[nmord[q]].hs_base()
                                && relocated@[q].hs_end() == dt[nmord[q]].hs_end() by {
                            if q < mord.len() {
                                assert(relocated@[q] == rel_a[q]);
                                assert(nmord[q] == mord[q]);
                            } else {
                                assert(seg.hs_wf());
                            }
                        }
                        assert forall|u: int|
                            0 <= u < dt.len() && #[trigger] ndpos[u] >= 0 implies k0.len() <= ndpos[u] < kept@.len()
                                && !kin@[ndpos[u]] && (kept@[ndpos[u]] == dt[u] || grows_from(dt[u], kept@[ndpos[u]])) by {
                            assert(u < t);
                            assert(ndpos[u] == dpos[u]);
                            let p = dpos[u];
                            assert(kept_b[p] == kept_a[p]);
                            if p == k {
                                if kept_a[p] == dt[u] {
                                } else {
                                    lemma_grows_trans(dt[u], kept_b[p], kept@[p]);
                                }
                            }
                        }
                        assert forall|u: int| 0 <= u < dt.len() && #[trigger] ndpos[u] < 0 implies exists|q: int|
                            0 <= q < nmord.len() && #[trigger] nmord[q] == u by {
                            if u < t {
                                assert(dpos[u] < 0);
                                let q = choose|q: int| 0 <= q < mord.len() && #[trigger] mord[q] == u;
                                assert(nmord[q] == u);
                            } else {
                                assert(nmord[mord.len() as int] == u);
                            }
                        }
                        assert forall|q: int, kk: int|
                            0 <= q < nmord.len() && 0 <= kk < small(dt[nmord[q]]).live_objects(*types).len() implies has_copy(
                                    kept@,
                                    small(relocated@[q]).words()[#[trigger] small(dt[nmord[q]]).live_objects(*types)[kk] - 1],
                                    small(dt[nmord[q]]),
                                    small(dt[nmord[q]]).live_objects(*types)[kk],
                                    *types,
                                ) by {
                            let i = small(dt[nmord[q]]).live_objects(*types)[kk];
                            lemma_live_from_range(*types, small(dt[nmord[q]]).words(), 1);
                            if q < mord.len() {
                                assert(nmord[q] == mord[q]);
                                assert(dt[mord[q]] == d_all.take(t)[mord[q]]);
                                assert(relocated@[q] == rel_a[q]);
                                assert(has_copy(kept_a, small(rel_a[q]).words()[i - 1], small(d_all.take(t)[mord[q]]), i, *types));
                                let d = choose|d: int| 0 <= d < kept_a.len() && #[trigger] copy_in(
                                    kept_a[d],
                                    small(rel_a[q]).words()[i - 1],
                                    small(d_all.take(t)[mord[q]]),
                                    i,
                                    *types,
                                );
                                assert(kept_b[d] == kept_a[d]);
                                if d == k {
                                    assert(kept_a[d].hs_wf());
                                    lemma_copy_in_grows(kept_b[d], kept@[d], small(rel_a[q]).words()[i - 1], small(dt[nmord[q]]), i, *types);
                                }
                                assert(copy_in(kept@[d], small(relocated@[q]).words()[i - 1], small(dt[nmord[q]]), i, *types));
                            } else {
                                assert(nmord[q] == t);
                                assert(dt[t] == seg0);
                                assert(small(seg0).live_objects(*types)[kk] == i);
                                assert(copy_in(kept@[k as int], small(seg).words()[i - 1], small(seg0), i, *types));
                            }
                        }
                        assert(moves_ok(k0, kin0, dt, kept@, kin@, relocated@, nmord, ndpos, *types));
                        assert forall|u: int|
                            0 <= u < t + 1 && #[trigger] ndpos[u] >= 0 implies usize::BITS != 64 || some_refused(
                                refused@,
                                kept@,
                                d_all,
                            ) by {
                            assert(u < t && ndpos[u] == dpos[u]);
                            if usize::BITS == 64 {
                                lemma_some_refused_keep(ref_a, refused@, kept_a, kept@, d_all);
                            }
                        }
                        mord = nmord;
                        dpos = ndpos;
                        t = t + 1;
                    }
                },
                None => {
                    let ghost kp = kept@;
                    proof {
                        assert forall|i: int| 0 <= i < kp.len() implies seg_apart(#[trigger] kp[i], seg) by {
                            assert(seg_apart(kp[i], dr0[0]));
                        }
                        lemma_disjoint_push(kp, seg);
                    }
                    kept.push(seg);
                    kin.push(false);
                    proof {
                        assert forall|i: int, j: int|
                            0 <= i < kept@.len() && 0 <= j < dropped@.len() implies seg_apart(#[trigger] kept@[i], #[trigger] dropped@[j]) by {
                            if i < kp.len() {
                                assert(kept@[i] == kp[i]);
                            } else {
                                assert(seg_apart(dr0[0], dr0[j + 1]));
                            }
                        }
                        assert forall|i: int, j: int|
                            0 <= i < kept@.len() && 0 <= j < empty@.len() && empty@[j].is_small() implies seg_apart(
                                #[trigger] kept@[i],
                                #[trigger] empty@[j],
                            ) by {
                            if i < kp.len() {
                                assert(kept@[i] == kp[i]);
                            } else {
                                assert(seg0 == d_all[t]);
                                assert(seg_apart(d_all[t], empty@[j]));
                            }
                        }
                        let ndpos = dpos.push(kp.len() as int);
                        let dt = d_all.take(t + 1);
                        assert forall|u: int|
                            0 <= u < dt.len() && #[trigger] ndpos[u] >= 0 implies k0.len() <= ndpos[u] < kept@.len()
                                && !kin@[ndpos[u]] && (kept@[ndpos[u]] == dt[u] || grows_from(dt[u], kept@[ndpos[u]])) by {
                            if u < t {
                                assert(ndpos[u] == dpos[u]);
                                assert(kept@[dpos[u]] == kp[dpos[u]]);
                            }
                        }
                        assert forall|u: int| 0 <= u < dt.len() && #[trigger] ndpos[u] < 0 implies exists|q: int|
                            0 <= q < mord.len() && #[trigger] mord[q] == u by {
                            assert(u < t);
                            assert(dpos[u] < 0);
                        }
                        assert forall|q: int, kk: int|
                            0 <= q < mord.len() && 0 <= kk < small(dt[mord[q]]).live_objects(*types).len() implies has_copy(
                                    kept@,
                                    small(relocated@[q]).words()[#[trigger] small(dt[mord[q]]).live_objects(*types)[kk] - 1],
                                    small(dt[mord[q]]),
                                    small(dt[mord[q]]).live_objects(*types)[kk],
                                    *types,
                                ) by {
                            let i = small(dt[mord[q]]).live_objects(*types)[kk];
                            assert(dt[mord[q]] == d_all.take(t)[mord[q]]);
                            assert(has_copy(kept_a, small(relocated@[q]).words()[i - 1], small(d_all.take(t)[mord[q]]), i, *types));
                            let d = choose|d: int| 0 <= d < kept_a.len() && #[trigger] copy_in(
                                kept_a[d],
                                small(relocated@[q]).words()[i - 1],
                                small(d_all.take(t)[mord[q]]),
                                i,
                                *types,
                            );
                            assert(kept@[d] == kept_a[d]);
                        }
                        assert forall|j: int| 0 <= j < k0.len() implies #[trigger] kin@[j] == kin0[j] && (kept@[j] == k0[j] || (
                            !kin0[j] && grows_from(k0[j], kept@[j]))) by {
                            assert(kept@[j] == kept_a[j]);
                        }
                        assert forall|q: int|
                            0 <= q < mord.len() implies 0 <= #[trigger] mord[q] < dt.len() && relocated@[q].is_small()
                                && relocated@[q].hs_wf() && relocated@[q].hs_base() == dt[mord[q]].hs_base()
                                && relocated@[q].hs_end() == dt[mord[q]].hs_end() by {
                            assert(dt[mord[q]] == d_all.take(t)[mord[q]]);
                        }
                        assert(moves_ok(k0, kin0, dt, kept@, kin@, relocated@, mord, ndpos, *types));
                        assert forall|u: int|
                            0 <= u < t + 1 && #[trigger] ndpos[u] >= 0 implies usize::BITS != 64 || some_refused(
                                refused@,
                                kept@,
                                d_all,
                            ) by {
                            if usize::BITS == 64 {
                                if u < t {
                                    assert(ndpos[u] == dpos[u]);
                                    lemma_some_refused_keep(ref_a, refused@, kept_a, kept@, d_all);
                                } else {
                                    lemma_some_refused_keep(refused@, refused@, kept_b, kept@, d_all);
                                }
                            }
                        }
                        dpos = ndpos;
                        t = t + 1;
                    }
                },
            }
        }
        proof {
            assert(d_all.take(t) =~= d_all);
        }
        (relocated, Ghost(mord), Ghost(dpos), refused)
    }
}

/// The relocated address of an address of a moved-from segment is the word
/// in the header position before it.
pub proof fn lemma_relocated_ref_at(rel: Seq<HeapSegment>, q: int, i: int)
    requires
        segs_disjoint(rel),
        forall|k: int| 0 <= k < rel.len() ==> #[trigger] rel[k].hs_wf(),
        0 <= q < rel.len(),
        rel[q].is_small(),
        1 <= i < POINTER_SIZE,
    ensures
        relocated_ref(rel, small(rel[q]).addr(i) as usize) == small(rel[q]).words()[i - 1],
{
    let s = small(rel[q]);
    let x = s.addr(i) as usize;
    assert(rel[q].hs_wf());
    assert(rel[q].hs_contains(x));
    lemma_find_seg_disjoint(rel, q, x);
    assert((x - 8 - s.spec_base()) / 8 == i - 1) by (nonlinear_arith)
        requires
            x == s.spec_base() + 8 * i,
    ;
}

impl RustGc {
    /// Compaction: when more than one segment is compactable (see
    /// [`compactable`]), moves the objects of each compactable segment into
    /// the first segment with enough free space that no allocation context
    /// uses (or into an empty or a new segment), leaving the address of each
    /// copy in the old object's header word. The moved-from segments are kept
    /// aside for fixing references. `empty` holds the segments that the sweep
    /// took out of the heap. Returns whether any segment was moved, and the
    /// new segments made to receive objects that overlap a segment of the
    /// heap and were not used (their segments then stay where they are).
    pub fn compact(&mut self, empty: Vec<HeapSegment>, in_use: Vec<bool>) -> (r: (bool, Vec<HeapSegment>))
        requires
            old(self).wf(),
            old(self).rel().len() == 0,
            in_use@.len() == old(self).segs().len(),
            forall|k: int| 0 <= k < empty@.len() ==> #[trigger] empty@[k].hs_wf() && empty_ready(empty@[k]),
            segs_disjoint(empty@),
            all_apart(old(self).segs(), empty@),
            forall|k: int|
                0 <= k < old(self).segs().len() && !in_use@[k] ==> (#[trigger] old(self).segs()[k]).live_bytes_ok(
                    old(self).spec_types(),
                ),
        ensures
            final(self).wf(),
            final(self).spec_types() == old(self).spec_types(),
            final(self).handles() == old(self).handles(),
            final(self).queue() == old(self).queue(),
            r.0 == (final(self).rel().len() > 0),
            exists|orig: Seq<HeapSegment>, midx: Seq<int>, kidx: Seq<int>|
                #[trigger] compaction_done(
                    old(self).segs(),
                    in_use@,
                    old(self).spec_types(),
                    final(self).rel(),
                    final(self).segs(),
                    orig,
                    midx,
                    kidx,
                ) && all_moved(old(self).segs(), in_use@, final(self).segs(), midx, r.1@),
    {
        let mut all: Vec<HeapSegment> = Vec::new();
        std::mem::swap(&mut all, &mut self.segments);
        let ghost src = all@;
        let ghost n = src.len();
        let ghost types = self.types;
        let (mut kept, mut kin, dropped, Ghost(kmap), Ghost(didx), Ghost(dord)) = RustGc::partition_compactable(
            all,
            &in_use,
            &self.types,
        );
        let ghost k1 = kept@;
        let ghost kin1 = kin@;
        let ghost dall = dropped@;
        let mut relocated: Vec<HeapSegment> = Vec::new();
        let mut refused: Vec<HeapSegment> = Vec::new();
        let ghost mut orig: Seq<HeapSegment> = Seq::empty();
        let ghost mut midx: Seq<int> = Seq::empty();
        let ghost mut kidx: Seq<int> = Seq::empty();
        if dropped.len() > 1 {
            proof {
                assert forall|i: int, j: int|
                    0 <= i < kept@.len() && 0 <= j < empty@.len() implies seg_apart(#[trigger] kept@[i], #[trigger] empty@[j]) by {
                    assert(src.contains(kept@[i]));
                    let m = choose|m: int| 0 <= m < src.len() && src[m] == kept@[i];
                    assert(seg_apart(src[m], empty@[j]));
                }
                assert forall|i: int, j: int|
                    0 <= i < dall.len() && 0 <= j < empty@.len() implies seg_apart(#[trigger] dall[i], #[trigger] empty@[j]) by {
                    assert(dall[i] == src[didx[i]]);
                    assert(seg_apart(src[didx[i]], empty@[j]));
                }
                assert forall|k: int| 0 <= k < dall.len() implies small(#[trigger] dall[k]).spec_alive_bytes()
                    < COMPACT_THRESHOLD by {
                    assert(compactable(src[didx[k]], in_use@[didx[k]]));
                }
            }
            let (rel, Ghost(mord), Ghost(dpos), refd) = RustGc::move_dropped(&mut kept, &mut kin, dropped, empty, &self.types);
            relocated = rel;
            refused = refd;
            proof {
                midx = Seq::new(mord.len(), |q: int| didx[mord[q]]);
                orig = Seq::new(mord.len(), |q: int| src[midx[q]]);
                kidx = Seq::new(n as nat, |m: int| if compactable(src[m], in_use@[m]) { dpos[dord[m]] } else { kmap[m] });
                assert forall|q: int| 0 <= q < midx.len() implies 0 <= #[trigger] midx[q] < src.len() && orig[q]
                    == src[midx[q]] && compactable(src[midx[q]], in_use@[midx[q]]) && relocated@[q].is_small()
                    && relocated@[q].hs_base() == orig[q].hs_base() && relocated@[q].hs_end() == orig[q].hs_end() by {
                    assert(0 <= mord[q] < dall.len());
                    assert(dall[mord[q]] == src[didx[mord[q]]]);
                }
                assert forall|q1: int, q2: int| 0 <= q1 < q2 < midx.len() implies #[trigger] midx[q1] < #[trigger] midx[q2] by {
                    assert(mord[q1] < mord[q2]);
                }
                assert(drawn_from(relocated@, dall, mord)) by {
                    assert forall|a: int, b: int|
                        0 <= a < relocated@.len() && 0 <= b < relocated@.len() && a != b implies mord[a] != mord[b] by {
                        if a < b {
                            assert(mord[a] < mord[b]);
                        } else {
                            assert(mord[b] < mord[a]);
                        }
                    }
                }
                lemma_drawn_disjoint(relocated@, dall, mord);
                assert forall|k: int| 0 <= k < relocated@.len() implies #[trigger] relocated@[k].hs_wf() by {
                    assert(0 <= mord[k] < dall.len());
                }
                assert forall|q: int, k: int|
                    0 <= q < orig.len() && 0 <= k < small(orig[q]).live_objects(types).len() implies has_copy(
                            kept@,
                            relocated_ref(relocated@, small(orig[q]).addr(#[trigger] small(orig[q]).live_objects(types)[k]) as usize),
                            small(orig[q]),
                            small(orig[q]).live_objects(types)[k],
                            types,
                        ) by {
                    let i = small(orig[q]).live_objects(types)[k];
                    assert(orig[q] == dall[mord[q]]);
                    assert(droppable(dall[mord[q]], types));
                    lemma_live_from_range(types, small(orig[q]).words(), 1);
                    assert(readable(types, small(orig[q]).words(), i));
                    assert(small(relocated@[q]).spec_base() == small(orig[q]).spec_base());
                    assert(small(relocated@[q]).addr(i) == small(orig[q]).addr(i));
                    lemma_relocated_ref_at(relocated@, q, i);
                }
                if mord.len() > 0 {
                    let m2 = if mord[0] == 0 { didx[1] } else { didx[0] };
                    assert(m2 != midx[0] && compactable(src[m2], in_use@[m2])) by {
                        assert(didx[0] < didx[1]);
                        assert(0 <= mord[0] < dall.len());
                        if mord[0] != 0 {
                            assert(didx[0] < didx[mord[0]]);
                        }
                    }
                }
                assert forall|m: int|
                    0 <= m < src.len() && !midx.contains(m) implies 0 <= #[trigger] kidx[m] < kept@.len() && kept_through(
                        src[m],
                        kept@[kidx[m]],
                        in_use@[m],
                    ) by {
                    if compactable(src[m], in_use@[m]) {
                        let u = dord[m];
                        assert(didx[u] == m);
                        if dpos[u] < 0 {
                            let q = choose|q: int| 0 <= q < mord.len() && #[trigger] mord[q] == u;
                            assert(midx[q] == m);
                            assert(midx.contains(m));
                        }
                        assert(dall[u] == src[m]);
                    } else {
                        let j = kmap[m];
                        assert(k1[j] == src[m]);
                        assert(kin[j] == kin1[j]);
                    }
                }
                assert forall|m: int|
                    0 <= m < src.len() && #[trigger] compactable(src[m], in_use@[m]) && !midx.contains(m) && (exists|m2: int|
                        0 <= m2 < src.len() && m2 != m && compactable(src[m2], in_use@[m2])) implies usize::BITS != 64
                        || some_refused(refused@, kept@, src) by {
                    let u = dord[m];
                    assert(didx[u] == m);
                    assert(dall[u] == src[m]);
                    if dpos[u] < 0 {
                        let q = choose|q: int| 0 <= q < mord.len() && #[trigger] mord[q] == u;
                        assert(midx[q] == m);
                        assert(midx.contains(m));
                    }
                    if usize::BITS == 64 {
                        let k = choose|k: int| 0 <= k < refused@.len() && #[trigger] refused_dest(refused@[k], kept@, dall);
                        let x = refused@[k];
                        if exists|j: int| 0 <= j < dall.len() && !seg_apart(#[trigger] dall[j], x) {
                            let j = choose|j: int| 0 <= j < dall.len() && !seg_apart(#[trigger] dall[j], x);
                            assert(dall[j] == src[didx[j]]);
                            assert(!seg_apart(src[didx[j]], x));
                        }
                        assert(refused_dest(x, kept@, src));
                    }
                }
                assert(compaction_done(src, in_use@, types, relocated@, kept@, orig, midx, kidx));
                assert(all_moved(src, in_use@, kept@, midx, refused@));
                assert forall|k: int| 0 <= k < relocated@.len() implies #[trigger] relocated@[k].hs_wf()
                    && relocated@[k].is_small() by {
                    assert(0 <= mord[k] < dall.len());
                }
            }
        } else {
            let mut dropped = dropped;
            let ghost mut t: int = 0;
            proof {
                assert(dall.subrange(0, dall.len() as int) =~= dall);
            }
            while dropped.len() > 0
                invariant
                    0 <= t <= dall.len(),
                    dropped@ == dall.subrange(t, dall.len() as int),
                    kept@ == k1 + dall.take(t),
                    kin@.len() == kept@.len(),
                    segs_disjoint(kept@),
                    segs_disjoint(dropped@),
                    all_apart(kept@, dropped@),
                    forall|k: int| 0 <= k < kept@.len() ==> #[trigger] kept@[k].hs_wf(),
                    forall|k: int| 0 <= k < dropped@.len() ==> droppable(#[trigger] dropped@[k], types),
                decreases dropped@.len(),
            {
                let ghost dr0 = dropped@;
                let ghost kp = kept@;
                proof {
                    lemma_disjoint_tail(dr0);
                }
                let seg = dropped.remove(0);
                proof {
                    assert(dropped@ == dr0.subrange(1, dr0.len() as int));
                    assert(dropped@ =~= dall.subrange(t + 1, dall.len() as int));
                    assert forall|i: int| 0 <= i < kp.len() implies seg_apart(#[trigger] kp[i], seg) by {
                        assert(seg_apart(kp[i], dr0[0]));
                    }
                    lemma_disjoint_push(kp, seg);
                }
                kept.push(seg);
                kin.push(false);
                proof {
                    assert(kept@ =~= k1 + dall.take(t + 1));
                    assert forall|i: int, j: int|
                        0 <= i < kept@.len() && 0 <= j < dropped@.len() implies seg_apart(#[trigger] kept@[i], #[trigger] dropped@[j]) by {
                        assert(dropped@[j] == dr0[j + 1]);
                        if i < kp.len() {
                            assert(kept@[i] == kp[i]);
                        } else {
                            assert(seg_apart(dr0[0], dr0[j + 1]));
                        }
                    }
                    assert forall|k: int| 0 <= k < dropped@.len() implies droppable(#[trigger] dropped@[k], types) by {
                        assert(dropped@[k] == dr0[k + 1]);
                    }
                    assert forall|k: int| 0 <= k < kept@.len() implies #[trigger] kept@[k].hs_wf() by {
                        if k < kp.len() {
                            assert(kept@[k] == kp[k]);
                        } else {
                            assert(droppable(dr0[0], types));
                        }
                    }
                    t = t + 1;
                }
            }
            proof {
                assert(dall.take(t) =~= dall);
                kidx = Seq::new(n as nat, |m: int| if compactable(src[m], in_use@[m]) { k1.len() + dord[m] } else { kmap[m] });
                assert forall|m: int|
                    0 <= m < src.len() && !midx.contains(m) implies 0 <= #[trigger] kidx[m] < kept@.len() && kept_through(
                        src[m],
                        kept@[kidx[m]],
                        in_use@[m],
                    ) by {
                    if compactable(src[m], in_use@[m]) {
                        assert(kept@[k1.len() + dord[m]] == dall[dord[m]]);
                    } else {
                        assert(kept@[kmap[m]] == k1[kmap[m]]);
                    }
                }
                assert(compaction_done(src, in_use@, types, relocated@, kept@, orig, midx, kidx));
                assert forall|m: int|
                    0 <= m < src.len() && #[trigger] compactable(src[m], in_use@[m]) && !midx.contains(m) && (exists|m2: int|
                        0 <= m2 < src.len() && m2 != m && compactable(src[m2], in_use@[m2])) implies usize::BITS != 64
                        || some_refused(refused@, kept@, src) by {
                    let m2 = choose|m2: int| 0 <= m2 < src.len() && m2 != m && compactable(src[m2], in_use@[m2]);
                    assert(didx[dord[m]] == m);
                    assert(didx[dord[m2]] == m2);
                    assert(dord[m] != dord[m2]);
                }
                assert(all_moved(src, in_use@, kept@, midx, refused@));
            }
        }
        proof {
            assert(rel_ok(relocated@));
            assert(segs_disjoint(kept@));
        }
        self.segments = kept;
        let moved = relocated.len() > 0;
        self.relocated = relocated;
        proof {
            assert(compaction_done(old(self).segs(), in_use@, old(self).spec_types(), self.rel(), self.segs(), orig, midx, kidx));
            assert(all_moved(old(self).segs(), in_use@, self.segs(), midx, refused@));
        }
        (moved, refused)
    }
}

/// The reference slots of the live object number `t` of `s`.
pub open spec fn live_slots(s: HeapSegment, types: TypeTable, t: int) -> Seq<int> {
    s.hs_slots(types, s.hs_live(types)[t] as usize)
}

/// Whether `s1` is `s0` with the reference held in every reference slot of
/// every live object relocated (see [`relocated_ref`]), the other words
/// unchanged.
pub open spec fn fixed_words(s0: HeapSegment, s1: HeapSegment, rel: Seq<HeapSegment>, types: TypeTable) -> bool {
    &&& s1.hs_words().len() == s0.hs_words().len()
    &&& forall|j: int|
        0 <= j < s0.hs_words().len() ==> #[trigger] s1.hs_words()[j] == if s0.hs_is_slot(types, s0.hs_base() + 8 * j) {
            relocated_ref(rel, s0.hs_words()[j])
        } else {
            s0.hs_words()[j]
        }
}

/// Whether `b` covers the same addresses as `a`, with the same flags.
pub open spec fn same_place(a: HeapSegment, b: HeapSegment) -> bool {
    &&& b.hs_wf()
    &&& b.is_small() == a.is_small()
    &&& b.hs_base() == a.hs_base()
    &&& b.hs_words().len() == a.hs_words().len()
    &&& b.hs_marks() == a.hs_marks()
    &&& b.hs_pendings() == a.hs_pendings()
    &&& forall|x: usize| #[trigger] b.hs_mark_index(x) == a.hs_mark_index(x)
    &&& forall|x: usize| #[trigger] b.hs_contains(x) == a.hs_contains(x)
}

/// A live object of a segment is at the word its address gives, past the
/// first word.
pub proof fn lemma_live_index(s: HeapSegment, types: TypeTable, k: int)
    requires
        s.hs_wf(),
        types.wf(),
        0 <= k < s.hs_live(types).len(),
    ensures
        s.hs_live(types)[k] == s.hs_base() + 8 * s.hs_index(s.hs_live(types)[k]),
        1 <= s.hs_index(s.hs_live(types)[k]) < s.hs_words().len(),
        s.is_small() ==> s.hs_index(s.hs_live(types)[k]) == small(s).live_objects(types)[k],
        !s.is_small() ==> s.hs_index(s.hs_live(types)[k]) == 1,
        s.is_small() ==> s.hs_slots(types, s.hs_live(types)[k] as usize) == object_slots(
            types,
            s.hs_words(),
            s.hs_base(),
            small(s).live_objects(types)[k],
        ),
        !s.is_small() ==> s.hs_slots(types, s.hs_live(types)[k] as usize) == object_slots(
            types,
            s.hs_words(),
            s.hs_base(),
            1,
        ),
{
    match s {
        HeapSegment::Small(ss) => {
            lemma_live_from_range(types, ss.words(), 1);
            let i = ss.live_objects(types)[k];
            assert(readable(types, ss.words(), i));
            assert(s.hs_live(types)[k] == ss.addr(i));
            assert((ss.addr(i) - ss.spec_base()) / 8 == i) by (nonlinear_arith)
                requires
                    ss.addr(i) == ss.spec_base() + 8 * i,
            ;
            assert(ss.word_index(ss.addr(i) as usize) == Some(i));
        },
        HeapSegment::Large(l) => {
            assert(s.hs_live(types) == seq![l.object_ref()]);
        },
    }
}

/// A reference slot is a word of the segment: its index gives it back.
pub proof fn lemma_slot_word(s: HeapSegment, types: TypeTable, x: int, a: int)
    requires
        s.hs_wf(),
        object_slots(types, s.hs_words(), s.hs_base(), x).contains(a),
    ensures
        a == s.hs_base() + 8 * s.hs_index(a),
        0 <= s.hs_index(a) < s.hs_words().len(),
        s.hs_word_at(a) == Some(s.hs_words()[s.hs_index(a)]),
{
    lemma_object_slots_aligned(types, s.hs_words(), s.hs_base(), x);
    let sl = object_slots(types, s.hs_words(), s.hs_base(), x);
    let k = choose|k: int| 0 <= k < sl.len() && sl[k] == a;
    let b = s.hs_base();
    assert((a - b) % 8 == 0) by (nonlinear_arith)
        requires
            (a - (b + 8 * x)) % 8 == 0,
    ;
    assert(a == b + 8 * ((a - b) / 8)) by (nonlinear_arith)
        requires
            (a - b) % 8 == 0,
    ;
    assert(0 <= (a - b) / 8 < s.hs_words().len()) by (nonlinear_arith)
        requires
            b <= a < b + 8 * s.hs_words().len(),
            a == b + 8 * ((a - b) / 8),
    ;
}

/// Whether one of `pairs` is for the address `a`.
pub open spec fn covered(pairs: Seq<(usize, usize)>, a: int) -> bool {
    exists|p: int| 0 <= p < pairs.len() && #[trigger] pairs[p].0 == a
}

/// Whether the pair `p` fixes a reference slot of a live object of `s0`:
/// the slot's address, a word of `s0`, and the relocated reference that
/// `s0` holds there.
pub open spec fn fix_pair_ok(s0: HeapSegment, types: TypeTable, rel: Seq<HeapSegment>, p: (usize, usize)) -> bool {
    &&& s0.hs_is_slot(types, p.0 as int)
    &&& 0 <= s0.hs_index(p.0 as int) < s0.hs_words().len()
    &&& p.0 == s0.hs_base() + 8 * s0.hs_index(p.0 as int)
    &&& s0.hs_word_at(p.0 as int) == Some(s0.hs_words()[s0.hs_index(p.0 as int)])
    &&& p.1 == relocated_ref(rel, s0.hs_words()[s0.hs_index(p.0 as int)])
}

/// Relocates the reference held in every reference slot of every live
/// object of `seg`. The new references are all read from the segment as it
/// was, then written, so a slot met twice is relocated once.
fn fix_segment(seg: &mut HeapSegment, types: &TypeTable, rel: &Vec<HeapSegment>)
    requires
        old(seg).hs_wf(),
        types.wf(),
        forall|k: int| 0 <= k < rel@.len() ==> #[trigger] rel@[k].hs_wf(),
    ensures
        same_place(*old(seg), *final(seg)),
        fixed_words(*old(seg), *final(seg), rel@, *types),
{
    let ghost s0 = *seg;
    let objs = seg.iter(types);
    let mut pairs: Vec<(usize, usize)> = Vec::new();
    let mut i: usize = 0;
    while i < objs.len()
        invariant
            types.wf(),
            s0.hs_wf(),
            *seg == s0,
            forall|k: int| 0 <= k < rel@.len() ==> #[trigger] rel@[k].hs_wf(),
            objs@.map_values(|a: usize| a as int) == s0.hs_live(*types),
            i <= objs@.len(),
            forall|p: int| 0 <= p < pairs@.len() ==> #[trigger] fix_pair_ok(s0, *types, rel@, pairs@[p]),
            forall|t: int, u: int|
                0 <= t < i && 0 <= u < live_slots(s0, *types, t).len() ==> #[trigger] covered(
                    pairs@,
                    live_slots(s0, *types, t)[u],
                ),
        decreases objs@.len() - i,
    {
        proof {
            assert(objs@.map_values(|a: usize| a as int)[i as int] == objs@[i as int] as int);
            lemma_live_index(s0, *types, i as int);
        }
        let slots = seg.object_ref_slots(types, objs[i]);
        let ghost p0 = pairs@.len();
        proof {
            assert forall|t: int, u: int|
                0 <= t < i && 0 <= u < live_slots(s0, *types, t).len() implies #[trigger] covered(
                    pairs@,
                    live_slots(s0, *types, t)[u],
                ) by {
            }
        }
        let mut jj: usize = 0;
        while jj < slots.len()
            invariant
                types.wf(),
                s0.hs_wf(),
                *seg == s0,
                forall|k: int| 0 <= k < rel@.len() ==> #[trigger] rel@[k].hs_wf(),
                objs@.map_values(|a: usize| a as int) == s0.hs_live(*types),
                i < objs@.len(),
                jj <= slots@.len(),
                slots@.map_values(|x: usize| x as int) == live_slots(s0, *types, i as int),
                p0 <= pairs@.len(),
                forall|p: int| 0 <= p < pairs@.len() ==> #[trigger] fix_pair_ok(s0, *types, rel@, pairs@[p]),
                forall|t: int, u: int|
                    0 <= t < i && 0 <= u < live_slots(s0, *types, t).len() ==> #[trigger] covered(
                        pairs@,
                        live_slots(s0, *types, t)[u],
                    ),
                forall|u: int| 0 <= u < jj ==> #[trigger] pairs@[p0 + u].0 == live_slots(s0, *types, i as int)[u],
                pairs@.len() == p0 + jj,
            decreases slots@.len() - jj,
        {
            let a = slots[jj];
            let ghost xi = s0.hs_index(s0.hs_live(*types)[i as int]);
            proof {
                assert(slots@.map_values(|x: usize| x as int)[jj as int] == a as int);
                assert(live_slots(s0, *types, i as int)[jj as int] == a);
                lemma_live_index(s0, *types, i as int);
                assert(object_slots(*types, s0.hs_words(), s0.hs_base(), xi) == live_slots(s0, *types, i as int)) by {
                    if s0.is_small() {
                    } else {
                    }
                }
                assert(live_slots(s0, *types, i as int).contains(a as int));
                lemma_slot_word(s0, *types, xi, a as int);
                assert(s0.hs_slots(*types, s0.hs_live(*types)[i as int] as usize).contains(a as int));
                assert(s0.hs_is_slot(*types, a as int));
            }
            match seg.load_word(a) {
                Some(v) => {
                    let nv = relocate_in(rel, v);
                    let ghost pl = pairs@;
                    pairs.push((a, nv));
                    proof {
                        assert(fix_pair_ok(s0, *types, rel@, pairs@[pl.len() as int]));
                        assert forall|p: int| 0 <= p < pairs@.len() implies #[trigger] fix_pair_ok(
                            s0,
                            *types,
                            rel@,
                            pairs@[p],
                        ) by {
                            if p < pl.len() {
                                assert(pairs@[p] == pl[p]);
                            }
                        }
                        assert forall|t: int, u: int|
                            0 <= t < i && 0 <= u < live_slots(s0, *types, t).len() implies #[trigger] covered(
                                pairs@,
                                live_slots(s0, *types, t)[u],
                            ) by {
                            assert(covered(pl, live_slots(s0, *types, t)[u]));
                            let p = choose|p: int| 0 <= p < pl.len() && #[trigger] pl[p].0 == live_slots(s0, *types, t)[u];
                            assert(pairs@[p] == pl[p]);
                        }
                        assert forall|u: int| 0 <= u < jj + 1 implies #[trigger] pairs@[p0 + u].0 == live_slots(
                            s0,
                            *types,
                            i as int,
                        )[u] by {
                            if u < jj {
                                assert(pairs@[p0 + u] == pl[p0 + u]);
                            }
                        }
                    }
                },
                None => {
                    proof {
                        assert(false);
                    }
                },
            }
            jj = jj + 1;
        }
        proof {
            assert forall|t: int, u: int|
                0 <= t < i + 1 && 0 <= u < live_slots(s0, *types, t).len() implies #[trigger] covered(
                    pairs@,
                    live_slots(s0, *types, t)[u],
                ) by {
                if t == i {
                    assert(pairs@[p0 + u].0 == live_slots(s0, *types, i as int)[u]);
                }
            }
        }
        i = i + 1;
    }
    let mut m: usize = 0;
    while m < pairs.len()
        invariant
            s0.hs_wf(),
            same_place(s0, *seg),
            m <= pairs@.len(),
            forall|p: int| 0 <= p < pairs@.len() ==> #[trigger] fix_pair_ok(s0, *types, rel@, pairs@[p]),
            forall|j: int|
                0 <= j < s0.hs_words().len() ==> #[trigger] seg.hs_words()[j] == if exists|p: int|
                    0 <= p < m && s0.hs_index(#[trigger] pairs@[p].0 as int) == j {
                    relocated_ref(rel@, s0.hs_words()[j])
                } else {
                    s0.hs_words()[j]
                },
        decreases pairs@.len() - m,
    {
        let (a, nv) = pairs[m];
        let ghost before = *seg;
        proof {
            assert(fix_pair_ok(s0, *types, rel@, pairs@[m as int]));
        }
        seg.store_word(a, nv);
        proof {
            let ja = s0.hs_index(a as int);
            assert((a - s0.hs_base()) / 8 == ja) by (nonlinear_arith)
                requires
                    a == s0.hs_base() + 8 * ja,
            ;
            assert(seg.hs_words() == before.hs_words().update(ja, nv));
            assert forall|j: int| 0 <= j < s0.hs_words().len() implies #[trigger] seg.hs_words()[j] == if exists|p: int|
                0 <= p < m + 1 && s0.hs_index(#[trigger] pairs@[p].0 as int) == j {
                relocated_ref(rel@, s0.hs_words()[j])
            } else {
                s0.hs_words()[j]
            } by {
                if j == ja {
                    assert(s0.hs_index(pairs@[m as int].0 as int) == j);
                } else {
                    if exists|p: int| 0 <= p < m + 1 && s0.hs_index(#[trigger] pairs@[p].0 as int) == j {
                        let p = choose|p: int| 0 <= p < m + 1 && s0.hs_index(#[trigger] pairs@[p].0 as int) == j;
                        assert(p < m);
                    }
                }
            }
        }
        m = m + 1;
    }
    proof {
        let b = s0.hs_base();
        assert forall|j: int| 0 <= j < s0.hs_words().len() implies #[trigger] seg.hs_words()[j] == if s0.hs_is_slot(
            *types,
            b + 8 * j,
        ) {
            relocated_ref(rel@, s0.hs_words()[j])
        } else {
            s0.hs_words()[j]
        } by {
            if s0.hs_is_slot(*types, b + 8 * j) {
                let k = choose|k: int|
                    0 <= k < s0.hs_live(*types).len() && #[trigger] s0.hs_slots(*types, s0.hs_live(*types)[k] as usize).contains(
                        b + 8 * j,
                    );
                let sl = live_slots(s0, *types, k);
                let u = choose|u: int| 0 <= u < sl.len() && sl[u] == b + 8 * j;
                assert(covered(pairs@, live_slots(s0, *types, k)[u]));
                let p = choose|p: int| 0 <= p < pairs@.len() && #[trigger] pairs@[p].0 == live_slots(s0, *types, k)[u];
                assert(fix_pair_ok(s0, *types, rel@, pairs@[p]));
                assert(s0.hs_index(pairs@[p].0 as int) == j) by (nonlinear_arith)
                    requires
                        pairs@[p].0 == b + 8 * j,
                        pairs@[p].0 == b + 8 * s0.hs_index(pairs@[p].0 as int),
                ;
            } else {
                if exists|p: int| 0 <= p < pairs@.len() && s0.hs_index(#[trigger] pairs@[p].0 as int) == j {
                    let p = choose|p: int| 0 <= p < pairs@.len() && s0.hs_index(#[trigger] pairs@[p].0 as int) == j;
                    assert(fix_pair_ok(s0, *types, rel@, pairs@[p]));
                    assert(pairs@[p].0 == b + 8 * j);
                }
            }
        }
    }
}

/// Where the reference `v` points after compaction, the segments moved
/// from being `rel`.
fn relocate_in(rel: &Vec<HeapSegment>, v: usize) -> (r: usize)
    requires
        forall|k: int| 0 <= k < rel@.len() ==> #[trigger] rel@[k].hs_wf(),
    ensures
        r == relocated_ref(rel@, v),
{
    let mut k: usize = 0;
    while k < rel.len()
        invariant
            forall|k: int| 0 <= k < rel@.len() ==> #[trigger] rel@[k].hs_wf(),
            k <= rel@.len(),
            first_seg_from(rel@, v, k as int) == find_seg(rel@, v),
        decreases rel@.len() - k,
    {
        proof {
            assert(rel@[k as int].hs_wf());
        }
        if rel[k].contains(v) {
            if v < 8 {
                return v;
            }
            return match rel[k].load_word(v - 8) {
                Some(f) => f,
                None => v,
            };
        }
        k = k + 1;
    }
    v
}

/// Where a reference `v` points after compaction: where `v` points into a
/// moved-from segment, the address stored in the header word before it (the
/// address of the copy); otherwise `v` itself.
pub open spec fn relocated_ref(rel: Seq<HeapSegment>, v: usize) -> usize {
    let k = find_seg(rel, v);
    if k < rel.len() {
        match rel[k].hs_word_at(v - 8) {
            Some(f) => f,
            None => v,
        }
    } else {
        v
    }
}

/// The first moved-from segment, from `k` on, that has an object holding
/// the address `v`, with that object.
pub open spec fn first_found(rel: Seq<HeapSegment>, types: TypeTable, v: usize, k: int) -> Option<(int, int)>
    decreases rel.len() - k,
{
    if k >= rel.len() || k < 0 {
        None
    } else {
        match rel[k].hs_find(types, v) {
            Some(o) => Some((k, o)),
            None => first_found(rel, types, v, k + 1),
        }
    }
}

/// Where an interior reference `v` points after compaction: the same offset
/// into the copy of the moved object that holds it; otherwise `v` itself.
pub open spec fn relocated_interior(rel: Seq<HeapSegment>, types: TypeTable, v: usize) -> usize {
    match first_found(rel, types, v, 0) {
        Some((k, o)) => match rel[k].hs_word_at(o - 8) {
            Some(f) => if f + (v - o) <= usize::MAX && v >= o {
                (f + (v - o)) as usize
            } else {
                v
            },
            None => v,
        },
        None => v,
    }
}

/// The handle `g` with its references relocated.
pub open spec fn relocated_handle(rel: Seq<HeapSegment>, g: GcHandle) -> GcHandle {
    GcHandle {
        object: relocated_ref(rel, g.object),
        extra_or_secondary: if g.handle_type == HandleType::Dependent {
            relocated_ref(rel, g.extra_or_secondary)
        } else {
            g.extra_or_secondary
        },
        handle_type: g.handle_type,
    }
}

impl RustGc {
    /// Where the reference `v` points after compaction.
    pub fn fix_ref(&self, v: usize) -> (r: usize)
        requires
            self.wf(),
        ensures
            r == relocated_ref(self.rel(), v),
    {
        relocate_in(&self.relocated, v)
    }

    /// Where the interior reference `v` points after compaction.
    pub fn fix_ref_interior(&self, v: usize) -> (r: usize)
        requires
            self.wf(),
        ensures
            r == relocated_interior(self.rel(), self.spec_types(), v),
    {
        let mut k: usize = 0;
        while k < self.relocated.len()
            invariant
                self.wf(),
                k <= self.rel().len(),
                first_found(self.rel(), self.spec_types(), v, k as int) == first_found(
                    self.rel(),
                    self.spec_types(),
                    v,
                    0,
                ),
            decreases self.rel().len() - k,
        {
            proof {
                assert(self.rel()[k as int].hs_wf());
            }
            match self.relocated[k].find_object(&self.types, v) {
                Some(o) => {
                    if o < 8 {
                        assert(self.rel()[k as int].hs_word_at(o - 8) is None);
                        return v;
                    }
                    return match self.relocated[k].load_word(o - 8) {
                        Some(f) => {
                            if v >= o && v - o <= usize::MAX - f {
                                f + (v - o)
                            } else {
                                v
                            }
                        },
                        None => v,
                    };
                },
                None => {},
            }
            k = k + 1;
        }
        v
    }

    /// Where the root `r` points after compaction.
    pub fn fix_root(&self, r: RootRef) -> (v: usize)
        requires
            self.wf(),
        ensures
            v == (if r.interior {
                relocated_interior(self.rel(), self.spec_types(), r.value)
            } else {
                relocated_ref(self.rel(), r.value)
            }),
    {
        if r.interior {
            self.fix_ref_interior(r.value)
        } else {
            self.fix_ref(r.value)
        }
    }

    /// Relocates the references held by the handles in use (the object, and
    /// for a dependent handle the secondary object).
    pub fn fix_handle_references(&mut self)
        requires
            old(self).wf(),
        ensures
            final(self).wf(),
            final(self).spec_types() == old(self).spec_types(),
            final(self).segs() == old(self).segs(),
            final(self).queue() == old(self).queue(),
            final(self).rel() == old(self).rel(),
            forall|h: usize| #[trigger] final(self).handles().spec_contains(h) == old(self).handles().spec_contains(h),
            forall|h: usize|
                #[trigger] old(self).handles().spec_contains(h) ==> final(self).handles().spec_handle(h)
                    == relocated_handle(old(self).rel(), old(self).handles().spec_handle(h)),
    {
        let ghost gc0 = *self;
        let hs = self.handle_table.used_handles();
        let mut j: usize = 0;
        while j < hs.len()
            invariant
                gc0.wf(),
                self.wf(),
                self.spec_types() == gc0.spec_types(),
                self.segs() == gc0.segs(),
                self.queue() == gc0.queue(),
                self.rel() == gc0.rel(),
                j <= hs@.len(),
                forall|k: int| 0 <= k < hs@.len() ==> gc0.handles().spec_contains(#[trigger] hs@[k]),
                forall|h: usize| gc0.handles().spec_contains(h) ==> hs@.contains(h),
                forall|a: int, b: int| 0 <= a < b < hs@.len() ==> hs@[a] < hs@[b],
                forall|h: usize| #[trigger] self.handles().spec_contains(h) == gc0.handles().spec_contains(h),
                forall|k: int|
                    0 <= k < j ==> self.handles().spec_handle(#[trigger] hs@[k]) == relocated_handle(
                        gc0.rel(),
                        gc0.handles().spec_handle(hs@[k]),
                    ),
                forall|k: int|
                    j <= k < hs@.len() ==> self.handles().spec_handle(#[trigger] hs@[k]) == gc0.handles().spec_handle(
                        hs@[k],
                    ),
            decreases hs@.len() - j,
        {
            let h = hs[j];
            proof {
                assert(gc0.handles().spec_contains(hs@[j as int]));
                assert(self.handles().spec_contains(h));
            }
            let g = self.handle_table.get(h);
            let object = self.fix_ref(g.object);
            let extra = if g.handle_type == HandleType::Dependent {
                self.fix_ref(g.extra_or_secondary)
            } else {
                g.extra_or_secondary
            };
            self.handle_table.set(h, GcHandle { object, extra_or_secondary: extra, handle_type: g.handle_type });
            proof {
                assert forall|k: int|
                    0 <= k < j + 1 implies self.handles().spec_handle(#[trigger] hs@[k]) == relocated_handle(
                        gc0.rel(),
                        gc0.handles().spec_handle(hs@[k]),
                    ) by {
                    if k < j {
                        assert(hs@[k] != h);
                    }
                }
                assert forall|k: int|
                    j + 1 <= k < hs@.len() implies self.handles().spec_handle(#[trigger] hs@[k]) == gc0.handles().spec_handle(
                        hs@[k],
                    ) by {
                    assert(hs@[k] != h);
                }
            }
            j = j + 1;
        }
        proof {
            assert forall|h: usize|
                #[trigger] gc0.handles().spec_contains(h) implies self.handles().spec_handle(h) == relocated_handle(
                    gc0.rel(),
                    gc0.handles().spec_handle(h),
                ) by {
                assert(hs@.contains(h));
                let k = choose|k: int| 0 <= k < hs@.len() && hs@[k] == h;
            }
        }
    }

    /// Relocates the objects waiting in the finalization queue.
    pub fn fix_queue_references(&mut self)
        requires
            old(self).wf(),
        ensures
            final(self).wf(),
            final(self).spec_types() == old(self).spec_types(),
            final(self).segs() == old(self).segs(),
            final(self).handles() == old(self).handles(),
            final(self).rel() == old(self).rel(),
            final(self).queue().len() == old(self).queue().len(),
            forall|k: int|
                0 <= k < old(self).queue().len() ==> #[trigger] final(self).queue()[k] == relocated_ref(
                    old(self).rel(),
                    old(self).queue()[k],
                ),
    {
        let ghost gc0 = *self;
        let n = self.finalization_queue.len();
        let mut fixed: VecDeque<usize> = VecDeque::new();
        let mut i: usize = 0;
        while i < n
            invariant
                gc0.wf(),
                *self == gc0,
                n == gc0.queue().len(),
                i <= n,
                fixed@.len() == i,
                forall|k: int| 0 <= k < i ==> #[trigger] fixed@[k] == relocated_ref(gc0.rel(), gc0.queue()[k]),
            decreases n - i,
        {
            let v = self.fix_ref(self.finalization_queue[i]);
            fixed.push_back(v);
            i = i + 1;
        }
        self.finalization_queue = fixed;
    }
}

/// Whether `b` has segments of the same kinds at the same addresses as `a`,
/// with the same flag bits (the words may differ).
pub open spec fn same_places(a: Seq<HeapSegment>, b: Seq<HeapSegment>) -> bool {
    &&& a.len() == b.len()
    &&& forall|k: int|
        0 <= k < a.len() ==> {
            &&& (#[trigger] a[k]).is_small() == b[k].is_small()
            &&& a[k].hs_base() == b[k].hs_base()
            &&& a[k].hs_end() == b[k].hs_end()
            &&& a[k].hs_marks() == b[k].hs_marks()
            &&& a[k].hs_pendings() == b[k].hs_pendings()
        }
}

impl RustGc {
    /// Relocates the references held in the reference slots of every live
    /// object of the heap: exactly those words change, each to the relocated
    /// reference it held (see [`fixed_words`]).
    pub fn fix_heap_references(&mut self)
        requires
            old(self).wf(),
        ensures
            final(self).wf(),
            final(self).spec_types() == old(self).spec_types(),
            final(self).handles() == old(self).handles(),
            final(self).queue() == old(self).queue(),
            final(self).rel() == old(self).rel(),
            same_places(old(self).segs(), final(self).segs()),
            forall|k: int|
                0 <= k < old(self).segs().len() ==> fixed_words(
                    #[trigger] old(self).segs()[k],
                    final(self).segs()[k],
                    old(self).rel(),
                    old(self).spec_types(),
                ),
    {
        let ghost gc0 = *self;
        let mut k: usize = 0;
        while k < self.segments.len()
            invariant
                gc0.wf(),
                self.wf(),
                self.spec_types() == gc0.spec_types(),
                self.handles() == gc0.handles(),
                self.queue() == gc0.queue(),
                self.rel() == gc0.rel(),
                self.segs().len() == gc0.segs().len(),
                k <= self.segs().len(),
                forall|m: int| 0 <= m < self.segs().len() ==> same_place(gc0.segs()[m], #[trigger] self.segs()[m]),
                forall|m: int|
                    0 <= m < k ==> fixed_words(
                        gc0.segs()[m],
                        self.segs()[m],
                        gc0.rel(),
                        gc0.spec_types(),
                    ),
                forall|m: int| k <= m < self.segs().len() ==> #[trigger] self.segs()[m] == gc0.segs()[m],
            decreases self.segs().len() - k,
        {
            let ghost segs0 = self.segs();
            proof {
                assert(segs0[k as int].hs_wf());
            }
            let mut seg = self.segments.remove(k);
            fix_segment(&mut seg, &self.types, &self.relocated);
            self.segments.insert(k, seg);
            proof {
                assert(self.segs() == segs0.update(k as int, seg));
                lemma_replace_seg(segs0, k as int, seg);
                assert(seg.hs_end() == segs0[k as int].hs_end());
                assert forall|m: int| 0 <= m < self.segs().len() implies same_place(gc0.segs()[m], #[trigger] self.segs()[m]) by {
                    if m != k {
                        assert(self.segs()[m] == segs0[m]);
                    } else {
                        assert(segs0[m] == gc0.segs()[m]);
                    }
                }
                assert forall|m: int|
                    0 <= m < k + 1 implies fixed_words(
                        gc0.segs()[m],
                        self.segs()[m],
                        gc0.rel(),
                        gc0.spec_types(),
                    ) by {
                    if m != k {
                        assert(self.segs()[m] == segs0[m]);
                    }
                }
                assert forall|m: int| k + 1 <= m < self.segs().len() implies #[trigger] self.segs()[m] == gc0.segs()[m] by {
                    assert(self.segs()[m] == segs0[m]);
                }
            }
            k = k + 1;
        }
        proof {
            assert forall|m: int| 0 <= m < gc0.segs().len() implies {
                &&& (#[trigger] gc0.segs()[m]).is_small() == self.segs()[m].is_small()
                &&& gc0.segs()[m].hs_base() == self.segs()[m].hs_base()
                &&& gc0.segs()[m].hs_end() == self.segs()[m].hs_end()
                &&& gc0.segs()[m].hs_marks() == self.segs()[m].hs_marks()
                &&& gc0.segs()[m].hs_pendings() == self.segs()[m].hs_pendings()
            } by {
                assert(same_place(gc0.segs()[m], self.segs()[m]));
            }
        }
    }

    /// Ends a collection: clears every mark and pin bit (finalization-pending
    /// bits stay) and forgets the moved-from segments.
    pub fn finish_collection(&mut self)
        requires
            old(self).wf(),
        ensures
            final(self).wf(),
            final(self).spec_types() == old(self).spec_types(),
            final(self).handles() == old(self).handles(),
            final(self).queue() == old(self).queue(),
            final(self).rel().len() == 0,
            no_marks(final(self).segs()),
            final(self).segs().len() == old(self).segs().len(),
            forall|k: int|
                0 <= k < final(self).segs().len() ==> (#[trigger] final(self).segs()[k]).hs_words()
                    == old(self).segs()[k].hs_words() && final(self).segs()[k].hs_base() == old(self).segs()[k].hs_base()
                    && final(self).segs()[k].hs_pendings() == old(self).segs()[k].hs_pendings(),
            forall|k: int|
                0 <= k < final(self).segs().len() && (#[trigger] final(self).segs()[k]).is_small()
                    ==> !final(self).segs()[k].hs_pinned(),
    {
        let ghost gc0 = *self;
        let mut k: usize = 0;
        while k < self.segments.len()
            invariant
                gc0.wf(),
                self.wf(),
                self.spec_types() == gc0.spec_types(),
                self.handles() == gc0.handles(),
                self.queue() == gc0.queue(),
                self.rel() == gc0.rel(),
                self.segs().len() == gc0.segs().len(),
                k <= self.segs().len(),
                forall|m: int|
                    0 <= m < self.segs().len() ==> (#[trigger] self.segs()[m]).hs_words() == gc0.segs()[m].hs_words()
                        && self.segs()[m].hs_base() == gc0.segs()[m].hs_base() && self.segs()[m].hs_pendings()
                        == gc0.segs()[m].hs_pendings() && self.segs()[m].is_small() == gc0.segs()[m].is_small(),
                forall|m: int, i: int|
                    0 <= m < k && 0 <= i < self.segs()[m].hs_marks().len() ==> !#[trigger] self.segs()[m].hs_marks()[i],
                forall|m: int| 0 <= m < k && (#[trigger] self.segs()[m]).is_small() ==> !self.segs()[m].hs_pinned(),
            decreases self.segs().len() - k,
        {
            proof {
                assert(self.segs()[k as int].hs_wf());
            }
            let ghost segs0 = self.segs();
            let mut seg = self.segments.remove(k);
            seg.clear_flags();
            self.segments.insert(k, seg);
            proof {
                assert(self.segs() == segs0.update(k as int, seg));
                assert forall|j: int| 0 <= j < self.segs().len() implies #[trigger] self.segs()[j].hs_wf() by {
                    if j != k {
                        assert(self.segs()[j] == segs0[j]);
                    }
                }
                assert forall|j: int, m: int|
                    0 <= j < self.segs().len() && 0 <= m < self.segs().len() && j != m implies #[trigger] self.segs()[j].hs_end()
                        <= #[trigger] self.segs()[m].hs_base() || self.segs()[m].hs_end() <= self.segs()[j].hs_base() by {
                    assert(segs0[j].hs_end() <= segs0[m].hs_base() || segs0[m].hs_end() <= segs0[j].hs_base());
                }
                assert forall|m: int, i: int|
                    0 <= m < k + 1 && 0 <= i < self.segs()[m].hs_marks().len() implies !#[trigger] self.segs()[m].hs_marks()[i] by {
                    if m != k {
                        assert(self.segs()[m] == segs0[m]);
                    }
                }
                assert forall|m: int| 0 <= m < k + 1 && (#[trigger] self.segs()[m]).is_small() implies !self.segs()[m].hs_pinned() by {
                    if m != k {
                        assert(self.segs()[m] == segs0[m]);
                    }
                }
            }
            k = k + 1;
        }
        self.relocated = Vec::new();
    }
}

pub proof fn lemma_no_marks(segs: Seq<HeapSegment>, x: usize)
    requires
        no_marks(segs),
        forall|k: int| 0 <= k < segs.len() ==> #[trigger] segs[k].hs_wf(),
    ensures
        !heap_marked(segs, x),
{
    lemma_first_seg_from(segs, x, 0);
    if in_heap(segs, x) {
        let k = find_seg(segs, x);
        assert(segs[k].hs_wf());
        segs[k].lemma_mark_index(x);
        if let Some(i) = segs[k].hs_mark_index(x) {
            assert(!segs[k].hs_marks()[i]);
        }
    }
}

/// Whether `b` is `a` with only segment `k` replaced.
pub open spec fn segs_replaced_at(a: Seq<HeapSegment>, b: Seq<HeapSegment>, k: int) -> bool {
    &&& b.len() == a.len()
    &&& forall|j: int| 0 <= j < a.len() && j != k ==> #[trigger] b[j] == a[j]
}

/// Whether `or` is an object position of the heap whose header word lies in
/// the same segment.
pub open spec fn has_header(segs: Seq<HeapSegment>, or: usize) -> bool {
    &&& in_heap(segs, or)
    &&& segs[find_seg(segs, or)].hs_mark_index(or) is Some
    &&& or - 8 >= segs[find_seg(segs, or)].hs_base()
}

/// Whether `s1` is `s0` with the finalizer-run bit in the header of the
/// object at `or` set to `run` and, where `pending` is given, its pending
/// flag set to it.
pub open spec fn finalization_updated(s0: HeapSegment, s1: HeapSegment, or: usize, run: bool, pending: Option<bool>) -> bool {
    let w = (or - 8 - s0.hs_base()) / 8;
    &&& s1.hs_wf()
    &&& s1.is_small() == s0.is_small()
    &&& s1.hs_base() == s0.hs_base()
    &&& s1.hs_marks() == s0.hs_marks()
    &&& s1.hs_words() == s0.hs_words().update(w, header_with_finalizer_run(s0.hs_words()[w], run))
    &&& s1.hs_pendings() == match pending {
        Some(p) => s0.hs_pendings().update(s0.hs_mark_index(or).unwrap(), p),
        None => s0.hs_pendings(),
    }
    &&& forall|x: usize| #[trigger] s1.hs_mark_index(x) == s0.hs_mark_index(x)
    &&& forall|x: usize| #[trigger] s1.hs_contains(x) == s0.hs_contains(x)
}

/// Replacing a segment by one over the same addresses keeps the segments
/// well formed and apart.
pub proof fn lemma_replace_seg(segs: Seq<HeapSegment>, k: int, s: HeapSegment)
    requires
        0 <= k < segs.len(),
        forall|j: int| 0 <= j < segs.len() ==> #[trigger] segs[j].hs_wf(),
        segs_disjoint(segs),
        s.hs_wf(),
        s.hs_base() == segs[k].hs_base(),
        s.hs_words().len() == segs[k].hs_words().len(),
    ensures
        forall|j: int| 0 <= j < segs.len() ==> #[trigger] segs.update(k, s)[j].hs_wf(),
        segs_disjoint(segs.update(k, s)),
{
    let t = segs.update(k, s);
    assert forall|j: int| 0 <= j < segs.len() implies #[trigger] t[j].hs_wf() by {
        if j != k {
            assert(t[j] == segs[j]);
        }
    }
    assert forall|j: int, m: int|
        0 <= j < t.len() && 0 <= m < t.len() && j != m implies #[trigger] t[j].hs_end() <= #[trigger] t[m].hs_base()
            || t[m].hs_end() <= t[j].hs_base() by {
        assert(segs[j].hs_end() <= segs[m].hs_base() || segs[m].hs_end() <= segs[j].hs_base());
    }
}

/// Replacing a segment by one that contains the same addresses keeps the
/// first segment that contains each address.
pub proof fn lemma_replace_same_find(segs: Seq<HeapSegment>, k: int, s: HeapSegment, x: usize)
    requires
        0 <= k < segs.len(),
        forall|y: usize| #[trigger] s.hs_contains(y) == segs[k].hs_contains(y),
    ensures
        find_seg(segs.update(k, s), x) == find_seg(segs, x),
{
    lemma_replace_first_from(segs, k, s, x, 0);
}

proof fn lemma_replace_first_from(segs: Seq<HeapSegment>, k: int, s: HeapSegment, x: usize, i: int)
    requires
        0 <= k < segs.len(),
        0 <= i,
        forall|y: usize| #[trigger] s.hs_contains(y) == segs[k].hs_contains(y),
    ensures
        first_seg_from(segs.update(k, s), x, i) == first_seg_from(segs, x, i),
    decreases segs.len() - i,
{
    if i < segs.len() {
        assert(segs.update(k, s)[i].hs_contains(x) == segs[i].hs_contains(x));
        lemma_replace_first_from(segs, k, s, x, i + 1);
    }
}

impl RustGc {
    /// Takes the first object of the finalization queue, for the finalizer
    /// thread, which keeps it alive from then on.
    pub fn pop_finalizable(&mut self) -> (r: Option<usize>)
        requires
            old(self).wf(),
        ensures
            final(self).wf(),
            final(self).spec_types() == old(self).spec_types(),
            final(self).handles() == old(self).handles(),
            final(self).segs() == old(self).segs(),
            final(self).rel() == old(self).rel(),
            old(self).queue().len() == 0 ==> r is None && final(self).queue() == old(self).queue(),
            old(self).queue().len() > 0 ==> r == Some(old(self).queue()[0]) && final(self).queue()
                == old(self).queue().subrange(1, old(self).queue().len() as int),
    {
        self.finalization_queue.pop_front()
    }

    /// Sets the finalizer-run bit of the object at `or` to `run` and, where
    /// `pending` is given, its pending flag, in the first segment holding it.
    fn update_finalization(&mut self, or: usize, run: bool, pending: Option<bool>) -> (r: bool)
        requires
            old(self).wf(),
        ensures
            final(self).wf(),
            final(self).spec_types() == old(self).spec_types(),
            final(self).handles() == old(self).handles(),
            final(self).queue() == old(self).queue(),
            final(self).rel() == old(self).rel(),
            r == has_header(old(self).segs(), or),
            !r ==> final(self).segs() == old(self).segs(),
            r ==> segs_replaced_at(old(self).segs(), final(self).segs(), find_seg(old(self).segs(), or)),
            r ==> finalization_updated(
                old(self).segs()[find_seg(old(self).segs(), or)],
                final(self).segs()[find_seg(old(self).segs(), or)],
                or,
                run,
                pending,
            ),
    {
        match self.find_segment(or) {
            None => false,
            Some(k) => {
                let ghost segs0 = self.segs();
                proof {
                    assert(segs0[k as int].hs_wf());
                }
                let indexed = self.segments[k].is_marked(or).is_ok();
                if !indexed || or < 8 || or - 8 < self.segments[k].base() {
                    return false;
                }
                let mut seg = self.segments.remove(k);
                let ghost s0 = seg;
                let done = seg.set_finalizer_run(or, run);
                let ghost s1 = seg;
                match pending {
                    Some(p) => {
                        let _ = seg.set_finalization_pending(or, p);
                    },
                    None => {},
                }
                self.segments.insert(k, seg);
                proof {
                    assert(done);
                    assert(self.segs() == segs0.update(k as int, seg));
                    lemma_replace_seg(segs0, k as int, seg);
                    assert(seg.hs_words() == s1.hs_words());
                }
                true
            },
        }
    }

    /// Registers the object at `or` for finalization again: clears the
    /// finalizer-run bit in its header and its pending flag, in the first
    /// segment that holds it. Returns whether a segment holds `or` with a
    /// header word before it; nothing changes otherwise.
    pub fn reregister_finalization(&mut self, or: usize) -> (r: bool)
        requires
            old(self).wf(),
        ensures
            final(self).wf(),
            final(self).spec_types() == old(self).spec_types(),
            final(self).handles() == old(self).handles(),
            final(self).queue() == old(self).queue(),
            final(self).rel() == old(self).rel(),
            r == has_header(old(self).segs(), or),
            !r ==> final(self).segs() == old(self).segs(),
            r ==> segs_replaced_at(old(self).segs(), final(self).segs(), find_seg(old(self).segs(), or)),
            r ==> finalization_updated(
                old(self).segs()[find_seg(old(self).segs(), or)],
                final(self).segs()[find_seg(old(self).segs(), or)],
                or,
                false,
                Some(false),
            ),
    {
        self.update_finalization(or, false, Some(false))
    }

    /// Records that the finalizer of the object at `or` has run (or need not
    /// run): sets the finalizer-run bit in its header. Returns whether a
    /// segment holds `or` with a header word before it; nothing changes
    /// otherwise.
    pub fn set_finalization_run(&mut self, or: usize) -> (r: bool)
        requires
            old(self).wf(),
        ensures
            final(self).wf(),
            final(self).spec_types() == old(self).spec_types(),
            final(self).handles() == old(self).handles(),
            final(self).queue() == old(self).queue(),
            final(self).rel() == old(self).rel(),
            r == has_header(old(self).segs(), or),
            !r ==> final(self).segs() == old(self).segs(),
            r ==> segs_replaced_at(old(self).segs(), final(self).segs(), find_seg(old(self).segs(), or)),
            r ==> finalization_updated(
                old(self).segs()[find_seg(old(self).segs(), or)],
                final(self).segs()[find_seg(old(self).segs(), or)],
                or,
                true,
                None,
            ),
    {
        self.update_finalization(or, true, None)
    }
}


/// The objects that a heap with the children of `a` and of `b` equal
/// reaches from the same seeds are the same.
pub proof fn lemma_reach_same(
    a: Seq<HeapSegment>,
    b: Seq<HeapSegment>,
    types: TypeTable,
    handles: HandleTable,
    seeds: Set<usize>,
    x: usize,
)
    requires
        forall|y: usize| #[trigger] children(a, types, y) == children(b, types, y),
        reachable(a, types, handles, seeds, x),
    ensures
        reachable(b, types, handles, seeds, x),
{
    let path = choose|path: Seq<usize>| #[trigger] mark_path(a, types, handles, seeds, path) && path.last() == x;
    assert forall|k: int| 0 < k < path.len() implies #[trigger] path_step(b, types, handles, path, k) by {
        assert(path_step(a, types, handles, path, k));
        assert(children(a, types, path[k - 1]) == children(b, types, path[k - 1]));
    }
    assert(mark_path(b, types, handles, seeds, path));
}

/// What marking for finalization starts from: the objects already marked,
/// the objects eligible for finalization, and the secondary objects of
/// dependent handles whose primary object is outside the heap.
pub open spec fn finalization_seeds(segs: Seq<HeapSegment>, types: TypeTable, handles: HandleTable) -> Set<usize> {
    Set::new(
        |x: usize|
            heap_marked(segs, x) || finalization_candidates(segs, types).contains(x) || exists|h: usize|
                #[trigger] handles.spec_contains(h) && handles.spec_handle(h).handle_type == HandleType::Dependent
                    && handles.spec_handle(h).object != 0 && !in_heap(segs, handles.spec_handle(h).object)
                    && handles.spec_handle(h).extra_or_secondary == x,
    )
}

/// Whether `b` holds the same handles as `a`, `h` aside.
pub open spec fn handles_kept_except(a: HandleTable, b: HandleTable, h: usize) -> bool {
    forall|g: usize|
        g != h ==> (#[trigger] b.spec_contains(g) == a.spec_contains(g)) && (a.spec_contains(g)
            ==> b.spec_handle(g) == a.spec_handle(g))
}

/// The handle `g` with its object replaced by `object`.
pub open spec fn with_object(g: GcHandle, object: usize) -> GcHandle {
    GcHandle { object, extra_or_secondary: g.extra_or_secondary, handle_type: g.handle_type }
}

/// The handle `g` with its extra information replaced by `extra`.
pub open spec fn with_extra(g: GcHandle, extra: usize) -> GcHandle {
    GcHandle { object: g.object, extra_or_secondary: extra, handle_type: g.handle_type }
}

impl RustGc {
    /// Whether `h` is a handle in use.
    pub fn contains_handle(&self, h: usize) -> (r: bool)
        requires
            self.wf(),
        ensures
            r == self.handles().spec_contains(h),
    {
        self.handle_table.contains(h)
    }

    /// Creates a handle of type `t` to `object`, with extra information (for
    /// a dependent handle, the secondary object) `extra`. `None` only where
    /// every slot is in use and no segment of slots can be added.
    pub fn create_handle(&mut self, object: usize, extra: usize, t: HandleType) -> (r: Option<usize>)
        requires
            old(self).wf(),
        ensures
            final(self).wf(),
            final(self).spec_types() == old(self).spec_types(),
            final(self).segs() == old(self).segs(),
            final(self).queue() == old(self).queue(),
            final(self).rel() == old(self).rel(),
            r matches Some(h) ==> {
                &&& !old(self).handles().spec_contains(h)
                &&& final(self).handles().spec_contains(h)
                &&& final(self).handles().spec_handle(h) == (GcHandle { object, extra_or_secondary: extra, handle_type: t })
                &&& handles_kept_except(old(self).handles(), final(self).handles(), h)
                &&& forall|g: usize|
                    #[trigger] old(self).handles().in_range(g) && g < h ==> old(self).handles().spec_contains(g)
            },
            r is None ==> final(self).handles() == old(self).handles(),
            r is None ==> forall|g: usize|
                #[trigger] old(self).handles().in_range(g) ==> old(self).handles().spec_contains(g),
    {
        match self.handle_table.create_new() {
            None => None,
            Some(h) => {
                self.handle_table.set(h, GcHandle { object, extra_or_secondary: extra, handle_type: t });
                Some(h)
            },
        }
    }

    /// Creates a handle that holds what the handle `h` holds.
    pub fn duplicate_handle(&mut self, h: usize) -> (r: Option<usize>)
        requires
            old(self).wf(),
            old(self).handles().spec_contains(h),
        ensures
            final(self).wf(),
            final(self).spec_types() == old(self).spec_types(),
            final(self).segs() == old(self).segs(),
            final(self).queue() == old(self).queue(),
            final(self).rel() == old(self).rel(),
            r matches Some(d) ==> {
                &&& !old(self).handles().spec_contains(d)
                &&& final(self).handles().spec_contains(d)
                &&& final(self).handles().spec_handle(d) == old(self).handles().spec_handle(h)
                &&& handles_kept_except(old(self).handles(), final(self).handles(), d)
            },
            r is None ==> final(self).handles() == old(self).handles(),
            r is None ==> forall|g: usize|
                #[trigger] old(self).handles().in_range(g) ==> old(self).handles().spec_contains(g),
    {
        let g = self.handle_table.get(h);
        self.create_handle(g.object, g.extra_or_secondary, g.handle_type)
    }

    /// Frees the handle `h`; an error where `h` names no slot of the table.
    pub fn destroy_handle(&mut self, h: usize) -> (r: Result<(), ()>)
        requires
            old(self).wf(),
        ensures
            final(self).wf(),
            final(self).spec_types() == old(self).spec_types(),
            final(self).segs() == old(self).segs(),
            final(self).queue() == old(self).queue(),
            final(self).rel() == old(self).rel(),
            r is Ok <==> old(self).handles().in_range(h),
            r is Ok ==> !final(self).handles().spec_contains(h),
            handles_kept_except(old(self).handles(), final(self).handles(), h),
            r is Err ==> final(self).handles() == old(self).handles(),
    {
        self.handle_table.remove(h)
    }

    /// The extra information of the handle `h` (for a dependent handle, its
    /// secondary object).
    pub fn get_extra_info(&self, h: usize) -> (r: usize)
        requires
            self.wf(),
            self.handles().spec_contains(h),
        ensures
            r == self.handles().spec_handle(h).extra_or_secondary,
    {
        self.handle_table.get(h).extra_or_secondary
    }

    /// Sets the extra information of the handle `h` (for a dependent handle,
    /// its secondary object).
    pub fn set_extra_info(&mut self, h: usize, extra: usize)
        requires
            old(self).wf(),
            old(self).handles().spec_contains(h),
        ensures
            final(self).wf(),
            final(self).spec_types() == old(self).spec_types(),
            final(self).segs() == old(self).segs(),
            final(self).queue() == old(self).queue(),
            final(self).rel() == old(self).rel(),
            final(self).handles().spec_contains(h),
            final(self).handles().spec_handle(h) == with_extra(old(self).handles().spec_handle(h), extra),
            handles_kept_except(old(self).handles(), final(self).handles(), h),
    {
        let g = self.handle_table.get(h);
        self.handle_table.set(h, GcHandle { object: g.object, extra_or_secondary: extra, handle_type: g.handle_type });
    }

    /// The object of the handle `h`.
    pub fn handle_object(&self, h: usize) -> (r: usize)
        requires
            self.wf(),
            self.handles().spec_contains(h),
        ensures
            r == self.handles().spec_handle(h).object,
    {
        self.handle_table.get(h).object
    }

    /// The type of the handle `h`.
    pub fn handle_fetch_type(&self, h: usize) -> (r: HandleType)
        requires
            self.wf(),
            self.handles().spec_contains(h),
        ensures
            r == self.handles().spec_handle(h).handle_type,
    {
        self.handle_table.get(h).handle_type
    }

    /// Stores `object` in the handle `h`.
    pub fn store_object_in_handle(&mut self, h: usize, object: usize)
        requires
            old(self).wf(),
            old(self).handles().spec_contains(h),
        ensures
            final(self).wf(),
            final(self).spec_types() == old(self).spec_types(),
            final(self).segs() == old(self).segs(),
            final(self).queue() == old(self).queue(),
            final(self).rel() == old(self).rel(),
            final(self).handles().spec_contains(h),
            final(self).handles().spec_handle(h) == with_object(old(self).handles().spec_handle(h), object),
            handles_kept_except(old(self).handles(), final(self).handles(), h),
    {
        let g = self.handle_table.get(h);
        self.handle_table.set(h, GcHandle { object, extra_or_secondary: g.extra_or_secondary, handle_type: g.handle_type });
    }

    /// Stores `object` in the handle `h` where it holds null; otherwise the
    /// handle stays as it is.
    pub fn store_object_in_handle_if_null(&mut self, h: usize, object: usize)
        requires
            old(self).wf(),
            old(self).handles().spec_contains(h),
        ensures
            final(self).wf(),
            final(self).spec_types() == old(self).spec_types(),
            final(self).segs() == old(self).segs(),
            final(self).queue() == old(self).queue(),
            final(self).rel() == old(self).rel(),
            old(self).handles().spec_handle(h).object == 0 ==> final(self).handles().spec_contains(h)
                && final(self).handles().spec_handle(h) == with_object(old(self).handles().spec_handle(h), object)
                && handles_kept_except(old(self).handles(), final(self).handles(), h),
            old(self).handles().spec_handle(h).object != 0 ==> final(self).handles() == old(self).handles(),
    {
        self.compare_exchange_object_in_handle(h, object, 0);
    }

    /// Stores `object` in the handle `h` where it holds `comparand`, and
    /// returns what the handle held before.
    pub fn compare_exchange_object_in_handle(&mut self, h: usize, object: usize, comparand: usize) -> (r: usize)
        requires
            old(self).wf(),
            old(self).handles().spec_contains(h),
        ensures
            final(self).wf(),
            final(self).spec_types() == old(self).spec_types(),
            final(self).segs() == old(self).segs(),
            final(self).queue() == old(self).queue(),
            final(self).rel() == old(self).rel(),
            r == old(self).handles().spec_handle(h).object,
            r == comparand ==> final(self).handles().spec_contains(h) && final(self).handles().spec_handle(h)
                == with_object(old(self).handles().spec_handle(h), object) && handles_kept_except(
                old(self).handles(),
                final(self).handles(),
                h,
            ),
            r != comparand ==> final(self).handles() == old(self).handles(),
    {
        let g = self.handle_table.get(h);
        if g.object == comparand {
            self.handle_table.set(h, GcHandle { object, extra_or_secondary: g.extra_or_secondary, handle_type: g.handle_type });
        }
        g.object
    }
}


/// The method table address at which the walk of `seg` stops because no
/// type is known there, if it stops for that reason.
pub open spec fn unknown_type_at(seg: HeapSegment, types: TypeTable) -> Option<usize> {
    let w = seg.hs_words();
    let e = match seg {
        HeapSegment::Small(s) => walk_end(types, s.words(), 1),
        HeapSegment::Large(_) => 1,
    };
    if 0 <= e < w.len() && w[e] != 0 && !types.has_type(w[e]) {
        Some(w[e])
    } else {
        None
    }
}

impl RustGc {
    /// Whether the walk over every small-object segment ends at a null method
    /// table pointer or at the segment's end (see [`walkable`]): no object of
    /// an unknown type and none running past its segment's end.
    pub fn heap_walkable(&self) -> (r: bool)
        requires
            self.wf(),
        ensures
            r == forall|k: int|
                0 <= k < self.segs().len() && (#[trigger] self.segs()[k]).is_small() ==> walkable(
                    self.spec_types(),
                    self.segs()[k].hs_words(),
                ),
    {
        let mut k: usize = 0;
        while k < self.segments.len()
            invariant
                self.wf(),
                k <= self.segs().len(),
                forall|j: int|
                    0 <= j < k && (#[trigger] self.segs()[j]).is_small() ==> walkable(
                        self.spec_types(),
                        self.segs()[j].hs_words(),
                    ),
            decreases self.segs().len() - k,
        {
            proof {
                assert(self.segs()[k as int].hs_wf());
            }
            if let HeapSegment::Small(s) = &self.segments[k] {
                if !s.is_walkable(&self.types) {
                    return false;
                }
            }
            k = k + 1;
        }
        true
    }

    /// The first method table address, in heap order, at which the walk over
    /// a segment stops because its type is not known: the runtime's type
    /// there must be registered before the objects past it can be read.
    pub fn first_unknown_type(&self) -> (r: Option<usize>)
        requires
            self.wf(),
        ensures
            r matches Some(a) ==> a != 0 && !self.spec_types().has_type(a) && exists|k: int|
                0 <= k < self.segs().len() && #[trigger] unknown_type_at(self.segs()[k], self.spec_types()) == Some(a),
            r is None ==> forall|k: int|
                0 <= k < self.segs().len() ==> #[trigger] unknown_type_at(self.segs()[k], self.spec_types()) is None,
    {
        let mut k: usize = 0;
        while k < self.segments.len()
            invariant
                self.wf(),
                k <= self.segs().len(),
                forall|j: int| 0 <= j < k ==> #[trigger] unknown_type_at(self.segs()[j], self.spec_types()) is None,
            decreases self.segs().len() - k,
        {
            proof {
                assert(self.segs()[k as int].hs_wf());
            }
            let (e, len) = match &self.segments[k] {
                HeapSegment::Small(s) => (s.walk_stop(&self.types), POINTER_SIZE),
                HeapSegment::Large(l) => (1, l.data().len()),
            };
            if e < len {
                let a = match &self.segments[k] {
                    HeapSegment::Small(s) => s.data()[e],
                    HeapSegment::Large(l) => l.data()[e],
                };
                if a != 0 && self.types.method_table(a).is_none() {
                    proof {
                        assert(unknown_type_at(self.segs()[k as int], self.spec_types()) == Some(a));
                    }
                    return Some(a);
                }
            }
            k = k + 1;
        }
        None
    }

    /// Records the runtime's type `entry`; refused (nothing changes) where
    /// the entry is not valid or a type is known at its address already.
    pub fn register_type(&mut self, entry: TypeEntry) -> (r: bool)
        requires
            old(self).wf(),
        ensures
            final(self).wf(),
            final(self).handles() == old(self).handles(),
            final(self).segs() == old(self).segs(),
            final(self).queue() == old(self).queue(),
            final(self).rel() == old(self).rel(),
            r == (is_valid_entry(entry) && !old(self).spec_types().has_type(entry.address)),
            r ==> final(self).spec_types().has_type(entry.address) && final(self).spec_types().mt_of(entry.address)
                == entry.method_table && final(self).spec_types().desc_of(entry.address) == entry.gc_desc,
            r ==> forall|a: usize|
                #[trigger] old(self).spec_types().has_type(a) ==> type_kept(old(self).spec_types(), final(self).spec_types(), a),
            !r ==> final(self).spec_types() == old(self).spec_types(),
    {
        self.types.register(entry)
    }
}

/// The word at address `a` of the heap, where it is a word of the first
/// segment that contains `a`.
pub open spec fn heap_word(segs: Seq<HeapSegment>, a: usize) -> Option<usize> {
    if in_heap(segs, a) {
        segs[find_seg(segs, a)].hs_word_at(a as int)
    } else {
        None
    }
}

impl RustGc {
    /// The segments of the heap.
    /// Whether no object of the heap is marked, as a collection needs it
    /// before marking.
    pub fn marks_clear(&self) -> (r: bool)
        requires
            self.wf(),
        ensures
            r == no_marks(self.segs()),
    {
        let mut k: usize = 0;
        while k < self.segments.len()
            invariant
                self.wf(),
                k <= self.segs().len(),
                forall|j: int, i: int|
                    0 <= j < k && 0 <= i < self.segs()[j].hs_marks().len() ==> !#[trigger] self.segs()[j].hs_marks()[i],
            decreases self.segs().len() - k,
        {
            proof {
                assert(self.segs()[k as int].hs_wf());
            }
            if self.segments[k].contains_marked() {
                proof {
                    let i = choose|i: int| 0 <= i < self.segs()[k as int].hs_marks().len()
                        && self.segs()[k as int].hs_marks()[i] == true;
                    assert(self.segs()[k as int].hs_marks()[i]);
                }
                return false;
            }
            proof {
                assert forall|i: int| 0 <= i < self.segs()[k as int].hs_marks().len() implies !#[trigger] self.segs()[k as int].hs_marks()[i] by {
                    if self.segs()[k as int].hs_marks()[i] {
                        assert(self.segs()[k as int].hs_marks().contains(true));
                    }
                }
            }
            k = k + 1;
        }
        true
    }

    /// The number of segments that compaction moved from and that are kept
    /// aside until the collection ends.
    pub fn relocated_count(&self) -> (r: usize)
        ensures
            r == self.rel().len(),
    {
        self.relocated.len()
    }

    pub fn segments(&self) -> (r: &Vec<HeapSegment>)
        ensures
            r@ == self.segs(),
    {
        &self.segments
    }

    /// The known types.
    pub fn types(&self) -> (r: &TypeTable)
        ensures
            *r == self.spec_types(),
    {
        &self.types
    }

    /// The number of objects waiting for their finalizer.
    pub fn finalization_queue_len(&self) -> (r: usize)
        ensures
            r == self.queue().len(),
    {
        self.finalization_queue.len()
    }

    /// The word at address `a` of the heap.
    pub fn read_word(&self, a: usize) -> (r: Option<usize>)
        requires
            self.wf(),
        ensures
            r == heap_word(self.segs(), a),
    {
        match self.find_segment(a) {
            None => None,
            Some(k) => {
                proof {
                    assert(self.segs()[k as int].hs_wf());
                }
                self.segments[k].load_word(a)
            },
        }
    }

    /// Stores `value` at address `a` of the heap, as the runtime does when
    /// it fills in an object; returns whether `a` is a word of the heap.
    pub fn write_word(&mut self, a: usize, value: usize) -> (r: bool)
        requires
            old(self).wf(),
        ensures
            final(self).wf(),
            final(self).spec_types() == old(self).spec_types(),
            final(self).handles() == old(self).handles(),
            final(self).queue() == old(self).queue(),
            final(self).rel() == old(self).rel(),
            r == heap_word(old(self).segs(), a) is Some,
            !r ==> final(self).segs() == old(self).segs(),
            r ==> segs_replaced_at(old(self).segs(), final(self).segs(), find_seg(old(self).segs(), a)),
            r ==> {
                let k = find_seg(old(self).segs(), a);
                let s0 = old(self).segs()[k];
                let s1 = final(self).segs()[k];
                &&& s1.is_small() == s0.is_small()
                &&& s1.hs_base() == s0.hs_base()
                &&& s1.hs_marks() == s0.hs_marks()
                &&& s1.hs_pendings() == s0.hs_pendings()
                &&& s1.hs_words() == s0.hs_words().update((a - s0.hs_base()) / 8, value)
            },
            forall|x: usize| #[trigger] heap_word(final(self).segs(), x) == if r && x == a {
                Some(value)
            } else {
                heap_word(old(self).segs(), x)
            },
    {
        match self.find_segment(a) {
            None => false,
            Some(k) => {
                let ghost segs0 = self.segs();
                proof {
                    assert(segs0[k as int].hs_wf());
                }
                if self.segments[k].load_word(a).is_none() {
                    return false;
                }
                let mut seg = self.segments.remove(k);
                let done = seg.store_word(a, value);
                self.segments.insert(k, seg);
                proof {
                    assert(done);
                    assert(self.segs() == segs0.update(k as int, seg));
                    lemma_replace_seg(segs0, k as int, seg);
                    let s0 = segs0[k as int];
                    let b = s0.hs_base();
                    assert(seg.hs_end() == s0.hs_end());
                    assert forall|x: usize| #[trigger] heap_word(self.segs(), x) == if x == a {
                        Some(value)
                    } else {
                        heap_word(segs0, x)
                    } by {
                        lemma_replace_same_find(segs0, k as int, seg, x);
                        lemma_first_seg_from(segs0, x, 0);
                        if in_heap(segs0, x) && find_seg(segs0, x) == k {
                            assert(self.segs()[k as int] == seg);
                            if b <= x < s0.hs_end() && (x - b) % 8 == 0 {
                                if x != a {
                                    assert((x - b) / 8 != (a - b) / 8) by (nonlinear_arith)
                                        requires
                                            (x - b) % 8 == 0,
                                            (a - b) % 8 == 0,
                                            x != a,
                                    ;
                                }
                            }
                        } else if in_heap(segs0, x) {
                            assert(self.segs()[find_seg(segs0, x)] == segs0[find_seg(segs0, x)]);
                        }
                    }
                }
                done
            },
        }
    }
}

} // verus!
