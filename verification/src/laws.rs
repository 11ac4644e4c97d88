use vstd::prelude::*;
use crate::gc::{
    first_found, rel_ok, relocated_interior,
    candidates_upto, finalization_candidates, heap_pending, is_alloc_limit, lemma_find_seg_disjoint,
    not_pending_at, seg_candidates, segs_disjoint, unmarked_at, find_seg,
    children, compactable, compaction_done, dependent_ok, fixed_words, has_copy, heap_marked, in_heap, is_root_seed,
    lemma_grow_same, mark_edge, mark_path, markable, marked_from_roots, outside_dependent_ok, path_step,
    relocated_ref, root_kept, root_seeds, root_target, seg_stays, seg_sweep_result, small, swept_heap, RootRef,
};
use crate::handle_table::HandleTable;
use crate::objects::{
    has_flag, ref_offsets, series_field_count, series_refs, GcDesc, GcDescSeries, HandleType, Object, HAS_GC_POINTERS,
};
use crate::heap_segment::HeapSegment;
use crate::segment::{
    alive_from, kept_from, lemma_alive_from, lemma_live_from_range, lemma_object_words, lemma_view_stable, live_from,
    object_words, readable, view_kept, walk_end, find_from, object_view, Segment,
};
use crate::type_table::TypeTable;

verus! {

proof fn lemma_kept_marked(types: TypeTable, data: Seq<usize>, marks: Seq<bool>, i: int, x: int)
    requires
        types.wf(),
        1 <= i,
        live_from(types, data, i).contains(x),
        marks[x],
    ensures
        kept_from(types, data, marks, i).contains(x),
        alive_from(types, data, marks, i) > 0,
    decreases data.len() + 1 - i,
{
    if readable(types, data, i) {
        let w = object_words(types, data, i);
        let l = live_from(types, data, i);
        let rest = live_from(types, data, i + w);
        let kr = kept_from(types, data, marks, i + w);
        let kl = kept_from(types, data, marks, i);
        lemma_alive_from(types, data, marks, i + w);
        if x == i {
            assert(data[i] != types.spec_free_mt()) by {
                if data[i] == types.spec_free_mt() {
                    lemma_live_from_range(types, data, i + w);
                    let k = choose|k: int| 0 <= k < l.len() && l[k] == x;
                    assert(rest[k] == x);
                }
            }
            assert(kl == seq![i] + kr);
            assert(kl[0] == x);
        } else {
            assert(rest.contains(x)) by {
                let k = choose|k: int| 0 <= k < l.len() && l[k] == x;
                if data[i] != types.spec_free_mt() {
                    assert(l == seq![i] + rest);
                    assert(rest[k - 1] == x);
                } else {
                    assert(rest[k] == x);
                }
            }
            lemma_kept_marked(types, data, marks, i + w, x);
            let k2 = choose|k: int| 0 <= k < kr.len() && kr[k] == x;
            if marks[i] && data[i] != types.spec_free_mt() {
                assert(kl == seq![i] + kr);
                assert(kl[k2 + 1] == x);
            } else {
                assert(kl == kr);
            }
        }
    }
}

/// A sweep keeps every marked live object: in the swept heap, the segment
/// that held it is still there and the object is still one of its live
/// objects, at the same address.
pub proof fn law_sweep_keeps_marked(
    before: Seq<HeapSegment>,
    after: Seq<HeapSegment>,
    in_use: Seq<bool>,
    types: TypeTable,
    limits: Seq<usize>,
    idx: Seq<int>,
    m: int,
    k: int,
)
    requires
        types.wf(),
        swept_heap(before, after, in_use, types, limits, idx),
        0 <= m < before.len(),
        before[m].hs_wf(),
        0 <= k < before[m].hs_live(types).len(),
        before[m].hs_marked(before[m].hs_live(types)[k] as usize),
    ensures
        exists|j: int|
            0 <= j < after.len() && idx[j] == m && #[trigger] after[j].hs_live(types).contains(
                before[m].hs_live(types)[k],
            ),
{
    let seg = before[m];
    let x = seg.hs_live(types)[k];
    match seg {
        HeapSegment::Small(s) => {
            lemma_live_from_range(types, s.words(), 1);
            let i = s.live_objects(types)[k];
            assert(x == s.addr(i));
            assert((s.addr(i) - s.spec_base()) / 8 == i) by (nonlinear_arith)
                requires
                    s.addr(i) == s.spec_base() + 8 * i,
            ;
            assert(s.word_index(x as usize) == Some(i));
            assert(s.marks()[i]);
            assert(s.live_objects(types).contains(i));
            lemma_kept_marked(types, s.words(), s.marks(), 1, i);
            assert(seg.hs_survives(types));
        },
        HeapSegment::Large(l) => {
            assert(seg.hs_survives(types));
        },
    }
    assert(seg_stays(before[m], types, limits));
    assert(idx.contains(m));
    let j = choose|j: int| 0 <= j < idx.len() && idx[j] == m;
    assert(seg_sweep_result(before[m], after[j], in_use[j], types));
    if !in_use[j] {
        match seg {
            HeapSegment::Small(s) => {
                let i = s.live_objects(types)[k];
                let a = small(after[j]);
                assert(a.live_objects(types) == kept_from(types, s.words(), s.marks(), 1));
                let kk = choose|kk: int| 0 <= kk < a.live_objects(types).len() && a.live_objects(types)[kk] == i;
                assert(after[j].hs_live(types)[kk] == a.addr(i));
                assert(a.addr(i) == s.addr(i));
            },
            HeapSegment::Large(_) => {},
        }
    }
    assert(after[j].hs_live(types).contains(x));
}

/// After a compaction, the relocated address of every live object of a
/// moved-from segment — what fixing a reference to it gives — holds a copy
/// of the object: its words, header included, and its finalization-pending
/// flag.
pub proof fn law_relocated_objects_are_copies(
    before: Seq<HeapSegment>,
    in_use: Seq<bool>,
    types: TypeTable,
    rel: Seq<HeapSegment>,
    after: Seq<HeapSegment>,
    orig: Seq<HeapSegment>,
    midx: Seq<int>,
    kidx: Seq<int>,
    q: int,
    k: int,
)
    requires
        compaction_done(before, in_use, types, rel, after, orig, midx, kidx),
        0 <= q < orig.len(),
        0 <= k < small(orig[q]).live_objects(types).len(),
    ensures
        has_copy(
            after,
            relocated_ref(rel, small(orig[q]).addr(small(orig[q]).live_objects(types)[k]) as usize),
            small(orig[q]),
            small(orig[q]).live_objects(types)[k],
            types,
        ),
{
}

proof fn lemma_walk_end_ge(types: TypeTable, data: Seq<usize>, i: int)
    ensures
        walk_end(types, data, i) >= i,
    decreases data.len() + 1 - i,
{
    if readable(types, data, i) {
        lemma_walk_end_ge(types, data, i + object_words(types, data, i));
    }
}

/// The live objects found from word `i` of `a` are found from `i` in `b`
/// too, where `b` has the words of `a` below `avail` and the walk of `a`
/// from `i` ends by word `avail + 1`.
proof fn lemma_live_kept_below(types: TypeTable, a: Seq<usize>, b: Seq<usize>, avail: int, i: int)
    requires
        types.wf(),
        a.len() == b.len(),
        i >= 1,
        walk_end(types, a, i) <= avail + 1,
        forall|j: int| 0 <= j < avail && j < a.len() ==> #[trigger] b[j] == a[j],
    ensures
        forall|x: int| #[trigger] live_from(types, a, i).contains(x) ==> live_from(types, b, i).contains(x),
    decreases a.len() + 1 - i,
{
    if readable(types, a, i) {
        let w = object_words(types, a, i);
        lemma_object_words(types, a, i);
        lemma_walk_end_ge(types, a, i + w);
        assert(b[i] == a[i]);
        assert(b[i + 1] == a[i + 1]);
        assert(view_kept(types, a, b, i));
        lemma_view_stable(types, a, b, i, 0);
        lemma_live_kept_below(types, a, b, avail, i + w);
        let la = live_from(types, a, i);
        let lb = live_from(types, b, i);
        let ra = live_from(types, a, i + w);
        let rb = live_from(types, b, i + w);
        assert forall|x: int| #[trigger] la.contains(x) implies lb.contains(x) by {
            let k = choose|k: int| 0 <= k < la.len() && la[k] == x;
            if a[i] != types.spec_free_mt() {
                assert(la == seq![i] + ra);
                assert(lb == seq![i] + rb);
                if k == 0 {
                    assert(lb[0] == x);
                } else {
                    assert(ra[k - 1] == x);
                    assert(ra.contains(x));
                    let k2 = choose|k2: int| 0 <= k2 < rb.len() && rb[k2] == x;
                    assert(lb[k2 + 1] == x);
                }
            } else {
                assert(la == ra);
                assert(lb == rb);
                assert(ra[k] == x);
            }
        }
    }
}

/// Compaction keeps every live object of a segment that it does not move,
/// at the same address, where the objects of that segment end before its
/// free space (as a sweep leaves them): copies go only into free space.
pub proof fn law_compaction_keeps_unmoved_objects(
    before: Seq<HeapSegment>,
    in_use: Seq<bool>,
    types: TypeTable,
    rel: Seq<HeapSegment>,
    after: Seq<HeapSegment>,
    orig: Seq<HeapSegment>,
    midx: Seq<int>,
    kidx: Seq<int>,
    m: int,
    k: int,
)
    requires
        types.wf(),
        compaction_done(before, in_use, types, rel, after, orig, midx, kidx),
        0 <= m < before.len(),
        !midx.contains(m),
        before[m].hs_wf(),
        before[m].is_small() ==> walk_end(types, small(before[m]).words(), 1) <= small(
            before[m],
        ).spec_available_from() + 1,
        0 <= k < before[m].hs_live(types).len(),
    ensures
        0 <= kidx[m] < after.len(),
        after[kidx[m]].hs_live(types).contains(before[m].hs_live(types)[k]),
{
    let b = before[m];
    let c = after[kidx[m]];
    if c != b {
        let sa = small(b);
        let sc = small(c);
        lemma_live_kept_below(types, sa.words(), sc.words(), sa.spec_available_from() as int, 1);
        let i = sa.live_objects(types)[k];
        assert(sa.live_objects(types).contains(i));
        assert(sc.live_objects(types).contains(i));
        let k2 = choose|k2: int| 0 <= k2 < sc.live_objects(types).len() && sc.live_objects(types)[k2] == i;
        assert(c.hs_live(types)[k2] == sc.addr(i));
        assert(sc.addr(i) == sa.addr(i));
    }
}

/// A collection loses no object that its sweep keeps: after the sweep
/// (`h0` to `h1`) and the compaction (`h1` to `h2`), each live object of a
/// swept segment is, where its segment was not moved, still a live object of
/// that segment at the same address, and, where it was moved, copied (its
/// words, header included, and its finalization-pending flag) at the
/// address that fixing a reference to it gives.
pub proof fn law_collection_loses_no_survivor(
    h0: Seq<HeapSegment>,
    h1: Seq<HeapSegment>,
    in_use: Seq<bool>,
    types: TypeTable,
    limits: Seq<usize>,
    idx: Seq<int>,
    rel: Seq<HeapSegment>,
    h2: Seq<HeapSegment>,
    orig: Seq<HeapSegment>,
    midx: Seq<int>,
    kidx: Seq<int>,
    m: int,
    k: int,
)
    requires
        types.wf(),
        swept_heap(h0, h1, in_use, types, limits, idx),
        forall|j: int| 0 <= j < h1.len() ==> #[trigger] h1[j].hs_wf(),
        compaction_done(h1, in_use, types, rel, h2, orig, midx, kidx),
        0 <= m < h1.len(),
        0 <= k < h1[m].hs_live(types).len(),
    ensures
        !midx.contains(m) ==> 0 <= kidx[m] < h2.len() && h2[kidx[m]].hs_live(types).contains(
            h1[m].hs_live(types)[k],
        ),
        midx.contains(m) ==> exists|q: int|
            0 <= q < midx.len() && midx[q] == m && #[trigger] has_copy(
                h2,
                relocated_ref(rel, h1[m].hs_live(types)[k] as usize),
                small(orig[q]),
                small(orig[q]).live_objects(types)[k],
                types,
            ),
{
    let x = h1[m].hs_live(types)[k];
    if !midx.contains(m) {
        assert(h1[m].hs_wf());
        if in_use[m] {
            assert(h2[kidx[m]] == h1[m]);
            assert(h2[kidx[m]].hs_live(types)[k] == x);
        } else {
            assert(seg_sweep_result(h0[idx[m]], h1[m], in_use[m], types));
            law_compaction_keeps_unmoved_objects(h1, in_use, types, rel, h2, orig, midx, kidx, m, k);
        }
    } else {
        let q = choose|q: int| 0 <= q < midx.len() && midx[q] == m;
        assert(orig[q] == h1[m]);
        let s = small(orig[q]);
        assert(x == s.addr(s.live_objects(types)[k]));
        law_relocated_objects_are_copies(h1, in_use, types, rel, h2, orig, midx, kidx, q, k);
    }
}

/// The first `n` objects of a path of heap objects from the starts of the
/// mark phase are marked.
proof fn lemma_path_marked(
    before: Seq<HeapSegment>,
    after: Seq<HeapSegment>,
    types: TypeTable,
    h0: HandleTable,
    h1: HandleTable,
    queue: Seq<usize>,
    roots: Seq<RootRef>,
    path: Seq<usize>,
    n: int,
)
    requires
        types.wf(),
        forall|k: int| 0 <= k < before.len() ==> #[trigger] before[k].hs_wf(),
        marked_from_roots(before, after, types, h0, h1, queue, roots),
        mark_path(before, types, h0, root_seeds(before, types, h0, queue, roots), path),
        forall|i: int| 0 <= i < path.len() ==> #[trigger] markable(before, path[i]),
        1 <= n <= path.len(),
    ensures
        forall|i: int| 0 <= i < n ==> #[trigger] heap_marked(after, path[i]),
    decreases n,
{
    if n == 1 {
        let x = path[0];
        assert(markable(before, path[0]));
        lemma_grow_same(before, after, types, x);
        assert(is_root_seed(before, types, h0, queue, roots, x));
        if exists|k: int| 0 <= k < roots.len() && #[trigger] root_target(before, types, roots[k]) == Some(x) {
            let k = choose|k: int| 0 <= k < roots.len() && #[trigger] root_target(before, types, roots[k]) == Some(x);
            assert(root_kept(before, after, types, roots[k]));
        } else if queue.contains(x) {
        } else if exists|h: usize|
            #[trigger] h0.spec_contains(h) && (h0.spec_handle(h).handle_type == HandleType::Strong
                || h0.spec_handle(h).handle_type == HandleType::Pinned) && h0.spec_handle(h).object == x {
        } else {
            let h = choose|h: usize|
                #[trigger] h0.spec_contains(h) && h0.spec_handle(h).handle_type == HandleType::Dependent
                    && h0.spec_handle(h).object != 0 && !in_heap(before, h0.spec_handle(h).object)
                    && h0.spec_handle(h).extra_or_secondary == x;
            let g = h0.spec_handle(h);
            assert(h1.spec_contains(h));
            assert(h1.spec_handle(h) == g);
            assert(outside_dependent_ok(after, h1.spec_handle(h)));
            lemma_grow_same(before, after, types, g.object);
        }
    } else {
        lemma_path_marked(before, after, types, h0, h1, queue, roots, path, n - 1);
        let y = path[n - 2];
        let x = path[n - 1];
        assert(markable(before, path[n - 1]));
        assert(heap_marked(after, path[n - 2]));
        assert(path_step(before, types, h0, path, n - 1));
        assert(mark_edge(before, types, h0, y, x));
        lemma_grow_same(before, after, types, y);
        lemma_grow_same(before, after, types, x);
        if children(before, types, y).contains(x) {
            let j = choose|j: int| 0 <= j < children(before, types, y).len() && children(before, types, y)[j] == x;
            assert(children(after, types, y)[j] == x);
        } else {
            let h = choose|h: usize|
                #[trigger] h0.spec_contains(h) && h0.spec_handle(h).handle_type == HandleType::Dependent
                    && h0.spec_handle(h).object == y && h0.spec_handle(h).extra_or_secondary == x;
            assert(h1.spec_contains(h));
            assert(h1.spec_handle(h) == h0.spec_handle(h));
            assert(dependent_ok(after, h1.spec_handle(h)));
        }
    }
}

/// The mark phase marks everything reachable: each heap object that a path
/// of heap objects leads to, through reference fields and dependent
/// handles, from a root, a strong or pinned handle, the finalization queue
/// or the secondary object of a dependent handle whose primary lies outside
/// the heap, is marked.
pub proof fn law_marking_reaches_everything_reachable(
    before: Seq<HeapSegment>,
    after: Seq<HeapSegment>,
    types: TypeTable,
    h0: HandleTable,
    h1: HandleTable,
    queue: Seq<usize>,
    roots: Seq<RootRef>,
    path: Seq<usize>,
)
    requires
        types.wf(),
        forall|k: int| 0 <= k < before.len() ==> #[trigger] before[k].hs_wf(),
        marked_from_roots(before, after, types, h0, h1, queue, roots),
        mark_path(before, types, h0, root_seeds(before, types, h0, queue, roots), path),
        forall|i: int| 0 <= i < path.len() ==> #[trigger] markable(before, path[i]),
    ensures
        heap_marked(after, path.last()),
{
    lemma_path_marked(before, after, types, h0, h1, queue, roots, path, path.len() as int);
    assert(heap_marked(after, path[path.len() - 1]));
}

/// Pinned objects do not move: a live object of a segment that holds a
/// pinned object, or that an allocation context uses, is after the sweep
/// and the compaction still a live object of that segment, at the same
/// address.
pub proof fn law_pinned_objects_do_not_move(
    h0: Seq<HeapSegment>,
    h1: Seq<HeapSegment>,
    in_use: Seq<bool>,
    types: TypeTable,
    limits: Seq<usize>,
    idx: Seq<int>,
    rel: Seq<HeapSegment>,
    h2: Seq<HeapSegment>,
    orig: Seq<HeapSegment>,
    midx: Seq<int>,
    kidx: Seq<int>,
    m: int,
    k: int,
)
    requires
        types.wf(),
        swept_heap(h0, h1, in_use, types, limits, idx),
        forall|j: int| 0 <= j < h1.len() ==> #[trigger] h1[j].hs_wf(),
        compaction_done(h1, in_use, types, rel, h2, orig, midx, kidx),
        0 <= m < h1.len(),
        h1[m].hs_pinned() || in_use[m],
        0 <= k < h1[m].hs_live(types).len(),
    ensures
        !midx.contains(m),
        0 <= kidx[m] < h2.len(),
        h2[kidx[m]].hs_base() == h1[m].hs_base(),
        h2[kidx[m]].hs_live(types).contains(h1[m].hs_live(types)[k]),
{
    if midx.contains(m) {
        let q = choose|q: int| 0 <= q < midx.len() && midx[q] == m;
        assert(compactable(h1[midx[q]], in_use[midx[q]]));
    }
    law_collection_loses_no_survivor(h0, h1, in_use, types, limits, idx, rel, h2, orig, midx, kidx, m, k);
}

/// An object pinned in its segment (by a pinning root or a pinned handle,
/// see [`marked_from_roots`]) does not move: after the sweep and the
/// compaction it is still a live object of its segment, at the same address.
pub proof fn law_pinned_object_stays(
    h0: Seq<HeapSegment>,
    h1: Seq<HeapSegment>,
    in_use: Seq<bool>,
    types: TypeTable,
    limits: Seq<usize>,
    idx: Seq<int>,
    rel: Seq<HeapSegment>,
    h2: Seq<HeapSegment>,
    orig: Seq<HeapSegment>,
    midx: Seq<int>,
    kidx: Seq<int>,
    m: int,
    k: int,
)
    requires
        types.wf(),
        swept_heap(h0, h1, in_use, types, limits, idx),
        forall|j: int| 0 <= j < h1.len() ==> #[trigger] h1[j].hs_wf(),
        compaction_done(h1, in_use, types, rel, h2, orig, midx, kidx),
        0 <= m < h1.len(),
        0 <= k < h1[m].hs_live(types).len(),
        h1[m].hs_pinned_at(h1[m].hs_live(types)[k] as usize),
    ensures
        !midx.contains(m),
        0 <= kidx[m] < h2.len(),
        h2[kidx[m]].hs_live(types).contains(h1[m].hs_live(types)[k]),
{
    let x = h1[m].hs_live(types)[k] as usize;
    let s = small(h1[m]);
    let i = s.word_index(x).unwrap();
    assert(h1[m].is_small());
    assert(h1[m].hs_wf());
    assert(s.wf());
    assert(0 <= i < s.pins().len()) by (nonlinear_arith)
        requires
            s.spec_base() <= x < s.spec_base() + 32768,
            i == (x - s.spec_base()) / 8,
            s.pins().len() == 4096,
    ;
    assert(s.pins()[i]);
    assert(s.pins().contains(true));
    assert(h1[m].hs_pinned());
    law_pinned_objects_do_not_move(h0, h1, in_use, types, limits, idx, rel, h2, orig, midx, kidx, m, k);
}

/// References are fixed to the copies: after the heap's references are
/// fixed ([`fixed_words`]), a reference slot of a live object that held the
/// address of a live object of a moved segment holds the address at which
/// compaction left a copy of that object.
pub proof fn law_fixed_reference_points_at_copy(
    before: Seq<HeapSegment>,
    in_use: Seq<bool>,
    types: TypeTable,
    rel: Seq<HeapSegment>,
    after: Seq<HeapSegment>,
    orig: Seq<HeapSegment>,
    midx: Seq<int>,
    kidx: Seq<int>,
    seg: HeapSegment,
    fixed: HeapSegment,
    j: int,
    q: int,
    k: int,
)
    requires
        compaction_done(before, in_use, types, rel, after, orig, midx, kidx),
        fixed_words(seg, fixed, rel, types),
        0 <= j < seg.hs_words().len(),
        seg.hs_is_slot(types, seg.hs_base() + 8 * j),
        0 <= q < orig.len(),
        0 <= k < small(orig[q]).live_objects(types).len(),
        seg.hs_words()[j] == small(orig[q]).addr(small(orig[q]).live_objects(types)[k]),
    ensures
        fixed.hs_words()[j] == relocated_ref(rel, seg.hs_words()[j]),
        has_copy(
            after,
            fixed.hs_words()[j],
            small(orig[q]),
            small(orig[q]).live_objects(types)[k],
            types,
        ),
{
    law_relocated_objects_are_copies(before, in_use, types, rel, after, orig, midx, kidx, q, k);
}


/// A segment is in use when any allocation context, wherever it stands among
/// the others, has the segment's end as its (nonzero) limit, and only then;
/// more contexts never make a segment stop being in use.
pub proof fn law_every_context_keeps_its_segment(limits: Seq<usize>, more: Seq<usize>, end: int)
    ensures
        forall|j: int| 0 <= j < limits.len() && limits[j] != 0 ==> is_alloc_limit(limits, #[trigger] limits[j] as int),
        is_alloc_limit(limits, end) ==> end != 0 && exists|j: int| 0 <= j < limits.len() && limits[j] == end,
        is_alloc_limit(limits, end) ==> is_alloc_limit(limits + more, end) && is_alloc_limit(more + limits, end),
{
    if is_alloc_limit(limits, end) {
        let j = choose|j: int| 0 <= j < limits.len() && limits[j] != 0 && limits[j] == end;
        assert((limits + more)[j] == limits[j]);
        assert((more + limits)[more.len() + j] == limits[j]);
    }
}

proof fn lemma_seg_candidates_flags(seg: HeapSegment, types: TypeTable, live: Seq<int>)
    ensures
        forall|i: int|
            0 <= i < seg_candidates(seg, types, live).len() ==> unmarked_at(seg, #[trigger] seg_candidates(seg, types, live)[i])
                && not_pending_at(seg, seg_candidates(seg, types, live)[i]),
    decreases live.len(),
{
    if live.len() > 0 {
        lemma_seg_candidates_flags(seg, types, live.drop_last());
        let rest = seg_candidates(seg, types, live.drop_last());
        let c = seg_candidates(seg, types, live);
        assert forall|i: int| 0 <= i < c.len() implies unmarked_at(seg, #[trigger] c[i]) && not_pending_at(seg, c[i]) by {
            if i < rest.len() {
                assert(c[i] == rest[i]);
            }
        }
    }
}

/// Whether one of the first `k` segments has the object at `x` with its mark
/// and pending bits clear.
spec fn clear_in_first(segs: Seq<HeapSegment>, k: int, x: usize) -> bool {
    exists|j: int| 0 <= j < k && #[trigger] unmarked_at(segs[j], x) && not_pending_at(segs[j], x)
}

proof fn lemma_candidates_upto_flags(segs: Seq<HeapSegment>, types: TypeTable, k: int)
    requires
        0 <= k <= segs.len(),
    ensures
        forall|i: int|
            0 <= i < candidates_upto(segs, types, k).len() ==> clear_in_first(
                segs,
                k,
                #[trigger] candidates_upto(segs, types, k)[i],
            ),
    decreases k,
{
    if k > 0 {
        lemma_candidates_upto_flags(segs, types, k - 1);
        let a = candidates_upto(segs, types, k - 1);
        let b = seg_candidates(segs[k - 1], types, segs[k - 1].hs_live(types));
        lemma_seg_candidates_flags(segs[k - 1], types, segs[k - 1].hs_live(types));
        let c = candidates_upto(segs, types, k);
        assert(c == a + b);
        assert forall|i: int| 0 <= i < c.len() implies clear_in_first(segs, k, #[trigger] c[i]) by {
            if i < a.len() {
                assert(c[i] == a[i]);
                assert(clear_in_first(segs, k - 1, a[i]));
                let j = choose|j: int| 0 <= j < k - 1 && #[trigger] unmarked_at(segs[j], a[i]) && not_pending_at(segs[j], a[i]);
                assert(unmarked_at(segs[j], c[i]) && not_pending_at(segs[j], c[i]));
            } else {
                let bi = i - a.len();
                assert(c[i] == b[bi]);
                assert(unmarked_at(segs[k - 1], b[bi]) && not_pending_at(segs[k - 1], b[bi]));
            }
        }
    }
}

/// The objects that a collection queues for finalization are heap objects
/// that are neither reachable (marked) nor pending finalization already: an
/// object whose finalization is pending is never queued a second time.
pub proof fn law_pending_objects_are_not_queued_again(segs: Seq<HeapSegment>, types: TypeTable)
    requires
        forall|k: int| 0 <= k < segs.len() ==> #[trigger] segs[k].hs_wf(),
        segs_disjoint(segs),
    ensures
        forall|i: int|
            0 <= i < finalization_candidates(segs, types).len() ==> in_heap(
                segs,
                #[trigger] finalization_candidates(segs, types)[i],
            ) && !heap_pending(segs, finalization_candidates(segs, types)[i]) && !heap_marked(
                segs,
                finalization_candidates(segs, types)[i],
            ),
{
    let c = finalization_candidates(segs, types);
    lemma_candidates_upto_flags(segs, types, segs.len() as int);
    assert forall|i: int| 0 <= i < c.len() implies in_heap(segs, #[trigger] c[i]) && !heap_pending(segs, c[i])
        && !heap_marked(segs, c[i]) by {
        let x = c[i];
        assert(clear_in_first(segs, segs.len() as int, x));
        let j = choose|j: int| 0 <= j < segs.len() && #[trigger] unmarked_at(segs[j], x) && not_pending_at(segs[j], x);
        assert(segs[j].hs_wf());
        assert(segs[j].hs_contains(x));
        lemma_find_seg_disjoint(segs, j, x);
        assert(find_seg(segs, x) == j);
    }
}


/// The byte offset of reference number `i` of a run of references that
/// starts at `offset`.
pub open spec fn run_slot(offset: int, i: int) -> int {
    offset + 8 * i
}

proof fn lemma_series_refs_hold_every_run(series: Seq<GcDescSeries>, obj_size: int)
    ensures
        forall|k: int, i: int|
            0 <= k < series.len() && 0 <= i < series_field_count(obj_size, series[k]) ==> series_refs(
                series,
                obj_size,
            ).contains(#[trigger] run_slot(series[k].offset as int, i)),
    decreases series.len(),
{
    if series.len() > 0 {
        let init = series.drop_last();
        lemma_series_refs_hold_every_run(init, obj_size);
        let a = series_refs(init, obj_size);
        let last = series.last();
        let r = series_refs(series, obj_size);
        assert forall|k: int, i: int|
            0 <= k < series.len() && 0 <= i < series_field_count(obj_size, series[k]) implies r.contains(
                #[trigger] run_slot(series[k].offset as int, i),
            ) by {
            if k < init.len() {
                assert(init[k] == series[k]);
                assert(a.contains(run_slot(init[k].offset as int, i)));
                let p = choose|p: int| 0 <= p < a.len() && a[p] == run_slot(init[k].offset as int, i);
                assert(r[p] == a[p]);
            } else {
                assert(series[k] == last);
                assert(r[a.len() + i] == run_slot(last.offset as int, i));
            }
        }
    }
}

/// The references of an object whose type has a series descriptor are the
/// runs of every series: each series, wherever it stands in the descriptor,
/// contributes its `(size of the object + size of the series) / 8`
/// references from its offset on.
pub proof fn law_every_series_is_walked(obj: Object, series: Vec<GcDescSeries>)
    requires
        has_flag(obj.method_table.flags_high, HAS_GC_POINTERS),
    ensures
        forall|k: int, i: int|
            0 <= k < series@.len() && 0 <= i < series_field_count(obj.spec_total_size_aligned(), series@[k])
                ==> ref_offsets(obj, GcDesc::Series(series)).contains(#[trigger] run_slot(series@[k].offset as int, i)),
{
    lemma_series_refs_hold_every_run(series@, obj.spec_total_size_aligned());
}


proof fn lemma_find_in_live(types: TypeTable, data: Seq<usize>, base: int, j: int, i: int, x: int)
    requires
        types.wf(),
        1 <= j,
        live_from(types, data, j).contains(i),
        base + 8 * i <= x < base + 8 * i + 8 * object_words(types, data, i),
    ensures
        find_from(types, data, base, j, x) == Some(i),
    decreases data.len() + 1 - j,
{
    let l = live_from(types, data, j);
    assert(readable(types, data, j));
    let w = object_words(types, data, j);
    lemma_object_words(types, data, j);
    let rest = live_from(types, data, j + w);
    lemma_live_from_range(types, data, j + w);
    let p = choose|p: int| 0 <= p < l.len() && l[p] == i;
    if data[j] != types.spec_free_mt() && p == 0 {
        assert(i == j);
    } else {
        if data[j] != types.spec_free_mt() {
            assert(l == seq![j] + rest);
            assert(l[p] == rest[p - 1]);
            assert(rest.contains(i));
        } else {
            assert(l == rest);
        }
        let q = choose|q: int| 0 <= q < rest.len() && rest[q] == i;
        assert(i >= j + w);
        lemma_find_in_live(types, data, base, j + w, i, x);
    }
}

/// An address that lies inside a live object, anywhere in its whole size
/// (array elements included, up to the aligned total size), resolves to that
/// object: the object that holds an interior reference is the one whose
/// bytes contain it.
pub proof fn law_interior_address_finds_its_object(seg: Segment, types: TypeTable, t: int, x: usize)
    requires
        seg.wf(),
        types.wf(),
        0 <= t < seg.live_objects(types).len(),
        seg.addr(seg.live_objects(types)[t]) <= x < seg.addr(seg.live_objects(types)[t]) + object_view(
            types,
            seg.words(),
            seg.live_objects(types)[t],
        ).spec_total_size_aligned(),
    ensures
        find_from(types, seg.words(), seg.spec_base() as int, 1, x as int) == Some(seg.live_objects(types)[t]),
        HeapSegment::Small(seg).hs_find(types, x) == Some(seg.addr(seg.live_objects(types)[t])),
{
    let i = seg.live_objects(types)[t];
    lemma_live_from_range(types, seg.words(), 1);
    assert(readable(types, seg.words(), i));
    lemma_object_words(types, seg.words(), i);
    assert(seg.live_objects(types).contains(i));
    lemma_find_in_live(types, seg.words(), seg.spec_base() as int, 1, i, x as int);
}


proof fn lemma_found_bounds(types: TypeTable, data: Seq<usize>, base: int, j: int, x: int)
    requires
        types.wf(),
        1 <= j,
    ensures
        find_from(types, data, base, j, x) matches Some(i) ==> readable(types, data, i) && base + 8 * i <= x < base
            + 8 * i + 8 * object_words(types, data, i),
    decreases data.len() + 1 - j,
{
    if readable(types, data, j) {
        lemma_object_words(types, data, j);
        lemma_found_bounds(types, data, base, j + object_words(types, data, j), x);
    }
}

/// Where no moved-from segment before `q` has an object holding `v` and
/// segment `q` has `o`, the search for `v` from `j` finds `o` in `q`.
proof fn lemma_first_found_at(rel: Seq<HeapSegment>, types: TypeTable, v: usize, j: int, q: int, o: int)
    requires
        0 <= j <= q < rel.len(),
        forall|m: int| j <= m < q ==> (#[trigger] rel[m]).hs_find(types, v) is None,
        rel[q].hs_find(types, v) == Some(o),
    ensures
        first_found(rel, types, v, j) == Some((q, o)),
    decreases q - j,
{
    if j < q {
        lemma_first_found_at(rel, types, v, j + 1, q, o);
    }
}

/// Fixing an interior reference keeps its offset into the object that holds
/// it: where `v` lies inside a live object `o` of a moved-from segment (from
/// `o` up to `o` plus its aligned total size), the fixed reference is the
/// address of the copy of `o` (where a reference to `o` itself is fixed to)
/// plus `v - o`.
pub proof fn law_interior_reference_keeps_its_offset(rel: Seq<HeapSegment>, types: TypeTable, q: int, t: int, v: usize)
    requires
        types.wf(),
        rel_ok(rel),
        segs_disjoint(rel),
        0 <= q < rel.len(),
        0 <= t < small(rel[q]).live_objects(types).len(),
        small(rel[q]).addr(small(rel[q]).live_objects(types)[t]) <= v < small(rel[q]).addr(
            small(rel[q]).live_objects(types)[t],
        ) + object_view(types, small(rel[q]).words(), small(rel[q]).live_objects(types)[t]).spec_total_size_aligned(),
        relocated_ref(rel, small(rel[q]).addr(small(rel[q]).live_objects(types)[t]) as usize) + (v - small(
            rel[q],
        ).addr(small(rel[q]).live_objects(types)[t])) <= usize::MAX,
    ensures
        relocated_interior(rel, types, v) == relocated_ref(
            rel,
            small(rel[q]).addr(small(rel[q]).live_objects(types)[t]) as usize,
        ) + (v - small(rel[q]).addr(small(rel[q]).live_objects(types)[t])),
{
    let s = small(rel[q]);
    let i = s.live_objects(types)[t];
    let o = s.addr(i);
    assert(rel[q].hs_wf() && rel[q].is_small());
    assert(rel[q] == HeapSegment::Small(s));
    law_interior_address_finds_its_object(s, types, t, v);
    lemma_live_from_range(types, s.words(), 1);
    lemma_object_words(types, s.words(), i);
    assert forall|m: int| 0 <= m < q implies (#[trigger] rel[m]).hs_find(types, v) is None by {
        assert(rel[m].hs_wf() && rel[m].is_small());
        let sm = small(rel[m]);
        assert(rel[m] == HeapSegment::Small(sm));
        lemma_found_bounds(types, sm.words(), sm.spec_base() as int, 1, v as int);
        if let Some(im) = find_from(types, sm.words(), sm.spec_base() as int, 1, v as int) {
            assert(rel[m].hs_end() <= rel[q].hs_base() || rel[q].hs_end() <= rel[m].hs_base());
        }
    }
    lemma_first_found_at(rel, types, v, 0, q, o);
    assert(rel[q].hs_contains(o as usize));
    lemma_find_seg_disjoint(rel, q, o as usize);
    assert(rel[q].hs_word_at(o - 8) == Some(s.words()[i - 1]));
}

} // verus!
