use clrgc::allocation::{alloc_in_context, gc_alloc_context, AllocFlags, AllocOutcome, ALLOC_PINNED_OBJECT_HEAP};
use clrgc::gc::{RootRef, RustGc};
use clrgc::objects::{
    GcDesc, GcDescSeries, HandleType, MethodTable, BIT_SBLK_FINALIZER_RUN, HAS_COMPONENT_SIZE, HAS_FINALIZER,
    HAS_GC_POINTERS,
};
use clrgc::segment::{LargeSegment, RawSegmentIter, Seg, Segment, POINTER_SIZE, SEGMENT_SIZE};
use clrgc::type_table::{TypeEntry, TypeTable};

const FREE_MT: usize = 0x1000;
/// 24 bytes, no references.
const LEAF_MT: usize = 0x2000;
/// 32 bytes, one reference at offset 8.
const NODE_MT: usize = 0x3000;
/// 24 bytes, no references, with a finalizer.
const FINAL_MT: usize = 0x4000;

fn free_table() -> MethodTable {
    MethodTable { component_size: 1, flags_high: HAS_COMPONENT_SIZE, base_size: 24 }
}

fn types() -> TypeTable {
    let mut t = TypeTable::from_free_method_table(FREE_MT, free_table()).ok().unwrap();
    assert!(t.register(TypeEntry {
        address: LEAF_MT,
        method_table: MethodTable { component_size: 0, flags_high: 0, base_size: 24 },
        gc_desc: GcDesc::Series(vec![]),
    }));
    assert!(t.register(TypeEntry {
        address: NODE_MT,
        method_table: MethodTable { component_size: 0, flags_high: HAS_GC_POINTERS, base_size: 32 },
        gc_desc: GcDesc::Series(vec![GcDescSeries { size: -24, offset: 8 }]),
    }));
    assert!(t.register(TypeEntry {
        address: FINAL_MT,
        method_table: MethodTable { component_size: 0, flags_high: HAS_FINALIZER, base_size: 24 },
        gc_desc: GcDesc::Series(vec![]),
    }));
    t
}

fn empty_context() -> gc_alloc_context {
    gc_alloc_context {
        alloc_ptr: 0,
        alloc_limit: 0,
        alloc_bytes: 0,
        alloc_bytes_uoh: 0,
        gc_reserved_1: 0,
        gc_reserved_2: 0,
        alloc_count: 0,
    }
}

/// Allocates an object of `size` bytes with method table `mt`, the way the
/// runtime does: through the context, with a new segment when it is full.
fn allocate(gc: &mut RustGc, ctx: &mut gc_alloc_context, size: usize, mt: usize) -> usize {
    let obj = match alloc_in_context(ctx, size, AllocFlags { bits: 0 }) {
        AllocOutcome::Placed(obj) => obj,
        AllocOutcome::NewSegment { size, pinned } => gc.alloc_in_new_segment(ctx, size, pinned).ok().unwrap(),
    };
    assert!(gc.write_word(obj, mt));
    obj
}

fn root(value: usize) -> RootRef {
    RootRef { value, interior: false, pinned: false }
}

fn marked(gc: &RustGc, or: usize) -> bool {
    gc.segments().iter().any(|s| s.contains(or) && s.is_marked(or) == Ok(true))
}

fn live_objects(gc: &RustGc) -> Vec<usize> {
    let mut out = vec![];
    for s in gc.segments().iter() {
        out.extend(s.iter(gc.types()));
    }
    out
}

/// A whole collection with no allocation context in use; returns whether
/// objects moved.
fn collect(gc: &mut RustGc, roots: &Vec<RootRef>) -> bool {
    gc.mark_from_roots(roots);
    gc.mark_finalizable();
    let (empty, in_use) = gc.sweep_segments(&vec![]);
    let moved = gc.compact(empty, in_use).0;
    if moved {
        gc.fix_handle_references();
        gc.fix_queue_references();
        gc.fix_heap_references();
    }
    gc.finish_collection();
    moved
}

#[test]
fn free_method_table_must_be_a_free_space_table() {
    assert!(TypeTable::from_free_method_table(FREE_MT, free_table()).is_ok());
    assert_eq!(TypeTable::from_free_method_table(0, free_table()).err(), Some(80004005));
    let wrong_size = MethodTable { component_size: 1, flags_high: HAS_COMPONENT_SIZE, base_size: 16 };
    assert_eq!(TypeTable::from_free_method_table(FREE_MT, wrong_size).err(), Some(80004005));
    let wrong_component = MethodTable { component_size: 2, flags_high: HAS_COMPONENT_SIZE, base_size: 24 };
    assert_eq!(TypeTable::from_free_method_table(FREE_MT, wrong_component).err(), Some(80004005));
    // Only the component size and base size are checked.
    let no_flags = MethodTable { component_size: 1, flags_high: HAS_GC_POINTERS, base_size: 24 };
    assert!(TypeTable::from_free_method_table(FREE_MT, no_flags).is_ok());
}

#[test]
fn type_registration_refuses_duplicates_and_bad_entries() {
    let mut t = types();
    assert_eq!(t.method_table(LEAF_MT).unwrap().base_size, 24);
    assert_eq!(t.method_table(NODE_MT).unwrap().base_size, 32);
    assert_eq!(t.method_table(FREE_MT).unwrap().component_size, 1);
    assert!(t.method_table(0x9000).is_none());
    let dup = TypeEntry {
        address: LEAF_MT,
        method_table: MethodTable { component_size: 0, flags_high: 0, base_size: 48 },
        gc_desc: GcDesc::Series(vec![]),
    };
    assert!(!t.register(dup));
    assert_eq!(t.method_table(LEAF_MT).unwrap().base_size, 24);
    let too_small = TypeEntry {
        address: 0x5000,
        method_table: MethodTable { component_size: 0, flags_high: 0, base_size: 8 },
        gc_desc: GcDesc::Series(vec![]),
    };
    assert!(!t.register(too_small));
    let on_free = TypeEntry {
        address: FREE_MT,
        method_table: MethodTable { component_size: 0, flags_high: 0, base_size: 24 },
        gc_desc: GcDesc::Series(vec![]),
    };
    assert!(!t.register(on_free));
    assert!(t.gc_desc(FREE_MT).is_none());
    assert!(t.gc_desc(NODE_MT).is_some());
}

#[test]
fn allocation_bumps_the_context_then_asks_for_a_segment() {
    let mut ctx = empty_context();
    ctx.alloc_ptr = 0x10008;
    ctx.alloc_limit = 0x10040;
    match alloc_in_context(&mut ctx, 20, AllocFlags { bits: 0 }) {
        AllocOutcome::Placed(obj) => assert_eq!(obj, 0x10008),
        AllocOutcome::NewSegment { .. } => panic!("expected room in the context"),
    }
    assert_eq!(ctx.alloc_ptr, 0x10020);
    match alloc_in_context(&mut ctx, 32, AllocFlags { bits: 0 }) {
        AllocOutcome::Placed(obj) => assert_eq!(obj, 0x10020),
        AllocOutcome::NewSegment { .. } => panic!("expected room in the context"),
    }
    assert_eq!(ctx.alloc_ptr, 0x10040);
    match alloc_in_context(&mut ctx, 1, AllocFlags { bits: ALLOC_PINNED_OBJECT_HEAP }) {
        AllocOutcome::Placed(_) => panic!("the context is full"),
        AllocOutcome::NewSegment { size, pinned } => {
            assert_eq!(size, 8);
            assert!(pinned);
        },
    }
    assert_eq!(ctx.alloc_ptr, 0x10040);
    assert_eq!(ctx.alloc_limit, 0x10040);
}

#[test]
fn alloc_flags_tests() {
    let f = AllocFlags { bits: 1 | 64 };
    assert!(f.contains(64));
    assert!(f.contains(1 | 64));
    assert!(!f.contains(2 | 64));
    assert!(f.intersects(2 | 64));
    assert!(!f.intersects(4 | 8));
}

#[test]
fn new_segment_hands_its_space_to_the_context() {
    let mut gc = RustGc::new(types());
    let mut ctx = empty_context();
    let obj = gc.alloc_in_new_segment(&mut ctx, 32, false).ok().unwrap();
    assert_eq!(gc.segments().len(), 1);
    let seg = &gc.segments()[0];
    assert_eq!(obj, seg.base() + 8);
    assert_eq!(obj % 8, 0);
    assert_eq!(ctx.alloc_ptr, obj + 32);
    assert_eq!(ctx.alloc_limit, seg.base() + SEGMENT_SIZE);
    assert_eq!(seg.end(), seg.base() + SEGMENT_SIZE);
    // A pinned object gets a segment of its own, exactly its size plus the header.
    let pinned = gc.alloc_in_new_segment(&mut ctx, 48, true).ok().unwrap();
    let big = &gc.segments()[1];
    assert_eq!(pinned, big.base() + 8);
    assert_eq!(ctx.alloc_ptr, pinned + 48);
    assert_eq!(ctx.alloc_limit, big.end());
    assert_eq!(big.end(), big.base() + 56);
}

#[test]
fn heap_words_are_read_back() {
    let mut gc = RustGc::new(types());
    let mut ctx = empty_context();
    let obj = allocate(&mut gc, &mut ctx, 24, LEAF_MT);
    assert_eq!(gc.read_word(obj), Some(LEAF_MT));
    assert!(gc.write_word(obj + 8, 77));
    assert_eq!(gc.read_word(obj + 8), Some(77));
    assert_eq!(gc.read_word(obj + 3), None);
    assert!(!gc.write_word(8, 1));
    assert_eq!(gc.read_word(8), None);
}

#[test]
fn collection_keeps_what_roots_reach_and_drops_the_rest() {
    let mut gc = RustGc::new(types());
    let mut ctx = empty_context();
    let garbage = allocate(&mut gc, &mut ctx, 24, LEAF_MT);
    let node = allocate(&mut gc, &mut ctx, 32, NODE_MT);
    let child = allocate(&mut gc, &mut ctx, 24, LEAF_MT);
    assert!(gc.write_word(node + 8, child));
    assert_eq!(live_objects(&gc), vec![garbage, node, child]);

    let roots = vec![root(node)];
    gc.mark_from_roots(&roots);
    assert!(marked(&gc, node));
    assert!(marked(&gc, child));
    assert!(!marked(&gc, garbage));
    assert!(!gc.mark_finalizable());
    let (empty, in_use) = gc.sweep_segments(&vec![]);
    assert_eq!(empty.len(), 0);
    assert_eq!(in_use, vec![false]);
    // The dead object became free space: only the two reachable ones are left.
    assert_eq!(live_objects(&gc), vec![node, child]);
    assert_eq!(gc.read_word(garbage), Some(FREE_MT));
    assert!(!gc.compact(empty, in_use).0);
    gc.finish_collection();
    assert!(!marked(&gc, node));
    assert_eq!(gc.read_word(node + 8), Some(child));
}

#[test]
fn an_allocation_context_keeps_its_segment_unswept() {
    let mut gc = RustGc::new(types());
    let mut ctx = empty_context();
    let garbage = allocate(&mut gc, &mut ctx, 24, LEAF_MT);
    gc.mark_from_roots(&vec![]);
    gc.mark_finalizable();
    let (empty, in_use) = gc.sweep_segments(&vec![ctx.alloc_limit]);
    assert_eq!(empty.len(), 0);
    assert_eq!(in_use, vec![true]);
    assert_eq!(live_objects(&gc), vec![garbage]);
    assert!(!gc.compact(empty, in_use).0);
    gc.finish_collection();
}

#[test]
fn segments_with_no_survivor_leave_the_heap() {
    let mut gc = RustGc::new(types());
    let mut ctx = empty_context();
    allocate(&mut gc, &mut ctx, 24, LEAF_MT);
    gc.mark_from_roots(&vec![]);
    gc.mark_finalizable();
    let (empty, in_use) = gc.sweep_segments(&vec![]);
    assert_eq!(empty.len(), 1);
    assert_eq!(gc.segments().len(), 0);
    assert!(in_use.is_empty());
    assert!(!gc.compact(empty, in_use).0);
    gc.finish_collection();
}

#[test]
fn interior_and_handle_roots_keep_objects() {
    let mut gc = RustGc::new(types());
    let mut ctx = empty_context();
    let a = allocate(&mut gc, &mut ctx, 32, NODE_MT);
    let b = allocate(&mut gc, &mut ctx, 24, LEAF_MT);
    let c = allocate(&mut gc, &mut ctx, 24, LEAF_MT);
    let strong = gc.create_handle(b, 0, HandleType::Strong).unwrap();
    let weak = gc.create_handle(c, 0, HandleType::Short).unwrap();
    let interior = RootRef { value: a + 16, interior: true, pinned: false };
    gc.mark_from_roots(&vec![interior]);
    assert!(marked(&gc, a));
    assert!(marked(&gc, b));
    assert!(!marked(&gc, c));
    // The weak handle to the dead object was cleared, the strong one kept.
    assert_eq!(gc.handle_object(weak), 0);
    assert_eq!(gc.handle_object(strong), b);
    assert!(gc.contains_handle(weak));
}

#[test]
fn dependent_handle_keeps_its_secondary_while_the_primary_lives() {
    let mut gc = RustGc::new(types());
    let mut ctx = empty_context();
    let primary = allocate(&mut gc, &mut ctx, 24, LEAF_MT);
    let secondary = allocate(&mut gc, &mut ctx, 24, LEAF_MT);
    let dead_primary = allocate(&mut gc, &mut ctx, 24, LEAF_MT);
    let orphan = allocate(&mut gc, &mut ctx, 24, LEAF_MT);
    let live_dep = gc.create_handle(primary, secondary, HandleType::Dependent).unwrap();
    let dead_dep = gc.create_handle(dead_primary, orphan, HandleType::Dependent).unwrap();
    gc.mark_from_roots(&vec![root(primary)]);
    assert!(marked(&gc, secondary));
    assert!(!marked(&gc, orphan));
    gc.mark_finalizable();
    // The dependent handle whose primary died is cleared, object and secondary.
    assert_eq!(gc.handle_object(dead_dep), 0);
    assert_eq!(gc.get_extra_info(dead_dep), 0);
    assert_eq!(gc.handle_object(live_dep), primary);
    assert_eq!(gc.get_extra_info(live_dep), secondary);
}

#[test]
fn unreachable_finalizable_objects_are_queued_once() {
    let mut gc = RustGc::new(types());
    let mut ctx = empty_context();
    let f = allocate(&mut gc, &mut ctx, 24, FINAL_MT);
    let weak = gc.create_handle(f, 0, HandleType::Short).unwrap();
    let tracking = gc.create_handle(f, 0, HandleType::ShortRecurrsion).unwrap();
    gc.mark_from_roots(&vec![]);
    // The short weak handle is cleared before finalization...
    assert_eq!(gc.handle_object(weak), 0);
    assert!(gc.mark_finalizable());
    // ...the one tracking resurrection is not: the object is kept alive for its finalizer.
    assert_eq!(gc.handle_object(tracking), f);
    assert!(marked(&gc, f));
    assert_eq!(gc.finalization_queue_len(), 1);
    let (empty, in_use) = gc.sweep_segments(&vec![]);
    assert!(!gc.compact(empty, in_use).0);
    gc.finish_collection();
    assert_eq!(live_objects(&gc), vec![f]);

    // The next collection does not queue it again: it is pending already.
    gc.mark_from_roots(&vec![]);
    assert!(gc.mark_finalizable());
    assert_eq!(gc.finalization_queue_len(), 1);
    let (empty, in_use) = gc.sweep_segments(&vec![]);
    let _ = gc.compact(empty, in_use);
    gc.finish_collection();

    assert_eq!(gc.pop_finalizable(), Some(f));
    assert_eq!(gc.pop_finalizable(), None);
    assert_eq!(gc.finalization_queue_len(), 0);
}

#[test]
fn finalizer_run_bit_and_reregistration() {
    let mut gc = RustGc::new(types());
    let mut ctx = empty_context();
    let f = allocate(&mut gc, &mut ctx, 24, FINAL_MT);
    assert!(gc.set_finalization_run(f));
    assert_eq!(gc.read_word(f - 8).unwrap() & (BIT_SBLK_FINALIZER_RUN as usize), BIT_SBLK_FINALIZER_RUN as usize);
    // With the bit set the object is not queued.
    gc.mark_from_roots(&vec![]);
    assert!(!gc.mark_finalizable());
    let (empty, in_use) = gc.sweep_segments(&vec![ctx.alloc_limit]);
    let _ = gc.compact(empty, in_use);
    gc.finish_collection();
    assert!(gc.reregister_finalization(f));
    assert_eq!(gc.read_word(f - 8).unwrap() & (BIT_SBLK_FINALIZER_RUN as usize), 0);
    gc.mark_from_roots(&vec![]);
    assert!(gc.mark_finalizable());
    assert_eq!(gc.pop_finalizable(), Some(f));
    assert!(!gc.reregister_finalization(8));
}

#[test]
fn sparse_segments_are_compacted_and_references_fixed() {
    let mut gc = RustGc::new(types());
    let mut ctx = empty_context();
    // Two segments, each with one surviving node and a lot of garbage.
    let n1 = allocate(&mut gc, &mut ctx, 32, NODE_MT);
    ctx.alloc_ptr = ctx.alloc_limit;
    let n2 = allocate(&mut gc, &mut ctx, 32, NODE_MT);
    let leaf = allocate(&mut gc, &mut ctx, 24, LEAF_MT);
    assert_eq!(gc.segments().len(), 2);
    assert!(gc.write_word(n1 + 8, n2));
    assert!(gc.write_word(n2 + 8, leaf));
    let h = gc.create_handle(n2, 0, HandleType::Strong).unwrap();

    let roots = vec![root(n1)];
    gc.mark_from_roots(&roots);
    gc.mark_finalizable();
    let (empty, in_use) = gc.sweep_segments(&vec![]);
    let (moved, refused) = gc.compact(empty, in_use);
    assert!(moved);
    assert!(refused.is_empty());
    assert_eq!(gc.relocated_count(), 2);
    // The runtime's second root scan: each root is fixed while the moved-from
    // segments are still known.
    let new_n1 = gc.fix_root(roots[0]);
    assert_ne!(new_n1, n1);
    assert_eq!(gc.fix_ref(n1), new_n1);
    assert_eq!(gc.fix_ref(0), 0);
    gc.fix_handle_references();
    gc.fix_queue_references();
    gc.fix_heap_references();
    gc.finish_collection();
    assert_eq!(gc.segments().len(), 1);
    let new_n2 = gc.handle_object(h);
    assert_ne!(new_n2, n2);
    // The copies hold the same types, and the fields point at the copies.
    assert_eq!(gc.read_word(new_n1), Some(NODE_MT));
    assert_eq!(gc.read_word(new_n2), Some(NODE_MT));
    assert_eq!(gc.read_word(new_n1 + 8), Some(new_n2));
    let new_leaf = gc.read_word(new_n2 + 8).unwrap();
    assert_eq!(gc.read_word(new_leaf), Some(LEAF_MT));
    let mut live = live_objects(&gc);
    live.sort();
    let mut expected = vec![new_n1, new_n2, new_leaf];
    expected.sort();
    assert_eq!(live, expected);
}

#[test]
fn pinned_objects_do_not_move() {
    let mut gc = RustGc::new(types());
    let mut ctx = empty_context();
    let n1 = allocate(&mut gc, &mut ctx, 32, NODE_MT);
    ctx.alloc_ptr = ctx.alloc_limit;
    let n2 = allocate(&mut gc, &mut ctx, 32, NODE_MT);
    let roots = vec![RootRef { value: n1, interior: false, pinned: true }, root(n2)];
    let moved = collect(&mut gc, &roots);
    // One compactable segment alone is not worth moving.
    assert!(!moved);
    assert_eq!(gc.read_word(n1), Some(NODE_MT));
    assert_eq!(gc.read_word(n2), Some(NODE_MT));
}

#[test]
fn handle_operations() {
    let mut gc = RustGc::new(types());
    let h1 = gc.create_handle(0x50, 7, HandleType::Strong).unwrap();
    let h2 = gc.create_handle(0x60, 0, HandleType::Pinned).unwrap();
    assert_ne!(h1, h2);
    assert!(gc.contains_handle(h1));
    assert_eq!(gc.handle_fetch_type(h2), HandleType::Pinned);
    assert_eq!(gc.get_extra_info(h1), 7);
    gc.set_extra_info(h1, 9);
    assert_eq!(gc.get_extra_info(h1), 9);
    let d = gc.duplicate_handle(h1).unwrap();
    assert_eq!(gc.handle_object(d), 0x50);
    assert_eq!(gc.get_extra_info(d), 9);
    assert_eq!(gc.handle_fetch_type(d), HandleType::Strong);
    gc.store_object_in_handle(h1, 0x70);
    assert_eq!(gc.handle_object(h1), 0x70);
    gc.store_object_in_handle_if_null(h1, 0x80);
    assert_eq!(gc.handle_object(h1), 0x70);
    assert_eq!(gc.compare_exchange_object_in_handle(h1, 0x90, 0x71), 0x70);
    assert_eq!(gc.handle_object(h1), 0x70);
    assert_eq!(gc.compare_exchange_object_in_handle(h1, 0x90, 0x70), 0x70);
    assert_eq!(gc.handle_object(h1), 0x90);
    gc.store_object_in_handle(h2, 0);
    gc.store_object_in_handle_if_null(h2, 0xa0);
    assert_eq!(gc.handle_object(h2), 0xa0);
    assert_eq!(gc.destroy_handle(h1), Ok(()));
    assert!(!gc.contains_handle(h1));
    assert_eq!(gc.destroy_handle(0), Err(()));
    // The freed slot is the first free one, so it is handed out again.
    let h3 = gc.create_handle(0xb0, 0, HandleType::Short).unwrap();
    assert_eq!(h3, h1);
}

#[test]
fn segment_walk_stops_where_no_known_object_starts() {
    let t = types();
    let mut words = vec![0usize; POINTER_SIZE];
    let empty = Segment::from_words(words.clone(), 0x100000).unwrap();
    assert_eq!(empty.walk_stop(&t), 1);
    // A 24-byte leaf (three words), then a type that is not known.
    words[1] = LEAF_MT;
    words[4] = 0x9000;
    let seg = Segment::from_words(words, 0x100000).unwrap();
    assert_eq!(seg.walk_stop(&t), 4);
    assert_eq!(seg.iter(&t), vec![0x100008]);
}

#[test]
fn unknown_types_are_found_then_registered() {
    let mut gc = RustGc::new(types());
    let mut ctx = empty_context();
    assert_eq!(gc.first_unknown_type(), None);
    let a = allocate(&mut gc, &mut ctx, 24, LEAF_MT);
    let b = allocate(&mut gc, &mut ctx, 24, 0x9000);
    assert_eq!(b, a + 24);
    assert_eq!(gc.first_unknown_type(), Some(0x9000));
    let entry = || TypeEntry {
        address: 0x9000,
        method_table: MethodTable { component_size: 0, flags_high: 0, base_size: 24 },
        gc_desc: GcDesc::Series(vec![]),
    };
    assert!(gc.register_type(entry()));
    assert!(!gc.register_type(entry()));
    assert_eq!(gc.first_unknown_type(), None);
    assert_eq!(live_objects(&gc), vec![a, b]);
}

#[test]
fn every_segment_kind_marks_through_the_same_interface() {
    let mut small = Segment::from_words(vec![0usize; POINTER_SIZE], 0x100000).unwrap();
    assert!(Seg::contains(&small, 0x100008));
    assert!(!Seg::contains(&small, 0x100000 + SEGMENT_SIZE));
    assert_eq!(Seg::mark_object(&mut small, 0x100008, false), Ok(true));
    assert_eq!(Seg::mark_object(&mut small, 0x100008, false), Ok(false));
    assert_eq!(Seg::is_marked(&small, 0x100008), Ok(true));
    assert_eq!(Seg::is_marked(&small, 0x100010), Ok(false));
    assert!(!Seg::contains_pinned(&small));
    Seg::clear_flags(&mut small);
    assert_eq!(Seg::is_marked(&small, 0x100008), Ok(false));

    let mut large = LargeSegment::new(32).unwrap();
    let obj = large.as_object_ref();
    assert_eq!(large.data().len(), 5);
    assert!(Seg::contains(&large, obj));
    assert!(!Seg::contains(&large, large.base()));
    assert_eq!(Seg::is_marked(&large, obj), Ok(false));
    assert_eq!(Seg::mark_object(&mut large, obj, true), Ok(true));
    assert_eq!(Seg::is_marked(&large, obj), Ok(true));
    assert!(Seg::contains_pinned(&large));
    assert_eq!(Seg::set_finalization_pending(&mut large, obj, true), Ok(()));
    assert_eq!(Seg::get_finalization_pending(&large, obj), Ok(true));
}

/// The number of live objects and their total size, by their types' sizes.
fn census(gc: &RustGc) -> (usize, usize) {
    let live = live_objects(gc);
    let bytes = live
        .iter()
        .map(|&o| match gc.read_word(o) {
            Some(NODE_MT) => 32,
            Some(LEAF_MT) | Some(FINAL_MT) => 24,
            other => panic!("unexpected method table {:?}", other),
        })
        .sum();
    (live.len(), bytes)
}

#[test]
fn compaction_keeps_the_number_and_size_of_live_objects() {
    let mut gc = RustGc::new(types());
    let mut ctx = empty_context();
    let n1 = allocate(&mut gc, &mut ctx, 32, NODE_MT);
    allocate(&mut gc, &mut ctx, 24, LEAF_MT);
    ctx.alloc_ptr = ctx.alloc_limit;
    let n2 = allocate(&mut gc, &mut ctx, 32, NODE_MT);
    let leaf = allocate(&mut gc, &mut ctx, 24, LEAF_MT);
    allocate(&mut gc, &mut ctx, 32, NODE_MT);
    assert!(gc.write_word(n1 + 8, n2));
    assert!(gc.write_word(n2 + 8, leaf));
    gc.mark_from_roots(&vec![root(n1)]);
    gc.mark_finalizable();
    let (empty, in_use) = gc.sweep_segments(&vec![]);
    assert_eq!(census(&gc), (3, 88));
    assert!(gc.compact(empty, in_use).0);
    gc.fix_handle_references();
    gc.fix_queue_references();
    gc.fix_heap_references();
    gc.finish_collection();
    assert_eq!(census(&gc), (3, 88));
}

#[test]
fn dependent_handle_with_a_primary_outside_the_heap_keeps_its_secondary() {
    let mut gc = RustGc::new(types());
    let mut ctx = empty_context();
    let kept = allocate(&mut gc, &mut ctx, 24, LEAF_MT);
    let secondary = allocate(&mut gc, &mut ctx, 24, LEAF_MT);
    let other = allocate(&mut gc, &mut ctx, 24, LEAF_MT);
    // A primary object outside the heap never dies.
    gc.create_handle(0x10, secondary, HandleType::Dependent).unwrap();
    gc.mark_from_roots(&vec![root(kept)]);
    assert!(marked(&gc, kept));
    assert!(marked(&gc, secondary));
    assert!(!marked(&gc, other));
}

#[test]
fn dependent_handle_with_a_primary_outside_the_heap_keeps_its_secondary_without_roots() {
    let mut gc = RustGc::new(types());
    let mut ctx = empty_context();
    let secondary = allocate(&mut gc, &mut ctx, 24, LEAF_MT);
    gc.create_handle(0x10, secondary, HandleType::Dependent).unwrap();
    gc.mark_from_roots(&vec![]);
    assert!(marked(&gc, secondary));
}

#[test]
fn pinning_roots_and_pinned_handles_pin_their_segment() {
    let mut gc = RustGc::new(types());
    let mut ctx = empty_context();
    let a = allocate(&mut gc, &mut ctx, 24, LEAF_MT);
    gc.mark_from_roots(&vec![root(a)]);
    assert!(!gc.segments()[0].contains_pinned());
    gc.mark_finalizable();
    let (empty, in_use) = gc.sweep_segments(&vec![]);
    let _ = gc.compact(empty, in_use);
    gc.finish_collection();

    gc.mark_from_roots(&vec![RootRef { value: a, interior: false, pinned: true }]);
    assert!(gc.segments()[0].contains_pinned());
    gc.mark_finalizable();
    let (empty, in_use) = gc.sweep_segments(&vec![]);
    let _ = gc.compact(empty, in_use);
    gc.finish_collection();
    // The pin bits do not outlive the collection.
    assert!(!gc.segments()[0].contains_pinned());

    gc.create_handle(a, 0, HandleType::Pinned).unwrap();
    gc.mark_from_roots(&vec![]);
    assert!(gc.segments()[0].contains_pinned());
}

#[test]
fn new_segments_are_zeroed() {
    let mut gc = RustGc::new(types());
    let (start, end) = gc.add_segment(64, true).ok().unwrap();
    assert_eq!(end, start + 72);
    for a in (start + 8..end).step_by(8) {
        assert_eq!(gc.read_word(a), Some(0));
    }
    let (start, end) = gc.add_segment(24, false).ok().unwrap();
    assert_eq!(end, start + SEGMENT_SIZE);
    assert_eq!(gc.read_word(start + 8), Some(0));
}

#[test]
fn a_walk_that_stops_at_an_object_is_not_walkable() {
    let t = types();
    let mut words = vec![0usize; POINTER_SIZE];
    words[1] = LEAF_MT;
    assert!(Segment::from_words(words.clone(), 0x100000).unwrap().is_walkable(&t));
    words[4] = 0x9000;
    assert!(!Segment::from_words(words.clone(), 0x100000).unwrap().is_walkable(&t));
    // A leaf whose three words would run past the end of the segment.
    let mut tail = vec![0usize; POINTER_SIZE];
    tail[1] = FREE_MT;
    tail[2] = 8 * (POINTER_SIZE - 1) - 24;
    assert!(Segment::from_words(tail.clone(), 0x100000).unwrap().is_walkable(&t));
    tail[2] = 8 * POINTER_SIZE;
    assert!(!Segment::from_words(tail, 0x100000).unwrap().is_walkable(&t));

    let mut gc = RustGc::new(types());
    let mut ctx = empty_context();
    allocate(&mut gc, &mut ctx, 24, LEAF_MT);
    assert!(gc.heap_walkable());
    allocate(&mut gc, &mut ctx, 24, 0x9000);
    assert!(!gc.heap_walkable());
}

#[test]
fn finalization_bits_need_a_header_word() {
    let mut gc = RustGc::new(types());
    let (start, _end) = gc.add_segment(24, false).ok().unwrap();
    // The first word of a segment has no header word before it.
    assert!(!gc.set_finalization_run(start));
    assert!(!gc.reregister_finalization(start));
    // An unaligned address is not an object's.
    assert!(!gc.set_finalization_run(start + 12));
    assert!(gc.set_finalization_run(start + 8));
}

#[test]
fn raw_walk_yields_an_object_that_runs_past_the_end() {
    let t = types();
    let mut words = vec![0usize; POINTER_SIZE];
    words[1] = LEAF_MT;
    words[4095] = LEAF_MT;
    let seg = Segment::from_words(words, 0x100000).unwrap();
    let mut it = RawSegmentIter::new();
    assert_eq!(it.next(&seg, &t), Some((0x100008, 24)));
    assert_eq!(it.next, 4);
    assert_eq!(it.next(&seg, &t), None);
    assert_eq!(it.next, 4);
    it.next = 4095;
    assert_eq!(it.next(&seg, &t), Some((0x100000 + 8 * 4095, 24)));
    assert_eq!(it.next, 4098);
    assert_eq!(it.next(&seg, &t), None);
    assert_eq!(it.next, 4098);
}

#[test]
fn raw_walk_stops_where_the_count_word_is_missing() {
    let t = types();
    let mut words = vec![0usize; POINTER_SIZE];
    words[4095] = FREE_MT;
    let seg = Segment::from_words(words, 0x100000).unwrap();
    let mut it = RawSegmentIter::new();
    it.next = 4095;
    assert_eq!(it.next(&seg, &t), None);
    assert_eq!(it.next, 4095);
}

#[test]
fn add_segment_refuses_nothing_on_an_empty_heap() {
    let mut gc = RustGc::new(types());
    let mut ctx = empty_context();
    let obj = gc.alloc_in_new_segment(&mut ctx, 24, false).ok().unwrap();
    assert_eq!(gc.segments().len(), 1);
    assert_eq!(ctx.alloc_ptr, obj + 24);
    assert_eq!(ctx.alloc_limit, obj - 8 + SEGMENT_SIZE);
    let obj2 = gc.alloc_in_new_segment(&mut ctx, 24, false).ok().unwrap();
    assert_eq!(gc.segments().len(), 2);
    assert_ne!(obj, obj2);
}

#[test]
fn marks_are_clear_outside_a_collection() {
    let mut gc = RustGc::new(types());
    let mut ctx = empty_context();
    let a = allocate(&mut gc, &mut ctx, 24, LEAF_MT);
    assert!(gc.marks_clear());
    gc.mark_from_roots(&vec![root(a)]);
    assert!(!gc.marks_clear());
    assert_eq!(gc.relocated_count(), 0);
}
