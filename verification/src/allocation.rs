use vstd::prelude::*;
use crate::gc::{AddSegmentError, RustGc, fresh_segment, range_overlaps, segment_bytes};
use crate::objects::{align_to_ptr, align_up};
use crate::segment::SEGMENT_SIZE;

verus! {

/// A thread's allocation context, shared with the runtime: objects are
/// allocated by bumping `alloc_ptr` up to `alloc_limit` (exclusive). The
/// other fields belong to the runtime and are left as they are.
#[allow(non_camel_case_types)]
pub struct gc_alloc_context {
    /// The address of the next allocated object.
    pub alloc_ptr: usize,
    /// The upper limit (exclusive) of the allocation context.
    pub alloc_limit: usize,
    pub alloc_bytes: i64,
    pub alloc_bytes_uoh: i64,
    pub gc_reserved_1: usize,
    pub gc_reserved_2: usize,
    pub alloc_count: i32,
}

/// The object needs its finalizer run.
pub const ALLOC_FINALIZABLE: i32 = 1;
/// The object holds references.
pub const ALLOC_CONTAINS_REFERENCE: i32 = 2;
/// The object must start 4 bytes past an 8-byte boundary.
pub const ALLOC_ALIGN8_BIAS: i32 = 4;
/// The object must start on an 8-byte boundary.
pub const ALLOC_ALIGN8: i32 = 8;
/// The memory need not be zeroed.
pub const ALLOC_ZEROING_OPTIONAL: i32 = 16;
/// The object goes to the large-object heap.
pub const ALLOC_LARGE_OBJECT_HEAP: i32 = 32;
/// The object is pinned for its whole life.
pub const ALLOC_PINNED_OBJECT_HEAP: i32 = 64;
/// Either of the heaps for old objects.
pub const ALLOC_USER_OLD_HEAP: i32 = 96;

/// The flags of an allocation request, as the runtime passes them.
#[derive(Clone, Copy)]
pub struct AllocFlags {
    pub bits: i32,
}

impl AllocFlags {
    /// Whether every flag of `flags` is set.
    pub fn contains(&self, flags: i32) -> (r: bool)
        ensures
            r == (self.bits & flags == flags),
    {
        self.bits & flags == flags
    }

    /// Whether any flag of `flags` is set.
    pub fn intersects(&self, flags: i32) -> (r: bool)
        ensures
            r == (self.bits & flags != 0),
    {
        self.bits & flags != 0
    }
}

/// What an allocation request comes to.
pub enum AllocOutcome {
    /// The object was placed in the allocation context, at this address.
    Placed(usize),
    /// The context has no room: after a collection, a new segment must be
    /// added for an object of `size` bytes (already rounded up), pinned for
    /// good where `pinned`.
    NewSegment { size: usize, pinned: bool },
}

/// Whether `b` is the allocation context `a` with only its pointer and
/// limit changed.
pub open spec fn same_runtime_fields(a: gc_alloc_context, b: gc_alloc_context) -> bool {
    &&& b.alloc_bytes == a.alloc_bytes
    &&& b.alloc_bytes_uoh == a.alloc_bytes_uoh
    &&& b.gc_reserved_1 == a.gc_reserved_1
    &&& b.gc_reserved_2 == a.gc_reserved_2
    &&& b.alloc_count == a.alloc_count
}

/// Allocates `size` bytes (rounded up to the pointer size; the header word
/// of the object included) in the allocation context where they fit; else
/// asks for a new segment and leaves the context as it is. Requests for
/// 8-byte alignment on 32-bit platforms are not supported.
pub fn alloc_in_context(ctx: &mut gc_alloc_context, size: usize, flags: AllocFlags) -> (r: AllocOutcome)
    requires
        old(ctx).alloc_ptr <= old(ctx).alloc_limit,
        size <= usize::MAX - 7,
        flags.bits & (ALLOC_ALIGN8 | ALLOC_ALIGN8_BIAS) == 0,
    ensures
        same_runtime_fields(*old(ctx), *final(ctx)),
        final(ctx).alloc_limit == old(ctx).alloc_limit,
        old(ctx).alloc_limit - old(ctx).alloc_ptr >= align_up(size as int) ==> r == AllocOutcome::Placed(
            old(ctx).alloc_ptr,
        ) && final(ctx).alloc_ptr == old(ctx).alloc_ptr + align_up(size as int),
        old(ctx).alloc_limit - old(ctx).alloc_ptr < align_up(size as int) ==> r == (AllocOutcome::NewSegment {
            size: align_up(size as int) as usize,
            pinned: flags.bits & ALLOC_PINNED_OBJECT_HEAP == ALLOC_PINNED_OBJECT_HEAP,
        }) && final(ctx).alloc_ptr == old(ctx).alloc_ptr,
        final(ctx).alloc_ptr <= final(ctx).alloc_limit,
{
    let size = align_to_ptr(size);
    let obj = ctx.alloc_ptr;
    if ctx.alloc_limit - ctx.alloc_ptr >= size {
        ctx.alloc_ptr = ctx.alloc_ptr + size;
        AllocOutcome::Placed(obj)
    } else {
        AllocOutcome::NewSegment { size, pinned: flags.contains(ALLOC_PINNED_OBJECT_HEAP) }
    }
}

impl RustGc {
    /// Adds a segment for an object of `size` bytes (a multiple of the
    /// pointer size, header word included), places the object right after
    /// the segment's first word and hands the rest of the segment to the
    /// allocation context. An error (heap and context unchanged) is that of
    /// `add_segment`: where the segment made overlaps a segment of the heap,
    /// it is handed back.
    pub fn alloc_in_new_segment(&mut self, ctx: &mut gc_alloc_context, size: usize, pinned: bool) -> (r: Result<usize, AddSegmentError>)
        requires
            old(self).wf(),
            size % 8 == 0,
            pinned ==> size >= 8,
            pinned || size >= SEGMENT_SIZE || size + 8 <= SEGMENT_SIZE,
        ensures
            final(self).wf(),
            final(self).spec_types() == old(self).spec_types(),
            final(self).handles() == old(self).handles(),
            final(self).queue() == old(self).queue(),
            same_runtime_fields(*old(ctx), *final(ctx)),
            r is Err ==> final(self).segs() == old(self).segs() && *final(ctx) == *old(ctx),
            r matches Err(AddSegmentError::Unavailable) ==> usize::BITS != 64,
            r matches Err(AddSegmentError::Overlaps(n)) ==> {
                &&& fresh_segment(n, size, pinned)
                &&& n.hs_end() == n.hs_base() + segment_bytes(size, pinned)
                &&& range_overlaps(old(self).segs(), n.hs_base() as int, n.hs_end() as int)
            },
            r matches Ok(obj) ==> {
                &&& final(self).segs().len() == old(self).segs().len() + 1
                &&& final(self).segs().take(old(self).segs().len() as int) == old(self).segs()
                &&& final(self).segs().last().is_small() == !(pinned || size >= SEGMENT_SIZE)
                &&& fresh_segment(final(self).segs().last(), size, pinned)
                &&& obj == final(self).segs().last().hs_base() + 8
                &&& final(ctx).alloc_ptr == obj + size
                &&& final(ctx).alloc_limit == final(self).segs().last().hs_end()
                &&& final(ctx).alloc_ptr <= final(ctx).alloc_limit
            },
    {
        match self.add_segment(size, pinned) {
            Err(e) => Err(e),
            Ok((start, end)) => {
                let obj = start + 8;
                ctx.alloc_ptr = obj + size;
                ctx.alloc_limit = end;
                Ok(obj)
            },
        }
    }
}

} // verus!
