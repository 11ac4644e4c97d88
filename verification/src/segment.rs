use vstd::prelude::*;
use crate::bits::{FlagBits, flag_bits};
use crate::objects::{Object, BASE_SIZE, BIT_SBLK_FINALIZER_RUN, ref_offsets, ref_offsets_fit};
use crate::objects::{has_flag, HAS_COMPONENT_SIZE};
use crate::type_table::TypeTable;
use crate::utils::IndexOfPtr;

verus! {

/// Bytes of a small-object segment.
pub const SEGMENT_SIZE: usize = 32768;
/// Words (pointer-sized) of a small-object segment.
pub const POINTER_SIZE: usize = 4096;

/// The object whose method table pointer is the word at index `i` of `data`:
/// its type, the element count in the low 32 bits of the next word, and the
/// low 32 bits of the header word before it.
pub open spec fn object_view(types: TypeTable, data: Seq<usize>, i: int) -> Object {
    Object {
        method_table: types.mt_of(data[i]),
        component_count: if i + 1 < data.len() { #[verifier::truncate] (data[i + 1] as u32) } else { 0 },
        header: if i >= 1 { data[i - 1] as u32 } else { 0 },
    }
}

/// Number of words that the object at `i` occupies, header included.
pub open spec fn object_words(types: TypeTable, data: Seq<usize>, i: int) -> int {
    object_view(types, data, i).spec_total_size_aligned() / 8
}

/// Whether an object starts at word `i`: a non-null method table pointer of
/// a known type, a size that fits in `u32`, and all its words (header
/// included) inside `data`.
pub open spec fn readable(types: TypeTable, data: Seq<usize>, i: int) -> bool {
    &&& 1 <= i < data.len()
    &&& data[i] != 0
    &&& types.has_type(data[i])
    &&& object_view(types, data, i).spec_total_size() <= u32::MAX
    &&& object_words(types, data, i) > 0
    &&& i - 1 + object_words(types, data, i) <= data.len()
}

/// Whether the cursor at word `i` stands on an object as the heap walk reads
/// it: a non-null method table pointer of a known type, with the count word
/// inside `data` where the type has a component size, and a size that fits
/// in `u32` (and, aligned, in `usize`). The object may run past the end of
/// `data`.
pub open spec fn starts_object(types: TypeTable, data: Seq<usize>, i: int) -> bool {
    &&& 1 <= i < data.len()
    &&& data[i] != 0
    &&& types.has_type(data[i])
    &&& object_view(types, data, i).spec_has_component_size() ==> i + 1 < data.len()
    &&& object_view(types, data, i).spec_total_size() <= u32::MAX
    &&& object_view(types, data, i).spec_total_size_aligned() <= usize::MAX
}

/// The objects met walking from word `i`, each object followed by the next
/// one right after it, until a word that starts no object.
pub open spec fn walk(types: TypeTable, data: Seq<usize>, i: int) -> Seq<int>
    decreases data.len() + 1 - i,
{
    if readable(types, data, i) {
        seq![i] + walk(types, data, i + object_words(types, data, i))
    } else {
        Seq::empty()
    }
}

/// Where the walk from word `i` stops.
pub open spec fn walk_end(types: TypeTable, data: Seq<usize>, i: int) -> int
    decreases data.len() + 1 - i,
{
    if readable(types, data, i) {
        walk_end(types, data, i + object_words(types, data, i))
    } else {
        i
    }
}

/// Whether the walk over `data` from its first object ends where the heap
/// says it ends: at a null method table pointer, or at the end of `data`,
/// never at an object of an unknown type or one that runs past the end.
pub open spec fn walkable(types: TypeTable, data: Seq<usize>) -> bool {
    let e = walk_end(types, data, 1);
    e >= data.len() || data[e] == 0
}

/// The objects of the walk from word `i` that are not free space.
pub open spec fn live_from(types: TypeTable, data: Seq<usize>, i: int) -> Seq<int>
    decreases data.len() + 1 - i,
{
    if readable(types, data, i) {
        let rest = live_from(types, data, i + object_words(types, data, i));
        if data[i] != types.spec_free_mt() {
            seq![i] + rest
        } else {
            rest
        }
    } else {
        Seq::empty()
    }
}

/// The objects of a walk are readable positions after the start.
pub proof fn lemma_live_from_range(types: TypeTable, data: Seq<usize>, i: int)
    ensures
        forall|k: int|
            0 <= k < live_from(types, data, i).len() ==> readable(types, data, #[trigger] live_from(types, data, i)[k])
                && live_from(types, data, i)[k] >= i,
    decreases data.len() + 1 - i,
{
    if readable(types, data, i) {
        let w = object_words(types, data, i);
        lemma_live_from_range(types, data, i + w);
        let rest = live_from(types, data, i + w);
        let l = live_from(types, data, i);
        assert forall|k: int| 0 <= k < l.len() implies readable(types, data, #[trigger] l[k]) && l[k] >= i by {
            if data[i] != types.spec_free_mt() {
                if k > 0 {
                    assert(l[k] == rest[k - 1]);
                }
            } else {
                assert(l[k] == rest[k]);
            }
        }
    }
}

pub proof fn lemma_object_words(types: TypeTable, data: Seq<usize>, i: int)
    requires
        types.wf(),
        readable(types, data, i),
    ensures
        object_words(types, data, i) >= 3,
        object_words(types, data, i) * 8 == object_view(types, data, i).spec_total_size_aligned(),
        i + 2 <= data.len(),
{
    types.lemma_wf_facts(data[i]);
    let t = object_view(types, data, i).spec_total_size();
    assert(t >= 24) by (nonlinear_arith)
        requires
            t == object_view(types, data, i).method_table.base_size as int + (if object_view(
                types,
                data,
                i,
            ).spec_has_component_size() {
                object_view(types, data, i).method_table.component_size as int * object_view(
                    types,
                    data,
                    i,
                ).component_count as int
            } else {
                0
            }),
            object_view(types, data, i).method_table.base_size >= 24,
    ;
}

/// A small-object segment: 32 KiB of heap words at address `base`, with a
/// mark bit, a pin bit and a finalization-pending bit per word.
pub struct Segment {
    data: Vec<usize>,
    base: usize,
    mark: FlagBits,
    pin: FlagBits,
    finalization_pending: FlagBits,
    alloc_completed: bool,
    alive_bytes: usize,
    available_from: usize,
}

impl Segment {
    pub closed spec fn words(self) -> Seq<usize> {
        self.data@
    }

    pub closed spec fn spec_base(self) -> usize {
        self.base
    }

    pub closed spec fn marks(self) -> Seq<bool> {
        flag_bits(self.mark)
    }

    pub closed spec fn pins(self) -> Seq<bool> {
        flag_bits(self.pin)
    }

    pub closed spec fn pendings(self) -> Seq<bool> {
        flag_bits(self.finalization_pending)
    }

    pub closed spec fn spec_alloc_completed(self) -> bool {
        self.alloc_completed
    }

    pub closed spec fn spec_alive_bytes(self) -> usize {
        self.alive_bytes
    }

    pub closed spec fn spec_available_from(self) -> usize {
        self.available_from
    }

    pub open spec fn wf(self) -> bool {
        &&& self.words().len() == POINTER_SIZE
        &&& self.marks().len() == POINTER_SIZE
        &&& self.pins().len() == POINTER_SIZE
        &&& self.pendings().len() == POINTER_SIZE
        &&& self.spec_base() > 0
        &&& self.spec_base() % 8 == 0
        &&& self.spec_base() + SEGMENT_SIZE <= usize::MAX
        &&& self.spec_available_from() <= POINTER_SIZE
    }

    /// The address of word `i`.
    pub open spec fn addr(self, i: int) -> int {
        self.spec_base() + 8 * i
    }

    /// Whether `or` points into the segment's words.
    pub open spec fn spec_contains(self, or: usize) -> bool {
        self.spec_base() <= or < self.spec_base() + SEGMENT_SIZE
    }

    /// The word index of the address `or`, if it is a word of the segment.
    pub open spec fn word_index(self, or: usize) -> Option<int> {
        if self.spec_contains(or) && (or - self.spec_base()) % 8 == 0 {
            Some((or - self.spec_base()) / 8)
        } else {
            None
        }
    }

    /// The objects of the segment, by word index, free space included.
    pub open spec fn objects(self, types: TypeTable) -> Seq<int> {
        walk(types, self.words(), 1)
    }

    /// The objects of the segment that are not free space, by word index.
    pub open spec fn live_objects(self, types: TypeTable) -> Seq<int> {
        live_from(types, self.words(), 1)
    }

    /// A segment over `data`, which must be the 4096 words at address `base`,
    /// with every flag cleared and nothing allocated yet.
    pub fn from_words(data: Vec<usize>, base: usize) -> (r: Option<Segment>)
        requires
            data@.len() == POINTER_SIZE,
        ensures
            r is Some <==> (base > 0 && base % 8 == 0 && base + SEGMENT_SIZE <= usize::MAX),
            r matches Some(s) ==> {
                &&& s.wf()
                &&& s.words() == data@
                &&& s.spec_base() == base
                &&& s.marks() == Seq::new(4096, |i: int| false)
                &&& s.pins() == Seq::new(4096, |i: int| false)
                &&& s.pendings() == Seq::new(4096, |i: int| false)
                &&& !s.spec_alloc_completed()
                &&& s.spec_alive_bytes() == 0
                &&& s.spec_available_from() == 0
            },
    {
        if base == 0 || base % 8 != 0 || base > usize::MAX - SEGMENT_SIZE {
            return None;
        }
        Some(Segment {
            data,
            base,
            mark: FlagBits::zero(),
            pin: FlagBits::zero(),
            finalization_pending: FlagBits::zero(),
            alloc_completed: false,
            alive_bytes: 0,
            available_from: 0,
        })
    }

    /// The words of the segment.
    pub fn data(&self) -> (r: &[usize])
        ensures
            r@ == self.words(),
    {
        self.data.as_slice()
    }

    /// The address of the first word.
    pub fn base(&self) -> (r: usize)
        ensures
            r == self.spec_base(),
    {
        self.base
    }

    /// Whether `or` points into the segment's words.
    pub fn contains(&self, or: usize) -> (r: bool)
        requires
            self.wf(),
        ensures
            r == self.spec_contains(or),
    {
        self.base <= or && or - self.base < SEGMENT_SIZE
    }

    /// The word index of `or`; an error where `or` is not a word of the segment.
    pub fn get_index(&self, or: usize) -> (r: Result<usize, ()>)
        requires
            self.wf(),
        ensures
            r matches Ok(i) ==> self.word_index(or) == Some(i as int),
            r is Err <==> self.word_index(or) is None,
    {
        match IndexOfPtr::index_of(self, or) {
            Some(i) => Ok(i),
            None => Err(()),
        }
    }

    /// The object at word `i` and the number of words it occupies, where an
    /// object starts there.
    pub fn object_at(&self, types: &TypeTable, i: usize) -> (r: Option<(Object, usize)>)
        requires
            self.wf(),
            types.wf(),
        ensures
            r is Some <==> readable(*types, self.words(), i as int),
            r matches Some((o, w)) ==> o == object_view(*types, self.words(), i as int) && w
                == object_words(*types, self.words(), i as int),
    {
        if i == 0 || i >= self.data.len() {
            return None;
        }
        let mt_addr = self.data[i];
        if mt_addr == 0 {
            return None;
        }
        let mt = match types.method_table(mt_addr) {
            Some(mt) => mt,
            None => return None,
        };
        let cc: u32 = if i + 1 < self.data.len() { #[verifier::truncate] (self.data[i + 1] as u32) } else { 0 };
        let header: u32 = #[verifier::truncate] (self.data[i - 1] as u32);
        let obj = Object { method_table: mt, component_count: cc, header };
        assert(obj == object_view(*types, self.words(), i as int));
        let total = match obj.checked_total_size() {
            Some(t) => t,
            None => return None,
        };
        let total64: u64 = total as u64;
        let aligned: u64 = (total64 + 7) / 8 * 8;
        assert(aligned == obj.spec_total_size_aligned());
        let words: u64 = aligned / 8;
        if words == 0 || (i as u64) - 1 + words > POINTER_SIZE as u64 {
            return None;
        }
        Some((obj, words as usize))
    }
}


/// The first object of the walk from word `i` that is not free space and
/// whose bytes `[addr, addr + size)` hold the address `x`, for a segment at
/// address `base`.
pub open spec fn find_from(types: TypeTable, data: Seq<usize>, base: int, i: int, x: int) -> Option<int>
    decreases data.len() + 1 - i,
{
    if readable(types, data, i) {
        let a = base + 8 * i;
        if data[i] != types.spec_free_mt() && a <= x < a + 8 * object_words(types, data, i) {
            Some(i)
        } else {
            find_from(types, data, base, i + object_words(types, data, i), x)
        }
    } else {
        None
    }
}

/// A cursor over the objects of a segment, free space included.
pub struct RawSegmentIter {
    /// Word index of the next object.
    pub next: usize,
}

impl RawSegmentIter {
    /// A cursor at the first object, right after the first header word.
    pub fn new() -> (r: RawSegmentIter)
        ensures
            r.next == 1,
    {
        RawSegmentIter { next: 1 }
    }

    /// The address and byte size (aligned) of the object at the cursor,
    /// moving the cursor past it; `None`, the cursor left where it is, where
    /// the cursor is past the end of the segment's words or the method table
    /// pointer there is null (see [`starts_object`]). An object that runs past
    /// the end of the segment is yielded too, and the call after it gives
    /// `None`. The segment's words at the cursor are read by the type they
    /// name, so a pointer to an unregistered type ends the walk as well.
    pub fn next(&mut self, seg: &Segment, types: &TypeTable) -> (r: Option<(usize, usize)>)
        requires
            seg.wf(),
            types.wf(),
        ensures
            starts_object(*types, seg.words(), old(self).next as int) ==> {
                &&& r == Some(
                    (
                        seg.addr(old(self).next as int) as usize,
                        (8 * object_words(*types, seg.words(), old(self).next as int)) as usize,
                    ),
                )
                &&& final(self).next == old(self).next + object_words(
                    *types,
                    seg.words(),
                    old(self).next as int,
                )
            },
            !starts_object(*types, seg.words(), old(self).next as int) ==> r is None && final(self).next
                == old(self).next,
    {
        let i = self.next;
        if i == 0 || i >= seg.data.len() {
            return None;
        }
        let mt_addr = seg.data[i];
        if mt_addr == 0 {
            return None;
        }
        let mt = match types.method_table(mt_addr) {
            Some(mt) => mt,
            None => return None,
        };
        let cc: u32 = if i + 1 < seg.data.len() { #[verifier::truncate] (seg.data[i + 1] as u32) } else { 0 };
        let header: u32 = #[verifier::truncate] (seg.data[i - 1] as u32);
        let obj = Object { method_table: mt, component_count: cc, header };
        assert(obj == object_view(*types, seg.words(), i as int));
        if obj.has_component_size() && i + 1 >= seg.data.len() {
            return None;
        }
        let total = match obj.checked_total_size() {
            Some(t) => t,
            None => return None,
        };
        let total64: u64 = total as u64;
        let aligned: u64 = (total64 + 7) / 8 * 8;
        assert(aligned == obj.spec_total_size_aligned());
        if aligned > usize::MAX as u64 {
            return None;
        }
        let words: usize = (aligned / 8) as usize;
        self.next = i + words;
        Some((seg.base + 8 * i, 8 * words))
    }

    /// The address and byte size of the object at the cursor, moving the
    /// cursor past it, where a whole object starts there ([`readable`]);
    /// else `None`. On a [`walkable`] segment the walk stops only where the
    /// method table pointer is null or at the end.
    fn advance(&mut self, seg: &Segment, types: &TypeTable) -> (r: Option<(usize, usize)>)
        requires
            seg.wf(),
            types.wf(),
        ensures
            readable(*types, seg.words(), old(self).next as int) ==> {
                &&& r == Some(
                    (
                        seg.addr(old(self).next as int) as usize,
                        (8 * object_words(*types, seg.words(), old(self).next as int)) as usize,
                    ),
                )
                &&& final(self).next == old(self).next + object_words(
                    *types,
                    seg.words(),
                    old(self).next as int,
                )
            },
            !readable(*types, seg.words(), old(self).next as int) ==> r is None && final(self).next
                == old(self).next,
    {
        match seg.object_at(types, self.next) {
            None => None,
            Some((_obj, words)) => {
                proof {
                    lemma_object_words(*types, seg.words(), self.next as int);
                }
                let prev = seg.base + 8 * self.next;
                self.next = self.next + words;
                Some((prev, 8 * words))
            },
        }
    }
}

impl Segment {
    /// The addresses of the objects of the segment that are not free space,
    /// in address order.
    pub fn iter(&self, types: &TypeTable) -> (r: Vec<usize>)
        requires
            self.wf(),
            types.wf(),
        ensures
            r@.map_values(|a: usize| a as int) == self.live_objects(*types).map_values(
                |i: int| self.addr(i),
            ),
    {
        let mut it = RawSegmentIter::new();
        let mut out: Vec<usize> = Vec::new();
        let ghost mut acc: Seq<int> = Seq::empty();
        loop
            invariant
                self.wf(),
                types.wf(),
                1 <= it.next <= POINTER_SIZE + 1,
                acc + live_from(*types, self.words(), it.next as int) == self.live_objects(*types),
                out@.map_values(|a: usize| a as int) == acc.map_values(|i: int| self.addr(i)),
            decreases POINTER_SIZE + 1 - it.next,
        {
            let cur = it.next;
            match it.advance(self, types) {
                None => {
                    assert(acc =~= self.live_objects(*types));
                    return out;
                },
                Some((addr, _size)) => {
                    proof {
                        lemma_object_words(*types, self.words(), cur as int);
                    }
                    if self.data[cur] != types.free_mt() {
                        let ghost prev = out@;
                        out.push(addr);
                        proof {
                            assert(out@.map_values(|a: usize| a as int) =~= prev.map_values(
                                |a: usize| a as int,
                            ).push(addr as int));
                            assert(acc.push(cur as int).map_values(|i: int| self.addr(i))
                                =~= acc.map_values(|i: int| self.addr(i)).push(self.addr(cur as int)));
                            assert(acc.push(cur as int) + live_from(*types, self.words(), it.next as int)
                                =~= acc + live_from(*types, self.words(), cur as int));
                            acc = acc.push(cur as int);
                        }
                    }
                },
            }
        }
    }

    /// The word index where the walk over the objects stops: the first
    /// position, after the last object met, where no object starts.
    pub fn walk_stop(&self, types: &TypeTable) -> (r: usize)
        requires
            self.wf(),
            types.wf(),
        ensures
            r == walk_end(*types, self.words(), 1),
    {
        let mut it = RawSegmentIter::new();
        loop
            invariant
                self.wf(),
                types.wf(),
                1 <= it.next <= POINTER_SIZE + 1,
                walk_end(*types, self.words(), it.next as int) == walk_end(*types, self.words(), 1),
            decreases POINTER_SIZE + 1 - it.next,
        {
            let cur = it.next;
            match it.advance(self, types) {
                None => {
                    return cur;
                },
                Some(_) => {
                    proof {
                        lemma_object_words(*types, self.words(), cur as int);
                    }
                },
            }
        }
    }

    /// Whether the walk over the segment ends at a null method table pointer
    /// or at its end (see [`walkable`]); where it does, the walk meets
    /// exactly the objects that the heap holds.
    pub fn is_walkable(&self, types: &TypeTable) -> (r: bool)
        requires
            self.wf(),
            types.wf(),
        ensures
            r == walkable(*types, self.words()),
    {
        let e = self.walk_stop(types);
        e >= POINTER_SIZE || self.data[e] == 0
    }

    /// The object that holds the address `or_maybe` (an interior reference),
    /// skipping free space.
    pub fn find_object(&self, types: &TypeTable, or_maybe: usize) -> (r: Option<usize>)
        requires
            self.wf(),
            types.wf(),
        ensures
            r matches Some(a) ==> find_from(*types, self.words(), self.spec_base() as int, 1, or_maybe as int)
                matches Some(i) && a == self.addr(i),
            r is None ==> find_from(*types, self.words(), self.spec_base() as int, 1, or_maybe as int) is None,
    {
        let mut it = RawSegmentIter::new();
        loop
            invariant
                self.wf(),
                types.wf(),
                1 <= it.next <= POINTER_SIZE + 1,
                find_from(*types, self.words(), self.spec_base() as int, it.next as int, or_maybe as int)
                    == find_from(*types, self.words(), self.spec_base() as int, 1, or_maybe as int),
            decreases POINTER_SIZE + 1 - it.next,
        {
            let cur = it.next;
            match it.advance(self, types) {
                None => {
                    return None;
                },
                Some((o, size)) => {
                    proof {
                        lemma_object_words(*types, self.words(), cur as int);
                    }
                    if self.data[cur] != types.free_mt() && or_maybe >= o && or_maybe - o < size {
                        return Some(o);
                    }
                },
            }
        }
    }
}

impl Segment {
    /// Marks the object at `or` as reachable, and pins it when `pin` is set;
    /// `Ok(true)` when it was not marked before. An error where `or` is not a
    /// word of the segment.
    pub fn mark_object(&mut self, or: usize, pin: bool) -> (r: Result<bool, ()>)
        requires
            old(self).wf(),
        ensures
            final(self).wf(),
            old(self).word_index(or) is None ==> r is Err && *final(self) == *old(self),
            old(self).word_index(or) matches Some(i) ==> {
                &&& r == Ok::<bool, ()>(!old(self).marks()[i])
                &&& final(self).marks() == old(self).marks().update(i, true)
                &&& final(self).pins() == (if pin {
                    old(self).pins().update(i, true)
                } else {
                    old(self).pins()
                })
                &&& final(self).words() == old(self).words()
                &&& final(self).pendings() == old(self).pendings()
                &&& final(self).spec_base() == old(self).spec_base()
                &&& final(self).spec_alloc_completed() == old(self).spec_alloc_completed()
                &&& final(self).spec_alive_bytes() == old(self).spec_alive_bytes()
                &&& final(self).spec_available_from() == old(self).spec_available_from()
            },
    {
        let index = self.get_index(or)?;
        if pin {
            self.pin.replace(index, true);
        }
        Ok(!self.mark.replace(index, true))
    }

    /// Whether the object at `or` is marked; an error where `or` is not a word
    /// of the segment.
    pub fn is_marked(&self, or: usize) -> (r: Result<bool, ()>)
        requires
            self.wf(),
        ensures
            self.word_index(or) is None ==> r is Err,
            self.word_index(or) matches Some(i) ==> r == Ok::<bool, ()>(self.marks()[i]),
    {
        let index = self.get_index(or)?;
        Ok(self.mark.get(index))
    }

    /// Whether the object at `or` is pinned; an error where `or` is not a word
    /// of the segment.
    pub fn is_pinned(&self, or: usize) -> (r: Result<bool, ()>)
        requires
            self.wf(),
        ensures
            self.word_index(or) is None ==> r is Err,
            self.word_index(or) matches Some(i) ==> r == Ok::<bool, ()>(self.pins()[i]),
    {
        let index = self.get_index(or)?;
        Ok(self.pin.get(index))
    }

    /// Whether any object of the segment is pinned.
    pub fn contains_pinned(&self) -> (r: bool)
        requires
            self.wf(),
        ensures
            r == self.pins().contains(true),
    {
        self.pin.any()
    }

    /// Whether any object of the segment is marked.
    pub fn contains_marked(&self) -> (r: bool)
        requires
            self.wf(),
        ensures
            r == self.marks().contains(true),
    {
        self.mark.any()
    }

    /// Clears the mark and pin bits; the finalization-pending bits stay.
    pub fn clear_flags(&mut self)
        requires
            old(self).wf(),
        ensures
            final(self).wf(),
            final(self).marks() == Seq::new(POINTER_SIZE as nat, |i: int| false),
            final(self).pins() == Seq::new(POINTER_SIZE as nat, |i: int| false),
            final(self).pendings() == old(self).pendings(),
            final(self).words() == old(self).words(),
            final(self).spec_base() == old(self).spec_base(),
            final(self).spec_alloc_completed() == old(self).spec_alloc_completed(),
            final(self).spec_alive_bytes() == old(self).spec_alive_bytes(),
            final(self).spec_available_from() == old(self).spec_available_from(),
    {
        self.mark.fill(false);
        self.pin.fill(false);
    }

    /// Sets the finalization-pending bit of the object at `or`; an error where
    /// `or` is not a word of the segment.
    pub fn set_finalization_pending(&mut self, or: usize, pending: bool) -> (r: Result<(), ()>)
        requires
            old(self).wf(),
        ensures
            final(self).wf(),
            old(self).word_index(or) is None ==> r is Err && *final(self) == *old(self),
            old(self).word_index(or) matches Some(i) ==> {
                &&& r is Ok
                &&& final(self).pendings() == old(self).pendings().update(i, pending)
                &&& final(self).marks() == old(self).marks()
                &&& final(self).pins() == old(self).pins()
                &&& final(self).words() == old(self).words()
                &&& final(self).spec_base() == old(self).spec_base()
                &&& final(self).spec_alloc_completed() == old(self).spec_alloc_completed()
                &&& final(self).spec_alive_bytes() == old(self).spec_alive_bytes()
                &&& final(self).spec_available_from() == old(self).spec_available_from()
            },
    {
        let index = self.get_index(or)?;
        self.finalization_pending.replace(index, pending);
        Ok(())
    }

    /// The finalization-pending bit of the object at `or`; an error where `or`
    /// is not a word of the segment.
    pub fn get_finalization_pending(&self, or: usize) -> (r: Result<bool, ()>)
        requires
            self.wf(),
        ensures
            self.word_index(or) is None ==> r is Err,
            self.word_index(or) matches Some(i) ==> r == Ok::<bool, ()>(self.pendings()[i]),
    {
        let index = self.get_index(or)?;
        Ok(self.finalization_pending.get(index))
    }

    /// Records that the segment has been handed out for allocation entirely.
    pub fn set_alloc_completed(&mut self)
        ensures
            final(self).spec_alloc_completed(),
            final(self).words() == old(self).words(),
            final(self).marks() == old(self).marks(),
            final(self).pins() == old(self).pins(),
            final(self).pendings() == old(self).pendings(),
            final(self).spec_base() == old(self).spec_base(),
            final(self).spec_alive_bytes() == old(self).spec_alive_bytes(),
            final(self).spec_available_from() == old(self).spec_available_from(),
            old(self).wf() ==> final(self).wf(),
    {
        self.alloc_completed = true;
    }

    pub fn get_alloc_completed(&self) -> (r: bool)
        ensures
            r == self.spec_alloc_completed(),
    {
        self.alloc_completed
    }

    /// Bytes of the objects that survived the last sweep.
    pub fn alive_bytes(&self) -> (r: usize)
        ensures
            r == self.spec_alive_bytes(),
    {
        self.alive_bytes
    }

    /// The address range `[start, end)` after the last surviving object,
    /// starting with the header word of the first free object position.
    pub fn available_range(&self) -> (r: (usize, usize))
        requires
            self.wf(),
        ensures
            r.0 == self.addr(self.spec_available_from() as int),
            r.1 == self.spec_base() + SEGMENT_SIZE,
    {
        (self.base + 8 * self.available_from, self.base + SEGMENT_SIZE)
    }

    /// The word at address `addr`, where it is a word of the segment.
    pub fn load_word(&self, addr: usize) -> (r: Option<usize>)
        requires
            self.wf(),
        ensures
            self.word_index(addr) matches Some(i) ==> r == Some(self.words()[i]),
            self.word_index(addr) is None ==> r is None,
    {
        match self.get_index(addr) {
            Ok(i) => Some(self.data[i]),
            Err(_) => None,
        }
    }

    /// Writes `value` at address `addr`, where it is a word of the segment
    /// (what the runtime does when it fills an allocated object); returns
    /// whether it did.
    pub fn store_word(&mut self, addr: usize, value: usize) -> (r: bool)
        requires
            old(self).wf(),
        ensures
            final(self).wf(),
            r == (old(self).word_index(addr) is Some),
            old(self).word_index(addr) matches Some(i) ==> final(self).words() == old(self).words().update(
                i,
                value,
            ),
            old(self).word_index(addr) is None ==> final(self).words() == old(self).words(),
            final(self).marks() == old(self).marks(),
            final(self).pins() == old(self).pins(),
            final(self).pendings() == old(self).pendings(),
            final(self).spec_base() == old(self).spec_base(),
            final(self).spec_alloc_completed() == old(self).spec_alloc_completed(),
            final(self).spec_alive_bytes() == old(self).spec_alive_bytes(),
            final(self).spec_available_from() == old(self).spec_available_from(),
    {
        match self.get_index(addr) {
            Ok(i) => {
                self.data.set(i, value);
                true
            },
            Err(_) => false,
        }
    }
}

/// The live objects of the walk from word `i` that are marked in `marks`.
pub open spec fn kept_from(types: TypeTable, data: Seq<usize>, marks: Seq<bool>, i: int) -> Seq<int>
    decreases data.len() + 1 - i,
{
    if readable(types, data, i) {
        let rest = kept_from(types, data, marks, i + object_words(types, data, i));
        if marks[i] && data[i] != types.spec_free_mt() {
            seq![i] + rest
        } else {
            rest
        }
    } else {
        Seq::empty()
    }
}

/// Words of the live (non-free) objects of the walk from word `i`.
pub open spec fn live_words_from(types: TypeTable, data: Seq<usize>, i: int) -> int
    decreases data.len() + 1 - i,
{
    if readable(types, data, i) {
        let rest = live_words_from(types, data, i + object_words(types, data, i));
        if data[i] != types.spec_free_mt() {
            object_words(types, data, i) + rest
        } else {
            rest
        }
    } else {
        0
    }
}

/// Words of the marked live objects of the walk from word `i`.
pub open spec fn kept_words_from(types: TypeTable, data: Seq<usize>, marks: Seq<bool>, i: int) -> int
    decreases data.len() + 1 - i,
{
    if readable(types, data, i) {
        let rest = kept_words_from(types, data, marks, i + object_words(types, data, i));
        if marks[i] && data[i] != types.spec_free_mt() {
            object_words(types, data, i) + rest
        } else {
            rest
        }
    } else {
        0
    }
}

pub proof fn lemma_live_words_nonneg(types: TypeTable, data: Seq<usize>, i: int)
    ensures
        0 <= live_words_from(types, data, i),
    decreases data.len() + 1 - i,
{
    if readable(types, data, i) {
        lemma_live_words_nonneg(types, data, i + object_words(types, data, i));
    }
}

pub proof fn lemma_kept_words_le_alive(types: TypeTable, data: Seq<usize>, marks: Seq<bool>, i: int)
    requires
        types.wf(),
    ensures
        0 <= kept_words_from(types, data, marks, i),
        8 * kept_words_from(types, data, marks, i) <= alive_from(types, data, marks, i),
    decreases data.len() + 1 - i,
{
    if readable(types, data, i) {
        lemma_object_words(types, data, i);
        lemma_kept_words_le_alive(types, data, marks, i + object_words(types, data, i));
    }
}

/// Bytes of the marked objects of the walk from word `i`.
pub open spec fn alive_from(types: TypeTable, data: Seq<usize>, marks: Seq<bool>, i: int) -> int
    decreases data.len() + 1 - i,
{
    if readable(types, data, i) {
        let rest = alive_from(types, data, marks, i + object_words(types, data, i));
        if marks[i] {
            8 * object_words(types, data, i) + rest
        } else {
            rest
        }
    } else {
        0
    }
}

/// The first marked object of the walk from word `i`, or where the walk stops.
pub open spec fn next_marked(types: TypeTable, data: Seq<usize>, marks: Seq<bool>, i: int) -> int
    decreases data.len() + 1 - i,
{
    if readable(types, data, i) && !marks[i] {
        next_marked(types, data, marks, i + object_words(types, data, i))
    } else {
        i
    }
}

/// Where the trailing run of unmarked objects of the walk from word `i`
/// starts (where the walk stops when the last object is marked).
pub open spec fn free_tail(types: TypeTable, data: Seq<usize>, marks: Seq<bool>, i: int) -> int
    decreases data.len() + 1 - i,
{
    if readable(types, data, i) {
        let w = object_words(types, data, i);
        let t = free_tail(types, data, marks, i + w);
        if !marks[i] && t == i + w {
            i
        } else {
            t
        }
    } else {
        i
    }
}

/// The words after sweeping the walk of `data` from word `i` into `acc`:
/// each run of unmarked objects followed by a marked one becomes a single
/// free object, and a trailing run of unmarked objects ends the heap (its
/// first method table pointer becomes null).
pub open spec fn swept_words(types: TypeTable, data: Seq<usize>, marks: Seq<bool>, acc: Seq<usize>, i: int) -> Seq<usize>
    decreases data.len() + 1 - i, 1int,
{
    if !readable(types, data, i) {
        acc
    } else if marks[i] {
        swept_words(types, data, marks, acc, i + object_words(types, data, i))
    } else {
        let t = next_marked(types, data, marks, i);
        if readable(types, data, t) && t > i {
            swept_words(
                types,
                data,
                marks,
                acc.update(i, types.spec_free_mt()).update(i + 1, (8 * (t - i) - BASE_SIZE) as usize),
                t,
            )
        } else {
            acc.update(i, 0)
        }
    }
}

pub proof fn lemma_next_marked(types: TypeTable, data: Seq<usize>, marks: Seq<bool>, i: int)
    requires
        types.wf(),
    ensures
        next_marked(types, data, marks, i) >= i,
        readable(types, data, i) && !marks[i] ==> next_marked(types, data, marks, i) >= i + 3,
        readable(types, data, next_marked(types, data, marks, i)) ==> marks[next_marked(types, data, marks, i)],
        kept_from(types, data, marks, i) == kept_from(types, data, marks, next_marked(types, data, marks, i)),
        !readable(types, data, next_marked(types, data, marks, i)) ==> kept_from(types, data, marks, i)
            == Seq::<int>::empty(),
        kept_words_from(types, data, marks, i) == kept_words_from(types, data, marks, next_marked(types, data, marks, i)),
        !readable(types, data, next_marked(types, data, marks, i)) ==> kept_words_from(types, data, marks, i) == 0,
    decreases data.len() + 1 - i,
{
    if readable(types, data, i) {
        lemma_object_words(types, data, i);
        if !marks[i] {
            lemma_next_marked(types, data, marks, i + object_words(types, data, i));
        }
    }
}

pub proof fn lemma_free_tail(types: TypeTable, data: Seq<usize>, marks: Seq<bool>, i: int)
    requires
        types.wf(),
    ensures
        free_tail(types, data, marks, i) >= i,
        i <= data.len() + 1 ==> free_tail(types, data, marks, i) <= data.len() + 1,
        free_tail(types, data, marks, i) >= 1 || i < 1,
    decreases data.len() + 1 - i,
{
    if readable(types, data, i) {
        lemma_object_words(types, data, i);
        lemma_free_tail(types, data, marks, i + object_words(types, data, i));
    }
}

/// Where no marked object survives from word `i` on, the free tail starts
/// at `i`.
pub proof fn lemma_nothing_alive_tail(types: TypeTable, data: Seq<usize>, marks: Seq<bool>, i: int)
    ensures
        alive_from(types, data, marks, i) >= 0,
        alive_from(types, data, marks, i) == 0 ==> free_tail(types, data, marks, i) == i,
    decreases data.len() + 1 - i,
{
    if readable(types, data, i) {
        lemma_nothing_alive_tail(types, data, marks, i + object_words(types, data, i));
    }
}

pub proof fn lemma_alive_from(types: TypeTable, data: Seq<usize>, marks: Seq<bool>, i: int)
    requires
        types.wf(),
        1 <= i,
    ensures
        0 <= alive_from(types, data, marks, i) <= 8 * (data.len() + 1 - i) || !(i <= data.len() + 1),
        0 <= alive_from(types, data, marks, i),
    decreases data.len() + 1 - i,
{
    if readable(types, data, i) {
        lemma_object_words(types, data, i);
        lemma_alive_from(types, data, marks, i + object_words(types, data, i));
    }
}

/// Whether `a` and `b` hold the same words from index `from` on.
pub open spec fn same_from(a: Seq<usize>, b: Seq<usize>, from: int) -> bool {
    a.len() == b.len() && forall|j: int| from <= j < a.len() ==> #[trigger] a[j] == b[j]
}

/// Whether `a` and `b` have the same length and agree on the three words
/// around `i` that an object at `i` is read from.
pub open spec fn same_around(a: Seq<usize>, b: Seq<usize>, i: int) -> bool {
    &&& a.len() == b.len()
    &&& (0 <= i - 1 < a.len() ==> a[i - 1] == b[i - 1])
    &&& (0 <= i < a.len() ==> a[i] == b[i])
    &&& (0 <= i + 1 < a.len() ==> a[i + 1] == b[i + 1])
}

proof fn lemma_readable_same(types: TypeTable, a: Seq<usize>, b: Seq<usize>, i: int)
    requires
        same_around(a, b, i),
    ensures
        readable(types, a, i) == readable(types, b, i),
        1 <= i < a.len() ==> object_words(types, a, i) == object_words(types, b, i)
            && object_view(types, a, i) == object_view(types, b, i),
{
    if 1 <= i < a.len() {
        assert(object_view(types, a, i) == object_view(types, b, i));
    }
}

proof fn lemma_free_object(types: TypeTable, out: Seq<usize>, i: int, t: int)
    requires
        types.wf(),
        1 <= i,
        i + 3 <= t < out.len(),
        out.len() == POINTER_SIZE,
        out[i] == types.spec_free_mt(),
        out[i + 1] == (8 * (t - i) - BASE_SIZE) as usize,
    ensures
        readable(types, out, i),
        object_words(types, out, i) == t - i,
{
    types.lemma_wf_facts(out[i]);
    let cnt = 8 * (t - i) - 24;
    assert(out[i + 1] == cnt);
    assert((out[i + 1] as u32) == cnt);
    let o = object_view(types, out, i);
    assert(o.component_count == cnt);
    assert(o.spec_total_size() == 8 * (t - i));
    assert(o.spec_total_size_aligned() == 8 * (t - i));
}

/// Across a run of unmarked objects that a marked object ends, the
/// trailing free run starts where it starts from that marked object.
proof fn lemma_free_tail_at_marked(types: TypeTable, data: Seq<usize>, marks: Seq<bool>, i: int)
    requires
        types.wf(),
        readable(types, data, next_marked(types, data, marks, i)),
    ensures
        free_tail(types, data, marks, i) == free_tail(types, data, marks, next_marked(types, data, marks, i)),
        free_tail(types, data, marks, i) > next_marked(types, data, marks, i),
    decreases data.len() + 1 - i,
{
    let t = next_marked(types, data, marks, i);
    if readable(types, data, i) && !marks[i] {
        let w = object_words(types, data, i);
        lemma_object_words(types, data, i);
        lemma_free_tail_at_marked(types, data, marks, i + w);
        lemma_next_marked(types, data, marks, i + w);
    } else {
        lemma_object_words(types, data, t);
        lemma_free_tail(types, data, marks, t + object_words(types, data, t));
    }
}

proof fn lemma_swept_words(types: TypeTable, data: Seq<usize>, marks: Seq<bool>, acc: Seq<usize>, i: int)
    requires
        types.wf(),
        i >= 1,
        data.len() == POINTER_SIZE,
        same_from(acc, data, i - 1),
    ensures
        live_from(types, swept_words(types, data, marks, acc, i), i) == kept_from(types, data, marks, i),
        live_words_from(types, swept_words(types, data, marks, acc, i), i) == kept_words_from(types, data, marks, i),
        walk_end(types, swept_words(types, data, marks, acc, i), i) <= free_tail(types, data, marks, i),
        swept_words(types, data, marks, acc, i).len() == acc.len(),
        forall|j: int|
            0 <= j < i - 1 && j < acc.len() ==> #[trigger] swept_words(types, data, marks, acc, i)[j]
                == acc[j],
        forall|k: int|
            0 <= k < kept_from(types, data, marks, i).len() ==> same_around(
                swept_words(types, data, marks, acc, i),
                data,
                #[trigger] kept_from(types, data, marks, i)[k],
            ),
    decreases data.len() + 1 - i,
{
    let out = swept_words(types, data, marks, acc, i);
    assert(same_around(acc, data, i));
    lemma_readable_same(types, acc, data, i);
    lemma_free_tail(types, data, marks, i);
    if !readable(types, data, i) {
    } else if marks[i] {
        lemma_object_words(types, data, i);
        let w = object_words(types, data, i);
        lemma_swept_words(types, data, marks, acc, i + w);
        assert(out[i - 1] == acc[i - 1]);
        assert(out[i] == acc[i]);
        assert(out[i + 1] == acc[i + 1]);
        assert(same_around(out, data, i));
        lemma_readable_same(types, out, data, i);
        let kept = kept_from(types, data, marks, i);
        let rest = kept_from(types, data, marks, i + w);
        assert forall|k: int| 0 <= k < kept.len() implies same_around(out, data, #[trigger] kept[k]) by {
            if data[i] != types.spec_free_mt() {
                if k > 0 {
                    assert(kept[k] == rest[k - 1]);
                }
            } else {
                assert(kept[k] == rest[k]);
            }
        }
    } else {
        lemma_object_words(types, data, i);
        lemma_next_marked(types, data, marks, i);
        let t = next_marked(types, data, marks, i);
        if readable(types, data, t) && t > i {
            let acc2 = acc.update(i, types.spec_free_mt()).update(i + 1, (8 * (t - i) - BASE_SIZE) as usize);
            assert(same_from(acc2, data, t - 1));
            lemma_swept_words(types, data, marks, acc2, t);
            assert(out[i] == acc2[i]);
            assert(out[i + 1] == acc2[i + 1]);
            lemma_free_object(types, out, i, t);
            types.lemma_wf_facts(types.spec_free_mt());
            lemma_free_tail_at_marked(types, data, marks, i);
        } else {
            assert(out[i] == 0);
        }
    }
}

impl Segment {
    /// Sweeps the segment: every run of unmarked objects followed by a marked
    /// one becomes one free object, a trailing run of unmarked objects is cut
    /// off (its first method table pointer becomes null) and becomes the
    /// space available for allocation. Records the bytes of the marked
    /// objects and returns whether there are any.
    pub fn sweep(&mut self, types: &TypeTable) -> (r: bool)
        requires
            old(self).wf(),
            types.wf(),
        ensures
            final(self).wf(),
            final(self).words() == swept_words(*types, old(self).words(), old(self).marks(), old(self).words(), 1),
            final(self).live_objects(*types) == kept_from(*types, old(self).words(), old(self).marks(), 1),
            forall|k: int|
                0 <= k < final(self).live_objects(*types).len() ==> same_around(
                    final(self).words(),
                    old(self).words(),
                    #[trigger] final(self).live_objects(*types)[k],
                ),
            final(self).spec_alive_bytes() == alive_from(*types, old(self).words(), old(self).marks(), 1),
            8 * live_words_from(*types, final(self).words(), 1) <= final(self).spec_alive_bytes(),
            walk_end(*types, final(self).words(), 1) <= final(self).spec_available_from() + 1,
            r == (final(self).spec_alive_bytes() != 0),
            final(self).spec_available_from() == ({
                let t = free_tail(*types, old(self).words(), old(self).marks(), 1);
                if t < POINTER_SIZE { t - 1 } else { POINTER_SIZE as int }
            }),
            final(self).marks() == old(self).marks(),
            final(self).pins() == old(self).pins(),
            final(self).pendings() == old(self).pendings(),
            final(self).spec_base() == old(self).spec_base(),
            final(self).spec_alloc_completed() == old(self).spec_alloc_completed(),
    {
        let ghost d0 = self.data@;
        let ghost m = self.marks();
        let ghost target = swept_words(*types, d0, m, d0, 1);
        let mut alive: usize = 0;
        let mut empty_from: Option<usize> = None;
        let mut it = RawSegmentIter::new();
        proof {
            lemma_alive_from(*types, d0, m, 1);
        }
        loop
            invariant
                self.wf(),
                types.wf(),
                d0.len() == POINTER_SIZE,
                m == self.marks(),
                1 <= it.next <= POINTER_SIZE + 1,
                empty_from matches Some(s) ==> {
                    &&& 1 <= s
                    &&& s + 3 <= it.next
                    &&& readable(*types, d0, s as int)
                    &&& !m[s as int]
                    &&& next_marked(*types, d0, m, s as int) == next_marked(*types, d0, m, it.next as int)
                    &&& same_from(self.data@, d0, s - 1)
                    &&& swept_words(*types, d0, m, self.data@, s as int) == target
                    &&& free_tail(*types, d0, m, 1) == (if free_tail(*types, d0, m, it.next as int)
                        == it.next { s as int } else { free_tail(*types, d0, m, it.next as int) })
                },
                empty_from is None ==> {
                    &&& same_from(self.data@, d0, it.next - 1)
                    &&& swept_words(*types, d0, m, self.data@, it.next as int) == target
                    &&& free_tail(*types, d0, m, 1) == free_tail(*types, d0, m, it.next as int)
                },
                alive + alive_from(*types, d0, m, it.next as int) == alive_from(*types, d0, m, 1),
                alive <= 8 * (it.next - 1),
                self.pins() == old(self).pins(),
                self.pendings() == old(self).pendings(),
                self.spec_base() == old(self).spec_base(),
                self.spec_alloc_completed() == old(self).spec_alloc_completed(),
            ensures
                !readable(*types, d0, it.next as int),
            decreases POINTER_SIZE + 1 - it.next,
        {
            let cur = it.next;
            proof {
                assert(same_around(self.data@, d0, cur as int));
                lemma_readable_same(*types, self.data@, d0, cur as int);
                lemma_alive_from(*types, d0, m, cur as int);
                lemma_free_tail(*types, d0, m, cur as int);
            }
            match it.advance(self, types) {
                None => {
                    break;
                },
                Some((_o, size)) => {
                    proof {
                        lemma_object_words(*types, d0, cur as int);
                        lemma_alive_from(*types, d0, m, it.next as int);
                        lemma_free_tail(*types, d0, m, it.next as int);
                    }
                    let ghost w = object_words(*types, d0, cur as int);
                    if self.mark.get(cur) {
                        alive = alive + size;
                        if let Some(last) = empty_from {
                            let count: usize = 8 * (cur - last) - BASE_SIZE;
                            let free_mt = types.free_mt();
                            let ghost dprev = self.data@;
                            self.data.set(last, free_mt);
                            self.data.set(last + 1, count);
                            proof {
                                assert(next_marked(*types, d0, m, cur as int) == cur);
                                assert(self.data@ == dprev.update(last as int, free_mt).update(
                                    last + 1,
                                    (8 * (cur - last) - BASE_SIZE) as usize,
                                ));
                                assert(swept_words(*types, d0, m, dprev, last as int) == swept_words(
                                    *types,
                                    d0,
                                    m,
                                    self.data@,
                                    cur as int,
                                ));
                                assert(same_from(self.data@, d0, cur - 1));
                            }
                        }
                        proof {
                            assert(swept_words(*types, d0, m, self.data@, cur as int) == swept_words(
                                *types,
                                d0,
                                m,
                                self.data@,
                                cur + w,
                            ));
                        }
                        empty_from = None;
                    } else {
                        if empty_from.is_none() {
                            empty_from = Some(cur);
                        }
                    }
                },
            }
        }
        proof {
            lemma_free_tail(*types, d0, m, it.next as int);
            assert(next_marked(*types, d0, m, it.next as int) == it.next);
        }
        let end = match empty_from {
            Some(last) => {
                let ghost dprev = self.data@;
                self.data.set(last, 0);
                proof {
                    assert(swept_words(*types, d0, m, dprev, last as int) == dprev.update(last as int, 0));
                }
                last
            },
            None => it.next,
        };
        proof {
            assert(self.data@ == target);
        }
        proof {
            lemma_swept_words(*types, d0, m, d0, 1);
            lemma_kept_words_le_alive(*types, d0, m, 1);
            lemma_free_tail(*types, d0, m, 1);
        }
        self.available_from = if end < POINTER_SIZE { end - 1 } else { POINTER_SIZE };
        self.alive_bytes = alive;
        alive != 0
    }
}

/// `<[usize]>::as_ptr` on the words of `v`, as an address. Where the buffer
/// lies is up to the allocator; what std guarantees of every slice is stated:
/// its pointer is not null, and where `usize` has 64 bits it is aligned to 8
/// bytes and the buffer's 8-byte words do not wrap around the address space.
#[verifier::external_body]
fn buffer_address(v: &Vec<usize>) -> (r: usize)
    ensures
        r != 0,
        usize::BITS == 64 ==> r % 8 == 0,
        usize::BITS == 64 ==> r + 8 * v@.len() <= usize::MAX,
{
    v.as_ptr() as usize
}

impl Segment {
    /// A new zeroed segment at the address of its own buffer, which suits a
    /// segment wherever `usize` has 64 bits.
    pub fn new_boxed() -> (r: Option<Segment>)
        ensures
            usize::BITS == 64 ==> r is Some,
            r matches Some(s) ==> {
                &&& s.wf()
                &&& s.words() == Seq::new(POINTER_SIZE as nat, |i: int| 0usize)
                &&& s.marks() == Seq::new(4096, |i: int| false)
                &&& s.pins() == Seq::new(4096, |i: int| false)
                &&& s.pendings() == Seq::new(4096, |i: int| false)
                &&& !s.spec_alloc_completed()
                &&& s.spec_alive_bytes() == 0
                &&& s.spec_available_from() == 0
            },
    {
        let data: Vec<usize> = vec![0usize; POINTER_SIZE];
        let base = buffer_address(&data);
        proof {
            assert(data@ =~= Seq::new(POINTER_SIZE as nat, |i: int| 0usize));
        }
        Segment::from_words(data, base)
    }
}

impl IndexOfPtr for Segment {
    /// The index of the word at address `ptr`, where it is a word of the
    /// segment.
    fn index_of(&self, ptr: usize) -> (r: Option<usize>)
        ensures
            r matches Some(i) ==> self.word_index(ptr) == Some(i as int),
            r is None <==> self.word_index(ptr) is None,
    {
        if self.base <= ptr && ptr - self.base < SEGMENT_SIZE && (ptr - self.base) % 8 == 0 {
            Some((ptr - self.base) / 8)
        } else {
            None
        }
    }
}

/// A segment holding a single object: a large object, or a pinned one.
/// The object starts right after the first (header) word.
pub struct LargeSegment {
    data: Vec<usize>,
    base: usize,
    mark: bool,
    finalization_pending: bool,
}

impl LargeSegment {
    pub closed spec fn words(self) -> Seq<usize> {
        self.data@
    }

    pub closed spec fn spec_base(self) -> usize {
        self.base
    }

    pub closed spec fn spec_mark(self) -> bool {
        self.mark
    }

    pub closed spec fn spec_pending(self) -> bool {
        self.finalization_pending
    }

    pub open spec fn wf(self) -> bool {
        &&& self.words().len() >= 2
        &&& self.spec_base() > 0
        &&& self.spec_base() % 8 == 0
        &&& self.spec_base() + 8 * self.words().len() <= usize::MAX
    }

    /// The address of the segment's object.
    pub open spec fn object_ref(self) -> int {
        self.spec_base() + 8
    }

    /// Whether `or` points into the object (the header word excluded).
    pub open spec fn spec_contains(self, or: usize) -> bool {
        self.spec_base() + 8 <= or < self.spec_base() + 8 * self.words().len()
    }

    /// A segment of `size` bytes for one object, header word included, over
    /// `data` at address `base`; `None` where `base` does not suit a segment.
    pub fn from_words(data: Vec<usize>, base: usize) -> (r: Option<LargeSegment>)
        requires
            data@.len() >= 2,
        ensures
            r is Some <==> (base > 0 && base % 8 == 0 && base + 8 * data@.len() <= usize::MAX),
            r matches Some(s) ==> s.wf() && s.words() == data@ && s.spec_base() == base
                && !s.spec_mark() && !s.spec_pending(),
    {
        let len = data.len();
        if base == 0 || base % 8 != 0 || len > (usize::MAX - base) / 8 {
            return None;
        }
        Some(LargeSegment { data, base, mark: false, finalization_pending: false })
    }

    /// A zeroed segment for one object of `size` bytes (a multiple of the
    /// pointer size), plus the header word before it.
    pub fn new(size: usize) -> (r: Option<LargeSegment>)
        requires
            size % 8 == 0,
            size >= 8,
        ensures
            usize::BITS == 64 ==> r is Some,
            r matches Some(s) ==> s.wf() && s.words() == Seq::new((size / 8 + 1) as nat, |i: int| 0usize)
                && !s.spec_mark() && !s.spec_pending(),
    {
        let data: Vec<usize> = vec![0usize; size / 8 + 1];
        let base = buffer_address(&data);
        proof {
            assert(data@ =~= Seq::new((size / 8 + 1) as nat, |i: int| 0usize));
        }
        LargeSegment::from_words(data, base)
    }

    /// The words of the segment.
    pub fn data(&self) -> (r: &[usize])
        ensures
            r@ == self.words(),
    {
        self.data.as_slice()
    }

    pub fn base(&self) -> (r: usize)
        ensures
            r == self.spec_base(),
    {
        self.base
    }

    /// The address of the object.
    pub fn as_object_ref(&self) -> (r: usize)
        requires
            self.wf(),
        ensures
            r == self.object_ref(),
    {
        self.base + 8
    }

    /// The segment's single object.
    pub fn iter(&self) -> (r: Vec<usize>)
        requires
            self.wf(),
        ensures
            r@ == seq![self.object_ref() as usize],
    {
        let mut v = Vec::new();
        v.push(self.as_object_ref());
        v
    }

    /// Whether `or` points into the object.
    pub fn contains(&self, or: usize) -> (r: bool)
        requires
            self.wf(),
        ensures
            r == self.spec_contains(or),
    {
        self.base + 8 <= or && or < self.base + 8 * self.data.len()
    }

    /// The object, where `or_maybe` points into it.
    pub fn find_object(&self, or_maybe: usize) -> (r: Option<usize>)
        requires
            self.wf(),
        ensures
            r == (if self.spec_contains(or_maybe) {
                Some(self.object_ref() as usize)
            } else {
                None
            }),
    {
        if self.contains(or_maybe) {
            Some(self.as_object_ref())
        } else {
            None
        }
    }

    /// Marks the object; `Ok(true)` when it was not marked before, an error
    /// where `or` is not the object. Pinning is implied.
    pub fn mark_object(&mut self, or: usize, _pin: bool) -> (r: Result<bool, ()>)
        requires
            old(self).wf(),
        ensures
            final(self).wf(),
            final(self).words() == old(self).words(),
            final(self).spec_base() == old(self).spec_base(),
            final(self).spec_pending() == old(self).spec_pending(),
            or == old(self).object_ref() ==> r == Ok::<bool, ()>(!old(self).spec_mark()) && final(self).spec_mark(),
            or != old(self).object_ref() ==> r is Err && final(self).spec_mark() == old(self).spec_mark(),
    {
        if or == self.as_object_ref() {
            let old_mark = self.mark;
            self.mark = true;
            Ok(!old_mark)
        } else {
            Err(())
        }
    }

    pub fn is_marked(&self, or: usize) -> (r: Result<bool, ()>)
        requires
            self.wf(),
        ensures
            or == self.object_ref() ==> r == Ok::<bool, ()>(self.spec_mark()),
            or != self.object_ref() ==> r is Err,
    {
        if or == self.as_object_ref() {
            Ok(self.mark)
        } else {
            Err(())
        }
    }

    /// The object of a large segment never moves.
    pub fn is_pinned(&self, or: usize) -> (r: Result<bool, ()>)
        requires
            self.wf(),
        ensures
            or == self.object_ref() ==> r == Ok::<bool, ()>(true),
            or != self.object_ref() ==> r is Err,
    {
        if or == self.as_object_ref() {
            Ok(true)
        } else {
            Err(())
        }
    }

    pub fn contains_pinned(&self) -> (r: bool)
        ensures
            r,
    {
        true
    }

    /// Whether the object is marked.
    pub fn marked(&self) -> (r: bool)
        ensures
            r == self.spec_mark(),
    {
        self.mark
    }

    /// Clears the mark; the finalization-pending flag stays.
    pub fn clear_flags(&mut self)
        ensures
            !final(self).spec_mark(),
            final(self).spec_pending() == old(self).spec_pending(),
            final(self).words() == old(self).words(),
            final(self).spec_base() == old(self).spec_base(),
            old(self).wf() ==> final(self).wf(),
    {
        self.mark = false;
    }

    pub fn set_finalization_pending(&mut self, or: usize, pending: bool) -> (r: Result<(), ()>)
        requires
            old(self).wf(),
        ensures
            final(self).wf(),
            final(self).words() == old(self).words(),
            final(self).spec_base() == old(self).spec_base(),
            final(self).spec_mark() == old(self).spec_mark(),
            or == old(self).object_ref() ==> r is Ok && final(self).spec_pending() == pending,
            or != old(self).object_ref() ==> r is Err && final(self).spec_pending() == old(self).spec_pending(),
    {
        if or == self.as_object_ref() {
            self.finalization_pending = pending;
            Ok(())
        } else {
            Err(())
        }
    }

    pub fn get_finalization_pending(&self, or: usize) -> (r: Result<bool, ()>)
        requires
            self.wf(),
        ensures
            or == self.object_ref() ==> r == Ok::<bool, ()>(self.spec_pending()),
            or != self.object_ref() ==> r is Err,
    {
        if or == self.as_object_ref() {
            Ok(self.finalization_pending)
        } else {
            Err(())
        }
    }

    /// A large segment survives exactly when its object is marked.
    pub fn sweep(&mut self) -> (r: bool)
        ensures
            r == old(self).spec_mark(),
            *final(self) == *old(self),
    {
        self.mark
    }

    pub fn set_alloc_completed(&mut self)
        ensures
            *final(self) == *old(self),
    {
    }

    /// A large segment is always completely allocated.
    pub fn get_alloc_completed(&self) -> (r: bool)
        ensures
            r,
    {
        true
    }

    /// The whole segment counts as alive.
    pub fn alive_bytes(&self) -> (r: usize)
        requires
            self.wf(),
        ensures
            r == 8 * self.words().len(),
    {
        self.data.len() * 8
    }

    /// A large segment has no space left for allocation.
    pub fn available_range(&self) -> (r: (usize, usize))
        requires
            self.wf(),
        ensures
            r.0 == self.spec_base() + 8 * self.words().len(),
            r.1 == self.spec_base() + 8 * self.words().len(),
    {
        (self.base + 8 * self.data.len(), self.base + 8 * self.data.len())
    }

    /// The word at address `addr`, where it is a word of the segment.
    pub fn load_word(&self, addr: usize) -> (r: Option<usize>)
        requires
            self.wf(),
        ensures
            (self.spec_base() <= addr < self.spec_base() + 8 * self.words().len() && (addr
                - self.spec_base()) % 8 == 0) ==> r == Some(
                self.words()[(addr - self.spec_base()) / 8],
            ),
            !(self.spec_base() <= addr < self.spec_base() + 8 * self.words().len() && (addr
                - self.spec_base()) % 8 == 0) ==> r is None,
    {
        if self.base <= addr && addr < self.base + 8 * self.data.len() && (addr - self.base) % 8 == 0 {
            Some(self.data[(addr - self.base) / 8])
        } else {
            None
        }
    }

    /// Writes `value` at address `addr`, where it is a word of the segment.
    pub fn store_word(&mut self, addr: usize, value: usize) -> (r: bool)
        requires
            old(self).wf(),
        ensures
            final(self).wf(),
            final(self).spec_base() == old(self).spec_base(),
            final(self).spec_mark() == old(self).spec_mark(),
            final(self).spec_pending() == old(self).spec_pending(),
            r == (old(self).spec_base() <= addr < old(self).spec_base() + 8 * old(self).words().len() && (
            addr - old(self).spec_base()) % 8 == 0),
            r ==> final(self).words() == old(self).words().update((addr - old(self).spec_base()) / 8, value),
            !r ==> final(self).words() == old(self).words(),
    {
        if self.base <= addr && addr < self.base + 8 * self.data.len() && (addr - self.base) % 8 == 0 {
            self.data.set((addr - self.base) / 8, value);
            true
        } else {
            false
        }
    }
}

/// The addresses `a + off` for the offsets `offs` that are word-aligned and
/// fall in `[lo, hi)`, in order.
pub open spec fn slots_in_range(offs: Seq<int>, a: int, lo: int, hi: int) -> Seq<int>
    decreases offs.len(),
{
    if offs.len() == 0 {
        Seq::empty()
    } else {
        let rest = slots_in_range(offs.drop_last(), a, lo, hi);
        let x = a + offs.last();
        if offs.last() % 8 == 0 && lo <= x < hi {
            rest.push(x)
        } else {
            rest
        }
    }
}

pub proof fn lemma_slots_in_range(offs: Seq<int>, a: int, lo: int, hi: int)
    ensures
        forall|k: int|
            0 <= k < slots_in_range(offs, a, lo, hi).len() ==> lo <= #[trigger] slots_in_range(
                offs,
                a,
                lo,
                hi,
            )[k] < hi && (slots_in_range(offs, a, lo, hi)[k] - a) % 8 == 0,
    decreases offs.len(),
{
    if offs.len() > 0 {
        lemma_slots_in_range(offs.drop_last(), a, lo, hi);
        let rest = slots_in_range(offs.drop_last(), a, lo, hi);
        let r = slots_in_range(offs, a, lo, hi);
        assert forall|k: int| 0 <= k < r.len() implies lo <= #[trigger] r[k] < hi && (r[k] - a) % 8 == 0 by {
            if k < rest.len() {
                assert(r[k] == rest[k]);
            }
        }
    }
}

/// The reference slots of the object at word `i` of `data` (at address
/// `base`): none where no object of a type with a GC descriptor starts there
/// or where its offsets overflow; otherwise the word-aligned slots inside the
/// segment.
pub open spec fn object_slots(types: TypeTable, data: Seq<usize>, base: int, i: int) -> Seq<int> {
    if 1 <= i < data.len() && data[i] != 0 && types.has_type(data[i]) && data[i] != types.spec_free_mt()
        && object_view(types, data, i).spec_total_size() <= u32::MAX && object_view(
        types,
        data,
        i,
    ).spec_total_size() + 7 <= usize::MAX && ref_offsets_fit(
        object_view(types, data, i),
        types.desc_of(data[i]),
    ) {
        slots_in_range(
            ref_offsets(object_view(types, data, i), types.desc_of(data[i])),
            base + 8 * i,
            base,
            base + 8 * data.len(),
        )
    } else {
        Seq::empty()
    }
}

/// The addresses of the reference slots of the object at word `i` of `data`.
fn collect_slots(types: &TypeTable, data: &Vec<usize>, base: usize, i: usize) -> (r: Vec<usize>)
    requires
        types.wf(),
        base + 8 * data@.len() <= usize::MAX,
    ensures
        r@.map_values(|x: usize| x as int) == object_slots(*types, data@, base as int, i as int),
{
    let mut out: Vec<usize> = Vec::new();
    if i == 0 || i >= data.len() {
        return out;
    }
    let mt_addr = data[i];
    if mt_addr == 0 || mt_addr == types.free_mt() {
        return out;
    }
    let mt = match types.method_table(mt_addr) {
        Some(mt) => mt,
        None => return out,
    };
    let desc = match types.gc_desc(mt_addr) {
        Some(d) => d,
        None => return out,
    };
    let cc: u32 = if i + 1 < data.len() { #[verifier::truncate] (data[i + 1] as u32) } else { 0 };
    let header: u32 = #[verifier::truncate] (data[i - 1] as u32);
    let obj = Object { method_table: mt, component_count: cc, header };
    assert(obj == object_view(*types, data@, i as int));
    let total = match obj.checked_total_size() {
        Some(t) => t,
        None => return out,
    };
    if total as u64 + 7 > usize::MAX as u64 {
        return out;
    }
    let offs = match obj.reference_offsets(desc) {
        Some(v) => v,
        None => return out,
    };
    let a = base + 8 * i;
    let lo = base;
    let hi = base + 8 * data.len();
    let mut k: usize = 0;
    while k < offs.len()
        invariant
            k <= offs@.len(),
            a == base + 8 * i,
            i < data@.len(),
            lo == base,
            hi == base + 8 * data@.len(),
            hi <= usize::MAX,
            out@.map_values(|x: usize| x as int) == slots_in_range(
                offs@.map_values(|x: usize| x as int).take(k as int),
                a as int,
                lo as int,
                hi as int,
            ),
        decreases offs@.len() - k,
    {
        let off = offs[k];
        let ghost offs_int = offs@.map_values(|x: usize| x as int);
        proof {
            assert(offs_int.take(k + 1).drop_last() =~= offs_int.take(k as int));
            assert(offs_int.take(k + 1).last() == off as int);
        }
        if off % 8 == 0 && off < hi - a {
            let ghost prev = out@;
            out.push(a + off);
            proof {
                assert(out@.map_values(|x: usize| x as int) =~= prev.map_values(|x: usize| x as int).push(
                    (a + off) as int,
                ));
            }
        }
        k = k + 1;
    }
    proof {
        assert(offs@.map_values(|x: usize| x as int).take(k as int) =~= offs@.map_values(
            |x: usize| x as int,
        ));
    }
    out
}

impl Segment {
    /// The addresses of the reference fields of the object at `or` that lie
    /// in the segment.
    pub fn object_ref_slots(&self, types: &TypeTable, or: usize) -> (r: Vec<usize>)
        requires
            self.wf(),
            types.wf(),
        ensures
            self.word_index(or) matches Some(i) ==> r@.map_values(|x: usize| x as int) == object_slots(
                *types,
                self.words(),
                self.spec_base() as int,
                i,
            ),
            self.word_index(or) is None ==> r@.len() == 0,
    {
        match self.get_index(or) {
            Ok(i) => collect_slots(types, &self.data, self.base, i),
            Err(_) => Vec::new(),
        }
    }
}

impl LargeSegment {
    /// The addresses of the reference fields of the object, where `or` is
    /// the object, that lie in the segment.
    pub fn object_ref_slots(&self, types: &TypeTable, or: usize) -> (r: Vec<usize>)
        requires
            self.wf(),
            types.wf(),
        ensures
            or == self.object_ref() ==> r@.map_values(|x: usize| x as int) == object_slots(
                *types,
                self.words(),
                self.spec_base() as int,
                1,
            ),
            or != self.object_ref() ==> r@.len() == 0,
    {
        if or == self.as_object_ref() {
            collect_slots(types, &self.data, self.base, 1)
        } else {
            Vec::new()
        }
    }
}

/// The object at word `i` of `data`, where a non-null method table pointer of
/// a known type is there.
pub open spec fn object_if_typed(types: TypeTable, data: Seq<usize>, i: int) -> Option<Object> {
    if 1 <= i < data.len() && data[i] != 0 && types.has_type(data[i]) {
        Some(object_view(types, data, i))
    } else {
        None
    }
}

/// The header word of `h` with the finalizer-run bit set to `value`.
pub open spec fn header_with_finalizer_run(h: usize, value: bool) -> usize {
    if value {
        h | (BIT_SBLK_FINALIZER_RUN as usize)
    } else {
        h & !(BIT_SBLK_FINALIZER_RUN as usize)
    }
}

fn read_object(types: &TypeTable, data: &Vec<usize>, i: usize) -> (r: Option<Object>)
    requires
        types.wf(),
    ensures
        r == object_if_typed(*types, data@, i as int),
{
    if i == 0 || i >= data.len() || data[i] == 0 {
        return None;
    }
    match types.method_table(data[i]) {
        None => None,
        Some(mt) => {
            let cc: u32 = if i + 1 < data.len() { #[verifier::truncate] (data[i + 1] as u32) } else { 0 };
            let header: u32 = #[verifier::truncate] (data[i - 1] as u32);
            Some(Object { method_table: mt, component_count: cc, header })
        },
    }
}

fn write_finalizer_run(data: &mut Vec<usize>, i: usize, value: bool)
    requires
        1 <= i < old(data)@.len(),
    ensures
        final(data)@ == old(data)@.update(i - 1, header_with_finalizer_run(old(data)@[i - 1], value)),
        object_view_header_bit(final(data)@[i - 1]) == value,
{
    let h = data[i - 1];
    let bit: usize = BIT_SBLK_FINALIZER_RUN as usize;
    let nh = if value { h | bit } else { h & !bit };
    proof {
        if value {
            assert(((h | 0x4000_0000usize) as u32) & 0x4000_0000u32 != 0) by (bit_vector);
        } else {
            assert(((h & !0x4000_0000usize) as u32) & 0x4000_0000u32 == 0) by (bit_vector);
        }
    }
    data.set(i - 1, nh);
}

/// Whether the finalizer-run bit is set in the low 32 bits of header word `h`.
pub open spec fn object_view_header_bit(h: usize) -> bool {
    (h as u32) & BIT_SBLK_FINALIZER_RUN != 0
}

impl Segment {
    /// The object at `or`, where a known type is recorded there.
    pub fn object_at_ref(&self, types: &TypeTable, or: usize) -> (r: Option<Object>)
        requires
            self.wf(),
            types.wf(),
        ensures
            self.word_index(or) matches Some(i) ==> r == object_if_typed(*types, self.words(), i),
            self.word_index(or) is None ==> r is None,
    {
        match self.get_index(or) {
            Ok(i) => read_object(types, &self.data, i),
            Err(_) => None,
        }
    }

    /// Sets or clears the finalizer-run bit in the header word of the object
    /// at `or`; returns whether `or` is a word with a header word before it.
    pub fn set_finalizer_run(&mut self, or: usize, value: bool) -> (r: bool)
        requires
            old(self).wf(),
        ensures
            final(self).wf(),
            r == (old(self).word_index(or) matches Some(i) && i >= 1),
            r ==> final(self).words() == old(self).words().update(
                old(self).word_index(or).unwrap() - 1,
                header_with_finalizer_run(old(self).words()[old(self).word_index(or).unwrap() - 1], value),
            ),
            !r ==> final(self).words() == old(self).words(),
            final(self).marks() == old(self).marks(),
            final(self).pins() == old(self).pins(),
            final(self).pendings() == old(self).pendings(),
            final(self).spec_base() == old(self).spec_base(),
            final(self).spec_alloc_completed() == old(self).spec_alloc_completed(),
            final(self).spec_alive_bytes() == old(self).spec_alive_bytes(),
            final(self).spec_available_from() == old(self).spec_available_from(),
    {
        match self.get_index(or) {
            Ok(i) => {
                if i == 0 {
                    return false;
                }
                write_finalizer_run(&mut self.data, i, value);
                true
            },
            Err(_) => false,
        }
    }
}

impl LargeSegment {
    /// The object, where `or` is the object and a known type is recorded.
    pub fn object_at_ref(&self, types: &TypeTable, or: usize) -> (r: Option<Object>)
        requires
            self.wf(),
            types.wf(),
        ensures
            or == self.object_ref() ==> r == object_if_typed(*types, self.words(), 1),
            or != self.object_ref() ==> r is None,
    {
        if or == self.as_object_ref() {
            read_object(types, &self.data, 1)
        } else {
            None
        }
    }

    /// Sets or clears the finalizer-run bit in the header word of the object;
    /// returns whether `or` is the object.
    pub fn set_finalizer_run(&mut self, or: usize, value: bool) -> (r: bool)
        requires
            old(self).wf(),
        ensures
            final(self).wf(),
            r == (or == old(self).object_ref()),
            r ==> final(self).words() == old(self).words().update(
                0,
                header_with_finalizer_run(old(self).words()[0], value),
            ),
            !r ==> final(self).words() == old(self).words(),
            final(self).spec_base() == old(self).spec_base(),
            final(self).spec_mark() == old(self).spec_mark(),
            final(self).spec_pending() == old(self).spec_pending(),
    {
        if or == self.as_object_ref() {
            write_finalizer_run(&mut self.data, 1, value);
            true
        } else {
            false
        }
    }
}

impl Segment {
    /// Copies `count` words of `src` starting at word `src_index` into this
    /// segment at word `dst_index`.
    pub fn copy_words_from(&mut self, dst_index: usize, src: &Segment, src_index: usize, count: usize)
        requires
            old(self).wf(),
            src.wf(),
            dst_index + count <= POINTER_SIZE,
            src_index + count <= POINTER_SIZE,
        ensures
            final(self).wf(),
            final(self).words() == old(self).words().subrange(0, dst_index as int) + src.words().subrange(
                src_index as int,
                src_index + count,
            ) + old(self).words().subrange(dst_index + count, POINTER_SIZE as int),
            final(self).marks() == old(self).marks(),
            final(self).pins() == old(self).pins(),
            final(self).pendings() == old(self).pendings(),
            final(self).spec_base() == old(self).spec_base(),
            final(self).spec_alloc_completed() == old(self).spec_alloc_completed(),
            final(self).spec_alive_bytes() == old(self).spec_alive_bytes(),
            final(self).spec_available_from() == old(self).spec_available_from(),
    {
        let mut j: usize = 0;
        while j < count
            invariant
                self.wf(),
                old(self).wf(),
                src.wf(),
                dst_index + count <= POINTER_SIZE,
                src_index + count <= POINTER_SIZE,
                j <= count,
                self.words() == old(self).words().subrange(0, dst_index as int) + src.words().subrange(
                    src_index as int,
                    src_index + j,
                ) + old(self).words().subrange(dst_index + j, POINTER_SIZE as int),
                self.marks() == old(self).marks(),
                self.pins() == old(self).pins(),
                self.pendings() == old(self).pendings(),
                self.spec_base() == old(self).spec_base(),
                self.spec_alloc_completed() == old(self).spec_alloc_completed(),
                self.spec_alive_bytes() == old(self).spec_alive_bytes(),
                self.spec_available_from() == old(self).spec_available_from(),
            decreases count - j,
        {
            let v = src.data[src_index + j];
            self.data.set(dst_index + j, v);
            proof {
                assert(self.words() =~= old(self).words().subrange(0, dst_index as int) + src.words().subrange(
                    src_index as int,
                    src_index + j + 1,
                ) + old(self).words().subrange(dst_index + j + 1, POINTER_SIZE as int));
            }
            j = j + 1;
        }
    }

    /// Records that the space available for allocation starts at word `idx`
    /// (the header position of the next object), and ends the walk there by a
    /// null method table pointer right after it.
    pub fn update_available_range(&mut self, idx: usize)
        requires
            old(self).wf(),
            idx <= POINTER_SIZE,
        ensures
            final(self).wf(),
            final(self).spec_available_from() == idx,
            idx + 1 < POINTER_SIZE ==> final(self).words() == old(self).words().update(idx + 1, 0),
            idx + 1 >= POINTER_SIZE ==> final(self).words() == old(self).words(),
            final(self).marks() == old(self).marks(),
            final(self).pins() == old(self).pins(),
            final(self).pendings() == old(self).pendings(),
            final(self).spec_base() == old(self).spec_base(),
            final(self).spec_alloc_completed() == old(self).spec_alloc_completed(),
            final(self).spec_alive_bytes() == old(self).spec_alive_bytes(),
    {
        if idx + 1 < POINTER_SIZE {
            self.data.set(idx + 1, 0);
        }
        self.available_from = idx;
    }
}

impl Segment {
    /// Compaction: moves the live objects of `src` (in address order) into
    /// the space available in this segment, each with its header, copying
    /// their finalization-pending flags. The header word of each moved object
    /// in `src` receives the address of its copy. The available space then
    /// starts after the last copy.
    pub fn move_objects_from(&mut self, src: &mut Segment, types: &TypeTable)
        requires
            old(self).wf(),
            old(src).wf(),
            types.wf(),
            old(self).spec_available_from() + live_words_from(*types, old(src).words(), 1) < POINTER_SIZE,
        ensures
            final(self).wf(),
            final(src).wf(),
            final(self).spec_available_from() == old(self).spec_available_from() + live_words_from(
                *types,
                old(src).words(),
                1,
            ),
            final(self).spec_base() == old(self).spec_base(),
            final(self).marks() == old(self).marks(),
            final(self).pins() == old(self).pins(),
            final(src).marks() == old(src).marks(),
            final(src).pins() == old(src).pins(),
            final(src).pendings() == old(src).pendings(),
            final(src).spec_base() == old(src).spec_base(),
            final(src).spec_alive_bytes() == old(src).spec_alive_bytes(),
            final(src).spec_available_from() == old(src).spec_available_from(),
            final(src).words().len() == old(src).words().len(),
            forall|j: int|
                #![trigger final(src).words()[j]]
                0 <= j < POINTER_SIZE && !old(src).live_objects(*types).contains(j + 1) ==> final(src).words()[j]
                    == old(src).words()[j],
            forall|k: int|
                0 <= k < old(src).live_objects(*types).len() ==> {
                    let i = #[trigger] old(src).live_objects(*types)[k];
                    let fwd = final(src).words()[i - 1];
                    let w = object_words(*types, old(src).words(), i);
                    &&& final(self).word_index(fwd) matches Some(n) && n >= 1 && n - 1 + w <= POINTER_SIZE
                        && final(self).words().subrange(n - 1, n - 1 + w) == old(src).words().subrange(i - 1, i - 1 + w)
                        && final(self).pendings()[n] == old(src).pendings()[i]
                        && n - 1 >= old(self).spec_available_from()
                        && n - 1 + w <= final(self).spec_available_from()
                },
            forall|j: int|
                0 <= j < old(self).spec_available_from() ==> #[trigger] final(self).words()[j] == old(self).words()[j],
            forall|j: int|
                0 <= j <= old(self).spec_available_from() ==> #[trigger] final(self).pendings()[j]
                    == old(self).pendings()[j],
    {
        let ghost src0 = *src;
        let ghost self0 = *self;
        let ghost live0 = src0.live_objects(*types);
        let af = self.available_from;
        let mut index: usize = af;
        let mut it = RawSegmentIter::new();
        let ghost mut done: Seq<int> = Seq::empty();
        loop
            invariant
                self.wf(),
                src.wf(),
                types.wf(),
                src0.wf(),
                self0.wf(),
                af == self0.spec_available_from(),
                self0.spec_available_from() + live_words_from(*types, src0.words(), 1) < POINTER_SIZE,
                1 <= it.next <= POINTER_SIZE + 1,
                af <= index,
                index + live_words_from(*types, src0.words(), it.next as int) == af + live_words_from(
                    *types,
                    src0.words(),
                    1,
                ),
                done + live_from(*types, src0.words(), it.next as int) == live0,
                forall|k: int|
                    0 <= k < done.len() ==> readable(*types, src0.words(), #[trigger] done[k]) && done[k]
                        + object_words(*types, src0.words(), done[k]) <= it.next,
                same_from(src.words(), src0.words(), it.next - 1),
                forall|j: int|
                    #![trigger src.words()[j]]
                    0 <= j < POINTER_SIZE && !live0.contains(j + 1) ==> src.words()[j] == src0.words()[j],
                self.spec_available_from() == af,
                self.spec_base() == self0.spec_base(),
                self.marks() == self0.marks(),
                self.pins() == self0.pins(),
                src.marks() == src0.marks(),
                src.pins() == src0.pins(),
                src.pendings() == src0.pendings(),
                src.spec_base() == src0.spec_base(),
                src.spec_alive_bytes() == src0.spec_alive_bytes(),
                src.spec_available_from() == src0.spec_available_from(),
                forall|k: int|
                    0 <= k < done.len() ==> {
                        let i = #[trigger] done[k];
                        let fwd = src.words()[i - 1];
                        let w = object_words(*types, src0.words(), i);
                        &&& self.word_index(fwd) matches Some(n) && n >= 1 && n - 1 + w <= index
                            && self.words().subrange(n - 1, n - 1 + w) == src0.words().subrange(i - 1, i - 1 + w)
                            && self.pendings()[n] == src0.pendings()[i]
                            && n - 1 >= af
                    },
                forall|j: int| 0 <= j < af ==> #[trigger] self.words()[j] == self0.words()[j],
                forall|j: int| 0 <= j <= af ==> #[trigger] self.pendings()[j] == self0.pendings()[j],
            ensures
                !readable(*types, src0.words(), it.next as int),
                done == live0,
                index == af + live_words_from(*types, src0.words(), 1),
            decreases POINTER_SIZE + 1 - it.next,
        {
            let cur = it.next;
            proof {
                assert(same_around(src.words(), src0.words(), cur as int));
                lemma_readable_same(*types, src.words(), src0.words(), cur as int);
            }
            match it.advance(src, types) {
                None => {
                    proof {
                        assert(live_from(*types, src0.words(), cur as int) =~= Seq::<int>::empty());
                        assert(done =~= live0);
                    }
                    break;
                },
                Some((o, _size)) => {
                    proof {
                        lemma_object_words(*types, src0.words(), cur as int);
                    }
                    let w = it.next - cur;
                    proof {
                        lemma_live_words_nonneg(*types, src0.words(), it.next as int);
                    }
                    if src.data[cur] != types.free_mt() {
                        assert(index + w < POINTER_SIZE);
                        let ghost self_before = *self;
                        self.copy_words_from(index, src, cur - 1, w);
                        let new_or = self.base + 8 * (index + 1);
                        let ghost src_before = *src;
                        src.data.set(cur - 1, new_or);
                        let pending = src.finalization_pending.get(cur);
                        let _ = self.set_finalization_pending(new_or, pending);
                        proof {
                            assert(live0.contains(cur as int)) by {
                                assert((done + live_from(*types, src0.words(), cur as int))[done.len() as int] == cur);
                            }
                            let nd = done.push(cur as int);
                            assert(nd + live_from(*types, src0.words(), it.next as int) =~= live0) by {
                                assert(live_from(*types, src0.words(), cur as int) =~= seq![cur as int]
                                    + live_from(*types, src0.words(), it.next as int));
                            }
                            assert(self.word_index(new_or) == Some((index + 1) as int));
                            assert forall|k: int|
                                0 <= k < nd.len() implies {
                                    let i = #[trigger] nd[k];
                                    let fwd = src.words()[i - 1];
                                    let ww = object_words(*types, src0.words(), i);
                                    &&& self.word_index(fwd) matches Some(n) && n >= 1 && n - 1 + ww <= index + w
                                        && self.words().subrange(n - 1, n - 1 + ww) == src0.words().subrange(i - 1, i - 1 + ww)
                                        && self.pendings()[n] == src0.pendings()[i]
                                        && n - 1 >= af
                                } by {
                                if k < done.len() {
                                    let i = done[k];
                                    assert(nd[k] == i);
                                    assert(readable(*types, src0.words(), i));
                                    lemma_object_words(*types, src0.words(), i);
                                    assert(src.words()[i - 1] == src_before.words()[i - 1]);
                                    let fwd = src.words()[i - 1];
                                    let n = self_before.word_index(fwd).unwrap();
                                    let ww = object_words(*types, src0.words(), i);
                                    assert(self.words().subrange(n - 1, n - 1 + ww) =~= self_before.words().subrange(n - 1, n - 1 + ww));
                                    assert(self.pendings()[n] == self_before.pendings()[n]);
                                } else {
                                    assert(nd[k] == cur);
                                    assert(self.words().subrange(index as int, index + w) =~= src0.words().subrange(cur - 1, cur - 1 + w)) by {
                                        assert(src_before.words().subrange(cur - 1, cur - 1 + w) =~= src0.words().subrange(cur - 1, cur - 1 + w));
                                    }
                                }
                            }
                            assert forall|j: int|
                                #![trigger src.words()[j]]
                                0 <= j < POINTER_SIZE && !live0.contains(j + 1) implies src.words()[j] == src0.words()[j] by {
                                if j == cur - 1 {
                                    assert(live0.contains(j + 1));
                                }
                            }
                            done = nd;
                        }
                        index = index + w;
                    } else {
                        proof {
                            assert(live_from(*types, src0.words(), cur as int) =~= live_from(*types, src0.words(), it.next as int));
                        }
                    }
                },
            }
        }
        self.update_available_range(index);
        proof {
            assert forall|k: int|
                0 <= k < live0.len() implies {
                    let i = #[trigger] live0[k];
                    let fwd = src.words()[i - 1];
                    let w = object_words(*types, src0.words(), i);
                    &&& self.word_index(fwd) matches Some(n) && n >= 1 && n - 1 + w <= POINTER_SIZE
                        && self.words().subrange(n - 1, n - 1 + w) == src0.words().subrange(i - 1, i - 1 + w)
                        && self.pendings()[n] == src0.pendings()[i]
                        && n - 1 >= af
                        && n - 1 + w <= self.spec_available_from()
                } by {
                assert(done[k] == live0[k]);
            }
        }
    }
}
} // verus!

verus! {

/// Whether the size and the reference fields of the object at word `x` do
/// not depend on its element count: a type without element size, with a
/// series descriptor.
pub open spec fn count_irrelevant(types: TypeTable, data: Seq<usize>, x: int) -> bool {
    &&& !has_flag(types.mt_of(data[x]).flags_high, HAS_COMPONENT_SIZE)
    &&& types.desc_of(data[x]) is Series
}

/// What decides whether an object starts at word `x`, and its size and
/// reference fields, is the same in `a` and `b`.
pub open spec fn view_kept(types: TypeTable, a: Seq<usize>, b: Seq<usize>, x: int) -> bool {
    &&& a.len() == b.len()
    &&& 0 <= x < a.len() ==> a[x] == b[x]
    &&& 0 <= x && x + 1 < a.len() ==> a[x + 1] == b[x + 1] || count_irrelevant(types, a, x)
}

pub proof fn lemma_view_stable(types: TypeTable, a: Seq<usize>, b: Seq<usize>, x: int, base: int)
    requires
        types.wf(),
        x >= 1,
        view_kept(types, a, b, x),
    ensures
        readable(types, b, x) == readable(types, a, x),
        x < a.len() ==> object_words(types, b, x) == object_words(types, a, x),
        object_slots(types, b, base, x) == object_slots(types, a, base, x),
{
    if x < a.len() {
        let va = object_view(types, a, x);
        let vb = object_view(types, b, x);
        assert(va.method_table == vb.method_table);
        assert(va.spec_total_size() == vb.spec_total_size());
        assert(ref_offsets_fit(va, types.desc_of(a[x])) == ref_offsets_fit(vb, types.desc_of(b[x])));
        assert(ref_offsets(va, types.desc_of(a[x])) == ref_offsets(vb, types.desc_of(b[x])));
    }
}

} // verus!

verus! {

/// The reference slots of an object are word addresses of the segment,
/// word-aligned from the object.
pub proof fn lemma_object_slots_aligned(types: TypeTable, data: Seq<usize>, base: int, i: int)
    ensures
        forall|k: int|
            0 <= k < object_slots(types, data, base, i).len() ==> base <= #[trigger] object_slots(types, data, base, i)[k]
                < base + 8 * data.len() && (object_slots(types, data, base, i)[k] - (base + 8 * i)) % 8 == 0,
{
    if 1 <= i < data.len() && data[i] != 0 && types.has_type(data[i]) && data[i] != types.spec_free_mt()
        && object_view(types, data, i).spec_total_size() <= u32::MAX && object_view(types, data, i).spec_total_size()
        + 7 <= usize::MAX && ref_offsets_fit(object_view(types, data, i), types.desc_of(data[i])) {
        lemma_slots_in_range(
            ref_offsets(object_view(types, data, i), types.desc_of(data[i])),
            base + 8 * i,
            base,
            base + 8 * data.len(),
        );
    }
}

} // verus!

verus! {

/// What every kind of heap segment offers: its address range, and the mark,
/// pin and finalization-pending flags of the objects in it.
pub trait Seg {
    /// The segment's invariant.
    spec fn seg_wf(&self) -> bool;

    /// Whether `or` points into the segment.
    spec fn seg_contains(&self, or: usize) -> bool;

    /// The position of the flags of the object at `or`, where it has some.
    spec fn seg_flag_index(&self, or: usize) -> Option<int>;

    /// The mark bits.
    spec fn seg_marks(&self) -> Seq<bool>;

    /// The finalization-pending bits.
    spec fn seg_pendings(&self) -> Seq<bool>;

    /// Whether the segment may not be moved because of pinned objects.
    spec fn seg_pinned(&self) -> bool;

    /// Whether `or` points into the segment.
    fn contains(&self, or: usize) -> (r: bool)
        requires
            self.seg_wf(),
        ensures
            r == self.seg_contains(or),
    ;

    /// Marks the object at `or`; returns whether it was not marked yet, or an
    /// error where `or` has no flags here.
    fn mark_object(&mut self, or: usize, pin: bool) -> (r: Result<bool, ()>)
        requires
            old(self).seg_wf(),
        ensures
            final(self).seg_wf(),
            old(self).seg_flag_index(or) is None ==> r is Err && final(self).seg_marks() == old(self).seg_marks(),
            old(self).seg_flag_index(or) matches Some(i) ==> r == Ok::<bool, ()>(!old(self).seg_marks()[i])
                && final(self).seg_marks() == old(self).seg_marks().update(i, true),
            final(self).seg_pendings() == old(self).seg_pendings(),
    ;

    /// Whether the object at `or` is marked; an error where `or` has no flags
    /// here.
    fn is_marked(&self, or: usize) -> (r: Result<bool, ()>)
        requires
            self.seg_wf(),
        ensures
            self.seg_flag_index(or) is None ==> r is Err,
            self.seg_flag_index(or) matches Some(i) ==> r == Ok::<bool, ()>(self.seg_marks()[i]),
    ;

    /// Whether the segment holds a pinned object.
    fn contains_pinned(&self) -> (r: bool)
        requires
            self.seg_wf(),
        ensures
            r == self.seg_pinned(),
    ;

    /// Clears the mark bits; the finalization-pending bits stay.
    fn clear_flags(&mut self)
        requires
            old(self).seg_wf(),
        ensures
            final(self).seg_wf(),
            final(self).seg_marks().len() == old(self).seg_marks().len(),
            forall|i: int| 0 <= i < final(self).seg_marks().len() ==> !#[trigger] final(self).seg_marks()[i],
            final(self).seg_pendings() == old(self).seg_pendings(),
    ;

    /// Sets the finalization-pending flag of the object at `or`; an error
    /// where `or` has no flags here.
    fn set_finalization_pending(&mut self, or: usize, pending: bool) -> (r: Result<(), ()>)
        requires
            old(self).seg_wf(),
        ensures
            final(self).seg_wf(),
            final(self).seg_marks() == old(self).seg_marks(),
            old(self).seg_flag_index(or) is None ==> r is Err && final(self).seg_pendings() == old(self).seg_pendings(),
            old(self).seg_flag_index(or) matches Some(i) ==> r is Ok && final(self).seg_pendings()
                == old(self).seg_pendings().update(i, pending),
    ;

    /// Whether the object at `or` is pending finalization; an error where
    /// `or` has no flags here.
    fn get_finalization_pending(&self, or: usize) -> (r: Result<bool, ()>)
        requires
            self.seg_wf(),
        ensures
            self.seg_flag_index(or) is None ==> r is Err,
            self.seg_flag_index(or) matches Some(i) ==> r == Ok::<bool, ()>(self.seg_pendings()[i]),
    ;
}

impl Seg for Segment {
    open spec fn seg_wf(&self) -> bool {
        self.wf()
    }

    open spec fn seg_contains(&self, or: usize) -> bool {
        self.spec_contains(or)
    }

    open spec fn seg_flag_index(&self, or: usize) -> Option<int> {
        self.word_index(or)
    }

    open spec fn seg_marks(&self) -> Seq<bool> {
        self.marks()
    }

    open spec fn seg_pendings(&self) -> Seq<bool> {
        self.pendings()
    }

    open spec fn seg_pinned(&self) -> bool {
        self.pins().contains(true)
    }

    fn contains(&self, or: usize) -> (r: bool) {
        Segment::contains(self, or)
    }

    fn mark_object(&mut self, or: usize, pin: bool) -> (r: Result<bool, ()>) {
        Segment::mark_object(self, or, pin)
    }

    fn is_marked(&self, or: usize) -> (r: Result<bool, ()>) {
        Segment::is_marked(self, or)
    }

    fn contains_pinned(&self) -> (r: bool) {
        Segment::contains_pinned(self)
    }

    fn clear_flags(&mut self) {
        Segment::clear_flags(self)
    }

    fn set_finalization_pending(&mut self, or: usize, pending: bool) -> (r: Result<(), ()>) {
        Segment::set_finalization_pending(self, or, pending)
    }

    fn get_finalization_pending(&self, or: usize) -> (r: Result<bool, ()>) {
        Segment::get_finalization_pending(self, or)
    }
}

impl Seg for LargeSegment {
    open spec fn seg_wf(&self) -> bool {
        self.wf()
    }

    open spec fn seg_contains(&self, or: usize) -> bool {
        self.spec_contains(or)
    }

    open spec fn seg_flag_index(&self, or: usize) -> Option<int> {
        if or == self.object_ref() {
            Some(0int)
        } else {
            None
        }
    }

    open spec fn seg_marks(&self) -> Seq<bool> {
        seq![self.spec_mark()]
    }

    open spec fn seg_pendings(&self) -> Seq<bool> {
        seq![self.spec_pending()]
    }

    open spec fn seg_pinned(&self) -> bool {
        true
    }

    fn contains(&self, or: usize) -> (r: bool) {
        LargeSegment::contains(self, or)
    }

    fn mark_object(&mut self, or: usize, pin: bool) -> (r: Result<bool, ()>) {
        let r = LargeSegment::mark_object(self, or, pin);
        proof {
            if or == old(self).object_ref() {
                assert(self.seg_marks() =~= old(self).seg_marks().update(0, true));
            }
        }
        r
    }

    fn is_marked(&self, or: usize) -> (r: Result<bool, ()>) {
        LargeSegment::is_marked(self, or)
    }

    fn contains_pinned(&self) -> (r: bool) {
        LargeSegment::contains_pinned(self)
    }

    fn clear_flags(&mut self) {
        LargeSegment::clear_flags(self)
    }

    fn set_finalization_pending(&mut self, or: usize, pending: bool) -> (r: Result<(), ()>) {
        let r = LargeSegment::set_finalization_pending(self, or, pending);
        proof {
            if or == old(self).object_ref() {
                assert(self.seg_pendings() =~= old(self).seg_pendings().update(0, pending));
            }
        }
        r
    }

    fn get_finalization_pending(&self, or: usize) -> (r: Result<bool, ()>) {
        LargeSegment::get_finalization_pending(self, or)
    }
}

} // verus!
