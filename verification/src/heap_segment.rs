use vstd::prelude::*;
use crate::bits::{count_used, lemma_count_used_bounds, lemma_count_used_update};
use crate::segment::{
    LargeSegment, Segment, find_from, lemma_slots_in_range, object_slots, slots_in_range, POINTER_SIZE,
    SEGMENT_SIZE,
};
use crate::objects::{Object, ref_offsets};
use crate::segment::{object_if_typed, header_with_finalizer_run, lemma_live_from_range, readable, live_words_from};
use crate::segment::{alive_from, kept_from, lemma_nothing_alive_tail, swept_words, walk_end};
use crate::type_table::TypeTable;

verus! {

/// A segment of the heap: a small-object segment or a single-object one.
pub enum HeapSegment {
    Small(Segment),
    Large(LargeSegment),
}

impl HeapSegment {
    pub open spec fn hs_wf(self) -> bool {
        match self {
            HeapSegment::Small(s) => s.wf(),
            HeapSegment::Large(l) => l.wf(),
        }
    }

    pub open spec fn is_small(self) -> bool {
        self is Small
    }

    /// The words of the segment.
    pub open spec fn hs_words(self) -> Seq<usize> {
        match self {
            HeapSegment::Small(s) => s.words(),
            HeapSegment::Large(l) => l.words(),
        }
    }

    /// The address of the first word.
    pub open spec fn hs_base(self) -> int {
        match self {
            HeapSegment::Small(s) => s.spec_base() as int,
            HeapSegment::Large(l) => l.spec_base() as int,
        }
    }

    /// The address just past the last word.
    pub open spec fn hs_end(self) -> int {
        self.hs_base() + 8 * self.hs_words().len()
    }

    /// Whether `or` points into the segment (for a large segment, into its
    /// object).
    pub open spec fn hs_contains(self, or: usize) -> bool {
        match self {
            HeapSegment::Small(s) => s.spec_contains(or),
            HeapSegment::Large(l) => l.spec_contains(or),
        }
    }

    /// The position of the mark bit of the object at `or`.
    pub open spec fn hs_mark_index(self, or: usize) -> Option<int> {
        match self {
            HeapSegment::Small(s) => s.word_index(or),
            HeapSegment::Large(l) => if or == l.object_ref() {
                Some(0int)
            } else {
                None
            },
        }
    }

    /// The mark bits.
    pub open spec fn hs_marks(self) -> Seq<bool> {
        match self {
            HeapSegment::Small(s) => s.marks(),
            HeapSegment::Large(l) => seq![l.spec_mark()],
        }
    }

    /// The finalization-pending bits.
    pub open spec fn hs_pendings(self) -> Seq<bool> {
        match self {
            HeapSegment::Small(s) => s.pendings(),
            HeapSegment::Large(l) => seq![l.spec_pending()],
        }
    }

    /// Whether the object at `or` is marked.
    pub open spec fn hs_marked(self, or: usize) -> bool {
        self.hs_mark_index(or) matches Some(i) && self.hs_marks()[i]
    }

    /// Whether the object at `or` is pending finalization.
    pub open spec fn hs_pending(self, or: usize) -> bool {
        self.hs_mark_index(or) matches Some(i) && self.hs_pendings()[i]
    }

    /// How many mark bits are still clear.
    pub open spec fn hs_unmarked(self) -> int {
        self.hs_marks().len() - count_used(self.hs_marks(), self.hs_marks().len() as int)
    }

    /// The addresses of the reference fields of the object at `or`.
    pub open spec fn hs_slots(self, types: TypeTable, or: usize) -> Seq<int> {
        match self.hs_mark_index(or) {
            Some(i) => match self {
                HeapSegment::Small(s) => object_slots(types, s.words(), s.spec_base() as int, i),
                HeapSegment::Large(l) => object_slots(types, l.words(), l.spec_base() as int, 1),
            },
            None => Seq::empty(),
        }
    }

    /// The word at address `a`, where it is a word of the segment.
    pub open spec fn hs_word_at(self, a: int) -> Option<usize> {
        if self.hs_base() <= a < self.hs_end() && (a - self.hs_base()) % 8 == 0 {
            Some(self.hs_words()[(a - self.hs_base()) / 8])
        } else {
            None
        }
    }

    /// The object holding the address `x`, for an interior reference.
    pub open spec fn hs_find(self, types: TypeTable, x: usize) -> Option<int> {
        match self {
            HeapSegment::Small(s) => match find_from(types, s.words(), s.spec_base() as int, 1, x as int) {
                Some(i) => Some(s.addr(i)),
                None => None,
            },
            HeapSegment::Large(l) => if l.spec_contains(x) {
                Some(l.object_ref())
            } else {
                None
            },
        }
    }

    /// Whether `b` differs from `a` only in mark and pin bits, with every
    /// mark of `a` still set in `b`.
    /// Whether the object at `or` of a small-object segment is pinned.
    pub open spec fn hs_pinned_at(self, or: usize) -> bool {
        match self {
            HeapSegment::Small(s) => s.word_index(or) matches Some(i) && s.pins()[i],
            HeapSegment::Large(_) => false,
        }
    }

    pub open spec fn marks_grow(a: HeapSegment, b: HeapSegment) -> bool {
        &&& a.is_small() == b.is_small()
        &&& a.hs_words() == b.hs_words()
        &&& a.hs_base() == b.hs_base()
        &&& a.hs_pendings() == b.hs_pendings()
        &&& a.hs_marks().len() == b.hs_marks().len()
        &&& forall|i: int| 0 <= i < a.hs_marks().len() && #[trigger] a.hs_marks()[i] ==> b.hs_marks()[i]
        &&& forall|or: usize| a.hs_mark_index(or) == b.hs_mark_index(or)
        &&& forall|or: usize| a.hs_contains(or) == b.hs_contains(or)
        &&& forall|or: usize| #[trigger] a.hs_pinned_at(or) ==> b.hs_pinned_at(or)
    }

    /// Different positions have different mark bits.
    pub proof fn lemma_mark_index_injective(self, x: usize, y: usize)
        requires
            self.hs_mark_index(x) is Some,
            self.hs_mark_index(x) == self.hs_mark_index(y),
        ensures
            x == y,
    {
        match self {
            HeapSegment::Small(s) => {
                let b = s.spec_base() as int;
                let i = (x - b) / 8;
                assert(x - b == 8 * ((x - b) / 8)) by (nonlinear_arith)
                    requires (x - b) % 8 == 0;
                assert(y - b == 8 * ((y - b) / 8)) by (nonlinear_arith)
                    requires (y - b) % 8 == 0;
            },
            HeapSegment::Large(_) => {},
        }
    }

    /// The reference slots of an object are words of the segment.
    pub proof fn lemma_slots_valid(self, types: TypeTable, or: usize)
        requires
            self.hs_wf(),
        ensures
            forall|j: int|
                0 <= j < self.hs_slots(types, or).len() ==> (#[trigger] self.hs_word_at(
                    self.hs_slots(types, or)[j],
                )) is Some,
    {
        match self.hs_mark_index(or) {
            Some(i) => {
                let data = self.hs_words();
                let base = self.hs_base();
                let ii = if self.is_small() { i } else { 1 };
                if 1 <= ii < data.len() && data[ii] != 0 && types.has_type(data[ii]) && data[ii]
                    != types.spec_free_mt() && crate::segment::object_view(types, data, ii).spec_total_size()
                    <= u32::MAX && crate::segment::object_view(types, data, ii).spec_total_size() + 7
                    <= usize::MAX && crate::objects::ref_offsets_fit(
                    crate::segment::object_view(types, data, ii),
                    types.desc_of(data[ii]),
                ) {
                    let offs = ref_offsets(crate::segment::object_view(types, data, ii), types.desc_of(data[ii]));
                    lemma_slots_in_range(offs, base + 8 * ii, base, base + 8 * data.len());
                    let sl = slots_in_range(offs, base + 8 * ii, base, base + 8 * data.len());
                    assert(self.hs_slots(types, or) == sl);
                    assert forall|j: int| 0 <= j < sl.len() implies (#[trigger] self.hs_word_at(sl[j])) is Some by {
                        let x = sl[j];
                        assert((x - (base + 8 * ii)) % 8 == 0);
                        assert((x - base) % 8 == 0) by (nonlinear_arith)
                            requires (x - (base + 8 * ii)) % 8 == 0;
                    }
                }
            },
            None => {},
        }
    }

    pub proof fn lemma_unmarked_bounds(self)
        ensures
            0 <= self.hs_unmarked() <= self.hs_marks().len(),
    {
        lemma_count_used_bounds(self.hs_marks(), self.hs_marks().len() as int);
    }

    pub proof fn lemma_mark_index(self, or: usize)
        requires
            self.hs_wf(),
        ensures
            self.hs_mark_index(or) matches Some(i) ==> 0 <= i < self.hs_marks().len() && self.hs_contains(or),
    {
    }

    /// Whether `or` points into the segment.
    pub fn contains(&self, or: usize) -> (r: bool)
        requires
            self.hs_wf(),
        ensures
            r == self.hs_contains(or),
    {
        match self {
            HeapSegment::Small(s) => s.contains(or),
            HeapSegment::Large(l) => l.contains(or),
        }
    }

    /// The address just past the last word.
    pub fn end(&self) -> (r: usize)
        requires
            self.hs_wf(),
        ensures
            r == self.hs_end(),
    {
        match self {
            HeapSegment::Small(s) => s.base() + SEGMENT_SIZE,
            HeapSegment::Large(l) => l.base() + 8 * l.data().len(),
        }
    }

    /// The address of the first word.
    pub fn base(&self) -> (r: usize)
        ensures
            r == self.hs_base(),
    {
        match self {
            HeapSegment::Small(s) => s.base(),
            HeapSegment::Large(l) => l.base(),
        }
    }

    /// Marks the object at `or` (and pins it when asked); `Ok(true)` when it
    /// was not marked before, an error where `or` has no mark bit here.
    pub fn mark_object(&mut self, or: usize, pin: bool) -> (r: Result<bool, ()>)
        requires
            old(self).hs_wf(),
        ensures
            final(self).hs_wf(),
            HeapSegment::marks_grow(*old(self), *final(self)),
            pin && old(self).is_small() && old(self).hs_mark_index(or) is Some ==> final(self).hs_pinned_at(or),
            old(self).hs_mark_index(or) is None ==> r is Err && final(self).hs_marks() == old(self).hs_marks(),
            old(self).hs_mark_index(or) matches Some(i) ==> r == Ok::<bool, ()>(!old(self).hs_marks()[i])
                && final(self).hs_marks() == old(self).hs_marks().update(i, true),
            final(self).hs_unmarked() == old(self).hs_unmarked() - if r == Ok::<bool, ()>(true) {
                1int
            } else {
                0int
            },
    {
        let ghost m0 = self.hs_marks();
        let r = match self {
            HeapSegment::Small(s) => s.mark_object(or, pin),
            HeapSegment::Large(l) => l.mark_object(or, pin),
        };
        proof {
            match old(self).hs_mark_index(or) {
                Some(i) => {
                    assert(self.hs_marks() =~= m0.update(i, true));
                    lemma_count_used_update(m0, m0.len() as int, i, true);
                },
                None => {
                    assert(self.hs_marks() =~= m0);
                },
            }
        }
        r
    }

    /// Whether the object at `or` is marked; an error where `or` has no mark
    /// bit here.
    pub fn is_marked(&self, or: usize) -> (r: Result<bool, ()>)
        requires
            self.hs_wf(),
        ensures
            self.hs_mark_index(or) is None ==> r is Err,
            self.hs_mark_index(or) matches Some(i) ==> r == Ok::<bool, ()>(self.hs_marks()[i]),
    {
        match self {
            HeapSegment::Small(s) => s.is_marked(or),
            HeapSegment::Large(l) => l.is_marked(or),
        }
    }

    /// The addresses of the reference fields of the object at `or`.
    pub fn object_ref_slots(&self, types: &TypeTable, or: usize) -> (r: Vec<usize>)
        requires
            self.hs_wf(),
            types.wf(),
        ensures
            r@.map_values(|x: usize| x as int) == self.hs_slots(*types, or),
    {
        match self {
            HeapSegment::Small(s) => s.object_ref_slots(types, or),
            HeapSegment::Large(l) => {
                let r = l.object_ref_slots(types, or);
                proof {
                    if or != l.object_ref() {
                        assert(r@.map_values(|x: usize| x as int) =~= Seq::<int>::empty());
                    }
                }
                r
            },
        }
    }

    /// The word at address `a`, where it is a word of the segment.
    pub fn load_word(&self, a: usize) -> (r: Option<usize>)
        requires
            self.hs_wf(),
        ensures
            r == self.hs_word_at(a as int),
    {
        match self {
            HeapSegment::Small(s) => s.load_word(a),
            HeapSegment::Large(l) => l.load_word(a),
        }
    }

    /// The object holding the address `x` (for interior references).
    pub fn find_object(&self, types: &TypeTable, x: usize) -> (r: Option<usize>)
        requires
            self.hs_wf(),
            types.wf(),
        ensures
            r matches Some(a) ==> self.hs_find(*types, x) == Some(a as int),
            r is None ==> self.hs_find(*types, x) is None,
    {
        match self {
            HeapSegment::Small(s) => s.find_object(types, x),
            HeapSegment::Large(l) => l.find_object(x),
        }
    }
}


impl HeapSegment {
    /// The addresses of the objects of the segment that are not free space.
    pub open spec fn hs_live(self, types: TypeTable) -> Seq<int> {
        match self {
            HeapSegment::Small(s) => s.live_objects(types).map_values(|i: int| s.addr(i)),
            HeapSegment::Large(l) => seq![l.object_ref()],
        }
    }

    /// The object at `or`, where a known type is recorded there.
    pub open spec fn hs_object(self, types: TypeTable, or: usize) -> Option<Object> {
        match self {
            HeapSegment::Small(s) => match s.word_index(or) {
                Some(i) => object_if_typed(types, s.words(), i),
                None => None,
            },
            HeapSegment::Large(l) => if or == l.object_ref() {
                object_if_typed(types, l.words(), 1)
            } else {
                None
            },
        }
    }

    /// Whether the object at `or` has a finalizer that still has to run.
    pub open spec fn hs_needs_finalization(self, types: TypeTable, or: usize) -> bool {
        self.hs_object(types, or) matches Some(o) && o.spec_needs_finalization()
    }

    /// The addresses of the objects of the segment that are not free space.
    pub fn iter(&self, types: &TypeTable) -> (r: Vec<usize>)
        requires
            self.hs_wf(),
            types.wf(),
        ensures
            r@.map_values(|a: usize| a as int) == self.hs_live(*types),
    {
        match self {
            HeapSegment::Small(s) => s.iter(types),
            HeapSegment::Large(l) => {
                let r = l.iter();
                proof {
                    assert(r@.map_values(|a: usize| a as int) =~= seq![l.object_ref()]);
                }
                r
            },
        }
    }

    /// Whether the object at `or` has a finalizer that still has to run.
    pub fn needs_finalization_at(&self, types: &TypeTable, or: usize) -> (r: bool)
        requires
            self.hs_wf(),
            types.wf(),
        ensures
            r == self.hs_needs_finalization(*types, or),
    {
        let o = match self {
            HeapSegment::Small(s) => s.object_at_ref(types, or),
            HeapSegment::Large(l) => l.object_at_ref(types, or),
        };
        match o {
            Some(obj) => obj.needs_finalization(),
            None => false,
        }
    }

    /// Whether the object at `or` is pending finalization; an error where
    /// `or` has no flag here.
    pub fn get_finalization_pending(&self, or: usize) -> (r: Result<bool, ()>)
        requires
            self.hs_wf(),
        ensures
            self.hs_mark_index(or) is None ==> r is Err,
            self.hs_mark_index(or) matches Some(i) ==> r == Ok::<bool, ()>(self.hs_pendings()[i]),
    {
        match self {
            HeapSegment::Small(s) => s.get_finalization_pending(or),
            HeapSegment::Large(l) => l.get_finalization_pending(or),
        }
    }

    /// Sets the finalization-pending flag of the object at `or`; an error
    /// where `or` has no flag here. Marks and words stay.
    pub fn set_finalization_pending(&mut self, or: usize, pending: bool) -> (r: Result<(), ()>)
        requires
            old(self).hs_wf(),
        ensures
            final(self).hs_wf(),
            final(self).is_small() == old(self).is_small(),
            final(self).hs_words() == old(self).hs_words(),
            final(self).hs_base() == old(self).hs_base(),
            final(self).hs_marks() == old(self).hs_marks(),
            forall|x: usize| final(self).hs_mark_index(x) == old(self).hs_mark_index(x),
            forall|x: usize| final(self).hs_contains(x) == old(self).hs_contains(x),
            forall|x: usize| #[trigger] final(self).hs_pinned_at(x) == old(self).hs_pinned_at(x),
            old(self).hs_mark_index(or) is None ==> r is Err && final(self).hs_pendings() == old(self).hs_pendings(),
            old(self).hs_mark_index(or) matches Some(i) ==> r is Ok && final(self).hs_pendings()
                == old(self).hs_pendings().update(i, pending),
    {
        let r = match self {
            HeapSegment::Small(s) => s.set_finalization_pending(or, pending),
            HeapSegment::Large(l) => l.set_finalization_pending(or, pending),
        };
        proof {
            if let Some(i) = old(self).hs_mark_index(or) {
                if !old(self).is_small() {
                    assert(self.hs_pendings() =~= old(self).hs_pendings().update(i, pending));
                }
            } else {
                if !old(self).is_small() {
                    assert(self.hs_pendings() =~= old(self).hs_pendings());
                }
            }
            if !old(self).is_small() {
                assert(self.hs_marks() =~= old(self).hs_marks());
            }
        }
        r
    }

    /// Sets or clears the finalizer-run bit in the header of the object at
    /// `or`; returns whether it did.
    pub fn set_finalizer_run(&mut self, or: usize, value: bool) -> (r: bool)
        requires
            old(self).hs_wf(),
        ensures
            final(self).hs_wf(),
            final(self).is_small() == old(self).is_small(),
            final(self).hs_base() == old(self).hs_base(),
            final(self).hs_marks() == old(self).hs_marks(),
            final(self).hs_pendings() == old(self).hs_pendings(),
            final(self).hs_words().len() == old(self).hs_words().len(),
            forall|x: usize| final(self).hs_mark_index(x) == old(self).hs_mark_index(x),
            forall|x: usize| final(self).hs_contains(x) == old(self).hs_contains(x),
            r == (old(self).hs_mark_index(or) is Some && or - 8 >= old(self).hs_base()),
            r ==> final(self).hs_words() == old(self).hs_words().update(
                (or - 8 - old(self).hs_base()) / 8,
                header_with_finalizer_run(old(self).hs_words()[(or - 8 - old(self).hs_base()) / 8], value),
            ),
            r ==> final(self).hs_word_at(or - 8) == Some(
                header_with_finalizer_run(old(self).hs_word_at(or - 8).unwrap(), value),
            ),
            !r ==> final(self).hs_words() == old(self).hs_words(),
    {
        let r = match self {
            HeapSegment::Small(s) => s.set_finalizer_run(or, value),
            HeapSegment::Large(l) => l.set_finalizer_run(or, value),
        };
        proof {
            if !old(self).is_small() {
                assert(self.hs_marks() =~= old(self).hs_marks());
                assert(self.hs_pendings() =~= old(self).hs_pendings());
            }
            if r {
                let b = old(self).hs_base();
                if old(self).is_small() {
                    let i = old(self).hs_mark_index(or).unwrap();
                    assert(or - b == 8 * i) by (nonlinear_arith)
                        requires (or - b) % 8 == 0, i == (or - b) / 8;
                    assert((or - 8 - b) / 8 == i - 1);
                } else {
                    assert((or - 8 - b) / 8 == 0);
                }
            }
        }
        r
    }
}

impl HeapSegment {
    /// The live objects of a segment are in it and have flag bits.
    pub proof fn lemma_live_in_seg(self, types: TypeTable)
        requires
            self.hs_wf(),
        ensures
            forall|j: int|
                0 <= j < self.hs_live(types).len() ==> (#[trigger] self.hs_live(types)[j]) <= usize::MAX
                    && self.hs_mark_index(self.hs_live(types)[j] as usize) is Some
                    && self.hs_contains(self.hs_live(types)[j] as usize),
    {
        match self {
            HeapSegment::Small(s) => {
                lemma_live_from_range(types, s.words(), 1);
                let l = s.live_objects(types);
                assert forall|j: int| 0 <= j < self.hs_live(types).len() implies (#[trigger] self.hs_live(types)[j]) <= usize::MAX
                    && self.hs_mark_index(self.hs_live(types)[j] as usize) is Some
                    && self.hs_contains(self.hs_live(types)[j] as usize) by {
                    let i = l[j];
                    assert(readable(types, s.words(), i));
                    let a = s.addr(i);
                    assert(self.hs_live(types)[j] == a);
                    assert((a - s.spec_base()) % 8 == 0 && (a - s.spec_base()) / 8 == i) by (nonlinear_arith)
                        requires a == s.spec_base() + 8 * i;
                }
            },
            HeapSegment::Large(_) => {},
        }
    }
}

impl HeapSegment {
    /// Whether the live objects of a small-object segment take no more than
    /// the bytes recorded by its last sweep.
    pub open spec fn live_bytes_ok(self, types: TypeTable) -> bool {
        self matches HeapSegment::Small(s) ==> 8 * live_words_from(types, s.words(), 1) <= s.spec_alive_bytes()
    }

    /// The word index of the address `a`.
    pub open spec fn hs_index(self, a: int) -> int {
        (a - self.hs_base()) / 8
    }

    /// Whether `a` is the address of a reference slot of a live object.
    pub open spec fn hs_is_slot(self, types: TypeTable, a: int) -> bool {
        exists|k: int|
            0 <= k < self.hs_live(types).len() && #[trigger] self.hs_slots(types, self.hs_live(types)[k] as usize).contains(a)
    }

    /// Whether the segment holds a pinned object: for a small segment, some
    /// pin bit is set; a large segment counts as pinned.
    pub open spec fn hs_pinned(self) -> bool {
        match self {
            HeapSegment::Small(s) => s.pins().contains(true),
            HeapSegment::Large(_) => true,
        }
    }

    /// Whether any object of the segment survives a sweep: for a small
    /// segment, whether its marked objects take any bytes; for a large one,
    /// whether its object is marked.
    pub open spec fn hs_survives(self, types: TypeTable) -> bool {
        match self {
            HeapSegment::Small(s) => alive_from(types, s.words(), s.marks(), 1) != 0,
            HeapSegment::Large(l) => l.spec_mark(),
        }
    }

    /// Whether `after` is this segment swept: a small segment keeps exactly
    /// its marked objects, with free space over the rest, and its flags; a
    /// large segment is left as it is.
    pub open spec fn hs_swept_into(self, after: HeapSegment, types: TypeTable) -> bool {
        match self {
            HeapSegment::Small(a) => after matches HeapSegment::Small(b) && b.words() == swept_words(
                types,
                a.words(),
                a.marks(),
                a.words(),
                1,
            ) && b.live_objects(types) == kept_from(types, a.words(), a.marks(), 1) && b.marks() == a.marks()
                && b.pins() == a.pins() && b.pendings() == a.pendings() && b.spec_base() == a.spec_base()
                && b.spec_alive_bytes() == alive_from(types, a.words(), a.marks(), 1)
                && walk_end(types, b.words(), 1) <= b.spec_available_from() + 1,
            HeapSegment::Large(_) => after == self,
        }
    }

    /// Sweeps the segment; returns whether any object survived.
    pub fn sweep(&mut self, types: &TypeTable) -> (r: bool)
        requires
            old(self).hs_wf(),
            types.wf(),
        ensures
            r == old(self).hs_survives(*types),
            old(self).hs_swept_into(*final(self), *types),
            final(self).hs_wf(),
            final(self).is_small() == old(self).is_small(),
            final(self).hs_base() == old(self).hs_base(),
            final(self).hs_marks() == old(self).hs_marks(),
            final(self).hs_pendings() == old(self).hs_pendings(),
            final(self).hs_words().len() == old(self).hs_words().len(),
            !old(self).is_small() ==> *final(self) == *old(self),
            final(self).live_bytes_ok(*types),
            !r ==> (*final(self) matches HeapSegment::Small(s) ==> s.spec_available_from() == 0),
    {
        match self {
            HeapSegment::Small(s) => {
                let ghost w0 = s.words();
                let ghost m0 = s.marks();
                let r = s.sweep(types);
                proof {
                    lemma_nothing_alive_tail(*types, w0, m0, 1);
                }
                r
            },
            HeapSegment::Large(l) => l.sweep(),
        }
    }

    /// Clears the mark (and pin) bits; the finalization-pending bits stay.
    pub fn clear_flags(&mut self)
        requires
            old(self).hs_wf(),
        ensures
            final(self).hs_wf(),
            final(self).is_small() == old(self).is_small(),
            final(self).hs_words() == old(self).hs_words(),
            final(self).hs_base() == old(self).hs_base(),
            final(self).hs_pendings() == old(self).hs_pendings(),
            final(self).hs_marks().len() == old(self).hs_marks().len(),
            forall|i: int| 0 <= i < final(self).hs_marks().len() ==> !#[trigger] final(self).hs_marks()[i],
            final(self).is_small() ==> !final(self).hs_pinned(),
            forall|x: usize| final(self).hs_mark_index(x) == old(self).hs_mark_index(x),
            forall|x: usize| final(self).hs_contains(x) == old(self).hs_contains(x),
    {
        match self {
            HeapSegment::Small(s) => s.clear_flags(),
            HeapSegment::Large(l) => l.clear_flags(),
        }
    }

    /// Whether the segment holds a pinned object (a single-object segment
    /// always does).
    pub fn contains_pinned(&self) -> (r: bool)
        requires
            self.hs_wf(),
        ensures
            r == self.hs_pinned(),
    {
        match self {
            HeapSegment::Small(s) => s.contains_pinned(),
            HeapSegment::Large(l) => l.contains_pinned(),
        }
    }

    /// Whether any object of the segment is marked.
    pub fn contains_marked(&self) -> (r: bool)
        requires
            self.hs_wf(),
        ensures
            r == self.hs_marks().contains(true),
    {
        match self {
            HeapSegment::Small(s) => s.contains_marked(),
            HeapSegment::Large(l) => {
                let m = l.marked();
                proof {
                    if m {
                        assert(seq![l.spec_mark()][0] == true);
                    }
                }
                m
            },
        }
    }

    /// Bytes of the objects that survived the last sweep.
    pub fn alive_bytes(&self) -> (r: usize)
        requires
            self.hs_wf(),
        ensures
            self matches HeapSegment::Small(s) ==> r == s.spec_alive_bytes(),
            !self.is_small() ==> r == 8 * self.hs_words().len(),
    {
        match self {
            HeapSegment::Small(s) => s.alive_bytes(),
            HeapSegment::Large(l) => l.alive_bytes(),
        }
    }

    /// Bytes available for allocation after the last surviving object.
    pub fn available_bytes(&self) -> (r: usize)
        requires
            self.hs_wf(),
        ensures
            self matches HeapSegment::Small(s) ==> r == 8 * (POINTER_SIZE - s.spec_available_from()),
            !self.is_small() ==> r == 0,
    {
        match self {
            HeapSegment::Small(s) => {
                let (start, end) = s.available_range();
                end - start
            },
            HeapSegment::Large(_) => 0,
        }
    }

    /// Writes `value` at address `a`, where it is a word of the segment.
    pub fn store_word(&mut self, a: usize, value: usize) -> (r: bool)
        requires
            old(self).hs_wf(),
        ensures
            final(self).hs_wf(),
            final(self).is_small() == old(self).is_small(),
            final(self).hs_base() == old(self).hs_base(),
            final(self).hs_marks() == old(self).hs_marks(),
            final(self).hs_pendings() == old(self).hs_pendings(),
            forall|x: usize| final(self).hs_mark_index(x) == old(self).hs_mark_index(x),
            forall|x: usize| final(self).hs_contains(x) == old(self).hs_contains(x),
            r == (old(self).hs_word_at(a as int) is Some),
            r ==> final(self).hs_words() == old(self).hs_words().update((a - old(self).hs_base()) / 8, value),
            !r ==> final(self).hs_words() == old(self).hs_words(),
    {
        match self {
            HeapSegment::Small(s) => s.store_word(a, value),
            HeapSegment::Large(l) => l.store_word(a, value),
        }
    }
}
} // verus!
