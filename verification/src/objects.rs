use vstd::prelude::*;

verus! {

/// Size of a pointer on the supported (64-bit) targets.
pub const POINTER_BYTES: usize = 8;

/// The flag of [`MethodTable::flags_high`] for variable-sized objects.
pub const HAS_COMPONENT_SIZE: u16 = 0x8000;
/// The flag of [`MethodTable::flags_high`] for objects holding references.
pub const HAS_GC_POINTERS: u16 = 0x0100;
/// The flag of [`MethodTable::flags_high`] for objects with a finalizer.
pub const HAS_FINALIZER: u16 = 0x0010;
/// The minimum object size: header, method table pointer and one payload word.
pub const BASE_SIZE: usize = 24;
/// Header bit set by the runtime when the finalizer of the object must be skipped.
pub const BIT_SBLK_FINALIZER_RUN: u32 = 0x4000_0000;

/// `size` rounded up to the next multiple of the pointer size.
pub open spec fn align_up(size: int) -> int {
    ((size + 7) / 8) * 8
}

/// Rounds `size` up to a multiple of the pointer size.
pub fn align_to_ptr(size: usize) -> (r: usize)
    requires
        size <= usize::MAX - 7,
    ensures
        r == align_up(size as int),
        r % 8 == 0,
        size <= r < size + 8,
{
    let mask: usize = POINTER_BYTES - 1;
    let bumped: usize = size + mask;
    let r = bumped & !mask;
    assert(r == (bumped / 8) * 8) by (bit_vector)
        requires
            mask == 7usize,
            r == bumped & !mask,
    ;
    r
}

} // verus!

verus! {

/// The type of an object on the GC heap, reduced to what the collector reads:
/// the sizes and the flags.
#[derive(Clone, Copy)]
pub struct MethodTable {
    /// The size of one element of a variable-sized object, padding included.
    pub component_size: u16,
    pub flags_high: u16,
    /// The base size of the type, header and method table pointer included.
    pub base_size: u32,
}

/// The part of an object on the heap that the collector reads: its type, the
/// element count (for variable-sized objects) and the low 32 bits of the
/// header word that precedes it.
#[derive(Clone, Copy)]
pub struct Object {
    pub method_table: MethodTable,
    pub component_count: u32,
    pub header: u32,
}

/// A run of consecutive references inside an object (positive GCDesc).
#[derive(Clone, Copy)]
pub struct GcDescSeries {
    /// Byte length of the run minus the object size (so never positive).
    pub size: isize,
    /// Byte offset of the run from the object pointer.
    pub offset: usize,
}

/// The references inside one element of a value-type array (negative GCDesc).
#[derive(Clone, Copy)]
pub struct ValSeriesItem {
    /// Number of consecutive references.
    pub pointers: u32,
    /// Bytes without references that follow them.
    pub skip: u32,
}

/// The GC descriptor of a type: where the references inside its objects are.
pub enum GcDesc {
    /// Runs of references; for arrays a run grows with the object size.
    Series(Vec<GcDescSeries>),
    /// Repeated layout for arrays of structs: `offset` is the byte offset of
    /// the first element, `items` the layout of one element.
    Repeating { offset: usize, items: Vec<ValSeriesItem> },
}

pub open spec fn has_flag(flags: u16, flag: u16) -> bool {
    flags & flag != 0
}

impl Object {
    pub open spec fn spec_has_component_size(self) -> bool {
        has_flag(self.method_table.flags_high, HAS_COMPONENT_SIZE)
    }

    /// The unaligned size in bytes: `BaseSize + ComponentSize * ComponentCount`.
    pub open spec fn spec_total_size(self) -> int {
        self.method_table.base_size as int + if self.spec_has_component_size() {
            self.method_table.component_size as int * self.component_count as int
        } else {
            0
        }
    }

    /// The size in bytes that the object occupies on the heap.
    pub open spec fn spec_total_size_aligned(self) -> int {
        align_up(self.spec_total_size())
    }

    pub open spec fn spec_finalizer_run(self) -> bool {
        self.header & BIT_SBLK_FINALIZER_RUN != 0
    }

    pub open spec fn spec_is_finalizable(self) -> bool {
        has_flag(self.method_table.flags_high, HAS_FINALIZER)
    }

    pub open spec fn spec_needs_finalization(self) -> bool {
        self.spec_is_finalizable() && !self.spec_finalizer_run()
    }

    /// Whether the type has variable size.
    pub fn has_component_size(&self) -> (r: bool)
        ensures
            r == self.spec_has_component_size(),
    {
        self.method_table.flags_high & HAS_COMPONENT_SIZE != 0
    }

    /// Whether the type has a finalizer.
    pub fn is_finalizable(&self) -> (r: bool)
        ensures
            r == self.spec_is_finalizable(),
    {
        self.method_table.flags_high & HAS_FINALIZER != 0
    }

    /// Whether the runtime asked to skip the finalizer of this object.
    pub fn get_finalizer_run(&self) -> (r: bool)
        ensures
            r == self.spec_finalizer_run(),
    {
        self.header & BIT_SBLK_FINALIZER_RUN != 0
    }

    /// Sets or clears the finalizer-run bit of the header; the other header
    /// bits and the rest of the object stay.
    pub fn set_finalizer_run(&mut self, value: bool)
        ensures
            final(self).header == (if value {
                old(self).header | BIT_SBLK_FINALIZER_RUN
            } else {
                old(self).header & !BIT_SBLK_FINALIZER_RUN
            }),
            final(self).spec_finalizer_run() == value,
            final(self).method_table == old(self).method_table,
            final(self).component_count == old(self).component_count,
    {
        let h = self.header;
        if value {
            self.header = h | BIT_SBLK_FINALIZER_RUN;
            assert((h | 0x4000_0000u32) & 0x4000_0000u32 != 0) by (bit_vector);
        } else {
            self.header = h & !BIT_SBLK_FINALIZER_RUN;
            assert((h & !0x4000_0000u32) & 0x4000_0000u32 == 0) by (bit_vector);
        }
    }

    /// Whether the object still has to be finalized: it has a finalizer and
    /// the runtime did not ask to skip it.
    pub fn needs_finalization(&self) -> (r: bool)
        ensures
            r == self.spec_needs_finalization(),
    {
        self.is_finalizable() && !self.get_finalizer_run()
    }

    /// `BaseSize + ComponentSize * ComponentCount`, the element part only for
    /// variable-sized types. The sum is computed in `u32`, so it must fit.
    pub fn total_size(&self) -> (r: u32)
        requires
            self.spec_total_size() <= u32::MAX,
        ensures
            r == self.spec_total_size(),
    {
        let mt = self.method_table;
        if self.has_component_size() {
            let cs = mt.component_size as u32;
            let cc = self.component_count;
            assert(0 <= cs * cc <= self.spec_total_size()) by (nonlinear_arith)
                requires
                    self.spec_total_size() == mt.base_size as int + cs as int * cc as int,
            ;
            mt.base_size + cs * cc
        } else {
            mt.base_size
        }
    }

    /// The unaligned size, or `None` where it does not fit in `u32`.
    pub fn checked_total_size(&self) -> (r: Option<u32>)
        ensures
            r matches Some(s) ==> s == self.spec_total_size(),
            r is None <==> self.spec_total_size() > u32::MAX,
    {
        let mt = self.method_table;
        if self.has_component_size() {
            let cs = mt.component_size as u64;
            let cc = self.component_count as u64;
            assert(cs * cc <= 0xffff * 0xffff_ffff) by (nonlinear_arith)
                requires
                    cs <= 0xffff,
                    cc <= 0xffff_ffff,
            ;
            let total: u64 = mt.base_size as u64 + cs * cc;
            if total > u32::MAX as u64 {
                None
            } else {
                Some(total as u32)
            }
        } else {
            Some(mt.base_size)
        }
    }

    /// The size that the object occupies on the heap: the total size rounded
    /// up to the pointer size.
    pub fn total_size_aligned(&self) -> (r: usize)
        requires
            self.spec_total_size() <= u32::MAX,
            self.spec_total_size() + 7 <= usize::MAX,
        ensures
            r == self.spec_total_size_aligned(),
    {
        align_to_ptr(self.total_size() as usize)
    }
}

} // verus!

verus! {

/// `count` consecutive pointer-sized slots starting at byte offset `start`.
pub open spec fn slot_run(start: int, count: int) -> Seq<int> {
    Seq::new(count as nat, |i: int| start + 8 * i)
}

/// Number of references in a series of an object of `obj_size` bytes
/// (none where the encoded length would be negative).
pub open spec fn series_field_count(obj_size: int, s: GcDescSeries) -> int {
    if obj_size + s.size >= 0 {
        (obj_size + s.size) / 8
    } else {
        0
    }
}

/// Reference offsets of the first `series.len()` series, in order.
pub open spec fn series_refs(series: Seq<GcDescSeries>, obj_size: int) -> Seq<int>
    decreases series.len(),
{
    if series.len() == 0 {
        Seq::empty()
    } else {
        series_refs(series.drop_last(), obj_size) + slot_run(
            series.last().offset as int,
            series_field_count(obj_size, series.last()),
        )
    }
}

/// Bytes covered by the first `k` items of a value-array element layout.
pub open spec fn item_span(items: Seq<ValSeriesItem>, k: int) -> int
    decreases k,
{
    if k <= 0 {
        0
    } else {
        item_span(items, k - 1) + 8 * items[k - 1].pointers as int + items[k - 1].skip as int
    }
}

/// Reference offsets of the first `k` items of an element starting at `base`.
pub open spec fn item_refs(items: Seq<ValSeriesItem>, base: int, k: int) -> Seq<int>
    decreases k,
{
    if k <= 0 {
        Seq::empty()
    } else {
        item_refs(items, base, k - 1) + slot_run(
            base + item_span(items, k - 1),
            items[k - 1].pointers as int,
        )
    }
}

/// Reference offsets of the first `e` elements of a value array.
pub open spec fn element_refs(offset: int, component_size: int, items: Seq<ValSeriesItem>, e: int) -> Seq<int>
    decreases e,
{
    if e <= 0 {
        Seq::empty()
    } else {
        element_refs(offset, component_size, items, e - 1) + item_refs(
            items,
            offset + (e - 1) * component_size,
            items.len() as int,
        )
    }
}

/// The byte offsets, from the object pointer, of the reference fields of
/// `obj` laid out by `desc`, in the order the collector visits them.
pub open spec fn ref_offsets(obj: Object, desc: GcDesc) -> Seq<int> {
    if !has_flag(obj.method_table.flags_high, HAS_GC_POINTERS) {
        Seq::empty()
    } else {
        match desc {
            GcDesc::Series(series) => series_refs(series@, obj.spec_total_size_aligned()),
            GcDesc::Repeating { offset, items } => element_refs(
                offset as int,
                obj.method_table.component_size as int,
                items@,
                obj.component_count as int,
            ),
        }
    }
}

/// Whether every offset (and every intermediate position) of the reference
/// walk of `obj` fits in `usize`.
pub open spec fn ref_offsets_fit(obj: Object, desc: GcDesc) -> bool {
    !has_flag(obj.method_table.flags_high, HAS_GC_POINTERS) || match desc {
        GcDesc::Series(series) => forall|k: int|
            0 <= k < series@.len() ==> series@[k].offset + 8 * series_field_count(
                obj.spec_total_size_aligned(),
                series@[k],
            ) <= usize::MAX,
        GcDesc::Repeating { offset, items } => obj.component_count == 0 || offset + (
        obj.component_count - 1) * obj.method_table.component_size + item_span(
            items@,
            items@.len() as int,
        ) <= usize::MAX,
    }
}

proof fn lemma_item_span_mono(items: Seq<ValSeriesItem>, j: int, k: int)
    requires
        0 <= j <= k,
    ensures
        item_span(items, j) <= item_span(items, k),
    decreases k - j,
{
    if j < k {
        lemma_item_span_mono(items, j, k - 1);
    }
}

proof fn lemma_item_span_nonneg(items: Seq<ValSeriesItem>, k: int)
    ensures
        0 <= item_span(items, k),
    decreases k,
{
    if k > 0 {
        lemma_item_span_nonneg(items, k - 1);
    }
}

/// Appends the offsets `start, start + 8, ..` of `count` slots to `out`.
fn push_slot_run(out: &mut Vec<usize>, start: usize, count: usize)
    requires
        start + 8 * count <= usize::MAX,
    ensures
        final(out)@.map_values(|x: usize| x as int) == old(out)@.map_values(|x: usize| x as int)
            + slot_run(start as int, count as int),
{
    let ghost before = out@.map_values(|x: usize| x as int);
    let mut i: usize = 0;
    while i < count
        invariant
            i <= count,
            start + 8 * count <= usize::MAX,
            out@.map_values(|x: usize| x as int) == before + slot_run(start as int, i as int),
        decreases count - i,
    {
        let v = start + 8 * i;
        let ghost prev = out@;
        out.push(v);
        proof {
            assert(out@ == prev.push(v));
            assert(out@.map_values(|x: usize| x as int) =~= prev.map_values(|x: usize| x as int).push(
                v as int,
            ));
            assert(slot_run(start as int, i + 1) =~= slot_run(start as int, i as int).push(v as int));
            assert(out@.map_values(|x: usize| x as int) =~= before + slot_run(
                start as int,
                i + 1,
            ));
        }
        i = i + 1;
    }
}

impl Object {
    /// The byte offsets of the reference fields of the object, from the
    /// object pointer, as laid out by the GC descriptor of its type, in visit
    /// order; `None` where an offset would not fit in `usize`.
    pub fn reference_offsets(&self, desc: &GcDesc) -> (r: Option<Vec<usize>>)
        requires
            self.spec_total_size() <= u32::MAX,
            self.spec_total_size() + 7 <= usize::MAX,
        ensures
            r is Some <==> ref_offsets_fit(*self, *desc),
            r matches Some(v) ==> v@.map_values(|x: usize| x as int) == ref_offsets(*self, *desc),
    {
        let mut out: Vec<usize> = Vec::new();
        if self.method_table.flags_high & HAS_GC_POINTERS == 0 {
            assert(out@.map_values(|x: usize| x as int) =~= Seq::empty());
            return Some(out);
        }
        let obj_size = self.total_size_aligned();
        match desc {
            GcDesc::Series(series) => {
                let mut k: usize = 0;
                while k < series.len()
                    invariant
                        k <= series@.len(),
                        obj_size == self.spec_total_size_aligned(),
                        has_flag(self.method_table.flags_high, HAS_GC_POINTERS),
                        *desc == GcDesc::Series(*series),
                        out@.map_values(|x: usize| x as int) == series_refs(
                            series@.take(k as int),
                            obj_size as int,
                        ),
                        forall|j: int|
                            0 <= j < k ==> series@[j].offset + 8 * series_field_count(
                                obj_size as int,
                                series@[j],
                            ) <= usize::MAX,
                    decreases series@.len() - k,
                {
                    let s = series[k];
                    let sum: i128 = obj_size as i128 + s.size as i128;
                    let count: u128 = if sum >= 0 { (sum / 8) as u128 } else { 0 };
                    assert(count == series_field_count(obj_size as int, s));
                    if s.offset as u128 + 8 * count > usize::MAX as u128 {
                        assert(series@[k as int] == s);
                        assert(!(series@[k as int].offset + 8 * series_field_count(
                            self.spec_total_size_aligned(),
                            series@[k as int],
                        ) <= usize::MAX));
                        assert(has_flag(self.method_table.flags_high, HAS_GC_POINTERS));
                        assert(obj_size == self.spec_total_size_aligned());
                        assert(match *desc {
                            GcDesc::Series(ss) => ss@ == series@,
                            _ => false,
                        });
                        assert(!ref_offsets_fit(*self, *desc));
                        return None;
                    }
                    push_slot_run(&mut out, s.offset, count as usize);
                    proof {
                        assert(series@.take(k + 1).drop_last() =~= series@.take(k as int));
                    }
                    k = k + 1;
                }
                proof {
                    assert(series@.take(k as int) =~= series@);
                }
                Some(out)
            },
            GcDesc::Repeating { offset, items } => {
                let cc = self.component_count;
                let cs = self.method_table.component_size;
                // check that the last element's layout fits
                let mut span: u128 = 0;
                let mut k: usize = 0;
                while k < items.len()
                    invariant
                        k <= items@.len(),
                        span == item_span(items@, k as int),
                        span <= k * 0x10_0000_0000,
                    decreases items@.len() - k,
                {
                    let it = items[k];
                    span = span + 8 * it.pointers as u128 + it.skip as u128;
                    k = k + 1;
                }
                if cc > 0 {
                    assert((cc - 1) * cs <= 0xffff_ffff * 0xffff) by (nonlinear_arith)
                        requires cc <= 0xffff_ffff, cs <= 0xffff, cc >= 1;
                    let last_base: u128 = *offset as u128 + (cc as u128 - 1) * cs as u128;
                    if last_base + span > usize::MAX as u128 {
                        return None;
                    }
                }
                assert(ref_offsets_fit(*self, *desc));
                let mut e: u32 = 0;
                while e < cc
                    invariant
                        e <= cc,
                        cc == self.component_count,
                        cs == self.method_table.component_size,
                        ref_offsets_fit(*self, *desc),
                        has_flag(self.method_table.flags_high, HAS_GC_POINTERS),
                        *desc == (GcDesc::Repeating { offset: *offset, items: *items }),
                        out@.map_values(|x: usize| x as int) == element_refs(
                            *offset as int,
                            cs as int,
                            items@,
                            e as int,
                        ),
                    decreases cc - e,
                {
                    proof {
                        assert(*offset + e * cs <= *offset + (cc - 1) * cs) by (nonlinear_arith)
                            requires e <= cc - 1;
                        lemma_item_span_nonneg(items@, items@.len() as int);
                    }
                    let base: usize = *offset + (e as usize) * (cs as usize);
                    let ghost elem_start = out@.map_values(|x: usize| x as int);
                    let mut cursor: usize = base;
                    let mut s: usize = 0;
                    while s < items.len()
                        invariant
                            s <= items@.len(),
                            base + item_span(items@, items@.len() as int) <= usize::MAX,
                            cursor == base + item_span(items@, s as int),
                            out@.map_values(|x: usize| x as int) == elem_start + item_refs(
                                items@,
                                base as int,
                                s as int,
                            ),
                        decreases items@.len() - s,
                    {
                        proof {
                            lemma_item_span_mono(items@, s + 1, items@.len() as int);
                        }
                        let it = items[s];
                        push_slot_run(&mut out, cursor, it.pointers as usize);
                        cursor = cursor + 8 * (it.pointers as usize) + it.skip as usize;
                        proof {
                            assert(out@.map_values(|x: usize| x as int) =~= elem_start + item_refs(
                                items@,
                                base as int,
                                s + 1,
                            ));
                        }
                        s = s + 1;
                    }
                    e = e + 1;
                    proof {
                        assert(out@.map_values(|x: usize| x as int) =~= element_refs(
                            *offset as int,
                            cs as int,
                            items@,
                            e as int,
                        ));
                    }
                }
                Some(out)
            },
        }
    }
}

} // verus!

verus! {

/// The kinds of GC handles.
#[derive(Clone, Copy, PartialEq, Eq, Structural, Debug)]
pub enum HandleType {
    /// A weak handle: cleared when the object is unreachable, not looking
    /// through finalizable objects; handles to finalizable objects (and their
    /// fields) are cleared before the finalizer runs.
    Short,
    /// A weak handle that tracks resurrection: cleared when the object is
    /// unreachable also from finalizable objects.
    ShortRecurrsion,
    /// A strong handle: keeps the object alive.
    Strong,
    /// A pinned handle: keeps the object alive at the same address.
    Pinned,
    /// A dependent handle: while the primary object is reachable it keeps the
    /// secondary object reachable; when the primary is dead both are cleared.
    Dependent,
}

/// The numeric value of a handle type in the runtime's interface.
pub open spec fn handle_type_value(t: HandleType) -> i32 {
    match t {
        HandleType::Short => 0i32,
        HandleType::ShortRecurrsion => 1i32,
        HandleType::Strong => 2i32,
        HandleType::Pinned => 3i32,
        HandleType::Dependent => 6i32,
    }
}

impl HandleType {
    /// The numeric value of the handle type in the runtime's interface.
    pub fn to_i32(self) -> (r: i32)
        ensures
            r == handle_type_value(self),
    {
        match self {
            HandleType::Short => 0,
            HandleType::ShortRecurrsion => 1,
            HandleType::Strong => 2,
            HandleType::Pinned => 3,
            HandleType::Dependent => 6,
        }
    }

    /// The handle type of a numeric value of the runtime's interface.
    pub fn from_i32(v: i32) -> (r: Option<HandleType>)
        ensures
            r matches Some(t) ==> handle_type_value(t) == v,
            r is None <==> !(v == 0 || v == 1 || v == 2 || v == 3 || v == 6),
    {
        match v {
            0 => Some(HandleType::Short),
            1 => Some(HandleType::ShortRecurrsion),
            2 => Some(HandleType::Strong),
            3 => Some(HandleType::Pinned),
            6 => Some(HandleType::Dependent),
            _ => None,
        }
    }
}

impl Default for HandleType {
    fn default() -> (r: HandleType)
        ensures
            r == HandleType::Short,
    {
        HandleType::Short
    }
}

/// A GC handle: the referenced object, the extra information (for a
/// dependent handle, the secondary object) and the handle type.
#[derive(Clone, Copy)]
pub struct GcHandle {
    pub object: usize,
    pub extra_or_secondary: usize,
    pub handle_type: HandleType,
}

/// The cleared handle: no object, no extra information, type `Short`.
pub open spec fn empty_handle() -> GcHandle {
    GcHandle { object: 0, extra_or_secondary: 0, handle_type: HandleType::Short }
}

impl Default for GcHandle {
    fn default() -> (r: GcHandle)
        ensures
            r == empty_handle(),
    {
        GcHandle { object: 0, extra_or_secondary: 0, handle_type: HandleType::Short }
    }
}

} // verus!

verus! {

impl MethodTable {
    /// The method table whose first 8 bytes, read as a little-endian word,
    /// are `w`: the component size in the low 16 bits, then the high flags,
    /// then the base size in the high 32 bits.
    pub fn from_raw(w: u64) -> (r: MethodTable)
        ensures
            r.component_size == (w & 0xffff) as u16,
            r.flags_high == ((w >> 16) & 0xffff) as u16,
            r.base_size == (w >> 32) as u32,
    {
        MethodTable {
            component_size: (w & 0xffff) as u16,
            flags_high: ((w >> 16) & 0xffff) as u16,
            base_size: (w >> 32) as u32,
        }
    }
}

/// The number of descriptor words (series count included) that a type's
/// GC descriptor takes, from its series count word: two per series and the
/// count for a series descriptor (count at least zero); the count, the
/// element offset and one per item for a repeating one (count below zero).
pub open spec fn gc_desc_len(count_word: u64) -> int {
    let count = count_word as i64;
    if count >= 0 {
        2 * count + 1
    } else {
        2 - count
    }
}

/// The series number `s` (from zero) of a descriptor whose words, read
/// backwards from the method table, are `w`.
pub open spec fn series_at(w: Seq<u64>, s: int) -> GcDescSeries {
    GcDescSeries { size: w[2 * s + 2] as isize, offset: w[2 * s + 1] as usize }
}

/// The item number `s` (from zero) of a repeating descriptor whose words,
/// read backwards from the method table, are `w`.
pub open spec fn item_at(w: Seq<u64>, s: int) -> ValSeriesItem {
    ValSeriesItem { pointers: (w[2 + s] & 0xffff_ffff) as u32, skip: (w[2 + s] >> 32) as u32 }
}

impl GcDesc {
    /// How many words, read backwards from the method table, hold the GC
    /// descriptor whose series count word is `count_word`; `None` where that
    /// does not fit in `usize`.
    pub fn words_needed(count_word: u64) -> (r: Option<usize>)
        ensures
            r matches Some(n) ==> n == gc_desc_len(count_word),
            r is None ==> gc_desc_len(count_word) > usize::MAX,
    {
        let count = count_word as i64;
        if count >= 0 {
            let c = count as u64;
            if c > (usize::MAX as u64 - 1) / 2 {
                None
            } else {
                Some((2 * c + 1) as usize)
            }
        } else {
            if count == i64::MIN {
                if (usize::MAX as u64) < 0x8000_0000_0000_0002u64 {
                    return None;
                }
                return Some(0x8000_0000_0000_0002u64 as usize);
            }
            let c = (-count) as u64;
            if c > usize::MAX as u64 - 2 {
                None
            } else {
                Some((c + 2) as usize)
            }
        }
    }

    /// Decodes a GC descriptor from its words read backwards from the method
    /// table (`w[0]` the series count); `None` where there are too few words,
    /// or where a repeating descriptor's element offset (a signed word) is
    /// negative, which no object's elements have.
    pub fn decode(w: &Vec<u64>) -> (r: Option<GcDesc>)
        ensures
            r is None <==> (w@.len() == 0 || w@.len() < gc_desc_len(w@[0]) || ((w@[0] as i64) < 0
                && (w@[1] as i64) < 0)),
            r matches Some(GcDesc::Series(v)) ==> (w@[0] as i64) >= 0 && v@.len() == w@[0] as i64 && forall|s: int|
                0 <= s < v@.len() ==> #[trigger] v@[s] == series_at(w@, s),
            r matches Some(GcDesc::Repeating { offset, items }) ==> (w@[0] as i64) < 0 && offset == w@[1] as usize
                && items@.len() == -(w@[0] as i64) && forall|s: int|
                0 <= s < items@.len() ==> #[trigger] items@[s] == item_at(w@, s),
    {
        let len = w.len();
        if len == 0 {
            return None;
        }
        let w0 = w[0];
        let count = w0 as i64;
        if count >= 0 {
            let c = count as u64;
            if c > ((len as u64) - 1) / 2 {
                return None;
            }
            let n = c as usize;
            let mut v: Vec<GcDescSeries> = Vec::new();
            let mut s: usize = 0;
            while s < n
                invariant
                    len == w@.len(),
                    n == w@[0] as i64,
                    2 * n + 1 <= len,
                    s <= n,
                    v@.len() == s,
                    forall|t: int| 0 <= t < s ==> #[trigger] v@[t] == series_at(w@, t),
                decreases n - s,
            {
                v.push(GcDescSeries { size: w[2 * s + 2] as isize, offset: w[2 * s + 1] as usize });
                s = s + 1;
            }
            Some(GcDesc::Series(v))
        } else {
            assert(w0 >= 0x8000_0000_0000_0000u64) by (bit_vector)
                requires
                    (w0 as i64) < 0,
            ;
            let c: u64 = u64::MAX - w0 + 1;
            assert(c == -(w0 as i64)) by (bit_vector)
                requires
                    w0 >= 0x8000_0000_0000_0000u64,
                    c == 0xffff_ffff_ffff_ffffu64 - w0 + 1,
            ;
            if (len as u64) < 2 || c > (len as u64) - 2 {
                return None;
            }
            if (w[1] as i64) < 0 {
                return None;
            }
            let n = c as usize;
            let mut items: Vec<ValSeriesItem> = Vec::new();
            let mut s: usize = 0;
            while s < n
                invariant
                    len == w@.len(),
                    n == -(w@[0] as i64),
                    n + 2 <= len,
                    s <= n,
                    items@.len() == s,
                    forall|t: int| 0 <= t < s ==> #[trigger] items@[t] == item_at(w@, t),
                decreases n - s,
            {
                let x = w[2 + s];
                items.push(ValSeriesItem { pointers: (x & 0xffff_ffff) as u32, skip: (x >> 32) as u32 });
                s = s + 1;
            }
            Some(GcDesc::Repeating { offset: w[1] as usize, items })
        }
    }
}

} // verus!
