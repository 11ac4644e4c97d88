use vstd::prelude::*;
use crate::objects::{
    GcDesc, MethodTable, has_flag, BASE_SIZE, HAS_COMPONENT_SIZE, HAS_FINALIZER, HAS_GC_POINTERS,
};

verus! {

/// The code with which the heap's initialization fails: the decimal number
/// 80004005, which the runtime does not read as the failure `E_FAIL`
/// (0x80004005) whose digits it shares.
pub const INIT_FAILED: u32 = 80004005;

/// What the collector knows of one type of the runtime: the address of its
/// method table, the method table itself and its GC descriptor.
pub struct TypeEntry {
    pub address: usize,
    pub method_table: MethodTable,
    pub gc_desc: GcDesc,
}

/// The method tables that objects on the heap point to, by address, with the
/// free-space method table that marks gaps on the heap.
pub struct TypeTable {
    free_mt: usize,
    free_table: MethodTable,
    entries: Vec<TypeEntry>,
}

/// The requirements on the free-space method table: variable-sized with
/// component size 1, base size [`BASE_SIZE`], no references and no finalizer.
pub open spec fn is_free_method_table(mt: MethodTable) -> bool {
    &&& mt.component_size == 1
    &&& mt.base_size == BASE_SIZE
    &&& has_flag(mt.flags_high, HAS_COMPONENT_SIZE)
    &&& !has_flag(mt.flags_high, HAS_GC_POINTERS)
    &&& !has_flag(mt.flags_high, HAS_FINALIZER)
}

/// How free space is read: elements of one byte after a base of
/// [`BASE_SIZE`] bytes, no references and no finalizer.
pub open spec fn free_space_table() -> MethodTable {
    MethodTable { component_size: 1, flags_high: HAS_COMPONENT_SIZE, base_size: BASE_SIZE as u32 }
}

/// The requirements on a registered type: a method table address other than
/// null and a base size of at least [`BASE_SIZE`].
pub open spec fn is_valid_entry(e: TypeEntry) -> bool {
    e.address != 0 && e.method_table.base_size >= BASE_SIZE
}

/// Whether the type known at `a` in `before` is known, the same, in `after`.
pub open spec fn type_kept(before: TypeTable, after: TypeTable, a: usize) -> bool {
    &&& after.has_type(a)
    &&& after.mt_of(a) == before.mt_of(a)
    &&& a != before.spec_free_mt() ==> after.desc_of(a) == before.desc_of(a)
}

impl TypeTable {
    pub closed spec fn spec_free_mt(self) -> usize {
        self.free_mt
    }

    pub closed spec fn spec_entries(self) -> Seq<TypeEntry> {
        self.entries@
    }

    pub closed spec fn wf(self) -> bool {
        &&& self.free_mt != 0
        &&& is_free_method_table(self.free_table)
        &&& forall|i: int| 0 <= i < self.entries@.len() ==> #[trigger] is_valid_entry(self.entries@[i])
        &&& forall|i: int|
            0 <= i < self.entries@.len() ==> #[trigger] self.entries@[i].address != self.free_mt
        &&& forall|i: int, j: int|
            0 <= i < j < self.entries@.len() ==> #[trigger] self.entries@[i].address
                != #[trigger] self.entries@[j].address
    }

    /// Whether a type is registered at `addr` (the free-space type included).
    pub open spec fn has_type(self, addr: usize) -> bool {
        addr == self.spec_free_mt() || exists|i: int|
            0 <= i < self.spec_entries().len() && #[trigger] self.spec_entries()[i].address == addr
    }

    /// The index of the entry registered at `addr`.
    pub open spec fn entry_index(self, addr: usize) -> int {
        choose|i: int| 0 <= i < self.spec_entries().len() && #[trigger] self.spec_entries()[i].address == addr
    }

    /// The method table registered at `addr`.
    pub closed spec fn mt_of(self, addr: usize) -> MethodTable {
        if addr == self.free_mt {
            self.free_table
        } else {
            self.entries@[self.entry_index(addr)].method_table
        }
    }

    /// The GC descriptor registered at `addr` (the free-space type has no references).
    pub closed spec fn desc_of(self, addr: usize) -> GcDesc {
        self.entries@[self.entry_index(addr)].gc_desc
    }

    pub proof fn lemma_wf_facts(self, addr: usize)
        requires
            self.wf(),
            self.has_type(addr),
        ensures
            addr != 0,
            self.mt_of(addr).base_size >= BASE_SIZE,
            addr == self.spec_free_mt() ==> is_free_method_table(self.mt_of(addr)),
            self.spec_free_mt() != 0,
    {
        if addr != self.free_mt {
            let i = self.entry_index(addr);
            assert(is_valid_entry(self.entries@[i]));
        }
    }

    /// A table that knows only the free-space type at `free_mt`.
    pub fn new(free_mt: usize, free_table: MethodTable) -> (r: TypeTable)
        requires
            free_mt != 0,
            is_free_method_table(free_table),
        ensures
            r.wf(),
            r.spec_free_mt() == free_mt,
            r.mt_of(free_mt) == free_table,
            r.spec_entries() == Seq::<TypeEntry>::empty(),
    {
        TypeTable { free_mt, free_table, entries: Vec::new() }
    }

    /// The table the collector starts with, from the free-space method table
    /// that the runtime reports at `free_mt`: an error ([`INIT_FAILED`]) where
    /// the address is null or the table has not component size 1 and base
    /// size [`BASE_SIZE`]. Free space is then read as the runtime lays it out
    /// ([`free_space_table`]).
    pub fn from_free_method_table(free_mt: usize, free_table: MethodTable) -> (r: Result<TypeTable, u32>)
        ensures
            r is Ok <==> free_mt != 0 && free_table.component_size == 1 && free_table.base_size == BASE_SIZE,
            r matches Ok(t) ==> t.wf() && t.spec_free_mt() == free_mt && t.mt_of(free_mt) == free_space_table()
                && t.spec_entries() == Seq::<TypeEntry>::empty(),
            r matches Err(e) ==> e == INIT_FAILED,
    {
        if free_mt == 0 || free_table.component_size != 1 || free_table.base_size != BASE_SIZE as u32 {
            return Err(INIT_FAILED);
        }
        let table = MethodTable { component_size: 1, flags_high: HAS_COMPONENT_SIZE, base_size: BASE_SIZE as u32 };
        assert(has_flag(HAS_COMPONENT_SIZE, HAS_COMPONENT_SIZE) && !has_flag(HAS_COMPONENT_SIZE, HAS_GC_POINTERS)
            && !has_flag(HAS_COMPONENT_SIZE, HAS_FINALIZER)) by (bit_vector);
        Ok(TypeTable::new(free_mt, table))
    }

    /// Records the type of `entry`. Refused (the table unchanged) where the
    /// entry is not valid or a type is already known at its address.
    pub fn register(&mut self, entry: TypeEntry) -> (r: bool)
        requires
            old(self).wf(),
        ensures
            final(self).wf(),
            r == (is_valid_entry(entry) && !old(self).has_type(entry.address)),
            r ==> final(self).spec_free_mt() == old(self).spec_free_mt() && final(self).spec_entries()
                == old(self).spec_entries().push(entry),
            r ==> final(self).has_type(entry.address) && final(self).mt_of(entry.address) == entry.method_table
                && final(self).desc_of(entry.address) == entry.gc_desc,
            r ==> forall|a: usize| #[trigger] old(self).has_type(a) ==> type_kept(*old(self), *final(self), a),
            !r ==> *final(self) == *old(self),
    {
        if entry.address == 0 || entry.method_table.base_size < BASE_SIZE as u32 || entry.address == self.free_mt {
            return false;
        }
        if let Some(_) = self.find(entry.address) {
            return false;
        }
        let ghost old_entries = self.entries@;
        let ghost addr = entry.address;
        self.entries.push(entry);
        proof {
            let n = old_entries.len() as int;
            assert(self.entries@ == old_entries.push(entry));
            assert(self.entries@[n] == entry);
            assert(self.has_type(addr));
            assert(self.entry_index(addr) == n) by {
                let k = self.entry_index(addr);
                assert(0 <= k < self.entries@.len() && self.entries@[k].address == addr);
                if k != n {
                    assert(old_entries[k].address != addr);
                }
            }
            assert forall|a: usize| #[trigger] old(self).has_type(a) implies type_kept(*old(self), *self, a) by {
                if a != self.free_mt {
                    let k0 = old(self).entry_index(a);
                    assert(0 <= k0 < old_entries.len() && old_entries[k0].address == a);
                    assert(self.entries@[k0] == old_entries[k0]);
                    let k1 = self.entry_index(a);
                    assert(0 <= k1 < self.entries@.len() && self.entries@[k1].address == a);
                    if k1 != k0 {
                        if k1 == n {
                            assert(old_entries[k0].address != addr);
                        } else if k1 < k0 {
                            assert(old_entries[k1].address != old_entries[k0].address);
                        } else {
                            assert(old_entries[k0].address != old_entries[k1].address);
                        }
                    }
                }
            }
            assert forall|i: int, j: int|
                0 <= i < j < self.entries@.len() implies #[trigger] self.entries@[i].address
                    != #[trigger] self.entries@[j].address by {
                if j == n {
                    assert(old_entries[i].address != addr);
                } else {
                    assert(old_entries[i].address != old_entries[j].address);
                }
            }
            assert forall|i: int| 0 <= i < self.entries@.len() implies #[trigger] is_valid_entry(self.entries@[i]) by {
                if i < n {
                    assert(is_valid_entry(old_entries[i]));
                }
            }
        }
        true
    }

    /// The address of the free-space method table.
    pub fn free_mt(&self) -> (r: usize)
        ensures
            r == self.spec_free_mt(),
    {
        self.free_mt
    }

    /// The index of the entry at `addr`, if there is one.
    fn find(&self, addr: usize) -> (r: Option<usize>)
        requires
            self.wf(),
        ensures
            r matches Some(i) ==> i < self.entries@.len() && self.entries@[i as int].address == addr,
            r is None ==> forall|i: int| 0 <= i < self.entries@.len() ==> self.entries@[i].address != addr,
    {
        let mut i: usize = 0;
        while i < self.entries.len()
            invariant
                i <= self.entries@.len(),
                forall|j: int| 0 <= j < i ==> self.entries@[j].address != addr,
            decreases self.entries@.len() - i,
        {
            if self.entries[i].address == addr {
                return Some(i);
            }
            i = i + 1;
        }
        None
    }

    /// The method table at `addr`, if a type is registered there.
    pub fn method_table(&self, addr: usize) -> (r: Option<MethodTable>)
        requires
            self.wf(),
        ensures
            r is Some <==> self.has_type(addr),
            r matches Some(mt) ==> mt == self.mt_of(addr),
    {
        if addr == self.free_mt {
            return Some(self.free_table);
        }
        match self.find(addr) {
            Some(i) => {
                assert(self.entry_index(addr) == i) by {
                    let k = self.entry_index(addr);
                    assert(0 <= k < self.entries@.len() && self.entries@[k].address == addr);
                    if k != i {
                        if k < i {
                            assert(self.entries@[k].address != self.entries@[i as int].address);
                        } else {
                            assert(self.entries@[i as int].address != self.entries@[k].address);
                        }
                    }
                }
                Some(self.entries[i].method_table)
            },
            None => None,
        }
    }

    /// The GC descriptor at `addr`, if a type other than the free-space type
    /// is registered there.
    pub fn gc_desc(&self, addr: usize) -> (r: Option<&GcDesc>)
        requires
            self.wf(),
        ensures
            r is Some <==> self.has_type(addr) && addr != self.spec_free_mt(),
            r matches Some(d) ==> *d == self.desc_of(addr),
    {
        if addr == self.free_mt {
            return None;
        }
        match self.find(addr) {
            Some(i) => {
                assert(self.entry_index(addr) == i) by {
                    let k = self.entry_index(addr);
                    assert(0 <= k < self.entries@.len() && self.entries@[k].address == addr);
                    if k != i {
                        if k < i {
                            assert(self.entries@[k].address != self.entries@[i as int].address);
                        } else {
                            assert(self.entries@[i as int].address != self.entries@[k].address);
                        }
                    }
                }
                Some(&self.entries[i].gc_desc)
            },
            None => None,
        }
    }
}

} // verus!
