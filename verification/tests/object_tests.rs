use clrgc::objects::{
    align_to_ptr, GcDesc, GcDescSeries, GcHandle, HandleType, MethodTable, Object, ValSeriesItem,
    BIT_SBLK_FINALIZER_RUN, HAS_COMPONENT_SIZE, HAS_FINALIZER, HAS_GC_POINTERS,
};

fn object(component_size: u16, flags_high: u16, base_size: u32, component_count: u32, header: u32) -> Object {
    Object { method_table: MethodTable { component_size, flags_high, base_size }, component_count, header }
}

#[test]
fn align_to_ptr_rounds_up_to_eight() {
    assert_eq!(align_to_ptr(0), 0);
    assert_eq!(align_to_ptr(1), 8);
    assert_eq!(align_to_ptr(7), 8);
    assert_eq!(align_to_ptr(8), 8);
    assert_eq!(align_to_ptr(9), 16);
    assert_eq!(align_to_ptr(24), 24);
    assert_eq!(align_to_ptr(26), 32);
}

#[test]
fn fixed_size_object_has_its_base_size() {
    let o = object(0, 0, 24, 77, 0);
    assert!(!o.has_component_size());
    assert_eq!(o.total_size(), 24);
    assert_eq!(o.total_size_aligned(), 24);
}

#[test]
fn variable_size_object_adds_its_elements() {
    // A string-like type: 2-byte elements, 22 bytes of base size.
    let s5 = object(2, HAS_COMPONENT_SIZE, 22, 5, 0);
    assert!(s5.has_component_size());
    assert_eq!(s5.total_size(), 32);
    assert_eq!(s5.total_size_aligned(), 32);
    let s6 = object(2, HAS_COMPONENT_SIZE, 22, 6, 0);
    assert_eq!(s6.total_size(), 34);
    assert_eq!(s6.total_size_aligned(), 40);
    let empty = object(2, HAS_COMPONENT_SIZE, 22, 0, 0);
    assert_eq!(empty.total_size_aligned(), 24);
}

#[test]
fn checked_total_size_refuses_overflow() {
    let huge = object(0xffff, HAS_COMPONENT_SIZE, 24, 0xffff_ffff, 0);
    assert_eq!(huge.checked_total_size(), None);
    let small = object(8, HAS_COMPONENT_SIZE, 24, 3, 0);
    assert_eq!(small.checked_total_size(), Some(48));
}

#[test]
fn finalization_needs_the_flag_and_no_run_bit() {
    let mut f = object(0, HAS_FINALIZER, 24, 0, 0x1234);
    assert!(f.is_finalizable());
    assert!(!f.get_finalizer_run());
    assert!(f.needs_finalization());
    f.set_finalizer_run(true);
    assert_eq!(f.header, 0x1234 | BIT_SBLK_FINALIZER_RUN);
    assert!(f.get_finalizer_run());
    assert!(!f.needs_finalization());
    f.set_finalizer_run(false);
    assert_eq!(f.header, 0x1234);
    assert!(f.needs_finalization());
    let plain = object(0, 0, 24, 0, 0);
    assert!(!plain.needs_finalization());
}

#[test]
fn series_descriptor_gives_fixed_fields() {
    // 40-byte object with two references at offsets 8 and 16.
    let o = object(0, HAS_GC_POINTERS, 40, 0, 0);
    let desc = GcDesc::Series(vec![GcDescSeries { size: 16 - 40, offset: 8 }]);
    assert_eq!(o.reference_offsets(&desc), Some(vec![8, 16]));
    // Without the flag, no references at all.
    let plain = object(0, 0, 40, 0, 0);
    assert_eq!(plain.reference_offsets(&desc), Some(vec![]));
}

#[test]
fn series_descriptor_grows_with_an_array() {
    // Reference array: 8-byte elements from offset 16, base size 24.
    let arr = object(8, HAS_COMPONENT_SIZE | HAS_GC_POINTERS, 24, 3, 0);
    let desc = GcDesc::Series(vec![GcDescSeries { size: -24, offset: 16 }]);
    assert_eq!(arr.reference_offsets(&desc), Some(vec![16, 24, 32]));
}

#[test]
fn repeating_descriptor_walks_each_element() {
    // Array of structs of 24 bytes: one reference, 8 bytes of data, one reference.
    let arr = object(24, HAS_COMPONENT_SIZE | HAS_GC_POINTERS, 24, 2, 0);
    let desc = GcDesc::Repeating {
        offset: 16,
        items: vec![ValSeriesItem { pointers: 1, skip: 8 }, ValSeriesItem { pointers: 1, skip: 0 }],
    };
    assert_eq!(arr.reference_offsets(&desc), Some(vec![16, 32, 40, 56]));
}

#[test]
fn handle_type_numbers() {
    assert_eq!(HandleType::Short.to_i32(), 0);
    assert_eq!(HandleType::ShortRecurrsion.to_i32(), 1);
    assert_eq!(HandleType::Strong.to_i32(), 2);
    assert_eq!(HandleType::Pinned.to_i32(), 3);
    assert_eq!(HandleType::Dependent.to_i32(), 6);
    assert_eq!(HandleType::from_i32(6), Some(HandleType::Dependent));
    assert_eq!(HandleType::from_i32(2), Some(HandleType::Strong));
    assert_eq!(HandleType::from_i32(4), None);
    assert_eq!(HandleType::default(), HandleType::Short);
}

#[test]
fn default_handle_is_empty() {
    let h = GcHandle::default();
    assert_eq!(h.object, 0);
    assert_eq!(h.extra_or_secondary, 0);
    assert_eq!(h.handle_type, HandleType::Short);
}

#[test]
fn method_table_from_its_first_word() {
    let w: u64 = (40u64 << 32) | (0x0100u64 << 16) | 2;
    let mt = MethodTable::from_raw(w);
    assert_eq!(mt.component_size, 2);
    assert_eq!(mt.flags_high, HAS_GC_POINTERS);
    assert_eq!(mt.base_size, 40);
}

#[test]
fn descriptor_length_from_its_count_word() {
    assert_eq!(GcDesc::words_needed(0), Some(1));
    assert_eq!(GcDesc::words_needed(3), Some(7));
    assert_eq!(GcDesc::words_needed((-1i64) as u64), Some(3));
    assert_eq!(GcDesc::words_needed((-2i64) as u64), Some(4));
    assert_eq!(GcDesc::words_needed(u64::MAX / 2), Some(usize::MAX));
    assert_eq!(GcDesc::words_needed(i64::MIN as u64), Some(0x8000_0000_0000_0002));
}

#[test]
fn series_descriptor_is_decoded_backwards() {
    let desc = GcDesc::decode(&vec![2, 8, 16, 24, 8]).unwrap();
    match desc {
        GcDesc::Series(v) => {
            assert_eq!(v.len(), 2);
            assert_eq!((v[0].size, v[0].offset), (16, 8));
            assert_eq!((v[1].size, v[1].offset), (8, 24));
        }
        _ => panic!("expected a series descriptor"),
    }
    match GcDesc::decode(&vec![0]).unwrap() {
        GcDesc::Series(v) => assert!(v.is_empty()),
        _ => panic!("expected a series descriptor"),
    }
}

#[test]
fn repeating_descriptor_is_decoded_backwards() {
    let item: u64 = (8u64 << 32) | 1;
    match GcDesc::decode(&vec![(-1i64) as u64, 16, item]).unwrap() {
        GcDesc::Repeating { offset, items } => {
            assert_eq!(offset, 16);
            assert_eq!(items.len(), 1);
            assert_eq!((items[0].pointers, items[0].skip), (1, 8));
        }
        _ => panic!("expected a repeating descriptor"),
    }
}

#[test]
fn short_descriptors_are_refused() {
    assert!(GcDesc::decode(&vec![]).is_none());
    assert!(GcDesc::decode(&vec![2, 8, 16]).is_none());
    assert!(GcDesc::decode(&vec![(-2i64) as u64, 16, 1]).is_none());
    // A negative element offset is refused rather than read as a huge one.
    assert!(GcDesc::decode(&vec![(-1i64) as u64, (-8i64) as u64, 1]).is_none());
}
