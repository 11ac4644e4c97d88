use clrgc::handle_manager::HandleManager;
use clrgc::handle_table::HandleTable;
use clrgc::interface::{
    log_level_from_name, LogLevel, ScanContext, SuspendReason, VersionInfo, WriteBarrierOp, WriteBarrierParameters,
};
use clrgc::objects::{GcHandle, HandleType};
use clrgc::segment::{Segment, POINTER_SIZE};
use clrgc::utils::IndexOfPtr;

#[test]
fn handle_table_hands_out_the_first_free_slot() {
    let mut t = HandleTable::new();
    assert!(!t.contains(1));
    let a = t.create_new().unwrap();
    let b = t.create_new().unwrap();
    let c = t.create_new().unwrap();
    assert_eq!((a, b, c), (1, 2, 3));
    assert!(t.contains(a) && t.contains(b) && t.contains(c));
    t.set(b, GcHandle { object: 0x40, extra_or_secondary: 5, handle_type: HandleType::Pinned });
    assert_eq!(t.get(b).object, 0x40);
    assert_eq!(t.get(b).handle_type, HandleType::Pinned);
    assert_eq!(t.remove(b), Ok(()));
    assert!(!t.contains(b));
    assert_eq!(t.get(b).object, 0);
    assert_eq!(t.used_handles(), vec![a, c]);
    assert_eq!(t.create_new(), Some(b));
    assert_eq!(t.remove(0), Err(()));
    assert_eq!(t.remove(5000), Err(()));
}

#[test]
fn handle_table_grows_by_segments_of_a_thousand() {
    let mut t = HandleTable::new();
    for i in 1..=1000usize {
        assert_eq!(t.create_new(), Some(i));
    }
    assert_eq!(t.create_new(), Some(1001));
    assert!(t.contains(1001));
    assert_eq!(t.remove(500), Ok(()));
    assert_eq!(t.create_new(), Some(500));
    assert_eq!(t.used_handles().len(), 1001);
}

#[test]
fn handle_manager_hands_out_slots_in_order() {
    let mut m = HandleManager::new();
    assert!(!m.contains_handle(1));
    let a = m.create_handle(0x10, 0, HandleType::Strong);
    let b = m.create_handle(0x20, 0x30, HandleType::Dependent);
    assert_eq!((a, b), (1, 2));
    assert!(m.contains_handle(2));
    assert!(!m.contains_handle(3));
    let d = m.duplicate_handle(b);
    assert_eq!(d, 3);
    let all = m.for_each_handle();
    assert_eq!(all.len(), 3);
    assert_eq!(all[2].object, 0x20);
    assert_eq!(all[2].extra_or_secondary, 0x30);
    m.destroy_handle(a);
    let all = m.for_each_handle();
    assert_eq!(all[0].object, 0);
    assert_eq!(all[0].handle_type, HandleType::Short);
    // A destroyed slot is not handed out again.
    assert_eq!(m.create_handle(0x50, 0, HandleType::Short), 4);
    let mut updated = m.for_each_handle();
    updated[1].object = 0x99;
    m.for_each_handle_mut(&updated);
    assert_eq!(m.for_each_handle()[1].object, 0x99);
}

#[test]
fn segment_word_index() {
    let seg = Segment::from_words(vec![0usize; POINTER_SIZE], 0x100000).unwrap();
    assert_eq!(seg.index_of(0x100000), Some(0));
    assert_eq!(seg.index_of(0x100010), Some(2));
    assert_eq!(seg.index_of(0x100011), None);
    assert_eq!(seg.index_of(0x0ffff8), None);
    assert_eq!(seg.index_of(0x100000 + 8 * POINTER_SIZE), None);
    assert_eq!(seg.get_index(0x100018), Ok(3));
    assert_eq!(seg.get_index(0x100019), Err(()));
}

#[test]
fn write_barrier_initialization_disables_the_card_table() {
    let args = WriteBarrierParameters::initialization();
    assert_eq!(args.operation, WriteBarrierOp::Initialize);
    assert!(args.is_runtime_suspended);
    assert_eq!(args.ephemeral_low, usize::MAX);
    assert_eq!(args.ephemeral_high, 0);
    assert_eq!(args.card_table, 0);
    assert!(!args.requires_upper_bounds_check);
    let d = WriteBarrierParameters::default();
    assert_eq!(d.operation, WriteBarrierOp::StompResize);
    assert_eq!(d.ephemeral_low, 0);
}

#[test]
fn interface_numbers() {
    assert_eq!(SuspendReason::GC.to_i32(), 1);
    assert_eq!(SuspendReason::GCPrep.to_i32(), 6);
    assert_eq!(WriteBarrierOp::StompResize.to_i32(), 0);
    assert_eq!(WriteBarrierOp::Initialize.to_i32(), 2);
    assert_eq!(WriteBarrierOp::SwitchToNonWriteWatch.to_i32(), 4);
    let sc = ScanContext::for_scan(true);
    assert!(sc.promotion);
    assert_eq!(sc.thread_number, 0);
    assert!(!ScanContext::for_scan(false).promotion);
    let v = VersionInfo::current();
    assert_eq!((v.MajorVersion, v.MinorVersion, v.BuildVersion), (5, 8, 0));
    assert_eq!(v.Name, "Rust GC");
}

#[test]
fn log_levels_by_name() {
    assert_eq!(log_level_from_name(None), LogLevel::Off);
    assert_eq!(log_level_from_name(Some("trace")), LogLevel::Trace);
    assert_eq!(log_level_from_name(Some("DEBUG")), LogLevel::Debug);
    assert_eq!(log_level_from_name(Some("Info")), LogLevel::Info);
    assert_eq!(log_level_from_name(Some("wArN")), LogLevel::Warn);
    assert_eq!(log_level_from_name(Some("error")), LogLevel::Error);
    assert_eq!(log_level_from_name(Some("verbose")), LogLevel::Off);
    assert_eq!(log_level_from_name(Some("")), LogLevel::Off);
    assert_eq!(log_level_from_name(Some("info ")), LogLevel::Off);
}

#[test]
fn the_first_handle_of_an_empty_table_is_one() {
    let mut t = HandleTable::new();
    assert_eq!(t.create_new(), Some(1));
    assert_eq!(t.create_new(), Some(2));
    assert_eq!(t.remove(1), Ok(()));
    assert_eq!(t.create_new(), Some(1));
}
