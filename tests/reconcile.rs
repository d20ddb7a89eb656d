use rallo::{
    count_in_capacity, reconcile, slot_in_capacity, Key, MissingField, AllocationLog, CapturedAllocation, DeallocationLog, FileContent,
    FrameInfo, FrameWrapper, RalloAllocator, ReconcileError, Stats,
};

fn frame(name: &str) -> FrameInfo {
    FrameInfo {
        filename: Some(format!("{}.rs", name)),
        colno: Some(1),
        lineno: Some(1),
        fn_address: Some(0),
        fn_name: Some(name.to_string()),
    }
}

fn captured(size: usize, address: usize, innermost_first: &[&str]) -> CapturedAllocation {
    CapturedAllocation {
        size,
        address,
        frames: innermost_first.iter().map(|n| frame(n)).collect(),
    }
}

#[test]
fn allocation_and_its_deallocation_share_one_record() {
    let allocs = vec![captured(1024, 0x1000, &["foo3", "foo2", "foo"])];
    let deallocs = vec![DeallocationLog { size: 1024, address: 0x1000 }];
    let stats = reconcile(allocs, &deallocs).unwrap();
    assert_eq!(stats.allocations.len(), 1);
    let r = &stats.allocations[0];
    assert_eq!(r.allocation_size, 1024);
    assert_eq!(r.deallocation_size, 1024);
    assert_eq!(r.address, 0x1000);
    let names: Vec<_> = r.stack.iter().map(|f| f.fn_name.clone().unwrap()).collect();
    assert_eq!(names, vec!["foo", "foo2", "foo3"]);

    let tree = stats.into_tree("/work/project").unwrap();
    assert_eq!(tree.nodes[0].allocation, 1024);
    assert_eq!(tree.nodes[0].deallocation, 1024);
    assert_eq!(tree.nodes[0].allocation_count, 1);
    assert_eq!(tree.nodes[0].deallocation_count, 1);
}

#[test]
fn records_come_most_recent_first() {
    let allocs = vec![
        captured(1, 0x10, &["a"]),
        captured(2, 0x20, &["b"]),
        captured(3, 0x30, &["c"]),
    ];
    let deallocs = vec![DeallocationLog { size: 2, address: 0x20 }];
    let stats = reconcile(allocs, &deallocs).unwrap();
    let sizes: Vec<_> = stats
        .allocations
        .iter()
        .map(|r| (r.allocation_size, r.deallocation_size))
        .collect();
    assert_eq!(sizes, vec![(3, 0), (2, 2), (1, 0)]);
}

#[test]
fn unmatched_deallocation_is_an_error() {
    let allocs = vec![captured(8, 0x10, &["a"])];
    let deallocs = vec![DeallocationLog { size: 8, address: 0x99 }];
    assert_eq!(reconcile(allocs, &deallocs).err(), Some(ReconcileError::DeallocationMismatch));
}

#[test]
fn repeated_deallocation_address_is_an_error() {
    let allocs = vec![captured(8, 0x10, &["a"]), captured(8, 0x10, &["b"])];
    let deallocs = vec![
        DeallocationLog { size: 8, address: 0x10 },
        DeallocationLog { size: 8, address: 0x10 },
    ];
    assert_eq!(reconcile(allocs, &deallocs).err(), Some(ReconcileError::DeallocationMismatch));
}

#[test]
fn empty_logs_reconcile_to_empty_stats() {
    let stats: Stats = reconcile(vec![], &vec![]).unwrap();
    assert!(stats.allocations.is_empty());
}

#[test]
fn slots_past_capacity_are_refused() {
    assert_eq!(slot_in_capacity(0, 2), Some(0));
    assert_eq!(slot_in_capacity(1, 2), Some(1));
    assert_eq!(slot_in_capacity(2, 2), None);
    assert_eq!(slot_in_capacity(usize::MAX, 2), None);
}

#[test]
fn claims_run_up_to_capacity_then_stop() {
    let state: RalloAllocator<4, 3> = RalloAllocator::new();
    assert_eq!(state.claim_allocation_slot(), Some(0));
    assert_eq!(state.claim_allocation_slot(), Some(1));
    assert_eq!(state.claim_allocation_slot(), Some(2));
    assert_eq!(state.claim_allocation_slot(), None);
    assert_eq!(state.allocation_log_count(), 3);
    assert_eq!(state.claim_deallocation_slot(), Some(0));
    assert_eq!(state.deallocation_log_count(), 1);
    let stats = state.calculate_stats(vec![], &vec![]).unwrap();
    assert!(stats.allocations.is_empty());
    assert_eq!(state.allocation_log_count(), 0);
    assert_eq!(state.deallocation_log_count(), 0);
    assert_eq!(state.claim_allocation_slot(), Some(0));
}

#[test]
fn tracking_flag_follows_start_and_stop() {
    let state: RalloAllocator<4, 3> = RalloAllocator::new();
    assert!(!state.is_tracking());
    state.start_track();
    assert!(state.is_tracking());
    state.stop_track();
    assert!(!state.is_tracking());
}

#[test]
fn frames_past_capacity_are_truncated() {
    let mut log: AllocationLog<2> = AllocationLog {
        size: 0,
        depth: 0,
        address: 0,
        frames: [FrameWrapper::new(); 2],
    };
    log.begin(64, 0xabc);
    assert!(log.push_frame(11));
    assert!(!log.push_frame(22));
    assert!(!log.push_frame(33));
    assert_eq!(log.depth, 2);
    assert_eq!(log.size, 64);
    assert_eq!(log.address, 0xabc);
    assert_eq!(log.frames[0].ip, Some(11));
    assert_eq!(log.frames[1].ip, Some(22));
}

#[test]
fn frame_wrapper_starts_empty() {
    assert_eq!(FrameWrapper::new().ip, None);
}

fn lines(n: usize) -> Vec<String> {
    (1..=n).map(|i| format!("line {}", i)).collect()
}

#[test]
fn context_holds_five_lines_each_side() {
    let c = FileContent::from_lines(&lines(20), 10).unwrap();
    assert_eq!(c.highlighted, "line 10");
    assert_eq!(c.before, vec!["line 5", "line 6", "line 7", "line 8", "line 9"]);
    assert_eq!(c.after, vec!["line 11", "line 12", "line 13", "line 14", "line 15"]);
}

#[test]
fn context_is_clamped_at_file_edges() {
    let c = FileContent::from_lines(&lines(4), 2).unwrap();
    assert_eq!(c.before, vec!["line 1"]);
    assert_eq!(c.highlighted, "line 2");
    assert_eq!(c.after, vec!["line 3", "line 4"]);
}

#[test]
fn context_of_missing_line_is_none() {
    assert_eq!(FileContent::from_lines(&lines(4), 0), None);
    assert_eq!(FileContent::from_lines(&lines(4), 5), None);
}

#[test]
fn filled_counts_are_capped_at_capacity() {
    assert_eq!(count_in_capacity(0, 3), 0);
    assert_eq!(count_in_capacity(2, 3), 2);
    assert_eq!(count_in_capacity(3, 3), 3);
    assert_eq!(count_in_capacity(7, 3), 3);
}

#[test]
fn frames_name_their_first_missing_field() {
    let full = frame("f");
    assert!(Key::from_frame(&full).is_ok());
    let mut f = full.clone();
    f.colno = None;
    f.fn_name = None;
    assert_eq!(Key::from_frame(&f).err(), Some(MissingField::Colno));
    let mut f = full.clone();
    f.lineno = None;
    assert_eq!(Key::from_frame(&f).err(), Some(MissingField::Lineno));
    let mut f = full.clone();
    f.fn_address = None;
    assert_eq!(Key::from_frame(&f).err(), Some(MissingField::FnAddress));
    let mut f = full.clone();
    f.fn_name = None;
    assert_eq!(Key::from_frame(&f).err(), Some(MissingField::FnName));
    let unknown = FrameInfo { filename: None, colno: None, lineno: None, fn_address: Some(9), fn_name: None };
    let k = Key::from_frame(&unknown).unwrap();
    assert_eq!(k.filename, "<unknown>");
    assert_eq!(k.fn_address, 0);
}
