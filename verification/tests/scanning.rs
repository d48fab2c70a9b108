use mmtk::scanning::{TraceOutcome, VMScanning, WorkDispatch};

#[test]
fn process_edge_rewrites_slot_and_preserves_tag() {
    let mut bridge = VMScanning::new(16);
    let mut dispatch = WorkDispatch::new();
    let mut slot: usize = 0x1003;
    let outcome = bridge.process_edge(
        &mut slot,
        |addr: usize| TraceOutcome { addr: addr + 0x1000, is_new_discovery: true },
        &mut dispatch,
    );
    assert_eq!(outcome.addr, 0x2000);
    assert_eq!(slot, 0x2003);
}

#[test]
fn process_edge_without_move_leaves_slot_value() {
    let mut bridge = VMScanning::new(16);
    let mut dispatch = WorkDispatch::new();
    let mut slot: usize = 0x1002;
    bridge.process_edge(
        &mut slot,
        |addr: usize| TraceOutcome { addr, is_new_discovery: false },
        &mut dispatch,
    );
    assert_eq!(slot, 0x1002);
    bridge.flush(&mut dispatch);
    // Nothing was discovered, so nothing is submitted.
    assert!(dispatch.take_units().is_empty());
}

#[test]
fn buffer_flushes_the_moment_it_reaches_capacity() {
    let mut bridge = VMScanning::new(2);
    let mut dispatch = WorkDispatch::new();
    let identity = |addr: usize| TraceOutcome { addr, is_new_discovery: true };
    let mut s1: usize = 0x1000;
    let mut s2: usize = 0x2000;
    let mut s3: usize = 0x3000;
    bridge.process_edge(&mut s1, identity, &mut dispatch);
    bridge.process_edge(&mut s2, identity, &mut dispatch);
    bridge.process_edge(&mut s3, identity, &mut dispatch);
    bridge.flush(&mut dispatch);
    let units = dispatch.take_units();
    assert_eq!(units, vec![vec![0x1000, 0x2000], vec![0x3000]]);
}

#[test]
fn flush_of_empty_buffer_submits_nothing() {
    let mut bridge = VMScanning::new(4);
    let mut dispatch = WorkDispatch::new();
    bridge.flush(&mut dispatch);
    bridge.flush(&mut dispatch);
    assert!(dispatch.take_units().is_empty());
}

#[test]
fn scan_slots_traces_rewrites_and_flushes_remainder() {
    let mut bridge = VMScanning::new(8);
    let mut dispatch = WorkDispatch::new();
    // Three tagged edges; the collector moves every object up by 0x100.
    let mut slots: Vec<usize> = vec![0x1001, 0x2002, 0x3000];
    bridge.scan_slots(
        &mut slots,
        |addr: usize| TraceOutcome { addr: addr + 0x100, is_new_discovery: true },
        &mut dispatch,
    );
    assert_eq!(slots, vec![0x1101, 0x2102, 0x3100]);
    let units = dispatch.take_units();
    assert_eq!(units, vec![vec![0x1100, 0x2100, 0x3100]]);
}

#[test]
fn scan_slots_records_only_new_discoveries() {
    let mut bridge = VMScanning::new(8);
    let mut dispatch = WorkDispatch::new();
    let mut slots: Vec<usize> = vec![0x1000, 0x2000, 0x1000, 0x3000];
    bridge.scan_slots(
        &mut slots,
        |addr: usize| TraceOutcome { addr, is_new_discovery: addr != 0x1000 },
        &mut dispatch,
    );
    let units = dispatch.take_units();
    assert_eq!(units, vec![vec![0x2000, 0x3000]]);
}

#[test]
fn root_scan_of_five_thousand_edges_submits_exactly_two_disjoint_batches() {
    let mut bridge = VMScanning::new(4096);
    let mut dispatch = WorkDispatch::new();
    let mut slots: Vec<usize> = (0..5000).map(|i| 0x1_0000 + 4 * i).collect();
    bridge.scan_slots(
        &mut slots,
        |addr: usize| TraceOutcome { addr, is_new_discovery: true },
        &mut dispatch,
    );
    let units = dispatch.take_units();
    assert_eq!(units.len(), 2);
    assert_eq!(units[0].len(), 4096);
    assert_eq!(units[1].len(), 904);
    // No object appears in both batches.
    for addr in &units[1] {
        assert!(!units[0].contains(addr));
    }
}
