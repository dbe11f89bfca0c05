use ipcow::ping::{elapsed_nanos, HostAddr, HostEvent, HostState, HostTracker, PingScan, ScanAction};

const SEC: i128 = 1_000_000_000;

#[test]
fn first_sighting_alive_has_no_event() {
    let mut t = HostTracker::new();
    let h = HostAddr::V4(0x7F00_0001);
    assert_eq!(t.update_host_status(h, true, 10 * SEC), None);
    let s = t.get_host_status(h).unwrap();
    assert_eq!(s.current_state, HostState::Alive);
    assert_eq!(s.last_alive, 10 * SEC);
    assert_eq!(s.last_down, None);
    assert_eq!(s.total_downtime, 0);
}

#[test]
fn first_sighting_dead_goes_down() {
    let mut t = HostTracker::new();
    let h = HostAddr::V4(1);
    assert_eq!(t.update_host_status(h, false, 5 * SEC), Some(HostEvent::Down));
    let s = t.get_host_status(h).unwrap();
    assert_eq!(s.current_state, HostState::Dead);
    assert_eq!(s.last_alive, 5 * SEC);
    assert_eq!(s.last_down, Some(5 * SEC));
}

#[test]
fn recovery_adds_downtime() {
    let mut t = HostTracker::new();
    let h = HostAddr::V6(1);
    t.update_host_status(h, false, 100 * SEC);
    assert_eq!(t.update_host_status(h, false, 130 * SEC), None);
    assert_eq!(t.update_host_status(h, true, 160 * SEC), Some(HostEvent::Recovered));
    let s = t.get_host_status(h).unwrap();
    assert_eq!(s.current_state, HostState::Alive);
    assert_eq!(s.last_alive, 160 * SEC);
    assert_eq!(s.last_down, Some(100 * SEC));
    assert_eq!(s.total_downtime, (60 * SEC) as u128);
    t.update_host_status(h, false, 200 * SEC);
    t.update_host_status(h, true, 205 * SEC);
    assert_eq!(t.get_host_status(h).unwrap().total_downtime, (65 * SEC) as u128);
}

#[test]
fn clock_going_back_adds_no_downtime() {
    let mut t = HostTracker::new();
    let h = HostAddr::V4(9);
    t.update_host_status(h, false, 100 * SEC);
    t.update_host_status(h, true, 50 * SEC);
    assert_eq!(t.get_host_status(h).unwrap().total_downtime, 0);
}

#[test]
fn hosts_are_tracked_separately() {
    let mut t = HostTracker::new();
    t.update_host_status(HostAddr::V4(1), false, 0);
    t.update_host_status(HostAddr::V6(1), true, 0);
    assert_eq!(t.get_host_status(HostAddr::V4(1)).unwrap().current_state, HostState::Dead);
    assert_eq!(t.get_host_status(HostAddr::V6(1)).unwrap().current_state, HostState::Alive);
    assert!(t.get_host_status(HostAddr::V4(2)).is_none());
    assert!(t.can_update(HostAddr::V4(1), true, 10));
}

/// Runs a scan against a fixed set of open (host, port) pairs and returns the
/// alive hosts and every probe made.
fn run(ips: Vec<HostAddr>, start: u16, end: u16, open: &[(HostAddr, u16)]) -> (Vec<HostAddr>, Vec<(HostAddr, u16)>) {
    let mut scan = PingScan::new(ips, start, end);
    let mut probes = Vec::new();
    let mut now = 0;
    loop {
        match scan.next_action() {
            ScanAction::Probe(h, p) => {
                probes.push((h, p));
                scan.record_probe(open.contains(&(h, p)));
            }
            ScanAction::Finish(_, _) => {
                now += SEC;
                assert!(scan.can_finish(now));
                scan.finish_host(now);
            }
            ScanAction::Done => break,
        }
    }
    (scan.alive_hosts(), probes)
}

#[test]
fn scan_stops_at_first_open_port() {
    let a = HostAddr::V4(1);
    let b = HostAddr::V4(2);
    let (alive, probes) = run(vec![a, b], 79, 81, &[(a, 80), (a, 81)]);
    assert_eq!(alive, vec![a]);
    assert_eq!(probes, vec![(a, 79), (a, 80), (b, 79), (b, 80), (b, 81)]);
}

#[test]
fn scan_empty_range_finds_nothing() {
    let a = HostAddr::V4(1);
    let (alive, probes) = run(vec![a], 81, 79, &[(a, 80)]);
    assert!(alive.is_empty());
    assert!(probes.is_empty());
}

#[test]
fn scan_keeps_order_and_duplicates() {
    let a = HostAddr::V4(1);
    let b = HostAddr::V6(2);
    let (alive, _) = run(vec![b, a, b], 1, 1, &[(a, 1), (b, 1)]);
    assert_eq!(alive, vec![b, a, b]);
}

#[test]
fn scan_records_history() {
    let a = HostAddr::V4(1);
    let mut scan = PingScan::new(vec![a], 22, 22);
    assert_eq!(scan.next_action(), ScanAction::Probe(a, 22));
    scan.record_probe(false);
    assert_eq!(scan.next_action(), ScanAction::Finish(a, false));
    assert_eq!(scan.finish_host(7), Some(HostEvent::Down));
    assert_eq!(scan.next_action(), ScanAction::Done);
    let s = scan.tracker().get_host_status(a).unwrap();
    assert_eq!(s.last_down, Some(7));
}

#[test]
fn downtime_across_centuries() {
    // From 1900 to 2300, both outside what 64-bit nanoseconds reach.
    let year = 365 * 24 * 3600 * SEC;
    let mut t = HostTracker::new();
    let h = HostAddr::V4(7);
    t.update_host_status(h, false, -70 * year);
    t.update_host_status(h, true, 330 * year);
    assert_eq!(t.get_host_status(h).unwrap().total_downtime, (400 * year) as u128);
}

#[test]
fn elapsed_time_at_the_extremes() {
    assert_eq!(elapsed_nanos(i128::MIN, i128::MAX), u128::MAX);
    assert_eq!(elapsed_nanos(-5, 7), 12);
    assert_eq!(elapsed_nanos(-9, -2), 7);
    assert_eq!(elapsed_nanos(3, 3), 0);
    assert_eq!(elapsed_nanos(4, 3), 0);
}
