use std::cell::{Cell, RefCell};

use fanalog::catalog::{collect_available_ports, Catalog, PortListing, Transport};
use fanalog::poll::{maintenance_due, pacing_after_pass, Pacing};
use fanalog::pool::{maintain_active_port_list, PortPool};
use fanalog::record::{format_report, make_report, push_decimal};
use fanalog::report::{AsyncLogReporter, ConfigError, ReportQueue, ReporterAction};
use fanalog::{MAINTENANCE_INTERVAL_MS, MINIMAL_PAUSE_MS, MIN_BAUD_RATE};

/// A simulated serial handle: each read hands out the next chunk.
struct FakePort {
    chunks: Vec<Vec<u8>>,
    reads: usize,
    id: usize,
}

fn fake() -> FakePort {
    FakePort { chunks: Vec::new(), reads: 0, id: 0 }
}

fn read_fake(p: &mut FakePort) -> Vec<u8> {
    p.reads += 1;
    if p.chunks.is_empty() { Vec::new() } else { p.chunks.remove(0) }
}

fn snapshot(names: &[&str]) -> Catalog {
    let listing: Vec<PortListing> = names
        .iter()
        .map(|n| PortListing {
            port_name: n.to_string(),
            transport: Transport::Usb { serial_number: None },
        })
        .collect();
    collect_available_ports(&listing)
}

fn pool_names<H>(pool: &PortPool<H>) -> Vec<String> {
    (0..pool.len()).map(|i| pool.port_at(i).0.clone()).collect()
}

fn drain(queue: &mut ReportQueue) -> Vec<String> {
    let mut out = Vec::new();
    while let Some(b) = queue.next_report() {
        out.push(b);
    }
    out
}

#[test]
fn end_to_end_single_device() {
    let listing = vec![PortListing {
        port_name: "portA".to_string(),
        transport: Transport::Usb { serial_number: Some("SN123".to_string()) },
    }];
    let catalog = collect_available_ports(&listing);
    let mut pool: PortPool<FakePort> = PortPool::new();
    let bauds = RefCell::new(Vec::new());
    let r = maintain_active_port_list(&catalog, &mut pool, |name: &String, baud: u32| {
        bauds.borrow_mut().push((name.clone(), baud));
        Some(fake())
    });
    assert_eq!(r.opened, vec![true]);
    assert_eq!(*bauds.borrow(), vec![("portA".to_string(), 115200)]);
    assert_eq!(MIN_BAUD_RATE, 115200);
    assert_eq!(pool_names(&pool), vec!["portA".to_string()]);
    assert_eq!(pool.port_at(0).1, "SN123");

    let mut queue = ReportQueue::new();
    let chunks = RefCell::new(vec![b"hello".to_vec()]);
    let reads = pool.read_pass(&mut queue, |_p: &mut FakePort| chunks.borrow_mut().remove(0), || 1_700_000_000_123u64);
    assert_eq!(reads.len(), 1);
    assert_eq!(reads[0].bytes, b"hello".to_vec());
    assert_eq!(queue.len(), 1);

    let reporter = AsyncLogReporter::new(Some("http://collector/logs".to_string())).ok().unwrap();
    match reporter.next_action(&mut queue) {
        ReporterAction::Post { url, body } => {
            assert_eq!(url, "http://collector/logs");
            assert_eq!(body, "SN123 1700000000123: hello");
            let rest = body.strip_prefix("SN123 ").unwrap();
            let (stamp, text) = rest.split_once(": ").unwrap();
            assert!(stamp.parse::<u64>().unwrap() > 0);
            assert_eq!(text, "hello");
        }
        ReporterAction::Idle => panic!("a record was pending"),
    }
    assert_eq!(queue.len(), 0);
}

#[test]
fn fallback_device_id_in_records() {
    let catalog = snapshot(&["portA"]);
    let mut pool: PortPool<FakePort> = PortPool::new();
    maintain_active_port_list(&catalog, &mut pool, |_n: &String, _b: u32| Some(fake()));
    assert_eq!(pool.port_at(0).1, "portA");
    let mut queue = ReportQueue::new();
    pool.read_pass(&mut queue, |_p: &mut FakePort| b"x".to_vec(), || 7u64);
    assert_eq!(drain(&mut queue), vec!["portA 7: x".to_string()]);
}

#[test]
fn pool_follows_each_snapshot() {
    let mut pool: PortPool<FakePort> = PortPool::new();
    let seq = [vec!["a", "b"], vec!["b", "c"], vec![], vec!["c", "a", "d"], vec!["d"]];
    for names in seq.iter() {
        let catalog = snapshot(names);
        let r = maintain_active_port_list(&catalog, &mut pool, |_n: &String, _b: u32| Some(fake()));
        assert!(r.opened.iter().all(|o| *o));
        let mut got = pool_names(&pool);
        got.sort();
        let mut want: Vec<String> = names.iter().map(|s| s.to_string()).collect();
        want.sort();
        assert_eq!(got, want);
        let mut dedup = got.clone();
        dedup.dedup();
        assert_eq!(dedup, got);
    }
}

#[test]
fn vanished_ports_are_released_and_named() {
    let mut pool: PortPool<FakePort> = PortPool::new();
    maintain_active_port_list(&snapshot(&["a", "b", "c"]), &mut pool, |_n: &String, _b: u32| Some(fake()));
    let r = maintain_active_port_list(&snapshot(&["b"]), &mut pool, |_n: &String, _b: u32| Some(fake()));
    assert_eq!(r.removed, vec!["a".to_string(), "c".to_string()]);
    assert!(r.attempted.is_empty());
    assert_eq!(pool_names(&pool), vec!["b".to_string()]);
}

#[test]
fn same_snapshot_twice_opens_nothing_more() {
    let opens = Cell::new(0usize);
    let opener = |_n: &String, _b: u32| {
        opens.set(opens.get() + 1);
        Some(fake())
    };
    let mut pool: PortPool<FakePort> = PortPool::new();
    let catalog = snapshot(&["a", "b"]);
    maintain_active_port_list(&catalog, &mut pool, &opener);
    assert_eq!(opens.get(), 2);
    let r = maintain_active_port_list(&catalog, &mut pool, &opener);
    assert_eq!(opens.get(), 2);
    assert!(r.attempted.is_empty());
    assert!(r.removed.is_empty());
}

#[test]
fn failed_open_is_retried_next_time() {
    let mut pool: PortPool<FakePort> = PortPool::new();
    let catalog = snapshot(&["busy", "ok"]);
    let r = maintain_active_port_list(&catalog, &mut pool, |n: &String, _b: u32| {
        if n == "busy" { None } else { Some(fake()) }
    });
    assert_eq!(r.opened, vec![false, true]);
    assert_eq!(pool_names(&pool), vec!["ok".to_string()]);
    let r = maintain_active_port_list(&catalog, &mut pool, |_n: &String, _b: u32| Some(fake()));
    let attempted: Vec<String> = r.attempted.iter().map(|e| e.port_name.clone()).collect();
    assert_eq!(attempted, vec!["busy".to_string()]);
    assert_eq!(pool_names(&pool), vec!["ok".to_string(), "busy".to_string()]);
}

#[test]
fn records_keep_read_order() {
    let mut pool: PortPool<FakePort> = PortPool::new();
    maintain_active_port_list(&snapshot(&["dev"]), &mut pool, |_n: &String, _b: u32| {
        Some(FakePort { chunks: vec![b"A".to_vec(), b"B".to_vec()], reads: 0, id: 0 })
    });
    let mut queue = ReportQueue::new();
    pool.read_pass(&mut queue, read_fake, || 10u64);
    pool.read_pass(&mut queue, read_fake, || 11u64);
    assert_eq!(drain(&mut queue), vec!["dev 10: A".to_string(), "dev 11: B".to_string()]);
}

#[test]
fn delivery_is_first_in_first_out() {
    let reporter = AsyncLogReporter::new(Some("http://c".to_string())).ok().unwrap();
    let mut queue = ReportQueue::new();
    for r in ["R1", "R2", "R3"] {
        queue.add_report(&r.to_string());
    }
    let mut posted = Vec::new();
    // every other post is taken to have failed; nothing is put back either way
    let mut failed = false;
    loop {
        match reporter.next_action(&mut queue) {
            ReporterAction::Post { body, .. } => {
                posted.push(body);
                failed = !failed;
            }
            ReporterAction::Idle => break,
        }
    }
    assert!(failed);
    assert_eq!(posted, vec!["R1".to_string(), "R2".to_string(), "R3".to_string()]);
    assert_eq!(queue.len(), 0);
}

#[test]
fn failed_delivery_is_not_requeued() {
    let reporter = AsyncLogReporter::new(Some("http://c".to_string())).ok().unwrap();
    let mut queue = ReportQueue::new();
    queue.add_report(&"R".to_string());
    queue.add_report(&"S".to_string());
    let first = reporter.next_action(&mut queue);
    assert!(matches!(first, ReporterAction::Post { ref body, .. } if body == "R"));
    assert_eq!(queue.len(), 1);
    let second = reporter.next_action(&mut queue);
    assert!(matches!(second, ReporterAction::Post { ref body, .. } if body == "S"));
    assert!(matches!(reporter.next_action(&mut queue), ReporterAction::Idle));
}

#[test]
fn pacing_policy() {
    let mut empty: PortPool<FakePort> = PortPool::new();
    let mut queue = ReportQueue::new();
    let calls = Cell::new(0usize);
    let reads = empty.read_pass(&mut queue, |_p: &mut FakePort| { calls.set(calls.get() + 1); Vec::new() }, || 1u64);
    assert_eq!(calls.get(), 0);
    assert_eq!(pacing_after_pass(&reads), Pacing::FullInterval);
    assert_eq!(Pacing::FullInterval.sleep_ms(), MAINTENANCE_INTERVAL_MS);
    assert_eq!(MAINTENANCE_INTERVAL_MS, 500);

    let mut pool: PortPool<FakePort> = PortPool::new();
    maintain_active_port_list(&snapshot(&["a", "b"]), &mut pool, |_n: &String, _b: u32| Some(fake()));
    let reads = pool.read_pass(&mut queue, read_fake, || 1u64);
    assert_eq!(reads.len(), 2);
    assert_eq!(pacing_after_pass(&reads), Pacing::MinimalPause);
    assert_eq!(Pacing::MinimalPause.sleep_ms(), MINIMAL_PAUSE_MS);
    assert_eq!(queue.len(), 0);

    let reads = pool.read_pass(&mut queue, |_p: &mut FakePort| b"z".to_vec(), || 1u64);
    assert_eq!(pacing_after_pass(&reads), Pacing::Immediate);
    assert_eq!(Pacing::Immediate.sleep_ms(), 0);
}

#[test]
fn maintenance_cadence() {
    assert!(maintenance_due(None, 0));
    assert!(!maintenance_due(Some(1000), 1499));
    assert!(maintenance_due(Some(1000), 1500));
    assert!(maintenance_due(Some(1000), 999));
}

#[test]
fn record_bodies() {
    let mut s = String::new();
    push_decimal(&mut s, 0);
    assert_eq!(s, "0");
    let mut s = "t=".to_string();
    push_decimal(&mut s, 18446744073709551615);
    assert_eq!(s, "t=18446744073709551615");
    assert_eq!(format_report(&"dev".to_string(), 1234, &"hi".to_string()), "dev 1234: hi");
    assert_eq!(make_report(&"dev".to_string(), 5, &[]), None);
    assert_eq!(make_report(&"dev".to_string(), 5, b"ok"), Some("dev 5: ok".to_string()));
    assert_eq!(
        make_report(&"d".to_string(), 9, &[b'a', 0xff, b'b']),
        Some("d 9: a\u{fffd}b".to_string())
    );
}

#[test]
fn endpoint_validation() {
    assert_eq!(AsyncLogReporter::new(None).err(), Some(ConfigError::Missing));
    assert_eq!(AsyncLogReporter::new(Some("abc".to_string())).err(), Some(ConfigError::TooShort));
    assert_eq!(AsyncLogReporter::new(Some(String::new())).err(), Some(ConfigError::TooShort));
    let r = AsyncLogReporter::new(Some("http".to_string())).ok().unwrap();
    assert_eq!(r.target_url(), "http");
}

#[test]
fn kept_ports_keep_their_handles() {
    let next = Cell::new(0usize);
    let opener = |_n: &String, _b: u32| {
        next.set(next.get() + 1);
        Some(FakePort { chunks: Vec::new(), reads: 0, id: next.get() })
    };
    let mut pool: PortPool<FakePort> = PortPool::new();
    maintain_active_port_list(&snapshot(&["a", "b"]), &mut pool, &opener);
    assert_eq!(pool.handle_at(0).id, 1);
    assert_eq!(pool.handle_at(1).id, 2);
    maintain_active_port_list(&snapshot(&["b", "c"]), &mut pool, &opener);
    assert_eq!(pool_names(&pool), vec!["b".to_string(), "c".to_string()]);
    assert_eq!(pool.handle_at(0).id, 2);
    assert_eq!(pool.handle_at(1).id, 3);
}

#[test]
fn invalid_bytes_are_replaced_in_records() {
    let mut pool: PortPool<FakePort> = PortPool::new();
    let listing = vec![PortListing {
        port_name: "portA".to_string(),
        transport: Transport::Usb { serial_number: Some("SN123".to_string()) },
    }];
    maintain_active_port_list(&collect_available_ports(&listing), &mut pool, |_n: &String, _b: u32| Some(fake()));
    let mut queue = ReportQueue::new();
    pool.read_pass(&mut queue, |_p: &mut FakePort| vec![0x68, 0xff], || 42u64);
    assert_eq!(drain(&mut queue), vec!["SN123 42: h\u{fffd}".to_string()]);
}
