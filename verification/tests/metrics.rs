//! Traffic counters, per protocol and per class.

use std::sync::{Arc, Mutex};

use p2p::metrics::{TrafficClass, TransportCounters};

const CTRL: TrafficClass = TrafficClass::Control;
const DATA: TrafficClass = TrafficClass::Payload;

#[test]
fn accumulates_per_protocol_and_direction() {
    let mut counters = TransportCounters::new();
    counters.record_sent("docsync", CTRL, 100);
    counters.record_sent("docsync", CTRL, 50);
    counters.record_recv("docsync", CTRL, 7);
    counters.record_sent("car", DATA, 4096);

    let snapshot = counters.snapshot();
    let docsync = snapshot.get("docsync").unwrap();
    assert_eq!(docsync.bytes_sent, 150);
    assert_eq!(docsync.msgs_sent, 2);
    assert_eq!(docsync.bytes_recv, 7);
    assert_eq!(docsync.msgs_recv, 1);
    assert_eq!(snapshot.get("car").unwrap().bytes_sent, 4096);
}

#[test]
fn separates_control_from_payload() {
    let mut counters = TransportCounters::new();
    counters.record_sent("docsync", CTRL, 100);
    counters.record_recv("docsync-resp", CTRL, 200);
    counters.record_sent("car", DATA, 4096);
    counters.record_recv("car-resp", DATA, 8192);

    let snapshot = counters.snapshot();
    assert_eq!(snapshot.control_bytes_sent(), 100);
    assert_eq!(snapshot.control_bytes_recv(), 200);
    assert_eq!(snapshot.control_msgs(), 2);
    assert_eq!(snapshot.payload_bytes_sent(), 4096);
    assert_eq!(snapshot.payload_bytes_recv(), 8192);
}

#[test]
fn reset_clears_counts() {
    let mut counters = TransportCounters::new();
    counters.record_sent("docsync", CTRL, 100);
    counters.reset();

    let snapshot = counters.snapshot();
    assert!(snapshot.protocols.is_empty());
    assert_eq!(snapshot.control_bytes_sent(), 0);
}

#[test]
fn snapshot_is_detached_from_later_writes() {
    let mut counters = TransportCounters::new();
    counters.record_sent("docsync", CTRL, 100);
    let snapshot = counters.snapshot();
    counters.record_sent("docsync", CTRL, 900);

    assert_eq!(snapshot.control_bytes_sent(), 100);
    assert_eq!(counters.snapshot().control_bytes_sent(), 1000);
}

#[test]
fn counts_are_shared_across_clones_of_the_handle() {
    let counters = Arc::new(Mutex::new(TransportCounters::new()));
    let other = Arc::clone(&counters);
    counters.lock().unwrap().record_sent("docsync", CTRL, 10);
    other.lock().unwrap().record_sent("docsync", CTRL, 10);

    assert_eq!(counters.lock().unwrap().snapshot().control_bytes_sent(), 20);
}

#[test]
fn protocols_are_listed_once_in_byte_order() {
    let mut counters = TransportCounters::default();
    for name in ["pear", "apple", "é", "Zebra", "apple", "pea"] {
        counters.record_recv(name, CTRL, 1);
    }
    let snapshot = counters.snapshot();
    let names: Vec<&str> = snapshot
        .protocols
        .iter()
        .map(|entry| entry.0.as_str())
        .collect();
    assert_eq!(names, ["Zebra", "apple", "pea", "pear", "é"]);
    assert_eq!(snapshot.get("apple").unwrap().msgs_recv, 2);
    assert_eq!(snapshot.get("plum"), None);
}

#[test]
fn a_protocol_keeps_the_class_it_was_first_seen_with() {
    let mut counters = TransportCounters::new();
    counters.record_sent("car", DATA, 5);
    counters.record_sent("car", CTRL, 6);
    let snapshot = counters.snapshot();
    assert_eq!(snapshot.get("car").unwrap().class, DATA);
    assert_eq!(snapshot.payload_bytes_sent(), 11);
    assert_eq!(snapshot.control_bytes_sent(), 0);
}

#[test]
fn control_messages_count_both_directions() {
    let mut counters = TransportCounters::new();
    counters.record_sent("a", CTRL, 1);
    counters.record_recv("a", CTRL, 1);
    counters.record_recv("b", CTRL, 1);
    counters.record_recv("c", DATA, 1);
    assert_eq!(counters.snapshot().control_msgs(), 3);
}
