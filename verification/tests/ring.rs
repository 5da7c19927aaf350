use dns_filter::instrumentation::{Decision, Instrumentation, InstrumentationLog};
use dns_filter::name::DomainName;
use dns_filter::network::Address;
use dns_filter::question::{Question, CLASS_IN, TYPE_A};
use dns_filter::ring_buffer::RingBuffer;

fn contents(buffer: &RingBuffer<u32>) -> Vec<u32> {
    (0..buffer.len()).map(|i| *buffer.get(i)).collect()
}

#[test]
fn ring_keeps_the_most_recent_entries() {
    let mut buffer: RingBuffer<u32> = RingBuffer::new(3);
    assert!(buffer.is_empty());
    assert_eq!(buffer.capacity(), 3);
    for value in 1..=4 {
        buffer.push(value);
    }
    assert_eq!(buffer.len(), 3);
    assert_eq!(contents(&buffer), vec![2, 3, 4]);
}

#[test]
fn ring_below_capacity_keeps_everything_in_order() {
    let mut buffer: RingBuffer<u32> = RingBuffer::new(5);
    buffer.push(7);
    buffer.push(8);
    assert_eq!(contents(&buffer), vec![7, 8]);
    assert!(!buffer.is_empty());
}

#[test]
fn ring_goes_round_more_than_once() {
    let mut buffer: RingBuffer<u32> = RingBuffer::new(4);
    for value in 0..23 {
        buffer.push(value);
    }
    assert_eq!(contents(&buffer), vec![19, 20, 21, 22]);
    buffer.push(23);
    assert_eq!(contents(&buffer), vec![20, 21, 22, 23]);
}

#[test]
fn ring_of_capacity_one_keeps_the_last() {
    let mut buffer: RingBuffer<u32> = RingBuffer::new(1);
    buffer.push(1);
    buffer.push(2);
    assert_eq!(contents(&buffer), vec![2]);
}

#[test]
fn ring_without_capacity_keeps_nothing() {
    let mut buffer: RingBuffer<u32> = RingBuffer::new(0);
    buffer.push(1);
    assert_eq!(buffer.len(), 0);
    assert!(buffer.is_empty());
}

fn event(timestamp: u64, decision: Decision) -> Instrumentation {
    let question = Question {
        name: DomainName::from_text("example.com").unwrap(),
        qtype: TYPE_A,
        qclass: CLASS_IN,
    };
    Instrumentation::about(timestamp, Address::v4(10, 0, 0, 5, 5000), &question, decision, 12)
}

#[test]
fn events_carry_a_latency_where_they_should() {
    assert_eq!(event(1, Decision::Cached).latency, Some(12));
    assert_eq!(event(1, Decision::Forwarded).latency, Some(12));
    assert_eq!(event(1, Decision::Blocked).latency, None);
    assert_eq!(event(1, Decision::Timeout).latency, None);
    let malformed = Instrumentation::malformed(9, Address::v4(10, 0, 0, 5, 5000));
    assert_eq!(malformed.latency, None);
    assert_eq!(malformed.decision, Decision::Malformed);
    assert_eq!(malformed.timestamp, 9);
    assert_eq!(malformed.qtype, 0);
    assert_eq!(malformed.name.label_count(), 0);
    assert_eq!(event(3, Decision::Blocked).duplicate(), event(3, Decision::Blocked));
}

#[test]
fn log_snapshot_is_in_order_and_leaves_the_log_alone() {
    let mut log = InstrumentationLog::with_capacity(2);
    assert_eq!(log.capacity(), 2);
    log.record(event(1, Decision::Blocked));
    log.record(event(2, Decision::Cached));
    log.record(event(3, Decision::Forwarded));
    let first = log.snapshot();
    assert_eq!(first, vec![event(2, Decision::Cached), event(3, Decision::Forwarded)]);
    assert_eq!(log.snapshot(), first);
    assert_eq!(log.len(), 2);
    assert_eq!(InstrumentationLog::new().capacity(), 1024);
}

#[test]
fn address_from_octets() {
    let address = Address::v4(10, 0, 0, 5, 5000);
    assert_eq!(address.port, 5000);
    assert_eq!(address.ip, dns_filter::network::IpAddress::V4(0x0A00_0005));
    assert!(address.same_as(&Address::v4(10, 0, 0, 5, 5000)));
    assert!(!address.same_as(&Address::v4(10, 0, 0, 5, 5001)));
}
