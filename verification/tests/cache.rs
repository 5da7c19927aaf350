use dns_filter::cache::{
    age_records, least_ttl_of, seconds_between, ttl_after, Cache, CacheKey,
};
use dns_filter::message::Message;
use dns_filter::name::DomainName;
use dns_filter::question::{Question, CLASS_IN, TYPE_A, TYPE_AAAA};
use dns_filter::resource_record::{RData, ResourceRecord};

fn name(text: &str) -> DomainName {
    DomainName::from_text(text).unwrap()
}

fn key(text: &str) -> CacheKey {
    CacheKey { name: name(text), rtype: TYPE_A, class: CLASS_IN }
}

fn record(text: &str, ttl: u32, address: u32) -> ResourceRecord {
    ResourceRecord { name: name(text), rtype: TYPE_A, class: CLASS_IN, ttl, data: RData::A(address) }
}

#[test]
fn time_to_live_runs_down() {
    assert_eq!(seconds_between(1_000, 1_999), 0);
    assert_eq!(seconds_between(1_000, 2_000), 1);
    assert_eq!(seconds_between(1_000, 302_000), 301);
    assert_eq!(seconds_between(5_000, 1_000), 0);
    assert_eq!(ttl_after(300, 0), 300);
    assert_eq!(ttl_after(300, 299), 1);
    assert_eq!(ttl_after(300, 300), 0);
    assert_eq!(ttl_after(300, 301), 0);
    assert_eq!(ttl_after(0, 0), 0);
    assert_eq!(ttl_after(u32::MAX, u64::MAX), 0);
    let aged = age_records(&vec![record("a.b", 60, 1), record("a.b", 5, 2)], 10);
    assert_eq!(aged, vec![record("a.b", 50, 1), record("a.b", 0, 2)]);
    assert_eq!(least_ttl_of(&vec![record("a.b", 60, 1), record("a.b", 5, 2)]), 5);
    assert_eq!(least_ttl_of(&Vec::new()), u32::MAX);
}

#[test]
fn entry_expires_after_its_time_to_live() {
    let mut cache = Cache::with_capacity(4).unwrap();
    assert!(cache.put(key("example.com"), vec![record("example.com", 300, 7)], 300, 10_000));
    assert_eq!(cache.len(), 1);
    assert_eq!(cache.get(&key("example.com"), 10_000 + 301_000), None);
    assert_eq!(cache.len(), 0);
    assert_eq!(cache.misses(), 1);
    assert_eq!(cache.hits(), 0);
}

#[test]
fn entry_lives_until_the_last_second() {
    let mut cache = Cache::with_capacity(4).unwrap();
    cache.put(key("example.com"), vec![record("example.com", 300, 7)], 300, 10_000);
    assert_eq!(
        cache.get(&key("example.com"), 10_000 + 299_999),
        Some(vec![record("example.com", 1, 7)])
    );
    assert_eq!(cache.get(&key("example.com"), 10_000 + 300_000), None);
    assert_eq!(cache.len(), 0);
    assert_eq!((cache.hits(), cache.misses()), (1, 1));
}

#[test]
fn hit_returns_records_with_lowered_time_to_live() {
    let mut cache = Cache::new();
    cache.put(key("example.com"), vec![record("example.com", 60, 7), record("example.com", 90, 8)], 60, 0);
    assert_eq!(
        cache.get(&key("example.com"), 25_500),
        Some(vec![record("example.com", 35, 7), record("example.com", 65, 8)])
    );
    // the entry itself is not changed by being read
    assert_eq!(
        cache.get(&key("example.com"), 1_000),
        Some(vec![record("example.com", 59, 7), record("example.com", 89, 8)])
    );
    assert_eq!(cache.hits(), 2);
}

#[test]
fn time_to_live_of_zero_is_stored_and_expired_at_once() {
    let mut cache = Cache::with_capacity(4).unwrap();
    assert!(cache.put(key("example.com"), vec![record("example.com", 0, 7)], 0, 5_000));
    assert_eq!(cache.len(), 1);
    assert_eq!(cache.get(&key("example.com"), 5_000), None);
    assert_eq!(cache.len(), 0);
}

#[test]
fn missing_key_is_a_miss() {
    let mut cache = Cache::with_capacity(4).unwrap();
    cache.put(key("example.com"), vec![record("example.com", 60, 7)], 60, 0);
    assert_eq!(cache.get(&key("example.org"), 0), None);
    let other_type = CacheKey { name: name("example.com"), rtype: TYPE_AAAA, class: CLASS_IN };
    assert_eq!(cache.get(&other_type, 0), None);
    assert_eq!(cache.misses(), 2);
    assert_eq!(cache.len(), 1);
}

#[test]
fn full_cache_evicts_the_least_recently_used() {
    let mut cache = Cache::with_capacity(3).unwrap();
    for (i, text) in ["a.com", "b.com", "c.com", "d.com"].iter().enumerate() {
        cache.put(key(text), vec![record(text, 60, i as u32)], 60, 0);
    }
    assert_eq!(cache.len(), 3);
    assert_eq!(cache.get(&key("a.com"), 0), None);
    assert_eq!(cache.get(&key("b.com"), 0), Some(vec![record("b.com", 60, 1)]));
    assert_eq!(cache.get(&key("c.com"), 0), Some(vec![record("c.com", 60, 2)]));
    assert_eq!(cache.get(&key("d.com"), 0), Some(vec![record("d.com", 60, 3)]));
}

#[test]
fn reading_an_entry_keeps_it_from_eviction() {
    let mut cache = Cache::with_capacity(2).unwrap();
    cache.put(key("a.com"), vec![record("a.com", 60, 1)], 60, 0);
    cache.put(key("b.com"), vec![record("b.com", 60, 2)], 60, 0);
    assert!(cache.get(&key("a.com"), 0).is_some());
    cache.put(key("c.com"), vec![record("c.com", 60, 3)], 60, 0);
    assert!(cache.get(&key("b.com"), 0).is_none());
    assert!(cache.get(&key("a.com"), 0).is_some());
    assert!(cache.get(&key("c.com"), 0).is_some());
}

#[test]
fn putting_again_replaces_without_eviction() {
    let mut cache = Cache::with_capacity(2).unwrap();
    cache.put(key("a.com"), vec![record("a.com", 60, 1)], 60, 0);
    cache.put(key("b.com"), vec![record("b.com", 60, 2)], 60, 0);
    cache.put(key("a.com"), vec![record("a.com", 30, 9)], 30, 1_000);
    assert_eq!(cache.len(), 2);
    assert_eq!(cache.get(&key("a.com"), 2_000), Some(vec![record("a.com", 29, 9)]));
    assert!(cache.get(&key("b.com"), 0).is_some());
}

#[test]
fn capacity_must_be_in_range() {
    assert!(Cache::with_capacity(0).is_none());
    assert!(Cache::with_capacity(1).is_some());
    assert!(Cache::with_capacity(1_048_576).is_some());
    assert!(Cache::with_capacity(1_048_577).is_none());
}

#[test]
fn what_cannot_be_stored_is_not() {
    let mut cache = Cache::with_capacity(2).unwrap();
    let bad = ResourceRecord {
        name: name("a.com"),
        rtype: TYPE_A,
        class: CLASS_IN,
        ttl: 5,
        data: RData::Raw(vec![1]),
    };
    assert!(!cache.put(key("a.com"), vec![bad], 5, 0));
    assert_eq!(cache.len(), 0);
}

#[test]
fn only_successful_responses_are_cached() {
    let question = Question { name: name("example.com"), qtype: TYPE_A, qclass: CLASS_IN };
    let mut cache = Cache::with_capacity(2).unwrap();
    let failure = Message::reply(1, true, question.clone(), 2, vec![record("example.com", 60, 7)]);
    assert!(!cache.put_response(&question, &failure, 0));
    let empty = Message::reply(1, true, question.clone(), 0, Vec::new());
    assert!(!cache.put_response(&question, &empty, 0));
    assert_eq!(cache.len(), 0);
    let success = Message::reply(
        1,
        true,
        question.clone(),
        0,
        vec![record("example.com", 60, 7), record("example.com", 20, 8)],
    );
    assert!(cache.put_response(&question, &success, 0));
    // good for the least time to live among the answers
    assert!(cache.get(&CacheKey::for_question(&question), 19_999).is_some());
    assert!(cache.get(&CacheKey::for_question(&question), 20_000).is_none());
}

#[test]
fn snapshot_lists_what_has_not_expired() {
    let mut cache = Cache::with_capacity(4).unwrap();
    cache.put(key("old.com"), vec![record("old.com", 10, 1)], 10, 0);
    cache.put(key("new.com"), vec![record("new.com", 60, 2)], 60, 5_000);
    let lines = cache.snapshot(12_000);
    assert_eq!(lines.len(), 1);
    assert_eq!(lines[0].name, name("new.com"));
    assert_eq!(lines[0].rtype, TYPE_A);
    assert_eq!(lines[0].class, CLASS_IN);
    assert_eq!(lines[0].remaining_ttl, 53);
    assert_eq!(lines[0].records, vec![record("new.com", 60, 2)]);
    // the listing takes nothing out and counts nothing
    assert_eq!(cache.len(), 2);
    assert_eq!((cache.hits(), cache.misses()), (0, 0));
    let both = cache.snapshot(6_000);
    assert_eq!(both.len(), 2);
    assert_eq!(both[0].name, name("new.com"));
    assert_eq!(both[1].name, name("old.com"));
    assert_eq!(both[1].remaining_ttl, 4);
}
