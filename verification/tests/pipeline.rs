use dns_filter::cache::{Cache, CacheKey};
use dns_filter::config::Config;
use dns_filter::filter::Filter;
use dns_filter::instrumentation::{Decision, InstrumentationLog};
use dns_filter::listener::{on_datagram, ListenerAction};
use dns_filter::message::{Message, RCODE_REFUSED, RCODE_SERVER_FAILURE};
use dns_filter::name::DomainName;
use dns_filter::network::Address;
use dns_filter::question::{Question, CLASS_IN, TYPE_A};
use dns_filter::resolver_manager::{ForwardOutcome, ResolverManager, TimeoutOutcome};
use dns_filter::resource_record::{RData, ResourceRecord};
use dns_filter::responder::{respond, serialize};
use dns_filter::web::AppState;

fn name(text: &str) -> DomainName {
    DomainName::from_text(text).unwrap()
}

fn client() -> Address {
    Address::v4(10, 0, 0, 5, 5000)
}

fn upstream() -> Address {
    Address::v4(1, 1, 1, 1, 53)
}

fn second_upstream() -> Address {
    Address::v4(8, 8, 8, 8, 53)
}

fn question() -> Question {
    Question { name: name("example.com"), qtype: TYPE_A, qclass: CLASS_IN }
}

fn query_bytes(id: u16, text: &str) -> Vec<u8> {
    let query = Message::query(
        id,
        Question { name: name(text), qtype: TYPE_A, qclass: CLASS_IN },
    );
    query.encode().unwrap()
}

fn answer(ttl: u32) -> ResourceRecord {
    ResourceRecord {
        name: name("example.com"),
        rtype: TYPE_A,
        class: CLASS_IN,
        ttl,
        data: RData::A(0x5DB8_D822),
    }
}

fn response_bytes(id: u16, rcode: u8, answers: Vec<ResourceRecord>) -> Vec<u8> {
    Message::reply(id, true, question(), rcode, answers).encode().unwrap()
}

fn config(blocked: &[&str], allowed: &[&str], upstreams: Vec<Address>) -> Config {
    Config {
        debug: false,
        external: false,
        verbosity: 0,
        blocked_domains: blocked.iter().map(|text| name(text)).collect(),
        allowed_domains: allowed.iter().map(|text| name(text)).collect(),
        upstreams,
        timeout: 2000,
        token: String::from("secret"),
    }
}

fn state(blocked: &[&str], allowed: &[&str]) -> AppState {
    let config = config(blocked, allowed, vec![upstream()]);
    let filter = Filter::from_config(&config);
    AppState::new(config, filter, Cache::with_capacity(8).unwrap(), InstrumentationLog::with_capacity(4))
}

#[test]
fn query_is_forwarded_answered_and_then_served_from_the_cache() {
    let mut state = state(&["ads.example.com"], &[]);
    let mut resolver = ResolverManager::new(vec![upstream()], 16, 0x4000);

    let action = state.on_datagram(&mut resolver, &query_bytes(0x1234, "example.com"), client(), 1_000);
    let (to, sent) = match action {
        ListenerAction::Forward { upstream, message } => (upstream, message),
        other => panic!("expected a forward, got {:?}", other),
    };
    assert_eq!(to, upstream());
    assert_eq!(sent.id, 0x4000);
    assert_ne!(sent.id, 0x1234);
    assert_eq!(sent.questions, vec![question()]);
    assert!(!sent.flags.response);
    assert!(sent.flags.recursion_desired);
    assert_eq!(resolver.pending_count(), 1);
    assert!(state.instrumentation_snapshot().is_empty());

    let reply = response_bytes(sent.id, 0, vec![answer(60)]);
    let answered = state.on_upstream_response(&mut resolver, &reply, upstream(), 1_040).unwrap();
    assert_eq!(answered.upstream_id, sent.id);
    let delivery = answered.delivery;
    assert_eq!(delivery.client, client());
    assert_eq!(delivery.message.id, 0x1234);
    assert_eq!(delivery.message.answers, vec![answer(60)]);
    assert_eq!(delivery.event.decision, Decision::Forwarded);
    assert_eq!(delivery.event.latency, Some(40));
    assert_eq!(delivery.event.timestamp, 1_040);
    assert_eq!(delivery.event.client, client());
    assert_eq!(delivery.event.name, name("example.com"));
    assert_eq!(delivery.event.qtype, TYPE_A);
    assert_eq!(resolver.pending_count(), 0);

    let lines = state.cache_snapshot(1_040);
    assert_eq!(lines.len(), 1);
    assert_eq!((lines[0].name.clone(), lines[0].rtype, lines[0].class), (name("example.com"), TYPE_A, CLASS_IN));
    assert_eq!(lines[0].remaining_ttl, 60);

    let (destination, datagram) = state.respond(delivery).unwrap();
    assert_eq!(destination, client());
    let received = Message::decode(&datagram).unwrap();
    assert_eq!(received.id, 0x1234);
    assert!(received.flags.response);
    assert_eq!(received.answers, vec![answer(60)]);
    assert_eq!(state.instrumentation_snapshot().len(), 1);

    let again = state.on_datagram(&mut resolver, &query_bytes(0x1235, "Example.COM"), client(), 11_040);
    let delivery = match again {
        ListenerAction::Reply(delivery) => delivery,
        other => panic!("expected a reply, got {:?}", other),
    };
    assert_eq!(delivery.client, client());
    assert_eq!(delivery.message.id, 0x1235);
    assert!(delivery.message.flags.response);
    assert_eq!(delivery.message.flags.rcode, 0);
    assert_eq!(delivery.message.questions, vec![question()]);
    assert_eq!(delivery.message.answers, vec![answer(50)]);
    assert!(delivery.message.answers[0].ttl < 60);
    assert_eq!(delivery.event.decision, Decision::Cached);
    assert_eq!(delivery.event.latency, Some(0));
    assert_eq!(resolver.pending_count(), 0);
}

#[test]
fn timeout_gives_one_failure_and_frees_the_slot() {
    let mut resolver = ResolverManager::new(vec![upstream()], 16, 7);
    let outcome = resolver.forward(&question(), true, client(), 0x1234, 500);
    let id = match outcome {
        ForwardOutcome::Send { upstream: to, message } => {
            assert_eq!(to, upstream());
            message.id
        },
        other => panic!("expected a send, got {:?}", other),
    };
    assert_eq!(id, 7);
    assert_eq!(resolver.pending_count(), 1);
    let delivery = match resolver.on_timeout(id, 2_500) {
        TimeoutOutcome::Fail(delivery) => delivery,
        other => panic!("expected a failure, got {:?}", other),
    };
    assert_eq!(delivery.client, client());
    assert_eq!(delivery.message.id, 0x1234);
    assert_eq!(delivery.message.flags.rcode, RCODE_SERVER_FAILURE);
    assert!(delivery.message.flags.response);
    assert_eq!(delivery.message.questions, vec![question()]);
    assert!(delivery.message.answers.is_empty());
    assert_eq!(delivery.event.decision, Decision::Timeout);
    assert_eq!(delivery.event.latency, None);
    assert_eq!(delivery.event.timestamp, 2_500);
    assert_eq!(resolver.pending_count(), 0);
    assert_eq!(resolver.on_timeout(id, 2_600), TimeoutOutcome::Ignore);
    // a response that comes after the time ran out finds nothing
    let mut cache = Cache::with_capacity(2).unwrap();
    let late = response_bytes(id, 0, vec![answer(60)]);
    assert_eq!(resolver.on_upstream_response(&late, upstream(), 2_700, &mut cache), None);
    assert_eq!(cache.len(), 0);
}

#[test]
fn response_cancels_the_timeout() {
    let mut resolver = ResolverManager::new(vec![upstream()], 16, 7);
    let mut cache = Cache::with_capacity(2).unwrap();
    resolver.forward(&question(), true, client(), 1, 0);
    let reply = response_bytes(7, 0, vec![answer(60)]);
    assert!(resolver.on_upstream_response(&reply, upstream(), 10, &mut cache).is_some());
    assert_eq!(resolver.on_timeout(7, 2_000), TimeoutOutcome::Ignore);
}

#[test]
fn responses_from_elsewhere_are_passed_over() {
    let mut resolver = ResolverManager::new(vec![upstream()], 16, 7);
    let mut cache = Cache::with_capacity(2).unwrap();
    resolver.forward(&question(), true, client(), 1, 0);
    let reply = response_bytes(7, 0, vec![answer(60)]);
    let elsewhere = Address::v4(6, 6, 6, 6, 53);
    assert_eq!(resolver.on_upstream_response(&reply, elsewhere, 10, &mut cache), None);
    let other_port = Address::v4(1, 1, 1, 1, 5353);
    assert_eq!(resolver.on_upstream_response(&reply, other_port, 10, &mut cache), None);
    assert_eq!(resolver.pending_count(), 1);
    assert_eq!(cache.len(), 0);
    // the true response is still taken
    assert!(resolver.on_upstream_response(&reply, upstream(), 10, &mut cache).is_some());
    assert_eq!(cache.len(), 1);
}

#[test]
fn responses_with_unknown_ids_are_passed_over() {
    let mut resolver = ResolverManager::new(vec![upstream()], 16, 7);
    let mut cache = Cache::with_capacity(2).unwrap();
    resolver.forward(&question(), true, client(), 1, 0);
    let reply = response_bytes(8, 0, vec![answer(60)]);
    assert_eq!(resolver.on_upstream_response(&reply, upstream(), 10, &mut cache), None);
    assert_eq!(resolver.on_upstream_response(&[1, 2, 3], upstream(), 10, &mut cache), None);
    assert_eq!(resolver.pending_count(), 1);
    assert_eq!(cache.len(), 0);
}

#[test]
fn failed_responses_are_relayed_but_not_cached() {
    let mut resolver = ResolverManager::new(vec![upstream()], 16, 7);
    let mut cache = Cache::with_capacity(2).unwrap();
    resolver.forward(&question(), true, client(), 0x0101, 0);
    let reply = response_bytes(7, 3, Vec::new());
    let answered = resolver.on_upstream_response(&reply, upstream(), 10, &mut cache).unwrap();
    assert_eq!(answered.upstream_id, 7);
    let delivery = answered.delivery;
    assert_eq!(delivery.message.flags.rcode, 3);
    assert_eq!(delivery.message.id, 0x0101);
    assert_eq!(cache.len(), 0);
}

#[test]
fn timeout_moves_on_to_the_next_resolver() {
    let mut resolver = ResolverManager::new(vec![upstream(), second_upstream()], 16, 7);
    let mut cache = Cache::with_capacity(2).unwrap();
    resolver.forward(&question(), true, client(), 0x1234, 0);
    match resolver.on_timeout(7, 2_000) {
        TimeoutOutcome::Retry { upstream: to, message } => {
            assert_eq!(to, second_upstream());
            assert_eq!(message.id, 7);
            assert_eq!(message.questions, vec![question()]);
        },
        other => panic!("expected a retry, got {:?}", other),
    }
    assert_eq!(resolver.pending_count(), 1);
    // the first resolver is no longer the one that was asked
    let reply = response_bytes(7, 0, vec![answer(60)]);
    assert_eq!(resolver.on_upstream_response(&reply, upstream(), 2_100, &mut cache), None);
    match resolver.on_timeout(7, 4_000) {
        TimeoutOutcome::Fail(delivery) => {
            assert_eq!(delivery.message.id, 0x1234);
            assert_eq!(delivery.message.flags.rcode, RCODE_SERVER_FAILURE);
        },
        other => panic!("expected a failure, got {:?}", other),
    }
    assert_eq!(resolver.pending_count(), 0);
}

#[test]
fn ids_are_fresh_and_go_round() {
    let mut resolver = ResolverManager::new(vec![upstream()], 16, 0xFFFF);
    let mut ids = Vec::new();
    for i in 0..3 {
        match resolver.forward(&question(), true, client(), i, 0) {
            ForwardOutcome::Send { message, .. } => ids.push(message.id),
            other => panic!("expected a send, got {:?}", other),
        }
    }
    assert_eq!(ids, vec![0xFFFF, 0, 1]);
    // free 0, start the search again below the ids in use, and skip them
    assert!(matches!(resolver.on_timeout(0, 10), TimeoutOutcome::Fail(_)));
    let mut again = ResolverManager::new(vec![upstream()], 16, 5);
    for i in 0..2 {
        again.forward(&question(), true, client(), i, 0);
    }
    assert!(matches!(again.on_timeout(5, 10), TimeoutOutcome::Fail(_)));
    match again.forward(&question(), true, client(), 9, 0) {
        ForwardOutcome::Send { message, .. } => assert_eq!(message.id, 7),
        other => panic!("expected a send, got {:?}", other),
    }
}

#[test]
fn the_id_of_the_client_is_not_used_upstream() {
    let mut resolver = ResolverManager::new(vec![upstream()], 16, 0x1234);
    match resolver.forward(&question(), true, client(), 0x1234, 0) {
        ForwardOutcome::Send { message, .. } => assert_eq!(message.id, 0x1235),
        other => panic!("expected a send, got {:?}", other),
    }
    // the search goes on behind the id that was given
    match resolver.forward(&question(), true, client(), 0x1234, 0) {
        ForwardOutcome::Send { message, .. } => assert_eq!(message.id, 0x1236),
        other => panic!("expected a send, got {:?}", other),
    }
}

#[test]
fn too_many_waiting_queries_are_shed() {
    let mut resolver = ResolverManager::new(vec![upstream()], 2, 0);
    assert!(matches!(resolver.forward(&question(), true, client(), 1, 0), ForwardOutcome::Send { .. }));
    assert!(matches!(resolver.forward(&question(), true, client(), 2, 0), ForwardOutcome::Send { .. }));
    assert_eq!(resolver.forward(&question(), true, client(), 3, 0), ForwardOutcome::Shed);
    assert_eq!(resolver.pending_count(), 2);
    resolver.on_timeout(0, 5);
    assert!(matches!(resolver.forward(&question(), true, client(), 3, 0), ForwardOutcome::Send { .. }));
}

#[test]
fn without_a_resolver_the_query_fails_at_once() {
    let mut resolver = ResolverManager::new(Vec::new(), 2, 0);
    match resolver.forward(&question(), false, client(), 0x0BAD, 77) {
        ForwardOutcome::Fail(delivery) => {
            assert_eq!(delivery.client, client());
            assert_eq!(delivery.message.id, 0x0BAD);
            assert_eq!(delivery.message.flags.rcode, RCODE_SERVER_FAILURE);
            assert!(!delivery.message.flags.recursion_desired);
            assert_eq!(delivery.event.decision, Decision::Timeout);
        },
        other => panic!("expected a failure, got {:?}", other),
    }
    assert_eq!(resolver.pending_count(), 0);
}

#[test]
fn blocked_names_are_refused_and_never_forwarded() {
    let mut state = state(&["ads.example.com"], &["good.ads.example.com"]);
    let mut resolver = ResolverManager::new(vec![upstream()], 16, 0);
    let action = state.on_datagram(&mut resolver, &query_bytes(0x0042, "Tracker.Ads.Example.com"), client(), 9);
    let delivery = match action {
        ListenerAction::Reply(delivery) => delivery,
        other => panic!("expected a reply, got {:?}", other),
    };
    assert_eq!(delivery.client, client());
    assert_eq!(delivery.message.id, 0x0042);
    assert_eq!(delivery.message.flags.rcode, RCODE_REFUSED);
    assert!(delivery.message.flags.response);
    assert_eq!(delivery.message.questions[0].name, name("tracker.ads.example.com"));
    assert!(delivery.message.answers.is_empty());
    assert_eq!(delivery.event.decision, Decision::Blocked);
    assert_eq!(delivery.event.latency, None);
    assert_eq!(resolver.pending_count(), 0);
    assert_eq!(state.filter_statistics().checked, 1);
    assert_eq!(state.filter_statistics().blocked, 1);
    // the carved-out name goes upstream
    let action = state.on_datagram(&mut resolver, &query_bytes(0x0043, "good.ads.example.com"), client(), 9);
    assert!(matches!(action, ListenerAction::Forward { .. }));
    assert_eq!(state.filter_statistics().checked, 2);
    assert_eq!(state.filter_statistics().blocked, 1);
}

#[test]
fn malformed_datagrams_are_dropped_and_recorded() {
    let mut state = state(&[], &[]);
    let mut resolver = ResolverManager::new(vec![upstream()], 16, 0);
    let action = state.on_datagram(&mut resolver, &[0x12, 0x34, 0x01], client(), 5);
    match action {
        ListenerAction::Drop { event } => {
            assert_eq!(event.decision, Decision::Malformed);
            assert_eq!(event.client, client());
            assert_eq!(event.timestamp, 5);
        },
        other => panic!("expected a drop, got {:?}", other),
    }
    // a message without a question has nothing to answer
    let action = state.on_datagram(&mut resolver, &[0u8; 12], client(), 6);
    assert!(matches!(action, ListenerAction::Drop { .. }));
    let events = state.instrumentation_snapshot();
    assert_eq!(events.len(), 2);
    assert_eq!(events[0].timestamp, 5);
    assert_eq!(events[1].timestamp, 6);
    assert_eq!(resolver.pending_count(), 0);
    assert_eq!(state.filter_statistics().checked, 0);
}

#[test]
fn listener_works_on_the_parts_as_well() {
    let mut filter = Filter::new();
    filter.add_blocked(&name("ads.example.com"));
    let mut cache = Cache::with_capacity(2).unwrap();
    cache.put(CacheKey::for_question(&question()), vec![answer(60)], 60, 0);
    let mut resolver = ResolverManager::new(vec![upstream()], 1, 0);
    let hit = on_datagram(&query_bytes(1, "example.com"), client(), 1_000, &mut filter, &mut cache, &mut resolver);
    match hit {
        ListenerAction::Reply(delivery) => assert_eq!(delivery.message.answers, vec![answer(59)]),
        other => panic!("expected a reply, got {:?}", other),
    }
    let miss = on_datagram(&query_bytes(2, "example.org"), client(), 1_000, &mut filter, &mut cache, &mut resolver);
    assert!(matches!(miss, ListenerAction::Forward { .. }));
    let shed = on_datagram(&query_bytes(3, "example.net"), client(), 1_000, &mut filter, &mut cache, &mut resolver);
    assert_eq!(shed, ListenerAction::Shed);
    assert_eq!((cache.hits(), cache.misses()), (1, 2));
}

#[test]
fn responder_marks_every_message_as_a_response() {
    let query = Message::query(0x0777, question());
    assert!(!query.flags.response);
    let datagram = serialize(query).unwrap();
    let sent = Message::decode(&datagram).unwrap();
    assert!(sent.flags.response);
    assert_eq!(sent.id, 0x0777);
    assert_eq!(datagram[2] & 0x80, 0x80);
}

#[test]
fn responder_cuts_long_messages_down() {
    let answers: Vec<ResourceRecord> = (0..40).map(|_| answer(60)).collect();
    let long = Message::reply(9, true, question(), 0, answers);
    assert!(long.encode().unwrap().len() > 512);
    let datagram = serialize(long).unwrap();
    assert!(datagram.len() <= 512);
    let sent = Message::decode(&datagram).unwrap();
    assert!(sent.flags.truncated);
    assert!(sent.flags.response);
    assert_eq!(sent.questions, vec![question()]);
    assert!(sent.answers.is_empty());
    // 17 answers of 27 bytes and 29 bytes of header and question still fit
    let fits = Message::reply(9, true, question(), 0, (0..17).map(|_| answer(60)).collect());
    let datagram = serialize(fits).unwrap();
    assert_eq!(datagram.len(), 29 + 17 * 27);
    assert!(!Message::decode(&datagram).unwrap().flags.truncated);
}

#[test]
fn responder_sends_nothing_for_what_has_no_wire_form() {
    let mut broken = Message::query(1, question());
    broken.flags.opcode = 16;
    assert_eq!(serialize(broken), None);
}

#[test]
fn respond_records_the_event_and_gives_one_datagram() {
    let mut log = InstrumentationLog::with_capacity(2);
    let mut resolver = ResolverManager::new(vec![upstream()], 16, 7);
    resolver.forward(&question(), true, client(), 0x1234, 0);
    let delivery = match resolver.on_timeout(7, 2_000) {
        TimeoutOutcome::Fail(delivery) => delivery,
        other => panic!("expected a failure, got {:?}", other),
    };
    let event = delivery.event.clone();
    let (destination, datagram) = respond(&mut log, delivery).unwrap();
    assert_eq!(destination, client());
    assert_eq!(Message::decode(&datagram).unwrap().flags.rcode, RCODE_SERVER_FAILURE);
    assert_eq!(log.snapshot(), vec![event]);
}

#[test]
fn allowed_names_can_be_added_while_running() {
    let mut state = state(&["ads.example.com"], &[]);
    let mut resolver = ResolverManager::new(vec![upstream()], 16, 0);
    assert!(state.allowed_domains().is_empty());
    let blocked = state.on_datagram(&mut resolver, &query_bytes(1, "good.ads.example.com"), client(), 0);
    assert!(matches!(blocked, ListenerAction::Reply(_)));
    state.add_allowed_domain(name("good.ads.example.com"));
    assert_eq!(state.allowed_domains(), &vec![name("good.ads.example.com")]);
    assert_eq!(state.config.allowed_domains, vec![name("good.ads.example.com")]);
    assert_eq!(state.filter_statistics().allowed_entries, 1);
    let allowed = state.on_datagram(&mut resolver, &query_bytes(2, "good.ads.example.com"), client(), 0);
    assert!(matches!(allowed, ListenerAction::Forward { .. }));
}
