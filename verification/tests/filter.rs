use dns_filter::config::Config;
use dns_filter::filter::Filter;
use dns_filter::name::DomainName;
use dns_filter::tree::DomainFilterTree;

fn name(text: &str) -> DomainName {
    DomainName::from_text(text).unwrap()
}

#[test]
fn blocking_a_name_blocks_what_is_under_it() {
    let mut tree = DomainFilterTree::new();
    tree.insert_blocked(&name("ads.example.com"));
    assert!(tree.is_blocked(&name("ads.example.com")));
    assert!(tree.is_blocked(&name("tracker.ads.example.com")));
    assert!(tree.is_blocked(&name("a.b.tracker.ads.example.com")));
    assert!(!tree.is_blocked(&name("example.com")));
    assert!(!tree.is_blocked(&name("com")));
    assert!(!tree.is_blocked(&name("")));
    assert!(!tree.is_blocked(&name("ads.example.org")));
    assert!(!tree.is_blocked(&name("xads.example.com")));
}

#[test]
fn allowing_a_name_carves_out_what_is_under_it() {
    let mut tree = DomainFilterTree::new();
    tree.insert_blocked(&name("ads.example.com"));
    tree.insert_allowed(&name("good.ads.example.com"));
    assert!(!tree.is_blocked(&name("good.ads.example.com")));
    assert!(!tree.is_blocked(&name("cdn.good.ads.example.com")));
    assert!(tree.is_blocked(&name("bad.ads.example.com")));
    assert!(tree.is_blocked(&name("ads.example.com")));
    assert!(tree.is_blocked(&name("tracker.ads.example.com")));
}

#[test]
fn the_more_specific_entry_wins() {
    let mut tree = DomainFilterTree::new();
    tree.insert_allowed(&name("example.com"));
    tree.insert_blocked(&name("ads.example.com"));
    tree.insert_allowed(&name("ok.ads.example.com"));
    tree.insert_blocked(&name("no.ok.ads.example.com"));
    assert!(!tree.is_blocked(&name("example.com")));
    assert!(!tree.is_blocked(&name("www.example.com")));
    assert!(tree.is_blocked(&name("ads.example.com")));
    assert!(tree.is_blocked(&name("x.ads.example.com")));
    assert!(!tree.is_blocked(&name("ok.ads.example.com")));
    assert!(tree.is_blocked(&name("no.ok.ads.example.com")));
    assert!(tree.is_blocked(&name("deep.no.ok.ads.example.com")));
}

#[test]
fn allowed_wins_over_blocked_for_the_same_name() {
    let mut tree = DomainFilterTree::new();
    tree.insert_blocked(&name("example.com"));
    tree.insert_allowed(&name("example.com"));
    assert!(!tree.is_blocked(&name("example.com")));
    assert!(!tree.is_blocked(&name("www.example.com")));
}

#[test]
fn blocking_the_root_blocks_everything() {
    let mut tree = DomainFilterTree::new();
    tree.insert_blocked(&DomainName::root());
    assert!(tree.is_blocked(&name("example.com")));
    assert!(tree.is_blocked(&DomainName::root()));
    tree.insert_allowed(&name("example.com"));
    assert!(!tree.is_blocked(&name("www.example.com")));
    assert!(tree.is_blocked(&name("example.org")));
}

#[test]
fn names_are_told_apart_by_every_label() {
    let mut tree = DomainFilterTree::new();
    tree.insert_blocked(&name("a.example.com"));
    tree.insert_blocked(&name("b.example.com"));
    tree.insert_allowed(&name("A.Example.Com"));
    assert!(!tree.is_blocked(&name("a.example.com")));
    assert!(tree.is_blocked(&name("b.example.com")));
    assert!(!tree.is_blocked(&name("c.example.com")));
    assert!(!tree.is_blocked(&name("b.example.org")));
    assert!(!tree.is_blocked(&name("b.example")));
}

#[test]
fn filter_counts_checks_and_entries() {
    let mut filter = Filter::new();
    filter.add_blocked(&name("ads.example.com"));
    filter.add_blocked(&name("tracker.net"));
    filter.add_allowed(&name("good.ads.example.com"));
    assert!(filter.check(&name("x.ads.example.com")));
    assert!(!filter.check(&name("good.ads.example.com")));
    assert!(!filter.check(&name("example.com")));
    assert!(filter.is_blocked(&name("tracker.net")));
    let statistics = filter.statistics();
    assert_eq!(statistics.blocked_entries, 2);
    assert_eq!(statistics.allowed_entries, 1);
    assert_eq!(statistics.checked, 3);
    assert_eq!(statistics.blocked, 1);
    assert_eq!(filter.allowed_domains(), &vec![name("good.ads.example.com")]);
}

#[test]
fn filter_from_config_enters_both_lists() {
    let config = Config {
        debug: false,
        external: false,
        verbosity: 0,
        blocked_domains: vec![name("ads.example.com"), name("tracker.net")],
        allowed_domains: vec![name("good.ads.example.com")],
        upstreams: Vec::new(),
        timeout: 2000,
        token: String::new(),
    };
    let filter = Filter::from_config(&config);
    assert!(filter.is_blocked(&name("ads.example.com")));
    assert!(filter.is_blocked(&name("www.tracker.net")));
    assert!(!filter.is_blocked(&name("good.ads.example.com")));
    assert_eq!(filter.allowed_domains(), &config.allowed_domains);
    assert_eq!(filter.statistics().checked, 0);
}
