use dns_filter::config::{Config, RunMode, MAX_UDP_PAYLOAD};
use dns_filter::network::Address;

fn config(debug: bool, external: bool) -> Config {
    Config {
        debug,
        external,
        verbosity: 1,
        blocked_domains: Vec::new(),
        allowed_domains: Vec::new(),
        upstreams: Vec::new(),
        timeout: 2000,
        token: String::from("s3cret"),
    }
}

#[test]
fn addresses_follow_the_run_mode() {
    assert_eq!(config(false, false).run_mode(), RunMode::Normal);
    assert_eq!(config(false, true).run_mode(), RunMode::External);
    assert_eq!(config(true, false).run_mode(), RunMode::Debug);
    assert_eq!(config(true, true).run_mode(), RunMode::Debug);
    assert_eq!(config(false, false).dns_address(), Address::v4(127, 0, 0, 1, 53));
    assert_eq!(config(false, true).dns_address(), Address::v4(0, 0, 0, 0, 53));
    assert_eq!(config(true, true).dns_address(), Address::v4(127, 0, 0, 1, 5553));
    assert_eq!(config(false, false).web_address(), Address::v4(127, 0, 0, 1, 80));
    assert_eq!(config(false, true).web_address(), Address::v4(0, 0, 0, 0, 80));
    assert_eq!(config(true, false).web_address(), Address::v4(127, 0, 0, 1, 8080));
    assert_eq!(MAX_UDP_PAYLOAD, 512);
}

#[test]
fn token_must_match_exactly() {
    let config = config(false, false);
    assert!(config.token_matches("s3cret"));
    assert!(!config.token_matches("s3cre"));
    assert!(!config.token_matches("s3cret "));
    assert!(!config.token_matches("S3cret"));
    assert!(!config.token_matches(""));
}
