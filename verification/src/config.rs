//! The settings of the proxy.

use crate::name::{bytes_equal, DomainName};
use crate::network::{Address, IpAddress, LOOPBACK, UNSPECIFIED};
use vstd::prelude::*;
use vstd::string::StringSliceAdditionalSpecFns;

verus! {

/// The port of the name service.
pub const DNS_PORT: u16 = 53;

/// The port of the name service when debugging.
pub const DNS_DEBUG_PORT: u16 = 5553;

/// The port of the administrative interface.
pub const WEB_PORT: u16 = 80;

/// The port of the administrative interface when debugging.
pub const WEB_DEBUG_PORT: u16 = 8080;

/// The largest datagram that is received or sent.
pub const MAX_UDP_PAYLOAD: usize = 512;

/// How the proxy is run.
#[derive(Clone, Copy, Debug, PartialEq, Eq, Structural)]
pub enum RunMode {
    /// For this host only.
    Normal,
    /// For every host that can reach this one.
    External,
    /// For this host only, on ports that need no privilege.
    Debug,
}

/// The settings.
#[derive(Clone, Debug, PartialEq, Eq)]
pub struct Config {
    pub debug: bool,
    pub external: bool,
    pub verbosity: u8,
    /// The names blocked from the start.
    pub blocked_domains: Vec<DomainName>,
    /// The names allowed, those added while running among them.
    pub allowed_domains: Vec<DomainName>,
    /// The upstream resolvers, in the order in which they are tried.
    pub upstreams: Vec<Address>,
    /// How long to wait for an upstream resolver, in milliseconds.
    pub timeout: u64,
    /// The token that the administrative interface asks for.
    pub token: String,
}

/// The mode for the two switches: debugging goes before serving other
/// hosts.
pub open spec fn mode_of(debug: bool, external: bool) -> RunMode {
    if debug {
        RunMode::Debug
    } else if external {
        RunMode::External
    } else {
        RunMode::Normal
    }
}

/// The address that the name service is bound to.
pub open spec fn dns_address_of(mode: RunMode) -> Address {
    match mode {
        RunMode::Debug => Address { ip: IpAddress::V4(LOOPBACK), port: DNS_DEBUG_PORT },
        RunMode::External => Address { ip: IpAddress::V4(UNSPECIFIED), port: DNS_PORT },
        RunMode::Normal => Address { ip: IpAddress::V4(LOOPBACK), port: DNS_PORT },
    }
}

/// The address that the administrative interface is bound to.
pub open spec fn web_address_of(mode: RunMode) -> Address {
    match mode {
        RunMode::Debug => Address { ip: IpAddress::V4(LOOPBACK), port: WEB_DEBUG_PORT },
        RunMode::External => Address { ip: IpAddress::V4(UNSPECIFIED), port: WEB_PORT },
        RunMode::Normal => Address { ip: IpAddress::V4(LOOPBACK), port: WEB_PORT },
    }
}

impl Config {
    /// How the proxy is run.
    pub fn run_mode(&self) -> (mode: RunMode)
        ensures
            mode == mode_of(self.debug, self.external),
    {
        if self.debug {
            RunMode::Debug
        } else if self.external {
            RunMode::External
        } else {
            RunMode::Normal
        }
    }

    /// The address that the name service is bound to.
    pub fn dns_address(&self) -> (address: Address)
        ensures
            address == dns_address_of(mode_of(self.debug, self.external)),
    {
        match self.run_mode() {
            RunMode::Debug => Address { ip: IpAddress::V4(LOOPBACK), port: DNS_DEBUG_PORT },
            RunMode::External => Address { ip: IpAddress::V4(UNSPECIFIED), port: DNS_PORT },
            RunMode::Normal => Address { ip: IpAddress::V4(LOOPBACK), port: DNS_PORT },
        }
    }

    /// The address that the administrative interface is bound to.
    pub fn web_address(&self) -> (address: Address)
        ensures
            address == web_address_of(mode_of(self.debug, self.external)),
    {
        match self.run_mode() {
            RunMode::Debug => Address { ip: IpAddress::V4(LOOPBACK), port: WEB_DEBUG_PORT },
            RunMode::External => Address { ip: IpAddress::V4(UNSPECIFIED), port: WEB_PORT },
            RunMode::Normal => Address { ip: IpAddress::V4(LOOPBACK), port: WEB_PORT },
        }
    }

    /// Whether `presented` is the token of the administrative interface.
    pub fn token_matches(&self, presented: &str) -> (matches: bool)
        ensures
            matches == (presented@ == self.token@),
    {
        proof {
            vstd::utf8::encode_utf8_decode_utf8(presented@);
            vstd::utf8::encode_utf8_decode_utf8(self.token@);
        }
        bytes_equal(presented.as_bytes(), self.token.as_str().as_bytes())
    }
}

} // verus!
