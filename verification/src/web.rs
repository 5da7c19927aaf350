//! What the administrative interface sees of the proxy, and the state
//! that the stages of the pipeline share.

use crate::cache::{lines_view, listing, Cache, CacheLine, CacheView};
use crate::config::Config;
use crate::filter::{names_view, Filter, FilterView};
use crate::filter_statistics::{counted, FilterStatistics};
use crate::instrumentation::{
    events_view, Instrumentation, InstrumentationLog, InstrumentationView,
};
use crate::listener::{action_ok, handled, on_datagram, ListenerAction};
use crate::name::DomainName;
use crate::network::Address;
use crate::resolver_manager::{response_taken, Answered, Delivery, ResolverManager};
use crate::responder::{datagram_for, respond};
use crate::ring_buffer::keep_last;
use vstd::prelude::*;

verus! {

/// The state that is shared: the filter, the cache, the log and the
/// settings.
pub struct AppState {
    filter: Filter,
    cache: Cache,
    instrumentation_log: InstrumentationLog,
    pub config: Config,
}

impl AppState {
    /// Each part is in order.
    pub closed spec fn wf(&self) -> bool {
        self.filter.wf() && self.cache.wf() && self.instrumentation_log.wf()
    }

    /// What the filter holds.
    pub closed spec fn filter(&self) -> FilterView {
        self.filter@
    }

    /// What the cache holds.
    pub closed spec fn cache(&self) -> CacheView {
        self.cache@
    }

    /// The events of the log, oldest first.
    pub closed spec fn events(&self) -> Seq<InstrumentationView> {
        self.instrumentation_log@
    }

    /// The settings.
    pub closed spec fn settings(&self) -> Config {
        self.config
    }

    /// The number of events that the log keeps.
    pub closed spec fn log_capacity(&self) -> nat {
        self.instrumentation_log.spec_capacity()
    }

    /// The state made of its parts.
    pub fn new(
        config: Config,
        filter: Filter,
        cache: Cache,
        instrumentation_log: InstrumentationLog,
    ) -> (state: AppState)
        requires
            filter.wf(),
            cache.wf(),
            instrumentation_log.wf(),
        ensures
            state.wf(),
            state.filter() == filter@,
            state.cache() == cache@,
            state.events() == instrumentation_log@,
            state.log_capacity() == instrumentation_log.spec_capacity(),
            state.settings() == config,
    {
        AppState { filter, cache, instrumentation_log, config }
    }

    /// The listing of the cache at `now`.
    pub fn cache_snapshot(&self, now: u64) -> (lines: Vec<CacheLine>)
        requires
            self.wf(),
        ensures
            lines_view(lines@) == listing(self.cache().entries, now),
    {
        self.cache.snapshot(now)
    }

    /// The counters of the filter.
    pub fn filter_statistics(&self) -> (statistics: FilterStatistics)
        ensures
            statistics == self.filter().statistics,
    {
        self.filter.statistics()
    }

    /// A copy of the events of the log, oldest first.
    pub fn instrumentation_snapshot(&self) -> (events: Vec<Instrumentation>)
        requires
            self.wf(),
        ensures
            events_view(events@) == self.events(),
    {
        self.instrumentation_log.snapshot()
    }

    /// The allowed names of the settings.
    pub fn allowed_domains(&self) -> (names: &Vec<DomainName>)
        ensures
            names@ == self.settings().allowed_domains@,
    {
        &self.config.allowed_domains
    }

    /// Allows `name`: enters it in the settings and in the filter.
    pub fn add_allowed_domain(&mut self, name: DomainName)
        requires
            old(self).wf(),
        ensures
            final(self).wf(),
            final(self).settings() == (Config {
                allowed_domains: final(self).settings().allowed_domains,
                ..old(self).settings()
            }),
            final(self).settings().allowed_domains@ == old(self).settings().allowed_domains@.push(name),
            final(self).filter() == (FilterView {
                allowed: old(self).filter().allowed.push(name@),
                statistics: FilterStatistics {
                    allowed_entries: counted(old(self).filter().statistics.allowed_entries),
                    ..old(self).filter().statistics
                },
                ..old(self).filter()
            }),
            final(self).cache() == old(self).cache(),
            final(self).events() == old(self).events(),
            final(self).log_capacity() == old(self).log_capacity(),
    {
        self.filter.add_allowed(&name);
        self.config.allowed_domains.push(name);
    }

    /// Decides what is to be done with the datagram that came from
    /// `client` at `now`. The event of a datagram that is dropped because
    /// it cannot be read is recorded here.
    pub fn on_datagram(
        &mut self,
        resolver: &mut ResolverManager,
        datagram: &[u8],
        client: Address,
        now: u64,
    ) -> (action: ListenerAction)
        requires
            old(self).wf(),
            old(resolver).wf(),
        ensures
            final(self).wf(),
            final(resolver).wf(),
            handled(
                datagram@,
                client,
                now,
                (old(self).filter(), final(self).filter()),
                (old(self).cache(), final(self).cache()),
                (old(resolver)@, final(resolver)@),
                action,
            ),
            action_ok(action),
            final(self).log_capacity() == old(self).log_capacity(),
            final(self).events() == (match action {
                ListenerAction::Drop { event } => keep_last(
                    old(self).events().push(event@),
                    old(self).log_capacity(),
                ),
                _ => old(self).events(),
            }),
            final(self).settings() == old(self).settings(),
    {
        let action = on_datagram(
            datagram,
            client,
            now,
            &mut self.filter,
            &mut self.cache,
            resolver,
        );
        match &action {
            ListenerAction::Drop { event } => {
                self.instrumentation_log.record(event.duplicate());
            },
            _ => {},
        }
        action
    }

    /// Takes in what came from `source` as a response of an upstream
    /// resolver, with the cache of this state.
    pub fn on_upstream_response(
        &mut self,
        resolver: &mut ResolverManager,
        bytes: &[u8],
        source: Address,
        now: u64,
    ) -> (outcome: Option<Answered>)
        requires
            old(self).wf(),
            old(resolver).wf(),
        ensures
            final(self).wf(),
            final(resolver).wf(),
            response_taken(
                bytes@,
                source,
                now,
                (old(resolver)@, final(resolver)@),
                (old(self).cache(), final(self).cache()),
                outcome,
            ),
            final(self).filter() == old(self).filter(),
            final(self).events() == old(self).events(),
            final(self).log_capacity() == old(self).log_capacity(),
            final(self).settings() == old(self).settings(),
    {
        resolver.on_upstream_response(bytes, source, now, &mut self.cache)
    }

    /// Records the event of `delivery` and gives the one datagram to send
    /// for it, with the address to send it to.
    pub fn respond(&mut self, delivery: Delivery) -> (datagram: Option<(Address, Vec<u8>)>)
        requires
            old(self).wf(),
        ensures
            final(self).wf(),
            final(self).log_capacity() == old(self).log_capacity(),
            final(self).events() == keep_last(
                old(self).events().push(delivery.event@),
                old(self).log_capacity(),
            ),
            datagram is Some == datagram_for(delivery.message@) is Some,
            datagram is Some ==> (datagram->0).0 == delivery.client && (datagram->0).1@
                == datagram_for(delivery.message@)->0,
            final(self).filter() == old(self).filter(),
            final(self).cache() == old(self).cache(),
            final(self).settings() == old(self).settings(),
    {
        respond(&mut self.instrumentation_log, delivery)
    }
}

} // verus!
