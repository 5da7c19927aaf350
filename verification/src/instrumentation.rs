//! The log of what was decided for each query: a ring buffer of events.

use crate::name::DomainName;
use crate::network::Address;
use crate::question::Question;
use crate::ring_buffer::{keep_last, RingBuffer};
use vstd::prelude::*;

verus! {

/// The number of events that a log keeps unless told otherwise.
pub const DEFAULT_LOG_CAPACITY: usize = 1024;

/// What was decided for a query.
#[derive(Clone, Copy, Debug, PartialEq, Eq, Structural)]
pub enum Decision {
    /// The name is blocked; the query was refused.
    Blocked,
    /// The answer came from the cache.
    Cached,
    /// The answer came from an upstream resolver.
    Forwarded,
    /// No upstream resolver answered in time.
    Timeout,
    /// The datagram could not be read.
    Malformed,
}

/// One event: when and for whom what was decided about which query. The
/// latency is there for answers from the cache and from upstream.
#[derive(Clone, Debug, PartialEq, Eq)]
pub struct Instrumentation {
    pub timestamp: u64,
    pub client: Address,
    /// The name asked for; the root where the datagram could not be read.
    pub name: DomainName,
    /// The type asked for; 0 where the datagram could not be read.
    pub qtype: u16,
    pub decision: Decision,
    pub latency: Option<u64>,
}

/// What an event holds.
pub struct InstrumentationView {
    pub timestamp: u64,
    pub client: Address,
    pub name: Seq<Seq<u8>>,
    pub qtype: u16,
    pub decision: Decision,
    pub latency: Option<u64>,
}

impl View for Instrumentation {
    type V = InstrumentationView;

    open spec fn view(&self) -> InstrumentationView {
        InstrumentationView {
            timestamp: self.timestamp,
            client: self.client,
            name: self.name@,
            qtype: self.qtype,
            decision: self.decision,
            latency: self.latency,
        }
    }
}

/// Whether an event of this decision carries a latency.
pub open spec fn has_latency(decision: Decision) -> bool {
    decision == Decision::Cached || decision == Decision::Forwarded
}

/// The event of `decision` about the query `name`, `qtype` of `client` at
/// `timestamp`; `latency` is kept where the decision carries one.
pub open spec fn event_of(
    timestamp: u64,
    client: Address,
    name: Seq<Seq<u8>>,
    qtype: u16,
    decision: Decision,
    latency: u64,
) -> InstrumentationView {
    InstrumentationView {
        timestamp,
        client,
        name,
        qtype,
        decision,
        latency: if has_latency(decision) {
            Some(latency)
        } else {
            None
        },
    }
}

/// What a sequence of events holds.
pub open spec fn events_view(events: Seq<Instrumentation>) -> Seq<InstrumentationView> {
    Seq::new(events.len(), |i: int| events[i]@)
}

impl Instrumentation {
    /// The event of `decision` about `question`; `latency` is kept where
    /// the decision carries one.
    pub fn about(
        timestamp: u64,
        client: Address,
        question: &Question,
        decision: Decision,
        latency: u64,
    ) -> (event: Instrumentation)
        ensures
            event@ == event_of(
                timestamp,
                client,
                question@.name,
                question@.qtype,
                decision,
                latency,
            ),
    {
        let latency = match decision {
            Decision::Cached => Some(latency),
            Decision::Forwarded => Some(latency),
            _ => None,
        };
        Instrumentation {
            timestamp,
            client,
            name: question.name.duplicate(),
            qtype: question.qtype,
            decision,
            latency,
        }
    }

    /// The event of a datagram that could not be read.
    pub fn malformed(timestamp: u64, client: Address) -> (event: Instrumentation)
        ensures
            event@ == event_of(
                timestamp,
                client,
                Seq::<Seq<u8>>::empty(),
                0,
                Decision::Malformed,
                0,
            ),
    {
        Instrumentation {
            timestamp,
            client,
            name: DomainName::root(),
            qtype: 0,
            decision: Decision::Malformed,
            latency: None,
        }
    }

    /// A copy of this event.
    pub fn duplicate(&self) -> (copy: Instrumentation)
        ensures
            copy@ == self@,
    {
        Instrumentation {
            timestamp: self.timestamp,
            client: self.client,
            name: self.name.duplicate(),
            qtype: self.qtype,
            decision: self.decision,
            latency: self.latency,
        }
    }
}

/// The log: the most recent events, oldest first.
pub struct InstrumentationLog {
    events: RingBuffer<Instrumentation>,
}

impl InstrumentationLog {
    /// The log is in order.
    pub closed spec fn wf(&self) -> bool {
        self.events.wf()
    }

    /// The events, oldest first.
    pub closed spec fn view(&self) -> Seq<InstrumentationView> {
        events_view(self.events@)
    }

    /// The number of events that the log keeps.
    pub closed spec fn spec_capacity(&self) -> nat {
        self.events.spec_capacity()
    }

    /// An empty log that keeps 1024 events.
    pub fn new() -> (log: InstrumentationLog)
        ensures
            log.wf(),
            log@ == Seq::<InstrumentationView>::empty(),
            log.spec_capacity() == DEFAULT_LOG_CAPACITY,
    {
        InstrumentationLog::with_capacity(DEFAULT_LOG_CAPACITY)
    }

    /// An empty log that keeps `capacity` events.
    pub fn with_capacity(capacity: usize) -> (log: InstrumentationLog)
        ensures
            log.wf(),
            log@ == Seq::<InstrumentationView>::empty(),
            log.spec_capacity() == capacity,
    {
        let log = InstrumentationLog { events: RingBuffer::new(capacity) };
        assert(log@ =~= Seq::<InstrumentationView>::empty());
        log
    }

    /// Appends `event`; once the log is full, the oldest event leaves.
    pub fn record(&mut self, event: Instrumentation)
        requires
            old(self).wf(),
        ensures
            final(self).wf(),
            final(self).spec_capacity() == old(self).spec_capacity(),
            final(self)@ == keep_last(old(self)@.push(event@), old(self).spec_capacity()),
    {
        let ghost before = self.events@;
        self.events.push(event);
        assert(events_view(keep_last(before.push(event), self.events.spec_capacity()))
            =~= keep_last(events_view(before).push(event@), self.events.spec_capacity()));
    }

    /// The number of events.
    pub fn len(&self) -> (len: usize)
        requires
            self.wf(),
        ensures
            len == self@.len(),
            len <= self.spec_capacity(),
    {
        self.events.len()
    }

    /// The number of events that the log keeps.
    pub fn capacity(&self) -> (capacity: usize)
        ensures
            capacity == self.spec_capacity(),
    {
        self.events.capacity()
    }

    /// A copy of the events, oldest first. The log stays as it is.
    pub fn snapshot(&self) -> (events: Vec<Instrumentation>)
        requires
            self.wf(),
        ensures
            events_view(events@) == self@,
    {
        let mut events: Vec<Instrumentation> = Vec::new();
        let count = self.events.len();
        let mut i: usize = 0;
        while i < count
            invariant
                self.wf(),
                i <= count == self.events@.len(),
                events@.len() == i,
                events_view(events@) == self@.take(i as int),
            decreases count - i,
        {
            let ghost before = events_view(events@);
            events.push(self.events.get(i).duplicate());
            i = i + 1;
            assert(events_view(events@) =~= self@.take(i as int));
        }
        assert(self@.take(i as int) =~= self@);
        events
    }
}

} // verus!
