//! The queries that wait for an upstream resolver: which client asked what
//! under which id, and what to do when an answer comes or none does.

use crate::cache::{cache_put_response, Cache};
use crate::instrumentation::{event_of, Decision, Instrumentation, InstrumentationView};
use crate::message::{
    lemma_parsed_message_ok, lemma_reply_message_ok, message_ok, parse_message, query_message,
    reply_message, Message, MessageView, RCODE_SERVER_FAILURE,
};
use crate::network::Address;
use crate::question::{question_ok, Question, QuestionView};
use crate::resource_record::RecordView;
use vstd::prelude::*;

verus! {

/// The number of queries that may wait at once unless told otherwise.
pub const DEFAULT_MAX_PENDING: usize = 1024;

/// The number of transaction ids.
pub const ID_COUNT: usize = 65536;

/// A query that waits for an upstream resolver.
#[derive(Clone, Debug, PartialEq, Eq)]
pub struct PendingQuery {
    /// The transaction id under which the query went upstream.
    pub upstream_id: u16,
    /// The client that asked.
    pub client: Address,
    /// The transaction id under which the client asked.
    pub client_id: u16,
    pub question: Question,
    /// Whether the client asked for recursion.
    pub recursion_desired: bool,
    /// When the query was handed over.
    pub submitted_at: u64,
    /// The place, in the list of upstream resolvers, of the one asked last.
    pub upstream_index: usize,
}

/// What a waiting query holds.
pub struct PendingView {
    pub upstream_id: u16,
    pub client: Address,
    pub client_id: u16,
    pub question: QuestionView,
    pub recursion_desired: bool,
    pub submitted_at: u64,
    pub upstream_index: usize,
}

impl View for PendingQuery {
    type V = PendingView;

    open spec fn view(&self) -> PendingView {
        PendingView {
            upstream_id: self.upstream_id,
            client: self.client,
            client_id: self.client_id,
            question: self.question@,
            recursion_desired: self.recursion_desired,
            submitted_at: self.submitted_at,
            upstream_index: self.upstream_index,
        }
    }
}

/// What a sequence of waiting queries holds.
pub open spec fn pending_view(pending: Seq<PendingQuery>) -> Seq<PendingView> {
    Seq::new(pending.len(), |i: int| pending[i]@)
}

/// What the manager holds: the waiting queries in the order in which they
/// came, the upstream resolvers in the order in which they are tried, the
/// id at which the search for a free one starts, and the number of queries
/// that may wait at once.
pub struct ResolverView {
    pub pending: Seq<PendingView>,
    pub upstreams: Seq<Address>,
    pub next_id: u16,
    pub max_pending: nat,
}

/// The place of the waiting query with the upstream id `id`, or the number
/// of waiting queries if there is none.
pub open spec fn pending_index(pending: Seq<PendingView>, id: u16) -> int
    decreases pending.len(),
{
    if pending.len() == 0 {
        0
    } else if pending[0].upstream_id == id {
        0
    } else {
        1 + pending_index(pending.drop_first(), id)
    }
}

/// A query waits under the upstream id `id`.
pub open spec fn id_in_use(pending: Seq<PendingView>, id: u16) -> bool {
    pending_index(pending, id) < pending.len()
}

/// The id `offset` steps behind `start`, going round at the end.
pub open spec fn wrap_add(start: u16, offset: int) -> u16 {
    ((start + offset) % (ID_COUNT as int)) as u16
}

/// An id can be given to a query of a client that asked under `avoid`: no
/// query waits under it, and it is not the id of the client.
pub open spec fn id_is_free(pending: Seq<PendingView>, avoid: u16, id: u16) -> bool {
    !id_in_use(pending, id) && id != avoid
}

/// The least number of steps, from `offset` on, that lead from `start` to
/// an id that can be given; 65536 if there is none.
pub open spec fn free_offset(pending: Seq<PendingView>, start: u16, avoid: u16, offset: int) -> int
    decreases ID_COUNT - offset,
{
    if offset >= ID_COUNT {
        ID_COUNT as int
    } else if id_is_free(pending, avoid, wrap_add(start, offset)) {
        offset
    } else {
        free_offset(pending, start, avoid, offset + 1)
    }
}

/// The manager is in order: no more queries wait than may, no two under
/// the same upstream id, and each names an upstream resolver that exists
/// and holds a well-formed question.
pub open spec fn resolver_ok(resolver: ResolverView) -> bool {
    &&& resolver.pending.len() <= resolver.max_pending
    &&& forall|i: int, j: int|
        0 <= i < resolver.pending.len() && 0 <= j < resolver.pending.len() && i != j ==> (
        #[trigger] resolver.pending[i]).upstream_id != (#[trigger] resolver.pending[j]).upstream_id
    &&& forall|i: int|
        0 <= i < resolver.pending.len() ==> (#[trigger] resolver.pending[i]).upstream_index
            < resolver.upstreams.len() && question_ok(resolver.pending[i].question)
}

/// A query of a client that asked under `avoid` can be sent upstream:
/// there is a resolver, room for one more waiting query, and an id to give.
pub open spec fn can_send(resolver: ResolverView, avoid: u16) -> bool {
    &&& resolver.upstreams.len() > 0
    &&& resolver.pending.len() < resolver.max_pending
    &&& free_offset(resolver.pending, resolver.next_id, avoid, 0) < ID_COUNT
}

/// The id that the next query gets, for a client that asked under `avoid`:
/// the first from `next_id` on that can be given.
pub open spec fn allocated_id(resolver: ResolverView, avoid: u16) -> u16 {
    wrap_add(resolver.next_id, free_offset(resolver.pending, resolver.next_id, avoid, 0))
}

/// What the manager holds after it was handed a query: where the query can
/// be sent, it waits for the first resolver under an id that is new and not
/// the id of the client, and the search for the next id starts behind that
/// one.
pub open spec fn after_forward(
    resolver: ResolverView,
    question: QuestionView,
    recursion_desired: bool,
    client: Address,
    client_id: u16,
    now: u64,
) -> ResolverView {
    if can_send(resolver, client_id) {
        ResolverView {
            pending: resolver.pending.push(
                PendingView {
                    upstream_id: allocated_id(resolver, client_id),
                    client,
                    client_id,
                    question,
                    recursion_desired,
                    submitted_at: now,
                    upstream_index: 0,
                },
            ),
            next_id: wrap_add(allocated_id(resolver, client_id), 1),
            ..resolver
        }
    } else {
        resolver
    }
}

/// The place of the waiting query that a response answers: the one with
/// the id of the response, if the response comes from the resolver that
/// was asked last for it.
pub open spec fn answered(resolver: ResolverView, response: MessageView, source: Address) -> Option<
    int,
> {
    let at = pending_index(resolver.pending, response.id);
    if at < resolver.pending.len() && resolver.upstreams[resolver.pending[at].upstream_index as int]
        == source {
        Some(at)
    } else {
        None
    }
}

/// The time from `since` to `now`; none if the clock went back.
pub open spec fn latency_of(since: u64, now: u64) -> u64 {
    if now >= since {
        (now - since) as u64
    } else {
        0
    }
}

/// Whether the query at `at` has another resolver to try.
pub open spec fn can_retry(resolver: ResolverView, at: int) -> bool {
    resolver.pending[at].upstream_index + 1 < resolver.upstreams.len()
}

/// What the manager holds after the time for the upstream id `id` ran out:
/// a query that waits under it moves on to the next resolver if there is
/// one, and leaves if there is none.
pub open spec fn after_timeout(resolver: ResolverView, id: u16) -> ResolverView {
    let at = pending_index(resolver.pending, id);
    if at >= resolver.pending.len() {
        resolver
    } else if can_retry(resolver, at) {
        ResolverView {
            pending: resolver.pending.update(
                at,
                PendingView {
                    upstream_index: (resolver.pending[at].upstream_index + 1) as usize,
                    ..resolver.pending[at]
                },
            ),
            ..resolver
        }
    } else {
        ResolverView { pending: resolver.pending.remove(at), ..resolver }
    }
}

/// `pending_index` gives the first place of the id.
pub proof fn lemma_pending_index(pending: Seq<PendingView>, id: u16)
    ensures
        0 <= pending_index(pending, id) <= pending.len(),
        id_in_use(pending, id) ==> pending[pending_index(pending, id)].upstream_id == id,
        forall|j: int|
            0 <= j < pending_index(pending, id) ==> (#[trigger] pending[j]).upstream_id != id,
    decreases pending.len(),
{
    if pending.len() > 0 && pending[0].upstream_id != id {
        let rest = pending.drop_first();
        lemma_pending_index(rest, id);
        assert forall|j: int| 0 <= j < pending_index(pending, id) implies (
        #[trigger] pending[j]).upstream_id != id by {
            if j > 0 {
                assert(rest[j - 1] == pending[j]);
            }
        }
    }
}

/// The id found by the search can be given, and none before it on the way
/// can.
pub proof fn lemma_free_offset(pending: Seq<PendingView>, start: u16, avoid: u16, offset: int)
    requires
        0 <= offset <= ID_COUNT,
    ensures
        offset <= free_offset(pending, start, avoid, offset) <= ID_COUNT,
        free_offset(pending, start, avoid, offset) < ID_COUNT ==> id_is_free(
            pending,
            avoid,
            wrap_add(start, free_offset(pending, start, avoid, offset)),
        ),
        forall|d: int|
            offset <= d < free_offset(pending, start, avoid, offset) ==> !id_is_free(
                pending,
                avoid,
                #[trigger] wrap_add(start, d),
            ),
    decreases ID_COUNT - offset,
{
    if offset < ID_COUNT && !id_is_free(pending, avoid, wrap_add(start, offset)) {
        lemma_free_offset(pending, start, avoid, offset + 1);
    }
}

/// Handing over a query keeps the manager in order; the id that the query
/// gets is new and not the id of the client.
pub proof fn lemma_after_forward_ok(
    resolver: ResolverView,
    question: QuestionView,
    recursion_desired: bool,
    client: Address,
    client_id: u16,
    now: u64,
)
    requires
        resolver_ok(resolver),
        question_ok(question),
    ensures
        resolver_ok(after_forward(resolver, question, recursion_desired, client, client_id, now)),
        can_send(resolver, client_id) ==> !id_in_use(
            resolver.pending,
            allocated_id(resolver, client_id),
        ) && allocated_id(resolver, client_id) != client_id,
{
    if can_send(resolver, client_id) {
        lemma_free_offset(resolver.pending, resolver.next_id, client_id, 0);
        let id = allocated_id(resolver, client_id);
        lemma_pending_index(resolver.pending, id);
        let after = after_forward(resolver, question, recursion_desired, client, client_id, now);
        assert forall|i: int, j: int|
            0 <= i < after.pending.len() && 0 <= j < after.pending.len() && i != j implies (
        #[trigger] after.pending[i]).upstream_id != (#[trigger] after.pending[j]).upstream_id by {
            if i < resolver.pending.len() {
                assert(after.pending[i] == resolver.pending[i]);
            }
            if j < resolver.pending.len() {
                assert(after.pending[j] == resolver.pending[j]);
            }
        }
        assert forall|i: int| 0 <= i < after.pending.len() implies (
        #[trigger] after.pending[i]).upstream_index < after.upstreams.len() && question_ok(
            after.pending[i].question,
        ) by {
            if i < resolver.pending.len() {
                assert(after.pending[i] == resolver.pending[i]);
            }
        }
    }
}

/// Taking a waiting query out keeps the manager in order, and frees its id.
pub proof fn lemma_remove_ok(resolver: ResolverView, at: int)
    requires
        resolver_ok(resolver),
        0 <= at < resolver.pending.len(),
    ensures
        resolver_ok(ResolverView { pending: resolver.pending.remove(at), ..resolver }),
        !id_in_use(resolver.pending.remove(at), resolver.pending[at].upstream_id),
{
    let rest = resolver.pending.remove(at);
    let id = resolver.pending[at].upstream_id;
    assert forall|i: int| 0 <= i < rest.len() implies #[trigger] rest[i] == resolver.pending[if i
        < at {
        i
    } else {
        i + 1
    }] by {}
    lemma_pending_index(rest, id);
    if id_in_use(rest, id) {
        let i = pending_index(rest, id);
        assert(rest[i].upstream_id == id);
    }
}

/// When the time runs out for a query that has no other resolver to try,
/// the query leaves and its id is free; when the time runs out once more
/// for that id, nothing changes.
pub proof fn lemma_timeout_frees_slot(resolver: ResolverView, id: u16)
    requires
        resolver_ok(resolver),
        id_in_use(resolver.pending, id),
        !can_retry(resolver, pending_index(resolver.pending, id)),
    ensures
        resolver_ok(after_timeout(resolver, id)),
        after_timeout(resolver, id).pending.len() == resolver.pending.len() - 1,
        !id_in_use(after_timeout(resolver, id).pending, id),
        after_timeout(after_timeout(resolver, id), id) == after_timeout(resolver, id),
{
    lemma_pending_index(resolver.pending, id);
    lemma_remove_ok(resolver, pending_index(resolver.pending, id));
}

/// A timeout keeps the manager in order.
pub proof fn lemma_after_timeout_ok(resolver: ResolverView, id: u16)
    requires
        resolver_ok(resolver),
    ensures
        resolver_ok(after_timeout(resolver, id)),
{
    lemma_pending_index(resolver.pending, id);
    let at = pending_index(resolver.pending, id);
    if at < resolver.pending.len() {
        if can_retry(resolver, at) {
            let after = after_timeout(resolver, id);
            assert forall|i: int, j: int|
                0 <= i < after.pending.len() && 0 <= j < after.pending.len() && i != j implies (
            #[trigger] after.pending[i]).upstream_id != (
            #[trigger] after.pending[j]).upstream_id by {
                assert(after.pending[i].upstream_id == resolver.pending[i].upstream_id);
                assert(after.pending[j].upstream_id == resolver.pending[j].upstream_id);
            }
            assert forall|i: int| 0 <= i < after.pending.len() implies (
            #[trigger] after.pending[i]).upstream_index < after.upstreams.len() && question_ok(
                after.pending[i].question,
            ) by {
                if i != at {
                    assert(after.pending[i] == resolver.pending[i]);
                } else {
                    assert(question_ok(resolver.pending[at].question));
                }
            }
        } else {
            lemma_remove_ok(resolver, at);
        }
    }
}

/// A message for a client, and the event that tells of it.
#[derive(Clone, Debug, PartialEq, Eq)]
pub struct Delivery {
    /// The client that the message is for.
    pub client: Address,
    pub message: Message,
    pub event: Instrumentation,
}

/// A response that was taken in: what goes to the client, and the upstream
/// id that is done with, so that the time for it can be stopped.
#[derive(Clone, Debug, PartialEq, Eq)]
pub struct Answered {
    pub upstream_id: u16,
    pub delivery: Delivery,
}

/// What came of handing over a query.
#[derive(Clone, Debug, PartialEq, Eq)]
pub enum ForwardOutcome {
    /// The query waits; `message` is to be sent to `upstream`, and the time
    /// for its id started.
    Send { upstream: Address, message: Message },
    /// There is no upstream resolver; the failure is to be sent to the
    /// client.
    Fail(Delivery),
    /// Too many queries wait; this one is dropped.
    Shed,
}

/// What came of the time running out for an id.
#[derive(Clone, Debug, PartialEq, Eq)]
pub enum TimeoutOutcome {
    /// No query waits under the id; nothing is to be done.
    Ignore,
    /// The query moved on; `message` is to be sent to `upstream`, and the
    /// time for its id started again.
    Retry { upstream: Address, message: Message },
    /// No resolver is left; the failure is to be sent to the client.
    Fail(Delivery),
}

/// The bytes that came from `source` at `now` were taken in as they should
/// be: `outcome` holds what goes to a client, and the manager and the
/// cache went from their first to their second values.
///
/// What cannot be read, what answers no waiting query, and what does not
/// come from the resolver that was asked is passed over, and nothing
/// changes. Else the query leaves, the answers are offered to the cache
/// under the question of the query, and the response goes to the client
/// under the id of the client.
pub open spec fn response_taken(
    bytes: Seq<u8>,
    source: Address,
    now: u64,
    resolver: (ResolverView, ResolverView),
    cache: (crate::cache::CacheView, crate::cache::CacheView),
    outcome: Option<Answered>,
) -> bool {
    let response = parse_message(bytes);
    if response is Some && answered(resolver.0, response->0, source) is Some {
        let response = response->0;
        let at = answered(resolver.0, response, source)->0;
        let query = resolver.0.pending[at];
        &&& resolver.1 == (ResolverView { pending: resolver.0.pending.remove(at), ..resolver.0 })
        &&& cache.1 == cache_put_response(cache.0, query.question, response, now)
        &&& outcome is Some
        &&& outcome->0.upstream_id == response.id
        &&& outcome->0.delivery.client == query.client
        &&& outcome->0.delivery.message@ == (MessageView { id: query.client_id, ..response })
        &&& message_ok(outcome->0.delivery.message@)
        &&& outcome->0.delivery.event@ == event_of(
            now,
            query.client,
            query.question.name,
            query.question.qtype,
            Decision::Forwarded,
            latency_of(query.submitted_at, now),
        )
    } else {
        outcome is None && resolver.1 == resolver.0 && cache.1 == cache.0
    }
}

/// The manager of the queries that wait for an upstream resolver.
pub struct ResolverManager {
    pending: Vec<PendingQuery>,
    upstreams: Vec<Address>,
    next_id: u16,
    max_pending: usize,
}

/// The failure that is sent to the client of a query: a response under the
/// id of the client, with its question and the code for a failure of the
/// server.
pub open spec fn failure_for(query: PendingView) -> MessageView {
    reply_message(
        query.client_id,
        query.recursion_desired,
        query.question,
        RCODE_SERVER_FAILURE,
        Seq::empty(),
    )
}

/// The event of a query that no resolver answered in time.
pub open spec fn timeout_event(query: PendingView, now: u64) -> InstrumentationView {
    event_of(now, query.client, query.question.name, query.question.qtype, Decision::Timeout, 0)
}

/// The delivery of the failure of `query` to its client.
fn failure_delivery(query: PendingQuery, now: u64) -> (delivery: Delivery)
    requires
        question_ok(query@.question),
    ensures
        delivery.client == query@.client,
        delivery.message@ == failure_for(query@),
        message_ok(delivery.message@),
        delivery.event@ == timeout_event(query@, now),
{
    let event = Instrumentation::about(now, query.client, &query.question, Decision::Timeout, 0);
    proof {
        lemma_reply_message_ok(
            query.client_id,
            query.recursion_desired,
            query.question@,
            RCODE_SERVER_FAILURE,
            Seq::empty(),
        );
    }
    let answers: Vec<crate::resource_record::ResourceRecord> = Vec::new();
    assert(crate::message::records_view(answers@) =~= Seq::<RecordView>::empty());
    let message = Message::reply(
        query.client_id,
        query.recursion_desired,
        query.question,
        RCODE_SERVER_FAILURE,
        answers,
    );
    Delivery { client: query.client, message, event }
}

impl ResolverManager {
    /// What the manager holds.
    pub closed spec fn view(&self) -> ResolverView {
        ResolverView {
            pending: pending_view(self.pending@),
            upstreams: self.upstreams@,
            next_id: self.next_id,
            max_pending: self.max_pending as nat,
        }
    }

    /// The manager is in order.
    pub open spec fn wf(&self) -> bool {
        resolver_ok(self@)
    }

    /// A manager without waiting queries, for the resolvers `upstreams` in
    /// the order in which they are to be tried. At most `max_pending`
    /// queries wait at once, and the search for the first id starts at
    /// `first_id`.
    pub fn new(upstreams: Vec<Address>, max_pending: usize, first_id: u16) -> (manager:
        ResolverManager)
        ensures
            manager.wf(),
            manager@ == (ResolverView {
                pending: Seq::empty(),
                upstreams: upstreams@,
                next_id: first_id,
                max_pending: max_pending as nat,
            }),
    {
        let manager = ResolverManager {
            pending: Vec::new(),
            upstreams,
            next_id: first_id,
            max_pending,
        };
        assert(manager@.pending =~= Seq::<PendingView>::empty());
        manager
    }

    /// The number of waiting queries.
    pub fn pending_count(&self) -> (count: usize)
        ensures
            count == self@.pending.len(),
    {
        self.pending.len()
    }

    /// The place of the waiting query with the upstream id `id`.
    fn find(&self, id: u16) -> (at: usize)
        ensures
            at == pending_index(self@.pending, id),
            at <= self.pending@.len(),
    {
        let ghost all = self@.pending;
        let mut at: usize = 0;
        proof {
            lemma_pending_index(all, id);
        }
        while at < self.pending.len()
            invariant
                at <= self.pending@.len(),
                all == self@.pending,
                forall|j: int| 0 <= j < at ==> (#[trigger] all[j]).upstream_id != id,
                0 <= pending_index(all, id) <= all.len(),
                id_in_use(all, id) ==> all[pending_index(all, id)].upstream_id == id,
                forall|j: int|
                    0 <= j < pending_index(all, id) ==> (#[trigger] all[j]).upstream_id != id,
            decreases self.pending@.len() - at,
        {
            if self.pending[at].upstream_id == id {
                assert(all[at as int].upstream_id == id);
                return at;
            }
            at = at + 1;
        }
        at
    }

    /// The first id from `next_id` on that can be given to a query of a
    /// client that asked under `avoid`.
    fn allocate(&self, avoid: u16) -> (id: Option<u16>)
        ensures
            id is Some == (free_offset(self@.pending, self@.next_id, avoid, 0) < ID_COUNT),
            id is Some ==> id->0 == allocated_id(self@, avoid),
    {
        let ghost all = self@.pending;
        let mut candidate: u16 = self.next_id;
        let mut offset: usize = 0;
        assert(wrap_add(self.next_id, 0) == self.next_id);
        while offset < ID_COUNT
            invariant
                offset <= ID_COUNT,
                all == self@.pending,
                offset < ID_COUNT ==> candidate == wrap_add(self.next_id, offset as int),
                free_offset(all, self.next_id, avoid, 0) == free_offset(
                    all,
                    self.next_id,
                    avoid,
                    offset as int,
                ),
            decreases ID_COUNT - offset,
        {
            if candidate != avoid && self.find(candidate) == self.pending.len() {
                return Some(candidate);
            }
            candidate = if candidate == u16::MAX {
                0
            } else {
                candidate + 1
            };
            offset = offset + 1;
        }
        None
    }

    /// Takes a query of `client` in. Where there is a resolver and room,
    /// the query waits under an id that is new and not the id of the
    /// client, and the message to send upstream comes back. Where there is no resolver, the failure for the client
    /// comes back. Where too many queries wait, the query is dropped.
    pub fn forward(
        &mut self,
        question: &Question,
        recursion_desired: bool,
        client: Address,
        client_id: u16,
        now: u64,
    ) -> (outcome: ForwardOutcome)
        requires
            old(self).wf(),
            question_ok(question@),
        ensures
            final(self).wf(),
            final(self)@ == after_forward(
                old(self)@,
                question@,
                recursion_desired,
                client,
                client_id,
                now,
            ),
            match outcome {
                ForwardOutcome::Send { upstream, message } => {
                    &&& can_send(old(self)@, client_id)
                    &&& upstream == old(self)@.upstreams[0]
                    &&& message@ == query_message(allocated_id(old(self)@, client_id), question@)
                    &&& message_ok(message@)
                    &&& message@.id != client_id
                    &&& !id_in_use(old(self)@.pending, message@.id)
                },
                ForwardOutcome::Fail(delivery) => {
                    &&& old(self)@.upstreams.len() == 0
                    &&& delivery.client == client
                    &&& delivery.message@ == reply_message(
                        client_id,
                        recursion_desired,
                        question@,
                        RCODE_SERVER_FAILURE,
                        Seq::empty(),
                    )
                    &&& message_ok(delivery.message@)
                    &&& delivery.event@ == event_of(
                        now,
                        client,
                        question@.name,
                        question@.qtype,
                        Decision::Timeout,
                        0,
                    )
                },
                ForwardOutcome::Shed => old(self)@.upstreams.len() > 0 && !can_send(
                    old(self)@,
                    client_id,
                ),
            },
    {
        proof {
            lemma_after_forward_ok(
                self@,
                question@,
                recursion_desired,
                client,
                client_id,
                now,
            );
            lemma_reply_message_ok(
                client_id,
                recursion_desired,
                question@,
                RCODE_SERVER_FAILURE,
                Seq::empty(),
            );
        }
        if self.upstreams.len() == 0 {
            let query = PendingQuery {
                upstream_id: 0,
                client,
                client_id,
                question: question.duplicate(),
                recursion_desired,
                submitted_at: now,
                upstream_index: 0,
            };
            return ForwardOutcome::Fail(failure_delivery(query, now));
        }
        if self.pending.len() >= self.max_pending {
            return ForwardOutcome::Shed;
        }
        let id = match self.allocate(client_id) {
            Some(id) => id,
            None => {
                return ForwardOutcome::Shed;
            },
        };
        let ghost before = self@;
        let query = PendingQuery {
            upstream_id: id,
            client,
            client_id,
            question: question.duplicate(),
            recursion_desired,
            submitted_at: now,
            upstream_index: 0,
        };
        self.pending.push(query);
        self.next_id = if id == u16::MAX {
            0
        } else {
            id + 1
        };
        assert(self@.pending =~= before.pending.push(query@));
        let message = Message::query(id, question.duplicate());
        ForwardOutcome::Send { upstream: self.upstreams[0], message }
    }

    /// Takes in what came from `source` as a response. What cannot be read,
    /// what answers no waiting query, and what does not come from the
    /// resolver that was asked is passed over, and nothing changes. Else
    /// the query leaves, the answers are offered to the cache under the
    /// question of the query, and the response comes back for the client
    /// under the id of the client.
    pub fn on_upstream_response(
        &mut self,
        bytes: &[u8],
        source: Address,
        now: u64,
        cache: &mut Cache,
    ) -> (outcome: Option<Answered>)
        requires
            old(self).wf(),
            old(cache).wf(),
        ensures
            final(self).wf(),
            final(cache).wf(),
            response_taken(
                bytes@,
                source,
                now,
                (old(self)@, final(self)@),
                (old(cache)@, final(cache)@),
                outcome,
            ),
    {
        let mut response = match Message::decode(bytes) {
            Ok(response) => response,
            Err(_) => {
                return None;
            },
        };
        let at = self.find(response.id);
        if at == self.pending.len() {
            return None;
        }
        if !self.upstreams[self.pending[at].upstream_index].same_as(&source) {
            return None;
        }
        let ghost before = self@;
        proof {
            lemma_remove_ok(before, at as int);
        }
        let query = self.pending.remove(at);
        assert(self@.pending =~= before.pending.remove(at as int));
        let _ = cache.put_response(&query.question, &response, now);
        let latency = if now >= query.submitted_at {
            now - query.submitted_at
        } else {
            0
        };
        let event = Instrumentation::about(
            now,
            query.client,
            &query.question,
            Decision::Forwarded,
            latency,
        );
        let upstream_id = response.id;
        response.id = query.client_id;
        Some(Answered {
            upstream_id,
            delivery: Delivery { client: query.client, message: response, event },
        })
    }

    /// Takes in that the time ran out for the upstream id `id`. Where no
    /// query waits under it, nothing is to be done. Where the query has
    /// another resolver to try, it moves on to it, and the message to send
    /// comes back. Else the query leaves, and the failure for the client
    /// comes back.
    pub fn on_timeout(&mut self, id: u16, now: u64) -> (outcome: TimeoutOutcome)
        requires
            old(self).wf(),
        ensures
            final(self).wf(),
            final(self)@ == after_timeout(old(self)@, id),
            match outcome {
                TimeoutOutcome::Ignore => !id_in_use(old(self)@.pending, id),
                TimeoutOutcome::Retry { upstream, message } => {
                    let at = pending_index(old(self)@.pending, id);
                    &&& id_in_use(old(self)@.pending, id)
                    &&& can_retry(old(self)@, at)
                    &&& upstream == old(self)@.upstreams[old(self)@.pending[at].upstream_index + 1]
                    &&& message@ == query_message(id, old(self)@.pending[at].question)
                    &&& message_ok(message@)
                },
                TimeoutOutcome::Fail(delivery) => {
                    let at = pending_index(old(self)@.pending, id);
                    &&& id_in_use(old(self)@.pending, id)
                    &&& !can_retry(old(self)@, at)
                    &&& delivery.client == old(self)@.pending[at].client
                    &&& delivery.message@ == failure_for(old(self)@.pending[at])
                    &&& message_ok(delivery.message@)
                    &&& delivery.event@ == timeout_event(old(self)@.pending[at], now)
                },
            },
    {
        let ghost before = self@;
        proof {
            lemma_after_timeout_ok(before, id);
            lemma_pending_index(before.pending, id);
        }
        let at = self.find(id);
        if at == self.pending.len() {
            return TimeoutOutcome::Ignore;
        }
        let tried = self.pending[at].upstream_index;
        let count = self.upstreams.len();
        assert(before.pending[at as int].upstream_index < before.upstreams.len());
        if tried + 1 < count {
            self.pending[at].upstream_index = tried + 1;
            assert(self@.pending =~= before.pending.update(
                at as int,
                PendingView { upstream_index: (tried + 1) as usize, ..before.pending[at as int] },
            ));
            proof {
                lemma_reply_message_ok(id, true, before.pending[at as int].question, 0, Seq::empty());
            }
            let message = Message::query(id, self.pending[at].question.duplicate());
            TimeoutOutcome::Retry { upstream: self.upstreams[tried + 1], message }
        } else {
            let query = self.pending.remove(at);
            assert(self@.pending =~= before.pending.remove(at as int));
            TimeoutOutcome::Fail(failure_delivery(query, now))
        }
    }
}

} // verus!
