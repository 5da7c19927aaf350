//! What to do with a datagram from a client: drop it, answer it at once,
//! or send its question upstream.

use crate::cache::{cache_get, question_key, Cache, CacheKey, CacheView};
use crate::filter::{names_set, Filter, FilterView};
use crate::filter_statistics::after_check;
use crate::instrumentation::{event_of, Decision, Instrumentation};
use crate::message::{
    lemma_reply_message_ok, message_ok, parse_message, query_message, records_view,
    reply_message, Message, RCODE_NO_ERROR, RCODE_REFUSED, RCODE_SERVER_FAILURE,
};
use crate::network::Address;
use crate::resolver_manager::{
    after_forward, allocated_id, can_send, Delivery, ForwardOutcome, ResolverManager,
    ResolverView,
};
use crate::resource_record::{RecordView, ResourceRecord};
use crate::tree::blocked_by;
use vstd::prelude::*;

verus! {

/// What is to be done with a datagram.
#[derive(Clone, Debug, PartialEq, Eq)]
pub enum ListenerAction {
    /// The datagram could not be read: nothing is sent, and the event is
    /// recorded.
    Drop { event: Instrumentation },
    /// The answer is known: it goes to the client.
    Reply(Delivery),
    /// The question goes upstream: `message` is sent to `upstream`, and
    /// the time for its id starts.
    Forward { upstream: Address, message: Message },
    /// Too many queries wait: the datagram is dropped.
    Shed,
}

/// The datagram was handled as it should be: `action` is what is to be
/// done, and the filter, the cache and the manager went from their first
/// to their second values.
///
/// A datagram that cannot be read, or holds no question, is dropped. The
/// first question decides for the others. A blocked name is refused. What
/// the cache has is answered from it. Anything else is handed to the
/// manager of the upstream queries.
pub open spec fn handled(
    datagram: Seq<u8>,
    client: Address,
    now: u64,
    filter: (FilterView, FilterView),
    cache: (CacheView, CacheView),
    resolver: (ResolverView, ResolverView),
    action: ListenerAction,
) -> bool {
    let query = parse_message(datagram);
    if query is None || query->0.questions.len() == 0 {
        &&& action matches ListenerAction::Drop { event }
        &&& event@ == event_of(now, client, Seq::empty(), 0, Decision::Malformed, 0)
        &&& filter.1 == filter.0
        &&& cache.1 == cache.0
        &&& resolver.1 == resolver.0
    } else {
        let query = query->0;
        let question = query.questions[0];
        let wants_recursion = query.flags.recursion_desired;
        let blocked = blocked_by(filter.0.blocked, names_set(filter.0.allowed), question.name);
        let (cache_after, found) = cache_get(cache.0, question_key(question), now);
        &&& filter.1 == (FilterView {
            statistics: after_check(filter.0.statistics, blocked),
            ..filter.0
        })
        &&& if blocked {
            &&& cache.1 == cache.0
            &&& resolver.1 == resolver.0
            &&& action matches ListenerAction::Reply(delivery)
            &&& delivery.client == client
            &&& delivery.message@ == reply_message(
                query.id,
                wants_recursion,
                question,
                RCODE_REFUSED,
                Seq::empty(),
            )
            &&& delivery.event@ == event_of(
                now,
                client,
                question.name,
                question.qtype,
                Decision::Blocked,
                0,
            )
        } else if found is Some {
            &&& cache.1 == cache_after
            &&& resolver.1 == resolver.0
            &&& action matches ListenerAction::Reply(delivery)
            &&& delivery.client == client
            &&& delivery.message@ == reply_message(
                query.id,
                wants_recursion,
                question,
                RCODE_NO_ERROR,
                found->0,
            )
            &&& delivery.event@ == event_of(
                now,
                client,
                question.name,
                question.qtype,
                Decision::Cached,
                0,
            )
        } else {
            &&& cache.1 == cache_after
            &&& resolver.1 == after_forward(
                resolver.0,
                question,
                wants_recursion,
                client,
                query.id,
                now,
            )
            &&& if resolver.0.upstreams.len() == 0 {
                &&& action matches ListenerAction::Reply(delivery)
                &&& delivery.client == client
                &&& delivery.message@ == reply_message(
                    query.id,
                    wants_recursion,
                    question,
                    RCODE_SERVER_FAILURE,
                    Seq::empty(),
                )
                &&& delivery.event@ == event_of(
                    now,
                    client,
                    question.name,
                    question.qtype,
                    Decision::Timeout,
                    0,
                )
            } else if can_send(resolver.0, query.id) {
                &&& action matches ListenerAction::Forward { upstream, message }
                &&& upstream == resolver.0.upstreams[0]
                &&& message@ == query_message(allocated_id(resolver.0, query.id), question)
            } else {
                action is Shed
            }
        }
    }
}

/// Every message that the action holds is well formed.
pub open spec fn action_ok(action: ListenerAction) -> bool {
    match action {
        ListenerAction::Reply(delivery) => message_ok(delivery.message@),
        ListenerAction::Forward { upstream, message } => message_ok(message@),
        _ => true,
    }
}

/// Decides what is to be done with the datagram that came from `client` at
/// `now`.
pub fn on_datagram(
    datagram: &[u8],
    client: Address,
    now: u64,
    filter: &mut Filter,
    cache: &mut Cache,
    resolver: &mut ResolverManager,
) -> (action: ListenerAction)
    requires
        old(filter).wf(),
        old(cache).wf(),
        old(resolver).wf(),
    ensures
        final(filter).wf(),
        final(cache).wf(),
        final(resolver).wf(),
        handled(
            datagram@,
            client,
            now,
            (old(filter)@, final(filter)@),
            (old(cache)@, final(cache)@),
            (old(resolver)@, final(resolver)@),
            action,
        ),
        action_ok(action),
{
    let query = match Message::decode(datagram) {
        Ok(query) => query,
        Err(_) => {
            return ListenerAction::Drop { event: Instrumentation::malformed(now, client) };
        },
    };
    if query.questions.len() == 0 {
        return ListenerAction::Drop { event: Instrumentation::malformed(now, client) };
    }
    let question = &query.questions[0];
    let wants_recursion = query.flags.recursion_desired;
    assert(question@ == query@.questions[0]);
    assert(crate::question::question_ok(question@));
    if filter.check(&question.name) {
        let event = Instrumentation::about(now, client, question, Decision::Blocked, 0);
        let answers: Vec<ResourceRecord> = Vec::new();
        proof {
            assert(records_view(answers@) =~= Seq::<RecordView>::empty());
            lemma_reply_message_ok(
                query.id,
                wants_recursion,
                question@,
                RCODE_REFUSED,
                Seq::empty(),
            );
        }
        let message = Message::reply(
            query.id,
            wants_recursion,
            question.duplicate(),
            RCODE_REFUSED,
            answers,
        );
        return ListenerAction::Reply(Delivery { client, message, event });
    }
    let key = CacheKey::for_question(question);
    match cache.get(&key, now) {
        Some(records) => {
            let event = Instrumentation::about(now, client, question, Decision::Cached, 0);
            proof {
                lemma_reply_message_ok(
                    query.id,
                    wants_recursion,
                    question@,
                    RCODE_NO_ERROR,
                    records_view(records@),
                );
            }
            let message = Message::reply(
                query.id,
                wants_recursion,
                question.duplicate(),
                RCODE_NO_ERROR,
                records,
            );
            ListenerAction::Reply(Delivery { client, message, event })
        },
        None => {
            match resolver.forward(question, wants_recursion, client, query.id, now) {
                ForwardOutcome::Send { upstream, message } => ListenerAction::Forward {
                    upstream,
                    message,
                },
                ForwardOutcome::Fail(delivery) => ListenerAction::Reply(delivery),
                ForwardOutcome::Shed => ListenerAction::Shed,
            }
        },
    }
}

} // verus!
