//! The way out: every message for a client leaves as a response, in one
//! datagram, and its event is recorded.

use crate::config::MAX_UDP_PAYLOAD;
use crate::instrumentation::{InstrumentationLog, InstrumentationView};
use crate::message::{encode_message, message_ok, Flags, Message, MessageView};
use crate::network::Address;
use crate::resolver_manager::Delivery;
use crate::resource_record::RecordView;
use crate::ring_buffer::keep_last;
use vstd::prelude::*;

verus! {

/// The message marked as a response.
pub open spec fn outgoing(message: MessageView) -> MessageView {
    MessageView { flags: Flags { response: true, ..message.flags }, ..message }
}

/// The message cut down to its header and questions, and marked as
/// truncated.
pub open spec fn truncated(message: MessageView) -> MessageView {
    MessageView {
        flags: Flags { truncated: true, ..message.flags },
        answers: Seq::empty(),
        authorities: Seq::empty(),
        additionals: Seq::empty(),
        ..message
    }
}

/// The datagram that carries the message to a client: the wire form of the
/// message marked as a response, if it has at most 512 bytes; else that of
/// the message cut down to its questions, if that has; none for a message
/// that is not well formed or too long even so.
pub open spec fn datagram_for(message: MessageView) -> Option<Seq<u8>> {
    let whole = outgoing(message);
    if !message_ok(whole) {
        None
    } else if encode_message(whole).len() <= MAX_UDP_PAYLOAD {
        Some(encode_message(whole))
    } else if encode_message(truncated(whole)).len() <= MAX_UDP_PAYLOAD {
        Some(encode_message(truncated(whole)))
    } else {
        None
    }
}

/// The datagram that carries `message` to a client.
pub fn serialize(message: Message) -> (datagram: Option<Vec<u8>>)
    ensures
        datagram is Some == datagram_for(message@) is Some,
        datagram is Some ==> datagram->0@ == datagram_for(message@)->0,
        datagram is Some ==> datagram->0@.len() <= MAX_UDP_PAYLOAD,
{
    let mut message = message;
    message.flags.response = true;
    let ghost whole = message@;
    let bytes = match message.encode() {
        Some(bytes) => bytes,
        None => {
            return None;
        },
    };
    if bytes.len() <= MAX_UDP_PAYLOAD {
        return Some(bytes);
    }
    message.flags.truncated = true;
    message.answers = Vec::new();
    message.authorities = Vec::new();
    message.additionals = Vec::new();
    proof {
        assert(message@.answers =~= Seq::<RecordView>::empty());
        assert(message@.authorities =~= Seq::<RecordView>::empty());
        assert(message@.additionals =~= Seq::<RecordView>::empty());
        assert(message@ == truncated(whole));
    }
    match message.encode() {
        Some(short) => {
            if short.len() <= MAX_UDP_PAYLOAD {
                Some(short)
            } else {
                None
            }
        },
        None => None,
    }
}

/// Records the event of `delivery` and gives the one datagram to send for
/// it, with the address to send it to; none if the message has no
/// datagram.
pub fn respond(log: &mut InstrumentationLog, delivery: Delivery) -> (datagram: Option<
    (Address, Vec<u8>),
>)
    requires
        old(log).wf(),
    ensures
        final(log).wf(),
        final(log).spec_capacity() == old(log).spec_capacity(),
        final(log)@ == keep_last(old(log)@.push(delivery.event@), old(log).spec_capacity()),
        datagram is Some == datagram_for(delivery.message@) is Some,
        datagram is Some ==> (datagram->0).0 == delivery.client && (datagram->0).1@ == datagram_for(
            delivery.message@,
        )->0,
{
    let Delivery { client, message, event } = delivery;
    log.record(event);
    match serialize(message) {
        Some(bytes) => Some((client, bytes)),
        None => None,
    }
}

} // verus!
