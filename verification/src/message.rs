//! DNS messages: a header, questions and three sections of records.

use crate::question::{
    encode_question, lemma_encode_question_len, lemma_parse_encoded_question,
    lemma_parsed_question_ok, parse_question, question_ok, Question, QuestionView,
};
use crate::resource_record::{
    encode_record, lemma_encode_record_len, lemma_parse_encoded_record, lemma_parsed_record_ok,
    parse_record, record_ok, RecordView, ResourceRecord,
};
use crate::wire::{lemma_be_bytes_len, lemma_split_at, lemma_u16_at, read_u16, u16_at, u16_bytes, write_u16};
use vstd::arithmetic::div_mod::lemma_fundamental_div_mod_converse;
use vstd::prelude::*;

verus! {

/// The length of the header of a message.
pub const HEADER_LEN: usize = 12;

/// The largest number of entries that a section can announce.
pub const MAX_SECTION_LEN: usize = 65535;

/// The response code of a successful answer.
pub const RCODE_NO_ERROR: u8 = 0;

/// The response code for a query that could not be read.
pub const RCODE_FORMAT_ERROR: u8 = 1;

/// The response code for a failure of the server.
pub const RCODE_SERVER_FAILURE: u8 = 2;

/// The response code for a name that does not exist.
pub const RCODE_NAME_ERROR: u8 = 3;

/// The response code for a kind of query that is not supported.
pub const RCODE_NOT_IMPLEMENTED: u8 = 4;

/// The response code for a query that the server refuses to answer.
pub const RCODE_REFUSED: u8 = 5;

/// The flag bits of a header.
#[derive(Clone, Copy, Debug, PartialEq, Eq, Structural)]
pub struct Flags {
    /// The message is a response, not a query.
    pub response: bool,
    /// The kind of query, below 16.
    pub opcode: u8,
    pub authoritative: bool,
    pub truncated: bool,
    pub recursion_desired: bool,
    pub recursion_available: bool,
    /// The three bits between the flags and the response code, below 8.
    pub reserved: u8,
    /// The response code, below 16.
    pub rcode: u8,
}

/// Each field of the flags fits its bits.
pub open spec fn flags_ok(flags: Flags) -> bool {
    flags.opcode < 16 && flags.reserved < 8 && flags.rcode < 16
}

/// 1 for true, 0 for false.
pub open spec fn bit(b: bool) -> int {
    if b {
        1
    } else {
        0
    }
}

/// The 16 bits of the flags as one number.
pub open spec fn flags_word(flags: Flags) -> int {
    bit(flags.response) * 32768 + flags.opcode * 2048 + bit(flags.authoritative) * 1024 + bit(
        flags.truncated,
    ) * 512 + bit(flags.recursion_desired) * 256 + bit(flags.recursion_available) * 128
        + flags.reserved * 16 + flags.rcode
}

/// The flags that the 16 bits `word` spell.
pub open spec fn flags_of(word: u16) -> Flags {
    Flags {
        response: word / 32768 == 1,
        opcode: ((word / 2048) % 16) as u8,
        authoritative: (word / 1024) % 2 == 1,
        truncated: (word / 512) % 2 == 1,
        recursion_desired: (word / 256) % 2 == 1,
        recursion_available: (word / 128) % 2 == 1,
        reserved: ((word / 16) % 8) as u8,
        rcode: (word % 16) as u8,
    }
}

/// Flags that were read fit their bits.
pub proof fn lemma_flags_of_ok(word: u16)
    ensures
        flags_ok(flags_of(word)),
{
}

/// Reading the bits of well-formed flags gives the flags back.
pub proof fn lemma_flags_of_word(flags: Flags)
    requires
        flags_ok(flags),
    ensures
        0 <= flags_word(flags) < 65536,
        flags_of(flags_word(flags) as u16) == flags,
{
    let r = bit(flags.response);
    let o = flags.opcode as int;
    let a = bit(flags.authoritative);
    let t = bit(flags.truncated);
    let d = bit(flags.recursion_desired);
    let v = bit(flags.recursion_available);
    let z = flags.reserved as int;
    let c = flags.rcode as int;
    let w = flags_word(flags);
    let got = flags_of(w as u16);
    lemma_fundamental_div_mod_converse(w, 32768, r, w - r * 32768);
    lemma_fundamental_div_mod_converse(w, 2048, r * 16 + o, w - (r * 16 + o) * 2048);
    lemma_fundamental_div_mod_converse(r * 16 + o, 16, r, o);
    lemma_fundamental_div_mod_converse(w, 1024, r * 32 + o * 2 + a, w - (r * 32 + o * 2 + a) * 1024);
    lemma_fundamental_div_mod_converse(r * 32 + o * 2 + a, 2, r * 16 + o, a);
    let q4 = r * 64 + o * 4 + a * 2 + t;
    lemma_fundamental_div_mod_converse(w, 512, q4, w - q4 * 512);
    lemma_fundamental_div_mod_converse(q4, 2, r * 32 + o * 2 + a, t);
    let q5 = q4 * 2 + d;
    lemma_fundamental_div_mod_converse(w, 256, q5, w - q5 * 256);
    lemma_fundamental_div_mod_converse(q5, 2, q4, d);
    let q6 = q5 * 2 + v;
    lemma_fundamental_div_mod_converse(w, 128, q6, w - q6 * 128);
    lemma_fundamental_div_mod_converse(q6, 2, q5, v);
    let q7 = q6 * 8 + z;
    lemma_fundamental_div_mod_converse(w, 16, q7, c);
    lemma_fundamental_div_mod_converse(q7, 8, q6, z);
    assert(got.response == flags.response);
    assert(got.opcode == flags.opcode);
    assert(got.authoritative == flags.authoritative);
    assert(got.truncated == flags.truncated);
    assert(got.recursion_desired == flags.recursion_desired);
    assert(got.recursion_available == flags.recursion_available);
    assert(got.reserved == flags.reserved);
    assert(got.rcode == flags.rcode);
}

/// A message.
#[derive(Clone, Debug, PartialEq, Eq)]
pub struct Message {
    /// The transaction id.
    pub id: u16,
    pub flags: Flags,
    pub questions: Vec<Question>,
    pub answers: Vec<ResourceRecord>,
    pub authorities: Vec<ResourceRecord>,
    pub additionals: Vec<ResourceRecord>,
}

/// What a message holds.
pub struct MessageView {
    pub id: u16,
    pub flags: Flags,
    pub questions: Seq<QuestionView>,
    pub answers: Seq<RecordView>,
    pub authorities: Seq<RecordView>,
    pub additionals: Seq<RecordView>,
}

/// What a sequence of questions holds.
pub open spec fn questions_view(questions: Seq<Question>) -> Seq<QuestionView> {
    Seq::new(questions.len(), |i: int| questions[i]@)
}

/// What a sequence of records holds.
pub open spec fn records_view(records: Seq<ResourceRecord>) -> Seq<RecordView> {
    Seq::new(records.len(), |i: int| records[i]@)
}

impl View for Message {
    type V = MessageView;

    open spec fn view(&self) -> MessageView {
        MessageView {
            id: self.id,
            flags: self.flags,
            questions: questions_view(self.questions@),
            answers: records_view(self.answers@),
            authorities: records_view(self.authorities@),
            additionals: records_view(self.additionals@),
        }
    }
}

/// Every question is well formed.
pub open spec fn questions_ok(questions: Seq<QuestionView>) -> bool {
    forall|i: int| 0 <= i < questions.len() ==> question_ok(#[trigger] questions[i])
}

/// Every record is well formed.
pub open spec fn records_ok(records: Seq<RecordView>) -> bool {
    forall|i: int| 0 <= i < records.len() ==> record_ok(#[trigger] records[i])
}

/// A message is well formed if its flags fit their bits, no section has
/// more than 65535 entries, and every entry is well formed.
pub open spec fn message_ok(message: MessageView) -> bool {
    &&& flags_ok(message.flags)
    &&& message.questions.len() <= MAX_SECTION_LEN
    &&& message.answers.len() <= MAX_SECTION_LEN
    &&& message.authorities.len() <= MAX_SECTION_LEN
    &&& message.additionals.len() <= MAX_SECTION_LEN
    &&& questions_ok(message.questions)
    &&& records_ok(message.answers)
    &&& records_ok(message.authorities)
    &&& records_ok(message.additionals)
}

/// The wire forms of the questions, one behind the other.
pub open spec fn encode_questions(questions: Seq<QuestionView>) -> Seq<u8>
    decreases questions.len(),
{
    if questions.len() == 0 {
        Seq::empty()
    } else {
        encode_questions(questions.drop_last()) + encode_question(questions.last())
    }
}

/// The wire forms of the records, one behind the other.
pub open spec fn encode_records(records: Seq<RecordView>) -> Seq<u8>
    decreases records.len(),
{
    if records.len() == 0 {
        Seq::empty()
    } else {
        encode_records(records.drop_last()) + encode_record(records.last())
    }
}

/// The twelve bytes of the header.
pub open spec fn encode_header(message: MessageView) -> Seq<u8> {
    u16_bytes(message.id) + (u16_bytes(flags_word(message.flags) as u16) + (u16_bytes(
        message.questions.len() as u16,
    ) + (u16_bytes(message.answers.len() as u16) + (u16_bytes(message.authorities.len() as u16)
        + u16_bytes(message.additionals.len() as u16)))))
}

/// The wire form of a message, names uncompressed.
pub open spec fn encode_message(message: MessageView) -> Seq<u8> {
    encode_header(message) + (encode_questions(message.questions) + (encode_records(
        message.answers,
    ) + (encode_records(message.authorities) + encode_records(message.additionals))))
}

/// The `count` questions read from `pos` on, and the place behind them.
pub open spec fn parse_questions(bytes: Seq<u8>, pos: int, count: nat) -> Option<
    (Seq<QuestionView>, int),
>
    decreases count,
{
    if count == 0 {
        Some((Seq::empty(), pos))
    } else {
        match parse_question(bytes, pos) {
            Some((first, next)) => match parse_questions(bytes, next, (count - 1) as nat) {
                Some((rest, end)) => Some((seq![first] + rest, end)),
                None => None,
            },
            None => None,
        }
    }
}

/// The `count` records read from `pos` on, and the place behind them.
pub open spec fn parse_records(bytes: Seq<u8>, pos: int, count: nat) -> Option<
    (Seq<RecordView>, int),
>
    decreases count,
{
    if count == 0 {
        Some((Seq::empty(), pos))
    } else {
        match parse_record(bytes, pos) {
            Some((first, next)) => match parse_records(bytes, next, (count - 1) as nat) {
                Some((rest, end)) => Some((seq![first] + rest, end)),
                None => None,
            },
            None => None,
        }
    }
}

/// The message that `bytes` hold, if they hold one: a header of twelve
/// bytes, then as many questions and records as it announces. Bytes behind
/// the last record are not looked at.
pub open spec fn parse_message(bytes: Seq<u8>) -> Option<MessageView> {
    if bytes.len() < HEADER_LEN {
        None
    } else {
        match parse_questions(bytes, HEADER_LEN as int, u16_at(bytes, 4) as nat) {
            Some((questions, after_questions)) => match parse_records(bytes, after_questions, u16_at(bytes, 6) as nat) {
                Some((answers, after_answers)) => match parse_records(bytes, after_answers, u16_at(bytes, 8) as nat) {
                    Some((authorities, after_authorities)) => match parse_records(
                        bytes,
                        after_authorities,
                        u16_at(bytes, 10) as nat,
                    ) {
                        Some((additionals, _)) => Some(
                            MessageView {
                                id: u16_at(bytes, 0),
                                flags: flags_of(u16_at(bytes, 2)),
                                questions,
                                answers,
                                authorities,
                                additionals,
                            },
                        ),
                        None => None,
                    },
                    None => None,
                },
                None => None,
            },
            None => None,
        }
    }
}

/// What the reading of a section gives once the rest of it, `inner`, is
/// known: `done` are the questions read so far.
pub open spec fn resume_questions(
    done: Seq<QuestionView>,
    inner: Option<(Seq<QuestionView>, int)>,
) -> Option<(Seq<QuestionView>, int)> {
    match inner {
        Some((rest, end)) => Some((done + rest, end)),
        None => None,
    }
}

/// What the reading of a section gives once the rest of it, `inner`, is
/// known: `done` are the records read so far.
pub open spec fn resume_records(
    done: Seq<RecordView>,
    inner: Option<(Seq<RecordView>, int)>,
) -> Option<(Seq<RecordView>, int)> {
    match inner {
        Some((rest, end)) => Some((done + rest, end)),
        None => None,
    }
}

/// The wire form of questions starts with that of the first one.
pub proof fn lemma_encode_questions_first(questions: Seq<QuestionView>)
    requires
        questions.len() > 0,
    ensures
        encode_questions(questions) == encode_question(questions[0]) + encode_questions(
            questions.drop_first(),
        ),
    decreases questions.len(),
{
    let init = questions.drop_last();
    let tail = questions.drop_first();
    if questions.len() == 1 {
        assert(encode_questions(init) =~= Seq::<u8>::empty());
        assert(encode_questions(tail) =~= Seq::<u8>::empty());
        assert(encode_questions(questions) =~= encode_question(questions[0]) + encode_questions(
            tail,
        ));
    } else {
        lemma_encode_questions_first(init);
        assert(init.drop_first() =~= tail.drop_last());
        assert(init[0] == questions[0]);
        assert(tail.last() == questions.last());
        assert(encode_questions(questions) =~= encode_question(questions[0]) + encode_questions(
            tail,
        ));
    }
}

/// The wire form of records starts with that of the first one.
pub proof fn lemma_encode_records_first(records: Seq<RecordView>)
    requires
        records.len() > 0,
    ensures
        encode_records(records) == encode_record(records[0]) + encode_records(
            records.drop_first(),
        ),
    decreases records.len(),
{
    let init = records.drop_last();
    let tail = records.drop_first();
    if records.len() == 1 {
        assert(encode_records(init) =~= Seq::<u8>::empty());
        assert(encode_records(tail) =~= Seq::<u8>::empty());
        assert(encode_records(records) =~= encode_record(records[0]) + encode_records(tail));
    } else {
        lemma_encode_records_first(init);
        assert(init.drop_first() =~= tail.drop_last());
        assert(init[0] == records[0]);
        assert(tail.last() == records.last());
        assert(encode_records(records) =~= encode_record(records[0]) + encode_records(tail));
    }
}

/// Questions that were read are as many as asked for, well formed, and end
/// inside the message.
pub proof fn lemma_parsed_questions_ok(bytes: Seq<u8>, pos: int, count: nat)
    requires
        0 <= pos <= bytes.len(),
        parse_questions(bytes, pos, count) is Some,
    ensures
        ({
            let (questions, end) = parse_questions(bytes, pos, count)->0;
            &&& questions.len() == count
            &&& questions_ok(questions)
            &&& pos <= end <= bytes.len()
        }),
    decreases count,
{
    if count > 0 {
        lemma_parsed_question_ok(bytes, pos);
        let (first, next) = parse_question(bytes, pos)->0;
        lemma_parsed_questions_ok(bytes, next, (count - 1) as nat);
        let (rest, end) = parse_questions(bytes, next, (count - 1) as nat)->0;
        let all = seq![first] + rest;
        assert forall|i: int| 0 <= i < all.len() implies question_ok(#[trigger] all[i]) by {
            if i > 0 {
                assert(all[i] == rest[i - 1]);
            }
        }
    }
}

/// Records that were read are as many as asked for, well formed, and end
/// inside the message.
pub proof fn lemma_parsed_records_ok(bytes: Seq<u8>, pos: int, count: nat)
    requires
        0 <= pos <= bytes.len(),
        parse_records(bytes, pos, count) is Some,
    ensures
        ({
            let (records, end) = parse_records(bytes, pos, count)->0;
            &&& records.len() == count
            &&& records_ok(records)
            &&& pos <= end <= bytes.len()
        }),
    decreases count,
{
    if count > 0 {
        lemma_parsed_record_ok(bytes, pos);
        let (first, next) = parse_record(bytes, pos)->0;
        lemma_parsed_records_ok(bytes, next, (count - 1) as nat);
        let (rest, end) = parse_records(bytes, next, (count - 1) as nat)->0;
        let all = seq![first] + rest;
        assert forall|i: int| 0 <= i < all.len() implies record_ok(#[trigger] all[i]) by {
            if i > 0 {
                assert(all[i] == rest[i - 1]);
            }
        }
    }
}

/// Reading the wire forms of well-formed questions gives them back.
pub proof fn lemma_parse_encoded_questions(bytes: Seq<u8>, pos: int, questions: Seq<QuestionView>)
    requires
        questions_ok(questions),
        0 <= pos,
        pos + encode_questions(questions).len() <= bytes.len(),
        bytes.subrange(pos, pos + encode_questions(questions).len()) == encode_questions(
            questions,
        ),
    ensures
        parse_questions(bytes, pos, questions.len()) == Some(
            (questions, pos + encode_questions(questions).len()),
        ),
    decreases questions.len(),
{
    if questions.len() == 0 {
        assert(questions =~= Seq::<QuestionView>::empty());
    } else {
        let first = questions[0];
        let rest = questions.drop_first();
        lemma_encode_questions_first(questions);
        lemma_split_at(bytes, pos, encode_question(first), encode_questions(rest));
        lemma_parse_encoded_question(bytes, pos, first);
        assert forall|i: int| 0 <= i < rest.len() implies question_ok(#[trigger] rest[i]) by {
            assert(rest[i] == questions[i + 1]);
        }
        lemma_parse_encoded_questions(bytes, pos + encode_question(first).len(), rest);
        assert(seq![first] + rest =~= questions);
    }
}

/// Reading the wire forms of well-formed records gives them back.
pub proof fn lemma_parse_encoded_records(bytes: Seq<u8>, pos: int, records: Seq<RecordView>)
    requires
        records_ok(records),
        0 <= pos,
        pos + encode_records(records).len() <= bytes.len(),
        bytes.subrange(pos, pos + encode_records(records).len()) == encode_records(records),
    ensures
        parse_records(bytes, pos, records.len()) == Some(
            (records, pos + encode_records(records).len()),
        ),
    decreases records.len(),
{
    if records.len() == 0 {
        assert(records =~= Seq::<RecordView>::empty());
    } else {
        let first = records[0];
        let rest = records.drop_first();
        lemma_encode_records_first(records);
        lemma_split_at(bytes, pos, encode_record(first), encode_records(rest));
        lemma_parse_encoded_record(bytes, pos, first);
        assert forall|i: int| 0 <= i < rest.len() implies record_ok(#[trigger] rest[i]) by {
            assert(rest[i] == records[i + 1]);
        }
        lemma_parse_encoded_records(bytes, pos + encode_record(first).len(), rest);
        assert(seq![first] + rest =~= records);
    }
}

/// A message that was read is well formed.
pub proof fn lemma_parsed_message_ok(bytes: Seq<u8>)
    requires
        parse_message(bytes) is Some,
    ensures
        message_ok(parse_message(bytes)->0),
{
    lemma_flags_of_ok(u16_at(bytes, 2));
    lemma_parsed_questions_ok(bytes, HEADER_LEN as int, u16_at(bytes, 4) as nat);
    let (questions, after_questions) = parse_questions(bytes, HEADER_LEN as int, u16_at(bytes, 4) as nat)->0;
    lemma_parsed_records_ok(bytes, after_questions, u16_at(bytes, 6) as nat);
    let (answers, after_answers) = parse_records(bytes, after_questions, u16_at(bytes, 6) as nat)->0;
    lemma_parsed_records_ok(bytes, after_answers, u16_at(bytes, 8) as nat);
    let (authorities, after_authorities) = parse_records(bytes, after_answers, u16_at(bytes, 8) as nat)->0;
    lemma_parsed_records_ok(bytes, after_authorities, u16_at(bytes, 10) as nat);
}

/// The header has twelve bytes.
pub proof fn lemma_encode_header_len(message: MessageView)
    ensures
        encode_header(message).len() == HEADER_LEN,
{
    lemma_be_bytes_len(message.id as nat, 2);
    lemma_be_bytes_len((flags_word(message.flags) as u16) as nat, 2);
    lemma_be_bytes_len((message.questions.len() as u16) as nat, 2);
    lemma_be_bytes_len((message.answers.len() as u16) as nat, 2);
    lemma_be_bytes_len((message.authorities.len() as u16) as nat, 2);
    lemma_be_bytes_len((message.additionals.len() as u16) as nat, 2);
}

/// Reading the wire form of a well-formed message gives the message back.
pub proof fn lemma_parse_encoded_message(message: MessageView)
    requires
        message_ok(message),
    ensures
        parse_message(encode_message(message)) == Some(message),
{
    let bytes = encode_message(message);
    let header = encode_header(message);
    let qd = encode_questions(message.questions);
    let an = encode_records(message.answers);
    let ns = encode_records(message.authorities);
    let ar = encode_records(message.additionals);
    lemma_encode_header_len(message);
    assert(bytes.subrange(0, bytes.len() as int) =~= bytes);
    lemma_split_at(bytes, 0, header, qd + (an + (ns + ar)));
    lemma_split_at(bytes, 12, qd, an + (ns + ar));
    let after_questions: int = 12int + qd.len();
    let after_answers: int = after_questions + an.len();
    let after_authorities: int = after_answers + ns.len();
    lemma_split_at(bytes, after_questions, an, ns + ar);
    lemma_split_at(bytes, after_answers, ns, ar);
    // the six fields of the header
    let f0 = u16_bytes(message.id);
    let f1 = u16_bytes(flags_word(message.flags) as u16);
    let f2 = u16_bytes(message.questions.len() as u16);
    let f3 = u16_bytes(message.answers.len() as u16);
    let f4 = u16_bytes(message.authorities.len() as u16);
    let f5 = u16_bytes(message.additionals.len() as u16);
    lemma_be_bytes_len(message.id as nat, 2);
    lemma_be_bytes_len((flags_word(message.flags) as u16) as nat, 2);
    lemma_be_bytes_len((message.questions.len() as u16) as nat, 2);
    lemma_be_bytes_len((message.answers.len() as u16) as nat, 2);
    lemma_be_bytes_len((message.authorities.len() as u16) as nat, 2);
    lemma_be_bytes_len((message.additionals.len() as u16) as nat, 2);
    lemma_split_at(bytes, 0, f0, f1 + (f2 + (f3 + (f4 + f5))));
    lemma_split_at(bytes, 2, f1, f2 + (f3 + (f4 + f5)));
    lemma_split_at(bytes, 4, f2, f3 + (f4 + f5));
    lemma_split_at(bytes, 6, f3, f4 + f5);
    lemma_split_at(bytes, 8, f4, f5);
    lemma_u16_at(bytes, 0, message.id);
    lemma_u16_at(bytes, 2, flags_word(message.flags) as u16);
    lemma_u16_at(bytes, 4, message.questions.len() as u16);
    lemma_u16_at(bytes, 6, message.answers.len() as u16);
    lemma_u16_at(bytes, 8, message.authorities.len() as u16);
    lemma_u16_at(bytes, 10, message.additionals.len() as u16);
    lemma_flags_of_word(message.flags);
    lemma_parse_encoded_questions(bytes, 12, message.questions);
    lemma_parse_encoded_records(bytes, after_questions, message.answers);
    lemma_parse_encoded_records(bytes, after_answers, message.authorities);
    lemma_parse_encoded_records(bytes, after_authorities, message.additionals);
}

/// A message whose first question begins with a compression pointer that
/// does not point back before the question is refused.
pub proof fn lemma_forward_pointer_refused(bytes: Seq<u8>)
    requires
        bytes.len() >= HEADER_LEN + 2,
        u16_at(bytes, 4) >= 1,
        bytes[HEADER_LEN as int] >= crate::name_wire::POINTER_TAG,
        (bytes[HEADER_LEN as int] - crate::name_wire::POINTER_TAG) * 256 + bytes[HEADER_LEN + 1]
            >= HEADER_LEN,
    ensures
        parse_message(bytes) is None,
{
    crate::name_wire::lemma_forward_pointer_refused(bytes, HEADER_LEN as int);
}

/// Writing a message that was read and reading it again gives the same
/// message: the same id, flags, counts and sections.
pub proof fn lemma_round_trip(bytes: Seq<u8>)
    requires
        parse_message(bytes) is Some,
    ensures
        parse_message(encode_message(parse_message(bytes)->0)) == parse_message(bytes),
{
    lemma_parsed_message_ok(bytes);
    lemma_parse_encoded_message(parse_message(bytes)->0);
}

/// The error of a message that cannot be read: its header is cut short, a
/// label or a record reaches past the end, a section ends before the count
/// in the header is reached, the data of a known type does not fill its
/// length, or a compression pointer does not point back.
#[derive(Clone, Copy, Debug, PartialEq, Eq)]
pub struct MalformedMessage;

impl Flags {
    /// The flags that the 16 bits `word` spell.
    pub fn from_word(word: u16) -> (flags: Flags)
        ensures
            flags == flags_of(word),
            flags_ok(flags),
    {
        Flags {
            response: word / 32768 == 1,
            opcode: ((word / 2048) % 16) as u8,
            authoritative: (word / 1024) % 2 == 1,
            truncated: (word / 512) % 2 == 1,
            recursion_desired: (word / 256) % 2 == 1,
            recursion_available: (word / 128) % 2 == 1,
            reserved: ((word / 16) % 8) as u8,
            rcode: (word % 16) as u8,
        }
    }

    /// Whether each field fits its bits.
    pub fn is_valid(&self) -> (ok: bool)
        ensures
            ok == flags_ok(*self),
    {
        self.opcode < 16 && self.reserved < 8 && self.rcode < 16
    }

    /// The 16 bits of these flags.
    pub fn to_word(&self) -> (word: u16)
        requires
            flags_ok(*self),
        ensures
            word == flags_word(*self),
    {
        let mut word: u16 = self.opcode as u16 * 2048 + self.reserved as u16 * 16
            + self.rcode as u16;
        if self.response {
            word = word + 32768;
        }
        if self.authoritative {
            word = word + 1024;
        }
        if self.truncated {
            word = word + 512;
        }
        if self.recursion_desired {
            word = word + 256;
        }
        if self.recursion_available {
            word = word + 128;
        }
        word
    }

    /// The flags of a plain query: a standard query that asks for recursion.
    pub fn query() -> (flags: Flags)
        ensures
            flags == query_flags(),
    {
        Flags {
            response: false,
            opcode: 0,
            authoritative: false,
            truncated: false,
            recursion_desired: true,
            recursion_available: false,
            reserved: 0,
            rcode: RCODE_NO_ERROR,
        }
    }

    /// The flags of a response made here, with the response code `rcode`.
    pub fn reply(recursion_desired: bool, rcode: u8) -> (flags: Flags)
        ensures
            flags == reply_flags(recursion_desired, rcode),
    {
        Flags {
            response: true,
            opcode: 0,
            authoritative: false,
            truncated: false,
            recursion_desired,
            recursion_available: true,
            reserved: 0,
            rcode,
        }
    }
}

/// The flags of a plain query: a standard query that asks for recursion.
pub open spec fn query_flags() -> Flags {
    Flags {
        response: false,
        opcode: 0,
        authoritative: false,
        truncated: false,
        recursion_desired: true,
        recursion_available: false,
        reserved: 0,
        rcode: RCODE_NO_ERROR,
    }
}

/// The flags of a response made here: a response to a standard query, with
/// recursion available, that repeats whether recursion was asked for.
pub open spec fn reply_flags(recursion_desired: bool, rcode: u8) -> Flags {
    Flags {
        response: true,
        opcode: 0,
        authoritative: false,
        truncated: false,
        recursion_desired,
        recursion_available: true,
        reserved: 0,
        rcode,
    }
}

/// Reads `count` questions from `pos` on.
pub fn decode_questions(bytes: &[u8], pos: usize, count: u16) -> (result: Option<
    (Vec<Question>, usize),
>)
    requires
        pos <= bytes@.len(),
    ensures
        result is Some == parse_questions(bytes@, pos as int, count as nat) is Some,
        result is Some ==> {
            let (questions, end) = result->0;
            &&& parse_questions(bytes@, pos as int, count as nat) == Some(
                (questions_view(questions@), end as int),
            )
            &&& questions_ok(questions_view(questions@))
            &&& questions@.len() == count
            &&& pos <= end <= bytes@.len()
        },
{
    let ghost whole = parse_questions(bytes@, pos as int, count as nat);
    let mut questions: Vec<Question> = Vec::new();
    let mut at: usize = pos;
    let mut i: u16 = 0;
    proof {
        let inner = parse_questions(bytes@, at as int, count as nat);
        if inner is Some {
            assert(questions_view(questions@) + (inner->0).0 =~= (inner->0).0);
        }
    }
    while i < count
        invariant
            i <= count,
            questions@.len() == i,
            pos <= at <= bytes@.len(),
            whole == parse_questions(bytes@, pos as int, count as nat),
            whole == resume_questions(
                questions_view(questions@),
                parse_questions(bytes@, at as int, (count - i) as nat),
            ),
            questions_ok(questions_view(questions@)),
        decreases count - i,
    {
        match Question::decode(bytes, at) {
            Some((question, next)) => {
                let ghost done = questions_view(questions@);
                proof {
                    let inner = parse_questions(bytes@, next as int, (count - i - 1) as nat);
                    if inner is Some {
                        assert(done + (seq![question@] + (inner->0).0) =~= done.push(question@)
                            + (inner->0).0);
                    }
                }
                questions.push(question);
                assert(questions_view(questions@) =~= done.push(question@));
                at = next;
                i = i + 1;
            },
            None => {
                return None;
            },
        }
    }
    proof {
        assert(questions_view(questions@) + Seq::<QuestionView>::empty() =~= questions_view(
            questions@,
        ));
    }
    Some((questions, at))
}

/// Reads `count` records from `pos` on.
pub fn decode_records(bytes: &[u8], pos: usize, count: u16) -> (result: Option<
    (Vec<ResourceRecord>, usize),
>)
    requires
        pos <= bytes@.len(),
    ensures
        result is Some == parse_records(bytes@, pos as int, count as nat) is Some,
        result is Some ==> {
            let (records, end) = result->0;
            &&& parse_records(bytes@, pos as int, count as nat) == Some(
                (records_view(records@), end as int),
            )
            &&& records_ok(records_view(records@))
            &&& records@.len() == count
            &&& pos <= end <= bytes@.len()
        },
{
    let ghost whole = parse_records(bytes@, pos as int, count as nat);
    let mut records: Vec<ResourceRecord> = Vec::new();
    let mut at: usize = pos;
    let mut i: u16 = 0;
    proof {
        let inner = parse_records(bytes@, at as int, count as nat);
        if inner is Some {
            assert(records_view(records@) + (inner->0).0 =~= (inner->0).0);
        }
    }
    while i < count
        invariant
            i <= count,
            records@.len() == i,
            pos <= at <= bytes@.len(),
            whole == parse_records(bytes@, pos as int, count as nat),
            whole == resume_records(
                records_view(records@),
                parse_records(bytes@, at as int, (count - i) as nat),
            ),
            records_ok(records_view(records@)),
        decreases count - i,
    {
        match ResourceRecord::decode(bytes, at) {
            Some((record, next)) => {
                let ghost done = records_view(records@);
                proof {
                    let inner = parse_records(bytes@, next as int, (count - i - 1) as nat);
                    if inner is Some {
                        assert(done + (seq![record@] + (inner->0).0) =~= done.push(record@) + (
                        inner->0).0);
                    }
                }
                records.push(record);
                assert(records_view(records@) =~= done.push(record@));
                at = next;
                i = i + 1;
            },
            None => {
                return None;
            },
        }
    }
    proof {
        assert(records_view(records@) + Seq::<RecordView>::empty() =~= records_view(records@));
    }
    Some((records, at))
}

/// Whether every question is well formed.
pub fn questions_are_valid(questions: &Vec<Question>) -> (ok: bool)
    ensures
        ok == questions_ok(questions_view(questions@)),
{
    let mut i: usize = 0;
    while i < questions.len()
        invariant
            i <= questions@.len(),
            forall|j: int| 0 <= j < i ==> question_ok(#[trigger] questions_view(questions@)[j]),
        decreases questions@.len() - i,
    {
        if !questions[i].is_valid() {
            assert(!question_ok(questions_view(questions@)[i as int]));
            return false;
        }
        i = i + 1;
    }
    true
}

/// Whether every record is well formed.
pub fn records_are_valid(records: &Vec<ResourceRecord>) -> (ok: bool)
    ensures
        ok == records_ok(records_view(records@)),
{
    let mut i: usize = 0;
    while i < records.len()
        invariant
            i <= records@.len(),
            forall|j: int| 0 <= j < i ==> record_ok(#[trigger] records_view(records@)[j]),
        decreases records@.len() - i,
    {
        if !records[i].is_valid() {
            assert(!record_ok(records_view(records@)[i as int]));
            return false;
        }
        i = i + 1;
    }
    true
}

/// Appends the wire forms of the questions to `out`.
pub fn encode_questions_into(questions: &Vec<Question>, out: &mut Vec<u8>)
    requires
        questions_ok(questions_view(questions@)),
    ensures
        final(out)@ == old(out)@ + encode_questions(questions_view(questions@)),
{
    let ghost start = out@;
    let ghost all = questions_view(questions@);
    let mut i: usize = 0;
    assert(out@ =~= start + encode_questions(all.take(0)));
    while i < questions.len()
        invariant
            i <= questions@.len(),
            all == questions_view(questions@),
            questions_ok(all),
            out@ == start + encode_questions(all.take(i as int)),
        decreases questions@.len() - i,
    {
        assert(question_ok(all[i as int]));
        questions[i].encode_into(out);
        proof {
            assert(all.take(i + 1).drop_last() =~= all.take(i as int));
            assert(all.take(i + 1).last() == all[i as int]);
            assert(out@ =~= start + encode_questions(all.take(i + 1)));
        }
        i = i + 1;
    }
    assert(all.take(i as int) =~= all);
}

/// Appends the wire forms of the records to `out`.
pub fn encode_records_into(records: &Vec<ResourceRecord>, out: &mut Vec<u8>)
    requires
        records_ok(records_view(records@)),
    ensures
        final(out)@ == old(out)@ + encode_records(records_view(records@)),
{
    let ghost start = out@;
    let ghost all = records_view(records@);
    let mut i: usize = 0;
    assert(out@ =~= start + encode_records(all.take(0)));
    while i < records.len()
        invariant
            i <= records@.len(),
            all == records_view(records@),
            records_ok(all),
            out@ == start + encode_records(all.take(i as int)),
        decreases records@.len() - i,
    {
        assert(record_ok(all[i as int]));
        records[i].encode_into(out);
        proof {
            assert(all.take(i + 1).drop_last() =~= all.take(i as int));
            assert(all.take(i + 1).last() == all[i as int]);
            assert(out@ =~= start + encode_records(all.take(i + 1)));
        }
        i = i + 1;
    }
    assert(all.take(i as int) =~= all);
}

impl Message {
    /// Reads a message. Bytes behind its last record are not looked at.
    pub fn decode(bytes: &[u8]) -> (result: Result<Message, MalformedMessage>)
        ensures
            result is Ok == parse_message(bytes@) is Some,
            result is Ok ==> parse_message(bytes@) == Some(result->Ok_0@),
            result is Ok ==> message_ok(result->Ok_0@),
    {
        if bytes.len() < HEADER_LEN {
            return Err(MalformedMessage);
        }
        let id = read_u16(bytes, 0);
        let flags = Flags::from_word(read_u16(bytes, 2));
        let question_count = read_u16(bytes, 4);
        let answer_count = read_u16(bytes, 6);
        let authority_count = read_u16(bytes, 8);
        let additional_count = read_u16(bytes, 10);
        let (questions, after_questions) = match decode_questions(bytes, HEADER_LEN, question_count) {
            Some(read) => read,
            None => {
                return Err(MalformedMessage);
            },
        };
        let (answers, after_answers) = match decode_records(bytes, after_questions, answer_count) {
            Some(read) => read,
            None => {
                return Err(MalformedMessage);
            },
        };
        let (authorities, after_authorities) = match decode_records(bytes, after_answers, authority_count) {
            Some(read) => read,
            None => {
                return Err(MalformedMessage);
            },
        };
        let (additionals, _) = match decode_records(bytes, after_authorities, additional_count) {
            Some(read) => read,
            None => {
                return Err(MalformedMessage);
            },
        };
        Ok(Message { id, flags, questions, answers, authorities, additionals })
    }

    /// Whether this message is well formed, so that it has a wire form.
    pub fn is_valid(&self) -> (ok: bool)
        ensures
            ok == message_ok(self@),
    {
        self.flags.is_valid() && self.questions.len() <= MAX_SECTION_LEN && self.answers.len()
            <= MAX_SECTION_LEN && self.authorities.len() <= MAX_SECTION_LEN
            && self.additionals.len() <= MAX_SECTION_LEN && questions_are_valid(&self.questions)
            && records_are_valid(&self.answers) && records_are_valid(&self.authorities)
            && records_are_valid(&self.additionals)
    }

    /// The wire form of this message, names uncompressed; none if the
    /// message is not well formed.
    pub fn encode(&self) -> (bytes: Option<Vec<u8>>)
        ensures
            bytes is Some == message_ok(self@),
            bytes is Some ==> bytes->0@ == encode_message(self@),
    {
        if !self.is_valid() {
            return None;
        }
        let mut out: Vec<u8> = Vec::new();
        write_u16(&mut out, self.id);
        write_u16(&mut out, self.flags.to_word());
        write_u16(&mut out, self.questions.len() as u16);
        write_u16(&mut out, self.answers.len() as u16);
        write_u16(&mut out, self.authorities.len() as u16);
        write_u16(&mut out, self.additionals.len() as u16);
        assert(out@ =~= encode_header(self@));
        encode_questions_into(&self.questions, &mut out);
        encode_records_into(&self.answers, &mut out);
        encode_records_into(&self.authorities, &mut out);
        encode_records_into(&self.additionals, &mut out);
        assert(out@ =~= encode_message(self@));
        Some(out)
    }
}

/// The query for `question` under the transaction id `id`: a standard query
/// that asks for recursion and holds nothing else.
pub open spec fn query_message(id: u16, question: QuestionView) -> MessageView {
    MessageView {
        id,
        flags: query_flags(),
        questions: seq![question],
        answers: Seq::empty(),
        authorities: Seq::empty(),
        additionals: Seq::empty(),
    }
}

/// The response made here to `question` under the transaction id `id`,
/// with the response code `rcode` and the answers `answers`.
pub open spec fn reply_message(
    id: u16,
    recursion_desired: bool,
    question: QuestionView,
    rcode: u8,
    answers: Seq<RecordView>,
) -> MessageView {
    MessageView {
        id,
        flags: reply_flags(recursion_desired, rcode),
        questions: seq![question],
        answers,
        authorities: Seq::empty(),
        additionals: Seq::empty(),
    }
}

/// A response made here to a well-formed question is well formed, if its
/// response code and its answers are.
pub proof fn lemma_reply_message_ok(
    id: u16,
    recursion_desired: bool,
    question: QuestionView,
    rcode: u8,
    answers: Seq<RecordView>,
)
    requires
        question_ok(question),
        rcode < 16,
        records_ok(answers),
        answers.len() <= MAX_SECTION_LEN,
    ensures
        message_ok(reply_message(id, recursion_desired, question, rcode, answers)),
        message_ok(query_message(id, question)),
{
}

impl Message {
    /// The query for `question` under the transaction id `id`.
    pub fn query(id: u16, question: Question) -> (message: Message)
        ensures
            message@ == query_message(id, question@),
    {
        let mut questions: Vec<Question> = Vec::new();
        questions.push(question);
        let message = Message {
            id,
            flags: Flags::query(),
            questions,
            answers: Vec::new(),
            authorities: Vec::new(),
            additionals: Vec::new(),
        };
        assert(message@.questions =~= seq![question@]);
        assert(message@.answers =~= Seq::<RecordView>::empty());
        assert(message@.authorities =~= Seq::<RecordView>::empty());
        assert(message@.additionals =~= Seq::<RecordView>::empty());
        message
    }

    /// The response to `question` under the transaction id `id`, with the
    /// response code `rcode` and the answers `answers`.
    pub fn reply(
        id: u16,
        recursion_desired: bool,
        question: Question,
        rcode: u8,
        answers: Vec<ResourceRecord>,
    ) -> (message: Message)
        ensures
            message@ == reply_message(
                id,
                recursion_desired,
                question@,
                rcode,
                records_view(answers@),
            ),
    {
        let mut questions: Vec<Question> = Vec::new();
        questions.push(question);
        let message = Message {
            id,
            flags: Flags::reply(recursion_desired, rcode),
            questions,
            answers,
            authorities: Vec::new(),
            additionals: Vec::new(),
        };
        assert(message@.questions =~= seq![question@]);
        assert(message@.authorities =~= Seq::<RecordView>::empty());
        assert(message@.additionals =~= Seq::<RecordView>::empty());
        message
    }
}

} // verus!
