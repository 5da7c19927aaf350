//! The question of a query: a name, a type and a class.

use crate::name::{name_ok, wire_len, DomainName};
use crate::name_wire::{
    decode_name, encode_name, encode_name_into, lemma_encode_name_len, lemma_parse_encoded_name,
    lemma_parsed_name_ok, parse_name,
};
use crate::wire::{lemma_split_at, lemma_u16_at, read_u16, u16_at, u16_bytes, write_u16};
use vstd::prelude::*;

verus! {

/// The type of a host address record.
pub const TYPE_A: u16 = 1;

/// The type of a name server record.
pub const TYPE_NS: u16 = 2;

/// The type of a canonical name record.
pub const TYPE_CNAME: u16 = 5;

/// The type of a pointer record.
pub const TYPE_PTR: u16 = 12;

/// The type of a mail exchange record.
pub const TYPE_MX: u16 = 15;

/// The type of an IPv6 host address record.
pub const TYPE_AAAA: u16 = 28;

/// The Internet class.
pub const CLASS_IN: u16 = 1;

/// A question: what is asked about which name.
#[derive(Clone, Debug, PartialEq, Eq)]
pub struct Question {
    pub name: DomainName,
    pub qtype: u16,
    pub qclass: u16,
}

/// What a question holds.
pub struct QuestionView {
    pub name: Seq<Seq<u8>>,
    pub qtype: u16,
    pub qclass: u16,
}

impl View for Question {
    type V = QuestionView;

    open spec fn view(&self) -> QuestionView {
        QuestionView { name: self.name@, qtype: self.qtype, qclass: self.qclass }
    }
}

/// A question is well formed if its name is.
pub open spec fn question_ok(question: QuestionView) -> bool {
    name_ok(question.name)
}

/// The wire form of a question.
pub open spec fn encode_question(question: QuestionView) -> Seq<u8> {
    encode_name(question.name) + (u16_bytes(question.qtype) + u16_bytes(question.qclass))
}

/// The question read at `pos`, and the place behind it.
pub open spec fn parse_question(bytes: Seq<u8>, pos: int) -> Option<(QuestionView, int)> {
    match parse_name(bytes, pos) {
        Some((name, end)) => if end + 4 <= bytes.len() {
            Some(
                (
                    QuestionView {
                        name,
                        qtype: u16_at(bytes, end),
                        qclass: u16_at(bytes, end + 2),
                    },
                    end + 4,
                ),
            )
        } else {
            None
        },
        None => None,
    }
}

/// A question that was read is well formed and ends inside the message.
pub proof fn lemma_parsed_question_ok(bytes: Seq<u8>, pos: int)
    requires
        parse_question(bytes, pos) is Some,
    ensures
        ({
            let (question, end) = parse_question(bytes, pos)->0;
            question_ok(question) && pos < end <= bytes.len()
        }),
{
    lemma_parsed_name_ok(bytes, pos, pos, 255);
}

/// The wire form of a question is four bytes longer than that of its name.
pub proof fn lemma_encode_question_len(question: QuestionView)
    ensures
        encode_question(question).len() == wire_len(question.name) + 4,
{
    lemma_encode_name_len(question.name);
    crate::wire::lemma_be_bytes_len(question.qtype as nat, 2);
    crate::wire::lemma_be_bytes_len(question.qclass as nat, 2);
}

/// Reading the wire form of a well-formed question gives the question back.
pub proof fn lemma_parse_encoded_question(bytes: Seq<u8>, pos: int, question: QuestionView)
    requires
        question_ok(question),
        0 <= pos,
        pos + encode_question(question).len() <= bytes.len(),
        bytes.subrange(pos, pos + encode_question(question).len()) == encode_question(question),
    ensures
        parse_question(bytes, pos) == Some((question, pos + encode_question(question).len())),
{
    let name = encode_name(question.name);
    let kind = u16_bytes(question.qtype);
    let class = u16_bytes(question.qclass);
    lemma_encode_question_len(question);
    lemma_encode_name_len(question.name);
    crate::wire::lemma_be_bytes_len(question.qtype as nat, 2);
    crate::wire::lemma_be_bytes_len(question.qclass as nat, 2);
    lemma_split_at(bytes, pos, name, kind + class);
    let end = pos + name.len();
    lemma_split_at(bytes, end, kind, class);
    lemma_parse_encoded_name(bytes, pos, pos, 255, question.name);
    lemma_u16_at(bytes, end, question.qtype);
    lemma_u16_at(bytes, end + 2, question.qclass);
}

impl Question {
    /// Reads the question at `pos`.
    pub fn decode(bytes: &[u8], pos: usize) -> (result: Option<(Question, usize)>)
        ensures
            result is Some == parse_question(bytes@, pos as int) is Some,
            result is Some ==> {
                let (question, end) = result->0;
                &&& parse_question(bytes@, pos as int) == Some((question@, end as int))
                &&& question_ok(question@)
                &&& pos < end <= bytes@.len()
            },
    {
        match decode_name(bytes, pos) {
            Some((name, end)) => {
                if bytes.len() - end < 4 {
                    return None;
                }
                let qtype = read_u16(bytes, end);
                let qclass = read_u16(bytes, end + 2);
                Some((Question { name, qtype, qclass }, end + 4))
            },
            None => None,
        }
    }

    /// Appends the wire form of this question to `out`.
    pub fn encode_into(&self, out: &mut Vec<u8>)
        requires
            question_ok(self@),
        ensures
            final(out)@ == old(out)@ + encode_question(self@),
    {
        let ghost start = out@;
        encode_name_into(&self.name, out);
        write_u16(out, self.qtype);
        write_u16(out, self.qclass);
        assert(out@ =~= start + encode_question(self@));
    }

    /// Whether this question is well formed.
    pub fn is_valid(&self) -> (ok: bool)
        ensures
            ok == question_ok(self@),
    {
        self.name.is_valid()
    }

    /// A copy of this question.
    pub fn duplicate(&self) -> (copy: Question)
        ensures
            copy@ == self@,
    {
        Question { name: self.name.duplicate(), qtype: self.qtype, qclass: self.qclass }
    }

    /// Whether both questions ask the same.
    pub fn same_as(&self, other: &Question) -> (same: bool)
        ensures
            same == (self@ == other@),
    {
        self.qtype == other.qtype && self.qclass == other.qclass && self.name.same_as(&other.name)
    }
}

} // verus!
