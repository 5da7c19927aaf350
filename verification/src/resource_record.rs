//! Resource records: a name, a type, a class, a time to live and data.

use crate::name::{copy_bytes, name_ok, wire_len, DomainName};
use crate::name_wire::{
    decode_name, encode_name, encode_name_into, lemma_encode_name_len, lemma_parse_encoded_name,
    lemma_parsed_name_ok, parse_name,
};
use crate::question::{TYPE_A, TYPE_AAAA, TYPE_CNAME, TYPE_MX, TYPE_NS, TYPE_PTR};
use crate::wire::{
    lemma_be_bytes_len, lemma_split_at, lemma_u128_at, lemma_u16_at, lemma_u32_at, read_u128,
    read_u16, read_u32, u128_at, u128_bytes, u16_at, u16_bytes, u32_at, u32_bytes, write_u128,
    write_u16, write_u32,
};
use vstd::prelude::*;

verus! {

/// The longest data of a record, in bytes.
pub const MAX_RDATA_LEN: usize = 65535;

/// The data of a record. The types this library knows are read into
/// fields; the data of any other type is kept as it came.
#[derive(Clone, Debug, PartialEq, Eq)]
pub enum RData {
    /// An IPv4 address, for the type A.
    A(u32),
    /// An IPv6 address, for the type AAAA.
    Aaaa(u128),
    /// A name, for the types NS, CNAME and PTR.
    Name(DomainName),
    /// A mail exchange with its preference, for the type MX.
    Mx { preference: u16, exchange: DomainName },
    /// The bytes of a record of any other type.
    Raw(Vec<u8>),
}

/// What the data of a record holds.
pub enum RDataView {
    A(u32),
    Aaaa(u128),
    Name(Seq<Seq<u8>>),
    Mx { preference: u16, exchange: Seq<Seq<u8>> },
    Raw(Seq<u8>),
}

impl View for RData {
    type V = RDataView;

    open spec fn view(&self) -> RDataView {
        match self {
            RData::A(address) => RDataView::A(*address),
            RData::Aaaa(address) => RDataView::Aaaa(*address),
            RData::Name(name) => RDataView::Name(name@),
            RData::Mx { preference, exchange } => RDataView::Mx {
                preference: *preference,
                exchange: exchange@,
            },
            RData::Raw(bytes) => RDataView::Raw(bytes@),
        }
    }
}

/// A resource record.
#[derive(Clone, Debug, PartialEq, Eq)]
pub struct ResourceRecord {
    pub name: DomainName,
    pub rtype: u16,
    pub class: u16,
    pub ttl: u32,
    pub data: RData,
}

/// What a resource record holds.
pub struct RecordView {
    pub name: Seq<Seq<u8>>,
    pub rtype: u16,
    pub class: u16,
    pub ttl: u32,
    pub data: RDataView,
}

impl View for ResourceRecord {
    type V = RecordView;

    open spec fn view(&self) -> RecordView {
        RecordView {
            name: self.name@,
            rtype: self.rtype,
            class: self.class,
            ttl: self.ttl,
            data: self.data@,
        }
    }
}

/// The data of this type is one name.
pub open spec fn holds_name(rtype: u16) -> bool {
    rtype == TYPE_NS || rtype == TYPE_CNAME || rtype == TYPE_PTR
}

/// The data fits the type: a known type has its fields, any other its raw
/// bytes, at most 65535 of them; names in it are well formed.
pub open spec fn rdata_ok(rtype: u16, data: RDataView) -> bool {
    match data {
        RDataView::A(_) => rtype == TYPE_A,
        RDataView::Aaaa(_) => rtype == TYPE_AAAA,
        RDataView::Name(name) => holds_name(rtype) && name_ok(name),
        RDataView::Mx { preference, exchange } => rtype == TYPE_MX && name_ok(exchange),
        RDataView::Raw(bytes) => {
            &&& rtype != TYPE_A
            &&& rtype != TYPE_AAAA
            &&& rtype != TYPE_MX
            &&& !holds_name(rtype)
            &&& bytes.len() <= MAX_RDATA_LEN
        },
    }
}

/// A record is well formed if its name is and its data fits its type.
pub open spec fn record_ok(record: RecordView) -> bool {
    name_ok(record.name) && rdata_ok(record.rtype, record.data)
}

/// The wire form of the data of a record, names uncompressed.
pub open spec fn encode_rdata(data: RDataView) -> Seq<u8> {
    match data {
        RDataView::A(address) => u32_bytes(address),
        RDataView::Aaaa(address) => u128_bytes(address),
        RDataView::Name(name) => encode_name(name),
        RDataView::Mx { preference, exchange } => u16_bytes(preference) + encode_name(exchange),
        RDataView::Raw(bytes) => bytes,
    }
}

/// The data of a record of type `rtype` whose `length` bytes stand at `pos`.
/// The data of a known type must fill those bytes exactly.
pub open spec fn parse_rdata(bytes: Seq<u8>, pos: int, length: int, rtype: u16) -> Option<
    RDataView,
> {
    if rtype == TYPE_A {
        if length == 4 {
            Some(RDataView::A(u32_at(bytes, pos)))
        } else {
            None
        }
    } else if rtype == TYPE_AAAA {
        if length == 16 {
            Some(RDataView::Aaaa(u128_at(bytes, pos)))
        } else {
            None
        }
    } else if holds_name(rtype) {
        match parse_name(bytes, pos) {
            Some((name, end)) => if end == pos + length {
                Some(RDataView::Name(name))
            } else {
                None
            },
            None => None,
        }
    } else if rtype == TYPE_MX {
        if length < 2 {
            None
        } else {
            match parse_name(bytes, pos + 2) {
                Some((exchange, end)) => if end == pos + length {
                    Some(RDataView::Mx { preference: u16_at(bytes, pos), exchange })
                } else {
                    None
                },
                None => None,
            }
        }
    } else {
        Some(RDataView::Raw(bytes.subrange(pos, pos + length)))
    }
}

/// The wire form of a record.
pub open spec fn encode_record(record: RecordView) -> Seq<u8> {
    encode_name(record.name) + (u16_bytes(record.rtype) + (u16_bytes(record.class) + (u32_bytes(
        record.ttl,
    ) + (u16_bytes(encode_rdata(record.data).len() as u16) + encode_rdata(record.data)))))
}

/// The record read at `pos`, and the place behind it.
pub open spec fn parse_record(bytes: Seq<u8>, pos: int) -> Option<(RecordView, int)> {
    match parse_name(bytes, pos) {
        Some((name, end)) => {
            if end + 10 <= bytes.len() {
                let rtype = u16_at(bytes, end);
                let length = u16_at(bytes, end + 8) as int;
                if end + 10 + length <= bytes.len() {
                    match parse_rdata(bytes, end + 10, length, rtype) {
                        Some(data) => Some(
                            (
                                RecordView {
                                    name,
                                    rtype,
                                    class: u16_at(bytes, end + 2),
                                    ttl: u32_at(bytes, end + 4),
                                    data,
                                },
                                end + 10 + length,
                            ),
                        ),
                        None => None,
                    }
                } else {
                    None
                }
            } else {
                None
            }
        },
        None => None,
    }
}

/// The wire form of well-formed data has at most 65535 bytes.
pub proof fn lemma_encode_rdata_len(rtype: u16, data: RDataView)
    requires
        rdata_ok(rtype, data),
    ensures
        encode_rdata(data).len() <= MAX_RDATA_LEN,
        data is A ==> encode_rdata(data).len() == 4,
        data is Aaaa ==> encode_rdata(data).len() == 16,
        data is Name ==> encode_rdata(data).len() == wire_len(data->Name_0),
        data is Mx ==> encode_rdata(data).len() == 2 + wire_len(data->exchange),
{
    match data {
        RDataView::A(address) => {
            lemma_be_bytes_len(address as nat, 4);
        },
        RDataView::Aaaa(address) => {
            lemma_be_bytes_len(address as nat, 16);
        },
        RDataView::Name(name) => {
            lemma_encode_name_len(name);
        },
        RDataView::Mx { preference, exchange } => {
            lemma_be_bytes_len(preference as nat, 2);
            lemma_encode_name_len(exchange);
        },
        RDataView::Raw(bytes) => {},
    }
}

/// The wire form of a record: its name, ten bytes, and its data.
pub proof fn lemma_encode_record_len(record: RecordView)
    ensures
        encode_record(record).len() == wire_len(record.name) + 10 + encode_rdata(
            record.data,
        ).len(),
{
    lemma_encode_name_len(record.name);
    lemma_be_bytes_len(record.rtype as nat, 2);
    lemma_be_bytes_len(record.class as nat, 2);
    lemma_be_bytes_len(record.ttl as nat, 4);
    lemma_be_bytes_len((encode_rdata(record.data).len() as u16) as nat, 2);
}

/// Data that was read fits its type.
pub proof fn lemma_parsed_rdata_ok(bytes: Seq<u8>, pos: int, length: int, rtype: u16)
    requires
        0 <= pos,
        0 <= length <= MAX_RDATA_LEN,
        pos + length <= bytes.len(),
        parse_rdata(bytes, pos, length, rtype) is Some,
    ensures
        rdata_ok(rtype, parse_rdata(bytes, pos, length, rtype)->0),
{
    if rtype == TYPE_A || rtype == TYPE_AAAA {
    } else if holds_name(rtype) {
        lemma_parsed_name_ok(bytes, pos, pos, 255);
    } else if rtype == TYPE_MX {
        lemma_parsed_name_ok(bytes, pos + 2, pos + 2, 255);
    }
}

/// A record that was read is well formed and ends inside the message.
pub proof fn lemma_parsed_record_ok(bytes: Seq<u8>, pos: int)
    requires
        parse_record(bytes, pos) is Some,
    ensures
        ({
            let (record, end) = parse_record(bytes, pos)->0;
            record_ok(record) && pos < end <= bytes.len()
        }),
{
    lemma_parsed_name_ok(bytes, pos, pos, 255);
    let (name, end) = parse_name(bytes, pos)->0;
    let rtype = u16_at(bytes, end);
    let length = u16_at(bytes, end + 8) as int;
    lemma_parsed_rdata_ok(bytes, end + 10, length, rtype);
}

/// Reading the wire form of well-formed data gives the data back.
pub proof fn lemma_parse_encoded_rdata(bytes: Seq<u8>, pos: int, rtype: u16, data: RDataView)
    requires
        rdata_ok(rtype, data),
        0 <= pos,
        pos + encode_rdata(data).len() <= bytes.len(),
        bytes.subrange(pos, pos + encode_rdata(data).len()) == encode_rdata(data),
    ensures
        parse_rdata(bytes, pos, encode_rdata(data).len() as int, rtype) == Some(data),
{
    lemma_encode_rdata_len(rtype, data);
    match data {
        RDataView::A(address) => {
            lemma_u32_at(bytes, pos, address);
        },
        RDataView::Aaaa(address) => {
            lemma_u128_at(bytes, pos, address);
        },
        RDataView::Name(name) => {
            lemma_parse_encoded_name(bytes, pos, pos, 255, name);
        },
        RDataView::Mx { preference, exchange } => {
            lemma_be_bytes_len(preference as nat, 2);
            lemma_encode_name_len(exchange);
            lemma_split_at(bytes, pos, u16_bytes(preference), encode_name(exchange));
            lemma_u16_at(bytes, pos, preference);
            lemma_parse_encoded_name(bytes, pos + 2, pos + 2, 255, exchange);
        },
        RDataView::Raw(raw) => {},
    }
}

/// Reading the wire form of a well-formed record gives the record back.
pub proof fn lemma_parse_encoded_record(bytes: Seq<u8>, pos: int, record: RecordView)
    requires
        record_ok(record),
        0 <= pos,
        pos + encode_record(record).len() <= bytes.len(),
        bytes.subrange(pos, pos + encode_record(record).len()) == encode_record(record),
    ensures
        parse_record(bytes, pos) == Some((record, pos + encode_record(record).len())),
{
    let name = encode_name(record.name);
    let data = encode_rdata(record.data);
    let f1 = u16_bytes(record.rtype);
    let f2 = u16_bytes(record.class);
    let f3 = u32_bytes(record.ttl);
    let f4 = u16_bytes(data.len() as u16);
    lemma_encode_record_len(record);
    lemma_encode_rdata_len(record.rtype, record.data);
    lemma_encode_name_len(record.name);
    lemma_be_bytes_len(record.rtype as nat, 2);
    lemma_be_bytes_len(record.class as nat, 2);
    lemma_be_bytes_len(record.ttl as nat, 4);
    lemma_be_bytes_len((data.len() as u16) as nat, 2);
    let end = pos + name.len();
    lemma_split_at(bytes, pos, name, f1 + (f2 + (f3 + (f4 + data))));
    lemma_split_at(bytes, end, f1, f2 + (f3 + (f4 + data)));
    lemma_split_at(bytes, end + 2, f2, f3 + (f4 + data));
    lemma_split_at(bytes, end + 4, f3, f4 + data);
    lemma_split_at(bytes, end + 8, f4, data);
    lemma_parse_encoded_name(bytes, pos, pos, 255, record.name);
    lemma_u16_at(bytes, end, record.rtype);
    lemma_u16_at(bytes, end + 2, record.class);
    lemma_u32_at(bytes, end + 4, record.ttl);
    lemma_u16_at(bytes, end + 8, data.len() as u16);
    lemma_parse_encoded_rdata(bytes, end + 10, record.rtype, record.data);
}

/// Whether the data of this type is one name.
pub fn type_holds_name(rtype: u16) -> (holds: bool)
    ensures
        holds == holds_name(rtype),
{
    rtype == TYPE_NS || rtype == TYPE_CNAME || rtype == TYPE_PTR
}

impl RData {
    /// Reads the data of a record of type `rtype` from the `length` bytes at
    /// `pos`.
    pub fn decode(bytes: &[u8], pos: usize, length: usize, rtype: u16) -> (result: Option<RData>)
        requires
            length <= MAX_RDATA_LEN,
            pos + length <= bytes@.len(),
        ensures
            result is Some == parse_rdata(bytes@, pos as int, length as int, rtype) is Some,
            result is Some ==> parse_rdata(bytes@, pos as int, length as int, rtype) == Some(
                result->0@,
            ),
            result is Some ==> rdata_ok(rtype, result->0@),
    {
        let total = bytes.len();
        if rtype == TYPE_A {
            if length != 4 {
                return None;
            }
            Some(RData::A(read_u32(bytes, pos)))
        } else if rtype == TYPE_AAAA {
            if length != 16 {
                return None;
            }
            Some(RData::Aaaa(read_u128(bytes, pos)))
        } else if type_holds_name(rtype) {
            match decode_name(bytes, pos) {
                Some((name, end)) => {
                    if end != pos + length {
                        return None;
                    }
                    Some(RData::Name(name))
                },
                None => None,
            }
        } else if rtype == TYPE_MX {
            if length < 2 {
                return None;
            }
            let preference = read_u16(bytes, pos);
            match decode_name(bytes, pos + 2) {
                Some((exchange, end)) => {
                    if end != pos + length {
                        return None;
                    }
                    Some(RData::Mx { preference, exchange })
                },
                None => None,
            }
        } else {
            let mut raw: Vec<u8> = Vec::new();
            let mut i: usize = 0;
            while i < length
                invariant
                    i <= length,
                    pos + length <= total == bytes@.len(),
                    raw@ == bytes@.subrange(pos as int, pos + i),
                decreases length - i,
            {
                raw.push(bytes[pos + i]);
                i = i + 1;
                assert(raw@ =~= bytes@.subrange(pos as int, pos + i));
            }
            Some(RData::Raw(raw))
        }
    }

    /// Whether this data fits the type `rtype`.
    pub fn fits(&self, rtype: u16) -> (ok: bool)
        ensures
            ok == rdata_ok(rtype, self@),
    {
        match self {
            RData::A(_) => rtype == TYPE_A,
            RData::Aaaa(_) => rtype == TYPE_AAAA,
            RData::Name(name) => type_holds_name(rtype) && name.is_valid(),
            RData::Mx { preference, exchange } => rtype == TYPE_MX && exchange.is_valid(),
            RData::Raw(bytes) => {
                rtype != TYPE_A && rtype != TYPE_AAAA && rtype != TYPE_MX && !type_holds_name(
                    rtype,
                ) && bytes.len() <= MAX_RDATA_LEN
            },
        }
    }

    /// Appends the wire form of this data to `out`.
    pub fn encode_into(&self, out: &mut Vec<u8>)
        requires
            exists|rtype: u16| rdata_ok(rtype, self@),
        ensures
            final(out)@ == old(out)@ + encode_rdata(self@),
    {
        let ghost start = out@;
        match self {
            RData::A(address) => {
                write_u32(out, *address);
            },
            RData::Aaaa(address) => {
                write_u128(out, *address);
            },
            RData::Name(name) => {
                encode_name_into(name, out);
            },
            RData::Mx { preference, exchange } => {
                write_u16(out, *preference);
                encode_name_into(exchange, out);
                assert(out@ =~= start + encode_rdata(self@));
            },
            RData::Raw(bytes) => {
                let mut i: usize = 0;
                assert(out@ =~= start + bytes@.take(0));
                while i < bytes.len()
                    invariant
                        i <= bytes@.len(),
                        out@ == start + bytes@.take(i as int),
                    decreases bytes@.len() - i,
                {
                    out.push(bytes[i]);
                    i = i + 1;
                    assert(out@ =~= start + bytes@.take(i as int));
                }
                assert(bytes@.take(i as int) =~= bytes@);
            },
        }
    }

    /// A copy of this data.
    pub fn duplicate(&self) -> (copy: RData)
        ensures
            copy@ == self@,
    {
        match self {
            RData::A(address) => RData::A(*address),
            RData::Aaaa(address) => RData::Aaaa(*address),
            RData::Name(name) => RData::Name(name.duplicate()),
            RData::Mx { preference, exchange } => RData::Mx {
                preference: *preference,
                exchange: exchange.duplicate(),
            },
            RData::Raw(bytes) => RData::Raw(copy_bytes(bytes.as_slice())),
        }
    }
}

impl ResourceRecord {
    /// Reads the record at `pos`.
    pub fn decode(bytes: &[u8], pos: usize) -> (result: Option<(ResourceRecord, usize)>)
        ensures
            result is Some == parse_record(bytes@, pos as int) is Some,
            result is Some ==> {
                let (record, end) = result->0;
                &&& parse_record(bytes@, pos as int) == Some((record@, end as int))
                &&& record_ok(record@)
                &&& pos < end <= bytes@.len()
            },
    {
        match decode_name(bytes, pos) {
            Some((name, end)) => {
                if bytes.len() - end < 10 {
                    return None;
                }
                let rtype = read_u16(bytes, end);
                let class = read_u16(bytes, end + 2);
                let ttl = read_u32(bytes, end + 4);
                let length = read_u16(bytes, end + 8) as usize;
                let start = end + 10;
                if bytes.len() - start < length {
                    return None;
                }
                match RData::decode(bytes, start, length, rtype) {
                    Some(data) => Some(
                        (ResourceRecord { name, rtype, class, ttl, data }, start + length),
                    ),
                    None => None,
                }
            },
            None => None,
        }
    }

    /// Whether this record is well formed.
    pub fn is_valid(&self) -> (ok: bool)
        ensures
            ok == record_ok(self@),
    {
        self.name.is_valid() && self.data.fits(self.rtype)
    }

    /// Appends the wire form of this record to `out`.
    pub fn encode_into(&self, out: &mut Vec<u8>)
        requires
            record_ok(self@),
        ensures
            final(out)@ == old(out)@ + encode_record(self@),
    {
        let ghost start = out@;
        proof {
            lemma_encode_rdata_len(self.rtype, self.data@);
        }
        let mut data: Vec<u8> = Vec::new();
        self.data.encode_into(&mut data);
        assert(data@ =~= encode_rdata(self.data@));
        encode_name_into(&self.name, out);
        write_u16(out, self.rtype);
        write_u16(out, self.class);
        write_u32(out, self.ttl);
        write_u16(out, data.len() as u16);
        out.append(&mut data);
        assert(out@ =~= start + encode_record(self@));
    }

    /// A copy of this record with the time to live `ttl`.
    pub fn with_ttl(&self, ttl: u32) -> (copy: ResourceRecord)
        ensures
            copy@ == (RecordView { ttl, ..self@ }),
    {
        ResourceRecord {
            name: self.name.duplicate(),
            rtype: self.rtype,
            class: self.class,
            ttl,
            data: self.data.duplicate(),
        }
    }

    /// A copy of this record.
    pub fn duplicate(&self) -> (copy: ResourceRecord)
        ensures
            copy@ == self@,
    {
        self.with_ttl(self.ttl)
    }
}

} // verus!
