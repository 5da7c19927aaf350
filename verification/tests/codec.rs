use dns_filter::message::{Flags, MalformedMessage, Message};
use dns_filter::name::DomainName;
use dns_filter::name_wire::{decode_name, encode_name_into};
use dns_filter::question::{Question, CLASS_IN, TYPE_A, TYPE_AAAA, TYPE_CNAME, TYPE_MX};
use dns_filter::resource_record::{RData, ResourceRecord};
use dns_filter::wire::{read_be, read_u16, read_u32, write_be, write_u16, write_u32};

fn name(text: &str) -> DomainName {
    DomainName::from_text(text).unwrap()
}

fn example_query() -> Vec<u8> {
    vec![
        0x12, 0x34, 0x01, 0x00, 0x00, 0x01, 0x00, 0x00, 0x00, 0x00, 0x00, 0x00, 7, b'e', b'x',
        b'a', b'm', b'p', b'l', b'e', 3, b'c', b'o', b'm', 0, 0x00, 0x01, 0x00, 0x01,
    ]
}

fn example_response() -> Vec<u8> {
    let mut bytes = example_query();
    bytes[2] = 0x81;
    bytes[3] = 0x80;
    bytes[7] = 0x01;
    bytes.extend_from_slice(&[
        0xC0, 0x0C, 0x00, 0x01, 0x00, 0x01, 0x00, 0x00, 0x00, 0x3C, 0x00, 0x04, 93, 184, 216, 34,
    ]);
    bytes
}

#[test]
fn big_endian_numbers_read_and_write() {
    let bytes = [0x12u8, 0x34, 0x56, 0x78];
    assert_eq!(read_u16(&bytes, 0), 0x1234);
    assert_eq!(read_u16(&bytes, 2), 0x5678);
    assert_eq!(read_u32(&bytes, 0), 0x1234_5678);
    assert_eq!(read_be(&bytes, 1, 3), 0x34_5678);
    let mut out = vec![0xFFu8];
    write_u16(&mut out, 0x0102);
    write_u32(&mut out, 0xA0B0_C0D0);
    write_be(&mut out, 0x01_0203, 2);
    assert_eq!(out, vec![0xFF, 0x01, 0x02, 0xA0, 0xB0, 0xC0, 0xD0, 0x02, 0x03]);
}

#[test]
fn name_from_text_splits_and_lowers() {
    let parsed = name("Ads.Example.COM");
    assert_eq!(parsed.label_count(), 3);
    assert_eq!(parsed.label(0), b"ads");
    assert_eq!(parsed.label(1), b"example");
    assert_eq!(parsed.label(2), b"com");
    assert_eq!(parsed.to_text(), b"ads.example.com.".to_vec());
    assert!(parsed.same_as(&name("ads.example.com.")));
    assert!(!parsed.same_as(&name("example.com")));
    assert_eq!(parsed.wire_length(), 17);
    assert!(parsed.is_valid());
}

#[test]
fn name_from_text_knows_the_root() {
    assert_eq!(name("").label_count(), 0);
    assert_eq!(name(".").label_count(), 0);
    assert_eq!(DomainName::root().to_text(), Vec::<u8>::new());
}

#[test]
fn name_from_text_refuses_bad_names() {
    assert!(DomainName::from_text("a..b").is_none());
    assert!(DomainName::from_text(".com").is_none());
    assert!(DomainName::from_text("..").is_none());
    let long_label = "a".repeat(64);
    assert!(DomainName::from_text(&long_label).is_none());
    assert!(DomainName::from_text(&"a".repeat(63)).is_some());
    // four labels of 63 bytes take 4 * 64 + 1 = 257 bytes on the wire
    let label = "b".repeat(63);
    let too_long = format!("{}.{}.{}.{}", label, label, label, label);
    assert!(DomainName::from_text(&too_long).is_none());
    // 63 + 63 + 63 + 61 bytes of labels take exactly 255 bytes on the wire
    let fits = format!("{}.{}.{}.{}", label, label, label, "c".repeat(61));
    assert_eq!(DomainName::from_text(&fits).unwrap().wire_length(), 255);
}

#[test]
fn name_from_labels_checks_them() {
    assert!(DomainName::from_labels(vec![b"www".to_vec(), b"example".to_vec()]).is_some());
    assert!(DomainName::from_labels(vec![b"WWW".to_vec()]).is_none());
    assert!(DomainName::from_labels(vec![Vec::new()]).is_none());
}

#[test]
fn decodes_a_query() {
    let query = Message::decode(&example_query()).unwrap();
    assert_eq!(query.id, 0x1234);
    assert!(!query.flags.response);
    assert!(query.flags.recursion_desired);
    assert_eq!(query.flags.opcode, 0);
    assert_eq!(query.questions.len(), 1);
    assert_eq!(
        query.questions[0],
        Question { name: name("example.com"), qtype: TYPE_A, qclass: CLASS_IN }
    );
    assert!(query.answers.is_empty());
    assert!(query.authorities.is_empty());
    assert!(query.additionals.is_empty());
}

#[test]
fn encodes_a_query_byte_for_byte() {
    let query = Message::query(
        0x1234,
        Question { name: name("example.com"), qtype: TYPE_A, qclass: CLASS_IN },
    );
    assert_eq!(query.encode(), Some(example_query()));
}

#[test]
fn decodes_a_compressed_response() {
    let response = Message::decode(&example_response()).unwrap();
    assert_eq!(response.id, 0x1234);
    assert!(response.flags.response);
    assert!(response.flags.recursion_available);
    assert_eq!(response.flags.rcode, 0);
    assert_eq!(response.answers.len(), 1);
    assert_eq!(
        response.answers[0],
        ResourceRecord {
            name: name("example.com"),
            rtype: TYPE_A,
            class: CLASS_IN,
            ttl: 60,
            data: RData::A(0x5DB8_D822),
        }
    );
}

#[test]
fn round_trip_gives_the_same_message() {
    let first = Message::decode(&example_response()).unwrap();
    let bytes = first.encode().unwrap();
    // the name of the answer is written out in full
    assert_eq!(bytes.len(), example_response().len() + 11);
    let second = Message::decode(&bytes).unwrap();
    assert_eq!(first, second);
    assert_eq!(second.encode().unwrap(), bytes);
}

#[test]
fn flags_keep_every_bit() {
    let flags = Flags::from_word(0x8180);
    assert_eq!(
        flags,
        Flags {
            response: true,
            opcode: 0,
            authoritative: false,
            truncated: false,
            recursion_desired: true,
            recursion_available: true,
            reserved: 0,
            rcode: 0,
        }
    );
    assert_eq!(flags.to_word(), 0x8180);
    for word in [0x0000u16, 0xFFFF, 0x7A35, 0x8583, 0x0210, 0x2C7F] {
        assert_eq!(Flags::from_word(word).to_word(), word);
    }
    let odd = Flags::from_word(0x7A35);
    assert_eq!(odd.opcode, 15);
    assert_eq!(odd.reserved, 3);
    assert_eq!(odd.rcode, 5);
    assert!(!odd.response && !odd.authoritative && odd.truncated && !odd.recursion_desired);
}

#[test]
fn unencodable_messages_have_no_wire_form() {
    let mut message = Message::decode(&example_query()).unwrap();
    message.flags.rcode = 16;
    assert!(!message.is_valid());
    assert_eq!(message.encode(), None);
    message.flags.rcode = 3;
    assert!(message.encode().is_some());
    message.answers.push(ResourceRecord {
        name: name("example.com"),
        rtype: TYPE_A,
        class: CLASS_IN,
        ttl: 1,
        data: RData::Raw(vec![1, 2, 3, 4]),
    });
    assert_eq!(message.encode(), None);
}

#[test]
fn truncated_header_is_malformed() {
    assert_eq!(Message::decode(&[]), Err(MalformedMessage));
    assert_eq!(Message::decode(&example_query()[..11]), Err(MalformedMessage));
    // twelve bytes that announce nothing are a message
    assert!(Message::decode(&[0u8; 12]).is_ok());
}

#[test]
fn label_past_the_end_is_malformed() {
    let mut bytes = example_query();
    bytes[12] = 40;
    assert_eq!(Message::decode(&bytes), Err(MalformedMessage));
    let cut = &example_query()[..20];
    assert_eq!(Message::decode(cut), Err(MalformedMessage));
}

#[test]
fn missing_records_are_malformed() {
    let mut bytes = example_query();
    bytes[7] = 1;
    assert_eq!(Message::decode(&bytes), Err(MalformedMessage));
}

#[test]
fn pointer_to_itself_is_malformed() {
    let mut bytes = vec![0x12, 0x34, 0x01, 0x00, 0x00, 0x01, 0, 0, 0, 0, 0, 0];
    bytes.extend_from_slice(&[0xC0, 0x0C, 0x00, 0x01, 0x00, 0x01]);
    assert_eq!(Message::decode(&bytes), Err(MalformedMessage));
    assert!(decode_name(&bytes, 12).is_none());
}

#[test]
fn pointer_forward_is_malformed() {
    let mut bytes = vec![0x12, 0x34, 0x01, 0x00, 0x00, 0x01, 0, 0, 0, 0, 0, 0];
    // the name is a pointer to the byte behind it, where a good name stands
    bytes.extend_from_slice(&[0xC0, 0x0E, 3, b'c', b'o', b'm', 0, 0x00, 0x01, 0x00, 0x01]);
    assert!(decode_name(&bytes, 14).is_some());
    assert!(decode_name(&bytes, 12).is_none());
    assert_eq!(Message::decode(&bytes), Err(MalformedMessage));
}

#[test]
fn pointer_into_its_own_name_is_malformed() {
    // "a" at 12, then a pointer at 14 back to 12: the name would never end
    let mut bytes = vec![0u8; 12];
    bytes.extend_from_slice(&[1, b'a', 0xC0, 0x0C]);
    assert!(decode_name(&bytes, 12).is_none());
}

#[test]
fn pointers_may_chain_backwards() {
    let mut bytes = vec![0u8; 12];
    // 12: com.  17: example -> 12  27: www -> 17
    bytes.extend_from_slice(&[3, b'c', b'o', b'm', 0]);
    bytes.extend_from_slice(&[7, b'e', b'x', b'a', b'm', b'p', b'l', b'e', 0xC0, 12]);
    bytes.extend_from_slice(&[3, b'W', b'w', b'W', 0xC0, 17]);
    let (parsed, end) = decode_name(&bytes, 27).unwrap();
    assert_eq!(parsed, name("www.example.com"));
    assert_eq!(end, 33);
    let (parsed, end) = decode_name(&bytes, 17).unwrap();
    assert_eq!(parsed, name("example.com"));
    assert_eq!(end, 27);
}

#[test]
fn reserved_label_types_are_malformed() {
    let mut bytes = vec![0u8; 12];
    bytes.extend_from_slice(&[0x40, 0]);
    assert!(decode_name(&bytes, 12).is_none());
    bytes[12] = 0x80;
    assert!(decode_name(&bytes, 12).is_none());
}

#[test]
fn names_longer_than_255_bytes_are_malformed() {
    let mut bytes = vec![0u8; 12];
    for _ in 0..4 {
        bytes.push(63);
        bytes.extend_from_slice(&[b'a'; 63]);
    }
    bytes.push(0);
    assert!(decode_name(&bytes, 12).is_none());
    // one byte less fits exactly
    let mut fits = vec![0u8; 12];
    for _ in 0..3 {
        fits.push(63);
        fits.extend_from_slice(&[b'a'; 63]);
    }
    fits.push(61);
    fits.extend_from_slice(&[b'a'; 61]);
    fits.push(0);
    let (parsed, end) = decode_name(&fits, 12).unwrap();
    assert_eq!(parsed.wire_length(), 255);
    assert_eq!(end, 12 + 255);
}

#[test]
fn names_are_encoded_without_compression() {
    let mut out = vec![9u8];
    encode_name_into(&name("a.bc"), &mut out);
    assert_eq!(out, vec![9, 1, b'a', 2, b'b', b'c', 0]);
    let mut root = Vec::new();
    encode_name_into(&DomainName::root(), &mut root);
    assert_eq!(root, vec![0]);
}

#[test]
fn unknown_record_types_are_kept_as_they_came() {
    let mut bytes = example_response();
    let at = bytes.len() - 16;
    // type 99 with five bytes of data
    bytes[at + 3] = 99;
    bytes[at + 11] = 5;
    bytes.push(0xEE);
    let message = Message::decode(&bytes).unwrap();
    assert_eq!(message.answers[0].rtype, 99);
    assert_eq!(message.answers[0].data, RData::Raw(vec![93, 184, 216, 34, 0xEE]));
    let again = Message::decode(&message.encode().unwrap()).unwrap();
    assert_eq!(again, message);
}

#[test]
fn known_record_types_are_read_into_fields() {
    let mut bytes = example_query();
    bytes[2] = 0x81;
    bytes[3] = 0x80;
    bytes[7] = 3;
    // CNAME www.example.com (compressed)
    bytes.extend_from_slice(&[0xC0, 0x0C, 0, 5, 0, 1, 0, 0, 0, 10, 0, 6, 3, b'w', b'w', b'w', 0xC0, 0x0C]);
    // MX 10 mail.example.com
    bytes.extend_from_slice(&[0xC0, 0x0C, 0, 15, 0, 1, 0, 0, 0, 20, 0, 9, 0, 10, 4, b'm', b'a', b'i', b'l', 0xC0, 0x0C]);
    // AAAA 2001:db8::1
    bytes.extend_from_slice(&[0xC0, 0x0C, 0, 28, 0, 1, 0, 0, 0, 30, 0, 16]);
    bytes.extend_from_slice(&[0x20, 0x01, 0x0d, 0xb8, 0, 0, 0, 0, 0, 0, 0, 0, 0, 0, 0, 1]);
    let message = Message::decode(&bytes).unwrap();
    assert_eq!(message.answers[0].rtype, TYPE_CNAME);
    assert_eq!(message.answers[0].data, RData::Name(name("www.example.com")));
    assert_eq!(message.answers[1].rtype, TYPE_MX);
    assert_eq!(
        message.answers[1].data,
        RData::Mx { preference: 10, exchange: name("mail.example.com") }
    );
    assert_eq!(message.answers[2].rtype, TYPE_AAAA);
    assert_eq!(
        message.answers[2].data,
        RData::Aaaa(0x2001_0db8_0000_0000_0000_0000_0000_0001)
    );
    assert_eq!(message.answers[2].ttl, 30);
    let again = Message::decode(&message.encode().unwrap()).unwrap();
    assert_eq!(again, message);
}

#[test]
fn known_types_with_wrong_length_are_malformed() {
    let mut bytes = example_response();
    let at = bytes.len() - 16;
    bytes[at + 11] = 3;
    bytes.pop();
    assert_eq!(Message::decode(&bytes), Err(MalformedMessage));
}

#[test]
fn bytes_behind_the_message_are_not_looked_at() {
    let mut bytes = example_query();
    bytes.extend_from_slice(&[0xFF, 0xFF, 0xFF]);
    assert_eq!(Message::decode(&bytes), Message::decode(&example_query()));
}
