//! Names on the wire: length-prefixed labels, closed by a zero byte or by a
//! compression pointer to an earlier place in the message.

use crate::name::{
    label_ok, lemma_lower_of_lower, lemma_lower_seq_is_lower, lemma_wire_len_push, lower_byte,
    lower_seq, labels_view, name_ok, wire_len, DomainName, MAX_LABEL_LEN, MAX_NAME_WIRE_LEN,
};
use vstd::prelude::*;

verus! {

/// The first byte of a compression pointer is at least this.
pub const POINTER_TAG: u8 = 192;

/// The labels of a name on the wire, each behind its length byte.
pub open spec fn encode_labels(labels: Seq<Seq<u8>>) -> Seq<u8>
    decreases labels.len(),
{
    if labels.len() == 0 {
        Seq::empty()
    } else {
        encode_labels(labels.drop_last()) + seq![labels.last().len() as u8] + labels.last()
    }
}

/// The uncompressed wire form of a name.
pub open spec fn encode_name(labels: Seq<Seq<u8>>) -> Seq<u8> {
    encode_labels(labels) + seq![0u8]
}

/// The name read at `pos`, and the place behind it.
///
/// `floor` is where the stretch of labels being read began: a pointer is
/// followed only to a place before it, so every jump goes further back and
/// no place is read twice. `budget` is the number of wire bytes the name may
/// still take. Labels come out in lower case. The place returned is the one
/// behind the first pointer, or behind the closing zero byte where there was
/// no pointer.
pub open spec fn parse_name_from(bytes: Seq<u8>, pos: int, floor: int, budget: int) -> Option<
    (Seq<Seq<u8>>, int),
>
    decreases floor, bytes.len() - pos,
{
    if !(0 <= floor <= pos < bytes.len()) {
        None
    } else {
        let first = bytes[pos];
        if first == 0 {
            if budget >= 1 {
                Some((Seq::empty(), pos + 1))
            } else {
                None
            }
        } else if first <= MAX_LABEL_LEN {
            let next = pos + 1 + first;
            if next > bytes.len() || budget < first + 1 {
                None
            } else {
                match parse_name_from(bytes, next, floor, budget - (first + 1)) {
                    Some((rest, end)) => Some(
                        (seq![lower_seq(bytes.subrange(pos + 1, next))] + rest, end),
                    ),
                    None => None,
                }
            }
        } else if first >= POINTER_TAG {
            if pos + 1 >= bytes.len() {
                None
            } else {
                let target = (first - POINTER_TAG) * 256 + bytes[pos + 1];
                if target >= floor {
                    None
                } else {
                    match parse_name_from(bytes, target, target, budget) {
                        Some((rest, _)) => Some((rest, pos + 2)),
                        None => None,
                    }
                }
            }
        } else {
            None
        }
    }
}

/// The name that starts at `pos`, and the place behind it.
pub open spec fn parse_name(bytes: Seq<u8>, pos: int) -> Option<(Seq<Seq<u8>>, int)> {
    parse_name_from(bytes, pos, pos, MAX_NAME_WIRE_LEN as int)
}

/// What the whole reading gives once the rest of it, `inner`, is known:
/// `done` are the labels read so far, and `end` is the place behind the
/// first pointer if one was followed.
pub open spec fn resume(
    done: Seq<Seq<u8>>,
    inner: Option<(Seq<Seq<u8>>, int)>,
    jumped: bool,
    end: int,
) -> Option<(Seq<Seq<u8>>, int)> {
    match inner {
        Some((rest, inner_end)) => Some(
            (
                done + rest,
                if jumped {
                    end
                } else {
                    inner_end
                },
            ),
        ),
        None => None,
    }
}

/// The wire form of two runs of labels, one behind the other, is the wire
/// form of the first followed by that of the second.
pub proof fn lemma_encode_labels_concat(a: Seq<Seq<u8>>, b: Seq<Seq<u8>>)
    ensures
        encode_labels(a + b) == encode_labels(a) + encode_labels(b),
    decreases b.len(),
{
    if b.len() == 0 {
        assert(a + b =~= a);
        assert(encode_labels(a) + encode_labels(b) =~= encode_labels(a));
    } else {
        lemma_encode_labels_concat(a, b.drop_last());
        assert((a + b).drop_last() =~= a + b.drop_last());
        assert((a + b).last() == b.last());
        assert(encode_labels(a + b) =~= encode_labels(a) + encode_labels(b));
    }
}

/// The wire form of a name starts with its first label behind its length.
pub proof fn lemma_encode_name_first(labels: Seq<Seq<u8>>)
    requires
        labels.len() > 0,
    ensures
        encode_name(labels) == seq![labels[0].len() as u8] + labels[0] + encode_name(
            labels.drop_first(),
        ),
{
    let head = seq![labels[0]];
    assert(labels =~= head + labels.drop_first());
    lemma_encode_labels_concat(head, labels.drop_first());
    assert(head.drop_last() =~= Seq::<Seq<u8>>::empty());
    assert(encode_labels(head.drop_last()) =~= Seq::<u8>::empty());
    assert(head.last() == labels[0]);
    assert(encode_labels(head) =~= seq![labels[0].len() as u8] + labels[0]);
    assert(encode_name(labels) =~= seq![labels[0].len() as u8] + labels[0] + encode_name(
        labels.drop_first(),
    ));
}

/// The wire form of a name is as long as `wire_len` says.
pub proof fn lemma_encode_name_len(labels: Seq<Seq<u8>>)
    ensures
        encode_name(labels).len() == wire_len(labels),
    decreases labels.len(),
{
    if labels.len() > 0 {
        lemma_encode_name_first(labels);
        lemma_encode_name_len(labels.drop_first());
    }
}

/// A name that was read is well formed if the budget was at most 255, takes
/// no more wire bytes than the budget, and ends inside the message.
pub proof fn lemma_parsed_name_ok(bytes: Seq<u8>, pos: int, floor: int, budget: int)
    requires
        parse_name_from(bytes, pos, floor, budget) is Some,
    ensures
        ({
            let (labels, end) = parse_name_from(bytes, pos, floor, budget)->0;
            &&& forall|i: int| 0 <= i < labels.len() ==> label_ok(#[trigger] labels[i])
            &&& wire_len(labels) <= budget
            &&& pos < end <= bytes.len()
        }),
    decreases floor, bytes.len() - pos,
{
    let first = bytes[pos];
    if first == 0 {
    } else if first <= MAX_LABEL_LEN {
        let next = pos + 1 + first;
        lemma_parsed_name_ok(bytes, next, floor, budget - (first + 1));
        let (rest, end) = parse_name_from(bytes, next, floor, budget - (first + 1))->0;
        let label = lower_seq(bytes.subrange(pos + 1, next));
        let labels = seq![label] + rest;
        lemma_lower_seq_is_lower(bytes.subrange(pos + 1, next));
        assert(labels.drop_first() =~= rest);
        assert forall|i: int| 0 <= i < labels.len() implies label_ok(#[trigger] labels[i]) by {
            if i > 0 {
                assert(labels[i] == rest[i - 1]);
            }
        }
    } else {
        let target = (first - POINTER_TAG) * 256 + bytes[pos + 1];
        lemma_parsed_name_ok(bytes, target, target, budget);
    }
}

/// Reading the uncompressed wire form of a well-formed name gives the name
/// back, and the place behind it.
pub proof fn lemma_parse_encoded_name(
    bytes: Seq<u8>,
    pos: int,
    floor: int,
    budget: int,
    labels: Seq<Seq<u8>>,
)
    requires
        forall|i: int| 0 <= i < labels.len() ==> label_ok(#[trigger] labels[i]),
        0 <= floor <= pos,
        pos + wire_len(labels) <= bytes.len(),
        bytes.subrange(pos, pos + wire_len(labels)) == encode_name(labels),
        budget >= wire_len(labels),
    ensures
        parse_name_from(bytes, pos, floor, budget) == Some((labels, pos + wire_len(labels))),
    decreases labels.len(),
{
    let enc = encode_name(labels);
    lemma_encode_name_len(labels);
    assert(bytes[pos] == bytes.subrange(pos, pos + wire_len(labels))[0]);
    if labels.len() == 0 {
        assert(enc =~= seq![0u8]);
    } else {
        let label = labels[0];
        let rest = labels.drop_first();
        lemma_encode_name_first(labels);
        lemma_encode_name_len(rest);
        assert(label_ok(label));
        assert(enc[0] == label.len() as u8);
        let next = pos + 1 + label.len();
        assert(bytes.subrange(pos + 1, next) =~= label) by {
            assert forall|i: int| 0 <= i < label.len() implies bytes[pos + 1 + i] == label[i] by {
                assert(bytes[pos + 1 + i] == bytes.subrange(pos, pos + wire_len(labels))[1 + i]);
                assert(enc[1 + i] == label[i]);
            }
        }
        lemma_lower_of_lower(label);
        assert(bytes.subrange(next, next + wire_len(rest)) =~= encode_name(rest)) by {
            assert forall|i: int| 0 <= i < wire_len(rest) implies bytes[next + i] == encode_name(
                rest,
            )[i] by {
                assert(bytes[next + i] == bytes.subrange(pos, pos + wire_len(labels))[1
                    + label.len() + i]);
                assert(enc[1 + label.len() + i] == encode_name(rest)[i]);
            }
        }
        assert forall|i: int| 0 <= i < rest.len() implies label_ok(#[trigger] rest[i]) by {
            assert(rest[i] == labels[i + 1]);
        }
        lemma_parse_encoded_name(bytes, next, floor, budget - (label.len() + 1), rest);
        assert(seq![label] + rest =~= labels);
    }
}

/// A pointer that does not point before the stretch it stands in is
/// refused, wherever in a name it stands.
pub proof fn lemma_pointer_must_go_back(bytes: Seq<u8>, pos: int, floor: int, budget: int)
    requires
        0 <= floor <= pos,
        pos + 1 < bytes.len(),
        bytes[pos] >= POINTER_TAG,
        (bytes[pos] - POINTER_TAG) * 256 + bytes[pos + 1] >= floor,
    ensures
        parse_name_from(bytes, pos, floor, budget) is None,
{
}

/// A name that begins with a pointer to its own start or to a later place
/// is refused.
pub proof fn lemma_forward_pointer_refused(bytes: Seq<u8>, pos: int)
    requires
        0 <= pos,
        pos + 1 < bytes.len(),
        bytes[pos] >= POINTER_TAG,
        (bytes[pos] - POINTER_TAG) * 256 + bytes[pos + 1] >= pos,
    ensures
        parse_name(bytes, pos) is None,
{
}

/// Reads the name that starts at `start`, following compression pointers.
pub fn decode_name(bytes: &[u8], start: usize) -> (result: Option<(DomainName, usize)>)
    ensures
        result is Some == parse_name(bytes@, start as int) is Some,
        result is Some ==> {
            let (name, end) = result->0;
            &&& parse_name(bytes@, start as int) == Some((name@, end as int))
            &&& name_ok(name@)
            &&& start < end <= bytes@.len()
        },
{
    let total = bytes.len();
    let mut labels: Vec<Vec<u8>> = Vec::new();
    let mut pos: usize = start;
    let mut floor: usize = start;
    let mut budget: usize = MAX_NAME_WIRE_LEN;
    let mut jumped: bool = false;
    let mut end: usize = 0;
    let ghost whole = parse_name(bytes@, start as int);
    proof {
        let inner = parse_name_from(bytes@, pos as int, floor as int, budget as int);
        assert(labels_view(labels@) =~= Seq::<Seq<u8>>::empty());
        if inner is Some {
            assert(Seq::<Seq<u8>>::empty() + (inner->0).0 =~= (inner->0).0);
        }
        assert(wire_len(Seq::<Seq<u8>>::empty()) == 1);
    }
    loop
        invariant
            total == bytes@.len(),
            whole == parse_name(bytes@, start as int),
            floor <= pos,
            whole == resume(
                labels_view(labels@),
                parse_name_from(bytes@, pos as int, floor as int, budget as int),
                jumped,
                end as int,
            ),
            forall|i: int|
                0 <= i < labels@.len() ==> label_ok(#[trigger] labels_view(labels@)[i]),
            wire_len(labels_view(labels@)) + budget == MAX_NAME_WIRE_LEN + 1,
            jumped ==> start < end <= total,
            !jumped ==> start <= pos,
        decreases floor, total - pos,
    {
        if pos >= total {
            return None;
        }
        let first = bytes[pos];
        if first == 0 {
            if budget < 1 {
                return None;
            }
            let stop = if jumped {
                end
            } else {
                pos + 1
            };
            proof {
                assert(labels_view(labels@) + Seq::<Seq<u8>>::empty() =~= labels_view(labels@));
            }
            let name = DomainName::from_checked_labels(labels);
            return Some((name, stop));
        } else if first as usize <= MAX_LABEL_LEN {
            let length = first as usize;
            if length > total - pos - 1 || budget < length + 1 {
                return None;
            }
            let next = pos + 1 + length;
            let ghost done = labels_view(labels@);
            let ghost raw = bytes@.subrange(pos + 1, next as int);
            let mut label: Vec<u8> = Vec::new();
            let mut i: usize = 0;
            while i < length
                invariant
                    i <= length,
                    next == pos + 1 + length,
                    next <= total == bytes@.len(),
                    raw == bytes@.subrange(pos + 1, next as int),
                    label@ == lower_seq(raw).take(i as int),
                decreases length - i,
            {
                label.push(lower_byte(bytes[pos + 1 + i]));
                i = i + 1;
                assert(label@ =~= lower_seq(raw).take(i as int));
            }
            proof {
                assert(lower_seq(raw).take(i as int) =~= lower_seq(raw));
                lemma_lower_seq_is_lower(raw);
                lemma_wire_len_push(done, label@);
                let inner = parse_name_from(
                    bytes@,
                    next as int,
                    floor as int,
                    budget - (length + 1),
                );
                if inner is Some {
                    assert(done + (seq![label@] + (inner->0).0) =~= done.push(label@) + (inner->0).0);
                }
            }
            labels.push(label);
            proof {
                assert(labels_view(labels@) =~= done.push(label@));
            }
            budget = budget - (length + 1);
            pos = next;
        } else if first >= POINTER_TAG {
            if pos + 1 >= total {
                return None;
            }
            let target = (first - POINTER_TAG) as usize * 256 + bytes[pos + 1] as usize;
            if target >= floor {
                return None;
            }
            if !jumped {
                jumped = true;
                end = pos + 2;
            }
            pos = target;
            floor = target;
        } else {
            return None;
        }
    }
}

/// Appends the uncompressed wire form of `name` to `out`.
pub fn encode_name_into(name: &DomainName, out: &mut Vec<u8>)
    requires
        name_ok(name@),
    ensures
        final(out)@ == old(out)@ + encode_name(name@),
{
    let ghost start = out@;
    let count = name.label_count();
    let mut i: usize = 0;
    assert(out@ =~= start + encode_labels(name@.take(0)));
    while i < count
        invariant
            i <= count == name@.len(),
            name_ok(name@),
            out@ == start + encode_labels(name@.take(i as int)),
        decreases count - i,
    {
        let label = name.label(i);
        let ghost before = out@;
        assert(label_ok(name@[i as int]));
        out.push(label.len() as u8);
        let mut j: usize = 0;
        while j < label.len()
            invariant
                j <= label@.len(),
                out@ == before + seq![label@.len() as u8] + label@.take(j as int),
            decreases label@.len() - j,
        {
            out.push(label[j]);
            j = j + 1;
            assert(out@ =~= before + seq![label@.len() as u8] + label@.take(j as int));
        }
        proof {
            assert(label@.take(j as int) =~= label@);
            assert(name@.take(i + 1).drop_last() =~= name@.take(i as int));
            assert(name@.take(i + 1).last() == label@);
            assert(out@ =~= start + encode_labels(name@.take(i + 1)));
        }
        i = i + 1;
    }
    out.push(0);
    proof {
        assert(name@.take(i as int) =~= name@);
        assert(out@ =~= start + encode_name(name@));
    }
}

} // verus!
