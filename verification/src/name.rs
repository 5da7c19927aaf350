//! Domain names: sequences of labels, kept in lower case.

use vstd::prelude::*;
use vstd::string::StringSliceAdditionalSpecFns;

verus! {

/// The longest label, in bytes.
pub const MAX_LABEL_LEN: usize = 63;

/// The longest name, in bytes of its uncompressed wire form.
pub const MAX_NAME_WIRE_LEN: usize = 255;

/// The byte of the dot that separates labels in text.
pub const DOT: u8 = 46;

/// `b` with an ASCII capital letter turned into its small letter.
pub open spec fn lower(b: u8) -> u8 {
    if 65 <= b <= 90 {
        (b + 32) as u8
    } else {
        b
    }
}

/// `s` with every ASCII capital letter turned into its small letter.
pub open spec fn lower_seq(s: Seq<u8>) -> Seq<u8> {
    Seq::new(s.len(), |i: int| lower(s[i]))
}

/// No byte of `s` is an ASCII capital letter.
pub open spec fn is_lower(s: Seq<u8>) -> bool {
    forall|i: int| 0 <= i < s.len() ==> !(65 <= #[trigger] s[i] <= 90)
}

/// The length of the uncompressed wire form of a name: one length byte and
/// the bytes of each label, and the closing zero byte.
pub open spec fn wire_len(labels: Seq<Seq<u8>>) -> int
    decreases labels.len(),
{
    if labels.len() == 0 {
        1
    } else {
        labels[0].len() + 1 + wire_len(labels.drop_first())
    }
}

/// A label is one to 63 bytes, none of them a capital letter.
pub open spec fn label_ok(label: Seq<u8>) -> bool {
    1 <= label.len() <= MAX_LABEL_LEN && is_lower(label)
}

/// A name is a sequence of good labels whose wire form has at most 255 bytes.
pub open spec fn name_ok(labels: Seq<Seq<u8>>) -> bool {
    &&& forall|i: int| 0 <= i < labels.len() ==> label_ok(#[trigger] labels[i])
    &&& wire_len(labels) <= MAX_NAME_WIRE_LEN
}

/// The views of a sequence of byte vectors.
pub open spec fn labels_view(labels: Seq<Vec<u8>>) -> Seq<Seq<u8>> {
    labels.map_values(|label: Vec<u8>| label@)
}

/// The pieces between the dots of `text`; there is always a last piece,
/// empty where the text is empty or ends in a dot.
pub open spec fn split_dots(text: Seq<u8>) -> Seq<Seq<u8>>
    decreases text.len(),
{
    if text.len() == 0 {
        seq![Seq::<u8>::empty()]
    } else {
        let before = split_dots(text.drop_last());
        if text.last() == DOT {
            before.push(Seq::<u8>::empty())
        } else {
            before.drop_last().push(before.last().push(text.last()))
        }
    }
}

/// The name that `text` spells, if it spells one: labels separated by dots,
/// read without regard to case, with or without a closing dot. The empty
/// text and the single dot spell the root.
pub open spec fn parse_text(text: Seq<u8>) -> Option<Seq<Seq<u8>>> {
    let pieces = split_dots(lower_seq(text));
    let labels = if pieces.last().len() == 0 {
        pieces.drop_last()
    } else {
        pieces
    };
    if text =~= seq![DOT] {
        Some(Seq::empty())
    } else if name_ok(labels) {
        Some(labels)
    } else {
        None
    }
}

/// The text of a name: its labels, each followed by a dot.
pub open spec fn dotted(labels: Seq<Seq<u8>>) -> Seq<u8>
    decreases labels.len(),
{
    if labels.len() == 0 {
        Seq::empty()
    } else {
        dotted(labels.drop_last()) + labels.last().push(DOT)
    }
}

/// `suffix` is what remains of `name` after some of its leading labels.
pub open spec fn is_suffix_of(suffix: Seq<Seq<u8>>, name: Seq<Seq<u8>>) -> bool {
    suffix.len() <= name.len() && name.subrange(name.len() - suffix.len(), name.len() as int)
        == suffix
}

/// The wire length of two runs of labels, one behind the other, is the sum
/// of their wire lengths, less the one closing byte.
pub proof fn lemma_wire_len_concat(a: Seq<Seq<u8>>, b: Seq<Seq<u8>>)
    ensures
        wire_len(a + b) == wire_len(a) + wire_len(b) - 1,
        wire_len(a) >= 1,
    decreases a.len(),
{
    if a.len() == 0 {
        assert(a + b =~= b);
    } else {
        lemma_wire_len_concat(a.drop_first(), b);
        assert((a + b).drop_first() =~= a.drop_first() + b);
    }
}

/// One more label makes the wire form longer by the label and its length
/// byte.
pub proof fn lemma_wire_len_push(a: Seq<Seq<u8>>, label: Seq<u8>)
    ensures
        wire_len(a.push(label)) == wire_len(a) + label.len() + 1,
        wire_len(a) >= 1,
{
    let b = seq![label];
    assert(b.drop_first() =~= Seq::<Seq<u8>>::empty());
    assert(wire_len(b) == label.len() + 1 + wire_len(b.drop_first()));
    assert(wire_len(Seq::<Seq<u8>>::empty()) == 1);
    lemma_wire_len_concat(a, b);
    assert(a.push(label) =~= a + b);
}

/// What was turned into lower case holds no capital letter.
pub proof fn lemma_lower_seq_is_lower(s: Seq<u8>)
    ensures
        is_lower(lower_seq(s)),
        lower_seq(s).len() == s.len(),
{
}

/// Turning into lower case changes nothing where there is no capital
/// letter.
pub proof fn lemma_lower_of_lower(s: Seq<u8>)
    requires
        is_lower(s),
    ensures
        lower_seq(s) == s,
{
    assert(lower_seq(s) =~= s);
}

/// A domain name: its labels from the most specific to the top-level one, in
/// lower case.
#[derive(Clone, Debug, PartialEq, Eq)]
pub struct DomainName {
    labels: Vec<Vec<u8>>,
}

impl View for DomainName {
    type V = Seq<Seq<u8>>;

    closed spec fn view(&self) -> Seq<Seq<u8>> {
        labels_view(self.labels@)
    }
}

/// Copies a byte string.
pub fn copy_bytes(bytes: &[u8]) -> (copy: Vec<u8>)
    ensures
        copy@ == bytes@,
{
    let mut copy: Vec<u8> = Vec::new();
    let mut i: usize = 0;
    while i < bytes.len()
        invariant
            i <= bytes@.len(),
            copy@ == bytes@.take(i as int),
        decreases bytes@.len() - i,
    {
        copy.push(bytes[i]);
        i = i + 1;
        assert(copy@ =~= bytes@.take(i as int));
    }
    assert(bytes@.take(i as int) =~= bytes@);
    copy
}

/// A copy of a sequence of byte strings.
pub fn copy_labels(labels: &Vec<Vec<u8>>) -> (copy: Vec<Vec<u8>>)
    ensures
        labels_view(copy@) == labels_view(labels@),
{
    let mut copy: Vec<Vec<u8>> = Vec::new();
    let mut i: usize = 0;
    while i < labels.len()
        invariant
            i <= labels@.len(),
            copy@.len() == i,
            labels_view(copy@) == labels_view(labels@).take(i as int),
        decreases labels@.len() - i,
    {
        copy.push(copy_bytes(labels[i].as_slice()));
        i = i + 1;
        assert(labels_view(copy@) =~= labels_view(labels@).take(i as int));
    }
    assert(labels_view(labels@).take(i as int) =~= labels_view(labels@));
    copy
}

/// Whether two byte strings hold the same bytes.
pub fn bytes_equal(a: &[u8], b: &[u8]) -> (same: bool)
    ensures
        same == (a@ == b@),
{
    if a.len() != b.len() {
        return false;
    }
    let mut i: usize = 0;
    while i < a.len()
        invariant
            i <= a@.len(),
            a@.len() == b@.len(),
            a@.take(i as int) == b@.take(i as int),
        decreases a@.len() - i,
    {
        if a[i] != b[i] {
            return false;
        }
        i = i + 1;
        assert(a@.take(i as int) =~= a@.take(i - 1).push(a@[i - 1]));
        assert(b@.take(i as int) =~= b@.take(i - 1).push(b@[i - 1]));
    }
    assert(a@.take(i as int) =~= a@);
    assert(b@.take(i as int) =~= b@);
    true
}

/// Whether `labels` make a name: every label of one to 63 bytes without a
/// capital letter, and at most 255 bytes on the wire.
pub fn labels_are_name(labels: &Vec<Vec<u8>>) -> (ok: bool)
    ensures
        ok == name_ok(labels_view(labels@)),
{
    let ghost all = labels_view(labels@);
    let mut total: usize = 1;
    let mut i: usize = 0;
    while i < labels.len()
        invariant
            i <= labels@.len(),
            all == labels_view(labels@),
            total == wire_len(all.take(i as int)),
            total <= MAX_NAME_WIRE_LEN,
            forall|j: int| 0 <= j < i ==> label_ok(#[trigger] all[j]),
        decreases labels@.len() - i,
    {
        let label = &labels[i];
        let ghost next = all.take(i + 1);
        proof {
            lemma_wire_len_push(all.take(i as int), all[i as int]);
            assert(next =~= all.take(i as int).push(all[i as int]));
            assert(all =~= next + all.skip(i + 1));
            lemma_wire_len_concat(next, all.skip(i + 1));
            lemma_wire_len_concat(all.skip(i + 1), Seq::empty());
        }
        if label.len() == 0 || label.len() > MAX_LABEL_LEN {
            return false;
        }
        if !is_lower_bytes(label.as_slice()) {
            return false;
        }
        if total + label.len() + 1 > MAX_NAME_WIRE_LEN {
            return false;
        }
        total = total + label.len() + 1;
        i = i + 1;
    }
    assert(all.take(i as int) =~= all);
    true
}

/// Whether no byte of `bytes` is an ASCII capital letter.
pub fn is_lower_bytes(bytes: &[u8]) -> (ok: bool)
    ensures
        ok == is_lower(bytes@),
{
    let mut i: usize = 0;
    while i < bytes.len()
        invariant
            i <= bytes@.len(),
            forall|j: int| 0 <= j < i ==> !(65 <= #[trigger] bytes@[j] <= 90),
        decreases bytes@.len() - i,
    {
        if 65 <= bytes[i] && bytes[i] <= 90 {
            return false;
        }
        i = i + 1;
    }
    true
}

/// `b` with an ASCII capital letter turned into its small letter.
pub fn lower_byte(b: u8) -> (l: u8)
    ensures
        l == lower(b),
{
    if 65 <= b && b <= 90 {
        b + 32
    } else {
        b
    }
}

impl DomainName {
    /// The root: the name without labels.
    pub fn root() -> (name: DomainName)
        ensures
            name@ == Seq::<Seq<u8>>::empty(),
            name_ok(name@),
    {
        let name = DomainName { labels: Vec::new() };
        assert(name@ =~= Seq::<Seq<u8>>::empty());
        name
    }

    /// The name made of `labels`, if they make one.
    pub fn from_labels(labels: Vec<Vec<u8>>) -> (name: Option<DomainName>)
        ensures
            name is Some == name_ok(labels_view(labels@)),
            name is Some ==> name->0@ == labels_view(labels@),
    {
        if labels_are_name(&labels) {
            Some(DomainName { labels })
        } else {
            None
        }
    }

    /// The name made of `labels`, which are known to make one.
    pub(crate) fn from_checked_labels(labels: Vec<Vec<u8>>) -> (name: DomainName)
        requires
            name_ok(labels_view(labels@)),
        ensures
            name@ == labels_view(labels@),
    {
        DomainName { labels }
    }

    /// The name that the bytes `text` spell, if they spell one.
    pub fn from_bytes(text: &[u8]) -> (name: Option<DomainName>)
        ensures
            name is Some == parse_text(text@) is Some,
            name is Some ==> parse_text(text@) == Some(name->0@),
            name is Some ==> name_ok(name->0@),
    {
        if text.len() == 1 && text[0] == DOT {
            assert(text@ =~= seq![DOT]);
            return Some(DomainName::root());
        }
        let ghost lowered = lower_seq(text@);
        let mut labels: Vec<Vec<u8>> = Vec::new();
        let mut current: Vec<u8> = Vec::new();
        let mut i: usize = 0;
        assert(lowered.take(0) =~= Seq::<u8>::empty());
        assert(labels_view(labels@).push(current@) =~= split_dots(lowered.take(0)));
        while i < text.len()
            invariant
                i <= text@.len(),
                lowered == lower_seq(text@),
                labels_view(labels@).push(current@) == split_dots(lowered.take(i as int)),
            decreases text@.len() - i,
        {
            let b = lower_byte(text[i]);
            let ghost before = labels_view(labels@).push(current@);
            proof {
                assert(lowered.take(i + 1).drop_last() =~= lowered.take(i as int));
                assert(lowered.take(i + 1).last() == b);
            }
            if b == DOT {
                labels.push(current);
                current = Vec::new();
                assert(labels_view(labels@).push(current@) =~= before.push(Seq::<u8>::empty()));
            } else {
                current.push(b);
                assert(labels_view(labels@).push(current@) =~= before.drop_last().push(
                    before.last().push(b),
                ));
            }
            i = i + 1;
        }
        assert(lowered.take(i as int) =~= lowered);
        let ghost pieces = split_dots(lowered);
        assert(pieces.last() == current@);
        assert(pieces.drop_last() =~= labels_view(labels@));
        if current.len() > 0 {
            labels.push(current);
            assert(labels_view(labels@) =~= pieces);
        }
        assert(!(text@ =~= seq![DOT])) by {
            if text@ =~= seq![DOT] {
                assert(text@.len() == 1 && text@[0] == DOT);
            }
        }
        DomainName::from_labels(labels)
    }

    /// The name that `text` spells, if it spells one.
    pub fn from_text(text: &str) -> (name: Option<DomainName>)
        ensures
            name is Some == parse_text(text.spec_bytes()) is Some,
            name is Some ==> parse_text(text.spec_bytes()) == Some(name->0@),
            name is Some ==> name_ok(name->0@),
    {
        DomainName::from_bytes(text.as_bytes())
    }

    /// The number of labels.
    pub fn label_count(&self) -> (count: usize)
        ensures
            count == self@.len(),
    {
        self.labels.len()
    }

    /// The label at `index`, counted from the most specific one.
    pub fn label(&self, index: usize) -> (label: &[u8])
        requires
            index < self@.len(),
        ensures
            label@ == self@[index as int],
    {
        self.labels[index].as_slice()
    }

    /// Whether this is a well-formed name. Every name that this library
    /// hands out is.
    pub fn is_valid(&self) -> (ok: bool)
        ensures
            ok == name_ok(self@),
    {
        labels_are_name(&self.labels)
    }

    /// The length of the uncompressed wire form of this name.
    pub fn wire_length(&self) -> (length: usize)
        requires
            name_ok(self@),
        ensures
            length == wire_len(self@),
    {
        let mut length: usize = 1;
        let mut i: usize = 0;
        while i < self.labels.len()
            invariant
                i <= self.labels@.len(),
                name_ok(self@),
                length == wire_len(self@.take(i as int)),
                length <= MAX_NAME_WIRE_LEN,
            decreases self.labels@.len() - i,
        {
            proof {
                lemma_wire_len_push(self@.take(i as int), self@[i as int]);
                assert(self@.take(i + 1) =~= self@.take(i as int).push(self@[i as int]));
                assert(self@ =~= self@.take(i + 1) + self@.skip(i + 1));
                lemma_wire_len_concat(self@.take(i + 1), self@.skip(i + 1));
                lemma_wire_len_concat(self@.skip(i + 1), Seq::empty());
            }
            length = length + self.labels[i].len() + 1;
            i = i + 1;
        }
        assert(self@.take(i as int) =~= self@);
        length
    }

    /// Whether both names have the same labels.
    pub fn same_as(&self, other: &DomainName) -> (same: bool)
        ensures
            same == (self@ == other@),
    {
        if self.labels.len() != other.labels.len() {
            return false;
        }
        let mut i: usize = 0;
        while i < self.labels.len()
            invariant
                i <= self@.len(),
                self@.len() == other@.len(),
                self@.len() == self.labels@.len(),
                other@.len() == other.labels@.len(),
                self@.take(i as int) == other@.take(i as int),
            decreases self@.len() - i,
        {
            if !bytes_equal(self.labels[i].as_slice(), other.labels[i].as_slice()) {
                assert(self@[i as int] != other@[i as int]);
                return false;
            }
            i = i + 1;
            assert(self@.take(i as int) =~= self@.take(i - 1).push(self@[i - 1]));
            assert(other@.take(i as int) =~= other@.take(i - 1).push(other@[i - 1]));
        }
        assert(self@.take(i as int) =~= self@);
        assert(other@.take(i as int) =~= other@);
        true
    }

    /// A copy of this name.
    pub fn duplicate(&self) -> (copy: DomainName)
        ensures
            copy@ == self@,
    {
        DomainName { labels: copy_labels(&self.labels) }
    }

    /// A copy of the labels of this name.
    pub fn to_labels(&self) -> (labels: Vec<Vec<u8>>)
        ensures
            labels_view(labels@) == self@,
    {
        copy_labels(&self.labels)
    }

    /// The text of this name: each label followed by a dot.
    pub fn to_text(&self) -> (text: Vec<u8>)
        ensures
            text@ == dotted(self@),
    {
        let mut text: Vec<u8> = Vec::new();
        let mut i: usize = 0;
        while i < self.labels.len()
            invariant
                i <= self.labels@.len(),
                text@ == dotted(self@.take(i as int)),
            decreases self.labels@.len() - i,
        {
            let label = &self.labels[i];
            let ghost start = text@;
            let mut j: usize = 0;
            while j < label.len()
                invariant
                    j <= label@.len(),
                    text@ == start + label@.take(j as int),
                decreases label@.len() - j,
            {
                text.push(label[j]);
                j = j + 1;
                assert(text@ =~= start + label@.take(j as int));
            }
            text.push(DOT);
            proof {
                assert(label@.take(j as int) =~= label@);
                assert(self@.take(i + 1).drop_last() =~= self@.take(i as int));
                assert(self@.take(i + 1).last() == label@);
                assert(text@ =~= start + label@.push(DOT));
            }
            i = i + 1;
        }
        assert(self@.take(i as int) =~= self@);
        text
    }
}

} // verus!
