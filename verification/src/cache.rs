//! The cache of answers: bounded, least recently used out first, and each
//! entry good for its time to live.

use crate::message::{
    message_ok, records_ok, records_view, Message, MessageView, RCODE_NO_ERROR,
};
use crate::name::{labels_view, name_ok, DomainName};
use crate::question::{Question, QuestionView};
use crate::resource_record::{record_ok, RecordView, ResourceRecord};
use lru::LruCache;
use std::num::NonZeroUsize;
use vstd::prelude::*;

verus! {

/// The number of entries that a cache holds unless told otherwise.
pub const DEFAULT_CACHE_CAPACITY: usize = 1024;

/// The largest capacity that a cache can be made with.
pub const MAX_CACHE_CAPACITY: usize = 1_048_576;

/// The number of clock ticks in a second: the clock counts milliseconds.
pub const TICKS_PER_SECOND: u64 = 1000;

/// What a cache is asked for: a name in lower case, a type and a class.
#[derive(Clone, Debug, PartialEq, Eq)]
pub struct CacheKey {
    pub name: DomainName,
    pub rtype: u16,
    pub class: u16,
}

/// What a key holds.
pub struct CacheKeyView {
    pub name: Seq<Seq<u8>>,
    pub rtype: u16,
    pub class: u16,
}

impl View for CacheKey {
    type V = CacheKeyView;

    open spec fn view(&self) -> CacheKeyView {
        CacheKeyView { name: self.name@, rtype: self.rtype, class: self.class }
    }
}

/// An entry: the records, when they were put in, and how many seconds they
/// are good for from then on.
#[derive(Clone, Debug, PartialEq, Eq)]
pub struct CacheEntry {
    pub records: Vec<ResourceRecord>,
    pub inserted_at: u64,
    pub ttl: u32,
}

/// What an entry holds.
pub struct CacheEntryView {
    pub records: Seq<RecordView>,
    pub inserted_at: u64,
    pub ttl: u32,
}

impl View for CacheEntry {
    type V = CacheEntryView;

    open spec fn view(&self) -> CacheEntryView {
        CacheEntryView {
            records: records_view(self.records@),
            inserted_at: self.inserted_at,
            ttl: self.ttl,
        }
    }
}

/// The whole seconds from `since` to `now`; none if the clock went back.
pub open spec fn elapsed_seconds(since: u64, now: u64) -> int {
    if now >= since {
        (now - since) / (TICKS_PER_SECOND as int)
    } else {
        0
    }
}

/// The seconds that `ttl` has left after `elapsed` seconds, at least 0.
pub open spec fn remaining_ttl(ttl: u32, elapsed: int) -> u32 {
    if elapsed >= ttl {
        0
    } else {
        (ttl - elapsed) as u32
    }
}

/// An entry has expired once it has no time left; one with a time to live
/// of 0 has expired from the start.
pub open spec fn expired(entry: CacheEntryView, now: u64) -> bool {
    remaining_ttl(entry.ttl, elapsed_seconds(entry.inserted_at, now)) == 0
}

/// The records with the time to live of each lowered by `elapsed` seconds.
pub open spec fn aged(records: Seq<RecordView>, elapsed: int) -> Seq<RecordView> {
    Seq::new(
        records.len(),
        |i: int| RecordView { ttl: remaining_ttl(records[i].ttl, elapsed), ..records[i] },
    )
}

/// The place of the first entry for `key`, or the number of entries if
/// there is none.
pub open spec fn index_of(entries: Seq<(CacheKeyView, CacheEntryView)>, key: CacheKeyView) -> int
    decreases entries.len(),
{
    if entries.len() == 0 {
        0
    } else if entries[0].0 == key {
        0
    } else {
        1 + index_of(entries.drop_first(), key)
    }
}

/// There is an entry for `key`.
pub open spec fn has_key(entries: Seq<(CacheKeyView, CacheEntryView)>, key: CacheKeyView) -> bool {
    index_of(entries, key) < entries.len()
}

/// The entries after the one for `key` was used: it has moved to the front.
pub open spec fn touched(entries: Seq<(CacheKeyView, CacheEntryView)>, key: CacheKeyView) -> Seq<
    (CacheKeyView, CacheEntryView),
> {
    let at = index_of(entries, key);
    if at < entries.len() {
        seq![entries[at]] + entries.remove(at)
    } else {
        entries
    }
}

/// The entries without the one for `key`.
pub open spec fn removed(entries: Seq<(CacheKeyView, CacheEntryView)>, key: CacheKeyView) -> Seq<
    (CacheKeyView, CacheEntryView),
> {
    let at = index_of(entries, key);
    if at < entries.len() {
        entries.remove(at)
    } else {
        entries
    }
}

/// The entries after `entry` was put in for `key`: it stands at the front;
/// an earlier entry for the key is gone; otherwise, if the cache was full,
/// the last entry, the least recently used one, is gone.
pub open spec fn inserted(
    entries: Seq<(CacheKeyView, CacheEntryView)>,
    key: CacheKeyView,
    entry: CacheEntryView,
    limit: nat,
) -> Seq<(CacheKeyView, CacheEntryView)> {
    let at = index_of(entries, key);
    if at < entries.len() {
        seq![(key, entry)] + entries.remove(at)
    } else if entries.len() == limit {
        seq![(key, entry)] + entries.drop_last()
    } else {
        seq![(key, entry)] + entries
    }
}

/// No two entries have the same key.
pub open spec fn keys_distinct(entries: Seq<(CacheKeyView, CacheEntryView)>) -> bool {
    forall|i: int, j: int|
        0 <= i < entries.len() && 0 <= j < entries.len() && i != j ==> (#[trigger] entries[i]).0
            != (#[trigger] entries[j]).0
}

/// `index_of` gives the first place of the key.
pub proof fn lemma_index_of(entries: Seq<(CacheKeyView, CacheEntryView)>, key: CacheKeyView)
    ensures
        0 <= index_of(entries, key) <= entries.len(),
        has_key(entries, key) ==> entries[index_of(entries, key)].0 == key,
        forall|j: int| 0 <= j < index_of(entries, key) ==> (#[trigger] entries[j]).0 != key,
    decreases entries.len(),
{
    if entries.len() > 0 && entries[0].0 != key {
        let rest = entries.drop_first();
        lemma_index_of(rest, key);
        assert forall|j: int| 0 <= j < index_of(entries, key) implies (#[trigger] entries[j]).0
            != key by {
            if j > 0 {
                assert(rest[j - 1] == entries[j]);
            }
        }
    }
}

/// The key of the tuple that the store is keyed by.
pub open spec fn store_key_view(key: (Vec<Vec<u8>>, u16, u16)) -> CacheKeyView {
    CacheKeyView { name: labels_view(key.0@), rtype: key.1, class: key.2 }
}

/// `lru::LruCache`, taken as it is: nothing inside it is looked at.
#[verifier::external_type_specification]
#[verifier::external_body]
#[verifier::reject_recursive_types(K)]
#[verifier::reject_recursive_types(V)]
#[verifier::reject_recursive_types(S)]
pub struct ExLruCache<K, V, S>(LruCache<K, V, S>);

/// What an `LruCache` holds: its keys with their entries, the most
/// recently used first.
pub uninterp spec fn lru_entries(store: LruCache<(Vec<Vec<u8>>, u16, u16), CacheEntry>) -> Seq<
    (CacheKeyView, CacheEntryView),
>;

/// The number of entries that an `LruCache` was made for: what was handed
/// to `LruCache::new`, and what `LruCache::cap` tells.
pub uninterp spec fn lru_limit(store: LruCache<(Vec<Vec<u8>>, u16, u16), CacheEntry>) -> nat;

/// `LruCache::new`: an empty store for at most `capacity` entries. The
/// function takes a capacity that is not 0 and sets aside room for that
/// many entries.
#[verifier::external_body]
fn store_new(capacity: usize) -> (store: LruCache<(Vec<Vec<u8>>, u16, u16), CacheEntry>)
    requires
        0 < capacity <= MAX_CACHE_CAPACITY,
    ensures
        lru_entries(store) == Seq::<(CacheKeyView, CacheEntryView)>::empty(),
        lru_limit(store) == capacity,
{
    LruCache::new(NonZeroUsize::new(capacity).unwrap())
}

/// `LruCache::len`: the number of entries.
#[verifier::external_body]
fn store_len(store: &LruCache<(Vec<Vec<u8>>, u16, u16), CacheEntry>) -> (len: usize)
    ensures
        len == lru_entries(*store).len(),
{
    store.len()
}

/// `LruCache::get`: the entry for `key`, if there is one; it becomes the
/// most recently used one, and nothing else changes.
#[verifier::external_body]
fn store_get<'a>(
    store: &'a mut LruCache<(Vec<Vec<u8>>, u16, u16), CacheEntry>,
    key: &(Vec<Vec<u8>>, u16, u16),
) -> (found: Option<&'a CacheEntry>)
    ensures
        lru_limit(*final(store)) == lru_limit(*old(store)),
        lru_entries(*final(store)) == touched(lru_entries(*old(store)), store_key_view(*key)),
        found is Some == has_key(lru_entries(*old(store)), store_key_view(*key)),
        found is Some ==> found->0@ == lru_entries(*old(store))[index_of(
            lru_entries(*old(store)),
            store_key_view(*key),
        )].1,
{
    store.get(key)
}

/// `LruCache::pop`: takes the entry for `key` out, if there is one, and
/// returns it; nothing else changes.
#[verifier::external_body]
fn store_pop(
    store: &mut LruCache<(Vec<Vec<u8>>, u16, u16), CacheEntry>,
    key: &(Vec<Vec<u8>>, u16, u16),
) -> (found: Option<CacheEntry>)
    ensures
        lru_limit(*final(store)) == lru_limit(*old(store)),
        lru_entries(*final(store)) == removed(lru_entries(*old(store)), store_key_view(*key)),
        found is Some == has_key(lru_entries(*old(store)), store_key_view(*key)),
        found is Some ==> found->0@ == lru_entries(*old(store))[index_of(
            lru_entries(*old(store)),
            store_key_view(*key),
        )].1,
{
    store.pop(key)
}

/// `LruCache::put`: puts `entry` in for `key` as the most recently used
/// one. An earlier entry for the key is replaced and returned. Otherwise
/// nothing is returned, and if the store held as many entries as it was
/// made for, the least recently used one leaves.
#[verifier::external_body]
fn store_put(
    store: &mut LruCache<(Vec<Vec<u8>>, u16, u16), CacheEntry>,
    key: (Vec<Vec<u8>>, u16, u16),
    entry: CacheEntry,
) -> (replaced: Option<CacheEntry>)
    ensures
        lru_limit(*final(store)) == lru_limit(*old(store)),
        lru_entries(*final(store)) == inserted(
            lru_entries(*old(store)),
            store_key_view(key),
            entry@,
            lru_limit(*old(store)),
        ),
        replaced is Some == has_key(lru_entries(*old(store)), store_key_view(key)),
        replaced is Some ==> replaced->0@ == lru_entries(*old(store))[index_of(
            lru_entries(*old(store)),
            store_key_view(key),
        )].1,
{
    store.put(key, entry)
}

/// `LruCache::iter`: the keys and entries, the most recently used first.
#[verifier::external_body]
fn store_list<'a>(store: &'a LruCache<(Vec<Vec<u8>>, u16, u16), CacheEntry>) -> (listed: Vec<
    (&'a (Vec<Vec<u8>>, u16, u16), &'a CacheEntry),
>)
    ensures
        listed@.len() == lru_entries(*store).len(),
        forall|i: int|
            0 <= i < listed@.len() ==> store_key_view(*(#[trigger] listed@[i]).0) == lru_entries(
                *store,
            )[i].0 && listed@[i].1@ == lru_entries(*store)[i].1,
{
    store.iter().collect()
}

/// What a cache holds: its entries, the most recently used first, the
/// number of entries it was made for, and how often it was asked with and
/// without success.
pub struct CacheView {
    pub entries: Seq<(CacheKeyView, CacheEntryView)>,
    pub capacity: nat,
    pub hits: u64,
    pub misses: u64,
}

/// What can be stored: well-formed records, at most 65535 of them, under a
/// well-formed name.
pub open spec fn storable(key: CacheKeyView, records: Seq<RecordView>) -> bool {
    name_ok(key.name) && records_ok(records) && records.len() <= 65535
}

/// A cache is in order if it holds no more entries than it was made for, no
/// two for the same key, and each of them storable.
pub open spec fn cache_ok(cache: CacheView) -> bool {
    &&& 0 < cache.capacity <= MAX_CACHE_CAPACITY
    &&& cache.entries.len() <= cache.capacity
    &&& keys_distinct(cache.entries)
    &&& forall|i: int|
        0 <= i < cache.entries.len() ==> storable(
            (#[trigger] cache.entries[i]).0,
            cache.entries[i].1.records,
        )
}

/// A counter one higher, unless it has reached its end.
pub open spec fn bumped(counter: u64) -> u64 {
    if counter < u64::MAX {
        (counter + 1) as u64
    } else {
        counter
    }
}

/// What asking for `key` at `now` gives, and what the cache holds
/// afterwards. An entry that has not expired is a hit: its records come
/// back with the time to live of each lowered by the seconds since the
/// entry was put in, and the entry becomes the most recently used one. No
/// entry, or an expired one, is a miss: nothing comes back, and the expired
/// entry is gone.
pub open spec fn cache_get(cache: CacheView, key: CacheKeyView, now: u64) -> (
    CacheView,
    Option<Seq<RecordView>>,
) {
    let at = index_of(cache.entries, key);
    if at < cache.entries.len() && !expired(cache.entries[at].1, now) {
        let entry = cache.entries[at].1;
        (
            CacheView {
                entries: touched(cache.entries, key),
                hits: bumped(cache.hits),
                ..cache
            },
            Some(aged(entry.records, elapsed_seconds(entry.inserted_at, now))),
        )
    } else {
        (
            CacheView {
                entries: removed(cache.entries, key),
                misses: bumped(cache.misses),
                ..cache
            },
            None,
        )
    }
}

/// What the cache holds after `records` were put in for `key` at `now`,
/// good for `ttl` seconds. What cannot be stored is not put in.
pub open spec fn cache_put(
    cache: CacheView,
    key: CacheKeyView,
    records: Seq<RecordView>,
    ttl: u32,
    now: u64,
) -> CacheView {
    if storable(key, records) {
        CacheView {
            entries: inserted(
                cache.entries,
                key,
                CacheEntryView { records, inserted_at: now, ttl },
                cache.capacity,
            ),
            ..cache
        }
    } else {
        cache
    }
}

/// The least time to live among the records; the largest there is where
/// there are no records.
pub open spec fn least_ttl(records: Seq<RecordView>) -> u32
    decreases records.len(),
{
    if records.len() == 0 {
        u32::MAX
    } else {
        let rest = least_ttl(records.drop_last());
        if records.last().ttl < rest {
            records.last().ttl
        } else {
            rest
        }
    }
}

/// A response can be cached if it reports success and holds an answer.
pub open spec fn cacheable(response: MessageView) -> bool {
    response.flags.rcode == RCODE_NO_ERROR && response.answers.len() >= 1
}

/// The key for a question: its name, type and class.
pub open spec fn question_key(question: QuestionView) -> CacheKeyView {
    CacheKeyView { name: question.name, rtype: question.qtype, class: question.qclass }
}

/// What the cache holds after the response to `question` was offered to it
/// at `now`: the answers of a cacheable response are put in under the
/// question, good for the least time to live among them.
pub open spec fn cache_put_response(
    cache: CacheView,
    question: QuestionView,
    response: MessageView,
    now: u64,
) -> CacheView {
    if cacheable(response) {
        cache_put(
            cache,
            question_key(question),
            response.answers,
            least_ttl(response.answers),
            now,
        )
    } else {
        cache
    }
}

/// One line of a listing of the cache.
#[derive(Clone, Debug, PartialEq, Eq)]
pub struct CacheLine {
    pub name: DomainName,
    pub rtype: u16,
    pub class: u16,
    /// The seconds that the entry is still good for.
    pub remaining_ttl: u32,
    pub records: Vec<ResourceRecord>,
}

/// What a line holds.
pub struct CacheLineView {
    pub name: Seq<Seq<u8>>,
    pub rtype: u16,
    pub class: u16,
    pub remaining_ttl: u32,
    pub records: Seq<RecordView>,
}

impl View for CacheLine {
    type V = CacheLineView;

    open spec fn view(&self) -> CacheLineView {
        CacheLineView {
            name: self.name@,
            rtype: self.rtype,
            class: self.class,
            remaining_ttl: self.remaining_ttl,
            records: records_view(self.records@),
        }
    }
}

/// What a sequence of lines holds.
pub open spec fn lines_view(lines: Seq<CacheLine>) -> Seq<CacheLineView> {
    Seq::new(lines.len(), |i: int| lines[i]@)
}

/// The listing of the entries that have not expired at `now`, in their
/// order, each with the time it has left.
pub open spec fn listing(entries: Seq<(CacheKeyView, CacheEntryView)>, now: u64) -> Seq<
    CacheLineView,
>
    decreases entries.len(),
{
    if entries.len() == 0 {
        Seq::empty()
    } else {
        let before = listing(entries.drop_last(), now);
        let (key, entry) = entries.last();
        if expired(entry, now) {
            before
        } else {
            before.push(
                CacheLineView {
                    name: key.name,
                    rtype: key.rtype,
                    class: key.class,
                    remaining_ttl: remaining_ttl(
                        entry.ttl,
                        elapsed_seconds(entry.inserted_at, now),
                    ),
                    records: entry.records,
                },
            )
        }
    }
}

/// Records stay well formed as they age.
pub proof fn lemma_aged_ok(records: Seq<RecordView>, elapsed: int)
    requires
        records_ok(records),
    ensures
        records_ok(aged(records, elapsed)),
        aged(records, elapsed).len() == records.len(),
{
    assert forall|i: int| 0 <= i < records.len() implies record_ok(
        #[trigger] aged(records, elapsed)[i],
    ) by {
        assert(record_ok(records[i]));
    }
}

/// Using or removing an entry keeps a cache in order.
pub proof fn lemma_touched_removed_ok(cache: CacheView, key: CacheKeyView)
    requires
        cache_ok(cache),
    ensures
        cache_ok(CacheView { entries: touched(cache.entries, key), ..cache }),
        cache_ok(CacheView { entries: removed(cache.entries, key), ..cache }),
        has_key(cache.entries, key) ==> storable(
            key,
            cache.entries[index_of(cache.entries, key)].1.records,
        ),
{
    lemma_index_of(cache.entries, key);
    let entries = cache.entries;
    let at = index_of(entries, key);
    if at < entries.len() {
        let moved = seq![entries[at]] + entries.remove(at);
        assert forall|i: int| 0 <= i < moved.len() implies #[trigger] moved[i] == entries[if i
            == 0 {
            at
        } else if i - 1 < at {
            i - 1
        } else {
            i
        }] by {}
        let gone = entries.remove(at);
        assert forall|i: int| 0 <= i < gone.len() implies #[trigger] gone[i] == entries[if i < at {
            i
        } else {
            i + 1
        }] by {}
    }
}

/// Putting a storable entry in keeps a cache in order.
pub proof fn lemma_inserted_ok(
    cache: CacheView,
    key: CacheKeyView,
    entry: CacheEntryView,
)
    requires
        cache_ok(cache),
        storable(key, entry.records),
    ensures
        cache_ok(CacheView { entries: inserted(cache.entries, key, entry, cache.capacity), ..cache }),
{
    lemma_index_of(cache.entries, key);
    let entries = cache.entries;
    let at = index_of(entries, key);
    let after = inserted(entries, key, entry, cache.capacity);
    if at < entries.len() {
        assert forall|i: int| 1 <= i < after.len() implies #[trigger] after[i] == entries[if i - 1
            < at {
            i - 1
        } else {
            i
        }] by {}
    } else if entries.len() == cache.capacity {
        assert forall|i: int| 1 <= i < after.len() implies #[trigger] after[i] == entries[i - 1] by {}
    } else {
        assert forall|i: int| 1 <= i < after.len() implies #[trigger] after[i] == entries[i - 1] by {}
    }
    assert(after[0] == (key, entry));
}

/// Where a full cache gets an entry for a key it does not hold, exactly
/// the least recently used entry leaves: the new entry stands at the front
/// and all others but the last follow in their order.
pub proof fn lemma_full_cache_evicts_least_recent(
    entries: Seq<(CacheKeyView, CacheEntryView)>,
    key: CacheKeyView,
    entry: CacheEntryView,
    limit: nat,
)
    requires
        keys_distinct(entries),
        entries.len() == limit,
        limit > 0,
        !has_key(entries, key),
    ensures
        inserted(entries, key, entry, limit) == seq![(key, entry)] + entries.drop_last(),
        inserted(entries, key, entry, limit).len() == limit,
        !has_key(inserted(entries, key, entry, limit), entries.last().0),
        forall|i: int|
            0 <= i < limit - 1 ==> has_key(
                inserted(entries, key, entry, limit),
                (#[trigger] entries[i]).0,
            ) && inserted(entries, key, entry, limit)[index_of(
                inserted(entries, key, entry, limit),
                entries[i].0,
            )] == entries[i],
        has_key(inserted(entries, key, entry, limit), key),
{
    let after = inserted(entries, key, entry, limit);
    lemma_index_of(entries, key);
    assert(after[0] == (key, entry));
    assert forall|i: int| 1 <= i < after.len() implies #[trigger] after[i] == entries[i - 1] by {}
    lemma_index_of(after, entries.last().0);
    lemma_index_of(after, key);
    assert forall|i: int| 0 <= i < limit - 1 implies has_key(after, (#[trigger] entries[i]).0)
        && after[index_of(after, entries[i].0)] == entries[i] by {
        lemma_index_of(after, entries[i].0);
        assert(after[i + 1] == entries[i]);
        let at = index_of(after, entries[i].0);
        if at != i + 1 {
            if at > 0 {
                assert(after[at] == entries[at - 1]);
            }
        }
    }
    if has_key(after, entries.last().0) {
        let at = index_of(after, entries.last().0);
        if at > 0 {
            assert(after[at] == entries[at - 1]);
        }
    }
}

/// Asking for an entry that has expired is a miss and takes the entry out.
pub proof fn lemma_expired_entry_leaves(cache: CacheView, key: CacheKeyView, now: u64)
    requires
        cache_ok(cache),
        has_key(cache.entries, key),
        expired(cache.entries[index_of(cache.entries, key)].1, now),
    ensures
        cache_get(cache, key, now).1 is None,
        cache_get(cache, key, now).0.misses == bumped(cache.misses),
        cache_get(cache, key, now).0.entries.len() == cache.entries.len() - 1,
        !has_key(cache_get(cache, key, now).0.entries, key),
{
    lemma_index_of(cache.entries, key);
    let at = index_of(cache.entries, key);
    let rest = cache.entries.remove(at);
    assert forall|i: int| 0 <= i < rest.len() implies #[trigger] rest[i] == cache.entries[if i
        < at {
        i
    } else {
        i + 1
    }] by {}
    lemma_index_of(rest, key);
    if has_key(rest, key) {
        let i = index_of(rest, key);
        assert(rest[i].0 == key);
    }
}

/// What the entries are after `items` were put in, one after the other.
pub open spec fn put_all(
    entries: Seq<(CacheKeyView, CacheEntryView)>,
    items: Seq<(CacheKeyView, CacheEntryView)>,
    limit: nat,
) -> Seq<(CacheKeyView, CacheEntryView)>
    decreases items.len(),
{
    if items.len() == 0 {
        entries
    } else {
        put_all(
            inserted(entries, items[0].0, items[0].1, limit),
            items.drop_first(),
            limit,
        )
    }
}

/// The last `count` of `items`, or all of them where there are fewer, the
/// last one first.
pub open spec fn newest_first(items: Seq<(CacheKeyView, CacheEntryView)>, count: nat) -> Seq<
    (CacheKeyView, CacheEntryView),
> {
    Seq::new(
        if items.len() <= count {
            items.len()
        } else {
            count
        },
        |i: int| items[items.len() - 1 - i],
    )
}

/// The first `count` of `entries`, or all of them where there are fewer.
pub open spec fn first_of(entries: Seq<(CacheKeyView, CacheEntryView)>, count: nat) -> Seq<
    (CacheKeyView, CacheEntryView),
> {
    if entries.len() <= count {
        entries
    } else {
        entries.take(count as int)
    }
}

/// Putting in entries for keys that are all different and not yet there
/// leaves the newest of them in front of the ones that were there, as many
/// as the cache was made for.
pub proof fn lemma_put_all(
    entries: Seq<(CacheKeyView, CacheEntryView)>,
    items: Seq<(CacheKeyView, CacheEntryView)>,
    limit: nat,
)
    requires
        limit > 0,
        entries.len() <= limit,
        keys_distinct(entries + items),
    ensures
        put_all(entries, items, limit) == first_of(
            newest_first(items, items.len()) + entries,
            limit,
        ),
    decreases items.len(),
{
    let all = entries + items;
    if items.len() == 0 {
        assert(newest_first(items, items.len()) + entries =~= entries);
    } else {
        let first = items[0];
        let rest = items.drop_first();
        lemma_index_of(entries, first.0);
        if has_key(entries, first.0) {
            let at = index_of(entries, first.0);
            assert(all[at] == entries[at]);
            assert(all[entries.len() as int] == first);
        }
        let next = inserted(entries, first.0, first.1, limit);
        assert(next =~= first_of(seq![first] + entries, limit));
        assert forall|i: int, j: int|
            0 <= i < (next + rest).len() && 0 <= j < (next + rest).len() && i != j implies (
        #[trigger] (next + rest)[i]).0 != (#[trigger] (next + rest)[j]).0 by {
            let source = |k: int|
                if k == 0 {
                    entries.len() as int
                } else if k < next.len() {
                    k - 1
                } else {
                    k - next.len() + entries.len() + 1
                };
            assert((next + rest)[i] == all[source(i)]);
            assert((next + rest)[j] == all[source(j)]);
        }
        lemma_put_all(next, rest, limit);
        assert(first_of(newest_first(rest, rest.len()) + next, limit) =~= first_of(
            newest_first(items, items.len()) + entries,
            limit,
        ));
    }
}

/// Putting entries for keys that are all different into an empty cache
/// leaves the newest of them, as many as the cache was made for, the last
/// one first: of one more than that many, exactly the first one, the
/// least recently used, is gone.
pub proof fn lemma_put_all_from_empty(items: Seq<(CacheKeyView, CacheEntryView)>, limit: nat)
    requires
        limit > 0,
        keys_distinct(items),
    ensures
        put_all(Seq::empty(), items, limit) == newest_first(items, limit),
        items.len() == limit + 1 ==> !has_key(put_all(Seq::empty(), items, limit), items[0].0)
            && forall|i: int|
            1 <= i < items.len() ==> has_key(
                put_all(Seq::empty(), items, limit),
                (#[trigger] items[i]).0,
            ),
{
    assert(Seq::<(CacheKeyView, CacheEntryView)>::empty() + items =~= items);
    lemma_put_all(Seq::empty(), items, limit);
    let kept = newest_first(items, limit);
    assert(first_of(newest_first(items, items.len()) + Seq::empty(), limit) =~= kept);
    if items.len() == limit + 1 {
        lemma_index_of(kept, items[0].0);
        if has_key(kept, items[0].0) {
            let at = index_of(kept, items[0].0);
            assert(kept[at] == items[items.len() - 1 - at]);
        }
        assert forall|i: int| 1 <= i < items.len() implies has_key(kept, (#[trigger] items[i]).0) by {
            lemma_index_of(kept, items[i].0);
            assert(kept[items.len() - 1 - i] == items[i]);
        }
    }
}

/// An entry has expired once as many seconds have passed as it was good
/// for, and not before.
pub proof fn lemma_expiry(entry: CacheEntryView, now: u64)
    ensures
        expired(entry, now) == (entry.ttl == 0 || now - entry.inserted_at >= entry.ttl
            * TICKS_PER_SECOND),
{
    let elapsed = elapsed_seconds(entry.inserted_at, now);
    if now >= entry.inserted_at {
        let ticks = now - entry.inserted_at;
        assert(ticks / 1000 >= entry.ttl <==> ticks >= entry.ttl * 1000) by (nonlinear_arith)
            requires
                ticks >= 0,
        ;
    }
}

/// The cache of answers.
pub struct Cache {
    store: LruCache<(Vec<Vec<u8>>, u16, u16), CacheEntry>,
    hits: u64,
    misses: u64,
}

/// A copy of the records.
pub fn copy_records(records: &Vec<ResourceRecord>) -> (copy: Vec<ResourceRecord>)
    ensures
        records_view(copy@) == records_view(records@),
{
    let mut copy: Vec<ResourceRecord> = Vec::new();
    let mut i: usize = 0;
    while i < records.len()
        invariant
            i <= records@.len(),
            copy@.len() == i,
            records_view(copy@) == records_view(records@).take(i as int),
        decreases records@.len() - i,
    {
        copy.push(records[i].duplicate());
        i = i + 1;
        assert(records_view(copy@) =~= records_view(records@).take(i as int));
    }
    assert(records_view(records@).take(i as int) =~= records_view(records@));
    copy
}

/// The seconds that `ttl` has left after `elapsed` seconds, at least 0.
pub fn ttl_after(ttl: u32, elapsed: u64) -> (left: u32)
    ensures
        left == remaining_ttl(ttl, elapsed as int),
{
    if elapsed >= ttl as u64 {
        0
    } else {
        ttl - elapsed as u32
    }
}

/// The whole seconds from `since` to `now`; none if the clock went back.
pub fn seconds_between(since: u64, now: u64) -> (elapsed: u64)
    ensures
        elapsed == elapsed_seconds(since, now),
{
    if now >= since {
        (now - since) / TICKS_PER_SECOND
    } else {
        0
    }
}

/// A copy of the records with the time to live of each lowered by
/// `elapsed` seconds.
pub fn age_records(records: &Vec<ResourceRecord>, elapsed: u64) -> (copy: Vec<ResourceRecord>)
    ensures
        records_view(copy@) == aged(records_view(records@), elapsed as int),
{
    let mut copy: Vec<ResourceRecord> = Vec::new();
    let mut i: usize = 0;
    while i < records.len()
        invariant
            i <= records@.len(),
            copy@.len() == i,
            records_view(copy@) == aged(records_view(records@), elapsed as int).take(i as int),
        decreases records@.len() - i,
    {
        let record = &records[i];
        copy.push(record.with_ttl(ttl_after(record.ttl, elapsed)));
        i = i + 1;
        assert(records_view(copy@) =~= aged(records_view(records@), elapsed as int).take(
            i as int,
        ));
    }
    assert(aged(records_view(records@), elapsed as int).take(i as int) =~= aged(
        records_view(records@),
        elapsed as int,
    ));
    copy
}

/// The least time to live among the records.
pub fn least_ttl_of(records: &Vec<ResourceRecord>) -> (least: u32)
    ensures
        least == least_ttl(records_view(records@)),
{
    let ghost all = records_view(records@);
    let mut least: u32 = u32::MAX;
    let mut i: usize = 0;
    while i < records.len()
        invariant
            i <= records@.len(),
            all == records_view(records@),
            least == least_ttl(all.take(i as int)),
        decreases records@.len() - i,
    {
        proof {
            assert(all.take(i + 1).drop_last() =~= all.take(i as int));
            assert(all.take(i + 1).last() == all[i as int]);
        }
        if records[i].ttl < least {
            least = records[i].ttl;
        }
        i = i + 1;
    }
    assert(all.take(i as int) =~= all);
    least
}

impl CacheKey {
    /// The key for a question: its name, type and class.
    pub fn for_question(question: &Question) -> (key: CacheKey)
        ensures
            key@ == question_key(question@),
    {
        CacheKey { name: question.name.duplicate(), rtype: question.qtype, class: question.qclass }
    }

    /// The tuple that the store is keyed by.
    fn to_store_key(&self) -> (key: (Vec<Vec<u8>>, u16, u16))
        ensures
            store_key_view(key) == self@,
    {
        (self.name.to_labels(), self.rtype, self.class)
    }
}

impl Cache {
    /// What the cache holds.
    pub closed spec fn view(&self) -> CacheView {
        CacheView {
            entries: lru_entries(self.store),
            capacity: lru_limit(self.store),
            hits: self.hits,
            misses: self.misses,
        }
    }

    /// The cache is in order.
    pub open spec fn wf(&self) -> bool {
        cache_ok(self@)
    }

    /// An empty cache for 1024 entries.
    pub fn new() -> (cache: Cache)
        ensures
            cache.wf(),
            cache@ == (CacheView {
                entries: Seq::empty(),
                capacity: DEFAULT_CACHE_CAPACITY as nat,
                hits: 0,
                misses: 0,
            }),
    {
        Cache { store: store_new(DEFAULT_CACHE_CAPACITY), hits: 0, misses: 0 }
    }

    /// An empty cache for `capacity` entries; none where the capacity is 0
    /// or above the largest there is.
    pub fn with_capacity(capacity: usize) -> (cache: Option<Cache>)
        ensures
            cache is Some == (0 < capacity <= MAX_CACHE_CAPACITY),
            cache is Some ==> cache->0.wf() && cache->0@ == (CacheView {
                entries: Seq::empty(),
                capacity: capacity as nat,
                hits: 0,
                misses: 0,
            }),
    {
        if capacity == 0 || capacity > MAX_CACHE_CAPACITY {
            return None;
        }
        Some(Cache { store: store_new(capacity), hits: 0, misses: 0 })
    }

    /// The number of entries, expired ones that were not asked for since
    /// among them.
    pub fn len(&self) -> (len: usize)
        ensures
            len == self@.entries.len(),
    {
        store_len(&self.store)
    }

    /// How often the cache had what it was asked for.
    pub fn hits(&self) -> (hits: u64)
        ensures
            hits == self@.hits,
    {
        self.hits
    }

    /// How often the cache did not have what it was asked for.
    pub fn misses(&self) -> (misses: u64)
        ensures
            misses == self@.misses,
    {
        self.misses
    }

    /// The records for `key` at `now`, if the cache has them and they have
    /// not expired.
    pub fn get(&mut self, key: &CacheKey, now: u64) -> (records: Option<Vec<ResourceRecord>>)
        requires
            old(self).wf(),
        ensures
            final(self).wf(),
            final(self)@ == cache_get(old(self)@, key@, now).0,
            records is Some == cache_get(old(self)@, key@, now).1 is Some,
            records is Some ==> records_view(records->0@) == cache_get(old(self)@, key@, now).1->0,
            records is Some ==> records_ok(records_view(records->0@)) && records->0@.len()
                <= 65535,
    {
        let store_key = key.to_store_key();
        let ghost before = self@;
        proof {
            lemma_touched_removed_ok(before, key@);
            lemma_index_of(before.entries, key@);
        }
        let fresh = match store_get(&mut self.store, &store_key) {
            Some(entry) => {
                let elapsed = seconds_between(entry.inserted_at, now);
                if ttl_after(entry.ttl, elapsed) == 0 {
                    None
                } else {
                    Some(age_records(&entry.records, elapsed))
                }
            },
            None => None,
        };
        match fresh {
            Some(records) => {
                if self.hits < u64::MAX {
                    self.hits = self.hits + 1;
                }
                assert(self@ =~= cache_get(before, key@, now).0);
                proof {
                    let at = index_of(before.entries, key@);
                    let entry = before.entries[at].1;
                    assert(storable(before.entries[at].0, entry.records));
                    lemma_aged_ok(entry.records, elapsed_seconds(entry.inserted_at, now));
                    assert(records_view(records@) == aged(
                        entry.records,
                        elapsed_seconds(entry.inserted_at, now),
                    ));
                    assert(records@.len() == records_view(records@).len());
                }
                Some(records)
            },
            None => {
                let ghost between = self@;
                proof {
                    lemma_index_of(between.entries, key@);
                    if has_key(before.entries, key@) {
                        // the entry was moved to the front before it is taken out
                        let at = index_of(before.entries, key@);
                        assert(between.entries[0] == before.entries[at]);
                        assert(index_of(between.entries, key@) == 0);
                        assert(between.entries.remove(0) =~= before.entries.remove(at));
                    }
                }
                let _ = store_pop(&mut self.store, &store_key);
                if self.misses < u64::MAX {
                    self.misses = self.misses + 1;
                }
                assert(self@ =~= cache_get(before, key@, now).0);
                None
            },
        }
    }

    /// Puts `records` in for `key` at `now`, good for `ttl` seconds, in
    /// place of what was there for the key. If the cache is full, the least
    /// recently used entry leaves. Says whether the records were put in:
    /// what cannot be stored is not.
    pub fn put(&mut self, key: CacheKey, records: Vec<ResourceRecord>, ttl: u32, now: u64) -> (stored:
        bool)
        requires
            old(self).wf(),
        ensures
            final(self).wf(),
            stored == storable(key@, records_view(records@)),
            final(self)@ == cache_put(old(self)@, key@, records_view(records@), ttl, now),
    {
        if !key.name.is_valid() || records.len() > 65535 || !crate::message::records_are_valid(
            &records,
        ) {
            return false;
        }
        let store_key = key.to_store_key();
        let entry = CacheEntry { records, inserted_at: now, ttl };
        proof {
            lemma_inserted_ok(self@, key@, entry@);
        }
        let _ = store_put(&mut self.store, store_key, entry);
        assert(self@ =~= cache_put(old(self)@, key@, records_view(records@), ttl, now));
        true
    }

    /// Offers the response to `question` to the cache at `now`: the
    /// answers of one that reports success are put in under the question,
    /// good for the least time to live among them. Says whether they were
    /// put in.
    pub fn put_response(&mut self, question: &Question, response: &Message, now: u64) -> (stored:
        bool)
        requires
            old(self).wf(),
        ensures
            final(self).wf(),
            final(self)@ == cache_put_response(old(self)@, question@, response@, now),
            stored == (cacheable(response@) && storable(
                question_key(question@),
                response@.answers,
            )),
    {
        if response.flags.rcode != RCODE_NO_ERROR || response.answers.len() == 0 {
            return false;
        }
        let key = CacheKey::for_question(question);
        let records = copy_records(&response.answers);
        let ttl = least_ttl_of(&response.answers);
        self.put(key, records, ttl, now)
    }

    /// The listing of the entries that have not expired at `now`, the most
    /// recently used first. The cache stays as it is.
    pub fn snapshot(&self, now: u64) -> (lines: Vec<CacheLine>)
        requires
            self.wf(),
        ensures
            lines_view(lines@) == listing(self@.entries, now),
    {
        let listed = store_list(&self.store);
        let ghost entries = self@.entries;
        let mut lines: Vec<CacheLine> = Vec::new();
        let mut i: usize = 0;
        while i < listed.len()
            invariant
                i <= listed@.len() == entries.len(),
                entries == self@.entries,
                cache_ok(self@),
                forall|j: int|
                    0 <= j < listed@.len() ==> store_key_view(*(#[trigger] listed@[j]).0)
                        == entries[j].0 && listed@[j].1@ == entries[j].1,
                lines_view(lines@) == listing(entries.take(i as int), now),
            decreases listed@.len() - i,
        {
            let (key, entry) = listed[i];
            proof {
                assert(entries.take(i + 1).drop_last() =~= entries.take(i as int));
                assert(entries.take(i + 1).last() == entries[i as int]);
                assert(storable(entries[i as int].0, entries[i as int].1.records));
            }
            let elapsed = seconds_between(entry.inserted_at, now);
            let left = ttl_after(entry.ttl, elapsed);
            if left > 0 {
                let ghost before = lines_view(lines@);
                let line = CacheLine {
                    name: DomainName::from_checked_labels(crate::name::copy_labels(&key.0)),
                    rtype: key.1,
                    class: key.2,
                    remaining_ttl: left,
                    records: copy_records(&entry.records),
                };
                lines.push(line);
                assert(lines_view(lines@) =~= before.push(line@));
            }
            i = i + 1;
        }
        assert(entries.take(i as int) =~= entries);
        lines
    }
}

} // verus!
