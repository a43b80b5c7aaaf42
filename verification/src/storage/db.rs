//! The sharded store. Keys are spread over a power-of-two number of shards
//! by their hash; each shard keeps its entries in insertion order. Reads
//! expire entries lazily, a sampling sweep purges expired entries, and when
//! a memory limit is set, writes first evict least recently used entries
//! among a sample of each shard.
use std::hash::{Hash, Hasher};
use std::time::Instant;
use vstd::prelude::*;
use vstd::utf8::*;
use super::entry::{entry_size, expired, Entry, EntryView, ENTRY_OVERHEAD};

verus! {

/// A key with its entry, as a shard holds them.
pub type SlotView = (Seq<char>, EntryView);

/// What the standard library's `DefaultHasher` (created with `new`) yields
/// for a `str`; it depends on the text alone.
pub uninterp spec fn str_hash(s: Seq<char>) -> u64;

/// Trusted bridge to hashing a `str` with `std::hash::DefaultHasher::new()`
/// (`Hash::hash` then `Hasher::finish`): the result is a function of the text.
#[verifier::external_body]
pub(crate) fn hash_str(s: &str) -> (r: u64)
    ensures
        r == str_hash(s@),
{
    let mut h = std::hash::DefaultHasher::new();
    s.hash(&mut h);
    h.finish()
}

#[verifier::external_type_specification]
#[verifier::external_body]
pub struct ExInstant(std::time::Instant);

/// Trusted bridge to `Instant::now`: nothing is promised of the instant.
#[verifier::external_body]
fn clock_start() -> Instant {
    Instant::now()
}

/// Trusted bridge to `Instant::elapsed`, in nanoseconds: it depends on the
/// time of the call, so nothing is promised of it.
#[verifier::external_body]
fn nanos_since(epoch: &Instant) -> u64 {
    epoch.elapsed().as_nanos() as u64
}

/// The shard a key belongs to.
pub open spec fn shard_of(key: Seq<char>, mask: usize) -> int {
    ((str_hash(key) as usize) & mask) as int
}

/// Position of `key` in a shard.
pub open spec fn slot_index(es: Seq<SlotView>, key: Seq<char>) -> Option<int> {
    if exists|i: int| 0 <= i < es.len() && #[trigger] es[i].0 == key {
        Some(choose|i: int| 0 <= i < es.len() && #[trigger] es[i].0 == key)
    } else {
        None
    }
}

/// Sum of the accounted sizes of a shard's entries.
pub open spec fn sizes(es: Seq<SlotView>) -> nat
    decreases es.len(),
{
    if es.len() == 0 {
        0
    } else {
        sizes(es.drop_last()) + es.last().1.size
    }
}

/// Sum of the accounted sizes over all shards.
pub open spec fn total_size(shards: Seq<Seq<SlotView>>) -> nat
    decreases shards.len(),
{
    if shards.len() == 0 {
        0
    } else {
        total_size(shards.drop_last()) + sizes(shards.last())
    }
}

/// Number of entries over all shards.
pub open spec fn entry_count(shards: Seq<Seq<SlotView>>) -> nat
    decreases shards.len(),
{
    if shards.len() == 0 {
        0
    } else {
        entry_count(shards.drop_last()) + shards.last().len()
    }
}

/// A shard holds only keys that hash to it, each once, with exactly
/// accounted sizes.
pub open spec fn shard_ok(es: Seq<SlotView>, s: int, mask: usize) -> bool {
    &&& forall|i: int| 0 <= i < es.len() ==> shard_of(#[trigger] es[i].0, mask) == s
    &&& forall|i: int, j: int| 0 <= i < j < es.len() ==> #[trigger] es[i].0 != #[trigger] es[j].0
    &&& forall|i: int| 0 <= i < es.len() ==> slot_ok(#[trigger] es[i])
}

/// An entry's accounted size is that of its key and value.
pub open spec fn slot_ok(x: SlotView) -> bool {
    x.1.size == entry_size(encode_utf8(x.0).len(), x.1.value.len())
}

/// The content of the store: its shards in order, the accounted memory, the
/// memory limit (0: none) and the shard mask.
pub struct DbView {
    pub shards: Seq<Seq<SlotView>>,
    pub used: nat,
    pub max_memory: nat,
    pub mask: usize,
    /// The latest reading of the store's clock that an operation ran at
    /// (see [`Db::read_clock`]); readings never go back below it.
    pub clock: u64,
}

impl DbView {
    /// The same store with `t` recorded as its latest clock reading.
    pub open spec fn with_clock(self, t: u64) -> DbView {
        DbView { clock: t, ..self }
    }

    /// Each key sits in its own shard once; sizes are accounted exactly.
    pub open spec fn wf(self) -> bool {
        &&& self.shards.len() == self.mask as nat + 1
        &&& forall|s: int| 0 <= s < self.shards.len() ==> shard_ok(#[trigger] self.shards[s], s, self.mask)
        &&& self.used == total_size(self.shards)
    }

    /// The entry stored for `key`.
    pub open spec fn lookup(self, key: Seq<char>) -> Option<EntryView> {
        let s = shard_of(key, self.mask);
        match slot_index(self.shards[s], key) {
            Some(i) => Some(self.shards[s][i].1),
            None => None,
        }
    }

    pub open spec fn with_shard(self, s: int, es: Seq<SlotView>) -> DbView {
        DbView { shards: self.shards.update(s, es), used: (self.used - sizes(self.shards[s]) + sizes(es)) as nat, ..self }
    }

    /// Reading `key` at time `now`: a live entry is returned and marked as
    /// accessed; an expired one is removed.
    pub open spec fn get(self, key: Seq<char>, now: u64) -> (DbView, Option<Seq<u8>>) {
        let s = shard_of(key, self.mask);
        match slot_index(self.shards[s], key) {
            None => (self, None),
            Some(i) => {
                let e = self.shards[s][i].1;
                if expired(e, now) {
                    (self.with_shard(s, self.shards[s].remove(i)), None)
                } else {
                    (self.with_shard(s, self.shards[s].update(i, (key, EntryView { last_accessed: now, ..e }))), Some(e.value))
                }
            },
        }
    }

    /// Deleting `key`; reports whether it was present.
    pub open spec fn del(self, key: Seq<char>) -> (DbView, bool) {
        let s = shard_of(key, self.mask);
        match slot_index(self.shards[s], key) {
            None => (self, false),
            Some(i) => (self.with_shard(s, self.shards[s].remove(i)), true),
        }
    }

    /// The keys live at `now`, shard by shard, each in insertion order.
    pub open spec fn keys(self, now: u64) -> Seq<Seq<char>> {
        live_keys(self.shards, now)
    }

    /// The store after a sweep that checks the first `sample` entries of each
    /// shard and removes those expired at `now`.
    pub open spec fn purge(self, sample: nat, now: u64) -> DbView {
        let shards = Seq::new(self.shards.len(), |t: int| purge_shard(self.shards[t], sample, now));
        DbView { shards, used: total_size(shards), ..self }
    }

    /// Storing `value` under `key` at time `now`: with a memory limit, entries
    /// are evicted first; then the new entry replaces the key's old one.
    pub open spec fn set(self, key: Seq<char>, value: Seq<u8>, expires_at: Option<u64>, now: u64) -> DbView {
        let w = if self.max_memory > 0 {
            evict(self)
        } else {
            self
        };
        w.put(key, new_entry(key, value, expires_at, now))
    }

    /// Storing `e` under `key`, replacing its previous entry in place.
    pub open spec fn put(self, key: Seq<char>, e: EntryView) -> DbView {
        let s = shard_of(key, self.mask);
        match slot_index(self.shards[s], key) {
            Some(i) => self.with_shard(s, self.shards[s].update(i, (key, e))),
            None => self.with_shard(s, self.shards[s].push((key, e))),
        }
    }
}

/// The entry `set` stores.
pub open spec fn new_entry(key: Seq<char>, value: Seq<u8>, expires_at: Option<u64>, now: u64) -> EntryView {
    EntryView { value, expires_at, last_accessed: now, size: entry_size(encode_utf8(key).len(), value.len()) }
}

pub proof fn lemma_slot_index(es: Seq<SlotView>, key: Seq<char>)
    ensures
        match slot_index(es, key) {
            Some(i) => 0 <= i < es.len() && es[i].0 == key,
            None => forall|k: int| 0 <= k < es.len() ==> #[trigger] es[k].0 != key,
        },
{
    if exists|i: int| 0 <= i < es.len() && #[trigger] es[i].0 == key {
        let c = choose|i: int| 0 <= i < es.len() && #[trigger] es[i].0 == key;
        assert(0 <= c < es.len() && es[c].0 == key);
    }
}

pub proof fn lemma_sizes_update(es: Seq<SlotView>, i: int, x: SlotView)
    requires
        0 <= i < es.len(),
    ensures
        sizes(es.update(i, x)) + es[i].1.size == sizes(es) + x.1.size,
    decreases es.len(),
{
    if i < es.len() - 1 {
        lemma_sizes_update(es.drop_last(), i, x);
        assert(es.update(i, x).drop_last() =~= es.drop_last().update(i, x));
    } else {
        assert(es.update(i, x).drop_last() =~= es.drop_last());
    }
}

pub proof fn lemma_sizes_remove(es: Seq<SlotView>, i: int)
    requires
        0 <= i < es.len(),
    ensures
        sizes(es.remove(i)) + es[i].1.size == sizes(es),
    decreases es.len(),
{
    if i < es.len() - 1 {
        lemma_sizes_remove(es.drop_last(), i);
        assert(es.remove(i).drop_last() =~= es.drop_last().remove(i));
        assert(es.remove(i).last() == es.last());
    } else {
        assert(es.remove(i) =~= es.drop_last());
    }
}

pub proof fn lemma_sizes_push(es: Seq<SlotView>, x: SlotView)
    ensures
        sizes(es.push(x)) == sizes(es) + x.1.size,
{
    assert(es.push(x).drop_last() =~= es);
}

pub proof fn lemma_sizes_element(es: Seq<SlotView>, i: int)
    requires
        0 <= i < es.len(),
    ensures
        es[i].1.size <= sizes(es),
{
    lemma_sizes_remove(es, i);
}

pub proof fn lemma_total_update(shards: Seq<Seq<SlotView>>, s: int, es: Seq<SlotView>)
    requires
        0 <= s < shards.len(),
    ensures
        total_size(shards.update(s, es)) + sizes(shards[s]) == total_size(shards) + sizes(es),
        sizes(shards[s]) <= total_size(shards),
    decreases shards.len(),
{
    if s < shards.len() - 1 {
        lemma_total_update(shards.drop_last(), s, es);
        assert(shards.update(s, es).drop_last() =~= shards.drop_last().update(s, es));
    } else {
        assert(shards.update(s, es).drop_last() =~= shards.drop_last());
    }
}

pub proof fn lemma_count_update(shards: Seq<Seq<SlotView>>, s: int, es: Seq<SlotView>)
    requires
        0 <= s < shards.len(),
    ensures
        entry_count(shards.update(s, es)) + shards[s].len() == entry_count(shards) + es.len(),
    decreases shards.len(),
{
    if s < shards.len() - 1 {
        lemma_count_update(shards.drop_last(), s, es);
        assert(shards.update(s, es).drop_last() =~= shards.drop_last().update(s, es));
    } else {
        assert(shards.update(s, es).drop_last() =~= shards.drop_last());
    }
}


pub proof fn lemma_shard_ok_remove(es: Seq<SlotView>, s: int, mask: usize, i: int)
    requires
        shard_ok(es, s, mask),
        0 <= i < es.len(),
    ensures
        shard_ok(es.remove(i), s, mask),
{
    let r = es.remove(i);
    assert forall|a: int| 0 <= a < r.len() implies shard_of(#[trigger] r[a].0, mask) == s && slot_ok(r[a]) by {
        if a < i {
            assert(r[a] == es[a]);
        } else {
            assert(r[a] == es[a + 1]);
        }
    }
    assert forall|a: int, b: int| 0 <= a < b < r.len() implies #[trigger] r[a].0 != #[trigger] r[b].0 by {
        let a2 = if a < i { a } else { a + 1 };
        let b2 = if b < i { b } else { b + 1 };
        assert(r[a] == es[a2] && r[b] == es[b2]);
    }
}

pub proof fn lemma_shard_ok_update(es: Seq<SlotView>, s: int, mask: usize, i: int, x: SlotView)
    requires
        shard_ok(es, s, mask),
        0 <= i < es.len(),
        x.0 == es[i].0,
        slot_ok(x),
    ensures
        shard_ok(es.update(i, x), s, mask),
{
    let r = es.update(i, x);
    assert forall|a: int| 0 <= a < r.len() implies shard_of(#[trigger] r[a].0, mask) == s && slot_ok(r[a]) by {
        if a != i {
            assert(r[a] == es[a]);
        }
    }
    assert forall|a: int, b: int| 0 <= a < b < r.len() implies #[trigger] r[a].0 != #[trigger] r[b].0 by {
        assert(r[a].0 == es[a].0 && r[b].0 == es[b].0);
    }
}

pub proof fn lemma_shard_ok_push(es: Seq<SlotView>, s: int, mask: usize, x: SlotView)
    requires
        shard_ok(es, s, mask),
        slot_index(es, x.0) is None,
        shard_of(x.0, mask) == s,
        slot_ok(x),
    ensures
        shard_ok(es.push(x), s, mask),
{
    lemma_slot_index(es, x.0);
    let r = es.push(x);
    assert forall|a: int| 0 <= a < r.len() implies shard_of(#[trigger] r[a].0, mask) == s && slot_ok(r[a]) by {
        if a < es.len() {
            assert(r[a] == es[a]);
        }
    }
    assert forall|a: int, b: int| 0 <= a < b < r.len() implies #[trigger] r[a].0 != #[trigger] r[b].0 by {
        if b < es.len() {
            assert(r[a] == es[a] && r[b] == es[b]);
        } else {
            assert(r[a] == es[a]);
        }
    }
}

pub proof fn lemma_with_shard_wf(v: DbView, s: int, es: Seq<SlotView>)
    requires
        v.wf(),
        0 <= s < v.shards.len(),
        shard_ok(es, s, v.mask),
    ensures
        v.with_shard(s, es).wf(),
        v.with_shard(s, es).used + sizes(v.shards[s]) == v.used + sizes(es),
{
    lemma_total_update(v.shards, s, es);
    let w = v.with_shard(s, es);
    assert forall|t: int| 0 <= t < w.shards.len() implies shard_ok(#[trigger] w.shards[t], t, w.mask) by {
        if t != s {
            assert(w.shards[t] == v.shards[t]);
        }
    }
}

/// The keys of a shard whose entries are live at `now`, in order.
pub open spec fn live_in(es: Seq<SlotView>, now: u64) -> Seq<Seq<char>>
    decreases es.len(),
{
    if es.len() == 0 {
        Seq::empty()
    } else if expired(es.last().1, now) {
        live_in(es.drop_last(), now)
    } else {
        live_in(es.drop_last(), now).push(es.last().0)
    }
}

/// The keys live at `now`, shard by shard.
pub open spec fn live_keys(shards: Seq<Seq<SlotView>>, now: u64) -> Seq<Seq<char>>
    decreases shards.len(),
{
    if shards.len() == 0 {
        Seq::empty()
    } else {
        live_keys(shards.drop_last(), now) + live_in(shards.last(), now)
    }
}

/// The entries of a shard that are live at `now`, in order.
pub open spec fn unexpired(es: Seq<SlotView>, now: u64) -> Seq<SlotView>
    decreases es.len(),
{
    if es.len() == 0 {
        es
    } else if expired(es.last().1, now) {
        unexpired(es.drop_last(), now)
    } else {
        unexpired(es.drop_last(), now).push(es.last())
    }
}

/// How many of a shard's entries a sweep with `sample` per shard examines.
pub open spec fn examined(es: Seq<SlotView>, sample: nat) -> int {
    if sample < es.len() {
        sample as int
    } else {
        es.len() as int
    }
}

/// A shard after its first `sample` entries were checked for expiry at
/// `now`: the expired ones among them are gone.
pub open spec fn purge_shard(es: Seq<SlotView>, sample: nat, now: u64) -> Seq<SlotView> {
    unexpired(es.take(examined(es, sample)), now) + es.skip(examined(es, sample))
}

/// Entry `i` of shard `s` is among those the eviction scan samples: the
/// first five of each shard.
pub open spec fn sampled(shards: Seq<Seq<SlotView>>, s: int, i: int) -> bool {
    0 <= s < shards.len() && 0 <= i < shards[s].len() && i < 5
}

/// When entry `i` of shard `s` was last accessed.
pub open spec fn stamp(shards: Seq<Seq<SlotView>>, s: int, i: int) -> u64 {
    shards[s][i].1.last_accessed
}

/// Position `(s, i)` comes before `(t, j)` in scan order.
pub open spec fn scanned_before(s: int, i: int, t: int, j: int) -> bool {
    s < t || (s == t && i < j)
}

/// Among the sampled entries before position `(n, k)`, entry `(s, i)` is the
/// least recently used one, the first in scan order among equals.
pub open spec fn lru_before(shards: Seq<Seq<SlotView>>, s: int, i: int, n: int, k: int) -> bool {
    &&& sampled(shards, s, i)
    &&& scanned_before(s, i, n, k)
    &&& forall|t: int, j: int|
        #[trigger] sampled(shards, t, j) && scanned_before(t, j, n, k) ==> stamp(shards, s, i) <= stamp(shards, t, j)
    &&& forall|t: int, j: int|
        #[trigger] sampled(shards, t, j) && scanned_before(t, j, s, i) ==> stamp(shards, s, i) < stamp(shards, t, j)
}

/// The least recently used sampled entry over the whole store.
pub open spec fn is_lru(shards: Seq<Seq<SlotView>>, s: int, i: int) -> bool {
    lru_before(shards, s, i, shards.len() as int, 0)
}

/// The entry the eviction scan picks, if any entry is sampled.
pub open spec fn lru(shards: Seq<Seq<SlotView>>) -> Option<(int, int)> {
    if exists|s: int, i: int| #[trigger] is_lru(shards, s, i) {
        Some(choose|s: int, i: int| #[trigger] is_lru(shards, s, i))
    } else {
        None
    }
}

/// Eviction: while the accounted memory reaches the limit, the least
/// recently used sampled entry is removed.
pub open spec fn evict(v: DbView) -> DbView
    decreases entry_count(v.shards),
    via evict_decreases
{
    if v.used < v.max_memory {
        v
    } else {
        match lru(v.shards) {
            None => v,
            Some((s, i)) => evict(v.with_shard(s, v.shards[s].remove(i))),
        }
    }
}

#[via_fn]
proof fn evict_decreases(v: DbView) {
    if !(v.used < v.max_memory) {
        if let Some((s, i)) = lru(v.shards) {
            lemma_lru(v.shards);
            lemma_count_update(v.shards, s, v.shards[s].remove(i));
        }
    }
}

pub proof fn lemma_lru(shards: Seq<Seq<SlotView>>)
    ensures
        match lru(shards) {
            Some((s, i)) => is_lru(shards, s, i),
            None => forall|s: int, i: int| !(#[trigger] is_lru(shards, s, i)),
        },
{
    if exists|s: int, i: int| #[trigger] is_lru(shards, s, i) {
        let (s, i) = choose|s: int, i: int| #[trigger] is_lru(shards, s, i);
        assert(is_lru(shards, s, i));
    }
}

/// At most one entry is the least recently used one.
pub proof fn lemma_lru_unique(shards: Seq<Seq<SlotView>>, s1: int, i1: int, s2: int, i2: int)
    requires
        is_lru(shards, s1, i1),
        is_lru(shards, s2, i2),
    ensures
        s1 == s2 && i1 == i2,
{
    assert(sampled(shards, s1, i1) && sampled(shards, s2, i2));
    if scanned_before(s1, i1, s2, i2) {
        assert(stamp(shards, s2, i2) < stamp(shards, s1, i1));
    } else if scanned_before(s2, i2, s1, i1) {
        assert(stamp(shards, s1, i1) < stamp(shards, s2, i2));
    }
}

/// Whenever an entry is sampled before `(n, k)`, one of them is the least
/// recently used.
pub proof fn lemma_lru_exists(shards: Seq<Seq<SlotView>>, n: int, k: int, s: int, i: int)
    requires
        0 <= n <= shards.len(),
        0 <= k <= 5,
        sampled(shards, s, i),
        scanned_before(s, i, n, k),
    ensures
        exists|a: int, b: int| #[trigger] lru_before(shards, a, b, n, k),
    decreases n, k,
{
    if k == 0 {
        assert(n > 0);
        lemma_lru_exists(shards, n - 1, 5, s, i);
        let (a, b) = choose|a: int, b: int| #[trigger] lru_before(shards, a, b, n - 1, 5);
        assert(lru_before(shards, a, b, n, 0));
    } else if s == n && i == k - 1 {
        if exists|t: int, j: int| sampled(shards, t, j) && #[trigger] scanned_before(t, j, n, k - 1) {
            let (t, j) = choose|t: int, j: int| sampled(shards, t, j) && #[trigger] scanned_before(t, j, n, k - 1);
            lemma_lru_exists(shards, n, k - 1, t, j);
            let (a, b) = choose|a: int, b: int| #[trigger] lru_before(shards, a, b, n, k - 1);
            if stamp(shards, s, i) < stamp(shards, a, b) {
                assert(lru_before(shards, s, i, n, k));
            } else {
                assert(lru_before(shards, a, b, n, k));
            }
        } else {
            assert forall|t: int, j: int|
                #[trigger] sampled(shards, t, j) && scanned_before(t, j, n, k) implies t == s && j == i by {
                if !(t == s && j == i) {
                    assert(scanned_before(t, j, n, k - 1));
                }
            }
            assert(lru_before(shards, s, i, n, k));
        }
    } else {
        lemma_lru_exists(shards, n, k - 1, s, i);
        let (a, b) = choose|a: int, b: int| #[trigger] lru_before(shards, a, b, n, k - 1);
        if sampled(shards, n, k - 1) && stamp(shards, n, k - 1) < stamp(shards, a, b) {
            assert(lru_before(shards, n, k - 1, n, k));
        } else {
            assert(lru_before(shards, a, b, n, k));
        }
    }
}

/// A stored pair, by its key's text and its entry's content.
pub open spec fn slot_view(p: (String, Entry)) -> SlotView {
    (p.0@, p.1@)
}

pub open spec fn shard_view(sh: Vec<(String, Entry)>) -> Seq<SlotView> {
    sh@.map_values(|p: (String, Entry)| slot_view(p))
}

pub open spec fn shards_view(v: Seq<Vec<(String, Entry)>>) -> Seq<Seq<SlotView>> {
    v.map_values(|sh: Vec<(String, Entry)>| shard_view(sh))
}

/// The store.
pub struct Db {
    shards: Vec<Vec<(String, Entry)>>,
    shard_mask: usize,
    used_memory: usize,
    max_memory_bytes: usize,
    epoch: Instant,
    last_reading: u64,
}

impl View for Db {
    type V = DbView;

    closed spec fn view(&self) -> DbView {
        DbView {
            shards: shards_view(self.shards@),
            used: self.used_memory as nat,
            max_memory: self.max_memory_bytes as nat,
            mask: self.shard_mask,
            clock: self.last_reading,
        }
    }
}

/// `r` is a power of two.
pub open spec fn is_pow2(r: nat) -> bool
    decreases r,
{
    r == 1 || (r > 1 && r % 2 == 0 && is_pow2(r / 2))
}

/// `usize::next_power_of_two`: the least power of two not below `n`.
fn next_power_of_two(n: usize) -> (r: usize)
    requires
        1 <= n <= usize::MAX / 2 + 1,
    ensures
        is_pow2(r as nat),
        n <= r,
        r == 1 || r / 2 < n,
{
    let mut p: usize = 1;
    while p < n
        invariant
            1 <= n <= usize::MAX / 2 + 1,
            1 <= p,
            is_pow2(p as nat),
            p == 1 || p / 2 < n,
        decreases usize::MAX - p,
    {
        proof {
            lemma_pow2_double(p as nat);
        }
        p = p * 2;
    }
    p
}

proof fn lemma_pow2_double(p: nat)
    requires
        is_pow2(p),
    ensures
        is_pow2(2 * p),
        (2 * p) / 2 == p,
{
    assert(2 * p > 1 && (2 * p) % 2 == 0 && (2 * p) / 2 == p) by (nonlinear_arith)
        requires
            p >= 1,
    ;
}

/// A power of two lies alone between `k` and `2 * k` for a power of two `k`.
pub proof fn lemma_pow2_unique(r: nat, k: nat)
    requires
        is_pow2(r),
        is_pow2(k),
        k <= r < 2 * k,
    ensures
        r == k,
    decreases r,
{
    if r != 1 && k != 1 {
        lemma_pow2_unique(r / 2, k / 2);
    }
}

impl Db {
    /// Invariant of the store.
    pub closed spec fn inv(self) -> bool {
        &&& self@.wf()
    }

    /// The invariant of a store makes its content well formed, so the laws
    /// stated over well-formed contents apply to it.
    pub proof fn lemma_inv_wf(&self)
        requires
            self.inv(),
        ensures
            self@.wf(),
    {
    }

    /// A store with 128 shards and no memory limit.
    pub fn new() -> (r: Self)
        ensures
            r.inv(),
            r@.max_memory == 0,
            r@.shards.len() == 128,
            forall|s: int| 0 <= s < r@.shards.len() ==> (#[trigger] r@.shards[s]).len() == 0,
    {
        let r = Self::with_config(128, 0);
        proof {
            assert(is_pow2(128)) by {
                reveal_with_fuel(is_pow2, 8);
            }
            lemma_pow2_unique(r@.shards.len(), 128);
        }
        r
    }

    /// A store with `shard_count` rounded up to a power of two (at least one)
    /// shards, and a memory limit (0: none).
    pub fn with_config(shard_count: usize, max_memory_bytes: usize) -> (r: Self)
        requires
            shard_count <= usize::MAX / 2 + 1,
        ensures
            r.inv(),
            r@.max_memory == max_memory_bytes,
            is_pow2(r@.shards.len()),
            r@.shards.len() >= shard_count,
            r@.shards.len() == 1 || r@.shards.len() / 2 < shard_count,
            forall|s: int| 0 <= s < r@.shards.len() ==> (#[trigger] r@.shards[s]).len() == 0,
    {
        let wanted = if shard_count < 1 { 1 } else { shard_count };
        let count = next_power_of_two(wanted);
        let mut shards: Vec<Vec<(String, Entry)>> = Vec::new();
        let mut i: usize = 0;
        while i < count
            invariant
                i <= count,
                shards@.len() == i,
                forall|k: int| 0 <= k < i ==> (#[trigger] shards@[k])@.len() == 0,
            decreases count - i,
        {
            shards.push(Vec::new());
            i = i + 1;
        }
        let r = Db { shards, shard_mask: count - 1, used_memory: 0, max_memory_bytes, epoch: clock_start(), last_reading: 0 };
        proof {
            let v = r@;
            assert forall|s: int| 0 <= s < v.shards.len() implies shard_ok(#[trigger] v.shards[s], s, v.mask) && v.shards[s].len() == 0 by {
                assert(v.shards[s] == shard_view(r.shards@[s]));
            }
            lemma_total_empty(v.shards);
        }
        r
    }

    /// The store's clock: nanoseconds since the store was created. The value
    /// rests on the time of the call, so no clause states it; every operation
    /// that reads it is stated for whatever time it read.
    pub fn now(&self) -> u64 {
        nanos_since(&self.epoch)
    }

    /// Reads the store's clock for an operation and records the reading:
    /// a reading below the latest recorded one is taken as that one, so the
    /// times operations run at never go back.
    pub fn read_clock(&mut self) -> (r: u64)
        requires
            old(self).inv(),
        ensures
            final(self).inv(),
            r >= old(self)@.clock,
            final(self)@ == old(self)@.with_clock(r),
    {
        let t = nanos_since(&self.epoch);
        let r = if t < self.last_reading {
            self.last_reading
        } else {
            t
        };
        self.last_reading = r;
        r
    }

    /// Bytes accounted for the stored entries.
    pub fn memory_used(&self) -> (r: usize)
        ensures
            r == self@.used,
    {
        self.used_memory
    }

    /// Whether the accounted memory can take an entry for a key of
    /// `key_len` bytes and a value of `value_len` bytes.
    pub fn fits(&self, key_len: usize, value_len: usize) -> (r: bool)
        ensures
            r == (self@.used + entry_size(key_len as nat, value_len as nat) <= usize::MAX),
    {
        match self.used_memory.checked_add(key_len) {
            Some(a) => match a.checked_add(value_len) {
                Some(b) => b.checked_add(ENTRY_OVERHEAD).is_some(),
                None => false,
            },
            None => false,
        }
    }

    fn shard_index(&self, key: &str) -> (r: usize)
        requires
            self.inv(),
        ensures
            r as int == shard_of(key@, self@.mask),
            r < self.shards@.len(),
    {
        let h = hash_str(key);
        let m = self.shard_mask;
        let r = (h as usize) & m;
        assert(r <= m) by (bit_vector)
            requires
                r == (h as usize) & m,
        ;
        r
    }
}

impl Db {
    proof fn lemma_link(&self)
        ensures
            self@.shards == shards_view(self.shards@),
            self@.shards.len() == self.shards@.len(),
            forall|t: int| 0 <= t < self.shards@.len() ==> #[trigger] self@.shards[t] == shard_view(self.shards@[t]),
            self@.used == self.used_memory,
            self@.max_memory == self.max_memory_bytes,
            self@.mask == self.shard_mask,
    {
    }

    /// Removes entry `i` of shard `s` and returns it.
    fn remove_entry(&mut self, s: usize, i: usize) -> (r: Entry)
        requires
            old(self).inv(),
            s < old(self)@.shards.len(),
            i < old(self)@.shards[s as int].len(),
        ensures
            final(self).inv(),
            final(self)@ == old(self)@.with_shard(s as int, old(self)@.shards[s as int].remove(i as int)),
            r@ == old(self)@.shards[s as int][i as int].1,
    {
        let ghost v = self@;
        let ghost es = v.shards[s as int];
        let ghost nes = es.remove(i as int);
        proof {
            self.lemma_link();
            lemma_sizes_remove(es, i as int);
            lemma_total_update(v.shards, s as int, nes);
            lemma_shard_ok_remove(es, s as int, v.mask, i as int);
            lemma_with_shard_wf(v, s as int, nes);
        }
        let mut sh: Vec<(String, Entry)> = Vec::new();
        self.shards.set_and_swap(s, &mut sh);
        let p = sh.remove(i);
        proof {
            assert(shard_view(sh) =~= nes);
        }
        self.shards.set(s, sh);
        self.used_memory = self.used_memory - p.1.approx_size_bytes;
        proof {
            assert(shards_view(self.shards@) =~= v.shards.update(s as int, nes));
        }
        p.1
    }

    /// Replaces entry `i` of shard `s`, which holds `key`, by `e`.
    fn replace_entry(&mut self, s: usize, i: usize, key: String, e: Entry)
        requires
            old(self).inv(),
            s < old(self)@.shards.len(),
            i < old(self)@.shards[s as int].len(),
            old(self)@.shards[s as int][i as int].0 == key@,
            slot_ok((key@, e@)),
            old(self)@.used - old(self)@.shards[s as int][i as int].1.size + e@.size <= usize::MAX,
        ensures
            final(self).inv(),
            final(self)@ == old(self)@.with_shard(s as int, old(self)@.shards[s as int].update(i as int, (key@, e@))),
    {
        let ghost v = self@;
        let ghost es = v.shards[s as int];
        let ghost nes = es.update(i as int, (key@, e@));
        proof {
            self.lemma_link();
            lemma_sizes_update(es, i as int, (key@, e@));
            lemma_sizes_element(es, i as int);
            lemma_total_update(v.shards, s as int, nes);
            lemma_shard_ok_update(es, s as int, v.mask, i as int, (key@, e@));
            lemma_with_shard_wf(v, s as int, nes);
        }
        let mut sh: Vec<(String, Entry)> = Vec::new();
        self.shards.set_and_swap(s, &mut sh);
        let old_size = sh[i].1.approx_size_bytes;
        let new_size = e.approx_size_bytes;
        sh.set(i, (key, e));
        proof {
            assert(shard_view(sh) =~= nes);
        }
        self.shards.set(s, sh);
        self.used_memory = self.used_memory - old_size + new_size;
        proof {
            assert(shards_view(self.shards@) =~= v.shards.update(s as int, nes));
        }
    }

    /// Appends `key` with `e` to shard `s`, which does not hold it.
    fn push_entry(&mut self, s: usize, key: String, e: Entry)
        requires
            old(self).inv(),
            s < old(self)@.shards.len(),
            shard_of(key@, old(self)@.mask) == s,
            slot_index(old(self)@.shards[s as int], key@) is None,
            slot_ok((key@, e@)),
            old(self)@.used + e@.size <= usize::MAX,
        ensures
            final(self).inv(),
            final(self)@ == old(self)@.with_shard(s as int, old(self)@.shards[s as int].push((key@, e@))),
    {
        let ghost v = self@;
        let ghost es = v.shards[s as int];
        let ghost nes = es.push((key@, e@));
        proof {
            self.lemma_link();
            lemma_sizes_push(es, (key@, e@));
            lemma_total_update(v.shards, s as int, nes);
            lemma_shard_ok_push(es, s as int, v.mask, (key@, e@));
            lemma_with_shard_wf(v, s as int, nes);
        }
        let mut sh: Vec<(String, Entry)> = Vec::new();
        self.shards.set_and_swap(s, &mut sh);
        let new_size = e.approx_size_bytes;
        sh.push((key, e));
        proof {
            assert(shard_view(sh) =~= nes);
        }
        self.shards.set(s, sh);
        self.used_memory = self.used_memory + new_size;
        proof {
            assert(shards_view(self.shards@) =~= v.shards.update(s as int, nes));
        }
    }

    /// Marks entry `i` of shard `s` as accessed at `now` and returns a copy of
    /// its value.
    fn touch_entry(&mut self, s: usize, i: usize, now: u64) -> (r: Vec<u8>)
        requires
            old(self).inv(),
            s < old(self)@.shards.len(),
            i < old(self)@.shards[s as int].len(),
        ensures
            final(self).inv(),
            final(self)@ == old(self)@.with_shard(
                s as int,
                old(self)@.shards[s as int].update(
                    i as int,
                    (
                        old(self)@.shards[s as int][i as int].0,
                        EntryView { last_accessed: now, ..old(self)@.shards[s as int][i as int].1 },
                    ),
                ),
            ),
            r@ == old(self)@.shards[s as int][i as int].1.value,
    {
        let ghost v = self@;
        let ghost es = v.shards[s as int];
        let ghost x = (es[i as int].0, EntryView { last_accessed: now, ..es[i as int].1 });
        let ghost nes = es.update(i as int, x);
        proof {
            self.lemma_link();
            lemma_sizes_update(es, i as int, x);
            lemma_total_update(v.shards, s as int, nes);
            lemma_shard_ok_update(es, s as int, v.mask, i as int, x);
            lemma_with_shard_wf(v, s as int, nes);
        }
        let mut sh: Vec<(String, Entry)> = Vec::new();
        self.shards.set_and_swap(s, &mut sh);
        let mut slot = (String::new(), Entry { value: Vec::new(), expires_at: None, last_accessed: 0, approx_size_bytes: 0 });
        sh.set_and_swap(i, &mut slot);
        slot.1.touch(now);
        let r = vstd::slice::slice_to_vec(slot.1.value.as_slice());
        sh.set(i, slot);
        proof {
            assert(shard_view(sh) =~= nes);
        }
        self.shards.set(s, sh);
        proof {
            assert(shards_view(self.shards@) =~= v.shards.update(s as int, nes));
        }
        r
    }
}

/// A count kept in a `usize` that wraps around.
pub open spec fn count_wrapping(n: nat) -> usize {
    (n % (usize::MAX as nat + 1)) as usize
}

proof fn lemma_count_wrapping_step(d: nat)
    ensures
        count_wrapping(d + 1) == (if count_wrapping(d) == usize::MAX {
            0usize
        } else {
            (count_wrapping(d) + 1) as usize
        }),
{
    let m = usize::MAX as nat + 1;
    vstd::arithmetic::div_mod::lemma_fundamental_div_mod(d as int, m as int);
    let q = d as int / m as int;
    let r = d as int % m as int;
    if r + 1 < m {
        vstd::arithmetic::div_mod::lemma_fundamental_div_mod_converse(d as int + 1, m as int, q, r + 1);
    } else {
        assert(d as int + 1 == (q + 1) * m) by (nonlinear_arith)
            requires
                d as int == q * m + r,
                r + 1 == m,
        ;
        vstd::arithmetic::div_mod::lemma_fundamental_div_mod_converse(d as int + 1, m as int, q + 1, 0);
    }
}

/// A returned value, by its bytes.
pub open spec fn opt_bytes(r: Option<Vec<u8>>) -> Option<Seq<u8>> {
    match r {
        Some(x) => Some(x@),
        None => None,
    }
}

impl Db {
    /// Scans the first five entries of each shard for the least recently
    /// used one.
    fn find_lru(&self) -> (r: Option<(usize, usize)>)
        requires
            self.inv(),
        ensures
            match r {
                Some((s, i)) => is_lru(self@.shards, s as int, i as int),
                None => forall|s: int, i: int| !#[trigger] sampled(self@.shards, s, i),
            },
    {
        let ghost sh = self@.shards;
        proof {
            self.lemma_link();
        }
        let n = self.shards.len();
        let mut best: Option<(usize, usize, u64)> = None;
        let mut s: usize = 0;
        while s < n
            invariant
                sh == self@.shards,
                n == sh.len(),
                s <= n,
                forall|t: int| 0 <= t < n ==> #[trigger] sh[t] == shard_view(self.shards@[t]),
                match best {
                    Some((bs, bi, bt)) => lru_before(sh, bs as int, bi as int, s as int, 0) && bt == stamp(sh, bs as int, bi as int),
                    None => forall|t: int, j: int| #[trigger] sampled(sh, t, j) ==> !scanned_before(t, j, s as int, 0),
                },
            decreases n - s,
        {
            let len = self.shards[s].len();
            let lim = if len < 5 {
                len
            } else {
                5
            };
            let mut i: usize = 0;
            while i < lim
                invariant
                    sh == self@.shards,
                    n == sh.len(),
                    s < n,
                    forall|t: int| 0 <= t < n ==> #[trigger] sh[t] == shard_view(self.shards@[t]),
                    len == sh[s as int].len(),
                    lim == if len < 5 { len } else { 5 },
                    i <= lim,
                    match best {
                        Some((bs, bi, bt)) => lru_before(sh, bs as int, bi as int, s as int, i as int) && bt == stamp(sh, bs as int, bi as int),
                        None => forall|t: int, j: int| #[trigger] sampled(sh, t, j) ==> !scanned_before(t, j, s as int, i as int),
                    },
                decreases lim - i,
            {
                let t = self.shards[s][i].1.last_accessed;
                assert(t == stamp(sh, s as int, i as int));
                assert(sampled(sh, s as int, i as int));
                let better = match best {
                    None => true,
                    Some((_, _, bt)) => t < bt,
                };
                if better {
                    best = Some((s, i, t));
                }
                i = i + 1;
            }
            proof {
                assert forall|t: int, j: int|
                    #[trigger] sampled(sh, t, j) && scanned_before(t, j, s + 1, 0) implies scanned_before(t, j, s as int, i as int) by {
                }
            }
            s = s + 1;
        }
        match best {
            Some((bs, bi, _)) => Some((bs, bi)),
            None => None,
        }
    }

    /// Evicts least recently used entries while the accounted memory reaches
    /// the limit.
    fn ensure_memory_capacity(&mut self)
        requires
            old(self).inv(),
        ensures
            final(self).inv(),
            final(self)@ == evict(old(self)@),
    {
        let ghost target = evict(self@);
        while self.used_memory >= self.max_memory_bytes
            invariant
                self.inv(),
                evict(self@) == target,
            ensures
                self.inv(),
                self@ == target,
            decreases entry_count(self@.shards),
        {
            proof {
                self.lemma_link();
                lemma_lru(self@.shards);
            }
            match self.find_lru() {
                None => {
                    break;
                },
                Some((s, i)) => {
                    proof {
                        if let Some((a, b)) = lru(self@.shards) {
                            lemma_lru_unique(self@.shards, a, b, s as int, i as int);
                        }
                        lemma_count_update(self@.shards, s as int, self@.shards[s as int].remove(i as int));
                    }
                    self.remove_entry(s, i);
                },
            }
        }
        proof {
            self.lemma_link();
        }
    }

    /// Reads `key` at time `now`: a live entry's value is returned and the
    /// entry marked as accessed; an expired entry is removed.
    pub fn get_at(&mut self, key: &str, now: u64) -> (r: Option<Vec<u8>>)
        requires
            old(self).inv(),
        ensures
            final(self).inv(),
            final(self)@ == old(self)@.get(key@, now).0,
            opt_bytes(r) == old(self)@.get(key@, now).1,
    {
        let s = self.shard_index(key);
        proof {
            self.lemma_link();
            lemma_slot_index(self@.shards[s as int], key@);
        }
        match find_slot(&self.shards[s], key) {
            None => None,
            Some(i) => {
                if self.shards[s][i].1.is_expired(now) {
                    self.remove_entry(s, i);
                    None
                } else {
                    let r = self.touch_entry(s, i, now);
                    Some(r)
                }
            },
        }
    }

    /// Reads `key` on the store's clock.
    pub fn get(&mut self, key: &str) -> (r: Option<Vec<u8>>)
        requires
            old(self).inv(),
        ensures
            final(self).inv(),
            exists|t: u64| #[trigger] old(self)@.get(key@, t) == (final(self)@, opt_bytes(r)),
    {
        let now = self.now();
        self.get_at(key, now)
    }

    /// Whether `key` holds a live value at time `now` (a read, with its
    /// effects).
    pub fn exists_at(&mut self, key: &str, now: u64) -> (r: bool)
        requires
            old(self).inv(),
        ensures
            final(self).inv(),
            final(self)@ == old(self)@.get(key@, now).0,
            r == old(self)@.get(key@, now).1 is Some,
    {
        self.get_at(key, now).is_some()
    }

    /// Whether `key` holds a live value on the store's clock.
    pub fn key_exists(&mut self, key: &str) -> (r: bool)
        requires
            old(self).inv(),
        ensures
            final(self).inv(),
            exists|t: u64| #[trigger] old(self)@.get(key@, t) == (final(self)@, old(self)@.get(key@, t).1) && r == old(self)@.get(key@, t).1 is Some,
    {
        let now = self.now();
        self.exists_at(key, now)
    }

    /// Removes `key`; reports whether it was present.
    pub fn del(&mut self, key: &str) -> (r: bool)
        requires
            old(self).inv(),
        ensures
            final(self).inv(),
            final(self)@ == old(self)@.del(key@).0,
            r == old(self)@.del(key@).1,
    {
        let s = self.shard_index(key);
        proof {
            self.lemma_link();
            lemma_slot_index(self@.shards[s as int], key@);
        }
        match find_slot(&self.shards[s], key) {
            None => false,
            Some(i) => {
                self.remove_entry(s, i);
                true
            },
        }
    }

    /// Stores `value` under `key` at time `now`, expiring at `expires_at`;
    /// with a memory limit, least recently used entries are evicted first.
    pub fn set_at(&mut self, key: String, value: Vec<u8>, expires_at: Option<u64>, now: u64)
        requires
            old(self).inv(),
            old(self)@.used + entry_size(encode_utf8(key@).len(), value@.len()) <= usize::MAX,
        ensures
            final(self).inv(),
            final(self)@ == old(self)@.set(key@, value@, expires_at, now),
    {
        let ghost v = self@;
        if self.max_memory_bytes > 0 {
            self.ensure_memory_capacity();
            proof {
                lemma_evict(v);
            }
        }
        let key_len = key.as_str().len();
        let e = Entry::new(key_len, value, expires_at, now);
        let s = self.shard_index(key.as_str());
        proof {
            self.lemma_link();
            lemma_slot_index(self@.shards[s as int], key@);
            lemma_total_update(self@.shards, s as int, self@.shards[s as int]);
        }
        match find_slot(&self.shards[s], key.as_str()) {
            Some(i) => {
                proof {
                    lemma_sizes_element(self@.shards[s as int], i as int);
                }
                self.replace_entry(s, i, key, e);
            },
            None => self.push_entry(s, key, e),
        }
    }

    /// Stores `value` under `key` on the store's clock.
    pub fn set(&mut self, key: String, value: Vec<u8>, expires_at: Option<u64>)
        requires
            old(self).inv(),
            old(self)@.used + entry_size(encode_utf8(key@).len(), value@.len()) <= usize::MAX,
        ensures
            final(self).inv(),
            exists|t: u64| final(self)@ == #[trigger] old(self)@.set(key@, value@, expires_at, t),
    {
        let now = self.now();
        self.set_at(key, value, expires_at, now)
    }
}

impl Db {
    /// The keys live at time `now`, shard by shard.
    pub fn keys_at(&self, now: u64) -> (r: Vec<String>)
        requires
            self.inv(),
        ensures
            r@.map_values(|k: String| k@) == self@.keys(now),
    {
        let ghost sh = self@.shards;
        proof {
            self.lemma_link();
        }
        let n = self.shards.len();
        let mut out: Vec<String> = Vec::new();
        let mut s: usize = 0;
        while s < n
            invariant
                sh == self@.shards,
                n == sh.len(),
                s <= n,
                forall|t: int| 0 <= t < n ==> #[trigger] sh[t] == shard_view(self.shards@[t]),
                out@.map_values(|k: String| k@) == live_keys(sh.take(s as int), now),
            decreases n - s,
        {
            let ghost es = sh[s as int];
            let len = self.shards[s].len();
            let mut i: usize = 0;
            while i < len
                invariant
                    sh == self@.shards,
                    n == sh.len(),
                    s < n,
                    forall|t: int| 0 <= t < n ==> #[trigger] sh[t] == shard_view(self.shards@[t]),
                    es == sh[s as int],
                    len == es.len(),
                    i <= len,
                    out@.map_values(|k: String| k@) == live_keys(sh.take(s as int), now) + live_in(es.take(i as int), now),
                decreases len - i,
            {
                proof {
                    assert(es.take(i + 1).drop_last() =~= es.take(i as int));
                    assert(es[i as int] == slot_view(self.shards@[s as int]@[i as int]));
                }
                if !self.shards[s][i].1.is_expired(now) {
                    let k = self.shards[s][i].0.clone();
                    let ghost before = out@;
                    out.push(k);
                    proof {
                        assert(out@.map_values(|k: String| k@) =~= before.map_values(|k: String| k@).push(k@));
                    }
                }
                i = i + 1;
            }
            proof {
                assert(es.take(len as int) =~= es);
                assert(sh.take(s + 1).drop_last() =~= sh.take(s as int));
            }
            s = s + 1;
        }
        proof {
            assert(sh.take(n as int) =~= sh);
        }
        out
    }

    /// The keys live on the store's clock.
    pub fn keys(&self) -> (r: Vec<String>)
        requires
            self.inv(),
        ensures
            exists|t: u64| r@.map_values(|k: String| k@) == #[trigger] self@.keys(t),
    {
        let now = self.now();
        self.keys_at(now)
    }
}

impl Db {
    /// Checks the first `sample` entries of each shard and removes those
    /// expired at `now`; returns how many were removed.
    pub fn purge_expired_sample_at(&mut self, sample: usize, now: u64) -> (r: usize)
        requires
            old(self).inv(),
        ensures
            final(self).inv(),
            final(self)@ == old(self)@.purge(sample as nat, now),
            r == count_wrapping((entry_count(old(self)@.shards) - entry_count(final(self)@.shards)) as nat),
    {
        let ghost v0 = self@;
        proof {
            self.lemma_link();
        }
        let n = self.shards.len();
        let mut purged: usize = 0;
        let mut s: usize = 0;
        while s < n
            invariant
                self.inv(),
                n == v0.shards.len(),
                self@.shards.len() == n,
                self@.mask == v0.mask,
                self@.max_memory == v0.max_memory,
                self@.clock == v0.clock,
                s <= n,
                forall|t: int| 0 <= t < s ==> #[trigger] self@.shards[t] == purge_shard(v0.shards[t], sample as nat, now),
                forall|t: int| s <= t < n ==> #[trigger] self@.shards[t] == v0.shards[t],
                entry_count(self@.shards) <= entry_count(v0.shards),
                purged == count_wrapping((entry_count(v0.shards) - entry_count(self@.shards)) as nat),
            decreases n - s,
        {
            let ghost es = v0.shards[s as int];
            let ghost start = self@.shards;
            let mut i: usize = 0;
            let mut seen: usize = 0;
            proof {
                self.lemma_link();
                assert(es.take(0) =~= Seq::<SlotView>::empty());
                assert(es.skip(0) =~= es);
                assert(unexpired(es.take(0), now) + es.skip(0) =~= es);
            }
            while seen < sample && i < self.shards[s].len()
                invariant
                    self.inv(),
                    self@.shards.len() == n,
                    self@.mask == v0.mask,
                    self@.max_memory == v0.max_memory,
                    self@.clock == v0.clock,
                self@.clock == v0.clock,
                    s < n,
                    es == v0.shards[s as int],
                    start.len() == n,
                    forall|t: int| 0 <= t < n && t != s ==> #[trigger] self@.shards[t] == start[t],
                    seen <= es.len(),
                    seen <= sample,
                    self@.shards[s as int] == unexpired(es.take(seen as int), now) + es.skip(seen as int),
                    i == unexpired(es.take(seen as int), now).len(),
                    entry_count(self@.shards) <= entry_count(v0.shards),
                    purged == count_wrapping((entry_count(v0.shards) - entry_count(self@.shards)) as nat),
                decreases es.len() - seen,
            {
                let ghost u = unexpired(es.take(seen as int), now);
                let ghost cur = self@.shards[s as int];
                proof {
                    self.lemma_link();
                    assert(es.take(seen + 1).drop_last() =~= es.take(seen as int));
                    assert(cur[i as int] == es[seen as int]);
                    assert(cur[i as int] == slot_view(self.shards@[s as int]@[i as int]));
                }
                if self.shards[s][i].1.is_expired(now) {
                    proof {
                        lemma_count_update(self@.shards, s as int, cur.remove(i as int));
                        assert(cur.remove(i as int) =~= u + es.skip(seen + 1));
                    }
                    proof {
                        lemma_count_wrapping_step((entry_count(v0.shards) - entry_count(self@.shards)) as nat);
                    }
                    self.remove_entry(s, i);
                    purged = purged.wrapping_add(1);
                } else {
                    proof {
                        assert(cur =~= u.push(es[seen as int]) + es.skip(seen + 1));
                    }
                    i = i + 1;
                }
                seen = seen + 1;
            }
            proof {
                self.lemma_link();
                assert(seen == examined(es, sample as nat));
                assert(self@.shards[s as int] == purge_shard(es, sample as nat, now));
            }
            s = s + 1;
        }
        proof {
            self.lemma_link();
            let p = v0.purge(sample as nat, now);
            assert(self@.shards =~= p.shards);
        }
        purged
    }

    /// Sweeps for expired entries on the store's clock.
    pub fn purge_expired_sample(&mut self, sample_per_shard: usize) -> (r: usize)
        requires
            old(self).inv(),
        ensures
            final(self).inv(),
            exists|t: u64| final(self)@ == #[trigger] old(self)@.purge(sample_per_shard as nat, t),
            r == count_wrapping((entry_count(old(self)@.shards) - entry_count(final(self)@.shards)) as nat),
    {
        let now = self.now();
        self.purge_expired_sample_at(sample_per_shard, now)
    }
}

impl Default for Db {
    /// The same as `Db::new`.
    fn default() -> (r: Self)
        ensures
            r.inv(),
            r@.max_memory == 0,
            r@.shards.len() == 128,
            forall|s: int| 0 <= s < r@.shards.len() ==> (#[trigger] r@.shards[s]).len() == 0,
    {
        Self::new()
    }
}

fn find_slot(shard: &Vec<(String, Entry)>, key: &str) -> (r: Option<usize>)
    requires
        forall|i: int, j: int|
            0 <= i < j < shard@.len() ==> #[trigger] shard_view(*shard)[i].0 != #[trigger] shard_view(*shard)[j].0,
    ensures
        match slot_index(shard_view(*shard), key@) {
            Some(i) => r matches Some(k) && k as int == i,
            None => r is None,
        },
{
    let ghost es = shard_view(*shard);
    proof {
        lemma_slot_index(es, key@);
    }
    let mut i: usize = 0;
    while i < shard.len()
        invariant
            i <= shard@.len(),
            es == shard_view(*shard),
            forall|k: int| 0 <= k < i ==> #[trigger] es[k].0 != key@,
        ensures
            i <= shard@.len(),
            forall|k: int| 0 <= k < i ==> #[trigger] es[k].0 != key@,
            i < shard@.len() ==> es[i as int].0 == key@,
        decreases shard@.len() - i,
    {
        assert(es[i as int] == slot_view(shard@[i as int]));
        if crate::text::str_eq(shard[i].0.as_str(), key) {
            break;
        }
        i = i + 1;
    }
    if i < shard.len() {
        proof {
            match slot_index(es, key@) {
                Some(c) => {
                    if c < i {
                        assert(es[c].0 != key@);
                    }
                    if c > i {
                        assert(es[c].0 == es[i as int].0);
                    }
                },
                None => {
                    assert(es[i as int].0 == key@);
                },
            }
        }
        Some(i)
    } else {
        None
    }
}

/// Eviction keeps the store well formed, its shape and limit, and never
/// adds memory.
pub proof fn lemma_evict(v: DbView)
    requires
        v.wf(),
    ensures
        evict(v).wf(),
        evict(v).used <= v.used,
        evict(v).mask == v.mask,
        evict(v).max_memory == v.max_memory,
        evict(v).shards.len() == v.shards.len(),
        evict(v).clock == v.clock,
    decreases entry_count(v.shards),
{
    if !(v.used < v.max_memory) {
        lemma_lru(v.shards);
        if let Some((s, i)) = lru(v.shards) {
            let es = v.shards[s];
            lemma_count_update(v.shards, s, es.remove(i));
            lemma_shard_ok_remove(es, s, v.mask, i);
            lemma_with_shard_wf(v, s, es.remove(i));
            lemma_sizes_remove(es, i);
            lemma_evict(v.with_shard(s, es.remove(i)));
        }
    }
}

pub proof fn lemma_total_empty(shards: Seq<Seq<SlotView>>)
    requires
        forall|s: int| 0 <= s < shards.len() ==> (#[trigger] shards[s]).len() == 0,
    ensures
        total_size(shards) == 0,
        entry_count(shards) == 0,
    decreases shards.len(),
{
    if shards.len() > 0 {
        let d = shards.drop_last();
        assert forall|s: int| 0 <= s < d.len() implies (#[trigger] d[s]).len() == 0 by {
            assert(d[s] == shards[s]);
        }
        lemma_total_empty(d);
        assert(sizes(shards.last()) == 0);
    }
}

/// A key's shard lies within the mask.
pub proof fn lemma_shard_of_range(key: Seq<char>, mask: usize)
    ensures
        0 <= shard_of(key, mask) <= mask,
{
    let h = str_hash(key) as usize;
    assert(h & mask <= mask) by (bit_vector);
}

/// In a shard whose keys are distinct, the slot holding `key` is found.
pub proof fn lemma_slot_index_at(es: Seq<SlotView>, i: int, key: Seq<char>)
    requires
        0 <= i < es.len(),
        es[i].0 == key,
        forall|a: int, b: int| 0 <= a < b < es.len() ==> #[trigger] es[a].0 != #[trigger] es[b].0,
    ensures
        slot_index(es, key) == Some(i),
{
    lemma_slot_index(es, key);
    if let Some(c) = slot_index(es, key) {
        if c < i {
            assert(es[c].0 != es[i].0);
        } else if c > i {
            assert(es[i].0 != es[c].0);
        }
    }
}

/// After `put`, the key's lookup finds exactly the stored entry.
pub proof fn lemma_lookup_put(v: DbView, key: Seq<char>, e: EntryView)
    requires
        v.wf(),
        e.size == entry_size(encode_utf8(key).len(), e.value.len()),
    ensures
        v.put(key, e).wf(),
        v.put(key, e).lookup(key) == Some(e),
        v.put(key, e).mask == v.mask,
        v.put(key, e).max_memory == v.max_memory,
        v.put(key, e).used <= v.used + e.size,
        ({
            let s = shard_of(key, v.mask);
            let w = v.put(key, e);
            &&& slot_index(w.shards[s], key) is Some
            &&& w.shards[s][slot_index(w.shards[s], key)->0] == (key, e)
        }),
{
    lemma_shard_of_range(key, v.mask);
    let s = shard_of(key, v.mask);
    let es = v.shards[s];
    assert(shard_ok(es, s, v.mask));
    assert(slot_ok((key, e)));
    lemma_slot_index(es, key);
    lemma_total_update(v.shards, s, es);
    match slot_index(es, key) {
        Some(i) => {
            let nes = es.update(i, (key, e));
            lemma_shard_ok_update(es, s, v.mask, i, (key, e));
            lemma_with_shard_wf(v, s, nes);
            lemma_sizes_update(es, i, (key, e));
            lemma_slot_index_at(nes, i, key);
        },
        None => {
            let nes = es.push((key, e));
            lemma_shard_ok_push(es, s, v.mask, (key, e));
            lemma_with_shard_wf(v, s, nes);
            lemma_sizes_push(es, (key, e));
            lemma_slot_index_at(nes, es.len() as int, key);
        },
    }
}

/// Read after write: once `value` is stored under `key`, a read of `key` at
/// any later time returns it, unless it has expired by then.
pub proof fn lemma_get_after_set(
    v: DbView,
    key: Seq<char>,
    value: Seq<u8>,
    expires_at: Option<u64>,
    now: u64,
    later: u64,
)
    requires
        v.wf(),
    ensures
        v.set(key, value, expires_at, now).get(key, later).1 == (if expired(new_entry(key, value, expires_at, now), later) {
            None::<Seq<u8>>
        } else {
            Some(value)
        }),
{
    let w = if v.max_memory > 0 {
        evict(v)
    } else {
        v
    };
    lemma_evict(v);
    lemma_lookup_put(w, key, new_entry(key, value, expires_at, now));
}

/// A stored key can be deleted, and once deleted it reads as absent.
pub proof fn lemma_del_after_set(
    v: DbView,
    key: Seq<char>,
    value: Seq<u8>,
    expires_at: Option<u64>,
    now: u64,
    later: u64,
)
    requires
        v.wf(),
    ensures
        v.set(key, value, expires_at, now).del(key).1,
        v.set(key, value, expires_at, now).del(key).0.get(key, later).1 is None,
{
    let w = if v.max_memory > 0 {
        evict(v)
    } else {
        v
    };
    lemma_evict(v);
    lemma_lookup_put(w, key, new_entry(key, value, expires_at, now));
    lemma_get_after_del(w.put(key, new_entry(key, value, expires_at, now)), key, later);
}

/// Once deleted, a key reads as absent.
pub proof fn lemma_get_after_del(v: DbView, key: Seq<char>, later: u64)
    requires
        v.wf(),
    ensures
        v.del(key).0.wf(),
        v.del(key).0.get(key, later).1 is None,
{
    lemma_shard_of_range(key, v.mask);
    let s = shard_of(key, v.mask);
    let es = v.shards[s];
    lemma_slot_index(es, key);
    if let Some(i) = slot_index(es, key) {
        let nes = es.remove(i);
        lemma_shard_ok_remove(es, s, v.mask, i);
        lemma_with_shard_wf(v, s, nes);
        assert forall|k: int| 0 <= k < nes.len() implies #[trigger] nes[k].0 != key by {
            if k < i {
                assert(nes[k] == es[k]);
                assert(es[k].0 != es[i].0);
            } else {
                assert(nes[k] == es[k + 1]);
                assert(es[i].0 != es[k + 1].0);
            }
        }
        lemma_slot_index(nes, key);
    }
}

/// With a memory limit, eviction brings the accounted memory under it.
pub proof fn lemma_evict_fits(v: DbView)
    requires
        v.wf(),
        v.max_memory > 0,
    ensures
        evict(v).used < v.max_memory,
    decreases entry_count(v.shards),
{
    if !(v.used < v.max_memory) {
        lemma_lru(v.shards);
        match lru(v.shards) {
            Some((s, i)) => {
                let es = v.shards[s];
                lemma_count_update(v.shards, s, es.remove(i));
                lemma_shard_ok_remove(es, s, v.mask, i);
                lemma_with_shard_wf(v, s, es.remove(i));
                lemma_evict_fits(v.with_shard(s, es.remove(i)));
            },
            None => {
                assert forall|t: int| 0 <= t < v.shards.len() implies (#[trigger] v.shards[t]).len() == 0 by {
                    if v.shards[t].len() > 0 {
                        assert(sampled(v.shards, t, 0));
                        lemma_lru_exists(v.shards, v.shards.len() as int, 0, t, 0);
                        let (a, b) = choose|a: int, b: int| #[trigger] lru_before(v.shards, a, b, v.shards.len() as int, 0);
                        assert(is_lru(v.shards, a, b));
                    }
                }
                lemma_total_empty(v.shards);
            },
        }
    }
}

/// With a memory limit, a write leaves the accounted memory below the limit
/// plus the size of the entry it wrote.
pub proof fn lemma_set_memory_bound(
    v: DbView,
    key: Seq<char>,
    value: Seq<u8>,
    expires_at: Option<u64>,
    now: u64,
)
    requires
        v.wf(),
        v.max_memory > 0,
    ensures
        v.set(key, value, expires_at, now).used < v.max_memory + entry_size(encode_utf8(key).len(), value.len()),
        v.set(key, value, expires_at, now).wf(),
{
    lemma_evict(v);
    lemma_evict_fits(v);
    lemma_lookup_put(evict(v), key, new_entry(key, value, expires_at, now));
}

pub proof fn lemma_live_in_concat(a: Seq<SlotView>, b: Seq<SlotView>, now: u64)
    ensures
        live_in(a + b, now) == live_in(a, now) + live_in(b, now),
    decreases b.len(),
{
    if b.len() == 0 {
        assert(a + b =~= a);
        assert(live_in(a, now) + live_in(b, now) =~= live_in(a, now));
    } else {
        lemma_live_in_concat(a, b.drop_last(), now);
        assert((a + b).drop_last() =~= a + b.drop_last());
        assert((a + b).last() == b.last());
        if !expired(b.last().1, now) {
            assert(live_in(a, now) + live_in(b.drop_last(), now).push(b.last().0) =~= (live_in(a, now) + live_in(
                b.drop_last(),
                now,
            )).push(b.last().0));
        }
    }
}

pub proof fn lemma_live_in_unexpired(a: Seq<SlotView>, now: u64)
    ensures
        live_in(unexpired(a, now), now) == live_in(a, now),
    decreases a.len(),
{
    if a.len() > 0 {
        lemma_live_in_unexpired(a.drop_last(), now);
        if !expired(a.last().1, now) {
            let u = unexpired(a.drop_last(), now).push(a.last());
            assert(u.drop_last() =~= unexpired(a.drop_last(), now));
        }
    }
}

pub proof fn lemma_live_keys_congruent(a: Seq<Seq<SlotView>>, b: Seq<Seq<SlotView>>, now: u64)
    requires
        a.len() == b.len(),
        forall|t: int| 0 <= t < a.len() ==> live_in(#[trigger] a[t], now) == live_in(b[t], now),
    ensures
        live_keys(a, now) == live_keys(b, now),
    decreases a.len(),
{
    if a.len() > 0 {
        lemma_live_keys_congruent(a.drop_last(), b.drop_last(), now);
        assert(live_in(a[a.len() - 1], now) == live_in(b[b.len() - 1], now));
    }
}

/// The expiry sweep never removes a key that is still live: the live keys
/// before and after a sweep at the same time are the same.
pub proof fn lemma_purge_keeps_live_keys(v: DbView, sample: nat, now: u64)
    ensures
        v.purge(sample, now).keys(now) == v.keys(now),
{
    let p = v.purge(sample, now);
    assert forall|t: int| 0 <= t < p.shards.len() implies live_in(#[trigger] p.shards[t], now) == live_in(
        v.shards[t],
        now,
    ) by {
        let es = v.shards[t];
        let m = examined(es, sample);
        lemma_live_in_concat(unexpired(es.take(m), now), es.skip(m), now);
        lemma_live_in_unexpired(es.take(m), now);
        lemma_live_in_concat(es.take(m), es.skip(m), now);
        assert(es.take(m) + es.skip(m) =~= es);
    }
    lemma_live_keys_congruent(p.shards, v.shards, now);
}

pub proof fn lemma_live_in_contains(es: Seq<SlotView>, now: u64, k: Seq<char>)
    requires
        live_in(es, now).contains(k),
    ensures
        exists|i: int| 0 <= i < es.len() && #[trigger] es[i].0 == k && !expired(es[i].1, now),
    decreases es.len(),
{
    let d = es.drop_last();
    if live_in(d, now).contains(k) {
        lemma_live_in_contains(d, now, k);
        let i = choose|i: int| 0 <= i < d.len() && #[trigger] d[i].0 == k && !expired(d[i].1, now);
        assert(es[i] == d[i]);
    } else {
        assert(es[es.len() - 1].0 == k && !expired(es[es.len() - 1].1, now));
    }
}

pub proof fn lemma_live_keys_contains(shards: Seq<Seq<SlotView>>, now: u64, k: Seq<char>)
    requires
        live_keys(shards, now).contains(k),
    ensures
        exists|t: int| 0 <= t < shards.len() && live_in(#[trigger] shards[t], now).contains(k),
    decreases shards.len(),
{
    let d = shards.drop_last();
    let a = live_keys(d, now);
    let b = live_in(shards.last(), now);
    let j = choose|j: int| 0 <= j < (a + b).len() && (a + b)[j] == k;
    if j < a.len() {
        assert(a[j] == k);
        lemma_live_keys_contains(d, now, k);
        let t = choose|t: int| 0 <= t < d.len() && live_in(#[trigger] d[t], now).contains(k);
        assert(shards[t] == d[t]);
    } else {
        assert(b[j - a.len()] == k);
        assert(live_in(shards[shards.len() - 1], now).contains(k));
    }
}

/// Every key that `keys` lists at a time reads as present at that time.
pub proof fn lemma_listed_keys_are_live(v: DbView, now: u64, k: Seq<char>)
    requires
        v.wf(),
        v.keys(now).contains(k),
    ensures
        v.get(k, now).1 is Some,
{
    lemma_live_keys_contains(v.shards, now, k);
    let t = choose|t: int| 0 <= t < v.shards.len() && live_in(#[trigger] v.shards[t], now).contains(k);
    lemma_live_in_contains(v.shards[t], now, k);
    let es = v.shards[t];
    let i = choose|i: int| 0 <= i < es.len() && #[trigger] es[i].0 == k && !expired(es[i].1, now);
    assert(shard_ok(es, t, v.mask));
    assert(shard_of(es[i].0, v.mask) == t);
    lemma_slot_index_at(es, i, k);
}

/// A read answers only with a live entry's value: what `get` returns at a
/// time is the value stored for the key, and that entry has not expired by
/// then; a read of an expired or absent key answers nothing.
pub proof fn lemma_get_only_live(v: DbView, key: Seq<char>, now: u64)
    ensures
        match v.lookup(key) {
            Some(e) => v.get(key, now).1 == (if expired(e, now) {
                None::<Seq<u8>>
            } else {
                Some(e.value)
            }),
            None => v.get(key, now).1 is None,
        },
{
    lemma_slot_index(v.shards[shard_of(key, v.mask)], key);
}

} // verus!
