//! Node-local key-value store, and the session store on top of it.
//!
//! Not a database: values are per-node, non-durable, and lost on restart. A
//! guest with a session may expect to read back what it wrote, because a
//! session is routed to one worker and this is that worker's memory.
use crate::clock::Clock;
use crate::tally::lemma_total_insert;
use crate::tally::lemma_total_remove;
use crate::tally::lemma_total_subset;
use crate::tally::total;
use dashmap::DashMap;
use vstd::prelude::*;

verus! {

/// Node-wide caps.
pub const MAX_ENTRIES: usize = 10_000;

pub const MAX_BYTES: usize = 0x100_0000;

/// How long an entry survives without being written again, in nanoseconds.
pub const TTL: u64 = 600_000_000_000;

/// Per-item caps.
///
/// Without them a single guest can consume the whole node budget in one call.
pub const MAX_KEY_BYTES: usize = 1024;

pub const MAX_VALUE_BYTES: usize = 0x1_0000;

/// `(tenant, session, key)`: a tuple rather than a concatenated string, so no
/// choice of key bytes can land a guest in another tenant's namespace, or in
/// another session's.
pub type Key = (String, String, Vec<u8>);

/// A value and the moment it expires.
pub type Stored = (Vec<u8>, u64);

pub type KeyView = (Seq<char>, Seq<char>, Seq<u8>);

pub type StoredView = (Seq<u8>, u64);

pub open spec fn key_view(key: Key) -> KeyView {
    (key.0@, key.1@, key.2@)
}

pub open spec fn stored_view(stored: Stored) -> StoredView {
    (stored.0@, stored.1)
}

/// `dashmap::DashMap`, whose contents the name below speaks of.
#[verifier::external_type_specification]
#[verifier::external_body]
#[verifier::reject_recursive_types(K)]
#[verifier::reject_recursive_types(V)]
#[verifier::reject_recursive_types(S)]
pub struct ExDashMap<K, V, S>(DashMap<K, V, S>);

/// What a map holds.
pub uninterp spec fn contents(map: DashMap<(String, String, Vec<u8>), (Vec<u8>, u64)>) -> Map<
    (Seq<char>, Seq<char>, Seq<u8>),
    (Seq<u8>, u64),
>;

/// `DashMap::new`: an empty map.
#[verifier::external_body]
fn map_new() -> (out: DashMap<Key, Stored>)
    ensures
        (contents(out) == Map::<KeyView, StoredView>::empty()),
{
    DashMap::new()
}

/// `DashMap::get`: the value under an equal key, copied out of its guard.
#[verifier::external_body]
fn map_get(map: &DashMap<Key, Stored>, key: &Key) -> (out: Option<Stored>)
    ensures
        match out {
            Some(stored) => contents(*map).contains_key(key_view(*key)) && contents(
                *map,
            )[key_view(*key)] == stored_view(stored),
            None => !contents(*map).contains_key(key_view(*key)),
        },
{
    map.get(key).map(|found| found.value().clone())
}

/// `DashMap::insert`: puts the value under the key, in place of what an equal
/// key held.
#[verifier::external_body]
fn map_insert(map: &mut DashMap<Key, Stored>, key: Key, stored: Stored)
    ensures
        contents(*final(map)) == contents(*old(map)).insert(key_view(key), stored_view(stored)),
{
    map.insert(key, stored);
}

/// `DashMap::iter`: every entry once, in no particular order.
#[verifier::external_body]
fn map_entries(map: &DashMap<Key, Stored>) -> (out: Vec<(Key, Stored)>)
    ensures
        out@.map_values(|e: (Key, Stored)| key_view(e.0)).no_duplicates(),
        out@.map_values(|e: (Key, Stored)| key_view(e.0)).to_set() == contents(*map).dom(),
        forall|i: int|
            0 <= i < out@.len() ==> contents(*map)[key_view((#[trigger] out@[i]).0)] == stored_view(
                out@[i].1,
            ),
{
    map.iter().map(|entry| (entry.key().clone(), entry.value().clone())).collect()
}

/// `DashMap::retain` with [`outlives`]: keeps the entries that expire after
/// `now`, unchanged, and drops the others.
#[verifier::external_body]
fn map_retain(map: &mut DashMap<Key, Stored>, now: u64)
    ensures
        contents(*final(map)) == live_part(contents(*old(map)), now),
{
    map.retain(|_, stored| outlives(stored, now));
}

/// Whether an entry is still there to be read after `now`.
fn outlives(stored: &Stored, now: u64) -> (out: bool)
    ensures
        out == (stored.1 > now),
{
    stored.1 > now
}

/// The entries that expire after `now`.
pub open spec fn live_part(entries: Map<KeyView, StoredView>, now: u64) -> Map<KeyView, StoredView> {
    Map::new(|k: KeyView| entries.contains_key(k) && entries[k].1 > now, |k: KeyView| entries[k])
}

/// The moment `TTL` after `now`.
pub open spec fn expiry(now: u64) -> u64 {
    if now + TTL <= u64::MAX {
        (now + TTL) as u64
    } else {
        u64::MAX
    }
}

/// What an entry takes of the byte budget.
pub open spec fn cost(key: KeyView, stored: StoredView) -> nat {
    key.2.len() + stored.0.len()
}

/// The store as a map.
pub struct KvView {
    pub entries: Map<KeyView, StoredView>,
}

impl KvView {
    pub open spec fn bytes(self) -> nat {
        total(self.entries, |k: KeyView, s: StoredView| cost(k, s))
    }

    /// Both node-wide caps, always.
    pub open spec fn wf(self) -> bool {
        &&& self.entries.dom().finite()
        &&& self.entries.len() <= MAX_ENTRIES
        &&& self.bytes() <= MAX_BYTES
    }

    /// What a read at `now` finds.
    pub open spec fn read(self, now: u64, key: KeyView) -> Option<Seq<u8>> {
        if self.entries.contains_key(key) && self.entries[key].1 > now {
            Some(self.entries[key].0)
        } else {
            None
        }
    }

    pub open spec fn expired(self, now: u64) -> KvView {
        KvView { entries: live_part(self.entries, now) }
    }

    pub open spec fn written(self, now: u64, key: KeyView, value: Seq<u8>) -> KvView {
        KvView { entries: self.entries.insert(key, (value, expiry(now))) }
    }

    /// Whether there is room for `value` under `key`: the item is within its
    /// own caps, and the store with it is within the node's.
    pub open spec fn accepts(self, key: KeyView, value: Seq<u8>) -> bool {
        &&& key.2.len() <= MAX_KEY_BYTES
        &&& value.len() <= MAX_VALUE_BYTES
        &&& self.entries.contains_key(key) || self.entries.len() < MAX_ENTRIES
        &&& self.written(0, key, value).bytes() <= MAX_BYTES
    }

    /// Whether a write at `now` succeeds, sweeping once if it must.
    pub open spec fn takes(self, now: u64, key: KeyView, value: Seq<u8>) -> bool {
        self.accepts(key, value) || self.expired(now).accepts(key, value)
    }

    /// The store after a write at `now`.
    pub open spec fn after_write(self, now: u64, key: KeyView, value: Seq<u8>) -> KvView {
        if self.accepts(key, value) {
            self.written(now, key, value)
        } else if self.expired(now).accepts(key, value) {
            self.expired(now).written(now, key, value)
        } else {
            self.expired(now)
        }
    }
}

/// The store refused the write: the item is oversized, or the node is at
/// capacity.
///
/// Not a trap and not a truncation: truncating a value is data corruption the
/// guest cannot detect, and trapping kills a request over a recoverable
/// condition.
#[derive(Debug, Clone, Copy, PartialEq, Eq, Structural)]
pub struct Rejected;

pub struct Kv {
    clock: Clock,
    map: DashMap<Key, Stored>,
    bytes: usize,
    entries: usize,
}

impl View for Kv {
    type V = KvView;

    closed spec fn view(&self) -> KvView {
        KvView { entries: contents(self.map) }
    }
}

fn key_of(tenant: &str, session: &str, key: &[u8]) -> (out: Key)
    ensures
        key_view(out) == (tenant@, session@, key@),
{
    (tenant.to_owned(), session.to_owned(), vstd::slice::slice_to_vec(key))
}

impl Kv {
    pub closed spec fn wf(&self) -> bool {
        &&& self@.wf()
        &&& self.bytes == self@.bytes()
        &&& self.entries == self@.entries.len()
    }

    /// What a well-formed store shows is well-formed too.
    pub proof fn lemma_wf(&self)
        requires
            self.wf(),
        ensures
            self@.wf(),
    {
    }

    pub fn new() -> (out: Self)
        ensures
            out.wf(),
            out@.entries == Map::<KeyView, StoredView>::empty(),
    {
        Kv { clock: Clock::start(), map: map_new(), bytes: 0, entries: 0 }
    }

    /// The moment on this store's clock.
    pub fn now(&self) -> u64 {
        self.clock.now()
    }

    pub fn get(&self, tenant: &str, session: &str, key: &[u8]) -> (out: Option<Vec<u8>>)
        requires
            self.wf(),
        ensures
            exists|now: u64| reads(out, #[trigger] self@.read(now, (tenant@, session@, key@))),
    {
        let now: u64 = self.clock.now();
        self.get_at(now, tenant, session, key)
    }

    /// [`Kv::get`] at a given moment: an expired value is not served just
    /// because nothing has needed its space yet.
    pub fn get_at(&self, now: u64, tenant: &str, session: &str, key: &[u8]) -> (out: Option<Vec<u8>>)
        requires
            self.wf(),
        ensures
            reads(out, self@.read(now, (tenant@, session@, key@))),
    {
        match map_get(&self.map, &key_of(tenant, session, key)) {
            Some(stored) => {
                if outlives(&stored, now) {
                    Some(stored.0)
                } else {
                    None
                }
            },
            None => None,
        }
    }

    /// Writes, sweeping expired entries and retrying once if the node is full.
    pub fn set(
        &mut self,
        tenant: &str,
        session: &str,
        key: &[u8],
        value: &[u8],
    ) -> (out: Result<(), Rejected>)
        requires
            old(self).wf(),
        ensures
            final(self).wf(),
            exists|now: u64| {
                &&& final(self)@ == #[trigger] old(self)@.after_write(
                    now,
                    (tenant@, session@, key@),
                    value@,
                )
                &&& out is Ok == old(self)@.takes(now, (tenant@, session@, key@), value@)
            },
    {
        let now: u64 = self.clock.now();
        self.set_at(now, tenant, session, key, value)
    }

    /// [`Kv::set`] at a given moment.
    pub fn set_at(
        &mut self,
        now: u64,
        tenant: &str,
        session: &str,
        key: &[u8],
        value: &[u8],
    ) -> (out: Result<(), Rejected>)
        requires
            old(self).wf(),
        ensures
            final(self).wf(),
            final(self)@ == old(self)@.after_write(now, (tenant@, session@, key@), value@),
            out is Ok == old(self)@.takes(now, (tenant@, session@, key@), value@),
    {
        match self.try_set(now, tenant, session, key, value) {
            Ok(()) => Ok(()),
            Err(refused) => {
                let ghost full = self@;
                // Nothing expired means that the node is genuinely full, and
                // a second attempt would fail the same way.
                if self.expire_at(now) == 0 {
                    proof {
                        lemma_none_dropped(full, now);
                    }
                    Err(refused)
                } else {
                    self.try_set(now, tenant, session, key, value)
                }
            },
        }
    }

    fn try_set(
        &mut self,
        now: u64,
        tenant: &str,
        session: &str,
        key: &[u8],
        value: &[u8],
    ) -> (out: Result<(), Rejected>)
        requires
            old(self).wf(),
        ensures
            final(self).wf(),
            out is Ok == old(self)@.accepts((tenant@, session@, key@), value@),
            final(self)@ == if out is Ok {
                old(self)@.written(now, (tenant@, session@, key@), value@)
            } else {
                old(self)@
            },
    {
        if key.len() > MAX_KEY_BYTES || value.len() > MAX_VALUE_BYTES {
            return Err(Rejected);
        }
        let added: usize = key.len() + value.len();
        let ghost k = (tenant@, session@, key@);
        let ghost weight = |q: KeyView, s: StoredView| cost(q, s);
        let full_key = key_of(tenant, session, key);
        proof {
            lemma_total_insert(self@.entries, weight, k, (value@, expiry(0)));
            lemma_total_insert(self@.entries, weight, k, (value@, expiry(now)));
        }
        let expires: u64 = now.saturating_add(TTL);
        match map_get(&self.map, &full_key) {
            Some(previous) => {
                proof {
                    lemma_total_remove(self@.entries, weight, k);
                }
                let removed: usize = key.len() + previous.0.len();
                self.reserve(added, removed)?;
                map_insert(&mut self.map, full_key, (vstd::slice::slice_to_vec(value), expires));
                proof {
                    assert(old(self)@.entries.insert(k, (value@, expires)).dom() =~= old(
                        self,
                    )@.entries.dom());
                }
            },
            None => {
                if self.entries >= MAX_ENTRIES {
                    return Err(Rejected);
                }
                self.reserve(added, 0)?;
                self.entries = self.entries + 1;
                map_insert(&mut self.map, full_key, (vstd::slice::slice_to_vec(value), expires));
            },
        }
        Ok(())
    }

    /// Trades `removed` bytes of budget for `added`.
    fn reserve(&mut self, added: usize, removed: usize) -> (out: Result<(), Rejected>)
        requires
            removed <= old(self).bytes <= MAX_BYTES,
            added <= MAX_KEY_BYTES + MAX_VALUE_BYTES,
        ensures
            out is Ok == (old(self).bytes - removed + added <= MAX_BYTES),
            final(self).map == old(self).map,
            final(self).entries == old(self).entries,
            final(self).bytes == if out is Ok {
                old(self).bytes - removed + added
            } else {
                old(self).bytes as int
            },
    {
        let next: usize = self.bytes - removed + added;
        if next <= MAX_BYTES {
            self.bytes = next;
            Ok(())
        } else {
            Err(Rejected)
        }
    }

    /// Drops everything past its deadline, returning how many entries went.
    pub fn expire(&mut self) -> (dropped: usize)
        requires
            old(self).wf(),
        ensures
            final(self).wf(),
            exists|now: u64| final(self)@ == #[trigger] old(self)@.expired(now),
            dropped == old(self)@.entries.len() - final(self)@.entries.len(),
    {
        let now: u64 = self.clock.now();
        self.expire_at(now)
    }

    /// [`Kv::expire`] at a given moment.
    pub fn expire_at(&mut self, now: u64) -> (dropped: usize)
        requires
            old(self).wf(),
        ensures
            final(self).wf(),
            final(self)@ == old(self)@.expired(now),
            dropped == old(self)@.entries.len() - final(self)@.entries.len(),
    {
        let items = map_entries(&self.map);
        let ghost keys = items@.map_values(|e: (Key, Stored)| key_view(e.0));
        let ghost start = self@.entries;
        let ghost weight = |q: KeyView, s: StoredView| cost(q, s);
        let ghost mut left = start;
        let mut freed: usize = 0;
        let mut dropped: usize = 0;
        let mut i: usize = 0;
        while i < items.len()
            invariant
                i <= items@.len(),
                self.wf(),
                self@.entries == start,
                keys == items@.map_values(|e: (Key, Stored)| key_view(e.0)),
                keys.no_duplicates(),
                keys.to_set() == start.dom(),
                forall|j: int|
                    0 <= j < items@.len() ==> start[key_view((#[trigger] items@[j]).0)]
                        == stored_view(items@[j].1),
                weight == (|q: KeyView, s: StoredView| cost(q, s)),
                left.submap_of(start),
                left.dom().finite(),
                left.len() + dropped == start.len(),
                total(left, weight) + freed == total(start, weight),
                forall|k: KeyView| #[trigger]
                    start.contains_key(k) && start[k].1 > now ==> left.contains_key(k),
                forall|j: int|
                    0 <= j < i && #[trigger] left.contains_key(keys[j]) ==> start[keys[j]].1 > now,
                forall|j: int| i <= j < keys.len() ==> #[trigger] left.contains_key(keys[j]),
            decreases items@.len() - i,
        {
            let (key, stored) = &items[i];
            let ghost k = keys[i as int];
            let ghost before = left;
            proof {
                assert(left.contains_key(keys[i as int]));
                assert(start[key_view(items@[i as int].0)] == stored_view(items@[i as int].1));
            }
            if !outlives(stored, now) {
                proof {
                    lemma_total_remove(left, weight, k);
                    assert(keys.to_set().contains(k));
                    assert(start.dom().contains(k) && before[k] == start[k]);
                    left = left.remove(k);
                    assert forall|j: int| i + 1 <= j < keys.len() implies #[trigger] left.contains_key(
                        keys[j],
                    ) by {
                        assert(before.contains_key(keys[j]));
                        assert(keys[j] != keys[i as int]);
                    }
                    assert forall|j: int| 0 <= j < i + 1 && #[trigger] left.contains_key(keys[j]) implies start[keys[j]].1
                        > now by {
                        assert(before.contains_key(keys[j]));
                    }
                    assert(total(left, weight) + cost(k, start[k]) + freed == total(start, weight));
                }
                freed = freed + key.2.len() + stored.0.len();
                dropped = dropped + 1;
            }
            i += 1;
        }
        map_retain(&mut self.map, now);
        proof {
            let want = live_part(start, now);
            assert forall|k: KeyView| left.dom().contains(k) == want.dom().contains(k) by {
                if left.dom().contains(k) {
                    assert(keys.to_set().contains(k));
                    let j = keys.index_of(k);
                    assert(left.contains_key(keys[j]));
                }
            }
            assert(left =~= want);
        }
        self.bytes = self.bytes - freed;
        self.entries = self.entries - dropped;
        dropped
    }

    pub fn len(&self) -> (out: usize)
        requires
            self.wf(),
        ensures
            out == self@.entries.len(),
    {
        self.entries
    }

    pub fn is_empty(&self) -> (out: bool)
        requires
            self.wf(),
        ensures
            out == (self@.entries == Map::<KeyView, StoredView>::empty()),
    {
        proof {
            if self@.entries.len() == 0 {
                self@.entries.dom().lemma_len0_is_empty();
                assert(self@.entries =~= Map::empty());
            }
        }
        self.entries == 0
    }

    /// Total key and value bytes currently held.
    pub fn bytes(&self) -> (out: usize)
        requires
            self.wf(),
        ensures
            out == self@.bytes(),
    {
        self.bytes
    }
}

impl Default for Kv {
    fn default() -> (out: Self)
        ensures
            out.wf(),
            out@.entries == Map::<KeyView, StoredView>::empty(),
    {
        Kv::new()
    }
}

/// Whether a value that was read is `found`.
pub open spec fn reads(out: Option<Vec<u8>>, found: Option<Seq<u8>>) -> bool {
    match out {
        Some(value) => found == Some(value@),
        None => found is None,
    }
}

proof fn lemma_expired_fits(s: KvView, now: u64)
    requires
        s.entries.dom().finite(),
    ensures
        s.expired(now).entries.dom().finite(),
        s.expired(now).entries.len() <= s.entries.len(),
        s.expired(now).bytes() <= s.bytes(),
{
    let less = s.expired(now).entries;
    assert(less.submap_of(s.entries));
    lemma_total_subset(s.entries, less, |k: KeyView, v: StoredView| cost(k, v));
    assert(less.dom().subset_of(s.entries.dom()));
    vstd::set_lib::lemma_len_subset(less.dom(), s.entries.dom());
}

proof fn lemma_none_dropped(s: KvView, now: u64)
    requires
        s.entries.dom().finite(),
        s.expired(now).entries.len() == s.entries.len(),
    ensures
        s.expired(now) == s,
{
    let less = s.expired(now).entries;
    assert(less.dom().subset_of(s.entries.dom()));
    vstd::set_lib::lemma_subset_equality(less.dom(), s.entries.dom());
    assert(less =~= s.entries);
}

/// A read gives back what the last write under the same key wrote, until it
/// expires.
pub proof fn law_a_read_gives_back_the_write(
    s: KvView,
    key: KeyView,
    value: Seq<u8>,
    at: u64,
    later: u64,
)
    requires
        s.takes(at, key, value),
    ensures
        s.after_write(at, key, value).read(later, key) == if later < expiry(at) {
            Some(value)
        } else {
            None
        },
{
}

/// A write under one tenant, session and key is invisible under every other:
/// what could be read there can be read still, and nothing else.
pub proof fn law_namespaces_are_private(
    s: KvView,
    key: KeyView,
    other: KeyView,
    value: Seq<u8>,
    at: u64,
    later: u64,
)
    requires
        key != other,
        at <= later,
    ensures
        s.after_write(at, key, value).read(later, other) == s.read(later, other),
{
}

/// A sweep changes nothing that could still be read, and keeps both caps.
pub proof fn law_a_sweep_drops_only_what_is_unreadable(s: KvView, key: KeyView, at: u64, later: u64)
    requires
        s.wf(),
        at <= later,
    ensures
        s.expired(at).wf(),
        s.expired(at).read(later, key) == s.read(later, key),
{
    lemma_expired_fits(s, at);
}

/// A value that was written can be read for ten minutes, and an entry takes the bytes
/// of its key and of its value.
pub proof fn law_a_value_lasts_ten_minutes(key: KeyView, value: Seq<u8>, now: u64)
    ensures
        now + 600_000_000_000 <= u64::MAX ==> expiry(now) == now + 600_000_000_000,
        expiry(now) >= now,
        cost(key, (value, now)) == key.2.len() + value.len(),
{
}

/// A read finds the whole value under exactly that tenant, session and key, while it
/// lasts.
pub proof fn law_a_read_finds_the_whole_value(s: KvView, key: KeyView, now: u64)
    ensures
        s.entries.contains_key(key) && now < s.entries[key].1 ==> s.read(now, key) == Some(
            s.entries[key].0,
        ),
        !(s.entries.contains_key(key) && now < s.entries[key].1) ==> s.read(now, key) is None,
{
}

/// A write is taken with a key of at most a kibibyte and a value of at most
/// sixty-four, where the node has room for one more entry and for the bytes, or has
/// it once what has expired is gone.
pub proof fn law_a_write_is_taken_where_it_fits(
    s: KvView,
    key: KeyView,
    value: Seq<u8>,
    now: u64,
)
    requires
        s.wf(),
    ensures
        ({
            let sized = key.2.len() <= 1024 && value.len() <= 65_536;
            let fits = |t: KvView|
                {
                    let without = (KvView { entries: t.entries.remove(key) });
                    without.entries.len() < 10_000 && without.bytes() + key.2.len()
                        + value.len() <= 16_777_216
                };
            s.takes(now, key, value) <==> sized && (fits(s) || fits(s.expired(now)))
        }),
{
    lemma_expired_fits(s, now);
    lemma_accepts(s, key, value);
    lemma_accepts(s.expired(now), key, value);
}

proof fn lemma_accepts(s: KvView, key: KeyView, value: Seq<u8>)
    requires
        s.wf(),
    ensures
        s.accepts(key, value) <==> key.2.len() <= 1024 && value.len() <= 65_536 && (KvView {
            entries: s.entries.remove(key),
        }).entries.len() < 10_000 && (KvView { entries: s.entries.remove(key) }).bytes()
            + key.2.len() + value.len() <= 16_777_216,
{
    let weight = |k: KeyView, x: StoredView| cost(k, x);
    lemma_total_insert(s.entries, weight, key, (value, expiry(0)));
    if !s.entries.contains_key(key) {
        assert(s.entries.remove(key) =~= s.entries);
    }
}

/// A write that is taken puts the whole value under its own key, and touches nothing
/// else that has not expired; one that is not taken changes nothing that has not.
pub proof fn law_a_write_touches_only_its_key(
    s: KvView,
    key: KeyView,
    value: Seq<u8>,
    now: u64,
    other: KeyView,
)
    ensures
        ({
            let after = s.after_write(now, key, value);
            &&& s.takes(now, key, value) ==> after.entries.contains_key(key) && after.entries[key]
                == (value, expiry(now))
            &&& other != key || !s.takes(now, key, value) ==> {
                &&& after.entries.contains_key(other) ==> s.entries.contains_key(other)
                    && after.entries[other] == s.entries[other]
                &&& s.entries.contains_key(other) && s.entries[other].1 > now
                    ==> after.entries.contains_key(other)
            }
        }),
{
}

/// A sweep keeps exactly what has not expired, as it is.
pub proof fn law_a_sweep_keeps_what_lasts(s: KvView, key: KeyView, now: u64)
    ensures
        s.expired(now).entries.contains_key(key) <==> s.entries.contains_key(key) && now
            < s.entries[key].1,
        s.expired(now).entries.contains_key(key) ==> s.expired(now).entries[key] == s.entries[key],
{
}

/// A key is its tenant, its session and its bytes, each whole, and so is a value.
pub proof fn law_keys_and_values_are_seen_whole(key: Key, stored: Stored)
    ensures
        key_view(key).0 == key.0@ && key_view(key).1 == key.1@ && key_view(key).2 == key.2@,
        stored_view(stored).0 == stored.0@ && stored_view(stored).1 == stored.1,
{
}

/// A read that finds a value hands out all of it.
pub proof fn law_a_found_value_is_handed_out_whole(out: Option<Vec<u8>>, want: Option<Seq<u8>>)
    requires
        reads(out, want),
    ensures
        out is Some <==> want is Some,
        out is Some ==> out->0@ == want->0,
{
}

} // verus!
