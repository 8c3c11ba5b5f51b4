//! Replay of already-answered requests.
//!
//! A dispatched request is never retried, because the worker may have run it.
//! Agent frameworks retry failed calls on their own, so the guarantee would
//! hold inside the cluster and be broken by the caller one layer up. An
//! idempotency key closes the half of that gap that a gateway can see.
use crate::clock::elapsed;
use crate::clock::elapsed_between;
use crate::clock::Clock;
use crate::table::Table;
use crate::tally::lemma_total_insert;
use crate::tally::lemma_total_remove;
use crate::tally::total;
use crate::text::lemma_utf8_below;
use crate::text::lemma_utf8_injective;
use vstd::pervasive::cloned;
use vstd::prelude::*;
use vstd::utf8::encode_utf8;

verus! {

/// How long an answer stays replayable, in nanoseconds.
pub const TTL: u64 = 60_000_000_000;

/// Bound on a caller-supplied key.
pub const MAX_KEY_BYTES: usize = 255;

/// Ceiling on stored entries.
pub const MAX_ENTRIES: usize = 10_000;

/// Ceiling on stored answer bytes.
///
/// A count cap alone is not a bound: with bodies of up to a mebibyte, the
/// entry cap would still let any client hold ten gigabytes for a minute.
pub const MAX_BYTES: usize = 0x400_0000;

/// Scoped so one tenant can never read another's answer by guessing a key.
#[derive(Debug)]
pub struct Slot {
    pub tenant: String,
    pub function_id: String,
    pub key: String,
}

pub struct SlotView {
    pub tenant: Seq<char>,
    pub function_id: Seq<char>,
    pub key: Seq<char>,
}

impl View for Slot {
    type V = SlotView;

    open spec fn view(&self) -> SlotView {
        SlotView { tenant: self.tenant@, function_id: self.function_id@, key: self.key@ }
    }
}

impl Clone for Slot {
    fn clone(&self) -> (out: Self)
        ensures
            out@ == self@,
    {
        Slot {
            tenant: self.tenant.clone(),
            function_id: self.function_id.clone(),
            key: self.key.clone(),
        }
    }
}

enum Entry<T> {
    /// Claimed by a request that has not answered yet.
    InFlight { since: u64 },
    Done { answer: T, until: u64, bytes: usize },
}

/// What is held under a slot.
pub enum Held<T> {
    InFlight { since: u64 },
    Done { answer: T, until: u64, bytes: nat },
}

impl<T> Held<T> {
    /// Whether the entry still counts at `now`.
    pub open spec fn is_live(self, now: u64) -> bool {
        match self {
            Held::InFlight { since } => elapsed(since, now) < TTL,
            Held::Done { until, .. } => until > now,
        }
    }

    /// What the entry takes of the byte budget.
    pub open spec fn size(self) -> nat {
        match self {
            Held::InFlight { .. } => 0,
            Held::Done { bytes, .. } => bytes,
        }
    }
}

/// The moment `TTL` after `now`.
pub open spec fn expiry(now: u64) -> u64 {
    if now + TTL <= u64::MAX {
        (now + TTL) as u64
    } else {
        u64::MAX
    }
}

/// What a keyed request is told.
pub enum Told<T> {
    /// Run it; `keyed` says whether the store holds the slot for it.
    Proceed { keyed: bool },
    Replay { answer: T },
    InFlight,
}

/// The store as a map.
pub struct StoreView<T> {
    pub entries: Map<SlotView, Held<T>>,
}

impl<T> StoreView<T> {
    /// Bytes of all stored answers.
    pub open spec fn bytes(self) -> nat {
        total(self.entries, |s: SlotView, h: Held<T>| h.size())
    }

    /// Both caps, always.
    pub open spec fn wf(self) -> bool {
        &&& self.entries.dom().finite()
        &&& self.entries.len() <= MAX_ENTRIES
        &&& self.bytes() <= MAX_BYTES
    }

    pub open spec fn is_full(self) -> bool {
        self.entries.len() >= MAX_ENTRIES || self.bytes() >= MAX_BYTES
    }

    /// Without what is past its time.
    pub open spec fn expired(self, now: u64) -> StoreView<T> {
        StoreView {
            entries: Map::new(
                |s: SlotView| self.entries.contains_key(s) && self.entries[s].is_live(now),
                |s: SlotView| self.entries[s],
            ),
        }
    }

    pub open spec fn removed(self, slot: SlotView) -> StoreView<T> {
        StoreView { entries: self.entries.remove(slot) }
    }

    /// What a claim of `slot` at `now` is told.
    pub open spec fn told(self, now: u64, slot: SlotView) -> Told<T> {
        if self.entries.contains_key(slot) && self.entries[slot].is_live(now) {
            match self.entries[slot] {
                Held::InFlight { .. } => Told::InFlight,
                Held::Done { answer, .. } => Told::Replay { answer },
            }
        } else {
            Told::Proceed { keyed: !self.swept(now).is_full() }
        }
    }

    /// The store a claim looks for room in: swept only when it is full.
    pub open spec fn swept(self, now: u64) -> StoreView<T> {
        if self.is_full() {
            self.expired(now)
        } else {
            self
        }
    }

    /// The store after a claim of `slot` at `now`.
    pub open spec fn claimed(self, now: u64, slot: SlotView) -> StoreView<T> {
        match self.told(now, slot) {
            Told::Proceed { keyed } => if keyed {
                StoreView {
                    entries: self.swept(now).entries.insert(slot, Held::InFlight { since: now }),
                }
            } else {
                self.swept(now)
            },
            _ => self,
        }
    }

    /// The store that an answer of `bytes` looks for room in: without the
    /// marker of its own slot, and swept only when there is none.
    pub open spec fn cleared(self, now: u64, slot: SlotView, bytes: nat) -> StoreView<T> {
        let rest = self.removed(slot);
        if rest.bytes() + bytes > MAX_BYTES {
            rest.expired(now)
        } else {
            rest
        }
    }

    /// Whether an answer of `bytes` for `slot` will be kept.
    pub open spec fn keeps(self, now: u64, slot: SlotView, bytes: nat) -> bool {
        let rest = self.cleared(now, slot, bytes);
        rest.bytes() + bytes <= MAX_BYTES && rest.entries.len() < MAX_ENTRIES
    }

    /// The store after `slot` is answered at `now`.
    pub open spec fn finished(
        self,
        now: u64,
        slot: SlotView,
        answer: T,
        replayable: bool,
        bytes: nat,
    ) -> StoreView<T> {
        if !replayable {
            self.removed(slot)
        } else if !self.keeps(now, slot, bytes) {
            self.cleared(now, slot, bytes)
        } else {
            StoreView {
                entries: self.cleared(now, slot, bytes).entries.insert(
                    slot,
                    Held::Done { answer, until: expiry(now), bytes },
                ),
            }
        }
    }
}

struct Row<T> {
    slot: Slot,
    entry: Entry<T>,
}

spec fn held<T>(entry: Entry<T>) -> Held<T> {
    match entry {
        Entry::InFlight { since } => Held::InFlight { since },
        Entry::Done { answer, until, bytes } => Held::Done { answer, until, bytes: bytes as nat },
    }
}

/// A slot as one byte string. No text's encoding holds the separator.
spec fn code(slot: SlotView) -> Seq<u8> {
    encode_utf8(slot.tenant) + seq![0xffu8] + encode_utf8(slot.function_id) + seq![0xffu8]
        + encode_utf8(slot.key)
}

proof fn lemma_code_injective(a: SlotView, b: SlotView)
    requires
        code(a) == code(b),
    ensures
        a == b,
{
    lemma_utf8_below(a.tenant);
    lemma_utf8_below(a.function_id);
    lemma_utf8_below(b.tenant);
    lemma_utf8_below(b.function_id);
    let (at, af, ak) = (encode_utf8(a.tenant), encode_utf8(a.function_id), encode_utf8(a.key));
    let (bt, bf, bk) = (encode_utf8(b.tenant), encode_utf8(b.function_id), encode_utf8(b.key));
    let c = code(a);
    assert(c[at.len() as int] == 0xffu8);
    assert(c[bt.len() as int] == 0xffu8);
    if at.len() < bt.len() {
        assert(c[at.len() as int] == bt[at.len() as int]);
    }
    if bt.len() < at.len() {
        assert(c[bt.len() as int] == at[bt.len() as int]);
    }
    assert(at =~= c.take(at.len() as int));
    assert(bt =~= c.take(bt.len() as int));
    let d = c.skip(at.len() as int + 1);
    assert(d =~= af + seq![0xffu8] + ak);
    assert(d =~= bf + seq![0xffu8] + bk);
    assert(d[af.len() as int] == 0xffu8);
    assert(d[bf.len() as int] == 0xffu8);
    if af.len() < bf.len() {
        assert(d[af.len() as int] == bf[af.len() as int]);
    }
    if bf.len() < af.len() {
        assert(d[bf.len() as int] == af[bf.len() as int]);
    }
    assert(af =~= d.take(af.len() as int));
    assert(bf =~= d.take(bf.len() as int));
    assert(ak =~= d.skip(af.len() as int + 1));
    assert(bk =~= d.skip(bf.len() as int + 1));
    lemma_utf8_injective(a.tenant, b.tenant);
    lemma_utf8_injective(a.function_id, b.function_id);
    lemma_utf8_injective(a.key, b.key);
}

fn code_of(slot: &Slot) -> (out: Vec<u8>)
    ensures
        out@ == code(slot@),
{
    let mut out = vstd::slice::slice_to_vec(slot.tenant.as_str().as_bytes());
    out.push(0xff);
    out.extend_from_slice(slot.function_id.as_str().as_bytes());
    out.push(0xff);
    out.extend_from_slice(slot.key.as_str().as_bytes());
    assert(out@ =~= code(slot@));
    out
}

spec fn rows_wf<T>(rows: Map<Seq<u8>, Row<T>>) -> bool {
    forall|k: Seq<u8>| #[trigger] rows.contains_key(k) ==> code(rows[k].slot@) == k
}

spec fn entries_of<T>(rows: Map<Seq<u8>, Row<T>>) -> Map<SlotView, Held<T>> {
    Map::new(
        |s: SlotView| rows.contains_key(code(s)),
        |s: SlotView| held(rows[code(s)].entry),
    )
}

proof fn lemma_rows_put<T>(rows: Map<Seq<u8>, Row<T>>, row: Row<T>)
    requires
        rows_wf(rows),
    ensures
        rows_wf(rows.insert(code(row.slot@), row)),
        entries_of(rows.insert(code(row.slot@), row)) == entries_of(rows).insert(
            row.slot@,
            held(row.entry),
        ),
{
    let k = code(row.slot@);
    let now = entries_of(rows.insert(k, row));
    let want = entries_of(rows).insert(row.slot@, held(row.entry));
    assert forall|s: SlotView|
        #![trigger now.dom().contains(s)]
        #![trigger want.dom().contains(s)]
        now.dom().contains(s) == want.dom().contains(s) && (want.dom().contains(s) ==> now[s]
            == want[s]) by {
        if code(s) == k {
            lemma_code_injective(s, row.slot@);
        }
    }
    assert(now =~= want);
}

proof fn lemma_rows_remove<T>(rows: Map<Seq<u8>, Row<T>>, slot: SlotView)
    requires
        rows_wf(rows),
    ensures
        rows_wf(rows.remove(code(slot))),
        entries_of(rows.remove(code(slot))) == entries_of(rows).remove(slot),
{
    let k = code(slot);
    let now = entries_of(rows.remove(k));
    let want = entries_of(rows).remove(slot);
    assert forall|s: SlotView|
        #![trigger now.dom().contains(s)]
        #![trigger want.dom().contains(s)]
        now.dom().contains(s) == want.dom().contains(s) && (want.dom().contains(s) ==> now[s]
            == want[s]) by {
        if code(s) == k {
            lemma_code_injective(s, slot);
        }
    }
    assert(now =~= want);
}

/// What a caller should do with a keyed request.
pub enum Claim<T> {
    /// This request is the first. Run it, then [`Claimed::finish`].
    Proceed(Claimed),
    /// An identical request already answered. Return this instead of running.
    Replay(T),
    /// An identical request is running right now. Neither replay nor run.
    InFlight,
}

/// A held claim, to be finished with an answer or released without one.
///
/// A client that hangs up in the middle leaves no answer, and a slot left
/// claimed would refuse the very retry that the key exists to serve. So
/// whoever holds a claim that will not be answered releases it.
pub struct Claimed {
    slot: Slot,
    /// False when the store was full and the request runs unkeyed, so neither
    /// finishing nor releasing touches the store.
    keyed: bool,
}

/// Answers to keyed requests.
pub struct Store<T> {
    clock: Clock,
    rows: Table<Row<T>>,
    /// Sum of the stored answers' sizes, maintained on insert and removal.
    bytes: usize,
}

impl<T> View for Store<T> {
    type V = StoreView<T>;

    closed spec fn view(&self) -> StoreView<T> {
        StoreView { entries: entries_of(self.rows@) }
    }
}

impl Claimed {
    pub closed spec fn slot(&self) -> SlotView {
        self.slot@
    }

    pub closed spec fn keyed(&self) -> bool {
        self.keyed
    }
}

impl<T> Store<T> {
    pub closed spec fn wf(&self) -> bool {
        &&& self.rows.wf()
        &&& rows_wf(self.rows@)
        &&& self.bytes == self@.bytes()
        &&& self@.wf()
    }

    /// What a well-formed store shows is well-formed too.
    pub proof fn lemma_wf(&self)
        requires
            self.wf(),
        ensures
            self@.wf(),
    {
    }

    /// The part of [`Store::wf`] that holds between the steps of an operation.
    spec fn counted(&self) -> bool {
        &&& self.rows.wf()
        &&& rows_wf(self.rows@)
        &&& self.bytes == self@.bytes()
    }

    spec fn slots(&self) -> Seq<SlotView> {
        self.rows.keys().map_values(|k: Seq<u8>| self.rows@[k].slot@)
    }

    proof fn lemma_slots(&self)
        requires
            self.rows.wf(),
            rows_wf(self.rows@),
        ensures
            self@.entries.dom().finite(),
            self@.entries.len() == self.rows.keys().len(),
            self.slots().len() == self.rows.keys().len(),
            self.slots().no_duplicates(),
            self.slots().to_set() == self@.entries.dom(),
            forall|i: int|
                0 <= i < self.slots().len() ==> code(#[trigger] self.slots()[i])
                    == self.rows.keys()[i],
    {
        let keys = self.rows.keys();
        let slots = self.slots();
        self.rows.lemma_keys();
        assert forall|i: int, j: int| 0 <= i < slots.len() && 0 <= j < slots.len() && i != j implies slots[i]
            != slots[j] by {
            assert(code(slots[i]) == keys[i]);
            assert(code(slots[j]) == keys[j]);
        }
        assert forall|s: SlotView| slots.contains(s) == self@.entries.dom().contains(s) by {
            if slots.contains(s) {
                let i = slots.index_of(s);
                assert(code(slots[i]) == keys[i]);
            }
            if self@.entries.dom().contains(s) {
                let k = code(s);
                assert(keys.contains(k));
                let i = keys.index_of(k);
                assert(code(slots[i]) == k);
                lemma_code_injective(slots[i], s);
            }
        }
        assert(slots.to_set() =~= self@.entries.dom());
        slots.unique_seq_to_set();
        vstd::seq_lib::seq_to_set_is_finite(slots);
    }

    /// Drops a slot, whatever state it is in.
    pub fn remove(&mut self, slot: &Slot)
        requires
            old(self).wf(),
        ensures
            final(self).wf(),
            final(self)@ == old(self)@.removed(slot@),
    {
        self.take_out(slot);
        proof {
            lemma_removed_fits(old(self)@, slot@);
        }
    }

    fn take_out(&mut self, slot: &Slot)
        requires
            old(self).counted(),
        ensures
            final(self).counted(),
            final(self)@ == old(self)@.removed(slot@),
    {
        let key = code_of(slot);
        let ghost weight = |s: SlotView, h: Held<T>| h.size();
        proof {
            self.lemma_slots();
            lemma_rows_remove(self.rows@, slot@);
        }
        let ghost before = self@;
        match self.rows.remove(&key) {
            Some(row) => {
                proof {
                    lemma_total_remove(before.entries, weight, slot@);
                }
                if let Entry::Done { bytes, .. } = row.entry {
                    self.bytes = self.bytes - bytes;
                }
            },
            None => {
                assert(before.entries.remove(slot@) =~= before.entries);
            },
        }
    }

    /// Drops everything past its time, keeping the byte count in step.
    fn expire(&mut self, now: u64)
        requires
            old(self).counted(),
        ensures
            final(self).counted(),
            final(self)@ == old(self)@.expired(now),
    {
        let ghost start = self@.entries;
        let ghost weight = |s: SlotView, h: Held<T>| h.size();
        let mut i: usize = 0;
        while i < self.rows.len()
            invariant
                self.counted(),
                weight == (|s: SlotView, h: Held<T>| h.size()),
                i <= self.rows.keys().len(),
                self@.entries.submap_of(start),
                forall|s: SlotView| #[trigger]
                    start.contains_key(s) && start[s].is_live(now) ==> self@.entries.contains_key(s),
                forall|j: int|
                    0 <= j < i ==> self@.entries[#[trigger] self.slots()[j]].is_live(now),
            decreases self.rows.keys().len() - i,
        {
            let ghost keys = self.rows.keys();
            let ghost slots = self.slots();
            let ghost entries = self@.entries;
            proof {
                self.lemma_slots();
                self.rows.lemma_keys();
                assert(code(slots[i as int]) == keys[i as int]);
            }
            let row = self.rows.value_at(i);
            let live = match &row.entry {
                Entry::InFlight { since } => elapsed_between(*since, now) < TTL,
                Entry::Done { until, .. } => *until > now,
            };
            assert(live == entries[slots[i as int]].is_live(now));
            if live {
                i += 1;
            } else {
                proof {
                    let s = slots[i as int];
                    lemma_rows_remove(self.rows@, s);
                    assert(entries.contains_key(s));
                    lemma_total_remove(entries, weight, s);
                }
                let (_, dead) = self.rows.remove_at(i);
                if let Entry::Done { bytes, .. } = dead.entry {
                    self.bytes = self.bytes - bytes;
                }
                proof {
                    let s = slots[i as int];
                    assert(self@.entries == entries.remove(s));
                    assert(self.slots() =~= slots.remove(i as int)) by {
                        assert forall|j: int| 0 <= j < self.slots().len() implies self.slots()[j]
                            == slots.remove(i as int)[j] by {
                            let o = if j < i { j } else { j + 1 };
                            assert(self.rows.keys()[j] == keys[o]);
                            assert(keys[o] != keys[i as int]);
                        }
                    }
                    assert forall|j: int| 0 <= j < i implies self@.entries[#[trigger] self.slots()[j]].is_live(
                        now,
                    ) by {
                        assert(self.slots()[j] == slots[j]);
                        assert(slots[j] != s);
                    }
                }
            }
        }
        proof {
            self.lemma_slots();
            let want = old(self)@.expired(now).entries;
            assert forall|s: SlotView| self@.entries.dom().contains(s) == want.dom().contains(s) by {
                if self@.entries.dom().contains(s) {
                    assert(self.slots().contains(s));
                    let j = self.slots().index_of(s);
                    assert(self@.entries[self.slots()[j]].is_live(now));
                }
            }
            assert(self@.entries =~= want);
        }
    }
}

impl<T: Clone> Store<T> {
    pub fn new() -> (out: Self)
        ensures
            out.wf(),
            out@.entries == Map::<SlotView, Held<T>>::empty(),
    {
        let out = Store { clock: Clock::start(), rows: Table::new(), bytes: 0 };
        assert(out@.entries =~= Map::empty());
        out
    }

    /// The moment on this store's clock.
    pub fn now(&self) -> u64 {
        self.clock.now()
    }

    /// Claims a slot, or reports what already holds it.
    ///
    /// The in-flight marker is written before the request is dispatched: two
    /// concurrent retries cannot both proceed.
    pub fn claim(&mut self, slot: &Slot) -> (out: Claim<T>)
        requires
            old(self).wf(),
        ensures
            final(self).wf(),
            exists|now: u64| {
                &&& final(self)@ == #[trigger] old(self)@.claimed(now, slot@)
                &&& answers(out, slot@, old(self)@.told(now, slot@))
            },
    {
        let now: u64 = self.clock.now();
        self.claim_at(now, slot)
    }

    /// [`Store::claim`] at a given moment.
    pub fn claim_at(&mut self, now: u64, slot: &Slot) -> (out: Claim<T>)
        requires
            old(self).wf(),
        ensures
            final(self).wf(),
            final(self)@ == old(self)@.claimed(now, slot@),
            answers(out, slot@, old(self)@.told(now, slot@)),
    {
        let key = code_of(slot);
        match self.rows.get(&key) {
            Some(row) => {
                match &row.entry {
                    Entry::Done { answer, until, .. } => {
                        if *until > now {
                            return Claim::Replay(answer.clone());
                        }
                    },
                    Entry::InFlight { since } => {
                        if elapsed_between(*since, now) < TTL {
                            return Claim::InFlight;
                        }
                    },
                }
            },
            None => {},
        }
        proof {
            self.lemma_slots();
        }
        let ghost start = self@;
        if self.rows.len() >= MAX_ENTRIES || self.bytes >= MAX_BYTES {
            self.expire(now);
            proof {
                self.lemma_slots();
                lemma_expired_fits(start, now);
            }
        }
        if self.rows.len() >= MAX_ENTRIES || self.bytes >= MAX_BYTES {
            return Claim::Proceed(Claimed { slot: slot.clone(), keyed: false });
        }
        let ghost swept = self@;
        self.take_out(slot);
        let row = Row { slot: slot.clone(), entry: Entry::InFlight { since: now } };
        proof {
            self.lemma_slots();
            let weight = |s: SlotView, h: Held<T>| h.size();
            lemma_removed_fits(swept, slot@);
            lemma_rows_put(self.rows@, row);
            lemma_total_insert(self@.entries, weight, slot@, held(row.entry));
            assert(swept.entries.remove(slot@).insert(slot@, held(row.entry)) =~= swept.entries.insert(
                slot@,
                held(row.entry),
            ));
        }
        self.rows.put(key, row);
        Claim::Proceed(Claimed { slot: slot.clone(), keyed: true })
    }

    /// Records an answer, or releases the slot when there is nothing to
    /// replay.
    ///
    /// Only an answer that a retry should receive verbatim is stored. An
    /// answer too large for the remaining budget is not stored either.
    fn finish_at(&mut self, now: u64, slot: &Slot, answer: &T, replayable: bool, bytes: usize)
        requires
            old(self).wf(),
        ensures
            final(self).wf(),
            settled(old(self)@, final(self)@, now, slot@, *answer, replayable, bytes as nat),
    {
        let copy = answer.clone();
        let ghost kept = copy;
        let ghost start = self@;
        self.take_out(slot);
        proof {
            lemma_removed_fits(start, slot@);
        }
        if !replayable {
            assert(self@ == start.finished(now, slot@, kept, replayable, bytes as nat));
            return;
        }
        let ghost rest = self@;
        if bytes > MAX_BYTES - self.bytes {
            self.expire(now);
            proof {
                lemma_expired_fits(rest, now);
            }
        }
        proof {
            self.lemma_slots();
            assert(self@ == start.cleared(now, slot@, bytes as nat));
        }
        if bytes > MAX_BYTES - self.bytes || self.rows.len() >= MAX_ENTRIES {
            assert(self@ == start.finished(now, slot@, kept, replayable, bytes as nat));
            return;
        }
        let until: u64 = now.saturating_add(TTL);
        let row = Row { slot: slot.clone(), entry: Entry::Done { answer: copy, until, bytes } };
        proof {
            let weight = |s: SlotView, h: Held<T>| h.size();
            lemma_rows_put(self.rows@, row);
            assert(!rest.entries.contains_key(slot@));
            assert(!self@.entries.contains_key(slot@));
            lemma_total_insert(self@.entries, weight, slot@, held(row.entry));
            assert(until == expiry(now));
        }
        self.bytes = self.bytes + bytes;
        self.rows.put(code_of(slot), row);
        assert(self@ == start.finished(now, slot@, kept, replayable, bytes as nat));
    }

    /// Entries held.
    pub fn len(&self) -> (out: usize)
        requires
            self.wf(),
        ensures
            out == self@.entries.len(),
    {
        proof {
            self.lemma_slots();
        }
        self.rows.len()
    }

    /// Answer bytes held.
    pub fn bytes(&self) -> (out: usize)
        requires
            self.wf(),
        ensures
            out == self@.bytes(),
    {
        self.bytes
    }
}

impl<T: Clone> Default for Store<T> {
    fn default() -> (out: Self)
        ensures
            out.wf(),
            out@.entries == Map::<SlotView, Held<T>>::empty(),
    {
        Store::new()
    }
}

/// Whether `after` is `before` with `slot` answered by a copy of `answer`.
pub open spec fn settled<T: Clone>(
    before: StoreView<T>,
    after: StoreView<T>,
    now: u64,
    slot: SlotView,
    answer: T,
    replayable: bool,
    bytes: nat,
) -> bool {
    exists|copy: T|
        cloned(answer, copy) && after == #[trigger] before.finished(now, slot, copy, replayable, bytes)
}

/// Whether `claim` says what `told` says.
pub open spec fn answers<T: Clone>(claim: Claim<T>, slot: SlotView, told: Told<T>) -> bool {
    match (claim, told) {
        (Claim::Proceed(held), Told::Proceed { keyed }) => held.slot() == slot && held.keyed()
            == keyed,
        (Claim::Replay(copy), Told::Replay { answer }) => cloned(answer, copy),
        (Claim::InFlight, Told::InFlight) => true,
        _ => false,
    }
}

impl Claimed {
    /// Records the answer, or releases the slot when there is nothing worth
    /// replaying.
    pub fn finish<T: Clone>(
        self,
        store: &mut Store<T>,
        answer: &T,
        replayable: bool,
        bytes: usize,
    )
        requires
            old(store).wf(),
        ensures
            final(store).wf(),
            !self.keyed() ==> final(store)@ == old(store)@,
            self.keyed() ==> exists|now: u64| #[trigger]
                settled(
                    old(store)@,
                    final(store)@,
                    now,
                    self.slot(),
                    *answer,
                    replayable,
                    bytes as nat,
                ),
    {
        let now: u64 = store.clock.now();
        self.finish_at(now, store, answer, replayable, bytes);
    }

    /// [`Claimed::finish`] at a given moment.
    pub fn finish_at<T: Clone>(
        self,
        now: u64,
        store: &mut Store<T>,
        answer: &T,
        replayable: bool,
        bytes: usize,
    )
        requires
            old(store).wf(),
        ensures
            final(store).wf(),
            !self.keyed() ==> final(store)@ == old(store)@,
            self.keyed() ==> settled(
                old(store)@,
                final(store)@,
                now,
                self.slot(),
                *answer,
                replayable,
                bytes as nat,
            ),
    {
        if self.keyed {
            store.finish_at(now, &self.slot, answer, replayable, bytes);
        }
    }

    /// Gives the slot back without an answer.
    pub fn release<T>(self, store: &mut Store<T>)
        requires
            old(store).wf(),
        ensures
            final(store).wf(),
            final(store)@ == if self.keyed() {
                old(store)@.removed(self.slot())
            } else {
                old(store)@
            },
    {
        if self.keyed {
            store.remove(&self.slot);
        }
    }
}

proof fn lemma_removed_fits<T>(s: StoreView<T>, slot: SlotView)
    requires
        s.entries.dom().finite(),
    ensures
        s.removed(slot).entries.dom().finite(),
        s.removed(slot).entries.len() <= s.entries.len(),
        s.entries.contains_key(slot) ==> s.removed(slot).entries.len() + 1 == s.entries.len(),
        s.removed(slot).bytes() <= s.bytes(),
{
    let weight = |q: SlotView, h: Held<T>| h.size();
    if s.entries.contains_key(slot) {
        lemma_total_remove(s.entries, weight, slot);
    } else {
        assert(s.entries.remove(slot) =~= s.entries);
    }
}

proof fn lemma_expired_fits<T>(s: StoreView<T>, now: u64)
    requires
        s.entries.dom().finite(),
    ensures
        s.expired(now).entries.dom().finite(),
        s.expired(now).entries.len() <= s.entries.len(),
        s.expired(now).bytes() <= s.bytes(),
{
    let weight = |q: SlotView, h: Held<T>| h.size();
    let less = s.expired(now).entries;
    assert(less.submap_of(s.entries));
    crate::tally::lemma_total_subset(s.entries, less, weight);
    assert(less.dom().subset_of(s.entries.dom()));
    vstd::set_lib::lemma_len_subset(less.dom(), s.entries.dom());
}

/// An answer that was kept is what the same request is told until it expires.
pub proof fn law_a_finished_answer_replays<T>(
    s: StoreView<T>,
    slot: SlotView,
    answer: T,
    bytes: nat,
    at: u64,
    later: u64,
)
    requires
        s.keeps(at, slot, bytes),
        later < expiry(at),
    ensures
        s.finished(at, slot, answer, true, bytes).told(later, slot) == (Told::Replay { answer }),
{
}

/// While a claim is held, an identical request neither replays nor runs.
pub proof fn law_a_claim_blocks_a_duplicate<T>(s: StoreView<T>, slot: SlotView, at: u64, later: u64)
    requires
        s.told(at, slot) == (Told::<T>::Proceed { keyed: true }),
        elapsed(at, later) < TTL,
    ensures
        s.claimed(at, slot).told(later, slot) == Told::<T>::InFlight,
{
}

/// A slot that was released, or answered with nothing worth replaying, is
/// free for the next request.
pub proof fn law_a_released_slot_is_free<T>(
    s: StoreView<T>,
    slot: SlotView,
    answer: T,
    bytes: nat,
    at: u64,
    later: u64,
)
    ensures
        s.removed(slot).told(later, slot) is Proceed,
        s.finished(at, slot, answer, false, bytes).told(later, slot) is Proceed,
{
}

/// What happens under one slot is invisible under every other: an entry there
/// is neither made nor changed, and goes only when its time is up.
pub proof fn law_slots_are_private<T>(
    s: StoreView<T>,
    slot: SlotView,
    other: SlotView,
    answer: T,
    replayable: bool,
    bytes: nat,
    now: u64,
)
    requires
        slot != other,
    ensures
        same_for(s, s.claimed(now, slot), other, now),
        same_for(s, s.finished(now, slot, answer, replayable, bytes), other, now),
        same_for(s, s.removed(slot), other, now),
{
}

/// Whether `slot` holds in `after` what it held in `before`, or nothing any
/// more because its time was up at `now`.
pub open spec fn same_for<T>(
    before: StoreView<T>,
    after: StoreView<T>,
    slot: SlotView,
    now: u64,
) -> bool {
    &&& after.entries.contains_key(slot) ==> before.entries.contains_key(slot)
        && after.entries[slot] == before.entries[slot]
    &&& before.entries.contains_key(slot) && before.entries[slot].is_live(now)
        ==> after.entries.contains_key(slot)
}

/// A store that stays full after a sweep lets the request run unkeyed and
/// does not grow.
pub proof fn law_a_full_store_lets_requests_through<T>(s: StoreView<T>, slot: SlotView, now: u64)
    requires
        s.wf(),
        s.swept(now).is_full(),
        !(s.entries.contains_key(slot) && s.entries[slot].is_live(now)),
    ensures
        s.told(now, slot) == (Told::<T>::Proceed { keyed: false }),
        s.claimed(now, slot).entries.len() <= s.entries.len(),
        s.claimed(now, slot).bytes() <= s.bytes(),
{
    lemma_expired_fits(s, now);
}

/// Removing an entry gives its bytes back to the budget.
pub proof fn law_removal_returns_bytes<T>(s: StoreView<T>, slot: SlotView)
    requires
        s.wf(),
        s.entries.contains_key(slot),
    ensures
        s.removed(slot).bytes() + s.entries[slot].size() == s.bytes(),
{
    lemma_total_remove(s.entries, |q: SlotView, h: Held<T>| h.size(), slot);
}

/// A claim counts for a minute after it was made, and an answer until a minute after
/// it was given.
pub proof fn law_entries_count_for_a_minute<T>(held: Held<T>, now: u64)
    ensures
        held matches Held::InFlight { since } ==> (held.is_live(now) <==> now < since
            + 60_000_000_000),
        held matches Held::Done { until, .. } ==> (held.is_live(now) <==> now < until),
        now + 60_000_000_000 <= u64::MAX ==> expiry(now) == now + 60_000_000_000,
        expiry(now) >= now,
{
}

/// A request is told to wait while another with its key runs, is told the answer
/// that was given while it counts, and runs otherwise; whether the store holds its
/// slot depends on there being room.
pub proof fn law_a_keyed_request_is_told_what_is_held<T>(s: StoreView<T>, slot: SlotView, now: u64)
    ensures
        ({
            let counts = s.entries.contains_key(slot) && s.entries[slot].is_live(now);
            &&& counts && s.entries[slot] is InFlight ==> s.told(now, slot) is InFlight
            &&& counts && s.entries[slot] is Done ==> s.told(now, slot) == (Told::Replay {
                answer: s.entries[slot]->answer,
            })
            &&& !counts ==> s.told(now, slot) is Proceed
            &&& !counts && s.entries.len() < 10_000 && s.bytes() < 67_108_864 ==> s.told(now, slot)
                == (Told::<T>::Proceed { keyed: true })
            &&& !counts && s.told(now, slot)->keyed ==> s.claimed(now, slot).entries.contains_key(
                slot,
            ) && s.claimed(now, slot).entries[slot] == (Held::<T>::InFlight { since: now })
            &&& counts ==> s.claimed(now, slot) == s
        }),
{
}

/// A store is full with ten thousand entries or sixty-four mebibytes of answers; an
/// answer is kept, as it was given, where it fits both with what still counts; one
/// that is not worth replaying leaves nothing behind.
pub proof fn law_an_answer_is_kept_where_it_fits<T>(
    s: StoreView<T>,
    slot: SlotView,
    answer: T,
    bytes: nat,
    now: u64,
)
    ensures
        s.is_full() <==> s.entries.len() >= 10_000 || s.bytes() >= 67_108_864,
        ({
            let rest = s.removed(slot);
            let room = if rest.bytes() + bytes <= 67_108_864 {
                rest
            } else {
                rest.expired(now)
            };
            let fits = room.bytes() + bytes <= 67_108_864 && room.entries.len() < 10_000;
            let after = s.finished(now, slot, answer, true, bytes);
            &&& fits ==> after.entries.contains_key(slot) && after.entries[slot] == (Held::Done {
                answer,
                until: expiry(now),
                bytes,
            }) && after.entries.remove(slot) == room.entries.remove(slot)
            &&& !fits ==> after == room
            &&& s.finished(now, slot, answer, false, bytes) == rest
            &&& !rest.entries.contains_key(slot)
            &&& (s.keeps(now, slot, bytes) <==> fits)
        }),
{
    let after = s.finished(now, slot, answer, true, bytes);
    let room = s.cleared(now, slot, bytes);
    assert(after.entries.remove(slot) =~= room.entries.remove(slot));
}

/// A sweep keeps exactly what still counts, as it is.
pub proof fn law_a_sweep_keeps_what_counts<T>(s: StoreView<T>, slot: SlotView, now: u64)
    ensures
        s.expired(now).entries.contains_key(slot) <==> s.entries.contains_key(slot)
            && s.entries[slot].is_live(now),
        s.expired(now).entries.contains_key(slot) ==> s.expired(now).entries[slot]
            == s.entries[slot],
{
}

/// An answer takes the bytes it was said to take, and a claim none.
pub proof fn law_only_answers_take_bytes<T>(held: Held<T>)
    ensures
        held is InFlight ==> held.size() == 0,
        held is Done ==> held.size() == held->bytes,
{
}

/// A slot that is settled holds a copy of its answer, where the answer is worth
/// replaying and fits, and nothing otherwise.
pub proof fn law_a_settled_slot_holds_its_answer<T: Clone>(
    before: StoreView<T>,
    after: StoreView<T>,
    now: u64,
    slot: SlotView,
    answer: T,
    replayable: bool,
    bytes: nat,
)
    requires
        settled(before, after, now, slot, answer, replayable, bytes),
    ensures
        after.entries.contains_key(slot) <==> replayable && before.keeps(now, slot, bytes),
        after.entries.contains_key(slot) ==> after.entries[slot] is Done && cloned(
            answer,
            after.entries[slot]->answer,
        ) && after.entries[slot]->until == expiry(now) && after.entries[slot]->bytes == bytes,
{
}

/// A slot is its tenant, its function and its key, each whole.
pub proof fn law_a_slot_is_seen_whole(slot: Slot)
    ensures
        slot@.tenant == slot.tenant@ && slot@.function_id == slot.function_id@ && slot@.key
            == slot.key@,
{
}

/// A claim says exactly what was told: the slot that is held, a copy of the answer, or
/// that another request runs.
pub proof fn law_a_claim_says_what_was_told<T: Clone>(
    claim: Claim<T>,
    slot: SlotView,
    told: Told<T>,
)
    requires
        answers(claim, slot, told),
    ensures
        claim is Proceed <==> told is Proceed,
        claim is Replay <==> told is Replay,
        claim is InFlight <==> told is InFlight,
        claim matches Claim::Proceed(held) ==> held.slot() == slot && held.keyed() == told->keyed,
        claim matches Claim::Replay(copy) ==> cloned(told->answer, copy),
{
}

} // verus!
