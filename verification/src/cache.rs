//! Compiled-module cache: L1 in memory, L2 on disk.
//!
//! Modules are addressed by SHA-256 of the artifact. A new version is a new
//! hash and a new entry, so there is no invalidation protocol and no staleness
//! window.
use crate::table::Table;
use crate::tally::lemma_least;
use crate::tally::lemma_total_insert;
use crate::tally::lemma_total_remove;
use crate::tally::total;
use crate::text::hex_fixed;
use crate::text::hex_fixed_text;
use crate::text::hex_string;
use crate::text::hex_text;
use sha2::Digest;
use sha2::Sha256;
use vstd::pervasive::cloned;
use vstd::prelude::*;
use vstd::string::StringExecFns;

verus! {

/// Default L1 budget. Eviction is bounded by bytes, not by entry count: a
/// count-bounded cache holding sixty 30 MiB modules is an OOM.
pub const DEFAULT_L1_BYTES: usize = 0x4000_0000;

/// Ceiling on the on-disk L2 cache.
pub const DEFAULT_L2_BYTES: u64 = 0x1_0000_0000;

pub type Hash = [u8; 32];

/// The SHA-256 digest of a message.
pub uninterp spec fn sha256(message: Seq<u8>) -> Seq<u8>;

/// `sha2::Sha256::digest`: the digest of `message`, which is a function of its
/// bytes alone. A message of 2^61 bytes or more overflows the bit count that
/// the digest ends with.
#[verifier::external_body]
fn digest(message: &[u8]) -> (out: [u8; 32])
    requires
        message@.len() < 0x2000_0000_0000_0000,
    ensures
        out@ == sha256(message@),
{
    Sha256::digest(message).into()
}

/// The content hash of an artifact.
pub fn content_hash(wasm: &[u8]) -> (out: Hash)
    requires
        wasm@.len() < 0x2000_0000_0000_0000,
    ensures
        out@ == sha256(wasm@),
{
    digest(wasm)
}

/// The same hash as hex: the form that travels on the wire and names files.
pub fn content_hash_hex(wasm: &[u8]) -> (out: String)
    requires
        wasm@.len() < 0x2000_0000_0000_0000,
    ensures
        out@ == hex_text(sha256(wasm@)),
        crate::registry::spec_is_content_hash(out@),
{
    let hash = content_hash(wasm);
    proof {
        crate::text::lemma_hex_text(hash@);
    }
    hex_string(hash.as_slice())
}

/// What produced a module.
#[derive(Debug, Clone, Copy, PartialEq, Eq, Structural)]
pub enum Source {
    Cranelift,
    Aot,
}

/// A module held in memory.
pub struct Cached<M> {
    pub module: M,
    /// Serialized size, used for accounting.
    pub size: nat,
    /// When it was last handed out, on the cache's own clock.
    pub used: nat,
}

/// What is held in memory.
pub struct L1View<M> {
    pub entries: Map<Seq<u8>, Cached<M>>,
    pub clock: nat,
    pub budget: nat,
}

pub open spec fn total_size<M>(entries: Map<Seq<u8>, Cached<M>>) -> nat {
    total(entries, |h: Seq<u8>, c: Cached<M>| c.size)
}

/// Whether nothing was used longer ago than what is under `hash`.
pub open spec fn is_oldest<M>(entries: Map<Seq<u8>, Cached<M>>, hash: Seq<u8>) -> bool {
    &&& entries.contains_key(hash)
    &&& forall|q: Seq<u8>| #[trigger] entries.contains_key(q) ==> entries[hash].used <= entries[q].used
}

/// `entries` less the least recently used ones, as many as it takes to fit the
/// budget, but never the last one.
pub open spec fn evicted<M>(entries: Map<Seq<u8>, Cached<M>>, budget: nat) -> Map<
    Seq<u8>,
    Cached<M>,
>
    decreases entries.dom().len(),
    when entries.dom().finite()
{
    if total_size(entries) > budget && entries.len() > 1 {
        proof {
            lemma_oldest_exists(entries);
        }
        evicted(entries.remove(choose|h: Seq<u8>| is_oldest(entries, h)), budget)
    } else {
        entries
    }
}

/// Unless it is empty, some entry is the oldest.
pub proof fn lemma_oldest_exists<M>(entries: Map<Seq<u8>, Cached<M>>)
    requires
        entries.dom().finite(),
        entries.len() > 0,
    ensures
        exists|h: Seq<u8>| is_oldest(entries, h),
{
    let h = lemma_least(entries.dom(), |q: Seq<u8>| entries[q].used as int);
    assert forall|q: Seq<u8>| #[trigger] entries.contains_key(q) implies entries[h].used
        <= entries[q].used by {
        assert(entries.dom().contains(q));
    }
    assert(is_oldest(entries, h));
}

impl<M> L1View<M> {
    pub open spec fn bytes(self) -> nat {
        total_size(self.entries)
    }

    /// No two entries were used at the same tick, and none in the future.
    pub open spec fn wf(self) -> bool {
        &&& self.entries.dom().finite()
        &&& forall|h: Seq<u8>| #[trigger]
            self.entries.contains_key(h) ==> self.entries[h].used <= self.clock
        &&& forall|a: Seq<u8>, b: Seq<u8>|
            #![trigger self.entries.contains_key(a), self.entries.contains_key(b)]
            self.entries.contains_key(a) && self.entries.contains_key(b) && self.entries[a].used
                == self.entries[b].used ==> a == b
    }

    /// After a lookup: the clock ticks, and what was found is the newest.
    pub open spec fn touched(self, hash: Seq<u8>) -> L1View<M> {
        L1View {
            clock: self.clock + 1,
            entries: if self.entries.contains_key(hash) {
                self.entries.insert(
                    hash,
                    Cached { used: self.clock + 1, ..self.entries[hash] },
                )
            } else {
                self.entries
            },
            ..self
        }
    }

    /// After an insert: the newest entry is in, and the oldest make room.
    pub open spec fn inserted(self, hash: Seq<u8>, module: M, size: nat) -> L1View<M> {
        L1View {
            clock: self.clock + 1,
            entries: evicted(
                self.entries.insert(hash, Cached { module, size, used: self.clock + 1 }),
                self.budget,
            ),
            ..self
        }
    }
}

struct Slot<M> {
    module: M,
    size: usize,
    used: u64,
}

spec fn cached_of<M>(rows: Map<Seq<u8>, Slot<M>>) -> Map<Seq<u8>, Cached<M>> {
    rows.map_values(
        |s: Slot<M>| Cached { module: s.module, size: s.size as nat, used: s.used as nat },
    )
}

/// What a caller is to do about a module.
pub enum Lookup<M> {
    /// Use this: it was in memory.
    Hit(M),
    /// Ask again once the caller that builds it is done.
    Wait,
    /// Load or compile it.
    Build,
}

/// What a lookup finds.
pub enum Verdict {
    Found,
    Busy,
    Yours,
}

/// What a lookup of `hash` finds while the modules of `gates` are being built.
pub open spec fn verdict<M>(cache: L1View<M>, gates: Set<Seq<u8>>, hash: Seq<u8>) -> Verdict {
    if cache.entries.contains_key(hash) {
        Verdict::Found
    } else if gates.contains(hash) {
        Verdict::Busy
    } else {
        Verdict::Yours
    }
}

/// What is being built after a lookup of `hash`.
pub open spec fn asked<M>(cache: L1View<M>, gates: Set<Seq<u8>>, hash: Seq<u8>) -> Set<Seq<u8>> {
    if verdict(cache, gates, hash) is Yours {
        gates.insert(hash)
    } else {
        gates
    }
}

/// What the disk said about a module.
#[derive(Debug, Clone, Copy, PartialEq, Eq, Structural)]
pub enum Probe {
    /// No file under the module's name.
    Absent,
    /// The file was loaded.
    Loaded,
    /// There is a file and it does not load: stale or truncated.
    Stale,
}

/// How far the load of a module has come.
#[derive(Debug, Clone, Copy, PartialEq, Eq, Structural)]
pub enum LoadStage {
    Probing,
    /// The file loaded, and is marked as used.
    Touching,
    /// The file did not load, and goes.
    Discarding,
    Compiling,
    Writing,
    Sweeping,
    /// The module is there, from this source.
    Measuring(Source),
    Ended,
}

/// What the outside answered.
#[derive(Debug, Clone, Copy, PartialEq, Eq, Structural)]
pub enum LoadEvent {
    Probed(Probe),
    Touched,
    Discarded,
    /// Whether the artifact compiled.
    Compiled(bool),
    /// Whether the module could be serialized. Writing it is best effort.
    Written(bool),
    /// How many files a sweep removed.
    Swept(u64),
    /// How large the module's file is, if there is one.
    Measured(Option<u64>),
}

/// What to do next about a module that is not in memory.
#[derive(Debug, Clone, Copy, PartialEq, Eq, Structural)]
pub enum LoadAction {
    /// Load the module's file, if there is one.
    Probe,
    /// Mark the file as used. Best effort.
    Touch,
    /// Remove the file. Best effort.
    Discard,
    Compile,
    /// Serialize the module, and write its file.
    Write,
    /// Only a compile can grow the disk cache, so this is where it is bounded.
    Sweep,
    Measure,
    /// Done: the module came from `source` and is accounted at `size`.
    Keep { source: Source, size: usize },
    /// Done: there is no module.
    GiveUp,
}

/// One module on its way into memory.
#[derive(Debug, Clone, Copy, PartialEq, Eq, Structural)]
pub struct Loading {
    /// How large the artifact is.
    pub artifact: usize,
    pub stage: LoadStage,
}

impl Loading {
    pub open spec fn at(self, stage: LoadStage) -> Loading {
        Loading { stage, ..self }
    }

    /// Where `event` leads, and what to do next.
    pub open spec fn next(self, event: LoadEvent) -> (Loading, LoadAction) {
        match (self.stage, event) {
            (LoadStage::Probing, LoadEvent::Probed(probe)) => match probe {
                Probe::Loaded => (self.at(LoadStage::Touching), LoadAction::Touch),
                Probe::Absent => (self.at(LoadStage::Compiling), LoadAction::Compile),
                Probe::Stale => (self.at(LoadStage::Discarding), LoadAction::Discard),
            },
            (LoadStage::Touching, LoadEvent::Touched) => (
                self.at(LoadStage::Measuring(Source::Aot)),
                LoadAction::Measure,
            ),
            (LoadStage::Discarding, LoadEvent::Discarded) => (
                self.at(LoadStage::Compiling),
                LoadAction::Compile,
            ),
            (LoadStage::Compiling, LoadEvent::Compiled(true)) => (
                self.at(LoadStage::Writing),
                LoadAction::Write,
            ),
            (LoadStage::Writing, LoadEvent::Written(true)) => (
                self.at(LoadStage::Sweeping),
                LoadAction::Sweep,
            ),
            (LoadStage::Writing, LoadEvent::Written(false)) => (
                self.at(LoadStage::Measuring(Source::Cranelift)),
                LoadAction::Measure,
            ),
            (LoadStage::Sweeping, LoadEvent::Swept(_)) => (
                self.at(LoadStage::Measuring(Source::Cranelift)),
                LoadAction::Measure,
            ),
            (LoadStage::Measuring(source), LoadEvent::Measured(file)) => (
                self.at(LoadStage::Ended),
                LoadAction::Keep { source, size: spec_module_size(file, self.artifact) },
            ),
            _ => (self.at(LoadStage::Ended), LoadAction::GiveUp),
        }
    }

    /// What `event` adds to the counters, each of which wraps.
    pub open spec fn counted(self, event: LoadEvent, counts: Counts) -> Counts {
        match (self.stage, event) {
            (LoadStage::Probing, LoadEvent::Probed(Probe::Loaded)) => Counts {
                aot: (counts.aot + 1) % 0x1_0000_0000_0000_0000,
                ..counts
            },
            (LoadStage::Compiling, LoadEvent::Compiled(true)) => Counts {
                cranelift: (counts.cranelift + 1) % 0x1_0000_0000_0000_0000,
                ..counts
            },
            (LoadStage::Sweeping, LoadEvent::Swept(removed)) => Counts {
                evicted_l2: (counts.evicted_l2 + removed as nat) % 0x1_0000_0000_0000_0000,
                ..counts
            },
            _ => counts,
        }
    }

    /// How many steps are left, at most.
    pub open spec fn left(self) -> nat {
        match self.stage {
            LoadStage::Probing => 6,
            LoadStage::Discarding => 5,
            LoadStage::Compiling => 4,
            LoadStage::Writing => 3,
            LoadStage::Sweeping => 2,
            LoadStage::Touching => 2,
            LoadStage::Measuring(_) => 1,
            LoadStage::Ended => 0,
        }
    }

    /// Begins the load of an artifact of `artifact` bytes: the disk is asked
    /// first.
    pub fn begin(artifact: usize) -> (out: (Loading, LoadAction))
        ensures
            out == (Loading { artifact, stage: LoadStage::Probing }, LoadAction::Probe),
    {
        (Loading { artifact, stage: LoadStage::Probing }, LoadAction::Probe)
    }
}

/// How often each path was taken.
pub struct Counts {
    pub cranelift: nat,
    pub aot: nat,
    pub l1_hits: nat,
    pub evicted_l2: nat,
}

/// The in-memory cache, its counters, and the budgets of both levels.
///
/// `M` is a handle on a compiled module; cloning it is cheap.
pub struct Cache<M> {
    rows: Table<Slot<M>>,
    bytes: usize,
    clock: u64,
    budget: usize,
    l2_budget: u64,
    /// What is being loaded or compiled, present only while it is.
    in_flight: Table<()>,
    cranelift: u64,
    aot: u64,
    l1_hits: u64,
    evicted_l2: u64,
}

impl<M> View for Cache<M> {
    type V = L1View<M>;

    closed spec fn view(&self) -> L1View<M> {
        L1View {
            entries: cached_of(self.rows@),
            clock: self.clock as nat,
            budget: self.budget as nat,
        }
    }
}

impl<M> Cache<M> {
    pub closed spec fn wf(&self) -> bool {
        &&& self.rows.wf()
        &&& self.in_flight.wf()
        &&& self@.wf()
        &&& self.bytes == self@.bytes()
    }

    /// What a well-formed cache shows is well-formed too.
    pub proof fn lemma_wf(&self)
        requires
            self.wf(),
        ensures
            self@.wf(),
    {
    }

    /// The hashes whose module some caller is loading or compiling.
    pub closed spec fn gates(&self) -> Set<Seq<u8>> {
        self.in_flight@.dom()
    }

    pub closed spec fn counts(&self) -> Counts {
        Counts {
            cranelift: self.cranelift as nat,
            aot: self.aot as nat,
            l1_hits: self.l1_hits as nat,
            evicted_l2: self.evicted_l2 as nat,
        }
    }

    pub closed spec fn l2_limit(&self) -> u64 {
        self.l2_budget
    }

    proof fn lemma_rows(&self)
        requires
            self.rows.wf(),
        ensures
            self@.entries.dom() == self.rows@.dom(),
            self@.entries.dom().finite(),
            self@.entries.len() == self.rows.keys().len(),
    {
        self.rows.lemma_keys();
        assert(self@.entries.dom() =~= self.rows@.dom());
    }

    pub fn new() -> (out: Self)
        ensures
            out.wf(),
            out@.entries == Map::<Seq<u8>, Cached<M>>::empty(),
            out@.clock == 0,
            out@.budget == DEFAULT_L1_BYTES,
            out.l2_limit() == DEFAULT_L2_BYTES,
            out.gates() == Set::<Seq<u8>>::empty(),
            out.counts() == (Counts { cranelift: 0, aot: 0, l1_hits: 0, evicted_l2: 0 }),
    {
        Self::with_budget(DEFAULT_L1_BYTES)
    }

    pub fn with_budget(budget: usize) -> (out: Self)
        ensures
            out.wf(),
            out@.entries == Map::<Seq<u8>, Cached<M>>::empty(),
            out@.clock == 0,
            out@.budget == budget,
            out.l2_limit() == DEFAULT_L2_BYTES,
            out.gates() == Set::<Seq<u8>>::empty(),
            out.counts() == (Counts { cranelift: 0, aot: 0, l1_hits: 0, evicted_l2: 0 }),
    {
        Self::with_budgets(budget, DEFAULT_L2_BYTES)
    }

    pub fn with_budgets(budget: usize, l2_budget: u64) -> (out: Self)
        ensures
            out.wf(),
            out@.entries == Map::<Seq<u8>, Cached<M>>::empty(),
            out@.clock == 0,
            out@.budget == budget,
            out.l2_limit() == l2_budget,
            out.gates() == Set::<Seq<u8>>::empty(),
            out.counts() == (Counts { cranelift: 0, aot: 0, l1_hits: 0, evicted_l2: 0 }),
    {
        let out = Cache {
            rows: Table::new(),
            bytes: 0,
            clock: 0,
            budget,
            l2_budget,
            in_flight: Table::new(),
            cranelift: 0,
            aot: 0,
            l1_hits: 0,
            evicted_l2: 0,
        };
        assert(out@.entries =~= Map::<Seq<u8>, Cached<M>>::empty());
        assert(out.gates() =~= Set::<Seq<u8>>::empty());
        out
    }

    /// Compilations performed.
    pub fn cranelift_compiles(&self) -> (out: u64)
        ensures
            out == self.counts().cranelift,
    {
        self.cranelift
    }

    /// Modules loaded from disk instead of compiled.
    pub fn aot_loads(&self) -> (out: u64)
        ensures
            out == self.counts().aot,
    {
        self.aot
    }

    pub fn l1_hits(&self) -> (out: u64)
        ensures
            out == self.counts().l1_hits,
    {
        self.l1_hits
    }

    /// Modules dropped from disk to stay inside the budget.
    pub fn evicted_l2(&self) -> (out: u64)
        ensures
            out == self.counts().evicted_l2,
    {
        self.evicted_l2
    }

    pub fn l1_len(&self) -> (out: usize)
        requires
            self.wf(),
        ensures
            out == self@.entries.len(),
    {
        proof {
            self.lemma_rows();
        }
        self.rows.len()
    }

    pub fn l1_bytes(&self) -> (out: usize)
        requires
            self.wf(),
        ensures
            out == self@.bytes(),
    {
        self.bytes
    }

    /// Ticks of the cache's clock so far.
    pub fn ticks(&self) -> (out: u64)
        ensures
            out == self@.clock,
    {
        self.clock
    }

    /// What is held for `hash`, which thereby becomes the newest entry.
    pub fn l1_get(&mut self, hash: &Hash) -> (out: Option<M>)
        where M: Clone
        requires
            old(self).wf(),
            old(self)@.clock < u64::MAX,
        ensures
            final(self).wf(),
            final(self)@ == old(self)@.touched(hash@),
            match out {
                Some(module) => old(self)@.entries.contains_key(hash@) && cloned(
                    old(self)@.entries[hash@].module,
                    module,
                ),
                None => !old(self)@.entries.contains_key(hash@),
            },
            final(self).l2_limit() == old(self).l2_limit(),
            final(self).gates() == old(self).gates(),
            final(self).counts() == (Counts {
                l1_hits: (old(self).counts().l1_hits + if out is Some { 1int } else { 0 }) as nat
                    % 0x1_0000_0000_0000_0000,
                ..old(self).counts()
            }),
    {
        let ghost start = self@;
        proof {
            self.lemma_rows();
        }
        self.clock = self.clock + 1;
        let (at, found) = self.rows.find(hash.as_slice());
        if !found {
            assert(self@.entries =~= start.touched(hash@).entries);
            return None;
        }
        let slot = self.rows.remove_at(at).1;
        let module = slot.module.clone();
        self.rows.put(
            vstd::slice::slice_to_vec(hash.as_slice()),
            Slot { module: slot.module, size: slot.size, used: self.clock },
        );
        self.l1_hits = self.l1_hits.wrapping_add(1);
        proof {
            let now = self@.entries;
            let want = start.touched(hash@).entries;
            assert(now =~= want);
            let weight = |h: Seq<u8>, c: Cached<M>| c.size;
            lemma_total_insert(start.entries, weight, hash@, want[hash@]);
        }
        Some(module)
    }

    /// The least recently used entry's place.
    fn victim(&self) -> (at: usize)
        requires
            self.rows.wf(),
            self.rows.keys().len() > 0,
        ensures
            at < self.rows.keys().len(),
            is_oldest(self@.entries, self.rows.keys()[at as int]),
    {
        let ghost keys = self.rows.keys();
        proof {
            self.rows.lemma_keys();
            self.lemma_rows();
        }
        let n: usize = self.rows.len();
        let mut at: usize = 0;
        let mut i: usize = 1;
        while i < n
            invariant
                self.rows.wf(),
                keys == self.rows.keys(),
                n == keys.len(),
                at < i <= n,
                forall|j: int|
                    0 <= j < i ==> self.rows@[keys[at as int]].used <= self.rows@[#[trigger] keys[j]].used,
            decreases n - i,
        {
            if self.rows.value_at(i).used < self.rows.value_at(at).used {
                at = i;
            }
            i += 1;
        }
        proof {
            self.rows.lemma_keys();
            assert(self.rows@.contains_key(keys[at as int]));
            assert forall|q: Seq<u8>| #[trigger] self@.entries.contains_key(q) implies self@.entries[keys[at as int]].used
                <= self@.entries[q].used by {
                assert(keys.contains(q));
                let j = keys.index_of(q);
                assert(keys[j] == q);
            }
        }
        at
    }

    /// Puts a module in, and the least recently used ones out until the rest
    /// fits the budget.
    ///
    /// The entry just inserted stays even if it alone exceeds the budget, so
    /// an oversized module cannot make the cache thrash itself empty.
    pub fn l1_insert(&mut self, hash: Hash, module: M, size: usize)
        requires
            old(self).wf(),
            old(self)@.clock < u64::MAX,
            old(self)@.bytes() + size <= usize::MAX,
        ensures
            final(self).wf(),
            final(self)@ == old(self)@.inserted(hash@, module, size as nat),
            final(self).counts() == old(self).counts(),
            final(self).l2_limit() == old(self).l2_limit(),
            final(self).gates() == old(self).gates(),
    {
        let ghost start = self@;
        let ghost weight = |h: Seq<u8>, c: Cached<M>| c.size;
        proof {
            self.lemma_rows();
        }
        self.clock = self.clock + 1;
        match self.rows.remove(hash.as_slice()) {
            Some(previous) => {
                proof {
                    lemma_total_remove(start.entries, weight, hash@);
                }
                self.bytes = self.bytes - previous.size;
            },
            None => {
                assert(start.entries.remove(hash@) =~= start.entries);
            },
        }
        proof {
            assert(self@.entries =~= start.entries.remove(hash@));
            self.lemma_rows();
            lemma_total_insert(
                start.entries.remove(hash@),
                weight,
                hash@,
                Cached { module, size: size as nat, used: start.clock + 1 },
            );
        }
        self.rows.put(
            vstd::slice::slice_to_vec(hash.as_slice()),
            Slot { module, size, used: self.clock },
        );
        self.bytes = self.bytes + size;
        let ghost full = start.entries.insert(
            hash@,
            Cached { module, size: size as nat, used: start.clock + 1 },
        );
        proof {
            assert(self@.entries =~= full);
            assert(full =~= start.entries.remove(hash@).insert(hash@, full[hash@]));
            self.lemma_rows();
            assert(self.bytes == self@.bytes());
            assert forall|h: Seq<u8>| #[trigger] full.contains_key(h) implies full[h].used <= start.clock
                + 1 && (h != hash@ ==> full[h].used <= start.clock) by {
                if h != hash@ {
                    assert(start.entries.contains_key(h));
                }
            }
            assert(self@.wf());
        }
        while self.bytes > self.budget && self.rows.len() > 1
            invariant
                self.wf(),
                weight == (|h: Seq<u8>, c: Cached<M>| c.size),
                self@.budget == start.budget,
                self@.clock == start.clock + 1,
                self.counts() == old(self).counts(),
                self.l2_limit() == old(self).l2_limit(),
                self.gates() == old(self).gates(),
                evicted(full, start.budget) == evicted(self@.entries, start.budget),
            decreases self.rows.keys().len(),
        {
            let ghost entries = self@.entries;
            let at = self.victim();
            proof {
                self.lemma_rows();
                self.rows.lemma_keys();
                let h = self.rows.keys()[at as int];
                let c = choose|c: Seq<u8>| is_oldest(entries, c);
                assert(is_oldest(entries, c));
                assert(entries[c].used == entries[h].used);
                assert(c == h);
                lemma_total_remove(entries, weight, h);
            }
            let (gone, slot) = self.rows.remove_at(at);
            self.bytes = self.bytes - slot.size;
            proof {
                assert(self@.entries =~= entries.remove(gone@));
                self.lemma_rows();
            }
        }
        proof {
            self.lemma_rows();
        }
    }

    /// The module of an artifact, or what the caller is to do about it.
    ///
    /// Concurrent callers for the same artifact build it once: the first is
    /// told to, the rest wait until it is done and find the finished module in
    /// memory. Whoever builds ends with [`Cache::built`] or
    /// [`Cache::build_failed`].
    pub fn get_or_compile(&mut self, wasm: &[u8]) -> (out: (Hash, Lookup<M>))
        where M: Clone
        requires
            old(self).wf(),
            old(self)@.clock < u64::MAX,
            wasm@.len() < 0x2000_0000_0000_0000,
        ensures
            final(self).wf(),
            out.0@ == sha256(wasm@),
            final(self)@ == old(self)@.touched(out.0@),
            final(self).l2_limit() == old(self).l2_limit(),
            final(self).gates() == asked(old(self)@, old(self).gates(), out.0@),
            match out.1 {
                Lookup::Hit(module) => verdict(old(self)@, old(self).gates(), out.0@) is Found
                    && cloned(old(self)@.entries[out.0@].module, module),
                Lookup::Wait => verdict(old(self)@, old(self).gates(), out.0@) is Busy,
                Lookup::Build => verdict(old(self)@, old(self).gates(), out.0@) is Yours,
            },
            final(self).counts() == (Counts {
                l1_hits: (old(self).counts().l1_hits + if out.1 is Hit { 1int } else { 0 }) as nat
                    % 0x1_0000_0000_0000_0000,
                ..old(self).counts()
            }),
    {
        let hash = content_hash(wasm);
        if let Some(module) = self.l1_get(&hash) {
            return (hash, Lookup::Hit(module));
        }
        if self.in_flight.contains_key(hash.as_slice()) {
            return (hash, Lookup::Wait);
        }
        let ghost gates = self.gates();
        self.in_flight.put(vstd::slice::slice_to_vec(hash.as_slice()), ());
        assert(self.gates() =~= gates.insert(hash@));
        (hash, Lookup::Build)
    }

    /// Publishes a finished module, and only then lets the next caller in, so
    /// that nobody who arrives after can miss it and build it a second time.
    pub fn built(&mut self, hash: Hash, module: M, size: usize)
        requires
            old(self).wf(),
            old(self)@.clock < u64::MAX,
            old(self)@.bytes() + size <= usize::MAX,
        ensures
            final(self).wf(),
            final(self)@ == old(self)@.inserted(hash@, module, size as nat),
            final(self).gates() == old(self).gates().remove(hash@),
            final(self).counts() == old(self).counts(),
            final(self).l2_limit() == old(self).l2_limit(),
    {
        self.l1_insert(hash, module, size);
        let ghost gates = self.gates();
        let _ = self.in_flight.remove(hash.as_slice());
        assert(self.gates() =~= gates.remove(hash@));
    }

    /// Lets the next caller in to try again.
    pub fn build_failed(&mut self, hash: &Hash)
        requires
            old(self).wf(),
        ensures
            final(self).wf(),
            final(self)@ == old(self)@,
            final(self).gates() == old(self).gates().remove(hash@),
            final(self).counts() == old(self).counts(),
            final(self).l2_limit() == old(self).l2_limit(),
    {
        let ghost gates = self.gates();
        let _ = self.in_flight.remove(hash.as_slice());
        assert(self.gates() =~= gates.remove(hash@));
    }

    /// Takes what the outside answered about a module that is being loaded.
    pub fn load_or_compile(&mut self, loading: Loading, event: LoadEvent) -> (out: (
        Loading,
        LoadAction,
    ))
        requires
            old(self).wf(),
        ensures
            final(self).wf(),
            final(self)@ == old(self)@,
            final(self).l2_limit() == old(self).l2_limit(),
            final(self).gates() == old(self).gates(),
            out == loading.next(event),
            final(self).counts() == loading.counted(event, old(self).counts()),
    {
        let artifact: usize = loading.artifact;
        let (stage, action) = match (loading.stage, event) {
            (LoadStage::Probing, LoadEvent::Probed(probe)) => match probe {
                Probe::Loaded => {
                    self.aot = self.aot.wrapping_add(1);
                    (LoadStage::Touching, LoadAction::Touch)
                },
                Probe::Absent => (LoadStage::Compiling, LoadAction::Compile),
                Probe::Stale => (LoadStage::Discarding, LoadAction::Discard),
            },
            (LoadStage::Touching, LoadEvent::Touched) => (
                LoadStage::Measuring(Source::Aot),
                LoadAction::Measure,
            ),
            (LoadStage::Discarding, LoadEvent::Discarded) => (
                LoadStage::Compiling,
                LoadAction::Compile,
            ),
            (LoadStage::Compiling, LoadEvent::Compiled(true)) => {
                self.cranelift = self.cranelift.wrapping_add(1);
                (LoadStage::Writing, LoadAction::Write)
            },
            (LoadStage::Writing, LoadEvent::Written(true)) => (
                LoadStage::Sweeping,
                LoadAction::Sweep,
            ),
            (LoadStage::Writing, LoadEvent::Written(false)) => (
                LoadStage::Measuring(Source::Cranelift),
                LoadAction::Measure,
            ),
            (LoadStage::Sweeping, LoadEvent::Swept(removed)) => {
                self.evicted_l2 = self.evicted_l2.wrapping_add(removed);
                (LoadStage::Measuring(Source::Cranelift), LoadAction::Measure)
            },
            (LoadStage::Measuring(source), LoadEvent::Measured(file)) => (
                LoadStage::Ended,
                LoadAction::Keep { source, size: module_size(file, artifact) },
            ),
            _ => (LoadStage::Ended, LoadAction::GiveUp),
        };
        (Loading { artifact, stage }, action)
    }

    /// The budget of the disk cache.
    pub fn l2_budget(&self) -> (out: u64)
        ensures
            out == self.l2_limit(),
    {
        self.l2_budget
    }
}

/// The size a module is accounted at: its file's, or its artifact's when there
/// is no file.
pub open spec fn spec_module_size(file: Option<u64>, artifact: usize) -> usize {
    match file {
        Some(len) => len as usize,
        None => artifact,
    }
}

pub fn module_size(file: Option<u64>, artifact: usize) -> (out: usize)
    ensures
        out == spec_module_size(file, artifact),
{
    match file {
        Some(len) => len as usize,
        None => artifact,
    }
}

/// A module's file name: its artifact's hash and the engine's own
/// compatibility hash.
pub fn l2_name(hash: &Hash, compatibility: u64) -> (out: String)
    ensures
        out@ == hex_text(hash@) + "-"@ + hex_fixed(compatibility as nat, 16) + ".cwasm"@,
{
    let mut out = hex_string(hash.as_slice());
    out.append("-");
    out.append(hex_fixed_text(compatibility, 16).as_str());
    out.append(".cwasm");
    out
}

proof fn lemma_evicted<M>(entries: Map<Seq<u8>, Cached<M>>, budget: nat)
    requires
        entries.dom().finite(),
    ensures
        evicted(entries, budget).dom().finite(),
        evicted(entries, budget).submap_of(entries),
        total_size(evicted(entries, budget)) <= budget || evicted(entries, budget).len() <= 1,
        entries.len() > 0 ==> evicted(entries, budget).len() > 0,
        forall|a: Seq<u8>, b: Seq<u8>|
            #![trigger evicted(entries, budget).contains_key(a), entries.contains_key(b)]
            evicted(entries, budget).contains_key(a) && entries.contains_key(b) && entries[a].used
                < entries[b].used ==> evicted(entries, budget).contains_key(b),
    decreases entries.dom().len(),
{
    if total_size(entries) > budget && entries.len() > 1 {
        lemma_oldest_exists(entries);
        let h = choose|h: Seq<u8>| is_oldest(entries, h);
        let rest = entries.remove(h);
        lemma_evicted(rest, budget);
        let out = evicted(entries, budget);
        assert(out == evicted(rest, budget));
        assert forall|a: Seq<u8>, b: Seq<u8>|
            #![trigger out.contains_key(a), entries.contains_key(b)]
            out.contains_key(a) && entries.contains_key(b) && entries[a].used < entries[b].used implies out.contains_key(
        b) by {
            assert(rest.contains_key(a));
            assert(entries[h].used <= entries[a].used);
            assert(rest.contains_key(b));
        }
    }
}

/// A module whose file loads is never compiled: a restart replays from disk.
pub proof fn law_a_loaded_module_is_not_compiled(
    loading: Loading,
    event: LoadEvent,
    counts: Counts,
)
    requires
        loading.stage == LoadStage::Touching || loading.stage == LoadStage::Measuring(Source::Aot),
    ensures
        ({
            let (after, action) = loading.next(event);
            &&& action != LoadAction::Compile
            &&& loading.counted(event, counts) == counts
            &&& after.stage == LoadStage::Measuring(Source::Aot) || after.stage == LoadStage::Ended
            &&& action matches LoadAction::Keep { source, .. } ==> source == Source::Aot
        }),
{
}

/// Every step brings a load closer to its end, and what it compiles it compiles
/// once: after a compile there is no way back to another.
pub proof fn law_a_load_ends_and_compiles_at_most_once(
    loading: Loading,
    event: LoadEvent,
    counts: Counts,
)
    ensures
        loading.stage != LoadStage::Ended ==> loading.next(event).0.left() < loading.left(),
        loading.next(event).1 == LoadAction::Compile ==> loading.left() > 4,
        loading.counted(event, counts).cranelift != counts.cranelift ==> loading.left() == 4
            && loading.next(event).0.left() < 4,
{
}

/// A file that does not load is gone before anything is compiled in its place.
pub proof fn law_a_stale_file_is_discarded_first(loading: Loading)
    requires
        loading.stage == LoadStage::Probing,
    ensures
        ({
            let (after, action) = loading.next(LoadEvent::Probed(Probe::Stale));
            &&& action == LoadAction::Discard
            &&& after.next(LoadEvent::Discarded).1 == LoadAction::Compile
        }),
{
}

/// What was just inserted is in the cache, even if it is larger than the
/// budget.
pub proof fn law_the_newest_module_survives<M>(
    cache: L1View<M>,
    hash: Seq<u8>,
    module: M,
    size: nat,
)
    requires
        cache.wf(),
    ensures
        cache.inserted(hash, module, size).entries.contains_key(hash),
        cache.inserted(hash, module, size).entries[hash].module == module,
{
    let full = cache.entries.insert(hash, Cached { module, size, used: cache.clock + 1 });
    lemma_evicted(full, cache.budget);
    let out = evicted(full, cache.budget);
    assert(out.dom().len() > 0);
    let a = out.dom().choose();
    assert(out.contains_key(a));
    assert(full.contains_key(a) && full.contains_key(hash));
    if a != hash {
        assert(cache.entries.contains_key(a));
        assert(full[a].used < full[hash].used);
    }
    assert(out.contains_key(hash));
}

/// What a caller does to the cache.
pub enum Turn<M> {
    Ask(Seq<u8>),
    Built(Seq<u8>, M, nat),
    Failed(Seq<u8>),
}

/// The cache and its gates after one turn.
pub open spec fn after<M>(cache: L1View<M>, gates: Set<Seq<u8>>, turn: Turn<M>) -> (
    L1View<M>,
    Set<Seq<u8>>,
) {
    match turn {
        Turn::Ask(h) => (cache.touched(h), asked(cache, gates, h)),
        Turn::Built(h, module, size) => (cache.inserted(h, module, size), gates.remove(h)),
        Turn::Failed(h) => (cache, gates.remove(h)),
    }
}

/// The cache and its gates after some turns.
pub open spec fn after_all<M>(cache: L1View<M>, gates: Set<Seq<u8>>, turns: Seq<Turn<M>>) -> (
    L1View<M>,
    Set<Seq<u8>>,
)
    decreases turns.len(),
{
    if turns.len() == 0 {
        (cache, gates)
    } else {
        let (c, g) = after_all(cache, gates, turns.drop_last());
        after(c, g, turns.last())
    }
}

/// How many callers were told to build `hash`.
pub open spec fn builds<M>(
    cache: L1View<M>,
    gates: Set<Seq<u8>>,
    turns: Seq<Turn<M>>,
    hash: Seq<u8>,
) -> nat
    decreases turns.len(),
{
    if turns.len() == 0 {
        0
    } else {
        let (c, g) = after_all(cache, gates, turns.drop_last());
        builds(cache, gates, turns.drop_last(), hash) + if turns.last() == Turn::<M>::Ask(hash)
            && verdict(c, g, hash) is Yours {
            1nat
        } else {
            0
        }
    }
}

/// How many builds of `hash` ended.
pub open spec fn endings<M>(turns: Seq<Turn<M>>, hash: Seq<u8>) -> nat
    decreases turns.len(),
{
    if turns.len() == 0 {
        0
    } else {
        endings(turns.drop_last(), hash) + match turns.last() {
            Turn::Ask(_) => 0nat,
            Turn::Built(h, _, _) => if h == hash {
                1
            } else {
                0
            },
            Turn::Failed(h) => if h == hash {
                1
            } else {
                0
            },
        }
    }
}

/// However many callers ask, and in whatever order they interleave with the
/// work on other modules, a module is built by one of them at a time: by one
/// more than the builds that ended, at most.
pub proof fn law_concurrent_requests_compile_once<M>(
    cache: L1View<M>,
    gates: Set<Seq<u8>>,
    turns: Seq<Turn<M>>,
    hash: Seq<u8>,
)
    ensures
        builds(cache, gates, turns, hash) + (if gates.contains(hash) {
            1nat
        } else {
            0
        }) <= endings(turns, hash) + (if after_all(cache, gates, turns).1.contains(hash) {
            1nat
        } else {
            0
        }),
    decreases turns.len(),
{
    if turns.len() > 0 {
        law_concurrent_requests_compile_once(cache, gates, turns.drop_last(), hash);
    }
}

/// A caller that asks after a build has ended well finds the module, however
/// large it is.
pub proof fn law_a_finished_compile_is_found<M>(
    cache: L1View<M>,
    gates: Set<Seq<u8>>,
    hash: Seq<u8>,
    module: M,
    size: nat,
)
    requires
        cache.wf(),
    ensures
        ({
            let (c, g) = after(cache, gates, Turn::Built(hash, module, size));
            verdict(c, g, hash) is Found && c.entries[hash].module == module
        }),
{
    law_the_newest_module_survives(cache, hash, module, size);
}

/// A caller that asks after a build has failed is told to build.
pub proof fn law_a_failed_compile_is_tried_again<M>(
    cache: L1View<M>,
    gates: Set<Seq<u8>>,
    hash: Seq<u8>,
)
    requires
        !cache.entries.contains_key(hash),
    ensures
        ({
            let (c, g) = after(cache, gates, Turn::<M>::Failed(hash));
            verdict(c, g, hash) is Yours
        }),
{
}

/// An insert leaves the cache within its budget, or with one module only.
pub proof fn law_eviction_is_bounded_by_bytes<M>(
    cache: L1View<M>,
    hash: Seq<u8>,
    module: M,
    size: nat,
)
    requires
        cache.wf(),
    ensures
        cache.inserted(hash, module, size).bytes() <= cache.budget || cache.inserted(
            hash,
            module,
            size,
        ).entries.len() == 1,
{
    let full = cache.entries.insert(hash, Cached { module, size, used: cache.clock + 1 });
    lemma_evicted(full, cache.budget);
}

/// No module is evicted before one that was used longer ago.
pub proof fn law_the_least_recently_used_goes_first<M>(
    cache: L1View<M>,
    hash: Seq<u8>,
    module: M,
    size: nat,
    kept: Seq<u8>,
    newer: Seq<u8>,
)
    requires
        cache.wf(),
        kept != hash,
        cache.inserted(hash, module, size).entries.contains_key(kept),
        cache.entries.contains_key(newer),
        newer != hash,
    ensures
        cache.entries.contains_key(kept),
        cache.entries[kept].used < cache.entries[newer].used ==> cache.inserted(
            hash,
            module,
            size,
        ).entries.contains_key(newer),
{
    let full = cache.entries.insert(hash, Cached { module, size, used: cache.clock + 1 });
    lemma_evicted(full, cache.budget);
    assert(full.contains_key(kept) && full.contains_key(newer));
}

/// A module that was looked up is newer than every other.
pub proof fn law_a_hit_makes_a_module_the_newest<M>(cache: L1View<M>, hash: Seq<u8>, other: Seq<u8>)
    requires
        cache.wf(),
        cache.entries.contains_key(hash),
        cache.entries.contains_key(other),
        other != hash,
    ensures
        cache.touched(hash).wf(),
        cache.touched(hash).entries[other].used < cache.touched(hash).entries[hash].used,
{
    let now = cache.touched(hash);
    assert forall|h: Seq<u8>| #[trigger] now.entries.contains_key(h) implies now.entries[h].used
        <= now.clock && (h != hash ==> now.entries[h].used <= cache.clock) by {
        assert(cache.entries.contains_key(h));
    }
}

/// A file of the disk cache: when it was last used, and its size.
pub type L2File = (i128, u64);

/// Whether file `a` makes room before file `b`: it was used earlier, or at the
/// same time and listed first.
pub open spec fn goes_before(files: Seq<L2File>, a: int, b: int) -> bool {
    files[a].0 < files[b].0 || (files[a].0 == files[b].0 && a < b)
}

/// A sweep of the disk cache.
pub struct SweepView {
    pub files: Seq<L2File>,
    /// Every file, least recently used first.
    pub order: Seq<int>,
    /// How many of them were tried.
    pub tried: nat,
    /// The sizes of the files that are still there.
    pub left: Map<int, u64>,
    pub budget: u64,
}

pub open spec fn sizes(files: Seq<L2File>) -> Map<int, u64> {
    Map::new(|i: int| 0 <= i < files.len(), |i: int| files[i].1)
}

impl SweepView {
    pub open spec fn bytes(self) -> nat {
        total(self.left, |i: int, size: u64| size as nat)
    }

    pub open spec fn wf(self) -> bool {
        &&& self.order.len() == self.files.len()
        &&& self.tried <= self.order.len()
        &&& forall|k: int|
            0 <= k < self.order.len() ==> 0 <= #[trigger] self.order[k] < self.files.len()
        &&& forall|i: int| 0 <= i < self.files.len() ==> #[trigger] self.order.contains(i)
        &&& forall|a: int, b: int|
            0 <= a < b < self.order.len() ==> goes_before(
                self.files,
                #[trigger] self.order[a],
                #[trigger] self.order[b],
            )
        &&& self.left.dom().finite()
        &&& self.left.submap_of(sizes(self.files))
        &&& forall|k: int|
            self.tried <= k < self.order.len() ==> #[trigger] self.left.contains_key(self.order[k])
    }

    /// The file to remove next: none once the rest fits the budget.
    pub open spec fn next(self) -> Option<int> {
        if self.bytes() > self.budget && self.tried < self.order.len() {
            Some(self.order[self.tried as int])
        } else {
            None
        }
    }

    pub open spec fn settled(self, gone: bool) -> SweepView {
        SweepView {
            tried: self.tried + 1,
            left: if gone {
                self.left.remove(self.order[self.tried as int])
            } else {
                self.left
            },
            ..self
        }
    }
}

/// Evicts the least recently used files until the directory fits, one removal
/// at a time.
pub struct Sweep {
    files: Vec<L2File>,
    order: Vec<usize>,
    tried: usize,
    left: Ghost<Map<int, u64>>,
    bytes: u128,
    budget: u64,
    removed: u64,
}

impl View for Sweep {
    type V = SweepView;

    closed spec fn view(&self) -> SweepView {
        SweepView {
            files: self.files@,
            order: self.order@.map_values(|i: usize| i as int),
            tried: self.tried as nat,
            left: self.left@,
            budget: self.budget,
        }
    }
}

spec fn lists(order: Seq<usize>, i: int) -> bool {
    exists|k: int| 0 <= k < order.len() && #[trigger] order[k] == i
}

/// The places of `files`, least recently used first.
fn by_age(files: &Vec<L2File>) -> (order: Vec<usize>)
    ensures
        order@.len() == files@.len(),
        forall|k: int| 0 <= k < order@.len() ==> (#[trigger] order@[k]) < files@.len(),
        forall|i: int| 0 <= i < files@.len() ==> #[trigger] lists(order@, i),
        forall|a: int, b: int|
            0 <= a < b < order@.len() ==> goes_before(
                files@,
                (#[trigger] order@[a]) as int,
                (#[trigger] order@[b]) as int,
            ),
{
    let mut order: Vec<usize> = Vec::new();
    let mut i: usize = 0;
    while i < files.len()
        invariant
            i <= files@.len(),
            order@.len() == i,
            forall|k: int| 0 <= k < order@.len() ==> (#[trigger] order@[k]) < i,
            forall|f: int| 0 <= f < i ==> #[trigger] lists(order@, f),
            forall|a: int, b: int|
                0 <= a < b < order@.len() ==> goes_before(
                    files@,
                    (#[trigger] order@[a]) as int,
                    (#[trigger] order@[b]) as int,
                ),
        decreases files@.len() - i,
    {
        let mut at: usize = order.len();
        while at > 0 && files[order[at - 1]].0 > files[i].0
            invariant
                i < files@.len(),
                at <= order@.len(),
                forall|k: int| 0 <= k < order@.len() ==> (#[trigger] order@[k]) < i,
                forall|k: int|
                    at <= k < order@.len() ==> files@[(#[trigger] order@[k]) as int].0 > files@[i as int].0,
            decreases at,
        {
            at -= 1;
        }
        let ghost before = order@;
        order.insert(at, i);
        proof {
            assert forall|a: int, b: int| 0 <= a < b < order@.len() implies goes_before(
                files@,
                (#[trigger] order@[a]) as int,
                (#[trigger] order@[b]) as int,
            ) by {
                let oa = if a < at { a } else { a - 1 };
                let ob = if b < at { b } else { b - 1 };
                assert(a != at ==> order@[a] == before[oa]);
                assert(b != at ==> order@[b] == before[ob]);
                if b == at && at > 0 {
                    assert(before[at - 1] < i);
                    if oa < at - 1 {
                        assert(goes_before(files@, before[oa] as int, before[at - 1] as int));
                    }
                }
            }
            assert forall|f: int| 0 <= f < i + 1 implies #[trigger] lists(order@, f) by {
                if f == i {
                    assert(order@[at as int] == f);
                } else {
                    assert(lists(before, f));
                    let k = choose|k: int| 0 <= k < before.len() && #[trigger] before[k] == f;
                    let now = if k < at { k } else { k + 1 };
                    assert(order@[now] == f);
                }
            }
            assert forall|k: int| 0 <= k < order@.len() implies (#[trigger] order@[k]) < i + 1 by {
                let o = if k < at { k } else { k - 1 };
                assert(k != at ==> order@[k] == before[o]);
            }
        }
        i += 1;
    }
    order
}

impl Sweep {
    pub closed spec fn wf(&self) -> bool {
        &&& self@.wf()
        &&& self.bytes == self@.bytes()
        &&& self.removed <= self.tried
    }

    /// What a well-formed sweep shows is well-formed too.
    pub proof fn lemma_wf(&self)
        requires
            self.wf(),
        ensures
            self@.wf(),
    {
    }

    /// Files removed so far.
    pub closed spec fn gone(&self) -> nat {
        self.removed as nat
    }

    /// A sweep over `files` that stops once the rest is within `budget`.
    pub fn new(files: Vec<L2File>, budget: u64) -> (out: Self)
        ensures
            out.wf(),
            out@.files == files@,
            out@.budget == budget,
            out@.tried == 0,
            out@.left == sizes(files@),
            out.gone() == 0,
    {
        let order = by_age(&files);
        let ghost weight = |i: int, size: u64| size as nat;
        let ghost mut left: Map<int, u64> = Map::empty();
        let mut bytes: u128 = 0;
        let mut i: usize = 0;
        while i < files.len()
            invariant
                i <= files@.len(),
                weight == (|i: int, size: u64| size as nat),
                left == sizes(files@.take(i as int)),
                left.dom().finite(),
                bytes == total(left, weight),
                bytes <= u64::MAX * i,
            decreases files@.len() - i,
        {
            proof {
                let next = left.insert(i as int, files@[i as int].1);
                assert(next =~= sizes(files@.take(i as int + 1)));
                lemma_total_insert(left, weight, i as int, files@[i as int].1);
                left = next;
                assert(u64::MAX * (i + 1) == u64::MAX * i + u64::MAX) by (nonlinear_arith);
                assert(u64::MAX * i <= u64::MAX * 0xffff_ffff_ffff_ffff) by (nonlinear_arith)
                    requires
                        i <= 0xffff_ffff_ffff_ffff,
                ;
            }
            bytes = bytes + files[i].1 as u128;
            i += 1;
        }
        assert(files@.take(i as int) =~= files@);
        let out = Sweep { files, order, tried: 0, left: Ghost(left), bytes, budget, removed: 0 };
        proof {
            let v = out@;
            assert forall|f: int| 0 <= f < v.files.len() implies #[trigger] v.order.contains(f) by {
                assert(lists(order@, f));
                let k = choose|k: int| 0 <= k < order@.len() && #[trigger] order@[k] == f;
                assert(v.order[k] == f);
            }
            assert(v.wf());
        }
        out
    }

    /// The place of the file to remove next, or `None` once the rest fits.
    pub fn next(&self) -> (out: Option<usize>)
        requires
            self.wf(),
        ensures
            match out {
                Some(i) => self@.next() == Some(i as int) && i < self@.files.len(),
                None => self@.next() is None,
            },
    {
        if self.bytes > self.budget as u128 && self.tried < self.order.len() {
            let i: usize = self.order[self.tried];
            assert(self@.order[self.tried as int] == i);
            Some(i)
        } else {
            None
        }
    }

    /// Records whether the file that [`Sweep::next`] named is gone.
    pub fn settle(&mut self, gone: bool)
        requires
            old(self).wf(),
            old(self)@.next() is Some,
        ensures
            final(self).wf(),
            final(self)@ == old(self)@.settled(gone),
            final(self).gone() == old(self).gone() + if gone { 1nat } else { 0nat },
    {
        let ghost before = self@;
        assert(self.tried < self.order.len());
        let i: usize = self.order[self.tried];
        proof {
            assert(before.order[before.tried as int] == i);
            assert(before.left.contains_key(before.order[before.tried as int]));
            assert(sizes(before.files).contains_key(i as int));
        }
        if gone {
            let ghost weight = |i: int, size: u64| size as nat;
            proof {
                lemma_total_remove(before.left, weight, i as int);
            }
            self.bytes = self.bytes - self.files[i].1 as u128;
            self.left = Ghost(before.left.remove(i as int));
            self.removed = self.removed + 1;
        }
        self.tried = self.tried + 1;
        proof {
            let v = self@;
            assert forall|k: int| v.tried <= k < v.order.len() implies #[trigger] v.left.contains_key(
                v.order[k],
            ) by {
                assert(before.left.contains_key(before.order[k]));
                assert(goes_before(v.files, v.order[before.tried as int], v.order[k]));
            }
            assert(v.wf());
        }
    }

    /// Files removed so far.
    pub fn removed(&self) -> (out: u64)
        ensures
            out == self.gone(),
    {
        self.removed
    }
}

/// When a sweep stops, what is left fits the budget or nothing is left to try;
/// and while every removal works, what is left is exactly what was not tried.
pub proof fn law_a_sweep_ends_within_its_budget(sweep: SweepView)
    requires
        sweep.wf(),
        sweep.next() is None,
        forall|k: int| 0 <= k < sweep.tried ==> !#[trigger] sweep.left.contains_key(sweep.order[k]),
    ensures
        sweep.bytes() <= sweep.budget,
{
    if sweep.tried == sweep.order.len() {
        assert forall|i: int| !#[trigger] sweep.left.contains_key(i) by {
            if sweep.left.contains_key(i) {
                assert(sizes(sweep.files).contains_key(i));
                assert(sweep.order.contains(i));
                let k = sweep.order.index_of(i);
                assert(!sweep.left.contains_key(sweep.order[k]));
            }
        }
        assert(sweep.left =~= Map::empty());
    }
}

/// A sweep removes a file only after every file that was used longer ago was
/// tried.
pub proof fn law_a_sweep_takes_the_oldest_first(sweep: SweepView, older: int)
    requires
        sweep.wf(),
        sweep.next() is Some,
        0 <= older < sweep.files.len(),
        goes_before(sweep.files, older, sweep.next()->0),
    ensures
        exists|k: int| 0 <= k < sweep.tried && sweep.order[k] == older,
{
    assert(sweep.order.contains(older));
    let k = sweep.order.index_of(older);
    let at = sweep.tried as int;
    if k > at {
        assert(goes_before(sweep.files, sweep.order[at], sweep.order[k]));
    }
    assert(k < at);
}

/// A lookup finds a module that is in memory, waits for one that somebody is
/// building, and has the caller build any other; only the last opens a gate.
pub proof fn law_a_lookup_finds_waits_or_builds<M>(
    cache: L1View<M>,
    gates: Set<Seq<u8>>,
    hash: Seq<u8>,
)
    ensures
        verdict(cache, gates, hash) is Found <==> cache.entries.contains_key(hash),
        verdict(cache, gates, hash) is Busy <==> !cache.entries.contains_key(hash)
            && gates.contains(hash),
        verdict(cache, gates, hash) is Yours <==> !cache.entries.contains_key(hash)
            && !gates.contains(hash),
        asked(cache, gates, hash) == (if cache.entries.contains_key(hash) {
            gates
        } else {
            gates.insert(hash)
        }),
{
    if gates.contains(hash) {
        assert(gates.insert(hash) =~= gates);
    }
}

/// A lookup changes nothing but when a module was last used.
pub proof fn law_a_lookup_keeps_every_module<M>(cache: L1View<M>, hash: Seq<u8>, other: Seq<u8>)
    ensures
        ({
            let after = cache.touched(hash);
            &&& after.clock == cache.clock + 1
            &&& after.budget == cache.budget
            &&& after.entries.contains_key(other) <==> cache.entries.contains_key(other)
            &&& cache.entries.contains_key(other) ==> after.entries[other].module
                == cache.entries[other].module && after.entries[other].size
                == cache.entries[other].size
            &&& cache.entries.contains_key(other) && other != hash ==> after.entries[other].used
                == cache.entries[other].used
            &&& cache.entries.contains_key(hash) ==> after.entries[hash].used == cache.clock + 1
        }),
{
}

/// Entries that were used no longer ago than `since`.
pub open spec fn used_since<M>(entries: Map<Seq<u8>, Cached<M>>, since: nat) -> Map<
    Seq<u8>,
    Cached<M>,
> {
    entries.restrict(
        Set::new(|h: Seq<u8>| entries.contains_key(h) && entries[h].used >= since),
    )
}

proof fn lemma_evicted_for_room<M>(
    entries: Map<Seq<u8>, Cached<M>>,
    budget: nat,
    gone: Seq<u8>,
)
    requires
        entries.dom().finite(),
        entries.contains_key(gone),
        !evicted(entries, budget).contains_key(gone),
    ensures
        total_size(used_since(entries, entries[gone].used)) > budget,
    decreases entries.dom().len(),
{
    let weight = |h: Seq<u8>, c: Cached<M>| c.size;
    lemma_oldest_exists(entries);
    let h = choose|h: Seq<u8>| is_oldest(entries, h);
    assert(is_oldest(entries, h));
    if gone == h {
        assert(used_since(entries, entries[gone].used) =~= entries);
    } else {
        let rest = entries.remove(h);
        lemma_evicted_for_room(rest, budget, gone);
        let less = used_since(rest, rest[gone].used);
        let more = used_since(entries, entries[gone].used);
        assert(less.submap_of(more));
        assert(more.dom().subset_of(entries.dom()));
        vstd::set_lib::lemma_len_subset(more.dom(), entries.dom());
        crate::tally::lemma_total_subset(more, less, weight);
    }
}

/// A module is put in with its size, and goes only for want of room: it would not have
/// fitted beside those that were used since. Nothing that stays is changed.
pub proof fn law_a_module_goes_only_for_want_of_room<M>(
    cache: L1View<M>,
    hash: Seq<u8>,
    module: M,
    size: nat,
    other: Seq<u8>,
)
    requires
        cache.wf(),
    ensures
        ({
            let after = cache.inserted(hash, module, size);
            let full = cache.entries.insert(
                hash,
                Cached { module, size, used: cache.clock + 1 },
            );
            &&& after.clock == cache.clock + 1
            &&& after.budget == cache.budget
            &&& after.entries.contains_key(other) ==> full.contains_key(other)
                && after.entries[other] == full[other]
            &&& full.contains_key(other) && !after.entries.contains_key(other) ==> total_size(
                used_since(full, full[other].used),
            ) > cache.budget
            &&& total_size(full) <= cache.budget ==> after.entries == full
        }),
{
    let full = cache.entries.insert(hash, Cached { module, size, used: cache.clock + 1 });
    lemma_evicted(full, cache.budget);
    if full.contains_key(other) && !evicted(full, cache.budget).contains_key(other) {
        lemma_evicted_for_room(full, cache.budget, other);
    }
}

/// A module that is not on disk is compiled, written and kept; one that is is loaded,
/// marked as used and kept; one that does not compile is given up; and each is
/// counted as what it was, once.
pub proof fn law_a_module_is_loaded_or_compiled(
    artifact: usize,
    removed: u64,
    file: Option<u64>,
    counts: Counts,
)
    ensures
        ({
            let start = Loading { artifact, stage: LoadStage::Probing };
            let size = match file {
                Some(len) => len as usize,
                None => artifact,
            };
            let absent = start.next(LoadEvent::Probed(Probe::Absent));
            let compiled = absent.0.next(LoadEvent::Compiled(true));
            let written = compiled.0.next(LoadEvent::Written(true));
            let unwritten = compiled.0.next(LoadEvent::Written(false));
            let swept = written.0.next(LoadEvent::Swept(removed));
            let kept = swept.0.next(LoadEvent::Measured(file));
            let loaded = start.next(LoadEvent::Probed(Probe::Loaded));
            let touched = loaded.0.next(LoadEvent::Touched);
            let reused = touched.0.next(LoadEvent::Measured(file));
            &&& absent.1 == LoadAction::Compile
            &&& compiled.1 == LoadAction::Write
            &&& written.1 == LoadAction::Sweep
            &&& unwritten.1 == LoadAction::Measure && unwritten.0 == swept.0
            &&& swept.1 == LoadAction::Measure
            &&& kept.1 == (LoadAction::Keep { source: Source::Cranelift, size })
            &&& absent.0.next(LoadEvent::Compiled(false)).1 == LoadAction::GiveUp
            &&& loaded.1 == LoadAction::Touch
            &&& touched.1 == LoadAction::Measure
            &&& reused.1 == (LoadAction::Keep { source: Source::Aot, size })
        }),
        ({
            let at = |stage: LoadStage| Loading { artifact, stage };
            let wrap = 0x1_0000_0000_0000_0000nat;
            &&& at(LoadStage::Compiling).counted(LoadEvent::Compiled(true), counts) == (Counts {
                cranelift: (counts.cranelift + 1) % wrap,
                ..counts
            })
            &&& at(LoadStage::Compiling).counted(LoadEvent::Compiled(false), counts) == counts
            &&& at(LoadStage::Probing).counted(LoadEvent::Probed(Probe::Loaded), counts) == (Counts {
                aot: (counts.aot + 1) % wrap,
                ..counts
            })
            &&& at(LoadStage::Probing).counted(LoadEvent::Probed(Probe::Absent), counts) == counts
            &&& at(LoadStage::Sweeping).counted(LoadEvent::Swept(removed), counts) == (Counts {
                evicted_l2: (counts.evicted_l2 + removed as nat) % wrap,
                ..counts
            })
        }),
{
}

/// A sweep goes on only while what is left is over the budget, tries each file once
/// and in turn, and forgets one only when it is gone.
pub proof fn law_a_sweep_goes_on_only_over_budget(sweep: SweepView, gone: bool, i: int)
    requires
        sweep.wf(),
    ensures
        sweep.next() is Some <==> sweep.bytes() > sweep.budget && sweep.tried < sweep.files.len(),
        sweep.next() is Some ==> {
            let at = sweep.next()->0;
            let after = sweep.settled(gone);
            &&& 0 <= at < sweep.files.len()
            &&& after.tried == sweep.tried + 1
            &&& after.files == sweep.files && after.order == sweep.order && after.budget
                == sweep.budget
            &&& after.left.contains_key(i) <==> sweep.left.contains_key(i) && !(gone && i == at)
            &&& after.left.contains_key(i) ==> after.left[i] == sweep.left[i]
        },
{
}

/// A file goes before another that was used after it, and of two that were used at
/// one time the one that is listed first.
pub proof fn law_files_go_by_their_last_use(files: Seq<L2File>, a: int, b: int)
    ensures
        files[a].0 < files[b].0 ==> goes_before(files, a, b),
        files[a].0 > files[b].0 ==> !goes_before(files, a, b),
        files[a].0 == files[b].0 ==> (goes_before(files, a, b) <==> a < b),
        0 <= a < files.len() ==> sizes(files).contains_key(a) && sizes(files)[a] == files[a].1,
        DEFAULT_L1_BYTES == 1_073_741_824,
        DEFAULT_L2_BYTES == 4_294_967_296,
{
}

} // verus!
