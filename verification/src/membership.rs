//! Cluster membership and liveness.
//!
//! Workers send a heartbeat; the control plane records when, and a reconciler
//! removes anything that has gone quiet. A stale timestamp catches process
//! death, network partition and a wedged process identically.
use crate::clock::elapsed;
use crate::clock::elapsed_between;
use crate::clock::Clock;
use crate::ring::law_candidates_visit_every_worker_once;
use crate::ring::law_owner_is_a_member;
use crate::ring::Ring;
use crate::ring::RingView;
use crate::table::Table;
use crate::tally::lemma_total_remove;
use crate::tally::total;
use crate::text::lemma_utf8_injective;
use crate::text::names;
use crate::text::texts;
use vstd::prelude::*;
use vstd::utf8::encode_utf8;

verus! {

/// How often workers beat, in nanoseconds.
pub const HEARTBEAT_INTERVAL: u64 = 500_000_000;

/// How often the reconciler wakes, in nanoseconds.
pub const RECONCILE_INTERVAL: u64 = 500_000_000;

/// Three missed beats, in nanoseconds.
pub const LIVENESS_TIMEOUT: u64 = 1_500_000_000;

/// A node above this share of the mean cluster load, in percent, loses the
/// lead.
pub const BOUNDED_LOAD_PERCENT: u128 = 125;

/// What the control plane knows of one worker.
#[derive(Debug)]
pub struct NodeState {
    pub address: String,
    pub generation: u64,
    /// When the last beat arrived, in nanoseconds of the membership's clock.
    pub last_seen: u64,
    pub in_flight: u32,
    pub queue_depth: u32,
    pub cache_bytes: u64,
}

pub struct NodeView {
    pub address: Seq<char>,
    pub generation: u64,
    pub last_seen: u64,
    pub in_flight: u32,
    pub queue_depth: u32,
    pub cache_bytes: u64,
}

impl View for NodeState {
    type V = NodeView;

    open spec fn view(&self) -> NodeView {
        NodeView {
            address: self.address@,
            generation: self.generation,
            last_seen: self.last_seen,
            in_flight: self.in_flight,
            queue_depth: self.queue_depth,
            cache_bytes: self.cache_bytes,
        }
    }
}

impl Clone for NodeState {
    fn clone(&self) -> (out: Self)
        ensures
            out@ == self@,
    {
        NodeState {
            address: self.address.clone(),
            generation: self.generation,
            last_seen: self.last_seen,
            in_flight: self.in_flight,
            queue_depth: self.queue_depth,
            cache_bytes: self.cache_bytes,
        }
    }
}

/// The cluster as the control plane sees it.
pub struct MembershipView {
    pub timeout: u64,
    pub nodes: Map<Seq<char>, NodeView>,
    pub ring: RingView,
}

/// `s` from place `k` on, and then the part before.
pub open spec fn rotated<A>(s: Seq<A>, k: int) -> Seq<A> {
    s.skip(k) + s.take(k)
}

impl MembershipView {
    /// Every worker that is known is on the ring, and no other.
    pub open spec fn wf(self) -> bool {
        &&& self.ring.wf()
        &&& self.ring.members == self.nodes.dom()
    }

    pub open spec fn registered(
        self,
        now: u64,
        id: Seq<char>,
        address: Seq<char>,
        generation: u64,
    ) -> MembershipView {
        MembershipView {
            nodes: self.nodes.insert(
                id,
                NodeView {
                    address,
                    generation,
                    last_seen: now,
                    in_flight: 0,
                    queue_depth: 0,
                    cache_bytes: 0,
                },
            ),
            ring: self.ring.inserted(id),
            ..self
        }
    }

    /// Whether a beat comes from the very process that registered.
    pub open spec fn recognises(self, id: Seq<char>, generation: u64) -> bool {
        self.nodes.contains_key(id) && self.nodes[id].generation == generation
    }

    pub open spec fn beaten(
        self,
        now: u64,
        id: Seq<char>,
        generation: u64,
        in_flight: u32,
        queue_depth: u32,
        cache_bytes: u64,
    ) -> MembershipView {
        if self.recognises(id, generation) {
            MembershipView {
                nodes: self.nodes.insert(
                    id,
                    NodeView {
                        last_seen: now,
                        in_flight,
                        queue_depth,
                        cache_bytes,
                        ..self.nodes[id]
                    },
                ),
                ..self
            }
        } else {
            self
        }
    }

    /// The workers that have been quiet for longer than the timeout.
    pub open spec fn dead(self, now: u64) -> Set<Seq<char>> {
        Set::new(
            |id: Seq<char>|
                self.nodes.contains_key(id) && elapsed(self.nodes[id].last_seen, now) > self.timeout,
        )
    }

    /// The cluster without `gone`: its other workers keep what they had.
    pub open spec fn dropped(self, gone: Set<Seq<char>>) -> MembershipView {
        MembershipView {
            nodes: self.nodes.remove_keys(gone),
            ring: RingView {
                points: Map::new(
                    |at: u64| self.ring.points.contains_key(at) && !gone.contains(self.ring.points[at]),
                    |at: u64| self.ring.points[at],
                ),
                members: self.ring.members.difference(gone),
            },
            ..self
        }
    }

    /// Requests in flight on all workers together.
    pub open spec fn load(self) -> nat {
        total(self.nodes, |id: Seq<char>, n: NodeView| n.in_flight as nat)
    }

    /// Whether a worker carries at most `BOUNDED_LOAD_PERCENT` of the mean.
    pub open spec fn is_cool(self, id: Seq<char>) -> bool {
        100 * self.nodes[id].in_flight * self.nodes.len() <= BOUNDED_LOAD_PERCENT * self.load()
    }

    /// The first worker of the walk that may lead, and the owner when every
    /// one of them is hot.
    pub open spec fn lead(self, walk: Seq<Seq<char>>) -> int {
        if exists|i: int| is_first_cool(self, walk, i) {
            choose|i: int| is_first_cool(self, walk, i)
        } else {
            0
        }
    }

    /// Workers to try for `key`, with their addresses.
    pub open spec fn route_plan(self, key: Seq<char>) -> Seq<(Seq<char>, Seq<char>)> {
        let walk = self.ring.candidates(key);
        rotated(walk, self.lead(walk)).map_values(|id: Seq<char>| (id, self.nodes[id].address))
    }
}

pub open spec fn is_first_cool(m: MembershipView, walk: Seq<Seq<char>>, i: int) -> bool {
    &&& 0 <= i < walk.len()
    &&& m.is_cool(walk[i])
    &&& forall|j: int| 0 <= j < i ==> !m.is_cool(#[trigger] walk[j])
}

struct Node {
    id: String,
    state: NodeState,
}

/// The workers of a cluster, and the ring they form.
pub struct Membership {
    clock: Clock,
    liveness_timeout: u64,
    ring: Ring,
    nodes: Table<Node>,
}

impl View for Membership {
    type V = MembershipView;

    closed spec fn view(&self) -> MembershipView {
        MembershipView {
            timeout: self.liveness_timeout,
            nodes: nodes_map(self.nodes@),
            ring: self.ring@,
        }
    }
}

spec fn nodes_map(rows: Map<Seq<u8>, Node>) -> Map<Seq<char>, NodeView> {
    Map::new(
        |id: Seq<char>| rows.contains_key(encode_utf8(id)),
        |id: Seq<char>| rows[encode_utf8(id)].state@,
    )
}

spec fn rows_wf(rows: Map<Seq<u8>, Node>) -> bool {
    forall|k: Seq<u8>| #[trigger] rows.contains_key(k) ==> encode_utf8(rows[k].id@) == k
}

proof fn lemma_nodes_put(rows: Map<Seq<u8>, Node>, node: Node)
    requires
        rows_wf(rows),
    ensures
        rows_wf(rows.insert(encode_utf8(node.id@), node)),
        nodes_map(rows.insert(encode_utf8(node.id@), node)) == nodes_map(rows).insert(
            node.id@,
            node.state@,
        ),
{
    let k = encode_utf8(node.id@);
    let now = nodes_map(rows.insert(k, node));
    let want = nodes_map(rows).insert(node.id@, node.state@);
    assert forall|id: Seq<char>|
        #![trigger now.dom().contains(id)]
        #![trigger want.dom().contains(id)]
        now.dom().contains(id) == want.dom().contains(id) && (want.dom().contains(id) ==> now[id]
            == want[id]) by {
        if encode_utf8(id) == k {
            lemma_utf8_injective(id, node.id@);
        }
    }
    assert(now =~= want);
}

proof fn lemma_nodes_remove(rows: Map<Seq<u8>, Node>, id: Seq<char>)
    requires
        rows_wf(rows),
    ensures
        rows_wf(rows.remove(encode_utf8(id))),
        nodes_map(rows.remove(encode_utf8(id))) == nodes_map(rows).remove(id),
{
    let k = encode_utf8(id);
    let now = nodes_map(rows.remove(k));
    let want = nodes_map(rows).remove(id);
    assert forall|n: Seq<char>|
        #![trigger now.dom().contains(n)]
        #![trigger want.dom().contains(n)]
        now.dom().contains(n) == want.dom().contains(n) && (want.dom().contains(n) ==> now[n]
            == want[n]) by {
        if encode_utf8(n) == k {
            lemma_utf8_injective(n, id);
        }
    }
    assert(now =~= want);
}

impl Membership {
    pub closed spec fn wf(&self) -> bool {
        &&& self.ring.wf()
        &&& self.nodes.wf()
        &&& rows_wf(self.nodes@)
        &&& self@.wf()
    }

    /// What a well-formed cluster shows is well-formed too.
    pub proof fn lemma_wf(&self)
        requires
            self.wf(),
        ensures
            self@.wf(),
    {
    }

    /// The ids, in the order of the rows.
    spec fn ids(&self) -> Seq<Seq<char>> {
        self.nodes.keys().map_values(|k: Seq<u8>| self.nodes@[k].id@)
    }

    proof fn lemma_ids(&self)
        requires
            self.nodes.wf(),
            rows_wf(self.nodes@),
        ensures
            self.ids().no_duplicates(),
            self.ids().len() == self.nodes.keys().len(),
            self.ids().to_set() == self@.nodes.dom(),
            self@.nodes.dom().finite(),
            self@.nodes.len() == self.nodes@.len(),
            self@.nodes.len() == self.ids().len(),
            forall|i: int|
                0 <= i < self.ids().len() ==> self.nodes@.contains_key(self.nodes.keys()[i])
                    && encode_utf8(#[trigger] self.ids()[i]) == self.nodes.keys()[i],
    {
        let keys = self.nodes.keys();
        let ids = self.ids();
        self.nodes.lemma_keys();
        assert forall|i: int, j: int| 0 <= i < ids.len() && 0 <= j < ids.len() && i != j implies ids[i]
            != ids[j] by {
            assert(encode_utf8(ids[i]) == keys[i]);
            assert(encode_utf8(ids[j]) == keys[j]);
        }
        assert forall|n: Seq<char>| ids.contains(n) == self@.nodes.dom().contains(n) by {
            if ids.contains(n) {
                let i = ids.index_of(n);
                assert(encode_utf8(ids[i]) == keys[i]);
            }
            if self@.nodes.dom().contains(n) {
                let k = encode_utf8(n);
                assert(keys.contains(k));
                let i = keys.index_of(k);
                assert(encode_utf8(ids[i]) == k);
                lemma_utf8_injective(ids[i], n);
            }
        }
        assert(ids.to_set() =~= self@.nodes.dom());
        ids.unique_seq_to_set();
        vstd::seq_lib::seq_to_set_is_finite(ids);
    }

    pub fn new(liveness_timeout: u64) -> (out: Self)
        ensures
            out.wf(),
            out@ == (MembershipView {
                timeout: liveness_timeout,
                nodes: Map::empty(),
                ring: RingView::empty(),
            }),
    {
        let out = Membership {
            clock: Clock::start(),
            liveness_timeout,
            ring: Ring::new(),
            nodes: Table::new(),
        };
        assert(out@.nodes =~= Map::empty());
        assert(out@.ring.members =~= out@.nodes.dom());
        out
    }

    pub fn with_defaults() -> (out: Self)
        ensures
            out.wf(),
            out@ == (MembershipView {
                timeout: LIVENESS_TIMEOUT,
                nodes: Map::empty(),
                ring: RingView::empty(),
            }),
    {
        Self::new(LIVENESS_TIMEOUT)
    }

    /// Adds a worker to the ring, or refreshes one that registered before.
    pub fn register(&mut self, node_id: &str, address: &str, generation: u64)
        requires
            old(self).wf(),
        ensures
            final(self).wf(),
            exists|now: u64|
                final(self)@ == #[trigger] old(self)@.registered(now, node_id@, address@, generation),
    {
        let now: u64 = self.clock.now();
        self.register_at(now, node_id, address, generation);
    }

    /// [`Membership::register`] at a given moment.
    pub fn register_at(&mut self, now: u64, node_id: &str, address: &str, generation: u64)
        requires
            old(self).wf(),
        ensures
            final(self).wf(),
            final(self)@ == old(self)@.registered(now, node_id@, address@, generation),
    {
        let node = Node {
            id: node_id.to_owned(),
            state: NodeState {
                address: address.to_owned(),
                generation,
                last_seen: now,
                in_flight: 0,
                queue_depth: 0,
                cache_bytes: 0,
            },
        };
        proof {
            lemma_nodes_put(self.nodes@, node);
        }
        self.nodes.put(vstd::slice::slice_to_vec(node_id.as_bytes()), node);
        self.ring.insert(node_id);
        proof {
            self.ring.lemma_wf();
            assert(self@.ring.members =~= self@.nodes.dom());
        }
    }

    /// Records a beat. Returns `false` when this node and generation are not
    /// recognised, which tells the worker to register again.
    ///
    /// A different generation under a known id means that the worker died and
    /// restarted between beats, so it is treated as unknown.
    pub fn heartbeat(
        &mut self,
        node_id: &str,
        generation: u64,
        in_flight: u32,
        queue_depth: u32,
        cache_bytes: u64,
    ) -> (known: bool)
        requires
            old(self).wf(),
        ensures
            final(self).wf(),
            known == old(self)@.recognises(node_id@, generation),
            exists|now: u64|
                final(self)@ == #[trigger] old(self)@.beaten(
                    now,
                    node_id@,
                    generation,
                    in_flight,
                    queue_depth,
                    cache_bytes,
                ),
    {
        let now: u64 = self.clock.now();
        self.heartbeat_at(now, node_id, generation, in_flight, queue_depth, cache_bytes)
    }

    /// [`Membership::heartbeat`] at a given moment.
    pub fn heartbeat_at(
        &mut self,
        now: u64,
        node_id: &str,
        generation: u64,
        in_flight: u32,
        queue_depth: u32,
        cache_bytes: u64,
    ) -> (known: bool)
        requires
            old(self).wf(),
        ensures
            final(self).wf(),
            known == old(self)@.recognises(node_id@, generation),
            final(self)@ == old(self)@.beaten(
                now,
                node_id@,
                generation,
                in_flight,
                queue_depth,
                cache_bytes,
            ),
    {
        let node = match self.nodes.get(node_id.as_bytes()) {
            Some(found) => {
                if found.state.generation != generation {
                    return false;
                }
                Node {
                    id: node_id.to_owned(),
                    state: NodeState {
                        address: found.state.address.clone(),
                        generation,
                        last_seen: now,
                        in_flight,
                        queue_depth,
                        cache_bytes,
                    },
                }
            },
            None => {
                return false;
            },
        };
        proof {
            lemma_nodes_put(self.nodes@, node);
        }
        self.nodes.put(vstd::slice::slice_to_vec(node_id.as_bytes()), node);
        assert(self@.ring.members =~= self@.nodes.dom());
        true
    }

    /// Drops nodes that have gone quiet, returning the ids removed.
    pub fn reconcile(&mut self) -> (removed: Vec<String>)
        requires
            old(self).wf(),
        ensures
            final(self).wf(),
            texts(removed@).no_duplicates(),
            exists|now: u64| {
                &&& texts(removed@).to_set() == #[trigger] old(self)@.dead(now)
                &&& final(self)@ == old(self)@.dropped(old(self)@.dead(now))
            },
    {
        let now: u64 = self.clock.now();
        self.reconcile_at(now)
    }

    /// The ids of the workers that are quiet at `now`.
    fn quiet(&self, now: u64) -> (out: Vec<String>)
        requires
            self.wf(),
        ensures
            texts(out@).no_duplicates(),
            texts(out@).to_set() == self@.dead(now),
    {
        let mut out: Vec<String> = Vec::new();
        let ghost keys = self.nodes.keys();
        let ghost ids = self.ids();
        proof {
            self.lemma_ids();
            self.nodes.lemma_keys();
        }
        let n: usize = self.nodes.len();
        let mut i: usize = 0;
        while i < n
            invariant
                self.wf(),
                i <= n,
                n == keys.len(),
                keys == self.nodes.keys(),
                ids == self.ids(),
                ids.len() == n,
                ids.no_duplicates(),
                ids.to_set() == self@.nodes.dom(),
                texts(out@).no_duplicates(),
                forall|d: int| 0 <= d < out@.len() ==> self@.dead(now).contains(#[trigger] texts(out@)[d]),
                forall|d: int|
                    0 <= d < out@.len() ==> exists|j: int| 0 <= j < i && ids[j] == #[trigger] texts(out@)[d],
                forall|j: int|
                    0 <= j < i && self@.dead(now).contains(#[trigger] ids[j]) ==> texts(out@).contains(
                        ids[j],
                    ),
            decreases n - i,
        {
            proof {
                self.lemma_ids();
                assert(encode_utf8(ids[i as int]) == keys[i as int]);
            }
            let node = self.nodes.value_at(i);
            let ghost before = texts(out@);
            if elapsed_between(node.state.last_seen, now) > self.liveness_timeout {
                out.push(node.id.clone());
                proof {
                    let id = ids[i as int];
                    assert(texts(out@) =~= before.push(id));
                    assert(!before.contains(id)) by {
                        if before.contains(id) {
                            let d = before.index_of(id);
                            let j = choose|j: int| 0 <= j < i && ids[j] == before[d];
                            assert(ids[j] == ids[i as int]);
                        }
                    }
                    assert forall|d: int| 0 <= d < out@.len() implies exists|j: int|
                        0 <= j < i + 1 && ids[j] == #[trigger] texts(out@)[d] by {
                        if d < before.len() {
                            assert(before[d] == texts(out@)[d]);
                            let j = choose|j: int| 0 <= j < i && ids[j] == before[d];
                            assert(0 <= j < i + 1 && ids[j] == texts(out@)[d]);
                        } else {
                            assert(ids[i as int] == texts(out@)[d]);
                        }
                    }
                    assert forall|j: int|
                        0 <= j < i + 1 && self@.dead(now).contains(#[trigger] ids[j]) implies texts(
                        out@,
                    ).contains(ids[j]) by {
                        if j < i {
                            let d = before.index_of(ids[j]);
                            assert(before.contains(ids[j]));
                            assert(texts(out@)[d] == ids[j]);
                        } else {
                            assert(texts(out@)[before.len() as int] == ids[j]);
                        }
                    }
                }
            } else {
                assert(!self@.dead(now).contains(ids[i as int]));
            }
            i += 1;
        }
        proof {
            assert forall|id: Seq<char>| texts(out@).to_set().contains(id) == self@.dead(now).contains(id) by {
                if self@.dead(now).contains(id) {
                    assert(ids.to_set().contains(id));
                    let j = ids.index_of(id);
                    assert(ids[j] == id);
                }
                if texts(out@).contains(id) {
                    let d = texts(out@).index_of(id);
                    assert(self@.dead(now).contains(texts(out@)[d]));
                }
            }
            assert(texts(out@).to_set() =~= self@.dead(now));
        }
        out
    }

    /// [`Membership::reconcile`] at a given moment.
    pub fn reconcile_at(&mut self, now: u64) -> (removed: Vec<String>)
        requires
            old(self).wf(),
        ensures
            final(self).wf(),
            texts(removed@).no_duplicates(),
            texts(removed@).to_set() == old(self)@.dead(now),
            final(self)@ == old(self)@.dropped(old(self)@.dead(now)),
    {
        let dead = self.quiet(now);
        let ghost start = self@;
        let ghost list = texts(dead@);
        let mut i: usize = 0;
        proof {
            lemma_dropped_none(start);
            assert(list.take(0).to_set() =~= Set::empty());
        }
        while i < dead.len()
            invariant
                i <= dead@.len(),
                list == texts(dead@),
                start == old(self)@,
                self.wf(),
                self@ == start.dropped(list.take(i as int).to_set()),
            decreases dead@.len() - i,
        {
            let ghost gone = list.take(i as int).to_set();
            let id = dead[i].as_str();
            proof {
                lemma_nodes_remove(self.nodes@, id@);
            }
            self.nodes.remove(id.as_bytes());
            self.ring.remove(id);
            proof {
                self.ring.lemma_wf();
                assert(list.take(i as int + 1) =~= list.take(i as int).push(id@));
                list.take(i as int).lemma_push_to_set_commute(id@);
                let want = start.dropped(gone.insert(id@));
                assert(self@.nodes =~= want.nodes);
                assert(self@.ring.points =~= want.ring.points);
                assert(self@.ring.members =~= want.ring.members);
                assert(self@.ring.members =~= self@.nodes.dom());
            }
            i += 1;
        }
        assert(list.take(i as int) =~= list);
        dead
    }

    /// The worker that owns `key`, if the ring is not empty.
    pub fn route(&self, key: &str) -> (out: Option<String>)
        requires
            self.wf(),
        ensures
            match out {
                Some(node) => self@.ring.route(key@) == Some(node@),
                None => self@.ring.route(key@) is None,
            },
    {
        match self.ring.route(key) {
            Some(node) => Some(node.to_owned()),
            None => None,
        }
    }

    /// Requests in flight on all workers together.
    fn total_load(&self) -> (sum: u128)
        requires
            self.wf(),
        ensures
            sum == self@.load(),
            sum <= u32::MAX * self@.nodes.len(),
            self@.nodes.dom().finite(),
            self@.nodes.len() <= usize::MAX,
    {
        let ghost keys = self.nodes.keys();
        let ghost ids = self.ids();
        let ghost weight = |id: Seq<char>, n: NodeView| n.in_flight as nat;
        proof {
            self.lemma_ids();
            self.nodes.lemma_keys();
        }
        let n: usize = self.nodes.len();
        let mut sum: u128 = 0;
        let mut i: usize = 0;
        let ghost mut rest = self@.nodes;
        proof {
            assert(ids.skip(0) =~= ids);
        }
        while i < n
            invariant
                self.wf(),
                i <= n,
                n == keys.len(),
                keys == self.nodes.keys(),
                ids == self.ids(),
                ids.len() == n,
                ids.no_duplicates(),
                weight == (|id: Seq<char>, n: NodeView| n.in_flight as nat),
                rest.submap_of(self@.nodes),
                rest.dom() == ids.skip(i as int).to_set(),
                rest.dom().finite(),
                sum + total(rest, weight) == self@.load(),
                sum <= u32::MAX * i,
            decreases n - i,
        {
            proof {
                self.lemma_ids();
                assert(encode_utf8(ids[i as int]) == keys[i as int]);
                let id = ids[i as int];
                assert(ids.skip(i as int)[0] == id);
                assert(rest.contains_key(id));
                lemma_total_remove(rest, weight, id);
                let fewer = rest.remove(id);
                assert forall|q: Seq<char>| fewer.dom().contains(q) == ids.skip(i as int + 1).contains(q) by {
                    if fewer.dom().contains(q) {
                        assert(ids.skip(i as int).contains(q));
                        let j = ids.skip(i as int).index_of(q);
                        assert(ids.skip(i as int + 1)[j - 1] == q);
                    }
                    if ids.skip(i as int + 1).contains(q) {
                        let j = ids.skip(i as int + 1).index_of(q);
                        assert(ids.skip(i as int)[j + 1] == q);
                        assert(ids[i + 1 + j] == q);
                    }
                }
                assert(fewer.dom() =~= ids.skip(i as int + 1).to_set());
                assert(fewer.submap_of(self@.nodes));
                assert(rest.dom().contains(id));
                assert(self@.nodes.dom().contains(id));
                assert(rest[id] == self@.nodes[id]);
                rest = fewer;
                assert(u32::MAX * (i + 1) == u32::MAX * i + u32::MAX) by (nonlinear_arith);
                assert(u32::MAX * i <= u32::MAX * 0xffff_ffff_ffff_ffff) by (nonlinear_arith)
                    requires
                        i <= 0xffff_ffff_ffff_ffff,
                ;
            }
            sum = sum + self.nodes.value_at(i).state.in_flight as u128;
            i += 1;
        }
        assert(ids.skip(i as int) =~= Seq::empty());
        assert(rest.dom() =~= Set::empty());
        sum
    }

    /// Where in `walk` the lead is.
    fn first_cool(&self, walk: &Vec<&str>, count: u128, sum: u128) -> (lead: usize)
        requires
            self.wf(),
            forall|i: int|
                0 <= i < walk@.len() ==> self@.nodes.contains_key(#[trigger] names(walk@)[i]),
            count == self@.nodes.len(),
            count <= usize::MAX,
            sum == self@.load(),
            sum <= u32::MAX * self@.nodes.len(),
        ensures
            lead == self@.lead(names(walk@)),
            walk@.len() > 0 ==> lead < walk@.len(),
    {
        let ghost m = self@;
        let ghost ids = names(walk@);
        let mut at: usize = 0;
        while at < walk.len()
            invariant
                self.wf(),
                m == self@,
                ids == names(walk@),
                at <= walk@.len(),
                forall|i: int| 0 <= i < ids.len() ==> m.nodes.contains_key(#[trigger] ids[i]),
                count == m.nodes.len(),
                count <= usize::MAX,
                sum == m.load(),
                sum <= u32::MAX * m.nodes.len(),
                forall|j: int| 0 <= j < at ==> !m.is_cool(#[trigger] ids[j]),
            decreases walk@.len() - at,
        {
            assert(ids[at as int] == walk@[at as int]@);
            if self.cool(walk[at], count, sum) {
                proof {
                    assert(is_first_cool(m, ids, at as int));
                    let c = choose|i: int| is_first_cool(m, ids, i);
                    assert(is_first_cool(m, ids, c));
                    assert(c == at);
                }
                return at;
            }
            at += 1;
        }
        assert(forall|i: int| !is_first_cool(m, ids, i));
        0
    }

    /// Ordered dispatch plan of `(node_id, address)` for `key`.
    ///
    /// The ring's owner leads unless it carries more than
    /// `BOUNDED_LOAD_PERCENT` of the mean cluster load; then the walk starts
    /// at the first worker that does not. Everything after the lead stays in
    /// ring order, so failover is unaffected by the load check.
    pub fn route_plan(&self, key: &str) -> (out: Vec<(String, String)>)
        requires
            self.wf(),
        ensures
            out@.map_values(|p: (String, String)| (p.0@, p.1@)) == self@.route_plan(key@),
    {
        let walk = self.ring.candidates(key);
        let ghost ids = names(walk@);
        let ghost m = self@;
        let sum: u128 = self.total_load();
        let count: u128 = self.nodes.len() as u128;
        proof {
            self.lemma_ids();
            lemma_walk_known(m, key@);
        }
        let lead: usize = self.first_cool(&walk, count, sum);
        let ghost turned = rotated(ids, m.lead(ids));
        let mut out: Vec<(String, String)> = Vec::new();
        let mut k: usize = 0;
        let n: usize = walk.len();
        let ghost shown = |p: (String, String)| (p.0@, p.1@);
        while k < n
            invariant
                self.wf(),
                m == self@,
                ids == names(walk@),
                n == walk@.len(),
                k <= n,
                n > 0 ==> lead < n,
                lead == m.lead(ids),
                turned == rotated(ids, m.lead(ids)),
                forall|i: int| 0 <= i < ids.len() ==> m.nodes.contains_key(#[trigger] ids[i]),
                out@.len() == k,
                forall|i: int|
                    0 <= i < k ==> (#[trigger] out@[i]).0@ == turned[i] && out@[i].1@
                        == m.nodes[turned[i]].address,
            decreases n - k,
        {
            let at: usize = if k < n - lead {
                lead + k
            } else {
                k - (n - lead)
            };
            let id = walk[at];
            assert(ids[at as int] == id@);
            assert(turned[k as int] == id@);
            match self.nodes.get(id.as_bytes()) {
                Some(found) => {
                    out.push((id.to_owned(), found.state.address.clone()));
                },
                None => {
                    assert(m.nodes.contains_key(ids[at as int]));
                },
            }
            k += 1;
        }
        assert(out@.map_values(shown) =~= m.route_plan(key@));
        out
    }

    fn cool(&self, id: &str, count: u128, sum: u128) -> (out: bool)
        requires
            self.wf(),
            self@.nodes.contains_key(id@),
            count == self@.nodes.len(),
            count <= usize::MAX,
            sum == self@.load(),
            sum <= u32::MAX * self@.nodes.len(),
        ensures
            out == self@.is_cool(id@),
    {
        let load: u128 = match self.nodes.get(id.as_bytes()) {
            Some(found) => found.state.in_flight as u128,
            None => 0,
        };
        assert(100 * load * count <= 100 * 0xffff_ffff * 0xffff_ffff_ffff_ffff) by (nonlinear_arith)
            requires
                load <= 0xffff_ffff,
                count <= 0xffff_ffff_ffff_ffff,
        ;
        assert(u32::MAX * count <= 0xffff_ffff * 0xffff_ffff_ffff_ffff) by (nonlinear_arith)
            requires
                count <= 0xffff_ffff_ffff_ffff,
        ;
        100 * load * count <= BOUNDED_LOAD_PERCENT * sum
    }

    /// Owner first, then the failover walk.
    pub fn candidates(&self, key: &str) -> (out: Vec<String>)
        requires
            self.wf(),
        ensures
            texts(out@) == self@.ring.candidates(key@),
    {
        let walk = self.ring.candidates(key);
        let mut out: Vec<String> = Vec::new();
        let mut i: usize = 0;
        while i < walk.len()
            invariant
                i <= walk@.len(),
                texts(out@) == names(walk@).take(i as int),
            decreases walk@.len() - i,
        {
            let ghost before = texts(out@);
            out.push(walk[i].to_owned());
            assert(texts(out@) =~= before.push(walk@[i as int]@));
            assert(names(walk@).take(i as int + 1) =~= names(walk@).take(i as int).push(
                walk@[i as int]@,
            ));
            i += 1;
        }
        assert(names(walk@).take(i as int) =~= names(walk@));
        out
    }

    pub fn contains(&self, node_id: &str) -> (out: bool)
        requires
            self.wf(),
        ensures
            out == self@.nodes.contains_key(node_id@),
    {
        self.nodes.contains_key(node_id.as_bytes())
    }

    pub fn len(&self) -> (out: usize)
        requires
            self.wf(),
        ensures
            out == self@.nodes.len(),
            self@.nodes.dom().finite(),
    {
        proof {
            self.lemma_ids();
        }
        self.nodes.len()
    }

    pub fn is_empty(&self) -> (out: bool)
        requires
            self.wf(),
        ensures
            out == (self@.nodes == Map::<Seq<char>, NodeView>::empty()),
    {
        proof {
            self.lemma_ids();
            if self@.nodes.len() == 0 {
                self@.nodes.dom().lemma_len0_is_empty();
                assert(self@.nodes =~= Map::empty());
            }
        }
        self.nodes.len() == 0
    }

    pub fn address_of(&self, node_id: &str) -> (out: Option<String>)
        requires
            self.wf(),
        ensures
            match out {
                Some(address) => self@.nodes.contains_key(node_id@) && address@
                    == self@.nodes[node_id@].address,
                None => !self@.nodes.contains_key(node_id@),
            },
    {
        match self.nodes.get(node_id.as_bytes()) {
            Some(found) => Some(found.state.address.clone()),
            None => None,
        }
    }

    /// Every worker and what is known of it.
    pub fn snapshot(&self) -> (out: Vec<(String, NodeState)>)
        requires
            self.wf(),
        ensures
            out@.map_values(|p: (String, NodeState)| p.0@).no_duplicates(),
            out@.map_values(|p: (String, NodeState)| p.0@).to_set() == self@.nodes.dom(),
            forall|i: int|
                0 <= i < out@.len() ==> (#[trigger] out@[i]).1@ == self@.nodes[out@[i].0@],
    {
        let mut out: Vec<(String, NodeState)> = Vec::new();
        let ghost keys = self.nodes.keys();
        let ghost ids = self.ids();
        proof {
            self.lemma_ids();
            self.nodes.lemma_keys();
        }
        let n: usize = self.nodes.len();
        let mut i: usize = 0;
        while i < n
            invariant
                self.wf(),
                i <= n,
                n == keys.len(),
                keys == self.nodes.keys(),
                ids == self.ids(),
                ids.len() == n,
                out@.len() == i,
                forall|j: int|
                    0 <= j < i ==> (#[trigger] out@[j]).0@ == ids[j] && out@[j].1@
                        == self@.nodes[ids[j]],
            decreases n - i,
        {
            proof {
                self.lemma_ids();
                assert(encode_utf8(ids[i as int]) == keys[i as int]);
            }
            let node = self.nodes.value_at(i);
            out.push((node.id.clone(), node.state.clone()));
            i += 1;
        }
        assert(out@.map_values(|p: (String, NodeState)| p.0@) =~= ids);
        out
    }
}

proof fn lemma_dropped_none(m: MembershipView)
    ensures
        m.dropped(Set::empty()) == m,
{
    let now = m.dropped(Set::empty());
    assert(now.nodes =~= m.nodes);
    assert(now.ring.points =~= m.ring.points);
    assert(now.ring.members =~= m.ring.members);
}

proof fn lemma_walk_known(m: MembershipView, key: Seq<char>)
    requires
        m.wf(),
    ensures
        forall|i: int|
            0 <= i < m.ring.candidates(key).len() ==> m.nodes.contains_key(
                #[trigger] m.ring.candidates(key)[i],
            ),
{
    crate::ring::law_candidates_are_members(m.ring, key);
}

/// A worker that registers is recognised under its new generation and no
/// other, and is on the ring.
pub proof fn law_registration_is_recognised(
    m: MembershipView,
    now: u64,
    id: Seq<char>,
    address: Seq<char>,
    generation: u64,
    claimed: u64,
)
    ensures
        m.registered(now, id, address, generation).recognises(id, claimed) == (claimed == generation),
        m.registered(now, id, address, generation).ring.members.contains(id),
{
}

/// Registering again adds no second worker.
pub proof fn law_registering_again_adds_no_worker(
    m: MembershipView,
    now: u64,
    id: Seq<char>,
    address: Seq<char>,
    generation: u64,
)
    requires
        m.wf(),
        m.nodes.contains_key(id),
    ensures
        m.registered(now, id, address, generation).nodes.dom() == m.nodes.dom(),
        m.registered(now, id, address, generation).ring.members == m.ring.members,
{
    let again = m.registered(now, id, address, generation);
    assert(again.nodes.dom() =~= m.nodes.dom());
    assert(again.ring.members =~= m.ring.members);
}

/// A worker that beats at least once per timeout survives reconciliation.
pub proof fn law_a_beating_worker_survives(
    m: MembershipView,
    beat: u64,
    now: u64,
    id: Seq<char>,
    generation: u64,
    in_flight: u32,
    queue_depth: u32,
    cache_bytes: u64,
)
    requires
        m.wf(),
        m.recognises(id, generation),
        elapsed(beat, now) <= m.timeout,
    ensures
        ({
            let after = m.beaten(beat, id, generation, in_flight, queue_depth, cache_bytes);
            after.dropped(after.dead(now)).recognises(id, generation)
        }),
{
}

/// A beat that is not recognised refreshes nobody.
pub proof fn law_an_unrecognised_beat_changes_nothing(
    m: MembershipView,
    now: u64,
    id: Seq<char>,
    generation: u64,
    in_flight: u32,
    queue_depth: u32,
    cache_bytes: u64,
)
    requires
        !m.recognises(id, generation),
    ensures
        m.beaten(now, id, generation, in_flight, queue_depth, cache_bytes) == m,
{
}

/// After reconciliation no key is routed to a worker that was quiet, and keys
/// of the others stay where they were.
pub proof fn law_a_silent_worker_gets_no_keys(
    m: MembershipView,
    now: u64,
    id: Seq<char>,
    key: Seq<char>,
)
    requires
        m.wf(),
    ensures
        ({
            let after = m.dropped(m.dead(now));
            &&& after.wf()
            &&& m.dead(now).contains(id) ==> after.ring.route(key) != Some(id)
            &&& m.dead(now).contains(id) ==> !after.ring.candidates(key).contains(id)
            &&& (m.ring.route(key) matches Some(o) && !m.dead(now).contains(o)
                ==> after.ring.route(key) == m.ring.route(key))
        }),
{
    let gone = m.dead(now);
    let after = m.dropped(gone);
    assert(after.ring.points.dom().subset_of(m.ring.points.dom()));
    vstd::set_lib::lemma_len_subset(after.ring.points.dom(), m.ring.points.dom());
    assert(after.ring.members.subset_of(m.ring.members));
    vstd::set_lib::lemma_len_subset(after.ring.members, m.ring.members);
    assert(after.ring.members =~= after.nodes.dom());
    assert forall|at: u64| #[trigger] after.ring.points.contains_key(at) implies after.ring.members.contains(
        after.ring.points[at],
    ) && crate::ring::is_point_of(after.ring.points[at], at) by {
        assert(m.ring.points.contains_key(at));
    }
    law_owner_is_a_member(after.ring, key);
    crate::ring::law_candidates_are_members(after.ring, key);
    if after.ring.candidates(key).contains(id) {
        let i = after.ring.candidates(key).index_of(id);
        assert(after.ring.members.contains(after.ring.candidates(key)[i]));
    }
    if let Some(o) = m.ring.route(key) {
        if !gone.contains(o) {
            crate::ring::law_fewer_points_keep_their_keys(m.ring, after.ring, key);
        }
    }
}

/// The owner leads the plan unless it is hot, and also when everyone is; what
/// follows the lead is in ring order.
pub proof fn law_the_owner_leads_unless_it_is_hot(m: MembershipView, key: Seq<char>)
    requires
        m.wf(),
        m.ring.candidates(key).len() > 0,
    ensures
        ({
            let walk = m.ring.candidates(key);
            let plan = m.route_plan(key);
            &&& plan.len() == walk.len()
            &&& m.is_cool(walk[0]) ==> plan[0].0 == walk[0]
            &&& (forall|i: int| 0 <= i < walk.len() ==> !m.is_cool(#[trigger] walk[i]))
                ==> plan[0].0 == walk[0]
            &&& (exists|i: int| 0 <= i < walk.len() && m.is_cool(#[trigger] walk[i]))
                ==> m.is_cool(plan[0].0)
            &&& forall|i: int|
                0 <= i < plan.len() ==> (#[trigger] plan[i]).0 == walk[(m.lead(walk) + i)
                    % (walk.len() as int)] && plan[i].1 == m.nodes[plan[i].0].address
        }),
{
    let walk = m.ring.candidates(key);
    let plan = m.route_plan(key);
    let n = walk.len() as int;
    if exists|i: int| 0 <= i < walk.len() && m.is_cool(#[trigger] walk[i]) {
        let i = choose|i: int| 0 <= i < walk.len() && m.is_cool(#[trigger] walk[i]);
        lemma_first_cool(m, walk, i);
    }
    let lead = m.lead(walk);
    if exists|i: int| is_first_cool(m, walk, i) {
        assert(is_first_cool(m, walk, lead));
    }
    if m.is_cool(walk[0]) {
        assert(is_first_cool(m, walk, 0));
        assert(lead == 0);
    }
    assert(0 <= lead < n);
    assert forall|i: int| 0 <= i < plan.len() implies (#[trigger] plan[i]).0 == walk[(lead + i) % n]
        && plan[i].1 == m.nodes[plan[i].0].address by {
        if lead + i < n {
            vstd::arithmetic::div_mod::lemma_small_mod((lead + i) as nat, n as nat);
        } else {
            vstd::arithmetic::div_mod::lemma_mod_sub_multiples_vanish(lead + i, n);
            vstd::arithmetic::div_mod::lemma_small_mod((lead + i - n) as nat, n as nat);
        }
    }
    vstd::arithmetic::div_mod::lemma_small_mod(lead as nat, n as nat);
    assert(plan[0].0 == walk[(lead + 0) % n]);
}

proof fn lemma_first_cool(m: MembershipView, walk: Seq<Seq<char>>, i: int)
    requires
        0 <= i < walk.len(),
        m.is_cool(walk[i]),
    ensures
        exists|j: int| is_first_cool(m, walk, j),
    decreases i,
{
    if exists|j: int| 0 <= j < i && m.is_cool(#[trigger] walk[j]) {
        let j = choose|j: int| 0 <= j < i && m.is_cool(#[trigger] walk[j]);
        lemma_first_cool(m, walk, j);
    } else {
        assert(is_first_cool(m, walk, i));
    }
}

/// On a whole ring the plan names every worker exactly once.
pub proof fn law_the_plan_names_every_worker_once(m: MembershipView, key: Seq<char>)
    requires
        m.wf(),
        m.ring.is_whole(),
    ensures
        m.route_plan(key).map_values(|p: (Seq<char>, Seq<char>)| p.0).no_duplicates(),
        m.route_plan(key).map_values(|p: (Seq<char>, Seq<char>)| p.0).to_set() == m.nodes.dom(),
{
    let walk = m.ring.candidates(key);
    law_candidates_visit_every_worker_once(m.ring, key);
    let list = m.route_plan(key).map_values(|p: (Seq<char>, Seq<char>)| p.0);
    let lead = m.lead(walk);
    if exists|i: int| is_first_cool(m, walk, i) {
        assert(is_first_cool(m, walk, lead));
    }
    if walk.len() == 0 {
        assert(list =~= walk);
    } else {
        let n = walk.len() as int;
        assert(0 <= lead < n);
        assert forall|i: int| 0 <= i < n implies #[trigger] list[i] == (if lead + i < n {
            walk[lead + i]
        } else {
            walk[lead + i - n]
        }) by {}
        assert forall|id: Seq<char>| list.contains(id) == walk.contains(id) by {
            if list.contains(id) {
                let i = list.index_of(id);
                assert(list[i] == id);
                assert(walk.contains(if lead + i < n { walk[lead + i] } else { walk[lead + i - n] }));
            }
            if walk.contains(id) {
                let j = walk.index_of(id);
                let i = if j >= lead { j - lead } else { j + n - lead };
                assert(list[i] == id);
            }
        }
        assert(list.to_set() =~= walk.to_set());
    }
}

/// Counting the requests in flight one worker after the other, in any order,
/// comes to the load of all of them together.
proof fn lemma_load_by_hand(
    all: Map<Seq<char>, NodeView>,
    rest: Map<Seq<char>, NodeView>,
    ids: Seq<Seq<char>>,
)
    requires
        forall|k: Seq<char>| #[trigger]
            rest.contains_key(k) ==> all.contains_key(k) && rest[k] == all[k],
        ids.no_duplicates(),
        ids.to_set() == rest.dom(),
    ensures
        rest.dom().finite(),
        rest.len() == ids.len(),
        ids.fold_left(0int, |sum: int, id: Seq<char>| sum + all[id].in_flight) == total(
            rest,
            |id: Seq<char>, n: NodeView| n.in_flight as nat,
        ),
    decreases ids.len(),
{
    let weight = |id: Seq<char>, n: NodeView| n.in_flight as nat;
    vstd::seq_lib::seq_to_set_is_finite(ids);
    ids.unique_seq_to_set();
    if ids.len() > 0 {
        let last = ids.last();
        let fewer = rest.remove(last);
        let init = ids.drop_last();
        assert(ids.contains(last));
        assert(rest.dom().contains(last));
        assert forall|id: Seq<char>| init.to_set().contains(id) == fewer.dom().contains(id) by {
            if init.contains(id) {
                let i = init.index_of(id);
                assert(ids[i] == id);
                assert(ids.to_set().contains(id));
            }
            if fewer.dom().contains(id) {
                assert(ids.to_set().contains(id));
                let i = ids.index_of(id);
                assert(init[i] == id);
            }
        }
        assert(init.to_set() =~= fewer.dom());
        assert forall|k: Seq<char>| #[trigger] fewer.contains_key(k) implies all.contains_key(k)
            && fewer[k] == all[k] by {
            assert(rest.contains_key(k));
        }
        assert(rest.contains_key(last));
        lemma_load_by_hand(all, fewer, init);
        lemma_total_remove(rest, weight, last);
        assert(rest[last] == all[last]);
    } else {
        assert(rest.dom() =~= Set::empty());
    }
}

/// A worker leads a plan only with at most five quarters of the mean number of
/// requests in flight: the lead is the first of the walk that has no more, and
/// the owner where every worker of the walk has more. Behind the lead comes the
/// rest of the walk, and after its end the part that was passed over.
#[verifier::rlimit(40)]
pub proof fn law_the_lead_carries_at_most_five_quarters_of_the_mean(
    m: MembershipView,
    key: Seq<char>,
    ids: Seq<Seq<char>>,
)
    requires
        m.wf(),
        m.ring.candidates(key).len() > 0,
        ids.no_duplicates(),
        ids.to_set() == m.nodes.dom(),
    ensures
        ({
            let walk = m.ring.candidates(key);
            let plan = m.route_plan(key);
            let sum = ids.fold_left(0int, |sum: int, id: Seq<char>| sum + m.nodes[id].in_flight);
            let fits = |id: Seq<char>| m.nodes[id].in_flight * ids.len() * 100 <= 125 * sum;
            &&& plan.len() == walk.len()
            &&& exists|k: int|
                {
                    &&& 0 <= k < walk.len()
                    &&& #[trigger] walk[k] == plan[0].0
                    &&& forall|j: int| 0 <= j < k ==> !fits(#[trigger] walk[j])
                    &&& !fits(walk[k]) ==> k == 0 && forall|j: int|
                        0 <= j < walk.len() ==> !fits(#[trigger] walk[j])
                    &&& forall|i: int|
                        0 <= i < plan.len() ==> (#[trigger] plan[i]).0 == (if k + i < walk.len() {
                            walk[k + i]
                        } else {
                            walk[k + i - walk.len()]
                        }) && plan[i].1 == m.nodes[plan[i].0].address
                }
        }),
{
    let walk = m.ring.candidates(key);
    let plan = m.route_plan(key);
    let sum = ids.fold_left(0int, |sum: int, id: Seq<char>| sum + m.nodes[id].in_flight);
    let fits = |id: Seq<char>| m.nodes[id].in_flight * ids.len() * 100 <= 125 * sum;
    lemma_load_by_hand(m.nodes, m.nodes, ids);
    assert forall|id: Seq<char>| #[trigger] fits(id) == m.is_cool(id) by {
        assert(m.nodes[id].in_flight * ids.len() * 100 == 100 * m.nodes[id].in_flight * ids.len())
            by (nonlinear_arith);
    }
    let k = m.lead(walk);
    if exists|i: int| is_first_cool(m, walk, i) {
        assert(is_first_cool(m, walk, k));
    } else {
        assert forall|j: int| 0 <= j < walk.len() implies !fits(#[trigger] walk[j]) by {
            if m.is_cool(walk[j]) {
                lemma_first_cool(m, walk, j);
            }
        }
    }
    assert(walk[k] == plan[0].0);
}

/// A reconciliation drops a worker exactly when its last beat lies further back
/// than the timeout, keeps all that is known of the others, and takes from the
/// ring the points of the dropped and no more.
pub proof fn law_only_the_quiet_are_dropped(
    m: MembershipView,
    now: u64,
    id: Seq<char>,
    at: u64,
)
    requires
        m.wf(),
    ensures
        ({
            let after = m.dropped(m.dead(now));
            &&& after.timeout == m.timeout
            &&& after.nodes.contains_key(id) <==> m.nodes.contains_key(id) && now
                <= m.nodes[id].last_seen + m.timeout
            &&& after.nodes.contains_key(id) ==> after.nodes[id] == m.nodes[id]
            &&& after.ring.members.contains(id) <==> after.nodes.contains_key(id)
            &&& after.ring.points.contains_key(at) <==> m.ring.points.contains_key(at)
                && after.nodes.contains_key(m.ring.points[at])
            &&& after.ring.points.contains_key(at) ==> after.ring.points[at] == m.ring.points[at]
        }),
{
    let after = m.dropped(m.dead(now));
    if m.ring.points.contains_key(at) {
        assert(m.ring.members.contains(m.ring.points[at]));
        assert(m.nodes.dom().contains(m.ring.points[at]));
    }
    assert(m.ring.members.contains(id) == m.nodes.dom().contains(id));
}

/// A beat of the process that registered is taken down as it was reported, and
/// touches neither the worker's address, nor any other worker, nor the ring.
pub proof fn law_a_beat_is_taken_down_as_reported(
    m: MembershipView,
    now: u64,
    id: Seq<char>,
    generation: u64,
    in_flight: u32,
    queue_depth: u32,
    cache_bytes: u64,
    other: Seq<char>,
)
    requires
        m.nodes.contains_key(id),
        m.nodes[id].generation == generation,
    ensures
        ({
            let after = m.beaten(now, id, generation, in_flight, queue_depth, cache_bytes);
            &&& m.recognises(id, generation)
            &&& after.nodes.dom() == m.nodes.dom()
            &&& after.nodes[id].last_seen == now
            &&& after.nodes[id].in_flight == in_flight
            &&& after.nodes[id].queue_depth == queue_depth
            &&& after.nodes[id].cache_bytes == cache_bytes
            &&& after.nodes[id].address == m.nodes[id].address
            &&& after.nodes[id].generation == generation
            &&& other != id ==> after.nodes[other] == m.nodes[other]
            &&& after.ring == m.ring
            &&& after.timeout == m.timeout
        }),
{
    assert(m.beaten(now, id, generation, in_flight, queue_depth, cache_bytes).nodes.dom()
        =~= m.nodes.dom());
}

/// A registration is taken down as it was made, with no load yet, and touches
/// no other worker.
pub proof fn law_a_registration_is_taken_down_as_made(
    m: MembershipView,
    now: u64,
    id: Seq<char>,
    address: Seq<char>,
    generation: u64,
    other: Seq<char>,
)
    ensures
        ({
            let after = m.registered(now, id, address, generation);
            &&& after.nodes.dom() == m.nodes.dom().insert(id)
            &&& after.nodes[id].address == address
            &&& after.nodes[id].generation == generation
            &&& after.nodes[id].last_seen == now
            &&& after.nodes[id].in_flight == 0
            &&& after.nodes[id].queue_depth == 0
            &&& after.nodes[id].cache_bytes == 0
            &&& other != id ==> after.nodes[other] == m.nodes[other]
            &&& other != id ==> after.recognises(other, generation) == m.recognises(
                other,
                generation,
            )
            &&& after.ring.members == m.ring.members.insert(id)
            &&& after.timeout == m.timeout
        }),
{
    assert(m.registered(now, id, address, generation).nodes.dom() =~= m.nodes.dom().insert(id));
}

/// Workers beat twice a second, the reconciler wakes as often, and three missed beats
/// are too many.
pub proof fn law_the_cadence_is_this()
    ensures
        HEARTBEAT_INTERVAL == 500_000_000,
        RECONCILE_INTERVAL == 500_000_000,
        LIVENESS_TIMEOUT == 3 * HEARTBEAT_INTERVAL,
{
}

/// What is known of a worker is seen whole.
pub proof fn law_a_worker_is_seen_whole(state: NodeState)
    ensures
        state@.address == state.address@ && state@.generation == state.generation,
        state@.last_seen == state.last_seen && state@.in_flight == state.in_flight,
        state@.queue_depth == state.queue_depth && state@.cache_bytes == state.cache_bytes,
{
}

} // verus!
