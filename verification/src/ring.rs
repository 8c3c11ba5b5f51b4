//! Consistent hash ring.
//!
//! Maps a function id onto a ring of virtual nodes, so repeated requests for
//! one function reach the same worker, and what would be a cluster-wide cold
//! start is a single one.
use crate::table::before;
use crate::table::Table;
use crate::tally::lemma_least;
use crate::text::lemma_utf8_injective;
use crate::text::names;
use crate::text::same;
use std::collections::hash_map::DefaultHasher;
use std::hash::Hasher;
use vstd::bytes::spec_u32_to_le_bytes;
use vstd::bytes::spec_u64_to_le_bytes;
use vstd::bytes::u32_to_le_bytes;
use vstd::bytes::u64_to_le_bytes;
use vstd::prelude::*;
use vstd::std_specs::hash::DefaultHasherAdditionalSpecFns;
use vstd::string::StringExecFns;
use vstd::utf8::encode_utf8;

verus! {

/// Virtual nodes per physical worker.
///
/// Not a tuning knob: with one point per node a small cluster produces arcs
/// that differ by three or four times; 160 brings the spread inside a few
/// percent.
pub const VIRTUAL_NODES: u32 = 160;

/// A worker's identity on the ring.
pub type NodeId = String;

/// The place of a key on the ring.
pub open spec fn key_point(key: Seq<char>) -> u64 {
    bytes_point(encode_utf8(key))
}

/// The hash of a length-prefixed byte string.
pub open spec fn bytes_point(bytes: Seq<u8>) -> u64 {
    DefaultHasher::spec_finish(seq![spec_u64_to_le_bytes(bytes.len() as u64), bytes])
}

/// The place of a worker's `replica`th virtual node.
pub open spec fn node_point(node: Seq<char>, replica: u32) -> u64 {
    DefaultHasher::spec_finish(
        seq![encode_utf8(node), seq![0xffu8], spec_u32_to_le_bytes(replica)],
    )
}

/// Whether `at` is one of the first `count` virtual nodes of `node`.
pub open spec fn is_point_below(node: Seq<char>, at: u64, count: int) -> bool {
    exists|r: u32| 0 <= r < count && #[trigger] node_point(node, r) == at
}

pub open spec fn is_point_of(node: Seq<char>, at: u64) -> bool {
    is_point_below(node, at, VIRTUAL_NODES as int)
}

/// How far `at` is from `from`, walking the ring upwards and around.
pub open spec fn ahead(from: u64, at: u64) -> int {
    if at >= from {
        at - from
    } else {
        at + 0x1_0000_0000_0000_0000 - from
    }
}

/// Whether `at` is the first point that a walk from `from` meets.
pub open spec fn is_next(points: Map<u64, Seq<char>>, from: u64, at: u64) -> bool {
    &&& points.contains_key(at)
    &&& forall|q: u64| #[trigger] points.contains_key(q) ==> ahead(from, at) <= ahead(from, q)
}

/// The worker at the first point that a walk from `from` meets.
pub open spec fn owner(points: Map<u64, Seq<char>>, from: u64) -> Option<Seq<char>> {
    if exists|at: u64| is_next(points, from, at) {
        Some(points[choose|at: u64| is_next(points, from, at)])
    } else {
        None
    }
}

/// The points that are not `node`'s.
pub open spec fn without(points: Map<u64, Seq<char>>, node: Seq<char>) -> Map<u64, Seq<char>> {
    Map::new(|at: u64| points.contains_key(at) && points[at] != node, |at: u64| points[at])
}

/// The points of `points`, with those of the first `count` virtual nodes of
/// `node` given to `node`.
pub open spec fn with_below(
    points: Map<u64, Seq<char>>,
    node: Seq<char>,
    count: int,
) -> Map<u64, Seq<char>> {
    Map::new(
        |at: u64| points.contains_key(at) || is_point_below(node, at, count),
        |at: u64|
            if is_point_below(node, at, count) {
                node
            } else {
                points[at]
            },
    )
}

/// Workers in the order in which a walk from `from` first meets them.
pub open spec fn walk(points: Map<u64, Seq<char>>, from: u64) -> Seq<Seq<char>>
    decreases points.dom().len(),
    when points.dom().finite()
    via walk_shrinks
{
    match owner(points, from) {
        None => Seq::empty(),
        Some(node) => seq![node] + walk(without(points, node), from),
    }
}

#[via_fn]
proof fn walk_shrinks(points: Map<u64, Seq<char>>, from: u64) {
    if let Some(node) = owner(points, from) {
        let at = choose|at: u64| is_next(points, from, at);
        assert(is_next(points, from, at));
        lemma_without_smaller(points, node, at);
    }
}

proof fn lemma_without_smaller(points: Map<u64, Seq<char>>, node: Seq<char>, at: u64)
    requires
        points.dom().finite(),
        points.contains_key(at),
        points[at] == node,
    ensures
        without(points, node).dom().finite(),
        without(points, node).dom().len() < points.dom().len(),
{
    let rest = without(points, node).dom();
    assert(rest.subset_of(points.dom().remove(at)));
    vstd::set_lib::lemma_len_subset(rest, points.dom().remove(at));
}

proof fn lemma_walk_step(points: Map<u64, Seq<char>>, from: u64, at: u64)
    requires
        points.dom().finite(),
        is_next(points, from, at),
    ensures
        without(points, points[at]).dom().finite(),
        without(points, points[at]).dom().len() < points.dom().len(),
        walk(points, from) == seq![points[at]] + walk(without(points, points[at]), from),
{
    lemma_owner(points, from, at);
    lemma_without_smaller(points, points[at], at);
}

/// A ring as its users see it: who owns each point, and who takes part.
pub struct RingView {
    pub points: Map<u64, Seq<char>>,
    pub members: Set<Seq<char>>,
}

impl RingView {
    pub open spec fn empty() -> RingView {
        RingView { points: Map::empty(), members: Set::empty() }
    }

    /// The ring after `node` joins: its virtual nodes are its own.
    pub open spec fn inserted(self, node: Seq<char>) -> RingView {
        RingView {
            points: with_below(self.points, node, VIRTUAL_NODES as int),
            members: self.members.insert(node),
        }
    }

    /// The ring after `node` leaves: its points are gone and no others.
    pub open spec fn removed(self, node: Seq<char>) -> RingView {
        RingView { points: without(self.points, node), members: self.members.remove(node) }
    }

    pub open spec fn route(self, key: Seq<char>) -> Option<Seq<char>> {
        owner(self.points, key_point(key))
    }

    pub open spec fn candidates(self, key: Seq<char>) -> Seq<Seq<char>> {
        walk(self.points, key_point(key))
    }

    /// Every point belongs to a member, at one of that member's places.
    pub open spec fn wf(self) -> bool {
        &&& self.points.dom().finite()
        &&& self.members.finite()
        &&& forall|at: u64| #[trigger]
            self.points.contains_key(at) ==> self.members.contains(self.points[at]) && is_point_of(
                self.points[at],
                at,
            )
    }

    /// Every virtual node of every member is on the ring, under its own name.
    ///
    /// What a ring is as long as no two virtual nodes share a hash.
    pub open spec fn is_whole(self) -> bool {
        forall|node: Seq<char>, r: u32|
            #![trigger node_point(node, r)]
            self.members.contains(node) && r < VIRTUAL_NODES ==> self.points.contains_key(
                node_point(node, r),
            ) && self.points[node_point(node, r)] == node
    }
}

/// Whether no two virtual nodes of `nodes` share a place.
pub open spec fn apart(nodes: Set<Seq<char>>) -> bool {
    forall|a: Seq<char>, i: u32, b: Seq<char>, j: u32|
        #![trigger node_point(a, i), node_point(b, j)]
        nodes.contains(a) && nodes.contains(b) && i < VIRTUAL_NODES && j < VIRTUAL_NODES
            && node_point(a, i) == node_point(b, j) ==> a == b && i == j
}

spec fn points_map(points: Seq<(u64, String)>) -> Map<u64, Seq<char>> {
    Map::new(
        |at: u64| places(points).contains(at),
        |at: u64| points[places(points).index_of(at)].1@,
    )
}

spec fn places(points: Seq<(u64, String)>) -> Seq<u64> {
    points.map_values(|p: (u64, String)| p.0)
}

spec fn rising(points: Seq<(u64, String)>) -> bool {
    forall|i: int, j: int| 0 <= i < j < points.len() ==> (#[trigger] points[i]).0 < (#[trigger] points[j]).0
}

proof fn lemma_points(points: Seq<(u64, String)>)
    requires
        rising(points),
    ensures
        forall|i: int|
            0 <= i < points.len() ==> points_map(points).contains_key((#[trigger] points[i]).0)
                && points_map(points)[points[i].0] == points[i].1@,
        forall|at: u64| #[trigger]
            points_map(points).contains_key(at) ==> exists|i: int|
                0 <= i < points.len() && (#[trigger] points[i]).0 == at,
        points_map(points).dom().finite(),
        points_map(points).dom().len() == points.len(),
{
    let ps = places(points);
    assert forall|i: int| 0 <= i < points.len() implies points_map(points).contains_key(
        (#[trigger] points[i]).0,
    ) && points_map(points)[points[i].0] == points[i].1@ by {
        assert(ps[i] == points[i].0);
        assert(ps.contains(ps[i]));
        let j = ps.index_of(ps[i]);
        assert(points[j].0 == points[i].0);
        assert(i == j);
    }
    assert forall|at: u64| #[trigger] points_map(points).contains_key(at) implies exists|i: int|
        0 <= i < points.len() && (#[trigger] points[i]).0 == at by {
        let i = ps.index_of(at);
        assert(points[i].0 == at);
    }
    assert(ps.no_duplicates());
    ps.unique_seq_to_set();
    vstd::seq_lib::seq_to_set_is_finite(ps);
    assert(points_map(points).dom() =~= ps.to_set());
}

/// A consistent hash ring.
pub struct Ring {
    /// Virtual nodes in ascending order, with their owners.
    points: Vec<(u64, NodeId)>,
    members: Table<NodeId>,
}

impl View for Ring {
    type V = RingView;

    closed spec fn view(&self) -> RingView {
        RingView {
            points: points_map(self.points@),
            members: Set::new(|n: Seq<char>| self.members@.contains_key(encode_utf8(n))),
        }
    }
}

impl Default for Ring {
    fn default() -> (out: Self)
        ensures
            out.wf(),
            out@ == RingView::empty(),
    {
        Ring::new()
    }
}

/// The place of `bytes` on the ring.
fn hash64(bytes: &[u8]) -> (at: u64)
    ensures
        at == bytes_point(bytes@),
{
    let mut hasher = DefaultHasher::new();
    let len = u64_to_le_bytes(bytes.len() as u64);
    hasher.write(&len);
    hasher.write(bytes);
    assert(hasher@ =~= seq![spec_u64_to_le_bytes(bytes@.len() as u64), bytes@]);
    hasher.finish()
}

/// The place of one virtual node of `node`.
fn virtual_hash(node: &str, replica: u32) -> (at: u64)
    ensures
        at == node_point(node@, replica),
{
    let mut hasher = DefaultHasher::new();
    hasher.write(node.as_bytes());
    let end: Vec<u8> = vec![0xffu8];
    assert(end@ =~= seq![0xffu8]);
    hasher.write(&end);
    let number = u32_to_le_bytes(replica);
    hasher.write(&number);
    assert(hasher@ =~= seq![encode_utf8(node@), seq![0xffu8], spec_u32_to_le_bytes(replica)]);
    hasher.finish()
}

proof fn lemma_put(points: Seq<(u64, String)>, at: int, node: String, place: u64)
    requires
        rising(points),
        0 <= at <= points.len(),
        forall|i: int| 0 <= i < at ==> (#[trigger] points[i]).0 < place,
        forall|i: int| at <= i < points.len() ==> (#[trigger] points[i]).0 > place,
    ensures
        rising(points.insert(at, (place, node))),
        points_map(points.insert(at, (place, node))) == points_map(points).insert(place, node@),
{
    let now = points.insert(at, (place, node));
    lemma_points(points);
    assert forall|i: int, j: int| 0 <= i < j < now.len() implies (#[trigger] now[i]).0 < (
    #[trigger] now[j]).0 by {
        let a = if i < at { i } else { i - 1 };
        let b = if j < at { j } else { j - 1 };
        assert(i != at ==> now[i] == points[a]);
        assert(j != at ==> now[j] == points[b]);
    }
    lemma_points(now);
    let want = points_map(points).insert(place, node@);
    assert forall|q: u64|
        #![trigger points_map(now).dom().contains(q)]
        #![trigger want.dom().contains(q)]
        points_map(now).dom().contains(q) == want.dom().contains(q) && (want.dom().contains(q)
            ==> points_map(now)[q] == want[q]) by {
        if points_map(points).contains_key(q) {
            let i = choose|i: int| 0 <= i < points.len() && (#[trigger] points[i]).0 == q;
            let j = if i < at { i } else { i + 1 };
            assert(now[j] == points[i]);
        }
        assert(now[at].0 == place);
        if points_map(now).contains_key(q) {
            let j = choose|j: int| 0 <= j < now.len() && (#[trigger] now[j]).0 == q;
            if j != at {
                let i = if j < at { j } else { j - 1 };
                assert(now[j] == points[i]);
            }
        }
    }
    assert(points_map(now).dom() =~= want.dom());
    assert(points_map(now) =~= want);
}

proof fn lemma_drop(points: Seq<(u64, String)>, at: int)
    requires
        rising(points),
        0 <= at < points.len(),
    ensures
        rising(points.remove(at)),
        points_map(points.remove(at)) == points_map(points).remove(points[at].0),
{
    let now = points.remove(at);
    lemma_points(points);
    assert forall|i: int, j: int| 0 <= i < j < now.len() implies (#[trigger] now[i]).0 < (
    #[trigger] now[j]).0 by {
        let a = if i < at { i } else { i + 1 };
        let b = if j < at { j } else { j + 1 };
        assert(now[i] == points[a]);
        assert(now[j] == points[b]);
    }
    lemma_points(now);
    let want = points_map(points).remove(points[at].0);
    assert forall|q: u64|
        #![trigger points_map(now).dom().contains(q)]
        #![trigger want.dom().contains(q)]
        points_map(now).dom().contains(q) == want.dom().contains(q) && (want.dom().contains(q)
            ==> points_map(now)[q] == want[q]) by {
        if want.contains_key(q) {
            let i = choose|i: int| 0 <= i < points.len() && (#[trigger] points[i]).0 == q;
            let j = if i < at { i } else { i - 1 };
            assert(now[j] == points[i]);
        }
        if points_map(now).contains_key(q) {
            let j = choose|j: int| 0 <= j < now.len() && (#[trigger] now[j]).0 == q;
            let i = if j < at { j } else { j + 1 };
            assert(now[j] == points[i]);
        }
    }
    assert(points_map(now).dom() =~= want.dom());
    assert(points_map(now) =~= want);
}

proof fn lemma_replace(points: Seq<(u64, String)>, at: int, node: String)
    requires
        rising(points),
        0 <= at < points.len(),
    ensures
        rising(points.update(at, (points[at].0, node))),
        points_map(points.update(at, (points[at].0, node))) == points_map(points).insert(
            points[at].0,
            node@,
        ),
{
    let place = points[at].0;
    let rest = points.remove(at);
    lemma_drop(points, at);
    assert forall|i: int| 0 <= i < at implies (#[trigger] rest[i]).0 < place by {
        assert(rest[i] == points[i]);
    }
    assert forall|i: int| at <= i < rest.len() implies (#[trigger] rest[i]).0 > place by {
        assert(rest[i] == points[i + 1]);
    }
    lemma_put(rest, at, node, place);
    assert(points.update(at, (place, node)) =~= rest.insert(at, (place, node)));
    assert(points_map(points).remove(place).insert(place, node@) =~= points_map(points).insert(
        place,
        node@,
    ));
}

/// The first place in `points` that is not below `place`.
fn lower_bound(points: &Vec<(u64, String)>, place: u64) -> (at: usize)
    requires
        rising(points@),
    ensures
        at <= points@.len(),
        forall|i: int| 0 <= i < at ==> (#[trigger] points@[i]).0 < place,
        forall|i: int| at <= i < points@.len() ==> (#[trigger] points@[i]).0 >= place,
{
    let mut lo: usize = 0;
    let mut hi: usize = points.len();
    while lo < hi
        invariant
            rising(points@),
            lo <= hi <= points@.len(),
            forall|i: int| 0 <= i < lo ==> (#[trigger] points@[i]).0 < place,
            forall|i: int| hi <= i < points@.len() ==> (#[trigger] points@[i]).0 >= place,
        decreases hi - lo,
    {
        let mid: usize = lo + (hi - lo) / 2;
        if points[mid].0 < place {
            lo = mid + 1;
        } else {
            hi = mid;
        }
    }
    lo
}

/// The points of `points` less those of the first `count` virtual nodes of
/// `node` that `node` owns.
spec fn without_below(
    points: Map<u64, Seq<char>>,
    node: Seq<char>,
    count: int,
) -> Map<u64, Seq<char>> {
    Map::new(
        |at: u64| points.contains_key(at) && !(points[at] == node && is_point_below(node, at, count)),
        |at: u64| points[at],
    )
}

impl Ring {
    pub closed spec fn wf(&self) -> bool {
        &&& rising(self.points@)
        &&& self.members.wf()
        &&& forall|k: Seq<u8>| #[trigger]
            self.members@.contains_key(k) ==> encode_utf8(self.members@[k]@) == k
        &&& self@.wf()
    }

    /// What a well-formed ring shows is well-formed too.
    pub proof fn lemma_wf(&self)
        requires
            self.wf(),
        ensures
            self@.wf(),
    {
    }

    /// The names of the members, in the order of their bytes.
    spec fn member_seq(&self) -> Seq<Seq<char>> {
        self.members.keys().map_values(|k: Seq<u8>| self.members@[k]@)
    }

    proof fn lemma_members(&self)
        requires
            self.members.wf(),
            forall|k: Seq<u8>| #[trigger]
                self.members@.contains_key(k) ==> encode_utf8(self.members@[k]@) == k,
        ensures
            self.member_seq().no_duplicates(),
            self.member_seq().to_set() == self@.members,
            self@.members.finite(),
            self@.members.len() == self.members@.len(),
    {
        let keys = self.members.keys();
        let seq = self.member_seq();
        self.members.lemma_keys();
        assert forall|i: int, j: int| 0 <= i < seq.len() && 0 <= j < seq.len() && i != j implies seq[i]
            != seq[j] by {
            assert(encode_utf8(seq[i]) == keys[i]);
            assert(encode_utf8(seq[j]) == keys[j]);
        }
        assert forall|n: Seq<char>| seq.contains(n) == self@.members.contains(n) by {
            if seq.contains(n) {
                let i = seq.index_of(n);
                assert(encode_utf8(seq[i]) == keys[i]);
            }
            if self@.members.contains(n) {
                let k = encode_utf8(n);
                assert(keys.contains(k));
                let i = keys.index_of(k);
                assert(encode_utf8(seq[i]) == k);
                lemma_utf8_injective(seq[i], n);
            }
        }
        assert(seq.to_set() =~= self@.members);
        seq.unique_seq_to_set();
        vstd::seq_lib::seq_to_set_is_finite(seq);
    }

    /// What the points are, read off their places.
    proof fn lemma_view(&self)
        requires
            self.wf(),
        ensures
            self@.wf(),
            forall|i: int|
                0 <= i < self.points@.len() ==> self@.points.contains_key(
                    (#[trigger] self.points@[i]).0,
                ) && self@.points[self.points@[i].0] == self.points@[i].1@,
            forall|at: u64| #[trigger]
                self@.points.contains_key(at) ==> exists|i: int|
                    0 <= i < self.points@.len() && (#[trigger] self.points@[i]).0 == at,
            self@.points.dom().len() == self.points@.len(),
    {
        lemma_points(self.points@);
    }

    pub fn new() -> (out: Self)
        ensures
            out.wf(),
            out@ == RingView::empty(),
    {
        let out = Ring { points: Vec::new(), members: Table::new() };
        proof {
            lemma_points(out.points@);
            assert(out@.points =~= Map::empty());
            assert(out@.members =~= Set::empty());
        }
        out
    }

    /// Adds a worker, giving it its virtual nodes.
    pub fn insert(&mut self, node: &str)
        requires
            old(self).wf(),
        ensures
            final(self).wf(),
            final(self)@ == old(self)@.inserted(node@),
    {
        let ghost start = self@.points;
        let mut replica: u32 = 0;
        assert(with_below(start, node@, 0) =~= start);
        while replica < VIRTUAL_NODES
            invariant
                replica <= VIRTUAL_NODES,
                rising(self.points@),
                self.members == old(self).members,
                points_map(self.points@) == with_below(start, node@, replica as int),
            decreases VIRTUAL_NODES - replica,
        {
            let place: u64 = virtual_hash(node, replica);
            let at: usize = lower_bound(&self.points, place);
            let name = node.to_owned();
            let ghost points = self.points@;
            proof {
                assert forall|q: u64|
                    is_point_below(node@, q, replica + 1) == (is_point_below(
                        node@,
                        q,
                        replica as int,
                    ) || q == place) by {
                    if q == place {
                        assert(node_point(node@, replica) == q);
                    }
                }
                assert(with_below(start, node@, replica as int).insert(place, node@) =~= with_below(
                    start,
                    node@,
                    replica + 1,
                ));
            }
            if at < self.points.len() && self.points[at].0 == place {
                proof {
                    lemma_replace(points, at as int, name);
                }
                self.points[at] = (place, name);
            } else {
                proof {
                    lemma_put(points, at as int, name, place);
                }
                self.points.insert(at, (place, name));
            }
            replica += 1;
        }
        let ghost before_members = self.members@;
        self.members.put(vstd::slice::slice_to_vec(node.as_bytes()), node.to_owned());
        proof {
            assert forall|k: Seq<u8>| #[trigger]
                self.members@.contains_key(k) implies encode_utf8(self.members@[k]@) == k by {
                if k != encode_utf8(node@) {
                    assert(before_members.contains_key(k));
                }
            }
            assert forall|n: Seq<char>|
                self@.members.contains(n) == old(self)@.members.insert(node@).contains(n) by {
                if encode_utf8(n) == encode_utf8(node@) {
                    lemma_utf8_injective(n, node@);
                }
            }
            assert(self@.members =~= old(self)@.members.insert(node@));
            lemma_points(self.points@);
            self.lemma_members();
            assert forall|at: u64| #[trigger] self@.points.contains_key(at) implies self@.members.contains(
                self@.points[at],
            ) && is_point_of(self@.points[at], at) by {
                if !is_point_of(node@, at) {
                    assert(old(self)@.points.contains_key(at));
                }
            }
        }
    }

    /// Removes a worker, remapping only its share of the keyspace.
    pub fn remove(&mut self, node: &str)
        requires
            old(self).wf(),
        ensures
            final(self).wf(),
            final(self)@ == old(self)@.removed(node@),
    {
        let ghost start = self@.points;
        let mut replica: u32 = 0;
        assert(without_below(start, node@, 0) =~= start);
        while replica < VIRTUAL_NODES
            invariant
                replica <= VIRTUAL_NODES,
                rising(self.points@),
                self.members == old(self).members,
                points_map(self.points@) == without_below(start, node@, replica as int),
            decreases VIRTUAL_NODES - replica,
        {
            let place: u64 = virtual_hash(node, replica);
            let at: usize = lower_bound(&self.points, place);
            let ghost points = self.points@;
            let ghost now = points_map(points);
            proof {
                lemma_points(points);
                assert forall|q: u64|
                    is_point_below(node@, q, replica + 1) == (is_point_below(
                        node@,
                        q,
                        replica as int,
                    ) || q == place) by {
                    if q == place {
                        assert(node_point(node@, replica) == q);
                    }
                }
            }
            // A point that two workers hash to may belong to the other one.
            if at < self.points.len() && self.points[at].0 == place && same(
                self.points[at].1.as_str(),
                node,
            ) {
                proof {
                    lemma_drop(points, at as int);
                    assert(now.remove(place) =~= without_below(start, node@, replica + 1));
                }
                self.points.remove(at);
            } else {
                proof {
                    if now.contains_key(place) && now[place] == node@ {
                        let i = choose|i: int| 0 <= i < points.len() && (#[trigger] points[i]).0 == place;
                        assert(i == at);
                    }
                    assert(now =~= without_below(start, node@, replica + 1));
                }
            }
            replica += 1;
        }
        let ghost before_members = self.members@;
        self.members.remove(node.as_bytes());
        proof {
            assert(without_below(start, node@, VIRTUAL_NODES as int) =~= without(start, node@));
            assert forall|k: Seq<u8>| #[trigger]
                self.members@.contains_key(k) implies encode_utf8(self.members@[k]@) == k by {
                assert(before_members.contains_key(k));
            }
            assert forall|n: Seq<char>|
                self@.members.contains(n) == old(self)@.members.remove(node@).contains(n) by {
                if encode_utf8(n) == encode_utf8(node@) {
                    lemma_utf8_injective(n, node@);
                }
            }
            assert(self@.members =~= old(self)@.members.remove(node@));
            lemma_points(self.points@);
            self.lemma_members();
            assert forall|at: u64| #[trigger] self@.points.contains_key(at) implies self@.members.contains(
                self@.points[at],
            ) && is_point_of(self@.points[at], at) by {
                assert(old(self)@.points.contains_key(at));
            }
        }
    }

    pub fn contains(&self, node: &str) -> (out: bool)
        requires
            self.wf(),
        ensures
            out == self@.members.contains(node@),
    {
        self.members.contains_key(node.as_bytes())
    }

    /// Physical worker count.
    pub fn len(&self) -> (out: usize)
        requires
            self.wf(),
        ensures
            out == self@.members.len(),
            self@.members.finite(),
    {
        proof {
            self.lemma_members();
        }
        self.members.len()
    }

    pub fn is_empty(&self) -> (out: bool)
        requires
            self.wf(),
        ensures
            out == (self@.members == Set::<Seq<char>>::empty()),
    {
        proof {
            self.lemma_members();
            if self@.members.len() == 0 {
                self@.members.lemma_len0_is_empty();
            }
        }
        self.members.len() == 0
    }

    /// Total points on the ring.
    pub fn virtual_nodes(&self) -> (out: usize)
        requires
            self.wf(),
        ensures
            out == self@.points.dom().len(),
            self@.points.dom().finite(),
    {
        proof {
            self.lemma_view();
        }
        self.points.len()
    }

    /// The members, in the order of their names' bytes.
    pub fn members(&self) -> (out: Vec<&str>)
        requires
            self.wf(),
        ensures
            names(out@).to_set() == self@.members,
            forall|i: int, j: int|
                0 <= i < j < out@.len() ==> before(
                    encode_utf8((#[trigger] out@[i])@),
                    encode_utf8((#[trigger] out@[j])@),
                ),
    {
        let mut out: Vec<&str> = Vec::new();
        let ghost keys = self.members.keys();
        proof {
            self.lemma_members();
            self.members.lemma_keys();
        }
        let n: usize = self.members.len();
        let mut i: usize = 0;
        while i < n
            invariant
                self.wf(),
                n == keys.len(),
                keys == self.members.keys(),
                i <= n,
                out@.len() == i,
                forall|j: int| 0 <= j < i ==> (#[trigger] out@[j])@ == self.member_seq()[j],
            decreases n - i,
        {
            out.push(self.members.value_at(i).as_str());
            i += 1;
        }
        proof {
            assert(names(out@) =~= self.member_seq());
            assert forall|a: int, b: int| 0 <= a < b < out@.len() implies before(
                encode_utf8((#[trigger] out@[a])@),
                encode_utf8((#[trigger] out@[b])@),
            ) by {
                assert(self.members@.contains_key(keys[a]) && self.members@.contains_key(keys[b]));
                assert(out@[a]@ == self.member_seq()[a] && out@[b]@ == self.member_seq()[b]);
            }
        }
        out
    }

    /// The worker that owns `key`, or `None` on an empty ring.
    pub fn route(&self, key: &str) -> (out: Option<&str>)
        requires
            self.wf(),
        ensures
            match out {
                Some(node) => self@.route(key@) == Some(node@),
                None => self@.route(key@) is None,
            },
    {
        let from: u64 = hash64(key.as_bytes());
        let at: usize = lower_bound(&self.points, from);
        let ghost points = self.points@;
        proof {
            self.lemma_view();
        }
        if self.points.len() == 0 {
            assert(forall|q: u64| !self@.points.contains_key(q));
            return None;
        }
        let first: usize = if at < self.points.len() {
            at
        } else {
            0
        };
        proof {
            assert forall|q: u64| #[trigger] self@.points.contains_key(q) implies ahead(
                from,
                points[first as int].0,
            ) <= ahead(from, q) by {
                let i = choose|i: int| 0 <= i < points.len() && (#[trigger] points[i]).0 == q;
                assert(points[first as int].0 <= points[i].0 || i < at);
            }
            lemma_owner(self@.points, from, points[first as int].0);
        }
        Some(self.points[first].1.as_str())
    }

    /// Workers in ring order from `key`'s position, each once.
    ///
    /// The first is the owner; the rest are the failover walk.
    #[verifier::rlimit(60)]
    #[verifier::spinoff_prover]
    pub fn candidates(&self, key: &str) -> (out: Vec<&str>)
        requires
            self.wf(),
        ensures
            names(out@) == self@.candidates(key@),
    {
        let from: u64 = hash64(key.as_bytes());
        let start: usize = lower_bound(&self.points, from);
        let n: usize = self.points.len();
        let everyone: usize = self.members.len();
        let ghost points = self.points@;
        let ghost all = self@.points;
        proof {
            self.lemma_view();
            self.lemma_members();
            assert(unmet(all, Seq::empty()) =~= all);
        }
        let mut out: Vec<&str> = Vec::new();
        let mut k: usize = 0;
        assert(names(out@) =~= Seq::empty());
        while k < n && out.len() < everyone
            invariant
                self.wf(),
                points == self.points@,
                all == self@.points,
                n == points.len(),
                start <= n,
                k <= n,
                everyone == self@.members.len(),
                self@.members.finite(),
                forall|i: int| 0 <= i < start ==> (#[trigger] points[i]).0 < from,
                forall|i: int| start <= i < n ==> (#[trigger] points[i]).0 >= from,
                walk(all, from) == names(out@) + walk(unmet(all, names(out@)), from),
                names(out@).no_duplicates(),
                forall|i: int| 0 <= i < out@.len() ==> self@.members.contains(#[trigger] names(out@)[i]),
                forall|j: int|
                    0 <= j < k ==> names(out@).contains(
                        points[#[trigger] turned(start as int, n as int, j)].1@,
                    ),
            decreases n - k,
        {
            let at: usize = if k < n - start {
                start + k
            } else {
                k - (n - start)
            };
            assert(at == turned(start as int, n as int, k as int));
            let node = self.points[at].1.as_str();
            if !listed(&out, node) {
                let ghost seen = names(out@);
                proof {
                    self.lemma_view();
                    let rest = unmet(all, seen);
                    let place = points[at as int].0;
                    assert(rest.contains_key(place));
                    assert forall|q: u64| #[trigger] rest.contains_key(q) implies ahead(from, place)
                        <= ahead(from, q) by {
                        assert(all.contains_key(q));
                        let i = choose|i: int| 0 <= i < points.len() && (#[trigger] points[i]).0 == q;
                        let j = if i >= start { i - start } else { i + n - start };
                        assert(turned(start as int, n as int, j) == i);
                        assert(j >= k);
                        lemma_turned(points, from, start as int, k as int, j);
                    }
                    lemma_owner(rest, from, place);
                    assert(rest[place] == node@);
                    assert(rest.dom().subset_of(all.dom()));
                    vstd::set_lib::lemma_len_subset(rest.dom(), all.dom());
                    assert forall|n: Seq<char>|
                        seen.push(node@).contains(n) == (seen.contains(n) || n == node@) by {
                        if seen.contains(n) {
                            assert(seen.push(node@)[seen.index_of(n)] == n);
                        }
                        assert(seen.push(node@)[seen.len() as int] == node@);
                    }
                    assert(without(rest, node@) =~= unmet(all, seen.push(node@)));
                    lemma_walk_step(rest, from, place);
                    assert(seen + (seq![node@] + walk(without(rest, node@), from)) =~= seen.push(node@)
                        + walk(without(rest, node@), from));
                }
                out.push(node);
                proof {
                    assert(names(out@) =~= seen.push(node@));
                    assert forall|j: int| 0 <= j < k implies names(out@).contains(
                        points[#[trigger] turned(start as int, n as int, j)].1@,
                    ) by {
                        let w = points[turned(start as int, n as int, j)].1@;
                        assert(seen.contains(w));
                        let i = seen.index_of(w);
                        assert(names(out@)[i] == w);
                    }
                    assert(names(out@)[seen.len() as int] == node@);
                }
            }
            k += 1;
        }
        proof {
            self.lemma_view();
            let seen = names(out@);
            let rest = unmet(all, seen);
            if k == n {
                assert forall|q: u64| !#[trigger] rest.contains_key(q) by {
                    if all.contains_key(q) {
                        let i = choose|i: int| 0 <= i < points.len() && (#[trigger] points[i]).0 == q;
                        let j = if i >= start { i - start } else { i + n - start };
                        assert(turned(start as int, n as int, j) == i);
                    }
                }
            } else {
                seen.unique_seq_to_set();
                vstd::seq_lib::seq_to_set_is_finite(seen);
                assert(seen.to_set().subset_of(self@.members));
                vstd::set_lib::lemma_len_subset(seen.to_set(), self@.members);
                vstd::set_lib::lemma_subset_equality(seen.to_set(), self@.members);
                assert forall|q: u64| !#[trigger] rest.contains_key(q) by {
                    if all.contains_key(q) {
                        assert(seen.to_set().contains(all[q]));
                    }
                }
            }
            assert(rest =~= Map::empty());
            assert(walk(rest, from) =~= Seq::empty());
            assert(seen + Seq::<Seq<char>>::empty() =~= seen);
        }
        out
    }
}

/// The place that is `k` steps after `start`, around `n` places.
spec fn turned(start: int, n: int, k: int) -> int {
    if start + k < n {
        start + k
    } else {
        start + k - n
    }
}

proof fn lemma_turned(points: Seq<(u64, String)>, from: u64, start: int, j: int, k: int)
    requires
        rising(points),
        0 <= start <= points.len(),
        forall|i: int| 0 <= i < start ==> (#[trigger] points[i]).0 < from,
        forall|i: int| start <= i < points.len() ==> (#[trigger] points[i]).0 >= from,
        0 <= j <= k < points.len(),
    ensures
        ahead(from, points[turned(start, points.len() as int, j)].0) <= ahead(
            from,
            points[turned(start, points.len() as int, k)].0,
        ),
{
    let n = points.len() as int;
    let a = turned(start, n, j);
    let b = turned(start, n, k);
    assert(points[a].0 <= points[b].0 || b < start);
    assert(a < start ==> points[a].0 < from);
}

/// The points whose owners are not among `seen`.
spec fn unmet(points: Map<u64, Seq<char>>, seen: Seq<Seq<char>>) -> Map<u64, Seq<char>> {
    Map::new(|at: u64| points.contains_key(at) && !seen.contains(points[at]), |at: u64| points[at])
}

fn listed(list: &Vec<&str>, name: &str) -> (out: bool)
    ensures
        out == names(list@).contains(name@),
{
    let mut i: usize = 0;
    while i < list.len()
        invariant
            i <= list@.len(),
            forall|j: int| 0 <= j < i ==> (#[trigger] list@[j])@ != name@,
        decreases list@.len() - i,
    {
        if same(list[i], name) {
            assert(names(list@)[i as int] == name@);
            return true;
        }
        i += 1;
    }
    assert forall|j: int| 0 <= j < list@.len() implies (#[trigger] names(list@)[j]) != name@ by {
        assert(list@[j]@ != name@);
    }
    false
}

proof fn lemma_owner(points: Map<u64, Seq<char>>, from: u64, at: u64)
    requires
        is_next(points, from, at),
    ensures
        owner(points, from) == Some(points[at]),
{
    let c = choose|c: u64| is_next(points, from, c);
    assert(is_next(points, from, c));
    assert(ahead(from, c) == ahead(from, at));
}

/// A ring with points always has a next one, and one without has none.
proof fn lemma_owner_exists(points: Map<u64, Seq<char>>, from: u64)
    requires
        points.dom().finite(),
    ensures
        owner(points, from) is None <==> points.dom().len() == 0,
        owner(points, from) matches Some(node) ==> exists|at: u64|
            is_next(points, from, at) && points[at] == node,
{
    if points.dom().len() > 0 {
        let at = lemma_least(points.dom(), |q: u64| ahead(from, q));
        assert forall|q: u64| #[trigger] points.contains_key(q) implies ahead(from, at) <= ahead(
            from,
            q,
        ) by {
            assert(points.dom().contains(q));
        }
        assert(is_next(points, from, at));
        lemma_owner(points, from, at);
    } else {
        points.dom().lemma_len0_is_empty();
    }
}

proof fn lemma_walk(points: Map<u64, Seq<char>>, from: u64)
    requires
        points.dom().finite(),
    ensures
        walk(points, from).no_duplicates(),
        forall|node: Seq<char>|
            walk(points, from).contains(node) <==> exists|at: u64| #[trigger]
                points.contains_key(at) && points[at] == node,
        walk(points, from).len() > 0 ==> owner(points, from) == Some(walk(points, from)[0]),
        walk(points, from).len() == 0 ==> owner(points, from) is None,
    decreases points.dom().len(),
{
    lemma_owner_exists(points, from);
    match owner(points, from) {
        None => {
            points.dom().lemma_len0_is_empty();
            assert(walk(points, from) =~= Seq::empty());
        },
        Some(first) => {
            let p = choose|at: u64| is_next(points, from, at) && points[at] == first;
            lemma_without_smaller(points, first, p);
            let rest = without(points, first);
            lemma_walk(rest, from);
            let tail = walk(rest, from);
            let all = walk(points, from);
            assert(all =~= seq![first] + tail);
            assert(!tail.contains(first)) by {
                if tail.contains(first) {
                    let at = choose|at: u64| #[trigger] rest.contains_key(at) && rest[at] == first;
                    assert(rest[at] != first);
                }
            }
            assert forall|i: int, j: int|
                0 <= i < all.len() && 0 <= j < all.len() && i != j implies all[i] != all[j] by {
                if i > 0 {
                    assert(all[i] == tail[i - 1]);
                }
                if j > 0 {
                    assert(all[j] == tail[j - 1]);
                }
            }
            assert forall|node: Seq<char>| all.contains(node) <==> exists|at: u64| #[trigger]
                points.contains_key(at) && points[at] == node by {
                if all.contains(node) {
                    let i = all.index_of(node);
                    if i == 0 {
                        assert(points.contains_key(p) && points[p] == node);
                    } else {
                        assert(tail[i - 1] == node);
                        assert(tail.contains(node));
                        let at = choose|at: u64| #[trigger] rest.contains_key(at) && rest[at] == node;
                        assert(points.contains_key(at) && points[at] == node);
                    }
                }
                if exists|at: u64| #[trigger] points.contains_key(at) && points[at] == node {
                    let at = choose|at: u64| #[trigger] points.contains_key(at) && points[at] == node;
                    if node == first {
                        assert(all[0] == node);
                    } else {
                        assert(rest.contains_key(at) && rest[at] == node);
                        assert(tail.contains(node));
                        let i = tail.index_of(node);
                        assert(all[i + 1] == node);
                    }
                }
            }
        },
    }
}

/// A key is only ever routed to a member.
pub proof fn law_owner_is_a_member(ring: RingView, key: Seq<char>)
    requires
        ring.wf(),
    ensures
        ring.route(key) matches Some(node) ==> ring.members.contains(node),
{
    lemma_owner_exists(ring.points, key_point(key));
}

/// Adding a worker a second time changes nothing.
pub proof fn law_insert_is_idempotent(ring: RingView, node: Seq<char>)
    requires
        ring.wf(),
    ensures
        ring.inserted(node).inserted(node) == ring.inserted(node),
        ring.is_whole() && ring.members.contains(node) ==> ring.inserted(node) == ring,
{
    let once = ring.inserted(node);
    assert(once.inserted(node).points =~= once.points);
    assert(once.inserted(node).members =~= once.members);
    if ring.is_whole() && ring.members.contains(node) {
        assert(once.points =~= ring.points);
        assert(once.members =~= ring.members);
    }
}

/// As long as no two virtual nodes share a place, every worker on the ring
/// has all of its own, whoever joins or leaves.
pub proof fn law_ring_stays_whole(ring: RingView, node: Seq<char>)
    requires
        ring.wf(),
        ring.is_whole(),
        apart(ring.members.insert(node)),
    ensures
        ring.inserted(node).wf(),
        ring.inserted(node).is_whole(),
        ring.removed(node).wf(),
        ring.removed(node).is_whole(),
{
    let joined = ring.inserted(node);
    let family = ring.members.insert(node);
    assert forall|n: Seq<char>, r: u32|
        #![trigger node_point(n, r)]
        joined.members.contains(n) && r < VIRTUAL_NODES implies joined.points.contains_key(
        node_point(n, r),
    ) && joined.points[node_point(n, r)] == n by {
        let at = node_point(n, r);
        if is_point_of(node, at) {
            let i = choose|i: u32| 0 <= i < VIRTUAL_NODES && #[trigger] node_point(node, i) == at;
            assert(family.contains(n) && family.contains(node));
            assert(n == node);
        }
        if n == node {
            assert(is_point_of(node, at));
        }
    }
    lemma_points_finite(ring, node);
    let left = ring.removed(node);
    assert(left.points.dom().subset_of(ring.points.dom()));
    vstd::set_lib::lemma_len_subset(left.points.dom(), ring.points.dom());
}

/// The places of one worker's virtual nodes.
pub open spec fn points_of(node: Seq<char>) -> Set<u64> {
    Set::new(|at: u64| is_point_of(node, at))
}

proof fn lemma_points_of(node: Seq<char>)
    ensures
        points_of(node).finite(),
        apart(set![node]) ==> points_of(node).len() == VIRTUAL_NODES,
{
    let list = Seq::new(VIRTUAL_NODES as nat, |r: int| node_point(node, r as u32));
    vstd::seq_lib::seq_to_set_is_finite(list);
    assert forall|at: u64| points_of(node).contains(at) == list.contains(at) by {
        if points_of(node).contains(at) {
            let r = choose|r: u32| 0 <= r < VIRTUAL_NODES && #[trigger] node_point(node, r) == at;
            assert(list[r as int] == at);
        }
        if list.contains(at) {
            let i = list.index_of(at);
            assert(node_point(node, i as u32) == at);
        }
    }
    assert(points_of(node) =~= list.to_set());
    if apart(set![node]) {
        assert forall|i: int, j: int| 0 <= i < list.len() && 0 <= j < list.len() && i != j implies list[i]
            != list[j] by {
            assert(set![node].contains(node));
            assert(list[i] == node_point(node, i as u32));
            assert(list[j] == node_point(node, j as u32));
        }
        list.unique_seq_to_set();
    }
}

proof fn lemma_points_finite(ring: RingView, node: Seq<char>)
    requires
        ring.wf(),
    ensures
        ring.inserted(node).points.dom().finite(),
        ring.inserted(node).wf(),
{
    let joined = ring.inserted(node);
    lemma_points_of(node);
    assert(joined.points.dom() =~= ring.points.dom().union(points_of(node)));
    assert forall|at: u64| #[trigger] joined.points.contains_key(at) implies joined.members.contains(
        joined.points[at],
    ) && is_point_of(joined.points[at], at) by {
        if !is_point_of(node, at) {
            assert(ring.points.contains_key(at));
        }
    }
}

/// The places of all virtual nodes of `nodes`.
spec fn points_of_all(nodes: Set<Seq<char>>) -> Set<u64> {
    Set::new(|at: u64| exists|n: Seq<char>| nodes.contains(n) && #[trigger] is_point_of(n, at))
}

proof fn lemma_points_of_all(nodes: Set<Seq<char>>)
    requires
        nodes.finite(),
        apart(nodes),
    ensures
        points_of_all(nodes).finite(),
        points_of_all(nodes).len() == VIRTUAL_NODES * nodes.len(),
    decreases nodes.len(),
{
    if nodes.len() == 0 {
        nodes.lemma_len0_is_empty();
        assert(points_of_all(nodes) =~= Set::empty());
    } else {
        let n = nodes.choose();
        let rest = nodes.remove(n);
        lemma_points_of_all(rest);
        lemma_points_of(n);
        let mine = points_of(n);
        let theirs = points_of_all(rest);
        assert(mine.disjoint(theirs)) by {
            assert forall|at: u64| !(mine.contains(at) && theirs.contains(at)) by {
                if mine.contains(at) && theirs.contains(at) {
                    let m = choose|m: Seq<char>| rest.contains(m) && #[trigger] is_point_of(m, at);
                    let i = choose|i: u32| 0 <= i < VIRTUAL_NODES && #[trigger] node_point(n, i) == at;
                    let j = choose|j: u32| 0 <= j < VIRTUAL_NODES && #[trigger] node_point(m, j) == at;
                    assert(nodes.contains(n) && nodes.contains(m));
                    assert(n == m);
                }
            }
        }
        assert forall|at: u64| points_of_all(nodes).contains(at) == (mine + theirs).contains(at) by {
            if points_of_all(nodes).contains(at) {
                let m = choose|m: Seq<char>| nodes.contains(m) && #[trigger] is_point_of(m, at);
                if m != n {
                    assert(rest.contains(m));
                }
            }
            if theirs.contains(at) {
                let m = choose|m: Seq<char>| rest.contains(m) && #[trigger] is_point_of(m, at);
                assert(nodes.contains(m));
            }
            if mine.contains(at) {
                assert(nodes.contains(n) && is_point_of(n, at));
            }
        }
        assert(points_of_all(nodes) =~= mine + theirs);
        vstd::set_lib::lemma_set_disjoint_lens(mine, theirs);
        assert(VIRTUAL_NODES * nodes.len() == VIRTUAL_NODES + VIRTUAL_NODES * rest.len())
            by (nonlinear_arith)
            requires
                nodes.len() == rest.len() + 1,
        ;
    }
}

/// A whole ring carries exactly `VIRTUAL_NODES` points per worker.
pub proof fn law_virtual_nodes_per_worker(ring: RingView)
    requires
        ring.wf(),
        ring.is_whole(),
        apart(ring.members),
    ensures
        ring.points.dom().len() == VIRTUAL_NODES * ring.members.len(),
{
    lemma_points_of_all(ring.members);
    assert forall|at: u64| ring.points.dom().contains(at) == points_of_all(ring.members).contains(at) by {
        if ring.points.contains_key(at) {
            assert(ring.members.contains(ring.points[at]) && is_point_of(ring.points[at], at));
        }
        if points_of_all(ring.members).contains(at) {
            let n = choose|n: Seq<char>| ring.members.contains(n) && #[trigger] is_point_of(n, at);
            let r = choose|r: u32| 0 <= r < VIRTUAL_NODES && #[trigger] node_point(n, r) == at;
        }
    }
    assert(ring.points.dom() =~= points_of_all(ring.members));
}

/// Removing a worker moves no key that it did not own.
pub proof fn law_removal_moves_only_its_own_keys(ring: RingView, node: Seq<char>, key: Seq<char>)
    requires
        ring.wf(),
        ring.route(key) != Some(node),
    ensures
        ring.removed(node).route(key) == ring.route(key),
{
    let from = key_point(key);
    lemma_owner_exists(ring.points, from);
    let left = ring.removed(node);
    assert(left.points.dom().subset_of(ring.points.dom()));
    vstd::set_lib::lemma_len_subset(left.points.dom(), ring.points.dom());
    lemma_owner_exists(left.points, from);
    if let Some(o) = ring.route(key) {
        let at = choose|at: u64| is_next(ring.points, from, at) && ring.points[at] == o;
        assert(is_next(left.points, from, at));
        lemma_owner(left.points, from, at);
    }
}

/// When points leave the ring, a key whose point stays keeps its owner.
pub proof fn law_fewer_points_keep_their_keys(ring: RingView, left: RingView, key: Seq<char>)
    requires
        ring.wf(),
        left.points.submap_of(ring.points),
        forall|at: u64| #[trigger]
            ring.points.contains_key(at) && ring.route(key) == Some(ring.points[at])
                ==> left.points.contains_key(at),
    ensures
        ring.route(key) is Some ==> left.route(key) == ring.route(key),
{
    let from = key_point(key);
    lemma_owner_exists(ring.points, from);
    if let Some(o) = ring.route(key) {
        let at = choose|at: u64| is_next(ring.points, from, at) && ring.points[at] == o;
        assert(left.points.contains_key(at));
        assert forall|q: u64| #[trigger] left.points.contains_key(q) implies ahead(from, at) <= ahead(
            from,
            q,
        ) by {
            assert(ring.points.contains_key(q));
        }
        assert(is_next(left.points, from, at));
        lemma_owner(left.points, from, at);
    }
}

/// A worker that joins takes keys only for itself.
pub proof fn law_joining_takes_keys_only_for_itself(
    ring: RingView,
    node: Seq<char>,
    key: Seq<char>,
)
    requires
        ring.wf(),
    ensures
        ring.inserted(node).route(key) == Some(node) || ring.inserted(node).route(key) == ring.route(
            key,
        ),
{
    let from = key_point(key);
    let joined = ring.inserted(node);
    lemma_points_finite(ring, node);
    lemma_owner_exists(joined.points, from);
    lemma_owner_exists(ring.points, from);
    if let Some(o) = joined.route(key) {
        let at = choose|at: u64| is_next(joined.points, from, at) && joined.points[at] == o;
        if o != node {
            assert(ring.points.contains_key(at));
            assert forall|q: u64| #[trigger] ring.points.contains_key(q) implies ahead(from, at)
                <= ahead(from, q) by {
                assert(joined.points.contains_key(q));
            }
            assert(is_next(ring.points, from, at));
            lemma_owner(ring.points, from, at);
        }
    } else {
        joined.points.dom().lemma_len0_is_empty();
        assert(node_point(node, 0) == node_point(node, 0));
        assert(is_point_of(node, node_point(node, 0)));
        assert(joined.points.contains_key(node_point(node, 0)));
    }
}

/// A whole ring routes nowhere exactly when it is empty, and its only worker
/// owns the whole keyspace.
pub proof fn law_every_key_has_an_owner(ring: RingView, key: Seq<char>)
    requires
        ring.wf(),
        ring.is_whole(),
    ensures
        ring.route(key) is None <==> ring.members == Set::<Seq<char>>::empty(),
        ring.candidates(key).len() == 0 <==> ring.members == Set::<Seq<char>>::empty(),
        forall|node: Seq<char>|
            ring.members == set![node] ==> ring.route(key) == Some(node),
{
    let from = key_point(key);
    lemma_owner_exists(ring.points, from);
    lemma_walk(ring.points, from);
    law_owner_is_a_member(ring, key);
    if ring.route(key) is None {
        ring.points.dom().lemma_len0_is_empty();
        assert forall|n: Seq<char>| !ring.members.contains(n) by {
            if ring.members.contains(n) {
                assert(ring.points.contains_key(node_point(n, 0)));
            }
        }
        assert(ring.members =~= Set::empty());
    }
    assert forall|node: Seq<char>| ring.members == set![node] implies ring.route(key) == Some(node) by {
        assert(ring.members.contains(node));
    }
}

/// The walk starts at the owner and visits every worker of a whole ring once.
pub proof fn law_candidates_visit_every_worker_once(ring: RingView, key: Seq<char>)
    requires
        ring.wf(),
        ring.is_whole(),
    ensures
        ring.candidates(key).no_duplicates(),
        ring.candidates(key).to_set() == ring.members,
        ring.candidates(key).len() == ring.members.len(),
        ring.candidates(key).len() > 0 ==> ring.route(key) == Some(ring.candidates(key)[0]),
{
    let from = key_point(key);
    let list = ring.candidates(key);
    lemma_walk(ring.points, from);
    assert forall|n: Seq<char>| list.contains(n) == ring.members.contains(n) by {
        if list.contains(n) {
            let at = choose|at: u64| #[trigger] ring.points.contains_key(at) && ring.points[at] == n;
        }
        if ring.members.contains(n) {
            assert(ring.points.contains_key(node_point(n, 0)));
        }
    }
    assert(list.to_set() =~= ring.members);
    list.unique_seq_to_set();
}

/// A walk meets only members, and none of them twice.
pub proof fn law_candidates_are_members(ring: RingView, key: Seq<char>)
    requires
        ring.wf(),
    ensures
        ring.candidates(key).no_duplicates(),
        forall|i: int|
            0 <= i < ring.candidates(key).len() ==> ring.members.contains(
                #[trigger] ring.candidates(key)[i],
            ),
{
    let list = ring.candidates(key);
    lemma_walk(ring.points, key_point(key));
    assert forall|i: int| 0 <= i < list.len() implies ring.members.contains(#[trigger] list[i]) by {
        assert(list.contains(list[i]));
        let at = choose|at: u64| #[trigger] ring.points.contains_key(at) && ring.points[at] == list[i];
    }
}

/// When a worker leaves, the walk is what it was with that worker left out.
pub proof fn law_failover_order_survives_a_removal(ring: RingView, node: Seq<char>, key: Seq<char>)
    requires
        ring.wf(),
    ensures
        ring.removed(node).candidates(key) == ring.candidates(key).filter(|n: Seq<char>| n != node),
{
    lemma_walk_without(ring.points, node, key_point(key));
}

proof fn lemma_walk_without(points: Map<u64, Seq<char>>, node: Seq<char>, from: u64)
    requires
        points.dom().finite(),
    ensures
        walk(without(points, node), from) == walk(points, from).filter(|n: Seq<char>| n != node),
    decreases points.dom().len(),
{
    let keep = |n: Seq<char>| n != node;
    let left = without(points, node);
    assert(left.dom().subset_of(points.dom()));
    vstd::set_lib::lemma_len_subset(left.dom(), points.dom());
    lemma_owner_exists(points, from);
    lemma_owner_exists(left, from);
    match owner(points, from) {
        None => {
            points.dom().lemma_len0_is_empty();
            assert(left.dom() =~= Set::empty());
            assert(walk(points, from) =~= Seq::empty());
            assert(walk(left, from) =~= Seq::empty());
            reveal(Seq::filter);
        },
        Some(first) => {
            let at = choose|at: u64| is_next(points, from, at) && points[at] == first;
            lemma_without_smaller(points, first, at);
            let rest = without(points, first);
            let tail = walk(rest, from);
            lemma_walk_without(rest, node, from);
            assert(walk(points, from) == seq![first] + tail);
            Seq::filter_distributes_over_add(seq![first], tail, keep);
            assert(seq![first].filter(keep) =~= if first != node { seq![first] } else { Seq::empty() })
                by {
                reveal(Seq::filter);
                assert(seq![first].drop_last() =~= Seq::empty());
                assert(seq![first].drop_last().filter(keep) =~= Seq::empty());
            }
            if first == node {
                assert(without(rest, node) =~= left);
                assert(walk(points, from).filter(keep) =~= tail.filter(keep));
            } else {
                assert(is_next(left, from, at));
                lemma_owner(left, from, at);
                assert(left[at] == first);
                assert(without(left, first) =~= without(rest, node));
                lemma_walk_step(left, from, at);
            }
        },
    }
}

/// Where on the ring something lies is a hash of all its bytes: those of a key
/// with their number before them, those of a worker's name with a separator and
/// the number of the virtual node after them.
pub proof fn law_places_are_hashes_of_whole_names(name: Seq<char>, replica: u32)
    ensures
        key_point(name) == DefaultHasher::spec_finish(
            seq![spec_u64_to_le_bytes(encode_utf8(name).len() as u64), encode_utf8(name)],
        ),
        node_point(name, replica) == DefaultHasher::spec_finish(
            seq![encode_utf8(name), seq![255u8], spec_u32_to_le_bytes(replica)],
        ),
{
}

/// A key belongs to the worker at the first point that is not below the key's
/// place, and to the one at the lowest point of all where there is none.
pub proof fn law_the_next_point_upwards_owns_the_key(ring: RingView, key: Seq<char>, at: u64)
    requires
        ring.wf(),
        ring.points.contains_key(at),
    ensures
        ring.route(key) is Some,
        key_point(key) <= at && (forall|q: u64| #[trigger]
            ring.points.contains_key(q) && key_point(key) <= q ==> at <= q) ==> ring.route(key)
            == Some(ring.points[at]),
        (forall|q: u64| #[trigger]
            ring.points.contains_key(q) ==> q < key_point(key) && at <= q) ==> ring.route(key)
            == Some(ring.points[at]),
{
    let from = key_point(key);
    lemma_owner_exists(ring.points, from);
    if ring.route(key) is None {
        ring.points.dom().lemma_len0_is_empty();
        assert(ring.points.dom().contains(at));
    }
    if from <= at && (forall|q: u64| #[trigger]
        ring.points.contains_key(q) && from <= q ==> at <= q) {
        assert(is_next(ring.points, from, at));
        lemma_owner(ring.points, from, at);
    }
    if forall|q: u64| #[trigger] ring.points.contains_key(q) ==> q < from && at <= q {
        assert(is_next(ring.points, from, at));
        lemma_owner(ring.points, from, at);
    }
}

/// A worker has one hundred and sixty virtual nodes: one that joins gets all of
/// their places, loses none that it had, and takes no other place from anybody.
pub proof fn law_a_worker_joins_at_its_own_places(ring: RingView, node: Seq<char>, at: u64)
    ensures
        ({
            let joined = ring.inserted(node);
            let own = exists|r: u32| r < 160 && #[trigger] node_point(node, r) == at;
            &&& own ==> joined.points.contains_key(at) && joined.points[at] == node
            &&& !own ==> (joined.points.contains_key(at) <==> ring.points.contains_key(at))
            &&& !own && ring.points.contains_key(at) ==> joined.points[at] == ring.points[at]
            &&& joined.members == ring.members.insert(node)
        }),
{
    assert(VIRTUAL_NODES == 160);
    if exists|r: u32| r < 160 && #[trigger] node_point(node, r) == at {
        let r = choose|r: u32| r < 160 && #[trigger] node_point(node, r) == at;
        assert(0 <= r < VIRTUAL_NODES && node_point(node, r) == at);
    }
}

/// A worker that leaves takes its own places off the ring, and no other's.
pub proof fn law_a_worker_leaves_with_its_own_places(ring: RingView, node: Seq<char>, at: u64)
    ensures
        ({
            let left = ring.removed(node);
            &&& left.points.contains_key(at) <==> ring.points.contains_key(at) && ring.points[at]
                != node
            &&& left.points.contains_key(at) ==> left.points[at] == ring.points[at]
            &&& left.members == ring.members.remove(node)
        }),
{
}

/// The walk meets workers in the order of their nearest points: the one before
/// another has a point that is nearer, upwards and around, than any of the
/// other's.
pub proof fn law_the_walk_meets_the_nearest_first(
    ring: RingView,
    key: Seq<char>,
    i: int,
    j: int,
    theirs: u64,
)
    requires
        ring.wf(),
        0 <= i < j < ring.candidates(key).len(),
        ring.points.contains_key(theirs),
        ring.points[theirs] == ring.candidates(key)[j],
    ensures
        exists|mine: u64|
            {
                let from = key_point(key);
                &&& #[trigger] ring.points.contains_key(mine)
                &&& ring.points[mine] == ring.candidates(key)[i]
                &&& from <= mine < theirs || mine < theirs < from || theirs < from <= mine
            },
{
    lemma_nearest_first(ring.points, key_point(key), i, j, theirs);
}

proof fn lemma_nearest_first(points: Map<u64, Seq<char>>, from: u64, i: int, j: int, theirs: u64)
    requires
        points.dom().finite(),
        0 <= i < j < walk(points, from).len(),
        points.contains_key(theirs),
        points[theirs] == walk(points, from)[j],
    ensures
        exists|mine: u64|
            {
                &&& #[trigger] points.contains_key(mine)
                &&& points[mine] == walk(points, from)[i]
                &&& from <= mine < theirs || mine < theirs < from || theirs < from <= mine
            },
    decreases i,
{
    lemma_owner_exists(points, from);
    lemma_walk(points, from);
    let first = owner(points, from)->0;
    let at = choose|at: u64| is_next(points, from, at) && points[at] == first;
    lemma_walk_step(points, from, at);
    let rest = without(points, first);
    let tail = walk(rest, from);
    assert(walk(points, from) == seq![first] + tail);
    if i == 0 {
        assert(walk(points, from)[0] != walk(points, from)[j]);
        assert(ahead(from, at) <= ahead(from, theirs));
        assert(at != theirs);
    } else {
        assert(walk(points, from)[0] != walk(points, from)[j]);
        assert(rest.contains_key(theirs) && rest[theirs] == tail[j - 1]);
        lemma_nearest_first(rest, from, i - 1, j - 1, theirs);
        let mine = choose|mine: u64|
            {
                &&& #[trigger] rest.contains_key(mine)
                &&& rest[mine] == tail[i - 1]
                &&& from <= mine < theirs || mine < theirs < from || theirs < from <= mine
            };
        assert(points.contains_key(mine) && points[mine] == walk(points, from)[i]);
    }
}

} // verus!
