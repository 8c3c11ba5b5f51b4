//! The node list, for people to read.
use crate::membership::NodeState;
use crate::membership::NodeView;
use crate::table::before;
use crate::table::order;
use crate::table::Order;
use crate::text::decimal;
use crate::text::decimal_text;
use crate::text::texts;
use vstd::prelude::*;
use vstd::string::StringExecFns;
use vstd::utf8::encode_utf8;

verus! {

/// One worker, on one line.
pub open spec fn line(id: Seq<char>, state: NodeView) -> Seq<char> {
    id + " "@ + state.address + " in_flight="@ + decimal(state.in_flight as nat) + " queue="@
        + decimal(state.queue_depth as nat) + " cache_bytes="@ + decimal(state.cache_bytes as nat)
}

pub open spec fn lines(nodes: Seq<(String, NodeState)>) -> Seq<Seq<char>> {
    nodes.map_values(|n: (String, NodeState)| line(n.0@, n.1@))
}

/// Whether `a` may stand before `b`, by their bytes.
pub open spec fn in_order(a: Seq<char>, b: Seq<char>) -> bool {
    a == b || before(encode_utf8(a), encode_utf8(b))
}

pub open spec fn sorted(list: Seq<Seq<char>>) -> bool {
    forall|i: int, j: int| 0 <= i < j < list.len() ==> in_order(#[trigger] list[i], #[trigger] list[j])
}

/// Lines with a line break between them.
pub open spec fn joined(list: Seq<Seq<char>>) -> Seq<char>
    decreases list.len(),
{
    if list.len() == 0 {
        Seq::empty()
    } else if list.len() == 1 {
        list[0]
    } else {
        joined(list.drop_last()) + "\n"@ + list.last()
    }
}

fn line_of(id: &str, state: &NodeState) -> (out: String)
    ensures
        out@ == line(id@, state@),
{
    let mut out = id.to_owned();
    out.append(" ");
    out.append(state.address.as_str());
    out.append(" in_flight=");
    out.append(decimal_text(state.in_flight as u64).as_str());
    out.append(" queue=");
    out.append(decimal_text(state.queue_depth as u64).as_str());
    out.append(" cache_bytes=");
    out.append(decimal_text(state.cache_bytes).as_str());
    out
}

proof fn lemma_in_order_transitive(a: Seq<char>, b: Seq<char>, c: Seq<char>)
    requires
        in_order(a, b),
        in_order(b, c),
    ensures
        in_order(a, c),
{
    if a != b && b != c {
        crate::table::lemma_before_transitive(encode_utf8(a), encode_utf8(b), encode_utf8(c));
    }
}

/// Puts `line` in its place in a sorted list.
fn insert_line(list: &mut Vec<String>, line: String)
    requires
        sorted(texts(old(list)@)),
    ensures
        sorted(texts(final(list)@)),
        texts(final(list)@).to_multiset() == texts(old(list)@).to_multiset().insert(line@),
{
    let ghost all = texts(list@);
    let mut at: usize = list.len();
    assert(all.len() == list@.len());
    while at > 0
        invariant_except_break
            true,
        invariant
            at <= list@.len(),
            all == texts(list@),
            all.len() == list@.len(),
            sorted(all),
            forall|k: int| at <= k < all.len() ==> in_order(line@, #[trigger] all[k]),
        ensures
            at == 0 || in_order(all[at - 1], line@),
        decreases at,
    {
        let ghost last = all[at - 1];
        assert(last == list@[at - 1]@);
        match order(line.as_str().as_bytes(), list[at - 1].as_str().as_bytes()) {
            Order::Before => {
                assert(in_order(line@, last));
                at = at - 1;
            },
            Order::Same => {
                proof {
                    crate::text::lemma_utf8_injective(line@, last);
                }
                break;
            },
            Order::After => {
                assert(in_order(last, line@));
                break;
            },
        }
    }
    proof {
        assert forall|k: int| 0 <= k < at implies in_order(#[trigger] all[k], line@) by {
            if k < at - 1 {
                lemma_in_order_transitive(all[k], all[at - 1], line@);
            }
        }
    }
    let ghost text = line@;
    list.insert(at, line);
    proof {
        let after = texts(list@);
        assert(after =~= all.insert(at as int, text));
        assert forall|i: int, j: int| 0 <= i < j < after.len() implies in_order(
            #[trigger] after[i],
            #[trigger] after[j],
        ) by {
            if j < at {
            } else if j == at {
                assert(after[i] == all[i]);
            } else if i == at {
                assert(after[j] == all[j - 1]);
            } else if i < at {
                assert(after[i] == all[i] && after[j] == all[j - 1]);
            } else {
                assert(after[i] == all[i - 1] && after[j] == all[j - 1]);
            }
        }
        after.to_multiset_ensures();
        assert(after.remove(at as int) =~= all);
        assert(after.contains(after[at as int]));
        assert(after.to_multiset() =~= after.to_multiset().remove(text).insert(text));
    }
}

/// One line per worker, in order.
pub fn cluster_lines(nodes: &Vec<(String, NodeState)>) -> (out: Vec<String>)
    ensures
        sorted(texts(out@)),
        texts(out@).to_multiset() == lines(nodes@).to_multiset(),
{
    let mut out: Vec<String> = Vec::new();
    let mut i: usize = 0;
    assert(texts(out@) =~= lines(nodes@).take(0));
    while i < nodes.len()
        invariant
            i <= nodes@.len(),
            sorted(texts(out@)),
            texts(out@).to_multiset() == lines(nodes@).take(i as int).to_multiset(),
        decreases nodes@.len() - i,
    {
        let text = line_of(nodes[i].0.as_str(), &nodes[i].1);
        proof {
            let done = lines(nodes@).take(i as int);
            let next = lines(nodes@).take(i as int + 1);
            assert(next =~= done.push(text@));
            done.to_multiset_ensures();
        }
        insert_line(&mut out, text);
        i += 1;
    }
    assert(lines(nodes@).take(i as int) =~= lines(nodes@));
    out
}

/// The list as one text.
pub fn cluster_text(nodes: &Vec<(String, NodeState)>) -> (out: String)
    ensures
        exists|list: Seq<Seq<char>>|
            sorted(list) && list.to_multiset() == lines(nodes@).to_multiset() && out@
                == #[trigger] joined(list),
{
    let list = cluster_lines(nodes);
    let ghost all = texts(list@);
    let mut out = String::new();
    let mut i: usize = 0;
    assert(out@ =~= joined(all.take(0)));
    while i < list.len()
        invariant
            i <= list@.len(),
            all == texts(list@),
            all.len() == list@.len(),
            out@ == joined(all.take(i as int)),
        decreases list@.len() - i,
    {
        proof {
            let next = all.take(i as int + 1);
            assert(next.drop_last() =~= all.take(i as int));
            assert(next.last() == list@[i as int]@);
        }
        if i > 0 {
            out.append("\n");
        }
        out.append(list[i].as_str());
        i += 1;
        assert(out@ =~= joined(all.take(i as int)));
    }
    assert(all.take(i as int) =~= all);
    out
}

/// A line names its worker and its address in full, and the three numbers that it
/// last reported.
#[verifier::rlimit(40)]
pub proof fn law_a_line_says_all_of_a_worker(id: Seq<char>, state: NodeView)
    ensures
        line(id, state) == id + seq![' '] + state.address + seq![' '] + ("in_flight="@ + decimal(
            state.in_flight as nat,
        )) + seq![' '] + ("queue="@ + decimal(state.queue_depth as nat)) + seq![' '] + (
        "cache_bytes="@ + decimal(state.cache_bytes as nat)),
{
    reveal_strlit(" ");
    reveal_strlit(" in_flight=");
    reveal_strlit("in_flight=");
    reveal_strlit(" queue=");
    reveal_strlit("queue=");
    reveal_strlit(" cache_bytes=");
    reveal_strlit("cache_bytes=");
    let blank = seq![' '];
    assert(" "@ =~= blank);
    assert(" in_flight="@ =~= blank + "in_flight="@);
    assert(" queue="@ =~= blank + "queue="@);
    assert(" cache_bytes="@ =~= blank + "cache_bytes="@);
    assert(line(id, state) =~= id + blank + state.address + blank + ("in_flight="@ + decimal(
        state.in_flight as nat,
    )) + blank + ("queue="@ + decimal(state.queue_depth as nat)) + blank + ("cache_bytes="@
        + decimal(state.cache_bytes as nat)));
}

/// There is a line for every worker, and the text is the lines with a line break
/// between each two.
pub proof fn law_every_worker_has_its_line(
    nodes: Seq<(String, NodeState)>,
    i: int,
    list: Seq<Seq<char>>,
    last: Seq<char>,
)
    requires
        0 <= i < nodes.len(),
    ensures
        lines(nodes).len() == nodes.len(),
        lines(nodes)[i] == line(nodes[i].0@, nodes[i].1@),
        joined(Seq::empty()) == Seq::<char>::empty(),
        list.len() == 0 ==> joined(list.push(last)) == last,
        list.len() > 0 ==> joined(list.push(last)) == joined(list) + seq!['\n'] + last,
{
    reveal_strlit("\n");
    assert("\n"@ =~= seq!['\n']);
    assert(list.push(last).drop_last() =~= list);
}

/// The lines are in the order of their bytes.
pub proof fn law_lines_are_in_the_order_of_their_bytes(list: Seq<Seq<char>>, i: int, j: int)
    requires
        sorted(list),
        0 <= i < j < list.len(),
    ensures
        list[i] == list[j] || before(encode_utf8(list[i]), encode_utf8(list[j])),
{
}

} // verus!
