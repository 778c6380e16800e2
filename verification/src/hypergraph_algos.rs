//! Algorithms on hypergraphs: a topological order of the nodes, the
//! derivation a set of edges spells out, and the distinct derivations.
use vstd::prelude::*;

use std::collections::VecDeque;

use crate::grammar::{Symbol, SymbolView};

use crate::hypergraph::{
    count_in, edge_ok, incoming_of, lemma_count_prefix, lemma_count_take, lemma_incoming_has,
    lemma_incoming_heads, lemma_outgoing_count, lemma_outgoing_edges, outgoing_of, shape, Edge,
    EdgeId, Hypergraph, Node, NodeId,
};

verus! {

// --------------------------------------------------------- topological sort

/// The marks of the edges.
pub open spec fn marks(edges: Seq<Edge>) -> Seq<usize> {
    edges.map_values(|e: Edge| e.mark)
}

/// How often the nodes of `s` occur among `tails`, in total.
pub open spec fn occ(tails: Seq<NodeId>, s: Seq<NodeId>) -> nat
    decreases s.len(),
{
    if s.len() == 0 {
        0
    } else {
        occ(tails, s.drop_last()) + count_in(tails, s.last())
    }
}

/// The mark of an edge with `arity` tails and mark `m` after `c` more
/// visits of its tails: a visit no longer counts once all are visited.
pub open spec fn mark_after(m: nat, arity: nat, c: nat) -> nat {
    if m + c >= arity {
        arity
    } else {
        m + c
    }
}

/// `b` is `a` but for its mark.
pub open spec fn same_but_mark(a: Edge, b: Edge) -> bool {
    &&& a.head == b.head
    &&& a.tails == b.tails
    &&& a.f == b.f
    &&& a.rule == b.rule
}

/// A node whose entering edges are `inc` is ready: nothing enters it, or
/// every edge that enters it is now marked and one of them was not marked
/// at the start (marks `m0`).
pub open spec fn ready(inc: Seq<EdgeId>, edges: Seq<Edge>, m0: Seq<usize>) -> bool {
    ||| inc.len() == 0
    ||| {
        &&& forall|k: int|
            0 <= k < inc.len() ==> (#[trigger] edges[inc[k].0 as int]).mark == edges[inc[k].0 as int].tails@.len()
        &&& exists|k: int|
            0 <= k < inc.len() && m0[inc[k].0 as int] != (#[trigger] edges[inc[k].0 as int]).tails@.len()
    }
}

/// Every node of `order` comes after the tails of each edge entering it
/// that was not marked at the start (marks `m0`): with the nodes before it,
/// the edge's tails are visited as often as the edge has tails.
pub open spec fn tails_first(order: Seq<NodeId>, nodes: Seq<Node>, edges: Seq<Edge>, m0: Seq<usize>) -> bool {
    forall|p: int, k: int|
        0 <= p < order.len() && 0 <= k < nodes[order[p].0 as int].incoming@.len() ==> {
            let e = (#[trigger] nodes[order[p].0 as int].incoming@[k]).0 as int;
            m0[e] != edges[e].tails@.len() ==> m0[e] + occ(edges[e].tails@, order.take(p))
                >= edges[e].tails@.len()
        }
}

proof fn lemma_occ_push(t: Seq<NodeId>, s: Seq<NodeId>, u: NodeId)
    ensures
        occ(t, s.push(u)) == occ(t, s) + count_in(t, u),
{
    assert(s.push(u).drop_last() =~= s);
}

proof fn lemma_occ_prefix(t: Seq<NodeId>, s: Seq<NodeId>, j: int)
    requires
        0 <= j <= s.len(),
    ensures
        occ(t, s.take(j)) <= occ(t, s),
    decreases s.len() - j,
{
    if j < s.len() {
        assert(s.take(j + 1).drop_last() =~= s.take(j));
        lemma_occ_prefix(t, s, j + 1);
    } else {
        assert(s.take(j) =~= s);
    }
}

/// Marks that differ only off `inc` leave readiness alone.
proof fn lemma_ready_frame(inc: Seq<EdgeId>, e1: Seq<Edge>, e2: Seq<Edge>, m0: Seq<usize>)
    requires
        forall|k: int|
            0 <= k < inc.len() ==> (#[trigger] e1[inc[k].0 as int]).mark == e2[inc[k].0 as int].mark
                && e1[inc[k].0 as int].tails == e2[inc[k].0 as int].tails,
    ensures
        ready(inc, e1, m0) == ready(inc, e2, m0),
{
    assert forall|k: int| 0 <= k < inc.len() implies ((#[trigger] e1[inc[k].0 as int]).mark
        == e1[inc[k].0 as int].tails@.len()) == (e2[inc[k].0 as int].mark
        == e2[inc[k].0 as int].tails@.len()) by {}
    assert forall|k: int| 0 <= k < inc.len() implies ((#[trigger] e2[inc[k].0 as int]).mark
        == e2[inc[k].0 as int].tails@.len()) == (e1[inc[k].0 as int].mark
        == e1[inc[k].0 as int].tails@.len()) by {
        assert(e1[inc[k].0 as int].mark == e2[inc[k].0 as int].mark);
    }
    if ready(inc, e1, m0) && inc.len() > 0 {
        let k = choose|k: int|
            0 <= k < inc.len() && m0[inc[k].0 as int] != (#[trigger] e1[inc[k].0 as int]).tails@.len();
        assert(m0[inc[k].0 as int] != e2[inc[k].0 as int].tails@.len());
    }
    if ready(inc, e2, m0) && inc.len() > 0 {
        let k = choose|k: int|
            0 <= k < inc.len() && m0[inc[k].0 as int] != (#[trigger] e2[inc[k].0 as int]).tails@.len();
        assert(m0[inc[k].0 as int] != e1[inc[k].0 as int].tails@.len());
    }
}

/// A sequence of distinct nodes among `n` has at most `n` of them.
proof fn lemma_nodes_bound(s: Seq<NodeId>, n: nat)
    requires
        s.no_duplicates(),
        forall|k: int| 0 <= k < s.len() ==> (#[trigger] s[k]).0 < n,
        n <= usize::MAX,
    ensures
        s.len() <= n,
{
    let all = Seq::new(n, |v: int| NodeId(v as usize));
    assert forall|k: int| 0 <= k < s.len() implies all.contains(#[trigger] s[k]) by {
        assert(all[s[k].0 as int] == s[k]);
    }
    crate::text::lemma_distinct_within(s, all);
}

} // verus!
verus! {

/// The state that the topological sort keeps, over the nodes `nodes0` and
/// the edges `e0` it started from (with marks `m0`): the nodes `sorted`
/// taken so far and the nodes `queue` still waiting, after the tail visits
/// `visits`.
pub open spec fn topo_inv(
    edges: Seq<Edge>,
    nodes0: Seq<Node>,
    e0: Seq<Edge>,
    m0: Seq<usize>,
    sorted: Seq<NodeId>,
    queue: Seq<NodeId>,
    visits: Seq<EdgeId>,
) -> bool {
    let all = sorted + queue;
    &&& edges.len() == e0.len()
    &&& m0 == marks(e0)
    &&& forall|e: int|
        0 <= e < e0.len() ==> same_but_mark(#[trigger] edges[e], e0[e]) && edges[e].mark
            == mark_after(m0[e] as nat, e0[e].tails@.len(), count_in(visits, EdgeId(e as usize)))
    &&& forall|e: int|
        0 <= e < e0.len() ==> count_in(visits, EdgeId(e as usize)) <= occ(
            (#[trigger] e0[e]).tails@,
            sorted,
        )
    &&& all.no_duplicates()
    &&& forall|k: int| 0 <= k < all.len() ==> (#[trigger] all[k]).0 < nodes0.len()
    &&& forall|v: int|
        0 <= v < nodes0.len() ==> all.contains(NodeId(v as usize)) == ready(
            (#[trigger] nodes0[v]).incoming@,
            edges,
            m0,
        )
    &&& tails_first(all, nodes0, e0, m0)
}

/// The nodes `nodes0` list the edges `e0` that enter them, and every edge
/// joins nodes among them.
pub open spec fn graph_facts(nodes0: Seq<Node>, e0: Seq<Edge>) -> bool {
    &&& nodes0.len() <= usize::MAX
    &&& e0.len() <= usize::MAX
    &&& forall|v: int|
        0 <= v < nodes0.len() ==> (#[trigger] nodes0[v]).incoming@ == incoming_of(
            shape(e0),
            v as usize,
        )
    &&& forall|e: int| 0 <= e < e0.len() ==> edge_ok(#[trigger] e0[e], nodes0.len())
}

/// `edges2` is `edges1` with one more visit counted on edge `eid`.
pub open spec fn counted_once(edges1: Seq<Edge>, edges2: Seq<Edge>, eid: int) -> bool {
    &&& edges2.len() == edges1.len()
    &&& forall|e: int| 0 <= e < edges1.len() && e != eid ==> #[trigger] edges2[e] == edges1[e]
    &&& same_but_mark(edges2[eid], edges1[eid])
    &&& edges2[eid].mark == edges1[eid].mark + 1
}

/// Every edge entering node `h` is marked.
pub open spec fn all_entering_marked(inc: Seq<EdgeId>, edges: Seq<Edge>) -> bool {
    forall|q: int|
        0 <= q < inc.len() ==> (#[trigger] edges[inc[q].0 as int]).mark == edges[inc[q].0 as int].tails@.len()
}

proof fn lemma_count_push(visits: Seq<EdgeId>, eid: EdgeId, e: int)
    ensures
        count_in(visits.push(eid), EdgeId(e as usize)) == count_in(visits, EdgeId(e as usize)) + if eid
            == EdgeId(e as usize) {
            1nat
        } else {
            0nat
        },
{
    assert(visits.push(eid).drop_last() =~= visits);
}

/// Visiting a marked edge changes nothing but the visits.
proof fn lemma_visit_marked(
    edges1: Seq<Edge>,
    nodes0: Seq<Node>,
    e0: Seq<Edge>,
    m0: Seq<usize>,
    sorted: Seq<NodeId>,
    q1: Seq<NodeId>,
    visits: Seq<EdgeId>,
    eid: EdgeId,
)
    requires
        graph_facts(nodes0, e0),
        topo_inv(edges1, nodes0, e0, m0, sorted, q1, visits),
        eid.0 < e0.len(),
        edges1[eid.0 as int].mark == edges1[eid.0 as int].tails@.len(),
        forall|e: int|
            0 <= e < e0.len() ==> count_in(visits.push(eid), EdgeId(e as usize)) <= occ(
                (#[trigger] e0[e]).tails@,
                sorted,
            ),
    ensures
        topo_inv(edges1, nodes0, e0, m0, sorted, q1, visits.push(eid)),
{
    assert forall|e: int| 0 <= e < e0.len() implies same_but_mark(#[trigger] edges1[e], e0[e])
        && edges1[e].mark == mark_after(
        m0[e] as nat,
        e0[e].tails@.len(),
        count_in(visits.push(eid), EdgeId(e as usize)),
    ) by {
        lemma_count_push(visits, eid, e);
    }
}

/// After counting a visit on an unmarked edge, every node but its head is
/// as ready as before.
proof fn lemma_visit_frame(
    edges1: Seq<Edge>,
    edges2: Seq<Edge>,
    nodes0: Seq<Node>,
    e0: Seq<Edge>,
    m0: Seq<usize>,
    eid: EdgeId,
)
    requires
        graph_facts(nodes0, e0),
        edges1.len() == e0.len(),
        eid.0 < e0.len(),
        forall|e: int| 0 <= e < e0.len() ==> same_but_mark(#[trigger] edges1[e], e0[e]),
        counted_once(edges1, edges2, eid.0 as int),
    ensures
        forall|v: int|
            0 <= v < nodes0.len() && v != e0[eid.0 as int].head.0 ==> ready(
                (#[trigger] nodes0[v]).incoming@,
                edges2,
                m0,
            ) == ready(nodes0[v].incoming@, edges1, m0),
{
    let s0 = shape(e0);
    assert forall|v: int| 0 <= v < nodes0.len() && v != e0[eid.0 as int].head.0 implies ready(
        (#[trigger] nodes0[v]).incoming@,
        edges2,
        m0,
    ) == ready(nodes0[v].incoming@, edges1, m0) by {
        lemma_incoming_heads(s0, v as usize);
        let iv = nodes0[v].incoming@;
        assert forall|k: int| 0 <= k < iv.len() implies (#[trigger] edges2[iv[k].0 as int]).mark
            == edges1[iv[k].0 as int].mark && edges2[iv[k].0 as int].tails
            == edges1[iv[k].0 as int].tails by {
            assert(incoming_of(s0, v as usize)[k] == iv[k]);
            assert(s0[iv[k].0 as int].0 == NodeId(v as usize));
            assert(iv[k].0 != eid.0);
        }
        lemma_ready_frame(iv, edges2, edges1, m0);
    }
}

/// Counting a visit on an unmarked edge, and queueing its head when that
/// marks every edge entering it, keeps the state.
proof fn lemma_visit_count(
    edges1: Seq<Edge>,
    edges2: Seq<Edge>,
    nodes0: Seq<Node>,
    e0: Seq<Edge>,
    m0: Seq<usize>,
    sorted: Seq<NodeId>,
    q1: Seq<NodeId>,
    q2: Seq<NodeId>,
    visits: Seq<EdgeId>,
    eid: EdgeId,
)
    requires
        graph_facts(nodes0, e0),
        topo_inv(edges1, nodes0, e0, m0, sorted, q1, visits),
        eid.0 < e0.len(),
        edges1[eid.0 as int].mark != edges1[eid.0 as int].tails@.len(),
        counted_once(edges1, edges2, eid.0 as int),
        forall|e: int|
            0 <= e < e0.len() ==> count_in(visits.push(eid), EdgeId(e as usize)) <= occ(
                (#[trigger] e0[e]).tails@,
                sorted,
            ),
        q2 == if edges2[eid.0 as int].mark == edges2[eid.0 as int].tails@.len()
            && all_entering_marked(nodes0[e0[eid.0 as int].head.0 as int].incoming@, edges2) {
            q1.push(e0[eid.0 as int].head)
        } else {
            q1
        },
    ensures
        topo_inv(edges2, nodes0, e0, m0, sorted, q2, visits.push(eid)),
{
    let s0 = shape(e0);
    let n = nodes0.len();
    let h = e0[eid.0 as int].head;
    let inc = nodes0[h.0 as int].incoming@;
    let all = sorted + q1;
    let all2 = sorted + q2;
    let vis2 = visits.push(eid);
    assert(edge_ok(e0[eid.0 as int], n));
    assert(same_but_mark(edges1[eid.0 as int], e0[eid.0 as int]));
    // marks
    assert forall|e: int| 0 <= e < e0.len() implies same_but_mark(#[trigger] edges2[e], e0[e])
        && edges2[e].mark == mark_after(
        m0[e] as nat,
        e0[e].tails@.len(),
        count_in(vis2, EdgeId(e as usize)),
    ) by {
        lemma_count_push(visits, eid, e);
        assert(same_but_mark(edges1[e], e0[e]));
    }
    // the head was not ready: this edge entered it unmarked
    lemma_incoming_has(s0, eid.0 as int);
    lemma_incoming_heads(s0, h.0);
    let w = choose|w: int| 0 <= w < inc.len() && inc[w] == eid;
    assert(edges1[inc[w].0 as int].mark != edges1[inc[w].0 as int].tails@.len());
    assert(!ready(inc, edges1, m0));
    assert(!all.contains(h));
    lemma_visit_frame(edges1, edges2, nodes0, e0, m0, eid);
    if q2 == q1 {
        // the head stays unready
        assert(!ready(inc, edges2, m0)) by {
            if edges2[eid.0 as int].mark != edges2[eid.0 as int].tails@.len() {
                assert(edges2[inc[w].0 as int].mark != edges2[inc[w].0 as int].tails@.len());
            } else {
                assert(!all_entering_marked(inc, edges2));
            }
        }
        assert forall|v: int| 0 <= v < n implies all2.contains(NodeId(v as usize)) == ready(
            (#[trigger] nodes0[v]).incoming@,
            edges2,
            m0,
        ) by {
            if v == h.0 {
                assert(NodeId(v as usize) == h);
            }
        }
    } else {
        assert(all2 =~= all.push(h));
        assert(m0[inc[w].0 as int] != edges2[inc[w].0 as int].tails@.len());
        assert(ready(inc, edges2, m0));
        assert forall|v: int| 0 <= v < n implies all2.contains(NodeId(v as usize)) == ready(
            (#[trigger] nodes0[v]).incoming@,
            edges2,
            m0,
        ) by {
            if v == h.0 {
                assert(NodeId(v as usize) == h);
                assert(all2[all.len() as int] == h);
            } else {
                assert(all2.contains(NodeId(v as usize)) == all.contains(NodeId(v as usize))) by {
                    if all2.contains(NodeId(v as usize)) {
                        let k = choose|k: int| 0 <= k < all2.len() && all2[k] == NodeId(v as usize);
                        assert(k < all.len());
                        assert(all[k] == all2[k]);
                    }
                    if all.contains(NodeId(v as usize)) {
                        let k = choose|k: int| 0 <= k < all.len() && all[k] == NodeId(v as usize);
                        assert(all2[k] == all[k]);
                    }
                }
            }
        }
        assert forall|k: int| 0 <= k < all2.len() implies (#[trigger] all2[k]).0 < n by {
            if k < all.len() {
                assert(all2[k] == all[k]);
            }
        }
        lemma_occ_prefix_all(sorted, q1, e0);
        assert forall|p: int, k: int|
            0 <= p < all2.len() && 0 <= k < nodes0[all2[p].0 as int].incoming@.len() implies {
            let e = (#[trigger] nodes0[all2[p].0 as int].incoming@[k]).0 as int;
            m0[e] != e0[e].tails@.len() ==> m0[e] + occ(e0[e].tails@, all2.take(p))
                >= e0[e].tails@.len()
        } by {
            if p < all.len() {
                assert(all2[p] == all[p]);
                assert(all2.take(p) =~= all.take(p));
            } else {
                assert(all2[p] == h);
                assert(all2.take(p) =~= all);
                let e = inc[k].0 as int;
                assert(incoming_of(s0, h.0)[k].0 < s0.len());
                assert(edges2[e].mark == edges2[e].tails@.len());
            }
        }
    }
}

/// Whether a visit completes its head, read off the marks before and after.
proof fn lemma_completes_marks(
    nodes0: Seq<Node>,
    e0: Seq<Edge>,
    m0: Seq<usize>,
    edges1: Seq<Edge>,
    edges2: Seq<Edge>,
    visits: Seq<EdgeId>,
    eid: EdgeId,
)
    requires
        graph_facts(nodes0, e0),
        m0 == marks(e0),
        eid.0 < e0.len(),
        edges1.len() == e0.len(),
        edges2.len() == e0.len(),
        forall|e: int|
            0 <= e < e0.len() ==> (#[trigger] edges1[e]).mark == mark_after(
                m0[e] as nat,
                e0[e].tails@.len(),
                count_in(visits, EdgeId(e as usize)),
            ),
        forall|e: int|
            0 <= e < e0.len() ==> (#[trigger] edges2[e]).mark == mark_after(
                m0[e] as nat,
                e0[e].tails@.len(),
                count_in(visits.push(eid), EdgeId(e as usize)),
            ),
        forall|e: int| 0 <= e < e0.len() ==> (#[trigger] edges2[e]).tails == e0[e].tails,
    ensures
        completes(nodes0, e0, visits.push(eid), visits.len() as int) == (edges1[eid.0 as int].mark
            != e0[eid.0 as int].tails@.len() && all_entering_marked(
            nodes0[e0[eid.0 as int].head.0 as int].incoming@,
            edges2,
        )),
{
    let v2 = visits.push(eid);
    let t = visits.len() as int;
    assert(v2.take(t) =~= visits);
    assert(v2.take(t + 1) =~= v2);
    assert(v2[t] == eid);
    let h = e0[eid.0 as int].head;
    assert(edge_ok(e0[eid.0 as int], nodes0.len()));
    let inc = nodes0[h.0 as int].incoming@;
    lemma_incoming_heads(shape(e0), h.0);
    assert(inc == incoming_of(shape(e0), h.0));
    assert forall|q: int| 0 <= q < inc.len() implies (mark_by(e0, (#[trigger] inc[q]).0 as int, v2)
        == e0[inc[q].0 as int].tails@.len()) == (edges2[inc[q].0 as int].mark
        == edges2[inc[q].0 as int].tails@.len()) by {
        assert(incoming_of(shape(e0), h.0)[q].0 < shape(e0).len());
    }
}

/// Visits a tail of edge `eid`: unless the edge is marked, counts the visit,
/// and when that marks it and every edge entering its head is marked,
/// queues the head.
fn visit_edge(
    hg: &mut Hypergraph,
    eid: EdgeId,
    queue: &mut VecDeque<NodeId>,
    Ghost(nodes0): Ghost<Seq<Node>>,
    Ghost(e0): Ghost<Seq<Edge>>,
    Ghost(m0): Ghost<Seq<usize>>,
    Ghost(sorted): Ghost<Seq<NodeId>>,
    Ghost(visits): Ghost<Seq<EdgeId>>,
)
    requires
        old(hg).wf(),
        old(hg).nodes@ == nodes0,
        graph_facts(nodes0, e0),
        topo_inv(old(hg).edges@, nodes0, e0, m0, sorted, old(queue)@, visits),
        eid.0 < e0.len(),
        forall|e: int|
            0 <= e < e0.len() ==> count_in(visits.push(eid), EdgeId(e as usize)) <= occ(
                (#[trigger] e0[e]).tails@,
                sorted,
            ),
    ensures
        final(hg).wf(),
        final(hg).nodes == old(hg).nodes,
        final(hg).nodes_by_id == old(hg).nodes_by_id,
        topo_inv(final(hg).edges@, nodes0, e0, m0, sorted, final(queue)@, visits.push(eid)),
        final(queue)@ == old(queue)@ + if completes(nodes0, e0, visits.push(eid), visits.len() as int) {
            seq![e0[eid.0 as int].head]
        } else {
            Seq::empty()
        },
{
    let ghost edges1 = hg.edges@;
    let ghost q1 = queue@;
    let ghost n = nodes0.len();
    let ghost h = e0[eid.0 as int].head;
    proof {
        assert(edge_ok(edges1[eid.0 as int], n));
        assert(edges1[eid.0 as int].tails.len() == edges1[eid.0 as int].tails@.len());
        assert(same_but_mark(edges1[eid.0 as int], e0[eid.0 as int]));
    }
    if !hg.edges[eid.0].marked() {
        hg.edges[eid.0].mark += 1;
        let ghost edges2 = hg.edges@;
        proof {
            assert(counted_once(edges1, edges2, eid.0 as int));
        }
        if hg.edges[eid.0].marked() {
            let head = hg.edges[eid.0].head;
            let mut all_marked = true;
            let mut z: usize = 0;
            proof {
                lemma_incoming_heads(shape(e0), h.0);
                assert(edge_ok(e0[eid.0 as int], n));
            }
            while z < hg.nodes[head.0].incoming.len()
                invariant
                    head == h,
                    h.0 < nodes0.len(),
                    hg.nodes@ == nodes0,
                    hg.edges@ == edges2,
                    edges2.len() == e0.len(),
                    nodes0[h.0 as int].incoming@ == incoming_of(shape(e0), h.0),
                    forall|k: int|
                        0 <= k < incoming_of(shape(e0), h.0).len() ==> (#[trigger] incoming_of(
                            shape(e0),
                            h.0,
                        )[k]).0 < shape(e0).len(),
                    z <= nodes0[h.0 as int].incoming@.len(),
                    all_marked == all_entering_marked(
                        nodes0[h.0 as int].incoming@.take(z as int),
                        edges2,
                    ),
                decreases nodes0[h.0 as int].incoming@.len() - z,
            {
                let ie = hg.nodes[head.0].incoming[z];
                let ghost inc = nodes0[h.0 as int].incoming@;
                proof {
                    assert(ie == incoming_of(shape(e0), h.0)[z as int]);
                    assert(inc.take(z + 1).drop_last() =~= inc.take(z as int));
                    assert(inc.take(z + 1)[z as int] == ie);
                }
                if !hg.edges[ie.0].marked() {
                    all_marked = false;
                    proof {
                        assert(!all_entering_marked(inc.take(z + 1), edges2)) by {
                            assert(inc.take(z + 1)[z as int] == ie);
                        }
                    }
                } else {
                    proof {
                        if all_marked {
                            assert forall|q: int| 0 <= q < z + 1 implies (#[trigger] edges2[inc.take(
                                z + 1,
                            )[q].0 as int]).mark == edges2[inc.take(z + 1)[q].0 as int].tails@.len() by {
                                if q < z {
                                    assert(inc.take(z + 1)[q] == inc.take(z as int)[q]);
                                }
                            }
                        } else {
                            let q = choose|q: int|
                                0 <= q < z && !((#[trigger] edges2[inc.take(z as int)[q].0 as int]).mark
                                    == edges2[inc.take(z as int)[q].0 as int].tails@.len());
                            assert(inc.take(z + 1)[q] == inc.take(z as int)[q]);
                        }
                    }
                }
                z += 1;
            }
            proof {
                assert(nodes0[h.0 as int].incoming@.take(z as int) =~= nodes0[h.0 as int].incoming@);
            }
            if all_marked {
                queue.push_back(head);
            }
        }
        proof {
            lemma_visit_count(edges1, edges2, nodes0, e0, m0, sorted, q1, queue@, visits, eid);
            lemma_completes_marks(nodes0, e0, m0, edges1, edges2, visits, eid);
            let inc = nodes0[h.0 as int].incoming@;
            if edges2[eid.0 as int].mark != edges2[eid.0 as int].tails@.len() {
                lemma_incoming_has(shape(e0), eid.0 as int);
                lemma_incoming_heads(shape(e0), h.0);
                let w = choose|w: int| 0 <= w < inc.len() && inc[w] == eid;
                assert(!all_entering_marked(inc, edges2));
            }
            assert(q1 + Seq::<NodeId>::empty() =~= q1);
            assert(q1.push(h) =~= q1 + seq![h]);
        }
    } else {
        proof {
            lemma_visit_marked(edges1, nodes0, e0, m0, sorted, q1, visits, eid);
            let v2 = visits.push(eid);
            assert(v2.take(visits.len() as int) =~= visits);
            assert(!completes(nodes0, e0, v2, visits.len() as int));
            assert(q1 + Seq::<NodeId>::empty() =~= q1);
        }
    }
    proof {
        let edges3 = hg.edges@;
        assert(shape(edges3) =~= shape(edges1));
        assert forall|e: int| 0 <= e < edges3.len() implies edge_ok(#[trigger] edges3[e], n) by {
            assert(edge_ok(edges1[e], n));
        }
    }
}

/// The nodes taken so far come first among all nodes seen.
proof fn lemma_occ_prefix_all(sorted: Seq<NodeId>, queue: Seq<NodeId>, e0: Seq<Edge>)
    ensures
        forall|e: int|
            0 <= e < e0.len() ==> occ((#[trigger] e0[e]).tails@, sorted) <= occ(
                e0[e].tails@,
                sorted + queue,
            ),
{
    assert forall|e: int| 0 <= e < e0.len() implies occ((#[trigger] e0[e]).tails@, sorted) <= occ(
        e0[e].tails@,
        sorted + queue,
    ) by {
        assert((sorted + queue).take(sorted.len() as int) =~= sorted);
        lemma_occ_prefix(e0[e].tails@, sorted + queue, sorted.len() as int);
    }
}

} // verus!
verus! {

/// `order` is what the topological sort returns for the nodes `nodes` and
/// the edges `e0`, leaving the edges `e1`: each edge keeps its head, tails,
/// features and rule, and its mark counts the visits of its tails by the
/// nodes of `order` until all are visited; the nodes of `order` are
/// distinct nodes of the graph, exactly those that are ready under the new
/// marks, and each comes after the tails of the edges entering it that
/// were not marked at the start.
pub open spec fn topo_order(order: Seq<NodeId>, nodes: Seq<Node>, e0: Seq<Edge>, e1: Seq<Edge>) -> bool {
    &&& e1.len() == e0.len()
    &&& forall|e: int|
        0 <= e < e0.len() ==> same_but_mark(#[trigger] e1[e], e0[e]) && e1[e].mark == mark_after(
            e0[e].mark as nat,
            e0[e].tails@.len(),
            occ(e0[e].tails@, order),
        )
    &&& order.no_duplicates()
    &&& forall|k: int| 0 <= k < order.len() ==> (#[trigger] order[k]).0 < nodes.len()
    &&& forall|v: int|
        0 <= v < nodes.len() ==> order.contains(NodeId(v as usize)) == ready(
            (#[trigger] nodes[v]).incoming@,
            e1,
            marks(e0),
        )
    &&& tails_first(order, nodes, e0, marks(e0))
}

/// Orders the nodes so that each comes after the tails of the edges that
/// enter it (Kahn's algorithm): first the nodes that no edge enters, in
/// order; then, taking the queued nodes first come first, each tail visit
/// of an edge counts towards its mark until the edge is marked, and a head
/// is queued when that marks every edge entering it. Returns the nodes in
/// the order they were taken (`kahn_order`, which no other order meets);
/// the edges keep their marks.
pub fn topological_sort(hg: &mut Hypergraph) -> (sorted: Vec<NodeId>)
    requires
        old(hg).wf(),
    ensures
        final(hg).wf(),
        final(hg).nodes == old(hg).nodes,
        final(hg).nodes_by_id == old(hg).nodes_by_id,
        topo_order(sorted@, old(hg).nodes@, old(hg).edges@, final(hg).edges@),
        kahn_order(sorted@, old(hg).nodes@, old(hg).edges@),
{
    let ghost nodes0 = hg.nodes@;
    let ghost e0 = hg.edges@;
    let ghost m0 = marks(e0);
    let nn = hg.nodes.len();
    let ne = hg.edges.len();
    proof {
        assert forall|e: int| 0 <= e < e0.len() implies edge_ok(#[trigger] e0[e], nodes0.len()) by {}
        assert(graph_facts(nodes0, e0));
    }
    let mut sorted: Vec<NodeId> = Vec::new();
    let mut queue: VecDeque<NodeId> = VecDeque::new();
    let mut i: usize = 0;
    while i < hg.nodes.len()
        invariant
            hg.wf(),
            hg.nodes@ == nodes0,
            hg.nodes == old(hg).nodes,
            hg.edges@ == e0,
            hg.nodes_by_id == old(hg).nodes_by_id,
            nn == nodes0.len(),
            i <= nodes0.len(),
            sorted@.len() == 0,
            queue@.no_duplicates(),
            forall|k: int|
                0 <= k < queue@.len() ==> (#[trigger] queue@[k]).0 < i && nodes0[queue@[k].0 as int].incoming@.len()
                    == 0,
            forall|v: int|
                0 <= v < i ==> queue@.contains(NodeId(v as usize)) == ((#[trigger] nodes0[v]).incoming@.len()
                    == 0),
            queue@ == roots(nodes0.take(i as int)),
        decreases nodes0.len() - i,
    {
        proof {
            assert(nodes0.take(i + 1).drop_last() =~= nodes0.take(i as int));
            assert(nodes0.take(i + 1).last() == nodes0[i as int]);
        }
        if hg.nodes[i].incoming.len() == 0 {
            let ghost q0 = queue@;
            queue.push_back(NodeId(i));
            proof {
                assert forall|k: int| 0 <= k < queue@.len() implies (#[trigger] queue@[k]).0 < i + 1
                    && nodes0[queue@[k].0 as int].incoming@.len() == 0 by {
                    if k < q0.len() {
                        assert(queue@[k] == q0[k]);
                    }
                }
                assert forall|v: int| 0 <= v < i + 1 implies queue@.contains(NodeId(v as usize)) == (
                (#[trigger] nodes0[v]).incoming@.len() == 0) by {
                    if v < i {
                        if queue@.contains(NodeId(v as usize)) {
                            let k = choose|k: int| 0 <= k < queue@.len() && queue@[k] == NodeId(v as usize);
                            if k < q0.len() {
                                assert(q0[k] == queue@[k]);
                            }
                        }
                        if q0.contains(NodeId(v as usize)) {
                            let k = choose|k: int| 0 <= k < q0.len() && q0[k] == NodeId(v as usize);
                            assert(queue@[k] == q0[k]);
                        }
                    } else {
                        assert(queue@[q0.len() as int] == NodeId(i));
                    }
                }
            }
        } else {
            proof {
                assert(!queue@.contains(NodeId(i)));
            }
        }
        i += 1;
    }
    let ghost mut visits: Seq<EdgeId> = Seq::empty();
    proof {
        let all = sorted@ + queue@;
        assert(all =~= queue@);
        assert(nodes0.take(nodes0.len() as int) =~= nodes0);
        assert(roots(nodes0) + completed(nodes0, e0, visits) =~= roots(nodes0));
        assert forall|v: int| 0 <= v < nodes0.len() implies all.contains(NodeId(v as usize)) == ready(
            (#[trigger] nodes0[v]).incoming@,
            e0,
            m0,
        ) by {
            let inc = nodes0[v].incoming@;
            lemma_incoming_heads(shape(e0), v as usize);
            assert(inc == incoming_of(shape(e0), v as usize));
            if inc.len() > 0 && ready(inc, e0, m0) {
                let k = choose|k: int|
                    0 <= k < inc.len() && m0[inc[k].0 as int] != (#[trigger] e0[inc[k].0 as int]).tails@.len();
                assert(incoming_of(shape(e0), v as usize)[k].0 < shape(e0).len());
                assert(m0[inc[k].0 as int] == e0[inc[k].0 as int].mark);
                assert(e0[inc[k].0 as int].mark == e0[inc[k].0 as int].tails@.len());
            }
        }
        assert forall|e: int| 0 <= e < e0.len() implies same_but_mark(#[trigger] e0[e], e0[e])
            && e0[e].mark == mark_after(
            m0[e] as nat,
            e0[e].tails@.len(),
            count_in(visits, EdgeId(e as usize)),
        ) by {
            assert(edge_ok(e0[e], nodes0.len()));
        }
        assert(topo_inv(e0, nodes0, e0, m0, sorted@, queue@, visits));
    }
    while queue.len() > 0
        invariant
            hg.wf(),
            hg.nodes@ == nodes0,
            hg.nodes == old(hg).nodes,
            hg.nodes_by_id == old(hg).nodes_by_id,
            graph_facts(nodes0, e0),
            m0 == marks(e0),
            topo_inv(hg.edges@, nodes0, e0, m0, sorted@, queue@, visits),
            forall|e: int|
                0 <= e < e0.len() ==> count_in(visits, EdgeId(e as usize)) == occ(
                    (#[trigger] e0[e]).tails@,
                    sorted@,
                ),
            visits == visits_of(sorted@, nodes0),
            sorted@ + queue@ == roots(nodes0) + completed(nodes0, e0, visits),
            forall|p: int|
                0 <= p < sorted@.len() ==> p < roots(nodes0).len() + completed(
                    nodes0,
                    e0,
                    visits_of(#[trigger] sorted@.take(p), nodes0),
                ).len(),
        decreases nodes0.len() - sorted@.len(),
    {
        proof {
            lemma_nodes_bound(sorted@ + queue@, nodes0.len());
        }
        let ghost sb = sorted@;
        let ghost qb = queue@;
        let nid = queue.pop_front().unwrap();
        sorted.push(nid);
        let ghost v0 = visits;
        let ghost out = nodes0[nid.0 as int].outgoing@;
        proof {
            assert(sorted@ + queue@ =~= sb + qb);
            assert((sb + qb)[sb.len() as int] == nid);
            assert forall|p: int|
                0 <= p < sorted@.len() implies p < roots(nodes0).len() + completed(
                nodes0,
                e0,
                visits_of(#[trigger] sorted@.take(p), nodes0),
            ).len() by {
                if p < sb.len() {
                    assert(sorted@.take(p) =~= sb.take(p));
                } else {
                    assert(sorted@.take(p) =~= sb);
                }
            }
            assert(nid.0 < nodes0.len());
            assert forall|e: int| 0 <= e < e0.len() implies count_in(visits, EdgeId(e as usize))
                <= occ((#[trigger] e0[e]).tails@, sorted@) by {
                lemma_occ_push(e0[e].tails@, sb, nid);
            }
            assert forall|e: int| 0 <= e < e0.len() implies (#[trigger] shape(hg.edges@)[e]) == shape(
                e0,
            )[e] by {
                assert(same_but_mark(hg.edges@[e], e0[e]));
            }
            assert(shape(hg.edges@) =~= shape(e0));
            assert(out == outgoing_of(shape(e0), nid.0));
            lemma_outgoing_edges(shape(e0), nid.0);
            assert(out.take(0) =~= Seq::<EdgeId>::empty());
            assert(v0 + out.take(0) =~= v0);
        }
        let mut k: usize = 0;
        while k < hg.nodes[nid.0].outgoing.len()
            invariant
                hg.wf(),
                hg.nodes@ == nodes0,
                hg.nodes == old(hg).nodes,
            hg.nodes == old(hg).nodes,
                hg.nodes_by_id == old(hg).nodes_by_id,
                graph_facts(nodes0, e0),
                m0 == marks(e0),
                nid.0 < nodes0.len(),
                out == nodes0[nid.0 as int].outgoing@,
                out == outgoing_of(shape(e0), nid.0),
                forall|q: int| 0 <= q < out.len() ==> (#[trigger] out[q]).0 < e0.len(),
                k <= out.len(),
                sorted@ == sb.push(nid),
                visits == v0 + out.take(k as int),
                forall|e: int|
                    0 <= e < e0.len() ==> count_in(v0, EdgeId(e as usize)) == occ(
                        (#[trigger] e0[e]).tails@,
                        sb,
                    ),
                topo_inv(hg.edges@, nodes0, e0, m0, sorted@, queue@, visits),
                v0 == visits_of(sb, nodes0),
                sorted@ + queue@ == roots(nodes0) + completed(nodes0, e0, visits),
            decreases out.len() - k,
        {
            let eid = hg.nodes[nid.0].outgoing[k];
            proof {
                assert(eid == out[k as int]);
                assert(out.take(k + 1) =~= out.take(k as int).push(eid));
                assert(visits.push(eid) =~= v0 + out.take(k + 1));
                assert forall|e: int| 0 <= e < e0.len() implies count_in(
                    visits.push(eid),
                    EdgeId(e as usize),
                ) <= occ((#[trigger] e0[e]).tails@, sorted@) by {
                    crate::hypergraph::lemma_count_concat(v0, out.take(k + 1), EdgeId(e as usize));
                    lemma_count_prefix(out, k + 1, EdgeId(e as usize));
                    lemma_outgoing_count(shape(e0), nid.0, e);
                    assert(shape(e0)[e].1 == e0[e].tails@);
                    lemma_occ_push(e0[e].tails@, sb, nid);
                }
            }
            let ghost qa = queue@;
            visit_edge(
                hg,
                eid,
                &mut queue,
                Ghost(nodes0),
                Ghost(e0),
                Ghost(m0),
                Ghost(sorted@),
                Ghost(visits),
            );
            proof {
                let vb = visits;
                visits = visits.push(eid);
                assert(visits.drop_last() =~= vb);
                assert(visits.last() == eid);
                let x = if completes(nodes0, e0, visits, vb.len() as int) {
                    seq![e0[eid.0 as int].head]
                } else {
                    Seq::empty()
                };
                assert(completed(nodes0, e0, visits) == completed(nodes0, e0, vb) + x);
                assert(queue@ == qa + x);
                assert(sorted@ + queue@ =~= (sorted@ + qa) + x);
                assert(roots(nodes0) + completed(nodes0, e0, visits) =~= (roots(nodes0) + completed(
                    nodes0,
                    e0,
                    vb,
                )) + x);
            }
            k += 1;
        }
        proof {
            assert(out.take(out.len() as int) =~= out);
            assert(sorted@.drop_last() =~= sb);
            assert(visits_of(sorted@, nodes0) == visits_of(sb, nodes0) + out);
            assert forall|e: int| 0 <= e < e0.len() implies count_in(visits, EdgeId(e as usize)) == occ(
                (#[trigger] e0[e]).tails@,
                sorted@,
            ) by {
                crate::hypergraph::lemma_count_concat(v0, out, EdgeId(e as usize));
                lemma_outgoing_count(shape(e0), nid.0, e);
                assert(shape(e0)[e].1 == e0[e].tails@);
                lemma_occ_push(e0[e].tails@, sb, nid);
            }
        }
    }
    proof {
        assert(sorted@ + queue@ =~= sorted@);
    }
    sorted
}

} // verus!
verus! {

// ------------------------------------------------------------ Kahn's order

/// The nodes that no edge enters, in order.
pub open spec fn roots(nodes: Seq<Node>) -> Seq<NodeId>
    decreases nodes.len(),
{
    if nodes.len() == 0 {
        Seq::empty()
    } else {
        roots(nodes.drop_last()) + if nodes.last().incoming@.len() == 0 {
            seq![NodeId((nodes.len() - 1) as usize)]
        } else {
            Seq::empty()
        }
    }
}

/// The edges that taking the nodes of `order` visits: those leaving each
/// node, in turn.
pub open spec fn visits_of(order: Seq<NodeId>, nodes: Seq<Node>) -> Seq<EdgeId>
    decreases order.len(),
{
    if order.len() == 0 {
        Seq::empty()
    } else {
        visits_of(order.drop_last(), nodes) + nodes[order.last().0 as int].outgoing@
    }
}

/// The mark of edge `e` of `e0` after the tail visits `v`.
pub open spec fn mark_by(e0: Seq<Edge>, e: int, v: Seq<EdgeId>) -> nat {
    mark_after(e0[e].mark as nat, e0[e].tails@.len(), count_in(v, EdgeId(e as usize)))
}

/// The visit `v[t]` counts on an edge not yet marked, and after it every
/// edge entering that edge's head is marked.
pub open spec fn completes(nodes: Seq<Node>, e0: Seq<Edge>, v: Seq<EdgeId>, t: int) -> bool {
    let e = v[t].0 as int;
    let inc = nodes[e0[e].head.0 as int].incoming@;
    &&& mark_by(e0, e, v.take(t)) != e0[e].tails@.len()
    &&& forall|q: int|
        0 <= q < inc.len() ==> mark_by(e0, (#[trigger] inc[q]).0 as int, v.take(t + 1))
            == e0[inc[q].0 as int].tails@.len()
}

/// The heads that the visits `v` complete, in order.
pub open spec fn completed(nodes: Seq<Node>, e0: Seq<Edge>, v: Seq<EdgeId>) -> Seq<NodeId>
    decreases v.len(),
{
    if v.len() == 0 {
        Seq::empty()
    } else {
        completed(nodes, e0, v.drop_last()) + if completes(nodes, e0, v, v.len() - 1) {
            seq![e0[v.last().0 as int].head]
        } else {
            Seq::empty()
        }
    }
}

/// `order` is the order of Kahn's algorithm with a first-in first-out
/// queue: the nodes that no edge enters, in order, then the heads in the
/// order in which the visits of the edges leaving the nodes taken complete
/// them; and each node is taken only after it was queued.
pub open spec fn kahn_order(order: Seq<NodeId>, nodes: Seq<Node>, e0: Seq<Edge>) -> bool {
    &&& order == roots(nodes) + completed(nodes, e0, visits_of(order, nodes))
    &&& forall|p: int|
        0 <= p < order.len() ==> p < roots(nodes).len() + completed(
            nodes,
            e0,
            visits_of(#[trigger] order.take(p), nodes),
        ).len()
}

/// The heads completed by a prefix of the visits come first.
proof fn lemma_completed_prefix(nodes: Seq<Node>, e0: Seq<Edge>, v: Seq<EdgeId>, k: int)
    requires
        0 <= k <= v.len(),
    ensures
        completed(nodes, e0, v.take(k)).len() <= completed(nodes, e0, v).len(),
        completed(nodes, e0, v).take(completed(nodes, e0, v.take(k)).len() as int) == completed(
            nodes,
            e0,
            v.take(k),
        ),
    decreases v.len() - k,
{
    let c = completed(nodes, e0, v);
    if k == v.len() {
        assert(v.take(k) =~= v);
        assert(c.take(c.len() as int) =~= c);
    } else {
        let d = v.drop_last();
        assert(d.take(k) =~= v.take(k));
        lemma_completed_prefix(nodes, e0, d, k);
        let cd = completed(nodes, e0, d);
        let ck = completed(nodes, e0, v.take(k));
        assert(c.take(cd.len() as int) =~= cd);
        assert(c.take(ck.len() as int) =~= cd.take(ck.len() as int));
    }
}

/// The visits of a prefix of the nodes come first.
proof fn lemma_visits_prefix(order: Seq<NodeId>, nodes: Seq<Node>, p: int)
    requires
        0 <= p <= order.len(),
    ensures
        visits_of(order.take(p), nodes).len() <= visits_of(order, nodes).len(),
        visits_of(order, nodes).take(visits_of(order.take(p), nodes).len() as int) == visits_of(
            order.take(p),
            nodes,
        ),
    decreases order.len() - p,
{
    let v = visits_of(order, nodes);
    if p == order.len() {
        assert(order.take(p) =~= order);
        assert(v.take(v.len() as int) =~= v);
    } else {
        let d = order.drop_last();
        assert(d.take(p) =~= order.take(p));
        lemma_visits_prefix(d, nodes, p);
        let vd = visits_of(d, nodes);
        let vp = visits_of(order.take(p), nodes);
        assert(v.take(vd.len() as int) =~= vd);
        assert(v.take(vp.len() as int) =~= vd.take(vp.len() as int));
    }
}

/// What `order` holds at `p` is what the nodes before `p` decide.
proof fn lemma_kahn_at(order: Seq<NodeId>, nodes: Seq<Node>, e0: Seq<Edge>, p: int)
    requires
        kahn_order(order, nodes, e0),
        0 <= p < order.len(),
    ensures
        order[p] == (roots(nodes) + completed(nodes, e0, visits_of(order.take(p), nodes)))[p],
{
    let v = visits_of(order, nodes);
    let vp = visits_of(order.take(p), nodes);
    lemma_visits_prefix(order, nodes, p);
    assert(vp == v.take(vp.len() as int));
    lemma_completed_prefix(nodes, e0, v, vp.len() as int);
    let r = roots(nodes);
    let c = completed(nodes, e0, v);
    let cp = completed(nodes, e0, vp);
    assert(p < r.len() + cp.len());
    if p >= r.len() {
        assert(c.take(cp.len() as int)[p - r.len()] == c[p - r.len()]);
    }
}

/// Kahn's order is unique: it is what the topological sort returns.
pub proof fn lemma_kahn_unique(o1: Seq<NodeId>, o2: Seq<NodeId>, nodes: Seq<Node>, e0: Seq<Edge>)
    requires
        kahn_order(o1, nodes, e0),
        kahn_order(o2, nodes, e0),
    ensures
        o1 == o2,
{
    let m = if o1.len() <= o2.len() {
        o1.len()
    } else {
        o2.len()
    };
    assert forall|p: int| 0 <= p <= m implies #[trigger] o1.take(p) == o2.take(p) by {
        lemma_kahn_prefix(o1, o2, nodes, e0, p);
    }
    assert(o1.take(m as int) == o2.take(m as int));
    if o1.len() < o2.len() {
        assert(o1.take(m as int) =~= o1);
        assert(o2.take(m as int) == o1);
        assert(visits_of(o2.take(m as int), nodes) == visits_of(o1, nodes));
    } else if o2.len() < o1.len() {
        assert(o2.take(m as int) =~= o2);
        assert(o1.take(m as int) == o2);
        assert(visits_of(o1.take(m as int), nodes) == visits_of(o2, nodes));
    } else {
        assert(o1 =~= o1.take(m as int));
        assert(o2 =~= o2.take(m as int));
    }
}

proof fn lemma_kahn_prefix(o1: Seq<NodeId>, o2: Seq<NodeId>, nodes: Seq<Node>, e0: Seq<Edge>, p: int)
    requires
        kahn_order(o1, nodes, e0),
        kahn_order(o2, nodes, e0),
        0 <= p <= o1.len(),
        p <= o2.len(),
    ensures
        o1.take(p) == o2.take(p),
    decreases p,
{
    if p > 0 {
        lemma_kahn_prefix(o1, o2, nodes, e0, p - 1);
        lemma_kahn_at(o1, nodes, e0, p - 1);
        lemma_kahn_at(o2, nodes, e0, p - 1);
        assert(o1.take(p) =~= o1.take(p - 1).push(o1[p - 1]));
        assert(o2.take(p) =~= o2.take(p - 1).push(o2[p - 1]));
    } else {
        assert(o1.take(p) =~= o2.take(p));
    }
}

} // verus!
verus! {

// --------------------------------------------------------------- derivation

/// Two nodes carry the same category over the same span.
pub open spec fn same_label(a: Node, b: Node) -> bool {
    &&& a.symbol@ == b.symbol@
    &&& a.left == b.left
    &&& a.right == b.right
}

/// The first position in `path`, from `k` on, of an edge whose head has
/// `node`'s label; `None` when there is none, or when an entry before it
/// is not an edge of the graph.
pub open spec fn first_edge_for(hg: Hypergraph, path: Seq<EdgeId>, node: Node, k: int) -> Option<int>
    decreases path.len() - k,
{
    if k < 0 || k >= path.len() {
        None
    } else if path[k].0 >= hg.edges@.len() {
        None
    } else if same_label(hg.nodes@[hg.edges@[path[k].0 as int].head.0 as int], node) {
        Some(k)
    } else {
        first_edge_for(hg, path, node, k + 1)
    }
}

/// The first position of `x` in `s` from `k` on.
pub open spec fn position_of(s: Seq<i32>, x: i32, k: int) -> Option<int>
    decreases s.len() - k,
{
    if k < 0 || k >= s.len() {
        None
    } else if s[k] == x {
        Some(k)
    } else {
        position_of(s, x, k + 1)
    }
}

/// The words that node `cur` derives along `path`, with at most `fuel`
/// nested steps: the first edge of `path` whose head has `cur`'s label
/// spells out its rule's target, a word for itself and a nonterminal for
/// what the tail linked to it derives. `None` when a step fails.
pub open spec fn derivation(hg: Hypergraph, path: Seq<EdgeId>, cur: NodeId, fuel: nat) -> Option<
    Seq<Seq<char>>,
>
    decreases fuel, 0nat, 0nat,
{
    if fuel == 0 || cur.0 >= hg.nodes@.len() {
        None
    } else {
        match first_edge_for(hg, path, hg.nodes@[cur.0 as int], 0) {
            None => None,
            Some(p) => {
                let e = hg.edges@[path[p].0 as int];
                target_words(hg, path, e, e.rule.target@.len(), (fuel - 1) as nat)
            },
        }
    }
}

/// The words that the first `k` symbols of edge `e`'s target spell out.
pub open spec fn target_words(hg: Hypergraph, path: Seq<EdgeId>, e: Edge, k: nat, fuel: nat) -> Option<
    Seq<Seq<char>>,
>
    decreases fuel, 1nat, k,
{
    if k == 0 {
        Some(Seq::empty())
    } else {
        match target_words(hg, path, e, (k - 1) as nat, fuel) {
            None => None,
            Some(ws) => match e.rule.target@[k - 1]@ {
                SymbolView::T(w) => Some(ws.push(w)),
                SymbolView::NT(_, idx) => match position_of(e.rule.map@, idx, 0) {
                    None => None,
                    Some(q) => if q < e.tails@.len() {
                        match derivation(hg, path, e.tails@[q], fuel) {
                            None => None,
                            Some(ws2) => Some(ws + ws2),
                        }
                    } else {
                        None
                    },
                },
            },
        }
    }
}

/// A found position holds an edge of the graph whose head has the label.
pub proof fn lemma_first_edge_for(hg: Hypergraph, path: Seq<EdgeId>, node: Node, k: int)
    requires
        first_edge_for(hg, path, node, k) is Some,
    ensures
        k <= first_edge_for(hg, path, node, k)->0 < path.len(),
        path[first_edge_for(hg, path, node, k)->0].0 < hg.edges@.len(),
    decreases path.len() - k,
{
    if k >= 0 && k < path.len() && path[k].0 < hg.edges@.len() && !same_label(
        hg.nodes@[hg.edges@[path[k].0 as int].head.0 as int],
        node,
    ) {
        lemma_first_edge_for(hg, path, node, k + 1);
    }
}

/// A target that spells out words spells them out symbol by symbol.
pub proof fn lemma_target_prefix(hg: Hypergraph, path: Seq<EdgeId>, e: Edge, k: nat, m: nat, fuel: nat)
    requires
        k <= m,
        target_words(hg, path, e, m, fuel) is Some,
    ensures
        target_words(hg, path, e, k, fuel) is Some,
    decreases m - k,
{
    if k < m {
        lemma_target_prefix(hg, path, e, k, (m - 1) as nat, fuel);
    }
}

/// Finds the first edge of `path` whose head has the label of node `cur`.
fn find_edge_for(hg: &Hypergraph, path: &[EdgeId], cur: NodeId) -> (r: Option<usize>)
    requires
        hg.wf(),
        cur.0 < hg.nodes@.len(),
    ensures
        match r {
            Some(p) => p < path@.len() && first_edge_for(*hg, path@, hg.nodes@[cur.0 as int], 0)
                == Some(p as int),
            None => first_edge_for(*hg, path@, hg.nodes@[cur.0 as int], 0) is None,
        },
{
    let node = &hg.nodes[cur.0];
    let mut k: usize = 0;
    while k < path.len()
        invariant
            hg.wf(),
            cur.0 < hg.nodes@.len(),
            *node == hg.nodes@[cur.0 as int],
            k <= path@.len(),
            first_edge_for(*hg, path@, *node, 0) == first_edge_for(*hg, path@, *node, k as int),
        decreases path.len() - k,
    {
        let eid = path[k];
        if eid.0 >= hg.edges.len() {
            return None;
        }
        let e = &hg.edges[eid.0];
        proof {
            assert(edge_ok(hg.edges@[eid.0 as int], hg.nodes@.len()));
        }
        let h = &hg.nodes[e.head.0];
        if crate::text::str_eq(h.symbol.as_str(), node.symbol.as_str()) && h.left == node.left
            && h.right == node.right {
            return Some(k);
        }
        k += 1;
    }
    None
}

/// The first position of `x` in `s`.
fn position_in(s: &Vec<i32>, x: i32) -> (r: Option<usize>)
    ensures
        match r {
            Some(q) => q < s@.len() && position_of(s@, x, 0) == Some(q as int),
            None => position_of(s@, x, 0) is None,
        },
{
    let mut k: usize = 0;
    while k < s.len()
        invariant
            k <= s@.len(),
            position_of(s@, x, 0) == position_of(s@, x, k as int),
        decreases s.len() - k,
    {
        if s[k] == x {
            return Some(k);
        }
        k += 1;
    }
    None
}

/// Appends to `carry` the words that node `cur` derives along `path`
/// within `depth` nested steps; tells whether that succeeded.
fn derive_rec(hg: &Hypergraph, path: &[EdgeId], cur: NodeId, carry: &mut Vec<String>, depth: usize) -> (ok:
    bool)
    requires
        hg.wf(),
    ensures
        ok == derivation(*hg, path@, cur, depth as nat) is Some,
        ok ==> crate::text::string_views(final(carry)@) == crate::text::string_views(old(carry)@)
            + derivation(*hg, path@, cur, depth as nat)->0,
    decreases depth,
{
    if depth == 0 || cur.0 >= hg.nodes.len() {
        return false;
    }
    let p = match find_edge_for(hg, path, cur) {
        None => {
            return false;
        },
        Some(p) => p,
    };
    proof {
        lemma_first_edge_for(*hg, path@, hg.nodes@[cur.0 as int], 0);
    }
    let e = &hg.edges[path[p].0];
    let ghost fuel = (depth - 1) as nat;
    let ghost c0 = crate::text::string_views(carry@);
    proof {
        assert(derivation(*hg, path@, cur, depth as nat) == target_words(
            *hg,
            path@,
            *e,
            e.rule.target@.len(),
            fuel,
        ));
        assert(c0 + target_words(*hg, path@, *e, 0, fuel)->0 =~= c0);
    }
    let mut k: usize = 0;
    while k < e.rule.target.len()
        invariant
            hg.wf(),
            *e == hg.edges@[path@[p as int].0 as int],
            depth > 0,
            fuel == depth - 1,
            k <= e.rule.target@.len(),
            target_words(*hg, path@, *e, k as nat, fuel) is Some,
            crate::text::string_views(carry@) == c0 + target_words(*hg, path@, *e, k as nat, fuel)->0,
            derivation(*hg, path@, cur, depth as nat) == target_words(
                *hg,
                path@,
                *e,
                e.rule.target@.len(),
                fuel,
            ),
        decreases e.rule.target.len() - k,
    {
        let ghost before = crate::text::string_views(carry@);
        proof {
            if target_words(*hg, path@, *e, e.rule.target@.len(), fuel) is Some {
                lemma_target_prefix(*hg, path@, *e, (k + 1) as nat, e.rule.target@.len(), fuel);
            }
        }
        match &e.rule.target[k] {
            Symbol::T(w) => {
                carry.push(w.clone());
                proof {
                    assert(crate::text::string_views(carry@) =~= before.push(w@));
                }
            },
            Symbol::NT { index, .. } => {
                proof {
                    assert(e.rule.target@[k as int]@ is NT);
                    assert(e.rule.target@[k as int]@->NT_1 == *index);
                }
                let q = match position_in(&e.rule.map, *index) {
                    None => {
                        proof {
                            assert(target_words(*hg, path@, *e, (k + 1) as nat, fuel) is None);
                        }
                        return false;
                    },
                    Some(q) => q,
                };
                if q >= e.tails.len() {
                    proof {
                        assert(target_words(*hg, path@, *e, (k + 1) as nat, fuel) is None);
                    }
                    return false;
                }
                if !derive_rec(hg, path, e.tails[q], carry, depth - 1) {
                    return false;
                }
                proof {
                    assert(crate::text::string_views(carry@) =~= c0 + target_words(
                        *hg,
                        path@,
                        *e,
                        (k + 1) as nat,
                        fuel,
                    )->0);
                }
            },
        }
        k += 1;
    }
    true
}

/// Appends to `carry` the words that node `cur` derives along `path`: the
/// first edge of `path` whose head has `cur`'s category and span spells
/// out its rule's target, each word as itself and each nonterminal as what
/// the tail linked to it (through the rule's map) derives in turn. The
/// derivation is taken with as much nesting as `path` has edges, plus one,
/// which `lemma_derivation_fuel` shows to be no limit: it is required to
/// succeed, as it does whenever the unbounded recursion ends without a
/// missing edge or link.
pub fn derive(hg: &Hypergraph, path: &[EdgeId], cur: NodeId, carry: &mut Vec<String>)
    requires
        hg.wf(),
        path@.len() < usize::MAX,
        derivation(*hg, path@, cur, (path@.len() + 1) as nat) is Some,
    ensures
        crate::text::string_views(final(carry)@) == crate::text::string_views(old(carry)@)
            + derivation(*hg, path@, cur, (path@.len() + 1) as nat)->0,
{
    derive_rec(hg, path, cur, carry, path.len() + 1);
}

/// The words that node `cur` derives along `path`, as `derive` gives them;
/// `None` when the derivation fails.
pub fn derivation_of(hg: &Hypergraph, path: &[EdgeId], cur: NodeId) -> (r: Option<Vec<String>>)
    requires
        hg.wf(),
        path@.len() < usize::MAX,
    ensures
        match r {
            Some(ws) => derivation(*hg, path@, cur, (path@.len() + 1) as nat) == Some(
                crate::text::string_views(ws@),
            ),
            None => derivation(*hg, path@, cur, (path@.len() + 1) as nat) is None,
        },
{
    let mut carry: Vec<String> = Vec::new();
    let ghost c0 = crate::text::string_views(carry@);
    if derive_rec(hg, path, cur, &mut carry, path.len() + 1) {
        proof {
            assert(c0 =~= Seq::<Seq<char>>::empty());
            assert(c0 + derivation(*hg, path@, cur, (path@.len() + 1) as nat)->0 =~= derivation(
                *hg,
                path@,
                cur,
                (path@.len() + 1) as nat,
            )->0);
        }
        Some(carry)
    } else {
        None
    }
}

} // verus!
verus! {

// --------------------------------------------------- depth of a derivation

/// Node `y` is a tail that the edge deriving node `x` along `path` links to
/// a nonterminal of its rule's target.
pub open spec fn child(hg: Hypergraph, path: Seq<EdgeId>, x: NodeId, y: NodeId) -> bool {
    &&& x.0 < hg.nodes@.len()
    &&& first_edge_for(hg, path, hg.nodes@[x.0 as int], 0) is Some
    &&& {
        let e = hg.edges@[path[first_edge_for(hg, path, hg.nodes@[x.0 as int], 0)->0].0 as int];
        exists|t: int, q: int|
            #![trigger e.rule.target@[t], e.tails@[q]]
            0 <= t < e.rule.target@.len() && e.rule.target@[t]@ is NT && position_of(
                e.rule.map@,
                e.rule.target@[t]@->NT_1,
                0,
            ) == Some(q) && 0 <= q < e.tails@.len() && e.tails@[q] == y
    }
}

/// Node `y` is reached from node `x` in `d` steps from a node to a child.
pub open spec fn desc(hg: Hypergraph, path: Seq<EdgeId>, x: NodeId, y: NodeId, d: nat) -> bool
    decreases d,
{
    if d == 0 {
        x == y
    } else {
        exists|z: NodeId| #[trigger] child(hg, path, x, z) && desc(hg, path, z, y, (d - 1) as nat)
    }
}

proof fn lemma_position_bounds(s: Seq<i32>, x: i32, k: int)
    requires
        position_of(s, x, k) is Some,
    ensures
        k <= position_of(s, x, k)->0 < s.len(),
    decreases s.len() - k,
{
    if k >= 0 && k < s.len() && s[k] != x {
        lemma_position_bounds(s, x, k + 1);
    }
}

/// A target that spells out words has every nonterminal linked to a tail
/// that derives words with the same fuel.
proof fn lemma_words_child(hg: Hypergraph, path: Seq<EdgeId>, e: Edge, k: nat, h: nat, t: int)
    requires
        target_words(hg, path, e, k, h) is Some,
        0 <= t < k,
        e.rule.target@[t]@ is NT,
    ensures
        position_of(e.rule.map@, e.rule.target@[t]@->NT_1, 0) is Some,
        position_of(e.rule.map@, e.rule.target@[t]@->NT_1, 0)->0 < e.tails@.len(),
        derivation(
            hg,
            path,
            e.tails@[position_of(e.rule.map@, e.rule.target@[t]@->NT_1, 0)->0],
            h,
        ) is Some,
    decreases k,
{
    if t < k - 1 {
        lemma_words_child(hg, path, e, (k - 1) as nat, h, t);
    }
}

/// A node that derives words has children that do, with one step less.
proof fn lemma_child_some(hg: Hypergraph, path: Seq<EdgeId>, x: NodeId, y: NodeId, g: nat)
    requires
        derivation(hg, path, x, g) is Some,
        child(hg, path, x, y),
    ensures
        g >= 1,
        derivation(hg, path, y, (g - 1) as nat) is Some,
{
    let p = first_edge_for(hg, path, hg.nodes@[x.0 as int], 0)->0;
    let e = hg.edges@[path[p].0 as int];
    let (t, q) = choose|t: int, q: int|
        #![trigger e.rule.target@[t], e.tails@[q]]
        0 <= t < e.rule.target@.len() && e.rule.target@[t]@ is NT && position_of(
            e.rule.map@,
            e.rule.target@[t]@->NT_1,
            0,
        ) == Some(q) && 0 <= q < e.tails@.len() && e.tails@[q] == y;
    lemma_words_child(hg, path, e, e.rule.target@.len(), (g - 1) as nat, t);
}

proof fn lemma_desc_some(hg: Hypergraph, path: Seq<EdgeId>, x: NodeId, y: NodeId, d: nat, g: nat)
    requires
        derivation(hg, path, x, g) is Some,
        desc(hg, path, x, y, d),
    ensures
        g >= d,
        derivation(hg, path, y, (g - d) as nat) is Some,
    decreases d,
{
    if d > 0 {
        let z = choose|z: NodeId| #[trigger] child(hg, path, x, z) && desc(hg, path, z, y, (d - 1) as nat);
        lemma_child_some(hg, path, x, z, g);
        lemma_desc_some(hg, path, z, y, (d - 1) as nat, (g - 1) as nat);
    }
}

/// A node that reaches itself derives nothing, whatever the fuel.
proof fn lemma_cycle_none(hg: Hypergraph, path: Seq<EdgeId>, y: NodeId, d: nat, g: nat)
    requires
        desc(hg, path, y, y, d),
        d >= 1,
    ensures
        derivation(hg, path, y, g) is None,
    decreases g,
{
    if derivation(hg, path, y, g) is Some {
        lemma_desc_some(hg, path, y, y, d, g);
        lemma_cycle_none(hg, path, y, d, (g - d) as nat);
    }
}

/// Where less fuel fails and more succeeds, a nonterminal's tail does the
/// same with one step less.
proof fn lemma_words_fail(hg: Hypergraph, path: Seq<EdgeId>, e: Edge, k: nat, h: nat, h2: nat) -> (y: NodeId)
    requires
        k <= e.rule.target@.len(),
        target_words(hg, path, e, k, h) is None,
        target_words(hg, path, e, k, h2) is Some,
    ensures
        exists|t: int, q: int|
            #![trigger e.rule.target@[t], e.tails@[q]]
            0 <= t < e.rule.target@.len() && e.rule.target@[t]@ is NT && position_of(
                e.rule.map@,
                e.rule.target@[t]@->NT_1,
                0,
            ) == Some(q) && 0 <= q < e.tails@.len() && e.tails@[q] == y,
        derivation(hg, path, y, h) is None,
        derivation(hg, path, y, h2) is Some,
    decreases k,
{
    let k1 = (k - 1) as nat;
    if target_words(hg, path, e, k1, h) is None {
        lemma_words_fail(hg, path, e, k1, h, h2)
    } else {
        let t = k1 as int;
        assert(k > 0);
        assert(target_words(hg, path, e, k1, h2) is Some);
        assert(e.rule.target@[t]@ is NT);
        let idx = e.rule.target@[t]@->NT_1;
        assert(position_of(e.rule.map@, idx, 0) is Some);
        let q = position_of(e.rule.map@, idx, 0)->0;
        lemma_position_bounds(e.rule.map@, idx, 0);
        assert(q < e.tails@.len());
        let y = e.tails@[q];
        assert(0 <= t < e.rule.target@.len() && e.rule.target@[t]@ is NT && position_of(
            e.rule.map@,
            e.rule.target@[t]@->NT_1,
            0,
        ) == Some(q) && 0 <= q < e.tails@.len() && e.tails@[q] == y);
        y
    }
}

proof fn lemma_derivation_fail(hg: Hypergraph, path: Seq<EdgeId>, x: NodeId, g: nat, g2: nat) -> (y: NodeId)
    requires
        derivation(hg, path, x, g) is None,
        derivation(hg, path, x, g2) is Some,
        g >= 1,
    ensures
        child(hg, path, x, y),
        derivation(hg, path, y, (g - 1) as nat) is None,
        derivation(hg, path, y, (g2 - 1) as nat) is Some,
{
    let p = first_edge_for(hg, path, hg.nodes@[x.0 as int], 0)->0;
    let e = hg.edges@[path[p].0 as int];
    lemma_words_fail(hg, path, e, e.rule.target@.len(), (g - 1) as nat, (g2 - 1) as nat)
}

/// From a node where less fuel fails and more succeeds, a run of children,
/// one per unit of the smaller fuel.
proof fn lemma_fail_chain(hg: Hypergraph, path: Seq<EdgeId>, x: NodeId, g: nat, g2: nat) -> (c: Seq<NodeId>)
    requires
        derivation(hg, path, x, g) is None,
        derivation(hg, path, x, g2) is Some,
        g < g2,
    ensures
        c.len() == g + 1,
        c[0] == x,
        forall|i: int| 0 <= i < g ==> child(hg, path, #[trigger] c[i], c[i + 1]),
        forall|i: int| 0 <= i <= g ==> derivation(hg, path, #[trigger] c[i], (g2 - i) as nat) is Some,
    decreases g,
{
    if g == 0 {
        seq![x]
    } else {
        let y = lemma_derivation_fail(hg, path, x, g, g2);
        let rest = lemma_fail_chain(hg, path, y, (g - 1) as nat, (g2 - 1) as nat);
        let c = seq![x] + rest;
        assert forall|i: int| 0 <= i < g implies child(hg, path, #[trigger] c[i], c[i + 1]) by {
            if i > 0 {
                assert(c[i] == rest[i - 1]);
                assert(c[i + 1] == rest[i]);
            }
        }
        assert forall|i: int| 0 <= i <= g implies derivation(hg, path, #[trigger] c[i], (g2 - i) as nat) is Some by {
            if i > 0 {
                assert(c[i] == rest[i - 1]);
            }
        }
        c
    }
}

proof fn lemma_chain_desc(hg: Hypergraph, path: Seq<EdgeId>, c: Seq<NodeId>, i: int, j: int)
    requires
        0 <= i <= j < c.len(),
        forall|k: int| i <= k < j ==> child(hg, path, #[trigger] c[k], c[k + 1]),
    ensures
        desc(hg, path, c[i], c[j], (j - i) as nat),
    decreases j - i,
{
    if i < j {
        lemma_chain_desc(hg, path, c, i + 1, j);
        assert(child(hg, path, c[i], c[i + 1]));
    }
}

/// A derivation that succeeds with some fuel succeeds with as much fuel as
/// the path has edges, plus one.
proof fn lemma_fuel_enough(hg: Hypergraph, path: Seq<EdgeId>, x: NodeId, f: nat)
    requires
        derivation(hg, path, x, f) is Some,
        f > path.len() + 1,
    ensures
        derivation(hg, path, x, (path.len() + 1) as nat) is Some,
{
    let l1 = (path.len() + 1) as nat;
    if derivation(hg, path, x, l1) is None {
        let c = lemma_fail_chain(hg, path, x, l1, f);
        let ps = Seq::new(c.len(), |i: int| first_edge_for(hg, path, hg.nodes@[c[i].0 as int], 0)->0);
        let all = Seq::new(path.len(), |v: int| v);
        assert forall|i: int| 0 <= i < ps.len() implies all.contains(#[trigger] ps[i]) by {
            assert(derivation(hg, path, c[i], (f - i) as nat) is Some);
            lemma_first_edge_for(hg, path, hg.nodes@[c[i].0 as int], 0);
            assert(all[ps[i]] == ps[i]);
        }
        if ps.no_duplicates() {
            crate::text::lemma_distinct_within(ps, all);
        }
        let (i, j) = choose|i: int, j: int| 0 <= i < ps.len() && 0 <= j < ps.len() && i != j && ps[i] == ps[j];
        let a = if i < j {
            i
        } else {
            j
        };
        let b = if i < j {
            j
        } else {
            i
        };
        assert(derivation(hg, path, c[a], (f - a) as nat) is Some);
        assert(derivation(hg, path, c[b], (f - b) as nat) is Some);
        lemma_chain_desc(hg, path, c, a, b);
        let z = choose|z: NodeId| #[trigger] child(hg, path, c[a], z) && desc(hg, path, z, c[b], (b - a - 1) as nat);
        assert(child(hg, path, c[b], z));
        assert(desc(hg, path, c[b], c[b], (b - a) as nat));
        lemma_cycle_none(hg, path, c[b], (b - a) as nat, (f - b) as nat);
    }
}

proof fn lemma_derivation_more(hg: Hypergraph, path: Seq<EdgeId>, x: NodeId, f: nat)
    requires
        derivation(hg, path, x, f) is Some,
    ensures
        derivation(hg, path, x, f + 1) == derivation(hg, path, x, f),
    decreases f, 0nat, 0nat,
{
    let p = first_edge_for(hg, path, hg.nodes@[x.0 as int], 0)->0;
    let e = hg.edges@[path[p].0 as int];
    lemma_words_more(hg, path, e, e.rule.target@.len(), (f - 1) as nat);
}

proof fn lemma_words_more(hg: Hypergraph, path: Seq<EdgeId>, e: Edge, k: nat, h: nat)
    requires
        target_words(hg, path, e, k, h) is Some,
    ensures
        target_words(hg, path, e, k, h + 1) == target_words(hg, path, e, k, h),
    decreases h, 1nat, k,
{
    if k > 0 {
        lemma_words_more(hg, path, e, (k - 1) as nat, h);
        if let SymbolView::NT(_, idx) = e.rule.target@[k - 1]@ {
            let q = position_of(e.rule.map@, idx, 0)->0;
            lemma_derivation_more(hg, path, e.tails@[q], h);
        }
    }
}

/// The bound on nesting that `derive` works under is no bound: with any
/// more fuel than the path has edges, plus one, the derivation is the same
/// (a deeper nesting comes back to an edge of the path, and then never
/// ends).
pub proof fn lemma_derivation_fuel(hg: Hypergraph, path: Seq<EdgeId>, cur: NodeId, f: nat)
    requires
        f >= path.len() + 1,
    ensures
        derivation(hg, path, cur, f) == derivation(hg, path, cur, (path.len() + 1) as nat),
    decreases f,
{
    let l1 = (path.len() + 1) as nat;
    if f > l1 {
        lemma_derivation_fuel(hg, path, cur, (f - 1) as nat);
        if derivation(hg, path, cur, (f - 1) as nat) is Some {
            lemma_derivation_more(hg, path, cur, (f - 1) as nat);
        } else if derivation(hg, path, cur, f) is Some {
            lemma_fuel_enough(hg, path, cur, f);
        }
    }
}

} // verus!
verus! {

// --------------------------------------------------------------- all paths

/// The first edge of `path`, from `k` on, whose head is node `t`.
pub open spec fn child_edge(hg: Hypergraph, path: Seq<EdgeId>, t: NodeId, k: int) -> Option<EdgeId>
    decreases path.len() - k,
{
    if k < 0 || k >= path.len() {
        None
    } else if hg.edges@[path[k].0 as int].head == t {
        Some(path[k])
    } else {
        child_edge(hg, path, t, k + 1)
    }
}

/// Edge `c` hangs below edge `e` along `path`: it is the first edge of
/// `path` whose head is a tail of `e`.
pub open spec fn hangs_below(hg: Hypergraph, path: Seq<EdgeId>, e: EdgeId, c: EdgeId) -> bool {
    exists|t: int|
        0 <= t < hg.edges@[e.0 as int].tails@.len() && child_edge(
            hg,
            path,
            #[trigger] hg.edges@[e.0 as int].tails@[t],
            0,
        ) == Some(c)
}

/// The edges that `root` reaches in at most `n` steps down along `path`.
pub open spec fn reach_within(hg: Hypergraph, path: Seq<EdgeId>, root: EdgeId, n: nat) -> Set<EdgeId>
    decreases n,
{
    if n == 0 {
        set![root]
    } else {
        let r = reach_within(hg, path, root, (n - 1) as nat);
        r.union(
            Set::new(|c: EdgeId| exists|e: EdgeId| r.contains(e) && #[trigger] hangs_below(hg, path, e, c)),
        )
    }
}

/// The edges that `root` reaches down along `path`.
pub open spec fn reached(hg: Hypergraph, path: Seq<EdgeId>, root: EdgeId) -> Set<EdgeId> {
    Set::new(|c: EdgeId| exists|n: nat| #[trigger] reach_within(hg, path, root, n).contains(c))
}

/// All the edges below an edge of `s` along `path` are in `s`.
pub open spec fn closed_below(hg: Hypergraph, path: Seq<EdgeId>, s: Set<EdgeId>) -> bool {
    forall|e: EdgeId, c: EdgeId| s.contains(e) && #[trigger] hangs_below(hg, path, e, c) ==> s.contains(c)
}

/// What `root` reaches lies in every set that holds `root` and is closed
/// below.
pub proof fn lemma_reached_least(hg: Hypergraph, path: Seq<EdgeId>, root: EdgeId, s: Set<EdgeId>)
    requires
        s.contains(root),
        closed_below(hg, path, s),
    ensures
        reached(hg, path, root).subset_of(s),
{
    assert forall|c: EdgeId| reached(hg, path, root).contains(c) implies s.contains(c) by {
        let n = choose|n: nat| #[trigger] reach_within(hg, path, root, n).contains(c);
        lemma_within_in(hg, path, root, s, n);
    }
}

proof fn lemma_within_in(hg: Hypergraph, path: Seq<EdgeId>, root: EdgeId, s: Set<EdgeId>, n: nat)
    requires
        s.contains(root),
        closed_below(hg, path, s),
    ensures
        reach_within(hg, path, root, n).subset_of(s),
    decreases n,
{
    if n > 0 {
        lemma_within_in(hg, path, root, s, (n - 1) as nat);
    }
}

/// `root` reaches itself, and whatever hangs below an edge it reaches.
pub proof fn lemma_reached_closed(hg: Hypergraph, path: Seq<EdgeId>, root: EdgeId)
    ensures
        reached(hg, path, root).contains(root),
        closed_below(hg, path, reached(hg, path, root)),
{
    assert(reach_within(hg, path, root, 0).contains(root));
    assert forall|e: EdgeId, c: EdgeId|
        reached(hg, path, root).contains(e) && #[trigger] hangs_below(hg, path, e, c) implies reached(
        hg,
        path,
        root,
    ).contains(c) by {
        let n = choose|n: nat| #[trigger] reach_within(hg, path, root, n).contains(e);
        assert(reach_within(hg, path, root, n + 1).contains(c));
    }
}

/// The edges whose flag is set.
pub open spec fn flag_set(flags: Seq<bool>) -> Set<EdgeId> {
    Set::new(|e: EdgeId| e.0 < flags.len() && flags[e.0 as int])
}

/// How many flags are not set.
pub open spec fn unset_count(flags: Seq<bool>) -> nat
    decreases flags.len(),
{
    if flags.len() == 0 {
        0
    } else {
        unset_count(flags.drop_last()) + if flags.last() {
            0nat
        } else {
            1nat
        }
    }
}

proof fn lemma_unset_update(flags: Seq<bool>, i: int)
    requires
        0 <= i < flags.len(),
        !flags[i],
    ensures
        unset_count(flags.update(i, true)) + 1 == unset_count(flags),
    decreases flags.len(),
{
    let f2 = flags.update(i, true);
    if i < flags.len() - 1 {
        assert(f2.drop_last() =~= flags.drop_last().update(i, true));
        lemma_unset_update(flags.drop_last(), i);
    } else {
        assert(f2.drop_last() =~= flags.drop_last());
    }
}

/// Every element below `x` along `path` is in `s`.
pub open spec fn finished(hg: Hypergraph, path: Seq<EdgeId>, x: EdgeId, s: Set<EdgeId>) -> bool {
    forall|c: EdgeId| #[trigger] hangs_below(hg, path, x, c) ==> s.contains(c)
}

/// Every entry of `path` is an edge of the graph.
pub open spec fn path_ok(hg: Hypergraph, path: Seq<EdgeId>) -> bool {
    forall|k: int| 0 <= k < path.len() ==> (#[trigger] path[k]).0 < hg.edges@.len()
}

/// The first edge of `path` whose head is node `t`.
fn find_child(hg: &Hypergraph, path: &[EdgeId], t: NodeId) -> (r: Option<EdgeId>)
    requires
        path_ok(*hg, path@),
    ensures
        r == child_edge(*hg, path@, t, 0),
        r matches Some(c) ==> c.0 < hg.edges@.len(),
{
    let mut k: usize = 0;
    while k < path.len()
        invariant
            path_ok(*hg, path@),
            k <= path@.len(),
            child_edge(*hg, path@, t, 0) == child_edge(*hg, path@, t, k as int),
        decreases path.len() - k,
    {
        let eid = path[k];
        proof {
            assert(eid.0 < hg.edges@.len());
        }
        if hg.edges[eid.0].head == t {
            return Some(eid);
        }
        k += 1;
    }
    None
}

/// Flags `edge_id` and, going down along `path` from it, each edge not yet
/// flagged: for each tail of an edge, the first edge of `path` whose head
/// is that tail.
fn mark_reachable(
    hg: &Hypergraph,
    path: &[EdgeId],
    edge_id: EdgeId,
    used: &mut Vec<bool>,
    Ghost(root): Ghost<EdgeId>,
)
    requires
        path_ok(*hg, path@),
        edge_id.0 < hg.edges@.len(),
        old(used)@.len() == hg.edges@.len(),
        !old(used)@[edge_id.0 as int],
        flag_set(old(used)@).subset_of(reached(*hg, path@, root)),
        reached(*hg, path@, root).contains(edge_id),
    ensures
        final(used)@.len() == old(used)@.len(),
        flag_set(old(used)@).subset_of(flag_set(final(used)@)),
        flag_set(final(used)@).subset_of(reached(*hg, path@, root)),
        flag_set(final(used)@).contains(edge_id),
        forall|x: EdgeId|
            #[trigger] flag_set(final(used)@).contains(x) && !flag_set(old(used)@).contains(x)
                ==> finished(*hg, path@, x, flag_set(final(used)@)),
        unset_count(final(used)@) < unset_count(old(used)@),
    decreases unset_count(old(used)@),
{
    let ghost u0 = used@;
    proof {
        assert(u0 == old(used)@);
        lemma_unset_update(used@, edge_id.0 as int);
    }
    used.set(edge_id.0, true);
    proof {
        assert(flag_set(used@) =~= flag_set(u0).insert(edge_id));
        lemma_reached_closed(*hg, path@, root);
    }
    let e = &hg.edges[edge_id.0];
    let mut k: usize = 0;
    while k < e.tails.len()
        invariant
            path_ok(*hg, path@),
            *e == hg.edges@[edge_id.0 as int],
            k <= e.tails@.len(),
            used@.len() == u0.len(),
            u0.len() == hg.edges@.len(),
            u0 == old(used)@,
            flag_set(u0).insert(edge_id).subset_of(flag_set(used@)),
            flag_set(used@).subset_of(reached(*hg, path@, root)),
            reached(*hg, path@, root).contains(edge_id),
            closed_below(*hg, path@, reached(*hg, path@, root)),
            unset_count(used@) < unset_count(u0),
            forall|x: EdgeId|
                #[trigger] flag_set(used@).contains(x) && !flag_set(u0).contains(x) && x != edge_id
                    ==> finished(*hg, path@, x, flag_set(used@)),
            forall|t: int|
                0 <= t < k ==> (child_edge(*hg, path@, #[trigger] e.tails@[t], 0) matches Some(c)
                    ==> flag_set(used@).contains(c)),
        decreases e.tails.len() - k,
    {
        let ghost ub = used@;
        match find_child(hg, path, e.tails[k]) {
            Some(child) => {
                if !used[child.0] {
                    proof {
                        assert(hangs_below(*hg, path@, edge_id, child));
                        assert(flag_set(ub).contains(edge_id));
                        assert(u0 == old(used)@);
                        assert(unset_count(used@) < unset_count(old(used)@));
                    }
                    mark_reachable(hg, path, child, used, Ghost(root));
                    proof {
                        let un = used@;
                        assert forall|x: EdgeId|
                            #[trigger] flag_set(un).contains(x) && !flag_set(u0).contains(x) && x
                                != edge_id implies finished(*hg, path@, x, flag_set(un)) by {
                            if flag_set(ub).contains(x) {
                                assert(finished(*hg, path@, x, flag_set(ub)));
                            }
                        }
                    }
                }
            },
            None => {},
        }
        proof {
            assert forall|t: int| 0 <= t < k + 1 implies (child_edge(
                *hg,
                path@,
                #[trigger] e.tails@[t],
                0,
            ) matches Some(c) ==> flag_set(used@).contains(c)) by {
                if t < k {
                    if let Some(c) = child_edge(*hg, path@, e.tails@[t], 0) {
                        assert(flag_set(ub).contains(c));
                    }
                }
            }
        }
        k += 1;
    }
    proof {
        assert(finished(*hg, path@, edge_id, flag_set(used@))) by {
            assert forall|c: EdgeId| #[trigger] hangs_below(*hg, path@, edge_id, c) implies flag_set(
                used@,
            ).contains(c) by {
                let t = choose|t: int|
                    0 <= t < hg.edges@[edge_id.0 as int].tails@.len() && child_edge(
                        *hg,
                        path@,
                        #[trigger] hg.edges@[edge_id.0 as int].tails@[t],
                        0,
                    ) == Some(c);
                assert(e.tails@[t] == hg.edges@[edge_id.0 as int].tails@[t]);
            }
        }
    }
}

} // verus!
verus! {

/// The paths of `ps`, each as a sequence of edges.
pub open spec fn paths_view(ps: Seq<Vec<EdgeId>>) -> Seq<Seq<EdgeId>> {
    ps.map_values(|p: Vec<EdgeId>| p@)
}

/// `p` extended by each edge of `inc`, in order.
pub open spec fn extend_each(p: Seq<EdgeId>, inc: Seq<EdgeId>) -> Seq<Seq<EdgeId>> {
    inc.map_values(|e: EdgeId| p.push(e))
}

/// Each path of `ps`, from the last to the first, extended by each edge
/// of `inc`.
pub open spec fn expand(ps: Seq<Seq<EdgeId>>, inc: Seq<EdgeId>) -> Seq<Seq<EdgeId>>
    decreases ps.len(),
{
    if ps.len() == 0 {
        Seq::empty()
    } else {
        extend_each(ps.last(), inc) + expand(ps.drop_last(), inc)
    }
}

/// The candidate paths along `order`: starting from the empty path, for
/// each node that edges enter, every path so far extended by each of them.
pub open spec fn candidates(order: Seq<NodeId>, nodes: Seq<Node>) -> Seq<Seq<EdgeId>>
    decreases order.len(),
{
    if order.len() == 0 {
        seq![Seq::<EdgeId>::empty()]
    } else {
        let c = candidates(order.drop_last(), nodes);
        let inc = nodes[order.last().0 as int].incoming@;
        if inc.len() == 0 {
            c
        } else {
            expand(c, inc)
        }
    }
}

/// The nonempty paths of `cands`, in order, but for those whose last edge
/// reaches the same edges as that of an earlier one kept.
pub open spec fn distinct_reach(hg: Hypergraph, cands: Seq<Seq<EdgeId>>) -> Seq<Seq<EdgeId>>
    decreases cands.len(),
{
    if cands.len() == 0 {
        Seq::empty()
    } else {
        let kept = distinct_reach(hg, cands.drop_last());
        let p = cands.last();
        if p.len() > 0 && !(exists|q: int|
            0 <= q < kept.len() && #[trigger] reached(hg, kept[q], kept[q].last()) == reached(
                hg,
                p,
                p.last(),
            )) {
            kept.push(p)
        } else {
            kept
        }
    }
}

/// A copy of a path.
fn copy_path(p: &Vec<EdgeId>) -> (r: Vec<EdgeId>)
    ensures
        r@ == p@,
{
    let mut r: Vec<EdgeId> = Vec::new();
    let mut i: usize = 0;
    while i < p.len()
        invariant
            i <= p@.len(),
            r@ == p@.take(i as int),
        decreases p.len() - i,
    {
        r.push(p[i]);
        assert(p@.take(i + 1) =~= p@.take(i as int).push(p@[i as int]));
        i += 1;
    }
    assert(p@.take(p@.len() as int) =~= p@);
    r
}

/// The flags of the edges that the last edge of `path` reaches down along
/// `path`.
fn reach_key(hg: &Hypergraph, path: &Vec<EdgeId>) -> (key: Vec<bool>)
    requires
        path_ok(*hg, path@),
        path@.len() > 0,
    ensures
        key@.len() == hg.edges@.len(),
        flag_set(key@) == reached(*hg, path@, path@.last()),
{
    let mut used: Vec<bool> = Vec::new();
    let mut i: usize = 0;
    while i < hg.edges.len()
        invariant
            i <= hg.edges@.len(),
            used@.len() == i,
            forall|k: int| 0 <= k < i ==> !(#[trigger] used@[k]),
        decreases hg.edges.len() - i,
    {
        used.push(false);
        i += 1;
    }
    let root = path[path.len() - 1];
    proof {
        assert(flag_set(used@) =~= Set::<EdgeId>::empty());
        lemma_reached_closed(*hg, path@, root);
        assert(root.0 < hg.edges@.len());
    }
    let ghost u0 = used@;
    mark_reachable(hg, path.as_slice(), root, &mut used, Ghost(root));
    proof {
        let s = flag_set(used@);
        assert forall|e: EdgeId, c: EdgeId| s.contains(e) && #[trigger] hangs_below(
            *hg,
            path@,
            e,
            c,
        ) implies s.contains(c) by {
            assert(!flag_set(u0).contains(e));
            assert(finished(*hg, path@, e, s));
        }
        lemma_reached_least(*hg, path@, root, s);
        assert(s =~= reached(*hg, path@, root));
    }
    used
}

/// Flags of equal length that set the same edges are equal.
proof fn lemma_flags_ext(a: Seq<bool>, b: Seq<bool>)
    requires
        a.len() == b.len(),
        a.len() <= usize::MAX,
        flag_set(a) == flag_set(b),
    ensures
        a == b,
{
    assert forall|i: int| 0 <= i < a.len() implies a[i] == b[i] by {
        let x = EdgeId(i as usize);
        assert(x.0 as int == i);
        assert(flag_set(a).contains(x) == a[i]);
        assert(flag_set(b).contains(x) == b[i]);
    }
    assert(a =~= b);
}

/// `key` is among `seen`.
fn has_key(seen: &Vec<Vec<bool>>, key: &Vec<bool>) -> (r: bool)
    ensures
        r == exists|i: int| 0 <= i < seen@.len() && (#[trigger] seen@[i])@ == key@,
{
    let mut i: usize = 0;
    while i < seen.len()
        invariant
            i <= seen@.len(),
            forall|q: int| 0 <= q < i ==> (#[trigger] seen@[q])@ != key@,
        decreases seen.len() - i,
    {
        let s = &seen[i];
        if s.len() == key.len() {
            let mut j: usize = 0;
            let mut same = true;
            while j < s.len()
                invariant
                    j <= s@.len(),
                    s@.len() == key@.len(),
                    same == forall|z: int| 0 <= z < j ==> s@[z] == key@[z],
                decreases s.len() - j,
            {
                if s[j] != key[j] {
                    same = false;
                }
                j += 1;
            }
            if same {
                assert(s@ =~= key@);
                return true;
            }
        }
        i += 1;
    }
    false
}

} // verus!
verus! {

/// Every entry of every path is below `n`.
pub open spec fn paths_within(ps: Seq<Seq<EdgeId>>, n: nat) -> bool {
    forall|i: int, k: int| 0 <= i < ps.len() && 0 <= k < ps[i].len() ==> (#[trigger] ps[i][k]).0 < n
}

/// Takes the paths from the last to the first and extends each by each
/// edge of `inc`.
fn expand_paths(paths: Vec<Vec<EdgeId>>, inc: &Vec<EdgeId>, Ghost(n): Ghost<nat>) -> (r: Vec<
    Vec<EdgeId>,
>)
    requires
        paths_within(paths_view(paths@), n),
        forall|k: int| 0 <= k < inc@.len() ==> (#[trigger] inc@[k]).0 < n,
    ensures
        paths_view(r@) == expand(paths_view(paths@), inc@),
        paths_within(paths_view(r@), n),
{
    let ghost p0 = paths_view(paths@);
    let mut paths = paths;
    let mut new_paths: Vec<Vec<EdgeId>> = Vec::new();
    proof {
        assert(paths_view(new_paths@) + expand(p0, inc@) =~= expand(p0, inc@));
    }
    while paths.len() > 0
        invariant
            paths_view(new_paths@) + expand(paths_view(paths@), inc@) == expand(p0, inc@),
            paths_within(paths_view(paths@), n),
            paths_within(paths_view(new_paths@), n),
            forall|k: int| 0 <= k < inc@.len() ==> (#[trigger] inc@[k]).0 < n,
        decreases paths.len(),
    {
        let ghost pv = paths_view(paths@);
        let p = paths.pop().unwrap();
        proof {
            assert(paths_view(paths@) =~= pv.drop_last());
            assert(p@ == pv.last());
        }
        let ghost n0 = paths_view(new_paths@);
        let mut z: usize = 0;
        while z < inc.len()
            invariant
                z <= inc@.len(),
                paths_view(new_paths@) == n0 + extend_each(p@, inc@).take(z as int),
                paths_within(n0, n),
                paths_within(seq![p@], n),
                forall|k: int| 0 <= k < inc@.len() ==> (#[trigger] inc@[k]).0 < n,
            decreases inc.len() - z,
        {
            let mut np = copy_path(&p);
            np.push(inc[z]);
            let ghost nb = paths_view(new_paths@);
            new_paths.push(np);
            proof {
                assert(extend_each(p@, inc@).take(z + 1) =~= extend_each(p@, inc@).take(z as int).push(
                    p@.push(inc@[z as int]),
                ));
                assert(paths_view(new_paths@) =~= nb.push(np@));
            }
            z += 1;
        }
        proof {
            assert(extend_each(p@, inc@).take(inc@.len() as int) =~= extend_each(p@, inc@));
            assert(expand(pv, inc@) == extend_each(p@, inc@) + expand(pv.drop_last(), inc@));
            assert(paths_view(new_paths@) + expand(paths_view(paths@), inc@) =~= n0 + expand(pv, inc@));
            let nv = paths_view(new_paths@);
            assert forall|i: int, k: int| 0 <= i < nv.len() && 0 <= k < nv[i].len() implies (
            #[trigger] nv[i][k]).0 < n by {
                if i >= n0.len() {
                    let j = i - n0.len();
                    assert(nv[i] == p@.push(inc@[j]));
                    if k < p@.len() {
                        assert(seq![p@][0][k] == p@[k]);
                    }
                } else {
                    assert(nv[i] == n0[i]);
                }
            }
            let rest = paths_view(paths@);
            assert forall|i: int, k: int| 0 <= i < rest.len() && 0 <= k < rest[i].len() implies (
            #[trigger] rest[i][k]).0 < n by {
                assert(rest[i] == pv[i]);
            }
        }
    }
    proof {
        assert(paths_view(paths@) =~= Seq::<Seq<EdgeId>>::empty());
        assert(paths_view(new_paths@) =~= paths_view(new_paths@) + expand(paths_view(paths@), inc@));
    }
    new_paths
}

/// The distinct derivations of the hypergraph: along the topological order
/// of `topological_sort` (Kahn's, which is unique),
/// starting from the empty path, every path so far is extended by each
/// edge entering a node that edges enter (the paths taken from the last to
/// the first); of the nonempty paths that result, those are kept whose
/// last edge reaches, down along the path, a set of edges that no path
/// kept before reaches.
pub fn all_paths(hg: &mut Hypergraph) -> (paths: Vec<Vec<EdgeId>>)
    requires
        old(hg).wf(),
    ensures
        final(hg).wf(),
        final(hg).nodes == old(hg).nodes,
        final(hg).nodes_by_id == old(hg).nodes_by_id,
        exists|order: Seq<NodeId>|
            kahn_order(order, old(hg).nodes@, old(hg).edges@) && topo_order(
                order,
                old(hg).nodes@,
                old(hg).edges@,
                final(hg).edges@,
            ) && paths_view(paths@) == distinct_reach(*final(hg), candidates(order, old(hg).nodes@)),
{
    let toposorted = topological_sort(hg);
    let ghost nodes0 = hg.nodes@;
    let ghost ne = hg.edges@.len();
    let ghost s0 = shape(hg.edges@);
    let mut paths: Vec<Vec<EdgeId>> = Vec::new();
    paths.push(Vec::new());
    proof {
        assert(hg.edges.len() == hg.edges@.len());
        assert(toposorted@.take(0) =~= Seq::<NodeId>::empty());
        assert(paths_view(paths@) =~= candidates(toposorted@.take(0), nodes0));
    }
    let mut t: usize = 0;
    while t < toposorted.len()
        invariant
            hg.wf(),
            hg.nodes@ == nodes0,
            hg.edges@.len() == ne,
            s0 == shape(hg.edges@),
            ne <= usize::MAX,
            t <= toposorted@.len(),
            forall|k: int| 0 <= k < toposorted@.len() ==> (#[trigger] toposorted@[k]).0 < nodes0.len(),
            paths_view(paths@) == candidates(toposorted@.take(t as int), nodes0),
            paths_within(paths_view(paths@), ne),
        decreases toposorted.len() - t,
    {
        let nid = toposorted[t];
        proof {
            assert(toposorted@.take(t + 1).drop_last() =~= toposorted@.take(t as int));
            assert(toposorted@.take(t + 1).last() == nid);
            assert(nid.0 < nodes0.len());
        }
        let inc = &hg.nodes[nid.0].incoming;
        if inc.len() > 0 {
            proof {
                lemma_incoming_heads(s0, nid.0);
                assert(inc@ == incoming_of(s0, nid.0));
                assert forall|k: int| 0 <= k < inc@.len() implies (#[trigger] inc@[k]).0 < ne by {
                    assert(incoming_of(s0, nid.0)[k].0 < s0.len());
                }
            }
            paths = expand_paths(paths, inc, Ghost(ne));
        }
        t += 1;
    }
    proof {
        assert(toposorted@.take(toposorted@.len() as int) =~= toposorted@);
    }
    let ghost cands = paths_view(paths@);
    let mut seen: Vec<Vec<bool>> = Vec::new();
    let mut result: Vec<Vec<EdgeId>> = Vec::new();
    let mut q: usize = 0;
    proof {
        assert(cands.take(0) =~= Seq::<Seq<EdgeId>>::empty());
        assert(paths_view(result@) =~= distinct_reach(*hg, cands.take(0)));
    }
    while q < paths.len()
        invariant
            cands == paths_view(paths@),
            paths_within(cands, ne),
            hg.edges@.len() == ne,
            ne <= usize::MAX,
            q <= paths@.len(),
            paths_view(result@) == distinct_reach(*hg, cands.take(q as int)),
            seen@.len() == result@.len(),
            forall|i: int|
                0 <= i < seen@.len() ==> (#[trigger] seen@[i])@.len() == ne && flag_set(seen@[i]@)
                    == reached(*hg, result@[i]@, result@[i]@.last()),
        decreases paths.len() - q,
    {
        let p = &paths[q];
        let ghost kept = paths_view(result@);
        proof {
            assert(cands.take(q + 1).drop_last() =~= cands.take(q as int));
            assert(cands.take(q + 1).last() == p@);
            assert(cands[q as int] == p@);
        }
        if p.len() > 0 {
            proof {
                assert forall|k: int| 0 <= k < p@.len() implies (#[trigger] p@[k]).0 < hg.edges@.len() by {
                    assert(cands[q as int][k] == p@[k]);
                }
            }
            let key = reach_key(hg, p);
            let found = has_key(&seen, &key);
            proof {
                let target = reached(*hg, p@, p@.last());
                assert((exists|i: int| 0 <= i < seen@.len() && (#[trigger] seen@[i])@ == key@) == (exists|qq: int|
                    0 <= qq < kept.len() && #[trigger] reached(*hg, kept[qq], kept[qq].last()) == target)) by {
                    if exists|i: int| 0 <= i < seen@.len() && (#[trigger] seen@[i])@ == key@ {
                        let i = choose|i: int| 0 <= i < seen@.len() && (#[trigger] seen@[i])@ == key@;
                        assert(kept[i] == result@[i]@);
                        assert(reached(*hg, kept[i], kept[i].last()) == target);
                    }
                    if exists|qq: int|
                        0 <= qq < kept.len() && #[trigger] reached(*hg, kept[qq], kept[qq].last()) == target {
                        let qq = choose|qq: int|
                            0 <= qq < kept.len() && #[trigger] reached(*hg, kept[qq], kept[qq].last()) == target;
                        assert(kept[qq] == result@[qq]@);
                        lemma_flags_ext(seen@[qq]@, key@);
                    }
                }
            }
            if !found {
                let ghost sb = seen@;
                let ghost rb = result@;
                seen.push(key);
                result.push(copy_path(p));
                proof {
                    assert(paths_view(result@) =~= kept.push(p@));
                    assert forall|i: int| 0 <= i < seen@.len() implies (#[trigger] seen@[i])@.len() == ne
                        && flag_set(seen@[i]@) == reached(*hg, result@[i]@, result@[i]@.last()) by {
                        if i < sb.len() {
                            assert(seen@[i] == sb[i]);
                            assert(result@[i] == rb[i]);
                        }
                    }
                }
            }
        }
        q += 1;
    }
    proof {
        assert(cands.take(cands.len() as int) =~= cands);
    }
    result
}

} // verus!
verus! {

// ------------------------------------------------------------------- laws

/// How many of the nodes of `s` are `y`.
spec fn hits(s: Seq<NodeId>, y: NodeId) -> nat
    decreases s.len(),
{
    if s.len() == 0 {
        0
    } else {
        hits(s.drop_last(), y) + if s.last() == y {
            1nat
        } else {
            0nat
        }
    }
}

/// How many tails are among the nodes of `s`.
spec fn in_count(tails: Seq<NodeId>, s: Seq<NodeId>) -> nat
    decreases tails.len(),
{
    if tails.len() == 0 {
        0
    } else {
        in_count(tails.drop_last(), s) + if s.contains(tails.last()) {
            1nat
        } else {
            0nat
        }
    }
}

proof fn lemma_hits_distinct(s: Seq<NodeId>, y: NodeId)
    requires
        s.no_duplicates(),
    ensures
        hits(s, y) == if s.contains(y) {
            1nat
        } else {
            0nat
        },
    decreases s.len(),
{
    if s.len() > 0 {
        let d = s.drop_last();
        assert(d.no_duplicates()) by {
            assert forall|a: int, b: int| 0 <= a < d.len() && 0 <= b < d.len() && a != b implies d[a]
                != d[b] by {
                assert(d[a] == s[a] && d[b] == s[b]);
            }
        }
        lemma_hits_distinct(d, y);
        if d.contains(y) {
            let k = choose|k: int| 0 <= k < d.len() && d[k] == y;
            assert(s[k] == y);
            assert(s.last() != y);
        }
        if s.contains(y) && !d.contains(y) {
            let k = choose|k: int| 0 <= k < s.len() && s[k] == y;
            if k < d.len() {
                assert(d[k] == y);
            }
        }
        if d.contains(y) {
            let k = choose|k: int| 0 <= k < d.len() && d[k] == y;
            assert(s[k] == y);
        }
    }
}

proof fn lemma_occ_split(t: Seq<NodeId>, y: NodeId, s: Seq<NodeId>)
    ensures
        occ(t.push(y), s) == occ(t, s) + hits(s, y),
    decreases s.len(),
{
    if s.len() > 0 {
        lemma_occ_split(t, y, s.drop_last());
        assert(t.push(y).drop_last() =~= t);
    }
}

proof fn lemma_occ_in_count(tails: Seq<NodeId>, s: Seq<NodeId>)
    requires
        s.no_duplicates(),
    ensures
        occ(tails, s) == in_count(tails, s),
    decreases tails.len(),
{
    if tails.len() == 0 {
        lemma_occ_empty(s);
        assert(tails =~= Seq::<NodeId>::empty());
    } else {
        let d = tails.drop_last();
        lemma_occ_in_count(d, s);
        assert(d.push(tails.last()) =~= tails);
        lemma_occ_split(d, tails.last(), s);
        lemma_hits_distinct(s, tails.last());
    }
}

proof fn lemma_occ_empty(s: Seq<NodeId>)
    ensures
        occ(Seq::<NodeId>::empty(), s) == 0,
    decreases s.len(),
{
    if s.len() > 0 {
        lemma_occ_empty(s.drop_last());
    }
}

proof fn lemma_in_count_bound(tails: Seq<NodeId>, s: Seq<NodeId>, x: NodeId)
    requires
        !s.contains(x),
    ensures
        in_count(tails, s) + count_in(tails, x) <= tails.len(),
    decreases tails.len(),
{
    if tails.len() > 0 {
        lemma_in_count_bound(tails.drop_last(), s, x);
    }
}

/// When every edge starts unmarked, every tail of every edge entering a
/// node of a topological order comes before that node.
pub proof fn lemma_tails_before(
    order: Seq<NodeId>,
    nodes: Seq<Node>,
    e0: Seq<Edge>,
    p: int,
    k: int,
    t: int,
)
    requires
        order.no_duplicates(),
        tails_first(order, nodes, e0, marks(e0)),
        forall|e: int| 0 <= e < e0.len() ==> (#[trigger] e0[e]).mark == 0,
        0 <= p < order.len(),
        0 <= k < nodes[order[p].0 as int].incoming@.len(),
        nodes[order[p].0 as int].incoming@[k].0 < e0.len(),
        0 <= t < e0[nodes[order[p].0 as int].incoming@[k].0 as int].tails@.len(),
    ensures
        order.take(p).contains(e0[nodes[order[p].0 as int].incoming@[k].0 as int].tails@[t]),
{
    let e = nodes[order[p].0 as int].incoming@[k].0 as int;
    let tails = e0[e].tails@;
    let x = tails[t];
    let pre = order.take(p);
    assert(marks(e0)[e] == 0);
    assert(marks(e0)[e] + occ(tails, pre) >= tails.len());
    if !pre.contains(x) {
        assert(pre.no_duplicates()) by {
            assert forall|a: int, b: int| 0 <= a < pre.len() && 0 <= b < pre.len() && a != b implies pre[a]
                != pre[b] by {
                assert(pre[a] == order[a] && pre[b] == order[b]);
            }
        }
        lemma_occ_in_count(tails, pre);
        lemma_in_count_bound(tails, pre, x);
        assert(count_in(tails, x) >= 1) by {
            lemma_count_present(tails, t);
        }
    }
}

/// When every tail is among the nodes of `s`, all tails are counted.
proof fn lemma_in_count_all(tails: Seq<NodeId>, s: Seq<NodeId>)
    requires
        forall|k: int| 0 <= k < tails.len() ==> s.contains(#[trigger] tails[k]),
    ensures
        in_count(tails, s) == tails.len(),
    decreases tails.len(),
{
    if tails.len() > 0 {
        let d = tails.drop_last();
        assert forall|k: int| 0 <= k < d.len() implies s.contains(#[trigger] d[k]) by {
            assert(d[k] == tails[k]);
        }
        lemma_in_count_all(d, s);
        assert(s.contains(tails[tails.len() - 1]));
    }
}

/// On an acyclic hypergraph whose edges all have tails and start
/// unmarked, the topological sort takes every node: acyclic in that some
/// rank grows from each tail of an edge to its head.
pub proof fn lemma_sort_takes_all(
    hg: Hypergraph,
    order: Seq<NodeId>,
    e1: Seq<Edge>,
    rank: spec_fn(NodeId) -> nat,
    v: int,
)
    requires
        hg.wf(),
        topo_order(order, hg.nodes@, hg.edges@, e1),
        forall|e: int| 0 <= e < hg.edges@.len() ==> (#[trigger] hg.edges@[e]).mark == 0,
        forall|e: int| 0 <= e < hg.edges@.len() ==> (#[trigger] hg.edges@[e]).tails@.len() > 0,
        forall|e: int, k: int|
            0 <= e < hg.edges@.len() && 0 <= k < hg.edges@[e].tails@.len() ==> rank(
                #[trigger] hg.edges@[e].tails@[k],
            ) < rank(hg.edges@[e].head),
        0 <= v < hg.nodes@.len(),
    ensures
        order.contains(NodeId(v as usize)),
    decreases rank(NodeId(v as usize)),
{
    let nodes = hg.nodes@;
    let e0 = hg.edges@;
    let inc = nodes[v].incoming@;
    let s0 = shape(e0);
    assert(hg.edges.len() == e0.len());
    assert(hg.nodes.len() == nodes.len());
    lemma_incoming_heads(s0, v as usize);
    assert(inc == incoming_of(s0, v as usize));
    if inc.len() > 0 {
        assert forall|k: int| 0 <= k < inc.len() implies (#[trigger] e1[inc[k].0 as int]).mark
            == e1[inc[k].0 as int].tails@.len() by {
            let e = inc[k].0 as int;
            assert(incoming_of(s0, v as usize)[k].0 < s0.len());
            assert(s0[e].0 == NodeId(v as usize));
            assert(e0[e].head == NodeId(v as usize));
            let tails = e0[e].tails@;
            assert(edge_ok(e0[e], nodes.len()));
            assert forall|t: int| 0 <= t < tails.len() implies order.contains(#[trigger] tails[t]) by {
                assert(rank(e0[e].tails@[t]) < rank(e0[e].head));
                lemma_sort_takes_all(hg, order, e1, rank, tails[t].0 as int);
            }
            lemma_occ_in_count(tails, order);
            lemma_in_count_all(tails, order);
            assert(same_but_mark(e1[e], e0[e]));
        }
        let e = inc[0].0 as int;
        assert(incoming_of(s0, v as usize)[0].0 < s0.len());
        assert(marks(e0)[e] == 0);
        assert(marks(e0)[inc[0].0 as int] != (e1[inc[0].0 as int]).tails@.len());
    }
}

/// An element that occurs is counted at least once.
proof fn lemma_count_present(s: Seq<NodeId>, t: int)
    requires
        0 <= t < s.len(),
    ensures
        count_in(s, s[t]) >= 1,
    decreases s.len(),
{
    if t < s.len() - 1 {
        assert(s.drop_last()[t] == s[t]);
        lemma_count_present(s.drop_last(), t);
    }
}

/// The paths that `all_paths` keeps are nonempty and no two of them reach
/// the same set of edges.
pub proof fn lemma_distinct_reach(hg: Hypergraph, cands: Seq<Seq<EdgeId>>)
    ensures
        forall|q: int|
            0 <= q < distinct_reach(hg, cands).len() ==> (#[trigger] distinct_reach(hg, cands)[q]).len()
                > 0,
        forall|q1: int, q2: int|
            0 <= q1 < q2 < distinct_reach(hg, cands).len() ==> reached(
                hg,
                #[trigger] distinct_reach(hg, cands)[q1],
                distinct_reach(hg, cands)[q1].last(),
            ) != reached(
                hg,
                #[trigger] distinct_reach(hg, cands)[q2],
                distinct_reach(hg, cands)[q2].last(),
            ),
    decreases cands.len(),
{
    if cands.len() > 0 {
        lemma_distinct_reach(hg, cands.drop_last());
        let kept = distinct_reach(hg, cands.drop_last());
        let r = distinct_reach(hg, cands);
        assert forall|q: int| 0 <= q < r.len() implies (#[trigger] r[q]).len() > 0 by {
            if q < kept.len() {
                assert(r[q] == kept[q]);
            }
        }
        assert forall|q1: int, q2: int| 0 <= q1 < q2 < r.len() implies reached(
            hg,
            #[trigger] r[q1],
            r[q1].last(),
        ) != reached(hg, #[trigger] r[q2], r[q2].last()) by {
            assert(r[q1] == kept[q1]);
            if q2 < kept.len() {
                assert(r[q2] == kept[q2]);
            } else {
                assert(r[q2] == cands.last());
            }
        }
    }
}

} // verus!
verus! {

// ------------------------------------------------- which edge a node uses

/// The edge that a derivation expands for `node` is the first one of the
/// path, from `k` on, whose head carries `node`'s category over exactly
/// `node`'s span (the same left and the same right end); every entry
/// before it is an edge of the graph whose head differs from `node` in
/// category, left end or right end. When there is none, no edge of the
/// path reached over edges of the graph has such a head.
pub proof fn lemma_first_edge_for_span(hg: Hypergraph, path: Seq<EdgeId>, node: Node, k: int)
    requires
        0 <= k,
    ensures
        first_edge_for(hg, path, node, k) matches Some(p) ==> {
            &&& k <= p < path.len()
            &&& path[p].0 < hg.edges@.len()
            &&& hg.nodes@[hg.edges@[path[p].0 as int].head.0 as int].symbol@ == node.symbol@
            &&& hg.nodes@[hg.edges@[path[p].0 as int].head.0 as int].left == node.left
            &&& hg.nodes@[hg.edges@[path[p].0 as int].head.0 as int].right == node.right
            &&& forall|q: int|
                k <= q < p ==> (#[trigger] path[q]).0 < hg.edges@.len() && !(hg.nodes@[hg.edges@[path[q].0 as int].head.0 as int].symbol@
                    == node.symbol@ && hg.nodes@[hg.edges@[path[q].0 as int].head.0 as int].left
                    == node.left && hg.nodes@[hg.edges@[path[q].0 as int].head.0 as int].right
                    == node.right)
        },
        first_edge_for(hg, path, node, k) is None ==> forall|q: int|
            k <= q < path.len() && (forall|t: int| k <= t <= q ==> (#[trigger] path[t]).0 < hg.edges@.len())
                ==> !(hg.nodes@[hg.edges@[path[q].0 as int].head.0 as int].symbol@ == node.symbol@
                && hg.nodes@[hg.edges@[path[q].0 as int].head.0 as int].left == node.left
                && hg.nodes@[hg.edges@[path[q].0 as int].head.0 as int].right == node.right),
    decreases path.len() - k,
{
    if k < path.len() && path[k].0 < hg.edges@.len() && !same_label(
        hg.nodes@[hg.edges@[path[k].0 as int].head.0 as int],
        node,
    ) {
        lemma_first_edge_for_span(hg, path, node, k + 1);
        if first_edge_for(hg, path, node, k) is None {
            assert forall|q: int|
                k <= q < path.len() && (forall|t: int| k <= t <= q ==> (#[trigger] path[t]).0 < hg.edges@.len())
                implies !(hg.nodes@[hg.edges@[path[q].0 as int].head.0 as int].symbol@ == node.symbol@
                && hg.nodes@[hg.edges@[path[q].0 as int].head.0 as int].left == node.left
                && hg.nodes@[hg.edges@[path[q].0 as int].head.0 as int].right == node.right) by {
                if q > k {
                    assert forall|t: int| k + 1 <= t <= q implies (#[trigger] path[t]).0 < hg.edges@.len() by {
                    }
                }
            }
        }
    }
}

/// What `derive` gives for node `cur` comes from the first edge of the
/// path whose head carries `cur`'s category over exactly `cur`'s span:
/// every edge before it has a head that differs in category, left end or
/// right end, and the words are those that edge's target spells out.
pub proof fn lemma_derivation_edge(hg: Hypergraph, path: Seq<EdgeId>, cur: NodeId, fuel: nat)
    requires
        derivation(hg, path, cur, fuel) is Some,
    ensures
        fuel > 0,
        cur.0 < hg.nodes@.len(),
        exists|p: int|
            0 <= p < path.len() && (#[trigger] path[p]).0 < hg.edges@.len() && {
                let h = hg.nodes@[hg.edges@[path[p].0 as int].head.0 as int];
                let c = hg.nodes@[cur.0 as int];
                &&& h.symbol@ == c.symbol@
                &&& h.left == c.left
                &&& h.right == c.right
                &&& forall|q: int|
                    0 <= q < p ==> (#[trigger] path[q]).0 < hg.edges@.len() && !(
                    hg.nodes@[hg.edges@[path[q].0 as int].head.0 as int].symbol@ == c.symbol@
                        && hg.nodes@[hg.edges@[path[q].0 as int].head.0 as int].left == c.left
                        && hg.nodes@[hg.edges@[path[q].0 as int].head.0 as int].right == c.right)
                &&& derivation(hg, path, cur, fuel) == target_words(
                    hg,
                    path,
                    hg.edges@[path[p].0 as int],
                    hg.edges@[path[p].0 as int].rule.target@.len(),
                    (fuel - 1) as nat,
                )
            },
{
    let node = hg.nodes@[cur.0 as int];
    lemma_first_edge_for_span(hg, path, node, 0);
    let p = first_edge_for(hg, path, node, 0)->0;
    assert(path[p].0 < hg.edges@.len());
}

} // verus!
verus! {

// -------------------------------------------------- what all_paths keeps

/// `all_paths` drops a path only for an equal one: every nonempty
/// candidate has a kept path whose last edge reaches exactly the same set
/// of edges (the whole set, whatever the edges' rules), and every kept
/// path is one of the candidates.
pub proof fn lemma_distinct_reach_complete(hg: Hypergraph, cands: Seq<Seq<EdgeId>>)
    ensures
        forall|i: int|
            0 <= i < cands.len() && (#[trigger] cands[i]).len() > 0 ==> exists|q: int|
                0 <= q < distinct_reach(hg, cands).len() && reached(
                    hg,
                    #[trigger] distinct_reach(hg, cands)[q],
                    distinct_reach(hg, cands)[q].last(),
                ) == reached(hg, cands[i], cands[i].last()),
        forall|q: int|
            0 <= q < distinct_reach(hg, cands).len() ==> exists|i: int|
                0 <= i < cands.len() && #[trigger] cands[i] == #[trigger] distinct_reach(hg, cands)[q],
    decreases cands.len(),
{
    if cands.len() > 0 {
        let rest = cands.drop_last();
        lemma_distinct_reach_complete(hg, rest);
        let kept = distinct_reach(hg, rest);
        let r = distinct_reach(hg, cands);
        let p = cands.last();
        assert(r.len() >= kept.len());
        assert(forall|q: int| 0 <= q < kept.len() ==> r[q] == kept[q]);
        assert forall|i: int|
            0 <= i < cands.len() && (#[trigger] cands[i]).len() > 0 implies exists|q: int|
                0 <= q < r.len() && reached(hg, #[trigger] r[q], r[q].last()) == reached(
                    hg,
                    cands[i],
                    cands[i].last(),
                ) by {
            if i < cands.len() - 1 {
                assert(rest[i] == cands[i]);
                let q = choose|q: int|
                    0 <= q < kept.len() && reached(hg, #[trigger] kept[q], kept[q].last()) == reached(
                        hg,
                        rest[i],
                        rest[i].last(),
                    );
                assert(r[q] == kept[q]);
            } else {
                if r.len() > kept.len() {
                    assert(r[kept.len() as int] == p);
                } else {
                    let q = choose|q: int|
                        0 <= q < kept.len() && #[trigger] reached(hg, kept[q], kept[q].last())
                            == reached(hg, p, p.last());
                    assert(r[q] == kept[q]);
                }
            }
        }
        assert forall|q: int| 0 <= q < r.len() implies exists|i: int|
            0 <= i < cands.len() && #[trigger] cands[i] == #[trigger] r[q] by {
            if q < kept.len() {
                let i = choose|i: int| 0 <= i < rest.len() && #[trigger] rest[i] == #[trigger] kept[q];
                assert(cands[i] == rest[i]);
                assert(r[q] == kept[q]);
            } else {
                assert(r[q] == p);
                assert(cands[cands.len() - 1] == p);
            }
        }
    }
}

} // verus!
verus! {

// ---------------------------------------------- how a target is spelled out

/// A nonterminal of a target is filled by the tail that the rule's map
/// links it to: the first position of the map holding its index.
pub proof fn lemma_position_of(s: Seq<i32>, x: i32, k: int)
    requires
        0 <= k,
    ensures
        position_of(s, x, k) matches Some(q) ==> k <= q < s.len() && s[q] == x && forall|j: int|
            k <= j < q ==> #[trigger] s[j] != x,
        position_of(s, x, k) is None ==> forall|j: int| k <= j < s.len() ==> #[trigger] s[j] != x,
    decreases s.len() - k,
{
    if k < s.len() && s[k] != x {
        lemma_position_of(s, x, k + 1);
    }
}

/// The words that an edge's target spells out: a target of words alone
/// spells out exactly those words, in order; and a target spells out its
/// first `k + 1` symbols as its first `k` followed by what the next symbol
/// gives (the word itself, or what the linked tail derives).
pub proof fn lemma_target_words(hg: Hypergraph, path: Seq<EdgeId>, e: Edge, k: nat, fuel: nat)
    requires
        k <= e.rule.target@.len(),
    ensures
        (forall|t: int| 0 <= t < k ==> (#[trigger] e.rule.target@[t])@ is T) ==> target_words(
            hg,
            path,
            e,
            k,
            fuel,
        ) == Some(Seq::new(k, |t: int| e.rule.target@[t]@->T_0)),
        k < e.rule.target@.len() ==> (target_words(hg, path, e, k + 1, fuel) matches Some(ws) ==> {
            &&& target_words(hg, path, e, k, fuel) matches Some(pre)
            &&& ws.take(pre.len() as int) == pre
            &&& match e.rule.target@[k as int]@ {
                SymbolView::T(w) => ws == pre.push(w),
                SymbolView::NT(_, idx) => exists|q: int|
                    0 <= q < e.tails@.len() && position_of(e.rule.map@, idx, 0) == Some(q)
                        && #[trigger] derivation(hg, path, e.tails@[q], fuel) == Some(
                        ws.skip(pre.len() as int),
                    ),
            }
        }),
    decreases k,
{
    if k > 0 {
        lemma_target_words(hg, path, e, (k - 1) as nat, fuel);
        if forall|t: int| 0 <= t < k ==> (#[trigger] e.rule.target@[t])@ is T {
            let prev = Seq::new((k - 1) as nat, |t: int| e.rule.target@[t]@->T_0);
            assert(target_words(hg, path, e, (k - 1) as nat, fuel) == Some(prev));
            assert(e.rule.target@[k - 1]@ is T);
            assert(prev.push(e.rule.target@[k - 1]@->T_0) =~= Seq::new(
                k,
                |t: int| e.rule.target@[t]@->T_0,
            ));
        }
    } else {
        assert(Seq::new(0, |t: int| e.rule.target@[t]@->T_0) =~= Seq::<Seq<char>>::empty());
    }
    if k < e.rule.target@.len() {
        if let Some(ws) = target_words(hg, path, e, k + 1, fuel) {
            let k1 = (k + 1) as nat;
            assert(((k1 - 1) as nat) == k);
            assert(target_words(hg, path, e, k, fuel) is Some);
            let pre = target_words(hg, path, e, k, fuel)->0;
            assert(e.rule.target@[k1 - 1] == e.rule.target@[k as int]);
            match e.rule.target@[k as int]@ {
                SymbolView::T(w) => {
                    assert(ws == pre.push(w));
                    assert(ws.take(pre.len() as int) =~= pre);
                },
                SymbolView::NT(_, idx) => {
                    assert(position_of(e.rule.map@, idx, 0) is Some);
                    let q = position_of(e.rule.map@, idx, 0)->0;
                    lemma_position_of(e.rule.map@, idx, 0);
                    assert(0 <= q < e.tails@.len());
                    let ws2 = derivation(hg, path, e.tails@[q], fuel)->0;
                    assert(ws == pre + ws2);
                    assert(derivation(hg, path, e.tails@[q], fuel) == Some(ws2));
                    assert(ws.take(pre.len() as int) =~= pre);
                    assert(ws.skip(pre.len() as int) =~= ws2);
                },
            }
        }
    }
}

} // verus!
verus! {

// ------------------------------------------------- the paths all_paths tries

/// Below an edge, a tail node is expanded by the first edge of the path,
/// from `k` on, whose head is that node.
pub proof fn lemma_child_edge(hg: Hypergraph, path: Seq<EdgeId>, t: NodeId, k: int)
    requires
        0 <= k,
    ensures
        child_edge(hg, path, t, k) matches Some(c) ==> exists|p: int|
            k <= p < path.len() && #[trigger] path[p] == c && hg.edges@[c.0 as int].head == t
                && forall|q: int| k <= q < p ==> hg.edges@[(#[trigger] path[q]).0 as int].head != t,
        child_edge(hg, path, t, k) is None ==> forall|q: int|
            k <= q < path.len() ==> hg.edges@[(#[trigger] path[q]).0 as int].head != t,
    decreases path.len() - k,
{
    if k < path.len() && hg.edges@[path[k].0 as int].head != t {
        lemma_child_edge(hg, path, t, k + 1);
        if let Some(c) = child_edge(hg, path, t, k + 1) {
            let p = choose|p: int|
                k + 1 <= p < path.len() && #[trigger] path[p] == c && hg.edges@[c.0 as int].head == t
                    && forall|q: int| k + 1 <= q < p ==> hg.edges@[(#[trigger] path[q]).0 as int].head != t;
            assert(path[p] == c);
        }
    } else if k < path.len() {
        assert(path[k] == path[k]);
    }
}

/// The incoming edges of the nodes of `order` that edges enter, in order.
pub open spec fn entered(order: Seq<NodeId>, nodes: Seq<Node>) -> Seq<Seq<EdgeId>>
    decreases order.len(),
{
    if order.len() == 0 {
        Seq::empty()
    } else {
        let rest = entered(order.drop_last(), nodes);
        let inc = nodes[order.last().0 as int].incoming@;
        if inc.len() == 0 {
            rest
        } else {
            rest.push(inc)
        }
    }
}

/// `p` picks one edge from each list of `ls`, in order.
pub open spec fn picks(p: Seq<EdgeId>, ls: Seq<Seq<EdgeId>>) -> bool {
    &&& p.len() == ls.len()
    &&& forall|t: int| 0 <= t < ls.len() ==> ls[t].contains(#[trigger] p[t])
}

/// What `expand` holds: each path of `ps` extended by each edge of `inc`.
proof fn lemma_expand(ps: Seq<Seq<EdgeId>>, inc: Seq<EdgeId>)
    ensures
        forall|x: Seq<EdgeId>|
            #[trigger] expand(ps, inc).contains(x) <==> exists|i: int, j: int|
                0 <= i < ps.len() && 0 <= j < inc.len() && x == (#[trigger] ps[i]).push(#[trigger] inc[j]),
    decreases ps.len(),
{
    if ps.len() > 0 {
        let rest = ps.drop_last();
        lemma_expand(rest, inc);
        let a = extend_each(ps.last(), inc);
        let b = expand(rest, inc);
        assert(expand(ps, inc) == a + b);
        assert forall|x: Seq<EdgeId>| #[trigger] expand(ps, inc).contains(x) implies exists|i: int, j: int|
            0 <= i < ps.len() && 0 <= j < inc.len() && x == (#[trigger] ps[i]).push(#[trigger] inc[j]) by {
            let w = choose|w: int| 0 <= w < (a + b).len() && (a + b)[w] == x;
            if w < a.len() {
                assert(a[w] == x);
                assert(ps[ps.len() - 1] == ps.last());
                assert(x == ps[ps.len() - 1].push(inc[w]));
            } else {
                assert(b[w - a.len()] == x);
                assert(b.contains(x));
                let (i, j) = choose|i: int, j: int|
                    0 <= i < rest.len() && 0 <= j < inc.len() && x == (#[trigger] rest[i]).push(#[trigger] inc[j]);
                assert(ps[i] == rest[i]);
            }
        }
        assert forall|x: Seq<EdgeId>| (exists|i: int, j: int|
            0 <= i < ps.len() && 0 <= j < inc.len() && x == (#[trigger] ps[i]).push(#[trigger] inc[j]))
            implies #[trigger] expand(ps, inc).contains(x) by {
            let (i, j) = choose|i: int, j: int|
                0 <= i < ps.len() && 0 <= j < inc.len() && x == (#[trigger] ps[i]).push(#[trigger] inc[j]);
            if i == ps.len() - 1 {
                assert(a[j] == x);
                assert((a + b)[j] == x);
            } else {
                assert(rest[i] == ps[i]);
                assert(b.contains(x));
                let w = choose|w: int| 0 <= w < b.len() && b[w] == x;
                assert((a + b)[a.len() + w] == x);
            }
        }
    }
}

/// The paths that `all_paths` tries along a node order are exactly the
/// ways to pick, for each node of the order that edges enter, one of its
/// incoming edges, in the order of the nodes: every candidate is such a
/// pick, and every such pick is a candidate.
pub proof fn lemma_candidates(order: Seq<NodeId>, nodes: Seq<Node>)
    ensures
        forall|i: int|
            0 <= i < candidates(order, nodes).len() ==> picks(
                #[trigger] candidates(order, nodes)[i],
                entered(order, nodes),
            ),
        forall|p: Seq<EdgeId>| #[trigger] picks(p, entered(order, nodes)) ==> candidates(order, nodes).contains(p),
    decreases order.len(),
{
    let ls = entered(order, nodes);
    let cs = candidates(order, nodes);
    if order.len() == 0 {
        assert(cs == seq![Seq::<EdgeId>::empty()]);
        assert forall|p: Seq<EdgeId>| #[trigger] picks(p, ls) implies cs.contains(p) by {
            assert(p =~= Seq::<EdgeId>::empty());
            assert(cs[0] == p);
        }
    } else {
        let o2 = order.drop_last();
        lemma_candidates(o2, nodes);
        let ls0 = entered(o2, nodes);
        let c0 = candidates(o2, nodes);
        let inc = nodes[order.last().0 as int].incoming@;
        if inc.len() > 0 {
            lemma_expand(c0, inc);
            assert(ls == ls0.push(inc));
            assert forall|i: int| 0 <= i < cs.len() implies picks(#[trigger] cs[i], ls) by {
                let x = cs[i];
                assert(cs.contains(x));
                let (a, j) = choose|a: int, j: int|
                    0 <= a < c0.len() && 0 <= j < inc.len() && x == (#[trigger] c0[a]).push(#[trigger] inc[j]);
                assert(picks(c0[a], ls0));
                assert forall|t: int| 0 <= t < ls.len() implies ls[t].contains(#[trigger] x[t]) by {
                    if t < ls0.len() {
                        assert(x[t] == c0[a][t]);
                        assert(ls[t] == ls0[t]);
                    } else {
                        assert(x[t] == inc[j]);
                        assert(ls[t] == inc);
                    }
                }
            }
            assert forall|p: Seq<EdgeId>| #[trigger] picks(p, ls) implies cs.contains(p) by {
                let p0 = p.drop_last();
                assert forall|t: int| 0 <= t < ls0.len() implies ls0[t].contains(#[trigger] p0[t]) by {
                    assert(p0[t] == p[t]);
                    assert(ls[t] == ls0[t]);
                }
                assert(picks(p0, ls0));
                assert(c0.contains(p0));
                let a = choose|a: int| 0 <= a < c0.len() && c0[a] == p0;
                assert(ls[ls0.len() as int] == inc);
                assert(inc.contains(p[ls0.len() as int]));
                let j = choose|j: int| 0 <= j < inc.len() && inc[j] == p[ls0.len() as int];
                assert(p =~= c0[a].push(inc[j]));
            }
        } else {
            assert(ls == ls0);
            assert(cs == c0);
        }
    }
}

} // verus!
