//! A hypergraph of derivations: nodes are categories over spans, each edge
//! leads from a list of tail nodes to a head node through a rule.
use vstd::prelude::*;

use std::collections::HashMap;

use crate::features::Features;
use crate::grammar::Rule;

verus! {

broadcast use vstd::std_specs::hash::group_hash_axioms;

/// The position of a node in its hypergraph.
#[derive(Debug, Clone, Copy, PartialEq, Eq, Structural, Hash, PartialOrd, Ord)]
pub struct NodeId(pub usize);

/// The position of an edge in its hypergraph.
#[derive(Debug, Clone, Copy, PartialEq, Eq, Structural, Hash, PartialOrd, Ord)]
pub struct EdgeId(pub usize);

/// A node: its external id, its category and span, and the edges that
/// leave it (once per time it is a tail) and that enter it.
#[derive(Debug)]
pub struct Node {
    pub id: i64,
    pub symbol: String,
    pub left: i32,
    pub right: i32,
    pub outgoing: Vec<EdgeId>,
    pub incoming: Vec<EdgeId>,
}

impl Node {
    /// A node without edges.
    pub fn new(id: i64, symbol: &str, left: i32, right: i32) -> (r: Node)
        ensures
            r.id == id,
            r.symbol@ == symbol@,
            r.left == left,
            r.right == right,
            r.outgoing@.len() == 0,
            r.incoming@.len() == 0,
    {
        Node {
            id,
            symbol: String::from_str(symbol),
            left,
            right,
            outgoing: Vec::new(),
            incoming: Vec::new(),
        }
    }
}

/// An edge from `tails` to `head` through `rule`, with the rule's feature
/// values and a mark that counts tails already visited by a traversal.
#[derive(Debug)]
pub struct Edge {
    pub head: NodeId,
    pub tails: Vec<NodeId>,
    pub f: Features,
    pub mark: usize,
    pub rule: Rule,
}

impl Edge {
    /// The number of tails.
    pub fn arity(&self) -> (r: usize)
        ensures
            r == self.tails@.len(),
    {
        self.tails.len()
    }

    /// Every tail has been visited.
    pub fn marked(&self) -> (r: bool)
        ensures
            r == (self.mark == self.tails@.len()),
    {
        self.arity() == self.mark
    }
}

/// A hypergraph, with its nodes indexed by their external ids.
#[derive(Debug)]
pub struct Hypergraph {
    pub nodes: Vec<Node>,
    pub edges: Vec<Edge>,
    pub nodes_by_id: HashMap<i64, NodeId>,
}

/// How many times `x` occurs in `s`.
pub open spec fn count_in<A>(s: Seq<A>, x: A) -> nat
    decreases s.len(),
{
    if s.len() == 0 {
        0
    } else {
        count_in(s.drop_last(), x) + if s.last() == x {
            1nat
        } else {
            0nat
        }
    }
}

/// The head and tails of each edge.
pub open spec fn shape(edges: Seq<Edge>) -> Seq<(NodeId, Seq<NodeId>)> {
    edges.map_values(|e: Edge| (e.head, e.tails@))
}

/// The edges whose head is node `v`, in order.
pub open spec fn incoming_of(shape: Seq<(NodeId, Seq<NodeId>)>, v: usize) -> Seq<EdgeId>
    decreases shape.len(),
{
    if shape.len() == 0 {
        Seq::empty()
    } else {
        let rest = incoming_of(shape.drop_last(), v);
        if shape.last().0 == NodeId(v) {
            rest.push(EdgeId((shape.len() - 1) as usize))
        } else {
            rest
        }
    }
}

/// `e`, `c` times.
pub open spec fn repeated(e: EdgeId, c: nat) -> Seq<EdgeId> {
    Seq::new(c, |k: int| e)
}

/// The edges that have node `v` among their tails, in order, each as many
/// times as `v` is one of its tails.
pub open spec fn outgoing_of(shape: Seq<(NodeId, Seq<NodeId>)>, v: usize) -> Seq<EdgeId>
    decreases shape.len(),
{
    if shape.len() == 0 {
        Seq::empty()
    } else {
        outgoing_of(shape.drop_last(), v) + repeated(
            EdgeId((shape.len() - 1) as usize),
            count_in(shape.last().1, NodeId(v)),
        )
    }
}

/// The node ids mapped to the nodes that carry them; of two nodes with the
/// same id, the later one.
pub open spec fn ids_of(ids: Seq<i64>) -> Map<i64, NodeId>
    decreases ids.len(),
{
    if ids.len() == 0 {
        Map::empty()
    } else {
        ids_of(ids.drop_last()).insert(ids.last(), NodeId((ids.len() - 1) as usize))
    }
}

/// The external ids of the nodes, in order.
pub open spec fn node_ids(nodes: Seq<Node>) -> Seq<i64> {
    nodes.map_values(|n: Node| n.id)
}

/// An edge whose head and tails are among `n` nodes and whose mark does
/// not exceed its number of tails.
pub open spec fn edge_ok(e: Edge, n: nat) -> bool {
    &&& e.head.0 < n
    &&& forall|t: int| 0 <= t < e.tails@.len() ==> (#[trigger] e.tails@[t]).0 < n
    &&& e.mark <= e.tails@.len()
}

impl Hypergraph {
    /// Every edge joins nodes of the graph, each node lists exactly the
    /// edges that enter and leave it, and the id index maps every id to its
    /// last node.
    pub open spec fn wf(&self) -> bool {
        &&& forall|e: int|
            0 <= e < self.edges@.len() ==> edge_ok(#[trigger] self.edges@[e], self.nodes@.len())
        &&& forall|v: int|
            0 <= v < self.nodes@.len() ==> (#[trigger] self.nodes@[v]).incoming@ == incoming_of(
                shape(self.edges@),
                v as usize,
            ) && self.nodes@[v].outgoing@ == outgoing_of(shape(self.edges@), v as usize)
        &&& self.nodes_by_id@ == ids_of(node_ids(self.nodes@))
    }

    /// An empty hypergraph.
    pub fn new() -> (hg: Hypergraph)
        ensures
            hg.wf(),
            hg.nodes@.len() == 0,
            hg.edges@.len() == 0,
    {
        let hg = Hypergraph { nodes: Vec::new(), edges: Vec::new(), nodes_by_id: HashMap::new() };
        assert(node_ids(hg.nodes@) =~= Seq::<i64>::empty());
        hg
    }

    /// Adds a node without edges and indexes it under `id`.
    pub fn add_node(&mut self, id: i64, symbol: &str, left: i32, right: i32) -> (r: NodeId)
        requires
            old(self).wf(),
        ensures
            final(self).wf(),
            r.0 == old(self).nodes@.len(),
            final(self).nodes@.len() == old(self).nodes@.len() + 1,
            forall|v: int|
                0 <= v < old(self).nodes@.len() ==> #[trigger] final(self).nodes@[v] == old(
                    self,
                ).nodes@[v],
            final(self).nodes@[r.0 as int].id == id,
            final(self).nodes@[r.0 as int].symbol@ == symbol@,
            final(self).nodes@[r.0 as int].left == left,
            final(self).nodes@[r.0 as int].right == right,
            final(self).edges@ == old(self).edges@,
            final(self).nodes_by_id@ == old(self).nodes_by_id@.insert(id, r),
    {
        let nid = NodeId(self.nodes.len());
        let ghost ids0 = node_ids(self.nodes@);
        let ghost n0 = self.nodes@.len();
        self.nodes.push(Node::new(id, symbol, left, right));
        self.nodes_by_id.insert(id, nid);
        proof {
            let s = shape(self.edges@);
            assert(node_ids(self.nodes@).drop_last() =~= ids0);
            assert(node_ids(self.nodes@).last() == id);
            assert forall|e: int| 0 <= e < s.len() implies (#[trigger] s[e]).0 != nid && !s[e].1.contains(
                nid,
            ) by {
                assert(edge_ok(self.edges@[e], n0));
                if s[e].1.contains(nid) {
                    let t = choose|t: int| 0 <= t < s[e].1.len() && s[e].1[t] == nid;
                    assert(self.edges@[e].tails@[t].0 < n0);
                }
            }
            lemma_no_incidence(s, nid.0);
            assert forall|v: int| 0 <= v < self.nodes@.len() implies (#[trigger] self.nodes@[v]).incoming@
                == incoming_of(s, v as usize) && self.nodes@[v].outgoing@ == outgoing_of(
                s,
                v as usize,
            ) by {
                if v == n0 {
                    assert(self.nodes@[v].incoming@ =~= Seq::<EdgeId>::empty());
                    assert(self.nodes@[v].outgoing@ =~= Seq::<EdgeId>::empty());
                }
            }
            assert forall|e: int| 0 <= e < self.edges@.len() implies edge_ok(
                #[trigger] self.edges@[e],
                self.nodes@.len(),
            ) by {
                assert(edge_ok(self.edges@[e], n0));
            }
        }
        nid
    }

    /// Adds an edge from `tails` to `head` through `rule`, unmarked, and
    /// lists it with its head and with each of its tails.
    pub fn add_edge(&mut self, head: NodeId, tails: Vec<NodeId>, f: Features, rule: Rule) -> (r:
        EdgeId)
        requires
            old(self).wf(),
            head.0 < old(self).nodes@.len(),
            forall|t: int| 0 <= t < tails@.len() ==> (#[trigger] tails@[t]).0 < old(self).nodes@.len(),
        ensures
            final(self).wf(),
            r.0 == old(self).edges@.len(),
            final(self).edges@.len() == old(self).edges@.len() + 1,
            forall|e: int|
                0 <= e < old(self).edges@.len() ==> #[trigger] final(self).edges@[e] == old(
                    self,
                ).edges@[e],
            final(self).edges@[r.0 as int].head == head,
            final(self).edges@[r.0 as int].tails@ == tails@,
            final(self).edges@[r.0 as int].f == f,
            final(self).edges@[r.0 as int].mark == 0,
            final(self).edges@[r.0 as int].rule == rule,
            final(self).nodes@.len() == old(self).nodes@.len(),
            node_ids(final(self).nodes@) == node_ids(old(self).nodes@),
            forall|v: int|
                0 <= v < old(self).nodes@.len() ==> (#[trigger] final(self).nodes@[v]).id == old(
                    self,
                ).nodes@[v].id && final(self).nodes@[v].symbol == old(self).nodes@[v].symbol
                    && final(self).nodes@[v].left == old(self).nodes@[v].left
                    && final(self).nodes@[v].right == old(self).nodes@[v].right,
            final(self).nodes_by_id@ == old(self).nodes_by_id@,
    {
        let eid = EdgeId(self.edges.len());
        let ghost s0 = shape(self.edges@);
        let ghost nodes0 = self.nodes@;
        let nn = self.nodes.len();
        let ghost n = self.nodes@.len();
        let ghost tv = tails@;
        self.edges.push(Edge { head, tails, f, mark: 0, rule });
        let ghost s1 = shape(self.edges@);
        let ghost e1 = self.edges@;
        proof {
            assert(s1.drop_last() =~= s0);
            assert(s1.last() == (head, tv));
        }
        let ghost nodes_a = self.nodes@;
        self.nodes[head.0].incoming.push(eid);
        proof {
            assert forall|v: int| 0 <= v < n implies (#[trigger] self.nodes@[v]).incoming@
                == incoming_of(s1, v as usize) by {
                assert(nodes_a[v] == old(self).nodes@[v]);
                assert(nodes_a[v].incoming@ == incoming_of(s0, v as usize));
                assert(incoming_of(s1, v as usize) == if s1.last().0 == NodeId(v as usize) {
                    incoming_of(s0, v as usize).push(EdgeId((s1.len() - 1) as usize))
                } else {
                    incoming_of(s0, v as usize)
                });
                assert(s1.len() == s0.len() + 1);
                assert(eid == EdgeId((s1.len() - 1) as usize));
                if v == head.0 {
                    assert(s1.last().0 == NodeId(v as usize));
                    assert(self.nodes@[v].incoming@ == nodes_a[v].incoming@.push(eid));
                } else {
                    assert(s1.last().0 != NodeId(v as usize));
                    assert(self.nodes@[v] == nodes_a[v]);
                }
            }
            assert forall|v: int| 0 <= v < n implies (#[trigger] self.nodes@[v]).outgoing@
                == outgoing_of(s0, v as usize) + repeated(eid, count_in(tv.take(0), NodeId(v as usize))) by {
                assert(tv.take(0) =~= Seq::<NodeId>::empty());
                assert(outgoing_of(s0, v as usize) + repeated(eid, 0) =~= outgoing_of(
                    s0,
                    v as usize,
                ));
            }
        }
        let mut k: usize = 0;
        while k < self.edges[eid.0].tails.len()
            invariant
                eid.0 == s0.len(),
                self.edges@ == e1,
                e1.len() == s0.len() + 1,
                nodes0.len() == n,
                n == nn,
                self.nodes_by_id == old(self).nodes_by_id,
                shape(self.edges@) == s1,
                s1.drop_last() == s0,
                s1.last() == (head, tv),
                self.edges@[eid.0 as int].tails@ == tv,
                k <= tv.len(),
                forall|t: int| 0 <= t < tv.len() ==> (#[trigger] tv[t]).0 < n,
                self.nodes@.len() == n,
                forall|v: int|
                    0 <= v < n ==> (#[trigger] self.nodes@[v]).id == nodes0[v].id
                        && self.nodes@[v].symbol == nodes0[v].symbol && self.nodes@[v].left
                        == nodes0[v].left && self.nodes@[v].right == nodes0[v].right
                        && self.nodes@[v].incoming@ == incoming_of(s1, v as usize)
                        && self.nodes@[v].outgoing@ == outgoing_of(s0, v as usize) + repeated(eid, count_in(tv.take(k as int), NodeId(v as usize))),
            decreases tv.len() - k,
        {
            let t = self.edges[eid.0].tails[k];
            let ghost before = self.nodes@;
            self.nodes[t.0].outgoing.push(eid);
            proof {
                assert(tv.take(k + 1).drop_last() =~= tv.take(k as int));
                assert(tv.take(k + 1).last() == t);
                assert forall|v: int| 0 <= v < n implies (#[trigger] self.nodes@[v]).outgoing@
                    == outgoing_of(s0, v as usize) + repeated(eid, count_in(tv.take(k + 1), NodeId(v as usize))) by {
                    assert(count_in(tv.take(k + 1), NodeId(v as usize)) == count_in(
                        tv.take(k as int),
                        NodeId(v as usize),
                    ) + if t == NodeId(v as usize) {
                        1nat
                    } else {
                        0nat
                    });
                    if v == t.0 {
                        assert(self.nodes@[v].outgoing@ == before[v].outgoing@.push(eid));
                        assert(outgoing_of(s0, v as usize) + repeated(eid, count_in(tv.take(k + 1), NodeId(v as usize))) =~= (outgoing_of(s0, v as usize) + repeated(eid, count_in(tv.take(k as int), NodeId(v as usize)))).push(eid));
                    } else {
                        assert(self.nodes@[v] == before[v]);
                    }
                }
            }
            k += 1;
        }
        proof {
            assert(tv.take(tv.len() as int) =~= tv);
            assert forall|v: int| 0 <= v < n implies (#[trigger] self.nodes@[v]).outgoing@
                == outgoing_of(s1, v as usize) by {
                assert(outgoing_of(s1, v as usize) == outgoing_of(s0, v as usize) + repeated(
                    EdgeId((s1.len() - 1) as usize),
                    count_in(s1.last().1, NodeId(v as usize)),
                ));
            }
            assert(node_ids(self.nodes@) =~= node_ids(nodes0));
            assert forall|e: int| 0 <= e < self.edges@.len() implies edge_ok(
                #[trigger] self.edges@[e],
                self.nodes@.len(),
            ) by {
                if e < s0.len() {
                    assert(e1[e] == old(self).edges@[e]);
                    assert(edge_ok(old(self).edges@[e], n));
                }
            }
        }
        eid
    }

    /// The node at `nid`.
    pub fn node(&self, nid: NodeId) -> (r: &Node)
        requires
            nid.0 < self.nodes@.len(),
        ensures
            *r == self.nodes@[nid.0 as int],
    {
        &self.nodes[nid.0]
    }

    /// The edge at `eid`.
    pub fn edge(&self, eid: EdgeId) -> (r: &Edge)
        requires
            eid.0 < self.edges@.len(),
        ensures
            *r == self.edges@[eid.0 as int],
    {
        &self.edges[eid.0]
    }

    /// Clears the mark of every edge.
    pub fn reset(&mut self)
        requires
            old(self).wf(),
        ensures
            final(self).wf(),
            final(self).nodes == old(self).nodes,
            final(self).nodes_by_id == old(self).nodes_by_id,
            final(self).edges@.len() == old(self).edges@.len(),
            forall|e: int|
                0 <= e < old(self).edges@.len() ==> (#[trigger] final(self).edges@[e]).mark == 0
                    && final(self).edges@[e].head == old(self).edges@[e].head
                    && final(self).edges@[e].tails == old(self).edges@[e].tails
                    && final(self).edges@[e].f == old(self).edges@[e].f
                    && final(self).edges@[e].rule == old(self).edges@[e].rule,
    {
        let ghost e0 = self.edges@;
        let mut k: usize = 0;
        while k < self.edges.len()
            invariant
                k <= self.edges@.len(),
                self.edges@.len() == e0.len(),
                self.nodes == old(self).nodes,
                self.nodes_by_id == old(self).nodes_by_id,
                forall|e: int|
                    0 <= e < e0.len() ==> (#[trigger] self.edges@[e]).head == e0[e].head
                        && self.edges@[e].tails == e0[e].tails && self.edges@[e].f == e0[e].f
                        && self.edges@[e].rule == e0[e].rule && (e < k ==> self.edges@[e].mark
                        == 0) && (e >= k ==> self.edges@[e].mark == e0[e].mark),
            decreases e0.len() - k,
        {
            self.edges[k].mark = 0;
            k += 1;
        }
        proof {
            assert(shape(self.edges@) =~= shape(e0));
            assert forall|e: int| 0 <= e < self.edges@.len() implies edge_ok(
                #[trigger] self.edges@[e],
                self.nodes@.len(),
            ) by {
                assert(edge_ok(e0[e], self.nodes@.len()));
            }
        }
    }
}

/// No edge enters or leaves a node that no edge names.
pub proof fn lemma_no_incidence(s: Seq<(NodeId, Seq<NodeId>)>, v: usize)
    requires
        forall|e: int|
            0 <= e < s.len() ==> (#[trigger] s[e]).0 != NodeId(v) && !s[e].1.contains(NodeId(v)),
    ensures
        incoming_of(s, v) == Seq::<EdgeId>::empty(),
        outgoing_of(s, v) == Seq::<EdgeId>::empty(),
    decreases s.len(),
{
    if s.len() > 0 {
        assert forall|e: int| 0 <= e < s.drop_last().len() implies (#[trigger] s.drop_last()[e]).0
            != NodeId(v) && !s.drop_last()[e].1.contains(NodeId(v)) by {
            assert(s.drop_last()[e] == s[e]);
        }
        lemma_no_incidence(s.drop_last(), v);
        lemma_count_absent(s.last().1, NodeId(v));
        assert(s.last() == s[s.len() - 1]);
        assert(outgoing_of(s, v) =~= Seq::<EdgeId>::empty());
    }
}

/// An element that does not occur is counted zero times.
pub proof fn lemma_count_absent<A>(s: Seq<A>, x: A)
    requires
        !s.contains(x),
    ensures
        count_in(s, x) == 0,
    decreases s.len(),
{
    if s.len() > 0 {
        assert(!s.drop_last().contains(x)) by {
            if s.drop_last().contains(x) {
                let k = choose|k: int| 0 <= k < s.drop_last().len() && s.drop_last()[k] == x;
                assert(s[k] == x);
            }
        }
        lemma_count_absent(s.drop_last(), x);
        assert(s.last() == s[s.len() - 1]);
    }
}

} // verus!
verus! {

/// Counting over a concatenation adds up.
pub proof fn lemma_count_concat<A>(a: Seq<A>, b: Seq<A>, x: A)
    ensures
        count_in(a + b, x) == count_in(a, x) + count_in(b, x),
    decreases b.len(),
{
    if b.len() == 0 {
        assert(a + b =~= a);
    } else {
        assert((a + b).drop_last() =~= a + b.drop_last());
        assert((a + b).last() == b.last());
        lemma_count_concat(a, b.drop_last(), x);
    }
}

/// `e` repeated `c` times holds `x` `c` times if it is `e`, else never.
pub proof fn lemma_count_repeated(e: EdgeId, c: nat, x: EdgeId)
    ensures
        count_in(repeated(e, c), x) == if e == x {
            c
        } else {
            0
        },
    decreases c,
{
    if c > 0 {
        assert(repeated(e, c).drop_last() =~= repeated(e, (c - 1) as nat));
        lemma_count_repeated(e, (c - 1) as nat, x);
    }
}

/// Counting one more element of a sequence.
pub proof fn lemma_count_take<A>(s: Seq<A>, k: int, x: A)
    requires
        0 <= k < s.len(),
    ensures
        count_in(s.take(k + 1), x) == count_in(s.take(k), x) + if s[k] == x {
            1nat
        } else {
            0nat
        },
{
    assert(s.take(k + 1).drop_last() =~= s.take(k));
}

/// A prefix holds an element at most as often as the whole.
pub proof fn lemma_count_prefix<A>(s: Seq<A>, k: int, x: A)
    requires
        0 <= k <= s.len(),
    ensures
        count_in(s.take(k), x) <= count_in(s, x),
    decreases s.len() - k,
{
    if k < s.len() {
        lemma_count_take(s, k, x);
        lemma_count_prefix(s, k + 1, x);
    } else {
        assert(s.take(k) =~= s);
    }
}

/// Each edge is listed among the edges leaving `v` as often as `v` is one
/// of its tails.
pub proof fn lemma_outgoing_count(s: Seq<(NodeId, Seq<NodeId>)>, v: usize, e: int)
    requires
        0 <= e <= usize::MAX,
        s.len() <= usize::MAX,
    ensures
        count_in(outgoing_of(s, v), EdgeId(e as usize)) == if e < s.len() {
            count_in(s[e].1, NodeId(v))
        } else {
            0
        },
    decreases s.len(),
{
    if s.len() > 0 {
        let last = (s.len() - 1) as usize;
        lemma_count_concat(
            outgoing_of(s.drop_last(), v),
            repeated(EdgeId(last), count_in(s.last().1, NodeId(v))),
            EdgeId(e as usize),
        );
        lemma_count_repeated(EdgeId(last), count_in(s.last().1, NodeId(v)), EdgeId(e as usize));
        lemma_outgoing_count(s.drop_last(), v, e);
        if e < s.len() - 1 {
            assert(s.drop_last()[e] == s[e]);
        }
    }
}

/// The edges listed as entering `v` are edges with head `v`.
pub proof fn lemma_incoming_heads(s: Seq<(NodeId, Seq<NodeId>)>, v: usize)
    requires
        s.len() <= usize::MAX,
    ensures
        forall|k: int|
            0 <= k < incoming_of(s, v).len() ==> (#[trigger] incoming_of(s, v)[k]).0 < s.len()
                && s[incoming_of(s, v)[k].0 as int].0 == NodeId(v),
    decreases s.len(),
{
    if s.len() > 0 {
        lemma_incoming_heads(s.drop_last(), v);
        let r = incoming_of(s.drop_last(), v);
        assert forall|k: int| 0 <= k < incoming_of(s, v).len() implies (#[trigger] incoming_of(
            s,
            v,
        )[k]).0 < s.len() && s[incoming_of(s, v)[k].0 as int].0 == NodeId(v) by {
            if k < r.len() {
                assert(incoming_of(s, v)[k] == r[k]);
                assert(s[r[k].0 as int] == s.drop_last()[r[k].0 as int]);
            }
        }
    }
}

/// Every edge is listed as entering its head.
pub proof fn lemma_incoming_has(s: Seq<(NodeId, Seq<NodeId>)>, e: int)
    requires
        0 <= e < s.len() <= usize::MAX,
    ensures
        incoming_of(s, s[e].0.0).contains(EdgeId(e as usize)),
    decreases s.len(),
{
    let v = s[e].0.0;
    if e == s.len() - 1 {
        assert(incoming_of(s, v).last() == EdgeId(e as usize));
    } else {
        assert(s.drop_last()[e] == s[e]);
        lemma_incoming_has(s.drop_last(), e);
        let r = incoming_of(s.drop_last(), v);
        let k = choose|k: int| 0 <= k < r.len() && r[k] == EdgeId(e as usize);
        assert(incoming_of(s, v)[k] == r[k]);
    }
}

/// The edges listed as leaving `v` are edges of the graph.
pub proof fn lemma_outgoing_edges(s: Seq<(NodeId, Seq<NodeId>)>, v: usize)
    requires
        s.len() <= usize::MAX,
    ensures
        forall|k: int|
            0 <= k < outgoing_of(s, v).len() ==> (#[trigger] outgoing_of(s, v)[k]).0 < s.len(),
    decreases s.len(),
{
    if s.len() > 0 {
        lemma_outgoing_edges(s.drop_last(), v);
        let r = outgoing_of(s.drop_last(), v);
        let t = repeated(EdgeId((s.len() - 1) as usize), count_in(s.last().1, NodeId(v)));
        assert forall|k: int| 0 <= k < outgoing_of(s, v).len() implies (#[trigger] outgoing_of(
            s,
            v,
        )[k]).0 < s.len() by {
            if k < r.len() {
                assert(outgoing_of(s, v)[k] == r[k]);
            } else {
                assert(outgoing_of(s, v)[k] == t[k - r.len()]);
            }
        }
    }
}

} // verus!
