//! A hypergraph built from the records of a stored one: its nodes with
//! their ids, and its edges with the ids of their head and tails, their
//! feature values and the text of their rule.
use vstd::prelude::*;

use crate::features::{pairs_view, Features};
use crate::grammar::{rule_read_from, rule_text, rule_text_ok, syms_view, Rule};
use crate::hypergraph::{edge_ok, ids_of, node_ids, Edge, Hypergraph, Node, NodeId};
use crate::json::{
    deref_opt, get_int, get_member, int_of, int_of_text, json_of, member, parse_json, JsonTree,
};
use crate::text::{decimal, push_decimal};

verus! {

broadcast use vstd::std_specs::hash::group_hash_axioms;

/// A stored node: its id, category and span.
#[derive(Debug)]
pub struct NodeRecord {
    pub id: i64,
    pub cat: String,
    pub left: i32,
    pub right: i32,
}

/// A stored edge: the ids of its head and tails, its feature values and
/// the text of its rule.
#[derive(Debug)]
pub struct EdgeRecord {
    pub head: i64,
    pub tails: Vec<i64>,
    pub f: Features,
    pub rule: String,
}

/// The ids of the node records.
pub open spec fn record_ids(nodes: Seq<NodeRecord>) -> Seq<i64> {
    nodes.map_values(|n: NodeRecord| n.id)
}

/// Every id that an edge record names is the id of a node record, and
/// every rule text can be read.
pub open spec fn records_ok(nodes: Seq<NodeRecord>, edges: Seq<EdgeRecord>) -> bool {
    forall|e: int| 0 <= e < edges.len() ==> #[trigger] edge_record_ok(nodes, edges[e])
}

/// The ids that an edge record names are ids of node records, and its rule
/// text can be read.
pub open spec fn edge_record_ok(nodes: Seq<NodeRecord>, e: EdgeRecord) -> bool {
    let ids = ids_of(record_ids(nodes));
    &&& ids.dom().contains(e.head)
    &&& forall|t: int| 0 <= t < e.tails@.len() ==> ids.dom().contains(#[trigger] e.tails@[t])
    &&& rule_text_ok(e.rule@)
}

/// A node id maps to the node that carries it, the last of those that do.
pub proof fn lemma_ids_of(ids: Seq<i64>)
    requires
        ids.len() <= usize::MAX,
    ensures
        forall|x: i64|
            #[trigger] ids_of(ids).dom().contains(x) ==> ids_of(ids)[x].0 < ids.len() && ids[ids_of(
                ids,
            )[x].0 as int] == x,
        forall|k: int| 0 <= k < ids.len() ==> ids_of(ids).dom().contains(#[trigger] ids[k]),
    decreases ids.len(),
{
    if ids.len() > 0 {
        lemma_ids_of(ids.drop_last());
        assert forall|k: int| 0 <= k < ids.len() implies ids_of(ids).dom().contains(
            #[trigger] ids[k],
        ) by {
            if k < ids.len() - 1 {
                assert(ids.drop_last()[k] == ids[k]);
            }
        }
        assert forall|x: i64| #[trigger] ids_of(ids).dom().contains(x) implies ids_of(ids)[x].0
            < ids.len() && ids[ids_of(ids)[x].0 as int] == x by {
            if x != ids.last() {
                assert(ids_of(ids.drop_last()).dom().contains(x));
                let p = ids_of(ids.drop_last())[x].0 as int;
                assert(ids.drop_last()[p] == ids[p]);
            }
        }
    }
}

/// The hypergraph that the records describe: a node per node record, in
/// order, then an edge per edge record, in order, from the nodes of its
/// tail ids to the node of its head id (an id names the last node record
/// that has it), with its feature values and the rule its text reads,
/// unmarked. `None` when an edge record names an id that no node record
/// has, or holds a rule text that cannot be read.
pub fn hypergraph_from_records(nodes: &Vec<NodeRecord>, edges: &Vec<EdgeRecord>) -> (r: Option<
    Hypergraph,
>)
    ensures
        r is Some <==> records_ok(nodes@, edges@),
        r matches Some(hg) ==> {
            let ids = ids_of(record_ids(nodes@));
            &&& hg.wf()
            &&& hg.nodes@.len() == nodes@.len()
            &&& forall|v: int|
                0 <= v < nodes@.len() ==> (#[trigger] hg.nodes@[v]).id == nodes@[v].id
                    && hg.nodes@[v].symbol@ == nodes@[v].cat@ && hg.nodes@[v].left == nodes@[v].left
                    && hg.nodes@[v].right == nodes@[v].right
            &&& hg.edges@.len() == edges@.len()
            &&& forall|e: int|
                0 <= e < edges@.len() ==> {
                    let he = #[trigger] hg.edges@[e];
                    &&& he.head == ids[edges@[e].head]
                    &&& he.tails@ == edges@[e].tails@.map_values(|t: i64| ids[t])
                    &&& he.f@ == edges@[e].f@
                    &&& rule_read_from(he.rule, edges@[e].rule@)
                    &&& he.mark == 0
                }
        },
{
    let mut hg = Hypergraph::new();
    let mut i: usize = 0;
    while i < nodes.len()
        invariant
            i <= nodes@.len(),
            hg.wf(),
            hg.edges@.len() == 0,
            hg.nodes@.len() == i,
            node_ids(hg.nodes@) == record_ids(nodes@).take(i as int),
            forall|v: int|
                0 <= v < i ==> (#[trigger] hg.nodes@[v]).id == nodes@[v].id && hg.nodes@[v].symbol@
                    == nodes@[v].cat@ && hg.nodes@[v].left == nodes@[v].left && hg.nodes@[v].right
                    == nodes@[v].right,
        decreases nodes.len() - i,
    {
        let ghost nb = hg.nodes@;
        let rec = &nodes[i];
        hg.add_node(rec.id, rec.cat.as_str(), rec.left, rec.right);
        proof {
            assert(node_ids(hg.nodes@) =~= record_ids(nodes@).take(i + 1));
            assert forall|v: int| 0 <= v < i + 1 implies (#[trigger] hg.nodes@[v]).id == nodes@[v].id
                && hg.nodes@[v].symbol@ == nodes@[v].cat@ && hg.nodes@[v].left == nodes@[v].left
                && hg.nodes@[v].right == nodes@[v].right by {
                if v < i {
                    assert(hg.nodes@[v] == nb[v]);
                }
            }
        }
        i += 1;
    }
    let ghost ids = ids_of(record_ids(nodes@));
    proof {
        assert(nodes.len() == nodes@.len());
        assert(record_ids(nodes@).take(nodes@.len() as int) =~= record_ids(nodes@));
        lemma_ids_of(record_ids(nodes@));
    }
    let mut k: usize = 0;
    while k < edges.len()
        invariant
            k <= edges@.len(),
            hg.wf(),
            ids == ids_of(record_ids(nodes@)),
            hg.nodes_by_id@ == ids,
            hg.nodes@.len() == nodes@.len(),
            node_ids(hg.nodes@) == record_ids(nodes@),
            forall|x: i64|
                #[trigger] ids.dom().contains(x) ==> ids[x].0 < record_ids(nodes@).len(),
            forall|v: int|
                0 <= v < nodes@.len() ==> (#[trigger] hg.nodes@[v]).id == nodes@[v].id
                    && hg.nodes@[v].symbol@ == nodes@[v].cat@ && hg.nodes@[v].left == nodes@[v].left
                    && hg.nodes@[v].right == nodes@[v].right,
            hg.edges@.len() == k,
            forall|e: int| 0 <= e < k ==> #[trigger] edge_record_ok(nodes@, edges@[e]),
            forall|e: int|
                0 <= e < k ==> {
                    let he = #[trigger] hg.edges@[e];
                    &&& he.head == ids[edges@[e].head]
                    &&& he.tails@ == edges@[e].tails@.map_values(|t: i64| ids[t])
                    &&& he.f@ == edges@[e].f@
                    &&& rule_read_from(he.rule, edges@[e].rule@)
                    &&& he.mark == 0
                },
        decreases edges.len() - k,
    {
        let rec = &edges[k];
        let head = match hg.nodes_by_id.get(&rec.head) {
            Some(h) => *h,
            None => {
                proof {
                    assert(!edge_record_ok(nodes@, edges@[k as int]));
                }
                return None;
            },
        };
        let mut tails: Vec<NodeId> = Vec::new();
        let mut t: usize = 0;
        while t < rec.tails.len()
            invariant
                k < edges@.len(),
                *rec == edges@[k as int],
                ids == ids_of(record_ids(nodes@)),
                t <= rec.tails@.len(),
                hg.nodes_by_id@ == ids,
                forall|x: i64|
                    #[trigger] ids.dom().contains(x) ==> ids[x].0 < record_ids(nodes@).len(),
                tails@ == rec.tails@.take(t as int).map_values(|x: i64| ids[x]),
                forall|z: int| 0 <= z < t ==> ids.dom().contains(#[trigger] rec.tails@[z]),
            decreases rec.tails.len() - t,
        {
            match hg.nodes_by_id.get(&rec.tails[t]) {
                Some(nid) => {
                    tails.push(*nid);
                    proof {
                        assert(rec.tails@.take(t + 1) =~= rec.tails@.take(t as int).push(rec.tails@[t as int]));
                        assert(tails@ =~= rec.tails@.take(t + 1).map_values(|x: i64| ids[x]));
                    }
                },
                None => {
                    proof {
                        assert(!ids.dom().contains(edges@[k as int].tails@[t as int]));
                        assert(!edge_record_ok(nodes@, edges@[k as int]));
                    }
                    return None;
                },
            }
            t += 1;
        }
        proof {
            assert(rec.tails@.take(rec.tails@.len() as int) =~= rec.tails@);
        }
        if !Rule::text_ok(rec.rule.as_str()) {
            proof {
                assert(!edge_record_ok(nodes@, edges@[k as int]));
            }
            return None;
        }
        let rule = Rule::from_str(rec.rule.as_str());
        let ghost eb = hg.edges@;
        let ghost nb = hg.nodes@;
        proof {
            assert forall|z: int| 0 <= z < tails@.len() implies (#[trigger] tails@[z]).0 < hg.nodes@.len() by {
                assert(ids.dom().contains(rec.tails@[z]));
            }
        }
        hg.add_edge(head, tails, rec.f.clone(), rule);
        proof {
            assert(edge_record_ok(nodes@, edges@[k as int]));
            assert forall|v: int| 0 <= v < nodes@.len() implies (#[trigger] hg.nodes@[v]).id
                == nodes@[v].id && hg.nodes@[v].symbol@ == nodes@[v].cat@ && hg.nodes@[v].left
                == nodes@[v].left && hg.nodes@[v].right == nodes@[v].right by {
                assert(nb[v].id == nodes@[v].id);
            }
            assert forall|e: int| 0 <= e < k + 1 implies {
                let he = #[trigger] hg.edges@[e];
                &&& he.head == ids[edges@[e].head]
                &&& he.tails@ == edges@[e].tails@.map_values(|t: i64| ids[t])
                &&& he.f@ == edges@[e].f@
                &&& rule_read_from(he.rule, edges@[e].rule@)
                &&& he.mark == 0
            } by {
                if e < k {
                    assert(hg.edges@[e] == eb[e]);
                }
            }
        }
        k += 1;
    }
    Some(hg)
}

} // verus!
verus! {

// ----------------------------------------------------------- writing JSON

/// `s` with a backslash before every double quote.
pub open spec fn escaped(s: Seq<char>) -> Seq<char>
    decreases s.len(),
{
    if s.len() == 0 {
        Seq::empty()
    } else {
        escaped(s.drop_last()) + if s.last() == '"' {
            seq!['\\', '"']
        } else {
            seq![s.last()]
        }
    }
}

/// The decimal notation of `i`, with a minus sign before a negative one.
pub open spec fn int_text(i: int) -> Seq<char> {
    if i < 0 {
        seq!['-'] + decimal((-i) as nat)
    } else {
        decimal(i as nat)
    }
}

/// The parts one after the other, `sep` between each two.
pub open spec fn joined_with(parts: Seq<Seq<char>>, sep: Seq<char>) -> Seq<char>
    decreases parts.len(),
{
    if parts.len() == 0 {
        Seq::empty()
    } else if parts.len() == 1 {
        parts[0]
    } else {
        joined_with(parts.drop_last(), sep) + sep + parts.last()
    }
}

/// A list of ids, `[a, b, c]`.
pub open spec fn ids_text(ids: Seq<i64>) -> Seq<char> {
    "["@ + joined_with(ids.map_values(|x: i64| int_text(x as int)), ", "@) + "]"@
}

/// A node, `{ "id":.., "cat":"..", "span":[l,r] }`.
pub open spec fn node_text(n: Node) -> Seq<char> {
    "{ \"id\":"@ + int_text(n.id as int) + ", \"cat\":\""@ + escaped(n.symbol@) + "\", \"span\":["@
        + int_text(n.left as int) + ","@ + int_text(n.right as int) + "] }"@
}

/// The external ids of the nodes at the positions `tails`.
pub open spec fn tail_ids(nodes: Seq<Node>, tails: Seq<NodeId>) -> Seq<i64> {
    tails.map_values(|t: NodeId| nodes[t.0 as int].id)
}

/// An edge, `{ "head":.., "rule":"..", "tails":[..], "f":.. }`: its head
/// and tails by their external ids, `f` the text of its feature values.
pub open spec fn edge_text(nodes: Seq<Node>, e: Edge, f: Seq<char>) -> Seq<char> {
    "{ \"head\":"@ + int_text(nodes[e.head.0 as int].id as int) + ", \"rule\":\""@ + escaped(
        rule_text(e.rule.lhs@, syms_view(e.rule.rhs@), syms_view(e.rule.target@)),
    ) + "\", \"tails\":"@ + ids_text(tail_ids(nodes, e.tails@)) + ", \"f\":"@ + f + " }"@
}

/// The text of every edge, with the text of its feature values from `fs`.
pub open spec fn edge_texts(hg: Hypergraph, fs: Seq<Seq<char>>) -> Seq<Seq<char>> {
    Seq::new(hg.edges@.len(), |k: int| edge_text(hg.nodes@, hg.edges@[k], fs[k]))
}

/// A hypergraph as JSON: the weights, the nodes one per line, the edges
/// one per line.
pub open spec fn hypergraph_text(hg: Hypergraph, weights: Seq<char>, fs: Seq<Seq<char>>) -> Seq<
    char,
> {
    "{\n\"weights\":"@ + weights + ",\n\"nodes\":\n[\n"@ + joined_with(
        hg.nodes@.map_values(|n: Node| node_text(n)),
        ",\n"@,
    ) + "\n],\n\"edges\":\n[\n"@ + joined_with(edge_texts(hg, fs), ",\n"@) + "\n]\n}\n"@
}

/// One more part joined on.
pub proof fn lemma_joined_with_take(parts: Seq<Seq<char>>, sep: Seq<char>, k: int)
    requires
        0 <= k < parts.len(),
    ensures
        joined_with(parts.take(k + 1), sep) == if k == 0 {
            parts[0]
        } else {
            joined_with(parts.take(k), sep) + sep + parts[k]
        },
{
    assert(parts.take(k + 1).drop_last() =~= parts.take(k));
}

/// Appends `s` with a backslash before every double quote.
fn push_escaped(out: &mut String, s: &str)
    ensures
        final(out)@ == old(out)@ + escaped(s@),
{
    let n = s.unicode_len();
    let mut k: usize = 0;
    assert(s@.take(0) =~= Seq::<char>::empty());
    while k < n
        invariant
            n == s@.len(),
            k <= n,
            out@ == old(out)@ + escaped(s@.take(k as int)),
        decreases n - k,
    {
        let c = s.get_char(k);
        proof {
            reveal_strlit("\\\"");
        }
        if c == '"' {
            out.append("\\\"");
        } else {
            out.append(s.substring_char(k, k + 1));
        }
        proof {
            let t = s@.take(k + 1);
            assert(t.drop_last() =~= s@.take(k as int));
            assert(t.last() == c);
            if c != '"' {
                assert(s@.subrange(k as int, k + 1) =~= seq![c]);
            }
            assert(escaped(t) == escaped(s@.take(k as int)) + if c == '"' {
                seq!['\\', '"']
            } else {
                seq![c]
            });
            assert(out@ =~= old(out)@ + escaped(t));
        }
        k += 1;
    }
    assert(s@.take(n as int) =~= s@);
}

/// Appends the decimal notation of `i`.
fn push_int(out: &mut String, i: i64)
    ensures
        final(out)@ == old(out)@ + int_text(i as int),
{
    if i < 0 {
        proof {
            reveal_strlit("-");
        }
        out.append("-");
        let m: u64 = (-(i + 1)) as u64 + 1;
        push_decimal(out, m);
        assert(out@ =~= old(out)@ + int_text(i as int));
    } else {
        push_decimal(out, i as u64);
    }
}

/// Appends the list of the external ids of the nodes at `tails`.
fn push_ids(out: &mut String, nodes: &Vec<Node>, tails: &Vec<NodeId>)
    requires
        forall|t: int| 0 <= t < tails@.len() ==> (#[trigger] tails@[t]).0 < nodes@.len(),
    ensures
        final(out)@ == old(out)@ + ids_text(tail_ids(nodes@, tails@)),
{
    let ghost parts = tail_ids(nodes@, tails@).map_values(|x: i64| int_text(x as int));
    out.append("[");
    let ghost start = out@;
    let mut t: usize = 0;
    while t < tails.len()
        invariant
            t <= tails@.len(),
            forall|q: int| 0 <= q < tails@.len() ==> (#[trigger] tails@[q]).0 < nodes@.len(),
            parts == tail_ids(nodes@, tails@).map_values(|x: i64| int_text(x as int)),
            out@ == start + joined_with(parts.take(t as int), ", "@),
        decreases tails@.len() - t,
    {
        if t > 0 {
            out.append(", ");
        }
        push_int(out, nodes[tails[t].0].id);
        proof {
            lemma_joined_with_take(parts, ", "@, t as int);
            assert(parts[t as int] == int_text(nodes@[tails@[t as int].0 as int].id as int));
            if t == 0 {
                assert(joined_with(parts.take(0), ", "@) =~= Seq::<char>::empty());
                assert(out@ =~= start + parts[0]);
            } else {
                assert(out@ =~= start + (joined_with(parts.take(t as int), ", "@) + ", "@ + parts[t as int]));
            }
        }
        t += 1;
    }
    out.append("]");
    assert(parts.take(tails@.len() as int) =~= parts);
}

/// Appends the text of a node.
fn push_node(out: &mut String, n: &Node)
    ensures
        final(out)@ == old(out)@ + node_text(*n),
{
    out.append("{ \"id\":");
    push_int(out, n.id);
    out.append(", \"cat\":\"");
    push_escaped(out, n.symbol.as_str());
    out.append("\", \"span\":[");
    push_int(out, n.left as i64);
    out.append(",");
    push_int(out, n.right as i64);
    out.append("] }");
}

/// Appends the text of an edge, with `f` the text of its feature values.
fn push_edge(out: &mut String, nodes: &Vec<Node>, e: &Edge, f: &str)
    requires
        edge_ok(*e, nodes@.len()),
    ensures
        final(out)@ == old(out)@ + edge_text(nodes@, *e, f@),
{
    out.append("{ \"head\":");
    push_int(out, nodes[e.head.0].id);
    out.append(", \"rule\":\"");
    let rt = e.rule.to_string();
    push_escaped(out, rt.as_str());
    out.append("\", \"tails\":");
    push_ids(out, nodes, &e.tails);
    out.append(", \"f\":");
    out.append(f);
    out.append(" }");
}

/// Appends the texts of the nodes, one per line.
fn push_nodes(out: &mut String, nodes: &Vec<Node>)
    ensures
        final(out)@ == old(out)@ + joined_with(nodes@.map_values(|n: Node| node_text(n)), ",\n"@),
{
    let ghost node_parts = nodes@.map_values(|n: Node| node_text(n));
    let ghost start = out@;
    let mut k: usize = 0;
    while k < nodes.len()
        invariant
            k <= nodes@.len(),
            start == old(out)@,
            node_parts == nodes@.map_values(|n: Node| node_text(n)),
            out@ == start + joined_with(node_parts.take(k as int), ",\n"@),
        decreases nodes@.len() - k,
    {
        if k > 0 {
            out.append(",\n");
        }
        push_node(out, &nodes[k]);
        proof {
            lemma_joined_with_take(node_parts, ",\n"@, k as int);
            if k == 0 {
                assert(joined_with(node_parts.take(0), ",\n"@) =~= Seq::<char>::empty());
                assert(out@ =~= start + node_parts[0]);
            } else {
                assert(out@ =~= start + (joined_with(node_parts.take(k as int), ",\n"@) + ",\n"@
                    + node_parts[k as int]));
            }
        }
        k += 1;
    }
    assert(node_parts.take(nodes@.len() as int) =~= node_parts);
}

/// Appends the texts of the edges, one per line.
fn push_edges(out: &mut String, hg: &Hypergraph, fs: &Vec<String>)
    requires
        hg.wf(),
        fs@.len() == hg.edges@.len(),
    ensures
        final(out)@ == old(out)@ + joined_with(
            edge_texts(*hg, crate::text::string_views(fs@)),
            ",\n"@,
        ),
{
    let ghost edge_parts = edge_texts(*hg, crate::text::string_views(fs@));
    let ghost middle = out@;
    let mut k: usize = 0;
    while k < hg.edges.len()
        invariant
            k <= hg.edges@.len(),
            middle == old(out)@,
            fs@.len() == hg.edges@.len(),
            hg.wf(),
            edge_parts == edge_texts(*hg, crate::text::string_views(fs@)),
            out@ == middle + joined_with(edge_parts.take(k as int), ",\n"@),
        decreases hg.edges@.len() - k,
    {
        if k > 0 {
            out.append(",\n");
        }
        assert(edge_ok(hg.edges@[k as int], hg.nodes@.len()));
        push_edge(out, &hg.nodes, &hg.edges[k], fs[k].as_str());
        proof {
            lemma_joined_with_take(edge_parts, ",\n"@, k as int);
            assert(edge_parts[k as int] == edge_text(hg.nodes@, hg.edges@[k as int], fs@[k as int]@));
            if k == 0 {
                assert(joined_with(edge_parts.take(0), ",\n"@) =~= Seq::<char>::empty());
                assert(out@ =~= middle + edge_parts[0]);
            } else {
                assert(out@ =~= middle + (joined_with(edge_parts.take(k as int), ",\n"@) + ",\n"@
                    + edge_parts[k as int]));
            }
        }
        k += 1;
    }
    assert(edge_parts.take(hg.edges@.len() as int) =~= edge_parts);
}

/// The hypergraph as JSON text: `weights` (the JSON text of the weights
/// it is scored by), then the nodes, one per line, by id, category and
/// span, then the edges, one per line, by the ids of their head and tails,
/// the text of their rule and their feature values, the text of the
/// `k`-th edge's taken from `fs[k]`. Double quotes in categories and rule
/// texts are escaped.
pub fn write_hypergraph_to_json(hg: &Hypergraph, weights: &str, fs: &Vec<String>) -> (r: String)
    requires
        hg.wf(),
        fs@.len() == hg.edges@.len(),
    ensures
        r@ == hypergraph_text(*hg, weights@, crate::text::string_views(fs@)),
{
    let mut out = String::new();
    out.append("{\n\"weights\":");
    out.append(weights);
    out.append(",\n\"nodes\":\n[\n");
    push_nodes(&mut out, &hg.nodes);
    out.append("\n],\n\"edges\":\n[\n");
    push_edges(&mut out, hg, fs);
    out.append("\n]\n}\n");
    assert(out@ =~= hypergraph_text(*hg, weights@, crate::text::string_views(fs@)));
    out
}

} // verus!
verus! {

// ----------------------------------------------------------- reading JSON

/// A node record as plain values: id, category, left and right ends.
pub open spec fn node_record_view(n: NodeRecord) -> (i64, Seq<char>, i32, i32) {
    (n.id, n.cat@, n.left, n.right)
}

/// An edge record as plain values: head id, tail ids, feature values and
/// rule text.
pub open spec fn edge_record_view(e: EdgeRecord) -> (i64, Seq<i64>, Seq<(Seq<char>, Seq<char>)>, Seq<char>) {
    (e.head, e.tails@, e.f@, e.rule@)
}

/// The members of an object whose values are numbers, each with the text
/// of its number, in order.
pub open spec fn number_pairs(es: Seq<(String, JsonTree)>) -> Seq<(Seq<char>, Seq<char>)>
    decreases es.len(),
{
    if es.len() == 0 {
        Seq::empty()
    } else {
        let rest = number_pairs(es.drop_last());
        match es.last().1 {
            JsonTree::Number(t) => rest.push((es.last().0@, t@)),
            _ => rest,
        }
    }
}

/// The numeric members of `v` where it is an object; none otherwise.
pub open spec fn number_pairs_of(v: Option<JsonTree>) -> Seq<(Seq<char>, Seq<char>)> {
    match v {
        Some(JsonTree::Object(es)) => number_pairs(es@),
        _ => Seq::empty(),
    }
}

/// The text of `v` where it is a string; empty otherwise.
pub open spec fn str_or_empty(v: Option<JsonTree>) -> Seq<char> {
    match v {
        Some(JsonTree::Str(s)) => s@,
        _ => Seq::empty(),
    }
}

/// A node entry: an `id` written as an `i64`, a `cat` (empty when it is
/// not a string), and a `span` array whose first two items are written as
/// `i64`s, each taken to `i32` by truncation.
pub open spec fn node_of(v: JsonTree) -> Option<(i64, Seq<char>, i32, i32)> {
    match (int_of(member(v, "id"@)), member(v, "span"@)) {
        (Some(id), Some(JsonTree::Array(sp))) => if sp@.len() >= 2 {
            match (int_of(Some(sp@[0])), int_of(Some(sp@[1]))) {
                (Some(l), Some(r)) => Some((id, str_or_empty(member(v, "cat"@)), l as i32, r as i32)),
                _ => None,
            }
        } else {
            None
        },
        _ => None,
    }
}

/// The items of an array, each written as an `i64`.
pub open spec fn ints_of(a: Seq<JsonTree>) -> Option<Seq<i64>> {
    if forall|k: int| 0 <= k < a.len() ==> (#[trigger] int_of(Some(a[k]))) is Some {
        Some(Seq::new(a.len(), |k: int| int_of(Some(a[k])).unwrap()))
    } else {
        None
    }
}

/// An edge entry: a `head` written as an `i64`, a `tails` array of
/// `i64`s, the numeric members of `f` (none where it is not an object),
/// and a `rule` string.
pub open spec fn edge_of(v: JsonTree) -> Option<(i64, Seq<i64>, Seq<(Seq<char>, Seq<char>)>, Seq<char>)> {
    match (int_of(member(v, "head"@)), member(v, "tails"@), member(v, "rule"@)) {
        (Some(h), Some(JsonTree::Array(ts)), Some(JsonTree::Str(rule))) => match ints_of(ts@) {
            Some(tails) => Some((h, tails, number_pairs_of(member(v, "f"@)), rule@)),
            None => None,
        },
        _ => None,
    }
}

/// Every item of `a` is a node entry: their records, in order.
pub open spec fn nodes_of(a: Seq<JsonTree>) -> Option<Seq<(i64, Seq<char>, i32, i32)>> {
    if forall|k: int| 0 <= k < a.len() ==> (#[trigger] node_of(a[k])) is Some {
        Some(Seq::new(a.len(), |k: int| node_of(a[k]).unwrap()))
    } else {
        None
    }
}

/// Every item of `a` is an edge entry: their records, in order.
pub open spec fn edges_of(a: Seq<JsonTree>) -> Option<Seq<(i64, Seq<i64>, Seq<(Seq<char>, Seq<char>)>, Seq<char>)>> {
    if forall|k: int| 0 <= k < a.len() ==> (#[trigger] edge_of(a[k])) is Some {
        Some(Seq::new(a.len(), |k: int| edge_of(a[k]).unwrap()))
    } else {
        None
    }
}

/// The records of a stored hypergraph: the numeric members of `weights`,
/// then the entries of `nodes` and of `edges` in file order (a missing or
/// non-array list counts as empty). `None` where an entry lacks what it
/// needs.
pub open spec fn records_of(doc: JsonTree) -> Option<
    (
        Seq<(Seq<char>, Seq<char>)>,
        Seq<(i64, Seq<char>, i32, i32)>,
        Seq<(i64, Seq<i64>, Seq<(Seq<char>, Seq<char>)>, Seq<char>)>,
    ),
> {
    let ns = match member(doc, "nodes"@) {
        Some(JsonTree::Array(a)) => nodes_of(a@),
        _ => Some(Seq::empty()),
    };
    let es = match member(doc, "edges"@) {
        Some(JsonTree::Array(a)) => edges_of(a@),
        _ => Some(Seq::empty()),
    };
    match (ns, es) {
        (Some(n), Some(e)) => Some((number_pairs_of(member(doc, "weights"@)), n, e)),
        _ => None,
    }
}

/// Records as plain values.
pub open spec fn records_view(r: (Vec<(String, String)>, Vec<NodeRecord>, Vec<EdgeRecord>)) -> (
    Seq<(Seq<char>, Seq<char>)>,
    Seq<(i64, Seq<char>, i32, i32)>,
    Seq<(i64, Seq<i64>, Seq<(Seq<char>, Seq<char>)>, Seq<char>)>,
) {
    (
        pairs_view(r.0@),
        r.1@.map_values(|n: NodeRecord| node_record_view(n)),
        r.2@.map_values(|e: EdgeRecord| edge_record_view(e)),
    )
}

/// The numeric members of `v` where it is an object, with their texts.
fn number_pairs_from(v: Option<&JsonTree>) -> (r: Vec<(String, String)>)
    ensures
        pairs_view(r@) == number_pairs_of(deref_opt(v)),
{
    let mut out: Vec<(String, String)> = Vec::new();
    match v {
        Some(JsonTree::Object(es)) => {
            let mut i: usize = 0;
            assert(es@.take(0) =~= Seq::<(String, JsonTree)>::empty());
            while i < es.len()
                invariant
                    i <= es@.len(),
                    pairs_view(out@) == number_pairs(es@.take(i as int)),
                decreases es@.len() - i,
            {
                proof {
                    assert(es@.take(i + 1).drop_last() =~= es@.take(i as int));
                    assert(es@.take(i + 1).last() == es@[i as int]);
                }
                match &es[i].1 {
                    JsonTree::Number(t) => {
                        let ghost before = out@;
                        out.push((es[i].0.clone(), t.clone()));
                        assert(pairs_view(out@) =~= pairs_view(before).push((es@[i as int].0@, t@)));
                    },
                    _ => {},
                }
                i += 1;
            }
            assert(es@.take(es@.len() as int) =~= es@);
        },
        _ => {},
    }
    out
}

/// The text of `v` where it is a string; empty otherwise.
fn str_from(v: Option<&JsonTree>) -> (r: String)
    ensures
        r@ == str_or_empty(deref_opt(v)),
{
    match v {
        Some(JsonTree::Str(s)) => s.clone(),
        _ => String::new(),
    }
}

/// The record of a node entry.
fn node_from(v: &JsonTree) -> (r: Option<NodeRecord>)
    ensures
        match r {
            Some(x) => node_of(*v) == Some(node_record_view(x)),
            None => node_of(*v) is None,
        },
{
    let id = match get_int(get_member(v, "id")) {
        Some(id) => id,
        None => return None,
    };
    let sp = match get_member(v, "span") {
        Some(JsonTree::Array(sp)) => sp,
        _ => return None,
    };
    if sp.len() < 2 {
        return None;
    }
    let l = match get_int(Some(&sp[0])) {
        Some(l) => l,
        None => return None,
    };
    let r = match get_int(Some(&sp[1])) {
        Some(r) => r,
        None => return None,
    };
    let cat = str_from(get_member(v, "cat"));
    Some(NodeRecord { id, cat, left: l as i32, right: r as i32 })
}

/// The items of an array, each written as an `i64`.
fn ints_from(a: &Vec<JsonTree>) -> (r: Option<Vec<i64>>)
    ensures
        match r {
            Some(x) => ints_of(a@) == Some(x@),
            None => ints_of(a@) is None,
        },
{
    let mut out: Vec<i64> = Vec::new();
    let mut i: usize = 0;
    while i < a.len()
        invariant
            i <= a@.len(),
            out@.len() == i,
            forall|k: int| 0 <= k < i ==> (#[trigger] int_of(Some(a@[k]))) == Some(out@[k]),
        decreases a@.len() - i,
    {
        match get_int(Some(&a[i])) {
            Some(x) => out.push(x),
            None => {
                assert(int_of(Some(a@[i as int])) is None);
                return None;
            },
        }
        i += 1;
    }
    assert(out@ =~= Seq::new(a@.len(), |k: int| int_of(Some(a@[k])).unwrap()));
    Some(out)
}

/// The record of an edge entry.
fn edge_from(v: &JsonTree) -> (r: Option<EdgeRecord>)
    ensures
        match r {
            Some(x) => edge_of(*v) == Some(edge_record_view(x)),
            None => edge_of(*v) is None,
        },
{
    let head = match get_int(get_member(v, "head")) {
        Some(h) => h,
        None => return None,
    };
    let ts = match get_member(v, "tails") {
        Some(JsonTree::Array(ts)) => ts,
        _ => return None,
    };
    let rule = match get_member(v, "rule") {
        Some(JsonTree::Str(rule)) => rule.clone(),
        _ => return None,
    };
    let tails = match ints_from(ts) {
        Some(t) => t,
        None => return None,
    };
    let pairs = number_pairs_from(get_member(v, "f"));
    Some(EdgeRecord { head, tails, f: Features { pairs }, rule })
}

/// The records of the node entries of `a`.
fn nodes_from(a: &Vec<JsonTree>) -> (r: Option<Vec<NodeRecord>>)
    ensures
        match r {
            Some(x) => nodes_of(a@) == Some(x@.map_values(|n: NodeRecord| node_record_view(n))),
            None => nodes_of(a@) is None,
        },
{
    let mut out: Vec<NodeRecord> = Vec::new();
    let mut i: usize = 0;
    while i < a.len()
        invariant
            i <= a@.len(),
            out@.len() == i,
            forall|k: int| 0 <= k < i ==> (#[trigger] node_of(a@[k])) == Some(node_record_view(out@[k])),
        decreases a@.len() - i,
    {
        match node_from(&a[i]) {
            Some(x) => out.push(x),
            None => {
                assert(node_of(a@[i as int]) is None);
                return None;
            },
        }
        i += 1;
    }
    assert(out@.map_values(|n: NodeRecord| node_record_view(n)) =~= Seq::new(
        a@.len(),
        |k: int| node_of(a@[k]).unwrap(),
    ));
    Some(out)
}

/// The records of the edge entries of `a`.
fn edges_from(a: &Vec<JsonTree>) -> (r: Option<Vec<EdgeRecord>>)
    ensures
        match r {
            Some(x) => edges_of(a@) == Some(x@.map_values(|e: EdgeRecord| edge_record_view(e))),
            None => edges_of(a@) is None,
        },
{
    let mut out: Vec<EdgeRecord> = Vec::new();
    let mut i: usize = 0;
    while i < a.len()
        invariant
            i <= a@.len(),
            out@.len() == i,
            forall|k: int| 0 <= k < i ==> (#[trigger] edge_of(a@[k])) == Some(edge_record_view(out@[k])),
        decreases a@.len() - i,
    {
        match edge_from(&a[i]) {
            Some(x) => out.push(x),
            None => {
                assert(edge_of(a@[i as int]) is None);
                return None;
            },
        }
        i += 1;
    }
    assert(out@.map_values(|e: EdgeRecord| edge_record_view(e)) =~= Seq::new(
        a@.len(),
        |k: int| edge_of(a@[k]).unwrap(),
    ));
    Some(out)
}

/// The records of a stored hypergraph read from its JSON tree: the
/// weights as name/number-text pairs, the node entries and the edge
/// entries in file order (`records_of`); `None` exactly where an entry
/// lacks what it needs.
pub fn records_from_json(doc: &JsonTree) -> (r: Option<(Vec<(String, String)>, Vec<NodeRecord>, Vec<EdgeRecord>)>)
    ensures
        match r {
            Some(t) => records_of(*doc) == Some(records_view(t)),
            None => records_of(*doc) is None,
        },
{
    let weights = number_pairs_from(get_member(doc, "weights"));
    let nodes = match get_member(doc, "nodes") {
        Some(JsonTree::Array(a)) => match nodes_from(a) {
            Some(ns) => ns,
            None => return None,
        },
        _ => Vec::new(),
    };
    let edges = match get_member(doc, "edges") {
        Some(JsonTree::Array(a)) => match edges_from(a) {
            Some(es) => es,
            None => return None,
        },
        _ => Vec::new(),
    };
    let r = (weights, nodes, edges);
    assert(records_view(r).1 =~= match member(*doc, "nodes"@) {
        Some(JsonTree::Array(a)) => nodes_of(a@).unwrap(),
        _ => Seq::empty(),
    });
    assert(records_view(r).2 =~= match member(*doc, "edges"@) {
        Some(JsonTree::Array(a)) => edges_of(a@).unwrap(),
        _ => Seq::empty(),
    });
    Some(r)
}

/// Why a stored hypergraph could not be read.
#[derive(Debug, PartialEq, Eq, Structural)]
pub enum ReadError {
    /// The text is not JSON.
    Syntax,
    /// An entry lacks what it needs.
    Shape,
}

/// Reads the records of a stored hypergraph from its JSON text: the text
/// is parsed by `serde_json` (`json_of`), then read by
/// `records_from_json`.
pub fn read_records(text: &str) -> (r: Result<(Vec<(String, String)>, Vec<NodeRecord>, Vec<EdgeRecord>), ReadError>)
    ensures
        match json_of(text@) {
            None => r == Err::<(Vec<(String, String)>, Vec<NodeRecord>, Vec<EdgeRecord>), ReadError>(
                ReadError::Syntax,
            ),
            Some(d) => match r {
                Ok(t) => records_of(d) == Some(records_view(t)),
                Err(e) => e == ReadError::Shape && records_of(d) is None,
            },
        },
{
    match parse_json(text) {
        None => Err(ReadError::Syntax),
        Some(doc) => match records_from_json(&doc) {
            Some(t) => Ok(t),
            None => Err(ReadError::Shape),
        },
    }
}

} // verus!
verus! {

// ------------------------------------------------ laws of writing and reading

/// The tails of an edge are written in their order: the `k`-th id of the
/// list is the id of the node `tails[k]`.
pub proof fn lemma_tail_ids(nodes: Seq<Node>, tails: Seq<NodeId>)
    ensures
        tail_ids(nodes, tails).len() == tails.len(),
        forall|k: int| 0 <= k < tails.len() ==> #[trigger] tail_ids(nodes, tails)[k] == nodes[tails[k].0 as int].id,
{
}

/// The text written for an integer reads back as that integer.
pub proof fn lemma_int_text_reads_back(x: i64)
    ensures
        int_of_text(int_text(x as int)) == Some(x),
{
    if x < 0 {
        let m = (-(x as int)) as nat;
        crate::text::lemma_decimal(m);
        let t = int_text(x as int);
        assert(t[0] == '-');
        assert(t.drop_first() =~= decimal(m));
    } else {
        crate::text::lemma_decimal(x as nat);
    }
}

/// Escaping works character by character: text without double quotes is
/// left as it is, a double quote gets a backslash before it, and the
/// escaped text of two pieces is the escaped first piece followed by the
/// escaped second one.
pub proof fn lemma_escaped(a: Seq<char>, b: Seq<char>)
    ensures
        escaped(a + b) == escaped(a) + escaped(b),
        escaped(seq!['"']) == seq!['\\', '"'],
        (forall|k: int| 0 <= k < a.len() ==> a[k] != '"') ==> escaped(a) == a,
    decreases b.len(),
{
    let q = seq!['"'];
    assert(q.drop_last() =~= Seq::<char>::empty());
    assert(q.last() == '"');
    assert(escaped(q) == escaped(q.drop_last()) + seq!['\\', '"']);
    assert(escaped(q) =~= seq!['\\', '"']);
    if b.len() > 0 {
        lemma_escaped(a, b.drop_last());
        assert((a + b).drop_last() =~= a + b.drop_last());
        assert((a + b).last() == b.last());
    } else {
        assert(a + b =~= a);
    }
    lemma_escaped_plain(a);
}

proof fn lemma_escaped_plain(a: Seq<char>)
    ensures
        (forall|k: int| 0 <= k < a.len() ==> a[k] != '"') ==> escaped(a) == a,
    decreases a.len(),
{
    if a.len() > 0 {
        lemma_escaped_plain(a.drop_last());
        if forall|k: int| 0 <= k < a.len() ==> a[k] != '"' {
            assert(forall|k: int| 0 <= k < a.drop_last().len() ==> a.drop_last()[k] == a[k]);
            assert(a.last() == a[a.len() - 1]);
            assert(a.drop_last().push(a.last()) =~= a);
        }
    }
}

/// The items of an array read as integers exactly when each is an
/// integer, and then in their order: the `k`-th integer is the one written
/// as the `k`-th item.
pub proof fn lemma_ints_of(a: Seq<JsonTree>)
    ensures
        ints_of(a) is Some <==> forall|k: int| 0 <= k < a.len() ==> (#[trigger] int_of(Some(a[k]))) is Some,
        ints_of(a) matches Some(v) ==> v.len() == a.len() && forall|k: int|
            0 <= k < a.len() ==> int_of(Some(a[k])) == Some(#[trigger] v[k]),
{
}

/// The numeric members of an object are taken one by one, in order: those
/// of two runs of members are those of the first run followed by those of
/// the second, a number member gives its name and number text, and any
/// other member gives nothing.
pub proof fn lemma_number_pairs(a: Seq<(String, JsonTree)>, b: Seq<(String, JsonTree)>)
    ensures
        number_pairs(a + b) == number_pairs(a) + number_pairs(b),
        forall|m: (String, JsonTree)| #[trigger] number_pairs(seq![m]) == match m.1 {
            JsonTree::Number(t) => seq![(m.0@, t@)],
            _ => Seq::empty(),
        },
    decreases b.len(),
{
    assert forall|m: (String, JsonTree)| #[trigger] number_pairs(seq![m]) == match m.1 {
        JsonTree::Number(t) => seq![(m.0@, t@)],
        _ => Seq::<(Seq<char>, Seq<char>)>::empty(),
    } by {
        let sm = seq![m];
        assert(sm.drop_last() =~= Seq::<(String, JsonTree)>::empty());
        assert(sm.last() == m);
        assert(number_pairs(sm.drop_last()) == Seq::<(Seq<char>, Seq<char>)>::empty());
        match m.1 {
            JsonTree::Number(t) => {
                assert(number_pairs(sm) == Seq::<(Seq<char>, Seq<char>)>::empty().push((m.0@, t@)));
                assert(Seq::<(Seq<char>, Seq<char>)>::empty().push((m.0@, t@)) =~= seq![(m.0@, t@)]);
            },
            _ => {
                assert(number_pairs(sm) == Seq::<(Seq<char>, Seq<char>)>::empty());
            },
        }
    }
    if b.len() > 0 {
        lemma_number_pairs(a, b.drop_last());
        assert((a + b).drop_last() =~= a + b.drop_last());
        assert((a + b).last() == b.last());
        match b.last().1 {
            JsonTree::Number(t) => {
                assert(number_pairs(a) + number_pairs(b) =~= (number_pairs(a) + number_pairs(
                    b.drop_last(),
                )).push((b.last().0@, t@)));
            },
            _ => {},
        }
    } else {
        assert(a + b =~= a);
        assert(number_pairs(b) =~= Seq::<(Seq<char>, Seq<char>)>::empty());
        assert(number_pairs(a) + number_pairs(b) =~= number_pairs(a));
    }
}

/// A node entry read as a record gives its `id`, its `cat` (empty when it
/// is not a string), and the first two items of its `span`, each cut to
/// `i32`.
pub proof fn lemma_node_of(v: JsonTree)
    ensures
        node_of(v) matches Some(n) ==> {
            &&& int_of(member(v, "id"@)) == Some(n.0)
            &&& match member(v, "cat"@) {
                Some(JsonTree::Str(s)) => n.1 == s@,
                _ => n.1 == Seq::<char>::empty(),
            }
            &&& member(v, "span"@) matches Some(JsonTree::Array(sp)) && sp@.len() >= 2 && int_of(
                Some(sp@[0]),
            ) is Some && int_of(Some(sp@[1])) is Some && n.2 == int_of(Some(sp@[0]))->0 as i32
                && n.3 == int_of(Some(sp@[1]))->0 as i32
        },
{
}

/// An edge entry read as a record gives its `head`, the items of its
/// `tails` array in their order, the numeric members of `f` and its
/// `rule` text.
pub proof fn lemma_edge_of(v: JsonTree)
    ensures
        edge_of(v) matches Some(e) ==> {
            &&& int_of(member(v, "head"@)) == Some(e.0)
            &&& member(v, "tails"@) matches Some(JsonTree::Array(ts)) && e.1.len() == ts@.len()
                && forall|k: int| 0 <= k < ts@.len() ==> int_of(Some(ts@[k])) == Some(#[trigger] e.1[k])
            &&& e.2 == number_pairs_of(member(v, "f"@))
            &&& member(v, "rule"@) matches Some(JsonTree::Str(s)) && e.3 == s@
        },
{
    if let Some(e) = edge_of(v) {
        if let Some(JsonTree::Array(ts)) = member(v, "tails"@) {
            lemma_ints_of(ts@);
        }
    }
}

/// The records read from a document are its entries in file order: the
/// `k`-th node record is read from the `k`-th item of `nodes`, the `k`-th
/// edge record from the `k`-th item of `edges` (a missing or non-array
/// list gives none), and the weights are the numeric members of
/// `weights`.
pub proof fn lemma_records_of(doc: JsonTree)
    ensures
        records_of(doc) matches Some(t) ==> {
            &&& t.0 == number_pairs_of(member(doc, "weights"@))
            &&& match member(doc, "nodes"@) {
                Some(JsonTree::Array(a)) => t.1.len() == a@.len() && forall|k: int|
                    0 <= k < a@.len() ==> node_of(a@[k]) == Some(#[trigger] t.1[k]),
                _ => t.1.len() == 0,
            }
            &&& match member(doc, "edges"@) {
                Some(JsonTree::Array(a)) => t.2.len() == a@.len() && forall|k: int|
                    0 <= k < a@.len() ==> edge_of(a@[k]) == Some(#[trigger] t.2[k]),
                _ => t.2.len() == 0,
            }
        },
{
}

} // verus!
