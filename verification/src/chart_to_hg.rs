//! The hypergraph of a parse: a node per category and span that the chart
//! holds, an edge per item.
use vstd::prelude::*;

use crate::grammar::{clone_symbols, Grammar, Rule, Symbol, SymbolView};
use crate::hypergraph::{Hypergraph, NodeId};
use crate::parse::{category, rule_rhs, visit, visit_order, Chart, Item, Span};

verus! {

broadcast use vstd::string::group_string_axioms;

/// The items of the chart over `spans`, in order, each with its span.
pub open spec fn entries(chart: Chart, spans: Seq<(usize, usize)>) -> Seq<(Item, int, int)>
    decreases spans.len(),
{
    if spans.len() == 0 {
        Seq::empty()
    } else {
        entries(chart, spans.drop_last()) + cell_entries(
            chart,
            spans.last().0 as int,
            spans.last().1 as int,
        )
    }
}

/// The items of cell `(i, j)`, each with its span.
pub open spec fn cell_entries(chart: Chart, i: int, j: int) -> Seq<(Item, int, int)> {
    chart.cell(i, j).map_values(|it: Item| (it, i, j))
}

/// The category of an entry's rule with the entry's span.
pub open spec fn label_of(g: Grammar, en: (Item, int, int)) -> (Seq<char>, int, int) {
    (category(g, en.0.rule_idx as int), en.1, en.2)
}

/// The labels of the entries.
pub open spec fn labels(g: Grammar, es: Seq<(Item, int, int)>) -> Seq<(Seq<char>, int, int)> {
    es.map_values(|en: (Item, int, int)| label_of(g, en))
}

/// The labels of `ls` in the order they first occur.
pub open spec fn first_occurrences(ls: Seq<(Seq<char>, int, int)>) -> Seq<(Seq<char>, int, int)>
    decreases ls.len(),
{
    if ls.len() == 0 {
        Seq::empty()
    } else {
        let u = first_occurrences(ls.drop_last());
        if u.contains(ls.last()) {
            u
        } else {
            u.push(ls.last())
        }
    }
}

/// The entries of the chart over the spans `(i, j)`, `0 <= i < j <= n`,
/// narrowest first.
pub open spec fn chart_entries(chart: Chart, n: int) -> Seq<(Item, int, int)> {
    entries(chart, visit_order(1, 0, n, 0))
}

/// The labels of the nodes, but the root: one per category and span that
/// the chart holds, in the order they first occur.
pub open spec fn node_labels(g: Grammar, chart: Chart, n: int) -> Seq<(Seq<char>, int, int)> {
    first_occurrences(labels(g, chart_entries(chart, n)))
}

/// The node of label `l`: the root comes first.
pub open spec fn node_for(u: Seq<(Seq<char>, int, int)>, l: (Seq<char>, int, int)) -> NodeId {
    NodeId((1 + u.index_of(l)) as usize)
}

/// The span at position `k`, when it is known (not negative).
pub open spec fn known_span(spans: Seq<Option<Span>>, k: int) -> Option<Span> {
    if 0 <= k < spans.len() {
        match spans[k] {
            Some(sp) => if sp.left >= 0 && sp.right >= 0 {
                Some(sp)
            } else {
                None
            },
            None => None,
        }
    } else {
        None
    }
}

/// The tail nodes that the first `k` symbols of `rhs` give: for each
/// nonterminal whose span is known, the node of its category and span, if
/// there is one.
pub open spec fn tail_nodes(
    rhs: Seq<SymbolView>,
    spans: Seq<Option<Span>>,
    u: Seq<(Seq<char>, int, int)>,
    k: nat,
) -> Seq<NodeId>
    decreases k,
{
    if k == 0 {
        Seq::empty()
    } else {
        let rest = tail_nodes(rhs, spans, u, (k - 1) as nat);
        match rhs[k - 1] {
            SymbolView::NT(s, _) => match known_span(spans, k - 1) {
                Some(sp) => if u.contains((s, sp.left as int, sp.right as int)) {
                    rest.push(node_for(u, (s, sp.left as int, sp.right as int)))
                } else {
                    rest
                },
                None => rest,
            },
            SymbolView::T(_) => rest,
        }
    }
}

/// The tails of the edge of an item: the root when its rule has no
/// nonterminal, else the nodes of its nonterminals.
pub open spec fn edge_tails(
    rhs: Seq<SymbolView>,
    spans: Seq<Option<Span>>,
    u: Seq<(Seq<char>, int, int)>,
    root: NodeId,
) -> Seq<NodeId> {
    if exists|k: int| 0 <= k < rhs.len() && (#[trigger] rhs[k]) is NT {
        tail_nodes(rhs, spans, u, rhs.len())
    } else {
        seq![root]
    }
}

/// The labels recorded so far, as they are kept.
pub open spec fn seen_view(v: Seq<(String, usize, usize)>) -> Seq<(Seq<char>, int, int)> {
    v.map_values(|x: (String, usize, usize)| (x.0@, x.1 as int, x.2 as int))
}

/// The position of label `(sym, i, j)` among the recorded ones.
fn find_label(seen: &Vec<(String, usize, usize)>, sym: &str, i: usize, j: usize) -> (r: Option<usize>)
    ensures
        match r {
            Some(p) => p < seen@.len() && seen_view(seen@)[p as int] == (sym@, i as int, j as int),
            None => !seen_view(seen@).contains((sym@, i as int, j as int)),
        },
{
    let mut p: usize = 0;
    while p < seen.len()
        invariant
            p <= seen@.len(),
            forall|q: int| 0 <= q < p ==> seen_view(seen@)[q] != (sym@, i as int, j as int),
        decreases seen.len() - p,
    {
        if seen[p].1 == i && seen[p].2 == j && crate::text::str_eq(seen[p].0.as_str(), sym) {
            return Some(p);
        }
        p += 1;
    }
    None
}


/// Each label occurs once among its first occurrences, and every label
/// does occur there.
pub proof fn lemma_first_occurrences(ls: Seq<(Seq<char>, int, int)>)
    ensures
        first_occurrences(ls).no_duplicates(),
        first_occurrences(ls).len() <= ls.len(),
        forall|k: int| 0 <= k < ls.len() ==> first_occurrences(ls).contains(#[trigger] ls[k]),
    decreases ls.len(),
{
    if ls.len() > 0 {
        let rest = ls.drop_last();
        lemma_first_occurrences(rest);
        let u = first_occurrences(rest);
        assert forall|k: int| 0 <= k < ls.len() implies first_occurrences(ls).contains(
            #[trigger] ls[k],
        ) by {
            if k < rest.len() {
                assert(rest[k] == ls[k]);
                let w = choose|w: int| 0 <= w < u.len() && u[w] == rest[k];
                if !u.contains(ls.last()) {
                    assert(u.push(ls.last())[w] == u[w]);
                }
            } else if !u.contains(ls.last()) {
                assert(u.push(ls.last())[u.len() as int] == ls.last());
            }
        }
    }
}

/// In a sequence without duplicates, the element at `p` is found at `p`.
pub proof fn lemma_index_unique(s: Seq<(Seq<char>, int, int)>, p: int)
    requires
        s.no_duplicates(),
        0 <= p < s.len(),
    ensures
        s.index_of(s[p]) == p,
{
    let q = s.index_of(s[p]);
    assert(0 <= q < s.len() && s[q] == s[p]);
}

/// The entries over a prefix of the spans are no more than all of them.
pub proof fn lemma_entries_prefix(chart: Chart, spans: Seq<(usize, usize)>, t: int)
    requires
        0 <= t <= spans.len(),
    ensures
        entries(chart, spans.take(t)).len() <= entries(chart, spans).len(),
    decreases spans.len(),
{
    if t < spans.len() {
        assert(spans.take(t) =~= spans.drop_last().take(t));
        lemma_entries_prefix(chart, spans.drop_last(), t);
    } else {
        assert(spans.take(t) =~= spans);
    }
}

/// The tails of an item's edge: for each nonterminal of `rhs` whose span
/// is known, the node recorded for its category and span, if there is
/// one; the root when `rhs` has no nonterminal.
fn build_tails(
    rhs: &Vec<Symbol>,
    tail_spans: &Vec<Option<Span>>,
    seen: &Vec<(String, usize, usize)>,
    root_nid: NodeId,
) -> (r: Vec<NodeId>)
    requires
        seen_view(seen@).no_duplicates(),
        root_nid.0 <= seen@.len(),
    ensures
        r@ == edge_tails(crate::grammar::syms_view(rhs@), tail_spans@, seen_view(seen@), root_nid),
        forall|k: int| 0 <= k < r@.len() ==> (#[trigger] r@[k]).0 <= seen@.len(),
{
    let ghost rv = crate::grammar::syms_view(rhs@);
    let ghost u = seen_view(seen@);
    let ns = seen.len();
    let mut tails: Vec<NodeId> = Vec::new();
    let mut has_nt = false;
    let mut idx: usize = 0;
    while idx < rhs.len()
        invariant
            rv == crate::grammar::syms_view(rhs@),
            u == seen_view(seen@),
            u.no_duplicates(),
            ns == seen@.len(),
            idx <= rhs@.len(),
            tails@ == tail_nodes(rv, tail_spans@, u, idx as nat),
            has_nt == exists|k: int| 0 <= k < idx && (#[trigger] rv[k]) is NT,
            forall|k: int| 0 <= k < tails@.len() ==> (#[trigger] tails@[k]).0 <= seen@.len(),
        decreases rhs.len() - idx,
    {
        let ghost before = tails@;
        proof {
            assert(rv[idx as int] == rhs@[idx as int]@);
        }
        match &rhs[idx] {
            Symbol::NT { symbol, .. } => {
                has_nt = true;
                if idx < tail_spans.len() {
                    match tail_spans[idx] {
                        Some(span) => {
                            if span.left >= 0 && span.right >= 0 {
                                match find_label(
                                    seen,
                                    symbol.as_str(),
                                    span.left as usize,
                                    span.right as usize,
                                ) {
                                    Some(p) => {
                                        proof {
                                            lemma_index_unique(u, p as int);
                                        }
                                        tails.push(NodeId(p + 1));
                                    },
                                    None => {},
                                }
                            }
                        },
                        None => {},
                    }
                }
            },
            Symbol::T(_) => {},
        }
        proof {
            assert forall|k: int| 0 <= k < tails@.len() implies (#[trigger] tails@[k]).0 <= seen@.len() by {
                if k < before.len() {
                    assert(tails@[k] == before[k]);
                }
            }
        }
        idx += 1;
    }
    if !has_nt {
        let mut r: Vec<NodeId> = Vec::new();
        r.push(root_nid);
        proof {
            assert(r@ =~= seq![root_nid]);
        }
        r
    } else {
        tails
    }
}


/// The nodes are the root, then one node per label of `u`, in order, whose
/// id is its position among them.
pub open spec fn nodes_are(nodes: Seq<crate::hypergraph::Node>, u: Seq<(Seq<char>, int, int)>) -> bool {
    &&& nodes.len() == u.len() + 1
    &&& nodes[0].id == -1
    &&& nodes[0].symbol@ == "root"@
    &&& nodes[0].left == -1
    &&& nodes[0].right == -1
    &&& forall|k: int|
        0 <= k < u.len() ==> (#[trigger] nodes[k + 1]).id == k && nodes[k + 1].symbol@ == u[k].0
            && nodes[k + 1].left == u[k].1 as i32 && nodes[k + 1].right == u[k].2 as i32
}

/// `e` is the edge of entry `en`: from the nodes of its nonterminals (or
/// the root) to the node of its category and span, through a copy of its
/// rule, unmarked.
pub open spec fn edge_is(
    g: Grammar,
    e: crate::hypergraph::Edge,
    en: (Item, int, int),
    u: Seq<(Seq<char>, int, int)>,
) -> bool {
    let r = g.rules@[en.0.rule_idx as int];
    &&& e.head == node_for(u, label_of(g, en))
    &&& e.tails@ == edge_tails(rule_rhs(g, en.0.rule_idx as int), en.0.tail_spans@, u, NodeId(0))
    &&& e.mark == 0
    &&& e.f@ == r.f@
    &&& e.rule.lhs == r.lhs
    &&& e.rule.rhs@ == r.rhs@
    &&& e.rule.target@ == r.target@
    &&& e.rule.map@ == r.map@
    &&& e.rule.f@ == r.f@
    &&& e.rule.arity == crate::grammar::count_nt(crate::grammar::syms_view(r.rhs@))
}

/// The items of the cells `(i, j)`, `0 <= i < j <= n`, name rules of the
/// grammar with a nonterminal on their left-hand side.
pub open spec fn items_ok(g: Grammar, chart: Chart, n: int) -> bool {
    forall|a: int, b: int, q: int|
        0 <= a < b <= n && 0 <= q < chart.cell(a, b).len() ==> (#[trigger] chart.cell(a, b)[q]).rule_idx
            < g.rules@.len() && g.rules@[chart.cell(a, b)[q].rule_idx as int].lhs@ is NT
}

/// The hypergraph of the passive chart of an input of `n` words: a root
/// node (id -1), then a node per category and span that the chart's
/// items over `(i, j)`, `0 <= i < j <= n`, give, in the order they first
/// occur when the spans are visited narrowest first (ids 0, 1, ...); then
/// an edge per item, in the same order, from the nodes of its
/// nonterminals' spans (or the root, for a rule without nonterminals) to
/// the node of its category and span, through a copy of its rule, with
/// its rule's features.
pub fn chart_to_hg(chart: &Chart, n: usize, grammar: &Grammar) -> (hg: Hypergraph)
    requires
        chart.inv(),
        n <= chart.size(),
        items_ok(*grammar, *chart, n as int),
        chart_entries(*chart, n as int).len() < i64::MAX,
    ensures
        hg.wf(),
        nodes_are(hg.nodes@, node_labels(*grammar, *chart, n as int)),
        hg.edges@.len() == chart_entries(*chart, n as int).len(),
        forall|t: int|
            0 <= t < hg.edges@.len() ==> edge_is(
                *grammar,
                #[trigger] hg.edges@[t],
                chart_entries(*chart, n as int)[t],
                node_labels(*grammar, *chart, n as int),
            ),
{
    let ghost g = *grammar;
    let ghost all = chart_entries(*chart, n as int);
    let mut hg = Hypergraph::new();
    let mut seen: Vec<(String, usize, usize)> = Vec::new();
    let root_nid = hg.add_node(-1, "root", -1, -1);
    let mut next_id: i64 = 0;
    let spans = visit(1, 0, n, 0);
    proof {
        crate::parse::lemma_visit_bounds(1, n as int);
        assert(spans@.take(0) =~= Seq::<(usize, usize)>::empty());
        assert(seen_view(seen@) =~= first_occurrences(labels(g, entries(*chart, spans@.take(0)))));
    }
    // first pass: the nodes
    let mut t: usize = 0;
    while t < spans.len()
        invariant
            g == *grammar,
            chart.inv(),
            n <= chart.size(),
            items_ok(g, *chart, n as int),
            all == entries(*chart, spans@),
            spans@ == visit_order(1, 0, n as int, 0),
            forall|z: int| 0 <= z < spans@.len() ==> 0 <= (#[trigger] spans@[z]).0 < spans@[z].1 <= n,
            all.len() < i64::MAX,
            t <= spans@.len(),
            hg.wf(),
            hg.edges@.len() == 0,
            root_nid == NodeId(0),
            seen_view(seen@) == first_occurrences(labels(g, entries(*chart, spans@.take(t as int)))),
            nodes_are(hg.nodes@, seen_view(seen@)),
            next_id == seen@.len(),
        decreases spans.len() - t,
    {
        let (i, j) = spans[t];
        let ghost before = entries(*chart, spans@.take(t as int));
        proof {
            assert(spans@[t as int] == (i, j));
            assert(spans@.take(t + 1).drop_last() =~= spans@.take(t as int));
            assert(spans@.take(t + 1).last() == (i, j));
            lemma_entries_prefix(*chart, spans@, t + 1);
            assert(cell_entries(*chart, i as int, j as int).take(0) =~= Seq::<(Item, int, int)>::empty());
            assert(before + cell_entries(*chart, i as int, j as int).take(0) =~= before);
        }
        let items = chart.at(i, j);
        let mut q: usize = 0;
        while q < items.len()
            invariant
                g == *grammar,
                    items_ok(g, *chart, n as int),
                items@ == chart.cell(i as int, j as int),
                0 <= i < j <= n,
                before.len() + items@.len() <= all.len(),
                all.len() < i64::MAX,
                q <= items@.len(),
                hg.wf(),
                hg.edges@.len() == 0,
                seen_view(seen@) == first_occurrences(
                    labels(g, before + cell_entries(*chart, i as int, j as int).take(q as int)),
                ),
                nodes_are(hg.nodes@, seen_view(seen@)),
                next_id == seen@.len(),
            decreases items.len() - q,
        {
            let item = &items[q];
            let ghost done = before + cell_entries(*chart, i as int, j as int).take(q as int);
            let ghost en = (*item, i as int, j as int);
            proof {
                assert(chart.cell(i as int, j as int)[q as int] == *item);
                assert(item.rule_idx < g.rules@.len());
                assert(g.rules@[item.rule_idx as int].lhs@ is NT);
                assert(cell_entries(*chart, i as int, j as int).take(q + 1) =~= cell_entries(
                    *chart,
                    i as int,
                    j as int,
                ).take(q as int).push(en));
                assert(before + cell_entries(*chart, i as int, j as int).take(q + 1) =~= done.push(en));
                assert(labels(g, done.push(en)) =~= labels(g, done).push(label_of(g, en)));
                assert(labels(g, done.push(en)).drop_last() =~= labels(g, done));
                lemma_first_occurrences(labels(g, done));
            }
            let lhs_sym = grammar.rules[item.rule_idx].lhs.nt_symbol();
            match find_label(&seen, lhs_sym, i, j) {
                Some(_) => {},
                None => {
                    let ghost sv = seen_view(seen@);
                    let ghost nodes_b = hg.nodes@;
                    let nid = hg.add_node(
                        next_id,
                        lhs_sym,
                        #[verifier::truncate] (i as i32),
                        #[verifier::truncate] (j as i32),
                    );
                    seen.push((String::from_str(lhs_sym), i, j));
                    next_id += 1;
                    proof {
                        assert(seen_view(seen@) =~= sv.push((lhs_sym@, i as int, j as int)));
                        assert forall|k: int| 0 <= k < seen_view(seen@).len() implies (
                        #[trigger] hg.nodes@[k + 1]).id == k && hg.nodes@[k + 1].symbol@
                            == seen_view(seen@)[k].0 && hg.nodes@[k + 1].left == seen_view(
                            seen@,
                        )[k].1 as i32 && hg.nodes@[k + 1].right == seen_view(seen@)[k].2 as i32 by {
                            if k < sv.len() {
                                assert(hg.nodes@[k + 1] == nodes_b[k + 1]);
                                assert(seen_view(seen@)[k] == sv[k]);
                            } else {
                                assert(k + 1 == nid.0);
                                assert(seen_view(seen@)[k] == (lhs_sym@, i as int, j as int));
                            }
                        }
                        assert(hg.nodes@[0] == nodes_b[0]);
                    }
                },
            }
            proof {
                assert(done.len() + 1 <= all.len());
                lemma_first_occurrences(labels(g, done.push(en)));
                assert(labels(g, done.push(en)).len() == done.len() + 1);
            }
            q += 1;
        }
        proof {
            assert(cell_entries(*chart, i as int, j as int).take(items@.len() as int) =~= cell_entries(
                *chart,
                i as int,
                j as int,
            ));
        }
        t += 1;
    }
    proof {
        assert(spans@.take(spans@.len() as int) =~= spans@);
        lemma_first_occurrences(labels(g, all));
    }
    let ghost u = seen_view(seen@);
    // second pass: the edges
    let mut t: usize = 0;
    proof {
        assert(spans@.take(0) =~= Seq::<(usize, usize)>::empty());
    }
    while t < spans.len()
        invariant
            g == *grammar,
            chart.inv(),
            n <= chart.size(),
            items_ok(g, *chart, n as int),
            all == entries(*chart, spans@),
            spans@ == visit_order(1, 0, n as int, 0),
            forall|z: int| 0 <= z < spans@.len() ==> 0 <= (#[trigger] spans@[z]).0 < spans@[z].1 <= n,
            t <= spans@.len(),
            u == seen_view(seen@),
            u == first_occurrences(labels(g, all)),
            u.no_duplicates(),
            u.len() <= all.len(),
            all.len() < i64::MAX,
            forall|k: int| 0 <= k < all.len() ==> u.contains(#[trigger] labels(g, all)[k]),
            hg.wf(),
            root_nid == NodeId(0),
            nodes_are(hg.nodes@, u),
            hg.edges@.len() == entries(*chart, spans@.take(t as int)).len(),
            entries(*chart, spans@.take(t as int)).len() <= all.len(),
            forall|e: int|
                0 <= e < hg.edges@.len() ==> edge_is(
                    g,
                    #[trigger] hg.edges@[e],
                    entries(*chart, spans@.take(t as int))[e],
                    u,
                ),
        decreases spans.len() - t,
    {
        let (i, j) = spans[t];
        let ghost before = entries(*chart, spans@.take(t as int));
        proof {
            assert(spans@[t as int] == (i, j));
            assert(spans@.take(t + 1).drop_last() =~= spans@.take(t as int));
            assert(spans@.take(t + 1).last() == (i, j));
            lemma_entries_prefix(*chart, spans@, t + 1);
            assert(cell_entries(*chart, i as int, j as int).take(0) =~= Seq::<(Item, int, int)>::empty());
            assert(before + cell_entries(*chart, i as int, j as int).take(0) =~= before);
            lemma_entries_in(*chart, spans@, t as int);
        }
        let items = chart.at(i, j);
        let mut q: usize = 0;
        while q < items.len()
            invariant
                g == *grammar,
                    items_ok(g, *chart, n as int),
                items@ == chart.cell(i as int, j as int),
                0 <= i < j <= n,
                before.len() + items@.len() <= all.len(),
                forall|z: int|
                    0 <= z < before.len() + items@.len() ==> (before + cell_entries(
                        *chart,
                        i as int,
                        j as int,
                    ))[z] == #[trigger] all[z],
                u == seen_view(seen@),
                u.no_duplicates(),
                u.len() <= all.len(),
                all.len() < i64::MAX,
                forall|k: int| 0 <= k < all.len() ==> u.contains(#[trigger] labels(g, all)[k]),
                q <= items@.len(),
                hg.wf(),
                root_nid == NodeId(0),
                nodes_are(hg.nodes@, u),
                hg.edges@.len() == before.len() + q,
                forall|e: int|
                    0 <= e < hg.edges@.len() ==> edge_is(
                        g,
                        #[trigger] hg.edges@[e],
                        (before + cell_entries(*chart, i as int, j as int).take(q as int))[e],
                        u,
                    ),
            decreases items.len() - q,
        {
            let item = &items[q];
            let ghost en = (*item, i as int, j as int);
            let ghost done = before + cell_entries(*chart, i as int, j as int).take(q as int);
            proof {
                assert(chart.cell(i as int, j as int)[q as int] == *item);
                assert(item.rule_idx < g.rules@.len());
                assert(g.rules@[item.rule_idx as int].lhs@ is NT);
                assert(cell_entries(*chart, i as int, j as int).take(q + 1) =~= cell_entries(
                    *chart,
                    i as int,
                    j as int,
                ).take(q as int).push(en));
                assert(before + cell_entries(*chart, i as int, j as int).take(q + 1) =~= done.push(en));
                assert((before + cell_entries(*chart, i as int, j as int))[before.len() + q] == all[before.len() + q]);
                assert(labels(g, all)[before.len() + q] == label_of(g, en));
                assert(u.contains(label_of(g, en)));
            }
            let rule = &grammar.rules[item.rule_idx];
            let head_p = find_label(&seen, rule.lhs.nt_symbol(), i, j).unwrap();
            proof {
                lemma_index_unique(u, head_p as int);
                assert(seen.len() == seen@.len());
            }
            let head_nid = NodeId(head_p + 1);
            let tails = build_tails(&rule.rhs, &item.tail_spans, &seen, root_nid);
            let rule_clone = Rule::new(
                rule.lhs.clone(),
                clone_symbols(&rule.rhs),
                clone_symbols(&rule.target),
                rule.map.clone(),
                rule.f.clone(),
            );
            let ghost eb = hg.edges@;
            let ghost nb = hg.nodes@;
            hg.add_edge(head_nid, tails, rule.f.clone(), rule_clone);
            proof {
                assert forall|k: int| 0 <= k < u.len() implies (#[trigger] hg.nodes@[k + 1]).id == k
                    && hg.nodes@[k + 1].symbol@ == u[k].0 && hg.nodes@[k + 1].left == u[k].1 as i32
                    && hg.nodes@[k + 1].right == u[k].2 as i32 by {
                    assert(nb[k + 1].id == k);
                }
                assert(hg.nodes@[0].id == nb[0].id);
                let ne = hg.edges@[eb.len() as int];
                let r = g.rules@[item.rule_idx as int];
                assert(category(g, item.rule_idx as int) == r.lhs@->NT_0);
                assert(label_of(g, en) == u[head_p as int]);
                assert(head_nid.0 == head_p + 1);
                assert(u.index_of(label_of(g, en)) == head_p);
                assert(ne.head == head_nid);
                assert(ne.head == node_for(u, label_of(g, en)));
                assert(ne.tails@ == edge_tails(rule_rhs(g, item.rule_idx as int), item.tail_spans@, u, NodeId(0)));
                assert(ne.mark == 0);
                assert(ne.f@ == r.f@);
                assert(ne.rule.lhs == r.lhs);
                assert(ne.rule.rhs@ == r.rhs@);
                assert(ne.rule.target@ == r.target@);
                assert(ne.rule.map@ == r.map@);
                assert(ne.rule.f@ == r.f@);
                assert(edge_is(g, ne, en, u));
                assert forall|e: int| 0 <= e < hg.edges@.len() implies edge_is(
                    g,
                    #[trigger] hg.edges@[e],
                    done.push(en)[e],
                    u,
                ) by {
                    if e < eb.len() {
                        assert(hg.edges@[e] == eb[e]);
                        assert(done.push(en)[e] == done[e]);
                    }
                }
            }
            q += 1;
        }
        proof {
            assert(cell_entries(*chart, i as int, j as int).take(items@.len() as int) =~= cell_entries(
                *chart,
                i as int,
                j as int,
            ));
        }
        t += 1;
    }
    proof {
        assert(spans@.take(spans@.len() as int) =~= spans@);
    }
    hg
}

/// The entries over the first `t + 1` spans are those over the first `t`
/// followed by those of span `t`, and they begin all entries.
pub proof fn lemma_entries_in(chart: Chart, spans: Seq<(usize, usize)>, t: int)
    requires
        0 <= t < spans.len(),
    ensures
        forall|z: int|
            0 <= z < entries(chart, spans.take(t)).len() + cell_entries(
                chart,
                spans[t].0 as int,
                spans[t].1 as int,
            ).len() ==> (entries(chart, spans.take(t)) + cell_entries(
                chart,
                spans[t].0 as int,
                spans[t].1 as int,
            ))[z] == #[trigger] entries(chart, spans)[z],
    decreases spans.len(),
{
    assert(spans.take(t + 1).drop_last() =~= spans.take(t));
    assert(spans.take(t + 1).last() == spans[t]);
    if t + 1 == spans.len() {
        assert(spans.take(t + 1) =~= spans);
    } else {
        assert(spans.drop_last().take(t) =~= spans.take(t));
        assert(spans.drop_last()[t] == spans[t]);
        lemma_entries_in(chart, spans.drop_last(), t);
        lemma_entries_prefix(chart, spans.drop_last(), t + 1);
        assert(spans.drop_last().take(t + 1) =~= spans.take(t + 1));
    }
}

} // verus!
verus! {

/// The hypergraph of a chart has one node per category and span: the
/// node labels are distinct, and every item's category and span is one of
/// them.
pub proof fn lemma_one_node_per_label(g: Grammar, chart: Chart, n: int)
    ensures
        node_labels(g, chart, n).no_duplicates(),
        forall|t: int|
            0 <= t < chart_entries(chart, n).len() ==> node_labels(g, chart, n).contains(
                label_of(g, #[trigger] chart_entries(chart, n)[t]),
            ),
{
    let ls = labels(g, chart_entries(chart, n));
    lemma_first_occurrences(ls);
    assert forall|t: int| 0 <= t < chart_entries(chart, n).len() implies node_labels(
        g,
        chart,
        n,
    ).contains(label_of(g, #[trigger] chart_entries(chart, n)[t])) by {
        assert(ls[t] == label_of(g, chart_entries(chart, n)[t]));
    }
}

} // verus!
