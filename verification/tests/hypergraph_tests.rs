use odenwald::chart_to_hg::chart_to_hg;
use odenwald::features::Features;
use odenwald::grammar::{Grammar, Rule};
use odenwald::hypergraph::{EdgeId, Hypergraph, NodeId};
use odenwald::hypergraph_algos::{all_paths, derivation_of, topological_sort};
use odenwald::hypergraph_io::{
    hypergraph_from_records, write_hypergraph_to_json, EdgeRecord, NodeRecord,
};
use odenwald::parse::{init, parse, Chart};

fn lines(text: &[&str]) -> Vec<String> {
    text.iter().map(|l| l.to_string()).collect()
}

fn toy_hypergraph() -> Hypergraph {
    let g = Grammar::from_lines(&lines(&[
        "[S] ||| [NP,1] [VP,2] ||| [NP,1] [VP,2]",
        "[NP] ||| ich ||| i",
        "[VP] ||| [V,1] [NP,2] ||| [V,1] [NP,2]",
        "[V] ||| sah ||| saw",
        "[NP] ||| ein [NN,1] ||| a [NN,1]",
        "[NN] ||| [JJ,1] [NN,2] ||| [JJ,1] [NN,2]",
        "[JJ] ||| kleines ||| small ||| use_small=1",
        "[JJ] ||| kleines ||| little ||| use_little=1",
        "[NN] ||| haus ||| house ||| use_house=1",
        "[NN] ||| haus ||| shell ||| use_shell=1",
    ]));
    let input: Vec<String> = "ich sah ein kleines haus"
        .split_whitespace()
        .map(|w| w.to_string())
        .collect();
    let n = input.len();
    let mut active = Chart::new(n);
    let mut passive = Chart::new(n);
    init(&input, n, &mut active, &mut passive, &g);
    parse(&input, n, &mut active, &mut passive, &g);
    chart_to_hg(&passive, n, &g)
}

fn rule(text: &str) -> Rule {
    Rule::from_str(text)
}

fn translation(hg: &Hypergraph, path: &[EdgeId]) -> String {
    let last_head = hg.edges[path.last().unwrap().0].head;
    let mut carry = Vec::new();
    odenwald::hypergraph_algos::derive(hg, path, last_head, &mut carry);
    carry.join(" ")
}

#[test]
fn test_all_paths_toy() {
    let mut hg = toy_hypergraph();

    let paths = all_paths(&mut hg);
    // The toy hypergraph should have multiple distinct paths
    assert!(paths.len() > 1);

    // Collect all translations
    let mut translations: Vec<String> = Vec::new();
    for p in &paths {
        let mut carry = Vec::new();
        let last_head = hg.edges[p.last().unwrap().0].head;
        odenwald::hypergraph_algos::derive(&hg, p, last_head, &mut carry);
        translations.push(carry.join(" "));
    }

    assert!(translations.contains(&"i saw a small shell".to_string()));
    assert!(translations.contains(&"i saw a small house".to_string()));
    assert!(translations.contains(&"i saw a little shell".to_string()));
    assert!(translations.contains(&"i saw a little house".to_string()));
}

#[test]
fn chart_hypergraph_has_a_node_per_category_and_span() {
    let hg = toy_hypergraph();
    let labels: Vec<(i64, String, i32, i32)> = hg
        .nodes
        .iter()
        .map(|n| (n.id, n.symbol.clone(), n.left, n.right))
        .collect();
    assert_eq!(
        labels,
        vec![
            (-1, "root".to_string(), -1, -1),
            (0, "NP".to_string(), 0, 1),
            (1, "V".to_string(), 1, 2),
            (2, "JJ".to_string(), 3, 4),
            (3, "NN".to_string(), 4, 5),
            (4, "NN".to_string(), 3, 5),
            (5, "NP".to_string(), 2, 5),
            (6, "VP".to_string(), 1, 5),
            (7, "S".to_string(), 0, 5),
        ]
    );
    assert_eq!(hg.edges.len(), 10);
    assert_eq!(hg.edges[0].tails, vec![NodeId(0)]);
    assert_eq!(hg.edges[6].head, NodeId(5));
    assert_eq!(hg.edges[6].tails, vec![NodeId(3), NodeId(4)]);
    assert_eq!(hg.edges[9].tails, vec![NodeId(1), NodeId(7)]);
    assert_eq!(hg.edges[2].f.pairs, vec![("use_small".to_string(), "1".to_string())]);
    assert_eq!(hg.edges[9].rule.to_string(), "[S] ||| [NP,1] [VP,2] ||| [NP,1] [VP,2]");
    assert_eq!(hg.node(NodeId(8)).symbol, "S");
    assert_eq!(hg.nodes_by_id.get(&7), Some(&NodeId(8)));
    assert_eq!(hg.nodes[8].incoming, vec![EdgeId(9)]);
    assert_eq!(hg.nodes[0].outgoing.len(), 6);
}

#[test]
fn topological_sort_puts_tails_first() {
    let mut hg = toy_hypergraph();
    let order = topological_sort(&mut hg);
    let pos = |v: NodeId| order.iter().position(|&x| x == v).unwrap();
    assert_eq!(order.len(), hg.nodes.len());
    for e in &hg.edges {
        for &t in &e.tails {
            assert!(pos(t) < pos(e.head));
        }
        assert!(e.marked());
    }
    assert_eq!(order[0], NodeId(0));
    hg.reset();
    assert!(hg.edges.iter().all(|e| e.mark == 0));
}

#[test]
fn topological_sort_leaves_cycles_out() {
    let mut hg = Hypergraph::new();
    let a = hg.add_node(10, "A", 0, 1);
    let b = hg.add_node(11, "B", 0, 1);
    let c = hg.add_node(12, "C", 0, 1);
    hg.add_edge(b, vec![a], Features::new(), rule("[B] ||| [A,1] ||| [A,1]"));
    hg.add_edge(a, vec![b], Features::new(), rule("[A] ||| [B,1] ||| [B,1]"));
    hg.add_edge(c, vec![a, a], Features::new(), rule("[C] ||| [A,1] [A,2] ||| [A,1] [A,2]"));
    let order = topological_sort(&mut hg);
    assert!(order.is_empty());
    assert_eq!(hg.nodes[a.0].outgoing, vec![EdgeId(0), EdgeId(2), EdgeId(2)]);
    assert_eq!(hg.edge(EdgeId(2)).arity(), 2);
    assert!(!hg.edge(EdgeId(2)).marked());
}

#[test]
fn topological_sort_counts_repeated_tails() {
    let mut hg = Hypergraph::new();
    let a = hg.add_node(1, "A", 0, 1);
    let c = hg.add_node(2, "C", 0, 2);
    hg.add_edge(c, vec![a, a], Features::new(), rule("[C] ||| [A,1] [A,2] ||| [A,1] [A,2]"));
    let order = topological_sort(&mut hg);
    assert_eq!(order, vec![a, c]);
    assert_eq!(hg.edges[0].mark, 2);
    let again = topological_sort(&mut hg);
    assert_eq!(again, vec![a]);
}

#[test]
fn derive_follows_the_first_matching_edge() {
    let mut hg = Hypergraph::new();
    let root = hg.add_node(-1, "root", -1, -1);
    let x1 = hg.add_node(0, "X", 0, 1);
    let s = hg.add_node(1, "S", 0, 1);
    let e0 = hg.add_edge(x1, vec![root], Features::new(), rule("[X] ||| a ||| one"));
    let e1 = hg.add_edge(x1, vec![root], Features::new(), rule("[X] ||| a ||| two"));
    let e2 = hg.add_edge(s, vec![x1], Features::new(), rule("[S] ||| [X,1] ||| [X,1] end"));
    let mut carry = vec!["start".to_string()];
    odenwald::hypergraph_algos::derive(&hg, &[e1, e0, e2], s, &mut carry);
    assert_eq!(carry, vec!["start", "two", "end"]);
    assert_eq!(
        derivation_of(&hg, &[e0, e2], s),
        Some(vec!["one".to_string(), "end".to_string()])
    );
    assert_eq!(derivation_of(&hg, &[e2], s), None);
    assert_eq!(translation(&hg, &[e0, e2]), "one end");
}

#[test]
fn derivation_fails_on_a_cycle() {
    let mut hg = Hypergraph::new();
    let a = hg.add_node(0, "A", 0, 1);
    let e = hg.add_edge(a, vec![a], Features::new(), rule("[A] ||| [A,1] ||| [A,1]"));
    assert_eq!(derivation_of(&hg, &[e], a), None);
}

#[test]
fn derivation_fails_on_an_unlinked_nonterminal() {
    let mut hg = Hypergraph::new();
    let root = hg.add_node(-1, "root", -1, -1);
    let a = hg.add_node(0, "A", 0, 1);
    let e = hg.add_edge(a, vec![root], Features::new(), rule("[A] ||| x ||| [B,1]"));
    assert_eq!(derivation_of(&hg, &[e], a), None);
}

#[test]
fn records_build_the_hypergraph() {
    let nodes = vec![
        NodeRecord { id: -1, cat: "root".to_string(), left: -1, right: -1 },
        NodeRecord { id: 0, cat: "X".to_string(), left: 0, right: 1 },
        NodeRecord { id: 1, cat: "S".to_string(), left: 0, right: 1 },
    ];
    let edges = vec![
        EdgeRecord {
            head: 0,
            tails: vec![-1],
            f: Features::from_kv("w=2", '=', ' '),
            rule: "[X] ||| a ||| b".to_string(),
        },
        EdgeRecord {
            head: 1,
            tails: vec![0],
            f: Features::new(),
            rule: "[S] ||| [X,1] ||| [X,1]".to_string(),
        },
    ];
    let hg = hypergraph_from_records(&nodes, &edges).unwrap();
    assert_eq!(hg.nodes.len(), 3);
    assert_eq!(hg.nodes[2].symbol, "S");
    assert_eq!(hg.edges[1].head, NodeId(2));
    assert_eq!(hg.edges[1].tails, vec![NodeId(1)]);
    assert_eq!(hg.edges[0].f.pairs, vec![("w".to_string(), "2".to_string())]);
    assert_eq!(hg.nodes[1].incoming, vec![EdgeId(0)]);
    assert_eq!(hg.nodes[1].outgoing, vec![EdgeId(1)]);
    assert_eq!(derivation_of(&hg, &[EdgeId(0), EdgeId(1)], NodeId(2)), Some(vec!["b".to_string()]));
}

#[test]
fn records_with_unknown_ids_or_bad_rules_are_refused() {
    let nodes = vec![NodeRecord { id: 5, cat: "X".to_string(), left: 0, right: 1 }];
    let bad_head = vec![EdgeRecord {
        head: 6,
        tails: vec![],
        f: Features::new(),
        rule: "[X] ||| a ||| b".to_string(),
    }];
    assert!(hypergraph_from_records(&nodes, &bad_head).is_none());
    let bad_tail = vec![EdgeRecord {
        head: 5,
        tails: vec![5, 7],
        f: Features::new(),
        rule: "[X] ||| a ||| b".to_string(),
    }];
    assert!(hypergraph_from_records(&nodes, &bad_tail).is_none());
    let bad_rule = vec![EdgeRecord {
        head: 5,
        tails: vec![],
        f: Features::new(),
        rule: "[X] ||| a".to_string(),
    }];
    assert!(hypergraph_from_records(&nodes, &bad_rule).is_none());
}

#[test]
fn later_nodes_win_an_id() {
    let mut hg = Hypergraph::new();
    let a = hg.add_node(3, "A", 0, 1);
    let b = hg.add_node(3, "B", 1, 2);
    assert_eq!((a, b), (NodeId(0), NodeId(1)));
    assert_eq!(hg.nodes_by_id.get(&3), Some(&NodeId(1)));
}

#[test]
fn topological_sort_takes_nodes_first_come_first() {
    // roots r0, r1; r0 -> x, r1 -> y, x -> z; Kahn's queue gives
    // r0, r1, x, y, z (a depth-first order would give r0, x, z, r1, y)
    let mut hg = Hypergraph::new();
    let r0 = hg.add_node(0, "R", 0, 1);
    let x = hg.add_node(1, "X", 0, 2);
    let r1 = hg.add_node(2, "R", 1, 2);
    let z = hg.add_node(3, "Z", 0, 3);
    let y = hg.add_node(4, "Y", 1, 3);
    hg.add_edge(x, vec![r0], Features::new(), rule("[X] ||| [R,1] ||| [R,1]"));
    hg.add_edge(y, vec![r1], Features::new(), rule("[Y] ||| [R,1] ||| [R,1]"));
    hg.add_edge(z, vec![x], Features::new(), rule("[Z] ||| [X,1] ||| [X,1]"));
    let order = topological_sort(&mut hg);
    assert_eq!(order, vec![r0, r1, x, y, z]);
}

#[test]
fn json_text_lists_nodes_and_edges_by_id() {
    let mut hg = Hypergraph::new();
    let root = hg.add_node(-1, "root", -1, -1);
    let a = hg.add_node(0, "A\"q", 0, 1);
    let s = hg.add_node(1, "S", 0, 2);
    hg.add_edge(a, vec![root], Features::new(), rule("[A] ||| a ||| b"));
    hg.add_edge(s, vec![a, a], Features::new(), rule("[S] ||| [A,1] [A,2] ||| [A,2] [A,1]"));
    let fs = vec![String::from("{}"), String::from("{\"x\":1}")];
    let text = write_hypergraph_to_json(&hg, "{\"x\":0.5}", &fs);
    let expected = "{\n\"weights\":{\"x\":0.5},\n\"nodes\":\n[\n\
{ \"id\":-1, \"cat\":\"root\", \"span\":[-1,-1] },\n\
{ \"id\":0, \"cat\":\"A\\\"q\", \"span\":[0,1] },\n\
{ \"id\":1, \"cat\":\"S\", \"span\":[0,2] }\n],\n\"edges\":\n[\n\
{ \"head\":0, \"rule\":\"[A] ||| a ||| b\", \"tails\":[-1], \"f\":{} },\n\
{ \"head\":1, \"rule\":\"[S] ||| [A,1] [A,2] ||| [A,2] [A,1]\", \"tails\":[0, 0], \"f\":{\"x\":1} }\n]\n}\n";
    assert_eq!(text, expected);
}

#[test]
fn json_text_of_an_empty_hypergraph() {
    let hg = Hypergraph::new();
    let text = write_hypergraph_to_json(&hg, "{}", &Vec::new());
    assert_eq!(text, "{\n\"weights\":{},\n\"nodes\":\n[\n\n],\n\"edges\":\n[\n\n]\n}\n");
}
