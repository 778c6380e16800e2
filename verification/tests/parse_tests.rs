use odenwald::grammar::{Grammar, Symbol};
use odenwald::parse::{categories_fit, init, parse, visit, Chart, Item, Span};

fn lines(text: &[&str]) -> Vec<String> {
    text.iter().map(|l| l.to_string()).collect()
}

fn words(s: &str) -> Vec<String> {
    s.split_whitespace().map(|w| w.to_string()).collect()
}

fn toy_grammar() -> Grammar {
    Grammar::from_lines(&lines(&[
        "[S] ||| [NP,1] [VP,2] ||| [NP,1] [VP,2]",
        "[NP] ||| ich ||| i",
        "[VP] ||| [V,1] [NP,2] ||| [V,1] [NP,2]",
        "[V] ||| sah ||| saw",
        "[NP] ||| ein [NN,1] ||| a [NN,1]",
        "[NN] ||| [JJ,1] [NN,2] ||| [JJ,1] [NN,2]",
        "[JJ] ||| kleines ||| small",
        "[JJ] ||| kleines ||| little",
        "[NN] ||| haus ||| house",
        "[NN] ||| haus ||| shell",
    ]))
}

fn symbols_at(chart: &Chart, g: &Grammar, i: usize, j: usize) -> Vec<String> {
    let mut out: Vec<String> = chart
        .at(i, j)
        .iter()
        .map(|it| g.rules[it.rule_idx].lhs.nt_symbol().to_string())
        .collect();
    out.sort();
    out
}

#[test]
fn visit_goes_bottom_up() {
    assert_eq!(
        visit(1, 0, 3, 0),
        vec![(0, 1), (1, 2), (2, 3), (0, 2), (1, 3), (0, 3)]
    );
    assert_eq!(visit(2, 1, 3, 0), vec![(1, 3)]);
    assert_eq!(visit(1, 0, 2, 1), vec![(0, 1), (1, 2)]);
    assert!(visit(1, 0, 0, 0).is_empty());
}

#[test]
fn item_from_rule_marks_nonterminal_spans() {
    let rhs = vec![Symbol::parse("ein"), Symbol::parse("[NN,1]")];
    let it = Item::from_rule(4, &rhs, 2, 3, 1);
    assert_eq!((it.rule_idx, it.left, it.right, it.dot), (4, 2, 3, 1));
    assert!(it.tail_spans[0].is_none());
    let sp = it.tail_spans[1].unwrap();
    assert_eq!((sp.left, sp.right), (-1, -1));
    let moved = it.advance(2, 5, 2);
    assert_eq!((moved.rule_idx, moved.left, moved.right, moved.dot), (4, 2, 5, 2));
    assert_eq!(moved.tail_spans.len(), 2);
}

#[test]
fn chart_reads_back_what_was_added() {
    let mut c = Chart::new(4);
    let it = Item::from_rule(0, &[Symbol::parse("a")], 1, 2, 1);
    assert!(!c.has("X", 1, 2));
    assert!(!c.has_any_at("X", 1));
    assert!(c.rights_for("X", 1).is_empty());
    c.add(it.clone(), 1, 2, "X");
    c.add(it.clone(), 1, 3, "X");
    c.add(it.clone(), 1, 2, "X");
    c.add(it, 2, 3, "Y");
    assert!(c.has("X", 1, 2));
    assert!(c.has("X", 1, 3));
    assert!(!c.has("X", 2, 3));
    assert!(c.has("Y", 2, 3));
    assert!(c.has_any_at("X", 1));
    assert!(!c.has_any_at("Y", 1));
    assert_eq!(c.rights_for("X", 1), &[2u16, 3u16]);
    assert_eq!(c.at(1, 2).len(), 2);
    assert_eq!(c.at(1, 3).len(), 1);
    assert_eq!(c.at(0, 0).len(), 0);
    c.at_mut(0, 4).push(Item::from_rule(1, &[], 0, 0, 0));
    assert_eq!(c.at(0, 4).len(), 1);
    assert!(!c.has_any_at("Z", 0));
}

#[test]
fn chart_keeps_right_ends_in_increasing_order() {
    let mut c = Chart::new(6);
    let it = Item::from_rule(0, &[Symbol::parse("a")], 0, 0, 0);
    for j in [5usize, 2, 4, 2, 6, 1] {
        c.add(it.clone(), 0, j, "X");
    }
    assert_eq!(c.rights_for("X", 0), &[1u16, 2, 4, 5, 6]);
    assert_eq!(c.at(0, 2).len(), 2);
}

#[test]
fn init_adds_the_flat_rules_that_match() {
    let g = Grammar::from_lines(&lines(&[
        "[A] ||| x y ||| p",
        "[B] ||| x ||| q",
        "[C] ||| x z ||| r",
        "[D] ||| y x y ||| s",
    ]));
    let input = words("x y x");
    let mut active = Chart::new(3);
    let mut passive = Chart::new(3);
    init(&input, 3, &mut active, &mut passive, &g);
    assert_eq!(symbols_at(&passive, &g, 0, 2), vec!["A"]);
    assert_eq!(symbols_at(&passive, &g, 0, 1), vec!["B"]);
    assert_eq!(symbols_at(&passive, &g, 2, 3), vec!["B"]);
    assert_eq!(symbols_at(&passive, &g, 1, 3).len(), 0);
    assert!(passive.at(2, 3)[0].tail_spans.iter().all(|s| s.is_none()));
    assert_eq!(passive.at(0, 2)[0].dot, 2);
}

#[test]
fn parse_finds_the_sentence() {
    let g = toy_grammar();
    let input = words("ich sah ein kleines haus");
    let n = input.len();
    let mut active = Chart::new(n);
    let mut passive = Chart::new(n);
    init(&input, n, &mut active, &mut passive, &g);
    parse(&input, n, &mut active, &mut passive, &g);
    assert_eq!(symbols_at(&passive, &g, 0, 5), vec!["S"]);
    assert_eq!(symbols_at(&passive, &g, 1, 5), vec!["VP"]);
    assert_eq!(symbols_at(&passive, &g, 2, 5), vec!["NP"]);
    assert_eq!(symbols_at(&passive, &g, 3, 5), vec!["NN"]);
    assert_eq!(symbols_at(&passive, &g, 4, 5), vec!["NN", "NN"]);
    assert_eq!(symbols_at(&passive, &g, 3, 4), vec!["JJ", "JJ"]);
    assert_eq!(symbols_at(&passive, &g, 0, 2).len(), 0);
    let top = &passive.at(0, 5)[0];
    assert_eq!(top.dot, 2);
    let spans: Vec<(i32, i32)> = top
        .tail_spans
        .iter()
        .map(|s| {
            let Span { left, right } = s.unwrap();
            (left, right)
        })
        .collect();
    assert_eq!(spans, vec![(0, 1), (1, 5)]);
    for i in 0..=n {
        for j in 0..=n {
            if i < j {
                assert!(active.at(i, j).is_empty());
            }
        }
    }
}

#[test]
fn parse_fills_unary_chains() {
    let g = Grammar::from_lines(&lines(&[
        "[A] ||| a ||| a",
        "[B] ||| [A,1] ||| [A,1]",
        "[C] ||| [B,1] ||| [B,1]",
    ]));
    let input = words("a");
    let mut active = Chart::new(1);
    let mut passive = Chart::new(1);
    init(&input, 1, &mut active, &mut passive, &g);
    parse(&input, 1, &mut active, &mut passive, &g);
    assert_eq!(symbols_at(&passive, &g, 0, 1), vec!["A", "B", "C"]);
}

#[test]
fn parse_without_a_match_adds_nothing() {
    let g = toy_grammar();
    let input = words("kein satz");
    let mut active = Chart::new(2);
    let mut passive = Chart::new(2);
    init(&input, 2, &mut active, &mut passive, &g);
    parse(&input, 2, &mut active, &mut passive, &g);
    for (i, j) in visit(1, 0, 2, 0) {
        assert!(passive.at(i, j).is_empty());
    }
}

#[test]
fn parse_records_every_rule_that_matches_a_span() {
    let g = Grammar::from_lines(&lines(&[
        "[A] ||| a ||| a",
        "[B] ||| b ||| b",
        "[P] ||| [A,1] x [B,2] ||| [B,2] [A,1]",
        "[Q] ||| [P,1] ||| [P,1]",
        "[R] ||| [Q,1] ||| [Q,1]",
        "[T] ||| y [A,1] ||| [A,1]",
        "[U] ||| [A,1] [A,2] ||| [A,1] [A,2]",
    ]));
    let input = words("a x b y a");
    let n = input.len();
    let mut active = Chart::new(n);
    let mut passive = Chart::new(n);
    init(&input, n, &mut active, &mut passive, &g);
    parse(&input, n, &mut active, &mut passive, &g);
    assert!(passive.has("P", 0, 3));
    assert!(passive.has("Q", 0, 3));
    assert!(passive.has("R", 0, 3));
    assert!(passive.has("T", 3, 5));
    assert!(!passive.has("U", 0, 2));
    assert!(!passive.has("P", 0, 2));
    for (i, j) in visit(1, 0, n, 0) {
        assert!(active.at(i, j).is_empty());
    }
}

#[test]
fn parse_fills_a_unary_chain_in_one_cell() {
    let g = Grammar::from_lines(&lines(&[
        "[X] ||| a ||| a",
        "[S] ||| [X,1] ||| [X,1]",
        "[T] ||| [S,1] ||| [S,1]",
    ]));
    let input = words("a");
    let mut active = Chart::new(1);
    let mut passive = Chart::new(1);
    init(&input, 1, &mut active, &mut passive, &g);
    assert!(passive.has("X", 0, 1));
    assert_eq!(passive.rights_for("X", 0), &[1u16]);
    parse(&input, 1, &mut active, &mut passive, &g);
    assert!(passive.has("X", 0, 1));
    assert!(passive.has("S", 0, 1));
    assert!(passive.has("T", 0, 1));
    assert_eq!(passive.at(0, 1).len(), 3);
    assert!(active.at(0, 1).is_empty());
}

#[test]
fn parse_keeps_every_split_of_a_span() {
    let g = Grammar::from_lines(&lines(&[
        "[A] ||| a ||| a",
        "[A] ||| a a ||| b",
        "[P] ||| [A,1] [A,2] ||| [A,1] [A,2]",
    ]));
    let input = words("a a a");
    let n = input.len();
    let mut active = Chart::new(n);
    let mut passive = Chart::new(n);
    init(&input, n, &mut active, &mut passive, &g);
    parse(&input, n, &mut active, &mut passive, &g);
    let mut splits: Vec<i32> = passive
        .at(0, 3)
        .iter()
        .filter(|it| it.rule_idx == 2)
        .map(|it| it.tail_spans[0].unwrap().right)
        .collect();
    splits.sort();
    assert_eq!(splits, vec![1, 2]);
}

#[test]
fn parse_accepts_an_unused_rule_with_a_word_on_the_left() {
    let g = Grammar::from_lines(&lines(&[
        "[A] ||| a ||| a",
        "b ||| [A,1] z ||| [A,1]",
        "[P] ||| [A,1] [A,2] ||| [A,1] [A,2]",
    ]));
    let input = words("a a");
    let n = input.len();
    let mut active = Chart::new(n);
    let mut passive = Chart::new(n);
    init(&input, n, &mut active, &mut passive, &g);
    parse(&input, n, &mut active, &mut passive, &g);
    assert!(passive.has("P", 0, 2));
}

#[test]
fn categories_fit_when_every_left_side_is_a_nonterminal() {
    assert!(categories_fit(&toy_grammar()));
    let g = Grammar::from_lines(&lines(&["[X] ||| a ||| a", "b ||| [X,1] ||| [X,1]"]));
    assert!(!categories_fit(&g));
    assert!(categories_fit(&Grammar::from_lines(&lines(&[]))));
}

#[test]
fn parse_may_record_a_unary_completion_twice() {
    let g = Grammar::from_lines(&lines(&[
        "[X] ||| a ||| a",
        "[Y] ||| a ||| a",
        "[X] ||| [Y,1] b ||| [Y,1] b",
        "[S] ||| [X,1] ||| [X,1]",
    ]));
    let input = words("a b");
    let mut active = Chart::new(2);
    let mut passive = Chart::new(2);
    init(&input, 2, &mut active, &mut passive, &g);
    parse(&input, 2, &mut active, &mut passive, &g);
    let cell = passive.at(0, 2);
    assert_eq!(cell.len(), 3);
    let s_items: Vec<&Item> = cell.iter().filter(|it| it.rule_idx == 3).collect();
    assert_eq!(s_items.len(), 2);
    let spans = |it: &Item| -> Vec<Option<(i32, i32)>> {
        it.tail_spans.iter().map(|s| s.map(|x| (x.left, x.right))).collect()
    };
    assert_eq!(spans(s_items[0]), vec![Some((0, 2))]);
    assert_eq!(spans(s_items[1]), vec![Some((0, 2))]);
    assert_eq!(passive.at(0, 1).len(), 3);
}
