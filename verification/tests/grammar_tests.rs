use odenwald::grammar::{splitpipe, Grammar, Rule, Symbol};

fn value_of(pairs: &Vec<(String, String)>, name: &str) -> Option<f64> {
    let mut found = None;
    for (k, v) in pairs {
        if k == name {
            if let Ok(x) = v.parse::<f64>() {
                found = Some(x);
            }
        }
    }
    found
}

fn lines(text: &[&str]) -> Vec<String> {
    text.iter().map(|l| l.to_string()).collect()
}

#[test]
fn test_symbol_parse_t() {
    let s = Symbol::parse("hello");
    assert_eq!(s, Symbol::T("hello".to_string()));
}

#[test]
fn test_symbol_parse_nt() {
    let s = Symbol::parse("[NP,1]");
    assert_eq!(
        s,
        Symbol::NT {
            symbol: "NP".to_string(),
            index: 0
        }
    );
}

#[test]
fn test_symbol_parse_nt_no_index() {
    let s = Symbol::parse("[S]");
    assert_eq!(
        s,
        Symbol::NT {
            symbol: "S".to_string(),
            index: -1
        }
    );
}

#[test]
fn test_rule_from_str() {
    let r = Rule::from_str("[NP] ||| ein [NN,1] ||| a [NN,1] ||| logp=0 use_a=1.0");
    assert_eq!(r.lhs.nt_symbol(), "NP");
    assert_eq!(r.rhs.len(), 2);
    assert_eq!(r.target.len(), 2);
    assert_eq!(r.map, vec![0]);
    assert_eq!(r.arity, 1);
    assert_eq!(value_of(&r.f.pairs, "use_a").unwrap(), 1.0);
}

#[test]
fn test_rule_display() {
    let r = Rule::from_str("[S] ||| [NP,1] [VP,2] ||| [NP,1] [VP,2] ||| logp=0");
    assert_eq!(r.to_string(), "[S] ||| [NP,1] [VP,2] ||| [NP,1] [VP,2]");
}

#[test]
fn symbol_parse_trims_and_reads_index() {
    assert_eq!(
        Symbol::parse("  [ X , 12 ] "),
        Symbol::NT {
            symbol: "X".to_string(),
            index: 11
        }
    );
    assert_eq!(Symbol::parse("  word "), Symbol::T("word".to_string()));
    assert_eq!(Symbol::parse("[]"), Symbol::NT { symbol: "".to_string(), index: -1 });
    assert_eq!(Symbol::parse("["), Symbol::T("[".to_string()));
}

#[test]
fn symbol_text_ok_rejects_bad_index() {
    assert!(!Symbol::text_ok("[X,a]"));
    assert!(!Symbol::text_ok("[X,-2147483648]"));
    assert!(Symbol::text_ok("[X,-2147483647]"));
    assert!(Symbol::text_ok("[X]"));
    assert!(Symbol::text_ok("plain"));
}

#[test]
fn symbol_text_reads_back() {
    for text in ["[NP,1]", "[S]", "haus", "[X,42]"] {
        let s = Symbol::parse(text);
        assert_eq!(s.to_string(), text);
        assert_eq!(Symbol::parse(&s.to_string()), s);
    }
}

#[test]
fn symbol_accessors() {
    let nt = Symbol::parse("[NN,2]");
    assert!(nt.is_nt());
    assert!(!nt.is_t());
    assert_eq!(nt.nt_symbol(), "NN");
    assert_eq!(nt.nt_index(), 1);
    let t = Symbol::parse("haus");
    assert!(t.is_t());
    assert_eq!(t.word(), "haus");
}

#[test]
fn splitpipe_splits_and_trims() {
    let parts = splitpipe(" a ||| b c |||d||| e ||| f ", 3);
    assert_eq!(parts, vec!["a", "b c", "d", "e ||| f"]);
    let parts = splitpipe("no pipes", 3);
    assert_eq!(parts, vec!["no pipes"]);
}

#[test]
fn rule_without_features_and_map() {
    let r = Rule::from_str("[X] ||| [A,2] x [B,1] ||| [B,1] y [A,2]");
    assert_eq!(r.map, vec![1, 0]);
    assert_eq!(r.arity, 2);
    assert!(r.f.pairs.is_empty());
    assert_eq!(r.to_string(), "[X] ||| [A,2] x [B,1] ||| [B,1] y [A,2]");
    assert!(!Rule::text_ok("[X] ||| a"));
    assert!(Rule::text_ok("[X] ||| a ||| b"));
}

#[test]
fn rule_new_counts_nonterminals() {
    let r = Rule::new(
        Symbol::parse("[X]"),
        vec![Symbol::parse("a"), Symbol::parse("[Y,1]"), Symbol::parse("[Z,2]")],
        vec![],
        vec![0, 1],
        odenwald::features::Features::new(),
    );
    assert_eq!(r.arity, 2);
}

#[test]
fn grammar_lists_rules_by_kind() {
    let ls = lines(&[
        "[NP] ||| ein [NN,1] ||| a [NN,1]",
        "",
        "[NN] ||| haus ||| house",
        "   ",
        "[S] ||| [NP,1] [VP,2] ||| [NP,1] [VP,2]",
        "[NN] ||| haus ||| shell",
    ]);
    assert!(Grammar::lines_ok(&ls));
    let g = Grammar::from_lines(&ls);
    assert_eq!(g.rules.len(), 4);
    assert_eq!(g.start_t, vec![0]);
    assert_eq!(g.flat, vec![1, 3]);
    assert_eq!(g.start_nt, vec![2]);
    assert_eq!(g.start_t_by_word.get("ein").unwrap(), &vec![0]);
    assert_eq!(g.flat_by_first_word.get("haus").unwrap(), &vec![1, 3]);
    assert_eq!(g.start_nt_by_symbol.get("NP").unwrap(), &vec![2]);
    assert!(g.start_nt_by_symbol.get("VP").is_none());
}

#[test]
fn grammar_lines_ok_rejects_bad_lines() {
    assert!(!Grammar::lines_ok(&lines(&["[X] ||| a"])));
    assert!(!Grammar::lines_ok(&lines(&["[X] |||  ||| b"])));
    assert!(!Grammar::lines_ok(&lines(&["[X] ||| [Y,z] ||| b"])));
    assert!(Grammar::lines_ok(&lines(&["", "[X] ||| a ||| b"])));
}

#[test]
fn pass_through_rules_are_flat() {
    let mut g = Grammar::from_lines(&lines(&["[X] ||| a ||| b"]));
    g.add_pass_through_rules(&["w".to_string(), "a".to_string()]);
    assert_eq!(g.rules.len(), 3);
    assert_eq!(g.rules[1].to_string(), "[X] ||| w ||| w");
    assert_eq!(g.flat, vec![0, 1, 2]);
    assert_eq!(g.flat_by_first_word.get("a").unwrap(), &vec![0, 2]);
}

#[test]
fn glue_rules_cover_each_category_once() {
    let mut g = Grammar::from_lines(&lines(&[
        "[NP] ||| a ||| b",
        "[S] ||| [NP,1] ||| [NP,1]",
        "[VP] ||| c ||| d",
        "[NP] ||| e ||| f",
    ]));
    g.add_glue_rules();
    assert_eq!(g.rules.len(), 7);
    let mut glued: Vec<String> = g.rules[4..6].iter().map(|r| r.to_string()).collect();
    glued.sort();
    assert_eq!(
        glued,
        vec!["[S] ||| [NP,1] ||| [NP,1]", "[S] ||| [VP,1] ||| [VP,1]"]
    );
    assert_eq!(g.rules[6].to_string(), "[S] ||| [S,1] [X,2] ||| [S,1] [X,2]");
    assert_eq!(g.start_nt_by_symbol.get("S").unwrap(), &vec![6]);
}

#[test]
fn glue_rules_need_a_category_other_than_s() {
    let mut g = Grammar::from_lines(&lines(&["[S] ||| a ||| b"]));
    g.add_glue_rules();
    assert_eq!(g.rules.len(), 1);
}

#[test]
fn rule_text_reads_back_as_the_rule() {
    let r = Rule::from_str("[VP] ||| sah [NP,1] ||| saw [NP,1] ||| logp=-1");
    let back = Rule::from_str(&r.to_string());
    assert_eq!(back.lhs, r.lhs);
    assert_eq!(back.rhs, r.rhs);
    assert_eq!(back.target, r.target);
    assert!(back.f.pairs.is_empty());
    assert_eq!(back.to_string(), r.to_string());
}
