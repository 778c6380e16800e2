use odenwald::features::Features;

fn value_of(f: &Features, name: &str) -> Option<f64> {
    let mut found = None;
    for (k, v) in &f.pairs {
        if k == name {
            if let Ok(x) = v.parse::<f64>() {
                found = Some(x);
            }
        }
    }
    found
}

#[test]
fn test_from_kv() {
    let sv = Features::from_kv("logp 2\nuse_house 0\nuse_shell 1", ' ', '\n');
    assert_eq!(value_of(&sv, "logp").unwrap(), 2.0);
    assert_eq!(value_of(&sv, "use_house").unwrap(), 0.0);
    assert_eq!(value_of(&sv, "use_shell").unwrap(), 1.0);
}

#[test]
fn from_kv_keeps_trimmed_pairs_in_order() {
    let f = Features::from_kv(" x = 1 ;; y=two ; novalue ;z=", '=', ';');
    assert_eq!(
        f.pairs,
        vec![
            ("x".to_string(), "1".to_string()),
            ("y".to_string(), "two".to_string()),
            ("z".to_string(), "".to_string()),
        ]
    );
}

#[test]
fn from_kv_of_nothing_is_empty() {
    assert!(Features::from_kv("", '=', ' ').pairs.is_empty());
    assert!(Features::new().pairs.is_empty());
}

#[test]
fn features_clone_is_equal() {
    let f = Features::from_kv("a=1 b=2", '=', ' ');
    let g = f.clone();
    assert_eq!(f.pairs, g.pairs);
}
