use odenwald::hypergraph_io::{read_records, records_from_json, ReadError};
use odenwald::json::{get_member, parse_json, read_int, JsonTree};

const DOC: &str = r#"{
"weights":{"b":-1,"a":0.5,"c":"x"},
"nodes":
[
{ "id":-1, "cat":"root", "span":[-1,-1] },
{ "id":0, "cat":"A", "span":[0,1,7] },
{ "id":1, "span":[0,2] }
],
"edges":
[
{ "head":0, "rule":"[A] ||| a ||| b", "tails":[-1], "f":{} },
{ "head":1, "rule":"[S] ||| [A,1] ||| [A,1]", "tails":[0, 0], "f":{"x":1,"y":null} }
]
}"#;

#[test]
fn read_records_takes_entries_in_file_order() {
    let (weights, nodes, edges) = read_records(DOC).unwrap();
    assert_eq!(
        weights,
        vec![(String::from("a"), String::from("0.5")), (String::from("b"), String::from("-1"))]
    );
    assert_eq!(nodes.len(), 3);
    assert_eq!((nodes[0].id, nodes[0].cat.as_str(), nodes[0].left, nodes[0].right), (-1, "root", -1, -1));
    assert_eq!((nodes[1].id, nodes[1].cat.as_str(), nodes[1].left, nodes[1].right), (0, "A", 0, 1));
    assert_eq!((nodes[2].id, nodes[2].cat.as_str(), nodes[2].left, nodes[2].right), (1, "", 0, 2));
    assert_eq!(edges.len(), 2);
    assert_eq!(edges[0].head, 0);
    assert_eq!(edges[0].tails, vec![-1]);
    assert!(edges[0].f.pairs.is_empty());
    assert_eq!(edges[0].rule, "[A] ||| a ||| b");
    assert_eq!(edges[1].tails, vec![0, 0]);
    assert_eq!(edges[1].f.pairs, vec![(String::from("x"), String::from("1"))]);
}

#[test]
fn read_records_refuses_text_that_is_not_json() {
    assert!(matches!(read_records("{ \"nodes\": [ "), Err(ReadError::Syntax)));
}

#[test]
fn read_records_refuses_an_entry_without_an_integer_id() {
    let text = r#"{ "nodes": [ { "id": 1.5, "cat": "A", "span": [0, 1] } ] }"#;
    assert!(matches!(read_records(text), Err(ReadError::Shape)));
    let text = r#"{ "nodes": [ { "cat": "A", "span": [0, 1] } ] }"#;
    assert!(matches!(read_records(text), Err(ReadError::Shape)));
}

#[test]
fn read_records_refuses_an_edge_without_a_rule() {
    let text = r#"{ "edges": [ { "head": 0, "tails": [] } ] }"#;
    assert!(matches!(read_records(text), Err(ReadError::Shape)));
}

#[test]
fn read_records_of_a_document_without_lists_is_empty() {
    let (w, n, e) = read_records("[1, 2]").unwrap();
    assert!(w.is_empty() && n.is_empty() && e.is_empty());
    let (w, n, e) = read_records(r#"{ "nodes": 3 }"#).unwrap();
    assert!(w.is_empty() && n.is_empty() && e.is_empty());
}

#[test]
fn spans_are_truncated_to_i32() {
    let text = r#"{ "nodes": [ { "id": 5, "cat": "A", "span": [4294967297, -1] } ] }"#;
    let (_, n, _) = read_records(text).unwrap();
    assert_eq!((n[0].left, n[0].right), (1, -1));
}

#[test]
fn records_from_a_tree_built_by_hand() {
    let node = JsonTree::Object(vec![
        (String::from("cat"), JsonTree::Str(String::from("X"))),
        (String::from("id"), JsonTree::Number(String::from("7"))),
        (
            String::from("span"),
            JsonTree::Array(vec![JsonTree::Number(String::from("0")), JsonTree::Number(String::from("3"))]),
        ),
    ]);
    let doc = JsonTree::Object(vec![(String::from("nodes"), JsonTree::Array(vec![node]))]);
    let (_, n, e) = records_from_json(&doc).unwrap();
    assert_eq!((n[0].id, n[0].cat.as_str(), n[0].left, n[0].right), (7, "X", 0, 3));
    assert!(e.is_empty());
    let bad = JsonTree::Object(vec![(
        String::from("nodes"),
        JsonTree::Array(vec![JsonTree::Null]),
    )]);
    assert!(records_from_json(&bad).is_none());
}

#[test]
fn numbers_are_read_as_i64_only_when_they_fit() {
    assert_eq!(read_int("-9223372036854775808"), Some(i64::MIN));
    assert_eq!(read_int("9223372036854775807"), Some(i64::MAX));
    assert_eq!(read_int("9223372036854775808"), None);
    assert_eq!(read_int("-"), None);
    assert_eq!(read_int("1.0"), None);
    assert_eq!(read_int("042"), Some(42));
}

#[test]
fn parse_json_keeps_numbers_as_text_and_members_by_name() {
    let doc = parse_json(r#"{"b": 2.5, "a": [true, null, "s"]}"#).unwrap();
    match get_member(&doc, "b") {
        Some(JsonTree::Number(t)) => assert_eq!(t, "2.5"),
        other => panic!("unexpected {:?}", other),
    }
    match get_member(&doc, "a") {
        Some(JsonTree::Array(items)) => {
            assert!(matches!(items[0], JsonTree::Bool(true)));
            assert!(matches!(items[1], JsonTree::Null));
            assert!(matches!(&items[2], JsonTree::Str(s) if s == "s"));
        }
        other => panic!("unexpected {:?}", other),
    }
    assert!(get_member(&doc, "c").is_none());
    assert!(parse_json("nope").is_none());
}
