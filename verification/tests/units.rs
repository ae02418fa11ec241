use yagdb::api::{access_granted, bearer_token, credentials_match, split_credentials, strip_prefix};
use yagdb::framing::{frame, split_frames};
use yagdb::graph::element::GraphElement;
use yagdb::graph::eval::{parse_number_text, EvalValue};
use yagdb::graph::Graph;
use yagdb::graph::import::ImportError;
use yagdb::node::Node;
use yagdb::edge::Edge;
use yagdb::parse_where::{parse_where_clause, Condition, Expr, Operator};
use yagdb::parser::CompareOp;
use yagdb::property::{Number, PropertyMap, PropertyValue};
use yagdb::string_pool::StringPool;
use std::cmp::Ordering;

fn num(s: &str) -> Number {
    parse_number_text(s).unwrap()
}

// ---- framing ----

#[test]
fn frame_prefixes_little_endian_length() {
    let f = frame(&vec![7u8, 8, 9]);
    assert_eq!(f, vec![3u8, 0, 0, 0, 7, 8, 9]);
}

#[test]
fn frames_read_back_in_order() {
    let mut bytes = frame(&vec![1u8, 2]);
    bytes.extend(frame(&vec![]));
    bytes.extend(frame(&vec![3u8]));
    assert_eq!(split_frames(&bytes), vec![vec![1u8, 2], vec![], vec![3u8]]);
}

#[test]
fn truncated_record_ends_reading() {
    let mut bytes = frame(&vec![1u8, 2]);
    bytes.extend(vec![5u8, 0, 0, 0, 1, 2]);
    assert_eq!(split_frames(&bytes), vec![vec![1u8, 2]]);
    assert_eq!(split_frames(&vec![1u8, 0]), Vec::<Vec<u8>>::new());
}

// ---- WHERE clause parser ----

#[test]
fn where_clause_with_literals() {
    let (rest, c) = parse_where_clause("WHERE n.name = 'Alice' AND n.kind <> admin").unwrap();
    assert_eq!(rest, "");
    match c {
        Condition::And(l, r) => {
            match *l {
                Condition::Compare { left: Expr::VariableProperty(v, p), op: Operator::Eq, right: Expr::Literal(s) } => {
                    assert_eq!((v.as_str(), p.as_str(), s.as_str()), ("n", "name", "Alice"));
                }
                other => panic!("{:?}", other),
            }
            assert!(matches!(*r, Condition::Compare { op: Operator::Neq, .. }));
        }
        other => panic!("{:?}", other),
    }
}

#[test]
fn where_clause_or_binds_looser_than_and() {
    let (_, c) = parse_where_clause("where a.x = b OR a.y = c AND a.z = d").unwrap();
    match c {
        Condition::Or(l, r) => {
            assert!(matches!(*l, Condition::Compare { .. }));
            assert!(matches!(*r, Condition::And(_, _)));
        }
        other => panic!("{:?}", other),
    }
}

#[test]
fn where_clause_not_and_parentheses() {
    let (_, c) = parse_where_clause("WHERE NOT (n.a >= x)").unwrap();
    match c {
        Condition::Not(inner) => assert!(matches!(*inner, Condition::Compare { op: Operator::Gte, .. })),
        other => panic!("{:?}", other),
    }
}

#[test]
fn where_clause_rejects_number_literal_and_missing_keyword() {
    assert!(parse_where_clause("WHERE n.age > 30").is_none());
    assert!(parse_where_clause("n.age = x").is_none());
}

#[test]
fn where_clause_leaves_unparsed_rest() {
    let (rest, _) = parse_where_clause("WHERE n.a < b RETURN n").unwrap();
    assert_eq!(rest, "RETURN n");
}

// ---- credentials ----

#[test]
fn prefix_and_bearer() {
    assert_eq!(strip_prefix("Basic abc", "Basic "), Some("abc".to_string()));
    assert_eq!(strip_prefix("Bas", "Basic "), None);
    assert_eq!(bearer_token("Bearer tok"), Some("tok".to_string()));
    assert_eq!(bearer_token("bearer tok"), None);
}

#[test]
fn credentials_split_at_first_colon() {
    assert_eq!(split_credentials("admin:pa:ss"), ("admin".to_string(), Some("pa:ss".to_string())));
    assert_eq!(split_credentials("admin"), ("admin".to_string(), None));
}

#[test]
fn credentials_checked_against_requirements() {
    let pw = Some("secret".to_string());
    assert!(credentials_match("admin", &pw, &Some("admin".to_string()), &Some("secret".to_string())));
    assert!(!credentials_match("admin", &None, &None, &Some("secret".to_string())));
    assert!(!credentials_match("bob", &pw, &Some("admin".to_string()), &None));
    assert!(credentials_match("anyone", &None, &None, &None));
    assert!(access_granted("access"));
    assert!(!access_granted("refresh"));
}

// ---- string pool ----

#[test]
fn interning_is_idempotent_and_resolves() {
    let mut p = StringPool::new();
    let a = p.get_or_intern("Person");
    let b = p.get_or_intern("City");
    assert_eq!(p.get_or_intern("Person"), a);
    assert_ne!(a, b);
    assert_eq!(p.len(), 2);
    assert_eq!(p.resolve(b), Some("City"));
    assert_eq!(p.get("City"), Some(b));
    assert_eq!(p.get("Nope"), None);
    assert_eq!(p.resolve(7), None);
}

// ---- numbers and comparisons ----

#[test]
fn numbers_parse_and_compare_by_value() {
    assert_eq!(num("2.50").compare(&num("2.5")), 0);
    assert!(num("-3").compare(&num("2")) < 0);
    assert!(num("10").compare(&num("9.99")) > 0);
    assert!(parse_number_text("1e5").is_none());
    assert!(parse_number_text("abc").is_none());
    assert!(parse_number_text("-").is_none());
    assert!(num("+7").equals(&Number::from_usize(7)));
}

#[test]
fn value_comparisons() {
    let n = |s: &str| EvalValue::Number(num(s));
    let t = |s: &str| EvalValue::String(s.to_string());
    assert!(n("3").compare(&n("3.0"), &CompareOp::Eq));
    assert!(n("3").compare(&t("4"), &CompareOp::Lt));
    assert!(!n("3").compare(&t("x"), &CompareOp::Neq));
    assert!(t("abc").compare(&t("abd"), &CompareOp::Lt));
    assert!(!EvalValue::Null.compare(&EvalValue::Null, &CompareOp::Eq));
    assert!(EvalValue::Boolean(true).compare(&EvalValue::Boolean(false), &CompareOp::Gt));
    assert!(!n("1").compare(&EvalValue::Boolean(true), &CompareOp::Neq));
}

#[test]
fn value_ordering() {
    let n = |s: &str| EvalValue::Number(num(s));
    assert_eq!(EvalValue::Null.partial_cmp(&n("1")), Some(Ordering::Less));
    assert_eq!(n("2").partial_cmp(&EvalValue::String("10".to_string())), Some(Ordering::Less));
    assert_eq!(EvalValue::Boolean(true).partial_cmp(&EvalValue::Boolean(false)), None);
    assert_eq!(EvalValue::String("b".to_string()).partial_cmp(&EvalValue::String("a".to_string())), Some(Ordering::Greater));
}

#[test]
fn ordering_agrees_with_comparison() {
    let n = |s: &str| EvalValue::Number(num(s));
    let t = |s: &str| EvalValue::String(s.to_string());
    let pairs = vec![(n("2"), n("10")), (n("-1.5"), n("-1.5")), (t("b"), t("ab")), (n("7"), t("7.0")), (t("12"), n("3"))];
    for (a, b) in pairs.iter() {
        let o = a.partial_cmp(b).unwrap();
        assert_eq!(o == Ordering::Less, a.compare(b, &CompareOp::Lt));
        assert_eq!(o == Ordering::Greater, a.compare(b, &CompareOp::Gt));
        assert_eq!(o == Ordering::Equal, a.compare(b, &CompareOp::Eq));
    }
}

// ---- property maps ----

#[test]
fn property_map_insert_replaces() {
    let mut m = PropertyMap::new();
    m.insert("a".to_string(), PropertyValue::Boolean(true));
    m.insert("b".to_string(), PropertyValue::String("x".to_string()));
    m.insert("a".to_string(), PropertyValue::Number(num("1")));
    assert_eq!(m.len(), 2);
    assert!(matches!(m.get("a"), Some(PropertyValue::Number(_))));
    assert!(m.remove("b").is_some());
    assert!(m.get("b").is_none());
}

// ---- display ----

#[test]
fn format_scalars_and_lists() {
    let g = Graph::new();
    assert_eq!(g.format_element(&GraphElement::Number(num("3"))), "3");
    assert_eq!(g.format_element(&GraphElement::Number(num("-2.50"))), "-2.5");
    assert_eq!(g.format_element(&GraphElement::String("hi".to_string())), "\"hi\"");
    assert_eq!(g.format_element(&GraphElement::Boolean(false)), "false");
    assert_eq!(g.format_element(&GraphElement::Null), "null");
    let l = GraphElement::List(vec![GraphElement::Null, GraphElement::Boolean(true)]);
    assert_eq!(g.format_element(&l), "[null, true]");
    let m = GraphElement::MapValue(vec![("k".to_string(), GraphElement::Number(num("1.5")))]);
    assert_eq!(g.format_element(&m), "{k: 1.5}");
}

// ---- graph mutations and the log ----

#[test]
fn label_interning_logs_once() {
    let mut g = Graph::new();
    let a = g.get_or_add_label("Person");
    let b = g.get_or_add_label("Person");
    assert_eq!(a, b);
    assert_eq!(g.take_wal().len(), 1);
}

#[test]
fn delete_node_marks_and_hides() {
    let mut g = Graph::new();
    g.execute("CREATE (a:T {k: 'v'})").unwrap();
    g.take_wal();
    g.delete_node(0);
    assert!(g.nodes[0].deleted);
    assert_eq!(g.take_wal().len(), 1);
    assert_eq!(g.execute("MATCH (a:T) RETURN a").unwrap(), "[]");
}

#[test]
fn added_elements_carry_their_transaction() {
    let mut g = Graph::new();
    let l = g.get_or_add_label("T");
    let a = g.add_node(l, PropertyMap::new(), 7);
    let b = g.add_node(l, PropertyMap::new(), 0);
    let e = g.add_edge(a, b, vec![l], PropertyMap::new(), 9);
    assert_eq!(g.nodes[a].created_by, 7);
    assert!(g.nodes[a].deleted_by.is_none());
    assert_eq!(g.edges[e].created_by, 9);
    assert!(g.edges[e].deleted_by.is_none());
    assert!(g.tx.is_none());
    g.delete_node(b);
    g.delete_edge(e);
    assert!(g.nodes[b].deleted && g.nodes[b].deleted_by.is_none());
    assert!(g.edges[e].deleted && g.edges[e].deleted_by.is_none());
}

#[test]
fn queries_run_as_numbered_transactions() {
    let mut g = Graph::new();
    assert_eq!(g.next_txid, 1);
    g.execute("CREATE (a:T {k: 'v'})").unwrap();
    assert_eq!(g.nodes[0].created_by, 1);
    assert_eq!(g.next_txid, 2);
    assert!(g.execute("NOT A QUERY").is_err());
    assert_eq!(g.next_txid, 3);
    g.execute("MATCH (a:T) DELETE a").unwrap();
    assert_eq!(g.nodes[0].deleted_by, Some(3));
    assert!(g.tx.is_none());
    g.clear();
    assert_eq!(g.next_txid, 4);
}

#[test]
fn later_transactions_are_not_seen() {
    let mut g = Graph::new();
    let l = g.get_or_add_label("T");
    g.add_node(l, PropertyMap::new(), 100);
    g.add_node(l, PropertyMap::new(), 1);
    let r = g.execute("MATCH (n:T) RETURN COUNT(*)").unwrap();
    assert!(r.contains("\"COUNT(*)\": 1.0"));
    assert!(!g.node_matches(0, &yagdb::parser::NodePattern { variable: None, label: None, properties: PropertyMap::new() }, 99));
    assert!(g.node_matches(0, &yagdb::parser::NodePattern { variable: None, label: None, properties: PropertyMap::new() }, 100));
}

#[test]
fn set_property_updates_node() {
    let mut g = Graph::new();
    g.execute("CREATE (a:T {k: 'v'})").unwrap();
    g.set_node_property(0, "k".to_string(), PropertyValue::String("w".to_string()));
    let r = g.execute("MATCH (a:T) WHERE a.k = 'w' RETURN COUNT(*)").unwrap();
    assert!(r.contains("\"COUNT(*)\": 1.0"));
}

// ---- export and import ----

fn node(label: usize) -> Node {
    Node::new("n".to_string(), vec![label], vec![], PropertyMap::new(), 0)
}

#[test]
fn export_then_import_gives_the_same_answers() {
    let mut g = Graph::new();
    g.execute("CREATE (a:P {name: 'x'})-[:R]->(b:P {name: 'y'})").unwrap();
    g.execute("CREATE INDEX ON :P(name)").unwrap();
    let e = g.export_records();
    assert_eq!(e.labels.len(), 2);
    assert_eq!(e.nodes.len(), 2);
    assert_eq!(e.edges.len(), 1);
    assert_eq!(e.indices.len(), 1);
    let mut h = Graph::import_records(&e.labels, &e.nodes, &e.edges, &e.indices).unwrap();
    assert!(h.take_wal().is_empty());
    let q = "MATCH (a:P)-[r:R]->(b:P) RETURN a, r, b";
    assert_eq!(g.execute(q).unwrap(), h.execute(q).unwrap());
    let p = "PROFILE MATCH (a:P {name: 'y'}) RETURN a";
    assert_eq!(g.execute(p).unwrap(), h.execute(p).unwrap());
}

#[test]
fn export_then_import_keeps_nodes_and_edges() {
    let mut g = Graph::new();
    g.execute("CREATE (a:P {name: 'x'})-[:R]->(b:P {name: 'y'})").unwrap();
    g.execute("MATCH (a:P {name: 'x'}) DELETE a").unwrap();
    let e = g.export_records();
    let h = Graph::import_records(&e.labels, &e.nodes, &e.edges, &e.indices).unwrap();
    assert_eq!(h.nodes.len(), g.nodes.len());
    assert_eq!(h.edges.len(), g.edges.len());
    for i in 0..g.nodes.len() {
        assert_eq!(h.nodes[i].id, g.nodes[i].id);
        assert_eq!(h.nodes[i].labels, g.nodes[i].labels);
        assert_eq!(h.nodes[i].deleted, g.nodes[i].deleted);
        assert_eq!(h.nodes[i].created_by, g.nodes[i].created_by);
        assert_eq!(h.nodes[i].deleted_by, g.nodes[i].deleted_by);
    }
    assert!(h.nodes[0].deleted);
    assert_eq!(h.edges[0].start, g.edges[0].start);
    assert_eq!(h.edges[0].end, g.edges[0].end);
}

#[test]
fn import_fills_missing_ids_with_deleted_nodes() {
    let labels = vec![(0usize, "L".to_string())];
    let nodes = vec![(2usize, node(0)), (0usize, node(0))];
    let mut g = Graph::import_records(&labels, &nodes, &vec![], &vec![]).unwrap();
    assert_eq!(g.nodes.len(), 3);
    assert!(g.nodes[1].deleted);
    assert!(!g.nodes[2].deleted);
    let r = g.execute("MATCH (a:L) RETURN COUNT(*)").unwrap();
    assert!(r.contains("\"COUNT(*)\": 2.0"));
}

#[test]
fn import_refuses_bad_records() {
    let l0 = vec![(0usize, "L".to_string())];
    assert_eq!(
        Graph::import_records(&vec![(1usize, "L".to_string())], &vec![], &vec![], &vec![]).err(),
        Some(ImportError::Labels)
    );
    assert_eq!(
        Graph::import_records(&vec![(0usize, "L".to_string()), (1usize, "L".to_string())], &vec![], &vec![], &vec![]).err(),
        Some(ImportError::Labels)
    );
    assert_eq!(
        Graph::import_records(&l0, &vec![(0usize, node(0)), (0usize, node(0))], &vec![], &vec![]).err(),
        Some(ImportError::RecordIds)
    );
    let edge = Edge::new("e".to_string(), vec![0], 0, 5, PropertyMap::new(), 0);
    assert_eq!(
        Graph::import_records(&l0, &vec![(0usize, node(0))], &vec![(0usize, edge)], &vec![]).err(),
        Some(ImportError::Dangling)
    );
}

#[test]
fn replay_log_redoes_all_or_stops() {
    let mut g = Graph::new();
    g.execute("CREATE (a:P {k: 'v'})-[:R]->(b:P)").unwrap();
    g.execute("MATCH (a:P {k: 'v'}) SET a.k = 'w'").unwrap();
    let log = g.take_wal();
    let mut h = Graph::new();
    assert!(h.replay_log(&log));
    let q = "MATCH (a:P)-[r:R]->(b:P) RETURN a, r, b";
    assert_eq!(g.execute(q).unwrap(), h.execute(q).unwrap());
    let bad = vec![yagdb::graph::types::WalEntry::DeleteNode { node_id: 3 }];
    let mut e = Graph::new();
    assert!(!e.replay_log(&bad));
    assert_eq!(e.nodes.len(), 0);
}

#[test]
fn element_ids_are_version_four_uuids() {
    let mut g = Graph::new();
    g.execute("CREATE (a:T)-[:R]->(b:T)").unwrap();
    for id in [g.nodes[0].id.clone(), g.nodes[1].id.clone(), g.edges[0].id.clone()] {
        let cs: Vec<char> = id.chars().collect();
        assert_eq!(cs.len(), 36);
        for (i, c) in cs.iter().enumerate() {
            if i == 8 || i == 13 || i == 18 || i == 23 {
                assert_eq!(*c, '-');
            } else {
                assert!(c.is_ascii_digit() || ('a'..='f').contains(c));
            }
        }
        assert_eq!(cs[14], '4');
        assert!("89ab".contains(cs[19]));
    }
    assert_ne!(g.nodes[0].id, g.nodes[1].id);
}
