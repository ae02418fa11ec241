use yagdb::graph::Graph;
use yagdb::graph::types::WalEntry;

fn people() -> Graph {
    let mut g = Graph::new();
    g.execute("CREATE (a:Person {name: 'Ann', age: 30})-[:KNOWS]->(b:Person {name: 'Bob', age: 25})").unwrap();
    g.execute("CREATE (c:Person {name: 'Cid', age: 35})").unwrap();
    g
}

fn rows(s: &str) -> Vec<serde_json::Value> {
    let v: serde_json::Value = serde_json::from_str(s).unwrap();
    v.as_array().unwrap().clone()
}

fn count(g: &mut Graph, q: &str) -> f64 {
    let r = g.execute(q).unwrap();
    let rs = rows(&r);
    assert_eq!(rs.len(), 1);
    rs[0]["COUNT(*)"].as_f64().unwrap()
}

#[test]
fn where_keeps_rows_that_hold() {
    let mut g = people();
    let r = g.execute("MATCH (p:Person) WHERE p.age > 26 RETURN p").unwrap();
    let rs = rows(&r);
    assert_eq!(rs.len(), 2);
    assert_eq!(rs[0]["p"]["properties"]["name"], "Ann");
    assert_eq!(rs[1]["p"]["properties"]["name"], "Cid");
}

#[test]
fn order_by_descending_with_limit() {
    let mut g = people();
    let r = g.execute("MATCH (p:Person) RETURN p ORDER BY p.age DESC LIMIT 2").unwrap();
    let rs = rows(&r);
    assert_eq!(rs.len(), 2);
    assert_eq!(rs[0]["p"]["properties"]["name"], "Cid");
    assert_eq!(rs[1]["p"]["properties"]["name"], "Ann");
}

#[test]
fn order_by_ascending_is_stable() {
    let mut g = Graph::new();
    g.execute("CREATE (a:T {k: 2, n: 'x'})").unwrap();
    g.execute("CREATE (a:T {k: 1, n: 'y'})").unwrap();
    g.execute("CREATE (a:T {k: 2, n: 'z'})").unwrap();
    let r = g.execute("MATCH (t:T) RETURN t ORDER BY t.k").unwrap();
    let names: Vec<String> = rows(&r).iter().map(|v| v["t"]["properties"]["n"].as_str().unwrap().to_string()).collect();
    assert_eq!(names, vec!["y", "x", "z"]);
}

#[test]
fn count_star_and_named_count() {
    let mut g = people();
    assert_eq!(g.execute("MATCH (p:Person) RETURN COUNT(*)").unwrap(), "[\n  {\n    \"COUNT(*)\": 3.0\n  }\n]");
    assert_eq!(g.execute("MATCH (p:Person) RETURN count(p) AS n").unwrap(), "[\n  {\n    \"n\": 3.0\n  }\n]");
}

#[test]
fn relationship_as_json() {
    let mut g = people();
    let r = g.execute("MATCH (a:Person)-[r:KNOWS]->(b:Person) RETURN r").unwrap();
    assert_eq!(
        r,
        "[\n  {\n    \"r\": {\n      \"end\": 1,\n      \"labels\": [\n        1\n      ],\n      \"properties\": {},\n      \"start\": 0\n    }\n  }\n]"
    );
}

#[test]
fn variable_length_binds_edge_list() {
    let mut g = people();
    let r = g.execute("MATCH (a:Person)-[r:KNOWS*1..2]->(b) RETURN r").unwrap();
    let rs = rows(&r);
    assert_eq!(rs.len(), 1);
    assert_eq!(rs[0]["r"].as_array().unwrap().len(), 1);
    assert_eq!(rs[0]["r"][0]["start"], 0);
}

#[test]
fn path_variable_holds_nodes_and_edges() {
    let mut g = people();
    let r = g.execute("MATCH p = (a:Person)-[:KNOWS]->(b:Person) RETURN p").unwrap();
    let rs = rows(&r);
    let path = rs[0]["p"].as_array().unwrap();
    assert_eq!(path.len(), 3);
    assert_eq!(path[0]["properties"]["name"], "Ann");
    assert_eq!(path[1]["start"], 0);
    assert_eq!(path[2]["properties"]["name"], "Bob");
}

#[test]
fn profile_lists_plan_steps() {
    let mut g = people();
    let r = g.execute("PROFILE MATCH (p:Person) RETURN COUNT(*)").unwrap();
    assert_eq!(
        r,
        "{\n  \"profile\": \"NodeLabelLookup(Person) (3 rows)\\n\",\n  \"results\": [\n  {\n    \"COUNT(*)\": 3.0\n  }\n]\n}"
    );
}

#[test]
fn profile_of_cross_product_indents_children() {
    let mut g = people();
    let r = g.execute("PROFILE MATCH (a:Person), (b:Person) RETURN COUNT(*)").unwrap();
    assert!(r.contains("\"profile\": \"  NodeLabelLookup(Person) (3 rows)\\n  NodeLabelLookup(Person) (3 rows)\\nCrossProduct (9 rows)\\n\""));
    assert!(r.contains("\"COUNT(*)\": 9.0"));
}

#[test]
fn index_lookup_after_create_index() {
    let mut g = people();
    assert_eq!(g.execute("CREATE INDEX ON :Person(name)").unwrap(), "[]");
    let r = g.execute("PROFILE MATCH (p:Person {name: 'Bob'}) RETURN COUNT(*)").unwrap();
    assert!(r.contains("NodeIndexLookup(Person.name='String(\\\"Bob\\\")') (1 rows)"));
    assert!(r.contains("\"COUNT(*)\": 1.0"));
}

#[test]
fn create_index_twice_lists_each_node_once() {
    let mut g = people();
    g.execute("CREATE INDEX ON :Person(name)").unwrap();
    assert_eq!(g.execute("CREATE INDEX ON :Person(name)").unwrap(), "[]");
    assert_eq!(rows(&g.execute("MATCH (p:Person {name: 'Bob'}) RETURN p").unwrap()).len(), 1);
    assert_eq!(count(&mut g, "MATCH (p:Person {name: 'Ann'}) RETURN COUNT(*)"), 1.0);
    assert_eq!(g.indices.len(), 1);
}

#[test]
fn index_keeps_the_answers() {
    let mut g = people();
    let q = "MATCH (p:Person {name: 'Bob'})-[r]->(x) RETURN p, x";
    let q2 = "MATCH (p:Person {name: 'Ann'})-[r:KNOWS]->(x:Person) RETURN x";
    let before = (g.execute(q).unwrap(), g.execute(q2).unwrap());
    g.execute("CREATE INDEX ON :Person(name)").unwrap();
    assert_eq!((g.execute(q).unwrap(), g.execute(q2).unwrap()), before);
    assert_eq!(rows(&before.1).len(), 1);
}

#[test]
fn merge_matches_or_creates() {
    let mut g = people();
    assert_eq!(count(&mut g, "MERGE (x:Person {name: 'Ann'}) RETURN COUNT(*)"), 1.0);
    assert_eq!(count(&mut g, "MATCH (p:Person) RETURN COUNT(*)"), 3.0);
    assert_eq!(count(&mut g, "MERGE (x:Person {name: 'Dee'}) RETURN COUNT(*)"), 1.0);
    assert_eq!(count(&mut g, "MATCH (p:Person) RETURN COUNT(*)"), 4.0);
}

#[test]
fn delete_hides_node() {
    let mut g = people();
    assert_eq!(g.execute("MATCH (p:Person {name: 'Cid'}) DELETE p").unwrap(), "[]");
    assert_eq!(count(&mut g, "MATCH (p:Person) RETURN COUNT(*)"), 2.0);
    assert_eq!(g.execute("MATCH (p:Person {name: 'Cid'}) RETURN p").unwrap(), "[]");
}

#[test]
fn set_changes_property() {
    let mut g = people();
    g.execute("MATCH (p:Person {name: 'Cid'}) SET p.age = 36").unwrap();
    assert_eq!(count(&mut g, "MATCH (p:Person) WHERE p.age = 36 RETURN COUNT(*)"), 1.0);
    assert_eq!(g.execute("MATCH (p:Person) WHERE p.age = 35 RETURN COUNT(*)").unwrap(), "[]");
}

#[test]
fn not_and_or_conditions() {
    let mut g = people();
    assert_eq!(count(&mut g, "MATCH (p:Person) WHERE NOT p.age < 30 RETURN COUNT(*)"), 2.0);
    assert_eq!(count(&mut g, "MATCH (p:Person) WHERE p.name = 'Ann' OR p.name = 'Bob' RETURN COUNT(*)"), 2.0);
    assert_eq!(count(&mut g, "MATCH (p:Person) WHERE p.age > 20 AND p.age < 31 RETURN COUNT(*)"), 2.0);
}

#[test]
fn text_compares_as_number_with_number() {
    let mut g = people();
    assert_eq!(count(&mut g, "MATCH (p) WHERE p.age >= '30' RETURN COUNT(*)"), 2.0);
}

#[test]
fn unique_collects_distinct_nodes() {
    let mut g = people();
    let r = g.execute("MATCH (p:Person) RETURN UNIQUE(p) AS u").unwrap();
    let rs = rows(&r);
    assert_eq!(rs[0]["u"].as_array().unwrap().len(), 3);
}

#[test]
fn unwind_of_aliased_item_drops_rows() {
    let mut g = people();
    assert_eq!(g.execute("MATCH (p:Person) WITH COLLECT(p) AS ps UNWIND ps AS q RETURN COUNT(q)").unwrap(), "[]");
}

#[test]
fn rand_is_zero() {
    let mut g = people();
    assert_eq!(g.execute("MATCH (p:Person) RETURN rand() AS r LIMIT 1").unwrap(), "[\n  {\n    \"r\": 0.0\n  }\n]");
}

#[test]
fn return_star_hides_generated_names() {
    let mut g = people();
    let r = g.execute("MATCH (a:Person)-[:KNOWS]->(b) RETURN *").unwrap();
    let rs = rows(&r);
    assert_eq!(rs.len(), 1);
    let keys: Vec<&String> = rs[0].as_object().unwrap().keys().collect();
    assert_eq!(keys, vec!["a", "b"]);
}

#[test]
fn each_change_is_logged() {
    let mut g = Graph::new();
    g.execute("CREATE (a:Person {name: 'Ann'})").unwrap();
    let log = g.take_wal();
    assert_eq!(log.len(), 2);
    assert!(g.take_wal().is_empty());
    g.execute("MATCH (p:Person) SET p.age = 3").unwrap();
    assert_eq!(g.take_wal().len(), 1);
}

#[test]
fn replaying_the_log_rebuilds_the_graph() {
    let mut g = people();
    g.execute("MATCH (p:Person {name: 'Bob'}) DELETE p").unwrap();
    let log = g.take_wal();
    let mut h = Graph::new();
    for e in &log {
        assert!(h.replay_entry(e));
    }
    let q = "MATCH (p:Person) RETURN p ORDER BY p.name";
    assert_eq!(g.execute(q).unwrap(), h.execute(q).unwrap());
}

#[test]
fn node_ids_are_uuids() {
    let mut g = Graph::new();
    g.execute("CREATE (a:X)").unwrap();
    g.execute("CREATE (a:X)").unwrap();
    assert_eq!(g.nodes[0].id.len(), 36);
    assert_eq!(g.nodes[1].id.len(), 36);
    assert_ne!(g.nodes[0].id, g.nodes[1].id);
}

#[test]
fn set_logs_each_node_once() {
    let mut g = people();
    g.take_wal();
    g.execute("MATCH (a:Person), (b:Person) SET a.seen = true").unwrap();
    let log = g.take_wal();
    assert_eq!(log.len(), 3);
    let ids: Vec<usize> = log
        .iter()
        .map(|e| match e {
            WalEntry::SetNodeProperty { node_id, key, .. } => {
                assert_eq!(key, "seen");
                *node_id
            }
            other => panic!("{:?}", other),
        })
        .collect();
    assert_eq!(ids, vec![0, 1, 2]);
}

#[test]
fn delete_logs_edges_before_nodes_and_skips_deleted() {
    let mut g = people();
    g.take_wal();
    g.execute("MATCH (a:Person)-[r:KNOWS]->(b:Person) DELETE a, r").unwrap();
    let log = g.take_wal();
    assert_eq!(log.len(), 2);
    assert!(matches!(log[0], WalEntry::DeleteEdge { edge_id: 0 }));
    assert!(matches!(log[1], WalEntry::DeleteNode { node_id: 0 }));
    g.execute("MATCH (a:Person {name: 'Bob'}) DELETE a").unwrap();
    assert_eq!(g.take_wal().len(), 1);
}

#[test]
fn create_logs_labels_nodes_then_edge() {
    let mut g = Graph::new();
    g.execute("CREATE (a:P)-[:R]->(b:P)").unwrap();
    let log = g.take_wal();
    assert_eq!(log.len(), 5);
    assert!(matches!(&log[0], WalEntry::AddLabel { label } if label == "P"));
    assert!(matches!(&log[1], WalEntry::AddNode { label: 0, .. }));
    assert!(matches!(&log[2], WalEntry::AddNode { label: 0, .. }));
    assert!(matches!(&log[3], WalEntry::AddLabel { label } if label == "R"));
    assert!(matches!(&log[4], WalEntry::AddEdge { start: 0, end: 1, .. }));
}

#[test]
fn merge_creates_only_what_is_missing() {
    let mut g = people();
    g.take_wal();
    let r = g.execute("MERGE (p:Person {name: 'Ann'}) RETURN COUNT(*)").unwrap();
    assert!(r.contains("\"COUNT(*)\": 1.0"));
    assert!(g.take_wal().is_empty());
    g.execute("MERGE (p:Person {name: 'Dee'})").unwrap();
    let log = g.take_wal();
    assert_eq!(log.len(), 1);
    assert!(matches!(&log[0], WalEntry::AddNode { label: 0, .. }));
    g.execute("MERGE (p:Person {name: 'Dee'})").unwrap();
    assert!(g.take_wal().is_empty());
}

#[test]
fn string_functions_in_return() {
    let mut g = people();
    let r = rows(&g.execute("MATCH (p:Person {name: 'Ann'}) RETURN toUpper(p.name) AS u, toLower(p.name) AS l, substring(p.name, 1, 5) AS s").unwrap());
    assert_eq!(r.len(), 1);
    assert_eq!(r[0]["u"], "ANN");
    assert_eq!(r[0]["l"], "ann");
    assert_eq!(r[0]["s"], "nn");
}

#[test]
fn number_functions_in_return() {
    let mut g = Graph::new();
    g.execute("CREATE (a:N {v: -2.5, w: 2.45, z: 9.5})").unwrap();
    let r = rows(&g.execute("MATCH (a:N) RETURN abs(a.v) AS x, round(a.v) AS r, ceil(a.v) AS c, floor(a.v) AS f, round(a.w) AS rw, ceil(a.z) AS cz").unwrap());
    assert_eq!(r.len(), 1);
    assert_eq!(r[0]["x"].as_f64().unwrap(), 2.5);
    assert_eq!(r[0]["r"].as_f64().unwrap(), -3.0);
    assert_eq!(r[0]["c"].as_f64().unwrap(), -2.0);
    assert_eq!(r[0]["f"].as_f64().unwrap(), -3.0);
    assert_eq!(r[0]["rw"].as_f64().unwrap(), 2.0);
    assert_eq!(r[0]["cz"].as_f64().unwrap(), 10.0);
}

#[test]
fn functions_in_where_and_unknown_functions() {
    let mut g = people();
    assert_eq!(count(&mut g, "MATCH (p:Person) WHERE toLower(p.name) = 'bob' RETURN COUNT(*)"), 1.0);
    assert_eq!(count(&mut g, "MATCH (p:Person {name: 'Ann'}) WHERE id(p) = 0 RETURN COUNT(*)"), 1.0);
    assert_eq!(g.execute("MATCH (p:Person) WHERE nosuch(p.name) = 'x' RETURN COUNT(*)").unwrap(), "[]");
    let r = rows(&g.execute("MATCH (p:Person {name: 'Ann'}) RETURN nosuch(p.name) AS x, toUpper(p.age) AS y, rand() AS z").unwrap());
    assert_eq!(r.len(), 1);
    assert!(r[0]["x"].is_null());
    assert!(r[0]["y"].is_null());
    assert_eq!(r[0]["z"].as_f64().unwrap(), 0.0);
}
