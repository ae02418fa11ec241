use yagdb::graph::Graph;

#[test]
fn test_cypher_create_and_match() {
    let mut g = Graph::new();
    g.execute("CREATE (a:User {id: '1'})-[r:FOLLOWS]->(b:User {id: '2'})")
        .unwrap();

    let result = g
        .execute(
            "MATCH (u1:User {id: '1'})-[rel:FOLLOWS]->(u2:User {id: '2'}) RETURN u1, rel, u2",
        )
        .unwrap();

    assert!(result.contains("\"u1\": {"));
    assert!(result.contains("\"rel\": {"));
    assert!(result.contains("\"u2\": {"));
    assert!(result.contains(r#""id": "1""#));
    assert!(result.contains(r#""id": "2""#));
}

#[test]
fn test_no_match_on_missing_label() {
    let mut g = Graph::new();
    g.execute("CREATE (a:User {id: '1'})").unwrap();

    let result = g.execute("MATCH (a:Admin {id: '1'}) RETURN a").unwrap();
    assert_eq!(result.trim(), "[]");
}

#[test]
fn test_trailing_garbage_fails() {
    let mut g = Graph::new();
    let res = g.execute("CREATE (n) BAD SYNTAX");
    assert!(res.is_err());
}

#[test]
fn test_limit_clause() {
    let mut g = Graph::new();
    g.execute("CREATE (a:User {id: '1'})").unwrap();
    g.execute("CREATE (a:User {id: '2'})").unwrap();
    g.execute("CREATE (a:User {id: '3'})").unwrap();

    let result_all = g.execute("MATCH (u:User) RETURN u").unwrap();
    let parsed_all: serde_json::Value = serde_json::from_str(&result_all).unwrap();
    assert_eq!(parsed_all.as_array().unwrap().len(), 3);

    let result_limit = g.execute("MATCH (u:User) RETURN u LIMIT 2").unwrap();
    let parsed_limit: serde_json::Value = serde_json::from_str(&result_limit).unwrap();
    assert_eq!(parsed_limit.as_array().unwrap().len(), 2);

    let result_limit_large = g.execute("MATCH (u:User) RETURN u LIMIT 10").unwrap();
    let parsed_limit_large: serde_json::Value =
        serde_json::from_str(&result_limit_large).unwrap();
    assert_eq!(parsed_limit_large.as_array().unwrap().len(), 3);
}

#[test]
fn parse_error_message_names_the_rest() {
    let mut g = Graph::new();
    let res = g.execute("CREATE (n) BAD SYNTAX");
    assert_eq!(
        res,
        Err("Parse error: Parsing Error: Error { input: \"BAD SYNTAX\", code: Eof }".to_string())
    );
}

#[test]
fn return_pretty_prints_node() {
    let mut g = Graph::new();
    g.execute("CREATE (a:User {name: 'Ann', age: 30})").unwrap();
    let result = g.execute("MATCH (u:User) RETURN u").unwrap();
    let expected = "[\n  {\n    \"u\": {\n      \"edges\": [],\n      \"labels\": [\n        0\n      ],\n      \"properties\": {\n        \"age\": 30.0,\n        \"name\": \"Ann\"\n      }\n    }\n  }\n]";
    assert_eq!(result, expected);
}

#[test]
fn empty_result_is_empty_array() {
    let mut g = Graph::new();
    assert_eq!(g.execute("MATCH (n) RETURN n").unwrap(), "[]");
}
