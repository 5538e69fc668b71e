use gendiff::ast::{build, DiffError, Node, NodeType};
use gendiff::formatters::{json, plain, pretty, render, Output};
use gendiff::value::{values_equal, Value};
use gendiff::{gen_diff, Format};

fn text(s: &str) -> String {
    s.to_string()
}

fn num(s: &str) -> Value {
    Value::Number(text(s))
}

fn obj(entries: Vec<(&str, Value)>) -> Value {
    Value::Object(entries.into_iter().map(|(k, v)| (text(k), v)).collect())
}

fn doc_a() -> Value {
    obj(vec![("a", num("1")), ("b", num("2")), ("c", num("3"))])
}

fn doc_b() -> Value {
    obj(vec![("a", num("1")), ("b", num("3")), ("d", num("4"))])
}

fn is_num(v: &Option<Value>, s: &str) -> bool {
    match v {
        Some(Value::Number(n)) => n == s,
        _ => false,
    }
}

fn names(nodes: &[Node]) -> Vec<String> {
    nodes.iter().map(|n| n.name.clone()).collect()
}

fn kinds(nodes: &[Node]) -> Vec<NodeType> {
    nodes.iter().map(|n| n.kind).collect()
}

#[test]
fn scenario_flat_keys() {
    let nodes = build(&doc_a(), &doc_b()).unwrap();
    assert_eq!(names(&nodes), vec!["a", "b", "c", "d"]);
    assert_eq!(
        kinds(&nodes),
        vec![NodeType::Unchanged, NodeType::Changed, NodeType::Removed, NodeType::Added]
    );
    assert!(nodes[0].old_value.is_none() && nodes[0].new_value.is_none());
    assert!(is_num(&nodes[1].old_value, "2") && is_num(&nodes[1].new_value, "3"));
    assert!(is_num(&nodes[2].old_value, "3") && nodes[2].new_value.is_none());
    assert!(nodes[3].old_value.is_none() && is_num(&nodes[3].new_value, "4"));
    assert!(nodes.iter().all(|n| n.children.is_empty()));
}

#[test]
fn scenario_nested_equal() {
    let a = obj(vec![("x", obj(vec![("y", num("1"))]))]);
    let b = obj(vec![("x", obj(vec![("y", num("1"))]))]);
    let nodes = build(&a, &b).unwrap();
    assert_eq!(nodes.len(), 1);
    assert_eq!(nodes[0].name, "x");
    assert_eq!(nodes[0].kind, NodeType::Object);
    assert_eq!(names(&nodes[0].children), vec!["y"]);
    assert_eq!(nodes[0].children[0].kind, NodeType::Unchanged);
    assert_eq!(plain::render(nodes), "");
}

#[test]
fn scenario_type_change() {
    let a = obj(vec![("x", num("1"))]);
    let b = obj(vec![("x", obj(vec![("y", num("1"))]))]);
    let nodes = build(&a, &b).unwrap();
    assert_eq!(nodes.len(), 1);
    assert_eq!(nodes[0].kind, NodeType::Changed);
    assert!(nodes[0].children.is_empty());
    assert!(is_num(&nodes[0].old_value, "1"));
    assert!(matches!(nodes[0].new_value, Some(Value::Object(_))));
}

#[test]
fn non_object_is_invalid_input() {
    let r = build(&Value::Array(vec![num("1")]), &doc_b());
    assert!(matches!(r, Err(DiffError::InvalidInput)));
    let r = build(&doc_a(), &num("1"));
    assert!(matches!(r, Err(DiffError::InvalidInput)));
    let r = gen_diff(Format::Plain, &Value::Null, &Value::Null);
    assert!(matches!(r, Err(DiffError::InvalidInput)));
}

#[test]
fn empty_documents_give_empty_tree() {
    let nodes = build(&obj(vec![]), &obj(vec![])).unwrap();
    assert!(nodes.is_empty());
    assert_eq!(pretty::render(nodes), "{\n\n}");
}

#[test]
fn every_key_once() {
    let a = obj(vec![("k", num("1")), ("m", num("2"))]);
    let b = obj(vec![("m", num("2")), ("z", num("5")), ("k", num("1"))]);
    let nodes = build(&a, &b).unwrap();
    assert_eq!(names(&nodes), vec!["k", "m", "z"]);
}

#[test]
fn self_diff_has_no_changes() {
    let nodes = build(&doc_a(), &doc_a()).unwrap();
    assert!(nodes.iter().all(|n| n.kind == NodeType::Unchanged));
    let a = obj(vec![("x", obj(vec![("y", num("1")), ("z", Value::Array(vec![num("2")]))]))]);
    let b = obj(vec![("x", obj(vec![("y", num("1")), ("z", Value::Array(vec![num("2")]))]))]);
    let nodes = build(&a, &b).unwrap();
    assert_eq!(nodes[0].kind, NodeType::Object);
    assert!(nodes[0].children.iter().all(|n| n.kind == NodeType::Unchanged));
}

#[test]
fn swapping_sides_mirrors_kinds() {
    let forward = build(&doc_a(), &doc_b()).unwrap();
    let backward = build(&doc_b(), &doc_a()).unwrap();
    assert_eq!(names(&backward), vec!["a", "b", "d", "c"]);
    assert_eq!(
        kinds(&backward),
        vec![NodeType::Unchanged, NodeType::Changed, NodeType::Removed, NodeType::Added]
    );
    assert!(is_num(&forward[1].old_value, "2") && is_num(&backward[1].new_value, "2"));
    assert!(is_num(&forward[1].new_value, "3") && is_num(&backward[1].old_value, "3"));
    assert!(is_num(&backward[2].old_value, "4"));
    assert!(is_num(&backward[3].new_value, "3"));
}

fn field<'a>(v: &'a Value, key: &str) -> Option<&'a Value> {
    match v {
        Value::Object(es) => es.iter().find(|(k, _)| k == key).map(|(_, v)| v),
        _ => None,
    }
}

fn str_field(v: &Value, key: &str) -> String {
    match field(v, key) {
        Some(Value::Str(s)) => s.clone(),
        _ => panic!("missing text field"),
    }
}

#[test]
fn structured_form_keeps_every_field() {
    let a = obj(vec![("x", obj(vec![("y", num("1"))])), ("b", num("2"))]);
    let b = obj(vec![("x", obj(vec![("y", num("1"))])), ("b", num("3"))]);
    let out = json::render(build(&a, &b).unwrap());
    let items = match &out {
        Value::Array(items) => items,
        _ => panic!("not an array"),
    };
    assert_eq!(items.len(), 2);
    assert_eq!(str_field(&items[0], "name"), "x");
    assert_eq!(str_field(&items[0], "kind"), "Object");
    assert!(matches!(field(&items[0], "oldValue"), Some(Value::Null)));
    assert!(matches!(field(&items[0], "newValue"), Some(Value::Null)));
    let children = match field(&items[0], "children") {
        Some(Value::Array(c)) => c,
        _ => panic!("no children"),
    };
    assert_eq!(children.len(), 1);
    assert_eq!(str_field(&children[0], "name"), "y");
    assert_eq!(str_field(&children[0], "kind"), "Unchanged");
    assert!(matches!(field(&children[0], "oldValue"), Some(Value::Null)));
    assert!(matches!(field(&children[0], "newValue"), Some(Value::Null)));
    assert!(matches!(field(&children[0], "children"), Some(Value::Array(c)) if c.is_empty()));
    assert_eq!(str_field(&items[1], "kind"), "Changed");
    assert!(values_equal(field(&items[1], "oldValue").unwrap(), &num("2")));
    assert!(values_equal(field(&items[1], "newValue").unwrap(), &num("3")));
}

#[test]
fn plain_lines_for_flat_scenario() {
    let out = plain::render(build(&doc_a(), &doc_b()).unwrap());
    assert_eq!(
        out,
        "Property 'b' was changed. From '2' to '3'\n\
         Property 'c' was removed\n\
         Property 'd' was added with value: '4'"
    );
}

#[test]
fn plain_nested_paths_and_complex_values() {
    let a = obj(vec![
        ("s", obj(vec![("k", Value::Str(text("old"))), ("same", Value::Bool(true))])),
        ("t", num("1")),
    ]);
    let b = obj(vec![
        ("s", obj(vec![("k", Value::Str(text("new"))), ("same", Value::Bool(true))])),
        ("t", obj(vec![("u", Value::Null)])),
    ]);
    let out = plain::render(build(&a, &b).unwrap());
    assert_eq!(
        out,
        "Property 's.k' was changed. From 'old' to 'new'\n\
         Property 't' was changed. From '1' to 'complex value'"
    );
}

#[test]
fn plain_build_with_prefix() {
    let nodes = build(&obj(vec![]), &obj(vec![("n", Value::Null)])).unwrap();
    assert_eq!(plain::build(nodes, "root."), "Property 'root.n' was added with value: 'null'");
}

#[test]
fn plain_stringify_values() {
    assert_eq!(plain::stringify(None), "");
    assert_eq!(plain::stringify(Some(Value::Str(text("abc")))), "abc");
    assert_eq!(plain::stringify(Some(Value::Bool(false))), "false");
    assert_eq!(plain::stringify(Some(obj(vec![("a", num("1"))]))), "complex value");
    assert_eq!(
        plain::stringify(Some(Value::Array(vec![num("1"), Value::Str(text("x"))]))),
        "[1, x]"
    );
}

#[test]
fn pretty_flat_scenario() {
    let out = pretty::render(build(&doc_a(), &doc_b()).unwrap());
    assert_eq!(out, "{\n    a: \n  + b: 3\n  - b: 2\n  - c: 3\n  + d: 4\n}");
}

#[test]
fn pretty_nested_and_object_values() {
    let a = obj(vec![("x", obj(vec![("y", num("1"))]))]);
    let b = obj(vec![
        ("x", obj(vec![("y", num("2"))])),
        ("n", obj(vec![("k", Value::Bool(true)), ("m", obj(vec![("q", Value::Null)]))])),
    ]);
    let out = pretty::render(build(&a, &b).unwrap());
    assert_eq!(
        out,
        "{\n    x: {\n      + y: 2\n      - y: 1\n    }\n  + n: {\n        k: true\n        m: {q: null}\n    }\n}"
    );
}

#[test]
fn render_dispatches_on_format() {
    match render(Format::Plain, build(&doc_a(), &doc_b()).unwrap()) {
        Output::Text(t) => assert!(t.starts_with("Property 'b'")),
        _ => panic!("expected text"),
    }
    match render(Format::Pretty, build(&doc_a(), &doc_b()).unwrap()) {
        Output::Text(t) => assert!(t.starts_with("{\n    a: ")),
        _ => panic!("expected text"),
    }
    match gen_diff(Format::Json, &doc_a(), &doc_b()).unwrap() {
        Output::Structured(Value::Array(items)) => assert_eq!(items.len(), 4),
        _ => panic!("expected a structured array"),
    }
}

#[test]
fn deep_equality_of_values() {
    assert!(values_equal(&obj(vec![("a", num("1"))]), &obj(vec![("a", num("1"))])));
    assert!(!values_equal(&obj(vec![("a", num("1"))]), &obj(vec![("a", num("1.0"))])));
    assert!(!values_equal(&Value::Array(vec![]), &Value::Array(vec![Value::Null])));
    assert!(!values_equal(&Value::Str(text("1")), &num("1")));
}

#[test]
fn objects_compare_whatever_the_key_order() {
    let a = obj(vec![("k", Value::Array(vec![obj(vec![("p", num("1")), ("q", num("2"))])]))]);
    let b = obj(vec![("k", Value::Array(vec![obj(vec![("q", num("2")), ("p", num("1"))])]))]);
    let nodes = build(&a, &b).unwrap();
    assert_eq!(nodes[0].kind, NodeType::Unchanged);
    assert!(values_equal(
        &obj(vec![("p", num("1")), ("q", num("2"))]),
        &obj(vec![("q", num("2")), ("p", num("1"))])
    ));
    assert!(!values_equal(
        &obj(vec![("p", num("1")), ("q", num("2"))]),
        &obj(vec![("p", num("1"))])
    ));
    assert!(!values_equal(
        &obj(vec![("p", num("1"))]),
        &obj(vec![("p", num("1")), ("q", num("2"))])
    ));
    assert!(!values_equal(&obj(vec![("p", num("1"))]), &obj(vec![("p", num("2"))])));
}

#[test]
fn swapping_sides_mirrors_nested_nodes() {
    let a = obj(vec![("x", obj(vec![("y", num("1")), ("gone", Value::Null)]))]);
    let b = obj(vec![("x", obj(vec![("y", num("2")), ("new", Value::Bool(true))]))]);
    let forward = build(&a, &b).unwrap();
    let backward = build(&b, &a).unwrap();
    assert_eq!(forward[0].kind, NodeType::Object);
    assert_eq!(backward[0].kind, NodeType::Object);
    assert_eq!(names(&forward[0].children), vec!["y", "gone", "new"]);
    assert_eq!(names(&backward[0].children), vec!["y", "new", "gone"]);
    assert_eq!(
        kinds(&forward[0].children),
        vec![NodeType::Changed, NodeType::Removed, NodeType::Added]
    );
    assert_eq!(
        kinds(&backward[0].children),
        vec![NodeType::Changed, NodeType::Removed, NodeType::Added]
    );
    assert!(is_num(&backward[0].children[0].old_value, "2"));
    assert!(is_num(&backward[0].children[0].new_value, "1"));
    assert!(matches!(backward[0].children[2].new_value, Some(Value::Null)));
}
