use parquet_decode::assemble::find_chain;
use parquet_decode::meta::SchemaElement;
use parquet_decode::model::{
    assemble_column, build_schema, Issue, Prim, SchemaNode, Span, Triple, Value,
};

fn element(name: &str, repetition: i32, num_children: i32) -> SchemaElement {
    SchemaElement {
        typ: Some(1),
        type_length: None,
        repetition,
        name: name.to_string(),
        num_children,
        converted_type: None,
    }
}

fn span(at: u64) -> Span {
    Span { kind: "values".to_string(), start: at, end: at + 1, page: Some(0) }
}

/// Triples with one span each, numbered from 0.
fn triples(levels: &[(u16, u16, Option<i32>)]) -> Vec<Triple> {
    levels
        .iter()
        .enumerate()
        .map(|(i, (rep, def, val))| Triple {
            rep: *rep,
            def: *def,
            val: val.map(Prim::I32),
            spans: vec![span(i as u64)],
        })
        .collect()
}

fn number(v: i32) -> Value {
    Value::Prim(Prim::I32(v))
}

fn record(name: &str, v: Value) -> Value {
    Value::Struct(vec![(name.to_string(), v)])
}

fn run(
    root: &SchemaNode,
    path: &str,
    ts: &[Triple],
    num_rows: usize,
) -> (Vec<Value>, Vec<Vec<u64>>, Vec<Issue>) {
    let mut issues = Vec::new();
    let rows = assemble_column(root, path, ts, num_rows, &mut issues);
    let values = rows.iter().map(|(v, _)| v.clone()).collect();
    let lineage = rows.iter().map(|(_, s)| s.iter().map(|x| x.start).collect()).collect();
    (values, lineage, issues)
}

fn messages(issues: &[Issue]) -> Vec<String> {
    issues.iter().map(|i| format!("{}: {}", i.kind, i.message)).collect()
}

fn list_schema() -> SchemaNode {
    build_schema(&[
        element("schema", 0, 2),
        element("other", 0, 0),
        element("a", 1, 1),
        element("list", 2, 1),
        element("element", 1, 0),
    ])
    .unwrap()
}

#[test]
fn lists_of_optionals() {
    let ts = triples(&[
        (0, 3, Some(1)),
        (1, 3, Some(2)),
        (0, 0, None),
        (0, 1, None),
        (0, 2, None),
        (1, 3, Some(3)),
    ]);
    let (values, lineage, issues) = run(&list_schema(), "a.list.element", &ts, 4);
    let item = |v: Value| record("element", v);
    assert_eq!(
        values,
        vec![
            record("list", Value::List(vec![item(number(1)), item(number(2))])),
            Value::Null,
            record("list", Value::List(Vec::new())),
            record("list", Value::List(vec![item(Value::Null), item(number(3))])),
        ]
    );
    assert_eq!(lineage, vec![vec![0, 1], vec![2], vec![3], vec![4, 5]]);
    assert!(issues.is_empty());
}

#[test]
fn nested_lists() {
    let root = build_schema(&[
        element("schema", 0, 1),
        element("outer", 2, 1),
        element("inner", 2, 0),
    ])
    .unwrap();
    // [[1, 2], [], [3]] and []
    let ts = triples(&[
        (0, 2, Some(1)),
        (2, 2, Some(2)),
        (1, 1, None),
        (1, 2, Some(3)),
        (0, 0, None),
    ]);
    let (values, lineage, issues) = run(&root, "outer.inner", &ts, 2);
    let inner = |vs: Vec<Value>| record("inner", Value::List(vs));
    assert_eq!(
        values,
        vec![
            Value::List(vec![
                inner(vec![number(1), number(2)]),
                inner(Vec::new()),
                inner(vec![number(3)]),
            ]),
            Value::List(Vec::new()),
        ]
    );
    assert_eq!(lineage, vec![vec![0, 1, 2, 3], vec![4]]);
    assert!(issues.is_empty());
}

#[test]
fn required_column() {
    let ts = triples(&[(0, 0, Some(7)), (0, 0, Some(8))]);
    let (values, lineage, issues) = run(&list_schema(), "other", &ts, 2);
    assert_eq!(values, vec![number(7), number(8)]);
    assert_eq!(lineage, vec![vec![0], vec![1]]);
    assert!(issues.is_empty());
}

#[test]
fn missing_rows_are_reported() {
    let ts = triples(&[(0, 0, Some(7))]);
    let (values, _, issues) = run(&list_schema(), "other", &ts, 3);
    assert_eq!(values, vec![number(7)]);
    assert_eq!(
        messages(&issues),
        vec!["RowReconstruction: ran out of values at row 1 (1 rows assembled)"]
    );
    assert_eq!(issues[0].column.as_deref(), Some("other"));
    assert_eq!(issues[0].page, None);
}

#[test]
fn left_over_values_are_reported() {
    let ts = triples(&[(0, 0, Some(7)), (0, 0, Some(8)), (0, 0, Some(9))]);
    let (values, lineage, issues) = run(&list_schema(), "other", &ts, 1);
    assert_eq!(values, vec![number(7)]);
    assert_eq!(lineage, vec![vec![0]]);
    assert_eq!(
        messages(&issues),
        vec!["RowReconstruction: 2 decoded values left over after 1 rows (corrupt levels?)"]
    );
}

#[test]
fn unknown_leaf() {
    let ts = triples(&[(0, 0, Some(7))]);
    let (values, _, issues) = run(&list_schema(), "nope", &ts, 1);
    assert!(values.is_empty());
    assert_eq!(messages(&issues), vec!["SchemaPath: leaf nope not found"]);
    assert_eq!(issues[0].column, None);
    // A group is no leaf.
    let (_, _, issues) = run(&list_schema(), "a.list", &ts, 1);
    assert_eq!(messages(&issues), vec!["SchemaPath: leaf a.list not found"]);
}

#[test]
fn leaf_without_value() {
    let ts = triples(&[(0, 0, None)]);
    let (values, lineage, issues) = run(&list_schema(), "other", &ts, 1);
    assert_eq!(values, vec![Value::Null]);
    assert_eq!(lineage, vec![vec![0]]);
    assert_eq!(
        messages(&issues),
        vec!["RowReconstruction: leaf other reached with no value (def=0)"]
    );
}

#[test]
fn empty_marker_mid_list() {
    let root = build_schema(&[element("schema", 0, 1), element("r", 2, 0)]).unwrap();
    let ts = triples(&[(0, 1, Some(1)), (1, 0, None), (1, 1, Some(2))]);
    let (values, lineage, issues) = run(&root, "r", &ts, 1);
    assert_eq!(values, vec![Value::List(vec![number(1), number(2)])]);
    assert_eq!(lineage, vec![vec![0, 1, 2]]);
    assert_eq!(messages(&issues), vec!["RowReconstruction: empty marker mid-list"]);
    assert_eq!(issues[0].column.as_deref(), Some("r"));
}

#[test]
fn bad_repetition() {
    let root = build_schema(&[element("schema", 0, 1), element("x", 3, 0)]).unwrap();
    let ts = triples(&[(0, 1, Some(1))]);
    let (values, lineage, issues) = run(&root, "x", &ts, 2);
    assert_eq!(values, vec![Value::Null, Value::Null]);
    assert_eq!(lineage, vec![Vec::<u64>::new(), Vec::new()]);
    assert_eq!(
        messages(&issues),
        vec![
            "Schema: bad repetition type",
            "Schema: bad repetition type",
            "RowReconstruction: 1 decoded values left over after 2 rows (corrupt levels?)",
        ]
    );
}

#[test]
fn repeated_field_that_uses_nothing_up_ends() {
    let root = build_schema(&[element("schema", 0, 1), element("r", 2, 1), element("x", 3, 0)])
        .unwrap();
    let ts = triples(&[(0, 2, Some(1))]);
    let (values, _, issues) = run(&root, "r.x", &ts, 1);
    assert_eq!(values, vec![Value::List(vec![record("x", Value::Null)])]);
    assert_eq!(issues.len(), 2);
}

#[test]
fn nothing_to_assemble() {
    let root = list_schema();
    let (values, _, issues) = run(&root, "other", &[], 0);
    assert!(values.is_empty() && issues.is_empty());
    let (values, _, issues) = run(&root, "other", &[], 2);
    assert!(values.is_empty());
    assert_eq!(
        messages(&issues),
        vec!["RowReconstruction: ran out of values at row 0 (0 rows assembled)"]
    );
    // The root itself may be the leaf if there is nothing to assemble.
    let lone = build_schema(&[element("schema", 0, 0)]).unwrap();
    let (values, _, issues) = run(&lone, "", &[], 0);
    assert!(values.is_empty() && issues.is_empty());
}

#[test]
fn earlier_issues_stay() {
    let mut issues = vec![Issue::info("Note", "first")];
    let rows = assemble_column(&list_schema(), "nope", &[], 0, &mut issues);
    assert!(rows.is_empty());
    assert_eq!(messages(&issues), vec!["Note: first", "SchemaPath: leaf nope not found"]);
    assert_eq!(issues[0].severity, "info");
    assert_eq!(issues[1].severity, "error");
}

#[test]
fn chain_leads_to_the_leaf() {
    let root = list_schema();
    let mut chain = vec![9];
    assert!(find_chain(&root, "a.list.element", &mut chain));
    assert_eq!(chain, vec![9, 1, 0, 0]);
    let mut node = &root;
    for i in &chain[1..] {
        node = &node.children[*i];
    }
    assert!(std::ptr::eq(node, root.find_leaf("a.list.element").unwrap()));
    assert!(!find_chain(&root, "a.list", &mut chain));
    assert_eq!(chain, vec![9, 1, 0, 0]);
}
