use parquet_decode::meta::SchemaElement;
use parquet_decode::model::{build_schema, SchemaError, SchemaNode};

fn element(name: &str, repetition: i32, num_children: i32) -> SchemaElement {
    SchemaElement {
        typ: if num_children == 0 { Some(1) } else { None },
        type_length: None,
        repetition,
        name: name.to_string(),
        num_children,
        converted_type: None,
    }
}

fn sample() -> Vec<SchemaElement> {
    vec![
        element("schema", 2, 2),
        element("a", 1, 1),
        element("list", 2, 2),
        element("x", 1, 0),
        element("y", 0, 0),
        element("b", 0, 0),
    ]
}

fn preorder(node: &SchemaNode, out: &mut Vec<String>) {
    out.push(format!("{} {} {}", node.name, node.repetition, node.children.len()));
    for c in &node.children {
        preorder(c, out);
    }
}

#[test]
fn tree_holds_the_elements_in_order() {
    let root = build_schema(&sample()).unwrap();
    let mut names = Vec::new();
    preorder(&root, &mut names);
    assert_eq!(names, vec!["schema 0 2", "a 1 1", "list 2 2", "x 1 0", "y 0 0", "b 0 0"]);
}

#[test]
fn levels_and_paths() {
    let root = build_schema(&sample()).unwrap();
    assert_eq!((root.repetition, root.def_level, root.rep_level), (0, 0, 0));
    assert_eq!(root.path, "");
    assert!(!root.is_leaf());
    let leaves = root.leaves();
    let got: Vec<(&str, u16, u16)> =
        leaves.iter().map(|l| (l.path.as_str(), l.def_level, l.rep_level)).collect();
    assert_eq!(got, vec![("a.list.x", 3, 1), ("a.list.y", 2, 1), ("b", 0, 0)]);
    for l in leaves {
        assert!(l.rep_level <= l.def_level);
    }
}

#[test]
fn find_leaf_by_path() {
    let root = build_schema(&sample()).unwrap();
    assert_eq!(root.find_leaf("a.list.y").unwrap().name, "y");
    assert!(root.find_leaf("a.list").is_none());
    assert!(root.find_leaf("").is_none());
    let twice = vec![element("r", 0, 2), element("c", 0, 0), element("c", 1, 0)];
    let root = build_schema(&twice).unwrap();
    assert_eq!(root.find_leaf("c").unwrap().repetition, 0);
}

#[test]
fn leaf_types() {
    let mut els = vec![element("r", 0, 2), element("c", 0, 0), element("d", 0, 0)];
    els[1].type_length = Some(12);
    els[2].typ = None;
    let root = build_schema(&els).unwrap();
    let leaf = root.children[0].leaf.unwrap();
    assert_eq!((leaf.typ, leaf.type_length), (1, 12));
    let leaf = root.children[1].leaf.unwrap();
    assert_eq!((leaf.typ, leaf.type_length), (-1, 0));
}

#[test]
fn odd_shapes() {
    // A lone root is a leaf; a negative number of children makes neither leaf nor group.
    assert!(build_schema(&[element("r", 0, 0)]).unwrap().is_leaf());
    let root = build_schema(&[element("r", 0, -1), element("unused", 0, 0)]).unwrap();
    assert!(!root.is_leaf());
    assert!(root.children.is_empty());
    assert!(root.leaves().is_empty());
}

#[test]
fn empty_names_do_not_add_a_dot_at_the_front() {
    let root =
        build_schema(&[element("r", 0, 1), element("", 0, 1), element("c", 0, 0)]).unwrap();
    assert_eq!(root.leaves()[0].path, "c");
}

#[test]
fn schema_errors() {
    let e = build_schema(&[]).unwrap_err();
    assert_eq!(e, SchemaError::Empty);
    assert_eq!(e.message(), "empty schema");
    let e = build_schema(&[element("r", 0, 2), element("a", 0, 0)]).unwrap_err();
    assert_eq!(e, SchemaError::IndexOutOfRange);
    assert_eq!(e.message(), "schema element index out of range");
}

#[test]
fn clone_keeps_the_tree() {
    let root = build_schema(&sample()).unwrap();
    assert_eq!(format!("{:?}", root.clone()), format!("{:?}", root));
}
