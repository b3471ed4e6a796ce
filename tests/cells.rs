use std::cmp::Ordering;
use tangle::{get_provides, identifier_occurs_before, Position, Tangle, TangleApp};

const CELL: &str = "import numpy as np\nimport os.path\nfrom math import sqrt, pi as PI\nx = 1\ndef f(a):\n    y = 2\n    return y\nclass C:\n    z = 3\na, b = 1, 2\n[c, d] = 3, 4\nobj.attr = 5\nprint(x)\n";

#[test]
fn provides_top_level_bindings_only() {
    let (prov, _) = get_provides(&CELL.to_string());
    let got: Vec<&str> = prov.iter().map(|s| s.as_str()).collect();
    assert_eq!(got, vec!["np", "os", "sqrt", "PI", "x", "f", "C", "a", "b", "c", "d"]);
}

#[test]
fn provides_chained_and_starred_targets() {
    let cell = "a = b = 1\n*c, d = xs\n[e, *f] = ys\ng, = zs\ndef h():\n    i = j = 2\n";
    let (prov, _) = get_provides(&cell.to_string());
    let got: Vec<&str> = prov.iter().map(|s| s.as_str()).collect();
    assert_eq!(got, vec!["a", "b", "c", "d", "e", "f", "g", "h"]);
}

#[test]
fn identifier_map_holds_first_occurrence() {
    let (_, ident) = get_provides(&"x = 1\ny = x\nx = y\n".to_string());
    let (start, end) = ident.get("x").unwrap();
    assert_eq!(*start, Position { row: 0, column: 0 });
    assert_eq!(*end, Position { row: 0, column: 1 });
    assert_eq!(ident.get("y").unwrap().0, Position { row: 1, column: 0 });
    assert_eq!(ident.len(), 2);
}

#[test]
fn identifiers_ordered_by_first_occurrence() {
    let (_, ident) = get_provides(&"b = 1\na = b\n".to_string());
    let (a, b, z) = ("a".to_string(), "b".to_string(), "z".to_string());
    assert_eq!(identifier_occurs_before(&ident, &b, &a), Some(Ordering::Less));
    assert_eq!(identifier_occurs_before(&ident, &a, &b), Some(Ordering::Greater));
    assert_eq!(identifier_occurs_before(&ident, &a, &z), None);
}

#[test]
fn from_cell_with_requires() {
    let code = "y = x + 1".to_string();
    let r = Tangle::from_cell::<String>("n".to_string(), &code, Ok(vec!["x".to_string(), "x".to_string()]));
    let (leaf, ident) = r.unwrap();
    let (req, prov) = leaf.deps();
    assert_eq!(req.iter().collect::<Vec<_>>(), vec!["x"]);
    assert_eq!(prov.iter().collect::<Vec<_>>(), vec!["y"]);
    assert_eq!(leaf.code(), "y = x + 1");
    assert_eq!(leaf.name(), "n");
    assert!(ident.contains_key("x"));
}

#[test]
fn from_cell_error_keeps_partial_leaf() {
    let code = "y = x +".to_string();
    let r = Tangle::from_cell("n".to_string(), &code, Err("syntax".to_string()));
    match r {
        Err((e, (leaf, _))) => {
            assert_eq!(e, "syntax");
            let (req, _) = leaf.deps();
            assert!(req.is_empty());
            assert_eq!(leaf.code(), "y = x +");
        }
        Ok(_) => panic!("expected the error"),
    }
}

#[test]
fn empty_cell_has_empty_interface() {
    let r = Tangle::from_cell::<()>("e".to_string(), &String::new(), Ok(vec![]));
    let (leaf, _) = r.unwrap();
    let (req, prov) = leaf.deps();
    assert!(req.is_empty() && prov.is_empty());
}

#[test]
fn session_names_fresh_cells() {
    let mut app = TangleApp::new();
    app.fresh_node();
    app.fresh_node();
    assert_eq!(app.nodes[0].name, "node_0");
    assert_eq!(app.nodes[1].name, "node_1");
    assert_eq!(app.last_id, 2);
    app.last_id = 0;
    app.fresh_node();
    assert_eq!(app.nodes[2].name, "node_2");
    assert_eq!(app.last_id, 3);
    app.last_id = 1;
    app.fresh_node();
    assert_eq!(app.nodes[3].name, "node_3");
    assert_eq!(app.last_id, 4);
    app.last_id = 10;
    app.fresh_node();
    assert_eq!(app.nodes[4].name, "node_10");
    assert_eq!(app.last_id, 11);
}

#[test]
fn session_reanalysis_leaves_other_cells() {
    let mut app = TangleApp::new();
    app.fresh_node();
    app.fresh_node();
    app.edit(0, "x = 1".to_string());
    assert!(app.is_changed(0));
    assert!(app.reanalyze::<()>(0, Ok(vec![])).is_none());
    app.edit(1, "y = x".to_string());
    assert!(app.reanalyze::<()>(1, Ok(vec!["x".to_string()])).is_none());
    let before: Vec<String> = app.nodes[1].leaf.deps().1.iter().cloned().collect();
    app.edit(0, "x = 2\nz = 3".to_string());
    assert!(!app.is_changed(1));
    assert_eq!(app.reanalyze(0, Err("bad")), Some("bad"));
    assert_eq!(app.nodes[1].leaf.deps().1.iter().cloned().collect::<Vec<_>>(), before);
    assert_eq!(app.nodes[1].code, "y = x");
    assert_eq!(app.nodes[0].leaf.deps().1.iter().collect::<Vec<_>>(), vec!["x", "z"]);
    assert!(app.nodes[0].leaf.deps().0.is_empty());
}

#[test]
fn session_compiles_and_lays_out() {
    let mut app = TangleApp::new();
    app.fresh_node();
    app.fresh_node();
    app.edit(0, "y = x".to_string());
    app.reanalyze::<()>(0, Ok(vec!["x".to_string()]));
    app.edit(1, "x = 1".to_string());
    app.reanalyze::<()>(1, Ok(vec![]));
    let layout = app.bfs_ui();
    assert_eq!(layout, vec![vec![], vec!["node_1".to_string()], vec!["node_0".to_string()]]);
    let flow = app.compile();
    assert_eq!(flow.name(), "dataflow");
    assert!(flow.deps().0.is_empty());
    assert_eq!(
        flow.emit(),
        "def dataflow():\r\n    [x] = node_1()\r\n    [y] = node_0(x)\r\n    return [x, y]"
    );
    app.remove_node(0);
    assert_eq!(app.nodes.len(), 1);
}
