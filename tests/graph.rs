use indexmap::IndexSet;
use tangle::{topo_sort, Members, Tangle};

fn set(xs: &[&str]) -> IndexSet<String> {
    xs.iter().map(|s| s.to_string()).collect()
}

fn leaf(name: &str, req: &[&str], prov: &[&str], code: &str) -> Tangle {
    Tangle::Leaf {
        name: name.to_string(),
        provides: set(prov),
        requires: set(req),
        code: code.to_string(),
    }
}

fn levels(r: Vec<Vec<String>>) -> Vec<Vec<&'static str>> {
    r.into_iter()
        .map(|l| l.into_iter().map(|s| &*Box::leak(s.into_boxed_str())).collect())
        .collect()
}

#[test]
fn schedule_two_leaves_in_dependency_order() {
    let a = leaf("a", &[], &["x"], "x = 1");
    let b = leaf("b", &["x"], &["y"], "y = x");
    assert_eq!(levels(topo_sort(vec![&a, &b])), vec![vec![], vec!["a"], vec!["b"]]);
    assert_eq!(levels(topo_sort(vec![&b, &a])), vec![vec![], vec!["a"], vec!["b"]]);
}

#[test]
fn schedule_cycle_forms_trailing_level() {
    let a = leaf("A", &["y"], &["x"], "");
    let b = leaf("B", &["x"], &["y"], "");
    assert_eq!(levels(topo_sort(vec![&a, &b])), vec![vec![], vec!["A", "B"]]);
}

#[test]
fn schedule_cycle_beside_acyclic_nodes() {
    let a = leaf("A", &["y"], &["x"], "");
    let b = leaf("B", &["x"], &["y"], "");
    let c = leaf("C", &[], &["z"], "");
    let d = leaf("D", &["z"], &["w"], "");
    assert_eq!(
        levels(topo_sort(vec![&a, &b, &c, &d])),
        vec![vec![], vec!["C"], vec!["D"], vec!["A", "B"]]
    );
}

#[test]
fn schedule_level_keeps_input_order() {
    let a = leaf("a", &[], &["x"], "");
    let c = leaf("c", &["x"], &["z"], "");
    let b = leaf("b", &["x"], &["y"], "");
    let e = leaf("e", &[], &[], "");
    assert_eq!(
        levels(topo_sort(vec![&c, &a, &e, &b])),
        vec![vec![], vec!["a", "e"], vec!["c", "b"]]
    );
}

#[test]
fn schedule_last_provider_wins() {
    let a = leaf("a", &[], &["x"], "");
    let b = leaf("b", &["x"], &["y"], "");
    let c = leaf("c", &[], &["x"], "");
    assert_eq!(levels(topo_sort(vec![&a, &b, &c])), vec![vec![], vec!["a", "c"], vec!["b"]]);
}

#[test]
fn schedule_empty() {
    assert_eq!(levels(topo_sort(vec![])), vec![Vec::<&str>::new()]);
}

#[test]
fn from_leaves_derives_interface() {
    let a = leaf("a", &["p"], &["x"], "x = p");
    let b = leaf("b", &["x", "q"], &["y"], "y = x + q");
    let flow = Tangle::from_leaves("flow".to_string(), Members::from_nodes(vec![a, b]));
    let (req, prov) = flow.deps();
    assert_eq!(prov, &set(&["x", "y"]));
    assert_eq!(req.iter().collect::<Vec<_>>(), vec!["p", "q"]);
    assert_eq!(flow.name(), "flow");
}

#[test]
fn from_leaves_later_node_replaces_same_name() {
    let a1 = leaf("a", &[], &["x"], "x = 1");
    let b = leaf("b", &["x"], &["y"], "y = x");
    let a2 = leaf("a", &[], &["z"], "z = 1");
    let flow = Tangle::from_leaves("flow".to_string(), Members::from_nodes(vec![a1, b, a2]));
    match &flow {
        Tangle::Dataflow { nodes, .. } => {
            assert_eq!(nodes.len(), 2);
            assert_eq!(nodes.get(0).name(), "a");
            assert_eq!(nodes.get(0).code(), "z = 1");
            assert_eq!(nodes.get(1).name(), "b");
        }
        _ => panic!("not a dataflow"),
    }
    let (req, prov) = flow.deps();
    assert_eq!(prov.iter().collect::<Vec<_>>(), vec!["z", "y"]);
    assert_eq!(req.iter().collect::<Vec<_>>(), vec!["x"]);
}

#[test]
fn from_leaves_interface_follows_schedule_order() {
    let b = leaf("b", &["x", "q"], &["y"], "");
    let a = leaf("a", &["p"], &["x"], "");
    let flow = Tangle::from_leaves("f".to_string(), Members::from_nodes(vec![b, a]));
    let (req, prov) = flow.deps();
    assert_eq!(prov.iter().collect::<Vec<_>>(), vec!["x", "y"]);
    assert_eq!(req.iter().collect::<Vec<_>>(), vec!["p", "q"]);
}

#[test]
fn from_leaves_sibling_provided_name_is_not_required() {
    let a = leaf("a", &[], &["x"], "");
    let b = leaf("b", &["x"], &["y"], "");
    let flow = Tangle::from_leaves("f".to_string(), Members::from_nodes(vec![b, a]));
    let (req, _) = flow.deps();
    assert!(req.is_empty());
}

#[test]
fn singleton_wraps_leaf() {
    let a = leaf("a", &["p"], &["x"], "x = p");
    let flow = Tangle::singleton(a);
    match &flow {
        Tangle::Dataflow { name, nodes, provides, requires } => {
            assert_eq!(name, "a");
            assert_eq!(nodes.len(), 1);
            assert_eq!(nodes.get(0).code(), "x = p");
            assert_eq!(provides, &set(&["x"]));
            assert_eq!(requires, &set(&["p"]));
        }
        _ => panic!("not a dataflow"),
    }
}

#[test]
fn singleton_drops_requires_the_leaf_provides() {
    let a = leaf("a", &["x", "p"], &["x", "y"], "x = x + p\ny = x");
    let flow = Tangle::singleton(a);
    let (req, prov) = flow.deps();
    assert_eq!(req.iter().collect::<Vec<_>>(), vec!["p"]);
    assert_eq!(prov.iter().collect::<Vec<_>>(), vec!["x", "y"]);
    assert_eq!(flow.name(), "a");
}

#[test]
fn singleton_keeps_a_dataflow() {
    let a = leaf("a", &[], &["x"], "x = 1");
    let flow = Tangle::from_leaves("f".to_string(), Members::from_nodes(vec![a]));
    let again = Tangle::singleton(flow);
    assert_eq!(again.name(), "f");
    assert!(matches!(again, Tangle::Dataflow { .. }));
}

#[test]
fn deps_and_code_of_leaf() {
    let a = leaf("a", &["p"], &["x"], "x = p");
    let (req, prov) = a.deps();
    assert_eq!(req, &set(&["p"]));
    assert_eq!(prov, &set(&["x"]));
    assert_eq!(a.code(), "x = p");
}

#[test]
fn fresh_leaves_are_numbered() {
    let mut counter = 0usize;
    let t0 = Tangle::fresh(&mut counter);
    let t1 = Tangle::fresh(&mut counter);
    assert_eq!(t0.name(), "tangle_0");
    assert_eq!(t1.name(), "tangle_1");
    assert_eq!(counter, 2);
    assert_eq!(t1.code(), "");
    let mut big = 1234usize;
    assert_eq!(Tangle::fresh(&mut big).name(), "tangle_1234");
}
