use indexmap::IndexSet;
use tangle::{Error, Tangle};

fn set(xs: &[&str]) -> IndexSet<String> {
    xs.iter().map(|s| s.to_string()).collect()
}

fn members(t: &Tangle) -> Vec<(String, IndexSet<String>, IndexSet<String>, String)> {
    match t {
        Tangle::Dataflow { nodes, .. } => (0..nodes.len())
            .map(|i| nodes.get(i))
            .map(|n| {
                let (r, p) = n.deps();
                (n.name().clone(), r.clone(), p.clone(), n.code().clone())
            })
            .collect(),
        _ => panic!("not a dataflow"),
    }
}

const FLOW: &str = "def load():\n    x = 1\n    return [x]\n\ndef double(x):\n    y = x * 2\n    if y > 1:\n        y = y + 1\n    return [y]\n\ndef dataflow():\n    [x] = load()\n    [y] = double(x)\n    return [y]\n";

#[test]
fn from_code_builds_called_leaves() {
    let flow = Tangle::from_code(FLOW.to_string()).unwrap();
    assert_eq!(flow.name(), "dataflow");
    let ms = members(&flow);
    assert_eq!(ms.len(), 2);
    assert_eq!(ms[0], ("load".to_string(), set(&[]), set(&["x"]), "x = 1".to_string()));
    assert_eq!(
        ms[1],
        (
            "double".to_string(),
            set(&["x"]),
            set(&["y"]),
            "y = x * 2\r\nif y > 1:\r\n    y = y + 1".to_string()
        )
    );
    let (req, prov) = flow.deps();
    assert!(req.is_empty());
    assert_eq!(prov, &set(&["x", "y"]));
}

#[test]
fn from_code_requires_mismatch() {
    let src = "def leaf_b(x):\n    p = x + 1\n    return [p]\n\ndef dataflow(q):\n    [p] = leaf_b(q)\n    return [p]\n";
    match Tangle::from_code(src.to_string()) {
        Err(Error::RequiresMismatch { expected, found }) => {
            assert_eq!(expected, set(&["q"]));
            assert_eq!(found, set(&["x"]));
        }
        other => panic!("unexpected {:?}", other),
    }
}

#[test]
fn from_code_provides_mismatch() {
    let src = "def a():\n    x = 1\n    return [x]\n\ndef dataflow():\n    [z] = a()\n    return [z]\n";
    match Tangle::from_code(src.to_string()) {
        Err(Error::ProvidesMismatch { expected, found }) => {
            assert_eq!(expected, set(&["z"]));
            assert_eq!(found, set(&["x"]));
        }
        other => panic!("unexpected {:?}", other),
    }
}

#[test]
fn from_code_missing_leaf() {
    let src = "def dataflow():\n    [x] = nowhere()\n    return [x]\n";
    match Tangle::from_code(src.to_string()) {
        Err(Error::MissingLeaf(name)) => assert_eq!(name, "nowhere"),
        other => panic!("unexpected {:?}", other),
    }
}

#[test]
fn from_code_no_dataflow() {
    let src = "def a():\n    x = 1\n    return [x]\n\ndef other():\n    [x] = a()\n    return [x]\n";
    assert!(matches!(Tangle::from_code(src.to_string()), Err(Error::NoDataflowFound)));
    assert!(matches!(Tangle::from_code(String::new()), Err(Error::NoDataflowFound)));
}

#[test]
fn from_code_skips_broken_definitions() {
    let src = "def (x):\n    return [x]\n\ndef a():\n    x = 1\n    return [x]\n\ndef dataflow():\n    [x] = a()\n    return [x]\n";
    let flow = Tangle::from_code(src.to_string()).unwrap();
    assert_eq!(members(&flow).len(), 1);
    assert_eq!(members(&flow)[0].0, "a");
}

#[test]
fn from_code_set_equality_ignores_order() {
    let src = "def a(p, q):\n    x = p\n    y = q\n    return [x, y]\n\ndef dataflow(p, q):\n    [y, x] = a(q, p)\n    return [x, y]\n";
    let flow = Tangle::from_code(src.to_string()).unwrap();
    assert_eq!(members(&flow).len(), 1);
}

#[test]
fn from_code_repeated_call_is_one_member() {
    let src = "def a():\n    x = 1\n    return [x]\n\ndef dataflow():\n    [x] = a()\n    [x] = a()\n    return [x]\n";
    let flow = Tangle::from_code(src.to_string()).unwrap();
    assert_eq!(members(&flow).len(), 1);
}

#[test]
fn round_trip_keeps_leaves() {
    let first = Tangle::from_code(FLOW.to_string()).unwrap();
    let text = first.emit_all();
    let second = Tangle::from_code(text).unwrap();
    let mut a: Vec<_> = members(&first).into_iter().map(|m| (m.0, m.1, m.2)).collect();
    let mut b: Vec<_> = members(&second).into_iter().map(|m| (m.0, m.1, m.2)).collect();
    a.sort_by(|x, y| x.0.cmp(&y.0));
    b.sort_by(|x, y| x.0.cmp(&y.0));
    assert_eq!(a, b);
}

#[test]
fn round_trip_with_decoration() {
    let first = Tangle::from_code(FLOW.to_string()).unwrap();
    let text = first.emit_decorated(&Some("@memo"));
    let second = Tangle::from_code(text).unwrap();
    let names: Vec<_> = members(&second).into_iter().map(|m| m.0).collect();
    assert_eq!(names, vec!["load".to_string(), "double".to_string()]);
}

#[test]
fn builds_are_deterministic() {
    let a = Tangle::from_code(FLOW.to_string()).unwrap().emit_all();
    let b = Tangle::from_code(FLOW.to_string()).unwrap().emit_all();
    assert_eq!(a, b);
}

#[test]
fn error_messages_are_readable() {
    assert_eq!(Error::MissingLeaf("f".to_string()).message(), "missing leaf: f");
    assert_eq!(Error::NoDataflowFound.message(), "no dataflow found");
    let e = Error::RequiresMismatch { expected: set(&["q"]), found: set(&["x", "y"]) };
    assert_eq!(e.message(), "requires mismatch: expected [q], found [x, y]");
    let e = Error::ProvidesMismatch { expected: set(&[]), found: set(&["p"]) };
    assert_eq!(e.message(), "provides mismatch: expected [], found [p]");
}
