use indexmap::IndexSet;
use tangle::{Members, Tangle};

fn set(xs: &[&str]) -> IndexSet<String> {
    xs.iter().map(|s| s.to_string()).collect()
}

fn leaf(name: &str, req: &[&str], prov: &[&str], code: &str) -> Tangle {
    Tangle::Leaf {
        name: name.to_string(),
        provides: set(prov),
        requires: set(req),
        code: code.to_string(),
    }
}

#[test]
fn emit_leaf_text() {
    let a = leaf("a", &["p", "q"], &["x", "y"], "x = p\ny = q");
    assert_eq!(a.emit(), "def a(p, q):\r\n    x = p\r\n    y = q\r\n    return [x, y]");
}

#[test]
fn emit_empty_leaf() {
    let a = leaf("a", &[], &[], "");
    assert_eq!(a.emit(), "def a():\r\n\r\n    return []");
}

#[test]
fn emit_dataflow_calls_in_schedule_order() {
    let b = leaf("b", &["x"], &["y"], "y = x");
    let a = leaf("a", &[], &["x"], "x = 1");
    let flow = Tangle::from_leaves("dataflow".to_string(), Members::from_nodes(vec![b, a]));
    assert_eq!(
        flow.emit(),
        "def dataflow():\r\n    [x] = a()\r\n    [y] = b(x)\r\n    return [x, y]"
    );
}

#[test]
fn emit_all_lists_members_then_flow() {
    let a = leaf("a", &[], &["x"], "x = 1");
    let b = leaf("b", &["x"], &["y"], "y = x");
    let flow = Tangle::from_leaves("dataflow".to_string(), Members::from_nodes(vec![a, b]));
    assert_eq!(
        flow.emit_all(),
        "def a():\r\n    x = 1\r\n    return [x]\r\n\r\n\
         def b(x):\r\n    y = x\r\n    return [y]\r\n\r\n\
         def dataflow():\r\n    [x] = a()\r\n    [y] = b(x)\r\n    return [x, y]"
    );
}

#[test]
fn emit_decorated_prefixes_members() {
    let a = leaf("a", &[], &["x"], "x = 1");
    let flow = Tangle::from_leaves("dataflow".to_string(), Members::from_nodes(vec![a]));
    assert_eq!(
        flow.emit_decorated(&Some("@memo")),
        "@memo(\"a\")\r\ndef a():\r\n    x = 1\r\n    return [x]\r\n\r\n\
         def dataflow():\r\n    [x] = a()\r\n    return [x]"
    );
}

#[test]
fn emit_decorated_leaf_is_plain() {
    let a = leaf("a", &[], &["x"], "x = 1");
    assert_eq!(a.emit_decorated(&Some("@memo")), a.emit());
}
