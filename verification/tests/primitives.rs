use elem::node::{create_node, NodeRepr};
use elem::primitives::{constant, mul2, phasor, root, sin, ConstNodeProps};
use serde_json::Value;

fn leaf(kind: &str) -> NodeRepr {
    create_node(kind, serde_json::Map::new(), vec![])
}

fn entries(node: &NodeRepr) -> Vec<(String, Value)> {
    node.props
        .iter()
        .map(|(k, v)| (k.clone(), v.clone()))
        .collect()
}

#[test]
fn root_sends_its_child_to_a_channel() {
    let node = root(leaf("x"), Value::from(0.0));
    assert_eq!(node.kind, "root");
    assert_eq!(
        entries(&node),
        vec![("channel".to_string(), Value::from(0.0))]
    );
    assert_eq!(node.children, vec![leaf("x")]);
    assert_eq!(node.output_channel, 0);
    let mut props = serde_json::Map::new();
    props.insert("channel".to_string(), Value::from(0.0));
    assert_eq!(node, create_node("root", props, vec![leaf("x")]));
    assert_ne!(node.hash, root(leaf("x"), Value::from(1.0)).hash);
}

#[test]
fn sin_has_one_child_and_no_property() {
    let node = sin(leaf("x"));
    assert_eq!(node, create_node("sin", serde_json::Map::new(), vec![leaf("x")]));
    assert_eq!(node.kind, "sin");
    assert_eq!(node.props.len(), 0);
    assert_eq!(node.children, vec![leaf("x")]);
}

#[test]
fn mul2_has_two_children_in_order() {
    let node = mul2(leaf("x"), leaf("y"));
    assert_eq!(
        node,
        create_node("mul", serde_json::Map::new(), vec![leaf("x"), leaf("y")])
    );
    assert_eq!(node.kind, "mul");
    assert_eq!(node.children, vec![leaf("x"), leaf("y")]);
    assert_eq!(node.hash, mul2(leaf("x"), leaf("y")).hash);
    assert_ne!(node.hash, mul2(leaf("y"), leaf("x")).hash);
}

#[test]
fn phasor_has_its_rate_as_child() {
    let node = phasor(leaf("rate"));
    assert_eq!(
        node,
        create_node("phasor", serde_json::Map::new(), vec![leaf("rate")])
    );
    assert_eq!(node.kind, "phasor");
}

#[test]
fn constant_without_key_has_null_for_it() {
    let node = constant(&ConstNodeProps {
        key: None,
        value: Value::from(110.0),
    });
    assert_eq!(node.kind, "const");
    assert_eq!(node.children.len(), 0);
    assert_eq!(
        entries(&node),
        vec![
            ("key".to_string(), Value::Null),
            ("value".to_string(), Value::from(110.0))
        ]
    );
}

#[test]
fn constant_with_key_has_it_as_string() {
    let node = constant(&ConstNodeProps {
        key: Some("gain".to_string()),
        value: Value::from(0.25),
    });
    assert_eq!(
        entries(&node),
        vec![
            ("key".to_string(), Value::from("gain")),
            ("value".to_string(), Value::from(0.25))
        ]
    );
    let mut props = serde_json::Map::new();
    props.insert("value".to_string(), Value::from(0.25));
    props.insert("key".to_string(), Value::from("gain"));
    assert_eq!(node, create_node("const", props, vec![]));
}

#[test]
fn constants_differ_by_key_and_by_value() {
    let plain = constant(&ConstNodeProps {
        key: None,
        value: Value::from(1.0),
    });
    let keyed = constant(&ConstNodeProps {
        key: Some("a".to_string()),
        value: Value::from(1.0),
    });
    let other = constant(&ConstNodeProps {
        key: None,
        value: Value::from(2.0),
    });
    assert_ne!(plain.hash, keyed.hash);
    assert_ne!(plain.hash, other.hash);
    assert_eq!(
        plain.hash,
        constant(&ConstNodeProps {
            key: None,
            value: Value::from(1.0),
        })
        .hash
    );
}
