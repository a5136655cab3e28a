use elem::engine::MainHandle;
use elem::instruction::Instruction;
use elem::node::{create_node, NodeRepr};
use elem::primitives::{constant, mul2, phasor, root, sin, ConstNodeProps};
use serde_json::Value;

fn number(value: f64) -> NodeRepr {
    constant(&ConstNodeProps {
        key: None,
        value: Value::from(value),
    })
}

fn tone() -> NodeRepr {
    root(
        sin(mul2(number(2.0 * std::f64::consts::PI), phasor(number(110.0)))),
        Value::from(0.0),
    )
}

fn leaf(kind: &str) -> NodeRepr {
    create_node(kind, serde_json::Map::new(), vec![])
}

fn with_hash(hash: i32, kind: &str, children: Vec<NodeRepr>) -> NodeRepr {
    NodeRepr {
        hash,
        kind: kind.to_string(),
        props: serde_json::Map::new(),
        output_channel: 0,
        children,
    }
}

fn create(node: &NodeRepr) -> Instruction {
    Instruction::Create {
        hash: node.hash,
        kind: node.kind.clone(),
    }
}

fn append(parent: &NodeRepr, child: &NodeRepr) -> Instruction {
    Instruction::AppendChild {
        parent: parent.hash,
        child: child.hash,
        output_channel: child.output_channel,
    }
}

fn set(node: &NodeRepr, name: &str, value: Value) -> Instruction {
    Instruction::SetProperty {
        hash: node.hash,
        name: name.to_string(),
        value,
    }
}

fn opcodes(batch: &Vec<Instruction>) -> Vec<u8> {
    batch.iter().map(|i| i.opcode()).collect()
}

#[test]
fn empty_graph_activates_nothing_and_commits() {
    let mut handle = MainHandle::new();
    let batch = handle.reconcile(&vec![]);
    assert_eq!(
        batch,
        vec![
            Instruction::ActivateRoots { roots: vec![] },
            Instruction::Commit
        ]
    );
    assert_eq!(handle.mounted(), 0);
}

#[test]
fn first_mount_creates_attaches_and_writes() {
    let graph = tone();
    let top = &graph;
    let sine = &top.children[0];
    let product = &sine.children[0];
    let two_pi = &product.children[0];
    let ramp = &product.children[1];
    let rate = &ramp.children[0];
    let mut handle = MainHandle::new();
    let batch = handle.reconcile(&vec![tone()]);
    assert_eq!(
        batch,
        vec![
            create(top),
            create(sine),
            create(product),
            create(two_pi),
            create(ramp),
            create(rate),
            append(top, sine),
            append(sine, product),
            append(product, two_pi),
            append(product, ramp),
            append(ramp, rate),
            set(top, "channel", Value::from(0.0)),
            set(two_pi, "key", Value::Null),
            set(two_pi, "value", Value::from(2.0 * std::f64::consts::PI)),
            set(rate, "key", Value::Null),
            set(rate, "value", Value::from(110.0)),
            Instruction::ActivateRoots {
                roots: vec![top.hash]
            },
            Instruction::Commit,
        ]
    );
    assert_eq!(handle.mounted(), 6);
}

#[test]
fn second_pass_writes_properties_only() {
    let graph = tone();
    let two_pi = &graph.children[0].children[0].children[0];
    let rate = &graph.children[0].children[0].children[1].children[0];
    let mut handle = MainHandle::new();
    let first = handle.reconcile(&vec![tone()]);
    assert_eq!(first.len(), 18);
    let second = handle.reconcile(&vec![tone()]);
    assert_eq!(
        second,
        vec![
            set(&graph, "channel", Value::from(0.0)),
            set(two_pi, "key", Value::Null),
            set(two_pi, "value", Value::from(2.0 * std::f64::consts::PI)),
            set(rate, "key", Value::Null),
            set(rate, "value", Value::from(110.0)),
            Instruction::ActivateRoots {
                roots: vec![graph.hash]
            },
            Instruction::Commit,
        ]
    );
    assert_eq!(handle.mounted(), 6);
    let third = handle.reconcile(&vec![tone()]);
    assert_eq!(third, second);
}

#[test]
fn batch_is_ordered_and_ends_with_one_commit() {
    let mut handle = MainHandle::new();
    let roots = vec![tone(), sin(number(1.0)), tone(), leaf("noise")];
    let batch = handle.reconcile(&roots);
    let codes = opcodes(&batch);
    let mut sorted = codes.clone();
    sorted.sort();
    assert_eq!(codes, sorted);
    assert_eq!(batch.last(), Some(&Instruction::Commit));
    assert_eq!(codes.iter().filter(|c| **c == 5).count(), 1);
    assert_eq!(codes.iter().filter(|c| **c == 4).count(), 1);
    assert_eq!(
        batch[batch.len() - 2],
        Instruction::ActivateRoots {
            roots: vec![roots[0].hash, roots[1].hash, roots[2].hash, roots[3].hash]
        }
    );
}

#[test]
fn shared_child_is_created_once_and_attached_under_both_parents() {
    let left = create_node("left", serde_json::Map::new(), vec![leaf("shared")]);
    let right = create_node("right", serde_json::Map::new(), vec![leaf("shared")]);
    let shared = leaf("shared");
    let mut handle = MainHandle::new();
    let batch = handle.reconcile(&vec![
        create_node("left", serde_json::Map::new(), vec![leaf("shared")]),
        create_node("right", serde_json::Map::new(), vec![leaf("shared")]),
    ]);
    assert_eq!(
        batch,
        vec![
            create(&left),
            create(&right),
            create(&shared),
            append(&left, &shared),
            append(&right, &shared),
            Instruction::ActivateRoots {
                roots: vec![left.hash, right.hash]
            },
            Instruction::Commit,
        ]
    );
    assert_eq!(handle.mounted(), 3);
}

#[test]
fn child_named_twice_by_one_parent_is_attached_twice() {
    let twice = create_node("add", serde_json::Map::new(), vec![leaf("x"), leaf("x")]);
    let x = leaf("x");
    let mut handle = MainHandle::new();
    let batch = handle.reconcile(&vec![create_node(
        "add",
        serde_json::Map::new(),
        vec![leaf("x"), leaf("x")],
    )]);
    assert_eq!(
        batch,
        vec![
            create(&twice),
            create(&x),
            append(&twice, &x),
            append(&twice, &x),
            Instruction::ActivateRoots {
                roots: vec![twice.hash]
            },
            Instruction::Commit,
        ]
    );
}

#[test]
fn root_given_twice_is_visited_once_and_activated_twice() {
    let mut handle = MainHandle::new();
    let batch = handle.reconcile(&vec![sin(number(1.0)), sin(number(1.0))]);
    let node = sin(number(1.0));
    let inner = number(1.0);
    assert_eq!(
        batch,
        vec![
            create(&node),
            create(&inner),
            append(&node, &inner),
            set(&inner, "key", Value::Null),
            set(&inner, "value", Value::from(1.0)),
            Instruction::ActivateRoots {
                roots: vec![node.hash, node.hash]
            },
            Instruction::Commit,
        ]
    );
}

#[test]
fn walk_is_breadth_first() {
    let a1 = with_hash(11, "a1", vec![]);
    let a2 = with_hash(12, "a2", vec![]);
    let b1 = with_hash(21, "b1", vec![]);
    let a = with_hash(1, "a", vec![a1, a2]);
    let b = with_hash(2, "b", vec![b1]);
    let mut handle = MainHandle::new();
    let batch = handle.reconcile(&vec![a, b]);
    let created: Vec<i32> = batch
        .iter()
        .filter_map(|i| match i {
            Instruction::Create { hash, .. } => Some(*hash),
            _ => None,
        })
        .collect();
    assert_eq!(created, vec![1, 2, 11, 12, 21]);
}

#[test]
fn attachment_carries_the_output_channel_of_the_child() {
    let mut child = leaf("split");
    child.output_channel = 3;
    let child_hash = child.hash;
    let parent = with_hash(9, "take", vec![child]);
    let mut handle = MainHandle::new();
    let batch = handle.reconcile(&vec![parent]);
    assert_eq!(
        batch[2],
        Instruction::AppendChild {
            parent: 9,
            child: child_hash,
            output_channel: 3
        }
    );
}

#[test]
fn mounted_identity_is_not_mounted_again_whatever_it_holds_now() {
    let mut handle = MainHandle::new();
    handle.reconcile(&vec![with_hash(7, "first", vec![leaf("a")])]);
    let batch = handle.reconcile(&vec![with_hash(7, "second", vec![leaf("b")])]);
    let b = leaf("b");
    assert_eq!(
        batch,
        vec![
            create(&b),
            Instruction::ActivateRoots { roots: vec![7] },
            Instruction::Commit,
        ]
    );
    let record = handle.record(7).unwrap();
    assert_eq!(record.kind(), "first");
    assert_eq!(record.children(), &vec![leaf("a").hash]);
}

#[test]
fn subtree_under_a_seen_identity_is_not_walked() {
    let mut handle = MainHandle::new();
    let batch = handle.reconcile(&vec![
        with_hash(1, "one", vec![with_hash(2, "two", vec![])]),
        with_hash(1, "one again", vec![with_hash(3, "three", vec![])]),
    ]);
    assert_eq!(
        batch,
        vec![
            Instruction::Create {
                hash: 1,
                kind: "one".to_string()
            },
            Instruction::Create {
                hash: 2,
                kind: "two".to_string()
            },
            Instruction::AppendChild {
                parent: 1,
                child: 2,
                output_channel: 0
            },
            Instruction::ActivateRoots { roots: vec![1, 1] },
            Instruction::Commit,
        ]
    );
    assert!(handle.record(3).is_none());
}

#[test]
fn properties_are_written_in_the_order_of_their_keys() {
    let mut props = serde_json::Map::new();
    props.insert("zeta".to_string(), Value::from(1));
    props.insert("alpha".to_string(), Value::from("a"));
    props.insert("mid".to_string(), Value::Bool(true));
    let node = create_node("filter", props, vec![]);
    let hash = node.hash;
    let mut handle = MainHandle::new();
    let batch = handle.reconcile(&vec![node]);
    assert_eq!(
        batch[1..4],
        [
            Instruction::SetProperty {
                hash,
                name: "alpha".to_string(),
                value: Value::from("a")
            },
            Instruction::SetProperty {
                hash,
                name: "mid".to_string(),
                value: Value::Bool(true)
            },
            Instruction::SetProperty {
                hash,
                name: "zeta".to_string(),
                value: Value::from(1)
            },
        ]
    );
}

#[test]
fn properties_are_written_again_though_they_did_not_change() {
    let mut handle = MainHandle::new();
    let first = handle.reconcile(&vec![number(5.0)]);
    let second = handle.reconcile(&vec![number(5.0)]);
    let node = number(5.0);
    assert_eq!(first.len(), 5);
    assert_eq!(
        second,
        vec![
            set(&node, "key", Value::Null),
            set(&node, "value", Value::from(5.0)),
            Instruction::ActivateRoots {
                roots: vec![node.hash]
            },
            Instruction::Commit,
        ]
    );
}

#[test]
fn records_are_kept_when_the_graph_changes() {
    let mut handle = MainHandle::new();
    handle.reconcile(&vec![tone()]);
    assert_eq!(handle.mounted(), 6);
    handle.reconcile(&vec![]);
    assert_eq!(handle.mounted(), 6);
    handle.reconcile(&vec![leaf("noise")]);
    assert_eq!(handle.mounted(), 7);
    let graph = tone();
    let record = handle.record(graph.hash).unwrap();
    assert_eq!(record.hash(), graph.hash);
    assert_eq!(record.kind(), "root");
    assert_eq!(record.children(), &vec![graph.children[0].hash]);
    assert!(handle.record(graph.hash.wrapping_add(1)).is_none());
}

#[test]
fn new_part_of_a_graph_is_mounted_beside_the_old() {
    let mut handle = MainHandle::new();
    handle.reconcile(&vec![sin(number(1.0))]);
    let bigger = mul2(sin(number(1.0)), number(2.0));
    let batch = handle.reconcile(&vec![mul2(sin(number(1.0)), number(2.0))]);
    let old = sin(number(1.0));
    let one = number(1.0);
    let two = number(2.0);
    assert_eq!(
        batch,
        vec![
            create(&bigger),
            create(&two),
            append(&bigger, &old),
            append(&bigger, &two),
            set(&two, "key", Value::Null),
            set(&two, "value", Value::from(2.0)),
            set(&one, "key", Value::Null),
            set(&one, "value", Value::from(1.0)),
            Instruction::ActivateRoots {
                roots: vec![bigger.hash]
            },
            Instruction::Commit,
        ]
    );
}
