use elem::engine::MainHandle;
use elem::instruction::Instruction;
use elem::node::{create_node, NodeRepr};
use elem::wire::{batch_to_json, batch_to_text};
use serde_json::Value;

#[test]
fn create_is_opcode_identity_kind() {
    let json = Instruction::Create {
        hash: -7,
        kind: "sin".to_string(),
    }
    .to_json();
    assert_eq!(json.to_string(), "[0,-7,\"sin\"]");
}

#[test]
fn append_child_is_opcode_parent_child_channel() {
    let json = Instruction::AppendChild {
        parent: 2147483647,
        child: -2147483648,
        output_channel: 4294967295,
    }
    .to_json();
    assert_eq!(json.to_string(), "[2,2147483647,-2147483648,4294967295]");
}

#[test]
fn set_property_is_opcode_identity_name_value() {
    let json = Instruction::SetProperty {
        hash: 12,
        name: "channel".to_string(),
        value: Value::from(0.0),
    }
    .to_json();
    assert_eq!(json.to_string(), "[3,12,\"channel\",0.0]");
    let mut object = serde_json::Map::new();
    object.insert("a".to_string(), Value::Null);
    let nested = Instruction::SetProperty {
        hash: 12,
        name: "seq".to_string(),
        value: Value::Array(vec![Value::Bool(true), Value::Object(object)]),
    }
    .to_json();
    assert_eq!(nested.to_string(), "[3,12,\"seq\",[true,{\"a\":null}]]");
}

#[test]
fn activate_roots_is_opcode_and_the_list() {
    let json = Instruction::ActivateRoots {
        roots: vec![3, -1, 3],
    }
    .to_json();
    assert_eq!(json.to_string(), "[4,[3,-1,3]]");
    let none = Instruction::ActivateRoots { roots: vec![] }.to_json();
    assert_eq!(none.to_string(), "[4,[]]");
}

#[test]
fn commit_is_its_opcode_alone() {
    assert_eq!(Instruction::Commit.to_json().to_string(), "[5]");
}

#[test]
fn json_of_an_instruction_is_an_array_of_json_values() {
    let json = Instruction::Create {
        hash: 1,
        kind: "k".to_string(),
    }
    .to_json();
    assert_eq!(
        json,
        Value::Array(vec![Value::from(0), Value::from(1), Value::from("k")])
    );
}

#[test]
fn batch_is_the_array_of_its_instructions() {
    let batch = vec![
        Instruction::Create {
            hash: 1,
            kind: "a \"b\"".to_string(),
        },
        Instruction::Commit,
    ];
    assert_eq!(
        batch_to_json(&batch),
        Value::Array(vec![
            Value::Array(vec![Value::from(0), Value::from(1), Value::from("a \"b\"")]),
            Value::Array(vec![Value::from(5)]),
        ])
    );
    assert_eq!(batch_to_text(&batch), "[[0,1,\"a \\\"b\\\"\"],[5]]");
}

#[test]
fn empty_batch_is_the_empty_array() {
    assert_eq!(batch_to_text(&vec![]), "[]");
}

#[test]
fn text_of_the_empty_graph() {
    let mut handle = MainHandle::new();
    let batch = handle.reconcile(&vec![]);
    assert_eq!(batch_to_text(&batch), "[[4,[]],[5]]");
}

fn half() -> NodeRepr {
    let mut props = serde_json::Map::new();
    props.insert("value".to_string(), Value::from(1.5));
    create_node("const", props, vec![])
}

#[test]
fn text_of_a_first_mount() {
    let mut handle = MainHandle::new();
    let batch = handle.reconcile(&vec![create_node("sin", serde_json::Map::new(), vec![half()])]);
    let outer = create_node("sin", serde_json::Map::new(), vec![half()]).hash;
    let inner = half().hash;
    assert_eq!(
        batch_to_text(&batch),
        format!(
            "[[0,{outer},\"sin\"],[0,{inner},\"const\"],[2,{outer},{inner},0],[3,{inner},\"value\",1.5],[4,[{outer}]],[5]]"
        )
    );
}
