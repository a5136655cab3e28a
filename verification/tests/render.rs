use elem::audio::AudioBuffer;
use elem::engine::{Directive, MainHandle, RuntimeCall};
use elem::instruction::Instruction;
use elem::node::{create_node, NodeRepr};
use elem::server::{resolve_directive, UnresolvedDirective};
use elem::session::{on_frame, Frame, Step};
use serde_json::Value;

fn sampler(name: &str) -> NodeRepr {
    let mut props = serde_json::Map::new();
    props.insert("path".to_string(), Value::from(name));
    create_node("sample", props, vec![])
}

fn buffer(data: Vec<i16>) -> AudioBuffer<i16> {
    AudioBuffer {
        frames: data.len(),
        data,
        channels: 1,
    }
}

#[test]
fn resources_are_registered_before_the_graph_is_applied() {
    let mut handle = MainHandle::new();
    let calls = handle.render(Directive {
        graph: Some(vec![sampler("kick"), sampler("snare")]),
        resources: Some(vec![
            ("kick".to_string(), buffer(vec![1, 2, 3])),
            ("snare".to_string(), buffer(vec![4])),
        ]),
    });
    assert_eq!(calls.len(), 3);
    match &calls[0] {
        RuntimeCall::AddSharedResource { name, buffer } => {
            assert_eq!(name, "kick");
            assert_eq!(buffer.data, vec![1, 2, 3]);
            assert_eq!((buffer.channels, buffer.frames), (1, 3));
        }
        _ => panic!("the first call registers the first resource"),
    }
    match &calls[1] {
        RuntimeCall::AddSharedResource { name, buffer } => {
            assert_eq!(name, "snare");
            assert_eq!(buffer.data, vec![4]);
        }
        _ => panic!("the second call registers the second resource"),
    }
    match &calls[2] {
        RuntimeCall::ApplyInstructions { batch } => {
            let kick = sampler("kick");
            let snare = sampler("snare");
            assert_eq!(
                batch,
                &vec![
                    Instruction::Create {
                        hash: kick.hash,
                        kind: "sample".to_string()
                    },
                    Instruction::Create {
                        hash: snare.hash,
                        kind: "sample".to_string()
                    },
                    Instruction::SetProperty {
                        hash: kick.hash,
                        name: "path".to_string(),
                        value: Value::from("kick")
                    },
                    Instruction::SetProperty {
                        hash: snare.hash,
                        name: "path".to_string(),
                        value: Value::from("snare")
                    },
                    Instruction::ActivateRoots {
                        roots: vec![kick.hash, snare.hash]
                    },
                    Instruction::Commit,
                ]
            );
        }
        _ => panic!("the last call applies the batch"),
    }
    assert_eq!(handle.mounted(), 2);
}

#[test]
fn directive_without_graph_registers_its_resources_only() {
    let mut handle = MainHandle::new();
    let calls = handle.render(Directive {
        graph: None,
        resources: Some(vec![("kick".to_string(), buffer(vec![1]))]),
    });
    assert_eq!(calls.len(), 1);
    assert!(matches!(
        &calls[0],
        RuntimeCall::AddSharedResource { name, .. } if name == "kick"
    ));
    assert_eq!(handle.mounted(), 0);
}

#[test]
fn directive_without_resources_applies_its_graph_only() {
    let mut handle = MainHandle::new();
    let calls = handle.render(Directive::<i16> {
        graph: Some(vec![]),
        resources: None,
    });
    assert_eq!(calls.len(), 1);
    match &calls[0] {
        RuntimeCall::ApplyInstructions { batch } => assert_eq!(
            batch,
            &vec![
                Instruction::ActivateRoots { roots: vec![] },
                Instruction::Commit
            ]
        ),
        _ => panic!("the call applies the batch"),
    }
}

#[test]
fn empty_directive_asks_nothing_of_the_runtime() {
    let mut handle = MainHandle::new();
    handle.render(Directive::<i16> {
        graph: Some(vec![sampler("kick")]),
        resources: None,
    });
    let calls = handle.render(Directive::<i16> {
        graph: None,
        resources: None,
    });
    assert_eq!(calls.len(), 0);
    assert_eq!(handle.mounted(), 1);
}

#[test]
fn renderings_follow_each_other_on_one_handle() {
    let mut handle = MainHandle::new();
    let first = handle.render(Directive::<i16> {
        graph: Some(vec![sampler("kick")]),
        resources: None,
    });
    let second = handle.render(Directive::<i16> {
        graph: Some(vec![sampler("kick"), sampler("snare")]),
        resources: None,
    });
    let first = match &first[0] {
        RuntimeCall::ApplyInstructions { batch } => batch,
        _ => panic!("the call applies the batch"),
    };
    let second = match &second[0] {
        RuntimeCall::ApplyInstructions { batch } => batch,
        _ => panic!("the call applies the batch"),
    };
    assert_eq!(first.len(), 4);
    assert_eq!(first.last(), Some(&Instruction::Commit));
    assert_eq!(
        second[0],
        Instruction::Create {
            hash: sampler("snare").hash,
            kind: "sample".to_string()
        }
    );
    assert_eq!(second.len(), 5);
    assert_eq!(second.last(), Some(&Instruction::Commit));
}

#[test]
fn malformed_text_renders_to_nothing() {
    let mut handle = MainHandle::new();
    let directive = match on_frame(Frame::Text { directive: None }) {
        Step::Render { directive } => directive,
        Step::Refuse => UnresolvedDirective::default(),
    };
    let resolved = resolve_directive(directive, &vec![], &|x: i32, _bits: u16| x as i16);
    let calls = handle.render(resolved);
    assert_eq!(calls.len(), 0);
}
