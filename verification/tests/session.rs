use elem::node::create_node;
use elem::server::UnresolvedDirective;
use elem::session::{on_frame, refusal, Frame, Step};

#[test]
fn text_with_a_directive_is_rendered() {
    let directive = UnresolvedDirective {
        graph: Some(vec![create_node("sin", serde_json::Map::new(), vec![])]),
        resources: Some(vec![("kick".to_string(), "kick.wav".to_string())]),
    };
    match on_frame(Frame::Text {
        directive: Some(directive),
    }) {
        Step::Render { directive } => {
            assert_eq!(
                directive.graph,
                Some(vec![create_node("sin", serde_json::Map::new(), vec![])])
            );
            assert_eq!(
                directive.resources,
                Some(vec![("kick".to_string(), "kick.wav".to_string())])
            );
        }
        Step::Refuse => panic!("a text frame is not refused"),
    }
}

#[test]
fn text_without_a_directive_counts_as_the_empty_directive() {
    match on_frame(Frame::Text { directive: None }) {
        Step::Render { directive } => {
            assert!(directive.graph.is_none());
            assert!(directive.resources.is_none());
        }
        Step::Refuse => panic!("a text frame is not refused"),
    }
}

#[test]
fn frame_that_is_no_text_is_refused() {
    assert!(matches!(on_frame(Frame::Other), Step::Refuse));
    assert_eq!(refusal(), "No thanks");
}
