//! What a session does with what a client sends. The session itself, which waits
//! for frames and sends the replies, is not here.

use crate::server::UnresolvedDirective;
use vstd::prelude::*;

verus! {

/// A frame that a client sent.
pub enum Frame {
    /// A text frame, with the directive that its text holds; `None` where the
    /// text holds none.
    Text { directive: Option<UnresolvedDirective> },
    /// Any other frame.
    Other,
}

/// What a session does with a frame.
pub enum Step {
    /// Resolve and render the directive, then send the frame back.
    Render { directive: UnresolvedDirective },
    /// Answer with the refusal.
    Refuse,
}

/// Decides what to do with a frame. A text that holds no directive counts as the
/// empty directive: it is rendered, which changes nothing, and sent back like any
/// other. A frame that is no text is refused.
pub fn on_frame(frame: Frame) -> (step: Step)
    ensures
        match frame {
            Frame::Text { directive: Some(directive) } => step == (Step::Render { directive }),
            Frame::Text { directive: None } => step matches Step::Render { directive }
                && directive.graph is None && directive.resources is None,
            Frame::Other => step is Refuse,
        },
{
    match frame {
        Frame::Text { directive: Some(directive) } => Step::Render { directive },
        Frame::Text { directive: None } => Step::Render { directive: UnresolvedDirective::default() },
        Frame::Other => Step::Refuse,
    }
}

/// The text with which a session answers a frame that it refuses.
pub fn refusal() -> (text: &'static str)
    ensures
        text@ == "No thanks"@,
{
    "No thanks"
}

} // verus!
