//! What the runtime reports: it hands over the events that have queued up as one
//! JSON text, an array with one element for each event.

use crate::engine::MainHandle;
use crate::json::{json_as_array, json_elements, json_from_text, json_parsed, json_text, json_to_string};
use serde_json::Value;
use vstd::prelude::*;

verus! {

/// The texts of the events that a drained batch holds: one for each element where
/// the batch is an array, none where it is anything else.
pub open spec fn event_texts(batch: Value) -> Seq<Seq<char>> {
    match json_elements(batch) {
        Some(events) => Seq::new(events.len(), |i: int| json_text(events[i])),
        None => Seq::empty(),
    }
}

impl MainHandle {
    /// Reads what the runtime handed over when its queue of events was drained:
    /// the JSON value that the text holds, `None` where the text is not JSON.
    pub fn process_queued_events(drained: &str) -> (batch: Option<Value>)
        ensures
            batch == json_parsed(drained@),
    {
        match json_from_text(drained) {
            Ok(batch) => Some(batch),
            Err(_) => None,
        }
    }
}

/// The events of a drained batch, each as the text in which it is shown.
pub fn event_lines(batch: &Value) -> (lines: Vec<String>)
    ensures
        lines.deep_view() == event_texts(*batch),
{
    let mut lines: Vec<String> = Vec::new();
    match json_as_array(batch) {
        Some(events) => {
            let mut i: usize = 0;
            while i < events.len()
                invariant
                    i <= events.len(),
                    json_elements(*batch) == Some(events@),
                    lines.deep_view() == event_texts(*batch).take(i as int),
                decreases events.len() - i,
            {
                let ghost before = lines.deep_view();
                let line = json_to_string(&events[i]);
                lines.push(line);
                proof {
                    let all = event_texts(*batch);
                    assert(lines.deep_view() =~= before.push(line@));
                    assert(all.take(i + 1) == all.take(i as int).push(all[i as int]));
                }
                i += 1;
            }
            assert(event_texts(*batch).take(i as int) == event_texts(*batch));
        },
        None => {
            assert(lines.deep_view() =~= event_texts(*batch));
        },
    }
    lines
}

} // verus!
