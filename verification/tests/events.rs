use elem::engine::MainHandle;
use elem::events::event_lines;
use serde_json::Value;

#[test]
fn drained_text_is_read_as_json() {
    let batch = MainHandle::process_queued_events("[{\"type\":\"meter\",\"max\":0.5},12]");
    let batch = batch.unwrap();
    let items = batch.as_array().unwrap();
    assert_eq!(items.len(), 2);
    assert_eq!(items[0]["type"], Value::from("meter"));
    assert_eq!(items[1], Value::from(12));
}

#[test]
fn text_that_is_not_json_gives_none() {
    assert!(MainHandle::process_queued_events("[1,").is_none());
    assert!(MainHandle::process_queued_events("").is_none());
    assert!(MainHandle::process_queued_events("[] []").is_none());
}

#[test]
fn each_event_becomes_a_line() {
    let batch =
        MainHandle::process_queued_events(" [ {\"b\": 1, \"a\": [true, null]}, \"x\", 2.50 ] ")
            .unwrap();
    assert_eq!(
        event_lines(&batch),
        vec![
            "{\"a\":[true,null],\"b\":1}".to_string(),
            "\"x\"".to_string(),
            "2.5".to_string()
        ]
    );
}

#[test]
fn empty_queue_gives_no_line() {
    let batch = MainHandle::process_queued_events("[]").unwrap();
    assert_eq!(event_lines(&batch), Vec::<String>::new());
}

#[test]
fn batch_that_is_no_array_gives_no_line() {
    let object = MainHandle::process_queued_events("{\"a\":1}").unwrap();
    assert_eq!(event_lines(&object), Vec::<String>::new());
    assert_eq!(event_lines(&Value::Null), Vec::<String>::new());
    assert_eq!(event_lines(&Value::from("[1]")), Vec::<String>::new());
}
