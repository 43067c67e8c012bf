use shigan::codec::{load_document, save_document};
use shigan::errors::TrackerError;
use shigan::model::{ShiganConfig, Task};

#[test]
fn empty_input_is_first_use() {
    let d = load_document("").unwrap();
    assert!(d.current.is_none());
    assert!(d.subjects.is_empty());
    assert_eq!(save_document(&d), "{\"current\":null,\"subjects\":[]}");
}

#[test]
fn save_then_load_recovers_document() {
    let mut d = ShiganConfig::new_empty();
    d.add_task("reading").unwrap();
    d.add_task("writing").unwrap();
    d.start_task_at("reading", 100).unwrap();
    d.stop_task_at(100 + 125).unwrap();
    d.start_task_at("writing", 500).unwrap();
    let text = save_document(&d);
    let d2 = load_document(text.as_str()).unwrap();
    assert_eq!(d2.subjects.len(), 2);
    assert_eq!(d2.subjects[0].name, "reading");
    assert_eq!(d2.subjects[0].minutes, 2);
    assert_eq!(d2.subjects[0].sessions.len(), 1);
    assert_eq!(d2.subjects[0].sessions[0].duration, "0h 2m 5s");
    assert_eq!(d2.current.as_ref().unwrap().task, "writing");
    // saving the loaded document writes back the very same text
    assert_eq!(save_document(&d2), text);
}

#[test]
fn round_trip_keeps_several_sessions_in_order() {
    let mut d = ShiganConfig::new_empty();
    d.add_task("x").unwrap();
    d.start_task_at("x", 0).unwrap();
    d.stop_task_at(60).unwrap();
    d.start_task_at("x", 200).unwrap();
    d.stop_task_at(200 + 120).unwrap();
    let text = save_document(&d);
    let d2 = load_document(text.as_str()).unwrap();
    assert_eq!(d2.subjects[0].sessions.len(), 2);
    assert_eq!(d2.subjects[0].sessions[0].duration, "0h 1m 0s");
    assert_eq!(d2.subjects[0].sessions[1].duration, "0h 2m 0s");
    assert_eq!(d2.subjects[0].minutes, 3);
    assert_eq!(save_document(&d2), text);
}

#[test]
fn round_trip_survives_escaped_names() {
    let mut d = ShiganConfig::new_empty();
    d.add_task("a\"b\\c").unwrap();
    let text = save_document(&d);
    let d2 = load_document(text.as_str()).unwrap();
    assert!(d2.task_exists(&"a\"b\\c".to_string()));
    assert_eq!(save_document(&d2), text);
}

#[test]
fn round_trip_keeps_large_totals() {
    let d = ShiganConfig {
        current: None,
        subjects: vec![Task {
            name: "archive".to_string(),
            minutes: 1234567890,
            sessions: Vec::new(),
        }],
    };
    let text = save_document(&d);
    assert!(text.contains("\"durationInMinutes\":1234567890"));
    let d2 = load_document(text.as_str()).unwrap();
    assert_eq!(d2.subjects[0].minutes, 1234567890);
    assert_eq!(save_document(&d2), text);
}

#[test]
fn unparseable_text_is_corrupt() {
    assert!(matches!(load_document("nonsense"), Err(TrackerError::CorruptData)));
    assert!(matches!(load_document("{\"current\":null"), Err(TrackerError::CorruptData)));
    assert!(matches!(
        load_document("{\"current\":null,\"subjects\":[]}trailing"),
        Err(TrackerError::CorruptData)
    ));
    assert!(matches!(
        load_document("{\"current\":null,\"subjects\":[{\"task\":\"x\",\"durationInMinutes\":007,\"sessions\":[]}]}"),
        Err(TrackerError::CorruptData)
    ));
}

#[test]
fn saved_shape_is_the_documented_layout() {
    let mut d = ShiganConfig::new_empty();
    d.add_task("x").unwrap();
    d.start_task_at("x", 0).unwrap();
    d.stop_task_at(60).unwrap();
    d.start_task_at("x", 120).unwrap();
    let text = save_document(&d);
    let expected = "{\"current\":{\"task\":\"x\",\"session\":{\"started\":\"1970-01-01T00:02:00+00:00\"}},\"subjects\":[{\"task\":\"x\",\"durationInMinutes\":1,\"sessions\":[{\"started\":\"1970-01-01T00:00:00+00:00\",\"ended\":\"1970-01-01T00:01:00+00:00\",\"duration\":\"0h 1m 0s\"}]}]}";
    assert_eq!(text, expected);
}
