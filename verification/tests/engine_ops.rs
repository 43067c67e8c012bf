use shigan::engine::{QueryFilter, TaskTotal};
use shigan::errors::TrackerError;
use shigan::model::{ActiveSession, ShiganConfig, Session, Task};

fn rows(d: &ShiganConfig) -> Vec<TaskTotal> {
    d.query(&QueryFilter::All).unwrap()
}

#[test]
fn add_registers_with_zero_total() {
    let mut d = ShiganConfig::new_empty();
    assert_eq!(d.add_task("reading"), Ok(()));
    assert_eq!(d.add_task("writing"), Ok(()));
    assert_eq!(d.add_task("chess"), Ok(()));
    let r = rows(&d);
    assert_eq!(r.len(), 3);
    for row in &r {
        assert_eq!(row.minutes, 0);
    }
    assert!(d.task_exists(&"reading".to_string()));
    assert!(d.task_exists(&"writing".to_string()));
    assert!(d.task_exists(&"chess".to_string()));
    assert!(!d.task_exists(&"piano".to_string()));
}

#[test]
fn add_normalizes_case() {
    let mut d = ShiganConfig::new_empty();
    assert_eq!(d.add_task("WriTing"), Ok(()));
    assert!(d.task_exists(&"writing".to_string()));
    assert!(!d.task_exists(&"WriTing".to_string()));
}

#[test]
fn add_duplicate_fails() {
    let mut d = ShiganConfig::new_empty();
    assert_eq!(d.add_task("maths"), Ok(()));
    assert_eq!(d.add_task("MATHS"), Err(TrackerError::TaskAlreadyExists));
    assert_eq!(rows(&d).len(), 1);
}

#[test]
fn start_unknown_task_fails() {
    let mut d = ShiganConfig::new_empty();
    assert_eq!(d.start_task_at("ghost", 100), Err(TrackerError::TaskNotFound));
    assert_eq!(d.current_task(), None);
}

#[test]
fn start_while_running_fails() {
    let mut d = ShiganConfig::new_empty();
    d.add_task("x").unwrap();
    d.add_task("y").unwrap();
    assert_eq!(d.start_task_at("x", 10), Ok(()));
    assert_eq!(d.start_task_at("y", 20), Err(TrackerError::SessionAlreadyActive));
    assert_eq!(d.current_task(), Some(&"x".to_string()));
}

#[test]
fn stop_without_active_fails() {
    let mut d = ShiganConfig::new_empty();
    d.add_task("x").unwrap();
    let before = shigan::codec::save_document(&d);
    assert_eq!(d.stop_task_at(5), Err(TrackerError::NoActiveSession));
    let after = shigan::codec::save_document(&d);
    assert_eq!(before, after);
}

#[test]
fn start_stop_records_one_session() {
    let mut d = ShiganConfig::new_empty();
    d.add_task("writing").unwrap();
    assert_eq!(d.start_task_at("writing", 0), Ok(()));
    let marker = d.current.as_ref().unwrap();
    assert_eq!(marker.task, "writing");
    assert_eq!(marker.started, "1970-01-01T00:00:00+00:00");
    assert_eq!(d.stop_task_at(90), Ok(()));
    assert!(d.current.is_none());
    assert_eq!(d.subjects.len(), 1);
    let t = &d.subjects[0];
    assert_eq!(t.minutes, 1);
    assert_eq!(t.sessions.len(), 1);
    let s = &t.sessions[0];
    assert_eq!(s.started, "1970-01-01T00:00:00+00:00");
    assert_eq!(s.ended, "1970-01-01T00:01:30+00:00");
    assert_eq!(s.duration, "0h 1m 30s");
}

#[test]
fn long_session_duration_breakdown() {
    let mut d = ShiganConfig::new_empty();
    d.add_task("deep work").unwrap();
    d.start_task_at("deep work", 1000).unwrap();
    assert_eq!(d.stop_task_at(1000 + 11705), Ok(()));
    let t = &d.subjects[0];
    assert_eq!(t.minutes, 195);
    assert_eq!(t.sessions[0].duration, "3h 15m 5s");
}

#[test]
fn totals_accumulate_across_sessions() {
    let mut d = ShiganConfig::new_empty();
    d.add_task("x").unwrap();
    d.start_task_at("x", 0).unwrap();
    d.stop_task_at(600).unwrap();
    d.start_task_at("x", 1000).unwrap();
    d.stop_task_at(1000 + 659).unwrap();
    let t = &d.subjects[0];
    assert_eq!(t.minutes, 10 + 10);
    assert_eq!(t.sessions.len(), 2);
}

#[test]
fn backwards_clock_yields_zero_length_session() {
    let mut d = ShiganConfig::new_empty();
    d.add_task("x").unwrap();
    d.start_task_at("x", 100).unwrap();
    assert_eq!(d.stop_task_at(50), Ok(()));
    let t = &d.subjects[0];
    assert_eq!(t.minutes, 0);
    assert_eq!(t.sessions.len(), 1);
    assert_eq!(t.sessions[0].duration, "0h 0m 0s");
    assert!(d.current.is_none());
}

#[test]
fn delete_active_task_fails() {
    let mut d = ShiganConfig::new_empty();
    d.add_task("x").unwrap();
    d.start_task_at("x", 10).unwrap();
    let before = shigan::codec::save_document(&d);
    assert_eq!(d.delete_task("x"), Err(TrackerError::TaskIsActive));
    assert_eq!(shigan::codec::save_document(&d), before);
    d.stop_task_at(20).unwrap();
    assert_eq!(d.delete_task("x"), Ok(()));
    assert!(!d.task_exists(&"x".to_string()));
}

#[test]
fn delete_unknown_task_fails() {
    let mut d = ShiganConfig::new_empty();
    assert_eq!(d.delete_task("nobody"), Err(TrackerError::TaskNotFound));
}

#[test]
fn stop_with_unregistered_marker_fails() {
    let mut d = ShiganConfig {
        current: Some(ActiveSession {
            task: "ghost".to_string(),
            started: "1970-01-01T00:00:00+00:00".to_string(),
        }),
        subjects: Vec::new(),
    };
    assert_eq!(d.stop_task_at(50), Err(TrackerError::TaskNotFound));
}

#[test]
fn stop_with_unparseable_start_fails() {
    let mut d = ShiganConfig {
        current: Some(ActiveSession {
            task: "x".to_string(),
            started: "yesterday-ish".to_string(),
        }),
        subjects: vec![Task { name: "x".to_string(), minutes: 7, sessions: Vec::new() }],
    };
    assert_eq!(d.stop_task_at(50), Err(TrackerError::CorruptData));
    assert_eq!(d.subjects[0].minutes, 7);
    assert!(d.current.is_some());
}

#[test]
fn query_named_unknown_fails() {
    let d = ShiganConfig::new_empty();
    assert!(matches!(
        d.query(&QueryFilter::Named("unknown".to_string())),
        Err(TrackerError::TaskNotFound)
    ));
}

#[test]
fn query_named_returns_single_total() {
    let mut d = ShiganConfig::new_empty();
    d.add_task("Piano").unwrap();
    d.start_task_at("piano", 0).unwrap();
    d.stop_task_at(3600).unwrap();
    let r = d.query(&QueryFilter::Named("PIANO".to_string())).unwrap();
    assert_eq!(r.len(), 1);
    assert_eq!(r[0].name, "piano");
    assert_eq!(r[0].minutes, 60);
}

#[test]
fn query_all_sorts_descending_stably() {
    let mut d = ShiganConfig::new_empty();
    d.add_task("a").unwrap();
    d.add_task("b").unwrap();
    d.add_task("c").unwrap();
    // a: 30 minutes, b: 50 minutes, c: 30 minutes
    d.start_task_at("a", 0).unwrap();
    d.stop_task_at(1800).unwrap();
    d.start_task_at("b", 2000).unwrap();
    d.stop_task_at(2000 + 3000).unwrap();
    d.start_task_at("c", 6000).unwrap();
    d.stop_task_at(6000 + 1800).unwrap();
    let r = rows(&d);
    assert_eq!(r.len(), 3);
    assert_eq!(r[0].name, "b");
    assert_eq!(r[0].minutes, 50);
    assert_eq!(r[1].name, "a");
    assert_eq!(r[1].minutes, 30);
    assert_eq!(r[2].name, "c");
    assert_eq!(r[2].minutes, 30);
}

#[test]
fn error_messages_are_fixed() {
    assert_eq!(TrackerError::TaskAlreadyExists.message(), "task already exists");
    assert_eq!(TrackerError::TaskNotFound.message(), "task not found");
    assert_eq!(TrackerError::TaskIsActive.message(), "cannot delete an ongoing task");
    assert_eq!(TrackerError::SessionAlreadyActive.message(), "there is an ongoing task");
    assert_eq!(TrackerError::NoActiveSession.message(), "there is no ongoing task");
    assert_eq!(TrackerError::CorruptData.message(), "stored data is corrupt");
    assert_eq!(TrackerError::IOError.message(), "could not access stored data");
}
