use rune_core::reload::{ReloadConfig, ReloadEvent, ReloadResult};
use rune_core::watcher::{ChangeKind, EventDebouncer, FileChangeEvent};

const DEBOUNCE_100_MS: u64 = 100_000_000;

#[test]
fn test_change_kind_equality() {
    assert_eq!(ChangeKind::Created, ChangeKind::Created);
    assert_eq!(ChangeKind::Modified, ChangeKind::Modified);
    assert_eq!(ChangeKind::Removed, ChangeKind::Removed);
    assert_ne!(ChangeKind::Created, ChangeKind::Modified);
}

#[test]
fn test_file_change_event_clone() {
    let event = FileChangeEvent { path: "test.rune".to_string(), kind: ChangeKind::Modified, timestamp: 0 };

    let cloned = event.clone();
    assert_eq!(event.path, cloned.path);
    assert_eq!(event.kind, cloned.kind);
}

#[test]
fn test_debouncer_clear() {
    let mut debouncer = EventDebouncer::new(DEBOUNCE_100_MS);

    let event = FileChangeEvent { path: "test.rune".to_string(), kind: ChangeKind::Modified, timestamp: 0 };

    debouncer.add_event(event);
    assert!(debouncer.has_pending());

    debouncer.clear();
    assert!(!debouncer.has_pending());
    assert_eq!(debouncer.get_settled_events().len(), 0);
}

#[test]
fn test_debouncer_no_pending_initially() {
    let debouncer = EventDebouncer::new(DEBOUNCE_100_MS);
    assert!(!debouncer.has_pending());
    assert_eq!(debouncer.pending_count(), 0);
    assert_eq!(debouncer.timed_count(), 0);
}

#[test]
fn debouncer_releases_only_settled_latest_events() {
    let mut debouncer = EventDebouncer::new(100);
    debouncer.add_event_at(FileChangeEvent { path: "a.rune".to_string(), kind: ChangeKind::Created, timestamp: 1 }, 1_000);
    debouncer.add_event_at(FileChangeEvent { path: "b.rune".to_string(), kind: ChangeKind::Created, timestamp: 2 }, 1_050);
    debouncer.add_event_at(FileChangeEvent { path: "a.rune".to_string(), kind: ChangeKind::Modified, timestamp: 3 }, 1_020);
    // at 1_120 only "a.rune" (last seen at 1_020) has been quiet for 100
    let settled = debouncer.settled_at(1_120);
    assert_eq!(settled.len(), 1);
    assert_eq!(settled[0].path, "a.rune");
    assert_eq!(settled[0].kind, ChangeKind::Modified);
    assert!(debouncer.has_pending());
    let later = debouncer.settled_at(1_200);
    assert_eq!(later.len(), 1);
    assert_eq!(later[0].path, "b.rune");
    assert!(!debouncer.has_pending());
}

#[test]
fn test_debouncer() {
    let mut debouncer = EventDebouncer::new(DEBOUNCE_100_MS);

    let event = FileChangeEvent { path: "test.rune".to_string(), kind: ChangeKind::Modified, timestamp: 0 };

    debouncer.add_event_at(event.clone(), 0);
    assert!(debouncer.has_pending());

    // Immediately checking should return nothing
    assert_eq!(debouncer.settled_at(0).len(), 0);

    // After waiting, should get the event
    let settled = debouncer.settled_at(150_000_000);
    assert_eq!(settled.len(), 1);
    assert_eq!(settled[0].path, event.path);

    // Should be empty now
    assert!(!debouncer.has_pending());
}

#[test]
fn test_debouncer_multiple_events() {
    let mut debouncer = EventDebouncer::new(DEBOUNCE_100_MS);

    let event1 = FileChangeEvent { path: "test1.rune".to_string(), kind: ChangeKind::Modified, timestamp: 0 };
    let event2 = FileChangeEvent { path: "test2.rune".to_string(), kind: ChangeKind::Created, timestamp: 0 };

    debouncer.add_event_at(event1, 0);
    debouncer.add_event_at(event2, 0);
    assert!(debouncer.has_pending());

    let settled = debouncer.settled_at(150_000_000);
    assert_eq!(settled.len(), 2);
}

#[test]
fn test_debouncer_overwrite_event() {
    let mut debouncer = EventDebouncer::new(200_000_000);

    let event1 = FileChangeEvent { path: "test.rune".to_string(), kind: ChangeKind::Created, timestamp: 0 };
    let event2 = FileChangeEvent { path: "test.rune".to_string(), kind: ChangeKind::Modified, timestamp: 0 };

    debouncer.add_event_at(event1, 0);
    // 50 ms later the second event resets the timer
    debouncer.add_event_at(event2, 50_000_000);

    // 100 ms after the second event: not settled yet
    assert_eq!(debouncer.settled_at(150_000_000).len(), 0);

    // 250 ms after the second event
    let settled = debouncer.settled_at(300_000_000);
    assert_eq!(settled.len(), 1);
    assert_eq!(settled[0].kind, ChangeKind::Modified);
}

#[test]
fn reload_config_defaults_and_results() {
    let c = ReloadConfig::default();
    assert_eq!(c.debounce_duration_ns, 500_000_000);
    assert_eq!(c.max_retry_attempts, 3);
    assert_eq!(c.retry_delay_ns, 1_000_000_000);
    assert!(c.auto_reload && c.reloads_on_change());
    let e = ReloadEvent { path: "a.rune".to_string(), result: ReloadResult::Failed("x".to_string()), timestamp: 1 };
    assert_eq!(e.clone().result, ReloadResult::Failed("x".to_string()));
    assert_ne!(ReloadResult::Success, ReloadResult::Skipped(String::new()));
}
