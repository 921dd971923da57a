use herbalist::watcher::{ChangeEvent, ChangeKind, Debouncer, WatchStep, DEBOUNCE_MS};

fn event(kind: ChangeKind, paths: &[&str]) -> Option<ChangeEvent> {
    Some(ChangeEvent {
        kind,
        paths: paths.iter().map(|p| p.to_string()).collect(),
    })
}

fn handled(step: WatchStep) -> Vec<String> {
    match step {
        WatchStep::Handle { files } => files,
        other => panic!("{:?}", other),
    }
}

#[test]
fn changes_are_collected_for_half_a_second() {
    let mut d = Debouncer::new();
    assert!(matches!(d.poll(0), WatchStep::Wait));
    d.received(1000, &event(ChangeKind::Modify, &["/v/a.md"]));
    assert!(matches!(d.poll(1000), WatchStep::WaitAtMost { ms: 500 }));
    d.received(1400, &event(ChangeKind::Create, &["/v/b.md", "/v/a.md"]));
    assert!(matches!(d.poll(1450), WatchStep::WaitAtMost { ms: 50 }));
    assert_eq!(handled(d.poll(1500)), vec!["/v/a.md", "/v/b.md"]);
    assert!(matches!(d.poll(1501), WatchStep::Wait));
    assert_eq!(DEBOUNCE_MS, 500);
}

#[test]
fn a_timeout_ends_the_wait() {
    let mut d = Debouncer::new();
    d.received(0, &event(ChangeKind::Remove, &["/v/a.md"]));
    assert_eq!(handled(d.close()), vec!["/v/a.md"]);
    assert!(matches!(d.close(), WatchStep::Wait));
}

#[test]
fn nothing_to_handle() {
    let mut d = Debouncer::new();
    d.received(0, &event(ChangeKind::Other, &["/v/a.md"]));
    d.received(1, &event(ChangeKind::Modify, &["/v/a.txt", "/v/A.MD", "/v/md"]));
    d.received(2, &None);
    assert!(matches!(d.poll(499), WatchStep::WaitAtMost { ms: 1 }));
    assert!(matches!(d.poll(500), WatchStep::Wait));
    assert!(matches!(d.poll(501), WatchStep::Wait));
}

#[test]
fn each_note_is_handled_once() {
    let mut d = Debouncer::new();
    for kind in [ChangeKind::Create, ChangeKind::Modify, ChangeKind::Remove] {
        d.received(7, &event(kind, &["/v/a.md", "/v/x/b.md", "/v/a.md"]));
    }
    assert_eq!(handled(d.close()), vec!["/v/a.md", "/v/x/b.md"]);
}

#[test]
fn the_clock_may_end() {
    let mut d = Debouncer::new();
    d.received(u64::MAX - 1, &event(ChangeKind::Create, &["/v/a.md"]));
    assert!(matches!(d.poll(u64::MAX - 1), WatchStep::WaitAtMost { ms: 1 }));
    assert_eq!(handled(d.poll(u64::MAX)), vec!["/v/a.md"]);
}
