use model_discovery::entry::ModelKind;
use model_discovery::registry::ModelRegistry;
use model_discovery::watcher::{
    apply_event, apply_events, bootstrap, ModelWatcher, RegistrationEvent, SnapshotRecord,
    WatchAction, WatchInput, WatcherPhase,
};

fn record(key: &[u8], id: &[u8], endpoint: &[u8], revision: u64) -> SnapshotRecord {
    let mut value = b"model_id=".to_vec();
    value.extend_from_slice(id);
    value.extend_from_slice(b"\nendpoint=");
    value.extend_from_slice(endpoint);
    SnapshotRecord { key: key.to_vec(), value, revision }
}

fn put(key: &[u8], id: &[u8], endpoint: &[u8], revision: u64) -> RegistrationEvent {
    let mut value = b"model_id=".to_vec();
    value.extend_from_slice(id);
    value.extend_from_slice(b"\nendpoint=");
    value.extend_from_slice(endpoint);
    RegistrationEvent::Put { key: key.to_vec(), value, revision }
}

fn delete(key: &[u8], revision: u64) -> RegistrationEvent {
    RegistrationEvent::Delete { key: key.to_vec(), revision }
}

fn endpoints_for(reg: &ModelRegistry, id: &[u8], kind: ModelKind) -> Vec<Vec<u8>> {
    reg.entries_for(&id.to_vec(), kind).into_iter().map(|e| e.endpoint).collect()
}

#[test]
fn decode_failure_does_not_stop_later_events() {
    let mut reg = ModelRegistry::new();
    let events = vec![
        RegistrationEvent::Put {
            key: b"bad-key".to_vec(),
            value: b"not a registration".to_vec(),
            revision: 1,
        },
        put(b"good-key", b"m1", b"host-a", 2),
    ];
    apply_events(&mut reg, ModelKind::Chat, &events);
    let live = reg.entries_for(&b"m1".to_vec(), ModelKind::Chat);
    assert_eq!(live.len(), 1);
    assert_eq!(live[0].endpoint, b"host-a".to_vec());
    assert_eq!(live[0].source_key, b"good-key".to_vec());
}

#[test]
fn last_operation_per_key_wins() {
    let mut reg = ModelRegistry::new();
    let events = vec![
        put(b"k1", b"m1", b"host-a", 1),
        put(b"k1", b"m1", b"host-b", 2),
        put(b"k2", b"m1", b"host-c", 3),
        delete(b"k2", 4),
        put(b"k2", b"m1", b"host-d", 5),
        delete(b"k1", 6),
    ];
    apply_events(&mut reg, ModelKind::Chat, &events);
    assert_eq!(endpoints_for(&reg, b"m1", ModelKind::Chat), vec![b"host-d".to_vec()]);
}

#[test]
fn bootstrap_then_put_then_delete() {
    // the watcher bootstraps with one backend for m1, learns a second
    // one from the stream, then sees the first one deleted
    let mut reg = ModelRegistry::new();
    let mut watcher = ModelWatcher::new(ModelKind::Chat);
    assert_eq!(watcher.phase, WatcherPhase::Bootstrapping);

    let a = watcher.step(
        &mut reg,
        WatchInput::Snapshot(vec![record(b"k1", b"m1", b"hostA", 1)]),
    );
    assert_eq!(a, WatchAction::AwaitEvent);
    assert_eq!(watcher.phase, WatcherPhase::Watching);

    let a = watcher.step(&mut reg, WatchInput::Event(put(b"k2", b"m1", b"hostB", 2)));
    assert_eq!(a, WatchAction::AwaitEvent);
    assert_eq!(
        endpoints_for(&reg, b"m1", ModelKind::Chat),
        vec![b"hostA".to_vec(), b"hostB".to_vec()]
    );

    let a = watcher.step(&mut reg, WatchInput::Event(delete(b"k1", 3)));
    assert_eq!(a, WatchAction::AwaitEvent);
    assert_eq!(endpoints_for(&reg, b"m1", ModelKind::Chat), vec![b"hostB".to_vec()]);
}

#[test]
fn resync_after_stream_close_drops_stale_entries() {
    // the stream closes unexpectedly; the resync snapshot no longer
    // carries k1, so the post-resync state is not a union of old and new
    let mut reg = ModelRegistry::new();
    let mut watcher = ModelWatcher::new(ModelKind::Chat);
    watcher.step(
        &mut reg,
        WatchInput::Snapshot(vec![record(b"k1", b"m1", b"hostA", 1)]),
    );
    let a = watcher.step(&mut reg, WatchInput::Event(put(b"k2", b"m1", b"hostB", 2)));
    assert_eq!(a, WatchAction::AwaitEvent);

    let a = watcher.step(&mut reg, WatchInput::StreamClosed);
    assert_eq!(a, WatchAction::FetchSnapshot);
    assert_eq!(watcher.phase, WatcherPhase::Bootstrapping);
    // until the new snapshot lands, the last-known entries keep serving
    assert_eq!(reg.entries_for(&b"m1".to_vec(), ModelKind::Chat).len(), 2);

    let a = watcher.step(
        &mut reg,
        WatchInput::Snapshot(vec![record(b"k2", b"m1", b"hostB", 4)]),
    );
    assert_eq!(a, WatchAction::AwaitEvent);
    assert_eq!(endpoints_for(&reg, b"m1", ModelKind::Chat), vec![b"hostB".to_vec()]);
}

#[test]
fn terminal_failure_freezes_the_slice() {
    let mut reg = ModelRegistry::new();
    let mut watcher = ModelWatcher::new(ModelKind::Chat);
    watcher.step(
        &mut reg,
        WatchInput::Snapshot(vec![record(b"k1", b"m1", b"hostA", 1)]),
    );
    let a = watcher.step(&mut reg, WatchInput::StreamFailed);
    assert_eq!(a, WatchAction::ReportFailure);
    assert_eq!(watcher.phase, WatcherPhase::Terminated);
    // degraded, but still serving the last-known entry
    assert_eq!(endpoints_for(&reg, b"m1", ModelKind::Chat), vec![b"hostA".to_vec()]);
    // further inputs change nothing
    let a = watcher.step(&mut reg, WatchInput::Event(put(b"k2", b"m1", b"hostB", 2)));
    assert_eq!(a, WatchAction::ReportFailure);
    assert_eq!(reg.entries_for(&b"m1".to_vec(), ModelKind::Chat).len(), 1);
}

#[test]
fn cancellation_stops_event_processing() {
    let mut reg = ModelRegistry::new();
    let mut watcher = ModelWatcher::new(ModelKind::Chat);
    watcher.step(
        &mut reg,
        WatchInput::Snapshot(vec![record(b"k1", b"m1", b"hostA", 1)]),
    );
    let a = watcher.step(&mut reg, WatchInput::Cancel);
    assert_eq!(a, WatchAction::Stop);
    assert_eq!(watcher.phase, WatcherPhase::Cancelled);
    let a = watcher.step(&mut reg, WatchInput::Event(put(b"k2", b"m1", b"hostB", 2)));
    assert_eq!(a, WatchAction::Stop);
    assert_eq!(reg.entries_for(&b"m1".to_vec(), ModelKind::Chat).len(), 1);
}

#[test]
fn bootstrap_skips_undecodable_records() {
    let mut reg = ModelRegistry::new();
    let records = vec![
        record(b"k1", b"m1", b"hostA", 1),
        SnapshotRecord { key: b"k2".to_vec(), value: b"garbage".to_vec(), revision: 2 },
        record(b"k3", b"m1", b"hostC", 3),
    ];
    bootstrap(&mut reg, ModelKind::Chat, &records);
    assert_eq!(
        endpoints_for(&reg, b"m1", ModelKind::Chat),
        vec![b"hostA".to_vec(), b"hostC".to_vec()]
    );
}

#[test]
fn resync_touches_only_its_own_kind() {
    let mut reg = ModelRegistry::new();
    let mut chat = ModelWatcher::new(ModelKind::Chat);
    let mut comp = ModelWatcher::new(ModelKind::Completion);
    chat.step(
        &mut reg,
        WatchInput::Snapshot(vec![record(b"chat/k1", b"m1", b"chat-host", 1)]),
    );
    comp.step(
        &mut reg,
        WatchInput::Snapshot(vec![record(b"comp/k1", b"m1", b"comp-host", 2)]),
    );
    // the chat watcher resyncs to an empty prefix
    chat.step(&mut reg, WatchInput::StreamClosed);
    chat.step(&mut reg, WatchInput::Snapshot(Vec::new()));
    assert_eq!(reg.entries_for(&b"m1".to_vec(), ModelKind::Chat).len(), 0);
    assert_eq!(
        endpoints_for(&reg, b"m1", ModelKind::Completion),
        vec![b"comp-host".to_vec()]
    );
}

#[test]
fn put_to_a_watcher_of_another_kind_stays_separate() {
    let mut reg = ModelRegistry::new();
    let mut chat = ModelWatcher::new(ModelKind::Chat);
    chat.step(&mut reg, WatchInput::Snapshot(Vec::new()));
    apply_event(&mut reg, ModelKind::Completion, &put(b"comp/k1", b"m1", b"comp-host", 1));
    chat.step(&mut reg, WatchInput::Event(put(b"chat/k1", b"m1", b"chat-host", 2)));
    assert_eq!(endpoints_for(&reg, b"m1", ModelKind::Chat), vec![b"chat-host".to_vec()]);
    assert_eq!(
        endpoints_for(&reg, b"m1", ModelKind::Completion),
        vec![b"comp-host".to_vec()]
    );
}
