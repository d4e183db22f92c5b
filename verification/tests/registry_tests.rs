use model_discovery::entry::{ModelEntry, ModelKind};
use model_discovery::registry::ModelRegistry;

fn entry(id: &[u8], endpoint: &[u8], key: &[u8], kind: ModelKind, revision: u64) -> ModelEntry {
    ModelEntry {
        model_id: id.to_vec(),
        model_kind: kind,
        endpoint: endpoint.to_vec(),
        source_key: key.to_vec(),
        revision,
    }
}

#[test]
fn upsert_then_lookup() {
    let mut reg = ModelRegistry::new();
    reg.upsert(entry(b"m1", b"hostA", b"k1", ModelKind::Chat, 1));
    assert_eq!(reg.len(), 1);
    let live = reg.entries_for(&b"m1".to_vec(), ModelKind::Chat);
    assert_eq!(live.len(), 1);
    assert_eq!(live[0].endpoint, b"hostA".to_vec());
    assert_eq!(live[0].source_key, b"k1".to_vec());
}

#[test]
fn put_for_same_key_replaces() {
    let mut reg = ModelRegistry::new();
    reg.upsert(entry(b"m1", b"hostA", b"k1", ModelKind::Chat, 1));
    reg.upsert(entry(b"m1", b"hostB", b"k1", ModelKind::Chat, 2));
    assert_eq!(reg.len(), 1);
    let live = reg.entries_for(&b"m1".to_vec(), ModelKind::Chat);
    assert_eq!(live.len(), 1);
    assert_eq!(live[0].endpoint, b"hostB".to_vec());
    assert_eq!(live[0].revision, 2);
}

#[test]
fn delete_removes_exactly_the_key() {
    let mut reg = ModelRegistry::new();
    reg.upsert(entry(b"m1", b"hostA", b"k1", ModelKind::Chat, 1));
    reg.upsert(entry(b"m1", b"hostB", b"k2", ModelKind::Chat, 2));
    reg.remove(&b"k1".to_vec());
    let live = reg.entries_for(&b"m1".to_vec(), ModelKind::Chat);
    assert_eq!(live.len(), 1);
    assert_eq!(live[0].endpoint, b"hostB".to_vec());
}

#[test]
fn delete_for_absent_key_is_noop() {
    let mut reg = ModelRegistry::new();
    reg.upsert(entry(b"m1", b"hostA", b"k1", ModelKind::Chat, 1));
    assert_eq!(reg.len(), 1);
    reg.remove(&b"never-present".to_vec());
    assert_eq!(reg.len(), 1);
    let live = reg.entries_for(&b"m1".to_vec(), ModelKind::Chat);
    assert_eq!(live.len(), 1);
    assert_eq!(live[0].endpoint, b"hostA".to_vec());
}

#[test]
fn delete_on_empty_registry_is_noop() {
    let mut reg = ModelRegistry::new();
    reg.remove(&b"k1".to_vec());
    assert_eq!(reg.len(), 0);
}

#[test]
fn kinds_do_not_cross_contaminate() {
    let mut reg = ModelRegistry::new();
    reg.upsert(entry(b"m1", b"chat-host", b"chat/k1", ModelKind::Chat, 1));
    reg.upsert(entry(b"m1", b"comp-host", b"comp/k1", ModelKind::Completion, 2));
    let chat = reg.entries_for(&b"m1".to_vec(), ModelKind::Chat);
    assert_eq!(chat.len(), 1);
    assert_eq!(chat[0].endpoint, b"chat-host".to_vec());
    let comp = reg.entries_for(&b"m1".to_vec(), ModelKind::Completion);
    assert_eq!(comp.len(), 1);
    assert_eq!(comp[0].endpoint, b"comp-host".to_vec());
}

#[test]
fn replace_kind_installs_exactly_the_snapshot() {
    let mut reg = ModelRegistry::new();
    reg.upsert(entry(b"m1", b"hostA", b"chat/k1", ModelKind::Chat, 1));
    reg.upsert(entry(b"m2", b"hostB", b"chat/k2", ModelKind::Chat, 2));
    reg.upsert(entry(b"m1", b"hostC", b"comp/k3", ModelKind::Completion, 3));

    let snapshot = vec![entry(b"m2", b"hostD", b"chat/k4", ModelKind::Chat, 4)];
    reg.replace_kind(ModelKind::Chat, &snapshot);

    // the chat slice is exactly the snapshot
    assert_eq!(reg.len(), 2);
    assert_eq!(reg.entries_for(&b"m1".to_vec(), ModelKind::Chat).len(), 0);
    let m2 = reg.entries_for(&b"m2".to_vec(), ModelKind::Chat);
    assert_eq!(m2.len(), 1);
    assert_eq!(m2[0].endpoint, b"hostD".to_vec());
    assert_eq!(m2[0].source_key, b"chat/k4".to_vec());

    // the completion slice is untouched
    let comp = reg.entries_for(&b"m1".to_vec(), ModelKind::Completion);
    assert_eq!(comp.len(), 1);
    assert_eq!(comp[0].endpoint, b"hostC".to_vec());
}

#[test]
fn replace_kind_with_empty_snapshot_clears_the_kind() {
    let mut reg = ModelRegistry::new();
    reg.upsert(entry(b"m1", b"hostA", b"chat/k1", ModelKind::Chat, 1));
    reg.upsert(entry(b"m1", b"hostB", b"comp/k2", ModelKind::Completion, 2));
    let snapshot: Vec<ModelEntry> = Vec::new();
    reg.replace_kind(ModelKind::Chat, &snapshot);
    assert_eq!(reg.entries_for(&b"m1".to_vec(), ModelKind::Chat).len(), 0);
    assert_eq!(reg.entries_for(&b"m1".to_vec(), ModelKind::Completion).len(), 1);
}

#[test]
fn two_replicas_of_one_model_are_both_live() {
    let mut reg = ModelRegistry::new();
    reg.upsert(entry(b"m1", b"hostA", b"k1", ModelKind::Chat, 1));
    reg.upsert(entry(b"m1", b"hostB", b"k2", ModelKind::Chat, 2));
    let live = reg.entries_for(&b"m1".to_vec(), ModelKind::Chat);
    assert_eq!(live.len(), 2);
    assert_eq!(live[0].endpoint, b"hostA".to_vec());
    assert_eq!(live[1].endpoint, b"hostB".to_vec());
}
