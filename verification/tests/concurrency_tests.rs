use std::sync::{Arc, RwLock};

use model_discovery::entry::{ModelEntry, ModelKind};
use model_discovery::registry::ModelRegistry;

fn entry(endpoint: &[u8], key: &[u8]) -> ModelEntry {
    ModelEntry {
        model_id: b"m1".to_vec(),
        model_kind: ModelKind::Chat,
        endpoint: endpoint.to_vec(),
        source_key: key.to_vec(),
        revision: 1,
    }
}

#[test]
fn readers_see_the_old_or_the_new_set_never_a_mix() {
    // a resync is one `replace_kind` call under the write lock, so a
    // reader holding the read lock sees either the whole pre-resync set
    // or the whole post-resync set
    let rt = tokio::runtime::Builder::new_multi_thread()
        .worker_threads(4)
        .build()
        .expect("runtime should build");
    rt.block_on(async {
        let mut reg = ModelRegistry::new();
        let snap_a = vec![entry(b"host-a1", b"ka1"), entry(b"host-a2", b"ka2")];
        let snap_b = vec![entry(b"host-b1", b"kb1"), entry(b"host-b2", b"kb2")];
        reg.replace_kind(ModelKind::Chat, &snap_a);
        let shared = Arc::new(RwLock::new(reg));

        let writer = {
            let shared = shared.clone();
            let snap_a = snap_a.clone();
            let snap_b = snap_b.clone();
            tokio::spawn(async move {
                for i in 0..500usize {
                    let snap = if i % 2 == 0 { &snap_b } else { &snap_a };
                    shared.write().unwrap().replace_kind(ModelKind::Chat, snap);
                    tokio::task::yield_now().await;
                }
            })
        };

        let mut readers = Vec::new();
        for _ in 0..4 {
            let shared = shared.clone();
            readers.push(tokio::spawn(async move {
                for _ in 0..2000usize {
                    let endpoints: Vec<Vec<u8>> = {
                        let guard = shared.read().unwrap();
                        guard
                            .entries_for(&b"m1".to_vec(), ModelKind::Chat)
                            .into_iter()
                            .map(|e| e.endpoint)
                            .collect()
                    };
                    let whole_a =
                        endpoints == vec![b"host-a1".to_vec(), b"host-a2".to_vec()];
                    let whole_b =
                        endpoints == vec![b"host-b1".to_vec(), b"host-b2".to_vec()];
                    assert!(
                        whole_a || whole_b,
                        "a concurrent reader saw a partial resync: {:?}",
                        endpoints
                    );
                    tokio::task::yield_now().await;
                }
            }));
        }

        writer.await.unwrap();
        for r in readers {
            r.await.unwrap();
        }
    });
}
