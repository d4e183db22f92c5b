//! The model watcher: one logical subscription to one key prefix for one
//! model kind, translated into registry mutations.
//!
//! The watcher is a state machine driven by the caller's event loop.
//! The caller performs the store work — fetching snapshots, awaiting the
//! next stream notification — and hands each outcome to
//! [`ModelWatcher::step`], which applies it to the registry and says
//! what to do next.  All decisions and all registry mutations stand
//! here; only the store I/O stays with the caller.

use vstd::prelude::*;

use crate::decode::{decode_record, decoded_entry};
use crate::entry::{EntryModel, ModelEntry, ModelKind};
use crate::registry::{has_key, unique_keys, views_of, ModelRegistry};

verus! {

/// One record of a prefix snapshot: a key under the prefix, its current
/// value, and the revision it was observed at.
pub struct SnapshotRecord {
    pub key: Vec<u8>,
    pub value: Vec<u8>,
    pub revision: u64,
}

/// Mathematical model of a snapshot record.
pub ghost struct RecordModel {
    pub key: Seq<u8>,
    pub value: Seq<u8>,
    pub revision: u64,
}

impl View for SnapshotRecord {
    type V = RecordModel;

    open spec fn view(&self) -> RecordModel {
        RecordModel { key: self.key@, value: self.value@, revision: self.revision }
    }
}

/// The views of a sequence of snapshot records.
pub open spec fn record_views(s: Seq<SnapshotRecord>) -> Seq<RecordModel> {
    s.map_values(|r: SnapshotRecord| r@)
}

/// A store's snapshot names each key once.
pub open spec fn record_keys_unique(s: Seq<RecordModel>) -> bool {
    forall|i: int, j: int| 0 <= i < j < s.len() ==> s[i].key != s[j].key
}

/// One notification from the watched prefix: a put of a key's current
/// value, or a delete of a key.
pub enum RegistrationEvent {
    Put { key: Vec<u8>, value: Vec<u8>, revision: u64 },
    Delete { key: Vec<u8>, revision: u64 },
}

/// Mathematical model of a registration event.
pub ghost enum EventModel {
    Put { key: Seq<u8>, value: Seq<u8>, revision: u64 },
    Delete { key: Seq<u8>, revision: u64 },
}

impl View for RegistrationEvent {
    type V = EventModel;

    open spec fn view(&self) -> EventModel {
        match self {
            RegistrationEvent::Put { key, value, revision } => EventModel::Put {
                key: key@,
                value: value@,
                revision: *revision,
            },
            RegistrationEvent::Delete { key, revision } => EventModel::Delete {
                key: key@,
                revision: *revision,
            },
        }
    }
}

/// The views of a sequence of events.
pub open spec fn event_views(s: Seq<RegistrationEvent>) -> Seq<EventModel> {
    s.map_values(|e: RegistrationEvent| e@)
}

/// What one event, observed by the watcher of `kind`, does to the
/// registry's map: a put that decodes replaces the entry under its key,
/// a put that fails to decode is skipped, a delete removes the key.
pub open spec fn apply_event_spec(
    m: Map<Seq<u8>, EntryModel>,
    kind: ModelKind,
    ev: EventModel,
) -> Map<Seq<u8>, EntryModel> {
    match ev {
        EventModel::Put { key, value, revision } => match decoded_entry(
            kind,
            key,
            value,
            revision,
        ) {
            Some(e) => m.insert(key, e),
            None => m,
        },
        EventModel::Delete { key, revision } => m.remove(key),
    }
}

/// A sequence of events folded over the registry's map in delivery
/// order.
pub open spec fn apply_events_spec(
    m: Map<Seq<u8>, EntryModel>,
    kind: ModelKind,
    evs: Seq<EventModel>,
) -> Map<Seq<u8>, EntryModel>
    decreases evs.len(),
{
    if evs.len() == 0 {
        m
    } else {
        apply_event_spec(apply_events_spec(m, kind, evs.drop_last()), kind, evs.last())
    }
}

/// The entries a snapshot decodes to, in record order; a record whose
/// payload fails to decode yields no entry and aborts nothing.
pub open spec fn snapshot_entries(kind: ModelKind, records: Seq<RecordModel>) -> Seq<EntryModel>
    decreases records.len(),
{
    if records.len() == 0 {
        Seq::empty()
    } else {
        let prefix = snapshot_entries(kind, records.drop_last());
        let r = records.last();
        match decoded_entry(kind, r.key, r.value, r.revision) {
            Some(e) => prefix.push(e),
            None => prefix,
        }
    }
}

/// Entries decoded from a snapshot carry the watching kind and their
/// record's key; unique record keys give unique entry keys.
pub proof fn lemma_snapshot_entries_wf(kind: ModelKind, records: Seq<RecordModel>)
    ensures
        forall|j: int|
            0 <= j < snapshot_entries(kind, records).len() ==> (#[trigger] snapshot_entries(
                kind,
                records,
            )[j]).model_kind == kind,
        forall|j: int|
            0 <= j < snapshot_entries(kind, records).len() ==> exists|i: int|
                0 <= i < records.len() && records[i].key == (#[trigger] snapshot_entries(
                    kind,
                    records,
                )[j]).source_key,
        record_keys_unique(records) ==> unique_keys(snapshot_entries(kind, records)),
    decreases records.len(),
{
    if records.len() > 0 {
        lemma_snapshot_entries_wf(kind, records.drop_last());
        let prefix = snapshot_entries(kind, records.drop_last());
        let s = snapshot_entries(kind, records);
        assert forall|j: int| 0 <= j < s.len() implies (#[trigger] s[j]).model_kind == kind
            && exists|i: int| 0 <= i < records.len() && records[i].key == s[j].source_key by {
            if j < prefix.len() {
                assert(s[j] == prefix[j]);
                let i = choose|i: int|
                    0 <= i < records.drop_last().len() && records.drop_last()[i].key
                        == prefix[j].source_key;
                assert(records[i].key == s[j].source_key);
            } else {
                assert(s[j].source_key == records.last().key);
                assert(records[records.len() - 1].key == s[j].source_key);
            }
        }
        if record_keys_unique(records) {
            assert(record_keys_unique(records.drop_last()));
            assert forall|a: int, b: int| 0 <= a < b < s.len() implies s[a].source_key
                != s[b].source_key by {
                if b < prefix.len() {
                } else {
                    assert(b == prefix.len() && s[b].source_key == records.last().key);
                    let i = choose|i: int|
                        0 <= i < records.drop_last().len() && records.drop_last()[i].key
                            == prefix[a].source_key;
                    assert(records[i].key != records[records.len() - 1].key);
                }
            }
        }
    }
}

/// What a resync of `kind` with snapshot `snap` leaves in the map: the
/// snapshot's entries under their keys, the other kinds' entries
/// untouched, and nothing else.
pub open spec fn resync_spec(
    m: Map<Seq<u8>, EntryModel>,
    kind: ModelKind,
    snap: Seq<EntryModel>,
) -> Map<Seq<u8>, EntryModel> {
    Map::new(
        |k: Seq<u8>|
            has_key(snap, k) || (m.dom().contains(k) && m[k].model_kind != kind && !has_key(
                snap,
                k,
            )),
        |k: Seq<u8>|
            if has_key(snap, k) {
                snap[choose|i: int| 0 <= i < snap.len() && snap[i].source_key == k]
            } else {
                m[k]
            },
    )
}

/// Law: after a resync the registry holds, for the resynced kind,
/// exactly the entries of the snapshot passed, and for every other kind
/// exactly what it held before.
pub proof fn lemma_resync_exact(m: Map<Seq<u8>, EntryModel>, kind: ModelKind, snap: Seq<EntryModel>)
    requires
        unique_keys(snap),
        forall|i: int| 0 <= i < snap.len() ==> (#[trigger] snap[i]).model_kind == kind,
    ensures
        ({
            let r = resync_spec(m, kind, snap);
            &&& forall|i: int|
                0 <= i < snap.len() ==> r.dom().contains((#[trigger] snap[i]).source_key) && r[snap[i].source_key]
                    == snap[i]
            &&& forall|k: Seq<u8>|
                #[trigger] r.dom().contains(k) && r[k].model_kind == kind ==> has_key(snap, k)
            &&& forall|k: Seq<u8>|
                #[trigger] r.dom().contains(k) && r[k].model_kind != kind ==> m.dom().contains(k)
                    && r[k] == m[k] && !has_key(snap, k)
            &&& forall|k: Seq<u8>|
                #[trigger] m.dom().contains(k) && m[k].model_kind != kind && !has_key(snap, k)
                    ==> r.dom().contains(k) && r[k] == m[k]
        }),
{
    let r = resync_spec(m, kind, snap);
    assert forall|i: int| 0 <= i < snap.len() implies r.dom().contains(
        (#[trigger] snap[i]).source_key,
    ) && r[snap[i].source_key] == snap[i] by {
        assert(has_key(snap, snap[i].source_key));
        let j = choose|j: int| 0 <= j < snap.len() && snap[j].source_key == snap[i].source_key;
        if i != j {
            assert(snap[i].source_key != snap[j].source_key);
        }
    }
    assert forall|k: Seq<u8>|
        #[trigger] r.dom().contains(k) && r[k].model_kind == kind implies has_key(snap, k) by {
        if !has_key(snap, k) {
            assert(r[k] == m[k] && m[k].model_kind != kind);
        }
    }
}

/// Apply one event to the registry, as observed by the watcher of
/// `kind`: a put that decodes installs its entry, a put that fails to
/// decode is logged-and-skipped by the caller and changes nothing here,
/// a delete removes the key (a no-op when the key is absent).
pub fn apply_event(registry: &mut ModelRegistry, kind: ModelKind, event: &RegistrationEvent)
    requires
        old(registry).wf(),
    ensures
        final(registry).wf(),
        final(registry)@ == apply_event_spec(old(registry)@, kind, event@),
{
    match event {
        RegistrationEvent::Put { key, value, revision } => {
            match decode_record(kind, key, value, *revision) {
                Some(e) => {
                    proof {
                        assert(e@.source_key == key@);
                    }
                    registry.upsert(e);
                },
                None => {},
            }
        },
        RegistrationEvent::Delete { key, revision } => {
            registry.remove(key);
        },
    }
}

/// Apply a sequence of events strictly in delivery order.
pub fn apply_events(registry: &mut ModelRegistry, kind: ModelKind, events: &Vec<RegistrationEvent>)
    requires
        old(registry).wf(),
    ensures
        final(registry).wf(),
        final(registry)@ == apply_events_spec(old(registry)@, kind, event_views(events@)),
{
    let ghost m0 = registry@;
    let ghost evs = event_views(events@);
    let n = events.len();
    let mut i: usize = 0;
    while i < n
        invariant
            n == events@.len(),
            evs == event_views(events@),
            0 <= i <= n,
            registry.wf(),
            registry@ == apply_events_spec(m0, kind, evs.take(i as int)),
        decreases n - i,
    {
        proof {
            assert(evs.take(i as int + 1).drop_last() =~= evs.take(i as int));
            assert(evs.take(i as int + 1).last() == evs[i as int]);
        }
        apply_event(registry, kind, &events[i]);
        i += 1;
    }
    proof {
        assert(evs.take(n as int) =~= evs);
    }
}

/// Fetch-and-install of one snapshot: decode each record, skipping the
/// ones whose payload fails to decode, and atomically replace the
/// kind's registry slice by what was decoded.  This both bootstraps a
/// fresh watcher and resyncs one whose subscription was interrupted, so
/// entries that disappeared while disconnected are dropped rather than
/// unioned with the new state.
pub fn bootstrap(registry: &mut ModelRegistry, kind: ModelKind, records: &Vec<SnapshotRecord>)
    requires
        old(registry).wf(),
        record_keys_unique(record_views(records@)),
    ensures
        final(registry).wf(),
        final(registry)@ == resync_spec(
            old(registry)@,
            kind,
            snapshot_entries(kind, record_views(records@)),
        ),
{
    let ghost m0 = registry@;
    let ghost recs = record_views(records@);
    let ghost snapv = snapshot_entries(kind, recs);
    let mut snapshot: Vec<ModelEntry> = Vec::new();
    let n = records.len();
    let mut i: usize = 0;
    proof {
        assert(views_of(snapshot@) =~= snapshot_entries(kind, recs.take(0)));
    }
    while i < n
        invariant
            n == records@.len(),
            recs == record_views(records@),
            0 <= i <= n,
            views_of(snapshot@) == snapshot_entries(kind, recs.take(i as int)),
        decreases n - i,
    {
        proof {
            assert(recs.take(i as int + 1).drop_last() =~= recs.take(i as int));
            assert(recs.take(i as int + 1).last() == recs[i as int]);
        }
        let ghost s0 = views_of(snapshot@);
        let rec = &records[i];
        proof {
            assert(recs[i as int] == records@[i as int]@);
        }
        match decode_record(kind, &rec.key, &rec.value, rec.revision) {
            Some(e) => {
                snapshot.push(e);
                proof {
                    assert(views_of(snapshot@) =~= s0.push(e@));
                }
            },
            None => {},
        }
        i += 1;
    }
    proof {
        assert(recs.take(n as int) =~= recs);
        lemma_snapshot_entries_wf(kind, recs);
        assert forall|i2: int| 0 <= i2 < snapshot@.len() implies (#[trigger] snapshot@[i2]@).model_kind
            == kind by {
            assert(views_of(snapshot@)[i2] == snapshot@[i2]@);
        }
    }
    registry.replace_kind(kind, &snapshot);
    proof {
        lemma_resync_exact(m0, kind, snapv);
        let r = registry@;
        let target = resync_spec(m0, kind, snapv);
        assert forall|k: Seq<u8>| #[trigger] r.dom().contains(k) implies target.dom().contains(k)
            && r[k] == target[k] by {
            if r[k].model_kind == kind {
                assert(has_key(snapv, k));
                let i2 = choose|i2: int| 0 <= i2 < snapv.len() && snapv[i2].source_key == k;
                assert(views_of(snapshot@)[i2] == snapv[i2]);
                assert(r[snapv[i2].source_key] == snapv[i2]);
                assert(target[k] == snapv[i2]);
            } else {
                assert(m0.dom().contains(k) && r[k] == m0[k]);
                if has_key(snapv, k) {
                    let i2 = choose|i2: int| 0 <= i2 < snapv.len() && snapv[i2].source_key == k;
                    assert(r[snapv[i2].source_key] == snapv[i2]);
                    assert(snapv[i2].model_kind == kind);
                }
            }
        }
        assert forall|k: Seq<u8>| #[trigger] target.dom().contains(k) implies r.dom().contains(
            k,
        ) by {
            if has_key(snapv, k) {
                let i2 = choose|i2: int| 0 <= i2 < snapv.len() && snapv[i2].source_key == k;
                assert(r.dom().contains(snapv[i2].source_key));
            }
        }
        assert(r =~= target);
    }
}

/// The watcher's lifecycle phase.
#[derive(Clone, Copy, PartialEq, Eq, Structural, Debug)]
pub enum WatcherPhase {
    /// waiting for a snapshot of the prefix
    Bootstrapping,
    /// consuming the ordered event stream
    Watching,
    /// the subscription failed for good; the kind's slice is frozen
    Terminated,
    /// cooperative shutdown was observed
    Cancelled,
}

/// What the caller's event loop should do next.
#[derive(Clone, Copy, PartialEq, Eq, Structural, Debug)]
pub enum WatchAction {
    /// fetch a snapshot of the prefix and hand it back as `Snapshot`
    FetchSnapshot,
    /// await the next stream notification
    AwaitEvent,
    /// stop; cancellation was acknowledged
    Stop,
    /// stop; report this kind's terminal failure to the supervisor
    ReportFailure,
}

/// What the caller's event loop observed.
pub enum WatchInput {
    /// a snapshot of every key under the prefix
    Snapshot(Vec<SnapshotRecord>),
    /// the next event of the ordered stream
    Event(RegistrationEvent),
    /// the stream ended with a recoverable error (connection loss,
    /// stream closed without an explicit close)
    StreamClosed,
    /// the stream failed for good (the retry budget of the store client
    /// is exhausted, or the prefix is permanently invalid)
    StreamFailed,
    /// cooperative shutdown
    Cancel,
}

/// One logical subscription: one prefix, one model kind.  The watcher is
/// the sole writer of its kind's registry slice.
pub struct ModelWatcher {
    /// the kind this watcher's prefix carries
    pub kind: ModelKind,
    /// where in the lifecycle the watcher stands
    pub phase: WatcherPhase,
}

impl ModelWatcher {
    /// A fresh watcher, about to request its first snapshot.
    pub fn new(kind: ModelKind) -> (r: ModelWatcher)
        ensures
            r.kind == kind,
            r.phase == WatcherPhase::Bootstrapping,
    {
        ModelWatcher { kind, phase: WatcherPhase::Bootstrapping }
    }

    /// Drive the watcher by one observation.
    ///
    /// Cancellation wins in every phase: it is acknowledged at once and
    /// nothing further is applied to the registry.  A snapshot arriving
    /// while bootstrapping is installed atomically via
    /// [`crate::registry::ModelRegistry::replace_kind`]; an event
    /// arriving while watching is applied in delivery order; a
    /// recoverable stream end sends the watcher back to bootstrapping
    /// with the registry untouched until the new snapshot lands; an
    /// unrecoverable failure freezes the kind's slice at its last known
    /// state and reports upward.
    pub fn step(&mut self, registry: &mut ModelRegistry, input: WatchInput) -> (a: WatchAction)
        requires
            old(registry).wf(),
            input matches WatchInput::Snapshot(records) ==> record_keys_unique(
                record_views(records@),
            ),
        ensures
            final(registry).wf(),
            final(self).kind == old(self).kind,
            // cancellation stops event processing in every phase
            input matches WatchInput::Cancel ==> final(self).phase == WatcherPhase::Cancelled
                && *final(registry) == *old(registry) && a == WatchAction::Stop,
            // a watcher that already stopped applies nothing further
            !(input matches WatchInput::Cancel) && old(self).phase == WatcherPhase::Cancelled
                ==> *final(self) == *old(self) && *final(registry) == *old(registry) && a
                == WatchAction::Stop,
            !(input matches WatchInput::Cancel) && old(self).phase == WatcherPhase::Terminated
                ==> *final(self) == *old(self) && *final(registry) == *old(registry) && a
                == WatchAction::ReportFailure,
            // bootstrapping: the snapshot is installed atomically, then
            // the stream is consumed
            old(self).phase == WatcherPhase::Bootstrapping ==> match input {
                WatchInput::Snapshot(records) => final(self).phase == WatcherPhase::Watching && a
                    == WatchAction::AwaitEvent && final(registry)@ == resync_spec(
                    old(registry)@,
                    old(self).kind,
                    snapshot_entries(old(self).kind, record_views(records@)),
                ),
                WatchInput::Event(_) => final(self).phase == WatcherPhase::Bootstrapping && *final(registry) == *old(registry) && a == WatchAction::FetchSnapshot,
                WatchInput::StreamClosed => final(self).phase == WatcherPhase::Bootstrapping
                    && *final(registry) == *old(registry) && a == WatchAction::FetchSnapshot,
                WatchInput::StreamFailed => final(self).phase == WatcherPhase::Terminated && *final(registry) == *old(registry) && a == WatchAction::ReportFailure,
                WatchInput::Cancel => true,
            },
            // watching: events are applied strictly in delivery order
            old(self).phase == WatcherPhase::Watching ==> match input {
                WatchInput::Event(ev) => final(self).phase == WatcherPhase::Watching && a
                    == WatchAction::AwaitEvent && final(registry)@ == apply_event_spec(
                    old(registry)@,
                    old(self).kind,
                    ev@,
                ),
                WatchInput::Snapshot(_) => final(self).phase == WatcherPhase::Watching && *final(registry) == *old(registry) && a == WatchAction::AwaitEvent,
                WatchInput::StreamClosed => final(self).phase == WatcherPhase::Bootstrapping
                    && *final(registry) == *old(registry) && a == WatchAction::FetchSnapshot,
                WatchInput::StreamFailed => final(self).phase == WatcherPhase::Terminated && *final(registry) == *old(registry) && a == WatchAction::ReportFailure,
                WatchInput::Cancel => true,
            },
    {
        match input {
            WatchInput::Cancel => {
                self.phase = WatcherPhase::Cancelled;
                WatchAction::Stop
            },
            WatchInput::Snapshot(records) => {
                match self.phase {
                    WatcherPhase::Bootstrapping => {
                        bootstrap(registry, self.kind, &records);
                        self.phase = WatcherPhase::Watching;
                        WatchAction::AwaitEvent
                    },
                    WatcherPhase::Watching => WatchAction::AwaitEvent,
                    WatcherPhase::Terminated => WatchAction::ReportFailure,
                    WatcherPhase::Cancelled => WatchAction::Stop,
                }
            },
            WatchInput::Event(ev) => {
                match self.phase {
                    WatcherPhase::Bootstrapping => WatchAction::FetchSnapshot,
                    WatcherPhase::Watching => {
                        apply_event(registry, self.kind, &ev);
                        WatchAction::AwaitEvent
                    },
                    WatcherPhase::Terminated => WatchAction::ReportFailure,
                    WatcherPhase::Cancelled => WatchAction::Stop,
                }
            },
            WatchInput::StreamClosed => {
                match self.phase {
                    WatcherPhase::Bootstrapping => WatchAction::FetchSnapshot,
                    WatcherPhase::Watching => {
                        self.phase = WatcherPhase::Bootstrapping;
                        WatchAction::FetchSnapshot
                    },
                    WatcherPhase::Terminated => WatchAction::ReportFailure,
                    WatcherPhase::Cancelled => WatchAction::Stop,
                }
            },
            WatchInput::StreamFailed => {
                match self.phase {
                    WatcherPhase::Bootstrapping => {
                        self.phase = WatcherPhase::Terminated;
                        WatchAction::ReportFailure
                    },
                    WatcherPhase::Watching => {
                        self.phase = WatcherPhase::Terminated;
                        WatchAction::ReportFailure
                    },
                    WatcherPhase::Terminated => WatchAction::ReportFailure,
                    WatcherPhase::Cancelled => WatchAction::Stop,
                }
            },
        }
    }
}

/// Which events settle what the registry holds under `k`: a put for `k`
/// whose payload decodes, or a delete for `k`.
pub open spec fn affects(kind: ModelKind, ev: EventModel, k: Seq<u8>) -> bool {
    match ev {
        EventModel::Put { key, value, revision } => key == k && decoded_entry(
            kind,
            k,
            value,
            revision,
        ) is Some,
        EventModel::Delete { key, revision } => key == k,
    }
}

/// The most recent event of `evs` that settles key `k`, if any.
pub open spec fn last_effect(kind: ModelKind, evs: Seq<EventModel>, k: Seq<u8>) -> Option<
    EventModel,
>
    decreases evs.len(),
{
    if evs.len() == 0 {
        None
    } else if affects(kind, evs.last(), k) {
        Some(evs.last())
    } else {
        last_effect(kind, evs.drop_last(), k)
    }
}

/// Law: for every sequence of events applied in order, the registry's
/// entry under a key is the one decoded from the most recent effective
/// put for that key; it is absent if the most recent effective
/// operation was a delete; and it is untouched if no event settled the
/// key.
pub proof fn lemma_last_operation_wins(
    m: Map<Seq<u8>, EntryModel>,
    kind: ModelKind,
    evs: Seq<EventModel>,
    k: Seq<u8>,
)
    ensures
        ({
            let r = apply_events_spec(m, kind, evs);
            match last_effect(kind, evs, k) {
                Some(EventModel::Put { key, value, revision }) => r.dom().contains(k) && Some(
                    r[k],
                ) == decoded_entry(kind, k, value, revision),
                Some(EventModel::Delete { key, revision }) => !r.dom().contains(k),
                None => r.dom().contains(k) == m.dom().contains(k) && (m.dom().contains(k) ==> r[k]
                    == m[k]),
            }
        }),
    decreases evs.len(),
{
    if evs.len() > 0 {
        lemma_last_operation_wins(m, kind, evs.drop_last(), k);
    }
}

/// Law: a put whose payload fails to decode is skipped, and the events
/// after it are applied exactly as if it had never been delivered.
pub proof fn lemma_undecodable_put_skipped(
    m: Map<Seq<u8>, EntryModel>,
    kind: ModelKind,
    key: Seq<u8>,
    value: Seq<u8>,
    revision: u64,
    rest: Seq<EventModel>,
)
    requires
        decoded_entry(kind, key, value, revision) is None,
    ensures
        apply_events_spec(m, kind, seq![EventModel::Put { key, value, revision }] + rest)
            == apply_events_spec(m, kind, rest),
    decreases rest.len(),
{
    let bad = EventModel::Put { key, value, revision };
    if rest.len() == 0 {
        assert(seq![bad] + rest =~= seq![bad]);
        assert((seq![bad]).drop_last() =~= Seq::<EventModel>::empty());
        assert(apply_events_spec(m, kind, Seq::<EventModel>::empty()) == m);
        assert((seq![bad]).last() == bad);
        assert(apply_events_spec(m, kind, seq![bad]) == apply_event_spec(m, kind, bad));
        assert(apply_event_spec(m, kind, bad) == m);
    } else {
        lemma_undecodable_put_skipped(m, kind, key, value, revision, rest.drop_last());
        assert((seq![bad] + rest).drop_last() =~= seq![bad] + rest.drop_last());
        assert((seq![bad] + rest).last() == rest.last());
        assert(apply_events_spec(m, kind, seq![bad] + rest) == apply_event_spec(
            apply_events_spec(m, kind, seq![bad] + rest.drop_last()),
            kind,
            rest.last(),
        ));
        assert(apply_events_spec(m, kind, rest) == apply_event_spec(
            apply_events_spec(m, kind, rest.drop_last()),
            kind,
            rest.last(),
        ));
    }
}

/// Law: a delete for a key that is not registered leaves the registry
/// exactly as it was.
pub proof fn lemma_delete_absent_is_noop(
    m: Map<Seq<u8>, EntryModel>,
    kind: ModelKind,
    key: Seq<u8>,
    revision: u64,
)
    requires
        !m.dom().contains(key),
    ensures
        apply_event_spec(m, kind, EventModel::Delete { key, revision }) == m,
{
    assert(m.remove(key) =~= m);
}

} // verus!
