//! The model registry: the single source of truth consulted by request
//! dispatch, mapping store keys to live backend registrations.
//!
//! The registry is modelled as a map from `source_key` to the entry last
//! put under that key.  Internally it keeps entries in insertion order in
//! a vector whose keys are unique; `entries_seq` exposes that ordered
//! sequence to specifications and [`ModelRegistry::view`] exposes the
//! key-indexed map.

use vstd::prelude::*;

use crate::entry::{bytes_eq, EntryModel, ModelEntry, ModelKind};

verus! {

/// The views of a sequence of entries.
pub open spec fn views_of(s: Seq<ModelEntry>) -> Seq<EntryModel> {
    s.map_values(|e: ModelEntry| e@)
}

/// No two entries share a `source_key`.
pub open spec fn unique_keys(s: Seq<EntryModel>) -> bool {
    forall|i: int, j: int| 0 <= i < j < s.len() ==> s[i].source_key != s[j].source_key
}

/// Some entry in `s` carries the key `k`.
pub open spec fn has_key(s: Seq<EntryModel>, k: Seq<u8>) -> bool {
    exists|i: int| 0 <= i < s.len() && s[i].source_key == k
}

/// The key-indexed map induced by a sequence of entries; on duplicate
/// keys the later entry wins.
pub open spec fn seq_to_map(s: Seq<EntryModel>) -> Map<Seq<u8>, EntryModel>
    decreases s.len(),
{
    if s.len() == 0 {
        Map::empty()
    } else {
        seq_to_map(s.drop_last()).insert(s.last().source_key, s.last())
    }
}

/// A key is in the induced map exactly when some entry carries it.
pub proof fn lemma_seq_to_map_dom(s: Seq<EntryModel>)
    ensures
        forall|k: Seq<u8>| #[trigger] seq_to_map(s).dom().contains(k) <==> has_key(s, k),
    decreases s.len(),
{
    if s.len() > 0 {
        lemma_seq_to_map_dom(s.drop_last());
        assert forall|k: Seq<u8>| #[trigger] seq_to_map(s).dom().contains(k) implies has_key(
            s,
            k,
        ) by {
            if k == s.last().source_key {
                assert(s[s.len() - 1].source_key == k);
            } else {
                assert(seq_to_map(s.drop_last()).dom().contains(k));
                assert(has_key(s.drop_last(), k));
                let i = choose|i: int|
                    0 <= i < s.drop_last().len() && s.drop_last()[i].source_key == k;
                assert(s[i].source_key == k);
            }
        }
        assert forall|k: Seq<u8>| has_key(s, k) implies #[trigger] seq_to_map(
            s,
        ).dom().contains(k) by {
            let i = choose|i: int| 0 <= i < s.len() && s[i].source_key == k;
            if i < s.len() - 1 {
                assert(s.drop_last()[i].source_key == k);
                assert(has_key(s.drop_last(), k));
                assert(seq_to_map(s.drop_last()).dom().contains(k));
            } else {
                assert(k == s.last().source_key);
            }
        }
    }
}

/// With unique keys, the induced map sends each entry's key to that entry.
pub proof fn lemma_seq_to_map_index(s: Seq<EntryModel>, i: int)
    requires
        unique_keys(s),
        0 <= i < s.len(),
    ensures
        seq_to_map(s).dom().contains(s[i].source_key),
        seq_to_map(s)[s[i].source_key] == s[i],
    decreases s.len(),
{
    if i < s.len() - 1 {
        assert(unique_keys(s.drop_last()));
        lemma_seq_to_map_index(s.drop_last(), i);
        assert(s[i].source_key != s.last().source_key);
    }
}

/// Replacing the entry at `i` by one with the same key updates the
/// induced map at that key.
pub proof fn lemma_seq_to_map_update(s: Seq<EntryModel>, i: int, e: EntryModel)
    requires
        unique_keys(s),
        0 <= i < s.len(),
        s[i].source_key == e.source_key,
    ensures
        seq_to_map(s.update(i, e)) =~= seq_to_map(s).insert(e.source_key, e),
    decreases s.len(),
{
    let t = s.update(i, e);
    if i == s.len() - 1 {
        assert(t.drop_last() =~= s.drop_last());
        assert(t.last() == e);
    } else {
        assert(unique_keys(s.drop_last()));
        lemma_seq_to_map_update(s.drop_last(), i, e);
        assert(t.drop_last() =~= s.drop_last().update(i, e));
        assert(t.last() == s.last());
        assert(s.last().source_key != e.source_key);
    }
}

/// Removing the entry at `i` removes its key from the induced map.
pub proof fn lemma_seq_to_map_remove(s: Seq<EntryModel>, i: int)
    requires
        unique_keys(s),
        0 <= i < s.len(),
    ensures
        seq_to_map(s.remove(i)) =~= seq_to_map(s).remove(s[i].source_key),
    decreases s.len(),
{
    if i == s.len() - 1 {
        assert(s.remove(i) =~= s.drop_last());
        assert(unique_keys(s.drop_last()));
        lemma_seq_to_map_dom(s.drop_last());
        assert(!has_key(s.drop_last(), s[i].source_key));
        assert(seq_to_map(s.drop_last()) =~= seq_to_map(s.drop_last()).remove(s[i].source_key));
    } else {
        assert(unique_keys(s.drop_last()));
        lemma_seq_to_map_remove(s.drop_last(), i);
        assert(s.remove(i).drop_last() =~= s.drop_last().remove(i));
        assert(s.remove(i).last() == s.last());
        assert(s.last().source_key != s[i].source_key);
    }
}

/// Appending an entry with a fresh key inserts it into the induced map.
pub proof fn lemma_seq_to_map_push(s: Seq<EntryModel>, e: EntryModel)
    ensures
        seq_to_map(s.push(e)) == seq_to_map(s).insert(e.source_key, e),
{
    assert(s.push(e).drop_last() =~= s);
}

/// The entries of `s` whose `model_id` and `model_kind` match, in order.
pub open spec fn matching_entries(s: Seq<EntryModel>, model_id: Seq<u8>, kind: ModelKind) -> Seq<
    EntryModel,
>
    decreases s.len(),
{
    if s.len() == 0 {
        Seq::empty()
    } else {
        let prefix = matching_entries(s.drop_last(), model_id, kind);
        if s.last().model_id == model_id && s.last().model_kind == kind {
            prefix.push(s.last())
        } else {
            prefix
        }
    }
}

/// Law: a lookup returns exactly the live entries of the requested
/// model and kind: every returned entry is a live entry carrying them,
/// and every live entry carrying them is returned.
pub proof fn lemma_matching_entries_exact(s: Seq<EntryModel>, model_id: Seq<u8>, kind: ModelKind)
    ensures
        forall|j: int|
            0 <= j < matching_entries(s, model_id, kind).len() ==> {
                let e = #[trigger] matching_entries(s, model_id, kind)[j];
                &&& e.model_id == model_id
                &&& e.model_kind == kind
                &&& exists|i: int| 0 <= i < s.len() && s[i] == e
            },
        forall|i: int|
            0 <= i < s.len() && (#[trigger] s[i]).model_id == model_id && s[i].model_kind == kind
                ==> exists|j: int|
                0 <= j < matching_entries(s, model_id, kind).len() && matching_entries(
                    s,
                    model_id,
                    kind,
                )[j] == s[i],
    decreases s.len(),
{
    if s.len() > 0 {
        lemma_matching_entries_exact(s.drop_last(), model_id, kind);
        let prefix = matching_entries(s.drop_last(), model_id, kind);
        let whole = matching_entries(s, model_id, kind);
        assert forall|j: int| 0 <= j < whole.len() implies {
            let e = #[trigger] whole[j];
            &&& e.model_id == model_id
            &&& e.model_kind == kind
            &&& exists|i: int| 0 <= i < s.len() && s[i] == e
        } by {
            if j < prefix.len() {
                assert(whole[j] == prefix[j]);
                let i = choose|i: int| 0 <= i < s.drop_last().len() && s.drop_last()[i] == prefix[j];
                assert(s[i] == whole[j]);
            } else {
                assert(whole[j] == s.last());
                assert(s[s.len() - 1] == whole[j]);
            }
        }
        assert forall|i: int|
            0 <= i < s.len() && (#[trigger] s[i]).model_id == model_id && s[i].model_kind
                == kind implies exists|j: int| 0 <= j < whole.len() && whole[j] == s[i] by {
            if i < s.len() - 1 {
                assert(s.drop_last()[i] == s[i]);
                let j = choose|j: int| 0 <= j < prefix.len() && prefix[j] == s[i];
                assert(whole[j] == s[i]);
            } else {
                assert(whole[prefix.len() as int] == s[i]);
            }
        }
    }
}

/// The entries of `s` that survive a resync of `kind` with snapshot
/// `snap`: those of another kind whose key the snapshot does not carry.
pub open spec fn kept_entries(s: Seq<EntryModel>, kind: ModelKind, snap: Seq<EntryModel>) -> Seq<
    EntryModel,
>
    decreases s.len(),
{
    if s.len() == 0 {
        Seq::empty()
    } else {
        let prefix = kept_entries(s.drop_last(), kind, snap);
        if s.last().model_kind != kind && !has_key(snap, s.last().source_key) {
            prefix.push(s.last())
        } else {
            prefix
        }
    }
}

/// Every kept entry is one of the original entries, is of another kind,
/// and carries a key the snapshot does not mention.
pub proof fn lemma_kept_entries_sub(s: Seq<EntryModel>, kind: ModelKind, snap: Seq<EntryModel>)
    ensures
        forall|j: int|
            0 <= j < kept_entries(s, kind, snap).len() ==> {
                let e = #[trigger] kept_entries(s, kind, snap)[j];
                &&& e.model_kind != kind
                &&& !has_key(snap, e.source_key)
                &&& exists|i: int| 0 <= i < s.len() && s[i] == e
            },
    decreases s.len(),
{
    if s.len() > 0 {
        lemma_kept_entries_sub(s.drop_last(), kind, snap);
        let kp = kept_entries(s.drop_last(), kind, snap);
        assert forall|j: int| 0 <= j < kept_entries(s, kind, snap).len() implies {
            let e = #[trigger] kept_entries(s, kind, snap)[j];
            &&& e.model_kind != kind
            &&& !has_key(snap, e.source_key)
            &&& exists|i: int| 0 <= i < s.len() && s[i] == e
        } by {
            let e = kept_entries(s, kind, snap)[j];
            if j < kp.len() {
                assert(e == kp[j]);
                let i = choose|i: int| 0 <= i < s.drop_last().len() && s.drop_last()[i] == e;
                assert(s[i] == e);
            } else {
                assert(e == s.last());
                assert(s[s.len() - 1] == e);
            }
        }
    }
}

/// Every original entry of another kind whose key the snapshot does not
/// mention is kept.
pub proof fn lemma_kept_entries_complete(
    s: Seq<EntryModel>,
    kind: ModelKind,
    snap: Seq<EntryModel>,
    i: int,
)
    requires
        0 <= i < s.len(),
        s[i].model_kind != kind,
        !has_key(snap, s[i].source_key),
    ensures
        exists|j: int|
            0 <= j < kept_entries(s, kind, snap).len() && kept_entries(s, kind, snap)[j] == s[i],
    decreases s.len(),
{
    let kp = kept_entries(s.drop_last(), kind, snap);
    if i < s.len() - 1 {
        assert(s.drop_last()[i] == s[i]);
        lemma_kept_entries_complete(s.drop_last(), kind, snap, i);
        let j = choose|j: int| 0 <= j < kp.len() && kp[j] == s[i];
        assert(kept_entries(s, kind, snap)[j] == s[i]);
    } else {
        assert(kept_entries(s, kind, snap)[kp.len() as int] == s[i]);
    }
}

/// Keys stay unique through a kind's filter.
pub proof fn lemma_kept_entries_unique(s: Seq<EntryModel>, kind: ModelKind, snap: Seq<EntryModel>)
    requires
        unique_keys(s),
    ensures
        unique_keys(kept_entries(s, kind, snap)),
    decreases s.len(),
{
    if s.len() > 0 {
        assert(unique_keys(s.drop_last()));
        lemma_kept_entries_unique(s.drop_last(), kind, snap);
        lemma_kept_entries_sub(s.drop_last(), kind, snap);
        let kp = kept_entries(s.drop_last(), kind, snap);
        if s.last().model_kind != kind && !has_key(snap, s.last().source_key) {
            assert forall|j: int| 0 <= j < kp.len() implies kp[j].source_key
                != s.last().source_key by {
                let i = choose|i: int| 0 <= i < s.drop_last().len() && s.drop_last()[i] == kp[j];
                assert(s[i] == kp[j]);
                assert(s[i].source_key != s[s.len() - 1].source_key);
            }
            assert(unique_keys(kp.push(s.last())));
        }
    }
}

/// Map from store key to the live entry registered under it; the single
/// source of truth consulted by request dispatch.  Kinds partition it
/// only through each entry's own `model_kind` field.
///
/// Sharing it between watchers and dispatch paths is the caller's
/// discipline: one writer per kind at a time behind a read-mostly lock,
/// with any number of concurrent readers.  Each mutation here is one
/// call — a resync is one `replace_kind` — so a reader between calls
/// sees either the whole old state or the whole new one, never a mix.
pub struct ModelRegistry {
    entries: Vec<ModelEntry>,
}

impl View for ModelRegistry {
    type V = Map<Seq<u8>, EntryModel>;

    /// The registry as a map from `source_key` to its live entry.
    closed spec fn view(&self) -> Map<Seq<u8>, EntryModel> {
        seq_to_map(self.entries_seq())
    }
}

impl ModelRegistry {
    /// The registry's entries in insertion order.
    pub closed spec fn entries_seq(&self) -> Seq<EntryModel> {
        views_of(self.entries@)
    }

    /// Well-formed: no two entries share a key.
    pub open spec fn wf(&self) -> bool {
        unique_keys(self.entries_seq())
    }

    /// An empty registry.
    pub fn new() -> (r: ModelRegistry)
        ensures
            r.wf(),
            r@ == Map::<Seq<u8>, EntryModel>::empty(),
            r.entries_seq() == Seq::<EntryModel>::empty(),
    {
        let r = ModelRegistry { entries: Vec::new() };
        proof {
            assert(r.entries_seq() =~= Seq::<EntryModel>::empty());
        }
        r
    }

    /// How many entries are live, over all kinds.
    pub fn len(&self) -> (n: usize)
        ensures
            n == self.entries_seq().len(),
    {
        self.entries.len()
    }

    /// The index of the entry registered under `key`, if any.
    fn find_index(&self, key: &Vec<u8>) -> (r: Option<usize>)
        ensures
            match r {
                Some(i) => i < self.entries_seq().len() && self.entries_seq()[i as int].source_key
                    == key@,
                None => !has_key(self.entries_seq(), key@),
            },
    {
        let n = self.entries.len();
        let mut i: usize = 0;
        while i < n
            invariant
                n == self.entries@.len(),
                0 <= i <= n,
                forall|j: int| 0 <= j < i ==> self.entries_seq()[j].source_key != key@,
            decreases n - i,
        {
            if bytes_eq(&self.entries[i].source_key, key) {
                return Some(i);
            }
            i += 1;
        }
        None
    }

    /// Insert the entry, replacing any entry already registered under the
    /// same `source_key`; visible to readers as soon as the call returns.
    pub fn upsert(&mut self, entry: ModelEntry)
        requires
            old(self).wf(),
        ensures
            final(self).wf(),
            final(self)@ == old(self)@.insert(entry@.source_key, entry@),
            has_key(old(self).entries_seq(), entry@.source_key) ==> exists|i: int|
                0 <= i < old(self).entries_seq().len() && old(self).entries_seq()[i].source_key
                    == entry@.source_key && final(self).entries_seq() == old(
                self,
            ).entries_seq().update(i, entry@),
            !has_key(old(self).entries_seq(), entry@.source_key) ==> final(self).entries_seq()
                == old(self).entries_seq().push(entry@),
    {
        let ghost s = self.entries_seq();
        match self.find_index(&entry.source_key) {
            Some(i) => {
                proof {
                    lemma_seq_to_map_update(s, i as int, entry@);
                }
                self.entries.set(i, entry);
                proof {
                    assert(self.entries_seq() =~= s.update(i as int, entry@));
                }
            },
            None => {
                proof {
                    lemma_seq_to_map_push(s, entry@);
                }
                self.entries.push(entry);
                proof {
                    assert(self.entries_seq() =~= s.push(entry@));
                }
            },
        }
    }

    /// Remove the entry registered under `key`.  A delete for a key that
    /// was never present is a no-op, not an error: the registry is left
    /// exactly as it was.
    pub fn remove(&mut self, key: &Vec<u8>)
        requires
            old(self).wf(),
        ensures
            final(self).wf(),
            final(self)@ == old(self)@.remove(key@),
            has_key(old(self).entries_seq(), key@) ==> exists|i: int|
                0 <= i < old(self).entries_seq().len() && old(self).entries_seq()[i].source_key
                    == key@ && final(self).entries_seq() == old(self).entries_seq().remove(i),
            !has_key(old(self).entries_seq(), key@) ==> *final(self) == *old(self)
                && final(self).entries_seq().len() == old(self).entries_seq().len(),
    {
        let ghost s = self.entries_seq();
        match self.find_index(key) {
            Some(i) => {
                proof {
                    lemma_seq_to_map_remove(s, i as int);
                }
                self.entries.remove(i);
                proof {
                    assert(self.entries_seq() =~= s.remove(i as int));
                }
            },
            None => {
                proof {
                    lemma_seq_to_map_dom(s);
                    assert(self@ =~= old(self)@.remove(key@));
                }
            },
        }
    }

    /// A snapshot of the live entries for `model_id` of kind `kind`, in
    /// insertion order; empty when none are live.  The caller owns the
    /// returned vector, so reading it never blocks watcher activity.
    pub fn entries_for(&self, model_id: &Vec<u8>, kind: ModelKind) -> (r: Vec<ModelEntry>)
        ensures
            views_of(r@) == matching_entries(self.entries_seq(), model_id@, kind),
    {
        let mut r: Vec<ModelEntry> = Vec::new();
        let n = self.entries.len();
        let mut i: usize = 0;
        proof {
            assert(views_of(r@) =~= matching_entries(
                self.entries_seq().take(0),
                model_id@,
                kind,
            ));
        }
        while i < n
            invariant
                n == self.entries@.len(),
                0 <= i <= n,
                views_of(r@) == matching_entries(self.entries_seq().take(i as int), model_id@, kind),
            decreases n - i,
        {
            let ghost pre = self.entries_seq().take(i as int);
            let ghost post = self.entries_seq().take(i as int + 1);
            proof {
                assert(post.drop_last() =~= pre);
                assert(post.last() == self.entries_seq()[i as int]);
            }
            let ghost r0 = views_of(r@);
            if self.entries[i].model_kind == kind && bytes_eq(&self.entries[i].model_id, model_id) {
                r.push(self.entries[i].clone());
                proof {
                    assert(views_of(r@) =~= r0.push(self.entries_seq()[i as int]));
                }
            }
            i += 1;
        }
        proof {
            assert(self.entries_seq().take(n as int) =~= self.entries_seq());
        }
        r
    }

    /// Atomically replace every entry of `kind` by the snapshot, leaving
    /// the other kinds' entries untouched.  A resync installs the store's
    /// current state this way, so entries deleted while disconnected are
    /// dropped and entries added while disconnected are picked up.
    ///
    /// The snapshot comes from one prefix scan of the store, so its keys
    /// are unique and all its entries carry the given kind.
    pub fn replace_kind(&mut self, kind: ModelKind, snapshot: &Vec<ModelEntry>)
        requires
            old(self).wf(),
            unique_keys(views_of(snapshot@)),
            forall|i: int| 0 <= i < snapshot@.len() ==> (#[trigger] snapshot@[i]@).model_kind
                == kind,
        ensures
            final(self).wf(),
            final(self).entries_seq() == kept_entries(
                old(self).entries_seq(),
                kind,
                views_of(snapshot@),
            ) + views_of(snapshot@),
            // the kind's slice is exactly the snapshot
            forall|i: int|
                0 <= i < snapshot@.len() ==> final(self)@.dom().contains(
                    (#[trigger] snapshot@[i]@).source_key,
                ) && final(self)@[snapshot@[i]@.source_key] == snapshot@[i]@,
            forall|k: Seq<u8>|
                #[trigger] final(self)@.dom().contains(k) && final(self)@[k].model_kind == kind
                    ==> has_key(views_of(snapshot@), k),
            // other kinds are untouched
            forall|k: Seq<u8>|
                #[trigger] final(self)@.dom().contains(k) && final(self)@[k].model_kind != kind
                    ==> old(self)@.dom().contains(k) && final(self)@[k] == old(self)@[k],
            forall|k: Seq<u8>|
                #[trigger] old(self)@.dom().contains(k) && old(self)@[k].model_kind != kind
                    && !has_key(views_of(snapshot@), k) ==> final(self)@.dom().contains(k)
                    && final(self)@[k] == old(self)@[k],
    {
        let ghost s0 = self.entries_seq();
        let ghost snapv = views_of(snapshot@);
        let n = self.entries.len();
        let mut kept: Vec<ModelEntry> = Vec::new();
        let mut i: usize = 0;
        proof {
            assert(views_of(kept@) =~= kept_entries(s0.take(0), kind, snapv));
        }
        while i < n
            invariant
                n == self.entries@.len(),
                s0 == self.entries_seq(),
                snapv == views_of(snapshot@),
                0 <= i <= n,
                views_of(kept@) == kept_entries(s0.take(i as int), kind, snapv),
            decreases n - i,
        {
            let ghost pre = s0.take(i as int);
            let ghost post = s0.take(i as int + 1);
            proof {
                assert(post.drop_last() =~= pre);
                assert(post.last() == s0[i as int]);
            }
            let ghost k0 = views_of(kept@);
            if !(self.entries[i].model_kind == kind) && !contains_key(
                snapshot,
                &self.entries[i].source_key,
            ) {
                kept.push(self.entries[i].clone());
                proof {
                    assert(views_of(kept@) =~= k0.push(s0[i as int]));
                }
            }
            i += 1;
        }
        proof {
            assert(s0.take(n as int) =~= s0);
        }
        let m = snapshot.len();
        let mut j: usize = 0;
        proof {
            assert(views_of(kept@) + snapv.take(0) =~= views_of(kept@));
        }
        while j < m
            invariant
                m == snapshot@.len(),
                snapv == views_of(snapshot@),
                0 <= j <= m,
                views_of(kept@) == kept_entries(s0, kind, snapv) + snapv.take(j as int),
            decreases m - j,
        {
            let ghost k0 = views_of(kept@);
            kept.push(snapshot[j].clone());
            proof {
                assert(views_of(kept@) =~= k0.push(snapv[j as int]));
                assert(snapv.take(j as int + 1) =~= snapv.take(j as int).push(snapv[j as int]));
                assert(views_of(kept@) =~= kept_entries(s0, kind, snapv) + snapv.take(j as int + 1));
            }
            j += 1;
        }
        self.entries = kept;
        proof {
            assert(snapv.take(m as int) =~= snapv);
            let kp = kept_entries(s0, kind, snapv);
            let fs = kp + snapv;
            assert(self.entries_seq() =~= fs);
            lemma_kept_entries_sub(s0, kind, snapv);
            lemma_kept_entries_unique(s0, kind, snapv);
            // the concatenation keeps keys unique: kept keys avoid every
            // snapshot key
            assert forall|a: int, b: int| 0 <= a < b < fs.len() implies fs[a].source_key
                != fs[b].source_key by {
                if b < kp.len() {
                } else if a >= kp.len() {
                    assert(snapv[a - kp.len()].source_key != snapv[b - kp.len()].source_key);
                } else {
                    assert(!has_key(snapv, fs[a].source_key));
                    assert(snapv[b - kp.len()].source_key == fs[b].source_key);
                }
            }
            assert(unique_keys(fs));
            lemma_seq_to_map_dom(fs);
            lemma_seq_to_map_dom(s0);
            // each snapshot entry is registered under its key
            assert forall|i2: int| 0 <= i2 < snapshot@.len() implies self@.dom().contains(
                (#[trigger] snapshot@[i2]@).source_key,
            ) && self@[snapshot@[i2]@.source_key] == snapshot@[i2]@ by {
                assert(fs[kp.len() + i2] == snapv[i2]);
                lemma_seq_to_map_index(fs, kp.len() + i2);
            }
            // every entry of the kind came from the snapshot, and every
            // entry of another kind is an untouched old entry
            assert forall|k: Seq<u8>| #[trigger] self@.dom().contains(k) implies {
                &&& self@[k].model_kind == kind ==> has_key(snapv, k)
                &&& self@[k].model_kind != kind ==> seq_to_map(s0).dom().contains(k)
                    && self@[k] == seq_to_map(s0)[k]
            } by {
                assert(has_key(fs, k));
                let idx = choose|idx: int| 0 <= idx < fs.len() && fs[idx].source_key == k;
                lemma_seq_to_map_index(fs, idx);
                if idx < kp.len() {
                    assert(fs[idx] == kp[idx]);
                    let i2 = choose|i2: int| 0 <= i2 < s0.len() && s0[i2] == kp[idx];
                    lemma_seq_to_map_index(s0, i2);
                } else {
                    assert(fs[idx] == snapv[idx - kp.len()]);
                    assert(snapv[idx - kp.len()].source_key == k);
                }
            }
            // old entries of other kinds outside the snapshot survive
            assert forall|k: Seq<u8>|
                #[trigger] seq_to_map(s0).dom().contains(k) && seq_to_map(s0)[k].model_kind != kind
                    && !has_key(snapv, k) implies self@.dom().contains(k) && self@[k] == seq_to_map(
                s0,
            )[k] by {
                let i2 = choose|i2: int| 0 <= i2 < s0.len() && s0[i2].source_key == k;
                lemma_seq_to_map_index(s0, i2);
                lemma_kept_entries_complete(s0, kind, snapv, i2);
                let j2 = choose|j2: int| 0 <= j2 < kp.len() && kp[j2] == s0[i2];
                assert(fs[j2] == s0[i2]);
                lemma_seq_to_map_index(fs, j2);
            }
        }
    }
}

/// Whether some entry of `entries` is registered under `key`.
pub fn contains_key(entries: &Vec<ModelEntry>, key: &Vec<u8>) -> (r: bool)
    ensures
        r <==> has_key(views_of(entries@), key@),
{
    let n = entries.len();
    let mut i: usize = 0;
    while i < n
        invariant
            n == entries@.len(),
            0 <= i <= n,
            forall|j: int| 0 <= j < i ==> views_of(entries@)[j].source_key != key@,
        decreases n - i,
    {
        if bytes_eq(&entries[i].source_key, key) {
            proof {
                assert(views_of(entries@)[i as int].source_key == key@);
            }
            return true;
        }
        i += 1;
    }
    false
}

} // verus!
