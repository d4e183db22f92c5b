//! Registry records: the model kind partition and one live backend
//! registration decoded from a put event.

use vstd::prelude::*;

verus! {

/// Which family of models a registration belongs to.  Each watched key
/// prefix carries exactly one kind, so a lookup for one kind never
/// returns an entry of another.
#[derive(Clone, Copy, PartialEq, Eq, Structural, Debug)]
pub enum ModelKind {
    Chat,
    Completion,
}

/// Mathematical model of one live backend registration.
pub ghost struct EntryModel {
    pub model_id: Seq<u8>,
    pub model_kind: ModelKind,
    pub endpoint: Seq<u8>,
    pub source_key: Seq<u8>,
    pub revision: u64,
}

/// One live backend registration.
///
/// `model_id` and `endpoint` are the decoded registration fields; the
/// endpoint is an opaque backend descriptor that the dispatcher
/// interprets.  `source_key` is the store key the entry was decoded
/// from, so a delete event for that key removes exactly this entry.
/// `revision` is the store's sequence number at the time of
/// observation, kept for diagnostics only.
pub struct ModelEntry {
    pub model_id: Vec<u8>,
    pub model_kind: ModelKind,
    pub endpoint: Vec<u8>,
    pub source_key: Vec<u8>,
    pub revision: u64,
}

impl View for ModelEntry {
    type V = EntryModel;

    open spec fn view(&self) -> EntryModel {
        EntryModel {
            model_id: self.model_id@,
            model_kind: self.model_kind,
            endpoint: self.endpoint@,
            source_key: self.source_key@,
            revision: self.revision,
        }
    }
}

impl Clone for ModelEntry {
    fn clone(&self) -> (r: Self)
        ensures
            r@ == self@,
    {
        let r = ModelEntry {
            model_id: self.model_id.clone(),
            model_kind: self.model_kind,
            endpoint: self.endpoint.clone(),
            source_key: self.source_key.clone(),
            revision: self.revision,
        };
        proof {
            assert(r.model_id@ =~= self.model_id@);
            assert(r.endpoint@ =~= self.endpoint@);
            assert(r.source_key@ =~= self.source_key@);
        }
        r
    }
}

/// Byte-wise equality of two byte vectors, the key and identifier
/// comparison used throughout the registry.
pub fn bytes_eq(a: &Vec<u8>, b: &Vec<u8>) -> (r: bool)
    ensures
        r <==> a@ == b@,
{
    if a.len() != b.len() {
        proof {
            assert(a@ != b@);
        }
        return false;
    }
    let n = a.len();
    let mut i: usize = 0;
    while i < n
        invariant
            n == a@.len() && n == b@.len(),
            0 <= i <= n,
            forall|j: int| 0 <= j < i ==> a@[j] == b@[j],
        decreases n - i,
    {
        if a[i] != b[i] {
            return false;
        }
        i += 1;
    }
    proof {
        assert(a@ =~= b@);
    }
    true
}

} // verus!
