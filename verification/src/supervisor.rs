//! The watcher supervisor's decisions: one watcher runs per model kind,
//! and a kind whose watcher terminally fails is restarted under a capped
//! backoff or, once its restart budget is spent, marked unavailable with
//! its registry slice left as last known rather than wiped.
//!
//! Spawning the watcher tasks and sleeping out the delays is the
//! caller's work; every decision stands here.

use vstd::prelude::*;

use crate::entry::ModelKind;

verus! {

/// How terminally failed watchers are restarted.
#[derive(Clone, Copy, PartialEq, Eq, Structural, Debug)]
pub struct RestartPolicy {
    /// restarts allowed for a kind before it is marked unavailable
    pub max_restarts: u32,
    /// delay before a kind's first restart, in milliseconds
    pub base_delay_ms: u64,
    /// cap on the delay before any restart, in milliseconds
    pub max_delay_ms: u64,
}

/// The delay before restart number `n` of a kind: the base delay
/// doubled once per earlier restart, capped at the policy's maximum.
pub open spec fn backoff_spec(policy: RestartPolicy, n: nat) -> u64
    decreases n,
{
    if n == 0 {
        if policy.base_delay_ms <= policy.max_delay_ms {
            policy.base_delay_ms
        } else {
            policy.max_delay_ms
        }
    } else {
        let p = backoff_spec(policy, (n - 1) as nat);
        if p > policy.max_delay_ms / 2 {
            policy.max_delay_ms
        } else {
            (p * 2) as u64
        }
    }
}

/// The capped, doubling backoff delay before restart number `n`.
pub fn backoff_delay(policy: &RestartPolicy, n: u32) -> (d: u64)
    ensures
        d == backoff_spec(*policy, n as nat),
{
    let mut d: u64 = if policy.base_delay_ms <= policy.max_delay_ms {
        policy.base_delay_ms
    } else {
        policy.max_delay_ms
    };
    let mut i: u32 = 0;
    while i < n
        invariant
            0 <= i <= n,
            d == backoff_spec(*policy, i as nat),
        decreases n - i,
    {
        if d > policy.max_delay_ms / 2 {
            d = policy.max_delay_ms;
        } else {
            d = d * 2;
        }
        i += 1;
    }
    d
}

/// Supervision state of one kind's watcher.
#[derive(Clone, Copy, PartialEq, Eq, Structural, Debug)]
pub struct KindSupervision {
    /// the kind the watcher serves
    pub kind: ModelKind,
    /// restarts used so far
    pub restarts: u32,
    /// whether the kind was marked unavailable
    pub degraded: bool,
}

/// What to do about a kind whose watcher terminated.
#[derive(Clone, Copy, PartialEq, Eq, Structural, Debug)]
pub enum SupervisorAction {
    /// restart the kind's watcher after this many milliseconds
    Restart { delay_ms: u64 },
    /// the restart budget is spent: mark the kind unavailable, leaving
    /// its registry slice frozen at its last known state
    MarkUnavailable,
}

/// Tracks one watcher per configured model kind against a shared
/// registry; one kind's terminal failure never takes down the others.
pub struct Supervisor {
    policy: RestartPolicy,
    slots: Vec<KindSupervision>,
}

impl Supervisor {
    /// The per-kind supervision slots, in configuration order.
    pub closed spec fn slots(&self) -> Seq<KindSupervision> {
        self.slots@
    }

    /// The restart policy the supervisor was configured with.
    pub closed spec fn policy(&self) -> RestartPolicy {
        self.policy
    }

    /// A supervisor over one watcher per given kind, none restarted or
    /// degraded yet.
    pub fn new(policy: RestartPolicy, kinds: &Vec<ModelKind>) -> (r: Supervisor)
        ensures
            r.policy() == policy,
            r.slots().len() == kinds@.len(),
            forall|i: int|
                0 <= i < kinds@.len() ==> (#[trigger] r.slots()[i]) == (KindSupervision {
                    kind: kinds@[i],
                    restarts: 0,
                    degraded: false,
                }),
    {
        let mut slots: Vec<KindSupervision> = Vec::new();
        let n = kinds.len();
        let mut i: usize = 0;
        while i < n
            invariant
                n == kinds@.len(),
                0 <= i <= n,
                slots@.len() == i,
                forall|j: int|
                    0 <= j < i ==> (#[trigger] slots@[j]) == (KindSupervision {
                        kind: kinds@[j],
                        restarts: 0,
                        degraded: false,
                    }),
            decreases n - i,
        {
            slots.push(KindSupervision { kind: kinds[i], restarts: 0, degraded: false });
            i += 1;
        }
        Supervisor { policy, slots }
    }

    /// Decide what to do about the terminated watcher of `kind`: restart
    /// it under the capped backoff while its budget lasts, mark the kind
    /// unavailable once the budget is spent, and do nothing for a kind
    /// that was never configured.  Only the first slot of the kind is
    /// touched; every other kind's watcher is unaffected.
    pub fn on_kind_terminated(&mut self, kind: ModelKind) -> (r: Option<SupervisorAction>)
        ensures
            final(self).policy() == old(self).policy(),
            r is Some <==> exists|i: int|
                0 <= i < old(self).slots().len() && (#[trigger] old(self).slots()[i]).kind == kind,
            r is None ==> *final(self) == *old(self),
            r matches Some(a) ==> exists|i: int|
                {
                    &&& 0 <= i < old(self).slots().len()
                    &&& (#[trigger] old(self).slots()[i]).kind == kind
                    &&& forall|j: int| 0 <= j < i ==> old(self).slots()[j].kind != kind
                    &&& if old(self).slots()[i].restarts < old(self).policy().max_restarts {
                        a == (SupervisorAction::Restart {
                            delay_ms: backoff_spec(
                                old(self).policy(),
                                old(self).slots()[i].restarts as nat,
                            ),
                        }) && final(self).slots() == old(self).slots().update(
                            i,
                            KindSupervision {
                                kind,
                                restarts: (old(self).slots()[i].restarts + 1) as u32,
                                degraded: old(self).slots()[i].degraded,
                            },
                        )
                    } else {
                        a == SupervisorAction::MarkUnavailable && final(self).slots() == old(
                            self,
                        ).slots().update(
                            i,
                            KindSupervision {
                                kind,
                                restarts: old(self).slots()[i].restarts,
                                degraded: true,
                            },
                        )
                    }
                },
    {
        let n = self.slots.len();
        let mut i: usize = 0;
        while i < n
            invariant
                n == self.slots@.len(),
                0 <= i <= n,
                *self == *old(self),
                forall|j: int| 0 <= j < i ==> (#[trigger] self.slots@[j]).kind != kind,
            decreases n - i,
        {
            if self.slots[i].kind == kind {
                let restarts = self.slots[i].restarts;
                if restarts < self.policy.max_restarts {
                    let d = backoff_delay(&self.policy, restarts);
                    let slot = KindSupervision {
                        kind,
                        restarts: restarts + 1,
                        degraded: self.slots[i].degraded,
                    };
                    self.slots.set(i, slot);
                    return Some(SupervisorAction::Restart { delay_ms: d });
                } else {
                    let slot = KindSupervision { kind, restarts, degraded: true };
                    self.slots.set(i, slot);
                    return Some(SupervisorAction::MarkUnavailable);
                }
            }
            i += 1;
        }
        None
    }

    /// Whether the kind's watcher is still serving, or nothing for a
    /// kind that was never configured.  A degraded kind keeps serving
    /// its last-known entries; this flag says the slice is stale.
    pub fn kind_available(&self, kind: ModelKind) -> (r: Option<bool>)
        ensures
            match r {
                Some(b) => exists|i: int|
                    {
                        &&& 0 <= i < self.slots().len()
                        &&& (#[trigger] self.slots()[i]).kind == kind
                        &&& forall|j: int| 0 <= j < i ==> self.slots()[j].kind != kind
                        &&& b == !self.slots()[i].degraded
                    },
                None => forall|i: int|
                    0 <= i < self.slots().len() ==> (#[trigger] self.slots()[i]).kind != kind,
            },
    {
        let n = self.slots.len();
        let mut i: usize = 0;
        while i < n
            invariant
                n == self.slots@.len(),
                0 <= i <= n,
                forall|j: int| 0 <= j < i ==> (#[trigger] self.slots@[j]).kind != kind,
            decreases n - i,
        {
            if self.slots[i].kind == kind {
                return Some(!self.slots[i].degraded);
            }
            i += 1;
        }
        None
    }
}

} // verus!
