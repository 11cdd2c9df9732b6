//! The reconciliation engine: decides, for one repository, whether the
//! resolved marker differs from the last one seen, and when the state record
//! may be updated.
//!
//! The driver's chosen ordering is "notify, then mark seen": a change is
//! first detected (`begin_check`), the notification is attempted outside the
//! library, and only a delivered notification marks the marker as seen
//! (`finish_check`). A failed delivery leaves the stored marker as it was,
//! so the same change is detected and retried on the next pass — a possible
//! duplicate notification is accepted, a missed one is not.

use vstd::prelude::*;
use crate::bytes::bytes_eq;
use crate::bytes::clone_bytes;
use crate::state::StateRecord;

verus! {

/// Whether `marker` differs from what the record holds for `repo` — also
/// true when the repository was never observed.
pub open spec fn marker_changed(m: Map<Seq<u8>, Seq<u8>>, repo: Seq<u8>, marker: Seq<u8>) -> bool {
    !(m.contains_key(repo) && m[repo] == marker)
}

/// The record after one reconciliation: updated on a change, untouched
/// otherwise.
pub open spec fn step_map(m: Map<Seq<u8>, Seq<u8>>, repo: Seq<u8>, marker: Seq<u8>) -> Map<
    Seq<u8>,
    Seq<u8>,
> {
    if marker_changed(m, repo, marker) {
        m.insert(repo, marker)
    } else {
        m
    }
}

/// The decision for one repository.
pub enum ReconcileOutcome {
    Unchanged,
    Changed { previous: Option<Vec<u8>>, current: Vec<u8> },
}

/// Compares the resolved marker against the stored one and updates the
/// record in place on a change. Entries are never removed.
pub fn reconcile(repo: &Vec<u8>, marker: &Vec<u8>, state: &mut StateRecord) -> (r:
    ReconcileOutcome)
    requires
        old(state).wf(),
    ensures
        final(state).wf(),
        final(state)@ == step_map(old(state)@, repo@, marker@),
        r is Unchanged <==> !marker_changed(old(state)@, repo@, marker@),
        match r {
            ReconcileOutcome::Unchanged => final(state)@ == old(state)@,
            ReconcileOutcome::Changed { previous, current } => current@ == marker@
                && final(state)@ == old(state)@.insert(repo@, marker@)
                && (match previous {
                    Some(p) => old(state)@.contains_key(repo@) && old(state)@[repo@] == p@
                        && p@ != marker@,
                    None => !old(state)@.contains_key(repo@),
                }),
        },
        old(state)@.dom().subset_of(final(state)@.dom()),
{
    let stored = state.get(repo);
    match stored {
        Some(p) => {
            if bytes_eq(&p, marker) {
                ReconcileOutcome::Unchanged
            } else {
                state.set(repo, marker);
                ReconcileOutcome::Changed { previous: Some(p), current: clone_bytes(marker) }
            }
        }
        None => {
            state.set(repo, marker);
            ReconcileOutcome::Changed { previous: None, current: clone_bytes(marker) }
        }
    }
}

/// A notification owed for a detected change.
pub struct Notification {
    pub repo: Vec<u8>,
    pub marker: Vec<u8>,
}

/// First half of one repository check: a notification is owed exactly when
/// the resolved marker differs from the stored one. The record is not
/// touched.
pub fn begin_check(repo: &Vec<u8>, marker: &Vec<u8>, state: &StateRecord) -> (r: Option<
    Notification,
>)
    requires
        state.wf(),
    ensures
        match r {
            Some(n) => marker_changed(state@, repo@, marker@) && n.repo@ == repo@
                && n.marker@ == marker@,
            None => !marker_changed(state@, repo@, marker@),
        },
{
    let stored = state.get(repo);
    match stored {
        Some(p) => {
            if bytes_eq(&p, marker) {
                None
            } else {
                Some(Notification { repo: clone_bytes(repo), marker: clone_bytes(marker) })
            }
        }
        None => Some(Notification { repo: clone_bytes(repo), marker: clone_bytes(marker) }),
    }
}

/// Second half: only a delivered notification marks the marker as seen. A
/// failed delivery retains the old state, so the change is re-detected on
/// the next pass.
pub fn finish_check(n: &Notification, delivered: bool, state: &mut StateRecord)
    requires
        old(state).wf(),
    ensures
        final(state).wf(),
        delivered ==> final(state)@ == old(state)@.insert(n.repo@, n.marker@),
        !delivered ==> final(state)@ == old(state)@,
        old(state)@.dom().subset_of(final(state)@.dom()),
{
    if delivered {
        state.set(&n.repo, &n.marker);
    } else {
        proof {
            assert(final(state)@.dom() =~= old(state)@.dom());
        }
    }
}

/// Idempotence: after a reconciliation of `marker`, reconciling the very
/// same marker again finds nothing changed.
pub proof fn lemma_reconcile_idempotent(m: Map<Seq<u8>, Seq<u8>>, repo: Seq<u8>, marker: Seq<u8>)
    ensures
        !marker_changed(step_map(m, repo, marker), repo, marker),
{
}

/// No duplicates: over the marker sequence `v1, v1, v2, v2`, starting from a
/// record with no entry for the repository, exactly the first and the third
/// reconciliation detect a change.
pub proof fn lemma_no_duplicate_changes(
    m: Map<Seq<u8>, Seq<u8>>,
    repo: Seq<u8>,
    v1: Seq<u8>,
    v2: Seq<u8>,
)
    requires
        !m.contains_key(repo),
        v1 != v2,
    ensures
        ({
            let m1 = step_map(m, repo, v1);
            let m2 = step_map(m1, repo, v1);
            let m3 = step_map(m2, repo, v2);
            marker_changed(m, repo, v1) && !marker_changed(m1, repo, v1) && marker_changed(
                m2,
                repo,
                v2,
            ) && !marker_changed(m3, repo, v2)
        }),
{
}

} // verus!
