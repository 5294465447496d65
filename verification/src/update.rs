//! The per-bundle update decision.
//!
//! For every installed bundle the engine resolves the latest published
//! version, compares it with the installed one under semver precedence, and
//! either keeps the bundle or replaces it. Resolution failures are reported
//! per bundle and never abort the scan of the remaining bundles; that loop
//! shape lives with the caller, the decisions live here.

use vstd::prelude::*;

use crate::version::{precedes, pre_lt, ident_lt, lemma_ident_lt_irrefl, SemVer, SemanticVersion};

verus! {

/// What to do with one installed bundle.
#[derive(Clone, Copy, Debug, PartialEq, Eq, Structural)]
pub enum UpdateDecision {
    /// The installed version is at least the published one.
    UpToDate,
    /// The installed version precedes the published one: delete the bundle's
    /// directory and install the published version.
    Replace,
}

/// The terminal state of one bundle after a scan step.
#[derive(Clone, Copy, Debug, PartialEq, Eq, Structural)]
pub enum BundleOutcome {
    UpToDate,
    Replaced,
    Failed,
}

/// Decide whether an installed bundle is stale: replace exactly when the
/// installed version precedes the latest published one, keep it otherwise.
pub fn plan_update(installed: &SemanticVersion, latest: &SemanticVersion) -> (r: UpdateDecision)
    ensures
        r == UpdateDecision::Replace <==> precedes(installed@, latest@),
        r == UpdateDecision::UpToDate <==> !precedes(installed@, latest@),
{
    if installed.is_older_than(latest) {
        UpdateDecision::Replace
    } else {
        UpdateDecision::UpToDate
    }
}

/// The outcome a scan step reports, given the decision and whether the
/// replacement (when one was due) succeeded.
pub fn step_outcome(decision: UpdateDecision, replaced_ok: bool) -> (r: BundleOutcome)
    ensures
        decision == UpdateDecision::UpToDate ==> r == BundleOutcome::UpToDate,
        decision == UpdateDecision::Replace && replaced_ok ==> r == BundleOutcome::Replaced,
        decision == UpdateDecision::Replace && !replaced_ok ==> r == BundleOutcome::Failed,
{
    match decision {
        UpdateDecision::UpToDate => BundleOutcome::UpToDate,
        UpdateDecision::Replace => if replaced_ok {
            BundleOutcome::Replaced
        } else {
            BundleOutcome::Failed
        },
    }
}

/// Precedence is irreflexive, so equal versions always classify as up to
/// date: the boundary case of the update rule.
pub proof fn lemma_equal_versions_up_to_date(a: SemVer)
    ensures
        !precedes(a, a),
{
    lemma_pre_lt_irrefl(a.pre);
}

proof fn lemma_pre_lt_irrefl(s: Seq<u8>)
    ensures
        !pre_lt(s, s),
{
    if s.len() > 0 {
        let ids = crate::bytes::split_on(s, 46);
        assert forall|k: int|
            !(0 <= k < ids.len() && k < ids.len() && ids.subrange(0, k) == ids.subrange(0, k)
                && #[trigger] ident_lt(ids[k], ids[k])) by {
            if 0 <= k < ids.len() {
                lemma_ident_lt_irrefl(ids[k]);
            }
        }
    }
}

} // verus!
