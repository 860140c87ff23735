//! The steps that replace an unreadable persistent index with a verified rebuild.
//! A candidate database is rebuilt beside the index, must reach current freshness
//! and pass SQLite's integrity check, is made durable, may be refused by the
//! replacement hook, is revalidated against the sources and checked again, and
//! only then replaces the index, which must reopen current and intact. Any
//! failure before the replacement leaves the index as it was.

use vstd::prelude::*;
use crate::store::{
    Freshness, StoreError, check_candidate_freshness, check_integrity, check_replacement, concat2,
};

verus! {

/// Where a recovery stands.
pub enum RecoveryState {
    /// The candidate is being rebuilt.
    Start,
    /// The candidate reached current freshness; its integrity check is due.
    Current,
    /// The candidate is intact; it is being made durable and offered to the replacement hook.
    Intact,
    /// The candidate is durable and accepted; it is being revalidated.
    Durable,
    /// The candidate was revalidated; its final integrity check is due.
    Revalidated,
    /// The candidate passed every check; it is replacing the index.
    Verified,
    /// The recovery has decided.
    Done,
}

/// What the caller of a recovery step observed.
pub enum RecoveryEvent {
    /// The candidate was rebuilt and reports this freshness.
    Rebuilt(Freshness),
    /// SQLite's integrity check answered this text.
    Integrity(String),
    /// The replacement hook answered this, after the candidate was made durable.
    Guarded(Result<(), String>),
    /// The verified search of the candidate succeeded, or failed with this display text.
    Revalidated(Option<String>),
    /// The candidate replaced the index; the reopened index reports this freshness
    /// and its integrity check answered this text.
    Replaced(Freshness, String),
}

/// What the caller of a recovery step must do next.
pub enum RecoveryAction {
    /// Run SQLite's integrity check on the candidate.
    CheckIntegrity,
    /// Make the candidate durable and run the replacement hook.
    MakeDurable,
    /// Reopen the candidate and search it with revalidation of its sources.
    Revalidate,
    /// Make the candidate durable again, remove the sidecar files, rename the
    /// candidate over the index and sync the directory.
    Replace,
    /// The recovery succeeded.
    Finish,
    /// The recovery failed with this error.
    Fail(StoreError),
}

/// The events a recovery state accepts.
pub open spec fn recovery_event_fits(s: RecoveryState, e: RecoveryEvent) -> bool {
    match s {
        RecoveryState::Start => e is Rebuilt,
        RecoveryState::Current => e is Integrity,
        RecoveryState::Intact => e is Guarded,
        RecoveryState::Durable => e is Revalidated,
        RecoveryState::Revalidated => e is Integrity,
        RecoveryState::Verified => e is Replaced,
        RecoveryState::Done => false,
    }
}

/// The action is a failure with an aborted publication carrying this text.
pub open spec fn fails_aborted(a: RecoveryAction, text: Seq<char>) -> bool {
    match a {
        RecoveryAction::Fail(StoreError::PublicationAborted(m)) => m@ == text,
        _ => false,
    }
}

/// The action is a failure with invalid metadata carrying this text.
pub open spec fn fails_invalid(a: RecoveryAction, text: Seq<char>) -> bool {
    match a {
        RecoveryAction::Fail(StoreError::InvalidMetadata(m)) => m@ == text,
        _ => false,
    }
}

/// One step of a recovery (see the module documentation); a failure ends it.
pub fn recovery_step(state: RecoveryState, event: RecoveryEvent) -> (r: (RecoveryState, RecoveryAction))
    requires
        recovery_event_fits(state, event),
    ensures
        match (state, event) {
            (RecoveryState::Start, RecoveryEvent::Rebuilt(f)) => if f == Freshness::Current {
                r.0 is Current && r.1 is CheckIntegrity
            } else {
                r.0 is Done && fails_aborted(r.1, "recovery candidate did not reach current freshness"@)
            },
            (RecoveryState::Current, RecoveryEvent::Integrity(t)) => if t@ == "ok"@ {
                r.0 is Intact && r.1 is MakeDurable
            } else {
                r.0 is Done && fails_invalid(r.1, "recovery candidate failed integrity check: "@ + t@)
            },
            (RecoveryState::Intact, RecoveryEvent::Guarded(g)) => match g {
                Ok(_) => r.0 is Durable && r.1 is Revalidate,
                Err(m) => r.0 is Done && fails_aborted(r.1, m@),
            },
            (RecoveryState::Durable, RecoveryEvent::Revalidated(failure)) => match failure {
                None => r.0 is Revalidated && r.1 is CheckIntegrity,
                Some(m) => r.0 is Done && fails_aborted(
                    r.1,
                    "recovery candidate lost freshness before replacement: "@ + m@,
                ),
            },
            (RecoveryState::Revalidated, RecoveryEvent::Integrity(t)) => if t@ == "ok"@ {
                r.0 is Verified && r.1 is Replace
            } else {
                r.0 is Done && fails_invalid(r.1, "recovery candidate failed final integrity check: "@ + t@)
            },
            (RecoveryState::Verified, RecoveryEvent::Replaced(f, t)) => r.0 is Done && if f == Freshness::Current
                && t@ == "ok"@ {
                r.1 is Finish
            } else {
                fails_invalid(r.1, "replacement index failed post-recovery verification"@)
            },
            _ => true,
        },
{
    match (state, event) {
        (RecoveryState::Start, RecoveryEvent::Rebuilt(f)) => match check_candidate_freshness(f) {
            Ok(()) => (RecoveryState::Current, RecoveryAction::CheckIntegrity),
            Err(e) => (RecoveryState::Done, RecoveryAction::Fail(e)),
        },
        (RecoveryState::Current, RecoveryEvent::Integrity(t)) => match check_integrity(t.as_str(), false) {
            Ok(()) => (RecoveryState::Intact, RecoveryAction::MakeDurable),
            Err(e) => (RecoveryState::Done, RecoveryAction::Fail(e)),
        },
        (RecoveryState::Intact, RecoveryEvent::Guarded(g)) => match g {
            Ok(()) => (RecoveryState::Durable, RecoveryAction::Revalidate),
            Err(m) => (RecoveryState::Done, RecoveryAction::Fail(StoreError::PublicationAborted(m))),
        },
        (RecoveryState::Durable, RecoveryEvent::Revalidated(failure)) => match failure {
            None => (RecoveryState::Revalidated, RecoveryAction::CheckIntegrity),
            Some(m) => (
                RecoveryState::Done,
                RecoveryAction::Fail(StoreError::PublicationAborted(
                    concat2("recovery candidate lost freshness before replacement: ", m.as_str()),
                )),
            ),
        },
        (RecoveryState::Revalidated, RecoveryEvent::Integrity(t)) => match check_integrity(t.as_str(), true) {
            Ok(()) => (RecoveryState::Verified, RecoveryAction::Replace),
            Err(e) => (RecoveryState::Done, RecoveryAction::Fail(e)),
        },
        (RecoveryState::Verified, RecoveryEvent::Replaced(f, t)) => match check_replacement(f, t.as_str()) {
            Ok(()) => (RecoveryState::Done, RecoveryAction::Finish),
            Err(e) => (RecoveryState::Done, RecoveryAction::Fail(e)),
        },
        _ => (RecoveryState::Done, RecoveryAction::Finish),
    }
}

} // verus!
