//! What becomes of the account of an artifact while it is published.
//!
//! An artifact is written under a temporary name, installed under its own and
//! committed, or removed. An account follows the name that it has. The
//! functions here decide, from what is seen under a name, what is done to the
//! account.
use vstd::prelude::*;
use vstd::string::*;

use crate::error::{GfError, storage_err};
use crate::snapshot::FileIdentity;

verus! {

/// What is done to the account of a name.
#[derive(Clone, Copy, Debug, PartialEq, Eq, Structural)]
pub enum AccountStep {
    /// Nothing.
    Leave,
    /// The file under the name is accounted for.
    Observe,
    /// The name is taken off the account.
    Release,
}

/// Why the file under a name is not the artifact, if it is not.
pub open spec fn observation(seen: Option<FileIdentity>, expected: Option<FileIdentity>) -> Result<
    AccountStep,
    Seq<char>,
> {
    match seen {
        None => Ok(AccountStep::Leave),
        Some(actual) => if expected is Some && actual != expected->0 {
            Err("observed artifact identity changed"@)
        } else {
            Ok(AccountStep::Observe)
        },
    }
}

/// Account for the file under the name of an artifact. `expected` is absent
/// where the identity of the artifact is not known.
pub fn observe_named(seen: Option<FileIdentity>, expected: Option<FileIdentity>) -> (step: Result<
    AccountStep,
    GfError,
>)
    ensures
        match step {
            Ok(step) => observation(seen, expected) == Ok::<AccountStep, Seq<char>>(step),
            Err(error) => observation(seen, expected) is Err && error.is_storage(
                observation(seen, expected)->Err_0,
            ),
        },
{
    match seen {
        None => Ok(AccountStep::Leave),
        Some(actual) => match expected {
            Some(expected) => if actual != expected {
                Err(storage_err("observed artifact identity changed"))
            } else {
                Ok(AccountStep::Observe)
            },
            None => Ok(AccountStep::Observe),
        },
    }
}

/// What is done to the account of an artifact that was to be removed.
pub open spec fn reconciliation(seen: Option<FileIdentity>, expected: Option<FileIdentity>) -> Result<
    AccountStep,
    Seq<char>,
> {
    match seen {
        None => Ok(AccountStep::Release),
        Some(actual) => match expected {
            None => Err("artifact identity unavailable during cleanup"@),
            Some(expected) => if actual != expected {
                Ok(AccountStep::Release)
            } else {
                Ok(AccountStep::Leave)
            },
        },
    }
}

/// Take an artifact off the account once its name is free or another file's.
pub fn reconcile_removed(seen: Option<FileIdentity>, expected: Option<FileIdentity>) -> (step: Result<
    AccountStep,
    GfError,
>)
    ensures
        match step {
            Ok(step) => reconciliation(seen, expected) == Ok::<AccountStep, Seq<char>>(step),
            Err(error) => reconciliation(seen, expected) is Err && error.is_storage(
                reconciliation(seen, expected)->Err_0,
            ),
        },
{
    match seen {
        None => Ok(AccountStep::Release),
        Some(actual) => match expected {
            None => Err(storage_err("artifact identity unavailable during cleanup")),
            Some(expected) => if actual != expected {
                Ok(AccountStep::Release)
            } else {
                Ok(AccountStep::Leave)
            },
        },
    }
}

/// Whether the account moves to the target name. An installation can rename
/// and fail afterwards: the account follows the artifact itself, never a file
/// that was in its way.
pub fn rebinds(installed: bool, seen: Option<FileIdentity>, expected: Option<FileIdentity>) -> (yes:
    bool)
    ensures
        yes == (installed || (seen is Some && seen == expected)),
{
    if installed {
        return true;
    }
    match seen {
        Some(actual) => match expected {
            Some(expected) => actual == expected,
            None => false,
        },
        None => false,
    }
}

/// The result of a removal: that of removing comes first, then that of
/// observing, then that of reconciling.
pub fn cleanup_checked(
    cleaned: Result<(), GfError>,
    observed: Result<(), GfError>,
    reconciled: Result<(), GfError>,
) -> (result: Result<(), GfError>)
    ensures
        result == (if cleaned is Err {
            cleaned
        } else if observed is Err {
            observed
        } else {
            reconciled
        }),
{
    match cleaned {
        Ok(()) => match observed {
            Ok(()) => reconciled,
            Err(error) => Err(error),
        },
        Err(error) => Err(error),
    }
}

/// A name is on the account exactly as long as the artifact is under it: where
/// its identity is known, observing accounts for it exactly where reconciling
/// leaves it.
pub proof fn lemma_account_follows(seen: Option<FileIdentity>, expected: FileIdentity)
    ensures
        observation(seen, Some(expected)) == Ok::<AccountStep, Seq<char>>(AccountStep::Observe)
            <==> reconciliation(seen, Some(expected)) == Ok::<AccountStep, Seq<char>>(
            AccountStep::Leave,
        ),
        reconciliation(seen, Some(expected)) is Ok,
{
}

} // verus!
