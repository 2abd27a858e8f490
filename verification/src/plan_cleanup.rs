//! Reclaiming abandoned planner directories, and failures during cleanup.
use vstd::prelude::*;
use vstd::slice::*;
use vstd::string::*;
use vstd::utf8::*;

use crate::bytes::{has_prefix, sat_add, saturating_sum, starts_with};
use crate::error::{GfError, storage_err};

verus! {

/// Prefix of the name of a planner directory.
pub const V4_PLAN_PREFIX: &'static str = "uuid-membership-v4-plan-";

/// Planner directories that are reclaimed at a time.
pub const V4_PLAN_CLEANUP_CANDIDATES: usize = 16;

/// Bytes that are reclaimed from one planner directory.
pub const V4_PLAN_CLEANUP_BYTES: u64 = 2_147_483_648;

/// A file of a planner directory.
#[derive(Clone, Copy, Debug, PartialEq, Eq, Structural)]
pub struct PlanFile {
    /// Links.
    pub links: u64,
    /// Length.
    pub bytes: u64,
}

/// A planner directory: its files, those of its artifact directory where they
/// are met.
#[derive(Debug, PartialEq, Eq)]
pub struct PlanDirectory {
    /// Name.
    pub name: String,
    /// Files, in order.
    pub files: Vec<PlanFile>,
}

/// How far reclaiming comes.
#[derive(Debug, PartialEq, Eq)]
pub struct PlanCleanup {
    /// Directories that are reclaimed.
    pub directories: usize,
    /// Files that are removed from the directory after them.
    pub files: usize,
    /// What stops the work.
    pub fault: Option<GfError>,
}

/// Model of how far reclaiming comes.
pub ghost struct CleanupModel {
    pub directories: nat,
    pub files: nat,
    pub fault: Option<Seq<char>>,
}

/// Whether reclaiming comes as far as its model says.
pub open spec fn reclaims(cleanup: PlanCleanup, model: CleanupModel) -> bool {
    &&& cleanup.directories == model.directories
    &&& cleanup.files == model.files
    &&& match cleanup.fault {
        None => model.fault is None,
        Some(error) => model.fault is Some && error.is_storage(model.fault->0),
    }
}

/// Bytes of some files.
pub open spec fn file_bytes(files: Seq<PlanFile>) -> nat
    decreases files.len(),
{
    if files.len() == 0 {
        0
    } else {
        file_bytes(files.drop_last()) + files.last().bytes as nat
    }
}

/// Files removed from a planner directory, and what stops the removal.
pub open spec fn directory_cleanup(files: Seq<PlanFile>) -> (nat, Option<Seq<char>>)
    decreases files.len(),
{
    if files.len() == 0 {
        (0, None)
    } else {
        let (removed, fault) = directory_cleanup(files.drop_last());
        let bytes = file_bytes(files);
        if fault is Some {
            (removed, fault)
        } else if files.last().links != 1 {
            (removed, Some("v4 planner cleanup file has unexpected links"@))
        } else if bytes > u64::MAX {
            (removed, Some("v4 planner cleanup byte count overflow"@))
        } else if bytes > V4_PLAN_CLEANUP_BYTES {
            (removed, Some("v4 planner cleanup byte bound exceeded"@))
        } else {
            (removed + 1, None)
        }
    }
}

proof fn lemma_directory_stops(files: Seq<PlanFile>, n: int)
    requires
        0 <= n <= files.len(),
        directory_cleanup(files.take(n)).1 is Some,
    ensures
        directory_cleanup(files) == directory_cleanup(files.take(n)),
    decreases files.len(),
{
    if n < files.len() {
        assert(files.drop_last().take(n) =~= files.take(n));
        lemma_directory_stops(files.drop_last(), n);
    } else {
        assert(files.take(n) =~= files);
    }
}

/// Remove the files of a planner directory, as far as its bounds allow.
pub fn cleanup_v4_plan_directory(files: &Vec<PlanFile>) -> (cleanup: (usize, Option<GfError>))
    ensures
        ({
            let model = directory_cleanup(files@);
            &&& cleanup.0 == model.0
            &&& match cleanup.1 {
                None => model.1 is None,
                Some(error) => model.1 is Some && error.is_storage(model.1->0),
            }
        }),
{
    let mut bytes: u64 = 0;
    let mut i: usize = 0;
    while i < files.len()
        invariant
            i <= files@.len(),
            bytes == file_bytes(files@.take(i as int)),
            directory_cleanup(files@.take(i as int)) == (i as nat, None::<Seq<char>>),
        decreases files.len() - i,
    {
        assert(files@.take(i + 1).drop_last() =~= files@.take(i as int));
        if files[i].links != 1 {
            proof {
                lemma_directory_stops(files@, i + 1);
            }
            return (i, Some(storage_err("v4 planner cleanup file has unexpected links")));
        }
        bytes = match bytes.checked_add(files[i].bytes) {
            Some(sum) => sum,
            None => {
                proof {
                    lemma_directory_stops(files@, i + 1);
                }
                return (i, Some(storage_err("v4 planner cleanup byte count overflow")));
            },
        };
        if bytes > V4_PLAN_CLEANUP_BYTES {
            proof {
                lemma_directory_stops(files@, i + 1);
            }
            return (i, Some(storage_err("v4 planner cleanup byte bound exceeded")));
        }
        i = i + 1;
    }
    assert(files@.take(i as int) =~= files@);
    (i, None)
}

/// Whether a byte is an ASCII letter or digit.
pub open spec fn is_alphanumeric(byte: u8) -> bool {
    48 <= byte <= 57 || 65 <= byte <= 90 || 97 <= byte <= 122
}

/// Whether a name is that of a planner directory: the prefix and a nonempty
/// nonce of letters and digits.
pub open spec fn is_plan_name(name: Seq<char>) -> bool {
    let bytes = encode_utf8(name);
    let n = encode_utf8(V4_PLAN_PREFIX@).len() as int;
    &&& starts_with(bytes, encode_utf8(V4_PLAN_PREFIX@))
    &&& bytes.len() > n
    &&& forall|i: int| n <= i < bytes.len() ==> is_alphanumeric(#[trigger] bytes[i])
}

fn check_plan_name(name: &str) -> (yes: bool)
    ensures
        yes == is_plan_name(name@),
{
    let bytes: &[u8] = name.as_bytes();
    let prefix: &[u8] = V4_PLAN_PREFIX.as_bytes();
    if !has_prefix(bytes, prefix) || bytes.len() <= prefix.len() {
        return false;
    }
    let mut i: usize = prefix.len();
    while i < bytes.len()
        invariant
            prefix@.len() <= i <= bytes@.len(),
            forall|j: int| prefix@.len() <= j < i ==> is_alphanumeric(#[trigger] bytes@[j]),
            bytes@ == encode_utf8(name@),
            prefix@ == encode_utf8(V4_PLAN_PREFIX@),
        decreases bytes.len() - i,
    {
        let byte: u8 = bytes[i];
        if !((48 <= byte && byte <= 57) || (65 <= byte && byte <= 90) || (97 <= byte && byte
            <= 122)) {
            assert(!is_alphanumeric(bytes@[i as int]));
            return false;
        }
        i = i + 1;
    }
    true
}

/// How far reclaiming some directories comes, one after another.
pub open spec fn directories_cleanup(directories: Seq<PlanDirectory>) -> CleanupModel
    decreases directories.len(),
{
    if directories.len() == 0 {
        CleanupModel { directories: 0, files: 0, fault: None }
    } else {
        let before = directories_cleanup(directories.drop_last());
        let last = directories.last();
        if before.fault is Some {
            before
        } else if !is_plan_name(last.name@) {
            CleanupModel {
                fault: Some("v4 planner namespace contains an unknown child"@),
                ..before
            }
        } else {
            let (files, fault) = directory_cleanup(last.files@);
            if fault is Some {
                CleanupModel { files, fault, ..before }
            } else {
                CleanupModel { directories: before.directories + 1, ..before }
            }
        }
    }
}

proof fn lemma_directories_stop(directories: Seq<PlanDirectory>, n: int)
    requires
        0 <= n <= directories.len(),
        directories_cleanup(directories.take(n)).fault is Some,
    ensures
        directories_cleanup(directories) == directories_cleanup(directories.take(n)),
    decreases directories.len(),
{
    if n < directories.len() {
        assert(directories.drop_last().take(n) =~= directories.take(n));
        lemma_directories_stop(directories.drop_last(), n);
    } else {
        assert(directories.take(n) =~= directories);
    }
}

/// How far reclaiming comes: nowhere where there are too many directories.
pub open spec fn plan_cleanup(directories: Seq<PlanDirectory>) -> CleanupModel {
    if directories.len() > V4_PLAN_CLEANUP_CANDIDATES {
        CleanupModel {
            directories: 0,
            files: 0,
            fault: Some("v4 planner cleanup candidate bound exceeded"@),
        }
    } else {
        directories_cleanup(directories)
    }
}

/// Reclaim abandoned planner directories, as far as the bounds allow and
/// every name is one that the planner gives.
pub fn cleanup_abandoned_v4_plan_directories(directories: &Vec<PlanDirectory>) -> (cleanup:
    PlanCleanup)
    ensures
        reclaims(cleanup, plan_cleanup(directories@)),
{
    if directories.len() > V4_PLAN_CLEANUP_CANDIDATES {
        return PlanCleanup {
            directories: 0,
            files: 0,
            fault: Some(storage_err("v4 planner cleanup candidate bound exceeded")),
        };
    }
    let mut i: usize = 0;
    while i < directories.len()
        invariant
            i <= directories@.len() <= V4_PLAN_CLEANUP_CANDIDATES,
            directories_cleanup(directories@.take(i as int)) == (CleanupModel {
                directories: i as nat,
                files: 0,
                fault: None,
            }),
        decreases directories.len() - i,
    {
        assert(directories@.take(i + 1).drop_last() =~= directories@.take(i as int));
        if !check_plan_name(directories[i].name.as_str()) {
            proof {
                lemma_directories_stop(directories@, i + 1);
            }
            return PlanCleanup {
                directories: i,
                files: 0,
                fault: Some(storage_err("v4 planner namespace contains an unknown child")),
            };
        }
        let (files, fault): (usize, Option<GfError>) = cleanup_v4_plan_directory(
            &directories[i].files,
        );
        if fault.is_some() {
            proof {
                lemma_directories_stop(directories@, i + 1);
            }
            return PlanCleanup { directories: i, files, fault };
        }
        i = i + 1;
    }
    assert(directories@.take(i as int) =~= directories@);
    PlanCleanup { directories: i, files: 0, fault: None }
}

/// What is said where work and cleanup both fail.
pub open spec fn both_failed(primary: GfError, also: Seq<char>, cleanup: GfError) -> Seq<char> {
    primary.text() + "; "@ + also + " also failed: "@ + cleanup.text()
}

/// The result of work that is followed by cleanup: the value only where both
/// succeed, else the failure that there is, or both of them.
pub open spec fn combines<T>(
    combined: Result<T, GfError>,
    primary: Result<T, GfError>,
    cleanup: Result<(), GfError>,
    also: Seq<char>,
) -> bool {
    match primary {
        Ok(value) => match cleanup {
            Ok(()) => combined == Ok::<T, GfError>(value),
            Err(cleanup) => combined == Err::<T, GfError>(cleanup),
        },
        Err(primary) => match cleanup {
            Ok(()) => combined == Err::<T, GfError>(primary),
            Err(cleanup) => combined matches Err(error) && error.is_storage(
                both_failed(primary, also, cleanup),
            ),
        },
    }
}

/// Combine work with the cleanup that follows it.
pub fn combine_v4_cleanup<T>(
    primary: Result<T, GfError>,
    cleanup: Result<(), GfError>,
    context: &str,
) -> (combined: Result<T, GfError>)
    ensures
        combines(combined, primary, cleanup, context@),
{
    match primary {
        Ok(value) => match cleanup {
            Ok(()) => Ok(value),
            Err(cleanup) => Err(cleanup),
        },
        Err(primary) => match cleanup {
            Ok(()) => Err(primary),
            Err(cleanup) => {
                let mut text: String = primary.message();
                text.append("; ");
                text.append(context);
                text.append(" also failed: ");
                text.append(cleanup.message().as_str());
                Err(storage_err(text.as_str()))
            },
        },
    }
}

/// Combine work with the release of the cache of its source.
pub fn combine_cache_cleanup<T>(
    primary: Result<T, GfError>,
    cleanup: Result<(), GfError>,
    source: &str,
) -> (combined: Result<T, GfError>)
    ensures
        combines(combined, primary, cleanup, source@ + " cache release"@),
{
    let mut context: String = source.to_owned();
    context.append(" cache release");
    combine_v4_cleanup(primary, cleanup, context.as_str())
}

/// Evidence of releasing file caches.
#[derive(Clone, Copy, Debug, PartialEq, Eq, Structural)]
pub struct FileCacheReleaseEvidence {
    /// File synchronizations.
    pub sync_operations: u64,
    /// Releases.
    pub release_operations: u64,
    /// Releases that the system does not support.
    pub unsupported_operations: u64,
    /// Bytes released.
    pub released_bytes: u64,
    /// Largest window.
    pub peak_window_bytes: u64,
}

/// Evidence of both.
pub open spec fn merged_evidence(
    target: FileCacheReleaseEvidence,
    source: FileCacheReleaseEvidence,
) -> FileCacheReleaseEvidence {
    FileCacheReleaseEvidence {
        sync_operations: sat_add(target.sync_operations, source.sync_operations),
        release_operations: sat_add(target.release_operations, source.release_operations),
        unsupported_operations: sat_add(
            target.unsupported_operations,
            source.unsupported_operations,
        ),
        released_bytes: sat_add(target.released_bytes, source.released_bytes),
        peak_window_bytes: crate::ordinal_format::larger(
            target.peak_window_bytes,
            source.peak_window_bytes,
        ),
    }
}

/// Add evidence to evidence.
pub fn merge_cache_release_evidence(
    target: &mut FileCacheReleaseEvidence,
    source: FileCacheReleaseEvidence,
)
    ensures
        *final(target) == merged_evidence(*old(target), source),
{
    target.sync_operations = saturating_sum(target.sync_operations, source.sync_operations);
    target.release_operations = saturating_sum(
        target.release_operations,
        source.release_operations,
    );
    target.unsupported_operations = saturating_sum(
        target.unsupported_operations,
        source.unsupported_operations,
    );
    target.released_bytes = saturating_sum(target.released_bytes, source.released_bytes);
    target.peak_window_bytes = crate::ordinal_format::max_of(
        target.peak_window_bytes,
        source.peak_window_bytes,
    );
}

/// Evidence adds up the same whichever comes first.
pub proof fn lemma_evidence_order(
    left: FileCacheReleaseEvidence,
    right: FileCacheReleaseEvidence,
)
    ensures
        merged_evidence(left, right) == merged_evidence(right, left),
{
}

/// What is reclaimed from a directory stays within the byte bound.
pub proof fn lemma_cleanup_bounded(files: Seq<PlanFile>)
    ensures
        directory_cleanup(files).0 <= files.len(),
        file_bytes(files.take(directory_cleanup(files).0 as int)) <= V4_PLAN_CLEANUP_BYTES,
        directory_cleanup(files).1 is None ==> directory_cleanup(files).0 == files.len(),
    decreases files.len(),
{
    if files.len() > 0 {
        let front = files.drop_last();
        lemma_cleanup_bounded(front);
        let n = directory_cleanup(files).0 as int;
        if n < files.len() {
            assert(front.take(n) =~= files.take(n));
        } else {
            assert(files.take(n) =~= files);
        }
    }
}

} // verus!
