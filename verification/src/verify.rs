//! Read-only integrity verification of a committed project.
//!
//! Every object is hashed anew and held against the digest that is recorded
//! for it or that its name declares. A damaged object is counted, so that one
//! failure does not stop the sweep.
use vstd::prelude::*;
use vstd::string::*;

use crate::bytes::same_bytes;
use crate::digest::{hex_sha256, sha256, sha256_digest, sha256_hex};
use crate::error::{concat3, GfError};
use crate::private_names::{canonical_lower_hex, lower_hex_text};

verus! {

/// Contract identifier of a report.
pub const VERIFY_CONTRACT: &'static str = "graphforge-verify/1";

/// Most bytes of a project control file.
pub const MAX_CONTROL_OBJECT_BYTES: u64 = 67_108_864;

/// Pass and fail counts for one verification category.
#[derive(Clone, Copy, Debug, PartialEq, Eq, Structural)]
pub struct VerifyCategoryCounts {
    /// Objects considered.
    pub objects_checked: u64,
    /// Objects with the digest that is recorded or declared for them.
    pub objects_passed: u64,
    /// Objects with another digest, or that could not be read.
    pub objects_failed: u64,
    /// Payload bytes read.
    pub bytes_read: u64,
}

/// Counts before the first object.
pub open spec fn nothing_counted() -> VerifyCategoryCounts {
    VerifyCategoryCounts { objects_checked: 0, objects_passed: 0, objects_failed: 0, bytes_read: 0 }
}

/// Counts after one more object; none where a counter overflows.
pub open spec fn recorded(counts: VerifyCategoryCounts, bytes: u64, passed: bool) -> Result<
    VerifyCategoryCounts,
    Seq<char>,
> {
    if counts.objects_checked == u64::MAX || counts.bytes_read + bytes > u64::MAX || (passed
        && counts.objects_passed == u64::MAX) || (!passed && counts.objects_failed == u64::MAX) {
        Err("verify counter overflow"@)
    } else {
        Ok(
            VerifyCategoryCounts {
                objects_checked: (counts.objects_checked + 1) as u64,
                objects_passed: (counts.objects_passed + if passed {
                    1int
                } else {
                    0
                }) as u64,
                objects_failed: (counts.objects_failed + if passed {
                    0int
                } else {
                    1
                }) as u64,
                bytes_read: (counts.bytes_read + bytes) as u64,
            },
        )
    }
}

fn checked_add(left: u64, right: u64) -> (sum: Result<u64, GfError>)
    ensures
        match sum {
            Ok(sum) => sum == left + right,
            Err(error) => left + right > u64::MAX && error.is_validation(
                "verify counter overflow"@,
            ),
        },
{
    match left.checked_add(right) {
        Some(sum) => Ok(sum),
        None => Err(GfError::Validation("verify counter overflow".to_owned())),
    }
}

impl VerifyCategoryCounts {
    /// Counts before the first object.
    pub fn none() -> (counts: VerifyCategoryCounts)
        ensures
            counts == nothing_counted(),
    {
        VerifyCategoryCounts {
            objects_checked: 0,
            objects_passed: 0,
            objects_failed: 0,
            bytes_read: 0,
        }
    }

    /// Count one object.
    pub fn record(self, bytes: u64, passed: bool) -> (counts: Result<VerifyCategoryCounts, GfError>)
        ensures
            match counts {
                Ok(counts) => recorded(self, bytes, passed) == Ok::<
                    VerifyCategoryCounts,
                    Seq<char>,
                >(counts),
                Err(error) => recorded(self, bytes, passed) is Err && error.is_validation(
                    recorded(self, bytes, passed)->Err_0,
                ),
            },
    {
        let objects_checked: u64 = match checked_add(self.objects_checked, 1) {
            Ok(sum) => sum,
            Err(error) => {
                return Err(error);
            },
        };
        let bytes_read: u64 = match checked_add(self.bytes_read, bytes) {
            Ok(sum) => sum,
            Err(error) => {
                return Err(error);
            },
        };
        let mut counts = VerifyCategoryCounts { objects_checked, bytes_read, ..self };
        if passed {
            match checked_add(self.objects_passed, 1) {
                Ok(sum) => {
                    counts.objects_passed = sum;
                },
                Err(error) => {
                    return Err(error);
                },
            }
        } else {
            match checked_add(self.objects_failed, 1) {
                Ok(sum) => {
                    counts.objects_failed = sum;
                },
                Err(error) => {
                    return Err(error);
                },
            }
        }
        Ok(counts)
    }
}

/// Whether a text is a name segment of this length in lowercase hexadecimal.
pub fn is_canonical_hex_segment(value: &str, expected: usize) -> (yes: bool)
    ensures
        yes == lower_hex_text(value@, expected as nat),
{
    canonical_lower_hex(value, expected)
}

/// An entry of an object bucket.
#[derive(Debug, PartialEq, Eq)]
pub struct ObjectEntry {
    /// File name; absent where it is not text.
    pub name: Option<String>,
    /// Whether it is a regular file.
    pub file: bool,
    /// Length.
    pub length: u64,
    /// Contents; absent where they cannot be read.
    pub contents: Option<Vec<u8>>,
}

/// An entry of the object store.
#[derive(Debug, PartialEq, Eq)]
pub struct ObjectBucket {
    /// Directory name; absent where it is not text.
    pub name: Option<String>,
    /// Whether it is a directory.
    pub directory: bool,
    /// Entries in directory order.
    pub entries: Vec<ObjectEntry>,
}

/// Whether an object has its length and the digest that its bucket and name
/// declare.
pub open spec fn intact(
    prefix: Seq<char>,
    name: Seq<char>,
    length: u64,
    contents: Option<Vec<u8>>,
) -> bool {
    contents matches Some(bytes) && bytes@.len() == length && sha256_hex(bytes@) == prefix + name
}

/// Counts after one more entry of a bucket.
pub open spec fn entry_counted(
    counts: VerifyCategoryCounts,
    prefix: Seq<char>,
    entry: ObjectEntry,
) -> Result<VerifyCategoryCounts, Seq<char>> {
    if !entry.file {
        Ok(counts)
    } else {
        match entry.name {
            None => Err("graph object name is not UTF-8"@),
            Some(name) => if !lower_hex_text(name@, 62) {
                Err("graph object name is not canonical"@)
            } else {
                recorded(counts, entry.length, intact(prefix, name@, entry.length, entry.contents))
            },
        }
    }
}

/// Counts after some entries of a bucket.
pub open spec fn entries_counted(
    counts: VerifyCategoryCounts,
    prefix: Seq<char>,
    entries: Seq<ObjectEntry>,
) -> Result<VerifyCategoryCounts, Seq<char>>
    decreases entries.len(),
{
    if entries.len() == 0 {
        Ok(counts)
    } else {
        match entries_counted(counts, prefix, entries.drop_last()) {
            Err(text) => Err(text),
            Ok(before) => entry_counted(before, prefix, entries.last()),
        }
    }
}

/// Counts after one more bucket.
pub open spec fn bucket_counted(counts: VerifyCategoryCounts, bucket: ObjectBucket) -> Result<
    VerifyCategoryCounts,
    Seq<char>,
> {
    if !bucket.directory {
        Ok(counts)
    } else {
        match bucket.name {
            None => Err("graph object prefix is not UTF-8"@),
            Some(prefix) => if !lower_hex_text(prefix@, 2) {
                Ok(counts)
            } else {
                entries_counted(counts, prefix@, bucket.entries@)
            },
        }
    }
}

/// Counts after some buckets.
pub open spec fn buckets_counted(buckets: Seq<ObjectBucket>) -> Result<
    VerifyCategoryCounts,
    Seq<char>,
>
    decreases buckets.len(),
{
    if buckets.len() == 0 {
        Ok(nothing_counted())
    } else {
        match buckets_counted(buckets.drop_last()) {
            Err(text) => Err(text),
            Ok(before) => bucket_counted(before, buckets.last()),
        }
    }
}

proof fn lemma_entries_fail(
    counts: VerifyCategoryCounts,
    prefix: Seq<char>,
    entries: Seq<ObjectEntry>,
    n: int,
)
    requires
        0 <= n <= entries.len(),
        entries_counted(counts, prefix, entries.take(n)) is Err,
    ensures
        entries_counted(counts, prefix, entries) == entries_counted(
            counts,
            prefix,
            entries.take(n),
        ),
    decreases entries.len(),
{
    if n < entries.len() {
        assert(entries.drop_last().take(n) =~= entries.take(n));
        lemma_entries_fail(counts, prefix, entries.drop_last(), n);
    } else {
        assert(entries.take(n) =~= entries);
    }
}

proof fn lemma_buckets_fail(buckets: Seq<ObjectBucket>, n: int)
    requires
        0 <= n <= buckets.len(),
        buckets_counted(buckets.take(n)) is Err,
    ensures
        buckets_counted(buckets) == buckets_counted(buckets.take(n)),
    decreases buckets.len(),
{
    if n < buckets.len() {
        assert(buckets.drop_last().take(n) =~= buckets.take(n));
        lemma_buckets_fail(buckets.drop_last(), n);
    } else {
        assert(buckets.take(n) =~= buckets);
    }
}

fn count_entry(counts: VerifyCategoryCounts, prefix: &String, entry: &ObjectEntry) -> (after: Result<
    VerifyCategoryCounts,
    GfError,
>)
    ensures
        match after {
            Ok(after) => entry_counted(counts, prefix@, *entry) == Ok::<
                VerifyCategoryCounts,
                Seq<char>,
            >(after),
            Err(error) => entry_counted(counts, prefix@, *entry) is Err && error.is_validation(
                entry_counted(counts, prefix@, *entry)->Err_0,
            ),
        },
{
    if !entry.file {
        return Ok(counts);
    }
    let name: &String = match &entry.name {
        Some(name) => name,
        None => {
            return Err(GfError::Validation("graph object name is not UTF-8".to_owned()));
        },
    };
    if !is_canonical_hex_segment(name.as_str(), 62) {
        return Err(GfError::Validation("graph object name is not canonical".to_owned()));
    }
    let declared: String = concat3(prefix.as_str(), "", name.as_str());
    proof {
        reveal_strlit("");
        assert(declared@ =~= prefix@ + name@);
    }
    let passed: bool = match &entry.contents {
        Some(bytes) => bytes.len() as u64 == entry.length && hex_sha256(bytes.as_slice())
            == declared,
        None => false,
    };
    counts.record(entry.length, passed)
}

fn count_entries(counts: VerifyCategoryCounts, prefix: &String, entries: &Vec<ObjectEntry>) -> (after:
    Result<VerifyCategoryCounts, GfError>)
    ensures
        match after {
            Ok(after) => entries_counted(counts, prefix@, entries@) == Ok::<
                VerifyCategoryCounts,
                Seq<char>,
            >(after),
            Err(error) => entries_counted(counts, prefix@, entries@) is Err && error.is_validation(
                entries_counted(counts, prefix@, entries@)->Err_0,
            ),
        },
{
    let mut after: VerifyCategoryCounts = counts;
    let mut i: usize = 0;
    while i < entries.len()
        invariant
            i <= entries@.len(),
            entries_counted(counts, prefix@, entries@.take(i as int)) == Ok::<
                VerifyCategoryCounts,
                Seq<char>,
            >(after),
        decreases entries.len() - i,
    {
        assert(entries@.take(i + 1).drop_last() =~= entries@.take(i as int));
        match count_entry(after, prefix, &entries[i]) {
            Ok(next) => {
                after = next;
            },
            Err(error) => {
                proof {
                    lemma_entries_fail(counts, prefix@, entries@, i + 1);
                }
                return Err(error);
            },
        }
        i = i + 1;
    }
    assert(entries@.take(i as int) =~= entries@);
    Ok(after)
}

/// Count every object of the store.
pub fn verify_content_addressed_objects(buckets: &Vec<ObjectBucket>) -> (counts: Result<
    VerifyCategoryCounts,
    GfError,
>)
    ensures
        match counts {
            Ok(counts) => buckets_counted(buckets@) == Ok::<VerifyCategoryCounts, Seq<char>>(
                counts,
            ),
            Err(error) => buckets_counted(buckets@) is Err && error.is_validation(
                buckets_counted(buckets@)->Err_0,
            ),
        },
{
    let mut counts: VerifyCategoryCounts = VerifyCategoryCounts::none();
    let mut i: usize = 0;
    while i < buckets.len()
        invariant
            i <= buckets@.len(),
            buckets_counted(buckets@.take(i as int)) == Ok::<VerifyCategoryCounts, Seq<char>>(
                counts,
            ),
        decreases buckets.len() - i,
    {
        assert(buckets@.take(i + 1).drop_last() =~= buckets@.take(i as int));
        let bucket: &ObjectBucket = &buckets[i];
        i = i + 1;
        if !bucket.directory {
            continue ;
        }
        let counted: Result<VerifyCategoryCounts, GfError> = match &bucket.name {
            Some(prefix) => if !is_canonical_hex_segment(prefix.as_str(), 2) {
                Ok(counts)
            } else {
                count_entries(counts, prefix, &bucket.entries)
            },
            None => Err(GfError::Validation("graph object prefix is not UTF-8".to_owned())),
        };
        match counted {
            Ok(next) => {
                counts = next;
            },
            Err(error) => {
                proof {
                    lemma_buckets_fail(buckets@, i as int);
                }
                return Err(error);
            },
        }
    }
    assert(buckets@.take(i as int) =~= buckets@);
    Ok(counts)
}

/// What is read of a committed project.
#[derive(Debug, PartialEq, Eq)]
pub struct ProjectStore {
    /// The selected generation.
    pub generation_uuid: u128,
    /// Its manifest; absent where it cannot be read.
    pub manifest: Option<Vec<u8>>,
    /// Digest that is recorded for the manifest.
    pub manifest_sha256: Vec<u8>,
    /// Length of each declared participant; absent where it is missing or is
    /// not the one that was declared.
    pub participants: Vec<Option<u64>>,
    /// The object store.
    pub objects: Vec<ObjectBucket>,
}

/// Counts after the manifest.
pub open spec fn manifest_counted(manifest: Option<Vec<u8>>, expected: Seq<u8>) -> Result<
    VerifyCategoryCounts,
    Seq<char>,
> {
    match manifest {
        Some(bytes) => recorded(
            nothing_counted(),
            bytes@.len() as u64,
            sha256_digest(bytes@) == expected,
        ),
        None => recorded(nothing_counted(), 0, false),
    }
}

/// Counts after some participants.
pub open spec fn participants_counted(
    counts: VerifyCategoryCounts,
    participants: Seq<Option<u64>>,
) -> Result<VerifyCategoryCounts, Seq<char>>
    decreases participants.len(),
{
    if participants.len() == 0 {
        Ok(counts)
    } else {
        match participants_counted(counts, participants.drop_last()) {
            Err(text) => Err(text),
            Ok(before) => match participants.last() {
                Some(length) => recorded(before, length, true),
                None => recorded(before, 0, false),
            },
        }
    }
}

/// Counts after the manifest and every participant.
pub open spec fn catalog_counted(store: ProjectStore) -> Result<VerifyCategoryCounts, Seq<char>> {
    match manifest_counted(store.manifest, store.manifest_sha256@) {
        Err(text) => Err(text),
        Ok(counts) => participants_counted(counts, store.participants@),
    }
}

proof fn lemma_participants_fail(
    counts: VerifyCategoryCounts,
    participants: Seq<Option<u64>>,
    n: int,
)
    requires
        0 <= n <= participants.len(),
        participants_counted(counts, participants.take(n)) is Err,
    ensures
        participants_counted(counts, participants) == participants_counted(
            counts,
            participants.take(n),
        ),
    decreases participants.len(),
{
    if n < participants.len() {
        assert(participants.drop_last().take(n) =~= participants.take(n));
        lemma_participants_fail(counts, participants.drop_last(), n);
    } else {
        assert(participants.take(n) =~= participants);
    }
}

fn verify_generation_manifest(manifest: &Option<Vec<u8>>, expected: &Vec<u8>) -> (counts: Result<
    VerifyCategoryCounts,
    GfError,
>)
    ensures
        match counts {
            Ok(counts) => manifest_counted(*manifest, expected@) == Ok::<
                VerifyCategoryCounts,
                Seq<char>,
            >(counts),
            Err(error) => manifest_counted(*manifest, expected@) is Err && error.is_validation(
                manifest_counted(*manifest, expected@)->Err_0,
            ),
        },
{
    match manifest {
        Some(bytes) => {
            let digest: [u8; 32] = sha256(bytes.as_slice());
            let passed: bool = same_bytes(digest.as_slice(), expected.as_slice());
            VerifyCategoryCounts::none().record(bytes.len() as u64, passed)
        },
        None => VerifyCategoryCounts::none().record(0, false),
    }
}

fn verify_participants(counts: VerifyCategoryCounts, participants: &Vec<Option<u64>>) -> (after:
    Result<VerifyCategoryCounts, GfError>)
    ensures
        match after {
            Ok(after) => participants_counted(counts, participants@) == Ok::<
                VerifyCategoryCounts,
                Seq<char>,
            >(after),
            Err(error) => participants_counted(counts, participants@) is Err
                && error.is_validation(participants_counted(counts, participants@)->Err_0),
        },
{
    let mut after: VerifyCategoryCounts = counts;
    let mut i: usize = 0;
    while i < participants.len()
        invariant
            i <= participants@.len(),
            participants_counted(counts, participants@.take(i as int)) == Ok::<
                VerifyCategoryCounts,
                Seq<char>,
            >(after),
        decreases participants.len() - i,
    {
        assert(participants@.take(i + 1).drop_last() =~= participants@.take(i as int));
        let counted: Result<VerifyCategoryCounts, GfError> = match participants[i] {
            Some(length) => after.record(length, true),
            None => after.record(0, false),
        };
        match counted {
            Ok(next) => {
                after = next;
            },
            Err(error) => {
                proof {
                    lemma_participants_fail(counts, participants@, i + 1);
                }
                return Err(error);
            },
        }
        i = i + 1;
    }
    assert(participants@.take(i as int) =~= participants@);
    Ok(after)
}

/// Result of one verification.
#[derive(Debug, PartialEq, Eq)]
pub struct ProjectVerifyReport {
    /// Contract identifier.
    pub contract: String,
    /// The generation that was verified.
    pub generation_uuid: u128,
    /// The manifest and every declared participant.
    pub catalog_and_participants: VerifyCategoryCounts,
    /// Every retained object.
    pub content_addressed_objects: VerifyCategoryCounts,
    /// Whether no category has a failure.
    pub ok: bool,
}

/// Whether a result is that of verifying a project.
pub open spec fn verifying(
    result: Result<ProjectVerifyReport, GfError>,
    store: ProjectStore,
) -> bool {
    match result {
        Ok(report) => {
            &&& report.contract@ == VERIFY_CONTRACT@
            &&& report.generation_uuid == store.generation_uuid
            &&& catalog_counted(store) == Ok::<VerifyCategoryCounts, Seq<char>>(
                report.catalog_and_participants,
            )
            &&& buckets_counted(store.objects@) == Ok::<VerifyCategoryCounts, Seq<char>>(
                report.content_addressed_objects,
            )
            &&& report.ok == (report.catalog_and_participants.objects_failed == 0
                && report.content_addressed_objects.objects_failed == 0)
        },
        Err(error) => if catalog_counted(store) is Err {
            error.is_validation(catalog_counted(store)->Err_0)
        } else {
            buckets_counted(store.objects@) is Err && error.is_validation(
                buckets_counted(store.objects@)->Err_0,
            )
        },
    }
}

/// Verify a committed project. A damaged object is counted; a store whose
/// directory names are not text, whose objects bear a name that is not text or
/// not canonical, or whose counters overflow, is an error.
pub fn verify_project_store(store: &ProjectStore) -> (report: Result<ProjectVerifyReport, GfError>)
    ensures
        verifying(report, *store),
{
    let manifest: VerifyCategoryCounts = match verify_generation_manifest(
        &store.manifest,
        &store.manifest_sha256,
    ) {
        Ok(counts) => counts,
        Err(error) => {
            return Err(error);
        },
    };
    let catalog_and_participants: VerifyCategoryCounts = match verify_participants(
        manifest,
        &store.participants,
    ) {
        Ok(counts) => counts,
        Err(error) => {
            return Err(error);
        },
    };
    let content_addressed_objects: VerifyCategoryCounts = match verify_content_addressed_objects(
        &store.objects,
    ) {
        Ok(counts) => counts,
        Err(error) => {
            return Err(error);
        },
    };
    let ok: bool = catalog_and_participants.objects_failed == 0
        && content_addressed_objects.objects_failed == 0;
    Ok(
        ProjectVerifyReport {
            contract: VERIFY_CONTRACT.to_owned(),
            generation_uuid: store.generation_uuid,
            catalog_and_participants,
            content_addressed_objects,
            ok,
        },
    )
}

/// Whether every object considered has either passed or failed.
pub open spec fn balanced(counts: VerifyCategoryCounts) -> bool {
    counts.objects_checked == counts.objects_passed + counts.objects_failed
}

proof fn lemma_entries_balanced(
    counts: VerifyCategoryCounts,
    prefix: Seq<char>,
    entries: Seq<ObjectEntry>,
)
    requires
        balanced(counts),
        entries_counted(counts, prefix, entries) is Ok,
    ensures
        balanced(entries_counted(counts, prefix, entries)->Ok_0),
    decreases entries.len(),
{
    if entries.len() > 0 {
        lemma_entries_balanced(counts, prefix, entries.drop_last());
    }
}

/// Every object that a sweep of the store considers has either passed or
/// failed.
pub proof fn lemma_objects_balanced(buckets: Seq<ObjectBucket>)
    requires
        buckets_counted(buckets) is Ok,
    ensures
        balanced(buckets_counted(buckets)->Ok_0),
    decreases buckets.len(),
{
    if buckets.len() > 0 {
        lemma_objects_balanced(buckets.drop_last());
        let before = buckets_counted(buckets.drop_last())->Ok_0;
        let bucket = buckets.last();
        if bucket.directory && bucket.name is Some && lower_hex_text(bucket.name->0@, 2) {
            lemma_entries_balanced(before, bucket.name->0@, bucket.entries@);
        }
    }
}

proof fn lemma_participants_balanced(counts: VerifyCategoryCounts, participants: Seq<Option<u64>>)
    requires
        balanced(counts),
        participants_counted(counts, participants) is Ok,
    ensures
        balanced(participants_counted(counts, participants)->Ok_0),
    decreases participants.len(),
{
    if participants.len() > 0 {
        lemma_participants_balanced(counts, participants.drop_last());
    }
}

/// The manifest and every participant have either passed or failed.
pub proof fn lemma_catalog_balanced(store: ProjectStore)
    requires
        catalog_counted(store) is Ok,
    ensures
        balanced(catalog_counted(store)->Ok_0),
{
    lemma_participants_balanced(
        manifest_counted(store.manifest, store.manifest_sha256@)->Ok_0,
        store.participants@,
    );
}

/// Whether an object of the store is one whose digest is not the declared one.
pub open spec fn damaged(buckets: Seq<ObjectBucket>, b: int, e: int) -> bool {
    &&& 0 <= b < buckets.len()
    &&& buckets[b].directory
    &&& buckets[b].name matches Some(prefix) && lower_hex_text(prefix@, 2) && damaged_entry(
        prefix@,
        buckets[b].entries@,
        e,
    )
}

/// Whether an entry of a bucket is one whose digest is not the declared one.
pub open spec fn damaged_entry(prefix: Seq<char>, entries: Seq<ObjectEntry>, e: int) -> bool {
    &&& 0 <= e < entries.len()
    &&& entries[e].file
    &&& entries[e].name matches Some(name) && lower_hex_text(name@, 62) && !intact(
        prefix,
        name@,
        entries[e].length,
        entries[e].contents,
    )
}

proof fn lemma_damage_in_bucket(
    counts: VerifyCategoryCounts,
    prefix: Seq<char>,
    entries: Seq<ObjectEntry>,
    e: int,
)
    requires
        entries_counted(counts, prefix, entries) is Ok,
        damaged_entry(prefix, entries, e),
    ensures
        entries_counted(counts, prefix, entries)->Ok_0.objects_failed > 0,
    decreases entries.len(),
{
    if e < entries.len() - 1 {
        assert(entries.drop_last()[e] == entries[e]);
        lemma_damage_in_bucket(counts, prefix, entries.drop_last(), e);
    }
}

proof fn lemma_failures_kept(
    counts: VerifyCategoryCounts,
    prefix: Seq<char>,
    entries: Seq<ObjectEntry>,
)
    requires
        entries_counted(counts, prefix, entries) is Ok,
    ensures
        entries_counted(counts, prefix, entries)->Ok_0.objects_failed >= counts.objects_failed,
    decreases entries.len(),
{
    if entries.len() > 0 {
        lemma_failures_kept(counts, prefix, entries.drop_last());
    }
}

/// A damaged object never goes unnoticed: wherever it lies in the store, and
/// whatever lies around it, a completed sweep counts a failure.
pub proof fn lemma_damage_found(buckets: Seq<ObjectBucket>, b: int, e: int)
    requires
        buckets_counted(buckets) is Ok,
        damaged(buckets, b, e),
    ensures
        buckets_counted(buckets)->Ok_0.objects_failed > 0,
    decreases buckets.len(),
{
    let before = buckets_counted(buckets.drop_last())->Ok_0;
    let bucket = buckets.last();
    if b < buckets.len() - 1 {
        assert(buckets.drop_last()[b] == buckets[b]);
        lemma_damage_found(buckets.drop_last(), b, e);
        if bucket.directory && bucket.name is Some && lower_hex_text(bucket.name->0@, 2) {
            lemma_failures_kept(before, bucket.name->0@, bucket.entries@);
        }
    } else {
        lemma_damage_in_bucket(before, bucket.name->0@, bucket.entries@, e);
    }
}

} // verus!
