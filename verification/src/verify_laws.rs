//! What a verification report says of the store that was verified.
use vstd::prelude::*;

use crate::digest::{sha256_digest, sha256_hex};
use crate::error::GfError;
use crate::private_names::lemma_lower_hex_characters;
use crate::verify::{
    balanced, buckets_counted, entries_counted, lemma_objects_balanced, manifest_counted,
    ObjectBucket, ObjectEntry, participants_counted, ProjectStore, ProjectVerifyReport,
    VerifyCategoryCounts, verifying,
};

verus! {

/// Whether a text is this many lowercase hexadecimal digits.
pub open spec fn is_hex(text: Seq<char>, n: nat) -> bool {
    &&& text.len() == n
    &&& forall|i: int|
        0 <= i < text.len() ==> ('0' <= #[trigger] text[i] <= '9' || 'a' <= text[i] <= 'f')
}

/// Whether the objects of a bucket are objects of the store.
pub open spec fn is_bucket(bucket: ObjectBucket) -> bool {
    bucket.directory && bucket.name is Some && is_hex(bucket.name->0@, 2)
}

/// Whether an object has the length that is given for it, and the digest that
/// the name of its bucket and its own name spell out.
pub open spec fn is_whole(bucket: ObjectBucket, entry: ObjectEntry) -> bool {
    &&& entry.contents is Some
    &&& entry.contents->0@.len() == entry.length
    &&& sha256_hex(entry.contents->0@) == bucket.name->0@ + entry.name->0@
}

/// How many objects of some entries are as asked.
pub open spec fn entry_tally(
    bucket: ObjectBucket,
    entries: Seq<ObjectEntry>,
    asked: spec_fn(ObjectBucket, ObjectEntry) -> bool,
) -> nat
    decreases entries.len(),
{
    if entries.len() == 0 {
        0
    } else {
        entry_tally(bucket, entries.drop_last(), asked) + if entries.last().file && asked(
            bucket,
            entries.last(),
        ) {
            1nat
        } else {
            0
        }
    }
}

/// How many objects of a store are as asked.
pub open spec fn tally(
    buckets: Seq<ObjectBucket>,
    asked: spec_fn(ObjectBucket, ObjectEntry) -> bool,
) -> nat
    decreases buckets.len(),
{
    if buckets.len() == 0 {
        0
    } else {
        tally(buckets.drop_last(), asked) + if is_bucket(buckets.last()) {
            entry_tally(buckets.last(), buckets.last().entries@, asked)
        } else {
            0
        }
    }
}

/// How many participants are missing.
pub open spec fn missing(participants: Seq<Option<u64>>) -> nat
    decreases participants.len(),
{
    if participants.len() == 0 {
        0
    } else {
        missing(participants.drop_last()) + if participants.last() is None {
            1nat
        } else {
            0
        }
    }
}

/// Whether the manifest is there and has its recorded digest.
pub open spec fn manifest_whole(store: ProjectStore) -> bool {
    store.manifest is Some && sha256_digest(store.manifest->0@) == store.manifest_sha256@
}

proof fn lemma_participants_tally(counts: VerifyCategoryCounts, participants: Seq<Option<u64>>)
    requires
        participants_counted(counts, participants) is Ok,
    ensures
        ({
            let after = participants_counted(counts, participants)->Ok_0;
            &&& after.objects_checked == counts.objects_checked + participants.len()
            &&& after.objects_failed == counts.objects_failed + missing(participants)
            &&& after.objects_passed == counts.objects_passed + participants.len() - missing(
                participants,
            )
        }),
    decreases participants.len(),
{
    if participants.len() > 0 {
        lemma_participants_tally(counts, participants.drop_last());
    }
}

proof fn lemma_none_missing(participants: Seq<Option<u64>>)
    ensures
        missing(participants) == 0 <==> forall|i: int|
            0 <= i < participants.len() ==> (#[trigger] participants[i]) is Some,
    decreases participants.len(),
{
    if participants.len() > 0 {
        let front = participants.drop_last();
        lemma_none_missing(front);
        if missing(participants) == 0 {
            assert forall|i: int| 0 <= i < participants.len() implies (
            #[trigger] participants[i]) is Some by {
                if i < front.len() {
                    assert(front[i] == participants[i]);
                }
            }
        }
        if forall|i: int| 0 <= i < participants.len() ==> (#[trigger] participants[i]) is Some {
            assert(participants[participants.len() - 1] is Some);
            assert forall|i: int| 0 <= i < front.len() implies (#[trigger] front[i]) is Some by {
                assert(front[i] == participants[i]);
            }
        }
    }
}

/// The catalog of a report counts the manifest and each participant once. The
/// manifest fails where it is missing or its digest is not the recorded one, a
/// participant fails where it is missing, and nothing else fails.
pub proof fn lemma_catalog_sound(store: ProjectStore, report: ProjectVerifyReport)
    requires
        verifying(Ok(report), store),
    ensures
        report.catalog_and_participants.objects_checked == 1 + store.participants@.len(),
        report.catalog_and_participants.objects_failed == missing(store.participants@)
            + if manifest_whole(store) {
            0nat
        } else {
            1
        },
        report.catalog_and_participants.objects_passed
            == report.catalog_and_participants.objects_checked
            - report.catalog_and_participants.objects_failed,
{
    lemma_participants_tally(
        manifest_counted(store.manifest, store.manifest_sha256@)->Ok_0,
        store.participants@,
    );
}

/// Whether every entry that counts as an object bears a canonical name.
pub open spec fn well_named(store: ProjectStore) -> bool {
    &&& forall|b: int|
        0 <= b < store.objects@.len() && (#[trigger] store.objects@[b]).directory
            ==> store.objects@[b].name is Some
    &&& forall|b: int, e: int|
        #![trigger store.objects@[b].entries@[e]]
        0 <= b < store.objects@.len() && is_bucket(store.objects@[b]) && 0 <= e
            < store.objects@[b].entries@.len() && store.objects@[b].entries@[e].file
            ==> store.objects@[b].entries@[e].name is Some && is_hex(
            store.objects@[b].entries@[e].name->0@,
            62,
        )
}

proof fn lemma_entries_tally(
    counts: VerifyCategoryCounts,
    bucket: ObjectBucket,
    entries: Seq<ObjectEntry>,
)
    requires
        is_bucket(bucket),
        entries_counted(counts, bucket.name->0@, entries) is Ok,
    ensures
        ({
            let after = entries_counted(counts, bucket.name->0@, entries)->Ok_0;
            let any = |bucket: ObjectBucket, entry: ObjectEntry| true;
            let broken = |bucket: ObjectBucket, entry: ObjectEntry| !is_whole(bucket, entry);
            &&& after.objects_checked == counts.objects_checked + entry_tally(bucket, entries, any)
            &&& after.objects_failed == counts.objects_failed + entry_tally(
                bucket,
                entries,
                broken,
            )
        }),
        forall|e: int|
            0 <= e < entries.len() && (#[trigger] entries[e]).file ==> entries[e].name is Some
                && is_hex(entries[e].name->0@, 62),
    decreases entries.len(),
{
    if entries.len() > 0 {
        let front = entries.drop_last();
        lemma_entries_tally(counts, bucket, front);
        if entries.last().file {
            lemma_lower_hex_characters(entries.last().name->0@, 62);
        }
        assert forall|e: int|
            0 <= e < entries.len() && (#[trigger] entries[e]).file implies entries[e].name is Some
            && is_hex(entries[e].name->0@, 62) by {
            if e < front.len() {
                assert(front[e] == entries[e]);
            }
        }
    }
}

proof fn lemma_buckets_tally(buckets: Seq<ObjectBucket>)
    requires
        buckets_counted(buckets) is Ok,
    ensures
        ({
            let after = buckets_counted(buckets)->Ok_0;
            let any = |bucket: ObjectBucket, entry: ObjectEntry| true;
            let broken = |bucket: ObjectBucket, entry: ObjectEntry| !is_whole(bucket, entry);
            &&& after.objects_checked == tally(buckets, any)
            &&& after.objects_failed == tally(buckets, broken)
        }),
        forall|b: int|
            0 <= b < buckets.len() && (#[trigger] buckets[b]).directory ==> buckets[b].name is Some,
        forall|b: int, e: int|
            #![trigger buckets[b].entries@[e]]
            0 <= b < buckets.len() && is_bucket(buckets[b]) && 0 <= e < buckets[b].entries@.len()
                && buckets[b].entries@[e].file ==> buckets[b].entries@[e].name is Some && is_hex(
                buckets[b].entries@[e].name->0@,
                62,
            ),
    decreases buckets.len(),
{
    if buckets.len() > 0 {
        let front = buckets.drop_last();
        let last = buckets.last();
        lemma_buckets_tally(front);
        if last.directory {
            lemma_lower_hex_characters(last.name->0@, 2);
        }
        if is_bucket(last) {
            lemma_entries_tally(buckets_counted(front)->Ok_0, last, last.entries@);
        }
        assert forall|b: int|
            0 <= b < buckets.len() && (#[trigger] buckets[b]).directory implies buckets[b].name
            is Some by {
            if b < front.len() {
                assert(front[b] == buckets[b]);
            }
        }
        assert forall|b: int, e: int|
            #![trigger buckets[b].entries@[e]]
            0 <= b < buckets.len() && is_bucket(buckets[b]) && 0 <= e < buckets[b].entries@.len()
                && buckets[b].entries@[e].file implies buckets[b].entries@[e].name is Some
            && is_hex(buckets[b].entries@[e].name->0@, 62) by {
            if b < front.len() {
                assert(front[b].entries@[e] == buckets[b].entries@[e]);
            }
        }
    }
}

proof fn lemma_no_entry(
    bucket: ObjectBucket,
    entries: Seq<ObjectEntry>,
    asked: spec_fn(ObjectBucket, ObjectEntry) -> bool,
)
    ensures
        entry_tally(bucket, entries, asked) == 0 <==> forall|e: int|
            0 <= e < entries.len() && (#[trigger] entries[e]).file ==> !asked(bucket, entries[e]),
    decreases entries.len(),
{
    if entries.len() > 0 {
        let front = entries.drop_last();
        lemma_no_entry(bucket, front, asked);
        if entry_tally(bucket, entries, asked) == 0 {
            assert forall|e: int| 0 <= e < entries.len() && (#[trigger] entries[e]).file implies
                !asked(bucket, entries[e]) by {
                if e < front.len() {
                    assert(front[e] == entries[e]);
                }
            }
        }
        if forall|e: int|
            0 <= e < entries.len() && (#[trigger] entries[e]).file ==> !asked(bucket, entries[e]) {
            assert(entries[entries.len() - 1] == entries.last());
            assert forall|e: int| 0 <= e < front.len() && (#[trigger] front[e]).file implies !asked(
                bucket,
                front[e],
            ) by {
                assert(front[e] == entries[e]);
            }
        }
    }
}

proof fn lemma_no_object(
    buckets: Seq<ObjectBucket>,
    asked: spec_fn(ObjectBucket, ObjectEntry) -> bool,
)
    ensures
        tally(buckets, asked) == 0 <==> forall|b: int, e: int|
            #![trigger buckets[b].entries@[e]]
            0 <= b < buckets.len() && is_bucket(buckets[b]) && 0 <= e < buckets[b].entries@.len()
                && buckets[b].entries@[e].file ==> !asked(buckets[b], buckets[b].entries@[e]),
    decreases buckets.len(),
{
    if buckets.len() > 0 {
        let front = buckets.drop_last();
        let last = buckets.last();
        lemma_no_object(front, asked);
        lemma_no_entry(last, last.entries@, asked);
        if tally(buckets, asked) == 0 {
            assert forall|b: int, e: int|
                #![trigger buckets[b].entries@[e]]
                0 <= b < buckets.len() && is_bucket(buckets[b]) && 0 <= e
                    < buckets[b].entries@.len() && buckets[b].entries@[e].file implies !asked(
                buckets[b],
                buckets[b].entries@[e],
            ) by {
                if b < front.len() {
                    assert(front[b].entries@[e] == buckets[b].entries@[e]);
                } else {
                    assert(last.entries@[e].file);
                }
            }
        }
        if forall|b: int, e: int|
            #![trigger buckets[b].entries@[e]]
            0 <= b < buckets.len() && is_bucket(buckets[b]) && 0 <= e < buckets[b].entries@.len()
                && buckets[b].entries@[e].file ==> !asked(buckets[b], buckets[b].entries@[e]) {
            assert forall|b: int, e: int|
                #![trigger front[b].entries@[e]]
                0 <= b < front.len() && is_bucket(front[b]) && 0 <= e < front[b].entries@.len()
                    && front[b].entries@[e].file implies !asked(front[b], front[b].entries@[e]) by {
                assert(buckets[b].entries@[e] == front[b].entries@[e]);
            }
            if is_bucket(last) {
                assert forall|e: int|
                    0 <= e < last.entries@.len() && (#[trigger] last.entries@[e]).file implies
                    !asked(last, last.entries@[e]) by {
                    assert(buckets[buckets.len() - 1].entries@[e] == last.entries@[e]);
                }
            }
        }
    }
}

/// The objects of a report are the regular files in the directories whose name
/// is two hexadecimal digits. Each counts once, and it fails where it cannot be
/// read, has another length than is given for it, or has another digest than its
/// directory and its name spell out. A report is made only where each of them
/// bears a canonical name.
pub proof fn lemma_objects_sound(store: ProjectStore, report: ProjectVerifyReport)
    requires
        verifying(Ok(report), store),
    ensures
        well_named(store),
        report.content_addressed_objects.objects_checked == tally(
            store.objects@,
            |bucket: ObjectBucket, entry: ObjectEntry| true,
        ),
        report.content_addressed_objects.objects_failed == tally(
            store.objects@,
            |bucket: ObjectBucket, entry: ObjectEntry| !is_whole(bucket, entry),
        ),
        report.content_addressed_objects.objects_passed
            == report.content_addressed_objects.objects_checked
            - report.content_addressed_objects.objects_failed,
{
    lemma_buckets_tally(store.objects@);
    lemma_objects_balanced(store.objects@);
}

/// A report is good exactly where nothing is damaged: the manifest is there and
/// has its recorded digest, every participant is there, and every object has its
/// length and the digest that it is named by.
pub proof fn lemma_report_sound(store: ProjectStore, report: ProjectVerifyReport)
    requires
        verifying(Ok(report), store),
    ensures
        report.generation_uuid == store.generation_uuid,
        report.ok <==> {
            &&& store.manifest is Some
            &&& sha256_digest(store.manifest->0@) == store.manifest_sha256@
            &&& forall|i: int|
                0 <= i < store.participants@.len() ==> (#[trigger] store.participants@[i]) is Some
            &&& forall|b: int, e: int|
                #![trigger store.objects@[b].entries@[e]]
                0 <= b < store.objects@.len() && is_bucket(store.objects@[b]) && 0 <= e
                    < store.objects@[b].entries@.len() && store.objects@[b].entries@[e].file
                    ==> is_whole(store.objects@[b], store.objects@[b].entries@[e])
        },
{
    let broken = |bucket: ObjectBucket, entry: ObjectEntry| !is_whole(bucket, entry);
    lemma_catalog_sound(store, report);
    lemma_objects_sound(store, report);
    lemma_none_missing(store.participants@);
    lemma_no_object(store.objects@, broken);
}

/// Bytes of some participants.
pub open spec fn participant_bytes(participants: Seq<Option<u64>>) -> nat
    decreases participants.len(),
{
    if participants.len() == 0 {
        0
    } else {
        participant_bytes(participants.drop_last()) + match participants.last() {
            Some(length) => length as nat,
            None => 0,
        }
    }
}

/// Bytes of the objects among some entries.
pub open spec fn entry_bytes(entries: Seq<ObjectEntry>) -> nat
    decreases entries.len(),
{
    if entries.len() == 0 {
        0
    } else {
        entry_bytes(entries.drop_last()) + if entries.last().file {
            entries.last().length as nat
        } else {
            0
        }
    }
}

/// Bytes of the objects of a store.
pub open spec fn object_bytes(buckets: Seq<ObjectBucket>) -> nat
    decreases buckets.len(),
{
    if buckets.len() == 0 {
        0
    } else {
        object_bytes(buckets.drop_last()) + if is_bucket(buckets.last()) {
            entry_bytes(buckets.last().entries@)
        } else {
            0
        }
    }
}

proof fn lemma_participants_read(counts: VerifyCategoryCounts, participants: Seq<Option<u64>>)
    requires
        counts.objects_checked + participants.len() <= u64::MAX,
        counts.bytes_read + participant_bytes(participants) <= u64::MAX,
        balanced(counts),
    ensures
        participants_counted(counts, participants) is Ok,
        participants_counted(counts, participants)->Ok_0.bytes_read == counts.bytes_read
            + participant_bytes(participants),
        balanced(participants_counted(counts, participants)->Ok_0),
    decreases participants.len(),
{
    if participants.len() > 0 {
        lemma_participants_read(counts, participants.drop_last());
        lemma_participants_tally(counts, participants.drop_last());
    }
}

proof fn lemma_entries_read(
    counts: VerifyCategoryCounts,
    bucket: ObjectBucket,
    entries: Seq<ObjectEntry>,
)
    requires
        is_bucket(bucket),
        forall|e: int|
            0 <= e < entries.len() && (#[trigger] entries[e]).file ==> entries[e].name is Some
                && is_hex(entries[e].name->0@, 62),
        counts.objects_checked + entry_tally(
            bucket,
            entries,
            |bucket: ObjectBucket, entry: ObjectEntry| true,
        ) <= u64::MAX,
        counts.bytes_read + entry_bytes(entries) <= u64::MAX,
        balanced(counts),
    ensures
        entries_counted(counts, bucket.name->0@, entries) is Ok,
        entries_counted(counts, bucket.name->0@, entries)->Ok_0.bytes_read == counts.bytes_read
            + entry_bytes(entries),
        balanced(entries_counted(counts, bucket.name->0@, entries)->Ok_0),
    decreases entries.len(),
{
    if entries.len() > 0 {
        let front = entries.drop_last();
        assert forall|e: int| 0 <= e < front.len() && (#[trigger] front[e]).file implies front[e].name
            is Some && is_hex(front[e].name->0@, 62) by {
            assert(front[e] == entries[e]);
        }
        lemma_entries_read(counts, bucket, front);
        lemma_entries_tally(counts, bucket, front);
        assert(entries[entries.len() - 1] == entries.last());
        if entries.last().file {
            lemma_lower_hex_characters(entries.last().name->0@, 62);
        }
    }
}

proof fn lemma_buckets_read(buckets: Seq<ObjectBucket>)
    requires
        forall|b: int|
            0 <= b < buckets.len() && (#[trigger] buckets[b]).directory ==> buckets[b].name is Some,
        forall|b: int, e: int|
            #![trigger buckets[b].entries@[e]]
            0 <= b < buckets.len() && is_bucket(buckets[b]) && 0 <= e < buckets[b].entries@.len()
                && buckets[b].entries@[e].file ==> buckets[b].entries@[e].name is Some && is_hex(
                buckets[b].entries@[e].name->0@,
                62,
            ),
        tally(buckets, |bucket: ObjectBucket, entry: ObjectEntry| true) <= u64::MAX,
        object_bytes(buckets) <= u64::MAX,
    ensures
        buckets_counted(buckets) is Ok,
        buckets_counted(buckets)->Ok_0.bytes_read == object_bytes(buckets),
        balanced(buckets_counted(buckets)->Ok_0),
    decreases buckets.len(),
{
    if buckets.len() > 0 {
        let front = buckets.drop_last();
        let last = buckets.last();
        assert(buckets[buckets.len() - 1] == last);
        assert forall|b: int| 0 <= b < front.len() && (#[trigger] front[b]).directory implies
            front[b].name is Some by {
            assert(front[b] == buckets[b]);
        }
        assert forall|b: int, e: int|
            #![trigger front[b].entries@[e]]
            0 <= b < front.len() && is_bucket(front[b]) && 0 <= e < front[b].entries@.len()
                && front[b].entries@[e].file implies front[b].entries@[e].name is Some && is_hex(
            front[b].entries@[e].name->0@,
            62,
        ) by {
            assert(buckets[b].entries@[e] == front[b].entries@[e]);
        }
        lemma_buckets_read(front);
        lemma_buckets_tally(front);
        if last.directory {
            lemma_lower_hex_characters(last.name->0@, 2);
        }
        if is_bucket(last) {
            assert forall|e: int|
                0 <= e < last.entries@.len() && (#[trigger] last.entries@[e]).file implies
                last.entries@[e].name is Some && is_hex(last.entries@[e].name->0@, 62) by {
                assert(buckets[buckets.len() - 1].entries@[e] == last.entries@[e]);
            }
            lemma_entries_read(buckets_counted(front)->Ok_0, last, last.entries@);
        }
    }
}

/// Damage does not stop a verification: where the objects bear canonical names
/// and the totals can be counted, there is a report, however much is damaged, and
/// it says how many bytes were read.
pub proof fn lemma_damage_reported(
    store: ProjectStore,
    result: Result<ProjectVerifyReport, GfError>,
)
    requires
        verifying(result, store),
        well_named(store),
        store.participants@.len() < u64::MAX,
        tally(store.objects@, |bucket: ObjectBucket, entry: ObjectEntry| true) <= u64::MAX,
        object_bytes(store.objects@) <= u64::MAX,
        participant_bytes(store.participants@) + match store.manifest {
            Some(manifest) => manifest@.len(),
            None => 0,
        } <= u64::MAX,
    ensures
        result is Ok,
        result->Ok_0.catalog_and_participants.bytes_read == participant_bytes(store.participants@)
            + match store.manifest {
            Some(manifest) => manifest@.len(),
            None => 0,
        },
        result->Ok_0.content_addressed_objects.bytes_read == object_bytes(store.objects@),
{
    lemma_participants_read(
        manifest_counted(store.manifest, store.manifest_sha256@)->Ok_0,
        store.participants@,
    );
    lemma_buckets_read(store.objects@);
}

} // verus!
