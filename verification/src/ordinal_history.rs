//! What the ordinal artifacts say of a node identifier, and that neither a
//! delta nor a compaction changes what they said before.
use vstd::prelude::*;

use crate::bytes::be_value;
use crate::external_sort::repeats;
use crate::framing::{decode_outcome, lemma_scan_packed, pack};
use crate::graded::{by_grade, lemma_by_grade_holds};
use crate::keyed::{
    key_determines, key_order, lemma_key_order, lemma_multiset_contains, Keyed,
};
use crate::ordinal_artifacts::{range_view, tombstones_view};
use crate::ordinal_compaction::{
    carried, carry_needed, carry_once, compacted_ranges, compacted_tombstones, forward_intervals,
    gathered_ids, group_content, group_end, lemma_prefix, lemma_tombstones_kept, merged_forward,
    merged_group, merged_records, no_compaction_work, planned, range_last, runs_within, within,
    CarryState, CompactState,
};
use crate::ordinal_construction::{
    consecutive, id_runs, joined, lemma_ranges_maximal, lemma_stream_ranges, lemma_uuid_bytes_at,
    run_range, run_ranges, stream_outcome, uuid_bytes, BundleModel,
};
use crate::ordinal_delta::{
    as_surrogates, delta_fault, delta_outcome, extended, named_files, publishes, DeltaInput,
    PlannedV4OrdinalDelta,
};
use crate::ordinal_format::{
    held, installed, lemma_held_prefix, manifest_artifacts, named, ArtifactFileView, ArtifactView,
    views, OrdinalManifestView, RangeView, TombstonesView, V4OrdinalRange, V4OrdinalTombstones,
};
use crate::ordinal_manifest::V4OrdinalBounds;
use crate::ordinal_publication::{combined, merged_outcome};
use crate::records::{ForwardRecord, NodeSurrogate, NodeTombstone};

verus! {

/// Files that are new, and files that were there before.
#[verifier::ext_equal]
pub struct Store {
    pub files: Seq<ArtifactFileView>,
    pub pinned: Seq<ArtifactFileView>,
}

impl Store {
    /// The contents of an artifact.
    pub open spec fn reads(self, name: Seq<char>) -> Option<Seq<u8>> {
        planned(self.files, self.pinned, name)
    }

    /// Whether no new file has the name of an older one and other contents.
    pub open spec fn agrees(self) -> bool {
        forall|i: int, j: int|
            0 <= i < self.files.len() && 0 <= j < self.pinned.len() && (
            #[trigger] self.files[i]).descriptor.name == (
            #[trigger] self.pinned[j]).descriptor.name ==> self.files[i].bytes
                == self.pinned[j].bytes
    }

    /// Whether a written file is found with the contents it was written with.
    pub open spec fn keeps(self, file: ArtifactFileView) -> bool {
        &&& self.reads(file.descriptor.name) == Some(file.bytes)
        &&& file.bytes.len() <= u64::MAX
    }

    /// Whether each written file is found with its contents.
    pub open spec fn keeps_all(self, written: Seq<ArtifactFileView>) -> bool {
        forall|i: int| 0 <= i < written.len() ==> self.keeps(#[trigger] written[i])
    }
}

/// The UUID at a place of the contents of a range.
pub open spec fn uuid_in(content: Seq<u8>, place: int) -> nat {
    be_value(content.subrange(16 * place, 16 * place + 16))
}

/// Whether a range gives a node identifier a UUID.
pub open spec fn maps(range: RangeView, store: Store, node_id: int, uuid: nat) -> bool {
    &&& range.first_node_id <= node_id <= range_last(range)
    &&& match store.reads(range.artifact.name) {
        Some(content) => uuid_in(content, node_id - range.first_node_id) == uuid,
        None => false,
    }
}

/// Whether some range gives a node identifier a UUID.
pub open spec fn mapped(ranges: Seq<RangeView>, store: Store, node_id: int, uuid: nat) -> bool {
    exists|i: int| 0 <= i < ranges.len() && maps(#[trigger] ranges[i], store, node_id, uuid)
}

/// Whether a range is not empty and its contents are as long as it says.
pub open spec fn sound(range: RangeView, store: Store) -> bool {
    &&& range.count > 0
    &&& match store.reads(range.artifact.name) {
        Some(content) => content.len() == 16 * range.count,
        None => false,
    }
}

/// Whether each range is not empty and as long as it says.
pub open spec fn all_sound(ranges: Seq<RangeView>, store: Store) -> bool {
    forall|i: int| 0 <= i < ranges.len() ==> sound(#[trigger] ranges[i], store)
}

proof fn lemma_held_somewhere(files: Seq<ArtifactFileView>, name: Seq<char>) -> (at: int)
    requires
        held(files, name) is Some,
    ensures
        0 <= at < files.len(),
        files[at].descriptor.name == name,
        held(files, name) == Some(files[at].bytes),
    decreases files.len(),
{
    if held(files.drop_last(), name) is Some {
        lemma_held_somewhere(files.drop_last(), name)
    } else {
        files.len() - 1
    }
}

/// What could be read while fewer files were there reads the same.
pub(crate) proof fn lemma_reads_kept(files: Seq<ArtifactFileView>, store: Store, name: Seq<char>)
    requires
        files.is_prefix_of(store.files),
        store.agrees(),
        planned(files, store.pinned, name) is Some,
    ensures
        store.reads(name) == planned(files, store.pinned, name),
{
    let n = files.len() as int;
    assert(store.files.take(n) =~= files);
    if held(files, name) is Some {
        lemma_held_prefix(store.files, n, name);
    } else if held(store.files, name) is Some {
        let i = lemma_held_somewhere(store.files, name);
        let j = lemma_held_somewhere(store.pinned, name);
        assert(store.files[i].bytes == store.pinned[j].bytes);
    }
}

proof fn lemma_installed_prefix(files: Seq<ArtifactFileView>, file: ArtifactFileView)
    ensures
        files.is_prefix_of(installed(files, file)),
{
    assert(files =~= installed(files, file).subrange(0, files.len() as int));
}

/// What two lists of ranges say together is what one list of both says.
proof fn lemma_mapped_joined(
    left: Seq<RangeView>,
    right: Seq<RangeView>,
    store: Store,
    node_id: int,
    uuid: nat,
)
    ensures
        mapped(left + right, store, node_id, uuid) <==> mapped(left, store, node_id, uuid)
            || mapped(right, store, node_id, uuid),
{
    let both = left + right;
    if mapped(both, store, node_id, uuid) {
        let i = choose|i: int|
            0 <= i < both.len() && maps(#[trigger] both[i], store, node_id, uuid);
        if i < left.len() {
            assert(left[i] == both[i]);
        } else {
            assert(right[i - left.len()] == both[i]);
        }
    }
    if mapped(left, store, node_id, uuid) {
        let i = choose|i: int|
            0 <= i < left.len() && maps(#[trigger] left[i], store, node_id, uuid);
        assert(both[i] == left[i]);
    }
    if mapped(right, store, node_id, uuid) {
        let i = choose|i: int|
            0 <= i < right.len() && maps(#[trigger] right[i], store, node_id, uuid);
        assert(both[left.len() + i] == right[i]);
    }
}

proof fn lemma_mapped_one(range: RangeView, store: Store, node_id: int, uuid: nat)
    ensures
        mapped(seq![range], store, node_id, uuid) <==> maps(range, store, node_id, uuid),
{
    assert(seq![range][0] == range);
}

/// Whether each range starts where the one before it ends.
spec fn chained(ranges: Seq<RangeView>) -> bool {
    forall|k: int|
        1 <= k < ranges.len() ==> range_last(ranges[k - 1]) + 1 == (
        #[trigger] ranges[k]).first_node_id
}

proof fn lemma_group_chained(ranges: Seq<RangeView>, start: int, end: int, first: u64, last: u64)
    requires
        0 <= start < end <= ranges.len(),
        forall|k: int|
            start < k < end ==> range_last(ranges[k - 1]) + 1 == (
            #[trigger] ranges[k]).first_node_id,
    ensures
        end <= group_end(ranges, end, first, last) <= ranges.len(),
        chained(ranges.subrange(start, group_end(ranges, end, first, last))),
    decreases ranges.len() - end,
{
    let stop = group_end(ranges, end, first, last);
    if 0 < end < ranges.len() && within(ranges[end].artifact.generation, first, last)
        && range_last(ranges[end - 1]) + 1 == ranges[end].first_node_id {
        lemma_group_chained(ranges, start, end + 1, first, last);
    } else {
        let group = ranges.subrange(start, stop);
        assert forall|k: int| 1 <= k < group.len() implies range_last(group[k - 1]) + 1 == (
        #[trigger] group[k]).first_node_id by {
            assert(group[k] == ranges[start + k]);
            assert(group[k - 1] == ranges[start + k - 1]);
        }
    }
}

/// The contents of neighbouring ranges one after another say what the ranges
/// say.
proof fn lemma_group(ranges: Seq<RangeView>, before: CompactState, store: Store)
    requires
        ranges.len() > 0,
        chained(ranges),
        all_sound(ranges, store),
        before.files.is_prefix_of(store.files),
        store.agrees(),
        group_content(ranges, before, store.pinned) is Ok,
    ensures
        ({
            let content = group_content(ranges, before, store.pinned)->Ok_0.0;
            let first = ranges[0].first_node_id;
            let last = range_last(ranges.last());
            &&& content.len() == 16 * (last + 1 - first)
            &&& first <= last
            &&& forall|node_id: int, uuid: nat| #[trigger]
                mapped(ranges, store, node_id, uuid) <==> first <= node_id <= last && uuid_in(
                    content,
                    node_id - first,
                ) == uuid
        }),
    decreases ranges.len(),
{
    let head = ranges.drop_last();
    let tail = ranges.last();
    let content = group_content(ranges, before, store.pinned)->Ok_0.0;
    let more = planned(before.files, store.pinned, tail.artifact.name)->0;
    let first = ranges[0].first_node_id;
    let last = range_last(tail);
    lemma_reads_kept(before.files, store, tail.artifact.name);
    assert(sound(tail, store));
    assert(ranges =~= head + seq![tail]);
    if head.len() == 0 {
        assert(content =~= more);
        assert forall|node_id: int, uuid: nat| #[trigger]
            mapped(ranges, store, node_id, uuid) <==> first <= node_id <= last && uuid_in(
                content,
                node_id - first,
            ) == uuid by {
            lemma_mapped_one(tail, store, node_id, uuid);
            assert(ranges =~= seq![tail]);
        }
    } else {
        assert(chained(head)) by {
            assert forall|k: int| 1 <= k < head.len() implies range_last(head[k - 1]) + 1 == (
            #[trigger] head[k]).first_node_id by {
                assert(head[k] == ranges[k]);
                assert(head[k - 1] == ranges[k - 1]);
            }
        }
        assert(all_sound(head, store)) by {
            assert forall|i: int| 0 <= i < head.len() implies sound(#[trigger] head[i], store) by {
                assert(head[i] == ranges[i]);
            }
        }
        lemma_group(head, before, store);
        let lead = group_content(head, before, store.pinned)->Ok_0.0;
        let middle = range_last(head.last());
        assert(content == lead + more);
        assert(ranges[ranges.len() - 1].first_node_id == range_last(ranges[ranges.len() - 2]) + 1);
        assert(head.last() == ranges[ranges.len() - 2]);
        assert(tail.first_node_id == middle + 1);
        assert forall|node_id: int, uuid: nat| #[trigger]
            mapped(ranges, store, node_id, uuid) <==> first <= node_id <= last && uuid_in(
                content,
                node_id - first,
            ) == uuid by {
            lemma_mapped_joined(head, seq![tail], store, node_id, uuid);
            lemma_mapped_one(tail, store, node_id, uuid);
            let k = node_id - first;
            if first <= node_id <= middle {
                assert(content.subrange(16 * k, 16 * k + 16) =~= lead.subrange(
                    16 * k,
                    16 * k + 16,
                ));
            } else if middle < node_id <= last {
                let m = node_id - tail.first_node_id;
                assert(16 * k == lead.len() + 16 * m);
                assert(content.subrange(16 * k, 16 * k + 16) =~= more.subrange(
                    16 * m,
                    16 * m + 16,
                ));
            }
        }
    }
}

/// The files that merging the ranges of an interval writes.
pub open spec fn range_writes(
    ranges: Seq<RangeView>,
    cursor: int,
    before: CompactState,
    pinned: Seq<ArtifactFileView>,
    first: u64,
    last: u64,
) -> Seq<ArtifactFileView>
    decreases ranges.len() - cursor,
{
    if cursor < 0 || cursor >= ranges.len() {
        Seq::empty()
    } else {
        let end = group_end(ranges, cursor + 1, first, last);
        if !within(ranges[cursor].artifact.generation, first, last) || end == cursor + 1 {
            range_writes(ranges, cursor + 1, before, pinned, first, last)
        } else if end <= cursor || end > ranges.len() {
            Seq::empty()
        } else {
            let group = ranges.subrange(cursor, end);
            match merged_group(group, before, pinned, last) {
                Err(_) => Seq::empty(),
                Ok((merged, next)) => seq![
                    ArtifactFileView {
                        descriptor: merged.artifact,
                        bytes: group_content(group, before, pinned)->Ok_0.0,
                    },
                ] + range_writes(ranges, end, next, pinned, first, last),
            }
        }
    }
}

proof fn lemma_compacted_prefix(
    ranges: Seq<RangeView>,
    cursor: int,
    done: Seq<RangeView>,
    before: CompactState,
    pinned: Seq<ArtifactFileView>,
    first: u64,
    last: u64,
)
    requires
        compacted_ranges(ranges, cursor, done, before, pinned, first, last) is Ok,
    ensures
        before.files.is_prefix_of(
            compacted_ranges(ranges, cursor, done, before, pinned, first, last)->Ok_0.1.files,
        ),
    decreases ranges.len() - cursor,
{
    if cursor < 0 || cursor >= ranges.len() {
        assert(before.files =~= before.files.subrange(0, before.files.len() as int));
    } else {
        let end = group_end(ranges, cursor + 1, first, last);
        if !within(ranges[cursor].artifact.generation, first, last) {
            lemma_compacted_prefix(
                ranges,
                cursor + 1,
                done.push(ranges[cursor]),
                before,
                pinned,
                first,
                last,
            );
        } else if end == cursor + 1 {
            lemma_compacted_prefix(
                ranges,
                end,
                done.push(ranges[cursor]),
                before,
                pinned,
                first,
                last,
            );
        } else {
            let group = ranges.subrange(cursor, end);
            let (merged, next) = merged_group(group, before, pinned, last)->Ok_0;
            lemma_installed_prefix(
                before.files,
                ArtifactFileView {
                    descriptor: merged.artifact,
                    bytes: group_content(group, before, pinned)->Ok_0.0,
                },
            );
            lemma_compacted_prefix(ranges, end, done.push(merged), next, pinned, first, last);
            lemma_prefix(
                before.files,
                next.files,
                compacted_ranges(
                    ranges,
                    cursor,
                    done,
                    before,
                    pinned,
                    first,
                    last,
                )->Ok_0.1.files,
            );
        }
    }
}

/// Merging the ranges of an interval keeps what the ranges say.
#[verifier::rlimit(40)]
proof fn lemma_compacted_maps(
    ranges: Seq<RangeView>,
    cursor: int,
    done: Seq<RangeView>,
    before: CompactState,
    store: Store,
    first: u64,
    last: u64,
)
    requires
        0 <= cursor <= ranges.len(),
        all_sound(ranges, store),
        all_sound(done, store),
        compacted_ranges(ranges, cursor, done, before, store.pinned, first, last) is Ok,
        compacted_ranges(
            ranges,
            cursor,
            done,
            before,
            store.pinned,
            first,
            last,
        )->Ok_0.1.files.is_prefix_of(store.files),
        store.agrees(),
        store.keeps_all(range_writes(ranges, cursor, before, store.pinned, first, last)),
    ensures
        ({
            let (out, after) = compacted_ranges(
                ranges,
                cursor,
                done,
                before,
                store.pinned,
                first,
                last,
            )->Ok_0;
            &&& before.files.is_prefix_of(after.files)
            &&& all_sound(out, store)
            &&& forall|node_id: int, uuid: nat| #[trigger]
                mapped(out, store, node_id, uuid) <==> mapped(done, store, node_id, uuid) || mapped(
                    ranges.skip(cursor),
                    store,
                    node_id,
                    uuid,
                )
        }),
    decreases ranges.len() - cursor,
{
    let (out, after) = compacted_ranges(
        ranges,
        cursor,
        done,
        before,
        store.pinned,
        first,
        last,
    )->Ok_0;
    lemma_compacted_prefix(ranges, cursor, done, before, store.pinned, first, last);
    if cursor >= ranges.len() {
        assert(ranges.skip(cursor) =~= Seq::<RangeView>::empty());
    } else {
        let end = group_end(ranges, cursor + 1, first, last);
        lemma_group_chained(ranges, cursor, cursor + 1, first, last);
        if !within(ranges[cursor].artifact.generation, first, last) || end == cursor + 1 {
            let one = ranges[cursor];
            assert(sound(one, store));
            assert(all_sound(done.push(one), store)) by {
                assert forall|i: int| 0 <= i < done.push(one).len() implies sound(
                    #[trigger] done.push(one)[i],
                    store,
                ) by {
                    if i < done.len() {
                        assert(done.push(one)[i] == done[i]);
                    }
                }
            }
            lemma_compacted_maps(ranges, cursor + 1, done.push(one), before, store, first, last);
            assert(ranges.skip(cursor) =~= seq![one] + ranges.skip(cursor + 1));
            assert(done.push(one) =~= done + seq![one]);
            assert forall|node_id: int, uuid: nat| #[trigger]
                mapped(out, store, node_id, uuid) <==> mapped(done, store, node_id, uuid) || mapped(
                    ranges.skip(cursor),
                    store,
                    node_id,
                    uuid,
                ) by {
                lemma_mapped_joined(done, seq![one], store, node_id, uuid);
                lemma_mapped_joined(
                    seq![one],
                    ranges.skip(cursor + 1),
                    store,
                    node_id,
                    uuid,
                );
            }
        } else {
            let group = ranges.subrange(cursor, end);
            let (merged, next) = merged_group(group, before, store.pinned, last)->Ok_0;
            let content = group_content(group, before, store.pinned)->Ok_0.0;
            let file = ArtifactFileView { descriptor: merged.artifact, bytes: content };
            let writes = range_writes(ranges, cursor, before, store.pinned, first, last);
            let rest = range_writes(ranges, end, next, store.pinned, first, last);
            assert(writes == seq![file] + rest);
            assert(writes[0] == file);
            assert(store.keeps(file));
            assert(store.keeps_all(rest)) by {
                assert forall|i: int| 0 <= i < rest.len() implies store.keeps(
                    #[trigger] rest[i],
                ) by {
                    assert(writes[i + 1] == rest[i]);
                }
            }
            assert(all_sound(group, store)) by {
                assert forall|i: int| 0 <= i < group.len() implies sound(
                    #[trigger] group[i],
                    store,
                ) by {
                    assert(group[i] == ranges[cursor + i]);
                }
            }
            lemma_prefix(before.files, after.files, store.files);
            lemma_group(group, before, store);
            assert(group[0] == ranges[cursor]);
            assert(merged == range_view(group[0].first_node_id, content, last));
            let count = range_last(group.last()) + 1 - group[0].first_node_id;
            assert(content.len() == 16 * count);
            assert(content.len() / 16 == count);
            assert(merged.count == count);
            assert(range_last(merged) == range_last(group.last()));
            assert(sound(merged, store));
            assert(all_sound(done.push(merged), store)) by {
                assert forall|i: int| 0 <= i < done.push(merged).len() implies sound(
                    #[trigger] done.push(merged)[i],
                    store,
                ) by {
                    if i < done.len() {
                        assert(done.push(merged)[i] == done[i]);
                    }
                }
            }
            lemma_compacted_maps(ranges, end, done.push(merged), next, store, first, last);
            assert(ranges.skip(cursor) =~= group + ranges.skip(end));
            assert(done.push(merged) =~= done + seq![merged]);
            assert forall|node_id: int, uuid: nat| #[trigger]
                mapped(out, store, node_id, uuid) <==> mapped(done, store, node_id, uuid) || mapped(
                    ranges.skip(cursor),
                    store,
                    node_id,
                    uuid,
                ) by {
                lemma_mapped_joined(done, seq![merged], store, node_id, uuid);
                lemma_mapped_one(merged, store, node_id, uuid);
                lemma_mapped_joined(group, ranges.skip(end), store, node_id, uuid);
                assert(mapped(group, store, node_id, uuid) <==> maps(merged, store, node_id, uuid));
            }
        }
    }
}

/// Whether a tombstone run holds a node identifier.
pub open spec fn buried_in(run: TombstonesView, store: Store, node_id: u64) -> bool {
    match store.reads(run.artifact.name) {
        Some(content) => match decode_outcome::<NodeTombstone>(content) {
            Ok(ids) => ids.contains(NodeTombstone { node_id }),
            Err(_) => false,
        },
        None => false,
    }
}

/// Whether some tombstone run holds a node identifier.
pub open spec fn buried(runs: Seq<TombstonesView>, store: Store, node_id: u64) -> bool {
    exists|i: int| 0 <= i < runs.len() && buried_in(#[trigger] runs[i], store, node_id)
}

/// Whether each tombstone run can be read.
pub open spec fn all_present(runs: Seq<TombstonesView>, store: Store) -> bool {
    forall|i: int|
        0 <= i < runs.len() ==> store.reads((#[trigger] runs[i]).artifact.name) is Some
}

proof fn lemma_buried_pushed(
    runs: Seq<TombstonesView>,
    last: TombstonesView,
    store: Store,
    node_id: u64,
)
    ensures
        buried(runs.push(last), store, node_id) <==> buried(runs, store, node_id) || buried_in(
            last,
            store,
            node_id,
        ),
{
    let all = runs.push(last);
    if buried(all, store, node_id) {
        let i = choose|i: int| 0 <= i < all.len() && buried_in(#[trigger] all[i], store, node_id);
        if i < runs.len() {
            assert(runs[i] == all[i]);
        }
    }
    if buried(runs, store, node_id) {
        let i = choose|i: int|
            0 <= i < runs.len() && buried_in(#[trigger] runs[i], store, node_id);
        assert(all[i] == runs[i]);
    }
    if buried_in(last, store, node_id) {
        assert(all[runs.len() as int] == last);
    }
}

proof fn lemma_buried_divided(
    runs: Seq<TombstonesView>,
    first: u64,
    last: u64,
    store: Store,
    node_id: u64,
)
    ensures
        buried(runs, store, node_id) <==> buried(
            runs_within(runs, first, last, true),
            store,
            node_id,
        ) || buried(runs_within(runs, first, last, false), store, node_id),
    decreases runs.len(),
{
    if runs.len() > 0 {
        let head = runs.drop_last();
        lemma_buried_divided(head, first, last, store, node_id);
        lemma_buried_pushed(head, runs.last(), store, node_id);
        assert(runs =~= head.push(runs.last()));
        lemma_buried_pushed(
            runs_within(head, first, last, true),
            runs.last(),
            store,
            node_id,
        );
        lemma_buried_pushed(
            runs_within(head, first, last, false),
            runs.last(),
            store,
            node_id,
        );
    }
}

proof fn lemma_gathered(
    runs: Seq<TombstonesView>,
    files: Seq<ArtifactFileView>,
    store: Store,
    node_id: u64,
)
    requires
        files.is_prefix_of(store.files),
        store.agrees(),
        gathered_ids(runs, files, store.pinned) is Ok,
    ensures
        gathered_ids(runs, files, store.pinned)->Ok_0.contains(NodeTombstone { node_id })
            <==> buried(runs, store, node_id),
    decreases runs.len(),
{
    if runs.len() > 0 {
        let head = runs.drop_last();
        let tail = runs.last();
        lemma_gathered(head, files, store, node_id);
        lemma_buried_pushed(head, tail, store, node_id);
        assert(runs =~= head.push(tail));
        lemma_reads_kept(files, store, tail.artifact.name);
        let ids = gathered_ids(head, files, store.pinned)->Ok_0;
        let more = decode_outcome::<NodeTombstone>(
            planned(files, store.pinned, tail.artifact.name)->0,
        )->Ok_0;
        lemma_joined_contains(ids, more, NodeTombstone { node_id });
    } else {
        assert(!gathered_ids(runs, files, store.pinned)->Ok_0.contains(NodeTombstone { node_id }));
    }
}

proof fn lemma_joined_contains<T>(left: Seq<T>, right: Seq<T>, item: T)
    ensures
        (left + right).contains(item) <==> left.contains(item) || right.contains(item),
{
    let both = left + right;
    if both.contains(item) {
        let i = choose|i: int| 0 <= i < both.len() && both[i] == item;
        if i < left.len() {
            assert(left[i] == item);
        } else {
            assert(right[i - left.len()] == item);
        }
    }
    if left.contains(item) {
        let i = choose|i: int| 0 <= i < left.len() && left[i] == item;
        assert(both[i] == item);
    }
    if right.contains(item) {
        let i = choose|i: int| 0 <= i < right.len() && right[i] == item;
        assert(both[left.len() + i] == item);
    }
}

/// A tombstone run holds what was written.
proof fn lemma_written_buried(
    ids: Seq<NodeTombstone>,
    generation: u64,
    store: Store,
    node_id: u64,
)
    requires
        store.keeps(tombstone_write(ids, generation)),
    ensures
        buried_in(tombstones_view(ids, generation), store, node_id) <==> ids.contains(
            NodeTombstone { node_id },
        ),
{
    lemma_scan_packed(ids);
}

/// The file that a tombstone run is written to.
pub open spec fn tombstone_write(ids: Seq<NodeTombstone>, generation: u64) -> ArtifactFileView {
    ArtifactFileView {
        descriptor: tombstones_view(ids, generation).artifact,
        bytes: pack(ids),
    }
}

/// The files that merging the tombstone runs of an interval writes.
pub open spec fn tombstone_writes(
    runs: Seq<TombstonesView>,
    before: CompactState,
    pinned: Seq<ArtifactFileView>,
    first: u64,
    last: u64,
) -> Seq<ArtifactFileView> {
    let selected = runs_within(runs, first, last, true);
    if selected.len() < 2 {
        Seq::empty()
    } else {
        match gathered_ids(selected, before.files, pinned) {
            Err(_) => Seq::empty(),
            Ok(ids) => seq![tombstone_write(key_order(ids), last)],
        }
    }
}

proof fn lemma_runs_within(
    runs: Seq<TombstonesView>,
    first: u64,
    last: u64,
    inside: bool,
    run: TombstonesView,
)
    ensures
        runs_within(runs, first, last, inside).contains(run) ==> runs.contains(run),
    decreases runs.len(),
{
    if runs.len() > 0 {
        let head = runs.drop_last();
        lemma_runs_within(head, first, last, inside, run);
        lemma_joined_contains(
            runs_within(head, first, last, inside),
            seq![runs.last()],
            run,
        );
        lemma_joined_contains(head, seq![runs.last()], run);
        assert(runs =~= head + seq![runs.last()]);
        assert(runs_within(head, first, last, inside).push(runs.last()) =~= runs_within(
            head,
            first,
            last,
            inside,
        ) + seq![runs.last()]);
        if seq![runs.last()].contains(run) {
            assert(run == runs.last());
        }
    }
}

/// Merging the tombstone runs of an interval keeps what they hold.
proof fn lemma_compacted_buried(
    runs: Seq<TombstonesView>,
    before: CompactState,
    store: Store,
    first: u64,
    last: u64,
)
    requires
        compacted_tombstones(runs, before, store.pinned, first, last) is Ok,
        compacted_tombstones(
            runs,
            before,
            store.pinned,
            first,
            last,
        )->Ok_0.1.files.is_prefix_of(store.files),
        store.agrees(),
        store.keeps_all(tombstone_writes(runs, before, store.pinned, first, last)),
    ensures
        ({
            let (out, after) = compacted_tombstones(
                runs,
                before,
                store.pinned,
                first,
                last,
            )->Ok_0;
            &&& before.files.is_prefix_of(after.files)
            &&& all_present(runs, store) ==> all_present(out, store)
            &&& forall|node_id: u64| #[trigger]
                buried(out, store, node_id) <==> buried(runs, store, node_id)
        }),
{
    let (out, after) = compacted_tombstones(runs, before, store.pinned, first, last)->Ok_0;
    let selected = runs_within(runs, first, last, true);
    if selected.len() < 2 {
        assert(before.files =~= before.files.subrange(0, before.files.len() as int));
    } else {
        let ids = gathered_ids(selected, before.files, store.pinned)->Ok_0;
        let file = tombstone_write(key_order(ids), last);
        let merged = tombstones_view(key_order(ids), last);
        let rest = runs_within(runs, first, last, false);
        lemma_installed_prefix(before.files, file);
        lemma_prefix(before.files, after.files, store.files);
        assert(tombstone_writes(runs, before, store.pinned, first, last)[0] == file);
        lemma_tombstones_kept(selected, before.files, store.pinned);
        if all_present(runs, store) {
            assert forall|i: int| 0 <= i < out.len() implies store.reads(
                (#[trigger] out[i]).artifact.name,
            ) is Some by {
                lemma_by_grade_holds::<V4OrdinalTombstones>(rest.push(merged), out[i]);
                assert(out.contains(out[i]));
                let j = choose|j: int|
                    0 <= j < rest.push(merged).len() && rest.push(merged)[j] == out[i];
                if j < rest.len() {
                    assert(rest.contains(rest[j]));
                    lemma_runs_within(runs, first, last, false, rest[j]);
                    let k = choose|k: int| 0 <= k < runs.len() && runs[k] == rest[j];
                    assert(store.reads(runs[k].artifact.name) is Some);
                }
            }
        }
        assert forall|node_id: u64| #[trigger]
            buried(out, store, node_id) <==> buried(runs, store, node_id) by {
            lemma_buried_divided(runs, first, last, store, node_id);
            lemma_gathered(selected, before.files, store, node_id);
            lemma_written_buried(key_order(ids), last, store, node_id);
            lemma_buried_pushed(rest, merged, store, node_id);
            assert(key_order(ids).contains(NodeTombstone { node_id }) == ids.contains(
                NodeTombstone { node_id },
            ));
            lemma_buried_sorted(rest.push(merged), store, node_id);
        }
    }
}

proof fn lemma_buried_sorted(runs: Seq<TombstonesView>, store: Store, node_id: u64)
    ensures
        buried(by_grade::<V4OrdinalTombstones>(runs), store, node_id) <==> buried(
            runs,
            store,
            node_id,
        ),
{
    let out = by_grade::<V4OrdinalTombstones>(runs);
    if buried(out, store, node_id) {
        let i = choose|i: int| 0 <= i < out.len() && buried_in(#[trigger] out[i], store, node_id);
        lemma_by_grade_holds::<V4OrdinalTombstones>(runs, out[i]);
        assert(out.contains(out[i]));
        let j = choose|j: int| 0 <= j < runs.len() && runs[j] == out[i];
        assert(buried_in(runs[j], store, node_id));
    }
    if buried(runs, store, node_id) {
        let i = choose|i: int|
            0 <= i < runs.len() && buried_in(#[trigger] runs[i], store, node_id);
        lemma_by_grade_holds::<V4OrdinalTombstones>(runs, runs[i]);
        assert(runs.contains(runs[i]));
        let j = choose|j: int| 0 <= j < out.len() && out[j] == runs[i];
        assert(buried_in(out[j], store, node_id));
    }
}

proof fn lemma_mapped_sorted(ranges: Seq<RangeView>, store: Store, node_id: int, uuid: nat)
    ensures
        mapped(by_grade::<V4OrdinalRange>(ranges), store, node_id, uuid) <==> mapped(
            ranges,
            store,
            node_id,
            uuid,
        ),
{
    let out = by_grade::<V4OrdinalRange>(ranges);
    if mapped(out, store, node_id, uuid) {
        let i = choose|i: int|
            0 <= i < out.len() && maps(#[trigger] out[i], store, node_id, uuid);
        lemma_by_grade_holds::<V4OrdinalRange>(ranges, out[i]);
        assert(out.contains(out[i]));
        let j = choose|j: int| 0 <= j < ranges.len() && ranges[j] == out[i];
        assert(maps(ranges[j], store, node_id, uuid));
    }
    if mapped(ranges, store, node_id, uuid) {
        let i = choose|i: int|
            0 <= i < ranges.len() && maps(#[trigger] ranges[i], store, node_id, uuid);
        lemma_by_grade_holds::<V4OrdinalRange>(ranges, ranges[i]);
        assert(ranges.contains(ranges[i]));
        let j = choose|j: int| 0 <= j < out.len() && out[j] == ranges[i];
        assert(maps(out[j], store, node_id, uuid));
    }
}

/// The files of ranges and tombstones that one merge of delta runs writes.
pub open spec fn step_writes(
    before: CarryState,
    pinned: Seq<ArtifactFileView>,
    intervals: Seq<(u64, u64)>,
) -> Seq<ArtifactFileView> {
    let forward = before.manifest.forward;
    let n = forward.len();
    let first = intervals[n - 2].0;
    let last = intervals[n - 1].1;
    let merged = merged_forward(
        CompactState { files: before.files, work: before.work },
        planned(before.files, pinned, forward[n - 2].name)->0,
        planned(before.files, pinned, forward[n - 1].name)->0,
        last,
    )->Ok_0.1;
    let ranged = compacted_ranges(
        before.manifest.ranges,
        0,
        Seq::empty(),
        merged,
        pinned,
        first,
        last,
    )->Ok_0.1;
    range_writes(before.manifest.ranges, 0, merged, pinned, first, last) + tombstone_writes(
        before.manifest.tombstones,
        ranged,
        pinned,
        first,
        last,
    )
}

/// The files of ranges and tombstones that a compaction writes.
pub open spec fn carry_writes(before: CarryState, pinned: Seq<ArtifactFileView>) -> Seq<
    ArtifactFileView,
>
    decreases before.manifest.forward.len(),
{
    match forward_intervals(before.manifest.forward) {
        Err(_) => Seq::empty(),
        Ok(intervals) => if !carry_needed(intervals) || before.manifest.forward.len() < 3 {
            Seq::empty()
        } else {
            match carry_once(before, pinned, intervals) {
                Err(_) => Seq::empty(),
                Ok(next) => step_writes(before, pinned, intervals) + carry_writes(next, pinned),
            }
        },
    }
}

pub(crate) proof fn lemma_keeps_parts(
    store: Store,
    left: Seq<ArtifactFileView>,
    right: Seq<ArtifactFileView>,
)
    requires
        store.keeps_all(left + right),
    ensures
        store.keeps_all(left),
        store.keeps_all(right),
{
    let both = left + right;
    assert forall|i: int| 0 <= i < left.len() implies store.keeps(#[trigger] left[i]) by {
        assert(both[i] == left[i]);
    }
    assert forall|i: int| 0 <= i < right.len() implies store.keeps(#[trigger] right[i]) by {
        assert(both[left.len() + i] == right[i]);
    }
}

/// Whether one inventory says of every node what another says.
pub open spec fn says_same(
    left: OrdinalManifestView,
    right: OrdinalManifestView,
    store: Store,
) -> bool {
    &&& forall|node_id: int, uuid: nat|
        #![trigger mapped(left.ranges, store, node_id, uuid)]
        #![trigger mapped(right.ranges, store, node_id, uuid)]
        mapped(left.ranges, store, node_id, uuid) <==> mapped(right.ranges, store, node_id, uuid)
    &&& forall|node_id: u64|
        #![trigger buried(left.tombstones, store, node_id)]
        #![trigger buried(right.tombstones, store, node_id)]
        buried(left.tombstones, store, node_id) <==> buried(right.tombstones, store, node_id)
}

pub(crate) proof fn lemma_carried_prefix(before: CarryState, pinned: Seq<ArtifactFileView>)
    requires
        carried(before, pinned) is Ok,
    ensures
        before.files.is_prefix_of(carried(before, pinned)->Ok_0.files),
    decreases before.manifest.forward.len(),
{
    let forward = before.manifest.forward;
    let intervals = forward_intervals(forward)->Ok_0;
    if !carry_needed(intervals) || forward.len() < 3 {
        assert(before.files =~= before.files.subrange(0, before.files.len() as int));
    } else {
        let next = carry_once(before, pinned, intervals)->Ok_0;
        lemma_step_prefix(before, pinned, intervals);
        lemma_carried_prefix(next, pinned);
        lemma_prefix(before.files, next.files, carried(before, pinned)->Ok_0.files);
    }
}

pub(crate) proof fn lemma_step_prefix(
    before: CarryState,
    pinned: Seq<ArtifactFileView>,
    intervals: Seq<(u64, u64)>,
)
    requires
        carry_once(before, pinned, intervals) is Ok,
    ensures
        ({
            let forward = before.manifest.forward;
            let n = forward.len();
            let first = intervals[n - 2].0;
            let last = intervals[n - 1].1;
            let (artifact, merged) = merged_forward(
                CompactState { files: before.files, work: before.work },
                planned(before.files, pinned, forward[n - 2].name)->0,
                planned(before.files, pinned, forward[n - 1].name)->0,
                last,
            )->Ok_0;
            let (ranges, ranged) = compacted_ranges(
                before.manifest.ranges,
                0,
                Seq::empty(),
                merged,
                pinned,
                first,
                last,
            )->Ok_0;
            let after = carry_once(before, pinned, intervals)->Ok_0;
            &&& before.files.is_prefix_of(merged.files)
            &&& merged.files.is_prefix_of(ranged.files)
            &&& ranged.files.is_prefix_of(after.files)
            &&& before.files.is_prefix_of(after.files)
        }),
{
    let forward = before.manifest.forward;
    let n = forward.len();
    let first = intervals[n - 2].0;
    let last = intervals[n - 1].1;
    let left = planned(before.files, pinned, forward[n - 2].name)->0;
    let right = planned(before.files, pinned, forward[n - 1].name)->0;
    let (artifact, merged) = merged_forward(
        CompactState { files: before.files, work: before.work },
        left,
        right,
        last,
    )->Ok_0;
    lemma_installed_prefix(
        before.files,
        ArtifactFileView { descriptor: artifact, bytes: pack(merged_records(left, right)->Ok_0) },
    );
    lemma_compacted_prefix(before.manifest.ranges, 0, Seq::empty(), merged, pinned, first, last);
    let (ranges, ranged) = compacted_ranges(
        before.manifest.ranges,
        0,
        Seq::empty(),
        merged,
        pinned,
        first,
        last,
    )->Ok_0;
    let after = carry_once(before, pinned, intervals)->Ok_0;
    let selected = runs_within(before.manifest.tombstones, first, last, true);
    if selected.len() < 2 {
        assert(ranged.files =~= ranged.files.subrange(0, ranged.files.len() as int));
    } else {
        let ids = gathered_ids(selected, ranged.files, pinned)->Ok_0;
        lemma_installed_prefix(ranged.files, tombstone_write(key_order(ids), last));
    }
    lemma_prefix(before.files, merged.files, ranged.files);
    lemma_prefix(before.files, ranged.files, after.files);
}

/// A compaction keeps what the inventory says.
proof fn lemma_carried_says(before: CarryState, store: Store)
    requires
        carried(before, store.pinned) is Ok,
        carried(before, store.pinned)->Ok_0.files.is_prefix_of(store.files),
        store.agrees(),
        store.keeps_all(carry_writes(before, store.pinned)),
        all_sound(before.manifest.ranges, store),
    ensures
        all_sound(carried(before, store.pinned)->Ok_0.manifest.ranges, store),
        all_present(before.manifest.tombstones, store) ==> all_present(
            carried(before, store.pinned)->Ok_0.manifest.tombstones,
            store,
        ),
        says_same(carried(before, store.pinned)->Ok_0.manifest, before.manifest, store),
    decreases before.manifest.forward.len(),
{
    let forward = before.manifest.forward;
    let n = forward.len();
    let intervals = forward_intervals(forward)->Ok_0;
    if carry_needed(intervals) && n >= 3 {
        let first = intervals[n - 2].0;
        let last = intervals[n - 1].1;
        let next = carry_once(before, store.pinned, intervals)->Ok_0;
        let done = carried(before, store.pinned)->Ok_0;
        let (artifact, merged) = merged_forward(
            CompactState { files: before.files, work: before.work },
            planned(before.files, store.pinned, forward[n - 2].name)->0,
            planned(before.files, store.pinned, forward[n - 1].name)->0,
            last,
        )->Ok_0;
        let (ranges, ranged) = compacted_ranges(
            before.manifest.ranges,
            0,
            Seq::empty(),
            merged,
            store.pinned,
            first,
            last,
        )->Ok_0;
        lemma_keeps_parts(
            store,
            step_writes(before, store.pinned, intervals),
            carry_writes(next, store.pinned),
        );
        lemma_keeps_parts(
            store,
            range_writes(before.manifest.ranges, 0, merged, store.pinned, first, last),
            tombstone_writes(before.manifest.tombstones, ranged, store.pinned, first, last),
        );
        lemma_step_prefix(before, store.pinned, intervals);
        lemma_carried_prefix(next, store.pinned);
        lemma_prefix(next.files, done.files, store.files);
        lemma_prefix(ranged.files, next.files, store.files);
        lemma_compacted_maps(
            before.manifest.ranges,
            0,
            Seq::empty(),
            merged,
            store,
            first,
            last,
        );
        assert(before.manifest.ranges.skip(0) =~= before.manifest.ranges);
        lemma_compacted_buried(before.manifest.tombstones, ranged, store, first, last);
        assert(says_same(next.manifest, before.manifest, store));
        lemma_carried_says(next, store);
    }
}

/// Whether some mapping gives a node identifier a UUID.
pub open spec fn assigned(nodes: Seq<ForwardRecord>, node_id: int, uuid: nat) -> bool {
    exists|i: int|
        0 <= i < nodes.len() && (#[trigger] nodes[i]).node_id == node_id && nodes[i].uuid == uuid
}

/// Whether some record gives a node identifier a UUID.
pub open spec fn recorded(records: Seq<NodeSurrogate>, node_id: int, uuid: nat) -> bool {
    exists|i: int|
        0 <= i < records.len() && (#[trigger] records[i]).surrogate == node_id && records[i].uuid
            == uuid
}

/// The files that encoding runs of mappings writes.
pub open spec fn run_writes(runs: Seq<Seq<NodeSurrogate>>, generation: u64) -> Seq<
    ArtifactFileView,
> {
    Seq::new(
        runs.len(),
        |i: int|
            ArtifactFileView {
                descriptor: run_range(runs[i], generation).artifact,
                bytes: uuid_bytes(runs[i]),
            },
    )
}

proof fn lemma_run_maps(
    run: Seq<NodeSurrogate>,
    generation: u64,
    store: Store,
    node_id: int,
    uuid: nat,
)
    requires
        consecutive(run),
        store.keeps(
            ArtifactFileView {
                descriptor: run_range(run, generation).artifact,
                bytes: uuid_bytes(run),
            },
        ),
    ensures
        sound(run_range(run, generation), store),
        maps(run_range(run, generation), store, node_id, uuid) <==> recorded(run, node_id, uuid),
{
    let range = run_range(run, generation);
    lemma_uuid_bytes_at(run, 0);
    assert(uuid_bytes(run).len() / 16 == run.len());
    assert(range.count == run.len());
    let first = run[0].surrogate;
    if maps(range, store, node_id, uuid) {
        let k = node_id - first;
        lemma_uuid_bytes_at(run, k);
        assert(run[k].surrogate == node_id);
    }
    if recorded(run, node_id, uuid) {
        let k = choose|k: int|
            0 <= k < run.len() && (#[trigger] run[k]).surrogate == node_id && run[k].uuid == uuid;
        assert(run[k].surrogate == first + k);
        lemma_uuid_bytes_at(run, k);
    }
}

proof fn lemma_recorded_joined(
    left: Seq<NodeSurrogate>,
    right: Seq<NodeSurrogate>,
    node_id: int,
    uuid: nat,
)
    ensures
        recorded(left + right, node_id, uuid) <==> recorded(left, node_id, uuid) || recorded(
            right,
            node_id,
            uuid,
        ),
{
    let both = left + right;
    if recorded(both, node_id, uuid) {
        let i = choose|i: int|
            0 <= i < both.len() && (#[trigger] both[i]).surrogate == node_id && both[i].uuid
                == uuid;
        if i < left.len() {
            assert(left[i] == both[i]);
        } else {
            assert(right[i - left.len()] == both[i]);
        }
    }
    if recorded(left, node_id, uuid) {
        let i = choose|i: int|
            0 <= i < left.len() && (#[trigger] left[i]).surrogate == node_id && left[i].uuid
                == uuid;
        assert(both[i] == left[i]);
    }
    if recorded(right, node_id, uuid) {
        let i = choose|i: int|
            0 <= i < right.len() && (#[trigger] right[i]).surrogate == node_id && right[i].uuid
                == uuid;
        assert(both[left.len() + i] == right[i]);
    }
}

proof fn lemma_runs_map(
    runs: Seq<Seq<NodeSurrogate>>,
    generation: u64,
    store: Store,
    node_id: int,
    uuid: nat,
)
    requires
        forall|i: int| 0 <= i < runs.len() ==> consecutive(#[trigger] runs[i]),
        store.keeps_all(run_writes(runs, generation)),
    ensures
        all_sound(run_ranges(runs, generation), store),
        mapped(run_ranges(runs, generation), store, node_id, uuid) <==> recorded(
            joined(runs),
            node_id,
            uuid,
        ),
    decreases runs.len(),
{
    let ranges = run_ranges(runs, generation);
    if runs.len() > 0 {
        let head = runs.drop_last();
        let tail = runs.last();
        let writes = run_writes(runs, generation);
        assert(run_writes(head, generation) =~= writes.drop_last());
        assert(store.keeps_all(run_writes(head, generation))) by {
            assert forall|i: int| 0 <= i < head.len() implies store.keeps(
                #[trigger] run_writes(head, generation)[i],
            ) by {
                assert(writes[i] == run_writes(head, generation)[i]);
            }
        }
        assert forall|i: int| 0 <= i < head.len() implies consecutive(#[trigger] head[i]) by {
            assert(head[i] == runs[i]);
        }
        lemma_runs_map(head, generation, store, node_id, uuid);
        assert(consecutive(runs[runs.len() - 1]));
        assert(store.keeps(writes[runs.len() - 1]));
        lemma_run_maps(tail, generation, store, node_id, uuid);
        let one = run_range(tail, generation);
        assert(ranges =~= run_ranges(head, generation) + seq![one]);
        lemma_mapped_joined(run_ranges(head, generation), seq![one], store, node_id, uuid);
        lemma_mapped_one(one, store, node_id, uuid);
        lemma_recorded_joined(joined(head), tail, node_id, uuid);
        assert forall|i: int| 0 <= i < ranges.len() implies sound(#[trigger] ranges[i], store) by {
            if i < head.len() {
                assert(ranges[i] == run_ranges(head, generation)[i]);
            }
        }
    }
}

pub(crate) proof fn lemma_distinct_keys<T: Keyed>(items: Seq<T>)
    requires
        !repeats(items),
    ensures
        key_determines(items),
{
    assert forall|i: int, j: int|
        0 <= i < items.len() && 0 <= j < items.len() && (#[trigger] items[i]).key() == (
        #[trigger] items[j]).key() implies items[i] == items[j] by {
        if i < j {
            assert(repeats(items));
        } else if j < i {
            assert(repeats(items));
        }
    }
}

proof fn lemma_ordinals_assigned(input: DeltaInput, node_id: int, uuid: nat)
    requires
        delta_fault(input) is None,
    ensures
        recorded(input.ordinals(), node_id, uuid) <==> assigned(input.nodes, node_id, uuid),
{
    let nodes = input.nodes;
    let forward = input.forward();
    let mapped = as_surrogates(forward);
    let ordinals = input.ordinals();
    lemma_distinct_keys(nodes);
    lemma_key_order(nodes);
    lemma_distinct_keys(mapped);
    lemma_key_order(mapped);
    if recorded(ordinals, node_id, uuid) {
        let i = choose|i: int|
            0 <= i < ordinals.len() && (#[trigger] ordinals[i]).surrogate == node_id
                && ordinals[i].uuid == uuid;
        assert(ordinals.contains(ordinals[i]));
        assert(mapped.contains(ordinals[i]));
        let j = choose|j: int| 0 <= j < mapped.len() && mapped[j] == ordinals[i];
        assert(forward.contains(forward[j]));
        assert(nodes.contains(forward[j]));
        let k = choose|k: int| 0 <= k < nodes.len() && nodes[k] == forward[j];
        assert(nodes[k].node_id == node_id);
    }
    if assigned(nodes, node_id, uuid) {
        let k = choose|k: int|
            0 <= k < nodes.len() && (#[trigger] nodes[k]).node_id == node_id && nodes[k].uuid
                == uuid;
        assert(nodes.contains(nodes[k]));
        assert(forward.contains(nodes[k]));
        let j = choose|j: int| 0 <= j < forward.len() && forward[j] == nodes[k];
        assert(mapped.contains(mapped[j]));
        assert(ordinals.contains(mapped[j]));
        let i = choose|i: int| 0 <= i < ordinals.len() && ordinals[i] == mapped[j];
        assert(ordinals[i].surrogate == node_id);
    }
}

/// The files of ranges and tombstones that a delta writes.
pub open spec fn delta_writes(input: DeltaInput) -> Seq<ArtifactFileView> {
    let bundle = stream_outcome(
        input.generation,
        input.bounds,
        input.forward(),
        input.ordinals(),
    )->Ok_0;
    let tombstones = tombstones_view(input.tombstones(), input.generation);
    run_writes(id_runs(input.ordinals()), input.generation) + seq![
        tombstone_write(input.tombstones(), input.generation),
    ] + carry_writes(
        CarryState {
            manifest: extended(input.manifest, bundle.manifest, tombstones, input.generation),
            files: installed(
                bundle.files,
                tombstone_write(input.tombstones(), input.generation),
            ),
            work: no_compaction_work(),
        },
        input.pinned,
    )
}

/// The files that a delta starts from.
pub open spec fn prior_store(input: DeltaInput) -> Store {
    Store { files: Seq::empty(), pinned: input.pinned }
}

/// The files that a planned delta leaves, with those that it starts from.
pub open spec fn next_store(input: DeltaInput) -> Store {
    Store { files: delta_outcome(input)->Ok_0.files, pinned: input.pinned }
}

/// Artifacts that could be read while fewer files were there say the same.
proof fn lemma_says_kept(
    manifest: OrdinalManifestView,
    files: Seq<ArtifactFileView>,
    store: Store,
)
    requires
        files.is_prefix_of(store.files),
        store.agrees(),
        all_sound(manifest.ranges, (Store { files, pinned: store.pinned })),
        all_present(manifest.tombstones, (Store { files, pinned: store.pinned })),
    ensures
        all_sound(manifest.ranges, store),
        all_present(manifest.tombstones, store),
        forall|node_id: int, uuid: nat| #[trigger]
            mapped(manifest.ranges, store, node_id, uuid) <==> mapped(
                manifest.ranges,
                (Store { files, pinned: store.pinned }),
                node_id,
                uuid,
            ),
        forall|node_id: u64| #[trigger]
            buried(manifest.tombstones, store, node_id) <==> buried(
                manifest.tombstones,
                (Store { files, pinned: store.pinned }),
                node_id,
            ),
{
    let prior = Store { files, pinned: store.pinned };
    let ranges = manifest.ranges;
    let runs = manifest.tombstones;
    assert forall|i: int| 0 <= i < ranges.len() implies store.reads(
        (#[trigger] ranges[i]).artifact.name,
    ) == prior.reads(ranges[i].artifact.name) by {
        assert(sound(ranges[i], prior));
        lemma_reads_kept(files, store, ranges[i].artifact.name);
    }
    assert forall|i: int| 0 <= i < runs.len() implies store.reads(
        (#[trigger] runs[i]).artifact.name,
    ) == prior.reads(runs[i].artifact.name) by {
        lemma_reads_kept(files, store, runs[i].artifact.name);
    }
    assert forall|i: int| 0 <= i < ranges.len() implies sound(#[trigger] ranges[i], store) by {
        assert(sound(ranges[i], prior));
    }
    lemma_says_alike(manifest, store, prior);
}

/// Two stores with the artifacts of an inventory alike make it say the same.
proof fn lemma_says_alike(manifest: OrdinalManifestView, store: Store, prior: Store)
    requires
        forall|i: int|
            0 <= i < manifest.ranges.len() ==> store.reads(
                (#[trigger] manifest.ranges[i]).artifact.name,
            ) == prior.reads(manifest.ranges[i].artifact.name),
        forall|i: int|
            0 <= i < manifest.tombstones.len() ==> store.reads(
                (#[trigger] manifest.tombstones[i]).artifact.name,
            ) == prior.reads(manifest.tombstones[i].artifact.name),
    ensures
        forall|node_id: int, uuid: nat| #[trigger]
            mapped(manifest.ranges, store, node_id, uuid) <==> mapped(
                manifest.ranges,
                prior,
                node_id,
                uuid,
            ),
        forall|node_id: u64| #[trigger]
            buried(manifest.tombstones, store, node_id) <==> buried(
                manifest.tombstones,
                prior,
                node_id,
            ),
{
    let ranges = manifest.ranges;
    let runs = manifest.tombstones;
    assert forall|node_id: int, uuid: nat| #[trigger]
        mapped(ranges, store, node_id, uuid) <==> mapped(ranges, prior, node_id, uuid) by {
        if mapped(ranges, store, node_id, uuid) {
            let i = choose|i: int|
                0 <= i < ranges.len() && maps(#[trigger] ranges[i], store, node_id, uuid);
            assert(maps(ranges[i], prior, node_id, uuid));
        }
        if mapped(ranges, prior, node_id, uuid) {
            let i = choose|i: int|
                0 <= i < ranges.len() && maps(#[trigger] ranges[i], prior, node_id, uuid);
            assert(maps(ranges[i], store, node_id, uuid));
        }
    }
    assert forall|node_id: u64| #[trigger]
        buried(runs, store, node_id) <==> buried(runs, prior, node_id) by {
        if buried(runs, store, node_id) {
            let i = choose|i: int|
                0 <= i < runs.len() && buried_in(#[trigger] runs[i], store, node_id);
            assert(buried_in(runs[i], prior, node_id));
        }
        if buried(runs, prior, node_id) {
            let i = choose|i: int|
                0 <= i < runs.len() && buried_in(#[trigger] runs[i], prior, node_id);
            assert(buried_in(runs[i], store, node_id));
        }
    }
}

/// What is written is what is read: after a delta the ordinal artifacts give
/// each new node its UUID and every other node what they gave it before, and
/// they bury exactly the nodes that were buried before and those that the
/// delta deletes, whatever runs are merged. The new artifacts can be extended
/// in turn. This holds as long as no two files of one name differ.
pub proof fn lemma_ordinal_read_back(input: DeltaInput)
    requires
        delta_outcome(input) is Ok,
        all_sound(input.manifest.ranges, prior_store(input)),
        all_present(input.manifest.tombstones, prior_store(input)),
        next_store(input).agrees(),
        next_store(input).keeps_all(delta_writes(input)),
    ensures
        ({
            let next = delta_outcome(input)->Ok_0.manifest;
            let store = next_store(input);
            &&& all_sound(next.ranges, store)
            &&& all_present(next.tombstones, store)
            &&& forall|node_id: int, uuid: nat| #[trigger]
                mapped(next.ranges, store, node_id, uuid) <==> mapped(
                    input.manifest.ranges,
                    prior_store(input),
                    node_id,
                    uuid,
                ) || assigned(input.nodes, node_id, uuid)
            &&& forall|node_id: u64| #[trigger]
                buried(next.tombstones, store, node_id) <==> buried(
                    input.manifest.tombstones,
                    prior_store(input),
                    node_id,
                ) || input.deleted.contains(NodeTombstone { node_id })
        }),
{
    let store = next_store(input);
    let generation = input.generation;
    let ordinals = input.ordinals();
    let ids = input.tombstones();
    let runs = id_runs(ordinals);
    let bundle = stream_outcome(generation, input.bounds, input.forward(), ordinals)->Ok_0;
    let added = tombstones_view(ids, generation);
    let state = CarryState {
        manifest: extended(input.manifest, bundle.manifest, added, generation),
        files: installed(bundle.files, tombstone_write(ids, generation)),
        work: no_compaction_work(),
    };
    let done = carried(state, input.pinned)->Ok_0;
    let next = done.manifest;
    let first = run_writes(runs, generation) + seq![tombstone_write(ids, generation)];
    lemma_keeps_parts(store, first, carry_writes(state, input.pinned));
    lemma_keeps_parts(store, run_writes(runs, generation), seq![tombstone_write(ids, generation)]);
    assert(store.keeps(seq![tombstone_write(ids, generation)][0]));
    let none = Seq::<ArtifactFileView>::empty();
    assert(none =~= store.files.subrange(0, 0));
    lemma_says_kept(input.manifest, none, store);
    lemma_stream_ranges(generation, input.bounds, input.forward(), ordinals);
    lemma_ranges_maximal(ordinals);
    let fresh = run_ranges(runs, generation);
    let all = input.manifest.ranges + fresh;
    lemma_runs_map(runs, generation, store, 0, 0);
    assert(all_sound(state.manifest.ranges, store)) by {
        assert forall|i: int| 0 <= i < state.manifest.ranges.len() implies sound(
            #[trigger] state.manifest.ranges[i],
            store,
        ) by {
            let range = state.manifest.ranges[i];
            lemma_by_grade_holds::<V4OrdinalRange>(all, range);
            assert(state.manifest.ranges.contains(range));
            let j = choose|j: int| 0 <= j < all.len() && all[j] == range;
            if j < input.manifest.ranges.len() {
                assert(all[j] == input.manifest.ranges[j]);
            } else {
                assert(all[j] == fresh[j - input.manifest.ranges.len()]);
            }
        }
    }
    assert(all_present(state.manifest.tombstones, store)) by {
        let present = state.manifest.tombstones;
        assert forall|i: int| 0 <= i < present.len() implies store.reads(
            (#[trigger] present[i]).artifact.name,
        ) is Some by {
            if i < input.manifest.tombstones.len() {
                assert(present[i] == input.manifest.tombstones[i]);
            }
        }
    }
    assert(done.files =~= store.files.subrange(0, store.files.len() as int));
    lemma_carried_says(state, store);
    assert forall|node_id: int, uuid: nat| #[trigger]
        mapped(next.ranges, store, node_id, uuid) <==> mapped(
            input.manifest.ranges,
            prior_store(input),
            node_id,
            uuid,
        ) || assigned(input.nodes, node_id, uuid) by {
        lemma_mapped_sorted(all, store, node_id, uuid);
        lemma_mapped_joined(input.manifest.ranges, fresh, store, node_id, uuid);
        lemma_runs_map(runs, generation, store, node_id, uuid);
        lemma_ordinals_assigned(input, node_id, uuid);
        assert(mapped(input.manifest.ranges, store, node_id, uuid) <==> mapped(
            input.manifest.ranges,
            prior_store(input),
            node_id,
            uuid,
        ));
        assert(mapped(state.manifest.ranges, store, node_id, uuid) <==> mapped(
            next.ranges,
            store,
            node_id,
            uuid,
        ));
    }
    lemma_distinct_keys(input.deleted);
    lemma_key_order(input.deleted);
    assert forall|node_id: u64| #[trigger]
        buried(next.tombstones, store, node_id) <==> buried(
            input.manifest.tombstones,
            prior_store(input),
            node_id,
        ) || input.deleted.contains(NodeTombstone { node_id }) by {
        lemma_buried_pushed(input.manifest.tombstones, added, store, node_id);
        lemma_written_buried(ids, generation, store, node_id);
        assert(ids.contains(NodeTombstone { node_id }) == input.deleted.contains(
            NodeTombstone { node_id },
        ));
        assert(buried(input.manifest.tombstones, store, node_id) <==> buried(
            input.manifest.tombstones,
            prior_store(input),
            node_id,
        ));
        assert(buried(state.manifest.tombstones, store, node_id) <==> buried(
            next.tombstones,
            store,
            node_id,
        ));
    }
}

/// Whether the ordinal artifacts give a node a UUID and do not bury it.
pub open spec fn live(
    manifest: OrdinalManifestView,
    store: Store,
    node_id: u64,
    uuid: u128,
) -> bool {
    mapped(manifest.ranges, store, node_id as int, uuid as nat) && !buried(
        manifest.tombstones,
        store,
        node_id,
    )
}

/// A deleted node stays deleted: no delta brings a node back that is buried
/// or that it deletes itself, and every other node is live after it exactly
/// where it was live before or is new.
pub proof fn lemma_no_resurrection(input: DeltaInput, node_id: u64, uuid: u128)
    requires
        delta_outcome(input) is Ok,
        all_sound(input.manifest.ranges, prior_store(input)),
        all_present(input.manifest.tombstones, prior_store(input)),
        next_store(input).agrees(),
        next_store(input).keeps_all(delta_writes(input)),
    ensures
        ({
            let next = delta_outcome(input)->Ok_0.manifest;
            let gone = buried(input.manifest.tombstones, prior_store(input), node_id)
                || input.deleted.contains(NodeTombstone { node_id });
            &&& gone ==> !live(next, next_store(input), node_id, uuid)
            &&& !gone ==> (live(next, next_store(input), node_id, uuid) <==> live(
                input.manifest,
                prior_store(input),
                node_id,
                uuid,
            ) || assigned(input.nodes, node_id as int, uuid as nat))
        }),
{
    lemma_ordinal_read_back(input);
    let next = delta_outcome(input)->Ok_0.manifest;
    assert(mapped(next.ranges, next_store(input), node_id as int, uuid as nat) <==> mapped(
        input.manifest.ranges,
        prior_store(input),
        node_id as int,
        uuid as nat,
    ) || assigned(input.nodes, node_id as int, uuid as nat));
    assert(buried(next.tombstones, next_store(input), node_id) <==> buried(
        input.manifest.tombstones,
        prior_store(input),
        node_id,
    ) || input.deleted.contains(NodeTombstone { node_id }));
}

/// The artifacts of a stream of mappings give each node identifier its UUID,
/// and no other identifier one.
pub proof fn lemma_stream_maps(
    generation: u64,
    bounds: V4OrdinalBounds,
    forward: Seq<ForwardRecord>,
    ordinals: Seq<NodeSurrogate>,
    store: Store,
    node_id: int,
    uuid: nat,
)
    requires
        stream_outcome(generation, bounds, forward, ordinals) is Ok,
        store.keeps_all(run_writes(id_runs(ordinals), generation)),
    ensures
        ({
            let ranges = stream_outcome(
                generation,
                bounds,
                forward,
                ordinals,
            )->Ok_0.manifest.ranges;
            &&& all_sound(ranges, store)
            &&& mapped(ranges, store, node_id, uuid) <==> recorded(ordinals, node_id, uuid)
        }),
{
    lemma_stream_ranges(generation, bounds, forward, ordinals);
    lemma_ranges_maximal(ordinals);
    lemma_runs_map(id_runs(ordinals), generation, store, node_id, uuid);
}

/// Leaving out the files that an inventory does not name changes nothing of
/// those that it names.
pub(crate) proof fn lemma_named_held(
    files: Seq<ArtifactFileView>,
    artifacts: Seq<ArtifactView>,
    name: Seq<char>,
)
    requires
        named(artifacts, name),
    ensures
        held(named_files(files, artifacts), name) == held(files, name),
    decreases files.len(),
{
    if files.len() > 0 {
        let head = files.drop_last();
        lemma_named_held(head, artifacts, name);
        let before = named_files(head, artifacts);
        if named(artifacts, files.last().descriptor.name) {
            assert(before.push(files.last()).drop_last() =~= before);
        }
    }
}

/// Whether no two files of one name differ.
pub open spec fn consistent(files: Seq<ArtifactFileView>) -> bool {
    forall|i: int, j: int|
        0 <= i < files.len() && 0 <= j < files.len() && (#[trigger] files[i]).descriptor.name == (
        #[trigger] files[j]).descriptor.name ==> files[i].bytes == files[j].bytes
}

proof fn lemma_held_any(files: Seq<ArtifactFileView>, name: Seq<char>)
    ensures
        match held(files, name) {
            Some(content) => exists|i: int|
                0 <= i < files.len() && (#[trigger] files[i]).descriptor.name == name
                    && files[i].bytes == content,
            None => forall|i: int|
                0 <= i < files.len() ==> (#[trigger] files[i]).descriptor.name != name,
        },
    decreases files.len(),
{
    if files.len() > 0 {
        let head = files.drop_last();
        lemma_held_any(head, name);
        assert(files[files.len() - 1] == files.last());
        if let Some(content) = held(head, name) {
            let i = choose|i: int|
                0 <= i < head.len() && (#[trigger] head[i]).descriptor.name == name
                    && head[i].bytes == content;
            assert(files[i].descriptor.name == name && files[i].bytes == content);
        } else {
            assert forall|i: int| 0 <= i < head.len() implies (#[trigger] files[i]).descriptor.name
                != name by {
                assert(head[i] == files[i]);
            }
        }
    }
}

pub(crate) proof fn lemma_held_reordered(
    left: Seq<ArtifactFileView>,
    right: Seq<ArtifactFileView>,
    name: Seq<char>,
)
    requires
        left.to_multiset() == right.to_multiset(),
        consistent(left),
    ensures
        held(left, name) == held(right, name),
{
    lemma_multiset_contains(left, right);
    lemma_held_any(left, name);
    lemma_held_any(right, name);
    if let Some(content) = held(right, name) {
        let i = choose|i: int|
            0 <= i < right.len() && (#[trigger] right[i]).descriptor.name == name && right[i].bytes
                == content;
        assert(right.contains(right[i]));
        assert(left.contains(right[i]));
        let k = choose|k: int| 0 <= k < left.len() && left[k] == right[i];
        assert(left[k].descriptor.name == name);
        let other = choose|other: int|
            0 <= other < left.len() && (#[trigger] left[other]).descriptor.name == name
                && left[other].bytes == held(left, name)->0;
        assert(left[k].bytes == left[other].bytes);
    } else if let Some(content) = held(left, name) {
        let i = choose|i: int|
            0 <= i < left.len() && (#[trigger] left[i]).descriptor.name == name && left[i].bytes
                == content;
        assert(left.contains(left[i]));
        assert(right.contains(left[i]));
        let k = choose|k: int| 0 <= k < right.len() && right[k] == left[i];
        assert(right[k].descriptor.name == name);
    }
}

/// The files that a published delta leaves, with those that it starts from.
pub open spec fn published_store(planned: PlannedV4OrdinalDelta, input: DeltaInput) -> Store {
    Store { files: views(planned.outputs@), pinned: input.pinned }
}

/// What a delta publishes reads as what it plans: the published inventory and
/// files give each new node its UUID, leave every other node as it was, and bury
/// exactly the nodes that were buried before and those that the delta deletes.
pub proof fn lemma_published_says(planned: PlannedV4OrdinalDelta, input: DeltaInput)
    requires
        delta_outcome(input) is Ok,
        publishes(planned, delta_outcome(input)->Ok_0, input),
        consistent(views(planned.outputs@)),
        all_sound(input.manifest.ranges, prior_store(input)),
        all_present(input.manifest.tombstones, prior_store(input)),
        next_store(input).agrees(),
        next_store(input).keeps_all(delta_writes(input)),
    ensures
        ({
            let next = planned.manifest@;
            let store = published_store(planned, input);
            &&& all_sound(next.ranges, store)
            &&& all_present(next.tombstones, store)
            &&& forall|node_id: int, uuid: nat| #[trigger]
                mapped(next.ranges, store, node_id, uuid) <==> mapped(
                    input.manifest.ranges,
                    prior_store(input),
                    node_id,
                    uuid,
                ) || assigned(input.nodes, node_id, uuid)
            &&& forall|node_id: u64| #[trigger]
                buried(next.tombstones, store, node_id) <==> buried(
                    input.manifest.tombstones,
                    prior_store(input),
                    node_id,
                ) || input.deleted.contains(NodeTombstone { node_id })
        }),
{
    lemma_ordinal_read_back(input);
    let model = delta_outcome(input)->Ok_0;
    let next = model.manifest;
    let artifacts = manifest_artifacts(next);
    let published = published_store(planned, input);
    let store = next_store(input);
    let outputs = views(planned.outputs@);
    assert forall|i: int| 0 <= i < next.ranges.len() implies published.reads(
        (#[trigger] next.ranges[i]).artifact.name,
    ) == store.reads(next.ranges[i].artifact.name) by {
        let name = next.ranges[i].artifact.name;
        assert(artifacts[next.forward.len() + i] == next.ranges[i].artifact);
        lemma_named_held(model.files, artifacts, name);
        lemma_held_reordered(outputs, named_files(model.files, artifacts), name);
    }
    assert forall|i: int| 0 <= i < next.tombstones.len() implies published.reads(
        (#[trigger] next.tombstones[i]).artifact.name,
    ) == store.reads(next.tombstones[i].artifact.name) by {
        let name = next.tombstones[i].artifact.name;
        assert(artifacts[next.forward.len() + next.ranges.len() + i]
            == next.tombstones[i].artifact);
        lemma_named_held(model.files, artifacts, name);
        lemma_held_reordered(outputs, named_files(model.files, artifacts), name);
    }
    lemma_says_alike(next, published, store);
    assert(all_sound(next.ranges, published)) by {
        assert forall|i: int| 0 <= i < next.ranges.len() implies sound(
            #[trigger] next.ranges[i],
            published,
        ) by {
            assert(sound(next.ranges[i], store));
        }
    }
    assert(all_present(next.tombstones, published)) by {
        assert forall|i: int| 0 <= i < next.tombstones.len() implies published.reads(
            (#[trigger] next.tombstones[i]).artifact.name,
        ) is Some by {
            assert(store.reads(next.tombstones[i].artifact.name) is Some);
        }
    }
    assert forall|node_id: int, uuid: nat| #[trigger]
        mapped(next.ranges, published, node_id, uuid) <==> mapped(
            input.manifest.ranges,
            prior_store(input),
            node_id,
            uuid,
        ) || assigned(input.nodes, node_id, uuid) by {
        assert(mapped(next.ranges, store, node_id, uuid) <==> mapped(
            input.manifest.ranges,
            prior_store(input),
            node_id,
            uuid,
        ) || assigned(input.nodes, node_id, uuid));
    }
    assert forall|node_id: u64| #[trigger]
        buried(next.tombstones, published, node_id) <==> buried(
            input.manifest.tombstones,
            prior_store(input),
            node_id,
        ) || input.deleted.contains(NodeTombstone { node_id }) by {
        assert(buried(next.tombstones, store, node_id) <==> buried(
            input.manifest.tombstones,
            prior_store(input),
            node_id,
        ) || input.deleted.contains(NodeTombstone { node_id }));
    }
}

/// The state that merging a construction into its parent starts from.
pub open spec fn merge_start(prior: OrdinalManifestView, bundle: BundleModel) -> CarryState {
    CarryState {
        manifest: combined(prior, bundle.manifest),
        files: bundle.files,
        work: no_compaction_work(),
    }
}

/// A published construction says what its parent and the constructed artifacts
/// say together, whatever runs are merged, as long as no two files of one name
/// differ.
pub proof fn lemma_construction_says(
    prior: OrdinalManifestView,
    bundle: BundleModel,
    pinned: Seq<ArtifactFileView>,
    authenticated: (u64, u64),
    maximum: u64,
    cancelled: Option<u64>,
)
    requires
        merged_outcome(prior, bundle, pinned, authenticated, maximum, cancelled) is Ok,
        all_sound(
            combined(prior, bundle.manifest).ranges,
            (Store { files: bundle.files, pinned }),
        ),
        all_present(
            combined(prior, bundle.manifest).tombstones,
            (Store { files: bundle.files, pinned }),
        ),
        (Store {
            files: carried(merge_start(prior, bundle), pinned)->Ok_0.files,
            pinned,
        }).agrees(),
        (Store {
            files: carried(merge_start(prior, bundle), pinned)->Ok_0.files,
            pinned,
        }).keeps_all(carry_writes(merge_start(prior, bundle), pinned)),
    ensures
        ({
            let start = Store { files: bundle.files, pinned };
            let merged = merged_outcome(prior, bundle, pinned, authenticated, maximum, cancelled)->Ok_0;
            let published = Store { files: merged.files, pinned };
            &&& forall|node_id: int, uuid: nat| #[trigger]
                mapped(merged.manifest.ranges, published, node_id, uuid) <==> mapped(
                    prior.ranges,
                    start,
                    node_id,
                    uuid,
                ) || mapped(bundle.manifest.ranges, start, node_id, uuid)
            &&& forall|node_id: u64| #[trigger]
                buried(merged.manifest.tombstones, published, node_id) <==> buried(
                    prior.tombstones + bundle.manifest.tombstones,
                    start,
                    node_id,
                )
        }),
{
    let start = Store { files: bundle.files, pinned };
    let state = merge_start(prior, bundle);
    let done = carried(state, pinned)->Ok_0;
    let store = Store { files: done.files, pinned };
    let merged = merged_outcome(prior, bundle, pinned, authenticated, maximum, cancelled)->Ok_0;
    let published = Store { files: merged.files, pinned };
    let next = done.manifest;
    let artifacts = manifest_artifacts(next);
    lemma_carried_prefix(state, pinned);
    lemma_says_kept(state.manifest, bundle.files, store);
    assert(done.files =~= store.files.subrange(0, store.files.len() as int));
    lemma_carried_says(state, store);
    assert forall|i: int| 0 <= i < next.ranges.len() implies published.reads(
        (#[trigger] next.ranges[i]).artifact.name,
    ) == store.reads(next.ranges[i].artifact.name) by {
        assert(artifacts[next.forward.len() + i] == next.ranges[i].artifact);
        lemma_named_held(done.files, artifacts, next.ranges[i].artifact.name);
    }
    assert forall|i: int| 0 <= i < next.tombstones.len() implies published.reads(
        (#[trigger] next.tombstones[i]).artifact.name,
    ) == store.reads(next.tombstones[i].artifact.name) by {
        assert(artifacts[next.forward.len() + next.ranges.len() + i]
            == next.tombstones[i].artifact);
        lemma_named_held(done.files, artifacts, next.tombstones[i].artifact.name);
    }
    lemma_says_alike(next, published, store);
    assert forall|node_id: int, uuid: nat| #[trigger]
        mapped(next.ranges, published, node_id, uuid) <==> mapped(
            prior.ranges,
            start,
            node_id,
            uuid,
        ) || mapped(bundle.manifest.ranges, start, node_id, uuid) by {
        lemma_mapped_joined(prior.ranges, bundle.manifest.ranges, start, node_id, uuid);
        assert(mapped(state.manifest.ranges, store, node_id, uuid) <==> mapped(
            state.manifest.ranges,
            start,
            node_id,
            uuid,
        ));
        assert(mapped(next.ranges, store, node_id, uuid) <==> mapped(
            state.manifest.ranges,
            store,
            node_id,
            uuid,
        ));
    }
    assert forall|node_id: u64| #[trigger]
        buried(next.tombstones, published, node_id) <==> buried(
            prior.tombstones + bundle.manifest.tombstones,
            start,
            node_id,
        ) by {
        assert(buried(state.manifest.tombstones, store, node_id) <==> buried(
            state.manifest.tombstones,
            start,
            node_id,
        ));
        assert(buried(next.tombstones, store, node_id) <==> buried(
            state.manifest.tombstones,
            store,
            node_id,
        ));
    }
}

} // verus!
