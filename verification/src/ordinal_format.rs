//! Ordinal identity artifacts: immutable content-addressed files, the manifest
//! over them, and the directory they are installed in.
use vstd::prelude::*;
use vstd::string::*;

use crate::digest::{hex_sha256, sha256_hex};
use crate::error::{GfError, storage_err};
use crate::membership::{add_name, distinct_names, has_name, lemma_sorted_names};
use crate::ranked::{in_order, sort_ranked};
use crate::runs::{content_name, run_name};

verus! {

/// Version of the ordinal manifest format.
pub const ORDINAL_IDENTITY_V4: u32 = 4;

/// Bytes in a full block of an ordinal or tombstone artifact.
pub const V4_ORDINAL_BLOCK_BYTES: usize = 65_536;

/// What an ordinal artifact holds.
#[derive(Clone, Copy, Debug, PartialEq, Eq, Structural)]
pub enum V4OrdinalArtifactKind {
    /// UUID-ordered records of UUID and node identifier.
    ForwardIdentities,
    /// UUIDs of consecutive node identifiers.
    OrdinalUuids,
    /// Identifiers of deleted nodes.
    NodeTombstones,
}

/// Descriptor of an immutable artifact.
#[derive(Debug, PartialEq, Eq)]
pub struct V4OrdinalArtifact {
    /// Content-addressed file name.
    pub name: String,
    /// What the file holds.
    pub kind: V4OrdinalArtifactKind,
    /// Generation that wrote the file.
    pub generation: u64,
    /// Length of the file.
    pub bytes: u64,
    /// Hexadecimal SHA-256 digest of the file.
    pub sha256: String,
}

/// Authenticated block of an ordinal range.
#[derive(Debug, PartialEq, Eq)]
pub struct V4OrdinalBlock {
    /// Byte offset of the block.
    pub offset: u64,
    /// UUIDs in the block.
    pub count: u64,
    /// Hexadecimal SHA-256 digest of the block.
    pub sha256: String,
}

/// UUIDs of a contiguous range of node identifiers.
#[derive(Debug, PartialEq, Eq)]
pub struct V4OrdinalRange {
    /// First node identifier of the range.
    pub first_node_id: u64,
    /// Node identifiers in the range.
    pub count: u64,
    /// The artifact that holds the UUIDs.
    pub artifact: V4OrdinalArtifact,
    /// Authenticated blocks of the artifact.
    pub blocks: Vec<V4OrdinalBlock>,
}

/// Authenticated block of a tombstone run.
#[derive(Debug, PartialEq, Eq)]
pub struct V4OrdinalTombstoneBlock {
    /// Byte offset of the block.
    pub offset: u64,
    /// Identifiers in the block.
    pub count: u64,
    /// First identifier of the block.
    pub first: u64,
    /// Last identifier of the block.
    pub last: u64,
    /// Hexadecimal SHA-256 digest of the block.
    pub sha256: String,
}

/// The nodes deleted up to one generation since the run before.
#[derive(Debug, PartialEq, Eq)]
pub struct V4OrdinalTombstones {
    /// Generation of the run.
    pub generation: u64,
    /// The artifact that holds the identifiers.
    pub artifact: V4OrdinalArtifact,
    /// Authenticated blocks of the artifact.
    pub blocks: Vec<V4OrdinalTombstoneBlock>,
}

/// Inventory of the ordinal identity artifacts of one generation.
#[derive(Debug, PartialEq, Eq)]
pub struct V4OrdinalIdentityManifest {
    /// Version of this format.
    pub format_version: u32,
    /// Topology generation of the inventory.
    pub topology_generation: u64,
    /// Forward runs, the base first.
    pub forward_identities: Vec<V4OrdinalArtifact>,
    /// Ordinal ranges by first node identifier.
    pub ordinal_ranges: Vec<V4OrdinalRange>,
    /// Tombstone runs by generation.
    pub tombstones: Vec<V4OrdinalTombstones>,
}

/// An artifact with its contents.
#[derive(Debug, PartialEq, Eq)]
pub struct V4ArtifactFile {
    /// Descriptor of the file.
    pub descriptor: V4OrdinalArtifact,
    /// The file itself.
    pub bytes: Vec<u8>,
}

/// Model of a [`V4OrdinalArtifact`].
#[verifier::ext_equal]
pub struct ArtifactView {
    pub name: Seq<char>,
    pub kind: V4OrdinalArtifactKind,
    pub generation: u64,
    pub bytes: u64,
    pub sha256: Seq<char>,
}

/// Model of a [`V4OrdinalBlock`].
#[verifier::ext_equal]
pub struct OrdinalBlockView {
    pub offset: u64,
    pub count: u64,
    pub sha256: Seq<char>,
}

/// Model of a [`V4OrdinalRange`].
#[verifier::ext_equal]
pub struct RangeView {
    pub first_node_id: u64,
    pub count: u64,
    pub artifact: ArtifactView,
    pub blocks: Seq<OrdinalBlockView>,
}

/// Model of a [`V4OrdinalTombstoneBlock`].
#[verifier::ext_equal]
pub struct TombstoneBlockView {
    pub offset: u64,
    pub count: u64,
    pub first: u64,
    pub last: u64,
    pub sha256: Seq<char>,
}

/// Model of a [`V4OrdinalTombstones`].
#[verifier::ext_equal]
pub struct TombstonesView {
    pub generation: u64,
    pub artifact: ArtifactView,
    pub blocks: Seq<TombstoneBlockView>,
}

/// Model of a [`V4OrdinalIdentityManifest`].
#[verifier::ext_equal]
pub struct OrdinalManifestView {
    pub format_version: u32,
    pub topology_generation: u64,
    pub forward: Seq<ArtifactView>,
    pub ranges: Seq<RangeView>,
    pub tombstones: Seq<TombstonesView>,
}

/// Model of a [`V4ArtifactFile`].
#[verifier::ext_equal]
pub struct ArtifactFileView {
    pub descriptor: ArtifactView,
    pub bytes: Seq<u8>,
}

/// Models of a sequence of values.
pub open spec fn views<T: View>(items: Seq<T>) -> Seq<T::V> {
    Seq::new(items.len(), |i: int| items[i]@)
}

/// A value that can be written out a second time.
pub trait Duplicated: View + Sized {
    /// A second value with the same model.
    fn duplicate(&self) -> (copy: Self)
        ensures
            copy@ == self@,
    ;
}

/// A second list with the same models.
pub fn duplicate_all<T: Duplicated>(items: &Vec<T>) -> (copy: Vec<T>)
    ensures
        views(copy@) == views(items@),
{
    let mut copy: Vec<T> = Vec::new();
    let mut i: usize = 0;
    while i < items.len()
        invariant
            i <= items@.len(),
            copy@.len() == i,
            forall|j: int| 0 <= j < i ==> (#[trigger] copy@[j])@ == items@[j]@,
        decreases items.len() - i,
    {
        copy.push(items[i].duplicate());
        i = i + 1;
    }
    assert(views(copy@) =~= views(items@));
    copy
}

impl View for V4OrdinalArtifact {
    type V = ArtifactView;

    open spec fn view(&self) -> ArtifactView {
        ArtifactView {
            name: self.name@,
            kind: self.kind,
            generation: self.generation,
            bytes: self.bytes,
            sha256: self.sha256@,
        }
    }
}

impl View for V4OrdinalBlock {
    type V = OrdinalBlockView;

    open spec fn view(&self) -> OrdinalBlockView {
        OrdinalBlockView { offset: self.offset, count: self.count, sha256: self.sha256@ }
    }
}

impl View for V4OrdinalRange {
    type V = RangeView;

    open spec fn view(&self) -> RangeView {
        RangeView {
            first_node_id: self.first_node_id,
            count: self.count,
            artifact: self.artifact@,
            blocks: views(self.blocks@),
        }
    }
}

impl View for V4OrdinalTombstoneBlock {
    type V = TombstoneBlockView;

    open spec fn view(&self) -> TombstoneBlockView {
        TombstoneBlockView {
            offset: self.offset,
            count: self.count,
            first: self.first,
            last: self.last,
            sha256: self.sha256@,
        }
    }
}

impl View for V4OrdinalTombstones {
    type V = TombstonesView;

    open spec fn view(&self) -> TombstonesView {
        TombstonesView {
            generation: self.generation,
            artifact: self.artifact@,
            blocks: views(self.blocks@),
        }
    }
}

impl View for V4OrdinalIdentityManifest {
    type V = OrdinalManifestView;

    open spec fn view(&self) -> OrdinalManifestView {
        OrdinalManifestView {
            format_version: self.format_version,
            topology_generation: self.topology_generation,
            forward: views(self.forward_identities@),
            ranges: views(self.ordinal_ranges@),
            tombstones: views(self.tombstones@),
        }
    }
}

impl View for V4ArtifactFile {
    type V = ArtifactFileView;

    open spec fn view(&self) -> ArtifactFileView {
        ArtifactFileView { descriptor: self.descriptor@, bytes: self.bytes@ }
    }
}

impl Duplicated for V4OrdinalArtifact {
    fn duplicate(&self) -> (copy: Self) {
        V4OrdinalArtifact {
            name: self.name.clone(),
            kind: self.kind,
            generation: self.generation,
            bytes: self.bytes,
            sha256: self.sha256.clone(),
        }
    }
}

impl Duplicated for V4OrdinalBlock {
    fn duplicate(&self) -> (copy: Self) {
        V4OrdinalBlock { offset: self.offset, count: self.count, sha256: self.sha256.clone() }
    }
}

impl Duplicated for V4OrdinalRange {
    fn duplicate(&self) -> (copy: Self) {
        V4OrdinalRange {
            first_node_id: self.first_node_id,
            count: self.count,
            artifact: self.artifact.duplicate(),
            blocks: duplicate_all(&self.blocks),
        }
    }
}

impl Duplicated for V4OrdinalTombstoneBlock {
    fn duplicate(&self) -> (copy: Self) {
        V4OrdinalTombstoneBlock {
            offset: self.offset,
            count: self.count,
            first: self.first,
            last: self.last,
            sha256: self.sha256.clone(),
        }
    }
}

impl Duplicated for V4OrdinalTombstones {
    fn duplicate(&self) -> (copy: Self) {
        V4OrdinalTombstones {
            generation: self.generation,
            artifact: self.artifact.duplicate(),
            blocks: duplicate_all(&self.blocks),
        }
    }
}

impl Duplicated for V4OrdinalIdentityManifest {
    fn duplicate(&self) -> (copy: Self) {
        V4OrdinalIdentityManifest {
            format_version: self.format_version,
            topology_generation: self.topology_generation,
            forward_identities: duplicate_all(&self.forward_identities),
            ordinal_ranges: duplicate_all(&self.ordinal_ranges),
            tombstones: duplicate_all(&self.tombstones),
        }
    }
}

/// The descriptor of a newly written artifact.
pub open spec fn sealed_view(
    content: Seq<u8>,
    prefix: Seq<char>,
    generation: u64,
    kind: V4OrdinalArtifactKind,
) -> ArtifactView {
    ArtifactView {
        name: run_name(prefix, generation, content),
        kind,
        generation,
        bytes: content.len() as u64,
        sha256: sha256_hex(content),
    }
}

/// Describe a newly written artifact.
pub fn seal_artifact(
    prefix: &str,
    generation: u64,
    kind: V4OrdinalArtifactKind,
    content: &Vec<u8>,
) -> (artifact: V4OrdinalArtifact)
    ensures
        artifact@ == sealed_view(content@, prefix@, generation, kind),
{
    V4OrdinalArtifact {
        name: content_name(prefix, generation, content.as_slice()),
        kind,
        generation,
        bytes: content.len() as u64,
        sha256: hex_sha256(content.as_slice()),
    }
}

/// Whether contents are those that a descriptor authenticates.
pub open spec fn authenticates(artifact: ArtifactView, content: Seq<u8>) -> bool {
    content.len() == artifact.bytes && sha256_hex(content) == artifact.sha256
}

/// Authenticate the contents of a private artifact.
pub fn authenticate_private_v4_artifact_file(
    content: &Vec<u8>,
    artifact: &V4OrdinalArtifact,
) -> (checked: Result<(), GfError>)
    ensures
        match checked {
            Ok(()) => authenticates(artifact@, content@),
            Err(error) => !authenticates(artifact@, content@) && error.is_storage(
                "private v4 artifact authentication failed"@,
            ),
        },
{
    if content.len() as u64 != artifact.bytes || hex_sha256(content.as_slice()) != artifact.sha256 {
        return Err(storage_err("private v4 artifact authentication failed"));
    }
    Ok(())
}

/// The contents that a directory holds under a name.
pub open spec fn held(files: Seq<ArtifactFileView>, name: Seq<char>) -> Option<Seq<u8>>
    decreases files.len(),
{
    if files.len() == 0 {
        None
    } else {
        match held(files.drop_last(), name) {
            Some(content) => Some(content),
            None => if files.last().descriptor.name == name {
                Some(files.last().bytes)
            } else {
                None
            },
        }
    }
}

/// Find a file of a directory by its name.
pub fn find_artifact(files: &Vec<V4ArtifactFile>, name: &String) -> (at: Option<usize>)
    ensures
        match at {
            Some(at) => at < files@.len() && held(views(files@), name@) == Some(files@[at as int].bytes@)
                && files@[at as int].descriptor.name@ == name@,
            None => held(views(files@), name@) is None,
        },
{
    let ghost all = views(files@);
    let mut i: usize = 0;
    assert(all.take(0) =~= Seq::<ArtifactFileView>::empty());
    while i < files.len()
        invariant
            i <= files@.len(),
            all == views(files@),
            held(all.take(i as int), name@) is None,
        decreases files.len() - i,
    {
        assert(all.take(i + 1).drop_last() =~= all.take(i as int));
        if files[i].descriptor.name == *name {
            proof {
                lemma_held_prefix(all, i + 1, name@);
            }
            return Some(i);
        }
        i = i + 1;
    }
    assert(all.take(i as int) =~= all);
    None
}

/// Files added later do not change what is held under a name.
pub proof fn lemma_held_prefix(files: Seq<ArtifactFileView>, n: int, name: Seq<char>)
    requires
        0 <= n <= files.len(),
        held(files.take(n), name) is Some,
    ensures
        held(files, name) == held(files.take(n), name),
    decreases files.len(),
{
    if n < files.len() {
        assert(files.drop_last().take(n) =~= files.take(n));
        lemma_held_prefix(files.drop_last(), n, name);
    } else {
        assert(files.take(n) =~= files);
    }
}

/// The directory after an artifact is installed: an existing file of its name
/// stays.
pub open spec fn installed(
    files: Seq<ArtifactFileView>,
    file: ArtifactFileView,
) -> Seq<ArtifactFileView> {
    if held(files, file.descriptor.name) is Some {
        files
    } else {
        files.push(file)
    }
}

/// Whether a file under the name of an artifact keeps it from being installed.
pub open spec fn occupied(files: Seq<ArtifactFileView>, artifact: ArtifactView) -> bool {
    match held(files, artifact.name) {
        Some(content) => !authenticates(artifact, content),
        None => false,
    }
}

/// Whether a directory holds the contents of an artifact.
pub open spec fn backed(files: Seq<ArtifactFileView>, artifact: ArtifactView) -> bool {
    match held(files, artifact.name) {
        Some(content) => authenticates(artifact, content),
        None => false,
    }
}

/// An installed artifact is backed, and what was backed before still is.
pub proof fn lemma_installed(files: Seq<ArtifactFileView>, file: ArtifactFileView)
    requires
        !occupied(files, file.descriptor),
        authenticates(file.descriptor, file.bytes),
    ensures
        backed(installed(files, file), file.descriptor),
        forall|artifact: ArtifactView|
            backed(files, artifact) ==> #[trigger] backed(installed(files, file), artifact),
{
    let after = installed(files, file);
    if held(files, file.descriptor.name) is None {
        assert(after.drop_last() =~= files);
    }
    assert forall|artifact: ArtifactView| backed(files, artifact) implies #[trigger] backed(
        after,
        artifact,
    ) by {
        assert(after.take(files.len() as int) =~= files);
        lemma_held_prefix(after, files.len() as int, artifact.name);
    }
}

/// Install an artifact: identical contents are reused, and a collision is
/// preserved and refused.
pub fn install_artifact(files: &mut Vec<V4ArtifactFile>, file: V4ArtifactFile) -> (fresh: Result<
    bool,
    GfError,
>)
    ensures
        match fresh {
            Ok(fresh) => {
                &&& !occupied(views(old(files)@), file@.descriptor)
                &&& views(final(files)@) == installed(views(old(files)@), file@)
                &&& fresh == (held(views(old(files)@), file@.descriptor.name) is None)
            },
            Err(error) => {
                &&& occupied(views(old(files)@), file@.descriptor)
                &&& final(files)@ == old(files)@
                &&& error.is_storage("private v4 artifact authentication failed"@)
            },
        },
{
    match find_artifact(files, &file.descriptor.name) {
        Some(at) => {
            match authenticate_private_v4_artifact_file(&files[at].bytes, &file.descriptor) {
                Ok(()) => Ok(false),
                Err(error) => Err(error),
            }
        },
        None => {
            let ghost before = files@;
            files.push(file);
            assert(views(files@) =~= views(before).push(file@));
            Ok(true)
        },
    }
}

/// Counters of building ordinal artifacts.
#[derive(Clone, Copy, Debug, PartialEq, Eq, Structural)]
pub struct V4OrdinalBuildMetrics {
    /// Mappings encoded.
    pub input_records: u64,
    /// Ordinal ranges written.
    pub ranges: u64,
    /// Bytes of all artifacts.
    pub artifact_bytes: u64,
    /// Blocks written.
    pub write_blocks: u64,
    /// Most bytes buffered at a time.
    pub peak_buffer_bytes: u64,
    /// Most temporary bytes live at a time.
    pub peak_temporary_bytes: u64,
    /// File synchronizations, one for each artifact.
    pub fsync_operations: u64,
    /// Cancellation polls.
    pub cancellation_polls: u64,
}

/// Counters before any work.
pub open spec fn no_build_metrics() -> V4OrdinalBuildMetrics {
    V4OrdinalBuildMetrics {
        input_records: 0,
        ranges: 0,
        artifact_bytes: 0,
        write_blocks: 0,
        peak_buffer_bytes: 0,
        peak_temporary_bytes: 0,
        fsync_operations: 0,
        cancellation_polls: 0,
    }
}

impl V4OrdinalBuildMetrics {
    /// Counters before any work.
    pub fn none() -> (metrics: V4OrdinalBuildMetrics)
        ensures
            metrics == no_build_metrics(),
    {
        V4OrdinalBuildMetrics {
            input_records: 0,
            ranges: 0,
            artifact_bytes: 0,
            write_blocks: 0,
            peak_buffer_bytes: 0,
            peak_temporary_bytes: 0,
            fsync_operations: 0,
            cancellation_polls: 0,
        }
    }
}

/// Blocks that `bytes` take.
pub open spec fn ordinal_blocks(bytes: nat) -> nat {
    (bytes + 65_535) / 65_536
}

/// Blocks that `bytes` take.
pub fn count_ordinal_blocks(bytes: u64) -> (blocks: u64)
    ensures
        blocks == ordinal_blocks(bytes as nat),
{
    if bytes % 65_536 == 0 {
        bytes / 65_536
    } else {
        bytes / 65_536 + 1
    }
}

/// The larger of two numbers.
pub open spec fn larger(left: u64, right: u64) -> u64 {
    if left < right {
        right
    } else {
        left
    }
}

/// The larger of two numbers.
pub fn max_of(left: u64, right: u64) -> (most: u64)
    ensures
        most == larger(left, right),
{
    if left < right {
        right
    } else {
        left
    }
}

/// Counters after one more artifact of `bytes` bytes, or what overflows.
pub open spec fn sealed_metrics(metrics: V4OrdinalBuildMetrics, bytes: u64) -> Result<
    V4OrdinalBuildMetrics,
    Seq<char>,
> {
    if metrics.fsync_operations == u64::MAX {
        Err("v4 fsync count overflow"@)
    } else if metrics.artifact_bytes + bytes > u64::MAX {
        Err("v4 aggregate artifact length overflow"@)
    } else if metrics.write_blocks + ordinal_blocks(bytes as nat) > u64::MAX {
        Err("v4 write block count overflow"@)
    } else {
        let total = (metrics.artifact_bytes + bytes) as u64;
        Ok(
            V4OrdinalBuildMetrics {
                fsync_operations: (metrics.fsync_operations + 1) as u64,
                artifact_bytes: total,
                peak_temporary_bytes: larger(metrics.peak_temporary_bytes, total),
                write_blocks: (metrics.write_blocks + ordinal_blocks(bytes as nat)) as u64,
                ..metrics
            },
        )
    }
}

fn add_sealed_metrics(metrics: &V4OrdinalBuildMetrics, bytes: u64) -> (next: Result<
    V4OrdinalBuildMetrics,
    GfError,
>)
    ensures
        match next {
            Ok(next) => sealed_metrics(*metrics, bytes) == Ok::<V4OrdinalBuildMetrics, Seq<char>>(
                next,
            ),
            Err(error) => sealed_metrics(*metrics, bytes) is Err && error.is_storage(
                sealed_metrics(*metrics, bytes)->Err_0,
            ),
        },
{
    let fsync_operations: u64 = match metrics.fsync_operations.checked_add(1) {
        Some(count) => count,
        None => {
            return Err(storage_err("v4 fsync count overflow"));
        },
    };
    let artifact_bytes: u64 = match metrics.artifact_bytes.checked_add(bytes) {
        Some(total) => total,
        None => {
            return Err(storage_err("v4 aggregate artifact length overflow"));
        },
    };
    let write_blocks: u64 = match metrics.write_blocks.checked_add(count_ordinal_blocks(bytes)) {
        Some(total) => total,
        None => {
            return Err(storage_err("v4 write block count overflow"));
        },
    };
    let mut next: V4OrdinalBuildMetrics = *metrics;
    next.fsync_operations = fsync_operations;
    next.artifact_bytes = artifact_bytes;
    next.peak_temporary_bytes = max_of(metrics.peak_temporary_bytes, artifact_bytes);
    next.write_blocks = write_blocks;
    Ok(next)
}

/// Why an artifact cannot be finished, if it cannot.
pub open spec fn finish_fault(
    files: Seq<ArtifactFileView>,
    metrics: V4OrdinalBuildMetrics,
    artifact: ArtifactView,
) -> Option<Seq<char>> {
    match sealed_metrics(metrics, artifact.bytes) {
        Err(text) => Some(text),
        Ok(_) => if occupied(files, artifact) {
            Some("private v4 artifact authentication failed"@)
        } else {
            None
        },
    }
}

/// Seal streamed contents and install them under their name. The counters
/// change only where the artifact is published.
pub fn finish_streamed_v4_artifact(
    files: &mut Vec<V4ArtifactFile>,
    content: Vec<u8>,
    prefix: &str,
    generation: u64,
    kind: V4OrdinalArtifactKind,
    metrics: &mut V4OrdinalBuildMetrics,
) -> (artifact: Result<V4OrdinalArtifact, GfError>)
    ensures
        ({
            let view = sealed_view(content@, prefix@, generation, kind);
            let fault = finish_fault(views(old(files)@), *old(metrics), view);
            match artifact {
                Ok(artifact) => {
                    &&& fault is None
                    &&& artifact@ == view
                    &&& views(final(files)@) == installed(
                        views(old(files)@),
                        ArtifactFileView { descriptor: view, bytes: content@ },
                    )
                    &&& *final(metrics) == sealed_metrics(*old(metrics), view.bytes)->Ok_0
                },
                Err(error) => {
                    &&& fault is Some
                    &&& error.is_storage(fault->0)
                    &&& final(files)@ == old(files)@
                    &&& *final(metrics) == *old(metrics)
                },
            }
        }),
{
    let artifact: V4OrdinalArtifact = seal_artifact(prefix, generation, kind, &content);
    let next: V4OrdinalBuildMetrics = match add_sealed_metrics(metrics, artifact.bytes) {
        Ok(next) => next,
        Err(error) => {
            return Err(error);
        },
    };
    let file = V4ArtifactFile { descriptor: artifact.duplicate(), bytes: content };
    match install_artifact(files, file) {
        Ok(_) => {},
        Err(error) => {
            return Err(error);
        },
    }
    *metrics = next;
    Ok(artifact)
}

/// All artifact descriptors of a manifest: forward runs, ordinal ranges,
/// tombstone runs.
pub open spec fn manifest_artifacts(manifest: OrdinalManifestView) -> Seq<ArtifactView> {
    manifest.forward + Seq::new(manifest.ranges.len(), |i: int| manifest.ranges[i].artifact)
        + Seq::new(manifest.tombstones.len(), |i: int| manifest.tombstones[i].artifact)
}

/// Whether some descriptor has this name.
pub open spec fn named(artifacts: Seq<ArtifactView>, name: Seq<char>) -> bool {
    exists|i: int| 0 <= i < artifacts.len() && (#[trigger] artifacts[i]).name == name
}

/// The descriptors of a manifest, one after another.
pub fn list_artifacts(manifest: &V4OrdinalIdentityManifest) -> (artifacts: Vec<V4OrdinalArtifact>)
    ensures
        views(artifacts@) == manifest_artifacts(manifest@),
{
    let mut artifacts: Vec<V4OrdinalArtifact> = duplicate_all(&manifest.forward_identities);
    let ghost forward = manifest@.forward;
    let ghost ranges = Seq::new(manifest@.ranges.len(), |i: int| manifest@.ranges[i].artifact);
    let ghost tombstones = Seq::new(
        manifest@.tombstones.len(),
        |i: int| manifest@.tombstones[i].artifact,
    );
    let mut i: usize = 0;
    assert(ranges.take(0) =~= Seq::<ArtifactView>::empty());
    assert(views(artifacts@) =~= forward + ranges.take(0));
    while i < manifest.ordinal_ranges.len()
        invariant
            i <= manifest.ordinal_ranges@.len(),
            ranges == Seq::new(manifest@.ranges.len(), |i: int| manifest@.ranges[i].artifact),
            views(artifacts@) == forward + ranges.take(i as int),
        decreases manifest.ordinal_ranges.len() - i,
    {
        let ghost before = artifacts@;
        artifacts.push(manifest.ordinal_ranges[i].artifact.duplicate());
        assert(ranges[i as int] == manifest.ordinal_ranges@[i as int]@.artifact);
        assert(views(artifacts@) =~= views(before).push(ranges[i as int]));
        assert(views(artifacts@) =~= forward + ranges.take(i + 1));
        i = i + 1;
    }
    let mut k: usize = 0;
    assert(ranges.take(i as int) =~= ranges);
    assert(views(artifacts@) =~= forward + ranges + tombstones.take(0));
    while k < manifest.tombstones.len()
        invariant
            k <= manifest.tombstones@.len(),
            tombstones == Seq::new(
                manifest@.tombstones.len(),
                |i: int| manifest@.tombstones[i].artifact,
            ),
            views(artifacts@) == forward + ranges + tombstones.take(k as int),
        decreases manifest.tombstones.len() - k,
    {
        let ghost before = artifacts@;
        artifacts.push(manifest.tombstones[k].artifact.duplicate());
        assert(tombstones[k as int] == manifest.tombstones@[k as int]@.artifact);
        assert(views(artifacts@) =~= views(before).push(tombstones[k as int]));
        assert(views(artifacts@) =~= forward + ranges + tombstones.take(k + 1));
        k = k + 1;
    }
    assert(tombstones.take(k as int) =~= tombstones);
    artifacts
}

/// The names of the artifacts of a manifest, each once, in order.
pub fn v4_manifest_artifact_names(manifest: &V4OrdinalIdentityManifest) -> (names: Vec<String>)
    ensures
        in_order(names@),
        distinct_names(names@),
        forall|name: Seq<char>| #[trigger]
            has_name(names@, name) <==> named(manifest_artifacts(manifest@), name),
{
    let artifacts: Vec<V4OrdinalArtifact> = list_artifacts(manifest);
    let ghost all = manifest_artifacts(manifest@);
    let mut names: Vec<String> = Vec::new();
    let mut i: usize = 0;
    while i < artifacts.len()
        invariant
            i <= artifacts@.len(),
            all == views(artifacts@),
            distinct_names(names@),
            forall|name: Seq<char>| #[trigger]
                has_name(names@, name) <==> named(all.take(i as int), name),
        decreases artifacts.len() - i,
    {
        let ghost before = names@;
        add_name(&mut names, &artifacts[i].name);
        assert forall|name: Seq<char>| #[trigger]
            has_name(names@, name) <==> named(all.take(i + 1), name) by {
            assert(all[i as int] == artifacts@[i as int]@);
            if named(all.take(i + 1), name) {
                let k = choose|k: int|
                    0 <= k < all.take(i + 1).len() && (#[trigger] all.take(i + 1)[k]).name == name;
                if k < i {
                    assert(all.take(i as int)[k].name == name);
                }
            }
            if has_name(before, name) {
                let k = choose|k: int|
                    0 <= k < all.take(i as int).len() && (#[trigger] all.take(i as int)[k]).name
                        == name;
                assert(all.take(i + 1)[k].name == name);
            }
            if name == artifacts@[i as int].name@ {
                assert(all.take(i + 1)[i as int].name == name);
            }
        }
        i = i + 1;
    }
    assert(all.take(i as int) =~= all);
    let ghost unsorted = names@;
    let names: Vec<String> = sort_ranked(names);
    proof {
        lemma_sorted_names(names@, unsorted);
    }
    names
}

} // verus!
