//! Snapshots of an index whose manifest and files stay authenticated.
//!
//! A snapshot remembers which files it was opened from. What the directory
//! or the object store shows later is handed in as an [`IndexSight`] and held
//! against what was remembered.
use vstd::prelude::*;
use vstd::slice::*;
use vstd::string::*;
use vstd::utf8::*;

use crate::bytes::{same_text, sat_add, sat_mul, saturating_product, saturating_sum};
use crate::digest::{hex_sha256, sha256_hex};
use crate::error::{concat3, GfError, storage_err};
use crate::framing::Framed;
use crate::identity_codec::Identity;
use crate::index_format::{
    authenticate_file, file_described, FileRecord, FileView, FORMAT_VERSION, Manifest,
    ManifestView, MAX_MANIFEST_BYTES, RunRecord, RunView,
};
use crate::membership::{IndexModel, UuidMembershipIndex};
use crate::receipts::INDEX_DIR;
use crate::records::NodeSurrogate;
use crate::runs::{descriptors_valid, OpenRun, run_models, RunModel, validate_run_descriptors};
use crate::topology_delta::{block_bytes, sum_block_bytes};

verus! {

/// What tells one file from another.
#[derive(Clone, Copy, Debug, PartialEq, Eq, Structural)]
pub struct FileIdentity {
    /// Volume.
    pub volume: u64,
    /// Number of the file on its volume.
    pub file_id: u128,
}

/// A file as it is seen.
#[derive(Debug, PartialEq, Eq)]
pub struct SeenFile {
    /// Identity.
    pub identity: FileIdentity,
    /// Links.
    pub links: u64,
    /// Whether every link is one that a retained run may have.
    pub links_safe: bool,
    /// Contents.
    pub bytes: Vec<u8>,
}

/// A file of a directory.
#[derive(Debug, PartialEq, Eq)]
pub struct NamedFile {
    /// Name.
    pub name: String,
    /// The file.
    pub file: SeenFile,
}

/// An object of a content-addressed store.
#[derive(Debug, PartialEq, Eq)]
pub struct SeenObject {
    /// Digest that the object is stored under.
    pub sha256: String,
    /// Length that it is stored with.
    pub length: u64,
    /// Path below the graph root.
    pub path: String,
    /// The file.
    pub file: SeenFile,
}

/// An open descriptor.
#[derive(Clone, Copy, Debug, PartialEq, Eq, Structural)]
pub struct FileHandle {
    /// Identity of the file.
    pub identity: FileIdentity,
    /// Links of the file.
    pub links: u64,
}

/// What is seen of an index.
#[derive(Debug, PartialEq, Eq)]
pub struct IndexSight {
    /// Identity of the graph root.
    pub graph_root: FileIdentity,
    /// Identity of the index root.
    pub root: FileIdentity,
    /// Name that the manifest has among the index files.
    pub manifest_name: String,
    /// The manifest that the index root names.
    pub manifest: Option<SeenFile>,
    /// The manifest as it parses.
    pub parsed: Option<Manifest>,
    /// The manifest descriptor that a snapshot holds.
    pub held_manifest: FileHandle,
    /// Files of the index root.
    pub files: Vec<NamedFile>,
    /// Objects of the store.
    pub objects: Vec<SeenObject>,
}

/// An entry of a graph inventory.
#[derive(Debug, PartialEq, Eq)]
pub struct InventoryEntry {
    /// Path below the graph root.
    pub relative_path: String,
    /// Digest of the contents.
    pub content_sha256: String,
    /// Length of the contents.
    pub byte_length: u64,
}

/// Where a file of a compact index comes from.
#[derive(Debug, PartialEq, Eq)]
pub struct ObjectSource {
    /// Name among the index files.
    pub name: String,
    /// Path of the object below the graph root.
    pub path: String,
    /// Digest of the object.
    pub sha256: String,
    /// Length of the object.
    pub length: u64,
}

/// Something that has a name.
pub trait Named {
    /// The name.
    spec fn named(&self) -> Seq<char>;

    /// Whether this is the name.
    fn has_name(&self, name: &str) -> (yes: bool)
        ensures
            yes == (self.named() == name@),
    ;
}

impl Named for NamedFile {
    open spec fn named(&self) -> Seq<char> {
        self.name@
    }

    fn has_name(&self, name: &str) -> (yes: bool) {
        same_text(self.name.as_str(), name)
    }
}

impl Named for InventoryEntry {
    open spec fn named(&self) -> Seq<char> {
        self.relative_path@
    }

    fn has_name(&self, name: &str) -> (yes: bool) {
        same_text(self.relative_path.as_str(), name)
    }
}

/// Place of the first item of a name.
pub open spec fn first_at<T: Named>(items: Seq<T>, name: Seq<char>) -> Option<int>
    decreases items.len(),
{
    if items.len() == 0 {
        None
    } else {
        match first_at(items.drop_last(), name) {
            Some(i) => Some(i),
            None => if items.last().named() == name {
                Some(items.len() - 1)
            } else {
                None
            },
        }
    }
}

pub(crate) proof fn lemma_first_bounds<T: Named>(items: Seq<T>, name: Seq<char>)
    ensures
        first_at(items, name) matches Some(i) ==> 0 <= i < items.len() && items[i].named() == name,
    decreases items.len(),
{
    if items.len() > 0 {
        lemma_first_bounds(items.drop_last(), name);
    }
}

proof fn lemma_first_found<T: Named>(items: Seq<T>, name: Seq<char>, n: int)
    requires
        0 <= n <= items.len(),
        first_at(items.take(n), name) is Some,
    ensures
        first_at(items, name) == first_at(items.take(n), name),
    decreases items.len(),
{
    if n < items.len() {
        assert(items.drop_last().take(n) =~= items.take(n));
        lemma_first_found(items.drop_last(), name, n);
    } else {
        assert(items.take(n) =~= items);
    }
}

/// The first item of a name.
pub fn find_first<T: Named>(items: &Vec<T>, name: &str) -> (found: Option<usize>)
    ensures
        match found {
            Some(i) => i < items@.len() && first_at(items@, name@) == Some(i as int),
            None => first_at(items@, name@) is None,
        },
{
    let mut i: usize = 0;
    while i < items.len()
        invariant
            i <= items@.len(),
            first_at(items@.take(i as int), name@) is None,
        decreases items.len() - i,
    {
        assert(items@.take(i + 1).drop_last() =~= items@.take(i as int));
        if items[i].has_name(name) {
            proof {
                lemma_first_found(items@, name@, i + 1);
            }
            return Some(i);
        }
        i = i + 1;
    }
    assert(items@.take(i as int) =~= items@);
    None
}

/// Place of the object of a digest and a length.
pub open spec fn object_at(objects: Seq<SeenObject>, sha256: Seq<char>, length: u64) -> Option<int>
    decreases objects.len(),
{
    if objects.len() == 0 {
        None
    } else if objects.last().sha256@ == sha256 && objects.last().length == length {
        Some(objects.len() - 1)
    } else {
        object_at(objects.drop_last(), sha256, length)
    }
}

/// The object of a digest and a length.
pub fn find_object(objects: &Vec<SeenObject>, sha256: &str, length: u64) -> (found: Option<usize>)
    ensures
        match found {
            Some(i) => i < objects@.len() && object_at(objects@, sha256@, length) == Some(i as int),
            None => object_at(objects@, sha256@, length) is None,
        },
{
    let mut i: usize = objects.len();
    assert(objects@.take(i as int) =~= objects@);
    while i > 0
        invariant
            i <= objects@.len(),
            object_at(objects@, sha256@, length) == object_at(
                objects@.take(i as int),
                sha256@,
                length,
            ),
        decreases i,
    {
        assert(objects@.take(i as int).drop_last() =~= objects@.take(i - 1));
        if objects[i - 1].length == length && same_text(objects[i - 1].sha256.as_str(), sha256) {
            return Some(i - 1);
        }
        i = i - 1;
    }
    None
}

/// Identities of the two files of a run.
#[derive(Clone, Copy, Debug, PartialEq, Eq, Structural)]
pub struct RunFiles {
    /// Identity file.
    pub identities: FileIdentity,
    /// Surrogate file.
    pub node_surrogates: FileIdentity,
}

/// A snapshot of an index that stays authenticated.
#[derive(Debug, PartialEq, Eq)]
pub struct AuthenticatedUuidIndexSnapshot {
    /// Path of the graph root.
    pub graph_root_path: String,
    /// Identity of the graph root.
    pub graph_root: FileIdentity,
    /// Identity of the index root.
    pub root: FileIdentity,
    /// Name that the manifest has among the index files.
    pub manifest_name: String,
    /// Identity of the manifest.
    pub manifest_identity: FileIdentity,
    /// Digest of the manifest.
    pub manifest_sha256: String,
    /// Length of the manifest.
    pub manifest_bytes: u64,
    /// Whether the manifest descriptor is held.
    pub manifest_held: bool,
    /// The index.
    pub index: UuidMembershipIndex,
    /// Identities of the run files, run by run.
    pub files: Vec<RunFiles>,
    /// Bytes authenticated and not yet reported.
    pub authenticated_bytes: u64,
    /// Blocks authenticated and not yet reported.
    pub authenticated_blocks: u64,
    /// Where the files come from, for a compact index.
    pub sources: Option<Vec<ObjectSource>>,
}

/// Model of an [`AuthenticatedUuidIndexSnapshot`].
#[verifier::ext_equal]
pub struct SnapshotModel {
    pub graph_root_path: Seq<char>,
    pub graph_root: FileIdentity,
    pub root: FileIdentity,
    pub manifest_name: Seq<char>,
    pub manifest_identity: FileIdentity,
    pub manifest_sha256: Seq<char>,
    pub manifest_bytes: u64,
    pub manifest_held: bool,
    pub index: IndexModel,
    pub files: Seq<RunFiles>,
    pub authenticated_bytes: u64,
    pub authenticated_blocks: u64,
    pub sources: Option<Seq<SourceModel>>,
}

/// Model of an [`ObjectSource`].
#[verifier::ext_equal]
pub struct SourceModel {
    pub name: Seq<char>,
    pub path: Seq<char>,
    pub sha256: Seq<char>,
    pub length: u64,
}

impl View for ObjectSource {
    type V = SourceModel;

    open spec fn view(&self) -> SourceModel {
        SourceModel {
            name: self.name@,
            path: self.path@,
            sha256: self.sha256@,
            length: self.length,
        }
    }
}

/// Models of some sources.
pub open spec fn source_models(sources: Seq<ObjectSource>) -> Seq<SourceModel> {
    Seq::new(sources.len(), |i: int| sources[i]@)
}

impl View for AuthenticatedUuidIndexSnapshot {
    type V = SnapshotModel;

    open spec fn view(&self) -> SnapshotModel {
        SnapshotModel {
            graph_root_path: self.graph_root_path@,
            graph_root: self.graph_root,
            root: self.root,
            manifest_name: self.manifest_name@,
            manifest_identity: self.manifest_identity,
            manifest_sha256: self.manifest_sha256@,
            manifest_bytes: self.manifest_bytes,
            manifest_held: self.manifest_held,
            index: self.index@,
            files: self.files@,
            authenticated_bytes: self.authenticated_bytes,
            authenticated_blocks: self.authenticated_blocks,
            sources: match self.sources {
                Some(sources) => Some(source_models(sources@)),
                None => None,
            },
        }
    }
}

/// Length of an identity file, by its blocks.
pub open spec fn identity_length(file: FileView) -> u64 {
    block_bytes(0, file.blocks)
}

/// Length of a surrogate file, by its records.
pub open spec fn surrogate_length(file: FileView) -> u64 {
    sat_mul(file.count, 24)
}

/// Place of a file of the index root that a record describes.
pub open spec fn opened_at<T: Framed>(files: Seq<NamedFile>, file: FileView) -> Result<
    int,
    Seq<char>,
> {
    match first_at(files, file.name) {
        None => Err("UUID index file is absent"@),
        Some(i) => if file_described::<T>(files[i].file.bytes@, file) {
            Ok(i)
        } else {
            Err("UUID index file authentication failed"@)
        },
    }
}

/// A run as it is opened.
#[verifier::ext_equal]
pub struct OpenedModel {
    pub run: RunModel,
    pub files: RunFiles,
}

/// A run opened from the index root, or why it cannot be.
pub open spec fn opened_run(files: Seq<NamedFile>, run: RunView) -> Result<OpenedModel, Seq<char>> {
    match opened_at::<Identity>(files, run.identities) {
        Err(text) => Err(text),
        Ok(i) => match opened_at::<NodeSurrogate>(files, run.node_surrogates) {
            Err(text) => Err(text),
            Ok(j) => Ok(
                OpenedModel {
                    run: RunModel {
                        run,
                        identities: files[i].file.bytes@,
                        node_surrogates: files[j].file.bytes@,
                    },
                    files: RunFiles {
                        identities: files[i].file.identity,
                        node_surrogates: files[j].file.identity,
                    },
                },
            ),
        },
    }
}

/// A run with the identities of its files.
#[derive(Debug, PartialEq, Eq)]
pub struct OpenedRun {
    /// The run.
    pub run: OpenRun,
    /// Identities of its files.
    pub files: RunFiles,
}

impl View for OpenedRun {
    type V = OpenedModel;

    open spec fn view(&self) -> OpenedModel {
        OpenedModel { run: self.run@, files: self.files }
    }
}

/// A copy of a byte vector.
pub(crate) fn copy_bytes(bytes: &Vec<u8>) -> (copy: Vec<u8>)
    ensures
        copy@ == bytes@,
{
    let mut copy: Vec<u8> = Vec::new();
    crate::bytes::push_all(&mut copy, bytes.as_slice());
    assert(copy@ =~= bytes@);
    copy
}

fn open_verified<T: Framed>(files: &Vec<NamedFile>, file: &FileRecord) -> (found: Result<
    usize,
    GfError,
>)
    ensures
        match found {
            Ok(i) => i < files@.len() && opened_at::<T>(files@, file@) == Ok::<int, Seq<char>>(
                i as int,
            ),
            Err(error) => opened_at::<T>(files@, file@) is Err && error.is_storage(
                opened_at::<T>(files@, file@)->Err_0,
            ),
        },
{
    match find_first(files, file.name.as_str()) {
        None => Err(storage_err("UUID index file is absent")),
        Some(i) => match authenticate_file::<T>(
            files[i].file.bytes.as_slice(),
            file,
            "UUID index file authentication failed",
        ) {
            Ok(_) => Ok(i),
            Err(error) => Err(error),
        },
    }
}

pub(crate) fn open_run(files: &Vec<NamedFile>, run: &RunRecord) -> (opened: Result<OpenedRun, GfError>)
    ensures
        match opened {
            Ok(opened) => opened_run(files@, run@) == Ok::<OpenedModel, Seq<char>>(opened@),
            Err(error) => opened_run(files@, run@) is Err && error.is_storage(
                opened_run(files@, run@)->Err_0,
            ),
        },
{
    let i: usize = match open_verified::<Identity>(files, &run.identities) {
        Ok(i) => i,
        Err(error) => {
            return Err(error);
        },
    };
    let j: usize = match open_verified::<NodeSurrogate>(files, &run.node_surrogates) {
        Ok(j) => j,
        Err(error) => {
            return Err(error);
        },
    };
    Ok(
        OpenedRun {
            run: OpenRun {
                descriptor: run.duplicate(),
                identities: copy_bytes(&files[i].file.bytes),
                node_surrogates: copy_bytes(&files[j].file.bytes),
            },
            files: RunFiles {
                identities: files[i].file.identity,
                node_surrogates: files[j].file.identity,
            },
        },
    )
}

/// Bytes authenticated for some runs, on top of a total.
pub open spec fn authenticated_bytes(total: u64, runs: Seq<RunView>) -> u64
    decreases runs.len(),
{
    if runs.len() == 0 {
        total
    } else {
        sat_add(
            sat_add(
                authenticated_bytes(total, runs.drop_last()),
                identity_length(runs.last().identities),
            ),
            surrogate_length(runs.last().node_surrogates),
        )
    }
}

/// Blocks authenticated for some runs, on top of a total.
pub open spec fn authenticated_blocks(total: u64, runs: Seq<RunView>) -> u64
    decreases runs.len(),
{
    if runs.len() == 0 {
        total
    } else {
        sat_add(
            sat_add(
                authenticated_blocks(total, runs.drop_last()),
                runs.last().identities.blocks.len() as u64,
            ),
            runs.last().node_surrogates.blocks.len() as u64,
        )
    }
}

/// Bytes authenticated for all runs, on top of a total.
pub(crate) fn sum_authenticated(total: u64, blocks: u64, runs: &Vec<RunRecord>) -> (work: (u64, u64))
    ensures
        work.0 == authenticated_bytes(total, crate::index_format::run_views(runs@)),
        work.1 == authenticated_blocks(blocks, crate::index_format::run_views(runs@)),
{
    let ghost all = crate::index_format::run_views(runs@);
    let mut sum: u64 = total;
    let mut count: u64 = blocks;
    let mut i: usize = 0;
    while i < runs.len()
        invariant
            i <= runs@.len(),
            all == crate::index_format::run_views(runs@),
            sum == authenticated_bytes(total, all.take(i as int)),
            count == authenticated_blocks(blocks, all.take(i as int)),
        decreases runs.len() - i,
    {
        assert(all.take(i + 1).drop_last() =~= all.take(i as int));
        assert(all.take(i + 1).last() == runs@[i as int]@);
        sum = saturating_sum(sum, sum_block_bytes(0, &runs[i].identities));
        sum = saturating_sum(sum, saturating_product(runs[i].node_surrogates.count, 24));
        count = saturating_sum(count, runs[i].identities.blocks.len() as u64);
        count = saturating_sum(count, runs[i].node_surrogates.blocks.len() as u64);
        i = i + 1;
    }
    assert(all.take(i as int) =~= all);
    (sum, count)
}

/// Runs opened from the index root, or why they cannot be.
pub open spec fn opened_runs(files: Seq<NamedFile>, runs: Seq<RunView>) -> Result<
    Seq<OpenedModel>,
    Seq<char>,
>
    decreases runs.len(),
{
    if runs.len() == 0 {
        Ok(Seq::empty())
    } else {
        match opened_runs(files, runs.drop_last()) {
            Err(text) => Err(text),
            Ok(opened) => match opened_run(files, runs.last()) {
                Err(text) => Err(text),
                Ok(last) => Ok(opened.push(last)),
            },
        }
    }
}

/// The runs of some opened runs.
pub open spec fn opened_contents(opened: Seq<OpenedModel>) -> Seq<RunModel> {
    Seq::new(opened.len(), |i: int| opened[i].run)
}

/// The file identities of some opened runs.
pub open spec fn opened_files(opened: Seq<OpenedModel>) -> Seq<RunFiles> {
    Seq::new(opened.len(), |i: int| opened[i].files)
}

proof fn lemma_opening_fails(files: Seq<NamedFile>, runs: Seq<RunView>, n: int)
    requires
        0 <= n <= runs.len(),
        opened_runs(files, runs.take(n)) is Err,
    ensures
        opened_runs(files, runs) == opened_runs(files, runs.take(n)),
    decreases runs.len(),
{
    if n < runs.len() {
        assert(runs.drop_last().take(n) =~= runs.take(n));
        lemma_opening_fails(files, runs.drop_last(), n);
    } else {
        assert(runs.take(n) =~= runs);
    }
}

/// The index of a manifest with the contents of its runs.
pub open spec fn index_of(manifest: ManifestView, runs: Seq<RunModel>) -> IndexModel {
    IndexModel {
        format_version: manifest.format_version,
        base_generation: manifest.base_generation,
        current_generation: manifest.current_generation,
        live_node_count: manifest.live_node_count,
        live_edge_count: manifest.live_edge_count,
        runs,
    }
}

pub(crate) fn make_index(manifest: &Manifest, runs: Vec<OpenRun>) -> (index: UuidMembershipIndex)
    ensures
        index@ == index_of(manifest@, run_models(runs@)),
{
    UuidMembershipIndex {
        format_version: manifest.format_version,
        base_generation: manifest.base_generation,
        current_generation: manifest.current_generation,
        live_node_count: manifest.live_node_count,
        live_edge_count: manifest.live_edge_count,
        runs,
    }
}

/// Runs with the identities of their files.
#[derive(Debug, PartialEq, Eq)]
pub struct OpenedRuns {
    /// The runs.
    pub runs: Vec<OpenRun>,
    /// Identities of their files.
    pub files: Vec<RunFiles>,
}

/// Whether runs are what was opened.
pub open spec fn holds_opened(runs: OpenedRuns, opened: Seq<OpenedModel>) -> bool {
    run_models(runs.runs@) == opened_contents(opened) && runs.files@ == opened_files(opened)
}

pub(crate) proof fn lemma_opened_push(opened: Seq<OpenedModel>, last: OpenedModel)
    ensures
        opened_contents(opened.push(last)) == opened_contents(opened).push(last.run),
        opened_files(opened.push(last)) == opened_files(opened).push(last.files),
{
    assert(opened_contents(opened.push(last)) =~= opened_contents(opened).push(last.run));
    assert(opened_files(opened.push(last)) =~= opened_files(opened).push(last.files));
}

fn open_runs(files: &Vec<NamedFile>, runs: &Vec<RunRecord>) -> (opened: Result<OpenedRuns, GfError>)
    ensures
        ({
            let outcome = opened_runs(files@, crate::index_format::run_views(runs@));
            match opened {
                Ok(opened) => outcome is Ok && holds_opened(opened, outcome->Ok_0),
                Err(error) => outcome is Err && error.is_storage(outcome->Err_0),
            }
        }),
{
    let ghost all = crate::index_format::run_views(runs@);
    let mut opened = OpenedRuns { runs: Vec::new(), files: Vec::new() };
    let mut i: usize = 0;
    assert(run_models(opened.runs@) =~= opened_contents(Seq::<OpenedModel>::empty()));
    assert(opened.files@ =~= opened_files(Seq::<OpenedModel>::empty()));
    while i < runs.len()
        invariant
            i <= runs@.len(),
            all == crate::index_format::run_views(runs@),
            opened_runs(files@, all.take(i as int)) is Ok,
            holds_opened(opened, opened_runs(files@, all.take(i as int))->Ok_0),
        decreases runs.len() - i,
    {
        assert(all.take(i + 1).drop_last() =~= all.take(i as int));
        assert(all.take(i + 1).last() == runs@[i as int]@);
        let ghost before = opened_runs(files@, all.take(i as int))->Ok_0;
        let ghost held = opened.runs@;
        match open_run(files, &runs[i]) {
            Ok(run) => {
                proof {
                    lemma_opened_push(before, run@);
                    assert(run_models(held.push(run.run)) =~= run_models(held).push(run.run@));
                }
                opened.runs.push(run.run);
                opened.files.push(run.files);
            },
            Err(error) => {
                proof {
                    lemma_opening_fails(files@, all, i + 1);
                }
                return Err(error);
            },
        }
        i = i + 1;
    }
    assert(all.take(i as int) =~= all);
    Ok(opened)
}

/// Why a manifest cannot be used for a snapshot, if it cannot.
pub open spec fn manifest_fault(
    file: Option<SeenFile>,
    parsed: Option<Manifest>,
    generation: u64,
    stale: Seq<char>,
) -> Option<Seq<char>> {
    if file is None {
        Some("UUID manifest is absent"@)
    } else if file->0.bytes@.len() > MAX_MANIFEST_BYTES {
        Some("recovery control record exceeds size limit"@)
    } else if parsed is None {
        Some("UUID manifest is malformed"@)
    } else if parsed->0@.format_version != FORMAT_VERSION || parsed->0@.current_generation
        != generation {
        Some(stale)
    } else if !descriptors_valid(parsed->0@) {
        Some("UUID index run descriptors are invalid"@)
    } else {
        None
    }
}

pub(crate) fn check_manifest<'a>(
    file: Option<&'a SeenFile>,
    parsed: &'a Option<Manifest>,
    generation: u64,
    stale: &str,
    Ghost(shown): Ghost<Option<SeenFile>>,
) -> (checked: Result<(&'a SeenFile, &'a Manifest), GfError>)
    requires
        (file is Some) == (shown is Some),
        file is Some ==> *(file->0) == shown->0,
    ensures
        ({
            let fault = manifest_fault(shown, *parsed, generation, stale@);
            match checked {
                Ok((file, manifest)) => fault is None && shown == Some(*file) && *parsed == Some(
                    *manifest,
                ),
                Err(error) => fault is Some && error.is_storage(fault->0),
            }
        }),
{
    let file: &SeenFile = match file {
        Some(file) => file,
        None => {
            return Err(storage_err("UUID manifest is absent"));
        },
    };
    if file.bytes.len() as u64 > MAX_MANIFEST_BYTES {
        return Err(storage_err("recovery control record exceeds size limit"));
    }
    let manifest: &Manifest = match parsed {
        Some(manifest) => manifest,
        None => {
            return Err(storage_err("UUID manifest is malformed"));
        },
    };
    if manifest.format_version != FORMAT_VERSION || manifest.current_generation != generation {
        return Err(storage_err(stale));
    }
    match validate_run_descriptors(manifest) {
        Ok(()) => Ok((file, manifest)),
        Err(error) => Err(error),
    }
}

/// A snapshot of the index root, or why there is none.
pub open spec fn opening(graph_root_path: Seq<char>, sight: IndexSight, generation: u64) -> Result<
    SnapshotModel,
    Seq<char>,
> {
    let fault = manifest_fault(
        sight.manifest,
        sight.parsed,
        generation,
        "authenticated snapshot generation is stale"@,
    );
    if fault is Some {
        Err(fault->0)
    } else {
        let file = sight.manifest->0;
        let manifest = sight.parsed->0@;
        match opened_runs(sight.files@, manifest.runs) {
            Err(text) => Err(text),
            Ok(opened) => Ok(
                SnapshotModel {
                    graph_root_path,
                    graph_root: sight.graph_root,
                    root: sight.root,
                    manifest_name: sight.manifest_name@,
                    manifest_identity: file.identity,
                    manifest_sha256: sha256_hex(file.bytes@),
                    manifest_bytes: file.bytes@.len() as u64,
                    manifest_held: true,
                    index: index_of(manifest, opened_contents(opened)),
                    files: opened_files(opened),
                    authenticated_bytes: authenticated_bytes(
                        file.bytes@.len() as u64,
                        manifest.runs,
                    ),
                    authenticated_blocks: authenticated_blocks(1, manifest.runs),
                    sources: None,
                },
            ),
        }
    }
}

impl AuthenticatedUuidIndexSnapshot {
    /// Whether the snapshot holds the identities of each run's files.
    pub open spec fn well_formed(&self) -> bool {
        self@.files.len() == self@.index.runs.len()
    }

    /// Open a snapshot of the index root at a generation.
    pub fn open_at_generation(graph_root_path: &str, sight: &IndexSight, generation: u64) -> (snapshot:
        Result<AuthenticatedUuidIndexSnapshot, GfError>)
        ensures
            ({
                let outcome = opening(graph_root_path@, *sight, generation);
                match snapshot {
                    Ok(snapshot) => outcome == Ok::<SnapshotModel, Seq<char>>(snapshot@)
                        && snapshot.well_formed(),
                    Err(error) => outcome is Err && error.is_storage(outcome->Err_0),
                }
            }),
    {
        let (file, manifest): (&SeenFile, &Manifest) = match check_manifest(
            sight.manifest.as_ref(),
            &sight.parsed,
            generation,
            "authenticated snapshot generation is stale",
            Ghost(sight.manifest),
        ) {
            Ok(checked) => checked,
            Err(error) => {
                return Err(error);
            },
        };
        let opened: OpenedRuns = match open_runs(&sight.files, &manifest.runs) {
            Ok(opened) => opened,
            Err(error) => {
                return Err(error);
            },
        };
        let work: (u64, u64) = sum_authenticated(file.bytes.len() as u64, 1, &manifest.runs);
        Ok(
            AuthenticatedUuidIndexSnapshot {
                graph_root_path: graph_root_path.to_owned(),
                graph_root: sight.graph_root,
                root: sight.root,
                manifest_name: sight.manifest_name.as_str().to_owned(),
                manifest_identity: file.identity,
                manifest_sha256: hex_sha256(file.bytes.as_slice()),
                manifest_bytes: file.bytes.len() as u64,
                manifest_held: true,
                index: make_index(manifest, opened.runs),
                files: opened.files,
                authenticated_bytes: work.0,
                authenticated_blocks: work.1,
                sources: None,
            },
        )
    }
}

/// Path of an index file below the graph root.
pub open spec fn index_path(name: Seq<char>) -> Seq<char> {
    INDEX_DIR@ + "/"@ + name
}

/// An object that an inventory leads to.
pub open spec fn leased_at(
    inventory: Seq<InventoryEntry>,
    objects: Seq<SeenObject>,
    file: FileView,
    length: u64,
) -> Result<int, Seq<char>> {
    match first_at(inventory, index_path(file.name)) {
        None => Err("compact UUID run is absent"@),
        Some(i) => if inventory[i].content_sha256@ != file.sha256 || inventory[i].byte_length
            != length {
            Err("compact UUID run authority changed"@)
        } else {
            match object_at(objects, file.sha256, length) {
                None => Err("graph object is absent"@),
                Some(k) => Ok(k),
            }
        },
    }
}

/// Where a leased file comes from.
pub open spec fn leased_source(objects: Seq<SeenObject>, file: FileView, length: u64, at: int) -> SourceModel {
    SourceModel { name: file.name, path: objects[at].path@, sha256: file.sha256, length }
}

/// A run as it is leased from a store.
#[verifier::ext_equal]
pub struct LeasedModel {
    pub opened: OpenedModel,
    pub identities: SourceModel,
    pub node_surrogates: SourceModel,
}

/// A run leased from a store, or why it cannot be.
pub open spec fn leased_run(
    inventory: Seq<InventoryEntry>,
    objects: Seq<SeenObject>,
    run: RunView,
) -> Result<LeasedModel, Seq<char>> {
    let identities = identity_length(run.identities);
    let surrogates = surrogate_length(run.node_surrogates);
    match leased_at(inventory, objects, run.identities, identities) {
        Err(text) => Err(text),
        Ok(i) => match leased_at(inventory, objects, run.node_surrogates, surrogates) {
            Err(text) => Err(text),
            Ok(j) => if !file_described::<Identity>(objects[i].file.bytes@, run.identities)
                || !file_described::<NodeSurrogate>(
                objects[j].file.bytes@,
                run.node_surrogates,
            ) {
                Err("UUID index file authentication failed"@)
            } else {
                Ok(
                    LeasedModel {
                        opened: OpenedModel {
                            run: RunModel {
                                run,
                                identities: objects[i].file.bytes@,
                                node_surrogates: objects[j].file.bytes@,
                            },
                            files: RunFiles {
                                identities: objects[i].file.identity,
                                node_surrogates: objects[j].file.identity,
                            },
                        },
                        identities: leased_source(objects, run.identities, identities, i),
                        node_surrogates: leased_source(
                            objects,
                            run.node_surrogates,
                            surrogates,
                            j,
                        ),
                    },
                )
            },
        },
    }
}

/// Runs leased from a store, or why they cannot be.
pub open spec fn leased_runs(
    inventory: Seq<InventoryEntry>,
    objects: Seq<SeenObject>,
    runs: Seq<RunView>,
) -> Result<Seq<LeasedModel>, Seq<char>>
    decreases runs.len(),
{
    if runs.len() == 0 {
        Ok(Seq::empty())
    } else {
        match leased_runs(inventory, objects, runs.drop_last()) {
            Err(text) => Err(text),
            Ok(leased) => match leased_run(inventory, objects, runs.last()) {
                Err(text) => Err(text),
                Ok(last) => Ok(leased.push(last)),
            },
        }
    }
}

proof fn lemma_leasing_fails(
    inventory: Seq<InventoryEntry>,
    objects: Seq<SeenObject>,
    runs: Seq<RunView>,
    n: int,
)
    requires
        0 <= n <= runs.len(),
        leased_runs(inventory, objects, runs.take(n)) is Err,
    ensures
        leased_runs(inventory, objects, runs) == leased_runs(inventory, objects, runs.take(n)),
    decreases runs.len(),
{
    if n < runs.len() {
        assert(runs.drop_last().take(n) =~= runs.take(n));
        lemma_leasing_fails(inventory, objects, runs.drop_last(), n);
    } else {
        assert(runs.take(n) =~= runs);
    }
}

/// The opened runs of some leased runs.
pub open spec fn leased_opened(leased: Seq<LeasedModel>) -> Seq<OpenedModel> {
    Seq::new(leased.len(), |i: int| leased[i].opened)
}

/// The sources of some leased runs, after those of the manifest.
pub open spec fn leased_sources(first: SourceModel, leased: Seq<LeasedModel>) -> Seq<SourceModel>
    decreases leased.len(),
{
    if leased.len() == 0 {
        seq![first]
    } else {
        leased_sources(first, leased.drop_last()).push(leased.last().identities).push(
            leased.last().node_surrogates,
        )
    }
}

fn lease_file(
    inventory: &Vec<InventoryEntry>,
    objects: &Vec<SeenObject>,
    file: &FileRecord,
    length: u64,
) -> (found: Result<usize, GfError>)
    ensures
        ({
            let outcome = leased_at(inventory@, objects@, file@, length);
            match found {
                Ok(i) => i < objects@.len() && outcome == Ok::<int, Seq<char>>(i as int),
                Err(error) => outcome is Err && error.is_storage(outcome->Err_0),
            }
        }),
{
    let path: String = concat3(INDEX_DIR, "/", file.name.as_str());
    let entry: &InventoryEntry = match find_first(inventory, path.as_str()) {
        Some(i) => &inventory[i],
        None => {
            return Err(storage_err("compact UUID run is absent"));
        },
    };
    if !same_text(entry.content_sha256.as_str(), file.sha256.as_str()) || entry.byte_length
        != length {
        return Err(storage_err("compact UUID run authority changed"));
    }
    match find_object(objects, file.sha256.as_str(), length) {
        Some(k) => Ok(k),
        None => Err(storage_err("graph object is absent")),
    }
}

fn source_of(object: &SeenObject, file: &FileRecord, length: u64) -> (source: ObjectSource)
    ensures
        source@ == (SourceModel {
            name: file@.name,
            path: object.path@,
            sha256: file@.sha256,
            length,
        }),
{
    ObjectSource {
        name: file.name.as_str().to_owned(),
        path: object.path.as_str().to_owned(),
        sha256: file.sha256.as_str().to_owned(),
        length,
    }
}

/// A run leased from a store.
#[derive(Debug, PartialEq, Eq)]
pub struct LeasedRun {
    /// The run.
    pub opened: OpenedRun,
    /// Where its identities come from.
    pub identities: ObjectSource,
    /// Where its surrogates come from.
    pub node_surrogates: ObjectSource,
}

impl View for LeasedRun {
    type V = LeasedModel;

    open spec fn view(&self) -> LeasedModel {
        LeasedModel {
            opened: self.opened@,
            identities: self.identities@,
            node_surrogates: self.node_surrogates@,
        }
    }
}

fn lease_run(
    inventory: &Vec<InventoryEntry>,
    objects: &Vec<SeenObject>,
    run: &RunRecord,
) -> (leased: Result<LeasedRun, GfError>)
    ensures
        ({
            let outcome = leased_run(inventory@, objects@, run@);
            match leased {
                Ok(leased) => outcome == Ok::<LeasedModel, Seq<char>>(leased@),
                Err(error) => outcome is Err && error.is_storage(outcome->Err_0),
            }
        }),
{
    let identities: u64 = sum_block_bytes(0, &run.identities);
    let surrogates: u64 = saturating_product(run.node_surrogates.count, 24);
    let i: usize = match lease_file(inventory, objects, &run.identities, identities) {
        Ok(i) => i,
        Err(error) => {
            return Err(error);
        },
    };
    let j: usize = match lease_file(inventory, objects, &run.node_surrogates, surrogates) {
        Ok(j) => j,
        Err(error) => {
            return Err(error);
        },
    };
    match authenticate_file::<Identity>(
        objects[i].file.bytes.as_slice(),
        &run.identities,
        "UUID index file authentication failed",
    ) {
        Ok(_) => {},
        Err(error) => {
            return Err(error);
        },
    }
    match authenticate_file::<NodeSurrogate>(
        objects[j].file.bytes.as_slice(),
        &run.node_surrogates,
        "UUID index file authentication failed",
    ) {
        Ok(_) => {},
        Err(error) => {
            return Err(error);
        },
    }
    Ok(
        LeasedRun {
            opened: OpenedRun {
                run: OpenRun {
                    descriptor: run.duplicate(),
                    identities: copy_bytes(&objects[i].file.bytes),
                    node_surrogates: copy_bytes(&objects[j].file.bytes),
                },
                files: RunFiles {
                    identities: objects[i].file.identity,
                    node_surrogates: objects[j].file.identity,
                },
            },
            identities: source_of(&objects[i], &run.identities, identities),
            node_surrogates: source_of(&objects[j], &run.node_surrogates, surrogates),
        },
    )
}

proof fn lemma_sources_push(sources: Seq<ObjectSource>, source: ObjectSource)
    ensures
        source_models(sources.push(source)) == source_models(sources).push(source@),
{
    assert(source_models(sources.push(source)) =~= source_models(sources).push(source@));
}

fn lease_runs(
    inventory: &Vec<InventoryEntry>,
    objects: &Vec<SeenObject>,
    runs: &Vec<RunRecord>,
    first: ObjectSource,
) -> (leased: Result<(OpenedRuns, Vec<ObjectSource>), GfError>)
    ensures
        ({
            let outcome = leased_runs(
                inventory@,
                objects@,
                crate::index_format::run_views(runs@),
            );
            match leased {
                Ok((opened, sources)) => {
                    &&& outcome is Ok
                    &&& holds_opened(opened, leased_opened(outcome->Ok_0))
                    &&& source_models(sources@) == leased_sources(first@, outcome->Ok_0)
                },
                Err(error) => outcome is Err && error.is_storage(outcome->Err_0),
            }
        }),
{
    let ghost all = crate::index_format::run_views(runs@);
    let ghost head = first@;
    let mut opened = OpenedRuns { runs: Vec::new(), files: Vec::new() };
    let mut sources: Vec<ObjectSource> = Vec::new();
    sources.push(first);
    let mut i: usize = 0;
    proof {
        let none = Seq::<LeasedModel>::empty();
        assert(run_models(opened.runs@) =~= opened_contents(leased_opened(none)));
        assert(opened.files@ =~= opened_files(leased_opened(none)));
        assert(source_models(sources@) =~= leased_sources(head, none));
    }
    while i < runs.len()
        invariant
            i <= runs@.len(),
            all == crate::index_format::run_views(runs@),
            leased_runs(inventory@, objects@, all.take(i as int)) is Ok,
            holds_opened(
                opened,
                leased_opened(leased_runs(inventory@, objects@, all.take(i as int))->Ok_0),
            ),
            source_models(sources@) == leased_sources(
                head,
                leased_runs(inventory@, objects@, all.take(i as int))->Ok_0,
            ),
        decreases runs.len() - i,
    {
        assert(all.take(i + 1).drop_last() =~= all.take(i as int));
        assert(all.take(i + 1).last() == runs@[i as int]@);
        let ghost before = leased_runs(inventory@, objects@, all.take(i as int))->Ok_0;
        let ghost held = opened.runs@;
        let ghost known = sources@;
        match lease_run(inventory, objects, &runs[i]) {
            Ok(run) => {
                proof {
                    let after = before.push(run@);
                    assert(leased_opened(after) =~= leased_opened(before).push(run@.opened));
                    lemma_opened_push(leased_opened(before), run@.opened);
                    assert(run_models(held.push(run.opened.run)) =~= run_models(held).push(
                        run.opened.run@,
                    ));
                    lemma_sources_push(known, run.identities);
                    lemma_sources_push(known.push(run.identities), run.node_surrogates);
                    assert(after.drop_last() =~= before);
                }
                opened.runs.push(run.opened.run);
                opened.files.push(run.opened.files);
                sources.push(run.identities);
                sources.push(run.node_surrogates);
            },
            Err(error) => {
                proof {
                    lemma_leasing_fails(inventory@, objects@, all, i + 1);
                }
                return Err(error);
            },
        }
        i = i + 1;
    }
    assert(all.take(i as int) =~= all);
    Ok((opened, sources))
}

/// The manifest object that an inventory leads to.
pub open spec fn leased_manifest(
    inventory: Seq<InventoryEntry>,
    objects: Seq<SeenObject>,
    name: Seq<char>,
) -> Result<(int, int), Seq<char>> {
    match first_at(inventory, index_path(name)) {
        None => Err("compact UUID manifest is absent"@),
        Some(i) => match object_at(
            objects,
            inventory[i].content_sha256@,
            inventory[i].byte_length,
        ) {
            None => Err("graph object is absent"@),
            Some(k) => Ok((i, k)),
        },
    }
}

/// A snapshot of a compact index, or why there is none.
pub open spec fn leasing(
    graph_root_path: Seq<char>,
    inventory: Seq<InventoryEntry>,
    sight: IndexSight,
    generation: u64,
) -> Result<SnapshotModel, Seq<char>> {
    match leased_manifest(inventory, sight.objects@, sight.manifest_name@) {
        Err(text) => Err(text),
        Ok((i, k)) => {
            let file = sight.objects@[k].file;
            let fault = manifest_fault(
                Some(file),
                sight.parsed,
                generation,
                "authenticated compact snapshot generation is stale"@,
            );
            if fault is Some {
                Err(fault->0)
            } else {
                let manifest = sight.parsed->0@;
                let first = SourceModel {
                    name: sight.manifest_name@,
                    path: sight.objects@[k].path@,
                    sha256: inventory[i].content_sha256@,
                    length: inventory[i].byte_length,
                };
                match leased_runs(inventory, sight.objects@, manifest.runs) {
                    Err(text) => Err(text),
                    Ok(leased) => Ok(
                        SnapshotModel {
                            graph_root_path,
                            graph_root: sight.graph_root,
                            root: sight.graph_root,
                            manifest_name: sight.manifest_name@,
                            manifest_identity: file.identity,
                            manifest_sha256: sha256_hex(file.bytes@),
                            manifest_bytes: file.bytes@.len() as u64,
                            manifest_held: true,
                            index: index_of(
                                manifest,
                                opened_contents(leased_opened(leased)),
                            ),
                            files: opened_files(leased_opened(leased)),
                            authenticated_bytes: authenticated_bytes(
                                file.bytes@.len() as u64,
                                manifest.runs,
                            ),
                            authenticated_blocks: authenticated_blocks(1, manifest.runs),
                            sources: Some(leased_sources(first, leased)),
                        },
                    ),
                }
            }
        },
    }
}

impl AuthenticatedUuidIndexSnapshot {
    /// Open a snapshot of a compact index: the inventory of the graph leads
    /// to the objects that hold the manifest and the runs.
    pub fn open_from_compact_inventory(
        graph_root_path: &str,
        inventory: &Vec<InventoryEntry>,
        sight: &IndexSight,
        generation: u64,
    ) -> (snapshot: Result<AuthenticatedUuidIndexSnapshot, GfError>)
        ensures
            ({
                let outcome = leasing(graph_root_path@, inventory@, *sight, generation);
                match snapshot {
                    Ok(snapshot) => outcome == Ok::<SnapshotModel, Seq<char>>(snapshot@)
                        && snapshot.well_formed(),
                    Err(error) => outcome is Err && error.is_storage(outcome->Err_0),
                }
            }),
    {
        let path: String = concat3(INDEX_DIR, "/", sight.manifest_name.as_str());
        let entry: &InventoryEntry = match find_first(inventory, path.as_str()) {
            Some(i) => &inventory[i],
            None => {
                return Err(storage_err("compact UUID manifest is absent"));
            },
        };
        let object: &SeenObject = match find_object(
            &sight.objects,
            entry.content_sha256.as_str(),
            entry.byte_length,
        ) {
            Some(k) => &sight.objects[k],
            None => {
                return Err(storage_err("graph object is absent"));
            },
        };
        let (file, manifest): (&SeenFile, &Manifest) = match check_manifest(
            Some(&object.file),
            &sight.parsed,
            generation,
            "authenticated compact snapshot generation is stale",
            Ghost(Some(object.file)),
        ) {
            Ok(checked) => checked,
            Err(error) => {
                return Err(error);
            },
        };
        let first = ObjectSource {
            name: sight.manifest_name.as_str().to_owned(),
            path: object.path.as_str().to_owned(),
            sha256: entry.content_sha256.as_str().to_owned(),
            length: entry.byte_length,
        };
        let (opened, sources): (OpenedRuns, Vec<ObjectSource>) = match lease_runs(
            inventory,
            &sight.objects,
            &manifest.runs,
            first,
        ) {
            Ok(leased) => leased,
            Err(error) => {
                return Err(error);
            },
        };
        let work: (u64, u64) = sum_authenticated(file.bytes.len() as u64, 1, &manifest.runs);
        Ok(
            AuthenticatedUuidIndexSnapshot {
                graph_root_path: graph_root_path.to_owned(),
                graph_root: sight.graph_root,
                root: sight.graph_root,
                manifest_name: sight.manifest_name.as_str().to_owned(),
                manifest_identity: file.identity,
                manifest_sha256: hex_sha256(file.bytes.as_slice()),
                manifest_bytes: file.bytes.len() as u64,
                manifest_held: true,
                index: make_index(manifest, opened.runs),
                files: opened.files,
                authenticated_bytes: work.0,
                authenticated_blocks: work.1,
                sources: Some(sources),
            },
        )
    }
}

} // verus!
