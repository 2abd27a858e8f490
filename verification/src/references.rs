//! References to retained index files, and their authentication.
use vstd::prelude::*;
use vstd::slice::*;
use vstd::string::*;
use vstd::utf8::*;

use crate::bytes::{
    ascii, be_bytes, decimal, decimal_text, encode_hex, has_prefix, hex_text, push_be, same_text,
    sat_add, sat_mul, saturating_product, saturating_sum, starts_with,
};
use crate::digest::{hex_sha256, sha256_hex};
use crate::error::{concat3, GfError, storage_err};
use crate::index_format::{FileRecord, FileView};
use crate::receipts::INDEX_DIR;
use crate::revalidation::change;
use crate::runs::RunModel;
use crate::snapshot::{
    authenticated_bytes, AuthenticatedUuidIndexSnapshot, FileIdentity, identity_length,
    index_path, IndexSight, ObjectSource, SeenFile, SnapshotModel, source_models, SourceModel,
    sum_authenticated, surrogate_length,
};
use crate::topology_delta::sum_block_bytes;

verus! {

/// The files of a run that a snapshot holds open, as they are seen.
#[derive(Debug, PartialEq, Eq)]
pub struct HeldRun {
    /// Identity file.
    pub identities: SeenFile,
    /// Surrogate file.
    pub node_surrogates: SeenFile,
}

/// A reference to a retained index file.
#[derive(Debug, PartialEq, Eq)]
pub struct ConstructionIndexReference {
    /// Path of the graph root that holds the file.
    pub source_root: String,
    /// Volume of the graph root.
    pub source_root_volume: u64,
    /// File number of the graph root.
    pub source_root_file_id: String,
    /// Path of the file below the graph root.
    pub source_path: String,
    /// Volume of the file.
    pub source_volume: u64,
    /// Number of the file.
    pub source_file_id: String,
    /// Path that the file is to have below the new graph root.
    pub target_path: String,
    /// Length of the file.
    pub bytes: u64,
    /// Digest of the file.
    pub sha256: String,
    /// Digest of the manifest that names the file.
    pub parent_manifest_sha256: String,
}

/// Model of a [`ConstructionIndexReference`].
#[verifier::ext_equal]
pub struct ReferenceModel {
    pub source_root: Seq<char>,
    pub source_root_volume: u64,
    pub source_root_file_id: Seq<char>,
    pub source_path: Seq<char>,
    pub source_volume: u64,
    pub source_file_id: Seq<char>,
    pub target_path: Seq<char>,
    pub bytes: u64,
    pub sha256: Seq<char>,
    pub parent_manifest_sha256: Seq<char>,
}

impl View for ConstructionIndexReference {
    type V = ReferenceModel;

    open spec fn view(&self) -> ReferenceModel {
        ReferenceModel {
            source_root: self.source_root@,
            source_root_volume: self.source_root_volume,
            source_root_file_id: self.source_root_file_id@,
            source_path: self.source_path@,
            source_volume: self.source_volume,
            source_file_id: self.source_file_id@,
            target_path: self.target_path@,
            bytes: self.bytes,
            sha256: self.sha256@,
            parent_manifest_sha256: self.parent_manifest_sha256@,
        }
    }
}

/// Work of authenticating references.
#[derive(Clone, Copy, Debug, PartialEq, Eq, Structural)]
pub struct ConstructionReferenceAuthenticationWork {
    /// Bytes of the snapshot that were held against what is seen.
    pub global_revalidation_bytes: u64,
    /// Bytes of the referenced files.
    pub referenced_payload_bytes: u64,
}

/// The text of a file number.
pub open spec fn file_id_text(file_id: u128) -> Seq<char> {
    ascii(hex_text(be_bytes(file_id as nat, 16)))
}

fn file_id_hex(file_id: u128) -> (text: String)
    ensures
        text@ == file_id_text(file_id),
{
    let mut bytes: Vec<u8> = Vec::new();
    proof {
        crate::bytes::lemma_pow256_words();
    }
    push_be(&mut bytes, file_id, 16);
    assert(bytes@ =~= be_bytes(file_id as nat, 16));
    encode_hex(bytes.as_slice())
}

/// Length that a record gives its file.
pub open spec fn file_length(file: FileView) -> u64 {
    if starts_with(encode_utf8(file.name), encode_utf8("identities-"@)) {
        identity_length(file)
    } else {
        surrogate_length(file)
    }
}

fn record_length(file: &FileRecord) -> (length: u64)
    ensures
        length == file_length(file@),
{
    if has_prefix(file.name.as_str().as_bytes(), "identities-".as_bytes()) {
        sum_block_bytes(0, file)
    } else {
        saturating_product(file.count, 24)
    }
}

/// The run that a record belongs to, and whether it is its identity file.
pub open spec fn retained_place(runs: Seq<RunModel>, file: FileView) -> Option<(int, bool)>
    decreases runs.len(),
{
    if runs.len() == 0 {
        None
    } else {
        match retained_place(runs.drop_last(), file) {
            Some(place) => Some(place),
            None => if runs.last().run.identities == file {
                Some((runs.len() - 1, true))
            } else if runs.last().run.node_surrogates == file {
                Some((runs.len() - 1, false))
            } else {
                None
            },
        }
    }
}

proof fn lemma_place_found(runs: Seq<RunModel>, file: FileView, n: int)
    requires
        0 <= n <= runs.len(),
        retained_place(runs.take(n), file) is Some,
    ensures
        retained_place(runs, file) == retained_place(runs.take(n), file),
    decreases runs.len(),
{
    if n < runs.len() {
        assert(runs.drop_last().take(n) =~= runs.take(n));
        lemma_place_found(runs.drop_last(), file, n);
    } else {
        assert(runs.take(n) =~= runs);
    }
}

/// A retained file as it is seen, or why it cannot be used.
pub open spec fn retained_file(snapshot: SnapshotModel, held: Seq<HeldRun>, file: FileView) -> Result<
    SeenFile,
    Seq<char>,
> {
    match retained_place(snapshot.index.runs, file) {
        None => Err("retained UUID descriptor is not authenticated"@),
        Some((i, identities)) => if i >= held.len() {
            Err("retained UUID run is not held"@)
        } else {
            let seen = if identities {
                held[i].identities
            } else {
                held[i].node_surrogates
            };
            let expected = if identities {
                snapshot.files[i].identities
            } else {
                snapshot.files[i].node_surrogates
            };
            if seen.identity != expected || (snapshot.sources is None && !seen.links_safe) {
                Err("retained UUID run identity changed"@)
            } else {
                Ok(seen)
            }
        },
    }
}

/// Place of the source that gives a target path, the one recorded last.
pub open spec fn source_for(sources: Seq<SourceModel>, target: Seq<char>) -> Option<int>
    decreases sources.len(),
{
    if sources.len() == 0 {
        None
    } else if index_path(sources.last().name) == target {
        Some(sources.len() - 1)
    } else {
        source_for(sources.drop_last(), target)
    }
}

/// The path that a target path comes from.
pub open spec fn source_path(sources: Option<Seq<SourceModel>>, target: Seq<char>) -> Seq<char> {
    match sources {
        None => target,
        Some(sources) => match source_for(sources, target) {
            None => target,
            Some(i) => sources[i].path,
        },
    }
}

/// The reference to a retained file, or why there is none.
pub open spec fn referring(snapshot: SnapshotModel, held: Seq<HeldRun>, file: FileView) -> Result<
    ReferenceModel,
    Seq<char>,
> {
    match retained_file(snapshot, held, file) {
        Err(text) => Err(text),
        Ok(seen) => Ok(
            ReferenceModel {
                source_root: snapshot.graph_root_path,
                source_root_volume: snapshot.graph_root.volume,
                source_root_file_id: file_id_text(snapshot.graph_root.file_id),
                source_path: source_path(snapshot.sources, index_path(file.name)),
                source_volume: seen.identity.volume,
                source_file_id: file_id_text(seen.identity.file_id),
                target_path: index_path(file.name),
                bytes: file_length(file),
                sha256: file.sha256,
                parent_manifest_sha256: snapshot.manifest_sha256,
            },
        ),
    }
}

/// The record of a target path: the first one in the order of the runs, the
/// identity file of a run before its surrogate file.
pub open spec fn record_for(runs: Seq<RunModel>, target: Seq<char>) -> Option<FileView>
    decreases runs.len(),
{
    if runs.len() == 0 {
        None
    } else {
        match record_for(runs.drop_last(), target) {
            Some(file) => Some(file),
            None => if index_path(runs.last().run.identities.name) == target {
                Some(runs.last().run.identities)
            } else if index_path(runs.last().run.node_surrogates.name) == target {
                Some(runs.last().run.node_surrogates)
            } else {
                None
            },
        }
    }
}

proof fn lemma_record_found(runs: Seq<RunModel>, target: Seq<char>, n: int)
    requires
        0 <= n <= runs.len(),
        record_for(runs.take(n), target) is Some,
    ensures
        record_for(runs, target) == record_for(runs.take(n), target),
    decreases runs.len(),
{
    if n < runs.len() {
        assert(runs.drop_last().take(n) =~= runs.take(n));
        lemma_record_found(runs.drop_last(), target, n);
    } else {
        assert(runs.take(n) =~= runs);
    }
}

/// What is said of a reference that no longer holds.
pub open spec fn reference_change(
    reference: ReferenceModel,
    seen: SeenFile,
    file: FileView,
) -> Seq<char> {
    "retained construction reference changed: volume="@ + ascii(
        decimal_text(seen.identity.volume as nat),
    ) + " expected_volume="@ + ascii(decimal_text(reference.source_volume as nat)) + " file_id="@
        + file_id_text(seen.identity.file_id) + " expected_file_id="@ + reference.source_file_id
        + " bytes="@ + ascii(decimal_text(seen.bytes@.len())) + " expected_bytes="@ + ascii(
        decimal_text(file_length(file) as nat),
    ) + " reference_sha="@ + reference.sha256 + " manifest_sha="@ + file.sha256
}

/// Whether a reference speaks of this root, this manifest and an index file.
pub open spec fn reference_authorized(snapshot: SnapshotModel, reference: ReferenceModel) -> bool {
    &&& reference.source_root == snapshot.graph_root_path
    &&& reference.source_root_volume == snapshot.graph_root.volume
    &&& reference.source_root_file_id == file_id_text(snapshot.graph_root.file_id)
    &&& reference.parent_manifest_sha256 == snapshot.manifest_sha256
    &&& starts_with(encode_utf8(reference.target_path), encode_utf8(INDEX_DIR@ + "/"@))
}

/// Whether a file is what a reference and a record say.
pub open spec fn reference_holds(reference: ReferenceModel, seen: SeenFile, file: FileView) -> bool {
    &&& seen.identity.volume == reference.source_volume
    &&& file_id_text(seen.identity.file_id) == reference.source_file_id
    &&& reference.bytes == file_length(file)
    &&& seen.bytes@.len() == file_length(file)
    &&& reference.sha256 == file.sha256
    &&& sha256_hex(seen.bytes@) == file.sha256
}

/// Bytes of a referenced file, or why the reference does not hold.
pub open spec fn reference_outcome(
    snapshot: SnapshotModel,
    held: Seq<HeldRun>,
    reference: ReferenceModel,
) -> Result<u64, Seq<char>> {
    if !reference_authorized(snapshot, reference) {
        Err("retained construction reference authority changed"@)
    } else if reference.source_path != source_path(snapshot.sources, reference.target_path) {
        Err("retained construction source path changed"@)
    } else {
        match record_for(snapshot.index.runs, reference.target_path) {
            None => Err("retained construction run is absent"@),
            Some(file) => match retained_file(snapshot, held, file) {
                Err(text) => Err(text),
                Ok(seen) => if reference_holds(reference, seen, file) {
                    Ok(seen.bytes@.len() as u64)
                } else {
                    Err(reference_change(reference, seen, file))
                },
            },
        }
    }
}

/// Models of some references.
pub open spec fn reference_models(references: Seq<ConstructionIndexReference>) -> Seq<
    ReferenceModel,
> {
    Seq::new(references.len(), |i: int| references[i]@)
}

/// Bytes of some referenced files, or why one reference does not hold.
pub open spec fn references_outcome(
    snapshot: SnapshotModel,
    held: Seq<HeldRun>,
    references: Seq<ReferenceModel>,
) -> Result<u64, Seq<char>>
    decreases references.len(),
{
    if references.len() == 0 {
        Ok(0)
    } else {
        match references_outcome(snapshot, held, references.drop_last()) {
            Err(text) => Err(text),
            Ok(total) => match reference_outcome(snapshot, held, references.last()) {
                Err(text) => Err(text),
                Ok(bytes) => Ok(sat_add(total, bytes)),
            },
        }
    }
}

proof fn lemma_reference_fails(
    snapshot: SnapshotModel,
    held: Seq<HeldRun>,
    references: Seq<ReferenceModel>,
    n: int,
)
    requires
        0 <= n <= references.len(),
        references_outcome(snapshot, held, references.take(n)) is Err,
    ensures
        references_outcome(snapshot, held, references) == references_outcome(
            snapshot,
            held,
            references.take(n),
        ),
    decreases references.len(),
{
    if n < references.len() {
        assert(references.drop_last().take(n) =~= references.take(n));
        lemma_reference_fails(snapshot, held, references.drop_last(), n);
    } else {
        assert(references.take(n) =~= references);
    }
}

/// Work of authenticating references, or why it fails: the snapshot holds
/// before and after, and so does each reference.
pub open spec fn authenticating(
    snapshot: SnapshotModel,
    before: IndexSight,
    held: Seq<HeldRun>,
    references: Seq<ReferenceModel>,
    after: IndexSight,
) -> Result<ConstructionReferenceAuthenticationWork, Seq<char>> {
    if change(snapshot, before) is Some {
        Err(change(snapshot, before)->0)
    } else {
        match references_outcome(snapshot, held, references) {
            Err(text) => Err(text),
            Ok(bytes) => if change(snapshot, after) is Some {
                Err(change(snapshot, after)->0)
            } else {
                Ok(
                    ConstructionReferenceAuthenticationWork {
                        global_revalidation_bytes: sat_mul(
                            authenticated_bytes(
                                snapshot.manifest_bytes,
                                snapshot.index.manifest().runs,
                            ),
                            2,
                        ),
                        referenced_payload_bytes: bytes,
                    },
                )
            },
        }
    }
}

fn path_is(name: &String, target: &str) -> (yes: bool)
    ensures
        yes == (index_path(name@) == target@),
{
    let path: String = concat3(INDEX_DIR, "/", name.as_str());
    same_text(path.as_str(), target)
}

fn path_of_source<'a>(
    sources: &'a Option<Vec<ObjectSource>>,
    target: &'a str,
    Ghost(models): Ghost<Option<Seq<SourceModel>>>,
) -> (path: &'a str)
    requires
        models == match *sources {
            Some(sources) => Some(source_models(sources@)),
            None => None,
        },
    ensures
        path@ == source_path(models, target@),
{
    match sources {
        None => target,
        Some(sources) => {
            let ghost all = source_models(sources@);
            let mut i: usize = sources.len();
            assert(all.take(i as int) =~= all);
            while i > 0
                invariant
                    i <= sources@.len(),
                    all == source_models(sources@),
                    models == Some(all),
                    source_for(all, target@) == source_for(all.take(i as int), target@),
                decreases i,
            {
                assert(all.take(i as int).drop_last() =~= all.take(i - 1));
                assert(all.take(i as int).last() == sources@[i - 1]@);
                if path_is(&sources[i - 1].name, target) {
                    return sources[i - 1].path.as_str();
                }
                i = i - 1;
            }
            target
        },
    }
}

fn describe_change(reference: &ConstructionIndexReference, seen: &SeenFile, file: &FileRecord) -> (text:
    String)
    ensures
        text@ == reference_change(reference@, *seen, file@),
{
    let mut text: String = "retained construction reference changed: volume=".to_owned();
    text.append(decimal(seen.identity.volume).as_str());
    text.append(" expected_volume=");
    text.append(decimal(reference.source_volume).as_str());
    text.append(" file_id=");
    text.append(file_id_hex(seen.identity.file_id).as_str());
    text.append(" expected_file_id=");
    text.append(reference.source_file_id.as_str());
    text.append(" bytes=");
    text.append(decimal(seen.bytes.len() as u64).as_str());
    text.append(" expected_bytes=");
    text.append(decimal(record_length(file)).as_str());
    text.append(" reference_sha=");
    text.append(reference.sha256.as_str());
    text.append(" manifest_sha=");
    text.append(file.sha256.as_str());
    text
}

impl AuthenticatedUuidIndexSnapshot {
    /// A retained file as it is seen.
    pub fn open_retained_file<'a>(&self, held: &'a Vec<HeldRun>, file: &FileRecord) -> (seen: Result<
        &'a SeenFile,
        GfError,
    >)
        requires
            self.well_formed(),
        ensures
            ({
                let outcome = retained_file(self@, held@, file@);
                match seen {
                    Ok(seen) => outcome == Ok::<SeenFile, Seq<char>>(*seen),
                    Err(error) => outcome is Err && error.is_storage(outcome->Err_0),
                }
            }),
    {
        let ghost runs = self@.index.runs;
        let mut i: usize = 0;
        while i < self.index.runs.len()
            invariant
                i <= self.index.runs@.len(),
                self.well_formed(),
                runs == self@.index.runs,
                retained_place(runs.take(i as int), file@) is None,
            decreases self.index.runs.len() - i,
        {
            assert(runs.take(i + 1).drop_last() =~= runs.take(i as int));
            assert(runs.take(i + 1).last() == self.index.runs@[i as int]@);
            let identities: bool = self.index.runs[i].descriptor.identities.same(file);
            if identities || self.index.runs[i].descriptor.node_surrogates.same(file) {
                proof {
                    lemma_place_found(runs, file@, i + 1);
                }
                if i >= held.len() {
                    return Err(storage_err("retained UUID run is not held"));
                }
                let seen: &SeenFile = if identities {
                    &held[i].identities
                } else {
                    &held[i].node_surrogates
                };
                let expected: FileIdentity = if identities {
                    self.files[i].identities
                } else {
                    self.files[i].node_surrogates
                };
                if seen.identity != expected || (self.sources.is_none() && !seen.links_safe) {
                    return Err(storage_err("retained UUID run identity changed"));
                }
                return Ok(seen);
            }
            i = i + 1;
        }
        assert(runs.take(i as int) =~= runs);
        Err(storage_err("retained UUID descriptor is not authenticated"))
    }

    /// The reference to a retained file.
    pub fn retained_reference(&self, held: &Vec<HeldRun>, file: &FileRecord) -> (reference: Result<
        ConstructionIndexReference,
        GfError,
    >)
        requires
            self.well_formed(),
        ensures
            ({
                let outcome = referring(self@, held@, file@);
                match reference {
                    Ok(reference) => outcome == Ok::<ReferenceModel, Seq<char>>(reference@),
                    Err(error) => outcome is Err && error.is_storage(outcome->Err_0),
                }
            }),
    {
        let seen: &SeenFile = match self.open_retained_file(held, file) {
            Ok(seen) => seen,
            Err(error) => {
                return Err(error);
            },
        };
        let target: String = concat3(INDEX_DIR, "/", file.name.as_str());
        let source: String = path_of_source(
            &self.sources,
            target.as_str(),
            Ghost(self@.sources),
        ).to_owned();
        Ok(
            ConstructionIndexReference {
                source_root: self.graph_root_path.as_str().to_owned(),
                source_root_volume: self.graph_root.volume,
                source_root_file_id: file_id_hex(self.graph_root.file_id),
                source_path: source,
                source_volume: seen.identity.volume,
                source_file_id: file_id_hex(seen.identity.file_id),
                target_path: target,
                bytes: record_length(file),
                sha256: file.sha256.as_str().to_owned(),
                parent_manifest_sha256: self.manifest_sha256.as_str().to_owned(),
            },
        )
    }

    fn find_record(&self, target: &str) -> (found: Option<&FileRecord>)
        ensures
            match found {
                Some(file) => record_for(self@.index.runs, target@) == Some(file@),
                None => record_for(self@.index.runs, target@) is None,
            },
    {
        let ghost runs = self@.index.runs;
        let mut i: usize = 0;
        while i < self.index.runs.len()
            invariant
                i <= self.index.runs@.len(),
                runs == self@.index.runs,
                record_for(runs.take(i as int), target@) is None,
            decreases self.index.runs.len() - i,
        {
            assert(runs.take(i + 1).drop_last() =~= runs.take(i as int));
            assert(runs.take(i + 1).last() == self.index.runs@[i as int]@);
            if path_is(&self.index.runs[i].descriptor.identities.name, target) {
                proof {
                    lemma_record_found(runs, target@, i + 1);
                }
                return Some(&self.index.runs[i].descriptor.identities);
            }
            if path_is(&self.index.runs[i].descriptor.node_surrogates.name, target) {
                proof {
                    lemma_record_found(runs, target@, i + 1);
                }
                return Some(&self.index.runs[i].descriptor.node_surrogates);
            }
            i = i + 1;
        }
        assert(runs.take(i as int) =~= runs);
        None
    }

    /// Authenticate one reference: it speaks of this snapshot, and the file
    /// is the one that both the reference and the manifest describe.
    pub fn authenticate_construction_reference_once(
        &self,
        held: &Vec<HeldRun>,
        reference: &ConstructionIndexReference,
    ) -> (bytes: Result<u64, GfError>)
        requires
            self.well_formed(),
        ensures
            ({
                let outcome = reference_outcome(self@, held@, reference@);
                match bytes {
                    Ok(bytes) => outcome == Ok::<u64, Seq<char>>(bytes),
                    Err(error) => outcome is Err && error.is_storage(outcome->Err_0),
                }
            }),
    {
        let mut prefix: String = INDEX_DIR.to_owned();
        prefix.append("/");
        if !same_text(reference.source_root.as_str(), self.graph_root_path.as_str())
            || reference.source_root_volume != self.graph_root.volume
            || reference.source_root_file_id != file_id_hex(self.graph_root.file_id)
            || !same_text(
            reference.parent_manifest_sha256.as_str(),
            self.manifest_sha256.as_str(),
        ) || !has_prefix(reference.target_path.as_str().as_bytes(), prefix.as_str().as_bytes()) {
            return Err(storage_err("retained construction reference authority changed"));
        }
        let source: &str = path_of_source(
            &self.sources,
            reference.target_path.as_str(),
            Ghost(self@.sources),
        );
        if !same_text(reference.source_path.as_str(), source) {
            return Err(storage_err("retained construction source path changed"));
        }
        let file: &FileRecord = match self.find_record(reference.target_path.as_str()) {
            Some(file) => file,
            None => {
                return Err(storage_err("retained construction run is absent"));
            },
        };
        let seen: &SeenFile = match self.open_retained_file(held, file) {
            Ok(seen) => seen,
            Err(error) => {
                return Err(error);
            },
        };
        let length: u64 = record_length(file);
        if seen.identity.volume != reference.source_volume || file_id_hex(seen.identity.file_id)
            != reference.source_file_id || reference.bytes != length || seen.bytes.len() as u64
            != length || !same_text(reference.sha256.as_str(), file.sha256.as_str())
            || hex_sha256(seen.bytes.as_slice()) != file.sha256 {
            return Err(storage_err(describe_change(reference, seen, file).as_str()));
        }
        Ok(length)
    }

    /// Authenticate references while the snapshot holds: it is held against
    /// what is seen before and after.
    pub fn authenticate_construction_references(
        &self,
        before: &IndexSight,
        held: &Vec<HeldRun>,
        references: &Vec<ConstructionIndexReference>,
        after: &IndexSight,
    ) -> (work: Result<ConstructionReferenceAuthenticationWork, GfError>)
        requires
            self.well_formed(),
        ensures
            ({
                let outcome = authenticating(
                    self@,
                    *before,
                    held@,
                    reference_models(references@),
                    *after,
                );
                match work {
                    Ok(work) => outcome == Ok::<
                        ConstructionReferenceAuthenticationWork,
                        Seq<char>,
                    >(work),
                    Err(error) => outcome is Err && error.is_storage(outcome->Err_0),
                }
            }),
    {
        match self.revalidate(before) {
            Ok(()) => {},
            Err(error) => {
                return Err(error);
            },
        }
        let ghost all = reference_models(references@);
        let mut total: u64 = 0;
        let mut i: usize = 0;
        while i < references.len()
            invariant
                i <= references@.len(),
                self.well_formed(),
                all == reference_models(references@),
                references_outcome(self@, held@, all.take(i as int)) == Ok::<u64, Seq<char>>(
                    total,
                ),
                change(self@, *before) is None,
            decreases references.len() - i,
        {
            assert(all.take(i + 1).drop_last() =~= all.take(i as int));
            assert(all.take(i + 1).last() == references@[i as int]@);
            match self.authenticate_construction_reference_once(held, &references[i]) {
                Ok(bytes) => {
                    total = saturating_sum(total, bytes);
                },
                Err(error) => {
                    proof {
                        lemma_reference_fails(self@, held@, all, i + 1);
                    }
                    return Err(error);
                },
            }
            i = i + 1;
        }
        assert(all.take(i as int) =~= all);
        match self.revalidate(after) {
            Ok(()) => {},
            Err(error) => {
                return Err(error);
            },
        }
        let sums: (u64, u64) = sum_authenticated(
            self.manifest_bytes,
            0,
            &self.index.manifest().runs,
        );
        Ok(
            ConstructionReferenceAuthenticationWork {
                global_revalidation_bytes: saturating_product(sums.0, 2),
                referenced_payload_bytes: total,
            },
        )
    }
}

pub(crate) proof fn lemma_utf8_joined(left: Seq<char>, right: Seq<char>)
    ensures
        encode_utf8(left + right) == encode_utf8(left) + encode_utf8(right),
    decreases left.len(),
{
    if left.len() == 0 {
        assert(left + right =~= right);
        assert(encode_utf8(left) + encode_utf8(right) =~= encode_utf8(right));
    } else {
        let rest = left.drop_first();
        assert((left + right).drop_first() =~= rest + right);
        assert((left + right)[0] == left[0]);
        lemma_utf8_joined(rest, right);
        let first = encode_scalar(left[0] as u32);
        assert(first + (encode_utf8(rest) + encode_utf8(right)) =~= (first + encode_utf8(rest))
            + encode_utf8(right));
    }
}

/// A reference that a snapshot gives out authenticates, as long as the file
/// keeps its identity and is what its record says. The file is the one that
/// its path leads to, which holds of every file whose name no other file has.
pub proof fn lemma_reference_authenticates(
    snapshot: SnapshotModel,
    held: Seq<HeldRun>,
    file: FileView,
)
    requires
        referring(snapshot, held, file) is Ok,
        record_for(snapshot.index.runs, index_path(file.name)) == Some(file),
        ({
            let seen = retained_file(snapshot, held, file)->Ok_0;
            seen.bytes@.len() == file_length(file) && sha256_hex(seen.bytes@) == file.sha256
        }),
    ensures
        reference_outcome(snapshot, held, referring(snapshot, held, file)->Ok_0) == Ok::<
            u64,
            Seq<char>,
        >(file_length(file)),
{
    let reference = referring(snapshot, held, file)->Ok_0;
    let prefix = INDEX_DIR@ + "/"@;
    lemma_utf8_joined(prefix, file.name);
    let whole = encode_utf8(prefix) + encode_utf8(file.name);
    assert(whole.take(encode_utf8(prefix).len() as int) =~= encode_utf8(prefix));
}

} // verus!
