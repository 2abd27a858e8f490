//! Holding a snapshot against what is seen later.
use vstd::prelude::*;
use vstd::slice::*;
use vstd::string::*;
use vstd::utf8::*;

use crate::bytes::{same_text, sat_add, saturating_product, saturating_sum};
use crate::digest::{hex_sha256, sha256_hex};
use crate::error::{GfError, storage_err};
use crate::index_format::{
    Manifest, ManifestView, MAX_MANIFEST_BYTES, run_views, RunRecord, RunView,
};
use crate::probing::UuidIndexKind;
use crate::runs::{OpenRun, run_models, RunModel};
use crate::snapshot::{
    authenticated_bytes, AuthenticatedUuidIndexSnapshot, copy_bytes, FileHandle, FileIdentity,
    find_first, find_object, first_at, holds_opened, identity_length, index_of, IndexSight,
    lemma_first_bounds, lemma_opened_push, make_index, NamedFile, object_at, ObjectSource,
    open_run, opened_contents, opened_files, opened_run, opened_runs, OpenedModel, OpenedRuns,
    opening, RunFiles, SeenFile, SeenObject, SnapshotModel, source_models, SourceModel,
    surrogate_length,
};
use crate::topology_delta::sum_block_bytes;

verus! {

/// Place of the source of a name that was recorded last.
pub open spec fn source_at(sources: Seq<SourceModel>, name: Seq<char>) -> Option<int>
    decreases sources.len(),
{
    if sources.len() == 0 {
        None
    } else if sources.last().name == name {
        Some(sources.len() - 1)
    } else {
        source_at(sources.drop_last(), name)
    }
}

fn find_source(sources: &Vec<ObjectSource>, name: &str) -> (found: Option<usize>)
    ensures
        match found {
            Some(i) => i < sources@.len() && source_at(source_models(sources@), name@) == Some(
                i as int,
            ),
            None => source_at(source_models(sources@), name@) is None,
        },
{
    let ghost all = source_models(sources@);
    let mut i: usize = sources.len();
    assert(all.take(i as int) =~= all);
    while i > 0
        invariant
            i <= sources@.len(),
            all == source_models(sources@),
            source_at(all, name@) == source_at(all.take(i as int), name@),
        decreases i,
    {
        assert(all.take(i as int).drop_last() =~= all.take(i - 1));
        assert(all.take(i as int).last() == sources@[i - 1]@);
        if same_text(sources[i - 1].name.as_str(), name) {
            return Some(i - 1);
        }
        i = i - 1;
    }
    None
}

/// Why the body of a manifest is not the one that was remembered.
pub open spec fn body_fault(
    file: SeenFile,
    parsed: Option<Manifest>,
    sha256: Seq<char>,
    manifest: ManifestView,
    changed: Seq<char>,
) -> Option<Seq<char>> {
    if file.bytes@.len() > MAX_MANIFEST_BYTES {
        Some("recovery control record exceeds size limit"@)
    } else if sha256_hex(file.bytes@) != sha256 {
        Some(changed)
    } else if parsed is None {
        Some("UUID manifest is malformed"@)
    } else if parsed->0@ != manifest {
        Some(changed)
    } else {
        None
    }
}

fn check_body(
    file: &SeenFile,
    parsed: &Option<Manifest>,
    sha256: &String,
    manifest: &Manifest,
    changed: &str,
) -> (checked: Result<(), GfError>)
    ensures
        ({
            let fault = body_fault(*file, *parsed, sha256@, manifest@, changed@);
            match checked {
                Ok(()) => fault is None,
                Err(error) => fault is Some && error.is_storage(fault->0),
            }
        }),
{
    if file.bytes.len() as u64 > MAX_MANIFEST_BYTES {
        return Err(storage_err("recovery control record exceeds size limit"));
    }
    if hex_sha256(file.bytes.as_slice()) != *sha256 {
        return Err(storage_err(changed));
    }
    match parsed {
        None => Err(storage_err("UUID manifest is malformed")),
        Some(parsed) => if parsed.same(manifest) {
            Ok(())
        } else {
            Err(storage_err(changed))
        },
    }
}

/// Why a file of the index root is not the one that was remembered.
pub open spec fn file_change(files: Seq<NamedFile>, name: Seq<char>, identity: FileIdentity) -> Option<
    Seq<char>,
> {
    match first_at(files, name) {
        None => Some("UUID index file is absent"@),
        Some(i) => if files[i].file.identity != identity || !files[i].file.links_safe {
            Some("UUID retained run identity changed"@)
        } else {
            None
        },
    }
}

/// Why an object of the store is not the one that was remembered.
pub open spec fn object_change(
    sources: Seq<SourceModel>,
    objects: Seq<SeenObject>,
    name: Seq<char>,
    identity: FileIdentity,
    absent: Seq<char>,
    changed: Seq<char>,
) -> Option<Seq<char>> {
    match source_at(sources, name) {
        None => Some(absent),
        Some(i) => match object_at(objects, sources[i].sha256, sources[i].length) {
            None => Some("graph object is absent"@),
            Some(k) => if objects[k].file.identity != identity {
                Some(changed)
            } else {
                None
            },
        },
    }
}

/// Why a file of a run is not the one that was remembered.
pub open spec fn run_file_change(
    sources: Option<Seq<SourceModel>>,
    sight: IndexSight,
    name: Seq<char>,
    identity: FileIdentity,
) -> Option<Seq<char>> {
    match sources {
        None => file_change(sight.files@, name, identity),
        Some(sources) => object_change(
            sources,
            sight.objects@,
            name,
            identity,
            "compact UUID run authority is absent"@,
            "compact UUID run identity changed"@,
        ),
    }
}

/// Why the files of some runs are not the ones that were remembered.
pub open spec fn runs_change(
    sources: Option<Seq<SourceModel>>,
    sight: IndexSight,
    runs: Seq<RunModel>,
    files: Seq<RunFiles>,
) -> Option<Seq<char>>
    decreases runs.len(),
{
    if runs.len() == 0 {
        None
    } else {
        let last = runs.len() - 1;
        match runs_change(sources, sight, runs.drop_last(), files) {
            Some(text) => Some(text),
            None => match run_file_change(
                sources,
                sight,
                runs[last].run.identities.name,
                files[last].identities,
            ) {
                Some(text) => Some(text),
                None => run_file_change(
                    sources,
                    sight,
                    runs[last].run.node_surrogates.name,
                    files[last].node_surrogates,
                ),
            },
        }
    }
}

proof fn lemma_change_found(
    sources: Option<Seq<SourceModel>>,
    sight: IndexSight,
    runs: Seq<RunModel>,
    files: Seq<RunFiles>,
    n: int,
)
    requires
        0 <= n <= runs.len(),
        runs_change(sources, sight, runs.take(n), files) is Some,
    ensures
        runs_change(sources, sight, runs, files) == runs_change(
            sources,
            sight,
            runs.take(n),
            files,
        ),
    decreases runs.len(),
{
    if n < runs.len() {
        assert(runs.drop_last().take(n) =~= runs.take(n));
        lemma_change_found(sources, sight, runs.drop_last(), files, n);
    } else {
        assert(runs.take(n) =~= runs);
    }
}

/// Why the manifest object is not the one that was remembered.
pub open spec fn leased_manifest_change(
    snapshot: SnapshotModel,
    sources: Seq<SourceModel>,
    sight: IndexSight,
) -> Option<Seq<char>> {
    match object_change(
        sources,
        sight.objects@,
        snapshot.manifest_name,
        snapshot.manifest_identity,
        "compact UUID manifest authority is absent"@,
        "compact UUID manifest identity changed"@,
    ) {
        Some(text) => Some(text),
        None => {
            let source = sources[source_at(sources, snapshot.manifest_name)->0];
            let at = object_at(sight.objects@, source.sha256, source.length)->0;
            body_fault(
                sight.objects@[at].file,
                sight.parsed,
                snapshot.manifest_sha256,
                snapshot.index.manifest(),
                "compact UUID manifest authentication changed"@,
            )
        },
    }
}

/// Why the manifest file is not the one that was remembered.
pub open spec fn owned_manifest_change(snapshot: SnapshotModel, sight: IndexSight) -> Option<
    Seq<char>,
> {
    if sight.root != snapshot.root {
        Some("UUID index root identity changed"@)
    } else if !snapshot.manifest_held {
        Some("UUID manifest descriptor is suspended for publication"@)
    } else if sight.held_manifest.identity != snapshot.manifest_identity
        || sight.held_manifest.links != 1 || encode_utf8(snapshot.manifest_sha256).len() != 64 {
        Some("retained UUID manifest identity changed"@)
    } else if sight.manifest is None {
        Some("UUID manifest is absent"@)
    } else if sight.manifest->0.identity != snapshot.manifest_identity || sight.manifest->0.links
        != 1 {
        Some("UUID manifest identity changed"@)
    } else {
        body_fault(
            sight.manifest->0,
            sight.parsed,
            snapshot.manifest_sha256,
            snapshot.index.manifest(),
            "UUID manifest authentication changed"@,
        )
    }
}

/// Why a snapshot no longer holds, if it does not.
pub open spec fn change(snapshot: SnapshotModel, sight: IndexSight) -> Option<Seq<char>> {
    if sight.graph_root != snapshot.graph_root {
        Some("UUID graph root identity changed"@)
    } else {
        let manifest = match snapshot.sources {
            Some(sources) => leased_manifest_change(snapshot, sources, sight),
            None => owned_manifest_change(snapshot, sight),
        };
        match manifest {
            Some(text) => Some(text),
            None => runs_change(
                snapshot.sources,
                sight,
                snapshot.index.runs,
                snapshot.files,
            ),
        }
    }
}

fn check_object(
    sources: &Vec<ObjectSource>,
    objects: &Vec<SeenObject>,
    name: &str,
    identity: FileIdentity,
    absent: &str,
    changed: &str,
) -> (checked: Result<usize, GfError>)
    ensures
        ({
            let models = source_models(sources@);
            let fault = object_change(models, objects@, name@, identity, absent@, changed@);
            match checked {
                Ok(k) => {
                    let source = models[source_at(models, name@)->0];
                    &&& fault is None
                    &&& k < objects@.len()
                    &&& object_at(objects@, source.sha256, source.length) == Some(k as int)
                },
                Err(error) => fault is Some && error.is_storage(fault->0),
            }
        }),
{
    let source: &ObjectSource = match find_source(sources, name) {
        Some(i) => &sources[i],
        None => {
            return Err(storage_err(absent));
        },
    };
    match find_object(objects, source.sha256.as_str(), source.length) {
        None => Err(storage_err("graph object is absent")),
        Some(k) => if objects[k].file.identity != identity {
            Err(storage_err(changed))
        } else {
            Ok(k)
        },
    }
}

fn check_run_file(
    sources: &Option<Vec<ObjectSource>>,
    sight: &IndexSight,
    name: &str,
    identity: FileIdentity,
    Ghost(models): Ghost<Option<Seq<SourceModel>>>,
) -> (checked: Result<(), GfError>)
    requires
        models == match *sources {
            Some(sources) => Some(source_models(sources@)),
            None => None,
        },
    ensures
        ({
            let fault = run_file_change(models, *sight, name@, identity);
            match checked {
                Ok(()) => fault is None,
                Err(error) => fault is Some && error.is_storage(fault->0),
            }
        }),
{
    match sources {
        Some(sources) => match check_object(
            sources,
            &sight.objects,
            name,
            identity,
            "compact UUID run authority is absent",
            "compact UUID run identity changed",
        ) {
            Ok(_) => Ok(()),
            Err(error) => Err(error),
        },
        None => match find_first(&sight.files, name) {
            None => Err(storage_err("UUID index file is absent")),
            Some(i) => if sight.files[i].file.identity != identity
                || !sight.files[i].file.links_safe {
                Err(storage_err("UUID retained run identity changed"))
            } else {
                Ok(())
            },
        },
    }
}

impl AuthenticatedUuidIndexSnapshot {
    fn check_runs(&self, sight: &IndexSight) -> (checked: Result<(), GfError>)
        requires
            self.well_formed(),
        ensures
            ({
                let fault = runs_change(self@.sources, *sight, self@.index.runs, self@.files);
                match checked {
                    Ok(()) => fault is None,
                    Err(error) => fault is Some && error.is_storage(fault->0),
                }
            }),
    {
        let ghost sources = self@.sources;
        let ghost runs = self@.index.runs;
        let ghost files = self@.files;
        let mut i: usize = 0;
        while i < self.index.runs.len()
            invariant
                i <= self.index.runs@.len(),
                self.index.runs@.len() == self.files@.len(),
                sources == self@.sources,
                runs == self@.index.runs,
                files == self.files@,
                runs_change(sources, *sight, runs.take(i as int), files) is None,
            decreases self.index.runs.len() - i,
        {
            assert(runs.take(i + 1).drop_last() =~= runs.take(i as int));
            assert(runs[i as int] == self.index.runs@[i as int]@);
            match check_run_file(
                &self.sources,
                sight,
                self.index.runs[i].descriptor.identities.name.as_str(),
                self.files[i].identities,
                Ghost(sources),
            ) {
                Ok(()) => {},
                Err(error) => {
                    proof {
                        lemma_change_found(sources, *sight, runs, files, i + 1);
                    }
                    return Err(error);
                },
            }
            match check_run_file(
                &self.sources,
                sight,
                self.index.runs[i].descriptor.node_surrogates.name.as_str(),
                self.files[i].node_surrogates,
                Ghost(sources),
            ) {
                Ok(()) => {},
                Err(error) => {
                    proof {
                        lemma_change_found(sources, *sight, runs, files, i + 1);
                    }
                    return Err(error);
                },
            }
            i = i + 1;
        }
        assert(runs.take(i as int) =~= runs);
        Ok(())
    }

    fn check_owned_manifest(&self, sight: &IndexSight) -> (checked: Result<(), GfError>)
        ensures
            ({
                let fault = owned_manifest_change(self@, *sight);
                match checked {
                    Ok(()) => fault is None,
                    Err(error) => fault is Some && error.is_storage(fault->0),
                }
            }),
    {
        if sight.root != self.root {
            return Err(storage_err("UUID index root identity changed"));
        }
        if !self.manifest_held {
            return Err(storage_err("UUID manifest descriptor is suspended for publication"));
        }
        if sight.held_manifest.identity != self.manifest_identity || sight.held_manifest.links != 1
            || self.manifest_sha256.as_str().as_bytes().len() != 64 {
            return Err(storage_err("retained UUID manifest identity changed"));
        }
        match &sight.manifest {
            None => Err(storage_err("UUID manifest is absent")),
            Some(file) => {
                if file.identity != self.manifest_identity || file.links != 1 {
                    return Err(storage_err("UUID manifest identity changed"));
                }
                check_body(
                    file,
                    &sight.parsed,
                    &self.manifest_sha256,
                    &self.index.manifest(),
                    "UUID manifest authentication changed",
                )
            },
        }
    }

    /// Check that the index is still the one that was opened.
    pub fn revalidate(&self, sight: &IndexSight) -> (checked: Result<(), GfError>)
        requires
            self.well_formed(),
        ensures
            ({
                let fault = change(self@, *sight);
                match checked {
                    Ok(()) => fault is None,
                    Err(error) => fault is Some && error.is_storage(fault->0),
                }
            }),
    {
        if sight.graph_root != self.graph_root {
            return Err(storage_err("UUID graph root identity changed"));
        }
        match &self.sources {
            None => {
                match self.check_owned_manifest(sight) {
                    Ok(()) => {},
                    Err(error) => {
                        return Err(error);
                    },
                }
            },
            Some(sources) => {
                let k: usize = match check_object(
                    sources,
                    &sight.objects,
                    self.manifest_name.as_str(),
                    self.manifest_identity,
                    "compact UUID manifest authority is absent",
                    "compact UUID manifest identity changed",
                ) {
                    Ok(k) => k,
                    Err(error) => {
                        return Err(error);
                    },
                };
                match check_body(
                    &sight.objects[k].file,
                    &sight.parsed,
                    &self.manifest_sha256,
                    &self.index.manifest(),
                    "compact UUID manifest authentication changed",
                ) {
                    Ok(()) => {},
                    Err(error) => {
                        return Err(error);
                    },
                }
            },
        }
        self.check_runs(sight)
    }
}

/// What becomes of a snapshot whose suspended manifest is taken up again.
pub open spec fn restoring(snapshot: SnapshotModel, sight: IndexSight) -> (
    SnapshotModel,
    Option<Seq<char>>,
) {
    if snapshot.manifest_held {
        (snapshot, None)
    } else if sight.manifest is None {
        (snapshot, Some("UUID manifest is absent"@))
    } else if sight.manifest->0.identity != snapshot.manifest_identity || sight.manifest->0.links
        != 1 {
        (snapshot, Some("suspended UUID manifest identity changed"@))
    } else {
        let file = sight.manifest->0;
        match body_fault(
            file,
            sight.parsed,
            snapshot.manifest_sha256,
            snapshot.index.manifest(),
            "suspended UUID manifest authentication changed"@,
        ) {
            Some(text) => (snapshot, Some(text)),
            None => if snapshot.authenticated_bytes + file.bytes@.len() > u64::MAX {
                (snapshot, Some("UUID restoration byte count overflow"@))
            } else {
                let read = SnapshotModel {
                    authenticated_bytes: (snapshot.authenticated_bytes + file.bytes@.len()) as u64,
                    ..snapshot
                };
                if snapshot.authenticated_blocks == u64::MAX {
                    (read, Some("UUID restoration block count overflow"@))
                } else {
                    (
                        SnapshotModel {
                            authenticated_blocks: (snapshot.authenticated_blocks + 1) as u64,
                            manifest_held: true,
                            ..read
                        },
                        None,
                    )
                }
            },
        }
    }
}

/// Place of the run that a descriptor describes.
pub open spec fn retained_at(runs: Seq<RunModel>, run: RunView) -> Option<int>
    decreases runs.len(),
{
    if runs.len() == 0 {
        None
    } else {
        match retained_at(runs.drop_last(), run) {
            Some(i) => Some(i),
            None => if runs.last().run == run {
                Some(runs.len() - 1)
            } else {
                None
            },
        }
    }
}

proof fn lemma_retained_found(runs: Seq<RunModel>, run: RunView, n: int)
    requires
        0 <= n <= runs.len(),
        retained_at(runs.take(n), run) is Some,
    ensures
        retained_at(runs, run) == retained_at(runs.take(n), run),
    decreases runs.len(),
{
    if n < runs.len() {
        assert(runs.drop_last().take(n) =~= runs.take(n));
        lemma_retained_found(runs.drop_last(), run, n);
    } else {
        assert(runs.take(n) =~= runs);
    }
}

/// Runs of the next manifest: a retained run is kept, another one is opened.
/// With them come the bytes that opening authenticated.
pub open spec fn advanced_runs(
    snapshot: SnapshotModel,
    files: Seq<NamedFile>,
    runs: Seq<RunView>,
) -> Result<(Seq<OpenedModel>, u64), Seq<char>>
    decreases runs.len(),
{
    if runs.len() == 0 {
        Ok((Seq::empty(), 0))
    } else {
        match advanced_runs(snapshot, files, runs.drop_last()) {
            Err(text) => Err(text),
            Ok((opened, bytes)) => match retained_at(snapshot.index.runs, runs.last()) {
                Some(i) => Ok(
                    (
                        opened.push(
                            OpenedModel { run: snapshot.index.runs[i], files: snapshot.files[i] },
                        ),
                        bytes,
                    ),
                ),
                None => match opened_run(files, runs.last()) {
                    Err(text) => Err(text),
                    Ok(last) => Ok(
                        (
                            opened.push(last),
                            sat_add(
                                sat_add(bytes, identity_length(runs.last().identities)),
                                surrogate_length(runs.last().node_surrogates),
                            ),
                        ),
                    ),
                },
            },
        }
    }
}

proof fn lemma_advance_fails(
    snapshot: SnapshotModel,
    files: Seq<NamedFile>,
    runs: Seq<RunView>,
    n: int,
)
    requires
        0 <= n <= runs.len(),
        advanced_runs(snapshot, files, runs.take(n)) is Err,
    ensures
        advanced_runs(snapshot, files, runs) == advanced_runs(snapshot, files, runs.take(n)),
    decreases runs.len(),
{
    if n < runs.len() {
        assert(runs.drop_last().take(n) =~= runs.take(n));
        lemma_advance_fails(snapshot, files, runs.drop_last(), n);
    } else {
        assert(runs.take(n) =~= runs);
    }
}

/// What becomes of a snapshot that follows a published manifest, and the
/// bytes that were authenticated, or why it cannot follow.
pub open spec fn advancing(
    snapshot: SnapshotModel,
    manifest: ManifestView,
    encoded: Seq<u8>,
    sight: IndexSight,
) -> Result<(SnapshotModel, u64), Seq<char>> {
    if sight.manifest is None {
        Err("UUID manifest is absent"@)
    } else if sight.manifest->0.bytes@.len() > MAX_MANIFEST_BYTES {
        Err("recovery control record exceeds size limit"@)
    } else if sha256_hex(sight.manifest->0.bytes@) != sha256_hex(encoded) {
        Err("committed UUID manifest differs from plan"@)
    } else {
        let file = sight.manifest->0;
        match advanced_runs(snapshot, sight.files@, manifest.runs) {
            Err(text) => Err(text),
            Ok((opened, bytes)) => Ok(
                (
                    SnapshotModel {
                        manifest_identity: file.identity,
                        manifest_sha256: sha256_hex(file.bytes@),
                        manifest_bytes: file.bytes@.len() as u64,
                        manifest_held: true,
                        index: index_of(manifest, opened_contents(opened)),
                        files: opened_files(opened),
                        authenticated_bytes: 0,
                        authenticated_blocks: 0,
                        ..snapshot
                    },
                    bytes,
                ),
            ),
        }
    }
}

impl AuthenticatedUuidIndexSnapshot {
    /// Topology generation of the snapshot.
    pub fn topology_generation(&self) -> (generation: u64)
        ensures
            generation == self@.index.current_generation,
    {
        self.index.topology_generation()
    }

    /// Live identities of a domain.
    pub fn count(&self, kind: UuidIndexKind) -> (count: u64)
        ensures
            count == match kind {
                UuidIndexKind::Node => self@.index.live_node_count,
                UuidIndexKind::Edge => self@.index.live_edge_count,
            },
    {
        self.index.count(kind)
    }

    /// Digest of the manifest.
    pub fn manifest_sha256(&self) -> (sha256: &str)
        ensures
            sha256@ == self@.manifest_sha256,
    {
        self.manifest_sha256.as_str()
    }

    /// Take the bytes and blocks that were authenticated since they were last
    /// taken.
    pub fn take_authentication_work(&mut self) -> (work: (u64, u64))
        ensures
            work == (old(self)@.authenticated_bytes, old(self)@.authenticated_blocks),
            final(self)@ == (SnapshotModel {
                authenticated_bytes: 0,
                authenticated_blocks: 0,
                ..old(self)@
            }),
    {
        let work: (u64, u64) = (self.authenticated_bytes, self.authenticated_blocks);
        self.authenticated_bytes = 0;
        self.authenticated_blocks = 0;
        work
    }

    /// Let go of the manifest descriptor, so that a publication can replace
    /// the manifest. A compact index has nothing to let go of.
    pub fn suspend_owned_manifest(&mut self)
        ensures
            final(self)@ == (if old(self)@.sources is None {
                SnapshotModel { manifest_held: false, ..old(self)@ }
            } else {
                old(self)@
            }),
    {
        if self.sources.is_none() {
            self.manifest_held = false;
        }
    }

    /// Take up a suspended manifest again, if it is still the same.
    pub fn restore_owned_manifest(&mut self, sight: &IndexSight) -> (restored: Result<(), GfError>)
        ensures
            final(self)@ == restoring(old(self)@, *sight).0,
            match restored {
                Ok(()) => restoring(old(self)@, *sight).1 is None,
                Err(error) => restoring(old(self)@, *sight).1 is Some && error.is_storage(
                    restoring(old(self)@, *sight).1->0,
                ),
            },
    {
        if self.manifest_held {
            return Ok(());
        }
        let file: &SeenFile = match &sight.manifest {
            Some(file) => file,
            None => {
                return Err(storage_err("UUID manifest is absent"));
            },
        };
        if file.identity != self.manifest_identity || file.links != 1 {
            return Err(storage_err("suspended UUID manifest identity changed"));
        }
        match check_body(
            file,
            &sight.parsed,
            &self.manifest_sha256,
            &self.index.manifest(),
            "suspended UUID manifest authentication changed",
        ) {
            Ok(()) => {},
            Err(error) => {
                return Err(error);
            },
        }
        match self.authenticated_bytes.checked_add(file.bytes.len() as u64) {
            Some(bytes) => {
                self.authenticated_bytes = bytes;
            },
            None => {
                return Err(storage_err("UUID restoration byte count overflow"));
            },
        }
        match self.authenticated_blocks.checked_add(1) {
            Some(blocks) => {
                self.authenticated_blocks = blocks;
            },
            None => {
                return Err(storage_err("UUID restoration block count overflow"));
            },
        }
        self.manifest_held = true;
        Ok(())
    }

    fn find_retained(&self, run: &RunRecord) -> (found: Option<usize>)
        ensures
            match found {
                Some(i) => i < self.index.runs@.len() && retained_at(self@.index.runs, run@)
                    == Some(i as int) && self@.index.runs[i as int].run == run@,
                None => retained_at(self@.index.runs, run@) is None,
            },
    {
        let ghost runs = self@.index.runs;
        let mut i: usize = 0;
        while i < self.index.runs.len()
            invariant
                i <= self.index.runs@.len(),
                runs == self@.index.runs,
                retained_at(runs.take(i as int), run@) is None,
            decreases self.index.runs.len() - i,
        {
            assert(runs.take(i + 1).drop_last() =~= runs.take(i as int));
            assert(runs.take(i + 1).last() == self.index.runs@[i as int]@);
            if self.index.runs[i].descriptor.same(run) {
                proof {
                    lemma_retained_found(runs, run@, i + 1);
                }
                return Some(i);
            }
            i = i + 1;
        }
        assert(runs.take(i as int) =~= runs);
        None
    }

    fn advance_runs(&self, files: &Vec<NamedFile>, runs: &Vec<RunRecord>) -> (advanced: Result<
        (OpenedRuns, u64),
        GfError,
    >)
        requires
            self.well_formed(),
        ensures
            ({
                let outcome = advanced_runs(self@, files@, run_views(runs@));
                match advanced {
                    Ok((opened, bytes)) => outcome is Ok && holds_opened(
                        opened,
                        (outcome->Ok_0).0,
                    ) && bytes == (outcome->Ok_0).1,
                    Err(error) => outcome is Err && error.is_storage(outcome->Err_0),
                }
            }),
    {
        let ghost all = run_views(runs@);
        let ghost model = self@;
        let mut opened = OpenedRuns { runs: Vec::new(), files: Vec::new() };
        let mut bytes: u64 = 0;
        let mut i: usize = 0;
        assert(run_models(opened.runs@) =~= opened_contents(Seq::<OpenedModel>::empty()));
        assert(opened.files@ =~= opened_files(Seq::<OpenedModel>::empty()));
        while i < runs.len()
            invariant
                i <= runs@.len(),
                self.well_formed(),
                all == run_views(runs@),
                model == self@,
                advanced_runs(model, files@, all.take(i as int)) is Ok,
                holds_opened(opened, (advanced_runs(model, files@, all.take(i as int))->Ok_0).0),
                bytes == (advanced_runs(model, files@, all.take(i as int))->Ok_0).1,
            decreases runs.len() - i,
        {
            assert(all.take(i + 1).drop_last() =~= all.take(i as int));
            assert(all.take(i + 1).last() == runs@[i as int]@);
            let ghost before = (advanced_runs(model, files@, all.take(i as int))->Ok_0).0;
            let ghost held = opened.runs@;
            match self.find_retained(&runs[i]) {
                Some(k) => {
                    let run = OpenRun {
                        descriptor: runs[i].duplicate(),
                        identities: copy_bytes(&self.index.runs[k].identities),
                        node_surrogates: copy_bytes(&self.index.runs[k].node_surrogates),
                    };
                    proof {
                        assert(model.index.runs[k as int] == self.index.runs@[k as int]@);
                        assert(run@ == model.index.runs[k as int]);
                        lemma_opened_push(
                            before,
                            OpenedModel { run: run@, files: model.files[k as int] },
                        );
                        assert(run_models(held.push(run)) =~= run_models(held).push(run@));
                    }
                    opened.runs.push(run);
                    opened.files.push(self.files[k]);
                },
                None => match open_run(files, &runs[i]) {
                    Ok(run) => {
                        proof {
                            lemma_opened_push(before, run@);
                            assert(run_models(held.push(run.run)) =~= run_models(held).push(
                                run.run@,
                            ));
                        }
                        bytes = saturating_sum(bytes, sum_block_bytes(0, &runs[i].identities));
                        bytes = saturating_sum(
                            bytes,
                            saturating_product(runs[i].node_surrogates.count, 24),
                        );
                        opened.runs.push(run.run);
                        opened.files.push(run.files);
                    },
                    Err(error) => {
                        proof {
                            lemma_advance_fails(model, files@, all, i + 1);
                        }
                        return Err(error);
                    },
                },
            }
            i = i + 1;
        }
        assert(all.take(i as int) =~= all);
        Ok((opened, bytes))
    }

    /// Follow a published manifest: keep the runs that it retains, open and
    /// authenticate the others. `encoded` is the manifest as it was planned
    /// to be written.
    pub fn advance_to(&mut self, manifest: &Manifest, encoded: &[u8], sight: &IndexSight) -> (bytes:
        Result<u64, GfError>)
        requires
            old(self).well_formed(),
        ensures
            final(self).well_formed(),
            ({
                let outcome = advancing(old(self)@, manifest@, encoded@, *sight);
                match bytes {
                    Ok(bytes) => outcome == Ok::<(SnapshotModel, u64), Seq<char>>(
                        (final(self)@, bytes),
                    ),
                    Err(error) => outcome is Err && error.is_storage(outcome->Err_0)
                        && final(self)@ == old(self)@,
                }
            }),
    {
        let file: &SeenFile = match &sight.manifest {
            Some(file) => file,
            None => {
                return Err(storage_err("UUID manifest is absent"));
            },
        };
        if file.bytes.len() as u64 > MAX_MANIFEST_BYTES {
            return Err(storage_err("recovery control record exceeds size limit"));
        }
        let sha256: String = hex_sha256(file.bytes.as_slice());
        if sha256 != hex_sha256(encoded) {
            return Err(storage_err("committed UUID manifest differs from plan"));
        }
        let (opened, bytes): (OpenedRuns, u64) = match self.advance_runs(
            &sight.files,
            &manifest.runs,
        ) {
            Ok(advanced) => advanced,
            Err(error) => {
                return Err(error);
            },
        };
        self.manifest_identity = file.identity;
        self.manifest_sha256 = sha256;
        self.manifest_bytes = file.bytes.len() as u64;
        self.manifest_held = true;
        self.index = make_index(manifest, opened.runs);
        self.files = opened.files;
        self.authenticated_bytes = 0;
        self.authenticated_blocks = 0;
        Ok(bytes)
    }
}

proof fn lemma_opened_run_unchanged(sight: IndexSight, runs: Seq<RunView>)
    requires
        opened_runs(sight.files@, runs) is Ok,
        forall|i: int| 0 <= i < sight.files@.len() ==> (#[trigger] sight.files@[i]).file.links_safe,
    ensures
        ({
            let opened = opened_runs(sight.files@, runs)->Ok_0;
            runs_change(None, sight, opened_contents(opened), opened_files(opened)) is None
        }),
    decreases runs.len(),
{
    if runs.len() > 0 {
        lemma_opened_run_unchanged(sight, runs.drop_last());
        let before = opened_runs(sight.files@, runs.drop_last())->Ok_0;
        let last = opened_run(sight.files@, runs.last())->Ok_0;
        let opened = before.push(last);
        lemma_opened_push(before, last);
        assert(opened_contents(opened).drop_last() =~= opened_contents(before));
        lemma_first_bounds(sight.files@, runs.last().identities.name);
        lemma_first_bounds(sight.files@, runs.last().node_surrogates.name);
        lemma_change_prefix(
            None,
            sight,
            opened_contents(before),
            opened_files(before),
            opened_files(opened),
        );
    }
}

proof fn lemma_change_prefix(
    sources: Option<Seq<SourceModel>>,
    sight: IndexSight,
    runs: Seq<RunModel>,
    files: Seq<RunFiles>,
    longer: Seq<RunFiles>,
)
    requires
        runs.len() <= files.len() <= longer.len(),
        forall|i: int| 0 <= i < runs.len() ==> #[trigger] files[i] == longer[i],
    ensures
        runs_change(sources, sight, runs, files) == runs_change(sources, sight, runs, longer),
    decreases runs.len(),
{
    if runs.len() > 0 {
        lemma_change_prefix(sources, sight, runs.drop_last(), files, longer);
        assert(files[runs.len() - 1] == longer[runs.len() - 1]);
    }
}

/// A snapshot of the index root holds against the very sight that it was
/// opened from, where the manifest has one link and the descriptor is open on
/// it, and every file has only links that it may have.
pub proof fn lemma_opened_unchanged(graph_root_path: Seq<char>, sight: IndexSight, generation: u64)
    requires
        opening(graph_root_path, sight, generation) is Ok,
        sight.manifest->0.links == 1,
        sight.held_manifest == (FileHandle { identity: sight.manifest->0.identity, links: 1 }),
        forall|i: int| 0 <= i < sight.files@.len() ==> (#[trigger] sight.files@[i]).file.links_safe,
        encode_utf8(sha256_hex(sight.manifest->0.bytes@)).len() == 64,
    ensures
        change(opening(graph_root_path, sight, generation)->Ok_0, sight) is None,
{
    let snapshot = opening(graph_root_path, sight, generation)->Ok_0;
    let manifest = sight.parsed->0@;
    let opened = opened_runs(sight.files@, manifest.runs)->Ok_0;
    lemma_opened_descriptors(sight.files@, manifest.runs);
    assert(snapshot.index.manifest().runs =~= manifest.runs);
    lemma_opened_run_unchanged(sight, manifest.runs);
}

proof fn lemma_opened_descriptors(files: Seq<NamedFile>, runs: Seq<RunView>)
    requires
        opened_runs(files, runs) is Ok,
    ensures
        opened_runs(files, runs)->Ok_0.len() == runs.len(),
        forall|i: int|
            0 <= i < runs.len() ==> (#[trigger] opened_runs(files, runs)->Ok_0[i]).run.run
                == runs[i],
    decreases runs.len(),
{
    if runs.len() > 0 {
        lemma_opened_descriptors(files, runs.drop_last());
    }
}

/// A manifest that was let go of and taken up again while it stayed the same
/// leaves the snapshot as it was, but for the work of reading it.
pub proof fn lemma_suspended_restored(snapshot: SnapshotModel, sight: IndexSight)
    requires
        snapshot.manifest_held,
        sight.manifest is Some,
        sight.manifest->0.identity == snapshot.manifest_identity,
        sight.manifest->0.links == 1,
        body_fault(
            sight.manifest->0,
            sight.parsed,
            snapshot.manifest_sha256,
            snapshot.index.manifest(),
            "suspended UUID manifest authentication changed"@,
        ) is None,
        snapshot.authenticated_bytes + sight.manifest->0.bytes@.len() <= u64::MAX,
        snapshot.authenticated_blocks < u64::MAX,
    ensures
        restoring(SnapshotModel { manifest_held: false, ..snapshot }, sight) == (
            SnapshotModel {
                authenticated_bytes: (snapshot.authenticated_bytes
                    + sight.manifest->0.bytes@.len()) as u64,
                authenticated_blocks: (snapshot.authenticated_blocks + 1) as u64,
                ..snapshot
            },
            None::<Seq<char>>,
        ),
{
}

/// A snapshot that follows a manifest keeps every run that both manifests
/// describe, with the identities of its files, and authenticates nothing for
/// it.
pub proof fn lemma_advance_retains(snapshot: SnapshotModel, files: Seq<NamedFile>, runs: Seq<RunView>)
    requires
        forall|i: int|
            0 <= i < runs.len() ==> retained_at(snapshot.index.runs, #[trigger] runs[i]) is Some,
    ensures
        advanced_runs(snapshot, files, runs) is Ok,
        (advanced_runs(snapshot, files, runs)->Ok_0).1 == 0,
        (advanced_runs(snapshot, files, runs)->Ok_0).0.len() == runs.len(),
        forall|i: int|
            0 <= i < runs.len() ==> (#[trigger] (advanced_runs(
                snapshot,
                files,
                runs,
            )->Ok_0).0[i]).run == snapshot.index.runs[retained_at(
                snapshot.index.runs,
                runs[i],
            )->0],
    decreases runs.len(),
{
    if runs.len() > 0 {
        let front = runs.drop_last();
        assert forall|i: int| 0 <= i < front.len() implies retained_at(
            snapshot.index.runs,
            #[trigger] front[i],
        ) is Some by {
            assert(front[i] == runs[i]);
        }
        lemma_advance_retains(snapshot, files, front);
        assert(retained_at(snapshot.index.runs, runs[runs.len() - 1]) is Some);
    }
}

} // verus!
