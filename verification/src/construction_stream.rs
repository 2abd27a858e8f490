//! Reading the live identities of a pinned index, each payload byte once.
use vstd::prelude::*;
use vstd::slice::*;
use vstd::string::*;

use crate::digest::{hex_sha256, sha256_hex};
use crate::error::{GfError, storage_err};
use crate::framing::{Framed, scan};
use crate::identity_codec::Identity;
use crate::index_format::{
    authenticate_file, file_described, Manifest, ManifestView, MAX_MANIFEST_BYTES, run_views,
    RunRecord, RunView,
};
use crate::keyed::{has_key, is_overlay, Keyed, lemma_ordered_unique, merge_newest, ordered};
use crate::payload_stops::{explain_payload, payload_stop};
use crate::probing::UuidIndexKind;
use crate::records::NodeSurrogate;
use crate::snapshot::{
    authenticated_blocks, authenticated_bytes, FileIdentity, find_first, first_at, IndexSight,
    NamedFile, RunFiles, SeenFile, sum_authenticated,
};

verus! {

/// A live identity.
#[derive(Clone, Copy, Debug, PartialEq, Eq, Structural)]
pub struct ConstructionUuidIdentity {
    /// UUID.
    pub uuid: u128,
    /// Domain.
    pub kind: UuidIndexKind,
    /// Node surrogate; zero for an edge.
    pub surrogate: u64,
}

/// Work of reading a pinned index.
#[derive(Clone, Copy, Debug, PartialEq, Eq, Structural)]
pub struct UuidConstructionSnapshotWork {
    /// Bytes authenticated.
    pub authentication_bytes: u64,
    /// Blocks authenticated.
    pub authentication_blocks: u64,
    /// Live nodes.
    pub live_nodes: u64,
    /// Live edges.
    pub live_edges: u64,
    /// Largest surrogate of a live node.
    pub max_node_surrogate: u64,
}

/// A pinned index: its manifest and the identities of its files.
#[derive(Debug, PartialEq, Eq)]
pub struct UuidConstructionSnapshot {
    /// Identity of the index root.
    pub root: FileIdentity,
    /// Identity of the manifest.
    pub manifest_identity: FileIdentity,
    /// Digest of the manifest.
    pub manifest_sha256: String,
    /// Length of the manifest.
    pub manifest_bytes: u64,
    /// The manifest.
    pub manifest: Manifest,
    /// Identities of the run files, run by run.
    pub files: Vec<RunFiles>,
    /// Whether the payload was read.
    pub payload_consumed: bool,
}

/// Model of a [`UuidConstructionSnapshot`].
#[verifier::ext_equal]
pub struct PinModel {
    pub root: FileIdentity,
    pub manifest_identity: FileIdentity,
    pub manifest_sha256: Seq<char>,
    pub manifest_bytes: u64,
    pub manifest: ManifestView,
    pub files: Seq<RunFiles>,
    pub payload_consumed: bool,
}

impl View for UuidConstructionSnapshot {
    type V = PinModel;

    open spec fn view(&self) -> PinModel {
        PinModel {
            root: self.root,
            manifest_identity: self.manifest_identity,
            manifest_sha256: self.manifest_sha256@,
            manifest_bytes: self.manifest_bytes,
            manifest: self.manifest@,
            files: self.files@,
            payload_consumed: self.payload_consumed,
        }
    }
}

/// Why a pinned file is not the one that was pinned.
pub open spec fn pinned_file_change(
    files: Seq<NamedFile>,
    name: Seq<char>,
    identity: FileIdentity,
) -> Option<Seq<char>> {
    match first_at(files, name) {
        None => Some("UUID index file is absent"@),
        Some(i) => if files[i].file.identity != identity || files[i].file.links != 1 {
            Some("construction UUID run identity changed"@)
        } else {
            None
        },
    }
}

/// Why the pinned files of some runs are not the ones that were pinned.
pub open spec fn pinned_runs_change(
    seen: Seq<NamedFile>,
    runs: Seq<RunView>,
    files: Seq<RunFiles>,
) -> Option<Seq<char>>
    decreases runs.len(),
{
    if runs.len() == 0 {
        None
    } else {
        let last = runs.len() - 1;
        match pinned_runs_change(seen, runs.drop_last(), files) {
            Some(text) => Some(text),
            None => match pinned_file_change(
                seen,
                runs[last].identities.name,
                files[last].identities,
            ) {
                Some(text) => Some(text),
                None => pinned_file_change(
                    seen,
                    runs[last].node_surrogates.name,
                    files[last].node_surrogates,
                ),
            },
        }
    }
}

proof fn lemma_pin_change_found(
    seen: Seq<NamedFile>,
    runs: Seq<RunView>,
    files: Seq<RunFiles>,
    n: int,
)
    requires
        0 <= n <= runs.len(),
        pinned_runs_change(seen, runs.take(n), files) is Some,
    ensures
        pinned_runs_change(seen, runs, files) == pinned_runs_change(seen, runs.take(n), files),
    decreases runs.len(),
{
    if n < runs.len() {
        assert(runs.drop_last().take(n) =~= runs.take(n));
        lemma_pin_change_found(seen, runs.drop_last(), files, n);
    } else {
        assert(runs.take(n) =~= runs);
    }
}

/// Why a pinned index is not the one that was pinned, if it is not.
pub open spec fn pin_change(pin: PinModel, sight: IndexSight) -> Option<Seq<char>> {
    if sight.root != pin.root || sight.held_manifest.identity != pin.manifest_identity
        || sight.held_manifest.links != 1 {
        Some("construction UUID snapshot authority changed"@)
    } else if sight.manifest is None {
        Some("UUID manifest is absent"@)
    } else if sight.manifest->0.bytes@.len() > MAX_MANIFEST_BYTES {
        Some("recovery control record exceeds size limit"@)
    } else if sight.manifest->0.identity != pin.manifest_identity || sha256_hex(
        sight.manifest->0.bytes@,
    ) != pin.manifest_sha256 {
        Some("construction UUID manifest changed"@)
    } else if sight.parsed is None {
        Some("UUID manifest is malformed"@)
    } else if sight.parsed->0@ != pin.manifest {
        Some("construction UUID manifest changed"@)
    } else {
        pinned_runs_change(sight.files@, pin.manifest.runs, pin.files)
    }
}

fn check_pinned_file(files: &Vec<NamedFile>, name: &str, identity: FileIdentity) -> (checked: Result<
    (),
    GfError,
>)
    ensures
        ({
            let fault = pinned_file_change(files@, name@, identity);
            match checked {
                Ok(()) => fault is None,
                Err(error) => fault is Some && error.is_storage(fault->0),
            }
        }),
{
    match find_first(files, name) {
        None => Err(storage_err("UUID index file is absent")),
        Some(i) => if files[i].file.identity != identity || files[i].file.links != 1 {
            Err(storage_err("construction UUID run identity changed"))
        } else {
            Ok(())
        },
    }
}

/// Identity of a file that has one link, or why it cannot be pinned.
pub open spec fn pinned_file(files: Seq<NamedFile>, name: Seq<char>, linked: Seq<char>) -> Result<
    FileIdentity,
    Seq<char>,
> {
    match first_at(files, name) {
        None => Err("UUID index file is absent"@),
        Some(i) => if files[i].file.links != 1 {
            Err(linked)
        } else {
            Ok(files[i].file.identity)
        },
    }
}

/// Identities of the files of some runs, or why they cannot be pinned.
pub open spec fn pinned_files(files: Seq<NamedFile>, runs: Seq<RunView>) -> Result<
    Seq<RunFiles>,
    Seq<char>,
>
    decreases runs.len(),
{
    if runs.len() == 0 {
        Ok(Seq::empty())
    } else {
        match pinned_files(files, runs.drop_last()) {
            Err(text) => Err(text),
            Ok(pinned) => match pinned_file(
                files,
                runs.last().identities.name,
                "construction UUID identity run has extra links"@,
            ) {
                Err(text) => Err(text),
                Ok(identities) => match pinned_file(
                    files,
                    runs.last().node_surrogates.name,
                    "construction UUID surrogate run has extra links"@,
                ) {
                    Err(text) => Err(text),
                    Ok(node_surrogates) => Ok(
                        pinned.push(RunFiles { identities, node_surrogates }),
                    ),
                },
            },
        }
    }
}

proof fn lemma_pinning_fails(files: Seq<NamedFile>, runs: Seq<RunView>, n: int)
    requires
        0 <= n <= runs.len(),
        pinned_files(files, runs.take(n)) is Err,
    ensures
        pinned_files(files, runs) == pinned_files(files, runs.take(n)),
    decreases runs.len(),
{
    if n < runs.len() {
        assert(runs.drop_last().take(n) =~= runs.take(n));
        lemma_pinning_fails(files, runs.drop_last(), n);
    } else {
        assert(runs.take(n) =~= runs);
    }
}

fn pin_file(files: &Vec<NamedFile>, name: &str, linked: &str) -> (pinned: Result<
    FileIdentity,
    GfError,
>)
    ensures
        ({
            let outcome = pinned_file(files@, name@, linked@);
            match pinned {
                Ok(identity) => outcome == Ok::<FileIdentity, Seq<char>>(identity),
                Err(error) => outcome is Err && error.is_storage(outcome->Err_0),
            }
        }),
{
    match find_first(files, name) {
        None => Err(storage_err("UUID index file is absent")),
        Some(i) => if files[i].file.links != 1 {
            Err(storage_err(linked))
        } else {
            Ok(files[i].file.identity)
        },
    }
}

fn pin_files(files: &Vec<NamedFile>, runs: &Vec<RunRecord>) -> (pinned: Result<
    Vec<RunFiles>,
    GfError,
>)
    ensures
        ({
            let outcome = pinned_files(files@, run_views(runs@));
            match pinned {
                Ok(pinned) => outcome == Ok::<Seq<RunFiles>, Seq<char>>(pinned@)
                    && pinned@.len() == runs@.len(),
                Err(error) => outcome is Err && error.is_storage(outcome->Err_0),
            }
        }),
{
    let ghost all = run_views(runs@);
    let mut pinned: Vec<RunFiles> = Vec::new();
    let mut i: usize = 0;
    assert(pinned@ =~= Seq::<RunFiles>::empty());
    while i < runs.len()
        invariant
            i <= runs@.len(),
            pinned@.len() == i,
            all == run_views(runs@),
            pinned_files(files@, all.take(i as int)) == Ok::<Seq<RunFiles>, Seq<char>>(pinned@),
        decreases runs.len() - i,
    {
        assert(all.take(i + 1).drop_last() =~= all.take(i as int));
        assert(all.take(i + 1).last() == runs@[i as int]@);
        let identities: FileIdentity = match pin_file(
            files,
            runs[i].identities.name.as_str(),
            "construction UUID identity run has extra links",
        ) {
            Ok(identity) => identity,
            Err(error) => {
                proof {
                    lemma_pinning_fails(files@, all, i + 1);
                }
                return Err(error);
            },
        };
        let node_surrogates: FileIdentity = match pin_file(
            files,
            runs[i].node_surrogates.name.as_str(),
            "construction UUID surrogate run has extra links",
        ) {
            Ok(identity) => identity,
            Err(error) => {
                proof {
                    lemma_pinning_fails(files@, all, i + 1);
                }
                return Err(error);
            },
        };
        pinned.push(RunFiles { identities, node_surrogates });
        i = i + 1;
    }
    assert(all.take(i as int) =~= all);
    Ok(pinned)
}

/// A pinned index, or why there is none.
pub open spec fn pinning(sight: IndexSight, generation: u64) -> Result<PinModel, Seq<char>> {
    let fault = crate::snapshot::manifest_fault(
        sight.manifest,
        sight.parsed,
        generation,
        "construction UUID snapshot generation is stale"@,
    );
    if fault is Some {
        Err(fault->0)
    } else {
        match pinned_files(sight.files@, sight.parsed->0@.runs) {
            Err(text) => Err(text),
            Ok(files) => {
                let pin = PinModel {
                    root: sight.root,
                    manifest_identity: sight.manifest->0.identity,
                    manifest_sha256: sha256_hex(sight.manifest->0.bytes@),
                    manifest_bytes: sight.manifest->0.bytes@.len() as u64,
                    manifest: sight.parsed->0@,
                    files,
                    payload_consumed: false,
                };
                match pin_change(pin, sight) {
                    Some(text) => Err(text),
                    None => Ok(pin),
                }
            },
        }
    }
}

/// The record of a UUID.
pub open spec fn record_of(records: Seq<Identity>, uuid: u128) -> Option<Identity>
    decreases records.len(),
{
    if records.len() == 0 {
        None
    } else if records.last().uuid == uuid {
        Some(records.last())
    } else {
        record_of(records.drop_last(), uuid)
    }
}

/// The record of a UUID in the newest of some runs that knows it, each run
/// given by its records.
pub open spec fn newest(runs: Seq<Seq<Identity>>, uuid: u128) -> Option<Identity>
    decreases runs.len(),
{
    if runs.len() == 0 {
        None
    } else {
        match record_of(runs.last(), uuid) {
            Some(record) => Some(record),
            None => newest(runs.drop_last(), uuid),
        }
    }
}

proof fn lemma_record_of(records: Seq<Identity>, uuid: u128)
    requires
        ordered(records),
    ensures
        match record_of(records, uuid) {
            Some(record) => records.contains(record) && record.uuid == uuid,
            None => !has_key(records, uuid as int),
        },
        forall|record: Identity|
            records.contains(record) && record.uuid == uuid ==> record_of(records, uuid) == Some(
                record,
            ),
    decreases records.len(),
{
    if records.len() > 0 {
        let front = records.drop_last();
        lemma_record_of(front, uuid);
        assert(records[records.len() - 1] == records.last());
        if records.last().uuid != uuid {
            if let Some(record) = record_of(front, uuid) {
                let i = choose|i: int| 0 <= i < front.len() && front[i] == record;
                assert(records[i] == record);
            } else {
                assert(!has_key(records, uuid as int)) by {
                    if has_key(records, uuid as int) {
                        let i = choose|i: int|
                            0 <= i < records.len() && (#[trigger] records[i]).key() == uuid as int;
                        assert(front[i].key() == uuid as int);
                    }
                }
            }
        }
        assert forall|record: Identity|
            records.contains(record) && record.uuid == uuid implies record_of(records, uuid)
            == Some(record) by {
            let i = choose|i: int| 0 <= i < records.len() && records[i] == record;
            if i < front.len() {
                assert(front[i] == record);
                assert(records[i].key() < records[records.len() - 1].key());
            }
        }
    }
}

/// Whether a sequence holds the newest record of every UUID that the runs
/// know, in UUID order.
pub open spec fn is_newest(merged: Seq<Identity>, runs: Seq<Seq<Identity>>) -> bool {
    ordered(merged) && forall|record: Identity| #[trigger]
        merged.contains(record) <==> newest(runs, record.uuid) == Some(record)
}

proof fn lemma_newest_merged(
    merged: Seq<Identity>,
    older: Seq<Identity>,
    newer: Seq<Identity>,
    runs: Seq<Seq<Identity>>,
)
    requires
        is_newest(older, runs),
        ordered(newer),
        ordered(merged),
        is_overlay(merged, older, newer),
    ensures
        is_newest(merged, runs.push(newer)),
{
    let all = runs.push(newer);
    assert(all.drop_last() =~= runs);
    assert forall|record: Identity| #[trigger]
        merged.contains(record) <==> newest(all, record.uuid) == Some(record) by {
        lemma_record_of(newer, record.uuid);
        assert(record.key() == record.uuid as int);
        if newer.contains(record) {
            assert(merged.contains(record));
        }
        if let Some(found) = record_of(newer, record.uuid) {
            let i = choose|i: int| 0 <= i < newer.len() && newer[i] == found;
            assert(newer[i].key() == record.key());
            assert(has_key(newer, record.key()));
        }
        assert(older.contains(record) <==> newest(runs, record.uuid) == Some(record));
    }
}

/// Whether the files of a run are what its descriptor says.
pub open spec fn payload_authentic(files: Seq<NamedFile>, run: RunView) -> bool {
    &&& first_at(files, run.identities.name) matches Some(i) && file_described::<Identity>(
        files[i].file.bytes@,
        run.identities,
    )
    &&& first_at(files, run.node_surrogates.name) matches Some(i) && file_described::<
        NodeSurrogate,
    >(files[i].file.bytes@, run.node_surrogates)
}

/// Whether all runs are what their descriptors say.
pub open spec fn payloads_authentic(files: Seq<NamedFile>, runs: Seq<RunView>) -> bool {
    forall|i: int| 0 <= i < runs.len() ==> payload_authentic(files, #[trigger] runs[i])
}

/// Identity records of a run.
pub open spec fn payload_records(files: Seq<NamedFile>, run: RunView) -> Seq<Identity> {
    scan::<Identity>(files[first_at(files, run.identities.name)->0].file.bytes@).0
}

/// Identity records of all runs.
pub open spec fn all_records(files: Seq<NamedFile>, runs: Seq<RunView>) -> Seq<Seq<Identity>> {
    Seq::new(runs.len(), |i: int| payload_records(files, runs[i]))
}

fn read_payload(files: &Vec<NamedFile>, run: &RunRecord) -> (records: Option<Vec<Identity>>)
    ensures
        match records {
            Some(records) => payload_authentic(files@, run@) && records@ == payload_records(
                files@,
                run@,
            ) && ordered(records@),
            None => !payload_authentic(files@, run@),
        },
{
    let i: usize = find_first(files, run.identities.name.as_str())?;
    let j: usize = find_first(files, run.node_surrogates.name.as_str())?;
    let described: bool = authenticate_file::<NodeSurrogate>(
        files[j].file.bytes.as_slice(),
        &run.node_surrogates,
        "construction UUID run authentication failed",
    ).is_ok();
    if !described {
        return None;
    }
    match authenticate_file::<Identity>(
        files[i].file.bytes.as_slice(),
        &run.identities,
        "construction UUID run authentication failed",
    ) {
        Ok(records) => Some(records),
        Err(_) => None,
    }
}

fn merge_payloads(files: &Vec<NamedFile>, runs: &Vec<RunRecord>) -> (merged: Result<
    Vec<Identity>,
    GfError,
>)
    ensures
        ({
            let views = run_views(runs@);
            match merged {
                Ok(merged) => payloads_authentic(files@, views) && is_newest(
                    merged@,
                    all_records(files@, views),
                ),
                Err(error) => !payloads_authentic(files@, views) && error.is_storage(
                    payload_stop(files@, views),
                ),
            }
        }),
{
    let ghost views = run_views(runs@);
    let ghost records = all_records(files@, views);
    let mut merged: Vec<Identity> = Vec::new();
    let mut i: usize = 0;
    while i < runs.len()
        invariant
            i <= runs@.len(),
            views == run_views(runs@),
            records == all_records(files@, views),
            forall|j: int| 0 <= j < i ==> payload_authentic(files@, #[trigger] views[j]),
            is_newest(merged@, records.take(i as int)),
        decreases runs.len() - i,
    {
        assert(views[i as int] == runs@[i as int]@);
        match read_payload(files, &runs[i]) {
            Some(newer) => {
                let next: Vec<Identity> = merge_newest(&merged, &newer);
                proof {
                    lemma_newest_merged(next@, merged@, newer@, records.take(i as int));
                    assert(records.take(i as int).push(newer@) =~= records.take(i + 1));
                }
                merged = next;
            },
            None => {
                return Err(explain_payload(files, runs));
            },
        }
        i = i + 1;
    }
    assert(records.take(i as int) =~= records);
    Ok(merged)
}

/// Live identities among some records.
pub open spec fn live_only(records: Seq<Identity>) -> Seq<ConstructionUuidIdentity>
    decreases records.len(),
{
    if records.len() == 0 {
        Seq::empty()
    } else if records.last().kind == 0 {
        live_only(records.drop_last()).push(
            ConstructionUuidIdentity {
                uuid: records.last().uuid,
                kind: UuidIndexKind::Node,
                surrogate: records.last().surrogate,
            },
        )
    } else if records.last().kind == 1 {
        live_only(records.drop_last()).push(
            ConstructionUuidIdentity {
                uuid: records.last().uuid,
                kind: UuidIndexKind::Edge,
                surrogate: records.last().surrogate,
            },
        )
    } else {
        live_only(records.drop_last())
    }
}

/// Whether a live node has no surrogate.
pub open spec fn lacks_surrogate(record: Identity) -> bool {
    record.kind == 0 && record.surrogate == 0
}

/// Largest surrogate of a live node.
pub open spec fn max_surrogate(records: Seq<Identity>) -> u64
    decreases records.len(),
{
    if records.len() == 0 {
        0
    } else {
        let before = max_surrogate(records.drop_last());
        if records.last().kind == 0 && records.last().surrogate > before {
            records.last().surrogate
        } else {
            before
        }
    }
}

/// What the newest records give: the live identities in UUID order and the
/// work, or why they do not fit the manifest.
pub open spec fn streamed(pin: PinModel, merged: Seq<Identity>) -> Result<
    (Seq<ConstructionUuidIdentity>, UuidConstructionSnapshotWork),
    Seq<char>,
> {
    let nodes = crate::probing::kind_count(merged, 0);
    let edges = crate::probing::kind_count(merged, 1);
    if exists|i: int| 0 <= i < merged.len() && lacks_surrogate(#[trigger] merged[i]) {
        Err("live node has zero surrogate"@)
    } else if nodes != pin.manifest.live_node_count || edges != pin.manifest.live_edge_count {
        Err("construction UUID live counts differ from manifest"@)
    } else {
        Ok(
            (
                live_only(merged),
                UuidConstructionSnapshotWork {
                    authentication_bytes: authenticated_bytes(
                        pin.manifest_bytes,
                        pin.manifest.runs,
                    ),
                    authentication_blocks: authenticated_blocks(1, pin.manifest.runs),
                    live_nodes: nodes as u64,
                    live_edges: edges as u64,
                    max_node_surrogate: max_surrogate(merged),
                },
            ),
        )
    }
}

/// Whether a stream is what the pinned files hold.
pub open spec fn streams(
    pin: PinModel,
    sight: IndexSight,
    identities: Seq<ConstructionUuidIdentity>,
    work: UuidConstructionSnapshotWork,
) -> bool {
    exists|merged: Seq<Identity>| #[trigger]
        is_newest(merged, all_records(sight.files@, pin.manifest.runs)) && streamed(pin, merged)
            == Ok::<(Seq<ConstructionUuidIdentity>, UuidConstructionSnapshotWork), Seq<char>>(
            (identities, work),
        )
}

/// Whether the newest records do not fit the manifest.
pub open spec fn stream_misfits(pin: PinModel, sight: IndexSight, error: GfError) -> bool {
    exists|merged: Seq<Identity>| #[trigger]
        is_newest(merged, all_records(sight.files@, pin.manifest.runs)) && (streamed(
            pin,
            merged,
        ) matches Err(text) && error.is_storage(text))
}

/// Whether the newest records fit the manifest.
pub open spec fn stream_fits(pin: PinModel, sight: IndexSight) -> bool {
    exists|merged: Seq<Identity>| #[trigger]
        is_newest(merged, all_records(sight.files@, pin.manifest.runs)) && streamed(
            pin,
            merged,
        ) is Ok
}

/// Whether a pinned index is read to its end, all of it being in order.
pub open spec fn consumed_by(pin: PinModel, sight: IndexSight) -> bool {
    &&& !pin.payload_consumed
    &&& pin_change(pin, sight) is None
    &&& payloads_authentic(sight.files@, pin.manifest.runs)
    &&& stream_fits(pin, sight)
}

/// The newest records are one sequence, so they either fit the manifest or
/// do not.
proof fn lemma_fits_or_not(pin: PinModel, sight: IndexSight, merged: Seq<Identity>)
    requires
        is_newest(merged, all_records(sight.files@, pin.manifest.runs)),
    ensures
        stream_fits(pin, sight) <==> streamed(pin, merged) is Ok,
{
    let runs = all_records(sight.files@, pin.manifest.runs);
    if stream_fits(pin, sight) {
        let other = choose|other: Seq<Identity>| #[trigger]
            is_newest(other, runs) && streamed(pin, other) is Ok;
        assert forall|record: Identity| merged.contains(record) == other.contains(record) by {
            assert(merged.contains(record) <==> newest(runs, record.uuid) == Some(record));
            assert(other.contains(record) <==> newest(runs, record.uuid) == Some(record));
        }
        lemma_ordered_unique(merged, other);
    }
}

/// Whether reading a pinned index fails with this error.
pub open spec fn stream_fails(
    pin: PinModel,
    before: IndexSight,
    after: IndexSight,
    error: GfError,
) -> bool {
    if pin.payload_consumed {
        error.is_storage("construction UUID payload was already consumed"@)
    } else if pin_change(pin, before) is Some {
        error.is_storage(pin_change(pin, before)->0)
    } else if !payloads_authentic(before.files@, pin.manifest.runs) {
        error.is_storage(payload_stop(before.files@, pin.manifest.runs))
    } else {
        ||| stream_misfits(pin, before, error)
        ||| stream_fits(pin, before) && pin_change(pin, after) is Some && error.is_storage(
            pin_change(pin, after)->0,
        )
    }
}

fn collect_live(merged: &Vec<Identity>) -> (live: Result<
    (Vec<ConstructionUuidIdentity>, u64),
    GfError,
>)
    ensures
        match live {
            Ok((live, most)) => {
                &&& forall|i: int| 0 <= i < merged@.len() ==> !lacks_surrogate(#[trigger] merged@[i])
                &&& live@ == live_only(merged@)
                &&& most == max_surrogate(merged@)
            },
            Err(error) => error.is_storage("live node has zero surrogate"@) && exists|i: int|
                0 <= i < merged@.len() && lacks_surrogate(#[trigger] merged@[i]),
        },
{
    let mut live: Vec<ConstructionUuidIdentity> = Vec::new();
    let mut most: u64 = 0;
    let mut i: usize = 0;
    assert(live@ =~= live_only(merged@.take(0)));
    while i < merged.len()
        invariant
            i <= merged@.len(),
            forall|j: int| 0 <= j < i ==> !lacks_surrogate(#[trigger] merged@[j]),
            live@ == live_only(merged@.take(i as int)),
            most == max_surrogate(merged@.take(i as int)),
        decreases merged.len() - i,
    {
        assert(merged@.take(i + 1).drop_last() =~= merged@.take(i as int));
        let record: Identity = merged[i];
        if record.kind == 0 {
            if record.surrogate == 0 {
                assert(lacks_surrogate(merged@[i as int]));
                return Err(storage_err("live node has zero surrogate"));
            }
            if record.surrogate > most {
                most = record.surrogate;
            }
            live.push(
                ConstructionUuidIdentity {
                    uuid: record.uuid,
                    kind: UuidIndexKind::Node,
                    surrogate: record.surrogate,
                },
            );
        } else if record.kind == 1 {
            live.push(
                ConstructionUuidIdentity {
                    uuid: record.uuid,
                    kind: UuidIndexKind::Edge,
                    surrogate: record.surrogate,
                },
            );
        }
        i = i + 1;
    }
    assert(merged@.take(i as int) =~= merged@);
    Ok((live, most))
}

/// Pin the manifest of a generation and every run file, without reading the
/// payload.
pub fn pin_uuid_construction_snapshot(sight: &IndexSight, generation: u64) -> (pin: Result<
    UuidConstructionSnapshot,
    GfError,
>)
    ensures
        match pin {
            Ok(pin) => pinning(*sight, generation) == Ok::<PinModel, Seq<char>>(pin@)
                && pin.well_formed(),
            Err(error) => pinning(*sight, generation) is Err && error.is_storage(
                pinning(*sight, generation)->Err_0,
            ),
        },
{
    let (file, manifest): (&SeenFile, &Manifest) = match crate::snapshot::check_manifest(
        sight.manifest.as_ref(),
        &sight.parsed,
        generation,
        "construction UUID snapshot generation is stale",
        Ghost(sight.manifest),
    ) {
        Ok(checked) => checked,
        Err(error) => {
            return Err(error);
        },
    };
    let files: Vec<RunFiles> = match pin_files(&sight.files, &manifest.runs) {
        Ok(files) => files,
        Err(error) => {
            return Err(error);
        },
    };
    let pin = UuidConstructionSnapshot {
        root: sight.root,
        manifest_identity: file.identity,
        manifest_sha256: hex_sha256(file.bytes.as_slice()),
        manifest_bytes: file.bytes.len() as u64,
        manifest: manifest.duplicate(),
        files,
        payload_consumed: false,
    };
    match pin.revalidate(sight) {
        Ok(()) => Ok(pin),
        Err(error) => Err(error),
    }
}

impl UuidConstructionSnapshot {
    /// Whether the identities of each run's files are known.
    pub open spec fn well_formed(&self) -> bool {
        self@.files.len() == self@.manifest.runs.len()
    }

    /// Check that the index is still the one that was pinned.
    pub fn revalidate(&self, sight: &IndexSight) -> (checked: Result<(), GfError>)
        requires
            self.well_formed(),
        ensures
            ({
                let fault = pin_change(self@, *sight);
                match checked {
                    Ok(()) => fault is None,
                    Err(error) => fault is Some && error.is_storage(fault->0),
                }
            }),
    {
        if sight.root != self.root || sight.held_manifest.identity != self.manifest_identity
            || sight.held_manifest.links != 1 {
            return Err(storage_err("construction UUID snapshot authority changed"));
        }
        let file: &SeenFile = match &sight.manifest {
            Some(file) => file,
            None => {
                return Err(storage_err("UUID manifest is absent"));
            },
        };
        if file.bytes.len() as u64 > MAX_MANIFEST_BYTES {
            return Err(storage_err("recovery control record exceeds size limit"));
        }
        if file.identity != self.manifest_identity || hex_sha256(file.bytes.as_slice())
            != self.manifest_sha256 {
            return Err(storage_err("construction UUID manifest changed"));
        }
        match &sight.parsed {
            None => {
                return Err(storage_err("UUID manifest is malformed"));
            },
            Some(parsed) => {
                if !parsed.same(&self.manifest) {
                    return Err(storage_err("construction UUID manifest changed"));
                }
            },
        }
        let ghost runs = self@.manifest.runs;
        let mut i: usize = 0;
        while i < self.manifest.runs.len()
            invariant
                i <= self.manifest.runs@.len(),
                self.well_formed(),
                runs == self@.manifest.runs,
                pin_change(self@, *sight) == pinned_runs_change(sight.files@, runs, self@.files),
                pinned_runs_change(sight.files@, runs.take(i as int), self@.files) is None,
            decreases self.manifest.runs.len() - i,
        {
            assert(runs.take(i + 1).drop_last() =~= runs.take(i as int));
            assert(runs[i as int] == self.manifest.runs@[i as int]@);
            match check_pinned_file(
                &sight.files,
                self.manifest.runs[i].identities.name.as_str(),
                self.files[i].identities,
            ) {
                Ok(()) => {},
                Err(error) => {
                    proof {
                        lemma_pin_change_found(sight.files@, runs, self@.files, i + 1);
                    }
                    return Err(error);
                },
            }
            match check_pinned_file(
                &sight.files,
                self.manifest.runs[i].node_surrogates.name.as_str(),
                self.files[i].node_surrogates,
            ) {
                Ok(()) => {},
                Err(error) => {
                    proof {
                        lemma_pin_change_found(sight.files@, runs, self@.files, i + 1);
                    }
                    return Err(error);
                },
            }
            i = i + 1;
        }
        assert(runs.take(i as int) =~= runs);
        Ok(())
    }

    /// Read the payload, once: authenticate every file and give the live
    /// identities in UUID order.
    pub fn stream_authenticated(&mut self, before: &IndexSight, after: &IndexSight) -> (stream: Result<
        (Vec<ConstructionUuidIdentity>, UuidConstructionSnapshotWork),
        GfError,
    >)
        requires
            old(self).well_formed(),
        ensures
            final(self).well_formed(),
            match stream {
                Ok((identities, work)) => {
                    &&& !old(self)@.payload_consumed
                    &&& pin_change(old(self)@, *before) is None
                    &&& payloads_authentic(before.files@, old(self)@.manifest.runs)
                    &&& streams(old(self)@, *before, identities@, work)
                    &&& pin_change(old(self)@, *after) is None
                    &&& final(self)@ == (PinModel { payload_consumed: true, ..old(self)@ })
                },
                Err(error) => {
                    &&& stream_fails(old(self)@, *before, *after, error)
                    &&& final(self)@.payload_consumed <==> {
                        ||| old(self)@.payload_consumed
                        ||| consumed_by(old(self)@, *before) && pin_change(old(self)@, *after)
                            is Some
                    }
                    &&& final(self)@ == (PinModel {
                        payload_consumed: final(self)@.payload_consumed,
                        ..old(self)@
                    })
                },
            },
    {
        if self.payload_consumed {
            return Err(storage_err("construction UUID payload was already consumed"));
        }
        match self.revalidate(before) {
            Ok(()) => {},
            Err(error) => {
                return Err(error);
            },
        }
        let merged: Vec<Identity> = match merge_payloads(&before.files, &self.manifest.runs) {
            Ok(merged) => merged,
            Err(error) => {
                return Err(error);
            },
        };
        proof {
            lemma_fits_or_not(self@, *before, merged@);
        }
        let (live, most): (Vec<ConstructionUuidIdentity>, u64) = match collect_live(&merged) {
            Ok(live) => live,
            Err(error) => {
                assert(stream_misfits(self@, *before, error));
                return Err(error);
            },
        };
        let counts: (u64, u64, u64, u64) = crate::probing::count_identity_states(&merged);
        if counts.0 != self.manifest.live_node_count || counts.1 != self.manifest.live_edge_count {
            let error: GfError = storage_err("construction UUID live counts differ from manifest");
            assert(stream_misfits(self@, *before, error));
            return Err(error);
        }
        let sums: (u64, u64) = sum_authenticated(self.manifest_bytes, 1, &self.manifest.runs);
        let work = UuidConstructionSnapshotWork {
            authentication_bytes: sums.0,
            authentication_blocks: sums.1,
            live_nodes: counts.0,
            live_edges: counts.1,
            max_node_surrogate: most,
        };
        assert(streams(self@, *before, live@, work));
        self.payload_consumed = true;
        assert(pin_change(self@, *after) == pin_change(old(self)@, *after));
        match self.revalidate(after) {
            Ok(()) => Ok((live, work)),
            Err(error) => Err(error),
        }
    }
}

} // verus!
