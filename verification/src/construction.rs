//! Construction of the next membership index: the shaped identity stream is
//! packed as a new run, and equal levels are carried into larger runs.
use vstd::multiset::Multiset;
use vstd::prelude::*;
use vstd::seq_lib::{lemma_multiset_commutative, to_multiset_build, to_multiset_len};
use vstd::slice::*;
use vstd::string::*;
use vstd::utf8::*;

use crate::bytes::{
    ascii, be_bytes, decimal, decimal_text, has_prefix, push_all, push_be, same_text, sat_add,
    sat_mul, saturating_product, saturating_sum, starts_with,
};
use crate::cancellation::{ask, goes_on, later_question};
use crate::construction_sources::{ask_merge, explain_merge, merge_asks, merge_text};
use crate::digest::{hex_sha256, sha256_hex};
use crate::error::{GfError, storage_err};
use crate::framing::{all_valid, decode, Framed, lemma_pack_scanned, lemma_scan_packed, pack, scan};
use crate::identity_codec::Identity;
use crate::index_format::{
    authenticate_file, BULK_IO_BYTES, file_described, FileRecord, FileView, FORMAT_VERSION, Manifest,
    ManifestView, RunRecord, RunView,
};
use crate::keyed::{
    is_union, lemma_multiset_contains, lemma_push_contains, merge_disjoint, ordered, share_key,
};
use crate::membership::{
    distinct_names, has_name, IndexModel, kept_names, lemma_keep_name, manifest_file_names,
    manifest_holds, manifest_names, UuidMembershipIndex,
};
use crate::ranked::{
    in_order, lemma_multiset_images, lemma_text_total, lemma_text_transitive, Ranked, sort_ranked,
    text_first, text_not_after,
};
use crate::records::{ConstructionRow, NodeSurrogate};
use crate::runs::{
    adjacent, describe_run, descriptors_valid, IndexFile, level_members, level_pair, members,
    newly_described, OpenRun, run_models, RunModel, take_pair, validate_run_descriptors,
    without_pair,
};

verus! {

/// Model of an [`IndexFile`].
#[verifier::ext_equal]
pub struct FileModel {
    pub file: FileView,
    pub bytes: Seq<u8>,
}

impl View for IndexFile {
    type V = FileModel;

    open spec fn view(&self) -> FileModel {
        FileModel { file: self.record@, bytes: self.bytes@ }
    }
}

/// Models of a sequence of index files.
pub open spec fn file_models(files: Seq<IndexFile>) -> Seq<FileModel> {
    Seq::new(files.len(), |i: int| files[i]@)
}

/// Whether one of the files has this name.
pub open spec fn names_file(files: Seq<FileModel>, name: Seq<char>) -> bool {
    exists|i: int| 0 <= i < files.len() && (#[trigger] files[i]).file.name == name
}

/// What a compaction works on: the runs, the files created so far, and the
/// payload bytes that were read from retained files.
#[verifier::ext_equal]
pub struct CarryModel {
    pub runs: Seq<RunModel>,
    pub created: Seq<FileModel>,
    pub retained_payload_bytes: u64,
}

/// What a compaction works on.
#[derive(Debug, PartialEq, Eq)]
pub struct CarryState {
    /// Runs, the carried ones last.
    pub runs: Vec<OpenRun>,
    /// Files created so far, in order.
    pub created: Vec<IndexFile>,
    /// Payload bytes read from retained files.
    pub retained_payload_bytes: u64,
}

impl View for CarryState {
    type V = CarryModel;

    open spec fn view(&self) -> CarryModel {
        CarryModel {
            runs: run_models(self.runs@),
            created: file_models(self.created@),
            retained_payload_bytes: self.retained_payload_bytes,
        }
    }
}

/// Payload bytes a retained source is charged with.
pub open spec fn payload_charge(file: FileView) -> u64 {
    if starts_with(encode_utf8(file.name), encode_utf8("identities-"@)) {
        sat_mul(file.count, 25)
    } else {
        sat_mul(file.count, 24)
    }
}

/// Retained payload bytes after one more merge source.
pub open spec fn charge(total: u64, file: FileView, created: Seq<FileModel>) -> u64 {
    if names_file(created, file.name) {
        total
    } else {
        sat_add(total, payload_charge(file))
    }
}

/// Name prefix of the identities of a merged run.
pub open spec fn identity_prefix(level: u8) -> Seq<char> {
    "identities-v5-l"@ + ascii(decimal_text((level + 1) as nat))
}

/// Name prefix of the surrogates of a merged run.
pub open spec fn surrogate_prefix(level: u8) -> Seq<char> {
    "node-surrogates-v5-l"@ + ascii(decimal_text((level + 1) as nat))
}

/// Whether a run is the carry of two adjacent runs: one level up, covering
/// both intervals, holding the records of both.
pub open spec fn carried(
    left: RunModel,
    right: RunModel,
    merged: RunModel,
    level: u8,
    generation: u64,
) -> bool {
    &&& !merged.run.base
    &&& merged.run.level == level + 1
    &&& merged.run.first_generation == left.run.first_generation
    &&& merged.run.last_generation == right.run.last_generation
    &&& merged.run.node_count == sat_add(left.run.node_count, right.run.node_count)
    &&& merged.run.edge_count == sat_add(left.run.edge_count, right.run.edge_count)
    &&& merged.run.deleted_node_count == sat_add(
        left.run.deleted_node_count,
        right.run.deleted_node_count,
    )
    &&& merged.run.deleted_edge_count == sat_add(
        left.run.deleted_edge_count,
        right.run.deleted_edge_count,
    )
    &&& is_union(merged.identity_records(), left.identity_records(), right.identity_records())
    &&& is_union(merged.surrogate_records(), left.surrogate_records(), right.surrogate_records())
    &&& newly_described::<Identity>(
        merged.run.identities,
        merged.identities,
        identity_prefix(level),
        generation,
    )
    &&& newly_described::<NodeSurrogate>(
        merged.run.node_surrogates,
        merged.node_surrogates,
        surrogate_prefix(level),
        generation,
    )
}

/// Why a level cannot be carried, if it cannot.
pub open spec fn carry_fault(runs: Seq<RunModel>, level: u8) -> Option<Seq<char>> {
    let at = members(runs, level);
    if at.len() < 2 {
        None
    } else if at.len() > 2 {
        Some("construction manifest level overflow"@)
    } else {
        let (left, right) = level_pair(runs, level);
        if !adjacent(left.run, right.run) {
            Some("construction index intervals are discontinuous"@)
        } else if !file_described::<Identity>(left.identities, left.run.identities)
            || !file_described::<Identity>(right.identities, right.run.identities) || share_key(
            left.identity_records(),
            right.identity_records(),
        ) {
            Some(
                merge_text::<Identity>(
                    left.identities,
                    left.run.identities,
                    right.identities,
                    right.run.identities,
                ),
            )
        } else if !left.authentic() || !right.authentic() || share_key(
            left.surrogate_records(),
            right.surrogate_records(),
        ) {
            Some(
                merge_text::<NodeSurrogate>(
                    left.node_surrogates,
                    left.run.node_surrogates,
                    right.node_surrogates,
                    right.run.node_surrogates,
                ),
            )
        } else {
            None
        }
    }
}

/// One level of the carry: two runs become one run of the next level.
pub open spec fn carry_step(
    before: CarryModel,
    after: CarryModel,
    level: u8,
    generation: u64,
) -> bool {
    &&& carry_fault(before.runs, level) is None
    &&& if members(before.runs, level).len() < 2 {
        after == before
    } else {
        let (left, right) = level_pair(before.runs, level);
        let merged = after.runs.last();
        &&& after.runs.len() > 0
        &&& after.runs.drop_last() == without_pair(before.runs, level)
        &&& carried(left, right, merged, level, generation)
        &&& after.created == before.created.push(
            FileModel { file: merged.run.identities, bytes: merged.identities },
        ).push(FileModel { file: merged.run.node_surrogates, bytes: merged.node_surrogates })
        &&& after.retained_payload_bytes == charge(
            charge(
                charge(
                    charge(before.retained_payload_bytes, left.run.identities, before.created),
                    right.run.identities,
                    before.created,
                ),
                left.run.node_surrogates,
                before.created,
            ),
            right.run.node_surrogates,
            before.created,
        )
    }
}

/// Whether `states` are the states of a carry over the levels below
/// `states.len() - 1`, lowest level first.
pub open spec fn carry_chain(states: Seq<CarryModel>, generation: u64) -> bool {
    &&& 1 <= states.len() <= 65
    &&& forall|level: int|
        0 <= level < states.len() - 1 ==> #[trigger] carry_step_at(states, level, generation)
}

/// Whether a sequence of states takes the step of this level.
pub open spec fn carry_step_at(states: Seq<CarryModel>, level: int, generation: u64) -> bool {
    carry_step(states[level], states[level + 1], level as u8, generation)
}

/// Questions whether to go on that a level takes until it is done or fails: one
/// before it is looked at, those of the merges of its runs, and one more after
/// two of its runs became one.
pub open spec fn level_questions(before: CarryModel, level: u8) -> nat {
    let (left, right) = level_pair(before.runs, level);
    if members(before.runs, level).len() != 2 || !adjacent(left.run, right.run) {
        1
    } else {
        let identities = merge_asks::<Identity>(
            left.identities,
            left.run.identities,
            right.identities,
            right.run.identities,
            25,
        );
        let surrogates = merge_asks::<NodeSurrogate>(
            left.node_surrogates,
            left.run.node_surrogates,
            right.node_surrogates,
            right.run.node_surrogates,
            24,
        );
        if !file_described::<Identity>(left.identities, left.run.identities)
            || !file_described::<Identity>(right.identities, right.run.identities) || share_key(
            left.identity_records(),
            right.identity_records(),
        ) {
            1 + identities
        } else if carry_fault(before.runs, level) is Some {
            1 + identities + surrogates
        } else {
            2 + identities + surrogates
        }
    }
}

/// Questions that were answered over the levels of a carry.
pub open spec fn questions(states: Seq<CarryModel>) -> nat
    decreases states.len(),
{
    if states.len() <= 1 {
        0
    } else {
        questions(states.drop_last()) + level_questions(
            states[states.len() - 2],
            (states.len() - 2) as u8,
        )
    }
}

/// Whether the carry stops at this level with this error.
pub open spec fn stops_with(state: CarryModel, level: u8, error: GfError) -> bool {
    carry_fault(state.runs, level) matches Some(message) && error.is_storage(message)
}

/// Whether a carry ends with this error once these states are reached: at the
/// next level a question is answered with no, or none is and the level fails.
pub open spec fn stopped(states: Seq<CarryModel>, cancelled: Option<u64>, error: GfError) -> bool {
    let level = (states.len() - 1) as u8;
    let before = questions(states);
    let asked = before + level_questions(states.last(), level);
    &&& states.len() <= 64
    &&& goes_on(cancelled, before)
    &&& if goes_on(cancelled, asked) {
        stops_with(states.last(), level, error)
    } else {
        error.is_storage("construction index encoding cancelled"@)
    }
}

/// Whether a name is among those of created files.
fn is_created(created: &Vec<IndexFile>, name: &String) -> (yes: bool)
    ensures
        yes == names_file(file_models(created@), name@),
{
    let mut i: usize = 0;
    while i < created.len()
        invariant
            i <= created@.len(),
            forall|j: int|
                0 <= j < i ==> (#[trigger] file_models(created@)[j]).file.name != name@,
        decreases created.len() - i,
    {
        if created[i].record.name == *name {
            assert(file_models(created@)[i as int].file.name == name@);
            return true;
        }
        i = i + 1;
    }
    false
}

fn charge_source(total: u64, file: &FileRecord, created: &Vec<IndexFile>) -> (charged: u64)
    ensures
        charged == charge(total, file@, file_models(created@)),
{
    if is_created(created, &file.name) {
        return total;
    }
    let width: u64 = if has_prefix(file.name.as_str().as_bytes(), "identities-".as_bytes()) {
        25
    } else {
        24
    };
    saturating_sum(total, saturating_product(file.count, width))
}

fn level_name(stem: &str, level: u8) -> (name: String)
    requires
        level < 255,
    ensures
        name@ == stem@ + ascii(decimal_text((level + 1) as nat)),
{
    let mut name: String = stem.to_owned();
    name.append(decimal(level as u64 + 1).as_str());
    name
}

fn described_records<T: Framed>(bytes: &[u8], record: &FileRecord) -> (items: Option<Vec<T>>)
    ensures
        match items {
            Some(items) => file_described::<T>(bytes@, record@) && items@ == scan::<T>(bytes@).0,
            None => !file_described::<T>(bytes@, record@),
        },
{
    match authenticate_file::<T>(bytes, record, "construction merge source authentication failed") {
        Ok(items) => Some(items),
        Err(_) => None,
    }
}

/// Whether no question of a merge of two described files is answered with no.
pub open spec fn merge_goes_on<T: Framed>(
    left: Seq<u8>,
    left_file: FileView,
    right: Seq<u8>,
    right_file: FileView,
    width: usize,
    cancelled: Option<u64>,
) -> bool {
    goes_on(cancelled, merge_asks::<T>(left, left_file, right, right_file, width as nat))
}

/// Merge two authenticated files that share no key. What is wrong with them is
/// reported as it is met when they are read block by block. The merge asks
/// whether to go on whenever its output block may not hold another record of
/// `width` bytes; with the file it gives the questions from the next one on.
pub fn merge_construction_records<T: Framed>(
    left: &[u8],
    left_record: &FileRecord,
    right: &[u8],
    right_record: &FileRecord,
    prefix: &str,
    generation: u64,
    width: usize,
    cancelled: Option<u64>,
) -> (file: Result<(IndexFile, Option<u64>), GfError>)
    requires
        0 < width <= BULK_IO_BYTES,
    ensures
        match file {
            Ok((file, rest)) => {
                &&& merge_goes_on::<T>(left@, left_record@, right@, right_record@, width, cancelled)
                &&& rest == later_question(
                    cancelled,
                    merge_asks::<T>(left@, left_record@, right@, right_record@, width as nat),
                )
                &&& file_described::<T>(left@, left_record@)
                &&& file_described::<T>(right@, right_record@)
                &&& !share_key(scan::<T>(left@).0, scan::<T>(right@).0)
                &&& newly_described::<T>(file.record@, file.bytes@, prefix@, generation)
                &&& is_union(scan::<T>(file.bytes@).0, scan::<T>(left@).0, scan::<T>(right@).0)
            },
            Err(error) => if merge_goes_on::<T>(
                left@,
                left_record@,
                right@,
                right_record@,
                width,
                cancelled,
            ) {
                &&& {
                    ||| !file_described::<T>(left@, left_record@)
                    ||| !file_described::<T>(right@, right_record@)
                    ||| share_key(scan::<T>(left@).0, scan::<T>(right@).0)
                }
                &&& error.is_storage(
                    merge_text::<T>(left@, left_record@, right@, right_record@),
                )
            } else {
                error.is_storage("construction index encoding cancelled"@)
            },
        },
{
    let rest: Option<u64> = match ask_merge::<T>(
        left,
        left_record,
        right,
        right_record,
        width,
        cancelled,
    ) {
        Some(rest) => rest,
        None => {
            return Err(storage_err("construction index encoding cancelled"));
        },
    };
    let older: Option<Vec<T>> = described_records::<T>(left, left_record);
    let newer: Option<Vec<T>> = described_records::<T>(right, right_record);
    let (older, newer): (Vec<T>, Vec<T>) = match (older, newer) {
        (Some(older), Some(newer)) => (older, newer),
        _ => {
            return Err(
                GfError::Storage(explain_merge::<T>(left, left_record, right, right_record)),
            );
        },
    };
    match merge_disjoint(&older, &newer) {
        Some(merged) => {
            proof {
                lemma_pack_scanned::<T>(left@);
                lemma_pack_scanned::<T>(right@);
                assert forall|i: int| 0 <= i < merged@.len() implies (
                #[trigger] merged@[i]).valid() by {
                    assert(merged@.contains(merged@[i]));
                }
                lemma_scan_packed(merged@);
            }
            Ok((describe_run::<T>(prefix, generation, &merged), rest))
        },
        None => Err(
            GfError::Storage(explain_merge::<T>(left, left_record, right, right_record)),
        ),
    }
}

#[verifier::rlimit(80)]
#[verifier::spinoff_prover]
fn carry_level(
    state: &mut CarryState,
    level: u8,
    generation: u64,
    cancelled: Option<u64>,
) -> (done: Result<Option<u64>, GfError>)
    requires
        level <= 63,
    ensures
        ({
            let asked = level_questions(old(state)@, level);
            match done {
                Ok(rest) => {
                    &&& carry_step(old(state)@, final(state)@, level, generation)
                    &&& goes_on(cancelled, asked)
                    &&& rest == later_question(cancelled, asked)
                },
                Err(error) => if goes_on(cancelled, asked) {
                    stops_with(old(state)@, level, error)
                } else {
                    error.is_storage("construction index encoding cancelled"@)
                },
            }
        }),
{
    let rest: Option<u64> = match ask(cancelled) {
        Some(rest) => rest,
        None => {
            return Err(storage_err("construction index encoding cancelled"));
        },
    };
    let ghost before = state@;
    let positions: Vec<usize> = level_members(&state.runs, level);
    if positions.len() < 2 {
        return Ok(rest);
    }
    if positions.len() != 2 {
        return Err(storage_err("construction manifest level overflow"));
    }
    let (left, right) = take_pair(&mut state.runs, level, &positions);
    let ghost others = run_models(state.runs@);
    let next: u64 = saturating_sum(left.descriptor.last_generation, 1);
    if next != right.descriptor.first_generation {
        return Err(storage_err("construction index intervals are discontinuous"));
    }
    let charged: u64 = charge_source(
        state.retained_payload_bytes,
        &left.descriptor.identities,
        &state.created,
    );
    let charged: u64 = charge_source(charged, &right.descriptor.identities, &state.created);
    let identity_stem: String = level_name("identities-v5-l", level);
    let (identities, rest): (IndexFile, Option<u64>) = match merge_construction_records::<Identity>(
        left.identities.as_slice(),
        &left.descriptor.identities,
        right.identities.as_slice(),
        &right.descriptor.identities,
        identity_stem.as_str(),
        generation,
        25,
        rest,
    ) {
        Ok(file) => file,
        Err(error) => {
            return Err(error);
        },
    };
    let charged: u64 = charge_source(charged, &left.descriptor.node_surrogates, &state.created);
    let charged: u64 = charge_source(charged, &right.descriptor.node_surrogates, &state.created);
    let surrogate_stem: String = level_name("node-surrogates-v5-l", level);
    let (surrogates, rest): (IndexFile, Option<u64>) =
        match merge_construction_records::<NodeSurrogate>(
        left.node_surrogates.as_slice(),
        &left.descriptor.node_surrogates,
        right.node_surrogates.as_slice(),
        &right.descriptor.node_surrogates,
        surrogate_stem.as_str(),
        generation,
        24,
        rest,
    ) {
        Ok(file) => file,
        Err(error) => {
            return Err(error);
        },
    };
    let rest: Option<u64> = match ask(rest) {
        Some(rest) => rest,
        None => {
            return Err(storage_err("construction index encoding cancelled"));
        },
    };
    let merged = OpenRun {
        descriptor: RunRecord {
            base: false,
            level: level + 1,
            first_generation: left.descriptor.first_generation,
            last_generation: right.descriptor.last_generation,
            identities: identities.record.duplicate(),
            node_surrogates: surrogates.record.duplicate(),
            node_count: saturating_sum(left.descriptor.node_count, right.descriptor.node_count),
            edge_count: saturating_sum(left.descriptor.edge_count, right.descriptor.edge_count),
            deleted_node_count: saturating_sum(
                left.descriptor.deleted_node_count,
                right.descriptor.deleted_node_count,
            ),
            deleted_edge_count: saturating_sum(
                left.descriptor.deleted_edge_count,
                right.descriptor.deleted_edge_count,
            ),
        },
        identities: slice_to_vec(identities.bytes.as_slice()),
        node_surrogates: slice_to_vec(surrogates.bytes.as_slice()),
    };
    let ghost merged_model = merged@;
    let ghost created_before = state.created@;
    state.retained_payload_bytes = charged;
    state.created.push(identities);
    state.created.push(surrogates);
    state.runs.push(merged);
    proof {
        assert(file_models(state.created@) =~= file_models(created_before).push(
            FileModel { file: merged_model.run.identities, bytes: merged_model.identities },
        ).push(
            FileModel {
                file: merged_model.run.node_surrogates,
                bytes: merged_model.node_surrogates,
            },
        ));
        assert(run_models(state.runs@) =~= others.push(merged_model));
        assert(run_models(state.runs@).drop_last() =~= others);
    }
    Ok(rest)
}

/// Carry equal levels, lowest first: wherever a level holds two adjacent
/// runs, they become one run of the next level. The carry asks whether to go
/// on before each look at a level, and for each block that its merges fill.
#[verifier::rlimit(40)]
pub fn compact_construction_levels(
    state: &mut CarryState,
    generation: u64,
    cancelled: Option<u64>,
) -> (done: Result<(), GfError>)
    ensures
        match done {
            Ok(()) => exists|states: Seq<CarryModel>|
                carry_chain(states, generation) && states.len() == 65 && states[0] == old(state)@
                    && goes_on(cancelled, questions(states)) && #[trigger] states.last()
                    == final(state)@,
            Err(error) => exists|states: Seq<CarryModel>|
                carry_chain(states, generation) && states[0] == old(state)@ && #[trigger] stopped(
                    states,
                    cancelled,
                    error,
                ),
        },
{
    let ghost mut states: Seq<CarryModel> = seq![state@];
    let mut level: u8 = 0;
    let mut rest: Option<u64> = cancelled;
    while level < 64
        invariant
            level <= 64,
            states.len() == level + 1,
            states[0] == old(state)@,
            states.last() == state@,
            carry_chain(states, generation),
            goes_on(cancelled, questions(states)),
            rest == later_question(cancelled, questions(states)),
        decreases 64 - level,
    {
        let ghost asked = questions(states);
        let ghost before = state@;
        match carry_level(state, level, generation, rest) {
            Ok(after) => {
                proof {
                    let next = states.push(state@);
                    assert forall|l: int|
                        0 <= l < next.len() - 1 implies #[trigger] carry_step_at(
                        next,
                        l,
                        generation,
                    ) by {
                        if l < states.len() - 1 {
                            assert(carry_step_at(states, l, generation));
                        }
                    }
                    assert(next.drop_last() =~= states);
                    assert(questions(next) == asked + level_questions(before, level));
                    states = next;
                }
                rest = after;
            },
            Err(error) => {
                assert(states.last() == states[states.len() - 1]);
                assert(stopped(states, cancelled, error));
                return Err(error);
            },
        }
        level = level + 1;
    }
    assert(states.last() == state@);
    Ok(())
}

/// What a construction run is recovered from: where its identity stream came
/// from, sealed by a digest over every other field.
#[derive(Debug, PartialEq, Eq)]
pub struct ConstructionRecoveryIntent {
    /// Manifest format version.
    pub format_version: u32,
    /// Generation under construction.
    pub generation: u64,
    /// Generation it continues.
    pub parent_generation: u64,
    /// Name of the identity stream.
    pub identities_name: String,
    /// Volume of the identity stream.
    pub source_volume: u64,
    /// Hexadecimal file identifier of the identity stream.
    pub source_file_id: String,
    /// Length of the identity stream.
    pub source_bytes: u64,
    /// Hexadecimal digest of the identity stream.
    pub source_sha256: String,
    /// Hexadecimal digest that seals the other fields.
    pub authority_sha256: String,
}

impl ConstructionRecoveryIntent {
    /// The bytes that the seal is a digest of.
    pub open spec fn sealed_bytes(self) -> Seq<u8> {
        encode_utf8("graphforge.uuid-membership.construction-intent.v2"@) + seq![0u8] + be_bytes(
            self.format_version as nat,
            4,
        ) + be_bytes(self.generation as nat, 8) + be_bytes(self.parent_generation as nat, 8)
            + be_bytes(encode_utf8(self.identities_name@).len(), 8) + encode_utf8(
            self.identities_name@,
        ) + be_bytes(self.source_volume as nat, 8) + encode_utf8(self.source_file_id@) + be_bytes(
            self.source_bytes as nat,
            8,
        ) + encode_utf8(self.source_sha256@)
    }

    /// Whether the intent is of this format and its seal is intact.
    pub open spec fn authentic(self) -> bool {
        self.format_version == FORMAT_VERSION && self.authority_sha256@ == sha256_hex(
            self.sealed_bytes(),
        )
    }

    /// The seal of an intent.
    pub fn construction_intent_digest(&self) -> (digest: String)
        ensures
            digest@ == sha256_hex(self.sealed_bytes()),
    {
        let mut sealed: Vec<u8> = Vec::new();
        push_all(&mut sealed, "graphforge.uuid-membership.construction-intent.v2".as_bytes());
        sealed.push(0);
        push_be(&mut sealed, self.format_version as u128, 4);
        push_be(&mut sealed, self.generation as u128, 8);
        push_be(&mut sealed, self.parent_generation as u128, 8);
        let name: &[u8] = self.identities_name.as_str().as_bytes();
        push_be(&mut sealed, name.len() as u128, 8);
        push_all(&mut sealed, name);
        push_be(&mut sealed, self.source_volume as u128, 8);
        push_all(&mut sealed, self.source_file_id.as_str().as_bytes());
        push_be(&mut sealed, self.source_bytes as u128, 8);
        push_all(&mut sealed, self.source_sha256.as_str().as_bytes());
        assert(sealed@ =~= self.sealed_bytes());
        hex_sha256(sealed.as_slice())
    }

    /// Accept only an intent of this format whose seal is intact.
    pub fn authenticate(&self) -> (checked: Result<(), GfError>)
        ensures
            match checked {
                Ok(()) => self.authentic(),
                Err(error) => !self.authentic() && error.is_storage(
                    "construction recovery intent authentication failed"@,
                ),
            },
    {
        let expected: String = self.construction_intent_digest();
        if self.format_version != FORMAT_VERSION || self.authority_sha256 != expected {
            return Err(storage_err("construction recovery intent authentication failed"));
        }
        Ok(())
    }

    /// Seal an intent for this format.
    pub fn sealed(
        generation: u64,
        parent_generation: u64,
        identities_name: String,
        source_volume: u64,
        source_file_id: String,
        source_bytes: u64,
        source_sha256: String,
    ) -> (intent: ConstructionRecoveryIntent)
        ensures
            intent.authentic(),
            intent.generation == generation,
            intent.parent_generation == parent_generation,
            intent.identities_name@ == identities_name@,
            intent.source_volume == source_volume,
            intent.source_file_id@ == source_file_id@,
            intent.source_bytes == source_bytes,
            intent.source_sha256@ == source_sha256@,
    {
        let mut intent = ConstructionRecoveryIntent {
            format_version: FORMAT_VERSION,
            generation,
            parent_generation,
            identities_name,
            source_volume,
            source_file_id,
            source_bytes,
            source_sha256,
            authority_sha256: String::new(),
        };
        let seal: String = intent.construction_intent_digest();
        let ghost unsealed = intent;
        intent.authority_sha256 = seal;
        assert(intent.sealed_bytes() == unsealed.sealed_bytes());
        intent
    }
}

/// The surrogate of the last node before position `i`; zero where there is
/// none.
pub open spec fn prior_surrogate(rows: Seq<ConstructionRow>, i: int) -> u64
    decreases i,
{
    if i <= 0 {
        0
    } else if rows[i - 1].kind == 0 {
        rows[i - 1].surrogate
    } else {
        prior_surrogate(rows, i - 1)
    }
}

/// What is wrong with the row at `i`, given the rows before it.
pub open spec fn row_fault(rows: Seq<ConstructionRow>, i: int) -> Option<Seq<char>> {
    let row = rows[i];
    if (i > 0 && rows[i - 1].uuid >= row.uuid) || row.reserved != 0 {
        Some("construction identity stream is not canonical"@)
    } else if row.kind == 0 {
        if row.surrogate == 0 || row.surrogate <= prior_surrogate(rows, i) {
            Some("construction node surrogate stream is not increasing"@)
        } else {
            None
        }
    } else if row.kind == 1 {
        None
    } else {
        Some("construction identity kind is invalid"@)
    }
}

/// The identity a row is packed as: edge surrogates belong to topology.
pub open spec fn row_identity(row: ConstructionRow) -> Identity {
    Identity {
        uuid: row.uuid,
        kind: row.kind,
        surrogate: if row.kind == 0 {
            row.surrogate
        } else {
            0
        },
    }
}

/// The identities of rows, in order.
pub open spec fn row_identities(rows: Seq<ConstructionRow>) -> Seq<Identity> {
    Seq::new(rows.len(), |i: int| row_identity(rows[i]))
}

/// The surrogate records of the nodes among rows, in order.
pub open spec fn row_surrogates(rows: Seq<ConstructionRow>) -> Seq<NodeSurrogate>
    decreases rows.len(),
{
    if rows.len() == 0 {
        Seq::empty()
    } else {
        let before = row_surrogates(rows.drop_last());
        if rows.last().kind == 0 {
            before.push(NodeSurrogate { surrogate: rows.last().surrogate, uuid: rows.last().uuid })
        } else {
            before
        }
    }
}

/// The rows of a shaped identity stream.
pub open spec fn stream_rows(input: Seq<u8>) -> Seq<ConstructionRow> {
    scan::<ConstructionRow>(input).0
}

/// Whether the stream is made of whole rows none of which is faulty.
pub open spec fn stream_canonical(input: Seq<u8>) -> bool {
    &&& scan::<ConstructionRow>(input).1 is None
    &&& forall|i: int|
        0 <= i < stream_rows(input).len() ==> #[trigger] row_fault(stream_rows(input), i) is None
}

/// Whether the stream fails with this error: it is cut short, or this is
/// what is wrong with its first faulty row.
pub open spec fn stream_fails(input: Seq<u8>, error: GfError) -> bool {
    let rows = stream_rows(input);
    if scan::<ConstructionRow>(input).1 is Some {
        error.is_storage("construction identity stream is truncated"@)
    } else {
        exists|i: int|
            0 <= i < rows.len() && faulty_at(rows, i, error) && forall|j: int|
                0 <= j < i ==> row_fault(rows, j) is None
    }
}

/// Whether an error is that of this row.
pub open spec fn faulty_at(rows: Seq<ConstructionRow>, i: int, error: GfError) -> bool {
    row_fault(rows, i) matches Some(message) && error.is_storage(message)
}

/// The packed form of a shaped identity stream.
#[derive(Debug, PartialEq, Eq)]
pub struct ConstructionDelta {
    /// Identities in UUID order.
    pub identities: Vec<Identity>,
    /// Nodes in surrogate order.
    pub surrogates: Vec<NodeSurrogate>,
}

/// Pack a shaped identity stream: UUIDs and node surrogates must increase.
pub fn encode_construction_delta(input: &[u8]) -> (delta: Result<ConstructionDelta, GfError>)
    ensures
        match delta {
            Ok(delta) => {
                &&& stream_canonical(input@)
                &&& delta.identities@ == row_identities(stream_rows(input@))
                &&& delta.surrogates@ == row_surrogates(stream_rows(input@))
                &&& ordered(delta.identities@)
                &&& all_valid(delta.identities@)
                &&& ordered(delta.surrogates@)
                &&& delta.surrogates@.len() <= delta.identities@.len()
            },
            Err(error) => !stream_canonical(input@) && stream_fails(input@, error),
        },
{
    let rows: Vec<ConstructionRow> = match decode::<ConstructionRow>(input) {
        Ok(rows) => rows,
        Err(error) => {
            proof {
                lemma_stream_fault(input@);
            }
            return Err(error);
        },
    };
    let ghost all = rows@;
    let mut identities: Vec<Identity> = Vec::new();
    let mut surrogates: Vec<NodeSurrogate> = Vec::new();
    let mut previous_surrogate: u64 = 0;
    let mut i: usize = 0;
    assert(all.take(0) =~= Seq::<ConstructionRow>::empty());
    while i < rows.len()
        invariant
            i <= rows@.len(),
            all == rows@,
            all == stream_rows(input@),
            scan::<ConstructionRow>(input@).1 is None,
            identities@.len() == i,
            identities@ == row_identities(all.take(i as int)),
            surrogates@ == row_surrogates(all.take(i as int)),
            surrogates@.len() <= i,
            ordered(identities@),
            all_valid(identities@),
            ordered(surrogates@),
            previous_surrogate == prior_surrogate(all, i as int),
            forall|k: int|
                0 <= k < surrogates@.len() ==> (#[trigger] surrogates@[k]).surrogate
                    <= previous_surrogate,
            forall|j: int| 0 <= j < i ==> #[trigger] row_fault(all, j) is None,
        decreases rows.len() - i,
    {
        let row: ConstructionRow = rows[i];
        if (i > 0 && rows[i - 1].uuid >= row.uuid) || row.reserved != 0 {
            let error: GfError = storage_err("construction identity stream is not canonical");
            assert(faulty_at(all, i as int, error));
            return Err(error);
        }
        proof {
            assert(all.take(i + 1).drop_last() =~= all.take(i as int));
            if i > 0 {
                assert(identities@[i - 1] == row_identity(all[i - 1]));
            }
        }
        if row.kind == 0 {
            if row.surrogate == 0 || row.surrogate <= previous_surrogate {
                let error: GfError = storage_err(
                    "construction node surrogate stream is not increasing",
                );
                assert(faulty_at(all, i as int, error));
                return Err(error);
            }
            previous_surrogate = row.surrogate;
            surrogates.push(NodeSurrogate { surrogate: row.surrogate, uuid: row.uuid });
            identities.push(
                Identity { uuid: row.uuid, kind: row.kind, surrogate: row.surrogate },
            );
        } else if row.kind == 1 {
            identities.push(Identity { uuid: row.uuid, kind: row.kind, surrogate: 0 });
        } else {
            let error: GfError = storage_err("construction identity kind is invalid");
            assert(faulty_at(all, i as int, error));
            return Err(error);
        }
        assert(identities@ =~= row_identities(all.take(i + 1)));
        i = i + 1;
    }
    assert(all.take(i as int) =~= all);
    Ok(ConstructionDelta { identities, surrogates })
}

/// A stream that is not made of whole rows is cut short.
proof fn lemma_stream_fault(input: Seq<u8>)
    ensures
        scan::<ConstructionRow>(input).1 matches Some(message) ==> message
            == "construction identity stream is truncated"@,
    decreases input.len(),
{
    if input.len() >= 26 {
        lemma_stream_fault(input.skip(26));
    }
}

impl Ranked for IndexFile {
    open spec fn not_after(self, other: Self) -> bool {
        text_not_after(encode_utf8(self@.file.name), encode_utf8(other@.file.name))
    }

    proof fn total(left: Self, right: Self) {
        lemma_text_total(encode_utf8(left@.file.name), encode_utf8(right@.file.name));
    }

    proof fn transitive(first: Self, second: Self, third: Self) {
        lemma_text_transitive(
            encode_utf8(first@.file.name),
            encode_utf8(second@.file.name),
            encode_utf8(third@.file.name),
        );
    }

    fn comes_first(&self, other: &Self) -> (yes: bool) {
        text_first(self.record.name.as_str().as_bytes(), other.record.name.as_str().as_bytes())
    }
}

/// The next index and what has to be published for it.
#[derive(Debug, PartialEq, Eq)]
pub struct ConstructionIndexEncoding {
    /// The next index.
    pub index: UuidMembershipIndex,
    /// New files that the next manifest names, by name.
    pub artifacts: Vec<IndexFile>,
    /// Names of the files that the next manifest takes over from the parent,
    /// by name, each once.
    pub retained: Vec<String>,
    /// Identities in the shaped stream.
    pub input_records: u64,
    /// Bytes of the new files. The manifest is written beside them.
    pub final_write_bytes: u64,
    /// Files created, the discarded ones included.
    pub created_runs: u64,
    /// Runs none of whose files is new.
    pub retained_runs: u64,
    /// Payload bytes read from retained files.
    pub retained_payload_bytes: u64,
}

/// What the construction starts from, or why it cannot start.
pub open spec fn parent_fault(
    generation: u64,
    parent_generation: u64,
    parent: Option<IndexModel>,
) -> Option<Seq<char>> {
    if parent_generation == 0 && parent is Some {
        Some("empty construction parent has UUID snapshot"@)
    } else if parent_generation != 0 && parent is None {
        Some("nonempty construction parent lacks authenticated UUID snapshot"@)
    } else if parent_generation != 0 && parent->0.current_generation != parent_generation {
        Some("construction UUID parent generation changed"@)
    } else if generation != sat_add(parent_generation, 1) {
        Some("construction UUID generation is not consecutive"@)
    } else {
        None
    }
}

/// Model of an optional index.
pub open spec fn model_of(index: Option<UuidMembershipIndex>) -> Option<IndexModel> {
    match index {
        Some(index) => Some(index@),
        None => None,
    }
}

/// The runs of the parent; none for an empty graph.
pub open spec fn parent_runs(parent: Option<IndexModel>) -> Seq<RunModel> {
    match parent {
        Some(index) => index.runs,
        None => Seq::empty(),
    }
}

/// Live nodes of the parent.
pub open spec fn parent_nodes(parent: Option<IndexModel>) -> u64 {
    match parent {
        Some(index) => index.live_node_count,
        None => 0,
    }
}

/// Live edges of the parent.
pub open spec fn parent_edges(parent: Option<IndexModel>) -> u64 {
    match parent {
        Some(index) => index.live_edge_count,
        None => 0,
    }
}

/// Nodes in a shaped stream.
pub open spec fn stream_nodes(input: Seq<u8>) -> nat {
    row_surrogates(stream_rows(input)).len()
}

/// Edges in a shaped stream.
pub open spec fn stream_edges(input: Seq<u8>) -> int {
    stream_rows(input).len() - stream_nodes(input)
}

/// Whether a run is an empty base run.
pub open spec fn empty_base(run: RunModel) -> bool {
    &&& run.run.base
    &&& run.run.level == 0
    &&& run.run.first_generation == 0
    &&& run.run.last_generation == 0
    &&& run.run.node_count == 0
    &&& run.run.edge_count == 0
    &&& run.run.deleted_node_count == 0
    &&& run.run.deleted_edge_count == 0
    &&& run.identities == Seq::<u8>::empty()
    &&& run.node_surrogates == Seq::<u8>::empty()
    &&& newly_described::<Identity>(run.run.identities, run.identities, "identities-v5-base"@, 0)
    &&& newly_described::<NodeSurrogate>(
        run.run.node_surrogates,
        run.node_surrogates,
        "node-surrogates-v5-base"@,
        0,
    )
}

/// Whether a run is the packed form of new identities.
pub open spec fn delta_run(
    run: RunModel,
    identities: Seq<Identity>,
    surrogates: Seq<NodeSurrogate>,
    generation: u64,
) -> bool {
    &&& !run.run.base
    &&& run.run.level == 0
    &&& run.run.first_generation == generation
    &&& run.run.last_generation == generation
    &&& run.run.node_count == surrogates.len()
    &&& run.run.edge_count == identities.len() - surrogates.len()
    &&& run.run.deleted_node_count == 0
    &&& run.run.deleted_edge_count == 0
    &&& run.identities == pack(identities)
    &&& run.node_surrogates == pack(surrogates)
    &&& newly_described::<Identity>(
        run.run.identities,
        run.identities,
        "identities-v5"@,
        generation,
    )
    &&& newly_described::<NodeSurrogate>(
        run.run.node_surrogates,
        run.node_surrogates,
        "node-surrogates-v5"@,
        generation,
    )
}

/// The two files of a run.
pub open spec fn run_files(run: RunModel) -> Seq<FileModel> {
    seq![
        FileModel { file: run.run.identities, bytes: run.identities },
        FileModel { file: run.run.node_surrogates, bytes: run.node_surrogates },
    ]
}

/// Whether a carry starts from old runs and a run of new identities; an
/// empty graph gets an empty base run first.
pub open spec fn carry_start(
    start: CarryModel,
    old_runs: Seq<RunModel>,
    identities: Seq<Identity>,
    surrogates: Seq<NodeSurrogate>,
    generation: u64,
    with_base: bool,
) -> bool {
    let delta = start.runs.last();
    &&& start.retained_payload_bytes == 0
    &&& start.runs.len() > 0
    &&& delta_run(delta, identities, surrogates, generation)
    &&& if with_base {
        let base = start.runs[start.runs.len() - 2];
        &&& start.runs == old_runs.push(base).push(delta)
        &&& empty_base(base)
        &&& start.created == run_files(delta) + run_files(base)
    } else {
        &&& start.runs == old_runs.push(delta)
        &&& start.created == run_files(delta)
    }
}

/// Whether a carry starts from the parent runs and the packed stream.
pub open spec fn stream_start(
    start: CarryModel,
    input: Seq<u8>,
    generation: u64,
    parent_generation: u64,
    parent: Option<IndexModel>,
) -> bool {
    carry_start(
        start,
        parent_runs(parent),
        row_identities(stream_rows(input)),
        row_surrogates(stream_rows(input)),
        generation,
        parent_generation == 0,
    )
}

/// The next index a finished carry leads to on top of a parent.
pub open spec fn carried_index(
    index: IndexModel,
    done: CarryModel,
    generation: u64,
    parent: Option<IndexModel>,
    live_nodes: u64,
    live_edges: u64,
) -> bool {
    finished_index(
        index,
        done,
        match parent {
            Some(parent) => parent.format_version,
            None => FORMAT_VERSION,
        },
        match parent {
            Some(parent) => parent.base_generation,
            None => 0,
        },
        generation,
        live_nodes,
        live_edges,
    )
}

/// The files that a manifest names.
pub open spec fn named_files(files: Seq<FileModel>, manifest: ManifestView) -> Seq<FileModel> {
    files.filter(|file: FileModel| manifest_names(manifest, file.file.name))
}

/// What is published for the next index: the new files it names, each as
/// often as it was made and by name, their bytes, and the names of the other
/// files it names, each once and by name.
pub open spec fn publication(
    encoding: ConstructionIndexEncoding,
    created: Seq<FileModel>,
) -> bool {
    let manifest = encoding.index@.manifest();
    let artifacts = file_models(encoding.artifacts@);
    &&& in_order(encoding.artifacts@)
    &&& encoding.final_write_bytes == file_bytes(artifacts)
    &&& artifacts.to_multiset() == named_files(created, manifest).to_multiset()
    &&& forall|file: FileModel| #[trigger]
        artifacts.contains(file) <==> created.contains(file) && manifest_names(
            manifest,
            file.file.name,
        )
    &&& in_order(encoding.retained@)
    &&& distinct_names(encoding.retained@)
    &&& forall|name: Seq<char>| #[trigger]
        has_name(encoding.retained@, name) <==> manifest_names(manifest, name) && !names_file(
            artifacts,
            name,
        )
}

/// Bytes of some files, as far as they can be counted.
pub open spec fn file_bytes(files: Seq<FileModel>) -> u64
    decreases files.len(),
{
    if files.len() == 0 {
        0
    } else {
        sat_add(file_bytes(files.drop_last()), files.last().bytes.len() as u64)
    }
}

fn count_bytes(files: &Vec<IndexFile>) -> (total: u64)
    ensures
        total == file_bytes(file_models(files@)),
{
    let ghost all = file_models(files@);
    let mut total: u64 = 0;
    let mut i: usize = 0;
    assert(all.take(0) =~= Seq::<FileModel>::empty());
    while i < files.len()
        invariant
            i <= files@.len(),
            all == file_models(files@),
            total == file_bytes(all.take(i as int)),
        decreases files.len() - i,
    {
        assert(all.take(i + 1).drop_last() =~= all.take(i as int));
        total = saturating_sum(total, files[i].bytes.len() as u64);
        i = i + 1;
    }
    assert(all.take(i as int) =~= all);
    total
}

/// Number of runs none of whose files is new.
pub open spec fn untouched_runs(runs: Seq<RunView>, artifacts: Seq<FileModel>) -> nat
    decreases runs.len(),
{
    if runs.len() == 0 {
        0
    } else {
        untouched_runs(runs.drop_last(), artifacts) + if !names_file(
            artifacts,
            runs.last().identities.name,
        ) && !names_file(artifacts, runs.last().node_surrogates.name) {
            1nat
        } else {
            0nat
        }
    }
}

/// Whether the counts of the stream and the parent add up to the shaped
/// counts.
pub open spec fn counts_agree(
    input: Seq<u8>,
    parent: Option<IndexModel>,
    live_nodes: u64,
    live_edges: u64,
) -> bool {
    &&& sat_add(parent_nodes(parent), stream_nodes(input) as u64) == live_nodes
    &&& sat_add(parent_edges(parent), stream_edges(input) as u64) == live_edges
}

fn push_run(
    state: &mut CarryState,
    run: RunRecord,
    identities: IndexFile,
    node_surrogates: IndexFile,
)
    requires
        run@.identities == identities@.file,
        run@.node_surrogates == node_surrogates@.file,
    ensures
        ({
            let model = RunModel {
                run: run@,
                identities: identities@.bytes,
                node_surrogates: node_surrogates@.bytes,
            };
            &&& final(state)@.runs == old(state)@.runs.push(model)
            &&& final(state)@.created == old(state)@.created + run_files(model)
            &&& final(state)@.retained_payload_bytes == old(state)@.retained_payload_bytes
        }),
{
    let ghost before = state@;
    let open = OpenRun {
        descriptor: run,
        identities: slice_to_vec(identities.bytes.as_slice()),
        node_surrogates: slice_to_vec(node_surrogates.bytes.as_slice()),
    };
    let ghost model = open@;
    state.runs.push(open);
    state.created.push(identities);
    state.created.push(node_surrogates);
    assert(run_models(state.runs@) =~= before.runs.push(model));
    assert(file_models(state.created@) =~= before.created + run_files(model));
}

proof fn lemma_named_step(files: Seq<FileModel>, manifest: ManifestView)
    ensures
        files.len() == 0 ==> named_files(files, manifest) == Seq::<FileModel>::empty(),
        files.len() > 0 ==> named_files(files, manifest).to_multiset() == (if manifest_names(
            manifest,
            files[0].file.name,
        ) {
            named_files(files.skip(1), manifest).to_multiset().insert(files[0])
        } else {
            named_files(files.skip(1), manifest).to_multiset()
        }),
{
    reveal(Seq::filter);
    let named = |file: FileModel| manifest_names(manifest, file.file.name);
    if files.len() > 0 {
        let first = seq![files[0]];
        assert(files =~= first + files.skip(1));
        Seq::filter_distributes_over_add(first, files.skip(1), named);
        assert(first.drop_last() =~= Seq::empty());
        assert(first.drop_last().filter(named) =~= Seq::empty());
        lemma_multiset_commutative(first.filter(named), files.skip(1).filter(named));
        if named(files[0]) {
            assert(first.filter(named) =~= Seq::empty().push(files[0]));
            to_multiset_build(Seq::<FileModel>::empty(), files[0]);
        }
        assert(Seq::<FileModel>::empty().to_multiset() =~= Multiset::empty()) by {
            to_multiset_len(Seq::<FileModel>::empty());
        }
        assert(named_files(files, manifest).to_multiset() =~= (if named(files[0]) {
            named_files(files.skip(1), manifest).to_multiset().insert(files[0])
        } else {
            named_files(files.skip(1), manifest).to_multiset()
        }));
    }
}

/// Keep the files that the manifest names, by name.
pub(crate) fn published_files(created: Vec<IndexFile>, manifest: &Manifest) -> (artifacts: Vec<IndexFile>)
    ensures
        in_order(artifacts@),
        file_models(artifacts@).to_multiset() == named_files(
            file_models(created@),
            manifest@,
        ).to_multiset(),
        forall|file: FileModel| #[trigger]
            file_models(artifacts@).contains(file) <==> file_models(created@).contains(file)
                && manifest_names(manifest@, file.file.name),
{
    let ghost all = file_models(created@);
    let mut created: Vec<IndexFile> = created;
    let mut kept: Vec<IndexFile> = Vec::new();
    assert(all.take(created@.len() as int) =~= all);
    proof {
        assert(all.skip(created@.len() as int) =~= Seq::empty());
        assert(file_models(kept@) =~= Seq::empty());
        lemma_named_step(Seq::empty(), manifest@);
    }
    while created.len() > 0
        invariant
            created@.len() <= all.len(),
            file_models(created@) == all.take(created@.len() as int),
            file_models(kept@).to_multiset() == named_files(
                all.skip(created@.len() as int),
                manifest@,
            ).to_multiset(),
            forall|i: int|
                0 <= i < kept@.len() ==> all.contains((#[trigger] kept@[i])@) && manifest_names(
                    manifest@,
                    kept@[i]@.file.name,
                ),
            forall|i: int|
                created@.len() <= i < all.len() && manifest_names(
                    manifest@,
                    (#[trigger] all[i]).file.name,
                ) ==> file_models(kept@).contains(all[i]),
        decreases created.len(),
    {
        let ghost left = created@;
        match created.pop() {
            Some(file) => {
                let ghost at = created@.len() as int;
                assert(file_models(left)[at] == file@);
                assert(all[at] == file@);
                assert(file_models(created@) =~= all.take(at));
                let ghost kept_before = file_models(kept@);
                proof {
                    assert(all.skip(at).skip(1) =~= all.skip(at + 1));
                    lemma_named_step(all.skip(at), manifest@);
                    to_multiset_build(kept_before, file@);
                }
                if manifest_holds(manifest, &file.record.name) {
                    let ghost model = file@;
                    kept.push(file);
                    proof {
                        assert(file_models(kept@) =~= kept_before.push(model));
                        lemma_push_contains(kept_before, model);
                    }
                }
            },
            None => {},
        }
    }
    let ghost unsorted = kept@;
    let artifacts: Vec<IndexFile> = sort_ranked(kept);
    proof {
        assert(all.skip(0) =~= all);
        lemma_multiset_images(artifacts@, unsorted, |file: IndexFile| file@);
        let image = |file: IndexFile| file@;
        assert(Seq::new(artifacts@.len(), |i: int| image(artifacts@[i])) =~= file_models(
            artifacts@,
        ));
        assert(Seq::new(unsorted.len(), |i: int| image(unsorted[i])) =~= file_models(unsorted));
        lemma_multiset_contains(file_models(artifacts@), file_models(unsorted));
        assert forall|file: FileModel| #[trigger]
            file_models(artifacts@).contains(file) <==> all.contains(file) && manifest_names(
                manifest@,
                file.file.name,
            ) by {
            if file_models(unsorted).contains(file) {
                let i = choose|i: int|
                    0 <= i < file_models(unsorted).len() && file_models(unsorted)[i] == file;
                assert(unsorted[i]@ == file);
            }
            if all.contains(file) && manifest_names(manifest@, file.file.name) {
                let i = choose|i: int| 0 <= i < all.len() && all[i] == file;
                assert(file_models(unsorted).contains(all[i]));
            }
        }
    }
    artifacts
}

/// The names that are not those of new files.
fn retained_names(names: Vec<String>, artifacts: &Vec<IndexFile>) -> (retained: Vec<String>)
    requires
        in_order(names@),
        distinct_names(names@),
    ensures
        in_order(retained@),
        distinct_names(retained@),
        forall|name: Seq<char>| #[trigger]
            has_name(retained@, name) <==> has_name(names@, name) && !names_file(
                file_models(artifacts@),
                name,
            ),
{
    let ghost files = file_models(artifacts@);
    let mut retained: Vec<String> = Vec::new();
    let mut i: usize = 0;
    while i < names.len()
        invariant
            i <= names@.len(),
            in_order(names@),
            distinct_names(names@),
            files == file_models(artifacts@),
            kept_names(retained@, names@.take(i as int)),
            forall|name: Seq<char>| #[trigger]
                has_name(retained@, name) <==> has_name(names@.take(i as int), name)
                    && !names_file(files, name),
        decreases names.len() - i,
    {
        let ghost before = retained@;
        let created: bool = is_created(artifacts, &names[i]);
        if !created {
            retained.push(names[i].clone());
        }
        proof {
            lemma_keep_name(before, retained@, names@, i as int, !created);
        }
        i = i + 1;
    }
    assert(names@.take(i as int) =~= names@);
    retained
}

fn count_untouched(manifest: &Manifest, artifacts: &Vec<IndexFile>) -> (count: u64)
    ensures
        count == untouched_runs(manifest@.runs, file_models(artifacts@)),
{
    let ghost views = manifest@.runs;
    let mut count: u64 = 0;
    let mut i: usize = 0;
    assert(views.take(0) =~= Seq::<RunView>::empty());
    while i < manifest.runs.len()
        invariant
            i <= manifest.runs@.len(),
            views == manifest@.runs,
            count <= i,
            count == untouched_runs(views.take(i as int), file_models(artifacts@)),
        decreases manifest.runs.len() - i,
    {
        proof {
            assert(views.take(i + 1).drop_last() =~= views.take(i as int));
            assert(views[i as int] == manifest.runs@[i as int]@);
        }
        if !is_created(artifacts, &manifest.runs[i].identities.name) && !is_created(
            artifacts,
            &manifest.runs[i].node_surrogates.name,
        ) {
            count = count + 1;
        }
        i = i + 1;
    }
    assert(views.take(i as int) =~= views);
    count
}

/// Whether an encoding is that of a shaped stream on top of a parent.
pub open spec fn encodes(
    encoding: ConstructionIndexEncoding,
    states: Seq<CarryModel>,
    input: Seq<u8>,
    generation: u64,
    parent_generation: u64,
    parent: Option<IndexModel>,
    live_nodes: u64,
    live_edges: u64,
    cancelled: Option<u64>,
) -> bool {
    let done = states.last();
    &&& carry_chain(states, generation)
    &&& states.len() == 65
    &&& goes_on(cancelled, stream_questions(input.len()) + questions(states))
    &&& stream_start(states[0], input, generation, parent_generation, parent)
    &&& carried_index(encoding.index@, done, generation, parent, live_nodes, live_edges)
    &&& descriptors_valid(encoding.index@.manifest())
    &&& publication(encoding, done.created)
    &&& encoding.input_records == stream_rows(input).len()
    &&& encoding.created_runs == done.created.len()
    &&& encoding.retained_runs == if parent is Some {
        untouched_runs(encoding.index@.manifest().runs, file_models(encoding.artifacts@))
    } else {
        0
    }
    &&& encoding.retained_payload_bytes == done.retained_payload_bytes
}

/// Whether the carry of a shaped stream on top of a parent fails.
pub open spec fn carry_fails(
    states: Seq<CarryModel>,
    error: GfError,
    input: Seq<u8>,
    generation: u64,
    parent_generation: u64,
    parent: Option<IndexModel>,
    live_nodes: u64,
    live_edges: u64,
    cancelled: Option<u64>,
) -> bool {
    &&& carry_chain(states, generation)
    &&& stream_start(states[0], input, generation, parent_generation, parent)
    &&& goes_on(cancelled, stream_questions(input.len()))
    &&& {
        ||| stopped(states, later_question(cancelled, stream_questions(input.len())), error)
        ||| states.len() == 65 && goes_on(
            cancelled,
            stream_questions(input.len()) + questions(states),
        ) && invalid_descriptors(
            states.last(),
            error,
            generation,
            parent,
            live_nodes,
            live_edges,
        )
    }
}

/// Whether a carry leads to an index whose descriptors are refused.
pub open spec fn invalid_descriptors(
    done: CarryModel,
    error: GfError,
    generation: u64,
    parent: Option<IndexModel>,
    live_nodes: u64,
    live_edges: u64,
) -> bool {
    &&& error.is_storage("UUID index run descriptors are invalid"@)
    &&& exists|index: IndexModel|
        carried_index(index, done, generation, parent, live_nodes, live_edges)
            && !descriptors_valid(#[trigger] index.manifest())
}

/// Bytes of the shaped stream that are read at a time: whole rows.
pub const STREAM_BLOCK_BYTES: usize = 1_048_554;

/// Questions whether to go on that reading a shaped stream takes: one before
/// each block.
pub open spec fn stream_questions(bytes: nat) -> nat {
    (bytes + 1_048_553) / 1_048_554
}

/// The part of a shaped stream that is read before the question that is
/// answered with no.
pub open spec fn read_part(input: Seq<u8>, cancelled: Option<u64>) -> Seq<u8> {
    if cancelled is Some && cancelled->0 * 1_048_554 < input.len() {
        input.take(cancelled->0 * 1_048_554)
    } else {
        input
    }
}

/// Start a carry from old runs and new identities; an empty graph gets an
/// empty base run first.
fn start_carry(
    runs: Vec<OpenRun>,
    delta: &ConstructionDelta,
    generation: u64,
    with_base: bool,
) -> (state: CarryState)
    requires
        ordered(delta.identities@),
        all_valid(delta.identities@),
        ordered(delta.surrogates@),
        delta.surrogates@.len() <= delta.identities@.len(),
    ensures
        carry_start(
            state@,
            run_models(runs@),
            delta.identities@,
            delta.surrogates@,
            generation,
            with_base,
        ),
{
    let ghost parent_seq = run_models(runs@);
    let node_count: u64 = delta.surrogates.len() as u64;
    let edge_count: u64 = delta.identities.len() as u64 - node_count;
    proof {
        assert forall|i: int| 0 <= i < delta.surrogates@.len() implies (
        #[trigger] delta.surrogates@[i]).valid() by {}
    }
    let identities: IndexFile = describe_run::<Identity>(
        "identities-v5",
        generation,
        &delta.identities,
    );
    let surrogates: IndexFile = describe_run::<NodeSurrogate>(
        "node-surrogates-v5",
        generation,
        &delta.surrogates,
    );
    let mut state = CarryState {
        runs,
        created: Vec::new(),
        retained_payload_bytes: 0,
    };
    assert(state@.created =~= Seq::<FileModel>::empty());
    let run = RunRecord {
        base: false,
        level: 0,
        first_generation: generation,
        last_generation: generation,
        identities: identities.record.duplicate(),
        node_surrogates: surrogates.record.duplicate(),
        node_count,
        edge_count,
        deleted_node_count: 0,
        deleted_edge_count: 0,
    };
    let ghost delta_model = RunModel {
        run: run@,
        identities: identities@.bytes,
        node_surrogates: surrogates@.bytes,
    };
    assert(delta_run(delta_model, delta.identities@, delta.surrogates@, generation));
    if with_base {
        let no_identities: Vec<Identity> = Vec::new();
        let no_surrogates: Vec<NodeSurrogate> = Vec::new();
        let base_identities: IndexFile = describe_run::<Identity>(
            "identities-v5-base",
            0,
            &no_identities,
        );
        let base_surrogates: IndexFile = describe_run::<NodeSurrogate>(
            "node-surrogates-v5-base",
            0,
            &no_surrogates,
        );
        let base = RunRecord {
            base: true,
            level: 0,
            first_generation: 0,
            last_generation: 0,
            identities: base_identities.record.duplicate(),
            node_surrogates: base_surrogates.record.duplicate(),
            node_count: 0,
            edge_count: 0,
            deleted_node_count: 0,
            deleted_edge_count: 0,
        };
        let ghost base_model = RunModel {
            run: base@,
            identities: base_identities@.bytes,
            node_surrogates: base_surrogates@.bytes,
        };
        assert(empty_base(base_model));
        let delta_run = OpenRun {
            descriptor: run,
            identities: slice_to_vec(identities.bytes.as_slice()),
            node_surrogates: slice_to_vec(surrogates.bytes.as_slice()),
        };
        assert(delta_run@ == delta_model);
        state.created.push(identities);
        state.created.push(surrogates);
        assert(state@.created =~= run_files(delta_model));
        push_run(&mut state, base, base_identities, base_surrogates);
        let ghost before = state@.runs;
        state.runs.push(delta_run);
        proof {
            assert(run_models(state.runs@) =~= before.push(delta_model));
            assert(before =~= parent_seq.push(base_model));
            assert(state@.runs[state@.runs.len() - 2] == base_model);
        }
    } else {
        push_run(&mut state, run, identities, surrogates);
        assert(state@.created =~= run_files(delta_model));
    }
    assert(state@.runs.last() == delta_model);
    state
}

/// The index a finished carry leads to: its runs by first generation.
pub open spec fn finished_index(
    index: IndexModel,
    done: CarryModel,
    format_version: u32,
    base_generation: u64,
    generation: u64,
    live_nodes: u64,
    live_edges: u64,
) -> bool {
    &&& index.runs.to_multiset() == done.runs.to_multiset()
    &&& forall|i: int, j: int|
        0 <= i < j < index.runs.len() ==> (#[trigger] index.runs[i]).run.first_generation <= (
        #[trigger] index.runs[j]).run.first_generation
    &&& index.current_generation == generation
    &&& index.live_node_count == live_nodes
    &&& index.live_edge_count == live_edges
    &&& index.format_version == format_version
    &&& index.base_generation == base_generation
}

/// Order the carried runs, validate them and list what has to be published.
fn finish_encoding(
    state: CarryState,
    format_version: u32,
    base_generation: u64,
    generation: u64,
    live_nodes: u64,
    live_edges: u64,
    has_parent: bool,
    input_records: u64,
) -> (encoding: Result<ConstructionIndexEncoding, GfError>)
    ensures
        match encoding {
            Ok(encoding) => {
                &&& finished_index(
                    encoding.index@,
                    state@,
                    format_version,
                    base_generation,
                    generation,
                    live_nodes,
                    live_edges,
                )
                &&& descriptors_valid(encoding.index@.manifest())
                &&& publication(encoding, state@.created)
                &&& encoding.input_records == input_records
                &&& encoding.created_runs == state@.created.len()
                &&& encoding.retained_runs == if has_parent {
                    untouched_runs(
                        encoding.index@.manifest().runs,
                        file_models(encoding.artifacts@),
                    )
                } else {
                    0
                }
                &&& encoding.retained_payload_bytes == state@.retained_payload_bytes
            },
            Err(error) => {
                &&& error.is_storage("UUID index run descriptors are invalid"@)
                &&& exists|index: IndexModel|
                    finished_index(
                        index,
                        state@,
                        format_version,
                        base_generation,
                        generation,
                        live_nodes,
                        live_edges,
                    ) && !descriptors_valid(#[trigger] index.manifest())
            },
        },
{
    let ghost done = state@;
    let ghost carried_runs = state.runs@;
    let sorted: Vec<OpenRun> = sort_ranked(state.runs);
    proof {
        let image = |run: OpenRun| run@;
        lemma_multiset_images(sorted@, carried_runs, image);
        assert(Seq::new(sorted@.len(), |i: int| image(sorted@[i])) =~= run_models(sorted@));
        assert(Seq::new(carried_runs.len(), |i: int| image(carried_runs[i])) =~= run_models(
            carried_runs,
        ));
    }
    let created_runs: u64 = state.created.len() as u64;
    let retained_payload_bytes: u64 = state.retained_payload_bytes;
    let index = UuidMembershipIndex {
        format_version,
        base_generation,
        current_generation: generation,
        live_node_count: live_nodes,
        live_edge_count: live_edges,
        runs: sorted,
    };
    proof {
        assert forall|i: int, j: int| 0 <= i < j < index@.runs.len() implies (
        #[trigger] index@.runs[i]).run.first_generation <= (
        #[trigger] index@.runs[j]).run.first_generation by {
            assert(sorted@[i].not_after(sorted@[j]));
        }
        assert(finished_index(
            index@,
            done,
            format_version,
            base_generation,
            generation,
            live_nodes,
            live_edges,
        ));
    }
    let manifest: Manifest = index.manifest();
    match validate_run_descriptors(&manifest) {
        Ok(()) => {},
        Err(error) => {
            assert(!descriptors_valid(index@.manifest()));
            return Err(error);
        },
    }
    let artifacts: Vec<IndexFile> = published_files(state.created, &manifest);
    let retained: Vec<String> = retained_names(manifest_file_names(&manifest), &artifacts);
    let retained_runs: u64 = if has_parent {
        count_untouched(&manifest, &artifacts)
    } else {
        0
    };
    let final_write_bytes: u64 = count_bytes(&artifacts);
    let encoding = ConstructionIndexEncoding {
        index,
        artifacts,
        retained,
        input_records,
        final_write_bytes,
        created_runs,
        retained_runs,
        retained_payload_bytes,
    };
    Ok(encoding)
}

fn split_stream<'a>(input: &'a [u8], cancelled: Option<u64>) -> (split: (&'a [u8], Option<u64>))
    ensures
        split.0@ == read_part(input@, cancelled),
        split.0@.len() == input@.len() ==> {
            &&& goes_on(cancelled, stream_questions(input@.len()))
            &&& split.1 == later_question(cancelled, stream_questions(input@.len()))
        },
        split.0@.len() <= input@.len(),
{
    let question: u64 = match cancelled {
        Some(question) => question,
        None => {
            return (input, None);
        },
    };
    let len: usize = input.len();
    let blocks: usize = if len % STREAM_BLOCK_BYTES == 0 {
        len / STREAM_BLOCK_BYTES
    } else {
        len / STREAM_BLOCK_BYTES + 1
    };
    assert(blocks == stream_questions(len as nat));
    if question < blocks as u64 {
        let end: usize = question as usize * STREAM_BLOCK_BYTES;
        assert(question * 1_048_554 < len);
        let part: &'a [u8] = slice_subrange(input, 0, end);
        assert(part@ =~= input@.take(question * 1_048_554));
        return (part, None);
    }
    (input, Some(question - blocks as u64))
}

/// Encode a shaped identity stream as the next membership index. Parent runs
/// are taken over as they are, except where the carry of equal levels
/// consumes them. The encoding asks whether to go on before each block of the
/// stream, each look at a level and each block that a merge writes; the question
/// of number `cancelled`, counted from zero, is the first to be answered with
/// no, if one is.
#[verifier::rlimit(60)]
pub fn encode_construction_index(
    input: &[u8],
    identities_sha256: &str,
    generation: u64,
    parent_generation: u64,
    parent: Option<UuidMembershipIndex>,
    live_nodes: u64,
    live_edges: u64,
    cancelled: Option<u64>,
) -> (encoding: Result<ConstructionIndexEncoding, GfError>)
    ensures
        ({
            let parent_model = model_of(parent);
            let part = read_part(input@, cancelled);
            let fault = parent_fault(generation, parent_generation, parent_model);
            match encoding {
                Ok(encoding) => {
                    &&& fault is None
                    &&& stream_canonical(input@)
                    &&& identities_sha256@ == sha256_hex(input@)
                    &&& counts_agree(input@, parent_model, live_nodes, live_edges)
                    &&& exists|states: Seq<CarryModel>| #[trigger]
                        encodes(
                            encoding,
                            states,
                            input@,
                            generation,
                            parent_generation,
                            parent_model,
                            live_nodes,
                            live_edges,
                            cancelled,
                        )
                },
                Err(error) => if fault is Some {
                    error.is_storage(fault->0)
                } else if scan::<ConstructionRow>(input@).1 is Some {
                    error.is_storage("construction identity stream is truncated"@)
                } else if !stream_canonical(part) {
                    stream_fails(part, error)
                } else if part.len() < input@.len() {
                    error.is_storage("construction index encoding cancelled"@)
                } else if identities_sha256@ != sha256_hex(input@) {
                    error.is_storage("construction identity source digest changed"@)
                } else if !counts_agree(input@, parent_model, live_nodes, live_edges) {
                    error.is_storage("construction UUID delta counts differ from shaped counts"@)
                } else {
                    exists|states: Seq<CarryModel>| #[trigger]
                        carry_fails(
                            states,
                            error,
                            input@,
                            generation,
                            parent_generation,
                            parent_model,
                            live_nodes,
                            live_edges,
                            cancelled,
                        )
                },
            }
        }),
{
    let ghost parent_model = model_of(parent);
    let has_parent: bool = parent.is_some();
    let start: UuidMembershipIndex = match parent {
        Some(index) => {
            if parent_generation == 0 {
                return Err(storage_err("empty construction parent has UUID snapshot"));
            }
            if index.current_generation != parent_generation {
                return Err(storage_err("construction UUID parent generation changed"));
            }
            index
        },
        None => {
            if parent_generation != 0 {
                return Err(
                    storage_err(
                        "nonempty construction parent lacks authenticated UUID snapshot",
                    ),
                );
            }
            UuidMembershipIndex::empty()
        },
    };
    assert(start@.runs == parent_runs(parent_model));
    if generation != saturating_sum(parent_generation, 1) {
        return Err(storage_err("construction UUID generation is not consecutive"));
    }
    if decode::<ConstructionRow>(input).is_err() {
        return Err(storage_err("construction identity stream is truncated"));
    }
    let (part, rest): (&[u8], Option<u64>) = split_stream(input, cancelled);
    let delta: ConstructionDelta = match encode_construction_delta(part) {
        Ok(delta) => delta,
        Err(error) => {
            return Err(error);
        },
    };
    if part.len() < input.len() {
        return Err(storage_err("construction index encoding cancelled"));
    }
    assert(part@ =~= input@);
    if !same_text(hex_sha256(input).as_str(), identities_sha256) {
        return Err(storage_err("construction identity source digest changed"));
    }
    let input_records: u64 = delta.identities.len() as u64;
    let node_count: u64 = delta.surrogates.len() as u64;
    let edge_count: u64 = input_records - node_count;
    if saturating_sum(start.live_node_count, node_count) != live_nodes || saturating_sum(
        start.live_edge_count,
        edge_count,
    ) != live_edges {
        return Err(storage_err("construction UUID delta counts differ from shaped counts"));
    }
    let format_version: u32 = start.format_version;
    let base_generation: u64 = start.base_generation;
    let mut state: CarryState = start_carry(start.runs, &delta, generation, parent_generation == 0);
    let ghost start_model = state@;
    assert(stream_start(start_model, input@, generation, parent_generation, parent_model));
    match compact_construction_levels(&mut state, generation, rest) {
        Ok(()) => {},
        Err(error) => {
            proof {
                let states = choose|states: Seq<CarryModel>|
                    carry_chain(states, generation) && states[0] == start_model
                        && #[trigger] stopped(states, rest, error);
                assert(carry_fails(
                    states,
                    error,
                    input@,
                    generation,
                    parent_generation,
                    parent_model,
                    live_nodes,
                    live_edges,
                    cancelled,
                ));
            }
            return Err(error);
        },
    }
    let ghost states = choose|states: Seq<CarryModel>|
        carry_chain(states, generation) && states.len() == 65 && states[0] == start_model
            && goes_on(rest, questions(states)) && #[trigger] states.last() == state@;
    match finish_encoding(
        state,
        format_version,
        base_generation,
        generation,
        live_nodes,
        live_edges,
        has_parent,
        input_records,
    ) {
        Ok(encoding) => {
            assert(encodes(
                encoding,
                states,
                input@,
                generation,
                parent_generation,
                parent_model,
                live_nodes,
                live_edges,
                cancelled,
            ));
            Ok(encoding)
        },
        Err(error) => {
            proof {
                let index = choose|index: IndexModel|
                    finished_index(
                        index,
                        states.last(),
                        format_version,
                        base_generation,
                        generation,
                        live_nodes,
                        live_edges,
                    ) && !descriptors_valid(#[trigger] index.manifest());
                assert(carried_index(
                    index,
                    states.last(),
                    generation,
                    parent_model,
                    live_nodes,
                    live_edges,
                ));
                assert(carry_fails(
                    states,
                    error,
                    input@,
                    generation,
                    parent_generation,
                    parent_model,
                    live_nodes,
                    live_edges,
                    cancelled,
                ));
            }
            Err(error)
        },
    }
}


} // verus!
