//! Runs of the membership index with their contents: describing new files,
//! validating a manifest, and binary-carry compaction of equal levels.
use vstd::prelude::*;
use vstd::slice::*;
use vstd::string::*;

use crate::bytes::{all_ascii, ascii, ascii_string, decimal, decimal_text};
use crate::digest::{sha256_codes, sha256_hex};
use crate::error::{GfError, storage_err};
use crate::framing::{all_valid, encode, Framed, lemma_scan_packed, pack, scan};
use crate::identity_codec::Identity;
use crate::index_format::{
    blocks_maximal, describe_blocks, described_view, file_described, FileRecord, FileView,
    Manifest, ManifestView, run_views, RunRecord, RunView,
};
use crate::keyed::ordered;
use crate::records::NodeSurrogate;

verus! {

/// An index file: its record and its bytes.
#[derive(Debug, PartialEq, Eq)]
pub struct IndexFile {
    /// What the manifest says of the file.
    pub record: FileRecord,
    /// The file itself.
    pub bytes: Vec<u8>,
}

/// A run with the contents of its two files.
#[derive(Debug, PartialEq, Eq)]
pub struct OpenRun {
    /// What the manifest says of the run.
    pub descriptor: RunRecord,
    /// Bytes of the identity file.
    pub identities: Vec<u8>,
    /// Bytes of the surrogate file.
    pub node_surrogates: Vec<u8>,
}

/// Model of an [`OpenRun`].
#[verifier::ext_equal]
pub struct RunModel {
    pub run: RunView,
    pub identities: Seq<u8>,
    pub node_surrogates: Seq<u8>,
}

impl View for OpenRun {
    type V = RunModel;

    open spec fn view(&self) -> RunModel {
        RunModel {
            run: self.descriptor@,
            identities: self.identities@,
            node_surrogates: self.node_surrogates@,
        }
    }
}

/// Models of a sequence of open runs.
pub open spec fn run_models(runs: Seq<OpenRun>) -> Seq<RunModel> {
    Seq::new(runs.len(), |i: int| runs[i]@)
}

impl RunModel {
    /// The identities of the run.
    pub open spec fn identity_records(self) -> Seq<Identity> {
        scan::<Identity>(self.identities).0
    }

    /// The node surrogates of the run.
    pub open spec fn surrogate_records(self) -> Seq<NodeSurrogate> {
        scan::<NodeSurrogate>(self.node_surrogates).0
    }

    /// Whether the descriptor describes both files.
    pub open spec fn authentic(self) -> bool {
        file_described::<Identity>(self.identities, self.run.identities)
            && file_described::<NodeSurrogate>(self.node_surrogates, self.run.node_surrogates)
    }
}

/// The content-addressed name of a run file.
pub open spec fn run_name(prefix: Seq<char>, generation: u64, bytes: Seq<u8>) -> Seq<char> {
    prefix + "-"@ + ascii(decimal_text(generation as nat)) + "-"@ + sha256_hex(bytes).take(16)
        + ".uuidx"@
}

/// The record of a newly written run file: content-addressed, and cut into
/// blocks as long as whole records allow.
pub open spec fn newly_described<T: Framed>(
    file: FileView,
    bytes: Seq<u8>,
    prefix: Seq<char>,
    generation: u64,
) -> bool {
    &&& file_described::<T>(bytes, file)
    &&& blocks_maximal::<T>(bytes, file.blocks)
    &&& file.name == run_name(prefix, generation, bytes)
}

/// The content-addressed name of a run file.
pub fn content_name(prefix: &str, generation: u64, bytes: &[u8]) -> (name: String)
    ensures
        name@ == run_name(prefix@, generation, bytes@),
{
    let codes: Vec<u8> = sha256_codes(bytes);
    let head: Vec<u8> = slice_to_vec(slice_subrange(codes.as_slice(), 0, 16));
    assert(all_ascii(head@)) by {
        assert forall|i: int| 0 <= i < head@.len() implies #[trigger] head@[i] < 128 by {
            assert(codes@[i] < 128);
        }
    }
    let digest: String = ascii_string(head);
    assert(digest@ =~= sha256_hex(bytes@).take(16));
    let mut name: String = prefix.to_owned();
    name.append("-");
    name.append(decimal(generation).as_str());
    name.append("-");
    name.append(digest.as_str());
    name.append(".uuidx");
    name
}

/// Write ordered records as a new run file.
pub fn describe_run<T: Framed>(prefix: &str, generation: u64, items: &Vec<T>) -> (file: IndexFile)
    requires
        all_valid(items@),
        ordered(items@),
    ensures
        file.bytes@ == pack(items@),
        newly_described::<T>(file.record@, file.bytes@, prefix@, generation),
{
    let bytes: Vec<u8> = encode(items);
    proof {
        lemma_scan_packed(items@);
    }
    let name: String = content_name(prefix, generation, bytes.as_slice());
    match describe_blocks::<T>(bytes.as_slice()) {
        Ok((sha256, blocks, count)) => {
            let ghost view = described_view(name@, sha256@, blocks@, count);
            let record = FileRecord { name, count, sha256, blocks };
            assert(record@ == view);
            IndexFile { record, bytes }
        },
        Err(_) => {
            assert(false);
            IndexFile {
                record: FileRecord {
                    name,
                    count: 0,
                    sha256: String::new(),
                    blocks: Vec::new(),
                },
                bytes,
            }
        },
    }
}

/// Whether a run covers some generations and the next one starts where it
/// ends; the last one ends with the current generation.
pub open spec fn link_at(manifest: ManifestView, i: int) -> bool {
    let runs = manifest.runs;
    runs[i].first_generation <= runs[i].last_generation && runs[i].last_generation + 1 == if i + 1
        < runs.len() {
        runs[i + 1].first_generation as int
    } else {
        manifest.current_generation + 1
    }
}

/// Whether the runs of a manifest are one base run followed by runs that
/// continue it generation by generation up to the current one.
pub open spec fn descriptors_valid(manifest: ManifestView) -> bool {
    let runs = manifest.runs;
    &&& runs.len() > 0
    &&& runs[0].base
    &&& runs[0].first_generation == 0
    &&& runs[0].last_generation == manifest.base_generation
    &&& forall|i: int| 1 <= i < runs.len() ==> !(#[trigger] runs[i]).base
    &&& forall|i: int| 0 <= i < runs.len() ==> #[trigger] link_at(manifest, i)
}

/// Validate the run descriptors of a manifest.
pub fn validate_run_descriptors(manifest: &Manifest) -> (checked: Result<(), GfError>)
    ensures
        match checked {
            Ok(()) => descriptors_valid(manifest@),
            Err(error) => !descriptors_valid(manifest@) && error.is_storage(
                "UUID index run descriptors are invalid"@,
            ),
        },
{
    let runs: &Vec<RunRecord> = &manifest.runs;
    let ghost views = manifest@.runs;
    if runs.len() == 0 {
        return Err(storage_err("UUID index run descriptors are invalid"));
    }
    assert(views[0] == runs@[0]@);
    if !runs[0].base || runs[0].first_generation != 0 || runs[0].last_generation
        != manifest.base_generation {
        return Err(storage_err("UUID index run descriptors are invalid"));
    }
    let mut i: usize = 0;
    while i < runs.len()
        invariant
            i <= runs@.len(),
            runs@.len() > 0,
            views == run_views(runs@),
            *runs == manifest.runs,
            views == manifest@.runs,
            forall|j: int| 1 <= j < i ==> !(#[trigger] views[j]).base,
            forall|j: int| 0 <= j < i ==> #[trigger] link_at(manifest@, j),
        decreases runs.len() - i,
    {
        let expected: u64 = if i + 1 < runs.len() {
            runs[i + 1].first_generation
        } else {
            manifest.current_generation
        };
        let last: u64 = runs[i].last_generation;
        let ends: bool = if i + 1 < runs.len() {
            last < u64::MAX && last + 1 == expected
        } else {
            last == expected
        };
        assert(views[i as int] == runs@[i as int]@);
        if i + 1 < runs.len() {
            assert(views[i + 1] == runs@[i + 1]@);
        }
        if (i > 0 && runs[i].base) || runs[i].first_generation > last || !ends {
            assert(i == 0 || !views[i as int].base ==> !link_at(manifest@, i as int));
            return Err(storage_err("UUID index run descriptors are invalid"));
        }
        assert(link_at(manifest@, i as int));
        i = i + 1;
    }
    Ok(())
}

/// The positions of the runs of one level, the base run apart.
pub open spec fn members(runs: Seq<RunModel>, level: u8) -> Seq<int>
    decreases runs.len(),
{
    if runs.len() == 0 {
        Seq::empty()
    } else {
        let before = members(runs.drop_last(), level);
        if !runs.last().run.base && runs.last().run.level == level {
            before.push(runs.len() - 1)
        } else {
            before
        }
    }
}

/// The positions of a level are increasing and hold its runs.
pub proof fn lemma_members(runs: Seq<RunModel>, level: u8)
    ensures
        forall|k: int|
            0 <= k < members(runs, level).len() ==> 0 <= #[trigger] members(runs, level)[k]
                < runs.len() && !runs[members(runs, level)[k]].run.base
                && runs[members(runs, level)[k]].run.level == level,
        forall|k: int, m: int|
            0 <= k < m < members(runs, level).len() ==> #[trigger] members(runs, level)[k]
                < #[trigger] members(runs, level)[m],
        forall|i: int|
            0 <= i < runs.len() && !(#[trigger] runs[i]).run.base && runs[i].run.level == level
                ==> members(runs, level).contains(i),
    decreases runs.len(),
{
    if runs.len() > 0 {
        let rest = runs.drop_last();
        lemma_members(rest, level);
        let before = members(rest, level);
        let all = members(runs, level);
        assert forall|k: int| 0 <= k < all.len() implies 0 <= #[trigger] all[k] < runs.len()
            && !runs[all[k]].run.base && runs[all[k]].run.level == level by {
            if k < before.len() {
                assert(all[k] == before[k]);
                assert(rest[before[k]] == runs[before[k]]);
            }
        }
        assert forall|k: int, m: int| 0 <= k < m < all.len() implies #[trigger] all[k]
            < #[trigger] all[m] by {
            assert(all[k] == before[k]);
            if m < before.len() {
                assert(all[m] == before[m]);
            }
        }
        assert forall|i: int|
            0 <= i < runs.len() && !(#[trigger] runs[i]).run.base && runs[i].run.level
                == level implies all.contains(i) by {
            if i < rest.len() {
                assert(rest[i] == runs[i]);
                assert(before.contains(i));
                let k = choose|k: int| 0 <= k < before.len() && before[k] == i;
                assert(all[k] == i);
            } else {
                assert(all[all.len() - 1] == i);
            }
        }
    }
}

/// The positions of the runs of one level, the base run apart.
pub fn level_members(runs: &Vec<OpenRun>, level: u8) -> (positions: Vec<usize>)
    ensures
        positions@.len() == members(run_models(runs@), level).len(),
        forall|k: int|
            0 <= k < positions@.len() ==> #[trigger] positions@[k] == members(
                run_models(runs@),
                level,
            )[k],
{
    let mut positions: Vec<usize> = Vec::new();
    let mut i: usize = 0;
    let ghost models = run_models(runs@);
    assert(models.take(0) =~= Seq::<RunModel>::empty());
    while i < runs.len()
        invariant
            i <= runs@.len(),
            models == run_models(runs@),
            positions@.len() == members(models.take(i as int), level).len(),
            forall|k: int|
                0 <= k < positions@.len() ==> #[trigger] positions@[k] == members(
                    models.take(i as int),
                    level,
                )[k],
        decreases runs.len() - i,
    {
        proof {
            assert(models.take(i + 1).drop_last() =~= models.take(i as int));
            assert(models.take(i + 1).last() == runs@[i as int]@);
        }
        if !runs[i].descriptor.base && runs[i].descriptor.level == level {
            positions.push(i);
        }
        i = i + 1;
    }
    assert(models.take(i as int) =~= models);
    positions
}

/// The older and the newer of the two runs of a level.
pub open spec fn level_pair(runs: Seq<RunModel>, level: u8) -> (RunModel, RunModel) {
    let at = members(runs, level);
    if runs[at[0]].run.first_generation <= runs[at[1]].run.first_generation {
        (runs[at[0]], runs[at[1]])
    } else {
        (runs[at[1]], runs[at[0]])
    }
}

/// The runs that are left when the two runs of a level are taken out.
pub open spec fn without_pair(runs: Seq<RunModel>, level: u8) -> Seq<RunModel> {
    let at = members(runs, level);
    runs.remove(at[1]).remove(at[0])
}

/// Whether the newer run starts where the older one ends.
pub open spec fn adjacent(older: RunView, newer: RunView) -> bool {
    (if older.last_generation == u64::MAX {
        u64::MAX as int
    } else {
        older.last_generation + 1
    }) == newer.first_generation
}

/// Take the two runs of a level out, the older one first.
pub fn take_pair(runs: &mut Vec<OpenRun>, level: u8, positions: &Vec<usize>) -> (pair: (
    OpenRun,
    OpenRun,
))
    requires
        members(run_models(old(runs)@), level).len() == 2,
        positions@.len() == 2,
        forall|k: int|
            0 <= k < 2 ==> #[trigger] positions@[k] == members(run_models(old(runs)@), level)[k],
    ensures
        pair.0@ == level_pair(run_models(old(runs)@), level).0,
        pair.1@ == level_pair(run_models(old(runs)@), level).1,
        run_models(final(runs)@) == without_pair(run_models(old(runs)@), level),
{
    let ghost before = run_models(runs@);
    proof {
        lemma_members(before, level);
    }
    let first: usize = positions[0];
    let second: usize = positions[1];
    let later: OpenRun = runs.remove(second);
    let earlier: OpenRun = runs.remove(first);
    assert(run_models(runs@) =~= without_pair(before, level));
    if earlier.descriptor.first_generation <= later.descriptor.first_generation {
        (earlier, later)
    } else {
        (later, earlier)
    }
}

} // verus!
