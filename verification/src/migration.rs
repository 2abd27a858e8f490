//! Bringing the identity index of a graph up to date.
use vstd::prelude::*;
use vstd::slice::*;
use vstd::string::*;
use vstd::utf8::*;

use crate::bytes::{ends_with, has_prefix, has_suffix, same_text, starts_with};
use crate::digest::{hex_sha256, sha256_hex};
use crate::error::{GfError, storage_err};
use crate::external_sort::UuidIndexBuildLimits;
use crate::index_format::{FORMAT_VERSION, Manifest};
use crate::membership::IndexModel;
use crate::rebuild::{
    EdgeRow, NodeRow, rebuild_fault, rebuild_uuid_membership_indexes, rebuilt, RebuiltIndex,
};
use crate::receipts::{ReceiptView, topology_receipt, TopologyIndexReceipt};
use crate::runs::{descriptors_valid, validate_run_descriptors};

verus! {

/// Generation that a manifest of this format describes.
pub open spec fn generation_of(manifest: Option<Manifest>) -> Option<u64> {
    match manifest {
        Some(manifest) => if manifest@.format_version == FORMAT_VERSION {
            Some(manifest@.current_generation)
        } else {
            None
        },
        None => None,
    }
}

/// Generation that the manifest of a graph describes, where there is one of
/// this format.
pub fn manifest_generation(manifest: &Option<Manifest>) -> (generation: Result<
    Option<u64>,
    GfError,
>)
    ensures
        match generation {
            Ok(generation) => generation == generation_of(*manifest) && (*manifest is Some
                ==> descriptors_valid((*manifest)->0@)),
            Err(error) => *manifest is Some && !descriptors_valid((*manifest)->0@)
                && error.is_storage("UUID index run descriptors are invalid"@),
        },
{
    match manifest {
        None => Ok(None),
        Some(manifest) => match validate_run_descriptors(manifest) {
            Ok(()) => if manifest.format_version == FORMAT_VERSION {
                Ok(Some(manifest.current_generation))
            } else {
                Ok(None)
            },
            Err(error) => Err(error),
        },
    }
}

/// The topology of a graph.
#[derive(Debug, PartialEq, Eq)]
pub struct Topology {
    /// Generation.
    pub generation: u64,
    /// Nodes.
    pub nodes: Vec<NodeRow>,
    /// Edges.
    pub edges: Vec<EdgeRow>,
}

/// Whether a migration gives this.
pub open spec fn migrates(
    result: Result<Option<RebuiltIndex>, GfError>,
    manifest: Option<Manifest>,
    topology: Topology,
    limits: UuidIndexBuildLimits,
    force: bool,
) -> bool {
    let valid = manifest is Some ==> descriptors_valid(manifest->0@);
    let fault = rebuild_fault(topology.nodes@, topology.edges@, limits);
    if !force && !valid {
        result matches Err(error) && error.is_storage("UUID index run descriptors are invalid"@)
    } else if !force && generation_of(manifest) == Some(topology.generation) {
        result matches Ok(None)
    } else {
        match result {
            Ok(Some(index)) => {
                &&& fault is None
                &&& rebuilt(
                    index.index@,
                    index.metrics,
                    topology.generation,
                    topology.nodes@,
                    topology.edges@,
                    limits,
                )
            },
            Ok(None) => false,
            Err(error) => fault is Some && error.is_storage(fault->0),
        }
    }
}

/// Rebuild the index of a graph unless its manifest already describes the
/// generation of the topology; by force, in any case.
pub fn migrate_uuid_membership_indexes(
    manifest: &Option<Manifest>,
    topology: &Topology,
    limits: UuidIndexBuildLimits,
    force: bool,
) -> (result: Result<Option<RebuiltIndex>, GfError>)
    ensures
        migrates(result, *manifest, *topology, limits, force),
{
    if !force {
        match manifest_generation(manifest) {
            Ok(Some(generation)) => {
                if generation == topology.generation {
                    return Ok(None);
                }
            },
            Ok(None) => {},
            Err(error) => {
                return Err(error);
            },
        }
    }
    match rebuild_uuid_membership_indexes(
        topology.generation,
        &topology.nodes,
        &topology.edges,
        limits,
    ) {
        Ok(index) => Ok(Some(index)),
        Err(error) => Err(error),
    }
}

/// A migrated index is up to date: another migration has nothing to do.
pub proof fn lemma_migrated_fresh(
    index: IndexModel,
    metrics: crate::external_sort::UuidIndexBuildMetrics,
    topology: Topology,
    limits: UuidIndexBuildLimits,
    manifest: Manifest,
    result: Result<Option<RebuiltIndex>, GfError>,
)
    requires
        rebuild_fault(topology.nodes@, topology.edges@, limits) is None,
        rebuilt(index, metrics, topology.generation, topology.nodes@, topology.edges@, limits),
        manifest@ == index.manifest(),
        migrates(result, Some(manifest), topology, limits, false),
    ensures
        result == Ok::<Option<RebuiltIndex>, GfError>(None),
{
    crate::rebuild::lemma_rebuilt_answers(
        index,
        metrics,
        topology.generation,
        topology.nodes@,
        topology.edges@,
        limits,
        0,
    );
}

/// The receipt of a migrated index.
pub fn migration_receipt(nonce: &str, generation: u64, manifest: &Vec<u8>) -> (receipt:
    TopologyIndexReceipt)
    ensures
        receipt@ == (ReceiptView {
            nonce: nonce@,
            expected_generation: generation,
            topology_delta_sha256: sha256_hex(encode_utf8("uuid-membership-migration"@)),
            manifest_sha256: sha256_hex(manifest@),
        }),
{
    let delta: String = hex_sha256("uuid-membership-migration".as_bytes());
    topology_receipt(nonce, generation, delta.as_str(), manifest)
}

/// The receipt of a rebuilt ordinal identity.
pub fn ordinal_rebuild_receipt(nonce: &str, generation: u64, manifest: &Vec<u8>) -> (receipt:
    TopologyIndexReceipt)
    ensures
        receipt@ == (ReceiptView {
            nonce: nonce@,
            expected_generation: generation,
            topology_delta_sha256: sha256_hex(
                encode_utf8("uuid-membership-v4-canonical-rebuild"@),
            ),
            manifest_sha256: sha256_hex(manifest@),
        }),
{
    let delta: String = hex_sha256("uuid-membership-v4-canonical-rebuild".as_bytes());
    topology_receipt(nonce, generation, delta.as_str(), manifest)
}

/// Whether a path is that of a file of the canonical node topology.
pub open spec fn is_node_topology_path(path: Seq<char>) -> bool {
    let bytes = encode_utf8(path);
    let directory = encode_utf8("topology/nodes/"@);
    let name = bytes.skip(directory.len() as int);
    ||| path == "topology/nodes.parquet"@
    ||| {
        &&& starts_with(bytes, directory)
        &&& !name.contains(47u8)
        &&& ends_with(name, encode_utf8(".parquet"@))
    }
}

/// Whether a path is that of a file of the canonical node topology.
pub fn canonical_node_topology_inventory_path(relative: &str) -> (yes: bool)
    ensures
        yes == is_node_topology_path(relative@),
{
    if same_text(relative, "topology/nodes.parquet") {
        return true;
    }
    let bytes: &[u8] = relative.as_bytes();
    let directory: &[u8] = "topology/nodes/".as_bytes();
    if !has_prefix(bytes, directory) {
        return false;
    }
    let name: &[u8] = slice_subrange(bytes, directory.len(), bytes.len());
    assert(name@ =~= bytes@.skip(directory@.len() as int));
    let mut i: usize = 0;
    while i < name.len()
        invariant
            i <= name@.len(),
            forall|j: int| 0 <= j < i ==> name@[j] != 47,
            bytes@ == encode_utf8(relative@),
            directory@ == encode_utf8("topology/nodes/"@),
            name@ == bytes@.skip(directory@.len() as int),
            relative@ != "topology/nodes.parquet"@,
        decreases name.len() - i,
    {
        if name[i] == 47 {
            assert(name@.contains(47u8)) by {
                assert(name@[i as int] == 47);
            }
            return false;
        }
        i = i + 1;
    }
    has_suffix(name, ".parquet".as_bytes())
}

/// Where the container of a graph root begins to end: the place of
/// `generations` among the components of its path, where the graph root is
/// the graph tree of a generation.
pub open spec fn container_components(path: Seq<String>) -> Option<nat> {
    if path.len() >= 3 && path.last()@ == "graph"@ && path[path.len() - 3]@ == "generations"@ {
        Some((path.len() - 3) as nat)
    } else {
        None
    }
}

/// How many components of a graph root lead to its container; none where the
/// graph root stands alone.
pub fn container_of(path: &Vec<String>) -> (components: Option<usize>)
    ensures
        match components {
            Some(n) => container_components(path@) == Some(n as nat),
            None => container_components(path@) is None,
        },
{
    if path.len() < 3 {
        return None;
    }
    let n: usize = path.len();
    if same_text(path[n - 1].as_str(), "graph") && same_text(path[n - 3].as_str(), "generations") {
        Some(n - 3)
    } else {
        None
    }
}

/// Accept the graph tree of the selected generation and no other.
pub fn check_selected_graph(supplied: &str, selected: &str) -> (checked: Result<(), GfError>)
    ensures
        match checked {
            Ok(()) => supplied@ == selected@,
            Err(error) => supplied@ != selected@ && error.is_storage(
                "graph root is not the currently selected project generation"@,
            ),
        },
{
    if same_text(supplied, selected) {
        Ok(())
    } else {
        Err(storage_err("graph root is not the currently selected project generation"))
    }
}

} // verus!
