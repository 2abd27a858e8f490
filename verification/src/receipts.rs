//! Receipts that bind an index manifest to the topology transition it was
//! staged with.
use vstd::prelude::*;
use vstd::string::*;

use crate::bytes::same_bytes;
use crate::digest::{hex_sha256, sha256_hex};
use crate::error::{GfError, storage_err};
use crate::index_format::FORMAT_VERSION;
use crate::ordinal_format::ORDINAL_IDENTITY_V4;

verus! {

/// Directory of the identity indexes below a graph root.
pub const INDEX_DIR: &'static str = "topology/uuid-membership";

/// Receipt of an index manifest.
#[derive(Debug, PartialEq, Eq)]
pub struct TopologyIndexReceipt {
    /// Nonce of the transaction.
    pub nonce: String,
    /// Topology generation that the manifest belongs to.
    pub expected_generation: u64,
    /// Digest of the topology delta.
    pub topology_delta_sha256: String,
    /// Digest of the manifest.
    pub manifest_sha256: String,
}

/// Model of a [`TopologyIndexReceipt`].
#[verifier::ext_equal]
pub struct ReceiptView {
    pub nonce: Seq<char>,
    pub expected_generation: u64,
    pub topology_delta_sha256: Seq<char>,
    pub manifest_sha256: Seq<char>,
}

impl View for TopologyIndexReceipt {
    type V = ReceiptView;

    open spec fn view(&self) -> ReceiptView {
        ReceiptView {
            nonce: self.nonce@,
            expected_generation: self.expected_generation,
            topology_delta_sha256: self.topology_delta_sha256@,
            manifest_sha256: self.manifest_sha256@,
        }
    }
}

/// The receipt of a manifest.
pub fn topology_receipt(
    nonce: &str,
    generation: u64,
    topology_delta_sha256: &str,
    manifest: &Vec<u8>,
) -> (receipt: TopologyIndexReceipt)
    ensures
        receipt@ == (ReceiptView {
            nonce: nonce@,
            expected_generation: generation,
            topology_delta_sha256: topology_delta_sha256@,
            manifest_sha256: sha256_hex(manifest@),
        }),
{
    TopologyIndexReceipt {
        nonce: nonce.to_owned(),
        expected_generation: generation,
        topology_delta_sha256: topology_delta_sha256.to_owned(),
        manifest_sha256: hex_sha256(manifest.as_slice()),
    }
}

/// Auxiliary record that a topology rewrite commits with.
#[derive(Debug, PartialEq, Eq)]
pub struct AuxiliaryReceipt {
    /// Kind of the auxiliary.
    pub kind: String,
    /// Version of its format.
    pub schema_version: u32,
    /// Path of the receipt below the graph root.
    pub path: String,
    /// Hexadecimal SHA-256 digest of the receipt.
    pub digest: String,
    /// Length of the receipt.
    pub bytes: u64,
}

/// Model of an [`AuxiliaryReceipt`].
#[verifier::ext_equal]
pub struct AuxiliaryView {
    pub kind: Seq<char>,
    pub schema_version: u32,
    pub path: Seq<char>,
    pub digest: Seq<char>,
    pub bytes: u64,
}

impl View for AuxiliaryReceipt {
    type V = AuxiliaryView;

    open spec fn view(&self) -> AuxiliaryView {
        AuxiliaryView {
            kind: self.kind@,
            schema_version: self.schema_version,
            path: self.path@,
            digest: self.digest@,
            bytes: self.bytes,
        }
    }
}

/// Which index a receipt belongs to.
#[derive(Clone, Copy, Debug, PartialEq, Eq, Structural)]
pub enum IndexFacet {
    /// The UUID membership index.
    Membership,
    /// The ordinal identity.
    Ordinal,
}

/// The kind of the auxiliary record of an index.
pub open spec fn facet_kind(facet: IndexFacet) -> Seq<char> {
    match facet {
        IndexFacet::Membership => "uuid-membership/v5"@,
        IndexFacet::Ordinal => "uuid-membership/v4"@,
    }
}

/// The format version in the auxiliary record of an index.
pub open spec fn facet_version(facet: IndexFacet) -> u32 {
    match facet {
        IndexFacet::Membership => FORMAT_VERSION,
        IndexFacet::Ordinal => ORDINAL_IDENTITY_V4,
    }
}

/// The auxiliary record of an encoded receipt.
pub fn auxiliary_receipt(facet: IndexFacet, receipt_name: &str, receipt: &Vec<u8>) -> (auxiliary:
    AuxiliaryReceipt)
    ensures
        auxiliary@ == (AuxiliaryView {
            kind: facet_kind(facet),
            schema_version: facet_version(facet),
            path: INDEX_DIR@ + "/"@ + receipt_name@,
            digest: sha256_hex(receipt@),
            bytes: receipt@.len() as u64,
        }),
{
    let kind: String = match facet {
        IndexFacet::Membership => "uuid-membership/v5".to_owned(),
        IndexFacet::Ordinal => "uuid-membership/v4".to_owned(),
    };
    let schema_version: u32 = match facet {
        IndexFacet::Membership => FORMAT_VERSION,
        IndexFacet::Ordinal => ORDINAL_IDENTITY_V4,
    };
    AuxiliaryReceipt {
        kind,
        schema_version,
        path: crate::error::concat3(INDEX_DIR, "/", receipt_name),
        digest: hex_sha256(receipt.as_slice()),
        bytes: receipt.len() as u64,
    }
}

/// Whether a rewrite that reported an error took place after all.
#[derive(Clone, Copy, Debug, PartialEq, Eq, Structural)]
pub enum AuxiliaryReconcileOutcome {
    /// It did.
    Committed,
    /// It did not.
    NotCommitted,
}

/// Whether a receipt authenticates the manifest that was staged for a
/// generation.
pub open spec fn authenticates_manifest(
    facet: IndexFacet,
    receipt: ReceiptView,
    generation: u64,
    found: Seq<u8>,
    expected: Seq<u8>,
) -> bool {
    &&& receipt.expected_generation == generation
    &&& receipt.manifest_sha256 == sha256_hex(found)
    &&& match facet {
        IndexFacet::Membership => receipt.manifest_sha256 == sha256_hex(expected),
        IndexFacet::Ordinal => found == expected,
    }
}

/// What is said where a committed receipt does not authenticate its manifest.
pub open spec fn unauthenticated(facet: IndexFacet) -> Seq<char> {
    match facet {
        IndexFacet::Membership => "committed UUID receipt does not authenticate the expected manifest"@,
        IndexFacet::Ordinal => "committed v4 ordinal receipt does not authenticate the expected manifest"@,
    }
}

/// Check a committed receipt against the installed manifest and the one that
/// was staged.
pub fn reconcile_auxiliary(
    facet: IndexFacet,
    receipt: &TopologyIndexReceipt,
    generation: u64,
    found: &Vec<u8>,
    expected: &Vec<u8>,
) -> (checked: Result<(), GfError>)
    ensures
        match checked {
            Ok(()) => authenticates_manifest(facet, receipt@, generation, found@, expected@),
            Err(error) => !authenticates_manifest(facet, receipt@, generation, found@, expected@)
                && error.is_storage(unauthenticated(facet)),
        },
{
    match facet {
        IndexFacet::Membership => {
            if receipt.expected_generation != generation || receipt.manifest_sha256 != hex_sha256(
                found.as_slice(),
            ) || receipt.manifest_sha256 != hex_sha256(expected.as_slice()) {
                return Err(
                    storage_err(
                        "committed UUID receipt does not authenticate the expected manifest",
                    ),
                );
            }
        },
        IndexFacet::Ordinal => {
            if receipt.expected_generation != generation || receipt.manifest_sha256 != hex_sha256(
                found.as_slice(),
            ) || !same_bytes(found.as_slice(), expected.as_slice()) {
                return Err(
                    storage_err(
                        "committed v4 ordinal receipt does not authenticate the expected manifest",
                    ),
                );
            }
        },
    }
    Ok(())
}

/// Admit a control record by its length.
pub fn admit_control_record(length: u64, maximum: u64) -> (admitted: Result<(), GfError>)
    ensures
        match admitted {
            Ok(()) => length <= maximum,
            Err(error) => length > maximum && error.is_storage(
                "recovery control record exceeds size limit"@,
            ),
        },
{
    if length > maximum {
        return Err(storage_err("recovery control record exceeds size limit"));
    }
    Ok(())
}

} // verus!
