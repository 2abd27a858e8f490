//! Removal of index files that no authority references.
use vstd::prelude::*;
use vstd::slice::*;
use vstd::string::*;
use vstd::utf8::*;

use crate::bytes::{
    all_lower_hex, has_prefix, has_suffix, only_lower_hex, sat_add, saturating_sum, starts_with,
};
use crate::digest::{hex_sha256, sha256_hex};
use crate::error::{GfError, storage_err};
use crate::index_format::{Manifest, ManifestView};
use crate::json_documents::{json_unsigned_member, unsigned_member};
use crate::membership::{manifest_holds, manifest_names};
use crate::ordinal_format::views;
use crate::private_names::{
    all_digits, canonical_lower_hex, digits_value, lower_hex_text, parse_digits,
};
use crate::ranked::{in_order, Ranked, sort_ranked};
use crate::receipts::{ReceiptView, TopologyIndexReceipt};
use crate::runs::{descriptors_valid, validate_run_descriptors};

verus! {

/// The digits of a number with an optional sign.
pub open spec fn unsigned_digits(bytes: Seq<u8>) -> Seq<u8> {
    if bytes.len() > 1 && bytes[0] == 43 {
        bytes.skip(1)
    } else {
        bytes
    }
}

/// Whether a byte string is a nonzero 64-bit number in decimal.
pub open spec fn nonzero_number(bytes: Seq<u8>) -> bool {
    let digits = unsigned_digits(bytes);
    &&& digits.len() > 0
    &&& all_digits(digits)
    &&& 0 < digits_value(digits) <= u64::MAX
}

fn is_nonzero_number(bytes: &[u8]) -> (yes: bool)
    ensures
        yes == nonzero_number(bytes@),
{
    let signed: bool = bytes.len() > 1 && bytes[0] == 43;
    let start: usize = if signed {
        1
    } else {
        0
    };
    let digits: &[u8] = slice_subrange(bytes, start, bytes.len());
    assert(digits@ =~= unsigned_digits(bytes@));
    if digits.len() == 0 {
        return false;
    }
    match parse_digits(digits) {
        Some(value) => value != 0,
        None => false,
    }
}

/// Whether a byte is a hexadecimal digit.
pub open spec fn is_hex(byte: u8) -> bool {
    48 <= byte <= 57 || 65 <= byte <= 70 || 97 <= byte <= 102
}

/// Whether a byte string is made of hexadecimal digits only.
pub open spec fn all_hex(bytes: Seq<u8>) -> bool {
    forall|i: int| 0 <= i < bytes.len() ==> is_hex(#[trigger] bytes[i])
}

fn only_hex(bytes: &[u8]) -> (yes: bool)
    ensures
        yes == all_hex(bytes@),
{
    let mut i: usize = 0;
    while i < bytes.len()
        invariant
            i <= bytes@.len(),
            forall|k: int| 0 <= k < i ==> is_hex(#[trigger] bytes@[k]),
        decreases bytes.len() - i,
    {
        let byte: u8 = bytes[i];
        if !((48 <= byte && byte <= 57) || (65 <= byte && byte <= 70) || (97 <= byte && byte
            <= 102)) {
            assert(!is_hex(bytes@[i as int]));
            return false;
        }
        i = i + 1;
    }
    true
}

/// Whether a byte string is the kind of an ordinal artifact with its
/// generation.
pub open spec fn is_v4_stem(stem: Seq<u8>) -> bool {
    exists|kind: Seq<u8>, generation: Seq<u8>| #[trigger] v4_stem_parts(stem, kind, generation)
}

/// Whether a stem has this kind and generation text.
pub open spec fn v4_stem_parts(stem: Seq<u8>, kind: Seq<u8>, generation: Seq<u8>) -> bool {
    &&& stem == kind + seq![45u8] + generation
    &&& nonzero_number(generation)
    &&& (kind == encode_utf8("forward-v4"@) || kind == encode_utf8("ordinal-v4"@) || kind
        == encode_utf8("tombstones-v4"@))
}

fn stem_of_kind(stem: &[u8], kind: &[u8]) -> (yes: bool)
    ensures
        yes == exists|generation: Seq<u8>|
            nonzero_number(generation) && #[trigger] (kind@ + seq![45u8] + generation) == stem@,
{
    let ghost whole = stem@;
    let ghost k = kind@.len() as int;
    proof {
        if exists|generation: Seq<u8>|
            nonzero_number(generation) && #[trigger] (kind@ + seq![45u8] + generation) == whole {
            let generation = choose|generation: Seq<u8>|
                nonzero_number(generation) && #[trigger] (kind@ + seq![45u8] + generation) == whole;
            assert(whole.take(k) =~= kind@);
            assert(whole[k] == 45);
            assert(whole.skip(k + 1) =~= generation);
        }
    }
    if !has_prefix(stem, kind) || stem.len() <= kind.len() || stem[kind.len()] != 45 {
        return false;
    }
    let generation: &[u8] = slice_subrange(stem, kind.len() + 1, stem.len());
    assert(generation@ =~= whole.skip(k + 1));
    assert(kind@ + seq![45u8] + generation@ =~= whole);
    is_nonzero_number(generation)
}

fn is_canonical_v4_artifact_prefix(stem: &[u8]) -> (yes: bool)
    ensures
        yes == is_v4_stem(stem@),
{
    let forward: &str = "forward-v4";
    let ordinal: &str = "ordinal-v4";
    let tombstones: &str = "tombstones-v4";
    let a: bool = stem_of_kind(stem, forward.as_bytes());
    let b: bool = stem_of_kind(stem, ordinal.as_bytes());
    let c: bool = stem_of_kind(stem, tombstones.as_bytes());
    proof {
        if a {
            let g = choose|g: Seq<u8>|
                nonzero_number(g) && #[trigger] (encode_utf8("forward-v4"@) + seq![45u8] + g)
                    == stem@;
            assert(v4_stem_parts(stem@, encode_utf8("forward-v4"@), g));
        }
        if b {
            let g = choose|g: Seq<u8>|
                nonzero_number(g) && #[trigger] (encode_utf8("ordinal-v4"@) + seq![45u8] + g)
                    == stem@;
            assert(v4_stem_parts(stem@, encode_utf8("ordinal-v4"@), g));
        }
        if c {
            let g = choose|g: Seq<u8>|
                nonzero_number(g) && #[trigger] (encode_utf8("tombstones-v4"@) + seq![45u8] + g)
                    == stem@;
            assert(v4_stem_parts(stem@, encode_utf8("tombstones-v4"@), g));
        }
        if is_v4_stem(stem@) {
            let (kind, g) = choose|kind: Seq<u8>, g: Seq<u8>| #[trigger]
                v4_stem_parts(stem@, kind, g);
            assert(nonzero_number(g) && (kind + seq![45u8] + g) == stem@);
        }
    }
    a || b || c
}

/// Whether a name is a stem and the first 16 digits of a digest.
pub open spec fn run_name_parts(name: Seq<u8>, stem: Seq<u8>, digest: Seq<u8>) -> bool {
    &&& name == stem + seq![45u8] + digest + encode_utf8(".uuidx"@)
    &&& digest.len() == 16
    &&& if is_v4_stem(stem) {
        all_lower_hex(digest)
    } else {
        all_hex(digest) && (starts_with(stem, encode_utf8("identities-v5"@)) || starts_with(
            stem,
            encode_utf8("node-surrogates-v5"@),
        ))
    }
}

/// Whether a text is a name that an index file can have.
pub open spec fn canonical_run_name(name: Seq<char>) -> bool {
    exists|stem: Seq<u8>, digest: Seq<u8>| #[trigger]
        run_name_parts(encode_utf8(name), stem, digest)
}

/// Whether a text is a name that an index file can have.
pub fn is_canonical_run_name(name: &str) -> (yes: bool)
    ensures
        yes == canonical_run_name(name@),
{
    let bytes: &[u8] = name.as_bytes();
    let close: &str = ".uuidx";
    let tail: &[u8] = close.as_bytes();
    let ghost whole = bytes@;
    let ghost t = tail@.len() as int;
    proof {
        if canonical_run_name(name@) {
            let (stem, digest) = choose|stem: Seq<u8>, digest: Seq<u8>| #[trigger]
                run_name_parts(whole, stem, digest);
            let s = stem.len() as int;
            assert(whole.len() == s + 1 + 16 + t);
            assert(whole.skip(whole.len() - t) =~= tail@);
            assert(whole[s] == 45);
            assert(whole.subrange(s + 1, s + 17) =~= digest);
            assert(whole.subrange(0, s) =~= stem);
        }
    }
    if !has_suffix(bytes, tail) || bytes.len() < tail.len() || bytes.len() - tail.len() < 17 {
        return false;
    }
    let digest_end: usize = bytes.len() - tail.len();
    let digest_start: usize = digest_end - 16;
    let dash: usize = digest_start - 1;
    if bytes[dash] != 45 {
        return false;
    }
    let digest: &[u8] = slice_subrange(bytes, digest_start, digest_end);
    let stem: &[u8] = slice_subrange(bytes, 0, dash);
    let identities: &str = "identities-v5";
    let surrogates: &str = "node-surrogates-v5";
    let yes: bool = if is_canonical_v4_artifact_prefix(stem) {
        only_lower_hex(digest)
    } else {
        only_hex(digest) && (has_prefix(stem, identities.as_bytes()) || has_prefix(
            stem,
            surrogates.as_bytes(),
        ))
    };
    proof {
        assert(whole =~= stem@ + seq![45u8] + digest@ + tail@);
        if yes {
            assert(run_name_parts(whole, stem@, digest@));
        }
    }
    yes
}

/// A file of the index directory.
#[derive(Debug, PartialEq, Eq)]
pub struct IndexEntry {
    /// File name.
    pub name: String,
    /// Links to the file.
    pub links: u64,
    /// Length of the file.
    pub bytes: u64,
}

impl Ranked for IndexEntry {
    open spec fn not_after(self, other: Self) -> bool {
        self.name.not_after(other.name)
    }

    proof fn total(left: Self, right: Self) {
        String::total(left.name, right.name);
    }

    proof fn transitive(first: Self, second: Self, third: Self) {
        String::transitive(first.name, second.name, third.name);
    }

    fn comes_first(&self, other: &Self) -> (yes: bool) {
        self.name.comes_first(&other.name)
    }
}

/// Work of removing orphans.
#[derive(Clone, Copy, Debug, PartialEq, Eq, Structural)]
pub struct UuidIndexOrphanGcWork {
    /// Files that no authority references.
    pub candidates: u64,
    /// Files removed.
    pub removed: u64,
    /// Files left for later.
    pub deferred: u64,
    /// Files left because the limit was reached.
    pub deferred_limit: u64,
    /// Files left because they have other links.
    pub deferred_linked: u64,
    /// Bytes removed.
    pub bytes: u64,
}

/// No work.
pub open spec fn no_gc_work() -> UuidIndexOrphanGcWork {
    UuidIndexOrphanGcWork {
        candidates: 0,
        removed: 0,
        deferred: 0,
        deferred_limit: 0,
        deferred_linked: 0,
        bytes: 0,
    }
}

impl UuidIndexOrphanGcWork {
    /// No work.
    pub fn none() -> (work: UuidIndexOrphanGcWork)
        ensures
            work == no_gc_work(),
    {
        UuidIndexOrphanGcWork {
            candidates: 0,
            removed: 0,
            deferred: 0,
            deferred_limit: 0,
            deferred_linked: 0,
            bytes: 0,
        }
    }
}

/// Whether a file is one that no authority references.
pub open spec fn is_orphan(
    entry: IndexEntry,
    manifest: ManifestView,
    ordinal: Seq<Seq<char>>,
) -> bool {
    &&& !manifest_names(manifest, entry.name@)
    &&& !ordinal.contains(entry.name@)
    &&& canonical_run_name(entry.name@)
}

/// Work and removals after looking at some files in order.
pub open spec fn collected(
    entries: Seq<IndexEntry>,
    manifest: ManifestView,
    ordinal: Seq<Seq<char>>,
    maximum: usize,
) -> (UuidIndexOrphanGcWork, Seq<Seq<char>>)
    decreases entries.len(),
{
    if entries.len() == 0 {
        (no_gc_work(), Seq::empty())
    } else {
        let (work, removals) = collected(entries.drop_last(), manifest, ordinal, maximum);
        let entry = entries.last();
        if !is_orphan(entry, manifest, ordinal) {
            (work, removals)
        } else {
            let counted = UuidIndexOrphanGcWork {
                candidates: sat_add(work.candidates, 1),
                ..work
            };
            if counted.candidates > maximum {
                (
                    UuidIndexOrphanGcWork {
                        deferred: sat_add(work.deferred, 1),
                        deferred_limit: sat_add(work.deferred_limit, 1),
                        ..counted
                    },
                    removals,
                )
            } else if entry.links != 1 {
                (
                    UuidIndexOrphanGcWork {
                        deferred: sat_add(work.deferred, 1),
                        deferred_linked: sat_add(work.deferred_linked, 1),
                        ..counted
                    },
                    removals,
                )
            } else {
                (
                    UuidIndexOrphanGcWork {
                        removed: sat_add(work.removed, 1),
                        bytes: sat_add(work.bytes, entry.bytes),
                        ..counted
                    },
                    removals.push(entry.name@),
                )
            }
        }
    }
}

/// Removal is bounded, takes only files that no authority references and that
/// have no other link, and accounts for every candidate.
pub proof fn lemma_collected(
    entries: Seq<IndexEntry>,
    manifest: ManifestView,
    ordinal: Seq<Seq<char>>,
    maximum: usize,
)
    requires
        entries.len() < u64::MAX,
    ensures
        ({
            let (work, removals) = collected(entries, manifest, ordinal, maximum);
            &&& work.removed == removals.len()
            &&& work.removed <= maximum
            &&& work.candidates == work.removed + work.deferred
            &&& work.deferred == work.deferred_limit + work.deferred_linked
            &&& work.candidates <= entries.len()
            &&& forall|i: int|
                0 <= i < removals.len() ==> !manifest_names(manifest, #[trigger] removals[i])
                    && !ordinal.contains(removals[i]) && canonical_run_name(removals[i])
        }),
    decreases entries.len(),
{
    if entries.len() > 0 {
        lemma_collected(entries.drop_last(), manifest, ordinal, maximum);
    }
}

fn holds_text(names: &Vec<String>, name: &String) -> (yes: bool)
    ensures
        yes == views(names@).contains(name@),
{
    let ghost all = views(names@);
    let mut i: usize = 0;
    while i < names.len()
        invariant
            i <= names@.len(),
            all == views(names@),
            forall|k: int| 0 <= k < i ==> #[trigger] all[k] != name@,
        decreases names.len() - i,
    {
        assert(all[i as int] == names@[i as int]@);
        if names[i] == *name {
            assert(all[i as int] == name@);
            return true;
        }
        i = i + 1;
    }
    false
}

/// Decide which files to remove, at most `maximum` of them.
fn collect_orphans(
    entries: &Vec<IndexEntry>,
    manifest: &Manifest,
    ordinal: &Vec<String>,
    maximum: usize,
) -> (collection: (UuidIndexOrphanGcWork, Vec<String>))
    ensures
        collected(entries@, manifest@, views(ordinal@), maximum) == (
            collection.0,
            views(collection.1@),
        ),
{
    let ghost references = views(ordinal@);
    let mut work: UuidIndexOrphanGcWork = UuidIndexOrphanGcWork::none();
    let mut removals: Vec<String> = Vec::new();
    let mut i: usize = 0;
    assert(entries@.take(0) =~= Seq::<IndexEntry>::empty());
    assert(views(removals@) =~= Seq::<Seq<char>>::empty());
    while i < entries.len()
        invariant
            i <= entries@.len(),
            references == views(ordinal@),
            collected(entries@.take(i as int), manifest@, references, maximum) == (
                work,
                views(removals@),
            ),
        decreases entries.len() - i,
    {
        let ghost before = removals@;
        assert(entries@.take(i + 1).drop_last() =~= entries@.take(i as int));
        let entry: &IndexEntry = &entries[i];
        i = i + 1;
        if manifest_holds(manifest, &entry.name) || holds_text(ordinal, &entry.name)
            || !is_canonical_run_name(entry.name.as_str()) {
            continue ;
        }
        work.candidates = saturating_sum(work.candidates, 1);
        if work.candidates > maximum as u64 {
            work.deferred = saturating_sum(work.deferred, 1);
            work.deferred_limit = saturating_sum(work.deferred_limit, 1);
            continue ;
        }
        if entry.links != 1 {
            work.deferred = saturating_sum(work.deferred, 1);
            work.deferred_linked = saturating_sum(work.deferred_linked, 1);
            continue ;
        }
        work.removed = saturating_sum(work.removed, 1);
        work.bytes = saturating_sum(work.bytes, entry.bytes);
        removals.push(entry.name.clone());
        assert(views(removals@) =~= views(before).push(entry.name@));
    }
    assert(entries@.take(i as int) =~= entries@);
    (work, removals)
}

/// Authority of a selected generation over the membership index.
#[derive(Debug, PartialEq, Eq)]
pub struct AuthenticatedV3MembershipAuthority {
    /// Topology generation of the selection.
    pub topology_generation: u64,
    /// Digest of the selected manifest.
    pub manifest_sha256: String,
}

/// What is known of the files that an ordinal inventory references.
#[derive(Debug, PartialEq, Eq)]
pub enum OrdinalReferences {
    /// There is no ordinal inventory.
    Absent,
    /// There is one, but no selected generation authenticates it.
    Unauthenticated,
    /// The authenticated one has to be rebuilt.
    RebuildRequired,
    /// The authenticated one references these files.
    Ready(Vec<String>),
}

/// The names that an ordinal inventory references, or why they are not known.
pub open spec fn ordinal_names(references: OrdinalReferences) -> Result<
    Seq<Seq<char>>,
    Seq<char>,
> {
    match references {
        OrdinalReferences::Absent => Ok(Seq::empty()),
        OrdinalReferences::Unauthenticated => Err(
            "v4 ordinal authority requires an authenticated selected generation"@,
        ),
        OrdinalReferences::RebuildRequired => Err("v4 ordinal authority requires rebuild"@),
        OrdinalReferences::Ready(names) => Ok(views(names@)),
    }
}

/// Why orphans cannot be told, if they cannot.
pub open spec fn authority_fault(
    manifest: ManifestView,
    body: Seq<u8>,
    authority: Option<(u64, Seq<char>)>,
    references: OrdinalReferences,
) -> Option<Seq<char>> {
    match authority {
        None => Some(
            "UUID membership orphan maintenance requires selected generation authority"@,
        ),
        Some((generation, digest)) => if sha256_hex(body) != digest {
            Some("UUID membership manifest differs from selected generation authority"@)
        } else if manifest.current_generation != generation {
            Some("UUID membership generation differs from selected generation authority"@)
        } else if !descriptors_valid(manifest) {
            Some("UUID index run descriptors are invalid"@)
        } else {
            match ordinal_names(references) {
                Ok(_) => None,
                Err(text) => Some(text),
            }
        },
    }
}

/// The parts of an authority.
pub open spec fn authority_parts(authority: Option<&AuthenticatedV3MembershipAuthority>) -> Option<
    (u64, Seq<char>),
> {
    match authority {
        Some(authority) => Some((authority.topology_generation, authority.manifest_sha256@)),
        None => None,
    }
}

/// Whether work and removals are those of the files in name order.
pub open spec fn collects(
    work: UuidIndexOrphanGcWork,
    removals: Seq<Seq<char>>,
    entries: Seq<IndexEntry>,
    manifest: ManifestView,
    ordinal: Seq<Seq<char>>,
    maximum: usize,
) -> bool {
    exists|sorted: Seq<IndexEntry>|
        in_order(sorted) && sorted.to_multiset() == entries.to_multiset() && #[trigger] collected(
            sorted,
            manifest,
            ordinal,
            maximum,
        ) == (work, removals)
}

/// Decide which index files to remove: at most `maximum` files in name order
/// that neither the authenticated manifest nor the ordinal inventory
/// references.
pub fn maintain_uuid_membership_orphans(
    manifest: &Manifest,
    body: &Vec<u8>,
    authority: Option<&AuthenticatedV3MembershipAuthority>,
    references: OrdinalReferences,
    entries: Vec<IndexEntry>,
    maximum: usize,
) -> (collection: Result<(UuidIndexOrphanGcWork, Vec<String>), GfError>)
    ensures
        ({
            let fault = authority_fault(manifest@, body@, authority_parts(authority), references);
            match collection {
                Ok((work, removals)) => {
                    &&& fault is None
                    &&& collects(
                        work,
                        views(removals@),
                        entries@,
                        manifest@,
                        ordinal_names(references)->Ok_0,
                        maximum,
                    )
                },
                Err(error) => fault is Some && error.is_storage(fault->0),
            }
        }),
{
    let authority: &AuthenticatedV3MembershipAuthority = match authority {
        Some(authority) => authority,
        None => {
            return Err(
                storage_err(
                    "UUID membership orphan maintenance requires selected generation authority",
                ),
            );
        },
    };
    if hex_sha256(body.as_slice()) != authority.manifest_sha256 {
        return Err(
            storage_err("UUID membership manifest differs from selected generation authority"),
        );
    }
    if manifest.current_generation != authority.topology_generation {
        return Err(
            storage_err("UUID membership generation differs from selected generation authority"),
        );
    }
    match validate_run_descriptors(manifest) {
        Ok(()) => {},
        Err(error) => {
            return Err(error);
        },
    }
    let ordinal: Vec<String> = match references {
        OrdinalReferences::Absent => Vec::new(),
        OrdinalReferences::Unauthenticated => {
            return Err(
                storage_err("v4 ordinal authority requires an authenticated selected generation"),
            );
        },
        OrdinalReferences::RebuildRequired => {
            return Err(storage_err("v4 ordinal authority requires rebuild"));
        },
        OrdinalReferences::Ready(names) => names,
    };
    assert(views(ordinal@) =~= ordinal_names(references)->Ok_0);
    let sorted: Vec<IndexEntry> = sort_ranked(entries);
    let collection: (UuidIndexOrphanGcWork, Vec<String>) = collect_orphans(
        &sorted,
        manifest,
        &ordinal,
        maximum,
    );
    assert(collected(sorted@, manifest@, views(ordinal@), maximum) == (
        collection.0,
        views(collection.1@),
    ));
    Ok(collection)
}

/// Why a selected generation has no authority over the index, if it has not.
pub open spec fn selection_fault(
    receipt: ReceiptView,
    content_sha256: Seq<char>,
    body: Seq<u8>,
    generation: u64,
) -> bool {
    ||| !lower_hex_text(receipt.nonce, 32)
    ||| !lower_hex_text(receipt.topology_delta_sha256, 64)
    ||| !lower_hex_text(receipt.manifest_sha256, 64)
    ||| receipt.expected_generation != generation
    ||| receipt.manifest_sha256 != content_sha256
    ||| receipt.manifest_sha256 != sha256_hex(body)
}

/// A manifest that a selected generation declares.
#[derive(Debug, PartialEq, Eq)]
pub struct SelectedManifest {
    /// Declared digest.
    pub content_sha256: String,
    /// The manifest.
    pub body: Vec<u8>,
}

/// Whether a result is that of authenticating a selected generation.
/// `generation` is the selected topology generation: absent, present without
/// a number, or a number.
pub open spec fn selects(
    result: Result<Option<AuthenticatedV3MembershipAuthority>, GfError>,
    receipt: Option<TopologyIndexReceipt>,
    manifest: Option<SelectedManifest>,
    generation: Option<Option<u64>>,
) -> bool {
    match (receipt, manifest) {
        (None, None) => result matches Ok(authority) && authority is None,
        (Some(receipt), Some(manifest)) => match generation {
            None => result matches Err(error) && error.is_storage(
                "selected topology generation authority is absent"@,
            ),
            Some(None) => result matches Err(error) && error.is_storage(
                "selected topology generation is missing"@,
            ),
            Some(Some(generation)) => if selection_fault(
                receipt@,
                manifest.content_sha256@,
                manifest.body@,
                generation,
            ) {
                result matches Err(error) && error.is_storage(
                    "selected UUID membership receipt does not authenticate its manifest"@,
                )
            } else {
                result matches Ok(authority) && authority is Some
                    && authority->0.topology_generation == generation
                    && authority->0.manifest_sha256@ == sha256_hex(manifest.body@)
            },
        },
        _ => result matches Err(error) && error.is_storage(
            "selected UUID membership facet has incomplete authority residue"@,
        ),
    }
}

/// Authenticate the membership index of a selected generation, whose topology
/// generation has been read.
pub fn authenticated_v3_membership_authority(
    receipt: Option<TopologyIndexReceipt>,
    manifest: Option<SelectedManifest>,
    generation: Option<Option<u64>>,
) -> (authority: Result<Option<AuthenticatedV3MembershipAuthority>, GfError>)
    ensures
        selects(authority, receipt, manifest, generation),
{
    match (receipt, manifest) {
        (None, None) => Ok(None),
        (Some(receipt), Some(manifest)) => {
            let topology_generation: u64 = match generation {
                None => {
                    return Err(storage_err("selected topology generation authority is absent"));
                },
                Some(None) => {
                    return Err(storage_err("selected topology generation is missing"));
                },
                Some(Some(generation)) => generation,
            };
            let manifest_sha256: String = hex_sha256(manifest.body.as_slice());
            if !canonical_lower_hex(receipt.nonce.as_str(), 32) || !canonical_lower_hex(
                receipt.topology_delta_sha256.as_str(),
                64,
            ) || !canonical_lower_hex(receipt.manifest_sha256.as_str(), 64)
                || receipt.expected_generation != topology_generation || receipt.manifest_sha256
                != manifest.content_sha256 || receipt.manifest_sha256 != manifest_sha256 {
                return Err(
                    storage_err(
                        "selected UUID membership receipt does not authenticate its manifest",
                    ),
                );
            }
            Ok(Some(AuthenticatedV3MembershipAuthority { topology_generation, manifest_sha256 }))
        },
        _ => Err(storage_err("selected UUID membership facet has incomplete authority residue")),
    }
}

/// Authenticate the membership index of a selected generation, whose record of
/// its topology generation is `generation`.
pub fn selected_membership_authority(
    receipt: Option<TopologyIndexReceipt>,
    manifest: Option<SelectedManifest>,
    generation: Option<Vec<u8>>,
) -> (authority: Result<Option<AuthenticatedV3MembershipAuthority>, GfError>)
    ensures
        match (receipt is Some && manifest is Some, generation) {
            (true, Some(body)) => match json_unsigned_member(body@, "topology_generation"@) {
                Err(text) => authority matches Err(error) && error.is_storage(text),
                Ok(number) => selects(authority, receipt, manifest, Some(number)),
            },
            _ => selects(authority, receipt, manifest, None),
        },
{
    if receipt.is_none() || manifest.is_none() {
        return authenticated_v3_membership_authority(receipt, manifest, None);
    }
    match generation {
        None => authenticated_v3_membership_authority(receipt, manifest, None),
        Some(body) => match unsigned_member(body.as_slice(), "topology_generation") {
            Err(text) => Err(storage_err(text.as_str())),
            Ok(number) => authenticated_v3_membership_authority(receipt, manifest, Some(number)),
        },
    }
}

/// Check the receipt of a standalone ordinal inventory.
pub fn check_standalone_v4_receipt(
    receipt: &TopologyIndexReceipt,
    generation: u64,
    body: &Vec<u8>,
) -> (checked: Result<(), GfError>)
    ensures
        ({
            let sound = receipt@.expected_generation == generation && receipt@.manifest_sha256
                == sha256_hex(body@) && lower_hex_text(receipt@.nonce, 32);
            match checked {
                Ok(()) => sound,
                Err(error) => !sound && error.is_storage(
                    "standalone v4 receipt does not authenticate current authority"@,
                ),
            }
        }),
{
    if receipt.expected_generation != generation || receipt.manifest_sha256 != hex_sha256(
        body.as_slice(),
    ) || !canonical_lower_hex(receipt.nonce.as_str(), 32) {
        return Err(storage_err("standalone v4 receipt does not authenticate current authority"));
    }
    Ok(())
}

} // verus!
