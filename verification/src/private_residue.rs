//! What an interrupted private construction may leave behind, and its
//! removal.
use vstd::prelude::*;
use vstd::slice::*;
use vstd::string::*;
use vstd::utf8::*;

use crate::bytes::{
    all_lower_hex, ends_with, has_prefix, has_suffix, hex_text, only_lower_hex, same_bytes,
    same_text, starts_with,
};
use crate::construction::ConstructionRecoveryIntent;
use crate::digest::{hex_sha256, sha256_codes, sha256_digest, sha256_hex};
use crate::error::{concat3, GfError, storage_err};
use crate::index_format::MAX_MANIFEST_BYTES;
use crate::ordinal_format::{
    ArtifactView, authenticate_private_v4_artifact_file, authenticates, list_artifacts,
    manifest_artifacts, V4OrdinalArtifact, V4OrdinalIdentityManifest, views,
};
use crate::ordinal_manifest::{admit_v4_construction_manifest, admits};
use crate::private_names::{
    canonical_lower_hex, is_exact_private_v4_name, is_private_v4_name, lower_hex_text,
};
use crate::receipts::{admit_control_record, TopologyIndexReceipt};
use crate::snapshot::{find_first, first_at, NamedFile};

verus! {

/// Name of the lock of the ordinal identity.
pub const ORDINAL_LOCK: &'static str = "ordinal-v4.lock";

/// Largest recovery intent.
pub const MAX_INTENT_BYTES: u64 = 16_384;

/// Names of the control files.
#[derive(Debug, PartialEq, Eq)]
pub struct ControlNames {
    /// Receipt of the ordinal manifest.
    pub receipt: String,
    /// Ordinal manifest.
    pub manifest: String,
    /// Recovery intent.
    pub intent: String,
    /// Index manifest.
    pub index: String,
}

/// Control files as they parse.
#[derive(Debug, PartialEq, Eq)]
pub struct ParsedControls {
    /// The receipt.
    pub receipt: Option<TopologyIndexReceipt>,
    /// The ordinal manifest.
    pub manifest: Option<V4OrdinalIdentityManifest>,
    /// The receipt of a control temporary.
    pub temporary_receipt: Option<TopologyIndexReceipt>,
    /// The ordinal manifest of a control temporary.
    pub temporary_manifest: Option<V4OrdinalIdentityManifest>,
    /// The recovery intent.
    pub intent: Option<ConstructionRecoveryIntent>,
}

/// A control file.
#[derive(Clone, Copy, Debug, PartialEq, Eq, Structural)]
pub enum Control {
    /// Receipt of the ordinal manifest.
    Receipt,
    /// Ordinal manifest.
    Manifest,
    /// Lock.
    Lock,
}

/// A named child, its bytes within a bound, or why it cannot be read.
pub open spec fn child_at(files: Seq<NamedFile>, name: Seq<char>, maximum: u64) -> Result<
    int,
    Seq<char>,
> {
    match first_at(files, name) {
        None => Err("private v4 construction control is absent"@),
        Some(i) => if files[i].file.links != 1 {
            Err("private v4 construction control has extra links"@)
        } else if files[i].file.bytes@.len() > maximum {
            Err("recovery control record exceeds size limit"@)
        } else {
            Ok(i)
        },
    }
}

fn read_private_construction_child(files: &Vec<NamedFile>, name: &str, maximum: u64) -> (at: Result<
    usize,
    GfError,
>)
    ensures
        ({
            let outcome = child_at(files@, name@, maximum);
            match at {
                Ok(i) => i < files@.len() && outcome == Ok::<int, Seq<char>>(i as int),
                Err(error) => outcome is Err && error.is_storage(outcome->Err_0),
            }
        }),
{
    match find_first(files, name) {
        None => Err(storage_err("private v4 construction control is absent")),
        Some(i) => {
            if files[i].file.links != 1 {
                return Err(storage_err("private v4 construction control has extra links"));
            }
            match admit_control_record(files[i].file.bytes.len() as u64, maximum) {
                Ok(()) => Ok(i),
                Err(error) => Err(error),
            }
        },
    }
}

/// Whether the texts of a receipt are canonical.
pub open spec fn receipt_canonical(receipt: TopologyIndexReceipt) -> bool {
    &&& lower_hex_text(receipt.nonce@, 32)
    &&& lower_hex_text(receipt.topology_delta_sha256@, 64)
    &&& lower_hex_text(receipt.manifest_sha256@, 64)
}

fn is_canonical_receipt(receipt: &TopologyIndexReceipt) -> (yes: bool)
    ensures
        yes == receipt_canonical(*receipt),
{
    canonical_lower_hex(receipt.nonce.as_str(), 32) && canonical_lower_hex(
        receipt.topology_delta_sha256.as_str(),
        64,
    ) && canonical_lower_hex(receipt.manifest_sha256.as_str(), 64)
}

/// Whether a name is that of a temporary of a control file: a dot, the name of
/// the control file, a dash, 32 lowercase hexadecimal digits, `.tmp`.
pub open spec fn is_temporary_of(name: Seq<char>, control: Seq<char>) -> bool {
    let bytes = encode_utf8(name);
    let head = seq![46u8] + encode_utf8(control) + seq![45u8];
    let tail = encode_utf8(".tmp"@);
    &&& bytes.len() == head.len() + 32 + tail.len()
    &&& starts_with(bytes, head)
    &&& ends_with(bytes, tail)
    &&& all_lower_hex(bytes.subrange(head.len() as int, head.len() + 32int))
}

fn check_temporary_of(name: &str, control: &str) -> (yes: bool)
    ensures
        yes == is_temporary_of(name@, control@),
{
    let bytes: &[u8] = name.as_bytes();
    let tail: &[u8] = ".tmp".as_bytes();
    let mut head: Vec<u8> = Vec::new();
    head.push(46);
    crate::bytes::push_all(&mut head, control.as_bytes());
    head.push(45);
    assert(head@ =~= seq![46u8] + encode_utf8(control@) + seq![45u8]);
    if bytes.len() < head.len() || bytes.len() - head.len() < 32 || bytes.len() - head.len() - 32
        != tail.len() {
        return false;
    }
    has_prefix(bytes, head.as_slice()) && has_suffix(bytes, tail) && only_lower_hex(
        slice_subrange(bytes, head.len(), head.len() + 32),
    )
}

/// The control file whose temporary has this name.
pub open spec fn temporary_control(names: ControlNames, name: Seq<char>) -> Option<Control> {
    if is_temporary_of(name, names.receipt@) {
        Some(Control::Receipt)
    } else if is_temporary_of(name, names.manifest@) {
        Some(Control::Manifest)
    } else if is_temporary_of(name, ORDINAL_LOCK@) {
        Some(Control::Lock)
    } else {
        None
    }
}

fn find_temporary_control(names: &ControlNames, name: &str) -> (control: Option<Control>)
    ensures
        control == temporary_control(*names, name@),
{
    if check_temporary_of(name, names.receipt.as_str()) {
        Some(Control::Receipt)
    } else if check_temporary_of(name, names.manifest.as_str()) {
        Some(Control::Manifest)
    } else if check_temporary_of(name, ORDINAL_LOCK) {
        Some(Control::Lock)
    } else {
        None
    }
}

/// Places of the control temporaries.
pub open spec fn temporaries(files: Seq<NamedFile>, names: ControlNames) -> Seq<int>
    decreases files.len(),
{
    if files.len() == 0 {
        Seq::empty()
    } else if temporary_control(names, files.last().name@) is Some {
        temporaries(files.drop_last(), names).push(files.len() - 1)
    } else {
        temporaries(files.drop_last(), names)
    }
}

/// Which control files are there.
#[derive(Clone, Copy, Debug, PartialEq, Eq, Structural)]
pub struct ControlPresence {
    /// Receipt.
    pub receipt: bool,
    /// Manifest.
    pub manifest: bool,
    /// Lock.
    pub lock: bool,
}

/// Which control files are there.
pub open spec fn presence(files: Seq<NamedFile>, names: ControlNames) -> ControlPresence {
    ControlPresence {
        receipt: first_at(files, names.receipt@) is Some,
        manifest: first_at(files, names.manifest@) is Some,
        lock: first_at(files, ORDINAL_LOCK@) is Some,
    }
}

/// Why a control temporary does not belong where it is, if it does not.
pub open spec fn temporary_fault(
    files: Seq<NamedFile>,
    names: ControlNames,
    parsed: ParsedControls,
    maximum: u64,
    at: int,
) -> Option<Seq<char>> {
    let present = presence(files, names);
    let name = files[at].name@;
    match temporary_control(names, name)->0 {
        Control::Receipt => if present.receipt || present.manifest || present.lock {
            Some("private v4 control temporary is outside its install boundary"@)
        } else {
            match child_at(files, name, MAX_MANIFEST_BYTES) {
                Err(text) => Some(text),
                Ok(_) => match parsed.temporary_receipt {
                    None => Some("private v4 control is malformed"@),
                    Some(receipt) => if !receipt_canonical(receipt) {
                        Some("private v4 receipt temporary is noncanonical"@)
                    } else {
                        None
                    },
                },
            }
        },
        Control::Manifest => if !present.receipt || present.manifest || present.lock {
            Some("private v4 control temporary is outside its install boundary"@)
        } else {
            match child_at(files, names.receipt@, MAX_MANIFEST_BYTES) {
                Err(text) => Some(text),
                Ok(_) => if parsed.receipt is None {
                    Some("private v4 control is malformed"@)
                } else {
                    match child_at(files, name, maximum) {
                        Err(text) => Some(text),
                        Ok(i) => match parsed.temporary_manifest {
                            None => Some("private v4 control is malformed"@),
                            Some(manifest) => if sha256_hex(files[i].file.bytes@)
                                != parsed.receipt->0.manifest_sha256@
                                || manifest@.topology_generation
                                != parsed.receipt->0.expected_generation {
                                Some("private v4 manifest temporary is not receipt-bound"@)
                            } else if !admits(manifest@, maximum) {
                                Some("v4 ordinal manifest exceeds the reader admission bound"@)
                            } else {
                                None
                            },
                        },
                    }
                },
            }
        },
        Control::Lock => if !present.receipt || !present.manifest || present.lock {
            Some("private v4 control temporary is outside its install boundary"@)
        } else {
            match child_at(files, name, 0) {
                Err(text) => Some(text),
                Ok(_) => None,
            }
        },
    }
}

/// Names that the control temporary adds, or why it is refused.
pub open spec fn temporary_outcome(
    files: Seq<NamedFile>,
    names: ControlNames,
    parsed: ParsedControls,
    maximum: u64,
) -> Result<Seq<Seq<char>>, Seq<char>> {
    let found = temporaries(files, names);
    if found.len() > 1 {
        Err("private v4 construction has multiple control temporaries"@)
    } else if found.len() == 0 {
        Ok(Seq::empty())
    } else {
        match temporary_fault(files, names, parsed, maximum, found[0]) {
            Some(text) => Err(text),
            None => Ok(seq![files[found[0]].name@]),
        }
    }
}

proof fn lemma_temporaries(files: Seq<NamedFile>, names: ControlNames)
    ensures
        forall|k: int|
            0 <= k < temporaries(files, names).len() ==> 0 <= #[trigger] temporaries(
                files,
                names,
            )[k] < files.len() && temporary_control(
                names,
                files[temporaries(files, names)[k]].name@,
            ) is Some,
    decreases files.len(),
{
    if files.len() > 0 {
        lemma_temporaries(files.drop_last(), names);
    }
}

fn find_temporaries(files: &Vec<NamedFile>, names: &ControlNames) -> (found: Vec<usize>)
    ensures
        found@.len() == temporaries(files@, *names).len(),
        forall|k: int|
            0 <= k < found@.len() ==> #[trigger] found@[k] == temporaries(files@, *names)[k],
{
    let mut found: Vec<usize> = Vec::new();
    let mut i: usize = 0;
    while i < files.len()
        invariant
            i <= files@.len(),
            found@.len() == temporaries(files@.take(i as int), *names).len(),
            forall|k: int|
                0 <= k < found@.len() ==> #[trigger] found@[k] == temporaries(
                    files@.take(i as int),
                    *names,
                )[k],
        decreases files.len() - i,
    {
        assert(files@.take(i + 1).drop_last() =~= files@.take(i as int));
        if find_temporary_control(names, files[i].name.as_str()).is_some() {
            found.push(i);
        }
        i = i + 1;
    }
    assert(files@.take(i as int) =~= files@);
    found
}

fn find_presence(files: &Vec<NamedFile>, names: &ControlNames) -> (present: ControlPresence)
    ensures
        present == presence(files@, *names),
{
    ControlPresence {
        receipt: find_first(files, names.receipt.as_str()).is_some(),
        manifest: find_first(files, names.manifest.as_str()).is_some(),
        lock: find_first(files, ORDINAL_LOCK).is_some(),
    }
}

fn check_receipt_temporary(
    files: &Vec<NamedFile>,
    parsed: &ParsedControls,
    name: &str,
) -> (checked: Result<(), GfError>)
    ensures
        ({
            let read = child_at(files@, name@, MAX_MANIFEST_BYTES);
            match checked {
                Ok(()) => read is Ok && parsed.temporary_receipt is Some && receipt_canonical(
                    parsed.temporary_receipt->0,
                ),
                Err(error) => if read is Err {
                    error.is_storage(read->Err_0)
                } else if parsed.temporary_receipt is None {
                    error.is_storage("private v4 control is malformed"@)
                } else {
                    !receipt_canonical(parsed.temporary_receipt->0) && error.is_storage(
                        "private v4 receipt temporary is noncanonical"@,
                    )
                },
            }
        }),
{
    match read_private_construction_child(files, name, MAX_MANIFEST_BYTES) {
        Ok(_) => {},
        Err(error) => {
            return Err(error);
        },
    }
    match &parsed.temporary_receipt {
        None => Err(storage_err("private v4 control is malformed")),
        Some(receipt) => if is_canonical_receipt(receipt) {
            Ok(())
        } else {
            Err(storage_err("private v4 receipt temporary is noncanonical"))
        },
    }
}

/// Admit the one control temporary that may lie beside the control files: the
/// one that was to be installed next.
pub fn authenticate_private_v4_control_temp(
    files: &Vec<NamedFile>,
    names: &ControlNames,
    parsed: &ParsedControls,
    maximum: u64,
) -> (allowed: Result<Vec<String>, GfError>)
    ensures
        ({
            let outcome = temporary_outcome(files@, *names, *parsed, maximum);
            match allowed {
                Ok(allowed) => outcome == Ok::<Seq<Seq<char>>, Seq<char>>(views(allowed@)),
                Err(error) => outcome is Err && error.is_storage(outcome->Err_0),
            }
        }),
{
    proof {
        lemma_temporaries(files@, *names);
    }
    let found: Vec<usize> = find_temporaries(files, names);
    let mut allowed: Vec<String> = Vec::new();
    if found.len() > 1 {
        return Err(storage_err("private v4 construction has multiple control temporaries"));
    }
    if found.len() == 0 {
        assert(views(allowed@) =~= Seq::<Seq<char>>::empty());
        return Ok(allowed);
    }
    let at: usize = found[0];
    assert(at == temporaries(files@, *names)[0]);
    let name: &str = files[at].name.as_str();
    let present: ControlPresence = find_presence(files, names);
    let control: Control = match find_temporary_control(names, name) {
        Some(control) => control,
        None => {
            return Ok(allowed);
        },
    };
    match control {
        Control::Receipt => {
            if present.receipt || present.manifest || present.lock {
                return Err(
                    storage_err("private v4 control temporary is outside its install boundary"),
                );
            }
            match check_receipt_temporary(files, parsed, name) {
                Ok(()) => {},
                Err(error) => {
                    return Err(error);
                },
            }
        },
        Control::Manifest => {
            if !present.receipt || present.manifest || present.lock {
                return Err(
                    storage_err("private v4 control temporary is outside its install boundary"),
                );
            }
            match read_private_construction_child(
                files,
                names.receipt.as_str(),
                MAX_MANIFEST_BYTES,
            ) {
                Ok(_) => {},
                Err(error) => {
                    return Err(error);
                },
            }
            let receipt: &TopologyIndexReceipt = match &parsed.receipt {
                Some(receipt) => receipt,
                None => {
                    return Err(storage_err("private v4 control is malformed"));
                },
            };
            let i: usize = match read_private_construction_child(files, name, maximum) {
                Ok(i) => i,
                Err(error) => {
                    return Err(error);
                },
            };
            let manifest: &V4OrdinalIdentityManifest = match &parsed.temporary_manifest {
                Some(manifest) => manifest,
                None => {
                    return Err(storage_err("private v4 control is malformed"));
                },
            };
            if hex_sha256(files[i].file.bytes.as_slice()) != receipt.manifest_sha256
                || manifest.topology_generation != receipt.expected_generation {
                return Err(storage_err("private v4 manifest temporary is not receipt-bound"));
            }
            match admit_v4_construction_manifest(manifest, maximum) {
                Ok(()) => {},
                Err(error) => {
                    return Err(error);
                },
            }
        },
        Control::Lock => {
            if !present.receipt || !present.manifest || present.lock {
                return Err(
                    storage_err("private v4 control temporary is outside its install boundary"),
                );
            }
            match read_private_construction_child(files, name, 0) {
                Ok(_) => {},
                Err(error) => {
                    return Err(error);
                },
            }
        },
    }
    allowed.push(name.to_owned());
    assert(views(allowed@) =~= seq![files@[at as int].name@]);
    Ok(allowed)
}

/// Whether a name starts with a prefix.
pub open spec fn begins(name: Seq<char>, prefix: Seq<char>) -> bool {
    starts_with(encode_utf8(name), encode_utf8(prefix))
}

fn text_begins(name: &str, prefix: &str) -> (yes: bool)
    ensures
        yes == begins(name@, prefix@),
{
    has_prefix(name.as_bytes(), prefix.as_bytes())
}

fn holds_text(names: &Vec<String>, name: &str) -> (yes: bool)
    ensures
        yes == views(names@).contains(name@),
{
    let ghost all = views(names@);
    let mut i: usize = 0;
    while i < names.len()
        invariant
            i <= names@.len(),
            all == views(names@),
            forall|j: int| 0 <= j < i ==> #[trigger] all[j] != name@,
        decreases names.len() - i,
    {
        assert(all[i as int] == names@[i as int]@);
        if same_text(names[i].as_str(), name) {
            return true;
        }
        i = i + 1;
    }
    false
}

fn allow(names: &mut Vec<String>, name: &str)
    ensures
        views(final(names)@) == views(old(names)@).push(name@),
{
    let ghost before = names@;
    names.push(name.to_owned());
    assert(views(names@) =~= views(before).push(name@));
}

/// Why an artifact of a manifest is not there, if it is not.
pub open spec fn artifact_fault(files: Seq<NamedFile>, artifact: ArtifactView) -> Option<Seq<char>> {
    if !is_private_v4_name(artifact.name) || begins(artifact.name, ".v4-"@) {
        Some("private v4 artifact name is noncanonical"@)
    } else {
        match first_at(files, artifact.name) {
            None => Some("private v4 artifact is absent"@),
            Some(i) => if files[i].file.links != 1 || !authenticates(
                artifact,
                files[i].file.bytes@,
            ) {
                Some("private v4 artifact authentication failed"@)
            } else {
                None
            },
        }
    }
}

/// Names with those of some artifacts, or why one is refused.
pub open spec fn with_artifacts(
    files: Seq<NamedFile>,
    artifacts: Seq<ArtifactView>,
    allowed: Seq<Seq<char>>,
) -> Result<Seq<Seq<char>>, Seq<char>>
    decreases artifacts.len(),
{
    if artifacts.len() == 0 {
        Ok(allowed)
    } else {
        match with_artifacts(files, artifacts.drop_last(), allowed) {
            Err(text) => Err(text),
            Ok(before) => match artifact_fault(files, artifacts.last()) {
                Some(text) => Err(text),
                None => if before.contains(artifacts.last().name) {
                    Err("private v4 construction manifest repeats an artifact"@)
                } else {
                    Ok(before.push(artifacts.last().name))
                },
            },
        }
    }
}

proof fn lemma_artifact_refused(
    files: Seq<NamedFile>,
    artifacts: Seq<ArtifactView>,
    allowed: Seq<Seq<char>>,
    n: int,
)
    requires
        0 <= n <= artifacts.len(),
        with_artifacts(files, artifacts.take(n), allowed) is Err,
    ensures
        with_artifacts(files, artifacts, allowed) == with_artifacts(
            files,
            artifacts.take(n),
            allowed,
        ),
    decreases artifacts.len(),
{
    if n < artifacts.len() {
        assert(artifacts.drop_last().take(n) =~= artifacts.take(n));
        lemma_artifact_refused(files, artifacts.drop_last(), allowed, n);
    } else {
        assert(artifacts.take(n) =~= artifacts);
    }
}

fn authenticate_private_v4_artifact(files: &Vec<NamedFile>, artifact: &V4OrdinalArtifact) -> (checked:
    Result<(), GfError>)
    ensures
        ({
            let fault = artifact_fault(files@, artifact@);
            match checked {
                Ok(()) => fault is None,
                Err(error) => fault is Some && error.is_storage(fault->0),
            }
        }),
{
    let name: &str = artifact.name.as_str();
    if !is_exact_private_v4_name(name) || text_begins(name, ".v4-") {
        return Err(storage_err("private v4 artifact name is noncanonical"));
    }
    match find_first(files, name) {
        None => Err(storage_err("private v4 artifact is absent")),
        Some(i) => {
            if files[i].file.links != 1 {
                return Err(storage_err("private v4 artifact authentication failed"));
            }
            authenticate_private_v4_artifact_file(&files[i].file.bytes, artifact)
        },
    }
}

fn allow_artifacts(
    files: &Vec<NamedFile>,
    artifacts: &Vec<V4OrdinalArtifact>,
    allowed: Vec<String>,
) -> (all: Result<Vec<String>, GfError>)
    ensures
        ({
            let outcome = with_artifacts(files@, views(artifacts@), views(allowed@));
            match all {
                Ok(all) => outcome == Ok::<Seq<Seq<char>>, Seq<char>>(views(all@)),
                Err(error) => outcome is Err && error.is_storage(outcome->Err_0),
            }
        }),
{
    let ghost listed = views(artifacts@);
    let ghost given = views(allowed@);
    let mut all: Vec<String> = allowed;
    let mut i: usize = 0;
    while i < artifacts.len()
        invariant
            i <= artifacts@.len(),
            listed == views(artifacts@),
            given == views(allowed@),
            with_artifacts(files@, listed.take(i as int), given) == Ok::<
                Seq<Seq<char>>,
                Seq<char>,
            >(views(all@)),
        decreases artifacts.len() - i,
    {
        assert(listed.take(i + 1).drop_last() =~= listed.take(i as int));
        assert(listed.take(i + 1).last() == artifacts@[i as int]@);
        match authenticate_private_v4_artifact(files, &artifacts[i]) {
            Ok(()) => {},
            Err(error) => {
                proof {
                    lemma_artifact_refused(files@, listed, given, i + 1);
                }
                return Err(error);
            },
        }
        if holds_text(&all, artifacts[i].name.as_str()) {
            proof {
                lemma_artifact_refused(files@, listed, given, i + 1);
            }
            return Err(storage_err("private v4 construction manifest repeats an artifact"));
        }
        allow(&mut all, artifacts[i].name.as_str());
        i = i + 1;
    }
    assert(listed.take(i as int) =~= listed);
    Ok(all)
}

/// Why the contents of an artifact are not those that its name promises: only
/// tombstones may be empty, and the digest in the name is that of the bytes.
pub open spec fn content_fault(name: Seq<char>, content: Seq<u8>) -> Option<Seq<char>> {
    let bytes = encode_utf8(name);
    if bytes.len() < 22 {
        Some("private v4 artifact name is malformed"@)
    } else if (content.len() == 0 && !begins(name, "tombstones-v4-"@)) || hex_text(
        sha256_digest(content),
    ).take(16) != bytes.subrange(bytes.len() - 22, bytes.len() - 6) {
        Some("private v4 construction artifact fails content authentication"@)
    } else {
        None
    }
}

fn check_content(name: &str, content: &Vec<u8>) -> (checked: Result<(), GfError>)
    ensures
        ({
            let fault = content_fault(name@, content@);
            match checked {
                Ok(()) => fault is None,
                Err(error) => fault is Some && error.is_storage(fault->0),
            }
        }),
{
    let bytes: &[u8] = name.as_bytes();
    if bytes.len() < 22 {
        return Err(storage_err("private v4 artifact name is malformed"));
    }
    let codes: Vec<u8> = sha256_codes(content.as_slice());
    let head: &[u8] = slice_subrange(codes.as_slice(), 0, 16);
    assert(head@ =~= hex_text(sha256_digest(content@)).take(16));
    let suffix: &[u8] = slice_subrange(bytes, bytes.len() - 22, bytes.len() - 6);
    if (content.len() == 0 && !text_begins(name, "tombstones-v4-")) || !same_bytes(head, suffix) {
        return Err(
            storage_err("private v4 construction artifact fails content authentication"),
        );
    }
    Ok(())
}

/// Names with those of the artifacts and temporaries that no control file
/// speaks of, or why one is refused.
pub open spec fn with_residue(files: Seq<NamedFile>, allowed: Seq<Seq<char>>) -> Result<
    Seq<Seq<char>>,
    Seq<char>,
>
    decreases files.len(),
{
    if files.len() == 0 {
        Ok(allowed)
    } else {
        let name = files.last().name@;
        match with_residue(files.drop_last(), allowed) {
            Err(text) => Err(text),
            Ok(before) => if before.contains(name) || !is_private_v4_name(name) {
                Ok(before)
            } else if begins(name, ".v4-"@) {
                Ok(before.push(name))
            } else {
                match content_fault(name, files.last().file.bytes@) {
                    Some(text) => Err(text),
                    None => Ok(before.push(name)),
                }
            },
        }
    }
}

proof fn lemma_residue_refused(files: Seq<NamedFile>, allowed: Seq<Seq<char>>, n: int)
    requires
        0 <= n <= files.len(),
        with_residue(files.take(n), allowed) is Err,
    ensures
        with_residue(files, allowed) == with_residue(files.take(n), allowed),
    decreases files.len(),
{
    if n < files.len() {
        assert(files.drop_last().take(n) =~= files.take(n));
        lemma_residue_refused(files.drop_last(), allowed, n);
    } else {
        assert(files.take(n) =~= files);
    }
}

/// Admit artifacts by their contents, and their temporaries.
pub fn authenticate_private_v4_artifact_residue(files: &Vec<NamedFile>, allowed: Vec<String>) -> (all:
    Result<Vec<String>, GfError>)
    ensures
        ({
            let outcome = with_residue(files@, views(allowed@));
            match all {
                Ok(all) => outcome == Ok::<Seq<Seq<char>>, Seq<char>>(views(all@)),
                Err(error) => outcome is Err && error.is_storage(outcome->Err_0),
            }
        }),
{
    let ghost given = views(allowed@);
    let mut all: Vec<String> = allowed;
    let mut i: usize = 0;
    while i < files.len()
        invariant
            i <= files@.len(),
            given == views(allowed@),
            with_residue(files@.take(i as int), given) == Ok::<Seq<Seq<char>>, Seq<char>>(
                views(all@),
            ),
        decreases files.len() - i,
    {
        assert(files@.take(i + 1).drop_last() =~= files@.take(i as int));
        let name: &str = files[i].name.as_str();
        if !holds_text(&all, name) && is_exact_private_v4_name(name) {
            if !text_begins(name, ".v4-") {
                match check_content(name, &files[i].file.bytes) {
                    Ok(()) => {},
                    Err(error) => {
                        proof {
                            lemma_residue_refused(files@, given, i + 1);
                        }
                        return Err(error);
                    },
                }
            }
            allow(&mut all, name);
        }
        i = i + 1;
    }
    assert(files@.take(i as int) =~= files@);
    Ok(all)
}

/// Whether a lock is there with something in it.
pub open spec fn lock_filled(files: Seq<NamedFile>) -> bool {
    first_at(files, ORDINAL_LOCK@) matches Some(i) && files[i].file.bytes@.len() != 0
}

/// Names that the manifest and the lock add, or why they are refused.
pub open spec fn manifest_outcome(
    files: Seq<NamedFile>,
    names: ControlNames,
    parsed: ParsedControls,
    maximum: u64,
    allowed: Seq<Seq<char>>,
) -> Result<Seq<Seq<char>>, Seq<char>> {
    let receipt = parsed.receipt->0;
    match child_at(files, names.manifest@, maximum) {
        Err(text) => Err(text),
        Ok(i) => if sha256_hex(files[i].file.bytes@) != receipt.manifest_sha256@ {
            Err("private v4 construction manifest does not match its receipt"@)
        } else if parsed.manifest is None {
            Err("private v4 control is malformed"@)
        } else if parsed.manifest->0@.topology_generation != receipt.expected_generation {
            Err("private v4 construction generation does not match its receipt"@)
        } else if !admits(parsed.manifest->0@, maximum) {
            Err("v4 ordinal manifest exceeds the reader admission bound"@)
        } else if lock_filled(files) {
            Err("private v4 construction lock is nonempty"@)
        } else {
            let listed = allowed.push(names.manifest@);
            with_artifacts(
                files,
                manifest_artifacts(parsed.manifest->0@),
                if first_at(files, ORDINAL_LOCK@) is Some {
                    listed.push(ORDINAL_LOCK@)
                } else {
                    listed
                },
            )
        },
    }
}

/// Names that an interrupted construction may leave behind, or why what is
/// there is refused.
pub open spec fn residue_outcome(
    files: Seq<NamedFile>,
    names: ControlNames,
    parsed: ParsedControls,
    maximum: u64,
) -> Result<Seq<Seq<char>>, Seq<char>> {
    let present = presence(files, names);
    if (present.manifest && !present.receipt) || (present.lock && !present.manifest) {
        Err("private v4 construction controls are not an install-order prefix"@)
    } else {
        match temporary_outcome(files, names, parsed, maximum) {
            Err(text) => Err(text),
            Ok(allowed) => if !present.receipt {
                with_residue(files, allowed)
            } else {
                match child_at(files, names.receipt@, MAX_MANIFEST_BYTES) {
                    Err(text) => Err(text),
                    Ok(_) => if parsed.receipt is None {
                        Err("private v4 control is malformed"@)
                    } else if !receipt_canonical(parsed.receipt->0) {
                        Err("private v4 construction receipt is noncanonical"@)
                    } else if !present.manifest {
                        with_residue(files, allowed.push(names.receipt@))
                    } else {
                        match manifest_outcome(
                            files,
                            names,
                            parsed,
                            maximum,
                            allowed.push(names.receipt@),
                        ) {
                            Err(text) => Err(text),
                            Ok(all) => with_residue(files, all),
                        }
                    },
                }
            },
        }
    }
}

fn allow_manifest(
    files: &Vec<NamedFile>,
    names: &ControlNames,
    parsed: &ParsedControls,
    maximum: u64,
    receipt: &TopologyIndexReceipt,
    allowed: Vec<String>,
) -> (all: Result<Vec<String>, GfError>)
    requires
        parsed.receipt == Some(*receipt),
    ensures
        ({
            let outcome = manifest_outcome(files@, *names, *parsed, maximum, views(allowed@));
            match all {
                Ok(all) => outcome == Ok::<Seq<Seq<char>>, Seq<char>>(views(all@)),
                Err(error) => outcome is Err && error.is_storage(outcome->Err_0),
            }
        }),
{
    let mut all: Vec<String> = allowed;
    let i: usize = match read_private_construction_child(files, names.manifest.as_str(), maximum) {
        Ok(i) => i,
        Err(error) => {
            return Err(error);
        },
    };
    if hex_sha256(files[i].file.bytes.as_slice()) != receipt.manifest_sha256 {
        return Err(storage_err("private v4 construction manifest does not match its receipt"));
    }
    let manifest: &V4OrdinalIdentityManifest = match &parsed.manifest {
        Some(manifest) => manifest,
        None => {
            return Err(storage_err("private v4 control is malformed"));
        },
    };
    if manifest.topology_generation != receipt.expected_generation {
        return Err(storage_err("private v4 construction generation does not match its receipt"));
    }
    match admit_v4_construction_manifest(manifest, maximum) {
        Ok(()) => {},
        Err(error) => {
            return Err(error);
        },
    }
    allow(&mut all, names.manifest.as_str());
    match find_first(files, ORDINAL_LOCK) {
        None => {},
        Some(k) => {
            if files[k].file.bytes.len() != 0 {
                return Err(storage_err("private v4 construction lock is nonempty"));
            }
            allow(&mut all, ORDINAL_LOCK);
        },
    }
    let artifacts: Vec<V4OrdinalArtifact> = list_artifacts(manifest);
    allow_artifacts(files, &artifacts, all)
}

/// Authenticate what an interrupted construction left behind. The control
/// files are a prefix of their install order, each bound to the one before,
/// and every artifact is what its descriptor or its name says.
pub fn authenticate_private_v4_residue(
    files: &Vec<NamedFile>,
    names: &ControlNames,
    parsed: &ParsedControls,
    maximum: u64,
) -> (allowed: Result<Vec<String>, GfError>)
    ensures
        ({
            let outcome = residue_outcome(files@, *names, *parsed, maximum);
            match allowed {
                Ok(allowed) => outcome == Ok::<Seq<Seq<char>>, Seq<char>>(views(allowed@)),
                Err(error) => outcome is Err && error.is_storage(outcome->Err_0),
            }
        }),
{
    let present: ControlPresence = find_presence(files, names);
    if (present.manifest && !present.receipt) || (present.lock && !present.manifest) {
        return Err(
            storage_err("private v4 construction controls are not an install-order prefix"),
        );
    }
    let mut allowed: Vec<String> = match authenticate_private_v4_control_temp(
        files,
        names,
        parsed,
        maximum,
    ) {
        Ok(allowed) => allowed,
        Err(error) => {
            return Err(error);
        },
    };
    if !present.receipt {
        return authenticate_private_v4_artifact_residue(files, allowed);
    }
    match read_private_construction_child(files, names.receipt.as_str(), MAX_MANIFEST_BYTES) {
        Ok(_) => {},
        Err(error) => {
            return Err(error);
        },
    }
    let receipt: &TopologyIndexReceipt = match &parsed.receipt {
        Some(receipt) => receipt,
        None => {
            return Err(storage_err("private v4 control is malformed"));
        },
    };
    if !is_canonical_receipt(receipt) {
        return Err(storage_err("private v4 construction receipt is noncanonical"));
    }
    allow(&mut allowed, names.receipt.as_str());
    if !present.manifest {
        return authenticate_private_v4_artifact_residue(files, allowed);
    }
    match allow_manifest(files, names, parsed, maximum, receipt, allowed) {
        Ok(all) => authenticate_private_v4_artifact_residue(files, all),
        Err(error) => Err(error),
    }
}

/// Why the recovery intent is refused, if it is.
pub open spec fn intent_fault(
    files: Seq<NamedFile>,
    names: ControlNames,
    parsed: ParsedControls,
) -> Option<Seq<char>> {
    match first_at(files, names.intent@) {
        None => None,
        Some(i) => if files[i].file.bytes@.len() > MAX_INTENT_BYTES {
            Some("construction recovery intent is oversized"@)
        } else if parsed.intent is None {
            Some("construction recovery intent is malformed"@)
        } else if !parsed.intent->0.authentic() {
            Some("construction recovery intent authentication failed"@)
        } else {
            None
        },
    }
}

/// Whether a private construction may have left a file of this name.
pub open spec fn removable(names: ControlNames, allowed: Seq<Seq<char>>, name: Seq<char>) -> bool {
    ||| name == names.intent@
    ||| name == names.index@
    ||| begins(name, ".construction-"@)
    ||| begins(name, "."@ + names.index@ + "-"@)
    ||| begins(name, "identities-v5"@)
    ||| begins(name, "node-surrogates-v5"@)
    ||| allowed.contains(name)
}

/// Files that are removed, in order, and what stops the removal, if anything
/// does.
pub open spec fn removal(
    files: Seq<NamedFile>,
    names: ControlNames,
    allowed: Seq<Seq<char>>,
) -> (Seq<Seq<char>>, Option<Seq<char>>)
    decreases files.len(),
{
    if files.len() == 0 {
        (Seq::empty(), None)
    } else {
        let before = removal(files.drop_last(), names, allowed);
        if before.1 is Some {
            before
        } else if !removable(names, allowed, files.last().name@) {
            (
                before.0,
                Some("construction recovery inventory contains an unauthorised object"@),
            )
        } else if files.last().file.links != 1 {
            (before.0, Some("private construction index artifact has extra links"@))
        } else {
            (before.0.push(files.last().name@), None)
        }
    }
}

proof fn lemma_removal_stops(
    files: Seq<NamedFile>,
    names: ControlNames,
    allowed: Seq<Seq<char>>,
    n: int,
)
    requires
        0 <= n <= files.len(),
        removal(files.take(n), names, allowed).1 is Some,
    ensures
        removal(files, names, allowed) == removal(files.take(n), names, allowed),
    decreases files.len(),
{
    if n < files.len() {
        assert(files.drop_last().take(n) =~= files.take(n));
        lemma_removal_stops(files.drop_last(), names, allowed, n);
    } else {
        assert(files.take(n) =~= files);
    }
}

/// What a removal does: nothing where what is there is refused as a whole.
pub open spec fn cleanup_outcome(
    files: Seq<NamedFile>,
    names: ControlNames,
    parsed: ParsedControls,
    maximum: u64,
) -> (Seq<Seq<char>>, Option<Seq<char>>) {
    if intent_fault(files, names, parsed) is Some {
        (Seq::empty(), intent_fault(files, names, parsed))
    } else {
        match residue_outcome(files, names, parsed, maximum) {
            Err(text) => (Seq::empty(), Some(text)),
            Ok(allowed) => removal(files, names, allowed),
        }
    }
}

/// What a removal does.
#[derive(Debug, PartialEq, Eq)]
pub struct PrivateCleanup {
    /// Files to remove, in order.
    pub removed: Vec<String>,
    /// What stops the removal.
    pub fault: Option<GfError>,
}

/// Whether a removal does what its model says.
pub open spec fn cleans(
    cleanup: PrivateCleanup,
    outcome: (Seq<Seq<char>>, Option<Seq<char>>),
) -> bool {
    &&& views(cleanup.removed@) == outcome.0
    &&& match cleanup.fault {
        None => outcome.1 is None,
        Some(error) => outcome.1 is Some && error.is_storage(outcome.1->0),
    }
}

fn is_removable(names: &ControlNames, allowed: &Vec<String>, name: &str) -> (yes: bool)
    ensures
        yes == removable(*names, views(allowed@), name@),
{
    let temporary: String = concat3(".", names.index.as_str(), "-");
    same_text(name, names.intent.as_str()) || same_text(name, names.index.as_str()) || text_begins(
        name,
        ".construction-",
    ) || text_begins(name, temporary.as_str()) || text_begins(name, "identities-v5") || text_begins(
        name,
        "node-surrogates-v5",
    ) || holds_text(allowed, name)
}

fn refuse(error: GfError) -> (cleanup: PrivateCleanup)
    ensures
        views(cleanup.removed@) == Seq::<Seq<char>>::empty(),
        cleanup.fault == Some(error),
{
    let cleanup = PrivateCleanup { removed: Vec::new(), fault: Some(error) };
    assert(views(cleanup.removed@) =~= Seq::<Seq<char>>::empty());
    cleanup
}

/// Decide which files of a private construction index are removed.
pub fn cleanup_private_construction_index(
    files: &Vec<NamedFile>,
    names: &ControlNames,
    parsed: &ParsedControls,
    maximum: u64,
) -> (cleanup: PrivateCleanup)
    ensures
        cleans(cleanup, cleanup_outcome(files@, *names, *parsed, maximum)),
{
    match find_first(files, names.intent.as_str()) {
        None => {},
        Some(i) => {
            if files[i].file.bytes.len() as u64 > MAX_INTENT_BYTES {
                return refuse(storage_err("construction recovery intent is oversized"));
            }
            match &parsed.intent {
                None => {
                    return refuse(storage_err("construction recovery intent is malformed"));
                },
                Some(intent) => match intent.authenticate() {
                    Ok(()) => {},
                    Err(error) => {
                        return refuse(error);
                    },
                },
            }
        },
    }
    let allowed: Vec<String> = match authenticate_private_v4_residue(
        files,
        names,
        parsed,
        maximum,
    ) {
        Ok(allowed) => allowed,
        Err(error) => {
            return refuse(error);
        },
    };
    let ghost known = views(allowed@);
    let mut removed: Vec<String> = Vec::new();
    let mut i: usize = 0;
    assert(views(removed@) =~= Seq::<Seq<char>>::empty());
    while i < files.len()
        invariant
            i <= files@.len(),
            known == views(allowed@),
            intent_fault(files@, *names, *parsed) is None,
            residue_outcome(files@, *names, *parsed, maximum) == Ok::<Seq<Seq<char>>, Seq<char>>(
                known,
            ),
            removal(files@.take(i as int), *names, known) == (views(removed@), None::<Seq<char>>),
        decreases files.len() - i,
    {
        assert(files@.take(i + 1).drop_last() =~= files@.take(i as int));
        let name: &str = files[i].name.as_str();
        if !is_removable(names, &allowed, name) {
            proof {
                lemma_removal_stops(files@, *names, known, i + 1);
            }
            return PrivateCleanup {
                removed,
                fault: Some(
                    storage_err("construction recovery inventory contains an unauthorised object"),
                ),
            };
        }
        if files[i].file.links != 1 {
            proof {
                lemma_removal_stops(files@, *names, known, i + 1);
            }
            return PrivateCleanup {
                removed,
                fault: Some(storage_err("private construction index artifact has extra links")),
            };
        }
        allow(&mut removed, name);
        i = i + 1;
    }
    assert(files@.take(i as int) =~= files@);
    PrivateCleanup { removed, fault: None }
}

/// Nothing is removed that a private construction cannot have left, and
/// nothing that has another link; where nothing stops the removal, every file
/// goes.
pub proof fn lemma_removal_authorised(
    files: Seq<NamedFile>,
    names: ControlNames,
    allowed: Seq<Seq<char>>,
)
    ensures
        ({
            let (removed, fault) = removal(files, names, allowed);
            &&& removed.len() <= files.len()
            &&& forall|i: int|
                0 <= i < removed.len() ==> #[trigger] removed[i] == files[i].name@ && removable(
                    names,
                    allowed,
                    removed[i],
                ) && files[i].file.links == 1
            &&& fault is None ==> removed.len() == files.len()
        }),
    decreases files.len(),
{
    if files.len() > 0 {
        lemma_removal_authorised(files.drop_last(), names, allowed);
    }
}

} // verus!
