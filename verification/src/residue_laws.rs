//! What vouches for a file before an interrupted construction is removed.
use vstd::prelude::*;
use vstd::utf8::*;

use crate::bytes::hex_text;
use crate::digest::{sha256_digest, sha256_hex};
use crate::keyed::lemma_push_contains;
use crate::ordinal_format::{ArtifactView, manifest_artifacts};
use crate::private_names::is_private_v4_name;
use crate::private_residue::{
    begins, cleanup_outcome, ControlNames, intent_fault, is_temporary_of, lemma_removal_authorised,
    ORDINAL_LOCK, ParsedControls, presence, removable, residue_outcome, temporaries,
    temporary_outcome, with_artifacts, with_residue,
};
use crate::snapshot::{first_at, NamedFile};

verus! {

/// Whether the contents of some file of a name have the digest that the name ends
/// with.
pub open spec fn named_by_contents(files: Seq<NamedFile>, name: Seq<char>) -> bool {
    exists|k: int|
        0 <= k < files.len() && (#[trigger] files[k]).name@ == name && {
            let bytes = encode_utf8(name);
            &&& bytes.len() >= 22
            &&& hex_text(sha256_digest(files[k].file.bytes@)).take(16) == bytes.subrange(
                bytes.len() - 22,
                bytes.len() - 6,
            )
        }
}

/// Whether the inventory describes some file of a name, which has its length, its
/// digest and no other link.
pub open spec fn described_by(
    files: Seq<NamedFile>,
    artifacts: Seq<ArtifactView>,
    name: Seq<char>,
) -> bool {
    exists|k: int, a: int|
        #![trigger files[k], artifacts[a]]
        {
            &&& 0 <= k < files.len()
            &&& 0 <= a < artifacts.len()
            &&& files[k].name@ == name
            &&& artifacts[a].name == name
            &&& files[k].file.links == 1
            &&& files[k].file.bytes@.len() == artifacts[a].bytes
            &&& sha256_hex(files[k].file.bytes@) == artifacts[a].sha256
        }
}

/// Whether something vouches for a file of an interrupted ordinal construction:
/// it is a control file or the temporary of one, it is scratch, its contents are
/// what its name says, or the inventory describes it.
pub open spec fn vouched(
    files: Seq<NamedFile>,
    names: ControlNames,
    parsed: ParsedControls,
    name: Seq<char>,
) -> bool {
    ||| name == names.receipt@
    ||| name == names.manifest@
    ||| name == ORDINAL_LOCK@
    ||| is_temporary_of(name, names.receipt@)
    ||| is_temporary_of(name, names.manifest@)
    ||| is_temporary_of(name, ORDINAL_LOCK@)
    ||| is_private_v4_name(name) && begins(name, ".v4-"@)
    ||| is_private_v4_name(name) && named_by_contents(files, name)
    ||| is_private_v4_name(name) && parsed.manifest is Some && described_by(
        files,
        manifest_artifacts(parsed.manifest->0@),
        name,
    )
}

proof fn lemma_found(files: Seq<NamedFile>, name: Seq<char>)
    ensures
        first_at(files, name) matches Some(k) ==> 0 <= k < files.len() && files[k].name@ == name,
    decreases files.len(),
{
    if files.len() > 0 {
        lemma_found(files.drop_last(), name);
    }
}

proof fn lemma_temporaries(files: Seq<NamedFile>, names: ControlNames)
    ensures
        forall|i: int|
            0 <= i < temporaries(files, names).len() ==> 0 <= #[trigger] temporaries(
                files,
                names,
            )[i] < files.len() && {
                let name = files[temporaries(files, names)[i]].name@;
                is_temporary_of(name, names.receipt@) || is_temporary_of(name, names.manifest@)
                    || is_temporary_of(name, ORDINAL_LOCK@)
            },
    decreases files.len(),
{
    if files.len() > 0 {
        let front = files.drop_last();
        lemma_temporaries(front, names);
        assert forall|i: int| 0 <= i < temporaries(files, names).len() implies 0
            <= #[trigger] temporaries(files, names)[i] < files.len() && {
            let name = files[temporaries(files, names)[i]].name@;
            is_temporary_of(name, names.receipt@) || is_temporary_of(name, names.manifest@)
                || is_temporary_of(name, ORDINAL_LOCK@)
        } by {
            if i < temporaries(front, names).len() {
                assert(temporaries(files, names)[i] == temporaries(front, names)[i]);
                assert(front[temporaries(front, names)[i]] == files[temporaries(front, names)[i]]);
            }
        }
    }
}

proof fn lemma_artifacts_vouched(
    files: Seq<NamedFile>,
    artifacts: Seq<ArtifactView>,
    allowed: Seq<Seq<char>>,
)
    ensures
        with_artifacts(files, artifacts, allowed) matches Ok(all) ==> {
            &&& forall|name: Seq<char>| #[trigger]
                all.contains(name) ==> allowed.contains(name) || is_private_v4_name(name)
                    && described_by(files, artifacts, name)
            &&& forall|a: int|
                0 <= a < artifacts.len() ==> described_by(
                    files,
                    artifacts,
                    (#[trigger] artifacts[a]).name,
                )
        },
    decreases artifacts.len(),
{
    if artifacts.len() > 0 {
        let front = artifacts.drop_last();
        let last = artifacts.last();
        lemma_artifacts_vouched(files, front, allowed);
        lemma_found(files, last.name);
        if let Ok(all) = with_artifacts(files, artifacts, allowed) {
            let before = with_artifacts(files, front, allowed)->Ok_0;
            let k = first_at(files, last.name)->0;
            assert(artifacts[artifacts.len() - 1] == last);
            assert(files[k].name@ == last.name);
            assert(described_by(files, artifacts, last.name));
            assert forall|name: Seq<char>| described_by(files, front, name) implies described_by(
                files,
                artifacts,
                name,
            ) by {
                let (j, a): (int, int) = choose|j: int, a: int|
                    #![trigger files[j], front[a]]
                    {
                        &&& 0 <= j < files.len()
                        &&& 0 <= a < front.len()
                        &&& files[j].name@ == name
                        &&& front[a].name == name
                        &&& files[j].file.links == 1
                        &&& files[j].file.bytes@.len() == front[a].bytes
                        &&& sha256_hex(files[j].file.bytes@) == front[a].sha256
                    };
                assert(files[j].name@ == artifacts[a].name);
            }
            lemma_push_contains(before, last.name);
            assert forall|a: int| 0 <= a < artifacts.len() implies described_by(
                files,
                artifacts,
                (#[trigger] artifacts[a]).name,
            ) by {
                if a < front.len() {
                    assert(front[a] == artifacts[a]);
                    assert(described_by(files, front, front[a].name));
                }
            }
        }
    }
}

proof fn lemma_residue_vouched(files: Seq<NamedFile>, allowed: Seq<Seq<char>>)
    ensures
        with_residue(files, allowed) matches Ok(all) ==> forall|name: Seq<char>| #[trigger]
            all.contains(name) ==> allowed.contains(name) || is_private_v4_name(name) && (begins(
                name,
                ".v4-"@,
            ) || named_by_contents(files, name)),
    decreases files.len(),
{
    if files.len() > 0 {
        let front = files.drop_last();
        let last = files.last();
        lemma_residue_vouched(front, allowed);
        if let Ok(all) = with_residue(files, allowed) {
            let before = with_residue(front, allowed)->Ok_0;
            lemma_push_contains(before, last.name@);
            assert(files[files.len() - 1] == last);
            assert forall|name: Seq<char>| #[trigger] all.contains(name) implies allowed.contains(
                name,
            ) || is_private_v4_name(name) && (begins(name, ".v4-"@) || named_by_contents(
                files,
                name,
            )) by {
                if before.contains(name) {
                    if named_by_contents(front, name) {
                        let k = choose|k: int|
                            0 <= k < front.len() && (#[trigger] front[k]).name@ == name && {
                                let bytes = encode_utf8(name);
                                &&& bytes.len() >= 22
                                &&& hex_text(sha256_digest(front[k].file.bytes@)).take(16)
                                    == bytes.subrange(bytes.len() - 22, bytes.len() - 6)
                            };
                        assert(files[k] == front[k]);
                    }
                } else {
                    assert(name == last.name@);
                }
            }
        }
    }
}

/// What is cleared for removal is vouched for, name by name. The control files
/// stand in the order in which they are installed, and where the ordinal manifest
/// is there it is the one that the receipt was made for.
pub proof fn lemma_residue_sound(
    files: Seq<NamedFile>,
    names: ControlNames,
    parsed: ParsedControls,
    maximum: u64,
)
    requires
        residue_outcome(files, names, parsed, maximum) is Ok,
    ensures
        ({
            let allowed = residue_outcome(files, names, parsed, maximum)->Ok_0;
            let present = presence(files, names);
            &&& forall|name: Seq<char>| #[trigger]
                allowed.contains(name) ==> vouched(files, names, parsed, name)
            &&& present.manifest ==> present.receipt
            &&& present.lock ==> present.manifest
            &&& temporaries(files, names).len() <= 1
            &&& present.receipt && present.manifest ==> {
                let at = first_at(files, names.manifest@)->0;
                &&& files[at].file.links == 1
                &&& parsed.receipt is Some
                &&& parsed.manifest is Some
                &&& sha256_hex(files[at].file.bytes@) == parsed.receipt->0.manifest_sha256@
                &&& parsed.manifest->0@.topology_generation
                    == parsed.receipt->0.expected_generation
                &&& forall|a: int|
                    0 <= a < manifest_artifacts(parsed.manifest->0@).len() ==> described_by(
                        files,
                        manifest_artifacts(parsed.manifest->0@),
                        (#[trigger] manifest_artifacts(parsed.manifest->0@)[a]).name,
                    )
            }
        }),
{
    let present = presence(files, names);
    let first = temporary_outcome(files, names, parsed, maximum)->Ok_0;
    let found = temporaries(files, names);
    lemma_temporaries(files, names);
    assert forall|name: Seq<char>| #[trigger] first.contains(name) implies is_temporary_of(
        name,
        names.receipt@,
    ) || is_temporary_of(name, names.manifest@) || is_temporary_of(name, ORDINAL_LOCK@) by {
        assert(name == files[found[0]].name@);
    }
    lemma_push_contains(first, names.receipt@);
    let second = first.push(names.receipt@);
    if !present.receipt {
        lemma_residue_vouched(files, first);
    } else if !present.manifest {
        lemma_residue_vouched(files, second);
    } else {
        let third = second.push(names.manifest@);
        let fourth = if first_at(files, ORDINAL_LOCK@) is Some {
            third.push(ORDINAL_LOCK@)
        } else {
            third
        };
        lemma_push_contains(second, names.manifest@);
        lemma_push_contains(third, ORDINAL_LOCK@);
        let artifacts = manifest_artifacts(parsed.manifest->0@);
        lemma_artifacts_vouched(files, artifacts, fourth);
        let fifth = with_artifacts(files, artifacts, fourth)->Ok_0;
        lemma_residue_vouched(files, fifth);
        assert forall|name: Seq<char>| #[trigger] fifth.contains(name) implies vouched(
            files,
            names,
            parsed,
            name,
        ) by {
        }
    }
}

/// Whether a file may go with an interrupted construction.
pub open spec fn may_go(
    files: Seq<NamedFile>,
    names: ControlNames,
    parsed: ParsedControls,
    name: Seq<char>,
) -> bool {
    ||| name == names.intent@
    ||| name == names.index@
    ||| begins(name, ".construction-"@)
    ||| begins(name, "."@ + names.index@ + "-"@)
    ||| begins(name, "identities-v5"@)
    ||| begins(name, "node-surrogates-v5"@)
    ||| vouched(files, names, parsed, name)
}

/// Removal takes files in order, each with no other link and either of the
/// membership construction or vouched for; it stops at the first that is not, and
/// takes nothing at all where the recovery intent is not authentic. Where nothing
/// stops it, every file goes.
pub proof fn lemma_removed_vouched(
    files: Seq<NamedFile>,
    names: ControlNames,
    parsed: ParsedControls,
    maximum: u64,
)
    ensures
        ({
            let (removed, fault) = cleanup_outcome(files, names, parsed, maximum);
            &&& removed.len() <= files.len()
            &&& fault is None ==> removed.len() == files.len()
            &&& removed.len() > 0 && first_at(files, names.intent@) is Some ==> parsed.intent is Some
                && parsed.intent->0.authentic()
            &&& forall|i: int|
                0 <= i < removed.len() ==> #[trigger] removed[i] == files[i].name@
                    && files[i].file.links == 1 && may_go(files, names, parsed, removed[i])
        }),
{
    let (removed, fault) = cleanup_outcome(files, names, parsed, maximum);
    if intent_fault(files, names, parsed) is None {
        if let Ok(allowed) = residue_outcome(files, names, parsed, maximum) {
            lemma_removal_authorised(files, names, allowed);
            lemma_residue_sound(files, names, parsed, maximum);
            assert forall|i: int| 0 <= i < removed.len() implies #[trigger] removed[i]
                == files[i].name@ && files[i].file.links == 1 && may_go(
                files,
                names,
                parsed,
                removed[i],
            ) by {
                assert(removable(names, allowed, removed[i]));
            }
        }
    }
}

} // verus!
