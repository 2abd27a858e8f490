//! Repository reconciliation snapshots and their canonical JSON.
use vstd::prelude::*;
use vstd::slice::*;
use vstd::string::*;
use vstd::utf8::*;

use crate::bytes::{decimal_codes, decimal_text, is_lower_hex, push_all};
use crate::canonical_json::{
    bool_form, decode_bool, decode_number, decode_optional_text, decode_optional_uuid,
    decode_text, decode_uuid, is_one_record, is_plain, lemma_bool_read, lemma_bool_taken,
    lemma_decimal_line, lemma_joined, lemma_line, lemma_lines, lemma_number_read,
    lemma_number_taken, lemma_optional_lines, lemma_optional_text_read, lemma_optional_text_taken,
    lemma_optional_uuid_read, lemma_optional_uuid_taken, lemma_strip, lemma_stripped,
    lemma_text_line, lemma_text_read, lemma_text_taken, lemma_uuid_line, lemma_uuid_read,
    lemma_uuid_taken, one_line, one_record, optional_text_form, optional_uuid_form, plain_text,
    push_bool, push_byte, push_optional_text, push_optional_uuid, push_quoted, push_text,
    push_uuid, strip, take_bool, take_literal, take_number, take_optional_text,
    take_optional_uuid, take_text, take_uuid, text_form, uuid_form,
};
use crate::error::{corrupt, GfError};
use crate::ordinal_format::views;
use crate::private_names::{canonical_lower_hex, lower_hex_text};
use crate::ranked::{text_first, text_not_after};

verus! {

/// Contract version of a repository snapshot.
pub const WORKSPACE_REPOSITORY_SNAPSHOT_VERSION: u32 = 1;

/// Most bytes of an encoded repository snapshot.
pub const MAX_WORKSPACE_REPOSITORY_SNAPSHOT_BYTES: usize = 1_048_576;

/// Most definitions, or sources, of a repository snapshot.
pub const MAX_WORKSPACE_REPOSITORY_SNAPSHOT_ENTRIES: usize = 10_000;

/// Most bytes of a definition or source identifier.
pub const MAX_WORKSPACE_REPOSITORY_SNAPSHOT_ID_BYTES: usize = 256;

/// A declared repository definition, by identifier and digest.
#[derive(Debug, PartialEq, Eq)]
pub struct WorkspaceRepositoryDefinitionDigest {
    /// Stable identifier.
    pub definition_id: String,
    /// SHA-256 digest of the definition.
    pub sha256: String,
}

/// A declared external source, by identifier and digest.
#[derive(Debug, PartialEq, Eq)]
pub struct WorkspaceRepositorySourceDigest {
    /// Stable identifier.
    pub source_id: String,
    /// SHA-256 digest of the source.
    pub sha256: String,
}

/// Model of a definition or source.
#[verifier::ext_equal]
pub struct EntryView {
    pub id: Seq<char>,
    pub sha256: Seq<char>,
}

impl View for WorkspaceRepositoryDefinitionDigest {
    type V = EntryView;

    open spec fn view(&self) -> EntryView {
        EntryView { id: self.definition_id@, sha256: self.sha256@ }
    }
}

impl View for WorkspaceRepositorySourceDigest {
    type V = EntryView;

    open spec fn view(&self) -> EntryView {
        EntryView { id: self.source_id@, sha256: self.sha256@ }
    }
}

/// A definition or source.
pub trait DigestEntry: View<V = EntryView> + Sized {
    /// Name of the kind of entry.
    spec fn entry_name() -> Seq<char>;

    /// What stands before the identifier in the encoding of an entry.
    spec fn opening() -> Seq<u8>;

    /// Name of the kind of entry.
    fn name() -> (name: &'static str)
        ensures
            name@ == Self::entry_name(),
    ;

    /// What stands before the identifier in the encoding of an entry.
    fn opening_text() -> (text: &'static str)
        ensures
            encode_utf8(text@) == Self::opening(),
    ;

    /// The identifier.
    fn id(&self) -> (id: &String)
        ensures
            id@ == self@.id,
    ;

    /// The digest.
    fn digest(&self) -> (digest: &String)
        ensures
            digest@ == self@.sha256,
    ;

    /// An entry.
    fn make(id: String, sha256: String) -> (entry: Self)
        ensures
            entry@ == (EntryView { id: id@, sha256: sha256@ }),
    ;
}

impl DigestEntry for WorkspaceRepositoryDefinitionDigest {
    open spec fn entry_name() -> Seq<char> {
        "definition"@
    }

    open spec fn opening() -> Seq<u8> {
        encode_utf8("\"definition_id\":\""@)
    }

    fn name() -> (name: &'static str) {
        "definition"
    }

    fn opening_text() -> (text: &'static str) {
        "\"definition_id\":\""
    }

    fn id(&self) -> (id: &String) {
        &self.definition_id
    }

    fn digest(&self) -> (digest: &String) {
        &self.sha256
    }

    fn make(id: String, sha256: String) -> (entry: Self) {
        WorkspaceRepositoryDefinitionDigest { definition_id: id, sha256 }
    }
}

impl DigestEntry for WorkspaceRepositorySourceDigest {
    open spec fn entry_name() -> Seq<char> {
        "source"@
    }

    open spec fn opening() -> Seq<u8> {
        encode_utf8("\"source_id\":\""@)
    }

    fn name() -> (name: &'static str) {
        "source"
    }

    fn opening_text() -> (text: &'static str) {
        "\"source_id\":\""
    }

    fn id(&self) -> (id: &String) {
        &self.source_id
    }

    fn digest(&self) -> (digest: &String) {
        &self.sha256
    }

    fn make(id: String, sha256: String) -> (entry: Self) {
        WorkspaceRepositorySourceDigest { source_id: id, sha256 }
    }
}

/// Git provenance of a repository.
#[derive(Debug, PartialEq, Eq)]
pub struct WorkspaceRepositoryGitProvenance {
    /// Commit identifier; absent where there is no commit.
    pub commit_sha: Option<String>,
    /// Whether tracked state differs from the commit.
    pub dirty: bool,
}

/// Desired state of a repository, without secrets.
#[derive(Debug, PartialEq, Eq)]
pub struct WorkspaceRepositorySnapshot {
    /// Contract version.
    pub contract_version: u32,
    /// SHA-256 digest of the resolved configuration.
    pub resolved_config_sha256: String,
    /// Declared definitions, in order.
    pub definitions: Vec<WorkspaceRepositoryDefinitionDigest>,
    /// Declared external sources, in order.
    pub sources: Vec<WorkspaceRepositorySourceDigest>,
    /// Git provenance.
    pub git: WorkspaceRepositoryGitProvenance,
    /// Identity of the publishing operation.
    pub operation_uuid: u128,
    /// Identity of the actor.
    pub actor_uuid: Option<u128>,
}

/// Model of a [`WorkspaceRepositorySnapshot`].
#[verifier::ext_equal]
pub struct SnapshotView {
    pub contract_version: u32,
    pub config: Seq<char>,
    pub definitions: Seq<EntryView>,
    pub sources: Seq<EntryView>,
    pub commit: Option<Seq<char>>,
    pub dirty: bool,
    pub operation: u128,
    pub actor: Option<u128>,
}

impl View for WorkspaceRepositorySnapshot {
    type V = SnapshotView;

    open spec fn view(&self) -> SnapshotView {
        SnapshotView {
            contract_version: self.contract_version,
            config: self.resolved_config_sha256@,
            definitions: views(self.definitions@),
            sources: views(self.sources@),
            commit: match self.git.commit_sha {
                Some(commit) => Some(commit@),
                None => None,
            },
            dirty: self.git.dirty,
            operation: self.operation_uuid,
            actor: self.actor_uuid,
        }
    }
}

/// Whether a byte can stand at a place of an identifier.
pub open spec fn id_byte(byte: u8, at: int) -> bool {
    97 <= byte <= 122 || (at > 0 && (48 <= byte <= 57 || byte == 45 || byte == 95))
}

/// Whether a byte string is an identifier: a lowercase letter, then lowercase
/// letters, digits, hyphens and underscores.
pub open spec fn is_id(bytes: Seq<u8>) -> bool {
    &&& 0 < bytes.len() <= MAX_WORKSPACE_REPOSITORY_SNAPSHOT_ID_BYTES
    &&& forall|i: int| 0 <= i < bytes.len() ==> #[trigger] id_byte(bytes[i], i)
}

fn is_canonical_id(bytes: &[u8]) -> (yes: bool)
    ensures
        yes == is_id(bytes@),
{
    if bytes.len() == 0 || bytes.len() > MAX_WORKSPACE_REPOSITORY_SNAPSHOT_ID_BYTES {
        return false;
    }
    let mut i: usize = 0;
    while i < bytes.len()
        invariant
            i <= bytes@.len(),
            forall|k: int| 0 <= k < i ==> #[trigger] id_byte(bytes@[k], k),
        decreases bytes.len() - i,
    {
        let byte: u8 = bytes[i];
        if !((97 <= byte && byte <= 122) || (i > 0 && ((48 <= byte && byte <= 57) || byte == 45
            || byte == 95))) {
            assert(!id_byte(bytes@[i as int], i as int));
            return false;
        }
        i = i + 1;
    }
    true
}

/// What is said of a digest that is not in lowercase hexadecimal.
pub open spec fn digest_text(name: Seq<char>) -> Seq<char> {
    name + " SHA-256 is not canonical"@
}

/// Check a digest.
pub fn validate_sha256(value: &str, name: &str) -> (checked: Result<(), GfError>)
    ensures
        match checked {
            Ok(()) => lower_hex_text(value@, 64),
            Err(error) => !lower_hex_text(value@, 64) && error.is_corrupt(digest_text(name@)),
        },
{
    if !canonical_lower_hex(value, 64) {
        let mut text: String = name.to_owned();
        text.append(" SHA-256 is not canonical");
        return Err(corrupt(text.as_str()));
    }
    Ok(())
}

/// What is said of entries, between their name and a reason.
pub open spec fn entry_text(name: Seq<char>, reason: Seq<char>) -> Seq<char> {
    "workspace repository "@ + name + reason
}

fn entry_error(name: &str, reason: &str) -> (error: GfError)
    ensures
        error.is_corrupt(entry_text(name@, reason@)),
{
    let text: String = crate::error::concat3("workspace repository ", name, reason);
    corrupt(text.as_str())
}

/// Why some entries are not acceptable, if they are not: the fault of the
/// first such entry.
pub open spec fn listed_fault(entries: Seq<EntryView>, name: Seq<char>) -> Option<Seq<char>>
    decreases entries.len(),
{
    if entries.len() == 0 {
        None
    } else {
        match listed_fault(entries.drop_last(), name) {
            Some(text) => Some(text),
            None => {
                let entry = entries.last();
                if !is_id(encode_utf8(entry.id)) {
                    Some(entry_text(name, " identifier is invalid"@))
                } else if entries.len() > 1 && text_not_after(
                    encode_utf8(entry.id),
                    encode_utf8(entries[entries.len() - 2].id),
                ) {
                    Some(entry_text(name, " identifiers are not canonical"@))
                } else if !lower_hex_text(entry.sha256, 64) {
                    Some(digest_text(name))
                } else {
                    None
                }
            },
        }
    }
}

/// Why entries are not acceptable, if they are not.
pub open spec fn entries_fault(entries: Seq<EntryView>, name: Seq<char>) -> Option<Seq<char>> {
    if entries.len() > MAX_WORKSPACE_REPOSITORY_SNAPSHOT_ENTRIES {
        Some(entry_text(name, " count exceeds limit"@))
    } else {
        listed_fault(entries, name)
    }
}

proof fn lemma_listed_fails(entries: Seq<EntryView>, name: Seq<char>, n: int)
    requires
        0 <= n <= entries.len(),
        listed_fault(entries.take(n), name) is Some,
    ensures
        listed_fault(entries, name) == listed_fault(entries.take(n), name),
    decreases entries.len(),
{
    if n < entries.len() {
        assert(entries.drop_last().take(n) =~= entries.take(n));
        lemma_listed_fails(entries.drop_last(), name, n);
    } else {
        assert(entries.take(n) =~= entries);
    }
}

fn validate_digest_entries<T: DigestEntry>(entries: &Vec<T>) -> (checked: Result<(), GfError>)
    ensures
        match checked {
            Ok(()) => entries_fault(views(entries@), T::entry_name()) is None,
            Err(error) => entries_fault(views(entries@), T::entry_name()) is Some
                && error.is_corrupt(entries_fault(views(entries@), T::entry_name())->0),
        },
{
    let name: &'static str = T::name();
    if entries.len() > MAX_WORKSPACE_REPOSITORY_SNAPSHOT_ENTRIES {
        return Err(entry_error(name, " count exceeds limit"));
    }
    let ghost all = views(entries@);
    let mut i: usize = 0;
    while i < entries.len()
        invariant
            i <= entries@.len(),
            entries@.len() <= MAX_WORKSPACE_REPOSITORY_SNAPSHOT_ENTRIES,
            all == views(entries@),
            name@ == T::entry_name(),
            listed_fault(all.take(i as int), name@) is None,
        decreases entries.len() - i,
    {
        let ghost next = all.take(i + 1);
        assert(next.drop_last() =~= all.take(i as int));
        assert(next.last() == entries@[i as int]@);
        assert(i > 0 ==> next[i - 1] == entries@[i - 1]@);
        let id: &[u8] = entries[i].id().as_str().as_bytes();
        let mut failure: Option<GfError> = None;
        if !is_canonical_id(id) {
            failure = Some(entry_error(name, " identifier is invalid"));
        } else if i > 0 && text_first(id, entries[i - 1].id().as_str().as_bytes()) {
            failure = Some(entry_error(name, " identifiers are not canonical"));
        } else {
            match validate_sha256(entries[i].digest().as_str(), name) {
                Ok(()) => {},
                Err(error) => {
                    failure = Some(error);
                },
            }
        }
        match failure {
            Some(error) => {
                proof {
                    lemma_listed_fails(all, name@, i + 1);
                }
                return Err(error);
            },
            None => {},
        }
        i = i + 1;
    }
    assert(all.take(i as int) =~= all);
    Ok(())
}

/// Why a snapshot is not acceptable, if it is not.
pub open spec fn snapshot_fault(snapshot: SnapshotView) -> Option<Seq<char>> {
    if snapshot.contract_version != WORKSPACE_REPOSITORY_SNAPSHOT_VERSION {
        Some("unsupported workspace repository snapshot contract"@)
    } else if !lower_hex_text(snapshot.config, 64) {
        Some(digest_text("resolved config"@))
    } else if entries_fault(snapshot.definitions, "definition"@) is Some {
        entries_fault(snapshot.definitions, "definition"@)
    } else if entries_fault(snapshot.sources, "source"@) is Some {
        entries_fault(snapshot.sources, "source"@)
    } else if !commit_canonical(snapshot.commit) {
        Some("Git commit SHA is not canonical hexadecimal"@)
    } else if snapshot.operation == 0 {
        Some("repository snapshot operation UUID is nil"@)
    } else if snapshot.actor == Some(0u128) {
        Some("repository snapshot actor UUID is nil"@)
    } else {
        None
    }
}

/// Whether a commit identifier is absent or lowercase hexadecimal of one of
/// the two lengths.
pub open spec fn commit_canonical(commit: Option<Seq<char>>) -> bool {
    match commit {
        Some(commit) => lower_hex_text(commit, 40) || lower_hex_text(commit, 64),
        None => true,
    }
}

/// Check a snapshot.
pub fn validate_repository_snapshot(snapshot: &WorkspaceRepositorySnapshot) -> (checked: Result<
    (),
    GfError,
>)
    ensures
        match checked {
            Ok(()) => snapshot_fault(snapshot@) is None,
            Err(error) => snapshot_fault(snapshot@) is Some && error.is_corrupt(
                snapshot_fault(snapshot@)->0,
            ),
        },
{
    if snapshot.contract_version != WORKSPACE_REPOSITORY_SNAPSHOT_VERSION {
        return Err(corrupt("unsupported workspace repository snapshot contract"));
    }
    match validate_sha256(snapshot.resolved_config_sha256.as_str(), "resolved config") {
        Ok(()) => {},
        Err(error) => {
            return Err(error);
        },
    }
    match validate_digest_entries(&snapshot.definitions) {
        Ok(()) => {},
        Err(error) => {
            return Err(error);
        },
    }
    match validate_digest_entries(&snapshot.sources) {
        Ok(()) => {},
        Err(error) => {
            return Err(error);
        },
    }
    match &snapshot.git.commit_sha {
        Some(commit) => {
            if !canonical_lower_hex(commit.as_str(), 40) && !canonical_lower_hex(
                commit.as_str(),
                64,
            ) {
                return Err(corrupt("Git commit SHA is not canonical hexadecimal"));
            }
        },
        None => {},
    }
    if snapshot.operation_uuid == 0 {
        return Err(corrupt("repository snapshot operation UUID is nil"));
    }
    match snapshot.actor_uuid {
        Some(actor) => {
            if actor == 0 {
                return Err(corrupt("repository snapshot actor UUID is nil"));
            }
        },
        None => {},
    }
    Ok(())
}

/// The encoding of an entry after its opening brace.
pub open spec fn entry_body(opening: Seq<u8>, entry: EntryView) -> Seq<u8> {
    opening + (text_form(entry.id) + (encode_utf8(",\"sha256\":\""@) + (text_form(entry.sha256)
        + seq![125u8])))
}

/// The encoding of an entry.
#[verifier::opaque]
pub open spec fn entry_form(opening: Seq<u8>, entry: EntryView) -> Seq<u8> {
    seq![123u8] + entry_body(opening, entry)
}

/// The encoding of the entries that follow another, with the closing bracket.
pub open spec fn more_form(opening: Seq<u8>, entries: Seq<EntryView>) -> Seq<u8>
    decreases entries.len(),
{
    if entries.len() == 0 {
        seq![93u8]
    } else {
        seq![44u8] + (entry_form(opening, entries[0]) + more_form(opening, entries.skip(1)))
    }
}

/// The encoding of entries, with the closing bracket.
#[verifier::opaque]
pub open spec fn list_form(opening: Seq<u8>, entries: Seq<EntryView>) -> Seq<u8> {
    if entries.len() == 0 {
        seq![93u8]
    } else {
        entry_form(opening, entries[0]) + more_form(opening, entries.skip(1))
    }
}

/// Take an entry after its opening brace.
pub open spec fn decode_body(opening: Seq<u8>, input: Seq<u8>) -> Option<(EntryView, Seq<u8>)> {
    match strip(input, opening) {
        None => None,
        Some(input) => match decode_text(input) {
            None => None,
            Some((id, input)) => match strip(input, encode_utf8(",\"sha256\":\""@)) {
                None => None,
                Some(input) => match decode_text(input) {
                    None => None,
                    Some((sha256, input)) => match strip(input, seq![125u8]) {
                        None => None,
                        Some(rest) => Some((EntryView { id, sha256 }, rest)),
                    },
                },
            },
        },
    }
}

/// Take an entry.
#[verifier::opaque]
pub open spec fn decode_entry(opening: Seq<u8>, input: Seq<u8>) -> Option<(EntryView, Seq<u8>)> {
    match strip(input, seq![123u8]) {
        None => None,
        Some(body) => decode_body(opening, body),
    }
}

/// Whether the texts of an entry stand for themselves.
pub open spec fn plain_entry(entry: EntryView) -> bool {
    plain_text(entry.id) && plain_text(entry.sha256)
}

proof fn lemma_body_joined(opening: Seq<u8>, entry: EntryView, rest: Seq<u8>)
    ensures
        entry_body(opening, entry) + rest == opening + (text_form(entry.id) + (encode_utf8(
            ",\"sha256\":\""@,
        ) + (text_form(entry.sha256) + (seq![125u8] + rest)))),
{
    let middle = encode_utf8(",\"sha256\":\""@);
    let c = text_form(entry.sha256) + seq![125u8];
    let b = middle + c;
    let a = text_form(entry.id) + b;
    lemma_joined(text_form(entry.sha256), seq![125u8], rest);
    lemma_joined(middle, c, rest);
    lemma_joined(text_form(entry.id), b, rest);
    lemma_joined(opening, a, rest);
}

proof fn lemma_entry_read(opening: Seq<u8>, entry: EntryView, rest: Seq<u8>)
    requires
        plain_entry(entry),
    ensures
        decode_entry(opening, entry_form(opening, entry) + rest) == Some((entry, rest)),
        entry_form(opening, entry).len() > 0,
        entry_form(opening, entry)[0] == 123,
{
    reveal(decode_entry);
    reveal(entry_form);
    let middle = encode_utf8(",\"sha256\":\""@);
    let d = seq![125u8] + rest;
    let c = text_form(entry.sha256) + d;
    let b = middle + c;
    let a = text_form(entry.id) + b;
    lemma_body_joined(opening, entry, rest);
    lemma_joined(seq![123u8], entry_body(opening, entry), rest);
    lemma_strip(seq![123u8], opening + a);
    lemma_strip(opening, a);
    lemma_text_read(entry.id, b);
    lemma_strip(middle, c);
    lemma_text_read(entry.sha256, d);
    lemma_strip(seq![125u8], rest);
}

proof fn lemma_entry_taken(opening: Seq<u8>, input: Seq<u8>)
    ensures
        decode_entry(opening, input) matches Some((entry, rest)) ==> plain_entry(entry) && input
            == entry_form(opening, entry) + rest && rest.len() < input.len(),
{
    reveal(decode_entry);
    reveal(entry_form);
    if decode_entry(opening, input) is Some {
        let middle = encode_utf8(",\"sha256\":\""@);
        let (entry, rest) = decode_entry(opening, input)->0;
        lemma_stripped(input, seq![123u8]);
        let body = strip(input, seq![123u8])->0;
        lemma_stripped(body, opening);
        let a = strip(body, opening)->0;
        lemma_text_taken(a);
        let b = (decode_text(a)->0).1;
        lemma_stripped(b, middle);
        let c = strip(b, middle)->0;
        lemma_text_taken(c);
        let d = (decode_text(c)->0).1;
        lemma_stripped(d, seq![125u8]);
        lemma_body_joined(opening, entry, rest);
        lemma_joined(seq![123u8], entry_body(opening, entry), rest);
    }
}

/// Take the entries that follow another, and the closing bracket.
pub open spec fn decode_more(opening: Seq<u8>, input: Seq<u8>) -> Option<
    (Seq<EntryView>, Seq<u8>),
>
    decreases input.len(),
{
    match strip(input, seq![93u8]) {
        Some(rest) => Some((Seq::empty(), rest)),
        None => match strip(input, seq![44u8]) {
            None => None,
            Some(next) => match decode_entry(opening, next) {
                None => None,
                Some((entry, after)) => if after.len() >= input.len() {
                    None
                } else {
                    match decode_more(opening, after) {
                        None => None,
                        Some((entries, rest)) => Some((seq![entry] + entries, rest)),
                    }
                },
            },
        },
    }
}

/// Take entries, and the closing bracket.
#[verifier::opaque]
pub open spec fn decode_list(opening: Seq<u8>, input: Seq<u8>) -> Option<
    (Seq<EntryView>, Seq<u8>),
> {
    match strip(input, seq![93u8]) {
        Some(rest) => Some((Seq::empty(), rest)),
        None => match decode_entry(opening, input) {
            None => None,
            Some((entry, after)) => match decode_more(opening, after) {
                None => None,
                Some((entries, rest)) => Some((seq![entry] + entries, rest)),
            },
        },
    }
}

/// Whether the texts of all entries stand for themselves.
pub open spec fn plain_entries(entries: Seq<EntryView>) -> bool {
    forall|i: int| 0 <= i < entries.len() ==> plain_entry(#[trigger] entries[i])
}

proof fn lemma_no_bracket(input: Seq<u8>)
    requires
        input.len() > 0,
        input[0] != 93,
    ensures
        strip(input, seq![93u8]) is None,
{
    if strip(input, seq![93u8]) is Some {
        assert(input.take(1)[0] == 93);
    }
}

proof fn lemma_more_read(opening: Seq<u8>, entries: Seq<EntryView>, rest: Seq<u8>)
    requires
        plain_entries(entries),
    ensures
        decode_more(opening, more_form(opening, entries) + rest) == Some((entries, rest)),
    decreases entries.len(),
{
    let input = more_form(opening, entries) + rest;
    if entries.len() == 0 {
        lemma_strip(seq![93u8], rest);
    } else {
        let tail = entries.skip(1);
        let after = more_form(opening, tail) + rest;
        let form = entry_form(opening, entries[0]);
        assert(plain_entries(tail)) by {
            assert forall|i: int| 0 <= i < tail.len() implies plain_entry(#[trigger] tail[i]) by {
                assert(tail[i] == entries[i + 1]);
            }
        }
        lemma_joined(form, more_form(opening, tail), rest);
        lemma_joined(seq![44u8], form + more_form(opening, tail), rest);
        assert(input == seq![44u8] + (form + after));
        assert(input[0] == 44);
        lemma_no_bracket(input);
        lemma_strip(seq![44u8], form + after);
        assert(plain_entry(entries[0]));
        lemma_entry_read(opening, entries[0], after);
        lemma_entry_taken(opening, form + after);
        lemma_more_read(opening, tail, rest);
        assert(seq![entries[0]] + tail =~= entries);
    }
}

proof fn lemma_more_taken(opening: Seq<u8>, input: Seq<u8>)
    ensures
        decode_more(opening, input) matches Some((entries, rest)) ==> plain_entries(entries)
            && input == more_form(opening, entries) + rest,
    decreases input.len(),
{
    if decode_more(opening, input) is Some {
        let (entries, rest) = decode_more(opening, input)->0;
        if strip(input, seq![93u8]) is Some {
            lemma_stripped(input, seq![93u8]);
        } else {
            lemma_stripped(input, seq![44u8]);
            let next = strip(input, seq![44u8])->0;
            lemma_entry_taken(opening, next);
            let (entry, after) = decode_entry(opening, next)->0;
            lemma_more_taken(opening, after);
            let (tail, _) = decode_more(opening, after)->0;
            assert(entries == seq![entry] + tail);
            assert(entries.skip(1) =~= tail);
            let form = entry_form(opening, entry);
            lemma_joined(form, more_form(opening, tail), rest);
            lemma_joined(seq![44u8], form + more_form(opening, tail), rest);
            assert forall|i: int| 0 <= i < entries.len() implies plain_entry(
                #[trigger] entries[i],
            ) by {
                if i > 0 {
                    assert(entries[i] == tail[i - 1]);
                }
            }
        }
    }
}

proof fn lemma_list_read(opening: Seq<u8>, entries: Seq<EntryView>, rest: Seq<u8>)
    requires
        plain_entries(entries),
    ensures
        decode_list(opening, list_form(opening, entries) + rest) == Some((entries, rest)),
{
    reveal(decode_list);
    reveal(list_form);
    let input = list_form(opening, entries) + rest;
    if entries.len() == 0 {
        lemma_strip(seq![93u8], rest);
    } else {
        let tail = entries.skip(1);
        let after = more_form(opening, tail) + rest;
        let form = entry_form(opening, entries[0]);
        assert(plain_entries(tail)) by {
            assert forall|i: int| 0 <= i < tail.len() implies plain_entry(#[trigger] tail[i]) by {
                assert(tail[i] == entries[i + 1]);
            }
        }
        lemma_joined(form, more_form(opening, tail), rest);
        assert(plain_entry(entries[0]));
        lemma_entry_read(opening, entries[0], after);
        assert(input[0] == 123);
        lemma_no_bracket(input);
        lemma_more_read(opening, tail, rest);
        assert(seq![entries[0]] + tail =~= entries);
    }
}

proof fn lemma_list_taken(opening: Seq<u8>, input: Seq<u8>)
    ensures
        decode_list(opening, input) matches Some((entries, rest)) ==> plain_entries(entries)
            && input == list_form(opening, entries) + rest,
{
    reveal(decode_list);
    reveal(list_form);
    if decode_list(opening, input) is Some {
        let (entries, rest) = decode_list(opening, input)->0;
        if strip(input, seq![93u8]) is Some {
            lemma_stripped(input, seq![93u8]);
        } else {
            lemma_entry_taken(opening, input);
            let (entry, after) = decode_entry(opening, input)->0;
            lemma_more_taken(opening, after);
            let (tail, _) = decode_more(opening, after)->0;
            assert(entries == seq![entry] + tail);
            assert(entries.skip(1) =~= tail);
            lemma_joined(entry_form(opening, entry), more_form(opening, tail), rest);
            assert forall|i: int| 0 <= i < entries.len() implies plain_entry(
                #[trigger] entries[i],
            ) by {
                if i > 0 {
                    assert(entries[i] == tail[i - 1]);
                }
            }
        }
    }
}

fn push_entry<T: DigestEntry>(out: &mut Vec<u8>, entry: &T)
    ensures
        final(out)@ == old(out)@ + entry_form(T::opening(), entry@),
{
    let ghost before = out@;
    let middle: &str = ",\"sha256\":\"";
    out.push(123);
    push_all(out, T::opening_text().as_bytes());
    push_all(out, entry.id().as_str().as_bytes());
    out.push(34);
    push_all(out, middle.as_bytes());
    push_all(out, entry.digest().as_str().as_bytes());
    out.push(34);
    out.push(125);
    proof {
        reveal(entry_form);
        assert(out@ =~= before + entry_form(T::opening(), entry@));
    }
}

proof fn lemma_more_pushed(opening: Seq<u8>, entries: Seq<EntryView>, n: int)
    requires
        0 <= n < entries.len(),
    ensures
        more_form(opening, entries.skip(n)) == seq![44u8] + (entry_form(opening, entries[n])
            + more_form(opening, entries.skip(n + 1))),
{
    assert(entries.skip(n)[0] == entries[n]);
    assert(entries.skip(n).skip(1) =~= entries.skip(n + 1));
}

fn push_list<T: DigestEntry>(out: &mut Vec<u8>, entries: &Vec<T>)
    ensures
        final(out)@ == old(out)@ + list_form(T::opening(), views(entries@)),
{
    let ghost all = views(entries@);
    let ghost before = out@;
    proof {
        reveal(list_form);
    }
    if entries.len() == 0 {
        out.push(93);
        assert(out@ =~= before + list_form(T::opening(), all));
        return ;
    }
    push_entry(out, &entries[0]);
    assert(all[0] == entries@[0]@);
    let mut i: usize = 1;
    proof {
        lemma_joined(before, entry_form(T::opening(), all[0]), more_form(T::opening(), all.skip(1)));
    }
    while i < entries.len()
        invariant
            1 <= i <= entries@.len(),
            all == views(entries@),
            out@ + more_form(T::opening(), all.skip(i as int)) == before + list_form(
                T::opening(),
                all,
            ),
        decreases entries.len() - i,
    {
        let ghost done = out@;
        let ghost tail = more_form(T::opening(), all.skip(i + 1));
        let ghost form = entry_form(T::opening(), all[i as int]);
        proof {
            lemma_more_pushed(T::opening(), all, i as int);
            lemma_joined(done, seq![44u8], form + tail);
            lemma_joined(done + seq![44u8], form, tail);
            assert(all[i as int] == entries@[i as int]@);
        }
        out.push(44);
        assert(out@ =~= done + seq![44u8]);
        push_entry(out, &entries[i]);
        i = i + 1;
    }
    out.push(93);
    assert(out@ =~= before + list_form(T::opening(), all)) by {
        assert(all.skip(i as int).len() == 0);
    }
}

fn take_entry<'a, T: DigestEntry>(input: &'a [u8]) -> (taken: Option<(T, &'a [u8])>)
    ensures
        match taken {
            Some((entry, rest)) => decode_entry(T::opening(), input@) == Some((entry@, rest@)),
            None => decode_entry(T::opening(), input@) is None,
        },
{
    proof {
        reveal(decode_entry);
    }
    let middle: &str = ",\"sha256\":\"";
    let open: Vec<u8> = vec![123];
    assert(open@ =~= seq![123u8]);
    let close: Vec<u8> = vec![125];
    assert(close@ =~= seq![125u8]);
    let body: &'a [u8] = match take_literal(input, open.as_slice()) {
        Some(body) => body,
        None => {
            return None;
        },
    };
    let rest: &'a [u8] = match take_literal(body, T::opening_text().as_bytes()) {
        Some(rest) => rest,
        None => {
            return None;
        },
    };
    let (id, rest): (String, &'a [u8]) = match take_text(rest) {
        Some(taken) => taken,
        None => {
            return None;
        },
    };
    let rest: &'a [u8] = match take_literal(rest, middle.as_bytes()) {
        Some(rest) => rest,
        None => {
            return None;
        },
    };
    let (sha256, rest): (String, &'a [u8]) = match take_text(rest) {
        Some(taken) => taken,
        None => {
            return None;
        },
    };
    match take_literal(rest, close.as_slice()) {
        Some(rest) => Some((T::make(id, sha256), rest)),
        None => None,
    }
}

/// What is left of a list once some entries have been taken.
pub open spec fn continued(
    taken: Seq<EntryView>,
    more: Option<(Seq<EntryView>, Seq<u8>)>,
) -> Option<(Seq<EntryView>, Seq<u8>)> {
    match more {
        Some((entries, rest)) => Some((taken + entries, rest)),
        None => None,
    }
}

fn take_list<'a, T: DigestEntry>(input: &'a [u8]) -> (taken: Option<(Vec<T>, &'a [u8])>)
    ensures
        match taken {
            Some((entries, rest)) => decode_list(T::opening(), input@) == Some(
                (views(entries@), rest@),
            ),
            None => decode_list(T::opening(), input@) is None,
        },
{
    proof {
        reveal(decode_list);
    }
    let bracket: Vec<u8> = vec![93];
    assert(bracket@ =~= seq![93u8]);
    let comma: Vec<u8> = vec![44];
    assert(comma@ =~= seq![44u8]);
    let mut entries: Vec<T> = Vec::new();
    match take_literal(input, bracket.as_slice()) {
        Some(rest) => {
            assert(views(entries@) =~= Seq::<EntryView>::empty());
            return Some((entries, rest));
        },
        None => {},
    }
    let (first, after): (T, &'a [u8]) = match take_entry::<T>(input) {
        Some(taken) => taken,
        None => {
            return None;
        },
    };
    entries.push(first);
    assert(views(entries@) =~= seq![first@]);
    let ghost outcome = decode_list(T::opening(), input@);
    assert(outcome == continued(views(entries@), decode_more(T::opening(), after@)));
    let mut rest: &'a [u8] = after;
    loop
        invariant
            bracket@ == seq![93u8],
            comma@ == seq![44u8],
            outcome == decode_list(T::opening(), input@),
            outcome == continued(views(entries@), decode_more(T::opening(), rest@)),
        decreases rest@.len(),
    {
        match take_literal(rest, bracket.as_slice()) {
            Some(left) => {
                assert(views(entries@) + Seq::<EntryView>::empty() =~= views(entries@));
                return Some((entries, left));
            },
            None => {},
        }
        let next: &'a [u8] = match take_literal(rest, comma.as_slice()) {
            Some(next) => next,
            None => {
                return None;
            },
        };
        let (entry, after): (T, &'a [u8]) = match take_entry::<T>(next) {
            Some(taken) => taken,
            None => {
                return None;
            },
        };
        let ghost before = views(entries@);
        proof {
            lemma_entry_taken(T::opening(), next@);
            lemma_stripped(rest@, seq![44u8]);
            let more = decode_more(T::opening(), after@);
            if more is Some {
                assert(before + (seq![entry@] + (more->0).0) =~= before.push(entry@)
                    + (more->0).0);
            }
        }
        entries.push(entry);
        assert(views(entries@) =~= before.push(entry@));
        rest = after;
    }
}

/// What stands before the identifier of a definition.
pub open spec fn definition_opening() -> Seq<u8> {
    <WorkspaceRepositoryDefinitionDigest as DigestEntry>::opening()
}

/// What stands before the identifier of a source.
pub open spec fn source_opening() -> Seq<u8> {
    <WorkspaceRepositorySourceDigest as DigestEntry>::opening()
}

/// The encoding of a snapshot from its provenance on, with the closing line
/// feed.
pub open spec fn tail_form(snapshot: SnapshotView) -> Seq<u8> {
    encode_utf8(",\"git\":{\"commit_sha\":"@) + (optional_text_form(snapshot.commit) + (
    encode_utf8(",\"dirty\":"@) + (bool_form(snapshot.dirty) + actors_form(
        snapshot.operation,
        snapshot.actor,
    ))))
}

/// The encoding of a snapshot up to its sources, and what follows.
pub open spec fn head_form(snapshot: SnapshotView, rest: Seq<u8>) -> Seq<u8> {
    encode_utf8("{\"contract_version\":"@) + (decimal_text(snapshot.contract_version as nat) + (
    seq![44u8] + (encode_utf8("\"resolved_config_sha256\":\""@) + (text_form(snapshot.config) + (
    encode_utf8(",\"definitions\":["@) + (list_form(definition_opening(), snapshot.definitions) + (
    encode_utf8(",\"sources\":["@) + (list_form(source_opening(), snapshot.sources) + rest))))))))
}

/// The canonical encoding of a snapshot: compact JSON and a line feed.
pub open spec fn snapshot_form(snapshot: SnapshotView) -> Seq<u8> {
    head_form(snapshot, tail_form(snapshot))
}

/// What stands in front of a snapshot's provenance.
pub ghost struct SnapshotHead {
    pub contract_version: u32,
    pub config: Seq<char>,
    pub definitions: Seq<EntryView>,
    pub sources: Seq<EntryView>,
}

/// Take what stands in front of a snapshot's provenance.
pub open spec fn decode_head(input: Seq<u8>) -> Option<(SnapshotHead, Seq<u8>)> {
    match strip(input, encode_utf8("{\"contract_version\":"@)) {
        None => None,
        Some(input) => match decode_number(input) {
            None => None,
            Some((contract_version, input)) => match strip(input, seq![44u8]) {
                None => None,
                Some(input) => match strip(input, encode_utf8("\"resolved_config_sha256\":\""@)) {
                    None => None,
                    Some(input) => match decode_text(input) {
                        None => None,
                        Some((config, input)) => match decode_lists(input) {
                            None => None,
                            Some((definitions, sources, rest)) => Some(
                                (
                                    SnapshotHead { contract_version, config, definitions, sources },
                                    rest,
                                ),
                            ),
                        },
                    },
                },
            },
        },
    }
}

/// Take the definitions and sources.
pub open spec fn decode_lists(input: Seq<u8>) -> Option<
    (Seq<EntryView>, Seq<EntryView>, Seq<u8>),
> {
    match strip(input, encode_utf8(",\"definitions\":["@)) {
        None => None,
        Some(input) => match decode_list(definition_opening(), input) {
            None => None,
            Some((definitions, input)) => match strip(input, encode_utf8(",\"sources\":["@)) {
                None => None,
                Some(input) => match decode_list(source_opening(), input) {
                    None => None,
                    Some((sources, rest)) => Some((definitions, sources, rest)),
                },
            },
        },
    }
}

/// Take the provenance of a snapshot and what follows it, to the end.
pub open spec fn decode_tail(head: SnapshotHead, input: Seq<u8>) -> Option<SnapshotView> {
    match strip(input, encode_utf8(",\"git\":{\"commit_sha\":"@)) {
        None => None,
        Some(input) => match decode_optional_text(input) {
            None => None,
            Some((commit, input)) => match strip(input, encode_utf8(",\"dirty\":"@)) {
                None => None,
                Some(input) => match decode_bool(input) {
                    None => None,
                    Some((dirty, input)) => match decode_actors(input) {
                        None => None,
                        Some((operation, actor)) => Some(
                            SnapshotView {
                                contract_version: head.contract_version,
                                config: head.config,
                                definitions: head.definitions,
                                sources: head.sources,
                                commit,
                                dirty,
                                operation,
                                actor,
                            },
                        ),
                    },
                },
            },
        },
    }
}

/// Take the identities at the end of a snapshot.
pub open spec fn decode_actors(input: Seq<u8>) -> Option<(u128, Option<u128>)> {
    match strip(input, encode_utf8("},\"operation_uuid\":\""@)) {
        None => None,
        Some(input) => match decode_uuid(input) {
            None => None,
            Some((operation, input)) => match strip(input, encode_utf8(",\"actor_uuid\":"@)) {
                None => None,
                Some(input) => match decode_optional_uuid(input) {
                    None => None,
                    Some((actor, input)) => if input == seq![125u8, 10u8] {
                        Some((operation, actor))
                    } else {
                        None
                    },
                },
            },
        },
    }
}

/// The snapshot that a byte string is the encoding of.
pub open spec fn decode_snapshot(input: Seq<u8>) -> Option<SnapshotView> {
    match decode_head(input) {
        None => None,
        Some((head, rest)) => decode_tail(head, rest),
    }
}

/// Whether the texts of a snapshot stand for themselves.
pub open spec fn plain_snapshot(snapshot: SnapshotView) -> bool {
    &&& plain_text(snapshot.config)
    &&& plain_entries(snapshot.definitions)
    &&& plain_entries(snapshot.sources)
    &&& snapshot.commit matches Some(commit) ==> plain_text(commit)
}

/// The front of a snapshot.
pub open spec fn head_of(snapshot: SnapshotView) -> SnapshotHead {
    SnapshotHead {
        contract_version: snapshot.contract_version,
        config: snapshot.config,
        definitions: snapshot.definitions,
        sources: snapshot.sources,
    }
}

proof fn lemma_head_read(snapshot: SnapshotView, rest: Seq<u8>)
    requires
        plain_snapshot(snapshot),
    ensures
        decode_head(head_form(snapshot, rest)) == Some((head_of(snapshot), rest)),
{
    let h = list_form(source_opening(), snapshot.sources) + rest;
    let g = encode_utf8(",\"sources\":["@) + h;
    let f = list_form(definition_opening(), snapshot.definitions) + g;
    let e = encode_utf8(",\"definitions\":["@) + f;
    let d = text_form(snapshot.config) + e;
    let c = encode_utf8("\"resolved_config_sha256\":\""@) + d;
    let b = seq![44u8] + c;
    let a = decimal_text(snapshot.contract_version as nat) + b;
    lemma_strip(encode_utf8("{\"contract_version\":"@), a);
    assert(b[0] == 44);
    lemma_number_read(snapshot.contract_version, b);
    lemma_strip(seq![44u8], c);
    lemma_strip(encode_utf8("\"resolved_config_sha256\":\""@), d);
    lemma_text_read(snapshot.config, e);
    lemma_strip(encode_utf8(",\"definitions\":["@), f);
    lemma_list_read(definition_opening(), snapshot.definitions, g);
    lemma_strip(encode_utf8(",\"sources\":["@), h);
    lemma_list_read(source_opening(), snapshot.sources, rest);
}

/// The encoding of the identities at the end of a snapshot.
pub open spec fn actors_form(operation: u128, actor: Option<u128>) -> Seq<u8> {
    encode_utf8("},\"operation_uuid\":\""@) + (uuid_form(operation) + (encode_utf8(
        ",\"actor_uuid\":"@,
    ) + (optional_uuid_form(actor) + seq![125u8, 10u8])))
}

proof fn lemma_actors_read(operation: u128, actor: Option<u128>)
    ensures
        decode_actors(actors_form(operation, actor)) == Some((operation, actor)),
{
    let end = seq![125u8, 10u8];
    let g = optional_uuid_form(actor) + end;
    let f = encode_utf8(",\"actor_uuid\":"@) + g;
    let e = uuid_form(operation) + f;
    lemma_strip(encode_utf8("},\"operation_uuid\":\""@), e);
    lemma_uuid_read(operation, f);
    lemma_strip(encode_utf8(",\"actor_uuid\":"@), g);
    lemma_optional_uuid_read(actor, end);
}

proof fn lemma_tail_read(snapshot: SnapshotView)
    requires
        plain_snapshot(snapshot),
    ensures
        decode_tail(head_of(snapshot), tail_form(snapshot)) == Some(snapshot),
{
    let d = actors_form(snapshot.operation, snapshot.actor);
    let c = bool_form(snapshot.dirty) + d;
    let b = encode_utf8(",\"dirty\":"@) + c;
    let a = optional_text_form(snapshot.commit) + b;
    lemma_strip(encode_utf8(",\"git\":{\"commit_sha\":"@), a);
    lemma_optional_text_read(snapshot.commit, b);
    lemma_strip(encode_utf8(",\"dirty\":"@), c);
    lemma_bool_read(snapshot.dirty, d);
    lemma_actors_read(snapshot.operation, snapshot.actor);
}

/// A snapshot comes back from its encoding.
pub proof fn lemma_snapshot_read(snapshot: SnapshotView)
    requires
        plain_snapshot(snapshot),
    ensures
        decode_snapshot(snapshot_form(snapshot)) == Some(snapshot),
{
    lemma_head_read(snapshot, tail_form(snapshot));
    lemma_tail_read(snapshot);
}

proof fn lemma_head_taken(input: Seq<u8>)
    ensures
        decode_head(input) matches Some((head, rest)) ==> plain_text(head.config) && plain_entries(
            head.definitions,
        ) && plain_entries(head.sources) && (forall|snapshot: SnapshotView|
            head_of(snapshot) == head ==> input == #[trigger] head_form(snapshot, rest)),
{
    if decode_head(input) is Some {
        let (head, rest) = decode_head(input)->0;
        lemma_stripped(input, encode_utf8("{\"contract_version\":"@));
        let a = strip(input, encode_utf8("{\"contract_version\":"@))->0;
        lemma_number_taken(a);
        let b = (decode_number(a)->0).1;
        lemma_stripped(b, seq![44u8]);
        let c = strip(b, seq![44u8])->0;
        lemma_stripped(c, encode_utf8("\"resolved_config_sha256\":\""@));
        let d = strip(c, encode_utf8("\"resolved_config_sha256\":\""@))->0;
        lemma_text_taken(d);
        let e = (decode_text(d)->0).1;
        lemma_stripped(e, encode_utf8(",\"definitions\":["@));
        let f = strip(e, encode_utf8(",\"definitions\":["@))->0;
        lemma_list_taken(definition_opening(), f);
        let g = (decode_list(definition_opening(), f)->0).1;
        lemma_stripped(g, encode_utf8(",\"sources\":["@));
        let h = strip(g, encode_utf8(",\"sources\":["@))->0;
        lemma_list_taken(source_opening(), h);
    }
}

proof fn lemma_actors_taken(input: Seq<u8>)
    ensures
        decode_actors(input) matches Some((operation, actor)) ==> input == actors_form(
            operation,
            actor,
        ),
{
    if decode_actors(input) is Some {
        lemma_stripped(input, encode_utf8("},\"operation_uuid\":\""@));
        let e = strip(input, encode_utf8("},\"operation_uuid\":\""@))->0;
        lemma_uuid_taken(e);
        let f = (decode_uuid(e)->0).1;
        lemma_stripped(f, encode_utf8(",\"actor_uuid\":"@));
        let g = strip(f, encode_utf8(",\"actor_uuid\":"@))->0;
        lemma_optional_uuid_taken(g);
    }
}

proof fn lemma_tail_taken(head: SnapshotHead, input: Seq<u8>)
    ensures
        decode_tail(head, input) matches Some(snapshot) ==> head_of(snapshot) == head && input
            == tail_form(snapshot) && (snapshot.commit matches Some(commit) ==> plain_text(commit)),
{
    if decode_tail(head, input) is Some {
        lemma_stripped(input, encode_utf8(",\"git\":{\"commit_sha\":"@));
        let a = strip(input, encode_utf8(",\"git\":{\"commit_sha\":"@))->0;
        lemma_optional_text_taken(a);
        let b = (decode_optional_text(a)->0).1;
        lemma_stripped(b, encode_utf8(",\"dirty\":"@));
        let c = strip(b, encode_utf8(",\"dirty\":"@))->0;
        lemma_bool_taken(c);
        let d = (decode_bool(c)->0).1;
        lemma_actors_taken(d);
    }
}

/// Only the encoding of a snapshot is read as one.
pub proof fn lemma_snapshot_taken(input: Seq<u8>)
    ensures
        decode_snapshot(input) matches Some(snapshot) ==> plain_snapshot(snapshot) && input
            == snapshot_form(snapshot),
{
    lemma_head_taken(input);
    if decode_head(input) is Some {
        let (head, rest) = decode_head(input)->0;
        lemma_tail_taken(head, rest);
    }
}

proof fn lemma_five(s: Seq<u8>, a: Seq<u8>, b: Seq<u8>, c: Seq<u8>, d: Seq<u8>, e: Seq<u8>, x: Seq<u8>)
    ensures
        s + a + b + c + d + e + x == s + (a + (b + (c + (d + (e + x))))),
{
    lemma_joined(s + a + b + c + d, e, x);
    lemma_joined(s + a + b + c, d, e + x);
    lemma_joined(s + a + b, c, d + (e + x));
    lemma_joined(s + a, b, c + (d + (e + x)));
    lemma_joined(s, a, b + (c + (d + (e + x))));
}

/// The encoding of the definitions and sources, and what follows.
pub open spec fn lists_form(
    definitions: Seq<EntryView>,
    sources: Seq<EntryView>,
    rest: Seq<u8>,
) -> Seq<u8> {
    encode_utf8(",\"definitions\":["@) + (list_form(definition_opening(), definitions) + (
    encode_utf8(",\"sources\":["@) + (list_form(source_opening(), sources) + rest)))
}

proof fn lemma_lists_joined(
    s: Seq<u8>,
    definitions: Seq<EntryView>,
    sources: Seq<EntryView>,
    rest: Seq<u8>,
)
    ensures
        s + encode_utf8(",\"definitions\":["@) + list_form(definition_opening(), definitions)
            + encode_utf8(",\"sources\":["@) + list_form(source_opening(), sources) + rest == s
            + lists_form(definitions, sources, rest),
{
    let a = encode_utf8(",\"definitions\":["@);
    let b = list_form(definition_opening(), definitions);
    let c = encode_utf8(",\"sources\":["@);
    let d = list_form(source_opening(), sources);
    lemma_joined(s + a + b + c, d, rest);
    lemma_joined(s + a + b, c, d + rest);
    lemma_joined(s + a, b, c + (d + rest));
    lemma_joined(s, a, b + (c + (d + rest)));
}

fn push_head(out: &mut Vec<u8>, snapshot: &WorkspaceRepositorySnapshot)
    ensures
        forall|rest: Seq<u8>|
            final(out)@ + rest == old(out)@ + #[trigger] head_form(snapshot@, rest),
{
    let ghost start = out@;
    let ghost view = snapshot@;
    let digits: Vec<u8> = decimal_codes(snapshot.contract_version as u64);
    push_text(out, "{\"contract_version\":");
    push_all(out, digits.as_slice());
    push_byte(out, 44);
    push_text(out, "\"resolved_config_sha256\":\"");
    push_quoted(out, &snapshot.resolved_config_sha256);
    let ghost middle = out@;
    push_text(out, ",\"definitions\":[");
    push_list(out, &snapshot.definitions);
    push_text(out, ",\"sources\":[");
    push_list(out, &snapshot.sources);
    proof {
        assert forall|rest: Seq<u8>| out@ + rest == start + #[trigger] head_form(view, rest) by {
            lemma_lists_joined(middle, view.definitions, view.sources, rest);
            lemma_five(
                start,
                encode_utf8("{\"contract_version\":"@),
                decimal_text(view.contract_version as nat),
                seq![44u8],
                encode_utf8("\"resolved_config_sha256\":\""@),
                text_form(view.config),
                lists_form(view.definitions, view.sources, rest),
            );
        }
    }
}

fn push_actors(out: &mut Vec<u8>, operation: u128, actor: Option<u128>)
    ensures
        final(out)@ == old(out)@ + actors_form(operation, actor),
{
    let ghost start = out@;
    push_text(out, "},\"operation_uuid\":\"");
    push_uuid(out, operation);
    out.push(34);
    push_text(out, ",\"actor_uuid\":");
    push_optional_uuid(out, actor);
    out.push(125);
    out.push(10);
    assert(out@ =~= start + actors_form(operation, actor));
}

proof fn lemma_four(s: Seq<u8>, a: Seq<u8>, b: Seq<u8>, c: Seq<u8>, d: Seq<u8>, x: Seq<u8>)
    ensures
        s + a + b + c + d + x == s + (a + (b + (c + (d + x)))),
{
    lemma_joined(s + a + b + c, d, x);
    lemma_joined(s + a + b, c, d + x);
    lemma_joined(s + a, b, c + (d + x));
    lemma_joined(s, a, b + (c + (d + x)));
}

fn push_tail(out: &mut Vec<u8>, snapshot: &WorkspaceRepositorySnapshot)
    ensures
        final(out)@ == old(out)@ + tail_form(snapshot@),
{
    let ghost start = out@;
    push_text(out, ",\"git\":{\"commit_sha\":");
    push_optional_text(out, &snapshot.git.commit_sha);
    push_text(out, ",\"dirty\":");
    push_bool(out, snapshot.git.dirty);
    push_actors(out, snapshot.operation_uuid, snapshot.actor_uuid);
    proof {
        lemma_four(
            start,
            encode_utf8(",\"git\":{\"commit_sha\":"@),
            optional_text_form(snapshot@.commit),
            encode_utf8(",\"dirty\":"@),
            bool_form(snapshot@.dirty),
            actors_form(snapshot@.operation, snapshot@.actor),
        );
    }
}

fn encode_snapshot(snapshot: &WorkspaceRepositorySnapshot) -> (bytes: Vec<u8>)
    ensures
        bytes@ == snapshot_form(snapshot@),
{
    let mut out: Vec<u8> = Vec::new();
    push_head(&mut out, snapshot);
    let ghost middle = out@;
    push_tail(&mut out, snapshot);
    proof {
        let tail = tail_form(snapshot@);
        assert(middle + tail == Seq::<u8>::empty() + head_form(snapshot@, tail));
        assert(Seq::<u8>::empty() + head_form(snapshot@, tail) =~= head_form(snapshot@, tail));
    }
    out
}

/// The encoding of a snapshot, or why it has none.
pub open spec fn written(snapshot: SnapshotView) -> Result<Seq<u8>, Seq<char>> {
    match snapshot_fault(snapshot) {
        Some(text) => Err(text),
        None => if snapshot_form(snapshot).len() > MAX_WORKSPACE_REPOSITORY_SNAPSHOT_BYTES {
            Err("workspace repository snapshot exceeds size limit"@)
        } else {
            Ok(snapshot_form(snapshot))
        },
    }
}

/// The record that a JSON reader found in some bytes, where these are its
/// canonical encoding, or why it is refused.
pub open spec fn admitted(bytes: Seq<u8>, parsed: Option<SnapshotView>) -> Result<
    SnapshotView,
    Seq<char>,
> {
    if bytes.len() > MAX_WORKSPACE_REPOSITORY_SNAPSHOT_BYTES {
        Err("workspace repository snapshot exceeds size limit"@)
    } else if !one_record(bytes) {
        Err("workspace repository snapshot is not canonical JSON plus LF"@)
    } else {
        match parsed {
            None => Err("workspace repository snapshot is malformed"@),
            Some(record) => match snapshot_fault(record) {
                Some(text) => Err(text),
                None => if snapshot_form(record) != bytes {
                    Err("workspace repository snapshot is not canonically encoded"@)
                } else {
                    Ok(record)
                },
            },
        }
    }
}

/// The snapshot of an encoding, or why there is none.
pub open spec fn read(bytes: Seq<u8>) -> Result<SnapshotView, Seq<char>> {
    if bytes.len() > MAX_WORKSPACE_REPOSITORY_SNAPSHOT_BYTES {
        Err("workspace repository snapshot exceeds size limit"@)
    } else if !one_record(bytes) {
        Err("workspace repository snapshot is not canonical JSON plus LF"@)
    } else {
        match decode_snapshot(bytes) {
            None => Err("workspace repository snapshot is malformed"@),
            Some(snapshot) => match snapshot_fault(snapshot) {
                Some(text) => Err(text),
                None => Ok(snapshot),
            },
        }
    }
}

fn take_head<'a>(input: &'a [u8]) -> (taken: Option<
    (
        u32,
        String,
        Vec<WorkspaceRepositoryDefinitionDigest>,
        Vec<WorkspaceRepositorySourceDigest>,
        &'a [u8],
    ),
>)
    ensures
        match taken {
            Some((contract_version, config, definitions, sources, rest)) => decode_head(input@)
                == Some(
                (
                    SnapshotHead {
                        contract_version,
                        config: config@,
                        definitions: views(definitions@),
                        sources: views(sources@),
                    },
                    rest@,
                ),
            ),
            None => decode_head(input@) is None,
        },
{
    let opening: &str = "{\"contract_version\":";
    let config_key: &str = "\"resolved_config_sha256\":\"";
    let definitions_key: &str = ",\"definitions\":[";
    let sources_key: &str = ",\"sources\":[";
    let comma: Vec<u8> = vec![44];
    assert(comma@ =~= seq![44u8]);
    let rest: &'a [u8] = match take_literal(input, opening.as_bytes()) {
        Some(rest) => rest,
        None => {
            return None;
        },
    };
    let (contract_version, rest): (u32, &'a [u8]) = match take_number(rest) {
        Some(taken) => taken,
        None => {
            return None;
        },
    };
    let rest: &'a [u8] = match take_literal(rest, comma.as_slice()) {
        Some(rest) => rest,
        None => {
            return None;
        },
    };
    let rest: &'a [u8] = match take_literal(rest, config_key.as_bytes()) {
        Some(rest) => rest,
        None => {
            return None;
        },
    };
    let (config, rest): (String, &'a [u8]) = match take_text(rest) {
        Some(taken) => taken,
        None => {
            return None;
        },
    };
    let rest: &'a [u8] = match take_literal(rest, definitions_key.as_bytes()) {
        Some(rest) => rest,
        None => {
            return None;
        },
    };
    let (definitions, rest): (Vec<WorkspaceRepositoryDefinitionDigest>, &'a [u8]) =
        match take_list::<WorkspaceRepositoryDefinitionDigest>(rest) {
        Some(taken) => taken,
        None => {
            return None;
        },
    };
    let rest: &'a [u8] = match take_literal(rest, sources_key.as_bytes()) {
        Some(rest) => rest,
        None => {
            return None;
        },
    };
    match take_list::<WorkspaceRepositorySourceDigest>(rest) {
        Some((sources, rest)) => Some((contract_version, config, definitions, sources, rest)),
        None => None,
    }
}

fn take_actors(input: &[u8]) -> (taken: Option<(u128, Option<u128>)>)
    ensures
        taken == decode_actors(input@),
{
    let operation_key: &str = "},\"operation_uuid\":\"";
    let actor_key: &str = ",\"actor_uuid\":";
    let end: Vec<u8> = vec![125, 10];
    assert(end@ =~= seq![125u8, 10u8]);
    let rest: &[u8] = match take_literal(input, operation_key.as_bytes()) {
        Some(rest) => rest,
        None => {
            return None;
        },
    };
    let (operation, rest): (u128, &[u8]) = match take_uuid(rest) {
        Some(taken) => taken,
        None => {
            return None;
        },
    };
    let rest: &[u8] = match take_literal(rest, actor_key.as_bytes()) {
        Some(rest) => rest,
        None => {
            return None;
        },
    };
    let (actor, rest): (Option<u128>, &[u8]) = match take_optional_uuid(rest) {
        Some(taken) => taken,
        None => {
            return None;
        },
    };
    if crate::bytes::same_bytes(rest, end.as_slice()) {
        Some((operation, actor))
    } else {
        None
    }
}

fn parse_snapshot(bytes: &[u8]) -> (snapshot: Option<WorkspaceRepositorySnapshot>)
    ensures
        match snapshot {
            Some(snapshot) => decode_snapshot(bytes@) == Some(snapshot@),
            None => decode_snapshot(bytes@) is None,
        },
{
    let git_key: &str = ",\"git\":{\"commit_sha\":";
    let dirty_key: &str = ",\"dirty\":";
    let (contract_version, config, definitions, sources, rest) = match take_head(bytes) {
        Some(taken) => taken,
        None => {
            return None;
        },
    };
    let rest: &[u8] = match take_literal(rest, git_key.as_bytes()) {
        Some(rest) => rest,
        None => {
            return None;
        },
    };
    let (commit_sha, rest): (Option<String>, &[u8]) = match take_optional_text(rest) {
        Some(taken) => taken,
        None => {
            return None;
        },
    };
    let rest: &[u8] = match take_literal(rest, dirty_key.as_bytes()) {
        Some(rest) => rest,
        None => {
            return None;
        },
    };
    let (dirty, rest): (bool, &[u8]) = match take_bool(rest) {
        Some(taken) => taken,
        None => {
            return None;
        },
    };
    match take_actors(rest) {
        Some((operation_uuid, actor_uuid)) => Some(
            WorkspaceRepositorySnapshot {
                contract_version,
                resolved_config_sha256: config,
                definitions,
                sources,
                git: WorkspaceRepositoryGitProvenance { commit_sha, dirty },
                operation_uuid,
                actor_uuid,
            },
        ),
        None => None,
    }
}

impl WorkspaceRepositorySnapshot {
    /// Check the snapshot and encode it as canonical JSON and a line feed.
    pub fn to_canonical_json(&self) -> (bytes: Result<Vec<u8>, GfError>)
        ensures
            match bytes {
                Ok(bytes) => written(self@) == Ok::<Seq<u8>, Seq<char>>(bytes@),
                Err(error) => written(self@) is Err && error.is_corrupt(written(self@)->Err_0),
            },
    {
        match validate_repository_snapshot(self) {
            Ok(()) => {},
            Err(error) => {
                return Err(error);
            },
        }
        let bytes: Vec<u8> = encode_snapshot(self);
        if bytes.len() > MAX_WORKSPACE_REPOSITORY_SNAPSHOT_BYTES {
            return Err(corrupt("workspace repository snapshot exceeds size limit"));
        }
        Ok(bytes)
    }

    /// Read a snapshot from exactly its canonical encoding, and check it. What
    /// is encoded otherwise is malformed here: a JSON reader is needed to tell
    /// more of it, and [`Self::from_parsed_json`] to go on from there.
    pub fn from_canonical_json(bytes: &[u8]) -> (snapshot: Result<
        WorkspaceRepositorySnapshot,
        GfError,
    >)
        ensures
            match snapshot {
                Ok(snapshot) => read(bytes@) == Ok::<SnapshotView, Seq<char>>(snapshot@),
                Err(error) => read(bytes@) is Err && error.is_corrupt(read(bytes@)->Err_0),
            },
    {
        if bytes.len() > MAX_WORKSPACE_REPOSITORY_SNAPSHOT_BYTES {
            return Err(corrupt("workspace repository snapshot exceeds size limit"));
        }
        if !is_one_record(bytes) {
            return Err(corrupt("workspace repository snapshot is not canonical JSON plus LF"));
        }
        let snapshot: WorkspaceRepositorySnapshot = match parse_snapshot(bytes) {
            Some(snapshot) => snapshot,
            None => {
                return Err(corrupt("workspace repository snapshot is malformed"));
            },
        };
        match validate_repository_snapshot(&snapshot) {
            Ok(()) => Ok(snapshot),
            Err(error) => Err(error),
        }
    }

    /// Check the record that a JSON reader found in some bytes, if it found
    /// one, and that the bytes are its canonical encoding.
    pub fn from_parsed_json(bytes: &[u8], parsed: Option<WorkspaceRepositorySnapshot>) -> (record: Result<
        WorkspaceRepositorySnapshot,
        GfError,
    >)
        ensures
            ({
                let outcome = admitted(
                    bytes@,
                    match parsed {
                        Some(parsed) => Some(parsed@),
                        None => None,
                    },
                );
                match record {
                    Ok(record) => outcome == Ok::<SnapshotView, Seq<char>>(record@),
                    Err(error) => outcome is Err && error.is_corrupt(outcome->Err_0),
                }
            }),
    {
        if bytes.len() > MAX_WORKSPACE_REPOSITORY_SNAPSHOT_BYTES {
            return Err(corrupt("workspace repository snapshot exceeds size limit"));
        }
        if !is_one_record(bytes) {
            return Err(corrupt("workspace repository snapshot is not canonical JSON plus LF"));
        }
        let record: WorkspaceRepositorySnapshot = match parsed {
            Some(record) => record,
            None => {
                return Err(corrupt("workspace repository snapshot is malformed"));
            },
        };
        match validate_repository_snapshot(&record) {
            Ok(()) => {},
            Err(error) => {
                return Err(error);
            },
        }
        let encoded: Vec<u8> = encode_snapshot(&record);
        if !crate::bytes::same_bytes(encoded.as_slice(), bytes) {
            return Err(corrupt("workspace repository snapshot is not canonically encoded"));
        }
        Ok(record)
    }
}

proof fn lemma_hex_plain(text: Seq<char>, length: nat)
    requires
        lower_hex_text(text, length),
    ensures
        plain_text(text),
{
    let bytes = encode_utf8(text);
    assert forall|i: int| 0 <= i < bytes.len() implies is_plain(#[trigger] bytes[i]) by {
        assert(is_lower_hex(bytes[i]));
    }
}

proof fn lemma_listed_plain(entries: Seq<EntryView>, name: Seq<char>)
    requires
        listed_fault(entries, name) is None,
    ensures
        plain_entries(entries),
    decreases entries.len(),
{
    if entries.len() > 0 {
        let before = entries.drop_last();
        lemma_listed_plain(before, name);
        let last = entries.last();
        let bytes = encode_utf8(last.id);
        assert forall|i: int| 0 <= i < bytes.len() implies is_plain(#[trigger] bytes[i]) by {
            assert(id_byte(bytes[i], i));
        }
        lemma_hex_plain(last.sha256, 64);
        assert forall|i: int| 0 <= i < entries.len() implies plain_entry(
            #[trigger] entries[i],
        ) by {
            if i < before.len() {
                assert(before[i] == entries[i]);
            }
        }
    }
}

proof fn lemma_valid_plain(snapshot: SnapshotView)
    requires
        snapshot_fault(snapshot) is None,
    ensures
        plain_snapshot(snapshot),
{
    lemma_hex_plain(snapshot.config, 64);
    lemma_listed_plain(snapshot.definitions, "definition"@);
    lemma_listed_plain(snapshot.sources, "source"@);
    if let Some(commit) = snapshot.commit {
        if lower_hex_text(commit, 40) {
            lemma_hex_plain(commit, 40);
        } else {
            lemma_hex_plain(commit, 64);
        }
    }
}

proof fn lemma_head_lines()
    ensures
        one_line(encode_utf8("{\"contract_version\":"@)),
        one_line(encode_utf8("\"resolved_config_sha256\":\""@)),
        one_line(encode_utf8(",\"definitions\":["@)),
        one_line(encode_utf8(",\"sources\":["@)),
{
    reveal_strlit("{\"contract_version\":");
    lemma_line("{\"contract_version\":"@);
    reveal_strlit("\"resolved_config_sha256\":\"");
    lemma_line("\"resolved_config_sha256\":\""@);
    reveal_strlit(",\"definitions\":[");
    lemma_line(",\"definitions\":["@);
    reveal_strlit(",\"sources\":[");
    lemma_line(",\"sources\":["@);
}

proof fn lemma_tail_lines()
    ensures
        one_line(encode_utf8(",\"git\":{\"commit_sha\":"@)),
        one_line(encode_utf8(",\"dirty\":"@)),
        one_line(encode_utf8("},\"operation_uuid\":\""@)),
        one_line(encode_utf8(",\"actor_uuid\":"@)),
{
    reveal_strlit(",\"git\":{\"commit_sha\":");
    lemma_line(",\"git\":{\"commit_sha\":"@);
    reveal_strlit(",\"dirty\":");
    lemma_line(",\"dirty\":"@);
    reveal_strlit("},\"operation_uuid\":\"");
    lemma_line("},\"operation_uuid\":\""@);
    reveal_strlit(",\"actor_uuid\":");
    lemma_line(",\"actor_uuid\":"@);
}

proof fn lemma_entry_lines()
    ensures
        one_line(definition_opening()),
        one_line(source_opening()),
        one_line(encode_utf8(",\"sha256\":\""@)),
{
    reveal_strlit("\"definition_id\":\"");
    lemma_line("\"definition_id\":\""@);
    reveal_strlit("\"source_id\":\"");
    lemma_line("\"source_id\":\""@);
    reveal_strlit(",\"sha256\":\"");
    lemma_line(",\"sha256\":\""@);
}

proof fn lemma_entry_line(opening: Seq<u8>, entry: EntryView)
    requires
        one_line(opening),
        plain_entry(entry),
    ensures
        one_line(entry_form(opening, entry)),
{
    reveal(entry_form);
    lemma_entry_lines();
    lemma_text_line(entry.id);
    lemma_text_line(entry.sha256);
    let middle = encode_utf8(",\"sha256\":\""@);
    let c = text_form(entry.sha256) + seq![125u8];
    let b = middle + c;
    let a = text_form(entry.id) + b;
    lemma_lines(text_form(entry.sha256), seq![125u8]);
    lemma_lines(middle, c);
    lemma_lines(text_form(entry.id), b);
    lemma_lines(opening, a);
    lemma_lines(seq![123u8], entry_body(opening, entry));
}

proof fn lemma_more_line(opening: Seq<u8>, entries: Seq<EntryView>)
    requires
        one_line(opening),
        plain_entries(entries),
    ensures
        one_line(more_form(opening, entries)),
    decreases entries.len(),
{
    if entries.len() > 0 {
        let tail = entries.skip(1);
        assert forall|i: int| 0 <= i < tail.len() implies plain_entry(#[trigger] tail[i]) by {
            assert(tail[i] == entries[i + 1]);
        }
        assert(plain_entry(entries[0]));
        lemma_more_line(opening, tail);
        lemma_entry_line(opening, entries[0]);
        lemma_lines(entry_form(opening, entries[0]), more_form(opening, tail));
        lemma_lines(
            seq![44u8],
            entry_form(opening, entries[0]) + more_form(opening, tail),
        );
    }
}

proof fn lemma_list_line(opening: Seq<u8>, entries: Seq<EntryView>)
    requires
        one_line(opening),
        plain_entries(entries),
    ensures
        one_line(list_form(opening, entries)),
{
    reveal(list_form);
    if entries.len() > 0 {
        let tail = entries.skip(1);
        assert forall|i: int| 0 <= i < tail.len() implies plain_entry(#[trigger] tail[i]) by {
            assert(tail[i] == entries[i + 1]);
        }
        assert(plain_entry(entries[0]));
        lemma_more_line(opening, tail);
        lemma_entry_line(opening, entries[0]);
        lemma_lines(entry_form(opening, entries[0]), more_form(opening, tail));
    }
}

proof fn lemma_tail_record(snapshot: SnapshotView)
    requires
        plain_snapshot(snapshot),
    ensures
        one_record(tail_form(snapshot)),
{
    lemma_tail_lines();
    lemma_optional_lines(snapshot.commit, snapshot.actor);
    lemma_uuid_line(snapshot.operation);
    let end = seq![125u8, 10u8];
    assert(end.drop_last() =~= seq![125u8]);
    let g = optional_uuid_form(snapshot.actor) + end;
    let f = encode_utf8(",\"actor_uuid\":"@) + g;
    let e = uuid_form(snapshot.operation) + f;
    let d = encode_utf8("},\"operation_uuid\":\""@) + e;
    let c = bool_form(snapshot.dirty) + d;
    let b = encode_utf8(",\"dirty\":"@) + c;
    let a = optional_text_form(snapshot.commit) + b;
    lemma_lines(optional_uuid_form(snapshot.actor), end);
    lemma_lines(encode_utf8(",\"actor_uuid\":"@), g);
    lemma_lines(uuid_form(snapshot.operation), f);
    lemma_lines(encode_utf8("},\"operation_uuid\":\""@), e);
    lemma_lines(bool_form(snapshot.dirty), d);
    lemma_lines(encode_utf8(",\"dirty\":"@), c);
    lemma_lines(optional_text_form(snapshot.commit), b);
    lemma_lines(encode_utf8(",\"git\":{\"commit_sha\":"@), a);
}

proof fn lemma_snapshot_record(snapshot: SnapshotView)
    requires
        plain_snapshot(snapshot),
    ensures
        one_record(snapshot_form(snapshot)),
{
    lemma_tail_record(snapshot);
    lemma_head_lines();
    lemma_entry_lines();
    lemma_text_line(snapshot.config);
    lemma_decimal_line(snapshot.contract_version as nat);
    lemma_list_line(definition_opening(), snapshot.definitions);
    lemma_list_line(source_opening(), snapshot.sources);
    let rest = tail_form(snapshot);
    let h = list_form(source_opening(), snapshot.sources) + rest;
    let g = encode_utf8(",\"sources\":["@) + h;
    let f = list_form(definition_opening(), snapshot.definitions) + g;
    let e = encode_utf8(",\"definitions\":["@) + f;
    let d = text_form(snapshot.config) + e;
    let c = encode_utf8("\"resolved_config_sha256\":\""@) + d;
    let b = seq![44u8] + c;
    let a = decimal_text(snapshot.contract_version as nat) + b;
    lemma_lines(list_form(source_opening(), snapshot.sources), rest);
    lemma_lines(encode_utf8(",\"sources\":["@), h);
    lemma_lines(list_form(definition_opening(), snapshot.definitions), g);
    lemma_lines(encode_utf8(",\"definitions\":["@), f);
    lemma_lines(text_form(snapshot.config), e);
    lemma_lines(encode_utf8("\"resolved_config_sha256\":\""@), d);
    lemma_lines(seq![44u8], c);
    lemma_lines(decimal_text(snapshot.contract_version as nat), b);
    lemma_lines(encode_utf8("{\"contract_version\":"@), a);
}

/// What was written is read back unchanged.
pub proof fn lemma_written_read(snapshot: SnapshotView)
    requires
        written(snapshot) is Ok,
    ensures
        read(written(snapshot)->Ok_0) == Ok::<SnapshotView, Seq<char>>(snapshot),
{
    lemma_valid_plain(snapshot);
    lemma_snapshot_record(snapshot);
    lemma_snapshot_read(snapshot);
}

/// What is read is written back byte for byte.
pub proof fn lemma_read_written(bytes: Seq<u8>)
    requires
        read(bytes) is Ok,
    ensures
        written(read(bytes)->Ok_0) == Ok::<Seq<u8>, Seq<char>>(bytes),
{
    lemma_snapshot_taken(bytes);
}

/// A record that a JSON reader found is accepted for exactly the bytes that are
/// read as that record.
pub proof fn lemma_parsed_read(bytes: Seq<u8>, snapshot: SnapshotView)
    ensures
        admitted(bytes, Some(snapshot)) == Ok::<SnapshotView, Seq<char>>(snapshot) <==> read(bytes)
            == Ok::<SnapshotView, Seq<char>>(snapshot),
{
    if read(bytes) == Ok::<SnapshotView, Seq<char>>(snapshot) {
        lemma_read_written(bytes);
    }
    if admitted(bytes, Some(snapshot)) is Ok {
        assert(written(snapshot) == Ok::<Seq<u8>, Seq<char>>(bytes));
        lemma_written_read(snapshot);
    }
}

} // verus!
