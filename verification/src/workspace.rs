//! Workspace control records: ontology, configuration, and the participants
//! of a generation that they are published as.
use vstd::prelude::*;
use vstd::slice::*;
use vstd::string::*;
use vstd::utf8::*;

use crate::bytes::{
    decimal_codes, decimal_text, ends_with, has_suffix, push_all, same_text, string_from_utf8,
};
use crate::canonical_json::{
    decode_number, decode_optional_text, decode_text, is_one_record, is_plain, lemma_decimal_line,
    lemma_joined, lemma_line, lemma_lines, lemma_number_read, lemma_number_taken,
    lemma_optional_lines, lemma_optional_text_read, lemma_optional_text_taken, lemma_strip,
    lemma_stripped, lemma_text_line, lemma_text_read, lemma_text_taken, null_form, one_line,
    one_record, optional_text_form, plain_text, push_byte, push_null, push_optional_text,
    push_quoted, push_text, strip, take_literal, take_number, take_optional_text, take_text,
    text_form,
};
use crate::digest::{hex_sha256, sha256, sha256_digest, sha256_hex};
use crate::error::{corrupt, GfError};
use crate::json_documents::{holds_json, is_json, json_normal, JsonDocument};

verus! {

/// Capability that holds the workspace control records.
pub const WORKSPACE_CAPABILITY_ID: &'static str = "workspace";

/// Contract version of the workspace capability.
pub const WORKSPACE_CAPABILITY_VERSION: u32 = 1;

/// Family of the ontology record.
pub const WORKSPACE_ONTOLOGY_FAMILY: &'static str = "ontology";

/// Family of the configuration record.
pub const WORKSPACE_CONFIGURATION_FAMILY: &'static str = "configuration";

/// Family of the repository snapshot record.
pub const WORKSPACE_REPOSITORY_SNAPSHOT_FAMILY: &'static str = "repository_snapshot";

/// Family of the ontology composition record.
pub const WORKSPACE_ONTOLOGY_COMPOSITION_FAMILY: &'static str = "ontology_composition";

/// Family of the portable composition candidate.
pub const WORKSPACE_PORTABLE_ONTOLOGY_STAGING_FAMILY: &'static str = "portable_ontology_staging";

/// Encoding of a participant.
#[derive(Clone, Copy, Debug, PartialEq, Eq, Structural)]
pub enum ProjectParticipantEncoding {
    /// JSON.
    Json,
}

/// A participant of a project generation.
#[derive(Debug, PartialEq, Eq)]
pub struct ProjectParticipant {
    /// Capability.
    pub capability_id: String,
    /// Contract version of the capability.
    pub capability_version: u32,
    /// Record family.
    pub record_family_id: String,
    /// Version of the record.
    pub record_version: u32,
    /// Encoding.
    pub encoding: ProjectParticipantEncoding,
    /// SHA-256 digest of the schema name.
    pub schema_fingerprint: [u8; 32],
    /// Rows.
    pub row_count: u64,
    /// The encoded record.
    pub bytes: Vec<u8>,
}

/// Whether a participant is that of a record of a family.
pub open spec fn is_participant(
    participant: ProjectParticipant,
    family: Seq<char>,
    bytes: Seq<u8>,
) -> bool {
    &&& participant.capability_id@ == WORKSPACE_CAPABILITY_ID@
    &&& participant.capability_version == WORKSPACE_CAPABILITY_VERSION
    &&& participant.record_family_id@ == family
    &&& participant.record_version == 1
    &&& participant.encoding == ProjectParticipantEncoding::Json
    &&& participant.schema_fingerprint@ == sha256_digest(
        encode_utf8("workspace/"@ + family + "@1"@),
    )
    &&& participant.row_count == 1
    &&& participant.bytes@ == bytes
}

pub(crate) fn participant(family: &str, bytes: Vec<u8>) -> (participant: ProjectParticipant)
    ensures
        is_participant(participant, family@, bytes@),
{
    let schema: String = crate::error::concat3("workspace/", family, "@1");
    ProjectParticipant {
        capability_id: WORKSPACE_CAPABILITY_ID.to_owned(),
        capability_version: WORKSPACE_CAPABILITY_VERSION,
        record_family_id: family.to_owned(),
        record_version: 1,
        encoding: ProjectParticipantEncoding::Json,
        schema_fingerprint: sha256(schema.as_str().as_bytes()),
        row_count: 1,
        bytes,
    }
}

/// Mode of the execution layer.
#[derive(Clone, Copy, Debug, PartialEq, Eq, Structural)]
pub enum OntologyMode {
    /// No validation.
    Exploratory,
    /// Advisory validation.
    Advisory,
    /// Strict validation.
    Strict,
}

/// Persisted ontology mode.
#[derive(Clone, Copy, Debug, PartialEq, Eq, Structural)]
pub enum WorkspaceOntologyMode {
    /// No adopted ontology.
    Absent,
    /// The adopted ontology is advisory.
    Advisory,
    /// The adopted ontology is enforced.
    Strict,
}

/// The token of an ontology mode.
pub open spec fn mode_token(mode: WorkspaceOntologyMode) -> Seq<char> {
    match mode {
        WorkspaceOntologyMode::Absent => "none"@,
        WorkspaceOntologyMode::Advisory => "advisory"@,
        WorkspaceOntologyMode::Strict => "strict"@,
    }
}

/// The mode that a token stands for.
pub open spec fn mode_of(token: Seq<char>) -> Option<WorkspaceOntologyMode> {
    if token == "none"@ {
        Some(WorkspaceOntologyMode::Absent)
    } else if token == "advisory"@ {
        Some(WorkspaceOntologyMode::Advisory)
    } else if token == "strict"@ {
        Some(WorkspaceOntologyMode::Strict)
    } else {
        None
    }
}

impl WorkspaceOntologyMode {
    /// The mode of the execution layer.
    pub fn execution_mode(self) -> (mode: OntologyMode)
        ensures
            mode == match self {
                WorkspaceOntologyMode::Absent => OntologyMode::Exploratory,
                WorkspaceOntologyMode::Advisory => OntologyMode::Advisory,
                WorkspaceOntologyMode::Strict => OntologyMode::Strict,
            },
    {
        match self {
            WorkspaceOntologyMode::Absent => OntologyMode::Exploratory,
            WorkspaceOntologyMode::Advisory => OntologyMode::Advisory,
            WorkspaceOntologyMode::Strict => OntologyMode::Strict,
        }
    }

    fn token(self) -> (token: &'static str)
        ensures
            token@ == mode_token(self),
    {
        match self {
            WorkspaceOntologyMode::Absent => "none",
            WorkspaceOntologyMode::Advisory => "advisory",
            WorkspaceOntologyMode::Strict => "strict",
        }
    }

    fn parse(token: &str) -> (mode: Option<WorkspaceOntologyMode>)
        ensures
            mode == mode_of(token@),
    {
        if same_text(token, "none") {
            Some(WorkspaceOntologyMode::Absent)
        } else if same_text(token, "advisory") {
            Some(WorkspaceOntologyMode::Advisory)
        } else if same_text(token, "strict") {
            Some(WorkspaceOntologyMode::Strict)
        } else {
            None
        }
    }
}

pub(crate) proof fn lemma_mode_tokens(mode: WorkspaceOntologyMode)
    ensures
        mode_of(mode_token(mode)) == Some(mode),
        plain_text(mode_token(mode)),
{
    reveal_strlit("none");
    reveal_strlit("advisory");
    reveal_strlit("strict");
    assert("none"@[0] == 'n');
    assert("advisory"@[0] == 'a');
    assert("strict"@[0] == 's');
    lemma_letters("none"@);
    lemma_letters("advisory"@);
    lemma_letters("strict"@);
}

pub(crate) proof fn lemma_letters(text: Seq<char>)
    requires
        forall|i: int| 0 <= i < text.len() ==> 'a' <= #[trigger] text[i] <= 'z',
    ensures
        plain_text(text),
{
    assert(is_ascii_chars(text));
    is_ascii_chars_encode_utf8(text);
    let bytes = encode_utf8(text);
    assert forall|i: int| 0 <= i < bytes.len() implies is_plain(#[trigger] bytes[i]) by {
        assert(bytes[i] == text[i] as u8);
    }
}

/// Syntax that an ontology was adopted in.
#[derive(Clone, Copy, Debug, PartialEq, Eq, Structural)]
pub enum WorkspaceOntologySourceFormat {
    /// YAML.
    Yaml,
    /// JSON.
    Json,
}

/// The token of a source format.
pub open spec fn format_token(format: WorkspaceOntologySourceFormat) -> Seq<char> {
    match format {
        WorkspaceOntologySourceFormat::Yaml => "yaml"@,
        WorkspaceOntologySourceFormat::Json => "json"@,
    }
}

/// The source format that a token stands for.
pub open spec fn format_of(token: Seq<char>) -> Option<WorkspaceOntologySourceFormat> {
    if token == "yaml"@ {
        Some(WorkspaceOntologySourceFormat::Yaml)
    } else if token == "json"@ {
        Some(WorkspaceOntologySourceFormat::Json)
    } else {
        None
    }
}

proof fn lemma_format_tokens(format: WorkspaceOntologySourceFormat)
    ensures
        format_of(format_token(format)) == Some(format),
        plain_text(format_token(format)),
{
    reveal_strlit("yaml");
    reveal_strlit("json");
    assert("yaml"@[0] == 'y');
    assert("json"@[0] == 'j');
    lemma_letters("yaml"@);
    lemma_letters("json"@);
}

/// The token of a source format that may be absent.
pub open spec fn format_text(format: Option<WorkspaceOntologySourceFormat>) -> Option<Seq<char>> {
    match format {
        Some(format) => Some(format_token(format)),
        None => None,
    }
}

impl WorkspaceOntologySourceFormat {
    fn token(self) -> (token: &'static str)
        ensures
            token@ == format_token(self),
    {
        match self {
            WorkspaceOntologySourceFormat::Yaml => "yaml",
            WorkspaceOntologySourceFormat::Json => "json",
        }
    }

    fn parse(token: &str) -> (format: Option<WorkspaceOntologySourceFormat>)
        ensures
            format == format_of(token@),
    {
        if same_text(token, "yaml") {
            Some(WorkspaceOntologySourceFormat::Yaml)
        } else if same_text(token, "json") {
            Some(WorkspaceOntologySourceFormat::Json)
        } else {
            None
        }
    }
}

/// Directedness of a project's graph.
#[derive(Clone, Copy, Debug, PartialEq, Eq, Structural)]
pub enum GraphDirectedness {
    /// Edges are directed.
    Directed,
    /// Edges are undirected.
    Undirected,
}

/// The token of a directedness.
pub open spec fn directedness_token(directedness: GraphDirectedness) -> Seq<char> {
    match directedness {
        GraphDirectedness::Directed => "directed"@,
        GraphDirectedness::Undirected => "undirected"@,
    }
}

/// The directedness that a token stands for.
pub open spec fn directedness_of(token: Seq<char>) -> Option<GraphDirectedness> {
    if token == "directed"@ {
        Some(GraphDirectedness::Directed)
    } else if token == "undirected"@ {
        Some(GraphDirectedness::Undirected)
    } else {
        None
    }
}

/// A directedness comes back from its token.
pub proof fn lemma_directedness_tokens(directedness: GraphDirectedness)
    ensures
        directedness_of(directedness_token(directedness)) == Some(directedness),
{
    reveal_strlit("directed");
    reveal_strlit("undirected");
    assert("directed"@[0] == 'd');
    assert("undirected"@[0] == 'u');
}

impl GraphDirectedness {
    /// Parse a token.
    pub fn parse(value: &str) -> (directedness: Result<GraphDirectedness, GfError>)
        ensures
            match directedness {
                Ok(directedness) => directedness_of(value@) == Some(directedness),
                Err(error) => directedness_of(value@) is None && error.is_validation(
                    "graph_directedness must be \"directed\" or \"undirected\""@,
                ),
            },
    {
        if same_text(value, "directed") {
            Ok(GraphDirectedness::Directed)
        } else if same_text(value, "undirected") {
            Ok(GraphDirectedness::Undirected)
        } else {
            Err(
                GfError::Validation(
                    "graph_directedness must be \"directed\" or \"undirected\"".to_owned(),
                ),
            )
        }
    }

    /// The token.
    pub fn as_str(self) -> (token: &'static str)
        ensures
            token@ == directedness_token(self),
    {
        match self {
            GraphDirectedness::Directed => "directed",
            GraphDirectedness::Undirected => "undirected",
        }
    }
}

/// The ontology record.
#[derive(Debug, PartialEq, Eq)]
pub struct WorkspaceOntology {
    /// Contract version.
    pub contract_version: u32,
    /// Effective mode.
    pub mode: WorkspaceOntologyMode,
    /// Syntax of adoption; absent where no ontology is adopted.
    pub source_format: Option<WorkspaceOntologySourceFormat>,
    /// SHA-256 digest of the document; absent where no ontology is adopted.
    pub canonical_ontology_sha256: Option<String>,
    /// The document; absent where no ontology is adopted.
    pub canonical_ontology: Option<JsonDocument>,
}

/// Model of a [`WorkspaceOntology`].
#[verifier::ext_equal]
pub struct OntologyView {
    pub contract_version: u32,
    pub mode: WorkspaceOntologyMode,
    pub source_format: Option<WorkspaceOntologySourceFormat>,
    pub digest: Option<Seq<char>>,
    pub document: Option<Seq<char>>,
}

impl View for WorkspaceOntology {
    type V = OntologyView;

    open spec fn view(&self) -> OntologyView {
        OntologyView {
            contract_version: self.contract_version,
            mode: self.mode,
            source_format: self.source_format,
            digest: match self.canonical_ontology_sha256 {
                Some(digest) => Some(digest@),
                None => None,
            },
            document: match self.canonical_ontology {
                Some(document) => Some(document@),
                None => None,
            },
        }
    }
}

/// The record of a project without an ontology.
pub open spec fn no_ontology() -> OntologyView {
    OntologyView {
        contract_version: 1,
        mode: WorkspaceOntologyMode::Absent,
        source_format: None,
        digest: None,
        document: None,
    }
}

/// Why an ontology record is not acceptable, if it is not.
pub open spec fn ontology_fault(record: OntologyView) -> Option<Seq<char>> {
    if record.contract_version != 1 {
        Some("unsupported workspace ontology contract"@)
    } else if record.mode == WorkspaceOntologyMode::Absent {
        if record.source_format is None && record.digest is None && record.document is None {
            None
        } else {
            Some("workspace ontology absence is inconsistent"@)
        }
    } else {
        match record.document {
            None => Some("adopted ontology document is missing"@),
            Some(document) => if record.source_format is None {
                Some("adopted ontology source format is missing"@)
            } else if record.digest != Some(sha256_hex(encode_utf8(document))) {
                Some("canonical ontology digest does not match"@)
            } else {
                None
            },
        }
    }
}

/// Check an ontology record.
pub fn validate_ontology(record: &WorkspaceOntology) -> (checked: Result<(), GfError>)
    ensures
        match checked {
            Ok(()) => ontology_fault(record@) is None,
            Err(error) => ontology_fault(record@) is Some && error.is_corrupt(
                ontology_fault(record@)->0,
            ),
        },
{
    if record.contract_version != 1 {
        return Err(corrupt("unsupported workspace ontology contract"));
    }
    if record.mode == WorkspaceOntologyMode::Absent {
        if record.source_format.is_none() && record.canonical_ontology_sha256.is_none()
            && record.canonical_ontology.is_none() {
            return Ok(());
        }
        return Err(corrupt("workspace ontology absence is inconsistent"));
    }
    let document: &JsonDocument = match &record.canonical_ontology {
        Some(document) => document,
        None => {
            return Err(corrupt("adopted ontology document is missing"));
        },
    };
    if record.source_format.is_none() {
        return Err(corrupt("adopted ontology source format is missing"));
    }
    let digest: String = hex_sha256(document.text().as_str().as_bytes());
    match &record.canonical_ontology_sha256 {
        Some(recorded) => if *recorded == digest {
            Ok(())
        } else {
            Err(corrupt("canonical ontology digest does not match"))
        },
        None => Err(corrupt("canonical ontology digest does not match")),
    }
}

/// The encoding of a document that may be absent.
pub open spec fn document_form(document: Option<Seq<char>>) -> Seq<u8> {
    match document {
        Some(document) => encode_utf8(document),
        None => null_form(),
    }
}

/// The encoding of an ontology record from its digest on, with the closing
/// line feed.
pub open spec fn ontology_tail(digest: Option<Seq<char>>, document: Option<Seq<char>>) -> Seq<u8> {
    encode_utf8(",\"canonical_ontology_sha256\":"@) + (optional_text_form(digest) + (encode_utf8(
        ",\"canonical_ontology\":"@,
    ) + (document_form(document) + seq![125u8, 10u8])))
}

/// The canonical encoding of an ontology record: compact JSON and a line feed.
pub open spec fn ontology_form(record: OntologyView) -> Seq<u8> {
    encode_utf8("{\"contract_version\":"@) + (decimal_text(record.contract_version as nat) + (
    seq![44u8] + (encode_utf8("\"mode\":\""@) + (text_form(mode_token(record.mode)) + (encode_utf8(
        ",\"source_format\":"@,
    ) + (optional_text_form(format_text(record.source_format)) + ontology_tail(
        record.digest,
        record.document,
    )))))))
}

/// Take a document that may be absent, to the end of the record. A document
/// is taken only in its compact form.
pub open spec fn decode_document(input: Seq<u8>) -> Option<Option<Seq<char>>> {
    let bytes = input.take(input.len() - 2);
    let text = decode_utf8(bytes);
    if !ends_with(input, seq![125u8, 10u8]) {
        None
    } else if bytes == null_form() {
        Some(None)
    } else if valid_utf8(bytes) && json_normal(text) == Some(text) {
        Some(Some(text))
    } else {
        None
    }
}

/// Take the digest and document of an ontology record.
pub open spec fn decode_ontology_tail(input: Seq<u8>) -> Option<
    (Option<Seq<char>>, Option<Seq<char>>),
> {
    match strip(input, encode_utf8(",\"canonical_ontology_sha256\":"@)) {
        None => None,
        Some(input) => match decode_optional_text(input) {
            None => None,
            Some((digest, input)) => match strip(input, encode_utf8(",\"canonical_ontology\":"@)) {
                None => None,
                Some(input) => match decode_document(input) {
                    None => None,
                    Some(document) => Some((digest, document)),
                },
            },
        },
    }
}

/// Take the source format of an ontology record and what follows it.
pub open spec fn decode_ontology_body(
    contract_version: u32,
    mode: WorkspaceOntologyMode,
    input: Seq<u8>,
) -> Option<OntologyView> {
    match strip(input, encode_utf8(",\"source_format\":"@)) {
        None => None,
        Some(input) => match decode_optional_text(input) {
            None => None,
            Some((format, input)) => if format is Some && format_of(format->0) is None {
                None
            } else {
                match decode_ontology_tail(input) {
                    None => None,
                    Some((digest, document)) => Some(
                        OntologyView {
                            contract_version,
                            mode,
                            source_format: match format {
                                Some(token) => format_of(token),
                                None => None,
                            },
                            digest,
                            document,
                        },
                    ),
                }
            },
        },
    }
}

/// The ontology record that a byte string is the encoding of.
pub open spec fn decode_ontology(input: Seq<u8>) -> Option<OntologyView> {
    match strip(input, encode_utf8("{\"contract_version\":"@)) {
        None => None,
        Some(input) => match decode_number(input) {
            None => None,
            Some((contract_version, input)) => match strip(input, seq![44u8]) {
                None => None,
                Some(input) => match strip(input, encode_utf8("\"mode\":\""@)) {
                    None => None,
                    Some(input) => match decode_text(input) {
                        None => None,
                        Some((token, input)) => match mode_of(token) {
                            None => None,
                            Some(mode) => decode_ontology_body(contract_version, mode, input),
                        },
                    },
                },
            },
        },
    }
}

/// Whether a document is one that its encoding stands for: it is in compact
/// form, and is not the absent value.
pub open spec fn settled(document: Option<Seq<char>>) -> bool {
    document matches Some(text) ==> json_normal(text) == Some(text) && encode_utf8(text)
        != null_form()
}

proof fn lemma_document_read(document: Option<Seq<char>>)
    requires
        settled(document),
    ensures
        decode_document(document_form(document) + seq![125u8, 10u8]) == Some(document),
{
    let bytes = document_form(document);
    let end = seq![125u8, 10u8];
    let input = bytes + end;
    assert(input.take(input.len() - 2) =~= bytes);
    assert(input.skip(input.len() - 2) =~= end);
    if let Some(text) = document {
        encode_utf8_valid_utf8(text);
        encode_utf8_decode_utf8(text);
    }
}

proof fn lemma_document_taken(input: Seq<u8>)
    ensures
        decode_document(input) matches Some(document) ==> settled(document) && input
            == document_form(document) + seq![125u8, 10u8],
{
    let end = seq![125u8, 10u8];
    if decode_document(input) is Some {
        let bytes = input.take(input.len() - 2);
        assert(input =~= bytes + input.skip(input.len() - 2));
        assert(input.skip(input.len() - 2) == end);
        if bytes != null_form() {
            decode_utf8_encode_utf8(bytes);
        }
    }
}

proof fn lemma_ontology_tail_read(digest: Option<Seq<char>>, document: Option<Seq<char>>)
    requires
        digest matches Some(digest) ==> plain_text(digest),
        settled(document),
    ensures
        decode_ontology_tail(ontology_tail(digest, document)) == Some((digest, document)),
{
    let c = document_form(document) + seq![125u8, 10u8];
    let b = encode_utf8(",\"canonical_ontology\":"@) + c;
    let a = optional_text_form(digest) + b;
    lemma_strip(encode_utf8(",\"canonical_ontology_sha256\":"@), a);
    lemma_optional_text_read(digest, b);
    lemma_strip(encode_utf8(",\"canonical_ontology\":"@), c);
    lemma_document_read(document);
}

proof fn lemma_ontology_tail_taken(input: Seq<u8>)
    ensures
        decode_ontology_tail(input) matches Some((digest, document)) ==> settled(document) && input
            == ontology_tail(digest, document),
{
    if decode_ontology_tail(input) is Some {
        lemma_stripped(input, encode_utf8(",\"canonical_ontology_sha256\":"@));
        let a = strip(input, encode_utf8(",\"canonical_ontology_sha256\":"@))->0;
        lemma_optional_text_taken(a);
        let b = (decode_optional_text(a)->0).1;
        lemma_stripped(b, encode_utf8(",\"canonical_ontology\":"@));
        let c = strip(b, encode_utf8(",\"canonical_ontology\":"@))->0;
        lemma_document_taken(c);
    }
}

proof fn lemma_ontology_body_read(record: OntologyView)
    requires
        record.digest matches Some(digest) ==> plain_text(digest),
        settled(record.document),
    ensures
        decode_ontology_body(
            record.contract_version,
            record.mode,
            encode_utf8(",\"source_format\":"@) + (optional_text_form(
                format_text(record.source_format),
            ) + ontology_tail(record.digest, record.document)),
        ) == Some(record),
{
    let tail = ontology_tail(record.digest, record.document);
    let format = format_text(record.source_format);
    if let Some(format) = record.source_format {
        lemma_format_tokens(format);
    }
    lemma_strip(encode_utf8(",\"source_format\":"@), optional_text_form(format) + tail);
    lemma_optional_text_read(format, tail);
    lemma_ontology_tail_read(record.digest, record.document);
}

proof fn lemma_ontology_read(record: OntologyView)
    requires
        record.digest matches Some(digest) ==> plain_text(digest),
        settled(record.document),
    ensures
        decode_ontology(ontology_form(record)) == Some(record),
{
    let e = encode_utf8(",\"source_format\":"@) + (optional_text_form(
        format_text(record.source_format),
    ) + ontology_tail(record.digest, record.document));
    let d = text_form(mode_token(record.mode)) + e;
    let c = encode_utf8("\"mode\":\""@) + d;
    let b = seq![44u8] + c;
    let a = decimal_text(record.contract_version as nat) + b;
    lemma_strip(encode_utf8("{\"contract_version\":"@), a);
    assert(b[0] == 44);
    lemma_number_read(record.contract_version, b);
    lemma_strip(seq![44u8], c);
    lemma_strip(encode_utf8("\"mode\":\""@), d);
    lemma_mode_tokens(record.mode);
    lemma_text_read(mode_token(record.mode), e);
    lemma_ontology_body_read(record);
}

proof fn lemma_ontology_body_taken(
    contract_version: u32,
    mode: WorkspaceOntologyMode,
    input: Seq<u8>,
)
    ensures
        decode_ontology_body(contract_version, mode, input) matches Some(record) ==> settled(
            record.document,
        ) && record.contract_version == contract_version && record.mode == mode && input
            == encode_utf8(",\"source_format\":"@) + (optional_text_form(
            format_text(record.source_format),
        ) + ontology_tail(record.digest, record.document)),
{
    if decode_ontology_body(contract_version, mode, input) is Some {
        lemma_stripped(input, encode_utf8(",\"source_format\":"@));
        let a = strip(input, encode_utf8(",\"source_format\":"@))->0;
        lemma_optional_text_taken(a);
        let b = (decode_optional_text(a)->0).1;
        lemma_ontology_tail_taken(b);
    }
}

/// Only the encoding of an ontology record is read as one.
pub proof fn lemma_ontology_taken(input: Seq<u8>)
    ensures
        decode_ontology(input) matches Some(record) ==> settled(record.document) && input
            == ontology_form(record),
{
    if decode_ontology(input) is Some {
        lemma_stripped(input, encode_utf8("{\"contract_version\":"@));
        let a = strip(input, encode_utf8("{\"contract_version\":"@))->0;
        lemma_number_taken(a);
        let (version, b) = decode_number(a)->0;
        lemma_stripped(b, seq![44u8]);
        let c = strip(b, seq![44u8])->0;
        lemma_stripped(c, encode_utf8("\"mode\":\""@));
        let d = strip(c, encode_utf8("\"mode\":\""@))->0;
        lemma_text_taken(d);
        let (token, e) = decode_text(d)->0;
        lemma_ontology_body_taken(version, mode_of(token)->0, e);
    }
}

fn push_format(out: &mut Vec<u8>, format: Option<WorkspaceOntologySourceFormat>)
    ensures
        final(out)@ == old(out)@ + optional_text_form(format_text(format)),
{
    match format {
        Some(format) => {
            let token: Option<String> = Some(format.token().to_owned());
            push_optional_text(out, &token);
        },
        None => {
            push_null(out);
        },
    }
}

fn push_document(out: &mut Vec<u8>, document: &Option<JsonDocument>)
    ensures
        final(out)@ == old(out)@ + document_form(
            match document {
                Some(document) => Some(document@),
                None => None,
            },
        ),
{
    match document {
        Some(document) => {
            push_text(out, document.text().as_str());
        },
        None => {
            push_null(out);
        },
    }
}

pub(crate) fn push_version_and_mode(out: &mut Vec<u8>, version: u32, key: &str, mode: WorkspaceOntologyMode)
    ensures
        forall|rest: Seq<u8>|
            final(out)@ + rest == old(out)@ + #[trigger] versioned_form(version, key@, mode, rest),
{
    let ghost start = out@;
    let digits: Vec<u8> = decimal_codes(version as u64);
    let token: String = mode.token().to_owned();
    push_text(out, "{\"contract_version\":");
    push_all(out, digits.as_slice());
    push_byte(out, 44);
    push_text(out, key);
    push_quoted(out, &token);
    proof {
        assert forall|rest: Seq<u8>|
            out@ + rest == start + #[trigger] versioned_form(version, key@, mode, rest) by {
            let a = encode_utf8("{\"contract_version\":"@);
            let b = decimal_text(version as nat);
            let c = seq![44u8];
            let d = encode_utf8(key@);
            let e = text_form(mode_token(mode));
            lemma_joined(start + a + b + c + d, e, rest);
            lemma_joined(start + a + b + c, d, e + rest);
            lemma_joined(start + a + b, c, d + (e + rest));
            lemma_joined(start + a, b, c + (d + (e + rest)));
            lemma_joined(start, a, b + (c + (d + (e + rest))));
        }
    }
}

/// The encoding of a record that starts with its version and mode, and what
/// follows.
pub open spec fn versioned_form(
    version: u32,
    key: Seq<char>,
    mode: WorkspaceOntologyMode,
    rest: Seq<u8>,
) -> Seq<u8> {
    encode_utf8("{\"contract_version\":"@) + (decimal_text(version as nat) + (seq![44u8] + (
    encode_utf8(key) + (text_form(mode_token(mode)) + rest))))
}

/// Take the version and mode in front of a record.
pub open spec fn decode_versioned(input: Seq<u8>, key: Seq<char>) -> Option<
    (u32, WorkspaceOntologyMode, Seq<u8>),
> {
    match strip(input, encode_utf8("{\"contract_version\":"@)) {
        None => None,
        Some(input) => match decode_number(input) {
            None => None,
            Some((version, input)) => match strip(input, seq![44u8]) {
                None => None,
                Some(input) => match strip(input, encode_utf8(key)) {
                    None => None,
                    Some(input) => match decode_text(input) {
                        None => None,
                        Some((token, rest)) => match mode_of(token) {
                            None => None,
                            Some(mode) => Some((version, mode, rest)),
                        },
                    },
                },
            },
        },
    }
}

pub(crate) fn take_version_and_mode<'a>(input: &'a [u8], key: &str) -> (taken: Option<
    (u32, WorkspaceOntologyMode, &'a [u8]),
>)
    ensures
        match taken {
            Some((version, mode, rest)) => decode_versioned(input@, key@) == Some(
                (version, mode, rest@),
            ),
            None => decode_versioned(input@, key@) is None,
        },
{
    let opening: &str = "{\"contract_version\":";
    let comma: Vec<u8> = vec![44];
    assert(comma@ =~= seq![44u8]);
    let rest: &'a [u8] = match take_literal(input, opening.as_bytes()) {
        Some(rest) => rest,
        None => {
            return None;
        },
    };
    let (version, rest): (u32, &'a [u8]) = match take_number(rest) {
        Some(taken) => taken,
        None => {
            return None;
        },
    };
    let rest: &'a [u8] = match take_literal(rest, comma.as_slice()) {
        Some(rest) => rest,
        None => {
            return None;
        },
    };
    let rest: &'a [u8] = match take_literal(rest, key.as_bytes()) {
        Some(rest) => rest,
        None => {
            return None;
        },
    };
    let (token, rest): (String, &'a [u8]) = match take_text(rest) {
        Some(taken) => taken,
        None => {
            return None;
        },
    };
    match WorkspaceOntologyMode::parse(token.as_str()) {
        Some(mode) => Some((version, mode, rest)),
        None => None,
    }
}

fn encode_ontology(record: &WorkspaceOntology) -> (bytes: Vec<u8>)
    ensures
        bytes@ == ontology_form(record@),
{
    let mut out: Vec<u8> = Vec::new();
    push_version_and_mode(&mut out, record.contract_version, "\"mode\":\"", record.mode);
    let ghost head = out@;
    push_text(&mut out, ",\"source_format\":");
    push_format(&mut out, record.source_format);
    let ghost middle = out@;
    push_text(&mut out, ",\"canonical_ontology_sha256\":");
    push_optional_text(&mut out, &record.canonical_ontology_sha256);
    push_text(&mut out, ",\"canonical_ontology\":");
    push_document(&mut out, &record.canonical_ontology);
    push_byte(&mut out, 125);
    push_byte(&mut out, 10);
    proof {
        let view = record@;
        let tail = ontology_tail(view.digest, view.document);
        let a = encode_utf8(",\"canonical_ontology_sha256\":"@);
        let b = optional_text_form(view.digest);
        let c = encode_utf8(",\"canonical_ontology\":"@);
        let d = document_form(view.document);
        let e = seq![125u8, 10u8];
        assert(out@ =~= middle + a + b + c + d + e);
        lemma_joined(middle + a + b + c, d, e);
        lemma_joined(middle + a + b, c, d + e);
        lemma_joined(middle + a, b, c + (d + e));
        lemma_joined(middle, a, b + (c + (d + e)));
        assert(out@ == middle + tail);
        let f = encode_utf8(",\"source_format\":"@);
        let g = optional_text_form(format_text(view.source_format));
        let body = f + (g + tail);
        lemma_joined(head + f, g, tail);
        lemma_joined(head, f, g + tail);
        assert(head + body == Seq::<u8>::empty() + versioned_form(
            view.contract_version,
            "\"mode\":\""@,
            view.mode,
            body,
        ));
        assert(Seq::<u8>::empty() + ontology_form(view) =~= ontology_form(view));
    }
    out
}

fn take_document(input: &[u8]) -> (taken: Option<Option<JsonDocument>>)
    ensures
        match taken {
            Some(document) => decode_document(input@) == Some(
                match document {
                    Some(document) => Some(document@),
                    None => None,
                },
            ),
            None => decode_document(input@) is None,
        },
{
    let end: Vec<u8> = vec![125, 10];
    assert(end@ =~= seq![125u8, 10u8]);
    if !has_suffix(input, end.as_slice()) {
        return None;
    }
    let bytes: &[u8] = slice_subrange(input, 0, input.len() - 2);
    assert(bytes@ =~= input@.take(input@.len() - 2));
    let mut null: Vec<u8> = Vec::new();
    push_null(&mut null);
    assert(null@ =~= null_form());
    if crate::bytes::same_bytes(bytes, null.as_slice()) {
        return Some(None);
    }
    let mut copy: Vec<u8> = Vec::new();
    push_all(&mut copy, bytes);
    assert(copy@ =~= bytes@);
    let text: String = match string_from_utf8(copy) {
        Some(text) => text,
        None => {
            return None;
        },
    };
    proof {
        encode_utf8_valid_utf8(text@);
        encode_utf8_decode_utf8(text@);
    }
    match JsonDocument::parse(text.as_str()) {
        Some(document) => if *document.text() == text {
            Some(Some(document))
        } else {
            None
        },
        None => None,
    }
}

fn parse_ontology(bytes: &[u8]) -> (record: Option<WorkspaceOntology>)
    ensures
        match record {
            Some(record) => decode_ontology(bytes@) == Some(record@),
            None => decode_ontology(bytes@) is None,
        },
{
    let format_key: &str = ",\"source_format\":";
    let digest_key: &str = ",\"canonical_ontology_sha256\":";
    let document_key: &str = ",\"canonical_ontology\":";
    let (contract_version, mode, rest) = match take_version_and_mode(bytes, "\"mode\":\"") {
        Some(taken) => taken,
        None => {
            return None;
        },
    };
    let rest: &[u8] = match take_literal(rest, format_key.as_bytes()) {
        Some(rest) => rest,
        None => {
            return None;
        },
    };
    let (token, rest): (Option<String>, &[u8]) = match take_optional_text(rest) {
        Some(taken) => taken,
        None => {
            return None;
        },
    };
    let source_format: Option<WorkspaceOntologySourceFormat> = match token {
        Some(token) => match WorkspaceOntologySourceFormat::parse(token.as_str()) {
            Some(format) => Some(format),
            None => {
                return None;
            },
        },
        None => None,
    };
    let rest: &[u8] = match take_literal(rest, digest_key.as_bytes()) {
        Some(rest) => rest,
        None => {
            return None;
        },
    };
    let (canonical_ontology_sha256, rest): (Option<String>, &[u8]) = match take_optional_text(
        rest,
    ) {
        Some(taken) => taken,
        None => {
            return None;
        },
    };
    let rest: &[u8] = match take_literal(rest, document_key.as_bytes()) {
        Some(rest) => rest,
        None => {
            return None;
        },
    };
    match take_document(rest) {
        Some(canonical_ontology) => Some(
            WorkspaceOntology {
                contract_version,
                mode,
                source_format,
                canonical_ontology_sha256,
                canonical_ontology,
            },
        ),
        None => None,
    }
}

/// The encoding of an ontology record, or why it has none.
pub open spec fn written_ontology(record: OntologyView) -> Result<Seq<u8>, Seq<char>> {
    match ontology_fault(record) {
        Some(text) => Err(text),
        None => Ok(ontology_form(record)),
    }
}

/// The record that a JSON reader found in some bytes, where these are its
/// canonical encoding, or why it is refused.
pub open spec fn admitted_ontology(bytes: Seq<u8>, parsed: Option<OntologyView>) -> Result<
    OntologyView,
    Seq<char>,
> {
    if !one_record(bytes) {
        Err("workspace ontology is not canonical JSON plus LF"@)
    } else {
        match parsed {
            None => Err("workspace ontology is malformed"@),
            Some(record) => match ontology_fault(record) {
                Some(text) => Err(text),
                None => if ontology_form(record) != bytes {
                    Err("workspace ontology is not canonically encoded"@)
                } else {
                    Ok(record)
                },
            },
        }
    }
}

/// The ontology record of an encoding, or why there is none.
pub open spec fn read_ontology(bytes: Seq<u8>) -> Result<OntologyView, Seq<char>> {
    if !one_record(bytes) {
        Err("workspace ontology is not canonical JSON plus LF"@)
    } else {
        match decode_ontology(bytes) {
            None => Err("workspace ontology is malformed"@),
            Some(record) => if record.document is Some && !is_json(bytes) {
                Err("workspace ontology is malformed"@)
            } else {
                match ontology_fault(record) {
                    Some(text) => Err(text),
                    None => Ok(record),
                }
            },
        }
    }
}

impl WorkspaceOntology {
    /// The record of a project without an ontology.
    pub fn none() -> (record: WorkspaceOntology)
        ensures
            record@ == no_ontology(),
    {
        WorkspaceOntology {
            contract_version: 1,
            mode: WorkspaceOntologyMode::Absent,
            source_format: None,
            canonical_ontology_sha256: None,
            canonical_ontology: None,
        }
    }

    /// Check the record and encode it as canonical JSON and a line feed.
    pub fn to_canonical_json(&self) -> (bytes: Result<Vec<u8>, GfError>)
        ensures
            match bytes {
                Ok(bytes) => written_ontology(self@) == Ok::<Seq<u8>, Seq<char>>(bytes@),
                Err(error) => written_ontology(self@) is Err && error.is_corrupt(
                    written_ontology(self@)->Err_0,
                ),
            },
    {
        match validate_ontology(self) {
            Ok(()) => Ok(encode_ontology(self)),
            Err(error) => Err(error),
        }
    }

    /// Read a record from exactly its canonical encoding, and check it. What
    /// is encoded otherwise is malformed here: a JSON reader is needed to tell
    /// more of it, and [`Self::from_parsed_json`] to go on from there.
    pub fn from_canonical_json(bytes: &[u8]) -> (record: Result<WorkspaceOntology, GfError>)
        ensures
            match record {
                Ok(record) => read_ontology(bytes@) == Ok::<OntologyView, Seq<char>>(record@),
                Err(error) => read_ontology(bytes@) is Err && error.is_corrupt(
                    read_ontology(bytes@)->Err_0,
                ),
            },
    {
        if !is_one_record(bytes) {
            return Err(corrupt("workspace ontology is not canonical JSON plus LF"));
        }
        let record: WorkspaceOntology = match parse_ontology(bytes) {
            Some(record) => record,
            None => {
                return Err(corrupt("workspace ontology is malformed"));
            },
        };
        if record.canonical_ontology.is_some() && !holds_json(bytes) {
            return Err(corrupt("workspace ontology is malformed"));
        }
        match validate_ontology(&record) {
            Ok(()) => Ok(record),
            Err(error) => Err(error),
        }
    }

    /// Check the record that a JSON reader found in some bytes, if it found
    /// one, and that the bytes are its canonical encoding.
    pub fn from_parsed_json(bytes: &[u8], parsed: Option<WorkspaceOntology>) -> (record: Result<
        WorkspaceOntology,
        GfError,
    >)
        ensures
            ({
                let outcome = admitted_ontology(
                    bytes@,
                    match parsed {
                        Some(parsed) => Some(parsed@),
                        None => None,
                    },
                );
                match record {
                    Ok(record) => outcome == Ok::<OntologyView, Seq<char>>(record@),
                    Err(error) => outcome is Err && error.is_corrupt(outcome->Err_0),
                }
            }),
    {
        if !is_one_record(bytes) {
            return Err(corrupt("workspace ontology is not canonical JSON plus LF"));
        }
        let record: WorkspaceOntology = match parsed {
            Some(record) => record,
            None => {
                return Err(corrupt("workspace ontology is malformed"));
            },
        };
        match validate_ontology(&record) {
            Ok(()) => {},
            Err(error) => {
                return Err(error);
            },
        }
        let encoded: Vec<u8> = encode_ontology(&record);
        if !crate::bytes::same_bytes(encoded.as_slice(), bytes) {
            return Err(corrupt("workspace ontology is not canonically encoded"));
        }
        Ok(record)
    }
}

proof fn lemma_ontology_lines()
    ensures
        one_line(encode_utf8("{\"contract_version\":"@)),
        one_line(encode_utf8("\"mode\":\""@)),
        one_line(encode_utf8(",\"source_format\":"@)),
        one_line(encode_utf8(",\"canonical_ontology_sha256\":"@)),
        one_line(encode_utf8(",\"canonical_ontology\":"@)),
{
    reveal_strlit("{\"contract_version\":");
    lemma_line("{\"contract_version\":"@);
    reveal_strlit("\"mode\":\"");
    lemma_line("\"mode\":\""@);
    reveal_strlit(",\"source_format\":");
    lemma_line(",\"source_format\":"@);
    reveal_strlit(",\"canonical_ontology_sha256\":");
    lemma_line(",\"canonical_ontology_sha256\":"@);
    reveal_strlit(",\"canonical_ontology\":");
    lemma_line(",\"canonical_ontology\":"@);
}

proof fn lemma_ontology_record(record: OntologyView)
    requires
        record.digest matches Some(digest) ==> plain_text(digest),
        one_line(document_form(record.document)),
    ensures
        one_record(ontology_form(record)),
{
    lemma_ontology_lines();
    lemma_mode_tokens(record.mode);
    lemma_text_line(mode_token(record.mode));
    lemma_decimal_line(record.contract_version as nat);
    if let Some(format) = record.source_format {
        lemma_format_tokens(format);
    }
    lemma_optional_lines(format_text(record.source_format), None);
    lemma_optional_lines(record.digest, None);
    let end = seq![125u8, 10u8];
    assert(end.drop_last() =~= seq![125u8]);
    let i = document_form(record.document) + end;
    let h = encode_utf8(",\"canonical_ontology\":"@) + i;
    let g = optional_text_form(record.digest) + h;
    let f = encode_utf8(",\"canonical_ontology_sha256\":"@) + g;
    let e = optional_text_form(format_text(record.source_format)) + f;
    let d = encode_utf8(",\"source_format\":"@) + e;
    let c = text_form(mode_token(record.mode)) + d;
    let b = encode_utf8("\"mode\":\""@) + c;
    let a = seq![44u8] + b;
    lemma_lines(document_form(record.document), end);
    lemma_lines(encode_utf8(",\"canonical_ontology\":"@), i);
    lemma_lines(optional_text_form(record.digest), h);
    lemma_lines(encode_utf8(",\"canonical_ontology_sha256\":"@), g);
    lemma_lines(optional_text_form(format_text(record.source_format)), f);
    lemma_lines(encode_utf8(",\"source_format\":"@), e);
    lemma_lines(text_form(mode_token(record.mode)), d);
    lemma_lines(encode_utf8("\"mode\":\""@), c);
    lemma_lines(seq![44u8], b);
    lemma_lines(decimal_text(record.contract_version as nat), a);
    lemma_lines(
        encode_utf8("{\"contract_version\":"@),
        decimal_text(record.contract_version as nat) + a,
    );
}

proof fn lemma_valid_digest(record: OntologyView)
    requires
        ontology_fault(record) is None,
    ensures
        record.digest matches Some(digest) ==> plain_text(digest),
{
    if let Some(digest) = record.digest {
        let bytes = encode_utf8(record.document->0);
        let codes = crate::bytes::hex_text(sha256_digest(bytes));
        crate::bytes::lemma_hex_text(sha256_digest(bytes));
        crate::bytes::lemma_ascii_utf8(codes);
        assert forall|i: int| 0 <= i < codes.len() implies is_plain(#[trigger] codes[i]) by {
            assert(crate::bytes::is_lower_hex(codes[i]));
        }
    }
}

/// What was written is read back unchanged, where the document is in compact
/// form on one line, is not the absent value, and is not nested too deep for a
/// reader of the whole record.
pub proof fn lemma_ontology_round_trip(record: OntologyView)
    requires
        written_ontology(record) is Ok,
        settled(record.document),
        one_line(document_form(record.document)),
        record.document is Some ==> is_json(ontology_form(record)),
    ensures
        read_ontology(written_ontology(record)->Ok_0) == Ok::<OntologyView, Seq<char>>(record),
{
    lemma_valid_digest(record);
    lemma_ontology_record(record);
    lemma_ontology_read(record);
}

/// What is read is written back byte for byte.
pub proof fn lemma_ontology_rewritten(bytes: Seq<u8>)
    requires
        read_ontology(bytes) is Ok,
    ensures
        written_ontology(read_ontology(bytes)->Ok_0) == Ok::<Seq<u8>, Seq<char>>(bytes),
{
    lemma_ontology_taken(bytes);
}

/// A record that a JSON reader found is accepted for exactly the bytes that are
/// read as that record, where its document is in compact form and is not the
/// absent value.
pub proof fn lemma_parsed_ontology(bytes: Seq<u8>, record: OntologyView)
    requires
        settled(record.document),
        one_line(document_form(record.document)),
        is_json(bytes),
    ensures
        admitted_ontology(bytes, Some(record)) == Ok::<OntologyView, Seq<char>>(record)
            <==> read_ontology(bytes) == Ok::<OntologyView, Seq<char>>(record),
{
    if read_ontology(bytes) == Ok::<OntologyView, Seq<char>>(record) {
        lemma_ontology_rewritten(bytes);
    }
    if admitted_ontology(bytes, Some(record)) is Ok {
        assert(written_ontology(record) == Ok::<Seq<u8>, Seq<char>>(bytes));
        lemma_ontology_round_trip(record);
    }
}

} // verus!
