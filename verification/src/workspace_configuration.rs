//! The configuration record of a workspace, and the participants of a new
//! project.
use vstd::prelude::*;
use vstd::slice::*;
use vstd::string::*;
use vstd::utf8::*;

use crate::bytes::{decimal_text, ends_with, has_suffix, push_all, same_text, string_from_utf8};
use crate::canonical_json::{
    decode_number, decode_text, is_one_record, lemma_decimal_line, lemma_line, lemma_lines,
    lemma_number_read, lemma_number_taken, lemma_strip, lemma_stripped, lemma_text_line,
    lemma_text_read, lemma_text_taken, one_line, one_record, push_byte, push_quoted, push_text,
    strip, take_literal, text_form,
};
use crate::error::{corrupt, GfError};
use crate::json_documents::{
    closes, holds_json, is_json, is_object, json_normal, JsonObject, lemma_closes_once,
};
use crate::workspace::{
    decode_versioned, directedness_token, GraphDirectedness, is_participant, lemma_letters,
    lemma_mode_tokens, mode_token, no_ontology, ontology_form, participant, ProjectParticipant,
    push_version_and_mode, take_version_and_mode, versioned_form, WORKSPACE_CONFIGURATION_FAMILY,
    WORKSPACE_ONTOLOGY_FAMILY, WORKSPACE_REPOSITORY_SNAPSHOT_FAMILY, WorkspaceOntology,
    WorkspaceOntologyMode,
};
use crate::workspace_snapshot::{WorkspaceRepositorySnapshot, written};

verus! {

/// The configuration record.
#[derive(Debug, PartialEq, Eq)]
pub struct WorkspaceConfiguration {
    /// Contract version.
    pub contract_version: u32,
    /// Mode of the ontology record.
    pub ontology_mode: WorkspaceOntologyMode,
    /// Capability settings.
    pub capability_configuration: JsonObject,
    /// Embedding settings.
    pub embedding_configuration: JsonObject,
    /// Directedness of the graph; left out of the record where it is absent.
    pub graph_directedness: Option<GraphDirectedness>,
}

/// Model of a [`WorkspaceConfiguration`].
#[verifier::ext_equal]
pub struct ConfigurationView {
    pub contract_version: u32,
    pub mode: WorkspaceOntologyMode,
    pub capabilities: Seq<char>,
    pub embeddings: Seq<char>,
    pub directedness: Option<GraphDirectedness>,
}

impl View for WorkspaceConfiguration {
    type V = ConfigurationView;

    open spec fn view(&self) -> ConfigurationView {
        ConfigurationView {
            contract_version: self.contract_version,
            mode: self.ontology_mode,
            capabilities: self.capability_configuration@,
            embeddings: self.embedding_configuration@,
            directedness: self.graph_directedness,
        }
    }
}

/// The record of a new project.
pub open spec fn empty_configuration() -> ConfigurationView {
    ConfigurationView {
        contract_version: 1,
        mode: WorkspaceOntologyMode::Absent,
        capabilities: "{}"@,
        embeddings: "{}"@,
        directedness: None,
    }
}

/// The encoding of the end of a configuration record.
pub open spec fn directedness_form(directedness: Option<GraphDirectedness>) -> Seq<u8> {
    match directedness {
        Some(directedness) => encode_utf8(",\"graph_directedness\":\""@) + (text_form(
            directedness_token(directedness),
        ) + seq![125u8, 10u8]),
        None => seq![125u8, 10u8],
    }
}

/// The encoding of the embedding settings and what follows them.
pub open spec fn embeddings_form(
    embeddings: Seq<char>,
    directedness: Option<GraphDirectedness>,
) -> Seq<u8> {
    encode_utf8(",\"embedding_configuration\":"@) + (encode_utf8(embeddings) + directedness_form(
        directedness,
    ))
}

/// The encoding of the settings and what follows them.
pub open spec fn settings_form(
    capabilities: Seq<char>,
    embeddings: Seq<char>,
    directedness: Option<GraphDirectedness>,
) -> Seq<u8> {
    encode_utf8(capabilities) + embeddings_form(embeddings, directedness)
}

/// The canonical encoding of a configuration record: compact JSON and a line
/// feed.
pub open spec fn configuration_form(record: ConfigurationView) -> Seq<u8> {
    versioned_form(
        record.contract_version,
        "\"ontology_mode\":\""@,
        record.mode,
        encode_utf8(",\"capability_configuration\":"@) + settings_form(
            record.capabilities,
            record.embeddings,
            record.directedness,
        ),
    )
}

/// Whether a text is a JSON object in compact form, which ends where its first
/// bracket closes.
pub open spec fn compact_object(text: Seq<char>) -> bool {
    is_object(text) && json_normal(text) == Some(text) && closes(encode_utf8(text))
}

/// Whether a record has settings.
pub open spec fn has_settings(record: ConfigurationView) -> bool {
    record.capabilities != "{}"@ || record.embeddings != "{}"@
}

/// Whether a byte string is the encoding of a record whose settings are in
/// compact form and not nested too deep for a reader of the whole record.
pub open spec fn reads_as(bytes: Seq<u8>, record: ConfigurationView) -> bool {
    &&& compact_object(record.capabilities)
    &&& compact_object(record.embeddings)
    &&& bytes == configuration_form(record)
    &&& has_settings(record) ==> is_json(bytes)
}

fn push_directedness(out: &mut Vec<u8>, directedness: Option<GraphDirectedness>)
    ensures
        final(out)@ == old(out)@ + directedness_form(directedness),
{
    let ghost before = out@;
    match directedness {
        Some(directedness) => {
            let token: String = directedness.as_str().to_owned();
            push_text(out, ",\"graph_directedness\":\"");
            push_quoted(out, &token);
        },
        None => {},
    }
    push_byte(out, 125);
    push_byte(out, 10);
    assert(out@ =~= before + directedness_form(directedness));
}

fn encode_configuration(record: &WorkspaceConfiguration) -> (bytes: Vec<u8>)
    ensures
        bytes@ == configuration_form(record@),
{
    let mut out: Vec<u8> = Vec::new();
    push_version_and_mode(
        &mut out,
        record.contract_version,
        "\"ontology_mode\":\"",
        record.ontology_mode,
    );
    let ghost head = out@;
    push_text(&mut out, ",\"capability_configuration\":");
    push_text(&mut out, record.capability_configuration.text().as_str());
    push_text(&mut out, ",\"embedding_configuration\":");
    push_text(&mut out, record.embedding_configuration.text().as_str());
    push_directedness(&mut out, record.graph_directedness);
    proof {
        let view = record@;
        let body = encode_utf8(",\"capability_configuration\":"@) + settings_form(
            view.capabilities,
            view.embeddings,
            view.directedness,
        );
        assert(out@ =~= head + body);
        assert(head + body == Seq::<u8>::empty() + versioned_form(
            view.contract_version,
            "\"ontology_mode\":\""@,
            view.mode,
            body,
        ));
        assert(Seq::<u8>::empty() + configuration_form(view) =~= configuration_form(view));
    }
    out
}

/// Settings of a configuration record.
struct Settings {
    capabilities: JsonObject,
    embeddings: JsonObject,
    directedness: Option<GraphDirectedness>,
}

/// Whether a byte string is the encoding of these settings.
spec fn settles(
    bytes: Seq<u8>,
    capabilities: Seq<char>,
    embeddings: Seq<char>,
    directedness: Option<GraphDirectedness>,
) -> bool {
    &&& compact_object(capabilities)
    &&& compact_object(embeddings)
    &&& bytes == settings_form(capabilities, embeddings, directedness)
}

fn compact_object_of(bytes: &[u8]) -> (object: Option<JsonObject>)
    ensures
        match object {
            Some(object) => compact_object(object@) && encode_utf8(object@) == bytes@,
            None => forall|text: Seq<char>|
                compact_object(text) ==> #[trigger] encode_utf8(text) != bytes@,
        },
{
    let mut copy: Vec<u8> = Vec::new();
    push_all(&mut copy, bytes);
    assert(copy@ =~= bytes@);
    let text: String = match string_from_utf8(copy) {
        Some(text) => text,
        None => {
            proof {
                assert forall|other: Seq<char>| compact_object(other) implies #[trigger]
                    encode_utf8(other) != bytes@ by {
                    encode_utf8_valid_utf8(other);
                }
            }
            return None;
        },
    };
    proof {
        assert forall|other: Seq<char>| #[trigger] encode_utf8(other) == bytes@ implies other
            == text@ by {
            encode_utf8_decode_utf8(other);
            encode_utf8_decode_utf8(text@);
        }
    }
    match JsonObject::parse(text.as_str()) {
        Some(object) => if *object.text() == text {
            Some(object)
        } else {
            None
        },
        None => None,
    }
}

fn take_end(bytes: &[u8], directedness: Option<GraphDirectedness>) -> (object: Option<JsonObject>)
    ensures
        match object {
            Some(object) => compact_object(object@) && bytes@ == encode_utf8(object@)
                + directedness_form(directedness),
            None => forall|text: Seq<char>|
                compact_object(text) ==> bytes@ != #[trigger] encode_utf8(text)
                    + directedness_form(directedness),
        },
{
    let mut end: Vec<u8> = Vec::new();
    push_directedness(&mut end, directedness);
    let ghost form = directedness_form(directedness);
    assert(end@ =~= form);
    proof {
        assert forall|text: Seq<char>| bytes@ == #[trigger] encode_utf8(text) + form implies
            ends_with(bytes@, form) && bytes@.take(bytes@.len() - form.len()) == encode_utf8(
            text,
        ) by {
            assert(bytes@.skip(bytes@.len() - form.len()) =~= form);
            assert(bytes@.take(bytes@.len() - form.len()) =~= encode_utf8(text));
        }
    }
    if !has_suffix(bytes, end.as_slice()) {
        return None;
    }
    let front: &[u8] = slice_subrange(bytes, 0, bytes.len() - end.len());
    assert(front@ =~= bytes@.take(bytes@.len() - form.len()));
    assert(bytes@ =~= front@ + bytes@.skip(bytes@.len() - form.len()));
    compact_object_of(front)
}

fn take_embeddings(bytes: &[u8]) -> (taken: Option<(JsonObject, Option<GraphDirectedness>)>)
    ensures
        match taken {
            Some((object, directedness)) => compact_object(object@) && bytes@ == encode_utf8(
                object@,
            ) + directedness_form(directedness),
            None => forall|text: Seq<char>, directedness: Option<GraphDirectedness>|
                compact_object(text) ==> bytes@ != #[trigger] encode_utf8(text)
                    + #[trigger] directedness_form(directedness),
        },
{
    match take_end(bytes, None) {
        Some(object) => {
            return Some((object, None));
        },
        None => {},
    }
    match take_end(bytes, Some(GraphDirectedness::Directed)) {
        Some(object) => {
            return Some((object, Some(GraphDirectedness::Directed)));
        },
        None => {},
    }
    match take_end(bytes, Some(GraphDirectedness::Undirected)) {
        Some(object) => {
            return Some((object, Some(GraphDirectedness::Undirected)));
        },
        None => {},
    }
    proof {
        assert forall|text: Seq<char>, directedness: Option<GraphDirectedness>|
            compact_object(text) implies bytes@ != #[trigger] encode_utf8(text)
            + #[trigger] directedness_form(directedness) by {
            match directedness {
                None => {},
                Some(GraphDirectedness::Directed) => {},
                Some(GraphDirectedness::Undirected) => {},
            }
        }
    }
    None
}

fn split_settings(bytes: &[u8], at: usize) -> (settings: Option<Settings>)
    requires
        at <= bytes@.len(),
    ensures
        match settings {
            Some(settings) => settles(
                bytes@,
                settings.capabilities@,
                settings.embeddings@,
                settings.directedness,
            ),
            None => forall|
                capabilities: Seq<char>,
                embeddings: Seq<char>,
                directedness: Option<GraphDirectedness>,
            |
                encode_utf8(capabilities).len() == at ==> !#[trigger] settles(
                    bytes@,
                    capabilities,
                    embeddings,
                    directedness,
                ),
        },
{
    let key: &str = ",\"embedding_configuration\":";
    let ghost middle = encode_utf8(key@);
    let left: &[u8] = slice_subrange(bytes, 0, at);
    let right: &[u8] = slice_subrange(bytes, at, bytes.len());
    assert(left@ =~= bytes@.take(at as int));
    assert(right@ =~= bytes@.skip(at as int));
    assert(bytes@ =~= left@ + right@);
    proof {
        assert forall|
            capabilities: Seq<char>,
            embeddings: Seq<char>,
            directedness: Option<GraphDirectedness>,
        |
            encode_utf8(capabilities).len() == at && #[trigger] settles(
                bytes@,
                capabilities,
                embeddings,
                directedness,
            ) implies left@ == encode_utf8(capabilities) && strip(right@, middle) == Some(
            encode_utf8(embeddings) + directedness_form(directedness),
        ) by {
            assert(left@ =~= encode_utf8(capabilities));
            assert(right@ =~= embeddings_form(embeddings, directedness));
            lemma_strip(middle, encode_utf8(embeddings) + directedness_form(directedness));
        }
    }
    let rest: &[u8] = match take_literal(right, key.as_bytes()) {
        Some(rest) => rest,
        None => {
            return None;
        },
    };
    proof {
        lemma_stripped(right@, middle);
    }
    match take_embeddings(rest) {
        Some((embeddings, directedness)) => match compact_object_of(left) {
            Some(capabilities) => Some(Settings { capabilities, embeddings, directedness }),
            None => None,
        },
        None => None,
    }
}

fn take_settings(bytes: &[u8]) -> (settings: Option<Settings>)
    ensures
        match settings {
            Some(settings) => settles(
                bytes@,
                settings.capabilities@,
                settings.embeddings@,
                settings.directedness,
            ),
            None => forall|
                capabilities: Seq<char>,
                embeddings: Seq<char>,
                directedness: Option<GraphDirectedness>,
            | !#[trigger] settles(bytes@, capabilities, embeddings, directedness),
        },
{
    let mut at: usize = 0;
    while at < bytes.len()
        invariant
            at <= bytes@.len(),
            forall|
                capabilities: Seq<char>,
                embeddings: Seq<char>,
                directedness: Option<GraphDirectedness>,
            |
                encode_utf8(capabilities).len() < at ==> !#[trigger] settles(
                    bytes@,
                    capabilities,
                    embeddings,
                    directedness,
                ),
        decreases bytes.len() - at,
    {
        match split_settings(bytes, at) {
            Some(settings) => {
                return Some(settings);
            },
            None => {},
        }
        at = at + 1;
    }
    proof {
        assert forall|
            capabilities: Seq<char>,
            embeddings: Seq<char>,
            directedness: Option<GraphDirectedness>,
        | !#[trigger] settles(bytes@, capabilities, embeddings, directedness) by {
            if settles(bytes@, capabilities, embeddings, directedness) {
                assert(directedness_form(directedness).len() > 0);
                assert(encode_utf8(capabilities).len() < bytes@.len());
            }
        }
    }
    None
}

proof fn lemma_versioned_read(
    version: u32,
    key: Seq<char>,
    mode: WorkspaceOntologyMode,
    rest: Seq<u8>,
)
    ensures
        decode_versioned(versioned_form(version, key, mode, rest), key) == Some(
            (version, mode, rest),
        ),
{
    let d = text_form(mode_token(mode)) + rest;
    let c = encode_utf8(key) + d;
    let b = seq![44u8] + c;
    let a = decimal_text(version as nat) + b;
    lemma_strip(encode_utf8("{\"contract_version\":"@), a);
    assert(b[0] == 44);
    lemma_number_read(version, b);
    lemma_strip(seq![44u8], c);
    lemma_strip(encode_utf8(key), d);
    lemma_mode_tokens(mode);
    lemma_text_read(mode_token(mode), rest);
}

proof fn lemma_versioned_taken(input: Seq<u8>, key: Seq<char>)
    ensures
        decode_versioned(input, key) matches Some((version, mode, rest)) ==> input
            == versioned_form(version, key, mode, rest),
{
    if decode_versioned(input, key) is Some {
        lemma_stripped(input, encode_utf8("{\"contract_version\":"@));
        let a = strip(input, encode_utf8("{\"contract_version\":"@))->0;
        lemma_number_taken(a);
        let b = (decode_number(a)->0).1;
        lemma_stripped(b, seq![44u8]);
        let c = strip(b, seq![44u8])->0;
        lemma_stripped(c, encode_utf8(key));
        let d = strip(c, encode_utf8(key))->0;
        lemma_text_taken(d);
        let (token, _) = decode_text(d)->0;
        if token == "none"@ {
        } else if token == "advisory"@ {
        } else {
        }
    }
}

fn parse_configuration(bytes: &[u8]) -> (record: Option<WorkspaceConfiguration>)
    ensures
        match record {
            Some(record) => reads_as(bytes@, record@),
            None => forall|record: ConfigurationView| !#[trigger] reads_as(bytes@, record),
        },
{
    let key: &str = ",\"capability_configuration\":";
    let ghost name = "\"ontology_mode\":\""@;
    proof {
        assert forall|record: ConfigurationView| #[trigger] reads_as(bytes@, record) implies ({
            let settings = settings_form(
                record.capabilities,
                record.embeddings,
                record.directedness,
            );
            decode_versioned(bytes@, name) == Some(
                (record.contract_version, record.mode, encode_utf8(key@) + settings),
            ) && strip(encode_utf8(key@) + settings, encode_utf8(key@)) == Some(settings)
        }) by {
            let settings = settings_form(
                record.capabilities,
                record.embeddings,
                record.directedness,
            );
            lemma_versioned_read(
                record.contract_version,
                name,
                record.mode,
                encode_utf8(key@) + settings,
            );
            lemma_strip(encode_utf8(key@), settings);
        }
        lemma_versioned_taken(bytes@, name);
    }
    let (contract_version, ontology_mode, rest) = match take_version_and_mode(
        bytes,
        "\"ontology_mode\":\"",
    ) {
        Some(taken) => taken,
        None => {
            return None;
        },
    };
    proof {
        lemma_stripped(rest@, encode_utf8(key@));
    }
    let body: &[u8] = match take_literal(rest, key.as_bytes()) {
        Some(body) => body,
        None => {
            return None;
        },
    };
    match take_settings(body) {
        Some(settings) => {
            let settled: bool = same_text(settings.capabilities.text().as_str(), "{}")
                && same_text(settings.embeddings.text().as_str(), "{}");
            let record = WorkspaceConfiguration {
                contract_version,
                ontology_mode,
                capability_configuration: settings.capabilities,
                embedding_configuration: settings.embeddings,
                graph_directedness: settings.directedness,
            };
            if !settled && !holds_json(bytes) {
                proof {
                    assert forall|other: ConfigurationView|
                        !#[trigger] reads_as(bytes@, other) by {
                        if reads_as(bytes@, other) {
                            lemma_settings_unique(bytes@, other, record@);
                        }
                    }
                }
                return None;
            }
            Some(record)
        },
        None => {
            proof {
                assert forall|record: ConfigurationView| !#[trigger] reads_as(bytes@, record) by {
                    if reads_as(bytes@, record) {
                        assert(settles(
                            body@,
                            record.capabilities,
                            record.embeddings,
                            record.directedness,
                        ));
                    }
                }
            }
            None
        },
    }
}

/// The encoding of a configuration record, or why it has none.
pub open spec fn written_configuration(record: ConfigurationView) -> Result<Seq<u8>, Seq<char>> {
    if record.contract_version != 1 {
        Err("unsupported workspace configuration contract"@)
    } else {
        Ok(configuration_form(record))
    }
}

/// The record that a JSON reader found in some bytes, where these are its
/// canonical encoding, or why it is refused.
pub open spec fn admitted_configuration(bytes: Seq<u8>, parsed: Option<ConfigurationView>) -> Result<
    ConfigurationView,
    Seq<char>,
> {
    if !one_record(bytes) {
        Err("workspace configuration is not canonical JSON plus LF"@)
    } else {
        match parsed {
            None => Err("workspace configuration is malformed"@),
            Some(record) => if record.contract_version != 1 {
                Err("unsupported workspace configuration contract"@)
            } else if configuration_form(record) != bytes {
                Err("workspace configuration is not canonically encoded"@)
            } else {
                Ok(record)
            },
        }
    }
}

/// Whether a result is that of reading a configuration record.
pub open spec fn reading(
    result: Result<WorkspaceConfiguration, GfError>,
    bytes: Seq<u8>,
) -> bool {
    match result {
        Ok(record) => one_record(bytes) && reads_as(bytes, record@) && record@.contract_version
            == 1,
        Err(error) => if !one_record(bytes) {
            error.is_corrupt("workspace configuration is not canonical JSON plus LF"@)
        } else {
            ||| (forall|record: ConfigurationView| !#[trigger] reads_as(bytes, record))
                && error.is_corrupt("workspace configuration is malformed"@)
            ||| (exists|record: ConfigurationView| #[trigger]
                reads_as(bytes, record) && record.contract_version != 1) && error.is_corrupt(
                "unsupported workspace configuration contract"@,
            )
        },
    }
}

impl WorkspaceConfiguration {
    /// The record of a new project.
    pub fn empty() -> (record: WorkspaceConfiguration)
        ensures
            record@ == empty_configuration(),
    {
        WorkspaceConfiguration {
            contract_version: 1,
            ontology_mode: WorkspaceOntologyMode::Absent,
            capability_configuration: JsonObject::empty(),
            embedding_configuration: JsonObject::empty(),
            graph_directedness: None,
        }
    }

    /// Check the record and encode it as canonical JSON and a line feed.
    pub fn to_canonical_json(&self) -> (bytes: Result<Vec<u8>, GfError>)
        ensures
            match bytes {
                Ok(bytes) => written_configuration(self@) == Ok::<Seq<u8>, Seq<char>>(bytes@),
                Err(error) => written_configuration(self@) is Err && error.is_corrupt(
                    written_configuration(self@)->Err_0,
                ),
            },
    {
        if self.contract_version != 1 {
            return Err(corrupt("unsupported workspace configuration contract"));
        }
        Ok(encode_configuration(self))
    }

    /// Read a record from exactly its canonical encoding, and check it. What
    /// is encoded otherwise is malformed here: a JSON reader is needed to tell
    /// more of it, and [`Self::from_parsed_json`] to go on from there.
    pub fn from_canonical_json(bytes: &[u8]) -> (record: Result<WorkspaceConfiguration, GfError>)
        ensures
            reading(record, bytes@),
    {
        if !is_one_record(bytes) {
            return Err(corrupt("workspace configuration is not canonical JSON plus LF"));
        }
        let record: WorkspaceConfiguration = match parse_configuration(bytes) {
            Some(record) => record,
            None => {
                return Err(corrupt("workspace configuration is malformed"));
            },
        };
        if record.contract_version != 1 {
            assert(reads_as(bytes@, record@));
            return Err(corrupt("unsupported workspace configuration contract"));
        }
        Ok(record)
    }

    /// Check the record that a JSON reader found in some bytes, if it found
    /// one, and that the bytes are its canonical encoding.
    pub fn from_parsed_json(bytes: &[u8], parsed: Option<WorkspaceConfiguration>) -> (record: Result<
        WorkspaceConfiguration,
        GfError,
    >)
        ensures
            ({
                let outcome = admitted_configuration(
                    bytes@,
                    match parsed {
                        Some(parsed) => Some(parsed@),
                        None => None,
                    },
                );
                match record {
                    Ok(record) => outcome == Ok::<ConfigurationView, Seq<char>>(record@),
                    Err(error) => outcome is Err && error.is_corrupt(outcome->Err_0),
                }
            }),
    {
        if !is_one_record(bytes) {
            return Err(corrupt("workspace configuration is not canonical JSON plus LF"));
        }
        let record: WorkspaceConfiguration = match parsed {
            Some(record) => record,
            None => {
                return Err(corrupt("workspace configuration is malformed"));
            },
        };
        if record.contract_version != 1 {
            return Err(corrupt("unsupported workspace configuration contract"));
        }
        let encoded: Vec<u8> = encode_configuration(&record);
        if !crate::bytes::same_bytes(encoded.as_slice(), bytes) {
            return Err(corrupt("workspace configuration is not canonically encoded"));
        }
        Ok(record)
    }
}

proof fn lemma_configuration_lines()
    ensures
        one_line(encode_utf8("{\"contract_version\":"@)),
        one_line(encode_utf8("\"ontology_mode\":\""@)),
        one_line(encode_utf8(",\"capability_configuration\":"@)),
        one_line(encode_utf8(",\"embedding_configuration\":"@)),
        one_line(encode_utf8(",\"graph_directedness\":\""@)),
{
    reveal_strlit("{\"contract_version\":");
    lemma_line("{\"contract_version\":"@);
    reveal_strlit("\"ontology_mode\":\"");
    lemma_line("\"ontology_mode\":\""@);
    reveal_strlit(",\"capability_configuration\":");
    lemma_line(",\"capability_configuration\":"@);
    reveal_strlit(",\"embedding_configuration\":");
    lemma_line(",\"embedding_configuration\":"@);
    reveal_strlit(",\"graph_directedness\":\"");
    lemma_line(",\"graph_directedness\":\""@);
}

proof fn lemma_directedness_record(directedness: Option<GraphDirectedness>)
    ensures
        one_record(directedness_form(directedness)),
{
    let end = seq![125u8, 10u8];
    assert(end.drop_last() =~= seq![125u8]);
    if let Some(directedness) = directedness {
        lemma_configuration_lines();
        reveal_strlit("directed");
        reveal_strlit("undirected");
        lemma_letters("directed"@);
        lemma_letters("undirected"@);
        let token = text_form(directedness_token(directedness));
        lemma_text_line(directedness_token(directedness));
        lemma_lines(token, end);
        lemma_lines(encode_utf8(",\"graph_directedness\":\""@), token + end);
    }
}

proof fn lemma_configuration_record(record: ConfigurationView)
    requires
        one_line(encode_utf8(record.capabilities)),
        one_line(encode_utf8(record.embeddings)),
    ensures
        one_record(configuration_form(record)),
{
    lemma_configuration_lines();
    lemma_directedness_record(record.directedness);
    lemma_mode_tokens(record.mode);
    lemma_text_line(mode_token(record.mode));
    lemma_decimal_line(record.contract_version as nat);
    let h = directedness_form(record.directedness);
    let g = encode_utf8(record.embeddings) + h;
    let f = encode_utf8(",\"embedding_configuration\":"@) + g;
    let e = encode_utf8(record.capabilities) + f;
    let d = encode_utf8(",\"capability_configuration\":"@) + e;
    let c = text_form(mode_token(record.mode)) + d;
    let b = encode_utf8("\"ontology_mode\":\""@) + c;
    let a = seq![44u8] + b;
    lemma_lines(encode_utf8(record.embeddings), h);
    lemma_lines(encode_utf8(",\"embedding_configuration\":"@), g);
    lemma_lines(encode_utf8(record.capabilities), f);
    lemma_lines(encode_utf8(",\"capability_configuration\":"@), e);
    lemma_lines(text_form(mode_token(record.mode)), d);
    lemma_lines(encode_utf8("\"ontology_mode\":\""@), c);
    lemma_lines(seq![44u8], b);
    lemma_lines(decimal_text(record.contract_version as nat), a);
    lemma_lines(
        encode_utf8("{\"contract_version\":"@),
        decimal_text(record.contract_version as nat) + a,
    );
}

proof fn lemma_same_text(left: Seq<char>, right: Seq<char>)
    requires
        encode_utf8(left) == encode_utf8(right),
    ensures
        left == right,
{
    encode_utf8_decode_utf8(left);
    encode_utf8_decode_utf8(right);
}

proof fn lemma_directedness_unique(
    left: Option<GraphDirectedness>,
    right: Option<GraphDirectedness>,
)
    requires
        directedness_form(left) == directedness_form(right),
    ensures
        left == right,
{
    let key = encode_utf8(",\"graph_directedness\":\""@);
    let end = seq![125u8, 10u8];
    reveal_strlit(",\"graph_directedness\":\"");
    is_ascii_chars_encode_utf8(",\"graph_directedness\":\""@);
    reveal_strlit("directed");
    reveal_strlit("undirected");
    is_ascii_chars_encode_utf8("directed"@);
    is_ascii_chars_encode_utf8("undirected"@);
    assert(key.len() > 0);
    let directed = directedness_form(Some(GraphDirectedness::Directed));
    let undirected = directedness_form(Some(GraphDirectedness::Undirected));
    assert(directed.len() == key.len() + text_form("directed"@).len() + 2);
    assert(undirected.len() == key.len() + text_form("undirected"@).len() + 2);
    assert(text_form("directed"@).len() != text_form("undirected"@).len());
    assert(directedness_form(None).len() == 2);
}

/// An encoding is that of one record: the settings end where their brackets
/// close.
pub proof fn lemma_configuration_unique(
    bytes: Seq<u8>,
    left: ConfigurationView,
    right: ConfigurationView,
)
    requires
        reads_as(bytes, left),
        reads_as(bytes, right),
    ensures
        left == right,
{
    lemma_settings_unique(bytes, left, right);
}

proof fn lemma_settings_unique(bytes: Seq<u8>, left: ConfigurationView, right: ConfigurationView)
    requires
        compact_object(left.capabilities),
        compact_object(left.embeddings),
        bytes == configuration_form(left),
        compact_object(right.capabilities),
        compact_object(right.embeddings),
        bytes == configuration_form(right),
    ensures
        left == right,
{
    let name = "\"ontology_mode\":\""@;
    let key = encode_utf8(",\"capability_configuration\":"@);
    let middle = encode_utf8(",\"embedding_configuration\":"@);
    let body = |record: ConfigurationView|
        settings_form(record.capabilities, record.embeddings, record.directedness);
    lemma_versioned_read(left.contract_version, name, left.mode, key + body(left));
    lemma_versioned_read(right.contract_version, name, right.mode, key + body(right));
    lemma_strip(key, body(left));
    lemma_strip(key, body(right));
    assert(body(left) == body(right));
    lemma_closes_once(
        encode_utf8(left.capabilities),
        embeddings_form(left.embeddings, left.directedness),
        encode_utf8(right.capabilities),
        embeddings_form(right.embeddings, right.directedness),
    );
    lemma_same_text(left.capabilities, right.capabilities);
    let left_end = encode_utf8(left.embeddings) + directedness_form(left.directedness);
    let right_end = encode_utf8(right.embeddings) + directedness_form(right.directedness);
    lemma_strip(middle, left_end);
    lemma_strip(middle, right_end);
    assert(left_end == right_end);
    lemma_closes_once(
        encode_utf8(left.embeddings),
        directedness_form(left.directedness),
        encode_utf8(right.embeddings),
        directedness_form(right.directedness),
    );
    lemma_same_text(left.embeddings, right.embeddings);
    lemma_directedness_unique(left.directedness, right.directedness);
}

/// What was written is accepted and read back as the record that was written,
/// where the settings are in compact form on one line and not nested too deep
/// for a reader of the whole record.
pub proof fn lemma_configuration_accepted(
    result: Result<WorkspaceConfiguration, GfError>,
    record: ConfigurationView,
)
    requires
        written_configuration(record) is Ok,
        compact_object(record.capabilities),
        compact_object(record.embeddings),
        one_line(encode_utf8(record.capabilities)),
        one_line(encode_utf8(record.embeddings)),
        has_settings(record) ==> is_json(configuration_form(record)),
        reading(result, written_configuration(record)->Ok_0),
    ensures
        result matches Ok(read) && read@ == record,
{
    let bytes = configuration_form(record);
    lemma_configuration_record(record);
    assert(reads_as(bytes, record));
    match result {
        Ok(read) => {
            lemma_configuration_unique(bytes, read@, record);
        },
        Err(error) => {
            if exists|other: ConfigurationView| #[trigger]
                reads_as(bytes, other) && other.contract_version != 1 {
                let other = choose|other: ConfigurationView| #[trigger]
                    reads_as(bytes, other) && other.contract_version != 1;
                lemma_configuration_unique(bytes, other, record);
            }
        },
    }
}

/// A record that a JSON reader found and that is accepted is the one that the
/// bytes are read as, where the settings are in compact form.
pub proof fn lemma_parsed_configuration(
    result: Result<WorkspaceConfiguration, GfError>,
    bytes: Seq<u8>,
    record: ConfigurationView,
)
    requires
        compact_object(record.capabilities),
        compact_object(record.embeddings),
        is_json(bytes),
        admitted_configuration(bytes, Some(record)) == Ok::<ConfigurationView, Seq<char>>(record),
        reading(result, bytes),
    ensures
        result matches Ok(read) && read@ == record,
{
    assert(reads_as(bytes, record));
    match result {
        Ok(read) => {
            lemma_configuration_unique(bytes, read@, record);
        },
        Err(error) => {
            if exists|other: ConfigurationView| #[trigger]
                reads_as(bytes, other) && other.contract_version != 1 {
                let other = choose|other: ConfigurationView| #[trigger]
                    reads_as(bytes, other) && other.contract_version != 1;
                lemma_configuration_unique(bytes, other, record);
            }
        },
    }
}

/// The participants of a new project: its configuration, and that it has no
/// ontology.
pub fn empty_workspace_participants() -> (participants: Result<Vec<ProjectParticipant>, GfError>)
    ensures
        participants matches Ok(participants) && participants@.len() == 2 && is_participant(
            participants@[0],
            WORKSPACE_CONFIGURATION_FAMILY@,
            configuration_form(empty_configuration()),
        ) && is_participant(
            participants@[1],
            WORKSPACE_ONTOLOGY_FAMILY@,
            ontology_form(no_ontology()),
        ),
{
    let configuration: Vec<u8> = match WorkspaceConfiguration::empty().to_canonical_json() {
        Ok(bytes) => bytes,
        Err(error) => {
            return Err(error);
        },
    };
    let ontology: Vec<u8> = match WorkspaceOntology::none().to_canonical_json() {
        Ok(bytes) => bytes,
        Err(error) => {
            return Err(error);
        },
    };
    let mut participants: Vec<ProjectParticipant> = Vec::new();
    participants.push(participant(WORKSPACE_CONFIGURATION_FAMILY, configuration));
    participants.push(participant(WORKSPACE_ONTOLOGY_FAMILY, ontology));
    Ok(participants)
}

impl WorkspaceRepositorySnapshot {
    /// The participant of a snapshot.
    pub fn to_project_participant(&self) -> (participant: Result<ProjectParticipant, GfError>)
        ensures
            match participant {
                Ok(participant) => written(self@) is Ok && is_participant(
                    participant,
                    WORKSPACE_REPOSITORY_SNAPSHOT_FAMILY@,
                    written(self@)->Ok_0,
                ),
                Err(error) => written(self@) is Err && error.is_corrupt(written(self@)->Err_0),
            },
    {
        match self.to_canonical_json() {
            Ok(bytes) => Ok(participant(WORKSPACE_REPOSITORY_SNAPSHOT_FAMILY, bytes)),
            Err(error) => Err(error),
        }
    }
}

} // verus!
