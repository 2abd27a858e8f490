//! The written form of the manifest of the ordinal artifacts: one compact JSON
//! record, which readers admit up to a bound.
use vstd::prelude::*;
use vstd::string::*;
use vstd::utf8::*;

use crate::bytes::{decimal_codes, decimal_text, push_all};
use crate::canonical_json::push_text;
use crate::error::{GfError, storage_err};
use crate::ordinal_format::{
    ArtifactView, OrdinalBlockView, OrdinalManifestView, RangeView, TombstoneBlockView,
    TombstonesView, V4OrdinalArtifact, V4OrdinalArtifactKind, V4OrdinalBlock,
    V4OrdinalIdentityManifest, V4OrdinalRange, V4OrdinalTombstoneBlock, V4OrdinalTombstones, views,
};

verus! {

/// Bounds of the manifests that readers admit.
#[derive(Clone, Copy, Debug, PartialEq, Eq, Structural)]
pub struct V4OrdinalBounds {
    /// Most ranges.
    pub ranges: usize,
    /// Greatest length of a written manifest.
    pub manifest_bytes: u64,
}

/// The lowercase hexadecimal digit of a number below sixteen.
pub open spec fn hex_digit(value: u8) -> u8 {
    if value < 10 {
        (48 + value) as u8
    } else {
        (87 + value) as u8
    }
}

/// A byte of a text as it stands in a JSON string.
pub open spec fn escaped_byte(byte: u8) -> Seq<u8> {
    if byte == 34 || byte == 92 {
        seq![92u8, byte]
    } else if byte == 8 {
        seq![92u8, 98u8]
    } else if byte == 9 {
        seq![92u8, 116u8]
    } else if byte == 10 {
        seq![92u8, 110u8]
    } else if byte == 12 {
        seq![92u8, 102u8]
    } else if byte == 13 {
        seq![92u8, 114u8]
    } else if byte < 32 {
        seq![92u8, 117u8, 48u8, 48u8, hex_digit((byte / 16) as u8), hex_digit((byte % 16) as u8)]
    } else {
        seq![byte]
    }
}

/// Bytes of a text as they stand in a JSON string.
pub open spec fn escaped(bytes: Seq<u8>) -> Seq<u8>
    decreases bytes.len(),
{
    if bytes.len() == 0 {
        Seq::empty()
    } else {
        escaped(bytes.drop_last()) + escaped_byte(bytes.last())
    }
}

/// A JSON string.
pub open spec fn quoted(text: Seq<char>) -> Seq<u8> {
    seq![34u8] + escaped(encode_utf8(text)) + seq![34u8]
}

fn push_escaped_byte(out: &mut Vec<u8>, byte: u8)
    ensures
        final(out)@ == old(out)@ + escaped_byte(byte),
{
    if byte == 34 || byte == 92 {
        out.push(92);
        out.push(byte);
    } else if byte == 8 {
        out.push(92);
        out.push(98);
    } else if byte == 9 {
        out.push(92);
        out.push(116);
    } else if byte == 10 {
        out.push(92);
        out.push(110);
    } else if byte == 12 {
        out.push(92);
        out.push(102);
    } else if byte == 13 {
        out.push(92);
        out.push(114);
    } else if byte < 32 {
        let high: u8 = byte / 16;
        let low: u8 = byte % 16;
        out.push(92);
        out.push(117);
        out.push(48);
        out.push(48);
        out.push(48 + high);
        out.push(
            if low < 10 {
                48 + low
            } else {
                87 + low
            },
        );
    } else {
        out.push(byte);
    }
    assert(out@ =~= old(out)@ + escaped_byte(byte));
}

fn push_string(out: &mut Vec<u8>, text: &String)
    ensures
        final(out)@ == old(out)@ + quoted(text@),
{
    let ghost before = out@;
    let bytes: &[u8] = text.as_str().as_bytes();
    out.push(34);
    let mut i: usize = 0;
    assert(bytes@.take(0) =~= Seq::<u8>::empty());
    assert(out@ =~= before + seq![34u8] + escaped(bytes@.take(0)));
    while i < bytes.len()
        invariant
            i <= bytes@.len(),
            out@ == before + seq![34u8] + escaped(bytes@.take(i as int)),
        decreases bytes.len() - i,
    {
        push_escaped_byte(out, bytes[i]);
        proof {
            let next = bytes@.take(i + 1);
            assert(next.drop_last() =~= bytes@.take(i as int));
            assert(out@ =~= before + seq![34u8] + escaped(next));
        }
        i = i + 1;
    }
    assert(bytes@.take(i as int) =~= bytes@);
    out.push(34);
    assert(out@ =~= before + quoted(text@));
}

fn push_number(out: &mut Vec<u8>, value: u64)
    ensures
        final(out)@ == old(out)@ + decimal_text(value as nat),
{
    let digits: Vec<u8> = decimal_codes(value);
    push_all(out, digits.as_slice());
}

/// A part of the manifest with a written form.
pub trait Written: View + Sized {
    /// The written form.
    spec fn form(view: Self::V) -> Seq<u8>;

    /// Append the written form.
    fn write(&self, out: &mut Vec<u8>)
        ensures
            final(out)@ == old(out)@ + Self::form(self@),
    ;
}

/// The forms of the parts of a list, with commas between them.
pub open spec fn joined<T: Written>(parts: Seq<T::V>) -> Seq<u8>
    decreases parts.len(),
{
    if parts.len() == 0 {
        Seq::empty()
    } else if parts.len() == 1 {
        T::form(parts[0])
    } else {
        joined::<T>(parts.drop_last()) + seq![44u8] + T::form(parts.last())
    }
}

/// The form of a list.
pub open spec fn list_form<T: Written>(parts: Seq<T::V>) -> Seq<u8> {
    seq![91u8] + joined::<T>(parts) + seq![93u8]
}

fn push_list<T: Written>(out: &mut Vec<u8>, parts: &Vec<T>)
    ensures
        final(out)@ == old(out)@ + list_form::<T>(views(parts@)),
{
    let ghost before = out@;
    let ghost all = views(parts@);
    out.push(91);
    let mut i: usize = 0;
    assert(all.take(0) =~= Seq::<T::V>::empty());
    assert(out@ =~= before + seq![91u8] + joined::<T>(all.take(0)));
    while i < parts.len()
        invariant
            i <= parts@.len(),
            all == views(parts@),
            out@ == before + seq![91u8] + joined::<T>(all.take(i as int)),
        decreases parts.len() - i,
    {
        if i > 0 {
            out.push(44);
        }
        parts[i].write(out);
        proof {
            let next = all.take(i + 1);
            assert(next.last() == parts@[i as int]@);
            assert(next.drop_last() =~= all.take(i as int));
            if i == 0 {
                assert(joined::<T>(all.take(0)) =~= Seq::<u8>::empty());
            }
            assert(out@ =~= before + seq![91u8] + joined::<T>(next));
        }
        i = i + 1;
    }
    assert(all.take(i as int) =~= all);
    out.push(93);
    assert(out@ =~= before + list_form::<T>(all));
}

/// The name of what an artifact holds.
pub open spec fn kind_form(kind: V4OrdinalArtifactKind) -> Seq<u8> {
    match kind {
        V4OrdinalArtifactKind::ForwardIdentities => encode_utf8("\"forward_identities\""@),
        V4OrdinalArtifactKind::OrdinalUuids => encode_utf8("\"ordinal_uuids\""@),
        V4OrdinalArtifactKind::NodeTombstones => encode_utf8("\"node_tombstones\""@),
    }
}

impl Written for V4OrdinalArtifact {
    open spec fn form(view: ArtifactView) -> Seq<u8> {
        encode_utf8("{\"name\":"@) + quoted(view.name) + encode_utf8(",\"kind\":"@) + kind_form(
            view.kind,
        ) + encode_utf8(",\"generation\":"@) + decimal_text(view.generation as nat) + encode_utf8(
            ",\"bytes\":"@,
        ) + decimal_text(view.bytes as nat) + encode_utf8(",\"sha256\":"@) + quoted(view.sha256)
            + encode_utf8("}"@)
    }

    #[verifier::rlimit(60)]
    #[verifier::spinoff_prover]
    fn write(&self, out: &mut Vec<u8>) {
        let ghost before = out@;
        push_text(out, "{\"name\":");
        push_string(out, &self.name);
        push_text(out, ",\"kind\":");
        match self.kind {
            V4OrdinalArtifactKind::ForwardIdentities => push_text(out, "\"forward_identities\""),
            V4OrdinalArtifactKind::OrdinalUuids => push_text(out, "\"ordinal_uuids\""),
            V4OrdinalArtifactKind::NodeTombstones => push_text(out, "\"node_tombstones\""),
        }
        push_text(out, ",\"generation\":");
        push_number(out, self.generation);
        push_text(out, ",\"bytes\":");
        push_number(out, self.bytes);
        push_text(out, ",\"sha256\":");
        push_string(out, &self.sha256);
        push_text(out, "}");
        assert(out@ =~= before + Self::form(self@));
    }
}

impl Written for V4OrdinalBlock {
    open spec fn form(view: OrdinalBlockView) -> Seq<u8> {
        encode_utf8("{\"offset\":"@) + decimal_text(view.offset as nat) + encode_utf8(
            ",\"count\":"@,
        ) + decimal_text(view.count as nat) + encode_utf8(",\"sha256\":"@) + quoted(view.sha256)
            + encode_utf8("}"@)
    }

    #[verifier::rlimit(60)]
    #[verifier::spinoff_prover]
    fn write(&self, out: &mut Vec<u8>) {
        let ghost before = out@;
        push_text(out, "{\"offset\":");
        push_number(out, self.offset);
        push_text(out, ",\"count\":");
        push_number(out, self.count);
        push_text(out, ",\"sha256\":");
        push_string(out, &self.sha256);
        push_text(out, "}");
        assert(out@ =~= before + Self::form(self@));
    }
}

impl Written for V4OrdinalRange {
    open spec fn form(view: RangeView) -> Seq<u8> {
        encode_utf8("{\"first_node_id\":"@) + decimal_text(view.first_node_id as nat)
            + encode_utf8(",\"count\":"@) + decimal_text(view.count as nat) + encode_utf8(
            ",\"artifact\":"@,
        ) + V4OrdinalArtifact::form(view.artifact) + encode_utf8(",\"blocks\":"@) + list_form::<
            V4OrdinalBlock,
        >(view.blocks) + encode_utf8("}"@)
    }

    #[verifier::rlimit(60)]
    #[verifier::spinoff_prover]
    fn write(&self, out: &mut Vec<u8>) {
        let ghost before = out@;
        push_text(out, "{\"first_node_id\":");
        push_number(out, self.first_node_id);
        push_text(out, ",\"count\":");
        push_number(out, self.count);
        push_text(out, ",\"artifact\":");
        self.artifact.write(out);
        push_text(out, ",\"blocks\":");
        push_list(out, &self.blocks);
        push_text(out, "}");
        assert(out@ =~= before + Self::form(self@));
    }
}

impl Written for V4OrdinalTombstoneBlock {
    open spec fn form(view: TombstoneBlockView) -> Seq<u8> {
        encode_utf8("{\"offset\":"@) + decimal_text(view.offset as nat) + encode_utf8(
            ",\"count\":"@,
        ) + decimal_text(view.count as nat) + encode_utf8(",\"first\":"@) + decimal_text(
            view.first as nat,
        ) + encode_utf8(",\"last\":"@) + decimal_text(view.last as nat) + encode_utf8(
            ",\"sha256\":"@,
        ) + quoted(view.sha256) + encode_utf8("}"@)
    }

    #[verifier::rlimit(60)]
    #[verifier::spinoff_prover]
    fn write(&self, out: &mut Vec<u8>) {
        let ghost before = out@;
        push_text(out, "{\"offset\":");
        push_number(out, self.offset);
        push_text(out, ",\"count\":");
        push_number(out, self.count);
        push_text(out, ",\"first\":");
        push_number(out, self.first);
        push_text(out, ",\"last\":");
        push_number(out, self.last);
        push_text(out, ",\"sha256\":");
        push_string(out, &self.sha256);
        push_text(out, "}");
        assert(out@ =~= before + Self::form(self@));
    }
}

impl Written for V4OrdinalTombstones {
    open spec fn form(view: TombstonesView) -> Seq<u8> {
        encode_utf8("{\"generation\":"@) + decimal_text(view.generation as nat) + encode_utf8(
            ",\"artifact\":"@,
        ) + V4OrdinalArtifact::form(view.artifact) + encode_utf8(",\"blocks\":"@) + list_form::<
            V4OrdinalTombstoneBlock,
        >(view.blocks) + encode_utf8("}"@)
    }

    #[verifier::rlimit(60)]
    #[verifier::spinoff_prover]
    fn write(&self, out: &mut Vec<u8>) {
        let ghost before = out@;
        push_text(out, "{\"generation\":");
        push_number(out, self.generation);
        push_text(out, ",\"artifact\":");
        self.artifact.write(out);
        push_text(out, ",\"blocks\":");
        push_list(out, &self.blocks);
        push_text(out, "}");
        assert(out@ =~= before + Self::form(self@));
    }
}

/// The written form of a manifest.
#[verifier::opaque]
pub open spec fn manifest_form(view: OrdinalManifestView) -> Seq<u8> {
    encode_utf8("{\"format_version\":"@) + decimal_text(view.format_version as nat) + encode_utf8(
        ",\"topology_generation\":"@,
    ) + decimal_text(view.topology_generation as nat) + encode_utf8(",\"forward_identities\":"@)
        + list_form::<V4OrdinalArtifact>(view.forward) + encode_utf8(",\"ordinal_ranges\":"@)
        + list_form::<V4OrdinalRange>(view.ranges) + encode_utf8(",\"tombstones\":"@)
        + list_form::<V4OrdinalTombstones>(view.tombstones) + encode_utf8("}"@)
}

/// Write a manifest.
pub fn encode_v4_manifest(manifest: &V4OrdinalIdentityManifest) -> (bytes: Vec<u8>)
    ensures
        bytes@ == manifest_form(manifest@),
{
    let mut out: Vec<u8> = Vec::new();
    push_text(&mut out, "{\"format_version\":");
    push_number(&mut out, manifest.format_version as u64);
    push_text(&mut out, ",\"topology_generation\":");
    push_number(&mut out, manifest.topology_generation);
    push_text(&mut out, ",\"forward_identities\":");
    push_list(&mut out, &manifest.forward_identities);
    push_text(&mut out, ",\"ordinal_ranges\":");
    push_list(&mut out, &manifest.ordinal_ranges);
    push_text(&mut out, ",\"tombstones\":");
    push_list(&mut out, &manifest.tombstones);
    push_text(&mut out, "}");
    proof {
        reveal(manifest_form);
        assert(out@ =~= manifest_form(manifest@));
    }
    out
}

/// Whether readers admit a manifest.
pub open spec fn admits(manifest: OrdinalManifestView, maximum: u64) -> bool {
    manifest_form(manifest).len() <= maximum
}

/// What a builder leaves with a manifest, unless readers do not admit it.
pub open spec fn admitted<T>(built: T, manifest: OrdinalManifestView, maximum: u64) -> Result<
    T,
    Seq<char>,
> {
    if admits(manifest, maximum) {
        Ok(built)
    } else {
        Err("v4 ordinal manifest exceeds the reader admission bound"@)
    }
}

/// Refuse a manifest that readers do not admit.
pub fn admit_v4_construction_manifest(manifest: &V4OrdinalIdentityManifest, maximum: u64) -> (done:
    Result<(), GfError>)
    ensures
        match done {
            Ok(()) => admits(manifest@, maximum),
            Err(error) => !admits(manifest@, maximum) && error.is_storage(
                "v4 ordinal manifest exceeds the reader admission bound"@,
            ),
        },
{
    let bytes: Vec<u8> = encode_v4_manifest(manifest);
    if bytes.len() as u64 > maximum {
        return Err(storage_err("v4 ordinal manifest exceeds the reader admission bound"));
    }
    Ok(())
}

} // verus!
