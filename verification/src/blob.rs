//! Compact binary snapshot of an index.
//!
//! The format is little-endian and length-prefixed. Every count and length is
//! validated against the remaining input before it is used to allocate, so a
//! corrupt or hostile file can only produce an error.

use vstd::prelude::*;
use vstd::bytes::{
    spec_u32_from_le_bytes, spec_u32_to_le_bytes, spec_u64_from_le_bytes, spec_u64_to_le_bytes,
    u32_from_le_bytes, u32_to_le_bytes, u64_from_le_bytes, u64_to_le_bytes,
};
use vstd::utf8::{decode_utf8, encode_utf8, valid_utf8};

use crate::construct::{from_parts_result, is_token, pins_view};
use crate::index::{Index, IndexError, IndexView, Package, PackageView};
use crate::model::{strings_view, ChannelPin, ChannelView, DiagView, GuixOrigin, IndexDiagnostic, OriginView, SCHEMA_VERSION};

verus! {

/// File magic; the version is part of it so a stale file is rejected cheaply.
pub const MAGIC: [u8; 8] = [0x47, 0x55, 0x49, 0x56, 0x35, 0x49, 0x44, 0x58];
/// Upper bound on the packages of a snapshot.
pub const MAX_PACKAGES: u32 = 1_000_000;
/// Upper bound on the byte length of one text.
pub const MAX_STRING: u32 = 8 * 1024 * 1024;
/// Upper bound on one dependency list.
pub const MAX_DEPS: u32 = 100_000;
/// Upper bound on licenses of a package and on channels of an origin.
pub const MAX_SMALL_LIST: u32 = 4096;

pub open spec fn magic() -> Seq<u8> {
    seq![0x47u8, 0x55u8, 0x49u8, 0x56u8, 0x35u8, 0x49u8, 0x44u8, 0x58u8]
}

pub open spec fn le32(x: u32) -> Seq<u8> {
    spec_u32_to_le_bytes(x)
}

pub open spec fn le64(x: u64) -> Seq<u8> {
    spec_u64_to_le_bytes(x)
}

pub open spec fn flag(b: bool) -> Seq<u8> {
    if b {
        seq![1u8]
    } else {
        seq![0u8]
    }
}

/// A text: its UTF-8 byte length, then its UTF-8 bytes.
pub open spec fn enc_str(s: Seq<char>) -> Seq<u8> {
    le32(encode_utf8(s).len() as u32) + encode_utf8(s)
}

pub open spec fn enc_strs(v: Seq<Seq<char>>) -> Seq<u8>
    decreases v.len(),
{
    if v.len() == 0 {
        Seq::empty()
    } else {
        enc_strs(v.drop_last()) + enc_str(v.last())
    }
}

pub open spec fn ids_bytes(v: Seq<u32>) -> Seq<u8>
    decreases v.len(),
{
    if v.len() == 0 {
        Seq::empty()
    } else {
        ids_bytes(v.drop_last()) + le32(v.last())
    }
}

/// An id list: its length, then every id.
pub open spec fn enc_ids(v: Seq<u32>) -> Seq<u8> {
    le32(v.len() as u32) + ids_bytes(v)
}

pub open spec fn enc_channel(c: ChannelView) -> Seq<u8> {
    enc_str(c.0) + enc_str(c.1)
}

pub open spec fn enc_channels(v: Seq<ChannelView>) -> Seq<u8>
    decreases v.len(),
{
    if v.len() == 0 {
        Seq::empty()
    } else {
        enc_channels(v.drop_last()) + enc_channel(v.last())
    }
}

pub open spec fn enc_package(p: PackageView) -> Seq<u8> {
    le32(p.id) + flag(p.catalog) + enc_str(p.name) + enc_str(p.version) + enc_str(p.synopsis)
        + enc_str(p.description) + enc_str(p.homepage) + enc_str(p.file) + le64(p.line) + le32(
        p.licenses.len() as u32,
    ) + enc_strs(p.licenses) + enc_ids(p.inputs) + enc_ids(p.propagated) + enc_ids(p.native)
}

pub open spec fn enc_packages(v: Seq<PackageView>) -> Seq<u8>
    decreases v.len(),
{
    if v.len() == 0 {
        Seq::empty()
    } else {
        enc_packages(v.drop_last()) + enc_package(v.last())
    }
}

pub open spec fn enc_diag(d: DiagView) -> Seq<u8> {
    le32(d.package_id) + enc_str(d.kind) + enc_str(d.code) + enc_str(d.message)
}

pub open spec fn enc_diags(v: Seq<DiagView>) -> Seq<u8>
    decreases v.len(),
{
    if v.len() == 0 {
        Seq::empty()
    } else {
        enc_diags(v.drop_last()) + enc_diag(v.last())
    }
}

/// An origin: executable, system, the two flags, then the channels.
pub open spec fn enc_origin(o: OriginView) -> Seq<u8> {
    enc_str(o.executable) + enc_str(o.system) + flag(o.verified) + flag(o.mutable_package_path)
        + le32(o.channels.len() as u32) + enc_channels(o.channels)
}

/// Magic, schema, package count, commit, generation time and origin.
pub open spec fn enc_head(count: nat, commit: Seq<char>, generated_ms: u64, o: OriginView) -> Seq<u8> {
    magic() + le32(SCHEMA_VERSION) + le32(count as u32) + enc_str(commit) + le64(generated_ms)
        + enc_origin(o)
}

/// The persisted content of an index: everything but the derived snapshot
/// token, the reverse edges and the load timestamp.
pub open spec fn payload(
    pk: Seq<PackageView>,
    commit: Seq<char>,
    generated_ms: u64,
    o: OriginView,
    ds: Seq<DiagView>,
) -> Seq<u8> {
    enc_head(pk.len(), commit, generated_ms, o) + enc_packages(pk) + le32(ds.len() as u32)
        + enc_diags(ds)
}

fn push_bytes(out: &mut Vec<u8>, bytes: &[u8])
    ensures
        final(out)@ == old(out)@ + bytes@,
{
    let mut i: usize = 0;
    while i < bytes.len()
        invariant
            i <= bytes@.len(),
            out@ == old(out)@ + bytes@.take(i as int),
        decreases bytes@.len() - i,
    {
        out.push(bytes[i]);
        assert(bytes@.take(i + 1) =~= bytes@.take(i as int).push(bytes@[i as int]));
        i += 1;
    }
    assert(bytes@.take(bytes@.len() as int) =~= bytes@);
}

fn put_u32(out: &mut Vec<u8>, x: u32)
    ensures
        final(out)@ == old(out)@ + le32(x),
{
    let b = u32_to_le_bytes(x);
    push_bytes(out, b.as_slice());
}

fn put_u64(out: &mut Vec<u8>, x: u64)
    ensures
        final(out)@ == old(out)@ + le64(x),
{
    let b = u64_to_le_bytes(x);
    push_bytes(out, b.as_slice());
}

fn put_flag(out: &mut Vec<u8>, b: bool)
    ensures
        final(out)@ == old(out)@ + flag(b),
{
    if b {
        out.push(1u8);
        assert(final(out)@ =~= old(out)@ + flag(b));
    } else {
        out.push(0u8);
        assert(final(out)@ =~= old(out)@ + flag(b));
    }
}

/// Append a text: its byte length, then its bytes.
fn put_str(out: &mut Vec<u8>, s: &str)
    ensures
        final(out)@ == old(out)@ + enc_str(s@),
{
    let bytes = s.as_bytes();
    put_u32(out, bytes.len() as u32);
    push_bytes(out, bytes);
    assert(final(out)@ =~= old(out)@ + enc_str(s@));
}

/// Append an id list: its length, then every id.
fn put_ids(out: &mut Vec<u8>, ids: &[u32])
    ensures
        final(out)@ == old(out)@ + enc_ids(ids@),
{
    put_u32(out, ids.len() as u32);
    let ghost start = out@;
    let mut i: usize = 0;
    while i < ids.len()
        invariant
            i <= ids@.len(),
            out@ == start + ids_bytes(ids@.take(i as int)),
        decreases ids@.len() - i,
    {
        put_u32(out, ids[i]);
        assert(ids@.take(i + 1).drop_last() =~= ids@.take(i as int));
        i += 1;
    }
    assert(ids@.take(ids@.len() as int) =~= ids@);
    assert(final(out)@ =~= old(out)@ + enc_ids(ids@));
}

fn put_strs(out: &mut Vec<u8>, v: &Vec<String>)
    ensures
        final(out)@ == old(out)@ + enc_strs(strings_view(v@)),
{
    let ghost start = out@;
    let mut i: usize = 0;
    while i < v.len()
        invariant
            i <= v@.len(),
            out@ == start + enc_strs(strings_view(v@.take(i as int))),
        decreases v@.len() - i,
    {
        put_str(out, v[i].as_str());
        assert(strings_view(v@.take(i + 1)).drop_last() =~= strings_view(v@.take(i as int)));
        i += 1;
    }
    assert(v@.take(v@.len() as int) =~= v@);
}

#[verifier::spinoff_prover]
#[verifier::rlimit(50)]
fn put_package(out: &mut Vec<u8>, p: &Package)
    ensures
        final(out)@ == old(out)@ + enc_package(p@),
{
    put_u32(out, p.id);
    put_flag(out, p.catalog);
    put_str(out, p.name.as_str());
    put_str(out, p.version.as_str());
    put_str(out, p.synopsis.as_str());
    put_str(out, p.description.as_str());
    put_str(out, p.homepage.as_str());
    put_str(out, p.file.as_str());
    put_u64(out, p.line);
    put_u32(out, p.licenses.len() as u32);
    put_strs(out, &p.licenses);
    put_ids(out, p.inputs.as_slice());
    put_ids(out, p.propagated.as_slice());
    put_ids(out, p.native.as_slice());
    assert(final(out)@ =~= old(out)@ + enc_package(p@));
}

fn put_diag(out: &mut Vec<u8>, d: &IndexDiagnostic)
    ensures
        final(out)@ == old(out)@ + enc_diag(d@),
{
    put_u32(out, d.package_id);
    put_str(out, d.kind.as_str());
    put_str(out, d.code.as_str());
    put_str(out, d.message.as_str());
    assert(final(out)@ =~= old(out)@ + enc_diag(d@));
}

pub open spec fn packages_view(v: Seq<Package>) -> Seq<PackageView> {
    v.map_values(|p: Package| p@)
}

pub open spec fn diags_view(v: Seq<IndexDiagnostic>) -> Seq<DiagView> {
    v.map_values(|d: IndexDiagnostic| d@)
}

fn put_origin(out: &mut Vec<u8>, origin: &GuixOrigin)
    ensures
        final(out)@ == old(out)@ + enc_origin(origin@),
{
    put_str(out, origin.executable.as_str());
    put_str(out, origin.system.as_str());
    put_flag(out, origin.verified);
    put_flag(out, origin.mutable_package_path);
    put_u32(out, origin.channels.len() as u32);
    let ghost c0 = out@;
    let mut i: usize = 0;
    while i < origin.channels.len()
        invariant
            i <= origin.channels@.len(),
            out@ == c0 + enc_channels(origin@.channels.take(i as int)),
        decreases origin.channels@.len() - i,
    {
        let c: &ChannelPin = &origin.channels[i];
        put_str(out, c.name.as_str());
        put_str(out, c.commit.as_str());
        assert(origin@.channels.take(i + 1).drop_last() =~= origin@.channels.take(i as int));
        assert(origin@.channels.take(i + 1).last() == c@);
        i += 1;
    }
    assert(origin@.channels.take(origin@.channels.len() as int) =~= origin@.channels);
    assert(final(out)@ =~= old(out)@ + enc_origin(origin@));
}

fn put_head(out: &mut Vec<u8>, count: usize, guix_commit: &String, generated_ms: u64, origin: &GuixOrigin)
    ensures
        final(out)@ == old(out)@ + enc_head(count as nat, guix_commit@, generated_ms, origin@),
{
    push_bytes(out, &MAGIC);
    assert(MAGIC@ =~= magic());
    put_u32(out, SCHEMA_VERSION);
    put_u32(out, count as u32);
    put_str(out, guix_commit.as_str());
    put_u64(out, generated_ms);
    put_origin(out, origin);
    assert(final(out)@ =~= old(out)@ + enc_head(count as nat, guix_commit@, generated_ms, origin@));
}

fn put_packages(out: &mut Vec<u8>, packages: &Vec<Package>)
    ensures
        final(out)@ == old(out)@ + enc_packages(packages_view(packages@)),
{
    let ghost p0 = out@;
    let mut i: usize = 0;
    while i < packages.len()
        invariant
            i <= packages@.len(),
            out@ == p0 + enc_packages(packages_view(packages@).take(i as int)),
        decreases packages@.len() - i,
    {
        put_package(out, &packages[i]);
        assert(packages_view(packages@).take(i + 1).drop_last() =~= packages_view(packages@).take(
            i as int,
        ));
        i += 1;
    }
    assert(packages_view(packages@).take(packages@.len() as int) =~= packages_view(packages@));
}

fn put_diags(out: &mut Vec<u8>, diagnostics: &Vec<IndexDiagnostic>)
    ensures
        final(out)@ == old(out)@ + le32(diagnostics@.len() as u32) + enc_diags(diags_view(diagnostics@)),
{
    put_u32(out, diagnostics.len() as u32);
    let ghost d0 = out@;
    let mut i: usize = 0;
    while i < diagnostics.len()
        invariant
            i <= diagnostics@.len(),
            out@ == d0 + enc_diags(diags_view(diagnostics@).take(i as int)),
        decreases diagnostics@.len() - i,
    {
        put_diag(out, &diagnostics[i]);
        assert(diags_view(diagnostics@).take(i + 1).drop_last() =~= diags_view(diagnostics@).take(
            i as int,
        ));
        i += 1;
    }
    assert(diags_view(diagnostics@).take(diagnostics@.len() as int) =~= diags_view(diagnostics@));
    assert(final(out)@ =~= old(out)@ + le32(diagnostics@.len() as u32) + enc_diags(diags_view(diagnostics@)));
}

/// The persisted content of the given parts of an index.
pub(crate) fn encode_parts(
    packages: &Vec<Package>,
    guix_commit: &String,
    generated_ms: u64,
    origin: &GuixOrigin,
    diagnostics: &Vec<IndexDiagnostic>,
) -> (r: Vec<u8>)
    ensures
        r@ == payload(
            packages_view(packages@),
            guix_commit@,
            generated_ms,
            origin@,
            diags_view(diagnostics@),
        ),
{
    let mut out: Vec<u8> = Vec::new();
    put_head(&mut out, packages.len(), guix_commit, generated_ms, origin);
    put_packages(&mut out, packages);
    put_diags(&mut out, diagnostics);
    assert(out@ =~= payload(
        packages_view(packages@),
        guix_commit@,
        generated_ms,
        origin@,
        diags_view(diagnostics@),
    ));
    out
}


/// The encoded snapshot of an index.
pub fn encode(index: &Index) -> (r: Vec<u8>)
    ensures
        r@ == payload(
            index@.packages,
            index@.guix_commit,
            index@.generated_ms,
            index@.origin,
            index@.diagnostics,
        ),
{
    encode_payload(index)
}

/// The persisted content of an index; excludes the derived token, the
/// reverse edges and the load timestamp.
pub(crate) fn encode_payload(index: &Index) -> (r: Vec<u8>)
    ensures
        r@ == payload(
            index@.packages,
            index@.guix_commit,
            index@.generated_ms,
            index@.origin,
            index@.diagnostics,
        ),
{
    encode_parts(&index.packages, &index.guix_commit, index.generated_ms, &index.origin, &index.diagnostics)
}

/// Which field of a snapshot holds an impossible value.
#[derive(Debug, Clone, Copy, PartialEq, Eq, Structural)]
pub enum FieldKind {
    PackageCount,
    Catalog,
    Boolean,
    TrailingBytes,
    DependencyCount,
}

/// Why a byte string is not a snapshot.
#[derive(Debug, Clone, Copy, PartialEq, Eq, Structural)]
pub enum BlobError {
    /// Not a snapshot of this format (bad magic).
    Magic,
    /// Unsupported schema (found, expected).
    Schema(u32, u32),
    /// The input ends before a field, or a length is implausible.
    Truncated { at: usize, need: usize },
    /// The content was read but does not form a valid index.
    Invalid(IndexError),
    /// A field holds an impossible value.
    Field(FieldKind),
}

/// Take `n` bytes at `at`: the position after them.
pub open spec fn rd_take(b: Seq<u8>, at: int, n: int) -> Result<int, BlobError> {
    if at + n <= b.len() {
        Ok(at + n)
    } else {
        Err(BlobError::Truncated { at: at as usize, need: n as usize })
    }
}

pub open spec fn rd_u32(b: Seq<u8>, at: int) -> Result<(u32, int), BlobError> {
    match rd_take(b, at, 4) {
        Ok(e) => Ok((spec_u32_from_le_bytes(b.subrange(at, e)), e)),
        Err(x) => Err(x),
    }
}

pub open spec fn rd_u64(b: Seq<u8>, at: int) -> Result<(u64, int), BlobError> {
    match rd_take(b, at, 8) {
        Ok(e) => Ok((spec_u64_from_le_bytes(b.subrange(at, e)), e)),
        Err(x) => Err(x),
    }
}

/// A count about to drive an allocation: bounded first.
pub open spec fn rd_capped(b: Seq<u8>, at: int, max: u32) -> Result<(u32, int), BlobError> {
    match rd_u32(b, at) {
        Ok((v, e)) => if v > max {
            Err(BlobError::Truncated { at: e as usize, need: v as usize })
        } else {
            Ok((v, e))
        },
        Err(x) => Err(x),
    }
}

/// A flag byte: 0 or 1, anything else is an error on the named field.
pub open spec fn rd_flag(b: Seq<u8>, at: int, what: FieldKind) -> Result<(bool, int), BlobError> {
    match rd_take(b, at, 1) {
        Ok(e) => if b[at] == 0 {
            Ok((false, e))
        } else if b[at] == 1 {
            Ok((true, e))
        } else {
            Err(BlobError::Field(what))
        },
        Err(x) => Err(x),
    }
}

/// A text: a bounded byte length, then that many bytes of valid UTF-8.
pub open spec fn rd_string(b: Seq<u8>, at: int) -> Result<(Seq<char>, int), BlobError> {
    match rd_capped(b, at, MAX_STRING) {
        Err(x) => Err(x),
        Ok((len, p)) => match rd_take(b, p, len as int) {
            Err(x) => Err(x),
            Ok(e) => if valid_utf8(b.subrange(p, e)) {
                Ok((decode_utf8(b.subrange(p, e)), e))
            } else {
                Err(BlobError::Truncated { at: e as usize, need: len as usize })
            },
        },
    }
}

/// `n` ids stored from `at` on.
pub open spec fn ids_at(b: Seq<u8>, at: int, n: nat) -> Seq<u32> {
    Seq::new(n, |i: int| spec_u32_from_le_bytes(b.subrange(at + 4 * i, at + 4 * i + 4)))
}

/// An id list: a bounded count that the remaining input can hold, then the ids.
pub open spec fn rd_ids(b: Seq<u8>, at: int) -> Result<(Seq<u32>, int), BlobError> {
    match rd_capped(b, at, MAX_DEPS) {
        Err(x) => Err(x),
        Ok((n, p)) => if n > (b.len() - p) / 4 {
            Err(BlobError::Field(FieldKind::DependencyCount))
        } else {
            Ok((ids_at(b, p, n as nat), p + 4 * n))
        },
    }
}

pub open spec fn rd_strs(b: Seq<u8>, at: int, k: nat) -> Result<(Seq<Seq<char>>, int), BlobError>
    decreases k,
{
    if k == 0 {
        Ok((Seq::empty(), at))
    } else {
        match rd_strs(b, at, (k - 1) as nat) {
            Err(x) => Err(x),
            Ok((v, p)) => match rd_string(b, p) {
                Err(x) => Err(x),
                Ok((s, e)) => Ok((v.push(s), e)),
            },
        }
    }
}

pub open spec fn rd_channel(b: Seq<u8>, at: int) -> Result<(ChannelView, int), BlobError> {
    match rd_string(b, at) {
        Err(x) => Err(x),
        Ok((name, p)) => match rd_string(b, p) {
            Err(x) => Err(x),
            Ok((commit, e)) => Ok(((name, commit), e)),
        },
    }
}

pub open spec fn rd_channels(b: Seq<u8>, at: int, k: nat) -> Result<(Seq<ChannelView>, int), BlobError>
    decreases k,
{
    if k == 0 {
        Ok((Seq::empty(), at))
    } else {
        match rd_channels(b, at, (k - 1) as nat) {
            Err(x) => Err(x),
            Ok((v, p)) => match rd_channel(b, p) {
                Err(x) => Err(x),
                Ok((c, e)) => Ok((v.push(c), e)),
            },
        }
    }
}

pub open spec fn rd_package(b: Seq<u8>, at: int) -> Result<(PackageView, int), BlobError> {
    match rd_u32(b, at) {
        Err(x) => Err(x),
        Ok((id, p1)) => match rd_flag(b, p1, FieldKind::Catalog) {
            Err(x) => Err(x),
            Ok((catalog, p2)) => match rd_string(b, p2) {
                Err(x) => Err(x),
                Ok((name, p3)) => match rd_string(b, p3) {
                    Err(x) => Err(x),
                    Ok((version, p4)) => match rd_string(b, p4) {
                        Err(x) => Err(x),
                        Ok((synopsis, p5)) => match rd_string(b, p5) {
                            Err(x) => Err(x),
                            Ok((description, p6)) => match rd_string(b, p6) {
                                Err(x) => Err(x),
                                Ok((homepage, p7)) => match rd_string(b, p7) {
                                    Err(x) => Err(x),
                                    Ok((file, p8)) => match rd_u64(b, p8) {
                                        Err(x) => Err(x),
                                        Ok((line, p9)) => match rd_capped(b, p9, MAX_SMALL_LIST) {
                                            Err(x) => Err(x),
                                            Ok((nl, p10)) => match rd_strs(b, p10, nl as nat) {
                                                Err(x) => Err(x),
                                                Ok((licenses, p11)) => match rd_ids(b, p11) {
                                                    Err(x) => Err(x),
                                                    Ok((inputs, p12)) => match rd_ids(b, p12) {
                                                        Err(x) => Err(x),
                                                        Ok((propagated, p13)) => match rd_ids(b, p13) {
                                                            Err(x) => Err(x),
                                                            Ok((native, p14)) => Ok(
                                                                (
                                                                    PackageView {
                                                                        id,
                                                                        catalog,
                                                                        name,
                                                                        version,
                                                                        synopsis,
                                                                        description,
                                                                        homepage,
                                                                        licenses,
                                                                        file,
                                                                        line,
                                                                        inputs,
                                                                        propagated,
                                                                        native,
                                                                    },
                                                                    p14,
                                                                ),
                                                            ),
                                                        },
                                                    },
                                                },
                                            },
                                        },
                                    },
                                },
                            },
                        },
                    },
                },
            },
        },
    }
}

pub open spec fn rd_packages(b: Seq<u8>, at: int, k: nat) -> Result<(Seq<PackageView>, int), BlobError>
    decreases k,
{
    if k == 0 {
        Ok((Seq::empty(), at))
    } else {
        match rd_packages(b, at, (k - 1) as nat) {
            Err(x) => Err(x),
            Ok((v, p)) => match rd_package(b, p) {
                Err(x) => Err(x),
                Ok((q, e)) => Ok((v.push(q), e)),
            },
        }
    }
}

pub open spec fn rd_diag(b: Seq<u8>, at: int) -> Result<(DiagView, int), BlobError> {
    match rd_u32(b, at) {
        Err(x) => Err(x),
        Ok((package_id, p1)) => match rd_string(b, p1) {
            Err(x) => Err(x),
            Ok((kind, p2)) => match rd_string(b, p2) {
                Err(x) => Err(x),
                Ok((code, p3)) => match rd_string(b, p3) {
                    Err(x) => Err(x),
                    Ok((message, p4)) => Ok((DiagView { package_id, kind, code, message }, p4)),
                },
            },
        },
    }
}

pub open spec fn rd_diags(b: Seq<u8>, at: int, k: nat) -> Result<(Seq<DiagView>, int), BlobError>
    decreases k,
{
    if k == 0 {
        Ok((Seq::empty(), at))
    } else {
        match rd_diags(b, at, (k - 1) as nat) {
            Err(x) => Err(x),
            Ok((v, p)) => match rd_diag(b, p) {
                Err(x) => Err(x),
                Ok((d, e)) => Ok((v.push(d), e)),
            },
        }
    }
}

/// The parts a snapshot holds: packages, commit, generation time,
/// diagnostics and origin.
pub ghost struct SnapshotParts {
    pub packages: Seq<PackageView>,
    pub commit: Seq<char>,
    pub generated_ms: u64,
    pub diagnostics: Seq<DiagView>,
    pub origin: OriginView,
}

/// Read the origin that follows the generation time.
pub open spec fn rd_origin(b: Seq<u8>, at: int) -> Result<(OriginView, int), BlobError> {
    match rd_string(b, at) {
        Err(x) => Err(x),
        Ok((executable, p1)) => match rd_string(b, p1) {
            Err(x) => Err(x),
            Ok((system, p2)) => match rd_flag(b, p2, FieldKind::Boolean) {
                Err(x) => Err(x),
                Ok((verified, p3)) => match rd_flag(b, p3, FieldKind::Boolean) {
                    Err(x) => Err(x),
                    Ok((mutable_package_path, p4)) => match rd_capped(b, p4, MAX_SMALL_LIST) {
                        Err(x) => Err(x),
                        Ok((cc, p5)) => match rd_channels(b, p5, cc as nat) {
                            Err(x) => Err(x),
                            Ok((channels, p6)) => Ok(
                                (
                                    OriginView {
                                        executable,
                                        system,
                                        channels,
                                        verified,
                                        mutable_package_path,
                                    },
                                    p6,
                                ),
                            ),
                        },
                    },
                },
            },
        },
    }
}

/// Read a whole snapshot: magic, schema, a plausible package count, the
/// header texts, the origin, the packages and the diagnostics, with nothing
/// after them.
pub open spec fn rd_snapshot(b: Seq<u8>) -> Result<SnapshotParts, BlobError> {
    match rd_take(b, 0, 8) {
        Err(x) => Err(x),
        Ok(p0) => if b.subrange(0, 8) != magic() {
            Err(BlobError::Magic)
        } else {
            match rd_u32(b, p0) {
                Err(x) => Err(x),
                Ok((schema, p1)) => if schema != SCHEMA_VERSION {
                    Err(BlobError::Schema(schema, SCHEMA_VERSION))
                } else {
                    match rd_capped(b, p1, MAX_PACKAGES) {
                        Err(x) => Err(x),
                        Ok((count, p2)) => if count as int > b.len() / 40 {
                            Err(BlobError::Field(FieldKind::PackageCount))
                        } else {
                            match rd_string(b, p2) {
                                Err(x) => Err(x),
                                Ok((commit, p3)) => match rd_u64(b, p3) {
                                    Err(x) => Err(x),
                                    Ok((generated_ms, p4)) => match rd_origin(b, p4) {
                                        Err(x) => Err(x),
                                        Ok((origin, p5)) => match rd_packages(b, p5, count as nat) {
                                            Err(x) => Err(x),
                                            Ok((packages, p6)) => match rd_capped(b, p6, MAX_PACKAGES) {
                                                Err(x) => Err(x),
                                                Ok((nd, p7)) => match rd_diags(b, p7, nd as nat) {
                                                    Err(x) => Err(x),
                                                    Ok((diagnostics, p8)) => if p8 != b.len() {
                                                        Err(BlobError::Field(FieldKind::TrailingBytes))
                                                    } else {
                                                        Ok(
                                                            SnapshotParts {
                                                                packages,
                                                                commit,
                                                                generated_ms,
                                                                diagnostics,
                                                                origin,
                                                            },
                                                        )
                                                    },
                                                },
                                            },
                                        },
                                    },
                                },
                            }
                        },
                    }
                },
            }
        },
    }
}

/// What decoding gives: a read error, the index built from what was read,
/// or the reason it is not a valid index.
pub open spec fn decode_result(b: Seq<u8>, built_ms: u64) -> Result<IndexView, BlobError> {
    match rd_snapshot(b) {
        Err(x) => Err(x),
        Ok(s) => match from_parts_result(
            s.packages,
            s.commit,
            s.generated_ms,
            built_ms,
            s.diagnostics,
            s.origin,
        ) {
            Ok(v) => Ok(v),
            Err(e) => Err(BlobError::Invalid(e)),
        },
    }
}

pub open spec fn decoded_view(r: Result<Index, BlobError>) -> Result<IndexView, BlobError> {
    match r {
        Ok(index) => Ok(index@),
        Err(e) => Err(e),
    }
}

proof fn lemma_rd_strs_err(b: Seq<u8>, at: int, j: nat, k: nat)
    requires
        j <= k,
        rd_strs(b, at, j) is Err,
    ensures
        rd_strs(b, at, k) == rd_strs(b, at, j),
    decreases k - j,
{
    if j < k {
        lemma_rd_strs_err(b, at, j, (k - 1) as nat);
    }
}

proof fn lemma_rd_channels_err(b: Seq<u8>, at: int, j: nat, k: nat)
    requires
        j <= k,
        rd_channels(b, at, j) is Err,
    ensures
        rd_channels(b, at, k) == rd_channels(b, at, j),
    decreases k - j,
{
    if j < k {
        lemma_rd_channels_err(b, at, j, (k - 1) as nat);
    }
}

proof fn lemma_rd_packages_err(b: Seq<u8>, at: int, j: nat, k: nat)
    requires
        j <= k,
        rd_packages(b, at, j) is Err,
    ensures
        rd_packages(b, at, k) == rd_packages(b, at, j),
    decreases k - j,
{
    if j < k {
        lemma_rd_packages_err(b, at, j, (k - 1) as nat);
    }
}

proof fn lemma_rd_diags_err(b: Seq<u8>, at: int, j: nat, k: nat)
    requires
        j <= k,
        rd_diags(b, at, j) is Err,
    ensures
        rd_diags(b, at, k) == rd_diags(b, at, j),
    decreases k - j,
{
    if j < k {
        lemma_rd_diags_err(b, at, j, (k - 1) as nat);
    }
}

/// `String::from_utf8`: the text the bytes encode, when they are valid UTF-8.
#[verifier::external_body]
pub(crate) fn utf8_text(bytes: &[u8]) -> (r: Option<String>)
    ensures
        match r {
            Some(s) => valid_utf8(bytes@) && s@ == decode_utf8(bytes@),
            None => !valid_utf8(bytes@),
        },
{
    String::from_utf8(bytes.to_vec()).ok()
}

struct Reader<'a> {
    buf: &'a [u8],
    at: usize,
}

impl<'a> Reader<'a> {
    fn take(&mut self, n: usize) -> (r: Result<&'a [u8], BlobError>)
        requires
            old(self).at <= old(self).buf@.len(),
        ensures
            final(self).buf@ == old(self).buf@,
            final(self).at <= final(self).buf@.len(),
            match r {
                Ok(s) => rd_take(old(self).buf@, old(self).at as int, n as int) == Ok::<int, BlobError>(
                    final(self).at as int,
                ) && s@ == old(self).buf@.subrange(old(self).at as int, final(self).at as int),
                Err(e) => rd_take(old(self).buf@, old(self).at as int, n as int) == Err::<int, BlobError>(e),
            },
    {
        if n > self.buf.len() - self.at {
            return Err(BlobError::Truncated { at: self.at, need: n });
        }
        let end = self.at + n;
        let s = vstd::slice::slice_subrange(self.buf, self.at, end);
        self.at = end;
        Ok(s)
    }

    fn u32(&mut self) -> (r: Result<u32, BlobError>)
        requires
            old(self).at <= old(self).buf@.len(),
        ensures
            final(self).buf@ == old(self).buf@,
            final(self).at <= final(self).buf@.len(),
            match r {
                Ok(v) => rd_u32(old(self).buf@, old(self).at as int) == Ok::<(u32, int), BlobError>(
                    (v, final(self).at as int),
                ),
                Err(e) => rd_u32(old(self).buf@, old(self).at as int) == Err::<(u32, int), BlobError>(e),
            },
    {
        let b = match self.take(4) {
            Ok(b) => b,
            Err(e) => {
                return Err(e);
            },
        };
        Ok(u32_from_le_bytes(b))
    }

    fn u64(&mut self) -> (r: Result<u64, BlobError>)
        requires
            old(self).at <= old(self).buf@.len(),
        ensures
            final(self).buf@ == old(self).buf@,
            final(self).at <= final(self).buf@.len(),
            match r {
                Ok(v) => rd_u64(old(self).buf@, old(self).at as int) == Ok::<(u64, int), BlobError>(
                    (v, final(self).at as int),
                ),
                Err(e) => rd_u64(old(self).buf@, old(self).at as int) == Err::<(u64, int), BlobError>(e),
            },
    {
        let b = match self.take(8) {
            Ok(b) => b,
            Err(e) => {
                return Err(e);
            },
        };
        Ok(u64_from_le_bytes(b))
    }

    /// A count that is about to drive an allocation: bound it first.
    fn capped_u32(&mut self, max: u32) -> (r: Result<u32, BlobError>)
        requires
            old(self).at <= old(self).buf@.len(),
        ensures
            final(self).buf@ == old(self).buf@,
            final(self).at <= final(self).buf@.len(),
            match r {
                Ok(v) => rd_capped(old(self).buf@, old(self).at as int, max) == Ok::<(u32, int), BlobError>(
                    (v, final(self).at as int),
                ),
                Err(e) => rd_capped(old(self).buf@, old(self).at as int, max) == Err::<(u32, int), BlobError>(e),
            },
    {
        let v = match self.u32() {
            Ok(v) => v,
            Err(e) => {
                return Err(e);
            },
        };
        if v > max {
            return Err(BlobError::Truncated { at: self.at, need: v as usize });
        }
        Ok(v)
    }

    fn flag(&mut self, what: FieldKind) -> (r: Result<bool, BlobError>)
        requires
            old(self).at <= old(self).buf@.len(),
        ensures
            final(self).buf@ == old(self).buf@,
            final(self).at <= final(self).buf@.len(),
            match r {
                Ok(v) => rd_flag(old(self).buf@, old(self).at as int, what) == Ok::<(bool, int), BlobError>(
                    (v, final(self).at as int),
                ),
                Err(e) => rd_flag(old(self).buf@, old(self).at as int, what) == Err::<(bool, int), BlobError>(e),
            },
    {
        let b = match self.take(1) {
            Ok(b) => b,
            Err(e) => {
                return Err(e);
            },
        };
        if b[0] == 0 {
            Ok(false)
        } else if b[0] == 1 {
            Ok(true)
        } else {
            Err(BlobError::Field(what))
        }
    }

    fn boolean(&mut self) -> (r: Result<bool, BlobError>)
        requires
            old(self).at <= old(self).buf@.len(),
        ensures
            final(self).buf@ == old(self).buf@,
            final(self).at <= final(self).buf@.len(),
            match r {
                Ok(v) => rd_flag(old(self).buf@, old(self).at as int, FieldKind::Boolean) == Ok::<(bool, int), BlobError>(
                    (v, final(self).at as int),
                ),
                Err(e) => rd_flag(old(self).buf@, old(self).at as int, FieldKind::Boolean) == Err::<(bool, int), BlobError>(e),
            },
    {
        self.flag(FieldKind::Boolean)
    }

    fn string(&mut self) -> (r: Result<String, BlobError>)
        requires
            old(self).at <= old(self).buf@.len(),
        ensures
            final(self).buf@ == old(self).buf@,
            final(self).at <= final(self).buf@.len(),
            match r {
                Ok(s) => rd_string(old(self).buf@, old(self).at as int) == Ok::<(Seq<char>, int), BlobError>(
                    (s@, final(self).at as int),
                ),
                Err(e) => rd_string(old(self).buf@, old(self).at as int) == Err::<(Seq<char>, int), BlobError>(e),
            },
    {
        let len = match self.capped_u32(MAX_STRING) {
            Ok(v) => v,
            Err(e) => {
                return Err(e);
            },
        };
        let bytes = match self.take(len as usize) {
            Ok(b) => b,
            Err(e) => {
                return Err(e);
            },
        };
        match utf8_text(bytes) {
            Some(s) => Ok(s),
            None => Err(BlobError::Truncated { at: self.at, need: len as usize }),
        }
    }

    fn ids(&mut self) -> (r: Result<Vec<u32>, BlobError>)
        requires
            old(self).at <= old(self).buf@.len(),
        ensures
            final(self).buf@ == old(self).buf@,
            final(self).at <= final(self).buf@.len(),
            match r {
                Ok(v) => rd_ids(old(self).buf@, old(self).at as int) == Ok::<(Seq<u32>, int), BlobError>(
                    (v@, final(self).at as int),
                ),
                Err(e) => rd_ids(old(self).buf@, old(self).at as int) == Err::<(Seq<u32>, int), BlobError>(e),
            },
    {
        let n = match self.capped_u32(MAX_DEPS) {
            Ok(v) => v,
            Err(e) => {
                return Err(e);
            },
        };
        if n as usize > (self.buf.len() - self.at) / 4 {
            return Err(BlobError::Field(FieldKind::DependencyCount));
        }
        let ghost b = self.buf@;
        let ghost p = self.at as int;
        let mut out: Vec<u32> = Vec::new();
        let mut i: u32 = 0;
        while i < n
            invariant
                self.buf@ == b,
                p + 4 * n <= b.len(),
                i <= n,
                self.at == p + 4 * i,
                out@ == ids_at(b, p, i as nat),
            decreases n - i,
        {
            let v = match self.u32() {
                Ok(v) => v,
                Err(e) => {
                    return Err(e);
                },
            };
            out.push(v);
            assert(out@ =~= ids_at(b, p, (i + 1) as nat));
            i += 1;
        }
        Ok(out)
    }
}

impl<'a> Reader<'a> {
    fn strings(&mut self, k: u32) -> (r: Result<Vec<String>, BlobError>)
        requires
            old(self).at <= old(self).buf@.len(),
        ensures
            final(self).buf@ == old(self).buf@,
            final(self).at <= final(self).buf@.len(),
            match r {
                Ok(v) => rd_strs(old(self).buf@, old(self).at as int, k as nat) == Ok::<(Seq<Seq<char>>, int), BlobError>(
                    (strings_view(v@), final(self).at as int),
                ),
                Err(e) => rd_strs(old(self).buf@, old(self).at as int, k as nat) == Err::<(Seq<Seq<char>>, int), BlobError>(e),
            },
    {
        let ghost b = self.buf@;
        let ghost p0 = self.at as int;
        let mut out: Vec<String> = Vec::new();
        let mut i: u32 = 0;
        assert(strings_view(out@) =~= Seq::<Seq<char>>::empty());
        while i < k
            invariant
                self.buf@ == b,
                b == old(self).buf@,
                p0 == old(self).at as int,
                self.at <= b.len(),
                i <= k,
                rd_strs(b, p0, i as nat) == Ok::<(Seq<Seq<char>>, int), BlobError>((strings_view(out@), self.at as int)),
            decreases k - i,
        {
            let s = match self.string() {
                Ok(s) => s,
                Err(e) => {
                    proof {
                        lemma_rd_strs_err(b, p0, (i + 1) as nat, k as nat);
                    }
                    return Err(e);
                },
            };
            let ghost before = out@;
            out.push(s);
            assert(strings_view(out@) =~= strings_view(before).push(s@));
            i += 1;
        }
        Ok(out)
    }

    fn channels(&mut self, k: u32) -> (r: Result<Vec<ChannelPin>, BlobError>)
        requires
            old(self).at <= old(self).buf@.len(),
        ensures
            final(self).buf@ == old(self).buf@,
            final(self).at <= final(self).buf@.len(),
            match r {
                Ok(v) => rd_channels(old(self).buf@, old(self).at as int, k as nat) == Ok::<(Seq<ChannelView>, int), BlobError>(
                    (pins_view(v@), final(self).at as int),
                ),
                Err(e) => rd_channels(old(self).buf@, old(self).at as int, k as nat) == Err::<(Seq<ChannelView>, int), BlobError>(e),
            },
    {
        let ghost b = self.buf@;
        let ghost p0 = self.at as int;
        let mut out: Vec<ChannelPin> = Vec::new();
        let mut i: u32 = 0;
        assert(pins_view(out@) =~= Seq::<ChannelView>::empty());
        while i < k
            invariant
                self.buf@ == b,
                b == old(self).buf@,
                p0 == old(self).at as int,
                self.at <= b.len(),
                i <= k,
                rd_channels(b, p0, i as nat) == Ok::<(Seq<ChannelView>, int), BlobError>((pins_view(out@), self.at as int)),
            decreases k - i,
        {
            let name = match self.string() {
                Ok(s) => s,
                Err(e) => {
                    proof {
                        lemma_rd_channels_err(b, p0, (i + 1) as nat, k as nat);
                    }
                    return Err(e);
                },
            };
            let commit = match self.string() {
                Ok(s) => s,
                Err(e) => {
                    proof {
                        lemma_rd_channels_err(b, p0, (i + 1) as nat, k as nat);
                    }
                    return Err(e);
                },
            };
            let c = ChannelPin { name, commit };
            let ghost before = out@;
            out.push(c);
            assert(pins_view(out@) =~= pins_view(before).push(c@));
            i += 1;
        }
        Ok(out)
    }

    fn package(&mut self) -> (r: Result<Package, BlobError>)
        requires
            old(self).at <= old(self).buf@.len(),
        ensures
            final(self).buf@ == old(self).buf@,
            final(self).at <= final(self).buf@.len(),
            match r {
                Ok(p) => rd_package(old(self).buf@, old(self).at as int) == Ok::<(PackageView, int), BlobError>(
                    (p@, final(self).at as int),
                ),
                Err(e) => rd_package(old(self).buf@, old(self).at as int) == Err::<(PackageView, int), BlobError>(e),
            },
    {
        let id = match self.u32() { Ok(v) => v, Err(e) => { return Err(e); } };
        let catalog = match self.flag(FieldKind::Catalog) { Ok(v) => v, Err(e) => { return Err(e); } };
        let name = match self.string() { Ok(v) => v, Err(e) => { return Err(e); } };
        let version = match self.string() { Ok(v) => v, Err(e) => { return Err(e); } };
        let synopsis = match self.string() { Ok(v) => v, Err(e) => { return Err(e); } };
        let description = match self.string() { Ok(v) => v, Err(e) => { return Err(e); } };
        let homepage = match self.string() { Ok(v) => v, Err(e) => { return Err(e); } };
        let file = match self.string() { Ok(v) => v, Err(e) => { return Err(e); } };
        let line = match self.u64() { Ok(v) => v, Err(e) => { return Err(e); } };
        let n_lic = match self.capped_u32(MAX_SMALL_LIST) { Ok(v) => v, Err(e) => { return Err(e); } };
        let licenses = match self.strings(n_lic) { Ok(v) => v, Err(e) => { return Err(e); } };
        let inputs = match self.ids() { Ok(v) => v, Err(e) => { return Err(e); } };
        let propagated = match self.ids() { Ok(v) => v, Err(e) => { return Err(e); } };
        let native = match self.ids() { Ok(v) => v, Err(e) => { return Err(e); } };
        Ok(
            Package {
                id,
                catalog,
                name,
                version,
                synopsis,
                description,
                homepage,
                licenses,
                file,
                line,
                inputs,
                propagated,
                native,
            },
        )
    }

    fn packages(&mut self, k: u32) -> (r: Result<Vec<Package>, BlobError>)
        requires
            old(self).at <= old(self).buf@.len(),
        ensures
            final(self).buf@ == old(self).buf@,
            final(self).at <= final(self).buf@.len(),
            match r {
                Ok(v) => rd_packages(old(self).buf@, old(self).at as int, k as nat) == Ok::<(Seq<PackageView>, int), BlobError>(
                    (packages_view(v@), final(self).at as int),
                ),
                Err(e) => rd_packages(old(self).buf@, old(self).at as int, k as nat) == Err::<(Seq<PackageView>, int), BlobError>(e),
            },
    {
        let ghost b = self.buf@;
        let ghost p0 = self.at as int;
        let mut out: Vec<Package> = Vec::new();
        let mut i: u32 = 0;
        assert(packages_view(out@) =~= Seq::<PackageView>::empty());
        while i < k
            invariant
                self.buf@ == b,
                b == old(self).buf@,
                p0 == old(self).at as int,
                self.at <= b.len(),
                i <= k,
                rd_packages(b, p0, i as nat) == Ok::<(Seq<PackageView>, int), BlobError>((packages_view(out@), self.at as int)),
            decreases k - i,
        {
            let p = match self.package() {
                Ok(p) => p,
                Err(e) => {
                    proof {
                        lemma_rd_packages_err(b, p0, (i + 1) as nat, k as nat);
                    }
                    return Err(e);
                },
            };
            let ghost before = out@;
            let ghost pv = p@;
            out.push(p);
            assert(packages_view(out@) =~= packages_view(before).push(pv));
            i += 1;
        }
        Ok(out)
    }

    fn diags(&mut self, k: u32) -> (r: Result<Vec<IndexDiagnostic>, BlobError>)
        requires
            old(self).at <= old(self).buf@.len(),
        ensures
            final(self).buf@ == old(self).buf@,
            final(self).at <= final(self).buf@.len(),
            match r {
                Ok(v) => rd_diags(old(self).buf@, old(self).at as int, k as nat) == Ok::<(Seq<DiagView>, int), BlobError>(
                    (diags_view(v@), final(self).at as int),
                ),
                Err(e) => rd_diags(old(self).buf@, old(self).at as int, k as nat) == Err::<(Seq<DiagView>, int), BlobError>(e),
            },
    {
        let ghost b = self.buf@;
        let ghost p0 = self.at as int;
        let mut out: Vec<IndexDiagnostic> = Vec::new();
        let mut i: u32 = 0;
        assert(diags_view(out@) =~= Seq::<DiagView>::empty());
        while i < k
            invariant
                self.buf@ == b,
                b == old(self).buf@,
                p0 == old(self).at as int,
                self.at <= b.len(),
                i <= k,
                rd_diags(b, p0, i as nat) == Ok::<(Seq<DiagView>, int), BlobError>((diags_view(out@), self.at as int)),
            decreases k - i,
        {
            let package_id = match self.u32() { Ok(v) => v, Err(e) => { proof { lemma_rd_diags_err(b, p0, (i + 1) as nat, k as nat); } return Err(e); } };
            let kind = match self.string() { Ok(v) => v, Err(e) => { proof { lemma_rd_diags_err(b, p0, (i + 1) as nat, k as nat); } return Err(e); } };
            let code = match self.string() { Ok(v) => v, Err(e) => { proof { lemma_rd_diags_err(b, p0, (i + 1) as nat, k as nat); } return Err(e); } };
            let message = match self.string() { Ok(v) => v, Err(e) => { proof { lemma_rd_diags_err(b, p0, (i + 1) as nat, k as nat); } return Err(e); } };
            let d = IndexDiagnostic { package_id, kind, code, message };
            let ghost before = out@;
            out.push(d);
            assert(diags_view(out@) =~= diags_view(before).push(d@));
            i += 1;
        }
        Ok(out)
    }

    fn origin(&mut self) -> (r: Result<GuixOrigin, BlobError>)
        requires
            old(self).at <= old(self).buf@.len(),
        ensures
            final(self).buf@ == old(self).buf@,
            final(self).at <= final(self).buf@.len(),
            match r {
                Ok(o) => rd_origin(old(self).buf@, old(self).at as int) == Ok::<(OriginView, int), BlobError>(
                    (o@, final(self).at as int),
                ),
                Err(e) => rd_origin(old(self).buf@, old(self).at as int) == Err::<(OriginView, int), BlobError>(e),
            },
    {
        let executable = match self.string() { Ok(v) => v, Err(e) => { return Err(e); } };
        let system = match self.string() { Ok(v) => v, Err(e) => { return Err(e); } };
        let verified = match self.boolean() { Ok(v) => v, Err(e) => { return Err(e); } };
        let mutable_package_path = match self.boolean() { Ok(v) => v, Err(e) => { return Err(e); } };
        let channel_count = match self.capped_u32(MAX_SMALL_LIST) { Ok(v) => v, Err(e) => { return Err(e); } };
        let channels = match self.channels(channel_count) { Ok(v) => v, Err(e) => { return Err(e); } };
        let o = GuixOrigin { executable, system, channels, verified, mutable_package_path };
        assert(o@.channels == pins_view(o.channels@));
        Ok(o)
    }
}

/// Decode a snapshot written by `encode`.
#[verifier::spinoff_prover]
#[verifier::rlimit(100)]
pub fn decode(bytes: &[u8], built_ms: u64) -> (r: Result<Index, BlobError>)
    ensures
        decoded_view(r) == decode_result(bytes@, built_ms),
        r matches Ok(ix) ==> is_token(ix@.snapshot),
{
    let mut r = Reader { buf: bytes, at: 0 };
    let m = match r.take(8) { Ok(v) => v, Err(e) => { return Err(e); } };
    let mut same = true;
    let mut i: usize = 0;
    assert(MAGIC@ =~= magic());
    while i < 8
        invariant
            m@.len() == 8,
            MAGIC@ == magic(),
            i <= 8,
            same == (forall|q: int| 0 <= q < i ==> m@[q] == magic()[q]),
        decreases 8 - i,
    {
        if m[i] != MAGIC[i] {
            same = false;
        }
        i += 1;
    }
    if !same {
        proof {
            let q = choose|q: int| 0 <= q < 8 && m@[q] != magic()[q];
            assert(m@[q] != magic()[q]);
        }
        return Err(BlobError::Magic);
    }
    assert(m@ =~= magic());
    let schema = match r.u32() { Ok(v) => v, Err(e) => { return Err(e); } };
    if schema != SCHEMA_VERSION {
        return Err(BlobError::Schema(schema, SCHEMA_VERSION));
    }
    let count = match r.capped_u32(MAX_PACKAGES) { Ok(v) => v, Err(e) => { return Err(e); } };
    if count as usize > bytes.len() / 40 {
        return Err(BlobError::Field(FieldKind::PackageCount));
    }
    let guix_commit = match r.string() { Ok(v) => v, Err(e) => { return Err(e); } };
    let generated_ms = match r.u64() { Ok(v) => v, Err(e) => { return Err(e); } };
    let origin = match r.origin() { Ok(v) => v, Err(e) => { return Err(e); } };
    let packages = match r.packages(count) { Ok(v) => v, Err(e) => { return Err(e); } };
    let n = match r.capped_u32(MAX_PACKAGES) { Ok(v) => v, Err(e) => { return Err(e); } };
    let diagnostics = match r.diags(n) { Ok(v) => v, Err(e) => { return Err(e); } };
    if r.at != bytes.len() {
        return Err(BlobError::Field(FieldKind::TrailingBytes));
    }
    match Index::from_parts(packages, guix_commit, generated_ms, built_ms, diagnostics, origin) {
        Ok(index) => Ok(index),
        Err(e) => Err(BlobError::Invalid(e)),
    }
}

} // verus!
