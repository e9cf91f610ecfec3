//! What a snapshot gives back: reading the bytes `encode` writes yields the
//! parts that were written, and building an index from the parts of a built
//! index gives that index again.

use vstd::prelude::*;
use vstd::bytes::{
    lemma_auto_spec_u32_to_from_le_bytes, lemma_auto_spec_u64_to_from_le_bytes, spec_u32_from_le_bytes,
    spec_u64_from_le_bytes,
};
use vstd::utf8::{decode_utf8, encode_utf8, encode_utf8_decode_utf8, encode_utf8_valid_utf8, valid_utf8};

use crate::blob::{
    enc_channel, enc_channels, enc_diag, enc_diags, enc_head, enc_ids, enc_origin, enc_package,
    enc_packages, enc_str, enc_strs, flag, ids_at, ids_bytes, le32, le64, magic, payload, rd_capped,
    rd_channel, rd_channels, rd_diag, rd_diags, rd_flag, rd_ids, rd_origin, rd_package, rd_packages,
    rd_snapshot, rd_string, rd_strs, rd_take, rd_u32, rd_u64, decode_result, BlobError, FieldKind, SnapshotParts,
    MAX_DEPS, MAX_PACKAGES, MAX_SMALL_LIST, MAX_STRING,
};
use crate::construct::{
    built_packages, canon_origin, channel_order, clean_channel, clean_diag, diag_error,
    first_out_of_range, from_parts_result, group, group_err, group_upto, groups_err,
    lemma_built_packages, lemma_channel_order, lemma_groups_err_none, lemma_groups_full,
    lemma_tail_min_none, origin_texts_clean, packages_error, pkg_err, tail_min,
};
use crate::index::{
    clean_pkg, dedup, lemma_dedup, lemma_dedup_unique, typed_seq, IndexError, IndexView, PackageView,
    MAX_CHANNELS,
};
use crate::order::{lemma_sorted_list_exists, lemma_sorted_list_of, sorted_list, strict_total, strictly_sorted};
use crate::text::{clean, is_clean, lemma_clean_idempotent};
use crate::model::{ChannelView, DiagView, OriginView, SCHEMA_VERSION};

verus! {

/// `e` stands in `b` from position `at` on.
pub open spec fn holds_at(b: Seq<u8>, at: int, e: Seq<u8>) -> bool {
    0 <= at && at + e.len() <= b.len() && b.subrange(at, at + e.len()) == e
}

proof fn lemma_holds_split(b: Seq<u8>, at: int, e1: Seq<u8>, e2: Seq<u8>)
    requires
        holds_at(b, at, e1 + e2),
    ensures
        holds_at(b, at, e1),
        holds_at(b, at + e1.len(), e2),
{
    let l = (e1 + e2).len();
    assert forall|i: int| 0 <= i < e1.len() implies b.subrange(at, at + e1.len())[i] == e1[i] by {
        assert(b.subrange(at, at + l)[i] == (e1 + e2)[i]);
    }
    assert(b.subrange(at, at + e1.len()) =~= e1);
    assert forall|i: int| 0 <= i < e2.len() implies b.subrange(at + e1.len(), at + e1.len() + e2.len())[i]
        == e2[i] by {
        assert(b.subrange(at, at + l)[e1.len() + i] == (e1 + e2)[e1.len() + i]);
    }
    assert(b.subrange(at + e1.len(), at + e1.len() + e2.len()) =~= e2);
}

/// A text whose UTF-8 form fits the snapshot's bound on one text.
pub open spec fn text_fits(s: Seq<char>) -> bool {
    encode_utf8(s).len() <= MAX_STRING
}

pub open spec fn package_fits(p: PackageView) -> bool {
    &&& text_fits(p.name)
    &&& text_fits(p.version)
    &&& text_fits(p.synopsis)
    &&& text_fits(p.description)
    &&& text_fits(p.homepage)
    &&& text_fits(p.file)
    &&& p.licenses.len() <= MAX_SMALL_LIST
    &&& forall|i: int| 0 <= i < p.licenses.len() ==> text_fits(#[trigger] p.licenses[i])
    &&& p.inputs.len() <= MAX_DEPS
    &&& p.propagated.len() <= MAX_DEPS
    &&& p.native.len() <= MAX_DEPS
}

pub open spec fn diag_fits(d: DiagView) -> bool {
    text_fits(d.kind) && text_fits(d.code) && text_fits(d.message)
}

pub open spec fn origin_fits(o: OriginView) -> bool {
    &&& text_fits(o.executable)
    &&& text_fits(o.system)
    &&& o.channels.len() <= MAX_SMALL_LIST
    &&& forall|i: int|
        0 <= i < o.channels.len() ==> text_fits((#[trigger] o.channels[i]).0) && text_fits(
            o.channels[i].1,
        )
}

/// Every count, length and text of the parts stays within the bounds the
/// reader enforces.
pub open spec fn snapshot_fits(
    pk: Seq<PackageView>,
    commit: Seq<char>,
    o: OriginView,
    ds: Seq<DiagView>,
) -> bool {
    &&& pk.len() <= MAX_PACKAGES
    &&& ds.len() <= MAX_PACKAGES
    &&& text_fits(commit)
    &&& origin_fits(o)
    &&& forall|i: int| 0 <= i < pk.len() ==> package_fits(#[trigger] pk[i])
    &&& forall|i: int| 0 <= i < ds.len() ==> diag_fits(#[trigger] ds[i])
}

proof fn lemma_rd_u32(b: Seq<u8>, at: int, x: u32)
    requires
        holds_at(b, at, le32(x)),
    ensures
        rd_u32(b, at) == Ok::<(u32, int), BlobError>((x, at + 4)),
{
    lemma_auto_spec_u32_to_from_le_bytes();
}

proof fn lemma_rd_u64(b: Seq<u8>, at: int, x: u64)
    requires
        holds_at(b, at, le64(x)),
    ensures
        rd_u64(b, at) == Ok::<(u64, int), BlobError>((x, at + 8)),
{
    lemma_auto_spec_u64_to_from_le_bytes();
}

proof fn lemma_rd_capped(b: Seq<u8>, at: int, n: nat, max: u32)
    requires
        n <= max,
        holds_at(b, at, le32(n as u32)),
    ensures
        rd_capped(b, at, max) == Ok::<(u32, int), BlobError>((n as u32, at + 4)),
{
    lemma_rd_u32(b, at, n as u32);
}

proof fn lemma_rd_flag(b: Seq<u8>, at: int, f: bool, what: FieldKind)
    requires
        holds_at(b, at, flag(f)),
    ensures
        rd_flag(b, at, what) == Ok::<(bool, int), BlobError>((f, at + 1)),
{
    assert(b[at] == b.subrange(at, at + 1)[0]);
}

proof fn lemma_rd_string(b: Seq<u8>, at: int, s: Seq<char>)
    requires
        holds_at(b, at, enc_str(s)),
        text_fits(s),
    ensures
        rd_string(b, at) == Ok::<(Seq<char>, int), BlobError>((s, at + enc_str(s).len())),
{
    let u = encode_utf8(s);
    lemma_auto_spec_u32_to_from_le_bytes();
    lemma_holds_split(b, at, le32(u.len() as u32), u);
    lemma_rd_capped(b, at, u.len(), MAX_STRING);
    encode_utf8_valid_utf8(s);
    encode_utf8_decode_utf8(s);
}

proof fn lemma_rd_strs(b: Seq<u8>, at: int, v: Seq<Seq<char>>)
    requires
        holds_at(b, at, enc_strs(v)),
        forall|i: int| 0 <= i < v.len() ==> text_fits(#[trigger] v[i]),
    ensures
        rd_strs(b, at, v.len()) == Ok::<(Seq<Seq<char>>, int), BlobError>((v, at + enc_strs(v).len())),
    decreases v.len(),
{
    if v.len() > 0 {
        let d = v.drop_last();
        lemma_holds_split(b, at, enc_strs(d), enc_str(v.last()));
        assert forall|i: int| 0 <= i < d.len() implies text_fits(#[trigger] d[i]) by {
            assert(d[i] == v[i]);
        }
        lemma_rd_strs(b, at, d);
        assert(text_fits(v[v.len() - 1]));
        lemma_rd_string(b, at + enc_strs(d).len(), v.last());
        assert(d.push(v.last()) =~= v);
    } else {
        assert(v =~= Seq::<Seq<char>>::empty());
    }
}

proof fn lemma_ids_bytes(v: Seq<u32>)
    ensures
        ids_bytes(v).len() == 4 * v.len(),
        forall|i: int|
            0 <= i < v.len() ==> #[trigger] ids_bytes(v).subrange(4 * i, 4 * i + 4) == le32(v[i]),
    decreases v.len(),
{
    lemma_auto_spec_u32_to_from_le_bytes();
    if v.len() > 0 {
        let d = v.drop_last();
        lemma_ids_bytes(d);
        let all = ids_bytes(v);
        assert(all == ids_bytes(d) + le32(v.last()));
        assert forall|i: int| 0 <= i < v.len() implies #[trigger] ids_bytes(v).subrange(4 * i, 4 * i + 4)
            == le32(v[i]) by {
            if i < d.len() {
                assert(ids_bytes(d).subrange(4 * i, 4 * i + 4) == le32(d[i]));
                assert(all.subrange(4 * i, 4 * i + 4) =~= ids_bytes(d).subrange(4 * i, 4 * i + 4));
            } else {
                assert(all.subrange(4 * i, 4 * i + 4) =~= le32(v.last()));
            }
        }
    }
}

proof fn lemma_rd_ids(b: Seq<u8>, at: int, v: Seq<u32>)
    requires
        holds_at(b, at, enc_ids(v)),
        v.len() <= MAX_DEPS,
    ensures
        rd_ids(b, at) == Ok::<(Seq<u32>, int), BlobError>((v, at + enc_ids(v).len())),
{
    lemma_auto_spec_u32_to_from_le_bytes();
    lemma_ids_bytes(v);
    lemma_holds_split(b, at, le32(v.len() as u32), ids_bytes(v));
    lemma_rd_capped(b, at, v.len(), MAX_DEPS);
    let p = at + 4;
    let n = v.len();
    assert(n <= (b.len() - p) / 4);
    assert forall|i: int| 0 <= i < n implies #[trigger] ids_at(b, p, n)[i] == v[i] by {
        assert(b.subrange(p, p + 4 * n) == ids_bytes(v));
        assert(b.subrange(p + 4 * i, p + 4 * i + 4) =~= ids_bytes(v).subrange(4 * i, 4 * i + 4));
    }
    assert(ids_at(b, p, n) =~= v);
}

proof fn lemma_rd_channel(b: Seq<u8>, at: int, c: ChannelView)
    requires
        holds_at(b, at, enc_channel(c)),
        text_fits(c.0),
        text_fits(c.1),
    ensures
        rd_channel(b, at) == Ok::<(ChannelView, int), BlobError>((c, at + enc_channel(c).len())),
{
    lemma_holds_split(b, at, enc_str(c.0), enc_str(c.1));
    lemma_rd_string(b, at, c.0);
    lemma_rd_string(b, at + enc_str(c.0).len(), c.1);
}

proof fn lemma_rd_channels(b: Seq<u8>, at: int, v: Seq<ChannelView>)
    requires
        holds_at(b, at, enc_channels(v)),
        forall|i: int| 0 <= i < v.len() ==> text_fits((#[trigger] v[i]).0) && text_fits(v[i].1),
    ensures
        rd_channels(b, at, v.len()) == Ok::<(Seq<ChannelView>, int), BlobError>((v, at + enc_channels(v).len())),
    decreases v.len(),
{
    if v.len() > 0 {
        let d = v.drop_last();
        lemma_holds_split(b, at, enc_channels(d), enc_channel(v.last()));
        assert forall|i: int| 0 <= i < d.len() implies text_fits((#[trigger] d[i]).0) && text_fits(d[i].1) by {
            assert(d[i] == v[i]);
        }
        lemma_rd_channels(b, at, d);
        assert(text_fits(v[v.len() - 1].0));
        lemma_rd_channel(b, at + enc_channels(d).len(), v.last());
        assert(d.push(v.last()) =~= v);
    } else {
        assert(v =~= Seq::<ChannelView>::empty());
    }
}

#[verifier::rlimit(40)]
proof fn lemma_rd_package(b: Seq<u8>, at: int, p: PackageView)
    requires
        holds_at(b, at, enc_package(p)),
        package_fits(p),
    ensures
        rd_package(b, at) == Ok::<(PackageView, int), BlobError>((p, at + enc_package(p).len())),
{
    lemma_auto_spec_u32_to_from_le_bytes();
    lemma_auto_spec_u64_to_from_le_bytes();
    let e1 = le32(p.id);
    let e2 = flag(p.catalog);
    let e3 = enc_str(p.name);
    let e4 = enc_str(p.version);
    let e5 = enc_str(p.synopsis);
    let e6 = enc_str(p.description);
    let e7 = enc_str(p.homepage);
    let e8 = enc_str(p.file);
    let e9 = le64(p.line);
    let e10 = le32(p.licenses.len() as u32);
    let e11 = enc_strs(p.licenses);
    let e12 = enc_ids(p.inputs);
    let e13 = enc_ids(p.propagated);
    let e14 = enc_ids(p.native);
    let a1 = at;
    lemma_holds_split(b, a1, e1 + e2 + e3 + e4 + e5 + e6 + e7 + e8 + e9 + e10 + e11 + e12 + e13, e14);
    lemma_holds_split(b, a1, e1 + e2 + e3 + e4 + e5 + e6 + e7 + e8 + e9 + e10 + e11 + e12, e13);
    lemma_holds_split(b, a1, e1 + e2 + e3 + e4 + e5 + e6 + e7 + e8 + e9 + e10 + e11, e12);
    lemma_holds_split(b, a1, e1 + e2 + e3 + e4 + e5 + e6 + e7 + e8 + e9 + e10, e11);
    lemma_holds_split(b, a1, e1 + e2 + e3 + e4 + e5 + e6 + e7 + e8 + e9, e10);
    lemma_holds_split(b, a1, e1 + e2 + e3 + e4 + e5 + e6 + e7 + e8, e9);
    lemma_holds_split(b, a1, e1 + e2 + e3 + e4 + e5 + e6 + e7, e8);
    lemma_holds_split(b, a1, e1 + e2 + e3 + e4 + e5 + e6, e7);
    lemma_holds_split(b, a1, e1 + e2 + e3 + e4 + e5, e6);
    lemma_holds_split(b, a1, e1 + e2 + e3 + e4, e5);
    lemma_holds_split(b, a1, e1 + e2 + e3, e4);
    lemma_holds_split(b, a1, e1 + e2, e3);
    lemma_holds_split(b, a1, e1, e2);
    let p2 = a1 + e1.len();
    let p3 = p2 + e2.len();
    let p4 = p3 + e3.len();
    let p5 = p4 + e4.len();
    let p6 = p5 + e5.len();
    let p7 = p6 + e6.len();
    let p8 = p7 + e7.len();
    let p9 = p8 + e8.len();
    let p10 = p9 + e9.len();
    let p11 = p10 + e10.len();
    let p12 = p11 + e11.len();
    let p13 = p12 + e12.len();
    let p14 = p13 + e13.len();
    lemma_rd_u32(b, a1, p.id);
    lemma_rd_flag(b, p2, p.catalog, FieldKind::Catalog);
    lemma_rd_string(b, p3, p.name);
    lemma_rd_string(b, p4, p.version);
    lemma_rd_string(b, p5, p.synopsis);
    lemma_rd_string(b, p6, p.description);
    lemma_rd_string(b, p7, p.homepage);
    lemma_rd_string(b, p8, p.file);
    lemma_rd_u64(b, p9, p.line);
    lemma_rd_capped(b, p10, p.licenses.len(), MAX_SMALL_LIST);
    lemma_rd_strs(b, p11, p.licenses);
    lemma_rd_ids(b, p12, p.inputs);
    lemma_rd_ids(b, p13, p.propagated);
    lemma_rd_ids(b, p14, p.native);
    assert(e1 + e2 + e3 + e4 + e5 + e6 + e7 + e8 + e9 + e10 + e11 + e12 + e13 + e14 == enc_package(p));
}

#[verifier::rlimit(40)]
proof fn lemma_rd_packages(b: Seq<u8>, at: int, v: Seq<PackageView>)
    requires
        holds_at(b, at, enc_packages(v)),
        forall|i: int| 0 <= i < v.len() ==> package_fits(#[trigger] v[i]),
    ensures
        rd_packages(b, at, v.len()) == Ok::<(Seq<PackageView>, int), BlobError>((v, at + enc_packages(v).len())),
    decreases v.len(),
{
    if v.len() > 0 {
        let d = v.drop_last();
        lemma_holds_split(b, at, enc_packages(d), enc_package(v.last()));
        assert forall|i: int| 0 <= i < d.len() implies package_fits(#[trigger] d[i]) by {
            assert(d[i] == v[i]);
        }
        lemma_rd_packages(b, at, d);
        assert(package_fits(v[v.len() - 1]));
        lemma_rd_package(b, at + enc_packages(d).len(), v.last());
        assert(d.push(v.last()) =~= v);
    } else {
        assert(v =~= Seq::<PackageView>::empty());
    }
}

proof fn lemma_rd_diag(b: Seq<u8>, at: int, d: DiagView)
    requires
        holds_at(b, at, enc_diag(d)),
        diag_fits(d),
    ensures
        rd_diag(b, at) == Ok::<(DiagView, int), BlobError>((d, at + enc_diag(d).len())),
{
    lemma_auto_spec_u32_to_from_le_bytes();
    lemma_auto_spec_u64_to_from_le_bytes();
    let e1 = le32(d.package_id);
    let e2 = enc_str(d.kind);
    let e3 = enc_str(d.code);
    let e4 = enc_str(d.message);
    lemma_holds_split(b, at, e1 + e2 + e3, e4);
    lemma_holds_split(b, at, e1 + e2, e3);
    lemma_holds_split(b, at, e1, e2);
    lemma_rd_u32(b, at, d.package_id);
    lemma_rd_string(b, at + e1.len(), d.kind);
    lemma_rd_string(b, at + e1.len() + e2.len(), d.code);
    lemma_rd_string(b, at + e1.len() + e2.len() + e3.len(), d.message);
}

proof fn lemma_rd_diags(b: Seq<u8>, at: int, v: Seq<DiagView>)
    requires
        holds_at(b, at, enc_diags(v)),
        forall|i: int| 0 <= i < v.len() ==> diag_fits(#[trigger] v[i]),
    ensures
        rd_diags(b, at, v.len()) == Ok::<(Seq<DiagView>, int), BlobError>((v, at + enc_diags(v).len())),
    decreases v.len(),
{
    if v.len() > 0 {
        let d = v.drop_last();
        lemma_holds_split(b, at, enc_diags(d), enc_diag(v.last()));
        assert forall|i: int| 0 <= i < d.len() implies diag_fits(#[trigger] d[i]) by {
            assert(d[i] == v[i]);
        }
        lemma_rd_diags(b, at, d);
        assert(diag_fits(v[v.len() - 1]));
        lemma_rd_diag(b, at + enc_diags(d).len(), v.last());
        assert(d.push(v.last()) =~= v);
    } else {
        assert(v =~= Seq::<DiagView>::empty());
    }
}

proof fn lemma_rd_origin(b: Seq<u8>, at: int, o: OriginView)
    requires
        holds_at(b, at, enc_origin(o)),
        origin_fits(o),
    ensures
        rd_origin(b, at) == Ok::<(OriginView, int), BlobError>((o, at + enc_origin(o).len())),
{
    lemma_auto_spec_u32_to_from_le_bytes();
    lemma_auto_spec_u64_to_from_le_bytes();
    let e1 = enc_str(o.executable);
    let e2 = enc_str(o.system);
    let e3 = flag(o.verified);
    let e4 = flag(o.mutable_package_path);
    let e5 = le32(o.channels.len() as u32);
    let e6 = enc_channels(o.channels);
    lemma_holds_split(b, at, e1 + e2 + e3 + e4 + e5, e6);
    lemma_holds_split(b, at, e1 + e2 + e3 + e4, e5);
    lemma_holds_split(b, at, e1 + e2 + e3, e4);
    lemma_holds_split(b, at, e1 + e2, e3);
    lemma_holds_split(b, at, e1, e2);
    let p2 = at + e1.len();
    let p3 = p2 + e2.len();
    let p4 = p3 + e3.len();
    let p5 = p4 + e4.len();
    let p6 = p5 + e5.len();
    lemma_rd_string(b, at, o.executable);
    lemma_rd_string(b, p2, o.system);
    lemma_rd_flag(b, p3, o.verified, FieldKind::Boolean);
    lemma_rd_flag(b, p4, o.mutable_package_path, FieldKind::Boolean);
    lemma_rd_capped(b, p5, o.channels.len(), MAX_SMALL_LIST);
    lemma_rd_channels(b, p6, o.channels);
}

proof fn lemma_enc_packages_len(v: Seq<PackageView>)
    ensures
        enc_packages(v).len() >= 40 * v.len(),
    decreases v.len(),
{
    if v.len() > 0 {
        lemma_enc_packages_len(v.drop_last());
        lemma_auto_spec_u32_to_from_le_bytes();
        lemma_auto_spec_u64_to_from_le_bytes();
    }
}

/// The pieces of a payload and where each stands.
#[verifier::spinoff_prover]
proof fn lemma_payload_pieces(
    pk: Seq<PackageView>,
    commit: Seq<char>,
    generated_ms: u64,
    o: OriginView,
    ds: Seq<DiagView>,
) -> (p: (int, int, int, int, int, int))
    requires
        snapshot_fits(pk, commit, o, ds),
    ensures
        holds_at(payload(pk, commit, generated_ms, o, ds), 0, magic()),
        holds_at(payload(pk, commit, generated_ms, o, ds), 8, le32(SCHEMA_VERSION)),
        holds_at(payload(pk, commit, generated_ms, o, ds), 12, le32(pk.len() as u32)),
        holds_at(payload(pk, commit, generated_ms, o, ds), 16, enc_str(commit)),
        p.0 == 16 + enc_str(commit).len(),
        holds_at(payload(pk, commit, generated_ms, o, ds), p.0, le64(generated_ms)),
        p.1 == p.0 + 8,
        holds_at(payload(pk, commit, generated_ms, o, ds), p.1, enc_origin(o)),
        p.2 == p.1 + enc_origin(o).len(),
        holds_at(payload(pk, commit, generated_ms, o, ds), p.2, enc_packages(pk)),
        p.3 == p.2 + enc_packages(pk).len(),
        holds_at(payload(pk, commit, generated_ms, o, ds), p.3, le32(ds.len() as u32)),
        p.4 == p.3 + 4,
        holds_at(payload(pk, commit, generated_ms, o, ds), p.4, enc_diags(ds)),
        p.5 == p.4 + enc_diags(ds).len(),
        p.5 == payload(pk, commit, generated_ms, o, ds).len(),
        pk.len() <= payload(pk, commit, generated_ms, o, ds).len() / 40,
{
    lemma_auto_spec_u32_to_from_le_bytes();
    lemma_auto_spec_u64_to_from_le_bytes();
    let b = payload(pk, commit, generated_ms, o, ds);
    let e1 = magic();
    let e2 = le32(SCHEMA_VERSION);
    let e3 = le32(pk.len() as u32);
    let e4 = enc_str(commit);
    let e5 = le64(generated_ms);
    let e6 = enc_origin(o);
    let e7 = enc_packages(pk);
    let e8 = le32(ds.len() as u32);
    let e9 = enc_diags(ds);
    assert(b == e1 + e2 + e3 + e4 + e5 + e6 + e7 + e8 + e9);
    assert(b.subrange(0, b.len() as int) =~= b);
    lemma_holds_split(b, 0, e1 + e2 + e3 + e4 + e5 + e6 + e7 + e8, e9);
    lemma_holds_split(b, 0, e1 + e2 + e3 + e4 + e5 + e6 + e7, e8);
    lemma_holds_split(b, 0, e1 + e2 + e3 + e4 + e5 + e6, e7);
    lemma_holds_split(b, 0, e1 + e2 + e3 + e4 + e5, e6);
    lemma_holds_split(b, 0, e1 + e2 + e3 + e4, e5);
    lemma_holds_split(b, 0, e1 + e2 + e3, e4);
    lemma_holds_split(b, 0, e1 + e2, e3);
    lemma_holds_split(b, 0, e1, e2);
    lemma_enc_packages_len(pk);
    let n = pk.len() as int;
    let bl = b.len() as int;
    assert(40 * n <= bl);
    assert(n <= bl / 40) by (nonlinear_arith)
        requires
            40 * n <= bl,
            0 <= n,
    ;
    let p0: int = 16 + e4.len() as int;
    let p1: int = p0 + 8;
    let p2: int = p1 + e6.len();
    let p3: int = p2 + e7.len();
    let p4: int = p3 + 4;
    (p0, p1, p2, p3, p4, p4 + e9.len())
}

/// What reading gives at each piece of a payload.
#[verifier::spinoff_prover]
proof fn lemma_payload_reads(
    pk: Seq<PackageView>,
    commit: Seq<char>,
    generated_ms: u64,
    o: OriginView,
    ds: Seq<DiagView>,
) -> (p: (int, int, int, int, int, int))
    requires
        snapshot_fits(pk, commit, o, ds),
    ensures
        rd_take(payload(pk, commit, generated_ms, o, ds), 0, 8) == Ok::<int, BlobError>(8),
        payload(pk, commit, generated_ms, o, ds).subrange(0, 8) == magic(),
        rd_u32(payload(pk, commit, generated_ms, o, ds), 8) == Ok::<(u32, int), BlobError>((SCHEMA_VERSION, 12)),
        rd_capped(payload(pk, commit, generated_ms, o, ds), 12, MAX_PACKAGES) == Ok::<(u32, int), BlobError>(
            (pk.len() as u32, 16),
        ),
        !((pk.len() as u32) as int > payload(pk, commit, generated_ms, o, ds).len() / 40),
        rd_string(payload(pk, commit, generated_ms, o, ds), 16) == Ok::<(Seq<char>, int), BlobError>((commit, p.0)),
        rd_u64(payload(pk, commit, generated_ms, o, ds), p.0) == Ok::<(u64, int), BlobError>((generated_ms, p.1)),
        rd_origin(payload(pk, commit, generated_ms, o, ds), p.1) == Ok::<(OriginView, int), BlobError>((o, p.2)),
        rd_packages(payload(pk, commit, generated_ms, o, ds), p.2, (pk.len() as u32) as nat) == Ok::<
            (Seq<PackageView>, int),
            BlobError,
        >((pk, p.3)),
        rd_capped(payload(pk, commit, generated_ms, o, ds), p.3, MAX_PACKAGES) == Ok::<(u32, int), BlobError>(
            (ds.len() as u32, p.4),
        ),
        rd_diags(payload(pk, commit, generated_ms, o, ds), p.4, (ds.len() as u32) as nat) == Ok::<
            (Seq<DiagView>, int),
            BlobError,
        >((ds, p.5)),
        p.5 == payload(pk, commit, generated_ms, o, ds).len(),
{
    let p = lemma_payload_pieces(pk, commit, generated_ms, o, ds);
    let b = payload(pk, commit, generated_ms, o, ds);
    lemma_auto_spec_u32_to_from_le_bytes();
    assert(magic().len() == 8);
    lemma_rd_u32(b, 8, SCHEMA_VERSION);
    lemma_rd_capped(b, 12, pk.len(), MAX_PACKAGES);
    lemma_rd_string(b, 16, commit);
    lemma_rd_u64(b, p.0, generated_ms);
    lemma_rd_origin(b, p.1, o);
    lemma_rd_packages(b, p.2, pk);
    lemma_rd_capped(b, p.3, ds.len(), MAX_PACKAGES);
    lemma_rd_diags(b, p.4, ds);
    p
}

/// A byte string whose pieces read as the given parts reads as a snapshot of
/// those parts.
proof fn lemma_snapshot_from_pieces(
    b: Seq<u8>,
    pk: Seq<PackageView>,
    commit: Seq<char>,
    generated_ms: u64,
    o: OriginView,
    ds: Seq<DiagView>,
    p: (int, int, int, int, int, int),
)
    requires
        pk.len() <= MAX_PACKAGES,
        ds.len() <= MAX_PACKAGES,
        rd_take(b, 0, 8) == Ok::<int, BlobError>(8),
        b.subrange(0, 8) == magic(),
        rd_u32(b, 8) == Ok::<(u32, int), BlobError>((SCHEMA_VERSION, 12)),
        rd_capped(b, 12, MAX_PACKAGES) == Ok::<(u32, int), BlobError>((pk.len() as u32, 16)),
        !((pk.len() as u32) as int > b.len() / 40),
        rd_string(b, 16) == Ok::<(Seq<char>, int), BlobError>((commit, p.0)),
        rd_u64(b, p.0) == Ok::<(u64, int), BlobError>((generated_ms, p.1)),
        rd_origin(b, p.1) == Ok::<(OriginView, int), BlobError>((o, p.2)),
        rd_packages(b, p.2, (pk.len() as u32) as nat) == Ok::<(Seq<PackageView>, int), BlobError>((pk, p.3)),
        rd_capped(b, p.3, MAX_PACKAGES) == Ok::<(u32, int), BlobError>((ds.len() as u32, p.4)),
        rd_diags(b, p.4, (ds.len() as u32) as nat) == Ok::<(Seq<DiagView>, int), BlobError>((ds, p.5)),
        p.5 == b.len(),
    ensures
        rd_snapshot(b) == Ok::<SnapshotParts, BlobError>(
            SnapshotParts { packages: pk, commit, generated_ms, diagnostics: ds, origin: o },
        ),
{
}

/// Reading the bytes written for some parts gives those parts back, when
/// every count, length and text fits the reader's bounds.
pub proof fn lemma_read_written(
    pk: Seq<PackageView>,
    commit: Seq<char>,
    generated_ms: u64,
    o: OriginView,
    ds: Seq<DiagView>,
)
    requires
        snapshot_fits(pk, commit, o, ds),
    ensures
        rd_snapshot(payload(pk, commit, generated_ms, o, ds)) == Ok::<SnapshotParts, BlobError>(
            SnapshotParts { packages: pk, commit, generated_ms, diagnostics: ds, origin: o },
        ),
{
    let p = lemma_payload_reads(pk, commit, generated_ms, o, ds);
    lemma_snapshot_from_pieces(payload(pk, commit, generated_ms, o, ds), pk, commit, generated_ms, o, ds, p);
}


/// A list with repetition-free dependency lists and clean texts stays as it
/// is when cleaned again.
proof fn lemma_clean_pkg_idempotent(p: PackageView)
    ensures
        clean_pkg(clean_pkg(p)) == clean_pkg(p),
{
    let c = clean_pkg(p);
    lemma_clean_idempotent(p.name, false);
    lemma_clean_idempotent(p.version, false);
    lemma_clean_idempotent(p.synopsis, false);
    lemma_clean_idempotent(p.description, true);
    lemma_clean_idempotent(p.homepage, false);
    lemma_clean_idempotent(p.file, false);
    assert forall|i: int| 0 <= i < c.licenses.len() implies clean(#[trigger] c.licenses[i], false) == c.licenses[i] by {
        lemma_clean_idempotent(p.licenses[i], false);
    }
    assert(c.licenses.map_values(|l: Seq<char>| clean(l, false)) =~= c.licenses);
    lemma_dedup(p.inputs);
    lemma_dedup(p.propagated);
    lemma_dedup(p.native);
    lemma_dedup_unique(c.inputs);
    lemma_dedup_unique(c.propagated);
    lemma_dedup_unique(c.native);
}

proof fn lemma_group_identity(pk: Seq<PackageView>, k: u32, m: int)
    requires
        0 <= m <= pk.len(),
        forall|i: int| 0 <= i < pk.len() ==> (#[trigger] pk[i]).id == i,
    ensures
        group_upto(pk, k, m) == (if (k as int) < m {
            seq![k as int]
        } else {
            Seq::<int>::empty()
        }),
    decreases m,
{
    if m > 0 {
        lemma_group_identity(pk, k, m - 1);
        assert(pk[m - 1].id == m - 1);
    }
}

proof fn lemma_in_range_first_out_of_range(s: Seq<u32>, len: usize)
    requires
        forall|m: int| 0 <= m < s.len() ==> (#[trigger] s[m]) < len,
    ensures
        first_out_of_range(s, len) is None,
    decreases s.len(),
{
    if s.len() > 0 {
        assert(s[0] < len);
        assert forall|m: int| 0 <= m < s.drop_first().len() implies (#[trigger] s.drop_first()[m]) < len by {
            assert(s.drop_first()[m] == s[m + 1]);
        }
        lemma_in_range_first_out_of_range(s.drop_first(), len);
    }
}

proof fn lemma_groups_err_none_from(ps: Seq<PackageView>, k: int)
    requires
        0 <= k,
        forall|j: int| k <= j < ps.len() ==> (#[trigger] group_err(ps, j as u32)) is None,
    ensures
        groups_err(ps, k) is None,
    decreases ps.len() - k,
{
    if k < ps.len() {
        lemma_groups_err_none_from(ps, k + 1);
    }
}

proof fn lemma_tail_min_in_range(ps: Seq<PackageView>, n: int)
    requires
        0 <= n <= ps.len(),
        forall|i: int| 0 <= i < ps.len() ==> (#[trigger] ps[i]).id < ps.len(),
    ensures
        tail_min(ps, n) is None,
    decreases n,
{
    if n > 0 {
        lemma_tail_min_in_range(ps, n - 1);
    }
}

proof fn lemma_diag_error_clean(ds: Seq<DiagView>, len: usize)
    ensures
        diag_error(ds.map_values(|d: DiagView| clean_diag(d)), len) == diag_error(ds, len),
    decreases ds.len(),
{
    if ds.len() > 0 {
        assert(ds.map_values(|d: DiagView| clean_diag(d)).drop_first() =~= ds.drop_first().map_values(
            |d: DiagView| clean_diag(d),
        ));
        lemma_diag_error_clean(ds.drop_first(), len);
    }
}

proof fn lemma_clean_channel_idempotent(c: ChannelView)
    ensures
        clean_channel(clean_channel(c)) == clean_channel(c),
{
    lemma_clean_idempotent(c.0, false);
    lemma_clean_idempotent(c.1, false);
}

/// The canonical form of an origin is its own canonical form.
pub proof fn lemma_canon_origin_idempotent(o: OriginView)
    ensures
        canon_origin(canon_origin(o)) == canon_origin(o),
{
    let co = canon_origin(o);
    lemma_channel_order();
    let cleaned = o.channels.map_values(|c: ChannelView| clean_channel(c));
    lemma_sorted_list_exists(cleaned, channel_order());
    let l = co.channels;
    assert(l == sorted_list(cleaned.to_set(), channel_order()));
    lemma_clean_idempotent(o.executable, false);
    lemma_clean_idempotent(o.system, false);
    assert forall|i: int| 0 <= i < l.len() implies clean_channel(#[trigger] l[i]) == l[i] by {
        assert(l.to_set().contains(l[i]));
        assert(cleaned.to_set().contains(l[i]));
        let q = choose|q: int| 0 <= q < cleaned.len() && cleaned[q] == l[i];
        lemma_clean_channel_idempotent(o.channels[q]);
    }
    assert(l.map_values(|c: ChannelView| clean_channel(c)) =~= l);
    lemma_sorted_list_of(l, channel_order());
    assert forall|i: int| 0 <= i < l.len() implies is_clean((#[trigger] l[i]).0, false) && is_clean(
        l[i].1,
        false,
    ) by {
        assert(clean_channel(l[i]) == l[i]);
    }
    assert(origin_texts_clean(co));
}

/// Building an index from the parts of a built index gives that index
/// again, with the new load time.
pub proof fn lemma_from_parts_idempotent(
    ps: Seq<PackageView>,
    c: Seq<char>,
    g: u64,
    b0: u64,
    ds: Seq<DiagView>,
    o: OriginView,
    v: IndexView,
    built: u64,
)
    requires
        from_parts_result(ps, c, g, b0, ds, o) == Ok::<IndexView, IndexError>(v),
        v.origin.channels.len() <= MAX_CHANNELS,
    ensures
        from_parts_result(v.packages, v.guix_commit, v.generated_ms, built, v.diagnostics, v.origin)
            == Ok::<IndexView, IndexError>(IndexView { built_ms: built, ..v }),
{
    let n = ps.len();
    let pk = v.packages;
    assert(pk == built_packages(ps));
    lemma_tail_min_none(ps, n as int);
    lemma_groups_err_none(ps, 0);
    assert forall|k: int| 0 <= k < n implies #[trigger] group(ps, k as u32).len() <= 1 by {
        assert(group_err(ps, k as u32) is None);
    }
    lemma_groups_full(ps);
    lemma_built_packages(ps);
    assert forall|k: int| 0 <= k < n implies #[trigger] group(pk, k as u32) == seq![k] by {
        lemma_group_identity(pk, k as u32, n as int);
    }
    assert forall|k: int| 0 <= k < n implies #[trigger] group_err(pk, k as u32) is None by {
        assert(group(pk, k as u32) == seq![k]);
        assert(group_err(ps, k as u32) is None);
        let g0 = group(ps, k as u32)[0];
        let raw = ps[g0];
        assert(pkg_err(raw, n as usize) is None);
        assert(pk[k] == clean_pkg(raw));
        lemma_dedup(raw.inputs);
        lemma_dedup(raw.propagated);
        lemma_dedup(raw.native);
        lemma_clean_pkg_idempotent(raw);
        assert(clean_pkg(pk[k]) == pk[k]);
        assert forall|m: int| 0 <= m < typed_seq(pk[k]).len() implies (#[trigger] typed_seq(pk[k])[m]) < n as usize by {
            assert(typed_seq(built_packages(ps)[k])[m] < n);
        }
        lemma_in_range_first_out_of_range(typed_seq(clean_pkg(pk[k])), n as usize);
        assert(pk[k].name.len() == raw.name.len());
        assert(pkg_err(pk[k], n as usize) is None);
    }
    lemma_groups_err_none_from(pk, 0);
    lemma_tail_min_in_range(pk, n as int);
    assert(packages_error(pk) is None);
    lemma_diag_error_clean(ds, n as usize);
    assert forall|k: int| 0 <= k < n implies #[trigger] built_packages(pk)[k] == pk[k] by {
        assert(group(pk, k as u32) == seq![k]);
        let g0 = group(ps, k as u32)[0];
        lemma_clean_pkg_idempotent(ps[g0]);
    }
    assert(built_packages(pk) =~= pk);
    lemma_clean_idempotent(c, false);
    let cds = v.diagnostics;
    assert forall|i: int| 0 <= i < cds.len() implies clean_diag(#[trigger] cds[i]) == cds[i] by {
        lemma_clean_idempotent(ds[i].kind, false);
        lemma_clean_idempotent(ds[i].code, false);
        lemma_clean_idempotent(ds[i].message, false);
    }
    assert(cds.map_values(|d: DiagView| clean_diag(d)) =~= cds);
    lemma_canon_origin_idempotent(o);
}

/// Round trip: decoding the snapshot of a built index gives that index back,
/// with the new load time, whenever every text and count fits the format.
pub proof fn law_snapshot_round_trip(
    ps: Seq<PackageView>,
    c: Seq<char>,
    g: u64,
    b0: u64,
    ds: Seq<DiagView>,
    o: OriginView,
    v: IndexView,
    built: u64,
)
    requires
        from_parts_result(ps, c, g, b0, ds, o) == Ok::<IndexView, IndexError>(v),
        snapshot_fits(v.packages, v.guix_commit, v.origin, v.diagnostics),
    ensures
        decode_result(payload(v.packages, v.guix_commit, v.generated_ms, v.origin, v.diagnostics), built)
            == Ok::<IndexView, BlobError>(IndexView { built_ms: built, ..v }),
{
    lemma_read_written(v.packages, v.guix_commit, v.generated_ms, v.origin, v.diagnostics);
    lemma_from_parts_idempotent(ps, c, g, b0, ds, o, v, built);
}

/// The persisted content is determined by its encoding: two contents that
/// fit the format and differ anywhere (a package's catalog flag or inputs, a
/// diagnostic, a channel of the origin, the commit or the generation time)
/// encode to different bytes.
pub proof fn law_payload_determines_content(
    pk1: Seq<PackageView>,
    c1: Seq<char>,
    g1: u64,
    o1: OriginView,
    ds1: Seq<DiagView>,
    pk2: Seq<PackageView>,
    c2: Seq<char>,
    g2: u64,
    o2: OriginView,
    ds2: Seq<DiagView>,
)
    requires
        snapshot_fits(pk1, c1, o1, ds1),
        snapshot_fits(pk2, c2, o2, ds2),
    ensures
        payload(pk1, c1, g1, o1, ds1) == payload(pk2, c2, g2, o2, ds2) ==> pk1 == pk2 && c1 == c2 && g1 == g2
            && o1 == o2 && ds1 == ds2,
{
    lemma_read_written(pk1, c1, g1, o1, ds1);
    lemma_read_written(pk2, c2, g2, o2, ds2);
}

} // verus!
