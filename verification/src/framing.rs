//! How a snapshot is framed: reading never looks past the bytes it was
//! given, so a snapshot ends exactly where its last field ends.

use vstd::prelude::*;

use crate::blob::{
    decode_result, ids_at, rd_capped, rd_channel, rd_channels, rd_diag, rd_diags, rd_flag, rd_ids, rd_origin,
    rd_package, rd_packages, rd_snapshot, rd_string, rd_strs, rd_take, rd_u32, rd_u64, BlobError, FieldKind,
};

verus! {

/// `c` is the first `c.len()` bytes of `d`.
pub open spec fn is_prefix(c: Seq<u8>, d: Seq<u8>) -> bool {
    c.len() <= d.len() && c == d.take(c.len() as int)
}

proof fn lemma_sub(c: Seq<u8>, d: Seq<u8>, a: int, e: int)
    requires
        is_prefix(c, d),
        0 <= a <= e <= c.len(),
    ensures
        c.subrange(a, e) == d.subrange(a, e),
{
    assert(c.subrange(a, e) =~= d.subrange(a, e)) by {
        assert forall|i: int| 0 <= i < e - a implies c.subrange(a, e)[i] == d.subrange(a, e)[i] by {
            assert(c[a + i] == d.take(c.len() as int)[a + i]);
        }
    }
}

proof fn lemma_pre_take(c: Seq<u8>, d: Seq<u8>, at: int, n: int)
    requires
        is_prefix(c, d),
        0 <= at,
        0 <= n,
        rd_take(c, at, n) is Ok,
    ensures
        rd_take(d, at, n) == rd_take(c, at, n),
        at <= rd_take(c, at, n)->Ok_0 <= c.len(),
{
}

proof fn lemma_pre_u32(c: Seq<u8>, d: Seq<u8>, at: int)
    requires
        is_prefix(c, d),
        0 <= at,
        rd_u32(c, at) is Ok,
    ensures
        rd_u32(d, at) == rd_u32(c, at),
        at <= rd_u32(c, at)->Ok_0.1 <= c.len(),
{
    lemma_pre_take(c, d, at, 4);
    lemma_sub(c, d, at, at + 4);
}

proof fn lemma_pre_u64(c: Seq<u8>, d: Seq<u8>, at: int)
    requires
        is_prefix(c, d),
        0 <= at,
        rd_u64(c, at) is Ok,
    ensures
        rd_u64(d, at) == rd_u64(c, at),
        at <= rd_u64(c, at)->Ok_0.1 <= c.len(),
{
    lemma_pre_take(c, d, at, 8);
    lemma_sub(c, d, at, at + 8);
}

proof fn lemma_pre_capped(c: Seq<u8>, d: Seq<u8>, at: int, max: u32)
    requires
        is_prefix(c, d),
        0 <= at,
        rd_capped(c, at, max) is Ok,
    ensures
        rd_capped(d, at, max) == rd_capped(c, at, max),
        at <= rd_capped(c, at, max)->Ok_0.1 <= c.len(),
{
    lemma_pre_u32(c, d, at);
}

proof fn lemma_pre_flag(c: Seq<u8>, d: Seq<u8>, at: int, what: FieldKind)
    requires
        is_prefix(c, d),
        0 <= at,
        rd_flag(c, at, what) is Ok,
    ensures
        rd_flag(d, at, what) == rd_flag(c, at, what),
        at <= rd_flag(c, at, what)->Ok_0.1 <= c.len(),
{
    lemma_pre_take(c, d, at, 1);
    assert(c[at] == d[at]) by {
        assert(c[at] == d.take(c.len() as int)[at]);
    }
}

proof fn lemma_pre_string(c: Seq<u8>, d: Seq<u8>, at: int)
    requires
        is_prefix(c, d),
        0 <= at,
        rd_string(c, at) is Ok,
    ensures
        rd_string(d, at) == rd_string(c, at),
        at <= rd_string(c, at)->Ok_0.1 <= c.len(),
{
    lemma_pre_capped(c, d, at, crate::blob::MAX_STRING);
    let (len, p) = rd_capped(c, at, crate::blob::MAX_STRING)->Ok_0;
    lemma_pre_take(c, d, p, len as int);
    lemma_sub(c, d, p, p + len);
}

proof fn lemma_pre_ids(c: Seq<u8>, d: Seq<u8>, at: int)
    requires
        is_prefix(c, d),
        0 <= at,
        rd_ids(c, at) is Ok,
    ensures
        rd_ids(d, at) == rd_ids(c, at),
        at <= rd_ids(c, at)->Ok_0.1 <= c.len(),
{
    lemma_pre_capped(c, d, at, crate::blob::MAX_DEPS);
    let (n, p) = rd_capped(c, at, crate::blob::MAX_DEPS)->Ok_0;
    assert(n <= (c.len() - p) / 4);
    assert((c.len() - p) / 4 <= (d.len() - p) / 4) by (nonlinear_arith)
        requires
            c.len() <= d.len(),
            p <= c.len(),
    ;
    assert(4 * n <= c.len() - p) by (nonlinear_arith)
        requires
            n <= (c.len() - p) / 4,
            p <= c.len(),
    ;
    assert(ids_at(c, p, n as nat) =~= ids_at(d, p, n as nat)) by {
        assert forall|i: int| 0 <= i < n implies #[trigger] ids_at(c, p, n as nat)[i] == ids_at(d, p, n as nat)[i] by {
            lemma_sub(c, d, p + 4 * i, p + 4 * i + 4);
        }
    }
}

proof fn lemma_pre_strs(c: Seq<u8>, d: Seq<u8>, at: int, k: nat)
    requires
        is_prefix(c, d),
        0 <= at <= c.len(),
        rd_strs(c, at, k) is Ok,
    ensures
        rd_strs(d, at, k) == rd_strs(c, at, k),
        at <= rd_strs(c, at, k)->Ok_0.1 <= c.len(),
    decreases k,
{
    if k > 0 {
        lemma_pre_strs(c, d, at, (k - 1) as nat);
        let p = rd_strs(c, at, (k - 1) as nat)->Ok_0.1;
        lemma_pre_string(c, d, p);
    }
}

proof fn lemma_pre_channel(c: Seq<u8>, d: Seq<u8>, at: int)
    requires
        is_prefix(c, d),
        0 <= at,
        rd_channel(c, at) is Ok,
    ensures
        rd_channel(d, at) == rd_channel(c, at),
        at <= rd_channel(c, at)->Ok_0.1 <= c.len(),
{
    lemma_pre_string(c, d, at);
    lemma_pre_string(c, d, rd_string(c, at)->Ok_0.1);
}

proof fn lemma_pre_channels(c: Seq<u8>, d: Seq<u8>, at: int, k: nat)
    requires
        is_prefix(c, d),
        0 <= at <= c.len(),
        rd_channels(c, at, k) is Ok,
    ensures
        rd_channels(d, at, k) == rd_channels(c, at, k),
        at <= rd_channels(c, at, k)->Ok_0.1 <= c.len(),
    decreases k,
{
    if k > 0 {
        lemma_pre_channels(c, d, at, (k - 1) as nat);
        lemma_pre_channel(c, d, rd_channels(c, at, (k - 1) as nat)->Ok_0.1);
    }
}

#[verifier::spinoff_prover]
#[verifier::rlimit(40)]
proof fn lemma_pre_package(c: Seq<u8>, d: Seq<u8>, at: int)
    requires
        is_prefix(c, d),
        0 <= at,
        rd_package(c, at) is Ok,
    ensures
        rd_package(d, at) == rd_package(c, at),
        at <= rd_package(c, at)->Ok_0.1 <= c.len(),
{
    lemma_pre_u32(c, d, at);
    let p1 = rd_u32(c, at)->Ok_0.1;
    lemma_pre_flag(c, d, p1, FieldKind::Catalog);
    let p2 = rd_flag(c, p1, FieldKind::Catalog)->Ok_0.1;
    lemma_pre_string(c, d, p2);
    let p3 = rd_string(c, p2)->Ok_0.1;
    lemma_pre_string(c, d, p3);
    let p4 = rd_string(c, p3)->Ok_0.1;
    lemma_pre_string(c, d, p4);
    let p5 = rd_string(c, p4)->Ok_0.1;
    lemma_pre_string(c, d, p5);
    let p6 = rd_string(c, p5)->Ok_0.1;
    lemma_pre_string(c, d, p6);
    let p7 = rd_string(c, p6)->Ok_0.1;
    lemma_pre_string(c, d, p7);
    let p8 = rd_string(c, p7)->Ok_0.1;
    lemma_pre_u64(c, d, p8);
    let p9 = rd_u64(c, p8)->Ok_0.1;
    lemma_pre_capped(c, d, p9, crate::blob::MAX_SMALL_LIST);
    let (nl, p10) = rd_capped(c, p9, crate::blob::MAX_SMALL_LIST)->Ok_0;
    lemma_pre_strs(c, d, p10, nl as nat);
    let p11 = rd_strs(c, p10, nl as nat)->Ok_0.1;
    lemma_pre_ids(c, d, p11);
    let p12 = rd_ids(c, p11)->Ok_0.1;
    lemma_pre_ids(c, d, p12);
    let p13 = rd_ids(c, p12)->Ok_0.1;
    lemma_pre_ids(c, d, p13);
}

proof fn lemma_pre_packages(c: Seq<u8>, d: Seq<u8>, at: int, k: nat)
    requires
        is_prefix(c, d),
        0 <= at <= c.len(),
        rd_packages(c, at, k) is Ok,
    ensures
        rd_packages(d, at, k) == rd_packages(c, at, k),
        at <= rd_packages(c, at, k)->Ok_0.1 <= c.len(),
    decreases k,
{
    if k > 0 {
        lemma_pre_packages(c, d, at, (k - 1) as nat);
        lemma_pre_package(c, d, rd_packages(c, at, (k - 1) as nat)->Ok_0.1);
    }
}

proof fn lemma_pre_diag(c: Seq<u8>, d: Seq<u8>, at: int)
    requires
        is_prefix(c, d),
        0 <= at,
        rd_diag(c, at) is Ok,
    ensures
        rd_diag(d, at) == rd_diag(c, at),
        at <= rd_diag(c, at)->Ok_0.1 <= c.len(),
{
    lemma_pre_u32(c, d, at);
    let p1 = rd_u32(c, at)->Ok_0.1;
    lemma_pre_string(c, d, p1);
    let p2 = rd_string(c, p1)->Ok_0.1;
    lemma_pre_string(c, d, p2);
    let p3 = rd_string(c, p2)->Ok_0.1;
    lemma_pre_string(c, d, p3);
}

proof fn lemma_pre_diags(c: Seq<u8>, d: Seq<u8>, at: int, k: nat)
    requires
        is_prefix(c, d),
        0 <= at <= c.len(),
        rd_diags(c, at, k) is Ok,
    ensures
        rd_diags(d, at, k) == rd_diags(c, at, k),
        at <= rd_diags(c, at, k)->Ok_0.1 <= c.len(),
    decreases k,
{
    if k > 0 {
        lemma_pre_diags(c, d, at, (k - 1) as nat);
        lemma_pre_diag(c, d, rd_diags(c, at, (k - 1) as nat)->Ok_0.1);
    }
}

proof fn lemma_pre_origin(c: Seq<u8>, d: Seq<u8>, at: int)
    requires
        is_prefix(c, d),
        0 <= at,
        rd_origin(c, at) is Ok,
    ensures
        rd_origin(d, at) == rd_origin(c, at),
        at <= rd_origin(c, at)->Ok_0.1 <= c.len(),
{
    lemma_pre_string(c, d, at);
    let p1 = rd_string(c, at)->Ok_0.1;
    lemma_pre_string(c, d, p1);
    let p2 = rd_string(c, p1)->Ok_0.1;
    lemma_pre_flag(c, d, p2, FieldKind::Boolean);
    let p3 = rd_flag(c, p2, FieldKind::Boolean)->Ok_0.1;
    lemma_pre_flag(c, d, p3, FieldKind::Boolean);
    let p4 = rd_flag(c, p3, FieldKind::Boolean)->Ok_0.1;
    lemma_pre_capped(c, d, p4, crate::blob::MAX_SMALL_LIST);
    let (cc, p5) = rd_capped(c, p4, crate::blob::MAX_SMALL_LIST)->Ok_0;
    lemma_pre_channels(c, d, p5, cc as nat);
}

/// When a snapshot reads from `c`, the same fields read from any longer
/// `d` that starts with `c`, and then stop short of its end.
#[verifier::spinoff_prover]
#[verifier::rlimit(60)]
proof fn lemma_pre_snapshot(c: Seq<u8>, d: Seq<u8>)
    requires
        is_prefix(c, d),
        c.len() < d.len(),
        rd_snapshot(c) is Ok,
    ensures
        rd_snapshot(d) == Err::<crate::blob::SnapshotParts, BlobError>(BlobError::Field(FieldKind::TrailingBytes)),
{
    lemma_pre_take(c, d, 0, 8);
    lemma_sub(c, d, 0, 8);
    lemma_pre_u32(c, d, 8);
    let p1 = rd_u32(c, 8)->Ok_0.1;
    lemma_pre_capped(c, d, p1, crate::blob::MAX_PACKAGES);
    let (count, p2) = rd_capped(c, p1, crate::blob::MAX_PACKAGES)->Ok_0;
    assert(c.len() / 40 <= d.len() / 40) by (nonlinear_arith)
        requires
            c.len() <= d.len(),
    ;
    lemma_pre_string(c, d, p2);
    let p3 = rd_string(c, p2)->Ok_0.1;
    lemma_pre_u64(c, d, p3);
    let p4 = rd_u64(c, p3)->Ok_0.1;
    lemma_pre_origin(c, d, p4);
    let p5 = rd_origin(c, p4)->Ok_0.1;
    lemma_pre_packages(c, d, p5, count as nat);
    let p6 = rd_packages(c, p5, count as nat)->Ok_0.1;
    lemma_pre_capped(c, d, p6, crate::blob::MAX_PACKAGES);
    let (nd, p7) = rd_capped(c, p6, crate::blob::MAX_PACKAGES)->Ok_0;
    lemma_pre_diags(c, d, p7, nd as nat);
    let p8 = rd_diags(c, p7, nd as nat)->Ok_0.1;
    assert(p8 == c.len());
}

/// A snapshot ends where its last field ends: every strict prefix of a
/// readable snapshot is rejected, and one byte more after it is rejected as
/// trailing bytes.
pub proof fn law_snapshot_framing(b: Seq<u8>, m: int, x: u8, built_ms: u64)
    requires
        rd_snapshot(b) is Ok,
        0 <= m < b.len(),
    ensures
        rd_snapshot(b.take(m)) is Err,
        decode_result(b.take(m), built_ms) is Err,
        decode_result(b.push(x), built_ms) == Err::<crate::index::IndexView, BlobError>(
            BlobError::Field(FieldKind::TrailingBytes),
        ),
{
    let c = b.take(m);
    assert(is_prefix(c, b)) by {
        assert(c =~= b.take(c.len() as int));
    }
    if rd_snapshot(c) is Ok {
        lemma_pre_snapshot(c, b);
    }
    let e = b.push(x);
    assert(is_prefix(b, e)) by {
        assert(b =~= e.take(b.len() as int));
    }
    lemma_pre_snapshot(b, e);
}

proof fn lemma_packages_len(b: Seq<u8>, at: int, k: nat)
    requires
        rd_packages(b, at, k) is Ok,
    ensures
        rd_packages(b, at, k)->Ok_0.0.len() == k,
    decreases k,
{
    if k > 0 {
        lemma_packages_len(b, at, (k - 1) as nat);
    }
}

/// A snapshot holds no more packages than one per 40 of its bytes: the
/// count it declares is checked against its length before anything is read
/// for it.
pub proof fn law_snapshot_count_bounded(b: Seq<u8>)
    requires
        rd_snapshot(b) is Ok,
    ensures
        rd_snapshot(b)->Ok_0.packages.len() <= b.len() / 40,
{
    let p1 = rd_u32(b, 8)->Ok_0.1;
    let (count, p2) = rd_capped(b, p1, crate::blob::MAX_PACKAGES)->Ok_0;
    let p3 = rd_string(b, p2)->Ok_0.1;
    let p4 = rd_u64(b, p3)->Ok_0.1;
    let p5 = rd_origin(b, p4)->Ok_0.1;
    lemma_packages_len(b, p5, count as nat);
}

/// Which error an oversized count gives. A snapshot with the right magic and
/// schema whose declared package count is over the limit is truncated at
/// that count, and one whose count is more than one package per 40 bytes
/// has an impossible package count. An id list whose declared length is
/// more than the remaining bytes can hold has an impossible dependency
/// count, and a text whose declared length runs past the end is truncated
/// there.
pub proof fn law_oversized_counts(b: Seq<u8>, built_ms: u64, at: int)
    ensures
        b.len() >= 16 && b.subrange(0, 8) == crate::blob::magic() && rd_u32(b, 8) is Ok && rd_u32(b, 8)->Ok_0.0
            == crate::model::SCHEMA_VERSION ==> ({
            let c = rd_u32(b, 12)->Ok_0.0;
            &&& c > crate::blob::MAX_PACKAGES ==> decode_result(b, built_ms) == Err::<crate::index::IndexView, BlobError>(
                BlobError::Truncated { at: 16, need: c as usize },
            )
            &&& c <= crate::blob::MAX_PACKAGES && c as int > b.len() / 40 ==> decode_result(b, built_ms) == Err::<
                crate::index::IndexView,
                BlobError,
            >(BlobError::Field(FieldKind::PackageCount))
        }),
        rd_capped(b, at, crate::blob::MAX_DEPS) matches Ok((n, p)) ==> (n > (b.len() - p) / 4 ==> rd_ids(b, at)
            == Err::<(Seq<u32>, int), BlobError>(BlobError::Field(FieldKind::DependencyCount))),
        rd_capped(b, at, crate::blob::MAX_STRING) matches Ok((len, p)) ==> (p + len > b.len() ==> rd_string(b, at)
            == Err::<(Seq<char>, int), BlobError>(BlobError::Truncated { at: p as usize, need: len as usize })),
{
}

} // verus!
