//! Where the index snapshot lives, and what a snapshot read from there is
//! worth against the live Guix installation. Reading, writing and
//! quarantining the file happen outside.

use vstd::prelude::*;

use crate::blob::{decode, decode_result, decoded_view, payload, BlobError};
use crate::construct::{canon_origin, canonical_origin, from_parts_result};
use crate::index::{Index, IndexError, IndexView, PackageView};
use crate::model::{origin_is_verified, DiagView, GuixOrigin, OriginView};
use crate::roundtrip::{law_snapshot_round_trip, snapshot_fits};
use crate::text::{push_char, str_eq, string_from_chars};

verus! {

/// Whether a cached index is usable and current.
#[derive(Debug)]
pub enum CacheStatus {
    /// The snapshot decoded and was made by the live, verified Guix.
    Fresh(Index),
    /// The snapshot decoded, but no verified live origin can vouch for it.
    Unverified(Index),
    /// The snapshot decoded, but a different Guix made it.
    Stale { reason: String },
    /// No snapshot file.
    Absent,
}

pub ghost enum StatusView {
    Fresh(IndexView),
    Unverified(IndexView),
    Stale(Seq<char>),
    Absent,
}

pub open spec fn status_view(s: CacheStatus) -> StatusView {
    match s {
        CacheStatus::Fresh(i) => StatusView::Fresh(i@),
        CacheStatus::Unverified(i) => StatusView::Unverified(i@),
        CacheStatus::Stale { reason } => StatusView::Stale(reason@),
        CacheStatus::Absent => StatusView::Absent,
    }
}

/// The snapshot cache: a directory holding one snapshot file.
pub struct Cache {
    pub dir: String,
}

/// The snapshot's file name; the schema is part of it, so an older
/// snapshot next to it is left alone.
pub open spec fn snapshot_file() -> Seq<char> {
    seq!['i', 'n', 'd', 'e', 'x', '-', 'v', '5', '.', 'b', 'i', 'n']
}

/// A relative file name under a directory, as a path join gives it.
pub open spec fn joined(dir: Seq<char>, name: Seq<char>) -> Seq<char> {
    if dir.len() == 0 {
        name
    } else if dir.last() == '/' {
        dir + name
    } else {
        dir.push('/') + name
    }
}

impl Cache {
    /// The path of the snapshot file.
    pub fn path(&self) -> (r: String)
        ensures
            r@ == joined(self.dir@, snapshot_file()),
    {
        let name = ['i', 'n', 'd', 'e', 'x', '-', 'v', '5', '.', 'b', 'i', 'n'];
        assert(name@ =~= snapshot_file());
        let mut out = string_from_chars(crate::text::chars_of(self.dir.as_str()).as_slice());
        let dir = crate::text::chars_of(self.dir.as_str());
        if dir.len() > 0 && dir[dir.len() - 1] != '/' {
            push_char(&mut out, '/');
        }
        let ghost base = out@;
        let mut i: usize = 0;
        while i < 12
            invariant
                name@ == snapshot_file(),
                i <= 12,
                out@ == base + name@.take(i as int),
            decreases 12 - i,
        {
            push_char(&mut out, name[i]);
            assert(name@.take(i + 1) =~= name@.take(i as int).push(name@[i as int]));
            i += 1;
        }
        assert(name@.take(12) =~= name@);
        proof {
            if self.dir@.len() == 0 {
                assert(base =~= Seq::<char>::empty());
            }
        }
        out
    }
}

/// Why a snapshot of another Guix is not used.
pub open spec fn stale_reason() -> Seq<char> {
    seq!['o', 'r', 'i', 'g', 'i', 'n', ' ', 'c', 'h', 'a', 'n', 'g', 'e', 'd']
}

/// What a decoded snapshot is worth: unverified without a verified live
/// origin; fresh when the live origin, in canonical form, is the one the
/// snapshot was made by; stale otherwise.
pub open spec fn status_of(index: IndexView, live: Option<OriginView>) -> StatusView {
    match live {
        None => StatusView::Unverified(index),
        Some(o) => if !origin_is_verified(o) {
            StatusView::Unverified(index)
        } else if index.origin == canon_origin(o) {
            StatusView::Fresh(index)
        } else {
            StatusView::Stale(stale_reason())
        },
    }
}

fn origin_eq(a: &GuixOrigin, b: &GuixOrigin) -> (r: bool)
    ensures
        r == (a@ == b@),
{
    if !str_eq(a.executable.as_str(), b.executable.as_str()) || !str_eq(
        a.system.as_str(),
        b.system.as_str(),
    ) || a.verified != b.verified || a.mutable_package_path != b.mutable_package_path
        || a.channels.len() != b.channels.len() {
        assert(a@.channels.len() == a.channels@.len() && b@.channels.len() == b.channels@.len());
        return false;
    }
    let mut i: usize = 0;
    while i < a.channels.len()
        invariant
            a.channels@.len() == b.channels@.len(),
            i <= a.channels@.len(),
            forall|q: int| 0 <= q < i ==> (#[trigger] a.channels@[q])@ == b.channels@[q]@,
        decreases a.channels@.len() - i,
    {
        let (x, y) = (&a.channels[i], &b.channels[i]);
        if !str_eq(x.name.as_str(), y.name.as_str()) || !str_eq(x.commit.as_str(), y.commit.as_str()) {
            assert(a@.channels[i as int] != b@.channels[i as int]);
            return false;
        }
        i += 1;
    }
    assert(a@.channels =~= b@.channels);
    true
}

/// Judge a decoded snapshot against the live origin, if one is known.
pub fn classify(index: Index, live: Option<&GuixOrigin>) -> (r: CacheStatus)
    ensures
        status_view(r) == status_of(
            index@,
            match live {
                Some(o) => Some(o@),
                None => None,
            },
        ),
{
    match live {
        None => CacheStatus::Unverified(index),
        Some(o) => {
            if !o.is_verified() {
                return CacheStatus::Unverified(index);
            }
            let canon = canonical_origin(o);
            if origin_eq(&index.origin, &canon) {
                CacheStatus::Fresh(index)
            } else {
                let text = ['o', 'r', 'i', 'g', 'i', 'n', ' ', 'c', 'h', 'a', 'n', 'g', 'e', 'd'];
                assert(text@ =~= stale_reason());
                CacheStatus::Stale { reason: string_from_chars(&text) }
            }
        },
    }
}

/// What the bytes of a snapshot file are worth: the decoding error, or the
/// decoded index judged against the live origin.
pub fn snapshot_status(bytes: &[u8], live: Option<&GuixOrigin>, built_ms: u64) -> (r: Result<CacheStatus, BlobError>)
    ensures
        match decode_result(bytes@, built_ms) {
            Err(e) => r == Err::<CacheStatus, BlobError>(e),
            Ok(v) => r is Ok && status_view(r->Ok_0) == status_of(
                v,
                match live {
                    Some(o) => Some(o@),
                    None => None,
                },
            ),
        },
{
    match decode(bytes, built_ms) {
        Err(e) => Err(e),
        Ok(index) => Ok(classify(index, live)),
    }
}


/// A snapshot is fresh for the Guix that made it: an index assembled for
/// origin `o`, written and read back, is fresh against a verified live
/// origin of the same canonical form (channel order aside), and stale
/// against a verified live origin that differs from it.
#[verifier::spinoff_prover]
#[verifier::rlimit(30)]
pub proof fn law_snapshot_fresh_for_its_origin(
    ps: Seq<PackageView>,
    c: Seq<char>,
    g: u64,
    b0: u64,
    ds: Seq<DiagView>,
    o: OriginView,
    v: IndexView,
    built: u64,
    live: OriginView,
)
    requires
        from_parts_result(ps, c, g, b0, ds, o) == Ok::<IndexView, IndexError>(v),
        snapshot_fits(v.packages, v.guix_commit, v.origin, v.diagnostics),
        origin_is_verified(live),
    ensures
        ({
            let back = IndexView { built_ms: built, ..v };
            &&& decode_result(
                payload(v.packages, v.guix_commit, v.generated_ms, v.origin, v.diagnostics),
                built,
            ) == Ok::<IndexView, BlobError>(back)
            &&& canon_origin(live) == canon_origin(o) ==> status_of(back, Some(live))
                == StatusView::Fresh(back)
            &&& canon_origin(live) != canon_origin(o) ==> status_of(back, Some(live))
                == StatusView::Stale(stale_reason())
        }),
{
    law_snapshot_round_trip(ps, c, g, b0, ds, o, v, built);
}


/// The most output `guix describe` may produce.
pub const MAX_DESCRIBE_BYTES: usize = 1024 * 1024;

/// What `guix describe --format=json` output holds, read as JSON: nothing
/// when it is not a JSON array, otherwise the `"commit"` field of each
/// element when that field is a string.
pub uninterp spec fn describe_json(bytes: Seq<u8>) -> Option<Seq<Option<Seq<char>>>>;

pub open spec fn describe_view(r: Option<Vec<Option<String>>>) -> Option<Seq<Option<Seq<char>>>> {
    match r {
        Some(v) => Some(
            v@.map_values(
                |c: Option<String>|
                    match c {
                        Some(s) => Some(s@),
                        None => None,
                    },
            ),
        ),
        None => None,
    }
}

/// `serde_json::from_slice` into a JSON value, then `as_array` and, for
/// each element, its `"commit"` field as a string: the result is named
/// `describe_json` of the bytes.
#[verifier::external_body]
pub fn parse_describe_json(bytes: &[u8]) -> (r: Option<Vec<Option<String>>>)
    ensures
        describe_view(r) == describe_json(bytes@),
{
    let value: serde_json::Value = serde_json::from_slice(bytes).ok()?;
    let items = value.as_array()?;
    Some(items.iter().map(|e| e.get("commit").and_then(|c| c.as_str()).map(String::from)).collect())
}

/// The commit `guix describe` reports: the `"commit"` string of the first
/// channel, when the command succeeded and printed a nonempty JSON array
/// of at most `MAX_DESCRIBE_BYTES` bytes.
pub open spec fn describe_commit_of(output: Seq<u8>, exit_ok: bool) -> Option<Seq<char>> {
    if exit_ok && 0 < output.len() <= MAX_DESCRIBE_BYTES {
        match describe_json(output) {
            Some(v) => if v.len() > 0 {
                v[0]
            } else {
                None
            },
            None => None,
        }
    } else {
        None
    }
}

/// Read the active channel commit from the output of `guix describe
/// --format=json` and whether the command exited successfully.
pub fn commit_from_describe(output: &[u8], exit_ok: bool) -> (r: Option<String>)
    ensures
        r is Some <==> (exit_ok && 0 < output@.len() <= MAX_DESCRIBE_BYTES && (describe_json(output@) matches Some(v) && v.len() > 0 && v[0] is Some)),
        match r {
            Some(s) => describe_commit_of(output@, exit_ok) == Some(s@),
            None => describe_commit_of(output@, exit_ok) is None,
        },
{
    if !exit_ok || output.len() == 0 || output.len() > MAX_DESCRIBE_BYTES {
        return None;
    }
    let parsed = parse_describe_json(output);
    match parsed {
        None => None,
        Some(mut v) => {
            if v.len() == 0 {
                return None;
            }
            let ghost dv = describe_view(Some(v));
            assert(dv->0[0] == match v@[0] {
                Some(s) => Some(s@),
                None => None::<Seq<char>>,
            });
            v.swap_remove(0)
        },
    }
}

} // verus!
