//! Building an index: the checks a package list, its diagnostics and its
//! origin must pass, and the canonical index derived from them.

use sha2::Digest;
use vstd::prelude::*;

use crate::blob::{diags_view, encode_parts, packages_view, payload};
use crate::index::{
    clean_package, clean_pkg, dedup, dedup_ids, index_wf, lemma_dedup, typed_seq, Index, IndexError, IndexView, LimitKind,
    Package, PackageView, MAX_CHANNELS, MAX_EDGES, MAX_INDEX_ENTRIES,
};
use crate::model::{
    empty_origin, origin_is_verified, strings_view, ChannelPin, ChannelView, DiagView, DocView, GuixOrigin,
    IndexDiagnostic, IndexDoc, OriginView, PkgJson, PkgJsonView, SCHEMA_VERSION,
};
use crate::order::{
    chars_lt, lemma_seq_lt_irreflexive, lemma_seq_lt_total, lemma_seq_lt_transitive, seq_lt,
    sorted_list, strict_total, strictly_sorted,
};
use crate::text::{
    chars_of, clean, clean_text, decimal_u64, is_clean, parse_decimal_u64, push_char, str_eq,
};

verus! {

/// Some dependency list exceeds its limit.
pub open spec fn edges_too_long(p: PackageView) -> bool {
    p.inputs.len() > MAX_EDGES || p.propagated.len() > MAX_EDGES || p.native.len() > MAX_EDGES
}

/// The first id of a list that does not name one of `len` packages.
pub open spec fn first_out_of_range(s: Seq<u32>, len: usize) -> Option<u32>
    decreases s.len(),
{
    if s.len() == 0 {
        None
    } else if s[0] >= len {
        Some(s[0])
    } else {
        first_out_of_range(s.drop_first(), len)
    }
}

/// The error the first package with a given id is rejected for, if any.
pub open spec fn pkg_err(p: PackageView, len: usize) -> Option<IndexError> {
    if edges_too_long(p) {
        Some(IndexError::Limit(LimitKind::Dependencies))
    } else if p.id >= len {
        Some(IndexError::IdOutOfRange(p.id, len))
    } else if p.name.len() == 0 {
        Some(IndexError::EmptyName(p.id))
    } else {
        match first_out_of_range(typed_seq(clean_pkg(p)), len) {
            Some(d) => Some(IndexError::IdOutOfRange(d, len)),
            None => None,
        }
    }
}

/// Positions (in input order) among the first `n` packages that carry `id`.
pub open spec fn group_upto(ps: Seq<PackageView>, id: u32, n: int) -> Seq<int>
    decreases n,
{
    if n <= 0 {
        Seq::empty()
    } else {
        let g = group_upto(ps, id, n - 1);
        if ps[n - 1].id == id {
            g.push(n - 1)
        } else {
            g
        }
    }
}

pub open spec fn group(ps: Seq<PackageView>, id: u32) -> Seq<int> {
    group_upto(ps, id, ps.len() as int)
}

/// Packages are checked in id order; among equal ids, in input order. The
/// first package of an id gets every check, a second one is a duplicate.
pub open spec fn group_err(ps: Seq<PackageView>, id: u32) -> Option<IndexError> {
    let g = group(ps, id);
    let len = ps.len() as usize;
    if g.len() == 0 {
        None
    } else if pkg_err(ps[g[0]], len) is Some {
        pkg_err(ps[g[0]], len)
    } else if g.len() >= 2 {
        if edges_too_long(ps[g[1]]) {
            Some(IndexError::Limit(LimitKind::Dependencies))
        } else {
            Some(IndexError::DuplicateId(id))
        }
    } else {
        None
    }
}

/// The first error over the ids `k..len`.
pub open spec fn groups_err(ps: Seq<PackageView>, k: int) -> Option<IndexError>
    decreases ps.len() - k,
{
    if k >= ps.len() || k < 0 {
        None
    } else if group_err(ps, k as u32) is Some {
        group_err(ps, k as u32)
    } else {
        groups_err(ps, k + 1)
    }
}

/// Position of the first package, in input order, with the smallest id that
/// does not name a package.
pub open spec fn tail_min(ps: Seq<PackageView>, n: int) -> Option<int>
    decreases n,
{
    if n <= 0 {
        None
    } else {
        let t = tail_min(ps, n - 1);
        if ps[n - 1].id >= ps.len() && (t is None || ps[n - 1].id < ps[t->0].id) {
            Some(n - 1)
        } else {
            t
        }
    }
}

/// The error the package list is rejected for, if any.
pub open spec fn packages_error(ps: Seq<PackageView>) -> Option<IndexError> {
    match groups_err(ps, 0) {
        Some(e) => Some(e),
        None => match tail_min(ps, ps.len() as int) {
            Some(i) => Some(
                if edges_too_long(ps[i]) {
                    IndexError::Limit(LimitKind::Dependencies)
                } else {
                    IndexError::IdOutOfRange(ps[i].id, ps.len() as usize)
                },
            ),
            None => None,
        },
    }
}

/// What `group_upto` lists: increasing positions below `n`, each carrying
/// `id`, and every such position.
pub proof fn lemma_group_upto(ps: Seq<PackageView>, id: u32, n: int)
    requires
        0 <= n <= ps.len(),
    ensures
        forall|m: int|
            0 <= m < group_upto(ps, id, n).len() ==> 0 <= #[trigger] group_upto(ps, id, n)[m] < n
                && ps[group_upto(ps, id, n)[m]].id == id,
        forall|a: int, b: int|
            0 <= a < b < group_upto(ps, id, n).len() ==> #[trigger] group_upto(ps, id, n)[a]
                < #[trigger] group_upto(ps, id, n)[b],
        forall|p: int| 0 <= p < n && ps[p].id == id ==> #[trigger] group_upto(ps, id, n).contains(p),
    decreases n,
{
    if n > 0 {
        lemma_group_upto(ps, id, n - 1);
        let g = group_upto(ps, id, n - 1);
        assert forall|p: int| 0 <= p < n && ps[p].id == id implies group_upto(ps, id, n).contains(p) by {
            if p < n - 1 {
                assert(g.contains(p));
                let m = choose|m: int| 0 <= m < g.len() && g[m] == p;
                assert(group_upto(ps, id, n)[m] == p);
            } else {
                assert(group_upto(ps, id, n) == g.push(n - 1));
                assert(group_upto(ps, id, n)[g.len() as int] == p);
            }
        }
    }
}

/// The slot of the `m`-th listed position, or `none` when there is none.
pub open spec fn slot(g: Seq<int>, m: int, none: usize) -> usize {
    if g.len() > m {
        g[m] as usize
    } else {
        none
    }
}

pub proof fn lemma_tail_min_none(ps: Seq<PackageView>, n: int)
    requires
        0 <= n <= ps.len(),
        tail_min(ps, n) is None,
    ensures
        forall|i: int| 0 <= i < n ==> (#[trigger] ps[i].id as int) < ps.len(),
    decreases n,
{
    if n > 0 {
        lemma_tail_min_none(ps, n - 1);
    }
}

/// When every id names a package and no id is carried twice, every id is
/// carried exactly once.
pub proof fn lemma_groups_full(ps: Seq<PackageView>)
    requires
        ps.len() <= MAX_INDEX_ENTRIES,
        forall|i: int| 0 <= i < ps.len() ==> (#[trigger] ps[i].id as int) < ps.len(),
        forall|k: int| 0 <= k < ps.len() ==> #[trigger] group(ps, k as u32).len() <= 1,
    ensures
        forall|k: int| 0 <= k < ps.len() ==> #[trigger] group(ps, k as u32).len() == 1,
{
    let n = ps.len() as int;
    let s = Seq::new(ps.len(), |i: int| ps[i].id as int);
    assert forall|i: int, j: int| 0 <= i < n && 0 <= j < n && i != j implies s[i] != s[j] by {
        if s[i] == s[j] {
            let id = ps[i].id;
            let k = id as int;
            assert((ps[i].id as int) < n);
            assert((k as u32) == id);
            lemma_group_upto(ps, id, n);
            let g = group(ps, id);
            assert(g.len() <= 1);
            assert(g.contains(i));
            assert(g.contains(j));
            let a = choose|a: int| 0 <= a < g.len() && g[a] == i;
            let b = choose|b: int| 0 <= b < g.len() && g[b] == j;
        }
    }
    s.unique_seq_to_set();
    vstd::set_lib::lemma_int_range(0, n);
    assert forall|x: int| s.to_set().contains(x) implies vstd::set_lib::set_int_range(0, n).contains(x) by {
        let i = choose|i: int| 0 <= i < s.len() && s[i] == x;
        assert((ps[i].id as int) < n);
    }
    vstd::set_lib::lemma_subset_equality(s.to_set(), vstd::set_lib::set_int_range(0, n));
    assert forall|k: int| 0 <= k < n implies #[trigger] group(ps, k as u32).len() == 1 by {
        assert(vstd::set_lib::set_int_range(0, n).contains(k));
        assert(s.to_set().contains(k));
        let i = choose|i: int| 0 <= i < s.len() && s[i] == k;
        lemma_group_upto(ps, k as u32, n);
        assert(group(ps, k as u32).contains(i));
    }
}

/// Runs the package checks in id order and, when they pass, gives for every
/// id the position of the package that carries it.
#[verifier::spinoff_prover]
#[verifier::rlimit(30)]
fn check_packages(ps: &Vec<Package>) -> (r: Result<Vec<usize>, IndexError>)
    requires
        ps@.len() <= MAX_INDEX_ENTRIES,
    ensures
        match r {
            Err(e) => packages_error(packages_view(ps@)) == Some(e),
            Ok(first) => {
                &&& packages_error(packages_view(ps@)) is None
                &&& first@.len() == ps@.len()
                &&& forall|k: int| 0 <= k < ps@.len() ==> #[trigger] first@[k] < ps@.len()
                &&& forall|k: int|
                    0 <= k < ps@.len() ==> #[trigger] group(packages_view(ps@), k as u32) == seq![
                        first@[k] as int,
                    ]
            },
        },
{
    let n = ps.len();
    let ghost pv = packages_view(ps@);
    let mut first: Vec<usize> = Vec::new();
    let mut second: Vec<usize> = Vec::new();
    let mut k: usize = 0;
    while k < n
        invariant
            k <= n,
            first@.len() == k,
            second@.len() == k,
            forall|j: int| 0 <= j < k ==> #[trigger] first@[j] == n && second@[j] == n,
        decreases n - k,
    {
        first.push(n);
        second.push(n);
        k += 1;
    }
    let mut tail: usize = n;
    let mut i: usize = 0;
    while i < n
        invariant
            n == ps@.len(),
            pv == packages_view(ps@),
            n <= MAX_INDEX_ENTRIES,
            i <= n,
            first@.len() == n,
            second@.len() == n,
            forall|k: int|
                0 <= k < n ==> #[trigger] first@[k] == slot(group_upto(pv, k as u32, i as int), 0, n)
                    && second@[k] == slot(group_upto(pv, k as u32, i as int), 1, n),
            tail <= n,
            tail == n ==> tail_min(pv, i as int) is None,
            tail < n ==> tail < i && tail_min(pv, i as int) == Some(tail as int),
        decreases n - i,
    {
        let id = ps[i].id;
        let ghost old_first = first@;
        let ghost old_second = second@;
        proof {
            lemma_group_upto(pv, id, i as int);
        }
        if (id as usize) < n {
            let u = id as usize;
            if first[u] == n {
                first.set(u, i);
            } else if second[u] == n {
                second.set(u, i);
            }
        } else if tail == n || id < ps[tail].id {
            tail = i;
        }
        proof {
            assert forall|k: int| 0 <= k < n implies #[trigger] first@[k] == slot(
                group_upto(pv, k as u32, i + 1),
                0,
                n,
            ) && second@[k] == slot(group_upto(pv, k as u32, i + 1), 1, n) by {
                assert(old_first[k] == slot(group_upto(pv, k as u32, i as int), 0, n));
                assert(old_second[k] == slot(group_upto(pv, k as u32, i as int), 1, n));
                if (k as u32) == id {
                    assert(k == id as int);
                    assert(group_upto(pv, k as u32, i + 1) == group_upto(pv, k as u32, i as int).push(
                        i as int,
                    ));
                } else {
                    assert(group_upto(pv, k as u32, i + 1) == group_upto(pv, k as u32, i as int));
                }
            }
        }
        i += 1;
    }
    assert forall|k: int| 0 <= k < n implies #[trigger] first@[k] == slot(group(pv, k as u32), 0, n)
        && second@[k] == slot(group(pv, k as u32), 1, n) by {
        assert(pv.len() == n);
        assert(first@[k] == slot(group_upto(pv, k as u32, n as int), 0, n));
    }
    let mut k: usize = 0;
    while k < n
        invariant
            n == ps@.len(),
            pv == packages_view(ps@),
            n <= MAX_INDEX_ENTRIES,
            k <= n,
            first@.len() == n,
            second@.len() == n,
            forall|k: int|
                0 <= k < n ==> #[trigger] first@[k] == slot(group(pv, k as u32), 0, n)
                    && second@[k] == slot(group(pv, k as u32), 1, n),
            forall|j: int| 0 <= j < k ==> #[trigger] group(pv, j as u32).len() <= 1,
            groups_err(pv, 0) == groups_err(pv, k as int),
        decreases n - k,
    {
        let f = first[k];
        let s = second[k];
        proof {
            lemma_group_upto(pv, k as u32, n as int);
            assert(first@[k as int] == slot(group(pv, k as u32), 0, n));
            assert(second@[k as int] == slot(group(pv, k as u32), 1, n));
        }
        if f < n {
            match package_error(&ps[f], n) {
                Some(e) => {
                    return Err(e);
                },
                None => {},
            }
            if s < n {
                let q = &ps[s];
                if q.inputs.len() > MAX_EDGES || q.propagated.len() > MAX_EDGES || q.native.len()
                    > MAX_EDGES {
                    return Err(IndexError::Limit(LimitKind::Dependencies));
                }
                return Err(IndexError::DuplicateId(k as u32));
            }
        }
        k += 1;
    }
    if tail < n {
        let q = &ps[tail];
        if q.inputs.len() > MAX_EDGES || q.propagated.len() > MAX_EDGES || q.native.len() > MAX_EDGES {
            return Err(IndexError::Limit(LimitKind::Dependencies));
        }
        return Err(IndexError::IdOutOfRange(q.id, n));
    }
    proof {
        lemma_tail_min_none(pv, n as int);
        lemma_groups_full(pv);
        assert forall|k: int| 0 <= k < n implies #[trigger] group(pv, k as u32) == seq![
            first@[k] as int,
        ] by {
            assert(first@[k] == slot(group(pv, k as u32), 0, n));
            lemma_group_upto(pv, k as u32, n as int);
            assert(group(pv, k as u32) =~= seq![first@[k] as int]);
            assert(group(pv, k as u32)[0] < n);
        }
        assert forall|k: int| 0 <= k < n implies #[trigger] first@[k] < n by {
            assert(group(pv, k as u32) == seq![first@[k] as int]);
            lemma_group_upto(pv, k as u32, n as int);
            assert(group(pv, k as u32)[0] < n);
        }
    }
    Ok(first)
}

/// The first diagnostic that names no package.
pub open spec fn diag_error(ds: Seq<DiagView>, len: usize) -> Option<IndexError>
    decreases ds.len(),
{
    if ds.len() == 0 {
        None
    } else if ds[0].package_id >= len {
        Some(IndexError::IdOutOfRange(ds[0].package_id, len))
    } else {
        diag_error(ds.drop_first(), len)
    }
}

pub open spec fn clean_diag(d: DiagView) -> DiagView {
    DiagView {
        package_id: d.package_id,
        kind: clean(d.kind, false),
        code: clean(d.code, false),
        message: clean(d.message, false),
    }
}

/// Order of channels: by name, then by commit.
pub open spec fn channel_lt(a: ChannelView, b: ChannelView) -> bool {
    seq_lt(a.0, b.0) || (a.0 == b.0 && seq_lt(a.1, b.1))
}

pub open spec fn channel_order() -> spec_fn(ChannelView, ChannelView) -> bool {
    |a: ChannelView, b: ChannelView| channel_lt(a, b)
}

pub proof fn lemma_channel_order()
    ensures
        strict_total(channel_order()),
{
    let lt = channel_order();
    assert forall|a: ChannelView| !#[trigger] lt(a, a) by {
        lemma_seq_lt_irreflexive(a.0);
        lemma_seq_lt_irreflexive(a.1);
    }
    assert forall|a: ChannelView, b: ChannelView, c: ChannelView|
        #[trigger] lt(a, b) && #[trigger] lt(b, c) implies lt(a, c) by {
        if seq_lt(a.0, b.0) && seq_lt(b.0, c.0) {
            lemma_seq_lt_transitive(a.0, b.0, c.0);
        } else if seq_lt(a.0, b.0) {
        } else if seq_lt(b.0, c.0) {
        } else {
            lemma_seq_lt_transitive(a.1, b.1, c.1);
        }
    }
    assert forall|a: ChannelView, b: ChannelView| a != b implies #[trigger] lt(a, b) || lt(b, a) by {
        if a.0 != b.0 {
            lemma_seq_lt_total(a.0, b.0);
        } else {
            lemma_seq_lt_total(a.1, b.1);
        }
    }
}

pub open spec fn clean_channel(c: ChannelView) -> ChannelView {
    (clean(c.0, false), clean(c.1, false))
}

/// No identifying text of an origin needs cleaning.
pub open spec fn origin_texts_clean(o: OriginView) -> bool {
    &&& is_clean(o.executable, false)
    &&& is_clean(o.system, false)
    &&& forall|i: int|
        0 <= i < o.channels.len() ==> is_clean((#[trigger] o.channels[i]).0, false) && is_clean(
            o.channels[i].1,
            false,
        )
}

/// The canonical form of an origin: clean texts, channels sorted without
/// repetition, and `verified` only when a cleaned text did not change and
/// the origin is complete.
pub open spec fn canon_origin(o: OriginView) -> OriginView {
    let o1 = OriginView {
        executable: clean(o.executable, false),
        system: clean(o.system, false),
        channels: sorted_list(o.channels.map_values(|c: ChannelView| clean_channel(c)).to_set(), channel_order()),
        verified: o.verified && origin_texts_clean(o),
        mutable_package_path: o.mutable_package_path,
    };
    OriginView { verified: origin_is_verified(o1), ..o1 }
}

pub open spec fn pins_view(v: Seq<ChannelPin>) -> Seq<ChannelView> {
    v.map_values(|c: ChannelPin| c@)
}

/// Exec form of `channel_lt` against a channel given with its characters.
fn channel_before(a: &ChannelPin, b: &ChannelPin, bn: &[char], bc: &[char]) -> (r: bool)
    requires
        bn@ == b.name@,
        bc@ == b.commit@,
    ensures
        r == channel_lt(a@, b@),
{
    let an = chars_of(a.name.as_str());
    if chars_lt(an.as_slice(), bn) {
        return true;
    }
    if !str_eq(a.name.as_str(), b.name.as_str()) {
        return false;
    }
    let ac = chars_of(a.commit.as_str());
    chars_lt(ac.as_slice(), bc)
}

/// Insert a channel into a strictly sorted list unless it is already there.
pub(crate) fn insert_channel(chans: &mut Vec<ChannelPin>, c: ChannelPin)
    requires
        strictly_sorted(pins_view(old(chans)@), channel_order()),
    ensures
        strictly_sorted(pins_view(final(chans)@), channel_order()),
        pins_view(final(chans)@).to_set() == pins_view(old(chans)@).to_set().insert(c@),
        final(chans)@.len() <= old(chans)@.len() + 1,
{
    proof {
        lemma_channel_order();
    }
    let ghost lt = channel_order();
    let ghost v0 = pins_view(chans@);
    let cn = chars_of(c.name.as_str());
    let cc = chars_of(c.commit.as_str());
    let mut p: usize = 0;
    while p < chans.len() && channel_before(&chans[p], &c, cn.as_slice(), cc.as_slice())
        invariant
            v0 == pins_view(chans@),
            p <= chans@.len(),
            cn@ == c.name@,
            cc@ == c.commit@,
            forall|q: int| 0 <= q < p ==> #[trigger] channel_lt(v0[q], c@),
        decreases chans@.len() - p,
    {
        p += 1;
    }
    if p < chans.len() && str_eq(chans[p].name.as_str(), c.name.as_str()) && str_eq(
        chans[p].commit.as_str(),
        c.commit.as_str(),
    ) {
        assert(v0[p as int] == c@);
        assert(v0.to_set().insert(c@) =~= v0.to_set());
        return;
    }
    let ghost cv = c@;
    proof {
        if p < v0.len() {
            assert(!channel_lt(v0[p as int], cv));
            assert(v0[p as int] != cv);
            assert(lt(cv, v0[p as int]) || lt(v0[p as int], cv));
            assert(channel_lt(cv, v0[p as int]));
        }
    }
    chans.insert(p, c);
    proof {
        let v1 = pins_view(chans@);
        assert(v1 =~= v0.insert(p as int, cv));
        assert forall|i: int, j: int| 0 <= i < j < v1.len() implies #[trigger] lt(v1[i], v1[j]) by {
            if j < p {
                assert(lt(v0[i], v0[j]));
            } else if j == p {
                assert(channel_lt(v0[i], cv));
            } else if i < p {
                assert(channel_lt(v0[i], cv));
                assert(channel_lt(cv, v0[p as int]));
                if j - 1 > p {
                    assert(lt(v0[p as int], v0[j - 1]));
                }
                assert(lt(v0[i], cv));
                assert(lt(cv, v0[j - 1]));
            } else if i == p {
                if j - 1 > p {
                    assert(lt(v0[p as int], v0[j - 1]));
                }
                assert(lt(cv, v0[p as int]));
            } else {
                assert(lt(v0[i - 1], v0[j - 1]));
            }
        }
        assert forall|x: ChannelView| v1.to_set().contains(x) <==> v0.to_set().insert(cv).contains(x) by {
            if v1.to_set().contains(x) {
                let i = choose|i: int| 0 <= i < v1.len() && v1[i] == x;
                if i < p {
                    assert(v0[i] == x);
                } else if i > p {
                    assert(v0[i - 1] == x);
                }
            }
            if v0.to_set().contains(x) {
                let i = choose|i: int| 0 <= i < v0.len() && v0[i] == x;
                if i < p {
                    assert(v1[i] == x);
                } else {
                    assert(v1[i + 1] == x);
                }
            }
            if x == cv {
                assert(v1[p as int] == x);
            }
        }
        assert(v1.to_set() =~= v0.to_set().insert(cv));
    }
}

/// The canonical form of an origin, as `canon_origin` describes it.
pub(crate) fn canonical_origin(o: &GuixOrigin) -> (r: GuixOrigin)
    ensures
        r@ == canon_origin(o@),
{
    let exe = clean_text(o.executable.as_str(), false);
    let sys = clean_text(o.system.as_str(), false);
    let mut texts_clean = str_eq(exe.as_str(), o.executable.as_str()) && str_eq(
        sys.as_str(),
        o.system.as_str(),
    );
    let ghost cleaned = o@.channels.map_values(|c: ChannelView| clean_channel(c));
    let mut chans: Vec<ChannelPin> = Vec::new();
    let mut i: usize = 0;
    while i < o.channels.len()
        invariant
            i <= o.channels@.len(),
            cleaned == o@.channels.map_values(|c: ChannelView| clean_channel(c)),
            exe@ == clean(o.executable@, false),
            sys@ == clean(o.system@, false),
            texts_clean == (is_clean(o@.executable, false) && is_clean(o@.system, false) && forall|q: int|
                0 <= q < i ==> is_clean((#[trigger] o@.channels[q]).0, false) && is_clean(
                    o@.channels[q].1,
                    false,
                )),
            strictly_sorted(pins_view(chans@), channel_order()),
            pins_view(chans@).to_set() == cleaned.take(i as int).to_set(),
        decreases o.channels@.len() - i,
    {
        let c = &o.channels[i];
        assert(o@.channels[i as int] == c@);
        let name = clean_text(c.name.as_str(), false);
        let commit = clean_text(c.commit.as_str(), false);
        let same = str_eq(name.as_str(), c.name.as_str()) && str_eq(commit.as_str(), c.commit.as_str());
        let ghost was_clean = texts_clean;
        texts_clean = texts_clean && same;
        proof {
            assert(texts_clean == (is_clean(o@.executable, false) && is_clean(o@.system, false)
                && forall|q: int|
                0 <= q < i + 1 ==> is_clean((#[trigger] o@.channels[q]).0, false) && is_clean(
                    o@.channels[q].1,
                    false,
                ))) by {
                if was_clean && !same {
                    assert(!(is_clean(o@.channels[i as int].0, false) && is_clean(o@.channels[i as int].1, false)));
                }
            }
        }
        let pin = ChannelPin { name, commit };
        assert(pin@ == cleaned[i as int]);
        insert_channel(&mut chans, pin);
        proof {
            assert(cleaned.take(i + 1) =~= cleaned.take(i as int).push(cleaned[i as int]));
            cleaned.take(i as int).lemma_push_to_set_commute(cleaned[i as int]);
        }
        i += 1;
    }
    proof {
        lemma_channel_order();
        assert(cleaned.take(o@.channels.len() as int) =~= cleaned);
        crate::order::lemma_sorted_list_of(pins_view(chans@), channel_order());
    }
    let mut r = GuixOrigin {
        executable: exe,
        system: sys,
        channels: chans,
        verified: o.verified && texts_clean,
        mutable_package_path: o.mutable_package_path,
    };
    assert(r@.channels == pins_view(r.channels@));
    let v = r.is_verified();
    r.verified = v;
    r
}

/// Ids of the packages among the first `n` that depend on `id`, ascending.
pub open spec fn dependents_upto(pk: Seq<PackageView>, id: u32, n: int) -> Seq<u32>
    decreases n,
{
    if n <= 0 {
        Seq::empty()
    } else {
        let d = dependents_upto(pk, id, n - 1);
        if typed_seq(pk[n - 1]).contains(id) {
            d.push((n - 1) as u32)
        } else {
            d
        }
    }
}


pub open spec fn first_out_of_range_concat_holds(a: Seq<u32>, b: Seq<u32>, len: usize) -> bool {
    first_out_of_range(a + b, len) == (if first_out_of_range(a, len) is Some {
        first_out_of_range(a, len)
    } else {
        first_out_of_range(b, len)
    })
}

pub proof fn lemma_first_out_of_range_concat(a: Seq<u32>, b: Seq<u32>, len: usize)
    ensures
        first_out_of_range_concat_holds(a, b, len),
    decreases a.len(),
{
    if a.len() == 0 {
        assert(a + b =~= b);
    } else {
        assert((a + b).drop_first() =~= a.drop_first() + b);
        lemma_first_out_of_range_concat(a.drop_first(), b, len);
    }
}

/// The first id of a list that does not name one of `len` packages.
fn first_out_of_range_exec(s: &[u32], len: usize) -> (r: Option<u32>)
    ensures
        r == first_out_of_range(s@, len),
{
    let mut i: usize = 0;
    assert(s@.skip(0) =~= s@);
    while i < s.len()
        invariant
            i <= s@.len(),
            first_out_of_range(s@, len) == first_out_of_range(s@.skip(i as int), len),
        decreases s@.len() - i,
    {
        assert(s@.skip(i as int)[0] == s@[i as int]);
        if (s[i] as usize) >= len {
            return Some(s[i]);
        }
        assert(s@.skip(i as int).drop_first() =~= s@.skip(i + 1));
        i += 1;
    }
    None
}


/// The error the first package with its id would be rejected for.
fn package_error(p: &Package, len: usize) -> (r: Option<IndexError>)
    ensures
        r == pkg_err(p@, len),
{
    if p.inputs.len() > MAX_EDGES || p.propagated.len() > MAX_EDGES || p.native.len() > MAX_EDGES {
        return Some(IndexError::Limit(LimitKind::Dependencies));
    }
    if (p.id as usize) >= len {
        return Some(IndexError::IdOutOfRange(p.id, len));
    }
    if p.name.as_str().is_empty() {
        return Some(IndexError::EmptyName(p.id));
    }
    let a = dedup_ids(p.inputs.as_slice());
    let b = dedup_ids(p.propagated.as_slice());
    let c = dedup_ids(p.native.as_slice());
    proof {
        lemma_first_out_of_range_concat(a@ + b@, c@, len);
        lemma_first_out_of_range_concat(a@, b@, len);
    }
    let fa = first_out_of_range_exec(a.as_slice(), len);
    let found = match fa {
        Some(d) => Some(d),
        None => {
            let fb = first_out_of_range_exec(b.as_slice(), len);
            match fb {
                Some(d) => Some(d),
                None => first_out_of_range_exec(c.as_slice(), len),
            }
        },
    };
    match found {
        Some(d) => Some(IndexError::IdOutOfRange(d, len)),
        None => None,
    }
}


/// The packages of a built index: for every id, the package carrying it,
/// with terminal-safe texts and repetition-free dependency lists.
pub open spec fn built_packages(ps: Seq<PackageView>) -> Seq<PackageView> {
    Seq::new(ps.len(), |k: int| clean_pkg(ps[group(ps, k as u32)[0]]))
}

/// The reverse edges of a package list: for every id, its dependents.
pub open spec fn built_dependents(pk: Seq<PackageView>) -> Seq<Seq<u32>> {
    Seq::new(pk.len(), |d: int| dependents_upto(pk, d as u32, pk.len() as int))
}

/// What building an index from its parts gives: the first error in the
/// order the checks run, or the canonical index.
pub open spec fn from_parts_result(
    ps: Seq<PackageView>,
    commit: Seq<char>,
    generated_ms: u64,
    built_ms: u64,
    ds: Seq<DiagView>,
    o: OriginView,
) -> Result<IndexView, IndexError> {
    let n = ps.len();
    if n > MAX_INDEX_ENTRIES || ds.len() > MAX_INDEX_ENTRIES {
        Err(IndexError::Limit(LimitKind::IndexEntries))
    } else if packages_error(ps) is Some {
        Err(packages_error(ps)->0)
    } else if diag_error(ds, n as usize) is Some {
        Err(diag_error(ds, n as usize)->0)
    } else if o.channels.len() > MAX_CHANNELS {
        Err(IndexError::Limit(LimitKind::Channels))
    } else {
        let pk = built_packages(ps);
        let c = clean(commit, false);
        let cds = ds.map_values(|d: DiagView| clean_diag(d));
        let co = canon_origin(o);
        Ok(
            IndexView {
                packages: pk,
                dependents: built_dependents(pk),
                guix_commit: c,
                generated_ms,
                built_ms,
                diagnostics: cds,
                origin: co,
                snapshot: hex_lower(sha256_digest(payload(pk, c, generated_ms, co, cds))),
            },
        )
    }
}

pub open spec fn result_view(r: Result<Index, IndexError>) -> Result<IndexView, IndexError> {
    match r {
        Ok(index) => Ok(index@),
        Err(e) => Err(e),
    }
}

proof fn lemma_first_out_of_range_none(s: Seq<u32>, len: usize)
    requires
        first_out_of_range(s, len) is None,
    ensures
        forall|m: int| 0 <= m < s.len() ==> (#[trigger] s[m]) < len,
    decreases s.len(),
{
    if s.len() > 0 {
        lemma_first_out_of_range_none(s.drop_first(), len);
        assert forall|m: int| 0 <= m < s.len() implies (#[trigger] s[m]) < len by {
            if m > 0 {
                assert(s[m] == s.drop_first()[m - 1]);
            }
        }
    }
}

pub proof fn lemma_groups_err_none(ps: Seq<PackageView>, k: int)
    requires
        0 <= k,
        groups_err(ps, k) is None,
    ensures
        forall|j: int| k <= j < ps.len() ==> (#[trigger] group_err(ps, j as u32)) is None,
    decreases ps.len() - k,
{
    if k < ps.len() {
        lemma_groups_err_none(ps, k + 1);
    }
}

/// In a list that passed the checks, package `k` carries id `k` and names
/// only packages of the list.
pub proof fn lemma_built_packages(ps: Seq<PackageView>)
    requires
        ps.len() <= MAX_INDEX_ENTRIES,
        packages_error(ps) is None,
        forall|k: int| 0 <= k < ps.len() ==> #[trigger] group(ps, k as u32).len() == 1,
    ensures
        forall|k: int| 0 <= k < ps.len() ==> (#[trigger] built_packages(ps)[k]).id == k,
        forall|k: int, m: int|
            0 <= k < ps.len() && 0 <= m < typed_seq(built_packages(ps)[k]).len() ==> (#[trigger] typed_seq(
                built_packages(ps)[k],
            )[m]) < ps.len(),
{
    let n = ps.len();
    lemma_groups_err_none(ps, 0);
    assert forall|k: int| 0 <= k < n implies (#[trigger] built_packages(ps)[k]).id == k by {
        lemma_group_upto(ps, k as u32, n as int);
        assert(group(ps, k as u32).len() == 1);
        let g0 = group(ps, k as u32)[0];
        assert(ps[g0].id == k as u32);
    }
    assert forall|k: int, m: int|
        0 <= k < n && 0 <= m < typed_seq(built_packages(ps)[k]).len() implies (#[trigger] typed_seq(
            built_packages(ps)[k],
        )[m]) < n by {
        assert(group_err(ps, k as u32) is None);
        let g0 = group(ps, k as u32)[0];
        assert(pkg_err(ps[g0], n as usize) is None);
        lemma_first_out_of_range_none(typed_seq(clean_pkg(ps[g0])), n as usize);
    }
}

pub proof fn lemma_dependents_upto(pk: Seq<PackageView>, id: u32, n: int)
    requires
        0 <= n <= pk.len() <= MAX_INDEX_ENTRIES,
    ensures
        forall|m: int| 0 <= m < dependents_upto(pk, id, n).len() ==> (#[trigger] dependents_upto(pk, id, n)[m]) < n,
        forall|a: int, b: int|
            0 <= a < b < dependents_upto(pk, id, n).len() ==> (#[trigger] dependents_upto(pk, id, n)[a])
                < (#[trigger] dependents_upto(pk, id, n)[b]),
    decreases n,
{
    if n > 0 {
        lemma_dependents_upto(pk, id, n - 1);
        let d = dependents_upto(pk, id, n - 1);
        assert(((n - 1) as u32) as int == n - 1);
        assert forall|m: int| 0 <= m < dependents_upto(pk, id, n).len() implies (#[trigger] dependents_upto(
            pk,
            id,
            n,
        )[m]) < n by {
            if m < d.len() {
                assert(dependents_upto(pk, id, n)[m] == d[m]);
            }
        }
        assert forall|a: int, b: int|
            0 <= a < b < dependents_upto(pk, id, n).len() implies (#[trigger] dependents_upto(pk, id, n)[a])
                < (#[trigger] dependents_upto(pk, id, n)[b]) by {
            assert(dependents_upto(pk, id, n)[a] == d[a]);
            if b < d.len() {
                assert(dependents_upto(pk, id, n)[b] == d[b]);
            }
        }
    }
}

/// All typed relations of a package: inputs, then propagated, then native.
fn typed_ids(p: &Package) -> (r: Vec<u32>)
    ensures
        r@ == typed_seq(p@),
{
    let mut out: Vec<u32> = Vec::new();
    let mut i: usize = 0;
    while i < p.inputs.len()
        invariant
            i <= p.inputs@.len(),
            out@ == p.inputs@.take(i as int),
        decreases p.inputs@.len() - i,
    {
        out.push(p.inputs[i]);
        assert(p.inputs@.take(i + 1) =~= p.inputs@.take(i as int).push(p.inputs@[i as int]));
        i += 1;
    }
    let ghost a = p.inputs@;
    assert(a.take(a.len() as int) =~= a);
    let mut i: usize = 0;
    while i < p.propagated.len()
        invariant
            i <= p.propagated@.len(),
            out@ == a + p.propagated@.take(i as int),
        decreases p.propagated@.len() - i,
    {
        out.push(p.propagated[i]);
        assert(p.propagated@.take(i + 1) =~= p.propagated@.take(i as int).push(p.propagated@[i as int]));
        i += 1;
    }
    let ghost b = p.propagated@;
    assert(b.take(b.len() as int) =~= b);
    let mut i: usize = 0;
    while i < p.native.len()
        invariant
            i <= p.native@.len(),
            out@ == a + b + p.native@.take(i as int),
        decreases p.native@.len() - i,
    {
        out.push(p.native[i]);
        assert(p.native@.take(i + 1) =~= p.native@.take(i as int).push(p.native@[i as int]));
        i += 1;
    }
    assert(p.native@.take(p.native@.len() as int) =~= p.native@);
    out
}

/// The reverse edges of packages whose ids are their positions.
fn reverse_edges(pk: &Vec<Package>) -> (r: Vec<Vec<u32>>)
    requires
        pk@.len() <= MAX_INDEX_ENTRIES,
        forall|k: int, m: int|
            0 <= k < pk@.len() && 0 <= m < typed_seq(packages_view(pk@)[k]).len() ==> (#[trigger] typed_seq(
                packages_view(pk@)[k],
            )[m]) < pk@.len(),
    ensures
        r@.map_values(|d: Vec<u32>| d@) == built_dependents(packages_view(pk@)),
{
    let n = pk.len();
    let ghost pv = packages_view(pk@);
    let mut deps: Vec<Vec<u32>> = Vec::new();
    let mut k: usize = 0;
    while k < n
        invariant
            k <= n,
            deps@.len() == k,
            forall|d: int| 0 <= d < k ==> (#[trigger] deps@[d])@ == Seq::<u32>::empty(),
        decreases n - k,
    {
        deps.push(Vec::new());
        k += 1;
    }
    let mut j: usize = 0;
    while j < n
        invariant
            n == pk@.len(),
            n <= MAX_INDEX_ENTRIES,
            pv == packages_view(pk@),
            j <= n,
            deps@.len() == n,
            forall|k: int, m: int|
                0 <= k < n && 0 <= m < typed_seq(pv[k]).len() ==> (#[trigger] typed_seq(pv[k])[m]) < n,
            forall|d: int| 0 <= d < n ==> (#[trigger] deps@[d])@ == dependents_upto(pv, d as u32, j as int),
        decreases n - j,
    {
        let t = typed_ids(&pk[j]);
        assert(t@ == typed_seq(pv[j as int]));
        let mut m: usize = 0;
        while m < t.len()
            invariant
                n == pk@.len(),
                n <= MAX_INDEX_ENTRIES,
                pv == packages_view(pk@),
                j < n,
                m <= t@.len(),
                t@ == typed_seq(pv[j as int]),
                deps@.len() == n,
                forall|q: int| 0 <= q < t@.len() ==> (#[trigger] t@[q]) < n,
                forall|d: int|
                    0 <= d < n ==> (#[trigger] deps@[d])@ == dependents_upto(pv, d as u32, j as int) + (
                    if t@.take(m as int).contains(d as u32) {
                        seq![j as u32]
                    } else {
                        Seq::empty()
                    }),
            decreases t@.len() - m,
        {
            let x = t[m];
            let xi = x as usize;
            proof {
                lemma_dependents_upto(pv, x, j as int);
                assert(t@.take(m + 1) =~= t@.take(m as int).push(x));
            }
            let ghost before = deps@;
            let row_len = deps[xi].len();
            if row_len == 0 || deps[xi][row_len - 1] != j as u32 {
                proof {
                    if t@.take(m as int).contains(x) {
                        assert(deps@[xi as int]@.last() == j as u32);
                    }
                }
                deps[xi].push(j as u32);
            } else {
                proof {
                    if !t@.take(m as int).contains(x) {
                        let u = dependents_upto(pv, x, j as int);
                        assert(deps@[xi as int]@ == u);
                        assert(u[u.len() - 1] < j);
                    }
                }
            }
            proof {
                assert forall|d: int| 0 <= d < n implies (#[trigger] deps@[d])@ == dependents_upto(
                    pv,
                    d as u32,
                    j as int,
                ) + (if t@.take(m + 1).contains(d as u32) {
                    seq![j as u32]
                } else {
                    Seq::empty()
                }) by {
                    assert(before[d]@ == dependents_upto(pv, d as u32, j as int) + (if t@.take(
                        m as int,
                    ).contains(d as u32) {
                        seq![j as u32]
                    } else {
                        Seq::empty()
                    }));
                    crate::index::lemma_contains_push(t@.take(m as int), x, d as u32);
                    if d != xi {
                        assert((d as u32) != x);
                    }
                }
            }
            m += 1;
        }
        proof {
            assert(t@.take(t@.len() as int) =~= t@);
            assert forall|d: int| 0 <= d < n implies (#[trigger] deps@[d])@ == dependents_upto(
                pv,
                d as u32,
                j + 1,
            ) by {
                if t@.contains(d as u32) {
                    assert(dependents_upto(pv, d as u32, j + 1) == dependents_upto(pv, d as u32, j as int).push(
                        j as u32,
                    ));
                    assert(dependents_upto(pv, d as u32, j as int).push(j as u32) =~= dependents_upto(
                        pv,
                        d as u32,
                        j as int,
                    ) + seq![j as u32]);
                } else {
                    assert(dependents_upto(pv, d as u32, j as int) + Seq::<u32>::empty() =~= dependents_upto(
                        pv,
                        d as u32,
                        j as int,
                    ));
                }
            }
        }
        j += 1;
    }
    assert(deps@.map_values(|d: Vec<u32>| d@) =~= built_dependents(pv));
    deps
}

/// The first diagnostic that names no package.
fn check_diagnostics(ds: &Vec<IndexDiagnostic>, n: usize) -> (r: Option<IndexError>)
    ensures
        r == diag_error(diags_view(ds@), n),
{
    let ghost dv = diags_view(ds@);
    let mut i: usize = 0;
    assert(dv.skip(0) =~= dv);
    while i < ds.len()
        invariant
            dv == diags_view(ds@),
            i <= ds@.len(),
            diag_error(dv, n) == diag_error(dv.skip(i as int), n),
        decreases ds@.len() - i,
    {
        assert(dv.skip(i as int)[0] == ds@[i as int]@);
        if (ds[i].package_id as usize) >= n {
            return Some(IndexError::IdOutOfRange(ds[i].package_id, n));
        }
        assert(dv.skip(i as int).drop_first() =~= dv.skip(i + 1));
        i += 1;
    }
    None
}

/// Diagnostics with terminal-safe texts.
fn clean_diagnostics(ds: &Vec<IndexDiagnostic>) -> (r: Vec<IndexDiagnostic>)
    ensures
        diags_view(r@) == diags_view(ds@).map_values(|d: DiagView| clean_diag(d)),
{
    let mut out: Vec<IndexDiagnostic> = Vec::new();
    let mut i: usize = 0;
    while i < ds.len()
        invariant
            i <= ds@.len(),
            diags_view(out@) == diags_view(ds@.take(i as int)).map_values(|d: DiagView| clean_diag(d)),
        decreases ds@.len() - i,
    {
        let d = &ds[i];
        let c = IndexDiagnostic {
            package_id: d.package_id,
            kind: clean_text(d.kind.as_str(), false),
            code: clean_text(d.code.as_str(), false),
            message: clean_text(d.message.as_str(), false),
        };
        let ghost before = out@;
        out.push(c);
        assert(ds@.take(i + 1) =~= ds@.take(i as int).push(ds@[i as int]));
        assert(diags_view(out@) =~= diags_view(before).push(c@));
        assert(diags_view(ds@.take(i + 1)) =~= diags_view(ds@.take(i as int)).push(d@));
        assert(diags_view(out@) =~= diags_view(ds@.take(i + 1)).map_values(|d: DiagView| clean_diag(d)));
        i += 1;
    }
    assert(ds@.take(ds@.len() as int) =~= ds@);
    out
}

impl Index {
    /// Assemble an index from packages whose dependency lists hold ids:
    /// validate them, clean every text, derive the reverse edges, put the
    /// origin in canonical form and compute the content token.
    pub(crate) fn from_parts(
        packages: Vec<Package>,
        guix_commit: String,
        generated_ms: u64,
        built_ms: u64,
        diagnostics: Vec<IndexDiagnostic>,
        origin: GuixOrigin,
    ) -> (r: Result<Index, IndexError>)
        ensures
            result_view(r) == from_parts_result(
                packages_view(packages@),
                guix_commit@,
                generated_ms,
                built_ms,
                diags_view(diagnostics@),
                origin@,
            ),
            r matches Ok(ix) ==> is_token(ix@.snapshot),
    {
        let n = packages.len();
        if n > MAX_INDEX_ENTRIES || diagnostics.len() > MAX_INDEX_ENTRIES {
            return Err(IndexError::Limit(LimitKind::IndexEntries));
        }
        let ghost pv = packages_view(packages@);
        let first = match check_packages(&packages) {
            Err(e) => {
                return Err(e);
            },
            Ok(f) => f,
        };
        match check_diagnostics(&diagnostics, n) {
            Some(e) => {
                return Err(e);
            },
            None => {},
        }
        if origin.channels.len() > MAX_CHANNELS {
            return Err(IndexError::Limit(LimitKind::Channels));
        }
        let mut out: Vec<Package> = Vec::new();
        let mut k: usize = 0;
        while k < n
            invariant
                n == packages@.len(),
                pv == packages_view(packages@),
                first@.len() == n,
                forall|j: int| 0 <= j < n ==> #[trigger] first@[j] < n,
                forall|j: int| 0 <= j < n ==> #[trigger] group(pv, j as u32) == seq![first@[j] as int],
                k <= n,
                packages_view(out@) == built_packages(pv).take(k as int),
            decreases n - k,
        {
            let f = first[k];
            let c = clean_package(&packages[f]);
            assert(group(pv, k as u32) == seq![first@[k as int] as int]);
            let ghost before = out@;
            out.push(c);
            assert(packages_view(out@) =~= packages_view(before).push(c@));
            assert(built_packages(pv).take(k + 1) =~= built_packages(pv).take(k as int).push(
                built_packages(pv)[k as int],
            ));
            k += 1;
        }
        proof {
            assert(built_packages(pv).take(n as int) =~= built_packages(pv));
            assert forall|j: int| 0 <= j < n implies #[trigger] group(pv, j as u32).len() == 1 by {
                assert(group(pv, j as u32) == seq![first@[j] as int]);
            }
            lemma_built_packages(pv);
        }
        let dependents = reverse_edges(&out);
        let diags = clean_diagnostics(&diagnostics);
        let canon = canonical_origin(&origin);
        let commit = clean_text(guix_commit.as_str(), false);
        let bytes = encode_parts(&out, &commit, generated_ms, &canon, &diags);
        let digest = sha256(bytes.as_slice());
        let snapshot = hex_string(digest.as_slice());
        proof {
            lemma_hex_lower(digest@);
        }
        let index = Index {
            packages: out,
            dependents,
            guix_commit: commit,
            generated_ms,
            built_ms,
            diagnostics: diags,
            origin: canon,
            snapshot,
        };
        assert(index@.dependents == built_dependents(built_packages(pv)));
        Ok(index)
    }
}

/// A package of an index document: its dependency lists without
/// repetitions.
pub open spec fn doc_package(pj: PkgJsonView) -> PackageView {
    PackageView {
        id: pj.id,
        catalog: pj.catalog,
        name: pj.name,
        version: pj.version,
        synopsis: pj.synopsis,
        description: pj.description,
        homepage: pj.homepage,
        licenses: pj.licenses,
        file: pj.file,
        line: pj.line,
        inputs: dedup(pj.inputs),
        propagated: dedup(pj.propagated_inputs),
        native: dedup(pj.native_inputs),
    }
}

/// Some dependency list of a document package exceeds its limit.
pub open spec fn doc_edges_too_long(pj: PkgJsonView) -> bool {
    pj.inputs.len() > MAX_EDGES || pj.propagated_inputs.len() > MAX_EDGES || pj.native_inputs.len()
        > MAX_EDGES
}

/// What validating a document gives: a schema, count or limit error, or
/// what building from its parts gives.
pub open spec fn from_doc_result(doc: DocView, built_ms: u64) -> Result<IndexView, IndexError> {
    let h = doc.header;
    let n = doc.packages.len();
    if h.schema != SCHEMA_VERSION {
        Err(IndexError::Schema(h.schema, SCHEMA_VERSION))
    } else if (h.package_count as usize) != n {
        Err(IndexError::Count(h.package_count, n as usize))
    } else if n > MAX_INDEX_ENTRIES {
        Err(IndexError::Limit(LimitKind::Packages))
    } else if exists|i: int| 0 <= i < n && doc_edges_too_long(#[trigger] doc.packages[i]) {
        Err(IndexError::Limit(LimitKind::Dependencies))
    } else {
        from_parts_result(
            doc.packages.map_values(|p: PkgJsonView| doc_package(p)),
            h.guix_commit,
            match decimal_u64(h.generated_ms) {
                Some(v) => v,
                None => 0,
            },
            built_ms,
            doc.diagnostics,
            h.origin,
        )
    }
}

fn copy_strings(v: &Vec<String>) -> (r: Vec<String>)
    ensures
        strings_view(r@) == strings_view(v@),
{
    let mut out: Vec<String> = Vec::new();
    let mut i: usize = 0;
    while i < v.len()
        invariant
            i <= v@.len(),
            strings_view(out@) == strings_view(v@.take(i as int)),
        decreases v@.len() - i,
    {
        let s = v[i].clone();
        let ghost before = out@;
        out.push(s);
        assert(strings_view(out@) =~= strings_view(before).push(s@));
        assert(strings_view(v@.take(i + 1)) =~= strings_view(v@.take(i as int)).push(v@[i as int]@));
        i += 1;
    }
    assert(v@.take(v@.len() as int) =~= v@);
    out
}

impl Index {
    /// Validate and convert a raw document. Every failure mode is typed;
    /// nothing here panics on malformed input.
    pub fn from_doc(doc: IndexDoc, built_ms: u64) -> (r: Result<Self, IndexError>)
        ensures
            result_view(r) == from_doc_result(doc@, built_ms),
            r matches Ok(ix) ==> is_token(ix@.snapshot),
    {
        let ghost dv = doc@;
        let IndexDoc { header, packages, diagnostics } = doc;
        assert(dv.packages == packages@.map_values(|p: PkgJson| p@));
        if header.schema != SCHEMA_VERSION {
            return Err(IndexError::Schema(header.schema, SCHEMA_VERSION));
        }
        let len = packages.len();
        if (#[verifier::truncate] (header.package_count as usize)) != len {
            return Err(IndexError::Count(header.package_count, len));
        }
        if len > MAX_INDEX_ENTRIES {
            return Err(IndexError::Limit(LimitKind::Packages));
        }
        let ghost conv = dv.packages.map_values(|p: PkgJsonView| doc_package(p));
        let mut out: Vec<Package> = Vec::new();
        let mut i: usize = 0;
        while i < len
            invariant
                len == packages@.len(),
                len <= MAX_INDEX_ENTRIES,
                dv == doc@,
                dv.header == header@,
                dv.diagnostics == diagnostics@.map_values(|d: IndexDiagnostic| d@),
                header.schema == SCHEMA_VERSION,
                (#[verifier::truncate] (header.package_count as usize)) == len,
                dv.packages == packages@.map_values(|p: PkgJson| p@),
                conv == dv.packages.map_values(|p: PkgJsonView| doc_package(p)),
                i <= len,
                packages_view(out@) == conv.take(i as int),
                forall|q: int| 0 <= q < i ==> !doc_edges_too_long(#[trigger] dv.packages[q]),
            decreases len - i,
        {
            let pj = &packages[i];
            assert(dv.packages[i as int] == pj@);
            if pj.inputs.len() > MAX_EDGES || pj.propagated_inputs.len() > MAX_EDGES
                || pj.native_inputs.len() > MAX_EDGES {
                assert(doc_edges_too_long(dv.packages[i as int]));
                return Err(IndexError::Limit(LimitKind::Dependencies));
            }
            let p = Package {
                id: pj.id,
                catalog: pj.catalog,
                name: pj.name.clone(),
                version: pj.version.clone(),
                synopsis: pj.synopsis.clone(),
                description: pj.description.clone(),
                homepage: pj.homepage.clone(),
                licenses: copy_strings(&pj.licenses),
                file: pj.file.0.clone(),
                line: pj.file.1,
                inputs: dedup_ids(pj.inputs.as_slice()),
                propagated: dedup_ids(pj.propagated_inputs.as_slice()),
                native: dedup_ids(pj.native_inputs.as_slice()),
            };
            let ghost before = out@;
            out.push(p);
            assert(p@ == conv[i as int]);
            assert(packages_view(out@) =~= packages_view(before).push(p@));
            assert(conv.take(i + 1) =~= conv.take(i as int).push(conv[i as int]));
            i += 1;
        }
        assert(conv.take(len as int) =~= conv);
        let generated_ms = match parse_decimal_u64(header.generated_ms.as_str()) {
            Some(v) => v,
            None => 0,
        };
        Index::from_parts(out, header.guix_commit, generated_ms, built_ms, diagnostics, header.origin)
    }

    /// Assemble an index from packages whose dependency lists already hold
    /// ids, with no diagnostics and an empty origin.
    pub fn from_packages(
        packages: Vec<Package>,
        guix_commit: String,
        generated_ms: u64,
        built_ms: u64,
    ) -> (r: Result<Self, IndexError>)
        ensures
            result_view(r) == from_parts_result(
                packages_view(packages@),
                guix_commit@,
                generated_ms,
                built_ms,
                Seq::empty(),
                empty_origin(),
            ),
            r matches Ok(ix) ==> is_token(ix@.snapshot),
    {
        let diagnostics: Vec<IndexDiagnostic> = Vec::new();
        assert(diags_view(diagnostics@) =~= Seq::<DiagView>::empty());
        Self::from_parts(packages, guix_commit, generated_ms, built_ms, diagnostics, GuixOrigin::default())
    }
}

/// SHA-256 of a byte sequence.
pub uninterp spec fn sha256_digest(data: Seq<u8>) -> Seq<u8>;

/// `sha2::Sha256::digest`: the SHA-256 digest of the input, 32 bytes long.
#[verifier::external_body]
fn sha256(data: &[u8]) -> (r: Vec<u8>)
    ensures
        r@ == sha256_digest(data@),
        r@.len() == 32,
{
    sha2::Sha256::digest(data).to_vec()
}

/// A hexadecimal digit, lower case.
pub open spec fn hex_digit(n: u8) -> char {
    if n < 10 {
        ((n + 48) as u8) as char
    } else {
        ((n + 87) as u8) as char
    }
}

/// Lower-case hexadecimal: two digits per byte, high nibble first.
pub open spec fn hex_lower(b: Seq<u8>) -> Seq<char>
    decreases b.len(),
{
    if b.len() == 0 {
        Seq::empty()
    } else {
        hex_lower(b.drop_last()) + seq![hex_digit(b.last() / 16), hex_digit(b.last() % 16)]
    }
}

fn hex_digit_exec(n: u8) -> (r: char)
    requires
        n < 16,
    ensures
        r == hex_digit(n),
{
    if n < 10 {
        (n + 48) as char
    } else {
        (n + 87) as char
    }
}

/// A content token: 64 lower-case hexadecimal digits.
pub open spec fn is_token(t: Seq<char>) -> bool {
    &&& t.len() == 64
    &&& forall|i: int| 0 <= i < t.len() ==> ('0' <= #[trigger] t[i] <= '9' || 'a' <= t[i] <= 'f')
}

/// Hexadecimal text has two digits per byte, each a digit or a letter from
/// `a` to `f`.
pub proof fn lemma_hex_lower(b: Seq<u8>)
    ensures
        hex_lower(b).len() == 2 * b.len(),
        forall|i: int| 0 <= i < hex_lower(b).len()
            ==> ('0' <= #[trigger] hex_lower(b)[i] <= '9' || 'a' <= hex_lower(b)[i] <= 'f'),
    decreases b.len(),
{
    if b.len() > 0 {
        lemma_hex_lower(b.drop_last());
        let x = b.last();
        assert(x / 16 < 16 && x % 16 < 16);
        assert forall|n: u8| n < 16 implies ('0' <= #[trigger] hex_digit(n) <= '9' || 'a' <= hex_digit(n) <= 'f') by {
            if n < 10 {
                assert(((n + 48) as u8) as char == hex_digit(n));
            }
        }
    }
}

/// Lower-case hexadecimal text of a byte string.
fn hex_string(b: &[u8]) -> (r: String)
    ensures
        r@ == hex_lower(b@),
{
    let mut out = String::new();
    let mut i: usize = 0;
    while i < b.len()
        invariant
            i <= b@.len(),
            out@ == hex_lower(b@.take(i as int)),
        decreases b@.len() - i,
    {
        let x = b[i];
        push_char(&mut out, hex_digit_exec(x / 16));
        push_char(&mut out, hex_digit_exec(x % 16));
        assert(b@.take(i + 1).drop_last() =~= b@.take(i as int));
        assert(hex_lower(b@.take(i + 1)) =~= hex_lower(b@.take(i as int)) + seq![
            hex_digit(x / 16),
            hex_digit(x % 16),
        ]);
        i += 1;
    }
    assert(b@.take(b@.len() as int) =~= b@);
    out
}

/// Every index built from parts is well formed: ids are positions, and
/// every dependency and every dependent names a package of the index.
pub proof fn law_built_index_wf(
    ps: Seq<PackageView>,
    c: Seq<char>,
    g: u64,
    b0: u64,
    ds: Seq<DiagView>,
    o: OriginView,
    v: IndexView,
)
    requires
        from_parts_result(ps, c, g, b0, ds, o) == Ok::<IndexView, IndexError>(v),
    ensures
        index_wf(v),
{
    let n = ps.len();
    lemma_tail_min_none(ps, n as int);
    lemma_groups_err_none(ps, 0);
    assert forall|k: int| 0 <= k < n implies #[trigger] group(ps, k as u32).len() <= 1 by {
        assert(group_err(ps, k as u32) is None);
    }
    lemma_groups_full(ps);
    lemma_built_packages(ps);
    assert forall|d: int, m: int|
        0 <= d < n && 0 <= m < v.dependents[d].len() implies (#[trigger] v.dependents[d][m]) < n by {
        lemma_dependents_upto(v.packages, d as u32, n as int);
    }
    assert forall|d: int, a: int, b: int|
        0 <= d < n && 0 <= a < b < v.dependents[d].len() implies (#[trigger] v.dependents[d][a])
            < (#[trigger] v.dependents[d][b]) by {
        lemma_dependents_upto(v.packages, d as u32, n as int);
    }
}

proof fn lemma_dependents_upto_members(pk: Seq<PackageView>, id: u32, m: int)
    requires
        0 <= m <= pk.len() <= MAX_INDEX_ENTRIES,
    ensures
        forall|u: u32|
            #[trigger] dependents_upto(pk, id, m).contains(u) <==> (u < m && typed_seq(
                pk[u as int],
            ).contains(id)),
    decreases m,
{
    if m > 0 {
        lemma_dependents_upto_members(pk, id, m - 1);
        let d = dependents_upto(pk, id, m - 1);
        assert(((m - 1) as u32) as int == m - 1);
        assert forall|u: u32| #[trigger] dependents_upto(pk, id, m).contains(u) <==> (u < m && typed_seq(
            pk[u as int],
        ).contains(id)) by {
            if typed_seq(pk[m - 1]).contains(id) {
                crate::index::lemma_contains_push(d, (m - 1) as u32, u);
            }
        }
    }
}

/// In every index built from parts, reverse edges are exact and
/// bidirectional: a package lists another among its dependents exactly
/// when that other one depends on it.
pub proof fn law_reverse_edges_exact(
    ps: Seq<PackageView>,
    c: Seq<char>,
    g: u64,
    b0: u64,
    ds: Seq<DiagView>,
    o: OriginView,
    v: IndexView,
)
    requires
        from_parts_result(ps, c, g, b0, ds, o) == Ok::<IndexView, IndexError>(v),
    ensures
        forall|d: u32, u: u32|
            d < v.packages.len() && u < v.packages.len() ==> (#[trigger] v.dependents[d as int].contains(u)
                <==> #[trigger] typed_seq(v.packages[u as int]).contains(d)),
{
    let n = v.packages.len();
    assert forall|d: u32, u: u32| d < n && u < n implies (#[trigger] v.dependents[d as int].contains(u)
        <==> #[trigger] typed_seq(v.packages[u as int]).contains(d)) by {
        lemma_dependents_upto_members(v.packages, d, n as int);
    }
}

/// Every text of a built index is clean: no control character survives
/// in any package field, in the commit, in a diagnostic or in the origin,
/// whatever the document or snapshot held.
pub proof fn law_built_texts_clean(
    ps: Seq<PackageView>,
    c: Seq<char>,
    g: u64,
    b0: u64,
    ds: Seq<DiagView>,
    o: OriginView,
    v: IndexView,
)
    requires
        from_parts_result(ps, c, g, b0, ds, o) == Ok::<IndexView, IndexError>(v),
    ensures
        forall|k: int|
            0 <= k < v.packages.len() ==> {
                let p = #[trigger] v.packages[k];
                &&& is_clean(p.name, false)
                &&& is_clean(p.version, false)
                &&& is_clean(p.synopsis, false)
                &&& is_clean(p.description, true)
                &&& is_clean(p.homepage, false)
                &&& is_clean(p.file, false)
                &&& forall|l: int| 0 <= l < p.licenses.len() ==> is_clean(#[trigger] p.licenses[l], false)
            },
        is_clean(v.guix_commit, false),
        forall|k: int|
            0 <= k < v.diagnostics.len() ==> {
                let d = #[trigger] v.diagnostics[k];
                is_clean(d.kind, false) && is_clean(d.code, false) && is_clean(d.message, false)
            },
        origin_texts_clean(v.origin),
{
    assert forall|k: int| 0 <= k < v.packages.len() implies {
        let p = #[trigger] v.packages[k];
        &&& is_clean(p.name, false)
        &&& is_clean(p.version, false)
        &&& is_clean(p.synopsis, false)
        &&& is_clean(p.description, true)
        &&& is_clean(p.homepage, false)
        &&& is_clean(p.file, false)
        &&& forall|l: int| 0 <= l < p.licenses.len() ==> is_clean(#[trigger] p.licenses[l], false)
    } by {
        let q = ps[group(ps, k as u32)[0]];
        assert(v.packages[k] == clean_pkg(q));
        crate::text::lemma_clean_idempotent(q.name, false);
        crate::text::lemma_clean_idempotent(q.version, false);
        crate::text::lemma_clean_idempotent(q.synopsis, false);
        crate::text::lemma_clean_idempotent(q.description, true);
        crate::text::lemma_clean_idempotent(q.homepage, false);
        crate::text::lemma_clean_idempotent(q.file, false);
        assert forall|l: int| 0 <= l < v.packages[k].licenses.len() implies is_clean(
            #[trigger] v.packages[k].licenses[l],
            false,
        ) by {
            crate::text::lemma_clean_idempotent(q.licenses[l], false);
        }
    }
    crate::text::lemma_clean_idempotent(c, false);
    assert forall|k: int| 0 <= k < v.diagnostics.len() implies {
        let d = #[trigger] v.diagnostics[k];
        is_clean(d.kind, false) && is_clean(d.code, false) && is_clean(d.message, false)
    } by {
        crate::text::lemma_clean_idempotent(ds[k].kind, false);
        crate::text::lemma_clean_idempotent(ds[k].code, false);
        crate::text::lemma_clean_idempotent(ds[k].message, false);
    }
    let cleaned = o.channels.map_values(|ch: ChannelView| clean_channel(ch));
    lemma_channel_order();
    crate::order::lemma_sorted_list_exists(cleaned, channel_order());
    crate::text::lemma_clean_idempotent(o.executable, false);
    crate::text::lemma_clean_idempotent(o.system, false);
    let l = v.origin.channels;
    assert forall|i: int| 0 <= i < l.len() implies is_clean((#[trigger] l[i]).0, false) && is_clean(
        l[i].1,
        false,
    ) by {
        assert(l.to_set().contains(l[i]));
        assert(cleaned.to_set().contains(l[i]));
        let q = choose|q: int| 0 <= q < cleaned.len() && cleaned[q] == l[i];
        crate::text::lemma_clean_idempotent(o.channels[q].0, false);
        crate::text::lemma_clean_idempotent(o.channels[q].1, false);
    }
}

/// The load time is not part of what an index is: building from the same
/// parts at another time gives the same index and the same snapshot token,
/// with only the load time changed.
pub proof fn law_load_time_outside_content(
    ps: Seq<PackageView>,
    c: Seq<char>,
    g: u64,
    b0: u64,
    b1: u64,
    ds: Seq<DiagView>,
    o: OriginView,
)
    ensures
        match (from_parts_result(ps, c, g, b0, ds, o), from_parts_result(ps, c, g, b1, ds, o)) {
            (Ok(v0), Ok(v1)) => v1 == (IndexView { built_ms: b1, ..v0 }) && v1.snapshot == v0.snapshot,
            (Err(e0), Err(e1)) => e0 == e1,
            _ => false,
        },
{
}

/// The order in which an origin lists its channels does not matter: two
/// origins that differ only in the order of their channels build the same
/// index.
pub proof fn law_channel_order_irrelevant(
    ps: Seq<PackageView>,
    c: Seq<char>,
    g: u64,
    b0: u64,
    ds: Seq<DiagView>,
    o1: OriginView,
    o2: OriginView,
)
    requires
        o1.executable == o2.executable,
        o1.system == o2.system,
        o1.verified == o2.verified,
        o1.mutable_package_path == o2.mutable_package_path,
        o1.channels.len() == o2.channels.len(),
        o1.channels.to_set() == o2.channels.to_set(),
    ensures
        from_parts_result(ps, c, g, b0, ds, o1) == from_parts_result(ps, c, g, b0, ds, o2),
{
    let c1 = o1.channels.map_values(|ch: ChannelView| clean_channel(ch));
    let c2 = o2.channels.map_values(|ch: ChannelView| clean_channel(ch));
    assert forall|x: ChannelView| c1.to_set().contains(x) implies c2.to_set().contains(x) by {
        let q = choose|q: int| 0 <= q < c1.len() && c1[q] == x;
        assert(o1.channels.to_set().contains(o1.channels[q]));
        assert(o2.channels.to_set().contains(o1.channels[q]));
        let r = choose|r: int| 0 <= r < o2.channels.len() && o2.channels[r] == o1.channels[q];
        assert(c2[r] == x);
    }
    assert forall|x: ChannelView| c2.to_set().contains(x) implies c1.to_set().contains(x) by {
        let q = choose|q: int| 0 <= q < c2.len() && c2[q] == x;
        assert(o2.channels.to_set().contains(o2.channels[q]));
        assert(o1.channels.to_set().contains(o2.channels[q]));
        let r = choose|r: int| 0 <= r < o1.channels.len() && o1.channels[r] == o2.channels[q];
        assert(c1[r] == x);
    }
    assert(c1.to_set() =~= c2.to_set());
    assert(origin_texts_clean(o1) == origin_texts_clean(o2)) by {
        if origin_texts_clean(o1) {
            assert forall|i: int| 0 <= i < o2.channels.len() implies is_clean(
                (#[trigger] o2.channels[i]).0,
                false,
            ) && is_clean(o2.channels[i].1, false) by {
                assert(o2.channels.to_set().contains(o2.channels[i]));
                let r = choose|r: int| 0 <= r < o1.channels.len() && o1.channels[r] == o2.channels[i];
            }
        }
        if origin_texts_clean(o2) {
            assert forall|i: int| 0 <= i < o1.channels.len() implies is_clean(
                (#[trigger] o1.channels[i]).0,
                false,
            ) && is_clean(o1.channels[i].1, false) by {
                assert(o1.channels.to_set().contains(o1.channels[i]));
                let r = choose|r: int| 0 <= r < o2.channels.len() && o2.channels[r] == o1.channels[i];
            }
        }
    }
    assert(canon_origin(o1) == canon_origin(o2));
}

/// Packages an index can be built from: their ids are the positions `0..n`
/// in some order, every name is non-empty, every dependency names one of
/// them, and no dependency list is over its limit.
pub open spec fn valid_packages(ps: Seq<PackageView>) -> bool {
    let n = ps.len();
    &&& forall|i: int| 0 <= i < n ==> (#[trigger] ps[i]).id < n
    &&& forall|i: int, j: int| 0 <= i < j < n ==> (#[trigger] ps[i]).id != (#[trigger] ps[j]).id
    &&& forall|i: int| 0 <= i < n ==> (#[trigger] ps[i]).name.len() > 0 && !edges_too_long(ps[i])
    &&& forall|i: int, x: u32| 0 <= i < n && #[trigger] typed_seq(ps[i]).contains(x) ==> x < n
}

proof fn lemma_first_out_of_range_all(s: Seq<u32>, len: usize)
    requires
        forall|m: int| 0 <= m < s.len() ==> (#[trigger] s[m]) < len,
    ensures
        first_out_of_range(s, len) is None,
    decreases s.len(),
{
    if s.len() > 0 {
        assert forall|m: int| 0 <= m < s.drop_first().len() implies (#[trigger] s.drop_first()[m]) < len by {
            assert(s.drop_first()[m] == s[m + 1]);
        }
        lemma_first_out_of_range_all(s.drop_first(), len);
    }
}

proof fn lemma_tail_min_all(ps: Seq<PackageView>, n: int)
    requires
        0 <= n <= ps.len(),
        forall|i: int| 0 <= i < n ==> (#[trigger] ps[i].id as int) < ps.len(),
    ensures
        tail_min(ps, n) is None,
    decreases n,
{
    if n > 0 {
        lemma_tail_min_all(ps, n - 1);
    }
}

/// Cleaning a package keeps the ids it names.
proof fn lemma_clean_pkg_names(p: PackageView, x: u32)
    ensures
        typed_seq(clean_pkg(p)).contains(x) <==> typed_seq(p).contains(x),
{
    lemma_dedup(p.inputs);
    lemma_dedup(p.propagated);
    lemma_dedup(p.native);
    vstd::seq_lib::lemma_seq_concat_contains_all_elements(p.inputs, p.propagated, x);
    vstd::seq_lib::lemma_seq_concat_contains_all_elements(p.inputs + p.propagated, p.native, x);
    let c = clean_pkg(p);
    vstd::seq_lib::lemma_seq_concat_contains_all_elements(c.inputs, c.propagated, x);
    vstd::seq_lib::lemma_seq_concat_contains_all_elements(c.inputs + c.propagated, c.native, x);
}

proof fn lemma_pkg_err_none(p: PackageView, len: usize)
    ensures
        pkg_err(p, len) is None <==> (!edges_too_long(p) && p.id < len && p.name.len() > 0 && forall|x: u32|
            #[trigger] typed_seq(p).contains(x) ==> x < len),
{
    let t = typed_seq(clean_pkg(p));
    if forall|x: u32| #[trigger] typed_seq(p).contains(x) ==> x < len {
        assert forall|m: int| 0 <= m < t.len() implies (#[trigger] t[m]) < len by {
            lemma_clean_pkg_names(p, t[m]);
            assert(t.contains(t[m]));
        }
        lemma_first_out_of_range_all(t, len);
    }
    if first_out_of_range(t, len) is None {
        lemma_first_out_of_range_none(t, len);
        assert forall|x: u32| #[trigger] typed_seq(p).contains(x) implies x < len by {
            lemma_clean_pkg_names(p, x);
            let m = choose|m: int| 0 <= m < t.len() && t[m] == x;
        }
    }
}

/// The package checks pass exactly on the packages an index can be built
/// from.
pub proof fn law_packages_accepted(ps: Seq<PackageView>)
    requires
        ps.len() <= MAX_INDEX_ENTRIES,
    ensures
        packages_error(ps) is None <==> valid_packages(ps),
{
    let n = ps.len() as int;
    if valid_packages(ps) {
        assert forall|k: int| 0 <= k < n implies #[trigger] group_err(ps, k as u32) is None by {
            let id = k as u32;
            lemma_group_upto(ps, id, n);
            let g = group(ps, id);
            if g.len() >= 2 {
                assert(g[0] < g[1]);
                assert(ps[g[0]].id == ps[g[1]].id);
            }
            if g.len() == 1 {
                lemma_pkg_err_none(ps[g[0]], n as usize);
                assert forall|x: u32| #[trigger] typed_seq(ps[g[0]]).contains(x) implies x < n as usize by {
                    assert(typed_seq(ps[g[0]]).contains(x));
                }
            }
        }
        assert forall|k: int| 0 <= k <= n implies #[trigger] groups_err(ps, n - k) is None by {
            lemma_groups_err_down(ps, n - k);
        }
        assert(groups_err(ps, 0) is None) by {
            assert(groups_err(ps, n - n) is None);
        }
        lemma_tail_min_all(ps, n);
    }
    if packages_error(ps) is None {
        assert(groups_err(ps, 0) is None);
        lemma_groups_err_none(ps, 0);
        assert(tail_min(ps, n) is None);
        lemma_tail_min_none(ps, n);
        assert forall|k: int| 0 <= k < n implies #[trigger] group(ps, k as u32).len() <= 1 by {
            assert(group_err(ps, k as u32) is None);
        }
        lemma_groups_full(ps);
        assert forall|i: int, j: int| 0 <= i < j < n implies (#[trigger] ps[i]).id != (#[trigger] ps[j]).id by {
            if ps[i].id == ps[j].id {
                let id = ps[i].id;
                assert((id as int) < n);
                assert(((id as int) as u32) == id);
                lemma_group_upto(ps, id, n);
                assert(group(ps, id).contains(i) && group(ps, id).contains(j));
                assert(group(ps, (id as int) as u32).len() == 1);
                let a = choose|a: int| 0 <= a < group(ps, id).len() && group(ps, id)[a] == i;
                let b = choose|b: int| 0 <= b < group(ps, id).len() && group(ps, id)[b] == j;
            }
        }
        assert forall|i: int| 0 <= i < n implies (#[trigger] ps[i]).name.len() > 0 && !edges_too_long(ps[i])
            && forall|x: u32| #[trigger] typed_seq(ps[i]).contains(x) ==> x < n by {
            let id = ps[i].id;
            assert((id as int) < n);
            assert(((id as int) as u32) == id);
            lemma_group_upto(ps, id, n);
            assert(group(ps, id).contains(i));
            assert(group(ps, (id as int) as u32).len() == 1);
            assert(group(ps, id)[0] == i);
            assert(group_err(ps, (id as int) as u32) is None);
            lemma_pkg_err_none(ps[i], n as usize);
        }
    }
}

proof fn lemma_groups_err_down(ps: Seq<PackageView>, k: int)
    requires
        0 <= k <= ps.len(),
        ps.len() <= MAX_INDEX_ENTRIES,
        forall|j: int| k <= j < ps.len() ==> #[trigger] group_err(ps, j as u32) is None,
    ensures
        groups_err(ps, k) is None,
    decreases ps.len() - k,
{
    if k < ps.len() {
        lemma_groups_err_down(ps, k + 1);
    }
}

proof fn lemma_diag_error_none(ds: Seq<DiagView>, len: usize)
    ensures
        diag_error(ds, len) is None <==> forall|i: int| 0 <= i < ds.len() ==> (#[trigger] ds[i]).package_id < len,
    decreases ds.len(),
{
    if ds.len() > 0 {
        lemma_diag_error_none(ds.drop_first(), len);
        assert forall|i: int| 0 < i < ds.len() implies (#[trigger] ds[i]) == ds.drop_first()[i - 1] by {}
        if forall|i: int| 0 <= i < ds.drop_first().len() ==> (#[trigger] ds.drop_first()[i]).package_id < len {
            assert forall|i: int| 0 < i < ds.len() implies (#[trigger] ds[i]).package_id < len by {
                assert(ds[i] == ds.drop_first()[i - 1]);
            }
        }
    }
}

/// Within the limits on sizes, a document builds an index exactly when its
/// schema is the current one, its header counts its packages, its packages
/// are ones an index can be built from (ids a permutation of the positions,
/// names non-empty, every dependency naming a package), and every
/// diagnostic names a package; otherwise building it fails.
pub proof fn law_from_doc_accepts(doc: DocView, built_ms: u64)
    requires
        doc.packages.len() <= MAX_INDEX_ENTRIES,
        doc.diagnostics.len() <= MAX_INDEX_ENTRIES,
        doc.header.origin.channels.len() <= MAX_CHANNELS,
        forall|i: int| 0 <= i < doc.packages.len() ==> !doc_edges_too_long(#[trigger] doc.packages[i]),
    ensures
        from_doc_result(doc, built_ms) is Ok <==> (doc.header.schema == SCHEMA_VERSION && (
        doc.header.package_count as usize) == doc.packages.len() && valid_packages(
            doc.packages.map_values(|p: PkgJsonView| doc_package(p)),
        ) && forall|i: int|
            0 <= i < doc.diagnostics.len() ==> (#[trigger] doc.diagnostics[i]).package_id
                < doc.packages.len()),
{
    let ps = doc.packages.map_values(|p: PkgJsonView| doc_package(p));
    law_packages_accepted(ps);
    lemma_diag_error_none(doc.diagnostics, ps.len() as usize);
}

/// `out` is `inp` with every control character replaced by a space (in
/// multiline text, line breaks and tabs are kept).
pub open spec fn replaced(out: Seq<char>, inp: Seq<char>, multiline: bool) -> bool {
    &&& out.len() == inp.len()
    &&& forall|i: int|
        0 <= i < inp.len() ==> #[trigger] out[i] == if crate::text::is_control(inp[i]) && !(multiline && (inp[i]
            == '\n' || inp[i] == '\t')) {
            ' '
        } else {
            inp[i]
        }
}

proof fn lemma_clean_replaced(s: Seq<char>, multiline: bool)
    ensures
        replaced(clean(s, multiline), s, multiline),
{
}

/// Building an index keeps every text of its input with control characters
/// replaced by a space: each package's texts come from the package that
/// carries its id, the commit and the diagnostics from theirs, the origin's
/// executable and system from the origin's. The origin's channels are the
/// cleaned input channels, sorted by name and then commit, each once; the
/// origin counts as verified only when the input said so, cleaning changed
/// none of its texts, and it passes the verification rules.
pub proof fn law_built_texts_replaced(
    ps: Seq<PackageView>,
    c: Seq<char>,
    g: u64,
    b0: u64,
    ds: Seq<DiagView>,
    o: OriginView,
    v: IndexView,
)
    requires
        from_parts_result(ps, c, g, b0, ds, o) == Ok::<IndexView, IndexError>(v),
    ensures
        forall|k: int|
            0 <= k < v.packages.len() ==> exists|j: int|
                0 <= j < ps.len() && ps[j].id == k && {
                    let (p, q) = (#[trigger] v.packages[k], ps[j]);
                    &&& replaced(p.name, q.name, false)
                    &&& replaced(p.version, q.version, false)
                    &&& replaced(p.synopsis, q.synopsis, false)
                    &&& replaced(p.description, q.description, true)
                    &&& replaced(p.homepage, q.homepage, false)
                    &&& replaced(p.file, q.file, false)
                    &&& p.licenses.len() == q.licenses.len()
                    &&& forall|l: int| 0 <= l < p.licenses.len() ==> replaced(#[trigger] p.licenses[l], q.licenses[l], false)
                },
        replaced(v.guix_commit, c, false),
        v.diagnostics.len() == ds.len(),
        forall|k: int|
            0 <= k < ds.len() ==> {
                let (d, e) = (#[trigger] v.diagnostics[k], ds[k]);
                d.package_id == e.package_id && replaced(d.kind, e.kind, false) && replaced(d.code, e.code, false)
                    && replaced(d.message, e.message, false)
            },
        replaced(v.origin.executable, o.executable, false),
        replaced(v.origin.system, o.system, false),
        v.origin.channels.to_set() == o.channels.map_values(|ch: ChannelView| clean_channel(ch)).to_set(),
        forall|i: int, j: int|
            0 <= i < j < v.origin.channels.len() ==> channel_lt(
                #[trigger] v.origin.channels[i],
                #[trigger] v.origin.channels[j],
            ),
        v.origin.verified ==> o.verified && origin_texts_clean(o),
        v.origin.verified == origin_is_verified(v.origin),
{
    assert forall|k: int| 0 <= k < v.packages.len() implies exists|j: int|
        0 <= j < ps.len() && ps[j].id == k && {
            let (p, q) = (#[trigger] v.packages[k], ps[j]);
            &&& replaced(p.name, q.name, false)
            &&& replaced(p.version, q.version, false)
            &&& replaced(p.synopsis, q.synopsis, false)
            &&& replaced(p.description, q.description, true)
            &&& replaced(p.homepage, q.homepage, false)
            &&& replaced(p.file, q.file, false)
            &&& p.licenses.len() == q.licenses.len()
            &&& forall|l: int| 0 <= l < p.licenses.len() ==> replaced(#[trigger] p.licenses[l], q.licenses[l], false)
        } by {
        lemma_built_packages_groups(ps);
        let j = group(ps, k as u32)[0];
        lemma_group_upto(ps, k as u32, ps.len() as int);
        let q = ps[j];
        assert(v.packages[k] == clean_pkg(q));
        lemma_clean_replaced(q.name, false);
        lemma_clean_replaced(q.version, false);
        lemma_clean_replaced(q.synopsis, false);
        lemma_clean_replaced(q.description, true);
        lemma_clean_replaced(q.homepage, false);
        lemma_clean_replaced(q.file, false);
        assert forall|l: int| 0 <= l < v.packages[k].licenses.len() implies replaced(
            #[trigger] v.packages[k].licenses[l],
            q.licenses[l],
            false,
        ) by {
            lemma_clean_replaced(q.licenses[l], false);
        }
        assert(ps[j].id == k as u32);
    }
    lemma_clean_replaced(c, false);
    assert forall|k: int| 0 <= k < ds.len() implies {
        let (d, e) = (#[trigger] v.diagnostics[k], ds[k]);
        d.package_id == e.package_id && replaced(d.kind, e.kind, false) && replaced(d.code, e.code, false)
            && replaced(d.message, e.message, false)
    } by {
        lemma_clean_replaced(ds[k].kind, false);
        lemma_clean_replaced(ds[k].code, false);
        lemma_clean_replaced(ds[k].message, false);
    }
    lemma_clean_replaced(o.executable, false);
    lemma_clean_replaced(o.system, false);
    let cleaned = o.channels.map_values(|ch: ChannelView| clean_channel(ch));
    lemma_channel_order();
    crate::order::lemma_sorted_list_exists(cleaned, channel_order());
    let l = v.origin.channels;
    assert forall|i: int, j: int| 0 <= i < j < l.len() implies channel_lt(#[trigger] l[i], #[trigger] l[j]) by {
        assert(channel_order()(l[i], l[j]));
    }
}

/// In a list that passed the checks, every id is carried by one package.
proof fn lemma_built_packages_groups(ps: Seq<PackageView>)
    requires
        ps.len() <= MAX_INDEX_ENTRIES,
        packages_error(ps) is None,
    ensures
        forall|k: int| 0 <= k < ps.len() ==> #[trigger] group(ps, k as u32).len() == 1,
{
    law_packages_accepted(ps);
    lemma_groups_err_none(ps, 0);
    lemma_tail_min_none(ps, ps.len() as int);
    assert forall|k: int| 0 <= k < ps.len() implies #[trigger] group(ps, k as u32).len() <= 1 by {
        assert(group_err(ps, k as u32) is None);
    }
    lemma_groups_full(ps);
}

} // verus!
