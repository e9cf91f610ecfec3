//! The verified parts of fuzzy search: the ranking of hits and the
//! selection of the best ones, the browse order of an empty query, the
//! candidate prefilter, the chunks of a parallel scan, and the highlight
//! runs of a hit. Scoring itself (the fuzzy matcher and the geometric mean
//! of per-term scores) happens outside and hands its hits in.

use std::cmp::Ordering;

use vstd::prelude::*;
use vstd::utf8::encode_utf8;

use crate::graph::{hub_key, hub_less};
use crate::index::{Index, IndexView, MAX_INDEX_ENTRIES};
use crate::order::{
    down_closed, first_k, lemma_down_closed_unique, lemma_first_k, lemma_sorted_unique, min_nat,
    keyed_order, lemma_keyed_order, seq_lt, sort_ids, sorted_list, str_lt, strict_total,
    strictly_sorted, tag_order,
};
use crate::text::str_eq;

verus! {

/// Render cap for the result list.
pub const RESULT_CAP: usize = 500;

/// How many top hits get precomputed highlight ranges.
pub const HIGHLIGHT_CAP: usize = 100;

/// One scored package.
#[derive(Debug, Clone, Copy)]
pub struct SearchHit {
    pub id: u32,
    pub score: u32,
    /// The query matched the package name itself (a tie-breaker).
    pub name_match: bool,
}

/// A hit with the character ranges (half-open) of its matches within the
/// name and within the synopsis.
#[derive(Debug, Clone)]
pub struct HighlightedHit {
    pub hit: SearchHit,
    pub name_ranges: Vec<(usize, usize)>,
    pub synopsis_ranges: Vec<(usize, usize)>,
}

/// The answer to one query, stamped with the ticket of its request.
#[derive(Debug, Clone)]
pub struct SearchReply {
    pub ticket: u64,
    pub query: String,
    pub hits: Vec<HighlightedHit>,
}

/// The name of a package, or nothing for an id outside the index.
pub open spec fn name_of(v: IndexView, id: u32) -> Seq<char> {
    if id < v.packages.len() {
        v.packages[id as int].name
    } else {
        Seq::empty()
    }
}

/// The length of a name in bytes.
pub open spec fn name_bytes(v: IndexView, id: u32) -> nat {
    encode_utf8(name_of(v, id)).len()
}

/// Ranking: higher score first; name matches win ties; then shorter names;
/// then names in order; then ids, so that results are deterministic.
pub open spec fn ranks_before(v: IndexView, a: SearchHit, b: SearchHit) -> bool {
    let (la, lb) = (name_bytes(v, a.id), name_bytes(v, b.id));
    let (na, nb) = (name_of(v, a.id), name_of(v, b.id));
    a.score > b.score || (a.score == b.score && ((a.name_match && !b.name_match) || (a.name_match
        == b.name_match && (la < lb || (la == lb && (seq_lt(na, nb) || (na == nb && a.id
        < b.id)))))))
}

pub open spec fn rank_order(v: IndexView) -> spec_fn(SearchHit, SearchHit) -> bool {
    |a: SearchHit, b: SearchHit| ranks_before(v, a, b)
}

/// The ranking is a strict total order on hits.
pub proof fn lemma_rank_order(v: IndexView)
    ensures
        strict_total(rank_order(v)),
{
    let lt = rank_order(v);
    assert forall|a: SearchHit| !#[trigger] lt(a, a) by {
        crate::order::lemma_seq_lt_irreflexive(name_of(v, a.id));
    }
    assert forall|a: SearchHit, b: SearchHit, c: SearchHit|
        #[trigger] lt(a, b) && #[trigger] lt(b, c) implies lt(a, c) by {
        let (na, nb, nc) = (name_of(v, a.id), name_of(v, b.id), name_of(v, c.id));
        if seq_lt(na, nb) && seq_lt(nb, nc) {
            crate::order::lemma_seq_lt_transitive(na, nb, nc);
        }
    }
    assert forall|a: SearchHit, b: SearchHit| a != b implies #[trigger] lt(a, b) || lt(b, a) by {
        let (na, nb) = (name_of(v, a.id), name_of(v, b.id));
        if na != nb {
            crate::order::lemma_seq_lt_total(na, nb);
        }
    }
}

/// The best `limit` hits of a set, in ranking order.
pub open spec fn top_hits(v: IndexView, hits: Set<SearchHit>, limit: nat) -> Seq<SearchHit> {
    first_k(hits, rank_order(v), limit)
}

fn hit_name(index: &Index, id: u32) -> (r: &str)
    ensures
        r@ == name_of(index@, id),
{
    if (id as usize) < index.packages.len() {
        let p = &index.packages[id as usize];
        assert(index@.packages[id as int] == p@);
        p.name.as_str()
    } else {
        proof {
            reveal_strlit("");
        }
        ""
    }
}

/// Compare two hits by rank: `Less` when `a` comes first.
pub fn hit_cmp(index: &Index, a: &SearchHit, b: &SearchHit) -> (r: Ordering)
    ensures
        (r == Ordering::Less) == ranks_before(index@, *a, *b),
        (r == Ordering::Greater) == ranks_before(index@, *b, *a),
        (r == Ordering::Equal) == (*a == *b),
{
    proof {
        lemma_rank_order(index@);
        assert(rank_order(index@)(*a, *b) == ranks_before(index@, *a, *b));
        assert(rank_order(index@)(*b, *a) == ranks_before(index@, *b, *a));
        assert(!rank_order(index@)(*a, *a));
    }
    if a.score != b.score {
        return if a.score > b.score {
            Ordering::Less
        } else {
            Ordering::Greater
        };
    }
    if a.name_match != b.name_match {
        return if a.name_match {
            Ordering::Less
        } else {
            Ordering::Greater
        };
    }
    let na = hit_name(index, a.id);
    let nb = hit_name(index, b.id);
    let (la, lb) = (na.as_bytes().len(), nb.as_bytes().len());
    if la != lb {
        return if la < lb {
            Ordering::Less
        } else {
            Ordering::Greater
        };
    }
    if !str_eq(na, nb) {
        proof {
            crate::order::lemma_seq_lt_total(na@, nb@);
            if seq_lt(na@, nb@) {
                crate::order::lemma_seq_lt_asymmetric(na@, nb@);
            }
        }
        return if str_lt(na, nb) {
            Ordering::Less
        } else {
            Ordering::Greater
        };
    }
    if a.id < b.id {
        Ordering::Less
    } else if a.id > b.id {
        Ordering::Greater
    } else {
        Ordering::Equal
    }
}

/// Whether hit `a` ranks before hit `b`.
fn hit_less(index: &Index, a: SearchHit, b: SearchHit) -> (r: bool)
    ensures
        r == ranks_before(index@, a, b),
{
    match hit_cmp(index, &a, &b) {
        Ordering::Less => true,
        _ => false,
    }
}

/// Rank distinct hits and keep the best `limit` of them.
pub fn rank_hits(index: &Index, hits: &Vec<SearchHit>, limit: usize) -> (r: Vec<SearchHit>)
    requires
        hits@.no_duplicates(),
    ensures
        r@ == top_hits(index@, hits@.to_set(), limit as nat),
{
    proof {
        lemma_rank_order(index@);
    }
    let ghost lt = rank_order(index@);
    let less = |a: SearchHit, b: SearchHit| -> (r: bool)
        ensures
            r == rank_order(index@)(a, b),
        { hit_less(index, a, b) };
    let mut sorted = sort_ids(hits, &less, Ghost(lt));
    proof {
        crate::order::lemma_sorted_list_of(sorted@, lt);
    }
    if limit < sorted.len() {
        sorted.truncate(limit);
    }
    sorted
}

/// Where a run of matched characters is shown: within the name, within
/// the synopsis (which starts after the name and one separator), or not at
/// all when it straddles the separator.
pub open spec fn split_run(name_len: int, run: (int, int)) -> (Option<(int, int)>, Option<(int, int)>) {
    if run.1 <= name_len {
        (Some(run), None)
    } else if run.0 > name_len {
        (None, Some((run.0 - name_len - 1, run.1 - name_len - 1)))
    } else {
        (None, None)
    }
}

pub open spec fn push_some(s: Seq<(usize, usize)>, r: Option<(int, int)>) -> Seq<(usize, usize)> {
    match r {
        Some(x) => s.push((x.0 as usize, x.1 as usize)),
        None => s,
    }
}

/// File one run of matched characters under the name or the synopsis.
pub fn push_range(
    name_len: usize,
    start: usize,
    end: usize,
    name_ranges: &mut Vec<(usize, usize)>,
    synopsis_ranges: &mut Vec<(usize, usize)>,
)
    ensures
        final(name_ranges)@ == push_some(
            old(name_ranges)@,
            split_run(name_len as int, (start as int, end as int)).0,
        ),
        final(synopsis_ranges)@ == push_some(
            old(synopsis_ranges)@,
            split_run(name_len as int, (start as int, end as int)).1,
        ),
{
    if end <= name_len {
        name_ranges.push((start, end));
    } else if start > name_len {
        synopsis_ranges.push((start - name_len - 1, end - name_len - 1));
    }
}

pub open spec fn u32_order() -> spec_fn(u32, u32) -> bool {
    |a: u32, b: u32| a < b
}

/// Matched positions, each once, in increasing order.
pub open spec fn distinct_sorted(s: Seq<u32>) -> Seq<u32> {
    sorted_list(s.to_set(), u32_order())
}

/// Maximal runs of consecutive positions, as half-open ranges.
pub open spec fn runs(s: Seq<u32>) -> Seq<(int, int)>
    decreases s.len(),
{
    if s.len() == 0 {
        Seq::empty()
    } else {
        let r = runs(s.drop_last());
        let x = s.last() as int;
        if r.len() > 0 && r.last().1 == x {
            r.update(r.len() - 1, (r.last().0, x + 1))
        } else {
            r.push((x, x + 1))
        }
    }
}

/// The name ranges and the synopsis ranges of a list of runs.
pub open spec fn split_runs(name_len: int, rs: Seq<(int, int)>) -> (Seq<(usize, usize)>, Seq<(usize, usize)>)
    decreases rs.len(),
{
    if rs.len() == 0 {
        (Seq::empty(), Seq::empty())
    } else {
        let p = split_runs(name_len, rs.drop_last());
        let q = split_run(name_len, rs.last());
        (push_some(p.0, q.0), push_some(p.1, q.1))
    }
}

/// Matched positions, each once, in increasing order.
fn sort_dedup(indices: &Vec<u32>) -> (r: Vec<u32>)
    ensures
        r@ == distinct_sorted(indices@),
        r@.to_set() == indices@.to_set(),
{
    let mut tagged: Vec<(u32, usize)> = Vec::new();
    let mut k: usize = 0;
    while k < indices.len()
        invariant
            k <= indices@.len(),
            tagged@.len() == k,
            forall|m: int| 0 <= m < k ==> #[trigger] tagged@[m] == (indices@[m], m as usize),
        decreases indices@.len() - k,
    {
        tagged.push((indices[k], k));
        k += 1;
    }
    assert(tagged@.no_duplicates()) by {
        assert forall|a: int, b: int| 0 <= a < tagged@.len() && 0 <= b < tagged@.len() && a != b implies tagged@[a] != tagged@[b] by {
            assert(tagged@[a].1 == a as usize);
            assert(tagged@[b].1 == b as usize);
        }
    }
    let ghost lt = tag_order();
    assert(strict_total(lt));
    let less = |a: (u32, usize), b: (u32, usize)| -> (r: bool)
        ensures
            r == tag_order()(a, b),
        { a.0 < b.0 || (a.0 == b.0 && a.1 < b.1) };
    let sorted = sort_ids(&tagged, &less, Ghost(lt));
    let ghost vals = sorted@.map_values(|t: (u32, usize)| t.0);
    let mut out: Vec<u32> = Vec::new();
    let mut i: usize = 0;
    while i < sorted.len()
        invariant
            strictly_sorted(sorted@, lt),
            lt == tag_order(),
            vals == sorted@.map_values(|t: (u32, usize)| t.0),
            i <= sorted@.len(),
            strictly_sorted(out@, u32_order()),
            out@.to_set() == vals.take(i as int).to_set(),
            i > 0 ==> out@.len() > 0 && out@.last() == vals[i - 1],
            i == 0 ==> out@.len() == 0,
        decreases sorted@.len() - i,
    {
        let x = sorted[i].0;
        proof {
            assert(vals.take(i + 1) =~= vals.take(i as int).push(x));
            vals.take(i as int).lemma_push_to_set_commute(x);
        }
        if out.len() == 0 || out[out.len() - 1] != x {
            let ghost before = out@;
            proof {
                if i > 0 {
                    assert(lt(sorted@[i - 1], sorted@[i as int]));
                    assert(vals[i - 1] == sorted@[i - 1].0);
                    assert(before.last() < x);
                }
            }
            out.push(x);
            proof {
                before.lemma_push_to_set_commute(x);
                assert forall|p: int, q: int| 0 <= p < q < out@.len() implies #[trigger] u32_order()(out@[p], out@[q]) by {
                    if q == out@.len() - 1 {
                        if p < before.len() - 1 {
                            assert(u32_order()(before[p], before.last()));
                        }
                    } else {
                        assert(u32_order()(before[p], before[q]));
                    }
                }
            }
        } else {
            proof {
                assert(out@.to_set().contains(x));
                assert(out@.to_set().insert(x) =~= out@.to_set());
            }
        }
        i += 1;
    }
    proof {
        assert(vals.take(sorted@.len() as int) =~= vals);
        assert forall|x: u32| vals.to_set().contains(x) implies indices@.to_set().contains(x) by {
            let j = choose|j: int| 0 <= j < vals.len() && vals[j] == x;
            assert(sorted@.to_set().contains(sorted@[j]));
            let m = choose|m: int| 0 <= m < tagged@.len() && tagged@[m] == sorted@[j];
            assert(indices@[m] == x);
        }
        assert forall|x: u32| indices@.to_set().contains(x) implies vals.to_set().contains(x) by {
            let m = choose|m: int| 0 <= m < indices@.len() && indices@[m] == x;
            assert(tagged@[m] == (x, m as usize));
            assert(tagged@.to_set().contains(tagged@[m]));
            let j = choose|j: int| 0 <= j < sorted@.len() && sorted@[j] == tagged@[m];
            assert(vals[j] == x);
        }
        assert(vals.to_set() =~= indices@.to_set());
        crate::order::lemma_sorted_list_of(out@, u32_order());
    }
    out
}

/// The highlight ranges of a hit: the matched positions merged into runs,
/// filed under the name (which has `name_len` characters) or under the
/// synopsis.
pub fn highlight_ranges(name_len: usize, indices: &Vec<u32>) -> (r: (
    Vec<(usize, usize)>,
    Vec<(usize, usize)>,
))
    requires
        forall|m: int| 0 <= m < indices@.len() ==> #[trigger] indices@[m] < u32::MAX,
    ensures
        (r.0@, r.1@) == split_runs(name_len as int, runs(distinct_sorted(indices@))),
{
    let sorted = sort_dedup(indices);
    let ghost ds = sorted@;
    assert forall|m: int| 0 <= m < ds.len() implies #[trigger] ds[m] < u32::MAX by {
        assert(ds.to_set().contains(ds[m]));
        let j = choose|j: int| 0 <= j < indices@.len() && indices@[j] == ds[m];
    }
    let mut name_ranges: Vec<(usize, usize)> = Vec::new();
    let mut synopsis_ranges: Vec<(usize, usize)> = Vec::new();
    let mut run: Option<(usize, usize)> = None;
    let mut i: usize = 0;
    while i < sorted.len()
        invariant
            ds == sorted@,
            forall|m: int| 0 <= m < ds.len() ==> #[trigger] ds[m] < u32::MAX,
            i <= ds.len(),
            i == 0 ==> run is None,
            i > 0 ==> run is Some && runs(ds.take(i as int)).len() > 0 && (run->0).0 as int == runs(
                ds.take(i as int),
            ).last().0 && (run->0).1 as int == runs(ds.take(i as int)).last().1,
            i > 0 ==> (name_ranges@, synopsis_ranges@) == split_runs(
                name_len as int,
                runs(ds.take(i as int)).drop_last(),
            ),
            i == 0 ==> name_ranges@.len() == 0 && synopsis_ranges@.len() == 0,
        decreases ds.len() - i,
    {
        let idx = sorted[i] as usize;
        let ghost prev = runs(ds.take(i as int));
        assert(ds.take(i + 1).drop_last() =~= ds.take(i as int));
        match run {
            Some((st, e)) if idx == e => {
                run = Some((st, e + 1));
                assert(runs(ds.take(i + 1)).drop_last() =~= prev.drop_last());
            },
            _ => {
                if let Some((st, e)) = run {
                    push_range(name_len, st, e, &mut name_ranges, &mut synopsis_ranges);
                    assert(runs(ds.take(i + 1)).drop_last() =~= prev);
                    assert(prev.drop_last().push(prev.last()) =~= prev);
                } else {
                    assert(runs(ds.take(i + 1)).drop_last() =~= prev);
                }
                run = Some((idx, idx + 1));
            },
        }
        i += 1;
    }
    assert(ds.take(ds.len() as int) =~= ds);
    if let Some((st, e)) = run {
        push_range(name_len, st, e, &mut name_ranges, &mut synopsis_ranges);
        assert(runs(ds).drop_last().push(runs(ds).last()) =~= runs(ds));
    } else {
        assert(runs(ds) =~= Seq::<(int, int)>::empty());
    }
    (name_ranges, synopsis_ranges)
}

/// Threads used by a scan: what is available, between one and eight.
pub open spec fn thread_count(threads: usize) -> int {
    if threads < 1 {
        1
    } else if threads > 8 {
        8
    } else {
        threads as int
    }
}

/// Candidates per chunk: the length divided by the threads, rounded up.
pub open spec fn chunk_len(len: usize, threads: usize) -> int {
    let t = thread_count(threads);
    len as int / t + if len as int % t == 0 {
        0int
    } else {
        1int
    }
}

/// Consecutive ranges of `c` candidates from `start` on, the last one
/// shorter where `len` cuts it.
pub open spec fn ranges_from(start: int, len: int, c: int) -> Seq<(usize, usize)>
    decreases len - start,
    when c > 0
{
    if start >= len {
        Seq::empty()
    } else {
        let e = if start + c < len {
            start + c
        } else {
            len
        };
        seq![(start as usize, e as usize)] + ranges_from(e, len, c)
    }
}

/// The chunk boundaries of a parallel scan over `len` candidates.
pub open spec fn chunks_of(len: usize, threads: usize) -> Seq<(usize, usize)> {
    if len == 0 {
        Seq::empty()
    } else {
        ranges_from(0, len as int, chunk_len(len, threads))
    }
}

/// The ranges are nonempty, follow each other without gaps, and cover
/// `0..len`.
pub open spec fn tiles(rs: Seq<(usize, usize)>, start: int, len: int) -> bool {
    &&& rs.len() == 0 <==> start >= len
    &&& rs.len() > 0 ==> rs[0].0 == start && rs.last().1 == len
    &&& forall|k: int| 0 <= k < rs.len() ==> (#[trigger] rs[k]).0 < rs[k].1
    &&& forall|k: int| 0 <= k < rs.len() - 1 ==> (#[trigger] rs[k]).1 == rs[k + 1].0
}

proof fn lemma_ranges_from(start: int, len: int, c: int, k: int)
    requires
        c > 0,
        0 <= start,
        len <= usize::MAX,
        k >= 0,
        len - start <= k * c,
    ensures
        ranges_from(start, len, c).len() <= k,
        tiles(ranges_from(start, len, c), start, len),
    decreases len - start,
{
    if start < len {
        let e = if start + c < len {
            start + c
        } else {
            len
        };
        assert(k * c > 0);
        assert(k >= 1) by (nonlinear_arith)
            requires
                k * c > 0,
                c > 0,
                k >= 0,
        ;
        assert(len - e <= (k - 1) * c) by (nonlinear_arith)
            requires
                len - start <= k * c,
                k >= 1,
                c > 0,
                e == start + c || e == len,
                e <= len,
        ;
        lemma_ranges_from(e, len, c, k - 1);
        let rest = ranges_from(e, len, c);
        let all = seq![(start as usize, e as usize)] + rest;
        assert(ranges_from(start, len, c) == all);
        assert forall|q: int| 0 <= q < all.len() implies (#[trigger] all[q]).0 < all[q].1 by {
            if q > 0 {
                assert(all[q] == rest[q - 1]);
            }
        }
        assert forall|q: int| 0 <= q < all.len() - 1 implies (#[trigger] all[q]).1 == all[q + 1].0 by {
            if q > 0 {
                assert(all[q] == rest[q - 1]);
                assert(all[q + 1] == rest[q]);
            }
        }
    }
}

/// Chunk boundaries for the parallel scan: at most eight nonempty ranges
/// that tile `0..len`.
pub fn chunk_ranges(len: usize, threads: usize) -> (r: Vec<(usize, usize)>)
    ensures
        r@ == chunks_of(len, threads),
        tiles(r@, 0, len as int),
        r@.len() <= thread_count(threads),
{
    let t: usize = if threads < 1 {
        1
    } else if threads > 8 {
        8
    } else {
        threads
    };
    let mut out: Vec<(usize, usize)> = Vec::new();
    if len == 0 {
        assert(out@ =~= chunks_of(len, threads));
        return out;
    }
    let q: usize = len / t;
    proof {
        vstd::arithmetic::div_mod::lemma_fundamental_div_mod(len as int, t as int);
        if len % t != 0 {
            assert(t >= 2);
            assert(q < usize::MAX) by (nonlinear_arith)
                requires
                    len == t * q + len % t,
                    t >= 2,
                    q >= 0,
                    len <= usize::MAX,
            ;
        }
    }
    let c: usize = if len % t == 0 {
        q
    } else {
        q + 1
    };
    assert(c == chunk_len(len, threads));
    proof {
        let q = len as int / t as int;
        let m = len as int % t as int;
        vstd::arithmetic::div_mod::lemma_fundamental_div_mod(len as int, t as int);
        assert(c * t >= len) by (nonlinear_arith)
            requires
                len == t * q + m,
                0 <= m < t,
                c == q + (if m == 0 {
                    0int
                } else {
                    1int
                }),
        ;
        assert(c > 0) by (nonlinear_arith)
            requires
                c * t >= len,
                len > 0,
                t > 0,
                c >= 0,
        ;
        lemma_ranges_from(0, len as int, c as int, t as int);
    }
    let mut s: usize = 0;
    while s < len
        invariant
            c > 0,
            c == chunk_len(len, threads),
            s <= len,
            len > 0,
            out@ + ranges_from(s as int, len as int, c as int) == ranges_from(0, len as int, c as int),
        decreases len - s,
    {
        let e = if len - s > c {
            s + c
        } else {
            len
        };
        let ghost rest = ranges_from(e as int, len as int, c as int);
        assert(ranges_from(s as int, len as int, c as int) == seq![(s, e)] + rest);
        out.push((s, e));
        assert(out@ + rest =~= ranges_from(0, len as int, c as int));
        s = e;
    }
    assert(ranges_from(s as int, len as int, c as int) =~= Seq::<(usize, usize)>::empty());
    assert(out@ =~= ranges_from(0, len as int, c as int));
    out
}

/// Package ids in browse order: the most depended-on first, then by name,
/// then by id.
pub open spec fn hub_order_of(v: IndexView) -> Seq<u32> {
    sorted_list(Set::new(|id: u32| id < v.packages.len()), keyed_order(hub_key(v)))
}

/// The browse order of an empty query.
pub fn hub_order(index: &Index) -> (r: Vec<u32>)
    requires
        index.wf(),
    ensures
        r@ == hub_order_of(index@),
{
    let n = index.packages.len();
    assert(n <= MAX_INDEX_ENTRIES);
    let mut ids: Vec<u32> = Vec::new();
    let mut k: usize = 0;
    while k < n
        invariant
            n == index@.packages.len(),
            n <= MAX_INDEX_ENTRIES,
            k <= n,
            ids@.len() == k,
            forall|m: int| 0 <= m < k ==> #[trigger] ids@[m] == m,
        decreases n - k,
    {
        ids.push(k as u32);
        k += 1;
    }
    proof {
        assert(ids@.no_duplicates());
        assert(ids@.to_set() =~= Set::new(|id: u32| id < n)) by {
            assert forall|id: u32| id < n implies ids@.to_set().contains(id) by {
                assert(ids@[id as int] == id);
            }
        }
        lemma_keyed_order(hub_key(index@));
    }
    let ghost lt = keyed_order(hub_key(index@));
    let less = |a: u32, b: u32| -> (r: bool)
        ensures
            r == keyed_order(hub_key(index@))(a, b),
        { hub_less(index, a, b) };
    let sorted = sort_ids(&ids, &less, Ghost(lt));
    proof {
        crate::order::lemma_sorted_list_of(sorted@, lt);
    }
    sorted
}

/// The hit an empty query shows for a package: unscored, unhighlighted.
pub open spec fn browse_hit(id: u32) -> SearchHit {
    SearchHit { id, score: 0, name_match: false }
}

/// An empty query browses the first `limit` packages of the browse order.
pub fn browse(by_hub: &Vec<u32>, limit: usize) -> (r: Vec<HighlightedHit>)
    ensures
        r@.len() == if limit < by_hub@.len() {
            limit as int
        } else {
            by_hub@.len() as int
        },
        forall|k: int|
            0 <= k < r@.len() ==> (#[trigger] r@[k]).hit == browse_hit(by_hub@[k])
                && r@[k].name_ranges@.len() == 0 && r@[k].synopsis_ranges@.len() == 0,
{
    let mut out: Vec<HighlightedHit> = Vec::new();
    let mut k: usize = 0;
    while k < by_hub.len() && k < limit
        invariant
            k <= by_hub@.len(),
            k <= limit,
            out@.len() == k,
            forall|m: int|
                0 <= m < k ==> (#[trigger] out@[m]).hit == browse_hit(by_hub@[m])
                    && out@[m].name_ranges@.len() == 0 && out@[m].synopsis_ranges@.len() == 0,
        decreases by_hub@.len() - k,
    {
        out.push(
            HighlightedHit {
                hit: SearchHit { id: by_hub[k], score: 0, name_match: false },
                name_ranges: Vec::new(),
                synopsis_ranges: Vec::new(),
            },
        );
        k += 1;
    }
    out
}

/// How often a byte occurs in a text.
pub open spec fn byte_count(s: Seq<u8>, b: u8) -> nat
    decreases s.len(),
{
    if s.len() == 0 {
        0
    } else {
        byte_count(s.drop_last(), b) + if s.last() == b {
            1nat
        } else {
            0nat
        }
    }
}

/// How often a byte occurs over the UTF-8 encodings of some texts.
pub open spec fn total_count(hays: Seq<Seq<char>>, b: u8) -> nat
    decreases hays.len(),
{
    if hays.len() == 0 {
        0
    } else {
        total_count(hays.drop_last(), b) + byte_count(encode_utf8(hays.last()), b)
    }
}

pub open spec fn texts_view(hays: Seq<String>) -> Seq<Seq<char>> {
    hays.map_values(|h: String| h@)
}

/// Byte frequencies over the folded haystacks, one counter per byte value.
pub fn byte_freq(lower: &Vec<String>) -> (r: Vec<u32>)
    requires
        forall|b: u8| total_count(texts_view(lower@), b) <= u32::MAX,
    ensures
        r@.len() == 256,
        forall|b: u8| #[trigger] r@[b as int] == total_count(texts_view(lower@), b),
{
    let ghost hays = texts_view(lower@);
    let mut freq: Vec<u32> = Vec::new();
    let mut k: usize = 0;
    while k < 256
        invariant
            k <= 256,
            freq@.len() == k,
            forall|m: int| 0 <= m < k ==> #[trigger] freq@[m] == 0,
        decreases 256 - k,
    {
        freq.push(0);
        k += 1;
    }
    let mut h: usize = 0;
    while h < lower.len()
        invariant
            hays == texts_view(lower@),
            forall|b: u8| total_count(hays, b) <= u32::MAX,
            h <= lower@.len(),
            freq@.len() == 256,
            forall|b: u8| #[trigger] freq@[b as int] == total_count(hays.take(h as int), b),
        decreases lower@.len() - h,
    {
        let bytes = lower[h].as_str().as_bytes();
        let ghost hay = hays[h as int];
        let ghost pre = hays.take(h as int);
        let ghost cur = hays.take(h + 1);
        assert(hay == lower@[h as int]@);
        assert(cur.drop_last() =~= pre);
        assert(cur.last() == hay);
        proof {
            lemma_total_count_prefix(hays, h as int + 1);
            assert forall|b: u8| #[trigger] total_count(cur, b) <= total_count(hays, b) by {}
        }
        let mut j: usize = 0;
        while j < bytes.len()
            invariant
                hays == texts_view(lower@),
                forall|b: u8| total_count(hays, b) <= u32::MAX,
                h < lower@.len(),
                pre == hays.take(h as int),
                cur == hays.take(h + 1),
                bytes@ == encode_utf8(hay),
                j <= bytes@.len(),
                freq@.len() == 256,
                forall|b: u8| #[trigger] total_count(cur, b) <= total_count(hays, b),
                forall|b: u8| #[trigger] total_count(cur, b) == total_count(pre, b) + byte_count(bytes@, b),
                forall|b: u8| #[trigger] freq@[b as int] == total_count(pre, b) + byte_count(bytes@.take(j as int), b),
            decreases bytes@.len() - j,
        {
            let x = bytes[j];
            proof {
                assert(bytes@.take(j + 1).drop_last() =~= bytes@.take(j as int));
                lemma_byte_count_prefix(bytes@, j as int + 1, x);
                assert(total_count(cur, x) <= total_count(hays, x));
                assert(freq@[x as int] + 1 <= total_count(cur, x));
            }
            freq.set(x as usize, freq[x as usize] + 1);
            proof {
                assert forall|b: u8| #[trigger] freq@[b as int] == total_count(pre, b) + byte_count(bytes@.take(j + 1), b) by {
                    assert(bytes@.take(j + 1).last() == x);
                }
            }
            j += 1;
        }
        assert(bytes@.take(bytes@.len() as int) =~= bytes@);
        h += 1;
    }
    assert(hays.take(lower@.len() as int) =~= hays);
    freq
}

proof fn lemma_byte_count_prefix(s: Seq<u8>, j: int, b: u8)
    requires
        0 <= j <= s.len(),
    ensures
        byte_count(s.take(j), b) <= byte_count(s, b),
    decreases s.len(),
{
    if j < s.len() {
        assert(s.drop_last().take(j) =~= s.take(j));
        lemma_byte_count_prefix(s.drop_last(), j, b);
    } else {
        assert(s.take(j) =~= s);
    }
}

proof fn lemma_total_count_prefix(hays: Seq<Seq<char>>, j: int)
    requires
        0 <= j <= hays.len(),
    ensures
        forall|b: u8| total_count(hays.take(j), b) <= total_count(hays, b),
    decreases hays.len(),
{
    if j < hays.len() {
        assert(hays.drop_last().take(j) =~= hays.take(j));
        lemma_total_count_prefix(hays.drop_last(), j);
        assert forall|b: u8| total_count(hays.take(j), b) <= total_count(hays, b) by {
            assert(total_count(hays, b) >= total_count(hays.drop_last(), b));
        }
    } else {
        assert(hays.take(j) =~= hays);
    }
}

/// The first of the rarest ASCII bytes of a term, by frequency.
pub open spec fn first_rarest(bs: Seq<u8>, freq: Seq<u32>) -> Option<u8>
    decreases bs.len(),
{
    if bs.len() == 0 {
        None
    } else {
        let r = first_rarest(bs.drop_last(), freq);
        let b = bs.last();
        if b >= 128 {
            r
        } else {
            match r {
                None => Some(b),
                Some(x) => if freq[b as int] < freq[x as int] {
                    Some(b)
                } else {
                    Some(x)
                },
            }
        }
    }
}

/// The byte a term is prefiltered on: its rarest ASCII byte, unless that
/// byte occurs so often (80% of the package count or more) that checking
/// it would reject nothing worth the check.
pub open spec fn rarest_of(term: Seq<char>, freq: Seq<u32>, total: u32) -> Option<u8> {
    match first_rarest(encode_utf8(term), freq) {
        None => None,
        Some(b) => if freq[b as int] * 100 < total * 80 {
            Some(b)
        } else {
            None
        },
    }
}

/// The prefilter byte of a term.
pub fn rarest_byte(term: &str, freq: &Vec<u32>, total: u32) -> (r: Option<u8>)
    requires
        freq@.len() == 256,
    ensures
        r == rarest_of(term@, freq@, total),
{
    let bytes = term.as_bytes();
    let mut best: Option<u8> = None;
    let mut j: usize = 0;
    while j < bytes.len()
        invariant
            freq@.len() == 256,
            bytes@ == encode_utf8(term@),
            j <= bytes@.len(),
            best == first_rarest(bytes@.take(j as int), freq@),
        decreases bytes@.len() - j,
    {
        let b = bytes[j];
        assert(bytes@.take(j + 1).drop_last() =~= bytes@.take(j as int));
        if b < 128 {
            best = match best {
                None => Some(b),
                Some(x) => if freq[b as usize] < freq[x as usize] {
                    Some(b)
                } else {
                    Some(x)
                },
            };
        }
        j += 1;
    }
    assert(bytes@.take(bytes@.len() as int) =~= bytes@);
    match best {
        None => None,
        Some(b) => {
            if (freq[b as usize] as u64) * 100 < (total as u64) * 80 {
                Some(b)
            } else {
                None
            }
        },
    }
}

/// A haystack passes the prefilter when it holds every prefilter byte.
pub open spec fn passes(hay: Seq<char>, rarest: Seq<Option<u8>>) -> bool {
    forall|j: int|
        0 <= j < rarest.len() ==> match #[trigger] rarest[j] {
            Some(b) => encode_utf8(hay).contains(b),
            None => true,
        }
}

/// Whether a folded haystack holds every prefilter byte of the query.
pub fn prefilter(hay: &str, rarest: &Vec<Option<u8>>) -> (r: bool)
    ensures
        r == passes(hay@, rarest@),
{
    let bytes = hay.as_bytes();
    let mut j: usize = 0;
    while j < rarest.len()
        invariant
            bytes@ == encode_utf8(hay@),
            j <= rarest@.len(),
            forall|q: int|
                0 <= q < j ==> match #[trigger] rarest@[q] {
                    Some(b) => bytes@.contains(b),
                    None => true,
                },
        decreases rarest@.len() - j,
    {
        if let Some(b) = rarest[j] {
            let mut found = false;
            let mut m: usize = 0;
            while m < bytes.len()
                invariant
                    m <= bytes@.len(),
                    found <==> exists|q: int| 0 <= q < m && bytes@[q] == b,
                decreases bytes@.len() - m,
            {
                if bytes[m] == b {
                    found = true;
                }
                m += 1;
            }
            if !found {
                assert(!bytes@.contains(b));
                assert(!match rarest@[j as int] {
                    Some(b) => bytes@.contains(b),
                    None => true,
                });
                return false;
            }
        }
        j += 1;
    }
    true
}

/// The score after the substring boosts: an exact hit on the name beats
/// a fuzzy one, and a hit in the synopsis beats a scattered match.
pub open spec fn boosted(score: u32, in_name: bool, in_hay: bool) -> u32 {
    let add: int = if in_name {
        700
    } else if in_hay {
        200
    } else {
        0
    };
    if score + add > u32::MAX {
        u32::MAX
    } else {
        (score + add) as u32
    }
}

/// Apply the substring boosts to a score, saturating.
pub fn boost(score: u32, in_name: bool, in_hay: bool) -> (r: u32)
    ensures
        r == boosted(score, in_name, in_hay),
{
    if in_name {
        score.saturating_add(700)
    } else if in_hay {
        score.saturating_add(200)
    } else {
        score
    }
}

/// All hits of the chunks of a scan, chunk after chunk.
pub open spec fn concat_hits(parts: Seq<Seq<SearchHit>>) -> Seq<SearchHit>
    decreases parts.len(),
{
    if parts.len() == 0 {
        Seq::empty()
    } else {
        concat_hits(parts.drop_last()) + parts.last()
    }
}

pub open spec fn parts_view(parts: Seq<Vec<SearchHit>>) -> Seq<Seq<SearchHit>> {
    parts.map_values(|p: Vec<SearchHit>| p@)
}

/// Merge the chunks of a scan and keep the best `limit` hits.
pub fn select_hits(index: &Index, parts: &Vec<Vec<SearchHit>>, limit: usize) -> (r: Vec<SearchHit>)
    requires
        concat_hits(parts_view(parts@)).no_duplicates(),
    ensures
        r@ == top_hits(index@, concat_hits(parts_view(parts@)).to_set(), limit as nat),
{
    let ghost ps = parts_view(parts@);
    let mut all: Vec<SearchHit> = Vec::new();
    let mut k: usize = 0;
    while k < parts.len()
        invariant
            ps == parts_view(parts@),
            k <= parts@.len(),
            all@ == concat_hits(ps.take(k as int)),
        decreases parts@.len() - k,
    {
        let part = &parts[k];
        assert(ps.take(k + 1).drop_last() =~= ps.take(k as int));
        assert(ps.take(k + 1).last() == part@);
        let ghost before = all@;
        let mut m: usize = 0;
        while m < part.len()
            invariant
                m <= part@.len(),
                all@ == before + part@.take(m as int),
            decreases part@.len() - m,
        {
            all.push(part[m]);
            assert(part@.take(m + 1) =~= part@.take(m as int).push(part@[m as int]));
            m += 1;
        }
        assert(part@.take(part@.len() as int) =~= part@);
        k += 1;
    }
    assert(ps.take(parts@.len() as int) =~= ps);
    rank_hits(index, &all, limit)
}

/// A name with the names of the dependents filed under it.
pub type NameGroup = (Seq<char>, Seq<Seq<char>>);

/// Where a name is filed, if it is.
pub open spec fn find_group(g: Seq<NameGroup>, name: Seq<char>) -> Option<int>
    decreases g.len(),
{
    if g.len() == 0 {
        None
    } else if g.last().0 == name {
        Some(g.len() - 1)
    } else {
        find_group(g.drop_last(), name)
    }
}

/// The names of some packages.
pub open spec fn names_of(v: IndexView, ids: Seq<u32>) -> Seq<Seq<char>> {
    ids.map_values(|d: u32| name_of(v, d))
}

/// Dependent names filed by package name over the first `k` packages: a
/// name gets an entry at its first package with dependents, and the
/// dependents of later packages of that name are appended to it.
pub open spec fn groups_upto(v: IndexView, k: int) -> Seq<NameGroup>
    decreases k,
{
    if k <= 0 {
        Seq::empty()
    } else {
        let g = groups_upto(v, k - 1);
        let name = v.packages[k - 1].name;
        let ds = names_of(v, v.dependents[k - 1]);
        if ds.len() == 0 {
            g
        } else {
            match find_group(g, name) {
                Some(i) => g.update(i, (g[i].0, g[i].1 + ds)),
                None => g.push((name, ds)),
            }
        }
    }
}

pub open spec fn groups_view(r: Seq<(String, Vec<String>)>) -> Seq<NameGroup> {
    r.map_values(|e: (String, Vec<String>)| (e.0@, e.1@.map_values(|s: String| s@)))
}

pub(crate) proof fn lemma_find_group(g: Seq<NameGroup>, name: Seq<char>)
    ensures
        match find_group(g, name) {
            Some(i) => 0 <= i < g.len() && g[i].0 == name,
            None => forall|i: int| 0 <= i < g.len() ==> (#[trigger] g[i]).0 != name,
        },
    decreases g.len(),
{
    if g.len() > 0 {
        lemma_find_group(g.drop_last(), name);
        assert forall|i: int| 0 <= i < g.len() - 1 implies (#[trigger] g[i]) == g.drop_last()[i] by {}
    }
}

fn find_group_exec(out: &Vec<(String, Vec<String>)>, name: &str) -> (r: Option<usize>)
    ensures
        match r {
            Some(i) => find_group(groups_view(out@), name@) == Some(i as int) && i < out@.len(),
            None => find_group(groups_view(out@), name@) is None,
        },
{
    let ghost g = groups_view(out@);
    assert(g.take(out@.len() as int) =~= g);
    proof {
        lemma_find_group(g, name@);
    }
    let mut k: usize = out.len();
    while k > 0
        invariant
            g == groups_view(out@),
            k <= out@.len(),
            find_group(g, name@) == find_group(g.take(k as int), name@),
        decreases k,
    {
        assert(g.take(k as int).drop_last() =~= g.take(k - 1));
        assert(g.take(k as int).last() == g[k - 1]);
        if str_eq(out[k - 1].0.as_str(), name) {
            return Some(k - 1);
        }
        k -= 1;
    }
    assert(g.take(0) =~= Seq::<NameGroup>::empty());
    None
}

/// Dependent names grouped by package name, each name filed once.
pub fn dependents_by_name(index: &Index) -> (r: Vec<(String, Vec<String>)>)
    requires
        index.wf(),
    ensures
        groups_view(r@) == groups_upto(index@, index@.packages.len() as int),
{
    let ghost v = index@;
    let n = index.packages.len();
    let mut out: Vec<(String, Vec<String>)> = Vec::new();
    let mut k: usize = 0;
    while k < n
        invariant
            index.wf(),
            v == index@,
            n == v.packages.len(),
            k <= n,
            groups_view(out@) == groups_upto(v, k as int),
        decreases n - k,
    {
        let p = &index.packages[k];
        assert(p@ == v.packages[k as int]);
        let ds = &index.dependents[k];
        assert(ds@ == v.dependents[k as int]);
        let mut names: Vec<String> = Vec::new();
        let mut m: usize = 0;
        while m < ds.len()
            invariant
                index.wf(),
                v == index@,
                k < n,
                n == v.packages.len(),
                ds@ == v.dependents[k as int],
                m <= ds@.len(),
                names@.map_values(|s: String| s@) == names_of(v, ds@.take(m as int)),
            decreases ds@.len() - m,
        {
            let d = ds[m];
            assert(d < n);
            let dn = hit_name(index, d).to_owned();
            let ghost before = names@;
            names.push(dn);
            assert(names@.map_values(|s: String| s@) =~= before.map_values(|s: String| s@).push(
                name_of(v, d),
            ));
            assert(names_of(v, ds@.take(m + 1)) =~= names_of(v, ds@.take(m as int)).push(
                name_of(v, d),
            ));
            m += 1;
        }
        assert(ds@.take(ds@.len() as int) =~= ds@);
        let ghost dsv = names_of(v, ds@);
        let ghost g = groups_view(out@);
        if names.len() > 0 {
            match find_group_exec(&out, p.name.as_str()) {
                Some(i) => {
                    let ghost orig = out@;
                    let mut entry = (String::new(), Vec::new());
                    std::mem::swap(&mut entry, &mut out[i]);
                    assert(entry == orig[i as int]);
                    let ghost old_list = entry.1@;
                    assert(entry.0@ == g[i as int].0);
                    assert(old_list.map_values(|s: String| s@) == g[i as int].1);
                    let mut q: usize = 0;
                    let ghost names_v = names@;
                    let ghost e0 = entry.0;
                    while q < names.len()
                        invariant
                            names@ == names_v,
                            entry.0 == e0,
                            q <= names_v.len(),
                            entry.1@ == old_list + names_v.take(q as int),
                        decreases names_v.len() - q,
                    {
                        entry.1.push(names[q].clone());
                        assert(names_v.take(q + 1) =~= names_v.take(q as int).push(names_v[q as int]));
                        q += 1;
                    }
                    assert(names_v.take(names_v.len() as int) =~= names_v);
                    assert(entry.1@.map_values(|s: String| s@) =~= g[i as int].1 + dsv);
                    let ghost e = entry;
                    out.set(i, entry);
                    assert(out@ =~= orig.update(i as int, e));
                    assert(groups_view(out@)[i as int] == (e.0@, e.1@.map_values(|s: String| s@)));
                    assert(e.0@ == g[i as int].0);
                    assert(groups_view(out@) =~= g.update(i as int, (g[i as int].0, g[i as int].1 + dsv)));
                },
                None => {
                    out.push((p.name.clone(), names));
                    assert(groups_view(out@) =~= g.push((v.packages[k as int].name, dsv)));
                },
            }
        } else {
            assert(dsv.len() == 0);
        }
        k += 1;
    }
    out
}

proof fn lemma_concat_contains(cs: Seq<Seq<SearchHit>>, x: SearchHit)
    ensures
        concat_hits(cs).contains(x) <==> exists|i: int| 0 <= i < cs.len() && #[trigger] cs[i].contains(x),
    decreases cs.len(),
{
    if cs.len() > 0 {
        let d = cs.drop_last();
        lemma_concat_contains(d, x);
        let a = concat_hits(d);
        let b = cs.last();
        let c = concat_hits(cs);
        assert(c == a + b);
        if c.contains(x) {
            let q = choose|q: int| 0 <= q < c.len() && c[q] == x;
            if q < a.len() {
                assert(a[q] == x);
                assert(a.contains(x));
                let i = choose|i: int| 0 <= i < d.len() && #[trigger] d[i].contains(x);
                assert(cs[i] == d[i]);
            } else {
                assert(b[q - a.len()] == x);
                assert(cs[cs.len() - 1].contains(x));
            }
        }
        if exists|i: int| 0 <= i < cs.len() && #[trigger] cs[i].contains(x) {
            let i = choose|i: int| 0 <= i < cs.len() && #[trigger] cs[i].contains(x);
            if i < cs.len() - 1 {
                assert(d[i] == cs[i]);
                assert(a.contains(x));
                let q = choose|q: int| 0 <= q < a.len() && a[q] == x;
                assert(c[q] == x);
            } else {
                let q = choose|q: int| 0 <= q < b.len() && b[q] == x;
                assert(c[a.len() + q] == x);
            }
        }
    }
}

/// The best `limit` hits of every chunk.
pub open spec fn chunk_tops(v: IndexView, chunks: Seq<Seq<SearchHit>>, limit: nat) -> Seq<Seq<SearchHit>> {
    chunks.map_values(|c: Seq<SearchHit>| top_hits(v, c.to_set(), limit))
}

/// A shorter result list is a prefix of a longer one: limiting a search
/// never reorders what it keeps; and from hits without repeats it keeps as
/// many as the limit allows.
pub proof fn law_limited_prefix(v: IndexView, hits: Seq<SearchHit>, small: nat, large: nat)
    requires
        small <= large,
    ensures
        top_hits(v, hits.to_set(), small) == top_hits(v, hits.to_set(), large).take(
            top_hits(v, hits.to_set(), small).len() as int,
        ),
        hits.no_duplicates() ==> top_hits(v, hits.to_set(), small).len() == if small < hits.len() {
            small
        } else {
            hits.len()
        },
{
    if hits.no_duplicates() {
        hits.unique_seq_to_set();
    }
    lemma_rank_order(v);
    lemma_first_k(hits, rank_order(v), small);
    lemma_first_k(hits, rank_order(v), large);
    let l = sorted_list(hits.to_set(), rank_order(v));
    let a = top_hits(v, hits.to_set(), small);
    let b = top_hits(v, hits.to_set(), large);
    assert(a =~= b.take(a.len() as int));
}

/// Keeping only the best `limit` hits of each chunk of a parallel scan
/// before merging the chunks yields the best `limit` hits of the whole
/// scan.
pub proof fn law_chunked_selection(v: IndexView, chunks: Seq<Seq<SearchHit>>, limit: nat)
    ensures
        top_hits(v, concat_hits(chunk_tops(v, chunks, limit)).to_set(), limit) == top_hits(
            v,
            concat_hits(chunks).to_set(),
            limit,
        ),
{
    let lt = rank_order(v);
    lemma_rank_order(v);
    let us = concat_hits(chunks);
    let u = us.to_set();
    let tops = chunk_tops(v, chunks, limit);
    let ws = concat_hits(tops);
    let w = ws.to_set();
    lemma_first_k(us, lt, limit);
    lemma_first_k(ws, lt, limit);
    let a = first_k(u, lt, limit).to_set();
    let b = first_k(w, lt, limit).to_set();
    assert forall|x: SearchHit| w.contains(x) implies u.contains(x) by {
        assert(ws.contains(x));
        lemma_concat_contains(tops, x);
        let i = choose|i: int| 0 <= i < tops.len() && #[trigger] tops[i].contains(x);
        lemma_first_k(chunks[i], lt, limit);
        assert(tops[i] == first_k(chunks[i].to_set(), lt, limit));
        assert(tops[i].to_set().contains(x));
        assert(chunks[i].to_set().contains(x));
        assert(chunks[i].contains(x));
        lemma_concat_contains(chunks, x);
    }
    assert forall|x: SearchHit| a.contains(x) implies w.contains(x) by {
        assert(u.contains(x));
        lemma_concat_contains(chunks, x);
        let i = choose|i: int| 0 <= i < chunks.len() && #[trigger] chunks[i].contains(x);
        let ci = chunks[i];
        let ti = first_k(ci.to_set(), lt, limit);
        lemma_first_k(ci, lt, limit);
        assert(tops[i] == ti);
        assert(ci.to_set().contains(x));
        if !ti.to_set().contains(x) {
            if ci.to_set().len() <= limit {
                vstd::set_lib::lemma_subset_equality(ti.to_set(), ci.to_set());
            }
            assert forall|t: SearchHit| #[trigger] ti.to_set().insert(x).contains(t) implies a.contains(t) by {
                if t != x {
                    assert(ci.to_set().contains(t));
                    if lt(x, t) {
                        assert(ti.to_set().contains(t) && ci.to_set().contains(x));
                    }
                    assert(lt(t, x));
                    assert(ci.contains(t));
                    lemma_concat_contains(chunks, t);
                    assert(us.contains(t));
                    assert(a.contains(x) && u.contains(t));
                }
            }
            vstd::set_lib::lemma_len_subset(ti.to_set().insert(x), a);
            assert(false);
        }
        assert(tops[i].contains(x));
        lemma_concat_contains(tops, x);
    }
    vstd::set_lib::lemma_len_subset(a, w);
    vstd::set_lib::lemma_len_subset(w, u);
    assert(down_closed(a, w, lt));
    lemma_down_closed_unique(a, b, w, lt);
    lemma_sorted_unique(first_k(w, lt, limit), first_k(u, lt, limit), lt);
}


proof fn lemma_first_rarest(bs: Seq<u8>, freq: Seq<u32>)
    requires
        freq.len() == 256,
    ensures
        match first_rarest(bs, freq) {
            Some(b) => b < 128 && bs.contains(b) && forall|k: int|
                0 <= k < bs.len() && bs[k] < 128 ==> freq[b as int] <= freq[(#[trigger] bs[k]) as int],
            None => forall|k: int| 0 <= k < bs.len() ==> (#[trigger] bs[k]) >= 128,
        },
    decreases bs.len(),
{
    if bs.len() > 0 {
        let d = bs.drop_last();
        lemma_first_rarest(d, freq);
        let last = bs.len() - 1;
        assert(bs.last() == bs[last]);
        assert forall|k: int| 0 <= k < d.len() implies d[k] == bs[k] by {}
        match first_rarest(bs, freq) {
            Some(b) => {
                if b == bs[last] {
                    assert(bs.contains(b) && bs[last] == b);
                } else {
                    let x = first_rarest(d, freq)->0;
                    assert(first_rarest(d, freq) == Some(x));
                    let m = choose|m: int| 0 <= m < d.len() && d[m] == x;
                    assert(bs[m] == b);
                }
                assert forall|k: int| 0 <= k < bs.len() && bs[k] < 128 implies freq[b as int] <= freq[(
                #[trigger] bs[k]) as int] by {
                    if k < last {
                        assert(d[k] == bs[k]);
                    }
                }
            },
            None => {
                assert forall|k: int| 0 <= k < bs.len() implies (#[trigger] bs[k]) >= 128 by {
                    if k < last {
                        assert(d[k] == bs[k]);
                    }
                }
            },
        }
    }
}

/// The prefilter only skips candidates that cannot match: a haystack that
/// holds every ASCII byte of every term passes it. The byte checked for a
/// term is one of its ASCII bytes, and none of its other ASCII bytes is
/// rarer.
pub proof fn law_prefilter_keeps_candidates(
    hay: Seq<char>,
    terms: Seq<Seq<char>>,
    freq: Seq<u32>,
    total: u32,
)
    requires
        freq.len() == 256,
        forall|j: int, k: int|
            0 <= j < terms.len() && 0 <= k < encode_utf8(terms[j]).len() && (#[trigger] encode_utf8(
                terms[j],
            )[k]) < 128 ==> encode_utf8(hay).contains(encode_utf8(terms[j])[k]),
    ensures
        passes(hay, terms.map_values(|t: Seq<char>| rarest_of(t, freq, total))),
        forall|j: int|
            0 <= j < terms.len() ==> match rarest_of(#[trigger] terms[j], freq, total) {
                Some(b) => b < 128 && encode_utf8(terms[j]).contains(b) && forall|k: int|
                    0 <= k < encode_utf8(terms[j]).len() && encode_utf8(terms[j])[k] < 128
                        ==> freq[b as int] <= freq[(#[trigger] encode_utf8(terms[j])[k]) as int],
                None => true,
            },
{
    let rs = terms.map_values(|t: Seq<char>| rarest_of(t, freq, total));
    assert forall|j: int| 0 <= j < terms.len() implies match rarest_of(#[trigger] terms[j], freq, total) {
        Some(b) => b < 128 && encode_utf8(terms[j]).contains(b) && forall|k: int|
            0 <= k < encode_utf8(terms[j]).len() && encode_utf8(terms[j])[k] < 128 ==> freq[b as int]
                <= freq[(#[trigger] encode_utf8(terms[j])[k]) as int],
        None => true,
    } by {
        lemma_first_rarest(encode_utf8(terms[j]), freq);
    }
    assert forall|j: int| 0 <= j < rs.len() implies match #[trigger] rs[j] {
        Some(b) => encode_utf8(hay).contains(b),
        None => true,
    } by {
        assert(rs[j] == rarest_of(terms[j], freq, total));
        lemma_first_rarest(encode_utf8(terms[j]), freq);
        match rs[j] {
            Some(b) => {
                let bs = encode_utf8(terms[j]);
                let k = choose|k: int| 0 <= k < bs.len() && bs[k] == b;
                assert(bs[k] < 128);
            },
            None => {},
        }
    }
}


/// Each range is nonempty, and each ends before every later one begins.
pub open spec fn ordered_ranges(rs: Seq<(int, int)>) -> bool {
    &&& forall|k: int| 0 <= k < rs.len() ==> (#[trigger] rs[k]).0 < rs[k].1
    &&& forall|j: int, k: int| 0 <= j < k < rs.len() ==> (#[trigger] rs[j]).1 < (#[trigger] rs[k]).0
}

/// `x` is one of the positions.
pub open spec fn matched(s: Seq<u32>, x: int) -> bool {
    0 <= x <= u32::MAX && s.contains(x as u32)
}

/// Position `x` of a synopsis is matched: the name and its separator come
/// first.
pub open spec fn matched_after(s: Seq<u32>, name_len: int, x: int) -> bool {
    matched(s, x + name_len + 1)
}

pub open spec fn usize_ranges(rs: Seq<(usize, usize)>) -> Seq<(int, int)> {
    rs.map_values(|r: (usize, usize)| (r.0 as int, r.1 as int))
}

proof fn lemma_runs(s: Seq<u32>)
    requires
        forall|i: int, j: int| 0 <= i < j < s.len() ==> (#[trigger] s[i]) < (#[trigger] s[j]),
    ensures
        ordered_ranges(runs(s)),
        forall|k: int, x: int|
            0 <= k < runs(s).len() && (#[trigger] runs(s)[k]).0 <= x < runs(s)[k].1 ==> #[trigger] matched(s, x),
        s.len() > 0 ==> runs(s).len() > 0 && runs(s).last().1 == s.last() + 1,
        forall|k: int|
            0 <= k < runs(s).len() ==> 0 <= (#[trigger] runs(s)[k]).0 && runs(s)[k].1 <= s.last() + 1,
    decreases s.len(),
{
    if s.len() > 0 {
        let d = s.drop_last();
        assert forall|i: int, j: int| 0 <= i < j < d.len() implies (#[trigger] d[i]) < (#[trigger] d[j]) by {
            assert(s[i] < s[j]);
        }
        lemma_runs(d);
        let r = runs(d);
        let t = runs(s);
        let x = s.last() as int;
        assert(s.last() == s[s.len() - 1]);
        if d.len() > 0 {
            assert(d.last() == s[s.len() - 2]);
            assert(s[s.len() - 2] < s[s.len() - 1]);
        }
        assert forall|k: int| 0 <= k < r.len() implies (#[trigger] r[k]).1 <= x by {
            if k < r.len() - 1 {
                assert(r[k].1 < r[r.len() - 1].0);
            }
        }
        assert forall|y: int| #[trigger] matched(d, y) implies matched(s, y) by {
            let i = choose|i: int| 0 <= i < d.len() && d[i] == y as u32;
            assert(s[i] == d[i]);
        }
        if r.len() > 0 && r.last().1 == x {
            let l = r.len() - 1;
            assert(t == r.update(l, (r[l].0, x + 1)));
            assert forall|k: int, y: int| 0 <= k < t.len() && (#[trigger] t[k]).0 <= y < t[k].1 implies #[trigger] matched(s, y) by {
                if k < l || y < x {
                    assert(r[k].0 <= y < r[k].1);
                    assert(matched(d, y));
                } else {
                    assert(s[s.len() - 1] == y as u32);
                }
            }
            assert forall|j: int, k: int| 0 <= j < k < t.len() implies (#[trigger] t[j]).1 < (#[trigger] t[k]).0 by {
                assert(r[j].1 < r[k].0);
            }
        } else {
            assert(t == r.push((x, x + 1)));
            assert forall|k: int, y: int| 0 <= k < t.len() && (#[trigger] t[k]).0 <= y < t[k].1 implies #[trigger] matched(s, y) by {
                if k < r.len() {
                    assert(r[k].0 <= y < r[k].1);
                    assert(matched(d, y));
                } else {
                    assert(s[s.len() - 1] == y as u32);
                }
            }
            assert forall|j: int, k: int| 0 <= j < k < t.len() implies (#[trigger] t[j]).1 < (#[trigger] t[k]).0 by {
                if k < r.len() {
                    assert(r[j].1 < r[k].0);
                } else {
                    assert(r[j].1 <= x);
                    assert(r[j].1 != x || j < r.len() - 1);
                    if j < r.len() - 1 {
                        assert(r[j].1 < r[r.len() - 1].0);
                        assert(r[r.len() - 1].0 < r[r.len() - 1].1);
                    }
                }
            }
        }
    }
}

/// `r` is a run of `rs` that lies within the name.
pub open spec fn name_run(rs: Seq<(int, int)>, name_len: int, r: (int, int)) -> bool {
    exists|m: int| 0 <= m < rs.len() && rs[m].1 <= name_len && r == rs[m]
}

/// `r` is a run of `rs` that lies within the synopsis, shifted past the
/// name and its separator.
pub open spec fn synopsis_run(rs: Seq<(int, int)>, name_len: int, r: (int, int)) -> bool {
    exists|m: int|
        0 <= m < rs.len() && rs[m].0 > name_len && r == (rs[m].0 - name_len - 1, rs[m].1 - name_len - 1)
}

proof fn lemma_split_runs(name_len: int, rs: Seq<(int, int)>)
    requires
        0 <= name_len,
        ordered_ranges(rs),
        forall|k: int| 0 <= k < rs.len() ==> 0 <= (#[trigger] rs[k]).0 && rs[k].1 <= u32::MAX,
    ensures
        forall|k: int|
            0 <= k < split_runs(name_len, rs).0.len() ==> #[trigger] name_run(
                rs,
                name_len,
                usize_ranges(split_runs(name_len, rs).0)[k],
            ),
        forall|k: int|
            0 <= k < split_runs(name_len, rs).1.len() ==> #[trigger] synopsis_run(
                rs,
                name_len,
                usize_ranges(split_runs(name_len, rs).1)[k],
            ),
        ordered_ranges(usize_ranges(split_runs(name_len, rs).0)),
        ordered_ranges(usize_ranges(split_runs(name_len, rs).1)),
    decreases rs.len(),
{
    if rs.len() > 0 {
        let d = rs.drop_last();
        let l = rs.len() - 1;
        assert forall|j: int, k: int| 0 <= j < k < d.len() implies (#[trigger] d[j]).1 < (#[trigger] d[k]).0 by {
            assert(rs[j].1 < rs[k].0);
        }
        lemma_split_runs(name_len, d);
        let p = split_runs(name_len, d);
        let a = split_runs(name_len, rs).0;
        let b = split_runs(name_len, rs).1;
        assert(rs.last() == rs[l]);
        assert(rs[l].0 < rs[l].1);
        let pa = usize_ranges(p.0);
        let pb = usize_ranges(p.1);
        let ua = usize_ranges(a);
        let ub = usize_ranges(b);
        assert forall|k: int| 0 <= k < pa.len() implies ua[k] == pa[k] && name_run(rs, name_len, ua[k]) by {
            assert(a[k] == p.0[k]);
            assert(name_run(d, name_len, pa[k]));
            let m = choose|m: int| 0 <= m < d.len() && d[m].1 <= name_len && pa[k] == d[m];
            assert(rs[m] == d[m]);
        }
        assert forall|k: int| 0 <= k < pb.len() implies ub[k] == pb[k] && synopsis_run(rs, name_len, ub[k]) by {
            assert(b[k] == p.1[k]);
            assert(synopsis_run(d, name_len, pb[k]));
            let m = choose|m: int|
                0 <= m < d.len() && d[m].0 > name_len && pb[k] == (d[m].0 - name_len - 1, d[m].1 - name_len - 1);
            assert(rs[m] == d[m]);
        }
        if a.len() > pa.len() {
            assert(a.len() == pa.len() + 1);
            assert(a[pa.len() as int] == (rs[l].0 as usize, rs[l].1 as usize));
            assert(rs[l].1 <= name_len);
            assert(ua[pa.len() as int] == rs[l]);
        }
        if b.len() > pb.len() {
            assert(b.len() == pb.len() + 1);
            assert(rs[l].0 > name_len);
            assert(b[pb.len() as int] == ((rs[l].0 - name_len - 1) as usize, (rs[l].1 - name_len - 1) as usize));
            assert(ub[pb.len() as int] == (rs[l].0 - name_len - 1, rs[l].1 - name_len - 1));
        }
        assert forall|k: int| 0 <= k < a.len() implies #[trigger] name_run(rs, name_len, usize_ranges(a)[k]) by {
            if k == pa.len() {
                assert(ua[k] == rs[l]);
            }
        }
        assert forall|k: int| 0 <= k < b.len() implies #[trigger] synopsis_run(rs, name_len, usize_ranges(b)[k]) by {
            if k == pb.len() {
                assert(ub[k] == (rs[l].0 - name_len - 1, rs[l].1 - name_len - 1));
            }
        }
        assert forall|k: int| 0 <= k < ua.len() implies (#[trigger] ua[k]).0 < ua[k].1 by {
            assert(name_run(rs, name_len, ua[k]));
            let m = choose|m: int| 0 <= m < rs.len() && rs[m].1 <= name_len && ua[k] == rs[m];
            assert(rs[m].0 < rs[m].1);
        }
        assert forall|k: int| 0 <= k < ub.len() implies (#[trigger] ub[k]).0 < ub[k].1 by {
            assert(synopsis_run(rs, name_len, ub[k]));
            let m = choose|m: int|
                0 <= m < rs.len() && rs[m].0 > name_len && ub[k] == (rs[m].0 - name_len - 1, rs[m].1 - name_len - 1);
            assert(rs[m].0 < rs[m].1);
        }
        assert forall|j: int, k: int| 0 <= j < k < ua.len() implies (#[trigger] ua[j]).1 < (#[trigger] ua[k]).0 by {
            if k < pa.len() {
                assert(pa[j].1 < pa[k].0);
            } else {
                assert(name_run(d, name_len, pa[j]));
                let m = choose|m: int| 0 <= m < d.len() && d[m].1 <= name_len && pa[j] == d[m];
                assert(rs[m] == d[m]);
                assert(rs[m].1 < rs[l].0);
            }
        }
        assert forall|j: int, k: int| 0 <= j < k < ub.len() implies (#[trigger] ub[j]).1 < (#[trigger] ub[k]).0 by {
            if k < pb.len() {
                assert(pb[j].1 < pb[k].0);
            } else {
                assert(synopsis_run(d, name_len, pb[j]));
                let m = choose|m: int|
                    0 <= m < d.len() && d[m].0 > name_len && pb[j] == (d[m].0 - name_len - 1, d[m].1 - name_len - 1);
                assert(rs[m] == d[m]);
                assert(rs[m].1 < rs[l].0);
            }
        }
    }
}

/// The highlight ranges of a hit are ordered and disjoint: each is
/// nonempty and ends before the next begins. The name ranges lie within
/// the name, and every position they cover is a matched position; every
/// position a synopsis range covers, shifted past the name and its
/// separator, is a matched position.
pub proof fn law_highlight_ranges(name_len: usize, indices: Seq<u32>)
    requires
        forall|m: int| 0 <= m < indices.len() ==> #[trigger] indices[m] < u32::MAX,
    ensures
        ({
            let (nr, sr) = split_runs(name_len as int, runs(distinct_sorted(indices)));
            &&& ordered_ranges(usize_ranges(nr))
            &&& ordered_ranges(usize_ranges(sr))
            &&& forall|k: int| 0 <= k < nr.len() ==> (#[trigger] nr[k]).1 <= name_len
            &&& forall|k: int, x: int|
                0 <= k < nr.len() && (#[trigger] nr[k]).0 <= x < nr[k].1 ==> #[trigger] matched(indices, x)
            &&& forall|k: int, x: int|
                0 <= k < sr.len() && (#[trigger] sr[k]).0 <= x < sr[k].1 ==> #[trigger] matched_after(
                    indices,
                    name_len as int,
                    x,
                )
        }),
{
    let ds = distinct_sorted(indices);
    assert(strict_total(u32_order()));
    crate::order::lemma_sorted_list_exists(indices, u32_order());
    assert forall|i: int, j: int| 0 <= i < j < ds.len() implies (#[trigger] ds[i]) < (#[trigger] ds[j]) by {
        assert(u32_order()(ds[i], ds[j]));
    }
    lemma_runs(ds);
    let rs = runs(ds);
    if ds.len() > 0 {
        assert(ds.to_set().contains(ds.last()));
        let m = choose|m: int| 0 <= m < indices.len() && indices[m] == ds.last();
    }
    assert forall|k: int| 0 <= k < rs.len() implies 0 <= (#[trigger] rs[k]).0 && rs[k].1 <= u32::MAX by {}
    lemma_split_runs(name_len as int, rs);
    let (nr, sr) = split_runs(name_len as int, rs);
    assert forall|y: int| #[trigger] matched(ds, y) implies matched(indices, y) by {
        assert(ds.to_set().contains(y as u32));
    }
    assert forall|k: int| 0 <= k < nr.len() implies (#[trigger] nr[k]).1 <= name_len by {
        assert(name_run(rs, name_len as int, usize_ranges(nr)[k]));
        let m = choose|m: int| 0 <= m < rs.len() && rs[m].1 <= name_len && usize_ranges(nr)[k] == rs[m];
    }
    assert forall|k: int, x: int| 0 <= k < nr.len() && (#[trigger] nr[k]).0 <= x < nr[k].1 implies #[trigger] matched(indices, x) by {
        assert(name_run(rs, name_len as int, usize_ranges(nr)[k]));
        let m = choose|m: int| 0 <= m < rs.len() && rs[m].1 <= name_len && usize_ranges(nr)[k] == rs[m];
        assert(rs[m].0 <= x < rs[m].1);
        assert(matched(ds, x));
    }
    assert forall|k: int, x: int| 0 <= k < sr.len() && (#[trigger] sr[k]).0 <= x < sr[k].1 implies #[trigger] matched_after(indices, name_len as int, x) by {
        assert(synopsis_run(rs, name_len as int, usize_ranges(sr)[k]));
        let m = choose|m: int| 0 <= m < rs.len() && rs[m].0 > name_len && usize_ranges(sr)[k] == (rs[m].0 - name_len - 1, rs[m].1 - name_len - 1);
        assert(rs[m].0 <= x + name_len + 1 < rs[m].1);
        assert(matched(ds, x + name_len + 1));
    }
}

/// When every matched position lies in the searched text (the name, a
/// separator and at most `syn_len` characters of synopsis), the highlight
/// ranges stay within the name and within those `syn_len` characters.
pub proof fn law_highlight_within(name_len: usize, syn_len: nat, indices: Seq<u32>)
    requires
        forall|m: int| 0 <= m < indices.len() ==> #[trigger] indices[m] < u32::MAX,
        forall|m: int| 0 <= m < indices.len() ==> #[trigger] indices[m] < name_len + 1 + syn_len,
    ensures
        ({
            let (nr, sr) = split_runs(name_len as int, runs(distinct_sorted(indices)));
            &&& forall|k: int| 0 <= k < nr.len() ==> (#[trigger] nr[k]).0 < nr[k].1 <= name_len
            &&& forall|k: int| 0 <= k < sr.len() ==> (#[trigger] sr[k]).0 < sr[k].1 <= syn_len
        }),
{
    law_highlight_ranges(name_len, indices);
    let (nr, sr) = split_runs(name_len as int, runs(distinct_sorted(indices)));
    assert forall|k: int| 0 <= k < nr.len() implies (#[trigger] nr[k]).0 < nr[k].1 <= name_len by {
        assert(usize_ranges(nr)[k] == (nr[k].0 as int, nr[k].1 as int));
    }
    assert forall|k: int| 0 <= k < sr.len() implies (#[trigger] sr[k]).0 < sr[k].1 <= syn_len by {
        assert(usize_ranges(sr)[k] == (sr[k].0 as int, sr[k].1 as int));
        let x = sr[k].1 - 1;
        assert(matched_after(indices, name_len as int, x));
        let m = choose|m: int| 0 <= m < indices.len() && indices[m] == (x + name_len + 1) as u32;
        assert(indices[m] < name_len + 1 + syn_len);
    }
}

/// The highlight ranges of the hit at position `pos` of a result list:
/// those of its matched positions for the first `HIGHLIGHT_CAP` hits, none
/// after them.
pub fn hit_highlights(pos: usize, name_len: usize, indices: &Vec<u32>) -> (r: (
    Vec<(usize, usize)>,
    Vec<(usize, usize)>,
))
    requires
        forall|m: int| 0 <= m < indices@.len() ==> #[trigger] indices@[m] < u32::MAX,
    ensures
        pos >= HIGHLIGHT_CAP ==> r.0@.len() == 0 && r.1@.len() == 0,
        pos < HIGHLIGHT_CAP ==> (r.0@, r.1@) == split_runs(name_len as int, runs(distinct_sorted(indices@))),
{
    if pos >= HIGHLIGHT_CAP {
        (Vec::new(), Vec::new())
    } else {
        highlight_ranges(name_len, indices)
    }
}

/// A candidate matches a multi-word query when every word scores on it.
pub fn all_terms_match(scores: &Vec<Option<u32>>) -> (r: bool)
    ensures
        r == forall|i: int| 0 <= i < scores@.len() ==> (#[trigger] scores@[i]) is Some,
{
    let mut i: usize = 0;
    while i < scores.len()
        invariant
            i <= scores@.len(),
            forall|j: int| 0 <= j < i ==> (#[trigger] scores@[j]) is Some,
        decreases scores@.len() - i,
    {
        if scores[i].is_none() {
            return false;
        }
        i += 1;
    }
    true
}

} // verus!
