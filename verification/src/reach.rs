//! What a closure reaches: the packages a walk from the root can get to by
//! following relations in one direction, and no others.

use vstd::prelude::*;

use crate::index::{index_wf, kinds_for, typed_pairs, typed_seq, DepKind, IndexView, MAX_INDEX_ENTRIES};
use crate::order::{keyed_order, lemma_keyed_order, lemma_sorted_list_exists, seq_lt, sorted_list};
use crate::relations::{
    add_kind, kind_list, no_kinds, HitView, KindSet, closure_after, closure_done, closure_edges, closure_expand, closure_final, closure_hits,
    closure_start, closure_step, closure_visit, hit_key, lemma_closure_final, reached_ids,
    reached_set, rev_edges, Closure, Direction, UNREACHED,
};

verus! {

/// One step of a closure: the dependencies closure goes from a package to
/// each package it lists; the dependents closure goes to each recorded
/// dependent that lists it.
pub open spec fn follows(v: IndexView, dir: Direction, a: u32, b: u32) -> bool {
    match dir {
        Direction::Dependencies => typed_seq(v.packages[a as int]).contains(b),
        Direction::Dependents => v.dependents[a as int].contains(b) && typed_seq(
            v.packages[b as int],
        ).contains(a),
    }
}

/// The `i`-th step of a walk is a relation.
pub open spec fn step_ok(v: IndexView, dir: Direction, p: Seq<u32>, i: int) -> bool {
    follows(v, dir, p[i], p[i + 1])
}

/// A walk: package ids of the index, each followed by the next.
pub open spec fn is_walk(v: IndexView, dir: Direction, p: Seq<u32>) -> bool {
    &&& p.len() > 0
    &&& forall|i: int| 0 <= i < p.len() ==> #[trigger] p[i] < v.packages.len()
    &&& forall|i: int| 0 <= i < p.len() - 1 ==> #[trigger] step_ok(v, dir, p, i)
}

/// Some walk leads from `root` to `id`.
pub open spec fn reaches(v: IndexView, root: u32, dir: Direction, id: u32) -> bool {
    exists|p: Seq<u32>| #[trigger] is_walk(v, dir, p) && p[0] == root && p.last() == id
}

proof fn lemma_kinds_for_nonempty(s: Seq<(u32, DepKind)>, id: u32)
    ensures
        kinds_for(s, id).len() > 0 <==> exists|q: int| 0 <= q < s.len() && (#[trigger] s[q]).0 == id,
    decreases s.len(),
{
    if s.len() > 0 {
        let d = s.drop_last();
        lemma_kinds_for_nonempty(d, id);
        if kinds_for(s, id).len() > 0 {
            if s.last().0 == id {
                assert(s[s.len() - 1].0 == id);
            } else {
                let q = choose|q: int| 0 <= q < d.len() && (#[trigger] d[q]).0 == id;
                assert(s[q] == d[q]);
            }
        }
        if exists|q: int| 0 <= q < s.len() && (#[trigger] s[q]).0 == id {
            let q = choose|q: int| 0 <= q < s.len() && (#[trigger] s[q]).0 == id;
            if q < s.len() - 1 {
                assert(d[q] == s[q]);
            }
        }
    }
}

proof fn lemma_pairs_seq(v: IndexView, b: u32)
    requires
        b < v.packages.len(),
    ensures
        typed_pairs(v.packages[b as int]).len() == typed_seq(v.packages[b as int]).len(),
        forall|m: int|
            0 <= m < typed_seq(v.packages[b as int]).len() ==> (#[trigger] typed_pairs(
                v.packages[b as int],
            )[m]).0 == typed_seq(v.packages[b as int])[m],
{
    let p = v.packages[b as int];
    assert forall|m: int| 0 <= m < typed_seq(p).len() implies (#[trigger] typed_pairs(p)[m]).0
        == typed_seq(p)[m] by {
        assert(typed_pairs(p)[m].0 == typed_seq(p)[m]);
    }
}

/// A package lists `a` exactly when it holds a typed relation to `a`.
proof fn lemma_lists(v: IndexView, b: u32, a: u32)
    requires
        b < v.packages.len(),
    ensures
        typed_seq(v.packages[b as int]).contains(a) <==> kinds_for(
            typed_pairs(v.packages[b as int]),
            a,
        ).len() > 0,
{
    let p = v.packages[b as int];
    lemma_pairs_seq(v, b);
    lemma_kinds_for_nonempty(typed_pairs(p), a);
    if typed_seq(p).contains(a) {
        let m = choose|m: int| 0 <= m < typed_seq(p).len() && typed_seq(p)[m] == a;
        assert(typed_pairs(p)[m].0 == a);
    }
    if kinds_for(typed_pairs(p), a).len() > 0 {
        let q = choose|q: int| 0 <= q < typed_pairs(p).len() && (#[trigger] typed_pairs(p)[q]).0 == a;
        assert(typed_seq(p)[q] == a);
    }
}

proof fn lemma_rev_edges(v: IndexView, a: u32, m: int)
    requires
        index_wf(v),
        a < v.packages.len(),
        0 <= m <= v.dependents[a as int].len(),
    ensures
        forall|q: int|
            0 <= q < rev_edges(v, a, m).len() ==> exists|j: int|
                0 <= j < m && v.dependents[a as int][j] == (#[trigger] rev_edges(v, a, m)[q]).0
                    && typed_seq(v.packages[v.dependents[a as int][j] as int]).contains(a),
        forall|j: int|
            0 <= j < m && typed_seq(v.packages[(#[trigger] v.dependents[a as int][j]) as int]).contains(
                a,
            ) ==> exists|q: int|
                0 <= q < rev_edges(v, a, m).len() && rev_edges(v, a, m)[q].0 == v.dependents[a as int][j],
    decreases m,
{
    if m > 0 {
        lemma_rev_edges(v, a, m - 1);
        let prev = rev_edges(v, a, m - 1);
        let d = v.dependents[a as int][m - 1];
        assert(d < v.packages.len());
        let ks = kinds_for(typed_pairs(v.packages[d as int]), a);
        let add = ks.map_values(|k: DepKind| (d, k));
        let all = rev_edges(v, a, m);
        assert(all == prev + add);
        lemma_lists(v, d, a);
        assert forall|q: int| 0 <= q < all.len() implies exists|j: int|
            0 <= j < m && v.dependents[a as int][j] == (#[trigger] all[q]).0 && typed_seq(
                v.packages[v.dependents[a as int][j] as int],
            ).contains(a) by {
            if q < prev.len() {
                assert(all[q] == prev[q]);
                let j = choose|j: int|
                    0 <= j < m - 1 && v.dependents[a as int][j] == (#[trigger] prev[q]).0 && typed_seq(
                        v.packages[v.dependents[a as int][j] as int],
                    ).contains(a);
                assert(v.dependents[a as int][j] == all[q].0);
            } else {
                assert(all[q] == add[q - prev.len()]);
                assert(all[q].0 == d);
                assert(ks.len() > 0);
                assert(v.dependents[a as int][m - 1] == all[q].0);
            }
        }
        assert forall|j: int|
            0 <= j < m && typed_seq(v.packages[(#[trigger] v.dependents[a as int][j]) as int]).contains(
                a,
            ) implies exists|q: int|
            0 <= q < all.len() && all[q].0 == v.dependents[a as int][j] by {
            if j < m - 1 {
                let q = choose|q: int| 0 <= q < prev.len() && prev[q].0 == v.dependents[a as int][j];
                assert(all[q] == prev[q]);
            } else {
                assert(ks.len() > 0);
                assert(all[prev.len() as int] == add[0]);
            }
        }
    }
}

/// The relations a closure follows out of `a` are exactly its steps, and
/// stay inside the index.
proof fn lemma_closure_edges(v: IndexView, a: u32, dir: Direction)
    requires
        index_wf(v),
        a < v.packages.len(),
    ensures
        forall|q: int|
            0 <= q < closure_edges(v, a, dir).len() ==> (#[trigger] closure_edges(v, a, dir)[q]).0
                < v.packages.len() && follows(v, dir, a, closure_edges(v, a, dir)[q].0),
        forall|b: u32|
            #[trigger] follows(v, dir, a, b) ==> b < v.packages.len() && exists|q: int|
                0 <= q < closure_edges(v, a, dir).len() && closure_edges(v, a, dir)[q].0 == b,
{
    let es = closure_edges(v, a, dir);
    match dir {
        Direction::Dependencies => {
            let p = v.packages[a as int];
            lemma_pairs_seq(v, a);
            assert forall|q: int| 0 <= q < es.len() implies (#[trigger] es[q]).0 < v.packages.len()
                && follows(v, dir, a, es[q].0) by {
                assert(es[q].0 == typed_seq(p)[q]);
            }
            assert forall|b: u32| #[trigger] follows(v, dir, a, b) implies b < v.packages.len()
                && exists|q: int| 0 <= q < es.len() && es[q].0 == b by {
                let m = choose|m: int| 0 <= m < typed_seq(p).len() && typed_seq(p)[m] == b;
                assert(es[m].0 == b);
            }
        },
        Direction::Dependents => {
            let ds = v.dependents[a as int];
            lemma_rev_edges(v, a, ds.len() as int);
            assert forall|q: int| 0 <= q < es.len() implies (#[trigger] es[q]).0 < v.packages.len()
                && follows(v, dir, a, es[q].0) by {
                let j = choose|j: int|
                    0 <= j < ds.len() && ds[j] == (#[trigger] es[q]).0 && typed_seq(
                        v.packages[ds[j] as int],
                    ).contains(a);
                assert(ds[j] < v.packages.len());
            }
            assert forall|b: u32| #[trigger] follows(v, dir, a, b) implies b < v.packages.len()
                && exists|q: int| 0 <= q < es.len() && es[q].0 == b by {
                let j = choose|j: int| 0 <= j < ds.len() && ds[j] == b;
                assert(ds[j] < v.packages.len());
                assert(typed_seq(v.packages[ds[j] as int]).contains(a));
            }
        },
    }
}

/// Some walk of `d` steps leads from `root` to `id`.
pub open spec fn reaches_in(v: IndexView, root: u32, dir: Direction, id: u32, d: nat) -> bool {
    exists|p: Seq<u32>|
        #[trigger] is_walk(v, dir, p) && p[0] == root && p.last() == id && p.len() == d + 1
}

/// `d` is the distance from `root` to `id`: some walk takes `d` steps and
/// none takes fewer.
pub open spec fn is_distance(v: IndexView, root: u32, dir: Direction, id: u32, d: nat) -> bool {
    &&& reaches_in(v, root, dir, id, d)
    &&& forall|p: Seq<u32>|
        #[trigger] is_walk(v, dir, p) && p[0] == root && p.last() == id ==> d + 1 <= p.len()
}

/// A walk of `d` steps to `a` extends by one step.
proof fn lemma_reaches_step(v: IndexView, root: u32, dir: Direction, a: u32, b: u32, d: nat)
    requires
        reaches_in(v, root, dir, a, d),
        follows(v, dir, a, b),
        b < v.packages.len(),
    ensures
        reaches_in(v, root, dir, b, d + 1),
{
    let p = choose|p: Seq<u32>|
        #[trigger] is_walk(v, dir, p) && p[0] == root && p.last() == a && p.len() == d + 1;
    let p2 = p.push(b);
    assert forall|i: int| 0 <= i < p2.len() - 1 implies #[trigger] step_ok(v, dir, p2, i) by {
        if i < p.len() - 1 {
            assert(step_ok(v, dir, p, i));
        }
    }
    assert(is_walk(v, dir, p2));
}

/// What a closure walk keeps: the queue starts at the root, at depth zero,
/// and lists each reached package once, in order of depth; a reached
/// package's depth is below the queue length and a walk of that many steps
/// reaches it.
pub open spec fn walk_ok(v: IndexView, root: u32, dir: Direction, c: Closure) -> bool {
    let n = v.packages.len();
    &&& c.depths.len() == n
    &&& c.queue.len() > 0 && c.queue[0] == root
    &&& c.depths[root as int] == 0
    &&& c.queue.no_duplicates()
    &&& c.head <= c.queue.len()
    &&& reached_ids(c.depths).finite()
    &&& reached_ids(c.depths).len() == c.queue.len()
    &&& forall|j: int|
        0 <= j < c.queue.len() ==> (#[trigger] c.queue[j]) < n && c.depths[c.queue[j] as int]
            != UNREACHED
    &&& forall|i: int, j: int|
        0 <= i < j < c.queue.len() ==> c.depths[(#[trigger] c.queue[i]) as int] <= c.depths[(
        #[trigger] c.queue[j]) as int]
    &&& forall|x: int|
        0 <= x < n && #[trigger] c.depths[x] != UNREACHED ==> c.queue.contains(x as u32)
            && c.depths[x] < c.queue.len() && reaches_in(v, root, dir, x as u32, c.depths[x] as nat)
}

/// Every step out of a package before the queue head leads to a reached
/// package at most one deeper.
pub open spec fn head_closed(v: IndexView, dir: Direction, c: Closure) -> bool {
    forall|j: int, b: u32|
        0 <= j < c.head && b < v.packages.len() && #[trigger] follows(v, dir, c.queue[j], b)
            ==> c.depths[b as int] != UNREACHED && c.depths[b as int] <= c.depths[c.queue[j] as int]
            + 1
}

/// No package in the queue is more than one deeper than any package not
/// yet expanded.
pub open spec fn front_ok(c: Closure) -> bool {
    forall|i: int, j: int|
        c.head <= i < c.queue.len() && 0 <= j < c.queue.len() ==> c.depths[(
        #[trigger] c.queue[j]) as int] <= c.depths[(#[trigger] c.queue[i]) as int] + 1
}

/// During the expansion of a package at depth `lo`: every queued package
/// is at most one deeper, and none after the head is shallower.
pub open spec fn expanding(c: Closure, lo: int) -> bool {
    &&& forall|j: int| 0 <= j < c.queue.len() ==> c.depths[(#[trigger] c.queue[j]) as int] <= lo + 1
    &&& forall|i: int|
        c.head <= i < c.queue.len() ==> lo <= c.depths[(#[trigger] c.queue[i]) as int]
}

proof fn lemma_queue_bound(v: IndexView, root: u32, dir: Direction, c: Closure)
    requires
        index_wf(v),
        walk_ok(v, root, dir, c),
    ensures
        c.queue.len() <= v.packages.len(),
{
    let n = v.packages.len();
    vstd::set_lib::lemma_int_range(0, n as int);
    assert(reached_ids(c.depths).subset_of(vstd::set_lib::set_int_range(0, n as int)));
    vstd::set_lib::lemma_len_subset(reached_ids(c.depths), vstd::set_lib::set_int_range(0, n as int));
}

proof fn lemma_visit(v: IndexView, root: u32, dir: Direction, c: Closure, e: (u32, DepKind), lo: int)
    requires
        index_wf(v),
        walk_ok(v, root, dir, c),
        expanding(c, lo),
        0 <= lo,
        lo + 1 <= c.queue.len(),
        e.0 < v.packages.len(),
        reaches_in(v, root, dir, e.0, (lo + 1) as nat),
    ensures
        walk_ok(v, root, dir, closure_visit(c, e, (lo + 1) as usize)),
        expanding(closure_visit(c, e, (lo + 1) as usize), lo),
        closure_visit(c, e, (lo + 1) as usize).head == c.head,
        closure_visit(c, e, (lo + 1) as usize).queue.len() >= c.queue.len(),
        forall|j: int|
            0 <= j < c.queue.len() ==> closure_visit(c, e, (lo + 1) as usize).queue[j] == c.queue[j],
        forall|x: int|
            0 <= x < v.packages.len() && c.depths[x] != UNREACHED ==> #[trigger] closure_visit(
                c,
                e,
                (lo + 1) as usize,
            ).depths[x] == c.depths[x],
        closure_visit(c, e, (lo + 1) as usize).depths[e.0 as int] != UNREACHED,
{
    let n = v.packages.len();
    let nd = (lo + 1) as usize;
    lemma_queue_bound(v, root, dir, c);
    let c2 = closure_visit(c, e, nd);
    let x0 = e.0 as int;
    if c.depths[x0] == UNREACHED {
        assert(nd != UNREACHED);
        assert(!c.queue.contains(e.0)) by {
            if c.queue.contains(e.0) {
                let j = choose|j: int| 0 <= j < c.queue.len() && c.queue[j] == e.0;
                assert(c.depths[c.queue[j] as int] != UNREACHED);
            }
        }
        assert(!reached_ids(c.depths).contains(x0));
        assert(reached_ids(c2.depths) =~= reached_ids(c.depths).insert(x0));
        let last = c.queue.len() as int;
        assert(c2.queue[last] == e.0);
        assert forall|j: int| 0 <= j < c2.queue.len() implies (#[trigger] c2.queue[j]) < n
            && c2.depths[c2.queue[j] as int] != UNREACHED && c2.depths[c2.queue[j] as int] <= lo + 1 by {
            if j < last {
                assert(c2.queue[j] == c.queue[j]);
                assert(c.depths[c.queue[j] as int] != UNREACHED);
            }
        }
        assert forall|i: int| c2.head <= i < c2.queue.len() implies lo <= c2.depths[(
        #[trigger] c2.queue[i]) as int] by {
            if i < last {
                assert(c2.queue[i] == c.queue[i]);
                assert(c.depths[c.queue[i] as int] != UNREACHED);
            }
        }
        assert forall|i: int, j: int| 0 <= i < j < c2.queue.len() implies c2.depths[(
        #[trigger] c2.queue[i]) as int] <= c2.depths[(#[trigger] c2.queue[j]) as int] by {
            assert(c2.queue[i] == c.queue[i]);
            assert(c.depths[c.queue[i] as int] != UNREACHED);
            if j < last {
                assert(c2.queue[j] == c.queue[j]);
                assert(c.depths[c.queue[j] as int] != UNREACHED);
                assert(c.depths[c.queue[i] as int] <= c.depths[c.queue[j] as int]);
            } else {
                assert(c.depths[c.queue[i] as int] <= lo + 1);
            }
        }
        assert forall|x: int| 0 <= x < n && #[trigger] c2.depths[x] != UNREACHED implies c2.queue.contains(
            x as u32,
        ) && c2.depths[x] < c2.queue.len() && reaches_in(v, root, dir, x as u32, c2.depths[x] as nat) by {
            if x == x0 {
                assert(c2.queue[last] == e.0);
            } else {
                assert(c.depths[x] != UNREACHED);
                let j = choose|j: int| 0 <= j < c.queue.len() && c.queue[j] == x as u32;
                assert(c2.queue[j] == x as u32);
            }
        }
        assert(c2.queue.no_duplicates()) by {
            assert forall|i: int, j: int| 0 <= i < c2.queue.len() && 0 <= j < c2.queue.len() && i != j
                implies c2.queue[i] != c2.queue[j] by {
                if i < last && j < last {
                    assert(c2.queue[i] == c.queue[i] && c2.queue[j] == c.queue[j]);
                } else if i < last {
                    assert(c2.queue[i] == c.queue[i]);
                    assert(c.queue.contains(c.queue[i]));
                } else if j < last {
                    assert(c2.queue[j] == c.queue[j]);
                    assert(c.queue.contains(c.queue[j]));
                }
            }
        }
        assert(c2.queue[0] == root);
        assert(c.depths[root as int] != UNREACHED);
    } else {
        assert(c2.depths == c.depths);
        assert(c2.queue == c.queue);
    }
}

proof fn lemma_expand(v: IndexView, root: u32, dir: Direction, c: Closure, es: Seq<(u32, DepKind)>, lo: int)
    requires
        index_wf(v),
        walk_ok(v, root, dir, c),
        expanding(c, lo),
        0 <= lo,
        lo + 1 <= c.queue.len(),
        forall|q: int|
            0 <= q < es.len() ==> (#[trigger] es[q]).0 < v.packages.len() && reaches_in(
                v,
                root,
                dir,
                es[q].0,
                (lo + 1) as nat,
            ),
    ensures
        walk_ok(v, root, dir, closure_expand(c, es, (lo + 1) as usize)),
        expanding(closure_expand(c, es, (lo + 1) as usize), lo),
        closure_expand(c, es, (lo + 1) as usize).head == c.head,
        closure_expand(c, es, (lo + 1) as usize).queue.len() >= c.queue.len(),
        forall|j: int|
            0 <= j < c.queue.len() ==> closure_expand(c, es, (lo + 1) as usize).queue[j] == c.queue[j],
        forall|x: int|
            0 <= x < v.packages.len() && c.depths[x] != UNREACHED ==> #[trigger] closure_expand(
                c,
                es,
                (lo + 1) as usize,
            ).depths[x] == c.depths[x],
        forall|q: int|
            0 <= q < es.len() ==> closure_expand(c, es, (lo + 1) as usize).depths[(
            #[trigger] es[q]).0 as int] != UNREACHED,
    decreases es.len(),
{
    let nd = (lo + 1) as usize;
    if es.len() > 0 {
        let d = es.drop_last();
        assert forall|q: int| 0 <= q < d.len() implies (#[trigger] d[q]).0 < v.packages.len()
            && reaches_in(v, root, dir, d[q].0, (lo + 1) as nat) by {
            assert(d[q] == es[q]);
        }
        lemma_expand(v, root, dir, c, d, lo);
        let c1 = closure_expand(c, d, nd);
        let e = es.last();
        assert(e == es[es.len() - 1]);
        lemma_visit(v, root, dir, c1, e, lo);
        let c2 = closure_expand(c, es, nd);
        assert(c2 == closure_visit(c1, e, nd));
        assert forall|q: int| 0 <= q < es.len() implies c2.depths[(#[trigger] es[q]).0 as int]
            != UNREACHED by {
            if q < es.len() - 1 {
                assert(es[q] == d[q]);
                assert(c1.depths[d[q].0 as int] != UNREACHED);
            }
        }
    }
}

proof fn lemma_step(v: IndexView, root: u32, dir: Direction, c: Closure)
    requires
        index_wf(v),
        root < v.packages.len(),
        walk_ok(v, root, dir, c),
        head_closed(v, dir, c),
        front_ok(c),
    ensures
        walk_ok(v, root, dir, closure_step(v, c, dir)),
        head_closed(v, dir, closure_step(v, c, dir)),
        front_ok(closure_step(v, c, dir)),
        !closure_done(c) ==> closure_step(v, c, dir).head == c.head + 1,
{
    if !closure_done(c) {
        let n = v.packages.len();
        let h = c.head as int;
        let id = c.queue[h];
        assert(id < n && c.depths[id as int] != UNREACHED);
        assert(c.depths[id as int] < c.queue.len());
        let lo = c.depths[id as int] as int;
        let es = closure_edges(v, id, dir);
        lemma_closure_edges(v, id, dir);
        assert forall|q: int| 0 <= q < es.len() implies (#[trigger] es[q]).0 < v.packages.len()
            && reaches_in(v, root, dir, es[q].0, (lo + 1) as nat) by {
            lemma_reaches_step(v, root, dir, id, es[q].0, lo as nat);
        }
        let nd = (lo + 1) as usize;
        let c0 = Closure { head: c.head + 1, ..c };
        assert(expanding(c0, lo)) by {
            assert forall|j: int| 0 <= j < c0.queue.len() implies c0.depths[(
            #[trigger] c0.queue[j]) as int] <= lo + 1 by {
                assert(c.depths[c.queue[j] as int] <= c.depths[c.queue[h] as int] + 1);
            }
            assert forall|i: int| c0.head <= i < c0.queue.len() implies lo <= c0.depths[(
            #[trigger] c0.queue[i]) as int] by {
                assert(c.depths[c.queue[h] as int] <= c.depths[c.queue[i] as int]);
            }
        }
        lemma_expand(v, root, dir, c0, es, lo);
        let c2 = closure_step(v, c, dir);
        assert(c2 == closure_expand(c0, es, nd));
        assert forall|j: int, b: u32|
            0 <= j < c2.head && b < n && #[trigger] follows(v, dir, c2.queue[j], b) implies c2.depths[b as int]
            != UNREACHED && c2.depths[b as int] <= c2.depths[c2.queue[j] as int] + 1 by {
            assert(c2.queue[j] == c.queue[j]);
            assert(c.depths[c.queue[j] as int] != UNREACHED);
            if j < c.head {
                assert(follows(v, dir, c.queue[j], b));
                assert(c.depths[b as int] != UNREACHED);
            } else {
                assert(follows(v, dir, id, b));
                let q = choose|q: int| 0 <= q < es.len() && es[q].0 == b;
                assert(c2.depths[es[q].0 as int] != UNREACHED);
                let k = choose|k: int| 0 <= k < c2.queue.len() && c2.queue[k] == b;
                assert(c2.depths[c2.queue[k] as int] <= lo + 1);
            }
        }
        assert forall|i: int, j: int| c2.head <= i < c2.queue.len() && 0 <= j < c2.queue.len() implies c2.depths[(
        #[trigger] c2.queue[j]) as int] <= c2.depths[(#[trigger] c2.queue[i]) as int] + 1 by {
            assert(c2.depths[c2.queue[j] as int] <= lo + 1);
            assert(lo <= c2.depths[c2.queue[i] as int]);
        }
    }
}

proof fn lemma_after(v: IndexView, root: u32, dir: Direction, k: nat)
    requires
        index_wf(v),
        root < v.packages.len(),
    ensures
        walk_ok(v, root, dir, closure_after(v, root, dir, k)),
        head_closed(v, dir, closure_after(v, root, dir, k)),
        front_ok(closure_after(v, root, dir, k)),
        closure_done(closure_after(v, root, dir, k)) || closure_after(v, root, dir, k).head == k,
    decreases k,
{
    if k == 0 {
        let c = closure_start(v, root);
        assert(reached_ids(c.depths) =~= set![root as int]);
        let p = seq![root];
        assert(is_walk(v, dir, p));
        assert(reaches_in(v, root, dir, root, 0));
        assert forall|x: int| 0 <= x < v.packages.len() && #[trigger] c.depths[x] != UNREACHED implies c.queue.contains(
            x as u32,
        ) && c.depths[x] < c.queue.len() && reaches_in(v, root, dir, x as u32, c.depths[x] as nat) by {
            assert(x == root);
            assert(c.queue[0] == root);
        }
    } else {
        lemma_after(v, root, dir, (k - 1) as nat);
        lemma_step(v, root, dir, closure_after(v, root, dir, (k - 1) as nat));
    }
}

/// The walk of a closure finishes: after one step per package at most.
proof fn lemma_final(v: IndexView, root: u32, dir: Direction)
    requires
        index_wf(v),
        root < v.packages.len(),
    ensures
        closure_done(closure_final(v, root, dir)),
        walk_ok(v, root, dir, closure_final(v, root, dir)),
        head_closed(v, dir, closure_final(v, root, dir)),
{
    let k = (v.packages.len() + 1) as nat;
    lemma_after(v, root, dir, k);
    lemma_queue_bound(v, root, dir, closure_after(v, root, dir, k));
    lemma_closure_final(v, root, dir, k);
}

/// In a finished walk, every package of a walk from the root is reached,
/// no deeper than its position on that walk.
proof fn lemma_walk_reached(v: IndexView, root: u32, dir: Direction, c: Closure, p: Seq<u32>, i: int)
    requires
        walk_ok(v, root, dir, c),
        head_closed(v, dir, c),
        closure_done(c),
        is_walk(v, dir, p),
        p[0] == root,
        0 <= i < p.len(),
    ensures
        c.depths[p[i] as int] != UNREACHED,
        c.depths[p[i] as int] <= i,
    decreases i,
{
    if i > 0 {
        lemma_walk_reached(v, root, dir, c, p, i - 1);
        let a = p[i - 1];
        assert(a < v.packages.len());
        let j = choose|j: int| 0 <= j < c.queue.len() && c.queue[j] == a;
        assert(step_ok(v, dir, p, i - 1));
        assert(follows(v, dir, c.queue[j], p[i]));
        assert(p[i] < v.packages.len());
    }
}

/// A closure is exact: it holds every package that some walk from the root
/// reaches by following relations in its direction, and no other; the root
/// itself is not among its hits. Each hit's depth is its distance from the
/// root: the fewest steps of any such walk.
pub proof fn law_closure_reaches(v: IndexView, root: u32, dir: Direction)
    requires
        index_wf(v),
        root < v.packages.len(),
    ensures
        forall|id: u32|
            #[trigger] reached_set(v, root, dir).contains(id) <==> (id < v.packages.len() && id
                != root && reaches(v, root, dir, id)),
        forall|id: u32|
            (exists|q: int|
                0 <= q < closure_hits(v, root, dir).len() && #[trigger] closure_hits(v, root, dir)[q].id
                    == id) <==> (id < v.packages.len() && id != root && reaches(v, root, dir, id)),
        forall|q: int|
            0 <= q < closure_hits(v, root, dir).len() ==> is_distance(
                v,
                root,
                dir,
                (#[trigger] closure_hits(v, root, dir)[q]).id,
                closure_hits(v, root, dir)[q].depth as nat,
            ),
{
    lemma_final(v, root, dir);
    let c = closure_final(v, root, dir);
    let n = v.packages.len();
    assert forall|id: u32| #[trigger] reached_set(v, root, dir).contains(id) <==> (id < n && id
        != root && reaches(v, root, dir, id)) by {
        if id < n && id != root && reaches(v, root, dir, id) {
            let p = choose|p: Seq<u32>| #[trigger] is_walk(v, dir, p) && p[0] == root && p.last() == id;
            lemma_walk_reached(v, root, dir, c, p, p.len() - 1);
        }
        if reached_set(v, root, dir).contains(id) {
            assert(c.depths[id as int] != UNREACHED);
            let p = choose|p: Seq<u32>|
                #[trigger] is_walk(v, dir, p) && p[0] == root && p.last() == id && p.len()
                    == c.depths[id as int] + 1;
            assert(is_walk(v, dir, p) && p[0] == root && p.last() == id);
        }
    }
    // The hits list the reached set.
    let lt = keyed_order(hit_key(v));
    lemma_keyed_order(hit_key(v));
    let rest = c.queue.drop_first();
    assert(rest.to_set() =~= reached_set(v, root, dir)) by {
        assert forall|id: u32| rest.to_set().contains(id) implies reached_set(v, root, dir).contains(id) by {
            let k = choose|k: int| 0 <= k < rest.len() && rest[k] == id;
            assert(c.queue[k + 1] == id);
            assert(c.queue[0] == root);
            assert(c.depths[c.queue[k + 1] as int] != UNREACHED);
        }
        assert forall|id: u32| reached_set(v, root, dir).contains(id) implies rest.to_set().contains(id) by {
            assert(c.depths[id as int] != UNREACHED);
            let k = choose|k: int| 0 <= k < c.queue.len() && c.queue[k] == id;
            assert(k != 0);
            assert(rest[k - 1] == id);
        }
    }
    lemma_sorted_list_exists(rest, lt);
    let sl = sorted_list(reached_set(v, root, dir), lt);
    let hits = closure_hits(v, root, dir);
    assert(hits.len() == sl.len());
    assert forall|q: int| 0 <= q < hits.len() implies #[trigger] hits[q].id == sl[q]
        && reached_set(v, root, dir).contains(sl[q]) && hits[q].depth == c.depths[sl[q] as int] by {
        assert(sl.to_set().contains(sl[q]));
    }
    assert forall|id: u32|
        (exists|q: int| 0 <= q < hits.len() && #[trigger] hits[q].id == id) <==> (id < n && id != root
            && reaches(v, root, dir, id)) by {
        if exists|q: int| 0 <= q < hits.len() && #[trigger] hits[q].id == id {
            let q = choose|q: int| 0 <= q < hits.len() && #[trigger] hits[q].id == id;
            assert(reached_set(v, root, dir).contains(hits[q].id));
        }
        if id < n && id != root && reaches(v, root, dir, id) {
            assert(reached_set(v, root, dir).contains(id));
            assert(sl.to_set().contains(id));
            let q = choose|q: int| 0 <= q < sl.len() && sl[q] == id;
            assert(hits[q].id == id);
        }
    }
    assert forall|q: int| 0 <= q < hits.len() implies is_distance(
        v,
        root,
        dir,
        (#[trigger] hits[q]).id,
        hits[q].depth as nat,
    ) by {
        let id = hits[q].id;
        assert(reached_set(v, root, dir).contains(id));
        assert(c.depths[id as int] != UNREACHED);
        assert forall|p: Seq<u32>| #[trigger] is_walk(v, dir, p) && p[0] == root && p.last() == id implies hits[q].depth + 1 <= p.len() by {
            lemma_walk_reached(v, root, dir, c, p, p.len() - 1);
        }
    }
}


/// The hits of a closure come in order of name, then version, then id:
/// each hit precedes every later one in that order.
pub proof fn law_closure_hit_order(v: IndexView, root: u32, dir: Direction)
    requires
        index_wf(v),
        root < v.packages.len(),
    ensures
        forall|p: int, q: int|
            #![trigger closure_hits(v, root, dir)[p], closure_hits(v, root, dir)[q]]
            0 <= p < q < closure_hits(v, root, dir).len() ==> {
                let (a, b) = (closure_hits(v, root, dir)[p].id, closure_hits(v, root, dir)[q].id);
                seq_lt(v.packages[a as int].name, v.packages[b as int].name) || (v.packages[a as int].name
                    == v.packages[b as int].name && (seq_lt(
                    v.packages[a as int].version,
                    v.packages[b as int].version,
                ) || (v.packages[a as int].version == v.packages[b as int].version && a < b)))
            },
{
    law_closure_reaches(v, root, dir);
    lemma_final(v, root, dir);
    let c = closure_final(v, root, dir);
    let lt = keyed_order(hit_key(v));
    lemma_keyed_order(hit_key(v));
    let rest = c.queue.drop_first();
    assert(rest.to_set() =~= reached_set(v, root, dir)) by {
        assert forall|id: u32| rest.to_set().contains(id) implies reached_set(v, root, dir).contains(id) by {
            let k = choose|k: int| 0 <= k < rest.len() && rest[k] == id;
            assert(c.queue[k + 1] == id);
            assert(c.depths[c.queue[k + 1] as int] != UNREACHED);
        }
        assert forall|id: u32| reached_set(v, root, dir).contains(id) implies rest.to_set().contains(id) by {
            assert(c.depths[id as int] != UNREACHED);
            let k = choose|k: int| 0 <= k < c.queue.len() && c.queue[k] == id;
            assert(k != 0);
            assert(rest[k - 1] == id);
        }
    }
    lemma_sorted_list_exists(rest, lt);
    let sl = sorted_list(reached_set(v, root, dir), lt);
    let hits = closure_hits(v, root, dir);
    assert forall|p: int, q: int| #![trigger hits[p], hits[q]] 0 <= p < q < hits.len() implies {
        let (a, b) = (hits[p].id, hits[q].id);
        seq_lt(v.packages[a as int].name, v.packages[b as int].name) || (v.packages[a as int].name
            == v.packages[b as int].name && (seq_lt(
            v.packages[a as int].version,
            v.packages[b as int].version,
        ) || (v.packages[a as int].version == v.packages[b as int].version && a < b)))
    } by {
        assert(hits[p].id == sl[p] && hits[q].id == sl[q]);
        assert(lt(sl[p], sl[q]));
        assert(sl.to_set().contains(sl[p]) && sl.to_set().contains(sl[q]));
    }
}

/// Kind `k` is in a kind set.
pub open spec fn has_kind(s: KindSet, k: DepKind) -> bool {
    match k {
        DepKind::Input => s.input,
        DepKind::Propagated => s.propagated,
        DepKind::Native => s.native,
    }
}

pub(crate) proof fn lemma_kind_list(s: KindSet, k: DepKind)
    ensures
        kind_list(s).contains(k) <==> has_kind(s, k),
{
    let a = if s.input { seq![DepKind::Input] } else { Seq::<DepKind>::empty() };
    let b = if s.propagated { seq![DepKind::Propagated] } else { Seq::<DepKind>::empty() };
    let c = if s.native { seq![DepKind::Native] } else { Seq::<DepKind>::empty() };
    assert(kind_list(s) == a + b + c);
    if has_kind(s, k) {
        match k {
            DepKind::Input => assert((a + b + c)[0] == k),
            DepKind::Propagated => assert((a + b + c)[a.len() as int] == k),
            DepKind::Native => assert((a + b + c)[(a.len() + b.len()) as int] == k),
        }
    }
    if kind_list(s).contains(k) {
        let i = choose|i: int| 0 <= i < kind_list(s).len() && kind_list(s)[i] == k;
        if i < a.len() {
            assert((a + b + c)[i] == a[i]);
        } else if i < a.len() + b.len() {
            assert((a + b + c)[i] == b[i - a.len()]);
        } else {
            assert((a + b + c)[i] == c[i - a.len() - b.len()]);
        }
    }
}

/// Following relations adds each relation's kind to its target and only
/// appends to the queue.
proof fn lemma_expand_kinds(c: Closure, es: Seq<(u32, DepKind)>, nd: usize)
    requires
        c.depths.len() == c.kinds.len(),
        forall|q: int| 0 <= q < es.len() ==> ((#[trigger] es[q]).0 as int) < c.kinds.len(),
    ensures
        closure_expand(c, es, nd).kinds.len() == c.kinds.len(),
        closure_expand(c, es, nd).depths.len() == c.depths.len(),
        closure_expand(c, es, nd).head == c.head,
        closure_expand(c, es, nd).queue.len() >= c.queue.len(),
        forall|j: int| 0 <= j < c.queue.len() ==> #[trigger] closure_expand(c, es, nd).queue[j] == c.queue[j],
        forall|x: u32, k: DepKind|
            (x as int) < c.kinds.len() ==> (#[trigger] has_kind(closure_expand(c, es, nd).kinds[x as int], k) <==> (
            has_kind(c.kinds[x as int], k) || es.contains((x, k)))),
    decreases es.len(),
{
    if es.len() > 0 {
        let d = es.drop_last();
        assert forall|q: int| 0 <= q < d.len() implies ((#[trigger] d[q]).0 as int) < c.kinds.len() by {
            assert(d[q] == es[q]);
        }
        lemma_expand_kinds(c, d, nd);
        let c1 = closure_expand(c, d, nd);
        let e = es.last();
        assert(e == es[es.len() - 1]);
        let c2 = closure_expand(c, es, nd);
        assert(c2 == closure_visit(c1, e, nd));
        assert forall|j: int| 0 <= j < c.queue.len() implies #[trigger] c2.queue[j] == c.queue[j] by {
            assert(c2.queue[j] == c1.queue[j]);
        }
        assert forall|x: u32, k: DepKind| (x as int) < c.kinds.len() implies (#[trigger] has_kind(c2.kinds[x as int], k) <==> (
            has_kind(c.kinds[x as int], k) || es.contains((x, k)))) by {
            assert(has_kind(c1.kinds[x as int], k) <==> (has_kind(c.kinds[x as int], k) || d.contains((x, k))));
            if x == e.0 {
                assert(c2.kinds[x as int] == add_kind(c1.kinds[x as int], e.1));
                match e.1 {
                    DepKind::Input => {},
                    DepKind::Propagated => {},
                    DepKind::Native => {},
                }
                assert(has_kind(add_kind(c1.kinds[x as int], e.1), k) <==> (has_kind(c1.kinds[x as int], k) || k == e.1));
            } else {
                assert(c2.kinds[x as int] == c1.kinds[x as int]);
            }
            if es.contains((x, k)) {
                let q = choose|q: int| 0 <= q < es.len() && es[q] == (x, k);
                if q < es.len() - 1 {
                    assert(d[q] == es[q]);
                    assert(d.contains((x, k)));
                }
            }
            if d.contains((x, k)) {
                let q = choose|q: int| 0 <= q < d.len() && d[q] == (x, k);
                assert(es[q] == d[q]);
            }
            if x == e.0 && k == e.1 {
                assert(es.contains((x, k)));
            }
        }
    }
}

/// The kinds recorded for every package are those of the relations leading
/// to it out of the packages expanded so far.
pub open spec fn kinds_ok(v: IndexView, dir: Direction, c: Closure) -> bool {
    &&& c.kinds.len() == v.packages.len()
    &&& forall|x: u32, k: DepKind|
        (x as int) < v.packages.len() ==> (#[trigger] has_kind(c.kinds[x as int], k) <==> exists|j: int|
            0 <= j < c.head && #[trigger] closure_edges(v, c.queue[j], dir).contains((x, k)))
}

proof fn lemma_after_kinds(v: IndexView, root: u32, dir: Direction, k: nat)
    requires
        index_wf(v),
        root < v.packages.len(),
    ensures
        kinds_ok(v, dir, closure_after(v, root, dir, k)),
    decreases k,
{
    lemma_after(v, root, dir, k);
    if k == 0 {
        let c = closure_start(v, root);
        assert forall|x: u32, kd: DepKind| (x as int) < v.packages.len() implies (#[trigger] has_kind(c.kinds[x as int], kd) <==> exists|j: int|
            0 <= j < c.head && #[trigger] closure_edges(v, c.queue[j], dir).contains((x, kd))) by {
            assert(c.kinds[x as int] == no_kinds());
        }
    } else {
        let c = closure_after(v, root, dir, (k - 1) as nat);
        lemma_after_kinds(v, root, dir, (k - 1) as nat);
        lemma_after(v, root, dir, (k - 1) as nat);
        if !closure_done(c) {
            let n = v.packages.len();
            let h = c.head as int;
            let id = c.queue[h];
            let es = closure_edges(v, id, dir);
            lemma_closure_edges(v, id, dir);
            let nd = (c.depths[id as int] + 1) as usize;
            let c0 = Closure { head: c.head + 1, ..c };
            lemma_expand_kinds(c0, es, nd);
            let c2 = closure_after(v, root, dir, k);
            assert(c2 == closure_expand(c0, es, nd));
            assert forall|x: u32, kd: DepKind| (x as int) < n implies (#[trigger] has_kind(c2.kinds[x as int], kd) <==> exists|j: int|
                0 <= j < c2.head && #[trigger] closure_edges(v, c2.queue[j], dir).contains((x, kd))) by {
                if has_kind(c2.kinds[x as int], kd) {
                    if has_kind(c.kinds[x as int], kd) {
                        let j = choose|j: int| 0 <= j < c.head && #[trigger] closure_edges(v, c.queue[j], dir).contains((x, kd));
                        assert(c2.queue[j] == c.queue[j]);
                    } else {
                        assert(es.contains((x, kd)));
                        assert(c2.queue[h] == c.queue[h]);
                        assert(closure_edges(v, c2.queue[h], dir).contains((x, kd)));
                    }
                }
                if exists|j: int| 0 <= j < c2.head && #[trigger] closure_edges(v, c2.queue[j], dir).contains((x, kd)) {
                    let j = choose|j: int| 0 <= j < c2.head && #[trigger] closure_edges(v, c2.queue[j], dir).contains((x, kd));
                    assert(c2.queue[j] == c.queue[j]);
                    if j < h {
                        assert(has_kind(c.kinds[x as int], kd));
                    }
                }
            }
        }
    }
}

/// Each hit carries exactly the kinds of the relations that lead to it out
/// of the root or out of another package the closure reaches.
pub proof fn law_closure_kinds(v: IndexView, root: u32, dir: Direction)
    requires
        index_wf(v),
        root < v.packages.len(),
    ensures
        forall|q: int, k: DepKind|
            0 <= q < closure_hits(v, root, dir).len() ==> ((#[trigger] closure_hits(v, root, dir)[q].kinds.contains(k))
                <==> exists|a: u32|
                a < v.packages.len() && (a == root || reaches(v, root, dir, a)) && #[trigger] closure_edges(
                    v,
                    a,
                    dir,
                ).contains((closure_hits(v, root, dir)[q].id, k))),
{
    law_closure_reaches(v, root, dir);
    lemma_final(v, root, dir);
    let c = closure_final(v, root, dir);
    let kf = choose|kf: nat| closure_done(closure_after(v, root, dir, kf));
    lemma_after_kinds(v, root, dir, kf);
    let n = v.packages.len();
    let hits = closure_hits(v, root, dir);
    let sl = sorted_list(reached_set(v, root, dir), keyed_order(hit_key(v)));
    assert forall|q: int, k: DepKind| 0 <= q < hits.len() implies ((#[trigger] hits[q].kinds.contains(k))
        <==> exists|a: u32| a < n && (a == root || reaches(v, root, dir, a)) && #[trigger] closure_edges(
            v,
            a,
            dir,
        ).contains((hits[q].id, k))) by {
        let id = hits[q].id;
        assert(hits[q] == HitView { id: sl[q], depth: c.depths[sl[q] as int], kinds: kind_list(c.kinds[sl[q] as int]) });
        assert(exists|p: int| 0 <= p < hits.len() && #[trigger] hits[p].id == id);
        assert(id < n);
        lemma_kind_list(c.kinds[id as int], k);
        assert(has_kind(c.kinds[id as int], k) <==> exists|j: int|
            0 <= j < c.head && #[trigger] closure_edges(v, c.queue[j], dir).contains((id, k)));
        if hits[q].kinds.contains(k) {
            let j = choose|j: int| 0 <= j < c.head && #[trigger] closure_edges(v, c.queue[j], dir).contains((id, k));
            let a = c.queue[j];
            assert(a < n && c.depths[a as int] != UNREACHED);
            if a != root {
                assert(reached_set(v, root, dir).contains(a));
            }
            assert(closure_edges(v, a, dir).contains((id, k)));
        }
        if exists|a: u32| a < n && (a == root || reaches(v, root, dir, a)) && #[trigger] closure_edges(v, a, dir).contains((id, k)) {
            let a = choose|a: u32| a < n && (a == root || reaches(v, root, dir, a)) && #[trigger] closure_edges(v, a, dir).contains((id, k));
            let j = if a == root {
                0
            } else {
                assert(reached_set(v, root, dir).contains(a));
                assert(c.depths[a as int] != UNREACHED);
                choose|j: int| 0 <= j < c.queue.len() && c.queue[j] == a
            };
            assert(c.queue[j] == a);
            assert(0 <= j < c.head);
            assert(has_kind(c.kinds[id as int], k));
        }
    }
}

} // verus!
