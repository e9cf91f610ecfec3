//! Complete dependency closures, independent of presentation limits, and the
//! filter applied to them.

use vstd::prelude::*;

use crate::index::{
    kinds_for, typed_pairs, DepKind, Index, IndexView, MAX_INDEX_ENTRIES, index_wf, typed_seq,
};
use crate::order::{keyed_order, lemma_keyed_order, sort_ids, sorted_list, str_lt, strictly_sorted, SortKey};
use crate::text::{
    chars_contain, chars_of, contains_text, lowercase, lowercase_text, split_words, str_eq, words,
};

verus! {

/// Which way a closure follows the edges.
#[derive(Clone, Copy, Debug, PartialEq, Eq, Hash, Structural)]
pub enum Direction {
    Dependencies,
    Dependents,
}

/// Identifies a closure: the index it was computed on, its root and its
/// direction.
#[derive(Clone, Debug, PartialEq, Eq, Hash)]
pub struct RelationKey {
    pub snapshot: String,
    pub root: u32,
    pub direction: Direction,
}

/// One package of a closure: its shortest distance from the root and every
/// kind of relation through which it was reached.
#[derive(Clone, Debug)]
pub struct RelationHit {
    pub id: u32,
    pub depth: usize,
    pub kinds: Vec<DepKind>,
}

/// A complete closure, ordered by name, version and id.
#[derive(Clone, Debug)]
pub struct RelationSet {
    pub key: RelationKey,
    pub hits: Vec<RelationHit>,
}

#[derive(Debug, PartialEq, Eq, Clone, Copy, Structural)]
pub enum WalkError {
    InvalidRoot,
    Cancelled,
}

/// A filtered closure as the relation worker publishes it.
#[derive(Clone, Debug)]
pub struct RelationReply {
    pub ticket: u64,
    pub key: RelationKey,
    pub query: String,
    pub set: RelationSet,
    pub visible: Vec<usize>,
}

pub ghost struct HitView {
    pub id: u32,
    pub depth: usize,
    pub kinds: Seq<DepKind>,
}

impl View for RelationHit {
    type V = HitView;

    open spec fn view(&self) -> HitView {
        HitView { id: self.id, depth: self.depth, kinds: self.kinds@ }
    }
}

pub ghost struct RelationSetView {
    pub snapshot: Seq<char>,
    pub root: u32,
    pub direction: Direction,
    pub hits: Seq<HitView>,
}

impl View for RelationSet {
    type V = RelationSetView;

    open spec fn view(&self) -> RelationSetView {
        RelationSetView {
            snapshot: self.key.snapshot@,
            root: self.key.root,
            direction: self.key.direction,
            hits: self.hits@.map_values(|h: RelationHit| h@),
        }
    }
}

/// The kinds of relation seen for one package.
#[derive(Clone, Copy, Debug, PartialEq, Eq, Structural)]
pub struct KindSet {
    pub input: bool,
    pub propagated: bool,
    pub native: bool,
}

pub open spec fn add_kind(s: KindSet, k: DepKind) -> KindSet {
    match k {
        DepKind::Input => KindSet { input: true, ..s },
        DepKind::Propagated => KindSet { propagated: true, ..s },
        DepKind::Native => KindSet { native: true, ..s },
    }
}

/// The kinds of a set, in the order inputs, propagated, native.
pub open spec fn kind_list(s: KindSet) -> Seq<DepKind> {
    (if s.input {
        seq![DepKind::Input]
    } else {
        Seq::empty()
    }) + (if s.propagated {
        seq![DepKind::Propagated]
    } else {
        Seq::empty()
    }) + (if s.native {
        seq![DepKind::Native]
    } else {
        Seq::empty()
    })
}

pub open spec fn no_kinds() -> KindSet {
    KindSet { input: false, propagated: false, native: false }
}

pub(crate) fn add_kind_exec(s: KindSet, k: DepKind) -> (r: KindSet)
    ensures
        r == add_kind(s, k),
{
    match k {
        DepKind::Input => KindSet { input: true, ..s },
        DepKind::Propagated => KindSet { propagated: true, ..s },
        DepKind::Native => KindSet { native: true, ..s },
    }
}

pub(crate) fn kind_list_exec(s: KindSet) -> (r: Vec<DepKind>)
    ensures
        r@ == kind_list(s),
{
    let mut out: Vec<DepKind> = Vec::new();
    if s.input {
        out.push(DepKind::Input);
    }
    if s.propagated {
        out.push(DepKind::Propagated);
    }
    if s.native {
        out.push(DepKind::Native);
    }
    assert(out@ =~= kind_list(s));
    out
}

/// "Not reached yet".
pub const UNREACHED: usize = usize::MAX;

/// Edges into dependents of `id`, from the first `m` of them: each dependent
/// once per kind under which it lists `id`.
pub open spec fn rev_edges(v: IndexView, id: u32, m: int) -> Seq<(u32, DepKind)>
    decreases m,
{
    if m <= 0 {
        Seq::empty()
    } else {
        let d = v.dependents[id as int][m - 1];
        rev_edges(v, id, m - 1) + kinds_for(typed_pairs(v.packages[d as int]), id).map_values(
            |k: DepKind| (d, k),
        )
    }
}

/// The relations a closure follows out of `id`, with their kinds.
pub open spec fn closure_edges(v: IndexView, id: u32, dir: Direction) -> Seq<(u32, DepKind)> {
    match dir {
        Direction::Dependencies => typed_pairs(v.packages[id as int]),
        Direction::Dependents => rev_edges(v, id, v.dependents[id as int].len() as int),
    }
}

/// The state of a closure walk: distance of every id (`UNREACHED` when not
/// reached), kinds seen for every id, and the queue with its head.
pub ghost struct Closure {
    pub depths: Seq<usize>,
    pub kinds: Seq<KindSet>,
    pub queue: Seq<u32>,
    pub head: nat,
}

/// Follow one relation: record its kind, and reach its target at depth
/// `nd` unless it was reached before.
pub open spec fn closure_visit(c: Closure, e: (u32, DepKind), nd: usize) -> Closure {
    let kinds = c.kinds.update(e.0 as int, add_kind(c.kinds[e.0 as int], e.1));
    if c.depths[e.0 as int] == UNREACHED {
        Closure { depths: c.depths.update(e.0 as int, nd), kinds, queue: c.queue.push(e.0), ..c }
    } else {
        Closure { kinds, ..c }
    }
}

pub open spec fn closure_expand(c: Closure, es: Seq<(u32, DepKind)>, nd: usize) -> Closure
    decreases es.len(),
{
    if es.len() == 0 {
        c
    } else {
        closure_visit(closure_expand(c, es.drop_last(), nd), es.last(), nd)
    }
}

pub open spec fn closure_done(c: Closure) -> bool {
    c.head >= c.queue.len()
}

pub open spec fn closure_step(v: IndexView, c: Closure, dir: Direction) -> Closure {
    if closure_done(c) {
        c
    } else {
        let id = c.queue[c.head as int];
        closure_expand(
            Closure { head: c.head + 1, ..c },
            closure_edges(v, id, dir),
            (c.depths[id as int] + 1) as usize,
        )
    }
}

pub open spec fn closure_start(v: IndexView, root: u32) -> Closure {
    Closure {
        depths: Seq::new(v.packages.len(), |i: int| if i == root { 0usize } else { UNREACHED }),
        kinds: Seq::new(v.packages.len(), |i: int| no_kinds()),
        queue: seq![root],
        head: 0,
    }
}

pub open spec fn closure_after(v: IndexView, root: u32, dir: Direction, k: nat) -> Closure
    decreases k,
{
    if k == 0 {
        closure_start(v, root)
    } else {
        closure_step(v, closure_after(v, root, dir, (k - 1) as nat), dir)
    }
}

/// The finished walk of a closure from `root`.
pub open spec fn closure_final(v: IndexView, root: u32, dir: Direction) -> Closure {
    closure_after(v, root, dir, choose|k: nat| closure_done(closure_after(v, root, dir, k)))
}

/// Relation hits are ordered by name, then version, then id.
pub open spec fn hit_key(v: IndexView) -> spec_fn(u32) -> SortKey {
    |id: u32|
        if id < v.packages.len() {
            (0int, v.packages[id as int].name, v.packages[id as int].version)
        } else {
            (0int, Seq::<char>::empty(), Seq::<char>::empty())
        }
}

/// The packages a closure reaches, the root itself excluded.
pub open spec fn reached_set(v: IndexView, root: u32, dir: Direction) -> Set<u32> {
    Set::new(
        |id: u32|
            id < v.packages.len() && id != root && closure_final(v, root, dir).depths[id as int]
                != UNREACHED,
    )
}

/// Every package reached from the root, the root itself excluded, in hit
/// order, with its distance and the kinds through which it was reached.
pub open spec fn closure_hits(v: IndexView, root: u32, dir: Direction) -> Seq<HitView> {
    let c = closure_final(v, root, dir);
    sorted_list(reached_set(v, root, dir), keyed_order(hit_key(v))).map_values(
        |id: u32| HitView { id, depth: c.depths[id as int], kinds: kind_list(c.kinds[id as int]) },
    )
}

proof fn lemma_closure_stays(v: IndexView, root: u32, dir: Direction, k: nat, j: nat)
    requires
        closure_done(closure_after(v, root, dir, k)),
    ensures
        closure_after(v, root, dir, k + j) == closure_after(v, root, dir, k),
    decreases j,
{
    if j > 0 {
        lemma_closure_stays(v, root, dir, k, (j - 1) as nat);
        assert(closure_after(v, root, dir, k + j) == closure_step(
            v,
            closure_after(v, root, dir, (k + j - 1) as nat),
            dir,
        ));
    }
}

pub(crate) proof fn lemma_closure_final(v: IndexView, root: u32, dir: Direction, k: nat)
    requires
        closure_done(closure_after(v, root, dir, k)),
    ensures
        closure_final(v, root, dir) == closure_after(v, root, dir, k),
{
    let c = choose|c: nat| closure_done(closure_after(v, root, dir, c));
    if c <= k {
        lemma_closure_stays(v, root, dir, c, (k - c) as nat);
    } else {
        lemma_closure_stays(v, root, dir, k, (c - k) as nat);
    }
}

/// The ids whose depth is set.
pub open spec fn reached_ids(depths: Seq<usize>) -> Set<int> {
    Set::new(|x: int| 0 <= x < depths.len() && depths[x] != UNREACHED)
}

/// The name and version a hit is ordered by; empty for an id outside the
/// index.
fn key_texts<'a>(index: &'a Index, id: u32) -> (r: (&'a str, &'a str))
    ensures
        r.0@ == hit_key(index@)(id).1,
        r.1@ == hit_key(index@)(id).2,
{
    if (id as usize) < index.packages.len() {
        let p = &index.packages[id as usize];
        assert(index@.packages[id as int] == p@);
        (p.name.as_str(), p.version.as_str())
    } else {
        proof {
            reveal_strlit("");
        }
        ("", "")
    }
}

/// Hit order, decided on an index.
pub(crate) fn hit_less(index: &Index, a: u32, b: u32) -> (r: bool)
    ensures
        r == keyed_order(hit_key(index@))(a, b),
{
    let (na, va) = key_texts(index, a);
    let (nb, vb) = key_texts(index, b);
    if str_lt(na, nb) {
        return true;
    }
    if !str_eq(na, nb) {
        return false;
    }
    if str_lt(va, vb) {
        return true;
    }
    if !str_eq(va, vb) {
        return false;
    }
    a < b
}

/// The ids a list of relations reaches stay inside the index.
pub open spec fn edges_in_range(es: Seq<(u32, DepKind)>, n: nat) -> bool {
    forall|q: int| 0 <= q < es.len() ==> (#[trigger] es[q]).0 < n
}

proof fn lemma_kinds_for_ids(s: Seq<(u32, DepKind)>, id: u32)
    ensures
        kinds_for(s, id).len() <= s.len(),
    decreases s.len(),
{
    if s.len() > 0 {
        lemma_kinds_for_ids(s.drop_last(), id);
    }
}

pub(crate) proof fn lemma_typed_pairs_in_range(v: IndexView, id: u32)
    requires
        index_wf(v),
        id < v.packages.len(),
    ensures
        edges_in_range(typed_pairs(v.packages[id as int]), v.packages.len()),
{
    let p = v.packages[id as int];
    assert forall|q: int| 0 <= q < typed_pairs(p).len() implies (#[trigger] typed_pairs(p)[q]).0 < v.packages.len() by {
        assert(typed_pairs(p)[q].0 == typed_seq(p)[q]);
    }
}

/// The relations a closure follows out of `id`.
fn closure_edges_exec(index: &Index, id: u32, dir: Direction) -> (r: Vec<(u32, DepKind)>)
    requires
        index.wf(),
        id < index@.packages.len(),
    ensures
        r@ == closure_edges(index@, id, dir),
        edges_in_range(r@, index@.packages.len()),
{
    let ghost v = index@;
    match dir {
        Direction::Dependencies => {
            let p = &index.packages[id as usize];
            assert(v.packages[id as int] == p@);
            proof {
                lemma_typed_pairs_in_range(v, id);
            }
            p.typed_deps()
        },
        Direction::Dependents => {
            let ds = &index.dependents[id as usize];
            assert(ds@ == v.dependents[id as int]);
            let mut out: Vec<(u32, DepKind)> = Vec::new();
            let mut m: usize = 0;
            while m < ds.len()
                invariant
                    v == index@,
                    index.wf(),
                    id < v.packages.len(),
                    ds@ == v.dependents[id as int],
                    m <= ds@.len(),
                    out@ == rev_edges(v, id, m as int),
                    edges_in_range(out@, v.packages.len()),
                decreases ds@.len() - m,
            {
                let d = ds[m];
                assert(d < v.packages.len());
                let p = &index.packages[d as usize];
                assert(v.packages[d as int] == p@);
                let ks = p.dep_kinds(id);
                let ghost before = out@;
                let mut q: usize = 0;
                while q < ks.len()
                    invariant
                        d < v.packages.len(),
                        q <= ks@.len(),
                        out@ == before + ks@.take(q as int).map_values(|k: DepKind| (d, k)),
                        edges_in_range(before, v.packages.len()),
                        edges_in_range(out@, v.packages.len()),
                    decreases ks@.len() - q,
                {
                    out.push((d, ks[q]));
                    assert(ks@.take(q + 1).map_values(|k: DepKind| (d, k)) =~= ks@.take(q as int).map_values(
                        |k: DepKind| (d, k),
                    ).push((d, ks@[q as int])));
                    q += 1;
                }
                assert(ks@.take(ks@.len() as int) =~= ks@);
                assert(out@ =~= rev_edges(v, id, m + 1));
                m += 1;
            }
            out
        },
    }
}

pub open spec fn closure_of(depths: Seq<usize>, kinds: Seq<KindSet>, queue: Seq<u32>, head: usize) -> Closure {
    Closure { depths, kinds, queue, head: head as nat }
}

/// The walk of a closure, as `closure_final` describes it; `None` when the
/// caller cancelled it.
fn walk_closure<F: Fn() -> bool>(index: &Index, root: u32, dir: Direction, cancelled: &F) -> (r: Option<(Vec<usize>, Vec<KindSet>)>)
    requires
        index.wf(),
        root < index@.packages.len(),
        forall|| cancelled.requires(()),
    ensures
        match r {
            Some((d, k)) => d@ == closure_final(index@, root, dir).depths && k@ == closure_final(
                index@,
                root,
                dir,
            ).kinds && d@.len() == index@.packages.len() && k@.len() == index@.packages.len(),
            None => exists|b: bool| cancelled.ensures((), b) && b,
        },
{
    let ghost v = index@;
    let n = index.packages.len();
    let mut depths: Vec<usize> = Vec::new();
    let mut kinds: Vec<KindSet> = Vec::new();
    let mut x: usize = 0;
    while x < n
        invariant
            x <= n,
            depths@ == Seq::new(x as nat, |i: int| if i == root { 0usize } else { UNREACHED }),
            kinds@ == Seq::new(x as nat, |i: int| no_kinds()),
        decreases n - x,
    {
        depths.push(if x == root as usize { 0 } else { UNREACHED });
        kinds.push(KindSet { input: false, propagated: false, native: false });
        assert(depths@ =~= Seq::new((x + 1) as nat, |i: int| if i == root { 0usize } else { UNREACHED }));
        assert(kinds@ =~= Seq::new((x + 1) as nat, |i: int| no_kinds()));
        x += 1;
    }
    let mut queue: Vec<u32> = Vec::new();
    queue.push(root);
    let mut head: usize = 0;
    let mut work: u32 = 0;
    let ghost mut k: nat = 0;
    proof {
        assert(queue@ =~= seq![root]);
        assert(reached_ids(depths@) =~= set![root as int]);
        assert(depths@ =~= closure_start(v, root).depths);
        assert(kinds@ =~= closure_start(v, root).kinds);
        assert(closure_of(depths@, kinds@, queue@, head) == closure_start(v, root));
    }
    while head < queue.len()
        invariant
            v == index@,
            index.wf(),
            n == v.packages.len(),
            root < n,
            work <= 255,
            forall|| cancelled.requires(()),
            depths@.len() == n,
            kinds@.len() == n,
            closure_of(depths@, kinds@, queue@, head) == closure_after(v, root, dir, k),
            reached_ids(depths@).finite(),
            reached_ids(depths@).len() == queue@.len(),
            reached_ids(depths@).subset_of(vstd::set_lib::set_int_range(0, n as int)),
            head <= queue@.len(),
            forall|q: int| 0 <= q < queue@.len() ==> (#[trigger] queue@[q]) < n,
            forall|q: int| 0 <= q < queue@.len() ==> depths@[(#[trigger] queue@[q]) as int] != UNREACHED,
            forall|q: int| 0 <= q < n ==> (#[trigger] depths@[q]) == UNREACHED || depths@[q] < queue@.len(),
        decreases n + 1 - queue@.len(), queue@.len() - head,
    {
        proof {
            vstd::set_lib::lemma_int_range(0, n as int);
            vstd::set_lib::lemma_len_subset(reached_ids(depths@), vstd::set_lib::set_int_range(0, n as int));
        }
        if cancelled() {
            return None;
        }
        let id = queue[head];
        head += 1;
        let es = closure_edges_exec(index, id, dir);
        assert(depths@[id as int] != UNREACHED);
        let nd = depths[id as usize] + 1;
        let ghost c1 = closure_of(depths@, kinds@, queue@, head);
        let ghost q0 = queue@.len();
        let mut m: usize = 0;
        while m < es.len()
            invariant
                v == index@,
                n == v.packages.len(),
                n <= MAX_INDEX_ENTRIES,
                work <= 255,
                forall|| cancelled.requires(()),
                depths@.len() == n,
                kinds@.len() == n,
                edges_in_range(es@, n as nat),
                nd <= q0,
                m <= es@.len(),
                closure_of(depths@, kinds@, queue@, head) == closure_expand(c1, es@.take(m as int), nd),
                reached_ids(depths@).finite(),
                reached_ids(depths@).len() == queue@.len(),
                reached_ids(depths@).subset_of(vstd::set_lib::set_int_range(0, n as int)),
                queue@.len() >= q0,
                head <= queue@.len(),
                forall|q: int| 0 <= q < queue@.len() ==> (#[trigger] queue@[q]) < n,
                forall|q: int| 0 <= q < queue@.len() ==> depths@[(#[trigger] queue@[q]) as int] != UNREACHED,
                forall|q: int| 0 <= q < n ==> (#[trigger] depths@[q]) == UNREACHED || depths@[q] < queue@.len(),
            decreases es@.len() - m,
        {
            let (d, kind) = es[m];
            assert(es@.take(m + 1).drop_last() =~= es@.take(m as int));
            if work == 255 {
                work = 0;
                if cancelled() {
                    return None;
                }
            } else {
                work += 1;
            }
            let ks = add_kind_exec(kinds[d as usize], kind);
            kinds.set(d as usize, ks);
            if depths[d as usize] == UNREACHED {
                proof {
                    vstd::set_lib::lemma_int_range(0, n as int);
                    vstd::set_lib::lemma_len_subset(reached_ids(depths@), vstd::set_lib::set_int_range(0, n as int));
                    assert(!reached_ids(depths@).contains(d as int));
                    assert(reached_ids(depths@.update(d as int, nd)) =~= reached_ids(depths@).insert(d as int));
                }
                depths.set(d as usize, nd);
                queue.push(d);
            }
            m += 1;
        }
        assert(es@.take(es@.len() as int) =~= es@);
        proof {
            k = k + 1;
            vstd::set_lib::lemma_int_range(0, n as int);
            vstd::set_lib::lemma_len_subset(reached_ids(depths@), vstd::set_lib::set_int_range(0, n as int));
        }
    }
    proof {
        lemma_closure_final(v, root, dir, k);
    }
    Some((depths, kinds))
}

/// The complete closure of `root` in one direction: every package reached,
/// with its shortest distance and every kind through which it was reached,
/// ordered by name, version and id. `cancelled` is polled while the walk
/// runs; a walk it stops gives `Cancelled`.
pub fn collect_relations<F: Fn() -> bool>(
    index: &Index,
    root: u32,
    direction: Direction,
    cancelled: &F,
) -> (r: Result<RelationSet, WalkError>)
    requires
        index.wf(),
        forall|| cancelled.requires(()),
    ensures
        root >= index@.packages.len() ==> r == Err::<RelationSet, WalkError>(WalkError::InvalidRoot),
        root < index@.packages.len() ==> match r {
            Ok(set) => set@ == (RelationSetView {
                snapshot: index@.snapshot,
                root,
                direction,
                hits: closure_hits(index@, root, direction),
            }),
            Err(e) => e == WalkError::Cancelled && exists|b: bool| cancelled.ensures((), b) && b,
        },
        root < index@.packages.len() && (forall|b: bool| cancelled.ensures((), b) ==> b) ==> r
            == Err::<RelationSet, WalkError>(WalkError::Cancelled),
{
    let ghost v = index@;
    let n = index.packages.len();
    if (root as usize) >= n {
        return Err(WalkError::InvalidRoot);
    }
    let stop = cancelled();
    if stop {
        assert(cancelled.ensures((), stop));
        return Err(WalkError::Cancelled);
    }
    let (depths, kinds) = match walk_closure(index, root, direction, cancelled) {
        Some(x) => x,
        None => {
            return Err(WalkError::Cancelled);
        },
    };
    let ghost c = closure_final(v, root, direction);
    let ghost reached = reached_set(v, root, direction);
    let mut ids: Vec<u32> = Vec::new();
    let mut x: usize = 0;
    while x < n
        invariant
            n == v.packages.len(),
            n <= MAX_INDEX_ENTRIES,
            depths@ == c.depths,
            depths@.len() == n,
            x <= n,
            ids@.to_set() == Set::new(
                |id: u32| id < x && id != root && c.depths[id as int] != UNREACHED,
            ),
            forall|p: int, q: int| 0 <= p < q < ids@.len() ==> ids@[p] < ids@[q],
            forall|p: int| 0 <= p < ids@.len() ==> ids@[p] < x,
        decreases n - x,
    {
        let ghost before = ids@;
        if x != root as usize && depths[x] != UNREACHED {
            ids.push(x as u32);
            proof {
                before.lemma_push_to_set_commute(x as u32);
            }
        }
        assert(ids@.to_set() =~= Set::new(
            |id: u32| id < x + 1 && id != root && c.depths[id as int] != UNREACHED,
        ));
        x += 1;
    }
    assert(ids@.to_set() =~= reached);
    assert(ids@.no_duplicates()) by {
        assert forall|p: int, q: int| 0 <= p < ids@.len() && 0 <= q < ids@.len() && p != q implies ids@[p] != ids@[q] by {
            if p < q {
                assert(ids@[p] < ids@[q]);
            } else {
                assert(ids@[q] < ids@[p]);
            }
        }
    }
    let ghost lt = keyed_order(hit_key(v));
    proof {
        lemma_keyed_order(hit_key(v));
    }
    let less = |a: u32, b: u32| -> (r: bool)
        ensures
            r == keyed_order(hit_key(index@))(a, b),
        { hit_less(index, a, b) };
    let sorted = sort_ids(&ids, &less, Ghost(lt));
    proof {
        crate::order::lemma_sorted_list_of(sorted@, lt);
        assert(sorted@.to_set() =~= reached);
    }
    let ghost target = sorted_list(reached, lt).map_values(
        |id: u32| HitView { id, depth: c.depths[id as int], kinds: kind_list(c.kinds[id as int]) },
    );
    let mut hits: Vec<RelationHit> = Vec::new();
    let mut i: usize = 0;
    while i < sorted.len()
        invariant
            n == v.packages.len(),
            depths@ == c.depths,
            kinds@ == c.kinds,
            depths@.len() == n,
            kinds@.len() == n,
            reached == reached_set(v, root, direction),
            c == closure_final(v, root, direction),
            sorted@ == sorted_list(reached, lt),
            sorted@.to_set() == reached,
            target == sorted@.map_values(
                |id: u32| HitView { id, depth: c.depths[id as int], kinds: kind_list(c.kinds[id as int]) },
            ),
            i <= sorted@.len(),
            hits@.map_values(|h: RelationHit| h@) == target.take(i as int),
        decreases sorted@.len() - i,
    {
        let id = sorted[i];
        assert(sorted@.to_set().contains(id));
        assert(reached.contains(id));
        let h = RelationHit { id, depth: depths[id as usize], kinds: kind_list_exec(kinds[id as usize]) };
        let ghost before = hits@;
        hits.push(h);
        assert(hits@.map_values(|h: RelationHit| h@) =~= before.map_values(|h: RelationHit| h@).push(h@));
        assert(target.take(i + 1) =~= target.take(i as int).push(target[i as int]));
        i += 1;
    }
    assert(target.take(sorted@.len() as int) =~= target);
    let stop = cancelled();
    if stop {
        assert(cancelled.ensures((), stop));
        return Err(WalkError::Cancelled);
    }
    let set = RelationSet {
        key: RelationKey { snapshot: index.snapshot.clone(), root, direction },
        hits,
    };
    proof {
        assert(target =~= closure_hits(v, root, direction));
    }
    Ok(set)
}

/// The text a relation filter searches: lowercase name, a space, lowercase
/// version.
pub open spec fn relation_hay(name: Seq<char>, version: Seq<char>) -> Seq<char> {
    lowercase_text(name) + seq![' '] + lowercase_text(version)
}

/// Every whitespace-separated term of the query, lowercased, occurs in the
/// lowercased "name version" text.
pub open spec fn relation_matches(name: Seq<char>, version: Seq<char>, query: Seq<char>) -> bool {
    forall|i: int|
        0 <= i < words(query).len() ==> contains_text(
            relation_hay(name, version),
            lowercase_text(#[trigger] words(query)[i]),
        )
}

/// Whether a closure hit passes the relation filter.
pub fn matches_relation(name: &str, version: &str, query: &str) -> (r: bool)
    ensures
        r == relation_matches(name@, version@, query@),
{
    let ln = lowercase(name);
    let lv = lowercase(version);
    let mut hay = chars_of(ln.as_str());
    hay.push(' ');
    let tail = chars_of(lv.as_str());
    let mut k: usize = 0;
    let ghost start = hay@;
    while k < tail.len()
        invariant
            k <= tail@.len(),
            hay@ == start + tail@.take(k as int),
        decreases tail@.len() - k,
    {
        hay.push(tail[k]);
        assert(tail@.take(k + 1) =~= tail@.take(k as int).push(tail@[k as int]));
        k += 1;
    }
    assert(tail@.take(tail@.len() as int) =~= tail@);
    assert(hay@ =~= relation_hay(name@, version@));
    let terms = split_words(query);
    let mut i: usize = 0;
    while i < terms.len()
        invariant
            hay@ == relation_hay(name@, version@),
            terms@.map_values(|w: String| w@) == words(query@),
            i <= terms@.len(),
            forall|q: int|
                0 <= q < i ==> contains_text(hay@, lowercase_text(#[trigger] words(query@)[q])),
        decreases terms@.len() - i,
    {
        let t = lowercase(terms[i].as_str());
        let tc = chars_of(t.as_str());
        assert(terms@[i as int]@ == words(query@)[i as int]);
        if !chars_contain(hay.as_slice(), tc.as_slice()) {
            return false;
        }
        i += 1;
    }
    true
}

/// The positions of the closure hits that pass the relation filter, in
/// order.
pub open spec fn visible_of(v: IndexView, hits: Seq<HitView>, query: Seq<char>) -> Seq<usize>
    decreases hits.len(),
{
    if hits.len() == 0 {
        Seq::empty()
    } else {
        let rest = visible_of(v, hits.drop_last(), query);
        let h = hits.last();
        let p = v.packages[h.id as int];
        if relation_matches(p.name, p.version, query) {
            rest.push((hits.len() - 1) as usize)
        } else {
            rest
        }
    }
}

/// Filter a closure by a query: the positions of the hits whose "name
/// version" text holds every term. `cancelled` is polled every 256 hits;
/// a filter it stops gives nothing.
pub fn visible_positions<F: Fn() -> bool>(
    index: &Index,
    hits: &Vec<RelationHit>,
    query: &str,
    cancelled: &F,
) -> (r: Option<Vec<usize>>)
    requires
        index.wf(),
        forall|q: int| 0 <= q < hits@.len() ==> (#[trigger] hits@[q]).id < index@.packages.len(),
        forall|| cancelled.requires(()),
    ensures
        match r {
            Some(v) => v@ == visible_of(index@, hits@.map_values(|h: RelationHit| h@), query@),
            None => exists|b: bool| cancelled.ensures((), b) && b,
        },
        hits@.len() > 0 && (forall|b: bool| cancelled.ensures((), b) ==> b) ==> r is None,
{
    let ghost hv = hits@.map_values(|h: RelationHit| h@);
    let mut out: Vec<usize> = Vec::new();
    let mut i: usize = 0;
    while i < hits.len()
        invariant
            index.wf(),
            hv == hits@.map_values(|h: RelationHit| h@),
            forall|q: int| 0 <= q < hits@.len() ==> (#[trigger] hits@[q]).id < index@.packages.len(),
            forall|| cancelled.requires(()),
            i <= hits@.len(),
            out@ == visible_of(index@, hv.take(i as int), query@),
            i > 0 ==> cancelled.ensures((), false),
        decreases hits@.len() - i,
    {
        if i % 256 == 0 {
            let stop = cancelled();
            if stop {
                return None;
            }
        }
        assert(i == 0 ==> cancelled.ensures((), false));
        let h = &hits[i];
        let p = &index.packages[h.id as usize];
        assert(p@ == index@.packages[h.id as int]);
        assert(hv.take(i + 1).drop_last() =~= hv.take(i as int));
        assert(hv.take(i + 1).last() == h@);
        if matches_relation(p.name.as_str(), p.version.as_str(), query) {
            out.push(i);
        }
        i += 1;
    }
    assert(hv.take(hits@.len() as int) =~= hv);
    Some(out)
}

/// A hit passes the relation filter exactly when every word of the query,
/// lowercased, occurs in its lowercased "name version" text; so a query of
/// several words is rejected as soon as one word is missing, and adding
/// words to a query never lets more hits through.
pub proof fn law_relation_filter_every_word(name: Seq<char>, version: Seq<char>, q: Seq<char>, more: Seq<char>)
    ensures
        relation_matches(name, version, q) ==> forall|i: int|
            0 <= i < words(q).len() ==> contains_text(
                lowercase_text(name) + seq![' '] + lowercase_text(version),
                lowercase_text(#[trigger] words(q)[i]),
            ),
        (forall|i: int|
            0 <= i < words(q).len() ==> contains_text(
                lowercase_text(name) + seq![' '] + lowercase_text(version),
                lowercase_text(#[trigger] words(q)[i]),
            )) ==> relation_matches(name, version, q),
        (exists|i: int|
            0 <= i < words(q).len() && !contains_text(
                lowercase_text(name) + seq![' '] + lowercase_text(version),
                lowercase_text(#[trigger] words(q)[i]),
            )) ==> !relation_matches(name, version, q),
        (forall|i: int| 0 <= i < words(q).len() ==> words(more).contains(#[trigger] words(q)[i]))
            && relation_matches(name, version, more) ==> relation_matches(name, version, q),
{
    if (forall|i: int| 0 <= i < words(q).len() ==> words(more).contains(#[trigger] words(q)[i]))
        && relation_matches(name, version, more) {
        assert forall|i: int| 0 <= i < words(q).len() implies contains_text(
            relation_hay(name, version),
            lowercase_text(#[trigger] words(q)[i]),
        ) by {
            assert(words(more).contains(words(q)[i]));
            let j = choose|j: int| 0 <= j < words(more).len() && words(more)[j] == words(q)[i];
            assert(contains_text(relation_hay(name, version), lowercase_text(words(more)[j])));
        }
    }
}

} // verus!
