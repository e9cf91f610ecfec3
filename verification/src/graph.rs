//! Budgeted subgraph extraction shared by the terminal graph view and the
//! web API, and the small graph-view settings around it.

use vstd::prelude::*;

use crate::index::{
    index_wf, kinds_for, typed_pairs, typed_seq, DepKind, Index, IndexView, MAX_INDEX_ENTRIES,
};
use crate::order::{
    keyed_order, lemma_keyed_order, lemma_sorted_list_exists, lemma_sorted_no_dups, sort_ids, sorted_list, str_lt, SortKey,
};
use crate::reach::{has_kind, lemma_kind_list};
use crate::relations::{add_kind, kind_list, lemma_typed_pairs_in_range, no_kinds, KindSet, WalkError};
use crate::text::str_eq;

verus! {

/// Maximum nodes materialized in the graph view.
pub const NODE_BUDGET: usize = 200;
/// Maximum edges materialized in the graph view.
pub const EDGE_BUDGET: usize = 3000;
/// Default walk depth for the graph view.
pub const DEFAULT_DEPTH: u8 = 2;
/// The terminal begins with direct dependencies only; the web keeps depth two.
pub const TUI_DEFAULT_DEPTH: u8 = 1;
/// Relations examined at most, separately for discovery and for edges.
pub const DISCOVERY_WORK_BUDGET: usize = 2_000_000;

/// How much of the edge set the terminal graph draws.
#[derive(Debug, Clone, Copy, PartialEq, Eq, Structural)]
pub enum EdgeMode {
    /// Every edge, faded well into the background.
    All,
    /// Only the edges the selected node touches.
    Focus,
    /// No edges at all.
    Off,
}

impl Default for EdgeMode {
    fn default() -> (r: Self)
        ensures
            r == EdgeMode::Focus,
    {
        EdgeMode::Focus
    }
}

pub open spec fn edge_mode_label(m: EdgeMode) -> Seq<char> {
    match m {
        EdgeMode::All => "all edges"@,
        EdgeMode::Focus => "edges at selection"@,
        EdgeMode::Off => "no edges"@,
    }
}

impl EdgeMode {
    /// The next mode in the cycle all, focus, none.
    pub fn next(self) -> (r: Self)
        ensures
            r == match self {
                EdgeMode::All => EdgeMode::Focus,
                EdgeMode::Focus => EdgeMode::Off,
                EdgeMode::Off => EdgeMode::All,
            },
    {
        match self {
            EdgeMode::All => EdgeMode::Focus,
            EdgeMode::Focus => EdgeMode::Off,
            EdgeMode::Off => EdgeMode::All,
        }
    }

    pub fn label(self) -> (r: &'static str)
        ensures
            r@ == edge_mode_label(self),
    {
        match self {
            EdgeMode::All => "all edges",
            EdgeMode::Focus => "edges at selection",
            EdgeMode::Off => "no edges",
        }
    }
}

/// Which direction the graph projection follows.
#[derive(Debug, Clone, Copy, PartialEq, Eq, Structural)]
pub enum Dir {
    /// Forward: the package's dependencies.
    Deps,
    /// Reverse: the package's dependents.
    Dependents,
}

/// A walk depth moved by `delta`, kept within 1..=8.
pub open spec fn clamped_depth(cur: u8, delta: i8) -> u8 {
    let d = cur as int + delta as int;
    if d < 1 {
        1
    } else if d > 8 {
        8
    } else {
        d as u8
    }
}

/// Clamp a depth delta against the valid graph depth range.
pub fn clamp_depth(cur: u8, delta: i8) -> (r: u8)
    ensures
        r == clamped_depth(cur, delta),
{
    let d: i16 = cur as i16 + delta as i16;
    if d < 1 {
        1
    } else if d > 8 {
        8
    } else {
        d as u8
    }
}

/// The selection after moving by `delta` among `n` nodes, wrapping around.
pub open spec fn wrapped_selection(selected: usize, delta: i32, n: usize) -> usize {
    if n == 0 {
        selected
    } else {
        ((selected as int + delta as int) % (n as int)) as usize
    }
}

/// Move a selection cursor by `delta` among `n` nodes, wrapping around.
pub fn select_wrapped(selected: usize, delta: i32, n: usize) -> (r: usize)
    requires
        n <= i32::MAX,
        selected < n || n == 0,
    ensures
        r == wrapped_selection(selected, delta, n),
        n > 0 ==> r < n,
{
    if n == 0 {
        return selected;
    }
    let m: u64 = n as u64;
    let s: i64 = selected as i64 + delta as i64;
    if s >= 0 {
        let r = (s as u64) % m;
        r as usize
    } else {
        let t = ((-s) as u64) % m;
        let r = if t == 0 {
            0
        } else {
            m - t
        };
        proof {
            let si = s as int;
            let mi = m as int;
            let ti = t as int;
            let q = (-si) / mi;
            vstd::arithmetic::div_mod::lemma_fundamental_div_mod(-si, mi);
            assert(-si == mi * q + ti);
            if ti == 0 {
                assert(si == (-q) * mi + 0) by (nonlinear_arith)
                    requires
                        -si == mi * q + ti,
                        ti == 0,
                ;
                vstd::arithmetic::div_mod::lemma_fundamental_div_mod_converse(si, mi, -q, 0);
            } else {
                assert(si == (-q - 1) * mi + (mi - ti)) by (nonlinear_arith)
                    requires
                        -si == mi * q + ti,
                ;
                vstd::arithmetic::div_mod::lemma_fundamental_div_mod_converse(si, mi, -q - 1, mi - ti);
            }
        }
        r as usize
    }
}

/// The xorshift64* generator state after one step, and its output.
pub open spec fn xorshift_state(x: u64) -> u64 {
    let a = x ^ (x >> 12u64);
    let b = a ^ ((a << 25u64) as u64);
    b ^ (b >> 27u64)
}

/// Minimal deterministic xorshift64*: no outside random source.
pub struct XorShift(pub u64);

impl XorShift {
    /// A generator seeded with `seed`; a zero seed becomes one.
    pub fn new(seed: u64) -> (r: Self)
        ensures
            r.0 == if seed > 1 { seed } else { 1 },
    {
        XorShift(if seed > 1 { seed } else { 1 })
    }

    /// Advance the state and return the scrambled output.
    pub fn next_u64(&mut self) -> (r: u64)
        ensures
            final(self).0 == xorshift_state(old(self).0),
            r == (final(self).0 as int * 0x2545_F491_4F6C_DD1D) % 0x1_0000_0000_0000_0000,
    {
        let mut x = self.0;
        x ^= x >> 12;
        x ^= x << 25;
        x ^= x >> 27;
        self.0 = x;
        x.wrapping_mul(0x2545_F491_4F6C_DD1D)
    }
}

/// A budgeted subgraph: `nodes[0]` is the root; edges are index pairs into
/// `nodes`, from a dependent to its dependency.
#[derive(Debug, Clone)]
pub struct Projection {
    pub nodes: Vec<u32>,
    pub edges: Vec<(u16, u16)>,
    /// Nodes discovered beyond the budget (not materialized).
    pub truncated: usize,
    pub depth_of: Vec<u8>,
    pub kind_of: Vec<Option<DepKind>>,
    /// Every kind of relation met while discovering each node.
    pub kinds_of: Vec<Vec<DepKind>>,
    pub discovered_total: Option<usize>,
    pub edges_total: Option<usize>,
    pub edges_truncated: usize,
    pub discovery_complete: bool,
}

pub ghost struct ProjectionView {
    pub nodes: Seq<u32>,
    pub edges: Seq<(u16, u16)>,
    pub truncated: usize,
    pub depth_of: Seq<u8>,
    pub kind_of: Seq<Option<DepKind>>,
    pub kinds_of: Seq<Seq<DepKind>>,
    pub discovered_total: Option<usize>,
    pub edges_total: Option<usize>,
    pub edges_truncated: usize,
    pub discovery_complete: bool,
}

impl View for Projection {
    type V = ProjectionView;

    open spec fn view(&self) -> ProjectionView {
        ProjectionView {
            nodes: self.nodes@,
            edges: self.edges@,
            truncated: self.truncated,
            depth_of: self.depth_of@,
            kind_of: self.kind_of@,
            kinds_of: self.kinds_of@.map_values(|k: Vec<DepKind>| k@),
            discovered_total: self.discovered_total,
            edges_total: self.edges_total,
            edges_truncated: self.edges_truncated,
            discovery_complete: self.discovery_complete,
        }
    }
}

/// The empty projection.
pub open spec fn empty_projection() -> ProjectionView {
    ProjectionView {
        nodes: Seq::empty(),
        edges: Seq::empty(),
        truncated: 0,
        depth_of: Seq::empty(),
        kind_of: Seq::empty(),
        kinds_of: Seq::empty(),
        discovered_total: None,
        edges_total: None,
        edges_truncated: 0,
        discovery_complete: false,
    }
}

impl Default for Projection {
    fn default() -> (r: Self)
        ensures
            r@ == empty_projection(),
    {
        let r = Projection {
            nodes: Vec::new(),
            edges: Vec::new(),
            truncated: 0,
            depth_of: Vec::new(),
            kind_of: Vec::new(),
            kinds_of: Vec::new(),
            discovered_total: None,
            edges_total: None,
            edges_truncated: 0,
            discovery_complete: false,
        };
        assert(r@.kinds_of =~= Seq::<Seq<DepKind>>::empty());
        r
    }
}

/// The relations discovery follows out of `id`: typed dependencies with
/// their kind, or dependents without one.
pub open spec fn proj_neighbors(v: IndexView, id: u32, dir: Dir) -> Seq<(u32, Option<DepKind>)> {
    match dir {
        Dir::Deps => typed_pairs(v.packages[id as int]).map_values(
            |x: (u32, DepKind)| (x.0, Some(x.1)),
        ),
        Dir::Dependents => v.dependents[id as int].map_values(|d: u32| (d, None::<DepKind>)),
    }
}

/// The relation categories met when following a neighbor: its own kind on
/// forward walks, every kind under which the dependent lists `id` on
/// reverse walks.
pub open spec fn proj_categories(v: IndexView, id: u32, x: (u32, Option<DepKind>), dir: Dir) -> Seq<DepKind> {
    match dir {
        Dir::Deps => match x.1 {
            Some(k) => seq![k],
            None => Seq::empty(),
        },
        Dir::Dependents => kinds_for(typed_pairs(v.packages[x.0 as int]), id),
    }
}

pub open spec fn add_kinds(s: KindSet, cats: Seq<DepKind>) -> KindSet
    decreases cats.len(),
{
    if cats.len() == 0 {
        s
    } else {
        add_kind(add_kinds(s, cats.drop_last()), cats.last())
    }
}

/// The discovery walk: ids seen, kinds met per id, the nodes reached in
/// order (also the queue, read from `head`), relations examined, and whether
/// the work budget let the walk finish.
pub ghost struct Discovery {
    pub seen: Seq<bool>,
    pub kinds: Seq<KindSet>,
    pub reached: Seq<(u32, u8, Option<DepKind>)>,
    pub head: nat,
    pub work: nat,
    pub complete: bool,
}

pub open spec fn disc_visit(v: IndexView, s: Discovery, id: u32, d: u8, x: (u32, Option<DepKind>), dir: Dir) -> Discovery {
    if !s.complete {
        s
    } else if s.work >= DISCOVERY_WORK_BUDGET {
        Discovery { complete: false, ..s }
    } else {
        let s1 = Discovery {
            work: s.work + 1,
            kinds: s.kinds.update(
                x.0 as int,
                add_kinds(s.kinds[x.0 as int], proj_categories(v, id, x, dir)),
            ),
            ..s
        };
        if s1.seen[x.0 as int] {
            s1
        } else {
            Discovery {
                seen: s1.seen.update(x.0 as int, true),
                reached: s1.reached.push((x.0, (d + 1) as u8, x.1)),
                ..s1
            }
        }
    }
}

pub open spec fn disc_expand(
    v: IndexView,
    s: Discovery,
    id: u32,
    d: u8,
    nbrs: Seq<(u32, Option<DepKind>)>,
    dir: Dir,
) -> Discovery
    decreases nbrs.len(),
{
    if nbrs.len() == 0 {
        s
    } else {
        disc_visit(v, disc_expand(v, s, id, d, nbrs.drop_last(), dir), id, d, nbrs.last(), dir)
    }
}

pub open spec fn disc_done(s: Discovery) -> bool {
    !s.complete || s.head >= s.reached.len()
}

pub open spec fn disc_step(v: IndexView, s: Discovery, depth: u8, dir: Dir) -> Discovery {
    if disc_done(s) {
        s
    } else {
        let e = s.reached[s.head as int];
        let s0 = Discovery { head: s.head + 1, ..s };
        if e.1 >= depth {
            s0
        } else {
            disc_expand(v, s0, e.0, e.1, proj_neighbors(v, e.0, dir), dir)
        }
    }
}

pub open spec fn disc_start(v: IndexView, root: u32) -> Discovery {
    Discovery {
        seen: Seq::new(v.packages.len(), |i: int| i == root),
        kinds: Seq::new(v.packages.len(), |i: int| no_kinds()),
        reached: seq![(root, 0u8, None::<DepKind>)],
        head: 0,
        work: 0,
        complete: true,
    }
}

pub open spec fn disc_after(v: IndexView, root: u32, depth: u8, dir: Dir, k: nat) -> Discovery
    decreases k,
{
    if k == 0 {
        disc_start(v, root)
    } else {
        disc_step(v, disc_after(v, root, depth, dir, (k - 1) as nat), depth, dir)
    }
}

pub open spec fn disc_final(v: IndexView, root: u32, depth: u8, dir: Dir) -> Discovery {
    disc_after(v, root, depth, dir, choose|k: nat| disc_done(disc_after(v, root, depth, dir, k)))
}

proof fn lemma_disc_stays(v: IndexView, root: u32, depth: u8, dir: Dir, k: nat, j: nat)
    requires
        disc_done(disc_after(v, root, depth, dir, k)),
    ensures
        disc_after(v, root, depth, dir, k + j) == disc_after(v, root, depth, dir, k),
    decreases j,
{
    if j > 0 {
        lemma_disc_stays(v, root, depth, dir, k, (j - 1) as nat);
        assert(disc_after(v, root, depth, dir, k + j) == disc_step(
            v,
            disc_after(v, root, depth, dir, (k + j - 1) as nat),
            depth,
            dir,
        ));
    }
}

proof fn lemma_disc_final(v: IndexView, root: u32, depth: u8, dir: Dir, k: nat)
    requires
        disc_done(disc_after(v, root, depth, dir, k)),
    ensures
        disc_final(v, root, depth, dir) == disc_after(v, root, depth, dir, k),
{
    let c = choose|c: nat| disc_done(disc_after(v, root, depth, dir, c));
    if c <= k {
        lemma_disc_stays(v, root, depth, dir, c, (k - c) as nat);
    } else {
        lemma_disc_stays(v, root, depth, dir, k, (c - k) as nat);
    }
}

/// Reverse projections list dependents by fan-in (highest first), then by
/// name, then by id.
pub open spec fn hub_key(v: IndexView) -> spec_fn(u32) -> SortKey {
    |id: u32|
        if id < v.packages.len() && id < v.dependents.len() {
            (-(v.dependents[id as int].len() as int), v.packages[id as int].name, Seq::<char>::empty())
        } else {
            (0int, Seq::<char>::empty(), Seq::<char>::empty())
        }
}

/// The reached nodes in presentation order: discovery order forward; on a
/// reverse walk the root, then the others in hub order.
pub open spec fn presented(v: IndexView, reached: Seq<(u32, u8, Option<DepKind>)>, dir: Dir) -> Seq<(u32, u8, Option<DepKind>)> {
    match dir {
        Dir::Deps => reached,
        Dir::Dependents => {
            let rest = reached.drop_first();
            let ids = rest.map_values(|e: (u32, u8, Option<DepKind>)| e.0);
            let order = sorted_list(ids.to_set(), keyed_order(hub_key(v)));
            seq![reached[0]] + order.map_values(
                |id: u32| rest[choose|p: int| 0 <= p < rest.len() && rest[p].0 == id],
            )
        },
    }
}

proof fn lemma_disc_expand_stopped(
    v: IndexView,
    s: Discovery,
    id: u32,
    d: u8,
    nbrs: Seq<(u32, Option<DepKind>)>,
    dir: Dir,
    m: int,
)
    requires
        0 <= m <= nbrs.len(),
        !disc_expand(v, s, id, d, nbrs.take(m), dir).complete,
    ensures
        disc_expand(v, s, id, d, nbrs, dir) == disc_expand(v, s, id, d, nbrs.take(m), dir),
    decreases nbrs.len() - m,
{
    if m < nbrs.len() {
        assert(nbrs.take(m + 1).drop_last() =~= nbrs.take(m));
        lemma_disc_expand_stopped(v, s, id, d, nbrs, dir, m + 1);
    } else {
        assert(nbrs.take(m) =~= nbrs);
    }
}

/// The neighbors discovery follows out of `id`.
fn proj_neighbors_exec(index: &Index, id: u32, dir: Dir) -> (r: Vec<(u32, Option<DepKind>)>)
    requires
        index.wf(),
        id < index@.packages.len(),
    ensures
        r@ == proj_neighbors(index@, id, dir),
        forall|q: int| 0 <= q < r@.len() ==> (#[trigger] r@[q]).0 < index@.packages.len(),
{
    let ghost v = index@;
    let mut out: Vec<(u32, Option<DepKind>)> = Vec::new();
    match dir {
        Dir::Deps => {
            let p = &index.packages[id as usize];
            assert(p@ == v.packages[id as int]);
            let t = p.typed_deps();
            let mut m: usize = 0;
            while m < t.len()
                invariant
                    v == index@,
                    index.wf(),
                    id < v.packages.len(),
                    p@ == v.packages[id as int],
                    t@ == typed_pairs(p@),
                    m <= t@.len(),
                    out@ == t@.take(m as int).map_values(|x: (u32, DepKind)| (x.0, Some(x.1))),
                    forall|q: int| 0 <= q < out@.len() ==> (#[trigger] out@[q]).0 < v.packages.len(),
                decreases t@.len() - m,
            {
                let x = t[m];
                assert(typed_pairs(p@)[m as int].0 == typed_seq(p@)[m as int]);
                out.push((x.0, Some(x.1)));
                assert(out@ =~= t@.take(m + 1).map_values(|x: (u32, DepKind)| (x.0, Some(x.1))));
                m += 1;
            }
            assert(t@.take(t@.len() as int) =~= t@);
        },
        Dir::Dependents => {
            let ds = &index.dependents[id as usize];
            assert(ds@ == v.dependents[id as int]);
            let mut m: usize = 0;
            while m < ds.len()
                invariant
                    v == index@,
                    index.wf(),
                    id < v.packages.len(),
                    ds@ == v.dependents[id as int],
                    m <= ds@.len(),
                    out@ == ds@.take(m as int).map_values(|d: u32| (d, None::<DepKind>)),
                    forall|q: int| 0 <= q < out@.len() ==> (#[trigger] out@[q]).0 < v.packages.len(),
                decreases ds@.len() - m,
            {
                let dd = ds[m];
                assert(ds@[m as int] == v.dependents[id as int][m as int]);
                out.push((dd, None));
                assert(out@ =~= ds@.take(m + 1).map_values(|d: u32| (d, None::<DepKind>)));
                m += 1;
            }
            assert(ds@.take(ds@.len() as int) =~= ds@);
        },
    }
    out
}

fn add_kinds_exec(index: &Index, s: KindSet, id: u32, x: (u32, Option<DepKind>), dir: Dir) -> (r: KindSet)
    requires
        index.wf(),
        x.0 < index@.packages.len(),
    ensures
        r == add_kinds(s, proj_categories(index@, id, x, dir)),
{
    match dir {
        Dir::Deps => match x.1 {
            Some(k) => {
                assert(seq![k].drop_last() =~= Seq::<DepKind>::empty());
                assert(add_kinds(s, seq![k].drop_last()) == s);
                crate::relations::add_kind_exec(s, k)
            },
            None => s,
        },
        Dir::Dependents => {
            let p = &index.packages[x.0 as usize];
            assert(p@ == index@.packages[x.0 as int]);
            let cats = p.dep_kinds(id);
            let mut r = s;
            let mut m: usize = 0;
            while m < cats.len()
                invariant
                    m <= cats@.len(),
                    r == add_kinds(s, cats@.take(m as int)),
                decreases cats@.len() - m,
            {
                assert(cats@.take(m + 1).drop_last() =~= cats@.take(m as int));
                r = crate::relations::add_kind_exec(r, cats[m]);
                m += 1;
            }
            assert(cats@.take(cats@.len() as int) =~= cats@);
            r
        },
    }
}

/// The ids marked in a seen table.
pub open spec fn seen_ids(seen: Seq<bool>) -> Set<int> {
    Set::new(|x: int| 0 <= x < seen.len() && seen[x])
}

pub open spec fn disc_of(
    seen: Seq<bool>,
    kinds: Seq<KindSet>,
    reached: Seq<(u32, u8, Option<DepKind>)>,
    head: usize,
    work: usize,
    complete: bool,
) -> Discovery {
    Discovery { seen, kinds, reached, head: head as nat, work: work as nat, complete }
}

/// Run discovery to its end, as `disc_final` describes it; also gives, for
/// every reached id, its position among the reached nodes. `None` when the
/// caller cancelled.
fn discover<F: Fn() -> bool>(index: &Index, root: u32, dir: Dir, depth: u8, cancelled: &F) -> (r: Option<
    (Vec<(u32, u8, Option<DepKind>)>, Vec<KindSet>, bool, Vec<usize>),
>)
    requires
        index.wf(),
        root < index@.packages.len(),
        forall|| cancelled.requires(()),
    ensures
        match r {
            Some((reached, kinds, complete, pos)) => {
                let s = disc_final(index@, root, depth, dir);
                &&& reached@ == s.reached
                &&& kinds@ == s.kinds
                &&& complete == s.complete
                &&& kinds@.len() == index@.packages.len()
                &&& pos@.len() == index@.packages.len()
                &&& reached@.len() <= index@.packages.len()
                &&& reached@.len() > 0 && reached@[0].0 == root
                &&& forall|p: int| 0 <= p < reached@.len() ==> (#[trigger] reached@[p]).0 < index@.packages.len()
                    && pos@[reached@[p].0 as int] == p
            },
            None => exists|b: bool| cancelled.ensures((), b) && b,
        },
{
    let ghost v = index@;
    let n = index.packages.len();
    let mut seen: Vec<bool> = Vec::new();
    let mut kinds: Vec<KindSet> = Vec::new();
    let mut pos: Vec<usize> = Vec::new();
    let mut x: usize = 0;
    while x < n
        invariant
            x <= n,
            seen@ == Seq::new(x as nat, |i: int| i == root),
            kinds@ == Seq::new(x as nat, |i: int| no_kinds()),
            pos@.len() == x,
            forall|i: int| 0 <= i < x ==> #[trigger] pos@[i] == 0,
        decreases n - x,
    {
        seen.push(x == root as usize);
        kinds.push(KindSet { input: false, propagated: false, native: false });
        pos.push(0);
        assert(seen@ =~= Seq::new((x + 1) as nat, |i: int| i == root));
        assert(kinds@ =~= Seq::new((x + 1) as nat, |i: int| no_kinds()));
        x += 1;
    }
    let mut reached: Vec<(u32, u8, Option<DepKind>)> = Vec::new();
    reached.push((root, 0, None));
    let mut head: usize = 0;
    let mut work: usize = 0;
    let mut complete = true;
    let ghost mut k: nat = 0;
    proof {
        assert(reached@ =~= seq![(root, 0u8, None::<DepKind>)]);
        assert(seen_ids(seen@) =~= set![root as int]);
        assert(seen@ =~= disc_start(v, root).seen);
        assert(kinds@ =~= disc_start(v, root).kinds);
        assert(disc_of(seen@, kinds@, reached@, head, work, complete) == disc_start(v, root));
    }
    while head < reached.len() && complete
        invariant
            v == index@,
            index.wf(),
            n == v.packages.len(),
            root < n,
            forall|| cancelled.requires(()),
            seen@.len() == n,
            kinds@.len() == n,
            pos@.len() == n,
            disc_of(seen@, kinds@, reached@, head, work, complete) == disc_after(v, root, depth, dir, k),
            work <= DISCOVERY_WORK_BUDGET,
            seen_ids(seen@).finite(),
            seen_ids(seen@).len() == reached@.len(),
            seen_ids(seen@).subset_of(vstd::set_lib::set_int_range(0, n as int)),
            head <= reached@.len(),
            reached@.len() > 0 && reached@[0].0 == root,
            forall|p: int| 0 <= p < reached@.len() ==> (#[trigger] reached@[p]).0 < n && pos@[reached@[p].0 as int] == p && seen@[reached@[p].0 as int],
        decreases n + 1 - reached@.len(), reached@.len() - head,
    {
        proof {
            vstd::set_lib::lemma_int_range(0, n as int);
            vstd::set_lib::lemma_len_subset(seen_ids(seen@), vstd::set_lib::set_int_range(0, n as int));
        }
        let stop = cancelled();
        if stop {
            assert(cancelled.ensures((), stop));
            return None;
        }
        let e = reached[head];
        let ghost w = disc_of(seen@, kinds@, reached@, head, work, complete);
        head += 1;
        if e.1 < depth {
            let nbrs = proj_neighbors_exec(index, e.0, dir);
            let ghost w1 = disc_of(seen@, kinds@, reached@, head, work, complete);
            let ghost r0 = reached@.len();
            let mut m: usize = 0;
            while m < nbrs.len() && complete
                invariant
                    v == index@,
                    index.wf(),
                    n == v.packages.len(),
                    root < n,
                    e.1 < depth,
                    forall|| cancelled.requires(()),
                    seen@.len() == n,
                    kinds@.len() == n,
                    pos@.len() == n,
                    forall|q: int| 0 <= q < nbrs@.len() ==> (#[trigger] nbrs@[q]).0 < n,
                    m <= nbrs@.len(),
                    disc_of(seen@, kinds@, reached@, head, work, complete) == disc_expand(v, w1, e.0, e.1, nbrs@.take(m as int), dir),
                    work <= DISCOVERY_WORK_BUDGET,
                    seen_ids(seen@).finite(),
                    seen_ids(seen@).len() == reached@.len(),
                    seen_ids(seen@).subset_of(vstd::set_lib::set_int_range(0, n as int)),
                    reached@.len() >= r0,
                    head <= reached@.len(),
                    reached@.len() > 0 && reached@[0].0 == root,
                    forall|p: int| 0 <= p < reached@.len() ==> (#[trigger] reached@[p]).0 < n && pos@[reached@[p].0 as int] == p && seen@[reached@[p].0 as int],
                decreases nbrs@.len() - m,
            {
                let xn = nbrs[m];
                assert(nbrs@.take(m + 1).drop_last() =~= nbrs@.take(m as int));
                if work >= DISCOVERY_WORK_BUDGET {
                    complete = false;
                } else {
                    work += 1;
                    let ks = add_kinds_exec(index, kinds[xn.0 as usize], e.0, xn, dir);
                    kinds.set(xn.0 as usize, ks);
                    if work % 256 == 0 {
                        let stop = cancelled();
                        if stop {
                            assert(cancelled.ensures((), stop));
                            return None;
                        }
                    }
                    if !seen[xn.0 as usize] {
                        proof {
                            vstd::set_lib::lemma_int_range(0, n as int);
                            vstd::set_lib::lemma_len_subset(seen_ids(seen@), vstd::set_lib::set_int_range(0, n as int));
                            assert(!seen_ids(seen@).contains(xn.0 as int));
                            assert(seen_ids(seen@.update(xn.0 as int, true)) =~= seen_ids(seen@).insert(xn.0 as int));
                            assert forall|p: int| 0 <= p < reached@.len() implies (#[trigger] reached@[p]).0 != xn.0 by {
                                assert(seen@[reached@[p].0 as int]);
                            }
                        }
                        let ghost old_reached = reached@;
                        seen.set(xn.0 as usize, true);
                        pos.set(xn.0 as usize, reached.len());
                        reached.push((xn.0, e.1 + 1, xn.1));
                        proof {
                            assert forall|p: int| 0 <= p < reached@.len() implies (#[trigger] reached@[p]).0 < n && pos@[reached@[p].0 as int] == p && seen@[reached@[p].0 as int] by {
                                if p < reached@.len() - 1 {
                                    assert(reached@[p] == old_reached[p]);
                                    assert(old_reached[p].0 != xn.0);
                                }
                            }
                        }
                    }
                }
                m += 1;
            }
            proof {
                if !complete {
                    lemma_disc_expand_stopped(v, w1, e.0, e.1, nbrs@, dir, m as int);
                } else {
                    assert(nbrs@.take(nbrs@.len() as int) =~= nbrs@);
                }
            }
        }
        proof {
            assert(w == disc_after(v, root, depth, dir, k));
            k = k + 1;
            vstd::set_lib::lemma_int_range(0, n as int);
            vstd::set_lib::lemma_len_subset(seen_ids(seen@), vstd::set_lib::set_int_range(0, n as int));
        }
    }
    proof {
        lemma_disc_final(v, root, depth, dir, k);
        vstd::set_lib::lemma_int_range(0, n as int);
        vstd::set_lib::lemma_len_subset(seen_ids(seen@), vstd::set_lib::set_int_range(0, n as int));
    }
    Some((reached, kinds, complete, pos))
}

/// Hub order, decided on an index.
pub(crate) fn hub_less(index: &Index, a: u32, b: u32) -> (r: bool)
    ensures
        r == keyed_order(hub_key(index@))(a, b),
{
    let n = index.packages.len();
    let nd = index.dependents.len();
    let ghost v = index@;
    proof {
        reveal_strlit("");
    }
    let (ca, na): (usize, &str) = if (a as usize) < n && (a as usize) < nd {
        assert(v.packages[a as int] == index.packages@[a as int]@);
        (index.dependents[a as usize].len(), index.packages[a as usize].name.as_str())
    } else {
        (0, "")
    };
    let (cb, nb): (usize, &str) = if (b as usize) < n && (b as usize) < nd {
        assert(v.packages[b as int] == index.packages@[b as int]@);
        (index.dependents[b as usize].len(), index.packages[b as usize].name.as_str())
    } else {
        (0, "")
    };
    let ina = (a as usize) < n && (a as usize) < nd;
    let inb = (b as usize) < n && (b as usize) < nd;
    proof {
        if ina {
            assert(v.dependents[a as int] == index.dependents@[a as int]@);
            assert(hub_key(v)(a) == (-(ca as int), na@, Seq::<char>::empty()));
        } else {
            assert(hub_key(v)(a) == (0int, na@, Seq::<char>::empty()));
        }
        if inb {
            assert(v.dependents[b as int] == index.dependents@[b as int]@);
            assert(hub_key(v)(b) == (-(cb as int), nb@, Seq::<char>::empty()));
        } else {
            assert(hub_key(v)(b) == (0int, nb@, Seq::<char>::empty()));
        }
    }
    // Keys: (-count, name, ""); an id outside the index has key (0, "", "").
    let ka_neg = ina && ca > 0;
    let kb_neg = inb && cb > 0;
    let first_less = if ka_neg && kb_neg {
        ca > cb
    } else if ka_neg {
        true
    } else {
        false
    };
    let first_equal = if ka_neg && kb_neg {
        ca == cb
    } else {
        !ka_neg && !kb_neg
    };
    if first_less {
        return true;
    }
    if !first_equal {
        return false;
    }
    if str_lt(na, nb) {
        return true;
    }
    if !str_eq(na, nb) {
        return false;
    }
    a < b
}

/// The reached nodes in presentation order, as `presented` describes them.
fn present(index: &Index, reached: &Vec<(u32, u8, Option<DepKind>)>, pos: &Vec<usize>, dir: Dir) -> (r: Vec<
    (u32, u8, Option<DepKind>),
>)
    requires
        index.wf(),
        pos@.len() == index@.packages.len(),
        reached@.len() > 0,
        reached@.len() <= index@.packages.len(),
        forall|p: int| 0 <= p < reached@.len() ==> (#[trigger] reached@[p]).0 < index@.packages.len()
            && pos@[reached@[p].0 as int] == p,
    ensures
        r@ == presented(index@, reached@, dir),
        r@.len() == reached@.len(),
        forall|p: int, q: int| 0 <= p < q < r@.len() ==> (#[trigger] r@[p]).0 != (#[trigger] r@[q]).0,
        forall|p: int| 0 <= p < r@.len() ==> (#[trigger] r@[p]).0 < index@.packages.len(),
{
    let ghost v = index@;
    let ghost n = v.packages.len();
    match dir {
        Dir::Deps => {
            let mut out: Vec<(u32, u8, Option<DepKind>)> = Vec::new();
            let mut p: usize = 0;
            while p < reached.len()
                invariant
                    p <= reached@.len(),
                    out@ == reached@.take(p as int),
                decreases reached@.len() - p,
            {
                out.push(reached[p]);
                assert(reached@.take(p + 1) =~= reached@.take(p as int).push(reached@[p as int]));
                p += 1;
            }
            assert(reached@.take(reached@.len() as int) =~= reached@);
            assert forall|p: int, q: int| 0 <= p < q < out@.len() implies (#[trigger] out@[p]).0 != (#[trigger] out@[q]).0 by {
                if out@[p].0 == out@[q].0 {
                    assert(pos@[reached@[p].0 as int] == p);
                    assert(pos@[reached@[q].0 as int] == q);
                }
            }
            out
        },
        Dir::Dependents => {
            let ghost rest = reached@.drop_first();
            let mut ids: Vec<u32> = Vec::new();
            let mut p: usize = 1;
            while p < reached.len()
                invariant
                    1 <= p <= reached@.len(),
                    reached@.len() > 0,
                    rest == reached@.drop_first(),
                    ids@ == rest.take(p - 1).map_values(|e: (u32, u8, Option<DepKind>)| e.0),
                decreases reached@.len() - p,
            {
                ids.push(reached[p].0);
                assert(rest.take(p as int).map_values(|e: (u32, u8, Option<DepKind>)| e.0) =~= rest.take(
                    p - 1,
                ).map_values(|e: (u32, u8, Option<DepKind>)| e.0).push(reached@[p as int].0));
                p += 1;
            }
            assert(rest.take(rest.len() as int) =~= rest);
            let ghost idseq = rest.map_values(|e: (u32, u8, Option<DepKind>)| e.0);
            assert(ids@ == idseq);
            assert(ids@.no_duplicates()) by {
                assert forall|a: int, b: int| 0 <= a < ids@.len() && 0 <= b < ids@.len() && a != b implies ids@[a] != ids@[b] by {
                    assert(pos@[reached@[a + 1].0 as int] == a + 1);
                    assert(pos@[reached@[b + 1].0 as int] == b + 1);
                }
            }
            let ghost lt = keyed_order(hub_key(v));
            proof {
                lemma_keyed_order(hub_key(v));
            }
            let less = |a: u32, b: u32| -> (r: bool)
                ensures
                    r == keyed_order(hub_key(index@))(a, b),
                { hub_less(index, a, b) };
            let sorted = sort_ids(&ids, &less, Ghost(lt));
            proof {
                crate::order::lemma_sorted_list_of(sorted@, lt);
                assert(sorted@.to_set() =~= idseq.to_set());
            }
            let mut out: Vec<(u32, u8, Option<DepKind>)> = Vec::new();
            out.push(reached[0]);
            let ghost target = sorted@.map_values(
                |id: u32| rest[choose|p: int| 0 <= p < rest.len() && rest[p].0 == id],
            );
            let mut i: usize = 0;
            while i < sorted.len()
                invariant
                    v == index@,
                    reached@.len() > 0,
                    rest == reached@.drop_first(),
                    pos@.len() == n,
                    forall|p: int| 0 <= p < reached@.len() ==> (#[trigger] reached@[p]).0 < n && pos@[reached@[p].0 as int] == p,
                    sorted@.to_set() == idseq.to_set(),
                    idseq == rest.map_values(|e: (u32, u8, Option<DepKind>)| e.0),
                    target == sorted@.map_values(
                        |id: u32| rest[choose|p: int| 0 <= p < rest.len() && rest[p].0 == id],
                    ),
                    i <= sorted@.len(),
                    out@ == seq![reached@[0]] + target.take(i as int),
                decreases sorted@.len() - i,
            {
                let id = sorted[i];
                assert(sorted@.to_set().contains(id));
                assert(idseq.to_set().contains(id));
                let ghost q = choose|q: int| 0 <= q < idseq.len() && idseq[q] == id;
                assert(idseq[q] == rest[q].0);
                assert(rest[q] == reached@[q + 1]);
                assert(reached@[q + 1].0 == id);
                let at = pos[id as usize];
                assert(at == q + 1);
                proof {
                    let c = choose|p: int| 0 <= p < rest.len() && rest[p].0 == id;
                    assert(pos@[reached@[c + 1].0 as int] == c + 1);
                    assert(c == q);
                }
                out.push(reached[at]);
                assert(target.take(i + 1) =~= target.take(i as int).push(target[i as int]));
                assert(out@ =~= seq![reached@[0]] + target.take(i + 1));
                i += 1;
            }
            assert(target.take(sorted@.len() as int) =~= target);
            proof {
                assert(out@ == presented(v, reached@, dir));
                assert forall|p: int, q: int| 0 <= p < q < out@.len() implies (#[trigger] out@[p]).0 != (#[trigger] out@[q]).0 by {
                    assert(crate::order::strictly_sorted(sorted@, lt));
                    if p == 0 {
                        let c = choose|c: int| 0 <= c < rest.len() && rest[c].0 == sorted@[q - 1];
                        assert(sorted@.to_set().contains(sorted@[q - 1]));
                        assert(idseq.to_set().contains(sorted@[q - 1]));
                        let qq = choose|qq: int| 0 <= qq < idseq.len() && idseq[qq] == sorted@[q - 1];
                        assert(pos@[reached@[qq + 1].0 as int] == qq + 1);
                        assert(pos@[reached@[0].0 as int] == 0);
                        assert(out@[q].0 == sorted@[q - 1]);
                    } else {
                        assert(lt(sorted@[p - 1], sorted@[q - 1]));
                        assert(out@[p].0 == sorted@[p - 1]) by {
                            assert(sorted@.to_set().contains(sorted@[p - 1]));
                            assert(idseq.to_set().contains(sorted@[p - 1]));
                            let qq = choose|qq: int| 0 <= qq < idseq.len() && idseq[qq] == sorted@[p - 1];
                            assert(rest[qq].0 == sorted@[p - 1]);
                        }
                        assert(out@[q].0 == sorted@[q - 1]) by {
                            assert(sorted@.to_set().contains(sorted@[q - 1]));
                            assert(idseq.to_set().contains(sorted@[q - 1]));
                            let qq = choose|qq: int| 0 <= qq < idseq.len() && idseq[qq] == sorted@[q - 1];
                            assert(rest[qq].0 == sorted@[q - 1]);
                        }
                    }
                }
                assert forall|p: int| 0 <= p < out@.len() implies (#[trigger] out@[p]).0 < n by {
                    if p > 0 {
                        assert(sorted@.to_set().contains(sorted@[p - 1]));
                        assert(idseq.to_set().contains(sorted@[p - 1]));
                        let qq = choose|qq: int| 0 <= qq < idseq.len() && idseq[qq] == sorted@[p - 1];
                        assert(rest[qq].0 == sorted@[p - 1]);
                        assert(reached@[qq + 1].0 < n);
                    }
                }
            }
            out
        },
    }
}

/// The edge scan: edges kept, edges counted, relations examined, whether the
/// work budget let the scan finish, and the targets already linked from the
/// node being scanned.
pub ghost struct EdgeScan {
    pub edges: Seq<(u16, u16)>,
    pub total: nat,
    pub work: nat,
    pub complete: bool,
    pub targets: Set<int>,
}

/// The position of an id among the nodes, if it is one of them.
pub open spec fn slot_in(nodes: Seq<u32>, id: u32) -> Option<int> {
    if exists|p: int| 0 <= p < nodes.len() && nodes[p] == id {
        Some(choose|p: int| 0 <= p < nodes.len() && nodes[p] == id)
    } else {
        None
    }
}

pub open spec fn edge_visit(s: EdgeScan, i: int, nodes: Seq<u32>, dep: u32) -> EdgeScan {
    if !s.complete {
        s
    } else if s.work >= DISCOVERY_WORK_BUDGET {
        EdgeScan { complete: false, ..s }
    } else {
        let s1 = EdgeScan { work: s.work + 1, ..s };
        match slot_in(nodes, dep) {
            Some(j) => if s1.targets.contains(j) {
                s1
            } else {
                EdgeScan {
                    targets: s1.targets.insert(j),
                    total: s1.total + 1,
                    edges: if s1.edges.len() < EDGE_BUDGET {
                        s1.edges.push((i as u16, j as u16))
                    } else {
                        s1.edges
                    },
                    ..s1
                }
            },
            None => s1,
        }
    }
}

pub open spec fn edge_node(s: EdgeScan, i: int, nodes: Seq<u32>, deps: Seq<(u32, DepKind)>) -> EdgeScan
    decreases deps.len(),
{
    if deps.len() == 0 {
        s
    } else {
        edge_visit(edge_node(s, i, nodes, deps.drop_last()), i, nodes, deps.last().0)
    }
}

/// Scan the typed dependencies of the first `k` nodes for edges between
/// nodes; each pair counts once.
pub open spec fn edge_scan(v: IndexView, nodes: Seq<u32>, k: nat) -> EdgeScan
    decreases k,
{
    if k == 0 {
        EdgeScan { edges: Seq::empty(), total: 0, work: 0, complete: true, targets: Set::empty() }
    } else {
        let s = edge_scan(v, nodes, (k - 1) as nat);
        edge_node(
            EdgeScan { targets: Set::empty(), ..s },
            k - 1,
            nodes,
            typed_pairs(v.packages[nodes[k - 1] as int]),
        )
    }
}

/// The fields of an edge scan a projection reports.
pub open spec fn scan_outcome(s: EdgeScan) -> (Seq<(u16, u16)>, nat, nat, bool) {
    (s.edges, s.total, s.work, s.complete)
}

proof fn lemma_edge_node_stopped(s: EdgeScan, i: int, nodes: Seq<u32>, deps: Seq<(u32, DepKind)>, m: int)
    requires
        0 <= m <= deps.len(),
        !edge_node(s, i, nodes, deps.take(m)).complete,
    ensures
        edge_node(s, i, nodes, deps) == edge_node(s, i, nodes, deps.take(m)),
    decreases deps.len() - m,
{
    if m < deps.len() {
        assert(deps.take(m + 1).drop_last() =~= deps.take(m));
        lemma_edge_node_stopped(s, i, nodes, deps, m + 1);
    } else {
        assert(deps.take(m) =~= deps);
    }
}

proof fn lemma_edge_node_idle(s: EdgeScan, i: int, nodes: Seq<u32>, deps: Seq<(u32, DepKind)>)
    requires
        !s.complete,
    ensures
        edge_node(s, i, nodes, deps) == s,
    decreases deps.len(),
{
    if deps.len() > 0 {
        lemma_edge_node_idle(s, i, nodes, deps.drop_last());
    }
}

proof fn lemma_edge_scan_stopped(v: IndexView, nodes: Seq<u32>, k: nat, j: nat)
    requires
        !edge_scan(v, nodes, k).complete,
        k <= j,
    ensures
        scan_outcome(edge_scan(v, nodes, j)) == scan_outcome(edge_scan(v, nodes, k)),
    decreases j - k,
{
    if k < j {
        lemma_edge_scan_stopped(v, nodes, k, (j - 1) as nat);
        let s = edge_scan(v, nodes, (j - 1) as nat);
        lemma_edge_node_idle(
            EdgeScan { targets: Set::empty(), ..s },
            j - 1,
            nodes,
            typed_pairs(v.packages[nodes[j - 1] as int]),
        );
    }
}

pub open spec fn scan_of(edges: Seq<(u16, u16)>, total: usize, work: usize, complete: bool) -> (Seq<(u16, u16)>, nat, nat, bool) {
    (edges, total as nat, work as nat, complete)
}

/// Scan the nodes for edges, as `edge_scan` describes it; `None` when the
/// caller cancelled.
fn scan_edges<F: Fn() -> bool>(index: &Index, nodes: &Vec<u32>, cancelled: &F) -> (r: Option<
    (Vec<(u16, u16)>, usize, bool),
>)
    requires
        index.wf(),
        nodes@.len() <= NODE_BUDGET,
        forall|p: int| 0 <= p < nodes@.len() ==> (#[trigger] nodes@[p]) < index@.packages.len(),
        forall|p: int, q: int| 0 <= p < q < nodes@.len() ==> (#[trigger] nodes@[p]) != (#[trigger] nodes@[q]),
        forall|| cancelled.requires(()),
    ensures
        match r {
            Some((edges, total, complete)) => {
                let s = edge_scan(index@, nodes@, nodes@.len());
                edges@ == s.edges && total == s.total && complete == s.complete
            },
            None => exists|b: bool| cancelled.ensures((), b) && b,
        },
{
    let ghost v = index@;
    let n = index.packages.len();
    let mut slots: Vec<usize> = Vec::new();
    let mut x: usize = 0;
    while x < n
        invariant
            x <= n,
            slots@.len() == x,
            forall|i: int| 0 <= i < x ==> #[trigger] slots@[i] == usize::MAX,
        decreases n - x,
    {
        slots.push(usize::MAX);
        x += 1;
    }
    let mut p: usize = 0;
    while p < nodes.len()
        invariant
            n == v.packages.len(),
            slots@.len() == n,
            p <= nodes@.len(),
            nodes@.len() <= NODE_BUDGET,
            forall|q: int| 0 <= q < nodes@.len() ==> (#[trigger] nodes@[q]) < n,
            forall|a: int, b: int| 0 <= a < b < nodes@.len() ==> (#[trigger] nodes@[a]) != (#[trigger] nodes@[b]),
            forall|q: int| 0 <= q < p ==> #[trigger] slots@[nodes@[q] as int] == q,
            forall|id: int| 0 <= id < n && #[trigger] slots@[id] != usize::MAX ==> slots@[id] < p
                && nodes@[slots@[id] as int] == id,
        decreases nodes@.len() - p,
    {
        let id = nodes[p];
        proof {
            assert forall|q: int| 0 <= q < p implies nodes@[q] != id by {
            }
        }
        slots.set(id as usize, p);
        p += 1;
    }
    proof {
        assert forall|id: u32| id < n implies #[trigger] slot_in(nodes@, id) == (if slots@[id as int] == usize::MAX {
            None::<int>
        } else {
            Some(slots@[id as int] as int)
        }) by {
            if slots@[id as int] != usize::MAX {
                let c = choose|c: int| 0 <= c < nodes@.len() && nodes@[c] == id;
                assert(nodes@[slots@[id as int] as int] == id);
                if c != slots@[id as int] as int {
                    if c < slots@[id as int] as int {
                        assert(nodes@[c] != nodes@[slots@[id as int] as int]);
                    } else {
                        assert(nodes@[slots@[id as int] as int] != nodes@[c]);
                    }
                }
            } else {
                if exists|c: int| 0 <= c < nodes@.len() && nodes@[c] == id {
                    let c = choose|c: int| 0 <= c < nodes@.len() && nodes@[c] == id;
                    assert(slots@[nodes@[c] as int] == c);
                }
            }
        }
    }
    let mut edges: Vec<(u16, u16)> = Vec::new();
    let mut total: usize = 0;
    let mut work: usize = 0;
    let mut complete = true;
    let mut i: usize = 0;
    let ghost empty_scan = EdgeScan { edges: Seq::empty(), total: 0, work: 0, complete: true, targets: Set::empty() };
    assert(scan_of(edges@, total, work, complete) == scan_outcome(edge_scan(v, nodes@, 0)));
    while i < nodes.len() && complete
        invariant
            v == index@,
            index.wf(),
            n == v.packages.len(),
            forall|| cancelled.requires(()),
            slots@.len() == n,
            nodes@.len() <= NODE_BUDGET,
            forall|q: int| 0 <= q < nodes@.len() ==> (#[trigger] nodes@[q]) < n,
            forall|id: u32| id < n ==> #[trigger] slot_in(nodes@, id) == (if slots@[id as int] == usize::MAX {
                None::<int>
            } else {
                Some(slots@[id as int] as int)
            }),
            forall|id: int| 0 <= id < n && #[trigger] slots@[id] != usize::MAX ==> slots@[id] < nodes@.len(),
            i <= nodes@.len(),
            scan_of(edges@, total, work, complete) == scan_outcome(edge_scan(v, nodes@, i as nat)),
            work <= DISCOVERY_WORK_BUDGET,
            total <= work,
        decreases nodes@.len() - i,
    {
        let id = nodes[i];
        let pk = &index.packages[id as usize];
        assert(pk@ == v.packages[id as int]);
        let deps = pk.typed_deps();
        let ghost s0 = EdgeScan { targets: Set::empty(), ..edge_scan(v, nodes@, i as nat) };
        let mut targets: Vec<bool> = Vec::new();
        let mut t: usize = 0;
        while t < nodes.len()
            invariant
                t <= nodes@.len(),
                targets@.len() == t,
                forall|q: int| 0 <= q < t ==> !#[trigger] targets@[q],
            decreases nodes@.len() - t,
        {
            targets.push(false);
            t += 1;
        }
        let mut m: usize = 0;
        while m < deps.len() && complete
            invariant
                v == index@,
                index.wf(),
                n == v.packages.len(),
                forall|| cancelled.requires(()),
                slots@.len() == n,
                nodes@.len() <= NODE_BUDGET,
                i < nodes@.len(),
                pk@ == v.packages[nodes@[i as int] as int],
                deps@ == typed_pairs(pk@),
                forall|q: int| 0 <= q < nodes@.len() ==> (#[trigger] nodes@[q]) < n,
                forall|id: u32| id < n ==> #[trigger] slot_in(nodes@, id) == (if slots@[id as int] == usize::MAX {
                    None::<int>
                } else {
                    Some(slots@[id as int] as int)
                }),
                forall|id: int| 0 <= id < n && #[trigger] slots@[id] != usize::MAX ==> slots@[id] < nodes@.len(),
                targets@.len() == nodes@.len(),
                m <= deps@.len(),
                ({
                    let s = edge_node(s0, i as int, nodes@, deps@.take(m as int));
                    &&& scan_of(edges@, total, work, complete) == scan_outcome(s)
                    &&& forall|q: int| 0 <= q < nodes@.len() ==> #[trigger] targets@[q] == s.targets.contains(q)
                    &&& forall|q: int| #[trigger] s.targets.contains(q) ==> 0 <= q < nodes@.len()
                }),
                work <= DISCOVERY_WORK_BUDGET,
                total <= work,
            decreases deps@.len() - m,
        {
            let dep = deps[m].0;
            assert(deps@.take(m + 1).drop_last() =~= deps@.take(m as int));
            proof {
                assert(typed_pairs(pk@)[m as int].0 == typed_seq(pk@)[m as int]);
            }
            if work >= DISCOVERY_WORK_BUDGET {
                complete = false;
            } else {
                work += 1;
                if work % 256 == 0 {
                    let stop = cancelled();
                    if stop {
                        assert(cancelled.ensures((), stop));
                        return None;
                    }
                }
                assert(dep < n);
                let j = slots[dep as usize];
                assert(j != usize::MAX ==> j < nodes@.len());
                assert(i < NODE_BUDGET);
                assert(slot_in(nodes@, dep) == (if j == usize::MAX {
                    None::<int>
                } else {
                    Some(j as int)
                }));
                if j != usize::MAX && !targets[j] {
                    targets.set(j, true);
                    total += 1;
                    if edges.len() < EDGE_BUDGET {
                        edges.push((i as u16, j as u16));
                    }
                }
            }
            m += 1;
        }
        proof {
            if !complete {
                lemma_edge_node_stopped(s0, i as int, nodes@, deps@, m as int);
            } else {
                assert(deps@.take(deps@.len() as int) =~= deps@);
            }
        }
        i += 1;
    }
    proof {
        if !complete {
            lemma_edge_scan_stopped(v, nodes@, i as nat, nodes@.len());
        }
    }
    Some((edges, total, complete))
}

/// At most `m` leading elements.
pub open spec fn take_upto<A>(s: Seq<A>, m: int) -> Seq<A> {
    if s.len() <= m {
        s
    } else {
        s.take(m)
    }
}

pub open spec fn saturating_diff(a: int, b: int) -> usize {
    if a >= b {
        (a - b) as usize
    } else {
        0
    }
}

/// The projection of `root`: discover up to `depth` (within the work
/// budget), present the reached nodes, keep the first `min(budget, 200)`
/// (the root included), and scan their typed dependencies for edges among
/// them (within the work budget, each pair once, at most 3000 kept).
pub open spec fn projection_of(v: IndexView, root: u32, dir: Dir, depth: u8, budget: usize) -> ProjectionView {
    let s = disc_final(v, root, depth, dir);
    let keep = if budget < NODE_BUDGET {
        budget as int
    } else {
        NODE_BUDGET as int
    };
    let kept = take_upto(presented(v, s.reached, dir), keep);
    let nodes = kept.map_values(|e: (u32, u8, Option<DepKind>)| e.0);
    let es = edge_scan(v, nodes, nodes.len());
    ProjectionView {
        nodes,
        edges: es.edges,
        truncated: saturating_diff(s.reached.len() as int, nodes.len() as int),
        depth_of: kept.map_values(|e: (u32, u8, Option<DepKind>)| e.1),
        kind_of: kept.map_values(|e: (u32, u8, Option<DepKind>)| e.2),
        kinds_of: kept.map_values(|e: (u32, u8, Option<DepKind>)| kind_list(s.kinds[e.0 as int])),
        discovered_total: if s.complete {
            Some(s.reached.len() as usize)
        } else {
            None
        },
        edges_total: if es.complete {
            Some(es.total as usize)
        } else {
            None
        },
        edges_truncated: saturating_diff(es.total as int, es.edges.len() as int),
        discovery_complete: s.complete,
    }
}

/// The budgeted subgraph around `root`, as `projection_of` describes it.
/// `cancelled` is polled while the walk runs; a walk it stops gives
/// `Cancelled`.
pub fn project_cancellable<F: Fn() -> bool>(
    index: &Index,
    root: u32,
    dir: Dir,
    depth: u8,
    budget: usize,
    cancelled: &F,
) -> (r: Result<Projection, WalkError>)
    requires
        index.wf(),
        forall|| cancelled.requires(()),
    ensures
        root >= index@.packages.len() ==> r == Err::<Projection, WalkError>(WalkError::InvalidRoot),
        root < index@.packages.len() ==> match r {
            Ok(p) => p@ == projection_of(index@, root, dir, depth, budget),
            Err(e) => e == WalkError::Cancelled && exists|b: bool| cancelled.ensures((), b) && b,
        },
        root < index@.packages.len() && (forall|b: bool| cancelled.ensures((), b) ==> b) ==> r
            == Err::<Projection, WalkError>(WalkError::Cancelled),
        r matches Ok(p) ==> (budget > 0 ==> p.nodes@.len() > 0 && p.nodes@[0] == root) && (forall|i: int, j: int|
            0 <= i < j < p.nodes@.len() ==> (#[trigger] p.nodes@[i]) != (#[trigger] p.nodes@[j]))
            && (forall|i: int| 0 <= i < p.nodes@.len() ==> (#[trigger] p.nodes@[i]) < index@.packages.len()),
{
    let ghost v = index@;
    let n = index.packages.len();
    if (root as usize) >= n {
        return Err(WalkError::InvalidRoot);
    }
    let (reached, kinds, complete, pos) = match discover(index, root, dir, depth, cancelled) {
        Some(x) => x,
        None => {
            return Err(WalkError::Cancelled);
        },
    };
    let ghost s = disc_final(v, root, depth, dir);
    let discovered = reached.len();
    let ordered = present(index, &reached, &pos, dir);
    let keep = if budget < NODE_BUDGET {
        budget
    } else {
        NODE_BUDGET
    };
    let ghost kept = take_upto(ordered@, keep as int);
    let mut nodes: Vec<u32> = Vec::new();
    let mut depth_of: Vec<u8> = Vec::new();
    let mut kind_of: Vec<Option<DepKind>> = Vec::new();
    let mut kinds_of: Vec<Vec<DepKind>> = Vec::new();
    let mut p: usize = 0;
    while p < ordered.len() && p < keep
        invariant
            n == v.packages.len(),
            kinds@ == s.kinds,
            kinds@.len() == n,
            forall|q: int| 0 <= q < ordered@.len() ==> (#[trigger] ordered@[q]).0 < n,
            kept == take_upto(ordered@, keep as int),
            p <= ordered@.len(),
            p <= keep,
            nodes@ == ordered@.take(p as int).map_values(|e: (u32, u8, Option<DepKind>)| e.0),
            depth_of@ == ordered@.take(p as int).map_values(|e: (u32, u8, Option<DepKind>)| e.1),
            kind_of@ == ordered@.take(p as int).map_values(|e: (u32, u8, Option<DepKind>)| e.2),
            kinds_of@.map_values(|k: Vec<DepKind>| k@) == ordered@.take(p as int).map_values(
                |e: (u32, u8, Option<DepKind>)| kind_list(s.kinds[e.0 as int]),
            ),
        decreases ordered@.len() - p,
    {
        let e = ordered[p];
        let ghost t0 = ordered@.take(p as int);
        assert(ordered@.take(p + 1) =~= t0.push(e));
        let ghost before = kinds_of@;
        nodes.push(e.0);
        depth_of.push(e.1);
        kind_of.push(e.2);
        let kl = crate::relations::kind_list_exec(kinds[e.0 as usize]);
        kinds_of.push(kl);
        assert(nodes@ =~= ordered@.take(p + 1).map_values(|e: (u32, u8, Option<DepKind>)| e.0));
        assert(depth_of@ =~= ordered@.take(p + 1).map_values(|e: (u32, u8, Option<DepKind>)| e.1));
        assert(kind_of@ =~= ordered@.take(p + 1).map_values(|e: (u32, u8, Option<DepKind>)| e.2));
        assert(kinds_of@.map_values(|k: Vec<DepKind>| k@) =~= before.map_values(|k: Vec<DepKind>| k@).push(kl@));
        assert(kinds_of@.map_values(|k: Vec<DepKind>| k@) =~= ordered@.take(p + 1).map_values(
            |e: (u32, u8, Option<DepKind>)| kind_list(s.kinds[e.0 as int]),
        ));
        p += 1;
    }
    proof {
        if ordered@.len() <= keep {
            assert(ordered@.take(p as int) =~= ordered@);
        }
        assert(ordered@.take(p as int) =~= kept);
        assert(ordered@[0] == reached@[0]);
        assert forall|i: int, j: int| 0 <= i < j < nodes@.len() implies (#[trigger] nodes@[i]) != (#[trigger] nodes@[j]) by {
            assert(nodes@[i] == ordered@[i].0 && nodes@[j] == ordered@[j].0);
        }
        assert forall|i: int| 0 <= i < nodes@.len() implies (#[trigger] nodes@[i]) < n by {
            assert(nodes@[i] == ordered@[i].0);
        }
        if keep > 0 {
            assert(nodes@[0] == ordered@[0].0);
        }
    }
    let (edges, total, ecomplete) = match scan_edges(index, &nodes, cancelled) {
        Some(x) => x,
        None => {
            return Err(WalkError::Cancelled);
        },
    };
    let stop = cancelled();
    if stop {
        assert(cancelled.ensures((), stop));
        return Err(WalkError::Cancelled);
    }
    let truncated = if discovered >= nodes.len() {
        discovered - nodes.len()
    } else {
        0
    };
    let edges_truncated = if total >= edges.len() {
        total - edges.len()
    } else {
        0
    };
    let edges_len = edges.len();
    let out = Projection {
        nodes,
        edges,
        truncated,
        depth_of,
        kind_of,
        kinds_of,
        discovered_total: if complete {
            Some(discovered)
        } else {
            None
        },
        edges_total: if ecomplete {
            Some(total)
        } else {
            None
        },
        edges_truncated,
        discovery_complete: complete,
    };
    assert(out@.kinds_of == kept.map_values(|e: (u32, u8, Option<DepKind>)| kind_list(s.kinds[e.0 as int])));
    Ok(out)
}

/// The budgeted subgraph around `root` without cancellation; empty when the
/// root names no package.
pub fn project(index: &Index, root: u32, dir: Dir, depth: u8, budget: usize) -> (r: Projection)
    requires
        index.wf(),
    ensures
        r@ == if root < index@.packages.len() {
            projection_of(index@, root, dir, depth, budget)
        } else {
            empty_projection()
        },
        root < index@.packages.len() && budget > 0 ==> r.nodes@.len() > 0 && r.nodes@[0] == root,
        forall|i: int, j: int| 0 <= i < j < r.nodes@.len() ==> (#[trigger] r.nodes@[i]) != (#[trigger] r.nodes@[j]),
        forall|i: int| 0 <= i < r.nodes@.len() ==> (#[trigger] r.nodes@[i]) < index@.packages.len(),
{
    let never = || -> (b: bool)
        ensures
            !b,
        { false };
    match project_cancellable(index, root, dir, depth, budget, &never) {
        Ok(p) => p,
        Err(_) => Projection::default(),
    }
}

proof fn lemma_edge_node_bounded(s: EdgeScan, i: int, nodes: Seq<u32>, deps: Seq<(u32, DepKind)>)
    requires
        s.edges.len() <= EDGE_BUDGET,
        s.edges.len() <= s.total,
        s.total <= s.work <= DISCOVERY_WORK_BUDGET,
    ensures
        edge_node(s, i, nodes, deps).edges.len() <= EDGE_BUDGET,
        edge_node(s, i, nodes, deps).edges.len() <= edge_node(s, i, nodes, deps).total,
        edge_node(s, i, nodes, deps).total <= edge_node(s, i, nodes, deps).work <= DISCOVERY_WORK_BUDGET,
    decreases deps.len(),
{
    if deps.len() > 0 {
        lemma_edge_node_bounded(s, i, nodes, deps.drop_last());
    }
}

proof fn lemma_edge_scan_bounded(v: IndexView, nodes: Seq<u32>, k: nat)
    ensures
        edge_scan(v, nodes, k).edges.len() <= EDGE_BUDGET,
        edge_scan(v, nodes, k).edges.len() <= edge_scan(v, nodes, k).total,
        edge_scan(v, nodes, k).total <= edge_scan(v, nodes, k).work <= DISCOVERY_WORK_BUDGET,
    decreases k,
{
    if k > 0 {
        lemma_edge_scan_bounded(v, nodes, (k - 1) as nat);
        let s = edge_scan(v, nodes, (k - 1) as nat);
        lemma_edge_node_bounded(
            EdgeScan { targets: Set::empty(), ..s },
            k - 1,
            nodes,
            typed_pairs(v.packages[nodes[k - 1] as int]),
        );
    }
}

/// A projection keeps at most `min(budget, 200)` nodes (the root among
/// them) and at most 3000 edges, reports every edge it found beyond those,
/// and gives each node its depth and kinds.
pub proof fn law_projection_bounds(v: IndexView, root: u32, dir: Dir, depth: u8, budget: usize)
    ensures
        ({
            let p = projection_of(v, root, dir, depth, budget);
            &&& p.nodes.len() <= budget
            &&& p.nodes.len() <= NODE_BUDGET
            &&& p.edges.len() <= EDGE_BUDGET
            &&& p.depth_of.len() == p.nodes.len()
            &&& p.kind_of.len() == p.nodes.len()
            &&& p.kinds_of.len() == p.nodes.len()
            &&& p.edges_total is Some ==> p.edges_total->0 == p.edges.len() + p.edges_truncated
        }),
{
    let s = disc_final(v, root, depth, dir);
    let keep = if budget < NODE_BUDGET {
        budget as int
    } else {
        NODE_BUDGET as int
    };
    let kept = take_upto(presented(v, s.reached, dir), keep);
    let nodes = kept.map_values(|e: (u32, u8, Option<DepKind>)| e.0);
    lemma_edge_scan_bounded(v, nodes, nodes.len());
}


/// The edges found so far: each leads from one of the first `lim` nodes to
/// a node that it lists as a dependency, and none repeats.
pub open spec fn edges_ok(v: IndexView, nodes: Seq<u32>, edges: Seq<(u16, u16)>, lim: int) -> bool {
    &&& forall|q: int|
        0 <= q < edges.len() ==> (#[trigger] edges[q]).0 < lim && (edges[q].1 as int) < nodes.len()
            && typed_seq(v.packages[nodes[edges[q].0 as int] as int]).contains(nodes[edges[q].1 as int])
    &&& forall|q: int, r: int| 0 <= q < r < edges.len() ==> (#[trigger] edges[q]) != (#[trigger] edges[r])
}

proof fn lemma_edge_node_ok(v: IndexView, s: EdgeScan, i: int, nodes: Seq<u32>, deps: Seq<(u32, DepKind)>)
    requires
        0 <= i < nodes.len() <= u16::MAX,
        forall|q: int| 0 <= q < deps.len() ==> typed_seq(v.packages[nodes[i] as int]).contains(
            (#[trigger] deps[q]).0,
        ),
        edges_ok(v, nodes, s.edges, i + 1),
        forall|q: int| 0 <= q < s.edges.len() && (#[trigger] s.edges[q]).0 == i ==> s.targets.contains(
            s.edges[q].1 as int,
        ),
    ensures
        edges_ok(v, nodes, edge_node(s, i, nodes, deps).edges, i + 1),
        forall|q: int|
            0 <= q < edge_node(s, i, nodes, deps).edges.len() && (#[trigger] edge_node(s, i, nodes, deps).edges[q]).0
                == i ==> edge_node(s, i, nodes, deps).targets.contains(
                edge_node(s, i, nodes, deps).edges[q].1 as int,
            ),
    decreases deps.len(),
{
    if deps.len() > 0 {
        let d = deps.drop_last();
        assert forall|q: int| 0 <= q < d.len() implies typed_seq(v.packages[nodes[i] as int]).contains(
            (#[trigger] d[q]).0,
        ) by {
            assert(d[q] == deps[q]);
        }
        lemma_edge_node_ok(v, s, i, nodes, d);
        let s0 = edge_node(s, i, nodes, d);
        let dep = deps.last().0;
        assert(deps.last() == deps[deps.len() - 1]);
        let s2 = edge_node(s, i, nodes, deps);
        assert(s2 == edge_visit(s0, i, nodes, dep));
        if s0.complete && s0.work < DISCOVERY_WORK_BUDGET {
            match slot_in(nodes, dep) {
                Some(j) => {
                    assert(0 <= j < nodes.len() && nodes[j] == dep);
                    if !s0.targets.contains(j) && s0.edges.len() < EDGE_BUDGET {
                        let e = (i as u16, j as u16);
                        assert(s2.edges == s0.edges.push(e));
                        assert(e.0 == i && e.1 == j);
                        assert forall|q: int| 0 <= q < s2.edges.len() implies (#[trigger] s2.edges[q]).0 < i + 1
                            && (s2.edges[q].1 as int) < nodes.len() && typed_seq(
                            v.packages[nodes[s2.edges[q].0 as int] as int],
                        ).contains(nodes[s2.edges[q].1 as int]) by {
                            if q < s0.edges.len() {
                                assert(s2.edges[q] == s0.edges[q]);
                            }
                        }
                        assert forall|q: int, r: int| 0 <= q < r < s2.edges.len() implies (#[trigger] s2.edges[q])
                            != (#[trigger] s2.edges[r]) by {
                            if r < s0.edges.len() {
                                assert(s2.edges[q] == s0.edges[q] && s2.edges[r] == s0.edges[r]);
                            } else {
                                assert(s2.edges[q] == s0.edges[q]);
                                if s0.edges[q].0 == i {
                                    assert(s0.targets.contains(s0.edges[q].1 as int));
                                }
                            }
                        }
                        assert forall|q: int| 0 <= q < s2.edges.len() && (#[trigger] s2.edges[q]).0 == i implies s2.targets.contains(
                            s2.edges[q].1 as int,
                        ) by {
                            if q < s0.edges.len() {
                                assert(s2.edges[q] == s0.edges[q]);
                            }
                        }
                    }
                },
                None => {},
            }
        }
    }
}

proof fn lemma_edge_scan_ok(v: IndexView, nodes: Seq<u32>, k: nat)
    requires
        k <= nodes.len() <= u16::MAX,
    ensures
        edges_ok(v, nodes, edge_scan(v, nodes, k).edges, k as int),
    decreases k,
{
    if k > 0 {
        lemma_edge_scan_ok(v, nodes, (k - 1) as nat);
        let s = edge_scan(v, nodes, (k - 1) as nat);
        let s0 = EdgeScan { targets: Set::empty(), ..s };
        let i = k - 1;
        let p = v.packages[nodes[i] as int];
        assert forall|q: int| 0 <= q < typed_pairs(p).len() implies typed_seq(p).contains(
            (#[trigger] typed_pairs(p)[q]).0,
        ) by {
            assert(typed_pairs(p)[q].0 == typed_seq(p)[q]);
        }
        assert forall|q: int| 0 <= q < s0.edges.len() && (#[trigger] s0.edges[q]).0 == i implies s0.targets.contains(
            s0.edges[q].1 as int,
        ) by {
            assert(s0.edges[q].0 < i);
        }
        lemma_edge_node_ok(v, s0, i, nodes, typed_pairs(p));
    }
}

/// Every edge of a projection leads from a node to a node that it lists
/// as a dependency (whatever the direction of the projection), and no edge
/// repeats.
pub proof fn law_projection_edges(v: IndexView, root: u32, dir: Dir, depth: u8, budget: usize)
    ensures
        ({
            let p = projection_of(v, root, dir, depth, budget);
            &&& forall|q: int|
                0 <= q < p.edges.len() ==> ((#[trigger] p.edges[q]).0 as int) < p.nodes.len() && (
                p.edges[q].1 as int) < p.nodes.len() && typed_seq(
                    v.packages[p.nodes[p.edges[q].0 as int] as int],
                ).contains(p.nodes[p.edges[q].1 as int])
            &&& forall|q: int, r: int|
                0 <= q < r < p.edges.len() ==> (#[trigger] p.edges[q]) != (#[trigger] p.edges[r])
        }),
{
    law_projection_bounds(v, root, dir, depth, budget);
    let p = projection_of(v, root, dir, depth, budget);
    lemma_edge_scan_ok(v, p.nodes, p.nodes.len());
}

/// Discovery may step from `a` to `b`: `b` is among the relations it
/// follows out of `a`.
pub open spec fn proj_step(v: IndexView, dir: Dir, a: u32, b: u32) -> bool {
    exists|q: int| 0 <= q < proj_neighbors(v, a, dir).len() && (#[trigger] proj_neighbors(v, a, dir)[q]).0 == b
}

/// Some sequence of `d` discovery steps leads from `root` to `id`.
pub open spec fn proj_reaches_in(v: IndexView, root: u32, dir: Dir, id: u32, d: nat) -> bool {
    exists|p: Seq<u32>|
        p.len() == d + 1 && p[0] == root && p.last() == id && (forall|i: int|
            0 <= i < d ==> #[trigger] proj_step(v, dir, p[i], p[i + 1]))
}

proof fn lemma_proj_reaches_step(v: IndexView, root: u32, dir: Dir, a: u32, b: u32, d: nat)
    requires
        proj_reaches_in(v, root, dir, a, d),
        proj_step(v, dir, a, b),
    ensures
        proj_reaches_in(v, root, dir, b, d + 1),
{
    let p = choose|p: Seq<u32>|
        p.len() == d + 1 && p[0] == root && p.last() == a && (forall|i: int|
            0 <= i < d ==> #[trigger] proj_step(v, dir, p[i], p[i + 1]));
    let p2 = p.push(b);
    assert forall|i: int| 0 <= i < d + 1 implies #[trigger] proj_step(v, dir, p2[i], p2[i + 1]) by {
        if i < d {
            assert(p2[i] == p[i] && p2[i + 1] == p[i + 1]);
        } else {
            assert(p2[i] == a && p2[i + 1] == b);
        }
    }
    assert(p2.len() == d + 2 && p2[0] == root && p2.last() == b);
}

/// Every node discovery has reached lies within `depth` steps of the root,
/// and a sequence of as many steps as its recorded depth leads to it.
pub open spec fn reached_sound(v: IndexView, root: u32, dir: Dir, depth: u8, s: Discovery) -> bool {
    forall|p: int|
        0 <= p < s.reached.len() ==> (#[trigger] s.reached[p]).1 <= depth && proj_reaches_in(
            v,
            root,
            dir,
            s.reached[p].0,
            s.reached[p].1 as nat,
        )
}

proof fn lemma_expand_sound(
    v: IndexView,
    root: u32,
    dir: Dir,
    depth: u8,
    s: Discovery,
    id: u32,
    d: u8,
    nbrs: Seq<(u32, Option<DepKind>)>,
)
    requires
        reached_sound(v, root, dir, depth, s),
        d < depth,
        forall|q: int| 0 <= q < nbrs.len() ==> proj_reaches_in(v, root, dir, (#[trigger] nbrs[q]).0, (d + 1) as nat),
    ensures
        reached_sound(v, root, dir, depth, disc_expand(v, s, id, d, nbrs, dir)),
    decreases nbrs.len(),
{
    if nbrs.len() > 0 {
        let dl = nbrs.drop_last();
        assert forall|q: int| 0 <= q < dl.len() implies proj_reaches_in(v, root, dir, (#[trigger] dl[q]).0, (d + 1) as nat) by {
            assert(dl[q] == nbrs[q]);
        }
        lemma_expand_sound(v, root, dir, depth, s, id, d, dl);
        let s1 = disc_expand(v, s, id, d, dl, dir);
        let x = nbrs.last();
        assert(x == nbrs[nbrs.len() - 1]);
        let s2 = disc_visit(v, s1, id, d, x, dir);
        assert(s2 == disc_expand(v, s, id, d, nbrs, dir));
        assert forall|p: int| 0 <= p < s2.reached.len() implies (#[trigger] s2.reached[p]).1 <= depth
            && proj_reaches_in(v, root, dir, s2.reached[p].0, s2.reached[p].1 as nat) by {
            if p < s1.reached.len() {
                assert(s2.reached[p] == s1.reached[p]);
            } else {
                assert(s2.reached[p] == (x.0, (d + 1) as u8, x.1));
            }
        }
    }
}

proof fn lemma_after_sound(v: IndexView, root: u32, dir: Dir, depth: u8, k: nat)
    ensures
        reached_sound(v, root, dir, depth, disc_after(v, root, depth, dir, k)),
    decreases k,
{
    if k == 0 {
        let s = disc_start(v, root);
        let p = seq![root];
        assert(p.len() == 1 && p[0] == root && p.last() == root);
        assert(proj_reaches_in(v, root, dir, root, 0));
        assert forall|q: int| 0 <= q < s.reached.len() implies (#[trigger] s.reached[q]).1 <= depth
            && proj_reaches_in(v, root, dir, s.reached[q].0, s.reached[q].1 as nat) by {
            assert(s.reached[q] == (root, 0u8, None::<DepKind>));
        }
    } else {
        lemma_after_sound(v, root, dir, depth, (k - 1) as nat);
        let s = disc_after(v, root, depth, dir, (k - 1) as nat);
        if !disc_done(s) {
            let e = s.reached[s.head as int];
            let s0 = Discovery { head: s.head + 1, ..s };
            if e.1 < depth {
                let nbrs = proj_neighbors(v, e.0, dir);
                assert forall|q: int| 0 <= q < nbrs.len() implies proj_reaches_in(
                    v,
                    root,
                    dir,
                    (#[trigger] nbrs[q]).0,
                    (e.1 + 1) as nat,
                ) by {
                    assert(proj_step(v, dir, e.0, nbrs[q].0));
                    lemma_proj_reaches_step(v, root, dir, e.0, nbrs[q].0, e.1 as nat);
                }
                lemma_expand_sound(v, root, dir, depth, s0, e.0, e.1, nbrs);
            }
        }
    }
}

/// The presented nodes are reached nodes, and no more of them.
proof fn lemma_presented(v: IndexView, reached: Seq<(u32, u8, Option<DepKind>)>, dir: Dir)
    requires
        reached.len() > 0,
    ensures
        presented(v, reached, dir).len() <= reached.len(),
        forall|i: int|
            0 <= i < presented(v, reached, dir).len() ==> reached.contains(
                #[trigger] presented(v, reached, dir)[i],
            ),
{
    let pr = presented(v, reached, dir);
    match dir {
        Dir::Deps => {
            assert(pr == reached);
            assert forall|i: int| 0 <= i < pr.len() implies reached.contains(#[trigger] pr[i]) by {
                assert(reached[i] == pr[i]);
            }
        },
        Dir::Dependents => {
            let rest = reached.drop_first();
            let ids = rest.map_values(|e: (u32, u8, Option<DepKind>)| e.0);
            let lt = keyed_order(hub_key(v));
            lemma_keyed_order(hub_key(v));
            lemma_sorted_list_exists(ids, lt);
            let order = sorted_list(ids.to_set(), lt);
            lemma_sorted_no_dups(order, lt);
            order.unique_seq_to_set();
            ids.lemma_cardinality_of_set();
            let m = order.map_values(
                |id: u32| rest[choose|p: int| 0 <= p < rest.len() && rest[p].0 == id],
            );
            assert(pr == seq![reached[0]] + m);
            assert(pr.len() == 1 + order.len());
            assert forall|i: int| 0 <= i < pr.len() implies reached.contains(#[trigger] pr[i]) by {
                if i == 0 {
                    assert(pr[0] == reached[0]);
                } else {
                    let id = order[i - 1];
                    assert(order.to_set().contains(id));
                    let p0 = choose|p0: int| 0 <= p0 < ids.len() && ids[p0] == id;
                    assert(rest[p0].0 == id);
                    assert(exists|p: int| 0 <= p < rest.len() && rest[p].0 == id);
                    let p1 = choose|p: int| 0 <= p < rest.len() && rest[p].0 == id;
                    assert(0 <= p1 < rest.len());
                    assert(pr[i] == m[i - 1]);
                    assert(m[i - 1] == rest[choose|p: int| 0 <= p < rest.len() && rest[p].0 == order[i - 1]]);
                    assert(reached[p1 + 1] == rest[p1]);
                }
            }
        },
    }
}

/// Every node of a projection lies within `depth` steps of the root, and
/// some sequence of exactly its recorded depth in steps leads to it. The
/// discovery is complete exactly when its total is known; then the total is
/// the number of nodes reached, and `truncated` counts the reached nodes
/// that the node budget left out.
pub proof fn law_projection_discovery(v: IndexView, root: u32, dir: Dir, depth: u8, budget: usize)
    requires
        index_wf(v),
        root < v.packages.len(),
    ensures
        ({
            let p = projection_of(v, root, dir, depth, budget);
            let s = disc_final(v, root, depth, dir);
            &&& forall|i: int|
                0 <= i < p.nodes.len() ==> #[trigger] p.depth_of[i] <= depth && proj_reaches_in(
                    v,
                    root,
                    dir,
                    p.nodes[i],
                    p.depth_of[i] as nat,
                )
            &&& p.discovery_complete <==> p.discovered_total is Some
            &&& p.discovered_total matches Some(t) ==> t == s.reached.len() && p.nodes.len() <= t
                && p.truncated == t - p.nodes.len()
        }),
{
    let s = disc_final(v, root, depth, dir);
    let c = choose|k: nat| disc_done(disc_after(v, root, depth, dir, k));
    assert(s == disc_after(v, root, depth, dir, c));
    lemma_after_sound(v, root, dir, depth, c);
    lemma_disc_reached(v, root, depth, dir, c);
    lemma_after_distinct(v, root, depth, dir, c);
    let keep = if budget < NODE_BUDGET {
        budget as int
    } else {
        NODE_BUDGET as int
    };
    let pr = presented(v, s.reached, dir);
    lemma_presented(v, s.reached, dir);
    let kept = take_upto(pr, keep);
    let p = projection_of(v, root, dir, depth, budget);
    assert(kept.len() <= pr.len());
    assert(p.nodes.len() == kept.len());
    assert forall|i: int| 0 <= i < p.nodes.len() implies #[trigger] p.depth_of[i] <= depth && proj_reaches_in(
        v,
        root,
        dir,
        p.nodes[i],
        p.depth_of[i] as nat,
    ) by {
        assert(kept[i] == pr[i]);
        assert(s.reached.contains(pr[i]));
        let q = choose|q: int| 0 <= q < s.reached.len() && s.reached[q] == pr[i];
        assert(s.reached[q] == pr[i]);
        assert(p.nodes[i] == kept[i].0 && p.depth_of[i] == kept[i].1);
    }
}

/// Discovery always holds the root.
proof fn lemma_disc_reached(v: IndexView, root: u32, depth: u8, dir: Dir, k: nat)
    ensures
        disc_after(v, root, depth, dir, k).reached.len() > 0,
    decreases k,
{
    if k > 0 {
        lemma_disc_reached(v, root, depth, dir, (k - 1) as nat);
        let s = disc_after(v, root, depth, dir, (k - 1) as nat);
        if !disc_done(s) {
            let e = s.reached[s.head as int];
            let s0 = Discovery { head: s.head + 1, ..s };
            if e.1 < depth {
                lemma_expand_len(v, s0, e.0, e.1, proj_neighbors(v, e.0, dir), dir);
            }
        }
    }
}

proof fn lemma_expand_len(v: IndexView, s: Discovery, id: u32, d: u8, nbrs: Seq<(u32, Option<DepKind>)>, dir: Dir)
    ensures
        disc_expand(v, s, id, d, nbrs, dir).reached.len() >= s.reached.len(),
    decreases nbrs.len(),
{
    if nbrs.len() > 0 {
        lemma_expand_len(v, s, id, d, nbrs.drop_last(), dir);
    }
}

/// The nodes discovery reached are distinct ids of the index, each marked
/// seen.
pub open spec fn reached_distinct(v: IndexView, s: Discovery) -> bool {
    &&& s.seen.len() == v.packages.len()
    &&& forall|p: int| 0 <= p < s.reached.len() ==> (#[trigger] s.reached[p]).0 < v.packages.len() && s.seen[s.reached[p].0 as int]
    &&& forall|p: int, q: int| 0 <= p < q < s.reached.len() ==> (#[trigger] s.reached[p]).0 != (#[trigger] s.reached[q]).0
}

proof fn lemma_expand_distinct(v: IndexView, s: Discovery, id: u32, d: u8, nbrs: Seq<(u32, Option<DepKind>)>, dir: Dir)
    requires
        reached_distinct(v, s),
        forall|q: int| 0 <= q < nbrs.len() ==> (#[trigger] nbrs[q]).0 < v.packages.len(),
    ensures
        reached_distinct(v, disc_expand(v, s, id, d, nbrs, dir)),
    decreases nbrs.len(),
{
    if nbrs.len() > 0 {
        let dl = nbrs.drop_last();
        assert forall|q: int| 0 <= q < dl.len() implies (#[trigger] dl[q]).0 < v.packages.len() by {
            assert(dl[q] == nbrs[q]);
        }
        lemma_expand_distinct(v, s, id, d, dl, dir);
        let s1 = disc_expand(v, s, id, d, dl, dir);
        let x = nbrs.last();
        assert(x == nbrs[nbrs.len() - 1]);
        let s2 = disc_visit(v, s1, id, d, x, dir);
        assert(s2 == disc_expand(v, s, id, d, nbrs, dir));
        if s1.complete && s1.work < DISCOVERY_WORK_BUDGET && !s1.seen[x.0 as int] {
            assert forall|p: int| 0 <= p < s2.reached.len() implies (#[trigger] s2.reached[p]).0 < v.packages.len()
                && s2.seen[s2.reached[p].0 as int] by {
                if p < s1.reached.len() {
                    assert(s2.reached[p] == s1.reached[p]);
                }
            }
            assert forall|p: int, q: int| 0 <= p < q < s2.reached.len() implies (#[trigger] s2.reached[p]).0
                != (#[trigger] s2.reached[q]).0 by {
                assert(s2.reached[p] == s1.reached[p]);
                if q < s1.reached.len() {
                    assert(s2.reached[q] == s1.reached[q]);
                } else {
                    assert(s1.seen[s1.reached[p].0 as int]);
                }
            }
        }
    }
}

proof fn lemma_after_distinct(v: IndexView, root: u32, depth: u8, dir: Dir, k: nat)
    requires
        index_wf(v),
        root < v.packages.len(),
    ensures
        reached_distinct(v, disc_after(v, root, depth, dir, k)),
        disc_after(v, root, depth, dir, k).reached.len() <= v.packages.len(),
    decreases k,
{
    let s = disc_after(v, root, depth, dir, k);
    if k > 0 {
        lemma_after_distinct(v, root, depth, dir, (k - 1) as nat);
        let s = disc_after(v, root, depth, dir, (k - 1) as nat);
        if !disc_done(s) {
            let e = s.reached[s.head as int];
            let s0 = Discovery { head: s.head + 1, ..s };
            if e.1 < depth {
                let nbrs = proj_neighbors(v, e.0, dir);
                assert forall|q: int| 0 <= q < nbrs.len() implies (#[trigger] nbrs[q]).0 < v.packages.len() by {
                    match dir {
                        Dir::Deps => {
                            lemma_typed_pairs_in_range(v, e.0);
                            assert(nbrs[q].0 == typed_pairs(v.packages[e.0 as int])[q].0);
                        },
                        Dir::Dependents => {
                            assert(nbrs[q].0 == v.dependents[e.0 as int][q]);
                        },
                    }
                }
                lemma_expand_distinct(v, s0, e.0, e.1, nbrs, dir);
            }
        }
    }
    let ids = s.reached.map_values(|e: (u32, u8, Option<DepKind>)| e.0 as int);
    assert(ids.no_duplicates()) by {
        assert forall|p: int, q: int| 0 <= p < ids.len() && 0 <= q < ids.len() && p != q implies ids[p] != ids[q] by {
            if p < q {
                assert(s.reached[p].0 != s.reached[q].0);
            } else {
                assert(s.reached[q].0 != s.reached[p].0);
            }
        }
    }
    ids.unique_seq_to_set();
    vstd::set_lib::lemma_int_range(0, v.packages.len() as int);
    assert(ids.to_set().subset_of(vstd::set_lib::set_int_range(0, v.packages.len() as int)));
    vstd::set_lib::lemma_len_subset(ids.to_set(), vstd::set_lib::set_int_range(0, v.packages.len() as int));
}

/// What discovery keeps while it runs: the root comes first at depth zero,
/// the head never passes the reached nodes, every seen id was reached,
/// depths never decrease along the reached nodes and no reached node is
/// more than one deeper than one not yet expanded; and, while nothing cut
/// the walk short, every step out of an expanded node below the depth
/// limit leads to a reached node at most one deeper.
spec fn disc_ok(v: IndexView, root: u32, dir: Dir, depth: u8, s: Discovery) -> bool {
    &&& disc_base(v, root, s)
    &&& disc_closed(v, dir, depth, s)
    &&& disc_cut(s)
}

/// The reached nodes before this position have been expanded in full: all
/// taken ones, but the one the work budget cut short.
spec fn disc_end(s: Discovery) -> int {
    if s.complete {
        s.head as int
    } else {
        s.head - 1
    }
}

/// A walk cut short was cut while expanding the last node it took: no
/// reached node is more than one deeper than that node.
spec fn disc_cut(s: Discovery) -> bool {
    !s.complete ==> s.head >= 1 && forall|j: int|
        0 <= j < s.reached.len() ==> (#[trigger] s.reached[j]).1 <= s.reached[s.head - 1].1 + 1
}

spec fn disc_base(v: IndexView, root: u32, s: Discovery) -> bool {
    &&& reached_distinct(v, s)
    &&& s.reached.len() > 0 && s.reached[0].0 == root && s.reached[0].1 == 0
    &&& s.head <= s.reached.len()
    &&& forall|x: int| 0 <= x < v.packages.len() && #[trigger] s.seen[x] ==> exists|p: int|
        0 <= p < s.reached.len() && s.reached[p].0 == x
    &&& forall|i: int, j: int|
        0 <= i < j < s.reached.len() ==> (#[trigger] s.reached[i]).1 <= (#[trigger] s.reached[j]).1
    &&& forall|i: int, j: int|
        s.head <= i < s.reached.len() && 0 <= j < s.reached.len() ==> (#[trigger] s.reached[j]).1
            <= (#[trigger] s.reached[i]).1 + 1
}

spec fn disc_closed(v: IndexView, dir: Dir, depth: u8, s: Discovery) -> bool {
    forall|j: int, b: u32|
        0 <= j < disc_end(s) && s.reached[j].1 < depth && #[trigger] proj_step(v, dir, s.reached[j].0, b)
            ==> exists|p: int| 0 <= p < s.reached.len() && s.reached[p].0 == b && s.reached[p].1 <= s.reached[j].1 + 1
}

/// While the node at depth `lo` is expanded: every reached node is at most
/// one deeper, and none after the head is shallower.
spec fn disc_expanding(s: Discovery, lo: int) -> bool {
    &&& forall|j: int| 0 <= j < s.reached.len() ==> (#[trigger] s.reached[j]).1 <= lo + 1
    &&& forall|i: int| s.head <= i < s.reached.len() ==> lo <= (#[trigger] s.reached[i]).1
}

/// Expanding keeps what discovery keeps (but the steps out of the node
/// being expanded), keeps the nodes reached before, and, unless the walk
/// was cut short, reaches every neighbor at most one deeper.
proof fn lemma_expand_ok(
    v: IndexView,
    root: u32,
    dir: Dir,
    depth: u8,
    s: Discovery,
    id: u32,
    d: u8,
    nbrs: Seq<(u32, Option<DepKind>)>,
)
    requires
        disc_base(v, root, s),
        disc_expanding(s, d as int),
        d < depth,
        forall|q: int| 0 <= q < nbrs.len() ==> (#[trigger] nbrs[q]).0 < v.packages.len(),
    ensures
        ({
            let s2 = disc_expand(v, s, id, d, nbrs, dir);
            &&& reached_distinct(v, s2)
            &&& disc_expanding(s2, d as int)
            &&& s2.head == s.head
            &&& s2.reached.len() >= s.reached.len()
            &&& forall|p: int| 0 <= p < s.reached.len() ==> #[trigger] s2.reached[p] == s.reached[p]
            &&& s2.complete ==> s.complete
            &&& forall|x: int| 0 <= x < v.packages.len() && #[trigger] s2.seen[x] ==> exists|p: int|
                0 <= p < s2.reached.len() && s2.reached[p].0 == x
            &&& forall|i: int, j: int|
                0 <= i < j < s2.reached.len() ==> (#[trigger] s2.reached[i]).1 <= (#[trigger] s2.reached[j]).1
            &&& s2.complete ==> forall|q: int| 0 <= q < nbrs.len() ==> exists|p: int|
                0 <= p < s2.reached.len() && s2.reached[p].0 == (#[trigger] nbrs[q]).0 && s2.reached[p].1 <= d + 1
        }),
    decreases nbrs.len(),
{
    lemma_expand_distinct(v, s, id, d, nbrs, dir);
    if nbrs.len() > 0 {
        let dl = nbrs.drop_last();
        assert forall|q: int| 0 <= q < dl.len() implies (#[trigger] dl[q]).0 < v.packages.len() by {
            assert(dl[q] == nbrs[q]);
        }
        lemma_expand_ok(v, root, dir, depth, s, id, d, dl);
        let s1 = disc_expand(v, s, id, d, dl, dir);
        let x = nbrs.last();
        assert(x == nbrs[nbrs.len() - 1]);
        let s2 = disc_visit(v, s1, id, d, x, dir);
        assert(s2 == disc_expand(v, s, id, d, nbrs, dir));
        if s1.complete && s1.work < DISCOVERY_WORK_BUDGET && !s1.seen[x.0 as int] {
            let last = s1.reached.len() as int;
            assert(s2.reached[last] == (x.0, (d + 1) as u8, x.1));
            assert forall|j: int| 0 <= j < s2.reached.len() implies (#[trigger] s2.reached[j]).1 <= d + 1 by {
                if j < last {
                    assert(s2.reached[j] == s1.reached[j]);
                }
            }
            assert forall|i: int| s2.head <= i < s2.reached.len() implies d <= (#[trigger] s2.reached[i]).1 by {
                if i < last {
                    assert(s2.reached[i] == s1.reached[i]);
                }
            }
            assert forall|p: int| 0 <= p < s.reached.len() implies #[trigger] s2.reached[p] == s.reached[p] by {
                assert(s2.reached[p] == s1.reached[p]);
            }
            assert forall|y: int| 0 <= y < v.packages.len() && #[trigger] s2.seen[y] implies exists|p: int|
                0 <= p < s2.reached.len() && s2.reached[p].0 == y by {
                if y == x.0 as int {
                    assert(s2.reached[last].0 == y);
                } else {
                    assert(s1.seen[y]);
                    let p = choose|p: int| 0 <= p < s1.reached.len() && s1.reached[p].0 == y;
                    assert(s2.reached[p] == s1.reached[p]);
                }
            }
            assert forall|i: int, j: int| 0 <= i < j < s2.reached.len() implies (#[trigger] s2.reached[i]).1
                <= (#[trigger] s2.reached[j]).1 by {
                assert(s2.reached[i] == s1.reached[i]);
                if j < last {
                    assert(s2.reached[j] == s1.reached[j]);
                }
            }
            assert forall|q: int| 0 <= q < nbrs.len() implies exists|p: int|
                0 <= p < s2.reached.len() && s2.reached[p].0 == (#[trigger] nbrs[q]).0 && s2.reached[p].1 <= d + 1 by {
                if q < dl.len() {
                    assert(dl[q] == nbrs[q]);
                    let p = choose|p: int| 0 <= p < s1.reached.len() && s1.reached[p].0 == dl[q].0 && s1.reached[p].1 <= d + 1;
                    assert(s2.reached[p] == s1.reached[p]);
                } else {
                    assert(s2.reached[last].0 == nbrs[q].0);
                }
            }
        } else if s2.complete {
            assert(s1.seen[x.0 as int]);
            assert(s2.reached == s1.reached);
            assert forall|q: int| 0 <= q < nbrs.len() implies exists|p: int|
                0 <= p < s2.reached.len() && s2.reached[p].0 == (#[trigger] nbrs[q]).0 && s2.reached[p].1 <= d + 1 by {
                if q < dl.len() {
                    assert(dl[q] == nbrs[q]);
                } else {
                    let p = choose|p: int| 0 <= p < s1.reached.len() && s1.reached[p].0 == x.0 as int;
                    assert(s1.reached[p].1 <= d + 1);
                }
            }
        } else {
            assert(s2.reached == s1.reached);
        }
    }
}

proof fn lemma_step_ok(v: IndexView, root: u32, dir: Dir, depth: u8, s: Discovery)
    requires
        index_wf(v),
        disc_ok(v, root, dir, depth, s),
    ensures
        disc_ok(v, root, dir, depth, disc_step(v, s, depth, dir)),
        !disc_done(s) ==> disc_step(v, s, depth, dir).head == s.head + 1,
{
    if !disc_done(s) {
        let h = s.head as int;
        let e = s.reached[h];
        let s0 = Discovery { head: s.head + 1, ..s };
        let s2 = disc_step(v, s, depth, dir);
        assert(s.complete);
        if e.1 >= depth {
            assert(s2 == s0);
            assert forall|i: int, j: int| s2.head <= i < s2.reached.len() && 0 <= j < s2.reached.len() implies (
            #[trigger] s2.reached[j]).1 <= (#[trigger] s2.reached[i]).1 + 1 by {
                assert(s.reached[j].1 <= s.reached[i].1 + 1);
            }
            assert forall|j: int, b: u32|
                0 <= j < disc_end(s2) && s2.reached[j].1 < depth && #[trigger] proj_step(v, dir, s2.reached[j].0, b)
                    implies exists|p: int| 0 <= p < s2.reached.len() && s2.reached[p].0 == b && s2.reached[p].1 <= s2.reached[j].1 + 1 by {
                assert(j < h);
            }
        } else {
            let lo = e.1 as int;
            let nbrs = proj_neighbors(v, e.0, dir);
            assert(e.0 < v.packages.len());
            assert forall|q: int| 0 <= q < nbrs.len() implies (#[trigger] nbrs[q]).0 < v.packages.len() by {
                match dir {
                    Dir::Deps => {
                        lemma_typed_pairs_in_range(v, e.0);
                        assert(nbrs[q].0 == typed_pairs(v.packages[e.0 as int])[q].0);
                    },
                    Dir::Dependents => {
                        assert(nbrs[q].0 == v.dependents[e.0 as int][q]);
                    },
                }
            }
            assert(disc_expanding(s0, lo)) by {
                assert forall|j: int| 0 <= j < s0.reached.len() implies (#[trigger] s0.reached[j]).1 <= lo + 1 by {
                    assert(s.reached[j].1 <= s.reached[h].1 + 1);
                }
                assert forall|i: int| s0.head <= i < s0.reached.len() implies lo <= (#[trigger] s0.reached[i]).1 by {
                    assert(s.reached[h].1 <= s.reached[i].1);
                }
            }
            assert(disc_base(v, root, s0)) by {
                assert forall|i: int, j: int| s0.head <= i < s0.reached.len() && 0 <= j < s0.reached.len() implies (
                #[trigger] s0.reached[j]).1 <= (#[trigger] s0.reached[i]).1 + 1 by {
                    assert(s.reached[j].1 <= s.reached[i].1 + 1);
                }
            }
            lemma_expand_ok(v, root, dir, depth, s0, e.0, e.1, nbrs);
            assert(s2 == disc_expand(v, s0, e.0, e.1, nbrs, dir));
            assert forall|i: int, j: int| s2.head <= i < s2.reached.len() && 0 <= j < s2.reached.len() implies (
            #[trigger] s2.reached[j]).1 <= (#[trigger] s2.reached[i]).1 + 1 by {}
            assert(s2.reached[0] == s.reached[0]);
            if !s2.complete {
                assert(s2.reached[h] == s.reached[h]);
            }
            assert forall|j: int, b: u32|
                0 <= j < disc_end(s2) && s2.reached[j].1 < depth && #[trigger] proj_step(v, dir, s2.reached[j].0, b)
                    implies exists|p: int| 0 <= p < s2.reached.len() && s2.reached[p].0 == b && s2.reached[p].1 <= s2.reached[j].1 + 1 by {
                assert(s2.reached[j] == s.reached[j]);
                {
                    if j == h {
                        let q = choose|q: int| 0 <= q < nbrs.len() && (#[trigger] nbrs[q]).0 == b;
                        assert(nbrs[q].0 == b);
                    } else {
                        let p = choose|p: int| 0 <= p < s.reached.len() && s.reached[p].0 == b && s.reached[p].1 <= s.reached[j].1 + 1;
                        assert(s2.reached[p] == s.reached[p]);
                    }
                }
            }
        }
    }
}

proof fn lemma_after_ok(v: IndexView, root: u32, dir: Dir, depth: u8, k: nat)
    requires
        index_wf(v),
        root < v.packages.len(),
    ensures
        disc_ok(v, root, dir, depth, disc_after(v, root, depth, dir, k)),
        disc_done(disc_after(v, root, depth, dir, k)) || disc_after(v, root, depth, dir, k).head == k,
    decreases k,
{
    if k == 0 {
        let s = disc_start(v, root);
        assert(s.reached[0] == (root, 0u8, None::<DepKind>));
        assert forall|x: int| 0 <= x < v.packages.len() && #[trigger] s.seen[x] implies exists|p: int|
            0 <= p < s.reached.len() && s.reached[p].0 == x by {
            assert(s.reached[0].0 == x);
        }
    } else {
        lemma_after_ok(v, root, dir, depth, (k - 1) as nat);
        lemma_step_ok(v, root, dir, depth, disc_after(v, root, depth, dir, (k - 1) as nat));
    }
}

/// Discovery finishes: after one step per package at most.
proof fn lemma_disc_finishes(v: IndexView, root: u32, dir: Dir, depth: u8)
    requires
        index_wf(v),
        root < v.packages.len(),
    ensures
        disc_done(disc_final(v, root, depth, dir)),
        disc_ok(v, root, dir, depth, disc_final(v, root, depth, dir)),
{
    let k = (v.packages.len() + 1) as nat;
    lemma_after_ok(v, root, dir, depth, k);
    lemma_after_distinct(v, root, depth, dir, k);
    lemma_disc_final(v, root, depth, dir, k);
}

/// In a finished walk that nothing cut short, every id on a sequence of
/// steps from the root is reached, no deeper than its position on it, while
/// that position is within the depth limit.
proof fn lemma_steps_found(v: IndexView, root: u32, dir: Dir, depth: u8, s: Discovery, p: Seq<u32>, i: int)
    requires
        disc_ok(v, root, dir, depth, s),
        disc_done(s),
        p.len() > 0,
        p[0] == root,
        forall|m: int| 0 <= m < p.len() - 1 ==> #[trigger] proj_step(v, dir, p[m], p[m + 1]),
        0 <= i < p.len(),
        i <= depth,
        disc_end(s) < s.reached.len() ==> i <= s.reached[disc_end(s)].1,
    ensures
        exists|q: int| 0 <= q < s.reached.len() && s.reached[q].0 == p[i] && s.reached[q].1 <= i,
    decreases i,
{
    if i == 0 {
        assert(s.reached[0].0 == p[0]);
    } else {
        lemma_steps_found(v, root, dir, depth, s, p, i - 1);
        let q = choose|q: int| 0 <= q < s.reached.len() && s.reached[q].0 == p[i - 1] && s.reached[q].1 <= i - 1;
        let m = i - 1;
        assert(proj_step(v, dir, p[m], p[m + 1]));
        assert(m + 1 == i);
        assert(proj_step(v, dir, s.reached[q].0, p[i]));
        if q >= disc_end(s) {
            assert(disc_end(s) < s.reached.len());
            if q > disc_end(s) {
                assert(s.reached[disc_end(s)].1 <= s.reached[q].1);
            }
        }
    }
}

/// The ids within `depth` discovery steps of `root`.
pub open spec fn within_depth(v: IndexView, root: u32, dir: Dir, depth: u8) -> Set<u32> {
    Set::new(|id: u32| exists|l: nat| l <= depth && #[trigger] proj_reaches_in(v, root, dir, id, l))
}

/// When discovery is complete it has found exactly the ids within `depth`
/// steps of the root, and the total it reports is their number. Complete or
/// not, the depth of each node is the fewest steps of any sequence of
/// discovery steps that leads to it from the root.
pub proof fn law_projection_complete(v: IndexView, root: u32, dir: Dir, depth: u8, budget: usize)
    requires
        index_wf(v),
        root < v.packages.len(),
    ensures
        ({
            let p = projection_of(v, root, dir, depth, budget);
            &&& p.discovery_complete ==> p.discovered_total == Some(within_depth(v, root, dir, depth).len() as usize)
            &&& forall|i: int, l: nat|
                0 <= i < p.nodes.len() && #[trigger] proj_reaches_in(v, root, dir, p.nodes[i], l) ==> p.depth_of[i] <= l
        }),
{
    let s = disc_final(v, root, depth, dir);
    let p = projection_of(v, root, dir, depth, budget);
    lemma_disc_finishes(v, root, dir, depth);
    law_projection_discovery(v, root, dir, depth, budget);
    let c = choose|k: nat| disc_done(disc_after(v, root, depth, dir, k));
    assert(s == disc_after(v, root, depth, dir, c));
    lemma_after_sound(v, root, dir, depth, c);
    lemma_after_distinct(v, root, depth, dir, c);
    if s.complete {
        let ids = s.reached.map_values(|e: (u32, u8, Option<DepKind>)| e.0);
        let w = within_depth(v, root, dir, depth);
        assert(ids.to_set() =~= w) by {
            assert forall|id: u32| ids.to_set().contains(id) implies w.contains(id) by {
                let q = choose|q: int| 0 <= q < ids.len() && ids[q] == id;
                assert(s.reached[q].1 <= depth && proj_reaches_in(v, root, dir, s.reached[q].0, s.reached[q].1 as nat));
                assert(exists|l: nat| l <= depth && #[trigger] proj_reaches_in(v, root, dir, id, l));
            }
            assert forall|id: u32| w.contains(id) implies ids.to_set().contains(id) by {
                let l = choose|l: nat| l <= depth && #[trigger] proj_reaches_in(v, root, dir, id, l);
                let pw = choose|pw: Seq<u32>|
                    pw.len() == l + 1 && pw[0] == root && pw.last() == id && (forall|i: int|
                        0 <= i < l ==> #[trigger] proj_step(v, dir, pw[i], pw[i + 1]));
                lemma_steps_found(v, root, dir, depth, s, pw, l as int);
                let q = choose|q: int| 0 <= q < s.reached.len() && s.reached[q].0 == pw[l as int] && s.reached[q].1 <= l;
                assert(ids[q] == id);
            }
        }
        assert(ids.no_duplicates()) by {
            assert forall|a: int, b: int| 0 <= a < ids.len() && 0 <= b < ids.len() && a != b implies ids[a] != ids[b] by {
                if a < b {
                    assert(s.reached[a].0 != s.reached[b].0);
                } else {
                    assert(s.reached[b].0 != s.reached[a].0);
                }
            }
        }
        ids.unique_seq_to_set();
    }
    let keep = if budget < NODE_BUDGET {
        budget as int
    } else {
        NODE_BUDGET as int
    };
    let pr = presented(v, s.reached, dir);
    lemma_presented(v, s.reached, dir);
    let kept = take_upto(pr, keep);
    assert forall|i: int, l: nat| 0 <= i < p.nodes.len() && #[trigger] proj_reaches_in(v, root, dir, p.nodes[i], l)
        implies p.depth_of[i] <= l by {
        assert(kept[i] == pr[i]);
        assert(s.reached.contains(pr[i]));
        let q = choose|q: int| 0 <= q < s.reached.len() && s.reached[q] == pr[i];
        assert(p.nodes[i] == s.reached[q].0 && p.depth_of[i] == s.reached[q].1);
        if l > depth {
            assert(s.reached[q].1 <= depth);
        } else if disc_end(s) < s.reached.len() && l > s.reached[disc_end(s)].1 {
            assert(!s.complete);
            assert(s.reached[q].1 <= s.reached[s.head - 1].1 + 1);
        } else {
            let pw = choose|pw: Seq<u32>|
                pw.len() == l + 1 && pw[0] == root && pw.last() == p.nodes[i] && (forall|m: int|
                    0 <= m < l ==> #[trigger] proj_step(v, dir, pw[m], pw[m + 1]));
            lemma_steps_found(v, root, dir, depth, s, pw, l as int);
            let q2 = choose|q2: int| 0 <= q2 < s.reached.len() && s.reached[q2].0 == pw[l as int] && s.reached[q2].1 <= l;
            if q2 != q {
                if q2 < q {
                    assert(s.reached[q2].0 != s.reached[q].0);
                } else {
                    assert(s.reached[q].0 != s.reached[q2].0);
                }
            }
        }
    }
}

/// The positions of the nodes that node `i` lists as dependencies.
pub open spec fn linked(v: IndexView, nodes: Seq<u32>, i: int) -> Set<int> {
    Set::new(|j: int| 0 <= j < nodes.len() && typed_seq(v.packages[nodes[i] as int]).contains(nodes[j]))
}

/// The number of pairs of nodes, the first among the first `k`, where the
/// first lists the second as a dependency.
pub open spec fn pair_count(v: IndexView, nodes: Seq<u32>, k: nat) -> nat
    decreases k,
{
    if k == 0 {
        0
    } else {
        pair_count(v, nodes, (k - 1) as nat) + linked(v, nodes, k - 1).len()
    }
}

proof fn lemma_edge_node_count(s: EdgeScan, i: int, nodes: Seq<u32>, deps: Seq<(u32, DepKind)>)
    requires
        forall|a: int, b: int| 0 <= a < b < nodes.len() ==> (#[trigger] nodes[a]) != (#[trigger] nodes[b]),
        s.targets.finite(),
        s.targets.subset_of(vstd::set_lib::set_int_range(0, nodes.len() as int)),
    ensures
        ({
            let s2 = edge_node(s, i, nodes, deps);
            &&& s2.complete ==> s.complete
            &&& s2.targets.finite()
            &&& s2.targets.subset_of(vstd::set_lib::set_int_range(0, nodes.len() as int))
            &&& s2.complete ==> s2.total + s.targets.len() == s.total + s2.targets.len()
            &&& s2.complete ==> forall|j: int| #[trigger] s2.targets.contains(j) <==> (s.targets.contains(j) || (0 <= j
                < nodes.len() && exists|q: int| 0 <= q < deps.len() && (#[trigger] deps[q]).0 == nodes[j]))
        }),
    decreases deps.len(),
{
    if deps.len() > 0 {
        let dl = deps.drop_last();
        lemma_edge_node_count(s, i, nodes, dl);
        let s1 = edge_node(s, i, nodes, dl);
        let dep = deps.last().0;
        let s2 = edge_visit(s1, i, nodes, dep);
        assert(s2 == edge_node(s, i, nodes, deps));
        assert(deps.last() == deps[deps.len() - 1]);
        if s2.complete {
            match slot_in(nodes, dep) {
                Some(j0) => {
                    assert(0 <= j0 < nodes.len() && nodes[j0] == dep);
                    if !s1.targets.contains(j0) {
                        assert(s2.targets == s1.targets.insert(j0));
                        assert(s2.targets.len() == s1.targets.len() + 1);
                    } else {
                        assert(s2.targets == s1.targets);
                    }
                    assert forall|j: int| #[trigger] s2.targets.contains(j) <==> (s.targets.contains(j) || (0 <= j
                        < nodes.len() && exists|q: int| 0 <= q < deps.len() && (#[trigger] deps[q]).0 == nodes[j])) by {
                        if 0 <= j < nodes.len() && exists|q: int| 0 <= q < deps.len() && (#[trigger] deps[q]).0 == nodes[j] {
                            let q = choose|q: int| 0 <= q < deps.len() && (#[trigger] deps[q]).0 == nodes[j];
                            if q < dl.len() {
                                assert(dl[q] == deps[q]);
                            } else {
                                if j != j0 {
                                    if j < j0 {
                                        assert(nodes[j] != nodes[j0]);
                                    } else {
                                        assert(nodes[j0] != nodes[j]);
                                    }
                                }
                            }
                        }
                        if s1.targets.contains(j) && !s.targets.contains(j) {
                            let q = choose|q: int| 0 <= q < dl.len() && (#[trigger] dl[q]).0 == nodes[j];
                            assert(deps[q] == dl[q]);
                        }
                    }
                },
                None => {
                    assert(s2.targets == s1.targets);
                    assert forall|j: int| #[trigger] s2.targets.contains(j) <==> (s.targets.contains(j) || (0 <= j
                        < nodes.len() && exists|q: int| 0 <= q < deps.len() && (#[trigger] deps[q]).0 == nodes[j])) by {
                        if 0 <= j < nodes.len() && exists|q: int| 0 <= q < deps.len() && (#[trigger] deps[q]).0 == nodes[j] {
                            let q = choose|q: int| 0 <= q < deps.len() && (#[trigger] deps[q]).0 == nodes[j];
                            if q < dl.len() {
                                assert(dl[q] == deps[q]);
                            } else {
                                assert(nodes[j] == dep);
                            }
                        }
                        if s1.targets.contains(j) && !s.targets.contains(j) {
                            let q = choose|q: int| 0 <= q < dl.len() && (#[trigger] dl[q]).0 == nodes[j];
                            assert(deps[q] == dl[q]);
                        }
                    }
                },
            }
        }
    }
}

proof fn lemma_edge_scan_count(v: IndexView, nodes: Seq<u32>, k: nat)
    requires
        forall|a: int, b: int| 0 <= a < b < nodes.len() ==> (#[trigger] nodes[a]) != (#[trigger] nodes[b]),
        k <= nodes.len(),
    ensures
        edge_scan(v, nodes, k).complete ==> edge_scan(v, nodes, k).total == pair_count(v, nodes, k),
    decreases k,
{
    if k > 0 {
        lemma_edge_scan_count(v, nodes, (k - 1) as nat);
        let s = edge_scan(v, nodes, (k - 1) as nat);
        let s0 = EdgeScan { targets: Set::empty(), ..s };
        let deps = typed_pairs(v.packages[nodes[k - 1] as int]);
        lemma_edge_node_count(s0, k - 1, nodes, deps);
        let s2 = edge_scan(v, nodes, k);
        assert(s2 == edge_node(s0, k - 1, nodes, deps));
        if s2.complete {
            let p = v.packages[nodes[k - 1] as int];
            assert(s2.targets =~= linked(v, nodes, k - 1)) by {
                assert forall|j: int| s2.targets.contains(j) <==> linked(v, nodes, k - 1).contains(j) by {
                    if 0 <= j < nodes.len() {
                        if exists|q: int| 0 <= q < deps.len() && (#[trigger] deps[q]).0 == nodes[j] {
                            let q = choose|q: int| 0 <= q < deps.len() && (#[trigger] deps[q]).0 == nodes[j];
                            assert(typed_seq(p)[q] == deps[q].0);
                        }
                        if typed_seq(p).contains(nodes[j]) {
                            let q = choose|q: int| 0 <= q < typed_seq(p).len() && typed_seq(p)[q] == nodes[j];
                            assert(deps[q].0 == typed_seq(p)[q]);
                        }
                    }
                }
            }
        }
    }
}

/// The nodes of a projection are distinct.
proof fn lemma_nodes_distinct(v: IndexView, root: u32, dir: Dir, depth: u8, budget: usize)
    requires
        index_wf(v),
        root < v.packages.len(),
    ensures
        ({
            let nodes = projection_of(v, root, dir, depth, budget).nodes;
            forall|a: int, b: int| 0 <= a < b < nodes.len() ==> (#[trigger] nodes[a]) != (#[trigger] nodes[b])
        }),
{
    let s = disc_final(v, root, depth, dir);
    let c = choose|k: nat| disc_done(disc_after(v, root, depth, dir, k));
    assert(s == disc_after(v, root, depth, dir, c));
    lemma_after_distinct(v, root, depth, dir, c);
    lemma_after_ok(v, root, dir, depth, c);
    let keep = if budget < NODE_BUDGET {
        budget as int
    } else {
        NODE_BUDGET as int
    };
    let pr = presented(v, s.reached, dir);
    let kept = take_upto(pr, keep);
    let nodes = projection_of(v, root, dir, depth, budget).nodes;
    assert forall|a: int, b: int| 0 <= a < b < pr.len() implies (#[trigger] pr[a]).0 != (#[trigger] pr[b]).0 by {
        match dir {
            Dir::Deps => {
                assert(pr == s.reached);
            },
            Dir::Dependents => {
                let rest = s.reached.drop_first();
                let ids = rest.map_values(|e: (u32, u8, Option<DepKind>)| e.0);
                let lt = keyed_order(hub_key(v));
                lemma_keyed_order(hub_key(v));
                lemma_sorted_list_exists(ids, lt);
                let order = sorted_list(ids.to_set(), lt);
                lemma_sorted_no_dups(order, lt);
                let m = order.map_values(
                    |id: u32| rest[choose|p: int| 0 <= p < rest.len() && rest[p].0 == id],
                );
                assert(pr == seq![s.reached[0]] + m);
                assert forall|i: int| 1 <= i < pr.len() implies (#[trigger] pr[i]).0 == order[i - 1] && pr[i].0 != root by {
                    let id = order[i - 1];
                    assert(order.to_set().contains(id));
                    let p0 = choose|p0: int| 0 <= p0 < ids.len() && ids[p0] == id;
                    assert(rest[p0].0 == id);
                    assert(exists|p: int| 0 <= p < rest.len() && rest[p].0 == id);
                    let c1 = choose|p: int| 0 <= p < rest.len() && rest[p].0 == id;
                    assert(rest[c1].0 == id);
                    assert(pr[i] == m[i - 1]);
                    assert(m[i - 1] == rest[choose|p: int| 0 <= p < rest.len() && rest[p].0 == order[i - 1]]);
                    assert(m[i - 1] == rest[c1]);
                    assert(s.reached[p0 + 1] == rest[p0]);
                    assert(s.reached[0].0 != s.reached[p0 + 1].0);
                }
                if a == 0 {
                    assert(pr[0] == s.reached[0]);
                } else {
                    assert(order[a - 1] != order[b - 1]);
                }
            },
        }
    }
    assert forall|a: int, b: int| 0 <= a < b < nodes.len() implies (#[trigger] nodes[a]) != (#[trigger] nodes[b]) by {
        assert(kept[a] == pr[a] && kept[b] == pr[b]);
    }
}

/// When the edge scan of a projection is complete, the total it reports
/// counts every pair of nodes where the first lists the second as a
/// dependency, each pair once.
pub proof fn law_projection_edge_total(v: IndexView, root: u32, dir: Dir, depth: u8, budget: usize)
    requires
        index_wf(v),
        root < v.packages.len(),
    ensures
        ({
            let p = projection_of(v, root, dir, depth, budget);
            p.edges_total matches Some(t) ==> t == pair_count(v, p.nodes, p.nodes.len())
        }),
{
    let p = projection_of(v, root, dir, depth, budget);
    lemma_nodes_distinct(v, root, dir, depth, budget);
    lemma_edge_scan_count(v, p.nodes, p.nodes.len());
    law_projection_bounds(v, root, dir, depth, budget);
    lemma_edge_scan_bounded(v, p.nodes, p.nodes.len());
}

/// Discovery starts from the root at depth zero without a kind and reaches
/// every other node at least one step deep.
spec fn depths_ok(root: u32, s: Discovery) -> bool {
    &&& s.reached.len() > 0 && s.reached[0] == (root, 0u8, None::<DepKind>)
    &&& forall|p: int| 1 <= p < s.reached.len() ==> (#[trigger] s.reached[p]).1 >= 1
}

proof fn lemma_expand_depths(v: IndexView, root: u32, s: Discovery, id: u32, d: u8, nbrs: Seq<(u32, Option<DepKind>)>, dir: Dir)
    requires
        depths_ok(root, s),
        d < 255,
    ensures
        depths_ok(root, disc_expand(v, s, id, d, nbrs, dir)),
    decreases nbrs.len(),
{
    if nbrs.len() > 0 {
        lemma_expand_depths(v, root, s, id, d, nbrs.drop_last(), dir);
        let s1 = disc_expand(v, s, id, d, nbrs.drop_last(), dir);
        let s2 = disc_visit(v, s1, id, d, nbrs.last(), dir);
        assert(s2 == disc_expand(v, s, id, d, nbrs, dir));
        if s2.reached.len() > s1.reached.len() {
            assert forall|p: int| 1 <= p < s2.reached.len() implies (#[trigger] s2.reached[p]).1 >= 1 by {
                if p < s1.reached.len() {
                    assert(s2.reached[p] == s1.reached[p]);
                }
            }
            assert(s2.reached[0] == s1.reached[0]);
        }
    }
}

proof fn lemma_after_depths(v: IndexView, root: u32, depth: u8, dir: Dir, k: nat)
    ensures
        depths_ok(root, disc_after(v, root, depth, dir, k)),
    decreases k,
{
    if k > 0 {
        lemma_after_depths(v, root, depth, dir, (k - 1) as nat);
        let s = disc_after(v, root, depth, dir, (k - 1) as nat);
        if !disc_done(s) {
            let e = s.reached[s.head as int];
            let s0 = Discovery { head: s.head + 1, ..s };
            if e.1 < depth {
                lemma_expand_depths(v, root, s0, e.0, e.1, proj_neighbors(v, e.0, dir), dir);
            }
        }
    }
}

/// A projection with room for a node starts with the root, at depth zero
/// and without a kind; every other node is at least one step deep.
pub proof fn law_projection_root_first(v: IndexView, root: u32, dir: Dir, depth: u8, budget: usize)
    requires
        index_wf(v),
        root < v.packages.len(),
        budget > 0,
    ensures
        ({
            let p = projection_of(v, root, dir, depth, budget);
            &&& p.nodes.len() > 0 && p.nodes[0] == root
            &&& p.depth_of[0] == 0 && p.kind_of[0] is None
            &&& forall|i: int| 1 <= i < p.nodes.len() ==> #[trigger] p.depth_of[i] >= 1
        }),
{
    let s = disc_final(v, root, depth, dir);
    let c = choose|k: nat| disc_done(disc_after(v, root, depth, dir, k));
    assert(s == disc_after(v, root, depth, dir, c));
    lemma_after_depths(v, root, depth, dir, c);
    lemma_nodes_distinct(v, root, dir, depth, budget);
    let keep = if budget < NODE_BUDGET {
        budget as int
    } else {
        NODE_BUDGET as int
    };
    let pr = presented(v, s.reached, dir);
    lemma_presented(v, s.reached, dir);
    let kept = take_upto(pr, keep);
    let p = projection_of(v, root, dir, depth, budget);
    assert(pr[0] == s.reached[0]) by {
        match dir {
            Dir::Deps => {},
            Dir::Dependents => {
                let rest = s.reached.drop_first();
                let ids = rest.map_values(|e: (u32, u8, Option<DepKind>)| e.0);
                let order = sorted_list(ids.to_set(), keyed_order(hub_key(v)));
                let m = order.map_values(
                    |id: u32| rest[choose|q: int| 0 <= q < rest.len() && rest[q].0 == id],
                );
                assert(pr == seq![s.reached[0]] + m);
            },
        }
    }
    assert(kept[0] == pr[0]);
    assert forall|i: int| 1 <= i < p.nodes.len() implies #[trigger] p.depth_of[i] >= 1 by {
        assert(kept[i] == pr[i]);
        assert(s.reached.contains(pr[i]));
        let q = choose|q: int| 0 <= q < s.reached.len() && s.reached[q] == pr[i];
        assert(p.nodes[0] != p.nodes[i]);
        assert(q != 0);
    }
}

/// `a` is related to `b` by kind `k` in the direction of a walk: walking
/// dependencies, `a` lists `b` under `k`; walking dependents, `b` is a
/// recorded dependent of `a` that lists `a` under `k`.
pub open spec fn relates(v: IndexView, dir: Dir, a: u32, b: u32, k: DepKind) -> bool {
    match dir {
        Dir::Deps => typed_pairs(v.packages[a as int]).contains((b, k)),
        Dir::Dependents => v.dependents[a as int].contains(b) && typed_pairs(v.packages[b as int]).contains((a, k)),
    }
}

proof fn lemma_add_kinds_has(s: KindSet, cats: Seq<DepKind>, k: DepKind)
    ensures
        has_kind(add_kinds(s, cats), k) <==> has_kind(s, k) || cats.contains(k),
    decreases cats.len(),
{
    if cats.len() > 0 {
        let d = cats.drop_last();
        lemma_add_kinds_has(s, d, k);
        let t = add_kinds(s, d);
        match cats.last() {
            DepKind::Input => {},
            DepKind::Propagated => {},
            DepKind::Native => {},
        }
        assert(has_kind(add_kind(t, cats.last()), k) <==> has_kind(t, k) || k == cats.last());
        if cats.contains(k) {
            let i = choose|i: int| 0 <= i < cats.len() && cats[i] == k;
            if i < cats.len() - 1 {
                assert(d[i] == k);
            }
        }
        if d.contains(k) {
            let i = choose|i: int| 0 <= i < d.len() && d[i] == k;
            assert(cats[i] == k);
        }
        if k == cats.last() {
            assert(cats[cats.len() - 1] == k);
        }
    }
}

/// Expanding a node adds to each neighbour the kinds met on the way to it,
/// unless the walk was cut short; it keeps the nodes reached before.
proof fn lemma_expand_kinds_disc(v: IndexView, s: Discovery, id: u32, d: u8, nbrs: Seq<(u32, Option<DepKind>)>, dir: Dir)
    requires
        s.kinds.len() == v.packages.len(),
        forall|q: int| 0 <= q < nbrs.len() ==> (#[trigger] nbrs[q]).0 < v.packages.len(),
    ensures
        ({
            let s2 = disc_expand(v, s, id, d, nbrs, dir);
            &&& s2.kinds.len() == s.kinds.len()
            &&& s2.head == s.head
            &&& s2.reached.len() >= s.reached.len()
            &&& forall|j: int| 0 <= j < s.reached.len() ==> #[trigger] s2.reached[j] == s.reached[j]
            &&& s2.complete ==> s.complete
            &&& s2.complete ==> forall|x: u32, k: DepKind|
                (x as int) < v.packages.len() ==> (#[trigger] has_kind(s2.kinds[x as int], k) <==> has_kind(
                    s.kinds[x as int],
                    k,
                ) || exists|q: int|
                    0 <= q < nbrs.len() && nbrs[q].0 == x && #[trigger] proj_categories(v, id, nbrs[q], dir).contains(k))
        }),
    decreases nbrs.len(),
{
    if nbrs.len() > 0 {
        let dl = nbrs.drop_last();
        assert forall|q: int| 0 <= q < dl.len() implies (#[trigger] dl[q]).0 < v.packages.len() by {
            assert(dl[q] == nbrs[q]);
        }
        lemma_expand_kinds_disc(v, s, id, d, dl, dir);
        let s1 = disc_expand(v, s, id, d, dl, dir);
        let x = nbrs.last();
        assert(x == nbrs[nbrs.len() - 1]);
        let s2 = disc_visit(v, s1, id, d, x, dir);
        assert(s2 == disc_expand(v, s, id, d, nbrs, dir));
        assert forall|j: int| 0 <= j < s.reached.len() implies #[trigger] s2.reached[j] == s.reached[j] by {
            assert(s2.reached[j] == s1.reached[j]);
        }
        if s2.complete {
            let cats = proj_categories(v, id, x, dir);
            assert forall|y: u32, k: DepKind| (y as int) < v.packages.len() implies (#[trigger] has_kind(s2.kinds[y as int], k) <==> has_kind(
                s.kinds[y as int],
                k,
            ) || exists|q: int|
                0 <= q < nbrs.len() && nbrs[q].0 == y && #[trigger] proj_categories(v, id, nbrs[q], dir).contains(k)) by {
                if y == x.0 {
                    assert(s2.kinds[y as int] == add_kinds(s1.kinds[y as int], cats));
                    lemma_add_kinds_has(s1.kinds[y as int], cats, k);
                } else {
                    assert(s2.kinds[y as int] == s1.kinds[y as int]);
                }
                if exists|q: int| 0 <= q < nbrs.len() && nbrs[q].0 == y && #[trigger] proj_categories(v, id, nbrs[q], dir).contains(k) {
                    let q = choose|q: int| 0 <= q < nbrs.len() && nbrs[q].0 == y && #[trigger] proj_categories(v, id, nbrs[q], dir).contains(k);
                    if q < dl.len() {
                        assert(dl[q] == nbrs[q]);
                    }
                }
                if exists|q: int| 0 <= q < dl.len() && dl[q].0 == y && #[trigger] proj_categories(v, id, dl[q], dir).contains(k) {
                    let q = choose|q: int| 0 <= q < dl.len() && dl[q].0 == y && #[trigger] proj_categories(v, id, dl[q], dir).contains(k);
                    assert(nbrs[q] == dl[q]);
                }
            }
        }
    }
}

/// The kinds met on the steps out of `a` into `x` are those of the
/// relations between them.
proof fn lemma_neighbor_kinds(v: IndexView, a: u32, x: u32, k: DepKind, dir: Dir)
    requires
        index_wf(v),
        a < v.packages.len(),
    ensures
        (exists|q: int|
            0 <= q < proj_neighbors(v, a, dir).len() && proj_neighbors(v, a, dir)[q].0 == x
                && #[trigger] proj_categories(v, a, proj_neighbors(v, a, dir)[q], dir).contains(k)) <==> relates(
            v,
            dir,
            a,
            x,
            k,
        ),
{
    let nb = proj_neighbors(v, a, dir);
    match dir {
        Dir::Deps => {
            let tp = typed_pairs(v.packages[a as int]);
            if exists|q: int| 0 <= q < nb.len() && nb[q].0 == x && #[trigger] proj_categories(v, a, nb[q], dir).contains(k) {
                let q = choose|q: int| 0 <= q < nb.len() && nb[q].0 == x && #[trigger] proj_categories(v, a, nb[q], dir).contains(k);
                assert(nb[q] == (tp[q].0, Some(tp[q].1)));
                assert(proj_categories(v, a, nb[q], dir) == seq![tp[q].1]);
                let w = choose|w: int| 0 <= w < seq![tp[q].1].len() && seq![tp[q].1][w] == k;
                assert(w == 0);
                assert(tp[q] == (x, k));
                assert(tp.contains((x, k)));
            }
            if tp.contains((x, k)) {
                let q = choose|q: int| 0 <= q < tp.len() && tp[q] == (x, k);
                assert(nb[q] == (tp[q].0, Some(tp[q].1)));
                assert(proj_categories(v, a, nb[q], dir) == seq![k]);
                assert(proj_categories(v, a, nb[q], dir)[0] == k);
                assert(proj_categories(v, a, nb[q], dir).contains(k));
                assert(nb[q].0 == x);
            }
        },
        Dir::Dependents => {
            let ds = v.dependents[a as int];
            if exists|q: int| 0 <= q < nb.len() && nb[q].0 == x && #[trigger] proj_categories(v, a, nb[q], dir).contains(k) {
                let q = choose|q: int| 0 <= q < nb.len() && nb[q].0 == x && #[trigger] proj_categories(v, a, nb[q], dir).contains(k);
                assert(nb[q] == (ds[q], None::<DepKind>));
                crate::index::lemma_kinds_for_contains(typed_pairs(v.packages[x as int]), a, k);
                assert(ds[q] == x);
            }
            if relates(v, dir, a, x, k) {
                let q = choose|q: int| 0 <= q < ds.len() && ds[q] == x;
                assert(nb[q] == (ds[q], None::<DepKind>));
                crate::index::lemma_kinds_for_contains(typed_pairs(v.packages[x as int]), a, k);
                assert(proj_categories(v, a, nb[q], dir).contains(k));
            }
        },
    }
}

/// While nothing cut the walk short, the kinds recorded for each package are
/// those of the relations into it out of the expanded nodes.
spec fn disc_kinds_ok(v: IndexView, dir: Dir, depth: u8, s: Discovery) -> bool {
    &&& s.kinds.len() == v.packages.len()
    &&& s.complete ==> forall|x: u32, k: DepKind|
        (x as int) < v.packages.len() ==> (#[trigger] has_kind(s.kinds[x as int], k) <==> exists|j: int|
            0 <= j < s.head && s.reached[j].1 < depth && #[trigger] relates(v, dir, s.reached[j].0, x, k))
}

proof fn lemma_after_kinds(v: IndexView, root: u32, depth: u8, dir: Dir, k: nat)
    requires
        index_wf(v),
        root < v.packages.len(),
    ensures
        disc_kinds_ok(v, dir, depth, disc_after(v, root, depth, dir, k)),
    decreases k,
{
    if k > 0 {
        lemma_after_kinds(v, root, depth, dir, (k - 1) as nat);
        lemma_after_distinct(v, root, depth, dir, (k - 1) as nat);
        let s = disc_after(v, root, depth, dir, (k - 1) as nat);
        let s2 = disc_after(v, root, depth, dir, k);
        if !disc_done(s) {
            let h = s.head as int;
            let e = s.reached[h];
            let s0 = Discovery { head: s.head + 1, ..s };
            if e.1 >= depth {
                assert(s2 == s0);
                assert forall|x: u32, kd: DepKind| (x as int) < v.packages.len() implies (#[trigger] has_kind(s2.kinds[x as int], kd) <==> exists|j: int|
                    0 <= j < s2.head && s2.reached[j].1 < depth && #[trigger] relates(v, dir, s2.reached[j].0, x, kd)) by {
                    if exists|j: int| 0 <= j < s2.head && s2.reached[j].1 < depth && #[trigger] relates(v, dir, s2.reached[j].0, x, kd) {
                        let j = choose|j: int| 0 <= j < s2.head && s2.reached[j].1 < depth && #[trigger] relates(v, dir, s2.reached[j].0, x, kd);
                        assert(j != h);
                    }
                }
            } else {
                let nbrs = proj_neighbors(v, e.0, dir);
                assert(e.0 < v.packages.len());
                assert forall|q: int| 0 <= q < nbrs.len() implies (#[trigger] nbrs[q]).0 < v.packages.len() by {
                    match dir {
                        Dir::Deps => {
                            lemma_typed_pairs_in_range(v, e.0);
                            assert(nbrs[q].0 == typed_pairs(v.packages[e.0 as int])[q].0);
                        },
                        Dir::Dependents => {
                            assert(nbrs[q].0 == v.dependents[e.0 as int][q]);
                        },
                    }
                }
                lemma_expand_kinds_disc(v, s0, e.0, e.1, nbrs, dir);
                assert(s2 == disc_expand(v, s0, e.0, e.1, nbrs, dir));
                if s2.complete {
                    assert forall|x: u32, kd: DepKind| (x as int) < v.packages.len() implies (#[trigger] has_kind(s2.kinds[x as int], kd) <==> exists|j: int|
                        0 <= j < s2.head && s2.reached[j].1 < depth && #[trigger] relates(v, dir, s2.reached[j].0, x, kd)) by {
                        lemma_neighbor_kinds(v, e.0, x, kd, dir);
                        assert(s2.reached[h] == e);
                        if has_kind(s2.kinds[x as int], kd) {
                            if has_kind(s.kinds[x as int], kd) {
                                let j = choose|j: int| 0 <= j < s.head && s.reached[j].1 < depth && #[trigger] relates(v, dir, s.reached[j].0, x, kd);
                                assert(s2.reached[j] == s.reached[j]);
                            } else {
                                assert(relates(v, dir, s2.reached[h].0, x, kd));
                            }
                        }
                        if exists|j: int| 0 <= j < s2.head && s2.reached[j].1 < depth && #[trigger] relates(v, dir, s2.reached[j].0, x, kd) {
                            let j = choose|j: int| 0 <= j < s2.head && s2.reached[j].1 < depth && #[trigger] relates(v, dir, s2.reached[j].0, x, kd);
                            assert(s2.reached[j] == s.reached[j]);
                            if j < h {
                                assert(has_kind(s.kinds[x as int], kd));
                            }
                        }
                    }
                }
            }
        }
    }
}

/// On a projection whose discovery is complete, each node carries exactly
/// the kinds of the relations that lead into it from a package at fewer than
/// `depth` steps from the root (the root included): walking dependencies,
/// the kinds under which such a package lists the node; walking dependents,
/// the kinds under which the node lists such a package it depends on.
#[verifier::spinoff_prover]
#[verifier::rlimit(60)]
pub proof fn law_projection_kinds(v: IndexView, root: u32, dir: Dir, depth: u8, budget: usize)
    requires
        index_wf(v),
        root < v.packages.len(),
    ensures
        ({
            let p = projection_of(v, root, dir, depth, budget);
            p.discovery_complete ==> forall|i: int, k: DepKind|
                0 <= i < p.nodes.len() ==> (#[trigger] p.kinds_of[i].contains(k) <==> exists|a: u32, l: nat|
                    l < depth && #[trigger] proj_reaches_in(v, root, dir, a, l) && relates(v, dir, a, p.nodes[i], k))
        }),
{
    let s = disc_final(v, root, depth, dir);
    let p = projection_of(v, root, dir, depth, budget);
    lemma_disc_finishes(v, root, dir, depth);
    let c = choose|kk: nat| disc_done(disc_after(v, root, depth, dir, kk));
    assert(s == disc_after(v, root, depth, dir, c));
    lemma_after_sound(v, root, dir, depth, c);
    lemma_after_distinct(v, root, depth, dir, c);
    lemma_after_kinds(v, root, depth, dir, c);
    if s.complete {
        assert(s.head >= s.reached.len());
        let keep = if budget < NODE_BUDGET {
            budget as int
        } else {
            NODE_BUDGET as int
        };
        let pr = presented(v, s.reached, dir);
        lemma_presented(v, s.reached, dir);
        let kept = take_upto(pr, keep);
        assert forall|i: int, k: DepKind| 0 <= i < p.nodes.len() implies (#[trigger] p.kinds_of[i].contains(k) <==> exists|a: u32, l: nat|
            l < depth && #[trigger] proj_reaches_in(v, root, dir, a, l) && relates(v, dir, a, p.nodes[i], k)) by {
            assert(kept[i] == pr[i]);
            assert(s.reached.contains(pr[i]));
            let q = choose|q: int| 0 <= q < s.reached.len() && s.reached[q] == pr[i];
            let x = s.reached[q].0;
            assert(p.nodes[i] == x);
            assert(p.kinds_of[i] == kind_list(s.kinds[x as int]));
            lemma_kind_list(s.kinds[x as int], k);
            if p.kinds_of[i].contains(k) {
                let j = choose|j: int| 0 <= j < s.head && s.reached[j].1 < depth && #[trigger] relates(v, dir, s.reached[j].0, x, k);
                assert(proj_reaches_in(v, root, dir, s.reached[j].0, s.reached[j].1 as nat));
                let l = s.reached[j].1 as nat;
                assert(l < depth && proj_reaches_in(v, root, dir, s.reached[j].0, l) && relates(v, dir, s.reached[j].0, x, k));
            }
            if exists|a: u32, l: nat| l < depth && #[trigger] proj_reaches_in(v, root, dir, a, l) && relates(v, dir, a, x, k) {
                let (a, l) = choose|a: u32, l: nat| l < depth && #[trigger] proj_reaches_in(v, root, dir, a, l) && relates(v, dir, a, x, k);
                let pw = choose|pw: Seq<u32>|
                    pw.len() == l + 1 && pw[0] == root && pw.last() == a && (forall|m: int|
                        0 <= m < l ==> #[trigger] proj_step(v, dir, pw[m], pw[m + 1]));
                lemma_steps_found(v, root, dir, depth, s, pw, l as int);
                let j = choose|j: int| 0 <= j < s.reached.len() && s.reached[j].0 == pw[l as int] && s.reached[j].1 <= l;
                assert(relates(v, dir, s.reached[j].0, x, k));
                assert(has_kind(s.kinds[x as int], k));
            }
        }
    }
}

} // verus!
