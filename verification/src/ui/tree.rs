//! Dependency and reverse-dependency trees as rows: an expandable tree walked
//! depth first, or the filtered complete closure.

use vstd::prelude::*;

use crate::app::{NodeKey, NodeKind, RevState, TreeState};
use crate::index::{
    first_pairs, index_wf, kinds_for, lemma_kinds_for_contains, pair_ids, typed_pairs, typed_seq, DepKind, Index, IndexView,
    MAX_INDEX_ENTRIES,
};
use crate::order::{keyed_order, lemma_keyed_order, sort_ids, sorted_list};
use crate::relations::{hit_key, HitView, RelationHit, RelationSet, RelationSetView};
use crate::text::{blank, is_blank};

verus! {

/// Sentinel id of the "Transitive" section header row.
pub const TRANS_SECTION: u32 = 0xffff_ffff;

/// Only expanded descendants have a presentation budget; direct relations
/// and closure hits stay complete.
pub const ROW_CAP: usize = 2000;

/// One row of a tree view.
#[derive(Debug, Clone)]
pub struct TreeRow {
    pub key: NodeKey,
    pub id: u32,
    pub depth: usize,
    pub kind: NodeKind,
    pub kinds: Vec<DepKind>,
    pub children_count: usize,
    pub is_section: bool,
    pub transitive_depth: Option<usize>,
    pub cycle: bool,
}

pub ghost struct RowView {
    pub key: Seq<(u32, NodeKind)>,
    pub id: u32,
    pub depth: usize,
    pub kind: NodeKind,
    pub kinds: Seq<DepKind>,
    pub children_count: usize,
    pub is_section: bool,
    pub transitive_depth: Option<usize>,
    pub cycle: bool,
}

impl View for TreeRow {
    type V = RowView;

    open spec fn view(&self) -> RowView {
        RowView {
            key: self.key@,
            id: self.id,
            depth: self.depth,
            kind: self.kind,
            kinds: self.kinds@,
            children_count: self.children_count,
            is_section: self.is_section,
            transitive_depth: self.transitive_depth,
            cycle: self.cycle,
        }
    }
}

/// The rows of a tree view, and whether the expanded-descendant budget cut
/// it short.
#[derive(Debug, Default, Clone)]
pub struct TreeRows {
    pub rows: Vec<TreeRow>,
    pub materialization_limited: bool,
}

pub open spec fn rows_view(rows: Seq<TreeRow>) -> Seq<RowView> {
    rows.map_values(|r: TreeRow| r@)
}

pub open spec fn node_kind_of(kind: DepKind) -> NodeKind {
    match kind {
        DepKind::Input => NodeKind::Input,
        DepKind::Propagated => NodeKind::Propagated,
        DepKind::Native => NodeKind::Native,
    }
}

/// The node kind a dependency kind is shown with.
pub fn node_kind(kind: DepKind) -> (r: NodeKind)
    ensures
        r == node_kind_of(kind),
{
    match kind {
        DepKind::Input => NodeKind::Input,
        DepKind::Propagated => NodeKind::Propagated,
        DepKind::Native => NodeKind::Native,
    }
}

/// The children of a tree node: its distinct dependencies, or its
/// dependents on a reverse tree.
pub open spec fn child_ids(v: IndexView, id: u32, reverse: bool) -> Seq<u32> {
    if reverse {
        v.dependents[id as int]
    } else {
        pair_ids(first_pairs(typed_pairs(v.packages[id as int])))
    }
}

/// The kinds under which a child is related to its parent.
pub open spec fn child_kinds(v: IndexView, id: u32, c: u32, reverse: bool) -> Seq<DepKind> {
    if reverse {
        kinds_for(typed_pairs(v.packages[c as int]), id)
    } else {
        kinds_for(typed_pairs(v.packages[id as int]), c)
    }
}

/// The children of a node with their kinds, ordered by name, version, id.
pub open spec fn children_of(v: IndexView, id: u32, reverse: bool) -> Seq<(u32, Seq<DepKind>)> {
    sorted_list(child_ids(v, id, reverse).to_set(), keyed_order(hit_key(v))).map_values(
        |c: u32| (c, child_kinds(v, id, c, reverse)),
    )
}

/// How many children a node has.
pub open spec fn children_count_of(v: IndexView, id: u32, reverse: bool) -> usize {
    if reverse {
        v.dependents[id as int].len() as usize
    } else {
        first_pairs(typed_pairs(v.packages[id as int])).len() as usize
    }
}

pub(crate) proof fn lemma_first_pairs_unique(s: Seq<(u32, DepKind)>)
    ensures
        pair_ids(first_pairs(s)).no_duplicates(),
        forall|m: int| 0 <= m < first_pairs(s).len() ==> s.contains(#[trigger] first_pairs(s)[m]),
    decreases s.len(),
{
    if s.len() > 0 {
        lemma_first_pairs_unique(s.drop_last());
        let d = first_pairs(s.drop_last());
        if !pair_ids(d).contains(s.last().0) {
            assert(pair_ids(d.push(s.last())) =~= pair_ids(d).push(s.last().0));
            assert forall|a: int, b: int|
                0 <= a < pair_ids(d.push(s.last())).len() && 0 <= b < pair_ids(d.push(s.last())).len() && a
                    != b implies pair_ids(d.push(s.last()))[a] != pair_ids(d.push(s.last()))[b] by {
                if a == d.len() as int {
                    assert(pair_ids(d)[b] == pair_ids(d.push(s.last()))[b]);
                } else if b == d.len() as int {
                    assert(pair_ids(d)[a] == pair_ids(d.push(s.last()))[a]);
                }
            }
        }
        assert forall|m: int| 0 <= m < first_pairs(s).len() implies s.contains(#[trigger] first_pairs(s)[m]) by {
            if m < d.len() {
                assert(first_pairs(s)[m] == d[m]);
                assert(s.drop_last().contains(d[m]));
                let q = choose|q: int| 0 <= q < s.drop_last().len() && s.drop_last()[q] == d[m];
                assert(s[q] == d[m]);
            } else {
                assert(s[s.len() - 1] == first_pairs(s)[m]);
            }
        }
    }
}

proof fn lemma_kinds_for_nonempty(s: Seq<(u32, DepKind)>, q: int)
    requires
        0 <= q < s.len(),
    ensures
        kinds_for(s, s[q].0).len() > 0,
    decreases s.len(),
{
    if q < s.len() - 1 {
        assert(s.drop_last()[q] == s[q]);
        lemma_kinds_for_nonempty(s.drop_last(), q);
    }
}

/// The children of a node, as `children_of` describes them.
pub fn children(index: &Index, id: u32, reverse: bool) -> (r: Vec<(u32, Vec<DepKind>)>)
    requires
        index.wf(),
        id < index@.packages.len(),
    ensures
        r@.map_values(|c: (u32, Vec<DepKind>)| (c.0, c.1@)) == children_of(index@, id, reverse),
        forall|q: int| 0 <= q < r@.len() ==> (#[trigger] r@[q]).0 < index@.packages.len(),
        !reverse ==> forall|q: int| 0 <= q < r@.len() ==> (#[trigger] r@[q]).1@.len() > 0,
{
    let ghost v = index@;
    let ghost n = v.packages.len();
    let p = &index.packages[id as usize];
    assert(p@ == v.packages[id as int]);
    let mut ids: Vec<u32> = Vec::new();
    if reverse {
        let ds = &index.dependents[id as usize];
        assert(ds@ == v.dependents[id as int]);
        let mut m: usize = 0;
        while m < ds.len()
            invariant
                m <= ds@.len(),
                ids@ == ds@.take(m as int),
            decreases ds@.len() - m,
        {
            ids.push(ds[m]);
            assert(ds@.take(m + 1) =~= ds@.take(m as int).push(ds@[m as int]));
            m += 1;
        }
        assert(ds@.take(ds@.len() as int) =~= ds@);
        assert(ids@.no_duplicates()) by {
            assert forall|a: int, b: int| 0 <= a < ids@.len() && 0 <= b < ids@.len() && a != b implies ids@[a] != ids@[b] by {
                if a < b {
                    assert(v.dependents[id as int][a] < v.dependents[id as int][b]);
                } else {
                    assert(v.dependents[id as int][b] < v.dependents[id as int][a]);
                }
            }
        }
    } else {
        let d = p.deps();
        let mut m: usize = 0;
        while m < d.len()
            invariant
                m <= d@.len(),
                ids@ == pair_ids(d@.take(m as int)),
            decreases d@.len() - m,
        {
            ids.push(d[m].0);
            assert(pair_ids(d@.take(m + 1)) =~= pair_ids(d@.take(m as int)).push(d@[m as int].0));
            m += 1;
        }
        assert(d@.take(d@.len() as int) =~= d@);
        proof {
            lemma_first_pairs_unique(typed_pairs(p@));
        }
    }
    assert(ids@ == child_ids(v, id, reverse));
    proof {
        lemma_keyed_order(hit_key(v));
    }
    let ghost lt = keyed_order(hit_key(v));
    let less = |a: u32, b: u32| -> (r: bool)
        ensures
            r == keyed_order(hit_key(index@))(a, b),
        { crate::relations::hit_less(index, a, b) };
    let sorted = sort_ids(&ids, &less, Ghost(lt));
    proof {
        crate::order::lemma_sorted_list_of(sorted@, lt);
        assert(sorted@.to_set() =~= ids@.to_set());
        crate::index::lemma_pair_ids(p@);
        lemma_first_pairs_unique(typed_pairs(p@));
    }
    let mut out: Vec<(u32, Vec<DepKind>)> = Vec::new();
    let ghost target = children_of(v, id, reverse);
    let mut i: usize = 0;
    while i < sorted.len()
        invariant
            v == index@,
            index.wf(),
            id < n,
            n == v.packages.len(),
            p@ == v.packages[id as int],
            ids@ == child_ids(v, id, reverse),
            sorted@ == sorted_list(ids@.to_set(), lt),
            sorted@.to_set() == ids@.to_set(),
            lt == keyed_order(hit_key(v)),
            target == children_of(v, id, reverse),
            pair_ids(typed_pairs(p@)) == typed_seq(p@),
            forall|m: int|
                0 <= m < first_pairs(typed_pairs(p@)).len() ==> typed_pairs(p@).contains(
                    #[trigger] first_pairs(typed_pairs(p@))[m],
                ),
            i <= sorted@.len(),
            out@.map_values(|c: (u32, Vec<DepKind>)| (c.0, c.1@)) == target.take(i as int),
            forall|q: int| 0 <= q < out@.len() ==> (#[trigger] out@[q]).0 < n,
            !reverse ==> forall|q: int| 0 <= q < out@.len() ==> (#[trigger] out@[q]).1@.len() > 0,
        decreases sorted@.len() - i,
    {
        let c = sorted[i];
        assert(sorted@.to_set().contains(c));
        assert(ids@.to_set().contains(c));
        let ghost qi = choose|qi: int| 0 <= qi < ids@.len() && ids@[qi] == c;
        let kinds = if reverse {
            assert(c < n);
            let cp = &index.packages[c as usize];
            assert(cp@ == v.packages[c as int]);
            cp.dep_kinds(id)
        } else {
            proof {
                let e = first_pairs(typed_pairs(p@))[qi];
                assert(pair_ids(first_pairs(typed_pairs(p@)))[qi] == e.0);
                assert(typed_pairs(p@).contains(e));
                let q2 = choose|q2: int| 0 <= q2 < typed_pairs(p@).len() && typed_pairs(p@)[q2] == e;
                assert(pair_ids(typed_pairs(p@))[q2] == e.0);
                assert(typed_seq(v.packages[id as int])[q2] == e.0);
                lemma_kinds_for_nonempty(typed_pairs(p@), q2);
            }
            p.dep_kinds(c)
        };
        let ghost kv = kinds@;
        out.push((c, kinds));
        assert(target.take(i + 1) =~= target.take(i as int).push(target[i as int]));
        assert(out@.map_values(|c: (u32, Vec<DepKind>)| (c.0, c.1@)) =~= target.take(i + 1));
        i += 1;
    }
    assert(target.take(sorted@.len() as int) =~= target);
    out
}

/// The budget on expanded descendants below the direct children.
pub open spec fn row_budget(cap: usize) -> nat {
    if cap < ROW_CAP {
        cap as nat
    } else {
        ROW_CAP as nat
    }
}

/// The state of a tree walk: rows so far, expanded descendants materialized,
/// and whether the budget cut the walk short.
pub ghost struct Flat {
    pub rows: Seq<RowView>,
    pub descendants: nat,
    pub limited: bool,
}

/// Ids below `n` are the only ids a walk over an index of `n` packages
/// marks as ancestors.
pub open spec fn ancestors_ok(anc: Set<int>, n: nat) -> bool {
    anc.finite() && anc.subset_of(vstd::set_lib::set_int_range(0, n as int))
}

/// Visit one node of the tree walk: skip it when the descendant budget is
/// spent, otherwise emit its row, and walk its children when it is the
/// root or expanded, unless it repeats an ancestor.
pub open spec fn flat_visit(
    v: IndexView,
    exp: Set<Seq<(u32, NodeKind)>>,
    reverse: bool,
    cap: usize,
    id: u32,
    key: Seq<(u32, NodeKind)>,
    depth: nat,
    kinds: Seq<DepKind>,
    anc: Set<int>,
    st: Flat,
) -> Flat
    decreases v.packages.len() - anc.len(), 0nat,
    when ancestors_ok(anc, v.packages.len()) && id < v.packages.len()
{
    if depth > 1 && st.descendants >= row_budget(cap) {
        Flat { limited: true, ..st }
    } else {
        let st1 = if depth > 1 {
            Flat { descendants: st.descendants + 1, ..st }
        } else {
            st
        };
        let cycle = anc.contains(id as int);
        let row = RowView {
            key,
            id,
            depth: depth as usize,
            kind: key.last().1,
            kinds,
            children_count: children_count_of(v, id, reverse),
            is_section: false,
            transitive_depth: None,
            cycle,
        };
        let st2 = Flat { rows: st1.rows.push(row), ..st1 };
        if !cycle && (depth == 0 || exp.contains(key)) {
            proof {
                vstd::set_lib::lemma_int_range(0, v.packages.len() as int);
                vstd::set_lib::lemma_len_subset(
                    anc.insert(id as int),
                    vstd::set_lib::set_int_range(0, v.packages.len() as int),
                );
            }
            flat_children(
                v,
                exp,
                reverse,
                cap,
                children_of(v, id, reverse),
                0,
                key,
                depth,
                anc.insert(id as int),
                st2,
            )
        } else {
            st2
        }
    }
}

/// Walk the children `kids[i..]` of a node in order.
pub open spec fn flat_children(
    v: IndexView,
    exp: Set<Seq<(u32, NodeKind)>>,
    reverse: bool,
    cap: usize,
    kids: Seq<(u32, Seq<DepKind>)>,
    i: int,
    key: Seq<(u32, NodeKind)>,
    depth: nat,
    anc: Set<int>,
    st: Flat,
) -> Flat
    decreases v.packages.len() - anc.len(), kids.len() - i + 1,
    when ancestors_ok(anc, v.packages.len()) && 0 <= i && (forall|q: int|
        0 <= q < kids.len() ==> (#[trigger] kids[q]).0 < v.packages.len())
{
    if i >= kids.len() {
        st
    } else {
        let c = kids[i];
        let ck = key.push(
            (
                c.0,
                if reverse {
                    NodeKind::RevDirect
                } else {
                    node_kind_of(c.1[0])
                },
            ),
        );
        flat_children(
            v,
            exp,
            reverse,
            cap,
            kids,
            i + 1,
            key,
            depth,
            anc,
            flat_visit(v, exp, reverse, cap, c.0, ck, depth + 1, c.1, anc, st),
        )
    }
}

pub open spec fn keys_view(keys: Seq<NodeKey>) -> Set<Seq<(u32, NodeKind)>> {
    keys.map_values(|k: NodeKey| k@).to_set()
}

/// The rows of a tree rooted at `root`: nothing when the root names no
/// package.
pub open spec fn flatten_of(v: IndexView, root: u32, exp: Set<Seq<(u32, NodeKind)>>, reverse: bool, cap: usize) -> (Seq<RowView>, bool) {
    if root >= v.packages.len() {
        (Seq::empty(), false)
    } else {
        let kind = if reverse {
            NodeKind::RevDirect
        } else {
            NodeKind::Input
        };
        let f = flat_visit(
            v,
            exp,
            reverse,
            cap,
            root,
            seq![(root, kind)],
            0,
            Seq::empty(),
            Set::empty(),
            Flat { rows: Seq::empty(), descendants: 0, limited: false },
        );
        (f.rows, f.limited)
    }
}

fn keys_equal(a: &[(u32, NodeKind)], b: &[(u32, NodeKind)]) -> (r: bool)
    ensures
        r == (a@ == b@),
{
    if a.len() != b.len() {
        return false;
    }
    let mut i: usize = 0;
    while i < a.len()
        invariant
            a@.len() == b@.len(),
            i <= a@.len(),
            forall|q: int| 0 <= q < i ==> a@[q] == b@[q],
        decreases a@.len() - i,
    {
        if a[i].0 != b[i].0 || a[i].1 != b[i].1 {
            return false;
        }
        i += 1;
    }
    assert(a@ =~= b@);
    true
}

/// Whether a key is among the expanded ones.
pub fn is_expanded(expanded: &Vec<NodeKey>, key: &[(u32, NodeKind)]) -> (r: bool)
    ensures
        r == keys_view(expanded@).contains(key@),
{
    let mut i: usize = 0;
    while i < expanded.len()
        invariant
            i <= expanded@.len(),
            forall|q: int| 0 <= q < i ==> (#[trigger] expanded@[q])@ != key@,
        decreases expanded@.len() - i,
    {
        if keys_equal(expanded[i].as_slice(), key) {
            assert(expanded@.map_values(|k: NodeKey| k@)[i as int] == key@);
            return true;
        }
        i += 1;
    }
    proof {
        if keys_view(expanded@).contains(key@) {
            let ks = expanded@.map_values(|k: NodeKey| k@);
            let q = choose|q: int| 0 <= q < ks.len() && #[trigger] ks[q] == key@;
            assert(expanded@[q]@ == key@);
        }
    }
    false
}

pub open spec fn marks(on_path: Seq<bool>) -> Set<int> {
    Set::new(|x: int| 0 <= x < on_path.len() && on_path[x])
}

pub open spec fn flat_of(rows: Seq<TreeRow>, descendants: usize, limited: bool) -> Flat {
    Flat { rows: rows_view(rows), descendants: descendants as nat, limited }
}

fn copy_key(key: &[(u32, NodeKind)]) -> (r: NodeKey)
    ensures
        r@ == key@,
{
    let mut out: NodeKey = Vec::new();
    let mut i: usize = 0;
    while i < key.len()
        invariant
            i <= key@.len(),
            out@ == key@.take(i as int),
        decreases key@.len() - i,
    {
        out.push(key[i]);
        assert(key@.take(i + 1) =~= key@.take(i as int).push(key@[i as int]));
        i += 1;
    }
    assert(key@.take(key@.len() as int) =~= key@);
    out
}

/// Visit one node of the tree walk, as `flat_visit` describes it.
fn visit(
    index: &Index,
    expanded: &Vec<NodeKey>,
    reverse: bool,
    cap: usize,
    id: u32,
    key: NodeKey,
    depth: usize,
    kinds: Vec<DepKind>,
    on_path: &mut Vec<bool>,
    rows: &mut Vec<TreeRow>,
    descendants: &mut usize,
    limited: &mut bool,
)
    requires
        index.wf(),
        id < index@.packages.len(),
        key@.len() > 0,
        old(on_path)@.len() == index@.packages.len(),
        depth as nat == marks(old(on_path)@).len(),
        *old(descendants) <= ROW_CAP,
    ensures
        final(on_path)@ == old(on_path)@,
        *final(descendants) <= ROW_CAP,
        flat_of(final(rows)@, *final(descendants), *final(limited)) == flat_visit(
            index@,
            keys_view(expanded@),
            reverse,
            cap,
            id,
            key@,
            depth as nat,
            kinds@,
            marks(old(on_path)@),
            flat_of(old(rows)@, *old(descendants), *old(limited)),
        ),
    decreases index@.packages.len() - marks(old(on_path)@).len(), 0nat,
{
    let ghost v = index@;
    let ghost n = v.packages.len();
    let ghost anc = marks(on_path@);
    proof {
        vstd::set_lib::lemma_int_range(0, n as int);
        assert(anc.subset_of(vstd::set_lib::set_int_range(0, n as int)));
        vstd::set_lib::lemma_len_subset(anc, vstd::set_lib::set_int_range(0, n as int));
    }
    let budget = if cap < ROW_CAP {
        cap
    } else {
        ROW_CAP
    };
    if depth > 1 && *descendants >= budget {
        *limited = true;
        return;
    }
    if depth > 1 {
        *descendants = *descendants + 1;
    }
    let cycle = on_path[id as usize];
    let children_count = if reverse {
        index.dependents[id as usize].len()
    } else {
        index.packages[id as usize].dep_count()
    };
    proof {
        if reverse {
            assert(v.dependents[id as int] == index.dependents@[id as int]@);
        } else {
            assert(v.packages[id as int] == index.packages@[id as int]@);
        }
    }
    let kind = key[key.len() - 1].1;
    let open = depth == 0 || is_expanded(expanded, key.as_slice());
    let row = TreeRow {
        key: copy_key(key.as_slice()),
        id,
        depth,
        kind,
        kinds,
        children_count,
        is_section: false,
        transitive_depth: None,
        cycle,
    };
    let ghost before = rows@;
    rows.push(row);
    assert(rows_view(rows@) =~= rows_view(before).push(row@));
    if !cycle && open {
        let ghost entry = on_path@;
        on_path.set(id as usize, true);
        proof {
            assert(marks(on_path@) =~= anc.insert(id as int));
            vstd::set_lib::lemma_len_subset(anc.insert(id as int), vstd::set_lib::set_int_range(0, n as int));
        }
        let kids = children(index, id, reverse);
        let ghost kv = kids@.map_values(|c: (u32, Vec<DepKind>)| (c.0, c.1@));
        let ghost st2 = flat_of(rows@, *descendants, *limited);
        let mut i: usize = 0;
        while i < kids.len()
            invariant
                v == index@,
                index.wf(),
                n == v.packages.len(),
                depth as nat == anc.len(),
                anc.len() + 1 <= n,
                id < n,
                on_path@.len() == n,
                entry == old(on_path)@,
                anc == marks(old(on_path)@),
                !entry[id as int],
                on_path@ == entry.update(id as int, true),
                marks(on_path@) == anc.insert(id as int),
                ancestors_ok(anc.insert(id as int), n),
                anc.insert(id as int).len() == anc.len() + 1,
                kv == kids@.map_values(|c: (u32, Vec<DepKind>)| (c.0, c.1@)),
                kv == children_of(v, id, reverse),
                forall|q: int| 0 <= q < kids@.len() ==> (#[trigger] kids@[q]).0 < n,
                !reverse ==> forall|q: int| 0 <= q < kids@.len() ==> (#[trigger] kids@[q]).1@.len() > 0,
                i <= kids@.len(),
                *descendants <= ROW_CAP,
                flat_children(v, keys_view(expanded@), reverse, cap, kv, 0, key@, depth as nat, anc.insert(id as int), st2)
                    == flat_children(v, keys_view(expanded@), reverse, cap, kv, i as int, key@, depth as nat, anc.insert(id as int), flat_of(rows@, *descendants, *limited)),
            decreases kids@.len() - i,
        {
            let c = kids[i].0;
            let ck_kind = if reverse {
                NodeKind::RevDirect
            } else {
                node_kind(kids[i].1[0])
            };
            let mut ck = copy_key(key.as_slice());
            ck.push((c, ck_kind));
            let ck_kinds = kids[i].1.clone();
            assert(ck_kinds@ == kids@[i as int].1@) by {
                assert(ck_kinds@ =~= kids@[i as int].1@);
            }
            assert(kv[i as int] == (c, kids@[i as int].1@));
            visit(index, expanded, reverse, cap, c, ck, depth + 1, ck_kinds, on_path, rows, descendants, limited);
            i += 1;
        }
        on_path.set(id as usize, false);
        assert(on_path@ =~= old(on_path)@);
    }
}

/// Flatten the tree rooted at `root`, as `flatten_of` describes it.
fn flatten(index: &Index, root: u32, expanded: &Vec<NodeKey>, reverse: bool, cap: usize) -> (r: TreeRows)
    requires
        index.wf(),
    ensures
        (rows_view(r.rows@), r.materialization_limited) == flatten_of(
            index@,
            root,
            keys_view(expanded@),
            reverse,
            cap,
        ),
{
    let n = index.packages.len();
    if root as usize >= n {
        let r = TreeRows { rows: Vec::new(), materialization_limited: false };
        assert(rows_view(r.rows@) =~= Seq::<RowView>::empty());
        return r;
    }
    let mut on_path: Vec<bool> = Vec::new();
    let mut k: usize = 0;
    while k < n
        invariant
            k <= n,
            on_path@.len() == k,
            forall|q: int| 0 <= q < k ==> !(#[trigger] on_path@[q]),
        decreases n - k,
    {
        on_path.push(false);
        k += 1;
    }
    assert(marks(on_path@) =~= Set::<int>::empty());
    let kind = if reverse {
        NodeKind::RevDirect
    } else {
        NodeKind::Input
    };
    let mut key: NodeKey = Vec::new();
    key.push((root, kind));
    assert(key@ =~= seq![(root, kind)]);
    let mut rows: Vec<TreeRow> = Vec::new();
    let mut descendants: usize = 0;
    let mut limited = false;
    assert(rows_view(rows@) =~= Seq::<RowView>::empty());
    visit(
        index,
        expanded,
        reverse,
        cap,
        root,
        key,
        0,
        Vec::new(),
        &mut on_path,
        &mut rows,
        &mut descendants,
        &mut limited,
    );
    TreeRows { rows, materialization_limited: limited }
}

pub open spec fn relations_view(o: Option<RelationSet>) -> Option<RelationSetView> {
    match o {
        Some(s) => Some(s@),
        None => None,
    }
}

/// The row a closure hit is shown as: one level below the root, keyed by
/// the root and the hit.
pub open spec fn hit_row(v: IndexView, root: u32, h: HitView, reverse: bool) -> RowView {
    let kind = if reverse {
        NodeKind::RevTrans
    } else {
        node_kind_of(h.kinds[0])
    };
    RowView {
        key: seq![(root, kind), (h.id, kind)],
        id: h.id,
        depth: 1,
        kind,
        kinds: h.kinds,
        children_count: children_count_of(v, h.id, reverse),
        is_section: false,
        transitive_depth: Some(h.depth),
        cycle: false,
    }
}

/// The rows of the hits at the `visible` positions, skipping positions
/// past the end.
pub open spec fn visible_rows(v: IndexView, s: RelationSetView, visible: Seq<usize>, reverse: bool) -> Seq<RowView>
    decreases visible.len(),
{
    if visible.len() == 0 {
        Seq::empty()
    } else {
        let rest = visible_rows(v, s, visible.drop_last(), reverse);
        let i = visible.last();
        if i < s.hits.len() {
            rest.push(hit_row(v, s.root, s.hits[i as int], reverse))
        } else {
            rest
        }
    }
}

/// The filtered rows: none without a closure.
pub open spec fn filtered_of(v: IndexView, set: Option<RelationSetView>, visible: Seq<usize>, reverse: bool) -> Seq<RowView> {
    match set {
        Some(s) => visible_rows(v, s, visible, reverse),
        None => Seq::empty(),
    }
}

/// The visible hits name packages of the index, and on a dependency tree
/// carry at least one kind.
pub open spec fn visible_ok(n: nat, set: Option<RelationSetView>, visible: Seq<usize>, reverse: bool) -> bool {
    match set {
        Some(s) => forall|j: int|
            #![trigger visible[j]]
            0 <= j < visible.len() && visible[j] < s.hits.len() ==> s.hits[visible[j] as int].id < n
                && (!reverse ==> s.hits[visible[j] as int].kinds.len() > 0),
        None => true,
    }
}

fn hit_tree_row(index: &Index, root: u32, hit: &RelationHit, reverse: bool) -> (r: TreeRow)
    requires
        index.wf(),
        hit.id < index@.packages.len(),
        !reverse ==> hit.kinds@.len() > 0,
    ensures
        r@ == hit_row(index@, root, hit@, reverse),
{
    let kind = if reverse {
        NodeKind::RevTrans
    } else {
        node_kind(hit.kinds[0])
    };
    let children_count = if reverse {
        index.dependents[hit.id as usize].len()
    } else {
        index.packages[hit.id as usize].dep_count()
    };
    proof {
        if reverse {
            assert(index@.dependents[hit.id as int] == index.dependents@[hit.id as int]@);
        } else {
            assert(index@.packages[hit.id as int] == index.packages@[hit.id as int]@);
        }
    }
    let mut key: NodeKey = Vec::new();
    key.push((root, kind));
    key.push((hit.id, kind));
    assert(key@ =~= seq![(root, kind), (hit.id, kind)]);
    let kinds = hit.kinds.clone();
    assert(kinds@ =~= hit.kinds@);
    TreeRow {
        key,
        id: hit.id,
        depth: 1,
        kind,
        kinds,
        children_count,
        is_section: false,
        transitive_depth: Some(hit.depth),
        cycle: false,
    }
}

/// The rows of the closure hits that pass the filter.
fn filtered_rows(index: &Index, set: &Option<RelationSet>, visible: &Vec<usize>, reverse: bool) -> (r: TreeRows)
    requires
        index.wf(),
        visible_ok(index@.packages.len(), relations_view(*set), visible@, reverse),
    ensures
        rows_view(r.rows@) == filtered_of(index@, relations_view(*set), visible@, reverse),
        !r.materialization_limited,
{
    match set {
        None => {
            let r = TreeRows { rows: Vec::new(), materialization_limited: false };
            assert(rows_view(r.rows@) =~= Seq::<RowView>::empty());
            r
        },
        Some(s) => {
            let ghost sv = s@;
            let mut rows: Vec<TreeRow> = Vec::new();
            let mut j: usize = 0;
            while j < visible.len()
                invariant
                    index.wf(),
                    sv == s@,
                    visible_ok(index@.packages.len(), Some(sv), visible@, reverse),
                    j <= visible@.len(),
                    rows_view(rows@) == visible_rows(index@, sv, visible@.take(j as int), reverse),
                decreases visible@.len() - j,
            {
                let i = visible[j];
                assert(visible@.take(j + 1).drop_last() =~= visible@.take(j as int));
                assert(visible@.take(j + 1).last() == i);
                if i < s.hits.len() {
                    assert(sv.hits[i as int] == s.hits@[i as int]@);
                    let row = hit_tree_row(index, s.key.root, &s.hits[i], reverse);
                    let ghost before = rows@;
                    rows.push(row);
                    assert(rows_view(rows@) =~= rows_view(before).push(row@));
                }
                j += 1;
            }
            assert(visible@.take(visible@.len() as int) =~= visible@);
            TreeRows { rows, materialization_limited: false }
        },
    }
}

/// The rows of the dependency tab: the filtered closure while a query is
/// set, the expandable tree otherwise.
pub open spec fn dep_rows_of(
    v: IndexView,
    query: Seq<char>,
    relations: Option<RelationSetView>,
    visible: Seq<usize>,
    exp: Set<Seq<(u32, NodeKind)>>,
    root: u32,
    cap: usize,
) -> (Seq<RowView>, bool) {
    if !is_blank(query) {
        (filtered_of(v, relations, visible, false), false)
    } else {
        flatten_of(v, root, exp, false, cap)
    }
}

/// Flatten an expanded tree, or use the complete filtered closure.
pub fn dep_rows(index: &Index, state: &TreeState, root: u32, cap: usize) -> (r: TreeRows)
    requires
        index.wf(),
        !is_blank(state.query@) ==> visible_ok(
            index@.packages.len(),
            relations_view(state.relations),
            state.visible@,
            false,
        ),
    ensures
        (rows_view(r.rows@), r.materialization_limited) == dep_rows_of(
            index@,
            state.query@,
            relations_view(state.relations),
            state.visible@,
            keys_view(state.expanded@),
            root,
            cap,
        ),
{
    if !blank(state.query.as_str()) {
        return filtered_rows(index, &state.relations, &state.visible, false);
    }
    flatten(index, root, &state.expanded, false, cap)
}

/// The closure hits two or more links away from the root.
pub open spec fn deep_hits(hits: Seq<HitView>) -> Seq<HitView>
    decreases hits.len(),
{
    if hits.len() == 0 {
        Seq::empty()
    } else {
        let rest = deep_hits(hits.drop_last());
        if hits.last().depth >= 2 {
            rest.push(hits.last())
        } else {
            rest
        }
    }
}

/// The header row of the "Transitive" section.
pub open spec fn section_row(count: nat) -> RowView {
    RowView {
        key: seq![(TRANS_SECTION, NodeKind::RevTrans)],
        id: TRANS_SECTION,
        depth: 0,
        kind: NodeKind::RevTrans,
        kinds: Seq::empty(),
        children_count: count as usize,
        is_section: true,
        transitive_depth: None,
        cycle: false,
    }
}

/// The rows of the reverse tab: the filtered closure while a query is set;
/// otherwise the expandable tree of direct dependents, the "Transitive"
/// header counting the dependents two or more links away, and those
/// dependents when the section is open.
pub open spec fn rev_rows_of(
    v: IndexView,
    query: Seq<char>,
    relations: Option<RelationSetView>,
    visible: Seq<usize>,
    exp: Set<Seq<(u32, NodeKind)>>,
    trans_open: bool,
    root: u32,
    cap: usize,
) -> (Seq<RowView>, bool) {
    if !is_blank(query) {
        (filtered_of(v, relations, visible, true), false)
    } else if root >= v.packages.len() {
        flatten_of(v, root, exp, true, cap)
    } else {
        let tree = flatten_of(v, root, exp, true, cap);
        let deep = match relations {
            Some(s) => deep_hits(s.hits),
            None => Seq::empty(),
        };
        let shown = if trans_open {
            deep.map_values(|h: HitView| hit_row(v, root, h, true))
        } else {
            Seq::empty()
        };
        (tree.0.push(section_row(deep.len())) + shown, tree.1)
    }
}

/// The deep hits of an open section name packages of the index.
pub open spec fn deep_ok(n: nat, relations: Option<RelationSetView>) -> bool {
    match relations {
        Some(s) => forall|j: int|
            0 <= j < s.hits.len() && (#[trigger] s.hits[j]).depth >= 2 ==> s.hits[j].id < n,
        None => true,
    }
}

proof fn lemma_deep_hits(hits: Seq<HitView>)
    ensures
        deep_hits(hits).len() <= hits.len(),
        forall|m: int|
            0 <= m < deep_hits(hits).len() ==> hits.contains(#[trigger] deep_hits(hits)[m])
                && deep_hits(hits)[m].depth >= 2,
    decreases hits.len(),
{
    if hits.len() > 0 {
        lemma_deep_hits(hits.drop_last());
        let r = deep_hits(hits.drop_last());
        assert forall|m: int| 0 <= m < deep_hits(hits).len() implies hits.contains(
            #[trigger] deep_hits(hits)[m],
        ) && deep_hits(hits)[m].depth >= 2 by {
            if m < r.len() {
                assert(deep_hits(hits)[m] == r[m]);
                assert(hits.drop_last().contains(r[m]));
                let q = choose|q: int| 0 <= q < hits.drop_last().len() && hits.drop_last()[q] == r[m];
                assert(hits[q] == r[m]);
            } else {
                assert(hits[hits.len() - 1] == deep_hits(hits)[m]);
            }
        }
    }
}

/// The rows of the reverse dependencies tab, as `rev_rows_of` describes
/// them.
pub fn rev_rows(index: &Index, state: &RevState, root: u32, cap: usize) -> (r: TreeRows)
    requires
        index.wf(),
        !is_blank(state.query@) ==> visible_ok(
            index@.packages.len(),
            relations_view(state.relations),
            state.visible@,
            true,
        ),
        is_blank(state.query@) && state.trans_open ==> deep_ok(
            index@.packages.len(),
            relations_view(state.relations),
        ),
    ensures
        (rows_view(r.rows@), r.materialization_limited) == rev_rows_of(
            index@,
            state.query@,
            relations_view(state.relations),
            state.visible@,
            keys_view(state.expanded@),
            state.trans_open,
            root,
            cap,
        ),
{
    if !blank(state.query.as_str()) {
        return filtered_rows(index, &state.relations, &state.visible, true);
    }
    let mut out = flatten(index, root, &state.expanded, true, cap);
    if root as usize >= index.packages.len() {
        return out;
    }
    let ghost v = index@;
    let ghost tree = rows_view(out.rows@);
    let ghost lim = out.materialization_limited;
    let mut deep: Vec<&RelationHit> = Vec::new();
    let ghost mut hv: Seq<HitView> = Seq::empty();
    match &state.relations {
        Some(s) => {
            let mut j: usize = 0;
            while j < s.hits.len()
                invariant
                    j <= s.hits@.len(),
                    deep@.map_values(|h: &RelationHit| h@) == deep_hits(
                        s@.hits.take(j as int),
                    ),
                    forall|m: int| 0 <= m < deep@.len() ==> s.hits@.contains(*#[trigger] deep@[m]),
                    forall|m: int| 0 <= m < deep@.len() ==> (#[trigger] deep@[m]).depth >= 2,
                decreases s.hits@.len() - j,
            {
                assert(s@.hits.take(j + 1).drop_last() =~= s@.hits.take(j as int));
                assert(s@.hits.take(j + 1).last() == s.hits@[j as int]@);
                let h = &s.hits[j];
                if h.depth >= 2 {
                    let ghost before = deep@;
                    deep.push(h);
                    assert(deep@.map_values(|h: &RelationHit| h@) =~= before.map_values(
                        |h: &RelationHit| h@,
                    ).push(h@));
                    assert forall|m: int| 0 <= m < deep@.len() implies s.hits@.contains(
                        *#[trigger] deep@[m],
                    ) by {
                        if m == deep@.len() - 1 {
                            assert(s.hits@[j as int] == *deep@[m]);
                        } else {
                            assert(deep@[m] == before[m]);
                        }
                    }
                }
                j += 1;
            }
            assert(s@.hits.take(s@.hits.len() as int) =~= s@.hits);
            proof {
                if state.trans_open {
                    assert forall|q: int| 0 <= q < deep@.len() implies (#[trigger] deep@[q]).id
                        < v.packages.len() by {
                        assert(s.hits@.contains(*deep@[q]));
                        let j = choose|j: int| 0 <= j < s.hits@.len() && s.hits@[j] == *deep@[q];
                        assert(s@.hits[j] == s.hits@[j]@);
                    }
                }
            }
        },
        None => {
            assert(deep@.map_values(|h: &RelationHit| h@) =~= Seq::<HitView>::empty());
        },
    }
    let ghost dv = deep@.map_values(|h: &RelationHit| h@);
    let section = TreeRow {
        key: vec![(TRANS_SECTION, NodeKind::RevTrans)],
        id: TRANS_SECTION,
        depth: 0,
        kind: NodeKind::RevTrans,
        kinds: Vec::new(),
        children_count: deep.len(),
        is_section: true,
        transitive_depth: None,
        cycle: false,
    };
    assert(section@.key =~= seq![(TRANS_SECTION, NodeKind::RevTrans)]);
    assert(section@.kinds =~= Seq::<DepKind>::empty());
    assert(section@ == section_row(dv.len()));
    out.rows.push(section);
    assert(rows_view(out.rows@) =~= tree.push(section_row(dv.len())));
    if state.trans_open {
        let ghost base = rows_view(out.rows@);
        let mut m: usize = 0;
        while m < deep.len()
            invariant
                index.wf(),
                v == index@,
                m <= deep@.len(),
                dv == deep@.map_values(|h: &RelationHit| h@),
                forall|q: int| 0 <= q < deep@.len() ==> (#[trigger] deep@[q]).id < v.packages.len(),
                root < v.packages.len(),
                out.materialization_limited == lim,
                rows_view(out.rows@) == base + dv.take(m as int).map_values(
                    |h: HitView| hit_row(v, root, h, true),
                ),
            decreases deep@.len() - m,
        {
            let row = hit_tree_row(index, root, deep[m], true);
            let ghost before = rows_view(out.rows@);
            out.rows.push(row);
            assert(rows_view(out.rows@) =~= before.push(row@));
            assert(dv.take(m + 1).map_values(|h: HitView| hit_row(v, root, h, true)) =~= dv.take(
                m as int,
            ).map_values(|h: HitView| hit_row(v, root, h, true)).push(hit_row(v, root, dv[m as int], true)));
            m += 1;
        }
        assert(dv.take(deep@.len() as int) =~= dv);
    } else {
        assert(rows_view(out.rows@) =~= tree.push(section_row(dv.len())) + Seq::<RowView>::empty());
    }
    proof {
        let want = match relations_view(state.relations) {
            Some(s) => deep_hits(s.hits),
            None => Seq::empty(),
        };
        assert(dv == want);
        assert(tree == flatten_of(v, root, keys_view(state.expanded@), true, cap).0);
        let shown = if state.trans_open {
            want.map_values(|h: HitView| hit_row(v, root, h, true))
        } else {
            Seq::empty()
        };
        assert(rows_view(out.rows@) == tree.push(section_row(want.len())) + shown);
        assert(out.materialization_limited == flatten_of(v, root, keys_view(state.expanded@), true, cap).1);
    }
    out
}

/// The expanded keys after toggling one: collapsed when it was expanded,
/// expanded otherwise.
pub open spec fn toggled(keys: Set<Seq<(u32, NodeKind)>>, key: Seq<(u32, NodeKind)>) -> Set<Seq<(u32, NodeKind)>> {
    if keys.contains(key) {
        keys.remove(key)
    } else {
        keys.insert(key)
    }
}

/// Expand a collapsed node, or collapse an expanded one.
pub fn toggle_key(expanded: &mut Vec<NodeKey>, key: &[(u32, NodeKind)])
    ensures
        keys_view(final(expanded)@) == toggled(keys_view(old(expanded)@), key@),
{
    let ghost k0 = keys_view(expanded@);
    if is_expanded(expanded, key) {
        let mut kept: Vec<NodeKey> = Vec::new();
        let mut i: usize = 0;
        while i < expanded.len()
            invariant
                k0 == keys_view(expanded@),
                i <= expanded@.len(),
                keys_view(kept@) == keys_view(expanded@.take(i as int)).remove(key@),
            decreases expanded@.len() - i,
        {
            let ghost before = kept@;
            proof {
                assert(expanded@.take(i + 1) =~= expanded@.take(i as int).push(expanded@[i as int]));
                assert(keys_view(expanded@.take(i + 1)) =~= keys_view(expanded@.take(i as int)).insert(
                    expanded@[i as int]@,
                )) by {
                    assert(expanded@.take(i + 1).map_values(|k: NodeKey| k@) =~= expanded@.take(
                        i as int,
                    ).map_values(|k: NodeKey| k@).push(expanded@[i as int]@));
                    expanded@.take(i as int).map_values(|k: NodeKey| k@).lemma_push_to_set_commute(
                        expanded@[i as int]@,
                    );
                }
            }
            if !keys_equal(expanded[i].as_slice(), key) {
                let k = copy_key(expanded[i].as_slice());
                kept.push(k);
                proof {
                    assert(kept@.map_values(|k: NodeKey| k@) =~= before.map_values(|k: NodeKey| k@).push(
                        expanded@[i as int]@,
                    ));
                    before.map_values(|k: NodeKey| k@).lemma_push_to_set_commute(expanded@[i as int]@);
                    assert(keys_view(kept@) =~= keys_view(expanded@.take(i + 1)).remove(key@));
                }
            } else {
                assert(keys_view(kept@) =~= keys_view(expanded@.take(i + 1)).remove(key@));
            }
            i += 1;
        }
        assert(expanded@.take(expanded@.len() as int) =~= expanded@);
        *expanded = kept;
    } else {
        let ghost before = expanded@;
        expanded.push(copy_key(key));
        proof {
            assert(expanded@.map_values(|k: NodeKey| k@) =~= before.map_values(|k: NodeKey| k@).push(key@));
            before.map_values(|k: NodeKey| k@).lemma_push_to_set_commute(key@);
        }
    }
}

/// Toggling a node twice restores the expanded nodes.
pub proof fn law_toggle_twice(keys: Set<Seq<(u32, NodeKind)>>, key: Seq<(u32, NodeKind)>)
    ensures
        toggled(toggled(keys, key), key) == keys,
{
    if keys.contains(key) {
        assert(toggled(toggled(keys, key), key) =~= keys);
    } else {
        assert(toggled(toggled(keys, key), key) =~= keys);
    }
}

/// The first row shown: the previous one, pulled back so the list does not
/// end early and moved just enough to show the cursor row.
pub open spec fn scrolled(scroll: usize, cursor: usize, len: usize, viewport: usize) -> int {
    let max_scroll: int = if len > viewport {
        len - viewport
    } else {
        0
    };
    let s1: int = if scroll < max_scroll {
        scroll as int
    } else {
        max_scroll
    };
    let s2: int = if cursor < s1 {
        cursor as int
    } else {
        s1
    };
    if cursor >= s2 + viewport {
        cursor + 1 - viewport
    } else {
        s2
    }
}

/// Scroll a list of `len` rows, `viewport` of them visible, so that the
/// cursor row shows.
pub fn scroll_into_view(scroll: usize, cursor: usize, len: usize, viewport: usize) -> (r: usize)
    requires
        viewport > 0,
    ensures
        r == scrolled(scroll, cursor, len, viewport),
        r <= cursor < r + viewport,
{
    let max_scroll = len.saturating_sub(viewport);
    let mut s = if scroll < max_scroll {
        scroll
    } else {
        max_scroll
    };
    if cursor < s {
        s = cursor;
    }
    if cursor - s >= viewport {
        s = cursor - viewport + 1;
    }
    s
}


/// The ids of the rows at depth zero or one, in order.
pub open spec fn shallow_ids(rows: Seq<RowView>) -> Seq<u32>
    decreases rows.len(),
{
    if rows.len() == 0 {
        Seq::empty()
    } else {
        let s = shallow_ids(rows.drop_last());
        if rows.last().depth <= 1 {
            s.push(rows.last().id)
        } else {
            s
        }
    }
}

proof fn lemma_shallow_append(a: Seq<RowView>, b: Seq<RowView>)
    ensures
        shallow_ids(a + b) == shallow_ids(a) + shallow_ids(b),
    decreases b.len(),
{
    if b.len() == 0 {
        assert(a + b =~= a);
    } else {
        lemma_shallow_append(a, b.drop_last());
        assert((a + b).drop_last() =~= a + b.drop_last());
        assert((a + b).last() == b.last());
    }
}

proof fn lemma_shallow_deep(b: Seq<RowView>)
    requires
        forall|q: int| 0 <= q < b.len() ==> (#[trigger] b[q]).depth >= 2,
    ensures
        shallow_ids(b) == Seq::<u32>::empty(),
    decreases b.len(),
{
    if b.len() > 0 {
        lemma_shallow_deep(b.drop_last());
        assert(b.last() == b[b.len() - 1]);
    }
}

/// The children of a node stay inside the index.
proof fn lemma_children_in_range(v: IndexView, id: u32, reverse: bool)
    requires
        index_wf(v),
        id < v.packages.len(),
    ensures
        forall|q: int|
            0 <= q < children_of(v, id, reverse).len() ==> (#[trigger] children_of(v, id, reverse)[q]).0
                < v.packages.len(),
        children_of(v, id, reverse).map_values(|c: (u32, Seq<DepKind>)| c.0) == sorted_list(
            child_ids(v, id, reverse).to_set(),
            keyed_order(hit_key(v)),
        ),
{
    let ids = child_ids(v, id, reverse);
    let lt = keyed_order(hit_key(v));
    lemma_keyed_order(hit_key(v));
    crate::order::lemma_sorted_list_exists(ids, lt);
    let sl = sorted_list(ids.to_set(), lt);
    let p = v.packages[id as int];
    lemma_first_pairs_unique(typed_pairs(p));
    crate::index::lemma_pair_ids(p);
    assert forall|m: int| 0 <= m < ids.len() implies (#[trigger] ids[m]) < v.packages.len() by {
        if !reverse {
            let f = first_pairs(typed_pairs(p));
            assert(ids[m] == f[m].0);
            assert(typed_pairs(p).contains(f[m]));
            let k = choose|k: int| 0 <= k < typed_pairs(p).len() && typed_pairs(p)[k] == f[m];
            assert(pair_ids(typed_pairs(p))[k] == typed_pairs(p)[k].0);
            assert(typed_seq(p)[k] < v.packages.len());
        }
    }
    assert forall|q: int| 0 <= q < children_of(v, id, reverse).len() implies (#[trigger] children_of(
        v,
        id,
        reverse,
    )[q]).0 < v.packages.len() by {
        assert(children_of(v, id, reverse)[q].0 == sl[q]);
        assert(sl.to_set().contains(sl[q]));
        let m = choose|m: int| 0 <= m < ids.len() && ids[m] == sl[q];
    }
    assert(children_of(v, id, reverse).map_values(|c: (u32, Seq<DepKind>)| c.0) =~= sl);
}

/// The rows `f` holds after `st`: `st`'s rows first, then rows at least two
/// deep.
pub open spec fn adds_deep(st: Flat, f: Flat) -> bool {
    &&& f.rows.len() >= st.rows.len()
    &&& f.rows.subrange(0, st.rows.len() as int) == st.rows
    &&& forall|q: int| st.rows.len() <= q < f.rows.len() ==> (#[trigger] f.rows[q]).depth >= 2
}

proof fn lemma_adds_deep_trans(a: Flat, b: Flat, c: Flat)
    requires
        adds_deep(a, b),
        adds_deep(b, c),
    ensures
        adds_deep(a, c),
{
    assert(c.rows.subrange(0, a.rows.len() as int) =~= b.rows.subrange(0, a.rows.len() as int)) by {
        assert forall|q: int| 0 <= q < a.rows.len() implies c.rows[q] == b.rows[q] by {
            assert(c.rows.subrange(0, b.rows.len() as int)[q] == c.rows[q]);
        }
    }
    assert forall|q: int| a.rows.len() <= q < c.rows.len() implies (#[trigger] c.rows[q]).depth >= 2 by {
        if q < b.rows.len() {
            assert(c.rows.subrange(0, b.rows.len() as int)[q] == c.rows[q]);
            assert(b.rows[q].depth >= 2);
        }
    }
}

/// A node visited two or more deep adds only rows at least two deep.
proof fn lemma_visit_deep(
    v: IndexView,
    exp: Set<Seq<(u32, NodeKind)>>,
    reverse: bool,
    cap: usize,
    id: u32,
    key: Seq<(u32, NodeKind)>,
    depth: nat,
    kinds: Seq<DepKind>,
    anc: Set<int>,
    st: Flat,
)
    requires
        index_wf(v),
        ancestors_ok(anc, v.packages.len()),
        id < v.packages.len(),
        2 <= depth <= anc.len(),
    ensures
        adds_deep(st, flat_visit(v, exp, reverse, cap, id, key, depth, kinds, anc, st)),
    decreases v.packages.len() - anc.len(), 0nat,
{
    let n = v.packages.len();
    vstd::set_lib::lemma_int_range(0, n as int);
    vstd::set_lib::lemma_len_subset(anc, vstd::set_lib::set_int_range(0, n as int));
    let f = flat_visit(v, exp, reverse, cap, id, key, depth, kinds, anc, st);
    if depth > 1 && st.descendants >= row_budget(cap) {
        assert(f.rows =~= st.rows);
        assert(st.rows.subrange(0, st.rows.len() as int) =~= st.rows);
    } else {
        let st1 = Flat { descendants: st.descendants + 1, ..st };
        let cycle = anc.contains(id as int);
        let st2 = Flat {
            rows: st1.rows.push(
                RowView {
                    key,
                    id,
                    depth: depth as usize,
                    kind: key.last().1,
                    kinds,
                    children_count: children_count_of(v, id, reverse),
                    is_section: false,
                    transitive_depth: None,
                    cycle,
                },
            ),
            ..st1
        };
        assert(adds_deep(st, st2)) by {
            assert(st2.rows.subrange(0, st.rows.len() as int) =~= st.rows);
        }
        if !cycle && (depth == 0 || exp.contains(key)) {
            let anc2 = anc.insert(id as int);
            vstd::set_lib::lemma_len_subset(anc2, vstd::set_lib::set_int_range(0, n as int));
            lemma_children_in_range(v, id, reverse);
            lemma_children_deep(v, exp, reverse, cap, children_of(v, id, reverse), 0, key, depth, anc2, st2);
            lemma_adds_deep_trans(st, st2, f);
        } else {
            assert(f == st2);
        }
    }
}

/// The children of a node at least one deep add only rows at least two
/// deep.
proof fn lemma_children_deep(
    v: IndexView,
    exp: Set<Seq<(u32, NodeKind)>>,
    reverse: bool,
    cap: usize,
    kids: Seq<(u32, Seq<DepKind>)>,
    i: int,
    key: Seq<(u32, NodeKind)>,
    depth: nat,
    anc: Set<int>,
    st: Flat,
)
    requires
        index_wf(v),
        ancestors_ok(anc, v.packages.len()),
        0 <= i,
        forall|q: int| 0 <= q < kids.len() ==> (#[trigger] kids[q]).0 < v.packages.len(),
        1 <= depth,
        depth + 1 <= anc.len(),
    ensures
        adds_deep(st, flat_children(v, exp, reverse, cap, kids, i, key, depth, anc, st)),
    decreases v.packages.len() - anc.len(), kids.len() - i + 1,
{
    if i >= kids.len() {
        assert(st.rows.subrange(0, st.rows.len() as int) =~= st.rows);
    } else {
        let c = kids[i];
        let ck = key.push(
            (
                c.0,
                if reverse {
                    NodeKind::RevDirect
                } else {
                    node_kind_of(c.1[0])
                },
            ),
        );
        let st1 = flat_visit(v, exp, reverse, cap, c.0, ck, depth + 1, c.1, anc, st);
        lemma_visit_deep(v, exp, reverse, cap, c.0, ck, depth + 1, c.1, anc, st);
        lemma_children_deep(v, exp, reverse, cap, kids, i + 1, key, depth, anc, st1);
        lemma_adds_deep_trans(st, st1, flat_children(v, exp, reverse, cap, kids, i + 1, key, depth, anc, st1));
    }
}

/// The children of the root: each adds its own row, one deep, then only
/// deeper rows.
proof fn lemma_top_children(
    v: IndexView,
    exp: Set<Seq<(u32, NodeKind)>>,
    reverse: bool,
    cap: usize,
    kids: Seq<(u32, Seq<DepKind>)>,
    i: int,
    key: Seq<(u32, NodeKind)>,
    anc: Set<int>,
    st: Flat,
)
    requires
        index_wf(v),
        ancestors_ok(anc, v.packages.len()),
        anc.len() == 1,
        0 <= i <= kids.len(),
        forall|q: int| 0 <= q < kids.len() ==> (#[trigger] kids[q]).0 < v.packages.len(),
    ensures
        ({
            let f = flat_children(v, exp, reverse, cap, kids, i, key, 0, anc, st);
            &&& f.rows.len() >= st.rows.len()
            &&& f.rows.subrange(0, st.rows.len() as int) == st.rows
            &&& shallow_ids(f.rows.subrange(st.rows.len() as int, f.rows.len() as int)) == kids.subrange(
                i,
                kids.len() as int,
            ).map_values(|c: (u32, Seq<DepKind>)| c.0)
        }),
    decreases kids.len() - i,
{
    let n = v.packages.len();
    vstd::set_lib::lemma_int_range(0, n as int);
    vstd::set_lib::lemma_len_subset(anc, vstd::set_lib::set_int_range(0, n as int));
    let f = flat_children(v, exp, reverse, cap, kids, i, key, 0, anc, st);
    if i >= kids.len() {
        assert(f == st);
        assert(st.rows.subrange(0, st.rows.len() as int) =~= st.rows);
        assert(f.rows.subrange(st.rows.len() as int, f.rows.len() as int) =~= Seq::<RowView>::empty());
        assert(kids.subrange(i, kids.len() as int).map_values(|c: (u32, Seq<DepKind>)| c.0) =~= Seq::<u32>::empty());
    } else {
        let c = kids[i];
        let ck = key.push(
            (
                c.0,
                if reverse {
                    NodeKind::RevDirect
                } else {
                    node_kind_of(c.1[0])
                },
            ),
        );
        let g = flat_visit(v, exp, reverse, cap, c.0, ck, 1, c.1, anc, st);
        // The child's own row is never cut; what follows it is deeper.
        let cycle = anc.contains(c.0 as int);
        let row = RowView {
            key: ck,
            id: c.0,
            depth: 1,
            kind: ck.last().1,
            kinds: c.1,
            children_count: children_count_of(v, c.0, reverse),
            is_section: false,
            transitive_depth: None,
            cycle,
        };
        let st2 = Flat { rows: st.rows.push(row), ..st };
        if !cycle && exp.contains(ck) {
            let anc2 = anc.insert(c.0 as int);
            vstd::set_lib::lemma_len_subset(anc2, vstd::set_lib::set_int_range(0, n as int));
            lemma_children_in_range(v, c.0, reverse);
            lemma_children_deep(v, exp, reverse, cap, children_of(v, c.0, reverse), 0, ck, 1, anc2, st2);
            assert(g == flat_children(v, exp, reverse, cap, children_of(v, c.0, reverse), 0, ck, 1, anc2, st2));
        } else {
            assert(g == st2);
            assert(st2.rows.subrange(0, st2.rows.len() as int) =~= st2.rows);
        }
        assert(adds_deep(st2, g));
        lemma_top_children(v, exp, reverse, cap, kids, i + 1, key, anc, g);
        assert(f == flat_children(v, exp, reverse, cap, kids, i + 1, key, 0, anc, g));
        let tail_g = g.rows.subrange(st2.rows.len() as int, g.rows.len() as int);
        let tail_f = f.rows.subrange(g.rows.len() as int, f.rows.len() as int);
        assert forall|q: int| 0 <= q < tail_g.len() implies (#[trigger] tail_g[q]).depth >= 2 by {
            assert(tail_g[q] == g.rows[q + st2.rows.len()]);
        }
        lemma_shallow_deep(tail_g);
        assert(g.rows =~= st.rows.push(row) + tail_g) by {
            assert(g.rows.subrange(0, st2.rows.len() as int) == st2.rows);
            assert forall|q: int| 0 <= q < g.rows.len() implies g.rows[q] == (st.rows.push(row) + tail_g)[q] by {
                if q < st2.rows.len() {
                    assert(g.rows.subrange(0, st2.rows.len() as int)[q] == g.rows[q]);
                }
            }
        }
        assert(f.rows =~= g.rows + tail_f) by {
            assert(f.rows.subrange(0, g.rows.len() as int) == g.rows);
            assert forall|q: int| 0 <= q < f.rows.len() implies f.rows[q] == (g.rows + tail_f)[q] by {
                if q < g.rows.len() {
                    assert(f.rows.subrange(0, g.rows.len() as int)[q] == f.rows[q]);
                }
            }
        }
        let tail = f.rows.subrange(st.rows.len() as int, f.rows.len() as int);
        assert(tail =~= seq![row] + tail_g + tail_f);
        lemma_shallow_append(seq![row] + tail_g, tail_f);
        lemma_shallow_append(seq![row], tail_g);
        assert(shallow_ids(seq![row]) =~= seq![c.0]) by {
            assert(seq![row].drop_last() =~= Seq::<RowView>::empty());
            assert(shallow_ids(seq![row].drop_last()) =~= Seq::<u32>::empty());
            assert(seq![row].last() == row);
        }
        assert(f.rows.subrange(0, st.rows.len() as int) =~= st.rows) by {
            assert forall|q: int| 0 <= q < st.rows.len() implies f.rows[q] == st.rows[q] by {
                assert(f.rows[q] == g.rows[q]);
                assert(g.rows[q] == st.rows.push(row)[q]);
            }
        }
        assert(kids.subrange(i, kids.len() as int).map_values(|c: (u32, Seq<DepKind>)| c.0) =~= seq![c.0]
            + kids.subrange(i + 1, kids.len() as int).map_values(|c: (u32, Seq<DepKind>)| c.0));
    }
}

/// The direct rows of a tree are never cut: whatever is expanded and
/// whatever the budget, the rows at depth zero and one are the root and
/// then each of its children, in order by name, version and id.
pub proof fn law_direct_rows_complete(
    v: IndexView,
    root: u32,
    exp: Set<Seq<(u32, NodeKind)>>,
    reverse: bool,
    cap: usize,
)
    requires
        index_wf(v),
        root < v.packages.len(),
    ensures
        shallow_ids(flatten_of(v, root, exp, reverse, cap).0) == seq![root] + sorted_list(
            child_ids(v, root, reverse).to_set(),
            keyed_order(hit_key(v)),
        ),
{
    let n = v.packages.len();
    vstd::set_lib::lemma_int_range(0, n as int);
    let kind = if reverse {
        NodeKind::RevDirect
    } else {
        NodeKind::Input
    };
    let key = seq![(root, kind)];
    let st0 = Flat { rows: Seq::empty(), descendants: 0, limited: false };
    let row = RowView {
        key,
        id: root,
        depth: 0,
        kind: key.last().1,
        kinds: Seq::empty(),
        children_count: children_count_of(v, root, reverse),
        is_section: false,
        transitive_depth: None,
        cycle: false,
    };
    let st2 = Flat { rows: st0.rows.push(row), ..st0 };
    let anc = Set::<int>::empty().insert(root as int);
    assert(anc.len() == 1);
    vstd::set_lib::lemma_len_subset(anc, vstd::set_lib::set_int_range(0, n as int));
    let kids = children_of(v, root, reverse);
    lemma_children_in_range(v, root, reverse);
    lemma_top_children(v, exp, reverse, cap, kids, 0, key, anc, st2);
    let f = flat_children(v, exp, reverse, cap, kids, 0, key, 0, anc, st2);
    assert(flatten_of(v, root, exp, reverse, cap).0 == f.rows);
    let tail = f.rows.subrange(1, f.rows.len() as int);
    assert(f.rows =~= seq![row] + tail) by {
        assert(f.rows.subrange(0, 1) == st2.rows);
    }
    lemma_shallow_append(seq![row], tail);
    assert(shallow_ids(seq![row]) =~= seq![root]) by {
        assert(seq![row].drop_last() =~= Seq::<RowView>::empty());
        assert(shallow_ids(seq![row].drop_last()) =~= Seq::<u32>::empty());
        assert(seq![row].last() == row);
    }
    assert(kids.subrange(0, kids.len() as int) =~= kids);
}

/// On the dependencies tab without a filter, the direct dependencies are
/// always listed in full, below the package itself.
pub proof fn law_direct_dependencies_listed(
    v: IndexView,
    relations: Option<RelationSetView>,
    visible: Seq<usize>,
    exp: Set<Seq<(u32, NodeKind)>>,
    root: u32,
    cap: usize,
)
    requires
        index_wf(v),
        root < v.packages.len(),
    ensures
        shallow_ids(dep_rows_of(v, Seq::empty(), relations, visible, exp, root, cap).0) == seq![root]
            + sorted_list(child_ids(v, root, false).to_set(), keyed_order(hit_key(v))),
{
    law_direct_rows_complete(v, root, exp, false, cap);
}

/// Row `j` is the parent of row `k`: one level up, its key is row `k`'s key
/// without the last step, and no row between them is shallower than row `k`.
pub open spec fn parent_at(rows: Seq<RowView>, j: int, k: int) -> bool {
    &&& 0 <= j < k < rows.len()
    &&& rows[j].depth + 1 == rows[k].depth
    &&& rows[j].key == rows[k].key.drop_last()
    &&& forall|m: int| j < m < k ==> (#[trigger] rows[m]).depth >= rows[k].depth
}

/// Row `k` has a parent row whose package it is a child of.
pub open spec fn has_parent(v: IndexView, reverse: bool, rows: Seq<RowView>, k: int) -> bool {
    exists|j: int| #[trigger] parent_at(rows, j, k) && child_ids(v, rows[j].id, reverse).contains(rows[k].id)
}

/// The rows after `st`'s in `f`: `st`'s rows come first, and each row added
/// names its package last in its key and has a parent row.
spec fn adds_tree(v: IndexView, reverse: bool, st: Flat, f: Flat) -> bool {
    &&& f.rows.len() >= st.rows.len()
    &&& f.rows.subrange(0, st.rows.len() as int) == st.rows
    &&& forall|k: int| st.rows.len() <= k < f.rows.len() ==> (#[trigger] f.rows[k]).key.len() > 0
        && f.rows[k].key.last().0 == f.rows[k].id && has_parent(v, reverse, f.rows, k)
}

/// A parent stays a parent when rows are appended.
proof fn lemma_has_parent_extend(v: IndexView, reverse: bool, b: Seq<RowView>, c: Seq<RowView>, k: int)
    requires
        c.len() >= b.len(),
        c.subrange(0, b.len() as int) == b,
        0 <= k < b.len(),
        has_parent(v, reverse, b, k),
    ensures
        has_parent(v, reverse, c, k),
{
    let j = choose|j: int| #[trigger] parent_at(b, j, k) && child_ids(v, b[j].id, reverse).contains(b[k].id);
    assert(c[j] == b[j] && c[k] == b[k]) by {
        assert(c.subrange(0, b.len() as int)[j] == c[j]);
        assert(c.subrange(0, b.len() as int)[k] == c[k]);
    }
    assert forall|m: int| j < m < k implies (#[trigger] c[m]).depth >= c[k].depth by {
        assert(c.subrange(0, b.len() as int)[m] == c[m]);
        assert(b[m].depth >= b[k].depth);
    }
    assert(parent_at(c, j, k));
}

/// The children of a node are among its child packages.
proof fn lemma_kids_children(v: IndexView, id: u32, reverse: bool)
    requires
        index_wf(v),
        id < v.packages.len(),
    ensures
        forall|q: int|
            0 <= q < children_of(v, id, reverse).len() ==> child_ids(v, id, reverse).contains(
                (#[trigger] children_of(v, id, reverse)[q]).0,
            ),
{
    let kids = children_of(v, id, reverse);
    lemma_children_in_range(v, id, reverse);
    let lt = keyed_order(hit_key(v));
    lemma_keyed_order(hit_key(v));
    crate::order::lemma_sorted_list_exists(child_ids(v, id, reverse), lt);
    let sl = sorted_list(child_ids(v, id, reverse).to_set(), lt);
    assert forall|q: int| 0 <= q < kids.len() implies child_ids(v, id, reverse).contains((#[trigger] kids[q]).0) by {
        assert(kids[q].0 == sl[q]);
        assert(sl.to_set().contains(sl[q]));
    }
}

/// Visiting a node whose parent row is at `pi` (with only rows at least as
/// deep as the node after it) adds a subtree: rows with parents, none
/// shallower than the node.
proof fn lemma_visit_tree(
    v: IndexView,
    exp: Set<Seq<(u32, NodeKind)>>,
    reverse: bool,
    cap: usize,
    id: u32,
    key: Seq<(u32, NodeKind)>,
    depth: nat,
    kinds: Seq<DepKind>,
    anc: Set<int>,
    st: Flat,
    pi: int,
)
    requires
        index_wf(v),
        ancestors_ok(anc, v.packages.len()),
        id < v.packages.len(),
        1 <= depth <= anc.len(),
        key.len() > 0 && key.last().0 == id,
        0 <= pi < st.rows.len(),
        st.rows[pi].depth + 1 == depth,
        st.rows[pi].key == key.drop_last(),
        child_ids(v, st.rows[pi].id, reverse).contains(id),
        forall|m: int| pi < m < st.rows.len() ==> (#[trigger] st.rows[m]).depth >= depth,
    ensures
        ({
            let f = flat_visit(v, exp, reverse, cap, id, key, depth, kinds, anc, st);
            &&& adds_tree(v, reverse, st, f)
            &&& forall|m: int| st.rows.len() <= m < f.rows.len() ==> (#[trigger] f.rows[m]).depth >= depth
        }),
    decreases v.packages.len() - anc.len(), 0nat,
{
    let n = v.packages.len();
    vstd::set_lib::lemma_int_range(0, n as int);
    vstd::set_lib::lemma_len_subset(anc, vstd::set_lib::set_int_range(0, n as int));
    let f = flat_visit(v, exp, reverse, cap, id, key, depth, kinds, anc, st);
    if depth > 1 && st.descendants >= row_budget(cap) {
        assert(f.rows =~= st.rows);
        assert(st.rows.subrange(0, st.rows.len() as int) =~= st.rows);
    } else {
        let st1 = if depth > 1 {
            Flat { descendants: st.descendants + 1, ..st }
        } else {
            st
        };
        let cycle = anc.contains(id as int);
        let row = RowView {
            key,
            id,
            depth: depth as usize,
            kind: key.last().1,
            kinds,
            children_count: children_count_of(v, id, reverse),
            is_section: false,
            transitive_depth: None,
            cycle,
        };
        let st2 = Flat { rows: st1.rows.push(row), ..st1 };
        let k0 = st.rows.len() as int;
        assert(st2.rows[k0] == row);
        assert(st2.rows[pi] == st.rows[pi]);
        assert forall|m: int| pi < m < k0 implies (#[trigger] st2.rows[m]).depth >= st2.rows[k0].depth by {
            assert(st2.rows[m] == st.rows[m]);
        }
        assert(parent_at(st2.rows, pi, k0));
        assert(has_parent(v, reverse, st2.rows, k0));
        assert(adds_tree(v, reverse, st, st2)) by {
            assert(st2.rows.subrange(0, st.rows.len() as int) =~= st.rows);
        }
        if !cycle && (depth == 0 || exp.contains(key)) {
            let anc2 = anc.insert(id as int);
            vstd::set_lib::lemma_len_subset(anc2, vstd::set_lib::set_int_range(0, n as int));
            lemma_children_in_range(v, id, reverse);
            lemma_kids_children(v, id, reverse);
            let kids = children_of(v, id, reverse);
            lemma_children_tree(v, exp, reverse, cap, kids, 0, key, depth, anc2, st2, k0, id);
            let f2 = flat_children(v, exp, reverse, cap, kids, 0, key, depth, anc2, st2);
            assert(f == f2);
            lemma_adds_tree_trans(v, reverse, st, st2, f);
            assert forall|m: int| st.rows.len() <= m < f.rows.len() implies (#[trigger] f.rows[m]).depth >= depth by {
                if m == k0 {
                    assert(f.rows.subrange(0, st2.rows.len() as int)[m] == f.rows[m]);
                }
            }
        } else {
            assert(f == st2);
        }
    }
}

proof fn lemma_adds_tree_trans(v: IndexView, reverse: bool, a: Flat, b: Flat, c: Flat)
    requires
        adds_tree(v, reverse, a, b),
        adds_tree(v, reverse, b, c),
    ensures
        adds_tree(v, reverse, a, c),
{
    assert(c.rows.subrange(0, a.rows.len() as int) =~= b.rows.subrange(0, a.rows.len() as int)) by {
        assert forall|q: int| 0 <= q < a.rows.len() implies c.rows[q] == b.rows[q] by {
            assert(c.rows.subrange(0, b.rows.len() as int)[q] == c.rows[q]);
        }
    }
    assert forall|k: int| a.rows.len() <= k < c.rows.len() implies (#[trigger] c.rows[k]).key.len() > 0
        && c.rows[k].key.last().0 == c.rows[k].id && has_parent(v, reverse, c.rows, k) by {
        if k < b.rows.len() {
            assert(c.rows.subrange(0, b.rows.len() as int)[k] == c.rows[k]);
            assert(has_parent(v, reverse, b.rows, k));
            lemma_has_parent_extend(v, reverse, b.rows, c.rows, k);
        }
    }
}

/// Walking the children of the node whose row is at `pi` adds their
/// subtrees, one after another: rows with parents, each at least one
/// deeper than the node.
proof fn lemma_children_tree(
    v: IndexView,
    exp: Set<Seq<(u32, NodeKind)>>,
    reverse: bool,
    cap: usize,
    kids: Seq<(u32, Seq<DepKind>)>,
    i: int,
    key: Seq<(u32, NodeKind)>,
    depth: nat,
    anc: Set<int>,
    st: Flat,
    pi: int,
    pid: u32,
)
    requires
        index_wf(v),
        ancestors_ok(anc, v.packages.len()),
        0 <= i,
        depth + 1 <= anc.len(),
        forall|q: int| 0 <= q < kids.len() ==> (#[trigger] kids[q]).0 < v.packages.len(),
        forall|q: int| 0 <= q < kids.len() ==> child_ids(v, pid, reverse).contains((#[trigger] kids[q]).0),
        0 <= pi < st.rows.len(),
        st.rows[pi].depth == depth,
        st.rows[pi].key == key,
        st.rows[pi].id == pid,
        forall|m: int| pi < m < st.rows.len() ==> (#[trigger] st.rows[m]).depth >= depth + 1,
    ensures
        ({
            let f = flat_children(v, exp, reverse, cap, kids, i, key, depth, anc, st);
            &&& adds_tree(v, reverse, st, f)
            &&& forall|m: int| st.rows.len() <= m < f.rows.len() ==> (#[trigger] f.rows[m]).depth >= depth + 1
        }),
    decreases v.packages.len() - anc.len(), kids.len() - i + 1,
{
    if i >= kids.len() {
        assert(st.rows.subrange(0, st.rows.len() as int) =~= st.rows);
    } else {
        let c = kids[i];
        let ck = key.push(
            (
                c.0,
                if reverse {
                    NodeKind::RevDirect
                } else {
                    node_kind_of(c.1[0])
                },
            ),
        );
        assert(ck.drop_last() =~= key);
        lemma_visit_tree(v, exp, reverse, cap, c.0, ck, depth + 1, c.1, anc, st, pi);
        let st1 = flat_visit(v, exp, reverse, cap, c.0, ck, depth + 1, c.1, anc, st);
        assert(st1.rows[pi] == st.rows[pi]) by {
            assert(st1.rows.subrange(0, st.rows.len() as int)[pi] == st1.rows[pi]);
        }
        assert forall|m: int| pi < m < st1.rows.len() implies (#[trigger] st1.rows[m]).depth >= depth + 1 by {
            if m < st.rows.len() {
                assert(st1.rows.subrange(0, st.rows.len() as int)[m] == st1.rows[m]);
            }
        }
        lemma_children_tree(v, exp, reverse, cap, kids, i + 1, key, depth, anc, st1, pi, pid);
        let f = flat_children(v, exp, reverse, cap, kids, i + 1, key, depth, anc, st1);
        lemma_adds_tree_trans(v, reverse, st, st1, f);
        assert forall|m: int| st.rows.len() <= m < f.rows.len() implies (#[trigger] f.rows[m]).depth >= depth + 1 by {
            if m < st1.rows.len() {
                assert(f.rows.subrange(0, st1.rows.len() as int)[m] == f.rows[m]);
            }
        }
    }
}

/// Rows with the same parent, from the `lo`-th row on, come in order of
/// name, version and id.
pub open spec fn siblings_ordered(v: IndexView, rows: Seq<RowView>, lo: int) -> bool {
    forall|j: int, k1: int, k2: int|
        lo <= k1 < k2 && #[trigger] parent_at(rows, j, k1) && #[trigger] parent_at(rows, j, k2) ==> keyed_order(
            hit_key(v),
        )(rows[k1].id, rows[k2].id)
}

proof fn lemma_parent_at_extend(b: Seq<RowView>, c: Seq<RowView>, j: int, k: int)
    requires
        c.len() >= b.len(),
        c.subrange(0, b.len() as int) == b,
        0 <= k < b.len(),
    ensures
        parent_at(c, j, k) <==> parent_at(b, j, k),
{
    assert forall|m: int| 0 <= m < b.len() implies c[m] == b[m] by {
        assert(c.subrange(0, b.len() as int)[m] == c[m]);
    }
    if parent_at(c, j, k) {
        assert forall|m: int| j < m < k implies (#[trigger] b[m]).depth >= b[k].depth by {
            assert(c[m].depth >= c[k].depth);
        }
    }
    if parent_at(b, j, k) {
        assert forall|m: int| j < m < k implies (#[trigger] c[m]).depth >= c[k].depth by {
            assert(b[m].depth >= b[k].depth);
        }
    }
}

/// Visiting a node adds, if anything, its own row first and then only
/// deeper rows, with siblings in order.
proof fn lemma_visit_sib(
    v: IndexView,
    exp: Set<Seq<(u32, NodeKind)>>,
    reverse: bool,
    cap: usize,
    id: u32,
    key: Seq<(u32, NodeKind)>,
    depth: nat,
    kinds: Seq<DepKind>,
    anc: Set<int>,
    st: Flat,
    pi: int,
)
    requires
        index_wf(v),
        ancestors_ok(anc, v.packages.len()),
        id < v.packages.len(),
        1 <= depth <= anc.len(),
        key.len() > 0 && key.last().0 == id,
        0 <= pi < st.rows.len(),
        st.rows[pi].depth + 1 == depth,
        st.rows[pi].key == key.drop_last(),
        child_ids(v, st.rows[pi].id, reverse).contains(id),
        forall|m: int| pi < m < st.rows.len() ==> (#[trigger] st.rows[m]).depth >= depth,
    ensures
        ({
            let f = flat_visit(v, exp, reverse, cap, id, key, depth, kinds, anc, st);
            &&& siblings_ordered(v, f.rows, st.rows.len() as int)
            &&& f.rows.len() > st.rows.len() ==> f.rows[st.rows.len() as int].id == id && f.rows[st.rows.len() as int].depth == depth
            &&& forall|m: int| st.rows.len() < m < f.rows.len() ==> (#[trigger] f.rows[m]).depth >= depth + 1
        }),
    decreases v.packages.len() - anc.len(), 0nat,
{
    let n = v.packages.len();
    vstd::set_lib::lemma_int_range(0, n as int);
    vstd::set_lib::lemma_len_subset(anc, vstd::set_lib::set_int_range(0, n as int));
    lemma_visit_tree(v, exp, reverse, cap, id, key, depth, kinds, anc, st, pi);
    let f = flat_visit(v, exp, reverse, cap, id, key, depth, kinds, anc, st);
    if depth > 1 && st.descendants >= row_budget(cap) {
        assert(f.rows =~= st.rows);
    } else {
        let st1 = if depth > 1 {
            Flat { descendants: st.descendants + 1, ..st }
        } else {
            st
        };
        let cycle = anc.contains(id as int);
        let row = RowView {
            key,
            id,
            depth: depth as usize,
            kind: key.last().1,
            kinds,
            children_count: children_count_of(v, id, reverse),
            is_section: false,
            transitive_depth: None,
            cycle,
        };
        let st2 = Flat { rows: st1.rows.push(row), ..st1 };
        let k0 = st.rows.len() as int;
        assert(st2.rows[k0] == row);
        if !cycle && (depth == 0 || exp.contains(key)) {
            let anc2 = anc.insert(id as int);
            vstd::set_lib::lemma_len_subset(anc2, vstd::set_lib::set_int_range(0, n as int));
            lemma_children_in_range(v, id, reverse);
            lemma_kids_children(v, id, reverse);
            lemma_kids_sorted(v, id, reverse);
            let kids = children_of(v, id, reverse);
            assert forall|m: int| k0 < m < st2.rows.len() implies (#[trigger] st2.rows[m]).depth >= depth + 1 by {}
            lemma_children_sib(v, exp, reverse, cap, kids, 0, key, depth, anc2, st2, k0, id);
            lemma_children_tree(v, exp, reverse, cap, kids, 0, key, depth, anc2, st2, k0, id);
            assert(f == flat_children(v, exp, reverse, cap, kids, 0, key, depth, anc2, st2));
            assert(f.rows[k0] == row) by {
                assert(f.rows.subrange(0, st2.rows.len() as int)[k0] == f.rows[k0]);
            }
            assert forall|j: int, k1: int, k2: int|
                k0 <= k1 < k2 && #[trigger] parent_at(f.rows, j, k1) && #[trigger] parent_at(f.rows, j, k2) implies keyed_order(
                hit_key(v),
            )(f.rows[k1].id, f.rows[k2].id) by {
                if k1 == k0 {
                    assert(f.rows[k2].depth >= depth + 1);
                }
            }
        } else {
            assert(f == st2);
            assert forall|j: int, k1: int, k2: int|
                k0 <= k1 < k2 && #[trigger] parent_at(f.rows, j, k1) && #[trigger] parent_at(f.rows, j, k2) implies keyed_order(
                hit_key(v),
            )(f.rows[k1].id, f.rows[k2].id) by {}
        }
    }
}

/// The children of a node come in order of name, version and id.
proof fn lemma_kids_sorted(v: IndexView, id: u32, reverse: bool)
    requires
        index_wf(v),
        id < v.packages.len(),
    ensures
        forall|q1: int, q2: int|
            0 <= q1 < q2 < children_of(v, id, reverse).len() ==> keyed_order(hit_key(v))(
                (#[trigger] children_of(v, id, reverse)[q1]).0,
                (#[trigger] children_of(v, id, reverse)[q2]).0,
            ),
{
    let kids = children_of(v, id, reverse);
    let lt = keyed_order(hit_key(v));
    lemma_keyed_order(hit_key(v));
    crate::order::lemma_sorted_list_exists(child_ids(v, id, reverse), lt);
    let sl = sorted_list(child_ids(v, id, reverse).to_set(), lt);
    assert forall|q1: int, q2: int| 0 <= q1 < q2 < kids.len() implies lt((#[trigger] kids[q1]).0, (#[trigger] kids[q2]).0) by {
        assert(kids[q1].0 == sl[q1] && kids[q2].0 == sl[q2]);
    }
}

/// Walking the children of the node whose row is at `pi`: the first row
/// added is a child's, every row added one level below the node is a
/// child's from the `i`-th on, and siblings come in order.
proof fn lemma_children_sib(
    v: IndexView,
    exp: Set<Seq<(u32, NodeKind)>>,
    reverse: bool,
    cap: usize,
    kids: Seq<(u32, Seq<DepKind>)>,
    i: int,
    key: Seq<(u32, NodeKind)>,
    depth: nat,
    anc: Set<int>,
    st: Flat,
    pi: int,
    pid: u32,
)
    requires
        index_wf(v),
        ancestors_ok(anc, v.packages.len()),
        0 <= i,
        depth + 1 <= anc.len(),
        forall|q: int| 0 <= q < kids.len() ==> (#[trigger] kids[q]).0 < v.packages.len(),
        forall|q: int| 0 <= q < kids.len() ==> child_ids(v, pid, reverse).contains((#[trigger] kids[q]).0),
        forall|q1: int, q2: int|
            0 <= q1 < q2 < kids.len() ==> keyed_order(hit_key(v))((#[trigger] kids[q1]).0, (#[trigger] kids[q2]).0),
        0 <= pi < st.rows.len(),
        st.rows[pi].depth == depth,
        st.rows[pi].key == key,
        st.rows[pi].id == pid,
        forall|m: int| pi < m < st.rows.len() ==> (#[trigger] st.rows[m]).depth >= depth + 1,
    ensures
        ({
            let f = flat_children(v, exp, reverse, cap, kids, i, key, depth, anc, st);
            &&& siblings_ordered(v, f.rows, st.rows.len() as int)
            &&& f.rows.len() > st.rows.len() ==> f.rows[st.rows.len() as int].depth == depth + 1
            &&& forall|m: int|
                st.rows.len() <= m < f.rows.len() && (#[trigger] f.rows[m]).depth == depth + 1 ==> exists|q: int|
                    i <= q < kids.len() && f.rows[m].id == kids[q].0
        }),
    decreases v.packages.len() - anc.len(), kids.len() - i + 1,
{
    lemma_children_tree(v, exp, reverse, cap, kids, i, key, depth, anc, st, pi, pid);
    if i >= kids.len() {
        assert(st.rows.subrange(0, st.rows.len() as int) =~= st.rows);
    } else {
        let c = kids[i];
        let ck = key.push(
            (
                c.0,
                if reverse {
                    NodeKind::RevDirect
                } else {
                    node_kind_of(c.1[0])
                },
            ),
        );
        assert(ck.drop_last() =~= key);
        lemma_visit_sib(v, exp, reverse, cap, c.0, ck, depth + 1, c.1, anc, st, pi);
        lemma_visit_tree(v, exp, reverse, cap, c.0, ck, depth + 1, c.1, anc, st, pi);
        let st1 = flat_visit(v, exp, reverse, cap, c.0, ck, depth + 1, c.1, anc, st);
        assert(st1.rows[pi] == st.rows[pi]) by {
            assert(st1.rows.subrange(0, st.rows.len() as int)[pi] == st1.rows[pi]);
        }
        assert forall|m: int| pi < m < st1.rows.len() implies (#[trigger] st1.rows[m]).depth >= depth + 1 by {
            if m < st.rows.len() {
                assert(st1.rows.subrange(0, st.rows.len() as int)[m] == st1.rows[m]);
            }
        }
        lemma_children_sib(v, exp, reverse, cap, kids, i + 1, key, depth, anc, st1, pi, pid);
        lemma_children_tree(v, exp, reverse, cap, kids, i + 1, key, depth, anc, st1, pi, pid);
        let f = flat_children(v, exp, reverse, cap, kids, i + 1, key, depth, anc, st1);
        let a = st.rows.len() as int;
        let b = st1.rows.len() as int;
        assert forall|m: int| 0 <= m < b implies f.rows[m] == st1.rows[m] by {
            assert(f.rows.subrange(0, b)[m] == f.rows[m]);
        }
        assert forall|m: int| 0 <= m < a implies st1.rows[m] == st.rows[m] by {
            assert(st1.rows.subrange(0, a)[m] == st1.rows[m]);
        }
        // Rows one level below the node come from the children in order.
        assert forall|m: int|
            a <= m < f.rows.len() && (#[trigger] f.rows[m]).depth == depth + 1 implies exists|q: int|
                i <= q < kids.len() && f.rows[m].id == kids[q].0 by {
            if m < b {
                assert(m == a);
                assert(f.rows[m] == st1.rows[m]);
            } else {
                let q = choose|q: int| i + 1 <= q < kids.len() && f.rows[m].id == kids[q].0;
            }
        }
        if f.rows.len() > a {
            if b > a {
                assert(f.rows[a] == st1.rows[a]);
            }
        }
        assert forall|j: int, k1: int, k2: int|
            a <= k1 < k2 && #[trigger] parent_at(f.rows, j, k1) && #[trigger] parent_at(f.rows, j, k2) implies keyed_order(
            hit_key(v),
        )(f.rows[k1].id, f.rows[k2].id) by {
            if k2 < b {
                lemma_parent_at_extend(st1.rows, f.rows, j, k1);
                lemma_parent_at_extend(st1.rows, f.rows, j, k2);
            } else if k1 >= b {
            } else {
                // k1 in the first child's rows, k2 after them.
                assert(f.rows[k1].depth == f.rows[k2].depth);
                if f.rows[k2].depth == depth + 1 {
                    if j < pi {
                        assert(f.rows[pi] == st.rows[pi]);
                    }
                    if j > pi {
                        if j < a {
                            assert(f.rows[j] == st.rows[j]);
                        } else {
                            assert(f.rows[j].depth >= depth + 1);
                        }
                    }
                    assert(k1 == a) by {
                        if k1 > a {
                            assert(f.rows[k1] == st1.rows[k1]);
                        }
                    }
                    assert(f.rows[k1] == st1.rows[a]);
                    let q = choose|q: int| i + 1 <= q < kids.len() && f.rows[k2].id == kids[q].0;
                } else {
                    assert(k2 > b) by {
                        if k2 == b {
                            assert(f.rows[b].depth == depth + 1);
                        }
                    }
                    assert(f.rows[b].depth == depth + 1);
                    assert(j < k1);
                }
            }
        }
    }
}

/// The ids along a key, as integers.
pub open spec fn key_ids(key: Seq<(u32, NodeKind)>) -> Set<int> {
    key.map_values(|x: (u32, NodeKind)| x.0 as int).to_set()
}

/// A row whose children the tree walks: not a cycle, and the root or
/// expanded.
pub open spec fn expandable(exp: Set<Seq<(u32, NodeKind)>>, r: RowView) -> bool {
    !r.cycle && (r.depth == 0 || exp.contains(r.key))
}

/// A row is a cycle exactly when its package occurs earlier in its key.
pub open spec fn cycle_ok(r: RowView) -> bool {
    r.cycle <==> exists|i: int| 0 <= i < r.key.len() - 1 && (#[trigger] r.key[i]).0 == r.id
}

/// Every child of row `j` has a row with `j` as its parent.
pub open spec fn children_listed(v: IndexView, reverse: bool, rows: Seq<RowView>, j: int) -> bool {
    forall|c: u32| #[trigger] child_ids(v, rows[j].id, reverse).contains(c) ==> exists|k: int|
        parent_at(rows, j, k) && rows[k].id == c
}

proof fn lemma_key_ids_push(key: Seq<(u32, NodeKind)>, x: (u32, NodeKind))
    ensures
        key_ids(key.push(x)) == key_ids(key).insert(x.0 as int),
{
    let a = key.push(x).map_values(|y: (u32, NodeKind)| y.0 as int);
    let b = key.map_values(|y: (u32, NodeKind)| y.0 as int);
    assert(a =~= b.push(x.0 as int));
    b.lemma_push_to_set_commute(x.0 as int);
}

proof fn lemma_key_ids_contains(key: Seq<(u32, NodeKind)>, id: u32)
    ensures
        key_ids(key).contains(id as int) <==> exists|i: int| 0 <= i < key.len() && (#[trigger] key[i]).0 == id,
{
    let b = key.map_values(|y: (u32, NodeKind)| y.0 as int);
    if key_ids(key).contains(id as int) {
        let i = choose|i: int| 0 <= i < b.len() && b[i] == id as int;
        assert(key[i].0 == id);
    }
    if exists|i: int| 0 <= i < key.len() && (#[trigger] key[i]).0 == id {
        let i = choose|i: int| 0 <= i < key.len() && (#[trigger] key[i]).0 == id;
        assert(b[i] == id as int);
    }
}

/// Only the row at `pi` can be the parent of a row one deeper than it when
/// every row after it is at least that deep.
proof fn lemma_parent_unique(rows: Seq<RowView>, pi: int, j: int, k: int)
    requires
        0 <= pi < k < rows.len(),
        rows[pi].depth + 1 == rows[k].depth,
        forall|m: int| pi < m < k ==> (#[trigger] rows[m]).depth >= rows[k].depth,
        parent_at(rows, j, k),
    ensures
        j == pi,
{
    if j < pi {
        assert(rows[pi].depth >= rows[k].depth);
    } else if j > pi {
        assert(rows[j].depth >= rows[k].depth);
    }
}

/// The walk flags only ever get set.
proof fn lemma_limited_stays_visit(
    v: IndexView,
    exp: Set<Seq<(u32, NodeKind)>>,
    reverse: bool,
    cap: usize,
    id: u32,
    key: Seq<(u32, NodeKind)>,
    depth: nat,
    kinds: Seq<DepKind>,
    anc: Set<int>,
    st: Flat,
)
    requires
        index_wf(v),
        ancestors_ok(anc, v.packages.len()),
        id < v.packages.len(),
    ensures
        st.limited ==> flat_visit(v, exp, reverse, cap, id, key, depth, kinds, anc, st).limited,
    decreases v.packages.len() - anc.len(), 0nat,
{
    let n = v.packages.len();
    vstd::set_lib::lemma_int_range(0, n as int);
    vstd::set_lib::lemma_len_subset(anc, vstd::set_lib::set_int_range(0, n as int));
    if !(depth > 1 && st.descendants >= row_budget(cap)) {
        let cycle = anc.contains(id as int);
        let key2 = key;
        if !cycle && (depth == 0 || exp.contains(key)) {
            let anc2 = anc.insert(id as int);
            vstd::set_lib::lemma_len_subset(anc2, vstd::set_lib::set_int_range(0, n as int));
            lemma_children_in_range(v, id, reverse);
            let st1 = if depth > 1 {
                Flat { descendants: st.descendants + 1, ..st }
            } else {
                st
            };
            let row = RowView {
                key,
                id,
                depth: depth as usize,
                kind: key.last().1,
                kinds,
                children_count: children_count_of(v, id, reverse),
                is_section: false,
                transitive_depth: None,
                cycle,
            };
            let st2 = Flat { rows: st1.rows.push(row), ..st1 };
            lemma_limited_stays_children(v, exp, reverse, cap, children_of(v, id, reverse), 0, key, depth, anc2, st2);
        }
    }
}

proof fn lemma_limited_stays_children(
    v: IndexView,
    exp: Set<Seq<(u32, NodeKind)>>,
    reverse: bool,
    cap: usize,
    kids: Seq<(u32, Seq<DepKind>)>,
    i: int,
    key: Seq<(u32, NodeKind)>,
    depth: nat,
    anc: Set<int>,
    st: Flat,
)
    requires
        index_wf(v),
        ancestors_ok(anc, v.packages.len()),
        0 <= i,
        forall|q: int| 0 <= q < kids.len() ==> (#[trigger] kids[q]).0 < v.packages.len(),
    ensures
        st.limited ==> flat_children(v, exp, reverse, cap, kids, i, key, depth, anc, st).limited,
    decreases v.packages.len() - anc.len(), kids.len() - i + 1,
{
    if i < kids.len() {
        let c = kids[i];
        let ck = key.push(
            (
                c.0,
                if reverse {
                    NodeKind::RevDirect
                } else {
                    node_kind_of(c.1[0])
                },
            ),
        );
        lemma_limited_stays_visit(v, exp, reverse, cap, c.0, ck, depth + 1, c.1, anc, st);
        let st1 = flat_visit(v, exp, reverse, cap, c.0, ck, depth + 1, c.1, anc, st);
        lemma_limited_stays_children(v, exp, reverse, cap, kids, i + 1, key, depth, anc, st1);
    }
}

/// Visiting a node: each row added is a cycle exactly when its package is
/// earlier in its key, only expandable rows are parents, and, unless the
/// budget cut the walk, the node's own row is added below its parent and
/// every expandable row added lists all its children.
#[verifier::spinoff_prover]
#[verifier::rlimit(100)]
proof fn lemma_visit_flags(
    v: IndexView,
    exp: Set<Seq<(u32, NodeKind)>>,
    reverse: bool,
    cap: usize,
    id: u32,
    key: Seq<(u32, NodeKind)>,
    depth: nat,
    kinds: Seq<DepKind>,
    anc: Set<int>,
    st: Flat,
    pi: int,
)
    requires
        index_wf(v),
        ancestors_ok(anc, v.packages.len()),
        id < v.packages.len(),
        1 <= depth <= anc.len(),
        key.len() > 0 && key.last().0 == id,
        anc == key_ids(key.drop_last()),
        0 <= pi < st.rows.len(),
        st.rows[pi].depth + 1 == depth,
        st.rows[pi].key == key.drop_last(),
        child_ids(v, st.rows[pi].id, reverse).contains(id),
        expandable(exp, st.rows[pi]),
        forall|m: int| pi < m < st.rows.len() ==> (#[trigger] st.rows[m]).depth >= depth,
    ensures
        ({
            let f = flat_visit(v, exp, reverse, cap, id, key, depth, kinds, anc, st);
            let a = st.rows.len() as int;
            &&& forall|k: int| a <= k < f.rows.len() ==> cycle_ok(#[trigger] f.rows[k])
            &&& forall|j: int, k: int| a <= k < f.rows.len() && #[trigger] parent_at(f.rows, j, k) ==> expandable(exp, f.rows[j])
            &&& !f.limited ==> f.rows.len() > a && parent_at(f.rows, pi, a) && f.rows[a].id == id
            &&& !f.limited ==> forall|j: int| a <= j < f.rows.len() && #[trigger] expandable(exp, f.rows[j]) ==> children_listed(v, reverse, f.rows, j)
        }),
    decreases v.packages.len() - anc.len(), 0nat,
{
    let n = v.packages.len();
    vstd::set_lib::lemma_int_range(0, n as int);
    vstd::set_lib::lemma_len_subset(anc, vstd::set_lib::set_int_range(0, n as int));
    lemma_visit_tree(v, exp, reverse, cap, id, key, depth, kinds, anc, st, pi);
    let f = flat_visit(v, exp, reverse, cap, id, key, depth, kinds, anc, st);
    let a = st.rows.len() as int;
    if depth > 1 && st.descendants >= row_budget(cap) {
        assert(f.rows =~= st.rows);
    } else {
        let st1 = if depth > 1 {
            Flat { descendants: st.descendants + 1, ..st }
        } else {
            st
        };
        let cycle = anc.contains(id as int);
        let row = RowView {
            key,
            id,
            depth: depth as usize,
            kind: key.last().1,
            kinds,
            children_count: children_count_of(v, id, reverse),
            is_section: false,
            transitive_depth: None,
            cycle,
        };
        let st2 = Flat { rows: st1.rows.push(row), ..st1 };
        assert(st2.rows[a] == row);
        lemma_key_ids_contains(key.drop_last(), id);
        assert(cycle_ok(row)) by {
            if cycle {
                let i = choose|i: int| 0 <= i < key.drop_last().len() && (#[trigger] key.drop_last()[i]).0 == id;
                assert(key[i] == key.drop_last()[i]);
            }
            if exists|i: int| 0 <= i < row.key.len() - 1 && (#[trigger] row.key[i]).0 == row.id {
                let i = choose|i: int| 0 <= i < row.key.len() - 1 && (#[trigger] row.key[i]).0 == row.id;
                assert(key.drop_last()[i] == key[i]);
            }
        }
        assert(st2.rows[pi] == st.rows[pi]);
        assert forall|m: int| pi < m < a implies (#[trigger] st2.rows[m]).depth >= st2.rows[a].depth by {
            assert(st2.rows[m] == st.rows[m]);
        }
        assert(parent_at(st2.rows, pi, a));
        if !cycle && (depth == 0 || exp.contains(key)) {
            let anc2 = anc.insert(id as int);
            vstd::set_lib::lemma_len_subset(anc2, vstd::set_lib::set_int_range(0, n as int));
            lemma_children_in_range(v, id, reverse);
            lemma_kids_children(v, id, reverse);
            let kids = children_of(v, id, reverse);
            assert(key.drop_last().push(key.last()) =~= key);
            lemma_key_ids_push(key.drop_last(), key.last());
            assert(anc2 == key_ids(key));
            assert(expandable(exp, st2.rows[a]));
            lemma_children_flags(v, exp, reverse, cap, kids, 0, key, depth, anc2, st2, a, id);
            lemma_children_tree(v, exp, reverse, cap, kids, 0, key, depth, anc2, st2, a, id);
            let f2 = flat_children(v, exp, reverse, cap, kids, 0, key, depth, anc2, st2);
            assert(f == f2);
            assert forall|m: int| 0 <= m <= a implies f.rows[m] == st2.rows[m] by {
                assert(f.rows.subrange(0, st2.rows.len() as int)[m] == f.rows[m]);
            }
            assert(cycle_ok(f.rows[a]));
            assert forall|j: int, k: int| a <= k < f.rows.len() && #[trigger] parent_at(f.rows, j, k) implies expandable(exp, f.rows[j]) by {
                if k == a {
                    assert forall|m: int| pi < m < a implies (#[trigger] f.rows[m]).depth >= f.rows[a].depth by {
                        assert(f.rows[m] == st.rows[m]);
                    }
                    lemma_parent_unique(f.rows, pi, j, a);
                    assert(f.rows[pi] == st.rows[pi]);
                } else {
                    if j < a {
                        assert(f.rows[a].depth < f.rows[k].depth);
                    }
                }
            }
            if !f.limited {
                lemma_parent_at_extend(st2.rows, f.rows, pi, a);
                assert forall|j: int| a <= j < f.rows.len() && #[trigger] expandable(exp, f.rows[j]) implies children_listed(v, reverse, f.rows, j) by {
                    if j == a {
                        assert forall|c: u32| #[trigger] child_ids(v, f.rows[j].id, reverse).contains(c) implies exists|k: int|
                            parent_at(f.rows, j, k) && f.rows[k].id == c by {
                            lemma_children_in_range(v, id, reverse);
                            let lt = keyed_order(hit_key(v));
                            lemma_keyed_order(hit_key(v));
                            crate::order::lemma_sorted_list_exists(child_ids(v, id, reverse), lt);
                            let sl = sorted_list(child_ids(v, id, reverse).to_set(), lt);
                            assert(child_ids(v, id, reverse).to_set().contains(c));
                            assert(sl.to_set().contains(c));
                            let q = choose|q: int| 0 <= q < sl.len() && sl[q] == c;
                            assert(kids.map_values(|x: (u32, Seq<DepKind>)| x.0)[q] == sl[q]);
                            assert(kids[q].0 == c);
                        }
                    }
                }
            }
        } else {
            assert(f == st2);
            assert forall|j: int, k: int| a <= k < f.rows.len() && #[trigger] parent_at(f.rows, j, k) implies expandable(exp, f.rows[j]) by {
                assert forall|m: int| pi < m < a implies (#[trigger] f.rows[m]).depth >= f.rows[a].depth by {
                    assert(f.rows[m] == st.rows[m]);
                }
                lemma_parent_unique(f.rows, pi, j, a);
            }
            assert forall|j: int| a <= j < f.rows.len() && #[trigger] expandable(exp, f.rows[j]) implies children_listed(v, reverse, f.rows, j) by {
                assert(j == a);
            }
        }
    }
}

/// Walking the children of the expandable row at `pi`: the rows added
/// keep the cycle rule, only expandable rows are parents, and, unless the
/// budget cut the walk, every child from the `i`-th on gets a row with `pi`
/// as its parent and every expandable row added lists all its children.
#[verifier::spinoff_prover]
#[verifier::rlimit(100)]
proof fn lemma_children_flags(
    v: IndexView,
    exp: Set<Seq<(u32, NodeKind)>>,
    reverse: bool,
    cap: usize,
    kids: Seq<(u32, Seq<DepKind>)>,
    i: int,
    key: Seq<(u32, NodeKind)>,
    depth: nat,
    anc: Set<int>,
    st: Flat,
    pi: int,
    pid: u32,
)
    requires
        index_wf(v),
        ancestors_ok(anc, v.packages.len()),
        0 <= i,
        depth + 1 <= anc.len(),
        anc == key_ids(key),
        forall|q: int| 0 <= q < kids.len() ==> (#[trigger] kids[q]).0 < v.packages.len(),
        forall|q: int| 0 <= q < kids.len() ==> child_ids(v, pid, reverse).contains((#[trigger] kids[q]).0),
        0 <= pi < st.rows.len(),
        st.rows[pi].depth == depth,
        st.rows[pi].key == key,
        st.rows[pi].id == pid,
        expandable(exp, st.rows[pi]),
        forall|m: int| pi < m < st.rows.len() ==> (#[trigger] st.rows[m]).depth >= depth + 1,
    ensures
        ({
            let f = flat_children(v, exp, reverse, cap, kids, i, key, depth, anc, st);
            let a = st.rows.len() as int;
            &&& forall|k: int| a <= k < f.rows.len() ==> cycle_ok(#[trigger] f.rows[k])
            &&& forall|j: int, k: int| a <= k < f.rows.len() && #[trigger] parent_at(f.rows, j, k) ==> expandable(exp, f.rows[j])
            &&& !f.limited ==> forall|q: int| i <= q < kids.len() ==> exists|k: int|
                a <= k < f.rows.len() && parent_at(f.rows, pi, k) && f.rows[k].id == (#[trigger] kids[q]).0
            &&& !f.limited ==> forall|j: int| a <= j < f.rows.len() && #[trigger] expandable(exp, f.rows[j]) ==> children_listed(v, reverse, f.rows, j)
        }),
    decreases v.packages.len() - anc.len(), kids.len() - i + 1,
{
    lemma_children_tree(v, exp, reverse, cap, kids, i, key, depth, anc, st, pi, pid);
    if i >= kids.len() {
        assert(st.rows.subrange(0, st.rows.len() as int) =~= st.rows);
    } else {
        let c = kids[i];
        let ck = key.push(
            (
                c.0,
                if reverse {
                    NodeKind::RevDirect
                } else {
                    node_kind_of(c.1[0])
                },
            ),
        );
        assert(ck.drop_last() =~= key);
        lemma_visit_flags(v, exp, reverse, cap, c.0, ck, depth + 1, c.1, anc, st, pi);
        lemma_visit_tree(v, exp, reverse, cap, c.0, ck, depth + 1, c.1, anc, st, pi);
        let st1 = flat_visit(v, exp, reverse, cap, c.0, ck, depth + 1, c.1, anc, st);
        assert(st1.rows[pi] == st.rows[pi]) by {
            assert(st1.rows.subrange(0, st.rows.len() as int)[pi] == st1.rows[pi]);
        }
        assert forall|m: int| pi < m < st1.rows.len() implies (#[trigger] st1.rows[m]).depth >= depth + 1 by {
            if m < st.rows.len() {
                assert(st1.rows.subrange(0, st.rows.len() as int)[m] == st1.rows[m]);
            }
        }
        lemma_children_flags(v, exp, reverse, cap, kids, i + 1, key, depth, anc, st1, pi, pid);
        lemma_children_tree(v, exp, reverse, cap, kids, i + 1, key, depth, anc, st1, pi, pid);
        lemma_limited_stays_children(v, exp, reverse, cap, kids, i + 1, key, depth, anc, st1);
        let f = flat_children(v, exp, reverse, cap, kids, i + 1, key, depth, anc, st1);
        let a = st.rows.len() as int;
        let b = st1.rows.len() as int;
        assert forall|m: int| 0 <= m < b implies f.rows[m] == st1.rows[m] by {
            assert(f.rows.subrange(0, b)[m] == f.rows[m]);
        }
        assert forall|k: int| a <= k < f.rows.len() implies cycle_ok(#[trigger] f.rows[k]) by {
            if k < b {
                assert(f.rows[k] == st1.rows[k]);
            }
        }
        assert forall|j: int, k: int| a <= k < f.rows.len() && #[trigger] parent_at(f.rows, j, k) implies expandable(exp, f.rows[j]) by {
            if k < b {
                lemma_parent_at_extend(st1.rows, f.rows, j, k);
                assert(f.rows[j] == st1.rows[j]);
            }
        }
        if !f.limited {
            assert(!st1.limited);
            assert forall|q: int| i <= q < kids.len() implies exists|k: int|
                a <= k < f.rows.len() && parent_at(f.rows, pi, k) && f.rows[k].id == (#[trigger] kids[q]).0 by {
                if q == i {
                    lemma_parent_at_extend(st1.rows, f.rows, pi, a);
                    assert(f.rows[a] == st1.rows[a]);
                } else {
                    let k = choose|k: int| b <= k < f.rows.len() && parent_at(f.rows, pi, k) && f.rows[k].id == kids[q].0;
                }
            }
            assert forall|j: int| a <= j < f.rows.len() && #[trigger] expandable(exp, f.rows[j]) implies children_listed(v, reverse, f.rows, j) by {
                if j < b {
                    assert(f.rows[j] == st1.rows[j]);
                    assert(children_listed(v, reverse, st1.rows, j));
                    assert forall|cc: u32| #[trigger] child_ids(v, f.rows[j].id, reverse).contains(cc) implies exists|k: int|
                        parent_at(f.rows, j, k) && f.rows[k].id == cc by {
                        let k = choose|k: int| parent_at(st1.rows, j, k) && st1.rows[k].id == cc;
                        lemma_parent_at_extend(st1.rows, f.rows, j, k);
                        assert(f.rows[k] == st1.rows[k]);
                    }
                }
            }
        }
    }
}

/// The rows of a tree are a preorder walk of it: the root comes first, and
/// every other row has a parent row before it, one level up, whose key its
/// own key extends by one step and whose package it is a child of, with no
/// shallower row between them; each row's key ends at its own package; and
/// rows with the same parent come in order of name, version and id.
pub proof fn law_flatten_preorder(
    v: IndexView,
    root: u32,
    exp: Set<Seq<(u32, NodeKind)>>,
    reverse: bool,
    cap: usize,
)
    requires
        index_wf(v),
        root < v.packages.len(),
    ensures
        ({
            let rows = flatten_of(v, root, exp, reverse, cap).0;
            &&& rows.len() > 0
            &&& rows[0].id == root && rows[0].depth == 0 && rows[0].key.len() == 1 && rows[0].key[0].0 == root
            &&& forall|k: int| 0 <= k < rows.len() ==> (#[trigger] rows[k]).key.last().0 == rows[k].id
            &&& forall|k: int| 1 <= k < rows.len() ==> #[trigger] has_parent(v, reverse, rows, k)
            &&& siblings_ordered(v, rows, 0)
        }),
{
    let n = v.packages.len();
    vstd::set_lib::lemma_int_range(0, n as int);
    let kind = if reverse {
        NodeKind::RevDirect
    } else {
        NodeKind::Input
    };
    let key = seq![(root, kind)];
    let st0 = Flat { rows: Seq::empty(), descendants: 0, limited: false };
    let row = RowView {
        key,
        id: root,
        depth: 0,
        kind: key.last().1,
        kinds: Seq::empty(),
        children_count: children_count_of(v, root, reverse),
        is_section: false,
        transitive_depth: None,
        cycle: false,
    };
    let st2 = Flat { rows: st0.rows.push(row), ..st0 };
    let anc = Set::<int>::empty().insert(root as int);
    assert(anc.len() == 1);
    vstd::set_lib::lemma_len_subset(anc, vstd::set_lib::set_int_range(0, n as int));
    let kids = children_of(v, root, reverse);
    lemma_children_in_range(v, root, reverse);
    lemma_kids_children(v, root, reverse);
    assert(st2.rows[0] == row);
    lemma_children_tree(v, exp, reverse, cap, kids, 0, key, 0, anc, st2, 0, root);
    lemma_kids_sorted(v, root, reverse);
    lemma_children_sib(v, exp, reverse, cap, kids, 0, key, 0, anc, st2, 0, root);
    let f = flat_children(v, exp, reverse, cap, kids, 0, key, 0, anc, st2);
    assert(flatten_of(v, root, exp, reverse, cap).0 == f.rows);
    assert(f.rows[0] == row) by {
        assert(f.rows.subrange(0, 1)[0] == f.rows[0]);
    }
    assert forall|k: int| 0 <= k < f.rows.len() implies (#[trigger] f.rows[k]).key.last().0 == f.rows[k].id by {
        if k == 0 {
            assert(key.last().0 == root);
        }
    }
    assert forall|k: int| 1 <= k < f.rows.len() implies #[trigger] has_parent(v, reverse, f.rows, k) by {
        assert(f.rows[k].key.len() > 0);
    }
    assert forall|j: int, k1: int, k2: int|
        0 <= k1 < k2 && #[trigger] parent_at(f.rows, j, k1) && #[trigger] parent_at(f.rows, j, k2) implies keyed_order(
        hit_key(v),
    )(f.rows[k1].id, f.rows[k2].id) by {
        assert(k1 >= 1);
    }
}

proof fn lemma_key_len(v: IndexView, reverse: bool, rows: Seq<RowView>, k: int)
    requires
        0 <= k < rows.len(),
        rows[0].key.len() == 1 && rows[0].depth == 0,
        forall|m: int| 1 <= m < rows.len() ==> #[trigger] has_parent(v, reverse, rows, m) && rows[m].key.len() > 0,
    ensures
        rows[k].key.len() == rows[k].depth + 1,
    decreases k,
{
    if k > 0 {
        assert(has_parent(v, reverse, rows, k));
        let j = choose|j: int| #[trigger] parent_at(rows, j, k) && child_ids(v, rows[j].id, reverse).contains(rows[k].id);
        lemma_key_len(v, reverse, rows, j);
    }
}

/// What the rows of a tree say of each other: every key is the path from
/// the root, one entry per level (its length is the row's depth plus one);
/// a row is a cycle exactly when its package occurs earlier on its path;
/// only a row that is not a cycle and is the root or expanded has rows below
/// it; and, unless the budget cut the walk short, each such row has a row
/// below it for every one of its children.
pub proof fn law_flatten_rows(
    v: IndexView,
    root: u32,
    exp: Set<Seq<(u32, NodeKind)>>,
    reverse: bool,
    cap: usize,
)
    requires
        index_wf(v),
        root < v.packages.len(),
    ensures
        ({
            let (rows, limited) = flatten_of(v, root, exp, reverse, cap);
            &&& forall|k: int| 0 <= k < rows.len() ==> (#[trigger] rows[k]).key.len() == rows[k].depth + 1
            &&& forall|k: int| 0 <= k < rows.len() ==> cycle_ok(#[trigger] rows[k])
            &&& forall|j: int, k: int| #[trigger] parent_at(rows, j, k) ==> expandable(exp, rows[j])
            &&& !limited ==> forall|j: int|
                0 <= j < rows.len() && #[trigger] expandable(exp, rows[j]) ==> children_listed(v, reverse, rows, j)
        }),
{
    let n = v.packages.len();
    vstd::set_lib::lemma_int_range(0, n as int);
    let kind = if reverse {
        NodeKind::RevDirect
    } else {
        NodeKind::Input
    };
    let key = seq![(root, kind)];
    let st0 = Flat { rows: Seq::empty(), descendants: 0, limited: false };
    let row = RowView {
        key,
        id: root,
        depth: 0,
        kind: key.last().1,
        kinds: Seq::empty(),
        children_count: children_count_of(v, root, reverse),
        is_section: false,
        transitive_depth: None,
        cycle: false,
    };
    let st2 = Flat { rows: st0.rows.push(row), ..st0 };
    let anc = Set::<int>::empty().insert(root as int);
    assert(anc.len() == 1);
    vstd::set_lib::lemma_len_subset(anc, vstd::set_lib::set_int_range(0, n as int));
    let kids = children_of(v, root, reverse);
    lemma_children_in_range(v, root, reverse);
    lemma_kids_children(v, root, reverse);
    assert(st2.rows[0] == row);
    lemma_key_ids_push(Seq::<(u32, NodeKind)>::empty(), (root, kind));
    assert(Seq::<(u32, NodeKind)>::empty().push((root, kind)) == key);
    assert(key_ids(Seq::<(u32, NodeKind)>::empty()) =~= Set::<int>::empty());
    assert(anc == key_ids(key));
    lemma_children_tree(v, exp, reverse, cap, kids, 0, key, 0, anc, st2, 0, root);
    lemma_children_flags(v, exp, reverse, cap, kids, 0, key, 0, anc, st2, 0, root);
    let f = flat_children(v, exp, reverse, cap, kids, 0, key, 0, anc, st2);
    assert(flatten_of(v, root, exp, reverse, cap) == (f.rows, f.limited));
    assert(f.rows[0] == row) by {
        assert(f.rows.subrange(0, 1)[0] == f.rows[0]);
    }
    let rows = f.rows;
    assert forall|k: int| 0 <= k < rows.len() implies (#[trigger] rows[k]).key.len() == rows[k].depth + 1 by {
        lemma_key_len(v, reverse, rows, k);
    }
    assert forall|k: int| 0 <= k < rows.len() implies cycle_ok(#[trigger] rows[k]) by {
        if k == 0 {
            assert(!(exists|i: int| 0 <= i < row.key.len() - 1 && (#[trigger] row.key[i]).0 == row.id));
        }
    }
    assert forall|j: int, k: int| #[trigger] parent_at(rows, j, k) implies expandable(exp, rows[j]) by {
        assert(k >= 1);
        if j == 0 {
            assert(expandable(exp, row));
        }
    }
    if !f.limited {
        assert forall|j: int| 0 <= j < rows.len() && #[trigger] expandable(exp, rows[j]) implies children_listed(v, reverse, rows, j) by {
            if j == 0 {
                assert forall|c: u32| #[trigger] child_ids(v, rows[j].id, reverse).contains(c) implies exists|k: int|
                    parent_at(rows, j, k) && rows[k].id == c by {
                    let lt = keyed_order(hit_key(v));
                    lemma_keyed_order(hit_key(v));
                    crate::order::lemma_sorted_list_exists(child_ids(v, root, reverse), lt);
                    let sl = sorted_list(child_ids(v, root, reverse).to_set(), lt);
                    assert(child_ids(v, root, reverse).to_set().contains(c));
                    assert(sl.to_set().contains(c));
                    let q = choose|q: int| 0 <= q < sl.len() && sl[q] == c;
                    assert(kids.map_values(|x: (u32, Seq<DepKind>)| x.0)[q] == sl[q]);
                    assert(kids[q].0 == c);
                }
            }
        }
    }
}

/// The kinds a tree row gives each child are exactly the kinds of the
/// relation between the two packages: on a dependency tree, those under
/// which the node lists the child; on a reverse tree, those under which the
/// child (a dependent) lists the node. So a child carries some kind exactly
/// when that listing exists, in either direction.
pub proof fn law_children_kinds(v: IndexView, id: u32, reverse: bool)
    requires
        index_wf(v),
        id < v.packages.len(),
    ensures
        forall|q: int, k: DepKind|
            0 <= q < children_of(v, id, reverse).len() ==> (#[trigger] children_of(v, id, reverse)[q].1.contains(k)
                <==> if reverse {
                typed_pairs(v.packages[children_of(v, id, reverse)[q].0 as int]).contains((id, k))
            } else {
                typed_pairs(v.packages[id as int]).contains((children_of(v, id, reverse)[q].0, k))
            }),
        reverse ==> forall|q: int|
            0 <= q < children_of(v, id, reverse).len() ==> ((#[trigger] children_of(v, id, reverse)[q]).1.len() > 0
                <==> exists|k: DepKind| typed_pairs(v.packages[children_of(v, id, reverse)[q].0 as int]).contains((id, k))),
{
    let kids = children_of(v, id, reverse);
    lemma_children_in_range(v, id, reverse);
    assert forall|q: int, k: DepKind| 0 <= q < kids.len() implies (#[trigger] kids[q].1.contains(k) <==> if reverse {
        typed_pairs(v.packages[kids[q].0 as int]).contains((id, k))
    } else {
        typed_pairs(v.packages[id as int]).contains((kids[q].0, k))
    }) by {
        let c = kids[q].0;
        assert(kids[q].1 == child_kinds(v, id, c, reverse));
        if reverse {
            lemma_kinds_for_contains(typed_pairs(v.packages[c as int]), id, k);
        } else {
            lemma_kinds_for_contains(typed_pairs(v.packages[id as int]), c, k);
        }
    }
    if reverse {
        assert forall|q: int| 0 <= q < kids.len() implies ((#[trigger] kids[q]).1.len() > 0 <==> exists|k: DepKind|
            typed_pairs(v.packages[kids[q].0 as int]).contains((id, k))) by {
            let c = kids[q].0;
            let ks = kids[q].1;
            if ks.len() > 0 {
                assert(ks.contains(ks[0]));
                lemma_kinds_for_contains(typed_pairs(v.packages[c as int]), id, ks[0]);
            }
            if exists|k: DepKind| typed_pairs(v.packages[c as int]).contains((id, k)) {
                let k = choose|k: DepKind| typed_pairs(v.packages[c as int]).contains((id, k));
                lemma_kinds_for_contains(typed_pairs(v.packages[c as int]), id, k);
            }
        }
    }
}

} // verus!
