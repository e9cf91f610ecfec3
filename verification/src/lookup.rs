//! What the package queries of an index give: the package a name finds,
//! the packages of a module, and the count of distinct dependencies.

use vstd::prelude::*;

use crate::search::{find_group, groups_upto, lemma_find_group, names_of, NameGroup};
use crate::index::{
    find_named, first_pairs, index_wf, module_group, module_upto, name_lookup, pair_ids, typed_pairs,
    typed_seq, DepKind, IndexView, PackageView,
};

verus! {

/// Package `j` has the name and, when `catalog_only`, is in the catalog.
pub open spec fn named(pk: Seq<PackageView>, name: Seq<char>, catalog_only: bool, j: int) -> bool {
    pk[j].name == name && (pk[j].catalog || !catalog_only)
}

/// `k` is the first package from which on the name matches.
pub open spec fn least_named(pk: Seq<PackageView>, name: Seq<char>, catalog_only: bool, k: int) -> bool {
    &&& 0 <= k < pk.len()
    &&& named(pk, name, catalog_only, k)
    &&& forall|j: int| 0 <= j < k ==> !#[trigger] named(pk, name, catalog_only, j)
}

proof fn lemma_find_named(pk: Seq<PackageView>, name: Seq<char>, catalog_only: bool, k: int)
    requires
        0 <= k,
    ensures
        match find_named(pk, name, catalog_only, k) {
            Some(m) => k <= m < pk.len() && named(pk, name, catalog_only, m) && forall|j: int|
                k <= j < m ==> !#[trigger] named(pk, name, catalog_only, j),
            None => forall|j: int| k <= j < pk.len() ==> !#[trigger] named(pk, name, catalog_only, j),
        },
    decreases pk.len() - k,
{
    if k < pk.len() && !named(pk, name, catalog_only, k) {
        lemma_find_named(pk, name, catalog_only, k + 1);
    }
}

/// A name finds the catalog package of that name with the least id; when
/// no catalog package has the name, the package of that name with the
/// least id; and nothing when no package has it.
pub proof fn law_name_lookup_least(v: IndexView, name: Seq<char>)
    requires
        index_wf(v),
    ensures
        (exists|j: int| 0 <= j < v.packages.len() && #[trigger] named(v.packages, name, true, j))
            ==> (name_lookup(v.packages, name) matches Some(id) && least_named(v.packages, name, true, id as int)),
        !(exists|j: int| 0 <= j < v.packages.len() && #[trigger] named(v.packages, name, true, j))
            && (exists|j: int| 0 <= j < v.packages.len() && #[trigger] named(v.packages, name, false, j))
            ==> (name_lookup(v.packages, name) matches Some(id) && least_named(v.packages, name, false, id as int)),
        !(exists|j: int| 0 <= j < v.packages.len() && #[trigger] named(v.packages, name, false, j))
            ==> name_lookup(v.packages, name) is None,
{
    let pk = v.packages;
    lemma_find_named(pk, name, true, 0);
    lemma_find_named(pk, name, false, 0);
    if let Some(m) = find_named(pk, name, true, 0) {
        assert(pk[m].id == m);
        assert(named(pk, name, false, m));
    } else if let Some(m) = find_named(pk, name, false, 0) {
        assert(pk[m].id == m);
    }
    if exists|j: int| 0 <= j < pk.len() && #[trigger] named(pk, name, false, j) {
        let j = choose|j: int| 0 <= j < pk.len() && #[trigger] named(pk, name, false, j);
        assert(find_named(pk, name, false, 0) is Some);
    }
}

proof fn lemma_module_upto(pk: Seq<PackageView>, file: Seq<char>, m: int)
    requires
        0 <= m <= pk.len(),
        forall|k: int| 0 <= k < pk.len() ==> (#[trigger] pk[k]).id == k,
    ensures
        forall|p: int, q: int|
            0 <= p < q < module_upto(pk, file, m).len() ==> module_upto(pk, file, m)[p] < module_upto(
                pk,
                file,
                m,
            )[q],
        forall|p: int| 0 <= p < module_upto(pk, file, m).len() ==> module_upto(pk, file, m)[p] < m,
        forall|x: u32|
            module_upto(pk, file, m).contains(x) <==> (x < m && pk[x as int].file == file),
    decreases m,
{
    if m > 0 {
        lemma_module_upto(pk, file, m - 1);
        let s = module_upto(pk, file, m - 1);
        let t = module_upto(pk, file, m);
        assert(pk[m - 1].id == m - 1);
        assert forall|x: u32| t.contains(x) <==> (x < m && pk[x as int].file == file) by {
            if x < m && pk[x as int].file == file {
                if x < m - 1 {
                    assert(s.contains(x));
                    let q = choose|q: int| 0 <= q < s.len() && s[q] == x;
                    assert(t[q] == x);
                } else {
                    assert(t[t.len() - 1] == x);
                }
            }
            if t.contains(x) {
                let q = choose|q: int| 0 <= q < t.len() && t[q] == x;
                if q < s.len() {
                    assert(s[q] == x);
                    assert(s.contains(x));
                }
            }
        }
    }
}

/// The packages of a module: ascending ids, exactly the packages defined
/// in the file of `id` (none when its file is unknown or `id` names no
/// package).
pub proof fn law_module_neighbors(v: IndexView, id: u32)
    requires
        index_wf(v),
    ensures
        forall|p: int, q: int|
            0 <= p < q < module_group(v.packages, id).len() ==> module_group(v.packages, id)[p]
                < module_group(v.packages, id)[q],
        forall|x: u32|
            module_group(v.packages, id).contains(x) <==> (id < v.packages.len() && v.packages[id as int].file.len()
                > 0 && x < v.packages.len() && v.packages[x as int].file == v.packages[id as int].file),
{
    if id < v.packages.len() && v.packages[id as int].file.len() > 0 {
        lemma_module_upto(v.packages, v.packages[id as int].file, v.packages.len() as int);
    }
}

proof fn lemma_first_pairs_cover(s: Seq<(u32, DepKind)>)
    ensures
        pair_ids(first_pairs(s)).to_set() == pair_ids(s).to_set(),
    decreases s.len(),
{
    if s.len() > 0 {
        let d = s.drop_last();
        lemma_first_pairs_cover(d);
        assert(pair_ids(s) =~= pair_ids(d).push(s.last().0));
        pair_ids(d).lemma_push_to_set_commute(s.last().0);
        let f = first_pairs(d);
        if !pair_ids(f).contains(s.last().0) {
            assert(pair_ids(f.push(s.last())) =~= pair_ids(f).push(s.last().0));
            pair_ids(f).lemma_push_to_set_commute(s.last().0);
        } else {
            assert(pair_ids(f).to_set().contains(s.last().0));
            assert(pair_ids(d).to_set().insert(s.last().0) =~= pair_ids(d).to_set());
        }
    }
}

/// A package's dependency count is the number of distinct packages it
/// lists, under whatever kinds.
pub proof fn law_dep_count_distinct(p: PackageView)
    ensures
        pair_ids(first_pairs(typed_pairs(p))).no_duplicates(),
        pair_ids(first_pairs(typed_pairs(p))).to_set() == typed_seq(p).to_set(),
        first_pairs(typed_pairs(p)).len() == typed_seq(p).to_set().len(),
{
    crate::ui::tree::lemma_first_pairs_unique(typed_pairs(p));
    lemma_first_pairs_cover(typed_pairs(p));
    crate::index::lemma_pair_ids(p);
    pair_ids(first_pairs(typed_pairs(p))).unique_seq_to_set();
}

/// The names of the dependents of the packages named `name` among the first
/// `k`, package after package in id order.
pub open spec fn dependents_named(v: IndexView, name: Seq<char>, k: int) -> Seq<Seq<char>>
    decreases k,
{
    if k <= 0 {
        Seq::empty()
    } else {
        dependents_named(v, name, k - 1) + if v.packages[k - 1].name == name {
            names_of(v, v.dependents[k - 1])
        } else {
            Seq::empty()
        }
    }
}

proof fn lemma_dependent_groups(v: IndexView, k: int)
    requires
        0 <= k <= v.packages.len(),
        v.dependents.len() == v.packages.len(),
    ensures
        ({
            let g = groups_upto(v, k);
            &&& forall|i: int, j: int| 0 <= i < j < g.len() ==> (#[trigger] g[i]).0 != (#[trigger] g[j]).0
            &&& forall|i: int|
                0 <= i < g.len() ==> (#[trigger] g[i]).1 == dependents_named(v, g[i].0, k) && g[i].1.len() > 0
            &&& forall|name: Seq<char>|
                (#[trigger] dependents_named(v, name, k)).len() > 0 ==> (find_group(g, name) matches Some(i)
                    && 0 <= i < g.len() && g[i].0 == name)
        }),
    decreases k,
{
    if k > 0 {
        lemma_dependent_groups(v, k - 1);
        let g0 = groups_upto(v, k - 1);
        let g = groups_upto(v, k);
        let name = v.packages[k - 1].name;
        let ds = names_of(v, v.dependents[k - 1]);
        lemma_find_group(g0, name);
        assert forall|nm: Seq<char>| nm != name implies #[trigger] dependents_named(v, nm, k)
            == dependents_named(v, nm, k - 1) by {
            assert(dependents_named(v, nm, k - 1) + Seq::<Seq<char>>::empty() =~= dependents_named(v, nm, k - 1));
        }
        assert(dependents_named(v, name, k) == dependents_named(v, name, k - 1) + ds);
        if ds.len() == 0 {
            assert(dependents_named(v, name, k) =~= dependents_named(v, name, k - 1));
            assert forall|nm: Seq<char>| #[trigger] dependents_named(v, nm, k) == dependents_named(v, nm, k - 1) by {
                if nm == name {
                    assert(dependents_named(v, name, k) =~= dependents_named(v, name, k - 1));
                }
            }
        } else {
            match find_group(g0, name) {
                Some(i) => {
                    assert(g == g0.update(i, (g0[i].0, g0[i].1 + ds)));
                    assert forall|nm: Seq<char>| (#[trigger] dependents_named(v, nm, k)).len() > 0 implies (find_group(g, nm) matches Some(j)
                        && 0 <= j < g.len() && g[j].0 == nm) by {
                        lemma_find_group(g, nm);
                        if nm != name {
                            lemma_find_group(g0, nm);
                            let j = find_group(g0, nm)->0;
                            assert(g[j].0 == nm);
                        } else {
                            assert(g[i].0 == nm);
                        }
                    }
                },
                None => {
                    assert(g == g0.push((name, ds)));
                    assert(dependents_named(v, name, k - 1).len() == 0);
                    assert(dependents_named(v, name, k) =~= ds);
                    assert forall|nm: Seq<char>| (#[trigger] dependents_named(v, nm, k)).len() > 0 implies (find_group(g, nm) matches Some(j)
                        && 0 <= j < g.len() && g[j].0 == nm) by {
                        lemma_find_group(g, nm);
                        if nm != name {
                            lemma_find_group(g0, nm);
                            let j = find_group(g0, nm)->0;
                            assert(g[j] == g0[j]);
                        } else {
                            assert(g[g.len() - 1].0 == nm);
                        }
                    }
                },
            }
        }
    }
}

/// Grouping dependents by name files each name once, files a name exactly
/// when some package of that name has dependents, and gives it the names of
/// the dependents of every package of that name, package after package in
/// id order; so the groups together hold every dependent once.
pub proof fn law_dependent_groups(v: IndexView)
    requires
        index_wf(v),
    ensures
        ({
            let n = v.packages.len() as int;
            let g = groups_upto(v, n);
            &&& forall|i: int, j: int| 0 <= i < j < g.len() ==> (#[trigger] g[i]).0 != (#[trigger] g[j]).0
            &&& forall|i: int|
                0 <= i < g.len() ==> (#[trigger] g[i]).1 == dependents_named(v, g[i].0, n) && g[i].1.len() > 0
            &&& forall|name: Seq<char>|
                (#[trigger] dependents_named(v, name, n)).len() > 0 ==> exists|i: int|
                    0 <= i < g.len() && (#[trigger] g[i]).0 == name
        }),
{
    let n = v.packages.len() as int;
    lemma_dependent_groups(v, n);
    let g = groups_upto(v, n);
    assert forall|name: Seq<char>| (#[trigger] dependents_named(v, name, n)).len() > 0 implies exists|i: int|
        0 <= i < g.len() && (#[trigger] g[i]).0 == name by {
        let i = find_group(g, name)->0;
        assert(g[i].0 == name);
    }
}

/// The number of names a list of groups holds.
pub open spec fn grouped_count(g: Seq<NameGroup>) -> nat
    decreases g.len(),
{
    if g.len() == 0 {
        0
    } else {
        grouped_count(g.drop_last()) + g.last().1.len()
    }
}

/// The number of dependents of the first `k` packages.
pub open spec fn dependents_total(v: IndexView, k: int) -> nat
    decreases k,
{
    if k <= 0 {
        0
    } else {
        dependents_total(v, k - 1) + v.dependents[k - 1].len()
    }
}

proof fn lemma_grouped_count_update(g: Seq<NameGroup>, i: int, ds: Seq<Seq<char>>)
    requires
        0 <= i < g.len(),
    ensures
        grouped_count(g.update(i, (g[i].0, g[i].1 + ds))) == grouped_count(g) + ds.len(),
    decreases g.len(),
{
    let g2 = g.update(i, (g[i].0, g[i].1 + ds));
    if i == g.len() - 1 {
        assert(g2.drop_last() =~= g.drop_last());
    } else {
        assert(g2.drop_last() =~= g.drop_last().update(i, (g[i].0, g[i].1 + ds)));
        lemma_grouped_count_update(g.drop_last(), i, ds);
    }
}

proof fn lemma_grouped_total(v: IndexView, k: int)
    requires
        0 <= k <= v.packages.len(),
        v.dependents.len() == v.packages.len(),
    ensures
        grouped_count(groups_upto(v, k)) == dependents_total(v, k),
    decreases k,
{
    if k > 0 {
        lemma_grouped_total(v, k - 1);
        let g0 = groups_upto(v, k - 1);
        let name = v.packages[k - 1].name;
        let ds = names_of(v, v.dependents[k - 1]);
        lemma_find_group(g0, name);
        if ds.len() > 0 {
            match find_group(g0, name) {
                Some(i) => {
                    lemma_grouped_count_update(g0, i, ds);
                },
                None => {
                    assert(g0.push((name, ds)).drop_last() =~= g0);
                },
            }
        }
    }
}

/// The groups of dependents by name together hold as many names as there
/// are dependents in the index.
pub proof fn law_dependent_groups_total(v: IndexView)
    requires
        index_wf(v),
    ensures
        grouped_count(groups_upto(v, v.packages.len() as int)) == dependents_total(v, v.packages.len() as int),
{
    lemma_grouped_total(v, v.packages.len() as int);
}

} // verus!
