//! In-memory package index: validated packages, reverse dependency edges,
//! name and module lookups, and bounded breadth-first walks.

use vstd::prelude::*;
use crate::order::tag_order;

use crate::blob::{diags_view, packages_view};
use crate::model::{strings_view, DiagView, GuixOrigin, IndexDiagnostic, OriginView};
use crate::text::{clean, clean_text, str_eq};

verus! {

/// How many synopsis characters go into the fuzzy-search haystack.
pub const SYN_LIMIT: usize = 200;
/// Upper bound on packages and on diagnostics in one index.
pub const MAX_INDEX_ENTRIES: usize = 1_000_000;
/// Upper bound on one dependency list.
pub const MAX_EDGES: usize = 100_000;
/// Upper bound on the channels of an origin.
pub const MAX_CHANNELS: usize = 4096;

/// The kind of input through which a package depends on another.
#[derive(Debug, Clone, Copy, PartialEq, Eq, Hash, Structural)]
pub enum DepKind {
    Input,
    Propagated,
    Native,
}

pub open spec fn dep_kind_label(k: DepKind) -> Seq<char> {
    match k {
        DepKind::Input => seq![],
        DepKind::Propagated => seq!['P'],
        DepKind::Native => seq!['N'],
    }
}

impl DepKind {
    /// Badge shown next to a dependency; plain inputs carry none.
    pub fn label(self) -> (r: &'static str)
        ensures
            r@ == dep_kind_label(self),
    {
        proof {
            reveal_strlit("");
            reveal_strlit("P");
            reveal_strlit("N");
        }
        match self {
            DepKind::Input => "",
            DepKind::Propagated => "P",
            DepKind::Native => "N",
        }
    }
}

/// Which limit an index exceeded.
#[derive(Debug, Clone, Copy, PartialEq, Eq, Structural)]
pub enum LimitKind {
    Packages,
    Dependencies,
    IndexEntries,
    Channels,
}

/// Why a document or a snapshot cannot become an index.
#[derive(Debug, Clone, Copy, PartialEq, Eq, Structural)]
pub enum IndexError {
    /// Unsupported schema (found, expected).
    Schema(u32, u32),
    /// Header count does not match the package list (header, actual).
    Count(u64, usize),
    /// A size limit was exceeded.
    Limit(LimitKind),
    /// An id does not name a package of the index (id, package count).
    IdOutOfRange(u32, usize),
    /// Two packages carry the same id.
    DuplicateId(u32),
    /// A package has an empty name.
    EmptyName(u32),
}

/// One package. Dependency lists hold package ids.
#[derive(Debug)]
pub struct Package {
    pub id: u32,
    pub catalog: bool,
    pub name: String,
    pub version: String,
    pub synopsis: String,
    pub description: String,
    pub homepage: String,
    pub licenses: Vec<String>,
    pub file: String,
    pub line: u64,
    pub inputs: Vec<u32>,
    pub propagated: Vec<u32>,
    pub native: Vec<u32>,
}

pub ghost struct PackageView {
    pub id: u32,
    pub catalog: bool,
    pub name: Seq<char>,
    pub version: Seq<char>,
    pub synopsis: Seq<char>,
    pub description: Seq<char>,
    pub homepage: Seq<char>,
    pub licenses: Seq<Seq<char>>,
    pub file: Seq<char>,
    pub line: u64,
    pub inputs: Seq<u32>,
    pub propagated: Seq<u32>,
    pub native: Seq<u32>,
}

impl View for Package {
    type V = PackageView;

    open spec fn view(&self) -> PackageView {
        PackageView {
            id: self.id,
            catalog: self.catalog,
            name: self.name@,
            version: self.version@,
            synopsis: self.synopsis@,
            description: self.description@,
            homepage: self.homepage@,
            licenses: strings_view(self.licenses@),
            file: self.file@,
            line: self.line,
            inputs: self.inputs@,
            propagated: self.propagated@,
            native: self.native@,
        }
    }
}

/// The first occurrence of every id, in order.
pub open spec fn dedup(s: Seq<u32>) -> Seq<u32>
    decreases s.len(),
{
    if s.len() == 0 {
        Seq::empty()
    } else {
        let d = dedup(s.drop_last());
        if d.contains(s.last()) {
            d
        } else {
            d.push(s.last())
        }
    }
}

pub proof fn lemma_contains_push(s: Seq<u32>, v: u32, x: u32)
    ensures
        s.push(v).contains(x) <==> (s.contains(x) || x == v),
{
    if s.contains(x) {
        let i = choose|i: int| 0 <= i < s.len() && s[i] == x;
        assert(s.push(v)[i] == x);
    }
    if x == v {
        assert(s.push(v)[s.len() as int] == x);
    }
    if s.push(v).contains(x) {
        let i = choose|i: int| 0 <= i < s.push(v).len() && s.push(v)[i] == x;
        if i < s.len() {
            assert(s[i] == x);
        }
    }
}

pub proof fn lemma_contains_drop_last(s: Seq<u32>, x: u32)
    requires
        s.len() > 0,
    ensures
        s.contains(x) <==> (s.drop_last().contains(x) || x == s.last()),
{
    assert(s.drop_last().push(s.last()) =~= s);
    lemma_contains_push(s.drop_last(), s.last(), x);
}

pub proof fn lemma_dedup(s: Seq<u32>)
    ensures
        dedup(s).no_duplicates(),
        forall|x: u32| dedup(s).contains(x) <==> s.contains(x),
        dedup(s).len() <= s.len(),
    decreases s.len(),
{
    if s.len() > 0 {
        let d0 = dedup(s.drop_last());
        let l = s.last();
        lemma_dedup(s.drop_last());
        assert forall|x: u32| dedup(s).contains(x) <==> s.contains(x) by {
            lemma_contains_drop_last(s, x);
            lemma_contains_push(d0, l, x);
        }
        if !d0.contains(l) {
            assert forall|i: int, j: int|
                0 <= i < dedup(s).len() && 0 <= j < dedup(s).len() && i != j implies dedup(s)[i]
                != dedup(s)[j] by {
                if i == d0.len() as int {
                    assert(d0[j] == dedup(s)[j]);
                } else if j == d0.len() as int {
                    assert(d0[i] == dedup(s)[i]);
                } else {
                    assert(d0[i] == dedup(s)[i]);
                    assert(d0[j] == dedup(s)[j]);
                }
            }
        }
    }
}

/// A list without repetitions is its own deduplication.
pub proof fn lemma_dedup_unique(s: Seq<u32>)
    requires
        s.no_duplicates(),
    ensures
        dedup(s) == s,
    decreases s.len(),
{
    if s.len() > 0 {
        lemma_dedup_unique(s.drop_last());
        assert(!s.drop_last().contains(s.last())) by {
            if s.drop_last().contains(s.last()) {
                let i = choose|i: int| 0 <= i < s.drop_last().len() && s.drop_last()[i] == s.last();
                assert(s[i] == s[s.len() - 1]);
            }
        }
        assert(s.drop_last().push(s.last()) =~= s);
    }
}

/// A package with terminal-safe texts and repetition-free dependency lists.
pub open spec fn clean_pkg(p: PackageView) -> PackageView {
    PackageView {
        id: p.id,
        catalog: p.catalog,
        name: clean(p.name, false),
        version: clean(p.version, false),
        synopsis: clean(p.synopsis, false),
        description: clean(p.description, true),
        homepage: clean(p.homepage, false),
        licenses: p.licenses.map_values(|l: Seq<char>| clean(l, false)),
        file: clean(p.file, false),
        line: p.line,
        inputs: dedup(p.inputs),
        propagated: dedup(p.propagated),
        native: dedup(p.native),
    }
}

/// All typed relations of a package: inputs, then propagated, then native.
pub open spec fn typed_seq(p: PackageView) -> Seq<u32> {
    p.inputs + p.propagated + p.native
}

/// Ids of a list, each with the same kind.
pub open spec fn tagged(s: Seq<u32>, k: DepKind) -> Seq<(u32, DepKind)> {
    s.map_values(|x: u32| (x, k))
}

/// All typed relations of a package, in list order; an id may appear under
/// several kinds.
pub open spec fn typed_pairs(p: PackageView) -> Seq<(u32, DepKind)> {
    tagged(p.inputs, DepKind::Input) + tagged(p.propagated, DepKind::Propagated) + tagged(
        p.native,
        DepKind::Native,
    )
}

/// The ids of a list of relations.
pub open spec fn pair_ids(s: Seq<(u32, DepKind)>) -> Seq<u32> {
    s.map_values(|x: (u32, DepKind)| x.0)
}

/// The first relation of every id, in order.
pub open spec fn first_pairs(s: Seq<(u32, DepKind)>) -> Seq<(u32, DepKind)>
    decreases s.len(),
{
    if s.len() == 0 {
        Seq::empty()
    } else {
        let d = first_pairs(s.drop_last());
        if pair_ids(d).contains(s.last().0) {
            d
        } else {
            d.push(s.last())
        }
    }
}

/// The kinds under which a list of relations holds an id, in order.
pub open spec fn kinds_for(s: Seq<(u32, DepKind)>, id: u32) -> Seq<DepKind>
    decreases s.len(),
{
    if s.len() == 0 {
        Seq::empty()
    } else {
        let k = kinds_for(s.drop_last(), id);
        if s.last().0 == id {
            k.push(s.last().1)
        } else {
            k
        }
    }
}

fn push_tagged(out: &mut Vec<(u32, DepKind)>, ids: &[u32], k: DepKind)
    ensures
        final(out)@ == old(out)@ + tagged(ids@, k),
{
    let mut i: usize = 0;
    while i < ids.len()
        invariant
            i <= ids@.len(),
            out@ == old(out)@ + tagged(ids@.take(i as int), k),
        decreases ids@.len() - i,
    {
        out.push((ids[i], k));
        assert(tagged(ids@.take(i + 1), k) =~= tagged(ids@.take(i as int), k).push((ids@[i as int], k)));
        i += 1;
    }
    assert(ids@.take(ids@.len() as int) =~= ids@);
}

impl Package {
    /// All typed relations; the same object can appear under several kinds.
    pub fn typed_deps(&self) -> (r: Vec<(u32, DepKind)>)
        ensures
            r@ == typed_pairs(self@),
    {
        let mut out: Vec<(u32, DepKind)> = Vec::new();
        push_tagged(&mut out, self.inputs.as_slice(), DepKind::Input);
        push_tagged(&mut out, self.propagated.as_slice(), DepKind::Propagated);
        push_tagged(&mut out, self.native.as_slice(), DepKind::Native);
        assert(out@ =~= typed_pairs(self@));
        out
    }

    /// All direct dependencies with their edge kind, deduplicated across
    /// input kinds: a package listed under several kinds appears once, with
    /// its first occurrence.
    pub fn deps(&self) -> (r: Vec<(u32, DepKind)>)
        ensures
            r@ == first_pairs(typed_pairs(self@)),
    {
        let all = self.typed_deps();
        let mut out: Vec<(u32, DepKind)> = Vec::new();
        let mut ids: Vec<u32> = Vec::new();
        let mut i: usize = 0;
        while i < all.len()
            invariant
                i <= all@.len(),
                all@ == typed_pairs(self@),
                out@ == first_pairs(all@.take(i as int)),
                ids@ == pair_ids(out@),
            decreases all@.len() - i,
        {
            let x = all[i];
            assert(all@.take(i + 1).drop_last() =~= all@.take(i as int));
            if !ids_contain(ids.as_slice(), x.0) {
                out.push(x);
                ids.push(x.0);
                assert(ids@ =~= pair_ids(out@));
            }
            i += 1;
        }
        assert(all@.take(all@.len() as int) =~= all@);
        out
    }

    /// Number of distinct direct dependencies.
    pub fn dep_count(&self) -> (r: usize)
        ensures
            r == first_pairs(typed_pairs(self@)).len(),
    {
        self.deps().len()
    }

    /// Number of typed relations, counting an id once per kind it is listed
    /// under.
    pub fn relation_count(&self) -> (r: usize)
        requires
            self@.inputs.len() + self@.propagated.len() + self@.native.len() <= usize::MAX,
        ensures
            r == typed_pairs(self@).len(),
    {
        self.inputs.len() + self.propagated.len() + self.native.len()
    }

    /// The kinds under which this package lists `id`, in list order.
    pub fn dep_kinds(&self, id: u32) -> (r: Vec<DepKind>)
        ensures
            r@ == kinds_for(typed_pairs(self@), id),
    {
        let all = self.typed_deps();
        let mut out: Vec<DepKind> = Vec::new();
        let mut i: usize = 0;
        while i < all.len()
            invariant
                i <= all@.len(),
                all@ == typed_pairs(self@),
                out@ == kinds_for(all@.take(i as int), id),
            decreases all@.len() - i,
        {
            let x = all[i];
            assert(all@.take(i + 1).drop_last() =~= all@.take(i as int));
            if x.0 == id {
                out.push(x.1);
            }
            i += 1;
        }
        assert(all@.take(all@.len() as int) =~= all@);
        out
    }
}

/// Whether a list holds an id.
pub(crate) fn ids_contain(v: &[u32], x: u32) -> (r: bool)
    ensures
        r == v@.contains(x),
{
    let mut i: usize = 0;
    while i < v.len()
        invariant
            i <= v@.len(),
            forall|j: int| 0 <= j < i ==> v@[j] != x,
        decreases v@.len() - i,
    {
        if v[i] == x {
            return true;
        }
        i += 1;
    }
    false
}

/// The first occurrence of every id of a list, in order.
/// The position of an id is its first occurrence.
pub open spec fn first_at(s: Seq<u32>, i: int) -> bool {
    !s.take(i).contains(s[i])
}

/// The first occurrence of every id, in order. Sorting the ids with their
/// positions finds the first occurrences without comparing every pair.
pub(crate) fn dedup_ids(list: &[u32]) -> (r: Vec<u32>)
    ensures
        r@ == dedup(list@),
{
    let n = list.len();
    let mut tagged: Vec<(u32, usize)> = Vec::new();
    let mut t: usize = 0;
    while t < n
        invariant
            n == list@.len(),
            t <= n,
            tagged@.len() == t,
            forall|m: int| 0 <= m < t ==> #[trigger] tagged@[m] == (list@[m], m as usize),
        decreases n - t,
    {
        tagged.push((list[t], t));
        t += 1;
    }
    assert(tagged@.no_duplicates()) by {
        assert forall|a: int, b: int| 0 <= a < tagged@.len() && 0 <= b < tagged@.len() && a != b implies tagged@[a] != tagged@[b] by {
            assert(tagged@[a].1 == a as usize);
            assert(tagged@[b].1 == b as usize);
        }
    }
    let ghost lt = tag_order();
    let less = |a: (u32, usize), b: (u32, usize)| -> (r: bool)
        ensures
            r == tag_order()(a, b),
        { a.0 < b.0 || (a.0 == b.0 && a.1 < b.1) };
    let sorted = crate::order::sort_ids(&tagged, &less, Ghost(lt));
    let ghost sv = sorted@;
    proof {
        crate::order::lemma_sorted_no_dups(sv, lt);
        assert forall|q: int| 0 <= q < sv.len() implies (#[trigger] sv[q]).1 < n && sv[q] == (list@[sv[q].1 as int], sv[q].1) by {
            assert(sv.to_set().contains(sv[q]));
            assert(tagged@.to_set().contains(sv[q]));
            let m = choose|m: int| 0 <= m < tagged@.len() && tagged@[m] == sv[q];
        }
    }
    let mut keep: Vec<bool> = Vec::new();
    let mut z: usize = 0;
    while z < n
        invariant
            z <= n,
            keep@.len() == z,
        decreases n - z,
    {
        keep.push(false);
        z += 1;
    }
    let mut k: usize = 0;
    while k < n
        invariant
            n == list@.len(),
            sv == sorted@,
            sv.len() == n,
            lt == tag_order(),
            crate::order::strictly_sorted(sv, lt),
            sv.no_duplicates(),
            sv.to_set() == tagged@.to_set(),
            tagged@.len() == n,
            forall|m: int| 0 <= m < n ==> #[trigger] tagged@[m] == (list@[m], m as usize),
            forall|q: int| 0 <= q < sv.len() ==> (#[trigger] sv[q]).1 < n && sv[q] == (list@[sv[q].1 as int], sv[q].1),
            keep@.len() == n,
            k <= n,
            forall|q: int| 0 <= q < k ==> #[trigger] keep@[sv[q].1 as int] == first_at(list@, sv[q].1 as int),
        decreases n - k,
    {
        let (x, i) = sorted[k];
        let first = k == 0 || sorted[k - 1].0 != x;
        proof {
            assert(sv[k as int] == (x, i));
            if k > 0 && sorted@[k - 1].0 == x {
                let j = sv[k - 1].1;
                assert(lt(sv[k - 1], sv[k as int]));
                assert(list@.take(i as int)[j as int] == x);
            }
            if !(k > 0 && sorted@[k - 1].0 == x) && list@.take(i as int).contains(x) {
                let j = choose|j: int| 0 <= j < list@.take(i as int).len() && list@.take(i as int)[j] == x;
                assert(i < n);
                assert(0 <= j < tagged@.len());
                assert(list@[j] == x);
                assert(tagged@[j] == (x, j as usize));
                assert(tagged@.contains(tagged@[j]));
                assert(tagged@.to_set().contains(tagged@[j]));
                assert(sv.to_set().contains((x, j as usize)));
                let p = choose|p: int| 0 <= p < sv.len() && sv[p] == (x, j as usize);
                if p > k {
                    assert(lt(sv[k as int], sv[p]));
                }
                assert(p < k);
                if p < k - 1 {
                    assert(lt(sv[p], sv[k - 1]));
                    assert(lt(sv[k - 1], sv[k as int]));
                }
                assert(false);
            }
            assert(first == first_at(list@, i as int));
        }
        keep.set(i, first);
        proof {
            assert forall|q: int| 0 <= q < k + 1 implies #[trigger] keep@[sv[q].1 as int] == first_at(list@, sv[q].1 as int) by {
                if q < k {
                    assert(sv[q] != sv[k as int]);
                    assert(sv[q].1 != i);
                }
            }
        }
        k += 1;
    }
    proof {
        assert forall|i: int| 0 <= i < n implies #[trigger] keep@[i] == first_at(list@, i) by {
            assert(tagged@.to_set().contains(tagged@[i]));
            let q = choose|q: int| 0 <= q < sv.len() && sv[q] == tagged@[i];
            assert(sv[q].1 == i as usize);
        }
    }
    let mut out: Vec<u32> = Vec::new();
    let mut i: usize = 0;
    while i < n
        invariant
            n == list@.len(),
            keep@.len() == n,
            forall|j: int| 0 <= j < n ==> #[trigger] keep@[j] == first_at(list@, j),
            i <= n,
            out@ == dedup(list@.take(i as int)),
        decreases n - i,
    {
        let x = list[i];
        proof {
            assert(list@.take(i + 1).drop_last() =~= list@.take(i as int));
            assert(list@.take(i + 1).last() == x);
            lemma_dedup(list@.take(i as int));
            assert(dedup(list@.take(i as int)).contains(x) == list@.take(i as int).contains(x));
        }
        if keep[i] {
            out.push(x);
        }
        i += 1;
    }
    assert(list@.take(n as int) =~= list@);
    out
}

fn clean_strings(v: &Vec<String>) -> (r: Vec<String>)
    ensures
        strings_view(r@) == strings_view(v@).map_values(|l: Seq<char>| clean(l, false)),
{
    let mut out: Vec<String> = Vec::new();
    let mut i: usize = 0;
    while i < v.len()
        invariant
            i <= v@.len(),
            strings_view(out@) == strings_view(v@.take(i as int)).map_values(
                |l: Seq<char>| clean(l, false),
            ),
        decreases v@.len() - i,
    {
        let c = clean_text(v[i].as_str(), false);
        let ghost old_out = out@;
        out.push(c);
        assert(v@.take(i + 1) =~= v@.take(i as int).push(v@[i as int]));
        assert(strings_view(out@) =~= strings_view(old_out).push(c@));
        assert(strings_view(v@.take(i + 1)) =~= strings_view(v@.take(i as int)).push(v@[i as int]@));
        assert(strings_view(out@) =~= strings_view(v@.take(i + 1)).map_values(
            |l: Seq<char>| clean(l, false),
        ));
        i += 1;
    }
    assert(v@.take(v@.len() as int) =~= v@);
    out
}

/// The package with terminal-safe texts and repetition-free dependency lists.
pub(crate) fn clean_package(p: &Package) -> (r: Package)
    ensures
        r@ == clean_pkg(p@),
{
    let r = Package {
        id: p.id,
        catalog: p.catalog,
        name: clean_text(p.name.as_str(), false),
        version: clean_text(p.version.as_str(), false),
        synopsis: clean_text(p.synopsis.as_str(), false),
        description: clean_text(p.description.as_str(), true),
        homepage: clean_text(p.homepage.as_str(), false),
        licenses: clean_strings(&p.licenses),
        file: clean_text(p.file.as_str(), false),
        line: p.line,
        inputs: dedup_ids(p.inputs.as_slice()),
        propagated: dedup_ids(p.propagated.as_slice()),
        native: dedup_ids(p.native.as_slice()),
    };
    r
}

/// The full index. Immutable after construction.
#[derive(Debug)]
pub struct Index {
    pub packages: Vec<Package>,
    /// Reverse edges: the direct dependents of each package id, ascending.
    pub dependents: Vec<Vec<u32>>,
    /// Channel commit this index was generated against ("" if unknown).
    pub guix_commit: String,
    /// Epoch milliseconds at index generation.
    pub generated_ms: u64,
    /// Wall-clock time (ms) when this index was produced or loaded.
    pub built_ms: u64,
    pub diagnostics: Vec<IndexDiagnostic>,
    pub origin: GuixOrigin,
    /// Content token: lower-case hex SHA-256 of the persisted payload.
    pub snapshot: String,
}

pub ghost struct IndexView {
    pub packages: Seq<PackageView>,
    pub dependents: Seq<Seq<u32>>,
    pub guix_commit: Seq<char>,
    pub generated_ms: u64,
    pub built_ms: u64,
    pub diagnostics: Seq<DiagView>,
    pub origin: OriginView,
    pub snapshot: Seq<char>,
}

impl View for Index {
    type V = IndexView;

    open spec fn view(&self) -> IndexView {
        IndexView {
            packages: packages_view(self.packages@),
            dependents: self.dependents@.map_values(|d: Vec<u32>| d@),
            guix_commit: self.guix_commit@,
            generated_ms: self.generated_ms,
            built_ms: self.built_ms,
            diagnostics: diags_view(self.diagnostics@),
            origin: self.origin@,
            snapshot: self.snapshot@,
        }
    }
}


/// What every operation on an index relies on: ids are positions, and every
/// dependency and every dependent names a package of the index.
pub open spec fn index_wf(v: IndexView) -> bool {
    let n = v.packages.len();
    &&& n <= MAX_INDEX_ENTRIES
    &&& v.dependents.len() == n
    &&& forall|k: int| 0 <= k < n ==> (#[trigger] v.packages[k]).id == k
    &&& forall|k: int, m: int|
        0 <= k < n && 0 <= m < typed_seq(v.packages[k]).len() ==> (#[trigger] typed_seq(
            v.packages[k],
        )[m]) < n
    &&& forall|d: int, m: int|
        0 <= d < n && 0 <= m < v.dependents[d].len() ==> (#[trigger] v.dependents[d][m]) < n
    &&& forall|d: int, a: int, b: int|
        0 <= d < n && 0 <= a < b < v.dependents[d].len() ==> (#[trigger] v.dependents[d][a])
            < (#[trigger] v.dependents[d][b])
}

/// The position of the first package, from `k` on, with the given name and,
/// when `catalog_only`, in the catalog.
pub open spec fn find_named(pk: Seq<PackageView>, name: Seq<char>, catalog_only: bool, k: int) -> Option<
    int,
>
    decreases pk.len() - k,
{
    if k < 0 || k >= pk.len() {
        None
    } else if pk[k].name == name && (pk[k].catalog || !catalog_only) {
        Some(k)
    } else {
        find_named(pk, name, catalog_only, k + 1)
    }
}

/// The id a name stands for: the first catalog package with that name, else
/// the first package of any kind with it.
pub open spec fn name_lookup(pk: Seq<PackageView>, name: Seq<char>) -> Option<u32> {
    match find_named(pk, name, true, 0) {
        Some(k) => Some(pk[k].id),
        None => match find_named(pk, name, false, 0) {
            Some(k) => Some(pk[k].id),
            None => None,
        },
    }
}

/// Ids, in order, of the packages among the first `m` defined in `file`.
pub open spec fn module_upto(pk: Seq<PackageView>, file: Seq<char>, m: int) -> Seq<u32>
    decreases m,
{
    if m <= 0 {
        Seq::empty()
    } else {
        let s = module_upto(pk, file, m - 1);
        if pk[m - 1].file == file {
            s.push(pk[m - 1].id)
        } else {
            s
        }
    }
}

/// Packages defined in the same module file as `id`, itself included; none
/// when the id names no package or its file is unknown.
pub open spec fn module_group(pk: Seq<PackageView>, id: u32) -> Seq<u32> {
    if id >= pk.len() || pk[id as int].file.len() == 0 {
        Seq::empty()
    } else {
        module_upto(pk, pk[id as int].file, pk.len() as int)
    }
}

impl Index {
    pub open spec fn wf(&self) -> bool {
        index_wf(self@)
    }

    /// An index without diagnostics is complete.
    pub fn is_complete(&self) -> (r: bool)
        ensures
            r == (self@.diagnostics.len() == 0),
    {
        self.diagnostics.len() == 0
    }

    /// The content token of this index.
    pub fn snapshot_id(&self) -> (r: &str)
        ensures
            r@ == self@.snapshot,
    {
        self.snapshot.as_str()
    }

    pub fn len(&self) -> (r: usize)
        ensures
            r == self@.packages.len(),
    {
        self.packages.len()
    }

    pub fn is_empty(&self) -> (r: bool)
        ensures
            r == (self@.packages.len() == 0),
    {
        self.packages.len() == 0
    }

    /// Direct dependent count of a package.
    pub fn dependents_count(&self, id: u32) -> (r: usize)
        requires
            id < self@.dependents.len(),
        ensures
            r == self@.dependents[id as int].len(),
    {
        self.dependents[id as usize].len()
    }

    /// The id a name stands for: catalog entries win over closure-only
    /// variants, and among equals the lowest id wins.
    pub fn name_id(&self, name: &str) -> (r: Option<u32>)
        ensures
            r == name_lookup(self@.packages, name@),
    {
        let ghost pk = self@.packages;
        let mut fallback: Option<u32> = None;
        let mut k: usize = 0;
        while k < self.packages.len()
            invariant
                pk == self@.packages,
                k <= pk.len(),
                find_named(pk, name@, true, 0) == find_named(pk, name@, true, k as int),
                fallback is None ==> find_named(pk, name@, false, 0) == find_named(pk, name@, false, k as int),
                fallback is Some ==> find_named(pk, name@, false, 0) is Some && fallback == Some(pk[find_named(pk, name@, false, 0)->0].id),
            decreases pk.len() - k,
        {
            let p = &self.packages[k];
            assert(pk[k as int] == p@);
            if str_eq(p.name.as_str(), name) {
                if p.catalog {
                    return Some(p.id);
                }
                if fallback.is_none() {
                    fallback = Some(p.id);
                }
            }
            k += 1;
        }
        fallback
    }

    /// Packages defined in the same module file as `id`, including itself.
    pub fn module_neighbors(&self, id: u32) -> (r: Vec<u32>)
        ensures
            r@ == module_group(self@.packages, id),
    {
        let ghost pk = self@.packages;
        let mut out: Vec<u32> = Vec::new();
        if (id as usize) >= self.packages.len() {
            return out;
        }
        let file = self.packages[id as usize].file.as_str();
        if file.is_empty() {
            return out;
        }
        assert(file@ == pk[id as int].file);
        let mut m: usize = 0;
        while m < self.packages.len()
            invariant
                pk == self@.packages,
                id < pk.len(),
                file@ == pk[id as int].file,
                m <= pk.len(),
                out@ == module_upto(pk, file@, m as int),
            decreases pk.len() - m,
        {
            let p = &self.packages[m];
            assert(pk[m as int] == p@);
            if str_eq(p.file.as_str(), file) {
                out.push(p.id);
            }
            m += 1;
        }
        out
    }
}

/// A node reached by a breadth-first walk, tagged with its depth and the kind
/// of the link from its parent (always `None` on reverse walks).
#[derive(Debug, Clone, Copy, PartialEq, Eq)]
pub struct BfsNode {
    pub id: u32,
    pub depth: u8,
    pub kind: Option<DepKind>,
}

/// The state of a breadth-first walk: the nodes materialized so far, how
/// many were discovered, which ids were seen, the queue and its head, and
/// whether the materialization cap stopped the walk.
pub ghost struct Walk {
    pub out: Seq<BfsNode>,
    pub total: nat,
    pub visited: Seq<bool>,
    pub queue: Seq<(u32, u8, Option<DepKind>)>,
    pub head: nat,
    pub stopped: bool,
}

/// The neighbors a walk follows from `id`: its distinct dependencies with
/// their kinds, or on a reverse walk its dependents.
pub open spec fn walk_neighbors(v: IndexView, id: u32, reverse: bool) -> Seq<(u32, Option<DepKind>)> {
    if reverse {
        v.dependents[id as int].map_values(|d: u32| (d, None::<DepKind>))
    } else {
        first_pairs(typed_pairs(v.packages[id as int])).map_values(
            |x: (u32, DepKind)| (x.0, Some(x.1)),
        )
    }
}

/// Discover the unseen neighbors, in order, one depth below `depth`.
pub open spec fn walk_expand(w: Walk, nbrs: Seq<(u32, Option<DepKind>)>, depth: u8) -> Walk
    decreases nbrs.len(),
{
    if nbrs.len() == 0 {
        w
    } else {
        let w1 = walk_expand(w, nbrs.drop_last(), depth);
        let x = nbrs.last();
        if w1.visited[x.0 as int] {
            w1
        } else {
            Walk {
                visited: w1.visited.update(x.0 as int, true),
                total: w1.total + 1,
                queue: w1.queue.push((x.0, (depth + 1) as u8, x.1)),
                ..w1
            }
        }
    }
}

pub open spec fn walk_done(w: Walk) -> bool {
    w.stopped || w.head >= w.queue.len()
}

/// One step of the walk: take the next queued node, materialize it unless it
/// is the root (or stop when the cap is reached), and expand it unless it
/// lies at the depth limit.
pub open spec fn walk_step(v: IndexView, w: Walk, root: u32, max_depth: u8, cap: usize, reverse: bool) -> Walk {
    if walk_done(w) {
        w
    } else {
        let e = w.queue[w.head as int];
        let w0 = Walk { head: w.head + 1, ..w };
        if e.0 != root && w.out.len() >= cap {
            Walk { stopped: true, ..w0 }
        } else {
            let w1 = if e.0 != root {
                Walk { out: w0.out.push(BfsNode { id: e.0, depth: e.1, kind: e.2 }), ..w0 }
            } else {
                w0
            };
            if e.1 >= max_depth {
                w1
            } else {
                walk_expand(w1, walk_neighbors(v, e.0, reverse), e.1)
            }
        }
    }
}

pub open spec fn walk_start(v: IndexView, root: u32) -> Walk {
    Walk {
        out: Seq::empty(),
        total: 0,
        visited: Seq::new(v.packages.len(), |x: int| x == root),
        queue: seq![(root, 0u8, None::<DepKind>)],
        head: 0,
        stopped: false,
    }
}

pub open spec fn walk_after(v: IndexView, root: u32, max_depth: u8, cap: usize, reverse: bool, k: nat) -> Walk
    decreases k,
{
    if k == 0 {
        walk_start(v, root)
    } else {
        walk_step(v, walk_after(v, root, max_depth, cap, reverse, (k - 1) as nat), root, max_depth, cap, reverse)
    }
}

/// A bounded breadth-first walk from `root`: the nodes materialized (root
/// excluded, at most `cap`) and how many were discovered before the walk
/// ended. A root that names no package gives nothing.
pub open spec fn walk_result(v: IndexView, root: u32, max_depth: u8, cap: usize, reverse: bool) -> (Seq<BfsNode>, nat) {
    if root >= v.packages.len() {
        (Seq::empty(), 0)
    } else {
        let k = choose|k: nat| walk_done(walk_after(v, root, max_depth, cap, reverse, k));
        let w = walk_after(v, root, max_depth, cap, reverse, k);
        (w.out, w.total)
    }
}

proof fn lemma_walk_stays(v: IndexView, root: u32, max_depth: u8, cap: usize, reverse: bool, k: nat, j: nat)
    requires
        walk_done(walk_after(v, root, max_depth, cap, reverse, k)),
    ensures
        walk_after(v, root, max_depth, cap, reverse, k + j) == walk_after(v, root, max_depth, cap, reverse, k),
    decreases j,
{
    if j > 0 {
        lemma_walk_stays(v, root, max_depth, cap, reverse, k, (j - 1) as nat);
        assert(walk_after(v, root, max_depth, cap, reverse, k + j) == walk_step(
            v,
            walk_after(v, root, max_depth, cap, reverse, (k + j - 1) as nat),
            root,
            max_depth,
            cap,
            reverse,
        ));
    }
}

proof fn lemma_walk_result(v: IndexView, root: u32, max_depth: u8, cap: usize, reverse: bool, k: nat)
    requires
        root < v.packages.len(),
        walk_done(walk_after(v, root, max_depth, cap, reverse, k)),
    ensures
        walk_result(v, root, max_depth, cap, reverse) == (
            walk_after(v, root, max_depth, cap, reverse, k).out,
            walk_after(v, root, max_depth, cap, reverse, k).total,
        ),
{
    let c = choose|c: nat| walk_done(walk_after(v, root, max_depth, cap, reverse, c));
    if c <= k {
        lemma_walk_stays(v, root, max_depth, cap, reverse, c, (k - c) as nat);
    } else {
        lemma_walk_stays(v, root, max_depth, cap, reverse, k, (c - k) as nat);
    }
}

pub open spec fn walk_of(
    out: Seq<BfsNode>,
    total: usize,
    visited: Seq<bool>,
    queue: Seq<(u32, u8, Option<DepKind>)>,
    head: usize,
    stopped: bool,
) -> Walk {
    Walk { out, total: total as nat, visited, queue, head: head as nat, stopped }
}

/// The ids marked in a visited table.
pub open spec fn marked(vis: Seq<bool>) -> Set<int> {
    Set::new(|x: int| 0 <= x < vis.len() && vis[x])
}

proof fn lemma_first_pairs_from(s: Seq<(u32, DepKind)>)
    ensures
        forall|m: int| 0 <= m < first_pairs(s).len() ==> s.contains(#[trigger] first_pairs(s)[m]),
    decreases s.len(),
{
    if s.len() > 0 {
        lemma_first_pairs_from(s.drop_last());
        let d = first_pairs(s.drop_last());
        assert forall|m: int| 0 <= m < first_pairs(s).len() implies s.contains(#[trigger] first_pairs(s)[m]) by {
            if m < d.len() {
                assert(first_pairs(s)[m] == d[m]);
                assert(s.drop_last().contains(d[m]));
                let q = choose|q: int| 0 <= q < s.drop_last().len() && s.drop_last()[q] == d[m];
                assert(s[q] == d[m]);
            } else {
                assert(s[s.len() - 1] == first_pairs(s)[m]);
            }
        }
    }
}

pub proof fn lemma_pair_ids(p: PackageView)
    ensures
        pair_ids(typed_pairs(p)) == typed_seq(p),
{
    assert(pair_ids(typed_pairs(p)) =~= typed_seq(p));
}

impl Index {
    /// The neighbors a walk follows from `id`.
    fn walk_nbrs(&self, id: u32, reverse: bool) -> (r: Vec<(u32, Option<DepKind>)>)
        requires
            self.wf(),
            id < self@.packages.len(),
        ensures
            r@ == walk_neighbors(self@, id, reverse),
            forall|m: int| 0 <= m < r@.len() ==> (#[trigger] r@[m]).0 < self@.packages.len(),
    {
        let ghost v = self@;
        let ghost n = v.packages.len();
        let mut out: Vec<(u32, Option<DepKind>)> = Vec::new();
        if reverse {
            let ds = &self.dependents[id as usize];
            assert(ds@ == v.dependents[id as int]);
            let mut m: usize = 0;
            while m < ds.len()
                invariant
                    v == self@,
                    self.wf(),
                    id < n,
                    n == v.packages.len(),
                    ds@ == v.dependents[id as int],
                    m <= ds@.len(),
                    out@ == ds@.take(m as int).map_values(|d: u32| (d, None::<DepKind>)),
                    forall|q: int| 0 <= q < out@.len() ==> (#[trigger] out@[q]).0 < n,
                decreases ds@.len() - m,
            {
                assert(ds@[m as int] == v.dependents[id as int][m as int]);
                out.push((ds[m], None));
                assert(ds@.take(m + 1) =~= ds@.take(m as int).push(ds@[m as int]));
                assert(out@ =~= ds@.take(m + 1).map_values(|d: u32| (d, None::<DepKind>)));
                m += 1;
            }
            assert(ds@.take(ds@.len() as int) =~= ds@);
        } else {
            let p = &self.packages[id as usize];
            assert(p@ == v.packages[id as int]);
            let d = p.deps();
            proof {
                lemma_first_pairs_from(typed_pairs(p@));
                lemma_pair_ids(p@);
            }
            let mut m: usize = 0;
            while m < d.len()
                invariant
                    v == self@,
                    self.wf(),
                    id < n,
                    n == v.packages.len(),
                    p@ == v.packages[id as int],
                    d@ == first_pairs(typed_pairs(p@)),
                    forall|q: int| 0 <= q < d@.len() ==> typed_pairs(p@).contains(#[trigger] d@[q]),
                    pair_ids(typed_pairs(p@)) == typed_seq(p@),
                    m <= d@.len(),
                    out@ == d@.take(m as int).map_values(|x: (u32, DepKind)| (x.0, Some(x.1))),
                    forall|q: int| 0 <= q < out@.len() ==> (#[trigger] out@[q]).0 < n,
                decreases d@.len() - m,
            {
                let x = d[m];
                proof {
                    assert(typed_pairs(p@).contains(x));
                    let q = choose|q: int| 0 <= q < typed_pairs(p@).len() && typed_pairs(p@)[q] == x;
                    assert(pair_ids(typed_pairs(p@))[q] == x.0);
                    assert(typed_seq(v.packages[id as int])[q] == x.0);
                }
                out.push((x.0, Some(x.1)));
                assert(d@.take(m + 1) =~= d@.take(m as int).push(x));
                assert(out@ =~= d@.take(m + 1).map_values(|x: (u32, DepKind)| (x.0, Some(x.1))));
                m += 1;
            }
            assert(d@.take(d@.len() as int) =~= d@);
        }
        out
    }

    /// Bounded breadth-first walk from `root`; see `walk_result`.
    fn bfs(&self, root: u32, max_depth: u8, cap: usize, reverse: bool) -> (r: (Vec<BfsNode>, usize))
        requires
            self.wf(),
        ensures
            (r.0@, r.1 as nat) == walk_result(self@, root, max_depth, cap, reverse),
    {
        let ghost v = self@;
        let n = self.packages.len();
        let mut out: Vec<BfsNode> = Vec::new();
        if (root as usize) >= n {
            return (out, 0);
        }
        let mut visited: Vec<bool> = Vec::new();
        let mut x: usize = 0;
        while x < n
            invariant
                x <= n,
                visited@ == Seq::new(x as nat, |q: int| q == root),
            decreases n - x,
        {
            visited.push(x == root as usize);
            assert(visited@ =~= Seq::new((x + 1) as nat, |q: int| q == root));
            x += 1;
        }
        let mut queue: Vec<(u32, u8, Option<DepKind>)> = Vec::new();
        queue.push((root, 0, None));
        let mut total: usize = 0;
        let mut head: usize = 0;
        let mut stopped = false;
        let ghost mut k: nat = 0;
        proof {
            assert(queue@ =~= seq![(root, 0u8, None::<DepKind>)]);
            assert(marked(visited@) =~= set![root as int]);
            assert(out@ =~= Seq::<BfsNode>::empty());
            assert(visited@ =~= walk_start(v, root).visited);
            assert(walk_of(out@, total, visited@, queue@, head, stopped) == walk_start(v, root));
        }
        while head < queue.len() && !stopped
            invariant
                v == self@,
                self.wf(),
                n == v.packages.len(),
                root < n,
                visited@.len() == n,
                walk_of(out@, total, visited@, queue@, head, stopped) == walk_after(v, root, max_depth, cap, reverse, k),
                marked(visited@).finite(),
                marked(visited@).len() == queue@.len(),
                marked(visited@).subset_of(vstd::set_lib::set_int_range(0, n as int)),
                queue@.len() == total + 1,
                head <= queue@.len(),
                forall|q: int| 0 <= q < queue@.len() ==> (#[trigger] queue@[q]).0 < n,
            decreases n + 1 - queue@.len(), queue@.len() - head,
        {
            proof {
                vstd::set_lib::lemma_int_range(0, n as int);
                vstd::set_lib::lemma_len_subset(marked(visited@), vstd::set_lib::set_int_range(0, n as int));
            }
            let e = queue[head];
            let ghost w = walk_of(out@, total, visited@, queue@, head, stopped);
            head += 1;
            if e.0 != root && out.len() >= cap {
                stopped = true;
            } else {
                if e.0 != root {
                    out.push(BfsNode { id: e.0, depth: e.1, kind: e.2 });
                }
                if e.1 < max_depth {
                    let nbrs = self.walk_nbrs(e.0, reverse);
                    let ghost w1 = walk_of(out@, total, visited@, queue@, head, stopped);
                    let ghost q0 = queue@.len();
                    let mut m: usize = 0;
                    while m < nbrs.len()
                        invariant
                            v == self@,
                            n == v.packages.len(),
                            visited@.len() == n,
                            e.1 < max_depth,
                            forall|q: int| 0 <= q < nbrs@.len() ==> (#[trigger] nbrs@[q]).0 < n,
                            m <= nbrs@.len(),
                            walk_of(out@, total, visited@, queue@, head, stopped) == walk_expand(w1, nbrs@.take(m as int), e.1),
                            marked(visited@).finite(),
                            marked(visited@).len() == queue@.len(),
                            marked(visited@).subset_of(vstd::set_lib::set_int_range(0, n as int)),
                            queue@.len() == total + 1,
                            queue@.len() >= q0,
                            head <= queue@.len(),
                            forall|q: int| 0 <= q < queue@.len() ==> (#[trigger] queue@[q]).0 < n,
                        decreases nbrs@.len() - m,
                    {
                        let (d, kind) = nbrs[m];
                        assert(nbrs@.take(m + 1).drop_last() =~= nbrs@.take(m as int));
                        if !visited[d as usize] {
                            proof {
                                vstd::set_lib::lemma_int_range(0, n as int);
                                vstd::set_lib::lemma_len_subset(marked(visited@), vstd::set_lib::set_int_range(0, n as int));
                                assert(!marked(visited@).contains(d as int));
                                assert(marked(visited@.update(d as int, true)) =~= marked(visited@).insert(d as int));
                            }
                            visited.set(d as usize, true);
                            total += 1;
                            queue.push((d, e.1 + 1, kind));
                        }
                        m += 1;
                    }
                    assert(nbrs@.take(nbrs@.len() as int) =~= nbrs@);
                }
            }
            proof {
                assert(w == walk_after(v, root, max_depth, cap, reverse, k));
                k = k + 1;
                vstd::set_lib::lemma_int_range(0, n as int);
                vstd::set_lib::lemma_len_subset(marked(visited@), vstd::set_lib::set_int_range(0, n as int));
            }
        }
        proof {
            lemma_walk_result(v, root, max_depth, cap, reverse, k);
        }
        (out, total)
    }

    /// Bounded breadth-first walk over dependencies; the root is excluded
    /// from the result and the count reports every node discovered before
    /// the cap stopped the walk.
    pub fn deps_bfs(&self, root: u32, max_depth: u8, cap: usize) -> (r: (Vec<BfsNode>, usize))
        requires
            self.wf(),
        ensures
            (r.0@, r.1 as nat) == walk_result(self@, root, max_depth, cap, false),
    {
        self.bfs(root, max_depth, cap, false)
    }

    /// Bounded breadth-first walk over dependents.
    pub fn dependents_bfs(&self, root: u32, max_depth: u8, cap: usize) -> (r: (Vec<BfsNode>, usize))
        requires
            self.wf(),
        ensures
            (r.0@, r.1 as nat) == walk_result(self@, root, max_depth, cap, true),
    {
        self.bfs(root, max_depth, cap, true)
    }
}

/// The node a queued walk entry becomes.
pub open spec fn node_of(e: (u32, u8, Option<DepKind>)) -> BfsNode {
    BfsNode { id: e.0, depth: e.1, kind: e.2 }
}

/// What holds of a walk at every step: the queue starts with the root and
/// holds distinct, visited packages one to `max_depth` links away, and the
/// output lists the queued entries after the root, in order, up to `cap`.
pub open spec fn walk_inv(v: IndexView, root: u32, max_depth: u8, cap: usize, w: Walk) -> bool {
    let n = v.packages.len();
    &&& w.visited.len() == n
    &&& w.queue.len() >= 1
    &&& w.queue[0] == (root, 0u8, None::<DepKind>)
    &&& forall|i: int|
        0 <= i < w.queue.len() ==> (#[trigger] w.queue[i]).0 < n && w.visited[w.queue[i].0 as int]
    &&& forall|i: int, j: int|
        0 <= i < j < w.queue.len() ==> (#[trigger] w.queue[i]).0 != (#[trigger] w.queue[j]).0
    &&& forall|i: int| 1 <= i < w.queue.len() ==> 1 <= (#[trigger] w.queue[i]).1 <= max_depth
    &&& w.head <= w.queue.len()
    &&& w.out.len() <= cap
    &&& w.out.len() + 1 <= w.queue.len()
    &&& forall|i: int| 0 <= i < w.out.len() ==> #[trigger] w.out[i] == node_of(w.queue[i + 1])
    &&& !w.stopped ==> w.out.len() == (if w.head == 0 {
        0
    } else {
        w.head - 1
    })
    &&& w.stopped ==> w.head >= 1 && w.out.len() + 1 <= w.head
}

proof fn lemma_walk_neighbors_in_range(v: IndexView, id: u32, reverse: bool)
    requires
        index_wf(v),
        id < v.packages.len(),
    ensures
        forall|m: int|
            0 <= m < walk_neighbors(v, id, reverse).len() ==> (#[trigger] walk_neighbors(v, id, reverse)[m]).0
                < v.packages.len(),
{
    let nb = walk_neighbors(v, id, reverse);
    if !reverse {
        let tp = typed_pairs(v.packages[id as int]);
        lemma_first_pairs_from(tp);
        lemma_pair_ids(v.packages[id as int]);
        assert forall|m: int| 0 <= m < nb.len() implies (#[trigger] nb[m]).0 < v.packages.len() by {
            let x = first_pairs(tp)[m];
            assert(tp.contains(x));
            let q = choose|q: int| 0 <= q < tp.len() && tp[q] == x;
            assert(pair_ids(tp)[q] == x.0);
            assert(typed_seq(v.packages[id as int])[q] == x.0);
        }
    }
}

proof fn lemma_walk_expand_inv(
    v: IndexView,
    root: u32,
    max_depth: u8,
    cap: usize,
    w: Walk,
    nbrs: Seq<(u32, Option<DepKind>)>,
    depth: u8,
)
    requires
        walk_inv(v, root, max_depth, cap, w),
        depth < max_depth,
        forall|m: int| 0 <= m < nbrs.len() ==> (#[trigger] nbrs[m]).0 < v.packages.len(),
    ensures
        walk_inv(v, root, max_depth, cap, walk_expand(w, nbrs, depth)),
        walk_expand(w, nbrs, depth).out == w.out,
        walk_expand(w, nbrs, depth).head == w.head,
        walk_expand(w, nbrs, depth).stopped == w.stopped,
        walk_expand(w, nbrs, depth).queue.len() >= w.queue.len(),
        forall|i: int| 0 <= i < w.queue.len() ==> #[trigger] walk_expand(w, nbrs, depth).queue[i] == w.queue[i],
    decreases nbrs.len(),
{
    if nbrs.len() > 0 {
        let d = nbrs.drop_last();
        assert forall|m: int| 0 <= m < d.len() implies (#[trigger] d[m]).0 < v.packages.len() by {
            assert(d[m] == nbrs[m]);
        }
        lemma_walk_expand_inv(v, root, max_depth, cap, w, d, depth);
        let w1 = walk_expand(w, d, depth);
        let x = nbrs.last();
        assert(x == nbrs[nbrs.len() - 1]);
        if !w1.visited[x.0 as int] {
            let w2 = walk_expand(w, nbrs, depth);
            let e = (x.0, (depth + 1) as u8, x.1);
            assert(w2.queue == w1.queue.push(e));
            assert forall|i: int| 0 <= i < w2.queue.len() implies (#[trigger] w2.queue[i]).0
                < v.packages.len() && w2.visited[w2.queue[i].0 as int] by {
                if i < w1.queue.len() {
                    assert(w2.queue[i] == w1.queue[i]);
                }
            }
            assert forall|i: int, j: int| 0 <= i < j < w2.queue.len() implies (#[trigger] w2.queue[i]).0
                != (#[trigger] w2.queue[j]).0 by {
                if j == w1.queue.len() {
                    assert(w2.queue[i] == w1.queue[i]);
                    assert(w1.visited[w1.queue[i].0 as int]);
                } else {
                    assert(w2.queue[i] == w1.queue[i] && w2.queue[j] == w1.queue[j]);
                }
            }
            assert forall|i: int| 1 <= i < w2.queue.len() implies 1 <= (#[trigger] w2.queue[i]).1
                <= max_depth by {
                if i < w1.queue.len() {
                    assert(w2.queue[i] == w1.queue[i]);
                }
            }
            assert forall|i: int| 0 <= i < w2.out.len() implies #[trigger] w2.out[i] == node_of(
                w2.queue[i + 1],
            ) by {
                assert(w2.queue[i + 1] == w1.queue[i + 1]);
            }
        }
    }
}

proof fn lemma_walk_inv_after(v: IndexView, root: u32, max_depth: u8, cap: usize, reverse: bool, k: nat)
    requires
        index_wf(v),
        root < v.packages.len(),
    ensures
        walk_inv(v, root, max_depth, cap, walk_after(v, root, max_depth, cap, reverse, k)),
    decreases k,
{
    if k == 0 {
        let w = walk_start(v, root);
        assert(w.queue[0] == (root, 0u8, None::<DepKind>));
    } else {
        lemma_walk_inv_after(v, root, max_depth, cap, reverse, (k - 1) as nat);
        let w = walk_after(v, root, max_depth, cap, reverse, (k - 1) as nat);
        if !walk_done(w) {
            let e = w.queue[w.head as int];
            let w0 = Walk { head: w.head + 1, ..w };
            if w.head >= 1 {
                assert(e.0 != root) by {
                    assert(w.queue[0].0 != w.queue[w.head as int].0);
                }
            }
            if e.0 != root && w.out.len() >= cap {
            } else {
                let w1 = if e.0 != root {
                    Walk { out: w0.out.push(node_of(e)), ..w0 }
                } else {
                    w0
                };
                assert(walk_inv(v, root, max_depth, cap, w1)) by {
                    if e.0 != root {
                        assert forall|i: int| 0 <= i < w1.out.len() implies #[trigger] w1.out[i]
                            == node_of(w1.queue[i + 1]) by {
                            if i < w.out.len() {
                                assert(w1.out[i] == w.out[i]);
                            }
                        }
                    }
                }
                if e.1 < max_depth {
                    lemma_walk_neighbors_in_range(v, e.0, reverse);
                    lemma_walk_expand_inv(v, root, max_depth, cap, w1, walk_neighbors(v, e.0, reverse), e.1);
                }
            }
        }
    }
}

/// A bounded walk lists each package at most once and never the root, at
/// most `cap` of them, each one to `max_depth` links away.
pub proof fn law_walk_distinct(v: IndexView, root: u32, max_depth: u8, cap: usize, reverse: bool)
    requires
        index_wf(v),
    ensures
        walk_result(v, root, max_depth, cap, reverse).0.len() <= cap,
        forall|i: int, j: int|
            0 <= i < j < walk_result(v, root, max_depth, cap, reverse).0.len() ==> (#[trigger] walk_result(
                v,
                root,
                max_depth,
                cap,
                reverse,
            ).0[i]).id != (#[trigger] walk_result(v, root, max_depth, cap, reverse).0[j]).id,
        forall|i: int|
            0 <= i < walk_result(v, root, max_depth, cap, reverse).0.len() ==> {
                let x = #[trigger] walk_result(v, root, max_depth, cap, reverse).0[i];
                x.id != root && x.id < v.packages.len() && 1 <= x.depth <= max_depth
            },
{
    if root < v.packages.len() {
        let k = choose|k: nat| walk_done(walk_after(v, root, max_depth, cap, reverse, k));
        lemma_walk_inv_after(v, root, max_depth, cap, reverse, k);
        let w = walk_after(v, root, max_depth, cap, reverse, k);
        let out = w.out;
        assert(walk_result(v, root, max_depth, cap, reverse).0 == out);
        assert forall|i: int, j: int| 0 <= i < j < out.len() implies (#[trigger] out[i]).id != (
        #[trigger] out[j]).id by {
            assert(out[i] == node_of(w.queue[i + 1]));
            assert(out[j] == node_of(w.queue[j + 1]));
        }
        assert forall|i: int| 0 <= i < out.len() implies {
            let x = #[trigger] out[i];
            x.id != root && x.id < v.packages.len() && 1 <= x.depth <= max_depth
        } by {
            assert(out[i] == node_of(w.queue[i + 1]));
            assert(w.queue[0].0 != w.queue[i + 1].0);
        }
    }
}

/// A walk may step from `a` to `b`: `b` is among the neighbors it follows
/// out of `a`.
pub open spec fn walk_hop(v: IndexView, reverse: bool, a: u32, b: u32) -> bool {
    exists|q: int| 0 <= q < walk_neighbors(v, a, reverse).len() && (#[trigger] walk_neighbors(v, a, reverse)[q]).0 == b
}

/// Some sequence of `d` walk steps leads from `root` to `id`.
pub open spec fn walk_reaches_in(v: IndexView, root: u32, reverse: bool, id: u32, d: nat) -> bool {
    exists|p: Seq<u32>|
        p.len() == d + 1 && p[0] == root && p.last() == id && (forall|i: int|
            0 <= i < d ==> #[trigger] walk_hop(v, reverse, p[i], p[i + 1]))
}

proof fn lemma_walk_reaches_step(v: IndexView, root: u32, reverse: bool, a: u32, b: u32, d: nat)
    requires
        walk_reaches_in(v, root, reverse, a, d),
        walk_hop(v, reverse, a, b),
    ensures
        walk_reaches_in(v, root, reverse, b, d + 1),
{
    let p = choose|p: Seq<u32>|
        p.len() == d + 1 && p[0] == root && p.last() == a && (forall|i: int|
            0 <= i < d ==> #[trigger] walk_hop(v, reverse, p[i], p[i + 1]));
    let p2 = p.push(b);
    assert forall|i: int| 0 <= i < d + 1 implies #[trigger] walk_hop(v, reverse, p2[i], p2[i + 1]) by {
        if i < d {
            assert(p2[i] == p[i] && p2[i + 1] == p[i + 1]);
        } else {
            assert(p2[i] == a && p2[i + 1] == b);
        }
    }
    assert(p2.len() == d + 2 && p2[0] == root && p2.last() == b);
}

/// What a bounded walk keeps besides `walk_inv`: every visited id is
/// queued, the count is the queued nodes after the root, depths never
/// decrease along the queue and none is more than one deeper than a node
/// not yet taken, each queued node is as many steps from the root as its
/// depth, and, until the cap stops the walk, every step out of a taken node
/// below the depth limit leads to a queued node at most one deeper.
spec fn walk_bfs(v: IndexView, root: u32, max_depth: u8, cap: usize, reverse: bool, w: Walk) -> bool {
    &&& forall|x: int| 0 <= x < v.packages.len() && #[trigger] w.visited[x] ==> exists|p: int|
        0 <= p < w.queue.len() && w.queue[p].0 == x
    &&& w.total + 1 == w.queue.len()
    &&& forall|i: int, j: int| 0 <= i < j < w.queue.len() ==> (#[trigger] w.queue[i]).1 <= (#[trigger] w.queue[j]).1
    &&& forall|i: int, j: int|
        w.head <= i < w.queue.len() && 0 <= j < w.queue.len() ==> (#[trigger] w.queue[j]).1 <= (#[trigger] w.queue[i]).1 + 1
    &&& forall|p: int| 0 <= p < w.queue.len() ==> walk_reaches_in(v, root, reverse, (#[trigger] w.queue[p]).0, w.queue[p].1 as nat)
    &&& w.stopped ==> w.out.len() + 2 == w.head && w.out.len() >= cap
    &&& forall|j: int, b: u32|
        0 <= j < expanded_end(w) && w.queue[j].1 < max_depth && #[trigger] walk_hop(v, reverse, w.queue[j].0, b)
            ==> exists|p: int| 0 <= p < w.queue.len() && w.queue[p].0 == b && w.queue[p].1 <= w.queue[j].1 + 1
}

/// The queued nodes before this position have been expanded: all taken
/// ones, but the one the cap stopped at.
spec fn expanded_end(w: Walk) -> int {
    if w.stopped {
        w.head - 1
    } else {
        w.head as int
    }
}

proof fn lemma_walk_expand_bfs(
    v: IndexView,
    root: u32,
    max_depth: u8,
    cap: usize,
    reverse: bool,
    w: Walk,
    id: u32,
    nbrs: Seq<(u32, Option<DepKind>)>,
    d: u8,
)
    requires
        walk_inv(v, root, max_depth, cap, w),
        d < max_depth,
        nbrs == walk_neighbors(v, id, reverse),
        walk_reaches_in(v, root, reverse, id, d as nat),
        forall|x: int| 0 <= x < v.packages.len() && #[trigger] w.visited[x] ==> exists|p: int|
            0 <= p < w.queue.len() && w.queue[p].0 == x,
        w.total + 1 == w.queue.len(),
        forall|i: int, j: int| 0 <= i < j < w.queue.len() ==> (#[trigger] w.queue[i]).1 <= (#[trigger] w.queue[j]).1,
        forall|p: int| 0 <= p < w.queue.len() ==> walk_reaches_in(v, root, reverse, (#[trigger] w.queue[p]).0, w.queue[p].1 as nat),
        forall|j: int| 0 <= j < w.queue.len() ==> (#[trigger] w.queue[j]).1 <= d + 1,
        forall|i: int| w.head <= i < w.queue.len() ==> d <= (#[trigger] w.queue[i]).1,
        forall|m: int| 0 <= m < nbrs.len() ==> (#[trigger] nbrs[m]).0 < v.packages.len(),
    ensures
        ({
            let w2 = walk_expand(w, nbrs.take(nbrs.len() as int), d);
            &&& forall|x: int| 0 <= x < v.packages.len() && #[trigger] w2.visited[x] ==> exists|p: int|
                0 <= p < w2.queue.len() && w2.queue[p].0 == x
            &&& w2.total + 1 == w2.queue.len()
            &&& forall|i: int, j: int| 0 <= i < j < w2.queue.len() ==> (#[trigger] w2.queue[i]).1 <= (#[trigger] w2.queue[j]).1
            &&& forall|p: int| 0 <= p < w2.queue.len() ==> walk_reaches_in(v, root, reverse, (#[trigger] w2.queue[p]).0, w2.queue[p].1 as nat)
            &&& forall|j: int| 0 <= j < w2.queue.len() ==> (#[trigger] w2.queue[j]).1 <= d + 1
            &&& forall|i: int| w2.head <= i < w2.queue.len() ==> d <= (#[trigger] w2.queue[i]).1
            &&& forall|q: int| 0 <= q < nbrs.len() ==> exists|p: int|
                0 <= p < w2.queue.len() && w2.queue[p].0 == (#[trigger] nbrs[q]).0 && w2.queue[p].1 <= d + 1
        }),
{
    lemma_walk_expand_prefix(v, root, max_depth, cap, reverse, w, id, nbrs, d, nbrs.len() as int);
}

proof fn lemma_walk_expand_prefix(
    v: IndexView,
    root: u32,
    max_depth: u8,
    cap: usize,
    reverse: bool,
    w: Walk,
    id: u32,
    nbrs: Seq<(u32, Option<DepKind>)>,
    d: u8,
    k: int,
)
    requires
        0 <= k <= nbrs.len(),
        walk_inv(v, root, max_depth, cap, w),
        d < max_depth,
        nbrs == walk_neighbors(v, id, reverse),
        walk_reaches_in(v, root, reverse, id, d as nat),
        forall|x: int| 0 <= x < v.packages.len() && #[trigger] w.visited[x] ==> exists|p: int|
            0 <= p < w.queue.len() && w.queue[p].0 == x,
        w.total + 1 == w.queue.len(),
        forall|i: int, j: int| 0 <= i < j < w.queue.len() ==> (#[trigger] w.queue[i]).1 <= (#[trigger] w.queue[j]).1,
        forall|p: int| 0 <= p < w.queue.len() ==> walk_reaches_in(v, root, reverse, (#[trigger] w.queue[p]).0, w.queue[p].1 as nat),
        forall|j: int| 0 <= j < w.queue.len() ==> (#[trigger] w.queue[j]).1 <= d + 1,
        forall|i: int| w.head <= i < w.queue.len() ==> d <= (#[trigger] w.queue[i]).1,
        forall|m: int| 0 <= m < nbrs.len() ==> (#[trigger] nbrs[m]).0 < v.packages.len(),
    ensures
        ({
            let w2 = walk_expand(w, nbrs.take(k), d);
            &&& walk_inv(v, root, max_depth, cap, w2)
            &&& w2.head == w.head
            &&& forall|x: int| 0 <= x < v.packages.len() && #[trigger] w2.visited[x] ==> exists|p: int|
                0 <= p < w2.queue.len() && w2.queue[p].0 == x
            &&& w2.total + 1 == w2.queue.len()
            &&& forall|i: int, j: int| 0 <= i < j < w2.queue.len() ==> (#[trigger] w2.queue[i]).1 <= (#[trigger] w2.queue[j]).1
            &&& forall|p: int| 0 <= p < w2.queue.len() ==> walk_reaches_in(v, root, reverse, (#[trigger] w2.queue[p]).0, w2.queue[p].1 as nat)
            &&& forall|j: int| 0 <= j < w2.queue.len() ==> (#[trigger] w2.queue[j]).1 <= d + 1
            &&& forall|i: int| w2.head <= i < w2.queue.len() ==> d <= (#[trigger] w2.queue[i]).1
            &&& forall|q: int| 0 <= q < k ==> exists|p: int|
                0 <= p < w2.queue.len() && w2.queue[p].0 == (#[trigger] nbrs[q]).0 && w2.queue[p].1 <= d + 1
        }),
    decreases k,
{
    let nk = nbrs.take(k);
    assert forall|m: int| 0 <= m < nk.len() implies (#[trigger] nk[m]).0 < v.packages.len() by {
        assert(nk[m] == nbrs[m]);
    }
    lemma_walk_expand_inv(v, root, max_depth, cap, w, nk, d);
    if k > 0 {
        lemma_walk_expand_prefix(v, root, max_depth, cap, reverse, w, id, nbrs, d, k - 1);
        let w1 = walk_expand(w, nbrs.take(k - 1), d);
        assert(nk.drop_last() =~= nbrs.take(k - 1));
        let x = nbrs[k - 1];
        assert(nk.last() == x);
        let w2 = walk_expand(w, nk, d);
        lemma_walk_expand_inv(v, root, max_depth, cap, w, nbrs.take(k - 1), d);
        assert(walk_hop(v, reverse, id, x.0)) by {
            assert(walk_neighbors(v, id, reverse)[k - 1].0 == x.0);
        }
        if !w1.visited[x.0 as int] {
            let last = w1.queue.len() as int;
            assert(w2.queue == w1.queue.push((x.0, (d + 1) as u8, x.1)));
            lemma_walk_reaches_step(v, root, reverse, id, x.0, d as nat);
            assert forall|y: int| 0 <= y < v.packages.len() && #[trigger] w2.visited[y] implies exists|p: int|
                0 <= p < w2.queue.len() && w2.queue[p].0 == y by {
                if y == x.0 as int {
                    assert(w2.queue[last].0 == y);
                } else {
                    assert(w1.visited[y]);
                    let p = choose|p: int| 0 <= p < w1.queue.len() && w1.queue[p].0 == y;
                    assert(w2.queue[p] == w1.queue[p]);
                }
            }
            assert forall|i: int, j: int| 0 <= i < j < w2.queue.len() implies (#[trigger] w2.queue[i]).1 <= (#[trigger] w2.queue[j]).1 by {
                assert(w2.queue[i] == w1.queue[i]);
                if j < last {
                    assert(w2.queue[j] == w1.queue[j]);
                }
            }
            assert forall|p: int| 0 <= p < w2.queue.len() implies walk_reaches_in(v, root, reverse, (#[trigger] w2.queue[p]).0, w2.queue[p].1 as nat) by {
                if p < last {
                    assert(w2.queue[p] == w1.queue[p]);
                }
            }
            assert forall|j: int| 0 <= j < w2.queue.len() implies (#[trigger] w2.queue[j]).1 <= d + 1 by {
                if j < last {
                    assert(w2.queue[j] == w1.queue[j]);
                }
            }
            assert forall|i: int| w2.head <= i < w2.queue.len() implies d <= (#[trigger] w2.queue[i]).1 by {
                if i < last {
                    assert(w2.queue[i] == w1.queue[i]);
                }
            }
            assert forall|q: int| 0 <= q < k implies exists|p: int|
                0 <= p < w2.queue.len() && w2.queue[p].0 == (#[trigger] nbrs[q]).0 && w2.queue[p].1 <= d + 1 by {
                if q < k - 1 {
                    let p = choose|p: int| 0 <= p < w1.queue.len() && w1.queue[p].0 == nbrs[q].0 && w1.queue[p].1 <= d + 1;
                    assert(w2.queue[p] == w1.queue[p]);
                } else {
                    assert(w2.queue[last].0 == nbrs[q].0);
                }
            }
        } else {
            assert(w2 == w1);
            assert forall|q: int| 0 <= q < k implies exists|p: int|
                0 <= p < w2.queue.len() && w2.queue[p].0 == (#[trigger] nbrs[q]).0 && w2.queue[p].1 <= d + 1 by {
                if q == k - 1 {
                    let p = choose|p: int| 0 <= p < w1.queue.len() && w1.queue[p].0 == x.0 as int;
                    assert(w1.queue[p].1 <= d + 1);
                }
            }
        }
    } else {
        assert(nk =~= Seq::<(u32, Option<DepKind>)>::empty());
        assert(walk_expand(w, nk, d) == w);
    }
}

proof fn lemma_walk_bfs_after(v: IndexView, root: u32, max_depth: u8, cap: usize, reverse: bool, k: nat)
    requires
        index_wf(v),
        root < v.packages.len(),
    ensures
        walk_inv(v, root, max_depth, cap, walk_after(v, root, max_depth, cap, reverse, k)),
        walk_bfs(v, root, max_depth, cap, reverse, walk_after(v, root, max_depth, cap, reverse, k)),
        walk_done(walk_after(v, root, max_depth, cap, reverse, k)) || walk_after(v, root, max_depth, cap, reverse, k).head == k,
    decreases k,
{
    lemma_walk_inv_after(v, root, max_depth, cap, reverse, k);
    if k == 0 {
        let w = walk_start(v, root);
        assert(w.queue[0] == (root, 0u8, None::<DepKind>));
        assert forall|x: int| 0 <= x < v.packages.len() && #[trigger] w.visited[x] implies exists|p: int|
            0 <= p < w.queue.len() && w.queue[p].0 == x by {
            assert(w.queue[0].0 == x);
        }
        let p0 = seq![root];
        assert(p0.len() == 1 && p0[0] == root && p0.last() == root);
        assert(walk_reaches_in(v, root, reverse, root, 0));
    } else {
        lemma_walk_bfs_after(v, root, max_depth, cap, reverse, (k - 1) as nat);
        let w = walk_after(v, root, max_depth, cap, reverse, (k - 1) as nat);
        lemma_walk_bfs_step(v, root, max_depth, cap, reverse, w);
    }
}

#[verifier::spinoff_prover]
#[verifier::rlimit(60)]
proof fn lemma_walk_bfs_step(v: IndexView, root: u32, max_depth: u8, cap: usize, reverse: bool, w: Walk)
    requires
        index_wf(v),
        root < v.packages.len(),
        walk_inv(v, root, max_depth, cap, w),
        walk_bfs(v, root, max_depth, cap, reverse, w),
    ensures
        walk_bfs(v, root, max_depth, cap, reverse, walk_step(v, w, root, max_depth, cap, reverse)),
        !walk_done(w) ==> walk_step(v, w, root, max_depth, cap, reverse).head == w.head + 1,
{
    let w2 = walk_step(v, w, root, max_depth, cap, reverse);
    if !walk_done(w) {
        let h = w.head as int;
        let e = w.queue[h];
        let w0 = Walk { head: w.head + 1, ..w };
        if h >= 1 {
            assert(w.queue[0].0 != w.queue[h].0);
        }
        if e.0 != root && w.out.len() >= cap {
            assert(w2 == Walk { stopped: true, ..w0 });
            assert(h >= 1);
            assert(w2.queue == w.queue && w2.visited == w.visited && w2.total == w.total);
            assert(!w.stopped);
            assert(w.out.len() == h - 1);
            assert(expanded_end(w2) == expanded_end(w));
            assert forall|i: int, j: int| w2.head <= i < w2.queue.len() && 0 <= j < w2.queue.len() implies (
            #[trigger] w2.queue[j]).1 <= (#[trigger] w2.queue[i]).1 + 1 by {
                assert(w.queue[j].1 <= w.queue[i].1 + 1);
            }
        } else {
            let w1 = if e.0 != root {
                Walk { out: w0.out.push(node_of(e)), ..w0 }
            } else {
                w0
            };
            if e.1 >= max_depth {
                assert(w2 == w1);
                assert(w2.queue == w.queue && w2.visited == w.visited && w2.total == w.total);
                assert(!w.stopped && !w2.stopped);
                assert(expanded_end(w2) == h + 1);
                assert forall|i: int, j: int| w2.head <= i < w2.queue.len() && 0 <= j < w2.queue.len() implies (
                #[trigger] w2.queue[j]).1 <= (#[trigger] w2.queue[i]).1 + 1 by {
                    assert(w.queue[j].1 <= w.queue[i].1 + 1);
                }
                assert forall|j: int, b: u32|
                    0 <= j < expanded_end(w2) && w2.queue[j].1 < max_depth && #[trigger] walk_hop(v, reverse, w2.queue[j].0, b)
                        implies exists|p: int| 0 <= p < w2.queue.len() && w2.queue[p].0 == b && w2.queue[p].1 <= w2.queue[j].1 + 1 by {
                    assert(j < h);
                }
            } else {
                lemma_walk_bfs_expand_step(v, root, max_depth, cap, reverse, w, w1);
            }
        }
    }
}

#[verifier::spinoff_prover]
#[verifier::rlimit(60)]
proof fn lemma_walk_bfs_expand_step(v: IndexView, root: u32, max_depth: u8, cap: usize, reverse: bool, w: Walk, w1: Walk)
    requires
        index_wf(v),
        root < v.packages.len(),
        walk_inv(v, root, max_depth, cap, w),
        walk_bfs(v, root, max_depth, cap, reverse, w),
        !walk_done(w),
        w.queue[w.head as int].1 < max_depth,
        !(w.queue[w.head as int].0 != root && w.out.len() >= cap),
        w1 == (if w.queue[w.head as int].0 != root {
            Walk { out: w.out.push(node_of(w.queue[w.head as int])), head: w.head + 1, ..w }
        } else {
            Walk { head: w.head + 1, ..w }
        }),
    ensures
        walk_bfs(v, root, max_depth, cap, reverse, walk_step(v, w, root, max_depth, cap, reverse)),
        walk_step(v, w, root, max_depth, cap, reverse).head == w.head + 1,
{
    let h = w.head as int;
    let e = w.queue[h];
    let w2 = walk_step(v, w, root, max_depth, cap, reverse);
    if h >= 1 {
        assert(w.queue[0].0 != w.queue[h].0);
    }
    assert(walk_inv(v, root, max_depth, cap, w1)) by {
        if e.0 != root {
            assert forall|i: int| 0 <= i < w1.out.len() implies #[trigger] w1.out[i]
                == node_of(w1.queue[i + 1]) by {
                if i < w.out.len() {
                    assert(w1.out[i] == w.out[i]);
                }
            }
        }
    }
    let d = e.1;
    let nbrs = walk_neighbors(v, e.0, reverse);
    lemma_walk_neighbors_in_range(v, e.0, reverse);
    assert forall|j: int| 0 <= j < w1.queue.len() implies (#[trigger] w1.queue[j]).1 <= d + 1 by {
        assert(w.queue[j].1 <= w.queue[h].1 + 1);
    }
    assert forall|i: int| w1.head <= i < w1.queue.len() implies d <= (#[trigger] w1.queue[i]).1 by {
        assert(w.queue[h].1 <= w.queue[i].1);
    }
    assert(walk_reaches_in(v, root, reverse, w1.queue[h].0, w1.queue[h].1 as nat));
    lemma_walk_expand_prefix(v, root, max_depth, cap, reverse, w1, e.0, nbrs, d, nbrs.len() as int);
    assert(nbrs.take(nbrs.len() as int) =~= nbrs);
    lemma_walk_expand_inv(v, root, max_depth, cap, w1, nbrs, d);
    assert(w2 == walk_expand(w1, nbrs, d));
    assert forall|i: int, j: int| w2.head <= i < w2.queue.len() && 0 <= j < w2.queue.len() implies (
    #[trigger] w2.queue[j]).1 <= (#[trigger] w2.queue[i]).1 + 1 by {}
    assert forall|j: int, b: u32|
        0 <= j < expanded_end(w2) && w2.queue[j].1 < max_depth && #[trigger] walk_hop(v, reverse, w2.queue[j].0, b)
            implies exists|p: int| 0 <= p < w2.queue.len() && w2.queue[p].0 == b && w2.queue[p].1 <= w2.queue[j].1 + 1 by {
        assert(w2.queue[j] == w.queue[j]);
        if j == h {
            let q = choose|q: int| 0 <= q < nbrs.len() && (#[trigger] nbrs[q]).0 == b;
            assert(nbrs[q].0 == b);
        } else {
            let p = choose|p: int| 0 <= p < w.queue.len() && w.queue[p].0 == b && w.queue[p].1 <= w.queue[j].1 + 1;
            assert(w2.queue[p] == w.queue[p]);
        }
    }
}

/// In a finished walk, every id on a sequence of steps from the root is
/// queued no deeper than its position on it, while that position is within
/// the depth limit and not past the depth of the node the cap stopped at.
proof fn lemma_walk_found(
    v: IndexView,
    root: u32,
    max_depth: u8,
    cap: usize,
    reverse: bool,
    w: Walk,
    p: Seq<u32>,
    i: int,
)
    requires
        walk_inv(v, root, max_depth, cap, w),
        walk_bfs(v, root, max_depth, cap, reverse, w),
        walk_done(w),
        p.len() > 0,
        p[0] == root,
        forall|m: int| 0 <= m < p.len() - 1 ==> #[trigger] walk_hop(v, reverse, p[m], p[m + 1]),
        0 <= i < p.len(),
        i <= max_depth,
        expanded_end(w) < w.queue.len() ==> i <= w.queue[expanded_end(w)].1,
    ensures
        exists|q: int| 0 <= q < w.queue.len() && w.queue[q].0 == p[i] && w.queue[q].1 <= i,
    decreases i,
{
    if i == 0 {
        assert(w.queue[0].0 == p[0]);
    } else {
        lemma_walk_found(v, root, max_depth, cap, reverse, w, p, i - 1);
        let q = choose|q: int| 0 <= q < w.queue.len() && w.queue[q].0 == p[i - 1] && w.queue[q].1 <= i - 1;
        let m = i - 1;
        assert(walk_hop(v, reverse, p[m], p[m + 1]));
        assert(m + 1 == i);
        assert(walk_hop(v, reverse, w.queue[q].0, p[i]));
        if q >= expanded_end(w) {
            assert(expanded_end(w) < w.queue.len());
            if q > expanded_end(w) {
                assert(w.queue[expanded_end(w)].1 <= w.queue[q].1);
            }
        }
        assert(w.queue[0].1 == 0);
    }
}

/// The ids within `max_depth` steps of `root`, the root itself excluded.
pub open spec fn walk_within(v: IndexView, root: u32, max_depth: u8, reverse: bool) -> Set<int> {
    Set::new(
        |x: int|
            0 <= x < v.packages.len() && x != root && exists|l: nat|
                l <= max_depth && #[trigger] walk_reaches_in(v, root, reverse, x as u32, l),
    )
}

/// A bounded walk lists `min(cap, N)` packages, where `N` is the number of
/// packages within `max_depth` steps of the root (the root excluded), and
/// reports all `N` when the cap does not stop it; each listed package's
/// depth is the fewest steps of any sequence of steps that leads to it.
pub proof fn law_walk_complete(v: IndexView, root: u32, max_depth: u8, cap: usize, reverse: bool)
    requires
        index_wf(v),
        root < v.packages.len(),
    ensures
        ({
            let (out, total) = walk_result(v, root, max_depth, cap, reverse);
            let nn = walk_within(v, root, max_depth, reverse).len();
            &&& out.len() == if cap < nn {
                cap as nat
            } else {
                nn
            }
            &&& cap >= nn ==> total == nn
            &&& forall|i: int| 0 <= i < out.len() ==> walk_reaches_in(v, root, reverse, (#[trigger] out[i]).id, out[i].depth as nat)
            &&& forall|i: int, l: nat|
                0 <= i < out.len() && #[trigger] walk_reaches_in(v, root, reverse, out[i].id, l) ==> out[i].depth <= l
            &&& cap < nn ==> out.len() < total && total <= nn
            &&& forall|i: int, j: int| 0 <= i < j < out.len() ==> (#[trigger] out[i]).depth <= (#[trigger] out[j]).depth
            &&& !reverse ==> forall|i: int| 0 <= i < out.len() ==> (#[trigger] out[i]).kind is Some
        }),
{
    let n = v.packages.len();
    let k = (n + 1) as nat;
    lemma_walk_bfs_after(v, root, max_depth, cap, reverse, k);
    lemma_walk_kinds_after(v, root, max_depth, cap, reverse, k);
    let wk = walk_after(v, root, max_depth, cap, reverse, k);
    vstd::set_lib::lemma_int_range(0, n as int);
    let qids = wk.queue.map_values(|e: (u32, u8, Option<DepKind>)| e.0 as int);
    assert(qids.no_duplicates()) by {
        assert forall|a: int, b: int| 0 <= a < qids.len() && 0 <= b < qids.len() && a != b implies qids[a] != qids[b] by {
            if a < b {
                assert(wk.queue[a].0 != wk.queue[b].0);
            } else {
                assert(wk.queue[b].0 != wk.queue[a].0);
            }
        }
    }
    qids.unique_seq_to_set();
    assert(qids.to_set().subset_of(vstd::set_lib::set_int_range(0, n as int)));
    vstd::set_lib::lemma_len_subset(qids.to_set(), vstd::set_lib::set_int_range(0, n as int));
    assert(walk_done(wk));
    lemma_walk_result(v, root, max_depth, cap, reverse, k);
    let w = wk;
    let out = w.out;
    let within = walk_within(v, root, max_depth, reverse);
    let rest = qids.drop_first();
    assert(rest.no_duplicates());
    rest.unique_seq_to_set();
    // Every queued node after the root is within reach.
    assert(rest.to_set().subset_of(within)) by {
        assert forall|x: int| rest.to_set().contains(x) implies within.contains(x) by {
            let q = choose|q: int| 0 <= q < rest.len() && rest[q] == x;
            assert(rest[q] == qids[q + 1]);
            assert(w.queue[0].0 != w.queue[q + 1].0);
            assert(walk_reaches_in(v, root, reverse, w.queue[q + 1].0, w.queue[q + 1].1 as nat));
            assert(x as u32 == w.queue[q + 1].0);
        }
    }
    assert(within.subset_of(vstd::set_lib::set_int_range(0, n as int)));
    vstd::set_lib::lemma_len_subset(within, vstd::set_lib::set_int_range(0, n as int));
    vstd::set_lib::lemma_len_subset(rest.to_set(), within);
    if !w.stopped {
        assert(expanded_end(w) >= w.queue.len());
        assert(within.subset_of(rest.to_set())) by {
            assert forall|x: int| within.contains(x) implies rest.to_set().contains(x) by {
                let l = choose|l: nat| l <= max_depth && #[trigger] walk_reaches_in(v, root, reverse, x as u32, l);
                let pw = choose|pw: Seq<u32>|
                    pw.len() == l + 1 && pw[0] == root && pw.last() == x as u32 && (forall|i: int|
                        0 <= i < l ==> #[trigger] walk_hop(v, reverse, pw[i], pw[i + 1]));
                lemma_walk_found(v, root, max_depth, cap, reverse, w, pw, l as int);
                let q = choose|q: int| 0 <= q < w.queue.len() && w.queue[q].0 == pw[l as int] && w.queue[q].1 <= l;
                assert(q != 0);
                assert(rest[q - 1] == x);
            }
        }
        vstd::set_lib::lemma_len_subset(within, rest.to_set());
        assert(within.len() == rest.len());
    }
    assert forall|i: int| 0 <= i < out.len() implies walk_reaches_in(v, root, reverse, (#[trigger] out[i]).id, out[i].depth as nat) by {
        assert(out[i] == node_of(w.queue[i + 1]));
    }
    assert forall|i: int, l: nat| 0 <= i < out.len() && #[trigger] walk_reaches_in(v, root, reverse, out[i].id, l)
        implies out[i].depth <= l by {
        let p = i + 1;
        assert(out[i] == node_of(w.queue[p]));
        assert(p < expanded_end(w));
        if l > max_depth {
        } else if expanded_end(w) < w.queue.len() && l > w.queue[expanded_end(w)].1 {
            assert(w.queue[p].1 <= w.queue[expanded_end(w)].1);
        } else {
            let pw = choose|pw: Seq<u32>|
                pw.len() == l + 1 && pw[0] == root && pw.last() == out[i].id && (forall|m: int|
                    0 <= m < l ==> #[trigger] walk_hop(v, reverse, pw[m], pw[m + 1]));
            lemma_walk_found(v, root, max_depth, cap, reverse, w, pw, l as int);
            let q2 = choose|q2: int| 0 <= q2 < w.queue.len() && w.queue[q2].0 == pw[l as int] && w.queue[q2].1 <= l;
            if q2 != p {
                if q2 < p {
                    assert(w.queue[q2].0 != w.queue[p].0);
                } else {
                    assert(w.queue[p].0 != w.queue[q2].0);
                }
            }
        }
    }
    assert forall|i: int, j: int| 0 <= i < j < out.len() implies (#[trigger] out[i]).depth <= (#[trigger] out[j]).depth by {
        assert(out[i] == node_of(w.queue[i + 1]) && out[j] == node_of(w.queue[j + 1]));
    }
    if !reverse {
        assert forall|i: int| 0 <= i < out.len() implies (#[trigger] out[i]).kind is Some by {
            assert(out[i] == node_of(w.queue[i + 1]));
        }
    }
    assert(w.total == rest.len());
    if w.stopped {
        assert(out.len() + 2 == w.head);
    }
}

/// On a forward walk every queued package after the root carries the kind
/// of the relation it was reached through.
spec fn walk_kinds_ok(reverse: bool, w: Walk) -> bool {
    !reverse ==> forall|p: int| 1 <= p < w.queue.len() ==> (#[trigger] w.queue[p]).2 is Some
}

proof fn lemma_expand_walk_kinds(reverse: bool, w: Walk, nbrs: Seq<(u32, Option<DepKind>)>, d: u8)
    requires
        w.queue.len() >= 1,
        walk_kinds_ok(reverse, w),
        !reverse ==> forall|q: int| 0 <= q < nbrs.len() ==> (#[trigger] nbrs[q]).1 is Some,
    ensures
        walk_kinds_ok(reverse, walk_expand(w, nbrs, d)),
        walk_expand(w, nbrs, d).queue.len() >= 1,
    decreases nbrs.len(),
{
    if nbrs.len() > 0 {
        let dl = nbrs.drop_last();
        assert forall|q: int| 0 <= q < dl.len() implies (#[trigger] dl[q]) == nbrs[q] by {}
        lemma_expand_walk_kinds(reverse, w, dl, d);
        let w1 = walk_expand(w, dl, d);
        let x = nbrs.last();
        assert(x == nbrs[nbrs.len() - 1]);
        if !w1.visited[x.0 as int] {
            let w2 = walk_expand(w, nbrs, d);
            assert(w2.queue == w1.queue.push((x.0, (d + 1) as u8, x.1)));
            if !reverse {
                assert forall|p: int| 1 <= p < w2.queue.len() implies (#[trigger] w2.queue[p]).2 is Some by {
                    if p < w1.queue.len() {
                        assert(w2.queue[p] == w1.queue[p]);
                    }
                }
            }
        }
    }
}

proof fn lemma_walk_kinds_after(v: IndexView, root: u32, max_depth: u8, cap: usize, reverse: bool, k: nat)
    ensures
        walk_kinds_ok(reverse, walk_after(v, root, max_depth, cap, reverse, k)),
        walk_after(v, root, max_depth, cap, reverse, k).queue.len() >= 1,
    decreases k,
{
    if k > 0 {
        lemma_walk_kinds_after(v, root, max_depth, cap, reverse, (k - 1) as nat);
        let w = walk_after(v, root, max_depth, cap, reverse, (k - 1) as nat);
        if !walk_done(w) {
            let e = w.queue[w.head as int];
            if !(e.0 != root && w.out.len() >= cap) && e.1 < max_depth {
                let w0 = Walk { head: w.head + 1, ..w };
                let w1 = if e.0 != root {
                    Walk { out: w0.out.push(node_of(e)), ..w0 }
                } else {
                    w0
                };
                let nbrs = walk_neighbors(v, e.0, reverse);
                if !reverse {
                    assert forall|q: int| 0 <= q < nbrs.len() implies (#[trigger] nbrs[q]).1 is Some by {}
                }
                lemma_expand_walk_kinds(reverse, w1, nbrs, e.1);
            }
        }
    }
}

/// A kind is among those of an id in a relation list exactly when the list
/// holds that relation.
pub proof fn lemma_kinds_for_contains(s: Seq<(u32, DepKind)>, id: u32, k: DepKind)
    ensures
        kinds_for(s, id).contains(k) <==> s.contains((id, k)),
    decreases s.len(),
{
    if s.len() > 0 {
        let d = s.drop_last();
        lemma_kinds_for_contains(d, id, k);
        let kd = kinds_for(d, id);
        if s.last().0 == id {
            assert(kinds_for(s, id) == kd.push(s.last().1));
            if kd.push(s.last().1).contains(k) {
                let i = choose|i: int| 0 <= i < kd.push(s.last().1).len() && kd.push(s.last().1)[i] == k;
                if i < kd.len() {
                    assert(kd[i] == k);
                }
            }
            if kd.contains(k) {
                let i = choose|i: int| 0 <= i < kd.len() && kd[i] == k;
                assert(kd.push(s.last().1)[i] == k);
            }
            if s.last() == (id, k) {
                assert(kd.push(s.last().1)[kd.len() as int] == k);
            }
        }
        if s.contains((id, k)) {
            let i = choose|i: int| 0 <= i < s.len() && s[i] == (id, k);
            if i < s.len() - 1 {
                assert(d[i] == s[i]);
            }
        }
        if d.contains((id, k)) {
            let i = choose|i: int| 0 <= i < d.len() && d[i] == (id, k);
            assert(s[i] == d[i]);
        }
    }
}


} // verus!
