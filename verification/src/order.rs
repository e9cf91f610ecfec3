//! Orders used to present packages: lexicographic order on texts, strict
//! total orders on package ids, and a merge sort that realises them.

use vstd::prelude::*;

verus! {

/// Lexicographic order on character sequences, comparing code points; it is
/// the order of `str::cmp`, since UTF-8 preserves code point order.
pub open spec fn seq_lt(a: Seq<char>, b: Seq<char>) -> bool
    decreases a.len(),
{
    if a.len() == 0 {
        b.len() > 0
    } else if b.len() == 0 {
        false
    } else if (a[0] as u32) < (b[0] as u32) {
        true
    } else if a[0] == b[0] {
        seq_lt(a.drop_first(), b.drop_first())
    } else {
        false
    }
}

pub proof fn lemma_seq_lt_irreflexive(a: Seq<char>)
    ensures
        !seq_lt(a, a),
    decreases a.len(),
{
    if a.len() > 0 {
        lemma_seq_lt_irreflexive(a.drop_first());
    }
}

pub proof fn lemma_seq_lt_transitive(a: Seq<char>, b: Seq<char>, c: Seq<char>)
    requires
        seq_lt(a, b),
        seq_lt(b, c),
    ensures
        seq_lt(a, c),
    decreases a.len(),
{
    if a.len() > 0 && b.len() > 0 && c.len() > 0 {
        if a[0] == b[0] && b[0] == c[0] {
            lemma_seq_lt_transitive(a.drop_first(), b.drop_first(), c.drop_first());
        }
    }
}

pub proof fn lemma_seq_lt_total(a: Seq<char>, b: Seq<char>)
    requires
        a != b,
    ensures
        seq_lt(a, b) || seq_lt(b, a),
    decreases a.len(),
{
    if a.len() > 0 && b.len() > 0 {
        if a[0] == b[0] {
            if a.drop_first() == b.drop_first() {
                assert(a =~= seq![a[0]] + a.drop_first());
                assert(b =~= seq![b[0]] + b.drop_first());
            }
            lemma_seq_lt_total(a.drop_first(), b.drop_first());
        } else {
            if (a[0] as u32) == (b[0] as u32) {
                vstd::utf8::char_u32_cast(a[0], a[0] as u32);
                vstd::utf8::char_u32_cast(b[0], b[0] as u32);
            }
        }
    } else if a.len() == 0 && b.len() == 0 {
        assert(a =~= b);
    }
}

pub proof fn lemma_seq_lt_asymmetric(a: Seq<char>, b: Seq<char>)
    requires
        seq_lt(a, b),
    ensures
        !seq_lt(b, a),
{
    if seq_lt(b, a) {
        lemma_seq_lt_transitive(a, b, a);
        lemma_seq_lt_irreflexive(a);
    }
}

proof fn lemma_seq_lt_skip(a: Seq<char>, b: Seq<char>, i: int)
    requires
        0 <= i <= a.len(),
        i <= b.len(),
        a.take(i) == b.take(i),
    ensures
        seq_lt(a, b) == seq_lt(a.skip(i), b.skip(i)),
    decreases i,
{
    if i > 0 {
        assert(a[0] == a.take(i)[0]);
        assert(b[0] == b.take(i)[0]);
        assert(a.drop_first().take(i - 1) =~= a.take(i).drop_first());
        assert(b.drop_first().take(i - 1) =~= b.take(i).drop_first());
        lemma_seq_lt_skip(a.drop_first(), b.drop_first(), i - 1);
        assert(a.drop_first().skip(i - 1) =~= a.skip(i));
        assert(b.drop_first().skip(i - 1) =~= b.skip(i));
    } else {
        assert(a.skip(0) =~= a);
        assert(b.skip(0) =~= b);
    }
}

/// Exec form of `seq_lt`.
pub fn chars_lt(a: &[char], b: &[char]) -> (r: bool)
    ensures
        r == seq_lt(a@, b@),
{
    let mut i: usize = 0;
    while i < a.len() && i < b.len()
        invariant
            i <= a@.len(),
            i <= b@.len(),
            a@.take(i as int) == b@.take(i as int),
        decreases a@.len() - i,
    {
        if a[i] != b[i] {
            proof {
                lemma_seq_lt_skip(a@, b@, i as int);
                assert(a@.skip(i as int)[0] == a@[i as int]);
                assert(b@.skip(i as int)[0] == b@[i as int]);
            }
            return (a[i] as u32) < (b[i] as u32);
        }
        assert(a@.take(i + 1) =~= a@.take(i as int).push(a@[i as int]));
        assert(b@.take(i + 1) =~= b@.take(i as int).push(b@[i as int]));
        i += 1;
    }
    proof {
        lemma_seq_lt_skip(a@, b@, i as int);
    }
    i == a.len() && i < b.len()
}

/// `lt` is a strict total order.
pub open spec fn strict_total<A>(lt: spec_fn(A, A) -> bool) -> bool {
    &&& forall|a: A| !#[trigger] lt(a, a)
    &&& forall|a: A, b: A, c: A| #[trigger] lt(a, b) && #[trigger] lt(b, c) ==> lt(a, c)
    &&& forall|a: A, b: A| a != b ==> #[trigger] lt(a, b) || lt(b, a)
}

/// Every element precedes every later element.
pub open spec fn strictly_sorted<A>(s: Seq<A>, lt: spec_fn(A, A) -> bool) -> bool {
    forall|i: int, j: int| 0 <= i < j < s.len() ==> #[trigger] lt(s[i], s[j])
}

/// The elements of a finite set, listed in increasing order.
pub open spec fn sorted_list<A>(set: Set<A>, lt: spec_fn(A, A) -> bool) -> Seq<A> {
    choose|s: Seq<A>| strictly_sorted(s, lt) && s.to_set() == set
}

pub proof fn lemma_sorted_no_dups<A>(s: Seq<A>, lt: spec_fn(A, A) -> bool)
    requires
        strict_total(lt),
        strictly_sorted(s, lt),
    ensures
        s.no_duplicates(),
{
    assert forall|i: int, j: int| 0 <= i < s.len() && 0 <= j < s.len() && i != j implies s[i]
        != s[j] by {
        if i < j {
            assert(lt(s[i], s[j]));
        } else {
            assert(lt(s[j], s[i]));
        }
    }
}

/// A strictly sorted list is determined by its elements.
pub proof fn lemma_sorted_unique<A>(s1: Seq<A>, s2: Seq<A>, lt: spec_fn(A, A) -> bool)
    requires
        strict_total(lt),
        strictly_sorted(s1, lt),
        strictly_sorted(s2, lt),
        s1.to_set() == s2.to_set(),
    ensures
        s1 == s2,
    decreases s1.len(),
{
    if s1.len() == 0 {
        if s2.len() > 0 {
            assert(s2.to_set().contains(s2[0]));
        }
        assert(s1 =~= s2);
    } else {
        assert(s1.to_set().contains(s1[0]));
        if s2.len() == 0 {
            assert(false);
        }
        assert(s2.to_set().contains(s2[0]));
        let j = choose|j: int| 0 <= j < s2.len() && s2[j] == s1[0];
        let i = choose|i: int| 0 <= i < s1.len() && s1[i] == s2[0];
        if j > 0 {
            assert(lt(s2[0], s2[j]));
            if i > 0 {
                assert(lt(s1[0], s1[i]));
                assert(lt(s1[0], s1[0]));
            } else {
                assert(lt(s1[0], s1[0]));
            }
        }
        assert(s1[0] == s2[0]);
        lemma_sorted_no_dups(s1, lt);
        lemma_sorted_no_dups(s2, lt);
        let t1 = s1.drop_first();
        let t2 = s2.drop_first();
        assert forall|x: A| t1.to_set().contains(x) implies t2.to_set().contains(x) by {
            let k = choose|k: int| 0 <= k < t1.len() && t1[k] == x;
            assert(s1.to_set().contains(x));
            let m = choose|m: int| 0 <= m < s2.len() && s2[m] == x;
            assert(s1[k + 1] == x);
            if m == 0 {
                assert(s1[0] == s1[k + 1]);
            }
            assert(t2[m - 1] == x);
        }
        assert forall|x: A| t2.to_set().contains(x) implies t1.to_set().contains(x) by {
            let k = choose|k: int| 0 <= k < t2.len() && t2[k] == x;
            assert(s2.to_set().contains(x));
            let m = choose|m: int| 0 <= m < s1.len() && s1[m] == x;
            assert(s2[k + 1] == x);
            if m == 0 {
                assert(s2[0] == s2[k + 1]);
            }
            assert(t1[m - 1] == x);
        }
        assert(t1.to_set() =~= t2.to_set());
        lemma_sorted_unique(t1, t2, lt);
        assert(s1 =~= seq![s1[0]] + t1);
        assert(s2 =~= seq![s2[0]] + t2);
    }
}

/// A strictly sorted list is the sorted list of its elements.
pub proof fn lemma_sorted_list_of<A>(s: Seq<A>, lt: spec_fn(A, A) -> bool)
    requires
        strict_total(lt),
        strictly_sorted(s, lt),
    ensures
        sorted_list(s.to_set(), lt) == s,
{
    let r = sorted_list(s.to_set(), lt);
    assert(strictly_sorted(r, lt) && r.to_set() == s.to_set());
    lemma_sorted_unique(r, s, lt);
}


/// Insert into a strictly sorted list, keeping it strictly sorted.
pub open spec fn insert_sorted<A>(t: Seq<A>, x: A, lt: spec_fn(A, A) -> bool) -> Seq<A>
    decreases t.len(),
{
    if t.len() == 0 {
        seq![x]
    } else if lt(x, t[0]) {
        seq![x] + t
    } else if x == t[0] {
        t
    } else {
        seq![t[0]] + insert_sorted(t.drop_first(), x, lt)
    }
}

pub proof fn lemma_insert_sorted<A>(t: Seq<A>, x: A, lt: spec_fn(A, A) -> bool)
    requires
        strict_total(lt),
        strictly_sorted(t, lt),
    ensures
        strictly_sorted(insert_sorted(t, x, lt), lt),
        insert_sorted(t, x, lt).to_set() == t.to_set().insert(x),
        insert_sorted(t, x, lt).len() > 0,
        insert_sorted(t, x, lt)[0] == x || (t.len() > 0 && insert_sorted(t, x, lt)[0] == t[0]),
    decreases t.len(),
{
    let r = insert_sorted(t, x, lt);
    if t.len() == 0 {
        assert(r.to_set() =~= t.to_set().insert(x)) by {
            assert(r =~= seq![x]);
            assert forall|y: A| r.to_set().contains(y) <==> t.to_set().insert(x).contains(y) by {
                if r.to_set().contains(y) {
                    let i = choose|i: int| 0 <= i < r.len() && r[i] == y;
                }
                if y == x {
                    assert(r[0] == x);
                }
            }
        }
    } else if lt(x, t[0]) {
        assert forall|i: int, j: int| 0 <= i < j < r.len() implies #[trigger] lt(r[i], r[j]) by {
            if i == 0 {
                if j > 1 {
                    assert(lt(t[0], t[j - 1]));
                }
                assert(r[j] == t[j - 1]);
            } else {
                assert(lt(t[i - 1], t[j - 1]));
            }
        }
        assert forall|y: A| r.to_set().contains(y) <==> t.to_set().insert(x).contains(y) by {
            if r.to_set().contains(y) {
                let i = choose|i: int| 0 <= i < r.len() && r[i] == y;
                if i > 0 {
                    assert(t[i - 1] == y);
                }
            }
            if t.to_set().contains(y) {
                let i = choose|i: int| 0 <= i < t.len() && t[i] == y;
                assert(r[i + 1] == y);
            }
            if y == x {
                assert(r[0] == x);
            }
        }
        assert(r.to_set() =~= t.to_set().insert(x));
    } else if x == t[0] {
        assert(t.to_set().contains(t[0]));
        assert(r.to_set() =~= t.to_set().insert(x));
    } else {
        let rest = t.drop_first();
        assert forall|i: int, j: int| 0 <= i < j < rest.len() implies #[trigger] lt(rest[i], rest[j]) by {
            assert(lt(t[i + 1], t[j + 1]));
        }
        lemma_insert_sorted(rest, x, lt);
        let r1 = insert_sorted(rest, x, lt);
        assert(lt(t[0], x));
        assert forall|i: int, j: int| 0 <= i < j < r.len() implies #[trigger] lt(r[i], r[j]) by {
            if i == 0 {
                assert(r1.to_set().contains(r1[j - 1]));
                assert(rest.to_set().insert(x).contains(r1[j - 1]));
                if r1[j - 1] != x {
                    let q = choose|q: int| 0 <= q < rest.len() && rest[q] == r1[j - 1];
                    assert(lt(t[0], t[q + 1]));
                }
            } else {
                assert(lt(r1[i - 1], r1[j - 1]));
            }
        }
        assert forall|y: A| r.to_set().contains(y) <==> t.to_set().insert(x).contains(y) by {
            if r.to_set().contains(y) {
                let i = choose|i: int| 0 <= i < r.len() && r[i] == y;
                if i > 0 {
                    assert(r1.to_set().contains(y));
                    if y != x {
                        let q = choose|q: int| 0 <= q < rest.len() && rest[q] == y;
                        assert(t[q + 1] == y);
                    }
                }
            }
            if t.to_set().contains(y) {
                let i = choose|i: int| 0 <= i < t.len() && t[i] == y;
                if i > 0 {
                    assert(rest[i - 1] == y);
                    assert(rest.to_set().contains(y));
                    assert(r1.to_set().contains(y));
                    let q = choose|q: int| 0 <= q < r1.len() && r1[q] == y;
                    assert(r[q + 1] == y);
                } else {
                    assert(r[0] == y);
                }
            }
            if y == x {
                assert(r1.to_set().contains(x));
                let q = choose|q: int| 0 <= q < r1.len() && r1[q] == x;
                assert(r[q + 1] == x);
            }
        }
        assert(r.to_set() =~= t.to_set().insert(x));
    }
}

/// Every finite list's elements have a strictly sorted enumeration.
pub proof fn lemma_sorted_list_exists<A>(s: Seq<A>, lt: spec_fn(A, A) -> bool)
    requires
        strict_total(lt),
    ensures
        strictly_sorted(sorted_list(s.to_set(), lt), lt),
        sorted_list(s.to_set(), lt).to_set() == s.to_set(),
    decreases s.len(),
{
    if s.len() == 0 {
        let e = Seq::<A>::empty();
        assert(e.to_set() =~= s.to_set());
        assert(strictly_sorted(e, lt));
    } else {
        let d = s.drop_last();
        lemma_sorted_list_exists(d, lt);
        let t0 = sorted_list(d.to_set(), lt);
        lemma_insert_sorted(t0, s.last(), lt);
        let t1 = insert_sorted(t0, s.last(), lt);
        assert(d.push(s.last()) =~= s);
        d.lemma_push_to_set_commute(s.last());
        assert(strictly_sorted(t1, lt) && t1.to_set() == s.to_set());
    }
}

/// The first `k` elements of the sorted enumeration of a set, or all of
/// them.
pub open spec fn first_k<A>(s: Set<A>, lt: spec_fn(A, A) -> bool, k: nat) -> Seq<A> {
    let l = sorted_list(s, lt);
    if k < l.len() {
        l.take(k as int)
    } else {
        l
    }
}

/// `d` is part of `s` and holds, with each of its elements, every smaller
/// element of `s`.
pub open spec fn down_closed<A>(d: Set<A>, s: Set<A>, lt: spec_fn(A, A) -> bool) -> bool {
    &&& d.subset_of(s)
    &&& forall|x: A, y: A|
        #![trigger d.contains(x), lt(y, x)]
        d.contains(x) && s.contains(y) && lt(y, x) ==> d.contains(y)
}

pub open spec fn min_nat(a: nat, b: nat) -> nat {
    if a < b {
        a
    } else {
        b
    }
}

/// The first `k` of a finite set are a down-closed part of it with
/// `min(k, |s|)` elements, listed in order.
pub proof fn lemma_first_k<A>(s: Seq<A>, lt: spec_fn(A, A) -> bool, k: nat)
    requires
        strict_total(lt),
    ensures
        strictly_sorted(first_k(s.to_set(), lt, k), lt),
        first_k(s.to_set(), lt, k).no_duplicates(),
        first_k(s.to_set(), lt, k).to_set().finite(),
        first_k(s.to_set(), lt, k).to_set().len() == min_nat(k, s.to_set().len()),
        first_k(s.to_set(), lt, k).len() == min_nat(k, s.to_set().len()),
        down_closed(first_k(s.to_set(), lt, k).to_set(), s.to_set(), lt),
{
    let l = sorted_list(s.to_set(), lt);
    lemma_sorted_list_exists(s, lt);
    lemma_sorted_no_dups(l, lt);
    l.unique_seq_to_set();
    let p = first_k(s.to_set(), lt, k);
    let m: int = if k < l.len() {
        k as int
    } else {
        l.len() as int
    };
    assert(p == l.take(m));
    assert(strictly_sorted(p, lt));
    lemma_sorted_no_dups(p, lt);
    p.unique_seq_to_set();
    assert forall|x: A| p.to_set().contains(x) implies s.to_set().contains(x) by {
        let i = choose|i: int| 0 <= i < p.len() && p[i] == x;
        assert(l[i] == x);
        assert(l.to_set().contains(x));
    }
    assert forall|x: A, y: A|
        #![trigger p.to_set().contains(x), lt(y, x)]
        p.to_set().contains(x) && s.to_set().contains(y) && lt(y, x) implies p.to_set().contains(
        y) by {
        let i = choose|i: int| 0 <= i < p.len() && p[i] == x;
        assert(l.to_set().contains(y));
        let j = choose|j: int| 0 <= j < l.len() && l[j] == y;
        if j >= i {
            if j > i {
                assert(lt(l[i], l[j]));
            }
            assert(lt(x, x));
        }
        assert(p[j] == y);
    }
}

/// Two down-closed parts of a finite set with as many elements are the
/// same.
pub proof fn lemma_down_closed_unique<A>(d: Set<A>, e: Set<A>, s: Set<A>, lt: spec_fn(A, A) -> bool)
    requires
        strict_total(lt),
        s.finite(),
        down_closed(d, s, lt),
        down_closed(e, s, lt),
        d.len() == e.len(),
    ensures
        d == e,
{
    vstd::set_lib::lemma_len_subset(d, s);
    vstd::set_lib::lemma_len_subset(e, s);
    if !d.subset_of(e) && !e.subset_of(d) {
        let x = choose|x: A| d.contains(x) && !e.contains(x);
        let y = choose|y: A| e.contains(y) && !d.contains(y);
        assert(x != y);
        if lt(x, y) {
            assert(e.contains(y) && s.contains(x));
        } else {
            assert(lt(y, x));
            assert(d.contains(x) && s.contains(y));
        }
    }
    if d.subset_of(e) {
        vstd::set_lib::lemma_subset_equality(d, e);
    } else {
        vstd::set_lib::lemma_subset_equality(e, d);
    }
}

/// Values tagged with their positions, ordered by value and then by
/// position.
pub open spec fn tag_order() -> spec_fn((u32, usize), (u32, usize)) -> bool {
    |a: (u32, usize), b: (u32, usize)| a.0 < b.0 || (a.0 == b.0 && a.1 < b.1)
}

/// The comparison closure decides `lt`.
pub open spec fn decides<T, F: Fn(T, T) -> bool>(less: F, lt: spec_fn(T, T) -> bool) -> bool {
    &&& forall|a: T, b: T| #[trigger] less.requires((a, b))
    &&& forall|a: T, b: T, x: bool| #[trigger] less.ensures((a, b), x) ==> x == lt(a, b)
}

proof fn lemma_subrange_disjoint<T>(s: Seq<T>, lo: int, mid: int, hi: int)
    requires
        0 <= lo <= mid <= hi <= s.len(),
        s.no_duplicates(),
    ensures
        s.subrange(lo, mid).to_set().disjoint(s.subrange(mid, hi).to_set()),
{
    assert forall|x: T|
        s.subrange(lo, mid).to_set().contains(x) implies !s.subrange(mid, hi).to_set().contains(
        x) by {
        let i = choose|i: int| 0 <= i < mid - lo && s.subrange(lo, mid)[i] == x;
        if s.subrange(mid, hi).to_set().contains(x) {
            let j = choose|j: int| 0 <= j < hi - mid && s.subrange(mid, hi)[j] == x;
            assert(s[lo + i] == s[mid + j]);
        }
    }
}

proof fn lemma_subrange_split_set<T>(s: Seq<T>, lo: int, mid: int, hi: int)
    requires
        0 <= lo <= mid <= hi <= s.len(),
    ensures
        s.subrange(lo, hi).to_set() == s.subrange(lo, mid).to_set().union(
            s.subrange(mid, hi).to_set(),
        ),
{
    let a = s.subrange(lo, mid);
    let b = s.subrange(mid, hi);
    let c = s.subrange(lo, hi);
    assert forall|x: T| c.to_set().contains(x) implies a.to_set().union(b.to_set()).contains(
        x) by {
        let i = choose|i: int| 0 <= i < c.len() && c[i] == x;
        if i < mid - lo {
            assert(a[i] == x);
        } else {
            assert(b[i - (mid - lo)] == x);
        }
    }
    assert forall|x: T| a.to_set().union(b.to_set()).contains(x) implies c.to_set().contains(
        x) by {
        if a.to_set().contains(x) {
            let i = choose|i: int| 0 <= i < a.len() && a[i] == x;
            assert(c[i] == x);
        } else {
            let i = choose|i: int| 0 <= i < b.len() && b[i] == x;
            assert(c[i + (mid - lo)] == x);
        }
    }
    assert(c.to_set() =~= a.to_set().union(b.to_set()));
}

fn merge<T: Copy, F: Fn(T, T) -> bool>(
    a: Vec<T>,
    b: Vec<T>,
    less: &F,
    Ghost(lt): Ghost<spec_fn(T, T) -> bool>,
) -> (r: Vec<T>)
    requires
        strict_total(lt),
        decides(*less, lt),
        strictly_sorted(a@, lt),
        strictly_sorted(b@, lt),
        a@.to_set().disjoint(b@.to_set()),
    ensures
        strictly_sorted(r@, lt),
        r@.to_set() == a@.to_set().union(b@.to_set()),
        r@.len() == a@.len() + b@.len(),
{
    let mut out: Vec<T> = Vec::new();
    let mut i: usize = 0;
    let mut j: usize = 0;
    while i < a.len() || j < b.len()
        invariant
            strict_total(lt),
            decides(*less, lt),
            strictly_sorted(a@, lt),
            strictly_sorted(b@, lt),
            a@.to_set().disjoint(b@.to_set()),
            i <= a@.len(),
            j <= b@.len(),
            strictly_sorted(out@, lt),
            out@.len() == i + j,
            out@.to_set() == a@.take(i as int).to_set().union(b@.take(j as int).to_set()),
            out@.len() > 0 ==> forall|k: int| i <= k < a@.len() ==> #[trigger] lt(out@.last(), a@[k]),
            out@.len() > 0 ==> forall|k: int| j <= k < b@.len() ==> #[trigger] lt(out@.last(), b@[k]),
        decreases a@.len() + b@.len() - i - j,
    {
        let take_a = if i < a.len() && j < b.len() {
            less(a[i], b[j])
        } else {
            i < a.len()
        };
        let ghost old_out = out@;
        if take_a {
            let x = a[i];
            proof {
                if old_out.len() > 0 {
                    assert(lt(old_out.last(), a@[i as int]));
                }
                if j < b@.len() {
                    assert(x != b@[j as int]) by {
                        assert(a@.to_set().contains(x));
                        assert(b@.to_set().contains(b@[j as int]));
                    }
                }
            }
            out.push(x);
            proof {
                assert forall|k: int| i + 1 <= k < a@.len() implies #[trigger] lt(out@.last(), a@[k]) by {
                    assert(lt(a@[i as int], a@[k]));
                }
                assert forall|k: int| j <= k < b@.len() implies #[trigger] lt(out@.last(), b@[k]) by {
                    if j < k {
                        assert(lt(b@[j as int], b@[k]));
                    }
                }
                assert forall|p: int, q: int| 0 <= p < q < out@.len() implies #[trigger] lt(out@[p], out@[q]) by {
                    if q == out@.len() - 1 {
                        assert(lt(old_out.last(), x));
                        if p < old_out.len() - 1 {
                            assert(lt(old_out[p], old_out.last()));
                        }
                    } else {
                        assert(out@[p] == old_out[p] && out@[q] == old_out[q]);
                    }
                }
                assert(a@.take(i + 1) =~= a@.take(i as int).push(x));
                a@.take(i as int).lemma_push_to_set_commute(x);
                old_out.lemma_push_to_set_commute(x);
                assert(out@.to_set() =~= a@.take(i + 1).to_set().union(b@.take(j as int).to_set()));
            }
            i += 1;
        } else {
            let x = b[j];
            proof {
                if old_out.len() > 0 {
                    assert(lt(old_out.last(), b@[j as int]));
                }
                if i < a@.len() {
                    assert(x != a@[i as int]) by {
                        assert(a@.to_set().contains(a@[i as int]));
                        assert(b@.to_set().contains(x));
                    }
                    assert(lt(x, a@[i as int]));
                }
            }
            out.push(x);
            proof {
                assert forall|k: int| j + 1 <= k < b@.len() implies #[trigger] lt(out@.last(), b@[k]) by {
                    assert(lt(b@[j as int], b@[k]));
                }
                assert forall|k: int| i <= k < a@.len() implies #[trigger] lt(out@.last(), a@[k]) by {
                    if i < k {
                        assert(lt(a@[i as int], a@[k]));
                    }
                }
                assert forall|p: int, q: int| 0 <= p < q < out@.len() implies #[trigger] lt(out@[p], out@[q]) by {
                    if q == out@.len() - 1 {
                        assert(lt(old_out.last(), x));
                        if p < old_out.len() - 1 {
                            assert(lt(old_out[p], old_out.last()));
                        }
                    } else {
                        assert(out@[p] == old_out[p] && out@[q] == old_out[q]);
                    }
                }
                assert(b@.take(j + 1) =~= b@.take(j as int).push(x));
                b@.take(j as int).lemma_push_to_set_commute(x);
                old_out.lemma_push_to_set_commute(x);
                assert(out@.to_set() =~= a@.take(i as int).to_set().union(b@.take(j + 1).to_set()));
            }
            j += 1;
        }
    }
    assert(a@.take(a@.len() as int) =~= a@);
    assert(b@.take(b@.len() as int) =~= b@);
    out
}

fn sort_range<T: Copy, F: Fn(T, T) -> bool>(
    v: &Vec<T>,
    lo: usize,
    hi: usize,
    less: &F,
    Ghost(lt): Ghost<spec_fn(T, T) -> bool>,
) -> (r: Vec<T>)
    requires
        strict_total(lt),
        decides(*less, lt),
        v@.no_duplicates(),
        lo <= hi <= v@.len(),
    ensures
        strictly_sorted(r@, lt),
        r@.to_set() == v@.subrange(lo as int, hi as int).to_set(),
        r@.len() == hi - lo,
    decreases hi - lo,
{
    if hi - lo <= 1 {
        let mut out: Vec<T> = Vec::new();
        if hi > lo {
            out.push(v[lo]);
            assert(out@ =~= v@.subrange(lo as int, hi as int));
        } else {
            assert(out@ =~= v@.subrange(lo as int, hi as int));
        }
        return out;
    }
    let mid = lo + (hi - lo) / 2;
    let a = sort_range(v, lo, mid, less, Ghost(lt));
    let b = sort_range(v, mid, hi, less, Ghost(lt));
    proof {
        lemma_subrange_disjoint(v@, lo as int, mid as int, hi as int);
        lemma_subrange_split_set(v@, lo as int, mid as int, hi as int);
    }
    merge(a, b, less, Ghost(lt))
}

/// Sort distinct items into the strict order `lt`, which `less` decides.
pub(crate) fn sort_ids<T: Copy, F: Fn(T, T) -> bool>(
    v: &Vec<T>,
    less: &F,
    Ghost(lt): Ghost<spec_fn(T, T) -> bool>,
) -> (r: Vec<T>)
    requires
        strict_total(lt),
        decides(*less, lt),
        v@.no_duplicates(),
    ensures
        strictly_sorted(r@, lt),
        r@.to_set() == v@.to_set(),
        r@.len() == v@.len(),
{
    let r = sort_range(v, 0, v.len(), less, Ghost(lt));
    assert(v@.subrange(0, v@.len() as int) =~= v@);
    r
}

/// A sort key: a number, then two texts; ids break the remaining ties.
pub type SortKey = (int, Seq<char>, Seq<char>);

/// Order ids by their keys, lexicographically, then by id.
pub open spec fn keyed_lt(ka: SortKey, kb: SortKey, a: u32, b: u32) -> bool {
    ka.0 < kb.0 || (ka.0 == kb.0 && (seq_lt(ka.1, kb.1) || (ka.1 == kb.1 && (seq_lt(ka.2, kb.2) || (ka.2
        == kb.2 && a < b)))))
}

pub open spec fn keyed_order(key: spec_fn(u32) -> SortKey) -> spec_fn(u32, u32) -> bool {
    |a: u32, b: u32| keyed_lt(key(a), key(b), a, b)
}

/// Ordering by key and then id is a strict total order.
pub proof fn lemma_keyed_order(key: spec_fn(u32) -> SortKey)
    ensures
        strict_total(keyed_order(key)),
{
    let lt = keyed_order(key);
    assert forall|a: u32| !#[trigger] lt(a, a) by {
        lemma_seq_lt_irreflexive(key(a).1);
        lemma_seq_lt_irreflexive(key(a).2);
    }
    assert forall|a: u32, b: u32, c: u32| #[trigger] lt(a, b) && #[trigger] lt(b, c) implies lt(a, c) by {
        let (ka, kb, kc) = (key(a), key(b), key(c));
        if seq_lt(ka.1, kb.1) && seq_lt(kb.1, kc.1) {
            lemma_seq_lt_transitive(ka.1, kb.1, kc.1);
        }
        if seq_lt(ka.2, kb.2) && seq_lt(kb.2, kc.2) {
            lemma_seq_lt_transitive(ka.2, kb.2, kc.2);
        }
    }
    assert forall|a: u32, b: u32| a != b implies #[trigger] lt(a, b) || lt(b, a) by {
        let (ka, kb) = (key(a), key(b));
        if ka.1 != kb.1 {
            lemma_seq_lt_total(ka.1, kb.1);
        }
        if ka.2 != kb.2 {
            lemma_seq_lt_total(ka.2, kb.2);
        }
    }
}

/// Exec form of `seq_lt` on strings.
pub fn str_lt(a: &str, b: &str) -> (r: bool)
    ensures
        r == seq_lt(a@, b@),
{
    let ca = crate::text::chars_of(a);
    let cb = crate::text::chars_of(b);
    chars_lt(ca.as_slice(), cb.as_slice())
}

} // verus!
