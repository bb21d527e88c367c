//! Facts about filtering sequences that the graph proofs rely on.

use vstd::prelude::*;

verus! {

/// Filtering with a predicate that holds everywhere changes nothing.
pub proof fn lemma_filter_all<A>(s: Seq<A>, pred: spec_fn(A) -> bool)
    requires
        forall|i: int| 0 <= i < s.len() ==> pred(s[i]),
    ensures
        s.filter(pred) == s,
    decreases s.len(),
{
    reveal(Seq::filter);
    if s.len() > 0 {
        lemma_filter_all(s.drop_last(), pred);
        assert(s.drop_last().push(s.last()) =~= s);
    }
}

/// Filtering with a predicate that fails exactly at index `i` removes that
/// one element.
pub proof fn lemma_filter_one<A>(s: Seq<A>, pred: spec_fn(A) -> bool, i: int)
    requires
        0 <= i < s.len(),
        !pred(s[i]),
        forall|j: int| 0 <= j < s.len() && j != i ==> pred(s[j]),
    ensures
        s.filter(pred) == s.remove(i),
    decreases s.len(),
{
    reveal(Seq::filter);
    if i == s.len() - 1 {
        lemma_filter_all(s.drop_last(), pred);
        assert(s.drop_last() =~= s.remove(i));
    } else {
        lemma_filter_one(s.drop_last(), pred, i);
        assert(s.drop_last().remove(i).push(s.last()) =~= s.remove(i));
    }
}

/// Filtering a prefix one element longer.
pub proof fn lemma_filter_take_step<A>(s: Seq<A>, pred: spec_fn(A) -> bool, k: int)
    requires
        0 <= k < s.len(),
    ensures
        s.take(k + 1).filter(pred) == if pred(s[k]) {
            s.take(k).filter(pred).push(s[k])
        } else {
            s.take(k).filter(pred)
        },
{
    reveal(Seq::filter);
    assert(s.take(k + 1).drop_last() =~= s.take(k));
}

/// The index of the first element of `s` that satisfies `pred`, if any.
#[verifier::opaque]
pub open spec fn first_where<A>(s: Seq<A>, pred: spec_fn(A) -> bool) -> Option<int> {
    if exists|i: int| 0 <= i < s.len() && pred(s[i]) {
        Some(
            choose|i: int|
                0 <= i < s.len() && pred(s[i]) && forall|j: int| 0 <= j < i ==> !pred(s[j]),
        )
    } else {
        None
    }
}

/// An index that satisfies `pred` and is preceded by none that does is the
/// first one.
pub proof fn lemma_first_where_at<A>(s: Seq<A>, pred: spec_fn(A) -> bool, i: int)
    requires
        0 <= i < s.len(),
        pred(s[i]),
        forall|j: int| 0 <= j < i ==> !pred(s[j]),
    ensures
        first_where(s, pred) == Some(i),
{
    reveal(first_where);
    let k = choose|k: int| 0 <= k < s.len() && pred(s[k]) && forall|j: int| 0 <= j < k ==> !pred(s[j]);
    assert(0 <= k < s.len() && pred(s[k]) && forall|j: int| 0 <= j < k ==> !pred(s[j]));
    if k < i {
        assert(!pred(s[k]));
    } else if k > i {
        assert(!pred(s[i]));
    }
}

/// When no element satisfies `pred` there is no first one.
pub proof fn lemma_first_where_none<A>(s: Seq<A>, pred: spec_fn(A) -> bool)
    requires
        forall|j: int| 0 <= j < s.len() ==> !pred(s[j]),
    ensures
        first_where(s, pred) is None,
{
    reveal(first_where);
}

/// Filtering with a predicate that holds nowhere leaves nothing.
pub proof fn lemma_filter_none<A>(s: Seq<A>, pred: spec_fn(A) -> bool)
    requires
        forall|i: int| 0 <= i < s.len() ==> !pred(s[i]),
    ensures
        s.filter(pred) == Seq::<A>::empty(),
    decreases s.len(),
{
    reveal(Seq::filter);
    if s.len() > 0 {
        lemma_filter_none(s.drop_last(), pred);
    }
}

/// Filtering with a predicate that holds exactly at index `i` keeps that one
/// element.
pub proof fn lemma_filter_single<A>(s: Seq<A>, pred: spec_fn(A) -> bool, i: int)
    requires
        0 <= i < s.len(),
        pred(s[i]),
        forall|j: int| 0 <= j < s.len() && j != i ==> !pred(s[j]),
    ensures
        s.filter(pred) == seq![s[i]],
    decreases s.len(),
{
    reveal(Seq::filter);
    if i == s.len() - 1 {
        lemma_filter_none(s.drop_last(), pred);
        assert(Seq::<A>::empty().push(s[i]) =~= seq![s[i]]);
    } else {
        lemma_filter_single(s.drop_last(), pred, i);
    }
}

/// What the first index satisfying `pred` is: in range, satisfying, and
/// preceded by none that does.
pub proof fn lemma_first_where_props<A>(s: Seq<A>, pred: spec_fn(A) -> bool)
    ensures
        first_where(s, pred) matches Some(i) ==> {
            &&& 0 <= i < s.len()
            &&& pred(s[i])
            &&& forall|j: int| 0 <= j < i ==> !pred(s[j])
        },
        first_where(s, pred) is None ==> forall|j: int| 0 <= j < s.len() ==> !pred(s[j]),
{
    reveal(first_where);
    if exists|i: int| 0 <= i < s.len() && pred(s[i]) {
        let w = choose|i: int| 0 <= i < s.len() && pred(s[i]);
        lemma_least_witness(s, pred, w);
    }
}

/// When some index satisfies `pred`, a least one does.
proof fn lemma_least_witness<A>(s: Seq<A>, pred: spec_fn(A) -> bool, w: int)
    requires
        0 <= w < s.len(),
        pred(s[w]),
    ensures
        exists|i: int| 0 <= i < s.len() && pred(s[i]) && forall|j: int| 0 <= j < i ==> !pred(s[j]),
    decreases w,
{
    if exists|j: int| 0 <= j < w && pred(s[j]) {
        let j = choose|j: int| 0 <= j < w && pred(s[j]);
        lemma_least_witness(s, pred, j);
    } else {
        assert(forall|j: int| 0 <= j < w ==> !pred(s[j]));
    }
}

/// In the sequence `f(0), ..., f(m - 1)` of distinct values, filtered by `p`,
/// a value occurs once when it is one of them and passes `p`, else never.
pub proof fn lemma_range_filter_count<A>(f: spec_fn(int) -> A, p: spec_fn(A) -> bool, m: nat, x: A)
    requires
        forall|i: int, j: int| 0 <= i < j < m ==> #[trigger] f(i) != #[trigger] f(j),
    ensures
        Seq::new(m, f).filter(p).to_multiset().count(x) == if p(x) && Seq::new(m, f).contains(x) {
            1nat
        } else {
            0nat
        },
    decreases m,
{
    broadcast use vstd::seq_lib::group_to_multiset_ensures;
    broadcast use vstd::multiset::group_multiset_axioms;

    if m == 0 {
        assert(Seq::new(m, f).filter(p).len() == 0);
        assert(!Seq::new(m, f).filter(p).contains(x));
    } else {
        let prev = Seq::new((m - 1) as nat, f);
        let y = f(m - 1);
        lemma_range_filter_count(f, p, (m - 1) as nat, x);
        assert(Seq::new(m, f) =~= prev.push(y));
        prev.lemma_filter_push(y, p);
        if x == y {
            assert(!prev.contains(x)) by {
                if prev.contains(x) {
                    let i = choose|i: int| 0 <= i < prev.len() && prev[i] == x;
                    assert(f(i) == f(m - 1));
                }
            }
            assert(Seq::new(m, f)[m - 1] == x);
        } else {
            assert(Seq::new(m, f).contains(x) == prev.contains(x)) by {
                if prev.contains(x) {
                    let i = choose|i: int| 0 <= i < prev.len() && prev[i] == x;
                    assert(Seq::new(m, f)[i] == x);
                }
                if Seq::new(m, f).contains(x) {
                    let i = choose|i: int| 0 <= i < m && Seq::new(m, f)[i] == x;
                    assert(prev[i] == x);
                }
            }
        }
    }
}

/// Sequences with the same elements, each as often, keep that property under
/// any map.
pub proof fn lemma_map_same_multiset<A, B>(a: Seq<A>, b: Seq<A>, f: spec_fn(A) -> B)
    requires
        a.to_multiset() == b.to_multiset(),
    ensures
        a.map_values(f).to_multiset() == b.map_values(f).to_multiset(),
    decreases a.len(),
{
    broadcast use vstd::seq_lib::group_to_multiset_ensures;
    broadcast use vstd::multiset::group_multiset_axioms;

    if a.len() == 0 {
        assert(a.to_multiset().len() == 0);
        assert(b.to_multiset().len() == 0);
        assert(b.len() == 0);
        assert(a.map_values(f) =~= b.map_values(f));
    } else {
        let x = a.last();
        let a1 = a.drop_last();
        assert(a =~= a1.push(x));
        assert(a.contains(x));
        assert(b.to_multiset().count(x) > 0);
        assert(b.contains(x));
        let j = choose|j: int| 0 <= j < b.len() && b[j] == x;
        let b1 = b.remove(j);
        assert(a1.to_multiset() =~= b1.to_multiset()) by {
            assert(a.to_multiset() == a1.to_multiset().insert(x));
            assert(b1.to_multiset() == b.to_multiset().remove(x));
        }
        lemma_map_same_multiset(a1, b1, f);
        let bm = b.map_values(f);
        assert(a.map_values(f) =~= a1.map_values(f).push(f(x)));
        assert(bm.remove(j) =~= b1.map_values(f));
        assert(bm[j] == f(x));
        assert(bm.contains(f(x)));
        assert(bm.remove(j).to_multiset() == bm.to_multiset().remove(f(x)));
        assert(bm.to_multiset() =~= bm.remove(j).to_multiset().insert(f(x)));
    }
}

/// More distinct values than a sequence holds cannot all be in it.
pub proof fn lemma_some_missing<A>(cands: Seq<A>, used: Seq<A>)
    requires
        cands.no_duplicates(),
        cands.len() > used.len(),
    ensures
        exists|k: int| 0 <= k < cands.len() && !used.contains(#[trigger] cands[k]),
{
    if forall|k: int| 0 <= k < cands.len() ==> used.contains(#[trigger] cands[k]) {
        cands.unique_seq_to_set();
        used.lemma_cardinality_of_set();
        assert(cands.to_set().subset_of(used.to_set()));
        vstd::set_lib::lemma_len_subset(cands.to_set(), used.to_set());
    }
}

/// A duplicate among the filtered first `k` elements is a duplicate of the
/// whole filtered sequence.
pub proof fn lemma_filter_no_dup_prefix<A>(s: Seq<A>, p: spec_fn(A) -> bool, k: int)
    requires
        0 <= k <= s.len(),
        s.filter(p).no_duplicates(),
    ensures
        s.take(k).filter(p).no_duplicates(),
{
    assert(s =~= s.take(k) + s.skip(k));
    Seq::filter_distributes_over_add(s.take(k), s.skip(k), p);
    let f = s.take(k).filter(p);
    assert forall|a: int, b: int| 0 <= a < f.len() && 0 <= b < f.len() && a != b implies f[a] != f[b] by {
        assert(s.filter(p)[a] == f[a] && s.filter(p)[b] == f[b]);
    }
}

} // verus!
