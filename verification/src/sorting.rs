use vstd::prelude::*;
use vstd::relations::{sorted_by, strongly_connected, transitive};
use vstd::seq_lib::lemma_multiset_commutative;
use vstd::multiset::Multiset;

verus! {

broadcast use vstd::seq_lib::group_to_multiset_ensures, vstd::multiset::group_multiset_axioms;

/// Inserts `x` after every leading element that sorts no later than it,
/// so that an element added later never overtakes an equal key.
pub open spec fn stable_insert<T>(s: Seq<T>, x: T, leq: spec_fn(T, T) -> bool) -> Seq<T>
    decreases s.len(),
{
    if s.len() == 0 {
        seq![x]
    } else if leq(s[0], x) {
        seq![s[0]] + stable_insert(s.drop_first(), x, leq)
    } else {
        seq![x] + s
    }
}

/// Insertion sort; the canonical reordering of `s` under `leq`.
pub open spec fn stable_sort<T>(s: Seq<T>, leq: spec_fn(T, T) -> bool) -> Seq<T>
    decreases s.len(),
{
    if s.len() == 0 {
        Seq::empty()
    } else {
        stable_insert(stable_sort(s.drop_last(), leq), s.last(), leq)
    }
}

pub proof fn lemma_stable_insert_multiset<T>(s: Seq<T>, x: T, leq: spec_fn(T, T) -> bool)
    ensures
        stable_insert(s, x, leq).to_multiset() == s.to_multiset().insert(x),
        stable_insert(s, x, leq).len() == s.len() + 1,
    decreases s.len(),
{
    if s.len() == 0 {
        assert(seq![x] =~= Seq::<T>::empty().push(x));
        assert(Seq::<T>::empty().push(x).to_multiset() =~= Seq::<T>::empty().to_multiset().insert(
            x,
        ));
        assert(Seq::<T>::empty().to_multiset().len() == 0);
        assert(Seq::<T>::empty().to_multiset() =~= Multiset::<T>::empty());
        assert(stable_insert(s, x, leq).to_multiset() =~= s.to_multiset().insert(x));
    } else if leq(s[0], x) {
        let tail = stable_insert(s.drop_first(), x, leq);
        lemma_stable_insert_multiset(s.drop_first(), x, leq);
        lemma_multiset_commutative(seq![s[0]], tail);
        lemma_multiset_commutative(seq![s[0]], s.drop_first());
        assert(s =~= seq![s[0]] + s.drop_first());
        assert((seq![s[0]] + tail).to_multiset() =~= s.to_multiset().insert(x));
    } else {
        lemma_multiset_commutative(seq![x], s);
        assert(seq![x].to_multiset() =~= Multiset::<T>::empty().insert(x));
        assert((seq![x] + s).to_multiset() =~= s.to_multiset().insert(x));
    }
}

pub proof fn lemma_stable_sort_multiset<T>(s: Seq<T>, leq: spec_fn(T, T) -> bool)
    ensures
        stable_sort(s, leq).to_multiset() == s.to_multiset(),
        stable_sort(s, leq).len() == s.len(),
    decreases s.len(),
{
    if s.len() == 0 {
        assert(stable_sort(s, leq).to_multiset() =~= s.to_multiset());
    } else {
        lemma_stable_sort_multiset(s.drop_last(), leq);
        lemma_stable_insert_multiset(stable_sort(s.drop_last(), leq), s.last(), leq);
        assert(s =~= s.drop_last().push(s.last()));
        assert(s.drop_last().push(s.last()).to_multiset() =~= s.drop_last().to_multiset().insert(
            s.last(),
        ));
        assert(stable_sort(s, leq).to_multiset() =~= s.to_multiset());
    }
}

/// Every element of the sorted sequence comes from the input and conversely.
pub proof fn lemma_stable_sort_contains<T>(s: Seq<T>, leq: spec_fn(T, T) -> bool)
    ensures
        forall|x: T| #[trigger] stable_sort(s, leq).contains(x) <==> s.contains(x),
{
    lemma_stable_sort_multiset(s, leq);
    assert forall|x: T| #[trigger] stable_sort(s, leq).contains(x) <==> s.contains(x) by {
        assert(stable_sort(s, leq).contains(x) <==> stable_sort(s, leq).to_multiset().count(x)
            > 0);
        assert(s.contains(x) <==> s.to_multiset().count(x) > 0);
    }
}

pub proof fn lemma_stable_insert_sorted<T>(s: Seq<T>, x: T, leq: spec_fn(T, T) -> bool)
    requires
        sorted_by(s, leq),
        transitive(leq),
        strongly_connected(leq),
    ensures
        sorted_by(stable_insert(s, x, leq), leq),
    decreases s.len(),
{
    let res = stable_insert(s, x, leq);
    if s.len() == 0 {
    } else if leq(s[0], x) {
        let tail = stable_insert(s.drop_first(), x, leq);
        assert(sorted_by(s.drop_first(), leq)) by {
            assert(forall|i: int, j: int|
                0 <= i < j < s.drop_first().len() ==> s.drop_first()[i] == s[i + 1]
                    && s.drop_first()[j] == s[j + 1]);
        }
        lemma_stable_insert_sorted(s.drop_first(), x, leq);
        lemma_stable_insert_multiset(s.drop_first(), x, leq);
        assert forall|i: int, j: int| 0 <= i < j < res.len() implies leq(res[i], res[j]) by {
            if i == 0 {
                let y = tail[j - 1];
                assert(res[j] == y);
                assert(tail.contains(y));
                assert(tail.to_multiset().count(y) > 0);
                if y == x {
                    assert(leq(s[0], y));
                } else {
                    assert(s.drop_first().to_multiset().insert(x).count(y) > 0);
                    assert(s.drop_first().to_multiset().count(y) > 0);
                    assert(s.drop_first().contains(y));
                    let k = choose|k: int|
                        0 <= k < s.drop_first().len() && s.drop_first()[k] == y;
                    assert(s[k + 1] == y);
                    assert(leq(s[0], s[k + 1]));
                }
            } else {
                assert(res[i] == tail[i - 1]);
                assert(res[j] == tail[j - 1]);
                assert(leq(tail[i - 1], tail[j - 1]));
            }
        }
    } else {
        assert(leq(x, s[0]));
        assert forall|i: int, j: int| 0 <= i < j < res.len() implies leq(res[i], res[j]) by {
            if i == 0 {
                assert(res[j] == s[j - 1]);
                if j == 1 {
                    assert(leq(x, s[0]));
                } else {
                    assert(leq(s[0], s[j - 1]));
                    assert(leq(x, s[j - 1]));
                }
            } else {
                assert(res[i] == s[i - 1]);
                assert(res[j] == s[j - 1]);
            }
        }
    }
}

pub proof fn lemma_stable_sort_sorted<T>(s: Seq<T>, leq: spec_fn(T, T) -> bool)
    requires
        transitive(leq),
        strongly_connected(leq),
    ensures
        sorted_by(stable_sort(s, leq), leq),
    decreases s.len(),
{
    if s.len() != 0 {
        lemma_stable_sort_sorted(s.drop_last(), leq);
        lemma_stable_insert_sorted(stable_sort(s.drop_last(), leq), s.last(), leq);
    }
}

/// Inserting at the position `j` found by scanning a sorted sequence
/// gives exactly `stable_insert`.
pub proof fn lemma_stable_insert_at<T>(s: Seq<T>, x: T, leq: spec_fn(T, T) -> bool, j: int)
    requires
        0 <= j <= s.len(),
        forall|k: int| 0 <= k < j ==> leq(#[trigger] s[k], x),
        j == s.len() || !leq(s[j], x),
    ensures
        stable_insert(s, x, leq) == s.take(j) + seq![x] + s.skip(j),
    decreases s.len(),
{
    if s.len() == 0 {
        assert(stable_insert(s, x, leq) =~= s.take(j) + seq![x] + s.skip(j));
    } else if j == 0 {
        assert(!leq(s[0], x));
        assert(stable_insert(s, x, leq) =~= s.take(0) + seq![x] + s.skip(0));
    } else {
        assert(leq(s[0], x));
        assert(forall|k: int|
            0 <= k < j - 1 ==> s.drop_first()[k] == s[k + 1] && leq(#[trigger] s.drop_first()[k],
                x));
        if j < s.len() {
            assert(s.drop_first()[j - 1] == s[j]);
        }
        lemma_stable_insert_at(s.drop_first(), x, leq, j - 1);
        assert(stable_insert(s, x, leq) =~= s.take(j) + seq![x] + s.skip(j)) by {
            assert(stable_insert(s, x, leq) == seq![s[0]] + (s.drop_first().take(j - 1) + seq![x]
                + s.drop_first().skip(j - 1)));
            assert(forall|k: int|
                0 <= k < j - 1 ==> #[trigger] s.drop_first().take(j - 1)[k] == s[k + 1]);
            assert(forall|k: int|
                0 <= k < s.len() - j ==> #[trigger] s.drop_first().skip(j - 1)[k] == s[k + j]);
        }
    }
}

pub proof fn lemma_map_values_push<T, U>(s: Seq<T>, x: T, f: spec_fn(T) -> U)
    ensures
        s.push(x).map_values(f) == s.map_values(f).push(f(x)),
{
    assert(s.push(x).map_values(f) =~= s.map_values(f).push(f(x)));
}

/// Two sorted sequences carrying the same collection of elements,
/// no element twice and no two distinct elements tied under `leq`,
/// are the same sequence.
pub proof fn lemma_sorted_unique<T>(s1: Seq<T>, s2: Seq<T>, leq: spec_fn(T, T) -> bool)
    requires
        sorted_by(s1, leq),
        sorted_by(s2, leq),
        s1.to_multiset() == s2.to_multiset(),
        forall|x: T| #[trigger] s1.to_multiset().count(x) <= 1,
        forall|x: T, y: T|
            s1.to_multiset().count(x) > 0 && s1.to_multiset().count(y) > 0 && x != y ==> !((
            #[trigger] leq(x, y)) && #[trigger] leq(y, x)),
    ensures
        s1 == s2,
    decreases s1.len(),
{
    if s1.len() == 0 {
        assert(s2.to_multiset().len() == 0);
        assert(s1 =~= s2);
    } else {
        assert(s2.len() == s1.len()) by {
            assert(s1.to_multiset().len() == s1.len());
            assert(s2.to_multiset().len() == s2.len());
        }
        let h1 = s1[0];
        let h2 = s2[0];
        assert(s1.contains(h1));
        assert(s2.contains(h2));
        assert(s1.to_multiset().count(h1) > 0);
        assert(s2.to_multiset().count(h2) > 0);
        assert(h1 == h2) by {
            if h1 != h2 {
                assert(s2.contains(h1)) by {
                    assert(s2.to_multiset().count(h1) > 0);
                }
                assert(s1.contains(h2)) by {
                    assert(s1.to_multiset().count(h2) > 0);
                }
                let k2 = choose|k: int| 0 <= k < s2.len() && s2[k] == h1;
                let k1 = choose|k: int| 0 <= k < s1.len() && s1[k] == h2;
                assert(k2 > 0 && k1 > 0);
                assert(leq(h2, s2[k2]));
                assert(leq(h1, s1[k1]));
            }
        }
        let t1 = s1.drop_first();
        let t2 = s2.drop_first();
        assert(t1.to_multiset() == s1.to_multiset().remove(h1)) by {
            assert(s1.remove(0) =~= t1);
            assert(s1.remove(0).to_multiset() =~= s1.to_multiset().remove(s1[0]));
        }
        assert(t2.to_multiset() == s2.to_multiset().remove(h2)) by {
            assert(s2.remove(0) =~= t2);
            assert(s2.remove(0).to_multiset() =~= s2.to_multiset().remove(s2[0]));
        }
        assert(sorted_by(t1, leq)) by {
            assert(forall|i: int, j: int|
                0 <= i < j < t1.len() ==> t1[i] == s1[i + 1] && t1[j] == s1[j + 1]);
        }
        assert(sorted_by(t2, leq)) by {
            assert(forall|i: int, j: int|
                0 <= i < j < t2.len() ==> t2[i] == s2[i + 1] && t2[j] == s2[j + 1]);
        }
        assert(forall|x: T| #[trigger] t1.to_multiset().count(x) <= 1);
        assert(forall|x: T, y: T|
            t1.to_multiset().count(x) > 0 && t1.to_multiset().count(y) > 0 && x != y ==> !((
            #[trigger] leq(x, y)) && #[trigger] leq(y, x))) by {
            assert(forall|x: T|
                t1.to_multiset().count(x) > 0 ==> #[trigger] s1.to_multiset().count(x) > 0);
        }
        lemma_sorted_unique(t1, t2, leq);
        assert(s1 =~= s2) by {
            assert(forall|i: int| 1 <= i < s1.len() ==> s1[i] == t1[i - 1] && s2[i] == t2[i - 1]);
        }
    }
}

/// An element the filter drops may be inserted anywhere without
/// changing what the filter keeps.
pub proof fn lemma_filter_stable_insert_skip<T>(
    s: Seq<T>,
    x: T,
    leq: spec_fn(T, T) -> bool,
    pred: spec_fn(T) -> bool,
)
    requires
        !pred(x),
    ensures
        stable_insert(s, x, leq).filter(pred) == s.filter(pred),
    decreases s.len(),
{
    if s.len() == 0 {
        assert(seq![x] =~= Seq::<T>::empty().push(x));
        Seq::<T>::empty().lemma_filter_push(x, pred);
        assert(Seq::<T>::empty().filter(pred) =~= Seq::<T>::empty()) by {
            reveal(Seq::filter);
        }
        assert(stable_insert(s, x, leq).filter(pred) =~= s.filter(pred));
    } else if leq(s[0], x) {
        lemma_filter_stable_insert_skip(s.drop_first(), x, leq, pred);
        Seq::<T>::filter_distributes_over_add(
            seq![s[0]],
            stable_insert(s.drop_first(), x, leq),
            pred,
        );
        Seq::<T>::filter_distributes_over_add(seq![s[0]], s.drop_first(), pred);
        assert(s =~= seq![s[0]] + s.drop_first());
    } else {
        Seq::<T>::filter_distributes_over_add(seq![x], s, pred);
        assert(seq![x].filter(pred) =~= Seq::<T>::empty()) by {
            assert(seq![x] =~= Seq::<T>::empty().push(x));
            Seq::<T>::empty().lemma_filter_push(x, pred);
            reveal(Seq::filter);
        }
        assert(stable_insert(s, x, leq).filter(pred) =~= s.filter(pred));
    }
}

/// Two sequences with the same elements, none repeated and no two
/// distinct ones tied, have the same canonical sort.
pub proof fn lemma_stable_sort_unique_perm<T>(s1: Seq<T>, s2: Seq<T>, leq: spec_fn(T, T) -> bool)
    requires
        transitive(leq),
        strongly_connected(leq),
        s1.to_multiset() == s2.to_multiset(),
        s1.no_duplicates(),
        forall|a: int, b: int|
            0 <= a < s1.len() && 0 <= b < s1.len() && a != b ==> !(leq(
                #[trigger] s1[a],
                #[trigger] s1[b],
            ) && leq(s1[b], s1[a])),
    ensures
        stable_sort(s1, leq) == stable_sort(s2, leq),
{
    let t1 = stable_sort(s1, leq);
    let t2 = stable_sort(s2, leq);
    lemma_stable_sort_sorted(s1, leq);
    lemma_stable_sort_sorted(s2, leq);
    lemma_stable_sort_multiset(s1, leq);
    lemma_stable_sort_multiset(s2, leq);
    s1.lemma_multiset_has_no_duplicates();
    assert(forall|x: T| #[trigger] t1.to_multiset().count(x) <= 1) by {
        assert(forall|x: T|
            #[trigger] s1.to_multiset().count(x) > 0 ==> s1.to_multiset().count(x) == 1);
    }
    assert forall|x: T, y: T|
        t1.to_multiset().count(x) > 0 && t1.to_multiset().count(y) > 0 && x != y implies !((
    #[trigger] leq(x, y)) && #[trigger] leq(y, x)) by {
        assert(s1.contains(x));
        assert(s1.contains(y));
        let a = choose|a: int| 0 <= a < s1.len() && s1[a] == x;
        let b = choose|b: int| 0 <= b < s1.len() && s1[b] == y;
        assert(a != b);
    }
    lemma_sorted_unique(t1, t2, leq);
}

/// Sorting commutes with mapping a function that leaves the order alone.
pub proof fn lemma_stable_insert_map<T, U>(
    s: Seq<T>,
    x: T,
    f: spec_fn(T) -> U,
    leq1: spec_fn(T, T) -> bool,
    leq2: spec_fn(U, U) -> bool,
)
    requires
        forall|a: T, b: T| #[trigger] leq2(f(a), f(b)) == leq1(a, b),
    ensures
        stable_insert(s.map_values(f), f(x), leq2) == stable_insert(s, x, leq1).map_values(f),
    decreases s.len(),
{
    let sm = s.map_values(f);
    if s.len() == 0 {
        assert(stable_insert(sm, f(x), leq2) =~= stable_insert(s, x, leq1).map_values(f));
    } else {
        assert(sm[0] == f(s[0]));
        assert(sm.drop_first() =~= s.drop_first().map_values(f));
        lemma_stable_insert_map(s.drop_first(), x, f, leq1, leq2);
        if leq1(s[0], x) {
            assert(stable_insert(sm, f(x), leq2) =~= stable_insert(s, x, leq1).map_values(f));
        } else {
            assert(stable_insert(sm, f(x), leq2) =~= stable_insert(s, x, leq1).map_values(f));
        }
    }
}

pub proof fn lemma_stable_sort_map<T, U>(
    s: Seq<T>,
    f: spec_fn(T) -> U,
    leq1: spec_fn(T, T) -> bool,
    leq2: spec_fn(U, U) -> bool,
)
    requires
        forall|a: T, b: T| #[trigger] leq2(f(a), f(b)) == leq1(a, b),
    ensures
        stable_sort(s.map_values(f), leq2) == stable_sort(s, leq1).map_values(f),
    decreases s.len(),
{
    let sm = s.map_values(f);
    if s.len() == 0 {
        assert(stable_sort(sm, leq2) =~= stable_sort(s, leq1).map_values(f));
    } else {
        assert(sm.drop_last() =~= s.drop_last().map_values(f));
        assert(sm.last() == f(s.last()));
        lemma_stable_sort_map(s.drop_last(), f, leq1, leq2);
        lemma_stable_insert_map(stable_sort(s.drop_last(), leq1), s.last(), f, leq1, leq2);
    }
}

} // verus!
