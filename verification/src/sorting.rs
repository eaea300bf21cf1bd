//! Stable insertion sort over values that know which of two must come first.

use vstd::prelude::*;

verus! {

/// A strict "comes before" relation with an executable test.
pub trait Ranked: Sized + Copy {
    spec fn before(self, other: Self) -> bool;

    fn is_before(&self, other: &Self) -> (b: bool)
        ensures
            b == self.before(*other),
    ;
}

/// Inserts `e` into `s` after every element it does not come before.
pub open spec fn insert_sorted<T: Ranked>(s: Seq<T>, e: T) -> Seq<T>
    decreases s.len(),
{
    if s.len() == 0 {
        seq![e]
    } else if e.before(s.last()) {
        insert_sorted(s.drop_last(), e).push(s.last())
    } else {
        s.push(e)
    }
}

/// The stable sort of `s`: each element, in order, inserted after all the
/// elements before it that it does not come before.
pub open spec fn stable_sorted<T: Ranked>(s: Seq<T>) -> Seq<T>
    decreases s.len(),
{
    if s.len() == 0 {
        s
    } else {
        insert_sorted(stable_sorted(s.drop_last()), s.last())
    }
}

proof fn lemma_insert_at<T: Ranked>(s: Seq<T>, e: T, p: int)
    requires
        0 <= p <= s.len(),
        forall|k: int| p <= k < s.len() ==> e.before(#[trigger] s[k]),
        p == 0 || !e.before(s[p - 1]),
    ensures
        insert_sorted(s, e) == s.insert(p, e),
    decreases s.len(),
{
    if s.len() == 0 {
        assert(s.insert(p, e) =~= seq![e]);
    } else if p < s.len() {
        assert(e.before(s[s.len() - 1]));
        let d = s.drop_last();
        assert forall|k: int| p <= k < d.len() implies e.before(#[trigger] d[k]) by {
            assert(d[k] == s[k]);
        }
        if p > 0 {
            assert(d[p - 1] == s[p - 1]);
        }
        lemma_insert_at(d, e, p);
        assert(d.insert(p, e).push(s.last()) =~= s.insert(p, e));
    } else {
        assert(!e.before(s.last()));
        assert(s.push(e) =~= s.insert(p, e));
    }
}

proof fn lemma_insert_sorted_multiset<T: Ranked>(s: Seq<T>, e: T)
    ensures
        insert_sorted(s, e).to_multiset() =~= s.to_multiset().insert(e),
        insert_sorted(s, e).len() == s.len() + 1,
    decreases s.len(),
{
    broadcast use vstd::seq_lib::group_to_multiset_ensures;
    if s.len() == 0 {
        assert(seq![e] =~= Seq::<T>::empty().push(e));
    } else if e.before(s.last()) {
        let d = s.drop_last();
        lemma_insert_sorted_multiset(d, e);
        assert(d.push(s.last()) =~= s);
        assert(insert_sorted(s, e).to_multiset() =~= insert_sorted(d, e).to_multiset().insert(s.last()));
        assert(s.to_multiset() =~= d.to_multiset().insert(s.last()));
    }
}

/// Sorting keeps exactly the elements it was given: the sorted sequence is
/// a permutation of the input.
pub proof fn lemma_stable_sorted_permutation<T: Ranked>(s: Seq<T>)
    ensures
        stable_sorted(s).to_multiset() =~= s.to_multiset(),
        stable_sorted(s).len() == s.len(),
    decreases s.len(),
{
    broadcast use vstd::seq_lib::group_to_multiset_ensures;
    if s.len() > 0 {
        let d = s.drop_last();
        lemma_stable_sorted_permutation(d);
        lemma_insert_sorted_multiset(stable_sorted(d), s.last());
        assert(d.push(s.last()) =~= s);
    }
}

/// Every element of the sorted sequence comes from the input.
pub proof fn lemma_stable_sorted_contains<T: Ranked>(s: Seq<T>, i: int)
    requires
        0 <= i < stable_sorted(s).len(),
    ensures
        s.contains(stable_sorted(s)[i]),
{
    broadcast use vstd::seq_lib::group_to_multiset_ensures;
    lemma_stable_sorted_permutation(s);
    let x = stable_sorted(s)[i];
    assert(stable_sorted(s).contains(x));
    assert(stable_sorted(s).to_multiset().count(x) > 0);
    assert(s.to_multiset().count(x) > 0);
}

/// `before` is a strict weak order: never both ways round, and "does not
/// come before" is transitive.
pub open spec fn weak_order<T: Ranked>() -> bool {
    &&& forall|a: T, b: T| #[trigger] a.before(b) ==> !b.before(a)
    &&& forall|a: T, b: T, c: T| #![trigger a.before(b), b.before(c)] #![trigger a.before(c), b.before(c)]
        !a.before(b) && !b.before(c) ==> !a.before(c)
}

/// No element comes before one that precedes it.
pub open spec fn is_ranked<T: Ranked>(s: Seq<T>) -> bool {
    forall|i: int, j: int| 0 <= i < j < s.len() ==> !(#[trigger] s[j]).before(#[trigger] s[i])
}

pub(crate) proof fn lemma_insert_sorted_at<T: Ranked>(s: Seq<T>, e: T) -> (p: int)
    ensures
        0 <= p <= s.len(),
        insert_sorted(s, e) == s.insert(p, e),
        forall|k: int| p <= k < s.len() ==> e.before(#[trigger] s[k]),
        p == 0 || !e.before(s[p - 1]),
    decreases s.len(),
{
    if s.len() == 0 {
        assert(s.insert(0, e) =~= seq![e]);
        0
    } else if e.before(s.last()) {
        let d = s.drop_last();
        let p = lemma_insert_sorted_at(d, e);
        assert(d.insert(p, e).push(s.last()) =~= s.insert(p, e));
        assert forall|k: int| p <= k < s.len() implies e.before(#[trigger] s[k]) by {
            if k < d.len() {
                assert(d[k] == s[k]);
            }
        }
        if p > 0 {
            assert(d[p - 1] == s[p - 1]);
        }
        p
    } else {
        assert(s.push(e) =~= s.insert(s.len() as int, e));
        s.len() as int
    }
}

proof fn lemma_insert_sorted_ranked<T: Ranked>(s: Seq<T>, e: T)
    requires
        weak_order::<T>(),
        is_ranked(s),
    ensures
        is_ranked(insert_sorted(s, e)),
{
    let p = lemma_insert_sorted_at(s, e);
    let r = s.insert(p, e);
    assert forall|i: int, j: int| 0 <= i < j < r.len() implies !(#[trigger] r[j]).before(#[trigger] r[i]) by {
        if i < p && j < p {
            assert(r[i] == s[i] && r[j] == s[j]);
        } else if i < p && j == p {
            assert(r[i] == s[i] && r[j] == e);
            assert(!e.before(s[p - 1]));
            if i < p - 1 {
                assert(!s[p - 1].before(s[i]));
            }
        } else if i < p {
            assert(r[i] == s[i] && r[j] == s[j - 1]);
        } else if i == p {
            assert(r[i] == e && r[j] == s[j - 1]);
            assert(e.before(s[j - 1]));
        } else {
            assert(r[i] == s[i - 1] && r[j] == s[j - 1]);
        }
    }
}

/// Under a strict weak order the stable sort is ordered: no element comes
/// before one placed ahead of it.
pub proof fn lemma_stable_sorted_ranked<T: Ranked>(s: Seq<T>)
    requires
        weak_order::<T>(),
    ensures
        is_ranked(stable_sorted(s)),
    decreases s.len(),
{
    if s.len() > 0 {
        lemma_stable_sorted_ranked(s.drop_last());
        lemma_insert_sorted_ranked(stable_sorted(s.drop_last()), s.last());
    }
}

/// Stable sort by [`Ranked::before`].
pub fn stable_sort<T: Ranked>(v: &Vec<T>) -> (r: Vec<T>)
    ensures
        r@ == stable_sorted(v@),
{
    let mut r: Vec<T> = Vec::new();
    let mut i: usize = 0;
    proof {
        assert(v@.take(0) =~= Seq::<T>::empty());
    }
    while i < v.len()
        invariant
            i <= v@.len(),
            r@ == stable_sorted(v@.take(i as int)),
        decreases v.len() - i,
    {
        let e = v[i];
        let mut p: usize = r.len();
        while p > 0 && e.is_before(&r[p - 1])
            invariant
                p <= r@.len(),
                forall|k: int| p <= k < r@.len() ==> e.before(#[trigger] r@[k]),
            decreases p,
        {
            p = p - 1;
        }
        proof {
            lemma_insert_at(r@, e, p as int);
            assert(v@.take(i + 1).drop_last() =~= v@.take(i as int));
            assert(v@.take(i + 1).last() == e);
        }
        r.insert(p, e);
        i = i + 1;
    }
    proof {
        assert(v@.take(v@.len() as int) =~= v@);
    }
    r
}

} // verus!
