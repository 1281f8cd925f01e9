//! Small general facts about `Seq::filter` that the radius-query proofs
//! share: filtering keeps everything, nothing, or agrees for pointwise-equal
//! predicates.

use vstd::prelude::*;

verus! {

/// A filter whose predicate holds of every element is the identity.
pub proof fn lemma_filter_all<A>(s: Seq<A>, p: spec_fn(A) -> bool)
    requires
        forall|i: int| 0 <= i < s.len() ==> p(#[trigger] s[i]),
    ensures
        s.filter(p) == s,
    decreases s.len(),
{
    reveal(Seq::filter);
    if s.len() == 0 {
        assert(s.filter(p) =~= s);
    } else {
        lemma_filter_all(s.drop_last(), p);
        assert(p(s.last()));
        assert(s.filter(p) =~= s);
    }
}

/// A filter whose predicate holds of no element is empty.
pub proof fn lemma_filter_none<A>(s: Seq<A>, p: spec_fn(A) -> bool)
    requires
        forall|i: int| 0 <= i < s.len() ==> !p(#[trigger] s[i]),
    ensures
        s.filter(p) == Seq::<A>::empty(),
    decreases s.len(),
{
    reveal(Seq::filter);
    if s.len() == 0 {
        assert(s.filter(p) =~= Seq::<A>::empty());
    } else {
        lemma_filter_none(s.drop_last(), p);
        assert(!p(s.last()));
        assert(s.filter(p) =~= Seq::<A>::empty());
    }
}

/// Predicates that agree on the elements of a sequence filter it identically.
pub proof fn lemma_filter_congruent<A>(s: Seq<A>, p: spec_fn(A) -> bool, q: spec_fn(A) -> bool)
    requires
        forall|i: int| 0 <= i < s.len() ==> p(#[trigger] s[i]) == q(s[i]),
    ensures
        s.filter(p) == s.filter(q),
    decreases s.len(),
{
    reveal(Seq::filter);
    if s.len() == 0 {
        assert(s.filter(p) =~= s.filter(q));
    } else {
        lemma_filter_congruent(s.drop_last(), p, q);
        assert(s.filter(p) =~= s.filter(q));
    }
}

/// Two filters in a row act as the conjunction of their predicates.
pub proof fn lemma_filter_filter<A>(s: Seq<A>, p: spec_fn(A) -> bool, q: spec_fn(A) -> bool)
    ensures
        s.filter(p).filter(q) == s.filter(|x: A| p(x) && q(x)),
    decreases s.len(),
{
    reveal(Seq::filter);
    if s.len() == 0 {
        assert(s.filter(p).filter(q) =~= s.filter(|x: A| p(x) && q(x)));
    } else {
        lemma_filter_filter(s.drop_last(), p, q);
        let fp = s.drop_last().filter(p);
        if p(s.last()) {
            assert(s.filter(p) == fp.push(s.last()));
            assert(fp.push(s.last()).drop_last() == fp);
            assert(s.filter(p).filter(q) =~= s.filter(|x: A| p(x) && q(x)));
        } else {
            assert(s.filter(p) == fp);
            assert(s.filter(p).filter(q) =~= s.filter(|x: A| p(x) && q(x)));
        }
    }
}

/// Every element of a filtered sequence comes from the original.
pub proof fn lemma_filter_subset<A>(s: Seq<A>, p: spec_fn(A) -> bool)
    ensures
        forall|i: int| 0 <= i < s.filter(p).len() ==> s.contains(#[trigger] s.filter(p)[i]),
    decreases s.len(),
{
    reveal(Seq::filter);
    if s.len() == 0 {
    } else {
        lemma_filter_subset(s.drop_last(), p);
        assert forall|i: int| 0 <= i < s.filter(p).len() implies s.contains(
            #[trigger] s.filter(p)[i],
        ) by {
            let f = s.filter(p);
            let fp = s.drop_last().filter(p);
            if p(s.last()) {
                assert(f == fp.push(s.last()));
                if i < fp.len() {
                    assert(f[i] == fp[i]);
                    assert(s.drop_last().contains(fp[i]));
                    let w = choose|w: int| 0 <= w < s.drop_last().len() && s.drop_last()[w] == fp[i];
                    assert(s[w] == fp[i]);
                } else {
                    assert(f[i] == s.last());
                    assert(s[s.len() - 1] == s.last());
                }
            } else {
                assert(f == fp);
                assert(s.drop_last().contains(fp[i]));
                let w = choose|w: int| 0 <= w < s.drop_last().len() && s.drop_last()[w] == fp[i];
                assert(s[w] == fp[i]);
            }
        }
    }
}

/// Sequences with equal multisets keep equal multisets after mapping.
pub proof fn lemma_map_values_multiset<A, B>(s1: Seq<A>, s2: Seq<A>, f: spec_fn(A) -> B)
    requires
        s1.to_multiset() == s2.to_multiset(),
    ensures
        s1.map_values(f).to_multiset() == s2.map_values(f).to_multiset(),
    decreases s1.len(),
{
    broadcast use vstd::seq_lib::group_to_multiset_ensures;

    if s1.len() == 0 {
        assert(s2.to_multiset().len() == 0);
        assert(s2.len() == 0);
        assert(s1.map_values(f).to_multiset() =~= s2.map_values(f).to_multiset());
    } else {
        let a = s1.last();
        let s1p = s1.drop_last();
        assert(s1 == s1p.push(a));
        assert(s1.to_multiset() == s1p.to_multiset().insert(a));
        assert(s1.to_multiset().count(a) > 0);
        assert(s2.to_multiset().count(a) > 0);
        assert(s2.contains(a));
        let k = choose|k: int| 0 <= k < s2.len() && s2[k] == a;
        assert(s2.remove(k).to_multiset() == s2.to_multiset().remove(a));
        assert(s1p.to_multiset() =~= s2.remove(k).to_multiset());
        lemma_map_values_multiset(s1p, s2.remove(k), f);
        assert(s1.map_values(f) == s1p.map_values(f).push(f(a))) by {
            assert(s1.map_values(f) =~= s1p.map_values(f).push(f(a)));
        }
        assert(s1.map_values(f).to_multiset() == s1p.map_values(f).to_multiset().insert(f(a)));
        assert(s2.remove(k).map_values(f) == s2.map_values(f).remove(k)) by {
            assert(s2.remove(k).map_values(f) =~= s2.map_values(f).remove(k));
        }
        assert(s2.map_values(f).remove(k).to_multiset() == s2.map_values(f).to_multiset().remove(
            s2.map_values(f)[k],
        ));
        assert(s2.map_values(f)[k] == f(a));
        assert(s2.map_values(f).to_multiset().count(f(a)) > 0) by {
            assert(s2.map_values(f).contains(f(a)));
        }
        assert(s1.map_values(f).to_multiset() =~= s2.map_values(f).to_multiset());
    }
}

} // verus!
