//! Facts about filtering a sequence and about what a sequence holds.

use vstd::prelude::*;
use vstd::multiset::Multiset;
use vstd::seq_lib::{lemma_multiset_commutative, to_multiset_build, to_multiset_contains};

verus! {

/// Filtering by either of two conditions that exclude each other gives what
/// filtering by the one and filtering by the other give together.
pub proof fn lemma_filter_split<A>(
    s: Seq<A>,
    p: spec_fn(A) -> bool,
    q: spec_fn(A) -> bool,
    r: spec_fn(A) -> bool,
)
    requires
        forall|x: A| s.contains(x) ==> (r(x) <==> (p(x) || q(x))) && !(p(x) && q(x)),
    ensures
        s.filter(r).to_multiset() =~= s.filter(p).to_multiset().add(s.filter(q).to_multiset()),
    decreases s.len(),
{
    if s.len() == 0 {
        s.lemma_filter_len(p);
        s.lemma_filter_len(q);
        s.lemma_filter_len(r);
        assert(s.filter(p) =~= Seq::<A>::empty());
        assert(s.filter(q) =~= Seq::<A>::empty());
        assert(s.filter(r) =~= Seq::<A>::empty());
        lemma_multiset_commutative(s.filter(p), s.filter(q));
        assert(s.filter(p) + s.filter(q) =~= s.filter(r));
    } else {
        let t = s.drop_last();
        let e = s.last();
        assert(t.push(e) =~= s);
        assert(s.contains(e));
        assert forall|x: A| t.contains(x) implies s.contains(x) by {
            let i = choose|i: int| 0 <= i < t.len() && t[i] == x;
            assert(s[i] == x);
        }
        lemma_filter_split(t, p, q, r);
        t.lemma_filter_push(e, p);
        t.lemma_filter_push(e, q);
        t.lemma_filter_push(e, r);
        to_multiset_build(t.filter(p), e);
        to_multiset_build(t.filter(q), e);
        to_multiset_build(t.filter(r), e);
    }
}

/// A filter that every entry passes changes nothing.
pub proof fn lemma_filter_keeps_all<A>(s: Seq<A>, p: spec_fn(A) -> bool)
    requires
        forall|x: A| s.contains(x) ==> p(x),
    ensures
        s.filter(p) == s,
    decreases s.len(),
{
    if s.len() == 0 {
        s.lemma_filter_len(p);
        assert(s.filter(p) =~= s);
    } else {
        let t = s.drop_last();
        let e = s.last();
        assert(t.push(e) =~= s);
        assert(s.contains(e));
        assert forall|x: A| t.contains(x) implies s.contains(x) by {
            let i = choose|i: int| 0 <= i < t.len() && t[i] == x;
            assert(s[i] == x);
        }
        lemma_filter_keeps_all(t, p);
        t.lemma_filter_push(e, p);
    }
}

/// A filter that no entry passes leaves nothing.
pub proof fn lemma_filter_drops_all<A>(s: Seq<A>, p: spec_fn(A) -> bool)
    requires
        forall|x: A| s.contains(x) ==> !p(x),
    ensures
        s.filter(p).len() == 0,
    decreases s.len(),
{
    if s.len() == 0 {
        s.lemma_filter_len(p);
    } else {
        let t = s.drop_last();
        let e = s.last();
        assert(t.push(e) =~= s);
        assert(s.contains(e));
        assert forall|x: A| t.contains(x) implies s.contains(x) by {
            let i = choose|i: int| 0 <= i < t.len() && t[i] == x;
            assert(s[i] == x);
        }
        lemma_filter_drops_all(t, p);
        t.lemma_filter_push(e, p);
    }
}

/// Filtering by one condition and then by another is filtering by both at once.
pub proof fn lemma_filter_twice<A>(
    s: Seq<A>,
    p: spec_fn(A) -> bool,
    q: spec_fn(A) -> bool,
    r: spec_fn(A) -> bool,
)
    requires
        forall|x: A| s.contains(x) ==> (r(x) <==> (p(x) && q(x))),
    ensures
        s.filter(p).filter(q) == s.filter(r),
    decreases s.len(),
{
    if s.len() == 0 {
        s.lemma_filter_len(p);
        s.lemma_filter_len(r);
        s.filter(p).lemma_filter_len(q);
        assert(s.filter(p).filter(q) =~= s.filter(r));
    } else {
        let t = s.drop_last();
        let e = s.last();
        assert(t.push(e) =~= s);
        assert(s.contains(e));
        assert forall|x: A| t.contains(x) implies s.contains(x) by {
            let i = choose|i: int| 0 <= i < t.len() && t[i] == x;
            assert(s[i] == x);
        }
        lemma_filter_twice(t, p, q, r);
        t.lemma_filter_push(e, p);
        t.lemma_filter_push(e, r);
        t.filter(p).lemma_filter_push(e, q);
    }
}

/// An entry that passes the filter is among what the filter keeps.
pub proof fn lemma_filter_holds<A>(s: Seq<A>, p: spec_fn(A) -> bool, x: A)
    requires
        s.contains(x),
        p(x),
    ensures
        s.filter(p).contains(x),
{
    let i = choose|i: int| 0 <= i < s.len() && s[i] == x;
    s.lemma_filter_contains(p, i);
}

/// What a filter keeps of a sequence without repeated entries has no repeated entries.
pub proof fn lemma_filter_no_duplicates<A>(s: Seq<A>, p: spec_fn(A) -> bool)
    requires
        s.no_duplicates(),
    ensures
        s.filter(p).no_duplicates(),
    decreases s.len(),
{
    if s.len() == 0 {
        s.lemma_filter_len(p);
    } else {
        let t = s.drop_last();
        let e = s.last();
        assert(t.push(e) =~= s);
        lemma_filter_no_duplicates(t, p);
        t.lemma_filter_push(e, p);
        if p(e) {
            let kept = t.filter(p);
            assert forall|i: int| 0 <= i < kept.len() implies kept[i] != e by {
                assert(kept.contains(kept[i]));
                t.lemma_filter_contains_rev(p, kept[i]);
                let at = choose|at: int| 0 <= at < t.len() && t[at] == kept[i];
                assert(s[at] == kept[i]);
            }
        }
    }
}

/// What a filter keeps is part of the sequence.
pub proof fn lemma_filter_part<A>(s: Seq<A>, p: spec_fn(A) -> bool, i: int)
    requires
        0 <= i < s.filter(p).len(),
    ensures
        s.contains(s.filter(p)[i]),
        p(s.filter(p)[i]),
{
    s.lemma_filter_pred(p, i);
    assert(s.filter(p).contains(s.filter(p)[i]));
    s.lemma_filter_contains_rev(p, s.filter(p)[i]);
}

/// A sequence without entries holds nothing.
pub proof fn lemma_nothing_listed<A>(s: Seq<A>)
    requires
        s.len() == 0,
    ensures
        s.to_multiset() == Multiset::<A>::empty(),
{
    assert forall|x: A| s.to_multiset().count(x) == 0 by {
        to_multiset_contains(s, x);
    }
    assert(s.to_multiset() =~= Multiset::<A>::empty());
}

} // verus!
