//! Small general lemmas about `Seq::filter` used across the crate.

use vstd::prelude::*;

verus! {

/// Filtering keeps only elements of the sequence.
pub proof fn lemma_filter_sub<A>(s: Seq<A>, pred: spec_fn(A) -> bool, k: int)
    requires
        0 <= k < s.filter(pred).len(),
    ensures
        s.contains(s.filter(pred)[k]),
    decreases s.len(),
{
    reveal(Seq::filter);
    if s.len() > 0 {
        if k < s.drop_last().filter(pred).len() {
            lemma_filter_sub(s.drop_last(), pred, k);
            let e = s.drop_last().filter(pred)[k];
            let i = choose|i: int| 0 <= i < s.drop_last().len() && s.drop_last()[i] == e;
            assert(s[i] == e);
        } else {
            assert(s.filter(pred)[k] == s.last());
            assert(s[s.len() - 1] == s.last());
        }
    }
}

/// One step of filtering a growing prefix.
pub proof fn lemma_filter_take_step<A>(s: Seq<A>, pred: spec_fn(A) -> bool, i: int)
    requires
        0 <= i < s.len(),
    ensures
        s.take(i + 1).filter(pred) == if pred(s[i]) {
            s.take(i).filter(pred).push(s[i])
        } else {
            s.take(i).filter(pred)
        },
{
    reveal(Seq::filter);
    assert(s.take(i + 1).drop_last() =~= s.take(i));
    assert(s.take(i + 1).last() == s[i]);
}

/// Appending one element changes a filter by at most that element.
pub proof fn lemma_filter_push<A>(s: Seq<A>, pred: spec_fn(A) -> bool, x: A)
    ensures
        s.push(x).filter(pred) == if pred(x) {
            s.filter(pred).push(x)
        } else {
            s.filter(pred)
        },
{
    reveal(Seq::filter);
    assert(s.push(x).drop_last() =~= s);
    assert(s.push(x).last() == x);
}

/// A filter whose predicate holds nowhere is empty.
pub proof fn lemma_filter_all_false<A>(s: Seq<A>, pred: spec_fn(A) -> bool)
    requires
        forall|i: int| 0 <= i < s.len() ==> !pred(s[i]),
    ensures
        s.filter(pred).len() == 0,
    decreases s.len(),
{
    reveal(Seq::filter);
    if s.len() > 0 {
        assert(forall|i: int| 0 <= i < s.drop_last().len() ==> s.drop_last()[i] == s[i]);
        lemma_filter_all_false(s.drop_last(), pred);
    }
}

/// Two filters with pointwise-equivalent predicates are equal.
pub proof fn lemma_filter_congruent<A>(s: Seq<A>, p: spec_fn(A) -> bool, q: spec_fn(A) -> bool)
    requires
        forall|i: int| 0 <= i < s.len() ==> p(s[i]) == q(s[i]),
    ensures
        s.filter(p) == s.filter(q),
    decreases s.len(),
{
    reveal(Seq::filter);
    if s.len() > 0 {
        assert(forall|i: int| 0 <= i < s.drop_last().len() ==> s.drop_last()[i] == s[i]);
        lemma_filter_congruent(s.drop_last(), p, q);
    }
}

/// Filtering by a stronger predicate after a weaker one is the same as
/// filtering by the stronger one alone.
pub proof fn lemma_filter_subsume<A>(s: Seq<A>, p: spec_fn(A) -> bool, q: spec_fn(A) -> bool)
    requires
        forall|x: A| #[trigger] q(x) ==> p(x),
    ensures
        s.filter(p).filter(q) == s.filter(q),
    decreases s.len(),
{
    reveal(Seq::filter);
    if s.len() > 0 {
        lemma_filter_subsume(s.drop_last(), p, q);
        if p(s.last()) {
            assert(s.filter(p) == s.drop_last().filter(p).push(s.last()));
            lemma_filter_push(s.drop_last().filter(p), q, s.last());
        }
    }
}

/// A filter of two disjoint predicates splits into the sum of their counts.
pub proof fn lemma_filter_disjoint_union<A>(
    s: Seq<A>,
    p: spec_fn(A) -> bool,
    q: spec_fn(A) -> bool,
    u: spec_fn(A) -> bool,
)
    requires
        forall|x: A| #[trigger] u(x) == (p(x) || q(x)),
        forall|x: A| !(#[trigger] p(x) && q(x)),
    ensures
        s.filter(u).len() == s.filter(p).len() + s.filter(q).len(),
    decreases s.len(),
{
    reveal(Seq::filter);
    if s.len() > 0 {
        lemma_filter_disjoint_union(s.drop_last(), p, q, u);
        assert(u(s.last()) == (p(s.last()) || q(s.last())));
    }
}

} // verus!
