//! Sorting of tuples of integers.
use vstd::prelude::*;
use vstd::relations::{sorted_by, total_ordering};
use vstd::seq_lib::lemma_sorted_unique;

verus! {

/// The order of pairs: by the first component, then by the second.
pub open spec fn pair_leq(a: (u8, usize), b: (u8, usize)) -> bool {
    a.0 < b.0 || (a.0 == b.0 && a.1 <= b.1)
}

/// The order of triples: by the first component, then the second, then the third.
pub open spec fn triple_leq(a: (usize, usize, usize), b: (usize, usize, usize)) -> bool {
    a.0 < b.0 || (a.0 == b.0 && (a.1 < b.1 || (a.1 == b.1 && a.2 <= b.2)))
}

/// The pairs of `s` in increasing order.
pub open spec fn sorted_pairs(s: Seq<(u8, usize)>) -> Seq<(u8, usize)> {
    s.sort_by(|a: (u8, usize), b: (u8, usize)| pair_leq(a, b))
}

/// The triples of `s` in increasing order.
pub open spec fn sorted_triples(s: Seq<(usize, usize, usize)>) -> Seq<(usize, usize, usize)> {
    s.sort_by(|a: (usize, usize, usize), b: (usize, usize, usize)| triple_leq(a, b))
}

/// `slice::sort` on pairs of integers rearranges them into increasing order;
/// pairs are ordered by their first component, then by their second.
#[verifier::external_body]
fn std_sort_pairs(v: &mut Vec<(u8, usize)>)
    ensures
        final(v)@.to_multiset() == old(v)@.to_multiset(),
        sorted_by(final(v)@, |a: (u8, usize), b: (u8, usize)| pair_leq(a, b)),
{
    v.sort();
}

/// `slice::sort` on triples of integers rearranges them into increasing order;
/// triples are ordered by their components from left to right.
#[verifier::external_body]
fn std_sort_triples(v: &mut Vec<(usize, usize, usize)>)
    ensures
        final(v)@.to_multiset() == old(v)@.to_multiset(),
        sorted_by(
            final(v)@,
            |a: (usize, usize, usize), b: (usize, usize, usize)| triple_leq(a, b),
        ),
{
    v.sort();
}

/// `slice::sort_unstable` on integers rearranges them into increasing order.
#[verifier::external_body]
fn std_sort_numbers(v: &mut Vec<usize>)
    ensures
        final(v)@.to_multiset() == old(v)@.to_multiset(),
        sorted_by(final(v)@, |a: usize, b: usize| a <= b),
{
    v.sort_unstable();
}

/// The numbers of `s` in increasing order.
pub open spec fn sorted_numbers(s: Seq<usize>) -> Seq<usize> {
    s.sort_by(|a: usize, b: usize| a <= b)
}

/// Sorts numbers.
pub fn sort_numbers(v: &mut Vec<usize>)
    ensures
        final(v)@ == sorted_numbers(old(v)@),
{
    let ghost before = v@;
    std_sort_numbers(v);
    proof {
        let leq = |a: usize, b: usize| a <= b;
        assert(total_ordering(leq));
        before.lemma_sort_by_ensures(leq);
        lemma_sorted_unique(v@, sorted_numbers(before), leq);
    }
}

/// Sorting keeps the numbers.
pub proof fn lemma_sorted_numbers(s: Seq<usize>)
    ensures
        sorted_numbers(s).len() == s.len(),
        forall|x: usize| #[trigger] sorted_numbers(s).contains(x) <==> s.contains(x),
{
    let leq = |a: usize, b: usize| a <= b;
    assert(total_ordering(leq));
    s.lemma_sort_by_ensures(leq);
    broadcast use vstd::seq_lib::group_to_multiset_ensures;

    let t = sorted_numbers(s);
    assert(s.to_multiset().len() == t.to_multiset().len());
    assert forall|x: usize| #[trigger] t.contains(x) <==> s.contains(x) by {
        assert(s.contains(x) <==> s.to_multiset().count(x) > 0);
        assert(t.contains(x) <==> t.to_multiset().count(x) > 0);
    }
}

/// Sorts pairs.
pub fn sort_pairs(v: &mut Vec<(u8, usize)>)
    ensures
        final(v)@ == sorted_pairs(old(v)@),
{
    let ghost before = v@;
    std_sort_pairs(v);
    proof {
        let leq = |a: (u8, usize), b: (u8, usize)| pair_leq(a, b);
        assert(total_ordering(leq));
        before.lemma_sort_by_ensures(leq);
        lemma_sorted_unique(v@, sorted_pairs(before), leq);
    }
}

/// Sorts triples.
pub fn sort_triples(v: &mut Vec<(usize, usize, usize)>)
    ensures
        final(v)@ == sorted_triples(old(v)@),
{
    let ghost before = v@;
    std_sort_triples(v);
    proof {
        let leq = |a: (usize, usize, usize), b: (usize, usize, usize)| triple_leq(a, b);
        assert(total_ordering(leq));
        before.lemma_sort_by_ensures(leq);
        lemma_sorted_unique(v@, sorted_triples(before), leq);
    }
}

/// Sorting keeps the pairs.
pub proof fn lemma_sorted_pairs(s: Seq<(u8, usize)>)
    ensures
        sorted_pairs(s).len() == s.len(),
        forall|x: (u8, usize)| #[trigger] sorted_pairs(s).contains(x) <==> s.contains(x),
{
    let leq = |a: (u8, usize), b: (u8, usize)| pair_leq(a, b);
    assert(total_ordering(leq));
    s.lemma_sort_by_ensures(leq);
    broadcast use vstd::seq_lib::group_to_multiset_ensures;

    let t = sorted_pairs(s);
    assert(s.to_multiset().len() == t.to_multiset().len());
    assert forall|x: (u8, usize)| #[trigger] t.contains(x) <==> s.contains(x) by {
        assert(s.contains(x) <==> s.to_multiset().count(x) > 0);
        assert(t.contains(x) <==> t.to_multiset().count(x) > 0);
    }
}

/// Sorting keeps the triples.
pub proof fn lemma_sorted_triples(s: Seq<(usize, usize, usize)>)
    ensures
        sorted_triples(s).len() == s.len(),
        forall|x: (usize, usize, usize)| #[trigger]
            sorted_triples(s).contains(x) <==> s.contains(x),
{
    let leq = |a: (usize, usize, usize), b: (usize, usize, usize)| triple_leq(a, b);
    assert(total_ordering(leq));
    s.lemma_sort_by_ensures(leq);
    broadcast use vstd::seq_lib::group_to_multiset_ensures;

    let t = sorted_triples(s);
    assert(s.to_multiset().len() == t.to_multiset().len());
    assert forall|x: (usize, usize, usize)| #[trigger] t.contains(x) <==> s.contains(x) by {
        assert(s.contains(x) <==> s.to_multiset().count(x) > 0);
        assert(t.contains(x) <==> t.to_multiset().count(x) > 0);
    }
}

} // verus!
