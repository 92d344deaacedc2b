//! What a round of cutting does.
use crate::pe::cutting::{
    grouped, positions, translated, CutModel, Cutting, FIRST_DIVISION,
};
use crate::sorting::sorted_numbers;
use vstd::prelude::*;
use vstd::relations::total_ordering;

verus! {

/// A single part holds all vertices in order; otherwise each part holds the vertices that have its
/// number, in increasing order.
pub proof fn law_grouping(num_vertices: usize, num_parts: usize, ids: Seq<usize>)
    requires
        ids.len() == num_vertices,
    ensures
        ({
            let parts = grouped(num_vertices, num_parts, ids);
            &&& parts.len() == num_parts
            &&& num_parts == 1 ==> parts[0].len() == num_vertices && forall|i: int|
                0 <= i < num_vertices ==> #[trigger] parts[0][i] == i as usize
            &&& num_parts != 1 ==> forall|p: int, i: usize|
                0 <= p < num_parts ==> (#[trigger] parts[p].contains(i) <==> i < num_vertices
                    && ids[i as int] == p)
            &&& forall|p: int, a: int, b: int|
                0 <= p < num_parts && 0 <= a < b < parts[p].len() ==> #[trigger] parts[p][a]
                    < #[trigger] parts[p][b]
        }),
{
    let parts = grouped(num_vertices, num_parts, ids);
    if num_parts != 1 {
        assert forall|p: int, i: usize| 0 <= p < num_parts implies (#[trigger] parts[p].contains(i)
            <==> i < num_vertices && ids[i as int] == p) by {
            lemma_increasing(ids, p as usize, ids.len() as int);
        }
        assert forall|p: int, a: int, b: int|
            0 <= p < num_parts && 0 <= a < b < parts[p].len() implies #[trigger] parts[p][a]
            < #[trigger] parts[p][b] by {
            lemma_increasing(ids, p as usize, ids.len() as int);
        }
    }
}

proof fn lemma_increasing(ids: Seq<usize>, p: usize, k: int)
    requires
        0 <= k <= ids.len() <= usize::MAX,
    ensures
        forall|i: usize| #[trigger]
            positions(ids, p, k).contains(i) <==> i < k && ids[i as int] == p,
        forall|a: int, b: int|
            0 <= a < b < positions(ids, p, k).len() ==> #[trigger] positions(ids, p, k)[a]
                < #[trigger] positions(ids, p, k)[b],
    decreases k,
{
    if k > 0 {
        lemma_increasing(ids, p, k - 1);
        let less = positions(ids, p, k - 1);
        let list = positions(ids, p, k);
        let new = (k - 1) as usize;
        assert forall|a: int| 0 <= a < less.len() implies #[trigger] less[a] < k - 1 by {
            assert(less.contains(less[a]));
        }
        if ids[k - 1] == p {
            assert(list == less.push(new));
            assert forall|i: usize| #[trigger] list.contains(i) <==> less.contains(i) || i == new by {
                if less.contains(i) {
                    let q = less.index_of(i);
                    assert(list[q] == i);
                }
                assert(list[less.len() as int] == new);
            }
        }
        assert forall|i: usize| #[trigger] list.contains(i) <==> i < k && ids[i as int] == p by {
            assert(less.contains(i) <==> i < k - 1 && ids[i as int] == p);
        }
    }
}

/// Parts are half as large in each round as in the one before, and have 300 endpoints in the
/// first.
pub proof fn law_first_round()
    ensures
        FIRST_DIVISION / 2 == 300,
{
}

impl Cutting {
    /// The endpoints of each part.
    pub open spec fn lists(self, m: CutModel, parts: Seq<Seq<usize>>) -> Seq<Seq<usize>> {
        Seq::new(
            parts.len(),
            |p: int| Seq::new(parts[p].len(), |i: int| m.left[parts[p][i] as int]),
        )
    }

    /// After a round, the parts that can be mapped stand behind those from before, in their order;
    /// the endpoints of the others are left, in increasing order.
    pub proof fn law_round(self, m: CutModel, parts: Seq<Seq<usize>>)
        ensures
            ({
                let next = self.after(m, parts);
                let lists = self.lists(m, parts);
                &&& next.good == m.good + lists.filter(|eps: Seq<usize>| self.maps(eps))
                &&& next.left.to_multiset() == lists.filter(
                    |eps: Seq<usize>| !self.maps(eps),
                ).flatten().to_multiset()
                &&& forall|a: int, b: int|
                    0 <= a < b < next.left.len() ==> #[trigger] next.left[a]
                        <= #[trigger] next.left[b]
                &&& next.division == m.division
            }),
    {
        let n = parts.len() as int;
        let lists = self.lists(m, parts);
        let good = |eps: Seq<usize>| self.maps(eps);
        let bad = |eps: Seq<usize>| !self.maps(eps);
        self.lemma_round(m, parts, n);
        assert(lists.take(n) =~= lists);
        let left = self.left_upto(m, parts, n);
        let leq = |a: usize, b: usize| a <= b;
        assert(total_ordering(leq));
        left.lemma_sort_by_ensures(leq);
        let next = self.after(m, parts);
        assert(next.left == sorted_numbers(left));
        assert forall|a: int, b: int| 0 <= a < b < next.left.len() implies #[trigger] next.left[a]
            <= #[trigger] next.left[b] by {
            assert(leq(next.left[a], next.left[b]));
        }
    }

    proof fn lemma_round(self, m: CutModel, parts: Seq<Seq<usize>>, k: int)
        requires
            0 <= k <= parts.len(),
        ensures
            ({
                let lists = self.lists(m, parts).take(k);
                &&& self.good_upto(m, parts, k) == m.good + lists.filter(
                    |eps: Seq<usize>| self.maps(eps),
                )
                &&& self.left_upto(m, parts, k) == lists.filter(
                    |eps: Seq<usize>| !self.maps(eps),
                ).flatten()
            }),
        decreases k,
    {
        reveal(Seq::filter);
        let good = |eps: Seq<usize>| self.maps(eps);
        let bad = |eps: Seq<usize>| !self.maps(eps);
        let lists = self.lists(m, parts).take(k);
        if k == 0 {
            assert(lists =~= Seq::empty());
            assert(m.good + lists.filter(good) =~= m.good);
            assert(lists.filter(bad) =~= Seq::empty());
            assert(lists.filter(bad).flatten() =~= Seq::empty());
        } else {
            let less = self.lists(m, parts).take(k - 1);
            let eps = translated(m.left, parts[k - 1]);
            self.lemma_round(m, parts, k - 1);
            assert(lists.drop_last() =~= less);
            assert(lists.last() =~= eps);
            if self.maps(eps) {
                assert(m.good + less.filter(good).push(eps) =~= (m.good + less.filter(good)).push(
                    eps,
                ));
            } else {
                less.filter(bad).lemma_flatten_push(eps);
            }
        }
    }
}

} // verus!
