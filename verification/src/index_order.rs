//! The order in which lists without repetitions hold their elements.
use crate::index_set::{
    inserted_all, lemma_inserted_all, swap_removed, swap_removed_all,
};
use crate::pe::ways::lemma_new_after;
use vstd::prelude::*;

verus! {

/// Whether `x` occurs in a list before `y` does, or `y` does not occur.
pub open spec fn occurs_before(xs: Seq<usize>, x: usize, y: usize) -> bool {
    exists|p: int|
        0 <= p < xs.len() && #[trigger] xs[p] == x && forall|q: int|
            0 <= q < xs.len() && #[trigger] xs[q] == y ==> p < q
}

/// Inserting values keeps what is there in its place; the new values follow in the order in which
/// they occur first.
pub proof fn law_inserted_order(s: Seq<usize>, xs: Seq<usize>)
    ensures
        s.is_prefix_of(inserted_all(s, xs)),
        forall|i: int, j: int|
            s.len() <= i < j < inserted_all(s, xs).len() ==> occurs_before(
                xs,
                #[trigger] inserted_all(s, xs)[i],
                #[trigger] inserted_all(s, xs)[j],
            ),
    decreases xs.len(),
{
    let r = inserted_all(s, xs);
    lemma_inserted_all(s, xs);
    if xs.len() > 0 {
        let front = xs.drop_last();
        let b = inserted_all(s, front);
        law_inserted_order(s, front);
        lemma_inserted_all(s, front);
        assert forall|i: int, j: int| s.len() <= i < j < r.len() implies occurs_before(
            xs,
            #[trigger] r[i],
            #[trigger] r[j],
        ) by {
            assert(b[i] == r[i]);
            if j < b.len() {
                assert(b[j] == r[j]);
                assert(occurs_before(front, b[i], b[j]));
                let p = choose|p: int|
                    0 <= p < front.len() && #[trigger] front[p] == b[i] && forall|q: int|
                        0 <= q < front.len() && #[trigger] front[q] == b[j] ==> p < q;
                assert(xs[p] == r[i]);
                assert forall|q: int| 0 <= q < xs.len() && #[trigger] xs[q] == r[j] implies p < q by {
                    if q < front.len() {
                        assert(front[q] == b[j]);
                    }
                }
            } else {
                assert(r[j] == xs.last());
                assert(!b.contains(xs.last()));
                lemma_new_after(s, front, i);
                let p = front.index_of(b[i]);
                assert(xs[p] == r[i]);
                assert forall|q: int| 0 <= q < xs.len() && #[trigger] xs[q] == r[j] implies p < q by {
                    if q < front.len() {
                        assert(front[q] == r[j]);
                        assert(front.contains(r[j]));
                    }
                }
            }
        }
    }
}

/// Removing several values removes them one after the other; each time the last element takes the
/// place of the one that leaves.
pub proof fn law_removed(s: Seq<usize>, xs: Seq<usize>) -> (steps: Seq<Seq<usize>>)
    ensures
        is_removal(steps, s, xs, swap_removed_all(s, xs)),
    decreases xs.len(),
{
    if xs.len() == 0 {
        seq![s]
    } else {
        let front = xs.drop_last();
        let less = law_removed(s, front);
        let r = swap_removed_all(s, xs);
        let steps = less.push(r);
        assert forall|k: int| 0 <= k < xs.len() implies #[trigger] steps[k + 1] == swap_removed(
            steps[k],
            xs[k],
        ) by {
            if k < front.len() {
                assert(less[k + 1] == swap_removed(less[k], front[k]));
            }
        }
        steps
    }
}

/// Whether the values `xs` leave `s` one after the other, so that `r` remains.
pub open spec fn is_removal(
    steps: Seq<Seq<usize>>,
    s: Seq<usize>,
    xs: Seq<usize>,
    r: Seq<usize>,
) -> bool {
    &&& steps.len() == xs.len() + 1
    &&& steps[0] == s
    &&& steps[xs.len() as int] == r
    &&& forall|k: int|
        0 <= k < xs.len() ==> #[trigger] steps[k + 1] == swap_removed(steps[k], xs[k])
}

} // verus!
