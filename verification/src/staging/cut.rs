//! The stages that several level splits lead to.
use crate::aig::AIG;
use crate::index_set::{inserted_all, lemma_inserted_all, lemma_swap_removed_all, swap_removed_all};
use crate::staging::StagedModel;
use crate::staging::split::{lemma_filter_distinct, lemma_filter_member, Split};
use vstd::prelude::*;

verus! {

/// A list of distinct elements followed by the distinct other ones.
proof fn lemma_concat_partition(a: Seq<usize>, b: Seq<usize>, eps: Seq<usize>)
    requires
        a.no_duplicates(),
        b.no_duplicates(),
        forall|e: usize| #[trigger] a.contains(e) ==> eps.contains(e),
        forall|e: usize| #[trigger] b.contains(e) <==> eps.contains(e) && !a.contains(e),
    ensures
        (a + b).no_duplicates(),
        forall|e: usize| #[trigger] (a + b).contains(e) <==> eps.contains(e),
{
    let all = a + b;
    assert forall|e: usize| #[trigger] all.contains(e) <==> eps.contains(e) by {
        if a.contains(e) {
            let k = a.index_of(e);
            assert(all[k] == e);
        }
        if b.contains(e) {
            let k = b.index_of(e);
            assert(all[a.len() + k] == e);
        }
        if all.contains(e) {
            let k = all.index_of(e);
            if k < a.len() {
                assert(a[k] == e);
                assert(a.contains(e));
            } else {
                assert(b[k - a.len()] == e);
                assert(b.contains(e));
            }
        }
    }
    assert forall|k: int, m: int| 0 <= k < m < all.len() implies all[k] != all[m] by {
        if m < a.len() {
            assert(a[k] != a[m]);
        } else if k >= a.len() {
            assert(b[k - a.len()] != b[m - a.len()]);
        } else {
            assert(a.contains(a[k]));
            assert(b.contains(b[m - a.len()]));
        }
    }
}

/// Splitting a graph at several levels.
pub struct Cut {
    pub aig: AIG,
    pub splits: Seq<usize>,
}

impl Cut {
    /// The level at which stage `i` starts.
    pub open spec fn start(self, i: int) -> usize {
        if i == 0 {
            0
        } else {
            self.splits[i - 1]
        }
    }

    /// The split behind stage `i`.
    pub open spec fn split(self, i: int, eps: Seq<usize>, inputs: Option<Seq<usize>>) -> Split {
        Split {
            aig: self.aig,
            stop: match inputs {
                Some(s) => s,
                None => Seq::empty(),
            },
            eps,
            level: if i < self.splits.len() {
                (self.splits[i] - self.start(i)) as nat
            } else {
                usize::MAX as nat
            },
        }
    }

    /// Stage `i`, if the endpoints `eps` are not fulfilled before.
    pub open spec fn stage(
        self,
        i: int,
        eps: Seq<usize>,
        inputs: Option<Seq<usize>>,
    ) -> StagedModel {
        self.split(i, eps, inputs).stage(inputs)
    }

    /// The endpoints that are not fulfilled after a stage.
    pub open spec fn rest(self, eps: Seq<usize>, stage: StagedModel) -> Seq<usize> {
        swap_removed_all(eps, stage.endpoints)
    }

    /// The inputs of the stages that follow a stage.
    pub open spec fn later_inputs(
        self,
        inputs: Option<Seq<usize>>,
        stage: StagedModel,
    ) -> Option<Seq<usize>> {
        Some(
            inserted_all(
                match inputs {
                    Some(s) => s,
                    None => Seq::empty(),
                },
                stage.primary_output_pins,
            ),
        )
    }

    /// The stages from `i` on: the levels between which each lies, and the stage. A
    /// stage without outputs is the last.
    pub open spec fn stages_from(
        self,
        i: int,
        eps: Seq<usize>,
        inputs: Option<Seq<usize>>,
    ) -> Seq<(usize, usize, StagedModel)>
        decreases self.splits.len() - i,
    {
        let stage = self.stage(i, eps, inputs);
        if i >= self.splits.len() || stage.primary_output_pins.len() == 0 {
            seq![(self.start(i), usize::MAX, stage)]
        } else {
            seq![(self.start(i), self.splits[i], stage)] + self.stages_from(
                i + 1,
                self.rest(eps, stage),
                self.later_inputs(inputs, stage),
            )
        }
    }

    /// Whether the levels do not decrease, as far as there are stages.
    pub open spec fn ordered_from(
        self,
        i: int,
        eps: Seq<usize>,
        inputs: Option<Seq<usize>>,
    ) -> bool
        decreases self.splits.len() - i,
    {
        let stage = self.stage(i, eps, inputs);
        i >= self.splits.len() || {
            &&& self.start(i) <= self.splits[i]
            &&& stage.primary_output_pins.len() == 0 || self.ordered_from(
                i + 1,
                self.rest(eps, stage),
                self.later_inputs(inputs, stage),
            )
        }
    }

    /// All endpoints of the graph.
    pub open spec fn all_endpoints(self) -> Seq<usize> {
        Seq::new(self.aig.group_count(), |k: int| k as usize)
    }

    /// The stages of the whole graph.
    pub open spec fn stages(self) -> Seq<(usize, usize, StagedModel)> {
        self.stages_from(0, self.all_endpoints(), None)
    }

    /// Whether the levels do not decrease, as far as there are stages.
    pub open spec fn ordered(self) -> bool {
        self.ordered_from(0, self.all_endpoints(), None)
    }

    /// Levels that do not decrease are in order.
    pub proof fn lemma_ordered_from(
        self,
        i: int,
        eps: Seq<usize>,
        inputs: Option<Seq<usize>>,
    )
        requires
            0 <= i,
            forall|a: int, b: int|
                0 <= a && b == a + 1 && b < self.splits.len() ==> #[trigger] self.splits[a]
                    <= #[trigger] self.splits[b],
        ensures
            self.ordered_from(i, eps, inputs),
        decreases self.splits.len() - i,
    {
        if i < self.splits.len() {
            let stage = self.stage(i, eps, inputs);
            self.lemma_ordered_from(i + 1, self.rest(eps, stage), self.later_inputs(inputs, stage));
        }
    }

    /// What a stage leaves can be split again.
    pub proof fn lemma_next(self, i: int, eps: Seq<usize>, inputs: Option<Seq<usize>>)
        requires
            self.split(i, eps, inputs).wf(),
        ensures
            ({
                let stage = self.stage(i, eps, inputs);
                let rest = self.rest(eps, stage);
                let later = self.later_inputs(inputs, stage);
                &&& stage.endpoints.no_duplicates()
                &&& forall|e: usize| #[trigger] stage.endpoints.contains(e) ==> eps.contains(e)
                &&& forall|e: usize| #[trigger]
                    rest.contains(e) <==> eps.contains(e) && !stage.endpoints.contains(e)
                &&& forall|k: int|
                    0 <= k < stage.primary_output_pins.len()
                        ==> #[trigger] stage.primary_output_pins[k] <= self.aig.num_aigpins
                &&& forall|j: int| (#[trigger] self.split(j, rest, later)).wf()
            }),
    {
        let sp = self.split(i, eps, inputs);
        let stage = self.stage(i, eps, inputs);
        let rest = self.rest(eps, stage);
        let later = self.later_inputs(inputs, stage).unwrap();
        sp.lemma_order();
        sp.law_outputs_live();
        let pred = |e: usize| sp.end_before(e);
        lemma_filter_distinct(eps, pred);
        assert forall|e: usize| #[trigger] stage.endpoints.contains(e) implies eps.contains(e) by {
            lemma_filter_member(eps, pred, e);
        }
        lemma_swap_removed_all(eps, stage.endpoints);
        assert forall|k: int| 0 <= k < rest.len() implies (#[trigger] rest[k])
            < self.aig.group_count() by {
            assert(rest.contains(rest[k]));
            let t = eps.index_of(rest[k]);
            assert(sp.eps[t] == rest[k]);
        }
        assert forall|k: int| 0 <= k < stage.primary_output_pins.len() implies #[trigger] stage.primary_output_pins[k]
            <= self.aig.num_aigpins by {
            assert(stage.primary_output_pins.contains(stage.primary_output_pins[k]));
            let p = sp.order().index_of(stage.primary_output_pins[k]);
            assert(sp.order()[p] == stage.primary_output_pins[k]);
        }
        lemma_inserted_all(sp.stop, stage.primary_output_pins);
        assert forall|k: int| 0 <= k < later.len() implies #[trigger] later[k]
            <= self.aig.num_aigpins by {
            assert(later.contains(later[k]));
            if sp.stop.contains(later[k]) {
                let t = sp.stop.index_of(later[k]);
                assert(sp.stop[t] == later[k]);
            } else {
                let t = stage.primary_output_pins.index_of(later[k]);
                assert(stage.primary_output_pins[t] == later[k]);
            }
        }
    }

    /// The endpoints that stages fulfil, one stage after the other.
    pub open spec fn fulfilled(stages: Seq<(usize, usize, StagedModel)>) -> Seq<usize>
        decreases stages.len(),
    {
        if stages.len() == 0 {
            Seq::empty()
        } else {
            stages[0].2.endpoints + Self::fulfilled(stages.drop_first())
        }
    }

    proof fn lemma_fulfilled(self, i: int, eps: Seq<usize>, inputs: Option<Seq<usize>>)
        requires
            0 <= i,
            self.split(i, eps, inputs).wf(),
        ensures
            ({
                let all = Self::fulfilled(self.stages_from(i, eps, inputs));
                &&& all.no_duplicates()
                &&& forall|e: usize| #[trigger] all.contains(e) <==> eps.contains(e)
            }),
        decreases self.splits.len() - i,
    {
        let sp = self.split(i, eps, inputs);
        let stage = self.stage(i, eps, inputs);
        let stages = self.stages_from(i, eps, inputs);
        let all = Self::fulfilled(stages);
        if i >= self.splits.len() || stage.primary_output_pins.len() == 0 {
            assert(stages.drop_first() =~= Seq::<(usize, usize, StagedModel)>::empty());
            assert(Self::fulfilled(stages.drop_first()) == Seq::<usize>::empty());
            assert(stages[0].2 == stage);
            assert(all =~= stage.endpoints);
            if sp.ends().len() > 0 {
                if stage.primary_output_pins.len() == 0 {
                    sp.law_no_outputs_all_done();
                } else {
                    sp.lemma_unlimited();
                }
            }
        } else {
            self.lemma_next(i, eps, inputs);
            let rest = self.rest(eps, stage);
            let later = self.later_inputs(inputs, stage);
            assert(self.split(i + 1, rest, later).wf());
            self.lemma_fulfilled(i + 1, rest, later);
            let tail = self.stages_from(i + 1, rest, later);
            assert(stages.drop_first() =~= tail);
            let a = stage.endpoints;
            let b = Self::fulfilled(tail);
            assert(all == a + b);
            lemma_concat_partition(a, b, eps);
        }
    }

    /// Every endpoint of the graph is fulfilled by exactly one stage, once.
    pub proof fn law_endpoints_fulfilled(self)
        requires
            self.aig.wf(),
        ensures
            ({
                let all = Self::fulfilled(self.stages());
                &&& all.no_duplicates()
                &&& forall|e: usize| #[trigger] all.contains(e) <==> e < self.aig.group_count()
            }),
    {
        let eps = self.all_endpoints();
        self.lemma_fulfilled(0, eps, None);
        assert forall|e: usize| eps.contains(e) <==> e < self.aig.group_count() by {
            if e < self.aig.group_count() {
                assert(eps[e as int] == e);
            }
        }
    }

    /// Each stage starts where the one before it ends, the first one at 0, the last
    /// one ends at the largest number; its inputs are those of the stage before it
    /// and the outputs of that stage. There is at most one stage more than levels.
    pub proof fn law_stages_chained(self, i: int, eps: Seq<usize>, inputs: Option<Seq<usize>>)
        requires
            0 <= i <= self.splits.len(),
        ensures
            ({
                let s = self.stages_from(i, eps, inputs);
                &&& 1 <= s.len() <= self.splits.len() - i + 1
                &&& s[0].0 == self.start(i)
                &&& s[0].2.primary_inputs == inputs
                &&& s[s.len() - 1].1 == usize::MAX
                &&& forall|a: int, b: int|
                    0 <= a && b == a + 1 && b < s.len() ==> {
                        &&& (#[trigger] s[a]).1 == (#[trigger] s[b]).0
                        &&& s[b].2.primary_inputs == self.later_inputs(
                            s[a].2.primary_inputs,
                            s[a].2,
                        )
                    }
            }),
        decreases self.splits.len() - i,
    {
        let stage = self.stage(i, eps, inputs);
        let s = self.stages_from(i, eps, inputs);
        if i < self.splits.len() && stage.primary_output_pins.len() > 0 {
            let rest = self.rest(eps, stage);
            let later = self.later_inputs(inputs, stage);
            self.law_stages_chained(i + 1, rest, later);
            let tail = self.stages_from(i + 1, rest, later);
            assert forall|a: int, b: int| 0 <= a && b == a + 1 && b < s.len() implies {
                &&& (#[trigger] s[a]).1 == (#[trigger] s[b]).0
                &&& s[b].2.primary_inputs == self.later_inputs(s[a].2.primary_inputs, s[a].2)
            } by {
                assert(s[b] == tail[b - 1]);
                if a > 0 {
                    assert(s[a] == tail[a - 1]);
                }
            }
        }
    }
}

} // verus!
