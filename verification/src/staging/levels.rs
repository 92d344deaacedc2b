//! Between which levels the stage of an endpoint lies.
use crate::aig::{pin_of, DriverType, AIG};
use crate::index_set::{lemma_distinct_bound, lemma_inserted_all};
use crate::staging::cut::Cut;
use crate::staging::split::{lemma_filter_member, Split};
use crate::staging::StagedModel;
use vstd::prelude::*;

verus! {

/// The number of gates before a pin in the whole graph, itself included.
pub open spec fn whole_depth(aig: AIG, u: usize) -> nat {
    aig.depth(Seq::empty(), u)
}

/// The largest number of gates before a pin that an endpoint reads, in the whole graph.
pub open spec fn end_depth(aig: AIG, e: usize) -> nat {
    let pins = aig.group(e as int).input_pins();
    (Split { aig, stop: Seq::empty(), eps: Seq::empty(), level: 0 }).deepest(
        pins,
        pins.len() as int,
    )
}

/// How far `a` lies above `b`.
pub open spec fn above(a: nat, b: nat) -> nat {
    if a > b {
        (a - b) as nat
    } else {
        0
    }
}

impl Split {
    /// Whether the levels are those of the whole graph, counted from `start` on.
    pub open spec fn levelled(self, start: nat) -> bool {
        forall|u: usize| #[trigger]
            self.order().contains(u) ==> self.depth(u) == above(whole_depth(self.aig, u), start)
    }

    /// What is read is read by one of the endpoints.
    pub proof fn lemma_end_uses_member(self, k: int, x: usize)
        requires
            k <= self.eps.len(),
            self.end_uses(k).contains(x),
        ensures
            exists|t: int|
                0 <= t < k && self.aig.group(
                    #[trigger] self.eps[t] as int,
                ).input_pins().contains(x),
        decreases k,
    {
        if k > 0 {
            let before = self.end_uses(k - 1);
            let pins = self.aig.group(self.eps[k - 1] as int).input_pins();
            let i = self.end_uses(k).index_of(x);
            if i < before.len() {
                assert(before[i] == x);
                self.lemma_end_uses_member(k - 1, x);
                let t = choose|t: int|
                    0 <= t < k - 1 && self.aig.group(
                        #[trigger] self.eps[t] as int,
                    ).input_pins().contains(x);
                assert(self.aig.group(self.eps[t] as int).input_pins().contains(x));
            } else {
                assert(pins[i - before.len()] == x);
                assert(self.aig.group(self.eps[k - 1] as int).input_pins().contains(x));
            }
        }
    }

    /// How deep the pins of a list are, from `start` on.
    proof fn lemma_deepest_levelled(self, start: nat, pins: Seq<usize>, k: int)
        requires
            self.levelled(start),
            0 <= k <= pins.len(),
            forall|i: int| 0 <= i < pins.len() ==> self.order().contains(#[trigger] pins[i]),
        ensures
            self.deepest(pins, k) == above(
                (Split {
                    aig: self.aig,
                    stop: Seq::empty(),
                    eps: Seq::empty(),
                    level: 0,
                }).deepest(pins, k),
                start,
            ),
        decreases k,
    {
        if k > 0 {
            self.lemma_deepest_levelled(start, pins, k - 1);
            assert(self.order().contains(pins[k - 1]));
        }
    }

    /// An endpoint lies before the split exactly if it is not deeper than the split.
    proof fn lemma_end_levelled(self, start: nat, e: usize)
        requires
            self.wf(),
            self.levelled(start),
            self.eps.contains(e),
        ensures
            self.end_before(e) <==> end_depth(self.aig, e) <= start + self.level,
    {
        let pins = self.aig.group(e as int).input_pins();
        let t = self.eps.index_of(e);
        self.lemma_end_uses(self.eps.len() as int);
        self.lemma_order();
        assert forall|i: int| 0 <= i < pins.len() implies self.order().contains(
            #[trigger] pins[i],
        ) by {
            assert(self.aig.group(self.eps[t] as int).input_pins().contains(pins[i]));
        }
        self.lemma_deepest_levelled(start, pins, pins.len() as int);
    }

    /// Every endpoint that a stage fulfils lies before the split.
    proof fn lemma_stage_end(self, inputs: Option<Seq<usize>>, e: usize)
        requires
            self.wf(),
        ensures
            self.stage(inputs).endpoints.contains(e) <==> self.eps.contains(e) && self.end_before(
                e,
            ),
    {
        if self.ends().len() == 0 {
            if self.eps.contains(e) {
                let pins = self.aig.group(e as int).input_pins();
                let t = self.eps.index_of(e);
                self.lemma_end_uses(self.eps.len() as int);
                if pins.len() > 0 {
                    assert(self.aig.group(self.eps[t] as int).input_pins().contains(pins[0]));
                    assert(self.ends().contains(pins[0]));
                }
                assert(self.deepest(pins, 0) == 0);
            }
        } else {
            lemma_filter_member(self.eps, |e: usize| self.end_before(e), e);
        }
    }

    /// Whether `next` is a split of what a stage leaves.
    pub open spec fn followed_by(self, next: Split) -> bool {
        &&& next.aig == self.aig
        &&& forall|e: usize| #[trigger]
            next.eps.contains(e) <==> self.eps.contains(e) && !self.end_before(e)
        &&& forall|x: usize| #[trigger]
            next.stop.contains(x) <==> self.stop.contains(x) || self.outputs().contains(x)
    }

    /// What is traversed behind a split is traversed before it too.
    proof fn lemma_next_order(self, next: Split)
        requires
            self.wf(),
            next.wf(),
            self.followed_by(next),
        ensures
            forall|u: usize| #[trigger] next.order().contains(u) ==> self.order().contains(u),
            forall|u: usize| #[trigger]
                next.ends().contains(u) ==> exists|t: int|
                    0 <= t < self.eps.len() && !self.end_before(#[trigger] self.eps[t])
                        && self.aig.group(self.eps[t] as int).input_pins().contains(u),
    {
        let n = next.eps.len() as int;
        let m = self.eps.len() as int;
        self.lemma_end_uses(m);
        assert forall|u: usize| #[trigger] next.ends().contains(u) implies exists|t: int|
            0 <= t < self.eps.len() && !self.end_before(#[trigger] self.eps[t]) && self.aig.group(
                self.eps[t] as int,
            ).input_pins().contains(u) by {
            next.lemma_end_uses_member(n, u);
            let k = choose|k: int|
                0 <= k < n && next.aig.group(#[trigger] next.eps[k] as int).input_pins().contains(u);
            assert(next.eps.contains(next.eps[k]));
            let t = self.eps.index_of(next.eps[k]);
            assert(!self.end_before(self.eps[t]));
        }
        assert forall|u: usize| #[trigger] next.ends().contains(u) implies self.ends().contains(
            u,
        ) by {
            let t = choose|t: int|
                0 <= t < self.eps.len() && !self.end_before(#[trigger] self.eps[t])
                    && self.aig.group(self.eps[t] as int).input_pins().contains(u);
            assert(self.aig.group(self.eps[t] as int).input_pins().contains(u));
        }
        self.aig.lemma_topo_mono(self.stop, self.ends(), next.stop, next.ends());
    }

    /// What lies before the split is handed on if it is traversed behind it.
    proof fn lemma_handed_on(self, next: Split, p: int)
        requires
            self.wf(),
            next.wf(),
            self.followed_by(next),
            0 <= p < next.order().len(),
            self.pin_before(next.order()[p]),
        ensures
            next.stop.contains(next.order()[p]),
        decreases next.order().len() - p,
    {
        let s = next.order();
        let u = s[p];
        self.lemma_next_order(next);
        self.lemma_order();
        next.lemma_order();
        assert(s.contains(u));
        if next.ends().contains(u) {
            let t = choose|t: int|
                0 <= t < self.eps.len() && !self.end_before(#[trigger] self.eps[t])
                    && self.aig.group(self.eps[t] as int).input_pins().contains(u);
            assert(!self.end_before(self.eps[t]));
        } else {
            let q = choose|q: int|
                p < q < s.len() && next.aig.sources(next.stop, #[trigger] s[q]).contains(s[p]);
            let g = s[q];
            assert(!next.stop.contains(g));
            assert(!self.stop.contains(g));
            if self.pin_before(g) {
                self.lemma_handed_on(next, q);
            }
            assert(s.contains(g));
            let r = self.order().index_of(g);
            assert(self.aig.sources(self.stop, g) == next.aig.sources(next.stop, g));
            assert(!self.pin_before(self.order()[r]) && self.aig.sources(
                self.stop,
                self.order()[r],
            ).contains(u));
        }
        assert(self.used_later(u));
        assert(self.is_active(u));
        self.law_outputs_live();
    }

    /// Behind a split the levels are counted from the split on.
    proof fn lemma_next_levelled(self, next: Split, start: nat, p: int)
        requires
            self.wf(),
            next.wf(),
            self.followed_by(next),
            self.levelled(start),
            0 <= p < next.order().len(),
        ensures
            next.depth(next.order()[p]) == above(
                whole_depth(self.aig, next.order()[p]),
                start + self.level,
            ),
        decreases p,
    {
        let s = next.order();
        let u = s[p];
        self.lemma_next_order(next);
        self.lemma_order();
        next.lemma_order();
        assert(s.contains(u));
        assert(self.order().contains(u));
        self.aig.lemma_rank(u);
        if next.stop.contains(u) {
            assert(next.depth(u) == 0);
            if self.outputs().contains(u) {
                self.law_outputs_live();
            }
        } else {
            if self.pin_before(u) {
                self.lemma_handed_on(next, p);
            }
            let none = Seq::<usize>::empty();
            assert(!none.contains(u));
            match self.aig.drivers@[u as int] {
                DriverType::AndGate(a, b) => {
                    let src = next.aig.sources(next.stop, s[p]);
                    if a >= 2 {
                        assert(src[0] == pin_of(a));
                        assert(src.contains(pin_of(a)));
                        let q = choose|q: int| 0 <= q < p && #[trigger] s[q] == pin_of(a);
                        self.lemma_next_levelled(next, start, q);
                    }
                    if b >= 2 {
                        assert(src[src.len() - 1] == pin_of(b));
                        assert(src.contains(pin_of(b)));
                        let q = choose|q: int| 0 <= q < p && #[trigger] s[q] == pin_of(b);
                        self.lemma_next_levelled(next, start, q);
                    }
                },
                _ => {},
            }
        }
    }
}

/// No endpoint is deeper than there are pins.
proof fn lemma_end_depth_bound(aig: AIG, e: usize)
    requires
        aig.wf(),
        e < aig.group_count(),
    ensures
        end_depth(aig, e) <= aig.num_aigpins,
{
    let none = Seq::<usize>::empty();
    let sp = Split { aig, stop: none, eps: seq![e], level: 0 };
    let pins = aig.group(e as int).input_pins();
    assert(sp.eps[0] == e);
    assert(sp.wf());
    sp.lemma_order();
    sp.lemma_end_uses(1);
    assert forall|i: int| 0 <= i < pins.len() implies whole_depth(aig, #[trigger] pins[i])
        <= aig.num_aigpins by {
        assert(aig.group(sp.eps[0] as int).input_pins().contains(pins[i]));
        let p = sp.order().index_of(pins[i]);
        aig.lemma_depth_bound(none, sp.order(), p);
        lemma_distinct_bound(sp.order(), aig.num_aigpins as int);
    }
    lemma_deepest_bound(
        Split { aig, stop: none, eps: none, level: 0 },
        pins,
        pins.len() as int,
        aig.num_aigpins as nat,
    );
}

proof fn lemma_deepest_bound(sp: Split, pins: Seq<usize>, k: int, n: nat)
    requires
        k <= pins.len(),
        forall|i: int| 0 <= i < pins.len() ==> sp.aig.depth(sp.stop, #[trigger] pins[i]) <= n,
    ensures
        sp.deepest(pins, k) <= n,
    decreases k,
{
    if k > 0 {
        lemma_deepest_bound(sp, pins, k - 1, n);
        assert(sp.aig.depth(sp.stop, pins[k - 1]) <= n);
    }
}

/// Whether the endpoints of each stage are not deeper than its end, and deeper than its
/// start unless it is the first.
pub open spec fn within_levels(
    aig: AIG,
    s: Seq<(usize, usize, StagedModel)>,
    first: bool,
) -> bool {
    forall|k: int, e: usize|
        0 <= k < s.len() && #[trigger] s[k].2.endpoints.contains(e) ==> {
            &&& end_depth(aig, e) <= s[k].1
            &&& first && k == 0 || end_depth(aig, e) > s[k].0
        }
}

impl Cut {
    proof fn lemma_levels_from(self, i: int, eps: Seq<usize>, inputs: Option<Seq<usize>>)
        requires
            0 <= i,
            i <= self.splits.len(),
            self.split(i, eps, inputs).wf(),
            self.ordered_from(i, eps, inputs),
            self.split(i, eps, inputs).levelled(self.start(i) as nat),
            i > 0 ==> forall|e: usize| #[trigger]
                eps.contains(e) ==> end_depth(self.aig, e) > self.start(i),
        ensures
            within_levels(self.aig, self.stages_from(i, eps, inputs), i == 0),
        decreases self.splits.len() - i,
    {
        let sp = self.split(i, eps, inputs);
        let start = self.start(i) as nat;
        let stage = self.stage(i, eps, inputs);
        let s = self.stages_from(i, eps, inputs);
        let next = i + 1;
        let last = i >= self.splits.len() || stage.primary_output_pins.len() == 0;
        assert forall|e: usize| #[trigger] stage.endpoints.contains(e) implies {
            &&& end_depth(self.aig, e) <= if last {
                usize::MAX
            } else {
                self.splits[i]
            }
            &&& i == 0 || end_depth(self.aig, e) > start
        } by {
            sp.lemma_stage_end(inputs, e);
            sp.lemma_end_levelled(start, e);
            let t = eps.index_of(e);
            assert(sp.eps[t] == e);
            lemma_end_depth_bound(self.aig, e);
        }
        if last {
            assert(s[0].2 == stage);
        } else {
            let rest = self.rest(eps, stage);
            let later = self.later_inputs(inputs, stage);
            self.lemma_next(i, eps, inputs);
            let tail = self.stages_from(next, rest, later);
            let follow = self.split(next, rest, later);
            assert(follow.wf());
            lemma_inserted_all(sp.stop, stage.primary_output_pins);
            assert(stage.primary_output_pins == sp.outputs());
            assert forall|e: usize| #[trigger] rest.contains(e) <==> eps.contains(e)
                && !sp.end_before(e) by {
                sp.lemma_stage_end(inputs, e);
            }
            assert(sp.followed_by(follow));
            assert forall|u: usize| #[trigger] follow.order().contains(u) implies follow.depth(u)
                == above(whole_depth(self.aig, u), self.start(next) as nat) by {
                let p = follow.order().index_of(u);
                sp.lemma_next_levelled(follow, start, p);
            }
            assert forall|e: usize| #[trigger] rest.contains(e) implies end_depth(self.aig, e)
                > self.start(next) by {
                sp.lemma_end_levelled(start, e);
            }
            self.lemma_levels_from(next, rest, later);
            assert forall|k: int, e: usize|
                0 <= k < s.len() && #[trigger] s[k].2.endpoints.contains(e) implies {
                &&& end_depth(self.aig, e) <= s[k].1
                &&& i == 0 && k == 0 || end_depth(self.aig, e) > s[k].0
            } by {
                if k > 0 {
                    assert(s[k] == tail[k - 1]);
                    assert(tail[k - 1].2.endpoints.contains(e));
                } else {
                    assert(s[0].2 == stage);
                }
            }
        }
    }

    /// An endpoint is fulfilled by the stage between whose levels it lies, by its depth in
    /// the whole graph: it is deeper than the level at which the stage starts, unless the
    /// stage is the first, and not deeper than the level at which it ends.
    pub proof fn law_levels(self)
        requires
            self.aig.wf(),
            self.ordered(),
        ensures
            within_levels(self.aig, self.stages(), true),
    {
        let eps = self.all_endpoints();
        let sp = self.split(0, eps, None);
        assert(sp.wf());
        assert(sp.levelled(0));
        self.lemma_levels_from(0, eps, None);
    }
}

} // verus!
