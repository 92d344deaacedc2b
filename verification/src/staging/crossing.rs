//! What a stage hands on and fulfils, and how stages follow each other.
use crate::aig::{EndpointGroup, AIG};
use crate::index_set::{lemma_inserted_all, lemma_swap_removed_all};
use crate::staging::cut::Cut;
use crate::staging::split::{lemma_filter_all, Split};
use crate::staging::{StagedAIG, StagedModel};
use vstd::prelude::*;

verus! {

impl AIG {
    /// The endpoints of a graph are its outputs, then its flip-flops, then its memory blocks.
    pub proof fn law_group_order(&self, k: int)
        ensures
            self.group_count() == self.primary_outputs@.len() + self.dffs@.len() + self.srams@.len(),
            0 <= k < self.primary_outputs@.len() ==> self.group(k) == EndpointGroup::PrimaryOutput(
                self.primary_outputs@[k],
            ),
            0 <= k < self.dffs@.len() ==> self.group(self.primary_outputs@.len() + k)
                == EndpointGroup::DFF(&self.dffs@[k]),
            0 <= k < self.srams@.len() ==> self.group(
                self.primary_outputs@.len() + self.dffs@.len() + k,
            ) == EndpointGroup::RAMBlock(&self.srams@[k]),
    {
    }
}

impl StagedAIG {
    /// The endpoints of a stage are the pins that it hands on, then endpoints of the graph.
    pub proof fn law_group_order(&self, aig: &AIG, k: int)
        ensures
            self.group_count() == self.primary_output_pins@.len() + self.endpoints@.len(),
            0 <= k < self.primary_output_pins@.len() ==> self.group(aig, k)
                == EndpointGroup::StagedIOPin(self.primary_output_pins@[k]),
            0 <= k < self.endpoints@.len() ==> self.group(
                aig,
                self.primary_output_pins@.len() + k,
            ) == aig.group(self.endpoints@[k] as int),
    {
    }
}

impl Split {
    /// Whether an endpoint of the split reads a pin.
    pub open spec fn is_read(self, x: usize) -> bool {
        exists|k: int|
            0 <= k < self.eps.len() && self.aig.group(#[trigger] self.eps[k] as int).input_pins().contains(x)
    }

    /// Whether a pin is on a path to one that an endpoint of the split reads.
    pub open spec fn matters(self, x: usize) -> bool {
        exists|path: Seq<usize>| #[trigger]
            self.aig.is_path(self.stop, path) && path[0] == x && self.is_read(path.last())
    }

    /// Whether an endpoint reads a pin that more gates lead to than the split has levels.
    pub open spec fn is_late(self, e: usize) -> bool {
        exists|y: usize| #[trigger]
            self.aig.group(e as int).input_pins().contains(y) && self.aig.depth(self.stop, y)
                > self.level
    }

    /// Whether a pin crosses the split: it matters, at most as many gates lead to it as the split
    /// has levels, and a gate that matters and that more gates lead to is computed from it, or an
    /// endpoint that is late reads it.
    pub open spec fn crosses(self, x: usize) -> bool {
        &&& self.matters(x)
        &&& self.aig.depth(self.stop, x) <= self.level
        &&& {
            ||| exists|v: usize| #[trigger]
                self.aig.computes(self.stop, x, v) && self.matters(v) && self.aig.depth(
                    self.stop,
                    v,
                ) > self.level
            ||| exists|k: int|
                0 <= k < self.eps.len() && self.is_late(#[trigger] self.eps[k]) && self.aig.group(
                    self.eps[k] as int,
                ).input_pins().contains(x)
        }
    }

    proof fn lemma_deep(self, pins: Seq<usize>, k: int)
        requires
            0 <= k <= pins.len(),
        ensures
            self.deepest(pins, k) <= self.level <==> forall|i: int|
                0 <= i < k ==> self.aig.depth(self.stop, #[trigger] pins[i]) <= self.level,
        decreases k,
    {
        if k > 0 {
            self.lemma_deep(pins, k - 1);
            if self.deepest(pins, k) <= self.level {
                assert forall|i: int| 0 <= i < k implies self.aig.depth(
                    self.stop,
                    #[trigger] pins[i],
                ) <= self.level by {}
            } else if self.depth(pins[k - 1]) > self.level {
                assert(self.aig.depth(self.stop, pins[k - 1]) > self.level);
            } else {
                let i = choose|i: int|
                    0 <= i < k - 1 && self.aig.depth(self.stop, #[trigger] pins[i]) > self.level;
                assert(self.aig.depth(self.stop, pins[i]) > self.level);
            }
        }
    }

    /// An endpoint lies before the split exactly if it is not late.
    pub proof fn lemma_late(self, e: usize)
        ensures
            self.end_before(e) <==> !self.is_late(e),
    {
        let pins = self.aig.group(e as int).input_pins();
        self.lemma_deep(pins, pins.len() as int);
        if self.is_late(e) {
            let y = choose|y: usize| #[trigger]
                self.aig.group(e as int).input_pins().contains(y) && self.aig.depth(self.stop, y)
                    > self.level;
            let i = pins.index_of(y);
            assert(self.aig.depth(self.stop, pins[i]) > self.level);
        }
        if !self.end_before(e) {
            let i = choose|i: int|
                0 <= i < pins.len() && self.aig.depth(self.stop, #[trigger] pins[i]) > self.level;
            assert(pins.contains(pins[i]));
        }
    }

    proof fn lemma_matters(self, x: usize)
        requires
            self.wf(),
        ensures
            self.order().contains(x) <==> self.matters(x),
    {
        let n = self.eps.len() as int;
        let ends = self.ends();
        self.lemma_end_uses(n);
        self.aig.law_topo(self.stop, ends);
        if self.order().contains(x) {
            let path = choose|path: Seq<usize>| #[trigger]
                self.aig.is_path(self.stop, path) && path[0] == x && ends.contains(path.last());
            self.lemma_end_uses_member(n, path.last());
            assert(self.is_read(path.last()));
        }
        if self.matters(x) {
            let path = choose|path: Seq<usize>| #[trigger]
                self.aig.is_path(self.stop, path) && path[0] == x && self.is_read(path.last());
            let k = choose|k: int|
                0 <= k < self.eps.len() && self.aig.group(
                    #[trigger] self.eps[k] as int,
                ).input_pins().contains(path.last());
            assert(self.aig.group(self.eps[k] as int).input_pins().contains(path.last()));
            assert(ends.contains(path.last()));
            assert(self.aig.leads_to(self.stop, x, ends));
        }
    }

    proof fn lemma_crosses(self, x: usize)
        requires
            self.wf(),
        ensures
            self.is_active(x) <==> self.crosses(x),
    {
        let s = self.order();
        self.lemma_matters(x);
        if self.used_later(x) {
            if exists|p: int|
                0 <= p < s.len() && !self.pin_before(#[trigger] s[p]) && self.aig.sources(
                    self.stop,
                    s[p],
                ).contains(x) {
                let p = choose|p: int|
                    0 <= p < s.len() && !self.pin_before(#[trigger] s[p]) && self.aig.sources(
                        self.stop,
                        s[p],
                    ).contains(x);
                self.aig.lemma_sources_is(self.stop, x, s[p]);
                assert(s.contains(s[p]));
                self.lemma_matters(s[p]);
                assert(self.aig.computes(self.stop, x, s[p]) && self.matters(s[p]));
            } else {
                let k = choose|k: int|
                    0 <= k < self.eps.len() && !self.end_before(#[trigger] self.eps[k])
                        && self.aig.group(self.eps[k] as int).input_pins().contains(x);
                self.lemma_late(self.eps[k]);
                assert(self.is_late(self.eps[k]));
            }
        }
        if self.crosses(x) {
            if exists|v: usize| #[trigger]
                self.aig.computes(self.stop, x, v) && self.matters(v) && self.aig.depth(
                    self.stop,
                    v,
                ) > self.level {
                let v = choose|v: usize| #[trigger]
                    self.aig.computes(self.stop, x, v) && self.matters(v) && self.aig.depth(
                        self.stop,
                        v,
                    ) > self.level;
                self.lemma_matters(v);
                self.aig.lemma_sources_is(self.stop, x, v);
                let p = s.index_of(v);
                assert(!self.pin_before(s[p]) && self.aig.sources(self.stop, s[p]).contains(x));
            } else {
                let k = choose|k: int|
                    0 <= k < self.eps.len() && self.is_late(#[trigger] self.eps[k])
                        && self.aig.group(self.eps[k] as int).input_pins().contains(x);
                self.lemma_late(self.eps[k]);
                assert(!self.end_before(self.eps[k]));
            }
        }
    }

    /// A stage fulfils the endpoints that are not late, in their order. It hands on the pins that
    /// cross the split, each once; inputs of the stage are among them only if no other pin
    /// crosses the split. If no endpoint reads a pin, it fulfils all of them and hands on none.
    pub proof fn law_stage(self, inputs: Option<Seq<usize>>)
        requires
            self.wf(),
        ensures
            ({
                let stage = self.stage(inputs);
                let outs = stage.primary_output_pins;
                &&& stage.primary_inputs == inputs
                &&& stage.endpoints == self.eps.filter(|e: usize| !self.is_late(e))
                &&& outs.no_duplicates()
                &&& forall|x: usize| #[trigger]
                    outs.contains(x) <==> {
                        &&& self.crosses(x)
                        &&& !self.stop.contains(x) || forall|y: usize| #[trigger]
                            self.crosses(y) ==> self.stop.contains(y)
                    }
            }),
    {
        let stage = self.stage(inputs);
        let outs = stage.primary_output_pins;
        let a = |e: usize| self.end_before(e);
        let b = |e: usize| !self.is_late(e);
        assert forall|e: usize| #[trigger] a(e) == b(e) by {
            self.lemma_late(e);
        }
        assert(a =~= b);
        self.law_outputs_live();
        assert forall|x: usize| #[trigger] self.is_active(x) <==> self.crosses(x) by {
            self.lemma_crosses(x);
        }
        assert forall|x: usize| #[trigger] self.crosses(x) <==> self.is_active(x) by {
            self.lemma_crosses(x);
        }
        if self.ends().len() == 0 {
            self.lemma_end_uses(self.eps.len() as int);
            assert forall|x: usize| !#[trigger] self.is_read(x) by {
                if self.is_read(x) {
                    let k = choose|k: int|
                        0 <= k < self.eps.len() && self.aig.group(
                            #[trigger] self.eps[k] as int,
                        ).input_pins().contains(x);
                    assert(self.aig.group(self.eps[k] as int).input_pins().contains(x));
                    assert(self.ends().contains(x));
                }
            }
            assert forall|k: int| 0 <= k < self.eps.len() implies b(#[trigger] self.eps[k]) by {
                if self.is_late(self.eps[k]) {
                    let y = choose|y: usize| #[trigger]
                        self.aig.group(self.eps[k] as int).input_pins().contains(y)
                            && self.aig.depth(self.stop, y) > self.level;
                    assert(self.is_read(y));
                }
            }
            lemma_filter_all(self.eps, b);
            assert forall|x: usize| !#[trigger] self.crosses(x) by {}
        }
    }
}

impl Cut {
    /// The inputs of what follows a stage are its inputs and what it hands on; its endpoints are
    /// those that the stage does not fulfil.
    pub proof fn law_next(
        self,
        eps: Seq<usize>,
        inputs: Option<Seq<usize>>,
        stage: StagedModel,
        x: usize,
    )
        requires
            eps.no_duplicates(),
        ensures
            self.later_inputs(inputs, stage) matches Some(later) && (later.contains(x) <==> (
            inputs matches Some(s) && s.contains(x)) || stage.primary_output_pins.contains(x)),
            self.rest(eps, stage).contains(x) <==> eps.contains(x) && !stage.endpoints.contains(x),
    {
        let s = match inputs {
            Some(s) => s,
            None => Seq::empty(),
        };
        lemma_inserted_all(s, stage.primary_output_pins);
        lemma_swap_removed_all(eps, stage.endpoints);
    }

    /// The first stage ends at the first level and has as many levels; a later one starts where
    /// the one before it ends and has as many levels as lie between; the last is not limited.
    pub proof fn law_split(self, i: int, eps: Seq<usize>, inputs: Option<Seq<usize>>)
        requires
            0 <= i <= self.splits.len(),
            self.ordered_from(i, eps, inputs),
        ensures
            ({
                let sp = self.split(i, eps, inputs);
                &&& sp.aig == self.aig
                &&& sp.eps == eps
                &&& forall|x: usize| #[trigger]
                    sp.stop.contains(x) <==> (inputs matches Some(s) && s.contains(x))
                &&& i == self.splits.len() ==> sp.level == usize::MAX
                &&& i == 0 && self.splits.len() > 0 ==> sp.level == self.splits[0]
                &&& 0 < i < self.splits.len() ==> sp.level + self.splits[i - 1] == self.splits[i]
            }),
    {
    }
}

} // verus!
