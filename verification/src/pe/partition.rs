//! What a partition realizes, and the stages that it consists of.
use crate::aig::{pin_of, DriverType, EndpointGroup, AIG};
use crate::index_set::{
    entries_filled, entry_added, entry_dups, entry_total, inserted_all, lemma_distinct_bound,
    lemma_entry_added, lemma_entry_dups, lemma_inserted_all, opt_elems,
};
use crate::pe::hier::{placed, Cone};
use crate::pe::laws::written;
use crate::pe::plan::{max_writeouts, stages_fit, StageModel};
use crate::staging::StagedAIG;
use vstd::prelude::*;

verus! {

/// A partition: the endpoints that it realizes, and its stages.
pub struct PartitionModel {
    pub endpoints: Seq<usize>,
    pub stages: Seq<StageModel>,
}

/// How far the realization of a partition has got.
pub struct Progress {
    /// The pins that remain to be realized.
    pub outs: Seq<usize>,
    /// The pins that are available.
    pub avail: Seq<usize>,
    /// The number of words written out.
    pub total: nat,
    /// The stages so far.
    pub stages: Seq<StageModel>,
}

/// The realization of a partition.
pub struct Realization {
    pub aig: AIG,
    /// The number of rows above row 0 of each hierarchy.
    pub stages: usize,
    /// The number of reserved words.
    pub reserved: nat,
    /// The state before the first stage.
    pub start: Progress,
}

/// The number of words that stages write out.
pub open spec fn word_total(stages: Seq<StageModel>) -> nat
    decreases stages.len(),
{
    if stages.len() == 0 {
        0
    } else {
        word_total(stages.drop_last()) + stages.last().write_outs.len()
    }
}

/// Whether a pin is computed by one of the stages.
pub open spec fn computed(stages: Seq<StageModel>, x: usize) -> bool {
    exists|i: int| 0 <= i < stages.len() && placed(#[trigger] stages[i].hier, x)
}

impl Realization {
    /// The pins to compute in state `p`.
    pub open spec fn cone(self, p: Progress) -> Cone {
        Cone { aig: self.aig, outs: p.outs, avail: p.avail }
    }

    /// The state after one more stage, unless a resource is exhausted.
    pub open spec fn step(self, p: Progress) -> Option<Progress> {
        let r = self.cone(p).build(self.stages as nat, self.reserved, p.total);
        match r.stage {
            Some(m) => Some(
                Progress {
                    outs: r.outs,
                    avail: r.avail,
                    total: r.total,
                    stages: p.stages.push(m),
                },
            ),
            None => None,
        }
    }

    /// The state after `k` stages, if there are that many.
    pub open spec fn after(self, k: nat) -> Option<Progress>
        decreases k,
    {
        if k == 0 {
            Some(self.start)
        } else {
            match self.after((k - 1) as nat) {
                Some(p) => if p.outs.len() > 0 {
                    self.step(p)
                } else {
                    None
                },
                None => None,
            }
        }
    }

    /// Whether everything is realized after `k` stages.
    pub open spec fn finished(self, k: nat) -> bool {
        self.after(k) matches Some(p) && p.outs.len() == 0
    }

    /// Whether a resource is exhausted after `k` stages.
    pub open spec fn exhausted(self, k: nat) -> bool {
        self.after(k) matches Some(p) && p.outs.len() > 0 && self.step(p) is None
    }

    /// Whether the realization ends after `k` stages.
    pub open spec fn ended(self, k: nat) -> bool {
        self.finished(k) || self.exhausted(k)
    }

    /// Whether the realization comes to an end.
    pub open spec fn settles(self) -> bool {
        exists|k: nat| self.ended(k)
    }

    /// The stages, if everything can be realized.
    pub open spec fn result(self) -> Option<Seq<StageModel>> {
        if exists|k: nat| self.finished(k) {
            Some(self.after(choose|k: nat| self.finished(k)).unwrap().stages)
        } else {
            None
        }
    }

    /// Whether no stage has to put a gate with a constant input on top of other gates.
    pub open spec fn steady(self) -> bool {
        forall|k: nat| #[trigger] self.after(k) matches Some(p) ==> self.cone(p).placeable(
            self.stages as int,
        )
    }

    /// Whether a realization can be carried out.
    pub open spec fn wf(self) -> bool {
        &&& stages_fit(self.stages)
        &&& self.cone(self.start).wf()
        &&& self.start.avail.no_duplicates()
        &&& self.steady()
    }

    /// If every gate with a constant input is computed from available pins alone, no
    /// stage has to put one on top of other gates.
    proof fn lemma_shallow(self, k: nat)
        requires
            stages_fit(self.stages),
            self.cone(self.start).wf(),
            self.cone(self.start).shallow(),
        ensures
            self.after(k) matches Some(p) ==> self.cone(p).wf() && self.cone(p).shallow(),
        decreases k,
    {
        if k > 0 {
            self.lemma_shallow((k - 1) as nat);
            if let Some(p) = self.after((k - 1) as nat) {
                self.cone(p).law_next_stage(self.stages, self.reserved, p.total);
                self.cone(p).lemma_shallow_next(self.stages, self.reserved, p.total);
            }
        }
    }

    /// If every gate with a constant input is computed from available pins alone, no
    /// stage has to put one on top of other gates.
    proof fn lemma_shallow_steady(self)
        requires
            stages_fit(self.stages),
            self.cone(self.start).wf(),
            self.cone(self.start).shallow(),
        ensures
            self.steady(),
    {
        assert forall|k: nat| #[trigger] self.after(k) matches Some(p) ==> self.cone(p).placeable(
            self.stages as int,
        ) by {
            self.lemma_shallow(k);
        }
    }

    /// What holds after each stage.
    pub proof fn lemma_after(self, k: nat)
        requires
            self.wf(),
        ensures
            self.after(k) matches Some(p) ==> {
                &&& self.cone(p).wf()
                &&& p.avail.no_duplicates()
                &&& p.stages.len() == self.start.stages.len() + k
                &&& p.total + word_total(self.start.stages) == self.start.total + word_total(
                    p.stages,
                )
                &&& k > 0 ==> p.total + self.reserved <= max_writeouts(self.stages as nat)
                &&& forall|j: nat| #![trigger self.after(j)]
                    j < k ==> (self.after(j) matches Some(q) && q.outs.len() > 0)
            },
        decreases k,
    {
        if k > 0 {
            self.lemma_after((k - 1) as nat);
            if let Some(p) = self.after((k - 1) as nat) {
                let c = self.cone(p);
                c.law_next_stage(self.stages, self.reserved, p.total);
                c.law_available(self.stages, self.reserved, p.total);
                c.law_writeouts_bounded(self.stages, self.reserved, p.total);
                if let Some(q) = self.after(k) {
                    assert(q.stages.drop_last() =~= p.stages);
                }
            }
        }
    }

    /// A realization ends only once.
    pub proof fn lemma_end_unique(self, k: nat, m: nat)
        requires
            self.wf(),
            self.ended(k),
            self.ended(m),
        ensures
            k == m,
    {
        self.lemma_after(k);
        self.lemma_after(m);
        if k < m {
            self.lemma_after(k + 1);
            if k + 1 < m {
                assert(self.after(k + 1) is Some);
            }
            assert(self.after(k) is Some);
            assert(self.after((k + 1) as nat) is None);
        } else if m < k {
            if m + 1 < k {
                assert(self.after(m + 1) is Some);
            }
            assert(self.after(m) is Some);
            assert(self.after((m + 1) as nat) is None);
        }
    }

    /// The result, once the end is known.
    pub proof fn lemma_result(self, k: nat)
        requires
            self.wf(),
            self.ended(k),
        ensures
            self.finished(k) ==> self.result() == Some(self.after(k).unwrap().stages),
            self.exhausted(k) ==> self.result() is None,
    {
        if exists|m: nat| self.finished(m) {
            let m = choose|m: nat| self.finished(m);
            self.lemma_end_unique(k, m);
        }
    }

    /// With at least six rows above row 0, every realization comes to an end.
    pub proof fn law_settles(self)
        requires
            self.wf(),
            self.stages >= 6,
        ensures
            self.settles(),
    {
        self.lemma_settles_from(0);
    }

    proof fn lemma_settles_from(self, k: nat)
        requires
            self.wf(),
            self.stages >= 6,
            self.after(k) is Some,
        ensures
            self.settles(),
        decreases
                self.after(k).unwrap().outs.len(),
                self.aig.num_aigpins + 1 - self.after(k).unwrap().avail.len(),
    {
        let p = self.after(k).unwrap();
        self.lemma_after(k);
        if p.outs.len() == 0 {
            assert(self.ended(k));
        } else if self.step(p) is None {
            assert(self.ended(k));
        } else {
            let c = self.cone(p);
            let r = c.build(self.stages as nat, self.reserved, p.total);
            c.law_progress(self.stages, self.reserved, p.total);
            c.law_available(self.stages, self.reserved, p.total);
            self.lemma_after(k + 1);
            let q = self.after(k + 1).unwrap();
            assert(q == self.step(p).unwrap());
            lemma_distinct_bound(q.avail, self.aig.num_aigpins as int);
            if !(q.outs.len() < p.outs.len()) {
                let x = choose|x: usize| #[trigger] r.avail.contains(x) && !p.avail.contains(x);
                let i = r.avail.index_of(x);
                if i < p.avail.len() {
                    assert(p.avail[i] == x);
                }
            }
            self.lemma_settles_from(k + 1);
        }
    }

    /// Whether `x` is written out by one of the stages.
    pub open spec fn covered(stages: Seq<StageModel>, x: usize) -> bool {
        exists|i: int|
            0 <= i < stages.len() && #[trigger] written(stages[i].hier, stages[i].write_outs, x)
    }

    /// After `k` stages every endpoint is written out by one of them or remains to
    /// be realized.
    proof fn lemma_covered(self, k: nat, x: usize)
        requires
            self.wf(),
            self.after(k) is Some,
            self.start.outs.contains(x),
        ensures
            self.after(k).unwrap().outs.contains(x) || Self::covered(
                self.after(k).unwrap().stages,
                x,
            ),
        decreases k,
    {
        if k > 0 {
            let p = self.after((k - 1) as nat).unwrap();
            let q = self.after(k).unwrap();
            self.lemma_after((k - 1) as nat);
            self.lemma_covered((k - 1) as nat, x);
            self.cone(p).law_realized_written(self.stages, self.reserved, p.total);
            if p.outs.contains(x) {
                if !q.outs.contains(x) {
                    let i = p.stages.len() as int;
                    assert(written(q.stages[i].hier, q.stages[i].write_outs, x));
                }
            } else {
                let i = choose|i: int|
                    0 <= i < p.stages.len() && #[trigger] written(
                        p.stages[i].hier,
                        p.stages[i].write_outs,
                        x,
                    );
                assert(q.stages[i] == p.stages[i]);
                assert(written(q.stages[i].hier, q.stages[i].write_outs, x));
            }
        }
    }

    /// The pins that are available to a stage are those that were available from the
    /// start and those that an earlier stage computes; every pin in its hierarchy is
    /// passed through or stands on its two inputs.
    pub proof fn law_stage_inputs(self, k: nat)
        requires
            self.wf(),
            self.start.stages.len() == 0,
        ensures
            self.after(k) matches Some(p) ==> {
                &&& forall|x: usize| #[trigger]
                    p.avail.contains(x) <==> self.start.avail.contains(x) || (x
                        <= self.aig.num_aigpins && computed(p.stages, x))
                &&& self.step(p) matches Some(q) ==> self.cone(p).fed(
                    q.stages.last().hier,
                    self.stages as int,
                )
            },
        decreases k,
    {
        if let Some(p) = self.after(k) {
            self.lemma_after(k);
            self.cone(p).law_hierarchy_valid(self.stages, self.reserved, p.total);
            if k > 0 {
                self.law_stage_inputs((k - 1) as nat);
                self.lemma_after((k - 1) as nat);
                let b = self.after((k - 1) as nat).unwrap();
                self.cone(b).law_available(self.stages, self.reserved, b.total);
                let last = b.stages.len() as int;
                assert forall|x: usize| computed(p.stages, x) <==> computed(b.stages, x) || placed(
                    p.stages[last].hier,
                    x,
                ) by {
                    if computed(b.stages, x) {
                        let i = choose|i: int|
                            0 <= i < b.stages.len() && placed(#[trigger] b.stages[i].hier, x);
                        assert(p.stages[i] == b.stages[i]);
                        assert(placed(p.stages[i].hier, x));
                    }
                    if computed(p.stages, x) {
                        let i = choose|i: int|
                            0 <= i < p.stages.len() && placed(#[trigger] p.stages[i].hier, x);
                        if i < last {
                            assert(p.stages[i] == b.stages[i]);
                            assert(placed(b.stages[i].hier, x));
                        }
                    }
                }
            }
        }
    }

    /// If everything can be realized, every endpoint is written out by one of the
    /// stages.
    pub proof fn law_all_covered(self, x: usize)
        requires
            self.wf(),
            self.start.outs.contains(x),
            self.start.stages.len() == 0,
        ensures
            self.result() matches Some(stages) ==> Self::covered(stages, x),
    {
        if exists|k: nat| self.finished(k) {
            let k = choose|k: nat| self.finished(k);
            self.lemma_covered(k, x);
        }
    }
}

/// The pins that the endpoints `eps` read, each once.
pub open spec fn read_pins(aig: &AIG, staged: &StagedAIG, eps: Seq<usize>) -> Seq<usize>
    decreases eps.len(),
{
    if eps.len() == 0 {
        Seq::empty()
    } else {
        inserted_all(
            read_pins(aig, staged, eps.drop_last()),
            staged.group(aig, eps.last() as int).input_pins(),
        )
    }
}

/// The conditions under which endpoints take over a pin, by pin: when the literal
/// of the condition is true, the pin is stored as it is or inverted.
pub open spec fn activations(aig: &AIG, staged: &StagedAIG, eps: Seq<usize>) -> Seq<
    (usize, Seq<usize>),
>
    decreases eps.len(),
{
    if eps.len() == 0 {
        Seq::empty()
    } else {
        let es = activations(aig, staged, eps.drop_last());
        match staged.group(aig, eps.last() as int) {
            EndpointGroup::DFF(dff) => entry_added(
                es,
                pin_of(dff.d_iv),
                (dff.en_iv * 2 + dff.d_iv % 2) as usize,
            ),
            EndpointGroup::PrimaryOutput(iv) => entry_added(
                es,
                pin_of(iv),
                (2 + iv % 2) as usize,
            ),
            EndpointGroup::RAMBlock(_) => es,
            EndpointGroup::StagedIOPin(pin) => entry_added(es, pin, 2),
        }
    }
}

/// The number of memory blocks among the endpoints `eps`.
pub open spec fn sram_count(aig: &AIG, staged: &StagedAIG, eps: Seq<usize>) -> nat
    decreases eps.len(),
{
    if eps.len() == 0 {
        0
    } else {
        sram_count(aig, staged, eps.drop_last()) + if staged.group(
            aig,
            eps.last() as int,
        ) is RAMBlock {
            1nat
        } else {
            0nat
        }
    }
}

/// The number of pins that have to be stored once more, because endpoints take
/// them over under different conditions.
pub open spec fn output_dups(aig: &AIG, staged: &StagedAIG, eps: Seq<usize>) -> nat {
    entry_dups(activations(aig, staged, eps))
}

/// The number of words that are reserved: one for each memory block, and those for
/// the pins that have to be stored once more.
pub open spec fn reserved_words(aig: &AIG, staged: &StagedAIG, eps: Seq<usize>) -> nat {
    sram_count(aig, staged, eps) + (output_dups(aig, staged, eps) + 31) / 32
}

/// Whether the words that the endpoints need by themselves exceed the limit.
pub open spec fn overloaded(
    aig: &AIG,
    staged: &StagedAIG,
    eps: Seq<usize>,
    num_stages: usize,
) -> bool {
    ||| reserved_words(aig, staged, eps) >= max_writeouts(num_stages as nat)
    ||| sram_count(aig, staged, eps) * 4 + output_dups(aig, staged, eps) > max_writeouts(
        num_stages as nat,
    )
}

/// The realization of the endpoints `eps`.
pub open spec fn realization(
    aig: &AIG,
    staged: &StagedAIG,
    eps: Seq<usize>,
    num_stages: usize,
) -> Realization {
    let reserved = reserved_words(aig, staged, eps);
    Realization {
        aig: *aig,
        stages: num_stages,
        reserved,
        start: Progress {
            outs: read_pins(aig, staged, eps),
            avail: opt_elems(staged.primary_inputs),
            total: reserved + sram_count(aig, staged, eps) * 4 + output_dups(aig, staged, eps),
            stages: Seq::empty(),
        },
    }
}

/// The partition that realizes the endpoints `eps`, unless a resource is exhausted.
pub open spec fn built(
    aig: &AIG,
    staged: &StagedAIG,
    eps: Seq<usize>,
    num_stages: usize,
) -> Option<PartitionModel> {
    if overloaded(aig, staged, eps, num_stages) {
        None
    } else {
        match realization(aig, staged, eps, num_stages).result() {
            Some(stages) => Some(PartitionModel { endpoints: eps, stages }),
            None => None,
        }
    }
}

/// Whether endpoints can be mapped together: they exist, and either each of them can be
/// mapped, or no stage has to put a gate with a constant input on top of other gates, or
/// no stage is built at all.
pub open spec fn buildable(
    aig: &AIG,
    staged: &StagedAIG,
    eps: Seq<usize>,
    num_stages: usize,
) -> bool {
    &&& forall|k: int| 0 <= k < eps.len() ==> (#[trigger] eps[k]) < staged.group_count()
    &&& (forall|k: int| 0 <= k < eps.len() ==> mappable(aig, staged, #[trigger] eps[k]))
        || overloaded(aig, staged, eps, num_stages) || realization(
        aig,
        staged,
        eps,
        num_stages,
    ).steady()
}

/// Whether an endpoint can be mapped: it exists, and no gate that it depends on has
/// a constant input, but for gates that are computed from available pins alone.
pub open spec fn mappable(aig: &AIG, staged: &StagedAIG, e: usize) -> bool {
    let stop = opt_elems(staged.primary_inputs);
    let s = aig.topo(stop, staged.group(aig, e as int).input_pins());
    &&& e < staged.group_count()
    &&& forall|p: int|
        0 <= p < s.len() ==> match aig.drivers@[#[trigger] s[p] as int] {
            DriverType::AndGate(a, b) => a < 2 || b < 2 ==> aig.depth(stop, s[p]) <= 1,
            _ => true,
        }
}

/// Checks that an endpoint can be mapped.
pub fn can_map(aig: &AIG, staged: &StagedAIG, e: usize) -> (r: bool)
    requires
        staged.wf(aig),
    ensures
        r == mappable(aig, staged, e),
{
    if e >= staged.num_endpoint_groups() {
        return false;
    }
    proof {
        staged.lemma_group_inputs(aig, e as int);
    }
    let ghost stop = opt_elems(staged.primary_inputs);
    let pins = staged.get_endpoint_group(aig, e).inputs();
    let order = aig.topo_traverse_generic(&pins, staged.primary_inputs.as_ref());
    proof {
        aig.lemma_topo(stop, pins@);
    }
    let depths = aig.depths(&order, staged.primary_inputs.as_ref());
    let mut k: usize = 0;
    while k < order.len()
        invariant
            k <= order@.len(),
            aig.wf(),
            e < staged.group_count(),
            stop == opt_elems(staged.primary_inputs),
            order@ == aig.topo(stop, staged.group(aig, e as int).input_pins()),
            aig.is_topo(stop, order@),
            depths@.len() == order@.len(),
            forall|p: int|
                0 <= p < order@.len() ==> #[trigger] depths@[p] == aig.depth(stop, order@[p]),
            forall|p: int|
                0 <= p < k ==> match aig.drivers@[#[trigger] order@[p] as int] {
                    DriverType::AndGate(a, b) => a < 2 || b < 2 ==> aig.depth(stop, order@[p]) <= 1,
                    _ => true,
                },
        decreases order@.len() - k,
    {
        let u = order[k];
        assert(depths@[k as int] == aig.depth(stop, order@[k as int]));
        if let DriverType::AndGate(a, b) = aig.drivers[u] {
            if (a < 2 || b < 2) && depths[k] > 1 {
                assert(aig.drivers@[order@[k as int] as int] == DriverType::AndGate(a, b));
                return false;
            }
        }
        k += 1;
    }
    true
}

/// Whether the stages of the endpoints `eps` come to an end: always if hierarchies
/// have at least six rows above row 0.
pub open spec fn settled(
    aig: &AIG,
    staged: &StagedAIG,
    eps: Seq<usize>,
    num_stages: usize,
) -> bool {
    num_stages >= 6 || overloaded(aig, staged, eps, num_stages) || realization(
        aig,
        staged,
        eps,
        num_stages,
    ).settles()
}

/// The pins that are read are distinct pins of the graph, and each is read by one
/// of the endpoints.
pub proof fn lemma_read_pins(aig: &AIG, staged: &StagedAIG, eps: Seq<usize>)
    requires
        staged.wf(aig),
        forall|k: int| 0 <= k < eps.len() ==> (#[trigger] eps[k]) < staged.group_count(),
    ensures
        read_pins(aig, staged, eps).no_duplicates(),
        forall|x: usize| #[trigger]
            read_pins(aig, staged, eps).contains(x) ==> 1 <= x <= aig.num_aigpins && exists|k: int|
                0 <= k < eps.len() && staged.group(
                    aig,
                    #[trigger] eps[k] as int,
                ).input_pins().contains(x),
        forall|k: int, x: usize|
            0 <= k < eps.len() && #[trigger] staged.group(
                aig,
                eps[k] as int,
            ).input_pins().contains(x) ==> read_pins(aig, staged, eps).contains(x),
    decreases eps.len(),
{
    if eps.len() > 0 {
        let front = eps.drop_last();
        lemma_read_pins(aig, staged, front);
        let pins = staged.group(aig, eps.last() as int).input_pins();
        staged.lemma_group_inputs(aig, eps.last() as int);
        lemma_inserted_all(read_pins(aig, staged, front), pins);
        let all = read_pins(aig, staged, eps);
        assert forall|x: usize| #[trigger] all.contains(x) implies 1 <= x <= aig.num_aigpins
            && exists|k: int|
            0 <= k < eps.len() && staged.group(
                aig,
                #[trigger] eps[k] as int,
            ).input_pins().contains(x) by {
            if pins.contains(x) {
                let i = pins.index_of(x);
                assert(1 <= pins[i] <= aig.num_aigpins);
                assert(staged.group(aig, eps[eps.len() - 1] as int).input_pins().contains(x));
            } else {
                let k = choose|k: int|
                    0 <= k < front.len() && staged.group(
                        aig,
                        #[trigger] front[k] as int,
                    ).input_pins().contains(x);
                assert(eps[k] == front[k]);
            }
        }
        assert forall|k: int, x: usize|
            0 <= k < eps.len() && #[trigger] staged.group(
                aig,
                eps[k] as int,
            ).input_pins().contains(x) implies all.contains(x) by {
            if k < front.len() {
                assert(front[k] == eps[k]);
                assert(staged.group(aig, front[k] as int).input_pins().contains(x));
            }
        }
    }
}

/// Endpoints that can be mapped together can be realized.
pub proof fn lemma_buildable(aig: &AIG, staged: &StagedAIG, eps: Seq<usize>, num_stages: usize)
    requires
        staged.wf(aig),
        stages_fit(num_stages),
        buildable(aig, staged, eps, num_stages),
        !overloaded(aig, staged, eps, num_stages),
    ensures
        ({
            let r = realization(aig, staged, eps, num_stages);
            r.cone(r.start).wf() && r.steady()
        }),
{
    let r = realization(aig, staged, eps, num_stages);
    let c = r.cone(r.start);
    lemma_read_pins(aig, staged, eps);
    assert forall|k: int| 0 <= k < c.outs.len() implies 1 <= #[trigger] c.outs[k]
        <= aig.num_aigpins by {
        assert(c.outs.contains(c.outs[k]));
    }
    if forall|k: int| 0 <= k < eps.len() ==> mappable(aig, staged, #[trigger] eps[k]) {
        lemma_mappable(aig, staged, eps, num_stages);
        r.lemma_shallow_steady();
    }
}

/// The gates with a constant input that endpoints depend on which can be mapped one by
/// one are computed from available pins alone.
proof fn lemma_mappable(aig: &AIG, staged: &StagedAIG, eps: Seq<usize>, num_stages: usize)
    requires
        staged.wf(aig),
        forall|k: int| 0 <= k < eps.len() ==> mappable(aig, staged, #[trigger] eps[k]),
    ensures
        ({
            let r = realization(aig, staged, eps, num_stages);
            r.cone(r.start).shallow()
        }),
{
    let r = realization(aig, staged, eps, num_stages);
    let c = r.cone(r.start);
    let stop = opt_elems(staged.primary_inputs);
    assert forall|k: int| 0 <= k < eps.len() implies (#[trigger] eps[k])
        < staged.group_count() by {
        assert(mappable(aig, staged, eps[k]));
    }
    lemma_read_pins(aig, staged, eps);
    assert forall|k: int| 0 <= k < c.outs.len() implies 1 <= #[trigger] c.outs[k]
        <= aig.num_aigpins by {
        assert(c.outs.contains(c.outs[k]));
    }
    assert forall|p: int| 0 <= p < c.order().len() implies match aig.drivers@[
        #[trigger] c.order()[p] as int] {
        DriverType::AndGate(a, b) => a < 2 || b < 2 ==> c.level(c.order()[p]) <= 1,
        _ => true,
    } by {
        let u = c.order()[p];
        let x = aig.lemma_topo_origin(stop, c.outs, p);
        let k = choose|k: int|
            0 <= k < eps.len() && staged.group(aig, #[trigger] eps[k] as int).input_pins().contains(
                x,
            );
        let pins = staged.group(aig, eps[k] as int).input_pins();
        assert(mappable(aig, staged, eps[k]));
        staged.lemma_group_inputs(aig, eps[k] as int);
        assert forall|y: usize| #[trigger] seq![x].contains(y) implies pins.contains(y) by {}
        aig.lemma_topo_mono(stop, pins, stop, seq![x]);
        let s = aig.topo(stop, pins);
        let q = s.index_of(u);
        assert(s[q] == u);
    }
}

/// Reading one more endpoint.
pub proof fn lemma_activations(aig: &AIG, staged: &StagedAIG, eps: Seq<usize>)
    ensures
        entries_filled(activations(aig, staged, eps)),
        sram_count(aig, staged, eps) + entry_total(activations(aig, staged, eps)) <= eps.len(),
        output_dups(aig, staged, eps) <= entry_total(activations(aig, staged, eps)),
    decreases eps.len(),
{
    if eps.len() > 0 {
        let es = activations(aig, staged, eps.drop_last());
        lemma_activations(aig, staged, eps.drop_last());
        match staged.group(aig, eps.last() as int) {
            EndpointGroup::DFF(dff) => lemma_entry_added(
                es,
                pin_of(dff.d_iv),
                (dff.en_iv * 2 + dff.d_iv % 2) as usize,
            ),
            EndpointGroup::PrimaryOutput(iv) => lemma_entry_added(
                es,
                pin_of(iv),
                (2 + iv % 2) as usize,
            ),
            EndpointGroup::RAMBlock(_) => {},
            EndpointGroup::StagedIOPin(pin) => lemma_entry_added(es, pin, 2),
        }
    }
    lemma_entry_dups(activations(aig, staged, eps));
}

/// A partition realizes its endpoints: each pin that one of them reads is written
/// out by one of the stages. The words that are written out, together with those
/// that the endpoints need by themselves, do not exceed the limit.
pub proof fn law_built(aig: &AIG, staged: &StagedAIG, eps: Seq<usize>, num_stages: usize)
    requires
        staged.wf(aig),
        opt_elems(staged.primary_inputs).no_duplicates(),
        stages_fit(num_stages),
        buildable(aig, staged, eps, num_stages),
    ensures
        built(aig, staged, eps, num_stages) matches Some(m) ==> {
            let limit = max_writeouts(num_stages as nat);
            let own = sram_count(aig, staged, eps) * 4 + output_dups(aig, staged, eps);
            &&& m.endpoints == eps
            &&& forall|k: int, x: usize|
                0 <= k < eps.len() && #[trigger] staged.group(
                    aig,
                    eps[k] as int,
                ).input_pins().contains(x) ==> Realization::covered(m.stages, x)
            &&& own <= limit
            &&& reserved_words(aig, staged, eps) < limit
            &&& m.stages.len() > 0 ==> word_total(m.stages) + own + 2 * reserved_words(
                aig,
                staged,
                eps,
            ) <= limit
        },
{
    if let Some(m) = built(aig, staged, eps, num_stages) {
        let r = realization(aig, staged, eps, num_stages);
        lemma_buildable(aig, staged, eps, num_stages);
        lemma_read_pins(aig, staged, eps);
        assert forall|k: int, x: usize|
            0 <= k < eps.len() && #[trigger] staged.group(
                aig,
                eps[k] as int,
            ).input_pins().contains(x) implies Realization::covered(m.stages, x) by {
            r.law_all_covered(x);
        }
        let k = choose|k: nat| r.finished(k);
        r.lemma_after(k);
    }
}

} // verus!
