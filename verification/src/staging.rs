//! Splitting a deep circuit into major stages at global level indices.
//!
//! This is crucial in efficiently handling large and deep circuits with a limited
//! processing element width.
pub mod crossing;
pub mod cut;
pub mod frontier;
pub mod levels;
pub mod split;

use crate::aig::{EndpointGroup, AIG};
use crate::index_set::{
    elems, insert_all, inserted, lemma_distinct_bound, opt_clone, opt_contains, opt_elems,
    ref_elems, remove_all, set_insert, set_new, set_swap_remove, set_to_vec,
};
use crate::netlist::all_below;
use crate::pe::hier::{count_in, lemma_count_bound};
use crate::staging::cut::Cut;
use crate::staging::split::{
    lemma_count_concat, lemma_filter_distinct, lemma_filter_member, Frontier, Split,
};
use indexmap::IndexSet;
use vstd::prelude::*;

verus! {

/// The boundaries of a staged AIG.
pub struct StagedAIG {
    /// The staged primary inputs from previous levels.
    pub primary_inputs: Option<IndexSet<usize>>,
    /// The staged primary output pins for next levels: the pins that are active at
    /// the level split.
    pub primary_output_pins: Vec<usize>,
    /// The endpoint indices of the original AIG fulfilled by the current level.
    pub endpoints: Vec<usize>,
}

/// A staged AIG: its inputs, its outputs for later stages, and the endpoints that it
/// fulfils.
pub struct StagedModel {
    pub primary_inputs: Option<Seq<usize>>,
    pub primary_output_pins: Seq<usize>,
    pub endpoints: Seq<usize>,
}

impl View for StagedAIG {
    type V = StagedModel;

    open spec fn view(&self) -> StagedModel {
        StagedModel {
            primary_inputs: match self.primary_inputs {
                Some(s) => Some(elems(s)),
                None => None,
            },
            primary_output_pins: self.primary_output_pins@,
            endpoints: self.endpoints@,
        }
    }
}

impl StagedAIG {
    /// The pins and endpoints are those of `aig`.
    pub open spec fn wf(&self, aig: &AIG) -> bool {
        &&& aig.wf()
        &&& forall|k: int|
            0 <= k < opt_elems(self.primary_inputs).len() ==> #[trigger] opt_elems(
                self.primary_inputs,
            )[k] <= aig.num_aigpins
        &&& forall|k: int|
            0 <= k < self.primary_output_pins@.len() ==> #[trigger] self.primary_output_pins@[k]
                <= aig.num_aigpins
        &&& forall|k: int|
            0 <= k < self.endpoints@.len() ==> (#[trigger] self.endpoints@[k])
                < aig.group_count()
        &&& self.group_count() <= usize::MAX
    }

    /// The number of endpoint groups.
    pub open spec fn group_count(&self) -> nat {
        self.primary_output_pins@.len() + self.endpoints@.len()
    }

    /// The endpoint group of an index: first the staged outputs, then the endpoints
    /// of the original AIG.
    pub open spec fn group<'aig>(&self, aig: &'aig AIG, id: int) -> EndpointGroup<'aig> {
        let staged = self.primary_output_pins@.len() as int;
        if id < staged {
            EndpointGroup::StagedIOPin(self.primary_output_pins@[id])
        } else {
            aig.group(self.endpoints@[id - staged] as int)
        }
    }

    /// The number of endpoint groups that should be fulfilled with this staged AIG.
    ///
    /// This mimics the interface given by a raw AIG.
    pub fn num_endpoint_groups(&self) -> (n: usize)
        requires
            self.group_count() <= usize::MAX,
        ensures
            n == self.group_count(),
    {
        self.primary_output_pins.len() + self.endpoints.len()
    }

    /// The virtual endpoint group with an index.
    ///
    /// This mimics the interface given by a raw AIG.
    pub fn get_endpoint_group<'aig>(&self, aig: &'aig AIG, endpt_id: usize) -> (group:
        EndpointGroup<'aig>)
        requires
            endpt_id < self.group_count(),
            endpt_id >= self.primary_output_pins@.len() ==> self.endpoints@[endpt_id
                - self.primary_output_pins@.len()] < aig.group_count(),
        ensures
            group == self.group(aig, endpt_id as int),
    {
        let staged = self.primary_output_pins.len();
        if endpt_id < staged {
            EndpointGroup::StagedIOPin(self.primary_output_pins[endpt_id])
        } else {
            aig.get_endpoint_group(self.endpoints[endpt_id - staged])
        }
    }

    /// The pins that an endpoint group reads are pins of the graph, not constant.
    pub proof fn lemma_group_inputs(&self, aig: &AIG, id: int)
        requires
            self.wf(aig),
            0 <= id < self.group_count(),
        ensures
            forall|k: int|
                0 <= k < self.group(aig, id).input_pins().len() ==> 1 <= #[trigger] self.group(
                    aig,
                    id,
                ).input_pins()[k] <= aig.num_aigpins,
    {
        let staged = self.primary_output_pins@.len() as int;
        if id >= staged {
            aig.lemma_group_inputs(self.endpoints@[id - staged] as int);
        }
    }

    /// The literals of a flip-flop that is an endpoint name pins of the graph.
    pub proof fn lemma_group_lits(&self, aig: &AIG, id: int)
        requires
            self.wf(aig),
            0 <= id < self.group_count(),
        ensures
            self.group(aig, id) matches EndpointGroup::DFF(dff) ==> aig.has_lit(dff.d_iv)
                && aig.has_lit(dff.en_iv),
    {
        let staged = self.primary_output_pins@.len() as int;
        if id >= staged {
            let e = self.endpoints@[id - staged] as int;
            let po = aig.primary_outputs@.len() as int;
            if po <= e < po + aig.dffs@.len() {
                assert(aig.has_lit(aig.dffs@[e - po].d_iv));
            }
        }
    }

    /// Checks that the pins and endpoints are those of `aig`.
    pub fn check(&self, aig: &AIG) -> (r: bool)
        requires
            aig.wf(),
        ensures
            r == self.wf(aig),
    {
        let n = aig.num_aigpins;
        let inputs = match &self.primary_inputs {
            Some(s) => set_to_vec(s),
            None => Vec::new(),
        };
        assert(inputs@ =~= opt_elems(self.primary_inputs));
        self.primary_output_pins.len() as u128 + self.endpoints.len() as u128 <= usize::MAX as u128
            && none_above(&inputs, n) && none_above(&self.primary_output_pins, n) && all_below(
            &self.endpoints,
            aig.num_endpoint_groups(),
        )
    }

    /// A stage before a split of a graph is a staged AIG of this graph.
    pub proof fn lemma_stage_wf(&self, aig: &AIG, sp: Split, inputs: Option<Seq<usize>>)
        requires
            sp.wf(),
            sp.aig == *aig,
            self@ == sp.stage(inputs),
            opt_elems(self.primary_inputs) == sp.stop,
        ensures
            self.wf(aig),
    {
        sp.lemma_order();
        sp.law_outputs_live();
        let pred = |e: usize| sp.end_before(e);
        lemma_filter_distinct(sp.eps, pred);
        let pins = self.primary_output_pins@;
        assert forall|k: int| 0 <= k < pins.len() implies #[trigger] pins[k]
            <= aig.num_aigpins by {
            assert(pins.contains(pins[k]));
            let p = sp.order().index_of(pins[k]);
            assert(sp.order()[p] == pins[k]);
        }
        let eps = self.endpoints@;
        assert forall|k: int| 0 <= k < eps.len() implies (#[trigger] eps[k])
            < aig.group_count() by {
            assert(eps.contains(eps[k]));
            lemma_filter_member(sp.eps, pred, eps[k]);
            let t = sp.eps.index_of(eps[k]);
            assert(sp.eps[t] == eps[k]);
        }
        lemma_distinct_bound(pins, aig.num_aigpins as int);
        lemma_distinct_bound(eps, aig.group_count() as int);
    }

    /// A staged AIG that consists of all levels.
    pub fn from_full_aig(aig: &AIG) -> (staged: StagedAIG)
        requires
            aig.group_count() <= usize::MAX,
        ensures
            staged.primary_inputs is None,
            staged.primary_output_pins@ == Seq::<usize>::empty(),
            staged.endpoints@ == Seq::new(aig.group_count(), |k: int| k as usize),
            aig.wf() ==> staged.wf(aig),
            forall|id: int|
                0 <= id < aig.group_count() ==> #[trigger] staged.group(aig, id) == aig.group(id),
    {
        let endpoints = count_up(aig.num_endpoint_groups());
        StagedAIG { primary_inputs: None, primary_output_pins: Vec::new(), endpoints }
    }

    /// Whether the endpoints of a subset are in order: all staged outputs at the
    /// front, and the endpoints of the original AIG following.
    pub open spec fn subset_ordered(&self, subset: Seq<usize>) -> bool {
        forall|a: int, b: int|
            0 <= a < b < subset.len() && #[trigger] subset[b] < self.primary_output_pins@.len()
                ==> #[trigger] subset[a] < self.primary_output_pins@.len()
    }

    /// Whether `pins` are the staged outputs and `endpoints` the original endpoints of a
    /// subset.
    pub open spec fn is_subset(
        &self,
        subset: Seq<usize>,
        pins: Seq<usize>,
        endpoints: Seq<usize>,
    ) -> bool {
        &&& forall|k: int| 0 <= k < pins.len() ==> self.pin_at(subset, #[trigger] pins[k], k)
        &&& forall|k: int|
            0 <= k < endpoints.len() ==> self.endpoint_at(
                subset,
                #[trigger] endpoints[k],
                pins.len() + k,
            )
    }

    /// Whether position `k` of a subset is the staged output `pin`.
    pub open spec fn pin_at(&self, subset: Seq<usize>, pin: usize, k: int) -> bool {
        &&& subset[k] < self.primary_output_pins@.len()
        &&& pin == self.primary_output_pins@[subset[k] as int]
    }

    /// Whether position `k` of a subset is the original endpoint `endpoint`.
    pub open spec fn endpoint_at(&self, subset: Seq<usize>, endpoint: usize, k: int) -> bool {
        &&& subset[k] >= self.primary_output_pins@.len()
        &&& endpoint == self.endpoints@[subset[k] - self.primary_output_pins@.len()]
    }

    /// A staged AIG for a subset of the endpoints, by horizontal splitting.
    ///
    /// The endpoints are given as a list of endpoint group indices, which must have
    /// all staged primary output groups at the front and original endpoints
    /// following.
    ///
    /// The endpoint `i` of the result corresponds to the endpoint
    /// `endpoint_subset[i]` of this staged AIG.
    pub fn to_endpoint_subset(&self, endpoint_subset: &[usize]) -> (sub: StagedAIG)
        requires
            forall|k: int|
                0 <= k < endpoint_subset@.len() ==> (#[trigger] endpoint_subset@[k])
                    < self.group_count(),
            self.subset_ordered(endpoint_subset@),
        ensures
            sub@.primary_inputs == self@.primary_inputs,
            sub.group_count() == endpoint_subset@.len(),
            self.is_subset(endpoint_subset@, sub.primary_output_pins@, sub.endpoints@),
            forall|aig: &AIG, k: int|
                0 <= k < endpoint_subset@.len() ==> #[trigger] sub.group(aig, k) == self.group(
                    aig,
                    endpoint_subset@[k] as int,
                ),
    {
        let staged = self.primary_output_pins.len();
        let n = endpoint_subset.len();
        let mut pins: Vec<usize> = Vec::new();
        let mut endpoints: Vec<usize> = Vec::new();
        let mut k: usize = 0;
        while k < n
            invariant
                k <= n,
                n == endpoint_subset@.len(),
                staged == self.primary_output_pins@.len(),
                forall|i: int|
                    0 <= i < endpoint_subset@.len() ==> (#[trigger] endpoint_subset@[i])
                        < self.group_count(),
                self.subset_ordered(endpoint_subset@),
                pins@.len() + endpoints@.len() == k,
                self.is_subset(endpoint_subset@, pins@, endpoints@),
            decreases n - k,
        {
            let id = endpoint_subset[k];
            assert(endpoint_subset@[k as int] < self.group_count());
            if id < staged {
                proof {
                    if endpoints@.len() > 0 {
                        assert(self.endpoint_at(
                            endpoint_subset@,
                            endpoints@[0],
                            pins@.len() as int,
                        ));
                        assert(staged <= endpoint_subset@[pins@.len() as int]);
                        assert(endpoint_subset@[k as int] < staged);
                        assert(endpoint_subset@[pins@.len() as int] < staged);
                    }
                }
                pins.push(self.primary_output_pins[id]);
            } else {
                endpoints.push(self.endpoints[id - staged]);
            }
            k += 1;
        }
        let sub = StagedAIG {
            primary_inputs: opt_clone(self.primary_inputs.as_ref()),
            primary_output_pins: pins,
            endpoints,
        };
        proof {
            assert forall|aig: &AIG, k: int| 0 <= k < endpoint_subset@.len() implies #[trigger] sub.group(
                aig,
                k,
            ) == self.group(aig, endpoint_subset@[k] as int) by {
                let p = pins@.len() as int;
                if k < p {
                    assert(self.pin_at(endpoint_subset@, sub.primary_output_pins@[k], k));
                } else {
                    assert(self.endpoint_at(endpoint_subset@, sub.endpoints@[k - p], k));
                }
            }
        }
        sub
    }

    /// A staged AIG by vertical splitting at the given level.
    ///
    /// The active middle nodes at the split are the primary output pins, but for those
    /// that are primary inputs already; if all of them are, they are handed on once more.
    /// If there are none, all endpoints are already satisfied after this stage.
    pub fn from_split(
        aig: &AIG,
        unrealized_orig_endpoints: &IndexSet<usize>,
        primary_inputs: Option<&IndexSet<usize>>,
        split_at_level: usize,
    ) -> (staged: StagedAIG)
        requires
            (Split {
                aig: *aig,
                stop: ref_elems(primary_inputs),
                eps: elems(*unrealized_orig_endpoints),
                level: split_at_level as nat,
            }).wf(),
        ensures
            staged@ == (Split {
                aig: *aig,
                stop: ref_elems(primary_inputs),
                eps: elems(*unrealized_orig_endpoints),
                level: split_at_level as nat,
            }).stage(
                match primary_inputs {
                    Some(s) => Some(elems(*s)),
                    None => None,
                },
            ),
            staged.primary_output_pins@.len() == 0 ==> staged.endpoints@ == elems(
                *unrealized_orig_endpoints,
            ),
    {
        let ghost sp = Split {
            aig: *aig,
            stop: ref_elems(primary_inputs),
            eps: elems(*unrealized_orig_endpoints),
            level: split_at_level as nat,
        };
        let unrealized = set_to_vec(unrealized_orig_endpoints);
        let ends = endpoint_pins(aig, &unrealized, Ghost(sp));
        if ends.len() == 0 {
            return StagedAIG {
                primary_inputs: opt_clone(primary_inputs),
                primary_output_pins: Vec::new(),
                endpoints: unrealized,
            };
        }
        proof {
            sp.lemma_end_uses(sp.eps.len() as int);
            sp.lemma_order();
        }
        let order = aig.topo_traverse_generic(&ends, primary_inputs);
        let (level_id, gate_fanouts) = levels_and_fanouts(aig, primary_inputs, &order, Ghost(sp));
        let mut num_fanouts = gate_fanouts;
        add_uses(
            &mut num_fanouts,
            &ends,
            Ghost(sp.gate_uses(sp.order().len() as int)),
            Ghost(aig.num_aigpins),
        );
        let mut nodes_at_split = set_new();
        pass_pins(
            aig,
            primary_inputs,
            &order,
            &level_id,
            split_at_level,
            &mut num_fanouts,
            &mut nodes_at_split,
            Ghost(sp),
        );
        let endpoints = pass_endpoints(
            aig,
            &unrealized,
            &level_id,
            split_at_level,
            &mut num_fanouts,
            &mut nodes_at_split,
            Ghost(sp),
        );
        let nodes = set_to_vec(&nodes_at_split);
        let fresh = without(&nodes, primary_inputs);
        let primary_output_pins = if fresh.len() == 0 {
            nodes
        } else {
            fresh
        };
        proof {
            if primary_output_pins@.len() == 0 {
                sp.law_no_outputs_all_done();
            }
        }
        StagedAIG { primary_inputs: opt_clone(primary_inputs), primary_output_pins, endpoints }
    }
}

/// The models of a list of stages and the levels between which they lie.
pub open spec fn stage_list(s: Seq<(usize, usize, StagedAIG)>) -> Seq<
    (usize, usize, StagedModel),
> {
    Seq::new(s.len(), |k: int| (s[k].0, s[k].1, s[k].2@))
}

/// Given the level split points, builds a list of split stages.
///
/// For example, given [10, 20], the list is like this:
/// [(0, 10, stage0_10), (10, 20, stage10_20), (20, MAX, stage20_MAX)]
///
/// If the netlist ends early before all split points, the list might be shorter than
/// expected; no endpoint is left then.
pub fn build_staged_aigs(aig: &AIG, level_split: &[usize]) -> (ret: Vec<(usize, usize, StagedAIG)>)
    requires
        aig.wf(),
        (Cut { aig: *aig, splits: level_split@ }).ordered(),
    ensures
        stage_list(ret@) == (Cut { aig: *aig, splits: level_split@ }).stages(),
        forall|k: int| 0 <= k < ret@.len() ==> (#[trigger] ret@[k]).2.wf(aig),
{
    let ghost cut = Cut { aig: *aig, splits: level_split@ };
    let n = level_split.len();
    let mut ret: Vec<(usize, usize, StagedAIG)> = Vec::new();
    let mut unrealized = all_endpoints(aig);
    let mut primary_inputs: Option<IndexSet<usize>> = None;
    let ghost mut inputs: Option<Seq<usize>> = None;
    let mut last_split: usize = 0;
    let mut i: usize = 0;
    assert(stage_list(ret@) + cut.stages() =~= cut.stages());
    while i < n
        invariant
            i <= n,
            n == level_split@.len(),
            cut == (Cut { aig: *aig, splits: level_split@ }),
            cut.split(i as int, elems(unrealized), inputs).wf(),
            cut.ordered_from(i as int, elems(unrealized), inputs),
            last_split == cut.start(i as int),
            match primary_inputs {
                Some(s) => inputs == Some(elems(s)),
                None => inputs is None,
            },
            cut.stages() == stage_list(ret@) + cut.stages_from(
                i as int,
                elems(unrealized),
                inputs,
            ),
            forall|k: int| 0 <= k < ret@.len() ==> (#[trigger] ret@[k]).2.wf(aig),
        decreases n - i,
    {
        let ghost eps = elems(unrealized);
        let ghost before = ret@;
        let cur_split = level_split[i];
        assert(cut.splits[i as int] == cur_split);
        let staged = StagedAIG::from_split(
            aig,
            &unrealized,
            primary_inputs.as_ref(),
            cur_split - last_split,
        );
        let ghost model = staged@;
        proof {
            assert(model == cut.stage(i as int, eps, inputs));
            cut.lemma_next(i as int, eps, inputs);
            staged.lemma_stage_wf(aig, cut.split(i as int, eps, inputs), inputs);
        }
        remove_all(&mut unrealized, &staged.endpoints);
        let mut later = match primary_inputs {
            Some(s) => s,
            None => set_new(),
        };
        insert_all(&mut later, &staged.primary_output_pins);
        primary_inputs = Some(later);
        if staged.primary_output_pins.len() == 0 {
            ret.push((last_split, usize::MAX, staged));
            assert(stage_list(ret@) =~= stage_list(before) + seq![
                (last_split, usize::MAX, model),
            ]);
            return ret;
        }
        ret.push((last_split, cur_split, staged));
        proof {
            let rest = cut.rest(eps, model);
            let next = cut.later_inputs(inputs, model);
            inputs = next;
            assert(cut.split(i + 1, rest, next).wf());
            assert(stage_list(ret@) =~= stage_list(before).push((last_split, cur_split, model)));
            assert(stage_list(before) + (seq![(last_split, cur_split, model)] + cut.stages_from(
                i + 1,
                rest,
                next,
            )) =~= stage_list(ret@) + cut.stages_from(i + 1, rest, next));
        }
        last_split = cur_split;
        i += 1;
    }
    let staged = StagedAIG::from_split(aig, &unrealized, primary_inputs.as_ref(), usize::MAX);
    let ghost before = ret@;
    let ghost model = staged@;
    proof {
        staged.lemma_stage_wf(aig, cut.split(i as int, elems(unrealized), inputs), inputs);
    }
    ret.push((last_split, usize::MAX, staged));
    assert(stage_list(ret@) =~= stage_list(before) + seq![(last_split, usize::MAX, model)]);
    ret
}

/// The set of all endpoints.
fn all_endpoints(aig: &AIG) -> (s: IndexSet<usize>)
    requires
        aig.group_count() <= usize::MAX,
    ensures
        elems(s) == Seq::new(aig.group_count(), |k: int| k as usize),
{
    let n = aig.num_endpoint_groups();
    let mut s = set_new();
    let mut k: usize = 0;
    while k < n
        invariant
            k <= n,
            elems(s) == Seq::new(k as nat, |i: int| i as usize),
        decreases n - k,
    {
        set_insert(&mut s, k);
        assert(elems(s) =~= Seq::new((k + 1) as nat, |i: int| i as usize));
        k += 1;
    }
    s
}

/// Whether no number of a list is above `n`.
fn none_above(list: &Vec<usize>, n: usize) -> (r: bool)
    ensures
        r == (forall|k: int| 0 <= k < list@.len() ==> #[trigger] list@[k] <= n),
{
    let mut k: usize = 0;
    while k < list.len()
        invariant
            k <= list@.len(),
            forall|i: int| 0 <= i < k ==> #[trigger] list@[i] <= n,
        decreases list@.len() - k,
    {
        if list[k] > n {
            return false;
        }
        k += 1;
    }
    true
}

/// The numbers below `n`.
fn count_up(n: usize) -> (v: Vec<usize>)
    ensures
        v@ == Seq::new(n as nat, |k: int| k as usize),
{
    let mut v: Vec<usize> = Vec::new();
    let mut k: usize = 0;
    while k < n
        invariant
            k <= n,
            v@ == Seq::new(k as nat, |i: int| i as usize),
        decreases n - k,
    {
        v.push(k);
        assert(v@ =~= Seq::new((k + 1) as nat, |i: int| i as usize));
        k += 1;
    }
    v
}

/// The pins that endpoints read, with repetitions.
fn endpoint_pins(aig: &AIG, endpoints: &Vec<usize>, Ghost(sp): Ghost<Split>) -> (pins: Vec<usize>)
    requires
        sp.wf(),
        sp.aig == *aig,
        sp.eps == endpoints@,
    ensures
        pins@ == sp.ends(),
{
    let mut pins: Vec<usize> = Vec::new();
    let mut k: usize = 0;
    while k < endpoints.len()
        invariant
            k <= endpoints@.len(),
            sp.wf(),
            sp.aig == *aig,
            sp.eps == endpoints@,
            pins@ == sp.end_uses(k as int),
        decreases endpoints@.len() - k,
    {
        assert(sp.eps[k as int] < aig.group_count());
        let mut inputs = aig.get_endpoint_group(endpoints[k]).inputs();
        pins.append(&mut inputs);
        k += 1;
    }
    pins
}

/// Counts more uses of pins.
fn add_uses(
    counts: &mut Vec<u128>,
    pins: &Vec<usize>,
    Ghost(before): Ghost<Seq<usize>>,
    Ghost(n): Ghost<usize>,
)
    requires
        old(counts)@.len() == n + 1,
        forall|x: usize| x <= n ==> #[trigger] old(counts)@[x as int] == count_in(before, x),
        forall|k: int| 0 <= k < pins@.len() ==> #[trigger] pins@[k] <= n,
        before.len() <= 2 * usize::MAX,
    ensures
        final(counts)@.len() == n + 1,
        forall|x: usize| x <= n ==> #[trigger] final(counts)@[x as int] == count_in(
            before + pins@,
            x,
        ),
{
    let mut k: usize = 0;
    assert(before + pins@.take(0) =~= before);
    while k < pins.len()
        invariant
            k <= pins@.len(),
            counts@.len() == n + 1,
            forall|x: usize|
                x <= n ==> #[trigger] counts@[x as int] == count_in(
                    before + pins@.take(k as int),
                    x,
                ),
            forall|i: int| 0 <= i < pins@.len() ==> #[trigger] pins@[i] <= n,
            before.len() <= 2 * usize::MAX,
        decreases pins@.len() - k,
    {
        let x = pins[k];
        let count = counts[x];
        let ghost was = before + pins@.take(k as int);
        proof {
            lemma_count_bound(was, x);
            assert(before + pins@.take(k + 1) =~= was.push(x));
            assert(was.push(x).drop_last() =~= was);
        }
        counts.set(x, count + 1);
        k += 1;
    }
    assert(pins@.take(pins@.len() as int) =~= pins@);
}

/// The number of gates before each pin, and the uses of each pin by gates.
fn levels_and_fanouts(
    aig: &AIG,
    primary_inputs: Option<&IndexSet<usize>>,
    order: &Vec<usize>,
    Ghost(sp): Ghost<Split>,
) -> (r: (Vec<usize>, Vec<u128>))
    requires
        sp.wf(),
        sp.aig == *aig,
        sp.stop == ref_elems(primary_inputs),
        order@ == sp.order(),
    ensures
        r.0@.len() == aig.num_aigpins + 1,
        forall|p: int|
            0 <= p < order@.len() ==> r.0@[#[trigger] order@[p] as int] == sp.depth(order@[p]),
        r.1@.len() == aig.num_aigpins + 1,
        forall|x: usize|
            x <= aig.num_aigpins ==> #[trigger] r.1@[x as int] == count_in(
                sp.gate_uses(order@.len() as int),
                x,
            ),
        sp.gate_uses(order@.len() as int).len() <= 2 * usize::MAX,
{
    let n = aig.num_aigpins;
    let mut level_id: Vec<usize> = vec![0usize; n + 1];
    let mut fanouts: Vec<u128> = vec![0u128; n + 1];
    let mut k: usize = 0;
    proof {
        sp.lemma_order();
    }
    while k < order.len()
        invariant
            k <= order@.len(),
            n == aig.num_aigpins,
            sp.wf(),
            sp.aig == *aig,
            sp.stop == ref_elems(primary_inputs),
            order@ == sp.order(),
            aig.is_topo(sp.stop, order@),
            level_id@.len() == n + 1,
            fanouts@.len() == n + 1,
            forall|p: int|
                0 <= p < k ==> level_id@[#[trigger] order@[p] as int] == sp.depth(order@[p]),
            forall|x: usize|
                x <= n ==> #[trigger] fanouts@[x as int] == count_in(sp.gate_uses(k as int), x),
            sp.gate_uses(k as int).len() <= 2 * k,
        decreases order@.len() - k,
    {
        let u = order[k];
        let sources = aig.collect_sources(primary_inputs, u);
        proof {
            assert forall|i: int| 0 <= i < sources@.len() implies #[trigger] sources@[i] <= n by {
                assert(sources@.contains(sources@[i]));
                sp.lemma_source(k as int, sources@[i]);
            }
        }
        add_uses(&mut fanouts, &sources, Ghost(sp.gate_uses(k as int)), Ghost(n));
        let mut level: usize = 0;
        let mut t: usize = 0;
        while t < sources.len()
            invariant
                t <= sources@.len(),
                k < order@.len(),
                n == aig.num_aigpins,
                sp.wf(),
                sp.aig == *aig,
                order@ == sp.order(),
                sources@ == sp.aig.sources(sp.stop, order@[k as int]),
                level_id@.len() == n + 1,
                forall|p: int|
                    0 <= p < k ==> level_id@[#[trigger] order@[p] as int] == sp.depth(order@[p]),
                level <= k,
                level == sp.above(sources@, t as int),
            decreases sources@.len() - t,
        {
            let x = sources[t];
            proof {
                assert(sources@.contains(x));
                sp.lemma_source(k as int, x);
                let q = choose|q: int| 0 <= q < k && #[trigger] order@[q] == x;
                assert(order@[q] == x);
                assert(level_id@[order@[q] as int] == sp.depth(order@[q]));
                sp.lemma_order();
                sp.aig.lemma_depth_bound(sp.stop, order@, q);
            }
            let above = level_id[x] + 1;
            if level < above {
                level = above;
            }
            t += 1;
        }
        proof {
            sp.lemma_above(u);
        }
        let ghost was = level_id@;
        level_id.set(u, level);
        proof {
            assert forall|p: int| 0 <= p < k + 1 implies level_id@[#[trigger] order@[p] as int]
                == sp.depth(order@[p]) by {
                if p < k {
                    assert(was[order@[p] as int] == sp.depth(order@[p]));
                    assert(order@[p] != order@[k as int]);
                }
            }
        }
        k += 1;
    }
    (level_id, fanouts)
}

/// Counts down uses of pins, and drops pins with their last use.
fn use_up(
    counts: &mut Vec<u128>,
    nodes: &mut IndexSet<usize>,
    pins: &Vec<usize>,
    Ghost(sp): Ghost<Split>,
    Ghost(f): Ghost<Frontier>,
)
    requires
        sp.pending(*old(counts), f),
        elems(*old(nodes)) == f.nodes,
        forall|k: int| 0 <= k < pins@.len() ==> #[trigger] pins@[k] <= sp.aig.num_aigpins,
        forall|x: usize| #[trigger] count_in(f.used + pins@, x) <= count_in(sp.uses(), x),
    ensures
        ({
            let g = sp.use_pins(f, pins@, pins@.len() as int);
            sp.pending(*final(counts), g) && elems(*final(nodes)) == g.nodes
        }),
{
    let mut k: usize = 0;
    while k < pins.len()
        invariant
            k <= pins@.len(),
            sp.pending(*counts, sp.use_pins(f, pins@, k as int)),
            sp.use_pins(f, pins@, k as int).used == f.used + pins@.take(k as int),
            elems(*nodes) == sp.use_pins(f, pins@, k as int).nodes,
            forall|i: int| 0 <= i < pins@.len() ==> #[trigger] pins@[i] <= sp.aig.num_aigpins,
            forall|x: usize| #[trigger] count_in(f.used + pins@, x) <= count_in(sp.uses(), x),
        decreases pins@.len() - k,
    {
        let x = pins[k];
        let count = counts[x];
        let ghost g = sp.use_pins(f, pins@, k as int);
        proof {
            let more = f.used + pins@.take(k + 1);
            assert(more =~= g.used.push(x));
            assert(g.used.push(x).drop_last() =~= g.used);
            lemma_count_concat(more, pins@.skip(k + 1), x);
            assert(more + pins@.skip(k + 1) =~= f.used + pins@);
            assert(count_in(f.used + pins@, x) <= count_in(sp.uses(), x));
        }
        counts.set(x, count - 1);
        if count == 1 {
            set_swap_remove(nodes, x);
        }
        k += 1;
    }
}

/// Collects the pins before the split, and drops those without a use behind the
/// pins that are before it.
fn pass_pins(
    aig: &AIG,
    primary_inputs: Option<&IndexSet<usize>>,
    order: &Vec<usize>,
    level_id: &Vec<usize>,
    split_at_level: usize,
    counts: &mut Vec<u128>,
    nodes: &mut IndexSet<usize>,
    Ghost(sp): Ghost<Split>,
)
    requires
        sp.wf(),
        sp.aig == *aig,
        sp.stop == ref_elems(primary_inputs),
        sp.level == split_at_level,
        order@ == sp.order(),
        level_id@.len() == aig.num_aigpins + 1,
        forall|p: int|
            0 <= p < order@.len() ==> level_id@[#[trigger] order@[p] as int] == sp.depth(order@[p]),
        sp.pending(*old(counts), sp.after_pins(0)),
        elems(*old(nodes)) == Seq::<usize>::empty(),
    ensures
        sp.pending(*final(counts), sp.after_pins(sp.order().len() as int)),
        elems(*final(nodes)) == sp.after_pins(sp.order().len() as int).nodes,
{
    let mut k: usize = 0;
    while k < order.len()
        invariant
            k <= order@.len(),
            sp.wf(),
            sp.aig == *aig,
            sp.stop == ref_elems(primary_inputs),
            sp.level == split_at_level,
            order@ == sp.order(),
            level_id@.len() == aig.num_aigpins + 1,
            forall|p: int|
                0 <= p < order@.len() ==> level_id@[#[trigger] order@[p] as int] == sp.depth(
                    order@[p],
                ),
            sp.pending(*counts, sp.after_pins(k as int)),
            elems(*nodes) == sp.after_pins(k as int).nodes,
        decreases order@.len() - k,
    {
        let u = order[k];
        let ghost f = sp.after_pins(k as int);
        proof {
            sp.lemma_order();
            assert(level_id@[order@[k as int] as int] == sp.depth(order@[k as int]));
        }
        if level_id[u] <= split_at_level {
            set_insert(nodes, u);
            let sources = aig.collect_sources(primary_inputs, u);
            let ghost g = Frontier { nodes: inserted(f.nodes, u), used: f.used };
            proof {
                sp.lemma_pin_uses(k as int);
            }
            use_up(counts, nodes, &sources, Ghost(sp), Ghost(g));
        }
        k += 1;
    }
}

/// Collects the endpoints before the split, and drops pins with their last use.
fn pass_endpoints(
    aig: &AIG,
    endpoints: &Vec<usize>,
    level_id: &Vec<usize>,
    split_at_level: usize,
    counts: &mut Vec<u128>,
    nodes: &mut IndexSet<usize>,
    Ghost(sp): Ghost<Split>,
) -> (early: Vec<usize>)
    requires
        sp.wf(),
        sp.aig == *aig,
        sp.level == split_at_level,
        sp.eps == endpoints@,
        level_id@.len() == aig.num_aigpins + 1,
        forall|p: int|
            0 <= p < sp.order().len() ==> level_id@[#[trigger] sp.order()[p] as int] == sp.depth(
                sp.order()[p],
            ),
        sp.pending(*old(counts), sp.after_ends(0)),
        elems(*old(nodes)) == sp.after_ends(0).nodes,
    ensures
        early@ == sp.early(),
        elems(*final(nodes)) == sp.after_ends(sp.eps.len() as int).nodes,
{
    let ghost pred = |e: usize| sp.end_before(e);
    let mut early: Vec<usize> = Vec::new();
    let mut k: usize = 0;
    proof {
        reveal(Seq::filter);
        assert(endpoints@.take(0) =~= Seq::<usize>::empty());
    }
    while k < endpoints.len()
        invariant
            k <= endpoints@.len(),
            sp.wf(),
            sp.aig == *aig,
            sp.level == split_at_level,
            sp.eps == endpoints@,
            pred == |e: usize| sp.end_before(e),
            level_id@.len() == aig.num_aigpins + 1,
            forall|p: int|
                0 <= p < sp.order().len() ==> level_id@[#[trigger] sp.order()[p] as int]
                    == sp.depth(sp.order()[p]),
            sp.pending(*counts, sp.after_ends(k as int)),
            elems(*nodes) == sp.after_ends(k as int).nodes,
            early@ == endpoints@.take(k as int).filter(pred),
        decreases endpoints@.len() - k,
    {
        let e = endpoints[k];
        assert(sp.eps[k as int] < aig.group_count());
        let inputs = aig.get_endpoint_group(e).inputs();
        let mut level: usize = 0;
        let mut t: usize = 0;
        proof {
            sp.lemma_order();
            sp.lemma_end_uses(sp.eps.len() as int);
            reveal(Seq::filter);
            assert(endpoints@.take(k + 1).drop_last() =~= endpoints@.take(k as int));
            assert(endpoints@.take(k + 1).last() == e);
        }
        while t < inputs.len()
            invariant
                t <= inputs@.len(),
                k < endpoints@.len(),
                sp.wf(),
                sp.aig == *aig,
                sp.eps == endpoints@,
                aig.is_topo(sp.stop, sp.order()),
                inputs@ == aig.group(sp.eps[k as int] as int).input_pins(),
                forall|i: int, x: usize|
                    0 <= i < sp.eps.len() && #[trigger] sp.aig.group(
                        sp.eps[i] as int,
                    ).input_pins().contains(x) ==> sp.ends().contains(x),
                forall|x: usize| #[trigger] sp.ends().contains(x) ==> sp.order().contains(x),
                level_id@.len() == aig.num_aigpins + 1,
                forall|p: int|
                    0 <= p < sp.order().len() ==> level_id@[#[trigger] sp.order()[p] as int]
                        == sp.depth(sp.order()[p]),
                level == sp.deepest(inputs@, t as int),
            decreases inputs@.len() - t,
        {
            let x = inputs[t];
            proof {
                assert(sp.aig.group(sp.eps[k as int] as int).input_pins().contains(x));
                let p = sp.order().index_of(x);
                assert(sp.order()[p] == x);
            }
            if level < level_id[x] {
                level = level_id[x];
            }
            t += 1;
        }
        if level <= split_at_level {
            early.push(e);
            proof {
                sp.lemma_early_end(k as int);
                sp.lemma_after_ends(k as int);
                assert forall|i: int| 0 <= i < inputs@.len() implies #[trigger] inputs@[i]
                    <= aig.num_aigpins by {
                    let p = sp.order().index_of(inputs@[i]);
                    assert(sp.order()[p] == inputs@[i]);
                }
            }
            use_up(counts, nodes, &inputs, Ghost(sp), Ghost(sp.after_ends(k as int)));
        }
        k += 1;
    }
    assert(endpoints@.take(endpoints@.len() as int) =~= endpoints@);
    early
}

/// The elements of a list that are not in a set.
fn without(list: &Vec<usize>, set: Option<&IndexSet<usize>>) -> (r: Vec<usize>)
    ensures
        r@ == list@.filter(|x: usize| !ref_elems(set).contains(x)),
{
    let ghost pred = |x: usize| !ref_elems(set).contains(x);
    let mut r: Vec<usize> = Vec::new();
    let mut k: usize = 0;
    proof {
        reveal(Seq::filter);
        assert(list@.take(0) =~= Seq::<usize>::empty());
    }
    while k < list.len()
        invariant
            k <= list@.len(),
            pred == |x: usize| !ref_elems(set).contains(x),
            r@ == list@.take(k as int).filter(pred),
        decreases list@.len() - k,
    {
        proof {
            reveal(Seq::filter);
            assert(list@.take(k + 1).drop_last() =~= list@.take(k as int));
        }
        if !opt_contains(set, list[k]) {
            r.push(list[k]);
        }
        k += 1;
    }
    assert(list@.take(list@.len() as int) =~= list@);
    r
}

} // verus!
