//! Partition executor
pub mod cutting;
pub mod demand;
pub mod filling;
pub mod greedy;
pub mod hier;
pub mod laws;
pub mod lines;
pub mod merge;
pub mod merge_laws;
pub mod merge_order;
pub mod partition;
pub mod parts_file;
pub mod plan;
pub mod reads;
pub mod realizing;
pub mod rounds;
pub mod search;
pub mod stage;
pub mod ways;

use crate::aig::{lit_pin, EndpointGroup, AIG};
use crate::index_set::{
    count_dups, elems, entries, insert_all, map_add, map_new, set_clone, set_len, set_new,
};
use crate::parallel::par_map;
use crate::pe::hier::rows;
use crate::pe::merge::{
    cone_size, drawn, insert_by_stages, lemma_drawn_part, lemma_most_stages, lemma_workable,
    most_stages, most_stages_from, original, processed, search, sorted_by_stages, workable,
    MIN_TRIALS,
};
use crate::pe::partition::{
    activations, buildable, built, lemma_activations, lemma_buildable, output_dups, overloaded,
    read_pins, realization, settled, sram_count, PartitionModel,
};
use crate::pe::parts_file::{hgr_parts, parse_hgr_parts};
use crate::pe::plan::{lemma_stages_fit, max_writeouts, stages_fit, StageModel};
use crate::pe::search::{part_size, Merger};
use crate::pe::stage::{build_one_boomerang_stage, writeout_limit};
use crate::staging::StagedAIG;
use indexmap::IndexSet;
use vstd::prelude::*;

verus! {

/// One boomerang stage.
#[derive(Debug, Clone)]
pub struct BoomerangStage {
    /// The boomerang hierarchy, 8192 -> 4096 -> ... -> 1.
    ///
    /// Each element is a pin; below it stands the same pin, passed through, or the
    /// two inputs of its and gate.
    pub hier: Vec<Vec<usize>>,
    /// The 32-packed elements of the hierarchy that are written out.
    pub write_outs: Vec<usize>,
}

impl View for BoomerangStage {
    type V = StageModel;

    open spec fn view(&self) -> StageModel {
        StageModel { hier: rows(self.hier@), write_outs: self.write_outs@ }
    }
}

/// One partitioned block: a basic execution unit on GPU.
///
/// A block is mapped to a GPU block with the following resource constraints:
/// 1. the number of unique inputs should not exceed 8191.
/// 2. the number of unique outputs should not exceed 8191. For memory blocks and
///    flip-flops, outputs hold all enable pins and bus pins. There might be unusable
///    holes but the effective capacity is at least 4095.
/// 3. the number of intermediate pins alive at each stage should not exceed 4095.
/// 4. the number of memory output groups should not exceed 64.
#[derive(Debug, Clone)]
pub struct Partition {
    /// The endpoints that are realized by this partition.
    pub endpoints: Vec<usize>,
    /// The boomerang stages.
    ///
    /// Between stages there will automatically be shuffles.
    pub stages: Vec<BoomerangStage>,
}

/// The models of a list of stages.
pub open spec fn stage_models(stages: Seq<BoomerangStage>) -> Seq<StageModel> {
    Seq::new(stages.len(), |i: int| stages[i]@)
}

impl View for Partition {
    type V = PartitionModel;

    open spec fn view(&self) -> PartitionModel {
        PartitionModel { endpoints: self.endpoints@, stages: stage_models(self.stages@) }
    }
}

/// What the endpoints of a partition need.
struct Demand {
    /// The pins that the endpoints read.
    pins: IndexSet<usize>,
    /// The number of memory blocks.
    num_srams: usize,
    /// The number of pins that have to be stored once more.
    num_output_dups: usize,
}

impl Demand {
    /// Collects what the endpoints need.
    fn new(aig: &AIG, staged: &StagedAIG, endpoints: &[usize]) -> (demand: Demand)
        requires
            staged.wf(aig),
            forall|k: int|
                0 <= k < endpoints@.len() ==> (#[trigger] endpoints@[k]) < staged.group_count(),
        ensures
            elems(demand.pins) == read_pins(aig, staged, endpoints@),
            demand.num_srams == sram_count(aig, staged, endpoints@),
            demand.num_output_dups == output_dups(aig, staged, endpoints@),
    {
        let mut pins = set_new();
        let mut num_srams: usize = 0;
        let mut map = map_new();
        let n = endpoints.len();
        let mut k: usize = 0;
        assert(endpoints@.take(0) =~= Seq::<usize>::empty());
        while k < n
            invariant
                k <= n,
                n == endpoints@.len(),
                staged.wf(aig),
                forall|i: int|
                    0 <= i < endpoints@.len() ==> (#[trigger] endpoints@[i])
                        < staged.group_count(),
                elems(pins) == read_pins(aig, staged, endpoints@.take(k as int)),
                num_srams == sram_count(aig, staged, endpoints@.take(k as int)),
                entries(map) == activations(aig, staged, endpoints@.take(k as int)),
            decreases n - k,
        {
            let id = endpoints[k];
            let ghost front = endpoints@.take(k as int);
            let ghost next = endpoints@.take(k + 1);
            proof {
                assert(next.drop_last() =~= front);
                assert(next.last() == id);
                staged.lemma_group_inputs(aig, id as int);
                lemma_activations(aig, staged, next);
            }
            let group = staged.get_endpoint_group(aig, id);
            let inputs = group.inputs();
            insert_all(&mut pins, &inputs);
            match group {
                EndpointGroup::DFF(dff) => {
                    proof {
                        staged.lemma_group_lits(aig, id as int);
                    }
                    map_add(&mut map, lit_pin(dff.d_iv), dff.en_iv * 2 + dff.d_iv % 2);
                },
                EndpointGroup::PrimaryOutput(iv) => {
                    map_add(&mut map, lit_pin(iv), 2 + iv % 2);
                },
                EndpointGroup::RAMBlock(_) => {
                    num_srams += 1;
                },
                EndpointGroup::StagedIOPin(pin) => {
                    map_add(&mut map, pin, 2);
                },
            }
            k += 1;
        }
        assert(endpoints@.take(n as int) =~= endpoints@);
        proof {
            lemma_activations(aig, staged, endpoints@);
        }
        let num_output_dups = count_dups(&map);
        Demand { pins, num_srams, num_output_dups }
    }
}

impl Partition {
    /// Builds one partition for a set of endpoints to realize.
    ///
    /// If a resource is exhausted, nothing is returned. See [Partition] for the
    /// resource constraints.
    pub fn build_one(
        aig: &AIG,
        staged: &StagedAIG,
        endpoints: &[usize],
        num_stages: usize,
    ) -> (partition: Option<Partition>)
        requires
            staged.wf(aig),
            stages_fit(num_stages),
            buildable(aig, staged, endpoints@, num_stages),
            settled(aig, staged, endpoints@, num_stages),
        ensures
            match built(aig, staged, endpoints@, num_stages) {
                Some(m) => partition matches Some(p) && p@ == m,
                None => partition is None,
            },
    {
        let demand = Demand::new(aig, staged, endpoints);
        let Demand { pins: mut unrealized, num_srams, num_output_dups } = demand;
        let limit = writeout_limit(num_stages);
        proof {
            lemma_activations(aig, staged, endpoints@);
            lemma_stages_fit(num_stages);
        }
        let dup_words = num_output_dups / 32 + if num_output_dups % 32 > 0 {
            1usize
        } else {
            0usize
        };
        assert(dup_words == (num_output_dups + 31) / 32);
        if num_srams >= limit || dup_words >= limit - num_srams {
            return None;
        }
        let num_reserved = num_srams + dup_words;
        if num_srams * 4 + num_output_dups > limit {
            return None;
        }
        let mut total_write_outs = num_reserved + num_srams * 4 + num_output_dups;
        let mut realized_inputs = match &staged.primary_inputs {
            Some(inputs) => set_clone(inputs),
            None => set_new(),
        };
        let mut stages: Vec<BoomerangStage> = Vec::new();
        let ghost r = realization(aig, staged, endpoints@, num_stages);
        let ghost mut k: nat = 0;
        proof {
            lemma_buildable(aig, staged, endpoints@, num_stages);
            assert(stage_models(stages@) =~= Seq::<StageModel>::empty());
            if num_stages >= 6 {
                r.law_settles();
            }
        }
        let ghost end = choose|k: nat| r.ended(k);
        while set_len(&unrealized) > 0
            invariant
                r.wf(),
                r.aig == *aig,
                r.stages == num_stages,
                r.reserved == num_reserved,
                num_reserved < max_writeouts(num_stages as nat),
                r.start.total <= 2 * max_writeouts(num_stages as nat),
                r.ended(end),
                k <= end,
                r.after(k) matches Some(p) && p.outs == elems(unrealized) && p.avail == elems(
                    realized_inputs,
                ) && p.total == total_write_outs && p.stages == stage_models(stages@),
                !overloaded(aig, staged, endpoints@, num_stages),
                r == realization(aig, staged, endpoints@, num_stages),
            decreases end - k,
        {
            let ghost p = r.after(k).unwrap();
            let ghost before = stages@;
            proof {
                r.lemma_after(k);
                lemma_stages_fit(num_stages);
            }
            let stage = build_one_boomerang_stage(
                aig,
                &mut unrealized,
                &mut realized_inputs,
                &mut total_write_outs,
                num_reserved,
                num_stages,
            );
            match stage {
                Some(stage) => {
                    stages.push(stage);
                    proof {
                        assert(stage_models(stages@) =~= stage_models(before).push(stage@));
                        assert(r.after(k + 1) == r.step(p));
                        assert(r.step(p) is Some);
                        if k == end {
                            assert(r.exhausted(k));
                        }
                        k = k + 1;
                    }
                },
                None => {
                    proof {
                        assert(r.exhausted(k));
                        r.lemma_result(k);
                    }
                    return None;
                },
            }
        }
        proof {
            assert(r.finished(k));
            r.lemma_result(k);
        }
        Some(Partition { endpoints: slice_to_vec(endpoints), stages })
    }
}

/// Copies a list.
fn slice_to_vec(list: &[usize]) -> (v: Vec<usize>)
    ensures
        v@ == list@,
{
    let mut v: Vec<usize> = Vec::new();
    let n = list.len();
    let mut k: usize = 0;
    while k < n
        invariant
            k <= n,
            n == list@.len(),
            v@ == list@.take(k as int),
        decreases n - k,
    {
        v.push(list[k]);
        assert(list@.take(k + 1) =~= list@.take(k as int).push(list@[k as int]));
        k += 1;
    }
    assert(list@.take(n as int) =~= list@);
    v
}

/// The models of a list of partitions.
pub open spec fn partition_models(ps: Seq<Partition>) -> Seq<PartitionModel> {
    Seq::new(ps.len(), |i: int| ps[i]@)
}

/// Puts a partition behind all that have at least as many stages.
fn insert_partition(list: &mut Vec<Partition>, p: Partition)
    ensures
        partition_models(final(list)@) == insert_by_stages(partition_models(old(list)@), p@),
{
    let ghost s = partition_models(list@);
    let n = list.len();
    let mut pos = n;
    assert(s.take(n as int) =~= s);
    assert(s.skip(n as int) =~= Seq::<PartitionModel>::empty());
    while pos > 0 && list[pos - 1].stages.len() < p.stages.len()
        invariant
            pos <= n,
            n == list@.len(),
            s == partition_models(list@),
            insert_by_stages(s, p@) =~= insert_by_stages(s.take(pos as int), p@) + s.skip(
                pos as int,
            ),
        decreases pos,
    {
        proof {
            let t = s.take(pos as int);
            assert(t.drop_last() =~= s.take(pos - 1));
            assert(t.last() == list@[pos - 1]@);
            assert(insert_by_stages(t, p@) + s.skip(pos as int) =~= insert_by_stages(
                s.take(pos - 1),
                p@,
            ) + s.skip(pos - 1));
        }
        pos -= 1;
    }
    proof {
        let t = s.take(pos as int);
        if pos > 0 {
            assert(t.last() == list@[pos - 1]@);
        }
        assert(insert_by_stages(t, p@) == t.push(p@));
    }
    let ghost before = list@;
    list.insert(pos, p);
    assert(partition_models(list@) =~= s.take(pos as int).push(p@) + s.skip(pos as int));
}

/// Sorts partitions, those with most stages first.
fn sort_partitions(list: Vec<Partition>) -> (r: Vec<Partition>)
    ensures
        partition_models(r@) == sorted_by_stages(partition_models(list@)),
{
    let ghost all = partition_models(list@);
    let mut rest = list;
    let mut stack: Vec<Partition> = Vec::new();
    while rest.len() > 0
        invariant
            all.len() == rest@.len() + stack@.len(),
            partition_models(rest@) == all.take(rest@.len() as int),
            forall|k: int|
                0 <= k < stack@.len() ==> (#[trigger] stack@[k])@ == all[all.len() - 1 - k],
        decreases rest@.len(),
    {
        let ghost before = rest@;
        assert(partition_models(before)[before.len() - 1] == all[before.len() - 1]);
        if let Some(p) = rest.pop() {
            stack.push(p);
        }
        assert(partition_models(rest@) =~= partition_models(before).take(before.len() - 1));
        assert(partition_models(rest@) =~= all.take(before.len() - 1));
    }
    let mut r: Vec<Partition> = Vec::new();
    assert(partition_models(r@) =~= sorted_by_stages(all.take(0)));
    while stack.len() > 0
        invariant
            stack@.len() <= all.len(),
            forall|k: int|
                0 <= k < stack@.len() ==> (#[trigger] stack@[k])@ == all[all.len() - 1 - k],
            partition_models(r@) == sorted_by_stages(all.take(all.len() - stack@.len())),
        decreases stack@.len(),
    {
        let ghost done = all.len() - stack@.len();
        assert(stack@[stack@.len() - 1]@ == all[done]);
        if let Some(p) = stack.pop() {
            insert_partition(&mut r, p);
            assert(all.take(done + 1).drop_last() =~= all.take(done));
        }
    }
    assert(all.take(all.len() as int) =~= all);
    r
}

/// The partitions of the parts, the first one last, and the largest number of their
/// stages; nothing if one of the parts cannot be built.
fn take_originals(
    aig: &AIG,
    staged: &StagedAIG,
    num_stages: usize,
    results: Vec<Option<Partition>>,
    Ghost(pool): Ghost<Seq<Seq<usize>>>,
) -> (r: Option<(Vec<Partition>, usize)>)
    requires
        pool.len() == results@.len(),
        forall|i: int|
            0 <= i < results@.len() ==> is_built(
                aig,
                staged,
                pool[i],
                num_stages,
                #[trigger] results@[i],
            ),
    ensures
        match r {
            Some((originals, most)) => {
                let orig = original(aig, staged, pool, num_stages);
                &&& forall|i: int|
                    0 <= i < pool.len() ==> built(
                        aig,
                        staged,
                        #[trigger] pool[i],
                        num_stages,
                    ) is Some
                &&& originals@.len() == pool.len()
                &&& forall|k: int|
                    0 <= k < originals@.len() ==> (#[trigger] originals@[k])@ == orig[pool.len() - 1
                        - k]
                &&& most == most_stages(orig)
            },
            None => exists|i: int|
                0 <= i < pool.len() && built(aig, staged, #[trigger] pool[i], num_stages) is None,
        },
{
    let ghost orig = original(aig, staged, pool, num_stages);
    let mut results = results;
    let n = results.len();
    let mut originals: Vec<Partition> = Vec::new();
    let mut max_original_nstages: usize = 0;
    while results.len() > 0
        invariant
            n == pool.len(),
            n == results@.len() + originals@.len(),
            orig == original(aig, staged, pool, num_stages),
            forall|i: int|
                0 <= i < results@.len() ==> is_built(
                    aig,
                    staged,
                    pool[i],
                    num_stages,
                    #[trigger] results@[i],
                ),
            forall|i: int|
                results@.len() <= i < n ==> built(
                    aig,
                    staged,
                    #[trigger] pool[i],
                    num_stages,
                ) is Some,
            forall|k: int|
                0 <= k < originals@.len() ==> (#[trigger] originals@[k])@ == orig[n - 1 - k],
            max_original_nstages == most_stages_from(orig, results@.len() as int),
        decreases results@.len(),
    {
        let ghost k = results@.len() - 1;
        assert(is_built(aig, staged, pool[k], num_stages, results@[k]));
        let last = results.pop();
        match last {
            Some(Some(p)) => {
                if max_original_nstages < p.stages.len() {
                    max_original_nstages = p.stages.len();
                }
                originals.push(p);
            },
            _ => {
                assert(built(aig, staged, pool[k], num_stages) is None);
                return None;
            },
        }
    }
    proof {
        lemma_most_stages(orig, 0);
        assert(orig.take(0) =~= Seq::<PartitionModel>::empty());
    }
    Some((originals, max_original_nstages))
}

/// Merges parts, one after the other. Of `originals`, the partition of the first part
/// is the last.
fn refine_parts(
    merger: &Merger,
    parts: Vec<Vec<usize>>,
    originals: Vec<Partition>,
    cnt_nodes: &Vec<usize>,
    Ghost(pool): Ghost<Seq<Seq<usize>>>,
    Ghost(orig): Ghost<Seq<PartitionModel>>,
) -> (effective: Vec<Partition>)
    requires
        merger.runs(pool),
        pool == rows(parts@),
        orig.len() == pool.len(),
        cnt_nodes@.len() == pool.len(),
        originals@.len() == pool.len(),
        forall|k: int|
            0 <= k < originals@.len() ==> (#[trigger] originals@[k])@ == orig[pool.len() - 1 - k],
        forall|j: int|
            0 <= j < parts@.len() ==> cnt_nodes@[j] == merger.search().size((#[trigger] parts@[j])@),
        forall|j: int| 0 <= j < parts@.len() ==> drawn(pool, (#[trigger] parts@[j])@),
    ensures
        partition_models(effective@) == merger.search().refine(pool, orig, 0),
{
    let ghost s = merger.search();
    let mut parts = parts;
    let mut originals = originals;
    let n = parts.len();
    let mut effective: Vec<Partition> = Vec::new();
    let mut i: usize = 0;
    assert(partition_models(effective@) =~= Seq::<PartitionModel>::empty());
    assert(partition_models(effective@) + s.refine(pool, orig, 0) =~= s.refine(pool, orig, 0));
    while i < n
        invariant
            i <= n,
            n == parts@.len(),
            n == cnt_nodes@.len(),
            n == orig.len(),
            merger.runs(pool),
            merger.search() == s,
            originals@.len() == n - i,
            forall|k: int|
                0 <= k < originals@.len() ==> (#[trigger] originals@[k])@ == orig[n - 1 - k],
            forall|j: int|
                i <= j < parts@.len() && (#[trigger] parts@[j])@.len() > 0 ==> cnt_nodes@[j]
                    == s.size(parts@[j]@),
            forall|j: int| 0 <= j < parts@.len() ==> drawn(pool, (#[trigger] parts@[j])@),
            s.refine(pool, orig, 0) == partition_models(effective@) + s.refine(
                rows(parts@),
                orig,
                i as int,
            ),
        decreases n - i,
    {
        let ghost ps = rows(parts@);
        assert(originals@[originals@.len() - 1]@ == orig[i as int]);
        assert(ps[i as int] == parts@[i as int]@);
        let own = originals.pop();
        if parts[i].len() > 0 {
            if let Some(own) = own {
                let ghost before = partition_models(effective@);
                let p = merger.merge_into(&mut parts, cnt_nodes, i, own, Ghost(pool));
                effective.push(p);
                proof {
                    assert(partition_models(effective@) =~= before.push(p@));
                    assert(s.refine(ps, orig, i as int) == seq![p@] + s.refine(
                        rows(parts@),
                        orig,
                        i + 1,
                    ));
                    assert(before + (seq![p@] + s.refine(rows(parts@), orig, i + 1))
                        =~= before.push(p@) + s.refine(rows(parts@), orig, i + 1));
                }
            }
        }
        i += 1;
    }
    assert(partition_models(effective@) =~= s.refine(pool, orig, 0));
    effective
}

/// Given an initial clustering solution of endpoints, generates and maps a refined
/// solution.
///
/// The refined solution has a smaller number of partitions, as partitions are
/// merged aggressively when possible.
pub fn process_partitions(
    aig: &AIG,
    staged: &StagedAIG,
    parts: Vec<Vec<usize>>,
    max_stage_degrad: usize,
    num_stages: usize,
) -> (r: Option<Vec<Partition>>)
    requires
        stages_fit(num_stages),
        parts@.len() > 0,
        workable(aig, staged, rows(parts@), num_stages),
    ensures
        match processed(aig, staged, rows(parts@), max_stage_degrad as nat, num_stages) {
            Some(ms) => r matches Some(ps) && partition_models(ps@) == ms,
            None => r is None,
        },
{
    let ghost pool = rows(parts@);
    let n = parts.len();
    proof {
        assert forall|i: int| 0 <= i < parts@.len() implies drawn(pool, (#[trigger] parts@[i])@) by {
            lemma_drawn_part(pool, i);
            assert(pool[i] == parts@[i]@);
        }
        assert forall|i: int| 0 <= i < parts@.len() implies part_ok(
            aig,
            staged,
            #[trigger] parts@[i],
            num_stages,
        ) by {
            lemma_workable(aig, staged, pool, num_stages, parts@[i]@);
        }
    }
    let size_of = |v: &Vec<usize>| -> (c: usize)
        requires
            part_ok(aig, staged, *v, num_stages),
        ensures
            c == cone_size(aig, staged, v@),
        { part_size(aig, staged, v) };
    let cnt_nodes = par_map(&parts, size_of);
    let build = |v: &Vec<usize>| -> (p: Option<Partition>)
        requires
            part_ok(aig, staged, *v, num_stages),
        ensures
            is_built(aig, staged, v@, num_stages, p),
        { Partition::build_one(aig, staged, v.as_slice(), num_stages) };
    let results = par_map(&parts, build);
    let ghost orig = original(aig, staged, pool, num_stages);
    proof {
        assert forall|i: int| 0 <= i < results@.len() implies is_built(
            aig,
            staged,
            pool[i],
            num_stages,
            #[trigger] results@[i],
        ) by {
            assert(call_ensures(build, (&parts@[i],), results@[i]));
        }
    }
    let (originals, max_original_nstages) = match take_originals(
        aig,
        staged,
        num_stages,
        results,
        Ghost(pool),
    ) {
        Some(r) => r,
        None => {
            return None;
        },
    };
    let eighth = n / 8;
    let merger = Merger {
        aig,
        staged,
        num_stages,
        max_original_nstages,
        max_stage_degrad,
        max_trials: if eighth < MIN_TRIALS {
            MIN_TRIALS
        } else {
            eighth
        },
    };
    let ghost s = search(aig, staged, pool, max_stage_degrad as nat, num_stages);
    proof {
        assert(merger.search() == s);
        assert forall|j: int| 0 <= j < parts@.len() implies cnt_nodes@[j] == s.size(
            (#[trigger] parts@[j])@,
        ) by {
            assert(call_ensures(size_of, (&parts@[j],), cnt_nodes@[j]));
        }
    }
    let effective = refine_parts(&merger, parts, originals, &cnt_nodes, Ghost(pool), Ghost(orig));
    Some(sort_partitions(effective))
}

/// Reads a cluster solution from the contents of a file of a hypergraph partitioner,
/// then processes it as [process_partitions] does. Each line of the file has to be empty
/// or hold a number, which [parse_hgr_parts] tells, and not all of them are empty.
pub fn process_partitions_from_hgr_parts_file(
    aig: &AIG,
    staged: &StagedAIG,
    hgr_parts_file: &[u8],
    max_stage_degrad: usize,
    num_stages: usize,
) -> (r: Option<Vec<Partition>>)
    requires
        stages_fit(num_stages),
        hgr_parts(hgr_parts_file@) matches Some(parts) && parts.len() > 0 && workable(
            aig,
            staged,
            parts,
            num_stages,
        ),
    ensures
        hgr_parts(hgr_parts_file@) matches Some(parts) && match processed(
            aig,
            staged,
            parts,
            max_stage_degrad as nat,
            num_stages,
        ) {
            Some(ms) => r matches Some(v) && partition_models(v@) == ms,
            None => r is None,
        },
{
    match parse_hgr_parts(hgr_parts_file) {
        Ok(parts) => process_partitions(aig, staged, parts, max_stage_degrad, num_stages),
        Err(_) => None,
    }
}

/// Whether a list of endpoints can be mapped.
pub open spec fn part_ok(aig: &AIG, staged: &StagedAIG, v: Vec<usize>, num_stages: usize) -> bool {
    &&& staged.wf(aig)
    &&& stages_fit(num_stages)
    &&& buildable(aig, staged, v@, num_stages)
    &&& settled(aig, staged, v@, num_stages)
}

/// Whether `p` is the partition of a list of endpoints.
pub open spec fn is_built(
    aig: &AIG,
    staged: &StagedAIG,
    eps: Seq<usize>,
    num_stages: usize,
    p: Option<Partition>,
) -> bool {
    match built(aig, staged, eps, num_stages) {
        Some(m) => p matches Some(p) && p@ == m,
        None => p is None,
    }
}

} // verus!
