//! Searching for merges of partitions.
use crate::aig::AIG;
use crate::parallel::par_map;
use crate::pe::Partition;
use crate::pe::hier::rows;
use crate::pe::merge::{
    all_pins, cone_size, drawn, lemma_all_pins, lemma_all_pins_bound, lemma_cone_size, lemma_drawn,
    lemma_nonempty_merged, lemma_trials, lemma_workable, merged, nonempty_from, trials_from,
    workable, Search, FIRST_TRIALS,
};
use crate::pe::partition::{buildable, settled};
use crate::pe::plan::stages_fit;
use crate::sorting::sort_triples;
use crate::staging::StagedAIG;
use std::collections::HashSet;
use vstd::prelude::*;

verus! {

/// The pins that endpoints read, behind those of `pins`.
fn append_pins(pins: &mut Vec<usize>, aig: &AIG, staged: &StagedAIG, endpoints: &Vec<usize>)
    requires
        staged.wf(aig),
        forall|k: int|
            0 <= k < endpoints@.len() ==> (#[trigger] endpoints@[k]) < staged.group_count(),
    ensures
        final(pins)@ == old(pins)@ + all_pins(aig, staged, endpoints@),
{
    let ghost before = pins@;
    let mut k: usize = 0;
    assert(before + all_pins(aig, staged, endpoints@.take(0)) =~= before);
    while k < endpoints.len()
        invariant
            k <= endpoints@.len(),
            staged.wf(aig),
            forall|i: int|
                0 <= i < endpoints@.len() ==> (#[trigger] endpoints@[i]) < staged.group_count(),
            pins@ == before + all_pins(aig, staged, endpoints@.take(k as int)),
        decreases endpoints@.len() - k,
    {
        let id = endpoints[k];
        let mut inputs = staged.get_endpoint_group(aig, id).inputs();
        pins.append(&mut inputs);
        proof {
            let next = endpoints@.take(k + 1);
            assert(next.drop_last() =~= endpoints@.take(k as int));
            assert(pins@ =~= before + all_pins(aig, staged, next));
        }
        k += 1;
    }
    assert(endpoints@.take(endpoints@.len() as int) =~= endpoints@);
}

/// The number of pins that endpoints depend on.
pub fn part_size(aig: &AIG, staged: &StagedAIG, endpoints: &Vec<usize>) -> (n: usize)
    requires
        staged.wf(aig),
        forall|k: int|
            0 <= k < endpoints@.len() ==> (#[trigger] endpoints@[k]) < staged.group_count(),
    ensures
        n == cone_size(aig, staged, endpoints@),
{
    let mut pins: Vec<usize> = Vec::new();
    append_pins(&mut pins, aig, staged, endpoints);
    assert(pins@ =~= all_pins(aig, staged, endpoints@));
    proof {
        lemma_all_pins_bound(aig, staged, endpoints@);
    }
    let order = aig.topo_traverse_generic(&pins, staged.primary_inputs.as_ref());
    order.len()
}

/// The endpoints of two parts.
fn joined(a: &Vec<usize>, b: &Vec<usize>) -> (r: Vec<usize>)
    ensures
        r@ == a@ + b@,
{
    let mut r: Vec<usize> = Vec::new();
    let mut k: usize = 0;
    while k < a.len()
        invariant
            k <= a@.len(),
            r@ == a@.take(k as int),
        decreases a@.len() - k,
    {
        r.push(a[k]);
        assert(a@.take(k + 1) =~= a@.take(k as int).push(a@[k as int]));
        k += 1;
    }
    assert(a@.take(a@.len() as int) =~= a@);
    k = 0;
    assert(a@ + b@.take(0) =~= a@);
    while k < b.len()
        invariant
            k <= b@.len(),
            r@ == a@ + b@.take(k as int),
        decreases b@.len() - k,
    {
        r.push(b[k]);
        assert(a@ + b@.take(k + 1) =~= (a@ + b@.take(k as int)).push(b@[k as int]));
        k += 1;
    }
    assert(b@.take(b@.len() as int) =~= b@);
    r
}

/// A search for merges of parts.
pub struct Merger<'a> {
    pub aig: &'a AIG,
    pub staged: &'a StagedAIG,
    pub num_stages: usize,
    /// The largest number of stages of a partition before merging.
    pub max_original_nstages: usize,
    /// The number of stages that a merged partition can have in addition.
    pub max_stage_degrad: usize,
    /// The number of merges above which no further group is tried.
    pub max_trials: usize,
}

impl<'a> Merger<'a> {
    /// The search that this carries out.
    pub open spec fn search(&self) -> Search {
        Search {
            aig: *self.aig,
            staged: *self.staged,
            num_stages: self.num_stages,
            stage_limit: (self.max_original_nstages + self.max_stage_degrad) as nat,
            max_trials: self.max_trials as nat,
        }
    }

    /// Whether the search can be carried out over endpoints of `pool`.
    pub open spec fn runs(&self, pool: Seq<Seq<usize>>) -> bool {
        &&& self.max_trials < usize::MAX / 4
        &&& stages_fit(self.num_stages)
        &&& workable(self.aig, self.staged, pool, self.num_stages)
    }

    /// Whether all endpoints of a part exist.
    pub open spec fn exist(&self, endpoints: Seq<usize>) -> bool {
        forall|k: int|
            0 <= k < endpoints.len() ==> (#[trigger] endpoints[k]) < self.staged.group_count()
    }

    /// The rank of merging part `j` into part `i`.
    fn merge_choice(
        &self,
        parts: &Vec<Vec<usize>>,
        cnt_nodes: &Vec<usize>,
        pins: &Vec<usize>,
        i: usize,
        cnt_node_i: usize,
        j: usize,
    ) -> (c: (usize, usize, usize))
        requires
            self.staged.wf(self.aig),
            i < j < parts@.len(),
            cnt_nodes@.len() == parts@.len(),
            pins@ == all_pins(self.aig, self.staged, parts@[i as int]@),
            cnt_node_i == self.search().size(parts@[i as int]@),
            cnt_nodes@[j as int] == self.search().size(parts@[j as int]@),
            self.exist(parts@[i as int]@),
            self.exist(parts@[j as int]@),
        ensures
            c == self.search().choice(rows(parts@), i as int, j as int),
    {
        let ghost a = parts@[i as int]@;
        let ghost b = parts@[j as int]@;
        proof {
            assert(rows(parts@)[i as int] == a);
            assert(rows(parts@)[j as int] == b);
            lemma_cone_size(self.aig, self.staged, a, b);
            lemma_all_pins(self.aig, self.staged, a, b);
            lemma_all_pins_bound(self.aig, self.staged, a + b);
        }
        let mut all: Vec<usize> = joined(pins, &Vec::new());
        append_pins(&mut all, self.aig, self.staged, &parts[j]);
        assert(all@ =~= all_pins(self.aig, self.staged, a + b));
        let order = self.aig.topo_traverse_generic(&all, self.staged.primary_inputs.as_ref());
        let most = if cnt_nodes[j] < cnt_node_i {
            cnt_node_i
        } else {
            cnt_nodes[j]
        };
        (order.len() - most, order.len(), j)
    }

    /// The parts that can be merged into part `i`, by rank.
    fn merge_choices(
        &self,
        parts: &Vec<Vec<usize>>,
        cnt_nodes: &Vec<usize>,
        i: usize,
        cnt_node_i: usize,
        blacklist: &HashSet<usize>,
    ) -> (cs: Vec<(usize, usize, usize)>)
        requires
            self.staged.wf(self.aig),
            i < parts@.len(),
            cnt_nodes@.len() == parts@.len(),
            cnt_node_i == self.search().size(parts@[i as int]@),
            forall|j: int|
                i < j < parts@.len() && (#[trigger] parts@[j])@.len() > 0 ==> cnt_nodes@[j]
                    == self.search().size(parts@[j]@),
            forall|j: int| 0 <= j < parts@.len() ==> self.exist((#[trigger] parts@[j])@),
        ensures
            cs@ == self.search().choices(rows(parts@), i as int, blacklist@),
    {
        broadcast use vstd::std_specs::hash::group_hash_axioms;

        let ghost ps = rows(parts@);
        let mut pins: Vec<usize> = Vec::new();
        assert(self.exist(parts@[i as int]@));
        append_pins(&mut pins, self.aig, self.staged, &parts[i]);
        assert(pins@ =~= all_pins(self.aig, self.staged, parts@[i as int]@));
        let mut js: Vec<usize> = Vec::new();
        let n = parts.len();
        let mut k: usize = i + 1;
        while k < parts.len()
            invariant
                i < k <= parts@.len(),
                ps == rows(parts@),
                js@.len() == self.search().choices_upto(ps, i as int, blacklist@, k as int).len(),
                forall|t: int|
                    0 <= t < js@.len() ==> {
                        &&& i < #[trigger] js@[t] < k
                        &&& parts@[js@[t] as int]@.len() > 0
                        &&& self.search().choices_upto(ps, i as int, blacklist@, k as int)[t]
                            == self.search().choice(ps, i as int, js@[t] as int)
                    },
            decreases parts@.len() - k,
        {
            assert(ps[k as int] == parts@[k as int]@);
            if parts[k].len() > 0 && !blacklist.contains(&k) {
                js.push(k);
            }
            k += 1;
        }
        let choose_one = |j: &usize| -> (c: (usize, usize, usize))
            requires
                i < *j < parts@.len(),
                parts@[*j as int]@.len() > 0,
            ensures
                c == self.search().choice(rows(parts@), i as int, *j as int),
            {
                assert(self.exist(parts@[i as int]@) && self.exist(parts@[*j as int]@));
                self.merge_choice(parts, cnt_nodes, &pins, i, cnt_node_i, *j)
            };
        let mut cs = par_map(&js, choose_one);
        assert(cs@ =~= self.search().choices_upto(ps, i as int, blacklist@, ps.len() as int));
        sort_triples(&mut cs);
        cs
    }

    /// The partition of parts `i` and `j`.
    fn merge_trial(&self, parts: &Vec<Vec<usize>>, i: usize, j: usize) -> (p: Option<Partition>)
        requires
            self.staged.wf(self.aig),
            stages_fit(self.num_stages),
            self.can_merge(parts, i, j),
        ensures
            self.is_trial(parts, i, j, p),
    {
        let endpoints = joined(&parts[i], &parts[j]);
        Partition::build_one(self.aig, self.staged, endpoints.as_slice(), self.num_stages)
    }

    /// Whether the endpoints of parts `i` and `j` can be mapped together.
    spec fn can_merge(&self, parts: &Vec<Vec<usize>>, i: usize, j: usize) -> bool {
        let endpoints = parts@[i as int]@ + parts@[j as int]@;
        &&& i < parts@.len()
        &&& j < parts@.len()
        &&& buildable(self.aig, self.staged, endpoints, self.num_stages)
        &&& settled(self.aig, self.staged, endpoints, self.num_stages)
    }

    /// Whether `p` is the partition of parts `i` and `j`.
    spec fn is_trial(
        &self,
        parts: &Vec<Vec<usize>>,
        i: usize,
        j: usize,
        p: Option<Partition>,
    ) -> bool {
        match self.search().build(rows(parts@)[i as int] + rows(parts@)[j as int]) {
            Some(m) => p matches Some(p) && p@ == m,
            None => p is None,
        }
    }

    /// Whether a merged partition has not too many stages.
    fn acceptable(&self, p: &Option<Partition>) -> (r: bool)
        ensures
            r == (p matches Some(p) && p@.stages.len() <= self.search().stage_limit),
    {
        match p {
            Some(p) => {
                let n = p.stages.len();
                n <= self.max_original_nstages || n - self.max_original_nstages
                    <= self.max_stage_degrad
            },
            None => false,
        }
    }

    /// Tries the choices in order. Returns the first that can be merged, and its
    /// partition.
    fn try_merges(
        &self,
        parts: &Vec<Vec<usize>>,
        i: usize,
        cs: &Vec<(usize, usize, usize)>,
        Ghost(pool): Ghost<Seq<Seq<usize>>>,
    ) -> (r: Option<(usize, Partition)>)
        requires
            self.runs(pool),
            i < parts@.len(),
            forall|j: int| 0 <= j < parts@.len() ==> drawn(pool, (#[trigger] parts@[j])@),
            forall|k: int| 0 <= k < cs@.len() ==> (#[trigger] cs@[k]).2 < parts@.len(),
        ensures
            match self.search().first_merge(
                rows(parts@),
                i as int,
                cs@,
                0,
                self.search().tried(cs@),
            ) {
                Some(q) => r matches Some((t, p)) && t == q && self.search().merge(
                    rows(parts@),
                    i as int,
                    cs@[q].2 as int,
                ) == Some(p@),
                None => r is None,
            },
    {
        let ghost s = self.search();
        let ghost ps = rows(parts@);
        let ghost tried = s.tried(cs@);
        let ghost max = self.max_trials as nat;
        let mut at: usize = 0;
        while at < cs.len() && at <= self.max_trials
            invariant
                at <= cs@.len(),
                self.runs(pool),
                i < parts@.len(),
                s == self.search(),
                ps == rows(parts@),
                tried == s.tried(cs@),
                max == self.max_trials,
                forall|j: int| 0 <= j < parts@.len() ==> drawn(pool, (#[trigger] parts@[j])@),
                forall|k: int| 0 <= k < cs@.len() ==> (#[trigger] cs@[k]).2 < parts@.len(),
                s.first_merge(ps, i as int, cs@, 0, tried) == s.first_merge(
                    ps,
                    i as int,
                    cs@,
                    at as int,
                    tried,
                ),
                at < cs@.len() ==> trials_from(0, max) == trials_from(at as nat, max),
                at == cs@.len() || at <= tried,
            decreases cs@.len() - at,
        {
            let end = if cs.len() - at < at + FIRST_TRIALS {
                cs.len()
            } else {
                at + at + FIRST_TRIALS
            };
            proof {
                lemma_trials(2 * at as nat + FIRST_TRIALS as nat, max);
            }
            assert(end <= tried);
            let mut js: Vec<usize> = Vec::new();
            let mut k: usize = at;
            while k < end
                invariant
                    at <= k <= end <= cs@.len(),
                    js@.len() == k - at,
                    forall|t: int| 0 <= t < js@.len() ==> #[trigger] js@[t] == cs@[at + t].2,
                decreases end - k,
            {
                js.push(cs[k].2);
                k += 1;
            }
            let trial = |j: &usize| -> (p: Option<Partition>)
                requires
                    self.can_merge(parts, i, *j),
                ensures
                    self.is_trial(parts, i, *j, p),
                { self.merge_trial(parts, i, *j) };
            proof {
                assert forall|t: int| 0 <= t < js@.len() implies call_requires(
                    trial,
                    (&#[trigger] js@[t],),
                ) by {
                    assert(cs@[at + t].2 < parts@.len());
                    let a = parts@[i as int]@;
                    let b = parts@[js@[t] as int]@;
                    lemma_drawn(pool, a, b);
                    lemma_workable(self.aig, self.staged, pool, self.num_stages, a + b);
                }
            }
            let mut trials = par_map(&js, trial);
            let mut t: usize = 0;
            while t < trials.len()
                invariant
                    t <= trials@.len(),
                    trials@.len() == js@.len(),
                    at + js@.len() == end,
                    end <= tried,
                    tried == s.tried(cs@),
                    s == self.search(),
                    ps == rows(parts@),
                    forall|k: int| 0 <= k < js@.len() ==> #[trigger] js@[k] == cs@[at + k].2,
                    forall|k: int|
                        0 <= k < trials@.len() ==> self.is_trial(
                            parts,
                            i,
                            js@[k],
                            #[trigger] trials@[k],
                        ),
                    s.first_merge(ps, i as int, cs@, 0, tried) == s.first_merge(
                        ps,
                        i as int,
                        cs@,
                        at + t,
                        tried,
                    ),
                decreases trials@.len() - t,
            {
                assert(self.is_trial(parts, i, js@[t as int], trials@[t as int]));
                assert(js@[t as int] == cs@[at + t].2);
                if self.acceptable(&trials[t]) {
                    let found = trials.swap_remove(t);
                    return match found {
                        Some(p) => Some((at + t, p)),
                        None => None,
                    };
                }
                t += 1;
            }
            at = end;
        }
        None
    }

    /// Merges parts into part `i`, whose partition is `partition`, until no choice
    /// can be merged. Returns the partition of part `i` in the end.
    pub(crate) fn merge_into(
        &self,
        parts: &mut Vec<Vec<usize>>,
        cnt_nodes: &Vec<usize>,
        i: usize,
        partition: Partition,
        Ghost(pool): Ghost<Seq<Seq<usize>>>,
    ) -> (r: Partition)
        requires
            self.runs(pool),
            i < old(parts)@.len(),
            cnt_nodes@.len() == old(parts)@.len(),
            forall|j: int|
                i <= j < old(parts)@.len() && (#[trigger] old(parts)@[j])@.len() > 0
                    ==> cnt_nodes@[j] == self.search().size(old(parts)@[j]@),
            old(parts)@[i as int]@.len() > 0,
            forall|j: int| 0 <= j < old(parts)@.len() ==> drawn(pool, (#[trigger] old(parts)@[j])@),
        ensures
            (rows(final(parts)@), r@) == self.search().grow(
                rows(old(parts)@),
                i as int,
                Set::empty(),
                partition@,
            ),
            final(parts)@.len() == old(parts)@.len(),
            forall|j: int|
                i < j < final(parts)@.len() && (#[trigger] final(parts)@[j])@.len() > 0
                    ==> cnt_nodes@[j] == self.search().size(final(parts)@[j]@),
            forall|j: int|
                0 <= j < final(parts)@.len() ==> drawn(pool, (#[trigger] final(parts)@[j])@),
    {
        broadcast use vstd::std_specs::hash::group_hash_axioms;

        let ghost s = self.search();
        let ghost first = rows(parts@);
        let mut current = partition;
        let ghost start = current@;
        let mut blacklist: HashSet<usize> = HashSet::new();
        let mut cnt_node_i = cnt_nodes[i];
        assert(blacklist@ =~= Set::empty());
        let n = parts.len();
        loop
            invariant
                n == parts@.len(),
                self.runs(pool),
                s == self.search(),
                i < parts@.len(),
                cnt_nodes@.len() == parts@.len(),
                forall|j: int|
                    i < j < parts@.len() && (#[trigger] parts@[j])@.len() > 0 ==> cnt_nodes@[j]
                        == s.size(parts@[j]@),
                cnt_node_i == s.size(parts@[i as int]@),
                forall|j: int| 0 <= j < parts@.len() ==> drawn(pool, (#[trigger] parts@[j])@),
                s.grow(first, i as int, Set::empty(), start) == s.grow(
                    rows(parts@),
                    i as int,
                    blacklist@,
                    current@,
                ),
            ensures
                s.grow(first, i as int, Set::empty(), start) == (rows(parts@), current@),
            decreases nonempty_from(rows(parts@), i + 1),
        {
            broadcast use vstd::std_specs::hash::group_hash_axioms;

            let ghost ps = rows(parts@);
            let ghost black = blacklist@;
            proof {
                assert forall|j: int| 0 <= j < parts@.len() implies self.exist(
                    (#[trigger] parts@[j])@,
                ) by {
                    lemma_workable(self.aig, self.staged, pool, self.num_stages, parts@[j]@);
                }
            }
            let cs = self.merge_choices(parts, cnt_nodes, i, cnt_node_i, &blacklist);
            proof {
                s.lemma_choices(ps, i as int, black);
                s.lemma_first_merge(ps, i as int, black, cs@);
            }
            match self.try_merges(parts, i, &cs, Ghost(pool)) {
                Some((q, p)) => {
                    let mut k: usize = 0;
                    while k < q
                        invariant
                            k <= q < cs@.len(),
                            blacklist@ == s.blackened(black, cs@, k as int),
                        decreases q - k,
                    {
                        broadcast use vstd::std_specs::hash::group_hash_axioms;

                        blacklist.insert(cs[k].2);
                        k += 1;
                    }
                    let j = cs[q].2;
                    let endpoints = joined(&parts[i], &parts[j]);
                    let ghost before = parts@;
                    proof {
                        let a = parts@[i as int]@;
                        let b = parts@[j as int]@;
                        assert(ps[i as int] == a && ps[j as int] == b);
                        lemma_drawn(pool, a, b);
                        lemma_workable(self.aig, self.staged, pool, self.num_stages, a + b);
                        lemma_all_pins_bound(self.aig, self.staged, a + b);
                        lemma_nonempty_merged(ps, i as int, j as int, i + 1);
                    }
                    parts.set(i, endpoints);
                    parts.set(j, Vec::new());
                    current = p;
                    cnt_node_i = cs[q].1;
                    assert(rows(parts@) =~= merged(ps, i as int, j as int));
                    assert(forall|t: int|
                        0 <= t < parts@.len() && t != i && t != j ==> (#[trigger] parts@[t])
                            == before[t]);
                },
                None => {
                    break ;
                },
            }
        }
        current
    }
}

} // verus!
