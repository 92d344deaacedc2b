//! Merging partitions.
//!
//! Each partition is merged with those that share most gates with it, as long as
//! the result can be built and has not too many stages.
use crate::aig::{larger, AIG};
use crate::index_set::{lemma_distinct_bound, opt_elems};
use crate::pe::partition::{buildable, built, mappable, settled, PartitionModel};
use crate::sorting::{lemma_sorted_triples, sorted_triples};
use crate::staging::StagedAIG;
use vstd::prelude::*;

verus! {

/// The least number of merges that are tried.
pub const MIN_TRIALS: usize = 20;

/// The number of merges that are tried together at first.
pub const FIRST_TRIALS: usize = 4;

/// The pins that the endpoints `eps` read, with repetitions.
pub open spec fn all_pins(aig: &AIG, staged: &StagedAIG, eps: Seq<usize>) -> Seq<usize>
    decreases eps.len(),
{
    if eps.len() == 0 {
        Seq::empty()
    } else {
        all_pins(aig, staged, eps.drop_last()) + staged.group(
            aig,
            eps.last() as int,
        ).input_pins()
    }
}

/// The number of pins that the endpoints `eps` depend on.
pub open spec fn cone_size(aig: &AIG, staged: &StagedAIG, eps: Seq<usize>) -> nat {
    aig.topo(opt_elems(staged.primary_inputs), all_pins(aig, staged, eps)).len()
}

/// The number of merges that are tried if more than `max` are too many: merges are
/// tried in groups, each as large as all before it and four more.
pub open spec fn trials_from(at: nat, max: nat) -> nat
    decreases
            if at <= max {
                max + 1 - at
            } else {
                0
            },
{
    if at > max {
        at
    } else {
        trials_from(2 * at + FIRST_TRIALS as nat, max)
    }
}

/// The number of elements of a list that are not empty, from `i` on.
pub open spec fn nonempty_from(parts: Seq<Seq<usize>>, i: int) -> nat
    decreases parts.len() - i,
{
    if i >= parts.len() {
        0
    } else {
        nonempty_from(parts, i + 1) + if parts[i].len() > 0 {
            1nat
        } else {
            0nat
        }
    }
}

/// `parts` after merging part `j` into part `i`.
pub open spec fn merged(parts: Seq<Seq<usize>>, i: int, j: int) -> Seq<Seq<usize>> {
    parts.update(i, parts[i] + parts[j]).update(j, Seq::empty())
}

/// `s` with `m` put behind all partitions that have at least as many stages.
pub open spec fn insert_by_stages(s: Seq<PartitionModel>, m: PartitionModel) -> Seq<
    PartitionModel,
>
    decreases s.len(),
{
    if s.len() > 0 && s.last().stages.len() < m.stages.len() {
        insert_by_stages(s.drop_last(), m).push(s.last())
    } else {
        s.push(m)
    }
}

/// The partitions of `s`, those with most stages first; partitions with equally
/// many stages stay in order.
pub open spec fn sorted_by_stages(s: Seq<PartitionModel>) -> Seq<PartitionModel>
    decreases s.len(),
{
    if s.len() == 0 {
        s
    } else {
        insert_by_stages(sorted_by_stages(s.drop_last()), s.last())
    }
}

/// A search for merges.
pub struct Search {
    pub aig: AIG,
    pub staged: StagedAIG,
    pub num_stages: usize,
    /// The number of stages that a merged partition can have.
    pub stage_limit: nat,
    /// The number of merges above which no further group is tried.
    pub max_trials: nat,
}

impl Search {
    /// The pins that the endpoints of a part depend on.
    pub open spec fn size(self, eps: Seq<usize>) -> nat {
        cone_size(&self.aig, &self.staged, eps)
    }

    /// The partition of a list of endpoints.
    pub open spec fn build(self, eps: Seq<usize>) -> Option<PartitionModel> {
        built(&self.aig, &self.staged, eps, self.num_stages)
    }

    /// The rank of merging part `j` into part `i`: the number of pins that the
    /// larger part lacks, the number of pins, and `j`.
    pub open spec fn choice(self, parts: Seq<Seq<usize>>, i: int, j: int) -> (
        usize,
        usize,
        usize,
    ) {
        let size = self.size(parts[i] + parts[j]);
        let most = larger(self.size(parts[j]), self.size(parts[i]));
        ((size - most) as usize, size as usize, j as usize)
    }

    /// The parts before `k` that can be merged into part `i`: those that follow it,
    /// are not empty and not in `black`.
    pub open spec fn choices_upto(
        self,
        parts: Seq<Seq<usize>>,
        i: int,
        black: Set<usize>,
        k: int,
    ) -> Seq<(usize, usize, usize)>
        decreases k - i,
    {
        if k <= i + 1 {
            Seq::empty()
        } else {
            let before = self.choices_upto(parts, i, black, k - 1);
            if parts[k - 1].len() > 0 && !black.contains((k - 1) as usize) {
                before.push(self.choice(parts, i, k - 1))
            } else {
                before
            }
        }
    }

    /// The parts that can be merged into part `i`, by rank.
    pub open spec fn choices(self, parts: Seq<Seq<usize>>, i: int, black: Set<usize>) -> Seq<
        (usize, usize, usize),
    > {
        sorted_triples(self.choices_upto(parts, i, black, parts.len() as int))
    }

    /// The partition of parts `i` and `j`, if it has not too many stages.
    pub open spec fn merge(self, parts: Seq<Seq<usize>>, i: int, j: int) -> Option<PartitionModel> {
        match self.build(parts[i] + parts[j]) {
            Some(m) => if m.stages.len() <= self.stage_limit {
                Some(m)
            } else {
                None
            },
            None => None,
        }
    }

    /// The first of the choices from `k` up to, not including, `end` that can be
    /// merged.
    pub open spec fn first_merge(
        self,
        parts: Seq<Seq<usize>>,
        i: int,
        cs: Seq<(usize, usize, usize)>,
        k: int,
        end: int,
    ) -> Option<int>
        decreases end - k,
    {
        if k >= end {
            None
        } else if self.merge(parts, i, cs[k].2 as int) is Some {
            Some(k)
        } else {
            self.first_merge(parts, i, cs, k + 1, end)
        }
    }

    /// The number of choices that are tried.
    pub open spec fn tried(self, cs: Seq<(usize, usize, usize)>) -> int {
        let trials = trials_from(0, self.max_trials);
        if cs.len() < trials {
            cs.len() as int
        } else {
            trials as int
        }
    }

    /// The parts of the first `k` choices, added to `black`.
    pub open spec fn blackened(
        self,
        black: Set<usize>,
        cs: Seq<(usize, usize, usize)>,
        k: int,
    ) -> Set<usize>
        decreases k,
    {
        if k <= 0 {
            black
        } else {
            self.blackened(black, cs, k - 1).insert(cs[k - 1].2)
        }
    }

    /// Merging into part `i`, whose partition is `m`, until no choice can be merged:
    /// the parts and the partition of part `i` in the end.
    pub open spec fn grow(
        self,
        parts: Seq<Seq<usize>>,
        i: int,
        black: Set<usize>,
        m: PartitionModel,
    ) -> (Seq<Seq<usize>>, PartitionModel)
        decreases nonempty_from(parts, i + 1),
        when 0 <= i < parts.len() <= usize::MAX
    {
        let cs = self.choices(parts, i, black);
        match self.first_merge(parts, i, cs, 0, self.tried(cs)) {
            Some(q) => {
                let j = cs[q].2 as int;
                proof {
                    self.lemma_first_merge(parts, i, black, cs);
                    lemma_nonempty_merged(parts, i, j, i + 1);
                }
                self.grow(
                    merged(parts, i, j),
                    i,
                    self.blackened(black, cs, q),
                    self.merge(parts, i, j).unwrap(),
                )
            },
            None => (parts, m),
        }
    }

    /// The partitions of the parts from `i` on, after merging; `orig` are the
    /// partitions before merging.
    pub open spec fn refine(
        self,
        parts: Seq<Seq<usize>>,
        orig: Seq<PartitionModel>,
        i: int,
    ) -> Seq<PartitionModel>
        decreases orig.len() - i,
    {
        if i >= orig.len() {
            Seq::empty()
        } else if parts[i].len() == 0 {
            self.refine(parts, orig, i + 1)
        } else {
            let (next, m) = self.grow(parts, i, Set::empty(), orig[i]);
            seq![m] + self.refine(next, orig, i + 1)
        }
    }

    /// A choice is a part that follows part `i` and is not empty.
    pub proof fn lemma_choices_upto(
        self,
        parts: Seq<Seq<usize>>,
        i: int,
        black: Set<usize>,
        k: int,
    )
        requires
            0 <= i,
            k <= parts.len() <= usize::MAX,
        ensures
            self.choices_upto(parts, i, black, k).len() <= parts.len(),
            k > i ==> self.choices_upto(parts, i, black, k).len() < k - i,
            forall|c: (usize, usize, usize)| #[trigger]
                self.choices_upto(parts, i, black, k).contains(c) ==> {
                    &&& i < c.2 < k
                    &&& parts[c.2 as int].len() > 0
                    &&& !black.contains(c.2)
                    &&& c == self.choice(parts, i, c.2 as int)
                },
        decreases k,
    {
        if k > i + 1 {
            self.lemma_choices_upto(parts, i, black, k - 1);
            let before = self.choices_upto(parts, i, black, k - 1);
            let after = self.choices_upto(parts, i, black, k);
            assert forall|c: (usize, usize, usize)| #[trigger] after.contains(c) implies {
                &&& i < c.2 < k
                &&& parts[c.2 as int].len() > 0
                &&& !black.contains(c.2)
                &&& c == self.choice(parts, i, c.2 as int)
            } by {
                let p = after.index_of(c);
                if p < before.len() {
                    assert(before.contains(before[p]));
                }
            }
        }
    }

    /// A choice is a part that follows part `i` and is not empty.
    pub proof fn lemma_choices(self, parts: Seq<Seq<usize>>, i: int, black: Set<usize>)
        requires
            0 <= i < parts.len() <= usize::MAX,
        ensures
            self.choices(parts, i, black).len() < parts.len(),
            forall|k: int|
                0 <= k < self.choices(parts, i, black).len() ==> {
                    let c = #[trigger] self.choices(parts, i, black)[k];
                    &&& i < c.2 < parts.len()
                    &&& parts[c.2 as int].len() > 0
                    &&& !black.contains(c.2)
                    &&& c == self.choice(parts, i, c.2 as int)
                },
    {
        let cs = self.choices(parts, i, black);
        let all = self.choices_upto(parts, i, black, parts.len() as int);
        self.lemma_choices_upto(parts, i, black, parts.len() as int);
        lemma_sorted_triples(all);
        assert forall|k: int| 0 <= k < cs.len() implies {
            let c = #[trigger] cs[k];
            &&& i < c.2 < parts.len()
            &&& parts[c.2 as int].len() > 0
            &&& !black.contains(c.2)
            &&& c == self.choice(parts, i, c.2 as int)
        } by {
            assert(cs.contains(cs[k]));
            assert(all.contains(cs[k]));
        }
    }

    /// What the first merge is.
    pub proof fn lemma_first_merge_at(
        self,
        parts: Seq<Seq<usize>>,
        i: int,
        cs: Seq<(usize, usize, usize)>,
        k: int,
        end: int,
    )
        ensures
            match self.first_merge(parts, i, cs, k, end) {
                Some(q) => {
                    &&& k <= q < end
                    &&& self.merge(parts, i, cs[q].2 as int) is Some
                    &&& forall|t: int|
                        k <= t < q ==> self.merge(parts, i, (#[trigger] cs[t]).2 as int) is None
                },
                None => forall|t: int|
                    k <= t < end ==> self.merge(parts, i, (#[trigger] cs[t]).2 as int) is None,
            },
        decreases end - k,
    {
        if k < end && self.merge(parts, i, cs[k].2 as int) is None {
            self.lemma_first_merge_at(parts, i, cs, k + 1, end);
        }
    }

    /// The first merge is one with a part that follows part `i` and is not empty.
    pub proof fn lemma_first_merge(
        self,
        parts: Seq<Seq<usize>>,
        i: int,
        black: Set<usize>,
        cs: Seq<(usize, usize, usize)>,
    )
        requires
            0 <= i < parts.len() <= usize::MAX,
            cs == self.choices(parts, i, black),
        ensures
            self.first_merge(parts, i, cs, 0, self.tried(cs)) matches Some(q) ==> {
                &&& 0 <= q < cs.len()
                &&& i < cs[q].2 < parts.len()
                &&& parts[cs[q].2 as int].len() > 0
                &&& self.merge(parts, i, cs[q].2 as int) is Some
            },
    {
        self.lemma_first_merge_at(parts, i, cs, 0, self.tried(cs));
        self.lemma_choices(parts, i, black);
    }
}

/// Merging leaves one part fewer that is not empty.
pub proof fn lemma_nonempty_merged(parts: Seq<Seq<usize>>, i: int, j: int, k: int)
    requires
        0 <= i < k,
        i < j < parts.len(),
        parts[j].len() > 0,
    ensures
        nonempty_from(merged(parts, i, j), k) + (if k <= j {
            1int
        } else {
            0
        }) == nonempty_from(parts, k),
    decreases parts.len() - k,
{
    if k < parts.len() {
        lemma_nonempty_merged(parts, i, j, k + 1);
    }
}

/// The largest number of stages of a partition.
pub open spec fn most_stages(s: Seq<PartitionModel>) -> nat
    decreases s.len(),
{
    if s.len() == 0 {
        0
    } else {
        larger(most_stages(s.drop_last()), s.last().stages.len())
    }
}

/// The partitions of the parts, one by one.
pub open spec fn original(
    aig: &AIG,
    staged: &StagedAIG,
    parts: Seq<Seq<usize>>,
    num_stages: usize,
) -> Seq<PartitionModel> {
    Seq::new(parts.len(), |i: int| built(aig, staged, parts[i], num_stages).unwrap())
}

/// The search for merges of the parts.
pub open spec fn search(
    aig: &AIG,
    staged: &StagedAIG,
    parts: Seq<Seq<usize>>,
    max_stage_degrad: nat,
    num_stages: usize,
) -> Search {
    Search {
        aig: *aig,
        staged: *staged,
        num_stages,
        stage_limit: most_stages(original(aig, staged, parts, num_stages)) + max_stage_degrad,
        max_trials: larger(parts.len() / 8, MIN_TRIALS as nat),
    }
}

/// The partitions after merging, those with most stages first; nothing if one of
/// the parts cannot be built.
pub open spec fn processed(
    aig: &AIG,
    staged: &StagedAIG,
    parts: Seq<Seq<usize>>,
    max_stage_degrad: nat,
    num_stages: usize,
) -> Option<Seq<PartitionModel>> {
    if exists|i: int|
        0 <= i < parts.len() && built(aig, staged, #[trigger] parts[i], num_stages) is None {
        None
    } else {
        Some(
            sorted_by_stages(
                search(aig, staged, parts, max_stage_degrad, num_stages).refine(
                    parts,
                    original(aig, staged, parts, num_stages),
                    0,
                ),
            ),
        )
    }
}

/// Whether all endpoints of a list are among those of the parts.
pub open spec fn drawn(parts: Seq<Seq<usize>>, eps: Seq<usize>) -> bool {
    forall|k: int| 0 <= k < eps.len() ==> in_parts(parts, #[trigger] eps[k])
}

/// Whether an endpoint is one of those of the parts.
pub open spec fn in_parts(parts: Seq<Seq<usize>>, e: usize) -> bool {
    exists|i: int| 0 <= i < parts.len() && (#[trigger] parts[i]).contains(e)
}

/// Whether every list of endpoints of the parts can be mapped.
pub open spec fn workable(
    aig: &AIG,
    staged: &StagedAIG,
    parts: Seq<Seq<usize>>,
    num_stages: usize,
) -> bool {
    &&& staged.wf(aig)
    &&& forall|i: int, k: int|
        0 <= i < parts.len() && 0 <= k < parts[i].len() ==> (#[trigger] parts[i][k])
            < staged.group_count()
    &&& (forall|i: int, k: int|
        0 <= i < parts.len() && 0 <= k < parts[i].len() ==> mappable(
            aig,
            staged,
            #[trigger] parts[i][k],
        )) || forall|eps: Seq<usize>|
        drawn(parts, eps) ==> #[trigger] buildable(aig, staged, eps, num_stages)
    &&& num_stages >= 6 || forall|eps: Seq<usize>|
        drawn(parts, eps) ==> #[trigger] settled(aig, staged, eps, num_stages)
}

/// A list of endpoints of the parts can be mapped.
pub proof fn lemma_workable(
    aig: &AIG,
    staged: &StagedAIG,
    parts: Seq<Seq<usize>>,
    num_stages: usize,
    eps: Seq<usize>,
)
    requires
        workable(aig, staged, parts, num_stages),
        drawn(parts, eps),
    ensures
        buildable(aig, staged, eps, num_stages),
        forall|k: int| 0 <= k < eps.len() ==> (#[trigger] eps[k]) < staged.group_count(),
        settled(aig, staged, eps, num_stages),
{
    let all = forall|i: int, k: int|
        0 <= i < parts.len() && 0 <= k < parts[i].len() ==> mappable(
            aig,
            staged,
            #[trigger] parts[i][k],
        );
    assert forall|k: int| 0 <= k < eps.len() implies (#[trigger] eps[k]) < staged.group_count()
        && (all ==> mappable(aig, staged, eps[k])) by {
        assert(in_parts(parts, eps[k]));
        let i = choose|i: int| 0 <= i < parts.len() && (#[trigger] parts[i]).contains(eps[k]);
        let m = parts[i].index_of(eps[k]);
        assert(parts[i][m] < staged.group_count());
    }
}

/// The endpoints of two lists together are among those of the parts.
pub proof fn lemma_drawn(parts: Seq<Seq<usize>>, a: Seq<usize>, b: Seq<usize>)
    requires
        drawn(parts, a),
        drawn(parts, b),
    ensures
        drawn(parts, a + b),
{
    assert forall|k: int| 0 <= k < (a + b).len() implies in_parts(
        parts,
        #[trigger] (a + b)[k],
    ) by {
        if k < a.len() {
            assert((a + b)[k] == a[k]);
        } else {
            assert((a + b)[k] == b[k - a.len()]);
        }
    }
}

/// The pins of two lists of endpoints together.
pub proof fn lemma_all_pins(aig: &AIG, staged: &StagedAIG, a: Seq<usize>, b: Seq<usize>)
    ensures
        all_pins(aig, staged, a + b) == all_pins(aig, staged, a) + all_pins(aig, staged, b),
    decreases b.len(),
{
    if b.len() == 0 {
        assert(a + b =~= a);
    } else {
        assert((a + b).drop_last() =~= a + b.drop_last());
        lemma_all_pins(aig, staged, a, b.drop_last());
    }
}

/// The pins that endpoints read are pins of the graph.
pub proof fn lemma_all_pins_bound(aig: &AIG, staged: &StagedAIG, eps: Seq<usize>)
    requires
        staged.wf(aig),
        forall|k: int| 0 <= k < eps.len() ==> (#[trigger] eps[k]) < staged.group_count(),
    ensures
        forall|k: int|
            0 <= k < all_pins(aig, staged, eps).len() ==> #[trigger] all_pins(aig, staged, eps)[k]
                <= aig.num_aigpins,
        cone_size(aig, staged, eps) <= aig.num_aigpins + 1,
    decreases eps.len(),
{
    if eps.len() > 0 {
        lemma_all_pins_bound(aig, staged, eps.drop_last());
        staged.lemma_group_inputs(aig, eps.last() as int);
    }
    let stop = opt_elems(staged.primary_inputs);
    let s = aig.topo(stop, all_pins(aig, staged, eps));
    aig.lemma_topo(stop, all_pins(aig, staged, eps));
    lemma_distinct_bound(s, aig.num_aigpins as int);
}

/// Two parts together depend on at least as many pins as each of them.
pub proof fn lemma_cone_size(aig: &AIG, staged: &StagedAIG, a: Seq<usize>, b: Seq<usize>)
    requires
        staged.wf(aig),
        forall|k: int| 0 <= k < (a + b).len() ==> (#[trigger] (a + b)[k]) < staged.group_count(),
    ensures
        cone_size(aig, staged, a) <= cone_size(aig, staged, a + b),
        cone_size(aig, staged, b) <= cone_size(aig, staged, a + b),
{
    let stop = opt_elems(staged.primary_inputs);
    let pa = all_pins(aig, staged, a);
    let pb = all_pins(aig, staged, b);
    let both = all_pins(aig, staged, a + b);
    lemma_all_pins(aig, staged, a, b);
    lemma_all_pins_bound(aig, staged, a + b);
    assert forall|x: usize| #[trigger] pa.contains(x) implies both.contains(x) by {
        let k = pa.index_of(x);
        assert(both[k] == x);
    }
    assert forall|x: usize| #[trigger] pb.contains(x) implies both.contains(x) by {
        let k = pb.index_of(x);
        assert(both[pa.len() + k] == x);
    }
    aig.lemma_topo_mono(stop, both, stop, pa);
    aig.lemma_topo_mono(stop, both, stop, pb);
}

/// Not fewer merges are tried than have been tried.
pub proof fn lemma_trials(at: nat, max: nat)
    ensures
        trials_from(at, max) >= at,
    decreases
            if at <= max {
                max + 1 - at
            } else {
                0
            },
{
    if at <= max {
        lemma_trials(2 * at + FIRST_TRIALS as nat, max);
    }
}

/// The endpoints of a part are among those of the parts.
pub proof fn lemma_drawn_part(parts: Seq<Seq<usize>>, i: int)
    requires
        0 <= i < parts.len(),
    ensures
        drawn(parts, parts[i]),
{
    assert forall|k: int| 0 <= k < parts[i].len() implies in_parts(
        parts,
        #[trigger] parts[i][k],
    ) by {
        assert(parts[i].contains(parts[i][k]));
    }
}

/// The largest number of stages of a partition from `k` on.
pub open spec fn most_stages_from(s: Seq<PartitionModel>, k: int) -> nat
    decreases s.len() - k,
{
    if k >= s.len() {
        0
    } else {
        larger(most_stages_from(s, k + 1), s[k].stages.len())
    }
}

/// The largest number of stages, counted from both ends.
pub proof fn lemma_most_stages(s: Seq<PartitionModel>, k: int)
    requires
        0 <= k <= s.len(),
    ensures
        most_stages(s) == larger(most_stages(s.take(k)), most_stages_from(s, k)),
    decreases s.len() - k,
{
    if k < s.len() {
        lemma_most_stages(s, k + 1);
        assert(s.take(k + 1).drop_last() =~= s.take(k));
    } else {
        assert(s.take(k) =~= s);
    }
}

} // verus!
