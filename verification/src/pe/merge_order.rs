//! Which parts are merged, and in which order partitions come out.
use crate::aig::{larger, AIG};
use crate::pe::merge::{
    insert_by_stages, lemma_nonempty_merged, lemma_trials, merged, most_stages, nonempty_from,
    original, processed, search, sorted_by_stages, trials_from, Search, FIRST_TRIALS,
};
use crate::pe::merge_laws::lemma_most_stages_at;
use crate::pe::partition::{built, PartitionModel};
use crate::sorting::lemma_sorted_triples;
use crate::staging::StagedAIG;
use vstd::prelude::*;

verus! {

/// The parts with the indices `ids`, one after the other.
pub open spec fn concat(parts: Seq<Seq<usize>>, ids: Seq<int>) -> Seq<usize>
    decreases ids.len(),
{
    if ids.len() == 0 {
        Seq::empty()
    } else {
        concat(parts, ids.drop_last()) + parts[ids.last()]
    }
}

/// Whether `groups` are lists of indices from `i` on of parts that are not empty, each
/// with its least index first, the lists by their first index; and every such index
/// stands in exactly one list, once.
#[verifier::opaque]
pub open spec fn grouping(parts: Seq<Seq<usize>>, i: int, groups: Seq<Seq<int>>) -> bool {
    &&& forall|k: int| 0 <= k < groups.len() ==> (#[trigger] groups[k]).len() > 0
    &&& forall|k: int, t: int|
        0 <= k < groups.len() && 0 <= t < groups[k].len() ==> {
            &&& i <= #[trigger] groups[k][t] < parts.len()
            &&& parts[groups[k][t]].len() > 0
            &&& groups[k][0] <= groups[k][t]
        }
    &&& forall|a: int, b: int|
        0 <= a < b < groups.len() ==> (#[trigger] groups[a])[0] < (#[trigger] groups[b])[0]
    &&& forall|j: int|
        i <= j < parts.len() && (#[trigger] parts[j]).len() > 0 ==> in_groups(groups, j)
    &&& forall|k: int, t: int, l: int, u: int|
        0 <= k < groups.len() && 0 <= t < groups[k].len() && 0 <= l < groups.len() && 0 <= u
            < groups[l].len() && #[trigger] groups[k][t] == #[trigger] groups[l][u] ==> k == l && t
            == u
}

/// Whether an index stands in one of the lists.
pub open spec fn in_groups(groups: Seq<Seq<int>>, j: int) -> bool {
    exists|k: int, t: int|
        0 <= k < groups.len() && 0 <= t < groups[k].len() && #[trigger] groups[k][t] == j
}

/// Whether the endpoints of each partition are those of the parts of one list, in order.
pub open spec fn grouped_parts(
    parts: Seq<Seq<usize>>,
    groups: Seq<Seq<int>>,
    s: Seq<PartitionModel>,
) -> bool {
    &&& groups.len() == s.len()
    &&& forall|k: int|
        0 <= k < s.len() ==> (#[trigger] s[k]).endpoints == concat(parts, groups[k])
}

impl Search {
    /// Merging into a part puts the endpoints of other parts behind its own.
    proof fn lemma_grow_ids(
        self,
        given: Seq<Seq<usize>>,
        parts: Seq<Seq<usize>>,
        i: int,
        black: Set<usize>,
        m: PartitionModel,
        ids: Seq<int>,
    ) -> (more: Seq<int>)
        requires
            0 <= i < parts.len() <= usize::MAX,
            given.len() == parts.len(),
            parts[i] == concat(given, ids),
            forall|j: int|
                i < j < parts.len() ==> (#[trigger] parts[j] == given[j] || parts[j].len() == 0),
        ensures
            ({
                let next = self.grow(parts, i, black, m).0;
                &&& next.len() == parts.len()
                &&& next[i] == concat(given, ids + more)
                &&& more.no_duplicates()
                &&& forall|t: int|
                    0 <= t < more.len() ==> i < #[trigger] more[t] < parts.len()
                        && parts[more[t]].len() > 0
                &&& forall|j: int|
                    i < j < parts.len() ==> #[trigger] next[j] == if more.contains(j) {
                        Seq::<usize>::empty()
                    } else {
                        parts[j]
                    }
            }),
        decreases nonempty_from(parts, i + 1),
    {
        let cs = self.choices(parts, i, black);
        match self.first_merge(parts, i, cs, 0, self.tried(cs)) {
            Some(q) => {
                let j = cs[q].2 as int;
                self.lemma_first_merge(parts, i, black, cs);
                lemma_nonempty_merged(parts, i, j, i + 1);
                let after = merged(parts, i, j);
                assert(ids.push(j).drop_last() =~= ids);
                assert(after[i] == concat(given, ids.push(j)));
                assert forall|t: int| i < t < after.len() implies (#[trigger] after[t] == given[t]
                    || after[t].len() == 0) by {
                    assert(parts[t] == given[t] || parts[t].len() == 0);
                }
                let tail = self.lemma_grow_ids(
                    given,
                    after,
                    i,
                    self.blackened(black, cs, q),
                    self.merge(parts, i, j).unwrap(),
                    ids.push(j),
                );
                let more = seq![j] + tail;
                let next = self.grow(parts, i, black, m).0;
                assert(ids.push(j) + tail =~= ids + more);
                assert forall|t: int| 0 <= t < more.len() implies i < #[trigger] more[t]
                    < parts.len() && parts[more[t]].len() > 0 by {
                    if t > 0 {
                        assert(more[t] == tail[t - 1]);
                        assert(after[tail[t - 1]].len() > 0);
                    }
                }
                assert(!tail.contains(j)) by {
                    if tail.contains(j) {
                        let t = tail.index_of(j);
                        assert(after[tail[t]].len() > 0);
                    }
                }
                assert forall|t: int| i < t < parts.len() implies #[trigger] next[t]
                    == if more.contains(t) {
                    Seq::<usize>::empty()
                } else {
                    parts[t]
                } by {
                    assert(next[t] == if tail.contains(t) {
                        Seq::<usize>::empty()
                    } else {
                        after[t]
                    });
                    if tail.contains(t) {
                        let u = tail.index_of(t);
                        assert(more[u + 1] == t);
                    } else if t == j {
                        assert(more[0] == t);
                    } else if more.contains(t) {
                        let u = more.index_of(t);
                        assert(tail[u - 1] == t);
                    }
                }
                assert forall|a: int, b: int| 0 <= a < b < more.len() implies more[a] != more[b] by {
                    assert(more[b] == tail[b - 1]);
                    if a == 0 {
                        assert(tail.contains(tail[b - 1]));
                    } else {
                        assert(more[a] == tail[a - 1]);
                    }
                }
                more
            },
            None => {
                assert(ids + Seq::<int>::empty() =~= ids);
                Seq::empty()
            },
        }
    }

    /// Refining yields partitions whose endpoints are those of given parts, one after the
    /// other: every part that is not empty goes into exactly one partition, a part leads
    /// the parts that are merged into it, which follow it in the list of parts, and the
    /// partitions come in the order of their first parts.
    pub proof fn law_refine_groups(
        self,
        given: Seq<Seq<usize>>,
        parts: Seq<Seq<usize>>,
        orig: Seq<PartitionModel>,
        i: int,
    ) -> (groups: Seq<Seq<int>>)
        requires
            0 <= i,
            parts.len() == orig.len(),
            given.len() == parts.len(),
            parts.len() <= usize::MAX,
            forall|j: int|
                i <= j < parts.len() ==> (#[trigger] parts[j] == given[j] || parts[j].len() == 0),
            forall|j: int|
                i <= j < parts.len() && (#[trigger] parts[j]).len() > 0 ==> self.build(parts[j])
                    == Some(orig[j]) && orig[j].stages.len() <= self.stage_limit,
            forall|eps: Seq<usize>| #[trigger]
                self.build(eps) matches Some(m) ==> m.endpoints == eps,
        ensures
            grouping(parts, i, groups),
            grouped_parts(given, groups, self.refine(parts, orig, i)),
        decreases orig.len() - i,
    {
        if i >= orig.len() {
            reveal(grouping);
            Seq::empty()
        } else if parts[i].len() == 0 {
            let groups = self.law_refine_groups(given, parts, orig, i + 1);
            lemma_groups_skip(parts, i, groups);
            groups
        } else {
            assert(self.build(parts[i]) == Some(orig[i]));
            assert(seq![i].drop_last() =~= Seq::<int>::empty());
            reveal_with_fuel(concat, 2);
            assert(concat(given, seq![i]) =~= given[i]);
            let more = self.lemma_grow_ids(given, parts, i, Set::empty(), orig[i], seq![i]);
            self.law_grow(parts, i, Set::empty(), orig[i]);
            let (next, m) = self.grow(parts, i, Set::empty(), orig[i]);
            assert forall|j: int| i + 1 <= j < next.len() implies (#[trigger] next[j] == given[j]
                || next[j].len() == 0) by {
                assert(parts[j] == given[j] || parts[j].len() == 0);
            }
            assert forall|j: int| i + 1 <= j < next.len() && (#[trigger] next[j]).len()
                > 0 implies self.build(next[j]) == Some(orig[j]) && orig[j].stages.len()
                <= self.stage_limit by {
                assert(next[j] == parts[j]);
                assert(parts[j].len() > 0);
            }
            let rest = self.law_refine_groups(given, next, orig, i + 1);
            let tail = self.refine(next, orig, i + 1);
            let first = seq![i] + more;
            let groups = seq![first] + rest;
            let r = self.refine(parts, orig, i);
            assert(r == seq![m] + tail);
            assert(self.build(next[i]) == Some(m));
            assert forall|k: int| 0 <= k < r.len() implies (#[trigger] r[k]).endpoints == concat(
                given,
                groups[k],
            ) by {
                if k > 0 {
                    assert(r[k] == tail[k - 1]);
                    assert(groups[k] == rest[k - 1]);
                }
            }
            lemma_groups_joined(parts, next, i, more, rest);
            groups
        }
    }
}

/// An empty part stands in no list.
proof fn lemma_groups_skip(parts: Seq<Seq<usize>>, i: int, groups: Seq<Seq<int>>)
    requires
        0 <= i < parts.len(),
        parts[i].len() == 0,
        grouping(parts, i + 1, groups),
    ensures
        grouping(parts, i, groups),
{
    reveal(grouping);
}

/// A list of indices in front of a grouping of the other ones.
proof fn lemma_groups_joined(
    parts: Seq<Seq<usize>>,
    next: Seq<Seq<usize>>,
    i: int,
    more: Seq<int>,
    rest: Seq<Seq<int>>,
)
    requires
        0 <= i < parts.len(),
        parts[i].len() > 0,
        next.len() == parts.len(),
        more.no_duplicates(),
        forall|t: int|
            0 <= t < more.len() ==> i < #[trigger] more[t] < parts.len() && parts[more[t]].len() > 0,
        forall|j: int|
            i < j < parts.len() ==> #[trigger] next[j] == if more.contains(j) {
                Seq::<usize>::empty()
            } else {
                parts[j]
            },
        grouping(next, i + 1, rest),
    ensures
        grouping(parts, i, seq![seq![i] + more] + rest),
{
    reveal(grouping);
    let first = seq![i] + more;
    let groups = seq![first] + rest;
    assert forall|k: int, t: int| 0 <= k < groups.len() && 0 <= t < groups[k].len() implies {
        &&& i <= #[trigger] groups[k][t] < parts.len()
        &&& parts[groups[k][t]].len() > 0
        &&& groups[k][0] <= groups[k][t]
        &&& k > 0 ==> groups[k][t] > i && !more.contains(groups[k][t])
    } by {
        if k == 0 {
            if t > 0 {
                assert(first[t] == more[t - 1]);
            }
        } else {
            assert(groups[k] == rest[k - 1]);
            assert(i + 1 <= rest[k - 1][t] < next.len());
            assert(next[rest[k - 1][t]].len() > 0);
        }
    }
    assert forall|k: int| 0 <= k < groups.len() implies (#[trigger] groups[k]).len() > 0 by {
        if k > 0 {
            assert(groups[k] == rest[k - 1]);
        }
    }
    assert forall|a: int, b: int| 0 <= a < b < groups.len() implies (#[trigger] groups[a])[0] < (
    #[trigger] groups[b])[0] by {
        assert(groups[b] == rest[b - 1]);
        assert(groups[b].len() > 0);
        assert(groups[b][0] > i);
        if a > 0 {
            assert(groups[a] == rest[a - 1]);
        }
    }
    assert forall|j: int| i <= j < parts.len() && (#[trigger] parts[j]).len() > 0 implies in_groups(
        groups,
        j,
    ) by {
        if j == i {
            assert(groups[0][0] == j);
        } else if more.contains(j) {
            let t = more.index_of(j);
            assert(groups[0][t + 1] == j);
        } else {
            assert(next[j] == parts[j]);
            assert(in_groups(rest, j));
            let (k, t) = choose|k: int, t: int|
                0 <= k < rest.len() && 0 <= t < rest[k].len() && #[trigger] rest[k][t] == j;
            assert(groups[k + 1] == rest[k]);
            assert(groups[k + 1][t] == j);
        }
    }
    assert forall|k: int, t: int, l: int, u: int|
        0 <= k < groups.len() && 0 <= t < groups[k].len() && 0 <= l < groups.len() && 0 <= u
            < groups[l].len() && #[trigger] groups[k][t] == #[trigger] groups[l][u] implies k == l
        && t == u by {
        if k == 0 && l == 0 {
            if t > 0 {
                assert(first[t] == more[t - 1]);
            }
            if u > 0 {
                assert(first[u] == more[u - 1]);
            }
        } else if k == 0 {
            if t > 0 {
                assert(first[t] == more[t - 1]);
                assert(more.contains(more[t - 1]));
            }
        } else if l == 0 {
            if u > 0 {
                assert(first[u] == more[u - 1]);
                assert(more.contains(more[u - 1]));
            }
        } else {
            assert(groups[k] == rest[k - 1] && groups[l] == rest[l - 1]);
            assert(rest[k - 1][t] == rest[l - 1][u]);
        }
    }
}

/// The partitions of a list with `n` stages.
pub open spec fn with_stages(s: Seq<PartitionModel>, n: nat) -> Seq<PartitionModel> {
    s.filter(|m: PartitionModel| m.stages.len() == n)
}

proof fn lemma_with_stages_push(s: Seq<PartitionModel>, m: PartitionModel, n: nat)
    ensures
        with_stages(s.push(m), n) == if m.stages.len() == n {
            with_stages(s, n).push(m)
        } else {
            with_stages(s, n)
        },
{
    reveal(Seq::filter);
    assert(s.push(m).drop_last() =~= s);
}

proof fn lemma_insert_stable(s: Seq<PartitionModel>, m: PartitionModel, n: nat)
    ensures
        with_stages(insert_by_stages(s, m), n) == with_stages(s.push(m), n),
    decreases s.len(),
{
    if s.len() > 0 && s.last().stages.len() < m.stages.len() {
        let front = s.drop_last();
        lemma_insert_stable(front, m, n);
        lemma_with_stages_push(insert_by_stages(front, m), s.last(), n);
        lemma_with_stages_push(front, m, n);
        lemma_with_stages_push(front, s.last(), n);
        lemma_with_stages_push(s, m, n);
        assert(front.push(s.last()) =~= s);
    }
}

/// Sorting keeps partitions with equally many stages in order.
pub proof fn law_sorting_stable(s: Seq<PartitionModel>, n: nat)
    ensures
        with_stages(sorted_by_stages(s), n) == with_stages(s, n),
    decreases s.len(),
{
    if s.len() > 0 {
        let front = s.drop_last();
        law_sorting_stable(front, n);
        lemma_insert_stable(sorted_by_stages(front), s.last(), n);
        lemma_with_stages_push(sorted_by_stages(front), s.last(), n);
        lemma_with_stages_push(front, s.last(), n);
        assert(front.push(s.last()) =~= s);
    }
}

/// Processing yields the partitions of a grouping of the parts that are not empty, each
/// a concatenation of given parts, in order: partitions with equally many stages come in
/// the order of their first parts.
pub proof fn law_processed_groups(
    aig: &AIG,
    staged: &StagedAIG,
    parts: Seq<Seq<usize>>,
    max_stage_degrad: nat,
    num_stages: usize,
) -> (r: (Seq<Seq<int>>, Seq<PartitionModel>))
    requires
        parts.len() <= usize::MAX,
        processed(aig, staged, parts, max_stage_degrad, num_stages) is Some,
    ensures
        grouping(parts, 0, r.0),
        grouped_parts(parts, r.0, r.1),
        processed(aig, staged, parts, max_stage_degrad, num_stages) == Some(sorted_by_stages(r.1)),
        forall|n: nat| #[trigger] with_stages(sorted_by_stages(r.1), n) == with_stages(r.1, n),
{
    let s = search(aig, staged, parts, max_stage_degrad, num_stages);
    let orig = original(aig, staged, parts, num_stages);
    assert forall|j: int| 0 <= j < parts.len() && (#[trigger] parts[j]).len() > 0 implies s.build(
        parts[j],
    ) == Some(orig[j]) && orig[j].stages.len() <= s.stage_limit by {
        lemma_most_stages_at(orig, j);
    }
    let groups = s.law_refine_groups(parts, parts, orig, 0);
    let ms = s.refine(parts, orig, 0);
    assert forall|n: nat| #[trigger] with_stages(sorted_by_stages(ms), n) == with_stages(
        ms,
        n,
    ) by {
        law_sorting_stable(ms, n);
    }
    (groups, ms)
}

impl Search {
    /// Of two parts, the second can be merged into the first.
    proof fn lemma_one_choice(self, parts: Seq<Seq<usize>>)
        requires
            parts.len() == 2,
            parts[1].len() > 0,
        ensures
            ({
                let cs = self.choices(parts, 0, Set::empty());
                &&& cs.len() == 1
                &&& cs[0].2 == 1
                &&& self.tried(cs) == 1
                &&& self.first_merge(parts, 0, cs, 0, self.tried(cs)) == if self.merge(
                    parts,
                    0,
                    1,
                ) is Some {
                    Some(0int)
                } else {
                    None
                }
            }),
    {
        let none = Set::<usize>::empty();
        let c = self.choice(parts, 0, 1);
        let cs = self.choices(parts, 0, none);
        assert(self.choices_upto(parts, 0, none, 1) == Seq::<(usize, usize, usize)>::empty());
        assert(self.choices_upto(parts, 0, none, 2) =~= seq![c]);
        lemma_sorted_triples(seq![c]);
        self.lemma_choices(parts, 0, none);
        lemma_trials(FIRST_TRIALS as nat, self.max_trials);
        assert(trials_from(0, self.max_trials) == trials_from(
            FIRST_TRIALS as nat,
            self.max_trials,
        ));
        assert(self.first_merge(parts, 0, cs, 1, 1) is None);
    }

    /// Nothing is merged into the last part that is not empty.
    proof fn lemma_no_choice(
        self,
        parts: Seq<Seq<usize>>,
        i: int,
        black: Set<usize>,
        m: PartitionModel,
    )
        requires
            parts.len() == 2,
            i == 1 || (i == 0 && parts[1].len() == 0),
        ensures
            self.grow(parts, i, black, m) == (parts, m),
    {
        let cs = self.choices(parts, i, black);
        assert(self.choices_upto(parts, i, black, 1) == Seq::<(usize, usize, usize)>::empty());
        assert(self.choices_upto(parts, i, black, 2) == Seq::<(usize, usize, usize)>::empty());
        lemma_sorted_triples(Seq::empty());
        assert(cs.len() == 0);
        assert(self.first_merge(parts, i, cs, 0, self.tried(cs)) is None);
    }

    proof fn lemma_refine_two(
        self,
        parts: Seq<Seq<usize>>,
        pa: PartitionModel,
        pb: PartitionModel,
    )
        requires
            parts.len() == 2,
            parts[0].len() > 0,
            parts[1].len() > 0,
        ensures
            self.refine(parts, seq![pa, pb], 0) == match self.merge(parts, 0, 1) {
                Some(m) => seq![m],
                None => seq![pa, pb],
            },
    {
        let orig = seq![pa, pb];
        let none = Set::<usize>::empty();
        let cs = self.choices(parts, 0, none);
        self.lemma_one_choice(parts);
        assert(self.refine(parts, orig, 2) == Seq::<PartitionModel>::empty());
        match self.merge(parts, 0, 1) {
            Some(m) => {
                let after = merged(parts, 0, 1);
                let black = self.blackened(none, cs, 0);
                self.lemma_no_choice(after, 0, black, m);
                assert(self.grow(parts, 0, none, pa) == (after, m));
                assert(self.refine(after, orig, 2) == Seq::<PartitionModel>::empty());
                assert(self.refine(after, orig, 1) == Seq::<PartitionModel>::empty());
                assert(seq![m] + Seq::<PartitionModel>::empty() =~= seq![m]);
            },
            None => {
                assert(self.grow(parts, 0, none, pa) == (parts, pa));
                self.lemma_no_choice(parts, 1, none, pb);
                assert(self.refine(parts, orig, 1) =~= seq![pb]);
                assert(seq![pa] + seq![pb] =~= seq![pa, pb]);
            },
        }
    }
}

proof fn lemma_sorted_two(pa: PartitionModel, pb: PartitionModel)
    ensures
        sorted_by_stages(seq![pa]) == seq![pa],
        sorted_by_stages(seq![pa, pb]) == if pa.stages.len() >= pb.stages.len() {
            seq![pa, pb]
        } else {
            seq![pb, pa]
        },
{
    let empty = Seq::<PartitionModel>::empty();
    assert(sorted_by_stages(empty) == empty);
    assert(seq![pa].drop_last() =~= empty);
    assert(insert_by_stages(empty, pa) =~= seq![pa]);
    assert(insert_by_stages(empty, pb) =~= seq![pb]);
    assert(sorted_by_stages(seq![pa]) == seq![pa]);
    assert(seq![pa, pb].drop_last() =~= seq![pa]);
    assert(seq![pa, pb].last() == pb);
    assert(sorted_by_stages(seq![pa, pb]) == insert_by_stages(seq![pa], pb));
    assert(seq![pa].drop_last() =~= empty);
    if pa.stages.len() < pb.stages.len() {
        assert(insert_by_stages(seq![pa], pb) =~= seq![pb].push(pa));
        assert(seq![pb].push(pa) =~= seq![pb, pa]);
    } else {
        assert(insert_by_stages(seq![pa], pb) =~= seq![pa, pb]);
    }
}

/// The partition `both` of two parts together if there is one and it has at most `limit`
/// stages; otherwise their own partitions, the one with more stages first.
pub open spec fn joined(
    pa: PartitionModel,
    pb: PartitionModel,
    both: Option<PartitionModel>,
    limit: nat,
) -> Seq<PartitionModel> {
    if both is Some && both.unwrap().stages.len() <= limit {
        seq![both.unwrap()]
    } else if pa.stages.len() >= pb.stages.len() {
        seq![pa, pb]
    } else {
        seq![pb, pa]
    }
}

proof fn lemma_joined(
    s: Search,
    parts: Seq<Seq<usize>>,
    pa: PartitionModel,
    pb: PartitionModel,
)
    requires
        parts.len() == 2,
        parts[0].len() > 0,
        parts[1].len() > 0,
    ensures
        sorted_by_stages(s.refine(parts, seq![pa, pb], 0)) == joined(
            pa,
            pb,
            s.build(parts[0] + parts[1]),
            s.stage_limit,
        ),
{
    s.lemma_refine_two(parts, pa, pb);
    match s.merge(parts, 0, 1) {
        Some(m) => {
            lemma_sorted_two(m, m);
        },
        None => {
            lemma_sorted_two(pa, pb);
        },
    }
}

/// What processing two parts gives: the partition of both together if it can be built and
/// has at most `max_stage_degrad` stages more than the worse of the two, and otherwise
/// both partitions, the one with more stages first.
pub proof fn law_two_parts(
    aig: &AIG,
    staged: &StagedAIG,
    parts: Seq<Seq<usize>>,
    pa: PartitionModel,
    pb: PartitionModel,
    max_stage_degrad: nat,
    num_stages: usize,
)
    requires
        parts.len() == 2,
        parts[0].len() > 0,
        parts[1].len() > 0,
        built(aig, staged, parts[0], num_stages) == Some(pa),
        built(aig, staged, parts[1], num_stages) == Some(pb),
    ensures
        processed(aig, staged, parts, max_stage_degrad, num_stages) == Some(
            joined(
                pa,
                pb,
                built(aig, staged, parts[0] + parts[1], num_stages),
                larger(pa.stages.len(), pb.stages.len()) + max_stage_degrad,
            ),
        ),
{
    let s = search(aig, staged, parts, max_stage_degrad, num_stages);
    lemma_original_two(aig, staged, parts, pa, pb, num_stages);
    lemma_joined(s, parts, pa, pb);
    assert(s.build(parts[0] + parts[1]) == built(
        aig,
        staged,
        parts[0] + parts[1],
        num_stages,
    ));
}

/// The partitions of two parts, one by one.
proof fn lemma_original_two(
    aig: &AIG,
    staged: &StagedAIG,
    parts: Seq<Seq<usize>>,
    pa: PartitionModel,
    pb: PartitionModel,
    num_stages: usize,
)
    requires
        parts.len() == 2,
        built(aig, staged, parts[0], num_stages) == Some(pa),
        built(aig, staged, parts[1], num_stages) == Some(pb),
    ensures
        original(aig, staged, parts, num_stages) == seq![pa, pb],
        most_stages(seq![pa, pb]) == larger(pa.stages.len(), pb.stages.len()),
        forall|i: int|
            0 <= i < parts.len() ==> built(aig, staged, #[trigger] parts[i], num_stages) is Some,
{
    assert(original(aig, staged, parts, num_stages) =~= seq![pa, pb]);
    let empty = Seq::<PartitionModel>::empty();
    assert(seq![pa, pb].drop_last() =~= seq![pa]);
    assert(seq![pa].drop_last() =~= empty);
    assert(most_stages(empty) == 0);
    assert(most_stages(seq![pa]) == pa.stages.len());
}

} // verus!
