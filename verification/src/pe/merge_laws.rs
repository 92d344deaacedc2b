//! What holds of merged partitions.
use crate::aig::AIG;
use crate::pe::merge::{
    insert_by_stages, lemma_nonempty_merged, merged, most_stages, nonempty_from, original,
    processed, search, sorted_by_stages, Search,
};
use crate::pe::partition::{built, PartitionModel};
use crate::staging::StagedAIG;
use vstd::multiset::Multiset;
use vstd::prelude::*;
use vstd::seq_lib::lemma_multiset_commutative;

verus! {

/// The endpoints of the parts from `i` on.
pub open spec fn part_bag(parts: Seq<Seq<usize>>, i: int) -> Multiset<usize>
    decreases parts.len() - i,
{
    if i >= parts.len() {
        Multiset::empty()
    } else {
        parts[i].to_multiset().add(part_bag(parts, i + 1))
    }
}

/// The endpoints of the partitions.
pub open spec fn partition_bag(s: Seq<PartitionModel>) -> Multiset<usize>
    decreases s.len(),
{
    if s.len() == 0 {
        Multiset::empty()
    } else {
        partition_bag(s.drop_last()).add(s.last().endpoints.to_multiset())
    }
}

/// Emptying part `j` takes its endpoints away.
proof fn lemma_bag_cleared(parts: Seq<Seq<usize>>, next: Seq<Seq<usize>>, j: int, k: int)
    requires
        0 <= k,
        0 <= j < parts.len(),
        next.len() == parts.len(),
        next[j] == Seq::<usize>::empty(),
        forall|t: int| k <= t < parts.len() && t != j ==> #[trigger] next[t] == parts[t],
    ensures
        k <= j ==> part_bag(next, k).add(parts[j].to_multiset()) =~= part_bag(parts, k),
        k > j ==> part_bag(next, k) == part_bag(parts, k),
    decreases parts.len() - k,
{
    broadcast use vstd::seq_lib::group_to_multiset_ensures;

    if k < parts.len() {
        lemma_bag_cleared(parts, next, j, k + 1);
        if k == j {
            assert(next[j].to_multiset() =~= Multiset::empty());
        }
    }
}

/// Merging keeps the endpoints.
proof fn lemma_bag_merged(parts: Seq<Seq<usize>>, i: int, j: int)
    requires
        0 <= i < j < parts.len(),
    ensures
        part_bag(merged(parts, i, j), i) == part_bag(parts, i),
{
    let next = merged(parts, i, j);
    lemma_bag_cleared(parts, next, j, i + 1);
    lemma_multiset_commutative(parts[i], parts[j]);
    assert(part_bag(next, i) =~= part_bag(parts, i));
}

impl Search {
    /// What merging into part `i` keeps: the endpoints from part `i` on stay, the
    /// partition is one of the endpoints of part `i`, the limit on stages holds, and
    /// each later part is as before or empty.
    pub proof fn law_grow(
        self,
        parts: Seq<Seq<usize>>,
        i: int,
        black: Set<usize>,
        m: PartitionModel,
    )
        requires
            0 <= i < parts.len() <= usize::MAX,
            self.build(parts[i]) == Some(m),
            m.stages.len() <= self.stage_limit,
        ensures
            ({
                let (next, p) = self.grow(parts, i, black, m);
                &&& next.len() == parts.len()
                &&& part_bag(next, i) == part_bag(parts, i)
                &&& self.build(next[i]) == Some(p)
                &&& p.stages.len() <= self.stage_limit
                &&& nonempty_from(next, i + 1) <= nonempty_from(parts, i + 1)
                &&& forall|j: int|
                    i < j < parts.len() ==> (#[trigger] next[j] == parts[j] || next[j].len() == 0)
            }),
        decreases nonempty_from(parts, i + 1),
    {
        let cs = self.choices(parts, i, black);
        if let Some(q) = self.first_merge(parts, i, cs, 0, self.tried(cs)) {
            let j = cs[q].2 as int;
            self.lemma_first_merge(parts, i, black, cs);
            lemma_nonempty_merged(parts, i, j, i + 1);
            lemma_bag_merged(parts, i, j);
            let after = merged(parts, i, j);
            assert(after[i] == parts[i] + parts[j]);
            self.law_grow(
                after,
                i,
                self.blackened(black, cs, q),
                self.merge(parts, i, j).unwrap(),
            );
            let (next, p) = self.grow(parts, i, black, m);
            assert forall|t: int| i < t < parts.len() implies (#[trigger] next[t] == parts[t]
                || next[t].len() == 0) by {
                assert(next[t] == after[t] || next[t].len() == 0);
            }
        }
    }

    /// Refining keeps the endpoints, does not make more partitions than there are
    /// parts that are not empty, and yields partitions of their endpoints with not
    /// too many stages.
    pub proof fn law_refine(self, parts: Seq<Seq<usize>>, orig: Seq<PartitionModel>, i: int)
        requires
            0 <= i,
            parts.len() == orig.len(),
            parts.len() <= usize::MAX,
            forall|j: int|
                i <= j < parts.len() && (#[trigger] parts[j]).len() > 0 ==> self.build(parts[j])
                    == Some(orig[j]) && orig[j].stages.len() <= self.stage_limit,
            forall|eps: Seq<usize>| #[trigger]
                self.build(eps) matches Some(m) ==> m.endpoints == eps,
        ensures
            ({
                let r = self.refine(parts, orig, i);
                &&& partition_bag(r) == part_bag(parts, i)
                &&& r.len() <= nonempty_from(parts, i)
                &&& forall|k: int|
                    0 <= k < r.len() ==> {
                        &&& self.build((#[trigger] r[k]).endpoints) == Some(r[k])
                        &&& r[k].stages.len() <= self.stage_limit
                    }
            }),
        decreases orig.len() - i,
    {
        broadcast use vstd::seq_lib::group_to_multiset_ensures;

        if i < orig.len() {
            if parts[i].len() == 0 {
                self.law_refine(parts, orig, i + 1);
                assert(parts[i] =~= Seq::<usize>::empty());
                assert(parts[i].to_multiset() =~= Multiset::empty());
                assert(part_bag(parts, i) =~= part_bag(parts, i + 1));
            } else {
                assert(self.build(parts[i]) == Some(orig[i]));
                self.law_grow(parts, i, Set::empty(), orig[i]);
                let (next, m) = self.grow(parts, i, Set::empty(), orig[i]);
                assert forall|j: int| i + 1 <= j < next.len() && (#[trigger] next[j]).len()
                    > 0 implies self.build(next[j]) == Some(orig[j]) && orig[j].stages.len()
                    <= self.stage_limit by {
                    assert(next[j] == parts[j] || next[j].len() == 0);
                    assert(parts[j].len() > 0);
                }
                self.law_refine(next, orig, i + 1);
                let rest = self.refine(next, orig, i + 1);
                let r = self.refine(parts, orig, i);
                assert(r == seq![m] + rest);
                lemma_partition_bag_first(m, rest);
                assert(self.build(next[i]) == Some(m));
                assert(m.endpoints == next[i]);
                assert(partition_bag(r) =~= part_bag(parts, i));
                assert forall|k: int| 0 <= k < r.len() implies self.build(
                    (#[trigger] r[k]).endpoints,
                ) == Some(r[k]) && r[k].stages.len() <= self.stage_limit by {
                    if k > 0 {
                        assert(r[k] == rest[k - 1]);
                    }
                }
            }
        }
    }
}

/// The endpoints of partitions, the first one apart.
proof fn lemma_partition_bag_first(m: PartitionModel, rest: Seq<PartitionModel>)
    ensures
        partition_bag(seq![m] + rest) =~= m.endpoints.to_multiset().add(partition_bag(rest)),
    decreases rest.len(),
{
    let all = seq![m] + rest;
    if rest.len() == 0 {
        assert(all =~= seq![m]);
        assert(all.drop_last() =~= Seq::<PartitionModel>::empty());
        assert(partition_bag(all.drop_last()) == Multiset::<usize>::empty());
        assert(all.last() == m);
    } else {
        assert(all.drop_last() =~= seq![m] + rest.drop_last());
        lemma_partition_bag_first(m, rest.drop_last());
        assert(all.last() == rest.last());
    }
}

/// Sorting keeps the partitions, and puts those with most stages first.
pub proof fn law_sorted_by_stages(s: Seq<PartitionModel>)
    ensures
        sorted_by_stages(s).to_multiset() == s.to_multiset(),
        sorted_by_stages(s).len() == s.len(),
        partition_bag(sorted_by_stages(s)) == partition_bag(s),
        forall|a: int, b: int|
            0 <= a <= b < s.len() ==> (#[trigger] sorted_by_stages(s)[a]).stages.len() >= (
            #[trigger] sorted_by_stages(s)[b]).stages.len(),
    decreases s.len(),
{
    broadcast use vstd::seq_lib::group_to_multiset_ensures;

    if s.len() > 0 {
        law_sorted_by_stages(s.drop_last());
        lemma_insert_by_stages(sorted_by_stages(s.drop_last()), s.last());
        assert(s =~= s.drop_last().push(s.last()));
        assert(partition_bag(sorted_by_stages(s)) =~= partition_bag(s));
    }
}

/// Inserting a partition adds it, and keeps the order.
proof fn lemma_insert_by_stages(s: Seq<PartitionModel>, m: PartitionModel)
    requires
        forall|a: int, b: int|
            0 <= a <= b < s.len() ==> (#[trigger] s[a]).stages.len() >= (
            #[trigger] s[b]).stages.len(),
    ensures
        ({
            let r = insert_by_stages(s, m);
            &&& r.to_multiset() == s.to_multiset().insert(m)
            &&& r.len() == s.len() + 1
            &&& partition_bag(r) =~= partition_bag(s).add(m.endpoints.to_multiset())
            &&& forall|a: int, b: int|
                0 <= a <= b < r.len() ==> (#[trigger] r[a]).stages.len() >= (
                #[trigger] r[b]).stages.len()
            &&& forall|k: int|
                0 <= k < r.len() ==> (#[trigger] r[k] == m || s.contains(r[k]))
        }),
    decreases s.len(),
{
    broadcast use vstd::seq_lib::group_to_multiset_ensures;

    let r = insert_by_stages(s, m);
    if s.len() > 0 && s.last().stages.len() < m.stages.len() {
        let front = s.drop_last();
        lemma_insert_by_stages(front, m);
        let t = insert_by_stages(front, m);
        assert(r == t.push(s.last()));
        assert(s =~= front.push(s.last()));
        assert(r.to_multiset() =~= s.to_multiset().insert(m));
        assert(r.drop_last() =~= t);
        assert forall|k: int| 0 <= k < r.len() implies (#[trigger] r[k] == m || s.contains(r[k])) by {
            if k < t.len() {
                assert(t[k] == m || front.contains(t[k]));
                if front.contains(t[k]) {
                    let i = front.index_of(t[k]);
                    assert(s[i] == t[k]);
                }
            } else {
                assert(s[s.len() - 1] == r[k]);
            }
        }
        assert forall|a: int, b: int| 0 <= a <= b < r.len() implies (#[trigger] r[a]).stages.len()
            >= (#[trigger] r[b]).stages.len() by {
            if b < t.len() {
                assert(r[a] == t[a] && r[b] == t[b]);
            } else if a < t.len() {
                assert(t[a] == m || front.contains(t[a]));
                if t[a] != m {
                    let i = front.index_of(t[a]);
                    assert(s[i] == t[a]);
                    assert(s[i].stages.len() >= s[s.len() - 1].stages.len());
                }
            }
        }
    } else {
        assert(r == s.push(m));
        assert(r.drop_last() =~= s);
        assert forall|a: int, b: int| 0 <= a <= b < r.len() implies (#[trigger] r[a]).stages.len()
            >= (#[trigger] r[b]).stages.len() by {
            if b == s.len() && a < s.len() {
                assert(s[a].stages.len() >= s[s.len() - 1].stages.len());
            }
        }
        assert forall|k: int| 0 <= k < r.len() implies (#[trigger] r[k] == m || s.contains(r[k])) by {
            if k < s.len() {
                assert(r[k] == s[k]);
            }
        }
    }
}

/// No partition has more stages than the largest number.
pub proof fn lemma_most_stages_at(s: Seq<PartitionModel>, k: int)
    requires
        0 <= k < s.len(),
    ensures
        s[k].stages.len() <= most_stages(s),
    decreases s.len(),
{
    if k < s.len() - 1 {
        lemma_most_stages_at(s.drop_last(), k);
    }
}

/// Processing keeps all endpoints, does not make more partitions than there are
/// parts, and yields partitions of their endpoints, those with most stages first,
/// each with at most `max_stage_degrad` stages more than the worst part has.
pub proof fn law_processed(
    aig: &AIG,
    staged: &StagedAIG,
    parts: Seq<Seq<usize>>,
    max_stage_degrad: nat,
    num_stages: usize,
)
    requires
        parts.len() <= usize::MAX,
    ensures
        processed(aig, staged, parts, max_stage_degrad, num_stages) matches Some(ms) ==> {
            &&& partition_bag(ms) == part_bag(parts, 0)
            &&& ms.len() <= nonempty_from(parts, 0)
            &&& forall|k: int|
                0 <= k < ms.len() ==> {
                    &&& built(aig, staged, (#[trigger] ms[k]).endpoints, num_stages) == Some(ms[k])
                    &&& ms[k].stages.len() <= most_stages(
                        original(aig, staged, parts, num_stages),
                    ) + max_stage_degrad
                }
            &&& forall|a: int, b: int|
                0 <= a <= b < ms.len() ==> (#[trigger] ms[a]).stages.len() >= (
                #[trigger] ms[b]).stages.len()
        },
{
    broadcast use vstd::seq_lib::group_to_multiset_ensures;

    let s = search(aig, staged, parts, max_stage_degrad, num_stages);
    let orig = original(aig, staged, parts, num_stages);
    if let Some(ms) = processed(aig, staged, parts, max_stage_degrad, num_stages) {
        let r = s.refine(parts, orig, 0);
        assert forall|j: int| 0 <= j < parts.len() && (#[trigger] parts[j]).len() > 0 implies s.build(
            parts[j],
        ) == Some(orig[j]) && orig[j].stages.len() <= s.stage_limit by {
            lemma_most_stages_at(orig, j);
        }
        s.law_refine(parts, orig, 0);
        law_sorted_by_stages(r);
        assert forall|k: int| 0 <= k < ms.len() implies built(
            aig,
            staged,
            (#[trigger] ms[k]).endpoints,
            num_stages,
        ) == Some(ms[k]) && ms[k].stages.len() <= most_stages(orig) + max_stage_degrad by {
            assert(ms.to_multiset().count(ms[k]) > 0);
            assert(r.contains(ms[k]));
            let t = r.index_of(ms[k]);
            assert(s.build(r[t].endpoints) == Some(r[t]));
        }
    }
}

} // verus!
