//! Which parts a part is merged with.
use crate::aig::AIG;
use crate::pe::merge::{
    lemma_all_pins_bound, lemma_cone_size, lemma_nonempty_merged, merged, most_stages,
    nonempty_from, original, processed, search, sorted_by_stages, trials_from, Search,
    FIRST_TRIALS,
};
use crate::pe::merge_laws::{law_sorted_by_stages, lemma_most_stages_at};
use crate::pe::merge_order::concat;
use crate::pe::partition::{built, PartitionModel};
use crate::sorting::{lemma_sorted_triples, triple_leq};
use crate::staging::StagedAIG;
use vstd::arithmetic::power2::{lemma2_to64, lemma_pow2_pos, lemma_pow2_unfold, pow2};
use vstd::prelude::*;
use vstd::relations::{sorted_by, total_ordering};

verus! {

/// How a part has grown: the parts that were merged into it, in order, and for each of these
/// and for the end, the parts that were tried before in vain.
pub struct Growth {
    pub ids: Seq<int>,
    pub failed: Seq<Seq<int>>,
}

impl Growth {
    /// Whether a part was tried in vain before part number `t` was merged.
    pub open spec fn given_up(self, t: int, j: int) -> bool {
        exists|s: int| 0 <= s < t && (#[trigger] self.failed[s]).contains(j)
    }

    /// Whether a part could be chosen as number `t` to be merged into part `i`: it follows it,
    /// is not empty, was not merged before, and was not tried in vain before.
    pub open spec fn open(self, parts: Seq<Seq<usize>>, i: int, t: int, j: int) -> bool {
        &&& i < j < parts.len()
        &&& parts[j].len() > 0
        &&& !self.ids.take(t).contains(j)
        &&& !self.given_up(t, j)
    }

    /// The endpoints of part `i` after `t` parts were merged into it.
    pub open spec fn grown(self, parts: Seq<Seq<usize>>, i: int, t: int) -> Seq<usize> {
        parts[i] + concat(parts, self.ids.take(t))
    }
}

impl Search {
    /// Whether endpoints can be mapped together with not too many stages.
    pub open spec fn fits(self, eps: Seq<usize>) -> bool {
        self.build(eps) matches Some(m) && m.stages.len() <= self.stage_limit
    }

    /// The number of pins that are added to the larger of two parts when they are joined.
    pub open spec fn added(self, a: Seq<usize>, b: Seq<usize>) -> int {
        let both = self.size(a + b);
        if self.size(a) >= self.size(b) {
            both - self.size(a)
        } else {
            both - self.size(b)
        }
    }

    /// Whether part `j` is preferred to part `l` for merging into `cur`: it adds fewer pins, or
    /// equally many and there are fewer pins in all, or equally many again and it comes first.
    pub open spec fn preferred(
        self,
        parts: Seq<Seq<usize>>,
        cur: Seq<usize>,
        j: int,
        l: int,
    ) -> bool {
        let dj = self.added(cur, parts[j]);
        let dl = self.added(cur, parts[l]);
        let sj = self.size(cur + parts[j]);
        let sl = self.size(cur + parts[l]);
        dj < dl || (dj == dl && (sj < sl || (sj == sl && j < l)))
    }

    /// Whether `g.failed[t]` are parts that could be chosen, none of which fits, each preferred
    /// to those behind it and to all parts that were not tried.
    pub open spec fn tried_in_vain(
        self,
        parts: Seq<Seq<usize>>,
        i: int,
        g: Growth,
        t: int,
    ) -> bool {
        let cur = g.grown(parts, i, t);
        let f = g.failed[t];
        &&& forall|q: int|
            0 <= q < f.len() ==> g.open(parts, i, t, #[trigger] f[q]) && !self.fits(cur + parts[f[q]])
        &&& forall|q: int, r: int|
            0 <= q < r < f.len() ==> self.preferred(parts, cur, #[trigger] f[q], #[trigger] f[r])
        &&& forall|q: int, l: int|
            0 <= q < f.len() && #[trigger] g.open(parts, i, t, l) && !f.contains(l)
                ==> self.preferred(parts, cur, #[trigger] f[q], l)
    }

    /// Whether `g.ids[t]` is the part to choose: it fits, and of the parts that could be chosen
    /// and were not tried in vain it is the one that is preferred to all others. Fewer parts
    /// than `trials` were tried before.
    pub open spec fn well_chosen(
        self,
        parts: Seq<Seq<usize>>,
        i: int,
        g: Growth,
        t: int,
        trials: nat,
    ) -> bool {
        let cur = g.grown(parts, i, t);
        let j = g.ids[t];
        &&& g.open(parts, i, t, j)
        &&& !g.failed[t].contains(j)
        &&& self.fits(cur + parts[j])
        &&& g.failed[t].len() < trials
        &&& forall|l: int| #[trigger]
            g.open(parts, i, t, l) && !g.failed[t].contains(l) && l != j ==> self.preferred(
                parts,
                cur,
                j,
                l,
            )
    }

    /// Whether a part has grown greedily until nothing more could be merged into it: every
    /// part that could still be chosen was tried in vain, unless `trials` parts were.
    pub open spec fn greedy(self, parts: Seq<Seq<usize>>, i: int, g: Growth, trials: nat) -> bool {
        let n = g.ids.len() as int;
        &&& self.greedy_upto(parts, i, g, trials)
        &&& g.failed.len() == n + 1
        &&& self.tried_in_vain(parts, i, g, n)
        &&& g.failed[n].len() <= trials
        &&& g.failed[n].len() == trials || forall|j: int| #[trigger]
            g.open(parts, i, n, j) ==> g.failed[n].contains(j)
    }

    /// Whether all parts that were merged were well chosen.
    pub open spec fn greedy_upto(
        self,
        parts: Seq<Seq<usize>>,
        i: int,
        g: Growth,
        trials: nat,
    ) -> bool {
        &&& g.failed.len() >= g.ids.len()
        &&& forall|t: int|
            0 <= t < g.ids.len() ==> #[trigger] self.well_made(parts, i, g, t, trials)
    }

    /// Whether a step was made as it should: what was tried before and what was chosen.
    pub open spec fn well_made(
        self,
        parts: Seq<Seq<usize>>,
        i: int,
        g: Growth,
        t: int,
        trials: nat,
    ) -> bool {
        self.tried_in_vain(parts, i, g, t) && self.well_chosen(parts, i, g, t, trials)
    }

    /// Whether all endpoints of parts exist.
    pub open spec fn parts_exist(self, parts: Seq<Seq<usize>>) -> bool {
        forall|j: int, k: int|
            0 <= j < parts.len() && 0 <= k < parts[j].len() ==> (#[trigger] parts[j][k])
                < self.staged.group_count()
    }

    /// The parts that can be chosen, with nothing left out.
    proof fn lemma_all_choices(
        self,
        parts: Seq<Seq<usize>>,
        i: int,
        black: Set<usize>,
        k: int,
        j: int,
    )
        requires
            0 <= i,
            k <= parts.len() <= usize::MAX,
            i < j < k,
            parts[j].len() > 0,
            !black.contains(j as usize),
        ensures
            self.choices_upto(parts, i, black, k).contains(self.choice(parts, i, j)),
        decreases k,
    {
        let before = self.choices_upto(parts, i, black, k - 1);
        let now = self.choices_upto(parts, i, black, k);
        if j == k - 1 {
            assert(now[before.len() as int] == self.choice(parts, i, j));
        } else {
            self.lemma_all_choices(parts, i, black, k - 1, j);
            let q = before.index_of(self.choice(parts, i, j));
            assert(now[q] == self.choice(parts, i, j));
        }
    }

    proof fn lemma_choices_distinct(self, parts: Seq<Seq<usize>>, i: int, black: Set<usize>, k: int)
        requires
            0 <= i,
            k <= parts.len() <= usize::MAX,
        ensures
            self.choices_upto(parts, i, black, k).no_duplicates(),
        decreases k,
    {
        if k > i + 1 {
            self.lemma_choices_distinct(parts, i, black, k - 1);
            self.lemma_choices_upto(parts, i, black, k - 1);
            let before = self.choices_upto(parts, i, black, k - 1);
            let now = self.choices_upto(parts, i, black, k);
            assert forall|a: int, b: int| 0 <= a < b < now.len() implies now[a] != now[b] by {
                if b == before.len() {
                    assert(before.contains(before[a]));
                }
            }
        }
    }

    /// The choices are all parts that can be chosen, each once, by rank.
    proof fn lemma_choices_exact(self, parts: Seq<Seq<usize>>, i: int, black: Set<usize>)
        requires
            0 <= i < parts.len() <= usize::MAX,
        ensures
            ({
                let cs = self.choices(parts, i, black);
                &&& forall|j: int|
                    i < j < parts.len() && parts[j].len() > 0 && !black.contains(j as usize)
                        ==> #[trigger] cs.contains(self.choice(parts, i, j))
                &&& cs.no_duplicates()
                &&& forall|a: int, b: int|
                    0 <= a < b < cs.len() ==> triple_leq(#[trigger] cs[a], #[trigger] cs[b])
            }),
    {
        let all = self.choices_upto(parts, i, black, parts.len() as int);
        let cs = self.choices(parts, i, black);
        lemma_sorted_triples(all);
        assert forall|j: int|
            i < j < parts.len() && parts[j].len() > 0 && !black.contains(
                j as usize,
            ) implies #[trigger] cs.contains(self.choice(parts, i, j)) by {
            self.lemma_all_choices(parts, i, black, parts.len() as int, j);
            assert(all.contains(self.choice(parts, i, j)));
        }
        self.lemma_choices_distinct(parts, i, black, parts.len() as int);
        let leq = |a: (usize, usize, usize), b: (usize, usize, usize)| triple_leq(a, b);
        assert(total_ordering(leq));
        all.lemma_sort_by_ensures(leq);
        assert(sorted_by(cs, leq));
        assert forall|a: int, b: int| 0 <= a < b < cs.len() implies triple_leq(
            #[trigger] cs[a],
            #[trigger] cs[b],
        ) by {
            assert(leq(cs[a], cs[b]));
        }
        all.lemma_multiset_has_no_duplicates();
        assert(cs.to_multiset() == all.to_multiset());
        cs.lemma_multiset_has_no_duplicates_conv();
    }

    /// A choice of lower rank is preferred.
    proof fn lemma_rank(self, parts: Seq<Seq<usize>>, i: int, j: int, l: int)
        requires
            self.staged.wf(&self.aig),
            self.parts_exist(parts),
            0 <= i < parts.len() <= usize::MAX,
            0 <= j < parts.len(),
            0 <= l < parts.len(),
            j != l,
            triple_leq(self.choice(parts, i, j), self.choice(parts, i, l)),
        ensures
            self.preferred(parts, parts[i], j, l),
    {
        self.lemma_sizes(parts, i, j);
        self.lemma_sizes(parts, i, l);
    }

    proof fn lemma_sizes(self, parts: Seq<Seq<usize>>, i: int, j: int)
        requires
            self.staged.wf(&self.aig),
            self.parts_exist(parts),
            0 <= i < parts.len() <= usize::MAX,
            0 <= j < parts.len(),
        ensures
            self.choice(parts, i, j).0 == self.added(parts[i], parts[j]),
            self.choice(parts, i, j).1 == self.size(parts[i] + parts[j]),
            self.choice(parts, i, j).2 == j,
    {
        let a = parts[i];
        let b = parts[j];
        assert forall|k: int| 0 <= k < (a + b).len() implies (#[trigger] (a + b)[k])
            < self.staged.group_count() by {
            if k < a.len() {
                assert((a + b)[k] == parts[i][k]);
            } else {
                assert((a + b)[k] == parts[j][k - a.len()]);
            }
        }
        lemma_cone_size(&self.aig, &self.staged, a, b);
        lemma_all_pins_bound(&self.aig, &self.staged, a + b);
    }

    /// Growing on from a state.
    proof fn lemma_greedy(
        self,
        given: Seq<Seq<usize>>,
        parts: Seq<Seq<usize>>,
        i: int,
        black: Set<usize>,
        m: PartitionModel,
        g: Growth,
    ) -> (r: Growth)
        requires
            self.staged.wf(&self.aig),
            self.parts_exist(given),
            0 <= i < given.len() <= usize::MAX,
            self.behind(given, parts, i, black, g),
            self.greedy_upto(given, i, g, trials_from(0, self.max_trials)),
        ensures
            self.greedy(given, i, r, trials_from(0, self.max_trials)),
            ({
                let next = self.grow(parts, i, black, m).0;
                let n = r.ids.len() as int;
                &&& next.len() == given.len()
                &&& next[i] == r.grown(given, i, n)
                &&& forall|j: int| 0 <= j < i ==> #[trigger] next[j] == given[j]
                &&& forall|j: int|
                    i < j < given.len() ==> #[trigger] next[j] == if r.ids.contains(j) {
                        Seq::<usize>::empty()
                    } else {
                        given[j]
                    }
            }),
        decreases nonempty_from(parts, i + 1),
    {
        let trials = trials_from(0, self.max_trials);
        let n = g.ids.len() as int;
        let cs = self.choices(parts, i, black);
        let end = match self.first_merge(parts, i, cs, 0, self.tried(cs)) {
            Some(q) => q,
            None => self.tried(cs),
        };
        self.lemma_choices(parts, i, black);
        self.lemma_first_merge_at(parts, i, cs, 0, self.tried(cs));
        let f = Seq::new(end as nat, |q: int| cs[q].2 as int);
        let h = Growth { ids: g.ids, failed: g.failed.push(f) };
        self.lemma_tried(given, parts, i, black, g, f, end);
        assert(g.ids.take(n) =~= g.ids);
        self.lemma_extended(given, i, g, h, trials);
        match self.first_merge(parts, i, cs, 0, self.tried(cs)) {
            Some(q) => {
                let j = cs[q].2 as int;
                self.lemma_first_merge(parts, i, black, cs);
                lemma_nonempty_merged(parts, i, j, i + 1);
                let after = merged(parts, i, j);
                let k = Growth { ids: g.ids.push(j), failed: h.failed };
                self.lemma_chosen(given, parts, i, black, g, f, q);
                self.lemma_extended(given, i, g, k, trials);
                self.lemma_last_step(given, i, h, k, n, trials);
                self.lemma_behind(given, parts, i, black, g, f, q, k);
                self.lemma_greedy(
                    given,
                    after,
                    i,
                    self.blackened(black, cs, q),
                    self.merge(parts, i, j).unwrap(),
                    k,
                )
            },
            None => {
                self.lemma_nothing_left(given, parts, i, black, g, f);
                assert forall|j: int| i < j < given.len() implies #[trigger] parts[j]
                    == if h.ids.contains(j) {
                    Seq::<usize>::empty()
                } else {
                    given[j]
                } by {}
                assert(h.grown(given, i, n) == g.grown(given, i, n));
                h
            },
        }
    }

    /// Whether parts are what has come of given parts by merging as `g` says, and the parts in
    /// `black` are those that were tried in vain.
    spec fn behind(
        self,
        given: Seq<Seq<usize>>,
        parts: Seq<Seq<usize>>,
        i: int,
        black: Set<usize>,
        g: Growth,
    ) -> bool {
        let n = g.ids.len() as int;
        &&& g.failed.len() == n
        &&& parts.len() == given.len()
        &&& parts[i] == g.grown(given, i, n)
        &&& forall|j: int|
            i < j < given.len() ==> #[trigger] parts[j] == if g.ids.contains(j) {
                Seq::<usize>::empty()
            } else {
                given[j]
            }
        &&& forall|j: int| 0 <= j < i ==> #[trigger] parts[j] == given[j]
        &&& forall|j: usize| #[trigger] black.contains(j) <==> g.given_up(n, j as int)
        &&& self.parts_exist(parts)
    }

    /// What is open is what can be chosen.
    proof fn lemma_open(
        self,
        given: Seq<Seq<usize>>,
        parts: Seq<Seq<usize>>,
        i: int,
        black: Set<usize>,
        g: Growth,
        j: int,
    )
        requires
            0 <= i < given.len() <= usize::MAX,
            self.behind(given, parts, i, black, g),
        ensures
            g.open(given, i, g.ids.len() as int, j) == (i < j < parts.len() && parts[j].len() > 0
                && !black.contains(j as usize)),
            g.open(given, i, g.ids.len() as int, j) ==> parts[j] == given[j],
    {
        let n = g.ids.len() as int;
        assert(g.ids.take(n) =~= g.ids);
        if i < j < given.len() {
            assert(parts[j] == if g.ids.contains(j) {
                Seq::<usize>::empty()
            } else {
                given[j]
            });
            assert(black.contains(j as usize) == g.given_up(n, j));
        }
    }

    proof fn lemma_tried(
        self,
        given: Seq<Seq<usize>>,
        parts: Seq<Seq<usize>>,
        i: int,
        black: Set<usize>,
        g: Growth,
        f: Seq<int>,
        end: int,
    )
        requires
            self.staged.wf(&self.aig),
            self.parts_exist(given),
            0 <= i < given.len() <= usize::MAX,
            self.behind(given, parts, i, black, g),
            0 <= end <= self.choices(parts, i, black).len(),
            f == Seq::new(end as nat, |q: int| self.choices(parts, i, black)[q].2 as int),
            forall|q: int|
                0 <= q < end ==> self.merge(
                    parts,
                    i,
                    (#[trigger] self.choices(parts, i, black)[q]).2 as int,
                ) is None,
        ensures
            self.tried_in_vain(
                given,
                i,
                Growth { ids: g.ids, failed: g.failed.push(f) },
                g.ids.len() as int,
            ),
    {
        let n = g.ids.len() as int;
        let cs = self.choices(parts, i, black);
        let h = Growth { ids: g.ids, failed: g.failed.push(f) };
        let cur = h.grown(given, i, n);
        assert(cur == parts[i]);
        self.lemma_choices(parts, i, black);
        self.lemma_choices_exact(parts, i, black);
        assert forall|j: int| #[trigger] h.open(given, i, n, j) == g.open(given, i, n, j) by {
            lemma_given_up(g, f, n, j);
        }
        assert forall|q: int| 0 <= q < f.len() implies h.open(given, i, n, #[trigger] f[q])
            && !self.fits(cur + given[f[q]]) by {
            self.lemma_open(given, parts, i, black, g, f[q]);
            assert(cs[q].2 == f[q]);
            assert(h.open(given, i, n, f[q]) == g.open(given, i, n, f[q]));
        }
        assert forall|q: int, r: int| 0 <= q < r < f.len() implies self.preferred(
            given,
            cur,
            #[trigger] f[q],
            #[trigger] f[r],
        ) by {
            self.lemma_before(given, parts, i, black, g, q, r);
        }
        assert forall|q: int, l: int|
            0 <= q < f.len() && #[trigger] h.open(given, i, n, l) && !f.contains(
                l,
            ) implies self.preferred(given, cur, #[trigger] f[q], l) by {
            assert(g.open(given, i, n, l));
            self.lemma_open(given, parts, i, black, g, l);
            let c = self.choice(parts, i, l);
            assert(cs.contains(c));
            let r = cs.index_of(c);
            self.lemma_sizes(parts, i, l);
            if r < end {
                assert(f[r] == l);
                assert(f.contains(l));
            }
            self.lemma_before(given, parts, i, black, g, q, r);
        }
    }

    /// A choice that comes first is preferred.
    proof fn lemma_before(
        self,
        given: Seq<Seq<usize>>,
        parts: Seq<Seq<usize>>,
        i: int,
        black: Set<usize>,
        g: Growth,
        q: int,
        r: int,
    )
        requires
            self.staged.wf(&self.aig),
            0 <= i < given.len() <= usize::MAX,
            self.behind(given, parts, i, black, g),
            0 <= q < r < self.choices(parts, i, black).len(),
        ensures
            ({
                let cs = self.choices(parts, i, black);
                &&& cs[q].2 != cs[r].2
                &&& self.preferred(given, parts[i], cs[q].2 as int, cs[r].2 as int)
            }),
    {
        let cs = self.choices(parts, i, black);
        self.lemma_choices(parts, i, black);
        self.lemma_choices_exact(parts, i, black);
        let a = cs[q];
        let b = cs[r];
        assert(a == self.choice(parts, i, a.2 as int));
        assert(b == self.choice(parts, i, b.2 as int));
        assert(a != b);
        assert(triple_leq(a, b));
        self.lemma_rank(parts, i, a.2 as int, b.2 as int);
        self.lemma_open(given, parts, i, black, g, a.2 as int);
        self.lemma_open(given, parts, i, black, g, b.2 as int);
    }

    proof fn lemma_chosen(
        self,
        given: Seq<Seq<usize>>,
        parts: Seq<Seq<usize>>,
        i: int,
        black: Set<usize>,
        g: Growth,
        f: Seq<int>,
        q: int,
    )
        requires
            self.staged.wf(&self.aig),
            self.parts_exist(given),
            0 <= i < given.len() <= usize::MAX,
            self.behind(given, parts, i, black, g),
            ({
                let cs = self.choices(parts, i, black);
                &&& 0 <= q < self.tried(cs)
                &&& self.merge(parts, i, cs[q].2 as int) is Some
                &&& f == Seq::new(q as nat, |r: int| cs[r].2 as int)
            }),
        ensures
            self.well_chosen(
                given,
                i,
                Growth {
                    ids: g.ids.push(self.choices(parts, i, black)[q].2 as int),
                    failed: g.failed.push(f),
                },
                g.ids.len() as int,
                trials_from(0, self.max_trials),
            ),
    {
        let n = g.ids.len() as int;
        let cs = self.choices(parts, i, black);
        let j = cs[q].2 as int;
        let k = Growth { ids: g.ids.push(j), failed: g.failed.push(f) };
        assert(k.ids.take(n) =~= g.ids.take(n));
        let cur = k.grown(given, i, n);
        assert(cur == parts[i]);
        self.lemma_choices(parts, i, black);
        self.lemma_choices_exact(parts, i, black);
        assert forall|l: int| #[trigger] k.open(given, i, n, l) == g.open(given, i, n, l) by {
            lemma_given_up(g, f, n, l);
            lemma_given_up_ids(g.failed.push(f), g.ids, k.ids, n, l);
        }
        self.lemma_open(given, parts, i, black, g, j);
        assert(k.open(given, i, n, j) == g.open(given, i, n, j));
        if f.contains(j) {
            let r = f.index_of(j);
            self.lemma_before(given, parts, i, black, g, r, q);
        }
        assert forall|l: int| #[trigger] k.open(given, i, n, l) && !f.contains(l) && l
            != j implies self.preferred(given, cur, j, l) by {
            assert(g.open(given, i, n, l));
            self.lemma_open(given, parts, i, black, g, l);
            let c = self.choice(parts, i, l);
            assert(cs.contains(c));
            let r = cs.index_of(c);
            self.lemma_sizes(parts, i, l);
            if r < q {
                assert(f[r] == l);
                assert(f.contains(l));
            }
            self.lemma_before(given, parts, i, black, g, q, r);
        }
    }

    proof fn lemma_nothing_left(
        self,
        given: Seq<Seq<usize>>,
        parts: Seq<Seq<usize>>,
        i: int,
        black: Set<usize>,
        g: Growth,
        f: Seq<int>,
    )
        requires
            self.staged.wf(&self.aig),
            0 <= i < given.len() <= usize::MAX,
            self.behind(given, parts, i, black, g),
            ({
                let cs = self.choices(parts, i, black);
                f == Seq::new(self.tried(cs) as nat, |r: int| cs[r].2 as int)
            }),
        ensures
            ({
                let h = Growth { ids: g.ids, failed: g.failed.push(f) };
                let n = g.ids.len() as int;
                let trials = trials_from(0, self.max_trials);
                &&& f.len() <= trials
                &&& f.len() == trials || forall|j: int| #[trigger]
                    h.open(given, i, n, j) ==> f.contains(j)
            }),
    {
        let n = g.ids.len() as int;
        let cs = self.choices(parts, i, black);
        let h = Growth { ids: g.ids, failed: g.failed.push(f) };
        self.lemma_choices(parts, i, black);
        self.lemma_choices_exact(parts, i, black);
        if f.len() != trials_from(0, self.max_trials) {
            assert(f.len() == cs.len());
            assert forall|j: int| #[trigger] h.open(given, i, n, j) implies f.contains(j) by {
                lemma_given_up(g, f, n, j);
                self.lemma_open(given, parts, i, black, g, j);
                let c = self.choice(parts, i, j);
                assert(cs.contains(c));
                let r = cs.index_of(c);
                assert(cs[r].2 == c.2);
                assert(f[r] == j);
            }
        }
    }

    /// Merging one more part.
    proof fn lemma_behind(
        self,
        given: Seq<Seq<usize>>,
        parts: Seq<Seq<usize>>,
        i: int,
        black: Set<usize>,
        g: Growth,
        f: Seq<int>,
        q: int,
        k: Growth,
    )
        requires
            0 <= i < given.len() <= usize::MAX,
            self.parts_exist(given),
            self.behind(given, parts, i, black, g),
            ({
                let cs = self.choices(parts, i, black);
                &&& 0 <= q < cs.len()
                &&& f == Seq::new(q as nat, |r: int| cs[r].2 as int)
                &&& k.ids == g.ids.push(cs[q].2 as int)
                &&& k.failed == g.failed.push(f)
            }),
        ensures
            ({
                let cs = self.choices(parts, i, black);
                self.behind(
                    given,
                    merged(parts, i, cs[q].2 as int),
                    i,
                    self.blackened(black, cs, q),
                    k,
                )
            }),
    {
        let n = g.ids.len() as int;
        let cs = self.choices(parts, i, black);
        let j = cs[q].2 as int;
        self.lemma_choices(parts, i, black);
        self.lemma_open(given, parts, i, black, g, j);
        let after = merged(parts, i, j);
        assert(k.ids.take(n + 1) =~= k.ids);
        assert(k.ids.drop_last() =~= g.ids);
        assert(g.ids.take(n) =~= g.ids);
        assert(after[i] =~= k.grown(given, i, n + 1));
        assert forall|l: int| i < l < given.len() implies #[trigger] after[l] == if k.ids.contains(l) {
            Seq::<usize>::empty()
        } else {
            given[l]
        } by {
            assert(parts[l] == if g.ids.contains(l) {
                Seq::<usize>::empty()
            } else {
                given[l]
            });
            if g.ids.contains(l) {
                let t = g.ids.index_of(l);
                assert(k.ids[t] == l);
            }
            if l == j {
                assert(k.ids[n] == l);
            }
            if k.ids.contains(l) && l != j {
                let t = k.ids.index_of(l);
                assert(g.ids[t] == l);
            }
        }
        let more = self.blackened(black, cs, q);
        assert forall|l: usize| #[trigger] more.contains(l) <==> k.given_up(n + 1, l as int) by {
            self.lemma_blackened(black, cs, q, l);
            lemma_given_up_next(g, f, k, n, l as int);
            assert(black.contains(l) == g.given_up(n, l as int));
            if f.contains(l as int) {
                let r = f.index_of(l as int);
                assert(cs[r].2 == l);
            }
            if exists|r: int| 0 <= r < q && (#[trigger] cs[r]).2 == l {
                let r = choose|r: int| 0 <= r < q && (#[trigger] cs[r]).2 == l;
                assert(f[r] == l);
            }
        }
        assert forall|a: int, b: int| 0 <= a < after.len() && 0 <= b < after[a].len() implies (
        #[trigger] after[a][b]) < self.staged.group_count() by {
            if a == i {
                if b < parts[i].len() {
                    assert(after[a][b] == parts[i][b]);
                } else {
                    assert(after[a][b] == parts[j][b - parts[i].len()]);
                }
            } else if a != j {
                assert(after[a][b] == parts[a][b]);
            }
        }
    }

    proof fn lemma_blackened(
        self,
        black: Set<usize>,
        cs: Seq<(usize, usize, usize)>,
        q: int,
        l: usize,
    )
        requires
            0 <= q <= cs.len(),
        ensures
            self.blackened(black, cs, q).contains(l) <==> black.contains(l) || exists|r: int|
                0 <= r < q && (#[trigger] cs[r]).2 == l,
        decreases q,
    {
        if q > 0 {
            self.lemma_blackened(black, cs, q - 1, l);
            if cs[q - 1].2 == l {
                assert(0 <= q - 1 < q && cs[q - 1].2 == l);
            }
        }
    }

    /// What was well chosen stays so when more is recorded.
    proof fn lemma_extended(
        self,
        given: Seq<Seq<usize>>,
        i: int,
        g: Growth,
        h: Growth,
        trials: nat,
    )
        requires
            self.greedy_upto(given, i, g, trials),
            g.ids.is_prefix_of(h.ids),
            g.failed.is_prefix_of(h.failed),
            g.failed.len() == g.ids.len(),
        ensures
            forall|t: int|
                0 <= t < g.ids.len() ==> #[trigger] self.well_made(given, i, h, t, trials),
    {
        assert forall|t: int| 0 <= t < g.ids.len() implies self.well_made(given, i, h, t, trials) by {
            self.lemma_same_step(given, i, g, h, t);
            assert(self.well_made(given, i, g, t, trials));
        }
    }

    /// What a step is depends on what was recorded up to it.
    proof fn lemma_same_step(self, given: Seq<Seq<usize>>, i: int, g: Growth, h: Growth, t: int)
        requires
            0 <= t < g.ids.len(),
            g.ids.is_prefix_of(h.ids),
            g.failed.is_prefix_of(h.failed),
            g.failed.len() == g.ids.len(),
        ensures
            self.tried_in_vain(given, i, g, t) ==> self.tried_in_vain(given, i, h, t),
            forall|trials: nat| #[trigger]
                self.well_chosen(given, i, g, t, trials) ==> self.well_chosen(
                    given,
                    i,
                    h,
                    t,
                    trials,
                ),
    {
        assert(h.ids.take(t) =~= g.ids.take(t));
        assert(h.failed[t] == g.failed[t]);
        assert(h.ids[t] == g.ids[t]);
        assert forall|j: int| #[trigger] h.open(given, i, t, j) == g.open(given, i, t, j) by {
            lemma_given_up_prefix(g, h, t, j);
        }
        assert(h.grown(given, i, t) == g.grown(given, i, t));
        if self.tried_in_vain(given, i, g, t) {
            let f = g.failed[t];
            assert forall|q: int| 0 <= q < f.len() implies h.open(given, i, t, #[trigger] f[q])
                && !self.fits(h.grown(given, i, t) + given[f[q]]) by {
                assert(h.open(given, i, t, f[q]) == g.open(given, i, t, f[q]));
            }
        }
        assert forall|trials: nat| #[trigger] self.well_chosen(
            given,
            i,
            g,
            t,
            trials,
        ) implies self.well_chosen(given, i, h, t, trials) by {
            assert(h.open(given, i, t, h.ids[t]) == g.open(given, i, t, h.ids[t]));
        }
    }

    /// The step that was made last.
    proof fn lemma_last_step(
        self,
        given: Seq<Seq<usize>>,
        i: int,
        h: Growth,
        k: Growth,
        n: int,
        trials: nat,
    )
        requires
            n == h.ids.len(),
            k.ids.len() == n + 1,
            h.ids.is_prefix_of(k.ids),
            k.failed == h.failed,
            h.failed.len() == n + 1,
            self.tried_in_vain(given, i, h, n),
            self.well_chosen(given, i, k, n, trials),
            forall|t: int| 0 <= t < n ==> #[trigger] self.well_made(given, i, k, t, trials),
        ensures
            self.greedy_upto(given, i, k, trials),
    {
        assert(h.ids.take(n) =~= k.ids.take(n));
        assert forall|j: int| #[trigger] k.open(given, i, n, j) == h.open(given, i, n, j) by {
            lemma_given_up_prefix(h, k, n, j);
        }
        let f = h.failed[n];
        assert(k.grown(given, i, n) == h.grown(given, i, n));
        assert forall|q: int| 0 <= q < f.len() implies k.open(given, i, n, #[trigger] f[q])
            && !self.fits(k.grown(given, i, n) + given[f[q]]) by {
            assert(k.open(given, i, n, f[q]) == h.open(given, i, n, f[q]));
        }
        assert(self.tried_in_vain(given, i, k, n));
        assert(self.well_made(given, i, k, n, trials));
    }

    /// How a part grows: at each step it takes in, of the parts behind it that are left, the one
    /// that is preferred to all others among those that fit, where parts that were tried in vain
    /// at an earlier step are not tried again. It goes on until all parts that are left were
    /// tried in vain, or so many of them that no more are tried.
    pub proof fn law_grows_greedily(
        self,
        parts: Seq<Seq<usize>>,
        i: int,
        m: PartitionModel,
    ) -> (g: Growth)
        requires
            self.staged.wf(&self.aig),
            self.parts_exist(parts),
            0 <= i < parts.len() <= usize::MAX,
        ensures
            self.greedy(parts, i, g, trials_from(0, self.max_trials)),
            ({
                let next = self.grow(parts, i, Set::empty(), m).0;
                &&& next.len() == parts.len()
                &&& next[i] == g.grown(parts, i, g.ids.len() as int)
                &&& forall|j: int| 0 <= j < i ==> #[trigger] next[j] == parts[j]
                &&& forall|j: int|
                    i < j < parts.len() ==> #[trigger] next[j] == if g.ids.contains(j) {
                        Seq::<usize>::empty()
                    } else {
                        parts[j]
                    }
            }),
    {
        let g = Growth { ids: Seq::empty(), failed: Seq::empty() };
        assert(g.ids.take(0) =~= Seq::<int>::empty());
        assert(g.grown(parts, i, 0) =~= parts[i]);
        self.lemma_greedy(parts, parts, i, Set::empty(), m, g)
    }
}

proof fn lemma_given_up(g: Growth, f: Seq<int>, n: int, j: int)
    requires
        g.failed.len() == n,
    ensures
        (Growth { ids: g.ids, failed: g.failed.push(f) }).given_up(n, j) == g.given_up(n, j),
{
    let h = Growth { ids: g.ids, failed: g.failed.push(f) };
    if g.given_up(n, j) {
        let s = choose|s: int| 0 <= s < n && (#[trigger] g.failed[s]).contains(j);
        assert(h.failed[s].contains(j));
    }
    if h.given_up(n, j) {
        let s = choose|s: int| 0 <= s < n && (#[trigger] h.failed[s]).contains(j);
        assert(g.failed[s].contains(j));
    }
}

proof fn lemma_given_up_ids(failed: Seq<Seq<int>>, a: Seq<int>, b: Seq<int>, n: int, j: int)
    ensures
        (Growth { ids: a, failed }).given_up(n, j) == (Growth { ids: b, failed }).given_up(n, j),
{
    let g = Growth { ids: a, failed };
    let h = Growth { ids: b, failed };
    if g.given_up(n, j) {
        let s = choose|s: int| 0 <= s < n && (#[trigger] g.failed[s]).contains(j);
        assert(h.failed[s].contains(j));
    }
    if h.given_up(n, j) {
        let s = choose|s: int| 0 <= s < n && (#[trigger] h.failed[s]).contains(j);
        assert(g.failed[s].contains(j));
    }
}

proof fn lemma_given_up_next(g: Growth, f: Seq<int>, k: Growth, n: int, j: int)
    requires
        g.failed.len() == n,
        k.failed == g.failed.push(f),
    ensures
        k.given_up(n + 1, j) == (g.given_up(n, j) || f.contains(j)),
{
    if g.given_up(n, j) {
        let s = choose|s: int| 0 <= s < n && (#[trigger] g.failed[s]).contains(j);
        assert(k.failed[s].contains(j));
    }
    if f.contains(j) {
        assert(k.failed[n].contains(j));
    }
    if k.given_up(n + 1, j) {
        let s = choose|s: int| 0 <= s < n + 1 && (#[trigger] k.failed[s]).contains(j);
        if s < n {
            assert(g.failed[s].contains(j));
        }
    }
}

proof fn lemma_given_up_prefix(g: Growth, h: Growth, t: int, j: int)
    requires
        g.failed.is_prefix_of(h.failed),
        0 <= t <= g.failed.len(),
    ensures
        g.given_up(t, j) == h.given_up(t, j),
{
    if g.given_up(t, j) {
        let s = choose|s: int| 0 <= s < t && (#[trigger] g.failed[s]).contains(j);
        assert(h.failed[s].contains(j));
    }
    if h.given_up(t, j) {
        let s = choose|s: int| 0 <= s < t && (#[trigger] h.failed[s]).contains(j);
        assert(g.failed[s].contains(j));
    }
}

/// How many merges are tried at most if more than `max` are too many: they are tried in groups
/// of 4, 8, 16 and so on, and a group is tried unless more than `max` have been tried before
/// it.
pub proof fn law_trials(max: nat) -> (k: nat)
    ensures
        k > 0,
        trials_from(0, max) == 4 * (pow2(k) - 1),
        4 * (pow2((k - 1) as nat) - 1) <= max < 4 * (pow2(k) - 1),
{
    lemma2_to64();
    lemma_trials_at(0, max)
}

proof fn lemma_trials_at(j: nat, max: nat) -> (k: nat)
    requires
        4 * (pow2(j) - 1) <= max,
    ensures
        k > j,
        trials_from((4 * (pow2(j) - 1)) as nat, max) == 4 * (pow2(k) - 1),
        4 * (pow2((k - 1) as nat) - 1) <= max < 4 * (pow2(k) - 1),
    decreases max + 4 - 4 * pow2(j),
{
    let at = (4 * (pow2(j) - 1)) as nat;
    lemma_pow2_pos(j);
    lemma_pow2_unfold(j + 1);
    let next = (4 * (pow2(j + 1) - 1)) as nat;
    assert(next == 2 * at + FIRST_TRIALS as nat);
    assert(trials_from(at, max) == trials_from(next, max));
    if next <= max {
        lemma_trials_at(j + 1, max)
    } else {
        assert(trials_from(next, max) == next);
        j + 1
    }
}

/// A part that others are merged into: its place, the parts that are left when its turn comes,
/// and how it grows.
pub struct Round {
    pub lead: int,
    pub left: Seq<Seq<usize>>,
    pub growth: Growth,
}

impl Round {
    /// What is left after this turn, behind the part.
    pub open spec fn leaves(self, j: int) -> Seq<usize> {
        if self.growth.ids.contains(j) {
            Seq::empty()
        } else {
            self.left[j]
        }
    }

    /// The endpoints of the part after its turn.
    pub open spec fn all(self) -> Seq<usize> {
        self.growth.grown(self.left, self.lead, self.growth.ids.len() as int)
    }
}

impl Search {
    /// Whether round `k` is that of the first part from `i` on, or behind the part of the round
    /// before, that is left; and it has grown greedily from what the round before has left.
    pub open spec fn round_at(
        self,
        parts: Seq<Seq<usize>>,
        i: int,
        rounds: Seq<Round>,
        k: int,
    ) -> bool {
        let r = rounds[k];
        let from = if k == 0 {
            i
        } else {
            rounds[k - 1].lead + 1
        };
        &&& from <= r.lead < parts.len()
        &&& r.left.len() == parts.len()
        &&& r.left[r.lead].len() > 0
        &&& forall|j: int| from <= j < r.lead ==> (#[trigger] r.left[j]).len() == 0
        &&& k == 0 ==> r.left == parts
        &&& k > 0 ==> forall|j: int|
            from <= j < parts.len() ==> #[trigger] r.left[j] == rounds[k - 1].leaves(j)
        &&& self.grows_well(r)
    }

    /// Whether a part grows greedily in its turn.
    #[verifier::opaque]
    pub open spec fn grows_well(self, r: Round) -> bool {
        self.greedy(r.left, r.lead, r.growth, trials_from(0, self.max_trials))
    }

    /// The turn of a part.
    proof fn lemma_turn(self, parts: Seq<Seq<usize>>, i: int, m: PartitionModel) -> (g: Growth)
        requires
            self.staged.wf(&self.aig),
            self.parts_exist(parts),
            0 <= i < parts.len() <= usize::MAX,
            self.build(parts[i]) == Some(m),
            m.stages.len() <= self.stage_limit,
        ensures
            ({
                let r = Round { lead: i, left: parts, growth: g };
                let (next, p) = self.grow(parts, i, Set::empty(), m);
                &&& self.grows_well(r)
                &&& next.len() == parts.len()
                &&& self.build(r.all()) == Some(p)
                &&& forall|j: int| i < j < parts.len() ==> #[trigger] next[j] == r.leaves(j)
                &&& self.parts_exist(next)
            }),
    {
        self.law_grow(parts, i, Set::empty(), m);
        let g = self.law_grows_greedily(parts, i, m);
        let next = self.grow(parts, i, Set::empty(), m).0;
        reveal(Search::grows_well);
        assert forall|t: int| 0 <= t < g.ids.len() implies 0 <= #[trigger] g.ids[t] < parts.len() by {
            assert(self.well_made(parts, i, g, t, trials_from(0, self.max_trials)));
        }
        self.lemma_grown_exist(parts, i, g, next);
        g
    }

    /// Refining takes the parts in turn: each part that is left when its turn comes grows
    /// greedily, and its partition is that of all its endpoints; in the end no part is left.
    pub proof fn law_refines_greedily(
        self,
        parts: Seq<Seq<usize>>,
        orig: Seq<PartitionModel>,
        i: int,
    ) -> (rounds: Seq<Round>)
        requires
            self.staged.wf(&self.aig),
            self.parts_exist(parts),
            0 <= i,
            parts.len() == orig.len(),
            parts.len() <= usize::MAX,
            forall|j: int|
                i <= j < parts.len() && (#[trigger] parts[j]).len() > 0 ==> self.build(parts[j])
                    == Some(orig[j]) && orig[j].stages.len() <= self.stage_limit,
        ensures
            rounds.len() == self.refine(parts, orig, i).len(),
            forall|k: int| 0 <= k < rounds.len() ==> #[trigger] self.round_at(parts, i, rounds, k),
            forall|k: int|
                0 <= k < rounds.len() ==> self.build((#[trigger] rounds[k]).all()) == Some(
                    self.refine(parts, orig, i)[k],
                ),
            rounds.len() == 0 ==> forall|j: int| i <= j < parts.len() ==> (#[trigger] parts[j]).len() == 0,
            rounds.len() > 0 ==> forall|j: int|
                rounds.last().lead < j < parts.len() ==> (#[trigger] rounds.last().leaves(j)).len()
                    == 0,
        decreases orig.len() - i,
    {
        if i >= orig.len() {
            Seq::empty()
        } else if parts[i].len() == 0 {
            let rounds = self.law_refines_greedily(parts, orig, i + 1);
            self.lemma_earlier_lead(parts, i, rounds);
            rounds
        } else {
            assert(self.build(parts[i]) == Some(orig[i]));
            let g = self.lemma_turn(parts, i, orig[i]);
            let (next, m) = self.grow(parts, i, Set::empty(), orig[i]);
            let first = Round { lead: i, left: parts, growth: g };
            assert forall|j: int| i + 1 <= j < next.len() && (#[trigger] next[j]).len()
                > 0 implies self.build(next[j]) == Some(orig[j]) && orig[j].stages.len()
                <= self.stage_limit by {
                assert(next[j] == first.leaves(j));
                assert(parts[j].len() > 0);
            }
            let tail = self.law_refines_greedily(next, orig, i + 1);
            let rest = self.refine(next, orig, i + 1);
            assert(self.refine(parts, orig, i) == seq![m] + rest);
            self.lemma_rounds_joined(parts, next, i, first, tail, m, rest);
            seq![first] + tail
        }
    }

    proof fn lemma_rounds_joined(
        self,
        parts: Seq<Seq<usize>>,
        next: Seq<Seq<usize>>,
        i: int,
        first: Round,
        tail: Seq<Round>,
        m: PartitionModel,
        rest: Seq<PartitionModel>,
    )
        requires
            0 <= i < parts.len(),
            next.len() == parts.len(),
            parts[i].len() > 0,
            first.lead == i,
            first.left == parts,
            self.grows_well(first),
            self.build(first.all()) == Some(m),
            forall|j: int| i < j < parts.len() ==> #[trigger] next[j] == first.leaves(j),
            tail.len() == rest.len(),
            forall|k: int| 0 <= k < tail.len() ==> #[trigger] self.round_at(next, i + 1, tail, k),
            forall|k: int|
                0 <= k < tail.len() ==> self.build((#[trigger] tail[k]).all()) == Some(rest[k]),
            tail.len() == 0 ==> forall|j: int|
                i + 1 <= j < next.len() ==> (#[trigger] next[j]).len() == 0,
            tail.len() > 0 ==> forall|j: int|
                tail.last().lead < j < next.len() ==> (#[trigger] tail.last().leaves(j)).len() == 0,
        ensures
            ({
                let rounds = seq![first] + tail;
                let r = seq![m] + rest;
                &&& forall|k: int|
                    0 <= k < rounds.len() ==> #[trigger] self.round_at(parts, i, rounds, k)
                &&& forall|k: int|
                    0 <= k < rounds.len() ==> self.build((#[trigger] rounds[k]).all()) == Some(r[k])
                &&& forall|j: int|
                    rounds.last().lead < j < parts.len() ==> (#[trigger] rounds.last().leaves(
                        j,
                    )).len() == 0
            }),
    {
        let rounds = seq![first] + tail;
        let r = seq![m] + rest;
        assert(rounds[0] == first);
        assert(self.round_at(parts, i, rounds, 0));
        assert forall|k: int| 0 <= k < rounds.len() implies #[trigger] self.round_at(
            parts,
            i,
            rounds,
            k,
        ) by {
            if k > 0 {
                assert(self.round_at(next, i + 1, tail, k - 1));
                self.lemma_later_round(parts, next, i, first, tail, k);
            }
        }
        assert forall|k: int| 0 <= k < rounds.len() implies self.build((#[trigger] rounds[k]).all())
            == Some(r[k]) by {
            if k > 0 {
                assert(rounds[k] == tail[k - 1]);
                assert(r[k] == rest[k - 1]);
            }
        }
        if tail.len() == 0 {
            assert(rounds.last() == first);
            assert forall|j: int| i < j < parts.len() implies (#[trigger] first.leaves(j)).len()
                == 0 by {
                assert(next[j].len() == 0);
            }
        } else {
            assert(rounds.last() == tail.last());
        }
    }

    proof fn lemma_earlier_lead(self, parts: Seq<Seq<usize>>, i: int, rounds: Seq<Round>)
        requires
            0 <= i < parts.len(),
            parts[i].len() == 0,
            forall|k: int|
                0 <= k < rounds.len() ==> #[trigger] self.round_at(parts, i + 1, rounds, k),
        ensures
            forall|k: int| 0 <= k < rounds.len() ==> #[trigger] self.round_at(parts, i, rounds, k),
    {
        assert forall|k: int| 0 <= k < rounds.len() implies #[trigger] self.round_at(
            parts,
            i,
            rounds,
            k,
        ) by {
            assert(self.round_at(parts, i + 1, rounds, k));
        }
    }

    proof fn lemma_later_round(
        self,
        parts: Seq<Seq<usize>>,
        next: Seq<Seq<usize>>,
        i: int,
        first: Round,
        tail: Seq<Round>,
        k: int,
    )
        requires
            0 < k <= tail.len(),
            next.len() == parts.len(),
            self.round_at(next, i + 1, tail, k - 1),
            first.lead == i,
            forall|j: int| i < j < parts.len() ==> #[trigger] next[j] == first.leaves(j),
        ensures
            self.round_at(parts, i, seq![first] + tail, k),
    {
        let rounds = seq![first] + tail;
        let r = tail[k - 1];
        assert(rounds[k] == r);
        if k == 1 {
            assert(rounds[0] == first);
            assert forall|j: int| i + 1 <= j < parts.len() implies #[trigger] r.left[j]
                == first.leaves(j) by {
                assert(next[j] == first.leaves(j));
            }
        } else {
            assert(rounds[k - 1] == tail[k - 2]);
        }
    }

    /// The parts after a turn have endpoints that exist.
    proof fn lemma_grown_exist(
        self,
        parts: Seq<Seq<usize>>,
        i: int,
        g: Growth,
        next: Seq<Seq<usize>>,
    )
        requires
            self.parts_exist(parts),
            0 <= i < parts.len(),
            next.len() == parts.len(),
            forall|t: int|
                0 <= t < g.ids.len() ==> 0 <= #[trigger] g.ids[t] < parts.len(),
            next[i] == g.grown(parts, i, g.ids.len() as int),
            forall|j: int|
                0 <= j < parts.len() && j != i ==> (#[trigger] next[j] == parts[j] || next[j].len()
                    == 0),
        ensures
            self.parts_exist(next),
    {
        let n = g.ids.len() as int;
        assert(g.ids.take(n) =~= g.ids);
        self.lemma_concat_exist(parts, g.ids);
        let c = concat(parts, g.ids);
        assert forall|a: int, b: int| 0 <= a < next.len() && 0 <= b < next[a].len() implies (
        #[trigger] next[a][b]) < self.staged.group_count() by {
            if a == i {
                if b < parts[i].len() {
                    assert(next[a][b] == parts[i][b]);
                } else {
                    assert(next[a][b] == c[b - parts[i].len()]);
                }
            } else {
                assert(next[a][b] == parts[a][b]);
            }
        }
    }

    proof fn lemma_concat_exist(self, parts: Seq<Seq<usize>>, ids: Seq<int>)
        requires
            self.parts_exist(parts),
            forall|t: int| 0 <= t < ids.len() ==> 0 <= #[trigger] ids[t] < parts.len(),
        ensures
            forall|k: int|
                0 <= k < concat(parts, ids).len() ==> #[trigger] concat(parts, ids)[k]
                    < self.staged.group_count(),
        decreases ids.len(),
    {
        if ids.len() > 0 {
            let front = ids.drop_last();
            assert forall|t: int| 0 <= t < front.len() implies 0 <= #[trigger] front[t]
                < parts.len() by {
                assert(front[t] == ids[t]);
            }
            self.lemma_concat_exist(parts, front);
            let a = concat(parts, front);
            let j = ids.last();
            assert(ids[ids.len() - 1] == j);
            assert forall|k: int| 0 <= k < concat(parts, ids).len() implies #[trigger] concat(
                parts,
                ids,
            )[k] < self.staged.group_count() by {
                if k >= a.len() {
                    assert(concat(parts, ids)[k] == parts[j][k - a.len()]);
                } else {
                    assert(concat(parts, ids)[k] == a[k]);
                }
            }
        }
    }
}

/// The largest number of stages of a partition is one that no partition exceeds and that one of
/// them has.
proof fn lemma_most_stages_is(s: Seq<PartitionModel>)
    ensures
        forall|k: int| 0 <= k < s.len() ==> (#[trigger] s[k]).stages.len() <= most_stages(s),
        s.len() > 0 ==> exists|k: int|
            0 <= k < s.len() && (#[trigger] s[k]).stages.len() == most_stages(s),
    decreases s.len(),
{
    if s.len() > 0 {
        let front = s.drop_last();
        lemma_most_stages_is(front);
        let n = s.len() - 1;
        assert forall|k: int| 0 <= k < s.len() implies (#[trigger] s[k]).stages.len()
            <= most_stages(s) by {
            if k < n {
                assert(front[k] == s[k]);
            }
        }
        if s[n].stages.len() != most_stages(s) {
            assert(front.len() > 0);
            let k = choose|k: int|
                0 <= k < front.len() && (#[trigger] front[k]).stages.len() == most_stages(front);
            assert(s[k].stages.len() == most_stages(s));
        }
    }
}

/// What the search for merges goes by: a merged partition can have `max_stage_degrad` stages more
/// than the part with most stages has, and no further group of merges is tried if more than 20
/// have been, or more than an eighth of the number of parts if that is more.
pub proof fn law_search(
    aig: &AIG,
    staged: &StagedAIG,
    parts: Seq<Seq<usize>>,
    max_stage_degrad: nat,
    num_stages: usize,
)
    requires
        parts.len() > 0,
        forall|k: int|
            0 <= k < parts.len() ==> built(aig, staged, #[trigger] parts[k], num_stages) is Some,
    ensures
        ({
            let s = search(aig, staged, parts, max_stage_degrad, num_stages);
            &&& s.aig == *aig
            &&& s.staged == *staged
            &&& s.num_stages == num_stages
            &&& s.max_trials == if parts.len() >= 168 {
                parts.len() as int / 8
            } else {
                20
            }
            &&& forall|k: int|
                0 <= k < parts.len() ==> built(
                    aig,
                    staged,
                    #[trigger] parts[k],
                    num_stages,
                ).unwrap().stages.len() + max_stage_degrad <= s.stage_limit
            &&& exists|k: int|
                0 <= k < parts.len() && built(
                    aig,
                    staged,
                    #[trigger] parts[k],
                    num_stages,
                ).unwrap().stages.len() + max_stage_degrad == s.stage_limit
        }),
{
    let orig = original(aig, staged, parts, num_stages);
    lemma_most_stages_is(orig);
    let s = search(aig, staged, parts, max_stage_degrad, num_stages);
    assert forall|k: int| 0 <= k < parts.len() implies built(
        aig,
        staged,
        #[trigger] parts[k],
        num_stages,
    ).unwrap().stages.len() + max_stage_degrad <= s.stage_limit by {
        assert(orig[k].stages.len() <= most_stages(orig));
    }
    let k = choose|k: int|
        0 <= k < orig.len() && (#[trigger] orig[k]).stages.len() == most_stages(orig);
    assert(built(aig, staged, parts[k], num_stages).unwrap().stages.len() + max_stage_degrad
        == s.stage_limit);
}

/// Processing parts gives nothing if one of them cannot be built. Otherwise each part that is left
/// when its turn comes grows greedily, and what comes out are the partitions of the parts after
/// their turns, sorted by their numbers of stages.
pub proof fn law_processed_greedily(
    aig: &AIG,
    staged: &StagedAIG,
    parts: Seq<Seq<usize>>,
    max_stage_degrad: nat,
    num_stages: usize,
) -> (r: (Seq<Round>, Seq<PartitionModel>))
    requires
        staged.wf(aig),
        parts.len() <= usize::MAX,
        forall|j: int, k: int|
            0 <= j < parts.len() && 0 <= k < parts[j].len() ==> (#[trigger] parts[j][k])
                < staged.group_count(),
    ensures
        (exists|k: int|
            0 <= k < parts.len() && built(aig, staged, #[trigger] parts[k], num_stages) is None)
            ==> processed(aig, staged, parts, max_stage_degrad, num_stages) is None,
        (forall|k: int|
            0 <= k < parts.len() ==> built(aig, staged, #[trigger] parts[k], num_stages) is Some)
            ==> {
            let (rounds, ms) = r;
            let s = search(aig, staged, parts, max_stage_degrad, num_stages);
            &&& processed(aig, staged, parts, max_stage_degrad, num_stages) == Some(
                sorted_by_stages(ms),
            )
            &&& rounds.len() == ms.len()
            &&& forall|k: int| 0 <= k < rounds.len() ==> #[trigger] s.round_at(parts, 0, rounds, k)
            &&& forall|k: int|
                0 <= k < rounds.len() ==> built(
                    aig,
                    staged,
                    (#[trigger] rounds[k]).all(),
                    num_stages,
                ) == Some(ms[k])
            &&& rounds.len() == 0 ==> forall|j: int|
                0 <= j < parts.len() ==> (#[trigger] parts[j]).len() == 0
            &&& rounds.len() > 0 ==> forall|j: int|
                rounds.last().lead < j < parts.len() ==> (#[trigger] rounds.last().leaves(j)).len()
                    == 0
        },
{
    let s = search(aig, staged, parts, max_stage_degrad, num_stages);
    let orig = original(aig, staged, parts, num_stages);
    if forall|k: int|
        0 <= k < parts.len() ==> built(aig, staged, #[trigger] parts[k], num_stages) is Some {
        assert forall|j: int| 0 <= j < parts.len() && (#[trigger] parts[j]).len() > 0 implies s.build(
            parts[j],
        ) == Some(orig[j]) && orig[j].stages.len() <= s.stage_limit by {
            lemma_most_stages_at(orig, j);
        }
        (s.law_refines_greedily(parts, orig, 0), s.refine(parts, orig, 0))
    } else {
        (Seq::empty(), Seq::empty())
    }
}

impl Search {
    /// If all concatenations of parts fit, the first part takes in all others.
    proof fn lemma_takes_all(self, parts: Seq<Seq<usize>>, i: int, m: PartitionModel)
        requires
            self.staged.wf(&self.aig),
            self.parts_exist(parts),
            0 <= i < parts.len() <= usize::MAX,
            forall|ids: Seq<int>|
                some_of(parts, seq![i] + ids) ==> #[trigger] self.fits(
                    parts[i] + concat(parts, ids),
                ),
        ensures
            ({
                let next = self.grow(parts, i, Set::empty(), m).0;
                &&& next.len() == parts.len()
                &&& forall|j: int| i < j < parts.len() ==> (#[trigger] next[j]).len() == 0
            }),
    {
        let g = self.law_grows_greedily(parts, i, m);
        let next = self.grow(parts, i, Set::empty(), m).0;
        let n = g.ids.len() as int;
        let trials = trials_from(0, self.max_trials);
        let k = law_trials(self.max_trials);
        assert forall|t: int| 0 <= t <= n implies (#[trigger] g.failed[t]).len() == 0 by {
            if g.failed[t].len() > 0 {
                if t < n {
                    assert(self.well_made(parts, i, g, t, trials));
                }
                let j = g.failed[t][0];
                let ids = g.ids.take(t).push(j);
                assert(self.tried_in_vain(parts, i, g, t));
                self.lemma_distinct_ids(parts, i, g, t, j);
                assert(ids.drop_last() =~= g.ids.take(t));
                assert(g.grown(parts, i, t) + parts[j] =~= parts[i] + concat(parts, ids));
                assert(self.fits(parts[i] + concat(parts, ids)));
            }
        }
        assert(trials > 0);
        assert forall|j: int| i < j < parts.len() implies (#[trigger] next[j]).len() == 0 by {
            if next[j].len() > 0 {
                assert(!g.ids.contains(j));
                assert(g.ids.take(n) =~= g.ids);
                if g.given_up(n, j) {
                    let t = choose|t: int| 0 <= t < n && (#[trigger] g.failed[t]).contains(j);
                    assert(g.failed[t].len() == 0);
                }
                assert(g.open(parts, i, n, j));
                assert(g.failed[n].len() == 0);
                assert(g.failed[n].contains(j));
            }
        }
    }

    /// The parts that are merged are different parts.
    proof fn lemma_distinct_ids(self, parts: Seq<Seq<usize>>, i: int, g: Growth, t: int, j: int)
        requires
            0 <= i < parts.len(),
            self.greedy_upto(parts, i, g, trials_from(0, self.max_trials)),
            0 <= t <= g.ids.len(),
            g.open(parts, i, t, j),
        ensures
            some_of(parts, seq![i] + g.ids.take(t).push(j)),
    {
        let trials = trials_from(0, self.max_trials);
        let ids = g.ids.take(t).push(j);
        let all = seq![i] + ids;
        assert forall|a: int| 0 <= a < t implies g.open(parts, i, a, #[trigger] g.ids[a]) by {
            assert(self.well_made(parts, i, g, a, trials));
        }
        assert forall|a: int| 0 <= a < ids.len() implies i < #[trigger] ids[a] < parts.len() by {
            if a < t {
                assert(ids[a] == g.ids[a]);
            }
        }
        assert forall|a: int, b: int| 0 <= a < b < ids.len() implies ids[a] != ids[b] by {
            assert(ids[a] == g.ids[a]);
            if b < t {
                assert(ids[b] == g.ids[b]);
                assert(g.open(parts, i, b, g.ids[b]));
                assert(g.ids.take(b)[a] == g.ids[a]);
                assert(g.ids.take(b).contains(g.ids[a]));
            } else {
                assert(g.ids.take(t)[a] == g.ids[a]);
                assert(g.ids.take(t).contains(g.ids[a]));
            }
        }
        assert forall|a: int, b: int| 0 <= a < b < all.len() implies all[a] != all[b] by {
            assert(all[b] == ids[b - 1]);
            if a > 0 {
                assert(all[a] == ids[a - 1]);
            }
        }
        assert forall|a: int| 0 <= a < all.len() implies 0 <= #[trigger] all[a] < parts.len() by {
            if a > 0 {
                assert(all[a] == ids[a - 1]);
            }
        }
    }

    proof fn lemma_refine_empty(self, parts: Seq<Seq<usize>>, orig: Seq<PartitionModel>, i: int)
        requires
            0 <= i,
            parts.len() == orig.len(),
            forall|j: int| i <= j < parts.len() ==> (#[trigger] parts[j]).len() == 0,
        ensures
            self.refine(parts, orig, i).len() == 0,
        decreases orig.len() - i,
    {
        if i < orig.len() {
            assert(parts[i].len() == 0);
            self.lemma_refine_empty(parts, orig, i + 1);
        }
    }

    proof fn lemma_refine_one(self, parts: Seq<Seq<usize>>, orig: Seq<PartitionModel>, i: int)
        requires
            self.staged.wf(&self.aig),
            self.parts_exist(parts),
            0 <= i,
            parts.len() == orig.len(),
            parts.len() <= usize::MAX,
            exists|j: int| i <= j < parts.len() && (#[trigger] parts[j]).len() > 0,
            forall|ids: Seq<int>|
                some_of(parts, ids) && ids.len() > 0 ==> #[trigger] self.fits(concat(parts, ids)),
        ensures
            self.refine(parts, orig, i).len() == 1,
        decreases orig.len() - i,
    {
        if parts[i].len() == 0 {
            self.lemma_refine_one(parts, orig, i + 1);
        } else {
            assert forall|ids: Seq<int>| some_of(parts, seq![i] + ids) implies #[trigger] self.fits(
                parts[i] + concat(parts, ids),
            ) by {
                let all = seq![i] + ids;
                lemma_concat_front(parts, i, ids);
                assert(self.fits(concat(parts, all)));
            }
            self.lemma_takes_all(parts, i, orig[i]);
            let next = self.grow(parts, i, Set::empty(), orig[i]).0;
            self.lemma_refine_empty(next, orig, i + 1);
        }
    }
}

/// Whether numbers are those of different parts.
pub open spec fn some_of(parts: Seq<Seq<usize>>, ids: Seq<int>) -> bool {
    &&& ids.no_duplicates()
    &&& forall|t: int| 0 <= t < ids.len() ==> 0 <= #[trigger] ids[t] < parts.len()
}

proof fn lemma_concat_front(parts: Seq<Seq<usize>>, i: int, ids: Seq<int>)
    ensures
        concat(parts, seq![i] + ids) == parts[i] + concat(parts, ids),
    decreases ids.len(),
{
    let all = seq![i] + ids;
    if ids.len() == 0 {
        assert(all =~= seq![i]);
        assert(all.drop_last() =~= Seq::<int>::empty());
        assert(concat(parts, all.drop_last()) =~= Seq::<usize>::empty());
        assert(concat(parts, all) =~= parts[i]);
        assert(parts[i] + concat(parts, ids) =~= parts[i]);
    } else {
        lemma_concat_front(parts, i, ids.drop_last());
        assert(all.drop_last() =~= seq![i] + ids.drop_last());
        assert(all.last() == ids.last());
        assert(concat(parts, all) =~= parts[i] + concat(parts, ids));
    }
}

/// If the parts fit together in every order, whichever of them are taken, they are all merged into
/// a single partition. To fit is to be built with at most `limit` stages, the number that the worst
/// part has and `max_stage_degrad` more.
pub proof fn law_all_merged(
    aig: &AIG,
    staged: &StagedAIG,
    parts: Seq<Seq<usize>>,
    max_stage_degrad: nat,
    num_stages: usize,
    limit: nat,
)
    requires
        staged.wf(aig),
        parts.len() <= usize::MAX,
        forall|j: int, k: int|
            0 <= j < parts.len() && 0 <= k < parts[j].len() ==> (#[trigger] parts[j][k])
                < staged.group_count(),
        exists|j: int| 0 <= j < parts.len() && (#[trigger] parts[j]).len() > 0,
        forall|k: int|
            0 <= k < parts.len() ==> built(aig, staged, #[trigger] parts[k], num_stages) is Some,
        exists|k: int|
            0 <= k < parts.len() && built(
                aig,
                staged,
                #[trigger] parts[k],
                num_stages,
            ).unwrap().stages.len() + max_stage_degrad == limit,
        forall|ids: Seq<int>|
            some_of(parts, ids) && ids.len() > 0 ==> (built(
                aig,
                staged,
                #[trigger] concat(parts, ids),
                num_stages,
            ) matches Some(m) && m.stages.len() <= limit),
    ensures
        processed(aig, staged, parts, max_stage_degrad, num_stages) matches Some(ms) && ms.len() == 1,
{
    let s = search(aig, staged, parts, max_stage_degrad, num_stages);
    let orig = original(aig, staged, parts, num_stages);
    law_search(aig, staged, parts, max_stage_degrad, num_stages);
    assert forall|ids: Seq<int>| some_of(parts, ids) && ids.len() > 0 implies #[trigger] s.fits(
        concat(parts, ids),
    ) by {}
    s.lemma_refine_one(parts, orig, 0);
    law_sorted_by_stages(s.refine(parts, orig, 0));
}

} // verus!
