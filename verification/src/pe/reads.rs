//! What stages read and write: the pins in row 0 of their hierarchies, where those come
//! from, and which words are written out.
use crate::aig::{pin_of, DriverType, AIG};
use crate::index_set::{lemma_inserted, opt_elems};
use crate::pe::hier::{
    count_in, extends, lemma_extends_placed, lemma_placed_at, lemma_rooted_slot, placed, taken,
    Cone, Hier, FREE,
};
use crate::pe::laws::written;
use crate::pe::partition::{
    buildable, built, law_built, lemma_buildable, lemma_read_pins, output_dups, read_pins,
    realization, reserved_words, sram_count, word_total, Realization,
};
use crate::pe::plan::{
    free_hier, groups, lemma_free_hier, lemma_groups, lemma_stages_fit, max_writeouts,
    stages_fit, words_below, words_in_row, Fill, StageModel, Store, CROWDED, WORD,
};
use crate::staging::split::{lemma_filter_distinct, lemma_filter_member};
use crate::staging::StagedAIG;
use vstd::arithmetic::power2::{lemma_pow2_strictly_increases, lemma_pow2_unfold, pow2};
use vstd::prelude::*;
use vstd::set_lib::{lemma_int_range, lemma_len_subset, set_int_range};

verus! {

/// Whether no gate has a constant input.
pub open spec fn no_constants(aig: AIG) -> bool {
    forall|i: int|
        0 <= i < aig.drivers@.len() ==> match #[trigger] aig.drivers@[i] {
            DriverType::AndGate(a, b) => a >= 2 && b >= 2,
            _ => true,
        }
}

impl Cone {
    /// Whether a pin of level 0 is available or not a gate, and is there to be read.
    pub open spec fn readable(self, x: usize) -> bool {
        &&& self.order().contains(x)
        &&& self.level(x) == 0
        &&& self.avail.contains(x) || !(self.aig.drivers@[x as int] is AndGate)
    }

    /// Row 0 of a stage holds only pins that are available before it, or that are not
    /// gates.
    pub proof fn law_row_0(self, stages: usize, reserved: nat, total: nat)
        requires
            self.wf(),
            stages_fit(stages),
            self.placeable(stages as int),
            no_constants(self.aig),
        ensures
            self.build(stages as nat, reserved, total).stage matches Some(m) ==> forall|j: int|
                0 <= j < m.hier[0].len() && #[trigger] m.hier[0][j] != FREE ==> self.readable(
                    m.hier[0][j],
                ),
    {
        self.lemma_build(stages, total);
        if let Some(m) = self.build(stages as nat, reserved, total).stage {
            let g = m.hier;
            self.lemma_good(g, 1);
            let w = g[1].len() as int;
            assert(g[0].len() == 2 * w);
            assert forall|j: int| 0 <= j < g[0].len() && #[trigger] g[0][j]
                != FREE implies self.readable(g[0][j]) by {
                let i = if j < w {
                    j
                } else {
                    j - w
                };
                if g[1][i] == FREE {
                    lemma_rooted_slot(g, 1, 1, i);
                }
                assert(self.slot_ok(g, 1, i));
                let nd = g[1][i];
                self.lemma_sources(nd);
                assert(self.aig.drivers@[nd as int] == self.aig.drivers@[nd as int]);
                self.lemma_sources(g[0][j]);
            }
        }
    }

    /// Whether row 1 of a stage with hierarchy `h` would have to hold a pin that the
    /// stage does not compute: a gate on available pins, an endpoint that is available,
    /// or an available pin that a gate reads which the stage does not compute.
    pub open spec fn wanted(self, h: Hier, x: usize) -> bool {
        &&& self.order().contains(x)
        &&& !placed(h, x)
        &&& self.level(x) == 1 || (self.level(x) == 0 && (self.outs.contains(x) || exists|u: usize|
            self.order().contains(u) && !placed(h, u) && self.level(u) >= 2
                && #[trigger] self.aig.sources(self.avail, u).contains(x)))
    }

    /// Whether there is a number of steps to an endpoint for each endpoint and for each
    /// gate that still has to be computed.
    pub open spec fn complete(self, h: Hier, rl: Seq<Option<nat>>) -> bool {
        &&& rl.len() == self.order().len()
        &&& forall|q: int|
            0 <= q < rl.len() && (self.outs.contains(self.order()[q]) || (self.active(h, q)
                && self.level(self.order()[q]) >= 1)) ==> #[trigger] rl[q] is Some
    }

    proof fn lemma_complete(self, h: Hier, top: int)
        requires
            self.wf(),
            self.good(h, top),
        ensures
            self.complete(h, self.all_steps(h)),
    {
        let rl = self.all_steps(h);
        self.lemma_good(h, top);
        assert forall|q: int|
            0 <= q < rl.len() && (self.outs.contains(self.order()[q]) || (self.active(h, q)
                && self.level(self.order()[q]) >= 1)) implies #[trigger] rl[q] is Some by {
            if self.outs.contains(self.order()[q]) {
                self.lemma_steps_via(h, q, q + 1, q);
            } else {
                self.lemma_steps_some(h, q);
            }
        }
    }

    /// What row 1 would have to hold is necessary.
    proof fn lemma_wanted(self, h: Hier, rl: Seq<Option<nat>>, x: usize)
        requires
            self.wf(),
            self.complete(h, rl),
            self.wanted(h, x),
        ensures
            self.necessary(h, rl).contains(x),
    {
        let n = self.order().len() as int;
        self.lemma_sources(x);
        if self.level(x) == 1 || self.outs.contains(x) {
            let p = self.order().index_of(x);
            assert(rl[p] is Some);
            assert(self.needs(h, rl, p)[0] == x);
            self.lemma_needs_member(h, rl, p, x, n);
        } else {
            let u = choose|u: usize|
                self.order().contains(u) && !placed(h, u) && self.level(u) >= 2
                    && #[trigger] self.aig.sources(self.avail, u).contains(x);
            let p = self.order().index_of(u);
            self.lemma_sources(u);
            assert(self.active(h, p));
            assert(rl[p] is Some);
            match self.aig.drivers@[u as int] {
                DriverType::AndGate(a, b) => {
                    let s = self.aig.sources(self.avail, u);
                    assert(s.len() == 2 && s[0] == pin_of(a) && s[1] == pin_of(b));
                    let t = self.needs(h, rl, p);
                    if x == pin_of(a) {
                        assert(t[0] == x);
                    } else {
                        assert(x == pin_of(b));
                        assert(t[t.len() - 1] == x);
                    }
                    assert(t.contains(x));
                },
                _ => {},
            }
            self.lemma_needs_member(h, rl, p, x, n);
        }
    }

    /// The more is computed, the less is wanted.
    proof fn lemma_wanted_less(self, h: Hier, g: Hier, x: usize)
        requires
            self.wf(),
            extends(h, g),
            self.wanted(g, x),
        ensures
            self.wanted(h, x),
    {
        self.lemma_sources(x);
        if placed(h, x) {
            lemma_extends_placed(h, g, x);
        }
        if self.level(x) == 0 && !self.outs.contains(x) {
            let u = choose|u: usize|
                self.order().contains(u) && !placed(g, u) && self.level(u) >= 2
                    && #[trigger] self.aig.sources(self.avail, u).contains(x);
            self.lemma_sources(u);
            if placed(h, u) {
                lemma_extends_placed(h, g, u);
            }
            assert(self.aig.sources(self.avail, u).contains(x));
        }
    }

    /// Whether what is known while the rows from 2 on are filled is enough for row 1.
    pub open spec fn ready(self, st: Fill) -> bool {
        &&& self.complete(st.h, st.rl)
        &&& st.nec.len() > 0 ==> forall|x: usize| #[trigger]
            self.wanted(st.h, x) ==> st.nec.contains(x)
    }

    proof fn lemma_ready_step(self, h: Hier, st: Fill)
        requires
            self.wf(),
            self.filling(h, st),
            st.lvl >= 2,
            self.ready(st),
        ensures
            self.ready(self.fill_step(st)),
    {
        let next = self.fill_step(st);
        self.lemma_filling_step(h, st);
        assert forall|x: usize| #[trigger] self.wanted(next.h, x) implies self.wanted(
            st.h,
            x,
        ) by {
            self.lemma_wanted_less(st.h, next.h, x);
        }
        if next.rl == st.rl {
            assert forall|q: int|
                0 <= q < next.rl.len() && (self.outs.contains(self.order()[q]) || (self.active(
                    next.h,
                    q,
                ) && self.level(self.order()[q]) >= 1)) implies #[trigger] next.rl[q] is Some by {
                assert(self.order()[q] != FREE);
                if placed(st.h, self.order()[q]) {
                    lemma_extends_placed(st.h, next.h, self.order()[q]);
                }
                assert(st.rl[q] is Some);
            }
        } else {
            self.lemma_complete(next.h, next.lvl as int);
        }
        if next.nec != st.nec {
            self.lemma_complete(next.h, next.lvl as int);
            assert(next.rl == self.all_steps(next.h));
            assert(next.nec == self.necessary(next.h, next.rl));
            assert forall|x: usize| #[trigger] self.wanted(next.h, x) implies next.nec.contains(
                x,
            ) by {
                self.lemma_wanted(next.h, next.rl, x);
            }
        }
    }

    proof fn lemma_ready(self, h: Hier, st: Fill)
        requires
            self.wf(),
            self.filling(h, st),
            self.ready(st),
        ensures
            self.ready(self.fill(st)),
        decreases st.lvl, count_in(st.h[st.lvl as int], FREE),
    {
        if st.lvl >= 2 {
            self.lemma_ready_step(h, st);
            self.lemma_filling_step(h, st);
            self.lemma_fill_step(st);
            self.lemma_ready(h, self.fill_step(st));
        }
    }

    /// A stage leaves out nothing that its row 1 would have to hold: it computes every
    /// gate on available pins that an endpoint depends on, every endpoint that is
    /// available, and every available pin that a gate reads which it does not compute.
    pub proof fn law_nothing_wanted(self, stages: usize, reserved: nat, total: nat)
        requires
            self.wf(),
            stages_fit(stages),
            self.placeable(stages as int),
        ensures
            self.build(stages as nat, reserved, total).stage matches Some(m) ==> forall|x: usize|
                !#[trigger] self.wanted(m.hier, x),
    {
        let ns = stages as nat;
        let start = self.fill_start(ns);
        let free = free_hier(ns);
        self.lemma_build(stages, total);
        if let Some(m) = self.build(ns, reserved, total).stage {
            let st = self.fill(start);
            let nec = self.final_needs(st);
            let s = self.stored(st, total);
            let g = m.hier;
            lemma_stages_fit(stages);
            lemma_free_hier(ns);
            self.aig.lemma_topo(self.avail, self.outs);
            self.lemma_good_free(free, start.lvl as int);
            self.lemma_complete(free, start.lvl as int);
            assert(self.filling(free, start));
            self.lemma_ready(free, start);
            assert forall|x: usize| !#[trigger] self.wanted(g, x) by {
                if self.wanted(g, x) {
                    self.lemma_wanted_less(st.h, g, x);
                    if st.nec.len() == 0 {
                        self.lemma_wanted(st.h, st.rl, x);
                    }
                    let i = nec.index_of(x);
                    assert(placed(g, nec[i]) || s.done.contains(nec[i]));
                    self.lemma_sources(x);
                    if s.done.contains(x) {
                        let (hi, j) = choose|hi: int, j: int|
                            1 <= hi < s.h.len() && 0 <= j < s.h[hi].len() && #[trigger] s.h[hi][j]
                                == x && s.write_outs.contains(
                                ((j + s.h[hi].len()) / WORD as int) as usize,
                            );
                        lemma_placed_at(s.h, hi, j);
                        lemma_extends_placed(s.h, g, x);
                    }
                }
            }
        }
    }

    /// What the stage after a stage can read from its row 0 stands above row 0 of the
    /// stage.
    pub proof fn law_next_reads(self, stages: usize, reserved: nat, total: nat)
        requires
            self.wf(),
            stages_fit(stages),
            self.placeable(stages as int),
            no_constants(self.aig),
        ensures
            ({
                let r = self.build(stages as nat, reserved, total);
                let next = Cone { aig: self.aig, outs: r.outs, avail: r.avail };
                r.stage matches Some(m) ==> forall|x: usize| #[trigger]
                    next.readable(x) ==> placed(m.hier, x)
            }),
    {
        let r = self.build(stages as nat, reserved, total);
        let next = Cone { aig: self.aig, outs: r.outs, avail: r.avail };
        if let Some(m) = r.stage {
            let g = m.hier;
            self.law_nothing_wanted(stages, reserved, total);
            self.law_next_stage(stages, reserved, total);
            self.law_realized_written(stages, reserved, total);
            self.law_available(stages, reserved, total);
            assert forall|x: usize| #[trigger] self.avail.contains(x) implies r.avail.contains(x) by {}
            self.aig.lemma_topo(self.avail, self.outs);
            self.aig.lemma_topo(r.avail, r.outs);
            self.aig.lemma_topo_mono(self.avail, self.outs, r.avail, r.outs);
            assert forall|x: usize| #[trigger] next.readable(x) implies placed(g, x) by {
                if !placed(g, x) {
                    let t = next.order();
                    let p = t.index_of(x);
                    self.lemma_sources(x);
                    next.lemma_sources(x);
                    assert(self.aig.drivers@[x as int] == self.aig.drivers@[x as int]);
                    assert(self.level(x) == 0);
                    assert(t[p] == x);
                    if r.outs.contains(x) {
                        assert(self.wanted(g, x));
                    } else {
                        let q = choose|q: int|
                            p < q < t.len() && self.aig.sources(r.avail, #[trigger] t[q]).contains(
                                t[p],
                            );
                        let u = t[q];
                        assert(t.contains(u));
                        self.lemma_sources(u);
                        assert(!r.avail.contains(u));
                        assert(!placed(g, u));
                        assert(self.aig.drivers@[u as int] == self.aig.drivers@[u as int]);
                        assert(self.aig.sources(self.avail, u) == self.aig.sources(r.avail, u));
                        if self.level(u) == 1 {
                            assert(self.wanted(g, u));
                        }
                        assert(self.level(u) >= 2);
                        assert(self.wanted(g, x));
                    }
                }
            }
        }
    }
}

/// The words that slots of a row stand in are below the number of words.
proof fn lemma_row_words(
    words: Seq<usize>,
    row: Seq<usize>,
    pins: Seq<usize>,
    done: Seq<usize>,
    k: int,
    limit: nat,
)
    requires
        0 <= k <= row.len(),
        2 * row.len() <= limit * 32,
        limit <= usize::MAX,
        forall|w: usize| #[trigger] words.contains(w) ==> w < limit,
    ensures
        forall|w: usize| #[trigger]
            words_in_row(words, row, pins, done, k).contains(w) ==> w < limit,
    decreases k,
{
    if k > 0 {
        lemma_row_words(words, row, pins, done, k - 1, limit);
        lemma_inserted(
            words_in_row(words, row, pins, done, k - 1),
            ((k - 1 + row.len()) / WORD as int) as usize,
        );
    }
}

proof fn lemma_below_words(h: Hier, pins: Seq<usize>, done: Seq<usize>, hi: int, limit: nat)
    requires
        hi <= h.len(),
        limit <= usize::MAX,
        forall|k: int| 1 <= k < h.len() ==> 2 * (#[trigger] h[k]).len() <= limit * 32,
    ensures
        forall|w: usize| #[trigger] words_below(h, pins, done, hi).contains(w) ==> w < limit,
    decreases hi,
{
    if hi > 1 {
        lemma_below_words(h, pins, done, hi - 1, limit);
        lemma_row_words(
            words_below(h, pins, done, hi - 1),
            h[hi - 1],
            pins,
            done,
            h[hi - 1].len() as int,
            limit,
        );
    }
}

impl Cone {
    proof fn lemma_store_words(
        self,
        h: Hier,
        s: Store,
        low: Seq<usize>,
        all: bool,
        gs: Seq<(u8, usize)>,
        g: int,
        limit: nat,
    )
        requires
            self.wf(),
            self.storable(low),
            self.storing(h, s, low),
            h.len() >= 2,
            0 <= g <= gs.len(),
            2 * h[1].len() <= limit * 32,
            limit <= usize::MAX,
            forall|k: int|
                0 <= k < gs.len() ==> (#[trigger] gs[k]).1 + WORD <= h[1].len() && gs[k].0 < CROWDED,
            forall|i: int| 0 <= i < s.write_outs.len() ==> #[trigger] s.write_outs[i] < limit,
        ensures
            ({
                let t = self.store(s, low, all, gs, g);
                forall|i: int| 0 <= i < t.write_outs.len() ==> #[trigger] t.write_outs[i] < limit
            }),
        decreases gs.len() - g,
    {
        if g < gs.len() && (all || low.len() - s.next >= WORD - gs[g].0) {
            let start = gs[g].1;
            let c = self.store_group(s, low, start);
            self.lemma_store_slots(h, s, low, start as int, WORD as int);
            assert(h[1].len() == s.h[1].len());
            assert(c.write_outs == s.write_outs.push(
                ((start + h[1].len()) / WORD as int) as usize,
            ));
            self.lemma_store_words(h, c, low, all, gs, g + 1, limit);
            assert(self.store(s, low, all, gs, g) == self.store(c, low, all, gs, g + 1));
        } else {
            assert(self.store(s, low, all, gs, g) == s);
        }
    }

    /// Every word that a stage writes out is one of the words of its hierarchy.
    pub proof fn law_words_small(self, stages: usize, reserved: nat, total: nat)
        requires
            self.wf(),
            stages_fit(stages),
            self.placeable(stages as int),
        ensures
            self.build(stages as nat, reserved, total).stage matches Some(m) ==> forall|i: int|
                0 <= i < m.write_outs.len() ==> #[trigger] m.write_outs[i] < pow2(
                    (stages - 5) as nat,
                ),
    {
        let ns = stages as nat;
        let limit = max_writeouts(ns);
        self.lemma_build(stages, total);
        if let Some(m) = self.build(ns, reserved, total).stage {
            let free = free_hier(ns);
            let st = self.fill(self.fill_start(ns));
            let nec = self.final_needs(st);
            let low = self.low(st.h, nec);
            let s = self.stored(st, total);
            let g = m.hier;
            lemma_stages_fit(stages);
            lemma_free_hier(ns);
            lemma_pow2_unfold(ns);
            assert forall|k: int| 1 <= k < g.len() implies 2 * (#[trigger] g[k]).len() <= limit
                * 32 by {
                assert(free[k].len() == g[k].len());
                if k > 1 {
                    lemma_pow2_strictly_increases((ns - k) as nat, (ns - 1) as nat);
                }
            }
            assert(free[1].len() == st.h[1].len());
            self.lemma_low(st.h, nec);
            lemma_groups(st.h[1]);
            self.lemma_good(st.h, 1);
            let s0 = Store {
                h: st.h,
                next: 0,
                done: Seq::empty(),
                write_outs: Seq::empty(),
                total,
            };
            assert(self.storing(st.h, s0, low));
            self.lemma_store_words(
                st.h,
                s0,
                low,
                self.untouched(st.h, nec).len() == 0,
                groups(st.h[1]),
                0,
                limit,
            );
            let extra = words_below(g, self.inside(st.h), s.done, g.len() as int);
            lemma_below_words(g, self.inside(st.h), s.done, g.len() as int, limit);
            assert forall|i: int| 0 <= i < m.write_outs.len() implies #[trigger] m.write_outs[i]
                < limit by {
                if i >= s.write_outs.len() {
                    assert(extra.contains(extra[i - s.write_outs.len()]));
                } else {
                    assert(m.write_outs[i] == s.write_outs[i]);
                }
            }
        }
    }
}

impl Realization {
    /// Stage `i` is the one that is built after `i` stages.
    proof fn lemma_stage_at(self, k: nat, i: nat)
        requires
            self.wf(),
            self.start.stages.len() == 0,
            self.after(k) is Some,
            i < k,
        ensures
            self.after(i) is Some,
            self.after(i + 1) is Some,
            self.cone(self.after(i).unwrap()).wf(),
            self.cone(self.after(i).unwrap()).placeable(self.stages as int),
            self.after(i).unwrap().outs.len() > 0,
            self.after(k).unwrap().stages.len() == k,
            ({
                let p = self.after(i).unwrap();
                self.cone(p).build(self.stages as nat, self.reserved, p.total).stage == Some(
                    self.after(k).unwrap().stages[i as int],
                )
            }),
        decreases k,
    {
        self.lemma_after(k);
        self.lemma_after((k - 1) as nat);
        if i < k - 1 {
            self.lemma_stage_at((k - 1) as nat, i);
        }
    }

    /// The first stage reads pins that are available from the start or are not gates;
    /// every other stage reads only pins that stand above row 0 of the stage just before
    /// it.
    pub proof fn law_reads_from_before(self, k: nat)
        requires
            self.wf(),
            self.start.stages.len() == 0,
            no_constants(self.aig),
        ensures
            self.after(k) matches Some(p) ==> {
                &&& k > 0 ==> forall|j: int|
                    0 <= j < p.stages[0].hier[0].len() && #[trigger] p.stages[0].hier[0][j] != FREE
                        ==> self.cone(self.start).readable(p.stages[0].hier[0][j])
                &&& forall|i: int, j: int|
                    1 <= i < k && 0 <= j < p.stages[i].hier[0].len()
                        && #[trigger] p.stages[i].hier[0][j] != FREE ==> placed(
                        p.stages[i - 1].hier,
                        p.stages[i].hier[0][j],
                    )
            },
    {
        if let Some(p) = self.after(k) {
            if k > 0 {
                self.lemma_stage_at(k, 0);
                self.cone(self.start).law_row_0(self.stages, self.reserved, self.start.total);
            }
            assert forall|i: int, j: int|
                1 <= i < k && 0 <= j < p.stages[i].hier[0].len()
                    && #[trigger] p.stages[i].hier[0][j] != FREE implies placed(
                p.stages[i - 1].hier,
                p.stages[i].hier[0][j],
            ) by {
                let b = (i - 1) as nat;
                self.lemma_stage_at(k, i as nat);
                self.lemma_stage_at(k, b);
                let q = self.after(b).unwrap();
                let r = self.after(i as nat).unwrap();
                assert(Some(r) == self.step(q));
                self.cone(q).law_next_reads(self.stages, self.reserved, q.total);
                self.cone(r).law_row_0(self.stages, self.reserved, r.total);
                assert(self.cone(r).readable(p.stages[i].hier[0][j]));
            }
        }
    }
}

/// A partition reads from outside only in row 0 of its first stage, which holds available
/// pins or pins that are not gates: every pin in row 0 of a later stage stands above row 0
/// of the stage just before it. No row 0 is full, and every word that is written out is
/// one of the words of a hierarchy.
pub proof fn law_partition_reads(
    aig: &AIG,
    staged: &StagedAIG,
    eps: Seq<usize>,
    num_stages: usize,
)
    requires
        staged.wf(aig),
        opt_elems(staged.primary_inputs).no_duplicates(),
        stages_fit(num_stages),
        buildable(aig, staged, eps, num_stages),
        no_constants(*aig),
    ensures
        built(aig, staged, eps, num_stages) matches Some(m) ==> {
            &&& m.stages.len() > 0 ==> forall|j: int|
                0 <= j < m.stages[0].hier[0].len() && #[trigger] m.stages[0].hier[0][j] != FREE ==> {
                    let x = m.stages[0].hier[0][j];
                    opt_elems(staged.primary_inputs).contains(x) || !(aig.drivers@[x as int] is AndGate)
                }
            &&& forall|i: int, j: int|
                1 <= i < m.stages.len() && 0 <= j < m.stages[i].hier[0].len()
                    && #[trigger] m.stages[i].hier[0][j] != FREE ==> placed(
                    m.stages[i - 1].hier,
                    m.stages[i].hier[0][j],
                )
            &&& forall|i: int|
                0 <= i < m.stages.len() ==> taken((#[trigger] m.stages[i]).hier[0]) + 2 <= pow2(
                    num_stages as nat,
                )
            &&& forall|i: int, w: int|
                0 <= i < m.stages.len() && 0 <= w < m.stages[i].write_outs.len()
                    ==> #[trigger] m.stages[i].write_outs[w] < pow2((num_stages - 5) as nat)
        },
{
    if let Some(m) = built(aig, staged, eps, num_stages) {
        let r = realization(aig, staged, eps, num_stages);
        lemma_buildable(aig, staged, eps, num_stages);
        let k = choose|k: nat| r.finished(k);
        r.lemma_after(k);
        r.law_reads_from_before(k);
        assert forall|i: int| 0 <= i < m.stages.len() implies taken(
            (#[trigger] m.stages[i]).hier[0],
        ) + 2 <= pow2(num_stages as nat) by {
            r.lemma_stage_at(k, i as nat);
            let p = r.after(i as nat).unwrap();
            r.cone(p).law_slot_kept_free(num_stages, r.reserved, p.total);
            r.cone(p).law_hierarchy_valid(num_stages, r.reserved, p.total);
        }
        assert forall|i: int, w: int|
            0 <= i < m.stages.len() && 0 <= w < m.stages[i].write_outs.len() implies #[trigger] m.stages[i].write_outs[w]
            < pow2((num_stages - 5) as nat) by {
            r.lemma_stage_at(k, i as nat);
            let p = r.after(i as nat).unwrap();
            r.cone(p).law_words_small(num_stages, r.reserved, p.total);
        }
    }
}

/// Distinct numbers below `n` are at most `n`.
proof fn lemma_below(s: Seq<int>, n: nat)
    requires
        s.no_duplicates(),
        forall|i: int| 0 <= i < s.len() ==> 0 <= #[trigger] s[i] < n,
    ensures
        s.len() <= n,
{
    s.unique_seq_to_set();
    lemma_int_range(0, n as int);
    assert(s.to_set().subset_of(set_int_range(0, n as int)));
    lemma_len_subset(s.to_set(), set_int_range(0, n as int));
}

proof fn lemma_filter_split(s: Seq<usize>, p: spec_fn(usize) -> bool, q: spec_fn(usize) -> bool)
    requires
        forall|x: usize| #[trigger] q(x) == !p(x),
    ensures
        s.filter(p).len() + s.filter(q).len() == s.len(),
    decreases s.len(),
{
    reveal(Seq::filter);
    if s.len() > 0 {
        lemma_filter_split(s.drop_last(), p, q);
        assert(q(s.last()) == !p(s.last()));
    }
}

/// Whether the rows of a hierarchy halve from `n` rows above row 0 on.
pub open spec fn halving(h: Hier, n: nat) -> bool {
    &&& h.len() == n + 1
    &&& forall|k: int| 0 <= k <= n ==> (#[trigger] h[k]).len() == pow2((n - k) as nat)
}

/// Whether slot `j` of row `hi` holds a pin and stands in word number `t` of those that
/// are written out.
pub open spec fn stands_at(
    h: Hier,
    words: Seq<usize>,
    x: usize,
    hi: int,
    j: int,
    t: int,
) -> bool {
    &&& 1 <= hi < h.len()
    &&& 0 <= j < h[hi].len()
    &&& h[hi][j] == x
    &&& 0 <= t < words.len()
    &&& words[t] == (j + h[hi].len()) / WORD as int
}

/// The place of a pin among the slots that are written out.
pub open spec fn place_of(h: Hier, words: Seq<usize>, x: usize) -> int {
    let (hi, j, t) = choose|hi: int, j: int, t: int| #[trigger] stands_at(h, words, x, hi, j, t);
    t * 32 + (j + h[hi].len()) % 32
}

/// Two slots with the same place are the same slot.
proof fn lemma_same_place(h: Hier, n: nat, hi: int, j: int, gi: int, i: int)
    requires
        halving(h, n),
        1 <= hi < h.len(),
        0 <= j < h[hi].len(),
        1 <= gi < h.len(),
        0 <= i < h[gi].len(),
        j + h[hi].len() == i + h[gi].len(),
    ensures
        hi == gi,
        j == i,
{
    let a = (n - hi) as nat;
    let b = (n - gi) as nat;
    if a < b {
        lemma_pow2_unfold((a + 1) as nat);
        if a + 1 < b {
            lemma_pow2_strictly_increases((a + 1) as nat, b);
        }
    } else if b < a {
        lemma_pow2_unfold((b + 1) as nat);
        if b + 1 < a {
            lemma_pow2_strictly_increases((b + 1) as nat, a);
        }
    }
}

proof fn lemma_place_of(h: Hier, words: Seq<usize>, n: usize, x: usize) -> (r: (int, int, int))
    requires
        stages_fit(n),
        halving(h, n as nat),
        written(h, words, x),
    ensures
        stands_at(h, words, x, r.0, r.1, r.2),
        place_of(h, words, x) == r.2 * 32 + (r.1 + h[r.0].len()) % 32,
        0 <= place_of(h, words, x) < 32 * words.len(),
{
    lemma_stages_fit(n);
    let (hi, j) = choose|hi: int, j: int|
        1 <= hi < h.len() && 0 <= j < h[hi].len() && #[trigger] h[hi][j] == x && words.contains(
            ((j + h[hi].len()) / WORD as int) as usize,
        );
    assert(h[hi].len() == pow2((n - hi) as nat));
    assert(1 <= pow2((n - hi) as nat) <= pow2(n as nat));
    let t = words.index_of(((j + h[hi].len()) / WORD as int) as usize);
    assert(stands_at(h, words, x, hi, j, t));
    choose|hi: int, j: int, t: int| #[trigger] stands_at(h, words, x, hi, j, t)
}

/// A stage writes out at most 32 pins for each word.
proof fn lemma_stage_outputs(h: Hier, words: Seq<usize>, n: usize, s: Seq<usize>)
    requires
        stages_fit(n),
        halving(h, n as nat),
        s.no_duplicates(),
        forall|k: int| 0 <= k < s.len() ==> written(h, words, #[trigger] s[k]),
    ensures
        s.len() <= 32 * words.len(),
{
    let places = Seq::new(s.len(), |k: int| place_of(h, words, s[k]));
    assert forall|k: int| 0 <= k < places.len() implies 0 <= #[trigger] places[k] < 32
        * words.len() by {
        let r = lemma_place_of(h, words, n, s[k]);
    }
    assert forall|a: int, b: int| 0 <= a < b < places.len() implies places[a] != places[b] by {
        let r = lemma_place_of(h, words, n, s[a]);
        let q = lemma_place_of(h, words, n, s[b]);
        if places[a] == places[b] {
            assert(r.2 == q.2);
            lemma_same_place(h, n as nat, r.0, r.1, q.0, q.1);
        }
    }
    lemma_below(places, (32 * words.len()) as nat);
}

proof fn lemma_outputs(stages: Seq<StageModel>, n: usize, s: Seq<usize>)
    requires
        stages_fit(n),
        forall|i: int| 0 <= i < stages.len() ==> halving((#[trigger] stages[i]).hier, n as nat),
        s.no_duplicates(),
        forall|k: int| 0 <= k < s.len() ==> Realization::covered(stages, #[trigger] s[k]),
    ensures
        s.len() <= 32 * word_total(stages),
    decreases stages.len(),
{
    if stages.len() == 0 {
        if s.len() > 0 {
            assert(Realization::covered(stages, s[0]));
        }
    } else {
        let last = stages.last();
        let front = stages.drop_last();
        let p = |x: usize| written(last.hier, last.write_outs, x);
        let q = |x: usize| !written(last.hier, last.write_outs, x);
        let a = s.filter(p);
        let b = s.filter(q);
        lemma_filter_distinct(s, p);
        lemma_filter_distinct(s, q);
        lemma_filter_split(s, p, q);
        assert forall|k: int| 0 <= k < a.len() implies written(
            last.hier,
            last.write_outs,
            #[trigger] a[k],
        ) by {
            assert(a.contains(a[k]));
            lemma_filter_member(s, p, a[k]);
        }
        assert(halving(stages[stages.len() - 1].hier, n as nat));
        lemma_stage_outputs(last.hier, last.write_outs, n, a);
        assert forall|k: int| 0 <= k < b.len() implies Realization::covered(
            front,
            #[trigger] b[k],
        ) by {
            assert(b.contains(b[k]));
            lemma_filter_member(s, q, b[k]);
            let t = s.index_of(b[k]);
            assert(Realization::covered(stages, s[t]));
            let i = choose|i: int|
                0 <= i < stages.len() && #[trigger] written(
                    stages[i].hier,
                    stages[i].write_outs,
                    b[k],
                );
            assert(front[i] == stages[i]);
            assert(written(front[i].hier, front[i].write_outs, b[k]));
        }
        assert forall|i: int| 0 <= i < front.len() implies halving(
            (#[trigger] front[i]).hier,
            n as nat,
        ) by {
            assert(front[i] == stages[i]);
        }
        lemma_outputs(front, n, b);
    }
}

/// The unique outputs of a partition, which are the pins that its endpoints read, fit into
/// the words that it writes out, 32 to a word; together with the words that are reserved
/// and those that the endpoints need by themselves, they fit into the slots of a
/// hierarchy.
pub proof fn law_outputs_fit(aig: &AIG, staged: &StagedAIG, eps: Seq<usize>, num_stages: usize)
    requires
        staged.wf(aig),
        opt_elems(staged.primary_inputs).no_duplicates(),
        stages_fit(num_stages),
        buildable(aig, staged, eps, num_stages),
    ensures
        built(aig, staged, eps, num_stages) matches Some(m) ==> {
            let own = sram_count(aig, staged, eps) * 4 + output_dups(aig, staged, eps);
            let outputs = read_pins(aig, staged, eps).len();
            &&& outputs <= 32 * word_total(m.stages)
            &&& outputs + 32 * (own + 2 * reserved_words(aig, staged, eps)) <= pow2(
                num_stages as nat,
            ) || outputs == 0
        },
{
    if let Some(m) = built(aig, staged, eps, num_stages) {
        let r = realization(aig, staged, eps, num_stages);
        let pins = read_pins(aig, staged, eps);
        lemma_buildable(aig, staged, eps, num_stages);
        lemma_read_pins(aig, staged, eps);
        law_built(aig, staged, eps, num_stages);
        lemma_stages_fit(num_stages);
        let k = choose|k: nat| r.finished(k);
        r.lemma_after(k);
        assert forall|i: int| 0 <= i < m.stages.len() implies halving(
            (#[trigger] m.stages[i]).hier,
            num_stages as nat,
        ) by {
            r.lemma_stage_at(k, i as nat);
            let p = r.after(i as nat).unwrap();
            r.cone(p).law_hierarchy_valid(num_stages, r.reserved, p.total);
        }
        assert forall|i: int| 0 <= i < pins.len() implies Realization::covered(
            m.stages,
            #[trigger] pins[i],
        ) by {
            assert(pins.contains(pins[i]));
            r.law_all_covered(pins[i]);
        }
        lemma_outputs(m.stages, num_stages, pins);
        if m.stages.len() == 0 {
            assert(word_total(m.stages) == 0);
        }
    }
}

} // verus!
