//! What holds of every boomerang stage.
use crate::aig::{lemma_proper_subset_len, lemma_subset_len, pin_of, DriverType};
use crate::index_set::{lemma_inserted, lemma_inserted_all, lemma_swap_removed_all};
use crate::pe::hier::{
    count_in, extends, first_free, lemma_count_bound, lemma_count_update, lemma_extends_placed,
    lemma_extends_trans, lemma_first_free, lemma_placed_at, lemma_placed_slot, lemma_rooted_slot,
    lemma_same_shape_trans, placed, same_shape, taken, Cone, Hier, FREE,
};
use crate::pe::plan::{
    free_hier, groups, groups_upto, lemma_free_hier, lemma_groups, lemma_groups_free,
    lemma_placed_pins, lemma_stages_fit, lemma_words_below, max_writeouts, placed_pins, stages_fit,
    words_below, Fill, Store, CROWDED, WORD,
};
use crate::sorting::lemma_sorted_pairs;
use vstd::arithmetic::power2::{
    lemma2_to64, lemma_pow2_adds, lemma_pow2_pos, lemma_pow2_unfold, pow2,
};
use vstd::prelude::*;

verus! {

/// Whether `x` stands in a slot of a row from 1 on whose word is one of `words`.
pub open spec fn written(h: Hier, words: Seq<usize>, x: usize) -> bool {
    exists|hi: int, j: int|
        1 <= hi < h.len() && 0 <= j < h[hi].len() && #[trigger] h[hi][j] == x
            && words.contains(((j + h[hi].len()) / WORD as int) as usize)
}

/// What is written out stays written out.
pub proof fn lemma_written_kept(
    h: Hier,
    g: Hier,
    words: Seq<usize>,
    more: Seq<usize>,
    x: usize,
)
    requires
        extends(h, g),
        written(h, words, x),
        words.is_prefix_of(more),
        x != FREE,
    ensures
        written(g, more, x),
{
    let (hi, j) = choose|hi: int, j: int|
        1 <= hi < h.len() && 0 <= j < h[hi].len() && #[trigger] h[hi][j] == x
            && words.contains(((j + h[hi].len()) / WORD as int) as usize);
    let w = ((j + h[hi].len()) / WORD as int) as usize;
    let i = words.index_of(w);
    assert(more[i] == w);
    assert(h[hi].len() == g[hi].len());
    assert(g[hi][j] == x);
}

/// Two free slots are not taken.
proof fn lemma_two_free(row: Seq<usize>, a: int, b: int)
    requires
        0 <= a < b < row.len(),
        row[a] == FREE,
        row[b] == FREE,
    ensures
        taken(row) + 2 <= row.len(),
{
    let one = row.update(b, 0);
    lemma_count_update(row, b, 0, FREE);
    lemma_count_bound(row, FREE);
    lemma_count_bound(one, FREE);
    assert(one[a] == FREE);
    assert(one.contains(FREE));
}

impl Cone {
    /// Whether a pin with at least `lvl` gates before it, itself included, is computed.
    pub open spec fn reaches(self, h: Hier, lvl: nat) -> bool {
        exists|x: usize| x != FREE && #[trigger] placed(h, x) && self.level(x) >= lvl
    }

    /// Whether `st` is a state that filling can lead to from the hierarchy `h`: if
    /// nothing is known of row 1 then nothing is placed, unless a pin of level at
    /// least 2 is computed.
    pub open spec fn filling(self, h: Hier, st: Fill) -> bool {
        &&& self.fillable(st)
        &&& st.h.len() >= 2
        &&& self.good(st.h, st.lvl as int)
        &&& same_shape(h, st.h)
        &&& forall|x: usize| #[trigger]
            st.nec.contains(x) ==> self.order().contains(x) && self.level(x) <= 1
        &&& (st.h == h && st.nec.len() == 0 && st.rl == self.all_steps(h)) || self.reaches(st.h, 2)
    }

    /// Filling leads to such a state again.
    pub proof fn lemma_filling_step(self, h: Hier, st: Fill)
        requires
            self.wf(),
            self.filling(h, st),
            st.lvl >= 2,
        ensures
            self.filling(h, self.fill_step(st)),
            extends(st.h, self.fill_step(st).h),
    {
        let lvl = st.lvl as int;
        self.lemma_fill_step(st);
        self.lemma_good(st.h, lvl);
        lemma_first_free(st.h[lvl], 0);
        self.lemma_best(st.h, st.rl, st.lvl, self.order().len() as int);
        match (first_free(st.h[lvl]), self.best(st.h, st.rl, st.lvl)) {
            (Some(slot), Some(p)) => {
                let nd = self.order()[p];
                let g = self.place(st.h, lvl, slot, nd);
                assert(self.order().contains(nd));
                self.lemma_sources(nd);
                self.lemma_good_place(st.h, lvl, slot, nd);
                self.lemma_place_extends(st.h, lvl, slot, nd);
                lemma_same_shape_trans(h, st.h, g);
                assert(self.reaches(g, 2));
                let rl = self.all_steps(g);
                self.lemma_needs(g, rl, self.order().len() as int);
            },
            _ => {},
        }
    }

    /// Filling leads to such a state again.
    pub proof fn lemma_filling(self, h: Hier, st: Fill)
        requires
            self.wf(),
            self.filling(h, st),
        ensures
            self.filling(h, self.fill(st)),
            st.lvl >= 1 ==> self.fill(st).lvl == 1,
            st.lvl == 0 ==> self.fill(st) == st,
        decreases st.lvl, count_in(st.h[st.lvl as int], FREE),
    {
        if st.lvl >= 2 {
            self.lemma_filling_step(h, st);
            self.lemma_fill_step(st);
            self.lemma_filling(h, self.fill_step(st));
        }
    }

    /// What storing at several slots does: everything stays where it is, what is
    /// written out stands in these slots or was written out before, and the
    /// endpoints of `low` are stored in order.
    pub proof fn lemma_stored_slots(self, h: Hier, s: Store, low: Seq<usize>, start: int, k: int)
        requires
            self.wf(),
            self.storable(low),
            self.storing(h, s, low),
            h.len() >= 2,
            0 <= start,
            0 <= k,
            start + k <= h[1].len(),
        ensures
            ({
                let t = self.store_slots(s, low, start, k);
                &&& extends(s.h, t.h)
                &&& s.next <= t.next
                &&& forall|x: usize| #[trigger] s.done.contains(x) ==> t.done.contains(x)
                &&& forall|x: usize| #[trigger]
                    t.done.contains(x) ==> s.done.contains(x) || exists|j: int|
                        start <= j < start + k && #[trigger] t.h[1][j] == x
                &&& forall|i: int| s.next <= i < t.next ==> t.done.contains(#[trigger] low[i])
                &&& k >= 1 && s.h[1][start] == FREE && s.next < low.len() ==> t.next > s.next
            }),
        decreases k,
    {
        if k > 0 {
            self.lemma_stored_slots(h, s, low, start, k - 1);
            self.lemma_store_slots(h, s, low, start, k - 1);
            let b = self.store_slots(s, low, start, k - 1);
            let t = self.store_slots(s, low, start, k);
            let j = start + k - 1;
            self.lemma_good(b.h, 1);
            assert(h[1].len() == b.h[1].len());
            assert(h[1].len() == s.h[1].len());
            if b.next < low.len() && b.h[1][j] == FREE {
                let x = low[b.next as int];
                self.lemma_place_extends(b.h, 1, j, x);
                lemma_inserted(b.done, x);
                lemma_extends_trans(s.h, b.h, t.h);
                assert(t.h[1][j] == x);
            } else {
                lemma_inserted(b.done, b.h[1][j]);
                assert(extends(b.h, t.h));
            }
            assert forall|x: usize| #[trigger] t.done.contains(x) implies s.done.contains(x)
                || exists|j: int| start <= j < start + k && #[trigger] t.h[1][j] == x by {
                if !s.done.contains(x) {
                    if b.done.contains(x) {
                        let i = choose|i: int| start <= i < start + k - 1 && #[trigger] b.h[1][i] == x;
                        self.lemma_outs_pin(x);
                        assert(t.h[1][i] == b.h[1][i]);
                    } else {
                        assert(t.h[1][j] == x);
                    }
                }
            }
        } else {
            assert(extends(s.h, s.h));
        }
    }

    /// An endpoint is a pin of the graph, so no slot that holds it is free.
    pub proof fn lemma_outs_pin(self, x: usize)
        requires
            self.wf(),
            self.outs.contains(x),
        ensures
            1 <= x <= self.aig.num_aigpins,
            x != FREE,
            self.order().contains(x),
    {
        let k = self.outs.index_of(x);
        assert(self.outs[k] == x);
        self.aig.lemma_topo(self.avail, self.outs);
    }

    /// What storing at groups does: everything stays where it is, everything that
    /// is written out stands in a word that is written out, and the endpoints of
    /// `low` are stored in order.
    pub proof fn lemma_stored(
        self,
        h: Hier,
        s: Store,
        low: Seq<usize>,
        all: bool,
        gs: Seq<(u8, usize)>,
        g: int,
    )
        requires
            self.wf(),
            self.storable(low),
            self.storing(h, s, low),
            h.len() >= 2,
            0 <= g <= gs.len(),
            h[1].len() % WORD as nat == 0 || gs.len() == 0,
            h[1].len() < usize::MAX / 4,
            forall|k: int|
                0 <= k < gs.len() ==> {
                    &&& (#[trigger] gs[k]).1 + WORD <= h[1].len()
                    &&& gs[k].1 % WORD == 0
                    &&& gs[k].0 < CROWDED
                },
            forall|x: usize| #[trigger] s.done.contains(x) ==> written(s.h, s.write_outs, x),
        ensures
            ({
                let t = self.store(s, low, all, gs, g);
                &&& extends(s.h, t.h)
                &&& s.next <= t.next
                &&& forall|x: usize| #[trigger] s.done.contains(x) ==> t.done.contains(x)
                &&& forall|x: usize| #[trigger]
                    t.done.contains(x) ==> written(t.h, t.write_outs, x)
                &&& forall|i: int| s.next <= i < t.next ==> t.done.contains(#[trigger] low[i])
                &&& g < gs.len() && all && s.h[1][gs[g].1 as int] == FREE && s.next < low.len()
                    ==> t.next > s.next
            }),
        decreases gs.len() - g,
    {
        let t = self.store(s, low, all, gs, g);
        if g < gs.len() && (all || low.len() - s.next >= WORD - gs[g].0) {
            let start = gs[g].1;
            let b = self.store_slots(s, low, start as int, WORD as int);
            let c = self.store_group(s, low, start);
            self.lemma_store_slots(h, s, low, start as int, WORD as int);
            self.lemma_stored_slots(h, s, low, start as int, WORD as int);
            let w = ((start + h[1].len()) / WORD as int) as usize;
            assert(h[1].len() == s.h[1].len());
            assert(h[1].len() == b.h[1].len());
            assert(c.write_outs == s.write_outs.push(w));
            assert(c.write_outs[s.write_outs.len() as int] == w);
            assert forall|x: usize| #[trigger] c.done.contains(x) implies written(
                c.h,
                c.write_outs,
                x,
            ) by {
                if s.done.contains(x) {
                    self.lemma_outs_pin(x);
                    lemma_written_kept(s.h, c.h, s.write_outs, c.write_outs, x);
                } else {
                    let j = choose|j: int|
                        start <= j < start + WORD && #[trigger] b.h[1][j] == x;
                    assert((j + h[1].len()) / 32 == (start + h[1].len()) / 32);
                    assert(c.h[1][j] == x);
                }
            }
            self.lemma_stored(h, c, low, all, gs, g + 1);
            lemma_extends_trans(s.h, c.h, t.h);
            assert forall|i: int| s.next <= i < t.next implies t.done.contains(
                #[trigger] low[i],
            ) by {
                if i < c.next {
                    assert(c.done.contains(low[i]));
                }
            }
            assert forall|x: usize| #[trigger] s.done.contains(x) implies t.done.contains(x) by {
                assert(c.done.contains(x));
            }
        } else {
            assert(extends(s.h, s.h));
        }
    }

    /// What placing the rest does: everything stays where it is, and every pin is
    /// computed then, unless it is written out.
    pub proof fn lemma_place_rest(self, h: Hier, done: Seq<usize>, nec: Seq<usize>, k: int)
        requires
            self.wf(),
            self.good(h, 1),
            0 <= k,
            forall|i: int|
                0 <= i < nec.len() ==> self.order().contains(#[trigger] nec[i]) && self.level(
                    nec[i],
                ) <= 1,
        ensures
            self.place_rest(h, done, nec, k) matches Some(g) ==> {
                &&& self.good(g, 1)
                &&& extends(h, g)
                &&& forall|i: int|
                    k <= i < nec.len() ==> placed(g, #[trigger] nec[i]) || done.contains(nec[i])
            },
        decreases nec.len() - k,
    {
        self.lemma_good(h, 1);
        if k >= nec.len() {
            assert(extends(h, h));
        } else {
            self.lemma_sources(nec[k]);
            if placed(h, nec[k]) || done.contains(nec[k]) {
                self.lemma_place_rest(h, done, nec, k + 1);
                if let Some(g) = self.place_rest(h, done, nec, k) {
                    if placed(h, nec[k]) {
                        lemma_extends_placed(h, g, nec[k]);
                    }
                }
            } else {
                lemma_first_free(h[1], 0);
                if let Some(j) = first_free(h[1]) {
                    let b = self.place(h, 1, j, nec[k]);
                    self.lemma_good_place(h, 1, j, nec[k]);
                    self.lemma_place_extends(h, 1, j, nec[k]);
                    self.lemma_place_rest(b, done, nec, k + 1);
                    if let Some(g) = self.place_rest(h, done, nec, k) {
                        lemma_extends_trans(h, b, g);
                        lemma_extends_placed(b, g, nec[k]);
                    }
                }
            }
        }
    }

    /// The states that building a stage goes through.
    pub proof fn lemma_build(self, stages: usize, total: nat)
        requires
            self.wf(),
            stages_fit(stages),
            self.placeable(stages as int),
        ensures
            ({
                let free = free_hier(stages as nat);
                let st = self.fill(self.fill_start(stages as nat));
                let nec = self.final_needs(st);
                let low = self.low(st.h, nec);
                let s = self.stored(st, total);
                &&& self.filling(free, st)
                &&& self.good(st.h, 1)
                &&& forall|i: int|
                    0 <= i < nec.len() ==> self.order().contains(#[trigger] nec[i]) && self.level(
                        nec[i],
                    ) <= 1
                &&& self.storing(st.h, s, low)
                &&& extends(st.h, s.h)
                &&& same_shape(free, s.h)
                &&& forall|x: usize| #[trigger]
                    s.done.contains(x) ==> written(s.h, s.write_outs, x)
                &&& forall|i: int| 0 <= i < s.next ==> s.done.contains(#[trigger] low[i])
                &&& s.total == total + s.write_outs.len()
                &&& st.h == free && low.len() > 0 && stages >= 6 && self.untouched(
                    st.h,
                    nec,
                ).len() == 0 ==> s.next > 0
                &&& self.place_rest(s.h, s.done, nec, 0) matches Some(g) ==> {
                    &&& self.good(g, 1)
                    &&& extends(s.h, g)
                    &&& extends(st.h, g)
                    &&& same_shape(free, g)
                    &&& forall|i: int|
                        0 <= i < nec.len() ==> placed(g, #[trigger] nec[i]) || s.done.contains(
                            nec[i],
                        )
                }
            }),
    {
        let ns = stages as nat;
        let free = free_hier(ns);
        let start = self.fill_start(ns);
        let st = self.fill(start);
        let nec = self.final_needs(st);
        let low = self.low(st.h, nec);
        let s = self.stored(st, total);
        lemma_stages_fit(stages);
        lemma_free_hier(ns);
        self.aig.lemma_topo(self.avail, self.outs);
        self.lemma_good_free(free, start.lvl as int);
        self.lemma_good_free(free, 1);
        self.lemma_filling(free, start);
        self.lemma_needs(st.h, st.rl, self.order().len() as int);
        assert forall|i: int| 0 <= i < nec.len() implies self.order().contains(#[trigger] nec[i])
            && self.level(nec[i]) <= 1 by {
            assert(nec.contains(nec[i]));
        }
        self.lemma_low(st.h, nec);
        let gs = groups(st.h[1]);
        let s0 = Store {
            h: st.h,
            next: 0,
            done: Seq::empty(),
            write_outs: Seq::empty(),
            total,
        };
        let all = self.untouched(st.h, nec).len() == 0;
        assert(free[1].len() == st.h[1].len());
        assert(free[1].len() == pow2((ns - 1) as nat));
        lemma_groups(st.h[1]);
        assert(st.h[1].len() % WORD as nat == 0 || gs.len() == 0) by {
            lemma2_to64();
            if ns >= 6 {
                lemma_pow2_adds((ns - 6) as nat, 5);
            }
        }
        lemma_pow2_unfold(ns);
        self.lemma_store(st.h, s0, low, all, gs, 0);
        self.lemma_stored(st.h, s0, low, all, gs, 0);
        lemma_same_shape_trans(free, st.h, s.h);
        if st.h == free && low.len() > 0 && ns >= 6 && all {
            let k = free[1].len() as int / WORD as int;
            lemma_pow2_adds((ns - 6) as nat, 5);
            lemma2_to64();
            lemma_pow2_pos((ns - 6) as nat);
            lemma_groups_free(free[1], k);
            lemma_sorted_pairs(groups_upto(free[1], k));
            assert(free[1][gs[0].1 as int] == FREE);
        }
        self.lemma_place_rest(s.h, s.done, nec, 0);
        if let Some(g) = self.place_rest(s.h, s.done, nec, 0) {
            lemma_extends_trans(st.h, s.h, g);
            lemma_same_shape_trans(free, s.h, g);
        }
    }

    /// The endpoints that row 1 has to hold are endpoints that it can hold.
    pub proof fn lemma_low(self, h: Hier, nec: Seq<usize>)
        requires
            forall|i: int|
                0 <= i < nec.len() ==> self.order().contains(#[trigger] nec[i]) && self.level(
                    nec[i],
                ) <= 1,
        ensures
            self.storable(self.low(h, nec)),
    {
        let low = self.low(h, nec);
        let pred = |x: usize| !placed(h, x) && nec.contains(x);
        assert forall|k: int| 0 <= k < low.len() implies self.outs.contains(#[trigger] low[k])
            && self.order().contains(low[k]) && self.level(low[k]) <= 1 by {
            let x = low[k];
            assert(self.outs.filter(pred).contains(x));
            self.outs.lemma_filter_contains_rev(pred, x);
            self.outs.lemma_filter_pred(pred, k);
        }
    }

    /// A stage is a hierarchy of the right shape in which every pin is passed
    /// through from the same slot of the row below or stands on its two inputs.
    pub proof fn law_hierarchy_valid(self, stages: usize, reserved: nat, total: nat)
        requires
            self.wf(),
            stages_fit(stages),
            self.placeable(stages as int),
        ensures
            self.build(stages as nat, reserved, total).stage matches Some(m) ==> {
                &&& m.hier.len() == stages + 1
                &&& forall|k: int|
                    0 <= k <= stages ==> (#[trigger] m.hier[k]).len() == pow2((stages - k) as nat)
                &&& self.fed(m.hier, stages as int)
            },
    {
        self.lemma_build(stages, total);
        lemma_free_hier(stages as nat);
        let free = free_hier(stages as nat);
        if let Some(m) = self.build(stages as nat, reserved, total).stage {
            self.lemma_good(m.hier, 1);
            assert forall|k: int| 0 <= k <= stages implies (#[trigger] m.hier[k]).len() == pow2(
                (stages - k) as nat,
            ) by {
                assert(free[k].len() == m.hier[k].len());
            }
        }
    }

    /// A stage keeps a slot of row 1 free, and the two slots of row 0 under it: it has
    /// fewer inputs than row 0 has slots, less one, and fewer pins alive than row 1 has
    /// slots.
    pub proof fn law_slot_kept_free(self, stages: usize, reserved: nat, total: nat)
        requires
            self.wf(),
            stages_fit(stages),
            self.placeable(stages as int),
        ensures
            self.build(stages as nat, reserved, total).stage matches Some(m) ==> {
                &&& taken(m.hier[0]) + 2 <= m.hier[0].len()
                &&& taken(m.hier[1]) + 1 <= m.hier[1].len()
                &&& exists|j: int|
                    0 <= j < m.hier[1].len() && #[trigger] m.hier[1][j] == FREE && m.hier[0][j]
                        == FREE && m.hier[0][j + m.hier[1].len()] == FREE
            },
    {
        self.lemma_build(stages, total);
        if let Some(m) = self.build(stages as nat, reserved, total).stage {
            self.lemma_good(m.hier, 1);
            lemma_first_free(m.hier[1], 0);
            let j = first_free(m.hier[1]).unwrap();
            lemma_rooted_slot(m.hier, 1, 1, j);
            lemma_count_bound(m.hier[1], FREE);
            assert(m.hier[0].len() == 2 * m.hier[1].len());
            lemma_two_free(m.hier[0], j, j + m.hier[1].len());
        }
    }

    /// What a stage leaves to be realized are endpoints, each once, and those that
    /// it does not leave stand in a word that it writes out.
    pub proof fn law_realized_written(self, stages: usize, reserved: nat, total: nat)
        requires
            self.wf(),
            stages_fit(stages),
            self.placeable(stages as int),
        ensures
            ({
                let r = self.build(stages as nat, reserved, total);
                &&& r.outs.no_duplicates()
                &&& forall|x: usize| #[trigger] r.outs.contains(x) ==> self.outs.contains(x)
                &&& forall|x: usize|
                    self.outs.contains(x) && !#[trigger] r.outs.contains(x) ==> {
                        &&& r.stage matches Some(m)
                        &&& written(m.hier, m.write_outs, x)
                    }
            }),
    {
        self.lemma_build(stages, total);
        let r = self.build(stages as nat, reserved, total);
        if let Some(m) = r.stage {
            let st = self.fill(self.fill_start(stages as nat));
            let s = self.stored(st, total);
            let g = m.hier;
            let done = self.done_after(st, s, g, stages as nat, reserved);
            lemma_swap_removed_all(self.outs, done);
            assert forall|x: usize|
                self.outs.contains(x) && !#[trigger] r.outs.contains(x) implies written(
                g,
                m.write_outs,
                x,
            ) by {
                self.lemma_outs_pin(x);
                let inside = self.inside(st.h);
                lemma_inserted_all(s.done, inside);
                if s.done.contains(x) {
                    lemma_written_kept(s.h, g, s.write_outs, m.write_outs, x);
                } else {
                    let pred = |x: usize| placed(st.h, x);
                    let k = inside.index_of(x);
                    self.outs.lemma_filter_pred(pred, k);
                    let (hi, j) = lemma_placed_slot(st.h, x);
                    assert(st.h[hi].len() == g[hi].len());
                    assert(g[hi][j] == x);
                    let extra = words_below(g, inside, s.done, g.len() as int);
                    lemma_words_below(g, inside, s.done, g.len() as int);
                    let w = ((j + g[hi].len()) / WORD as int) as usize;
                    assert(extra.contains(w));
                    let i = extra.index_of(w);
                    assert(m.write_outs[s.write_outs.len() + i] == w);
                }
            }
        }
    }

    /// After a stage, exactly the pins that were available before and those that it
    /// computes are available, each once.
    pub proof fn law_available(self, stages: usize, reserved: nat, total: nat)
        requires
            self.wf(),
            stages_fit(stages),
        ensures
            ({
                let r = self.build(stages as nat, reserved, total);
                &&& self.avail.no_duplicates() ==> r.avail.no_duplicates()
                &&& self.avail.is_prefix_of(r.avail)
                &&& forall|x: usize| #[trigger]
                    r.avail.contains(x) <==> self.avail.contains(x) || (r.stage matches Some(m) && x
                        <= self.aig.num_aigpins && placed(m.hier, x))
            }),
    {
        let r = self.build(stages as nat, reserved, total);
        if let Some(m) = r.stage {
            let pins = placed_pins(m.hier, self.aig.num_aigpins + 1);
            lemma_placed_pins(m.hier, self.aig.num_aigpins + 1);
            lemma_inserted_all(self.avail, pins);
        }
    }

    /// The words that are written out are counted, and with the reserved ones they
    /// never exceed the limit.
    pub proof fn law_writeouts_bounded(self, stages: usize, reserved: nat, total: nat)
        requires
            self.wf(),
            stages_fit(stages),
            self.placeable(stages as int),
        ensures
            ({
                let r = self.build(stages as nat, reserved, total);
                r.stage matches Some(m) ==> {
                    &&& r.total == total + m.write_outs.len()
                    &&& r.total + reserved <= max_writeouts(stages as nat)
                }
            }),
    {
        self.lemma_build(stages, total);
    }

    /// The pins left after a stage can be realized by further stages.
    pub proof fn law_next_stage(self, stages: usize, reserved: nat, total: nat)
        requires
            self.wf(),
            stages_fit(stages),
            self.placeable(stages as int),
        ensures
            ({
                let r = self.build(stages as nat, reserved, total);
                (Cone { aig: self.aig, outs: r.outs, avail: r.avail }).wf()
            }),
    {
        let r = self.build(stages as nat, reserved, total);
        let next = Cone { aig: self.aig, outs: r.outs, avail: r.avail };
        self.law_realized_written(stages, reserved, total);
        self.law_available(stages, reserved, total);
        assert forall|k: int| 0 <= k < r.outs.len() implies 1 <= #[trigger] r.outs[k]
            <= self.aig.num_aigpins by {
            assert(r.outs.contains(r.outs[k]));
            self.lemma_outs_pin(r.outs[k]);
        }
        assert forall|k: int| 0 <= k < r.avail.len() implies #[trigger] r.avail[k]
            <= self.aig.num_aigpins by {
            assert(r.avail.contains(r.avail[k]));
            if self.avail.contains(r.avail[k]) {
                let i = self.avail.index_of(r.avail[k]);
                assert(self.avail[i] == r.avail[k]);
            }
        }
    }

    /// Whether every gate with a constant input is computed from available pins alone.
    pub open spec fn shallow(self) -> bool {
        forall|p: int|
            0 <= p < self.order().len() ==> match self.aig.drivers@[#[trigger] self.order()[p] as int] {
                DriverType::AndGate(a, b) => a < 2 || b < 2 ==> self.level(self.order()[p]) <= 1,
                _ => true,
            }
    }

    /// A stage leaves gates with a constant input on available pins.
    pub proof fn lemma_shallow_next(self, stages: usize, reserved: nat, total: nat)
        requires
            self.wf(),
            stages_fit(stages),
            self.shallow(),
        ensures
            ({
                let r = self.build(stages as nat, reserved, total);
                (Cone { aig: self.aig, outs: r.outs, avail: r.avail }).shallow()
            }),
    {
        let r = self.build(stages as nat, reserved, total);
        let next = Cone { aig: self.aig, outs: r.outs, avail: r.avail };
        self.law_realized_written(stages, reserved, total);
        self.law_available(stages, reserved, total);
        assert forall|x: usize| #[trigger] self.avail.contains(x) implies r.avail.contains(x) by {}
        self.aig.lemma_topo_mono(self.avail, self.outs, r.avail, r.outs);
        assert forall|p: int| 0 <= p < next.order().len() implies match self.aig.drivers@[
            #[trigger] next.order()[p] as int] {
            DriverType::AndGate(a, b) => a < 2 || b < 2 ==> next.level(next.order()[p]) <= 1,
            _ => true,
        } by {
            let u = next.order()[p];
            assert(next.order().contains(u));
            let q = self.order().index_of(u);
            assert(self.order()[q] == u);
            self.lemma_sources(u);
            self.aig.lemma_depth_mono(self.avail, r.avail, u);
        }
    }

    /// Below a pin that is not available there is one that is computed from
    /// available pins by one gate.
    proof fn lemma_first_gate(self, x: usize) -> (y: usize)
        requires
            self.wf(),
            self.order().contains(x),
            self.level(x) >= 1,
        ensures
            self.order().contains(y),
            self.level(y) == 1,
        decreases self.level(x),
    {
        self.lemma_sources(x);
        self.aig.lemma_rank(x);
        if self.level(x) == 1 {
            x
        } else {
            match self.aig.drivers@[x as int] {
                DriverType::AndGate(a, b) => if a >= 2 && self.level(pin_of(a)) + 1 == self.level(
                    x,
                ) {
                    self.lemma_first_gate(pin_of(a))
                } else {
                    self.lemma_first_gate(pin_of(b))
                },
                _ => x,
            }
        }
    }

    /// If only available pins, or pins that are not gates, have to stand in row 1 of
    /// a hierarchy without pins, then all endpoints do.
    proof fn lemma_all_low(self, h: Hier, nec: Seq<usize>)
        requires
            self.wf(),
            self.good(h, 1),
            nec == self.necessary(h, self.all_steps(h)),
            forall|x: usize| x != FREE ==> !#[trigger] placed(h, x),
            forall|i: int| 0 <= i < nec.len() ==> self.level(#[trigger] nec[i]) == 0,
            self.outs.len() > 0,
        ensures
            self.low(h, nec).len() > 0,
            self.untouched(h, nec).len() == 0,
    {
        let rl = self.all_steps(h);
        self.lemma_good(h, 1);
        assert forall|x: usize| #[trigger] self.outs.contains(x) implies nec.contains(x) by {
            self.lemma_outs_pin(x);
            if self.level(x) >= 1 {
                let y = self.lemma_first_gate(x);
                let q = self.order().index_of(y);
                self.lemma_sources(y);
                self.lemma_steps_some(h, q);
                assert(self.needs(h, rl, q)[0] == y);
                self.lemma_needs_member(h, rl, q, y, self.order().len() as int);
                let i = nec.index_of(y);
                assert(self.level(nec[i]) == 0);
            }
            let p = self.order().index_of(x);
            self.lemma_steps_via(h, p, p + 1, p);
            assert(self.needs(h, rl, p)[0] == x);
            self.lemma_needs_member(h, rl, p, x, self.order().len() as int);
        }
        let touched = |x: usize| !placed(h, x) && nec.contains(x);
        let not_touched = |x: usize| !placed(h, x) && !nec.contains(x);
        let x0 = self.outs[0];
        assert(self.outs.contains(x0));
        self.lemma_outs_pin(x0);
        self.outs.lemma_filter_contains(touched, 0);
        let un = self.outs.filter(not_touched);
        if un.len() > 0 {
            self.outs.lemma_filter_pred(not_touched, 0);
            assert(un.contains(un[0]));
            self.outs.lemma_filter_contains_rev(not_touched, un[0]);
        }
    }

    /// A hierarchy of at least six rows above row 0 suffices for progress: a stage
    /// writes out an endpoint or makes another pin available.
    pub proof fn law_progress(self, stages: usize, reserved: nat, total: nat)
        requires
            self.wf(),
            stages_fit(stages),
            self.placeable(stages as int),
            stages >= 6,
            self.outs.len() > 0,
        ensures
            ({
                let r = self.build(stages as nat, reserved, total);
                &&& r.outs.len() <= self.outs.len()
                &&& r.stage is Some ==> r.outs.len() < self.outs.len() || exists|x: usize| #[trigger]
                    r.avail.contains(x) && !self.avail.contains(x)
            }),
    {
        let ns = stages as nat;
        let r = self.build(ns, reserved, total);
        self.law_realized_written(stages, reserved, total);
        self.law_available(stages, reserved, total);
        lemma_subset_len(r.outs, self.outs);
        if r.stage is Some && forall|x: usize| #[trigger]
            r.avail.contains(x) ==> self.avail.contains(x) {
            self.lemma_build(stages, total);
            lemma_free_hier(ns);
            self.aig.lemma_topo(self.avail, self.outs);
            let free = free_hier(ns);
            let st = self.fill(self.fill_start(ns));
            let nec = self.final_needs(st);
            let low = self.low(st.h, nec);
            let s = self.stored(st, total);
            let m = r.stage.unwrap();
            let g = m.hier;
            self.lemma_good(g, 1);
            assert forall|x: usize| x != FREE && #[trigger] placed(g, x) implies self.order().contains(
                x,
            ) && self.level(x) == 0 by {
                self.lemma_placed_order(g, x);
                self.lemma_sources(x);
                assert(r.avail.contains(x));
            }
            if self.reaches(st.h, 2) {
                let x = choose|x: usize|
                    x != FREE && #[trigger] placed(st.h, x) && self.level(x) >= 2;
                lemma_extends_placed(st.h, g, x);
            }
            assert(st.h == free && nec == self.necessary(free, self.all_steps(free)));
            assert forall|x: usize| x != FREE implies !#[trigger] placed(free, x) by {
                if placed(free, x) {
                    let (hi, j) = lemma_placed_slot(free, x);
                }
            }
            assert forall|i: int| 0 <= i < nec.len() implies self.level(#[trigger] nec[i]) == 0 by {
                let y = nec[i];
                self.lemma_sources(y);
                if s.done.contains(y) {
                    let (hi, j) = choose|hi: int, j: int|
                        1 <= hi < s.h.len() && 0 <= j < s.h[hi].len() && #[trigger] s.h[hi][j] == y
                            && s.write_outs.contains(
                            ((j + s.h[hi].len()) / WORD as int) as usize,
                        );
                    lemma_placed_at(s.h, hi, j);
                    lemma_extends_placed(s.h, g, y);
                }
                assert(placed(g, y));
            }
            self.lemma_good_free(free, 1);
            self.lemma_all_low(free, nec);
            assert(s.done.contains(low[0]));
            let y = low[0];
            let inside = self.inside(st.h);
            lemma_inserted_all(s.done, inside);
            lemma_swap_removed_all(self.outs, self.done_after(st, s, g, ns, reserved));
            assert(!r.outs.contains(y));
            self.lemma_low(st.h, nec);
            lemma_proper_subset_len(r.outs, self.outs, y);
        }
    }
}

} // verus!
