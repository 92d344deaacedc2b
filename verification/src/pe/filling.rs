//! How a boomerang stage comes about, step by step.
use crate::index_order::{is_removal, law_removed};
use crate::index_set::{lemma_inserted_all, lemma_swap_removed_all};
use crate::pe::hier::{
    count_in, first_free, lemma_first_free, placed, Cone, Hier, FREE,
};
use crate::pe::plan::{
    free_hier, groups, lemma_free_hier, lemma_groups, lemma_stages_fit, stages_fit, words_below, Fill,
    StageResult, Store, CROWDED, WORD,
};
use crate::pe::ways::{
    law_placed, law_placed_count, law_taken, pins_standing, slots_taken, stands,
};
use vstd::arithmetic::power2::pow2;
use vstd::prelude::*;

verus! {

/// The states that building a stage goes through.
pub struct Story {
    /// The states while the rows from 2 on are filled.
    pub fills: Seq<Fill>,
    /// The states before and after each group of row 1 that endpoints are stored in.
    pub stores: Seq<Store>,
    /// The hierarchies while what else is necessary is put into row 1.
    pub rest: Seq<Hier>,
}

/// Whether `t` is `s` with `x` at the end, unless `x` is there already.
pub open spec fn joined(s: Seq<usize>, t: Seq<usize>, x: usize) -> bool {
    if s.contains(x) {
        t == s
    } else {
        t == s.push(x)
    }
}

/// Whether a slot is the first of its row that is free.
pub open spec fn is_first_free(row: Seq<usize>, j: int) -> bool {
    &&& 0 <= j < row.len()
    &&& row[j] == FREE
    &&& forall|i: int| 0 <= i < j ==> #[trigger] row[i] != FREE
}

/// Whether no slot of a row is free.
pub open spec fn is_full(row: Seq<usize>) -> bool {
    forall|i: int| 0 <= i < row.len() ==> #[trigger] row[i] != FREE
}

proof fn lemma_slot_found(row: Seq<usize>)
    ensures
        match first_free(row) {
            Some(j) => is_first_free(row, j) && !is_full(row),
            None => is_full(row),
        },
{
    lemma_first_free(row, 0);
}

/// Whether nothing changes but that the row below is filled next, and that the distances are
/// computed anew at the next placement.
pub open spec fn lowered(a: Fill, b: Fill) -> bool {
    &&& b.h == a.h
    &&& b.rl == a.rl
    &&& b.nec == a.nec
    &&& b.lvl == a.lvl - 1
    &&& b.since >= 64
}

impl Cone {
    /// Whether the pin at position `p` is of the level that is being filled, not computed yet, and
    /// on a way to an endpoint.
    pub open spec fn may_come(self, a: Fill, p: int) -> bool {
        &&& 0 <= p < self.order().len()
        &&& self.level(self.order()[p]) == a.lvl
        &&& !stands(a.h, self.order()[p])
        &&& a.rl[p] is Some
    }

    /// Whether the pin at position `p` comes next: it is as far from an endpoint as any that may
    /// come, and the first of those.
    pub open spec fn comes_next(self, a: Fill, p: int) -> bool {
        &&& self.may_come(a, p)
        &&& forall|q: int| #[trigger]
            self.may_come(a, q) ==> a.rl[q].unwrap() < a.rl[p].unwrap() || (a.rl[q].unwrap()
                == a.rl[p].unwrap() && p <= q)
    }

    /// Whether row 1 has no slot to spare for the pins `nec` next to what stands in it or will be
    /// passed through it.
    pub open spec fn no_room(self, h: Hier, nec: Seq<usize>) -> bool {
        let here = slots_taken(h[1], 0, h[1].len() as int).len();
        let all = pins_standing(h, self.aig.num_aigpins + 1).len();
        nec.len() + here >= h[1].len() || nec.len() + all >= h[1].len()
    }

    /// Whether filling leads from `a` to `b` in one step: the pin that comes next is put into the
    /// first free slot. After 64 placements the distances and what is necessary are computed anew;
    /// if row 1 has no room then, the placement is undone and the row below comes next. It also
    /// comes next if there is no free slot or no pin.
    pub open spec fn fills_on(self, a: Fill, b: Fill) -> bool {
        let row = a.h[a.lvl as int];
        &&& a.lvl >= 2
        &&& is_full(row) || (forall|p: int| !#[trigger] self.may_come(a, p)) ==> lowered(a, b)
        &&& forall|j: int, p: int|
            #![trigger is_first_free(row, j), self.comes_next(a, p)]
            is_first_free(row, j) && self.comes_next(a, p) ==> {
                let h = self.place(a.h, a.lvl as int, j, self.order()[p]);
                let rl = self.all_steps(h);
                let nec = self.necessary(h, rl);
                if a.since + 1 < 64 {
                    &&& b.h == h
                    &&& b.rl == a.rl
                    &&& b.nec == a.nec
                    &&& b.lvl == a.lvl
                    &&& b.since == a.since + 1
                } else if self.no_room(h, nec) {
                    lowered(a, b)
                } else {
                    &&& b.h == h
                    &&& b.rl == rl
                    &&& b.nec == nec
                    &&& b.lvl == a.lvl
                    &&& b.since == 0
                }
            }
    }

    /// Whether filling starts with `a`: all slots are free, each row is half as wide as the one
    /// before, and the first row to fill is that of the highest level, or the last one if
    /// levels exceed it.
    pub open spec fn starts_with(self, a: Fill, stages: nat) -> bool {
        &&& a.h.len() == stages + 1
        &&& forall|k: int| 0 <= k <= stages ==> (#[trigger] a.h[k]).len() == pow2((stages - k) as nat)
        &&& forall|k: int, i: int|
            0 <= k <= stages && 0 <= i < a.h[k].len() ==> #[trigger] a.h[k][i] == FREE
        &&& a.rl == self.all_steps(a.h)
        &&& a.nec.len() == 0
        &&& a.since == 0
        &&& a.lvl <= stages
        &&& a.lvl == stages || forall|p: int|
            0 <= p < self.order().len() ==> self.level(#[trigger] self.order()[p]) <= a.lvl
        &&& a.lvl == 0 || exists|p: int|
            0 <= p < self.order().len() && self.level(#[trigger] self.order()[p]) >= a.lvl
    }

    /// Whether storing at slot `j` of row 1 leads from `s` to `t`: a free slot gets the next
    /// endpoint of `low`, which is then done; an endpoint that is there is done; after the last
    /// endpoint of `low` nothing happens.
    pub open spec fn stores_at(self, s: Store, t: Store, low: Seq<usize>, j: int) -> bool {
        &&& t.write_outs == s.write_outs
        &&& t.total == s.total
        &&& if s.next < low.len() && s.h[1][j] == FREE {
            &&& t.h == self.place(s.h, 1, j, low[s.next as int])
            &&& t.next == s.next + 1
            &&& joined(s.done, t.done, low[s.next as int])
        } else {
            &&& t.h == s.h
            &&& t.next == s.next
            &&& if s.next < low.len() && self.outs.contains(s.h[1][j]) {
                joined(s.done, t.done, s.h[1][j])
            } else {
                t.done == s.done
            }
        }
    }

    /// Whether a list of states leads through the 32 slots from `start` on.
    pub open spec fn stores_through(self, ts: Seq<Store>, low: Seq<usize>, start: int) -> bool {
        &&& ts.len() == 33
        &&& forall|i: int|
            0 < i < 33 ==> #[trigger] self.stores_at(ts[i - 1], ts[i], low, start + i - 1)
    }

    /// Whether storing in a group leads from `s` to `t`: through its slots, and the word of the
    /// group is written out.
    pub open spec fn stores_in(self, s: Store, t: Store, low: Seq<usize>, start: usize) -> bool {
        exists|ts: Seq<Store>| #[trigger]
            self.stores_through(ts, low, start as int) && ts[0] == s && {
                &&& t.h == ts[32].h
                &&& t.next == ts[32].next
                &&& t.done == ts[32].done
                &&& t.write_outs.len() == s.write_outs.len() + 1
                &&& t.write_outs.drop_last() == s.write_outs
                &&& t.write_outs.last() == (start + s.h[1].len()) / 32
                &&& t.total == s.total + 1
            }
    }

    /// Whether the remaining endpoints of `low` are put into a group: if they are all that is
    /// left, or enough to fill it.
    pub open spec fn uses_group(self, s: Store, low: Seq<usize>, all: bool, taken: u8) -> bool {
        all || low.len() - s.next + taken >= 32
    }

    /// Whether putting the pin `x` into row 1 leads from `h` to `g`: nothing happens if it is
    /// computed or done already, otherwise it gets the first free slot.
    pub open spec fn puts_on(self, h: Hier, g: Hier, done: Seq<usize>, x: usize) -> bool {
        if stands(h, x) || done.contains(x) {
            g == h
        } else {
            exists|j: int| #[trigger] is_first_free(h[1], j) && g == self.place(h, 1, j, x)
        }
    }

    /// The pins that row 1 has to hold after filling.
    pub open spec fn left_needs(self, st: Fill) -> Seq<usize> {
        if st.nec.len() == 0 {
            self.necessary(st.h, st.rl)
        } else {
            st.nec
        }
    }

    /// The endpoints that filling leaves to row 1.
    pub open spec fn left_low(self, st: Fill) -> Seq<usize> {
        self.outs.filter(|x: usize| !stands(st.h, x) && self.left_needs(st).contains(x))
    }

    /// Whether every endpoint is computed or has to stand in row 1.
    pub open spec fn is_last(self, st: Fill) -> bool {
        forall|x: usize| #[trigger]
            self.outs.contains(x) ==> stands(st.h, x) || self.left_needs(st).contains(x)
    }

    /// Whether the states are those that building the stage goes through.
    pub open spec fn told(self, story: Story, stages: nat, total: nat) -> bool {
        let st = story.fills.last();
        let nec = self.left_needs(st);
        let low = self.left_low(st);
        let gs = groups(st.h[1]);
        let s = story.stores.last();
        let used = story.stores.len() - 1;
        &&& story.fills.len() > 0
        &&& self.starts_with(story.fills[0], stages)
        &&& forall|t: int|
            0 < t < story.fills.len() ==> #[trigger] self.fills_on(
                story.fills[t - 1],
                story.fills[t],
            )
        &&& st.lvl < 2
        &&& story.stores.len() > 0
        &&& story.stores[0].h == st.h
        &&& story.stores[0].next == 0
        &&& story.stores[0].done.len() == 0
        &&& story.stores[0].write_outs.len() == 0
        &&& story.stores[0].total == total
        &&& used <= gs.len()
        &&& forall|t: int|
            0 < t <= used ==> #[trigger] self.stores_in(
                story.stores[t - 1],
                story.stores[t],
                low,
                gs[t - 1].1,
            ) && self.uses_group(story.stores[t - 1], low, self.is_last(st), gs[t - 1].0)
        &&& used < gs.len() ==> !self.uses_group(s, low, self.is_last(st), gs[used].0)
        &&& 0 < story.rest.len() <= nec.len() + 1
        &&& story.rest[0] == s.h
        &&& forall|t: int|
            0 < t < story.rest.len() ==> #[trigger] self.puts_on(
                story.rest[t - 1],
                story.rest[t],
                s.done,
                nec[t - 1],
            )
        &&& story.rest.len() <= nec.len() ==> {
            let h = story.rest.last();
            let x = nec[story.rest.len() - 1];
            !stands(h, x) && !s.done.contains(x) && is_full(h[1])
        }
    }

    /// What building a stage leads to after its states: nothing is built if too many words are
    /// written out, or row 1 is full. Otherwise what is done is no longer left, and if no endpoint
    /// is left to later stages, the words of the endpoints that higher rows hold are written out
    /// too, provided that there is room for it.
    pub open spec fn ends_as(
        self,
        story: Story,
        r: StageResult,
        stages: nat,
        reserved: nat,
    ) -> bool {
        let st = story.fills.last();
        let s = story.stores.last();
        let g = story.rest.last();
        let limit = pow2((stages - 5) as nat);
        let inside = self.outs.filter(|x: usize| stands(st.h, x));
        let extra = words_below(g, inside, s.done, g.len() as int);
        let more = self.is_last(st) && extra.len() + s.total + reserved <= limit;
        &&& r.stage is Some <==> s.total + reserved <= limit && story.rest.len()
            == self.left_needs(st).len() + 1 && !is_full(g[1])
        &&& r.stage is None ==> r.outs == self.outs && r.avail == self.avail && r.total == s.total
        &&& r.stage matches Some(m) ==> {
            &&& m.hier == g
            &&& m.write_outs == if more {
                s.write_outs + extra
            } else {
                s.write_outs
            }
            &&& r.total == s.total + if more {
                extra.len()
            } else {
                0
            }
            &&& forall|x: usize| #[trigger]
                r.outs.contains(x) <==> self.outs.contains(x) && !s.done.contains(x) && !(more
                    && stands(st.h, x))
            &&& !more ==> exists|steps: Seq<Seq<usize>>| #[trigger]
                is_removal(steps, self.outs, s.done, r.outs)
        }
    }

    proof fn lemma_fills_on(self, a: Fill)
        requires
            self.wf(),
            self.fillable(a),
            a.lvl >= 2,
            self.aig.num_aigpins + 1 <= FREE,
        ensures
            self.fills_on(a, self.fill_step(a)),
    {
        let row = a.h[a.lvl as int];
        let b = self.fill_step(a);
        let n = self.order().len() as int;
        lemma_slot_found(row);
        self.lemma_best(a.h, a.rl, a.lvl, n);
        assert forall|p: int| 0 <= p < n implies (#[trigger] self.candidate(a.h, a.rl, a.lvl, p)
            <==> self.may_come(a, p)) by {
            law_placed(a.h, self.order()[p]);
        }
        if is_full(row) || forall|p: int| !#[trigger] self.may_come(a, p) {
            if let Some(p) = self.best(a.h, a.rl, a.lvl) {
                assert(self.may_come(a, p));
            }
            assert(lowered(a, b));
        }
        assert forall|j: int, p: int|
            #![trigger is_first_free(row, j), self.comes_next(a, p)]
            is_first_free(row, j) && self.comes_next(a, p) implies ({
            let h = self.place(a.h, a.lvl as int, j, self.order()[p]);
            let rl = self.all_steps(h);
            let nec = self.necessary(h, rl);
            if a.since + 1 < 64 {
                &&& b.h == h
                &&& b.rl == a.rl
                &&& b.nec == a.nec
                &&& b.lvl == a.lvl
                &&& b.since == a.since + 1
            } else if self.no_room(h, nec) {
                lowered(a, b)
            } else {
                &&& b.h == h
                &&& b.rl == rl
                &&& b.nec == nec
                &&& b.lvl == a.lvl
                &&& b.since == 0
            }
        }) by {
            let i = first_free(row).unwrap();
            assert(i == j) by {
                if i < j {
                    assert(row[i] != FREE);
                }
            }
            assert(self.candidate(a.h, a.rl, a.lvl, p));
            let q = self.best(a.h, a.rl, a.lvl).unwrap();
            assert(self.may_come(a, q));
            assert(p == q);
            let h = self.place(a.h, a.lvl as int, j, self.order()[p]);
            self.lemma_no_room(h, self.necessary(h, self.all_steps(h)));
        }
    }

    proof fn lemma_no_room(self, h: Hier, nec: Seq<usize>)
        requires
            self.aig.num_aigpins + 1 <= FREE,
        ensures
            self.overflows(h, nec) <==> self.no_room(h, nec),
    {
        law_taken(h[1], 0, h[1].len() as int);
        assert(h[1].subrange(0, h[1].len() as int) =~= h[1]);
        law_placed_count(h, self.aig.num_aigpins + 1);
    }

    proof fn lemma_fills(self, a: Fill) -> (fills: Seq<Fill>)
        requires
            self.wf(),
            self.fillable(a),
            self.aig.num_aigpins + 1 <= FREE,
        ensures
            fills.len() > 0,
            fills[0] == a,
            fills.last() == self.fill(a),
            self.fill(a).lvl < 2,
            forall|t: int|
                0 < t < fills.len() ==> #[trigger] self.fills_on(fills[t - 1], fills[t]),
        decreases a.lvl, count_in(a.h[a.lvl as int], FREE),
    {
        if a.lvl < 2 {
            seq![a]
        } else {
            self.lemma_fill_step(a);
            self.lemma_fills_on(a);
            let rest = self.lemma_fills(self.fill_step(a));
            let fills = seq![a] + rest;
            assert forall|t: int| 0 < t < fills.len() implies #[trigger] self.fills_on(
                fills[t - 1],
                fills[t],
            ) by {
                if t > 1 {
                    assert(self.fills_on(rest[t - 1 - 1], rest[t - 1]));
                    assert(fills[t] == rest[t - 1] && fills[t - 1] == rest[t - 2]);
                } else {
                    assert(fills[0] == a && fills[1] == rest[0]);
                }
            }
            assert(fills.last() == rest.last());
            fills
        }
    }

    proof fn lemma_stores_through(self, s: Store, low: Seq<usize>, start: int, k: int) -> (ts: Seq<
        Store,
    >)
        requires
            0 <= k,
        ensures
            ts.len() == k + 1,
            ts[0] == s,
            ts[k] == self.store_slots(s, low, start, k),
            forall|i: int|
                0 < i <= k ==> #[trigger] self.stores_at(ts[i - 1], ts[i], low, start + i - 1),
        decreases k,
    {
        if k == 0 {
            seq![s]
        } else {
            let less = self.lemma_stores_through(s, low, start, k - 1);
            let ts = less.push(self.store_slots(s, low, start, k));
            assert forall|i: int| 0 < i <= k implies #[trigger] self.stores_at(
                ts[i - 1],
                ts[i],
                low,
                start + i - 1,
            ) by {
                if i < k {
                    assert(self.stores_at(less[i - 1], less[i], low, start + i - 1));
                }
            }
            ts
        }
    }

    spec fn group_step(
        self,
        stores: Seq<Store>,
        low: Seq<usize>,
        all: bool,
        gs: Seq<(u8, usize)>,
        g: int,
        t: int,
    ) -> bool {
        &&& self.stores_in(stores[t - 1], stores[t], low, gs[g + t - 1].1)
        &&& self.uses_group(stores[t - 1], low, all, gs[g + t - 1].0)
    }

    proof fn lemma_stores(
        self,
        s: Store,
        low: Seq<usize>,
        all: bool,
        gs: Seq<(u8, usize)>,
        g: int,
        width: nat,
    ) -> (stores: Seq<Store>)
        requires
            self.wf(),
            self.storable(low),
            s.next <= low.len(),
            0 <= g <= gs.len(),
            s.h.len() >= 2,
            s.h[1].len() == width,
            width <= usize::MAX / 4,
            forall|k: int|
                0 <= k < gs.len() ==> (#[trigger] gs[k]).1 + WORD <= width && gs[k].0 < CROWDED,
        ensures
            stores.len() > 0,
            stores[0] == s,
            stores.last() == self.store(s, low, all, gs, g),
            stores.len() - 1 <= gs.len() - g,
            forall|t: int|
                0 < t < stores.len() ==> #[trigger] self.group_step(stores, low, all, gs, g, t),
            stores.len() - 1 < gs.len() - g ==> !self.uses_group(
                stores.last(),
                low,
                all,
                gs[g + stores.len() - 1].0,
            ),
        decreases gs.len() - g,
    {
        if g < gs.len() && (all || low.len() - s.next >= WORD - gs[g].0) {
            let start = gs[g].1;
            let c = self.store_group(s, low, start);
            let ts = self.lemma_stores_through(s, low, start as int, WORD as int);
            self.lemma_widths(s, low, start as int, WORD as int);
            assert(self.stores_through(ts, low, start as int));
            assert(c.write_outs.drop_last() =~= s.write_outs);
            assert(self.stores_in(s, c, low, start));
            let rest = self.lemma_stores(c, low, all, gs, g + 1, width);
            let stores = seq![s] + rest;
            assert forall|t: int| 0 < t < stores.len() implies #[trigger] self.group_step(
                stores,
                low,
                all,
                gs,
                g,
                t,
            ) by {
                if t > 1 {
                    assert(self.group_step(rest, low, all, gs, g + 1, t - 1));
                    assert(stores[t] == rest[t - 1] && stores[t - 1] == rest[t - 2]);
                } else {
                    assert(stores[0] == s && stores[1] == rest[0]);
                }
            }
            assert(stores.last() == rest.last());
            stores
        } else {
            seq![s]
        }
    }

    proof fn lemma_widths(self, s: Store, low: Seq<usize>, start: int, k: int)
        requires
            s.h.len() >= 2,
            s.next <= low.len(),
            0 <= start,
            0 <= k,
            start + k <= s.h[1].len(),
        ensures
            ({
                let t = self.store_slots(s, low, start, k);
                &&& t.h.len() == s.h.len()
                &&& t.h[1].len() == s.h[1].len()
                &&& t.next <= low.len()
                &&& t.write_outs == s.write_outs
                &&& t.total == s.total
            }),
        decreases k,
    {
        if k > 0 {
            self.lemma_widths(s, low, start, k - 1);
            let b = self.store_slots(s, low, start, k - 1);
            self.lemma_place_row(b.h, 1, start + k - 1, low[b.next as int]);
        }
    }

    proof fn lemma_puts(self, h: Hier, done: Seq<usize>, nec: Seq<usize>, k: int) -> (rest: Seq<
        Hier,
    >)
        requires
            0 <= k <= nec.len(),
        ensures
            0 < rest.len() <= nec.len() - k + 1,
            rest[0] == h,
            forall|t: int|
                0 < t < rest.len() ==> #[trigger] self.puts_on(
                    rest[t - 1],
                    rest[t],
                    done,
                    nec[k + t - 1],
                ),
            match self.place_rest(h, done, nec, k) {
                Some(g) => rest.len() == nec.len() - k + 1 && rest.last() == g,
                None => {
                    let x = nec[k + rest.len() - 1];
                    &&& rest.len() <= nec.len() - k
                    &&& !stands(rest.last(), x)
                    &&& !done.contains(x)
                    &&& is_full(rest.last()[1])
                },
            },
        decreases nec.len() - k,
    {
        if k >= nec.len() {
            seq![h]
        } else {
            law_placed(h, nec[k]);
            lemma_slot_found(h[1]);
            let same = placed(h, nec[k]) || done.contains(nec[k]);
            if !same && first_free(h[1]) is None {
                seq![h]
            } else {
                let b = if same {
                    h
                } else {
                    self.place(h, 1, first_free(h[1]).unwrap(), nec[k])
                };
                let more = self.lemma_puts(b, done, nec, k + 1);
                let rest = seq![h] + more;
                assert(self.puts_on(h, b, done, nec[k]));
                assert forall|t: int| 0 < t < rest.len() implies #[trigger] self.puts_on(
                    rest[t - 1],
                    rest[t],
                    done,
                    nec[k + t - 1],
                ) by {
                    if t > 1 {
                        assert(self.puts_on(
                            more[t - 1 - 1],
                            more[t - 1],
                            done,
                            nec[k + 1 + (t - 1) - 1],
                        ));
                        assert(rest[t] == more[t - 1] && rest[t - 1] == more[t - 2]);
                    } else {
                        assert(rest[0] == h && rest[1] == more[0]);
                    }
                }
                assert(rest.last() == more.last());
                rest
            }
        }
    }

    proof fn lemma_top(self, k: int)
        requires
            0 <= k <= self.order().len(),
        ensures
            forall|p: int|
                0 <= p < k ==> self.level(#[trigger] self.order()[p]) <= self.top_level_upto(k),
            self.top_level_upto(k) == 0 || exists|p: int|
                0 <= p < k && self.level(#[trigger] self.order()[p]) == self.top_level_upto(k),
        decreases k,
    {
        if k > 0 {
            self.lemma_top(k - 1);
            if self.top_level_upto(k) != 0 {
                if self.level(self.order()[k - 1]) != self.top_level_upto(k) {
                    let p = choose|p: int|
                        0 <= p < k - 1 && self.level(#[trigger] self.order()[p])
                            == self.top_level_upto(k - 1);
                    assert(self.level(self.order()[p]) == self.top_level_upto(k));
                }
            }
        }
    }

    proof fn lemma_starts_with(self, stages: nat)
        ensures
            self.starts_with(self.fill_start(stages), stages),
    {
        lemma_free_hier(stages);
        self.lemma_top(self.order().len() as int);
    }

    proof fn lemma_lists(self, st: Fill)
        ensures
            self.left_needs(st) == self.final_needs(st),
            self.left_low(st) == self.low(st.h, self.final_needs(st)),
            self.is_last(st) <==> self.untouched(st.h, self.final_needs(st)).len() == 0,
            self.inside(st.h) == self.outs.filter(|x: usize| stands(st.h, x)),
    {
        let nec = self.final_needs(st);
        assert forall|x: usize| #[trigger] placed(st.h, x) <==> stands(st.h, x) by {
            law_placed(st.h, x);
        }
        let a = |x: usize| !stands(st.h, x) && self.left_needs(st).contains(x);
        let b = |x: usize| !placed(st.h, x) && nec.contains(x);
        assert(a =~= b);
        let c = |x: usize| placed(st.h, x);
        let d = |x: usize| stands(st.h, x);
        assert(c =~= d);
        let e = |x: usize| !placed(st.h, x) && !nec.contains(x);
        let left = self.untouched(st.h, nec);
        assert(left == self.outs.filter(e));
        if left.len() == 0 {
            assert forall|x: usize| #[trigger] self.outs.contains(x) implies stands(st.h, x)
                || self.left_needs(st).contains(x) by {
                if e(x) {
                    let i = self.outs.index_of(x);
                    self.outs.lemma_filter_contains(e, i);
                }
            }
        } else {
            let x = left[0];
            self.outs.lemma_filter_pred(e, 0);
            self.outs.lemma_filter_contains_rev(e, x);
            assert(left.contains(x));
        }
    }

    /// How a stage comes about.
    pub proof fn law_build(self, stages: usize, reserved: nat, total: nat) -> (story: Story)
        requires
            self.wf(),
            stages_fit(stages),
            self.placeable(stages as int),
        ensures
            self.told(story, stages as nat, total),
            self.ends_as(
                story,
                self.build(stages as nat, reserved, total),
                stages as nat,
                reserved,
            ),
    {
        let ns = stages as nat;
        let r = self.build(ns, reserved, total);
        let start = self.fill_start(ns);
        self.lemma_build(stages, total);
        self.lemma_starts_with(ns);
        self.aig.lemma_topo(self.avail, self.outs);
        lemma_free_hier(ns);
        assert(self.fillable(start));
        let fills = self.lemma_fills(start);
        let st = fills.last();
        self.lemma_lists(st);
        let nec = self.final_needs(st);
        let low = self.low(st.h, nec);
        let gs = groups(st.h[1]);
        let free = free_hier(ns);
        lemma_stages_fit(stages);
        assert(free[1].len() == st.h[1].len());
        lemma_groups(st.h[1]);
        let s0 = Store { h: st.h, next: 0, done: Seq::empty(), write_outs: Seq::empty(), total };
        self.lemma_low(st.h, nec);
        let stores = self.lemma_stores(
            s0,
            low,
            self.untouched(st.h, nec).len() == 0,
            gs,
            0,
            st.h[1].len(),
        );
        let s = stores.last();
        let rest = self.lemma_puts(s.h, s.done, nec, 0);
        let story = Story { fills, stores, rest };
        assert forall|t: int| 0 < t <= stores.len() - 1 implies #[trigger] self.stores_in(
            stores[t - 1],
            stores[t],
            low,
            gs[t - 1].1,
        ) && self.uses_group(stores[t - 1], low, self.is_last(st), gs[t - 1].0) by {
            assert(self.group_step(
                stores,
                low,
                self.untouched(st.h, nec).len() == 0,
                gs,
                0,
                t,
            ));
        }
        assert forall|t: int| 0 < t < rest.len() implies #[trigger] self.puts_on(
            rest[t - 1],
            rest[t],
            s.done,
            nec[t - 1],
        ) by {
            assert(self.puts_on(rest[t - 1], rest[t], s.done, nec[0 + t - 1]));
        }
        assert(self.told(story, ns, total));
        if let Some(g) = self.place_rest(s.h, s.done, nec, 0) {
            lemma_slot_found(g[1]);
        }
        if r.stage is Some {
            let g = rest.last();
            let done = self.done_after(st, s, g, ns, reserved);
            let inside = self.inside(st.h);
            lemma_swap_removed_all(self.outs, done);
            lemma_inserted_all(s.done, inside);
            let steps = law_removed(self.outs, done);
            assert(is_removal(steps, self.outs, done, r.outs));
            assert forall|x: usize| #[trigger] inside.contains(x) <==> self.outs.contains(x) && stands(
                st.h,
                x,
            ) by {
                let d = |x: usize| stands(st.h, x);
                if inside.contains(x) {
                    let i = inside.index_of(x);
                    self.outs.lemma_filter_pred(d, i);
                    self.outs.lemma_filter_contains_rev(d, x);
                }
                if self.outs.contains(x) && stands(st.h, x) {
                    let i = self.outs.index_of(x);
                    assert(d(self.outs[i]));
                    self.outs.lemma_filter_contains(d, i);
                }
            }
        }
        story
    }
}

} // verus!
