//! Which pins one boomerang stage computes, and where it puts them.
//!
//! High rows are filled first, always with a pin that is as far from the
//! endpoints as possible, as long as row 1 keeps room for everything that has to
//! be there. Then row 1 is filled: endpoints that fit into groups of 32 slots are
//! stored right away, everything else follows in any free slot.
use crate::aig::{larger, pin_of, DriverType};
use crate::index_set::{
    inserted, inserted_all, lemma_distinct_bound, lemma_inserted, lemma_inserted_all,
    swap_removed_all,
};
use crate::pe::hier::{
    count_in, first_free, lemma_count_bound, lemma_count_update, lemma_first_free,
    lemma_placed_slot, lemma_same_shape_trans, placed, placed_below, put, same_shape, shaped,
    taken, Cone, Hier, FREE,
};
use crate::sorting::{lemma_sorted_pairs, sorted_pairs};
use vstd::arithmetic::power2::{
    lemma2_to64, lemma_pow2_adds, lemma_pow2_pos, lemma_pow2_strictly_increases, lemma_pow2_unfold,
    pow2,
};
use vstd::layout::unsigned_int_max_values;
use vstd::prelude::*;

verus! {

/// The number of placements after which the distances are computed anew.
pub const RECOMPUTE_AFTER: u32 = 64;

/// A count that makes the distances be computed anew at the next placement.
pub const RECOMPUTE_NOW: u32 = 100000;

/// The number of slots that are written out together.
pub const WORD: usize = 32;

/// A group of row 1 in which as many slots are taken is not used for endpoints.
pub const CROWDED: u8 = 10;

/// The state while the rows from 2 on are filled.
pub struct Fill {
    /// The hierarchy.
    pub h: Hier,
    /// The distances to the endpoints, as last computed.
    pub rl: Seq<Option<nat>>,
    /// The pins that row 1 has to hold, as last computed.
    pub nec: Seq<usize>,
    /// The row that is being filled.
    pub lvl: nat,
    /// The number of placements since the distances were computed.
    pub since: nat,
}

/// The state while endpoints are put into row 1.
pub struct Store {
    /// The hierarchy.
    pub h: Hier,
    /// The number of endpoints put into row 1 so far.
    pub next: nat,
    /// The endpoints that are written out.
    pub done: Seq<usize>,
    /// The words that are written out.
    pub write_outs: Seq<usize>,
    /// The number of words written out by the partition.
    pub total: nat,
}

/// One boomerang stage: its hierarchy and the words that are written out.
pub struct StageModel {
    pub hier: Hier,
    pub write_outs: Seq<usize>,
}

/// What an attempt to build a stage leads to.
pub struct StageResult {
    /// The stage, unless a resource is exhausted.
    pub stage: Option<StageModel>,
    /// The pins that remain to be realized.
    pub outs: Seq<usize>,
    /// The pins that are available afterwards.
    pub avail: Seq<usize>,
    /// The number of words written out by the partition.
    pub total: nat,
}

/// The larger of two numbers, the first of which may be absent.
pub open spec fn opt_larger(a: Option<nat>, b: nat) -> Option<nat> {
    match a {
        Some(a) => Some(larger(a, b)),
        None => Some(b),
    }
}

/// A hierarchy with all slots free.
pub open spec fn free_hier(stages: nat) -> Hier {
    Seq::new(
        stages + 1,
        |i: int| Seq::new(pow2((stages - i) as nat), |j: int| FREE),
    )
}

/// The number of words that a partition can write out.
pub open spec fn max_writeouts(stages: nat) -> nat {
    pow2((stages - 5) as nat)
}

/// Whether a hierarchy with so many rows above row 0 can be held, and written out
/// in words.
pub open spec fn stages_fit(stages: usize) -> bool {
    5 <= stages && stages + 5 <= usize::BITS
}

/// The sizes of a hierarchy that can be held.
pub proof fn lemma_stages_fit(stages: usize)
    requires
        stages_fit(stages),
    ensures
        pow2(stages as nat) <= usize::MAX / 16,
        max_writeouts(stages as nat) * 32 == pow2(stages as nat),
        max_writeouts(stages as nat) >= 1,
        forall|k: nat| k <= stages ==> 1 <= #[trigger] pow2(k) <= pow2(stages as nat),
{
    unsigned_int_max_values();
    let n = stages as nat;
    let bits = usize::BITS as nat;
    lemma2_to64();
    lemma_pow2_adds((n - 5) as nat, 5);
    lemma_pow2_adds((bits - 5) as nat, 5);
    lemma_pow2_pos((n - 5) as nat);
    if n < bits - 5 {
        lemma_pow2_strictly_increases(n, (bits - 5) as nat);
    }
    assert forall|k: nat| k <= n implies 1 <= #[trigger] pow2(k) <= pow2(n) by {
        lemma_pow2_pos(k);
        if k < n {
            lemma_pow2_strictly_increases(k, n);
        }
    }
}

/// A hierarchy with all slots free has the right shape.
pub proof fn lemma_free_hier(stages: nat)
    ensures
        shaped(free_hier(stages)),
        free_hier(stages).len() == stages + 1,
        forall|k: int, i: int|
            0 <= k <= stages && 0 <= i < free_hier(stages)[k].len()
                ==> #[trigger] free_hier(stages)[k][i] == FREE,
        forall|k: int|
            0 <= k <= stages ==> (#[trigger] free_hier(stages)[k]).len() == pow2(
                (stages - k) as nat,
            ),
{
    let h = free_hier(stages);
    assert forall|lo: int, hi: int|
        0 <= lo && hi == lo + 1 && hi < h.len() implies (#[trigger] h[lo]).len() == 2 * (
    #[trigger] h[hi]).len() by {
        lemma_pow2_unfold((stages - lo) as nat);
    }
    lemma2_to64();
    assert(h[stages as int].len() == pow2(0));
}

/// The first `k` groups of 32 slots of a row that are not crowded: the number of
/// taken slots and the first slot.
pub open spec fn groups_upto(row: Seq<usize>, k: int) -> Seq<(u8, usize)>
    decreases k,
{
    if k <= 0 {
        Seq::empty()
    } else {
        let occupied = taken(row.subrange((k - 1) * WORD, k * WORD));
        if occupied < CROWDED {
            groups_upto(row, k - 1).push((occupied as u8, ((k - 1) * WORD) as usize))
        } else {
            groups_upto(row, k - 1)
        }
    }
}

/// The groups of a row that are not crowded, those with most room first.
pub open spec fn groups(row: Seq<usize>) -> Seq<(u8, usize)> {
    sorted_pairs(groups_upto(row, row.len() as int / WORD as int))
}

/// The words of the first `k` slots of row `hi` that hold a pin of `pins` which is
/// not in `done`, added to `words`.
pub open spec fn words_in_row(
    words: Seq<usize>,
    row: Seq<usize>,
    pins: Seq<usize>,
    done: Seq<usize>,
    k: int,
) -> Seq<usize>
    decreases k,
{
    if k <= 0 {
        words
    } else {
        let w = words_in_row(words, row, pins, done, k - 1);
        if pins.contains(row[k - 1]) && !done.contains(row[k - 1]) {
            inserted(w, ((k - 1 + row.len()) / WORD as int) as usize)
        } else {
            w
        }
    }
}

/// The words of the rows from 1 up to, not including, `hi` that hold a pin of
/// `pins` which is not in `done`.
pub open spec fn words_below(h: Hier, pins: Seq<usize>, done: Seq<usize>, hi: int) -> Seq<usize>
    decreases hi,
{
    if hi <= 1 {
        Seq::empty()
    } else {
        words_in_row(
            words_below(h, pins, done, hi - 1),
            h[hi - 1],
            pins,
            done,
            h[hi - 1].len() as int,
        )
    }
}

/// All words of the slots in question are found, each once.
pub proof fn lemma_words_in_row(
    words: Seq<usize>,
    row: Seq<usize>,
    pins: Seq<usize>,
    done: Seq<usize>,
    k: int,
)
    ensures
        words.is_prefix_of(words_in_row(words, row, pins, done, k)),
        words.no_duplicates() ==> words_in_row(words, row, pins, done, k).no_duplicates(),
        forall|j: int|
            0 <= j < k && pins.contains(#[trigger] row[j]) && !done.contains(row[j])
                ==> words_in_row(words, row, pins, done, k).contains(
                ((j + row.len()) / WORD as int) as usize,
            ),
    decreases k,
{
    if k > 0 {
        lemma_words_in_row(words, row, pins, done, k - 1);
        let w = words_in_row(words, row, pins, done, k - 1);
        lemma_inserted(w, ((k - 1 + row.len()) / WORD as int) as usize);
    }
}

/// All words of the slots in question are found, each once.
pub proof fn lemma_words_below(h: Hier, pins: Seq<usize>, done: Seq<usize>, hi: int)
    ensures
        words_below(h, pins, done, hi).no_duplicates(),
        forall|k: int, j: int|
            1 <= k < hi && 0 <= j < h[k].len() && pins.contains(#[trigger] h[k][j])
                && !done.contains(h[k][j]) ==> words_below(h, pins, done, hi).contains(
                ((j + h[k].len()) / WORD as int) as usize,
            ),
    decreases hi,
{
    if hi > 1 {
        lemma_words_below(h, pins, done, hi - 1);
        let w = words_below(h, pins, done, hi - 1);
        let v = words_below(h, pins, done, hi);
        lemma_words_in_row(w, h[hi - 1], pins, done, h[hi - 1].len() as int);
        assert forall|k: int, j: int|
            1 <= k < hi && 0 <= j < h[k].len() && pins.contains(#[trigger] h[k][j])
                && !done.contains(h[k][j]) implies v.contains(
            ((j + h[k].len()) / WORD as int) as usize,
        ) by {
            if k < hi - 1 {
                let x = ((j + h[k].len()) / WORD as int) as usize;
                assert(w.contains(x));
                let i = w.index_of(x);
                assert(v[i] == x);
            }
        }
    }
}

/// The pins below `n` that are computed in a hierarchy, in increasing order.
pub open spec fn placed_pins(h: Hier, n: int) -> Seq<usize>
    decreases n,
{
    if n <= 0 {
        Seq::empty()
    } else if placed(h, (n - 1) as usize) {
        placed_pins(h, n - 1).push((n - 1) as usize)
    } else {
        placed_pins(h, n - 1)
    }
}

/// Exactly the pins that are computed are listed, each once.
pub proof fn lemma_placed_pins(h: Hier, n: int)
    requires
        n <= FREE,
    ensures
        placed_pins(h, n).no_duplicates(),
        forall|x: usize| #[trigger] placed_pins(h, n).contains(x) <==> x < n && placed(h, x),
    decreases n,
{
    if n > 0 {
        lemma_placed_pins(h, n - 1);
        let p = placed_pins(h, n - 1);
        let y = (n - 1) as usize;
        assert(!p.contains(y));
        lemma_inserted(p, y);
        assert(inserted(p, y) == p.push(y));
    }
}

/// Putting the state one row down.
pub open spec fn one_down(st: Fill) -> Fill {
    Fill { lvl: (st.lvl - 1) as nat, since: RECOMPUTE_NOW as nat, ..st }
}

/// The groups of a row lie in the row and are not crowded.
pub proof fn lemma_groups_upto(row: Seq<usize>, k: int)
    requires
        k * WORD <= row.len() <= usize::MAX,
    ensures
        k >= 0 ==> groups_upto(row, k).len() <= k,
        forall|x: (u8, usize)| #[trigger]
            groups_upto(row, k).contains(x) ==> x.1 + WORD <= row.len() && x.1 % WORD == 0 && x.0
                < CROWDED,
    decreases k,
{
    if k > 0 {
        lemma_groups_upto(row, k - 1);
        let p = groups_upto(row, k - 1);
        assert forall|x: (u8, usize)| #[trigger] groups_upto(row, k).contains(x) implies x.1 + WORD
            <= row.len() && x.1 % WORD == 0 && x.0 < CROWDED by {
            let i = groups_upto(row, k).index_of(x);
            if i < p.len() {
                assert(p.contains(p[i]));
            }
        }
    }
}

/// A row with all slots free consists of groups without taken slots.
pub proof fn lemma_groups_free(row: Seq<usize>, k: int)
    requires
        0 <= k,
        k * WORD <= row.len() <= usize::MAX,
        forall|i: int| 0 <= i < row.len() ==> #[trigger] row[i] == FREE,
    ensures
        groups_upto(row, k).len() == k,
    decreases k,
{
    if k > 0 {
        lemma_groups_free(row, k - 1);
        lemma_none_taken(row.subrange((k - 1) * WORD, k * WORD));
    }
}

/// Where all slots are free, none is taken.
pub proof fn lemma_none_taken(row: Seq<usize>)
    requires
        forall|i: int| 0 <= i < row.len() ==> #[trigger] row[i] == FREE,
    ensures
        taken(row) == 0,
    decreases row.len(),
{
    if row.len() > 0 {
        lemma_none_taken(row.drop_last());
        lemma_count_bound(row.drop_last(), FREE);
    }
}

/// The groups of a row lie in the row and are not crowded.
pub proof fn lemma_groups(row: Seq<usize>)
    requires
        row.len() <= usize::MAX,
    ensures
        groups(row).len() <= row.len() / WORD as nat,
        forall|k: int|
            0 <= k < groups(row).len() ==> (#[trigger] groups(row)[k]).1 + WORD <= row.len()
                && groups(row)[k].1 % WORD == 0 && groups(row)[k].0 < CROWDED,
{
    let k = row.len() as int / WORD as int;
    lemma_groups_upto(row, k);
    lemma_sorted_pairs(groups_upto(row, k));
    assert forall|i: int| 0 <= i < groups(row).len() implies (#[trigger] groups(row)[i]).1 + WORD
        <= row.len() && groups(row)[i].1 % WORD == 0 && groups(row)[i].0 < CROWDED by {
        assert(groups(row).contains(groups(row)[i]));
    }
}

impl Cone {
    /// Whether the pin at position `q` still has to be computed.
    pub open spec fn active(self, h: Hier, q: int) -> bool {
        !self.avail.contains(self.order()[q]) && !placed(h, self.order()[q])
    }

    /// Whether the pin at position `p` is an input of the one at position `q`.
    pub open spec fn feeds(self, p: int, q: int) -> bool {
        self.aig.sources(self.avail, self.order()[q]).contains(self.order()[p])
    }

    /// The largest number of steps from the pin at position `p` to an endpoint, if
    /// the first step leads to a position from `q` on, and no pin on the way but
    /// the first is computed yet.
    pub open spec fn steps_via(self, h: Hier, p: int, q: int) -> Option<nat>
        decreases self.order().len() - p, self.order().len() - q,
    {
        if q >= self.order().len() {
            if self.outs.contains(self.order()[p]) {
                Some(0)
            } else {
                None
            }
        } else {
            let later = self.steps_via(h, p, q + 1);
            if p < q && self.active(h, q) && self.feeds(p, q) {
                match self.steps_via(h, q, q + 1) {
                    Some(r) => opt_larger(later, r + 1),
                    None => later,
                }
            } else {
                later
            }
        }
    }

    /// The largest number of steps from the pin at position `p` to an endpoint, on
    /// ways on which no pin but the first is computed yet.
    pub open spec fn steps(self, h: Hier, p: int) -> Option<nat> {
        self.steps_via(h, p, p + 1)
    }

    /// The largest number of steps to an endpoint, for each position.
    pub open spec fn all_steps(self, h: Hier) -> Seq<Option<nat>> {
        Seq::new(self.order().len(), |p: int| self.steps(h, p))
    }

    /// The pin of a literal, if it is available and row 1 does not hold it yet.
    pub open spec fn direct_need(self, h: Hier, lit: usize) -> Seq<usize> {
        if lit >= 2 && self.level(pin_of(lit)) == 0 && !placed(h, pin_of(lit)) {
            seq![pin_of(lit)]
        } else {
            Seq::empty()
        }
    }

    /// What the pin at position `p` makes necessary in row 1: itself if it is an
    /// endpoint of level 0 or of level 1, its inputs of level 0 if it is higher.
    pub open spec fn needs(self, h: Hier, rl: Seq<Option<nat>>, p: int) -> Seq<usize> {
        let i = self.order()[p];
        if placed(h, i) || rl[p] is None {
            Seq::empty()
        } else if self.level(i) == 0 {
            if self.outs.contains(i) {
                seq![i]
            } else {
                Seq::empty()
            }
        } else if self.level(i) == 1 {
            seq![i]
        } else {
            match self.aig.drivers@[i as int] {
                DriverType::AndGate(a, b) => self.direct_need(h, a) + self.direct_need(h, b),
                _ => Seq::empty(),
            }
        }
    }

    /// What the first `k` positions make necessary in row 1.
    pub open spec fn needs_upto(self, h: Hier, rl: Seq<Option<nat>>, k: int) -> Seq<usize>
        decreases k,
    {
        if k <= 0 {
            Seq::empty()
        } else {
            inserted_all(self.needs_upto(h, rl, k - 1), self.needs(h, rl, k - 1))
        }
    }

    /// The pins that row 1 has to hold in addition to what it holds.
    pub open spec fn necessary(self, h: Hier, rl: Seq<Option<nat>>) -> Seq<usize> {
        self.needs_upto(h, rl, self.order().len() as int)
    }

    /// Whether the pin at position `p` can be put into row `lvl`.
    pub open spec fn candidate(self, h: Hier, rl: Seq<Option<nat>>, lvl: nat, p: int) -> bool {
        self.level(self.order()[p]) == lvl && !placed(h, self.order()[p]) && rl[p] is Some
    }

    /// The first of the candidates among the first `k` positions that are as far
    /// from an endpoint as possible.
    pub open spec fn best_upto(self, h: Hier, rl: Seq<Option<nat>>, lvl: nat, k: int) -> Option<
        int,
    >
        decreases k,
    {
        if k <= 0 {
            None
        } else {
            let prev = self.best_upto(h, rl, lvl, k - 1);
            if !self.candidate(h, rl, lvl, k - 1) {
                prev
            } else {
                match prev {
                    Some(p) => if rl[p].unwrap() < rl[k - 1].unwrap() {
                        Some(k - 1)
                    } else {
                        prev
                    },
                    None => Some(k - 1),
                }
            }
        }
    }

    /// The position of the pin to put into row `lvl` next.
    pub open spec fn best(self, h: Hier, rl: Seq<Option<nat>>, lvl: nat) -> Option<int> {
        self.best_upto(h, rl, lvl, self.order().len() as int)
    }

    /// Whether row 1 is too narrow for what it holds, or will hold of the pins
    /// computed, and what is necessary.
    pub open spec fn overflows(self, h: Hier, nec: Seq<usize>) -> bool {
        nec.len() + larger(taken(h[1]), placed_below(h, self.aig.num_aigpins + 1)) >= h[1].len()
    }

    /// One step of filling the rows from 2 on.
    pub open spec fn fill_step(self, st: Fill) -> Fill {
        match (first_free(st.h[st.lvl as int]), self.best(st.h, st.rl, st.lvl)) {
            (Some(slot), Some(p)) => {
                let h = self.place(st.h, st.lvl as int, slot, self.order()[p]);
                let since = st.since + 1;
                if since < RECOMPUTE_AFTER {
                    Fill { h, since, ..st }
                } else {
                    let rl = self.all_steps(h);
                    let nec = self.necessary(h, rl);
                    if self.overflows(h, nec) {
                        one_down(st)
                    } else {
                        Fill { h, rl, nec, lvl: st.lvl, since: 0 }
                    }
                }
            },
            _ => one_down(st),
        }
    }

    /// Whether a state can be filled further.
    pub open spec fn fillable(self, st: Fill) -> bool {
        &&& st.lvl < st.h.len()
        &&& forall|p: int| 0 <= p < self.order().len() ==> #[trigger] self.order()[p] != FREE
    }

    /// The state after the rows from 2 on are filled.
    pub open spec fn fill(self, st: Fill) -> Fill
        decreases st.lvl, count_in(st.h[st.lvl as int], FREE),
        when self.fillable(st)
    {
        if st.lvl < 2 {
            st
        } else {
            proof {
                self.lemma_fill_step(st);
            }
            self.fill(self.fill_step(st))
        }
    }

    /// The largest level among the first `k` positions.
    pub open spec fn top_level_upto(self, k: int) -> nat
        decreases k,
    {
        if k <= 0 {
            0
        } else {
            larger(self.top_level_upto(k - 1), self.level(self.order()[k - 1]))
        }
    }

    /// The state before anything is placed.
    pub open spec fn fill_start(self, stages: nat) -> Fill {
        let top = self.top_level_upto(self.order().len() as int);
        let h = free_hier(stages);
        Fill {
            h,
            rl: self.all_steps(h),
            nec: Seq::empty(),
            lvl: if top < stages {
                top
            } else {
                stages
            },
            since: 0,
        }
    }

    /// Storing at slot `j` of row 1: a free slot gets the next endpoint of `low`;
    /// an endpoint that is there is written out. Nothing happens after the last
    /// endpoint of `low`.
    pub open spec fn store_slot(self, s: Store, low: Seq<usize>, j: int) -> Store {
        if s.next >= low.len() {
            s
        } else if s.h[1][j] == FREE {
            let x = low[s.next as int];
            Store {
                h: self.place(s.h, 1, j, x),
                next: s.next + 1,
                done: inserted(s.done, x),
                ..s
            }
        } else if self.outs.contains(s.h[1][j]) {
            Store { done: inserted(s.done, s.h[1][j]), ..s }
        } else {
            s
        }
    }

    /// Storing at the `k` slots of row 1 from `start` on.
    pub open spec fn store_slots(self, s: Store, low: Seq<usize>, start: int, k: int) -> Store
        decreases k,
    {
        if k <= 0 {
            s
        } else {
            self.store_slot(self.store_slots(s, low, start, k - 1), low, start + k - 1)
        }
    }

    /// Storing at one group of row 1, which is then written out.
    pub open spec fn store_group(self, s: Store, low: Seq<usize>, start: usize) -> Store {
        let t = self.store_slots(s, low, start as int, WORD as int);
        Store {
            write_outs: t.write_outs.push(((start + s.h[1].len()) / WORD as int) as usize),
            total: t.total + 1,
            ..t
        }
    }

    /// Storing at the groups from number `g` on. Unless all remaining endpoints
    /// are of this stage, a group is used only if it can be filled.
    pub open spec fn store(
        self,
        s: Store,
        low: Seq<usize>,
        all: bool,
        gs: Seq<(u8, usize)>,
        g: int,
    ) -> Store
        decreases gs.len() - g,
    {
        if g < gs.len() && (all || low.len() - s.next >= WORD - gs[g].0) {
            self.store(self.store_group(s, low, gs[g].1), low, all, gs, g + 1)
        } else {
            s
        }
    }

    /// The pins of `nec` from position `k` on, put into free slots of row 1 unless
    /// they are computed or written out already; nothing if row 1 is full.
    pub open spec fn place_rest(
        self,
        h: Hier,
        done: Seq<usize>,
        nec: Seq<usize>,
        k: int,
    ) -> Option<Hier>
        decreases nec.len() - k,
    {
        if k >= nec.len() {
            Some(h)
        } else if placed(h, nec[k]) || done.contains(nec[k]) {
            self.place_rest(h, done, nec, k + 1)
        } else {
            match first_free(h[1]) {
                Some(j) => self.place_rest(self.place(h, 1, j, nec[k]), done, nec, k + 1),
                None => None,
            }
        }
    }

    /// The endpoints that the rows from 2 on hold.
    pub open spec fn inside(self, h: Hier) -> Seq<usize> {
        self.outs.filter(|x: usize| placed(h, x))
    }

    /// The endpoints that row 1 has to hold.
    pub open spec fn low(self, h: Hier, nec: Seq<usize>) -> Seq<usize> {
        self.outs.filter(|x: usize| !placed(h, x) && nec.contains(x))
    }

    /// The endpoints left to later stages.
    pub open spec fn untouched(self, h: Hier, nec: Seq<usize>) -> Seq<usize> {
        self.outs.filter(|x: usize| !placed(h, x) && !nec.contains(x))
    }

    /// The pins that row 1 has to hold once the rows from 2 on are filled.
    pub open spec fn final_needs(self, st: Fill) -> Seq<usize> {
        if st.nec.len() == 0 {
            self.necessary(st.h, st.rl)
        } else {
            st.nec
        }
    }

    /// The state after endpoints are stored in row 1.
    pub open spec fn stored(self, st: Fill, total: nat) -> Store {
        let nec = self.final_needs(st);
        self.store(
            Store { h: st.h, next: 0, done: Seq::empty(), write_outs: Seq::empty(), total },
            self.low(st.h, nec),
            self.untouched(st.h, nec).len() == 0,
            groups(st.h[1]),
            0,
        )
    }

    /// The endpoints that the stage with hierarchy `g` writes out.
    pub open spec fn done_after(
        self,
        st: Fill,
        s: Store,
        g: Hier,
        stages: nat,
        reserved: nat,
    ) -> Seq<usize> {
        let inside = self.inside(st.h);
        let all = self.untouched(st.h, self.final_needs(st)).len() == 0;
        let extra = words_below(g, inside, s.done, g.len() as int);
        if all && extra.len() + s.total + reserved <= max_writeouts(stages) {
            inserted_all(s.done, inside)
        } else {
            s.done
        }
    }

    /// The stage with hierarchy `g`. If no endpoint is left to later stages, the
    /// endpoints inside are written out too, provided that there is room for it.
    pub open spec fn finished(
        self,
        st: Fill,
        s: Store,
        g: Hier,
        stages: nat,
        reserved: nat,
    ) -> StageResult {
        let inside = self.inside(st.h);
        let all = self.untouched(st.h, self.final_needs(st)).len() == 0;
        let extra = words_below(g, inside, s.done, g.len() as int);
        let last = all && extra.len() + s.total + reserved <= max_writeouts(stages);
        let done = self.done_after(st, s, g, stages, reserved);
        StageResult {
            stage: Some(
                StageModel {
                    hier: g,
                    write_outs: if last {
                        s.write_outs + extra
                    } else {
                        s.write_outs
                    },
                },
            ),
            outs: swap_removed_all(self.outs, done),
            avail: inserted_all(self.avail, placed_pins(g, self.aig.num_aigpins + 1)),
            total: if last {
                s.total + extra.len()
            } else {
                s.total
            },
        }
    }

    /// What building one stage leads to, if the partition has written out `total`
    /// words so far and `reserved` words are reserved.
    pub open spec fn build(self, stages: nat, reserved: nat, total: nat) -> StageResult {
        let st = self.fill(self.fill_start(stages));
        let s = self.stored(st, total);
        let none = StageResult { stage: None, outs: self.outs, avail: self.avail, total: s.total };
        if s.total + reserved > max_writeouts(stages) {
            none
        } else {
            match self.place_rest(s.h, s.done, self.final_needs(st), 0) {
                Some(g) => if first_free(g[1]) is Some {
                    self.finished(st, s, g, stages, reserved)
                } else {
                    none
                },
                None => none,
            }
        }
    }

    /// Putting a pin into a slot leaves the rows above alone, and changes one slot
    /// of its own row.
    pub proof fn lemma_place_row(self, h: Hier, hi: int, j: int, nd: usize)
        requires
            0 <= hi < h.len(),
        ensures
            self.place(h, hi, j, nd).len() == h.len(),
            self.place(h, hi, j, nd)[hi] == h[hi].update(j, nd),
            forall|k: int| hi < k < h.len() ==> #[trigger] self.place(h, hi, j, nd)[k] == h[k],
        decreases hi,
    {
        let h1 = put(h, hi, j, nd);
        if hi > 0 {
            if self.level(nd) != hi {
                self.lemma_place_row(h1, hi - 1, j, nd);
            } else {
                match self.aig.drivers@[nd as int] {
                    DriverType::AndGate(a, b) => {
                        self.lemma_place_row(h1, hi - 1, j, pin_of(a));
                        let h2 = self.place(h1, hi - 1, j, pin_of(a));
                        self.lemma_place_row(h2, hi - 1, j + h[hi].len(), pin_of(b));
                    },
                    _ => {},
                }
            }
        }
    }

    /// The best candidate is a candidate, as far from an endpoint as any, and the
    /// first of those.
    pub proof fn lemma_best(self, h: Hier, rl: Seq<Option<nat>>, lvl: nat, k: int)
        requires
            k <= self.order().len(),
        ensures
            match self.best_upto(h, rl, lvl, k) {
                Some(p) => {
                    &&& 0 <= p < k
                    &&& self.candidate(h, rl, lvl, p)
                    &&& forall|q: int|
                        0 <= q < k && #[trigger] self.candidate(h, rl, lvl, q) ==> {
                            ||| rl[q].unwrap() < rl[p].unwrap()
                            ||| rl[q].unwrap() == rl[p].unwrap() && p <= q
                        }
                },
                None => forall|q: int| 0 <= q < k ==> !#[trigger] self.candidate(h, rl, lvl, q),
            },
        decreases k,
    {
        if k > 0 {
            self.lemma_best(h, rl, lvl, k - 1);
        }
    }

    /// The number of steps to an endpoint is less than the number of positions
    /// that follow.
    pub proof fn lemma_steps_bound(self, h: Hier, p: int, q: int)
        requires
            0 <= p < self.order().len(),
        ensures
            self.steps_via(h, p, q) matches Some(r) ==> r + p < self.order().len(),
        decreases self.order().len() - p, self.order().len() - q,
    {
        if q < self.order().len() {
            self.lemma_steps_bound(h, p, q + 1);
            if p < q {
                self.lemma_steps_bound(h, q, q + 1);
            }
        }
    }

    /// There is a way to an endpoint if a later pin on the way has one.
    pub proof fn lemma_steps_via(self, h: Hier, p: int, q: int, m: int)
        requires
            p < q <= m < self.order().len() && self.active(h, m) && self.feeds(p, m) && self.steps(
                h,
                m,
            ) is Some || self.outs.contains(self.order()[p]),
        ensures
            self.steps_via(h, p, q) is Some,
        decreases self.order().len() - q,
    {
        if q < self.order().len() && q != m {
            self.lemma_steps_via(h, p, q + 1, m);
        } else if q < self.order().len() && self.outs.contains(self.order()[p]) {
            self.lemma_steps_via(h, p, q + 1, m);
        }
    }

    /// From a gate that still has to be computed there is a way to an endpoint.
    pub proof fn lemma_steps_some(self, h: Hier, q: int)
        requires
            self.wf(),
            shaped(h),
            self.fed(h, h.len() - 1),
            0 <= q < self.order().len(),
            self.active(h, q),
            self.level(self.order()[q]) >= 1,
        ensures
            self.steps(h, q) is Some,
        decreases self.order().len() - q,
    {
        let s = self.order();
        self.aig.lemma_topo(self.avail, self.outs);
        if self.outs.contains(s[q]) {
            self.lemma_steps_via(h, q, q + 1, q);
        } else {
            let m = choose|m: int|
                q < m < s.len() && self.aig.sources(self.avail, #[trigger] s[m]).contains(s[q]);
            assert(s.contains(s[m]));
            self.lemma_sources(s[m]);
            assert(self.level(s[m]) > self.level(s[q])) by {
                match self.aig.drivers@[s[m] as int] {
                    DriverType::AndGate(a, b) => {},
                    _ => {},
                }
            }
            assert(!self.avail.contains(s[m]));
            if placed(h, s[m]) {
                let (hi, j) = lemma_placed_slot(h, s[m]);
                self.lemma_inputs_placed(h, hi, j, s[q]);
            }
            self.lemma_steps_some(h, m);
            self.lemma_steps_via(h, q, q + 1, m);
        }
    }

    /// What a position makes necessary is necessary.
    pub proof fn lemma_needs_member(
        self,
        h: Hier,
        rl: Seq<Option<nat>>,
        p: int,
        x: usize,
        k: int,
    )
        requires
            0 <= p < k,
            self.needs(h, rl, p).contains(x),
        ensures
            self.needs_upto(h, rl, k).contains(x),
        decreases k,
    {
        lemma_inserted_all(self.needs_upto(h, rl, k - 1), self.needs(h, rl, k - 1));
        if p < k - 1 {
            self.lemma_needs_member(h, rl, p, x, k - 1);
        }
    }

    /// What row 1 has to hold: distinct pins of level at most 1.
    pub proof fn lemma_needs(self, h: Hier, rl: Seq<Option<nat>>, k: int)
        requires
            self.wf(),
            k <= self.order().len(),
        ensures
            self.needs_upto(h, rl, k).no_duplicates(),
            forall|x: usize| #[trigger]
                self.needs_upto(h, rl, k).contains(x) ==> self.order().contains(x) && self.level(x)
                    <= 1,
        decreases k,
    {
        if k > 0 {
            let i = self.order()[k - 1];
            self.lemma_needs(h, rl, k - 1);
            lemma_inserted_all(self.needs_upto(h, rl, k - 1), self.needs(h, rl, k - 1));
            assert(self.order().contains(i));
            self.lemma_sources(i);
            assert forall|x: usize| #[trigger] self.needs(h, rl, k - 1).contains(x) implies self.order().contains(
                x,
            ) && self.level(x) <= 1 by {
                if self.level(i) >= 2 {
                    match self.aig.drivers@[i as int] {
                        DriverType::AndGate(a, b) => {},
                        _ => {},
                    }
                }
            }
        }
    }

    /// Distinct pins of the cone are at most as many as there are pins.
    pub proof fn lemma_distinct_needs(self, s: Seq<usize>)
        requires
            self.wf(),
            s.no_duplicates(),
            forall|x: usize| #[trigger] s.contains(x) ==> self.order().contains(x),
        ensures
            s.len() <= self.aig.num_aigpins + 1,
    {
        assert forall|k: int| 0 <= k < s.len() implies #[trigger] s[k] <= self.aig.num_aigpins by {
            assert(s.contains(s[k]));
            self.lemma_sources(s[k]);
        }
        lemma_distinct_bound(s, self.aig.num_aigpins as int);
    }

    /// Whether all pins of `low` are endpoints that row 1 can hold.
    pub open spec fn storable(self, low: Seq<usize>) -> bool {
        forall|k: int|
            0 <= k < low.len() ==> {
                &&& self.outs.contains(#[trigger] low[k])
                &&& self.order().contains(low[k])
                &&& self.level(low[k]) <= 1
            }
    }

    /// Whether `s` is a state that storing can lead to in a hierarchy of the shape
    /// of `h`: what is written out are endpoints.
    pub open spec fn storing(self, h: Hier, s: Store, low: Seq<usize>) -> bool {
        &&& self.good(s.h, 1)
        &&& same_shape(h, s.h)
        &&& s.next <= low.len()
        &&& s.done.no_duplicates()
        &&& forall|x: usize| #[trigger] s.done.contains(x) ==> self.outs.contains(x)
    }

    /// Storing at a slot leads to such a state again.
    pub proof fn lemma_store_slot(self, h: Hier, s: Store, low: Seq<usize>, j: int)
        requires
            self.wf(),
            self.storable(low),
            self.storing(h, s, low),
            h.len() >= 2,
            0 <= j < h[1].len(),
        ensures
            self.storing(h, self.store_slot(s, low, j), low),
            self.store_slot(s, low, j).total == s.total,
            self.store_slot(s, low, j).write_outs == s.write_outs,
    {
        assert(h[1].len() == s.h[1].len());
        if s.next < low.len() && s.h[1][j] == FREE {
            let x = low[s.next as int];
            self.lemma_good_place(s.h, 1, j, x);
            lemma_same_shape_trans(h, s.h, self.place(s.h, 1, j, x));
            lemma_inserted(s.done, x);
        } else {
            lemma_inserted(s.done, s.h[1][j]);
        }
    }

    /// Storing at several slots leads to such a state again.
    pub proof fn lemma_store_slots(self, h: Hier, s: Store, low: Seq<usize>, start: int, k: int)
        requires
            self.wf(),
            self.storable(low),
            self.storing(h, s, low),
            h.len() >= 2,
            0 <= start,
            0 <= k,
            start + k <= h[1].len(),
        ensures
            self.storing(h, self.store_slots(s, low, start, k), low),
            self.store_slots(s, low, start, k).total == s.total,
            self.store_slots(s, low, start, k).write_outs == s.write_outs,
        decreases k,
    {
        if k > 0 {
            self.lemma_store_slots(h, s, low, start, k - 1);
            self.lemma_store_slot(
                h,
                self.store_slots(s, low, start, k - 1),
                low,
                start + k - 1,
            );
        }
    }

    /// Storing at groups leads to such a state again, and writes out at most as
    /// many words as there are groups.
    pub proof fn lemma_store(
        self,
        h: Hier,
        s: Store,
        low: Seq<usize>,
        all: bool,
        gs: Seq<(u8, usize)>,
        g: int,
    )
        requires
            self.wf(),
            self.storable(low),
            self.storing(h, s, low),
            h.len() >= 2,
            0 <= g <= gs.len(),
            forall|k: int|
                0 <= k < gs.len() ==> (#[trigger] gs[k]).1 + WORD <= h[1].len() && gs[k].0 < CROWDED,
        ensures
            ({
                let t = self.store(s, low, all, gs, g);
                &&& self.storing(h, t, low)
                &&& s.total <= t.total <= s.total + (gs.len() - g)
                &&& t.write_outs.len() - s.write_outs.len() == t.total - s.total
            }),
        decreases gs.len() - g,
    {
        if g < gs.len() && (all || low.len() - s.next >= WORD - gs[g].0) {
            self.lemma_store_slots(h, s, low, gs[g].1 as int, WORD as int);
            self.lemma_store(h, self.store_group(s, low, gs[g].1), low, all, gs, g + 1);
        }
    }

    /// A step goes down a row or takes a slot of its row.
    pub proof fn lemma_fill_step(self, st: Fill)
        requires
            self.fillable(st),
            st.lvl >= 2,
        ensures
            self.fillable(self.fill_step(st)),
            self.fill_step(st).h.len() == st.h.len(),
            self.fill_step(st).lvl == st.lvl - 1 || {
                &&& self.fill_step(st).lvl == st.lvl
                &&& count_in(self.fill_step(st).h[st.lvl as int], FREE) < count_in(
                    st.h[st.lvl as int],
                    FREE,
                )
            },
    {
        let lvl = st.lvl as int;
        let row = st.h[lvl];
        lemma_first_free(row, 0);
        self.lemma_best(st.h, st.rl, st.lvl, self.order().len() as int);
        match (first_free(row), self.best(st.h, st.rl, st.lvl)) {
            (Some(slot), Some(p)) => {
                self.lemma_place_row(st.h, lvl, slot, self.order()[p]);
                lemma_count_update(row, slot, self.order()[p], FREE);
            },
            _ => {},
        }
    }
}

} // verus!
