//! What a boomerang stage is built from: distances, pins that row 1 has to hold, groups of
//! slots, and how a pin is put on top of what it is computed from.
use crate::aig::{pin_of, DriverType};
use crate::index_order::{law_inserted_order, occurs_before};
use crate::index_set::{inserted_all, lemma_inserted, lemma_inserted_all};
use crate::pe::hier::{
    free_below, lemma_count_bound, lemma_free_under, lemma_placed_at, lemma_placed_slot,
    lemma_put_shape, lemma_same_outside, lemma_under, lemma_under_self, placed, placed_below, put,
    shaped, taken, Cone, Hier, FREE,
};
use crate::pe::plan::{groups, groups_upto, lemma_groups_upto, words_below, words_in_row, WORD};
use crate::sorting::{lemma_sorted_pairs, pair_leq};
use vstd::arithmetic::div_mod::{lemma_mod_add_multiples_vanish, lemma_small_mod};
use vstd::prelude::*;
use vstd::relations::total_ordering;

verus! {

/// Whether a slot above row 0 holds a pin.
pub open spec fn stands(h: Hier, x: usize) -> bool {
    exists|k: int, i: int| 1 <= k < h.len() && 0 <= i < h[k].len() && #[trigger] h[k][i] == x
}

/// The slots of a row from `a` up to, not including, `b` that hold something.
pub open spec fn slots_taken(row: Seq<usize>, a: int, b: int) -> Set<int> {
    Set::new(|i: int| a <= i < b && row[i] != FREE)
}

/// The pins below `n` that slots above row 0 hold.
pub open spec fn pins_standing(h: Hier, n: int) -> Set<usize> {
    Set::new(|x: usize| x < n && stands(h, x))
}

/// A pin is computed in a hierarchy if and only if a slot above row 0 holds it.
pub proof fn law_placed(h: Hier, x: usize)
    ensures
        placed(h, x) <==> stands(h, x),
{
    if placed(h, x) {
        let (k, i) = lemma_placed_slot(h, x);
    }
    if stands(h, x) {
        let (k, i) = choose|k: int, i: int|
            1 <= k < h.len() && 0 <= i < h[k].len() && #[trigger] h[k][i] == x;
        lemma_placed_at(h, k, i);
    }
}

/// The number of slots of a piece of a row that are taken.
pub proof fn law_taken(row: Seq<usize>, a: int, b: int)
    requires
        0 <= a <= b <= row.len(),
    ensures
        slots_taken(row, a, b).finite(),
        taken(row.subrange(a, b)) == slots_taken(row, a, b).len(),
    decreases b - a,
{
    let piece = row.subrange(a, b);
    let set = slots_taken(row, a, b);
    if a == b {
        assert(set =~= Set::empty());
        lemma_count_bound(piece, FREE);
    } else {
        let less = slots_taken(row, a, b - 1);
        law_taken(row, a, b - 1);
        assert(piece.drop_last() =~= row.subrange(a, b - 1));
        assert(piece.last() == row[b - 1]);
        lemma_count_bound(piece.drop_last(), FREE);
        if row[b - 1] == FREE {
            assert(set =~= less);
        } else {
            assert(set =~= less.insert(b - 1));
        }
    }
}

/// The number of pins that are computed.
pub proof fn law_placed_count(h: Hier, n: int)
    requires
        n <= FREE,
    ensures
        pins_standing(h, n).finite(),
        placed_below(h, n) == pins_standing(h, n).len(),
    decreases n,
{
    let set = pins_standing(h, n);
    if n <= 0 {
        assert(set =~= Set::empty());
    } else {
        let x = (n - 1) as usize;
        law_placed_count(h, n - 1);
        law_placed(h, x);
        let less = pins_standing(h, n - 1);
        if stands(h, x) {
            assert(set =~= less.insert(x));
        } else {
            assert(set =~= less);
        }
    }
}

/// The groups for endpoints are the pieces of 32 slots of which fewer than 10 are taken, each
/// once, those with fewest taken slots first, and among equals the leftmost first.
pub proof fn law_groups(row: Seq<usize>)
    requires
        row.len() <= usize::MAX,
    ensures
        ({
            let gs = groups(row);
            &&& gs.no_duplicates()
            &&& forall|x: (u8, usize)| #[trigger]
                gs.contains(x) <==> {
                    &&& x.1 % 32 == 0
                    &&& x.1 + 32 <= row.len()
                    &&& x.0 < 10
                    &&& x.0 == slots_taken(row, x.1 as int, x.1 + 32).len()
                }
            &&& forall|i: int, j: int|
                0 <= i < j < gs.len() ==> (#[trigger] gs[i]).0 < (#[trigger] gs[j]).0 || (gs[i].0
                    == gs[j].0 && gs[i].1 < gs[j].1)
        }),
{
    let n = row.len() as int / WORD as int;
    let p = groups_upto(row, n);
    let gs = groups(row);
    lemma_groups_upto(row, n);
    lemma_groups_found(row, n);
    lemma_sorted_pairs(p);
    let leq = |a: (u8, usize), b: (u8, usize)| pair_leq(a, b);
    assert(total_ordering(leq));
    p.lemma_sort_by_ensures(leq);
    p.lemma_multiset_has_no_duplicates();
    gs.lemma_multiset_has_no_duplicates_conv();
    assert forall|x: (u8, usize)| #[trigger] gs.contains(x) <==> {
        &&& x.1 % 32 == 0
        &&& x.1 + 32 <= row.len()
        &&& x.0 < 10
        &&& x.0 == slots_taken(row, x.1 as int, x.1 + 32).len()
    } by {
        if x.1 % 32 == 0 && x.1 + 32 <= row.len() {
            assert(p.contains(x) <==> x.0 < 10 && x.0 == slots_taken(
                row,
                x.1 as int,
                x.1 + 32,
            ).len());
        }
        if gs.contains(x) {
            assert(p.contains(x));
        }
    }
    assert forall|i: int, j: int| 0 <= i < j < gs.len() implies (#[trigger] gs[i]).0 < (
    #[trigger] gs[j]).0 || (gs[i].0 == gs[j].0 && gs[i].1 < gs[j].1) by {
        assert(leq(gs[i], gs[j]));
        assert(gs[i] != gs[j]);
    }
}

proof fn lemma_groups_found(row: Seq<usize>, k: int)
    requires
        0 <= k,
        k * WORD <= row.len() <= usize::MAX,
    ensures
        groups_upto(row, k).no_duplicates(),
        forall|x: (u8, usize)| #[trigger]
            groups_upto(row, k).contains(x) <==> {
                &&& x.1 % 32 == 0
                &&& x.1 + 32 <= k * 32
                &&& x.0 < 10
                &&& x.0 == slots_taken(row, x.1 as int, x.1 + 32).len()
            },
    decreases k,
{
    if k > 0 {
        lemma_groups_found(row, k - 1);
        let p = groups_upto(row, k - 1);
        let g = groups_upto(row, k);
        let start = (k - 1) * WORD;
        law_taken(row, start, k * WORD);
        let n = taken(row.subrange(start, k * WORD));
        let new = (n as u8, start as usize);
        assert(start + 32 == k * WORD);
        assert forall|x: (u8, usize)| #[trigger] g.contains(x) <==> {
            &&& x.1 % 32 == 0
            &&& x.1 + 32 <= k * 32
            &&& x.0 < 10
            &&& x.0 == slots_taken(row, x.1 as int, x.1 + 32).len()
        } by {
            assert(p.contains(x) <==> x.1 % 32 == 0 && x.1 + 32 <= (k - 1) * 32 && x.0 < 10 && x.0
                == slots_taken(row, x.1 as int, x.1 + 32).len());
            if n < 10 {
                assert(g == p.push(new));
                if p.contains(x) {
                    let i = p.index_of(x);
                    assert(g[i] == x);
                }
                assert(g[p.len() as int] == new);
                if g.contains(x) && !p.contains(x) {
                    let i = g.index_of(x);
                    if i < p.len() {
                        assert(p[i] == x);
                    }
                    assert(x == new);
                }
            }
            if x.1 % 32 == 0 && x.1 + 32 <= k * 32 && x.1 + 32 > (k - 1) * 32 {
                assert(x.1 == start);
            }
        }
        if n < 10 {
            assert(!p.contains(new));
        }
    }
}

/// The words of the slots above row 0 that hold pins of `pins` which are not in `done`: exactly
/// those, each once.
pub proof fn law_words(h: Hier, pins: Seq<usize>, done: Seq<usize>)
    requires
        shaped(h),
        h[0].len() <= usize::MAX / 4,
    ensures
        ({
            let ws = words_below(h, pins, done, h.len() as int);
            &&& ws.no_duplicates()
            &&& forall|w: usize| #[trigger]
                ws.contains(w) <==> exists|k: int, i: int|
                    1 <= k < h.len() && 0 <= i < h[k].len() && pins.contains(#[trigger] h[k][i])
                        && !done.contains(h[k][i]) && w == (h[k].len() + i) / 32
        }),
{
    lemma_words_below_are(h, pins, done, h.len() as int);
}

proof fn lemma_row_words(
    words: Seq<usize>,
    row: Seq<usize>,
    pins: Seq<usize>,
    done: Seq<usize>,
    k: int,
)
    requires
        words.no_duplicates(),
        0 <= k <= row.len() <= usize::MAX / 4,
    ensures
        ({
            let ws = words_in_row(words, row, pins, done, k);
            &&& ws.no_duplicates()
            &&& forall|w: usize| #[trigger]
                ws.contains(w) <==> words.contains(w) || exists|i: int|
                    0 <= i < k && pins.contains(#[trigger] row[i]) && !done.contains(row[i]) && w == (
                    row.len() + i) / 32
        }),
    decreases k,
{
    if k > 0 {
        lemma_row_words(words, row, pins, done, k - 1);
        let less = words_in_row(words, row, pins, done, k - 1);
        let ws = words_in_row(words, row, pins, done, k);
        let new = ((k - 1 + row.len()) / WORD as int) as usize;
        lemma_inserted(less, new);
        assert forall|w: usize| #[trigger] ws.contains(w) <==> words.contains(w) || exists|i: int|
            0 <= i < k && pins.contains(#[trigger] row[i]) && !done.contains(row[i]) && w == (
            row.len() + i) / 32 by {
            if ws.contains(w) && !less.contains(w) {
                assert(pins.contains(row[k - 1]) && !done.contains(row[k - 1]));
            }
            if less.contains(w) && !words.contains(w) {
                let i = choose|i: int|
                    0 <= i < k - 1 && pins.contains(#[trigger] row[i]) && !done.contains(row[i]) && w
                        == (row.len() + i) / 32;
                assert(pins.contains(row[i]));
            }
        }
    }
}

proof fn lemma_words_below_are(h: Hier, pins: Seq<usize>, done: Seq<usize>, hi: int)
    requires
        shaped(h),
        1 <= hi <= h.len(),
        h[0].len() <= usize::MAX / 4,
    ensures
        h[hi - 1].len() <= h[0].len(),
        ({
            let ws = words_below(h, pins, done, hi);
            &&& ws.no_duplicates()
            &&& forall|w: usize| #[trigger]
                ws.contains(w) <==> exists|k: int, i: int|
                    1 <= k < hi && 0 <= i < h[k].len() && pins.contains(#[trigger] h[k][i])
                        && !done.contains(h[k][i]) && w == (h[k].len() + i) / 32
        }),
    decreases hi,
{
    if hi > 1 {
        lemma_words_below_are(h, pins, done, hi - 1);
        assert(h[hi - 2].len() == 2 * h[hi - 1].len());
        let row = h[hi - 1];
        let less = words_below(h, pins, done, hi - 1);
        let ws = words_below(h, pins, done, hi);
        lemma_row_words(less, row, pins, done, row.len() as int);
        assert forall|w: usize| #[trigger] ws.contains(w) <==> exists|k: int, i: int|
            1 <= k < hi && 0 <= i < h[k].len() && pins.contains(#[trigger] h[k][i])
                && !done.contains(h[k][i]) && w == (h[k].len() + i) / 32 by {
            if ws.contains(w) && !less.contains(w) {
                let i = choose|i: int|
                    0 <= i < row.len() && pins.contains(#[trigger] row[i]) && !done.contains(row[i])
                        && w == (row.len() + i) / 32;
                assert(pins.contains(h[hi - 1][i]));
            }
            if less.contains(w) {
                let (k, i) = choose|k: int, i: int|
                    1 <= k < hi - 1 && 0 <= i < h[k].len() && pins.contains(#[trigger] h[k][i])
                        && !done.contains(h[k][i]) && w == (h[k].len() + i) / 32;
                assert(pins.contains(h[k][i]));
            }
            if exists|k: int, i: int|
                1 <= k < hi && 0 <= i < h[k].len() && pins.contains(#[trigger] h[k][i])
                    && !done.contains(h[k][i]) && w == (h[k].len() + i) / 32 {
                let (k, i) = choose|k: int, i: int|
                    1 <= k < hi && 0 <= i < h[k].len() && pins.contains(#[trigger] h[k][i])
                        && !done.contains(h[k][i]) && w == (h[k].len() + i) / 32;
                if k == hi - 1 {
                    assert(pins.contains(row[i]));
                } else {
                    assert(less.contains(w));
                }
            }
        }
    }
}

impl Cone {
    /// Whether a list of positions is a way to an endpoint: each pin but the first is computed
    /// from the one before it, is not available, and is not computed in the hierarchy.
    pub open spec fn is_way(self, h: Hier, way: Seq<int>) -> bool {
        &&& way.len() > 0
        &&& forall|t: int| 0 <= t < way.len() ==> 0 <= #[trigger] way[t] < self.order().len()
        &&& forall|t: int| 0 < t < way.len() ==> #[trigger] self.leads(h, way[t - 1], way[t])
        &&& self.outs.contains(self.order()[way.last()])
    }

    /// Whether the pin at position `q` is still to be computed, and from the one at `p`.
    pub open spec fn leads(self, h: Hier, p: int, q: int) -> bool {
        let u = self.order()[q];
        &&& self.aig.computes(self.avail, self.order()[p], u)
        &&& !self.avail.contains(u)
        &&& !stands(h, u)
    }

    proof fn lemma_leads(self, h: Hier, p: int, q: int)
        requires
            self.wf(),
            0 <= p < self.order().len(),
            0 <= q < self.order().len(),
        ensures
            self.leads(h, p, q) <==> self.active(h, q) && self.feeds(p, q),
            self.leads(h, p, q) ==> p < q,
    {
        let s = self.order();
        law_placed(h, s[q]);
        self.aig.law_topo(self.avail, self.outs);
        self.aig.lemma_sources_is(self.avail, s[p], s[q]);
    }

    /// The distance of a pin is the number of steps of the longest way from it to an endpoint;
    /// there is none if there is no way.
    pub proof fn law_steps(self, h: Hier, p: int)
        requires
            self.wf(),
            0 <= p < self.order().len(),
        ensures
            match self.steps(h, p) {
                Some(r) => {
                    &&& exists|way: Seq<int>| #[trigger]
                        self.is_way(h, way) && way[0] == p && way.len() == r + 1
                    &&& forall|way: Seq<int>| #[trigger]
                        self.is_way(h, way) && way[0] == p ==> way.len() <= r + 1
                },
                None => forall|way: Seq<int>| #[trigger] self.is_way(h, way) ==> way[0] != p,
            },
    {
        self.lemma_ways(h, p, p + 1);
        assert forall|way: Seq<int>| #[trigger]
            self.is_way(h, way) && way[0] == p implies self.starts(way, p, p + 1) by {
            if way.len() > 1 {
                assert(self.leads(h, way[1 - 1], way[1]));
                self.lemma_leads(h, p, way[1]);
            }
        }
    }

    /// Whether a way starts at `p` and ends there or goes on to a position from `q` on.
    spec fn starts(self, way: Seq<int>, p: int, q: int) -> bool {
        way[0] == p && (way.len() == 1 || way[1] >= q)
    }

    proof fn lemma_ways(self, h: Hier, p: int, q: int)
        requires
            self.wf(),
            0 <= p < q <= self.order().len(),
        ensures
            match self.steps_via(h, p, q) {
                Some(r) => {
                    &&& exists|way: Seq<int>| #[trigger]
                        self.is_way(h, way) && self.starts(way, p, q) && way.len() == r + 1
                    &&& forall|way: Seq<int>| #[trigger]
                        self.is_way(h, way) && self.starts(way, p, q) ==> way.len() <= r + 1
                },
                None => forall|way: Seq<int>| #[trigger]
                    self.is_way(h, way) ==> !self.starts(way, p, q),
            },
        decreases self.order().len() - p, self.order().len() - q,
    {
        let n = self.order().len();
        if q >= n {
            let one = seq![p];
            if self.outs.contains(self.order()[p]) {
                assert(self.is_way(h, one));
            }
            assert forall|way: Seq<int>| #[trigger]
                self.is_way(h, way) && self.starts(way, p, q) implies way.len() == 1
                && self.outs.contains(self.order()[p]) by {
                if way.len() > 1 {
                    assert(way[1] < n);
                }
            }
        } else {
            self.lemma_ways(h, p, q + 1);
            self.lemma_leads(h, p, q);
            if self.leads(h, p, q) {
                self.lemma_ways(h, q, q + 1);
                if let Some(r) = self.steps_via(h, q, q + 1) {
                    let w = choose|way: Seq<int>| #[trigger]
                        self.is_way(h, way) && self.starts(way, q, q + 1) && way.len() == r + 1;
                    let longer = seq![p] + w;
                    assert forall|t: int| 0 < t < longer.len() implies #[trigger] self.leads(
                        h,
                        longer[t - 1],
                        longer[t],
                    ) by {
                        if t > 1 {
                            assert(self.leads(h, w[t - 1 - 1], w[t - 1]));
                            assert(longer[t] == w[t - 1] && longer[t - 1] == w[t - 2]);
                        } else {
                            assert(longer[0] == p && longer[1] == w[0]);
                        }
                    }
                    assert(longer.last() == w.last());
                    assert(self.is_way(h, longer));
                    assert(self.starts(longer, p, q) && longer.len() == r + 2);
                }
            }
            assert forall|way: Seq<int>| #[trigger]
                self.is_way(h, way) && self.starts(way, p, q) implies self.starts(way, p, q + 1) || (
            self.leads(h, p, q) && (self.steps_via(h, q, q + 1) matches Some(r) && way.len() <= r
                + 2)) by {
                if way.len() > 1 && way[1] == q {
                    assert(self.leads(h, way[1 - 1], way[1]));
                    let rest = way.drop_first();
                    assert forall|t: int| 0 < t < rest.len() implies #[trigger] self.leads(
                        h,
                        rest[t - 1],
                        rest[t],
                    ) by {
                        assert(self.leads(h, way[t + 1 - 1], way[t + 1]));
                    }
                    assert(rest.last() == way.last());
                    assert(self.is_way(h, rest));
                    if rest.len() > 1 {
                        assert(self.leads(h, rest[1 - 1], rest[1]));
                        self.lemma_leads(h, q, rest[1]);
                    }
                    assert(self.starts(rest, q, q + 1));
                }
            }
            if let Some(r) = self.steps_via(h, p, q + 1) {
                let w = choose|way: Seq<int>| #[trigger]
                    self.is_way(h, way) && self.starts(way, p, q + 1) && way.len() == r + 1;
                assert(self.starts(w, p, q));
            }
        }
    }

    /// Whether the pin at position `p`, from which there is a way to an endpoint as `rl` says,
    /// is not computed yet and makes `x` necessary in row 1: `x` is the pin itself, of level 1 or
    /// an available endpoint, or the pin is higher and `x` one of the available pins that it is
    /// computed from and that are not there yet.
    pub open spec fn makes_necessary(
        self,
        h: Hier,
        rl: Seq<Option<nat>>,
        p: int,
        x: usize,
    ) -> bool {
        let u = self.order()[p];
        &&& 0 <= p < self.order().len()
        &&& !stands(h, u)
        &&& rl[p] is Some
        &&& if x == u {
            self.level(u) == 1 || (self.level(u) == 0 && self.outs.contains(u))
        } else {
            &&& self.level(u) >= 2
            &&& self.aig.computes(self.avail, x, u)
            &&& self.level(x) == 0
            &&& !stands(h, x)
        }
    }

    proof fn lemma_makes_necessary(self, h: Hier, rl: Seq<Option<nat>>, p: int, x: usize)
        requires
            self.wf(),
            0 <= p < self.order().len(),
        ensures
            self.needs(h, rl, p).contains(x) <==> self.makes_necessary(h, rl, p, x),
    {
        let u = self.order()[p];
        assert(self.order().contains(u));
        self.lemma_sources(u);
        law_placed(h, u);
        law_placed(h, x);
        let n = self.needs(h, rl, p);
        if !(placed(h, u) || rl[p] is None) {
            if self.level(u) <= 1 {
                if n.len() > 0 {
                    assert(n[0] == u);
                }
            } else {
                match self.aig.drivers@[u as int] {
                    DriverType::AndGate(a, b) => {
                        let s = self.direct_need(h, a);
                        let t = self.direct_need(h, b);
                        assert(n == s + t);
                        if s.len() > 0 {
                            assert(n[0] == pin_of(a));
                        }
                        if t.len() > 0 {
                            assert(n[n.len() - 1] == pin_of(b));
                        }
                        assert(!n.contains(u));
                        if x != u {
                            assert(n.contains(x) <==> self.makes_necessary(h, rl, p, x));
                        }
                    },
                    _ => {},
                }
            }
        }
    }

    /// Whether a pin makes `x` necessary that does not come after any that makes `y` necessary.
    pub open spec fn first_by(self, h: Hier, rl: Seq<Option<nat>>, x: usize, y: usize) -> bool {
        exists|p: int| #[trigger]
            self.makes_necessary(h, rl, p, x) && forall|q: int| #[trigger]
                self.makes_necessary(h, rl, q, y) ==> p <= q
    }

    /// The pins that row 1 has to hold: exactly those that some pin makes necessary, each once,
    /// in the order in which the pins that make them necessary come.
    pub proof fn law_necessary(self, h: Hier, rl: Seq<Option<nat>>)
        requires
            self.wf(),
        ensures
            ({
                let nec = self.necessary(h, rl);
                &&& nec.no_duplicates()
                &&& forall|x: usize| #[trigger]
                    nec.contains(x) <==> exists|p: int| #[trigger] self.makes_necessary(h, rl, p, x)
                &&& forall|i: int, j: int|
                    0 <= i < j < nec.len() ==> self.first_by(
                        h,
                        rl,
                        #[trigger] nec[i],
                        #[trigger] nec[j],
                    )
            }),
    {
        let n = self.order().len() as int;
        self.lemma_needs(h, rl, n);
        self.lemma_necessary(h, rl, n);
        let nec = self.necessary(h, rl);
        assert forall|i: int, j: int| 0 <= i < j < nec.len() implies self.first_by(
            h,
            rl,
            #[trigger] nec[i],
            #[trigger] nec[j],
        ) by {
            assert(self.ordered(h, rl, nec, n));
            assert(self.before(h, rl, nec[i], nec[j], n));
        }
    }

    spec fn before(self, h: Hier, rl: Seq<Option<nat>>, x: usize, y: usize, k: int) -> bool {
        exists|p: int| #[trigger]
            self.makes_necessary(h, rl, p, x) && p < k && forall|q: int| #[trigger]
                self.makes_necessary(h, rl, q, y) ==> p <= q
    }

    spec fn ordered(self, h: Hier, rl: Seq<Option<nat>>, s: Seq<usize>, k: int) -> bool {
        forall|i: int, j: int|
            0 <= i < j < s.len() ==> self.before(h, rl, #[trigger] s[i], #[trigger] s[j], k)
    }

    proof fn lemma_necessary(self, h: Hier, rl: Seq<Option<nat>>, k: int)
        requires
            self.wf(),
            0 <= k <= self.order().len(),
        ensures
            forall|x: usize| #[trigger]
                self.needs_upto(h, rl, k).contains(x) <==> exists|p: int| #[trigger]
                    self.makes_necessary(h, rl, p, x) && p < k,
            self.ordered(h, rl, self.needs_upto(h, rl, k), k),
        decreases k,
    {
        if k > 0 {
            self.lemma_necessary(h, rl, k - 1);
            let less = self.needs_upto(h, rl, k - 1);
            let new = self.needs(h, rl, k - 1);
            let all = self.needs_upto(h, rl, k);
            lemma_inserted_all(less, new);
            assert forall|x: usize| #[trigger] all.contains(x) <==> exists|p: int| #[trigger]
                self.makes_necessary(h, rl, p, x) && p < k by {
                self.lemma_makes_necessary(h, rl, k - 1, x);
                if less.contains(x) {
                    let p = choose|p: int| #[trigger] self.makes_necessary(h, rl, p, x) && p < k - 1;
                    assert(self.makes_necessary(h, rl, p, x) && p < k);
                }
                if exists|p: int| #[trigger] self.makes_necessary(h, rl, p, x) && p < k {
                    let p = choose|p: int| #[trigger] self.makes_necessary(h, rl, p, x) && p < k;
                    if p < k - 1 {
                        assert(less.contains(x));
                    }
                }
            }
            assert forall|i: int, j: int| 0 <= i < j < all.len() implies self.before(
                h,
                rl,
                #[trigger] all[i],
                #[trigger] all[j],
                k,
            ) by {
                if j < less.len() {
                    assert(less[i] == all[i] && less[j] == all[j]);
                    assert(self.before(h, rl, less[i], less[j], k - 1));
                } else {
                    lemma_new_after(less, new, j);
                    assert(all.contains(all[i]));
                    let p = choose|p: int| #[trigger] self.makes_necessary(h, rl, p, all[i]) && p < k;
                    assert forall|q: int| #[trigger]
                        self.makes_necessary(h, rl, q, all[j]) implies p <= q by {
                        if q < k - 1 {
                            assert(less.contains(all[j]));
                        }
                    }
                }
            }
        }
    }

    /// Whether the pin at position `p` is the first that makes `x` necessary.
    pub open spec fn first_need(self, h: Hier, rl: Seq<Option<nat>>, p: int, x: usize) -> bool {
        &&& self.makes_necessary(h, rl, p, x)
        &&& forall|q: int| #[trigger] self.makes_necessary(h, rl, q, x) ==> p <= q
    }

    /// If two pins are first made necessary by the same gate, they come in the order of its
    /// inputs.
    pub proof fn law_need_order(self, h: Hier, rl: Seq<Option<nat>>, i: int, j: int, p: int)
        requires
            self.wf(),
            0 <= i < j < self.necessary(h, rl).len(),
            self.first_need(h, rl, p, self.necessary(h, rl)[i]),
            self.first_need(h, rl, p, self.necessary(h, rl)[j]),
        ensures
            self.aig.drivers@[self.order()[p] as int] matches DriverType::AndGate(a, b)
                && self.necessary(h, rl)[i] == a / 2 && self.necessary(h, rl)[j] == b / 2,
    {
        self.lemma_need_order(h, rl, self.order().len() as int, i, j, p);
    }

    proof fn lemma_need_order(
        self,
        h: Hier,
        rl: Seq<Option<nat>>,
        k: int,
        i: int,
        j: int,
        p: int,
    )
        requires
            self.wf(),
            0 <= k <= self.order().len(),
            0 <= i < j < self.needs_upto(h, rl, k).len(),
            self.first_need(h, rl, p, self.needs_upto(h, rl, k)[i]),
            self.first_need(h, rl, p, self.needs_upto(h, rl, k)[j]),
        ensures
            self.aig.drivers@[self.order()[p] as int] matches DriverType::AndGate(a, b)
                && self.needs_upto(h, rl, k)[i] == a / 2 && self.needs_upto(h, rl, k)[j] == b / 2,
        decreases k,
    {
        let less = self.needs_upto(h, rl, k - 1);
        let new = self.needs(h, rl, k - 1);
        let all = self.needs_upto(h, rl, k);
        self.lemma_necessary(h, rl, k - 1);
        self.lemma_needs(h, rl, k);
        law_inserted_order(less, new);
        if j < less.len() {
            assert(less[i] == all[i] && less[j] == all[j]);
            self.lemma_need_order(h, rl, k - 1, i, j, p);
        } else {
            lemma_new_after(less, new, j);
            self.lemma_makes_necessary(h, rl, k - 1, all[j]);
            assert(p <= k - 1);
            assert(p == k - 1) by {
                if p < k - 1 {
                    assert(less.contains(all[j]));
                }
            }
            if i < less.len() {
                assert(less.contains(less[i]));
                assert(less[i] == all[i]);
                let q = choose|q: int| #[trigger] self.makes_necessary(h, rl, q, all[i]) && q < k - 1;
            } else {
                lemma_new_after(less, new, i);
                assert(occurs_before(new, all[i], all[j]));
                let u = new.index_of(all[i]);
                let v = new.index_of(all[j]);
                assert(all[i] != all[j]);
                assert(new.len() >= 2);
                let w = choose|w: int|
                    0 <= w < new.len() && #[trigger] new[w] == all[i] && forall|q: int|
                        0 <= q < new.len() && #[trigger] new[q] == all[j] ==> w < q;
                assert(w < v);
            }
        }
    }

    /// Whether a pin that is only passed through a slot leaves the other slot under it free.
    pub open spec fn passes_alone(self, h: Hier, top: int) -> bool {
        forall|k: int, i: int|
            1 <= k <= top && 0 <= i < h[k].len() && #[trigger] h[k][i] != FREE && self.level(h[k][i])
                < k ==> h[k - 1][i + h[k].len()] == FREE
    }

    /// What putting a pin into a free slot does: the slot holds the pin then; a slot under it that
    /// holds a gate of the level of its row stands on the two pins that it is computed from,
    /// the first of them on the left; one that holds a lower pin stands on the same pin on the
    /// left and on nothing on the right; slots that are not under it stay as they are.
    pub proof fn law_place(self, h: Hier, hi: int, j: int, nd: usize)
        requires
            self.wf(),
            self.good(h, hi),
            self.passes_alone(h, hi),
            1 <= hi,
            0 <= j < h[hi].len(),
            h[hi][j] == FREE,
            self.order().contains(nd),
            self.level(nd) <= hi,
        ensures
            ({
                let g = self.place(h, hi, j, nd);
                &&& g.len() == h.len()
                &&& g[hi][j] == nd
                &&& forall|k: int, i: int|
                    0 <= k < h.len() && 0 <= i < h[k].len() && !(k <= hi && i % (
                    h[hi].len() as int) == j) ==> #[trigger] g[k][i] == h[k][i]
                &&& forall|k: int| 0 <= k < h.len() ==> (#[trigger] g[k]).len() == h[k].len()
                &&& forall|k: int, i: int|
                    1 <= k <= hi && 0 <= i < h[k].len() && #[trigger] g[k][i] != FREE
                        ==> if self.level(g[k][i]) < k {
                        &&& g[k - 1][i] == g[k][i]
                        &&& g[k - 1][i + h[k].len()] == FREE
                    } else {
                        &&& self.level(g[k][i]) == k
                        &&& self.aig.drivers@[g[k][i] as int] matches DriverType::AndGate(a, b)
                        &&& g[k - 1][i] == a / 2
                        &&& g[k - 1][i + h[k].len()] == b / 2
                    }
                &&& self.good(g, hi)
                &&& self.passes_alone(g, hi)
            }),
    {
        let g = self.place(h, hi, j, nd);
        self.lemma_good(h, hi);
        self.lemma_good_place(h, hi, j, nd);
        self.lemma_place(h, hi, j, nd);
        self.lemma_place_alone(h, hi, j, nd);
        self.lemma_good(g, hi);
        self.lemma_outside(h, hi, j, nd);
        assert forall|k: int, i: int|
            1 <= k <= hi && 0 <= i < h[k].len() && #[trigger] g[k][i] != FREE implies if self.level(
            g[k][i],
        ) < k {
            &&& g[k - 1][i] == g[k][i]
            &&& g[k - 1][i + h[k].len()] == FREE
        } else {
            &&& self.level(g[k][i]) == k
            &&& self.aig.drivers@[g[k][i] as int] matches DriverType::AndGate(a, b)
            &&& g[k - 1][i] == a / 2
            &&& g[k - 1][i + h[k].len()] == b / 2
        } by {
            assert(g[k].len() == h[k].len());
            assert(self.slot_ok(g, k, i));
        }
    }

    proof fn lemma_outside(self, h: Hier, hi: int, j: int, nd: usize)
        requires
            self.wf(),
            self.good(h, hi),
            1 <= hi,
            0 <= j < h[hi].len(),
            h[hi][j] == FREE,
            self.order().contains(nd),
            self.level(nd) <= hi,
        ensures
            forall|k: int, i: int|
                0 <= k < h.len() && 0 <= i < h[k].len() && !(k <= hi && i % (h[hi].len() as int)
                    == j) ==> #[trigger] self.place(h, hi, j, nd)[k][i] == h[k][i],
    {
        self.lemma_good(h, hi);
        self.lemma_good_place(h, hi, j, nd);
        self.lemma_place(h, hi, j, nd);
        assert forall|k: int, i: int|
            0 <= k < h.len() && 0 <= i < h[k].len() && !(k <= hi && i % (h[hi].len() as int)
                == j) implies #[trigger] self.place(h, hi, j, nd)[k][i] == h[k][i] by {
            lemma_same_outside(h, self.place(h, hi, j, nd), hi, j, k, i);
        }
    }

    proof fn lemma_place_alone(self, h: Hier, hi: int, j: int, nd: usize)
        requires
            self.wf(),
            shaped(h),
            0 <= hi < h.len(),
            0 <= j < h[hi].len(),
            free_below(h, hi, j),
            self.sound(h, hi),
            self.placeable(hi),
            self.passes_alone(h, hi),
            nd <= self.aig.num_aigpins,
            hi >= 1 ==> self.order().contains(nd) && self.level(nd) <= hi,
        ensures
            self.passes_alone(self.place(h, hi, j, nd), hi),
        decreases hi,
    {
        let g = self.place(h, hi, j, nd);
        if hi > 0 {
            let h1 = put(h, hi, j, nd);
            let w = h[hi].len() as int;
            lemma_put_shape(h, hi, j, nd);
            assert(h[hi - 1].len() == 2 * w);
            assert(h1[hi - 1].len() == 2 * w);
            self.lemma_place(h, hi, j, nd);
            self.lemma_sources(nd);
            self.lemma_place_put(h, hi, j, nd);
            assert(self.placeable(hi - 1));
            assert(self.passes_alone(h1, hi - 1)) by {
                assert forall|k: int, i: int|
                    1 <= k <= hi - 1 && 0 <= i < h1[k].len() && #[trigger] h1[k][i] != FREE
                        && self.level(h1[k][i]) < k implies h1[k - 1][i + h1[k].len()] == FREE by {
                    assert(h[k][i] == h1[k][i]);
                }
            }
            assert(g[hi].len() == w && g[hi - 1].len() == 2 * w);
            if self.level(nd) != hi {
                self.lemma_place(h1, hi - 1, j, nd);
                self.lemma_place_alone(h1, hi - 1, j, nd);
                assert(g == self.place(h1, hi - 1, j, nd));
                lemma_under(h, hi, j, hi - 1, j + w);
                lemma_under_self(h, hi - 1, j + w, j + w);
                lemma_free_under(h, hi, j, hi - 1, j + w);
                lemma_under_self(h1, hi - 1, j, j + w);
                lemma_same_outside(h1, g, hi - 1, j, hi - 1, j + w);
                assert(g[hi - 1][j + w] == FREE);
            } else {
                match self.aig.drivers@[nd as int] {
                    DriverType::AndGate(a, b) => {
                        self.lemma_place(h1, hi - 1, j, pin_of(a));
                        self.lemma_place_alone(h1, hi - 1, j, pin_of(a));
                        let h2 = self.place(h1, hi - 1, j, pin_of(a));
                        self.lemma_place_second(h, h1, h2, hi, j, nd);
                        assert(h2[hi - 1].len() == h1[hi - 1].len());
                        self.lemma_place_alone(h2, hi - 1, j + w, pin_of(b));
                        assert(g == self.place(h2, hi - 1, j + w, pin_of(b)));
                    },
                    _ => {},
                }
            }
            assert forall|k: int, i: int|
                1 <= k <= hi && 0 <= i < g[k].len() && #[trigger] g[k][i] != FREE && self.level(
                    g[k][i],
                ) < k implies g[k - 1][i + g[k].len()] == FREE by {
                if k == hi && i != j {
                    lemma_under_self(h, hi, j, i);
                    lemma_same_outside(h, g, hi, j, hi, i);
                    assert(h[hi][i] == g[hi][i]);
                    assert((i + w) % w == i) by {
                        lemma_small_mod(i as nat, w as nat);
                        lemma_mod_add_multiples_vanish(i, w);
                    }
                    lemma_same_outside(h, g, hi, j, hi - 1, i + w);
                }
            }
        }
    }
}

/// What is new after an insertion comes from what is inserted.
pub proof fn lemma_new_after(less: Seq<usize>, new: Seq<usize>, j: int)
    requires
        less.len() <= j < inserted_all(less, new).len(),
    ensures
        !less.contains(inserted_all(less, new)[j]),
        new.contains(inserted_all(less, new)[j]),
    decreases new.len(),
{
    let all = inserted_all(less, new);
    if new.len() > 0 {
        let front = new.drop_last();
        let before = inserted_all(less, front);
        lemma_inserted_all(less, front);
        if j < before.len() {
            lemma_new_after(less, front, j);
            let i = front.index_of(before[j]);
            assert(new[i] == before[j]);
        } else {
            assert(all[j] == new.last());
            if less.contains(new.last()) {
                assert(before.contains(new.last()));
            }
        }
    }
}

} // verus!
