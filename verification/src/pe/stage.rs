//! Building one boomerang stage.
use crate::aig::{lit_pin, pin_of, DriverType, AIG};
use crate::index_set::{
    elems, insert_all, inserted_all, lemma_inserted_concat, lemma_inserted_one, remove_all,
    set_contains, set_insert, set_len, set_new, set_to_vec,
};
use crate::pe::BoomerangStage;
use crate::pe::hier::{
    bounded, count_in, first_free, first_free_from, free_below, lemma_bounded_slot,
    lemma_count_bound, lemma_first_free, lemma_first_free_skip, lemma_free_slot, lemma_none_placed,
    lemma_occ_bound, lemma_occ_put, lemma_placed_at, lemma_placed_below, lemma_placed_slot,
    lemma_purge_step, lemma_put_shape, lemma_same_shape_trans, lemma_width_bound, occ, placed,
    placed_below, purge, put, rooted, rows, same_shape, shaped, taken, Cone, Hier, FREE,
};
use crate::pe::plan::{
    free_hier, groups, groups_upto, lemma_free_hier, lemma_groups, lemma_stages_fit, max_writeouts,
    placed_pins, stages_fit, words_below, words_in_row, Fill, Store, CROWDED, RECOMPUTE_AFTER,
    RECOMPUTE_NOW, WORD,
};
use crate::sorting::sort_pairs;
use indexmap::IndexSet;
use vstd::arithmetic::power2::{lemma2_to64, lemma_pow2_strictly_increases, lemma_pow2_unfold, pow2};
use vstd::prelude::*;

verus! {

/// What is looked up of the pins to compute.
struct ConeTable {
    /// The pins to compute, inputs before outputs.
    order: Vec<usize>,
    /// The position of each pin in `order`.
    id2order: Vec<usize>,
    /// The level of each pin of `order`.
    level: Vec<usize>,
    /// Whether each pin is to be realized.
    is_unrealized: Vec<bool>,
    /// Whether each pin is available.
    is_realized: Vec<bool>,
}

impl ConeTable {
    /// Whether the table describes `c`.
    spec fn describes(&self, c: Cone) -> bool {
        let n = c.aig.num_aigpins;
        &&& self.order@ == c.order()
        &&& self.id2order@.len() == n + 1
        &&& forall|p: int|
            0 <= p < self.order@.len() ==> self.id2order@[#[trigger] self.order@[p] as int] == p
        &&& self.level@.len() == self.order@.len()
        &&& forall|p: int|
            0 <= p < self.order@.len() ==> #[trigger] self.level@[p] == c.level(self.order@[p])
        &&& self.is_unrealized@.len() == n + 1
        &&& forall|x: usize|
            x <= n ==> (#[trigger] self.is_unrealized@[x as int] <==> c.outs.contains(x))
        &&& self.is_realized@.len() == n + 1
        &&& forall|x: usize|
            x <= n ==> (#[trigger] self.is_realized@[x as int] <==> c.avail.contains(x))
    }
}

/// A hierarchy that is being filled.
struct Filling {
    /// The slots.
    hier: Vec<Vec<usize>>,
    /// How often each pin stands above row 0.
    visited_count: Vec<usize>,
    /// The number of pins that stand above row 0.
    visited_unique: usize,
}

impl Filling {
    /// Whether this is the hierarchy `h` over the pins up to `n`.
    spec fn holds(&self, h: Hier, n: usize) -> bool {
        &&& rows(self.hier@) == h
        &&& shaped(h)
        &&& self.visited_count@.len() == n + 1
        &&& forall|x: usize| x <= n ==> #[trigger] self.visited_count@[x as int] == occ(h, x)
        &&& self.visited_unique == placed_below(h, n + 1)
    }

    /// Puts `nd` into a slot above row 0 that is free.
    fn fill(&mut self, hi: usize, j: usize, nd: usize, Ghost(h): Ghost<Hier>, Ghost(n): Ghost<usize>)
        requires
            old(self).holds(h, n),
            hi < h.len(),
            j < h[hi as int].len(),
            h[hi as int][j as int] == FREE,
            nd <= n < usize::MAX / 4,
            h[0].len() < usize::MAX,
        ensures
            final(self).holds(put(h, hi as int, j as int, nd), n),
    {
        let ghost g = put(h, hi as int, j as int, nd);
        self.hier[hi][j] = nd;
        proof {
            lemma_put_shape(h, hi as int, j as int, nd);
            assert forall|k: int| 0 <= k < h.len() implies rows(self.hier@)[k] == g[k] by {
                assert(rows(old(self).hier@)[k] == h[k]);
            }
            assert(rows(self.hier@) =~= g);
            assert forall|x: usize| occ(g, x) + (if hi >= 1 && x == FREE {
                1int
            } else {
                0
            }) == occ(h, x) + (if hi >= 1 && x == nd {
                1int
            } else {
                0
            }) by {
                lemma_occ_put(h, hi as int, j as int, nd, x, h.len() as int);
            }
            lemma_occ_bound(h, nd, h.len() as int);
            lemma_placed_below(h, g, nd, n + 1);
        }
        if hi == 0 {
            return ;
        }
        if self.visited_count[nd] == 0 {
            self.visited_unique += 1;
        }
        let count = self.visited_count[nd];
        self.visited_count.set(nd, count + 1);
    }

    /// Frees a slot.
    fn clear(&mut self, hi: usize, j: usize, Ghost(h): Ghost<Hier>, Ghost(n): Ghost<usize>)
        requires
            old(self).holds(h, n),
            hi < h.len(),
            j < h[hi as int].len(),
            h[hi as int][j as int] <= n < usize::MAX / 4,
        ensures
            final(self).holds(put(h, hi as int, j as int, FREE), n),
    {
        let ghost g = put(h, hi as int, j as int, FREE);
        proof {
            assert(rows(self.hier@)[hi as int] == h[hi as int]);
        }
        let nd = self.hier[hi][j];
        self.hier[hi][j] = FREE;
        proof {
            lemma_put_shape(h, hi as int, j as int, FREE);
            assert forall|k: int| 0 <= k < h.len() implies rows(self.hier@)[k] == g[k] by {
                assert(rows(old(self).hier@)[k] == h[k]);
            }
            assert(rows(self.hier@) =~= g);
            assert forall|x: usize| occ(g, x) + (if hi >= 1 && x == nd {
                1int
            } else {
                0
            }) == occ(h, x) + (if hi >= 1 && x == FREE {
                1int
            } else {
                0
            }) by {
                lemma_occ_put(h, hi as int, j as int, FREE, x, h.len() as int);
            }
            if hi >= 1 {
                lemma_placed_at(h, hi as int, j as int);
            }
            lemma_placed_below(h, g, nd, n + 1);
        }
        if hi == 0 {
            return ;
        }
        let count = self.visited_count[nd];
        self.visited_count.set(nd, count - 1);
        if count - 1 == 0 {
            self.visited_unique -= 1;
        }
    }

    /// Puts `nd` into slot `j` of row `hi`, and under it what it is computed from.
    fn place_bit(
        &mut self,
        aig: &AIG,
        table: &ConeTable,
        hi: usize,
        j: usize,
        nd: usize,
        Ghost(c): Ghost<Cone>,
        Ghost(h): Ghost<Hier>,
    )
        requires
            old(self).holds(h, aig.num_aigpins),
            c.wf(),
            c.aig == *aig,
            table.describes(c),
            hi < h.len(),
            j < h[hi as int].len(),
            h[0].len() < usize::MAX,
            free_below(h, hi as int, j as int),
            c.sound(h, hi as int),
            nd <= aig.num_aigpins,
            hi >= 1 ==> c.order().contains(nd) && c.level(nd) <= hi,
        ensures
            final(self).holds(c.place(h, hi as int, j as int, nd), aig.num_aigpins),
        decreases hi,
    {
        let ghost n = aig.num_aigpins;
        proof {
            if hi == 0 {
                lemma_free_slot(h, 0, j as int);
            } else {
                c.lemma_place_steps(h, hi as int, j as int, nd);
                let p = c.order().index_of(nd);
                assert(table.order@[p] == nd);
                assert(table.level@[p] == c.level(nd));
            }
        }
        self.fill(hi, j, nd, Ghost(h), Ghost(n));
        if hi == 0 {
            return ;
        }
        let ghost h1 = put(h, hi as int, j as int, nd);
        proof {
            lemma_width_bound(h, hi - 1);
            assert(h[0].len() == h1[0].len());
            assert(h[hi - 1].len() == h1[hi - 1].len());
            assert(rows(self.hier@)[hi as int] == h1[hi as int]);
        }
        let level = table.level[table.id2order[nd]];
        if level != hi {
            self.place_bit(aig, table, hi - 1, j, nd, Ghost(c), Ghost(h1));
        } else if let DriverType::AndGate(a, b) = aig.drivers[nd] {
            let width = self.hier[hi].len();
            let ghost h2 = c.place(h1, hi - 1, j as int, pin_of(a));
            self.place_bit(aig, table, hi - 1, j, lit_pin(a), Ghost(c), Ghost(h1));
            proof {
                assert(h[0].len() == h2[0].len());
                assert(h[hi - 1].len() == h2[hi - 1].len());
            }
            self.place_bit(aig, table, hi - 1, j + width, lit_pin(b), Ghost(c), Ghost(h2));
        }
    }

    /// Frees slot `j` of row `hi`, and what lies under it.
    fn purge_bit(
        &mut self,
        hi: usize,
        j: usize,
        Ghost(h): Ghost<Hier>,
        Ghost(n): Ghost<usize>,
    )
        requires
            old(self).holds(h, n),
            n < usize::MAX / 4,
            hi < h.len(),
            j < h[hi as int].len(),
            h[0].len() < usize::MAX,
            rooted(h, hi as int),
            bounded(h, n, hi as int),
        ensures
            final(self).holds(purge(h, hi as int, j as int), n),
        decreases hi,
    {
        proof {
            assert(rows(self.hier@)[hi as int] == h[hi as int]);
        }
        if self.hier[hi][j] == FREE {
            return ;
        }
        proof {
            lemma_bounded_slot(h, n, hi as int, hi as int, j as int);
        }
        self.clear(hi, j, Ghost(h), Ghost(n));
        if hi == 0 {
            return ;
        }
        let ghost h1 = put(h, hi as int, j as int, FREE);
        let ghost h2 = purge(h1, hi - 1, j as int);
        proof {
            lemma_purge_step(h, hi as int, j as int, n);
            lemma_width_bound(h, hi - 1);
            assert(h[0].len() == h1[0].len() && h[0].len() == h2[0].len());
            assert(h[hi - 1].len() == h1[hi - 1].len() && h[hi - 1].len() == h2[hi - 1].len());
            assert(rows(self.hier@)[hi as int] == h1[hi as int]);
        }
        let width = self.hier[hi].len();
        self.purge_bit(hi - 1, j, Ghost(h1), Ghost(n));
        self.purge_bit(hi - 1, j + width, Ghost(h2), Ghost(n));
    }
}

/// Whether `v` holds the numbers `rl`, with the largest word for an absent one.
spec fn encodes(v: Seq<usize>, rl: Seq<Option<nat>>) -> bool {
    &&& v.len() == rl.len()
    &&& forall|p: int|
        0 <= p < v.len() ==> match rl[p] {
            Some(r) => #[trigger] v[p] == r && v[p] != usize::MAX,
            None => v[p] == usize::MAX,
        }
}

/// Marks the pins of a list.
fn mark_pins(pins: &Vec<usize>, n: usize) -> (marks: Vec<bool>)
    requires
        n < usize::MAX,
        forall|k: int| 0 <= k < pins@.len() ==> #[trigger] pins@[k] <= n,
    ensures
        marks@.len() == n + 1,
        forall|x: usize| x <= n ==> (#[trigger] marks@[x as int] <==> pins@.contains(x)),
{
    let mut marks: Vec<bool> = vec![false; n + 1];
    let mut k: usize = 0;
    while k < pins.len()
        invariant
            k <= pins@.len(),
            marks@.len() == n + 1,
            forall|i: int| 0 <= i < pins@.len() ==> #[trigger] pins@[i] <= n,
            forall|x: usize|
                x <= n ==> (#[trigger] marks@[x as int] <==> pins@.take(k as int).contains(x)),
        decreases pins@.len() - k,
    {
        let ghost before = marks@;
        marks.set(pins[k], true);
        proof {
            let old_pins = pins@.take(k as int);
            let new_pins = pins@.take(k + 1);
            assert(new_pins =~= old_pins.push(pins@[k as int]));
            assert forall|x: usize| x <= n implies (#[trigger] marks@[x as int]
                <==> new_pins.contains(x)) by {
                assert(before[x as int] <==> old_pins.contains(x));
                if old_pins.contains(x) {
                    assert(new_pins[old_pins.index_of(x)] == x);
                }
                if new_pins.contains(x) && x != pins@[k as int] {
                    assert(old_pins[new_pins.index_of(x)] == x);
                }
                assert(new_pins[k as int] == pins@[k as int]);
            }
        }
        k += 1;
    }
    assert(pins@.take(pins@.len() as int) =~= pins@);
    marks
}

impl ConeTable {
    /// Looks up what is needed of the pins to compute.
    fn new(
        aig: &AIG,
        outs: &Vec<usize>,
        realized_inputs: &IndexSet<usize>,
        Ghost(c): Ghost<Cone>,
    ) -> (table: ConeTable)
        requires
            c.wf(),
            c.aig == *aig,
            c.outs == outs@,
            c.avail == elems(*realized_inputs),
        ensures
            table.describes(c),
    {
        let n = aig.num_aigpins;
        let order = aig.topo_traverse_generic(outs, Some(realized_inputs));
        proof {
            aig.lemma_topo(c.avail, c.outs);
        }
        let is_unrealized = mark_pins(outs, n);
        let inputs = set_to_vec(realized_inputs);
        let is_realized = mark_pins(&inputs, n);

        let mut id2order: Vec<usize> = vec![usize::MAX; n + 1];
        let mut k: usize = 0;
        while k < order.len()
            invariant
                k <= order@.len(),
                n == aig.num_aigpins,
                order@ == c.order(),
                aig.is_topo(c.avail, order@),
                id2order@.len() == n + 1,
                forall|p: int| 0 <= p < k ==> id2order@[#[trigger] order@[p] as int] == p,
            decreases order@.len() - k,
        {
            id2order.set(order[k], k);
            k += 1;
        }

        let mut level: Vec<usize> = Vec::new();
        k = 0;
        while k < order.len()
            invariant
                k <= order@.len(),
                n == aig.num_aigpins,
                c.wf(),
                c.aig == *aig,
                order@ == c.order(),
                aig.is_topo(c.avail, order@),
                id2order@.len() == n + 1,
                forall|p: int|
                    0 <= p < order@.len() ==> id2order@[#[trigger] order@[p] as int] == p,
                is_realized@.len() == n + 1,
                forall|x: usize|
                    x <= n ==> (#[trigger] is_realized@[x as int] <==> c.avail.contains(x)),
                level@.len() == k,
                forall|p: int| 0 <= p < k ==> #[trigger] level@[p] == c.level(order@[p]),
            decreases order@.len() - k,
        {
            let i = order[k];
            let mut lvli: usize = 0;
            proof {
                aig.lemma_depth_bound(c.avail, order@, k as int);
                aig.lemma_rank(i);
            }
            if !is_realized[i] {
                if let DriverType::AndGate(a, b) = aig.drivers[i] {
                    let ghost src = aig.sources(c.avail, order@[k as int]);
                    if a >= 2 {
                        let pin = lit_pin(a);
                        proof {
                            assert(src[0] == pin_of(a));
                            assert(src.contains(pin_of(a)));
                            let q = choose|q: int| 0 <= q < k && #[trigger] order@[q] == pin_of(a);
                            assert(id2order@[order@[q] as int] == q);
                            aig.lemma_depth_bound(c.avail, order@, q);
                        }
                        let l = level[id2order[pin]] + 1;
                        if lvli < l {
                            lvli = l;
                        }
                    }
                    if b >= 2 {
                        let pin = lit_pin(b);
                        proof {
                            assert(src[src.len() - 1] == pin_of(b));
                            assert(src.contains(pin_of(b)));
                            let q = choose|q: int| 0 <= q < k && #[trigger] order@[q] == pin_of(b);
                            assert(id2order@[order@[q] as int] == q);
                            aig.lemma_depth_bound(c.avail, order@, q);
                        }
                        let l = level[id2order[pin]] + 1;
                        if lvli < l {
                            lvli = l;
                        }
                    }
                }
            }
            level.push(lvli);
            k += 1;
        }
        ConeTable { order, id2order, level, is_unrealized, is_realized }
    }

    /// The position of an input of the pin at position `k`.
    proof fn lemma_source_position(&self, c: Cone, k: int, x: usize) -> (q: int)
        requires
            c.wf(),
            self.describes(c),
            0 <= k < self.order@.len(),
            c.aig.sources(c.avail, self.order@[k]).contains(x),
        ensures
            0 <= q < k,
            self.order@[q] == x,
            self.id2order@[x as int] == q,
            x <= c.aig.num_aigpins,
    {
        c.aig.lemma_topo(c.avail, c.outs);
        let s = self.order@;
        let q = choose|q: int| 0 <= q < k && #[trigger] s[q] == x;
        assert(self.id2order@[s[q] as int] == q);
        q
    }

    /// For each position, the largest number of steps to an endpoint, on ways on
    /// which no pin but the first is in the hierarchy.
    fn compute_reverse_level(
        &self,
        aig: &AIG,
        filling: &Filling,
        Ghost(c): Ghost<Cone>,
        Ghost(h): Ghost<Hier>,
    ) -> (reverse_level: Vec<usize>)
        requires
            c.wf(),
            c.aig == *aig,
            self.describes(c),
            filling.holds(h, aig.num_aigpins),
            c.fed(h, h.len() - 1),
        ensures
            encodes(reverse_level@, c.all_steps(h)),
    {
        let n = self.order.len();
        let mut rl: Vec<usize> = vec![usize::MAX; n];
        proof {
            aig.lemma_topo(c.avail, c.outs);
        }
        let mut k: usize = 0;
        while k < n
            invariant
                k <= n,
                n == self.order@.len(),
                c.wf(),
                c.aig == *aig,
                aig.is_topo(c.avail, self.order@),
                self.describes(c),
                rl@.len() == n,
                forall|p: int|
                    0 <= p < n ==> #[trigger] rl@[p] == (if p < k && c.outs.contains(self.order@[p]) {
                        0
                    } else {
                        usize::MAX
                    }),
            decreases n - k,
        {
            if self.is_unrealized[self.order[k]] {
                rl.set(k, 0);
            }
            k += 1;
        }
        assert forall|p: int| 0 <= p < n implies match c.steps_via(h, p, n as int) {
            Some(r) => #[trigger] rl@[p] == r && rl@[p] != usize::MAX,
            None => rl@[p] == usize::MAX,
        } by {}
        let mut m: usize = n;
        while m > 0
            invariant
                m <= n,
                n == self.order@.len(),
                c.wf(),
                c.aig == *aig,
                aig.is_topo(c.avail, self.order@),
                self.describes(c),
                filling.holds(h, aig.num_aigpins),
                c.fed(h, h.len() - 1),
                rl@.len() == n,
                forall|p: int|
                    0 <= p < n ==> match c.steps_via(
                        h,
                        p,
                        if p < m {
                            m as int
                        } else {
                            p + 1
                        },
                    ) {
                        Some(r) => #[trigger] rl@[p] == r && rl@[p] != usize::MAX,
                        None => rl@[p] == usize::MAX,
                    },
            decreases m,
        {
            let k = m - 1;
            let i = self.order[k];
            let ghost before = rl@;
            proof {
                assert(c.order().contains(i));
                c.lemma_sources(i);
                assert(before[k as int] == rl@[k as int]);
            }
            if !self.is_realized[i] && filling.visited_count[i] == 0 {
                assert(c.active(h, k as int));
                if let DriverType::AndGate(a, b) = aig.drivers[i] {
                    let ghost src = aig.sources(c.avail, self.order@[k as int]);
                    let rlvli = rl[k];
                    if a >= 2 || b >= 2 {
                        proof {
                            c.lemma_steps_some(h, k as int);
                            c.lemma_steps_bound(h, k as int, k + 1);
                        }
                    }
                    if a >= 2 {
                        let pin = lit_pin(a);
                        proof {
                            assert(src[0] == pin);
                            assert(src.contains(pin));
                            let q = self.lemma_source_position(c, k as int, pin);
                            assert(before[q] == rl@[q]);
                        }
                        let a_idx = self.id2order[pin];
                        if rl[a_idx] == usize::MAX || rl[a_idx] < rlvli + 1 {
                            rl.set(a_idx, rlvli + 1);
                        }
                    }
                    if b >= 2 {
                        let pin = lit_pin(b);
                        proof {
                            assert(src[src.len() - 1] == pin);
                            assert(src.contains(pin));
                            let q = self.lemma_source_position(c, k as int, pin);
                            assert(before[q] == before[q]);
                        }
                        let b_idx = self.id2order[pin];
                        if rl[b_idx] == usize::MAX || rl[b_idx] < rlvli + 1 {
                            rl.set(b_idx, rlvli + 1);
                        }
                    }
                    proof {
                        assert forall|p: int| 0 <= p < n implies match c.steps_via(
                            h,
                            p,
                            if p < k {
                                k as int
                            } else {
                                p + 1
                            },
                        ) {
                            Some(r) => #[trigger] rl@[p] == r && rl@[p] != usize::MAX,
                            None => rl@[p] == usize::MAX,
                        } by {
                            assert(before[p] == before[p]);
                            if p < k {
                                self.lemma_feeds(c, p, k as int);
                            } else {
                                self.lemma_no_feed(c, p, k as int);
                            }
                        }
                    }
                } else {
                    proof {
                        assert forall|p: int| 0 <= p < n implies match c.steps_via(
                            h,
                            p,
                            if p < k {
                                k as int
                            } else {
                                p + 1
                            },
                        ) {
                            Some(r) => #[trigger] rl@[p] == r && rl@[p] != usize::MAX,
                            None => rl@[p] == usize::MAX,
                        } by {
                            assert(before[p] == rl@[p]);
                        }
                    }
                }
            } else {
                assert(!c.active(h, k as int));
                assert forall|p: int| 0 <= p < n implies match c.steps_via(
                    h,
                    p,
                    if p < k {
                        k as int
                    } else {
                        p + 1
                    },
                ) {
                    Some(r) => #[trigger] rl@[p] == r && rl@[p] != usize::MAX,
                    None => rl@[p] == usize::MAX,
                } by {
                    assert(before[p] == rl@[p]);
                }
            }
            m = k;
        }
        rl
    }

    /// Which pins feed the pin at position `k`.
    proof fn lemma_feeds(&self, c: Cone, p: int, k: int)
        requires
            c.wf(),
            self.describes(c),
            0 <= p < self.order@.len(),
            0 <= k < self.order@.len(),
            !c.avail.contains(self.order@[k]),
        ensures
            match c.aig.drivers@[self.order@[k] as int] {
                DriverType::AndGate(a, b) => c.feeds(p, k) <==> a >= 2 && self.id2order@[pin_of(
                    a,
                ) as int] == p || b >= 2 && self.id2order@[pin_of(b) as int] == p,
                _ => !c.feeds(p, k),
            },
    {
        let u = self.order@[k];
        let src = c.aig.sources(c.avail, u);
        assert(self.id2order@[self.order@[p] as int] == p);
        match c.aig.drivers@[u as int] {
            DriverType::AndGate(a, b) => {
                if a >= 2 {
                    assert(src[0] == pin_of(a));
                    assert(src.contains(pin_of(a)));
                    let q = self.lemma_source_position(c, k, pin_of(a));
                }
                if b >= 2 {
                    assert(src[src.len() - 1] == pin_of(b));
                    assert(src.contains(pin_of(b)));
                    let q = self.lemma_source_position(c, k, pin_of(b));
                }
                if c.feeds(p, k) {
                    let t = src.index_of(self.order@[p]);
                    assert(src[t] == self.order@[p]);
                }
            },
            _ => {},
        }
    }

    /// A pin feeds only pins at later positions.
    proof fn lemma_no_feed(&self, c: Cone, p: int, k: int)
        requires
            c.wf(),
            self.describes(c),
            0 <= k <= p < self.order@.len(),
        ensures
            !c.feeds(p, k),
            !c.avail.contains(self.order@[k]) ==> match c.aig.drivers@[self.order@[k] as int] {
                DriverType::AndGate(a, b) => {
                    &&& a >= 2 ==> self.id2order@[pin_of(a) as int] != p
                    &&& b >= 2 ==> self.id2order@[pin_of(b) as int] != p
                },
                _ => true,
            },
    {
        assert(self.id2order@[self.order@[p] as int] == p);
        if c.feeds(p, k) {
            let q = self.lemma_source_position(c, k, self.order@[p]);
        }
        if !c.avail.contains(self.order@[k]) {
            self.lemma_feeds(c, p, k);
        }
    }
}

/// Finds the first free slot of a row from slot `from` on.
fn find_free_from(row: &Vec<usize>, from: usize) -> (slot: Option<usize>)
    requires
        from <= row@.len(),
    ensures
        match first_free_from(row@, from as int) {
            Some(j) => slot matches Some(s) && s == j,
            None => slot is None,
        },
{
    let mut k = from;
    while k < row.len()
        invariant
            k <= row@.len(),
            first_free_from(row@, from as int) == first_free_from(row@, k as int),
        decreases row@.len() - k,
    {
        if row[k] == FREE {
            return Some(k);
        }
        k += 1;
    }
    None
}

/// Counts the slots in a range of a row that are not free.
fn count_taken(row: &Vec<usize>, from: usize, to: usize) -> (n: usize)
    requires
        from <= to <= row@.len(),
    ensures
        n == taken(row@.subrange(from as int, to as int)),
        n <= to - from,
{
    let mut n: usize = 0;
    let mut k: usize = from;
    while k < to
        invariant
            from <= k <= to <= row@.len(),
            n == taken(row@.subrange(from as int, k as int)),
            n <= k - from,
        decreases to - k,
    {
        if row[k] != FREE {
            n += 1;
        }
        proof {
            let s = row@.subrange(from as int, k + 1);
            assert(s.drop_last() =~= row@.subrange(from as int, k as int));
            lemma_count_bound(row@.subrange(from as int, k as int), FREE);
        }
        k += 1;
    }
    n
}

impl ConeTable {
    /// Adds the pin of a literal if it is available and not in the hierarchy.
    fn add_direct_need(
        &self,
        nodes: &mut IndexSet<usize>,
        filling: &Filling,
        lit: usize,
        Ghost(c): Ghost<Cone>,
        Ghost(h): Ghost<Hier>,
    )
        requires
            c.wf(),
            self.describes(c),
            filling.holds(h, c.aig.num_aigpins),
            lit >= 2 ==> c.order().contains(pin_of(lit)),
        ensures
            elems(*final(nodes)) == inserted_all(elems(*old(nodes)), c.direct_need(h, lit)),
    {
        if lit >= 2 {
            let pin = lit_pin(lit);
            proof {
                let p = c.order().index_of(pin);
                assert(self.order@[p] == pin);
                assert(self.level@[p] == c.level(pin));
                c.lemma_sources(pin);
                lemma_inserted_one(elems(*nodes), pin);
            }
            if self.level[self.id2order[pin]] == 0 && filling.visited_count[pin] == 0 {
                set_insert(nodes, pin);
            }
        }
    }

    /// The pins that row 1 has to hold in addition to what is in the hierarchy.
    fn compute_lvl1_necessary_nodes(
        &self,
        aig: &AIG,
        filling: &Filling,
        reverse_level: &Vec<usize>,
        Ghost(c): Ghost<Cone>,
        Ghost(h): Ghost<Hier>,
        Ghost(rl): Ghost<Seq<Option<nat>>>,
    ) -> (nodes: IndexSet<usize>)
        requires
            c.wf(),
            c.aig == *aig,
            self.describes(c),
            filling.holds(h, aig.num_aigpins),
            encodes(reverse_level@, rl),
            rl.len() == c.order().len(),
        ensures
            elems(nodes) == c.necessary(h, rl),
    {
        let n = self.order.len();
        let mut nodes = set_new();
        let mut k: usize = 0;
        while k < n
            invariant
                k <= n,
                n == self.order@.len(),
                c.wf(),
                c.aig == *aig,
                self.describes(c),
                filling.holds(h, aig.num_aigpins),
                encodes(reverse_level@, rl),
                rl.len() == n,
                elems(nodes) == c.needs_upto(h, rl, k as int),
            decreases n - k,
        {
            let i = self.order[k];
            let ghost before = elems(nodes);
            proof {
                assert(c.order().contains(i));
                c.lemma_sources(i);
                assert(reverse_level@[k as int] == reverse_level@[k as int]);
                lemma_inserted_one(before, i);
            }
            if filling.visited_count[i] == 0 && reverse_level[k] != usize::MAX {
                if self.level[k] == 0 {
                    if self.is_unrealized[i] {
                        set_insert(&mut nodes, i);
                    }
                } else if self.level[k] == 1 {
                    set_insert(&mut nodes, i);
                } else if let DriverType::AndGate(a, b) = aig.drivers[i] {
                    self.add_direct_need(&mut nodes, filling, a, Ghost(c), Ghost(h));
                    self.add_direct_need(&mut nodes, filling, b, Ghost(c), Ghost(h));
                    proof {
                        lemma_inserted_concat(before, c.direct_need(h, a), c.direct_need(h, b));
                    }
                }
            }
            assert(elems(nodes) == inserted_all(before, c.needs(h, rl, k as int)));
            k += 1;
        }
        nodes
    }

    /// The position of the pin to put into a row next.
    fn pick(
        &self,
        filling: &Filling,
        reverse_level: &Vec<usize>,
        selected_level: usize,
        Ghost(c): Ghost<Cone>,
        Ghost(h): Ghost<Hier>,
        Ghost(rl): Ghost<Seq<Option<nat>>>,
    ) -> (best: Option<usize>)
        requires
            c.wf(),
            self.describes(c),
            filling.holds(h, c.aig.num_aigpins),
            encodes(reverse_level@, rl),
            rl.len() == c.order().len(),
        ensures
            match c.best(h, rl, selected_level as nat) {
                Some(p) => best matches Some(q) && q == p,
                None => best is None,
            },
    {
        let n = self.order.len();
        let mut best: Option<usize> = None;
        let mut k: usize = 0;
        while k < n
            invariant
                k <= n,
                n == self.order@.len(),
                c.wf(),
                self.describes(c),
                filling.holds(h, c.aig.num_aigpins),
                encodes(reverse_level@, rl),
                rl.len() == n,
                match c.best_upto(h, rl, selected_level as nat, k as int) {
                    Some(p) => best matches Some(q) && q == p,
                    None => best is None,
                },
            decreases n - k,
        {
            proof {
                let i = self.order@[k as int];
                assert(c.order().contains(i));
                c.lemma_sources(i);
                assert(reverse_level@[k as int] == reverse_level@[k as int]);
                c.lemma_best(h, rl, selected_level as nat, k as int);
            }
            if self.level[k] == selected_level && filling.visited_count[self.order[k]] == 0
                && reverse_level[k] != usize::MAX {
                match best {
                    Some(p) => {
                        assert(reverse_level@[p as int] == reverse_level@[p as int]);
                        if reverse_level[p] < reverse_level[k] {
                            best = Some(k);
                        }
                    },
                    None => {
                        best = Some(k);
                    },
                }
            }
            k += 1;
        }
        best
    }

    /// Fills the rows from 2 on. Returns the distances and the pins that row 1 has
    /// to hold as last computed.
    fn fill_rows(
        &self,
        aig: &AIG,
        filling: &mut Filling,
        start_level: usize,
        Ghost(c): Ghost<Cone>,
        Ghost(start): Ghost<Fill>,
    ) -> (r: (Vec<usize>, IndexSet<usize>))
        requires
            c.wf(),
            c.aig == *aig,
            self.describes(c),
            old(filling).holds(start.h, aig.num_aigpins),
            c.good(start.h, start_level as int),
            start.h.len() >= 2,
            start.h[0].len() < usize::MAX / 4,
            start.lvl == start_level,
            start.rl == c.all_steps(start.h),
            start.nec == Seq::<usize>::empty(),
            start.since == 0,
        ensures
            ({
                let end = c.fill(start);
                &&& final(filling).holds(end.h, aig.num_aigpins)
                &&& same_shape(start.h, end.h)
                &&& c.good(end.h, if start_level < 1 { 0 } else { 1 })
                &&& encodes(r.0@, end.rl)
                &&& end.rl.len() == c.order().len()
                &&& elems(r.1) == end.nec
                &&& forall|x: usize| #[trigger]
                    end.nec.contains(x) ==> c.order().contains(x) && c.level(x) <= 1
            }),
    {
        let mut selected_level = start_level;
        proof {
            c.lemma_good(start.h, start_level as int);
        }
        let mut reverse_level = self.compute_reverse_level(aig, filling, Ghost(c), Ghost(start.h));
        let mut necessary = set_new();
        let mut since: u32 = 0;
        let ghost mut st = start;
        proof {
            aig.lemma_topo(c.avail, c.outs);
        }
        while selected_level >= 2
            invariant
                c.wf(),
                c.aig == *aig,
                self.describes(c),
                aig.is_topo(c.avail, c.order()),
                filling.holds(st.h, aig.num_aigpins),
                c.good(st.h, selected_level as int),
                same_shape(start.h, st.h),
                start.h.len() >= 2,
                start.h[0].len() < usize::MAX / 4,
                st.lvl == selected_level,
                selected_level >= 1 || start_level == 0,
                selected_level <= start_level,
                st.since == since,
                since <= RECOMPUTE_NOW,
                encodes(reverse_level@, st.rl),
                st.rl.len() == c.order().len(),
                elems(necessary) == st.nec,
                forall|x: usize| #[trigger]
                    st.nec.contains(x) ==> c.order().contains(x) && c.level(x) <= 1,
                c.fill(start) == c.fill(st),
            decreases selected_level, count_in(st.h[selected_level as int], FREE),
        {
            let ghost lvl = selected_level as int;
            let ghost h = st.h;
            let ghost next = c.fill_step(st);
            proof {
                c.lemma_good(h, lvl);
                c.lemma_fill_step(st);
                assert(c.fill(st) == c.fill(next));
                assert(rows(filling.hier@)[lvl] == h[lvl]);
                lemma_first_free(h[lvl], 0);
                c.lemma_best(h, st.rl, st.lvl, c.order().len() as int);
                assert(start.h[0].len() == h[0].len());
            }
            let slot = match find_free_from(&filling.hier[selected_level], 0) {
                Some(slot) => slot,
                None => {
                    selected_level -= 1;
                    since = RECOMPUTE_NOW;
                    proof {
                        st = next;
                    }
                    continue ;
                },
            };
            let picked = self.pick(
                filling,
                &reverse_level,
                selected_level,
                Ghost(c),
                Ghost(h),
                Ghost(st.rl),
            );
            let position = match picked {
                Some(p) => p,
                None => {
                    selected_level -= 1;
                    since = RECOMPUTE_NOW;
                    proof {
                        st = next;
                    }
                    continue ;
                },
            };
            let node = self.order[position];
            let ghost h1 = c.place(h, lvl, slot as int, node);
            proof {
                assert(c.order().contains(node));
                c.lemma_good_place(h, lvl, slot as int, node);
                c.lemma_good(h1, lvl);
                assert(h[0].len() == h1[0].len() && h[1].len() == h1[1].len());
                assert forall|k: int| 0 <= k < start.h.len() implies (#[trigger] start.h[k]).len()
                    == h1[k].len() by {
                    assert(start.h[k].len() == h[k].len());
                    assert(h[k].len() == h1[k].len());
                }
            }
            filling.place_bit(
                aig,
                self,
                selected_level,
                slot,
                node,
                Ghost(c),
                Ghost(h),
            );
            since += 1;
            if since >= RECOMPUTE_AFTER {
                let reverse_level_upd = self.compute_reverse_level(
                    aig,
                    filling,
                    Ghost(c),
                    Ghost(h1),
                );
                let ghost rl1 = c.all_steps(h1);
                let nodes = self.compute_lvl1_necessary_nodes(
                    aig,
                    filling,
                    &reverse_level_upd,
                    Ghost(c),
                    Ghost(h1),
                    Ghost(rl1),
                );
                proof {
                    assert(rows(filling.hier@)[1] == h1[1]);
                    assert(h1[1].subrange(0, h1[1].len() as int) =~= h1[1]);
                    c.lemma_needs(h1, rl1, c.order().len() as int);
                    c.lemma_distinct_needs(elems(nodes));
                    lemma_placed_below(h1, h1, 0, aig.num_aigpins + 1);
                    lemma_width_bound(h1, 1);
                }
                let width = filling.hier[1].len();
                let used = count_taken(&filling.hier[1], 0, width);
                let held = if used < filling.visited_unique {
                    filling.visited_unique
                } else {
                    used
                };
                if set_len(&nodes) + held >= width {
                    filling.purge_bit(selected_level, slot, Ghost(h1), Ghost(aig.num_aigpins));
                    proof {
                        c.lemma_purge_undoes_place(h, lvl, slot as int, node);
                        st = next;
                    }
                    selected_level -= 1;
                    since = RECOMPUTE_NOW;
                    continue ;
                }
                reverse_level = reverse_level_upd;
                necessary = nodes;
                since = 0;
            }
            proof {
                st = next;
            }
        }
        proof {
            c.lemma_good(st.h, selected_level as int);
            assert(c.fill(st) == st);
        }
        (reverse_level, necessary)
    }
}

/// The power of two with a given exponent.
pub fn power_of_two(k: usize) -> (p: usize)
    requires
        pow2(k as nat) <= usize::MAX,
    ensures
        p == pow2(k as nat),
{
    let mut p: usize = 1;
    let mut i: usize = 0;
    proof {
        lemma2_to64();
    }
    while i < k
        invariant
            i <= k,
            p == pow2(i as nat),
            pow2(k as nat) <= usize::MAX,
        decreases k - i,
    {
        proof {
            lemma_pow2_unfold((i + 1) as nat);
            if i + 1 < k {
                lemma_pow2_strictly_increases((i + 1) as nat, k as nat);
            }
        }
        p = p * 2;
        i += 1;
    }
    p
}

/// The number of words that a partition can write out.
pub fn writeout_limit(num_stages: usize) -> (n: usize)
    requires
        stages_fit(num_stages),
    ensures
        n == max_writeouts(num_stages as nat),
{
    proof {
        lemma_stages_fit(num_stages);
    }
    power_of_two(num_stages - 5)
}

/// The rows of a hierarchy with all slots free.
fn free_rows(num_stages: usize) -> (hier: Vec<Vec<usize>>)
    requires
        stages_fit(num_stages),
    ensures
        rows(hier@) == free_hier(num_stages as nat),
{
    proof {
        lemma_stages_fit(num_stages);
    }
    let mut hier: Vec<Vec<usize>> = Vec::new();
    let mut i: usize = 0;
    while i <= num_stages
        invariant
            i <= num_stages + 1,
            stages_fit(num_stages),
            hier@.len() == i,
            forall|k: int|
                0 <= k < i ==> #[trigger] rows(hier@)[k] == free_hier(num_stages as nat)[k],
        decreases num_stages + 1 - i,
    {
        proof {
            lemma_stages_fit(num_stages);
        }
        let ghost before = rows(hier@);
        let width = power_of_two(num_stages - i);
        let row: Vec<usize> = vec![FREE; width];
        hier.push(row);
        proof {
            assert(row@ =~= free_hier(num_stages as nat)[i as int]);
            assert forall|k: int| 0 <= k < i + 1 implies #[trigger] rows(hier@)[k] == free_hier(
                num_stages as nat,
            )[k] by {
                if k < i {
                    assert(before[k] == rows(hier@)[k]);
                }
            }
        }
        i += 1;
    }
    assert(rows(hier@) =~= free_hier(num_stages as nat));
    hier
}

impl Filling {
    /// A hierarchy with all slots free.
    fn new(num_stages: usize, n: usize) -> (filling: Filling)
        requires
            stages_fit(num_stages),
            n < usize::MAX,
        ensures
            filling.holds(free_hier(num_stages as nat), n),
    {
        let hier = free_rows(num_stages);
        let visited_count: Vec<usize> = vec![0usize; n + 1];
        proof {
            let h = free_hier(num_stages as nat);
            lemma_free_hier(num_stages as nat);
            assert forall|x: usize| x != FREE implies #[trigger] occ(h, x) == 0 by {
                if occ(h, x) > 0 {
                    let (hi, j) = lemma_placed_slot(h, x);
                }
            }
            lemma_none_placed(h, n + 1);
        }
        Filling { hier, visited_count, visited_unique: 0 }
    }
}

/// The groups of 32 slots of row 1 that are not crowded, those with most room first.
fn collect_groups(row: &Vec<usize>) -> (spaces: Vec<(u8, usize)>)
    ensures
        spaces@ == groups(row@),
{
    let mut spaces: Vec<(u8, usize)> = Vec::new();
    let len = row.len();
    let n = len / WORD;
    let mut k: usize = 0;
    while k < n
        invariant
            k <= n,
            len == row@.len(),
            n == len / WORD,
            spaces@ == groups_upto(row@, k as int),
        decreases n - k,
    {
        assert((k + 1) * 32 <= row@.len());
        let occupied = count_taken(row, k * WORD, (k + 1) * WORD);
        if occupied < CROWDED as usize {
            spaces.push((occupied as u8, k * WORD));
        }
        k += 1;
    }
    sort_pairs(&mut spaces);
    spaces
}

impl ConeTable {
    /// Stores endpoints of `low` at one group of row 1. Returns how many endpoints
    /// of `low` are stored then.
    fn store_in_group(
        &self,
        aig: &AIG,
        filling: &mut Filling,
        outs: &IndexSet<usize>,
        low: &Vec<usize>,
        first: usize,
        start: usize,
        realized: &mut IndexSet<usize>,
        Ghost(c): Ghost<Cone>,
        Ghost(s): Ghost<Store>,
    ) -> (next: usize)
        requires
            c.wf(),
            c.aig == *aig,
            self.describes(c),
            c.outs == elems(*outs),
            c.storable(low@),
            c.storing(s.h, s, low@),
            old(filling).holds(s.h, aig.num_aigpins),
            s.h.len() >= 2,
            s.h[0].len() < usize::MAX / 4,
            start + WORD <= s.h[1].len(),
            s.next == first,
            elems(*old(realized)) == s.done,
        ensures
            ({
                let t = c.store_slots(s, low@, start as int, WORD as int);
                &&& c.storing(s.h, t, low@)
                &&& final(filling).holds(t.h, aig.num_aigpins)
                &&& next == t.next
                &&& elems(*final(realized)) == t.done
            }),
    {
        let mut next = first;
        let mut k: usize = 0;
        let ghost mut t = s;
        while k < WORD
            invariant
                k <= WORD,
                c.wf(),
                c.aig == *aig,
                self.describes(c),
                c.outs == elems(*outs),
                c.storable(low@),
                t == c.store_slots(s, low@, start as int, k as int),
                c.storing(s.h, t, low@),
                filling.holds(t.h, aig.num_aigpins),
                s.h.len() >= 2,
                s.h[0].len() < usize::MAX / 4,
                start + WORD <= s.h[1].len(),
                next == t.next,
                elems(*realized) == t.done,
            decreases WORD - k,
        {
            let ghost j = start + k;
            let ghost before = t;
            proof {
                t = c.store_slots(s, low@, start as int, k + 1);
                assert(t == c.store_slot(before, low@, j));
                c.lemma_store_slot(s.h, before, low@, j);
                c.lemma_good(before.h, 1);
                assert(rows(filling.hier@)[1] == before.h[1]);
                assert(s.h[0].len() == before.h[0].len());
                assert(s.h[1].len() == before.h[1].len());
            }
            if next < low.len() {
                let pin = filling.hier[1][start + k];
                if pin == FREE {
                    let endpoint = low[next];
                    proof {
                        c.lemma_good_place(before.h, 1, j, endpoint);
                    }
                    filling.place_bit(
                        aig,
                        self,
                        1,
                        start + k,
                        endpoint,
                        Ghost(c),
                        Ghost(before.h),
                    );
                    set_insert(realized, endpoint);
                    next += 1;
                } else if set_contains(outs, pin) {
                    set_insert(realized, pin);
                }
            }
            k += 1;
        }
        next
    }

    /// Stores endpoints of `low` at the groups `spaces`. Returns the endpoints that
    /// are written out and the words that hold them.
    fn store_endpoints(
        &self,
        aig: &AIG,
        filling: &mut Filling,
        outs: &IndexSet<usize>,
        low: &Vec<usize>,
        all: bool,
        spaces: &Vec<(u8, usize)>,
        total_write_outs: &mut usize,
        Ghost(c): Ghost<Cone>,
        Ghost(s): Ghost<Store>,
    ) -> (r: (IndexSet<usize>, Vec<usize>))
        requires
            c.wf(),
            c.aig == *aig,
            self.describes(c),
            c.outs == elems(*outs),
            c.storable(low@),
            c.storing(s.h, s, low@),
            old(filling).holds(s.h, aig.num_aigpins),
            s.h.len() >= 2,
            s.h[0].len() < usize::MAX / 4,
            forall|k: int|
                0 <= k < spaces@.len() ==> (#[trigger] spaces@[k]).1 + WORD <= s.h[1].len()
                    && spaces@[k].0 < CROWDED,
            s.next == 0,
            s.done == Seq::<usize>::empty(),
            s.write_outs == Seq::<usize>::empty(),
            s.total == *old(total_write_outs),
            *old(total_write_outs) + spaces@.len() <= usize::MAX,
        ensures
            ({
                let t = c.store(s, low@, all, spaces@, 0);
                &&& c.storing(s.h, t, low@)
                &&& final(filling).holds(t.h, aig.num_aigpins)
                &&& elems(r.0) == t.done
                &&& r.1@ == t.write_outs
                &&& *final(total_write_outs) == t.total
            }),
    {
        let mut realized = set_new();
        let mut write_outs: Vec<usize> = Vec::new();
        let mut next: usize = 0;
        let mut g: usize = 0;
        let ghost mut t = s;
        while g < spaces.len() && (all || low.len() - next >= WORD - spaces[g].0 as usize)
            invariant
                g <= spaces@.len(),
                c.wf(),
                c.aig == *aig,
                self.describes(c),
                c.outs == elems(*outs),
                c.storable(low@),
                c.storing(s.h, t, low@),
                filling.holds(t.h, aig.num_aigpins),
                s.h.len() >= 2,
                s.h[0].len() < usize::MAX / 4,
                forall|k: int|
                    0 <= k < spaces@.len() ==> (#[trigger] spaces@[k]).1 + WORD <= s.h[1].len()
                        && spaces@[k].0 < CROWDED,
                next == t.next,
                elems(realized) == t.done,
                write_outs@ == t.write_outs,
                *total_write_outs == t.total,
                *total_write_outs + (spaces@.len() - g) <= usize::MAX,
                c.store(s, low@, all, spaces@, 0) == c.store(t, low@, all, spaces@, g as int),
            decreases spaces@.len() - g,
        {
            let start = spaces[g].1;
            let ghost before = t;
            proof {
                assert(s.h[0].len() == before.h[0].len());
                assert(s.h[1].len() == before.h[1].len());
                c.lemma_good(before.h, 1);
                lemma_width_bound(before.h, 1);
                assert(rows(filling.hier@)[1] == before.h[1]);
                c.lemma_store_slots(s.h, before, low@, start as int, WORD as int);
                t = c.store_group(before, low@, start);
            }
            let width = filling.hier[1].len();
            next = self.store_in_group(
                aig,
                filling,
                outs,
                low,
                next,
                start,
                &mut realized,
                Ghost(c),
                Ghost(before),
            );
            *total_write_outs += 1;
            write_outs.push((start + width) / WORD);
            g += 1;
        }
        (realized, write_outs)
    }

    /// Puts the pins of `nodes` that are not computed or written out yet into free
    /// slots of row 1. Returns whether there is a free slot left in the end.
    fn place_remaining(
        &self,
        aig: &AIG,
        filling: &mut Filling,
        realized: &IndexSet<usize>,
        nodes: &Vec<usize>,
        Ghost(c): Ghost<Cone>,
        Ghost(h): Ghost<Hier>,
    ) -> (fits: bool)
        requires
            c.wf(),
            c.aig == *aig,
            self.describes(c),
            c.good(h, 1),
            old(filling).holds(h, aig.num_aigpins),
            h[0].len() < usize::MAX / 4,
            forall|k: int|
                0 <= k < nodes@.len() ==> c.order().contains(#[trigger] nodes@[k]) && c.level(
                    nodes@[k],
                ) <= 1,
        ensures
            match c.place_rest(h, elems(*realized), nodes@, 0) {
                Some(g) => {
                    &&& fits == (first_free(g[1]) is Some)
                    &&& fits ==> final(filling).holds(g, aig.num_aigpins)
                    &&& c.good(g, 1)
                    &&& same_shape(h, g)
                },
                None => !fits,
            },
    {
        let mut k: usize = 0;
        let mut slot: usize = 0;
        let ghost mut g = h;
        let ghost done = elems(*realized);
        proof {
            c.lemma_good(h, 1);
        }
        while k < nodes.len()
            invariant
                k <= nodes@.len(),
                c.wf(),
                c.aig == *aig,
                self.describes(c),
                c.good(g, 1),
                h.len() >= 2,
                h[0].len() < usize::MAX / 4,
                same_shape(h, g),
                filling.holds(g, aig.num_aigpins),
                done == elems(*realized),
                forall|i: int|
                    0 <= i < nodes@.len() ==> c.order().contains(#[trigger] nodes@[i]) && c.level(
                        nodes@[i],
                    ) <= 1,
                first_free(g[1]) == first_free_from(g[1], slot as int),
                slot <= g[1].len(),
                c.place_rest(h, done, nodes@, 0) == c.place_rest(g, done, nodes@, k as int),
            decreases nodes@.len() - k,
        {
            let node = nodes[k];
            proof {
                c.lemma_sources(node);
                assert(rows(filling.hier@)[1] == g[1]);
                assert(h[0].len() == g[0].len());
                c.lemma_good(g, 1);
            }
            if filling.visited_count[node] > 0 || set_contains(realized, node) {
                k += 1;
                continue ;
            }
            proof {
                lemma_first_free(g[1], slot as int);
            }
            slot = match find_free_from(&filling.hier[1], slot) {
                Some(j) => j,
                None => {
                    return false;
                },
            };
            let ghost before = g;
            proof {
                c.lemma_good_place(before, 1, slot as int, node);
                g = c.place(before, 1, slot as int, node);
                lemma_same_shape_trans(h, before, g);
                c.lemma_place_row(before, 1, slot as int, node);
                lemma_first_free_skip(before[1], g[1], slot as int, 0);
                assert(c.place_rest(before, done, nodes@, k as int) == c.place_rest(
                    g,
                    done,
                    nodes@,
                    k + 1,
                ));
            }
            filling.place_bit(
                aig,
                self,
                1,
                slot,
                node,
                Ghost(c),
                Ghost(before),
            );
            k += 1;
        }
        assert(rows(filling.hier@)[1] == g[1]);
        find_free_from(&filling.hier[1], slot).is_some()
    }
}

/// Filtering one more element.
proof fn lemma_filter_step(s: Seq<usize>, pred: spec_fn(usize) -> bool, k: int)
    requires
        0 <= k < s.len(),
    ensures
        s.take(k + 1).filter(pred) == if pred(s[k]) {
            s.take(k).filter(pred).push(s[k])
        } else {
            s.take(k).filter(pred)
        },
        forall|x: usize| #[trigger] s.take(k).filter(pred).contains(x) ==> s.take(k).contains(x),
{
    reveal(Seq::filter);
    assert(s.take(k + 1).drop_last() =~= s.take(k));
    assert forall|x: usize| #[trigger] s.take(k).filter(pred).contains(x) implies s.take(
        k,
    ).contains(x) by {
        s.take(k).lemma_filter_contains_rev(pred, x);
    }
}

/// Splits the endpoints into those that row 1 has to hold and those inside the
/// hierarchy, and tells whether that is all of them.
fn split_endpoints(
    outs: &Vec<usize>,
    filling: &Filling,
    nodes: &IndexSet<usize>,
    Ghost(c): Ghost<Cone>,
    Ghost(h): Ghost<Hier>,
) -> (r: (Vec<usize>, IndexSet<usize>, bool))
    requires
        c.wf(),
        c.outs == outs@,
        filling.holds(h, c.aig.num_aigpins),
    ensures
        r.0@ == c.low(h, elems(*nodes)),
        elems(r.1) == c.inside(h),
        r.2 == (c.untouched(h, elems(*nodes)).len() == 0),
{
    let ghost nec = elems(*nodes);
    let ghost p_low = |x: usize| !placed(h, x) && nec.contains(x);
    let ghost p_in = |x: usize| placed(h, x);
    let ghost p_un = |x: usize| !placed(h, x) && !nec.contains(x);
    let mut low: Vec<usize> = Vec::new();
    let mut inside = set_new();
    let mut all = true;
    let mut k: usize = 0;
    proof {
        reveal(Seq::filter);
        assert(outs@.take(0) =~= Seq::<usize>::empty());
    }
    while k < outs.len()
        invariant
            k <= outs@.len(),
            c.wf(),
            c.outs == outs@,
            filling.holds(h, c.aig.num_aigpins),
            nec == elems(*nodes),
            p_low == |x: usize| !placed(h, x) && nec.contains(x),
            p_in == |x: usize| placed(h, x),
            p_un == |x: usize| !placed(h, x) && !nec.contains(x),
            low@ == outs@.take(k as int).filter(p_low),
            elems(inside) == outs@.take(k as int).filter(p_in),
            all == (outs@.take(k as int).filter(p_un).len() == 0),
        decreases outs@.len() - k,
    {
        let endpoint = outs[k];
        proof {
            lemma_filter_step(outs@, p_low, k as int);
            lemma_filter_step(outs@, p_in, k as int);
            lemma_filter_step(outs@, p_un, k as int);
            assert(1 <= c.outs[k as int] <= c.aig.num_aigpins);
            if elems(inside).contains(endpoint) {
                assert(outs@.take(k as int).contains(endpoint));
                let i = outs@.take(k as int).index_of(endpoint);
                assert(outs@[i] == outs@[k as int]);
            }
        }
        if filling.visited_count[endpoint] > 0 {
            set_insert(&mut inside, endpoint);
        } else if set_contains(nodes, endpoint) {
            low.push(endpoint);
        } else {
            all = false;
        }
        k += 1;
    }
    assert(outs@.take(outs@.len() as int) =~= outs@);
    (low, inside, all)
}

/// The words above row 0 that hold a pin of `pins` which is not in `done`.
fn collect_words(
    hier: &Vec<Vec<usize>>,
    pins: &IndexSet<usize>,
    done: &IndexSet<usize>,
) -> (words: IndexSet<usize>)
    requires
        shaped(rows(hier@)),
        rows(hier@)[0].len() < usize::MAX / 4,
    ensures
        elems(words) == words_below(rows(hier@), elems(*pins), elems(*done), hier@.len() as int),
{
    let ghost h = rows(hier@);
    let mut words = set_new();
    let mut hi: usize = 1;
    while hi < hier.len()
        invariant
            1 <= hi,
            hi <= hier@.len() || hier@.len() < 1,
            h == rows(hier@),
            shaped(h),
            h[0].len() < usize::MAX / 4,
            elems(words) == words_below(h, elems(*pins), elems(*done), hi as int),
        decreases hier@.len() - hi,
    {
        let width = hier[hi].len();
        let ghost before = elems(words);
        proof {
            assert(h[hi as int] == hier@[hi as int]@);
            lemma_width_bound(h, hi as int);
        }
        let mut j: usize = 0;
        while j < width
            invariant
                j <= width,
                1 <= hi < hier@.len(),
                h == rows(hier@),
                h[hi as int] == hier@[hi as int]@,
                width == h[hi as int].len(),
                width < usize::MAX / 4,
                elems(words) == words_in_row(
                    before,
                    h[hi as int],
                    elems(*pins),
                    elems(*done),
                    j as int,
                ),
            decreases width - j,
        {
            let pin = hier[hi][j];
            if set_contains(pins, pin) && !set_contains(done, pin) {
                set_insert(&mut words, (j + width) / WORD);
            }
            j += 1;
        }
        hi += 1;
    }
    words
}

impl ConeTable {
    /// The largest level of a pin to compute.
    fn top_level(&self, Ghost(c): Ghost<Cone>) -> (top: usize)
        requires
            self.describes(c),
        ensures
            top == c.top_level_upto(c.order().len() as int),
    {
        let mut top: usize = 0;
        let mut k: usize = 0;
        while k < self.level.len()
            invariant
                k <= self.level@.len(),
                self.describes(c),
                top == c.top_level_upto(k as int),
            decreases self.level@.len() - k,
        {
            if top < self.level[k] {
                top = self.level[k];
            }
            k += 1;
        }
        top
    }
}

/// Makes the pins that are computed in a hierarchy available.
fn make_available(
    filling: &Filling,
    realized_inputs: &mut IndexSet<usize>,
    Ghost(h): Ghost<Hier>,
    Ghost(n): Ghost<usize>,
)
    requires
        filling.holds(h, n),
    ensures
        elems(*final(realized_inputs)) == inserted_all(
            elems(*old(realized_inputs)),
            placed_pins(h, n + 1),
        ),
{
    let mut k: usize = 0;
    let ghost before = elems(*realized_inputs);
    while k < filling.visited_count.len()
        invariant
            k <= filling.visited_count@.len(),
            filling.holds(h, n),
            elems(*realized_inputs) == inserted_all(before, placed_pins(h, k as int)),
        decreases filling.visited_count@.len() - k,
    {
        if filling.visited_count[k] > 0 {
            set_insert(realized_inputs, k);
        }
        proof {
            let pins = placed_pins(h, k as int);
            assert(pins.push(k).drop_last() =~= pins);
        }
        k += 1;
    }
}

/// Builds one boomerang stage for the given available pins and pins to realize.
///
/// Pins that the stage computes become available, endpoints that it writes out
/// are no longer to be realized. Returns nothing if the hierarchy or the words to
/// write out are exhausted; the pins stay as they are then.
pub fn build_one_boomerang_stage(
    aig: &AIG,
    unrealized_comb_outputs: &mut IndexSet<usize>,
    realized_inputs: &mut IndexSet<usize>,
    total_write_outs: &mut usize,
    num_reserved_writeouts: usize,
    num_stages: usize,
) -> (stage: Option<BoomerangStage>)
    requires
        stages_fit(num_stages),
        num_reserved_writeouts <= max_writeouts(num_stages as nat),
        *old(total_write_outs) + max_writeouts(num_stages as nat) <= usize::MAX,
        (Cone {
            aig: *aig,
            outs: elems(*old(unrealized_comb_outputs)),
            avail: elems(*old(realized_inputs)),
        }).wf(),
        (Cone {
            aig: *aig,
            outs: elems(*old(unrealized_comb_outputs)),
            avail: elems(*old(realized_inputs)),
        }).placeable(num_stages as int),
    ensures
        ({
            let result = (Cone {
                aig: *aig,
                outs: elems(*old(unrealized_comb_outputs)),
                avail: elems(*old(realized_inputs)),
            }).build(
                num_stages as nat,
                num_reserved_writeouts as nat,
                *old(total_write_outs) as nat,
            );
            &&& elems(*final(unrealized_comb_outputs)) == result.outs
            &&& elems(*final(realized_inputs)) == result.avail
            &&& *final(total_write_outs) == result.total
            &&& match result.stage {
                Some(m) => stage matches Some(s) && s@ == m,
                None => stage is None,
            }
        }),
{
    let ghost n = aig.num_aigpins;
    let ghost ns = num_stages as nat;
    let ghost c = Cone {
        aig: *aig,
        outs: elems(*unrealized_comb_outputs),
        avail: elems(*realized_inputs),
    };
    let ghost total = *total_write_outs as nat;
    let ghost start = c.fill_start(ns);
    proof {
        lemma_stages_fit(num_stages);
        lemma_free_hier(ns);
    }
    let outs = set_to_vec(unrealized_comb_outputs);
    let table = ConeTable::new(aig, &outs, realized_inputs, Ghost(c));
    let top = table.top_level(Ghost(c));
    let start_level = if top < num_stages {
        top
    } else {
        num_stages
    };
    let mut filling = Filling::new(num_stages, aig.num_aigpins);
    proof {
        c.lemma_good_free(start.h, start_level as int);
        c.lemma_good_free(start.h, 1);
    }
    let (reverse_level, last_nodes) = table.fill_rows(
        aig,
        &mut filling,
        start_level,
        Ghost(c),
        Ghost(start),
    );
    let ghost st = c.fill(start);
    let ghost h = st.h;
    proof {
        aig.lemma_topo(c.avail, c.outs);
        assert(c.fillable(start));
        assert(c.good(h, 1));
        c.lemma_good(h, 1);
        assert(start.h[0].len() == h[0].len());
        assert(start.h[1].len() == h[1].len());
        c.lemma_needs(h, st.rl, c.order().len() as int);
    }
    let nodes = if set_len(&last_nodes) == 0 {
        table.compute_lvl1_necessary_nodes(
            aig,
            &filling,
            &reverse_level,
            Ghost(c),
            Ghost(h),
            Ghost(st.rl),
        )
    } else {
        last_nodes
    };
    let ghost nec = c.final_needs(st);
    let (endpoints_lvl1, endpoints_hier, all) = split_endpoints(
        &outs,
        &filling,
        &nodes,
        Ghost(c),
        Ghost(h),
    );
    proof {
        assert forall|k: int| 0 <= k < endpoints_lvl1@.len() implies c.outs.contains(
            #[trigger] endpoints_lvl1@[k],
        ) && c.order().contains(endpoints_lvl1@[k]) && c.level(endpoints_lvl1@[k]) <= 1 by {
            let x = endpoints_lvl1@[k];
            let pred = |x: usize| !placed(h, x) && nec.contains(x);
            assert(c.outs.filter(pred).contains(x));
            c.outs.lemma_filter_contains_rev(pred, x);
            c.outs.lemma_filter_pred(pred, k);
        }
        assert(rows(filling.hier@)[1] == h[1]);
        lemma_groups(h[1]);
        lemma_pow2_unfold(ns);
    }
    let spaces = collect_groups(&filling.hier[1]);
    let ghost s0 = Store {
        h,
        next: 0,
        done: Seq::empty(),
        write_outs: Seq::empty(),
        total,
    };
    let (mut realized_endpoints, mut write_outs) = table.store_endpoints(
        aig,
        &mut filling,
        unrealized_comb_outputs,
        &endpoints_lvl1,
        all,
        &spaces,
        total_write_outs,
        Ghost(c),
        Ghost(s0),
    );
    let ghost s = c.stored(st, total);
    let limit = writeout_limit(num_stages) - num_reserved_writeouts;
    if *total_write_outs > limit {
        return None;
    }
    let remaining = set_to_vec(&nodes);
    proof {
        assert(h[0].len() == s.h[0].len());
        assert forall|k: int| 0 <= k < remaining@.len() implies c.order().contains(
            #[trigger] remaining@[k],
        ) && c.level(remaining@[k]) <= 1 by {
            assert(nec.contains(remaining@[k]));
        }
    }
    let fits = table.place_remaining(
        aig,
        &mut filling,
        &realized_endpoints,
        &remaining,
        Ghost(c),
        Ghost(s.h),
    );
    if !fits {
        return None;
    }
    let ghost g = c.place_rest(s.h, s.done, nec, 0).unwrap();
    proof {
        c.lemma_good(g, 1);
        assert(s.h[0].len() == g[0].len());
    }
    if all {
        let extra = collect_words(&filling.hier, &endpoints_hier, &realized_endpoints);
        if set_len(&extra) <= limit - *total_write_outs {
            let words = set_to_vec(&extra);
            *total_write_outs += words.len();
            let mut words_moved = words;
            write_outs.append(&mut words_moved);
            let endpoints = set_to_vec(&endpoints_hier);
            insert_all(&mut realized_endpoints, &endpoints);
        }
    }
    make_available(&filling, realized_inputs, Ghost(g), Ghost(n));
    let realized = set_to_vec(&realized_endpoints);
    remove_all(unrealized_comb_outputs, &realized);
    let hier = filling.hier;
    Some(BoomerangStage { hier, write_outs })
}

} // verus!
