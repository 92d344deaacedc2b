//! Which pins are alive at a level split.
use crate::aig::{larger, pin_of, stands_before, DriverType, AIG};
use crate::index_set::{
    inserted, lemma_distinct_bound, lemma_inserted, lemma_swap_removed, swap_removed,
};
use crate::pe::hier::{count_in, lemma_count_bound};
use crate::staging::StagedModel;
use vstd::prelude::*;

verus! {

/// The pins at the split while they are collected, and the uses of pins that lie
/// before the split so far.
pub struct Frontier {
    pub nodes: Seq<usize>,
    pub used: Seq<usize>,
}

/// A split of what the endpoints `eps` depend on: the traversal stops at `stop`, and
/// the split is behind `level` gates.
pub struct Split {
    pub aig: AIG,
    pub stop: Seq<usize>,
    pub eps: Seq<usize>,
    pub level: nat,
}

impl Split {
    /// The pins that the first `k` endpoints read, with repetitions.
    pub open spec fn end_uses(self, k: int) -> Seq<usize>
        decreases k,
    {
        if k <= 0 {
            Seq::empty()
        } else {
            self.end_uses(k - 1) + self.aig.group(self.eps[k - 1] as int).input_pins()
        }
    }

    /// The pins that all endpoints read, with repetitions.
    pub open spec fn ends(self) -> Seq<usize> {
        self.end_uses(self.eps.len() as int)
    }

    /// The pins that the endpoints depend on, inputs before outputs.
    pub open spec fn order(self) -> Seq<usize> {
        self.aig.topo(self.stop, self.ends())
    }

    /// The number of gates before a pin, itself included.
    pub open spec fn depth(self, u: usize) -> nat {
        self.aig.depth(self.stop, u)
    }

    /// The largest number of gates before one of the first `k` pins of a list.
    pub open spec fn deepest(self, pins: Seq<usize>, k: int) -> nat
        decreases k,
    {
        if k <= 0 {
            0
        } else {
            larger(self.deepest(pins, k - 1), self.depth(pins[k - 1]))
        }
    }

    /// Whether a pin lies before the split.
    pub open spec fn pin_before(self, u: usize) -> bool {
        self.depth(u) <= self.level
    }

    /// Whether everything that an endpoint reads lies before the split.
    pub open spec fn end_before(self, e: usize) -> bool {
        let pins = self.aig.group(e as int).input_pins();
        self.deepest(pins, pins.len() as int) <= self.level
    }

    /// The pins that the first `k` pins of the traversal are computed from.
    pub open spec fn gate_uses(self, k: int) -> Seq<usize>
        decreases k,
    {
        if k <= 0 {
            Seq::empty()
        } else {
            self.gate_uses(k - 1) + self.aig.sources(self.stop, self.order()[k - 1])
        }
    }

    /// All uses of pins, by gates and by endpoints.
    pub open spec fn uses(self) -> Seq<usize> {
        self.gate_uses(self.order().len() as int) + self.ends()
    }

    /// One more use of pin `x`; a pin is dropped with its last use.
    pub open spec fn use_pin(self, f: Frontier, x: usize) -> Frontier {
        let used = f.used.push(x);
        Frontier {
            nodes: if count_in(used, x) == count_in(self.uses(), x) {
                swap_removed(f.nodes, x)
            } else {
                f.nodes
            },
            used,
        }
    }

    /// The uses of the first `k` pins of a list.
    pub open spec fn use_pins(self, f: Frontier, pins: Seq<usize>, k: int) -> Frontier
        decreases k,
    {
        if k <= 0 {
            f
        } else {
            self.use_pin(self.use_pins(f, pins, k - 1), pins[k - 1])
        }
    }

    /// The state after the first `k` pins of the traversal.
    pub open spec fn after_pins(self, k: int) -> Frontier
        decreases k,
    {
        if k <= 0 {
            Frontier { nodes: Seq::empty(), used: Seq::empty() }
        } else {
            let f = self.after_pins(k - 1);
            let u = self.order()[k - 1];
            if self.pin_before(u) {
                let pins = self.aig.sources(self.stop, u);
                self.use_pins(
                    Frontier { nodes: inserted(f.nodes, u), used: f.used },
                    pins,
                    pins.len() as int,
                )
            } else {
                f
            }
        }
    }

    /// The state after all pins and the first `k` endpoints.
    pub open spec fn after_ends(self, k: int) -> Frontier
        decreases k,
    {
        if k <= 0 {
            self.after_pins(self.order().len() as int)
        } else {
            let f = self.after_ends(k - 1);
            let e = self.eps[k - 1];
            if self.end_before(e) {
                let pins = self.aig.group(e as int).input_pins();
                self.use_pins(f, pins, pins.len() as int)
            } else {
                f
            }
        }
    }

    /// The active pins at the split: those before it with a use that is not.
    pub open spec fn active(self) -> Seq<usize> {
        self.after_ends(self.eps.len() as int).nodes
    }

    /// The active pins but for those where the traversal stops.
    pub open spec fn fresh(self) -> Seq<usize> {
        self.active().filter(|x: usize| !self.stop.contains(x))
    }

    /// The pins that are handed on to later stages: the active ones but for those where
    /// the traversal stops. If it stops at all of them, they are handed on once more, so
    /// that nothing is handed on only where nothing is left.
    pub open spec fn outputs(self) -> Seq<usize> {
        if self.fresh().len() == 0 {
            self.active()
        } else {
            self.fresh()
        }
    }

    /// The endpoints that lie before the split.
    pub open spec fn early(self) -> Seq<usize> {
        self.eps.filter(|e: usize| self.end_before(e))
    }

    /// Whether the split is one of a valid graph.
    pub open spec fn wf(self) -> bool {
        &&& self.aig.wf()
        &&& self.eps.no_duplicates()
        &&& forall|k: int|
            0 <= k < self.eps.len() ==> (#[trigger] self.eps[k]) < self.aig.group_count()
        &&& forall|k: int|
            0 <= k < self.stop.len() ==> #[trigger] self.stop[k] <= self.aig.num_aigpins
    }

    /// The stage before the split.
    pub open spec fn stage(self, primary_inputs: Option<Seq<usize>>) -> StagedModel {
        if self.ends().len() == 0 {
            StagedModel {
                primary_inputs,
                primary_output_pins: Seq::empty(),
                endpoints: self.eps,
            }
        } else {
            StagedModel {
                primary_inputs,
                primary_output_pins: self.outputs(),
                endpoints: self.early(),
            }
        }
    }

    /// The pins that the first `k` pins of the traversal are computed from, if they
    /// lie before the split.
    pub open spec fn early_gate_uses(self, k: int) -> Seq<usize>
        decreases k,
    {
        if k <= 0 {
            Seq::empty()
        } else if self.pin_before(self.order()[k - 1]) {
            self.early_gate_uses(k - 1) + self.aig.sources(self.stop, self.order()[k - 1])
        } else {
            self.early_gate_uses(k - 1)
        }
    }

    /// The pins that the first `k` endpoints read, if they lie before the split.
    pub open spec fn early_end_uses(self, k: int) -> Seq<usize>
        decreases k,
    {
        if k <= 0 {
            Seq::empty()
        } else if self.end_before(self.eps[k - 1]) {
            self.early_end_uses(k - 1) + self.aig.group(self.eps[k - 1] as int).input_pins()
        } else {
            self.early_end_uses(k - 1)
        }
    }

    /// Whether a gate or an endpoint behind the split uses a pin.
    pub open spec fn used_later(self, x: usize) -> bool {
        ||| exists|p: int|
            0 <= p < self.order().len() && !self.pin_before(#[trigger] self.order()[p])
                && self.aig.sources(self.stop, self.order()[p]).contains(x)
        ||| exists|k: int|
            0 <= k < self.eps.len() && !self.end_before(#[trigger] self.eps[k]) && self.aig.group(
                self.eps[k] as int,
            ).input_pins().contains(x)
    }

    /// Whether a pin lies before the split and is used behind it.
    pub open spec fn is_active(self, x: usize) -> bool {
        &&& self.order().contains(x)
        &&& self.pin_before(x)
        &&& self.used_later(x)
    }

    /// Whether `f` holds exactly the pins of `listed` that lie before the split and
    /// have a use which is not among those so far.
    pub open spec fn live(self, f: Frontier, listed: Seq<usize>) -> bool {
        &&& f.nodes.no_duplicates()
        &&& forall|x: usize| #[trigger]
            f.nodes.contains(x) <==> listed.contains(x) && self.pin_before(x) && count_in(f.used, x)
                < count_in(self.uses(), x)
    }

    /// The pins that endpoints read are pins of the graph.
    pub proof fn lemma_end_uses(self, k: int)
        requires
            self.wf(),
            k <= self.eps.len(),
        ensures
            forall|i: int|
                0 <= i < self.end_uses(k).len() ==> #[trigger] self.end_uses(k)[i]
                    <= self.aig.num_aigpins,
            forall|t: int, x: usize|
                0 <= t < k && #[trigger] self.aig.group(self.eps[t] as int).input_pins().contains(
                    x,
                ) ==> self.end_uses(k).contains(x),
        decreases k,
    {
        if k > 0 {
            self.lemma_end_uses(k - 1);
            self.aig.lemma_group_inputs(self.eps[k - 1] as int);
            let before = self.end_uses(k - 1);
            let pins = self.aig.group(self.eps[k - 1] as int).input_pins();
            assert forall|t: int, x: usize|
                0 <= t < k && #[trigger] self.aig.group(self.eps[t] as int).input_pins().contains(
                    x,
                ) implies self.end_uses(k).contains(x) by {
                if t < k - 1 {
                    let i = before.index_of(x);
                    assert(self.end_uses(k)[i] == x);
                } else {
                    let i = pins.index_of(x);
                    assert(self.end_uses(k)[before.len() + i] == x);
                }
            }
        }
    }

    /// What is known of the traversal.
    pub proof fn lemma_order(self)
        requires
            self.wf(),
        ensures
            self.aig.is_topo(self.stop, self.order()),
            self.aig.is_needed(self.stop, self.order(), self.ends(), 0),
            forall|x: usize| #[trigger] self.ends().contains(x) ==> self.order().contains(x),
    {
        self.lemma_end_uses(self.eps.len() as int);
        self.aig.lemma_topo(self.stop, self.ends());
    }

    /// An input of a gate comes before it and has fewer gates before it.
    pub proof fn lemma_source(self, p: int, x: usize)
        requires
            self.wf(),
            0 <= p < self.order().len(),
            self.aig.sources(self.stop, self.order()[p]).contains(x),
        ensures
            stands_before(self.order(), p, x),
            self.depth(x) < self.depth(self.order()[p]),
            x <= self.aig.num_aigpins,
    {
        self.lemma_order();
        let s = self.order();
        let u = s[p];
        assert(stands_before(s, p, x));
        let q = choose|q: int| 0 <= q < p && #[trigger] s[q] == x;
        self.aig.lemma_rank(u);
    }

    /// The uses of a pin by gates that are listed: none before the pin is listed.
    proof fn lemma_gate_uses_before(self, k: int, q: int)
        requires
            self.wf(),
            0 <= k <= self.order().len(),
            k <= q + 1,
            q < self.order().len(),
        ensures
            count_in(self.gate_uses(k), self.order()[q]) == 0,
        decreases k,
    {
        if k > 0 {
            self.lemma_gate_uses_before(k - 1, q);
            let s = self.order();
            let pins = self.aig.sources(self.stop, s[k - 1]);
            lemma_count_concat(self.gate_uses(k - 1), pins, s[q]);
            lemma_count_bound(pins, s[q]);
            if pins.contains(s[q]) {
                self.lemma_order();
                self.lemma_source(k - 1, s[q]);
                let t = choose|t: int| 0 <= t < k - 1 && #[trigger] s[t] == s[q];
                assert(s[t] == s[q]);
            }
        }
    }

    /// Uses before the split are uses.
    proof fn lemma_early_gate_uses(self, k: int, x: usize)
        ensures
            count_in(self.early_gate_uses(k), x) <= count_in(self.gate_uses(k), x),
        decreases k,
    {
        if k > 0 {
            self.lemma_early_gate_uses(k - 1, x);
            let pins = self.aig.sources(self.stop, self.order()[k - 1]);
            lemma_count_concat(self.gate_uses(k - 1), pins, x);
            lemma_count_concat(self.early_gate_uses(k - 1), pins, x);
        }
    }

    /// Uses before the split are uses.
    proof fn lemma_early_end_uses(self, k: int, x: usize)
        ensures
            count_in(self.early_end_uses(k), x) <= count_in(self.end_uses(k), x),
        decreases k,
    {
        if k > 0 {
            self.lemma_early_end_uses(k - 1, x);
            let pins = self.aig.group(self.eps[k - 1] as int).input_pins();
            lemma_count_concat(self.end_uses(k - 1), pins, x);
            lemma_count_concat(self.early_end_uses(k - 1), pins, x);
        }
    }

    /// There are fewer uses in part than in all.
    proof fn lemma_gate_uses_mono(self, k: int, m: int, x: usize)
        requires
            0 <= k <= m,
        ensures
            count_in(self.gate_uses(k), x) <= count_in(self.gate_uses(m), x),
        decreases m,
    {
        if k < m {
            self.lemma_gate_uses_mono(k, m - 1, x);
            let pins = self.aig.sources(self.stop, self.order()[m - 1]);
            lemma_count_concat(self.gate_uses(m - 1), pins, x);
        }
    }

    /// There are fewer uses in part than in all.
    proof fn lemma_end_uses_mono(self, k: int, m: int, x: usize)
        requires
            0 <= k <= m,
        ensures
            count_in(self.end_uses(k), x) <= count_in(self.end_uses(m), x),
        decreases m,
    {
        if k < m {
            self.lemma_end_uses_mono(k, m - 1, x);
            let pins = self.aig.group(self.eps[m - 1] as int).input_pins();
            lemma_count_concat(self.end_uses(m - 1), pins, x);
        }
    }

    /// Every pin that is listed has a use.
    proof fn lemma_has_use(self, p: int)
        requires
            self.wf(),
            0 <= p < self.order().len(),
        ensures
            count_in(self.uses(), self.order()[p]) > 0,
    {
        self.lemma_order();
        let s = self.order();
        let n = s.len() as int;
        lemma_count_concat(self.gate_uses(n), self.ends(), s[p]);
        lemma_count_bound(self.ends(), s[p]);
        if !self.ends().contains(s[p]) {
            let q = choose|q: int|
                p < q < s.len() && self.aig.sources(self.stop, #[trigger] s[q]).contains(s[p]);
            let pins = self.aig.sources(self.stop, s[q]);
            lemma_count_bound(pins, s[p]);
            lemma_count_concat(self.gate_uses(q), pins, s[p]);
            self.lemma_gate_uses_mono(q + 1, n, s[p]);
        }
    }

    /// One more use keeps exactly the live pins.
    proof fn lemma_use_pin(self, f: Frontier, listed: Seq<usize>, x: usize)
        requires
            self.live(f, listed),
            listed.contains(x),
            self.pin_before(x),
            count_in(f.used, x) < count_in(self.uses(), x),
        ensures
            self.live(self.use_pin(f, x), listed),
            f.nodes.contains(x),
    {
        let g = self.use_pin(f, x);
        lemma_swap_removed(f.nodes, x);
        assert(g.used.drop_last() =~= f.used);
        assert forall|y: usize| #[trigger] g.nodes.contains(y) <==> listed.contains(y)
            && self.pin_before(y) && count_in(g.used, y) < count_in(self.uses(), y) by {
            assert(count_in(g.used, y) == count_in(f.used, y) + if x == y {
                1nat
            } else {
                0nat
            });
        }
    }

    /// Several uses keep exactly the live pins.
    pub proof fn lemma_use_pins(self, f: Frontier, listed: Seq<usize>, pins: Seq<usize>, k: int)
        requires
            self.live(f, listed),
            0 <= k <= pins.len(),
            forall|i: int|
                0 <= i < pins.len() ==> listed.contains(#[trigger] pins[i]) && self.pin_before(
                    pins[i],
                ),
            forall|x: usize| #[trigger]
                count_in(f.used + pins, x) <= count_in(self.uses(), x),
        ensures
            self.live(self.use_pins(f, pins, k), listed),
            self.use_pins(f, pins, k).used == f.used + pins.take(k),
            k < pins.len() ==> count_in(self.use_pins(f, pins, k).used, pins[k]) < count_in(
                self.uses(),
                pins[k],
            ),
        decreases k,
    {
        if k > 0 {
            self.lemma_use_pins(f, listed, pins, k - 1);
            let g = self.use_pins(f, pins, k - 1);
            self.lemma_use_pin(g, listed, pins[k - 1]);
            assert(f.used + pins.take(k) =~= (f.used + pins.take(k - 1)).push(pins[k - 1]));
        } else {
            assert(f.used + pins.take(0) =~= f.used);
        }
        if k < pins.len() {
            let x = pins[k];
            let used = f.used + pins.take(k);
            lemma_count_concat(f.used + pins.take(k + 1), pins.skip(k + 1), x);
            assert((f.used + pins.take(k + 1)) + pins.skip(k + 1) =~= f.used + pins);
            assert((f.used + pins.take(k + 1)).drop_last() =~= used);
            assert(count_in(f.used + pins, x) <= count_in(self.uses(), x));
        }
    }

    /// The pins at the split after the first `k` pins of the traversal.
    pub proof fn lemma_after_pins(self, k: int)
        requires
            self.wf(),
            0 <= k <= self.order().len(),
        ensures
            self.live(self.after_pins(k), self.order().take(k)),
            self.after_pins(k).used == self.early_gate_uses(k),
        decreases k,
    {
        let s = self.order();
        if k > 0 {
            self.lemma_after_pins(k - 1);
            let f = self.after_pins(k - 1);
            let u = s[k - 1];
            let was = s.take(k - 1);
            let listed = s.take(k);
            assert(listed =~= was.push(u));
            lemma_push_contains(was, u);
            self.lemma_order();
            if self.pin_before(u) {
                let g = Frontier { nodes: inserted(f.nodes, u), used: f.used };
                lemma_inserted(f.nodes, u);
                self.lemma_has_use(k - 1);
                self.lemma_gate_uses_before(k - 1, k - 1);
                self.lemma_early_gate_uses(k - 1, u);
                assert(self.live(g, listed));
                let pins = self.aig.sources(self.stop, u);
                assert forall|i: int| 0 <= i < pins.len() implies listed.contains(#[trigger] pins[i])
                    && self.pin_before(pins[i]) by {
                    assert(pins.contains(pins[i]));
                    self.lemma_source(k - 1, pins[i]);
                    let q = choose|q: int| 0 <= q < k - 1 && #[trigger] s[q] == pins[i];
                    assert(listed[q] == pins[i]);
                }
                assert forall|x: usize| #[trigger] count_in(g.used + pins, x) <= count_in(
                    self.uses(),
                    x,
                ) by {
                    self.lemma_early_gate_uses(k, x);
                    self.lemma_gate_uses_mono(k, s.len() as int, x);
                    lemma_count_concat(self.gate_uses(s.len() as int), self.ends(), x);
                }
                self.lemma_use_pins(g, listed, pins, pins.len() as int);
                assert(pins.take(pins.len() as int) =~= pins);
            } else {
                assert(self.live(f, listed));
            }
        }
    }

    /// What is known of the pins that an endpoint before the split reads.
    pub proof fn lemma_early_end(self, k: int)
        requires
            self.wf(),
            0 <= k < self.eps.len(),
            self.end_before(self.eps[k]),
        ensures
            ({
                let pins = self.aig.group(self.eps[k] as int).input_pins();
                &&& forall|i: int|
                    0 <= i < pins.len() ==> self.order().contains(#[trigger] pins[i])
                        && self.pin_before(pins[i])
                &&& forall|x: usize| #[trigger]
                    count_in(
                        self.early_gate_uses(self.order().len() as int) + self.early_end_uses(k)
                            + pins,
                        x,
                    ) <= count_in(self.uses(), x)
            }),
    {
        let n = self.order().len() as int;
        let pins = self.aig.group(self.eps[k] as int).input_pins();
        self.lemma_order();
        self.lemma_end_uses(self.eps.len() as int);
        assert forall|i: int| 0 <= i < pins.len() implies self.order().contains(#[trigger] pins[i])
            && self.pin_before(pins[i]) by {
            assert(self.aig.group(self.eps[k] as int).input_pins().contains(pins[i]));
            assert(self.ends().contains(pins[i]));
            self.lemma_deepest(pins, pins.len() as int, i);
        }
        assert forall|x: usize| #[trigger]
            count_in(
                self.early_gate_uses(n) + self.early_end_uses(k) + pins,
                x,
            ) <= count_in(self.uses(), x) by {
            self.lemma_early_gate_uses(n, x);
            self.lemma_early_end_uses(k + 1, x);
            self.lemma_end_uses_mono(k + 1, self.eps.len() as int, x);
            lemma_count_concat(self.gate_uses(n), self.ends(), x);
            lemma_count_concat(self.early_gate_uses(n), self.early_end_uses(k), x);
            lemma_count_concat(self.early_gate_uses(n) + self.early_end_uses(k), pins, x);
            lemma_count_concat(self.early_end_uses(k), pins, x);
        }
    }

    proof fn lemma_deepest(self, pins: Seq<usize>, k: int, i: int)
        requires
            0 <= i < k <= pins.len(),
        ensures
            self.depth(pins[i]) <= self.deepest(pins, k),
        decreases k,
    {
        if i < k - 1 {
            self.lemma_deepest(pins, k - 1, i);
        }
    }

    /// The pins at the split after all pins and the first `k` endpoints.
    pub proof fn lemma_after_ends(self, k: int)
        requires
            self.wf(),
            0 <= k <= self.eps.len(),
        ensures
            self.live(self.after_ends(k), self.order()),
            self.after_ends(k).used == self.early_gate_uses(self.order().len() as int)
                + self.early_end_uses(k),
        decreases k,
    {
        let s = self.order();
        let n = s.len() as int;
        if k > 0 {
            self.lemma_after_ends(k - 1);
            let f = self.after_ends(k - 1);
            let e = self.eps[k - 1];
            if self.end_before(e) {
                let pins = self.aig.group(e as int).input_pins();
                self.lemma_early_end(k - 1);
                self.lemma_use_pins(f, s, pins, pins.len() as int);
                assert(pins.take(pins.len() as int) =~= pins);
                assert(self.early_gate_uses(n) + self.early_end_uses(k - 1) + pins
                    =~= self.early_gate_uses(n) + self.early_end_uses(k));
            }
        } else {
            self.lemma_after_pins(n);
            assert(s.take(n) =~= s);
            assert(self.early_gate_uses(n) + self.early_end_uses(0) =~= self.early_gate_uses(n));
        }
    }

    /// One more than the largest number of gates before one of the first `k` pins of a
    /// list.
    pub open spec fn above(self, pins: Seq<usize>, k: int) -> nat
        decreases k,
    {
        if k <= 0 {
            0
        } else {
            larger(self.above(pins, k - 1), self.depth(pins[k - 1]) + 1)
        }
    }

    /// A gate stands above its inputs.
    pub proof fn lemma_above(self, u: usize)
        requires
            self.wf(),
            u <= self.aig.num_aigpins,
        ensures
            ({
                let pins = self.aig.sources(self.stop, u);
                self.depth(u) == self.above(pins, pins.len() as int)
            }),
    {
        let pins = self.aig.sources(self.stop, u);
        self.aig.lemma_rank(u);
        reveal_with_fuel(Split::above, 3);
        if !self.stop.contains(u) {
            if let DriverType::AndGate(a, b) = self.aig.drivers@[u as int] {
                if a >= 2 {
                    assert(pins[0] == pin_of(a));
                }
                if b >= 2 {
                    assert(pins[pins.len() - 1] == pin_of(b));
                }
            }
        }
    }

    /// Whether `counts` holds the uses of each pin that are not among those so far.
    pub open spec fn pending(self, counts: Vec<u128>, f: Frontier) -> bool {
        &&& counts@.len() == self.aig.num_aigpins + 1
        &&& forall|x: usize|
            x <= self.aig.num_aigpins ==> #[trigger] counts@[x as int] == count_in(self.uses(), x)
                - count_in(f.used, x)
    }

    /// What is known of the inputs of a gate before the split.
    pub proof fn lemma_pin_uses(self, k: int)
        requires
            self.wf(),
            0 <= k < self.order().len(),
            self.pin_before(self.order()[k]),
        ensures
            ({
                let pins = self.aig.sources(self.stop, self.order()[k]);
                &&& forall|i: int|
                    0 <= i < pins.len() ==> #[trigger] pins[i] <= self.aig.num_aigpins
                &&& forall|x: usize| #[trigger]
                    count_in(self.after_pins(k).used + pins, x) <= count_in(self.uses(), x)
            }),
    {
        let n = self.order().len() as int;
        let pins = self.aig.sources(self.stop, self.order()[k]);
        self.lemma_after_pins(k);
        assert forall|i: int| 0 <= i < pins.len() implies #[trigger] pins[i]
            <= self.aig.num_aigpins by {
            assert(pins.contains(pins[i]));
            self.lemma_source(k, pins[i]);
        }
        assert forall|x: usize| #[trigger] count_in(self.after_pins(k).used + pins, x) <= count_in(
            self.uses(),
            x,
        ) by {
            self.lemma_early_gate_uses(k + 1, x);
            self.lemma_gate_uses_mono(k + 1, n, x);
            lemma_count_concat(self.gate_uses(n), self.ends(), x);
        }
    }

    /// Uses behind the split are those that are not before it.
    proof fn lemma_late_gate_uses(self, k: int, x: usize)
        requires
            0 <= k <= self.order().len(),
        ensures
            count_in(self.early_gate_uses(k), x) < count_in(self.gate_uses(k), x) <==> exists|p: int|
                0 <= p < k && !self.pin_before(#[trigger] self.order()[p]) && self.aig.sources(
                    self.stop,
                    self.order()[p],
                ).contains(x),
        decreases k,
    {
        if k > 0 {
            self.lemma_late_gate_uses(k - 1, x);
            self.lemma_early_gate_uses(k - 1, x);
            let u = self.order()[k - 1];
            let pins = self.aig.sources(self.stop, u);
            lemma_count_concat(self.gate_uses(k - 1), pins, x);
            lemma_count_concat(self.early_gate_uses(k - 1), pins, x);
            lemma_count_bound(pins, x);
            if !self.pin_before(u) && pins.contains(x) {
                assert(!self.pin_before(self.order()[k - 1]));
            }
            if count_in(self.early_gate_uses(k - 1), x) < count_in(self.gate_uses(k - 1), x) {
                let p = choose|p: int|
                    0 <= p < k - 1 && !self.pin_before(#[trigger] self.order()[p])
                        && self.aig.sources(self.stop, self.order()[p]).contains(x);
                assert(!self.pin_before(self.order()[p]));
            }
            if exists|p: int|
                0 <= p < k && !self.pin_before(#[trigger] self.order()[p]) && self.aig.sources(
                    self.stop,
                    self.order()[p],
                ).contains(x) {
                let p = choose|p: int|
                    0 <= p < k && !self.pin_before(#[trigger] self.order()[p])
                        && self.aig.sources(self.stop, self.order()[p]).contains(x);
                if p < k - 1 {
                    assert(!self.pin_before(self.order()[p]));
                }
            }
        }
    }

    /// Uses behind the split are those that are not before it.
    proof fn lemma_late_end_uses(self, k: int, x: usize)
        requires
            0 <= k <= self.eps.len(),
        ensures
            count_in(self.early_end_uses(k), x) < count_in(self.end_uses(k), x) <==> exists|t: int|
                0 <= t < k && !self.end_before(#[trigger] self.eps[t]) && self.aig.group(
                    self.eps[t] as int,
                ).input_pins().contains(x),
        decreases k,
    {
        if k > 0 {
            self.lemma_late_end_uses(k - 1, x);
            self.lemma_early_end_uses(k - 1, x);
            let e = self.eps[k - 1];
            let pins = self.aig.group(e as int).input_pins();
            lemma_count_concat(self.end_uses(k - 1), pins, x);
            lemma_count_concat(self.early_end_uses(k - 1), pins, x);
            lemma_count_bound(pins, x);
            if !self.end_before(e) && pins.contains(x) {
                assert(!self.end_before(self.eps[k - 1]));
            }
            if count_in(self.early_end_uses(k - 1), x) < count_in(self.end_uses(k - 1), x) {
                let t = choose|t: int|
                    0 <= t < k - 1 && !self.end_before(#[trigger] self.eps[t]) && self.aig.group(
                        self.eps[t] as int,
                    ).input_pins().contains(x);
                assert(!self.end_before(self.eps[t]));
            }
            if exists|t: int|
                0 <= t < k && !self.end_before(#[trigger] self.eps[t]) && self.aig.group(
                    self.eps[t] as int,
                ).input_pins().contains(x) {
                let t = choose|t: int|
                    0 <= t < k && !self.end_before(#[trigger] self.eps[t]) && self.aig.group(
                        self.eps[t] as int,
                    ).input_pins().contains(x);
                if t < k - 1 {
                    assert(!self.end_before(self.eps[t]));
                }
            }
        }
    }

    /// The active pins, each once, are those before the split that a gate or an endpoint
    /// behind it uses.
    pub proof fn lemma_active(self)
        requires
            self.wf(),
        ensures
            self.active().no_duplicates(),
            forall|x: usize| #[trigger] self.active().contains(x) <==> self.is_active(x),
    {
        let n = self.order().len() as int;
        let m = self.eps.len() as int;
        self.lemma_after_ends(m);
        assert forall|x: usize| #[trigger] self.active().contains(x) <==> self.is_active(x) by {
            lemma_count_concat(self.gate_uses(n), self.ends(), x);
            lemma_count_concat(self.early_gate_uses(n), self.early_end_uses(m), x);
            self.lemma_early_gate_uses(n, x);
            self.lemma_early_end_uses(m, x);
            self.lemma_late_gate_uses(n, x);
            self.lemma_late_end_uses(m, x);
        }
    }

    /// The uses before the split are all uses of a pin exactly if it is not used behind it.
    pub proof fn lemma_all_used(self, x: usize)
        requires
            self.wf(),
        ensures
            ({
                let used = self.after_ends(self.eps.len() as int).used;
                &&& count_in(used, x) <= count_in(self.uses(), x)
                &&& count_in(used, x) == count_in(self.uses(), x) <==> !self.used_later(x)
            }),
    {
        let n = self.order().len() as int;
        let m = self.eps.len() as int;
        self.lemma_after_ends(m);
        lemma_count_concat(self.gate_uses(n), self.ends(), x);
        lemma_count_concat(self.early_gate_uses(n), self.early_end_uses(m), x);
        self.lemma_early_gate_uses(n, x);
        self.lemma_early_end_uses(m, x);
        self.lemma_late_gate_uses(n, x);
        self.lemma_late_end_uses(m, x);
    }

    /// The outputs of a stage are exactly the active pins at the split, each once: those
    /// before the split that a gate or an endpoint behind the split uses. Inputs of the
    /// stage are among them only if no other pin is active.
    pub proof fn law_outputs_live(self)
        requires
            self.wf(),
        ensures
            self.outputs().no_duplicates(),
            forall|x: usize| #[trigger]
                self.outputs().contains(x) <==> {
                    &&& self.is_active(x)
                    &&& !self.stop.contains(x) || forall|y: usize| #[trigger]
                        self.is_active(y) ==> self.stop.contains(y)
                },
    {
        let pred = |x: usize| !self.stop.contains(x);
        let all = self.active();
        self.lemma_active();
        lemma_filter_distinct(all, pred);
        assert forall|x: usize| #[trigger] self.fresh().contains(x) <==> self.is_active(x)
            && !self.stop.contains(x) by {
            lemma_filter_member(all, pred, x);
        }
        if self.fresh().len() > 0 {
            let y = self.fresh()[0];
            assert(self.fresh().contains(y));
            assert(self.is_active(y) && !self.stop.contains(y));
        } else {
            assert forall|y: usize| #[trigger] self.is_active(y) implies self.stop.contains(y) by {
                assert(!self.fresh().contains(y));
            }
        }
    }

    /// Above the split, some way leads down to a pin with exactly as many gates
    /// before it as the split has, which is used behind the split.
    proof fn lemma_crossing(self, p: int) -> (x: usize)
        requires
            self.wf(),
            0 <= p < self.order().len(),
            !self.pin_before(self.order()[p]),
        ensures
            self.order().contains(x),
            self.depth(x) == self.level,
            self.used_later(x),
        decreases self.depth(self.order()[p]),
    {
        let s = self.order();
        let u = s[p];
        self.lemma_order();
        self.aig.lemma_rank(u);
        match self.aig.drivers@[u as int] {
            DriverType::AndGate(a, b) => {
                let src = self.aig.sources(self.stop, u);
                let y = if a >= 2 && self.depth(pin_of(a)) + 1 == self.depth(u) {
                    assert(src[0] == pin_of(a));
                    pin_of(a)
                } else {
                    assert(src[src.len() - 1] == pin_of(b));
                    pin_of(b)
                };
                assert(src.contains(y));
                self.lemma_source(p, y);
                let q = choose|q: int| 0 <= q < p && #[trigger] s[q] == y;
                assert(s[q] == y);
                if self.pin_before(y) {
                    assert(!self.pin_before(s[p]) && self.aig.sources(self.stop, s[p]).contains(y));
                    y
                } else {
                    self.lemma_crossing(q)
                }
            },
            _ => u,
        }
    }

    /// If a stage has no outputs then all endpoints lie before the split, and the stage
    /// fulfils all of them.
    pub proof fn law_no_outputs_all_done(self)
        requires
            self.wf(),
            self.outputs().len() == 0,
        ensures
            self.early() == self.eps,
            forall|inputs: Option<Seq<usize>>| (#[trigger] self.stage(inputs)).endpoints
                == self.eps,
            forall|k: int| 0 <= k < self.eps.len() ==> self.end_before(#[trigger] self.eps[k]),
    {
        self.lemma_order();
        self.lemma_active();
        assert(self.active().len() == 0);
        assert forall|k: int| 0 <= k < self.eps.len() implies self.end_before(
            #[trigger] self.eps[k],
        ) by {
            let pins = self.aig.group(self.eps[k] as int).input_pins();
            if !self.end_before(self.eps[k]) {
                let i = self.lemma_deepest_at(pins, pins.len() as int);
                assert(pins.contains(pins[i]));
                self.lemma_end_uses(self.eps.len() as int);
                assert(self.aig.group(self.eps[k] as int).input_pins().contains(pins[i]));
                assert(self.ends().contains(pins[i]));
                let p = self.order().index_of(pins[i]);
                let x = self.lemma_crossing(p);
                assert(self.active().contains(x));
            }
        }
        lemma_filter_all(self.eps, |e: usize| self.end_before(e));
    }

    /// A split behind the largest number of gates leaves all endpoints before it.
    pub proof fn lemma_unlimited(self)
        requires
            self.wf(),
            self.level == usize::MAX,
        ensures
            self.early() == self.eps,
    {
        self.lemma_order();
        self.lemma_end_uses(self.eps.len() as int);
        assert forall|k: int| 0 <= k < self.eps.len() implies self.end_before(
            #[trigger] self.eps[k],
        ) by {
            let pins = self.aig.group(self.eps[k] as int).input_pins();
            if !self.end_before(self.eps[k]) {
                let i = self.lemma_deepest_at(pins, pins.len() as int);
                assert(self.aig.group(self.eps[k] as int).input_pins().contains(pins[i]));
                assert(self.ends().contains(pins[i]));
                let p = self.order().index_of(pins[i]);
                self.aig.lemma_depth_bound(self.stop, self.order(), p);
                lemma_distinct_bound(self.order(), self.aig.num_aigpins as int);
            }
        }
        lemma_filter_all(self.eps, |e: usize| self.end_before(e));
    }

    proof fn lemma_deepest_at(self, pins: Seq<usize>, k: int) -> (i: int)
        requires
            0 <= k <= pins.len(),
            self.deepest(pins, k) > 0,
        ensures
            0 <= i < k,
            self.depth(pins[i]) == self.deepest(pins, k),
        decreases k,
    {
        if self.deepest(pins, k - 1) < self.depth(pins[k - 1]) {
            k - 1
        } else {
            self.lemma_deepest_at(pins, k - 1)
        }
    }
}

/// Filtering keeps elements distinct.
pub proof fn lemma_filter_distinct(s: Seq<usize>, pred: spec_fn(usize) -> bool)
    requires
        s.no_duplicates(),
    ensures
        s.filter(pred).no_duplicates(),
    decreases s.len(),
{
    reveal(Seq::filter);
    if s.len() > 0 {
        let front = s.drop_last();
        lemma_filter_distinct(front, pred);
        if front.filter(pred).contains(s.last()) {
            front.lemma_filter_contains_rev(pred, s.last());
            let i = front.index_of(s.last());
            assert(s[i] == s[s.len() - 1]);
        }
        lemma_push_contains(front.filter(pred), s.last());
    }
}

/// What filtering keeps.
pub proof fn lemma_filter_member(s: Seq<usize>, pred: spec_fn(usize) -> bool, x: usize)
    ensures
        s.filter(pred).contains(x) <==> s.contains(x) && pred(x),
{
    if s.filter(pred).contains(x) {
        s.lemma_filter_contains_rev(pred, x);
        let i = s.filter(pred).index_of(x);
        s.lemma_filter_pred(pred, i);
    }
    if s.contains(x) && pred(x) {
        let i = s.index_of(x);
        s.lemma_filter_contains(pred, i);
    }
}

/// Filtering keeps a list all of whose elements it keeps.
pub proof fn lemma_filter_all(s: Seq<usize>, pred: spec_fn(usize) -> bool)
    requires
        forall|k: int| 0 <= k < s.len() ==> pred(#[trigger] s[k]),
    ensures
        s.filter(pred) == s,
    decreases s.len(),
{
    reveal(Seq::filter);
    if s.len() > 0 {
        assert forall|k: int| 0 <= k < s.drop_last().len() implies pred(
            #[trigger] s.drop_last()[k],
        ) by {
            assert(pred(s[k]));
        }
        lemma_filter_all(s.drop_last(), pred);
        assert(pred(s[s.len() - 1]));
        assert(s.drop_last().push(s.last()) =~= s);
    }
}

/// Counting in a concatenation.
pub proof fn lemma_count_concat(a: Seq<usize>, b: Seq<usize>, x: usize)
    ensures
        count_in(a + b, x) == count_in(a, x) + count_in(b, x),
    decreases b.len(),
{
    if b.len() == 0 {
        assert(a + b =~= a);
    } else {
        assert((a + b).drop_last() =~= a + b.drop_last());
        lemma_count_concat(a, b.drop_last(), x);
    }
}

/// The elements of a list with one more.
pub proof fn lemma_push_contains(s: Seq<usize>, u: usize)
    ensures
        forall|x: usize| #[trigger] s.push(u).contains(x) <==> s.contains(x) || x == u,
{
    assert(s.push(u)[s.len() as int] == u);
    assert forall|x: usize| #[trigger] s.push(u).contains(x) <==> s.contains(x) || x == u by {
        if s.contains(x) {
            let i = s.index_of(x);
            assert(s.push(u)[i] == x);
        }
    }
}

} // verus!
