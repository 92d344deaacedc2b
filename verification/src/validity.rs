//! What makes graphs, stages and netlists valid.
use crate::aig::{pin_of, DriverType, AIG};
use crate::index_set::opt_elems;
use crate::netlist::Netlist;
use crate::staging::StagedAIG;
use vstd::prelude::*;

verus! {

impl AIG {
    /// Whether all literals of gates and endpoints name pins of the graph.
    pub open spec fn closed_under(&self) -> bool {
        let n = self.num_aigpins;
        &&& forall|u: int|
            0 <= u <= n ==> (#[trigger] self.drivers@[u] matches DriverType::AndGate(a, b) ==> a / 2
                <= n && b / 2 <= n)
        &&& forall|k: int|
            0 <= k < self.primary_outputs@.len() ==> #[trigger] self.primary_outputs@[k] / 2 <= n
        &&& forall|k: int|
            0 <= k < self.dffs@.len() ==> (#[trigger] self.dffs@[k]).d_iv / 2 <= n
                && self.dffs@[k].en_iv / 2 <= n
        &&& forall|k: int, m: int|
            0 <= k < self.srams@.len() && 0 <= m < self.srams@[k].input_ivs@.len()
                ==> #[trigger] self.srams@[k].input_ivs@[m] / 2 <= n
    }

    /// Whether a number for each pin is larger for a gate than for the pins that it is computed
    /// from.
    pub open spec fn grows(&self, number: spec_fn(usize) -> nat) -> bool {
        forall|u: usize, v: usize|
            v <= self.num_aigpins && #[trigger] self.computes(Seq::empty(), u, v) ==> number(u)
                < number(v)
    }

    /// A graph with a driver for each of at most a quarter of the numbers is valid if all literals
    /// name its pins, there are not more endpoints, and pins can be numbered along the gates.
    pub proof fn law_valid(&self, number: spec_fn(usize) -> nat)
        requires
            self.drivers@.len() == self.num_aigpins + 1,
            self.num_aigpins < usize::MAX / 4,
            self.primary_outputs@.len() + self.dffs@.len() + self.srams@.len() <= usize::MAX / 4,
            self.closed_under(),
            self.grows(number),
        ensures
            self.wf(),
    {
        assert forall|u: usize| u <= self.num_aigpins implies match #[trigger] self.drivers@[u as int] {
            DriverType::AndGate(a, b) => {
                &&& a >= 2 ==> number(pin_of(a)) < number(u)
                &&& b >= 2 ==> number(pin_of(b)) < number(u)
            },
            _ => true,
        } by {
            if let DriverType::AndGate(a, b) = self.drivers@[u as int] {
                if a >= 2 {
                    assert(self.computes(Seq::empty(), pin_of(a), u));
                }
                if b >= 2 {
                    assert(self.computes(Seq::empty(), pin_of(b), u));
                }
            }
        }
        assert(self.is_rank(number));
    }

    /// In a valid graph all literals name pins, and no path leads back to where it starts.
    pub proof fn law_no_loop(&self, path: Seq<usize>)
        requires
            self.wf(),
            self.is_path(Seq::empty(), path),
            path.len() > 1,
        ensures
            self.closed_under(),
            path[0] != path.last(),
    {
        self.lemma_climbs(path, path.len() - 1);
        assert forall|u: int| 0 <= u <= self.num_aigpins implies (
        #[trigger] self.drivers@[u] matches DriverType::AndGate(a, b) ==> a / 2 <= self.num_aigpins
            && b / 2 <= self.num_aigpins) by {
            if let DriverType::AndGate(a, b) = self.drivers@[u] {
                assert(self.has_lit(a) && self.has_lit(b));
            }
        }
        assert forall|k: int, m: int|
            0 <= k < self.srams@.len() && 0 <= m
                < self.srams@[k].input_ivs@.len() implies #[trigger] self.srams@[k].input_ivs@[m] / 2
            <= self.num_aigpins by {
            assert(self.has_lit(self.srams@[k].input_ivs@[m]));
        }
        assert forall|k: int| 0 <= k < self.primary_outputs@.len() implies #[trigger] self.primary_outputs@[k]
            / 2 <= self.num_aigpins by {
            assert(self.has_lit(self.primary_outputs@[k]));
        }
    }

    proof fn lemma_climbs(&self, path: Seq<usize>, k: int)
        requires
            self.wf(),
            self.is_path(Seq::empty(), path),
            0 < k < path.len(),
        ensures
            self.rank_of(path[0]) < self.rank_of(path[k]),
        decreases k,
    {
        assert(self.computes(Seq::empty(), path[k - 1], path[k]));
        self.lemma_rank(path[k]);
        if k > 1 {
            self.lemma_climbs(path, k - 1);
        }
    }
}

impl StagedAIG {
    /// A stage is valid exactly if its graph is, its pins and endpoints are those of the graph, and
    /// its endpoints can be counted.
    pub proof fn law_valid(&self, aig: &AIG)
        ensures
            self.wf(aig) <==> {
                let inputs = opt_elems(self.primary_inputs);
                let outs = self.primary_output_pins@;
                let eps = self.endpoints@;
                &&& aig.wf()
                &&& forall|k: int|
                    0 <= k < inputs.len() ==> #[trigger] inputs[k] < aig.drivers@.len()
                &&& forall|k: int| 0 <= k < outs.len() ==> #[trigger] outs[k] < aig.drivers@.len()
                &&& forall|k: int|
                    0 <= k < eps.len() ==> #[trigger] eps[k] < aig.primary_outputs@.len()
                        + aig.dffs@.len() + aig.srams@.len()
                &&& outs.len() + eps.len() <= usize::MAX
            },
    {
    }
}

impl Netlist {
    /// A netlist is valid exactly if it has a cell, and all numbers of pins, cells and nets in it
    /// are those of pins, cells and nets.
    pub proof fn law_valid(&self)
        ensures
            self.wf() <==> {
                &&& self.cells@.len() >= 1
                &&& forall|c: int, x: usize|
                    0 <= c < self.cells@.len() && #[trigger] self.cells@[c].pins@.contains(x) ==> x
                        < self.pins@.len()
                &&& forall|p: int|
                    0 <= p < self.pins@.len() ==> (#[trigger] self.pins@[p]).cell
                        < self.cells@.len() && self.pins@[p].net < self.roots@.len()
                &&& forall|x: usize| #[trigger] self.roots@.contains(x) ==> x < self.pins@.len()
                &&& forall|x: usize| #[trigger] self.one_pins@.contains(x) ==> x < self.pins@.len()
            },
    {
        if self.wf() {
            assert forall|c: int, x: usize|
                0 <= c < self.cells@.len() && #[trigger] self.cells@[c].pins@.contains(x) implies x
                < self.pins@.len() by {
                let k = self.cells@[c].pins@.index_of(x);
                assert(self.cells@[c].pins@[k] < self.pins@.len());
            }
        }
        if forall|c: int, x: usize|
            0 <= c < self.cells@.len() && #[trigger] self.cells@[c].pins@.contains(x) ==> x
                < self.pins@.len() {
            assert forall|c: int, k: int|
                0 <= c < self.cells@.len() && 0 <= k
                    < self.cells@[c].pins@.len() implies #[trigger] self.cells@[c].pins@[k]
                < self.pins@.len() by {
                assert(self.cells@[c].pins@.contains(self.cells@[c].pins@[k]));
            }
        }
        if forall|x: usize| #[trigger] self.roots@.contains(x) ==> x < self.pins@.len() {
            assert forall|n: int| 0 <= n < self.roots@.len() implies #[trigger] self.roots@[n]
                < self.pins@.len() by {
                assert(self.roots@.contains(self.roots@[n]));
            }
        }
        if forall|x: usize| #[trigger] self.one_pins@.contains(x) ==> x < self.pins@.len() {
            assert forall|n: int| 0 <= n < self.one_pins@.len() implies #[trigger] self.one_pins@[n]
                < self.pins@.len() by {
                assert(self.one_pins@.contains(self.one_pins@[n]));
            }
        }
    }
}

} // verus!
