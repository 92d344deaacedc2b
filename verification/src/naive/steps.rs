//! What the events of a value change dump do to a simulation.
use crate::naive::events::{changes_upto, InputMap, Output};
use crate::naive::sim::SimModel;
use crate::netlist::{Direction, Netlist, PinKind};
use vstd::prelude::*;

verus! {

/// Whether position `k` of a variable is the last of the first `n` that stands for a pin.
pub open spec fn last_for(map: InputMap, code: u64, n: int, pin: usize, k: int) -> bool {
    &&& 0 <= k < n
    &&& map.at(code, k) == Some(pin)
    &&& forall|j: int| k < j < n ==> #[trigger] map.at(code, j) != Some(pin)
}

/// Whether a position of a variable stands for a clock that is set.
pub open spec fn sets_clock(
    clocks: Seq<bool>,
    map: InputMap,
    code: u64,
    bits: Seq<u8>,
    k: int,
) -> bool {
    &&& 0 <= k
    &&& bits[k] == 0x31
    &&& map.at(code, k) matches Some(pin)
    &&& clocks[pin as int]
}

impl SimModel {
    /// What a change of a variable does: a pin gets the value of the last position that stands for
    /// it, 1 for the digit 1 and 0 for anything else; other pins keep their values, and so do the
    /// memories. A clock edge is due if one was, or a position with the digit 1 stands for a
    /// clock.
    pub proof fn law_changed(
        self,
        clocks: Seq<bool>,
        map: InputMap,
        code: u64,
        bits: Seq<u8>,
        n: int,
    )
        requires
            0 <= n <= bits.len(),
            map.below(self.values.pins.len()),
        ensures
            ({
                let m = self.changed(clocks, map, code, bits, n);
                &&& m.values.pins.len() == self.values.pins.len()
                &&& m.values.rams == self.values.rams
                &&& m.time == self.time
                &&& m.last == self.last
                &&& forall|pin: usize, k: int| #[trigger]
                    last_for(map, code, n, pin, k) ==> m.values.pins[pin as int] == if bits[k]
                        == 0x31 {
                        1u8
                    } else {
                        0u8
                    }
                &&& forall|pin: usize|
                    pin < self.values.pins.len() && (forall|k: int|
                        0 <= k < n ==> #[trigger] map.at(code, k) != Some(pin))
                        ==> #[trigger] m.values.pins[pin as int] == self.values.pins[pin as int]
                &&& m.rising <==> self.rising || exists|k: int|
                    k < n && #[trigger] sets_clock(clocks, map, code, bits, k)
            }),
        decreases n,
    {
        if n > 0 {
            self.law_changed(clocks, map, code, bits, n - 1);
            let b = self.changed(clocks, map, code, bits, n - 1);
            let m = self.changed(clocks, map, code, bits, n);
            if let Some(x) = map.at(code, n - 1) {
                assert(x < self.values.pins.len());
            }
            assert forall|pin: usize, k: int| #[trigger]
                last_for(map, code, n, pin, k) implies m.values.pins[pin as int] == if bits[k]
                == 0x31 {
                1u8
            } else {
                0u8
            } by {
                assert(map.at(code, k) == Some(pin));
                assert(pin < self.values.pins.len());
                if k < n - 1 {
                    assert(map.at(code, n - 1) != Some(pin));
                    assert(last_for(map, code, n - 1, pin, k));
                }
            }
            assert(m.rising <==> self.rising || exists|k: int|
                k < n && #[trigger] sets_clock(clocks, map, code, bits, k)) by {
                if exists|k: int| k < n - 1 && #[trigger] sets_clock(clocks, map, code, bits, k) {
                    let k = choose|k: int|
                        k < n - 1 && #[trigger] sets_clock(clocks, map, code, bits, k);
                    assert(k < n && sets_clock(clocks, map, code, bits, k));
                }
                if m.rising && !b.rising {
                    assert(sets_clock(clocks, map, code, bits, n - 1));
                }
                if exists|k: int| k < n && #[trigger] sets_clock(clocks, map, code, bits, k) {
                    let k = choose|k: int|
                        k < n && #[trigger] sets_clock(clocks, map, code, bits, k);
                    if k < n - 1 {
                        assert(k < n - 1 && sets_clock(clocks, map, code, bits, k));
                    }
                }
            }
        }
    }

    /// A time stamp that is the present time does nothing. At another one the time goes on, no
    /// clock edge is due any more, and all clocks are 0. If a clock edge was due, the circuit is
    /// clocked, the outputs are written with the time before, and their values are
    /// remembered as those last written. If none was due, all else stays.
    pub proof fn law_time_stamp(
        self,
        nl: Netlist,
        clocks: Seq<bool>,
        topo: Seq<usize>,
        outs: Seq<Output>,
        t: u64,
    )
        requires
            nl.clocked(self.values, topo).pins.len() == self.values.pins.len(),
            outs.len() <= usize::MAX,
        ensures
            ({
                let m = self.advanced(nl, clocks, topo, outs, t);
                let v = nl.clocked(self.values, topo);
                let w = self.written(nl, topo, outs, t);
                &&& t == self.time ==> m == self && w is None
                &&& t != self.time ==> {
                    &&& m.time == t
                    &&& !m.rising
                    &&& m.values.pins.len() == self.values.pins.len()
                    &&& forall|p: int|
                        0 <= p < self.values.pins.len() && clocks[p]
                            ==> #[trigger] m.values.pins[p] == 0
                    &&& forall|p: int|
                        0 <= p < self.values.pins.len() && !clocks[p]
                            ==> #[trigger] m.values.pins[p] == if self.rising {
                            v.pins[p]
                        } else {
                            self.values.pins[p]
                        }
                    &&& m.values.rams == if self.rising {
                        v.rams
                    } else {
                        self.values.rams
                    }
                    &&& !self.rising ==> m.last == self.last && w is None
                    &&& self.rising ==> {
                        &&& m.last.len() == outs.len()
                        &&& forall|i: int|
                            0 <= i < outs.len() ==> #[trigger] m.last[i]
                                == v.pins[outs[i].pin as int]
                        &&& w matches Some(x)
                        &&& x.0 == self.time
                        &&& forall|i: usize, b: bool| #[trigger]
                            x.1.contains((i, b)) <==> i < outs.len() && m.last[i as int]
                                != self.last[i as int] && b == (m.last[i as int] == 1)
                        &&& forall|i: int, j: int|
                            0 <= i < j < x.1.len() ==> (#[trigger] x.1[i]).0 < (#[trigger] x.1[j]).0
                    }
                }
            }),
    {
        let v = nl.clocked(self.values, topo);
        if t != self.time && self.rising {
            lemma_changes(v.pins, outs, self.last, outs.len() as int);
        }
    }
}

proof fn lemma_changes(v: Seq<u8>, outs: Seq<Output>, last: Seq<u8>, k: int)
    requires
        0 <= k <= outs.len(),
        outs.len() <= usize::MAX,
    ensures
        ({
            let list = changes_upto(v, outs, last, k);
            &&& forall|i: usize, b: bool| #[trigger]
                list.contains((i, b)) <==> i < k && v[outs[i as int].pin as int] != last[i as int]
                    && b == (v[outs[i as int].pin as int] == 1)
            &&& forall|i: int, j: int|
                0 <= i < j < list.len() ==> (#[trigger] list[i]).0 < (#[trigger] list[j]).0
        }),
    decreases k,
{
    if k > 0 {
        lemma_changes(v, outs, last, k - 1);
        let less = changes_upto(v, outs, last, k - 1);
        let list = changes_upto(v, outs, last, k);
        let value = v[outs[k - 1].pin as int];
        let new = ((k - 1) as usize, value == 1);
        assert forall|i: int| 0 <= i < less.len() implies (#[trigger] less[i]).0 < k - 1 by {
            assert(less.contains((less[i].0, less[i].1)));
        }
        if value != last[k - 1] {
            assert(list == less.push(new));
            assert forall|i: usize, b: bool| #[trigger] list.contains((i, b)) <==> i < k
                && v[outs[i as int].pin as int] != last[i as int] && b == (
            v[outs[i as int].pin as int] == 1) by {
                if less.contains((i, b)) {
                    let q = less.index_of((i, b));
                    assert(list[q] == (i, b));
                }
                assert(list[less.len() as int] == new);
                if list.contains((i, b)) {
                    let q = list.index_of((i, b));
                    if q < less.len() {
                        assert(less[q] == (i, b));
                        assert(less.contains((i, b)));
                    }
                }
            }
        }
    }
}

impl Netlist {
    /// The nets that are written as wires: those that are not constant and that an output drives,
    /// in increasing order.
    pub proof fn law_wires(&self, n: int)
        requires
            0 <= n <= self.roots@.len() <= usize::MAX,
        ensures
            ({
                let list = self.wires(n);
                &&& forall|net: usize| #[trigger]
                    list.contains(net) <==> {
                        &&& net < n
                        &&& self.net_zero != Some(net)
                        &&& self.net_one != Some(net)
                        &&& self.pins@[self.roots@[net as int] as int].direction == Direction::O
                    }
                &&& forall|i: int, j: int|
                    0 <= i < j < list.len() ==> #[trigger] list[i] < #[trigger] list[j]
            }),
        decreases n,
    {
        if n > 0 {
            self.law_wires(n - 1);
            let less = self.wires(n - 1);
            let list = self.wires(n);
            let new = (n - 1) as usize;
            assert forall|i: int| 0 <= i < less.len() implies #[trigger] less[i] < n - 1 by {
                assert(less.contains(less[i]));
            }
            if list != less {
                assert(list == less.push(new));
                assert forall|net: usize| #[trigger] list.contains(net) <==> less.contains(net) || net
                    == new by {
                    if less.contains(net) {
                        let q = less.index_of(net);
                        assert(list[q] == net);
                    }
                    assert(list[less.len() as int] == new);
                }
            }
            assert forall|net: usize| #[trigger] list.contains(net) <==> {
                &&& net < n
                &&& self.net_zero != Some(net)
                &&& self.net_one != Some(net)
                &&& self.pins@[self.roots@[net as int] as int].direction == Direction::O
            } by {
                assert(less.contains(net) <==> net < n - 1 && self.net_zero != Some(net)
                    && self.net_one != Some(net)
                    && self.pins@[self.roots@[net as int] as int].direction == Direction::O);
            }
        }
    }

    /// Whether a pin of a cell that keeps a state is a clock pin that is not constant, and driven
    /// by `x`.
    pub open spec fn clocks_by(&self, c: int, p: usize, x: usize) -> bool {
        let pin = self.pins@[p as int];
        &&& self.keeps(c)
        &&& self.has_pin(c, p)
        &&& pin.kind == PinKind::Clk || pin.kind == PinKind::PortRClk || pin.kind
            == PinKind::PortWClk
        &&& self.net_zero != Some(pin.net)
        &&& self.net_one != Some(pin.net)
        &&& self.roots@[pin.net as int] == x
    }

    /// A pin drives a clock if and only if it drives the net of a clock pin of a cell that keeps
    /// a state, and that net is not constant.
    pub proof fn law_clock(&self, x: usize)
        ensures
            self.is_clock(x) <==> exists|c: int, p: usize| #[trigger] self.clocks_by(c, p, x),
    {
        if self.is_clock(x) {
            let (c, k) = choose|c: int, k: int| #[trigger]
                self.is_clock_pin(c, k) && self.clock_root(c, k) == x;
            assert(self.clocks_by(c, self.cells@[c].pins@[k], x));
        }
        if exists|c: int, p: usize| #[trigger] self.clocks_by(c, p, x) {
            let (c, p) = choose|c: int, p: usize| #[trigger] self.clocks_by(c, p, x);
            let k = self.cells@[c].pins@.index_of(p);
            assert(self.is_clock_pin(c, k) && self.clock_root(c, k) == x);
        }
    }
}

} // verus!
