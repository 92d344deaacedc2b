//! Driving a simulation by the events of a value change dump.
use crate::naive::order::PinOrder;
use crate::naive::sim::{rows32, SimModel, Values, ONE, RAM_WORDS, UNKNOWN};
use crate::netlist::{CellKind, Direction, Netlist};
use std::collections::HashMap;
use vstd::prelude::*;

verus! {

/// The pins that the bits of variables stand for.
pub struct InputMap {
    /// For each variable code, the pin of each position.
    map: HashMap<u64, Vec<Option<usize>>>,
}

impl InputMap {
    /// The pin that a position of a variable stands for.
    pub closed spec fn at(&self, code: u64, pos: int) -> Option<usize> {
        if self.map@.contains_key(code) && 0 <= pos < self.map@[code]@.len() {
            self.map@[code]@[pos]
        } else {
            None
        }
    }

    /// Whether all pins are below `n`.
    pub open spec fn below(&self, n: nat) -> bool {
        forall|code: u64, pos: int| #[trigger] self.at(code, pos) matches Some(p) ==> p < n
    }

    /// A map without entries.
    pub fn new() -> (m: InputMap)
        ensures
            forall|code: u64, pos: int| #[trigger] m.at(code, pos) is None,
            m.below(0),
    {
        broadcast use vstd::std_specs::hash::group_hash_axioms;

        InputMap { map: HashMap::new() }
    }

    /// Lets a position of a variable stand for a pin.
    pub fn insert(&mut self, code: u64, pos: usize, pin: usize)
        requires
            pos < usize::MAX,
        ensures
            forall|c: u64, q: int| #[trigger]
                final(self).at(c, q) == if c == code && q == pos {
                    Some(pin)
                } else {
                    old(self).at(c, q)
                },
    {
        broadcast use vstd::std_specs::hash::group_hash_axioms;

        let mut list: Vec<Option<usize>> = match self.map.remove(&code) {
            Some(list) => list,
            None => Vec::new(),
        };
        let ghost before = list@;
        while list.len() <= pos
            invariant
                pos < usize::MAX,
                before.len() <= list@.len(),
                list@.len() <= pos + 1 || list@ == before,
                forall|i: int|
                    0 <= i < list@.len() ==> #[trigger] list@[i] == if i < before.len() {
                        before[i]
                    } else {
                        None
                    },
            decreases pos + 1 - list@.len(),
        {
            list.push(None);
        }
        list.set(pos, Some(pin));
        self.map.insert(code, list);
    }

    /// The pin that a position of a variable stands for.
    pub fn get(&self, code: u64, pos: usize) -> (r: Option<usize>)
        ensures
            r == self.at(code, pos as int),
    {
        broadcast use vstd::std_specs::hash::group_hash_axioms;

        match self.map.get(&code) {
            Some(list) => {
                if pos < list.len() {
                    list[pos]
                } else {
                    None
                }
            },
            None => None,
        }
    }
}

/// A pin whose value is written.
pub struct Output {
    /// The net, for pins that are written as wires.
    pub net: Option<usize>,
    pub pin: usize,
}

impl SimModel {
    /// The simulation after a bit of an input has changed.
    pub open spec fn bit_set(self, clocks: Seq<bool>, pin: usize, b: u8) -> SimModel {
        SimModel {
            values: Values {
                pins: self.values.pins.update(
                    pin as int,
                    if b == ONE {
                        1u8
                    } else {
                        0u8
                    },
                ),
                rams: self.values.rams,
            },
            rising: self.rising || (b == ONE && clocks[pin as int]),
            time: self.time,
            last: self.last,
        }
    }

    /// The simulation after the first `k` bits of a variable have changed.
    pub open spec fn changed(
        self,
        clocks: Seq<bool>,
        map: InputMap,
        code: u64,
        bits: Seq<u8>,
        k: int,
    ) -> SimModel
        decreases k,
    {
        if k <= 0 {
            self
        } else {
            let m = self.changed(clocks, map, code, bits, k - 1);
            match map.at(code, k - 1) {
                Some(pin) => m.bit_set(clocks, pin, bits[k - 1]),
                None => m,
            }
        }
    }

    /// The values after the clock edge that is due, if one is.
    pub open spec fn settled(self, nl: Netlist, topo: Seq<usize>) -> Values {
        if self.rising {
            nl.clocked(self.values, topo)
        } else {
            self.values
        }
    }

    /// The simulation after a time stamp. If a clock has risen, the circuit is clocked
    /// and its outputs are written; all clocks fall.
    pub open spec fn advanced(
        self,
        nl: Netlist,
        clocks: Seq<bool>,
        topo: Seq<usize>,
        outs: Seq<Output>,
        t: u64,
    ) -> SimModel {
        if t == self.time {
            self
        } else {
            let v = self.settled(nl, topo);
            SimModel {
                values: Values {
                    pins: Seq::new(
                        v.pins.len(),
                        |p: int|
                            if clocks[p] {
                                0
                            } else {
                                v.pins[p]
                            },
                    ),
                    rams: v.rams,
                },
                time: t,
                rising: false,
                last: if self.rising {
                    Seq::new(outs.len(), |i: int| v.pins[outs[i].pin as int])
                } else {
                    self.last
                },
            }
        }
    }

    /// What is written at a time stamp: the time of the clock edge, and the outputs
    /// that have changed.
    pub open spec fn written(
        self,
        nl: Netlist,
        topo: Seq<usize>,
        outs: Seq<Output>,
        t: u64,
    ) -> Option<(u64, Seq<(usize, bool)>)> {
        if t != self.time && self.rising {
            Some(
                (
                    self.time,
                    changes_upto(
                        nl.clocked(self.values, topo).pins,
                        outs,
                        self.last,
                        outs.len() as int,
                    ),
                ),
            )
        } else {
            None
        }
    }

    /// Whether this is a simulation of a netlist with `outs` outputs.
    pub open spec fn ok(self, nl: Netlist, outs: nat) -> bool {
        nl.values_ok(self.values) && self.last.len() == outs
    }
}

/// The outputs among the first `k` whose value differs from that last written.
pub open spec fn changes_upto(v: Seq<u8>, outs: Seq<Output>, last: Seq<u8>, k: int) -> Seq<
    (usize, bool),
>
    decreases k,
{
    if k <= 0 {
        Seq::empty()
    } else {
        let before = changes_upto(v, outs, last, k - 1);
        let value = v[outs[k - 1].pin as int];
        if value == last[k - 1] {
            before
        } else {
            before.push(((k - 1) as usize, value == 1))
        }
    }
}

/// A simulation.
pub struct Sim {
    state: Vec<u8>,
    rams: Vec<Vec<u32>>,
    time: u64,
    rising: bool,
    last: Vec<u8>,
}

impl View for Sim {
    type V = SimModel;

    closed spec fn view(&self) -> SimModel {
        SimModel {
            values: Values { pins: self.state@, rams: rows32(self.rams@) },
            time: self.time,
            rising: self.rising,
            last: self.last@,
        }
    }
}

impl Sim {
    /// A simulation before the first event: all pins are 0, but for those of the net
    /// that is always 1.
    pub fn new(nl: &Netlist, num_outputs: usize) -> (sim: Sim)
        requires
            nl.wf(),
        ensures
            sim@.ok(*nl, num_outputs as nat),
            sim@.time == u64::MAX,
            !sim@.rising,
            forall|i: int| 0 <= i < num_outputs ==> #[trigger] sim@.last[i] == UNKNOWN,
            forall|p: usize|
                p < nl.pins@.len() ==> #[trigger] sim@.values.pins[p as int]
                    == if nl.one_pins@.contains(p) {
                    1u8
                } else {
                    0u8
                },
            forall|c: int, i: int|
                0 <= c < nl.cells@.len() && 0 <= i < sim@.values.rams[c].len()
                    ==> #[trigger] sim@.values.rams[c][i] == 0,
    {
        let n = nl.pins.len();
        let mut state: Vec<u8> = vec![0u8; n];
        let mut k: usize = 0;
        while k < nl.one_pins.len()
            invariant
                k <= nl.one_pins@.len(),
                nl.wf(),
                n == nl.pins@.len(),
                state@.len() == n,
                forall|p: usize|
                    p < n ==> #[trigger] state@[p as int] == if nl.one_pins@.take(
                        k as int,
                    ).contains(p) {
                        1u8
                    } else {
                        0u8
                    },
            decreases nl.one_pins@.len() - k,
        {
            let pin = nl.one_pins[k];
            let ghost was = state@;
            let ghost seen = nl.one_pins@.take(k as int);
            assert(nl.one_pins@[k as int] < n);
            state.set(pin, 1);
            proof {
                let next = nl.one_pins@.take(k + 1);
                assert(next =~= seen.push(pin));
                assert(next[k as int] == pin);
                assert forall|p: usize| p < n implies #[trigger] state@[p as int]
                    == if next.contains(p) {
                    1u8
                } else {
                    0u8
                } by {
                    assert(was[p as int] == if seen.contains(p) {
                        1u8
                    } else {
                        0u8
                    });
                    if seen.contains(p) {
                        let i = seen.index_of(p);
                        assert(next[i] == p);
                    }
                }
            }
            k += 1;
        }
        assert(nl.one_pins@.take(nl.one_pins@.len() as int) =~= nl.one_pins@);
        let mut rams: Vec<Vec<u32>> = Vec::new();
        let mut c: usize = 0;
        while c < nl.cells.len()
            invariant
                c <= nl.cells@.len(),
                rams@.len() == c,
                forall|d: int|
                    0 <= d < c ==> {
                        &&& nl.cells@[d].kind == CellKind::Ram ==> (#[trigger] rams@[d])@.len()
                            == RAM_WORDS
                        &&& forall|i: int| 0 <= i < rams@[d]@.len() ==> rams@[d]@[i] == 0
                    },
            decreases nl.cells@.len() - c,
        {
            match nl.cells[c].kind {
                CellKind::Ram => {
                    let ram: Vec<u32> = vec![0u32; RAM_WORDS];
                    rams.push(ram);
                },
                _ => {
                    rams.push(Vec::new());
                },
            }
            c += 1;
        }
        let last: Vec<u8> = vec![UNKNOWN; num_outputs];
        let sim = Sim { state, rams, time: u64::MAX, rising: false, last };
        proof {
            let m = sim@;
            assert forall|d: int|
                1 <= d < m.values.rams.len() && nl.cells@[d].kind == CellKind::Ram implies (
            #[trigger] m.values.rams[d]).len() == RAM_WORDS by {
                assert(rams@[d]@.len() == RAM_WORDS);
            }
            assert forall|p: int| 0 <= p < m.values.pins.len() implies #[trigger] m.values.pins[p]
                <= 1 by {
                assert(state@[(p as usize) as int] <= 1);
            }
            assert forall|d: int, i: int|
                0 <= d < nl.cells@.len() && 0 <= i < m.values.rams[d].len() implies #[trigger] m.values.rams[d][i]
                == 0 by {
                assert(rams@[d]@.len() == m.values.rams[d].len());
            }
        }
        sim
    }

    /// Takes over the bits of a variable that changes.
    pub fn change(&mut self, clocks: &Vec<bool>, map: &InputMap, code: u64, bits: &[u8])
        requires
            map.below(old(self)@.values.pins.len()),
            clocks@.len() == old(self)@.values.pins.len(),
        ensures
            final(self)@ == old(self)@.changed(
                clocks@,
                *map,
                code,
                bits@,
                bits@.len() as int,
            ),
            final(self)@.values.pins.len() == old(self)@.values.pins.len(),
            forall|nl: Netlist, outs: nat| #[trigger]
                old(self)@.ok(nl, outs) ==> final(self)@.ok(nl, outs),
    {
        let n = bits.len();
        let mut k: usize = 0;
        while k < n
            invariant
                k <= n,
                n == bits@.len(),
                map.below(self@.values.pins.len()),
                self@.values.pins.len() == old(self)@.values.pins.len(),
                clocks@.len() == self@.values.pins.len(),
                self@ == old(self)@.changed(clocks@, *map, code, bits@, k as int),
                forall|nl: Netlist, outs: nat| #[trigger]
                    old(self)@.ok(nl, outs) ==> self@.ok(nl, outs),
            decreases n - k,
        {
            let ghost before = self@;
            if let Some(pin) = map.get(code, k) {
                let b = bits[k];
                assert(map.at(code, k as int) == Some(pin));
                if b == ONE && clocks[pin] {
                    self.rising = true;
                }
                self.state.set(
                    pin,
                    if b == ONE {
                        1u8
                    } else {
                        0u8
                    },
                );
                proof {
                    assert(self@.values.pins =~= before.bit_set(clocks@, pin, b).values.pins);
                    assert forall|nl: Netlist, outs: nat| #[trigger]
                        old(self)@.ok(nl, outs) implies self@.ok(nl, outs) by {
                        assert(before.ok(nl, outs));
                    }
                }
            }
            k += 1;
        }
    }

    /// Goes on to a time stamp. Returns the time of the clock edge, if there was one,
    /// and the outputs that have changed.
    pub fn advance(
        &mut self,
        nl: &Netlist,
        clocks: &Vec<bool>,
        order: &PinOrder,
        outs: &Vec<Output>,
        t: u64,
    ) -> (r: Option<(u64, Vec<(usize, bool)>)>)
        requires
            nl.wf(),
            nl.cells_ok(),
            nl.gates_ok(order.topo@),
            clocks@.len() == nl.pins@.len(),
            old(self)@.ok(*nl, outs@.len()),
            forall|i: int| 0 <= i < outs@.len() ==> (#[trigger] outs@[i]).pin < nl.pins@.len(),
        ensures
            final(self)@ == old(self)@.advanced(*nl, clocks@, order.topo@, outs@, t),
            final(self)@.ok(*nl, outs@.len()),
            match old(self)@.written(*nl, order.topo@, outs@, t) {
                Some((time, list)) => r matches Some((u, v)) && u == time && v@ == list,
                None => r is None,
            },
    {
        if t == self.time {
            return None;
        }
        let ghost start = self@;
        let mut r: Option<(u64, Vec<(usize, bool)>)> = None;
        if self.rising {
            nl.latch(&mut self.state, &mut self.rams);
            nl.propagate(&mut self.state, &order.topo);
            let changes = self.collect_changes(outs);
            r = Some((self.time, changes));
        }
        let ghost v = start.settled(*nl, order.topo@);
        self.time = t;
        self.rising = false;
        let n = self.state.len();
        let mut p: usize = 0;
        while p < n
            invariant
                p <= n,
                n == nl.pins@.len(),
                n == self.state@.len(),
                n == clocks@.len(),
                v.pins.len() == n,
                self.time == t,
                !self.rising,
                rows32(self.rams@) == v.rams,
                self.last@ == start.advanced(*nl, clocks@, order.topo@, outs@, t).last,
                forall|q: int|
                    0 <= q < n ==> #[trigger] self.state@[q] == if q < p && clocks@[q] {
                        0
                    } else {
                        v.pins[q]
                    },
            decreases n - p,
        {
            if clocks[p] {
                self.state.set(p, 0);
            }
            p += 1;
        }
        proof {
            let want = start.advanced(*nl, clocks@, order.topo@, outs@, t);
            assert(self@.values.pins =~= want.values.pins);
        }
        r
    }

    /// Collects the outputs whose value differs from that last written.
    fn collect_changes(&mut self, outs: &Vec<Output>) -> (list: Vec<(usize, bool)>)
        requires
            old(self).last@.len() == outs@.len(),
            forall|i: int|
                0 <= i < outs@.len() ==> (#[trigger] outs@[i]).pin < old(self).state@.len(),
        ensures
            list@ == changes_upto(
                old(self).state@,
                outs@,
                old(self).last@,
                outs@.len() as int,
            ),
            final(self).last@ == Seq::new(
                outs@.len(),
                |i: int| old(self).state@[outs@[i].pin as int],
            ),
            final(self).state == old(self).state,
            final(self).rams == old(self).rams,
            final(self).time == old(self).time,
            final(self).rising == old(self).rising,
    {
        let ghost last = self.last@;
        let mut list: Vec<(usize, bool)> = Vec::new();
        let mut k: usize = 0;
        while k < outs.len()
            invariant
                k <= outs@.len(),
                last == old(self).last@,
                last.len() == outs@.len(),
                self.last@.len() == outs@.len(),
                self.state == old(self).state,
                self.rams == old(self).rams,
                self.time == old(self).time,
                self.rising == old(self).rising,
                forall|i: int|
                    0 <= i < outs@.len() ==> (#[trigger] outs@[i]).pin < old(self).state@.len(),
                list@ == changes_upto(old(self).state@, outs@, last, k as int),
                forall|i: int|
                    0 <= i < outs@.len() ==> #[trigger] self.last@[i] == if i < k {
                        old(self).state@[outs@[i].pin as int]
                    } else {
                        last[i]
                    },
            decreases outs@.len() - k,
        {
            assert(outs@[k as int].pin < old(self).state@.len());
            let value = self.state[outs[k].pin];
            if value != self.last[k] {
                list.push((k, value == 1));
                self.last.set(k, value);
            }
            k += 1;
        }
        assert(self.last@ =~= Seq::new(
            outs@.len(),
            |i: int| old(self).state@[outs@[i].pin as int],
        ));
        list
    }
}

impl Netlist {
    /// The outputs that are written: the output ports of the design, and the nets that
    /// are neither constant nor undriven if wires are wanted.
    pub fn outputs(&self, include_wires: bool) -> (outs: Vec<Output>)
        requires
            self.wf(),
        ensures
            ({
                let ports = self.out_ports();
                let wires = if include_wires {
                    self.wires(self.roots@.len() as int)
                } else {
                    Seq::empty()
                };
                &&& outs@.len() == ports.len() + wires.len()
                &&& forall|k: int|
                    0 <= k < ports.len() ==> #[trigger] outs@[k] == (Output {
                        net: None,
                        pin: ports[k],
                    })
                &&& forall|k: int|
                    0 <= k < wires.len() ==> #[trigger] outs@[ports.len() + k] == (Output {
                        net: Some(wires[k]),
                        pin: self.roots@[wires[k] as int],
                    })
            }),
            forall|k: int| 0 <= k < outs@.len() ==> (#[trigger] outs@[k]).pin < self.pins@.len(),
    {
        let mut outs: Vec<Output> = Vec::new();
        let ghost pred = |p: usize| self.pins@[p as int].direction == Direction::I;
        let ghost all = self.cells@[0].pins@;
        let mut k: usize = 0;
        proof {
            reveal(Seq::filter);
            assert(all.take(0) =~= Seq::<usize>::empty());
        }
        while k < self.cells[0].pins.len()
            invariant
                self.wf(),
                all == self.cells@[0].pins@,
                k <= all.len(),
                pred == |p: usize| self.pins@[p as int].direction == Direction::I,
                outs@.len() == all.take(k as int).filter(pred).len(),
                forall|i: int|
                    0 <= i < outs@.len() ==> {
                        &&& #[trigger] outs@[i] == (Output {
                            net: None,
                            pin: all.take(k as int).filter(pred)[i],
                        })
                        &&& outs@[i].pin < self.pins@.len()
                    },
            decreases all.len() - k,
        {
            let pin = self.cells[0].pins[k];
            assert(self.cells@[0].pins@[k as int] < self.pins@.len());
            proof {
                reveal(Seq::filter);
                assert(all.take(k + 1).drop_last() =~= all.take(k as int));
            }
            if self.pins[pin].direction == Direction::I {
                outs.push(Output { net: None, pin });
            }
            k += 1;
        }
        assert(all.take(all.len() as int) =~= all);
        if include_wires {
            let ghost ports = self.out_ports();
            let mut net: usize = 0;
            while net < self.roots.len()
                invariant
                    self.wf(),
                    net <= self.roots@.len(),
                    ports == self.out_ports(),
                    outs@.len() == ports.len() + self.wires(net as int).len(),
                    forall|i: int|
                        0 <= i < ports.len() ==> #[trigger] outs@[i] == (Output {
                            net: None,
                            pin: ports[i],
                        }),
                    forall|i: int|
                        0 <= i < self.wires(net as int).len() ==> #[trigger] outs@[ports.len() + i]
                            == (Output {
                            net: Some(self.wires(net as int)[i]),
                            pin: self.roots@[self.wires(net as int)[i] as int],
                        }),
                    forall|i: int|
                        0 <= i < outs@.len() ==> (#[trigger] outs@[i]).pin < self.pins@.len(),
                decreases self.roots@.len() - net,
            {
                let ghost before = outs@;
                let root = self.roots[net];
                assert(self.roots@[net as int] < self.pins@.len());
                if !self.constant(net) && self.pins[root].direction == Direction::O {
                    outs.push(Output { net: Some(net), pin: root });
                }
                net += 1;
            }
        }
        outs
    }

    /// The nets below `n` that are neither constant nor undriven.
    pub open spec fn wires(&self, n: int) -> Seq<usize>
        decreases n,
    {
        if n <= 0 {
            Seq::empty()
        } else if !self.is_const((n - 1) as usize) && self.pins@[self.roots@[n
            - 1] as int].direction == Direction::O {
            self.wires(n - 1).push((n - 1) as usize)
        } else {
            self.wires(n - 1)
        }
    }

    /// The input ports of the design that are not given.
    pub fn missing_inputs(&self, given: &Vec<bool>) -> (list: Vec<usize>)
        requires
            self.wf(),
            given@.len() == self.pins@.len(),
        ensures
            list@ == self.cells@[0].pins@.filter(
                |p: usize| self.pins@[p as int].direction != Direction::I && !given@[p as int],
            ),
    {
        let mut list: Vec<usize> = Vec::new();
        let ghost pred = |p: usize|
            self.pins@[p as int].direction != Direction::I && !given@[p as int];
        let ghost all = self.cells@[0].pins@;
        let mut k: usize = 0;
        proof {
            reveal(Seq::filter);
            assert(all.take(0) =~= Seq::<usize>::empty());
        }
        while k < self.cells[0].pins.len()
            invariant
                self.wf(),
                given@.len() == self.pins@.len(),
                all == self.cells@[0].pins@,
                k <= all.len(),
                pred == |p: usize|
                    self.pins@[p as int].direction != Direction::I && !given@[p as int],
                list@ == all.take(k as int).filter(pred),
            decreases all.len() - k,
        {
            let pin = self.cells[0].pins[k];
            assert(self.cells@[0].pins@[k as int] < self.pins@.len());
            proof {
                reveal(Seq::filter);
                assert(all.take(k + 1).drop_last() =~= all.take(k as int));
            }
            if self.pins[pin].direction != Direction::I && !given[pin] {
                list.push(pin);
            }
            k += 1;
        }
        assert(all.take(all.len() as int) =~= all);
        list
    }
}

} // verus!
