//! The values of pins while a netlist is simulated.
use crate::naive::order::Walk;
use crate::netlist::{CellKind, Direction, Netlist, PinKind};
use vstd::prelude::*;

verus! {

/// The number of words of a memory block.
pub const RAM_WORDS: usize = 8192;

/// The value of an output that was not written yet.
pub const UNKNOWN: u8 = 2;

/// The character of a bit that is set.
pub const ONE: u8 = 49;

/// The values of pins and memory blocks.
pub struct Values {
    /// The value of each pin.
    pub pins: Seq<u8>,
    /// The memory block of each cell; empty for cells that have none.
    pub rams: Seq<Seq<u32>>,
}

/// A simulation.
pub struct SimModel {
    pub values: Values,
    /// The last time stamp.
    pub time: u64,
    /// Whether a clock has risen since.
    pub rising: bool,
    /// The values of the outputs as last written.
    pub last: Seq<u8>,
}

/// The contents of memory blocks.
pub open spec fn rows32(rams: Seq<Vec<u32>>) -> Seq<Seq<u32>> {
    Seq::new(rams.len(), |i: int| rams[i]@)
}

impl Netlist {
    /// The value of the last of the first `k` pins of a list with a name, 0 if there is
    /// none.
    pub open spec fn named_value(&self, v: Seq<u8>, pins: Seq<usize>, kind: PinKind, k: int) -> u8
        decreases k,
    {
        if k <= 0 {
            0
        } else if self.pins@[pins[k - 1] as int].kind == kind {
            v[pins[k - 1] as int]
        } else {
            self.named_value(v, pins, kind, k - 1)
        }
    }

    /// The last of the first `k` pins of a list with a name.
    pub open spec fn named_pin(&self, pins: Seq<usize>, kind: PinKind, k: int) -> Option<usize>
        decreases k,
    {
        if k <= 0 {
            None
        } else if self.pins@[pins[k - 1] as int].kind == kind {
            Some(pins[k - 1])
        } else {
            self.named_pin(pins, kind, k - 1)
        }
    }

    /// The value that a pin should have: that of the pin that drives its net for an
    /// input, the output of its gate otherwise.
    pub open spec fn eval_pin(&self, v: Seq<u8>, pin: usize) -> u8 {
        let p = self.pins@[pin as int];
        if p.direction == Direction::I {
            if self.is_const(p.net) {
                v[pin as int]
            } else {
                v[self.driver(pin as int) as int]
            }
        } else {
            let cell = self.cells@[p.cell as int];
            let n = cell.pins@.len() as int;
            cell.kind.spec_eval(
                self.named_value(v, cell.pins@, PinKind::A, n),
                self.named_value(v, cell.pins@, PinKind::B, n),
            )
        }
    }

    /// The values after the first `k` pins of a list are evaluated.
    pub open spec fn propagated(&self, v: Seq<u8>, topo: Seq<usize>, k: int) -> Seq<u8>
        decreases k,
    {
        if k <= 0 {
            v
        } else {
            let w = self.propagated(v, topo, k - 1);
            w.update(topo[k - 1] as int, self.eval_pin(w, topo[k - 1]))
        }
    }

    /// The number that the first `k` pins of a list with a name hold, each the bit that
    /// its index says.
    pub open spec fn port_value(&self, v: Seq<u8>, pins: Seq<usize>, kind: PinKind, k: int) -> u32
        decreases k,
    {
        if k <= 0 {
            0
        } else {
            let before = self.port_value(v, pins, kind, k - 1);
            let p = self.pins@[pins[k - 1] as int];
            if p.kind == kind {
                before | ((v[pins[k - 1] as int] as u32) << (p.index.unwrap() as u32))
            } else {
                before
            }
        }
    }

    /// The values after the first `k` pins of a memory block have got their bit of the
    /// word that is read.
    pub open spec fn data_read(&self, v: Seq<u8>, pins: Seq<usize>, data: u32, k: int) -> Seq<u8>
        decreases k,
    {
        if k <= 0 {
            v
        } else {
            let w = self.data_read(v, pins, data, k - 1);
            let p = self.pins@[pins[k - 1] as int];
            if p.kind == PinKind::PortRRdData {
                w.update(
                    pins[k - 1] as int,
                    ((data >> (p.index.unwrap() as u32)) & 1) as u8,
                )
            } else {
                w
            }
        }
    }

    /// The values after one access to the memory block of a cell.
    pub open spec fn ram_latched(&self, s: Values, c: int) -> Values {
        let pins = self.cells@[c].pins@;
        let n = pins.len() as int;
        let r = self.port_value(s.pins, pins, PinKind::PortRAddr, n) as int;
        let w = self.port_value(s.pins, pins, PinKind::PortWAddr, n) as int;
        let en = self.port_value(s.pins, pins, PinKind::PortWWrEn, n);
        let data = self.port_value(s.pins, pins, PinKind::PortWWrData, n);
        let ram = s.rams[c];
        Values {
            pins: self.data_read(s.pins, pins, ram[r], n),
            rams: s.rams.update(c, ram.update(w, (ram[w] & !en) | (data & en))),
        }
    }

    /// The values after a clock edge of cell `c`.
    pub open spec fn cell_latched(&self, s: Values, c: int) -> Values {
        let cell = self.cells@[c];
        let n = cell.pins@.len() as int;
        if cell.kind == CellKind::Dff {
            let d = self.named_pin(cell.pins@, PinKind::D, n).unwrap();
            let q = self.named_pin(cell.pins@, PinKind::Q, n).unwrap();
            Values { pins: s.pins.update(q as int, s.pins[d as int]), rams: s.rams }
        } else if cell.kind == CellKind::Ram {
            self.ram_latched(s, c)
        } else {
            s
        }
    }

    /// The values after a clock edge of the cells from 1 to `c - 1`.
    pub open spec fn latched(&self, s: Values, c: int) -> Values
        decreases c,
    {
        if c <= 1 {
            s
        } else {
            self.cell_latched(self.latched(s, c - 1), c - 1)
        }
    }

    /// The values after a clock edge.
    pub open spec fn clocked(&self, s: Values, topo: Seq<usize>) -> Values {
        let l = self.latched(s, self.cells@.len() as int);
        Values { pins: self.propagated(l.pins, topo, topo.len() as int), rams: l.rams }
    }

    /// Whether a pin of a memory block names a bit of its port.
    pub open spec fn ram_pin_ok(&self, pin: usize) -> bool {
        let p = self.pins@[pin as int];
        match p.kind {
            PinKind::PortRAddr | PinKind::PortWAddr => p.index matches Some(i) && 0 <= i < 13,
            PinKind::PortWWrEn | PinKind::PortWWrData | PinKind::PortRRdData => p.index matches Some(
                i,
            ) && 0 <= i < 32,
            _ => true,
        }
    }

    /// Whether the cell `c`, if it keeps a state, has the pins that it needs.
    pub open spec fn cell_ok(&self, c: int) -> bool {
        let cell = self.cells@[c];
        let n = cell.pins@.len() as int;
        &&& cell.kind == CellKind::Dff ==> {
            &&& self.named_pin(cell.pins@, PinKind::D, n) is Some
            &&& self.named_pin(cell.pins@, PinKind::Q, n) is Some
        }
        &&& cell.kind == CellKind::Ram ==> forall|k: int|
            0 <= k < n ==> self.ram_pin_ok(#[trigger] cell.pins@[k])
    }

    /// Whether all cells that keep a state have the pins that they need.
    pub open spec fn cells_ok(&self) -> bool {
        forall|c: int| 1 <= c < self.cells@.len() ==> #[trigger] self.cell_ok(c)
    }

    /// Whether a pin, if it is an output, is one of a gate with pins `A`, `B` and `Y`
    /// only.
    pub open spec fn gate_ok(&self, pin: usize) -> bool {
        let p = self.pins@[pin as int];
        let cell = self.cells@[p.cell as int];
        p.direction == Direction::I || {
            &&& cell.kind.spec_is_gate()
            &&& forall|k: int|
                0 <= k < cell.pins@.len() ==> {
                    let kind = self.pins@[#[trigger] cell.pins@[k] as int].kind;
                    kind.spec_is_gate_input() || kind == PinKind::Y
                }
        }
    }

    /// Whether all outputs in a list are those of gates.
    pub open spec fn gates_ok(&self, topo: Seq<usize>) -> bool {
        forall|k: int|
            0 <= k < topo.len() ==> #[trigger] topo[k] < self.pins@.len() && self.gate_ok(topo[k])
    }

    /// Whether there is a value, 0 or 1, for each pin, and a memory block for each cell
    /// that has one.
    pub open spec fn values_ok(&self, s: Values) -> bool {
        &&& s.pins.len() == self.pins@.len()
        &&& forall|p: int| 0 <= p < s.pins.len() ==> #[trigger] s.pins[p] <= 1
        &&& s.rams.len() == self.cells@.len()
        &&& forall|c: int|
            1 <= c < s.rams.len() && self.cells@[c].kind == CellKind::Ram ==> (
            #[trigger] s.rams[c]).len() == RAM_WORDS
    }

    /// Finds the last pin of a list with a name.
    fn find_named(&self, pins: &Vec<usize>, kind: PinKind) -> (r: Option<usize>)
        requires
            forall|k: int| 0 <= k < pins@.len() ==> #[trigger] pins@[k] < self.pins@.len(),
        ensures
            r == self.named_pin(pins@, kind, pins@.len() as int),
            r matches Some(p) ==> p < self.pins@.len(),
    {
        let mut r: Option<usize> = None;
        let mut k: usize = 0;
        while k < pins.len()
            invariant
                k <= pins@.len(),
                forall|i: int| 0 <= i < pins@.len() ==> #[trigger] pins@[i] < self.pins@.len(),
                r == self.named_pin(pins@, kind, k as int),
                r matches Some(p) ==> p < self.pins@.len(),
            decreases pins@.len() - k,
        {
            if self.pins[pins[k]].kind == kind {
                r = Some(pins[k]);
            }
            k += 1;
        }
        r
    }

    /// Checks that all cells that keep a state have the pins that they need.
    pub fn check_cells(&self) -> (r: bool)
        requires
            self.wf(),
        ensures
            r == self.cells_ok(),
    {
        let mut c: usize = 1;
        while c < self.cells.len()
            invariant
                1 <= c <= self.cells@.len(),
                self.wf(),
                forall|d: int| 1 <= d < c ==> #[trigger] self.cell_ok(d),
            decreases self.cells@.len() - c,
        {
            let cell = &self.cells[c];
            assert forall|k: int| 0 <= k < cell.pins@.len() implies #[trigger] cell.pins@[k]
                < self.pins@.len() by {
                assert(self.cells@[c as int].pins@[k] < self.pins@.len());
            }
            let ok = match cell.kind {
                CellKind::Dff => self.find_named(&cell.pins, PinKind::D).is_some()
                    && self.find_named(&cell.pins, PinKind::Q).is_some(),
                CellKind::Ram => self.check_ram_pins(&cell.pins),
                _ => true,
            };
            if !ok {
                assert(!self.cell_ok(c as int));
                return false;
            }
            assert(self.cell_ok(c as int));
            c += 1;
        }
        true
    }

    /// Checks that all pins of a memory block name bits of their ports.
    fn check_ram_pins(&self, pins: &Vec<usize>) -> (r: bool)
        requires
            forall|k: int| 0 <= k < pins@.len() ==> #[trigger] pins@[k] < self.pins@.len(),
        ensures
            r == (forall|k: int| 0 <= k < pins@.len() ==> self.ram_pin_ok(#[trigger] pins@[k])),
    {
        let mut k: usize = 0;
        while k < pins.len()
            invariant
                k <= pins@.len(),
                forall|i: int| 0 <= i < pins@.len() ==> #[trigger] pins@[i] < self.pins@.len(),
                forall|i: int| 0 <= i < k ==> self.ram_pin_ok(#[trigger] pins@[i]),
            decreases pins@.len() - k,
        {
            let p = &self.pins[pins[k]];
            let width: isize = match p.kind {
                PinKind::PortRAddr => 13,
                PinKind::PortWAddr => 13,
                PinKind::PortWWrEn => 32,
                PinKind::PortWWrData => 32,
                PinKind::PortRRdData => 32,
                _ => 0,
            };
            if width > 0 {
                let ok = match p.index {
                    Some(i) => 0 <= i && i < width,
                    None => false,
                };
                if !ok {
                    assert(!self.ram_pin_ok(pins@[k as int]));
                    return false;
                }
            }
            k += 1;
        }
        true
    }

    /// Checks that all outputs in a list are those of gates.
    pub fn check_gates(&self, topo: &Vec<usize>) -> (r: bool)
        requires
            self.wf(),
        ensures
            r == self.gates_ok(topo@),
    {
        let mut k: usize = 0;
        while k < topo.len()
            invariant
                k <= topo@.len(),
                self.wf(),
                forall|i: int|
                    0 <= i < k ==> #[trigger] topo@[i] < self.pins@.len() && self.gate_ok(topo@[i]),
            decreases topo@.len() - k,
        {
            let pin = topo[k];
            if pin >= self.pins.len() {
                return false;
            }
            if !self.check_gate(pin) {
                return false;
            }
            k += 1;
        }
        true
    }

    /// Checks that a pin, if it is an output, is one of a gate.
    fn check_gate(&self, pin: usize) -> (r: bool)
        requires
            self.wf(),
            pin < self.pins@.len(),
        ensures
            r == self.gate_ok(pin),
    {
        if self.pins[pin].direction == Direction::I {
            return true;
        }
        let c = self.pins[pin].cell;
        let cell = &self.cells[c];
        let gate = match cell.kind {
            CellKind::Dff => false,
            CellKind::Ram => false,
            CellKind::Other => false,
            _ => true,
        };
        if !gate {
            return false;
        }
        let mut k: usize = 0;
        while k < cell.pins.len()
            invariant
                k <= cell.pins@.len(),
                self.wf(),
                c < self.cells@.len(),
                *cell == self.cells@[c as int],
                c == self.pins@[pin as int].cell,
                self.pins@[pin as int].direction != Direction::I,
                cell.kind.spec_is_gate(),
                forall|i: int|
                    0 <= i < k ==> {
                        let kind = self.pins@[#[trigger] cell.pins@[i] as int].kind;
                        kind.spec_is_gate_input() || kind == PinKind::Y
                    },
            decreases cell.pins@.len() - k,
        {
            assert(self.cells@[c as int].pins@[k as int] < self.pins@.len());
            let ok = match self.pins[cell.pins[k]].kind {
                PinKind::A => true,
                PinKind::B => true,
                PinKind::Y => true,
                _ => false,
            };
            if !ok {
                return false;
            }
            k += 1;
        }
        true
    }

    /// The value of the last pin of a list with a name.
    fn read_named(&self, v: &Vec<u8>, pins: &Vec<usize>, kind: PinKind) -> (r: u8)
        requires
            v@.len() == self.pins@.len(),
            forall|p: int| 0 <= p < v@.len() ==> #[trigger] v@[p] <= 1,
            forall|k: int| 0 <= k < pins@.len() ==> #[trigger] pins@[k] < self.pins@.len(),
        ensures
            r == self.named_value(v@, pins@, kind, pins@.len() as int),
            r <= 1,
    {
        let mut r: u8 = 0;
        let mut k: usize = 0;
        while k < pins.len()
            invariant
                k <= pins@.len(),
                v@.len() == self.pins@.len(),
                forall|p: int| 0 <= p < v@.len() ==> #[trigger] v@[p] <= 1,
                forall|i: int| 0 <= i < pins@.len() ==> #[trigger] pins@[i] < self.pins@.len(),
                r == self.named_value(v@, pins@, kind, k as int),
                r <= 1,
            decreases pins@.len() - k,
        {
            if self.pins[pins[k]].kind == kind {
                r = v[pins[k]];
            }
            k += 1;
        }
        r
    }

    /// Evaluates pins in order.
    pub fn propagate(&self, v: &mut Vec<u8>, topo: &Vec<usize>)
        requires
            self.wf(),
            self.gates_ok(topo@),
            old(v)@.len() == self.pins@.len(),
            forall|p: int| 0 <= p < old(v)@.len() ==> #[trigger] old(v)@[p] <= 1,
        ensures
            final(v)@ == self.propagated(old(v)@, topo@, topo@.len() as int),
            final(v)@.len() == self.pins@.len(),
            forall|p: int| 0 <= p < final(v)@.len() ==> #[trigger] final(v)@[p] <= 1,
    {
        let ghost before = v@;
        let mut k: usize = 0;
        while k < topo.len()
            invariant
                k <= topo@.len(),
                self.wf(),
                self.gates_ok(topo@),
                v@.len() == self.pins@.len(),
                forall|p: int| 0 <= p < v@.len() ==> #[trigger] v@[p] <= 1,
                v@ == self.propagated(before, topo@, k as int),
            decreases topo@.len() - k,
        {
            let pin = topo[k];
            assert(topo@[k as int] < self.pins@.len() && self.gate_ok(topo@[k as int]));
            if self.pins[pin].direction == Direction::I {
                let net = self.pins[pin].net;
                if self.constant(net) {
                    assert(v@.update(pin as int, v@[pin as int]) =~= v@);
                } else {
                    let value = v[self.roots[net]];
                    v.set(pin, value);
                }
            } else {
                let c = self.pins[pin].cell;
                assert forall|i: int| 0 <= i < self.cells@[c as int].pins@.len() implies #[trigger] self.cells@[c as int].pins@[i]
                    < self.pins@.len() by {}
                let a = self.read_named(v, &self.cells[c].pins, PinKind::A);
                let b = self.read_named(v, &self.cells[c].pins, PinKind::B);
                let y = self.cells[c].kind.eval(a, b);
                v.set(pin, y);
            }
            k += 1;
        }
    }

    /// The number that the pins of a memory block with a name hold.
    fn read_port(&self, v: &Vec<u8>, pins: &Vec<usize>, kind: PinKind) -> (r: u32)
        requires
            v@.len() == self.pins@.len(),
            forall|p: int| 0 <= p < v@.len() ==> #[trigger] v@[p] <= 1,
            forall|k: int| 0 <= k < pins@.len() ==> #[trigger] pins@[k] < self.pins@.len(),
            forall|k: int| 0 <= k < pins@.len() ==> self.ram_pin_ok(#[trigger] pins@[k]),
            ({
                ||| kind == PinKind::PortRAddr
                ||| kind == PinKind::PortWAddr
                ||| kind == PinKind::PortWWrEn
                ||| kind == PinKind::PortWWrData
            }),
        ensures
            r == self.port_value(v@, pins@, kind, pins@.len() as int),
            kind == PinKind::PortRAddr || kind == PinKind::PortWAddr ==> r < 8192,
    {
        let mut r: u32 = 0;
        let mut k: usize = 0;
        while k < pins.len()
            invariant
                k <= pins@.len(),
                v@.len() == self.pins@.len(),
                forall|p: int| 0 <= p < v@.len() ==> #[trigger] v@[p] <= 1,
                forall|i: int| 0 <= i < pins@.len() ==> #[trigger] pins@[i] < self.pins@.len(),
                forall|i: int| 0 <= i < pins@.len() ==> self.ram_pin_ok(#[trigger] pins@[i]),
                ({
                    ||| kind == PinKind::PortRAddr
                    ||| kind == PinKind::PortWAddr
                    ||| kind == PinKind::PortWWrEn
                    ||| kind == PinKind::PortWWrData
                }),
                r == self.port_value(v@, pins@, kind, k as int),
                kind == PinKind::PortRAddr || kind == PinKind::PortWAddr ==> r < 8192,
            decreases pins@.len() - k,
        {
            let pin = pins[k];
            if self.pins[pin].kind == kind {
                assert(self.ram_pin_ok(pins@[k as int]));
                if let Some(i) = self.pins[pin].index {
                    let bit = v[pin] as u32;
                    let shift = i as u32;
                    assert(bit <= 1 && shift < 13 && r < 8192 ==> (r | (bit << shift)) < 8192)
                        by (bit_vector);
                    r = r | (bit << shift);
                }
            }
            k += 1;
        }
        r
    }

    /// Gives the pins of a memory block their bits of the word that is read.
    fn write_data(&self, v: &mut Vec<u8>, pins: &Vec<usize>, data: u32)
        requires
            old(v)@.len() == self.pins@.len(),
            forall|p: int| 0 <= p < old(v)@.len() ==> #[trigger] old(v)@[p] <= 1,
            forall|k: int| 0 <= k < pins@.len() ==> #[trigger] pins@[k] < self.pins@.len(),
            forall|k: int| 0 <= k < pins@.len() ==> self.ram_pin_ok(#[trigger] pins@[k]),
        ensures
            final(v)@ == self.data_read(old(v)@, pins@, data, pins@.len() as int),
            final(v)@.len() == self.pins@.len(),
            forall|p: int| 0 <= p < final(v)@.len() ==> #[trigger] final(v)@[p] <= 1,
    {
        let ghost before = v@;
        let mut k: usize = 0;
        while k < pins.len()
            invariant
                k <= pins@.len(),
                v@.len() == self.pins@.len(),
                forall|p: int| 0 <= p < v@.len() ==> #[trigger] v@[p] <= 1,
                forall|i: int| 0 <= i < pins@.len() ==> #[trigger] pins@[i] < self.pins@.len(),
                forall|i: int| 0 <= i < pins@.len() ==> self.ram_pin_ok(#[trigger] pins@[i]),
                v@ == self.data_read(before, pins@, data, k as int),
            decreases pins@.len() - k,
        {
            let pin = pins[k];
            if self.pins[pin].kind == PinKind::PortRRdData {
                assert(self.ram_pin_ok(pins@[k as int]));
                if let Some(i) = self.pins[pin].index {
                    let shift = i as u32;
                    assert(((data >> shift) & 1) <= 1) by (bit_vector);
                    v.set(pin, ((data >> shift) & 1) as u8);
                }
            }
            k += 1;
        }
    }

    /// Takes over the inputs of all cells that keep a state.
    pub fn latch(&self, v: &mut Vec<u8>, rams: &mut Vec<Vec<u32>>)
        requires
            self.wf(),
            self.cells_ok(),
            self.values_ok(Values { pins: old(v)@, rams: rows32(old(rams)@) }),
        ensures
            (Values { pins: final(v)@, rams: rows32(final(rams)@) }) == self.latched(
                Values { pins: old(v)@, rams: rows32(old(rams)@) },
                self.cells@.len() as int,
            ),
            self.values_ok(Values { pins: final(v)@, rams: rows32(final(rams)@) }),
    {
        let ghost start = Values { pins: v@, rams: rows32(rams@) };
        let mut c: usize = 1;
        while c < self.cells.len()
            invariant
                1 <= c <= self.cells@.len(),
                self.wf(),
                self.cells_ok(),
                self.values_ok(Values { pins: v@, rams: rows32(rams@) }),
                (Values { pins: v@, rams: rows32(rams@) }) == self.latched(start, c as int),
            decreases self.cells@.len() - c,
        {
            let ghost s = Values { pins: v@, rams: rows32(rams@) };
            let cell = &self.cells[c];
            proof {
                assert(self.cell_ok(c as int));
                assert forall|k: int| 0 <= k < cell.pins@.len() implies #[trigger] cell.pins@[k]
                    < self.pins@.len() by {
                    assert(self.cells@[c as int].pins@[k] < self.pins@.len());
                }
            }
            match cell.kind {
                CellKind::Dff => {
                    let d = self.find_named(&cell.pins, PinKind::D);
                    let q = self.find_named(&cell.pins, PinKind::Q);
                    if let (Some(d), Some(q)) = (d, q) {
                        let value = v[d];
                        v.set(q, value);
                    }
                },
                CellKind::Ram => {
                    let r = self.read_port(v, &cell.pins, PinKind::PortRAddr) as usize;
                    let w = self.read_port(v, &cell.pins, PinKind::PortWAddr) as usize;
                    let en = self.read_port(v, &cell.pins, PinKind::PortWWrEn);
                    let data = self.read_port(v, &cell.pins, PinKind::PortWWrData);
                    proof {
                        assert(rows32(rams@)[c as int] == rams@[c as int]@);
                        assert(s.rams[c as int].len() == RAM_WORDS);
                    }
                    let out = rams[c][r];
                    let old_word = rams[c][w];
                    let new_word = (old_word & !en) | (data & en);
                    let ghost before = rams@;
                    rams[c][w] = new_word;
                    self.write_data(v, &cell.pins, out);
                    proof {
                        let ram = s.rams[c as int].update(w as int, new_word);
                        assert forall|d: int| 0 <= d < before.len() implies #[trigger] rows32(
                            rams@,
                        )[d] == s.rams.update(c as int, ram)[d] by {
                            if d != c {
                                assert(rams@[d] == before[d]);
                            }
                        }
                        assert(rows32(rams@) =~= s.rams.update(c as int, ram));
                        let t = rows32(rams@);
                        assert forall|d: int|
                            1 <= d < t.len() && self.cells@[d].kind == CellKind::Ram implies (
                        #[trigger] t[d]).len() == RAM_WORDS by {
                            if d != c {
                                assert(s.rams[d].len() == RAM_WORDS);
                            }
                        }
                    }
                },
                _ => {},
            }
            c += 1;
        }
    }

    /// The values of a pin do not depend on pins other than those it is computed from.
    proof fn lemma_eval_pin(&self, v: Seq<u8>, w: Seq<u8>, pin: usize)
        requires
            self.wf(),
            pin < self.pins@.len(),
            forall|d: usize| #[trigger]
                self.inputs_of(pin).contains(d) ==> v[d as int] == w[d as int],
            v[pin as int] == w[pin as int] || !(self.pins@[pin as int].direction == Direction::I
                && self.is_const(self.pins@[pin as int].net)),
        ensures
            self.eval_pin(v, pin) == self.eval_pin(w, pin),
    {
        let p = self.pins@[pin as int];
        if p.direction == Direction::I {
            if !self.is_const(p.net) {
                assert(self.inputs_of(pin)[0] == self.driver(pin as int));
                assert(self.inputs_of(pin).contains(self.driver(pin as int)));
            }
        } else {
            let pins = self.cells@[p.cell as int].pins@;
            assert forall|d: usize| #[trigger] self.gate_inputs(p.cell as int).contains(
                d,
            ) implies v[d as int] == w[d as int] by {
                assert(self.inputs_of(pin).contains(d));
            }
            self.lemma_named_value(v, w, p.cell as int, PinKind::A, pins.len() as int);
            self.lemma_named_value(v, w, p.cell as int, PinKind::B, pins.len() as int);
        }
    }

    proof fn lemma_named_value(
        &self,
        v: Seq<u8>,
        w: Seq<u8>,
        c: int,
        kind: PinKind,
        k: int,
    )
        requires
            kind.spec_is_gate_input(),
            k <= self.cells@[c].pins@.len(),
            forall|d: usize| #[trigger]
                self.gate_inputs(c).contains(d) ==> v[d as int] == w[d as int],
        ensures
            self.named_value(v, self.cells@[c].pins@, kind, k) == self.named_value(
                w,
                self.cells@[c].pins@,
                kind,
                k,
            ),
        decreases k,
    {
        if k > 0 {
            let pins = self.cells@[c].pins@;
            let pred = |p: usize| self.pins@[p as int].kind.spec_is_gate_input();
            if self.pins@[pins[k - 1] as int].kind == kind {
                pins.lemma_filter_contains(pred, k - 1);
                assert(self.gate_inputs(c).contains(pins[k - 1]));
            } else {
                self.lemma_named_value(v, w, c, kind, k - 1);
            }
        }
    }

    proof fn lemma_inputs_at(&self, pin: usize, d: usize)
        requires
            self.wf(),
            pin < self.pins@.len(),
            self.inputs_of(pin).contains(d),
        ensures
            d < self.pins@.len(),
    {
        self.lemma_inputs(pin);
        let k = self.inputs_of(pin).index_of(d);
        assert(self.inputs_of(pin)[k] == d);
    }

    /// Evaluating changes listed pins only.
    proof fn lemma_propagated_other(&self, v: Seq<u8>, topo: Seq<usize>, a: int, k: int, x: usize)
        requires
            0 <= a <= k <= topo.len(),
            x < v.len(),
            forall|i: int| 0 <= i < topo.len() ==> #[trigger] topo[i] < v.len(),
            forall|i: int| a <= i < k ==> #[trigger] topo[i] != x,
        ensures
            self.propagated(v, topo, k).len() == v.len(),
            self.propagated(v, topo, k)[x as int] == self.propagated(v, topo, a)[x as int],
        decreases k,
    {
        if k > 0 {
            if a < k {
                self.lemma_propagated_other(v, topo, a, k - 1, x);
            } else {
                self.lemma_propagated_other(v, topo, k - 1, k - 1, x);
            }
            let w = self.propagated(v, topo, k - 1);
            assert(topo[k - 1] < v.len());
            assert(w.len() == v.len());
        }
    }

    /// Evaluating pins in a right order settles the circuit: in the end every listed
    /// pin has the value that follows from the pins it is computed from, and the other
    /// pins have kept theirs.
    pub proof fn law_propagated(&self, v: Seq<u8>, w: Walk, src: Seq<bool>)
        requires
            self.wf(),
            self.in_order(w, src),
            v.len() == self.pins@.len(),
        ensures
            ({
                let end = self.propagated(v, w.topo, w.topo.len() as int);
                &&& end.len() == v.len()
                &&& forall|i: int|
                    0 <= i < w.topo.len() ==> end[#[trigger] w.topo[i] as int] == self.eval_pin(
                        end,
                        w.topo[i],
                    )
                &&& forall|p: usize|
                    p < v.len() && !#[trigger] w.topo.contains(p) ==> end[p as int] == v[p as int]
            }),
    {
        let topo = w.topo;
        let n = topo.len() as int;
        let end = self.propagated(v, topo, n);
        if v.len() > 0 {
            self.lemma_propagated_other(v, topo, n, n, 0);
        } else if n > 0 {
            assert(topo[0] < v.len());
        }
        assert forall|i: int| 0 <= i < n implies end[#[trigger] topo[i] as int] == self.eval_pin(
            end,
            topo[i],
        ) by {
            let pin = topo[i];
            let before = self.propagated(v, topo, i);
            let after = self.propagated(v, topo, i + 1);
            self.lemma_propagated_other(v, topo, i, i, pin);
            self.lemma_propagated_other(v, topo, i + 1, n, pin);
            assert(after[pin as int] == self.eval_pin(before, pin));
            assert forall|d: usize| #[trigger] self.inputs_of(pin).contains(d) implies before[d as int]
                == end[d as int] by {
                assert(self.inputs_of(w.topo[i]).contains(d));
                assert forall|j: int| i <= j < n implies #[trigger] topo[j] != d by {
                    if topo[j] == d {
                        if src[d as int] {
                            assert(!src[topo[j] as int]);
                        } else {
                            let q = choose|q: int| 0 <= q < i && #[trigger] topo[q] == d;
                            assert(topo[q] == topo[j]);
                        }
                    }
                }
                self.lemma_inputs_at(pin, d);
                self.lemma_propagated_other(v, topo, i, n, d);
            }
            let p = self.pins@[pin as int];
            if p.direction == Direction::I && self.is_const(p.net) {
                assert(after[pin as int] == before[pin as int]);
            }
            self.lemma_eval_pin(before, end, pin);
        }
        assert forall|p: usize| p < v.len() && !#[trigger] topo.contains(p) implies end[p as int]
            == v[p as int] by {
            self.lemma_propagated_other(v, topo, 0, n, p);
        }
    }
}

} // verus!
