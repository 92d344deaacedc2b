//! What happens in a netlist at a clock edge.
use crate::bits::{lemma_masked_bits, lemma_or_bit, lemma_same_bits, lemma_zero_bits};
use crate::block::laws::bit_of;
use crate::naive::order::Walk;
use crate::naive::sim::{Values, RAM_WORDS};
use crate::netlist::{CellKind, Direction, Netlist, PinKind};
use vstd::prelude::*;

verus! {

impl Netlist {
    /// Whether a pin is the bit with index `b` of the port with a name.
    pub open spec fn is_port_bit(&self, pin: usize, kind: PinKind, b: u32) -> bool {
        self.pins@[pin as int].kind == kind && self.pins@[pin as int].index == Some(b as isize)
    }

    /// Whether one of the pins of a list that are the bit with index `b` of the port with
    /// a name is 1.
    pub open spec fn port_bit_set(&self, v: Seq<u8>, pins: Seq<usize>, kind: PinKind, b: u32) -> bool {
        exists|j: int|
            0 <= j < pins.len() && self.is_port_bit(#[trigger] pins[j], kind, b) && v[pins[j] as int]
                == 1
    }

    /// Whether the pins of a list with a name are bits of a word, and have a value.
    pub open spec fn is_port(&self, v: Seq<u8>, pins: Seq<usize>, kind: PinKind) -> bool {
        forall|j: int|
            0 <= j < pins.len() && self.pins@[#[trigger] pins[j] as int].kind == kind ==> {
                &&& v[pins[j] as int] <= 1
                &&& self.pins@[pins[j] as int].index matches Some(i) && 0 <= i < 32
            }
    }

    proof fn lemma_port_upto(&self, v: Seq<u8>, pins: Seq<usize>, kind: PinKind, k: int, b: u32)
        requires
            0 <= k <= pins.len(),
            b < 32,
            self.is_port(v, pins, kind),
        ensures
            bit_of(self.port_value(v, pins, kind, k), b) == if self.port_bit_set(
                v,
                pins.take(k),
                kind,
                b,
            ) {
                1u32
            } else {
                0u32
            },
        decreases k,
    {
        let now = pins.take(k);
        if k <= 0 {
            lemma_zero_bits(b);
        } else {
            let was = pins.take(k - 1);
            self.lemma_port_upto(v, pins, kind, k - 1, b);
            let x = self.port_value(v, pins, kind, k - 1);
            let pin = pins[k - 1];
            let p = self.pins@[pin as int];
            assert(now[k - 1] == pin);
            if self.port_bit_set(v, was, kind, b) {
                let j = choose|j: int|
                    0 <= j < was.len() && self.is_port_bit(#[trigger] was[j], kind, b)
                        && v[was[j] as int] == 1;
                assert(now[j] == was[j]);
            }
            if self.port_bit_set(v, now, kind, b) && !(self.is_port_bit(pin, kind, b) && v[pin as int]
                == 1) {
                let j = choose|j: int|
                    0 <= j < now.len() && self.is_port_bit(#[trigger] now[j], kind, b)
                        && v[now[j] as int] == 1;
                assert(was[j] == now[j]);
            }
            if p.kind == kind {
                lemma_or_bit(x, v[pin as int] as u32, p.index.unwrap() as u32, b);
            }
        }
    }

    /// A bit of the number that is read from a port of a memory block is 1 exactly if a pin
    /// of the port with its index is 1. So if pin `j` is the only one of the port with its
    /// index, the bit with this index is the value of the pin.
    pub proof fn law_port_value(&self, v: Seq<u8>, pins: Seq<usize>, kind: PinKind, b: u32)
        requires
            b < 32,
            self.is_port(v, pins, kind),
        ensures
            (bit_of(self.port_value(v, pins, kind, pins.len() as int), b) == 1)
                == self.port_bit_set(v, pins, kind, b),
            forall|j: int|
                0 <= j < pins.len() && self.is_port_bit(#[trigger] pins[j], kind, b) && (forall|
                    i: int,
                |
                    0 <= i < pins.len() && self.is_port_bit(#[trigger] pins[i], kind, b)
                        ==> pins[i] == pins[j]) ==> bit_of(
                    self.port_value(v, pins, kind, pins.len() as int),
                    b,
                ) == v[pins[j] as int],
    {
        self.lemma_port_upto(v, pins, kind, pins.len() as int, b);
        assert(pins.take(pins.len() as int) =~= pins);
        assert forall|j: int|
            0 <= j < pins.len() && self.is_port_bit(#[trigger] pins[j], kind, b) && (forall|i: int|
                0 <= i < pins.len() && self.is_port_bit(#[trigger] pins[i], kind, b) ==> pins[i]
                    == pins[j]) implies bit_of(
            self.port_value(v, pins, kind, pins.len() as int),
            b,
        ) == v[pins[j] as int] by {
            if self.port_bit_set(v, pins, kind, b) {
                let i = choose|i: int|
                    0 <= i < pins.len() && self.is_port_bit(#[trigger] pins[i], kind, b)
                        && v[pins[i] as int] == 1;
                assert(pins[i] == pins[j]);
            }
        }
    }

    /// Handing out a word gives each pin of the read port the bit with its index; other pins
    /// keep their values.
    pub proof fn law_data_read(&self, v: Seq<u8>, pins: Seq<usize>, data: u32, k: int, x: usize)
        requires
            0 <= k <= pins.len(),
            x < v.len(),
            forall|i: int| 0 <= i < pins.len() ==> #[trigger] pins[i] < v.len(),
        ensures
            self.data_read(v, pins, data, k).len() == v.len(),
            pins.take(k).contains(x) && self.pins@[x as int].kind == PinKind::PortRRdData
                ==> self.data_read(v, pins, data, k)[x as int] == bit_of(
                data,
                self.pins@[x as int].index.unwrap() as u32,
            ) as u8,
            !(pins.take(k).contains(x) && self.pins@[x as int].kind == PinKind::PortRRdData)
                ==> self.data_read(v, pins, data, k)[x as int] == v[x as int],
        decreases k,
    {
        if k > 0 {
            self.law_data_read(v, pins, data, k - 1, x);
            let was = pins.take(k - 1);
            let now = pins.take(k);
            assert(pins[k - 1] < v.len());
            assert(now[k - 1] == pins[k - 1]);
            if was.contains(x) {
                let i = was.index_of(x);
                assert(now[i] == x);
            }
            if now.contains(x) && x != pins[k - 1] {
                let i = now.index_of(x);
                assert(was[i] == x);
            }
        }
    }

    /// What an access to the memory block of a cell does. The bits of the word at the write
    /// address whose enable is set are replaced by those of the data, all other bits of the
    /// block stay, and so do the other blocks. The pins of the read port get the bits of the
    /// word that stood at the read address before; no other pin changes.
    pub proof fn law_ram_access(&self, s: Values, c: int, r: u32, w: u32, en: u32, data: u32)
        requires
            self.wf(),
            0 <= c < self.cells@.len(),
            self.cells@[c].kind == CellKind::Ram,
            self.cell_ok(c),
            self.values_ok(s),
            c >= 1,
            ({
                let pins = self.cells@[c].pins@;
                let n = pins.len() as int;
                &&& r == self.port_value(s.pins, pins, PinKind::PortRAddr, n)
                &&& w == self.port_value(s.pins, pins, PinKind::PortWAddr, n)
                &&& en == self.port_value(s.pins, pins, PinKind::PortWWrEn, n)
                &&& data == self.port_value(s.pins, pins, PinKind::PortWWrData, n)
            }),
        ensures
            r < RAM_WORDS,
            w < RAM_WORDS,
            ({
                let after = self.ram_latched(s, c);
                let pins = self.cells@[c].pins@;
                &&& after.rams.len() == s.rams.len()
                &&& after.rams[c].len() == RAM_WORDS
                &&& forall|d: int| 0 <= d < s.rams.len() && d != c ==> #[trigger] after.rams[d] == s.rams[d]
                &&& forall|a: int|
                    0 <= a < RAM_WORDS && a != w ==> #[trigger] after.rams[c][a] == s.rams[c][a]
                &&& forall|b: u32|
                    b < 32 ==> #[trigger] bit_of(after.rams[c][w as int], b) == if bit_of(en, b) == 1 {
                        bit_of(data, b)
                    } else {
                        bit_of(s.rams[c][w as int], b)
                    }
                &&& after.pins.len() == s.pins.len()
                &&& forall|x: usize|
                    x < s.pins.len() ==> #[trigger] after.pins[x as int] == if pins.contains(x)
                        && self.pins@[x as int].kind == PinKind::PortRRdData {
                        bit_of(s.rams[c][r as int], self.pins@[x as int].index.unwrap() as u32) as u8
                    } else {
                        s.pins[x as int]
                    }
            }),
    {
        let pins = self.cells@[c].pins@;
        let n = pins.len() as int;
        let after = self.ram_latched(s, c);
        assert forall|i: int| 0 <= i < n implies #[trigger] pins[i] < s.pins.len() by {
            assert(self.cells@[c].pins@[i] < self.pins@.len());
        }
        self.lemma_address(s.pins, pins, PinKind::PortRAddr, n);
        self.lemma_address(s.pins, pins, PinKind::PortWAddr, n);
        assert(s.rams[c].len() == RAM_WORDS);
        let old = s.rams[c][w as int];
        assert forall|b: u32| b < 32 implies #[trigger] bit_of(after.rams[c][w as int], b) == if bit_of(
            en,
            b,
        ) == 1 {
            bit_of(data, b)
        } else {
            bit_of(old, b)
        } by {
            lemma_masked_bits(old, data, en, b);
        }
        assert(pins.take(n) =~= pins);
        if s.pins.len() > 0 {
            self.law_data_read(s.pins, pins, s.rams[c][r as int], n, 0);
        } else if n > 0 {
            assert(pins[0] < s.pins.len());
        }
        assert forall|x: usize| x < s.pins.len() implies #[trigger] after.pins[x as int]
            == if pins.contains(x) && self.pins@[x as int].kind == PinKind::PortRRdData {
            bit_of(s.rams[c][r as int], self.pins@[x as int].index.unwrap() as u32) as u8
        } else {
            s.pins[x as int]
        } by {
            self.law_data_read(s.pins, pins, s.rams[c][r as int], n, x);
        }
    }

    /// The number of an address port is one of a word of a memory block.
    proof fn lemma_address(&self, v: Seq<u8>, pins: Seq<usize>, kind: PinKind, k: int)
        requires
            0 <= k <= pins.len(),
            kind == PinKind::PortRAddr || kind == PinKind::PortWAddr,
            forall|i: int| 0 <= i < pins.len() ==> #[trigger] pins[i] < v.len(),
            forall|p: int| 0 <= p < v.len() ==> #[trigger] v[p] <= 1,
            forall|i: int| 0 <= i < pins.len() ==> self.ram_pin_ok(#[trigger] pins[i]),
        ensures
            self.port_value(v, pins, kind, k) < RAM_WORDS,
        decreases k,
    {
        if k > 0 {
            self.lemma_address(v, pins, kind, k - 1);
            let x = self.port_value(v, pins, kind, k - 1);
            let pin = pins[k - 1];
            assert(self.ram_pin_ok(pin) && pin < v.len());
            if self.pins@[pin as int].kind == kind {
                let bit = v[pin as int] as u32;
                let shift = self.pins@[pin as int].index.unwrap() as u32;
                assert(bit <= 1 && shift < 13 && x < 8192 ==> (x | (bit << shift)) < 8192)
                    by (bit_vector);
            }
        }
    }

    /// What is written with all enables set is read by the next access with the same
    /// address.
    pub proof fn law_write_read(&self, s: Values, t: Values, c: int, a: u32, data: u32, x: usize)
        requires
            self.wf(),
            1 <= c < self.cells@.len(),
            self.cells@[c].kind == CellKind::Ram,
            self.cell_ok(c),
            self.values_ok(s),
            self.values_ok(t),
            t.rams == self.ram_latched(s, c).rams,
            ({
                let pins = self.cells@[c].pins@;
                let n = pins.len() as int;
                &&& a == self.port_value(s.pins, pins, PinKind::PortWAddr, n)
                &&& 0xffff_ffff == self.port_value(s.pins, pins, PinKind::PortWWrEn, n)
                &&& data == self.port_value(s.pins, pins, PinKind::PortWWrData, n)
                &&& a == self.port_value(t.pins, pins, PinKind::PortRAddr, n)
            }),
            self.cells@[c].pins@.contains(x),
            self.pins@[x as int].kind == PinKind::PortRRdData,
        ensures
            self.ram_latched(t, c).pins[x as int] == bit_of(
                data,
                self.pins@[x as int].index.unwrap() as u32,
            ) as u8,
    {
        let pins = self.cells@[c].pins@;
        let n = pins.len() as int;
        self.law_ram_access(
            s,
            c,
            self.port_value(s.pins, pins, PinKind::PortRAddr, n),
            a,
            0xffff_ffff,
            data,
        );
        self.law_ram_access(
            t,
            c,
            a,
            self.port_value(t.pins, pins, PinKind::PortWAddr, n),
            self.port_value(t.pins, pins, PinKind::PortWWrEn, n),
            self.port_value(t.pins, pins, PinKind::PortWWrData, n),
        );
        let word = t.rams[c][a as int];
        assert forall|b: u32| b < 32 implies #[trigger] bit_of(word, b) == bit_of(data, b) by {
            assert(bit_of(0xffff_ffff, b) == 1) by {
                assert((0xffff_ffffu32 >> b) & 1 == 1) by (bit_vector)
                    requires
                        b < 32,
                ;
            }
            assert(bit_of(self.ram_latched(s, c).rams[c][a as int], b) == bit_of(data, b));
        }
        lemma_same_bits(word, data);
        let i = pins.index_of(x);
        assert(self.cells@[c].pins@[i] < self.pins@.len());
        assert(self.ram_latched(t, c).pins[x as int] == bit_of(
            word,
            self.pins@[x as int].index.unwrap() as u32,
        ) as u8);
    }

    /// Whether place `j` is the last of the first `k` of a list with a pin of a name.
    pub open spec fn last_named(&self, pins: Seq<usize>, kind: PinKind, k: int, j: int) -> bool {
        &&& 0 <= j < k
        &&& self.pins@[pins[j] as int].kind == kind
        &&& forall|i: int| j < i < k ==> self.pins@[#[trigger] pins[i] as int].kind != kind
    }

    /// What the last pin of a list with a name is, and what its value is.
    pub proof fn law_named_pin(&self, v: Seq<u8>, pins: Seq<usize>, kind: PinKind, k: int)
        requires
            0 <= k <= pins.len(),
        ensures
            match self.named_pin(pins, kind, k) {
                Some(p) => {
                    &&& exists|j: int| #[trigger] self.last_named(pins, kind, k, j) && pins[j] == p
                    &&& self.named_value(v, pins, kind, k) == v[p as int]
                },
                None => {
                    &&& forall|j: int|
                        0 <= j < k ==> self.pins@[#[trigger] pins[j] as int].kind != kind
                    &&& self.named_value(v, pins, kind, k) == 0
                },
            },
        decreases k,
    {
        if k > 0 {
            self.law_named_pin(v, pins, kind, k - 1);
            if self.pins@[pins[k - 1] as int].kind == kind {
                assert(self.last_named(pins, kind, k, k - 1));
            } else if let Some(p) = self.named_pin(pins, kind, k) {
                let j = choose|j: int| #[trigger]
                    self.last_named(pins, kind, k - 1, j) && pins[j] == p;
                assert(self.last_named(pins, kind, k, j));
            }
        }
    }

    /// The value that a pin should have. An input has that of the pin that drives its net,
    /// unless the net is constant. An output of a gate is what a gate of its kind makes of its pins
    /// `A` and `B`, a pin that it lacks being 0.
    pub proof fn law_eval_pin(&self, v: Seq<u8>, pin: usize, a: u8, b: u8)
        requires
            self.wf(),
            pin < self.pins@.len(),
            a <= 1,
            b <= 1,
            ({
                let pins = self.cells@[self.pins@[pin as int].cell as int].pins@;
                let n = pins.len() as int;
                &&& a == match self.named_pin(pins, PinKind::A, n) {
                    Some(p) => v[p as int],
                    None => 0,
                }
                &&& b == match self.named_pin(pins, PinKind::B, n) {
                    Some(p) => v[p as int],
                    None => 0,
                }
            }),
        ensures
            ({
                let p = self.pins@[pin as int];
                let y = self.eval_pin(v, pin);
                if p.direction == Direction::I {
                    if self.net_zero == Some(p.net) || self.net_one == Some(p.net) {
                        y == v[pin as int]
                    } else {
                        y == v[self.roots@[p.net as int] as int]
                    }
                } else {
                    &&& y <= 1
                    &&& (y == 1) == match self.cells@[p.cell as int].kind {
                        CellKind::And => a == 1 && b == 1,
                        CellKind::AndInvB => a == 1 && b == 0,
                        CellKind::AndInvA => a == 0 && b == 1,
                        CellKind::Nor => a == 0 && b == 0,
                        CellKind::Or => a == 1 || b == 1,
                        CellKind::Inv => a == 0,
                        _ => a == 1,
                    }
                }
            }),
    {
        let pins = self.cells@[self.pins@[pin as int].cell as int].pins@;
        self.law_named_pin(v, pins, PinKind::A, pins.len() as int);
        self.law_named_pin(v, pins, PinKind::B, pins.len() as int);
        assert(a & b <= 1 && (a & b == 1 <==> a == 1 && b == 1) && a & (b ^ 1) <= 1 && (a & (b ^ 1)
            == 1 <==> a == 1 && b == 0) && (a ^ 1) & b <= 1 && ((a ^ 1) & b == 1 <==> a == 0 && b
            == 1) && (a | b) ^ 1 <= 1 && ((a | b) ^ 1 == 1 <==> a == 0 && b == 0) && a | b <= 1 && (
        a | b == 1 <==> a == 1 || b == 1) && a ^ 1 <= 1 && (a ^ 1 == 1 <==> a == 0))
            by (bit_vector)
            requires
                a <= 1,
                b <= 1,
        ;
    }

    /// Whether the pins in the list of each cell belong to the cell.
    pub open spec fn cells_own_pins(&self) -> bool {
        forall|c: int, k: int|
            0 <= c < self.cells@.len() && 0 <= k < self.cells@[c].pins@.len()
                ==> self.pins@[#[trigger] self.cells@[c].pins@[k] as int].cell == c
    }

    /// The pin of a cell with a name.
    pub open spec fn pin_of_cell(&self, c: int, kind: PinKind) -> Option<usize> {
        self.named_pin(self.cells@[c].pins@, kind, self.cells@[c].pins@.len() as int)
    }

    /// Whether a pin is one of the read port of the memory block of a cell.
    pub open spec fn is_read_pin(&self, c: int, x: usize) -> bool {
        &&& self.cells@[c].kind == CellKind::Ram
        &&& self.cells@[c].pins@.contains(x)
        &&& self.pins@[x as int].kind == PinKind::PortRRdData
    }

    /// Whether a pin is the output of a flip-flop.
    pub open spec fn is_state_pin(&self, c: int, x: usize) -> bool {
        self.cells@[c].kind == CellKind::Dff && self.pin_of_cell(c, PinKind::Q) == Some(x)
    }

    /// The value of a pin after a clock edge of the cells from 1 to `c - 1`.
    spec fn edge_value(&self, s: Values, c: int, x: usize) -> u8 {
        let o = self.pins@[x as int].cell as int;
        if 1 <= o < c && self.is_state_pin(o, x) {
            s.pins[self.pin_of_cell(o, PinKind::D).unwrap() as int]
        } else if 1 <= o < c && self.is_read_pin(o, x) {
            self.ram_latched(s, o).pins[x as int]
        } else {
            s.pins[x as int]
        }
    }

    proof fn lemma_port_same(&self, v: Seq<u8>, w: Seq<u8>, pins: Seq<usize>, kind: PinKind, k: int)
        requires
            0 <= k <= pins.len(),
            forall|i: int|
                0 <= i < pins.len() && self.pins@[#[trigger] pins[i] as int].kind == kind
                    ==> v[pins[i] as int] == w[pins[i] as int],
        ensures
            self.port_value(v, pins, kind, k) == self.port_value(w, pins, kind, k),
        decreases k,
    {
        if k > 0 {
            self.lemma_port_same(v, w, pins, kind, k - 1);
        }
    }

    /// A pin of a cell with a name is in its list.
    proof fn lemma_pin_of_cell(&self, c: int, kind: PinKind)
        requires
            self.wf(),
            0 <= c < self.cells@.len(),
        ensures
            self.pin_of_cell(c, kind) matches Some(p) ==> {
                &&& self.cells@[c].pins@.contains(p)
                &&& p < self.pins@.len()
                &&& self.pins@[p as int].kind == kind
                &&& self.cells_own_pins() ==> self.pins@[p as int].cell == c
            },
    {
        let pins = self.cells@[c].pins@;
        self.law_named_pin(Seq::empty(), pins, kind, pins.len() as int);
        if let Some(p) = self.pin_of_cell(c, kind) {
            let j = choose|j: int| #[trigger]
                self.last_named(pins, kind, pins.len() as int, j) && pins[j] == p;
            assert(self.cells@[c].pins@[j] < self.pins@.len());
        }
    }

    proof fn lemma_latched(&self, s: Values, c: int)
        requires
            self.wf(),
            self.cells_ok(),
            self.values_ok(s),
            self.cells_own_pins(),
            1 <= c <= self.cells@.len(),
        ensures
            ({
                let l = self.latched(s, c);
                &&& l.pins.len() == s.pins.len()
                &&& forall|x: usize|
                    x < s.pins.len() ==> #[trigger] l.pins[x as int] == self.edge_value(s, c, x)
                &&& l.rams.len() == s.rams.len()
                &&& forall|d: int|
                    0 <= d < s.rams.len() ==> #[trigger] l.rams[d] == if 1 <= d < c
                        && self.cells@[d].kind == CellKind::Ram {
                        self.ram_latched(s, d).rams[d]
                    } else {
                        s.rams[d]
                    }
            }),
        decreases c,
    {
        if c > 1 {
            self.lemma_latched(s, c - 1);
            let l = self.latched(s, c - 1);
            let m = self.latched(s, c);
            let o = c - 1;
            let cell = self.cells@[o];
            let pins = cell.pins@;
            let n = pins.len() as int;
            assert(self.cell_ok(o));
            self.lemma_pin_of_cell(o, PinKind::Q);
            self.lemma_pin_of_cell(o, PinKind::D);
            assert forall|i: int| 0 <= i < n implies #[trigger] pins[i] < s.pins.len() by {
                assert(self.cells@[o].pins@[i] < self.pins@.len());
            }
            assert forall|x: usize|
                x < s.pins.len() && #[trigger] self.pins@[x as int].kind != PinKind::Q
                    && self.pins@[x as int].kind != PinKind::PortRRdData implies l.pins[x as int]
                == s.pins[x as int] by {
                let w = self.pins@[x as int].cell as int;
                self.lemma_pin_of_cell(w, PinKind::Q);
                assert(l.pins[x as int] == self.edge_value(s, c - 1, x));
            }
            if cell.kind == CellKind::Ram {
                self.lemma_port_same(l.pins, s.pins, pins, PinKind::PortRAddr, n);
                self.lemma_port_same(l.pins, s.pins, pins, PinKind::PortWAddr, n);
                self.lemma_port_same(l.pins, s.pins, pins, PinKind::PortWWrEn, n);
                self.lemma_port_same(l.pins, s.pins, pins, PinKind::PortWWrData, n);
                assert(l.rams[o] == s.rams[o]);
                assert(pins.take(n) =~= pins);
                let r = self.port_value(s.pins, pins, PinKind::PortRAddr, n) as int;
                assert forall|x: usize| x < s.pins.len() implies #[trigger] m.pins[x as int]
                    == self.edge_value(s, c, x) && m.pins.len() == s.pins.len() by {
                    self.law_data_read(l.pins, pins, l.rams[o][r], n, x);
                    self.law_data_read(s.pins, pins, s.rams[o][r], n, x);
                    assert(l.pins[x as int] == self.edge_value(s, c - 1, x));
                    if pins.contains(x) {
                        let i = pins.index_of(x);
                        assert(self.pins@[self.cells@[o].pins@[i] as int].cell == o);
                    }
                }
                if s.pins.len() > 0 {
                    assert(m.pins[(0usize) as int] == self.edge_value(s, c, 0));
                } else if n > 0 {
                    assert(pins[0] < s.pins.len());
                } else {
                    assert(m.pins == l.pins);
                }
            } else {
                assert forall|x: usize| x < s.pins.len() implies #[trigger] m.pins[x as int]
                    == self.edge_value(s, c, x) by {
                    assert(l.pins[x as int] == self.edge_value(s, c - 1, x));
                    if cell.kind == CellKind::Dff {
                        let d = self.pin_of_cell(o, PinKind::D).unwrap();
                        assert(self.pins@[d as int].kind == PinKind::D);
                        assert(l.pins[d as int] == s.pins[d as int]);
                    }
                }
            }
            assert forall|d: int| 0 <= d < s.rams.len() implies #[trigger] m.rams[d] == if 1 <= d < c
                && self.cells@[d].kind == CellKind::Ram {
                self.ram_latched(s, d).rams[d]
            } else {
                s.rams[d]
            } by {
                assert(l.rams[d] == if 1 <= d < c - 1 && self.cells@[d].kind == CellKind::Ram {
                    self.ram_latched(s, d).rams[d]
                } else {
                    s.rams[d]
                });
            }
        }
    }

    /// What a clock edge does to all cells at once: the output of each flip-flop takes the
    /// value that its input had before the edge; each memory block is accessed with the
    /// values that its ports had before the edge; all other pins keep their values.
    pub proof fn law_clock_edge(&self, s: Values)
        requires
            self.wf(),
            self.cells_ok(),
            self.values_ok(s),
            self.cells_own_pins(),
        ensures
            ({
                let l = self.latched(s, self.cells@.len() as int);
                &&& l.pins.len() == s.pins.len()
                &&& l.rams.len() == s.rams.len()
                &&& forall|c: int, d: usize, q: usize|
                    1 <= c < self.cells@.len() && self.cells@[c].kind == CellKind::Dff
                        && #[trigger] self.pin_of_cell(c, PinKind::D) == Some(d)
                        && #[trigger] self.pin_of_cell(c, PinKind::Q) == Some(q)
                        ==> #[trigger] l.pins[q as int] == #[trigger] s.pins[d as int]
                &&& forall|c: int, x: usize|
                    1 <= c < self.cells@.len() && #[trigger] self.is_read_pin(c, x)
                        ==> l.pins[x as int] == self.ram_latched(s, c).pins[x as int]
                &&& forall|c: int|
                    1 <= c < self.cells@.len() && self.cells@[c].kind == CellKind::Ram
                        ==> #[trigger] l.rams[c] == self.ram_latched(s, c).rams[c]
                &&& forall|c: int|
                    0 <= c < self.cells@.len() && self.cells@[c].kind != CellKind::Ram
                        ==> #[trigger] l.rams[c] == s.rams[c]
                &&& forall|x: usize|
                    x < s.pins.len() && (forall|c: int|
                        1 <= c < self.cells@.len() ==> !#[trigger] self.is_state_pin(c, x)
                            && !self.is_read_pin(c, x)) ==> #[trigger] l.pins[x as int]
                        == s.pins[x as int]
            }),
    {
        let n = self.cells@.len() as int;
        let l = self.latched(s, n);
        self.lemma_latched(s, n);
        assert forall|c: int, d: usize, q: usize|
            1 <= c < n && self.cells@[c].kind == CellKind::Dff && #[trigger] self.pin_of_cell(
                c,
                PinKind::D,
            ) == Some(d) && #[trigger] self.pin_of_cell(c, PinKind::Q) == Some(
                q,
            ) implies #[trigger] l.pins[q as int] == #[trigger] s.pins[d as int] by {
            self.lemma_pin_of_cell(c, PinKind::Q);
            assert(l.pins[q as int] == self.edge_value(s, n, q));
        }
        assert forall|c: int, x: usize| 1 <= c < n && #[trigger] self.is_read_pin(c, x) implies l.pins[x as int]
            == self.ram_latched(s, c).pins[x as int] by {
            let i = self.cells@[c].pins@.index_of(x);
            assert(self.pins@[self.cells@[c].pins@[i] as int].cell == c);
            self.lemma_pin_of_cell(c, PinKind::Q);
            assert(l.pins[x as int] == self.edge_value(s, n, x));
        }
        assert forall|x: usize|
            x < s.pins.len() && (forall|c: int|
                1 <= c < n ==> !#[trigger] self.is_state_pin(c, x) && !self.is_read_pin(
                    c,
                    x,
                )) implies #[trigger] l.pins[x as int] == s.pins[x as int] by {
            let o = self.pins@[x as int].cell as int;
            assert(l.pins[x as int] == self.edge_value(s, n, x));
            if 1 <= o < n {
                assert(!self.is_state_pin(o, x));
            }
        }
    }

    /// What clocking a circuit does: after the edge, every listed pin has the value that
    /// follows from the pins that it is computed from; the other pins and the memory blocks
    /// are as the edge has left them.
    pub proof fn law_clocked(&self, s: Values, w: Walk, src: Seq<bool>)
        requires
            self.wf(),
            self.cells_ok(),
            self.values_ok(s),
            self.cells_own_pins(),
            self.in_order(w, src),
        ensures
            ({
                let l = self.latched(s, self.cells@.len() as int);
                let end = self.clocked(s, w.topo);
                &&& end.rams == l.rams
                &&& end.pins.len() == s.pins.len()
                &&& forall|i: int|
                    0 <= i < w.topo.len() ==> end.pins[#[trigger] w.topo[i] as int]
                        == self.eval_pin(end.pins, w.topo[i])
                &&& forall|p: usize|
                    p < s.pins.len() && !#[trigger] w.topo.contains(p) ==> end.pins[p as int]
                        == l.pins[p as int]
            }),
    {
        self.law_clock_edge(s);
        self.law_propagated(self.latched(s, self.cells@.len() as int).pins, w, src);
    }
}

} // verus!
