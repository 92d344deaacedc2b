//! A gate-level netlist of the cells that can be mapped.
use vstd::prelude::*;
use vstd::string::StringSliceAdditionalSpecFns;
use vstd::utf8::encode_utf8_decode_utf8;

verus! {

/// The direction of a pin, seen from its cell. Ports belong to a cell of their own, so
/// an input port of a design is a pin that drives.
#[derive(PartialEq, Eq, Clone, Copy, Structural)]
pub enum Direction {
    I,
    O,
    Unknown,
}

/// The types of cells.
#[derive(PartialEq, Eq, Clone, Copy, Structural)]
pub enum CellKind {
    /// A flip-flop.
    Dff,
    /// A memory block with one read port and one write port.
    Ram,
    /// `a & b`.
    And,
    /// `a & !b`.
    AndInvB,
    /// `!a & b`.
    AndInvA,
    /// `!(a | b)`.
    Nor,
    /// `a | b`.
    Or,
    /// `!a`.
    Inv,
    /// `a`.
    Buf,
    /// Any other cell.
    Other,
}

/// The names of pins.
#[derive(PartialEq, Eq, Clone, Copy, Structural)]
pub enum PinKind {
    A,
    B,
    Y,
    D,
    Q,
    Clk,
    PortRClk,
    PortWClk,
    PortRAddr,
    PortRRdData,
    PortWAddr,
    PortWWrEn,
    PortWWrData,
    Other,
}

/// Whether two texts are the same.
pub(crate) fn same_text(a: &str, b: &str) -> (r: bool)
    ensures
        r == (a@ == b@),
{
    let x = a.as_bytes();
    let y = b.as_bytes();
    if x.len() != y.len() {
        return false;
    }
    let mut k: usize = 0;
    while k < x.len()
        invariant
            k <= x@.len(),
            x@.len() == y@.len(),
            x@ == a.spec_bytes(),
            y@ == b.spec_bytes(),
            forall|i: int| 0 <= i < k ==> x@[i] == y@[i],
        decreases x@.len() - k,
    {
        if x[k] != y[k] {
            return false;
        }
        k += 1;
    }
    proof {
        assert(x@ =~= y@);
        encode_utf8_decode_utf8(a@);
        encode_utf8_decode_utf8(b@);
    }
    true
}

impl CellKind {
    /// The type of cell that a name stands for.
    pub open spec fn spec_of(name: Seq<char>) -> CellKind {
        if name == "DFF"@ {
            CellKind::Dff
        } else if name == "$__RAMGEM_SYNC_"@ {
            CellKind::Ram
        } else if name == "AND2_00_0"@ {
            CellKind::And
        } else if name == "AND2_01_0"@ {
            CellKind::AndInvB
        } else if name == "AND2_10_0"@ {
            CellKind::AndInvA
        } else if name == "AND2_11_0"@ {
            CellKind::Nor
        } else if name == "AND2_11_1"@ {
            CellKind::Or
        } else if name == "INV"@ {
            CellKind::Inv
        } else if name == "BUF"@ {
            CellKind::Buf
        } else {
            CellKind::Other
        }
    }

    /// The type of cell that a name stands for.
    pub fn of(name: &str) -> (kind: CellKind)
        ensures
            kind == CellKind::spec_of(name@),
    {
        if same_text(name, "DFF") {
            CellKind::Dff
        } else if same_text(name, "$__RAMGEM_SYNC_") {
            CellKind::Ram
        } else if same_text(name, "AND2_00_0") {
            CellKind::And
        } else if same_text(name, "AND2_01_0") {
            CellKind::AndInvB
        } else if same_text(name, "AND2_10_0") {
            CellKind::AndInvA
        } else if same_text(name, "AND2_11_0") {
            CellKind::Nor
        } else if same_text(name, "AND2_11_1") {
            CellKind::Or
        } else if same_text(name, "INV") {
            CellKind::Inv
        } else if same_text(name, "BUF") {
            CellKind::Buf
        } else {
            CellKind::Other
        }
    }

    /// Whether cells of this type keep a state.
    pub open spec fn spec_is_sequential(self) -> bool {
        self == CellKind::Dff || self == CellKind::Ram
    }

    /// Whether cells of this type keep a state.
    pub fn is_sequential(&self) -> (r: bool)
        ensures
            r == self.spec_is_sequential(),
    {
        match self {
            CellKind::Dff => true,
            CellKind::Ram => true,
            _ => false,
        }
    }

    /// Whether cells of this type are gates.
    pub open spec fn spec_is_gate(self) -> bool {
        !self.spec_is_sequential() && self != CellKind::Other
    }

    /// The output of a gate, from its inputs.
    pub open spec fn spec_eval(self, a: u8, b: u8) -> u8 {
        match self {
            CellKind::And => a & b,
            CellKind::AndInvB => a & (b ^ 1),
            CellKind::AndInvA => (a ^ 1) & b,
            CellKind::Nor => (a | b) ^ 1,
            CellKind::Or => a | b,
            CellKind::Inv => a ^ 1,
            _ => a,
        }
    }

    /// The output of a gate, from its inputs.
    pub fn eval(&self, a: u8, b: u8) -> (y: u8)
        requires
            self.spec_is_gate(),
            a <= 1,
            b <= 1,
        ensures
            y == self.spec_eval(a, b),
            y <= 1,
            (y == 1) == match *self {
                CellKind::And => a == 1 && b == 1,
                CellKind::AndInvB => a == 1 && b == 0,
                CellKind::AndInvA => a == 0 && b == 1,
                CellKind::Nor => a == 0 && b == 0,
                CellKind::Or => a == 1 || b == 1,
                CellKind::Inv => a == 0,
                _ => a == 1,
            },
    {
        proof {
            assert(a <= 1 && b <= 1 ==> (a & b) <= 1 && ((a & b) == 1 <==> a == 1 && b == 1))
                by (bit_vector);
            assert(a <= 1 && b <= 1 ==> (a & (b ^ 1)) <= 1 && ((a & (b ^ 1)) == 1 <==> a == 1 && b
                == 0)) by (bit_vector);
            assert(a <= 1 && b <= 1 ==> ((a ^ 1) & b) <= 1 && (((a ^ 1) & b) == 1 <==> a == 0 && b
                == 1)) by (bit_vector);
            assert(a <= 1 && b <= 1 ==> ((a | b) ^ 1) <= 1 && (((a | b) ^ 1) == 1 <==> a == 0 && b
                == 0)) by (bit_vector);
            assert(a <= 1 && b <= 1 ==> (a | b) <= 1 && ((a | b) == 1 <==> a == 1 || b == 1))
                by (bit_vector);
            assert(a <= 1 ==> (a ^ 1) <= 1 && ((a ^ 1) == 1 <==> a == 0)) by (bit_vector);
        }
        match self {
            CellKind::And => a & b,
            CellKind::AndInvB => a & (b ^ 1),
            CellKind::AndInvA => (a ^ 1) & b,
            CellKind::Nor => (a | b) ^ 1,
            CellKind::Or => a | b,
            CellKind::Inv => a ^ 1,
            _ => a,
        }
    }
}

impl PinKind {
    /// The pin that a name stands for.
    pub open spec fn spec_of(name: Seq<char>) -> PinKind {
        if name == "A"@ {
            PinKind::A
        } else if name == "B"@ {
            PinKind::B
        } else if name == "Y"@ {
            PinKind::Y
        } else if name == "D"@ {
            PinKind::D
        } else if name == "Q"@ {
            PinKind::Q
        } else if name == "CLK"@ {
            PinKind::Clk
        } else if name == "PORT_R_CLK"@ {
            PinKind::PortRClk
        } else if name == "PORT_W_CLK"@ {
            PinKind::PortWClk
        } else if name == "PORT_R_ADDR"@ {
            PinKind::PortRAddr
        } else if name == "PORT_R_RD_DATA"@ {
            PinKind::PortRRdData
        } else if name == "PORT_W_ADDR"@ {
            PinKind::PortWAddr
        } else if name == "PORT_W_WR_EN"@ {
            PinKind::PortWWrEn
        } else if name == "PORT_W_WR_DATA"@ {
            PinKind::PortWWrData
        } else {
            PinKind::Other
        }
    }

    /// The pin that a name stands for.
    pub fn of(name: &str) -> (kind: PinKind)
        ensures
            kind == PinKind::spec_of(name@),
    {
        if same_text(name, "A") {
            PinKind::A
        } else if same_text(name, "B") {
            PinKind::B
        } else if same_text(name, "Y") {
            PinKind::Y
        } else if same_text(name, "D") {
            PinKind::D
        } else if same_text(name, "Q") {
            PinKind::Q
        } else if same_text(name, "CLK") {
            PinKind::Clk
        } else if same_text(name, "PORT_R_CLK") {
            PinKind::PortRClk
        } else if same_text(name, "PORT_W_CLK") {
            PinKind::PortWClk
        } else if same_text(name, "PORT_R_ADDR") {
            PinKind::PortRAddr
        } else if same_text(name, "PORT_R_RD_DATA") {
            PinKind::PortRRdData
        } else if same_text(name, "PORT_W_ADDR") {
            PinKind::PortWAddr
        } else if same_text(name, "PORT_W_WR_EN") {
            PinKind::PortWWrEn
        } else if same_text(name, "PORT_W_WR_DATA") {
            PinKind::PortWWrData
        } else {
            PinKind::Other
        }
    }

    /// Whether this is a clock pin.
    pub open spec fn spec_is_clock(self) -> bool {
        self == PinKind::Clk || self == PinKind::PortRClk || self == PinKind::PortWClk
    }

    /// Whether this is an input of a gate.
    pub open spec fn spec_is_gate_input(self) -> bool {
        self == PinKind::A || self == PinKind::B
    }

    /// Whether this is an output of a cell that keeps a state.
    pub open spec fn spec_is_state_output(self) -> bool {
        self == PinKind::Q || self == PinKind::PortRRdData
    }

    /// Whether this is an input of a cell that keeps a state, but for clocks.
    pub open spec fn spec_is_state_input(self) -> bool {
        ||| self == PinKind::D
        ||| self == PinKind::PortRAddr
        ||| self == PinKind::PortWAddr
        ||| self == PinKind::PortWWrEn
        ||| self == PinKind::PortWWrData
    }
}

/// A pin of a netlist.
pub struct Pin {
    /// The cell that the pin belongs to.
    pub cell: usize,
    /// The net that the pin is connected to.
    pub net: usize,
    pub direction: Direction,
    pub kind: PinKind,
    /// The bit, if the pin is one of a vector.
    pub index: Option<isize>,
}

/// A cell of a netlist.
pub struct Cell {
    pub kind: CellKind,
    pub pins: Vec<usize>,
}

/// A netlist. The ports of the design are the pins of cell 0.
pub struct Netlist {
    pub pins: Vec<Pin>,
    pub cells: Vec<Cell>,
    /// The pin that drives each net.
    pub roots: Vec<usize>,
    /// The net that is always 0.
    pub net_zero: Option<usize>,
    /// The net that is always 1.
    pub net_one: Option<usize>,
    /// The pins of the net that is always 1.
    pub one_pins: Vec<usize>,
}

impl Netlist {
    /// All indices are those of cells, pins and nets.
    pub open spec fn wf(&self) -> bool {
        &&& self.cells@.len() > 0
        &&& forall|c: int, k: int|
            0 <= c < self.cells@.len() && 0 <= k < self.cells@[c].pins@.len()
                ==> #[trigger] self.cells@[c].pins@[k] < self.pins@.len()
        &&& forall|p: int|
            0 <= p < self.pins@.len() ==> {
                &&& (#[trigger] self.pins@[p]).cell < self.cells@.len()
                &&& self.pins@[p].net < self.roots@.len()
            }
        &&& forall|n: int|
            0 <= n < self.roots@.len() ==> #[trigger] self.roots@[n] < self.pins@.len()
        &&& forall|k: int|
            0 <= k < self.one_pins@.len() ==> #[trigger] self.one_pins@[k] < self.pins@.len()
    }

    /// Whether a net is constant.
    pub open spec fn is_const(&self, net: usize) -> bool {
        self.net_zero == Some(net) || self.net_one == Some(net)
    }

    /// Whether a net is constant.
    pub fn constant(&self, net: usize) -> (r: bool)
        ensures
            r == self.is_const(net),
    {
        let zero = match self.net_zero {
            Some(z) => z == net,
            None => false,
        };
        let one = match self.net_one {
            Some(o) => o == net,
            None => false,
        };
        zero || one
    }

    /// The pin that drives the net of a pin.
    pub open spec fn driver(&self, pin: int) -> usize {
        self.roots@[self.pins@[pin].net as int]
    }

    /// Whether pin `k` of cell `c` is the clock of a cell that keeps a state, and is
    /// not constant.
    pub open spec fn is_clock_pin(&self, c: int, k: int) -> bool {
        let pin = self.pins@[self.cells@[c].pins@[k] as int];
        &&& 1 <= c < self.cells@.len()
        &&& 0 <= k < self.cells@[c].pins@.len()
        &&& self.cells@[c].kind.spec_is_sequential()
        &&& pin.kind.spec_is_clock()
        &&& !self.is_const(pin.net)
    }

    /// The pin that drives a clock pin.
    pub open spec fn clock_root(&self, c: int, k: int) -> usize {
        self.driver(self.cells@[c].pins@[k] as int)
    }

    /// Whether the clock pins before pin `k` of a cell are driven by ports.
    pub open spec fn clocked_by_ports(&self, c: int, k: int) -> bool {
        forall|j: int|
            j < k && #[trigger] self.is_clock_pin(c, j) ==> self.pins@[self.clock_root(
                c,
                j,
            ) as int].cell == 0
    }

    /// Whether a pin drives a clock.
    pub open spec fn is_clock(&self, pin: usize) -> bool {
        exists|c: int, k: int| #[trigger] self.is_clock_pin(c, k) && self.clock_root(c, k) == pin
    }

    /// Checks that all indices are those of cells, pins and nets.
    pub fn check(&self) -> (r: bool)
        ensures
            r == self.wf(),
    {
        if self.cells.len() == 0 {
            return false;
        }
        let n = self.pins.len();
        let mut c: usize = 0;
        while c < self.cells.len()
            invariant
                c <= self.cells@.len(),
                n == self.pins@.len(),
                forall|d: int, k: int|
                    0 <= d < c && 0 <= k < self.cells@[d].pins@.len()
                        ==> #[trigger] self.cells@[d].pins@[k] < n,
            decreases self.cells@.len() - c,
        {
            if !all_below(&self.cells[c].pins, n) {
                proof {
                    let k = choose|k: int|
                        0 <= k < self.cells@[c as int].pins@.len()
                            && #[trigger] self.cells@[c as int].pins@[k] >= n;
                    assert(self.cells@[c as int].pins@[k] >= n);
                }
                return false;
            }
            c += 1;
        }
        let mut p: usize = 0;
        while p < n
            invariant
                p <= n,
                n == self.pins@.len(),
                forall|q: int|
                    0 <= q < p ==> {
                        &&& (#[trigger] self.pins@[q]).cell < self.cells@.len()
                        &&& self.pins@[q].net < self.roots@.len()
                    },
            decreases n - p,
        {
            if self.pins[p].cell >= self.cells.len() || self.pins[p].net >= self.roots.len() {
                return false;
            }
            p += 1;
        }
        all_below(&self.roots, n) && all_below(&self.one_pins, n)
    }
}

/// Whether all numbers of a list are below `n`.
pub(crate) fn all_below(list: &Vec<usize>, n: usize) -> (r: bool)
    ensures
        r == (forall|k: int| 0 <= k < list@.len() ==> #[trigger] list@[k] < n),
{
    let mut k: usize = 0;
    while k < list.len()
        invariant
            k <= list@.len(),
            forall|i: int| 0 <= i < k ==> #[trigger] list@[i] < n,
        decreases list@.len() - k,
    {
        if list[k] >= n {
            return false;
        }
        k += 1;
    }
    true
}

} // verus!
