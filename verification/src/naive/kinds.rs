//! What the names in a netlist stand for, and which cells can be simulated.
use crate::netlist::{CellKind, Direction, Netlist, PinKind};
use vstd::prelude::*;

verus! {

proof fn lemma_cell_names()
    ensures
        ({
            let names = seq![
                "DFF"@,
                "$__RAMGEM_SYNC_"@,
                "AND2_00_0"@,
                "AND2_01_0"@,
                "AND2_10_0"@,
                "AND2_11_0"@,
                "AND2_11_1"@,
                "INV"@,
                "BUF"@,
            ];
            names.no_duplicates()
        }),
{
    reveal_strlit("DFF");
    reveal_strlit("$__RAMGEM_SYNC_");
    reveal_strlit("AND2_00_0");
    reveal_strlit("AND2_01_0");
    reveal_strlit("AND2_10_0");
    reveal_strlit("AND2_11_0");
    reveal_strlit("AND2_11_1");
    reveal_strlit("INV");
    reveal_strlit("BUF");
    assert("DFF"@[0] == 'D' && "INV"@[0] == 'I' && "BUF"@[0] == 'B');
    assert("AND2_00_0"@[5] == '0' && "AND2_00_0"@[6] == '0');
    assert("AND2_01_0"@[5] == '0' && "AND2_01_0"@[6] == '1');
    assert("AND2_10_0"@[5] == '1' && "AND2_10_0"@[6] == '0');
    assert("AND2_11_0"@[5] == '1' && "AND2_11_0"@[6] == '1' && "AND2_11_0"@[8] == '0');
    assert("AND2_11_1"@[5] == '1' && "AND2_11_1"@[6] == '1' && "AND2_11_1"@[8] == '1');
    let names = seq![
        "DFF"@,
        "$__RAMGEM_SYNC_"@,
        "AND2_00_0"@,
        "AND2_01_0"@,
        "AND2_10_0"@,
        "AND2_11_0"@,
        "AND2_11_1"@,
        "INV"@,
        "BUF"@,
    ];
    assert forall|i: int, j: int| 0 <= i < j < names.len() implies names[i] != names[j] by {
        assert(names[i].len() != names[j].len() || names[i][0] != names[j][0] || names[i][5]
            != names[j][5] || names[i][6] != names[j][6] || names[i][8] != names[j][8]);
    }
}

/// Each kind of cell has one name. The digits of an and gate say of each input, and of the
/// output, whether it is inverted.
pub proof fn law_cell_names(name: Seq<char>)
    ensures
        CellKind::spec_of(name) == CellKind::Dff <==> name == "DFF"@,
        CellKind::spec_of(name) == CellKind::Ram <==> name == "$__RAMGEM_SYNC_"@,
        CellKind::spec_of(name) == CellKind::And <==> name == "AND2_00_0"@,
        CellKind::spec_of(name) == CellKind::AndInvB <==> name == "AND2_01_0"@,
        CellKind::spec_of(name) == CellKind::AndInvA <==> name == "AND2_10_0"@,
        CellKind::spec_of(name) == CellKind::Nor <==> name == "AND2_11_0"@,
        CellKind::spec_of(name) == CellKind::Or <==> name == "AND2_11_1"@,
        CellKind::spec_of(name) == CellKind::Inv <==> name == "INV"@,
        CellKind::spec_of(name) == CellKind::Buf <==> name == "BUF"@,
{
    lemma_cell_names();
    let names = seq![
        "DFF"@,
        "$__RAMGEM_SYNC_"@,
        "AND2_00_0"@,
        "AND2_01_0"@,
        "AND2_10_0"@,
        "AND2_11_0"@,
        "AND2_11_1"@,
        "INV"@,
        "BUF"@,
    ];
    assert(names[0] == "DFF"@ && names[1] == "$__RAMGEM_SYNC_"@ && names[2] == "AND2_00_0"@);
    assert(names[3] == "AND2_01_0"@ && names[4] == "AND2_10_0"@ && names[5] == "AND2_11_0"@);
    assert(names[6] == "AND2_11_1"@ && names[7] == "INV"@ && names[8] == "BUF"@);
}

proof fn lemma_pin_names()
    ensures
        ({
            let names = seq![
                "A"@,
                "B"@,
                "Y"@,
                "D"@,
                "Q"@,
                "CLK"@,
                "PORT_R_CLK"@,
                "PORT_W_CLK"@,
                "PORT_R_ADDR"@,
                "PORT_R_RD_DATA"@,
                "PORT_W_ADDR"@,
                "PORT_W_WR_EN"@,
                "PORT_W_WR_DATA"@,
            ];
            names.no_duplicates()
        }),
{
    reveal_strlit("A");
    reveal_strlit("B");
    reveal_strlit("Y");
    reveal_strlit("D");
    reveal_strlit("Q");
    reveal_strlit("CLK");
    reveal_strlit("PORT_R_CLK");
    reveal_strlit("PORT_W_CLK");
    reveal_strlit("PORT_R_ADDR");
    reveal_strlit("PORT_R_RD_DATA");
    reveal_strlit("PORT_W_ADDR");
    reveal_strlit("PORT_W_WR_EN");
    reveal_strlit("PORT_W_WR_DATA");
    assert("A"@[0] == 'A' && "B"@[0] == 'B' && "Y"@[0] == 'Y' && "D"@[0] == 'D' && "Q"@[0] == 'Q');
    assert("PORT_R_CLK"@[5] == 'R' && "PORT_W_CLK"@[5] == 'W');
    assert("PORT_R_ADDR"@[5] == 'R' && "PORT_W_ADDR"@[5] == 'W');
    assert("PORT_R_RD_DATA"@[5] == 'R' && "PORT_W_WR_DATA"@[5] == 'W');
    let names = seq![
        "A"@,
        "B"@,
        "Y"@,
        "D"@,
        "Q"@,
        "CLK"@,
        "PORT_R_CLK"@,
        "PORT_W_CLK"@,
        "PORT_R_ADDR"@,
        "PORT_R_RD_DATA"@,
        "PORT_W_ADDR"@,
        "PORT_W_WR_EN"@,
        "PORT_W_WR_DATA"@,
    ];
    assert forall|i: int, j: int| 0 <= i < j < names.len() implies names[i] != names[j] by {
        assert(names[i].len() != names[j].len() || names[i][0] != names[j][0] || names[i][5]
            != names[j][5]);
    }
}

/// Each kind of pin has one name.
pub proof fn law_pin_names(name: Seq<char>)
    ensures
        PinKind::spec_of(name) == PinKind::A <==> name == "A"@,
        PinKind::spec_of(name) == PinKind::B <==> name == "B"@,
        PinKind::spec_of(name) == PinKind::Y <==> name == "Y"@,
        PinKind::spec_of(name) == PinKind::D <==> name == "D"@,
        PinKind::spec_of(name) == PinKind::Q <==> name == "Q"@,
        PinKind::spec_of(name) == PinKind::Clk <==> name == "CLK"@,
        PinKind::spec_of(name) == PinKind::PortRClk <==> name == "PORT_R_CLK"@,
        PinKind::spec_of(name) == PinKind::PortWClk <==> name == "PORT_W_CLK"@,
        PinKind::spec_of(name) == PinKind::PortRAddr <==> name == "PORT_R_ADDR"@,
        PinKind::spec_of(name) == PinKind::PortRRdData <==> name == "PORT_R_RD_DATA"@,
        PinKind::spec_of(name) == PinKind::PortWAddr <==> name == "PORT_W_ADDR"@,
        PinKind::spec_of(name) == PinKind::PortWWrEn <==> name == "PORT_W_WR_EN"@,
        PinKind::spec_of(name) == PinKind::PortWWrData <==> name == "PORT_W_WR_DATA"@,
{
    lemma_pin_names();
    let names = seq![
        "A"@,
        "B"@,
        "Y"@,
        "D"@,
        "Q"@,
        "CLK"@,
        "PORT_R_CLK"@,
        "PORT_W_CLK"@,
        "PORT_R_ADDR"@,
        "PORT_R_RD_DATA"@,
        "PORT_W_ADDR"@,
        "PORT_W_WR_EN"@,
        "PORT_W_WR_DATA"@,
    ];
    assert(names[0] == "A"@);
    assert(names[1] == "B"@);
    assert(names[2] == "Y"@);
    assert(names[3] == "D"@);
    assert(names[4] == "Q"@);
    assert(names[5] == "CLK"@);
    assert(names[6] == "PORT_R_CLK"@);
    assert(names[7] == "PORT_W_CLK"@);
    assert(names[8] == "PORT_R_ADDR"@);
    assert(names[9] == "PORT_R_RD_DATA"@);
    assert(names[10] == "PORT_W_ADDR"@);
    assert(names[11] == "PORT_W_WR_EN"@);
    assert(names[12] == "PORT_W_WR_DATA"@);
}

impl Netlist {
    /// Whether a cell has a pin of a kind.
    pub open spec fn has_kind(&self, c: int, kind: PinKind) -> bool {
        exists|k: int|
            0 <= k < self.cells@[c].pins@.len() && self.pins@[
                #[trigger] self.cells@[c].pins@[k] as int
            ].kind == kind
    }

    /// Whether a pin has an index, and it is below `n`.
    pub open spec fn index_below(&self, x: usize, n: int) -> bool {
        self.pins@[x as int].index matches Some(i) && 0 <= i < n
    }

    /// Which cells that keep a state can be simulated: a flip-flop that has a data input and an
    /// output, and a memory block whose pins name one of 13 bits of an address, or one of 32 bits
    /// of data or of the write enable.
    pub proof fn law_cell_ok(&self, c: int)
        ensures
            self.cell_ok(c) <==> match self.cells@[c].kind {
                CellKind::Dff => self.has_kind(c, PinKind::D) && self.has_kind(c, PinKind::Q),
                CellKind::Ram => forall|k: int|
                    0 <= k < self.cells@[c].pins@.len() ==> {
                        let x = #[trigger] self.cells@[c].pins@[k];
                        match self.pins@[x as int].kind {
                            PinKind::PortRAddr => self.index_below(x, 13),
                            PinKind::PortWAddr => self.index_below(x, 13),
                            PinKind::PortWWrEn => self.index_below(x, 32),
                            PinKind::PortWWrData => self.index_below(x, 32),
                            PinKind::PortRRdData => self.index_below(x, 32),
                            _ => true,
                        }
                    },
                _ => true,
            },
    {
        let pins = self.cells@[c].pins@;
        let n = pins.len() as int;
        self.lemma_named(c, PinKind::D, n);
        self.lemma_named(c, PinKind::Q, n);
        if self.cells@[c].kind == CellKind::Ram && self.cell_ok(c) {
            assert forall|k: int| 0 <= k < n implies self.ram_pin_ok(#[trigger] pins[k]) by {}
        }
    }

    proof fn lemma_named(&self, c: int, kind: PinKind, k: int)
        requires
            0 <= k <= self.cells@[c].pins@.len(),
        ensures
            self.named_pin(self.cells@[c].pins@, kind, k) is Some <==> exists|j: int|
                0 <= j < k && self.pins@[#[trigger] self.cells@[c].pins@[j] as int].kind == kind,
        decreases k,
    {
        if k > 0 {
            self.lemma_named(c, kind, k - 1);
            let pins = self.cells@[c].pins@;
            if self.pins@[pins[k - 1] as int].kind == kind {
                assert(self.pins@[self.cells@[c].pins@[k - 1] as int].kind == kind);
            }
        }
    }

    /// Which pins can be evaluated: an input, or a pin of a gate all of whose pins are called `A`,
    /// `B` or `Y`.
    pub proof fn law_gate_ok(&self, pin: usize)
        ensures
            ({
                let p = self.pins@[pin as int];
                let cell = self.cells@[p.cell as int];
                self.gate_ok(pin) <==> p.direction == Direction::I || {
                    &&& cell.kind != CellKind::Dff
                    &&& cell.kind != CellKind::Ram
                    &&& cell.kind != CellKind::Other
                    &&& forall|k: int|
                        0 <= k < cell.pins@.len() ==> {
                            let kind = self.pins@[#[trigger] cell.pins@[k] as int].kind;
                            kind == PinKind::A || kind == PinKind::B || kind == PinKind::Y
                        }
                }
            }),
    {
    }
}

} // verus!
