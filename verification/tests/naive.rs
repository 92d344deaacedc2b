use gem::naive::events::{InputMap, Sim};
use gem::naive::order::ClockError;
use gem::netlist::Direction::{I, O};
use gem::netlist::{Cell, CellKind, Direction, Netlist, Pin, PinKind};

fn pin(cell: usize, net: usize, direction: Direction, kind: PinKind, index: Option<isize>) -> Pin {
    Pin { cell, net, direction, kind, index }
}

/// Ports `a`, `clk` and `y`; `y` is a flip-flop of `!a`.
fn inverted_flop() -> Netlist {
    Netlist {
        pins: vec![
            pin(0, 0, O, PinKind::Other, None),
            pin(0, 1, O, PinKind::Other, None),
            pin(0, 3, I, PinKind::Other, None),
            pin(1, 0, I, PinKind::A, None),
            pin(1, 2, O, PinKind::Y, None),
            pin(2, 1, I, PinKind::Clk, None),
            pin(2, 2, I, PinKind::D, None),
            pin(2, 3, O, PinKind::Q, None),
        ],
        cells: vec![
            Cell { kind: CellKind::Other, pins: vec![0, 1, 2] },
            Cell { kind: CellKind::Inv, pins: vec![3, 4] },
            Cell { kind: CellKind::Dff, pins: vec![5, 6, 7] },
        ],
        roots: vec![0, 1, 4, 7],
        net_zero: None,
        net_one: None,
        one_pins: vec![],
    }
}

#[test]
fn names_of_cells_and_pins() {
    assert!(CellKind::of("DFF") == CellKind::Dff);
    assert!(CellKind::of("$__RAMGEM_SYNC_") == CellKind::Ram);
    assert!(CellKind::of("AND2_00_0") == CellKind::And);
    assert!(CellKind::of("AND2_01_0") == CellKind::AndInvB);
    assert!(CellKind::of("AND2_10_0") == CellKind::AndInvA);
    assert!(CellKind::of("AND2_11_0") == CellKind::Nor);
    assert!(CellKind::of("AND2_11_1") == CellKind::Or);
    assert!(CellKind::of("INV") == CellKind::Inv);
    assert!(CellKind::of("BUF") == CellKind::Buf);
    assert!(CellKind::of("DFFSR") == CellKind::Other);
    assert!(PinKind::of("A") == PinKind::A);
    assert!(PinKind::of("CLK") == PinKind::Clk);
    assert!(PinKind::of("PORT_R_CLK") == PinKind::PortRClk);
    assert!(PinKind::of("PORT_W_CLK") == PinKind::PortWClk);
    assert!(PinKind::of("PORT_R_ADDR") == PinKind::PortRAddr);
    assert!(PinKind::of("PORT_R_RD_DATA") == PinKind::PortRRdData);
    assert!(PinKind::of("PORT_W_ADDR") == PinKind::PortWAddr);
    assert!(PinKind::of("PORT_W_WR_EN") == PinKind::PortWWrEn);
    assert!(PinKind::of("PORT_W_WR_DATA") == PinKind::PortWWrData);
    assert!(PinKind::of("B") == PinKind::B);
    assert!(PinKind::of("Y") == PinKind::Y);
    assert!(PinKind::of("D") == PinKind::D);
    assert!(PinKind::of("Q") == PinKind::Q);
    assert!(PinKind::of("S") == PinKind::Other);
}

#[test]
fn gates_compute() {
    let table = |k: CellKind| [k.eval(0, 0), k.eval(0, 1), k.eval(1, 0), k.eval(1, 1)];
    assert_eq!(table(CellKind::And), [0, 0, 0, 1]);
    assert_eq!(table(CellKind::AndInvB), [0, 0, 1, 0]);
    assert_eq!(table(CellKind::AndInvA), [0, 1, 0, 0]);
    assert_eq!(table(CellKind::Nor), [1, 0, 0, 0]);
    assert_eq!(table(CellKind::Or), [0, 1, 1, 1]);
    assert_eq!(table(CellKind::Inv), [1, 1, 0, 0]);
    assert_eq!(table(CellKind::Buf), [0, 0, 1, 1]);
}

#[test]
fn clocks_and_order() {
    let nl = inverted_flop();
    assert!(nl.check());
    assert!(nl.check_cells());
    let clocks = nl.clock_ports().ok().unwrap();
    assert_eq!(clocks, vec![false, true, false, false, false, false, false, false]);
    let order = nl.pin_order(&clocks).unwrap();
    assert_eq!(order.topo, vec![2, 3, 4, 6]);
    assert!(nl.check_gates(&order.topo));
    assert!(nl.clocks_in_logic(&clocks, &order).is_empty());
    assert_eq!(nl.missing_inputs(&vec![false; 8]), vec![0, 1]);
    let mut given = vec![false; 8];
    given[1] = true;
    assert_eq!(nl.missing_inputs(&given), vec![0]);
}

#[test]
fn clocks_used_in_logic_are_found() {
    let mut nl = inverted_flop();
    nl.pins[3].net = 1;
    let clocks = nl.clock_ports().ok().unwrap();
    let order = nl.pin_order(&clocks).unwrap();
    assert_eq!(nl.clocks_in_logic(&clocks, &order), vec![1]);
}

#[test]
fn gated_clocks_are_refused() {
    let mut nl = inverted_flop();
    nl.pins[5].net = 2;
    let e: ClockError = nl.clock_ports().err().unwrap();
    assert_eq!((e.cell, e.root), (2, 4));
    nl.net_one = Some(2);
    assert_eq!(nl.clock_ports().ok().unwrap(), vec![false; 8]);
}

#[test]
fn loops_are_found() {
    let mut nl = inverted_flop();
    nl.pins[3].net = 2;
    let clocks = nl.clock_ports().ok().unwrap();
    assert!(nl.pin_order(&clocks).is_none());
}

#[test]
fn checks_find_what_cannot_be_simulated() {
    let mut nl = inverted_flop();
    nl.pins[6].kind = PinKind::Other;
    assert!(!nl.check_cells());
    let mut nl = inverted_flop();
    nl.cells[1].kind = CellKind::Other;
    assert!(!nl.check_gates(&vec![4]));
    assert!(nl.check_gates(&vec![3]));
    assert!(!nl.check_gates(&vec![9]));
    let mut nl = inverted_flop();
    nl.roots[2] = 8;
    assert!(!nl.check());
    let mut nl = inverted_flop();
    nl.pins[0].net = 4;
    assert!(!nl.check());
    let mut nl = inverted_flop();
    nl.cells[1].pins.push(8);
    assert!(!nl.check());
}

#[test]
fn outputs_are_written_at_clock_edges() {
    let nl = inverted_flop();
    let clocks = nl.clock_ports().ok().unwrap();
    let order = nl.pin_order(&clocks).unwrap();
    let outs = nl.outputs(false);
    assert_eq!(outs.iter().map(|o| (o.net, o.pin)).collect::<Vec<_>>(), vec![(None, 2)]);
    let mut map = InputMap::new();
    map.insert(10, 0, 0);
    map.insert(11, 0, 1);
    let mut sim = Sim::new(&nl, outs.len());
    assert_eq!(sim.advance(&nl, &clocks, &order, &outs, 0), None);
    sim.change(&clocks, &map, 10, b"0");
    sim.change(&clocks, &map, 11, b"1");
    sim.change(&clocks, &map, 12, b"1");
    assert_eq!(sim.advance(&nl, &clocks, &order, &outs, 0), None);
    assert_eq!(sim.advance(&nl, &clocks, &order, &outs, 5), Some((0, vec![(0, false)])));
    sim.change(&clocks, &map, 11, b"0");
    assert_eq!(sim.advance(&nl, &clocks, &order, &outs, 10), None);
    sim.change(&clocks, &map, 11, b"1");
    assert_eq!(sim.advance(&nl, &clocks, &order, &outs, 15), Some((10, vec![(0, true)])));
    sim.change(&clocks, &map, 11, b"1");
    assert_eq!(sim.advance(&nl, &clocks, &order, &outs, 20), Some((15, vec![])));
    sim.change(&clocks, &map, 10, b"x");
    sim.change(&clocks, &map, 11, b"x");
    assert_eq!(sim.advance(&nl, &clocks, &order, &outs, 25), None);
}

#[test]
fn wires_are_written_too() {
    let mut nl = inverted_flop();
    nl.net_zero = Some(1);
    let outs = nl.outputs(true);
    assert_eq!(
        outs.iter().map(|o| (o.net, o.pin)).collect::<Vec<_>>(),
        vec![(None, 2), (Some(0), 0), (Some(2), 4), (Some(3), 7)]
    );
}

#[test]
fn later_entries_of_the_input_map_win() {
    let mut map = InputMap::new();
    map.insert(3, 2, 7);
    map.insert(3, 0, 5);
    map.insert(3, 2, 8);
    assert_eq!(map.get(3, 0), Some(5));
    assert_eq!(map.get(3, 1), None);
    assert_eq!(map.get(3, 2), Some(8));
    assert_eq!(map.get(3, 3), None);
    assert_eq!(map.get(4, 0), None);
}

/// A memory block with the lowest bits of its ports, all driven by ports of the design.
fn memory() -> Netlist {
    let kinds = [
        PinKind::PortRClk,
        PinKind::PortRAddr,
        PinKind::PortWAddr,
        PinKind::PortWWrEn,
        PinKind::PortWWrData,
    ];
    let mut pins = Vec::new();
    for k in 0..5 {
        pins.push(pin(0, k, O, PinKind::Other, None));
    }
    for (k, kind) in kinds.iter().enumerate() {
        pins.push(pin(1, k, I, *kind, Some(0)));
    }
    pins.push(pin(1, 5, O, PinKind::PortRRdData, Some(0)));
    pins.push(pin(0, 5, I, PinKind::Other, None));
    Netlist {
        pins,
        cells: vec![
            Cell { kind: CellKind::Other, pins: vec![0, 1, 2, 3, 4, 11] },
            Cell { kind: CellKind::Ram, pins: vec![5, 6, 7, 8, 9, 10] },
        ],
        roots: vec![0, 1, 2, 3, 4, 10],
        net_zero: None,
        net_one: None,
        one_pins: vec![],
    }
}

#[test]
fn memory_reads_before_it_writes() {
    let nl = memory();
    assert!(nl.check() && nl.check_cells());
    let clocks = nl.clock_ports().ok().unwrap();
    let order = nl.pin_order(&clocks).unwrap();
    let outs = nl.outputs(false);
    let mut map = InputMap::new();
    for k in 0..5 {
        map.insert(0, k, k);
    }
    let mut sim = Sim::new(&nl, outs.len());
    sim.advance(&nl, &clocks, &order, &outs, 0);
    // clock, read address 0, write address 0, enable, data 1: the inputs of the block
    // are those of the cycle before, so nothing is written yet
    sim.change(&clocks, &map, 0, b"10011");
    assert_eq!(sim.advance(&nl, &clocks, &order, &outs, 1), Some((0, vec![(0, false)])));
    sim.change(&clocks, &map, 0, b"10011");
    assert_eq!(sim.advance(&nl, &clocks, &order, &outs, 2), Some((1, vec![])));
    sim.change(&clocks, &map, 0, b"11000");
    assert_eq!(sim.advance(&nl, &clocks, &order, &outs, 3), Some((2, vec![(0, true)])));
    sim.change(&clocks, &map, 0, b"11000");
    assert_eq!(sim.advance(&nl, &clocks, &order, &outs, 4), Some((3, vec![(0, false)])));
}

#[test]
fn memory_ports_have_limited_widths() {
    let mut nl = memory();
    nl.pins[6].index = Some(13);
    assert!(!nl.check_cells());
    let mut nl = memory();
    nl.pins[9].index = Some(31);
    assert!(nl.check_cells());
    nl.pins[9].index = Some(-1);
    assert!(!nl.check_cells());
    nl.pins[9].index = None;
    assert!(!nl.check_cells());
}

#[test]
fn constant_nets_keep_their_values() {
    let mut nl = inverted_flop();
    nl.net_one = Some(0);
    nl.one_pins = vec![0, 3];
    let clocks = nl.clock_ports().ok().unwrap();
    let order = nl.pin_order(&clocks).unwrap();
    let mut state = vec![0u8; 8];
    state[3] = 1;
    state[4] = 1;
    nl.propagate(&mut state, &order.topo);
    assert_eq!(state, vec![0, 0, 0, 1, 0, 0, 0, 0]);
}
