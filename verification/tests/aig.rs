use gem::aig::{DriverType, EndpointGroup, RAMBlock, AIG, DFF};
use indexmap::IndexSet;

/// Pins 1 to 3 are ports, pin 4 is `1 & 2`, pin 5 is `4 & !3`.
fn small() -> AIG {
    AIG {
        num_aigpins: 5,
        drivers: vec![
            DriverType::Tie0,
            DriverType::InputPort(0),
            DriverType::InputPort(1),
            DriverType::InputPort(2),
            DriverType::AndGate(2, 4),
            DriverType::AndGate(8, 7),
        ],
        primary_outputs: vec![10, 8],
        dffs: vec![DFF { d_iv: 11, en_iv: 1, q: 3 }],
        srams: vec![RAMBlock { input_ivs: vec![2, 0, 5, 2] }],
    }
}

#[test]
fn traversal_lists_inputs_first() {
    let aig = small();
    assert_eq!(aig.topo_traverse_generic(&vec![5], None), vec![1, 2, 4, 3, 5]);
    assert_eq!(aig.topo_traverse_generic(&vec![4, 5], None), vec![1, 2, 4, 3, 5]);
    assert_eq!(aig.topo_traverse_generic(&vec![], None), vec![]);
}

#[test]
fn traversal_stops_at_primary_inputs() {
    let aig = small();
    let stop: IndexSet<usize> = vec![4usize].into_iter().collect();
    assert_eq!(aig.topo_traverse_generic(&vec![5], Some(&stop)), vec![4, 3, 5]);
    assert_eq!(aig.topo_traverse_generic(&vec![4], Some(&stop)), vec![4]);
}

#[test]
fn endpoint_groups_come_in_order() {
    let aig = small();
    assert_eq!(aig.num_endpoint_groups(), 4);
    assert!(matches!(aig.get_endpoint_group(0), EndpointGroup::PrimaryOutput(10)));
    assert!(matches!(aig.get_endpoint_group(1), EndpointGroup::PrimaryOutput(8)));
    assert!(matches!(aig.get_endpoint_group(2), EndpointGroup::DFF(_)));
    assert!(matches!(aig.get_endpoint_group(3), EndpointGroup::RAMBlock(_)));
}

#[test]
fn endpoint_inputs_leave_constants_out() {
    let aig = small();
    assert_eq!(aig.get_endpoint_group(0).inputs(), vec![5]);
    assert_eq!(aig.get_endpoint_group(2).inputs(), vec![5]);
    assert_eq!(aig.get_endpoint_group(3).inputs(), vec![1, 2, 1]);
    assert_eq!(EndpointGroup::StagedIOPin(0).inputs(), vec![]);
    assert_eq!(EndpointGroup::StagedIOPin(3).inputs(), vec![3]);
    assert_eq!(EndpointGroup::PrimaryOutput(1).inputs(), vec![]);
}

#[test]
fn check_wants_gates_that_do_not_feed_themselves() {
    let mut aig = small();
    assert!(aig.check());
    aig.drivers[4] = DriverType::AndGate(2, 10);
    assert!(!aig.check());
    aig.drivers[4] = DriverType::AndGate(9, 2);
    assert!(!aig.check());
}

#[test]
fn check_takes_gates_before_their_inputs() {
    let mut aig = small();
    // pin 1 is `4 & !5`, pin 4 is `5 & 1'b1`, pin 5 is `2 & 3`
    aig.drivers[1] = DriverType::AndGate(8, 11);
    aig.drivers[4] = DriverType::AndGate(10, 1);
    aig.drivers[5] = DriverType::AndGate(4, 6);
    assert!(aig.check());
    assert_eq!(aig.topo_traverse_generic(&vec![1], None), vec![2, 3, 5, 4, 1]);
    aig.drivers[5] = DriverType::AndGate(4, 2);
    assert!(!aig.check());
}

#[test]
fn check_wants_literals_that_name_pins() {
    let mut aig = small();
    aig.drivers[5] = DriverType::AndGate(8, 12);
    assert!(!aig.check());
    let mut aig = small();
    aig.primary_outputs[0] = 12;
    assert!(!aig.check());
    let mut aig = small();
    aig.srams[0].input_ivs[1] = 13;
    assert!(!aig.check());
    let mut aig = small();
    aig.dffs[0].en_iv = 12;
    assert!(!aig.check());
    let mut aig = small();
    aig.num_aigpins = 4;
    assert!(!aig.check());
}

#[test]
fn depths_count_gates() {
    let aig = small();
    let order = aig.topo_traverse_generic(&vec![5], None);
    assert_eq!(aig.depths(&order, None), vec![0, 0, 1, 0, 2]);
    let stop: IndexSet<usize> = vec![4usize].into_iter().collect();
    let order = aig.topo_traverse_generic(&vec![5], Some(&stop));
    assert_eq!(aig.depths(&order, Some(&stop)), vec![0, 0, 1]);
}
