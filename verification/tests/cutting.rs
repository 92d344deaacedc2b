use gem::aig::{DriverType, RAMBlock, AIG};
use gem::pe::cutting::{run_par, Cutter};
use gem::sorting::{sort_numbers, sort_pairs, sort_triples};
use gem::staging::StagedAIG;

/// Pins 1 to 3 are ports, pin 4 is `1 & 2`, pin 5 is `4 & !3`.
fn small() -> AIG {
    AIG {
        num_aigpins: 5,
        drivers: vec![
            DriverType::Tie0,
            DriverType::InputPort(0),
            DriverType::InputPort(1),
            DriverType::InputPort(2),
            DriverType::AndGate(2, 4),
            DriverType::AndGate(8, 7),
        ],
        primary_outputs: vec![10, 8, 2],
        dffs: vec![],
        srams: vec![RAMBlock { input_ivs: vec![2] }, RAMBlock { input_ivs: vec![4] }],
    }
}

#[test]
fn vertices_are_grouped_by_part() {
    assert_eq!(run_par(4, 3, &vec![2, 0, 2, 0]), vec![vec![1, 3], vec![], vec![0, 2]]);
    assert_eq!(run_par(3, 1, &vec![]), vec![vec![0, 1, 2]]);
    assert_eq!(run_par(0, 1, &vec![]), vec![Vec::<usize>::new()]);
    assert_eq!(run_par(0, 0, &vec![]), Vec::<Vec<usize>>::new());
}

#[test]
fn parts_get_smaller_each_round() {
    let staged = StagedAIG {
        primary_inputs: None,
        primary_output_pins: vec![1; 700],
        endpoints: vec![],
    };
    let mut c = Cutter::new(&staged);
    assert_eq!(c.left.len(), 700);
    assert_eq!(c.division, 600);
    assert_eq!(c.next_parts(), Some(3));
    assert_eq!(c.division, 300);
    assert_eq!(c.next_parts(), Some(5));
    assert_eq!(c.division, 150);
    c.division = 1;
    assert_eq!(c.next_parts(), Some(700));
    assert_eq!(c.division, 1);
    c.left = vec![];
    assert_eq!(c.next_parts(), None);
    assert_eq!(c.division, 1);
}

#[test]
fn parts_that_cannot_be_mapped_are_left() {
    let aig = small();
    let staged = StagedAIG::from_full_aig(&aig);
    let mut c = Cutter::new(&staged);
    // a hierarchy of nine rows has room for one memory block, not for two
    assert!(c.take_parts(&aig, &staged, &vec![vec![4, 3], vec![0, 1], vec![2]], 9).is_ok());
    assert_eq!(c.good, vec![vec![0, 1], vec![2]]);
    assert_eq!(c.left, vec![3, 4]);
    assert!(c.take_parts(&aig, &staged, &vec![vec![1], vec![0]], 9).is_ok());
    assert_eq!(c.good, vec![vec![0, 1], vec![2], vec![4], vec![3]]);
    assert!(c.left.is_empty());
}

#[test]
fn a_single_endpoint_that_cannot_be_mapped_is_reported() {
    let aig = small();
    let staged = StagedAIG::from_full_aig(&aig);
    let mut c = Cutter::new(&staged);
    assert_eq!(c.take_parts(&aig, &staged, &vec![vec![0], vec![3], vec![4]], 6), Err(3));
}

#[test]
fn sorting_is_lexicographic() {
    let mut v = vec![(3u8, 0usize), (0, 64), (0, 32), (3, 1)];
    sort_pairs(&mut v);
    assert_eq!(v, vec![(0, 32), (0, 64), (3, 0), (3, 1)]);
    let mut v = vec![(1usize, 2usize, 3usize), (0, 9, 9), (1, 2, 1), (1, 0, 7)];
    sort_triples(&mut v);
    assert_eq!(v, vec![(0, 9, 9), (1, 0, 7), (1, 2, 1), (1, 2, 3)]);
    let mut v = vec![3, 1, 2, 1];
    sort_numbers(&mut v);
    assert_eq!(v, vec![1, 1, 2, 3]);
}
