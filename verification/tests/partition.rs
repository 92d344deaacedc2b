use gem::aig::{DriverType, RAMBlock, AIG, DFF};
use gem::pe::partition::can_map;
use gem::pe::stage::{build_one_boomerang_stage, power_of_two, writeout_limit};
use gem::pe::{process_partitions, process_partitions_from_hgr_parts_file, Partition};
use gem::staging::StagedAIG;
use indexmap::IndexSet;

const FREE: usize = usize::MAX;

/// Pins 1 to 3 are ports, pin 4 is `1 & 2`, pin 5 is `4 & !3`.
fn small() -> AIG {
    AIG {
        num_aigpins: 5,
        drivers: vec![
            DriverType::Tie0,
            DriverType::InputPort(0),
            DriverType::InputPort(1),
            DriverType::InputPort(2),
            DriverType::AndGate(2, 4),
            DriverType::AndGate(8, 7),
        ],
        primary_outputs: vec![10, 8],
        dffs: vec![],
        srams: vec![],
    }
}

fn full(aig: &AIG) -> StagedAIG {
    StagedAIG::from_full_aig(aig)
}

fn list(s: &IndexSet<usize>) -> Vec<usize> {
    s.iter().copied().collect()
}

#[test]
fn powers_of_two() {
    assert_eq!(power_of_two(0), 1);
    assert_eq!(power_of_two(13), 8192);
    assert_eq!(writeout_limit(13), 256);
    assert_eq!(writeout_limit(5), 1);
}

#[test]
fn stage_places_gates_on_their_inputs() {
    let aig = small();
    let mut outs: IndexSet<usize> = vec![5usize].into_iter().collect();
    let mut avail: IndexSet<usize> = IndexSet::new();
    let mut total = 0;
    let stage = build_one_boomerang_stage(&aig, &mut outs, &mut avail, &mut total, 0, 6).unwrap();
    assert_eq!(stage.hier.iter().map(|r| r.len()).collect::<Vec<_>>(), vec![64, 32, 16, 8, 4, 2, 1]);
    assert_eq!(stage.hier[2][0], 5);
    assert_eq!(stage.hier[1][0], 4);
    assert_eq!(stage.hier[1][16], 3);
    assert_eq!(stage.hier[0][0], 1);
    assert_eq!(stage.hier[0][32], 2);
    assert_eq!(stage.hier[0][16], 3);
    let used: usize =
        stage.hier.iter().map(|r| r.iter().filter(|p| **p != FREE).count()).sum();
    assert_eq!(used, 6);
    assert_eq!(stage.write_outs, vec![1, 0]);
    assert_eq!(total, 2);
    assert!(outs.is_empty());
    assert_eq!(list(&avail), vec![3, 4, 5]);
}

#[test]
fn stage_stores_available_endpoints_together() {
    let aig = small();
    let mut outs: IndexSet<usize> = vec![5usize, 4].into_iter().collect();
    let mut avail: IndexSet<usize> = vec![5usize, 4].into_iter().collect();
    let mut total = 0;
    let stage = build_one_boomerang_stage(&aig, &mut outs, &mut avail, &mut total, 1, 6).unwrap();
    assert_eq!(stage.hier[1][0], 5);
    assert_eq!(stage.hier[1][1], 4);
    assert_eq!(stage.hier[0][0], 5);
    assert_eq!(stage.hier[0][1], 4);
    assert_eq!(stage.write_outs, vec![1]);
    assert_eq!(total, 1);
    assert!(outs.is_empty());
}

#[test]
fn stage_fails_when_words_are_exhausted() {
    let aig = small();
    let mut outs: IndexSet<usize> = vec![5usize].into_iter().collect();
    let mut avail: IndexSet<usize> = IndexSet::new();
    let mut total = 2;
    assert!(build_one_boomerang_stage(&aig, &mut outs, &mut avail, &mut total, 0, 6).is_none());
    assert_eq!(total, 3);
    assert_eq!(list(&outs), vec![5]);
    assert!(avail.is_empty());
}

/// A chain of eight gates, the last of which has a constant input.
#[test]
fn constant_inputs_above_the_rows_are_left() {
    let mut drivers =
        vec![DriverType::Tie0, DriverType::InputPort(0), DriverType::InputPort(1)];
    drivers.extend((3..10).map(|k| DriverType::AndGate(2 * (if k == 3 { 1 } else { k - 1 }), 4)));
    drivers.push(DriverType::AndGate(18, 1));
    let aig = AIG {
        num_aigpins: 10,
        drivers,
        primary_outputs: vec![20],
        dffs: vec![],
        srams: vec![],
    };
    assert!(aig.check());
    let mut outs: IndexSet<usize> = vec![10usize].into_iter().collect();
    let mut avail: IndexSet<usize> = IndexSet::new();
    let mut total = 0;
    let stage = build_one_boomerang_stage(&aig, &mut outs, &mut avail, &mut total, 0, 6).unwrap();
    assert_eq!(stage.hier[6][0], 8);
    assert_eq!(stage.hier[5], vec![7, 2]);
    assert!(stage.write_outs.is_empty());
    assert_eq!(total, 0);
    assert_eq!(list(&outs), vec![10]);
    assert!(avail.contains(&8) && !avail.contains(&9));
}

#[test]
fn partition_of_one_endpoint() {
    let aig = small();
    let part = Partition::build_one(&aig, &full(&aig), &[0], 6).unwrap();
    assert_eq!(part.endpoints, vec![0]);
    assert_eq!(part.stages.len(), 1);
    assert_eq!(part.stages[0].write_outs, vec![1, 0]);
}

#[test]
fn partition_of_two_endpoints_needs_two_stages() {
    let aig = small();
    let part = Partition::build_one(&aig, &full(&aig), &[0, 1], 6).unwrap();
    assert_eq!(part.endpoints, vec![0, 1]);
    assert_eq!(part.stages.len(), 2);
    assert_eq!(part.stages[0].write_outs, vec![1]);
    assert_eq!(part.stages[1].write_outs, vec![1]);
    assert_eq!(part.stages[1].hier[1][0], 5);
    assert_eq!(part.stages[1].hier[1][1], 4);
}

#[test]
fn partition_in_a_wide_hierarchy_needs_one_stage() {
    let aig = small();
    let part = Partition::build_one(&aig, &full(&aig), &[0, 1], 13).unwrap();
    assert_eq!(part.stages.len(), 1);
    assert_eq!(part.stages[0].hier[0].len(), 8192);
    // every group of row 1 is written out, the first ones by the room that they have
    assert_eq!(part.stages[0].write_outs.len(), 128 + 2);
    assert_eq!(part.stages[0].write_outs[0], (32 + 4096) / 32);
}

#[test]
fn partition_without_endpoints_has_no_stages() {
    let aig = small();
    let part = Partition::build_one(&aig, &full(&aig), &[], 13).unwrap();
    assert!(part.endpoints.is_empty());
    assert!(part.stages.is_empty());
}

#[test]
fn constant_endpoints_need_no_stages() {
    let mut aig = small();
    aig.primary_outputs = vec![0, 1];
    let part = Partition::build_one(&aig, &full(&aig), &[0, 1], 7).unwrap();
    assert!(part.stages.is_empty());
}

#[test]
fn memory_blocks_are_limited() {
    let mut aig = small();
    aig.srams = vec![
        RAMBlock { input_ivs: vec![2] },
        RAMBlock { input_ivs: vec![4] },
        RAMBlock { input_ivs: vec![6] },
    ];
    // one block takes five of 16 words, and all eight groups of row 1 are written out
    assert!(Partition::build_one(&aig, &full(&aig), &[2], 9).is_some());
    // two blocks take ten, which leaves no room for the groups
    assert!(Partition::build_one(&aig, &full(&aig), &[2, 3], 9).is_none());
    // four words are needed of two
    assert!(Partition::build_one(&aig, &full(&aig), &[2], 6).is_none());
    // three blocks need twelve words of eight
    assert!(Partition::build_one(&aig, &full(&aig), &[2, 3, 4], 8).is_none());
}

#[test]
fn outputs_under_different_conditions_are_stored_again() {
    let mut aig = small();
    aig.primary_outputs = vec![];
    aig.dffs = vec![
        DFF { d_iv: 8, en_iv: 1, q: 1 },
        DFF { d_iv: 8, en_iv: 1, q: 2 },
        DFF { d_iv: 9, en_iv: 1, q: 3 },
    ];
    // the same condition twice: nothing is reserved
    let same = Partition::build_one(&aig, &full(&aig), &[0, 1], 7).unwrap();
    assert_eq!(same.stages[0].write_outs, vec![2, 3]);
    // two conditions: one word is reserved and one is needed, which leaves no room for
    // the two groups of row 1
    assert!(Partition::build_one(&aig, &full(&aig), &[0, 2], 7).is_none());
    assert!(Partition::build_one(&aig, &full(&aig), &[0, 2], 8).is_some());
}

#[test]
fn merging_keeps_the_limit_on_stages() {
    let aig = small();
    let staged = full(&aig);
    let parts = process_partitions(&aig, &staged, vec![vec![0], vec![1]], 0, 6).unwrap();
    assert_eq!(parts.len(), 2);
    assert_eq!(parts[0].endpoints, vec![0]);
    assert_eq!(parts[1].endpoints, vec![1]);
    let parts = process_partitions(&aig, &staged, vec![vec![0], vec![1]], 1, 6).unwrap();
    assert_eq!(parts.len(), 1);
    assert_eq!(parts[0].endpoints, vec![0, 1]);
    assert_eq!(parts[0].stages.len(), 2);
}

#[test]
fn merging_skips_empty_parts() {
    let aig = small();
    let staged = full(&aig);
    let parts =
        process_partitions(&aig, &staged, vec![vec![], vec![1], vec![], vec![0]], 5, 13).unwrap();
    assert_eq!(parts.len(), 1);
    assert_eq!(parts[0].endpoints, vec![1, 0]);
}

#[test]
fn partitions_with_most_stages_come_first() {
    let aig = small();
    let staged = full(&aig);
    // part 1 needs two stages, parts 0 and 2 need one; merging is never possible
    let mut deep = small();
    deep.primary_outputs = vec![8, 10, 8, 4];
    let staged4 = full(&deep);
    let parts = process_partitions(&deep, &staged4, vec![vec![0], vec![1, 2]], 0, 6).unwrap();
    assert!(parts.windows(2).all(|w| w[0].stages.len() >= w[1].stages.len()));
    let mut all: Vec<usize> = parts.iter().flat_map(|p| p.endpoints.iter().copied()).collect();
    all.sort();
    assert_eq!(all, vec![0, 1, 2]);
    let parts = process_partitions(&aig, &staged, vec![vec![1], vec![0]], 0, 6).unwrap();
    assert_eq!(parts[0].endpoints, vec![1]);
    assert_eq!(parts[1].endpoints, vec![0]);
}

#[test]
fn a_part_that_cannot_be_built_stops_processing() {
    let mut aig = small();
    aig.srams = vec![RAMBlock { input_ivs: vec![2] }];
    let staged = full(&aig);
    assert!(process_partitions(&aig, &staged, vec![vec![0], vec![2]], 0, 6).is_none());
}

#[test]
fn parts_file_is_processed() {
    let aig = small();
    let staged = full(&aig);
    let parts =
        process_partitions_from_hgr_parts_file(&aig, &staged, b"1\n0\n", 0, 6).unwrap();
    assert_eq!(parts.len(), 2);
    assert_eq!(parts[0].endpoints, vec![1]);
    assert_eq!(parts[1].endpoints, vec![0]);
    let mut wide = small();
    wide.srams = vec![RAMBlock { input_ivs: vec![10; 60] }];
    let staged = full(&wide);
    assert!(process_partitions_from_hgr_parts_file(&wide, &staged, b"0\n0\n1\n", 0, 6).is_none());
}

#[test]
fn gates_with_constant_inputs_stand_on_available_pins() {
    let mut aig = small();
    // pin 4 is `1 & 1'b1`, pin 5 is `4 & 1'b1`
    aig.drivers[4] = DriverType::AndGate(2, 1);
    let staged = full(&aig);
    assert!(can_map(&aig, &staged, 0));
    assert!(can_map(&aig, &staged, 1));
    aig.drivers[5] = DriverType::AndGate(8, 1);
    assert!(!can_map(&aig, &staged, 0));
    assert!(can_map(&aig, &staged, 1));
    assert!(!can_map(&aig, &staged, 2));
}
