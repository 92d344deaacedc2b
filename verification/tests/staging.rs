use gem::aig::{DriverType, EndpointGroup, AIG};
use gem::pe::Partition;
use gem::staging::{build_staged_aigs, StagedAIG};
use indexmap::IndexSet;

/// Pins 1 to 3 are ports, pin 4 is `1 & 2`, pin 5 is `4 & 3`, pin 6 is `5 & 1`.
fn chain() -> AIG {
    AIG {
        num_aigpins: 6,
        drivers: vec![
            DriverType::Tie0,
            DriverType::InputPort(0),
            DriverType::InputPort(1),
            DriverType::InputPort(2),
            DriverType::AndGate(2, 4),
            DriverType::AndGate(8, 6),
            DriverType::AndGate(10, 2),
        ],
        primary_outputs: vec![12, 8],
        dffs: vec![],
        srams: vec![],
    }
}

fn set(list: &[usize]) -> IndexSet<usize> {
    list.iter().copied().collect()
}

fn elements(s: &Option<IndexSet<usize>>) -> Option<Vec<usize>> {
    s.as_ref().map(|s| s.iter().copied().collect())
}

#[test]
fn full_aig_has_all_endpoints() {
    let staged = StagedAIG::from_full_aig(&chain());
    assert!(staged.primary_inputs.is_none());
    assert!(staged.primary_output_pins.is_empty());
    assert_eq!(staged.endpoints, vec![0, 1]);
    assert_eq!(staged.num_endpoint_groups(), 2);
    assert!(staged.check(&chain()));
}

#[test]
fn split_keeps_active_pins() {
    let aig = chain();
    let staged = StagedAIG::from_split(&aig, &set(&[0, 1]), None, 2);
    assert_eq!(staged.primary_output_pins, vec![1, 5]);
    assert_eq!(staged.endpoints, vec![1]);
    assert!(staged.primary_inputs.is_none());
}

#[test]
fn split_behind_everything_has_no_outputs() {
    let aig = chain();
    let staged = StagedAIG::from_split(&aig, &set(&[0, 1]), None, 3);
    assert!(staged.primary_output_pins.is_empty());
    assert_eq!(staged.endpoints, vec![0, 1]);
}

#[test]
fn split_at_zero_hands_inputs_on() {
    let aig = chain();
    let inputs = set(&[1, 5]);
    let staged = StagedAIG::from_split(&aig, &set(&[0]), Some(&inputs), 0);
    assert_eq!(staged.primary_output_pins, vec![5, 1]);
    assert!(staged.endpoints.is_empty());
    assert_eq!(elements(&staged.primary_inputs), Some(vec![1, 5]));
}

#[test]
fn split_without_endpoint_pins_takes_all_endpoints() {
    let mut aig = chain();
    aig.primary_outputs = vec![0, 1];
    let staged = StagedAIG::from_split(&aig, &set(&[1, 0]), None, 0);
    assert!(staged.primary_output_pins.is_empty());
    assert_eq!(staged.endpoints, vec![1, 0]);
}

#[test]
fn staged_aigs_follow_the_splits() {
    let aig = chain();
    let stages = build_staged_aigs(&aig, &[2]);
    assert_eq!(stages.len(), 2);
    assert_eq!((stages[0].0, stages[0].1), (0, 2));
    assert_eq!(stages[0].2.primary_output_pins, vec![1, 5]);
    assert_eq!(stages[0].2.endpoints, vec![1]);
    assert_eq!((stages[1].0, stages[1].1), (2, usize::MAX));
    assert_eq!(elements(&stages[1].2.primary_inputs), Some(vec![1, 5]));
    assert!(stages[1].2.primary_output_pins.is_empty());
    assert_eq!(stages[1].2.endpoints, vec![0]);
}

#[test]
fn staged_aigs_end_early() {
    let aig = chain();
    let stages = build_staged_aigs(&aig, &[10, 20]);
    assert_eq!(stages.len(), 1);
    assert_eq!((stages[0].0, stages[0].1), (0, usize::MAX));
    assert_eq!(stages[0].2.endpoints, vec![0, 1]);
    let stages = build_staged_aigs(&aig, &[]);
    assert_eq!(stages.len(), 1);
    assert_eq!((stages[0].0, stages[0].1), (0, usize::MAX));
}

#[test]
fn every_endpoint_is_fulfilled_once() {
    let aig = chain();
    for splits in [
        vec![0],
        vec![0, 0, 0],
        vec![1],
        vec![2],
        vec![1, 1],
        vec![1, 2],
        vec![2, 2],
        vec![1, 1, 2, 2, 2],
        vec![1, 2, 3],
        vec![3, 3],
    ] {
        let stages = build_staged_aigs(&aig, &splits);
        let mut all: Vec<usize> =
            stages.iter().flat_map(|s| s.2.endpoints.iter().copied()).collect();
        all.sort();
        assert_eq!(all, vec![0, 1]);
        for w in stages.windows(2) {
            assert_eq!(w[0].1, w[1].0);
        }
        assert_eq!(stages[stages.len() - 1].1, usize::MAX);
    }
}

#[test]
fn equal_levels_lose_no_endpoint() {
    let stages = build_staged_aigs(&chain(), &[2, 2]);
    assert_eq!(stages.len(), 3);
    assert_eq!((stages[1].0, stages[1].1), (2, 2));
    assert_eq!(stages[1].2.primary_output_pins, vec![5, 1]);
    assert!(stages[1].2.endpoints.is_empty());
    assert_eq!((stages[2].0, stages[2].1), (2, usize::MAX));
    assert_eq!(stages[2].2.endpoints, vec![0]);
    assert_eq!(elements(&stages[2].2.primary_inputs), Some(vec![1, 5]));
}

#[test]
fn stages_between_equal_levels_can_be_mapped() {
    let aig = chain();
    for (_, _, staged) in build_staged_aigs(&aig, &[1, 1, 2, 2]) {
        let all: Vec<usize> = (0..staged.num_endpoint_groups()).collect();
        assert!(!all.is_empty());
        let part = Partition::build_one(&aig, &staged, &all, 9).unwrap();
        assert_eq!(part.endpoints, all);
    }
}

#[test]
fn subset_keeps_positions() {
    let aig = chain();
    let staged = StagedAIG {
        primary_inputs: Some(set(&[2])),
        primary_output_pins: vec![4, 5],
        endpoints: vec![1, 0],
    };
    let sub = staged.to_endpoint_subset(&[1, 3, 2]);
    assert_eq!(sub.primary_output_pins, vec![5]);
    assert_eq!(sub.endpoints, vec![0, 1]);
    assert_eq!(elements(&sub.primary_inputs), Some(vec![2]));
    assert!(matches!(sub.get_endpoint_group(&aig, 0), EndpointGroup::StagedIOPin(5)));
    assert!(matches!(sub.get_endpoint_group(&aig, 1), EndpointGroup::PrimaryOutput(12)));
    assert!(matches!(sub.get_endpoint_group(&aig, 2), EndpointGroup::PrimaryOutput(8)));
}

#[test]
fn check_finds_wrong_indices() {
    let aig = chain();
    let good = |ins: &[usize], outs: Vec<usize>, eps: Vec<usize>| {
        StagedAIG { primary_inputs: Some(set(ins)), primary_output_pins: outs, endpoints: eps }
            .check(&aig)
    };
    assert!(good(&[6], vec![6], vec![1]));
    assert!(!good(&[7], vec![6], vec![1]));
    assert!(!good(&[6], vec![7], vec![1]));
    assert!(!good(&[6], vec![6], vec![2]));
}
