use gem::block::{
    draw_hashes, hash_of, record_hashes, simulate_block_v1, store_hashes, try_simulate_block_v1,
};
use gem::flow::model::{BitChange, FlowOutput, OutputSource};
use gem::flow::{count_active, input_layout, ActivityStats, Flow, FlowError, Script};
use gem::aig::{DriverType, AIG};
use gem::pe::{BoomerangStage, Partition};
use std::collections::HashMap;

/// A partition of one stage that writes one word; row 0 holds pin 3, row 1 pin 4.
fn part() -> Partition {
    let mut row0 = vec![usize::MAX; 8192];
    row0[0] = 3;
    let mut row1 = vec![usize::MAX; 4096];
    row1[0] = 4;
    Partition {
        endpoints: vec![0],
        stages: vec![BoomerangStage { hier: vec![row0, row1], write_outs: vec![128] }],
    }
}

/// The script of that partition: the output is bit 1 of the first word of the state, in
/// the lowest bit.
fn script() -> Vec<u32> {
    let mut s = vec![0u32; 256 + 512 + 3 * 5120];
    s[0] = 1;
    s[1] = 1;
    s[2] = 1;
    s[6] = 1;
    for i in 128..256 {
        s[i] = 0xffff_ffff;
    }
    // output 0 is word 128 of the hierarchy of stage 0
    s[128] = 0xffff_0080;
    // the two lowest bits of the first word of the state are read
    s[256] = 0;
    s[257] = 3;
    // bit 0 of row 0 is bit 0 of the inputs, which is bit 1 of the state
    let stage = 768;
    for k in 0..4096 {
        s[stage + k] = 0x0005_0005;
    }
    s[stage] = 0x0005_0000;
    // word 128 ignores its second input
    s[stage + 4096 + 128 * 4 + 2] = 0xffff_ffff;
    // all bits of the output are enabled
    let enable = stage + 2 * 5120;
    s[enable + 4096] = 0xffff_ffff;
    s[enable + 4096 + 1] = 0xffff_ffff;
    s
}

fn run(s: &[u32], input: u32) -> Option<(u32, Vec<u8>, Vec<(usize, Vec<u32>)>)> {
    let mut out = vec![7u32, 9];
    let mut sram = vec![];
    let mut pins = vec![255u8; 6];
    let log =
        try_simulate_block_v1(s, &[input, 5], &mut out, &mut sram, &[0], &[part()], &mut pins)?;
    assert_eq!(out[1], 9);
    Some((out[0], pins, log))
}

#[test]
fn empty_script_does_nothing() {
    let mut out = vec![1u32];
    let mut pins = vec![2u8];
    let log = try_simulate_block_v1(&[0; 256], &[0], &mut out, &mut [], &[], &[], &mut pins);
    assert_eq!(log.map(|l| l.len()), Some(0));
    assert_eq!(out, vec![1]);
    assert_eq!(pins, vec![2]);
}

#[test]
fn one_gate_is_evaluated() {
    let (out, pins, log) = run(&script(), 2).unwrap();
    assert_eq!(out, 1);
    assert_eq!(pins, vec![255, 255, 255, 1, 1, 255]);
    assert_eq!(log.len(), 1);
    assert_eq!(log[0].0, 0);
    assert_eq!(log[0].1[0], 1);
    assert!(log[0].1[1..].iter().all(|w| *w == 0));
    let (out, pins, log) = run(&script(), 1).unwrap();
    assert_eq!(out, 0);
    assert_eq!(pins, vec![255, 255, 255, 0, 0, 255]);
    assert_eq!(log[0].1[0], 2);
}

#[test]
fn inputs_and_outputs_can_be_inverted() {
    let mut s = script();
    s[768 + 4096 + 128 * 4] = 1;
    assert_eq!(run(&s, 2).unwrap().0, 0);
    // the second input is taken into account: it is 0
    let mut s = script();
    s[768 + 4096 + 128 * 4 + 2] = 0;
    assert_eq!(run(&s, 2).unwrap().0, 0);
    // unless it is inverted
    s[768 + 4096 + 128 * 4 + 1] = 0xffff_ffff;
    assert_eq!(run(&s, 2).unwrap().0, 1);
    // the output is inverted
    let mut s = script();
    let enable = 768 + 2 * 5120;
    s[enable + 4096 + 2] = 0xffff_ffff;
    assert_eq!(run(&s, 2).unwrap().0, 0xffff_fffe);
}

#[test]
fn disabled_outputs_keep_the_state() {
    let mut s = script();
    let enable = 768 + 2 * 5120;
    s[enable + 4096] = 0;
    assert_eq!(run(&s, 2).unwrap().0, 2);
    // only bit 0 is enabled
    s[enable + 4096] = 1;
    assert_eq!(run(&s, 2).unwrap().0, 3);
    // all bits are enabled by the lowest bit of the output
    s[enable + 4096] = 0;
    s[enable + 4096 + 1] = 0;
    assert_eq!(run(&s, 2).unwrap().0, 1);
    assert_eq!(run(&s, 5).unwrap().0, 5);
}

#[test]
fn reads_can_come_from_the_next_state() {
    let mut s = script();
    s[256] = 0x8000_0000;
    // the next state starts with 7, the current state with 0
    assert_eq!(run(&s, 0).unwrap().0, 1);
}

#[test]
fn wrong_scripts_are_refused() {
    assert!(run(&script()[..16000], 2).is_none());
    let mut long = script();
    long.push(0);
    assert!(run(&long, 2).is_none());
    // the number of stages of the partition
    let mut s = script();
    s[0] = 2;
    assert!(run(&s, 2).is_none());
    // the number of words that are written
    let mut s = script();
    s[2] = 2;
    assert!(run(&s, 2).is_none());
    // a read behind the state
    let mut s = script();
    s[256] = 2;
    assert!(run(&s, 2).is_none());
    // an output behind the outputs
    let mut s = script();
    s[128] = 0x0000_0080;
    assert!(run(&s, 2).is_none());
    // an input behind the inputs
    let mut s = script();
    s[768] = 0x0005_2000;
    assert!(run(&s, 2).is_none());
    // a state that is too short
    let mut s = script();
    s[3] = 2;
    assert!(run(&s, 2).is_none());
    // a memory block that is not there
    let mut s = script();
    s[2] = 2;
    s[4] = 1;
    assert!(run(&s, 2).is_none());
}

#[test]
fn memory_blocks_are_read_and_written() {
    let mut s = script();
    s[2] = 2;
    s[4] = 1;
    // the address bits are bit 5 of output 0, which is 0; one bit of enable and data is
    // forced to 1
    let sram_pos = 768 + 5120;
    for k in 0..4096 {
        s[sram_pos + k] = 0x0005_0005;
    }
    s[sram_pos + 4096] = 0x0003_0002;
    s[sram_pos + 4096 + 4] = 0x0000_00f0;
    s[sram_pos + 4096 + 8] = 0x0000_0050;
    let mut out = vec![0u32, 0];
    let mut sram = vec![0u32; 8192];
    sram[2] = 77;
    sram[3] = 0xffff_ffff;
    let mut pins = vec![255u8; 6];
    let log = try_simulate_block_v1(
        &s, &[2, 5], &mut out, &mut sram, &[0], &[part()], &mut pins,
    );
    assert!(log.is_some());
    assert_eq!(sram[2], 77);
    assert_eq!(sram[3], 0xffff_ff5f);
    // output 1 is the word that was read; its enable is output 0, all bits of it
    assert_eq!(out[1], 77);
    let mut short = vec![0u32; 8191];
    assert!(try_simulate_block_v1(
        &s, &[2, 5], &mut out, &mut short, &[0], &[part()], &mut pins,
    )
    .is_none());
}

#[test]
fn lowest_masked_bit_comes_first() {
    let mut s = vec![0u32; 16128];
    s[0] = 1;
    s[1] = 1;
    s[6] = 1;
    for i in 128..256 {
        s[i] = u32::MAX;
    }
    s[257] = 0b110;
    let part = Partition {
        endpoints: vec![],
        stages: vec![BoomerangStage { hier: vec![vec![]; 14], write_outs: vec![] }],
    };
    let mut hashes = vec![0u64];
    simulate_block_v1(&s, &[0b010], &mut [], &mut [], &[0], &[part], &mut [], &mut hashes);
    let mut v = vec![0u32; 256];
    v[0] = 0b10;
    assert_eq!(hashes[0], hash_of(&v));
}

#[test]
fn last_hash_of_a_partition_is_kept() {
    let log = vec![(1, vec![3]), (0, vec![4]), (1, vec![5])];
    let mut hashes = vec![9u64, 9, 9];
    assert!(record_hashes(&log, &mut hashes));
    assert_eq!(hashes, vec![hash_of(&vec![4u32]), hash_of(&vec![5u32]), 9]);
    assert_eq!(draw_hashes(&log)[0], hash_of(&vec![3u32]));
    let mut hashes = vec![9u64, 9, 9];
    assert!(store_hashes(&log, &vec![1, 2, 3], &mut hashes));
    assert_eq!(hashes, vec![2, 3, 9]);
    let mut hashes = vec![9u64];
    assert!(!store_hashes(&log, &vec![1, 2, 3], &mut hashes));
    assert_eq!(hashes, vec![9]);
}

#[test]
fn hashes_of_inputs_are_kept() {
    let mut out = vec![0u32];
    let mut pins = vec![255u8; 6];
    let mut hashes = vec![11u64, 12];
    simulate_block_v1(
        &script(), &[2], &mut out, &mut [], &[0], &[part()], &mut pins, &mut hashes,
    );
    let mut words = vec![0u32; 256];
    words[0] = 1;
    assert_eq!(hashes[0], hash_of(&words));
    assert_eq!(hashes[1], 12);
    assert_eq!(out, vec![1]);
    assert_ne!(hash_of(&words), hash_of(&vec![0u32; 256]));
    assert!(!record_hashes(&vec![(2, vec![])], &mut hashes));
    assert!(record_hashes(&vec![(1, vec![])], &mut hashes));
    assert_eq!(hashes[1], hash_of(&Vec::<u32>::new()));
}

fn graph() -> AIG {
    AIG {
        num_aigpins: 5,
        drivers: vec![
            DriverType::Tie0,
            DriverType::InputPort(0),
            DriverType::InputClockFlag(1, 0),
            DriverType::DFF(0),
            DriverType::AndGate(2, 4),
            DriverType::AndGate(2, 6),
        ],
        primary_outputs: vec![],
        dffs: vec![],
        srams: vec![],
    }
}

fn flow_script() -> Script {
    let data = script();
    let mut input_map = HashMap::new();
    input_map.insert(1, 33);
    input_map.insert(2, 1);
    let mut output_map = HashMap::new();
    output_map.insert(8, 0);
    Script {
        num_blocks: 1,
        num_major_stages: 1,
        blocks_start: vec![0, data.len()],
        blocks_data: data,
        reg_io_state_size: 2,
        sram_storage_size: 0,
        input_map,
        output_map,
        stages_blocks_parts: vec![vec![vec![0]]],
    }
}

#[test]
fn inputs_are_laid_out_in_order() {
    assert_eq!(input_layout(&graph()), vec![1, 2]);
}

#[test]
fn places_of_inputs_and_outputs() {
    let s = flow_script();
    let bit = s.input_bit(2, None).unwrap();
    assert_eq!((bit.pos, bit.posedge, bit.negedge), (33, None, None));
    let bit = s.input_bit(2, Some((2, usize::MAX))).unwrap();
    assert_eq!((bit.pos, bit.posedge, bit.negedge), (33, Some(1), None));
    assert!(s.input_bit(3, None).is_none());
    assert!(s.input_bit(6, None).is_none());
    assert!(s.input_bit(2, Some((2, 5))).is_none());
    let aig = graph();
    assert!(matches!(s.output_source(&aig, 2), OutputSource::PassThrough));
    assert!(matches!(s.output_source(&aig, 1), OutputSource::Recorded));
    assert!(matches!(s.output_source(&aig, 8), OutputSource::State(0)));
    assert!(matches!(s.output_source(&aig, 9), OutputSource::Unplaced));
}

#[test]
fn cycles_are_written_at_the_last_active_time() {
    let s = flow_script();
    let parts = vec![vec![part()]];
    let outs = vec![FlowOutput { iv: 8, pos: Some(0) }, FlowOutput { iv: 1, pos: None }];
    let flags = vec![1u32];
    let clock = s.input_bit(2, Some((2, usize::MAX))).unwrap();
    let mut f = Flow::new(&s, 6, 2);
    assert_eq!(f.recorded_value(1), 1);
    // nothing has happened before the first cycle, so nothing is written
    let r = f.advance(&s, &parts, &outs, &flags, false, 10).ok().unwrap();
    assert!(r.written.is_none());
    assert_eq!(r.log.unwrap()[0].1[0], 0);
    // the clock rises at 10
    f.change(&clock, b'1');
    let r = f.advance(&s, &parts, &outs, &flags, false, 20).ok().unwrap();
    assert_eq!(r.written, Some((0, vec![(0, true), (1, true)])));
    assert_eq!(r.log.unwrap()[0].1[0], 1);
    assert_eq!(f.recorded_value(8), 1);
    // it falls at 20, which has no flag
    f.change(&clock, b'0');
    let r = f.advance(&s, &parts, &outs, &flags, false, 30).ok().unwrap();
    assert!(r.written.is_none() && r.log.is_none());
    // a second time stamp of the same time does nothing
    let r = f.advance(&s, &parts, &outs, &flags, true, 30).ok().unwrap();
    assert!(r.written.is_none() && r.log.is_none());
    // it rises again
    f.change(&clock, b'1');
    f.change(&clock, b'1');
    let r = f.advance(&s, &parts, &outs, &flags, false, 40).ok().unwrap();
    assert_eq!(r.written, Some((10, vec![])));
}

#[test]
fn every_time_stamp_can_be_simulated() {
    let s = flow_script();
    let parts = vec![vec![part()]];
    let outs = vec![FlowOutput { iv: 8, pos: Some(0) }];
    let mut f = Flow::new(&s, 6, 1);
    f.advance(&s, &parts, &outs, &vec![], true, 1).ok().unwrap();
    let r = f.advance(&s, &parts, &outs, &vec![], true, 2).ok().unwrap();
    assert_eq!(r.written, Some((0, vec![(0, false)])));
    let r = f.advance(&s, &parts, &outs, &vec![], true, 3).ok().unwrap();
    assert_eq!(r.written, Some((1, vec![])));
}

#[test]
fn wrong_cycles_are_reported() {
    let parts = vec![vec![part()]];
    let mut s = flow_script();
    s.blocks_data[0] = 2;
    let mut f = Flow::new(&s, 6, 0);
    assert!(f.advance(&s, &parts, &vec![], &vec![], false, 1).err() == Some(FlowError::Script));
    let mut s = flow_script();
    s.blocks_start = vec![0];
    let mut f = Flow::new(&s, 6, 0);
    assert!(f.advance(&s, &parts, &vec![], &vec![], false, 1).err() == Some(FlowError::Script));
    // pin 3 is recorded as 0, and its inverse is not bit 0 of the state
    let s = flow_script();
    let outs = vec![FlowOutput { iv: 7, pos: Some(0) }];
    let mut f = Flow::new(&s, 6, 1);
    f.advance(&s, &parts, &outs, &vec![], true, 1).ok().unwrap();
    assert!(f.advance(&s, &parts, &outs, &vec![], true, 2).err() == Some(FlowError::Mismatch(0)));
}

#[test]
fn unknown_pins_are_not_written() {
    let s = flow_script();
    let parts = vec![vec![part()]];
    let outs = vec![FlowOutput { iv: 10, pos: None }, FlowOutput { iv: 10, pos: Some(2) }];
    let mut f = Flow::new(&s, 6, 2);
    f.advance(&s, &parts, &outs, &vec![], true, 1).ok().unwrap();
    let r = f.advance(&s, &parts, &outs, &vec![], true, 2).ok().unwrap();
    assert_eq!(r.written, Some((0, vec![(1, false)])));
    assert!(f.recorded_value(10) >= 2);
}

#[test]
fn inputs_change_at_the_next_time_stamp() {
    let s = flow_script();
    let parts = vec![vec![part()]];
    let outs = vec![FlowOutput { iv: 10, pos: Some(33) }];
    let bit = BitChange { pos: 33, posedge: None, negedge: None };
    let mut f = Flow::new(&s, 6, 1);
    f.change(&bit, b'1');
    f.change(&bit, b'1');
    f.advance(&s, &parts, &outs, &vec![], true, 1).ok().unwrap();
    let r = f.advance(&s, &parts, &outs, &vec![], true, 2).ok().unwrap();
    assert_eq!(r.written, Some((0, vec![(0, true)])));
}

#[test]
fn activity_is_counted() {
    assert_eq!(count_active(&vec![1, 2, 3], &vec![1, 0, 4]), 2);
    assert_eq!(count_active(&vec![], &vec![]), 0);
    let mut a = ActivityStats::new();
    assert!(a.record(4));
    assert!(a.record(2));
    assert_eq!((a.min, a.max, a.total, a.cycles), (2, 4, 6, 2));
    a.total = u64::MAX;
    assert!(!a.record(1));
    assert_eq!((a.total, a.cycles), (u64::MAX, 2));
}
