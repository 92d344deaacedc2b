//! Driving the execution of scripts by the events of a value change dump.
//!
//! Scripts propagate first and update then. To get the behaviour of a circuit that
//! updates first and propagates then, the outputs of a cycle belong to the last time
//! stamp at which something happened before.
pub mod laws;
pub mod model;

use crate::aig::{lit_pin, pin_of, DriverType, AIG};
use crate::block::{log_model, part_stages, try_simulate_block_v1};
use crate::block::phases::copy_words;
use crate::flow::model::{
    bit_value, block_run, block_there, changed_upto, cycle, cycle_upto, differing,
    first_mismatch, flag_pos, flags_cleared, has_bit, input_bit_spec, layout_upto, output_spec,
    output_value, outputs_ok, recorded, toggled, BitChange, CycleModel, FlowModel, FlowOutput,
    OutputSource, ScriptModel, NOT_WRITTEN, NO_VALUE, ONE,
};
use crate::pe::Partition;
use crate::pe::plan::StageModel;
use std::collections::HashMap;
use vstd::prelude::*;
use vstd::slice::slice_subrange;

verus! {

/// A script of all blocks.
pub struct Script {
    pub num_blocks: usize,
    pub num_major_stages: usize,
    /// Where the script of each block starts, those of the first stage first.
    pub blocks_start: Vec<usize>,
    pub blocks_data: Vec<u32>,
    /// The number of words of the state.
    pub reg_io_state_size: u32,
    /// The number of words of all memory blocks.
    pub sram_storage_size: u32,
    /// The places of inputs in the state, by pin.
    pub input_map: HashMap<usize, u32>,
    /// The places of outputs in the state, by literal.
    pub output_map: HashMap<usize, u32>,
    /// The partitions of each block, by stage and block.
    pub stages_blocks_parts: Vec<Vec<Vec<usize>>>,
}

/// The partitions of the blocks of a stage.
pub open spec fn index_lists(v: Seq<Vec<usize>>) -> Seq<Seq<usize>> {
    Seq::new(v.len(), |i: int| v[i]@)
}

/// The stages of the partitions of all stages.
pub open spec fn all_parts(parts: Seq<Vec<Partition>>) -> Seq<Seq<Seq<StageModel>>> {
    Seq::new(parts.len(), |i: int| part_stages(parts[i]@))
}

impl View for Script {
    type V = ScriptModel;

    open spec fn view(&self) -> ScriptModel {
        ScriptModel {
            num_blocks: self.num_blocks as nat,
            num_major_stages: self.num_major_stages as nat,
            starts: self.blocks_start@,
            data: self.blocks_data@,
            block_parts: Seq::new(
                self.stages_blocks_parts@.len(),
                |i: int| index_lists(self.stages_blocks_parts@[i]@),
            ),
        }
    }
}

/// The pins of a graph that are inputs, in order.
pub fn input_layout(aig: &AIG) -> (layout: Vec<usize>)
    ensures
        layout@ == layout_upto(aig.drivers@, aig.drivers@.len() as int),
{
    let mut layout: Vec<usize> = Vec::new();
    let mut k: usize = 0;
    while k < aig.drivers.len()
        invariant
            k <= aig.drivers@.len(),
            layout@ == layout_upto(aig.drivers@, k as int),
        decreases aig.drivers@.len() - k,
    {
        match aig.drivers[k] {
            DriverType::InputPort(_) => {
                layout.push(k);
            },
            DriverType::InputClockFlag(_, _) => {
                layout.push(k);
            },
            _ => {},
        }
        k += 1;
    }
    layout
}

impl Script {
    /// The place of the flag for an edge of a clock.
    fn find_flag(&self, pin: usize) -> (r: Option<Option<u32>>)
        ensures
            r == flag_pos(self.input_map@, pin),
    {
        broadcast use vstd::std_specs::hash::group_hash_axioms;

        if pin == usize::MAX {
            return Some(None);
        }
        match self.input_map.get(&pin) {
            Some(p) => Some(Some(*p)),
            None => None,
        }
    }

    /// Where the input with a literal stands in the state. Nothing if the literal is
    /// inverted, or one of the pins has no place.
    pub fn input_bit(&self, iv: usize, clock: Option<(usize, usize)>) -> (r: Option<BitChange>)
        ensures
            r == input_bit_spec(self.input_map@, iv, clock),
    {
        broadcast use vstd::std_specs::hash::group_hash_axioms;

        if iv % 2 != 0 {
            return None;
        }
        let pin = lit_pin(iv);
        let pos = match self.input_map.get(&pin) {
            Some(p) => *p,
            None => {
                return None;
            },
        };
        match clock {
            Some((pe, ne)) => match (self.find_flag(pe), self.find_flag(ne)) {
                (Some(posedge), Some(negedge)) => Some(BitChange { pos, posedge, negedge }),
                _ => None,
            },
            None => Some(BitChange { pos, posedge: None, negedge: None }),
        }
    }

    /// How the value of the output with a literal is found.
    pub fn output_source(&self, aig: &AIG, iv: usize) -> (r: OutputSource)
        requires
            pin_of(iv) < aig.drivers@.len(),
        ensures
            r == output_spec(aig.drivers@, self.output_map@, iv),
    {
        broadcast use vstd::std_specs::hash::group_hash_axioms;

        if let DriverType::InputPort(_) = aig.drivers[lit_pin(iv)] {
            return OutputSource::PassThrough;
        }
        if iv <= 1 {
            return OutputSource::Recorded;
        }
        match self.output_map.get(&iv) {
            Some(p) => OutputSource::State(*p),
            None => OutputSource::Unplaced,
        }
    }

    /// Runs all blocks. Returns the inputs of all partitions that were run; nothing if
    /// the script does not fit.
    fn run_cycle(
        &self,
        parts: &Vec<Vec<Partition>>,
        state: &Vec<u32>,
        next: &mut Vec<u32>,
        sram: &mut Vec<u32>,
        pins: &mut Vec<u8>,
    ) -> (r: Option<Vec<(usize, Vec<u32>)>>)
        requires
            old(next)@ == state@,
        ensures
            final(next)@.len() == old(next)@.len(),
            final(sram)@.len() == old(sram)@.len(),
            final(pins)@.len() == old(pins)@.len(),
            match cycle(self@, all_parts(parts@), state@, old(sram)@, old(pins)@) {
                Some(c) => {
                    &&& r matches Some(log) && log_model(log@) == c.log
                    &&& final(next)@ == c.output
                    &&& final(sram)@ == c.sram
                    &&& final(pins)@ == c.pins
                },
                None => r is None,
            },
    {
        let ghost m = self@;
        let ghost ps = all_parts(parts@);
        let ghost start = CycleModel {
            output: state@,
            sram: sram@,
            pins: pins@,
            log: Seq::empty(),
        };
        let ghost n = self.num_major_stages as int;
        let mut log: Vec<(usize, Vec<u32>)> = Vec::new();
        let mut s: usize = 0;
        assert(log_model(log@) =~= Seq::empty());
        while s < self.num_major_stages
            invariant
                s <= self.num_major_stages,
                n == self.num_major_stages,
                m == self@,
                ps == all_parts(parts@),
                next@.len() == old(next)@.len(),
                sram@.len() == old(sram)@.len(),
                pins@.len() == old(pins)@.len(),
                start == (CycleModel {
                    output: state@,
                    sram: old(sram)@,
                    pins: old(pins)@,
                    log: Seq::empty(),
                }),
                cycle_upto(m, ps, state@, start, s as int, 0) == Some(
                    CycleModel {
                        output: next@,
                        sram: sram@,
                        pins: pins@,
                        log: log_model(log@),
                    },
                ),
            decreases self.num_major_stages - s,
        {
            let mut b: usize = 0;
            while b < self.num_blocks
                invariant
                    b <= self.num_blocks,
                    s < self.num_major_stages,
                    n == self.num_major_stages,
                    m == self@,
                    ps == all_parts(parts@),
                    next@.len() == old(next)@.len(),
                    sram@.len() == old(sram)@.len(),
                    pins@.len() == old(pins)@.len(),
                    start == (CycleModel {
                        output: state@,
                        sram: old(sram)@,
                        pins: old(pins)@,
                        log: Seq::empty(),
                    }),
                    cycle_upto(m, ps, state@, start, s as int, b as int) == Some(
                        CycleModel {
                            output: next@,
                            sram: sram@,
                            pins: pins@,
                            log: log_model(log@),
                        },
                    ),
                decreases self.num_blocks - b,
            {
                let ghost before = log@;
                let ok = self.run_block(parts, state, next, sram, pins, s, b, &mut log);
                if !ok {
                    proof {
                        assert(cycle_upto(m, ps, state@, start, s as int, b + 1) is None);
                        lemma_cycle_none(m, ps, state@, start, s as int, b + 1, n);
                    }
                    return None;
                }
                b += 1;
            }
            assert(cycle_upto(m, ps, state@, start, s + 1, 0) == cycle_upto(
                m,
                ps,
                state@,
                start,
                s as int,
                m.num_blocks as int,
            ));
            s += 1;
        }
        Some(log)
    }

    /// Runs block `b` of stage `s`, and adds the inputs of its partitions to `log`.
    /// Returns whether the script fits.
    fn run_block(
        &self,
        parts: &Vec<Vec<Partition>>,
        state: &Vec<u32>,
        next: &mut Vec<u32>,
        sram: &mut Vec<u32>,
        pins: &mut Vec<u8>,
        s: usize,
        b: usize,
        log: &mut Vec<(usize, Vec<u32>)>,
    ) -> (ok: bool)
        ensures
            final(next)@.len() == old(next)@.len(),
            final(sram)@.len() == old(sram)@.len(),
            final(pins)@.len() == old(pins)@.len(),
            match block_run(
                self@,
                all_parts(parts@),
                state@,
                CycleModel {
                    output: old(next)@,
                    sram: old(sram)@,
                    pins: old(pins)@,
                    log: log_model(old(log)@),
                },
                s as int,
                b as int,
            ) {
                Some(c) => {
                    &&& ok
                    &&& c == (CycleModel {
                        output: final(next)@,
                        sram: final(sram)@,
                        pins: final(pins)@,
                        log: log_model(final(log)@),
                    })
                },
                None => !ok,
            },
    {
        let ghost m = self@;
        let ghost ps = all_parts(parts@);
        assert(s as int * self.num_blocks as int <= 0xffff_ffff_ffff_ffff * 0xffff_ffff_ffff_ffff)
            by (nonlinear_arith)
            requires
                0 <= s as int <= 0xffff_ffff_ffff_ffff,
                0 <= self.num_blocks as int <= 0xffff_ffff_ffff_ffff,
        ;
        let k = s as u128 * self.num_blocks as u128 + b as u128;
        if k + 1 >= self.blocks_start.len() as u128 {
            return false;
        }
        let k = k as usize;
        let from = self.blocks_start[k];
        let to = self.blocks_start[k + 1];
        if from > to || to > self.blocks_data.len() {
            return false;
        }
        if s >= self.stages_blocks_parts.len() || s >= parts.len() {
            return false;
        }
        assert(m.block_parts[s as int] == index_lists(self.stages_blocks_parts@[s as int]@));
        if b >= self.stages_blocks_parts[s].len() {
            return false;
        }
        assert(block_there(m, ps, s as int, b as int));
        assert(ps[s as int] == part_stages(parts@[s as int]@));
        let script = slice_subrange(self.blocks_data.as_slice(), from, to);
        let result = try_simulate_block_v1(
            script,
            state.as_slice(),
            next.as_mut_slice(),
            sram.as_mut_slice(),
            self.stages_blocks_parts[s][b].as_slice(),
            parts[s].as_slice(),
            pins.as_mut_slice(),
        );
        match result {
            Some(list) => {
                let mut list = list;
                let ghost before = log@;
                let ghost added = list@;
                log.append(&mut list);
                assert(log_model(log@) =~= log_model(before) + log_model(added));
                true
            },
            None => false,
        }
    }
}

/// If some block cannot be run, the cycle cannot.
proof fn lemma_cycle_none(
    m: ScriptModel,
    ps: Seq<Seq<Seq<StageModel>>>,
    state: Seq<u32>,
    c: CycleModel,
    s: int,
    b: int,
    n: int,
)
    requires
        cycle_upto(m, ps, state, c, s, b) is None,
        0 <= s < n,
        0 <= b <= m.num_blocks,
    ensures
        cycle_upto(m, ps, state, c, n, 0) is None,
    decreases n - s, m.num_blocks - b,
{
    if b < m.num_blocks {
        lemma_cycle_none(m, ps, state, c, s, b + 1, n);
    } else {
        assert(cycle_upto(m, ps, state, c, s + 1, 0) is None);
        if s + 1 < n {
            lemma_cycle_none(m, ps, state, c, s + 1, 0, n);
        }
    }
}

/// Counts the partitions whose inputs have changed.
pub fn count_active(now: &Vec<u64>, before: &Vec<u64>) -> (n: usize)
    requires
        now@.len() == before@.len(),
    ensures
        n == differing(now@, before@, now@.len() as int),
{
    let mut n: usize = 0;
    let mut k: usize = 0;
    while k < now.len()
        invariant
            k <= now@.len(),
            now@.len() == before@.len(),
            n == differing(now@, before@, k as int),
            n <= k,
        decreases now@.len() - k,
    {
        if now[k] != before[k] {
            n += 1;
        }
        k += 1;
    }
    n
}

/// How many partitions have seen events.
pub struct ActivityStats {
    pub min: usize,
    pub max: usize,
    /// The sum over all cycles.
    pub total: u64,
    pub cycles: u64,
}

impl ActivityStats {
    /// Before the first cycle.
    pub fn new() -> (s: ActivityStats)
        ensures
            s.min == usize::MAX,
            s.max == 0,
            s.total == 0,
            s.cycles == 0,
    {
        ActivityStats { min: usize::MAX, max: 0, total: 0, cycles: 0 }
    }

    /// Takes a cycle with `n` active partitions into account. Returns whether the
    /// counts are still machine words; they stay as they are otherwise.
    pub fn record(&mut self, n: usize) -> (ok: bool)
        ensures
            ok == (old(self).total + n <= u64::MAX && old(self).cycles < u64::MAX),
            ok ==> {
                &&& final(self).min == if n < old(self).min {
                    n
                } else {
                    old(self).min
                }
                &&& final(self).max == if n > old(self).max {
                    n
                } else {
                    old(self).max
                }
                &&& final(self).total == old(self).total + n
                &&& final(self).cycles == old(self).cycles + 1
            },
            !ok ==> *final(self) == *old(self),
    {
        if n as u64 > u64::MAX - self.total || self.cycles == u64::MAX {
            return false;
        }
        if n < self.min {
            self.min = n;
        }
        if n > self.max {
            self.max = n;
        }
        self.total = self.total + n as u64;
        self.cycles = self.cycles + 1;
        true
    }
}

/// A bit of a list of words.
fn read_bit(words: &Vec<u32>, pos: u32) -> (b: u32)
    requires
        has_bit(words@, pos),
    ensures
        b == bit_value(words@, pos),
        b <= 1,
{
    assert(pos & 31 < 32) by (bit_vector);
    let w = words[(pos >> 5) as usize];
    let k = pos & 31;
    assert((w >> k) & 1 <= 1) by (bit_vector);
    (w >> k) & 1
}

/// Clears the bits at the positions of a list.
fn clear_flags(words: &mut Vec<u32>, list: &Vec<u32>)
    requires
        forall|i: int| 0 <= i < list@.len() ==> has_bit(old(words)@, #[trigger] list@[i]),
    ensures
        final(words)@ == flags_cleared(old(words)@, list@, list@.len() as int),
        final(words)@.len() == old(words)@.len(),
{
    let ghost before = words@;
    let mut k: usize = 0;
    while k < list.len()
        invariant
            k <= list@.len(),
            words@.len() == before.len(),
            forall|i: int| 0 <= i < list@.len() ==> has_bit(before, #[trigger] list@[i]),
            words@ == flags_cleared(before, list@, k as int),
        decreases list@.len() - k,
    {
        let p = list[k];
        assert(has_bit(before, list@[k as int]));
        assert(p & 31 < 32) by (bit_vector);
        let w = words[(p >> 5) as usize];
        words.set((p >> 5) as usize, w & !(1u32 << (p & 31)));
        k += 1;
    }
}

/// Inverts the bits at the positions of a list.
fn toggle_bits(words: &mut Vec<u32>, list: &Vec<u32>)
    requires
        forall|i: int| 0 <= i < list@.len() ==> has_bit(old(words)@, #[trigger] list@[i]),
    ensures
        final(words)@ == toggled(old(words)@, list@, list@.len() as int),
        final(words)@.len() == old(words)@.len(),
{
    let ghost before = words@;
    let mut k: usize = 0;
    while k < list.len()
        invariant
            k <= list@.len(),
            words@.len() == before.len(),
            forall|i: int| 0 <= i < list@.len() ==> has_bit(before, #[trigger] list@[i]),
            words@ == toggled(before, list@, k as int),
        decreases list@.len() - k,
    {
        let p = list[k];
        assert(has_bit(before, list@[k as int]));
        assert(p & 31 < 32) by (bit_vector);
        let w = words[(p >> 5) as usize];
        words.set((p >> 5) as usize, w ^ (1u32 << (p & 31)));
        k += 1;
    }
}

/// Collects the outputs whose value differs from that last written. Returns the
/// position of the first output whose value in the state is not the recorded one, if there is
/// one.
fn collect_changes(
    pins: &Vec<u8>,
    state: &Vec<u32>,
    outs: &Vec<FlowOutput>,
    last: &mut Vec<u32>,
) -> (r: Result<Vec<(usize, bool)>, usize>)
    requires
        outputs_ok(pins@.len(), state@.len(), outs@),
        old(last)@.len() == outs@.len(),
    ensures
        final(last)@.len() == outs@.len(),
        match changed_upto(pins@, state@, outs@, old(last)@, outs@.len() as int) {
            Some((list, now)) => {
                &&& r matches Ok(v) && v@ == list
                &&& final(last)@ == now
            },
            None => r matches Err(i) && first_mismatch(pins@, state@, outs@, i as int),
        },
{
    let ghost before = last@;
    let mut list: Vec<(usize, bool)> = Vec::new();
    let mut k: usize = 0;
    while k < outs.len()
        invariant
            k <= outs@.len(),
            outputs_ok(pins@.len(), state@.len(), outs@),
            last@.len() == outs@.len(),
            before == old(last)@,
            changed_upto(pins@, state@, outs@, before, k as int) == Some((list@, last@)),
            forall|j: int|
                0 <= j < k ==> !(output_value(pins@, state@, #[trigger] outs@[j]) is Mismatch),
        decreases outs@.len() - k,
    {
        let out = &outs[k];
        assert(pin_of(outs@[k as int].iv) < pins@.len());
        let value = (pins[lit_pin(out.iv)] as u32) ^ ((out.iv % 2) as u32);
        let known = match out.pos {
            Some(pos) => {
                let bit = read_bit(state, pos);
                if value <= 1 && bit != value {
                    proof {
                        lemma_changed_none(pins@, state@, outs@, before, k + 1, outs@.len() as int);
                    }
                    return Err(k);
                }
                Some(bit)
            },
            None => if value >= 2 {
                None
            } else {
                Some(value)
            },
        };
        if let Some(v) = known {
            if v != last[k] {
                list.push((k, v == 1));
                last.set(k, v);
            }
        }
        k += 1;
    }
    Ok(list)
}

/// If the state and a recorded value differ, nothing is written.
proof fn lemma_changed_none(
    pins: Seq<u8>,
    state: Seq<u32>,
    outs: Seq<FlowOutput>,
    last: Seq<u32>,
    k: int,
    n: int,
)
    requires
        changed_upto(pins, state, outs, last, k) is None,
        0 <= k <= n,
    ensures
        changed_upto(pins, state, outs, last, n) is None,
    decreases n - k,
{
    if k < n {
        lemma_changed_none(pins, state, outs, last, k + 1, n);
    }
}

/// A simulation.
pub struct Flow {
    state: Vec<u32>,
    sram: Vec<u32>,
    pins: Vec<u8>,
    time: u64,
    last_active: u64,
    active: bool,
    delayed: Vec<u32>,
    last: Vec<u32>,
}

impl View for Flow {
    type V = FlowModel;

    closed spec fn view(&self) -> FlowModel {
        FlowModel {
            state: self.state@,
            sram: self.sram@,
            pins: self.pins@,
            time: self.time,
            last_active: self.last_active,
            active: self.active,
            delayed: self.delayed@,
            last: self.last@,
        }
    }
}

/// What has gone wrong in a cycle.
#[derive(PartialEq, Eq, Clone, Copy, Structural)]
pub enum FlowError {
    /// A word or a number in the script does not fit.
    Script,
    /// The state and the recorded value of an output differ.
    Mismatch(usize),
}

/// What has happened at a time stamp.
pub struct Report {
    /// The time and the outputs that are written.
    pub written: Option<(u64, Vec<(usize, bool)>)>,
    /// The inputs of the partitions that were run, if a cycle was.
    pub log: Option<Vec<(usize, Vec<u32>)>>,
}

impl Flow {
    /// A simulation before the first event: the state and all memory blocks are 0, of
    /// the pins only the constant is known, and a cycle is due.
    pub fn new(script: &Script, num_pins: usize, num_outputs: usize) -> (f: Flow)
        requires
            num_pins > 0,
        ensures
            f@.state == Seq::new(script.reg_io_state_size as nat, |i: int| 0u32),
            f@.sram == Seq::new(script.sram_storage_size as nat, |i: int| 0u32),
            f@.pins == Seq::new(
                num_pins as nat,
                |i: int|
                    if i == 0 {
                        0u8
                    } else {
                        NO_VALUE
                    },
            ),
            f@.time == 0,
            f@.last_active == u64::MAX,
            f@.active,
            f@.delayed == Seq::<u32>::empty(),
            f@.last == Seq::new(num_outputs as nat, |i: int| NOT_WRITTEN),
            f@.ok(num_outputs as nat),
    {
        let state: Vec<u32> = vec![0u32; script.reg_io_state_size as usize];
        let sram: Vec<u32> = vec![0u32; script.sram_storage_size as usize];
        let mut pins: Vec<u8> = vec![NO_VALUE; num_pins];
        pins.set(0, 0);
        let last: Vec<u32> = vec![NOT_WRITTEN; num_outputs];
        let f = Flow {
            state,
            sram,
            pins,
            time: 0,
            last_active: u64::MAX,
            active: true,
            delayed: Vec::new(),
            last,
        };
        assert(f@.state =~= Seq::new(script.reg_io_state_size as nat, |i: int| 0u32));
        assert(f@.sram =~= Seq::new(script.sram_storage_size as nat, |i: int| 0u32));
        assert(f@.pins =~= Seq::new(
            num_pins as nat,
            |i: int|
                if i == 0 {
                    0u8
                } else {
                    NO_VALUE
                },
        ));
        assert(f@.last =~= Seq::new(num_outputs as nat, |i: int| NOT_WRITTEN));
        assert(f@.delayed =~= Seq::<u32>::empty());
        f
    }

    /// The recorded value of a literal; 2 or more if it is not known.
    pub fn recorded_value(&self, iv: usize) -> (v: u32)
        requires
            pin_of(iv) < self@.pins.len(),
        ensures
            v == recorded(self@.pins, iv),
    {
        (self.pins[lit_pin(iv)] as u32) ^ ((iv % 2) as u32)
    }

    /// Gives an input the value of a character.
    pub fn change(&mut self, bit: &BitChange, b: u8)
        requires
            has_bit(old(self)@.state, bit.pos),
            bit.posedge matches Some(p) ==> has_bit(old(self)@.state, p),
            bit.negedge matches Some(p) ==> has_bit(old(self)@.state, p),
        ensures
            final(self)@ == old(self)@.changed(*bit, b),
            final(self)@.state.len() == old(self)@.state.len(),
            final(self)@.pins.len() == old(self)@.pins.len(),
            forall|outs: nat| #[trigger] old(self)@.ok(outs) ==> final(self)@.ok(outs),
    {
        let ghost start = self@;
        let old_value = read_bit(&self.state, bit.pos);
        let new_value: u32 = if b == ONE {
            1
        } else {
            0
        };
        if old_value == new_value {
            return ;
        }
        let flag = if old_value == 0 {
            bit.posedge
        } else {
            bit.negedge
        };
        if let Some(p) = flag {
            assert(p & 31 < 32) by (bit_vector);
            let w = self.state[(p >> 5) as usize];
            self.state.set((p >> 5) as usize, w | (1u32 << (p & 31)));
            self.active = true;
        }
        let mut k: usize = 0;
        let mut found = false;
        while k < self.delayed.len()
            invariant
                k <= self.delayed@.len(),
                found == self.delayed@.take(k as int).contains(bit.pos),
            decreases self.delayed@.len() - k,
        {
            proof {
                let s = self.delayed@.take(k as int);
                let t = self.delayed@.take(k + 1);
                assert(t =~= s.push(self.delayed@[k as int]));
                assert(t[k as int] == self.delayed@[k as int]);
                if s.contains(bit.pos) {
                    let i = s.index_of(bit.pos);
                    assert(t[i] == bit.pos);
                }
            }
            if self.delayed[k] == bit.pos {
                found = true;
            }
            k += 1;
        }
        assert(self.delayed@.take(self.delayed@.len() as int) =~= self.delayed@);
        if !found {
            self.delayed.push(bit.pos);
        }
        proof {
            assert forall|outs: nat| #[trigger] start.ok(outs) implies self@.ok(outs) by {
                assert forall|i: int| 0 <= i < self@.delayed.len() implies has_bit(
                    self@.state,
                    #[trigger] self@.delayed[i],
                ) by {
                    if i < start.delayed.len() {
                        assert(has_bit(start.state, start.delayed[i]));
                    }
                }
            }
        }
    }

    /// Goes on to a time stamp. If something has happened since the last one, a cycle
    /// is run, and the outputs that have changed are returned with their time. Then the
    /// inputs change. A cycle is due at the next time stamp in any case if `always` is
    /// set.
    pub fn advance(
        &mut self,
        script: &Script,
        parts: &Vec<Vec<Partition>>,
        outs: &Vec<FlowOutput>,
        flags: &Vec<u32>,
        always: bool,
        t: u64,
    ) -> (r: Result<Report, FlowError>)
        requires
            old(self)@.ok(outs@.len()),
            outputs_ok(old(self)@.pins.len(), old(self)@.state.len(), outs@),
            forall|i: int|
                0 <= i < flags@.len() ==> has_bit(old(self)@.state, #[trigger] flags@[i]),
        ensures
            match old(self)@.advanced(
                script@,
                all_parts(parts@),
                outs@,
                flags@,
                always,
                t,
            ) {
                Some((f, written)) => {
                    &&& final(self)@ == f
                    &&& final(self)@.ok(outs@.len())
                    &&& final(self)@.state.len() == old(self)@.state.len()
                    &&& final(self)@.pins.len() == old(self)@.pins.len()
                    &&& r matches Ok(report) && {
                        &&& match written {
                            Some((time, list)) => report.written matches Some((u, v)) && u == time
                                && v@ == list,
                            None => report.written is None,
                        }
                        &&& if t != old(self)@.time && old(self)@.active {
                            &&& report.log matches Some(log) && cycle(
                                script@,
                                all_parts(parts@),
                                old(self)@.state,
                                old(self)@.sram,
                                old(self)@.pins,
                            ) matches Some(c) && log_model(log@) == c.log
                        } else {
                            report.log is None
                        }
                    }
                },
                None => match r {
                    Ok(_) => false,
                    Err(FlowError::Script) => cycle(
                        script@,
                        all_parts(parts@),
                        old(self)@.state,
                        old(self)@.sram,
                        old(self)@.pins,
                    ) is None,
                    Err(FlowError::Mismatch(i)) => cycle(
                        script@,
                        all_parts(parts@),
                        old(self)@.state,
                        old(self)@.sram,
                        old(self)@.pins,
                    ) matches Some(c) && first_mismatch(c.pins, c.output, outs@, i as int),
                },
            },
    {
        if t == self.time {
            return Ok(Report { written: None, log: None });
        }
        let ghost start = self@;
        let mut written: Option<(u64, Vec<(usize, bool)>)> = None;
        let mut log: Option<Vec<(usize, Vec<u32>)>> = None;
        if self.active {
            let mut next = copy_words(&self.state);
            match script.run_cycle(
                parts,
                &self.state,
                &mut next,
                &mut self.sram,
                &mut self.pins,
            ) {
                Some(list) => {
                    log = Some(list);
                },
                None => {
                    return Err(FlowError::Script);
                },
            }
            self.state = next;
            if self.last_active != u64::MAX {
                match collect_changes(&self.pins, &self.state, outs, &mut self.last) {
                    Ok(list) => {
                        written = Some((self.last_active, list));
                    },
                    Err(i) => {
                        return Err(FlowError::Mismatch(i));
                    },
                }
                clear_flags(&mut self.state, flags);
            }
            self.last_active = self.time;
        }
        self.time = t;
        self.active = always;
        toggle_bits(&mut self.state, &self.delayed);
        self.delayed = Vec::new();
        assert(self.delayed@ =~= Seq::<u32>::empty());
        Ok(Report { written, log })
    }
}

} // verus!
