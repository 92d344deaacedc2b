//! What the events of a dump do to the state of a circuit.
use crate::aig::{pin_of, DriverType};
use crate::block::model::{Block, Effects};
use crate::pe::plan::StageModel;
use vstd::prelude::*;

verus! {

/// The character of a bit that is set.
pub const ONE: u8 = 49;

/// A value of a pin that is not known.
pub const NO_VALUE: u8 = 255;

/// The value of an output that was not written yet.
pub const NOT_WRITTEN: u32 = 2;

/// Whether a position is one of a bit of a list of words.
pub open spec fn has_bit(words: Seq<u32>, pos: u32) -> bool {
    (pos >> 5) < words.len()
}

/// The bit at a position.
pub open spec fn bit_value(words: Seq<u32>, pos: u32) -> u32 {
    (words[(pos >> 5) as int] >> (pos & 31)) & 1
}

/// A list of words with the bit at a position set.
pub open spec fn with_bit(words: Seq<u32>, pos: u32) -> Seq<u32> {
    words.update((pos >> 5) as int, words[(pos >> 5) as int] | (1u32 << (pos & 31)))
}

/// A list of words with the bit at a position cleared.
pub open spec fn without_bit(words: Seq<u32>, pos: u32) -> Seq<u32> {
    words.update((pos >> 5) as int, words[(pos >> 5) as int] & !(1u32 << (pos & 31)))
}

/// A list of words with the bit at a position inverted.
pub open spec fn shifted(words: Seq<u32>, pos: u32) -> Seq<u32> {
    words.update((pos >> 5) as int, words[(pos >> 5) as int] ^ (1u32 << (pos & 31)))
}

/// A list of words with the bits at the first `k` positions of a list inverted.
pub open spec fn toggled(words: Seq<u32>, list: Seq<u32>, k: int) -> Seq<u32>
    decreases k,
{
    if k <= 0 {
        words
    } else {
        shifted(toggled(words, list, k - 1), list[k - 1])
    }
}

/// A list of words with the bits at the first `k` positions of a list cleared.
pub open spec fn flags_cleared(words: Seq<u32>, list: Seq<u32>, k: int) -> Seq<u32>
    decreases k,
{
    if k <= 0 {
        words
    } else {
        without_bit(flags_cleared(words, list, k - 1), list[k - 1])
    }
}

/// The pins below `k` that are inputs: ports and flags of clock edges.
pub open spec fn layout_upto(drivers: Seq<DriverType>, k: int) -> Seq<usize>
    decreases k,
{
    if k <= 0 {
        Seq::empty()
    } else {
        let before = layout_upto(drivers, k - 1);
        match drivers[k - 1] {
            DriverType::InputPort(_) | DriverType::InputClockFlag(_, _) => before.push(
                (k - 1) as usize,
            ),
            _ => before,
        }
    }
}

/// Where an input stands in the state: its bit, and the bits of the flags for its
/// rising and its falling edge, if it is a clock.
pub struct BitChange {
    pub pos: u32,
    pub posedge: Option<u32>,
    pub negedge: Option<u32>,
}

/// The position of the flag for an edge of a clock; an absent flag has none.
pub open spec fn flag_pos(map: Map<usize, u32>, pin: usize) -> Option<Option<u32>> {
    if pin == usize::MAX {
        Some(None)
    } else if map.contains_key(pin) {
        Some(Some(map[pin]))
    } else {
        None
    }
}

/// Where the input with a literal stands in the state. Nothing if the literal is
/// inverted, or one of the pins has no place.
pub open spec fn input_bit_spec(
    map: Map<usize, u32>,
    iv: usize,
    clock: Option<(usize, usize)>,
) -> Option<BitChange> {
    if iv % 2 != 0 || !map.contains_key(pin_of(iv)) {
        None
    } else {
        let pos = map[pin_of(iv)];
        match clock {
            Some((pe, ne)) => match (flag_pos(map, pe), flag_pos(map, ne)) {
                (Some(posedge), Some(negedge)) => Some(BitChange { pos, posedge, negedge }),
                _ => None,
            },
            None => Some(BitChange { pos, posedge: None, negedge: None }),
        }
    }
}

/// How the value of an output is found.
pub enum OutputSource {
    /// The output is an input port that is passed through, and not written.
    PassThrough,
    /// The value is the recorded one of the pin.
    Recorded,
    /// The value is a bit of the state.
    State(u32),
    /// The output has no place in the state.
    Unplaced,
}

/// How the value of the output with a literal is found.
pub open spec fn output_spec(
    drivers: Seq<DriverType>,
    map: Map<usize, u32>,
    iv: usize,
) -> OutputSource {
    if drivers[pin_of(iv) as int] is InputPort {
        OutputSource::PassThrough
    } else if iv <= 1 {
        OutputSource::Recorded
    } else if map.contains_key(iv) {
        OutputSource::State(map[iv])
    } else {
        OutputSource::Unplaced
    }
}

/// An output: its literal, and its place in the state if it has one.
pub struct FlowOutput {
    pub iv: usize,
    pub pos: Option<u32>,
}

/// What is written of an output.
pub enum OutputValue {
    /// The value is not known.
    Unknown,
    /// The value.
    Value(u32),
    /// The state and the recorded value of the pin differ.
    Mismatch,
}

/// The recorded value of a literal; 2 or more if it is not known.
pub open spec fn recorded(pins: Seq<u8>, iv: usize) -> u32 {
    (pins[pin_of(iv) as int] as u32) ^ ((iv % 2) as u32)
}

/// The value of an output.
pub open spec fn output_value(pins: Seq<u8>, state: Seq<u32>, out: FlowOutput) -> OutputValue {
    let r = recorded(pins, out.iv);
    match out.pos {
        None => if r >= 2 {
            OutputValue::Unknown
        } else {
            OutputValue::Value(r)
        },
        Some(pos) => if r <= 1 && bit_value(state, pos) != r {
            OutputValue::Mismatch
        } else {
            OutputValue::Value(bit_value(state, pos))
        },
    }
}

/// Whether the pins and places of all outputs exist.
pub open spec fn outputs_ok(pins: nat, state: nat, outs: Seq<FlowOutput>) -> bool {
    forall|i: int|
        0 <= i < outs.len() ==> {
            &&& pin_of((#[trigger] outs[i]).iv) < pins
            &&& outs[i].pos matches Some(pos) ==> (pos >> 5) < state
        }
}

/// What is written of the first `k` outputs, and their values as last written.
/// Nothing if the state and a recorded value differ.
pub open spec fn changed_upto(
    pins: Seq<u8>,
    state: Seq<u32>,
    outs: Seq<FlowOutput>,
    last: Seq<u32>,
    k: int,
) -> Option<(Seq<(usize, bool)>, Seq<u32>)>
    decreases k,
{
    if k <= 0 {
        Some((Seq::empty(), last))
    } else {
        match changed_upto(pins, state, outs, last, k - 1) {
            Some((list, now)) => match output_value(pins, state, outs[k - 1]) {
                OutputValue::Unknown => Some((list, now)),
                OutputValue::Mismatch => None,
                OutputValue::Value(v) => if v == now[k - 1] {
                    Some((list, now))
                } else {
                    Some((list.push(((k - 1) as usize, v == 1)), now.update(k - 1, v)))
                },
            },
            None => None,
        }
    }
}

/// Whether output `i` is the first whose value in the state is not the recorded one.
pub open spec fn first_mismatch(
    pins: Seq<u8>,
    state: Seq<u32>,
    outs: Seq<FlowOutput>,
    i: int,
) -> bool {
    &&& 0 <= i < outs.len()
    &&& output_value(pins, state, outs[i]) is Mismatch
    &&& forall|j: int| 0 <= j < i ==> !(output_value(pins, state, #[trigger] outs[j]) is Mismatch)
}

/// The number of the first `k` places at which two lists differ.
pub open spec fn differing(a: Seq<u64>, b: Seq<u64>, k: int) -> nat
    decreases k,
{
    if k <= 0 {
        0
    } else {
        differing(a, b, k - 1) + if a[k - 1] != b[k - 1] {
            1nat
        } else {
            0nat
        }
    }
}

/// A script of all blocks: those of the first stage first.
pub struct ScriptModel {
    pub num_blocks: nat,
    pub num_major_stages: nat,
    /// Where the script of each block starts; one more than there are blocks.
    pub starts: Seq<usize>,
    pub data: Seq<u32>,
    /// The partitions of each block, by stage and block.
    pub block_parts: Seq<Seq<Seq<usize>>>,
}

/// What a cycle changes.
pub struct CycleModel {
    pub output: Seq<u32>,
    pub sram: Seq<u32>,
    pub pins: Seq<u8>,
    /// The inputs of all partitions that were run, each with the index of its
    /// partition.
    pub log: Seq<(usize, Seq<u32>)>,
}

/// Whether the script of block `b` of stage `s` is there.
pub open spec fn block_there(m: ScriptModel, parts: Seq<Seq<Seq<StageModel>>>, s: int, b: int) -> bool {
    let k = s * m.num_blocks + b;
    &&& k + 1 < m.starts.len()
    &&& m.starts[k] <= m.starts[k + 1] <= m.data.len()
    &&& s < m.block_parts.len()
    &&& b < m.block_parts[s].len()
    &&& s < parts.len()
}

/// Running block `b` of stage `s`.
pub open spec fn block_run(
    m: ScriptModel,
    parts: Seq<Seq<Seq<StageModel>>>,
    state: Seq<u32>,
    c: CycleModel,
    s: int,
    b: int,
) -> Option<CycleModel> {
    let k = s * m.num_blocks + b;
    if !block_there(m, parts, s, b) {
        None
    } else {
        match (Block {
            script: m.data.subrange(m.starts[k] as int, m.starts[k + 1] as int),
            input: state,
            indices: m.block_parts[s][b],
            parts: parts[s],
        }).run(
            0,
            0,
            Effects { output: c.output, sram: c.sram, pins: c.pins, log: Seq::empty() },
        ) {
            Some(e) => Some(
                CycleModel { output: e.output, sram: e.sram, pins: e.pins, log: c.log + e.log },
            ),
            None => None,
        }
    }
}

/// Running the first `b` blocks of stage `s`, after all blocks of the stages before.
pub open spec fn cycle_upto(
    m: ScriptModel,
    parts: Seq<Seq<Seq<StageModel>>>,
    state: Seq<u32>,
    c: CycleModel,
    s: int,
    b: int,
) -> Option<CycleModel>
    decreases s, b,
{
    if b > 0 {
        match cycle_upto(m, parts, state, c, s, b - 1) {
            Some(d) => block_run(m, parts, state, d, s, b - 1),
            None => None,
        }
    } else if s > 0 {
        cycle_upto(m, parts, state, c, s - 1, m.num_blocks as int)
    } else {
        Some(c)
    }
}

/// Running all blocks.
pub open spec fn cycle(
    m: ScriptModel,
    parts: Seq<Seq<Seq<StageModel>>>,
    state: Seq<u32>,
    sram: Seq<u32>,
    pins: Seq<u8>,
) -> Option<CycleModel> {
    cycle_upto(
        m,
        parts,
        state,
        CycleModel { output: state, sram, pins, log: Seq::empty() },
        m.num_major_stages as int,
        0,
    )
}

/// The state of a simulation.
pub struct FlowModel {
    pub state: Seq<u32>,
    pub sram: Seq<u32>,
    /// The recorded values of pins.
    pub pins: Seq<u8>,
    /// The last time stamp.
    pub time: u64,
    /// The last time stamp before that at which something happened; the largest number
    /// if there was none.
    pub last_active: u64,
    /// Whether something has happened since the last time stamp.
    pub active: bool,
    /// The bits of inputs that change at the next time stamp.
    pub delayed: Seq<u32>,
    /// The values of the outputs as last written.
    pub last: Seq<u32>,
}

impl FlowModel {
    /// The simulation after an input has got the value of a character. The bit of the
    /// input changes at the next time stamp; the flag for the edge is set at once.
    pub open spec fn changed(self, bit: BitChange, b: u8) -> FlowModel {
        let old = bit_value(self.state, bit.pos);
        let new: u32 = if b == ONE {
            1
        } else {
            0
        };
        let flag = if old == 0 {
            bit.posedge
        } else {
            bit.negedge
        };
        if old == new {
            self
        } else {
            FlowModel {
                state: match flag {
                    Some(p) => with_bit(self.state, p),
                    None => self.state,
                },
                active: self.active || flag is Some,
                delayed: if self.delayed.contains(bit.pos) {
                    self.delayed
                } else {
                    self.delayed.push(bit.pos)
                },
                ..self
            }
        }
    }

    /// The simulation after a cycle, and what is written. Nothing if the script does
    /// not fit or the state and a recorded value differ.
    pub open spec fn cycled(
        self,
        m: ScriptModel,
        parts: Seq<Seq<Seq<StageModel>>>,
        outs: Seq<FlowOutput>,
        flags: Seq<u32>,
    ) -> Option<(FlowModel, Option<(u64, Seq<(usize, bool)>)>)> {
        match cycle(m, parts, self.state, self.sram, self.pins) {
            Some(c) => {
                let next = FlowModel {
                    state: c.output,
                    sram: c.sram,
                    pins: c.pins,
                    last_active: self.time,
                    ..self
                };
                if self.last_active == u64::MAX {
                    Some((next, None))
                } else {
                    match changed_upto(c.pins, c.output, outs, self.last, outs.len() as int) {
                        Some((list, last)) => Some(
                            (
                                FlowModel {
                                    state: flags_cleared(c.output, flags, flags.len() as int),
                                    last,
                                    ..next
                                },
                                Some((self.last_active, list)),
                            ),
                        ),
                        None => None,
                    }
                }
            },
            None => None,
        }
    }

    /// The simulation after a time stamp, and what is written: a cycle is run if
    /// something has happened, then the inputs change.
    pub open spec fn advanced(
        self,
        m: ScriptModel,
        parts: Seq<Seq<Seq<StageModel>>>,
        outs: Seq<FlowOutput>,
        flags: Seq<u32>,
        always: bool,
        t: u64,
    ) -> Option<(FlowModel, Option<(u64, Seq<(usize, bool)>)>)> {
        if t == self.time {
            Some((self, None))
        } else {
            match if self.active {
                self.cycled(m, parts, outs, flags)
            } else {
                Some((self, None))
            } {
                Some((f, written)) => Some(
                    (
                        FlowModel {
                            state: toggled(f.state, f.delayed, f.delayed.len() as int),
                            time: t,
                            active: always,
                            delayed: Seq::empty(),
                            ..f
                        },
                        written,
                    ),
                ),
                None => None,
            }
        }
    }

    /// Whether the places of all inputs that change exist, and there are as many
    /// outputs as given.
    pub open spec fn ok(self, outs: nat) -> bool {
        &&& self.last.len() == outs
        &&& forall|i: int| 0 <= i < self.delayed.len() ==> has_bit(self.state, #[trigger] self.delayed[i])
    }
}

} // verus!
