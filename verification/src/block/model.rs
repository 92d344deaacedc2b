//! What the script of one block computes.
//!
//! A script is a list of words. It consists of sections, one for each partition of
//! the block. A section starts with a header of 256 words. Reads follow, 512 words for
//! each round; then 5120 words for each stage, for the memory blocks and for the
//! outputs: 4096 words for a shuffle, 1024 words for flags.
use crate::pe::hier::FREE;
use crate::pe::plan::StageModel;
use vstd::arithmetic::power2::pow2;
use vstd::prelude::*;

verus! {

/// The number of words of a header.
pub const HEADER: usize = 256;

/// The number of words of the hierarchy of a stage, 32 slots each.
pub const WIDTH: usize = 256;

/// The number of words of a memory block.
pub const SRAM_SIZE: usize = 8192;

/// The bit with index `i` of a list of words, 32 bits each.
pub open spec fn bit_at(words: Seq<u32>, i: u32) -> u32 {
    (words[(i >> 5) as int] >> (i & 31)) & 1
}

/// The lower half of a word.
pub open spec fn low_half(t: u32) -> u32 {
    t & 0xffff
}

/// The upper half of a word.
pub open spec fn high_half(t: u32) -> u32 {
    t >> 16
}

/// The script word that tells where bits `2 * k` and `2 * k + 1` of result `i` of a
/// shuffle at `at` come from.
pub open spec fn shuffle_pos(at: int, i: int, k: int) -> int {
    at + (k / 4) * 1024 + i * 4 + k % 4
}

/// Bits 0 to `2 * k - 1` of result `i` of a shuffle.
pub open spec fn shuffled_upto(script: Seq<u32>, at: int, src: Seq<u32>, i: int, k: int) -> u32
    decreases k,
{
    if k <= 0 {
        0
    } else {
        let t = script[shuffle_pos(at, i, k - 1)];
        shuffled_upto(script, at, src, i, k - 1) | (bit_at(src, low_half(t)) << ((2 * (k - 1)) as u32))
            | (bit_at(src, high_half(t)) << ((2 * (k - 1) + 1) as u32))
    }
}

/// The results of a shuffle: each bit of each of them is a bit of `src`.
pub open spec fn shuffled(script: Seq<u32>, at: int, src: Seq<u32>, n: nat) -> Seq<u32> {
    Seq::new(n, |i: int| shuffled_upto(script, at, src, i, 16))
}

/// Whether the word for two bits of a result of a shuffle names bits of `src`.
pub open spec fn shuffle_word_ok(script: Seq<u32>, src: Seq<u32>, p: int) -> bool {
    &&& 0 <= p < script.len()
    &&& (low_half(script[p]) >> 5) < src.len()
    &&& (high_half(script[p]) >> 5) < src.len()
}

/// Whether all words of a shuffle are there and name bits of `src`.
pub open spec fn shuffle_ok(script: Seq<u32>, at: int, src: Seq<u32>, n: nat) -> bool {
    forall|i: int, k: int|
        0 <= i < n && 0 <= k < 16 ==> shuffle_word_ok(
            script,
            src,
            #[trigger] shuffle_pos(at, i, k),
        )
}

/// `cur`, shifted to make room for the bits of `value` at the ones of `mask`, lowest
/// first.
pub open spec fn picked(cur: u32, value: u32, mask: u32) -> u32
    decreases mask,
{
    if mask == 0 {
        cur
    } else {
        let rest = mask & ((mask - 1) as u32);
        let low = mask ^ rest;
        if rest < mask {
            picked(
                (cur << 1) | if value & low != 0 {
                    1
                } else {
                    0
                },
                value,
                rest,
            )
        } else {
            cur
        }
    }
}

/// The word of the state that an index of a read names: one of the next state if
/// its top bit is set, one of the current state otherwise.
pub open spec fn state_word(input: Seq<u32>, output: Seq<u32>, idx: u32) -> u32 {
    if idx >> 31 != 0 {
        output[(idx ^ 0x8000_0000) as int]
    } else {
        input[idx as int]
    }
}

/// Whether an index of a read names a word of the state.
pub open spec fn state_word_ok(input: Seq<u32>, output: Seq<u32>, idx: u32) -> bool {
    if idx >> 31 != 0 {
        (idx ^ 0x8000_0000) < output.len()
    } else {
        idx < input.len()
    }
}

/// Word `i` of the inputs of a partition after `r` rounds of reads.
pub open spec fn read_upto(
    script: Seq<u32>,
    at: int,
    input: Seq<u32>,
    output: Seq<u32>,
    i: int,
    r: int,
) -> u32
    decreases r,
{
    if r <= 0 {
        0
    } else {
        let p = at + (r - 1) * 512 + i * 2;
        let cur = read_upto(script, at, input, output, i, r - 1);
        if script[p + 1] == 0 {
            cur
        } else {
            picked(cur, state_word(input, output, script[p]), script[p + 1])
        }
    }
}

/// The inputs of a partition after `r` rounds of reads.
pub open spec fn inputs_read(
    script: Seq<u32>,
    at: int,
    input: Seq<u32>,
    output: Seq<u32>,
    r: int,
) -> Seq<u32> {
    Seq::new(WIDTH as nat, |i: int| read_upto(script, at, input, output, i, r))
}

/// Whether a read that is made names a word of the state.
pub open spec fn read_ok(
    script: Seq<u32>,
    input: Seq<u32>,
    output: Seq<u32>,
    p: int,
) -> bool {
    &&& 0 <= p
    &&& p + 1 < script.len()
    &&& script[p + 1] != 0 ==> state_word_ok(input, output, script[p])
}

/// Whether all reads of `r` rounds are there and name words of the state.
pub open spec fn reads_ok(
    script: Seq<u32>,
    at: int,
    input: Seq<u32>,
    output: Seq<u32>,
    r: int,
) -> bool {
    forall|t: int, i: int|
        0 <= t < r && 0 <= i < WIDTH ==> #[trigger] read_ok(
            script,
            input,
            output,
            at + t * 512 + i * 2,
        )
}

/// An and gate on 32 slots: either input can be inverted, and the second one can be
/// ignored.
pub open spec fn gate(a: u32, b: u32, xora: u32, xorb: u32, orb: u32) -> u32 {
    (a ^ xora) & ((b ^ xorb) | orb)
}

/// The and gates of word `p`, whose flags stand in a script from `flags` on.
pub open spec fn gate_at(script: Seq<u32>, flags: int, p: int, a: u32, b: u32) -> u32 {
    gate(a, b, script[flags + p * 4], script[flags + p * 4 + 1], script[flags + p * 4 + 2])
}

/// The words of a hierarchy after the rows up to `hi + 1`: word `p` of a row of `w`
/// words is computed from words `p` and `p + w` of the row below.
pub open spec fn rows_upto(script: Seq<u32>, flags: int, leaves: Seq<u32>, hi: int) -> Seq<u32>
    decreases hi,
{
    if hi <= 0 {
        Seq::new(
            WIDTH as nat,
            |p: int|
                if p >= 128 {
                    gate_at(script, flags, p, leaves[p - 128], leaves[p])
                } else {
                    leaves[p]
                },
        )
    } else {
        let prev = rows_upto(script, flags, leaves, hi - 1);
        let w = pow2((7 - hi) as nat) as int;
        Seq::new(
            WIDTH as nat,
            |p: int|
                if w <= p < 2 * w {
                    gate_at(script, flags, p, prev[p + w], prev[p + 2 * w])
                } else {
                    prev[p]
                },
        )
    }
}

/// The rows above those of whole words, in one word: from word `v`, the upper half
/// holds 16 slots, the next byte 8 slots, and so on.
pub open spec fn narrow_rows(v: u32, xora: u32, xorb: u32, orb: u32) -> u32 {
    let r8 = gate(v << 16, v, xora, xorb, orb) & 0xffff_0000;
    let r9 = gate(r8 >> 8, r8 >> 16, xora, xorb, orb) & 0xff00;
    let r10 = gate(r9 >> 4, r9 >> 8, xora, xorb, orb) & 0xf0;
    let r11 = gate(r10 >> 2, r10 >> 4, xora, xorb, orb) & 0xc;
    let r12 = gate(r11 >> 1, r11 >> 2, xora, xorb, orb) & 0x2;
    r8 | r9 | r10 | r11 | r12
}

/// The words of a hierarchy, computed from those of its row 0.
pub open spec fn hierarchy(script: Seq<u32>, flags: int, leaves: Seq<u32>) -> Seq<u32> {
    let words = rows_upto(script, flags, leaves, 7);
    words.update(
        0,
        narrow_rows(words[1], script[flags], script[flags + 1], script[flags + 2]),
    )
}

/// The recorded values of pins after those of the first `k` slots of a row, whose
/// bits start at `offset`.
pub open spec fn row_recorded(
    pins: Seq<u8>,
    row: Seq<usize>,
    words: Seq<u32>,
    offset: int,
    k: int,
) -> Seq<u8>
    decreases k,
{
    if k <= 0 {
        pins
    } else {
        let prev = row_recorded(pins, row, words, offset, k - 1);
        if row[k - 1] == FREE {
            prev
        } else {
            prev.update(
                row[k - 1] as int,
                ((words[(offset + k - 1) / 32] >> (((offset + k - 1) % 32) as u32)) & 1) as u8,
            )
        }
    }
}

/// Whether all pins of a row can be recorded.
pub open spec fn row_ok(pins: nat, row: Seq<usize>, offset: int) -> bool {
    forall|k: int|
        0 <= k < row.len() && #[trigger] row[k] != FREE ==> row[k] < pins && offset + k < 32
            * WIDTH
}

/// The recorded values of pins after those of rows 1 up to, not including, `hi`.
pub open spec fn rows_recorded(
    pins: Seq<u8>,
    hier: Seq<Seq<usize>>,
    words: Seq<u32>,
    hi: int,
) -> Seq<u8>
    decreases hi,
{
    if hi <= 1 {
        pins
    } else {
        let row = hier[hi - 1];
        row_recorded(
            rows_recorded(pins, hier, words, hi - 1),
            row,
            words,
            row.len() as int,
            row.len() as int,
        )
    }
}

/// The hook of word `i` of the outputs: the stage, and the word of its hierarchy,
/// that it is taken from.
pub open spec fn hook(script: Seq<u32>, header: int, i: int) -> u32 {
    let t = script[header + 128 + i / 2];
    if i % 2 == 0 {
        low_half(t)
    } else {
        high_half(t)
    }
}

/// The outputs after stage `b`, whose hierarchy is `words`.
pub open spec fn hooked(
    script: Seq<u32>,
    header: int,
    outs: Seq<u32>,
    words: Seq<u32>,
    b: int,
) -> Seq<u32> {
    Seq::new(
        outs.len(),
        |i: int|
            if i < WIDTH && hook(script, header, i) >> 8 == b {
                words[(hook(script, header, i) & 255) as int]
            } else {
                outs[i]
            },
    )
}

/// Whether all hooks of stage `b` are hooks of outputs.
pub open spec fn hooks_ok(script: Seq<u32>, header: int, outs: nat, b: int) -> bool {
    forall|i: int|
        0 <= i < WIDTH && #[trigger] hook(script, header, i) >> 8 == b ==> i < outs
}

/// A header of a section.
pub struct Header {
    pub num_stages: u32,
    pub is_last: bool,
    pub num_ios: u32,
    pub io_offset: u32,
    pub num_srams: u32,
    pub sram_offset: u32,
    pub num_rounds: u32,
    pub num_dups: u32,
}

/// The header at a position of a script.
pub open spec fn header_at(script: Seq<u32>, at: int) -> Header {
    Header {
        num_stages: script[at],
        is_last: script[at + 1] != 0,
        num_ios: script[at + 2],
        io_offset: script[at + 3],
        num_srams: script[at + 4],
        sram_offset: script[at + 5],
        num_rounds: script[at + 6],
        num_dups: script[at + 7],
    }
}

/// What a partition has computed so far.
pub struct Stages {
    /// The words of the last hierarchy, or the inputs before the first stage.
    pub words: Seq<u32>,
    /// The outputs.
    pub outs: Seq<u32>,
    /// The recorded values of pins.
    pub pins: Seq<u8>,
}

/// Where the script of stage `b` starts, in a section with its header at `at`.
pub open spec fn stage_pos(script: Seq<u32>, at: int, b: int) -> int {
    at + HEADER + script[at + 6] * 512 + b * 5120
}

/// Stage `b` of a section.
pub open spec fn stage_run(
    script: Seq<u32>,
    at: int,
    stage: StageModel,
    num_stages: int,
    b: int,
    s: Stages,
) -> Stages {
    let pos = stage_pos(script, at, b);
    let leaves = shuffled(script, pos, s.words, WIDTH as nat);
    let words = hierarchy(script, pos + 4096, leaves);
    let first = row_recorded(s.pins, stage.hier[0], leaves, 0, stage.hier[0].len() as int);
    Stages {
        words,
        outs: hooked(script, at, s.outs, words, b),
        pins: rows_recorded(first, stage.hier, words, num_stages + 1),
    }
}

/// Whether stage `b` of a section can be run.
pub open spec fn stage_ok(
    script: Seq<u32>,
    at: int,
    stage: StageModel,
    num_stages: int,
    b: int,
    s: Stages,
) -> bool {
    let pos = stage_pos(script, at, b);
    &&& shuffle_ok(script, pos, s.words, WIDTH as nat)
    &&& pos + 4096 + 1023 <= script.len()
    &&& stage.hier.len() > num_stages
    &&& row_ok(s.pins.len(), stage.hier[0], 0)
    &&& forall|hi: int|
        1 <= hi <= num_stages ==> row_ok(
            s.pins.len(),
            #[trigger] stage.hier[hi],
            stage.hier[hi].len() as int,
        )
    &&& hooks_ok(script, at, s.outs.len(), b)
}

/// The state after the first `b` stages of a section.
pub open spec fn stages_run(
    script: Seq<u32>,
    at: int,
    stages: Seq<StageModel>,
    s: Stages,
    b: int,
) -> Stages
    decreases b,
{
    if b <= 0 {
        s
    } else {
        stage_run(
            script,
            at,
            stages[b - 1],
            stages.len() as int,
            b - 1,
            stages_run(script, at, stages, s, b - 1),
        )
    }
}

/// Whether the first `b` stages of a section can be run.
pub open spec fn stages_ok(
    script: Seq<u32>,
    at: int,
    stages: Seq<StageModel>,
    s: Stages,
    b: int,
) -> bool
    decreases b,
{
    b <= 0 || {
        &&& stages_ok(script, at, stages, s, b - 1)
        &&& stage_ok(
            script,
            at,
            stages[b - 1],
            stages.len() as int,
            b - 1,
            stages_run(script, at, stages, s, b - 1),
        )
    }
}

/// `words`, forced to zero and then inverted as the flags from `flags` on say.
pub open spec fn masked(script: Seq<u32>, flags: int, words: Seq<u32>) -> Seq<u32> {
    Seq::new(
        words.len(),
        |i: int| (words[i] & !script[flags + i * 4 + 1]) ^ script[flags + i * 4],
    )
}

/// The memory and the outputs.
pub struct Memory {
    pub sram: Seq<u32>,
    pub outs: Seq<u32>,
}

/// Access number `i` to the memory blocks: a word is read, and another one is written
/// where the enable bits are set.
pub open spec fn accessed(h: Header, perm: Seq<u32>, m: Memory, i: int) -> Memory {
    let base = h.sram_offset + i * 8192;
    let r = base + low_half(perm[i * 4]);
    let w = base + high_half(perm[i * 4]);
    let en = perm[i * 4 + 1];
    let data = perm[i * 4 + 2];
    Memory {
        outs: m.outs.update(h.num_ios - h.num_srams + i, m.sram[r]),
        sram: m.sram.update(w, (m.sram[w] & !en) | (data & en)),
    }
}

/// The first `k` accesses to the memory blocks.
pub open spec fn accesses(h: Header, perm: Seq<u32>, m: Memory, k: int) -> Memory
    decreases k,
{
    if k <= 0 {
        m
    } else {
        accessed(h, perm, accesses(h, perm, m, k - 1), k - 1)
    }
}

/// Whether an access stays within its memory block, and the block within the memory.
pub open spec fn access_ok(h: Header, perm: Seq<u32>, sram: nat, i: int) -> bool {
    &&& h.sram_offset + (i + 1) * 8192 <= sram
    &&& low_half(perm[i * 4]) < SRAM_SIZE
    &&& high_half(perm[i * 4]) < SRAM_SIZE
}

/// `outs` with the outputs that are stored once more put in front of those of the
/// memory blocks.
pub open spec fn duplicated(h: Header, outs: Seq<u32>, perm: Seq<u32>) -> Seq<u32> {
    let first = h.num_ios - h.num_srams - h.num_dups;
    Seq::new(
        outs.len(),
        |i: int|
            if first <= i < first + h.num_dups {
                perm[h.num_srams * 4 + (i - first)]
            } else {
                outs[i]
            },
    )
}

/// The next state after outputs are stored: of each word, the bits whose clock enable
/// is set are taken over, the others are those of the current state.
pub open spec fn stored(
    script: Seq<u32>,
    flags: int,
    h: Header,
    input: Seq<u32>,
    output: Seq<u32>,
    outs: Seq<u32>,
    enable: Seq<u32>,
) -> Seq<u32> {
    Seq::new(
        output.len(),
        |p: int|
            if h.io_offset <= p < h.io_offset + h.num_ios {
                let i = p - h.io_offset;
                (input[p] & !enable[i]) | ((outs[i] ^ script[flags + i * 4 + 2]) & enable[i])
            } else {
                output[p]
            },
    )
}

/// What a block changes.
pub struct Effects {
    /// The next state.
    pub output: Seq<u32>,
    /// The memory blocks.
    pub sram: Seq<u32>,
    /// The recorded values of pins.
    pub pins: Seq<u8>,
    /// The inputs of the partitions that were run, each with the index of its
    /// partition.
    pub log: Seq<(usize, Seq<u32>)>,
}

/// A block: its script, the current state, and its partitions.
pub struct Block {
    pub script: Seq<u32>,
    pub input: Seq<u32>,
    /// The partitions, by number in the block.
    pub indices: Seq<usize>,
    /// The stages of all partitions.
    pub parts: Seq<Seq<StageModel>>,
}

/// The number of words that stages write out.
pub open spec fn words_out(stages: Seq<StageModel>, k: int) -> nat
    decreases k,
{
    if k <= 0 {
        0
    } else {
        words_out(stages, k - 1) + stages[k - 1].write_outs.len()
    }
}

impl Block {
    /// The header at a position.
    pub open spec fn header(self, at: int) -> Header {
        header_at(self.script, at)
    }

    /// The stages of partition `n` of the block.
    pub open spec fn stages(self, n: int) -> Seq<StageModel> {
        self.parts[self.indices[n] as int]
    }

    /// The inputs of the partition with its header at `at`.
    pub open spec fn inputs(self, at: int, e: Effects) -> Seq<u32> {
        inputs_read(
            self.script,
            at + HEADER,
            self.input,
            e.output,
            self.header(at).num_rounds as int,
        )
    }

    /// The state of partition `n`, with its header at `at`, before its first stage.
    pub open spec fn before_stages(self, at: int, e: Effects) -> Stages {
        Stages {
            words: self.inputs(at, e),
            outs: Seq::new(self.header(at).num_ios as nat, |i: int| 0u32),
            pins: e.pins,
        }
    }

    /// The state of partition `n`, with its header at `at`, after its last stage.
    pub open spec fn after_stages(self, at: int, n: int, e: Effects) -> Stages {
        stages_run(
            self.script,
            at,
            self.stages(n),
            self.before_stages(at, e),
            self.header(at).num_stages as int,
        )
    }

    /// Where the shuffle for the memory blocks starts.
    pub open spec fn sram_pos(self, at: int) -> int {
        stage_pos(self.script, at, self.header(at).num_stages as int)
    }

    /// The number of words that memory blocks and outputs stored once more need.
    pub open spec fn num_perm(self, at: int) -> nat {
        (self.header(at).num_srams * 4 + self.header(at).num_dups) as nat
    }

    /// The words for memory blocks and for outputs that are stored once more.
    pub open spec fn perm(self, at: int, outs: Seq<u32>) -> Seq<u32> {
        masked(
            self.script,
            self.sram_pos(at) + 4096,
            shuffled(self.script, self.sram_pos(at), outs, self.num_perm(at)),
        )
    }

    /// The memory blocks and outputs after all accesses.
    pub open spec fn memory(self, at: int, n: int, e: Effects) -> Memory {
        let outs = self.after_stages(at, n, e).outs;
        accesses(
            self.header(at),
            self.perm(at, outs),
            Memory { sram: e.sram, outs },
            self.header(at).num_srams as int,
        )
    }

    /// The outputs of partition `n`, with those of the memory blocks and those that
    /// are stored once more.
    pub open spec fn outputs(self, at: int, n: int, e: Effects) -> Seq<u32> {
        duplicated(
            self.header(at),
            self.memory(at, n, e).outs,
            self.perm(at, self.after_stages(at, n, e).outs),
        )
    }

    /// The clock enables of the outputs.
    pub open spec fn enables(self, at: int, outs: Seq<u32>) -> Seq<u32> {
        let pos = self.sram_pos(at) + 5120;
        masked(
            self.script,
            pos + 4096,
            shuffled(self.script, pos, outs, self.header(at).num_ios as nat),
        )
    }

    /// What has changed after partition `n`, with its header at `at`.
    pub open spec fn part_run(self, at: int, n: int, e: Effects) -> Effects {
        let outs = self.outputs(at, n, e);
        Effects {
            output: stored(
                self.script,
                self.sram_pos(at) + 9216,
                self.header(at),
                self.input,
                e.output,
                outs,
                self.enables(at, outs),
            ),
            sram: self.memory(at, n, e).sram,
            pins: self.after_stages(at, n, e).pins,
            log: e.log.push((self.indices[n], self.inputs(at, e))),
        }
    }

    /// Whether the header at `at` fits partition `n`, and the sizes that it gives are
    /// machine words.
    pub open spec fn header_ok(self, at: int, n: int) -> bool {
        let h = self.header(at);
        &&& n < self.indices.len()
        &&& self.indices[n] < self.parts.len()
        &&& self.stages(n).len() == h.num_stages
        &&& h.num_srams + h.num_dups <= h.num_ios
        &&& words_out(self.stages(n), self.stages(n).len() as int) == h.num_ios - h.num_srams
            - h.num_dups
        &&& h.num_srams * 4 + h.num_dups <= 0x4000_0000
        &&& h.num_ios <= 0x4000_0000
        &&& h.io_offset + h.num_ios <= 0x1_0000_0000
    }

    /// Whether partition `n`, with its header at `at`, can be run.
    pub open spec fn part_ok(self, at: int, n: int, e: Effects) -> bool {
        let h = self.header(at);
        let after = self.after_stages(at, n, e);
        let perm = self.perm(at, after.outs);
        let pos = self.sram_pos(at) + 5120;
        &&& self.header_ok(at, n)
        &&& reads_ok(self.script, at + HEADER, self.input, e.output, h.num_rounds as int)
        &&& stages_ok(
            self.script,
            at,
            self.stages(n),
            self.before_stages(at, e),
            h.num_stages as int,
        )
        &&& shuffle_ok(self.script, self.sram_pos(at), after.outs, self.num_perm(at))
        &&& flags_ok(self.script, self.sram_pos(at) + 4096, self.num_perm(at), 2)
        &&& forall|i: int|
            0 <= i < h.num_srams ==> #[trigger] access_ok(h, perm, e.sram.len(), i)
        &&& shuffle_ok(self.script, pos, self.outputs(at, n, e), h.num_ios as nat)
        &&& flags_ok(self.script, pos + 4096, h.num_ios as nat, 3)
        &&& h.num_ios > 0 ==> h.io_offset + h.num_ios <= self.input.len() && h.io_offset + h.num_ios
            <= e.output.len()
    }

    /// Running the sections from position `at` on, the first of which is that of
    /// partition `n`. Nothing if a word or a number in the script does not fit.
    pub open spec fn run(self, at: int, n: int, e: Effects) -> Option<Effects>
        decreases
                if at <= self.script.len() {
                    self.script.len() - at
                } else {
                    0
                },
    {
        if at < 0 || at + HEADER > self.script.len() {
            None
        } else if self.header(at).num_stages == 0 {
            if at + HEADER == self.script.len() {
                Some(e)
            } else {
                None
            }
        } else if !self.part_ok(at, n, e) {
            None
        } else {
            let next = self.part_run(at, n, e);
            let end = self.sram_pos(at) + 10240;
            if self.header(at).is_last {
                if end == self.script.len() {
                    Some(next)
                } else {
                    None
                }
            } else {
                self.run(end, n + 1, next)
            }
        }
    }
}

/// Whether the flags of `n` words, of which `k` are used for each, are there.
pub open spec fn flags_ok(script: Seq<u32>, flags: int, n: nat, k: int) -> bool {
    n > 0 ==> flags + (n - 1) * 4 + k <= script.len()
}

} // verus!
