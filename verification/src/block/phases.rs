//! The steps of executing a script.
use crate::block::model::{
    access_ok, accessed, accesses, bit_at, duplicated, flags_ok, gate_at, hierarchy, hook, hooked,
    hooks_ok, inputs_read, masked, narrow_rows, picked, read_ok, read_upto, reads_ok, row_ok,
    row_recorded, rows_recorded, rows_upto, shuffle_ok, shuffle_pos, shuffle_word_ok, shuffled,
    shuffled_upto, stage_ok, stage_pos, stage_run, stages_ok, stages_run, state_word,
    state_word_ok, stored, Header, Memory, Stages, WIDTH,
};
use crate::pe::hier::{rows, FREE};
use crate::pe::plan::StageModel;
use crate::pe::{stage_models, BoomerangStage};
use vstd::arithmetic::power2::{lemma2_to64, pow2};
use vstd::prelude::*;

verus! {

/// A word of a script, counted from `at`.
fn word_at(script: &[u32], at: usize, offset: u64) -> (w: Option<u32>)
    requires
        at <= script@.len(),
    ensures
        match w {
            Some(w) => at + offset < script@.len() && w == script@[at + offset],
            None => at + offset >= script@.len(),
        },
{
    if offset < (script.len() - at) as u64 {
        Some(script[at + offset as usize])
    } else {
        None
    }
}

/// The bit with index `i` of a list of words, if there is one.
fn bit(words: &Vec<u32>, i: u32) -> (b: Option<u32>)
    ensures
        match b {
            Some(b) => (i >> 5) < words@.len() && b == bit_at(words@, i),
            None => (i >> 5) >= words@.len(),
        },
{
    let p = (i >> 5) as usize;
    if p < words.len() {
        assert(i & 31 < 32) by (bit_vector);
        Some((words[p] >> (i & 31)) & 1)
    } else {
        None
    }
}

/// One result of a shuffle.
fn shuffle_word(script: &[u32], at: usize, src: &Vec<u32>, i: usize) -> (w: Option<u32>)
    requires
        at <= script@.len(),
        i <= 0x4000_0000,
    ensures
        match w {
            Some(w) => {
                &&& forall|k: int|
                    0 <= k < 16 ==> shuffle_word_ok(
                        script@,
                        src@,
                        #[trigger] shuffle_pos(at as int, i as int, k),
                    )
                &&& w == shuffled_upto(script@, at as int, src@, i as int, 16)
            },
            None => exists|k: int|
                0 <= k < 16 && !shuffle_word_ok(
                    script@,
                    src@,
                    #[trigger] shuffle_pos(at as int, i as int, k),
                ),
        },
{
    let mut w: u32 = 0;
    let mut k: usize = 0;
    while k < 16
        invariant
            k <= 16,
            at <= script@.len(),
            i <= 0x4000_0000,
            w == shuffled_upto(script@, at as int, src@, i as int, k as int),
            forall|t: int|
                0 <= t < k ==> shuffle_word_ok(
                    script@,
                    src@,
                    #[trigger] shuffle_pos(at as int, i as int, t),
                ),
        decreases 16 - k,
    {
        let ghost p = shuffle_pos(at as int, i as int, k as int);
        let offset = (k as u64 / 4) * 1024 + i as u64 * 4 + k as u64 % 4;
        let t = match word_at(script, at, offset) {
            Some(t) => t,
            None => {
                assert(!shuffle_word_ok(script@, src@, p));
                return None;
            },
        };
        let first = match bit(src, t & 0xffff) {
            Some(b) => b,
            None => {
                assert(!shuffle_word_ok(script@, src@, p));
                return None;
            },
        };
        let second = match bit(src, t >> 16) {
            Some(b) => b,
            None => {
                assert(!shuffle_word_ok(script@, src@, p));
                return None;
            },
        };
        w = w | (first << (2 * k as u32)) | (second << (2 * k as u32 + 1));
        k += 1;
    }
    Some(w)
}

/// A shuffle with `n` results.
pub(crate) fn shuffle(script: &[u32], at: usize, src: &Vec<u32>, n: usize) -> (r: Option<Vec<u32>>)
    requires
        at <= script@.len(),
        n <= 0x4000_0000,
    ensures
        match r {
            Some(r) => shuffle_ok(script@, at as int, src@, n as nat) && r@ == shuffled(
                script@,
                at as int,
                src@,
                n as nat,
            ),
            None => !shuffle_ok(script@, at as int, src@, n as nat),
        },
{
    let mut r: Vec<u32> = Vec::new();
    let mut i: usize = 0;
    while i < n
        invariant
            i <= n,
            at <= script@.len(),
            n <= 0x4000_0000,
            shuffle_ok(script@, at as int, src@, i as nat),
            r@ == shuffled(script@, at as int, src@, i as nat),
        decreases n - i,
    {
        match shuffle_word(script, at, src, i) {
            Some(w) => {
                r.push(w);
            },
            None => {
                return None;
            },
        }
        assert(r@ =~= shuffled(script@, at as int, src@, (i + 1) as nat));
        i += 1;
    }
    Some(r)
}

/// Shifts the bits of `value` at the ones of `mask` into `cur`.
fn pick(cur: u32, value: u32, mask: u32) -> (r: u32)
    ensures
        r == picked(cur, value, mask),
{
    let mut cur = cur;
    let mut mask = mask;
    let ghost goal = picked(cur, value, mask);
    while mask != 0
        invariant
            goal == picked(cur, value, mask),
        decreases mask,
    {
        assert((mask & ((mask - 1) as u32)) < mask) by (bit_vector)
            requires
                mask != 0,
        ;
        let rest = mask & (mask - 1);
        let low = mask ^ rest;
        cur = (cur << 1) | if value & low != 0 {
            1
        } else {
            0
        };
        mask = rest;
    }
    cur
}

/// The word of the state that an index of a read names.
fn read_word(input: &[u32], output: &[u32], idx: u32) -> (w: Option<u32>)
    ensures
        match w {
            Some(w) => state_word_ok(input@, output@, idx) && w == state_word(
                input@,
                output@,
                idx,
            ),
            None => !state_word_ok(input@, output@, idx),
        },
{
    if idx >> 31 != 0 {
        let p = (idx ^ 0x8000_0000) as usize;
        if p < output.len() {
            Some(output[p])
        } else {
            None
        }
    } else if (idx as usize) < input.len() {
        Some(input[idx as usize])
    } else {
        None
    }
}

/// The inputs of a partition.
pub(crate) fn read_inputs(
    script: &[u32],
    at: usize,
    input: &[u32],
    output: &[u32],
    rounds: u32,
) -> (r: Option<Vec<u32>>)
    requires
        at <= script@.len(),
    ensures
        match r {
            Some(r) => reads_ok(script@, at as int, input@, output@, rounds as int) && r@
                == inputs_read(script@, at as int, input@, output@, rounds as int),
            None => !reads_ok(script@, at as int, input@, output@, rounds as int),
        },
{
    let mut words: Vec<u32> = Vec::new();
    let mut i: usize = 0;
    while i < WIDTH
        invariant
            i <= WIDTH,
            at <= script@.len(),
            words@.len() == i,
            forall|j: int|
                0 <= j < i ==> #[trigger] words@[j] == read_upto(
                    script@,
                    at as int,
                    input@,
                    output@,
                    j,
                    rounds as int,
                ),
            forall|t: int, j: int|
                0 <= t < rounds && 0 <= j < i ==> #[trigger] read_ok(
                    script@,
                    input@,
                    output@,
                    at + t * 512 + j * 2,
                ),
        decreases WIDTH - i,
    {
        let mut cur: u32 = 0;
        let mut t: u32 = 0;
        while t < rounds
            invariant
                t <= rounds,
                i < WIDTH,
                at <= script@.len(),
                cur == read_upto(script@, at as int, input@, output@, i as int, t as int),
                forall|s: int|
                    0 <= s < t ==> #[trigger] read_ok(
                        script@,
                        input@,
                        output@,
                        at + s * 512 + i * 2,
                    ),
            decreases rounds - t,
        {
            let ghost p = at + t * 512 + i * 2;
            let offset = t as u64 * 512 + i as u64 * 2;
            match (word_at(script, at, offset), word_at(script, at, offset + 1)) {
                (Some(idx), Some(mask)) => {
                    if mask != 0 {
                        match read_word(input, output, idx) {
                            Some(value) => {
                                cur = pick(cur, value, mask);
                            },
                            None => {
                                assert(!read_ok(script@, input@, output@, p));
                                return None;
                            },
                        }
                    }
                },
                _ => {
                    assert(!read_ok(script@, input@, output@, p));
                    return None;
                },
            }
            t += 1;
        }
        words.push(cur);
        i += 1;
    }
    assert(words@ =~= inputs_read(script@, at as int, input@, output@, rounds as int));
    Some(words)
}

/// The and gates of word `p`.
fn gate_word(script: &[u32], flags: usize, p: usize, a: u32, b: u32) -> (r: u32)
    requires
        p < WIDTH,
        flags + 1023 <= script@.len(),
    ensures
        r == gate_at(script@, flags as int, p as int, a, b),
{
    let len = script.len();
    let xora = script[flags + p * 4];
    let xorb = script[flags + p * 4 + 1];
    let orb = script[flags + p * 4 + 2];
    (a ^ xora) & ((b ^ xorb) | orb)
}

/// The rows above those of whole words.
fn narrow(v: u32, xora: u32, xorb: u32, orb: u32) -> (r: u32)
    ensures
        r == narrow_rows(v, xora, xorb, orb),
{
    let r8 = ((v << 16) ^ xora) & ((v ^ xorb) | orb) & 0xffff_0000;
    let r9 = ((r8 >> 8) ^ xora) & (((r8 >> 16) ^ xorb) | orb) & 0xff00;
    let r10 = ((r9 >> 4) ^ xora) & (((r9 >> 8) ^ xorb) | orb) & 0xf0;
    let r11 = ((r10 >> 2) ^ xora) & (((r10 >> 4) ^ xorb) | orb) & 0xc;
    let r12 = ((r11 >> 1) ^ xora) & (((r11 >> 2) ^ xorb) | orb) & 0x2;
    r8 | r9 | r10 | r11 | r12
}

/// Computes the words of a hierarchy from those of its row 0.
pub(crate) fn compute_hierarchy(script: &[u32], flags: usize, leaves: Vec<u32>) -> (words: Vec<u32>)
    requires
        leaves@.len() == WIDTH,
        flags + 1023 <= script@.len(),
    ensures
        words@ == hierarchy(script@, flags as int, leaves@),
{
    let ghost first = leaves@;
    let mut words = leaves;
    let mut i: usize = 0;
    while i < 128
        invariant
            i <= 128,
            words@.len() == WIDTH,
            first.len() == WIDTH,
            flags + 1023 <= script@.len(),
            forall|p: int|
                0 <= p < WIDTH ==> #[trigger] words@[p] == if 128 <= p < 128 + i {
                    gate_at(script@, flags as int, p, first[p - 128], first[p])
                } else {
                    first[p]
                },
        decreases 128 - i,
    {
        let r = gate_word(script, flags, 128 + i, words[i], words[128 + i]);
        words.set(128 + i, r);
        i += 1;
    }
    assert(words@ =~= rows_upto(script@, flags as int, first, 0));
    let mut w: usize = 64;
    let mut hi: usize = 1;
    proof {
        lemma2_to64();
    }
    while hi <= 7
        invariant
            1 <= hi <= 8,
            w == 64 || w == 32 || w == 16 || w == 8 || w == 4 || w == 2 || w == 1 || w == 0,
            hi <= 7 ==> w == pow2((7 - hi) as nat) && w > 0,
            words@.len() == WIDTH,
            flags + 1023 <= script@.len(),
            words@ == rows_upto(script@, flags as int, first, hi - 1),
        decreases 8 - hi,
    {
        let ghost prev = words@;
        let mut i: usize = 0;
        while i < w
            invariant
                i <= w <= 64,
                words@.len() == WIDTH,
                prev.len() == WIDTH,
                flags + 1023 <= script@.len(),
                forall|p: int|
                    0 <= p < WIDTH ==> #[trigger] words@[p] == if w <= p < w + i {
                        gate_at(script@, flags as int, p, prev[p + w], prev[p + 2 * w])
                    } else {
                        prev[p]
                    },
            decreases w - i,
        {
            let r = gate_word(script, flags, w + i, words[2 * w + i], words[3 * w + i]);
            words.set(w + i, r);
            i += 1;
        }
        assert(words@ =~= rows_upto(script@, flags as int, first, hi as int));
        proof {
            lemma2_to64();
        }
        w = w / 2;
        hi += 1;
    }
    let r = narrow(words[1], script[flags], script[flags + 1], script[flags + 2]);
    words.set(0, r);
    words
}

/// Records the values of the pins of a row.
pub(crate) fn record_row(
    pins: &mut [u8],
    row: &Vec<usize>,
    words: &Vec<u32>,
    offset: usize,
) -> (ok: bool)
    requires
        words@.len() == WIDTH,
        offset <= row@.len(),
    ensures
        ok == row_ok(old(pins)@.len(), row@, offset as int),
        final(pins)@.len() == old(pins)@.len(),
        ok ==> final(pins)@ == row_recorded(
            old(pins)@,
            row@,
            words@,
            offset as int,
            row@.len() as int,
        ),
{
    let ghost before = pins@;
    let mut k: usize = 0;
    while k < row.len()
        invariant
            k <= row@.len(),
            words@.len() == WIDTH,
            offset <= row@.len(),
            before == old(pins)@,
            pins@.len() == before.len(),
            pins@ == row_recorded(before, row@, words@, offset as int, k as int),
            forall|j: int|
                0 <= j < k && #[trigger] row@[j] != FREE ==> row@[j] < before.len() && offset + j
                    < 32 * WIDTH,
        decreases row@.len() - k,
    {
        let pin = row[k];
        if pin != FREE {
            if pin >= pins.len() || k >= 32 * WIDTH || offset >= 32 * WIDTH - k {
                assert(row@[k as int] != FREE);
                return false;
            }
            let p = offset + k;
            pins[pin] = ((words[p / 32] >> ((p % 32) as u32)) & 1) as u8;
        }
        k += 1;
    }
    true
}

/// Takes outputs over from the hierarchy of stage `b`.
pub(crate) fn take_hooks(
    script: &[u32],
    header: usize,
    outs: &mut Vec<u32>,
    words: &Vec<u32>,
    b: u32,
) -> (ok: bool)
    requires
        header + 256 <= script@.len(),
        words@.len() == WIDTH,
    ensures
        ok == hooks_ok(script@, header as int, old(outs)@.len(), b as int),
        final(outs)@.len() == old(outs)@.len(),
        ok ==> final(outs)@ == hooked(script@, header as int, old(outs)@, words@, b as int),
{
    let ghost before = outs@;
    let len = script.len();
    let mut i: usize = 0;
    while i < WIDTH
        invariant
            i <= WIDTH,
            before == old(outs)@,
            len == script@.len(),
            header + 256 <= len,
            words@.len() == WIDTH,
            outs@.len() == before.len(),
            forall|j: int|
                0 <= j < i && #[trigger] hook(script@, header as int, j) >> 8 == b ==> j
                    < before.len(),
            forall|j: int|
                0 <= j < before.len() ==> #[trigger] outs@[j] == if j < i && hook(
                    script@,
                    header as int,
                    j,
                ) >> 8 == b {
                    words@[(hook(script@, header as int, j) & 255) as int]
                } else {
                    before[j]
                },
        decreases WIDTH - i,
    {
        let t = script[header + 128 + i / 2];
        let h = if i % 2 == 0 {
            t & 0xffff
        } else {
            t >> 16
        };
        assert(h == hook(script@, header as int, i as int));
        if h >> 8 == b {
            if i >= outs.len() {
                return false;
            }
            assert(h & 255 < 256) by (bit_vector);
            outs.set(i, words[(h & 255) as usize]);
        }
        i += 1;
    }
    assert(outs@ =~= hooked(script@, header as int, before, words@, b as int));
    true
}

/// Forces words to zero and inverts them as flags say.
pub(crate) fn apply_masks(script: &[u32], flags: usize, words: &mut Vec<u32>) -> (ok: bool)
    requires
        flags <= script@.len(),
        old(words)@.len() <= 0x4000_0000,
    ensures
        ok == flags_ok(script@, flags as int, old(words)@.len(), 2),
        ok ==> final(words)@ == masked(script@, flags as int, old(words)@),
{
    let ghost before = words@;
    let n = words.len();
    let mut i: usize = 0;
    while i < n
        invariant
            i <= n <= 0x4000_0000,
            before == old(words)@,
            n == before.len(),
            words@.len() == n,
            flags <= script@.len(),
            i > 0 ==> flags + (i - 1) * 4 + 2 <= script@.len(),
            forall|j: int|
                0 <= j < n ==> #[trigger] words@[j] == if j < i {
                    (before[j] & !script@[flags + j * 4 + 1]) ^ script@[flags + j * 4]
                } else {
                    before[j]
                },
        decreases n - i,
    {
        match (word_at(script, flags, i as u64 * 4), word_at(script, flags, i as u64 * 4 + 1)) {
            (Some(xor), Some(clear)) => {
                let w = (words[i] & !clear) ^ xor;
                words.set(i, w);
            },
            _ => {
                return false;
            },
        }
        i += 1;
    }
    assert(words@ =~= masked(script@, flags as int, before));
    true
}

/// Runs stage `b` of a section. Returns the words of its hierarchy.
fn run_stage(
    script: &[u32],
    at: usize,
    pos: usize,
    stage: &BoomerangStage,
    num_stages: usize,
    b: u32,
    words: &Vec<u32>,
    outs: &mut Vec<u32>,
    pins: &mut [u8],
) -> (r: Option<Vec<u32>>)
    requires
        at + 256 <= script@.len(),
        pos == stage_pos(script@, at as int, b as int),
        pos + 5120 <= script@.len(),
        words@.len() == WIDTH,
        num_stages < usize::MAX,
    ensures
        final(outs)@.len() == old(outs)@.len(),
        final(pins)@.len() == old(pins)@.len(),
        ({
            let s = Stages { words: words@, outs: old(outs)@, pins: old(pins)@ };
            match r {
                Some(w) => {
                    &&& stage_ok(
                        script@,
                        at as int,
                        stage@,
                        num_stages as int,
                        b as int,
                        s,
                    )
                    &&& (Stages { words: w@, outs: final(outs)@, pins: final(pins)@ })
                        == stage_run(
                        script@,
                        at as int,
                        stage@,
                        num_stages as int,
                        b as int,
                        s,
                    )
                    &&& w@.len() == WIDTH
                },
                None => !stage_ok(
                    script@,
                    at as int,
                    stage@,
                    num_stages as int,
                    b as int,
                    s,
                ),
            }
        }),
{
    let ghost hier = stage@.hier;
    let len = script.len();
    let leaves = match shuffle(script, pos, words, WIDTH) {
        Some(leaves) => leaves,
        None => {
            return None;
        },
    };
    if stage.hier.len() <= num_stages {
        return None;
    }
    assert(hier[0] == stage.hier@[0]@);
    if !record_row(pins, &stage.hier[0], &leaves, 0) {
        return None;
    }
    let ghost first = pins@;
    let words = compute_hierarchy(script, pos + 4096, leaves);
    let mut hi: usize = 1;
    while hi <= num_stages
        invariant
            1 <= hi <= num_stages + 1,
            num_stages < usize::MAX,
            num_stages < stage.hier@.len(),
            hier == rows(stage.hier@),
            words@.len() == WIDTH,
            first.len() == old(pins)@.len(),
            pins@.len() == first.len(),
            pins@ == rows_recorded(first, hier, words@, hi as int),
            outs@ == old(outs)@,
            forall|t: int|
                1 <= t < hi ==> row_ok(first.len(), #[trigger] hier[t], hier[t].len() as int),
        decreases num_stages + 1 - hi,
    {
        let width = stage.hier[hi].len();
        assert(hier[hi as int] == stage.hier@[hi as int]@);
        if !record_row(pins, &stage.hier[hi], &words, width) {
            assert(!row_ok(first.len(), hier[hi as int], hier[hi as int].len() as int));
            return None;
        }
        hi += 1;
    }
    if !take_hooks(script, at, outs, &words, b) {
        return None;
    }
    Some(words)
}

/// Runs the stages of a section. Returns whether they can be run.
pub(crate) fn run_stages(
    script: &[u32],
    at: usize,
    pos: usize,
    stages: &Vec<BoomerangStage>,
    inputs: &Vec<u32>,
    outs: &mut Vec<u32>,
    pins: &mut [u8],
) -> (ok: bool)
    requires
        at + 256 <= script@.len(),
        pos == stage_pos(script@, at as int, 0),
        pos + stages@.len() * 5120 <= script@.len(),
        stages@.len() <= u32::MAX,
        inputs@.len() == WIDTH,
    ensures
        final(outs)@.len() == old(outs)@.len(),
        final(pins)@.len() == old(pins)@.len(),
        ({
            let s = Stages { words: inputs@, outs: old(outs)@, pins: old(pins)@ };
            let models = stage_models(stages@);
            let n = stages@.len() as int;
            let end = stages_run(script@, at as int, models, s, n);
            &&& ok == stages_ok(script@, at as int, models, s, n)
            &&& ok ==> final(outs)@ == end.outs && final(pins)@ == end.pins
        }),
{
    let ghost s = Stages { words: inputs@, outs: outs@, pins: pins@ };
    let ghost models = stage_models(stages@);
    let n = stages.len();
    let len = script.len();
    let mut b: usize = 0;
    let mut at_stage = pos;
    let mut words: Vec<u32> = copy_words(inputs);
    while b < n
        invariant
            b <= n <= u32::MAX,
            n == stages@.len(),
            len == script@.len(),
            models == stage_models(stages@),
            at + 256 <= script@.len(),
            at_stage == stage_pos(script@, at as int, b as int),
            at_stage + (n - b) * 5120 <= len,
            words@.len() == WIDTH,
            outs@.len() == old(outs)@.len(),
            pins@.len() == old(pins)@.len(),
            s == (Stages { words: inputs@, outs: old(outs)@, pins: old(pins)@ }),
            stages_ok(script@, at as int, models, s, b as int),
            (Stages { words: words@, outs: outs@, pins: pins@ }) == stages_run(
                script@,
                at as int,
                models,
                s,
                b as int,
            ),
        decreases n - b,
    {
        assert(models[b as int] == stages@[b as int]@);
        match run_stage(script, at, at_stage, &stages[b], n, b as u32, &words, outs, pins) {
            Some(w) => {
                words = w;
            },
            None => {
                proof {
                    lemma_stages_ok(script@, at as int, models, s, b + 1, n as int);
                }
                return false;
            },
        }
        at_stage += 5120;
        b += 1;
    }
    true
}

/// If some stage cannot be run, not all can.
proof fn lemma_stages_ok(
    script: Seq<u32>,
    at: int,
    stages: Seq<StageModel>,
    s: Stages,
    b: int,
    n: int,
)
    requires
        !stages_ok(script, at, stages, s, b),
        b <= n,
    ensures
        !stages_ok(script, at, stages, s, n),
    decreases n - b,
{
    if b < n {
        lemma_stages_ok(script, at, stages, s, b + 1, n);
    }
}

/// Copies words.
pub(crate) fn copy_words(words: &Vec<u32>) -> (r: Vec<u32>)
    ensures
        r@ == words@,
{
    let mut r: Vec<u32> = Vec::new();
    let mut k: usize = 0;
    while k < words.len()
        invariant
            k <= words@.len(),
            r@ == words@.take(k as int),
        decreases words@.len() - k,
    {
        r.push(words[k]);
        assert(words@.take(k + 1) =~= words@.take(k as int).push(words@[k as int]));
        k += 1;
    }
    assert(words@.take(words@.len() as int) =~= words@);
    r
}

/// Makes the accesses to memory blocks. Returns whether all of them stay within their
/// block.
pub(crate) fn access_srams(
    num_ios: u32,
    num_srams: u32,
    sram_offset: u32,
    perm: &Vec<u32>,
    sram: &mut [u32],
    outs: &mut Vec<u32>,
    Ghost(h): Ghost<Header>,
) -> (ok: bool)
    requires
        h.num_ios == num_ios,
        h.num_srams == num_srams,
        h.sram_offset == sram_offset,
        num_srams <= num_ios,
        num_srams <= 0x1000_0000,
        perm@.len() >= num_srams * 4,
        old(outs)@.len() == num_ios,
    ensures
        final(sram)@.len() == old(sram)@.len(),
        final(outs)@.len() == old(outs)@.len(),
        ok == (forall|i: int|
            0 <= i < num_srams ==> #[trigger] access_ok(h, perm@, old(sram)@.len(), i)),
        ok ==> (Memory { sram: final(sram)@, outs: final(outs)@ }) == accesses(
            h,
            perm@,
            Memory { sram: old(sram)@, outs: old(outs)@ },
            num_srams as int,
        ),
{
    let ghost m = Memory { sram: sram@, outs: outs@ };
    let size = sram.len();
    let mut i: u32 = 0;
    while i < num_srams
        invariant
            i <= num_srams,
            h.num_ios == num_ios,
            h.num_srams == num_srams,
            h.sram_offset == sram_offset,
            num_srams <= num_ios,
            num_srams <= 0x1000_0000,
            perm@.len() >= num_srams * 4,
            outs@.len() == num_ios,
            old(outs)@.len() == num_ios,
            size == old(sram)@.len(),
            sram@.len() == size,
            m == (Memory { sram: old(sram)@, outs: old(outs)@ }),
            forall|j: int| 0 <= j < i ==> #[trigger] access_ok(h, perm@, size as nat, j),
            (Memory { sram: sram@, outs: outs@ }) == accesses(h, perm@, m, i as int),
        decreases num_srams - i,
    {
        let k = i as usize;
        let addrs = perm[k * 4];
        let en = perm[k * 4 + 1];
        let data = perm[k * 4 + 2];
        let r_addr = addrs & 0xffff;
        let w_addr = addrs >> 16;
        let end = sram_offset as u64 + (i as u64 + 1) * 8192;
        if end > size as u64 || r_addr >= 8192 || w_addr >= 8192 {
            assert(!access_ok(h, perm@, size as nat, i as int));
            return false;
        }
        let base = (end - 8192) as usize;
        let ghost prev = accesses(h, perm@, m, i as int);
        let r = sram[base + r_addr as usize];
        let w0 = sram[base + w_addr as usize];
        outs.set((num_ios - num_srams + i) as usize, r);
        sram[base + w_addr as usize] = (w0 & !en) | (data & en);
        assert(access_ok(h, perm@, size as nat, i as int));
        assert(outs@ =~= accessed(h, perm@, prev, i as int).outs);
        assert(sram@ =~= accessed(h, perm@, prev, i as int).sram);
        i += 1;
    }
    true
}

/// Puts in the outputs that are stored once more.
pub(crate) fn put_duplicates(
    num_ios: u32,
    num_srams: u32,
    num_dups: u32,
    perm: &Vec<u32>,
    outs: &mut Vec<u32>,
    Ghost(h): Ghost<Header>,
)
    requires
        h.num_ios == num_ios,
        h.num_srams == num_srams,
        h.num_dups == num_dups,
        num_srams + num_dups <= num_ios,
        num_srams <= 0x1000_0000,
        perm@.len() == num_srams * 4 + num_dups,
        old(outs)@.len() == num_ios,
    ensures
        final(outs)@ == duplicated(h, old(outs)@, perm@),
{
    let ghost before = outs@;
    let first = num_ios - num_srams - num_dups;
    let len = perm.len();
    let mut i: u32 = 0;
    while i < num_dups
        invariant
            i <= num_dups,
            first == num_ios - num_srams - num_dups,
            num_srams + num_dups <= num_ios,
            num_srams <= 0x1000_0000,
            len == perm@.len(),
            perm@.len() == num_srams * 4 + num_dups,
            outs@.len() == num_ios,
            before.len() == num_ios,
            forall|j: int|
                0 <= j < num_ios ==> #[trigger] outs@[j] == if first <= j < first + i {
                    perm@[num_srams * 4 + (j - first)]
                } else {
                    before[j]
                },
        decreases num_dups - i,
    {
        outs.set((first + i) as usize, perm[num_srams as usize * 4 + i as usize]);
        i += 1;
    }
    assert(outs@ =~= duplicated(h, before, perm@));
}

/// Stores outputs in the next state. Returns whether that is possible.
pub(crate) fn store_outputs(
    script: &[u32],
    flags: usize,
    num_ios: u32,
    io_offset: u32,
    input: &[u32],
    output: &mut [u32],
    outs: &Vec<u32>,
    enable: &Vec<u32>,
    Ghost(h): Ghost<Header>,
) -> (ok: bool)
    requires
        h.num_ios == num_ios,
        h.io_offset == io_offset,
        num_ios <= 0x4000_0000,
        flags <= script@.len(),
        outs@.len() == num_ios,
        enable@.len() == num_ios,
    ensures
        final(output)@.len() == old(output)@.len(),
        ok == (flags_ok(script@, flags as int, num_ios as nat, 3) && (num_ios > 0 ==> io_offset
            + num_ios <= input@.len() && io_offset + num_ios <= old(output)@.len())),
        ok ==> final(output)@ == stored(
            script@,
            flags as int,
            h,
            input@,
            old(output)@,
            outs@,
            enable@,
        ),
{
    let ghost before = output@;
    let mut i: u32 = 0;
    while i < num_ios
        invariant
            i <= num_ios <= 0x4000_0000,
            flags <= script@.len(),
            outs@.len() == num_ios,
            enable@.len() == num_ios,
            before == old(output)@,
            output@.len() == before.len(),
            i > 0 ==> flags + (i - 1) * 4 + 3 <= script@.len() && io_offset + i <= input@.len()
                && io_offset + i <= before.len(),
            forall|p: int|
                0 <= p < before.len() ==> #[trigger] output@[p] == if io_offset <= p < io_offset
                    + i {
                    let j = p - io_offset;
                    (input@[p] & !enable@[j]) | ((outs@[j] ^ script@[flags + j * 4 + 2])
                        & enable@[j])
                } else {
                    before[p]
                },
        decreases num_ios - i,
    {
        let p = io_offset as u64 + i as u64;
        if p >= input.len() as u64 || p >= output.len() as u64 {
            return false;
        }
        match word_at(script, flags, i as u64 * 4 + 2) {
            Some(xor) => {
                let p = p as usize;
                let en = enable[i as usize];
                output[p] = (input[p] & !en) | ((outs[i as usize] ^ xor) & en);
            },
            None => {
                return false;
            },
        }
        i += 1;
    }
    assert(output@ =~= stored(script@, flags as int, h, input@, before, outs@, enable@));
    true
}

} // verus!
