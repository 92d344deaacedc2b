//! Executing the script of one block.
pub mod effects;
pub mod fitting;
pub mod frame;
pub mod inputs;
pub mod laws;
pub mod model;
pub mod phases;

use crate::block::model::{words_out, Block, Effects};
use crate::block::phases::{
    access_srams, apply_masks, put_duplicates, read_inputs, run_stages, shuffle, store_outputs,
};
use crate::pe::plan::StageModel;
use crate::pe::{stage_models, BoomerangStage, Partition};
use std::collections::hash_map::DefaultHasher;
use std::hash::{Hash, Hasher};
use vstd::prelude::*;
use vstd::std_specs::hash::DefaultHasherAdditionalSpecFns;

verus! {

/// `Hash::hash` feeds a value to a hasher. Which bytes it writes depends on the
/// type and the machine, and is left open.
#[verifier::external_body]
fn feed<T: Hash>(x: &T, hasher: DefaultHasher) -> (fed: DefaultHasher) {
    let mut fed = hasher;
    x.hash(&mut fed);
    fed
}

/// Whether feeding a value to one hasher can give the other.
pub closed spec fn feeds<T: Hash>(x: &T, before: DefaultHasher, after: DefaultHasher) -> bool {
    call_ensures(feed::<T>, (x, before), after)
}

/// The hash of a value under the default hasher: the value is fed to a hasher that
/// nothing was written to, which is then finished.
pub fn hash_of<T: Hash>(x: &T) -> (h: u64)
    ensures
        exists|fresh: DefaultHasher, fed: DefaultHasher|
            fresh@ == Seq::<Seq<u8>>::empty() && #[trigger] feeds(x, fresh, fed) && h
                == DefaultHasher::spec_finish(fed@),
{
    let fresh = DefaultHasher::new();
    let ghost start = fresh;
    let fed = feed(x, fresh);
    assert(feeds(x, start, fed));
    fed.finish()
}

/// Whether `h` is a hash of a list of words.
pub open spec fn is_hash(words: Seq<u32>, h: u64) -> bool {
    exists|v: Vec<u32>| v@ == words && #[trigger] call_ensures(hash_of::<Vec<u32>>, (&v,), h)
}

/// The stages of a list of partitions.
pub open spec fn part_stages(parts: Seq<Partition>) -> Seq<Seq<StageModel>> {
    Seq::new(parts.len(), |i: int| parts[i]@.stages)
}

/// The inputs of partitions, each with the index of its partition.
pub open spec fn log_model(log: Seq<(usize, Vec<u32>)>) -> Seq<(usize, Seq<u32>)> {
    Seq::new(log.len(), |i: int| (log[i].0, log[i].1@))
}

/// Whether stages write out `n` words in total.
fn writes_out(stages: &Vec<BoomerangStage>, n: usize) -> (r: bool)
    ensures
        r == (words_out(stage_models(stages@), stages@.len() as int) == n),
{
    let ghost models = stage_models(stages@);
    let mut left = n;
    let mut k: usize = 0;
    while k < stages.len()
        invariant
            k <= stages@.len(),
            models == stage_models(stages@),
            left + words_out(models, k as int) == n,
        decreases stages@.len() - k,
    {
        let count = stages[k].write_outs.len();
        assert(models[k as int].write_outs.len() == count);
        if count > left {
            proof {
                lemma_words_out(models, k + 1, stages@.len() as int);
            }
            return false;
        }
        left -= count;
        k += 1;
    }
    left == 0
}

/// More stages do not write out fewer words.
proof fn lemma_words_out(stages: Seq<StageModel>, k: int, n: int)
    requires
        k <= n,
    ensures
        words_out(stages, k) <= words_out(stages, n),
    decreases n - k,
{
    if k < n {
        lemma_words_out(stages, k, n - 1);
    }
}

/// Runs the section of one partition, whose header stands at `at`. Returns the inputs
/// of the partition, or nothing if a word or a number in the script does not fit.
fn run_part(
    script: &[u32],
    at: usize,
    input: &[u32],
    output: &mut [u32],
    sram: &mut [u32],
    part: &Partition,
    pins: &mut [u8],
    Ghost(block): Ghost<Block>,
    Ghost(n): Ghost<int>,
    Ghost(e): Ghost<Effects>,
) -> (r: Option<Vec<u32>>)
    requires
        block.script == script@,
        block.input == input@,
        e.output == old(output)@,
        e.sram == old(sram)@,
        e.pins == old(pins)@,
        0 <= n < block.indices.len(),
        block.indices[n] < block.parts.len(),
        block.stages(n) == part@.stages,
        block.header(at as int).num_stages > 0,
        at + 256 <= script@.len(),
        block.sram_pos(at as int) + 10240 <= script@.len(),
    ensures
        final(output)@.len() == old(output)@.len(),
        final(sram)@.len() == old(sram)@.len(),
        final(pins)@.len() == old(pins)@.len(),
        match r {
            Some(inputs) => {
                let f = block.part_run(at as int, n, e);
                &&& block.part_ok(at as int, n, e)
                &&& final(output)@ == f.output
                &&& final(sram)@ == f.sram
                &&& final(pins)@ == f.pins
                &&& f.log == e.log.push((block.indices[n], inputs@))
            },
            None => !block.part_ok(at as int, n, e),
        },
{
    let ghost h = block.header(at as int);
    let len = script.len();
    let num_stages = script[at];
    let num_ios = script[at + 2];
    let io_offset = script[at + 3];
    let num_srams = script[at + 4];
    let sram_offset = script[at + 5];
    let num_rounds = script[at + 6];
    let num_dups = script[at + 7];
    if part.stages.len() != num_stages as usize {
        return None;
    }
    if num_srams as u64 + num_dups as u64 > num_ios as u64 || num_srams as u64 * 4 + num_dups as u64
        > 0x4000_0000 || num_ios > 0x4000_0000 || io_offset as u64 + num_ios as u64
        > 0x1_0000_0000 {
        return None;
    }
    if !writes_out(&part.stages, (num_ios - num_srams - num_dups) as usize) {
        return None;
    }
    let inputs = match read_inputs(script, at + 256, input, output, num_rounds) {
        Some(inputs) => inputs,
        None => {
            return None;
        },
    };
    let first = at + 256 + num_rounds as usize * 512;
    let mut outs: Vec<u32> = vec![0u32; num_ios as usize];
    assert(outs@ =~= block.before_stages(at as int, e).outs);
    if !run_stages(script, at, first, &part.stages, &inputs, &mut outs, pins) {
        return None;
    }
    let pos = first + num_stages as usize * 5120;
    let num_perm = (num_srams * 4 + num_dups) as usize;
    let mut perm = match shuffle(script, pos, &outs, num_perm) {
        Some(perm) => perm,
        None => {
            return None;
        },
    };
    if !apply_masks(script, pos + 4096, &mut perm) {
        return None;
    }
    if !access_srams(num_ios, num_srams, sram_offset, &perm, sram, &mut outs, Ghost(h)) {
        return None;
    }
    put_duplicates(num_ios, num_srams, num_dups, &perm, &mut outs, Ghost(h));
    let mut enable = match shuffle(script, pos + 5120, &outs, num_ios as usize) {
        Some(enable) => enable,
        None => {
            return None;
        },
    };
    if !apply_masks(script, pos + 9216, &mut enable) {
        return None;
    }
    if !store_outputs(
        script,
        pos + 9216,
        num_ios,
        io_offset,
        input,
        output,
        &outs,
        &enable,
        Ghost(h),
    ) {
        return None;
    }
    Some(inputs)
}

/// Executes the script of one block.
///
/// The words that the partitions of the block compute are stored in `output_state`,
/// memory blocks are accessed in `sram_data`, and the values of pins are recorded in
/// `aigpin_values`: those of row 0 of each stage of a partition, and of as many rows above
/// it as the partition has stages. Returns the inputs of the partitions,
/// each with the index of its partition; nothing if a word or a number in the script
/// does not fit.
pub fn try_simulate_block_v1(
    script: &[u32],
    input_state: &[u32],
    output_state: &mut [u32],
    sram_data: &mut [u32],
    parts_indices: &[usize],
    parts: &[Partition],
    aigpin_values: &mut [u8],
) -> (r: Option<Vec<(usize, Vec<u32>)>>)
    ensures
        final(output_state)@.len() == old(output_state)@.len(),
        final(sram_data)@.len() == old(sram_data)@.len(),
        final(aigpin_values)@.len() == old(aigpin_values)@.len(),
        match (Block {
            script: script@,
            input: input_state@,
            indices: parts_indices@,
            parts: part_stages(parts@),
        }).run(
            0,
            0,
            Effects {
                output: old(output_state)@,
                sram: old(sram_data)@,
                pins: old(aigpin_values)@,
                log: Seq::empty(),
            },
        ) {
            Some(e) => {
                &&& r matches Some(log) && log_model(log@) == e.log
                &&& final(output_state)@ == e.output
                &&& final(sram_data)@ == e.sram
                &&& final(aigpin_values)@ == e.pins
            },
            None => r is None,
        },
{
    let ghost block = Block {
        script: script@,
        input: input_state@,
        indices: parts_indices@,
        parts: part_stages(parts@),
    };
    let ghost start = Effects {
        output: output_state@,
        sram: sram_data@,
        pins: aigpin_values@,
        log: Seq::empty(),
    };
    let ghost mut e = start;
    let len = script.len();
    let mut log: Vec<(usize, Vec<u32>)> = Vec::new();
    let mut at: usize = 0;
    let mut n: usize = 0;
    assert(log_model(log@) =~= Seq::empty());
    loop
        invariant
            len == script@.len(),
            at <= len,
            block == (Block {
                script: script@,
                input: input_state@,
                indices: parts_indices@,
                parts: part_stages(parts@),
            }),
            start == (Effects {
                output: old(output_state)@,
                sram: old(sram_data)@,
                pins: old(aigpin_values)@,
                log: Seq::empty(),
            }),
            output_state@.len() == old(output_state)@.len(),
            sram_data@.len() == old(sram_data)@.len(),
            aigpin_values@.len() == old(aigpin_values)@.len(),
            e.output == output_state@,
            e.sram == sram_data@,
            e.pins == aigpin_values@,
            e.log == log_model(log@),
            n <= parts_indices@.len(),
            block.run(0, 0, start) == block.run(at as int, n as int, e),
        decreases len - at,
    {
        if len - at < 256 {
            return None;
        }
        if script[at] == 0 {
            if len - at == 256 {
                return Some(log);
            } else {
                return None;
            }
        }
        let size = 256 + script[at + 6] as u128 * 512 + script[at] as u128 * 5120 + 10240;
        let ghost next = block.part_run(at as int, n as int, e);
        if size > (len - at) as u128 {
            assert(block.run(block.sram_pos(at as int) + 10240, n + 1, next) is None);
            return None;
        }
        if n >= parts_indices.len() {
            return None;
        }
        let index = parts_indices[n];
        if index >= parts.len() {
            return None;
        }
        let ghost before = log@;
        assert(block.stages(n as int) == parts@[index as int]@.stages);
        match run_part(
            script,
            at,
            input_state,
            output_state,
            sram_data,
            &parts[index],
            aigpin_values,
            Ghost(block),
            Ghost(n as int),
            Ghost(e),
        ) {
            Some(inputs) => {
                log.push((index, inputs));
                assert(log_model(log@) =~= log_model(before).push((index, inputs@)));
            },
            None => {
                return None;
            },
        }
        let is_last = script[at + 1] != 0;
        proof {
            e = next;
        }
        at = at + size as usize;
        n += 1;
        if is_last {
            if at == len {
                return Some(log);
            } else {
                return None;
            }
        }
    }
}

/// Executes the script of one block, as [`try_simulate_block_v1`] does, and stores the
/// hash of the inputs of each partition that was run, to evaluate how many partitions
/// see events.
pub fn simulate_block_v1(
    script: &[u32],
    input_state: &[u32],
    output_state: &mut [u32],
    sram_data: &mut [u32],
    parts_indices: &[usize],
    parts: &[Partition],
    aigpin_values: &mut [u8],
    parts_input_hashes: &mut [u64],
)
    requires
        (Block {
            script: script@,
            input: input_state@,
            indices: parts_indices@,
            parts: part_stages(parts@),
        }).run(
            0,
            0,
            Effects {
                output: old(output_state)@,
                sram: old(sram_data)@,
                pins: old(aigpin_values)@,
                log: Seq::empty(),
            },
        ) matches Some(e) && forall|i: int|
            0 <= i < e.log.len() ==> (#[trigger] e.log[i]).0 < old(parts_input_hashes)@.len(),
    ensures
        (Block {
            script: script@,
            input: input_state@,
            indices: parts_indices@,
            parts: part_stages(parts@),
        }).run(
            0,
            0,
            Effects {
                output: old(output_state)@,
                sram: old(sram_data)@,
                pins: old(aigpin_values)@,
                log: Seq::empty(),
            },
        ) matches Some(e) && {
            &&& final(output_state)@ == e.output
            &&& final(sram_data)@ == e.sram
            &&& final(aigpin_values)@ == e.pins
            &&& hashes_of(e.log, old(parts_input_hashes)@, final(parts_input_hashes)@)
        },
{
    let result = try_simulate_block_v1(
        script,
        input_state,
        output_state,
        sram_data,
        parts_indices,
        parts,
        aigpin_values,
    );
    if let Some(log) = result {
        proof {
            let model = log_model(log@);
            assert forall|i: int| 0 <= i < log@.len() implies (#[trigger] log@[i]).0
                < parts_input_hashes@.len() by {
                assert(model[i].0 == log@[i].0);
            }
        }
        record_hashes(&log, parts_input_hashes);
    }
}

/// Whether entry `i` of a log is the last one of its partition.
pub open spec fn last_logged(log: Seq<(usize, Seq<u32>)>, i: int) -> bool {
    &&& 0 <= i < log.len()
    &&& forall|j: int| i < j < log.len() ==> (#[trigger] log[j]).0 != log[i].0
}

/// `hashes` after the first `k` hashes of a log are stored, each at the index of its
/// partition.
pub open spec fn hashes_stored(
    hashes: Seq<u64>,
    log: Seq<(usize, Seq<u32>)>,
    drawn: Seq<u64>,
    k: int,
) -> Seq<u64>
    decreases k,
{
    if k <= 0 {
        hashes
    } else {
        hashes_stored(hashes, log, drawn, k - 1).update(log[k - 1].0 as int, drawn[k - 1])
    }
}

/// Of several hashes of a partition the last one is kept; what stands at other indices
/// is unchanged.
pub proof fn law_hashes_stored(
    hashes: Seq<u64>,
    log: Seq<(usize, Seq<u32>)>,
    drawn: Seq<u64>,
    k: int,
)
    requires
        0 <= k <= log.len(),
        forall|i: int| 0 <= i < log.len() ==> (#[trigger] log[i]).0 < hashes.len(),
    ensures
        hashes_stored(hashes, log, drawn, k).len() == hashes.len(),
        forall|i: int| #[trigger]
            last_logged(log.take(k), i) ==> hashes_stored(hashes, log, drawn, k)[log[i].0 as int]
                == drawn[i],
        forall|p: int|
            0 <= p < hashes.len() && (forall|i: int| 0 <= i < k ==> (#[trigger] log[i]).0 != p)
                ==> #[trigger] hashes_stored(hashes, log, drawn, k)[p] == hashes[p],
    decreases k,
{
    if k > 0 {
        law_hashes_stored(hashes, log, drawn, k - 1);
        let prev = hashes_stored(hashes, log, drawn, k - 1);
        let now = hashes_stored(hashes, log, drawn, k);
        assert(log[k - 1].0 < hashes.len());
        assert forall|i: int| #[trigger] last_logged(log.take(k), i) implies now[log[i].0 as int]
            == drawn[i] by {
            assert(log[i].0 < hashes.len());
            assert(log.take(k)[i] == log[i]);
            if i < k - 1 {
                assert(log.take(k)[k - 1].0 != log.take(k)[i].0);
                assert forall|j: int| i < j < k - 1 implies (#[trigger] log.take(k - 1)[j]).0
                    != log.take(k - 1)[i].0 by {
                    assert(log.take(k)[j].0 != log.take(k)[i].0);
                }
                assert(last_logged(log.take(k - 1), i));
            }
        }
        assert forall|p: int|
            0 <= p < hashes.len() && (forall|i: int|
                0 <= i < k ==> (#[trigger] log[i]).0 != p) implies #[trigger] now[p]
            == hashes[p] by {
            assert(log[k - 1].0 != p);
        }
    }
}

/// Draws the hashes of the inputs of partitions.
pub fn draw_hashes(log: &Vec<(usize, Vec<u32>)>) -> (drawn: Vec<u64>)
    ensures
        drawn@.len() == log@.len(),
        forall|i: int|
            0 <= i < log@.len() ==> call_ensures(
                hash_of::<Vec<u32>>,
                (&log@[i].1,),
                #[trigger] drawn@[i],
            ),
{
    let mut drawn: Vec<u64> = Vec::new();
    let mut k: usize = 0;
    while k < log.len()
        invariant
            k <= log@.len(),
            drawn@.len() == k,
            forall|i: int|
                0 <= i < k ==> call_ensures(
                    hash_of::<Vec<u32>>,
                    (&log@[i].1,),
                    #[trigger] drawn@[i],
                ),
        decreases log@.len() - k,
    {
        let h = hash_of(&log[k].1);
        drawn.push(h);
        k += 1;
    }
    drawn
}

/// Stores hashes that were drawn, each at the index of its partition. Returns whether
/// there is a place for all of them; nothing is stored otherwise.
pub fn store_hashes(log: &Vec<(usize, Vec<u32>)>, drawn: &Vec<u64>, hashes: &mut [u64]) -> (ok:
    bool)
    requires
        drawn@.len() == log@.len(),
    ensures
        ok == (forall|i: int|
            0 <= i < log@.len() ==> (#[trigger] log@[i]).0 < old(hashes)@.len()),
        final(hashes)@ == if ok {
            hashes_stored(old(hashes)@, log_model(log@), drawn@, log@.len() as int)
        } else {
            old(hashes)@
        },
{
    let ghost model = log_model(log@);
    let n = hashes.len();
    let mut k: usize = 0;
    while k < log.len()
        invariant
            k <= log@.len(),
            n == hashes@.len(),
            forall|i: int| 0 <= i < k ==> (#[trigger] log@[i]).0 < n,
        decreases log@.len() - k,
    {
        if log[k].0 >= n {
            return false;
        }
        k += 1;
    }
    k = 0;
    while k < log.len()
        invariant
            k <= log@.len(),
            model == log_model(log@),
            drawn@.len() == log@.len(),
            n == hashes@.len(),
            forall|i: int| 0 <= i < log@.len() ==> (#[trigger] log@[i]).0 < n,
            hashes@ == hashes_stored(old(hashes)@, model, drawn@, k as int),
        decreases log@.len() - k,
    {
        let index = log[k].0;
        assert(model[k as int].0 == index);
        hashes[index] = drawn[k];
        k += 1;
    }
    true
}

/// Stores the hashes of the inputs of partitions, each at the index of its partition.
/// Returns whether there is a place for all of them; nothing is stored otherwise.
pub fn record_hashes(log: &Vec<(usize, Vec<u32>)>, hashes: &mut [u64]) -> (ok: bool)
    ensures
        ok == (forall|i: int|
            0 <= i < log@.len() ==> (#[trigger] log@[i]).0 < old(hashes)@.len()),
        !ok ==> final(hashes)@ == old(hashes)@,
        ok ==> hashes_of(log_model(log@), old(hashes)@, final(hashes)@),
{
    let drawn = draw_hashes(log);
    let ok = store_hashes(log, &drawn, hashes);
    proof {
        if ok {
            let model = log_model(log@);
            let n = log@.len() as int;
            assert forall|i: int| 0 <= i < model.len() implies (#[trigger] model[i]).0
                < old(hashes)@.len() by {
                assert(model[i].0 == log@[i].0);
            }
            law_hashes_stored(old(hashes)@, model, drawn@, n);
            assert(model.take(n) =~= model);
            assert forall|i: int| #[trigger] last_logged(model, i) implies is_hash(
                model[i].1,
                hashes@[model[i].0 as int],
            ) by {
                assert(model[i].1 == log@[i].1@);
                assert(call_ensures(hash_of::<Vec<u32>>, (&log@[i].1,), drawn@[i]));
            }
        }
    }
    ok
}

/// Whether `after` holds, at the index of each partition of a log, a hash of the inputs
/// last logged for it, and what stood there before at all other indices.
pub open spec fn hashes_of(log: Seq<(usize, Seq<u32>)>, before: Seq<u64>, after: Seq<u64>) -> bool {
    &&& after.len() == before.len()
    &&& forall|i: int| #[trigger]
        last_logged(log, i) ==> is_hash(log[i].1, after[log[i].0 as int])
    &&& forall|p: int|
        0 <= p < before.len() && (forall|i: int| 0 <= i < log.len() ==> (#[trigger] log[i]).0 != p)
            ==> #[trigger] after[p] == before[p]
}

} // verus!
