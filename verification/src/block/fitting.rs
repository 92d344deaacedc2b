//! When the script of a block can be run.
use crate::bits::lemma_position;
use crate::block::effects::{extra_words, hook_of, lemma_halves, lemma_hook, shuffle_source};
use crate::block::inputs::lemma_top_bit;
use crate::block::model::{
    access_ok, accesses, hierarchy, high_half, hook, low_half, read_ok, reads_ok, row_ok,
    row_recorded, rows_recorded, shuffle_ok, shuffle_pos, shuffle_word_ok, shuffled, stage_ok,
    stages_ok, stages_run, words_out, Block, Effects, Header, Memory, Stages, WIDTH,
};
use crate::pe::hier::FREE;
use crate::pe::plan::StageModel;
use vstd::prelude::*;

verus! {

/// Whether all words of a shuffle with `n` results are there, and name bits of a source of `words`
/// words.
pub open spec fn shuffle_fits(script: Seq<u32>, at: int, words: nat, n: nat) -> bool {
    forall|i: int, c: int|
        0 <= i < n && 0 <= c < 32 ==> #[trigger] bit_fits(script, at, words, i, c)
}

/// Whether the word for bit `c` of result `i` of a shuffle is there, and names a bit of the source.
pub open spec fn bit_fits(script: Seq<u32>, at: int, words: nat, i: int, c: int) -> bool {
    &&& 0 <= at + 1024 * (c / 8) + 4 * i + (c % 8) / 2 < script.len()
    &&& shuffle_source(script, at, i, c) < 32 * words
}

/// A shuffle can be carried out exactly if it fits.
pub proof fn law_shuffle_fits(script: Seq<u32>, at: int, src: Seq<u32>, n: nat)
    ensures
        shuffle_ok(script, at, src, n) <==> shuffle_fits(script, at, src.len(), n),
{
    if shuffle_ok(script, at, src, n) {
        assert forall|i: int, c: int| 0 <= i < n && 0 <= c < 32 implies #[trigger] bit_fits(
            script,
            at,
            src.len(),
            i,
            c,
        ) by {
            let j = c / 2;
            let p = shuffle_pos(at, i, j);
            assert(shuffle_word_ok(script, src, p));
            assert(c / 8 == j / 4 && (c % 8) / 2 == j % 4);
            lemma_halves(script[p]);
            lemma_position(low_half(script[p]));
            lemma_position(high_half(script[p]));
        }
    }
    if shuffle_fits(script, at, src.len(), n) {
        assert forall|i: int, k: int| 0 <= i < n && 0 <= k < 16 implies shuffle_word_ok(
            script,
            src,
            #[trigger] shuffle_pos(at, i, k),
        ) by {
            let p = shuffle_pos(at, i, k);
            assert(bit_fits(script, at, src.len(), i, 2 * k));
            assert(bit_fits(script, at, src.len(), i, 2 * k + 1));
            assert((2 * k) / 8 == k / 4 && ((2 * k) % 8) / 2 == k % 4);
            assert((2 * k + 1) / 8 == k / 4 && ((2 * k + 1) % 8) / 2 == k % 4);
            lemma_halves(script[p]);
            lemma_position(low_half(script[p]));
            lemma_position(high_half(script[p]));
        }
    }
}

/// Whether all reads are there, and those with a mask name words of the state.
pub open spec fn reads_fit(
    script: Seq<u32>,
    at: int,
    input: Seq<u32>,
    output: Seq<u32>,
    r: int,
) -> bool {
    forall|t: int, i: int|
        0 <= t < r && 0 <= i < 256 ==> #[trigger] read_fits(
            script,
            input,
            output,
            at + t * 512 + i * 2,
        )
}

/// Whether a read is there, and names a word of the state if it has a mask.
pub open spec fn read_fits(script: Seq<u32>, input: Seq<u32>, output: Seq<u32>, p: int) -> bool {
    &&& 0 <= p < script.len() - 1
    &&& script[p + 1] != 0 ==> if script[p] < 0x8000_0000 {
        script[p] < input.len()
    } else {
        script[p] - 0x8000_0000 < output.len()
    }
}

proof fn lemma_read_fits(script: Seq<u32>, input: Seq<u32>, output: Seq<u32>, p: int)
    ensures
        read_ok(script, input, output, p) <==> read_fits(script, input, output, p),
{
    if 0 <= p < script.len() - 1 {
        lemma_top_bit(script[p]);
    }
}

/// Reads can be made exactly if they fit.
pub proof fn law_reads_fit(
    script: Seq<u32>,
    at: int,
    input: Seq<u32>,
    output: Seq<u32>,
    r: int,
)
    ensures
        reads_ok(script, at, input, output, r) <==> reads_fit(script, at, input, output, r),
{
    if reads_ok(script, at, input, output, r) {
        assert forall|t: int, i: int| 0 <= t < r && 0 <= i < 256 implies #[trigger] read_fits(
            script,
            input,
            output,
            at + t * 512 + i * 2,
        ) by {
            assert(read_ok(script, input, output, at + t * 512 + i * 2));
            lemma_read_fits(script, input, output, at + t * 512 + i * 2);
        }
    }
    if reads_fit(script, at, input, output, r) {
        assert forall|t: int, i: int| 0 <= t < r && 0 <= i < WIDTH implies #[trigger] read_ok(
            script,
            input,
            output,
            at + t * 512 + i * 2,
        ) by {
            assert(read_fits(script, input, output, at + t * 512 + i * 2));
            lemma_read_fits(script, input, output, at + t * 512 + i * 2);
        }
    }
}

/// Whether the pins of a row whose bits start at `offset` exist, and the bits too.
pub open spec fn row_fits(pins: nat, row: Seq<usize>, offset: int) -> bool {
    forall|k: int|
        0 <= k < row.len() && #[trigger] row[k] != FREE ==> row[k] < pins && offset + k < 8192
}

/// Whether stage `b` of a section fits: its shuffle of 256 words and its flags are there, its
/// hierarchy has as many rows above row 0 as there are stages, the pins that are recorded exist,
/// and words of it are taken as outputs only that are there.
pub open spec fn stage_fits(
    script: Seq<u32>,
    at: int,
    stages: Seq<StageModel>,
    pins: nat,
    outs: nat,
    b: int,
) -> bool {
    let pos = at + 256 + 512 * script[at + 6] + 5120 * b;
    let hier = stages[b].hier;
    &&& shuffle_fits(script, pos, 256, 256)
    &&& pos + 5119 <= script.len()
    &&& hier.len() > stages.len()
    &&& row_fits(pins, hier[0], 0)
    &&& forall|r: int|
        1 <= r <= stages.len() ==> row_fits(pins, #[trigger] hier[r], hier[r].len() as int)
    &&& forall|i: int| 0 <= i < 256 && (#[trigger] hook_of(script, at, i)).0 == b ==> i < outs
}

proof fn lemma_recorded_len(pins: Seq<u8>, row: Seq<usize>, words: Seq<u32>, offset: int, k: int)
    requires
        0 <= k <= row.len(),
        forall|j: int| 0 <= j < row.len() && #[trigger] row[j] != FREE ==> row[j] < pins.len(),
    ensures
        row_recorded(pins, row, words, offset, k).len() == pins.len(),
    decreases k,
{
    if k > 0 {
        lemma_recorded_len(pins, row, words, offset, k - 1);
    }
}

proof fn lemma_rows_len(pins: Seq<u8>, hier: Seq<Seq<usize>>, words: Seq<u32>, hi: int)
    requires
        hi <= hier.len(),
        forall|r: int, j: int|
            1 <= r < hi && 0 <= j < hier[r].len() && #[trigger] hier[r][j] != FREE ==> hier[r][j]
                < pins.len(),
    ensures
        rows_recorded(pins, hier, words, hi).len() == pins.len(),
    decreases hi,
{
    if hi > 1 {
        lemma_rows_len(pins, hier, words, hi - 1);
        let row = hier[hi - 1];
        lemma_recorded_len(
            rows_recorded(pins, hier, words, hi - 1),
            row,
            words,
            row.len() as int,
            row.len() as int,
        );
    }
}

proof fn lemma_stage_fits(
    script: Seq<u32>,
    at: int,
    stages: Seq<StageModel>,
    s: Stages,
    b: int,
)
    requires
        s.words.len() == 256,
        0 <= b < stages.len(),
    ensures
        stage_ok(script, at, stages[b], stages.len() as int, b, s) <==> stage_fits(
            script,
            at,
            stages,
            s.pins.len(),
            s.outs.len(),
            b,
        ),
{
    let pos = at + 256 + 512 * script[at + 6] + 5120 * b;
    let hier = stages[b].hier;
    let n = stages.len() as int;
    law_shuffle_fits(script, pos, s.words, 256);
    assert forall|i: int| 0 <= i < 256 implies (#[trigger] hook(script, at, i) >> 8 == b) == (hook_of(
        script,
        at,
        i,
    ).0 == b) by {
        lemma_hook(script, at, i);
    }
    if stage_ok(script, at, stages[b], n, b, s) {
        assert forall|r: int| 1 <= r <= n implies row_fits(
            s.pins.len(),
            #[trigger] hier[r],
            hier[r].len() as int,
        ) by {
            assert(row_ok(s.pins.len(), stages[b].hier[r], stages[b].hier[r].len() as int));
        }
        assert forall|i: int| 0 <= i < 256 && (#[trigger] hook_of(script, at, i)).0 == b implies i
            < s.outs.len() by {
            assert(hook(script, at, i) >> 8 == b);
        }
    }
    if stage_fits(script, at, stages, s.pins.len(), s.outs.len(), b) {
        assert forall|r: int| 1 <= r <= n implies row_ok(
            s.pins.len(),
            #[trigger] stages[b].hier[r],
            stages[b].hier[r].len() as int,
        ) by {
            assert(row_fits(s.pins.len(), hier[r], hier[r].len() as int));
        }
    }
}

/// Stages can be run exactly if each of them fits; they keep the numbers of pins and outputs.
pub proof fn law_stages_fit(
    script: Seq<u32>,
    at: int,
    stages: Seq<StageModel>,
    s: Stages,
    b: int,
)
    requires
        s.words.len() == 256,
        0 <= b <= stages.len(),
    ensures
        stages_ok(script, at, stages, s, b) <==> forall|t: int|
            0 <= t < b ==> #[trigger] stage_fits(
                script,
                at,
                stages,
                s.pins.len(),
                s.outs.len(),
                t,
            ),
        stages_run(script, at, stages, s, b).words.len() == 256,
        stages_run(script, at, stages, s, b).outs.len() == s.outs.len(),
        stages_ok(script, at, stages, s, b) ==> stages_run(script, at, stages, s, b).pins.len()
            == s.pins.len(),
    decreases b,
{
    if b > 0 {
        law_stages_fit(script, at, stages, s, b - 1);
        let before = stages_run(script, at, stages, s, b - 1);
        if stages_ok(script, at, stages, s, b - 1) {
            lemma_stage_fits(script, at, stages, before, b - 1);
            if stages_ok(script, at, stages, s, b) {
                let pos = at + 256 + 512 * script[at + 6] + 5120 * (b - 1);
                let hier = stages[b - 1].hier;
                let n = stages.len() as int;
                let leaves = shuffled(script, pos, before.words, 256);
                let words = hierarchy(script, pos + 4096, leaves);
                let first = row_recorded(
                    before.pins,
                    hier[0],
                    leaves,
                    0,
                    hier[0].len() as int,
                );
                assert(stage_fits(script, at, stages, s.pins.len(), s.outs.len(), b - 1));
                lemma_recorded_len(before.pins, hier[0], leaves, 0, hier[0].len() as int);
                assert forall|r: int, j: int|
                    1 <= r < n + 1 && 0 <= j < hier[r].len() && #[trigger] hier[r][j]
                        != FREE implies hier[r][j] < first.len() by {
                    assert(row_fits(s.pins.len(), hier[r], hier[r].len() as int));
                }
                lemma_rows_len(first, hier, words, n + 1);
            }
        }
    }
}

/// Whether the `n` memory blocks from `base` on are there, and each access stays in its block.
pub open spec fn accesses_fit(extra: Seq<u32>, n: int, base: int, sram: nat) -> bool {
    forall|i: int| 0 <= i < n ==> #[trigger] access_fits(extra, base, sram, i)
}

/// Whether memory block `i` is there, and its access stays in it.
pub open spec fn access_fits(extra: Seq<u32>, base: int, sram: nat, i: int) -> bool {
    &&& base + 8192 * (i + 1) <= sram
    &&& extra[4 * i] % 65536 < 8192
    &&& extra[4 * i] / 65536 < 8192
}

proof fn lemma_accesses_fit(h: Header, perm: Seq<u32>, sram: nat)
    ensures
        (forall|i: int| 0 <= i < h.num_srams ==> #[trigger] access_ok(h, perm, sram, i))
            <==> accesses_fit(perm, h.num_srams as int, h.sram_offset as int, sram),
{
    let n = h.num_srams as int;
    if forall|i: int| 0 <= i < n ==> #[trigger] access_ok(h, perm, sram, i) {
        assert forall|i: int| 0 <= i < n implies #[trigger] access_fits(
            perm,
            h.sram_offset as int,
            sram,
            i,
        ) by {
            assert(access_ok(h, perm, sram, i));
            assert(perm[i * 4] == perm[4 * i]);
            lemma_halves(perm[4 * i]);
        }
    }
    if accesses_fit(perm, n, h.sram_offset as int, sram) {
        assert forall|i: int| 0 <= i < n implies #[trigger] access_ok(h, perm, sram, i) by {
            assert(access_fits(perm, h.sram_offset as int, sram, i));
            assert(perm[i * 4] == perm[4 * i]);
            lemma_halves(perm[4 * i]);
        }
    }
}

impl Block {
    /// Whether the section at `at` fits partition `n`. The header names the number of its stages;
    /// the outputs are the words that the stages write out, those stored once more and one for
    /// each memory block. Reads, stages, memory accesses and outputs stay within the
    /// script, the state and the memory blocks, and sizes are machine words.
    pub open spec fn section_fits(self, at: int, n: int, e: Effects) -> bool {
        let s = self.script;
        let stages = self.parts[self.indices[n] as int];
        let start = Stages {
            words: self.inputs(at, e),
            outs: Seq::new(s[at + 2] as nat, |i: int| 0u32),
            pins: e.pins,
        };
        let outs = stages_run(s, at, stages, start, s[at] as int).outs;
        let extra = extra_words(s, at, outs);
        let need = 4 * s[at + 4] + s[at + 7];
        let pos = at + 256 + 512 * s[at + 6] + 5120 * s[at];
        &&& n < self.indices.len()
        &&& self.indices[n] < self.parts.len()
        &&& stages.len() == s[at]
        &&& words_out(stages, stages.len() as int) + s[at + 4] + s[at + 7] == s[at + 2]
        &&& need <= 0x4000_0000
        &&& s[at + 2] <= 0x4000_0000
        &&& s[at + 3] + s[at + 2] <= 0x1_0000_0000
        &&& reads_fit(s, at + 256, self.input, e.output, s[at + 6] as int)
        &&& forall|t: int|
            0 <= t < stages.len() ==> #[trigger] stage_fits(
                s,
                at,
                stages,
                e.pins.len(),
                s[at + 2] as nat,
                t,
            )
        &&& shuffle_fits(s, pos, s[at + 2] as nat, need as nat)
        &&& need > 0 ==> pos + 4096 + 4 * (need - 1) + 2 <= s.len()
        &&& accesses_fit(extra, s[at + 4] as int, s[at + 5] as int, e.sram.len())
        &&& shuffle_fits(s, pos + 5120, s[at + 2] as nat, s[at + 2] as nat)
        &&& s[at + 2] > 0 ==> {
            &&& pos + 9216 + 4 * (s[at + 2] - 1) + 3 <= s.len()
            &&& s[at + 3] + s[at + 2] <= self.input.len()
            &&& s[at + 3] + s[at + 2] <= e.output.len()
        }
    }

    /// A section can be run exactly if it fits.
    #[verifier::rlimit(60)]
    pub proof fn law_section_fits(self, at: int, n: int, e: Effects)
        ensures
            self.part_ok(at, n, e) <==> self.section_fits(at, n, e),
    {
        let s = self.script;
        let h = self.header(at);
        let stages = self.parts[self.indices[n] as int];
        let start = self.before_stages(at, e);
        let after = self.after_stages(at, n, e);
        let perm = self.perm(at, after.outs);
        let pos = at + 256 + 512 * s[at + 6] + 5120 * s[at];
        if stages.len() == s[at] {
            law_reads_fit(s, at + 256, self.input, e.output, s[at + 6] as int);
            law_stages_fit(s, at, stages, start, s[at] as int);
            law_shuffle_fits(s, pos, after.outs, self.num_perm(at));
            assert(perm =~= extra_words(s, at, after.outs));
            let outs = self.outputs(at, n, e);
            if h.num_srams <= h.num_ios {
                self.lemma_outs_len(at, n, e);
            }
            law_shuffle_fits(s, pos + 5120, outs, h.num_ios as nat);
            lemma_accesses_fit(h, perm, e.sram.len());
        }
    }

    proof fn lemma_outs_len(self, at: int, n: int, e: Effects)
        requires
            self.header(at).num_srams <= self.header(at).num_ios,
            self.after_stages(at, n, e).outs.len() == self.header(at).num_ios,
        ensures
            self.outputs(at, n, e).len() == self.header(at).num_ios,
    {
        let outs = self.after_stages(at, n, e).outs;
        lemma_accesses_len(
            self.header(at),
            self.perm(at, outs),
            Memory { sram: e.sram, outs },
            self.header(at).num_srams as int,
        );
    }

    /// Whether the section at `at` fits partition `n`, and takes `e` to `f`.
    #[verifier::opaque]
    pub open spec fn takes(self, at: int, n: int, e: Effects, f: Effects) -> bool {
        self.section_fits(at, n, e) && f == self.part_run(at, n, e)
    }

    #[verifier::opaque]
    spec fn result_of(self, at: int, n: int, e: Effects) -> Option<Effects> {
        self.run(at, n, e)
    }

    proof fn lemma_one_section(self, at: int, n: int, e: Effects, f: Effects)
        requires
            0 <= at,
            self.script[at] != 0,
            self.takes(at, n, e, f),
        ensures
            self.script[at + 1] != 0 && self.next_section(at) == self.script.len()
                ==> self.result_of(at, n, e) == Some(f),
            self.script[at + 1] == 0 ==> self.result_of(at, n, e) == self.result_of(
                self.next_section(at),
                n + 1,
                f,
            ),
    {
        reveal(Block::takes);
        reveal(Block::result_of);
        self.law_section_fits(at, n, e);
        assert(self.sram_pos(at) + 10240 == self.next_section(at));
        let stages = self.parts[self.indices[n] as int];
        assert(stage_fits(
            self.script,
            at,
            stages,
            e.pins.len(),
            self.script[at + 2] as nat,
            0,
        ));
    }

    /// A script whose sections fit, one after the other, can be run, and what comes out is what
    /// the last section leaves.
    pub proof fn law_runs(self, at: int, n: int, ats: Seq<int>, es: Seq<Effects>)
        requires
            0 <= at,
            self.fills(at, ats),
            es.len() == ats.len() + 1,
            forall|k: int|
                0 <= k < ats.len() ==> self.takes(#[trigger] ats[k], n + k, es[k], es[k + 1]),
        ensures
            self.run(at, n, es[0]) == Some(es.last()),
    {
        self.lemma_runs(at, n, ats, es);
        reveal(Block::result_of);
    }

    proof fn lemma_runs(self, at: int, n: int, ats: Seq<int>, es: Seq<Effects>)
        requires
            0 <= at,
            self.fills(at, ats),
            es.len() == ats.len() + 1,
            forall|k: int|
                0 <= k < ats.len() ==> self.takes(#[trigger] ats[k], n + k, es[k], es[k + 1]),
        ensures
            self.result_of(at, n, es[0]) == Some(es.last()),
        decreases ats.len(),
    {
        if ats.len() == 0 {
            reveal(Block::result_of);
        } else {
            let end = self.next_section(at);
            let rest = ats.drop_first();
            let fs = es.drop_first();
            assert(self.section_at(at, ats, 0));
            assert(ats[0] == at);
            self.lemma_one_section(at, n, es[0], es[1]);
            assert(fs.last() == es.last());
            assert(fs[0] == es[1]);
            if ats.len() > 1 {
                assert(rest.last() == ats.last());
            }
            if self.script[at + 1] == 0 {
                assert forall|k: int| 0 <= k < rest.len() implies #[trigger] self.section_at(
                    end,
                    rest,
                    k,
                ) by {
                    assert(self.section_at(at, ats, k + 1));
                    assert(rest[k] == ats[k + 1]);
                    if k > 0 {
                        assert(rest[k - 1] == ats[k]);
                    }
                }
                assert forall|k: int| 0 <= k < rest.len() implies self.takes(
                    #[trigger] rest[k],
                    n + 1 + k,
                    fs[k],
                    fs[k + 1],
                ) by {
                    assert(rest[k] == ats[k + 1] && fs[k] == es[k + 1] && fs[k + 1] == es[k + 2]);
                    assert(self.takes(ats[k + 1], n + (k + 1), es[k + 1], es[k + 1 + 1]));
                }
                self.lemma_runs(end, n + 1, rest, fs);
            }
        }
    }
}

/// The words that stages write out, counted one stage after the other.
pub proof fn law_words_out(stages: Seq<StageModel>, k: int)
    requires
        0 <= k <= stages.len(),
    ensures
        words_out(stages, k) == Seq::new(k as nat, |i: int| stages[i].write_outs).flatten().len(),
    decreases k,
{
    let lists = Seq::new(k as nat, |i: int| stages[i].write_outs);
    if k > 0 {
        law_words_out(stages, k - 1);
        let less = Seq::new((k - 1) as nat, |i: int| stages[i].write_outs);
        assert(lists =~= less.push(stages[k - 1].write_outs));
        less.lemma_flatten_push(stages[k - 1].write_outs);
    } else {
        assert(lists.flatten() =~= Seq::empty());
    }
}

proof fn lemma_accesses_len(
    h: Header,
    perm: Seq<u32>,
    m: Memory,
    k: int,
)
    requires
        k <= h.num_srams <= h.num_ios,
        m.outs.len() == h.num_ios,
    ensures
        accesses(h, perm, m, k).outs.len() == m.outs.len(),
    decreases k,
{
    if k > 0 {
        lemma_accesses_len(h, perm, m, k - 1);
    }
}

} // verus!
