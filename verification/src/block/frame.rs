//! What a block leaves unchanged.
use crate::block::model::{
    access_ok, accessed, accesses, hierarchy, high_half, row_ok, row_recorded, rows_recorded,
    shuffled, stage_ok, stage_pos, stage_run, stages_ok, stages_run, Block, Effects, Header, Memory,
    Stages, HEADER, WIDTH,
};
use crate::pe::hier::FREE;
use crate::pe::plan::StageModel;
use vstd::prelude::*;

verus! {

/// Whether one of the first `k` slots of a row holds a pin.
pub open spec fn row_has(row: Seq<usize>, k: int, x: usize) -> bool {
    x != FREE && exists|j: int| 0 <= j < k && #[trigger] row[j] == x
}

/// Whether one of the rows 1 up to, not including, `hi` holds a pin.
pub open spec fn rows_have(hier: Seq<Seq<usize>>, hi: int, x: usize) -> bool {
    exists|r: int| 1 <= r < hi && row_has(#[trigger] hier[r], hier[r].len() as int, x)
}

/// Whether row 0 or one of the `n` rows above it holds a pin.
pub open spec fn stage_has(stage: StageModel, n: int, x: usize) -> bool {
    row_has(stage.hier[0], stage.hier[0].len() as int, x) || rows_have(stage.hier, n + 1, x)
}

/// Whether a row that is recorded of one of the first `b` stages holds a pin.
pub open spec fn stages_have(stages: Seq<StageModel>, b: int, x: usize) -> bool {
    exists|i: int| 0 <= i < b && stage_has(#[trigger] stages[i], stages.len() as int, x)
}

/// Whether the value of a pin is 0 or 1 if it was recorded, and as before otherwise.
pub open spec fn kept(before: Seq<u8>, after: Seq<u8>, x: usize, recorded: bool) -> bool {
    &&& after.len() == before.len()
    &&& x < before.len() ==> if recorded {
        after[x as int] <= 1
    } else {
        after[x as int] == before[x as int]
    }
}

proof fn lemma_bit(w: u32, k: u32)
    ensures
        ((w >> k) & 1) as u8 <= 1,
{
    assert(((w >> k) & 1) as u8 <= 1) by (bit_vector);
}

proof fn lemma_row(
    pins: Seq<u8>,
    row: Seq<usize>,
    words: Seq<u32>,
    offset: int,
    k: int,
    x: usize,
)
    requires
        0 <= k <= row.len(),
        row_ok(pins.len(), row, offset),
    ensures
        kept(pins, row_recorded(pins, row, words, offset, k), x, row_has(row, k, x)),
    decreases k,
{
    if k > 0 {
        lemma_row(pins, row, words, offset, k - 1, x);
        lemma_bit(words[(offset + k - 1) / 32], ((offset + k - 1) % 32) as u32);
        if row[k - 1] == x && x != FREE {
            assert(row_has(row, k, x));
        }
        if row_has(row, k - 1, x) {
            let j = choose|j: int| 0 <= j < k - 1 && #[trigger] row[j] == x;
            assert(row[j] == x);
        }
        if row_has(row, k, x) {
            let j = choose|j: int| 0 <= j < k && #[trigger] row[j] == x;
            if j < k - 1 {
                assert(row[j] == x);
            }
        }
        if row[k - 1] != FREE {
            assert(row[k - 1] < pins.len());
        }
    }
}

proof fn lemma_rows(pins: Seq<u8>, hier: Seq<Seq<usize>>, words: Seq<u32>, hi: int, x: usize)
    requires
        hi <= hier.len(),
        forall|r: int|
            1 <= r < hi ==> row_ok(pins.len(), #[trigger] hier[r], hier[r].len() as int),
    ensures
        kept(pins, rows_recorded(pins, hier, words, hi), x, rows_have(hier, hi, x)),
    decreases hi,
{
    if hi > 1 {
        lemma_rows(pins, hier, words, hi - 1, x);
        let prev = rows_recorded(pins, hier, words, hi - 1);
        let row = hier[hi - 1];
        assert(row_ok(pins.len(), hier[hi - 1], row.len() as int));
        lemma_row(prev, row, words, row.len() as int, row.len() as int, x);
        if rows_have(hier, hi - 1, x) {
            let r = choose|r: int|
                1 <= r < hi - 1 && row_has(#[trigger] hier[r], hier[r].len() as int, x);
            assert(row_has(hier[r], hier[r].len() as int, x));
        }
        if rows_have(hier, hi, x) {
            let r = choose|r: int|
                1 <= r < hi && row_has(#[trigger] hier[r], hier[r].len() as int, x);
            if r < hi - 1 {
                assert(row_has(hier[r], hier[r].len() as int, x));
            }
        }
        if row_has(row, row.len() as int, x) {
            assert(row_has(hier[hi - 1], row.len() as int, x));
        }
    }
}

proof fn lemma_stage(
    script: Seq<u32>,
    at: int,
    stage: StageModel,
    n: int,
    b: int,
    s: Stages,
    x: usize,
)
    requires
        stage_ok(script, at, stage, n, b, s),
        n >= 0,
    ensures
        kept(s.pins, stage_run(script, at, stage, n, b, s).pins, x, stage_has(stage, n, x)),
        stage_run(script, at, stage, n, b, s).outs.len() == s.outs.len(),
{
    let pos = stage_pos(script, at, b);
    let leaves = shuffled(script, pos, s.words, WIDTH as nat);
    let words = hierarchy(script, pos + 4096, leaves);
    let row = stage.hier[0];
    let first = row_recorded(s.pins, row, leaves, 0, row.len() as int);
    lemma_row(s.pins, row, leaves, 0, row.len() as int, x);
    lemma_rows(first, stage.hier, words, n + 1, x);
}

proof fn lemma_stages(
    script: Seq<u32>,
    at: int,
    stages: Seq<StageModel>,
    s: Stages,
    b: int,
    x: usize,
)
    requires
        0 <= b <= stages.len(),
        stages_ok(script, at, stages, s, b),
    ensures
        kept(s.pins, stages_run(script, at, stages, s, b).pins, x, stages_have(stages, b, x)),
        stages_run(script, at, stages, s, b).outs.len() == s.outs.len(),
    decreases b,
{
    if b > 0 {
        lemma_stages(script, at, stages, s, b - 1, x);
        let prev = stages_run(script, at, stages, s, b - 1);
        let n = stages.len() as int;
        lemma_stage(script, at, stages[b - 1], n, b - 1, prev, x);
        if stages_have(stages, b - 1, x) {
            let i = choose|i: int| 0 <= i < b - 1 && stage_has(#[trigger] stages[i], n, x);
            assert(stage_has(stages[i], n, x));
        }
        if stages_have(stages, b, x) {
            let i = choose|i: int| 0 <= i < b && stage_has(#[trigger] stages[i], n, x);
            if i < b - 1 {
                assert(stage_has(stages[i], n, x));
            }
        }
        if stage_has(stages[b - 1], n, x) {
            assert(stages_have(stages, b, x));
        }
    }
}

/// The word of the memory that access number `i` writes.
pub open spec fn written_word(h: Header, perm: Seq<u32>, i: int) -> int {
    h.sram_offset + i * 8192 + high_half(perm[i * 4])
}

/// Accesses to the memory blocks write one word of each block.
proof fn lemma_accesses(h: Header, perm: Seq<u32>, m: Memory, k: int, w: int)
    requires
        0 <= k <= h.num_srams,
        0 <= w < m.sram.len(),
        forall|i: int| 0 <= i < h.num_srams ==> #[trigger] access_ok(h, perm, m.sram.len(), i),
    ensures
        accesses(h, perm, m, k).sram.len() == m.sram.len(),
        (forall|i: int| 0 <= i < k ==> #[trigger] written_word(h, perm, i) != w) ==> accesses(
            h,
            perm,
            m,
            k,
        ).sram[w] == m.sram[w],
    decreases k,
{
    if k > 0 {
        lemma_accesses(h, perm, m, k - 1, w);
        assert(access_ok(h, perm, m.sram.len(), k - 1));
        let prev = accesses(h, perm, m, k - 1);
        assert(accesses(h, perm, m, k) == accessed(h, perm, prev, k - 1));
        if forall|i: int| 0 <= i < k ==> #[trigger] written_word(h, perm, i) != w {
            assert(written_word(h, perm, k - 1) != w);
        }
    }
}

proof fn lemma_accesses_len(h: Header, perm: Seq<u32>, m: Memory, k: int)
    requires
        k <= h.num_srams,
        forall|i: int| 0 <= i < h.num_srams ==> #[trigger] access_ok(h, perm, m.sram.len(), i),
    ensures
        accesses(h, perm, m, k).sram.len() == m.sram.len(),
    decreases k,
{
    if k > 0 {
        lemma_accesses_len(h, perm, m, k - 1);
        assert(access_ok(h, perm, m.sram.len(), k - 1));
    }
}

impl Block {
    /// The sections that are run from position `at` on: the position of each, and the
    /// number of its partition.
    pub open spec fn sections(self, at: int, n: int) -> Seq<(int, int)>
        decreases
                if at <= self.script.len() {
                    self.script.len() - at
                } else {
                    0
                },
    {
        if at < 0 || at + HEADER > self.script.len() || self.header(at).num_stages == 0 {
            Seq::empty()
        } else if self.header(at).is_last {
            seq![(at, n)]
        } else {
            seq![(at, n)] + self.sections(self.sram_pos(at) + 10240, n + 1)
        }
    }

    /// Whether a word of the next state is one of the outputs of a section.
    pub open spec fn stores(self, at: int, p: int) -> bool {
        self.header(at).io_offset <= p < self.header(at).io_offset + self.header(at).num_ios
    }

    /// Whether the value of a pin is recorded in a section.
    pub open spec fn records(self, sec: (int, int), x: usize) -> bool {
        stages_have(self.stages(sec.1), self.stages(sec.1).len() as int, x)
    }

    /// Whether the value of a pin is recorded in one of the sections.
    pub open spec fn recorded_in(self, secs: Seq<(int, int)>, x: usize) -> bool {
        exists|k: int| 0 <= k < secs.len() && self.records(#[trigger] secs[k], x)
    }

    /// Whether `ws` gives a word of each memory block of a section.
    pub open spec fn one_word_each(self, at: int, ws: Seq<int>) -> bool {
        let h = self.header(at);
        &&& ws.len() == h.num_srams
        &&& forall|i: int|
            0 <= i < ws.len() ==> h.sram_offset + i * 8192 <= #[trigger] ws[i] < h.sram_offset + (i
                + 1) * 8192
    }

    /// Whether only the outputs of sections change in the next state.
    pub open spec fn outputs_framed(self, secs: Seq<(int, int)>, e: Effects, f: Effects) -> bool {
        &&& f.output.len() == e.output.len()
        &&& forall|p: int|
            0 <= p < e.output.len() && (forall|k: int|
                0 <= k < secs.len() ==> !self.stores((#[trigger] secs[k]).0, p))
                ==> #[trigger] f.output[p] == e.output[p]
    }

    /// Whether at most the words `ws` of the memory change, one of each memory block of
    /// each section.
    pub open spec fn memory_framed(
        self,
        secs: Seq<(int, int)>,
        ws: Seq<Seq<int>>,
        e: Effects,
        f: Effects,
    ) -> bool {
        &&& f.sram.len() == e.sram.len()
        &&& ws.len() == secs.len()
        &&& forall|k: int|
            0 <= k < secs.len() ==> self.one_word_each((#[trigger] secs[k]).0, ws[k])
        &&& forall|w: int|
            0 <= w < e.sram.len() && (forall|k: int|
                0 <= k < ws.len() ==> !(#[trigger] ws[k]).contains(w)) ==> #[trigger] f.sram[w]
                == e.sram[w]
    }

    /// Whether pins that stand in no row that is recorded keep their value, and the others
    /// have the value 0 or 1.
    pub open spec fn pins_framed(self, secs: Seq<(int, int)>, e: Effects, f: Effects) -> bool {
        &&& f.pins.len() == e.pins.len()
        &&& forall|x: usize| #[trigger] kept(e.pins, f.pins, x, self.recorded_in(secs, x))
    }

    /// Whether inputs are logged for the partitions of the sections, in order.
    pub open spec fn log_framed(self, secs: Seq<(int, int)>, e: Effects, f: Effects) -> bool {
        &&& f.log.len() == e.log.len() + secs.len()
        &&& forall|k: int|
            0 <= k < secs.len() ==> (#[trigger] f.log[e.log.len() + k]).0 == self.indices[secs[k].1]
        &&& forall|k: int| 0 <= k < e.log.len() ==> #[trigger] f.log[k] == e.log[k]
    }

    /// What one section leaves unchanged.
    proof fn lemma_part_frame(self, at: int, n: int, e: Effects) -> (ws: Seq<int>)
        requires
            0 <= n,
            self.part_ok(at, n, e),
        ensures
            self.outputs_framed(seq![(at, n)], e, self.part_run(at, n, e)),
            self.memory_framed(seq![(at, n)], seq![ws], e, self.part_run(at, n, e)),
            self.pins_framed(seq![(at, n)], e, self.part_run(at, n, e)),
            self.log_framed(seq![(at, n)], e, self.part_run(at, n, e)),
    {
        let h = self.header(at);
        let f = self.part_run(at, n, e);
        let outs = self.after_stages(at, n, e).outs;
        let perm = self.perm(at, outs);
        let m = Memory { sram: e.sram, outs };
        let ws = Seq::new(h.num_srams as nat, |i: int| written_word(h, perm, i));
        let secs = seq![(at, n)];
        assert(secs[0] == (at, n));
        lemma_accesses_len(h, perm, m, h.num_srams as int);
        assert forall|i: int| 0 <= i < ws.len() implies h.sram_offset + i * 8192 <= #[trigger] ws[i]
            < h.sram_offset + (i + 1) * 8192 by {
            assert(access_ok(h, perm, e.sram.len(), i));
        }
        assert forall|w: int|
            0 <= w < e.sram.len() && (forall|k: int|
                0 <= k < seq![ws].len() ==> !(#[trigger] seq![ws][k]).contains(
                    w,
                )) implies #[trigger] f.sram[w] == e.sram[w] by {
            assert(!seq![ws][0].contains(w));
            lemma_accesses(h, perm, m, h.num_srams as int, w);
            assert forall|i: int| 0 <= i < h.num_srams implies #[trigger] written_word(h, perm, i)
                != w by {
                assert(ws[i] == written_word(h, perm, i));
            }
        }
        assert forall|p: int|
            0 <= p < e.output.len() && (forall|k: int|
                0 <= k < secs.len() ==> !self.stores(
                    (#[trigger] secs[k]).0,
                    p,
                )) implies #[trigger] f.output[p] == e.output[p] by {
            assert(!self.stores(secs[0].0, p));
        }
        assert forall|x: usize| #[trigger]
            kept(e.pins, f.pins, x, self.recorded_in(secs, x)) by {
            lemma_stages(
                self.script,
                at,
                self.stages(n),
                self.before_stages(at, e),
                h.num_stages as int,
                x,
            );
            if self.records((at, n), x) {
                assert(self.records(secs[0], x));
            }
        }
        assert(kept(e.pins, f.pins, 0, self.recorded_in(secs, 0)));
        ws
    }

    proof fn lemma_outputs_joined(
        self,
        a: Seq<(int, int)>,
        b: Seq<(int, int)>,
        e: Effects,
        g: Effects,
        f: Effects,
    )
        requires
            self.outputs_framed(a, e, g),
            self.outputs_framed(b, g, f),
        ensures
            self.outputs_framed(a + b, e, f),
    {
        let c = a + b;
        assert forall|p: int|
            0 <= p < e.output.len() && (forall|k: int|
                0 <= k < c.len() ==> !self.stores(
                    (#[trigger] c[k]).0,
                    p,
                )) implies #[trigger] f.output[p] == e.output[p] by {
            assert forall|k: int| 0 <= k < a.len() implies !self.stores((#[trigger] a[k]).0, p) by {
                assert(c[k] == a[k]);
            }
            assert forall|k: int| 0 <= k < b.len() implies !self.stores((#[trigger] b[k]).0, p) by {
                assert(c[a.len() + k] == b[k]);
            }
            assert(g.output[p] == e.output[p]);
        }
    }

    proof fn lemma_memory_joined(
        self,
        a: Seq<(int, int)>,
        b: Seq<(int, int)>,
        va: Seq<Seq<int>>,
        vb: Seq<Seq<int>>,
        e: Effects,
        g: Effects,
        f: Effects,
    )
        requires
            self.memory_framed(a, va, e, g),
            self.memory_framed(b, vb, g, f),
        ensures
            self.memory_framed(a + b, va + vb, e, f),
    {
        let c = a + b;
        let ws = va + vb;
        assert forall|k: int| 0 <= k < c.len() implies self.one_word_each(
            (#[trigger] c[k]).0,
            ws[k],
        ) by {
            if k < a.len() {
                assert(c[k] == a[k] && ws[k] == va[k]);
            } else {
                assert(c[k] == b[k - a.len()] && ws[k] == vb[k - a.len()]);
            }
        }
        assert forall|w: int|
            0 <= w < e.sram.len() && (forall|k: int|
                0 <= k < ws.len() ==> !(#[trigger] ws[k]).contains(w)) implies #[trigger] f.sram[w]
            == e.sram[w] by {
            assert forall|k: int| 0 <= k < va.len() implies !(#[trigger] va[k]).contains(w) by {
                assert(ws[k] == va[k]);
            }
            assert forall|k: int| 0 <= k < vb.len() implies !(#[trigger] vb[k]).contains(w) by {
                assert(ws[va.len() + k] == vb[k]);
            }
            assert(g.sram[w] == e.sram[w]);
        }
    }

    proof fn lemma_pins_joined(
        self,
        a: Seq<(int, int)>,
        b: Seq<(int, int)>,
        e: Effects,
        g: Effects,
        f: Effects,
    )
        requires
            self.pins_framed(a, e, g),
            self.pins_framed(b, g, f),
        ensures
            self.pins_framed(a + b, e, f),
    {
        let c = a + b;
        assert forall|x: usize| #[trigger] kept(e.pins, f.pins, x, self.recorded_in(c, x)) by {
            assert(kept(e.pins, g.pins, x, self.recorded_in(a, x)));
            assert(kept(g.pins, f.pins, x, self.recorded_in(b, x)));
            if self.recorded_in(a, x) {
                let k = choose|k: int| 0 <= k < a.len() && self.records(#[trigger] a[k], x);
                assert(c[k] == a[k]);
            }
            if self.recorded_in(b, x) {
                let k = choose|k: int| 0 <= k < b.len() && self.records(#[trigger] b[k], x);
                assert(c[a.len() + k] == b[k]);
            }
            if self.recorded_in(c, x) {
                let k = choose|k: int| 0 <= k < c.len() && self.records(#[trigger] c[k], x);
                if k < a.len() {
                    assert(self.records(a[k], x));
                } else {
                    assert(self.records(b[k - a.len()], x));
                }
            }
        }
    }

    proof fn lemma_log_joined(
        self,
        a: Seq<(int, int)>,
        b: Seq<(int, int)>,
        e: Effects,
        g: Effects,
        f: Effects,
    )
        requires
            self.log_framed(a, e, g),
            self.log_framed(b, g, f),
        ensures
            self.log_framed(a + b, e, f),
    {
        let c = a + b;
        assert forall|k: int| 0 <= k < c.len() implies (#[trigger] f.log[e.log.len() + k]).0
            == self.indices[c[k].1] by {
            if k < a.len() {
                assert(f.log[e.log.len() + k] == g.log[e.log.len() + k]);
            } else {
                assert(f.log[g.log.len() + (k - a.len())].0 == self.indices[b[k - a.len()].1]);
            }
        }
        assert forall|k: int| 0 <= k < e.log.len() implies #[trigger] f.log[k] == e.log[k] by {
            assert(g.log[k] == e.log[k]);
        }
    }

    /// What a block leaves unchanged when it is run. In the next state, only the outputs of
    /// its sections change. Of each memory block of a section at most one word changes;
    /// `ws` gives it for each section. Pins that stand in no row that is recorded keep
    /// their value, the others have the value 0 or 1. Inputs are logged for the partitions
    /// of the sections, in order.
    pub proof fn law_frame(self, at: int, n: int, e: Effects) -> (ws: Seq<Seq<int>>)
        requires
            0 <= n,
            self.run(at, n, e) is Some,
        ensures
            ({
                let f = self.run(at, n, e).unwrap();
                let secs = self.sections(at, n);
                &&& self.outputs_framed(secs, e, f)
                &&& self.memory_framed(secs, ws, e, f)
                &&& self.pins_framed(secs, e, f)
                &&& self.log_framed(secs, e, f)
            }),
        decreases
                if at <= self.script.len() {
                    self.script.len() - at
                } else {
                    0
                },
    {
        let f = self.run(at, n, e).unwrap();
        if self.header(at).num_stages == 0 {
            assert(!self.recorded_in(Seq::empty(), 0));
            Seq::empty()
        } else {
            let first = self.lemma_part_frame(at, n, e);
            if self.header(at).is_last {
                seq![first]
            } else {
                let next = self.part_run(at, n, e);
                let a = seq![(at, n)];
                let b = self.sections(self.sram_pos(at) + 10240, n + 1);
                let more = self.law_frame(self.sram_pos(at) + 10240, n + 1, next);
                self.lemma_outputs_joined(a, b, e, next, f);
                self.lemma_memory_joined(a, b, seq![first], more, e, next, f);
                self.lemma_pins_joined(a, b, e, next, f);
                self.lemma_log_joined(a, b, e, next, f);
                seq![first] + more
            }
        }
    }
}

} // verus!
