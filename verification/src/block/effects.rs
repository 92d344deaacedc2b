//! What the sections of a script do, bit by bit.
use crate::bits::{lemma_masked_bits, lemma_position};
use crate::block::laws::{bit_of, law_gate, law_narrow_rows, law_shuffled, law_wide_rows};
use crate::block::model::{
    accesses, duplicated, gate_at, hierarchy, high_half, hook, low_half, masked, narrow_rows,
    row_recorded, rows_recorded, shuffled, stages_run, stored, Block, Effects, Header, Memory, Stages, WIDTH,
};
use crate::pe::hier::FREE;
use crate::pe::plan::StageModel;
use vstd::arithmetic::power2::{lemma2_to64, pow2};
use vstd::prelude::*;

verus! {

/// The halves of a word, and the bytes of a half.
pub proof fn lemma_halves(t: u32)
    ensures
        low_half(t) == t % 65536,
        high_half(t) == t / 65536,
        t >> 8 == t / 256,
        t & 255 == t % 256,
        t % 65536 < 65536,
{
    assert(t & 0xffff == t % 65536 && t >> 16 == t / 65536 && t >> 8 == t / 256 && t & 255 == t % 256)
        by (bit_vector);
}

/// Where bit `c` of result `i` of a shuffle comes from: the number of a bit of the source.
/// There is one word of the script for two bits; those for bits `8 * q` to `8 * q + 7` of
/// all results stand together.
pub open spec fn shuffle_source(script: Seq<u32>, at: int, i: int, c: int) -> int {
    let t = script[at + 1024 * (c / 8) + 4 * i + (c % 8) / 2] as int;
    if c % 2 == 0 {
        t % 65536
    } else {
        t / 65536
    }
}

/// Each bit of each result of a shuffle is the bit of the source with the number that the
/// script gives.
pub proof fn law_shuffle_bits(script: Seq<u32>, at: int, src: Seq<u32>, n: nat, i: int, c: int)
    requires
        0 <= i < n,
        0 <= c < 32,
    ensures
        ({
            let s = shuffle_source(script, at, i, c);
            bit_of(shuffled(script, at, src, n)[i], c as u32) == bit_of(src[s / 32], (s % 32) as u32)
        }),
{
    let j = c / 2;
    law_shuffled(script, at, src, n, i, j);
    let t = script[at + (j / 4) * 1024 + i * 4 + j % 4];
    assert(c / 8 == j / 4 && (c % 8) / 2 == j % 4);
    lemma_halves(t);
    lemma_position(low_half(t));
    lemma_position(high_half(t));
}

/// Each slot of word `p` of a hierarchy is an and gate with the flags that stand in the
/// script at `4 * p` for this word: whether the first input is inverted, whether the second
/// is, and whether the second is ignored.
pub proof fn law_gate_at(script: Seq<u32>, flags: int, p: int, a: u32, b: u32, k: u32)
    requires
        k < 32,
    ensures
        (bit_of(gate_at(script, flags, p, a, b), k) == 1) == {
            &&& bit_of(a, k) != bit_of(script[flags + 4 * p], k)
            &&& bit_of(b, k) != bit_of(script[flags + 4 * p + 1], k) || bit_of(
                script[flags + 4 * p + 2],
                k,
            ) == 1
        },
{
    law_gate(a, b, script[flags + p * 4], script[flags + p * 4 + 1], script[flags + p * 4 + 2], k);
}

/// The slot of a hierarchy with number `s`: slot `j` of a row of `w` slots has the number
/// `w + j`. `row` is the row below, whose slots have the numbers from `2 * w` on; the lowest
/// row of gates, of 4096 slots, stands on the leaves, whose slots have the numbers from 0 on.
pub open spec fn slot_bit(words: Seq<u32>, s: int) -> u32 {
    bit_of(words[s / 32], (s % 32) as u32)
}

/// Every slot of a hierarchy is an and gate of two slots of the row below: slot `j` of a row
/// of `w` slots combines slots `j` and `j + w` of the row below, with the flags of its word.
/// `w` is a power of two up to 4096.
pub proof fn law_slots(script: Seq<u32>, flags: int, leaves: Seq<u32>, h: nat, j: int)
    requires
        h <= 12,
        leaves.len() == WIDTH,
        0 <= j < pow2(h),
    ensures
        ({
            let words = hierarchy(script, flags, leaves);
            let w = pow2(h) as int;
            let p = (w + j) / 32;
            let k = ((w + j) % 32) as u32;
            let a = if h == 12 {
                slot_bit(leaves, j)
            } else {
                slot_bit(words, 2 * w + j)
            };
            let b = if h == 12 {
                slot_bit(leaves, j + w)
            } else {
                slot_bit(words, 2 * w + j + w)
            };
            &&& words.len() == WIDTH
            &&& (slot_bit(words, w + j) == 1) == {
                &&& a != bit_of(script[flags + 4 * p], k)
                &&& b != bit_of(script[flags + 4 * p + 1], k) || bit_of(
                    script[flags + 4 * p + 2],
                    k,
                ) == 1
            }
        }),
{
    lemma2_to64();
    let words = hierarchy(script, flags, leaves);
    let w = pow2(h) as int;
    if h >= 5 {
        let r = (12 - h) as int;
        let d = pow2((h - 5) as nat) as int;
        assert(w == 32 * d) by {
            lemma_thirty_two(h);
        }
        let p = (w + j) / 32;
        let k = ((w + j) % 32) as u32;
        assert(p == d + j / 32 && k == j % 32);
        assert((2 * w + j) / 32 == p + d && (2 * w + j) % 32 == k);
        assert((2 * w + j + w) / 32 == p + 2 * d && (2 * w + j + w) % 32 == k);
        law_wide_rows(script, flags, leaves, r, p);
        if h == 12 {
            assert(j / 32 == p - 128 && (j + w) / 32 == p && (j + w) % 32 == k);
            law_gate_at(script, flags, p, leaves[p - 128], leaves[p], k);
        } else {
            law_gate_at(script, flags, p, words[p + d], words[p + 2 * d], k);
        }
    } else {
        let v = words[1];
        let xa = script[flags];
        let xb = script[flags + 1];
        let ob = script[flags + 2];
        let r = words[0];
        assert(r == narrow_rows(v, xa, xb, ob));
        law_narrow_rows(v, xa, xb, ob, r, j as u32);
        let k = (w + j) as u32;
        let a = if h == 4 {
            bit_of(v, j as u32)
        } else {
            bit_of(r, (2 * w + j) as u32)
        };
        let b = if h == 4 {
            bit_of(v, (16 + j) as u32)
        } else {
            bit_of(r, (2 * w + j + w) as u32)
        };
        assert(bit_of(r, k) == (a ^ bit_of(xa, k)) & ((b ^ bit_of(xb, k)) | bit_of(ob, k)));
        lemma_gate_bit(a, b, bit_of(xa, k), bit_of(xb, k), bit_of(ob, k));
        lemma_small_bits(v, r, xa, xb, ob, j as u32, (16 + j) as u32, (2 * w + j) as u32, (2 * w + j
            + w) as u32, k);
    }
}

proof fn lemma_thirty_two(h: nat)
    requires
        5 <= h <= 12,
    ensures
        pow2(h) == 32 * pow2((h - 5) as nat),
{
    lemma2_to64();
}

proof fn lemma_gate_bit(a: u32, b: u32, x: u32, y: u32, o: u32)
    ensures
        a <= 1 && b <= 1 && x <= 1 && y <= 1 && o <= 1 ==> ((a ^ x) & ((b ^ y) | o) == 1) == (a != x
            && (b != y || o == 1)),
{
    assert(a <= 1 && b <= 1 && x <= 1 && y <= 1 && o <= 1 ==> ((a ^ x) & ((b ^ y) | o) == 1) == (a
        != x && (b != y || o == 1))) by (bit_vector);
}

proof fn lemma_small_bits(
    v: u32,
    r: u32,
    xa: u32,
    xb: u32,
    ob: u32,
    i: u32,
    j: u32,
    s: u32,
    t: u32,
    k: u32,
)
    ensures
        bit_of(v, i) <= 1,
        bit_of(v, j) <= 1,
        bit_of(r, s) <= 1,
        bit_of(r, t) <= 1,
        bit_of(xa, k) <= 1,
        bit_of(xb, k) <= 1,
        bit_of(ob, k) <= 1,
{
    assert((v >> i) & 1 <= 1 && (v >> j) & 1 <= 1 && (r >> s) & 1 <= 1 && (r >> t) & 1 <= 1 && (xa
        >> k) & 1 <= 1 && (xb >> k) & 1 <= 1 && (ob >> k) & 1 <= 1) by (bit_vector);
}

/// Where word `i` of the outputs is taken from: the number of the stage, and the word of its
/// hierarchy.
pub open spec fn hook_of(script: Seq<u32>, header: int, i: int) -> (int, int) {
    let t = script[header + 128 + i / 2] as int;
    let h = if i % 2 == 0 {
        t % 65536
    } else {
        t / 65536
    };
    (h / 256, h % 256)
}

/// The stage and the word that a hook names.
pub proof fn lemma_hook(script: Seq<u32>, header: int, i: int)
    ensures
        hook(script, header, i) >> 8 == hook_of(script, header, i).0,
        hook(script, header, i) & 255 == hook_of(script, header, i).1,
{
    lemma_halves(script[header + 128 + i / 2]);
    lemma_halves(hook(script, header, i));
}

/// Each word of the outputs is the word of the hierarchy of the stage that its hook names,
/// and what it was before if that stage has not been run.
pub proof fn law_hooks(
    script: Seq<u32>,
    at: int,
    stages: Seq<StageModel>,
    s: Stages,
    b: int,
    i: int,
)
    requires
        0 <= b,
        0 <= i < s.outs.len(),
        i < WIDTH,
    ensures
        stages_run(script, at, stages, s, b).outs.len() == s.outs.len(),
        ({
            let (n, w) = hook_of(script, at, i);
            stages_run(script, at, stages, s, b).outs[i] == if n < b {
                stages_run(script, at, stages, s, n + 1).words[w]
            } else {
                s.outs[i]
            }
        }),
    decreases b,
{
    lemma_hook(script, at, i);
    if b > 0 {
        law_hooks(script, at, stages, s, b - 1, i);
    }
}

/// A stage shuffles the words that it finds, and computes a hierarchy from the result. Its
/// part of the script follows the header, the reads and the stages before it.
pub proof fn law_stage_words(
    script: Seq<u32>,
    at: int,
    stages: Seq<StageModel>,
    s: Stages,
    b: int,
)
    requires
        0 <= b,
    ensures
        ({
            let pos = at + 256 + 512 * script[at + 6] + 5120 * b;
            let before = stages_run(script, at, stages, s, b);
            let after = stages_run(script, at, stages, s, b + 1);
            &&& stages_run(script, at, stages, s, 0) == s
            &&& after.words == hierarchy(script, pos + 4096, shuffled(script, pos, before.words, 256))
        }),
{
}

/// Whether slot `k` is the last of the first `n` of a row that holds a pin.
pub open spec fn last_slot(row: Seq<usize>, x: usize, n: int, k: int) -> bool {
    &&& 0 <= k < n
    &&& row[k] == x
    &&& forall|j: int| k < j < n ==> #[trigger] row[j] != x
}

/// Recording a row gives each pin in it the bit of its slot, of its last one if it stands in
/// several; the values of other pins stay.
pub proof fn law_row_recorded(
    pins: Seq<u8>,
    row: Seq<usize>,
    words: Seq<u32>,
    offset: int,
    n: int,
    x: usize,
)
    requires
        0 <= n <= row.len(),
        0 <= offset,
        x < pins.len(),
        x != FREE,
        forall|k: int| 0 <= k < row.len() && #[trigger] row[k] != FREE ==> row[k] < pins.len(),
    ensures
        row_recorded(pins, row, words, offset, n).len() == pins.len(),
        forall|k: int| #[trigger]
            last_slot(row, x, n, k) ==> row_recorded(pins, row, words, offset, n)[x as int]
                == slot_bit(words, offset + k),
        (forall|k: int| 0 <= k < n ==> #[trigger] row[k] != x) ==> row_recorded(
            pins,
            row,
            words,
            offset,
            n,
        )[x as int] == pins[x as int],
    decreases n,
{
    if n > 0 {
        law_row_recorded(pins, row, words, offset, n - 1, x);
        let prev = row_recorded(pins, row, words, offset, n - 1);
        let now = row_recorded(pins, row, words, offset, n);
        let s = offset + n - 1;
        lemma_small_bits(words[s / 32], 0, 0, 0, 0, (s % 32) as u32, 0, 0, 0, 0);
        assert(slot_bit(words, s) <= 1);
        assert forall|k: int| #[trigger] last_slot(row, x, n, k) implies now[x as int] == slot_bit(
            words,
            offset + k,
        ) by {
            if k < n - 1 {
                assert(row[n - 1] != x);
                assert(last_slot(row, x, n - 1, k));
            }
        }
        if forall|k: int| 0 <= k < n ==> #[trigger] row[k] != x {
            assert(row[n - 1] != x);
        }
    }
}

/// Forcing bits to zero and then inverting bits, as the flags of each word say: a bit is
/// inverted where the first flag is set, after it was cleared where the second is.
pub proof fn law_masked(script: Seq<u32>, flags: int, words: Seq<u32>, i: int, k: u32)
    requires
        0 <= i < words.len(),
        k < 32,
    ensures
        masked(script, flags, words).len() == words.len(),
        (bit_of(masked(script, flags, words)[i], k) == 1) == ((bit_of(words[i], k) == 1 && bit_of(
            script[flags + 4 * i + 1],
            k,
        ) != 1) != (bit_of(script[flags + 4 * i], k) == 1)),
{
    let w = words[i];
    let e = script[flags + i * 4 + 1];
    let d = script[flags + i * 4];
    lemma_masked_bits(w, d, e, k);
    lemma_small_bits(w, d, e, 0, 0, k, k, k, k, k);
    lemma_small_bits(e, d, w, 0, 0, k, k, k, k, k);
}

/// What the accesses to memory blocks do. Each memory block has 8192 words. Access `i` reads
/// the word whose number is in the lower half of word `4 * i`, as it was before; the bits of
/// the word whose number is in the upper half become those of word `4 * i + 2` where those
/// of word `4 * i + 1` are set. What is read becomes an output; nothing else changes.
pub proof fn law_accesses(h: Header, perm: Seq<u32>, m: Memory, k: int, i: int, a: int, b: u32)
    requires
        0 <= k <= h.num_srams,
        h.num_srams <= h.num_ios,
        m.outs.len() == h.num_ios,
        perm.len() >= 4 * h.num_srams,
        h.sram_offset + h.num_srams * 8192 <= m.sram.len(),
        forall|t: int|
            0 <= t < h.num_srams ==> #[trigger] perm[4 * t] % 65536 < 8192 && perm[4 * t] / 65536
                < 8192,
        0 <= i < h.num_srams,
        0 <= a < 8192,
        b < 32,
    ensures
        ({
            let n = accesses(h, perm, m, k);
            let base = h.sram_offset + 8192 * i;
            &&& n.sram.len() == m.sram.len()
            &&& n.outs.len() == m.outs.len()
            &&& n.outs[h.num_ios - h.num_srams + i] == if i < k {
                m.sram[base + perm[4 * i] % 65536]
            } else {
                m.outs[h.num_ios - h.num_srams + i]
            }
            &&& bit_of(n.sram[base + a], b) == if i < k && a == perm[4 * i] / 65536 && bit_of(
                perm[4 * i + 1],
                b,
            ) == 1 {
                bit_of(perm[4 * i + 2], b)
            } else {
                bit_of(m.sram[base + a], b)
            }
            &&& i >= k ==> n.sram[base + a] == m.sram[base + a]
            &&& forall|t: int|
                0 <= t < h.num_ios - h.num_srams ==> #[trigger] n.outs[t] == m.outs[t]
            &&& forall|t: int|
                0 <= t < m.sram.len() && !(h.sram_offset <= t < h.sram_offset + 8192
                    * h.num_srams) ==> #[trigger] n.sram[t] == m.sram[t]
        }),
    decreases k,
{
    if k > 0 {
        let j = k - 1;
        law_accesses(h, perm, m, k - 1, i, a, b);
        let was = accesses(h, perm, m, k - 1);
        let now = accesses(h, perm, m, k);
        let t = perm[4 * j];
        assert(perm[4 * j] % 65536 < 8192);
        lemma_halves(t);
        assert(perm[j * 4] == t);
        let base = h.sram_offset + j * 8192;
        let r = base + t % 65536;
        let w = base + t / 65536;
        let en = perm[4 * j + 1];
        let data = perm[4 * j + 2];
        if i == j {
            law_accesses(h, perm, m, k - 1, i, (t % 65536) as int, b);
            law_accesses(h, perm, m, k - 1, i, (t / 65536) as int, b);
            lemma_masked_bits(was.sram[w], data, en, b);
        } else {
            assert(h.sram_offset + 8192 * i + a != w) by {
                assert(i < j ==> 8192 * i + 8192 <= 8192 * j);
                assert(i > j ==> 8192 * j + 8192 <= 8192 * i);
            }
        }
    }
}

/// The outputs that are stored once more stand in front of those of the memory blocks; all
/// other outputs stay.
pub proof fn law_duplicated(h: Header, outs: Seq<u32>, perm: Seq<u32>, i: int)
    requires
        h.num_srams + h.num_dups <= h.num_ios,
        outs.len() == h.num_ios,
        0 <= i < h.num_ios,
    ensures
        ({
            let r = duplicated(h, outs, perm);
            let from_end = h.num_ios - h.num_srams - i;
            &&& r.len() == outs.len()
            &&& 0 < from_end <= h.num_dups ==> r[i] == perm[4 * h.num_srams + h.num_dups - from_end]
            &&& !(0 < from_end <= h.num_dups) ==> r[i] == outs[i]
        }),
{
}

/// The next state holds the outputs: a bit whose clock enable is set is that of the output,
/// inverted where its flag says so, and a bit whose clock enable is not set is that of the
/// current state. Words that are no outputs stay as they are.
pub proof fn law_stored(
    script: Seq<u32>,
    flags: int,
    h: Header,
    input: Seq<u32>,
    output: Seq<u32>,
    outs: Seq<u32>,
    enable: Seq<u32>,
    i: int,
    k: u32,
)
    requires
        k < 32,
        0 <= i < h.num_ios,
        h.io_offset + h.num_ios <= output.len(),
    ensures
        ({
            let r = stored(script, flags, h, input, output, outs, enable);
            let p = h.io_offset + i;
            &&& r.len() == output.len()
            &&& bit_of(enable[i], k) == 1 ==> (bit_of(r[p], k) == 1) == ((bit_of(outs[i], k) == 1)
                != (bit_of(script[flags + 4 * i + 2], k) == 1))
            &&& bit_of(enable[i], k) != 1 ==> bit_of(r[p], k) == bit_of(input[p], k)
            &&& forall|q: int|
                0 <= q < output.len() && !(h.io_offset <= q < h.io_offset + h.num_ios)
                    ==> #[trigger] r[q] == output[q]
        }),
{
    let f = script[flags + i * 4 + 2];
    let p = h.io_offset + i;
    lemma_masked_bits(input[p], outs[i] ^ f, enable[i], k);
    lemma_masked_bits(outs[i], f, 0, k);
    lemma_small_bits(outs[i], f, 0, 0, 0, k, k, k, k, k);
}

/// Whether row `r` is the last of the rows from 1 up to, not including, `hi` that holds a
/// pin.
pub open spec fn last_row(hier: Seq<Seq<usize>>, x: usize, hi: int, r: int) -> bool {
    &&& 1 <= r < hi
    &&& hier[r].contains(x)
    &&& forall|q: int| r < q < hi ==> !(#[trigger] hier[q]).contains(x)
}

/// Recording the rows of gates gives a pin the bit of its last slot in the last row that
/// holds it, where slot `k` of a row of `w` slots has the number `w + k`; other pins keep
/// their values.
pub proof fn law_rows_recorded(
    pins: Seq<u8>,
    hier: Seq<Seq<usize>>,
    words: Seq<u32>,
    hi: int,
    x: usize,
)
    requires
        0 <= hi <= hier.len(),
        x < pins.len(),
        x != FREE,
        forall|r: int, k: int|
            1 <= r < hier.len() && 0 <= k < hier[r].len() && #[trigger] hier[r][k] != FREE
                ==> hier[r][k] < pins.len(),
    ensures
        rows_recorded(pins, hier, words, hi).len() == pins.len(),
        forall|r: int, k: int| #[trigger]
            last_row(hier, x, hi, r) && #[trigger] last_slot(hier[r], x, hier[r].len() as int, k)
                ==> rows_recorded(pins, hier, words, hi)[x as int] == slot_bit(
                words,
                hier[r].len() + k,
            ),
        (forall|r: int| 1 <= r < hi ==> !(#[trigger] hier[r]).contains(x)) ==> rows_recorded(
            pins,
            hier,
            words,
            hi,
        )[x as int] == pins[x as int],
    decreases hi,
{
    if hi > 1 {
        law_rows_recorded(pins, hier, words, hi - 1, x);
        let row = hier[hi - 1];
        let w = row.len() as int;
        let prev = rows_recorded(pins, hier, words, hi - 1);
        let now = rows_recorded(pins, hier, words, hi);
        assert forall|k: int| 0 <= k < row.len() && #[trigger] row[k] != FREE implies row[k]
            < prev.len() by {
            assert(hier[hi - 1][k] != FREE);
        }
        law_row_recorded(prev, row, words, w, w, x);
        if !row.contains(x) {
            assert forall|k: int| 0 <= k < w implies #[trigger] row[k] != x by {
                assert(row.contains(row[k]));
            }
        }
        assert forall|r: int, k: int| #[trigger]
            last_row(hier, x, hi, r) && #[trigger] last_slot(
                hier[r],
                x,
                hier[r].len() as int,
                k,
            ) implies now[x as int] == slot_bit(words, hier[r].len() + k) by {
            if r < hi - 1 {
                assert(!hier[hi - 1].contains(x));
                assert(last_row(hier, x, hi - 1, r));
            }
        }
        if forall|r: int| 1 <= r < hi ==> !(#[trigger] hier[r]).contains(x) {
            assert(!hier[hi - 1].contains(x));
        }
    }
}

/// A stage records the pins of row 0 from its leaves, and then those of the rows up to the
/// number of stages from its hierarchy.
pub proof fn law_stage_recorded(
    script: Seq<u32>,
    at: int,
    stages: Seq<StageModel>,
    s: Stages,
    b: int,
)
    requires
        0 <= b,
    ensures
        ({
            let pos = at + 256 + 512 * script[at + 6] + 5120 * b;
            let before = stages_run(script, at, stages, s, b);
            let after = stages_run(script, at, stages, s, b + 1);
            let hier = stages[b].hier;
            after.pins == rows_recorded(
                row_recorded(
                    before.pins,
                    hier[0],
                    shuffled(script, pos, before.words, 256),
                    0,
                    hier[0].len() as int,
                ),
                hier,
                after.words,
                (stages.len() + 1) as int,
            )
        }),
{
}

/// The words of a section that are computed from its outputs after the stages: for memory
/// blocks, four words for each, and for outputs that are stored once more, one for each.
pub open spec fn extra_words(script: Seq<u32>, at: int, outs: Seq<u32>) -> Seq<u32> {
    let pos = at + 256 + 512 * script[at + 6] + 5120 * script[at];
    masked(
        script,
        pos + 4096,
        shuffled(script, pos, outs, (4 * script[at + 4] + script[at + 7]) as nat),
    )
}

/// The clock enables of the outputs of a section.
pub open spec fn enable_words(script: Seq<u32>, at: int, outs: Seq<u32>) -> Seq<u32> {
    let pos = at + 256 + 512 * script[at + 6] + 5120 * (script[at] + 1);
    masked(script, pos + 4096, shuffled(script, pos, outs, script[at + 2] as nat))
}

impl Block {
    /// What a section does, in terms of the words of the script. Its header holds the number of
    /// stages, whether it is the last section, the number of outputs, their place in the state,
    /// the number of memory blocks, their place, the number of rounds of reads and the number
    /// of outputs stored once more. The stages run on the inputs, with all outputs 0 at first;
    /// then the memory blocks are accessed, and the outputs are stored.
    pub proof fn law_section(self, at: int, n: int, e: Effects)
        ensures
            ({
                let s = self.script;
                let h = Header {
                    num_stages: s[at],
                    is_last: s[at + 1] != 0,
                    num_ios: s[at + 2],
                    io_offset: s[at + 3],
                    num_srams: s[at + 4],
                    sram_offset: s[at + 5],
                    num_rounds: s[at + 6],
                    num_dups: s[at + 7],
                };
                let stages = self.parts[self.indices[n] as int];
                let start = Stages {
                    words: self.inputs(at, e),
                    outs: Seq::new(s[at + 2] as nat, |i: int| 0u32),
                    pins: e.pins,
                };
                let end = stages_run(s, at, stages, start, s[at] as int);
                let extra = extra_words(s, at, end.outs);
                let m = accesses(
                    h,
                    extra,
                    Memory { sram: e.sram, outs: end.outs },
                    s[at + 4] as int,
                );
                let outs = duplicated(h, m.outs, extra);
                let flags = at + 256 + 512 * s[at + 6] + 5120 * (s[at] + 1) + 4096;
                let r = self.part_run(at, n, e);
                &&& r.output == stored(
                    s,
                    flags,
                    h,
                    self.input,
                    e.output,
                    outs,
                    enable_words(s, at, outs),
                )
                &&& r.sram == m.sram
                &&& r.pins == end.pins
                &&& r.log == e.log.push((self.indices[n], self.inputs(at, e)))
            }),
    {
        let s = self.script;
        let h = self.header(at);
        let end = self.after_stages(at, n, e);
        assert(self.perm(at, end.outs) =~= extra_words(s, at, end.outs));
        let outs = self.outputs(at, n, e);
        assert(self.enables(at, outs) =~= enable_words(s, at, outs));
    }

    /// Where the section after the one at `at` starts.
    pub open spec fn next_section(self, at: int) -> int {
        at + 256 + 512 * self.script[at + 6] + 5120 * (self.script[at] + 2)
    }

    /// Whether place `k` of `ats` is that of a section that follows the one before it, the first
    /// one standing at `at`; only the last is marked as the last.
    pub open spec fn section_at(self, at: int, ats: Seq<int>, k: int) -> bool {
        &&& 0 <= ats[k]
        &&& self.script[ats[k]] != 0
        &&& ats[k] == if k == 0 {
            at
        } else {
            self.next_section(ats[k - 1])
        }
        &&& k < ats.len() - 1 ==> self.script[ats[k] + 1] == 0
    }

    /// Whether `ats` are the places of the sections of a script from `at` on: each follows the
    /// one before it, and only the last is marked as the last. They fill the script; an empty
    /// header may stand at the end in place of the mark.
    pub open spec fn fills(self, at: int, ats: Seq<int>) -> bool {
        let len = self.script.len();
        &&& forall|k: int| 0 <= k < ats.len() ==> #[trigger] self.section_at(at, ats, k)
        &&& {
            let end = if ats.len() == 0 {
                at
            } else {
                self.next_section(ats.last())
            };
            ||| ats.len() > 0 && self.script[ats.last() + 1] != 0 && end == len
            ||| (ats.len() > 0 ==> self.script[ats.last() + 1] == 0) && end + 256 == len
                && self.script[end] == 0
        }
    }

    /// Whether the section at `at` can be run for partition `n`, and takes `e` to `f`.
    #[verifier::opaque]
    pub open spec fn section_step(self, at: int, n: int, e: Effects, f: Effects) -> bool {
        self.part_ok(at, n, e) && f == self.part_run(at, n, e)
    }

    /// One more section in front.
    proof fn lemma_fills_front(self, at: int, ats: Seq<int>)
        requires
            0 <= at,
            self.script[at] != 0,
            self.script[at + 1] == 0,
            self.fills(self.next_section(at), ats),
        ensures
            self.fills(at, seq![at] + ats),
    {
        let a = seq![at] + ats;
        assert(ats.len() > 0 ==> a.last() == ats.last());
        assert(ats.len() == 0 ==> a.last() == at);
        assert forall|k: int| 0 <= k < a.len() implies #[trigger] self.section_at(at, a, k) by {
            if k > 0 {
                assert(self.section_at(self.next_section(at), ats, k - 1));
                assert(a[k] == ats[k - 1]);
                if k > 1 {
                    assert(a[k - 1] == ats[k - 2]);
                }
            }
        }
    }

    proof fn lemma_step(self, at: int, n: int, e: Effects)
        requires
            self.part_ok(at, n, e),
        ensures
            self.section_step(at, n, e, self.part_run(at, n, e)),
    {
        reveal(Block::section_step);
    }

    /// What a run gives.
    #[verifier::opaque]
    spec fn outcome(self, at: int, n: int, e: Effects) -> Option<Effects> {
        self.run(at, n, e)
    }

    /// What comes first of a run.
    proof fn lemma_run_first(self, at: int, n: int, e: Effects) -> (next: Effects)
        requires
            self.outcome(at, n, e) is Some,
        ensures
            0 <= at <= self.script.len() - 256,
            self.next_section(at) > at,
            self.script[at] == 0 ==> at + 256 == self.script.len() && self.outcome(at, n, e) == Some(e),
            self.script[at] != 0 ==> {
                &&& self.section_step(at, n, e, next)
                &&& self.script[at + 1] != 0 ==> self.next_section(at) == self.script.len()
                    && self.outcome(at, n, e) == Some(next)
                &&& self.script[at + 1] == 0 ==> self.outcome(at, n, e) == self.outcome(
                    self.next_section(at),
                    n + 1,
                    next,
                )
            },
    {
        reveal(Block::outcome);
        let end = self.sram_pos(at) + 10240;
        assert(end == self.next_section(at));
        if self.script[at] != 0 {
            self.lemma_step(at, n, e);
            self.part_run(at, n, e)
        } else {
            e
        }
    }

    proof fn lemma_run(self, at: int, n: int, e: Effects) -> (r: (Seq<int>, Seq<Effects>))
        requires
            self.outcome(at, n, e) is Some,
        ensures
            self.fills(at, r.0),
            r.1.len() == r.0.len() + 1,
            r.1[0] == e,
            self.outcome(at, n, e) == Some(r.1.last()),
            forall|k: int|
                0 <= k < r.0.len() ==> self.section_step(#[trigger] r.0[k], n + k, r.1[k], r.1[k + 1]),
        decreases
                if at <= self.script.len() {
                    self.script.len() - at
                } else {
                    0
                },
    {
        let next = self.lemma_run_first(at, n, e);
        if self.script[at] == 0 {
            (Seq::empty(), seq![e])
        } else if self.script[at + 1] != 0 {
            (seq![at], seq![e, next])
        } else {
            let (ats, es) = self.lemma_run(self.next_section(at), n + 1, next);
            let a = seq![at] + ats;
            let f = seq![e] + es;
            assert(f.last() == es.last());
            self.lemma_fills_front(at, ats);
            assert forall|k: int| 0 <= k < a.len() implies self.section_step(
                #[trigger] a[k],
                n + k,
                f[k],
                f[k + 1],
            ) by {
                if k > 0 {
                    assert(a[k] == ats[k - 1] && f[k] == es[k - 1] && f[k + 1] == es[k]);
                    assert(self.section_step(ats[k - 1], n + 1 + (k - 1), es[k - 1], es[k]));
                } else {
                    assert(f[1] == es[0]);
                }
            }
            (a, f)
        }
    }

    /// Running a script runs its sections, one after the other, each on what the one before
    /// has left; the sections belong to the partitions of the block in order.
    pub proof fn law_run(self, at: int, n: int, e: Effects) -> (r: (Seq<int>, Seq<Effects>))
        requires
            self.run(at, n, e) is Some,
        ensures
            self.fills(at, r.0),
            r.1.len() == r.0.len() + 1,
            r.1[0] == e,
            self.run(at, n, e) == Some(r.1.last()),
            forall|k: int|
                0 <= k < r.0.len() ==> self.section_step(#[trigger] r.0[k], n + k, r.1[k], r.1[k + 1]),
    {
        assert(self.outcome(at, n, e) == self.run(at, n, e)) by {
            reveal(Block::outcome);
        }
        self.lemma_run(at, n, e)
    }
}

} // verus!
