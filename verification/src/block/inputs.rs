//! Which bits of the state the inputs of a partition hold.
use crate::bits::{lemma_shifted_in, lemma_zero_bits};
use crate::block::laws::bit_of;
use crate::block::model::{inputs_read, picked, read_upto, state_word, Block, Effects, HEADER, WIDTH};
use vstd::prelude::*;

verus! {

/// The numbers of the bits from `k` on that are set in a word, the lowest first.
pub open spec fn ones_from(w: u32, k: int) -> Seq<u32>
    decreases 32 - k,
{
    if k >= 32 {
        Seq::empty()
    } else if bit_of(w, k as u32) == 1 {
        seq![k as u32] + ones_from(w, k + 1)
    } else {
        ones_from(w, k + 1)
    }
}

/// The bits of a word at given places.
pub open spec fn bits_at(w: u32, places: Seq<u32>) -> Seq<u32> {
    Seq::new(places.len(), |i: int| bit_of(w, places[i]))
}

/// Whether a word holds a list of bits, the last of them at bit 0 and each one above the
/// one that follows it, as far as there is room, and above them the bits of `high`.
pub open spec fn holds_bits(w: u32, list: Seq<u32>, high: u32) -> bool {
    &&& forall|n: int|
        0 <= n < list.len() && list.len() - 1 - n < 32 ==> bit_of(
            w,
            (list.len() - 1 - n) as u32,
        ) == #[trigger] list[n]
    &&& forall|k: u32|
        list.len() <= k < 32 ==> #[trigger] bit_of(w, k) == bit_of(high, (k - list.len()) as u32)
}

/// The bits that the rounds up to `r` read for word `i`, in order: those of a round are the
/// bits of the word that it names at the ones of its mask, the lowest first.
pub open spec fn bits_read(
    script: Seq<u32>,
    at: int,
    input: Seq<u32>,
    output: Seq<u32>,
    i: int,
    r: int,
) -> Seq<u32>
    decreases r,
{
    if r <= 0 {
        Seq::empty()
    } else {
        let p = at + (r - 1) * 512 + i * 2;
        bits_read(script, at, input, output, i, r - 1) + bits_at(
            state_word(input, output, script[p]),
            ones_from(script[p + 1], 0),
        )
    }
}

/// The places of ones from `k` on depend on the bits from `k` on only.
proof fn lemma_ones_same(a: u32, b: u32, k: int)
    requires
        0 <= k,
        forall|j: u32| k <= j < 32 ==> #[trigger] bit_of(a, j) == bit_of(b, j),
    ensures
        ones_from(a, k) == ones_from(b, k),
    decreases 32 - k,
{
    if k < 32 {
        assert(bit_of(a, k as u32) == bit_of(b, k as u32));
        lemma_ones_same(a, b, k + 1);
    }
}

/// A word without ones has no places of ones.
proof fn lemma_no_ones(k: int)
    requires
        0 <= k,
    ensures
        ones_from(0, k).len() == 0,
    decreases 32 - k,
{
    if k < 32 {
        lemma_zero_bits(k as u32);
        lemma_no_ones(k + 1);
    }
}

/// Removing the lowest one of a word.
proof fn lemma_lowest(mask: u32, k: u32, value: u32, j: u32)
    requires
        k < 32,
        j < 32,
        mask & (((1u32 << k) - 1) as u32) == 0,
    ensures
        bit_of(mask, k) != 1 ==> k < 31 ==> mask & (((1u32 << ((k + 1) as u32)) - 1) as u32) == 0,
        bit_of(mask, k) != 1 ==> k == 31 ==> mask == 0,
        bit_of(mask, k) == 1 ==> {
            let rest = mask & ((mask - 1) as u32);
            &&& mask != 0
            &&& rest < mask
            &&& (value & (mask ^ rest) != 0) == (bit_of(value, k) == 1)
            &&& k < 31 ==> rest & (((1u32 << ((k + 1) as u32)) - 1) as u32) == 0
            &&& k == 31 ==> rest == 0
            &&& j > k ==> bit_of(rest, j) == bit_of(mask, j)
        },
{
    assert(((mask >> k) & 1 != 1 ==> k < 31 ==> mask & (((1u32 << ((k + 1) as u32)) - 1) as u32) == 0)
        && ((mask >> k) & 1 != 1 ==> k == 31 ==> mask == 0) && ((mask >> k) & 1 == 1 ==> mask != 0
        && (mask & ((mask - 1) as u32)) < mask && ((value & (mask ^ (mask & ((mask - 1) as u32))) != 0)
        == ((value >> k) & 1 == 1)) && (k < 31 ==> (mask & ((mask - 1) as u32)) & (((1u32 << ((k
        + 1) as u32)) - 1) as u32) == 0) && (k == 31 ==> (mask & ((mask - 1) as u32)) == 0) && (j > k
        ==> ((mask & ((mask - 1) as u32)) >> j) & 1 == (mask >> j) & 1))) by (bit_vector)
        requires
            k < 32,
            j < 32,
            mask & (((1u32 << k) - 1) as u32) == 0,
    ;
}

/// Picking bits puts them into a word from below, one after the other.
proof fn lemma_picked(cur: u32, value: u32, mask: u32, k: int)
    requires
        0 <= k <= 32,
        k < 32 ==> mask & (((1u32 << (k as u32)) - 1) as u32) == 0,
        k == 32 ==> mask == 0,
    ensures
        holds_bits(picked(cur, value, mask), bits_at(value, ones_from(mask, k)), cur),
    decreases 32 - k,
{
    let list = bits_at(value, ones_from(mask, k));
    if mask == 0 {
        lemma_no_ones(k);
    } else {
        let b = k as u32;
        lemma_lowest(mask, b, value, 0);
        if bit_of(mask, b) != 1 {
            assert(bit_of(mask, b) != 1);
            lemma_picked(cur, value, mask, k + 1);
        } else {
            let rest = mask & ((mask - 1) as u32);
            let one: u32 = if value & (mask ^ rest) != 0 {
                1
            } else {
                0
            };
            let next = (cur << 1) | one;
            assert(picked(cur, value, mask) == picked(next, value, rest));
            lemma_picked(next, value, rest, k + 1);
            assert forall|j: u32| k + 1 <= j < 32 implies #[trigger] bit_of(rest, j) == bit_of(
                mask,
                j,
            ) by {
                lemma_lowest(mask, b, value, j);
            }
            lemma_ones_same(rest, mask, k + 1);
            let tail = bits_at(value, ones_from(mask, k + 1));
            let w = picked(cur, value, mask);
            assert(holds_bits(w, tail, next));
            assert(bit_of(value, b) <= 1) by {
                lemma_small(value, b);
            }
            assert(list =~= seq![one] + tail);
            assert forall|n: int| 0 <= n < list.len() && list.len() - 1 - n < 32 implies bit_of(
                w,
                (list.len() - 1 - n) as u32,
            ) == #[trigger] list[n] by {
                if n > 0 {
                    assert(list[n] == tail[n - 1]);
                } else {
                    let top = tail.len() as u32;
                    assert(bit_of(w, top) == bit_of(next, 0));
                    lemma_shifted_in(cur, one, 0);
                }
            }
            assert forall|t: u32| list.len() <= t < 32 implies #[trigger] bit_of(w, t) == bit_of(
                cur,
                (t - list.len()) as u32,
            ) by {
                lemma_shifted_in(cur, one, (t - tail.len()) as u32);
            }
        }
    }
}

proof fn lemma_small(w: u32, k: u32)
    ensures
        bit_of(w, k) <= 1,
{
    assert((w >> k) & 1 <= 1) by (bit_vector);
}

/// A word that holds bits below another word that holds bits holds all of them.
proof fn lemma_holds_joined(w: u32, list: Seq<u32>, high: u32, more: Seq<u32>)
    requires
        holds_bits(high, list, 0),
        holds_bits(w, more, high),
    ensures
        holds_bits(w, list + more, 0),
{
    let all = list + more;
    assert forall|n: int| 0 <= n < all.len() && all.len() - 1 - n < 32 implies bit_of(
        w,
        (all.len() - 1 - n) as u32,
    ) == #[trigger] all[n] by {
        if n < list.len() {
            let k = (all.len() - 1 - n) as u32;
            assert(bit_of(w, k) == bit_of(high, (k - more.len()) as u32));
            assert(bit_of(high, (list.len() - 1 - n) as u32) == list[n]);
        } else {
            assert(bit_of(w, (more.len() - 1 - (n - list.len())) as u32) == more[n - list.len()]);
        }
    }
    assert forall|k: u32| all.len() <= k < 32 implies #[trigger] bit_of(w, k) == bit_of(
        0,
        (k - all.len()) as u32,
    ) by {
        let h = (k - more.len()) as u32;
        assert(bit_of(w, k) == bit_of(high, h));
        assert(bit_of(high, h) == bit_of(0, (h - list.len()) as u32));
    }
}

proof fn lemma_read_upto(
    script: Seq<u32>,
    at: int,
    input: Seq<u32>,
    output: Seq<u32>,
    i: int,
    r: int,
)
    ensures
        holds_bits(
            read_upto(script, at, input, output, i, r),
            bits_read(script, at, input, output, i, r),
            0,
        ),
    decreases r,
{
    if r > 0 {
        lemma_read_upto(script, at, input, output, i, r - 1);
        let p = at + (r - 1) * 512 + i * 2;
        let value = state_word(input, output, script[p]);
        let mask = script[p + 1];
        let cur = read_upto(script, at, input, output, i, r - 1);
        assert(mask & (((1u32 << 0u32) - 1) as u32) == 0) by (bit_vector);
        lemma_picked(cur, value, mask, 0);
        lemma_holds_joined(
            read_upto(script, at, input, output, i, r),
            bits_read(script, at, input, output, i, r - 1),
            cur,
            bits_at(value, ones_from(mask, 0)),
        );
    }
}

/// The places of ones of a word are the numbers of its bits that are 1, in order.
pub proof fn law_ones(w: u32, k: int)
    requires
        0 <= k,
    ensures
        forall|b: u32| #[trigger] ones_from(w, k).contains(b) <==> k <= b < 32 && bit_of(w, b) == 1,
        forall|a: int, b: int|
            0 <= a < b < ones_from(w, k).len() ==> ones_from(w, k)[a] < ones_from(w, k)[b],
    decreases 32 - k,
{
    if k < 32 {
        law_ones(w, k + 1);
        let tail = ones_from(w, k + 1);
        let all = ones_from(w, k);
        if bit_of(w, k as u32) == 1 {
            assert(all == seq![k as u32] + tail);
            assert(all[0] == k as u32);
            assert forall|b: u32| #[trigger] all.contains(b) <==> b == k as u32 || tail.contains(b) by {
                if tail.contains(b) {
                    let i = tail.index_of(b);
                    assert(all[i + 1] == b);
                }
                if all.contains(b) && b != k as u32 {
                    let i = all.index_of(b);
                    assert(tail[i - 1] == b);
                }
            }
            assert forall|a: int, b: int| 0 <= a < b < all.len() implies all[a] < all[b] by {
                if a == 0 {
                    assert(tail.contains(tail[b - 1]));
                } else {
                    assert(all[a] == tail[a - 1] && all[b] == tail[b - 1]);
                }
            }
        }
    } else {
        assert forall|b: u32| !#[trigger] Seq::<u32>::empty().contains(b) by {}
    }
}

/// The inputs of a partition keep all bits that are read, of all rounds: if `N` bits are read
/// for word `i`, the one that is read as number `n` stands at bit `N - 1 - n`, as far as
/// there is room, and there are no others. The rounds come in order, and within one the
/// lowest one of its mask comes first; a bit is that of the word of the state that the round
/// names.
pub proof fn law_inputs_read(
    script: Seq<u32>,
    at: int,
    input: Seq<u32>,
    output: Seq<u32>,
    r: int,
    i: int,
    n: int,
)
    requires
        0 <= i < WIDTH,
    ensures
        ({
            let word = inputs_read(script, at, input, output, r)[i];
            let list = bits_read(script, at, input, output, i, r);
            &&& 0 <= n < list.len() && list.len() - 1 - n < 32 ==> bit_of(
                word,
                (list.len() - 1 - n) as u32,
            ) == list[n]
            &&& list.len() <= n < 32 ==> bit_of(word, n as u32) == 0
        }),
{
    lemma_read_upto(script, at, input, output, i, r);
    let list = bits_read(script, at, input, output, i, r);
    if 0 <= n < list.len() {
        assert(list[n] == list[n]);
    }
    if list.len() <= n < 32 {
        lemma_zero_bits((n - list.len()) as u32);
    }
}

/// The top bit of a word.
pub proof fn lemma_top_bit(idx: u32)
    ensures
        (idx >> 31 != 0) == (idx >= 0x8000_0000),
        idx >= 0x8000_0000 ==> (idx ^ 0x8000_0000) == idx - 0x8000_0000,
{
    assert((idx >> 31 != 0) == (idx >= 0x8000_0000) && (idx >= 0x8000_0000 ==> idx ^ 0x8000_0000
        == idx - 0x8000_0000)) by (bit_vector);
}

/// Which word of the state an index of a read names: below 2^31, one of the current state,
/// and above, one of the next state.
pub proof fn law_state_word(input: Seq<u32>, output: Seq<u32>, idx: u32)
    ensures
        state_word(input, output, idx) == if idx < 0x8000_0000 {
            input[idx as int]
        } else {
            output[idx - 0x8000_0000]
        },
{
    lemma_top_bit(idx);
}

impl Block {
    /// What the partition with its header at `at` gets as inputs, in terms of the words of the
    /// script: the number of rounds stands in word 6 of the header, and the reads follow the
    /// header, a word number and a mask for each of 256 words in each round.
    pub proof fn law_inputs(self, at: int, e: Effects, i: int, n: int)
        requires
            0 <= i < 256,
        ensures
            ({
                let word = self.inputs(at, e)[i];
                let list = bits_read(
                    self.script,
                    at + 256,
                    self.input,
                    e.output,
                    i,
                    self.script[at + 6] as int,
                );
                &&& self.inputs(at, e).len() == 256
                &&& 0 <= n < list.len() && list.len() - 1 - n < 32 ==> bit_of(
                    word,
                    (list.len() - 1 - n) as u32,
                ) == list[n]
                &&& list.len() <= n < 32 ==> bit_of(word, n as u32) == 0
            }),
    {
        law_inputs_read(
            self.script,
            at + HEADER,
            self.input,
            e.output,
            self.header(at).num_rounds as int,
            i,
            n,
        );
    }
}

} // verus!
