//! What holds of the results of a script.
use crate::block::model::{
    bit_at, gate, gate_at, hierarchy, high_half, low_half, narrow_rows, rows_upto, shuffle_pos,
    shuffled, shuffled_upto, WIDTH,
};
use vstd::arithmetic::power2::{lemma2_to64, lemma_pow2_strictly_increases, lemma_pow2_unfold, pow2};
use vstd::prelude::*;

verus! {

/// Bit `k` of a word.
pub open spec fn bit_of(w: u32, k: u32) -> u32 {
    (w >> k) & 1
}

proof fn lemma_two_bits(x: u32, a: u32, b: u32, s: u32, j: u32)
    requires
        s <= 30,
        a <= 1,
        b <= 1,
        s == 0 ==> x == 0,
        x >> s == 0,
    ensures
        ((x | (a << s) | (b << ((s + 1) as u32))) >> s) & 1 == a,
        ((x | (a << s) | (b << ((s + 1) as u32))) >> ((s + 1) as u32)) & 1 == b,
        s < 30 ==> (x | (a << s) | (b << ((s + 1) as u32))) >> ((s + 2) as u32) == 0,
        j < s ==> ((x | (a << s) | (b << ((s + 1) as u32))) >> j) & 1 == (x >> j) & 1,
{
    assert(((x | (a << s) | (b << ((s + 1) as u32))) >> s) & 1 == a && ((x | (a << s) | (b << ((s
        + 1) as u32))) >> ((s + 1) as u32)) & 1 == b && (s < 30 ==> (x | (a << s) | (b << ((s
        + 1) as u32))) >> ((s + 2) as u32) == 0) && (j < s ==> ((x | (a << s) | (b << ((s
        + 1) as u32))) >> j) & 1 == (x >> j) & 1)) by (bit_vector)
        requires
            s <= 30,
            a <= 1,
            b <= 1,
            x >> s == 0,
    ;
}

proof fn lemma_bit_small(words: Seq<u32>, i: u32)
    ensures
        bit_at(words, i) <= 1,
{
    let w = words[(i >> 5) as int];
    let k = i & 31;
    assert((w >> k) & 1 <= 1) by (bit_vector);
}

proof fn lemma_shuffled_upto(script: Seq<u32>, at: int, src: Seq<u32>, i: int, k: int)
    requires
        0 <= k <= 16,
    ensures
        k < 16 ==> shuffled_upto(script, at, src, i, k) >> ((2 * k) as u32) == 0,
        forall|j: int|
            0 <= j < k ==> {
                let t = script[#[trigger] shuffle_pos(at, i, j)];
                let w = shuffled_upto(script, at, src, i, k);
                &&& bit_of(w, (2 * j) as u32) == bit_at(src, low_half(t))
                &&& bit_of(w, (2 * j + 1) as u32) == bit_at(src, high_half(t))
            },
    decreases k,
{
    if k > 0 {
        lemma_shuffled_upto(script, at, src, i, k - 1);
        let x = shuffled_upto(script, at, src, i, k - 1);
        let t = script[shuffle_pos(at, i, k - 1)];
        let a = bit_at(src, low_half(t));
        let b = bit_at(src, high_half(t));
        let s = (2 * (k - 1)) as u32;
        lemma_bit_small(src, low_half(t));
        lemma_bit_small(src, high_half(t));
        lemma_two_bits(x, a, b, s, 0);
        let w = shuffled_upto(script, at, src, i, k);
        assert(w == x | (a << s) | (b << ((s + 1) as u32)));
        assert forall|j: int| 0 <= j < k implies {
            let t = script[#[trigger] shuffle_pos(at, i, j)];
            &&& bit_of(w, (2 * j) as u32) == bit_at(src, low_half(t))
            &&& bit_of(w, (2 * j + 1) as u32) == bit_at(src, high_half(t))
        } by {
            if j < k - 1 {
                lemma_two_bits(x, a, b, s, (2 * j) as u32);
                lemma_two_bits(x, a, b, s, (2 * j + 1) as u32);
            }
        }
    } else {
        assert(0u32 >> 0u32 == 0) by (bit_vector);
    }
}

/// Each bit of each result of a shuffle is the bit of the source that the script names:
/// for the even bits in the lower half of a word, for the odd bits in the upper half.
pub proof fn law_shuffled(script: Seq<u32>, at: int, src: Seq<u32>, n: nat, i: int, j: int)
    requires
        0 <= i < n,
        0 <= j < 16,
    ensures
        ({
            let t = script[shuffle_pos(at, i, j)];
            let w = shuffled(script, at, src, n)[i];
            &&& bit_of(w, (2 * j) as u32) == bit_at(src, low_half(t))
            &&& bit_of(w, (2 * j + 1) as u32) == bit_at(src, high_half(t))
        }),
{
    lemma_shuffled_upto(script, at, src, i, 16);
}

/// Each slot of a word of gates is an and gate: an input is inverted where its flag is
/// set, and the second input is ignored where the third flag is set.
pub proof fn law_gate(a: u32, b: u32, xora: u32, xorb: u32, orb: u32, k: u32)
    requires
        k < 32,
    ensures
        (bit_of(gate(a, b, xora, xorb, orb), k) == 1) == {
            &&& bit_of(a, k) != bit_of(xora, k)
            &&& bit_of(b, k) != bit_of(xorb, k) || bit_of(orb, k) == 1
        },
{
    assert(((((a ^ xora) & ((b ^ xorb) | orb)) >> k) & 1 == 1) == ((((a >> k) & 1) != ((xora >> k)
        & 1)) && ((((b >> k) & 1) != ((xorb >> k) & 1)) || ((orb >> k) & 1) == 1))) by (bit_vector)
        requires
            k < 32,
    ;
}

/// A row of words stays as it is while the rows above it are computed.
proof fn lemma_rows_kept(script: Seq<u32>, flags: int, leaves: Seq<u32>, h: int, hi: int, p: int)
    requires
        0 <= h <= hi <= 7,
        pow2((7 - h) as nat) <= p < WIDTH,
    ensures
        rows_upto(script, flags, leaves, hi)[p] == rows_upto(script, flags, leaves, h)[p],
    decreases hi,
{
    if h < hi {
        lemma_rows_kept(script, flags, leaves, h, hi - 1, p);
        lemma_pow2_strictly_increases((7 - hi) as nat, (7 - h) as nat);
        lemma2_to64();
        assert(2 * pow2((7 - hi) as nat) <= pow2((7 - h) as nat)) by {
            lemma_pow2_unfold((8 - hi) as nat);
            if 8 - hi < 7 - h {
                lemma_pow2_strictly_increases((8 - hi) as nat, (7 - h) as nat);
            }
        }
    }
}

/// In the rows of whole words, the word `p` of a row of `2^(7-h)` words combines
/// the words `p` and `p + 2^(7-h)` of the row below; the lowest row of gates stands on
/// the leaves.
pub proof fn law_wide_rows(script: Seq<u32>, flags: int, leaves: Seq<u32>, h: int, p: int)
    requires
        0 <= h <= 7,
        leaves.len() == WIDTH,
        pow2((7 - h) as nat) <= p < 2 * pow2((7 - h) as nat),
        p >= 1,
    ensures
        ({
            let words = hierarchy(script, flags, leaves);
            let w = pow2((7 - h) as nat) as int;
            words[p] == if h == 0 {
                gate_at(script, flags, p, leaves[p - 128], leaves[p])
            } else {
                gate_at(script, flags, p, words[p + w], words[p + 2 * w])
            }
        }),
{
    lemma2_to64();
    let w = pow2((7 - h) as nat) as int;
    let words = hierarchy(script, flags, leaves);
    let rows = rows_upto(script, flags, leaves, 7);
    if h > 0 {
        lemma_pow2_strictly_increases((7 - h) as nat, 7);
        lemma_pow2_unfold((8 - h) as nat);
        lemma_rows_kept(script, flags, leaves, h - 1, 7, p + w);
        lemma_rows_kept(script, flags, leaves, h - 1, 7, p + 2 * w);
    }
    lemma_rows_kept(script, flags, leaves, h, 7, p);
}

/// In the rows that share one word, slot `j` of a row of `w` slots stands at bit
/// `w + j`, and combines slots `j` and `j + w` of the row below. The row of 16
/// slots stands on the word `v`.
pub proof fn law_narrow_rows(v: u32, xa: u32, xb: u32, ob: u32, r: u32, j: u32)
    requires
        r == narrow_rows(v, xa, xb, ob),
        j < 16,
    ensures
        j < 16 ==> bit_of(r, (16 + j) as u32) == (bit_of(v, j) ^ bit_of(xa, (16 + j) as u32)) & ((
        bit_of(v, (16 + j) as u32) ^ bit_of(xb, (16 + j) as u32)) | bit_of(ob, (16 + j) as u32)),
        j < 8 ==> bit_of(r, (8 + j) as u32) == (bit_of(r, (16 + j) as u32) ^ bit_of(xa, (8 + j) as u32)) & ((
        bit_of(r, (24 + j) as u32) ^ bit_of(xb, (8 + j) as u32)) | bit_of(ob, (8 + j) as u32)),
        j < 4 ==> bit_of(r, (4 + j) as u32) == (bit_of(r, (8 + j) as u32) ^ bit_of(xa, (4 + j) as u32)) & ((
        bit_of(r, (12 + j) as u32) ^ bit_of(xb, (4 + j) as u32)) | bit_of(ob, (4 + j) as u32)),
        j < 2 ==> bit_of(r, (2 + j) as u32) == (bit_of(r, (4 + j) as u32) ^ bit_of(xa, (2 + j) as u32)) & ((
        bit_of(r, (6 + j) as u32) ^ bit_of(xb, (2 + j) as u32)) | bit_of(ob, (2 + j) as u32)),
        j < 1 ==> bit_of(r, (1 + j) as u32) == (bit_of(r, (2 + j) as u32) ^ bit_of(xa, (1 + j) as u32)) & ((
        bit_of(r, (3 + j) as u32) ^ bit_of(xb, (1 + j) as u32)) | bit_of(ob, (1 + j) as u32)),
{
    let r8 = gate(v << 16, v, xa, xb, ob) & 0xffff_0000;
    let r9 = gate(r8 >> 8, r8 >> 16, xa, xb, ob) & 0xff00;
    let r10 = gate(r9 >> 4, r9 >> 8, xa, xb, ob) & 0xf0;
    let r11 = gate(r10 >> 2, r10 >> 4, xa, xb, ob) & 0xc;
    let r12 = gate(r11 >> 1, r11 >> 2, xa, xb, ob) & 0x2;
    assert(j < 16 ==> ((r >> ((16 + j) as u32)) & 1) == (((v >> (j)) & 1) ^ ((xa >> ((16 + j) as u32)) & 1)) & ((((v >> ((16 + j) as u32)) & 1) ^ ((xb >> ((16
        + j) as u32)) & 1)) | ((ob >> ((16 + j) as u32)) & 1))) by (bit_vector)
        requires
            r8 == ((v << 16) ^ xa) & ((v ^ xb) | ob) & 0xffff_0000,
            r9 == ((r8 >> 8) ^ xa) & (((r8 >> 16) ^ xb) | ob) & 0xff00,
            r10 == ((r9 >> 4) ^ xa) & (((r9 >> 8) ^ xb) | ob) & 0xf0,
            r11 == ((r10 >> 2) ^ xa) & (((r10 >> 4) ^ xb) | ob) & 0xc,
            r12 == ((r11 >> 1) ^ xa) & (((r11 >> 2) ^ xb) | ob) & 0x2,
            r == r8 | r9 | r10 | r11 | r12,
            j < 16,
    ;
    assert(j < 8 ==> ((r >> ((8 + j) as u32)) & 1) == (((r >> ((16 + j) as u32)) & 1) ^ ((xa >> ((8 + j) as u32)) & 1)) & ((((r >> ((24 + j) as u32)) & 1) ^ ((xb >> ((8
        + j) as u32)) & 1)) | ((ob >> ((8 + j) as u32)) & 1))) by (bit_vector)
        requires
            r8 == ((v << 16) ^ xa) & ((v ^ xb) | ob) & 0xffff_0000,
            r9 == ((r8 >> 8) ^ xa) & (((r8 >> 16) ^ xb) | ob) & 0xff00,
            r10 == ((r9 >> 4) ^ xa) & (((r9 >> 8) ^ xb) | ob) & 0xf0,
            r11 == ((r10 >> 2) ^ xa) & (((r10 >> 4) ^ xb) | ob) & 0xc,
            r12 == ((r11 >> 1) ^ xa) & (((r11 >> 2) ^ xb) | ob) & 0x2,
            r == r8 | r9 | r10 | r11 | r12,
            j < 16,
    ;
    assert(j < 4 ==> ((r >> ((4 + j) as u32)) & 1) == (((r >> ((8 + j) as u32)) & 1) ^ ((xa >> ((4 + j) as u32)) & 1)) & ((((r >> ((12 + j) as u32)) & 1) ^ ((xb >> ((4
        + j) as u32)) & 1)) | ((ob >> ((4 + j) as u32)) & 1))) by (bit_vector)
        requires
            r8 == ((v << 16) ^ xa) & ((v ^ xb) | ob) & 0xffff_0000,
            r9 == ((r8 >> 8) ^ xa) & (((r8 >> 16) ^ xb) | ob) & 0xff00,
            r10 == ((r9 >> 4) ^ xa) & (((r9 >> 8) ^ xb) | ob) & 0xf0,
            r11 == ((r10 >> 2) ^ xa) & (((r10 >> 4) ^ xb) | ob) & 0xc,
            r12 == ((r11 >> 1) ^ xa) & (((r11 >> 2) ^ xb) | ob) & 0x2,
            r == r8 | r9 | r10 | r11 | r12,
            j < 16,
    ;
    assert(j < 2 ==> ((r >> ((2 + j) as u32)) & 1) == (((r >> ((4 + j) as u32)) & 1) ^ ((xa >> ((2 + j) as u32)) & 1)) & ((((r >> ((6 + j) as u32)) & 1) ^ ((xb >> ((2
        + j) as u32)) & 1)) | ((ob >> ((2 + j) as u32)) & 1))) by (bit_vector)
        requires
            r8 == ((v << 16) ^ xa) & ((v ^ xb) | ob) & 0xffff_0000,
            r9 == ((r8 >> 8) ^ xa) & (((r8 >> 16) ^ xb) | ob) & 0xff00,
            r10 == ((r9 >> 4) ^ xa) & (((r9 >> 8) ^ xb) | ob) & 0xf0,
            r11 == ((r10 >> 2) ^ xa) & (((r10 >> 4) ^ xb) | ob) & 0xc,
            r12 == ((r11 >> 1) ^ xa) & (((r11 >> 2) ^ xb) | ob) & 0x2,
            r == r8 | r9 | r10 | r11 | r12,
            j < 16,
    ;
    assert(j < 1 ==> ((r >> ((1 + j) as u32)) & 1) == (((r >> ((2 + j) as u32)) & 1) ^ ((xa >> ((1 + j) as u32)) & 1)) & ((((r >> ((3 + j) as u32)) & 1) ^ ((xb >> ((1
        + j) as u32)) & 1)) | ((ob >> ((1 + j) as u32)) & 1))) by (bit_vector)
        requires
            r8 == ((v << 16) ^ xa) & ((v ^ xb) | ob) & 0xffff_0000,
            r9 == ((r8 >> 8) ^ xa) & (((r8 >> 16) ^ xb) | ob) & 0xff00,
            r10 == ((r9 >> 4) ^ xa) & (((r9 >> 8) ^ xb) | ob) & 0xf0,
            r11 == ((r10 >> 2) ^ xa) & (((r10 >> 4) ^ xb) | ob) & 0xc,
            r12 == ((r11 >> 1) ^ xa) & (((r11 >> 2) ^ xb) | ob) & 0x2,
            r == r8 | r9 | r10 | r11 | r12,
            j < 16,
    ;
}

} // verus!
