//! Bits of words.
use crate::block::laws::bit_of;
use vstd::arithmetic::power2::pow2;
use vstd::bits::lemma_u32_shr_is_div;
use vstd::prelude::*;

verus! {

/// A bit of a word is a digit of the number that it holds.
pub proof fn law_bit_of(w: u32, k: u32)
    requires
        k < 32,
    ensures
        bit_of(w, k) == (w as int / pow2(k as nat) as int) % 2,
        bit_of(w, k) <= 1,
{
    lemma_u32_shr_is_div(w, k);
    let x = w >> k;
    assert(x & 1 == x % 2) by (bit_vector);
}

/// Two words with the same bits are the same.
pub proof fn lemma_same_bits(a: u32, b: u32)
    requires
        forall|k: u32| k < 32 ==> #[trigger] bit_of(a, k) == bit_of(b, k),
    ensures
        a == b,
{
    lemma_same_upto(a, b, 32);
    assert(a & 0xffff_ffff == a && b & 0xffff_ffff == b) by (bit_vector);
}

/// The lowest `n` bits of a word.
spec fn low(w: u32, n: u32) -> u32 {
    if n >= 32 {
        w & 0xffff_ffff
    } else {
        w & (((1u32 << n) - 1) as u32)
    }
}

proof fn lemma_same_upto(a: u32, b: u32, n: u32)
    requires
        n <= 32,
        forall|k: u32| k < n ==> #[trigger] bit_of(a, k) == bit_of(b, k),
    ensures
        low(a, n) == low(b, n),
    decreases n,
{
    if n == 0 {
        assert(a & (((1u32 << 0u32) - 1) as u32) == b & (((1u32 << 0u32) - 1) as u32)) by (bit_vector);
    } else {
        let m = (n - 1) as u32;
        lemma_same_upto(a, b, m);
        assert(bit_of(a, m) == bit_of(b, m));
        assert((a & (((1u32 << m) - 1) as u32) == b & (((1u32 << m) - 1) as u32) && ((a >> m) & 1)
            == ((b >> m) & 1)) ==> (if m == 31 {
            a & 0xffff_ffff == b & 0xffff_ffff
        } else {
            a & (((1u32 << ((m + 1) as u32)) - 1) as u32) == b & (((1u32 << ((m + 1) as u32))
                - 1) as u32)
        })) by (bit_vector)
            requires
                m < 32,
        ;
    }
}

/// Putting a bit into a word by "or".
pub proof fn lemma_or_bit(x: u32, b: u32, s: u32, k: u32)
    requires
        b <= 1,
        s < 32,
        k < 32,
    ensures
        bit_of(x | (b << s), k) == if k == s && b == 1 {
            1u32
        } else {
            bit_of(x, k)
        },
{
    assert(((x | (b << s)) >> k) & 1 == (if k == s && b == 1 {
        1u32
    } else {
        (x >> k) & 1
    })) by (bit_vector)
        requires
            b <= 1,
            s < 32,
            k < 32,
    ;
}

/// Setting, clearing and inverting one bit of a word.
pub proof fn lemma_one_bit(w: u32, s: u32, k: u32)
    requires
        s < 32,
        k < 32,
    ensures
        bit_of(w | (1u32 << s), k) == if k == s {
            1u32
        } else {
            bit_of(w, k)
        },
        bit_of(w & !(1u32 << s), k) == if k == s {
            0u32
        } else {
            bit_of(w, k)
        },
        bit_of(w ^ (1u32 << s), k) == if k == s {
            (1 - bit_of(w, k)) as u32
        } else {
            bit_of(w, k)
        },
        bit_of(w, k) <= 1,
{
    assert((((w | (1u32 << s)) >> k) & 1 == (if k == s {
        1u32
    } else {
        (w >> k) & 1
    })) && (((w & !(1u32 << s)) >> k) & 1 == (if k == s {
        0u32
    } else {
        (w >> k) & 1
    })) && (((w ^ (1u32 << s)) >> k) & 1 == (if k == s {
        (1 - ((w >> k) & 1)) as u32
    } else {
        (w >> k) & 1
    })) && (w >> k) & 1 <= 1) by (bit_vector)
        requires
            s < 32,
            k < 32,
    ;
}

/// Choosing the bits of a word by a mask, and forcing and inverting bits.
pub proof fn lemma_masked_bits(a: u32, d: u32, e: u32, k: u32)
    requires
        k < 32,
    ensures
        bit_of((a & !e) | (d & e), k) == if bit_of(e, k) == 1 {
            bit_of(d, k)
        } else {
            bit_of(a, k)
        },
        bit_of((a & !e) ^ d, k) == if bit_of(e, k) == 1 {
            bit_of(d, k)
        } else if bit_of(d, k) == 1 {
            (1 - bit_of(a, k)) as u32
        } else {
            bit_of(a, k)
        },
        bit_of(a ^ d, k) == if bit_of(d, k) == 1 {
            (1 - bit_of(a, k)) as u32
        } else {
            bit_of(a, k)
        },
{
    assert((((a & !e) | (d & e)) >> k) & 1 == (if (e >> k) & 1 == 1 {
        (d >> k) & 1
    } else {
        (a >> k) & 1
    }) && (((a & !e) ^ d) >> k) & 1 == (if (e >> k) & 1 == 1 {
        (d >> k) & 1
    } else if (d >> k) & 1 == 1 {
        (1 - ((a >> k) & 1)) as u32
    } else {
        (a >> k) & 1
    }) && ((a ^ d) >> k) & 1 == (if (d >> k) & 1 == 1 {
        (1 - ((a >> k) & 1)) as u32
    } else {
        (a >> k) & 1
    })) by (bit_vector)
        requires
            k < 32,
    ;
}

/// Shifting a bit into a word from below.
pub proof fn lemma_shifted_in(c: u32, b: u32, k: u32)
    requires
        b <= 1,
        k < 32,
    ensures
        bit_of((c << 1) | b, k) == if k == 0 {
            b
        } else {
            bit_of(c, (k - 1) as u32)
        },
{
    assert((((c << 1) | b) >> k) & 1 == (if k == 0 {
        b
    } else {
        (c >> ((k - 1) as u32)) & 1
    })) by (bit_vector)
        requires
            b <= 1,
            k < 32,
    ;
}

/// A position of a bit consists of the number of its word and its number in the word.
pub proof fn lemma_position(p: u32)
    ensures
        p >> 5 == p / 32,
        p & 31 == p % 32,
        p & 31 < 32,
{
    assert(p >> 5 == p / 32 && p & 31 == p % 32 && p & 31 < 32) by (bit_vector);
}

/// All bits of zero are 0.
pub proof fn lemma_zero_bits(k: u32)
    requires
        k < 32,
    ensures
        bit_of(0, k) == 0,
{
    assert((0u32 >> k) & 1 == 0) by (bit_vector);
}

} // verus!
