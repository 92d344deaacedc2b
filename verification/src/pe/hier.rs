//! The boomerang hierarchy: rows of slots that halve in width from one row to
//! the next, and how a pin and what it is computed from are put into them.
//!
//! Slot `j` of row `hi` combines the slots `j` and `j + w` of the row below,
//! where `w` is the width of row `hi`. So the slots under it, in any row below,
//! are those whose index leaves the remainder `j` when divided by `w`.
use crate::aig::{pin_of, DriverType, AIG};
use vstd::prelude::*;

verus! {

/// The content of a hierarchy, row by row. A free slot holds `FREE`.
pub type Hier = Seq<Seq<usize>>;

/// The content of a free slot.
pub const FREE: usize = usize::MAX;

/// The pins still to be realized, in a graph of which some pins are available.
pub struct Cone {
    /// The graph.
    pub aig: AIG,
    /// The pins to realize.
    pub outs: Seq<usize>,
    /// The pins whose values are there already.
    pub avail: Seq<usize>,
}

/// The content of nested vectors.
pub open spec fn rows(h: Seq<Vec<usize>>) -> Hier {
    Seq::new(h.len(), |i: int| h[i]@)
}

/// The number of times `x` occurs in `row`.
pub open spec fn count_in(row: Seq<usize>, x: usize) -> nat
    decreases row.len(),
{
    if row.len() == 0 {
        0
    } else {
        count_in(row.drop_last(), x) + if row.last() == x {
            1nat
        } else {
            0nat
        }
    }
}

/// The number of slots of `row` that are not free.
pub open spec fn taken(row: Seq<usize>) -> nat {
    (row.len() - count_in(row, FREE)) as nat
}

/// The first free slot of `row` from position `k` on.
pub open spec fn first_free_from(row: Seq<usize>, k: int) -> Option<int>
    decreases row.len() - k,
{
    if k >= row.len() {
        None
    } else if row[k] == FREE {
        Some(k)
    } else {
        first_free_from(row, k + 1)
    }
}

/// The first free slot of `row`.
pub open spec fn first_free(row: Seq<usize>) -> Option<int> {
    first_free_from(row, 0)
}

/// The number of times `x` occurs in the rows from 1 up to, not including, `k`.
pub open spec fn occ_upto(h: Hier, x: usize, k: int) -> nat
    decreases k,
{
    if k <= 1 {
        0
    } else {
        occ_upto(h, x, k - 1) + count_in(h[k - 1], x)
    }
}

/// The number of times `x` occurs above row 0.
pub open spec fn occ(h: Hier, x: usize) -> nat {
    occ_upto(h, x, h.len() as int)
}

/// Whether `x` is computed in the hierarchy: it stands above row 0.
pub open spec fn placed(h: Hier, x: usize) -> bool {
    occ(h, x) > 0
}

/// The number of pins below `n` that stand above row 0.
pub open spec fn placed_below(h: Hier, n: int) -> nat
    decreases n,
{
    if n <= 0 {
        0
    } else {
        placed_below(h, n - 1) + if placed(h, (n - 1) as usize) {
            1nat
        } else {
            0nat
        }
    }
}

/// Whether each row is half as wide as the one before, down to a single slot.
pub open spec fn shaped(h: Hier) -> bool {
    &&& h.len() >= 1
    &&& h[h.len() - 1].len() == 1
    &&& forall|lo: int, hi: int|
        0 <= lo && hi == lo + 1 && hi < h.len() ==> (#[trigger] h[lo]).len() == 2 * (
        #[trigger] h[hi]).len()
}

/// Whether two hierarchies have rows of the same widths.
pub open spec fn same_shape(h: Hier, g: Hier) -> bool {
    &&& h.len() == g.len()
    &&& forall|hi: int| 0 <= hi < h.len() ==> (#[trigger] h[hi]).len() == g[hi].len()
}

/// `h` with `x` put into slot `j` of row `hi`.
pub open spec fn put(h: Hier, hi: int, j: int, x: usize) -> Hier {
    h.update(hi, h[hi].update(j, x))
}

/// Whether slot `i` of row `k` is slot `j` of row `hi` or lies under it.
pub open spec fn under(h: Hier, hi: int, j: int, k: int, i: int) -> bool {
    &&& 0 <= k <= hi
    &&& i % (h[hi].len() as int) == j
}

/// Whether slot `j` of row `hi` and all slots under it are free.
pub closed spec fn free_below(h: Hier, hi: int, j: int) -> bool {
    forall|k: int, i: int|
        0 <= k <= hi && 0 <= i < h[k].len() && under(h, hi, j, k, i) ==> #[trigger] h[k][i] == FREE
}

/// Whether `g` differs from `h` at most in slot `j` of row `hi` and under it.
pub closed spec fn same_outside(h: Hier, g: Hier, hi: int, j: int) -> bool {
    forall|k: int, i: int|
        0 <= k < h.len() && 0 <= i < h[k].len() && !under(h, hi, j, k, i) ==> #[trigger] g[k][i]
            == h[k][i]
}

/// Whether what lies under a free slot of a row from 1 to `top` is free.
pub closed spec fn rooted(h: Hier, top: int) -> bool {
    forall|k: int, i: int|
        1 <= k <= top && 0 <= i < h[k].len() && #[trigger] h[k][i] == FREE ==> h[k - 1][i] == FREE
            && h[k - 1][i + h[k].len()] == FREE
}

/// `h` with slot `j` of row `hi` freed, and with it what lies under it.
pub open spec fn purge(h: Hier, hi: int, j: int) -> Hier
    decreases hi,
{
    if h[hi][j] == FREE {
        h
    } else if hi <= 0 {
        put(h, hi, j, FREE)
    } else {
        purge(
            purge(put(h, hi, j, FREE), hi - 1, j),
            hi - 1,
            j + h[hi].len(),
        )
    }
}

impl Cone {
    /// The pins to compute, inputs before outputs.
    pub open spec fn order(self) -> Seq<usize> {
        self.aig.topo(self.avail, self.outs)
    }

    /// The number of gates between the available pins and `u`.
    pub open spec fn level(self, u: usize) -> nat {
        self.aig.depth(self.avail, u)
    }

    /// All pins are pins of the graph; the pins to realize are distinct and not
    /// constant.
    pub open spec fn wf(self) -> bool {
        &&& self.aig.wf()
        &&& self.outs.no_duplicates()
        &&& forall|k: int|
            0 <= k < self.outs.len() ==> 1 <= #[trigger] self.outs[k] <= self.aig.num_aigpins
        &&& forall|k: int|
            0 <= k < self.avail.len() ==> #[trigger] self.avail[k] <= self.aig.num_aigpins
    }

    /// Whether no gate with a constant input has a level from 2 to `n`: such a gate
    /// cannot stand in one of the rows up to `n`, because a constant cannot be passed
    /// through.
    pub open spec fn placeable(self, n: int) -> bool {
        forall|p: int|
            0 <= p < self.order().len() ==> match self.aig.drivers@[#[trigger] self.order()[p] as int] {
                DriverType::AndGate(a, b) => a < 2 || b < 2 ==> self.level(self.order()[p]) <= 1
                    || self.level(self.order()[p]) > n,
                _ => true,
            }
    }

    /// `h` with `nd` put into slot `j` of row `hi`: a pin of level `hi` goes on
    /// top of its two inputs, a pin of a lower level is passed through from the
    /// same slot of the row below.
    pub open spec fn place(self, h: Hier, hi: int, j: int, nd: usize) -> Hier
        decreases hi,
    {
        let h1 = put(h, hi, j, nd);
        if hi <= 0 {
            h1
        } else if self.level(nd) != hi {
            self.place(h1, hi - 1, j, nd)
        } else {
            match self.aig.drivers@[nd as int] {
                DriverType::AndGate(a, b) => self.place(
                    self.place(h1, hi - 1, j, pin_of(a)),
                    hi - 1,
                    j + h[hi].len(),
                    pin_of(b),
                ),
                _ => h1,
            }
        }
    }

    /// Whether slot `j` of row `hi`, which holds a pin, is fed by the row below:
    /// by the same pin, or by the two inputs of the pin. Row 0 holds nothing else.
    pub open spec fn slot_ok(self, h: Hier, hi: int, j: int) -> bool {
        let nd = h[hi][j];
        &&& self.order().contains(nd)
        &&& self.level(nd) <= hi
        &&& self.level(nd) < hi ==> h[hi - 1][j] == nd
        &&& self.level(nd) < hi && hi == 1 ==> h[0][j + h[1].len()] == FREE
        &&& self.level(nd) == hi ==> match self.aig.drivers@[nd as int] {
            DriverType::AndGate(a, b) => {
                &&& h[hi - 1][j] == pin_of(a)
                &&& h[hi - 1][j + h[hi].len()] == pin_of(b)
            },
            _ => false,
        }
    }

    /// Whether every slot of the rows from 1 to `top` that holds a pin is fed by
    /// the row below.
    pub open spec fn fed(self, h: Hier, top: int) -> bool {
        forall|k: int, i: int|
            1 <= k <= top && 0 <= i < h[k].len() && #[trigger] h[k][i] != FREE ==> self.slot_ok(
                h,
                k,
                i,
            )
    }

    /// Whether the rows up to `top` are fed from below, and hold nothing under a
    /// free slot, and pins can be put into them.
    pub closed spec fn sound(self, h: Hier, top: int) -> bool {
        rooted(h, top) && self.fed(h, top) && self.placeable(top)
    }
}

/// Whether every slot of the rows up to `top` is free or holds a pin up to `n`.
pub closed spec fn bounded(h: Hier, n: usize, top: int) -> bool {
    forall|k: int, i: int|
        0 <= k <= top && 0 <= i < h[k].len() ==> #[trigger] h[k][i] == FREE || h[k][i] <= n
}

/// Whether `g` holds everything that `h` holds, in the same slots.
pub open spec fn extends(h: Hier, g: Hier) -> bool {
    &&& same_shape(h, g)
    &&& forall|k: int, i: int|
        0 <= k < h.len() && 0 <= i < h[k].len() && h[k][i] != FREE ==> #[trigger] g[k][i] == h[k][i]
}

/// Holding everything is transitive.
pub proof fn lemma_extends_trans(h: Hier, g: Hier, f: Hier)
    requires
        extends(h, g),
        extends(g, f),
    ensures
        extends(h, f),
{
    lemma_same_shape_trans(h, g, f);
    assert forall|k: int, i: int|
        0 <= k < h.len() && 0 <= i < h[k].len() && h[k][i] != FREE implies #[trigger] f[k][i]
        == h[k][i] by {
        assert(h[k].len() == g[k].len());
        assert(g[k][i] == h[k][i]);
    }
}

/// What is computed in `h` is computed in a hierarchy that holds everything.
pub proof fn lemma_extends_placed(h: Hier, g: Hier, x: usize)
    requires
        extends(h, g),
        placed(h, x),
        x != FREE,
    ensures
        placed(g, x),
{
    let (hi, j) = lemma_placed_slot(h, x);
    assert(h[hi].len() == g[hi].len());
    assert(g[hi][j] == h[hi][j]);
    lemma_placed_at(g, hi, j);
}

/// What lies under a free slot is free.
pub proof fn lemma_rooted_slot(h: Hier, top: int, k: int, i: int)
    requires
        rooted(h, top),
        1 <= k <= top,
        0 <= i < h[k].len(),
        h[k][i] == FREE,
    ensures
        h[k - 1][i] == FREE,
        h[k - 1][i + h[k].len()] == FREE,
{
}

/// Having the same shape is transitive.
pub proof fn lemma_same_shape_trans(h: Hier, g: Hier, f: Hier)
    requires
        same_shape(h, g),
        same_shape(g, f),
    ensures
        same_shape(h, f),
{
    assert forall|k: int| 0 <= k < h.len() implies (#[trigger] h[k]).len() == f[k].len() by {
        assert(g[k].len() == f[k].len());
    }
}

/// If the first free slot is taken, the search can go on from there.
pub proof fn lemma_first_free_skip(row: Seq<usize>, new: Seq<usize>, j: int, k: int)
    requires
        0 <= k <= j < row.len(),
        first_free_from(row, k) == Some(j),
        new == row.update(j, new[j]),
    ensures
        first_free_from(new, k) == first_free_from(new, j),
    decreases j - k,
{
    if k < j {
        assert(row[k] != FREE);
        lemma_first_free_skip(row, new, j, k + 1);
    }
}

/// Where no pin is computed, none is counted.
pub proof fn lemma_none_placed(h: Hier, n: int)
    requires
        n <= FREE,
        forall|x: usize| x != FREE ==> #[trigger] occ(h, x) == 0,
    ensures
        placed_below(h, n) == 0,
    decreases n,
{
    if n > 0 {
        lemma_none_placed(h, n - 1);
        assert(occ(h, (n - 1) as usize) == 0);
    }
}

/// Counting in a row of which one slot changes.
pub proof fn lemma_count_update(row: Seq<usize>, j: int, y: usize, x: usize)
    requires
        0 <= j < row.len(),
    ensures
        count_in(row.update(j, y), x) + (if row[j] == x {
            1int
        } else {
            0
        }) == count_in(row, x) + (if y == x {
            1int
        } else {
            0
        }),
    decreases row.len(),
{
    let new = row.update(j, y);
    if j == row.len() - 1 {
        assert(new.drop_last() =~= row.drop_last());
    } else {
        lemma_count_update(row.drop_last(), j, y, x);
        assert(new.drop_last() =~= row.drop_last().update(j, y));
    }
}

/// A count is bounded by the length, and positive exactly for what occurs.
pub proof fn lemma_count_bound(row: Seq<usize>, x: usize)
    ensures
        count_in(row, x) <= row.len(),
        count_in(row, x) > 0 <==> row.contains(x),
    decreases row.len(),
{
    if row.len() > 0 {
        lemma_count_bound(row.drop_last(), x);
        if row.drop_last().contains(x) {
            let i = row.drop_last().index_of(x);
            assert(row[i] == x);
        }
        if row.contains(x) {
            let i = row.index_of(x);
            if i < row.len() - 1 {
                assert(row.drop_last()[i] == x);
            }
        }
    }
}

/// What `first_free_from` finds.
pub proof fn lemma_first_free(row: Seq<usize>, k: int)
    requires
        0 <= k,
    ensures
        match first_free_from(row, k) {
            Some(j) => k <= j < row.len() && row[j] == FREE && forall|i: int|
                k <= i < j ==> #[trigger] row[i] != FREE,
            None => forall|i: int| k <= i < row.len() ==> #[trigger] row[i] != FREE,
        },
    decreases row.len() - k,
{
    if k < row.len() && row[k] != FREE {
        lemma_first_free(row, k + 1);
    }
}

/// Occurrences in a hierarchy of which one slot changes.
pub proof fn lemma_occ_put(h: Hier, hi: int, j: int, y: usize, x: usize, k: int)
    requires
        0 <= hi < h.len(),
        0 <= j < h[hi].len(),
        k <= h.len(),
    ensures
        1 <= hi < k ==> occ_upto(put(h, hi, j, y), x, k) + (if h[hi][j] == x {
            1int
        } else {
            0
        }) == occ_upto(h, x, k) + (if y == x {
            1int
        } else {
            0
        }),
        !(1 <= hi < k) ==> occ_upto(put(h, hi, j, y), x, k) == occ_upto(h, x, k),
    decreases k,
{
    if k > 1 {
        lemma_occ_put(h, hi, j, y, x, k - 1);
        lemma_count_update(h[hi], j, y, x);
    }
}

/// A pin stands above row 0 exactly if some slot there holds it.
pub proof fn lemma_occ_upto(h: Hier, x: usize, k: int)
    requires
        k <= h.len(),
    ensures
        occ_upto(h, x, k) > 0 <==> exists|hi: int| 1 <= hi < k && (#[trigger] h[hi]).contains(x),
    decreases k,
{
    if k > 1 {
        lemma_occ_upto(h, x, k - 1);
        lemma_count_bound(h[k - 1], x);
        if exists|hi: int| 1 <= hi < k && (#[trigger] h[hi]).contains(x) {
            let hi = choose|hi: int| 1 <= hi < k && (#[trigger] h[hi]).contains(x);
            if hi < k - 1 {
                assert(h[hi].contains(x));
            }
        }
    }
}

/// A pin that a slot above row 0 holds is placed.
pub proof fn lemma_placed_at(h: Hier, hi: int, j: int)
    requires
        1 <= hi < h.len(),
        0 <= j < h[hi].len(),
    ensures
        placed(h, h[hi][j]),
{
    lemma_occ_upto(h, h[hi][j], h.len() as int);
    assert(h[hi].contains(h[hi][j]));
}

/// A placed pin is held by some slot above row 0.
pub proof fn lemma_placed_slot(h: Hier, x: usize) -> (s: (int, int))
    requires
        placed(h, x),
    ensures
        1 <= s.0 < h.len(),
        0 <= s.1 < h[s.0].len(),
        h[s.0][s.1] == x,
{
    lemma_occ_upto(h, x, h.len() as int);
    let hi = choose|hi: int| 1 <= hi < h.len() && (#[trigger] h[hi]).contains(x);
    let j = h[hi].index_of(x);
    (hi, j)
}

/// Occurrences are bounded by the number of slots above row 0.
pub proof fn lemma_occ_bound(h: Hier, x: usize, k: int)
    requires
        shaped(h),
        1 <= k <= h.len(),
    ensures
        occ_upto(h, x, k) + h[k - 1].len() <= h[0].len(),
    decreases k,
{
    if k > 1 {
        lemma_occ_bound(h, x, k - 1);
        lemma_count_bound(h[k - 1], x);
        assert(h[k - 2].len() == 2 * h[k - 1].len());
    }
}

/// How the number of placed pins changes when the count of one pin changes.
pub proof fn lemma_placed_below(h: Hier, g: Hier, x: usize, n: int)
    requires
        forall|y: usize| y < n && y != x ==> (#[trigger] placed(h, y) <==> placed(g, y)),
        n <= usize::MAX + 1,
    ensures
        placed_below(h, n) <= if n < 0 { 0 } else { n },
        placed_below(g, n) + (if 0 <= x < n && placed(h, x) {
            1int
        } else {
            0
        }) == placed_below(h, n) + (if 0 <= x < n && placed(g, x) {
            1int
        } else {
            0
        }),
    decreases n,
{
    if n > 0 {
        lemma_placed_below(h, g, x, n - 1);
    }
}

/// The slots under a slot are those under its two inputs.
pub proof fn lemma_mod_split(i: int, j: int, w: int)
    requires
        0 <= j < w,
        0 <= i,
    ensures
        i % w == j <==> i % (2 * w) == j || i % (2 * w) == j + w,
{
    let q = i / (2 * w);
    let r = i % (2 * w);
    assert(i == (2 * w) * q + r && 0 <= r < 2 * w) by (nonlinear_arith)
        requires
            q == i / (2 * w),
            r == i % (2 * w),
            w > 0,
    ;
    let s = if r < w {
        r
    } else {
        r - w
    };
    let t = if r < w {
        2 * q
    } else {
        2 * q + 1
    };
    assert(i == w * t + s) by (nonlinear_arith)
        requires
            i == (2 * w) * q + r,
            (s == r && t == 2 * q) || (s == r - w && t == 2 * q + 1),
    ;
    assert(i % w == s) by (nonlinear_arith)
        requires
            i == w * t + s,
            0 <= s < w,
    ;
}

/// Slot `i` of row `k` lies under slot `j` of row `hi`, which is above row 0,
/// exactly if it is that slot or lies under one of its two inputs.
pub proof fn lemma_under(h: Hier, hi: int, j: int, k: int, i: int)
    requires
        shaped(h),
        1 <= hi < h.len(),
        0 <= j < h[hi].len(),
        0 <= k < h.len(),
        0 <= i < h[k].len(),
    ensures
        under(h, hi, j, k, i) <==> (k == hi && i == j) || under(h, hi - 1, j, k, i) || under(
            h,
            hi - 1,
            j + h[hi].len(),
            k,
            i,
        ),
        !(under(h, hi - 1, j, k, i) && under(h, hi - 1, j + h[hi].len(), k, i)),
        k == hi ==> !under(h, hi - 1, j, k, i) && !under(h, hi - 1, j + h[hi].len(), k, i),
{
    assert(h[hi - 1].len() == 2 * h[hi].len());
    lemma_mod_split(i, j, h[hi].len() as int);
    if k == hi {
        assert(i % (h[hi].len() as int) == i) by (nonlinear_arith)
            requires
                0 <= i < h[hi].len(),
        ;
    }
}

/// A slot lies under itself, and alone in its row.
pub proof fn lemma_under_self(h: Hier, hi: int, j: int, i: int)
    requires
        0 <= hi < h.len(),
        0 <= i < h[hi].len(),
    ensures
        under(h, hi, j, hi, i) <==> i == j,
{
    assert(i % (h[hi].len() as int) == i) by (nonlinear_arith)
        requires
            0 <= i < h[hi].len(),
    ;
}

/// A slot that is free with all that lies under it is free.
pub proof fn lemma_free_slot(h: Hier, hi: int, j: int)
    requires
        0 <= hi < h.len(),
        0 <= j < h[hi].len(),
        free_below(h, hi, j),
    ensures
        h[hi][j] == FREE,
{
    lemma_under_self(h, hi, j, j);
}

/// What lies under a slot that is free with all that lies under it is free.
pub proof fn lemma_free_under(h: Hier, hi: int, j: int, k: int, i: int)
    requires
        free_below(h, hi, j),
        0 <= k <= hi,
        0 <= i < h[k].len(),
        under(h, hi, j, k, i),
    ensures
        h[k][i] == FREE,
{
}

/// A slot that does not lie under the one in question is the same.
pub proof fn lemma_same_outside(h: Hier, g: Hier, hi: int, j: int, k: int, i: int)
    requires
        same_outside(h, g, hi, j),
        0 <= k < h.len(),
        0 <= i < h[k].len(),
        !under(h, hi, j, k, i),
    ensures
        g[k][i] == h[k][i],
{
}

/// What a bounded hierarchy holds in one slot.
pub proof fn lemma_bounded_slot(h: Hier, n: usize, top: int, k: int, i: int)
    requires
        bounded(h, n, top),
        0 <= k <= top,
        0 <= i < h[k].len(),
    ensures
        h[k][i] == FREE || h[k][i] <= n,
{
}

/// What lies under a free slot is free.
pub proof fn lemma_free_below(h: Hier, hi: int, j: int)
    requires
        shaped(h),
        0 <= hi < h.len(),
        0 <= j < h[hi].len(),
        rooted(h, hi),
        h[hi][j] == FREE,
    ensures
        free_below(h, hi, j),
    decreases hi,
{
    if hi == 0 {
        assert forall|k: int, i: int|
            0 <= k <= hi && 0 <= i < h[k].len() && under(h, hi, j, k, i) implies #[trigger] h[k][i]
            == FREE by {
            lemma_under_self(h, hi, j, i);
        }
    } else {
        assert(h[hi - 1].len() == 2 * h[hi].len());
        lemma_free_below(h, hi - 1, j);
        lemma_free_below(h, hi - 1, j + h[hi].len());
        assert forall|k: int, i: int|
            0 <= k <= hi && 0 <= i < h[k].len() && under(h, hi, j, k, i) implies #[trigger] h[k][i]
            == FREE by {
            lemma_under(h, hi, j, k, i);
        }
    }
}

/// Putting a pin into one slot keeps the widths of the rows.
pub proof fn lemma_put_shape(h: Hier, hi: int, j: int, x: usize)
    requires
        shaped(h),
        0 <= hi < h.len(),
        0 <= j < h[hi].len(),
    ensures
        shaped(put(h, hi, j, x)),
        same_shape(h, put(h, hi, j, x)),
{
    let g = put(h, hi, j, x);
    assert forall|lo: int, hi: int| 0 <= lo && hi == lo + 1 && hi < g.len() implies (
    #[trigger] g[lo]).len() == 2 * (#[trigger] g[hi]).len() by {
        assert(h[lo].len() == 2 * h[hi].len());
    }
}

/// Rows of the same widths as those of a hierarchy make a hierarchy.
pub proof fn lemma_same_shape(h: Hier, g: Hier)
    requires
        shaped(h),
        same_shape(h, g),
    ensures
        shaped(g),
{
    assert forall|lo: int, hi: int| 0 <= lo && hi == lo + 1 && hi < g.len() implies (
    #[trigger] g[lo]).len() == 2 * (#[trigger] g[hi]).len() by {
        assert(h[lo].len() == 2 * h[hi].len());
    }
}

/// Freeing a slot frees what lies under it and nothing else.
pub proof fn lemma_purge(h: Hier, hi: int, j: int)
    requires
        shaped(h),
        0 <= hi < h.len(),
        0 <= j < h[hi].len(),
        rooted(h, hi),
    ensures
        same_shape(h, purge(h, hi, j)),
        same_outside(h, purge(h, hi, j), hi, j),
        free_below(purge(h, hi, j), hi, j),
    decreases hi,
{
    let g = purge(h, hi, j);
    if h[hi][j] == FREE {
        lemma_free_below(h, hi, j);
    } else if hi == 0 {
        assert forall|k: int, i: int|
            0 <= k < h.len() && 0 <= i < h[k].len() && !under(h, hi, j, k, i) implies #[trigger] g[k][i]
            == h[k][i] by {
            if k == 0 {
                lemma_under_self(h, hi, j, i);
            }
        }
        assert forall|k: int, i: int|
            0 <= k <= hi && 0 <= i < g[k].len() && under(g, hi, j, k, i) implies #[trigger] g[k][i]
            == FREE by {
            lemma_under_self(g, hi, j, i);
        }
    } else {
        let w = h[hi].len() as int;
        assert(h[hi - 1].len() == 2 * w);
        let h1 = put(h, hi, j, FREE);
        lemma_put_shape(h, hi, j, FREE);
        lemma_rooted_put(h, hi, j);
        lemma_purge(h1, hi - 1, j);
        let h2 = purge(h1, hi - 1, j);
        lemma_same_shape(h1, h2);
        lemma_rooted_cleared(h1, h2, hi - 1, j);
        lemma_purge(h2, hi - 1, j + w);
        assert(g == purge(h2, hi - 1, j + w));
        assert forall|k: int, i: int|
            0 <= k < h.len() && 0 <= i < h[k].len() && !under(h, hi, j, k, i) implies #[trigger] g[k][i]
            == h[k][i] by {
            lemma_under(h, hi, j, k, i);
            assert(h[k].len() == h1[k].len() && h1[k].len() == h2[k].len());
            assert(h[hi - 1].len() == h1[hi - 1].len() && h1[hi - 1].len() == h2[hi - 1].len());
            assert(g[k][i] == h2[k][i]);
            assert(h2[k][i] == h1[k][i]);
        }
        assert forall|k: int, i: int|
            0 <= k <= hi && 0 <= i < g[k].len() && under(g, hi, j, k, i) implies #[trigger] g[k][i]
            == FREE by {
            assert(h[k].len() == h1[k].len() && h1[k].len() == h2[k].len() && h2[k].len()
                == g[k].len());
            assert(h[hi - 1].len() == h1[hi - 1].len() && h1[hi - 1].len() == h2[hi - 1].len()
                && h2[hi - 1].len() == g[hi - 1].len());
            assert(h[hi].len() == h1[hi].len() && h1[hi].len() == h2[hi].len() && h2[hi].len()
                == g[hi].len());
            lemma_under(h, hi, j, k, i);
            if k == hi && i == j {
                assert(h2[hi][j] == h1[hi][j]);
                assert(g[hi][j] == h2[hi][j]);
            } else if under(h, hi - 1, j + w, k, i) {
                assert(under(g, hi - 1, j + w, k, i));
            } else {
                assert(under(h2, hi - 1, j, k, i));
                assert(h2[k][i] == FREE);
                assert(g[k][i] == h2[k][i]);
            }
        }
    }
}

/// Freeing a slot does not touch the rows below.
pub proof fn lemma_rooted_put(h: Hier, hi: int, j: int)
    requires
        1 <= hi < h.len(),
        rooted(h, hi),
    ensures
        rooted(put(h, hi, j, FREE), hi - 1),
{
    let h1 = put(h, hi, j, FREE);
    assert forall|k: int, i: int|
        1 <= k <= hi - 1 && 0 <= i < h1[k].len() && #[trigger] h1[k][i] == FREE implies h1[k - 1][i]
        == FREE && h1[k - 1][i + h1[k].len()] == FREE by {
        assert(h[k][i] == FREE);
    }
}

/// After a slot is freed, what lies under free slots is still free.
pub proof fn lemma_rooted_purge(h: Hier, hi: int, j: int)
    requires
        shaped(h),
        0 <= hi < h.len(),
        0 <= j < h[hi].len(),
        rooted(h, hi),
    ensures
        rooted(purge(h, hi, j), hi),
{
    lemma_purge(h, hi, j);
    lemma_rooted_cleared(h, purge(h, hi, j), hi, j);
}

/// Freeing a slot keeps the bound on the pins.
pub proof fn lemma_bounded_purge(h: Hier, hi: int, j: int, n: usize)
    requires
        shaped(h),
        0 <= hi < h.len(),
        0 <= j < h[hi].len(),
        rooted(h, hi),
        bounded(h, n, hi),
    ensures
        bounded(purge(h, hi, j), n, hi),
{
    lemma_purge(h, hi, j);
    let g = purge(h, hi, j);
    assert forall|k: int, i: int| 0 <= k <= hi && 0 <= i < g[k].len() implies #[trigger] g[k][i]
        == FREE || g[k][i] <= n by {
        assert(g[k].len() == h[k].len());
        assert(g[hi].len() == h[hi].len());
        if under(h, hi, j, k, i) {
            assert(under(g, hi, j, k, i));
        } else {
            assert(g[k][i] == h[k][i]);
        }
    }
}

/// The first steps of freeing a slot that is not free.
pub proof fn lemma_purge_step(h: Hier, hi: int, j: int, n: usize)
    requires
        shaped(h),
        1 <= hi < h.len(),
        0 <= j < h[hi].len(),
        rooted(h, hi),
        bounded(h, n, hi),
    ensures
        ({
            let h1 = put(h, hi, j, FREE);
            let h2 = purge(h1, hi - 1, j);
            &&& h[hi - 1].len() == 2 * h[hi].len()
            &&& shaped(h1)
            &&& rooted(h1, hi - 1)
            &&& bounded(h1, n, hi - 1)
            &&& shaped(h2)
            &&& rooted(h2, hi - 1)
            &&& bounded(h2, n, hi - 1)
            &&& same_shape(h, h1)
            &&& same_shape(h, h2)
        }),
{
    let h1 = put(h, hi, j, FREE);
    let h2 = purge(h1, hi - 1, j);
    lemma_put_shape(h, hi, j, FREE);
    assert(h1[hi - 1].len() == 2 * h1[hi].len());
    assert forall|k: int, i: int| 0 <= k <= hi - 1 && 0 <= i < h1[k].len() implies #[trigger] h1[k][i]
        == FREE || h1[k][i] <= n by {
        assert(h1[k][i] == h[k][i]);
    }
    lemma_rooted_put(h, hi, j);
    lemma_purge(h1, hi - 1, j);
    lemma_rooted_purge(h1, hi - 1, j);
    lemma_bounded_purge(h1, hi - 1, j, n);
    lemma_same_shape(h1, h2);
    assert forall|k: int| 0 <= k < h.len() implies (#[trigger] h[k]).len() == h2[k].len() by {
        assert(h1[k].len() == h2[k].len());
    }
}

/// Where only slots under one slot changed, and these are free, what lies under
/// free slots is free.
proof fn lemma_rooted_cleared(h: Hier, g: Hier, hi: int, j: int)
    requires
        shaped(h),
        same_shape(h, g),
        0 <= hi < h.len(),
        0 <= j < h[hi].len(),
        rooted(h, hi),
        same_outside(h, g, hi, j),
        free_below(g, hi, j),
    ensures
        rooted(g, hi),
{
    assert forall|k: int, i: int|
        1 <= k <= hi && 0 <= i < g[k].len() && #[trigger] g[k][i] == FREE implies g[k - 1][i]
        == FREE && g[k - 1][i + g[k].len()] == FREE by {
        assert(h[k].len() == g[k].len());
        lemma_rooted_step(h, g, hi, j, k, i);
    }
}

/// Freeing what lies under one slot keeps what lies under free slots free.
proof fn lemma_rooted_step(h: Hier, g: Hier, hi: int, j: int, k: int, i: int)
    requires
        shaped(h),
        same_shape(h, g),
        0 <= hi < h.len(),
        0 <= j < h[hi].len(),
        rooted(h, hi),
        same_outside(h, g, hi, j),
        free_below(g, hi, j),
        1 <= k <= hi,
        0 <= i < h[k].len(),
        g[k][i] == FREE,
    ensures
        g[k - 1][i] == FREE,
        g[k - 1][i + h[k].len()] == FREE,
{
    let w = h[k].len() as int;
    assert(h[k - 1].len() == 2 * w);
    assert(g[k].len() == h[k].len() && g[k - 1].len() == h[k - 1].len() && g[hi].len()
        == h[hi].len());
    lemma_width_divides(h, hi, k);
    let v = h[hi].len() as int;
    let m = w / v;
    assert(w == v * m) by (nonlinear_arith)
        requires
            w == m * v,
    ;
    vstd::arithmetic::div_mod::lemma_mod_multiples_vanish(m, i, v);
    if under(h, hi, j, k, i) {
        assert(under(g, hi, j, k - 1, i));
        assert(under(g, hi, j, k - 1, i + w));
    } else {
        assert(h[k][i] == FREE);
        assert(g[k - 1][i] == h[k - 1][i]);
        assert(!under(h, hi, j, k - 1, i + w));
        assert(g[k - 1][i + w] == h[k - 1][i + w]);
    }
}

/// The width of a row divides that of the rows below.
pub proof fn lemma_width_divides(h: Hier, hi: int, k: int)
    requires
        shaped(h),
        0 <= k <= hi < h.len(),
    ensures
        h[hi].len() > 0,
        h[k].len() == (h[k].len() as int / h[hi].len() as int) * h[hi].len(),
    decreases hi - k,
{
    lemma_width_pos(h, hi);
    let v = h[hi].len() as int;
    if k < hi {
        lemma_width_divides(h, hi, k + 1);
        let w = h[k + 1].len() as int;
        assert(h[k].len() == 2 * w);
        let m = w / v;
        assert((2 * w) / v == 2 * m && 2 * w == (2 * m) * v) by (nonlinear_arith)
            requires
                w == m * v,
                v > 0,
        ;
    } else {
        assert((v / v) * v == v) by (nonlinear_arith)
            requires
                v > 0,
        ;
    }
}

/// Row 0 is the widest.
pub proof fn lemma_width_bound(h: Hier, hi: int)
    requires
        shaped(h),
        0 <= hi < h.len(),
    ensures
        h[hi].len() <= h[0].len(),
    decreases hi,
{
    if hi > 0 {
        lemma_width_bound(h, hi - 1);
        assert(h[hi - 1].len() == 2 * h[hi].len());
    }
}

/// No row is empty.
pub proof fn lemma_width_pos(h: Hier, hi: int)
    requires
        shaped(h),
        0 <= hi < h.len(),
    ensures
        h[hi].len() > 0,
    decreases h.len() - hi,
{
    if hi < h.len() - 1 {
        lemma_width_pos(h, hi + 1);
        assert(h[hi].len() == 2 * h[hi + 1].len());
    }
}

impl Cone {
    /// The first steps of putting a pin into a free slot above row 0.
    pub proof fn lemma_place_steps(self, h: Hier, hi: int, j: int, nd: usize)
        requires
            self.wf(),
            shaped(h),
            1 <= hi < h.len(),
            0 <= j < h[hi].len(),
            free_below(h, hi, j),
            self.sound(h, hi),
            self.order().contains(nd),
            self.level(nd) <= hi,
        ensures
            nd <= self.aig.num_aigpins,
            h[hi][j] == FREE,
            h[hi - 1].len() == 2 * h[hi].len(),
            ({
                let h1 = put(h, hi, j, nd);
                &&& shaped(h1)
                &&& same_shape(h, h1)
                &&& self.sound(h1, hi - 1)
                &&& free_below(h1, hi - 1, j)
                &&& self.level(nd) == hi ==> match self.aig.drivers@[nd as int] {
                    DriverType::AndGate(a, b) => {
                        let h2 = self.place(h1, hi - 1, j, pin_of(a));
                        &&& pin_of(a) <= self.aig.num_aigpins
                        &&& pin_of(b) <= self.aig.num_aigpins
                        &&& hi > 1 ==> {
                            &&& self.order().contains(pin_of(a))
                            &&& self.level(pin_of(a)) <= hi - 1
                            &&& self.order().contains(pin_of(b))
                            &&& self.level(pin_of(b)) <= hi - 1
                        }
                        &&& shaped(h2)
                        &&& same_shape(h, h2)
                        &&& self.sound(h2, hi - 1)
                        &&& free_below(h2, hi - 1, j + h[hi].len())
                    },
                    _ => false,
                }
            }),
    {
        let h1 = put(h, hi, j, nd);
        lemma_put_shape(h, hi, j, nd);
        self.lemma_place_put(h, hi, j, nd);
        self.lemma_sources(nd);
        assert(h1[hi - 1].len() == 2 * h1[hi].len());
        if self.level(nd) == hi {
            match self.aig.drivers@[nd as int] {
                DriverType::AndGate(a, b) => {
                    let h2 = self.place(h1, hi - 1, j, pin_of(a));
                    self.lemma_place(h1, hi - 1, j, pin_of(a));
                    self.lemma_place_second(h, h1, h2, hi, j, nd);
                    assert forall|k: int| 0 <= k < h.len() implies (#[trigger] h[k]).len()
                        == h2[k].len() by {
                        assert(h1[k].len() == h2[k].len());
                    }
                },
                _ => {},
            }
        }
    }

    /// What is known of the inputs of a pin of the cone.
    pub proof fn lemma_sources(self, u: usize)
        requires
            self.wf(),
            self.order().contains(u),
        ensures
            u <= self.aig.num_aigpins,
            match self.aig.drivers@[u as int] {
                DriverType::AndGate(a, b) => {
                    &&& pin_of(a) <= self.aig.num_aigpins
                    &&& pin_of(b) <= self.aig.num_aigpins
                    &&& !self.avail.contains(u) ==> {
                        &&& a >= 2 ==> self.order().contains(pin_of(a)) && self.level(pin_of(a)) + 1
                            <= self.level(u)
                        &&& b >= 2 ==> self.order().contains(pin_of(b)) && self.level(pin_of(b)) + 1
                            <= self.level(u)
                        &&& forall|n: int| #[trigger]
                            self.placeable(n) && 2 <= self.level(u) <= n ==> a >= 2 && b >= 2
                    }
                },
                _ => self.level(u) == 0,
            },
            self.avail.contains(u) ==> self.level(u) == 0,
    {
        let s = self.order();
        self.aig.lemma_topo(self.avail, self.outs);
        let p = s.index_of(u);
        assert(s[p] == u);
        self.aig.lemma_rank(u);
        if !self.avail.contains(u) {
            match self.aig.drivers@[u as int] {
                DriverType::AndGate(a, b) => {
                    let src = self.aig.sources(self.avail, s[p]);
                    if a >= 2 {
                        assert(src[0] == pin_of(a));
                        assert(src.contains(pin_of(a)));
                        let q = choose|q: int| 0 <= q < p && #[trigger] s[q] == pin_of(a);
                        assert(s[q] == pin_of(a));
                    }
                    if b >= 2 {
                        assert(src[src.len() - 1] == pin_of(b));
                        assert(src.contains(pin_of(b)));
                        let q = choose|q: int| 0 <= q < p && #[trigger] s[q] == pin_of(b);
                        assert(s[q] == pin_of(b));
                    }
                },
                _ => {},
            }
        }
    }

    /// Putting a pin into a free slot fills slots under it only, and every slot
    /// filled is fed by the row below.
    pub proof fn lemma_place(self, h: Hier, hi: int, j: int, nd: usize)
        requires
            self.wf(),
            shaped(h),
            0 <= hi < h.len(),
            0 <= j < h[hi].len(),
            free_below(h, hi, j),
            self.sound(h, hi),
            nd <= self.aig.num_aigpins,
            hi >= 1 ==> self.order().contains(nd) && self.level(nd) <= hi,
        ensures
            same_shape(h, self.place(h, hi, j, nd)),
            same_outside(h, self.place(h, hi, j, nd), hi, j),
            self.sound(self.place(h, hi, j, nd), hi),
            self.place(h, hi, j, nd)[hi][j] == nd,
        decreases hi,
    {
        let g = self.place(h, hi, j, nd);
        let h1 = put(h, hi, j, nd);
        lemma_put_shape(h, hi, j, nd);
        if hi == 0 {
            assert forall|k: int, i: int|
                0 <= k < h.len() && 0 <= i < h[k].len() && !under(
                    h,
                    hi,
                    j,
                    k,
                    i,
                ) implies #[trigger] g[k][i] == h[k][i] by {
                if k == 0 {
                    lemma_under_self(h, hi, j, i);
                }
            }
        } else {
            let w = h[hi].len() as int;
            assert(h[hi - 1].len() == 2 * w);
            assert(h1[hi - 1].len() == 2 * w);
            self.lemma_sources(nd);
            self.lemma_place_put(h, hi, j, nd);
            lemma_under(h, hi, j, hi - 1, j + w);
            lemma_under_self(h, hi - 1, j + w, j + w);
            assert(h[hi - 1][j + w] == FREE);
            if self.level(nd) != hi {
                self.lemma_place(h1, hi - 1, j, nd);
                assert(g == self.place(h1, hi - 1, j, nd));
                self.lemma_place_join(h, h1, g, g, hi, j, nd);
            } else {
                match self.aig.drivers@[nd as int] {
                    DriverType::AndGate(a, b) => {
                        self.lemma_place(h1, hi - 1, j, pin_of(a));
                        let h2 = self.place(h1, hi - 1, j, pin_of(a));
                        self.lemma_place_second(h, h1, h2, hi, j, nd);
                        assert(h2[hi - 1].len() == h1[hi - 1].len());
                        self.lemma_place(h2, hi - 1, j + w, pin_of(b));
                        assert(g == self.place(h2, hi - 1, j + w, pin_of(b)));
                        self.lemma_place_join(h, h1, h2, g, hi, j, nd);
                    },
                    _ => {},
                }
            }
        }
    }

    /// After the slots under the first input are filled, those under the second
    /// are still free.
    pub proof fn lemma_place_second(
        self,
        h: Hier,
        h1: Hier,
        h2: Hier,
        hi: int,
        j: int,
        nd: usize,
    )
        requires
            shaped(h),
            1 <= hi < h.len(),
            0 <= j < h[hi].len(),
            free_below(h, hi, j),
            h1 == put(h, hi, j, nd),
            same_shape(h1, h2),
            same_outside(h1, h2, hi - 1, j),
        ensures
            shaped(h2),
            free_below(h2, hi - 1, j + h[hi].len()),
    {
        let w = h[hi].len() as int;
        lemma_put_shape(h, hi, j, nd);
        lemma_same_shape(h1, h2);
        assert(h[hi - 1].len() == 2 * w);
        assert(h2[hi - 1].len() == h1[hi - 1].len());
        assert forall|k: int, i: int|
            0 <= k <= hi - 1 && 0 <= i < h2[k].len() && under(
                h2,
                hi - 1,
                j + w,
                k,
                i,
            ) implies #[trigger] h2[k][i] == FREE by {
            assert(h2[k].len() == h1[k].len() && h1[k].len() == h[k].len());
            lemma_under(h, hi, j, k, i);
            assert(!under(h1, hi - 1, j, k, i));
            assert(h2[k][i] == h1[k][i]);
            assert(h1[k][i] == h[k][i]);
        }
    }

    /// After the top slot is filled, the row below is as before.
    pub proof fn lemma_place_put(self, h: Hier, hi: int, j: int, nd: usize)
        requires
            shaped(h),
            1 <= hi < h.len(),
            0 <= j < h[hi].len(),
            free_below(h, hi, j),
            self.sound(h, hi),
        ensures
            self.sound(put(h, hi, j, nd), hi - 1),
            h[hi][j] == FREE,
            free_below(put(h, hi, j, nd), hi - 1, j),
    {
        let h1 = put(h, hi, j, nd);
        let w = h[hi].len() as int;
        assert(h[hi - 1].len() == 2 * w);
        lemma_under_self(h, hi, j, j);
        assert forall|k: int, i: int|
            1 <= k <= hi - 1 && 0 <= i < h1[k].len() && #[trigger] h1[k][i]
                == FREE implies h1[k - 1][i] == FREE && h1[k - 1][i + h1[k].len()] == FREE by {
            assert(h[k][i] == FREE);
        }
        assert forall|k: int, i: int|
            1 <= k <= hi - 1 && 0 <= i < h1[k].len() && #[trigger] h1[k][i]
                != FREE implies self.slot_ok(h1, k, i) by {
            assert(h[k][i] != FREE);
            assert(self.slot_ok(h, k, i));
        }
        assert forall|k: int, i: int|
            0 <= k <= hi - 1 && 0 <= i < h1[k].len() && under(
                h1,
                hi - 1,
                j,
                k,
                i,
            ) implies #[trigger] h1[k][i] == FREE by {
            lemma_under(h, hi, j, k, i);
            assert(h[k][i] == FREE);
        }
    }

    /// The parts of a placement, joined: `h1` has the top slot filled, `h2` the
    /// slots under its first input too, `g` all of them.
    proof fn lemma_place_join(
        self,
        h: Hier,
        h1: Hier,
        h2: Hier,
        g: Hier,
        hi: int,
        j: int,
        nd: usize,
    )
        requires
            self.wf(),
            shaped(h),
            1 <= hi < h.len(),
            0 <= j < h[hi].len(),
            self.sound(h, hi),
            nd <= self.aig.num_aigpins,
            self.order().contains(nd),
            self.level(nd) <= hi,
            h1 == put(h, hi, j, nd),
            same_shape(h1, h2),
            same_shape(h2, g),
            same_outside(h1, h2, hi - 1, j),
            h2 == g || same_outside(h2, g, hi - 1, j + h[hi].len()),
            rooted(g, hi - 1),
            self.fed(g, hi - 1),
            h[hi - 1][j + h[hi].len()] == FREE,
            if self.level(nd) != hi {
                h2[hi - 1][j] == nd && h2 == g
            } else {
                match self.aig.drivers@[nd as int] {
                    DriverType::AndGate(a, b) => h2[hi - 1][j] == pin_of(a) && g[hi - 1][j
                        + h[hi].len()] == pin_of(b),
                    _ => false,
                }
            },
        ensures
            same_shape(h, g),
            same_outside(h, g, hi, j),
            rooted(g, hi),
            self.fed(g, hi),
            g[hi][j] == nd,
    {
        let w = h[hi].len() as int;
        assert(h[hi - 1].len() == 2 * w);
        assert forall|k: int| 0 <= k < h.len() implies (#[trigger] h[k]).len() == g[k].len() by {
            assert(h1[k].len() == h2[k].len() && h2[k].len() == g[k].len());
        }
        assert(h1[hi - 1].len() == h2[hi - 1].len());
        assert forall|k: int, i: int|
            0 <= k < h.len() && 0 <= i < h[k].len() && !under(h, hi, j, k, i) implies #[trigger] g[k][i]
            == h[k][i] by {
            lemma_under(h, hi, j, k, i);
            assert(h[k].len() == g[k].len() && h1[k].len() == h2[k].len());
            assert(h2[k][i] == h1[k][i]);
            assert(g[k][i] == h2[k][i]);
            assert(h1[k][i] == h[k][i]);
        }
        lemma_under(h, hi, j, hi, j);
        assert(h2[hi][j] == h1[hi][j]);
        assert(h1[hi].len() == h2[hi].len());
        assert(g[hi][j] == h2[hi][j]);
        lemma_under(h, hi, j, hi - 1, j);
        lemma_under_self(h, hi - 1, j + w, j);
        assert(g[hi - 1][j] == h2[hi - 1][j]);
        assert forall|k: int, i: int|
            1 <= k <= hi && 0 <= i < g[k].len() && #[trigger] g[k][i] == FREE implies g[k - 1][i]
            == FREE && g[k - 1][i + g[k].len()] == FREE by {
            if k == hi {
                self.lemma_row_outside(h, g, hi, j, i);
            }
        }
        if self.level(nd) != hi {
            lemma_under_self(h1, hi - 1, j, j + w);
            assert(h1[hi - 1][j + w] == FREE);
            assert(h2[hi - 1][j + w] == FREE);
        }
        assert(g[hi].len() == w);
        assert(self.slot_ok(g, hi, j));
        assert forall|k: int, i: int|
            1 <= k <= hi && 0 <= i < g[k].len() && #[trigger] g[k][i] != FREE implies self.slot_ok(
            g,
            k,
            i,
        ) by {
            if k < hi {
                assert(self.slot_ok(g, k, i));
            } else if i != j {
                self.lemma_row_outside(h, g, hi, j, i);
                assert(self.slot_ok(h, hi, i));
            }
        }
    }

    /// The other slots of the row, and their inputs, are as before.
    proof fn lemma_row_outside(self, h: Hier, g: Hier, hi: int, j: int, i: int)
        requires
            shaped(h),
            same_shape(h, g),
            1 <= hi < h.len(),
            0 <= j < h[hi].len(),
            0 <= i < h[hi].len(),
            same_outside(h, g, hi, j),
            i != j,
        ensures
            g[hi].len() == h[hi].len(),
            g[hi][i] == h[hi][i],
            g[hi - 1][i] == h[hi - 1][i],
            g[hi - 1][i + h[hi].len()] == h[hi - 1][i + h[hi].len()],
    {
        let w = h[hi].len() as int;
        assert(h[hi - 1].len() == 2 * w);
        assert(g[hi - 1].len() == h[hi - 1].len());
        assert(i % w == i && (i + w) % w == i) by (nonlinear_arith)
            requires
                0 <= i < w,
        ;
        assert(!under(h, hi, j, hi, i));
        assert(!under(h, hi, j, hi - 1, i));
        assert(!under(h, hi, j, hi - 1, i + w));
    }

    /// Freeing a slot that was filled restores what was there before.
    pub proof fn lemma_purge_undoes_place(self, h: Hier, hi: int, j: int, nd: usize)
        requires
            self.wf(),
            shaped(h),
            0 <= hi < h.len(),
            0 <= j < h[hi].len(),
            h[hi][j] == FREE,
            self.sound(h, hi),
            nd <= self.aig.num_aigpins,
            hi >= 1 ==> self.order().contains(nd) && self.level(nd) <= hi,
        ensures
            purge(self.place(h, hi, j, nd), hi, j) == h,
    {
        lemma_free_below(h, hi, j);
        self.lemma_place(h, hi, j, nd);
        let g = self.place(h, hi, j, nd);
        lemma_same_shape(h, g);
        assert(g[hi].len() == h[hi].len());
        lemma_purge(g, hi, j);
        let f = purge(g, hi, j);
        assert forall|k: int| 0 <= k < h.len() implies f[k] == h[k] by {
            assert(h[k].len() == g[k].len() && g[k].len() == f[k].len());
            assert(g[hi].len() == f[hi].len());
            assert forall|i: int| 0 <= i < h[k].len() implies f[k][i] == h[k][i] by {
                if under(h, hi, j, k, i) {
                    assert(under(f, hi, j, k, i));
                    assert(h[k][i] == FREE);
                    assert(f[k][i] == FREE);
                } else {
                    assert(!under(g, hi, j, k, i));
                    assert(f[k][i] == g[k][i]);
                }
            }
            assert(f[k] =~= h[k]);
        }
        assert(f =~= h);
    }
}

impl Cone {
    /// Whether a hierarchy is sound throughout, and holds nothing under a free slot
    /// of a row up to `top`.
    pub closed spec fn good(self, h: Hier, top: int) -> bool {
        &&& shaped(h)
        &&& 0 <= top < h.len()
        &&& self.placeable(h.len() - 1)
        &&& self.fed(h, h.len() - 1)
        &&& rooted(h, top)
        &&& bounded(h, self.aig.num_aigpins, h.len() - 1)
    }

    /// What is known of a good hierarchy.
    pub proof fn lemma_good(self, h: Hier, top: int)
        requires
            self.good(h, top),
        ensures
            shaped(h),
            0 <= top < h.len(),
            self.fed(h, h.len() - 1),
            self.placeable(h.len() - 1),
            self.placeable(top),
            bounded(h, self.aig.num_aigpins, top),
            rooted(h, top),
            self.sound(h, top),
            forall|t: int| 0 <= t <= top ==> #[trigger] self.good(h, t),
    {
    }

    /// A hierarchy with all slots free is good.
    pub proof fn lemma_good_free(self, h: Hier, top: int)
        requires
            shaped(h),
            0 <= top < h.len(),
            self.placeable(h.len() - 1),
            forall|k: int, i: int|
                0 <= k < h.len() && 0 <= i < h[k].len() ==> #[trigger] h[k][i] == FREE,
        ensures
            self.good(h, top),
    {
        assert forall|k: int, i: int|
            1 <= k <= top && 0 <= i < h[k].len() && #[trigger] h[k][i] == FREE implies h[k - 1][i]
            == FREE && h[k - 1][i + h[k].len()] == FREE by {
            assert(h[k - 1].len() == 2 * h[k].len());
        }
    }

    /// Putting pins into free slots keeps a hierarchy good.
    pub proof fn lemma_good_place(self, h: Hier, hi: int, j: int, nd: usize)
        requires
            self.wf(),
            self.good(h, hi),
            1 <= hi,
            0 <= j < h[hi].len(),
            h[hi][j] == FREE,
            self.order().contains(nd),
            self.level(nd) <= hi,
        ensures
            free_below(h, hi, j),
            nd <= self.aig.num_aigpins,
            self.good(self.place(h, hi, j, nd), hi),
            same_shape(h, self.place(h, hi, j, nd)),
    {
        lemma_free_below(h, hi, j);
        self.lemma_sources(nd);
        let g = self.place(h, hi, j, nd);
        self.lemma_place(h, hi, j, nd);
        lemma_same_shape(h, g);
        self.lemma_place_bounded(h, hi, j, nd, h.len() - 1);
        assert forall|k: int, i: int|
            1 <= k <= g.len() - 1 && 0 <= i < g[k].len() && #[trigger] g[k][i]
                != FREE implies self.slot_ok(g, k, i) by {
            assert(h[k].len() == g[k].len() && h[k - 1].len() == g[k - 1].len());
            if k > hi {
                assert(!under(h, hi, j, k, i));
                assert(g[k][i] == h[k][i]);
                assert(self.slot_ok(h, k, i));
                let w = h[k].len() as int;
                assert(h[k - 1].len() == 2 * w);
                self.lemma_sources(h[k][i]);
                if k - 1 == hi {
                    lemma_under_self(h, hi, j, i);
                    lemma_under_self(h, hi, j, i + w);
                }
                if !under(h, hi, j, k - 1, i) {
                    assert(g[k - 1][i] == h[k - 1][i]);
                }
                if !under(h, hi, j, k - 1, i + w) {
                    assert(g[k - 1][i + w] == h[k - 1][i + w]);
                }
            }
        }
    }

    /// Putting a pin into a free slot keeps everything else, and computes the pin.
    pub proof fn lemma_place_extends(self, h: Hier, hi: int, j: int, nd: usize)
        requires
            self.wf(),
            self.good(h, hi),
            1 <= hi,
            0 <= j < h[hi].len(),
            h[hi][j] == FREE,
            self.order().contains(nd),
            self.level(nd) <= hi,
        ensures
            extends(h, self.place(h, hi, j, nd)),
            self.place(h, hi, j, nd)[hi][j] == nd,
            placed(self.place(h, hi, j, nd), nd),
    {
        let g = self.place(h, hi, j, nd);
        lemma_free_below(h, hi, j);
        self.lemma_sources(nd);
        self.lemma_place(h, hi, j, nd);
        assert forall|k: int, i: int|
            0 <= k < h.len() && 0 <= i < h[k].len() && h[k][i] != FREE implies #[trigger] g[k][i]
            == h[k][i] by {
            assert(!under(h, hi, j, k, i));
        }
        assert(h[hi].len() == g[hi].len());
        lemma_placed_at(g, hi, j);
    }

    /// Putting pins into slots keeps the bound on the pins.
    pub proof fn lemma_place_bounded(self, h: Hier, hi: int, j: int, nd: usize, top: int)
        requires
            self.wf(),
            shaped(h),
            0 <= hi <= top < h.len(),
            0 <= j < h[hi].len(),
            nd <= self.aig.num_aigpins,
            bounded(h, self.aig.num_aigpins, top),
        ensures
            bounded(self.place(h, hi, j, nd), self.aig.num_aigpins, top),
            same_shape(h, self.place(h, hi, j, nd)),
        decreases hi,
    {
        let n = self.aig.num_aigpins;
        let h1 = put(h, hi, j, nd);
        lemma_put_shape(h, hi, j, nd);
        assert forall|k: int, i: int| 0 <= k <= top && 0 <= i < h1[k].len() implies #[trigger] h1[k][i]
            == FREE || h1[k][i] <= n by {
            assert(h1[k].len() == h[k].len());
            assert(h[k][i] == FREE || h[k][i] <= n);
        }
        if hi > 0 {
            assert(h[hi - 1].len() == 2 * h[hi].len());
            self.aig.lemma_rank(nd);
            if self.level(nd) != hi {
                self.lemma_place_bounded(h1, hi - 1, j, nd, top);
            } else {
                match self.aig.drivers@[nd as int] {
                    DriverType::AndGate(a, b) => {
                        self.lemma_place_bounded(h1, hi - 1, j, pin_of(a), top);
                        let h2 = self.place(h1, hi - 1, j, pin_of(a));
                        lemma_same_shape(h1, h2);
                        assert(h2[hi - 1].len() == h1[hi - 1].len());
                        self.lemma_place_bounded(h2, hi - 1, j + h[hi].len(), pin_of(b), top);
                        let g = self.place(h, hi, j, nd);
                        assert forall|k: int| 0 <= k < h.len() implies (#[trigger] h[k]).len()
                            == g[k].len() by {
                            assert(h1[k].len() == h2[k].len());
                            assert(h2[k].len() == g[k].len());
                        }
                    },
                    _ => {},
                }
            }
        }
    }

    /// The inputs of a pin of level at least 1 that a slot above row 0 holds are
    /// computed too, unless they are of level 0.
    pub proof fn lemma_inputs_placed(self, h: Hier, hi: int, j: int, x: usize)
        requires
            self.wf(),
            shaped(h),
            self.fed(h, h.len() - 1),
            1 <= hi < h.len(),
            0 <= j < h[hi].len(),
            h[hi][j] != FREE,
            self.level(h[hi][j]) >= 1,
            self.aig.sources(self.avail, h[hi][j]).contains(x),
        ensures
            self.level(x) == 0 || placed(h, x),
        decreases hi,
    {
        let u = h[hi][j];
        assert(self.slot_ok(h, hi, j));
        assert(h[hi - 1].len() == 2 * h[hi].len());
        if self.level(u) < hi {
            self.lemma_inputs_placed(h, hi - 1, j, x);
        } else {
            self.lemma_sources(u);
            match self.aig.drivers@[u as int] {
                DriverType::AndGate(a, b) => {
                    if hi > 1 {
                        lemma_placed_at(h, hi - 1, j);
                        lemma_placed_at(h, hi - 1, j + h[hi].len());
                    }
                },
                _ => {},
            }
        }
    }

    /// A pin that is computed is one of those to compute.
    pub proof fn lemma_placed_order(self, h: Hier, x: usize)
        requires
            self.fed(h, h.len() - 1),
            placed(h, x),
            x != FREE,
        ensures
            self.order().contains(x),
    {
        let (hi, j) = lemma_placed_slot(h, x);
        assert(h[hi][j] != FREE);
        assert(self.slot_ok(h, hi, j));
    }
}

} // verus!
