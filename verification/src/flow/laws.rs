//! What the events of a dump mean for a simulation.
use crate::aig::DriverType;
use crate::bits::{law_bit_of, lemma_one_bit, lemma_position};
use crate::block::model::{Block, Effects};
use crate::flow::model::{
    bit_value, block_there, changed_upto, cycle, cycle_upto, differing, flags_cleared,
    has_bit, input_bit_spec, layout_upto, output_spec, output_value, recorded, shifted, toggled,
    with_bit, without_bit, BitChange, CycleModel, FlowModel, FlowOutput, OutputSource, OutputValue,
    ScriptModel, ONE,
};
use crate::pe::plan::StageModel;
use vstd::arithmetic::power2::pow2;
use vstd::prelude::*;

verus! {

/// The bit at a position is a digit of the word that holds it.
pub proof fn law_bit_value(words: Seq<u32>, pos: u32)
    ensures
        bit_value(words, pos) == (words[pos as int / 32] as int / pow2((pos % 32) as nat) as int) % 2,
        bit_value(words, pos) <= 1,
        has_bit(words, pos) == (pos as int / 32 < words.len()),
{
    lemma_position(pos);
    law_bit_of(words[pos as int / 32], (pos % 32) as u32);
}

/// Changing a bit changes no other bit.
proof fn lemma_bit_changed(words: Seq<u32>, p: u32, q: u32)
    requires
        has_bit(words, p),
        has_bit(words, q),
    ensures
        bit_value(shifted(words, p), q) == if p == q {
            (1 - bit_value(words, q)) as u32
        } else {
            bit_value(words, q)
        },
        bit_value(with_bit(words, p), q) == if p == q {
            1u32
        } else {
            bit_value(words, q)
        },
        bit_value(without_bit(words, p), q) == if p == q {
            0u32
        } else {
            bit_value(words, q)
        },
        bit_value(words, q) <= 1,
        shifted(words, p).len() == words.len(),
        with_bit(words, p).len() == words.len(),
        without_bit(words, p).len() == words.len(),
{
    lemma_position(p);
    lemma_position(q);
    lemma_one_bit(words[(q >> 5) as int], p & 31, q & 31);
    lemma_one_bit(words[(q >> 5) as int], q & 31, q & 31);
}

/// Inverting the bits at distinct positions inverts each of them, and no other bit.
pub proof fn law_toggled(words: Seq<u32>, list: Seq<u32>, k: int, pos: u32)
    requires
        0 <= k <= list.len(),
        list.no_duplicates(),
        forall|i: int| 0 <= i < list.len() ==> has_bit(words, #[trigger] list[i]),
        has_bit(words, pos),
    ensures
        toggled(words, list, k).len() == words.len(),
        bit_value(words, pos) <= 1,
        bit_value(toggled(words, list, k), pos) == if list.take(k).contains(pos) {
            (1 - bit_value(words, pos)) as u32
        } else {
            bit_value(words, pos)
        },
    decreases k,
{
    if k > 0 {
        law_toggled(words, list, k - 1, pos);
        let was = toggled(words, list, k - 1);
        assert(has_bit(words, list[k - 1]));
        lemma_bit_changed(was, list[k - 1], pos);
        lemma_taken(list, k, pos);
        if list.take(k - 1).contains(pos) {
            let i = list.take(k - 1).index_of(pos);
            assert(list[i] == pos);
        }
    } else {
        law_bit_value(words, pos);
    }
}

proof fn lemma_taken(list: Seq<u32>, k: int, x: u32)
    requires
        0 < k <= list.len(),
    ensures
        list.take(k).contains(x) == (list.take(k - 1).contains(x) || list[k - 1] == x),
{
    let was = list.take(k - 1);
    let now = list.take(k);
    assert(now[k - 1] == list[k - 1]);
    if was.contains(x) {
        let i = was.index_of(x);
        assert(now[i] == x);
    }
    if now.contains(x) && list[k - 1] != x {
        let i = now.index_of(x);
        assert(was[i] == x);
    }
}

/// Clearing the bits at positions makes them 0, and changes no other bit.
pub proof fn law_flags_cleared(words: Seq<u32>, list: Seq<u32>, k: int, pos: u32)
    requires
        0 <= k <= list.len(),
        forall|i: int| 0 <= i < list.len() ==> has_bit(words, #[trigger] list[i]),
        has_bit(words, pos),
    ensures
        flags_cleared(words, list, k).len() == words.len(),
        bit_value(flags_cleared(words, list, k), pos) == if list.take(k).contains(pos) {
            0u32
        } else {
            bit_value(words, pos)
        },
    decreases k,
{
    if k > 0 {
        law_flags_cleared(words, list, k - 1, pos);
        assert(has_bit(words, list[k - 1]));
        lemma_bit_changed(flags_cleared(words, list, k - 1), list[k - 1], pos);
        lemma_taken(list, k, pos);
    }
}

/// Whether the places of an input are bits of the state.
pub open spec fn placed(state: Seq<u32>, bit: BitChange) -> bool {
    &&& has_bit(state, bit.pos)
    &&& bit.posedge matches Some(p) ==> has_bit(state, p)
    &&& bit.negedge matches Some(p) ==> has_bit(state, p)
}

/// The flag that is set when an input gets a new value: that for the rising edge if the
/// value is 1, and that for the falling edge otherwise.
pub open spec fn edge_flag(bit: BitChange, b: u8) -> Option<u32> {
    if b == ONE {
        bit.posedge
    } else {
        bit.negedge
    }
}

impl FlowModel {
    /// What giving an input a value does. Nothing happens if it has the value. Otherwise its
    /// bit is put among those that change at the next time stamp, once; the flag for the edge,
    /// if there is one, is set and makes a cycle due. Nothing else changes.
    pub proof fn law_changed(self, bit: BitChange, b: u8)
        requires
            placed(self.state, bit),
        ensures
            ({
                let f = self.changed(bit, b);
                let same = (bit_value(self.state, bit.pos) == 1) == (b == ONE);
                &&& same ==> f == self
                &&& !same ==> {
                    &&& f.state.len() == self.state.len()
                    &&& forall|p: u32|
                        has_bit(self.state, p) ==> #[trigger] bit_value(f.state, p) == if edge_flag(
                            bit,
                            b,
                        ) == Some(p) {
                            1
                        } else {
                            bit_value(self.state, p)
                        }
                    &&& f.active == (self.active || edge_flag(bit, b) is Some)
                    &&& forall|p: u32| #[trigger]
                        f.delayed.contains(p) <==> self.delayed.contains(p) || p == bit.pos
                    &&& self.delayed.no_duplicates() ==> f.delayed.no_duplicates()
                    &&& f.sram == self.sram
                    &&& f.pins == self.pins
                    &&& f.time == self.time
                    &&& f.last_active == self.last_active
                    &&& f.last == self.last
                }
            }),
    {
        let f = self.changed(bit, b);
        law_bit_value(self.state, bit.pos);
        if (bit_value(self.state, bit.pos) == 1) != (b == ONE) {
            if let Some(p) = edge_flag(bit, b) {
                assert forall|q: u32| has_bit(self.state, q) implies #[trigger] bit_value(f.state, q)
                    == if edge_flag(bit, b) == Some(q) {
                    1
                } else {
                    bit_value(self.state, q)
                } by {
                    lemma_bit_changed(self.state, p, q);
                }
            }
            if !self.delayed.contains(bit.pos) {
                let d = self.delayed;
                assert(f.delayed[d.len() as int] == bit.pos);
                assert forall|p: u32| #[trigger] f.delayed.contains(p) <==> d.contains(p) || p
                    == bit.pos by {
                    if d.contains(p) {
                        let i = d.index_of(p);
                        assert(f.delayed[i] == p);
                    }
                }
            }
        }
    }

    /// The simulation after inputs have got values, one after the other.
    pub open spec fn changed_all(self, list: Seq<(BitChange, u8)>) -> FlowModel
        decreases list.len(),
    {
        if list.len() == 0 {
            self
        } else {
            self.changed_all(list.drop_last()).changed(list.last().0, list.last().1)
        }
    }

    /// What giving several inputs values does to the bits that change at the next time
    /// stamp: they are those of the inputs that get another value than they have.
    proof fn lemma_changed_all(self, list: Seq<(BitChange, u8)>)
        requires
            self.delayed.len() == 0,
            consistent(self.state, list),
        ensures
            ({
                let f = self.changed_all(list);
                &&& f.state.len() == self.state.len()
                &&& f.delayed.no_duplicates()
                &&& forall|p: u32| #[trigger]
                    f.delayed.contains(p) <==> exists|i: int|
                        0 <= i < list.len() && (#[trigger] list[i]).0.pos == p && (bit_value(
                            self.state,
                            p,
                        ) == 1) != (list[i].1 == ONE)
                &&& forall|p: u32|
                    has_bit(self.state, p) && !#[trigger] is_flag(list, p) ==> bit_value(f.state, p)
                        == bit_value(self.state, p)
                &&& f.time == self.time
                &&& f.sram == self.sram
                &&& f.pins == self.pins
                &&& f.last_active == self.last_active
                &&& f.last == self.last
                &&& (forall|i: int|
                    0 <= i < list.len() ==> (#[trigger] list[i]).0.posedge is None
                        && list[i].0.negedge is None) ==> f.active == self.active
            }),
        decreases list.len(),
    {
        let f = self.changed_all(list);
        if list.len() > 0 {
            let front = list.drop_last();
            let (bit, b) = list.last();
            let n = list.len() - 1;
            assert(list[n] == (bit, b));
            assert forall|i: int, j: int|
                0 <= i < front.len() && 0 <= j < front.len() && (#[trigger] front[i]).0.pos == (
                #[trigger] front[j]).0.pos implies (front[i].1 == ONE) == (front[j].1 == ONE) by {
                assert(list[i] == front[i] && list[j] == front[j]);
            }
            assert forall|i: int| 0 <= i < front.len() implies placed(
                self.state,
                (#[trigger] front[i]).0,
            ) && !is_flag(front, front[i].0.pos) by {
                assert(list[i] == front[i]);
                assert(!is_flag(list, list[i].0.pos));
                if is_flag(front, front[i].0.pos) {
                    let j = choose|j: int| flags_at(front, j, front[i].0.pos);
                    assert(list[j] == front[j]);
                    assert(flags_at(list, j, front[i].0.pos));
                }
            }
            self.lemma_changed_all(front);
            let g = self.changed_all(front);
            assert(!is_flag(list, list[n].0.pos));
            if is_flag(front, bit.pos) {
                let j = choose|j: int| flags_at(front, j, bit.pos);
                assert(list[j] == front[j]);
                assert(flags_at(list, j, bit.pos));
            }
            assert(bit_value(g.state, bit.pos) == bit_value(self.state, bit.pos));
            g.law_changed(bit, b);
            assert forall|p: u32| #[trigger] f.delayed.contains(p) <==> exists|i: int|
                0 <= i < list.len() && (#[trigger] list[i]).0.pos == p && (bit_value(self.state, p)
                    == 1) != (list[i].1 == ONE) by {
                if g.delayed.contains(p) {
                    let i = choose|i: int|
                        0 <= i < front.len() && (#[trigger] front[i]).0.pos == p && (bit_value(
                            self.state,
                            p,
                        ) == 1) != (front[i].1 == ONE);
                    assert(list[i] == front[i]);
                }
                if exists|i: int|
                    0 <= i < list.len() && (#[trigger] list[i]).0.pos == p && (bit_value(
                        self.state,
                        p,
                    ) == 1) != (list[i].1 == ONE) {
                    let i = choose|i: int|
                        0 <= i < list.len() && (#[trigger] list[i]).0.pos == p && (bit_value(
                            self.state,
                            p,
                        ) == 1) != (list[i].1 == ONE);
                    if i < n {
                        assert(front[i] == list[i]);
                        assert(g.delayed.contains(p));
                    }
                }
            }
            assert forall|p: u32| has_bit(self.state, p) && !#[trigger] is_flag(list, p) implies bit_value(
                f.state,
                p,
            ) == bit_value(self.state, p) by {
                assert(!flags_at(list, n, p));
                if is_flag(front, p) {
                    let j = choose|j: int| flags_at(front, j, p);
                    assert(list[j] == front[j]);
                    assert(flags_at(list, j, p));
                }
            }
            if forall|i: int|
                0 <= i < list.len() ==> (#[trigger] list[i]).0.posedge is None
                    && list[i].0.negedge is None {
                assert forall|i: int| 0 <= i < front.len() implies (
                #[trigger] front[i]).0.posedge is None && front[i].0.negedge is None by {
                    assert(list[i] == front[i]);
                }
            }
        } else {
            assert forall|p: u32| !#[trigger] f.delayed.contains(p) by {}
        }
    }

    /// A value that an input gets is in the state after the next time stamp if no cycle is
    /// due: each input that has got a value has it, and no other bit changes, but for the
    /// flags of edges.
    pub proof fn law_inputs_taken(
        self,
        list: Seq<(BitChange, u8)>,
        m: ScriptModel,
        parts: Seq<Seq<Seq<StageModel>>>,
        outs: Seq<FlowOutput>,
        flags: Seq<u32>,
        always: bool,
        t: u64,
    )
        requires
            self.delayed.len() == 0,
            consistent(self.state, list),
            !self.changed_all(list).active,
            t != self.time,
        ensures
            self.changed_all(list).advanced(m, parts, outs, flags, always, t) matches Some((f, written))
                && {
                &&& written is None
                &&& f.state.len() == self.state.len()
                &&& f.delayed.len() == 0
                &&& f.time == t
                &&& f.active == always
                &&& forall|i: int|
                    0 <= i < list.len() ==> (bit_value(f.state, (#[trigger] list[i]).0.pos) == 1) == (
                    list[i].1 == ONE)
                &&& forall|p: u32|
                    has_bit(self.state, p) && !is_flag(list, p) && (forall|i: int|
                        0 <= i < list.len() ==> (#[trigger] list[i]).0.pos != p) ==> #[trigger] bit_value(
                        f.state,
                        p,
                    ) == bit_value(self.state, p)
            },
    {
        self.lemma_changed_all(list);
        let g = self.changed_all(list);
        assert forall|i: int| 0 <= i < g.delayed.len() implies has_bit(
            g.state,
            #[trigger] g.delayed[i],
        ) by {
            let p = g.delayed[i];
            assert(g.delayed.contains(p));
            let j = choose|j: int|
                0 <= j < list.len() && (#[trigger] list[j]).0.pos == p && (bit_value(self.state, p)
                    == 1) != (list[j].1 == ONE);
            assert(placed(self.state, list[j].0));
        }
        g.law_time_stamp(m, parts, outs, flags, always, t);
        let f = g.advanced(m, parts, outs, flags, always, t).unwrap().0;
        assert forall|i: int| 0 <= i < list.len() implies (bit_value(
            f.state,
            (#[trigger] list[i]).0.pos,
        ) == 1) == (list[i].1 == ONE) by {
            let p = list[i].0.pos;
            assert(placed(self.state, list[i].0));
            assert(!is_flag(list, list[i].0.pos));
            law_bit_value(self.state, p);
            if g.delayed.contains(p) {
                let j = choose|j: int|
                    0 <= j < list.len() && (#[trigger] list[j]).0.pos == p && (bit_value(
                        self.state,
                        p,
                    ) == 1) != (list[j].1 == ONE);
                assert(list[i].0.pos == list[j].0.pos);
            }
        }
        assert forall|p: u32|
            has_bit(self.state, p) && !is_flag(list, p) && (forall|i: int|
                0 <= i < list.len() ==> (#[trigger] list[i]).0.pos != p) implies #[trigger] bit_value(
            f.state,
            p,
        ) == bit_value(self.state, p) by {
            assert(!g.delayed.contains(p));
        }
    }

    /// A time stamp that is the present time does nothing.
    pub proof fn law_same_time(
        self,
        m: ScriptModel,
        parts: Seq<Seq<Seq<StageModel>>>,
        outs: Seq<FlowOutput>,
        flags: Seq<u32>,
        always: bool,
    )
        ensures
            self.advanced(m, parts, outs, flags, always, self.time) == Some(
                (self, None::<(u64, Seq<(usize, bool)>)>),
            ),
    {
    }

    /// What a time stamp does if no cycle is due: the bits of the inputs that change are
    /// inverted, and no other bit of the state, and nothing is written.
    pub proof fn law_time_stamp(
        self,
        m: ScriptModel,
        parts: Seq<Seq<Seq<StageModel>>>,
        outs: Seq<FlowOutput>,
        flags: Seq<u32>,
        always: bool,
        t: u64,
    )
        requires
            !self.active,
            t != self.time,
            self.delayed.no_duplicates(),
            forall|i: int|
                0 <= i < self.delayed.len() ==> has_bit(self.state, #[trigger] self.delayed[i]),
        ensures
            self.advanced(m, parts, outs, flags, always, t) matches Some((f, written)) && {
                &&& written is None
                &&& f.state.len() == self.state.len()
                &&& forall|p: u32|
                    has_bit(self.state, p) ==> #[trigger] bit_value(f.state, p)
                        == if self.delayed.contains(p) {
                        1 - bit_value(self.state, p)
                    } else {
                        bit_value(self.state, p) as int
                    }
                &&& f.sram == self.sram
                &&& f.pins == self.pins
                &&& f.time == t
                &&& f.last_active == self.last_active
                &&& f.active == always
                &&& f.delayed.len() == 0
                &&& f.last == self.last
            },
    {
        lemma_inverted(self.state, self.delayed);
    }

    /// What a time stamp does if a cycle is due: all blocks are run on the state; the bits of
    /// the next state are those that the blocks give, the flags of edges being cleared unless
    /// this is the first cycle; then the inputs change. The time stamp before is the one at
    /// which something happened last. The outputs are written for the one before that, unless
    /// this is the first cycle. If the script does not fit or an output is not what was
    /// recorded, there is nothing.
    pub proof fn law_cycle(
        self,
        m: ScriptModel,
        parts: Seq<Seq<Seq<StageModel>>>,
        outs: Seq<FlowOutput>,
        flags: Seq<u32>,
        always: bool,
        t: u64,
    )
        requires
            self.active,
            t != self.time,
            self.delayed.no_duplicates(),
            forall|i: int|
                0 <= i < self.delayed.len() ==> has_bit(self.state, #[trigger] self.delayed[i]),
            forall|i: int| 0 <= i < flags.len() ==> has_bit(self.state, #[trigger] flags[i]),
            self.last.len() == outs.len(),
            outs.len() <= usize::MAX,
        ensures
            match (
                self.advanced(m, parts, outs, flags, always, t),
                cycle(m, parts, self.state, self.sram, self.pins),
            ) {
                (Some((f, written)), Some(c)) => {
                    &&& f.state.len() == self.state.len()
                    &&& forall|p: u32|
                        has_bit(self.state, p) ==> {
                            let bit = if self.last_active != u64::MAX && flags.contains(p) {
                                0u32
                            } else {
                                bit_value(c.output, p)
                            };
                            #[trigger] bit_value(f.state, p) == if self.delayed.contains(p) {
                                1 - bit
                            } else {
                                bit as int
                            }
                        }
                    &&& f.sram == c.sram
                    &&& f.pins == c.pins
                    &&& f.time == t
                    &&& f.last_active == self.time
                    &&& f.active == always
                    &&& f.delayed.len() == 0
                    &&& match written {
                        Some((time, list)) => {
                            &&& self.last_active != u64::MAX
                            &&& time == self.last_active
                            &&& written_of(c.pins, c.output, outs, self.last, list, f.last)
                            &&& forall|i: int|
                                0 <= i < outs.len() ==> !(output_value(
                                    c.pins,
                                    c.output,
                                    #[trigger] outs[i],
                                ) is Mismatch)
                        },
                        None => self.last_active == u64::MAX && f.last == self.last,
                    }
                },
                (Some(_), None) => false,
                (None, Some(c)) => self.last_active != u64::MAX && exists|i: int|
                    0 <= i < outs.len() && output_value(c.pins, c.output, #[trigger] outs[i]) is Mismatch,
                (None, None) => true,
            },
    {
        if let Some(c) = cycle(m, parts, self.state, self.sram, self.pins) {
            lemma_cycle_len(
                m,
                parts,
                self.state,
                CycleModel {
                    output: self.state,
                    sram: self.sram,
                    pins: self.pins,
                    log: Seq::empty(),
                },
                m.num_major_stages as int,
                0,
            );
            assert(c.output.len() == self.state.len());
            let n = outs.len() as int;
            law_written(c.pins, c.output, outs, self.last, n);
            let cleared = flags_cleared(c.output, flags, flags.len() as int);
            assert(flags.take(flags.len() as int) =~= flags);
            assert forall|i: int| 0 <= i < flags.len() implies has_bit(
                c.output,
                #[trigger] flags[i],
            ) by {
                assert(has_bit(self.state, flags[i]));
            }
            assert forall|p: u32| has_bit(self.state, p) implies #[trigger] bit_value(cleared, p)
                == if flags.contains(p) {
                0u32
            } else {
                bit_value(c.output, p)
            } by {
                law_flags_cleared(c.output, flags, flags.len() as int, p);
            }
            if flags.len() > 0 {
                law_flags_cleared(c.output, flags, flags.len() as int, flags[0]);
            } else {
                assert(cleared == c.output);
            }
            assert(cleared.len() == c.output.len());
            assert forall|i: int| 0 <= i < self.delayed.len() implies has_bit(
                c.output,
                #[trigger] self.delayed[i],
            ) by {
                assert(has_bit(self.state, self.delayed[i]));
            }
            lemma_inverted(cleared, self.delayed);
            lemma_inverted(c.output, self.delayed);
            if let Some((f, written)) = self.advanced(m, parts, outs, flags, always, t) {
                assert forall|p: u32| has_bit(self.state, p) implies {
                    let bit = if self.last_active != u64::MAX && flags.contains(p) {
                        0u32
                    } else {
                        bit_value(c.output, p)
                    };
                    #[trigger] bit_value(f.state, p) == if self.delayed.contains(p) {
                        1 - bit
                    } else {
                        bit as int
                    }
                } by {
                    assert(has_bit(c.output, p));
                    if self.last_active != u64::MAX {
                        assert(bit_value(cleared, p) == if flags.contains(p) {
                            0u32
                        } else {
                            bit_value(c.output, p)
                        });
                    }
                }
            }
        }
    }
}

/// Whether position `i` of a list of changes has a flag at a position.
pub open spec fn flags_at(list: Seq<(BitChange, u8)>, i: int, p: u32) -> bool {
    &&& 0 <= i < list.len()
    &&& list[i].0.posedge == Some(p) || list[i].0.negedge == Some(p)
}

/// Whether a position is one of a flag of a list of changes.
pub open spec fn is_flag(list: Seq<(BitChange, u8)>, p: u32) -> bool {
    exists|i: int| flags_at(list, i, p)
}

/// Whether the places of a list of changes are bits of the state, no input is at the place
/// of a flag, and an input that gets values more than once gets the same.
pub open spec fn consistent(state: Seq<u32>, list: Seq<(BitChange, u8)>) -> bool {
    &&& forall|i: int|
        0 <= i < list.len() ==> placed(state, (#[trigger] list[i]).0) && !is_flag(
            list,
            list[i].0.pos,
        )
    &&& forall|i: int, j: int|
        0 <= i < list.len() && 0 <= j < list.len() && (#[trigger] list[i]).0.pos == (
        #[trigger] list[j]).0.pos ==> (list[i].1 == ONE) == (list[j].1 == ONE)
}

proof fn lemma_inverted(words: Seq<u32>, list: Seq<u32>)
    requires
        list.no_duplicates(),
        forall|i: int| 0 <= i < list.len() ==> has_bit(words, #[trigger] list[i]),
    ensures
        toggled(words, list, list.len() as int).len() == words.len(),
        forall|p: u32|
            has_bit(words, p) ==> #[trigger] bit_value(toggled(words, list, list.len() as int), p)
                == if list.contains(p) {
                1 - bit_value(words, p)
            } else {
                bit_value(words, p) as int
            },
{
    let n = list.len() as int;
    assert(list.take(n) =~= list);
    if n > 0 {
        law_toggled(words, list, n, list[0]);
    }
    assert forall|p: u32| has_bit(words, p) implies #[trigger] bit_value(toggled(words, list, n), p)
        == if list.contains(p) {
        1 - bit_value(words, p)
    } else {
        bit_value(words, p) as int
    } by {
        law_toggled(words, list, n, p);
    }
}

/// The value of an output, if it is known.
pub open spec fn known_value(pins: Seq<u8>, state: Seq<u32>, out: FlowOutput) -> Option<u32> {
    match output_value(pins, state, out) {
        OutputValue::Value(v) => Some(v),
        _ => None,
    }
}

/// Whether a value is known, and not that last written; `b` tells whether it is 1.
pub open spec fn is_news(value: Option<u32>, last: u32, b: bool) -> bool {
    match value {
        Some(v) => v != last && b == (v == 1),
        None => false,
    }
}

/// Whether a list names, in order, the outputs whose value is known and not that last
/// written, each with its value, and `now` holds these values, and what was last written of
/// the other outputs.
pub open spec fn written_of(
    pins: Seq<u8>,
    state: Seq<u32>,
    outs: Seq<FlowOutput>,
    last: Seq<u32>,
    list: Seq<(usize, bool)>,
    now: Seq<u32>,
) -> bool {
    &&& now.len() == last.len()
    &&& forall|a: int, b: int| 0 <= a < b < list.len() ==> (#[trigger] list[a]).0 < (#[trigger] list[b]).0
    &&& forall|i: usize, b: bool| #[trigger]
        list.contains((i, b)) <==> i < outs.len() && is_news(
            known_value(pins, state, outs[i as int]),
            last[i as int],
            b,
        )
    &&& forall|i: int|
        0 <= i < outs.len() ==> #[trigger] now[i] == match known_value(pins, state, outs[i]) {
            Some(v) => v,
            None => last[i],
        }
}

/// What is written of the first outputs: those whose value has changed. There is nothing
/// exactly if the state and a recorded value differ.
pub proof fn law_written(
    pins: Seq<u8>,
    state: Seq<u32>,
    outs: Seq<FlowOutput>,
    last: Seq<u32>,
    k: int,
)
    requires
        0 <= k <= outs.len(),
        outs.len() <= usize::MAX,
        last.len() == outs.len(),
    ensures
        match changed_upto(pins, state, outs, last, k) {
            Some((list, now)) => {
                &&& forall|i: int|
                    0 <= i < k ==> !(output_value(pins, state, #[trigger] outs[i]) is Mismatch)
                &&& now.len() == last.len()
                &&& forall|a: int, b: int|
                    0 <= a < b < list.len() ==> (#[trigger] list[a]).0 < (#[trigger] list[b]).0
                &&& forall|i: usize, b: bool| #[trigger]
                    list.contains((i, b)) <==> i < k && is_news(
                        known_value(pins, state, outs[i as int]),
                        last[i as int],
                        b,
                    )
                &&& forall|i: int|
                    0 <= i < outs.len() ==> #[trigger] now[i] == if i < k {
                        match known_value(pins, state, outs[i]) {
                            Some(v) => v,
                            None => last[i],
                        }
                    } else {
                        last[i]
                    }
            },
            None => exists|i: int|
                0 <= i < k && output_value(pins, state, #[trigger] outs[i]) is Mismatch,
        },
    decreases k,
{
    if k > 0 {
        law_written(pins, state, outs, last, k - 1);
        if let Some((list, now)) = changed_upto(pins, state, outs, last, k - 1) {
            let j = (k - 1) as usize;
            let value = output_value(pins, state, outs[k - 1]);
            assert(now[k - 1] == last[k - 1]);
            if let OutputValue::Value(v) = value {
                if v != now[k - 1] {
                    let more = list.push((j, v == 1));
                    assert(more[list.len() as int] == (j, v == 1));
                    assert forall|i: usize, b: bool| #[trigger]
                        more.contains((i, b)) <==> list.contains((i, b)) || (i, b) == (
                        j,
                        v == 1,
                    ) by {
                        if list.contains((i, b)) {
                            let t = list.index_of((i, b));
                            assert(more[t] == (i, b));
                        }
                    }
                    assert forall|a: int, b: int| 0 <= a < b < more.len() implies (
                    #[trigger] more[a]).0 < (#[trigger] more[b]).0 by {
                        if b == list.len() {
                            assert(list.contains((list[a].0, list[a].1)));
                        }
                    }
                }
            }
        }
    } else {
        assert forall|i: usize, b: bool| !#[trigger] Seq::<(usize, bool)>::empty().contains((i, b)) by {}
    }
}

/// The recorded value of a literal: that of its pin, or the inverse if the literal is
/// inverted; it is more than 1 if that of the pin is.
pub proof fn law_recorded(pins: Seq<u8>, iv: usize)
    ensures
        ({
            let v = pins[(iv / 2) as int];
            &&& v <= 1 ==> recorded(pins, iv) == if iv % 2 == 1 {
                1 - v
            } else {
                v as int
            }
            &&& v > 1 ==> recorded(pins, iv) > 1
        }),
{
    let v = pins[(iv / 2) as int];
    let odd = (iv % 2) as u32;
    assert((v <= 1 && odd == 0 ==> (v as u32) ^ odd == v) && (v <= 1 && odd == 1 ==> (v as u32)
        ^ odd == 1 - v) && (v > 1 && odd <= 1 ==> (v as u32) ^ odd > 1)) by (bit_vector);
}

/// The value of an output: the bit of its place in the state, if it has one, which has to be
/// the recorded value, if that is known; and the recorded value otherwise, if it is known.
pub proof fn law_output_value(pins: Seq<u8>, state: Seq<u32>, out: FlowOutput)
    ensures
        ({
            let r = recorded(pins, out.iv);
            let known = r <= 1;
            match output_value(pins, state, out) {
                OutputValue::Value(v) => match out.pos {
                    Some(p) => v == bit_value(state, p) && (known ==> v == r),
                    None => known && v == r,
                },
                OutputValue::Unknown => out.pos is None && !known,
                OutputValue::Mismatch => out.pos matches Some(p) && known && bit_value(state, p) != r,
            }
        }),
{
}

/// Running a block keeps the number of words of the next state.
proof fn lemma_run_len(b: Block, at: int, n: int, e: Effects)
    ensures
        b.run(at, n, e) matches Some(f) ==> f.output.len() == e.output.len(),
    decreases
            if at <= b.script.len() {
                b.script.len() - at
            } else {
                0
            },
{
    if at >= 0 && at + 256 <= b.script.len() && b.header(at).num_stages != 0 && b.part_ok(at, n, e)
        && !b.header(at).is_last {
        lemma_run_len(b, b.sram_pos(at) + 10240, n + 1, b.part_run(at, n, e));
    }
}

proof fn lemma_cycle_len(
    m: ScriptModel,
    parts: Seq<Seq<Seq<StageModel>>>,
    state: Seq<u32>,
    c: CycleModel,
    s: int,
    b: int,
)
    ensures
        cycle_upto(m, parts, state, c, s, b) matches Some(d) ==> d.output.len() == c.output.len(),
    decreases s, b,
{
    if b > 0 {
        lemma_cycle_len(m, parts, state, c, s, b - 1);
        if let Some(d) = cycle_upto(m, parts, state, c, s, b - 1) {
            if block_there(m, parts, s, b - 1) {
                let k = s * m.num_blocks + (b - 1);
                lemma_run_len(
                    Block {
                        script: m.data.subrange(m.starts[k] as int, m.starts[k + 1] as int),
                        input: state,
                        indices: m.block_parts[s][b - 1],
                        parts: parts[s],
                    },
                    0,
                    0,
                    Effects { output: d.output, sram: d.sram, pins: d.pins, log: Seq::empty() },
                );
            }
        }
    } else if s > 0 {
        lemma_cycle_len(m, parts, state, c, s - 1, m.num_blocks as int);
    }
}

/// The block with number `k` of all: its script is the piece of the data between two
/// starts that follow each other, and the blocks of a stage are those of a run of
/// `num_blocks` numbers.
pub open spec fn block_number(
    m: ScriptModel,
    parts: Seq<Seq<Seq<StageModel>>>,
    state: Seq<u32>,
    k: int,
) -> Block {
    let s = k / m.num_blocks as int;
    Block {
        script: Seq::new(
            (m.starts[k + 1] - m.starts[k]) as nat,
            |i: int| m.data[m.starts[k] + i],
        ),
        input: state,
        indices: m.block_parts[s][k % m.num_blocks as int],
        parts: parts[s],
    }
}

/// Whether block number `k` takes what has changed from one of `steps` to the next, adding
/// the inputs of its partitions to the log.
pub open spec fn block_step(
    m: ScriptModel,
    parts: Seq<Seq<Seq<StageModel>>>,
    state: Seq<u32>,
    steps: Seq<CycleModel>,
    k: int,
) -> bool {
    let c = steps[k];
    let d = steps[k + 1];
    block_number(m, parts, state, k).run(
        0,
        0,
        Effects { output: c.output, sram: c.sram, pins: c.pins, log: Seq::empty() },
    ) matches Some(e) && e.output == d.output && e.sram == d.sram && e.pins == d.pins && d.log
        == c.log + e.log
}

proof fn lemma_cycle_steps(
    m: ScriptModel,
    parts: Seq<Seq<Seq<StageModel>>>,
    state: Seq<u32>,
    c: CycleModel,
    s: int,
    b: int,
) -> (steps: Seq<CycleModel>)
    requires
        0 <= s,
        0 <= b <= m.num_blocks,
        cycle_upto(m, parts, state, c, s, b) is Some,
    ensures
        steps.len() == s * m.num_blocks + b + 1,
        steps[0] == c,
        steps.last() == cycle_upto(m, parts, state, c, s, b).unwrap(),
        forall|k: int| 0 <= k < steps.len() - 1 ==> #[trigger] block_step(m, parts, state, steps, k),
    decreases s, b,
{
    let n = m.num_blocks as int;
    if b > 0 {
        let before = lemma_cycle_steps(m, parts, state, c, s, b - 1);
        let d = cycle_upto(m, parts, state, c, s, b).unwrap();
        let steps = before.push(d);
        let k = s * n + (b - 1);
        assert(before.len() == k + 1);
        assert(k / n == s && k % n == b - 1) by (nonlinear_arith)
            requires
                k == s * n + (b - 1),
                0 <= b - 1 < n,
                0 <= s,
        ;
        assert(0 <= k) by (nonlinear_arith)
            requires
                k == s * n + (b - 1),
                0 <= b - 1 < n,
                0 <= s,
        ;
        assert(block_there(m, parts, s, b - 1));
        assert(block_number(m, parts, state, k).script =~= m.data.subrange(
            m.starts[k] as int,
            m.starts[k + 1] as int,
        ));
        assert(block_step(m, parts, state, steps, k));
        assert forall|j: int| 0 <= j < steps.len() - 1 implies #[trigger] block_step(
            m,
            parts,
            state,
            steps,
            j,
        ) by {
            if j < k {
                assert(block_step(m, parts, state, before, j));
                assert(steps[j] == before[j] && steps[j + 1] == before[j + 1]);
            }
        }
        steps
    } else if s > 0 {
        assert((s - 1) * n + n == s * n) by (nonlinear_arith);
        lemma_cycle_steps(m, parts, state, c, s - 1, n)
    } else {
        seq![c]
    }
}

/// A cycle runs all blocks, one after the other, all of them on the current state; each goes
/// on with the next state, the memory blocks and the recorded values that the block before
/// has left. The next state is the current one at first.
pub proof fn law_cycle_steps(
    m: ScriptModel,
    parts: Seq<Seq<Seq<StageModel>>>,
    state: Seq<u32>,
    sram: Seq<u32>,
    pins: Seq<u8>,
) -> (steps: Seq<CycleModel>)
    requires
        cycle(m, parts, state, sram, pins) is Some,
    ensures
        steps.len() == m.num_major_stages * m.num_blocks + 1,
        steps[0].output == state,
        steps[0].sram == sram,
        steps[0].pins == pins,
        steps[0].log.len() == 0,
        steps.last() == cycle(m, parts, state, sram, pins).unwrap(),
        forall|k: int| 0 <= k < steps.len() - 1 ==> #[trigger] block_step(m, parts, state, steps, k),
{
    lemma_cycle_steps(
        m,
        parts,
        state,
        CycleModel { output: state, sram, pins, log: Seq::empty() },
        m.num_major_stages as int,
        0,
    )
}

/// Whether the script of block number `k` is there, and its partitions are.
pub open spec fn block_placed(m: ScriptModel, parts: Seq<Seq<Seq<StageModel>>>, k: int) -> bool {
    let s = k / m.num_blocks as int;
    &&& k + 1 < m.starts.len()
    &&& m.starts[k] <= m.starts[k + 1]
    &&& m.starts[k + 1] <= m.data.len()
    &&& s < m.block_parts.len()
    &&& s < parts.len()
    &&& (k % m.num_blocks as int) < m.block_parts[s].len()
}

/// A cycle can be run if the scripts of all blocks are there and each block takes what has changed
/// on; then it gives what the last block leaves.
pub proof fn law_cycle_runs(
    m: ScriptModel,
    parts: Seq<Seq<Seq<StageModel>>>,
    state: Seq<u32>,
    sram: Seq<u32>,
    pins: Seq<u8>,
    steps: Seq<CycleModel>,
)
    requires
        steps.len() == m.num_major_stages * m.num_blocks + 1,
        steps[0].output == state,
        steps[0].sram == sram,
        steps[0].pins == pins,
        steps[0].log.len() == 0,
        forall|k: int| 0 <= k < steps.len() - 1 ==> #[trigger] block_step(m, parts, state, steps, k),
        forall|k: int| 0 <= k < steps.len() - 1 ==> #[trigger] block_placed(m, parts, k),
    ensures
        cycle(m, parts, state, sram, pins) == Some(steps.last()),
{
    let c = CycleModel { output: state, sram, pins, log: Seq::empty() };
    assert(steps[0].log =~= c.log);
    assert(steps[0] == c);
    lemma_cycle_reaches(m, parts, state, steps, m.num_major_stages as int, 0);
}

proof fn lemma_cycle_reaches(
    m: ScriptModel,
    parts: Seq<Seq<Seq<StageModel>>>,
    state: Seq<u32>,
    steps: Seq<CycleModel>,
    s: int,
    b: int,
)
    requires
        0 <= s,
        0 <= b <= m.num_blocks,
        s * m.num_blocks + b < steps.len(),
        forall|k: int| 0 <= k < steps.len() - 1 ==> #[trigger] block_step(m, parts, state, steps, k),
        forall|k: int| 0 <= k < steps.len() - 1 ==> #[trigger] block_placed(m, parts, k),
    ensures
        cycle_upto(m, parts, state, steps[0], s, b) == Some(steps[s * m.num_blocks + b]),
    decreases s, b,
{
    let n = m.num_blocks as int;
    if b > 0 {
        let k = s * n + (b - 1);
        lemma_cycle_reaches(m, parts, state, steps, s, b - 1);
        assert(k / n == s && k % n == b - 1 && 0 <= k) by (nonlinear_arith)
            requires
                k == s * n + (b - 1),
                0 <= b - 1 < n,
                0 <= s,
        ;
        assert(block_placed(m, parts, k));
        assert(block_step(m, parts, state, steps, k));
        assert(block_there(m, parts, s, b - 1));
        assert(block_number(m, parts, state, k).script =~= m.data.subrange(
            m.starts[k] as int,
            m.starts[k + 1] as int,
        ));
    } else if s > 0 {
        assert((s - 1) * n + n == s * n) by (nonlinear_arith);
        lemma_cycle_reaches(m, parts, state, steps, s - 1, n);
    }
}

/// The layout of the inputs lists the pins that are ports or flags of clock edges, each
/// once, in order.
pub proof fn law_layout(drivers: Seq<DriverType>, k: int)
    requires
        0 <= k <= drivers.len(),
        drivers.len() <= usize::MAX,
    ensures
        forall|a: int, b: int|
            0 <= a < b < layout_upto(drivers, k).len() ==> layout_upto(drivers, k)[a] < layout_upto(
                drivers,
                k,
            )[b],
        forall|p: usize| #[trigger]
            layout_upto(drivers, k).contains(p) <==> p < k && (drivers[p as int] is InputPort
                || drivers[p as int] is InputClockFlag),
    decreases k,
{
    if k > 0 {
        law_layout(drivers, k - 1);
        let was = layout_upto(drivers, k - 1);
        let now = layout_upto(drivers, k);
        let j = (k - 1) as usize;
        if drivers[k - 1] is InputPort || drivers[k - 1] is InputClockFlag {
            assert(now == was.push(j));
            assert(now[was.len() as int] == j);
            assert forall|p: usize| #[trigger] now.contains(p) <==> was.contains(p) || p == j by {
                if was.contains(p) {
                    let i = was.index_of(p);
                    assert(now[i] == p);
                }
            }
            assert forall|a: int, b: int| 0 <= a < b < now.len() implies now[a] < now[b] by {
                if b == was.len() {
                    assert(was.contains(was[a]));
                }
            }
        }
    } else {
        assert forall|p: usize| !#[trigger] Seq::<usize>::empty().contains(p) by {}
    }
}

/// The places below `k` at which two lists differ.
pub open spec fn differences(a: Seq<u64>, b: Seq<u64>, k: int) -> Set<int> {
    Set::new(|i: int| 0 <= i < k && a[i] != b[i])
}

/// The number of partitions with new inputs is that of the places at which the hashes
/// differ.
pub proof fn law_differing(a: Seq<u64>, b: Seq<u64>, k: int)
    ensures
        differences(a, b, k).finite(),
        differing(a, b, k) == differences(a, b, k).len(),
    decreases k,
{
    if k > 0 {
        law_differing(a, b, k - 1);
        let was = differences(a, b, k - 1);
        if a[k - 1] != b[k - 1] {
            assert(differences(a, b, k) =~= was.insert(k - 1));
        } else {
            assert(differences(a, b, k) =~= was);
        }
    } else {
        assert(differences(a, b, k) =~= Set::empty());
    }
}

/// Whether a pin is absent or has a place.
pub open spec fn absent_or_placed(map: Map<usize, u32>, pin: usize) -> bool {
    pin == usize::MAX || map.contains_key(pin)
}

/// Where an input stands in the state: at the place of the pin of its literal, which must
/// not be inverted; a clock has flags at the places of its two flag pins, but for an absent
/// one.
pub proof fn law_input_bit(map: Map<usize, u32>, iv: usize, clock: Option<(usize, usize)>)
    ensures
        match input_bit_spec(map, iv, clock) {
            Some(bit) => {
                &&& iv == 2 * (iv / 2)
                &&& map.contains_pair((iv / 2) as usize, bit.pos)
                &&& match clock {
                    Some((pe, ne)) => {
                        &&& bit.posedge matches Some(p) ==> map.contains_pair(pe, p)
                        &&& bit.negedge matches Some(p) ==> map.contains_pair(ne, p)
                        &&& (bit.posedge is None) == (pe == usize::MAX)
                        &&& (bit.negedge is None) == (ne == usize::MAX)
                    },
                    None => bit.posedge is None && bit.negedge is None,
                }
            },
            None => {
                ||| iv == 2 * (iv / 2) + 1
                ||| !map.contains_key((iv / 2) as usize)
                ||| clock matches Some((pe, ne)) && (!absent_or_placed(map, pe) || !absent_or_placed(
                    map,
                    ne,
                ))
            },
        },
{
}

/// How the value of an output is found: an input port that is passed through is left out, a
/// constant is recorded, and all others have a place in the state by their literal.
pub proof fn law_output_source(drivers: Seq<DriverType>, map: Map<usize, u32>, iv: usize)
    ensures
        match output_spec(drivers, map, iv) {
            OutputSource::PassThrough => drivers[(iv / 2) as int] is InputPort,
            OutputSource::Recorded => !(drivers[(iv / 2) as int] is InputPort) && iv / 2 == 0,
            OutputSource::State(p) => !(drivers[(iv / 2) as int] is InputPort) && iv / 2 > 0
                && map.contains_pair(iv, p),
            OutputSource::Unplaced => !(drivers[(iv / 2) as int] is InputPort) && iv / 2 > 0
                && !map.contains_key(iv),
        },
{
}

} // verus!
