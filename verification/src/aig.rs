//! And-inverter graphs, their endpoints, and traversal in topological order.
use crate::index_set::{lemma_distinct_bound, opt_contains, ref_elems};
use indexmap::IndexSet;
use vstd::prelude::*;

verus! {

/// What drives a pin of the graph.
///
/// A literal is twice a pin index, plus one if the pin is inverted. Pin 0 is the
/// constant zero, so the literals 0 and 1 are constants.
#[derive(Debug, Clone, Copy)]
pub enum DriverType {
    /// An and gate over two literals. Only this kind has combinational fan-in.
    AndGate(usize, usize),
    /// A primary input port.
    InputPort(usize),
    /// A clock flag: the clock port, and the edge.
    InputClockFlag(usize, u8),
    /// The output of a flip-flop.
    DFF(usize),
    /// A read port of a memory block.
    SRAM(usize),
    /// The constant zero.
    Tie0,
}

/// A flip-flop.
#[derive(Debug, Clone, Copy)]
pub struct DFF {
    /// The literal of the data input.
    pub d_iv: usize,
    /// The literal that enables the update.
    pub en_iv: usize,
    /// The pin of the output.
    pub q: usize,
}

/// A memory block.
#[derive(Debug)]
pub struct RAMBlock {
    /// The literals that feed its ports.
    pub input_ivs: Vec<usize>,
}

/// One unit of work: something that has to be computed and stored in each cycle.
#[derive(Debug, Clone, Copy)]
pub enum EndpointGroup<'i> {
    /// A primary output, given by its literal.
    PrimaryOutput(usize),
    /// A flip-flop to update.
    DFF(&'i DFF),
    /// A memory block to access.
    RAMBlock(&'i RAMBlock),
    /// A pin that a later stage of the same cycle reads.
    StagedIOPin(usize),
}

/// An and-inverter graph with its endpoints.
#[derive(Debug)]
pub struct AIG {
    /// The largest pin index.
    pub num_aigpins: usize,
    /// The driver of each pin, indexed from 0 to `num_aigpins`.
    pub drivers: Vec<DriverType>,
    /// The literals of the primary outputs.
    pub primary_outputs: Vec<usize>,
    /// The flip-flops.
    pub dffs: Vec<DFF>,
    /// The memory blocks.
    pub srams: Vec<RAMBlock>,
}

/// The pin of a literal.
pub open spec fn pin_of(lit: usize) -> usize {
    lit / 2
}

/// The pin of a literal, if it is not constant.
pub open spec fn lit_source(lit: usize) -> Seq<usize> {
    if lit >= 2 {
        seq![pin_of(lit)]
    } else {
        Seq::empty()
    }
}

/// The pins of the literals that are not constant.
pub open spec fn lit_sources(lits: Seq<usize>) -> Seq<usize>
    decreases lits.len(),
{
    if lits.len() == 0 {
        Seq::empty()
    } else {
        lit_sources(lits.drop_last()) + lit_source(lits.last())
    }
}

/// Whether `x` stands before position `p` of `s`.
pub open spec fn stands_before(s: Seq<usize>, p: int, x: usize) -> bool {
    exists|q: int| 0 <= q < p && #[trigger] s[q] == x
}

/// The larger of two numbers.
pub open spec fn larger(a: nat, b: nat) -> nat {
    if a < b {
        b
    } else {
        a
    }
}

/// Whether the pin of the literal of a gate is marked, or the literal is constant.
spec fn lit_marked(marks: Seq<bool>, lit: usize) -> bool {
    lit < 2 || marks[pin_of(lit) as int]
}

/// Among `n + 1` distinct numbers up to `n` is each of these.
proof fn lemma_all_listed(s: Seq<usize>, n: usize, v: usize)
    requires
        s.no_duplicates(),
        s.len() == n + 1,
        forall|i: int| 0 <= i < s.len() ==> #[trigger] s[i] <= n,
        v <= n,
    ensures
        s.contains(v),
{
    if !s.contains(v) {
        let t = s.push(v);
        assert forall|a: int, b: int| 0 <= a < b < t.len() implies t[a] != t[b] by {
            if b == s.len() {
                assert(s.contains(s[a]));
            }
        }
        lemma_distinct_bound(t, n as int);
    }
}

/// Distinct elements that all occur in another list are at most as many.
pub proof fn lemma_subset_len(s: Seq<usize>, t: Seq<usize>)
    requires
        s.no_duplicates(),
        forall|x: usize| #[trigger] s.contains(x) ==> t.contains(x),
    ensures
        s.len() <= t.len(),
    decreases s.len(),
{
    if s.len() > 0 {
        let x = s.last();
        let front = s.drop_last();
        assert(s.contains(x));
        let i = t.index_of(x);
        let rest = t.remove(i);
        assert forall|y: usize| #[trigger] front.contains(y) implies rest.contains(y) by {
            let k = front.index_of(y);
            assert(s[k] == y);
            assert(s.contains(y));
            assert(s[s.len() - 1] == x);
            let m = t.index_of(y);
            if m < i {
                assert(rest[m] == y);
            } else {
                assert(rest[m - 1] == y);
            }
        }
        lemma_subset_len(front, rest);
    }
}

/// Distinct elements that occur in another list, which has one more, are fewer.
pub proof fn lemma_proper_subset_len(s: Seq<usize>, t: Seq<usize>, y: usize)
    requires
        s.no_duplicates(),
        forall|x: usize| #[trigger] s.contains(x) ==> t.contains(x),
        t.contains(y),
        !s.contains(y),
    ensures
        s.len() < t.len(),
{
    let i = t.index_of(y);
    let rest = t.remove(i);
    assert forall|x: usize| #[trigger] s.contains(x) implies rest.contains(x) by {
        let k = t.index_of(x);
        if k < i {
            assert(rest[k] == x);
        } else {
            assert(rest[k - 1] == x);
        }
    }
    lemma_subset_len(s, rest);
}

/// The pin of a literal.
pub fn lit_pin(lit: usize) -> (pin: usize)
    ensures
        pin == pin_of(lit),
{
    assert(lit >> 1 == lit / 2) by (bit_vector);
    lit >> 1
}

/// Appends the pin of a literal unless it is constant.
fn push_source(v: &mut Vec<usize>, lit: usize)
    ensures
        final(v)@ == old(v)@ + lit_source(lit),
{
    if lit >= 2 {
        v.push(lit_pin(lit));
    }
    assert(v@ =~= old(v)@ + lit_source(lit));
}

impl<'i> EndpointGroup<'i> {
    /// The pins that an endpoint reads. Pins may repeat; constants are left out.
    pub open spec fn input_pins(self) -> Seq<usize> {
        match self {
            EndpointGroup::PrimaryOutput(iv) => lit_source(iv),
            EndpointGroup::DFF(dff) => lit_source(dff.en_iv) + lit_source(dff.d_iv),
            EndpointGroup::RAMBlock(ram) => lit_sources(ram.input_ivs@),
            EndpointGroup::StagedIOPin(pin) => if pin >= 1 {
                seq![pin]
            } else {
                Seq::empty()
            },
        }
    }

    /// Collects the pins that the endpoint reads, in order.
    pub fn inputs(&self) -> (v: Vec<usize>)
        ensures
            v@ == self.input_pins(),
    {
        let mut v: Vec<usize> = Vec::new();
        match self {
            EndpointGroup::PrimaryOutput(iv) => {
                push_source(&mut v, *iv);
                assert(v@ =~= self.input_pins());
            },
            EndpointGroup::DFF(dff) => {
                push_source(&mut v, dff.en_iv);
                push_source(&mut v, dff.d_iv);
                assert(v@ =~= self.input_pins());
            },
            EndpointGroup::RAMBlock(ram) => {
                let n = ram.input_ivs.len();
                let mut k: usize = 0;
                while k < n
                    invariant
                        n == ram.input_ivs@.len(),
                        k <= n,
                        v@ == lit_sources(ram.input_ivs@.take(k as int)),
                    decreases n - k,
                {
                    push_source(&mut v, ram.input_ivs[k]);
                    proof {
                        let t = ram.input_ivs@.take(k + 1);
                        assert(t.drop_last() =~= ram.input_ivs@.take(k as int));
                    }
                    k += 1;
                }
                assert(ram.input_ivs@.take(n as int) =~= ram.input_ivs@);
            },
            EndpointGroup::StagedIOPin(pin) => {
                if *pin >= 1 {
                    v.push(*pin);
                }
                assert(v@ =~= self.input_pins());
            },
        }
        v
    }
}

impl AIG {
    /// Whether `rank` grows along every gate, from its inputs to its output.
    pub open spec fn is_rank(&self, rank: spec_fn(usize) -> nat) -> bool {
        forall|u: usize|
            u <= self.num_aigpins ==> match #[trigger] self.drivers@[u as int] {
                DriverType::AndGate(a, b) => {
                    &&& a >= 2 ==> rank(pin_of(a)) < rank(u)
                    &&& b >= 2 ==> rank(pin_of(b)) < rank(u)
                },
                _ => true,
            }
    }

    /// Whether no gate feeds itself through others.
    pub open spec fn acyclic(&self) -> bool {
        exists|rank: spec_fn(usize) -> nat| self.is_rank(rank)
    }

    /// A number for each pin that grows along every gate.
    pub open spec fn rank_of(&self, u: usize) -> nat {
        let rank = choose|rank: spec_fn(usize) -> nat| self.is_rank(rank);
        rank(u)
    }

    /// Whether a literal names a pin of the graph.
    pub open spec fn has_lit(&self, lit: usize) -> bool {
        pin_of(lit) <= self.num_aigpins
    }

    /// The graph is acyclic, and all literals name its pins. Four times a pin
    /// index, plus three, is a machine word, and so is four times the number of
    /// endpoints.
    pub open spec fn wf(&self) -> bool {
        &&& self.drivers@.len() == self.num_aigpins + 1
        &&& self.num_aigpins < usize::MAX / 4
        &&& self.acyclic()
        &&& forall|u: int|
            0 <= u < self.drivers@.len() ==> match #[trigger] self.drivers@[u] {
                DriverType::AndGate(a, b) => self.has_lit(a) && self.has_lit(b),
                _ => true,
            }
        &&& forall|k: int|
            0 <= k < self.primary_outputs@.len() ==> self.has_lit(
                #[trigger] self.primary_outputs@[k],
            )
        &&& forall|k: int|
            0 <= k < self.dffs@.len() ==> {
                &&& self.has_lit((#[trigger] self.dffs@[k]).d_iv)
                &&& self.has_lit(self.dffs@[k].en_iv)
            }
        &&& forall|k: int, m: int|
            0 <= k < self.srams@.len() && 0 <= m < self.srams@[k].input_ivs@.len()
                ==> self.has_lit(#[trigger] self.srams@[k].input_ivs@[m])
        &&& self.group_count() <= usize::MAX / 4
    }

    /// The number of endpoint groups.
    pub open spec fn group_count(&self) -> nat {
        self.primary_outputs@.len() + self.dffs@.len() + self.srams@.len()
    }

    /// The endpoint group of an index: first the primary outputs, then the
    /// flip-flops, then the memory blocks.
    pub open spec fn group(&self, id: int) -> EndpointGroup<'_> {
        let po = self.primary_outputs@.len() as int;
        let ff = self.dffs@.len() as int;
        if id < po {
            EndpointGroup::PrimaryOutput(self.primary_outputs@[id])
        } else if id < po + ff {
            EndpointGroup::DFF(&self.dffs@[id - po])
        } else {
            EndpointGroup::RAMBlock(&self.srams@[id - po - ff])
        }
    }

    /// The pins a pin is computed from: none for a pin in `stop` or one that is
    /// not a gate.
    pub open spec fn sources(&self, stop: Seq<usize>, u: usize) -> Seq<usize> {
        if stop.contains(u) {
            Seq::empty()
        } else {
            match self.drivers@[u as int] {
                DriverType::AndGate(a, b) => lit_source(a) + lit_source(b),
                _ => Seq::empty(),
            }
        }
    }

    /// The list `seen`, extended by the pins that `u` is computed from and by
    /// `u` itself, inputs before outputs.
    pub open spec fn visit(&self, stop: Seq<usize>, u: usize, seen: Seq<usize>) -> Seq<usize>
        decreases self.rank_of(u),
        when self.wf() && u <= self.num_aigpins
    {
        proof {
            assert(self.is_rank(choose|rank: spec_fn(usize) -> nat| self.is_rank(rank)));
        }
        if seen.contains(u) {
            seen
        } else if stop.contains(u) {
            seen.push(u)
        } else {
            match self.drivers@[u as int] {
                DriverType::AndGate(a, b) => {
                    let s1 = if a >= 2 {
                        self.visit(stop, pin_of(a), seen)
                    } else {
                        seen
                    };
                    let s2 = if b >= 2 {
                        self.visit(stop, pin_of(b), s1)
                    } else {
                        s1
                    };
                    s2.push(u)
                },
                _ => seen.push(u),
            }
        }
    }

    /// The pins that `ends` are computed from, `ends` included, inputs before
    /// outputs. The traversal stops at the pins of `stop`.
    pub open spec fn topo(&self, stop: Seq<usize>, ends: Seq<usize>) -> Seq<usize>
        decreases ends.len(),
    {
        if ends.len() == 0 {
            Seq::empty()
        } else {
            self.visit(stop, ends.last(), self.topo(stop, ends.drop_last()))
        }
    }

    /// The number of gates on the longest path that leads to `u` from a pin of
    /// `stop` or one that is not a gate.
    pub open spec fn depth(&self, stop: Seq<usize>, u: usize) -> nat
        decreases self.rank_of(u),
        when self.wf() && u <= self.num_aigpins
    {
        proof {
            assert(self.is_rank(choose|rank: spec_fn(usize) -> nat| self.is_rank(rank)));
        }
        if stop.contains(u) {
            0
        } else {
            match self.drivers@[u as int] {
                DriverType::AndGate(a, b) => larger(
                    if a >= 2 {
                        self.depth(stop, pin_of(a)) + 1
                    } else {
                        0
                    },
                    if b >= 2 {
                        self.depth(stop, pin_of(b)) + 1
                    } else {
                        0
                    },
                ),
                _ => 0,
            }
        }
    }

    /// Whether `s` lists distinct pins, each after the pins it is computed from.
    pub open spec fn is_topo(&self, stop: Seq<usize>, s: Seq<usize>) -> bool {
        &&& s.no_duplicates()
        &&& forall|p: int| 0 <= p < s.len() ==> #[trigger] s[p] <= self.num_aigpins
        &&& forall|p: int, x: usize|
            0 <= p < s.len() && #[trigger] self.sources(stop, s[p]).contains(x)
                ==> stands_before(s, p, x)
    }

    /// Whether each pin of `s` from position `from` on is in `ends` or feeds
    /// another pin of `s`.
    pub open spec fn is_needed(
        &self,
        stop: Seq<usize>,
        s: Seq<usize>,
        ends: Seq<usize>,
        from: int,
    ) -> bool {
        forall|p: int|
            from <= p < s.len() ==> ends.contains(#[trigger] s[p]) || exists|q: int|
                p < q < s.len() && self.sources(stop, #[trigger] s[q]).contains(s[p])
    }

    /// The inputs of a gate rank below it.
    pub proof fn lemma_rank(&self, u: usize)
        requires
            self.wf(),
            u <= self.num_aigpins,
        ensures
            match self.drivers@[u as int] {
                DriverType::AndGate(a, b) => {
                    &&& a >= 2 ==> self.rank_of(pin_of(a)) < self.rank_of(u)
                    &&& b >= 2 ==> self.rank_of(pin_of(b)) < self.rank_of(u)
                    &&& pin_of(a) <= self.num_aigpins
                    &&& pin_of(b) <= self.num_aigpins
                },
                _ => true,
            },
    {
        assert(self.is_rank(choose|rank: spec_fn(usize) -> nat| self.is_rank(rank)));
        assert(self.drivers@[u as int] == self.drivers@[u as int]);
    }

    /// What a visit adds: the list stays topologically ordered, starts with what
    /// was there, holds `u`, and each new pin other than `u` feeds a later one.
    pub proof fn lemma_visit(&self, stop: Seq<usize>, u: usize, seen: Seq<usize>)
        requires
            self.wf(),
            u <= self.num_aigpins,
            self.is_topo(stop, seen),
        ensures
            self.is_topo(stop, self.visit(stop, u, seen)),
            seen.is_prefix_of(self.visit(stop, u, seen)),
            self.visit(stop, u, seen).contains(u),
            self.is_needed(stop, self.visit(stop, u, seen), seq![u], seen.len() as int),
        decreases self.rank_of(u),
    {
        self.lemma_rank(u);
        let r = self.visit(stop, u, seen);
        if seen.contains(u) {
        } else if stop.contains(u) {
            self.lemma_visit_push(stop, u, seen, seen, seen, Seq::empty(), Seq::empty());
        } else {
            match self.drivers@[u as int] {
                DriverType::AndGate(a, b) => {
                    let s1 = if a >= 2 {
                        self.visit(stop, pin_of(a), seen)
                    } else {
                        seen
                    };
                    if a >= 2 {
                        self.lemma_visit(stop, pin_of(a), seen);
                        self.lemma_visit_avoids(stop, pin_of(a), seen, u);
                        assert((lit_source(a) + lit_source(b))[0] == pin_of(a));
                    }
                    let s2 = if b >= 2 {
                        self.visit(stop, pin_of(b), s1)
                    } else {
                        s1
                    };
                    if b >= 2 {
                        self.lemma_visit(stop, pin_of(b), s1);
                        self.lemma_visit_avoids(stop, pin_of(b), s1, u);
                        let src = lit_source(a) + lit_source(b);
                        assert(src[src.len() - 1] == pin_of(b));
                    }
                    let e1 = lit_source(a);
                    let e2 = lit_source(b);
                    assert forall|x: usize| #[trigger] e1.contains(x) implies self.sources(
                        stop,
                        u,
                    ).contains(x) by {
                        assert(self.sources(stop, u)[0] == x);
                    }
                    assert forall|x: usize| #[trigger] e2.contains(x) implies self.sources(
                        stop,
                        u,
                    ).contains(x) by {
                        assert(self.sources(stop, u)[e1.len() as int] == x);
                    }
                    assert forall|x: usize| #[trigger]
                        self.sources(stop, u).contains(x) implies s2.contains(x) by {
                        if a >= 2 && x == pin_of(a) {
                            assert(s2[s1.index_of(x)] == x);
                        }
                    }
                    self.lemma_visit_push(stop, u, seen, s1, s2, e1, e2);
                },
                _ => {
                    self.lemma_visit_push(stop, u, seen, seen, seen, Seq::empty(), Seq::empty());
                },
            }
        }
    }

    /// A visit of a pin that ranks below `v` does not add `v`.
    proof fn lemma_visit_avoids(&self, stop: Seq<usize>, u: usize, seen: Seq<usize>, v: usize)
        requires
            self.wf(),
            u <= self.num_aigpins,
            self.rank_of(u) < self.rank_of(v),
            !seen.contains(v),
        ensures
            !self.visit(stop, u, seen).contains(v),
        decreases self.rank_of(u),
    {
        self.lemma_rank(u);
        let r = self.visit(stop, u, seen);
        if !seen.contains(u) && !stop.contains(u) {
            match self.drivers@[u as int] {
                DriverType::AndGate(a, b) => {
                    let s1 = if a >= 2 {
                        self.visit(stop, pin_of(a), seen)
                    } else {
                        seen
                    };
                    if a >= 2 {
                        self.lemma_visit_avoids(stop, pin_of(a), seen, v);
                    }
                    if b >= 2 {
                        self.lemma_visit_avoids(stop, pin_of(b), s1, v);
                    }
                },
                _ => {},
            }
        }
        if r.contains(v) {
            let i = r.index_of(v);
            assert(r[i] == v);
            if r != seen {
                assert(r.drop_last()[i] == v);
            }
        }
    }

    /// The last step of a visit: `u` follows its sources.
    proof fn lemma_visit_push(
        &self,
        stop: Seq<usize>,
        u: usize,
        seen: Seq<usize>,
        s1: Seq<usize>,
        s2: Seq<usize>,
        e1: Seq<usize>,
        e2: Seq<usize>,
    )
        requires
            self.wf(),
            u <= self.num_aigpins,
            self.is_topo(stop, s2),
            seen.is_prefix_of(s1),
            s1.is_prefix_of(s2),
            !s2.contains(u),
            forall|x: usize| #[trigger] self.sources(stop, u).contains(x) ==> s2.contains(x),
            self.is_needed(stop, s1, e1, seen.len() as int),
            self.is_needed(stop, s2, e2, s1.len() as int),
            forall|x: usize| #[trigger] e1.contains(x) ==> self.sources(stop, u).contains(x),
            forall|x: usize| #[trigger] e2.contains(x) ==> self.sources(stop, u).contains(x),
        ensures
            self.is_topo(stop, s2.push(u)),
            seen.is_prefix_of(s2.push(u)),
            s2.push(u).contains(u),
            self.is_needed(stop, s2.push(u), seq![u], seen.len() as int),
    {
        let r = s2.push(u);
        assert(r[s2.len() as int] == u);
        assert forall|p: int, x: usize|
            0 <= p < r.len() && #[trigger] self.sources(stop, r[p]).contains(x) implies stands_before(
            r,
            p,
            x,
        ) by {
            if p < s2.len() {
                assert(self.sources(stop, s2[p]).contains(x));
                let q = choose|q: int| 0 <= q < p && #[trigger] s2[q] == x;
                assert(r[q] == x);
            } else {
                let q = s2.index_of(x);
                assert(r[q] == x);
            }
        }
        assert forall|p: int| seen.len() <= p < r.len() implies seq![u].contains(#[trigger] r[p])
            || exists|q: int|
            p < q < r.len() && self.sources(stop, #[trigger] r[q]).contains(r[p]) by {
            if p == s2.len() {
                assert(seq![u][0] == u);
            } else {
                let e = if p < s1.len() {
                    e1
                } else {
                    e2
                };
                let s = if p < s1.len() {
                    s1
                } else {
                    s2
                };
                assert(s[p] == r[p]);
                if e.contains(s[p]) {
                    assert(self.sources(stop, r[s2.len() as int]).contains(r[p]));
                } else {
                    let q = choose|q: int|
                        p < q < s.len() && self.sources(stop, #[trigger] s[q]).contains(s[p]);
                    assert(r[q] == s[q]);
                }
            }
        }
    }

    /// The traversal lists distinct pins in topological order; it holds all of
    /// `ends`, and every pin it lists is one of them or feeds a later one.
    pub proof fn lemma_topo(&self, stop: Seq<usize>, ends: Seq<usize>)
        requires
            self.wf(),
            forall|k: int| 0 <= k < ends.len() ==> #[trigger] ends[k] <= self.num_aigpins,
        ensures
            self.is_topo(stop, self.topo(stop, ends)),
            self.is_needed(stop, self.topo(stop, ends), ends, 0),
            forall|x: usize| #[trigger] ends.contains(x) ==> self.topo(stop, ends).contains(x),
        decreases ends.len(),
    {
        if ends.len() > 0 {
            let front = ends.drop_last();
            let s = self.topo(stop, front);
            assert(forall|k: int| 0 <= k < front.len() ==> front[k] == ends[k]);
            self.lemma_topo(stop, front);
            self.lemma_visit(stop, ends.last(), s);
            let r = self.topo(stop, ends);
            assert forall|x: usize| #[trigger] ends.contains(x) implies r.contains(x) by {
                let k = ends.index_of(x);
                if k < front.len() {
                    assert(front[k] == x);
                    assert(front.contains(x));
                    let i = s.index_of(x);
                    assert(r[i] == x);
                }
            }
            assert forall|p: int| 0 <= p < r.len() implies ends.contains(#[trigger] r[p])
                || exists|q: int|
                p < q < r.len() && self.sources(stop, #[trigger] r[q]).contains(r[p]) by {
                if p < s.len() {
                    assert(s[p] == r[p]);
                    if front.contains(s[p]) {
                        let k = front.index_of(s[p]);
                        assert(ends[k] == r[p]);
                    } else {
                        let q = choose|q: int|
                            p < q < s.len() && self.sources(stop, #[trigger] s[q]).contains(s[p]);
                        assert(r[q] == s[q]);
                    }
                } else if seq![ends.last()].contains(r[p]) {
                    assert(ends[ends.len() - 1] == r[p]);
                }
            }
        }
    }

    /// The depth of a pin is at most its position in topological order.
    pub proof fn lemma_depth_bound(&self, stop: Seq<usize>, s: Seq<usize>, p: int)
        requires
            self.wf(),
            self.is_topo(stop, s),
            0 <= p < s.len(),
        ensures
            self.depth(stop, s[p]) <= p,
        decreases p,
    {
        let u = s[p];
        self.lemma_rank(u);
        if !stop.contains(u) {
            match self.drivers@[u as int] {
                DriverType::AndGate(a, b) => {
                    let src = self.sources(stop, s[p]);
                    if a >= 2 {
                        assert(src[0] == pin_of(a));
                        assert(src.contains(pin_of(a)));
                        let q = choose|q: int| 0 <= q < p && #[trigger] s[q] == pin_of(a);
                        self.lemma_depth_bound(stop, s, q);
                    }
                    if b >= 2 {
                        assert(src[src.len() - 1] == pin_of(b));
                        assert(src.contains(pin_of(b)));
                        let q = choose|q: int| 0 <= q < p && #[trigger] s[q] == pin_of(b);
                        self.lemma_depth_bound(stop, s, q);
                    }
                },
                _ => {},
            }
        }
    }

    /// The more pins the traversal stops at, the fewer gates are on the paths.
    pub proof fn lemma_depth_mono(&self, stop: Seq<usize>, more: Seq<usize>, u: usize)
        requires
            self.wf(),
            u <= self.num_aigpins,
            forall|x: usize| #[trigger] stop.contains(x) ==> more.contains(x),
        ensures
            self.depth(more, u) <= self.depth(stop, u),
        decreases self.rank_of(u),
    {
        self.lemma_rank(u);
        if !more.contains(u) {
            match self.drivers@[u as int] {
                DriverType::AndGate(a, b) => {
                    if a >= 2 {
                        self.lemma_depth_mono(stop, more, pin_of(a));
                    }
                    if b >= 2 {
                        self.lemma_depth_mono(stop, more, pin_of(b));
                    }
                },
                _ => {},
            }
        }
    }

    /// The more pins the traversal stops at, and the fewer it starts from, the
    /// fewer it lists.
    pub proof fn lemma_topo_mono(
        &self,
        stop: Seq<usize>,
        ends: Seq<usize>,
        more: Seq<usize>,
        fewer: Seq<usize>,
    )
        requires
            self.wf(),
            forall|k: int| 0 <= k < ends.len() ==> #[trigger] ends[k] <= self.num_aigpins,
            forall|x: usize| #[trigger] stop.contains(x) ==> more.contains(x),
            forall|x: usize| #[trigger] fewer.contains(x) ==> ends.contains(x),
        ensures
            forall|x: usize| #[trigger]
                self.topo(more, fewer).contains(x) ==> self.topo(stop, ends).contains(x),
            self.topo(more, fewer).len() <= self.topo(stop, ends).len(),
    {
        let s = self.topo(more, fewer);
        let t = self.topo(stop, ends);
        assert forall|k: int| 0 <= k < fewer.len() implies #[trigger] fewer[k]
            <= self.num_aigpins by {
            assert(fewer.contains(fewer[k]));
            let i = ends.index_of(fewer[k]);
            assert(ends[i] == fewer[k]);
        }
        self.lemma_topo(stop, ends);
        self.lemma_topo(more, fewer);
        assert forall|x: usize| #[trigger] s.contains(x) implies t.contains(x) by {
            self.lemma_topo_listed(stop, ends, more, fewer, s.index_of(x));
        }
        lemma_subset_len(s, t);
    }

    /// Every pin listed is listed because of one of those that the traversal starts
    /// from.
    pub proof fn lemma_topo_origin(&self, stop: Seq<usize>, ends: Seq<usize>, p: int) -> (x: usize)
        requires
            self.wf(),
            forall|k: int| 0 <= k < ends.len() ==> #[trigger] ends[k] <= self.num_aigpins,
            0 <= p < self.topo(stop, ends).len(),
        ensures
            ends.contains(x),
            self.topo(stop, seq![x]).contains(self.topo(stop, ends)[p]),
        decreases self.topo(stop, ends).len() - p,
    {
        let s = self.topo(stop, ends);
        self.lemma_topo(stop, ends);
        if ends.contains(s[p]) {
            let one = seq![s[p]];
            assert(one[0] == s[p]);
            self.lemma_topo(stop, one);
            assert(one.contains(s[p]));
            s[p]
        } else {
            let q = choose|q: int|
                p < q < s.len() && self.sources(stop, #[trigger] s[q]).contains(s[p]);
            let x = self.lemma_topo_origin(stop, ends, q);
            let k = ends.index_of(x);
            assert(ends[k] == x);
            self.lemma_topo(stop, seq![x]);
            let t = self.topo(stop, seq![x]);
            let i = t.index_of(s[q]);
            assert(self.sources(stop, t[i]).contains(s[p]));
            let j = choose|j: int| 0 <= j < i && #[trigger] t[j] == s[p];
            assert(t[j] == s[p]);
            x
        }
    }

    proof fn lemma_topo_listed(
        &self,
        stop: Seq<usize>,
        ends: Seq<usize>,
        more: Seq<usize>,
        fewer: Seq<usize>,
        p: int,
    )
        requires
            self.wf(),
            forall|x: usize| #[trigger] stop.contains(x) ==> more.contains(x),
            forall|x: usize| #[trigger] fewer.contains(x) ==> ends.contains(x),
            self.is_topo(stop, self.topo(stop, ends)),
            forall|x: usize| #[trigger] ends.contains(x) ==> self.topo(stop, ends).contains(x),
            self.is_needed(more, self.topo(more, fewer), fewer, 0),
            0 <= p < self.topo(more, fewer).len(),
        ensures
            self.topo(stop, ends).contains(self.topo(more, fewer)[p]),
        decreases self.topo(more, fewer).len() - p,
    {
        let s = self.topo(more, fewer);
        let t = self.topo(stop, ends);
        if !fewer.contains(s[p]) {
            let q = choose|q: int|
                p < q < s.len() && self.sources(more, #[trigger] s[q]).contains(s[p]);
            self.lemma_topo_listed(stop, ends, more, fewer, q);
            let i = t.index_of(s[q]);
            assert(self.sources(stop, t[i]).contains(s[p]));
            let k = choose|k: int| 0 <= k < i && #[trigger] t[k] == s[p];
            assert(t[k] == s[p]);
        }
    }

    /// Appends to `ret` what a visit of `u` adds.
    fn dfs_topo(
        &self,
        vis: &mut Vec<bool>,
        ret: &mut Vec<usize>,
        primary_inputs: Option<&IndexSet<usize>>,
        u: usize,
    )
        requires
            self.wf(),
            u <= self.num_aigpins,
            old(vis)@.len() == self.drivers@.len(),
            forall|x: usize|
                x <= self.num_aigpins ==> (#[trigger] old(vis)@[x as int] <==> old(ret)@.contains(x)),
        ensures
            final(ret)@ == self.visit(ref_elems(primary_inputs), u, old(ret)@),
            final(vis)@.len() == self.drivers@.len(),
            forall|x: usize|
                x <= self.num_aigpins ==> (#[trigger] final(vis)@[x as int]
                    <==> final(ret)@.contains(x)),
        decreases self.rank_of(u),
    {
        proof {
            self.lemma_rank(u);
        }
        if vis[u] {
            return ;
        }
        if !opt_contains(primary_inputs, u) {
            if let DriverType::AndGate(a, b) = self.drivers[u] {
                if a >= 2 {
                    self.dfs_topo(vis, ret, primary_inputs, lit_pin(a));
                }
                if b >= 2 {
                    self.dfs_topo(vis, ret, primary_inputs, lit_pin(b));
                }
            }
        }
        let ghost before = ret@;
        ret.push(u);
        vis.set(u, true);
        proof {
            assert(ret@[before.len() as int] == u);
            assert forall|x: usize| x <= self.num_aigpins implies (#[trigger] vis@[x as int]
                <==> ret@.contains(x)) by {
                if before.contains(x) {
                    assert(ret@[before.index_of(x)] == x);
                }
                if ret@.contains(x) && x != u {
                    assert(before[ret@.index_of(x)] == x);
                }
            }
        }
    }

    /// Lists the pins that `endpoints` are computed from, inputs before outputs,
    /// stopping at primary inputs.
    pub fn topo_traverse_generic(
        &self,
        endpoints: &Vec<usize>,
        primary_inputs: Option<&IndexSet<usize>>,
    ) -> (ret: Vec<usize>)
        requires
            self.wf(),
            forall|k: int| 0 <= k < endpoints@.len() ==> #[trigger] endpoints@[k] <= self.num_aigpins,
        ensures
            ret@ == self.topo(ref_elems(primary_inputs), endpoints@),
    {
        let mut vis: Vec<bool> = vec![false; self.drivers.len()];
        let mut ret: Vec<usize> = Vec::new();
        let n = endpoints.len();
        let mut k: usize = 0;
        while k < n
            invariant
                self.wf(),
                n == endpoints@.len(),
                k <= n,
                forall|i: int|
                    0 <= i < endpoints@.len() ==> #[trigger] endpoints@[i] <= self.num_aigpins,
                vis@.len() == self.drivers@.len(),
                forall|x: usize|
                    x <= self.num_aigpins ==> (#[trigger] vis@[x as int] <==> ret@.contains(x)),
                ret@ == self.topo(ref_elems(primary_inputs), endpoints@.take(k as int)),
            decreases n - k,
        {
            self.dfs_topo(&mut vis, &mut ret, primary_inputs, endpoints[k]);
            assert(endpoints@.take(k + 1).drop_last() =~= endpoints@.take(k as int));
            k += 1;
        }
        assert(endpoints@.take(n as int) =~= endpoints@);
        ret
    }

    /// Collects the pins a pin is computed from: none for a pin in `stop` or one that
    /// is not a gate.
    pub(crate) fn collect_sources(&self, stop: Option<&IndexSet<usize>>, u: usize) -> (v: Vec<usize>)
        requires
            u < self.drivers@.len(),
        ensures
            v@ == self.sources(ref_elems(stop), u),
    {
        let mut v: Vec<usize> = Vec::new();
        if !opt_contains(stop, u) {
            if let DriverType::AndGate(a, b) = self.drivers[u] {
                push_source(&mut v, a);
                push_source(&mut v, b);
            }
        }
        assert(v@ =~= self.sources(ref_elems(stop), u));
        v
    }

    /// Counts the endpoint groups.
    pub fn num_endpoint_groups(&self) -> (n: usize)
        requires
            self.group_count() <= usize::MAX,
        ensures
            n == self.group_count(),
    {
        self.primary_outputs.len() + self.dffs.len() + self.srams.len()
    }

    /// Finds an endpoint group.
    pub fn get_endpoint_group(&self, endpt_id: usize) -> (group: EndpointGroup<'_>)
        requires
            endpt_id < self.group_count(),
        ensures
            group == self.group(endpt_id as int),
    {
        let po = self.primary_outputs.len();
        if endpt_id < po {
            return EndpointGroup::PrimaryOutput(self.primary_outputs[endpt_id]);
        }
        let k = endpt_id - po;
        let ff = self.dffs.len();
        if k < ff {
            EndpointGroup::DFF(&self.dffs[k])
        } else {
            EndpointGroup::RAMBlock(&self.srams[k - ff])
        }
    }

    /// The pins that an endpoint group reads are pins of the graph, not constant.
    pub proof fn lemma_group_inputs(&self, id: int)
        requires
            self.wf(),
            0 <= id < self.group_count(),
        ensures
            forall|k: int|
                0 <= k < self.group(id).input_pins().len() ==> 1 <= #[trigger] self.group(
                    id,
                ).input_pins()[k] <= self.num_aigpins,
    {
        let g = self.group(id);
        if let EndpointGroup::RAMBlock(ram) = g {
            let k = id - self.primary_outputs@.len() - self.dffs@.len();
            assert(forall|m: int|
                0 <= m < ram.input_ivs@.len() ==> self.has_lit(
                    #[trigger] self.srams@[k].input_ivs@[m],
                ));
            self.lemma_lit_sources(ram.input_ivs@);
        }
    }

    proof fn lemma_lit_sources(&self, lits: Seq<usize>)
        requires
            forall|m: int| 0 <= m < lits.len() ==> self.has_lit(#[trigger] lits[m]),
        ensures
            forall|k: int|
                0 <= k < lit_sources(lits).len() ==> 1 <= #[trigger] lit_sources(lits)[k]
                    <= self.num_aigpins,
        decreases lits.len(),
    {
        if lits.len() > 0 {
            assert(forall|m: int| 0 <= m < lits.len() - 1 ==> lits.drop_last()[m] == lits[m]);
            self.lemma_lit_sources(lits.drop_last());
            assert(self.has_lit(lits[lits.len() - 1]));
            assert(lits.last() >= 2 ==> pin_of(lits.last()) >= 1);
            let front = lit_sources(lits.drop_last());
            assert forall|k: int| 0 <= k < lit_sources(lits).len() implies 1
                <= #[trigger] lit_sources(lits)[k] <= self.num_aigpins by {
                if k < front.len() {
                    assert(lit_sources(lits)[k] == front[k]);
                }
            }
        }
    }

    /// Whether all literals of a memory block name pins.
    pub open spec fn ram_ok(&self, lits: Seq<usize>) -> bool {
        forall|m: int| 0 <= m < lits.len() ==> self.has_lit(#[trigger] lits[m])
    }

    /// Whether everything that a pin is computed from is marked.
    spec fn ready(&self, marks: Seq<bool>, u: int) -> bool {
        match self.drivers@[u] {
            DriverType::AndGate(a, b) => lit_marked(marks, a) && lit_marked(marks, b),
            _ => true,
        }
    }

    /// Whether `order` lists the marked pins, each after what it is computed from.
    spec fn marked_in_order(&self, marks: Seq<bool>, order: Seq<usize>) -> bool {
        &&& marks.len() == self.num_aigpins + 1
        &&& self.is_topo(Seq::empty(), order)
        &&& forall|u: usize|
            u <= self.num_aigpins ==> (#[trigger] marks[u as int] <==> order.contains(u))
    }

    /// Marking a pin whose inputs are marked.
    proof fn lemma_mark(&self, marks: Seq<bool>, order: Seq<usize>, u: usize)
        requires
            self.drivers@.len() == self.num_aigpins + 1,
            self.marked_in_order(marks, order),
            u <= self.num_aigpins,
            !marks[u as int],
            self.ready(marks, u as int),
            match self.drivers@[u as int] {
                DriverType::AndGate(a, b) => self.has_lit(a) && self.has_lit(b),
                _ => true,
            },
        ensures
            self.marked_in_order(marks.update(u as int, true), order.push(u)),
    {
        let none = Seq::<usize>::empty();
        let t = order.push(u);
        let n = order.len() as int;
        assert(t[n] == u);
        assert forall|x: usize| #[trigger] t.contains(x) <==> order.contains(x) || x == u by {
            if order.contains(x) {
                let i = order.index_of(x);
                assert(t[i] == x);
            }
        }
        assert forall|p: int, x: usize|
            0 <= p < t.len() && #[trigger] self.sources(none, t[p]).contains(x) implies stands_before(
            t,
            p,
            x,
        ) by {
            if p < n {
                assert(t[p] == order[p]);
                assert(stands_before(order, p, x));
                let q = choose|q: int| 0 <= q < p && #[trigger] order[q] == x;
                assert(t[q] == x);
            } else {
                match self.drivers@[u as int] {
                    DriverType::AndGate(a, b) => {
                        let s = self.sources(none, u);
                        let i = s.index_of(x);
                        assert(s == lit_source(a) + lit_source(b));
                        assert(x <= self.num_aigpins && marks[x as int]);
                        let q = order.index_of(x);
                        assert(t[q] == x);
                    },
                    _ => {},
                }
            }
        }
    }

    /// If all pins are marked in order, no gate feeds itself.
    proof fn lemma_all_marked(&self, marks: Seq<bool>, order: Seq<usize>)
        requires
            self.drivers@.len() == self.num_aigpins + 1,
            self.marked_in_order(marks, order),
            forall|u: usize| u <= self.num_aigpins ==> #[trigger] marks[u as int],
            forall|u: int|
                0 <= u < self.drivers@.len() ==> match #[trigger] self.drivers@[u] {
                    DriverType::AndGate(a, b) => self.has_lit(a) && self.has_lit(b),
                    _ => true,
                },
        ensures
            self.acyclic(),
    {
        let none = Seq::<usize>::empty();
        let rank = |u: usize| order.index_of(u) as nat;
        assert forall|u: usize| u <= self.num_aigpins implies match #[trigger] self.drivers@[u as int] {
            DriverType::AndGate(a, b) => {
                &&& a >= 2 ==> rank(pin_of(a)) < rank(u)
                &&& b >= 2 ==> rank(pin_of(b)) < rank(u)
            },
            _ => true,
        } by {
            assert(marks[u as int]);
            let p = order.index_of(u);
            assert(order[p] == u);
            match self.drivers@[u as int] {
                DriverType::AndGate(a, b) => {
                    let s = self.sources(none, order[p]);
                    if a >= 2 {
                        assert(s[0] == pin_of(a));
                        assert(s.contains(pin_of(a)));
                        let q = choose|q: int| 0 <= q < p && #[trigger] order[q] == pin_of(a);
                        assert(order.index_of(pin_of(a)) == q);
                    }
                    if b >= 2 {
                        assert(s[s.len() - 1] == pin_of(b));
                        assert(s.contains(pin_of(b)));
                        let q = choose|q: int| 0 <= q < p && #[trigger] order[q] == pin_of(b);
                        assert(order.index_of(pin_of(b)) == q);
                    }
                },
                _ => {},
            }
        }
        assert(self.is_rank(rank));
    }

    /// Where no gate feeds itself and every pin that is not marked waits for another
    /// such pin, all pins are marked.
    proof fn lemma_stuck(&self, marks: Seq<bool>, rank: spec_fn(usize) -> nat, u: usize)
        requires
            self.drivers@.len() == self.num_aigpins + 1,
            self.is_rank(rank),
            u <= self.num_aigpins,
            forall|v: int|
                0 <= v <= self.num_aigpins && !#[trigger] marks[v] ==> !self.ready(marks, v),
            forall|v: int|
                0 <= v < self.drivers@.len() ==> match #[trigger] self.drivers@[v] {
                    DriverType::AndGate(a, b) => self.has_lit(a) && self.has_lit(b),
                    _ => true,
                },
        ensures
            marks[u as int],
        decreases rank(u),
    {
        match self.drivers@[u as int] {
            DriverType::AndGate(a, b) => {
                if a >= 2 {
                    self.lemma_stuck(marks, rank, pin_of(a));
                }
                if b >= 2 {
                    self.lemma_stuck(marks, rank, pin_of(b));
                }
            },
            _ => {},
        }
    }

    /// Checks that no gate feeds itself through others.
    fn check_acyclic(&self) -> (r: bool)
        requires
            self.drivers@.len() == self.num_aigpins + 1,
            self.num_aigpins < usize::MAX / 4,
            forall|u: int|
                0 <= u < self.drivers@.len() ==> match #[trigger] self.drivers@[u] {
                    DriverType::AndGate(a, b) => self.has_lit(a) && self.has_lit(b),
                    _ => true,
                },
        ensures
            r == self.acyclic(),
    {
        let n = self.num_aigpins;
        let mut marks: Vec<bool> = vec![false; n + 1];
        let ghost mut order: Seq<usize> = Seq::empty();
        let mut left: usize = n + 1;
        loop
            invariant
                n == self.num_aigpins,
                n < usize::MAX / 4,
                self.drivers@.len() == n + 1,
                forall|u: int|
                    0 <= u < self.drivers@.len() ==> match #[trigger] self.drivers@[u] {
                        DriverType::AndGate(a, b) => self.has_lit(a) && self.has_lit(b),
                        _ => true,
                    },
                self.marked_in_order(marks@, order),
                left + order.len() == n + 1,
            decreases left,
        {
            let before = left;
            let mut u: usize = 0;
            while u <= n
                invariant
                    n == self.num_aigpins,
                    n < usize::MAX / 4,
                    u <= n + 1,
                    self.drivers@.len() == n + 1,
                    forall|v: int|
                        0 <= v < self.drivers@.len() ==> match #[trigger] self.drivers@[v] {
                            DriverType::AndGate(a, b) => self.has_lit(a) && self.has_lit(b),
                            _ => true,
                        },
                    self.marked_in_order(marks@, order),
                    left + order.len() == n + 1,
                    left <= before,
                    left == before ==> forall|v: int|
                        0 <= v < u && !#[trigger] marks@[v] ==> !self.ready(marks@, v),
                decreases n + 1 - u,
            {
                if !marks[u] {
                    assert(match self.drivers@[u as int] {
                        DriverType::AndGate(a, b) => self.has_lit(a) && self.has_lit(b),
                        _ => true,
                    });
                    let ready = match self.drivers[u] {
                        DriverType::AndGate(a, b) => (a < 2 || marks[lit_pin(a)]) && (b < 2
                            || marks[lit_pin(b)]),
                        _ => true,
                    };
                    if ready {
                        proof {
                            self.lemma_mark(marks@, order, u);
                            order = order.push(u);
                            lemma_distinct_bound(order, n as int);
                        }
                        marks.set(u, true);
                        left -= 1;
                    }
                }
                u += 1;
            }
            if left == 0 {
                proof {
                    assert forall|v: usize| v <= n implies #[trigger] marks@[v as int] by {
                        lemma_all_listed(order, n, v);
                    }
                    self.lemma_all_marked(marks@, order);
                }
                return true;
            }
            if left == before {
                proof {
                    if self.acyclic() {
                        let rank = choose|rank: spec_fn(usize) -> nat| self.is_rank(rank);
                        let all = Seq::new((n + 1) as nat, |i: int| i as usize);
                        assert forall|x: usize| #[trigger] all.contains(x) implies order.contains(
                            x,
                        ) by {
                            self.lemma_stuck(marks@, rank, x);
                            assert(marks@[x as int]);
                        }
                        lemma_subset_len(all, order);
                    }
                }
                return false;
            }
        }
    }

    /// Checks that the graph is valid: no gate feeds itself through others, all literals
    /// name pins, and the sizes are not too large.
    pub fn check(&self) -> (r: bool)
        ensures
            r == self.wf(),
    {
        let n = self.num_aigpins;
        if n >= usize::MAX / 4 || self.drivers.len() != n + 1 {
            return false;
        }
        let total = self.primary_outputs.len() as u128 + self.dffs.len() as u128
            + self.srams.len() as u128;
        if total > (usize::MAX / 4) as u128 {
            return false;
        }
        let mut u: usize = 0;
        while u < self.drivers.len()
            invariant
                u <= self.drivers@.len(),
                n == self.num_aigpins,
                forall|v: int|
                    0 <= v < u ==> match #[trigger] self.drivers@[v] {
                        DriverType::AndGate(a, b) => self.has_lit(a) && self.has_lit(b),
                        _ => true,
                    },
            decreases self.drivers@.len() - u,
        {
            if let DriverType::AndGate(a, b) = self.drivers[u] {
                if lit_pin(a) > n || lit_pin(b) > n {
                    return false;
                }
            }
            u += 1;
        }
        let mut k: usize = 0;
        while k < self.primary_outputs.len()
            invariant
                k <= self.primary_outputs@.len(),
                n == self.num_aigpins,
                forall|i: int| 0 <= i < k ==> self.has_lit(#[trigger] self.primary_outputs@[i]),
            decreases self.primary_outputs@.len() - k,
        {
            if lit_pin(self.primary_outputs[k]) > n {
                return false;
            }
            k += 1;
        }
        k = 0;
        while k < self.dffs.len()
            invariant
                k <= self.dffs@.len(),
                n == self.num_aigpins,
                forall|i: int|
                    0 <= i < k ==> {
                        &&& self.has_lit((#[trigger] self.dffs@[i]).d_iv)
                        &&& self.has_lit(self.dffs@[i].en_iv)
                    },
            decreases self.dffs@.len() - k,
        {
            if lit_pin(self.dffs[k].d_iv) > n || lit_pin(self.dffs[k].en_iv) > n {
                return false;
            }
            k += 1;
        }
        k = 0;
        while k < self.srams.len()
            invariant
                k <= self.srams@.len(),
                n == self.num_aigpins,
                forall|i: int| 0 <= i < k ==> self.ram_ok((#[trigger] self.srams@[i]).input_ivs@),
            decreases self.srams@.len() - k,
        {
            let ram = &self.srams[k];
            let mut m: usize = 0;
            while m < ram.input_ivs.len()
                invariant
                    m <= ram.input_ivs@.len(),
                    k < self.srams@.len(),
                    *ram == self.srams@[k as int],
                    n == self.num_aigpins,
                    forall|i: int| 0 <= i < m ==> self.has_lit(#[trigger] ram.input_ivs@[i]),
                decreases ram.input_ivs@.len() - m,
            {
                if lit_pin(ram.input_ivs[m]) > n {
                    assert(!self.has_lit(self.srams@[k as int].input_ivs@[m as int]));
                    return false;
                }
                m += 1;
            }
            assert(self.ram_ok(self.srams@[k as int].input_ivs@));
            k += 1;
        }
        proof {
            assert forall|k: int, m: int|
                0 <= k < self.srams@.len() && 0 <= m
                    < self.srams@[k].input_ivs@.len() implies self.has_lit(
                #[trigger] self.srams@[k].input_ivs@[m],
            ) by {
                assert(self.ram_ok(self.srams@[k].input_ivs@));
            }
        }
        self.check_acyclic()
    }

    /// The number of gates before each pin of a traversal.
    pub fn depths(
        &self,
        order: &Vec<usize>,
        primary_inputs: Option<&IndexSet<usize>>,
    ) -> (depths: Vec<usize>)
        requires
            self.wf(),
            self.is_topo(ref_elems(primary_inputs), order@),
        ensures
            depths@.len() == order@.len(),
            forall|p: int|
                0 <= p < order@.len() ==> #[trigger] depths@[p] == self.depth(
                    ref_elems(primary_inputs),
                    order@[p],
                ),
    {
        let ghost stop = ref_elems(primary_inputs);
        let n = self.num_aigpins;
        let mut level: Vec<usize> = vec![0usize; n + 1];
        let mut depths: Vec<usize> = Vec::new();
        let mut k: usize = 0;
        while k < order.len()
            invariant
                k <= order@.len(),
                self.wf(),
                n == self.num_aigpins,
                stop == ref_elems(primary_inputs),
                self.is_topo(stop, order@),
                level@.len() == n + 1,
                depths@.len() == k,
                forall|p: int|
                    0 <= p < k ==> {
                        &&& #[trigger] depths@[p] == self.depth(stop, order@[p])
                        &&& level@[order@[p] as int] == depths@[p]
                    },
            decreases order@.len() - k,
        {
            let u = order[k];
            let mut d: usize = 0;
            proof {
                self.lemma_rank(u);
                self.lemma_depth_bound(stop, order@, k as int);
            }
            if !opt_contains(primary_inputs, u) {
                if let DriverType::AndGate(a, b) = self.drivers[u] {
                    let ghost src = self.sources(stop, order@[k as int]);
                    if a >= 2 {
                        proof {
                            assert(src[0] == pin_of(a));
                            assert(src.contains(pin_of(a)));
                            let q = choose|q: int| 0 <= q < k && #[trigger] order@[q] == pin_of(a);
                            assert(depths@[q] == self.depth(stop, order@[q]));
                        }
                        d = level[lit_pin(a)] + 1;
                    }
                    if b >= 2 {
                        proof {
                            assert(src[src.len() - 1] == pin_of(b));
                            assert(src.contains(pin_of(b)));
                            let q = choose|q: int| 0 <= q < k && #[trigger] order@[q] == pin_of(b);
                            assert(depths@[q] == self.depth(stop, order@[q]));
                        }
                        let e = level[lit_pin(b)] + 1;
                        if d < e {
                            d = e;
                        }
                    }
                }
            }
            let ghost was = level@;
            let ghost before = depths@;
            level.set(u, d);
            depths.push(d);
            proof {
                assert forall|p: int| 0 <= p < k + 1 implies {
                    &&& #[trigger] depths@[p] == self.depth(stop, order@[p])
                    &&& level@[order@[p] as int] == depths@[p]
                } by {
                    if p < k {
                        assert(before[p] == self.depth(stop, order@[p]));
                        assert(order@[p] != order@[k as int]);
                    }
                }
            }
            k += 1;
        }
        depths
    }
}

} // verus!
