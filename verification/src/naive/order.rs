//! The order in which the pins of a netlist are evaluated.
use crate::aig::stands_before;
use crate::netlist::{Direction, Netlist, PinKind};
use vstd::prelude::*;

verus! {

/// A cell whose clock is not driven by a port of the design, and the pin that drives it.
pub struct ClockError {
    pub cell: usize,
    pub root: usize,
}

/// A search for an order.
pub struct Walk {
    /// The pins that were reached.
    pub vis: Seq<bool>,
    /// The pins whose inputs are being visited.
    pub stack: Seq<bool>,
    /// The pins in order so far.
    pub topo: Seq<usize>,
}

/// The pins in the order in which they are evaluated.
pub struct PinOrder {
    pub topo: Vec<usize>,
    /// The pins that are evaluated or need not be.
    pub visited: Vec<bool>,
}

/// The number of marks.
pub open spec fn marks(s: Seq<bool>) -> nat
    decreases s.len(),
{
    if s.len() == 0 {
        0
    } else {
        marks(s.drop_last()) + if s.last() {
            1nat
        } else {
            0nat
        }
    }
}

/// Setting a mark adds one; there are at most as many marks as places.
pub proof fn lemma_marks(s: Seq<bool>, i: int)
    requires
        0 <= i < s.len(),
        !s[i],
    ensures
        marks(s.update(i, true)) == marks(s) + 1,
        marks(s) < s.len(),
    decreases s.len(),
{
    let t = s.update(i, true);
    if i == s.len() - 1 {
        assert(t.drop_last() =~= s.drop_last());
        lemma_marks_bound(s.drop_last());
    } else {
        lemma_marks(s.drop_last(), i);
        assert(t.drop_last() =~= s.drop_last().update(i, true));
    }
}

proof fn lemma_marks_bound(s: Seq<bool>)
    ensures
        marks(s) <= s.len(),
    decreases s.len(),
{
    if s.len() > 0 {
        lemma_marks_bound(s.drop_last());
    }
}

/// Where no mark is set, there is none.
pub proof fn lemma_no_marks(s: Seq<bool>)
    requires
        forall|i: int| 0 <= i < s.len() ==> !#[trigger] s[i],
    ensures
        marks(s) == 0,
    decreases s.len(),
{
    if s.len() > 0 {
        lemma_no_marks(s.drop_last());
    }
}

impl Netlist {
    /// The pins of a cell that are inputs of a gate.
    pub open spec fn gate_inputs(&self, cell: int) -> Seq<usize> {
        self.cells@[cell].pins@.filter(
            |p: usize| self.pins@[p as int].kind.spec_is_gate_input(),
        )
    }

    /// The pins that a pin is computed from: what drives its net for an input, the
    /// inputs of its cell otherwise.
    pub open spec fn inputs_of(&self, pin: usize) -> Seq<usize> {
        let p = self.pins@[pin as int];
        if p.direction == Direction::I {
            if self.is_const(p.net) {
                Seq::empty()
            } else {
                seq![self.driver(pin as int)]
            }
        } else {
            self.gate_inputs(p.cell as int)
        }
    }

    /// Visiting a pin: its inputs first, then the pin itself. Nothing if its inputs
    /// are being visited already: the circuit has a loop.
    pub open spec fn visit(&self, w: Walk, pin: usize, fuel: nat) -> Option<Walk>
        decreases fuel, 0int,
    {
        if fuel == 0 || w.stack[pin as int] {
            None
        } else if w.vis[pin as int] {
            Some(w)
        } else {
            let begun = Walk {
                vis: w.vis.update(pin as int, true),
                stack: w.stack.update(pin as int, true),
                topo: w.topo,
            };
            match self.visit_all(begun, self.inputs_of(pin), 0, (fuel - 1) as nat) {
                Some(done) => Some(
                    Walk {
                        vis: done.vis,
                        stack: done.stack.update(pin as int, false),
                        topo: done.topo.push(pin),
                    },
                ),
                None => None,
            }
        }
    }

    /// Visiting the pins of a list from position `k` on.
    pub open spec fn visit_all(&self, w: Walk, pins: Seq<usize>, k: int, fuel: nat) -> Option<Walk>
        decreases fuel, pins.len() - k + 1,
    {
        if k < 0 || k >= pins.len() {
            Some(w)
        } else {
            match self.visit(w, pins[k], fuel) {
                Some(next) => self.visit_all(next, pins, k + 1, fuel),
                None => None,
            }
        }
    }

    /// Whether a pin is not computed from others: an input port of the design that is
    /// no clock, or an output of a cell that keeps a state.
    pub open spec fn is_source(&self, clocks: Seq<bool>, pin: int) -> bool {
        ||| exists|k: int|
            0 <= k < self.cells@[0].pins@.len() && #[trigger] self.cells@[0].pins@[k] == pin
                && self.pins@[pin].direction != Direction::I && !clocks[pin]
        ||| exists|c: int, k: int|
            1 <= c < self.cells@.len() && 0 <= k < self.cells@[c].pins@.len()
                && self.cells@[c].kind.spec_is_sequential() && #[trigger] self.cells@[c].pins@[k]
                == pin && self.pins@[pin].kind.spec_is_state_output()
    }

    /// The state before any pin is visited.
    pub open spec fn walk_start(&self, clocks: Seq<bool>) -> Walk {
        Walk {
            vis: Seq::new(self.pins@.len(), |p: int| self.is_source(clocks, p)),
            stack: Seq::new(self.pins@.len(), |p: int| false),
            topo: Seq::empty(),
        }
    }

    /// The output ports of the design.
    pub open spec fn out_ports(&self) -> Seq<usize> {
        self.cells@[0].pins@.filter(|p: usize| self.pins@[p as int].direction == Direction::I)
    }

    /// The inputs, but for clocks, of the cells from 1 to `c - 1` that keep a state.
    pub open spec fn state_inputs(&self, c: int) -> Seq<usize>
        decreases c,
    {
        if c <= 1 {
            Seq::empty()
        } else if self.cells@[c - 1].kind.spec_is_sequential() {
            self.state_inputs(c - 1) + self.cells@[c - 1].pins@.filter(
                |p: usize| self.pins@[p as int].kind.spec_is_state_input(),
            )
        } else {
            self.state_inputs(c - 1)
        }
    }

    /// The pins whose values are needed.
    pub open spec fn needed(&self) -> Seq<usize> {
        self.out_ports() + self.state_inputs(self.cells@.len() as int)
    }

    /// The pins in order; nothing if the circuit has a loop.
    pub open spec fn ordered(&self, clocks: Seq<bool>) -> Option<Walk> {
        self.visit_all(self.walk_start(clocks), self.needed(), 0, self.pins@.len() + 1)
    }

    /// Finds the ports that drive clocks.
    pub fn clock_ports(&self) -> (r: Result<Vec<bool>, ClockError>)
        requires
            self.wf(),
        ensures
            match r {
                Ok(clocks) => {
                    &&& clocks@.len() == self.pins@.len()
                    &&& forall|p: usize|
                        p < self.pins@.len() ==> #[trigger] clocks@[p as int] == self.is_clock(p)
                    &&& forall|c: int, k: int| #[trigger]
                        self.is_clock_pin(c, k) ==> self.pins@[self.clock_root(
                            c,
                            k,
                        ) as int].cell == 0
                },
                Err(e) => {
                    &&& exists|k: int| #[trigger]
                        self.is_clock_pin(e.cell as int, k) && self.clock_root(e.cell as int, k)
                            == e.root && self.clocked_by_ports(e.cell as int, k)
                    &&& self.pins@[e.root as int].cell != 0
                    &&& forall|c: int, k: int|
                        c < e.cell && #[trigger] self.is_clock_pin(c, k)
                            ==> self.pins@[self.clock_root(c, k) as int].cell == 0
                },
            },
    {
        let n = self.pins.len();
        let mut clocks: Vec<bool> = vec![false; n];
        let mut c: usize = 1;
        while c < self.cells.len()
            invariant
                1 <= c <= self.cells@.len(),
                self.wf(),
                n == self.pins@.len(),
                clocks@.len() == n,
                forall|p: usize|
                    p < n ==> (#[trigger] clocks@[p as int] <==> exists|d: int, k: int|
                        d < c && #[trigger] self.is_clock_pin(d, k) && self.clock_root(d, k) == p),
                forall|d: int, k: int|
                    d < c && #[trigger] self.is_clock_pin(d, k) ==> self.pins@[self.clock_root(
                        d,
                        k,
                    ) as int].cell == 0,
            decreases self.cells@.len() - c,
        {
            if self.cells[c].kind.is_sequential() {
                let mut k: usize = 0;
                let ghost before = clocks@;
                while k < self.cells[c].pins.len()
                    invariant
                        1 <= c < self.cells@.len(),
                        k <= self.cells@[c as int].pins@.len(),
                        self.cells@[c as int].kind.spec_is_sequential(),
                        self.wf(),
                        n == self.pins@.len(),
                        before.len() == n,
                        clocks@.len() == n,
                        forall|p: usize|
                            p < n ==> (#[trigger] clocks@[p as int] <==> before[p as int]
                                || exists|j: int|
                                0 <= j < k && #[trigger] self.is_clock_pin(c as int, j)
                                    && self.clock_root(c as int, j) == p),
                        forall|d: int, j: int|
                            d < c && #[trigger] self.is_clock_pin(d, j)
                                ==> self.pins@[self.clock_root(d, j) as int].cell == 0,
                        forall|j: int|
                            0 <= j < k && #[trigger] self.is_clock_pin(c as int, j)
                                ==> self.pins@[self.clock_root(c as int, j) as int].cell == 0,
                    decreases self.cells@[c as int].pins@.len() - k,
                {
                    let ghost was = clocks@;
                    let pin = self.cells[c].pins[k];
                    assert(self.cells@[c as int].pins@[k as int] < n);
                    assert(self.pins@[pin as int].net < self.roots@.len());
                    let is_clock = match self.pins[pin].kind {
                        PinKind::Clk => true,
                        PinKind::PortRClk => true,
                        PinKind::PortWClk => true,
                        _ => false,
                    };
                    let net = self.pins[pin].net;
                    if is_clock && !self.constant(net) {
                        let root = self.roots[net];
                        assert(self.is_clock_pin(c as int, k as int));
                        assert(self.clock_root(c as int, k as int) == root);
                        assert(self.roots@[net as int] < n);
                        if self.pins[root].cell != 0 {
                            let e = ClockError { cell: c, root };
                            assert(self.is_clock_pin(e.cell as int, k as int));
                            assert(self.clock_root(e.cell as int, k as int) == e.root);
                            assert(self.pins@[e.root as int].cell != 0);
                            return Err(e);
                        }
                        clocks.set(root, true);
                        assert(forall|p: usize| p < n && p != root ==> clocks@[p as int] == was[p as int]);
                    } else {
                        assert(!self.is_clock_pin(c as int, k as int));
                    }
                    k += 1;
                }
                proof {
                    assert forall|p: usize| p < n implies (#[trigger] clocks@[p as int]
                        <==> exists|d: int, k: int|
                        d < c + 1 && #[trigger] self.is_clock_pin(d, k) && self.clock_root(d, k)
                            == p) by {
                        if clocks@[p as int] && !before[p as int] {
                            let j = choose|j: int|
                                0 <= j < k && #[trigger] self.is_clock_pin(c as int, j)
                                    && self.clock_root(c as int, j) == p;
                            assert(self.is_clock_pin(c as int, j));
                        }
                        if exists|d: int, k: int|
                            d < c + 1 && #[trigger] self.is_clock_pin(d, k) && self.clock_root(d, k)
                                == p {
                            let (d, j) = choose|d: int, k: int|
                                d < c + 1 && #[trigger] self.is_clock_pin(d, k) && self.clock_root(
                                    d,
                                    k,
                                ) == p;
                            if d < c {
                                assert(before[p as int]);
                            }
                        }
                    }
                }
            } else {
                assert(forall|k: int| !#[trigger] self.is_clock_pin(c as int, k));
            }
            c += 1;
        }
        Ok(clocks)
    }

    /// Collects the pins that a pin is computed from.
    fn collect_inputs(&self, pin: usize) -> (v: Vec<usize>)
        requires
            self.wf(),
            pin < self.pins@.len(),
        ensures
            v@ == self.inputs_of(pin),
            forall|k: int| 0 <= k < v@.len() ==> #[trigger] v@[k] < self.pins@.len(),
    {
        let ghost p = self.pins@[pin as int];
        let mut v: Vec<usize> = Vec::new();
        if self.pins[pin].direction == Direction::I {
            let net = self.pins[pin].net;
            if !self.constant(net) {
                v.push(self.roots[net]);
            }
            assert(v@ =~= self.inputs_of(pin));
        } else {
            let cell = self.pins[pin].cell;
            let ghost pred = |p: usize| self.pins@[p as int].kind.spec_is_gate_input();
            let ghost all = self.cells@[cell as int].pins@;
            let mut k: usize = 0;
            proof {
                reveal(Seq::filter);
                assert(all.take(0) =~= Seq::<usize>::empty());
            }
            while k < self.cells[cell].pins.len()
                invariant
                    cell < self.cells@.len(),
                    all == self.cells@[cell as int].pins@,
                    k <= all.len(),
                    self.wf(),
                    pred == |p: usize| self.pins@[p as int].kind.spec_is_gate_input(),
                    v@ == all.take(k as int).filter(pred),
                    forall|i: int| 0 <= i < v@.len() ==> #[trigger] v@[i] < self.pins@.len(),
                decreases all.len() - k,
            {
                let q = self.cells[cell].pins[k];
                assert(self.cells@[cell as int].pins@[k as int] < self.pins@.len());
                proof {
                    reveal(Seq::filter);
                    assert(all.take(k + 1).drop_last() =~= all.take(k as int));
                }
                match self.pins[q].kind {
                    PinKind::A => {
                        v.push(q);
                    },
                    PinKind::B => {
                        v.push(q);
                    },
                    _ => {},
                }
                k += 1;
            }
            assert(all.take(all.len() as int) =~= all);
        }
        v
    }

    /// Visits a pin. Returns whether no loop was found.
    fn visit_pin(
        &self,
        vis: &mut Vec<bool>,
        stack: &mut Vec<bool>,
        topo: &mut Vec<usize>,
        pin: usize,
        Ghost(fuel): Ghost<nat>,
    ) -> (ok: bool)
        requires
            self.wf(),
            pin < self.pins@.len(),
            old(vis)@.len() == self.pins@.len(),
            old(stack)@.len() == self.pins@.len(),
            marks(old(stack)@) + fuel == self.pins@.len() + 1,
        ensures
            final(vis)@.len() == self.pins@.len(),
            match self.visit(
                Walk { vis: old(vis)@, stack: old(stack)@, topo: old(topo)@ },
                pin,
                fuel,
            ) {
                Some(w) => {
                    &&& ok
                    &&& w == (Walk { vis: final(vis)@, stack: final(stack)@, topo: final(topo)@ })
                    &&& final(stack)@ == old(stack)@
                },
                None => !ok,
            },
        decreases fuel,
    {
        if stack[pin] {
            return false;
        }
        proof {
            lemma_marks(stack@, pin as int);
        }
        if vis[pin] {
            return true;
        }
        let ghost outer = stack@;
        vis.set(pin, true);
        stack.set(pin, true);
        let inputs = self.collect_inputs(pin);
        let ghost begun = Walk { vis: vis@, stack: stack@, topo: topo@ };
        let ghost less = (fuel - 1) as nat;
        let ghost inner = stack@;
        let mut k: usize = 0;
        while k < inputs.len()
            invariant
                k <= inputs@.len(),
                self.wf(),
                forall|i: int| 0 <= i < inputs@.len() ==> #[trigger] inputs@[i] < self.pins@.len(),
                vis@.len() == self.pins@.len(),
                stack@ == inner,
                inner.len() == self.pins@.len(),
                marks(inner) + less == self.pins@.len() + 1,
                less + 1 == fuel,
                begun == (Walk {
                    vis: old(vis)@.update(pin as int, true),
                    stack: inner,
                    topo: old(topo)@,
                }),
                self.visit_all(begun, inputs@, 0, less) == self.visit_all(
                    Walk { vis: vis@, stack: stack@, topo: topo@ },
                    inputs@,
                    k as int,
                    less,
                ),
                inputs@ == self.inputs_of(pin),
                inner == old(stack)@.update(pin as int, true),
                !old(stack)@[pin as int],
                !old(vis)@[pin as int],
            decreases inputs@.len() - k,
        {
            if !self.visit_pin(vis, stack, topo, inputs[k], Ghost(less)) {
                return false;
            }
            k += 1;
        }
        topo.push(pin);
        stack.set(pin, false);
        assert(stack@ =~= outer);
        true
    }

    /// Marks the pins that are not computed from others.
    fn mark_sources(&self, clocks: &Vec<bool>) -> (vis: Vec<bool>)
        requires
            self.wf(),
            clocks@.len() == self.pins@.len(),
        ensures
            vis@ == self.walk_start(clocks@).vis,
    {
        let n = self.pins.len();
        let mut vis: Vec<bool> = vec![false; n];
        let mut k: usize = 0;
        while k < self.cells[0].pins.len()
            invariant
                self.wf(),
                n == self.pins@.len(),
                clocks@.len() == n,
                vis@.len() == n,
                k <= self.cells@[0].pins@.len(),
                forall|p: int|
                    0 <= p < n ==> (#[trigger] vis@[p] <==> exists|j: int|
                        0 <= j < k && #[trigger] self.cells@[0].pins@[j] == p
                            && self.pins@[p].direction != Direction::I && !clocks@[p]),
            decreases self.cells@[0].pins@.len() - k,
        {
            let ghost was = vis@;
            let pin = self.cells[0].pins[k];
            assert(self.cells@[0].pins@[k as int] < n);
            if self.pins[pin].direction != Direction::I && !clocks[pin] {
                vis.set(pin, true);
            }
            k += 1;
        }
        let ghost ports = vis@;
        let mut c: usize = 1;
        while c < self.cells.len()
            invariant
                1 <= c <= self.cells@.len(),
                self.wf(),
                n == self.pins@.len(),
                vis@.len() == n,
                ports.len() == n,
                forall|p: int|
                    0 <= p < n ==> (#[trigger] vis@[p] <==> ports[p] || exists|d: int, j: int|
                        1 <= d < c && 0 <= j < self.cells@[d].pins@.len()
                            && self.cells@[d].kind.spec_is_sequential()
                            && #[trigger] self.cells@[d].pins@[j] == p
                            && self.pins@[p].kind.spec_is_state_output()),
            decreases self.cells@.len() - c,
        {
            let ghost before = vis@;
            if self.cells[c].kind.is_sequential() {
                let mut k: usize = 0;
                while k < self.cells[c].pins.len()
                    invariant
                        1 <= c < self.cells@.len(),
                        self.wf(),
                        n == self.pins@.len(),
                        vis@.len() == n,
                        before.len() == n,
                        k <= self.cells@[c as int].pins@.len(),
                        forall|p: int|
                            0 <= p < n ==> (#[trigger] vis@[p] <==> before[p] || exists|j: int|
                                0 <= j < k && #[trigger] self.cells@[c as int].pins@[j] == p
                                    && self.pins@[p].kind.spec_is_state_output()),
                    decreases self.cells@[c as int].pins@.len() - k,
                {
                    let ghost was = vis@;
                    let pin = self.cells[c].pins[k];
                    assert(self.cells@[c as int].pins@[k as int] < n);
                    match self.pins[pin].kind {
                        PinKind::Q => {
                            vis.set(pin, true);
                        },
                        PinKind::PortRRdData => {
                            vis.set(pin, true);
                        },
                        _ => {},
                    }
                    k += 1;
                }
            }
            proof {
                assert forall|p: int| 0 <= p < n implies (#[trigger] vis@[p] <==> ports[p]
                    || exists|d: int, j: int|
                    1 <= d < c + 1 && 0 <= j < self.cells@[d].pins@.len()
                        && self.cells@[d].kind.spec_is_sequential()
                        && #[trigger] self.cells@[d].pins@[j] == p
                        && self.pins@[p].kind.spec_is_state_output()) by {
                    if vis@[p] && !before[p] {
                        let j = choose|j: int|
                            0 <= j < self.cells@[c as int].pins@.len()
                                && #[trigger] self.cells@[c as int].pins@[j] == p
                                && self.pins@[p].kind.spec_is_state_output();
                        assert(self.cells@[c as int].pins@[j] == p);
                    }
                    if exists|d: int, j: int|
                        1 <= d < c + 1 && 0 <= j < self.cells@[d].pins@.len()
                            && self.cells@[d].kind.spec_is_sequential()
                            && #[trigger] self.cells@[d].pins@[j] == p
                            && self.pins@[p].kind.spec_is_state_output() {
                        let (d, j) = choose|d: int, j: int|
                            1 <= d < c + 1 && 0 <= j < self.cells@[d].pins@.len()
                                && self.cells@[d].kind.spec_is_sequential()
                                && #[trigger] self.cells@[d].pins@[j] == p
                                && self.pins@[p].kind.spec_is_state_output();
                        assert(self.cells@[d].pins@[j] == p);
                    }
                }
            }
            c += 1;
        }
        assert(vis@ =~= self.walk_start(clocks@).vis);
        vis
    }

    /// Collects the pins whose values are needed.
    fn collect_needed(&self) -> (v: Vec<usize>)
        requires
            self.wf(),
        ensures
            v@ == self.needed(),
            forall|k: int| 0 <= k < v@.len() ==> #[trigger] v@[k] < self.pins@.len(),
    {
        let mut v: Vec<usize> = Vec::new();
        let ghost pred = |p: usize| self.pins@[p as int].direction == Direction::I;
        let ghost ports = self.cells@[0].pins@;
        let mut k: usize = 0;
        proof {
            reveal(Seq::filter);
            assert(ports.take(0) =~= Seq::<usize>::empty());
        }
        while k < self.cells[0].pins.len()
            invariant
                self.wf(),
                ports == self.cells@[0].pins@,
                k <= ports.len(),
                pred == |p: usize| self.pins@[p as int].direction == Direction::I,
                v@ == ports.take(k as int).filter(pred),
                forall|i: int| 0 <= i < v@.len() ==> #[trigger] v@[i] < self.pins@.len(),
            decreases ports.len() - k,
        {
            let pin = self.cells[0].pins[k];
            assert(self.cells@[0].pins@[k as int] < self.pins@.len());
            proof {
                reveal(Seq::filter);
                assert(ports.take(k + 1).drop_last() =~= ports.take(k as int));
            }
            if self.pins[pin].direction == Direction::I {
                v.push(pin);
            }
            k += 1;
        }
        assert(ports.take(ports.len() as int) =~= ports);
        assert(v@ =~= self.out_ports() + self.state_inputs(1));
        let ghost first = self.out_ports();
        let mut c: usize = 1;
        while c < self.cells.len()
            invariant
                1 <= c <= self.cells@.len(),
                self.wf(),
                v@ == first + self.state_inputs(c as int),
                forall|i: int| 0 <= i < v@.len() ==> #[trigger] v@[i] < self.pins@.len(),
            decreases self.cells@.len() - c,
        {
            if self.cells[c].kind.is_sequential() {
                let ghost before = v@;
                let ghost pins = self.cells@[c as int].pins@;
                let ghost wanted = |p: usize| self.pins@[p as int].kind.spec_is_state_input();
                let mut k: usize = 0;
                proof {
                    reveal(Seq::filter);
                    assert(pins.take(0) =~= Seq::<usize>::empty());
                    assert(before + pins.take(0).filter(wanted) =~= before);
                }
                while k < self.cells[c].pins.len()
                    invariant
                        c < self.cells@.len(),
                        self.wf(),
                        pins == self.cells@[c as int].pins@,
                        k <= pins.len(),
                        wanted == |p: usize| self.pins@[p as int].kind.spec_is_state_input(),
                        v@ == before + pins.take(k as int).filter(wanted),
                        forall|i: int| 0 <= i < v@.len() ==> #[trigger] v@[i] < self.pins@.len(),
                    decreases pins.len() - k,
                {
                    let pin = self.cells[c].pins[k];
                    assert(self.cells@[c as int].pins@[k as int] < self.pins@.len());
                    proof {
                        reveal(Seq::filter);
                        assert(pins.take(k + 1).drop_last() =~= pins.take(k as int));
                    }
                    let wants = match self.pins[pin].kind {
                        PinKind::D => true,
                        PinKind::PortRAddr => true,
                        PinKind::PortWAddr => true,
                        PinKind::PortWWrEn => true,
                        PinKind::PortWWrData => true,
                        _ => false,
                    };
                    if wants {
                        v.push(pin);
                    }
                    assert(v@ =~= before + pins.take(k + 1).filter(wanted));
                    k += 1;
                }
                assert(pins.take(pins.len() as int) =~= pins);
                assert(v@ =~= first + self.state_inputs(c + 1));
            }
            c += 1;
        }
        v
    }

    /// Puts the pins into the order in which they are evaluated. Nothing if the
    /// circuit has a loop.
    pub fn pin_order(&self, clocks: &Vec<bool>) -> (r: Option<PinOrder>)
        requires
            self.wf(),
            clocks@.len() == self.pins@.len(),
        ensures
            match self.ordered(clocks@) {
                Some(w) => r matches Some(o) && o.topo@ == w.topo && o.visited@ == w.vis,
                None => r is None,
            },
    {
        let n = self.pins.len();
        let mut vis = self.mark_sources(clocks);
        let mut stack: Vec<bool> = vec![false; n];
        let mut topo: Vec<usize> = Vec::new();
        let needed = self.collect_needed();
        let ghost fuel = (self.pins@.len() + 1) as nat;
        let ghost start = self.walk_start(clocks@);
        proof {
            assert(stack@ =~= start.stack);
            assert(topo@ =~= start.topo);
            lemma_no_marks(stack@);
        }
        let mut k: usize = 0;
        while k < needed.len()
            invariant
                k <= needed@.len(),
                self.wf(),
                needed@ == self.needed(),
                fuel == self.pins@.len() + 1,
                forall|i: int| 0 <= i < needed@.len() ==> #[trigger] needed@[i] < self.pins@.len(),
                vis@.len() == self.pins@.len(),
                stack@.len() == self.pins@.len(),
                marks(stack@) == 0,
                self.ordered(clocks@) == self.visit_all(
                    Walk { vis: vis@, stack: stack@, topo: topo@ },
                    needed@,
                    k as int,
                    fuel,
                ),
            decreases needed@.len() - k,
        {
            if !self.visit_pin(&mut vis, &mut stack, &mut topo, needed[k], Ghost(fuel)) {
                return None;
            }
            k += 1;
        }
        Some(PinOrder { topo, visited: vis })
    }

    /// The clocks that are used in combinational logic too.
    pub fn clocks_in_logic(&self, clocks: &Vec<bool>, order: &PinOrder) -> (list: Vec<usize>)
        requires
            clocks@.len() == order.visited@.len(),
        ensures
            forall|p: usize| #[trigger]
                list@.contains(p) <==> p < clocks@.len() && clocks@[p as int]
                    && order.visited@[p as int],
            forall|a: int, b: int| 0 <= a < b < list@.len() ==> list@[a] < list@[b],
    {
        let n = clocks.len();
        let mut list: Vec<usize> = Vec::new();
        let mut p: usize = 0;
        while p < n
            invariant
                p <= n,
                n == clocks@.len(),
                clocks@.len() == order.visited@.len(),
                forall|q: usize| #[trigger]
                    list@.contains(q) <==> q < p && clocks@[q as int] && order.visited@[q as int],
                forall|a: int, b: int| 0 <= a < b < list@.len() ==> list@[a] < list@[b],
            decreases n - p,
        {
            if clocks[p] && order.visited[p] {
                let ghost before = list@;
                list.push(p);
                proof {
                    assert(list@[before.len() as int] == p);
                    assert forall|q: usize| #[trigger] list@.contains(q) <==> q < p + 1
                        && clocks@[q as int] && order.visited@[q as int] by {
                        if before.contains(q) {
                            let i = before.index_of(q);
                            assert(list@[i] == q);
                        }
                        if list@.contains(q) && q != p {
                            let i = list@.index_of(q);
                            assert(before[i] == q);
                            assert(before.contains(q));
                        }
                    }
                    assert forall|a: int, b: int| 0 <= a < b < list@.len() implies list@[a]
                        < list@[b] by {
                        if b == before.len() {
                            assert(before.contains(before[a]));
                        }
                    }
                }
            }
            p += 1;
        }
        list
    }

    /// Whether a search has put pins into a right order so far: distinct pins, none of
    /// them in `src`, each after the pins that it is computed from, but for those in
    /// `src`. What was reached is in order, in `src`, or on the stack.
    pub open spec fn in_order(&self, w: Walk, src: Seq<bool>) -> bool {
        let n = self.pins@.len();
        &&& w.vis.len() == n
        &&& w.stack.len() == n
        &&& src.len() == n
        &&& w.topo.no_duplicates()
        &&& forall|i: int|
            0 <= i < w.topo.len() ==> {
                &&& #[trigger] w.topo[i] < n
                &&& w.vis[w.topo[i] as int]
                &&& !w.stack[w.topo[i] as int]
                &&& !src[w.topo[i] as int]
            }
        &&& forall|p: usize|
            p < n && w.vis[p as int] && !w.stack[p as int] && !src[p as int]
                ==> #[trigger] w.topo.contains(p)
        &&& forall|p: int| 0 <= p < n && #[trigger] src[p] ==> w.vis[p] && !w.stack[p]
        &&& forall|p: int| 0 <= p < n && #[trigger] w.stack[p] ==> w.vis[p]
        &&& forall|i: int, d: usize|
            0 <= i < w.topo.len() && #[trigger] self.inputs_of(w.topo[i]).contains(d)
                ==> src[d as int] || stands_before(w.topo, i, d)
    }

    /// The pins that a pin is computed from are pins of the netlist.
    pub proof fn lemma_inputs(&self, pin: usize)
        requires
            self.wf(),
            pin < self.pins@.len(),
        ensures
            forall|k: int|
                0 <= k < self.inputs_of(pin).len() ==> #[trigger] self.inputs_of(pin)[k]
                    < self.pins@.len(),
    {
        let p = self.pins@[pin as int];
        if p.direction != Direction::I {
            let all = self.cells@[p.cell as int].pins@;
            let pred = |p: usize| self.pins@[p as int].kind.spec_is_gate_input();
            let v = self.inputs_of(pin);
            assert forall|k: int| 0 <= k < v.len() implies #[trigger] v[k] < self.pins@.len() by {
                assert(all.filter(pred).contains(v[k]));
                all.lemma_filter_contains_rev(pred, v[k]);
                let i = all.index_of(v[k]);
                assert(self.cells@[p.cell as int].pins@[i] < self.pins@.len());
            }
        }
    }

    proof fn lemma_visit(&self, w: Walk, src: Seq<bool>, pin: usize, fuel: nat)
        requires
            self.wf(),
            pin < self.pins@.len(),
            self.in_order(w, src),
        ensures
            self.visit(w, pin, fuel) matches Some(v) ==> {
                &&& self.in_order(v, src)
                &&& v.stack == w.stack
                &&& v.vis[pin as int] && !v.stack[pin as int]
                &&& forall|p: int| 0 <= p < self.pins@.len() && #[trigger] w.vis[p] ==> v.vis[p]
            },
        decreases fuel, 0int,
    {
        if fuel > 0 && !w.stack[pin as int] && !w.vis[pin as int] {
            let begun = Walk {
                vis: w.vis.update(pin as int, true),
                stack: w.stack.update(pin as int, true),
                topo: w.topo,
            };
            let inputs = self.inputs_of(pin);
            self.lemma_inputs(pin);
            assert(self.in_order(begun, src)) by {
                assert forall|p: usize|
                    p < self.pins@.len() && begun.vis[p as int] && !begun.stack[p as int]
                        && !src[p as int] implies #[trigger] begun.topo.contains(p) by {
                    assert(p != pin);
                }
                assert forall|p: int| 0 <= p < self.pins@.len() && #[trigger] src[p] implies begun.vis[p]
                    && !begun.stack[p] by {
                    assert(w.vis[p]);
                }
            }
            self.lemma_visit_all(begun, src, inputs, 0, (fuel - 1) as nat);
            if let Some(done) = self.visit_all(begun, inputs, 0, (fuel - 1) as nat) {
                let v = self.visit(w, pin, fuel).unwrap();
                assert(v.stack =~= w.stack);
                assert(begun.vis[pin as int]);
                assert(done.vis[pin as int] && done.stack[pin as int]);
                assert(!src[pin as int]);
                assert(!done.topo.contains(pin));
                assert(self.in_order(v, src)) by {
                    assert forall|p: usize|
                        p < self.pins@.len() && v.vis[p as int] && !v.stack[p as int]
                            && !src[p as int] implies #[trigger] v.topo.contains(p) by {
                        if p == pin {
                            assert(v.topo[v.topo.len() - 1] == pin);
                        } else {
                            assert(done.topo.contains(p));
                            let i = done.topo.index_of(p);
                            assert(v.topo[i] == p);
                        }
                    }
                    assert forall|i: int, d: usize|
                        0 <= i < v.topo.len() && #[trigger] self.inputs_of(v.topo[i]).contains(
                            d,
                        ) implies src[d as int] || stands_before(v.topo, i, d) by {
                        if i < done.topo.len() {
                            assert(v.topo[i] == done.topo[i]);
                            if !src[d as int] {
                                let q = choose|q: int| 0 <= q < i && #[trigger] done.topo[q] == d;
                                assert(v.topo[q] == d);
                            }
                        } else {
                            let k = inputs.index_of(d);
                            assert(done.vis[inputs[k] as int] && !done.stack[inputs[k] as int]);
                            if !src[d as int] {
                                assert(done.topo.contains(d));
                                let q = done.topo.index_of(d);
                                assert(v.topo[q] == d);
                            }
                        }
                    }
                }
                assert forall|p: int| 0 <= p < self.pins@.len() && #[trigger] w.vis[p] implies v.vis[p] by {
                    assert(begun.vis[p]);
                }
            }
        }
    }

    proof fn lemma_visit_all(&self, w: Walk, src: Seq<bool>, pins: Seq<usize>, k: int, fuel: nat)
        requires
            self.wf(),
            0 <= k,
            forall|i: int| 0 <= i < pins.len() ==> #[trigger] pins[i] < self.pins@.len(),
            self.in_order(w, src),
        ensures
            self.visit_all(w, pins, k, fuel) matches Some(v) ==> {
                &&& self.in_order(v, src)
                &&& v.stack == w.stack
                &&& forall|i: int|
                    k <= i < pins.len() ==> v.vis[#[trigger] pins[i] as int]
                        && !v.stack[pins[i] as int]
                &&& forall|p: int| 0 <= p < self.pins@.len() && #[trigger] w.vis[p] ==> v.vis[p]
            },
        decreases fuel, pins.len() - k + 1,
    {
        if k < pins.len() {
            self.lemma_visit(w, src, pins[k], fuel);
            if let Some(next) = self.visit(w, pins[k], fuel) {
                self.lemma_visit_all(next, src, pins, k + 1, fuel);
                if let Some(v) = self.visit_all(w, pins, k, fuel) {
                    assert forall|i: int| k <= i < pins.len() implies v.vis[#[trigger] pins[i] as int]
                        && !v.stack[pins[i] as int] by {
                        if i == k {
                            assert(next.vis[pins[k] as int]);
                        }
                    }
                    assert forall|p: int| 0 <= p < self.pins@.len() && #[trigger] w.vis[p] implies v.vis[p] by {
                        assert(next.vis[p]);
                    }
                }
            }
        }
    }

    /// The order lists distinct pins, none of them a source, each after the pins that
    /// it is computed from, but for sources; every pin whose value is needed is listed
    /// or a source.
    pub proof fn law_ordered(&self, clocks: Seq<bool>)
        requires
            self.wf(),
            clocks.len() == self.pins@.len(),
        ensures
            self.ordered(clocks) matches Some(w) ==> {
                &&& self.in_order(w, self.walk_start(clocks).vis)
                &&& forall|p: int| 0 <= p < self.pins@.len() ==> !#[trigger] w.stack[p]
                &&& forall|k: int|
                    0 <= k < self.needed().len() ==> self.is_source(
                        clocks,
                        self.needed()[k] as int,
                    ) || w.topo.contains(#[trigger] self.needed()[k])
            },
    {
        let start = self.walk_start(clocks);
        let src = start.vis;
        let needed = self.needed();
        self.lemma_needed();
        assert(self.in_order(start, src));
        self.lemma_visit_all(start, src, needed, 0, self.pins@.len() + 1);
        if let Some(w) = self.ordered(clocks) {
            assert forall|k: int| 0 <= k < needed.len() implies self.is_source(
                clocks,
                needed[k] as int,
            ) || w.topo.contains(#[trigger] needed[k]) by {
                assert(needed[k] < self.pins@.len());
                assert(w.vis[needed[k] as int] && !w.stack[needed[k] as int]);
            }
        }
    }

    /// The pins that are needed are pins of the netlist.
    pub proof fn lemma_needed(&self)
        requires
            self.wf(),
        ensures
            forall|k: int|
                0 <= k < self.needed().len() ==> #[trigger] self.needed()[k] < self.pins@.len(),
    {
        let ports = self.cells@[0].pins@;
        let pred = |p: usize| self.pins@[p as int].direction == Direction::I;
        self.lemma_state_inputs(self.cells@.len() as int);
        let v = self.needed();
        let a = self.out_ports();
        assert forall|k: int| 0 <= k < v.len() implies #[trigger] v[k] < self.pins@.len() by {
            if k < a.len() {
                assert(ports.filter(pred).contains(a[k]));
                ports.lemma_filter_contains_rev(pred, a[k]);
                let i = ports.index_of(a[k]);
                assert(self.cells@[0].pins@[i] < self.pins@.len());
            } else {
                assert(v[k] == self.state_inputs(self.cells@.len() as int)[k - a.len()]);
            }
        }
    }

    proof fn lemma_state_inputs(&self, c: int)
        requires
            self.wf(),
            c <= self.cells@.len(),
        ensures
            forall|k: int|
                0 <= k < self.state_inputs(c).len() ==> #[trigger] self.state_inputs(c)[k]
                    < self.pins@.len(),
        decreases c,
    {
        if c > 1 {
            self.lemma_state_inputs(c - 1);
            if self.cells@[c - 1].kind.spec_is_sequential() {
                let pins = self.cells@[c - 1].pins@;
                let wanted = |p: usize| self.pins@[p as int].kind.spec_is_state_input();
                let a = self.state_inputs(c - 1);
                let b = pins.filter(wanted);
                let all = self.state_inputs(c);
                assert(all == a + b);
                assert forall|k: int| 0 <= k < all.len() implies #[trigger] all[k]
                    < self.pins@.len() by {
                    if k >= a.len() {
                        let x = b[k - a.len()];
                        assert(b.contains(x));
                        pins.lemma_filter_contains_rev(wanted, x);
                        let i = pins.index_of(x);
                        assert(self.cells@[c - 1].pins@[i] < self.pins@.len());
                    } else {
                        assert(all[k] == a[k]);
                    }
                }
            } else {
                assert(self.state_inputs(c) == self.state_inputs(c - 1));
            }
        }
    }
}

} // verus!
