//! Which pins are evaluated, and when there is an order to evaluate them in.
use crate::aig::stands_before;
use crate::naive::order::{lemma_marks, lemma_no_marks, marks, Walk};
use crate::netlist::{CellKind, Direction, Netlist, PinKind};
use vstd::prelude::*;

verus! {

impl Netlist {
    /// Whether a pin is one of a cell.
    pub open spec fn has_pin(&self, c: int, x: usize) -> bool {
        0 <= c < self.cells@.len() && self.cells@[c].pins@.contains(x)
    }

    /// Whether a cell keeps a state.
    pub open spec fn keeps(&self, c: int) -> bool {
        1 <= c < self.cells@.len() && (self.cells@[c].kind == CellKind::Dff || self.cells@[c].kind
            == CellKind::Ram)
    }

    /// Whether a pin is one of a cell that keeps a state.
    pub open spec fn of_state(&self, x: usize) -> bool {
        exists|c: int| #[trigger] self.keeps(c) && self.has_pin(c, x)
    }

    /// Whether a pin is computed from another: an input from what drives its net, unless the net
    /// is constant; an output from the two inputs of its cell.
    pub open spec fn reads(&self, p: usize, d: usize) -> bool {
        let pin = self.pins@[p as int];
        if pin.direction == Direction::I {
            &&& self.net_zero != Some(pin.net)
            &&& self.net_one != Some(pin.net)
            &&& self.roots@[pin.net as int] == d
        } else {
            let kind = self.pins@[d as int].kind;
            self.has_pin(pin.cell as int, d) && (kind == PinKind::A || kind == PinKind::B)
        }
    }

    /// Whether a pin is given: a port of the design that is no output and no clock, or what a cell
    /// that keeps a state puts out.
    pub open spec fn given(&self, clocks: Seq<bool>, x: usize) -> bool {
        let pin = self.pins@[x as int];
        ||| self.has_pin(0, x) && pin.direction != Direction::I && !clocks[x as int]
        ||| (pin.kind == PinKind::Q || pin.kind == PinKind::PortRRdData) && self.of_state(x)
    }

    /// Whether the value of a pin is wanted: an output port of the design, or what a cell that
    /// keeps a state takes in, but for clocks.
    pub open spec fn wanted(&self, x: usize) -> bool {
        let pin = self.pins@[x as int];
        ||| self.has_pin(0, x) && pin.direction == Direction::I
        ||| {
            &&& pin.kind == PinKind::D || pin.kind == PinKind::PortRAddr || pin.kind
                == PinKind::PortWAddr || pin.kind == PinKind::PortWWrEn || pin.kind
                == PinKind::PortWWrData
            &&& self.of_state(x)
        }
    }

    /// Whether a list of pins leads to one that is wanted, each computed from the one before,
    /// and none of them given.
    pub open spec fn leads(&self, clocks: Seq<bool>, path: Seq<usize>) -> bool {
        &&& path.len() > 0
        &&& forall|t: int|
            0 <= t < path.len() ==> (#[trigger] path[t]) < self.pins@.len() && !self.given(
                clocks,
                path[t],
            )
        &&& forall|t: int| 0 < t < path.len() ==> #[trigger] self.reads(path[t], path[t - 1])
        &&& self.wanted(path.last())
    }

    /// Whether a pin is on the way to one that is wanted.
    pub open spec fn reached(&self, clocks: Seq<bool>, x: usize) -> bool {
        exists|path: Seq<usize>| #[trigger] self.leads(clocks, path) && path[0] == x
    }

    proof fn lemma_reads(&self, p: usize, d: usize)
        requires
            self.wf(),
            p < self.pins@.len(),
        ensures
            self.inputs_of(p).contains(d) <==> self.reads(p, d),
            self.reads(p, d) ==> d < self.pins@.len(),
    {
        let pin = self.pins@[p as int];
        let v = self.inputs_of(p);
        if pin.direction == Direction::I {
            if v.len() > 0 {
                assert(v[0] == self.roots@[pin.net as int]);
            }
        } else {
            let all = self.cells@[pin.cell as int].pins@;
            let pred = |p: usize| self.pins@[p as int].kind.spec_is_gate_input();
            lemma_filter_has(all, pred, d);
            if all.contains(d) {
                let i = all.index_of(d);
                assert(self.cells@[pin.cell as int].pins@[i] < self.pins@.len());
            }
        }
    }

    proof fn lemma_given(&self, clocks: Seq<bool>, x: usize)
        requires
            self.cells@.len() > 0,
        ensures
            self.is_source(clocks, x as int) <==> self.given(clocks, x),
    {
        let ports = self.cells@[0].pins@;
        if self.is_source(clocks, x as int) {
            if exists|k: int|
                0 <= k < ports.len() && #[trigger] self.cells@[0].pins@[k] == x
                    && self.pins@[x as int].direction != Direction::I && !clocks[x as int] {
            } else {
                let (c, k) = choose|c: int, k: int|
                    1 <= c < self.cells@.len() && 0 <= k < self.cells@[c].pins@.len()
                        && self.cells@[c].kind.spec_is_sequential() && #[trigger] self.cells@[c].pins@[k]
                        == x && self.pins@[x as int].kind.spec_is_state_output();
                assert(self.keeps(c) && self.has_pin(c, x));
            }
        }
        if self.given(clocks, x) {
            if self.has_pin(0, x) {
                let k = ports.index_of(x);
                assert(self.cells@[0].pins@[k] == x);
            }
            if self.of_state(x) {
                let c = choose|c: int| #[trigger] self.keeps(c) && self.has_pin(c, x);
                let k = self.cells@[c].pins@.index_of(x);
                assert(self.cells@[c].pins@[k] == x);
            }
        }
    }

    proof fn lemma_state_wanted(&self, n: int, x: usize)
        requires
            n <= self.cells@.len(),
        ensures
            self.state_inputs(n).contains(x) <==> self.pins@[x as int].kind.spec_is_state_input()
                && exists|c: int| #[trigger] self.keeps(c) && c < n && self.has_pin(c, x),
        decreases n,
    {
        if n > 1 {
            self.lemma_state_wanted(n - 1, x);
            let less = self.state_inputs(n - 1);
            let all = self.cells@[n - 1].pins@;
            let pred = |p: usize| self.pins@[p as int].kind.spec_is_state_input();
            lemma_filter_has(all, pred, x);
            if self.keeps(n - 1) {
                let now = self.state_inputs(n);
                assert(now == less + all.filter(pred));
                lemma_either(less, all.filter(pred), x);
                assert(self.keeps(n - 1));
                if exists|c: int| #[trigger] self.keeps(c) && c < n && self.has_pin(c, x) {
                    let c = choose|c: int| #[trigger] self.keeps(c) && c < n && self.has_pin(c, x);
                    if c < n - 1 {
                        assert(self.keeps(c) && c < n - 1);
                    }
                }
            } else {
                if exists|c: int| #[trigger] self.keeps(c) && c < n && self.has_pin(c, x) {
                    let c = choose|c: int| #[trigger] self.keeps(c) && c < n && self.has_pin(c, x);
                    assert(self.keeps(c) && c < n - 1);
                }
            }
        }
    }

    /// The pins whose values are needed are exactly those that are wanted, the output ports of
    /// the design before the others.
    pub proof fn law_needed(&self, x: usize)
        requires
            self.cells@.len() > 0,
        ensures
            self.needed().contains(x) <==> self.wanted(x),
            forall|i: int, j: int|
                0 <= i < j < self.needed().len() && !(self.has_pin(0, #[trigger] self.needed()[i])
                    && self.pins@[self.needed()[i] as int].direction == Direction::I) ==> self.of_state(
                    #[trigger] self.needed()[j],
                ),
    {
        let ports = self.cells@[0].pins@;
        let pred = |p: usize| self.pins@[p as int].direction == Direction::I;
        let n = self.cells@.len() as int;
        let a = self.out_ports();
        let b = self.state_inputs(n);
        lemma_filter_has(ports, pred, x);
        self.lemma_state_wanted(n, x);
        lemma_either(a, b, x);
        if self.wanted(x) && !(self.has_pin(0, x) && pred(x)) {
            let c = choose|c: int| #[trigger] self.keeps(c) && self.has_pin(c, x);
            assert(self.keeps(c) && c < n);
        }
        let v = self.needed();
        assert forall|i: int, j: int|
            0 <= i < j < v.len() && !(self.has_pin(0, #[trigger] v[i])
                && self.pins@[v[i] as int].direction == Direction::I) implies self.of_state(
            #[trigger] v[j],
        ) by {
            if i < a.len() {
                assert(a.contains(a[i]));
                lemma_filter_has(ports, pred, a[i]);
            }
            let y = b[j - a.len()];
            assert(y == v[j]);
            assert(b.contains(y));
            self.lemma_state_wanted(n, y);
            let c = choose|c: int| #[trigger] self.keeps(c) && c < n && self.has_pin(c, y);
            assert(self.keeps(c) && self.has_pin(c, v[j]));
        }
    }

    /// The pins whose values are needed, in order: the output ports of the design, then the pins of
    /// one cell that keeps a state after the other, as the cells hold them.
    pub proof fn law_needed_order(&self)
        requires
            self.cells@.len() > 0,
        ensures
            self.needed() == self.cells@[0].pins@.filter(
                |p: usize| self.pins@[p as int].direction == Direction::I,
            ) + Seq::new(self.cells@.len(), |c: int| self.taken_in(c)).flatten(),
    {
        let n = self.cells@.len() as int;
        self.lemma_taken_in(n);
    }

    /// What a cell that keeps a state takes in, but for clocks; nothing for other cells.
    pub open spec fn taken_in(&self, c: int) -> Seq<usize> {
        if self.keeps(c) {
            self.cells@[c].pins@.filter(
                |p: usize|
                    {
                        let kind = self.pins@[p as int].kind;
                        kind == PinKind::D || kind == PinKind::PortRAddr || kind == PinKind::PortWAddr
                            || kind == PinKind::PortWWrEn || kind == PinKind::PortWWrData
                    },
            )
        } else {
            Seq::empty()
        }
    }

    proof fn lemma_taken_in(&self, n: int)
        requires
            0 <= n <= self.cells@.len(),
        ensures
            self.state_inputs(n) == Seq::new(n as nat, |c: int| self.taken_in(c)).flatten(),
        decreases n,
    {
        let lists = Seq::new(n as nat, |c: int| self.taken_in(c));
        if n == 0 {
            assert(lists.flatten() =~= Seq::empty());
        } else {
            let less = Seq::new((n - 1) as nat, |c: int| self.taken_in(c));
            self.lemma_taken_in(n - 1);
            assert(lists =~= less.push(self.taken_in(n - 1)));
            less.lemma_flatten_push(self.taken_in(n - 1));
            let a = |p: usize| self.pins@[p as int].kind.spec_is_state_input();
            let b = |p: usize|
                {
                    let kind = self.pins@[p as int].kind;
                    kind == PinKind::D || kind == PinKind::PortRAddr || kind == PinKind::PortWAddr
                        || kind == PinKind::PortWWrEn || kind == PinKind::PortWWrData
                };
            assert(a =~= b);
            if !self.keeps(n - 1) {
                assert(less.flatten() + Seq::<usize>::empty() =~= less.flatten());
                if n == 1 {
                    assert(less.flatten() =~= Seq::empty());
                }
            }
        }
    }

    /// The pins are listed in depth-first order: a pin that was not reached yet comes right after
    /// what visiting the pins that it is computed from lists, one after the other in the order
    /// of their cell.
    pub proof fn law_depth_first(&self, w: Walk, pin: usize, fuel: nat)
        requires
            fuel > 0,
            !w.vis[pin as int],
            !w.stack[pin as int],
            pin < w.vis.len(),
            pin < w.stack.len(),
        ensures
            ({
                let kinds = |p: usize|
                    self.pins@[p as int].kind == PinKind::A || self.pins@[p as int].kind == PinKind::B;
                let x = self.pins@[pin as int];
                let inputs = if x.direction != Direction::I {
                    self.cells@[x.cell as int].pins@.filter(kinds)
                } else if self.net_zero == Some(x.net) || self.net_one == Some(x.net) {
                    Seq::empty()
                } else {
                    seq![self.roots@[x.net as int]]
                };
                let begun = Walk {
                    vis: w.vis.update(pin as int, true),
                    stack: w.stack.update(pin as int, true),
                    topo: w.topo,
                };
                match (
                    self.visit(w, pin, fuel),
                    self.visit_all(begun, inputs, 0, (fuel - 1) as nat),
                ) {
                    (Some(v), Some(u)) => v.topo == u.topo.push(pin),
                    (None, None) => true,
                    _ => false,
                }
            }),
    {
        let a = |p: usize| self.pins@[p as int].kind.spec_is_gate_input();
        let b = |p: usize|
            self.pins@[p as int].kind == PinKind::A || self.pins@[p as int].kind == PinKind::B;
        assert(a =~= b);
    }

    /// Visiting a list visits its pins one after the other.
    pub proof fn law_visits(&self, w: Walk, pins: Seq<usize>, x: usize, fuel: nat)
        ensures
            self.visit_all(w, Seq::empty(), 0, fuel) == Some(w),
            self.visit_all(w, pins.push(x), 0, fuel) == match self.visit_all(w, pins, 0, fuel) {
                Some(v) => self.visit(v, x, fuel),
                None => None,
            },
    {
        self.lemma_visits(w, pins, x, 0, fuel);
    }

    proof fn lemma_visits(&self, w: Walk, pins: Seq<usize>, x: usize, k: int, fuel: nat)
        requires
            0 <= k <= pins.len(),
        ensures
            self.visit_all(w, pins.push(x), k, fuel) == match self.visit_all(w, pins, k, fuel) {
                Some(v) => self.visit(v, x, fuel),
                None => None,
            },
        decreases pins.len() - k,
    {
        let all = pins.push(x);
        if k < pins.len() {
            assert(all[k] == pins[k]);
            if let Some(next) = self.visit(w, pins[k], fuel) {
                self.lemma_visits(next, pins, x, k + 1, fuel);
            }
        } else {
            assert(all[k] == x);
            if let Some(next) = self.visit(w, x, fuel) {
                assert(self.visit_all(next, all, k + 1, fuel) == Some(next));
            }
        }
    }

    /// Whether everything that is listed from position `from` on is one of `ends` or computes
    /// something that comes later.
    spec fn serves(&self, topo: Seq<usize>, from: int, ends: Seq<usize>) -> bool {
        forall|i: int|
            from <= i < topo.len() ==> ends.contains(#[trigger] topo[i]) || self.serves_later(topo, i)
    }

    spec fn serves_later(&self, topo: Seq<usize>, i: int) -> bool {
        exists|j: int| i < j < topo.len() && self.inputs_of(#[trigger] topo[j]).contains(topo[i])
    }

    proof fn lemma_serves(&self, w: Walk, pin: usize, fuel: nat)
        ensures
            self.visit(w, pin, fuel) matches Some(v) ==> w.topo.is_prefix_of(v.topo) && self.serves(
                v.topo,
                w.topo.len() as int,
                seq![pin],
            ),
        decreases fuel, 0int,
    {
        if fuel > 0 && !w.stack[pin as int] && !w.vis[pin as int] {
            let begun = Walk {
                vis: w.vis.update(pin as int, true),
                stack: w.stack.update(pin as int, true),
                topo: w.topo,
            };
            let inputs = self.inputs_of(pin);
            self.lemma_serves_all(begun, inputs, 0, (fuel - 1) as nat);
            if let Some(done) = self.visit_all(begun, inputs, 0, (fuel - 1) as nat) {
                let v = self.visit(w, pin, fuel).unwrap();
                let end = v.topo.len() - 1;
                assert(v.topo[end] == pin);
                assert forall|i: int| w.topo.len() <= i < v.topo.len() implies seq![pin].contains(
                    #[trigger] v.topo[i],
                ) || self.serves_later(v.topo, i) by {
                    if i < end {
                        assert(v.topo[i] == done.topo[i]);
                        if inputs.contains(done.topo[i]) {
                            assert(self.inputs_of(v.topo[end]).contains(v.topo[i]));
                        } else {
                            let j = choose|j: int|
                                i < j < done.topo.len() && self.inputs_of(
                                    #[trigger] done.topo[j],
                                ).contains(done.topo[i]);
                            assert(v.topo[j] == done.topo[j]);
                        }
                    } else {
                        assert(seq![pin][0] == pin);
                    }
                }
            }
        }
    }

    proof fn lemma_serves_all(&self, w: Walk, pins: Seq<usize>, k: int, fuel: nat)
        requires
            0 <= k,
        ensures
            self.visit_all(w, pins, k, fuel) matches Some(v) ==> w.topo.is_prefix_of(v.topo)
                && self.serves(v.topo, w.topo.len() as int, pins),
        decreases fuel, pins.len() - k + 1,
    {
        if k < pins.len() {
            self.lemma_serves(w, pins[k], fuel);
            if let Some(next) = self.visit(w, pins[k], fuel) {
                self.lemma_serves_all(next, pins, k + 1, fuel);
                if let Some(v) = self.visit_all(w, pins, k, fuel) {
                    assert forall|i: int| w.topo.len() <= i < v.topo.len() implies pins.contains(
                        #[trigger] v.topo[i],
                    ) || self.serves_later(v.topo, i) by {
                        if i < next.topo.len() {
                            assert(v.topo[i] == next.topo[i]);
                            if seq![pins[k]].contains(next.topo[i]) {
                                assert(pins[k] == v.topo[i]);
                            } else {
                                let j = choose|j: int|
                                    i < j < next.topo.len() && self.inputs_of(
                                        #[trigger] next.topo[j],
                                    ).contains(next.topo[i]);
                                assert(v.topo[j] == next.topo[j]);
                            }
                        }
                    }
                }
            }
        }
    }

    proof fn lemma_leads_on(&self, clocks: Seq<bool>, w: Walk, i: int)
        requires
            self.wf(),
            self.ordered(clocks) == Some(w),
            clocks.len() == self.pins@.len(),
            0 <= i < w.topo.len(),
            self.serves(w.topo, 0, self.needed()),
        ensures
            self.reached(clocks, w.topo[i]),
        decreases w.topo.len() - i,
    {
        let x = w.topo[i];
        self.law_ordered(clocks);
        self.lemma_given(clocks, x);
        assert(x < self.pins@.len());
        if self.needed().contains(x) {
            self.law_needed(x);
            let path = seq![x];
            assert(self.leads(clocks, path) && path[0] == x);
        } else {
            let j = choose|j: int|
                i < j < w.topo.len() && self.inputs_of(#[trigger] w.topo[j]).contains(w.topo[i]);
            self.lemma_leads_on(clocks, w, j);
            self.lemma_reads(w.topo[j], x);
            let path = choose|path: Seq<usize>| #[trigger]
                self.leads(clocks, path) && path[0] == w.topo[j];
            let more = seq![x] + path;
            assert forall|t: int| 0 <= t < more.len() implies (#[trigger] more[t])
                < self.pins@.len() && !self.given(clocks, more[t]) by {
                if t > 0 {
                    assert(more[t] == path[t - 1]);
                }
            }
            assert forall|t: int| 0 < t < more.len() implies #[trigger] self.reads(
                more[t],
                more[t - 1],
            ) by {
                if t > 1 {
                    assert(self.reads(path[t - 1], path[t - 1 - 1]));
                    assert(more[t] == path[t - 1] && more[t - 1] == path[t - 2]);
                } else {
                    assert(more[1] == path[0] && more[0] == x);
                }
            }
            assert(more.last() == path.last());
            assert(self.leads(clocks, more) && more[0] == x);
        }
    }

    proof fn lemma_is_listed(&self, clocks: Seq<bool>, w: Walk, path: Seq<usize>)
        requires
            self.wf(),
            self.ordered(clocks) == Some(w),
            clocks.len() == self.pins@.len(),
            self.leads(clocks, path),
        ensures
            w.topo.contains(path[0]),
        decreases path.len(),
    {
        self.law_ordered(clocks);
        let x = path[0];
        self.lemma_given(clocks, x);
        if path.len() == 1 {
            self.law_needed(x);
            let v = self.needed();
            let k = v.index_of(x);
            assert(w.topo.contains(v[k]));
        } else {
            let rest = path.drop_first();
            assert(self.reads(path[1], path[1 - 1]));
            assert forall|t: int| 0 < t < rest.len() implies #[trigger] self.reads(
                rest[t],
                rest[t - 1],
            ) by {
                assert(self.reads(path[t + 1], path[t + 1 - 1]));
            }
            assert(rest.last() == path.last());
            self.lemma_is_listed(clocks, w, rest);
            let i = w.topo.index_of(rest[0]);
            self.lemma_reads(w.topo[i], x);
            assert(self.inputs_of(w.topo[i]).contains(x));
            assert(stands_before(w.topo, i, x));
            let q = choose|q: int| 0 <= q < i && #[trigger] w.topo[q] == x;
            assert(w.topo[q] == x);
        }
    }

    /// The order lists exactly the pins that are on the way to one that is wanted, each once, and
    /// each after the pins that it is computed from and that are not given.
    pub proof fn law_listed(&self, clocks: Seq<bool>)
        requires
            self.wf(),
            clocks.len() == self.pins@.len(),
        ensures
            self.ordered(clocks) matches Some(w) ==> {
                &&& w.topo.no_duplicates()
                &&& forall|x: usize| #[trigger] w.topo.contains(x) <==> self.reached(clocks, x)
                &&& forall|i: int, d: usize|
                    0 <= i < w.topo.len() && #[trigger] self.reads(w.topo[i], d) && !self.given(
                        clocks,
                        d,
                    ) ==> stands_before(w.topo, i, d)
                &&& forall|x: usize|
                    x < self.pins@.len() ==> (#[trigger] w.vis[x as int] <==> w.topo.contains(x)
                        || self.given(clocks, x))
            },
    {
        self.law_ordered(clocks);
        let n = self.pins@.len();
        self.lemma_serves_all(self.walk_start(clocks), self.needed(), 0, n + 1);
        if let Some(w) = self.ordered(clocks) {
            assert forall|x: usize| #[trigger] w.topo.contains(x) <==> self.reached(clocks, x) by {
                if w.topo.contains(x) {
                    self.lemma_leads_on(clocks, w, w.topo.index_of(x));
                }
                if self.reached(clocks, x) {
                    let path = choose|path: Seq<usize>| #[trigger]
                        self.leads(clocks, path) && path[0] == x;
                    self.lemma_is_listed(clocks, w, path);
                }
            }
            assert forall|i: int, d: usize|
                0 <= i < w.topo.len() && #[trigger] self.reads(w.topo[i], d) && !self.given(
                    clocks,
                    d,
                ) implies stands_before(w.topo, i, d) by {
                assert(w.topo[i] < n);
                self.lemma_reads(w.topo[i], d);
                self.lemma_given(clocks, d);
                assert(self.inputs_of(w.topo[i]).contains(d));
            }
            assert forall|x: usize| x < n implies (#[trigger] w.vis[x as int] <==> w.topo.contains(x)
                || self.given(clocks, x)) by {
                self.lemma_given(clocks, x);
                let src = self.walk_start(clocks).vis;
                assert(src[x as int] == self.is_source(clocks, x as int));
                if w.topo.contains(x) {
                    let i = w.topo.index_of(x);
                    assert(w.vis[w.topo[i] as int]);
                }
                assert(!w.stack[x as int]);
            }
        }
    }

    /// Whether a numbering shows that the circuit has no loop: a pin that is not given has a
    /// larger number than the pins it is computed from that are not given either.
    pub open spec fn numbered(&self, clocks: Seq<bool>, rank: spec_fn(usize) -> nat) -> bool {
        forall|p: usize, d: usize|
            p < self.pins@.len() && !self.given(clocks, p) && !self.given(clocks, d)
                && #[trigger] self.reads(p, d) ==> rank(d) < rank(p)
    }

    /// Whether a search can go on to pins with numbers below `bound`.
    spec fn free_for(
        &self,
        clocks: Seq<bool>,
        rank: spec_fn(usize) -> nat,
        w: Walk,
        bound: nat,
        fuel: nat,
    ) -> bool {
        let n = self.pins@.len();
        &&& w.vis.len() == n
        &&& w.stack.len() == n
        &&& marks(w.stack) + fuel == n + 1
        &&& forall|p: usize|
            p < n && #[trigger] w.stack[p as int] ==> rank(p) >= bound && !self.given(clocks, p)
        &&& forall|p: usize|
            p < n && #[trigger] self.given(clocks, p) ==> w.vis[p as int] && !w.stack[p as int]
    }

    proof fn lemma_no_loop(
        &self,
        clocks: Seq<bool>,
        rank: spec_fn(usize) -> nat,
        w: Walk,
        pin: usize,
        bound: nat,
        fuel: nat,
    )
        requires
            self.wf(),
            self.numbered(clocks, rank),
            pin < self.pins@.len(),
            self.given(clocks, pin) || rank(pin) < bound,
            self.free_for(clocks, rank, w, bound, fuel),
        ensures
            self.visit(w, pin, fuel) matches Some(v) && v.stack == w.stack && self.free_for(
                clocks,
                rank,
                v,
                bound,
                fuel,
            ),
        decreases fuel, 0int,
    {
        let n = self.pins@.len();
        if w.stack[pin as int] {
            assert(rank(pin) >= bound);
        } else {
            lemma_marks(w.stack, pin as int);
            if !w.vis[pin as int] {
                assert(!self.given(clocks, pin));
                let begun = Walk {
                    vis: w.vis.update(pin as int, true),
                    stack: w.stack.update(pin as int, true),
                    topo: w.topo,
                };
                let inputs = self.inputs_of(pin);
                self.lemma_inputs(pin);
                assert(self.free_for(clocks, rank, begun, rank(pin), (fuel - 1) as nat)) by {
                    assert forall|p: usize|
                        p < n && #[trigger] begun.stack[p as int] implies rank(p) >= rank(pin)
                        && !self.given(clocks, p) by {
                        if p != pin {
                            assert(w.stack[p as int]);
                        }
                    }
                }
                assert forall|i: int| 0 <= i < inputs.len() implies self.given(
                    clocks,
                    #[trigger] inputs[i],
                ) || rank(inputs[i]) < rank(pin) by {
                    assert(inputs.contains(inputs[i]));
                    self.lemma_reads(pin, inputs[i]);
                }
                self.lemma_no_loops(
                    clocks,
                    rank,
                    begun,
                    inputs,
                    0,
                    rank(pin),
                    (fuel - 1) as nat,
                );
                let done = self.visit_all(begun, inputs, 0, (fuel - 1) as nat).unwrap();
                let v = self.visit(w, pin, fuel).unwrap();
                assert(v.stack =~= w.stack);
                assert(self.free_for(clocks, rank, v, bound, fuel)) by {
                    assert forall|p: usize| p < n && #[trigger] self.given(clocks, p) implies v.vis[p as int]
                        && !v.stack[p as int] by {
                        assert(done.vis[p as int]);
                    }
                }
            }
        }
    }

    proof fn lemma_no_loops(
        &self,
        clocks: Seq<bool>,
        rank: spec_fn(usize) -> nat,
        w: Walk,
        pins: Seq<usize>,
        k: int,
        bound: nat,
        fuel: nat,
    )
        requires
            self.wf(),
            self.numbered(clocks, rank),
            0 <= k,
            forall|i: int|
                0 <= i < pins.len() ==> (#[trigger] pins[i]) < self.pins@.len() && (self.given(
                    clocks,
                    pins[i],
                ) || rank(pins[i]) < bound),
            self.free_for(clocks, rank, w, bound, fuel),
        ensures
            self.visit_all(w, pins, k, fuel) matches Some(v) && v.stack == w.stack && self.free_for(
                clocks,
                rank,
                v,
                bound,
                fuel,
            ),
        decreases fuel, pins.len() - k + 1,
    {
        if k < pins.len() {
            self.lemma_no_loop(clocks, rank, w, pins[k], bound, fuel);
            let next = self.visit(w, pins[k], fuel).unwrap();
            self.lemma_no_loops(clocks, rank, next, pins, k + 1, bound, fuel);
        }
    }

    /// There is an order if the circuit has no loop.
    pub proof fn law_order_exists(&self, clocks: Seq<bool>, rank: spec_fn(usize) -> nat)
        requires
            self.wf(),
            clocks.len() == self.pins@.len(),
            self.numbered(clocks, rank),
        ensures
            self.ordered(clocks) is Some,
    {
        let n = self.pins@.len();
        let start = self.walk_start(clocks);
        let needed = self.needed();
        let bound = lemma_bound(needed, rank, needed.len() as int);
        lemma_no_marks(start.stack);
        self.lemma_needed();
        assert(self.free_for(clocks, rank, start, bound, n + 1)) by {
            assert forall|p: usize| p < n && #[trigger] self.given(clocks, p) implies start.vis[p as int]
                && !start.stack[p as int] by {
                self.lemma_given(clocks, p);
            }
        }
        self.lemma_no_loops(clocks, rank, start, needed, 0, bound, n + 1);
    }
}

proof fn lemma_bound(s: Seq<usize>, rank: spec_fn(usize) -> nat, k: int) -> (bound: nat)
    requires
        0 <= k <= s.len(),
    ensures
        forall|i: int| 0 <= i < k ==> rank(#[trigger] s[i]) < bound,
    decreases k,
{
    if k == 0 {
        0
    } else {
        let less = lemma_bound(s, rank, k - 1);
        less + rank(s[k - 1]) + 1
    }
}

/// What a filtered list holds.
pub proof fn lemma_filter_has(s: Seq<usize>, pred: spec_fn(usize) -> bool, x: usize)
    ensures
        s.filter(pred).contains(x) <==> s.contains(x) && pred(x),
{
    if s.filter(pred).contains(x) {
        s.lemma_filter_contains_rev(pred, x);
        let i = s.filter(pred).index_of(x);
        s.lemma_filter_pred(pred, i);
    }
    if s.contains(x) && pred(x) {
        let i = s.index_of(x);
        s.lemma_filter_contains(pred, i);
    }
}

proof fn lemma_either(a: Seq<usize>, b: Seq<usize>, x: usize)
    ensures
        (a + b).contains(x) <==> a.contains(x) || b.contains(x),
{
    let s = a + b;
    if a.contains(x) {
        let i = a.index_of(x);
        assert(s[i] == x);
    }
    if b.contains(x) {
        let i = b.index_of(x);
        assert(s[a.len() + i] == x);
    }
    if s.contains(x) {
        let i = s.index_of(x);
        if i < a.len() {
            assert(a[i] == x);
        } else {
            assert(b[i - a.len()] == x);
        }
    }
}

} // verus!
