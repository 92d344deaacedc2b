//! The order in which a stage hands on pins.
use crate::index_set::{inserted, swap_removed};
use crate::pe::hier::count_in;
use crate::staging::split::{Frontier, Split};
use vstd::prelude::*;

verus! {

/// What happens to a pin while the part of a graph before a split is gone through.
pub enum Event {
    /// The pin is reached.
    Comes(usize),
    /// The pin is used.
    Used(usize),
}

/// The uses of pins, one after the other.
pub open spec fn uses_of(pins: Seq<usize>) -> Seq<Event> {
    Seq::new(pins.len(), |i: int| Event::Used(pins[i]))
}

impl Split {
    /// A pin before the split comes, and uses what it is computed from.
    pub open spec fn pin_events(self, p: int) -> Seq<Event> {
        let u = self.order()[p];
        if self.aig.depth(self.stop, u) <= self.level {
            seq![Event::Comes(u)] + uses_of(self.aig.sources(self.stop, u))
        } else {
            Seq::empty()
        }
    }

    /// An endpoint that is not late uses the pins that it reads.
    pub open spec fn end_events(self, k: int) -> Seq<Event> {
        if self.is_late(self.eps[k]) {
            Seq::empty()
        } else {
            uses_of(self.aig.group(self.eps[k] as int).input_pins())
        }
    }

    /// Everything that happens before the split: first the pins in their order, then the
    /// endpoints.
    pub open spec fn events(self) -> Seq<Event> {
        Seq::new(self.order().len(), |p: int| self.pin_events(p)).flatten() + Seq::new(
            self.eps.len(),
            |k: int| self.end_events(k),
        ).flatten()
    }

    /// Whether the use of a pin is the last: it is not used behind the split, nor later
    /// before it.
    pub open spec fn is_last_use(self, t: int, x: usize) -> bool {
        &&& !self.used_later(x)
        &&& forall|i: int| t < i < self.events().len() ==> #[trigger] self.events()[i] != Event::Used(
            x,
        )
    }

    /// Whether event `t` takes one list of pins to the next: a pin that comes is put at the end, and
    /// one that is used for the last time leaves, the last pin taking its place.
    pub open spec fn moves(self, lists: Seq<Seq<usize>>, t: int) -> bool {
        match self.events()[t] {
            Event::Comes(u) => lists[t + 1] == if lists[t].contains(u) {
                lists[t]
            } else {
                lists[t].push(u)
            },
            Event::Used(x) => lists[t + 1] == if self.is_last_use(t, x) {
                swap_removed(lists[t], x)
            } else {
                lists[t]
            },
        }
    }

    spec fn happens(self, f: Frontier, e: Event) -> Frontier {
        match e {
            Event::Comes(u) => Frontier { nodes: inserted(f.nodes, u), used: f.used },
            Event::Used(x) => self.use_pin(f, x),
        }
    }

    spec fn run(self, f: Frontier, es: Seq<Event>) -> Frontier
        decreases es.len(),
    {
        if es.len() == 0 {
            f
        } else {
            self.happens(self.run(f, es.drop_last()), es.last())
        }
    }

    proof fn lemma_run_concat(self, f: Frontier, a: Seq<Event>, b: Seq<Event>)
        ensures
            self.run(f, a + b) == self.run(self.run(f, a), b),
        decreases b.len(),
    {
        if b.len() == 0 {
            assert(a + b =~= a);
        } else {
            self.lemma_run_concat(f, a, b.drop_last());
            assert((a + b).drop_last() =~= a + b.drop_last());
        }
    }

    proof fn lemma_run_uses(self, f: Frontier, pins: Seq<usize>, k: int)
        requires
            0 <= k <= pins.len(),
        ensures
            self.use_pins(f, pins, k) == self.run(f, uses_of(pins.take(k))),
        decreases k,
    {
        if k > 0 {
            self.lemma_run_uses(f, pins, k - 1);
            assert(uses_of(pins.take(k)).drop_last() =~= uses_of(pins.take(k - 1)));
        }
    }

    proof fn lemma_run_pins(self, k: int)
        requires
            0 <= k <= self.order().len(),
        ensures
            self.after_pins(k) == self.run(
                Frontier { nodes: Seq::empty(), used: Seq::empty() },
                Seq::new(k as nat, |p: int| self.pin_events(p)).flatten(),
            ),
        decreases k,
    {
        let start = Frontier { nodes: Seq::empty(), used: Seq::empty() };
        let lists = Seq::new(k as nat, |p: int| self.pin_events(p));
        if k == 0 {
            assert(lists.flatten() =~= Seq::empty());
        } else {
            self.lemma_run_pins(k - 1);
            let less = Seq::new((k - 1) as nat, |p: int| self.pin_events(p));
            let new = self.pin_events(k - 1);
            assert(lists =~= less.push(new));
            less.lemma_flatten_push(new);
            self.lemma_run_concat(start, less.flatten(), new);
            let f = self.after_pins(k - 1);
            let u = self.order()[k - 1];
            if self.pin_before(u) {
                let pins = self.aig.sources(self.stop, u);
                let one = seq![Event::Comes(u)];
                self.lemma_run_concat(f, one, uses_of(pins));
                assert(one.drop_last() =~= Seq::empty());
                assert(self.run(f, one.drop_last()) == f);
                let g = Frontier { nodes: inserted(f.nodes, u), used: f.used };
                assert(self.run(f, one) == g);
                self.lemma_run_uses(g, pins, pins.len() as int);
                assert(pins.take(pins.len() as int) =~= pins);
            } else {
                assert(self.run(f, new) == f);
            }
        }
    }

    proof fn lemma_run_ends(self, k: int)
        requires
            0 <= k <= self.eps.len(),
        ensures
            self.after_ends(k) == self.run(
                self.after_pins(self.order().len() as int),
                Seq::new(k as nat, |i: int| self.end_events(i)).flatten(),
            ),
        decreases k,
    {
        let start = self.after_pins(self.order().len() as int);
        let lists = Seq::new(k as nat, |i: int| self.end_events(i));
        if k == 0 {
            assert(lists.flatten() =~= Seq::empty());
        } else {
            self.lemma_run_ends(k - 1);
            let less = Seq::new((k - 1) as nat, |i: int| self.end_events(i));
            let new = self.end_events(k - 1);
            assert(lists =~= less.push(new));
            less.lemma_flatten_push(new);
            self.lemma_run_concat(start, less.flatten(), new);
            let f = self.after_ends(k - 1);
            self.lemma_late(self.eps[k - 1]);
            if self.end_before(self.eps[k - 1]) {
                let pins = self.aig.group(self.eps[k - 1] as int).input_pins();
                self.lemma_run_uses(f, pins, pins.len() as int);
                assert(pins.take(pins.len() as int) =~= pins);
            } else {
                assert(self.run(f, new) == f);
            }
        }
    }

    proof fn lemma_count_grows(self, f: Frontier, es: Seq<Event>, a: int, b: int, x: usize)
        requires
            0 <= a <= b <= es.len(),
        ensures
            count_in(self.run(f, es.take(a)).used, x) <= count_in(self.run(f, es.take(b)).used, x),
            count_in(self.run(f, es.take(a)).used, x) == count_in(self.run(f, es.take(b)).used, x)
                <==> forall|i: int| a <= i < b ==> #[trigger] es[i] != Event::Used(x),
        decreases b - a,
    {
        if a < b {
            self.lemma_count_grows(f, es, a, b - 1, x);
            let g = self.run(f, es.take(b - 1));
            let h = self.run(f, es.take(b));
            assert(es.take(b).drop_last() =~= es.take(b - 1));
            assert(h == self.happens(g, es[b - 1]));
            match es[b - 1] {
                Event::Comes(u) => {},
                Event::Used(y) => {
                    assert(g.used.push(y).drop_last() =~= g.used);
                },
            }
        }
    }

    /// The pins that are active at a split come in the order in which they are left when
    /// everything that happens before it has happened.
    pub proof fn law_active_order(self) -> (lists: Seq<Seq<usize>>)
        requires
            self.wf(),
        ensures
            lists.len() == self.events().len() + 1,
            lists[0].len() == 0,
            forall|t: int| 0 <= t < self.events().len() ==> #[trigger] self.moves(lists, t),
            lists.last() == self.active(),
    {
        let start = Frontier { nodes: Seq::empty(), used: Seq::empty() };
        let es = self.events();
        let n = es.len() as int;
        let m = self.eps.len() as int;
        let a = Seq::new(self.order().len(), |p: int| self.pin_events(p)).flatten();
        let b = Seq::new(self.eps.len(), |k: int| self.end_events(k)).flatten();
        self.lemma_run_pins(self.order().len() as int);
        self.lemma_run_ends(m);
        self.lemma_run_concat(start, a, b);
        let lists = Seq::new((n + 1) as nat, |t: int| self.run(start, es.take(t)).nodes);
        assert(es.take(n) =~= es);
        assert(self.run(start, es) == self.after_ends(m));
        assert(es.take(0) =~= Seq::empty());
        assert forall|t: int| 0 <= t < n implies #[trigger] self.moves(lists, t) by {
            let f = self.run(start, es.take(t));
            let g = self.run(start, es.take(t + 1));
            assert(es.take(t + 1).drop_last() =~= es.take(t));
            assert(g == self.happens(f, es[t]));
            if let Event::Used(x) = es[t] {
                self.lemma_count_grows(start, es, t + 1, n, x);
                self.lemma_all_used(x);
                assert(g.used == f.used.push(x));
            }
        }
        lists
    }

    /// What a stage hands on: the active pins that are not its inputs, in their order; all active
    /// pins if there are no others.
    pub proof fn law_outputs_order(self)
        requires
            self.wf(),
        ensures
            ({
                let others = self.active().filter(|x: usize| !self.stop.contains(x));
                self.outputs() == if others.len() > 0 {
                    others
                } else {
                    self.active()
                }
            }),
    {
    }
}

} // verus!
