//! Paths through a graph.
use crate::aig::{
    lit_source, lit_sources, pin_of, stands_before, DriverType, EndpointGroup, AIG,
};
use crate::index_set::opt_elems;
use crate::pe::merge::{all_pins, cone_size, lemma_all_pins_bound};
use crate::staging::StagedAIG;
use vstd::prelude::*;

verus! {

impl AIG {
    /// Whether pin `v` is a gate that is computed from pin `u`, and not one of `stop`.
    pub open spec fn computes(&self, stop: Seq<usize>, u: usize, v: usize) -> bool {
        &&& !stop.contains(v)
        &&& match self.drivers@[v as int] {
            DriverType::AndGate(a, b) => (a >= 2 && a / 2 == u) || (b >= 2 && b / 2 == u),
            _ => false,
        }
    }

    /// Whether a list of pins is a path: each is computed from the one before it.
    pub open spec fn is_path(&self, stop: Seq<usize>, path: Seq<usize>) -> bool {
        &&& path.len() > 0
        &&& forall|t: int| 0 <= t < path.len() ==> #[trigger] path[t] <= self.num_aigpins
        &&& forall|t: int|
            0 < t < path.len() ==> #[trigger] self.computes(stop, path[t - 1], path[t])
    }

    /// Whether a pin is on a path to one of the pins of `ends`.
    pub open spec fn leads_to(&self, stop: Seq<usize>, x: usize, ends: Seq<usize>) -> bool {
        exists|path: Seq<usize>| #[trigger]
            self.is_path(stop, path) && path[0] == x && ends.contains(path.last())
    }

    /// The pins that a pin is computed from are its sources.
    pub proof fn lemma_sources_is(&self, stop: Seq<usize>, u: usize, v: usize)
        ensures
            self.computes(stop, u, v) == self.sources(stop, v).contains(u),
    {
        match self.drivers@[v as int] {
            DriverType::AndGate(a, b) => {
                let s = lit_source(a) + lit_source(b);
                if a >= 2 {
                    assert(s[0] == pin_of(a));
                }
                if b >= 2 {
                    assert(s[s.len() - 1] == pin_of(b));
                }
            },
            _ => {},
        }
    }

    proof fn lemma_path_longer(&self, stop: Seq<usize>, path: Seq<usize>, u: usize)
        requires
            self.is_path(stop, path),
            u <= self.num_aigpins,
            self.computes(stop, path.last(), u),
        ensures
            self.is_path(stop, path.push(u)),
    {
        let p = path.push(u);
        assert forall|t: int| 0 < t < p.len() implies #[trigger] self.computes(stop, p[t - 1], p[t]) by {
            if t < path.len() {
                assert(self.computes(stop, path[t - 1], path[t]));
            }
        }
    }

    /// The depth of a pin is the number of gates on the longest path that leads to it.
    pub proof fn law_depth(&self, stop: Seq<usize>, u: usize) -> (longest: Seq<usize>)
        requires
            self.wf(),
            u <= self.num_aigpins,
        ensures
            self.is_path(stop, longest),
            longest.last() == u,
            longest.len() == self.depth(stop, u) + 1,
            forall|path: Seq<usize>| #[trigger]
                self.is_path(stop, path) && path.last() == u ==> path.len() <= self.depth(stop, u) + 1,
        decreases self.rank_of(u),
    {
        self.lemma_rank(u);
        let d = self.depth(stop, u);
        let mut longest = seq![u];
        if !stop.contains(u) {
            if let DriverType::AndGate(a, b) = self.drivers@[u as int] {
                if a >= 2 {
                    let p = self.law_depth(stop, pin_of(a));
                    if d == self.depth(stop, pin_of(a)) + 1 {
                        self.lemma_path_longer(stop, p, u);
                        longest = p.push(u);
                    }
                }
                if b >= 2 {
                    let p = self.law_depth(stop, pin_of(b));
                    if d == self.depth(stop, pin_of(b)) + 1 {
                        self.lemma_path_longer(stop, p, u);
                        longest = p.push(u);
                    }
                }
            }
        }
        assert forall|path: Seq<usize>| #[trigger]
            self.is_path(stop, path) && path.last() == u implies path.len() <= d + 1 by {
            let n = path.len() as int;
            if n > 1 {
                assert(self.computes(stop, path[n - 1 - 1], path[n - 1]));
                let front = path.drop_last();
                assert forall|t: int| 0 < t < front.len() implies #[trigger] self.computes(
                    stop,
                    front[t - 1],
                    front[t],
                ) by {
                    assert(self.computes(stop, path[t - 1], path[t]));
                }
                assert(self.is_path(stop, front));
                let x = front.last();
                if let DriverType::AndGate(a, b) = self.drivers@[u as int] {
                    if a >= 2 && pin_of(a) == x {
                        assert(front.len() <= self.depth(stop, pin_of(a)) + 1);
                    } else {
                        assert(front.len() <= self.depth(stop, pin_of(b)) + 1);
                    }
                }
            }
        }
        longest
    }

    proof fn lemma_listed(&self, stop: Seq<usize>, s: Seq<usize>, path: Seq<usize>)
        requires
            self.is_topo(stop, s),
            self.is_path(stop, path),
            s.contains(path.last()),
        ensures
            s.contains(path[0]),
        decreases path.len(),
    {
        let n = path.len() as int;
        if n > 1 {
            assert(self.computes(stop, path[n - 1 - 1], path[n - 1]));
            let front = path.drop_last();
            assert forall|t: int| 0 < t < front.len() implies #[trigger] self.computes(
                stop,
                front[t - 1],
                front[t],
            ) by {
                assert(self.computes(stop, path[t - 1], path[t]));
            }
            let p = s.index_of(path[n - 1]);
            self.lemma_sources_is(stop, path[n - 2], s[p]);
            assert(stands_before(s, p, path[n - 2]));
            let q = choose|q: int| 0 <= q < p && #[trigger] s[q] == path[n - 2];
            assert(s.contains(front.last()));
            self.lemma_listed(stop, s, front);
        }
    }

    proof fn lemma_path_from(&self, stop: Seq<usize>, s: Seq<usize>, ends: Seq<usize>, p: int)
        requires
            self.is_topo(stop, s),
            self.is_needed(stop, s, ends, 0),
            0 <= p < s.len(),
        ensures
            self.leads_to(stop, s[p], ends),
        decreases s.len() - p,
    {
        let x = s[p];
        if ends.contains(x) {
            let path = seq![x];
            assert(self.is_path(stop, path));
            assert(path[0] == x && path.last() == x);
        } else {
            let q = choose|q: int|
                p < q < s.len() && self.sources(stop, #[trigger] s[q]).contains(s[p]);
            self.lemma_path_from(stop, s, ends, q);
            let path = choose|path: Seq<usize>| #[trigger]
                self.is_path(stop, path) && path[0] == s[q] && ends.contains(path.last());
            let more = seq![x] + path;
            self.lemma_sources_is(stop, x, s[q]);
            assert forall|t: int| 0 < t < more.len() implies #[trigger] self.computes(
                stop,
                more[t - 1],
                more[t],
            ) by {
                if t > 1 {
                    assert(self.computes(stop, path[t - 1 - 1], path[t - 1]));
                    assert(more[t] == path[t - 1] && more[t - 1] == path[t - 2]);
                } else {
                    assert(more[0] == x && more[1] == path[0]);
                }
            }
            assert(more.last() == path.last());
            assert(self.is_path(stop, more) && more[0] == x);
        }
    }

    /// The traversal lists the pins on paths to the pins that it starts from, each once, and
    /// each after the pins that it is computed from.
    pub proof fn law_topo(&self, stop: Seq<usize>, ends: Seq<usize>)
        requires
            self.wf(),
            forall|k: int| 0 <= k < ends.len() ==> #[trigger] ends[k] <= self.num_aigpins,
        ensures
            ({
                let s = self.topo(stop, ends);
                &&& s.no_duplicates()
                &&& forall|x: usize| #[trigger] s.contains(x) <==> self.leads_to(stop, x, ends)
                &&& forall|p: int, q: int|
                    0 <= p < s.len() && 0 <= q < s.len() && #[trigger] self.computes(stop, s[p], s[q])
                        ==> p < q
            }),
    {
        let s = self.topo(stop, ends);
        self.lemma_topo(stop, ends);
        assert forall|x: usize| #[trigger] s.contains(x) <==> self.leads_to(stop, x, ends) by {
            if s.contains(x) {
                self.lemma_path_from(stop, s, ends, s.index_of(x));
            }
            if self.leads_to(stop, x, ends) {
                let path = choose|path: Seq<usize>| #[trigger]
                    self.is_path(stop, path) && path[0] == x && ends.contains(path.last());
                self.lemma_listed(stop, s, path);
            }
        }
        assert forall|p: int, q: int|
            0 <= p < s.len() && 0 <= q < s.len() && #[trigger] self.computes(
                stop,
                s[p],
                s[q],
            ) implies p < q by {
            self.lemma_sources_is(stop, s[p], s[q]);
            assert(stands_before(s, q, s[p]));
            let r = choose|r: int| 0 <= r < q && #[trigger] s[r] == s[p];
        }
    }

    /// The order in which the traversal lists pins: a pin that is listed already is not listed
    /// again; otherwise the pins that it is computed from come first, those of its first input
    /// before those of its second.
    pub proof fn law_topo_order(&self, stop: Seq<usize>, ends: Seq<usize>, u: usize)
        requires
            self.wf(),
            u <= self.num_aigpins,
        ensures
            ({
                let before = self.topo(stop, ends);
                let after = self.topo(stop, ends.push(u));
                &&& self.topo(stop, Seq::empty()).len() == 0
                &&& before.contains(u) ==> after == before
                &&& !before.contains(u) ==> match self.drivers@[u as int] {
                    DriverType::AndGate(a, b) if !stop.contains(u) => {
                        let inputs = if a >= 2 && b >= 2 {
                            ends.push((a / 2) as usize).push((b / 2) as usize)
                        } else if a >= 2 {
                            ends.push((a / 2) as usize)
                        } else if b >= 2 {
                            ends.push((b / 2) as usize)
                        } else {
                            ends
                        };
                        after == self.topo(stop, inputs).push(u)
                    },
                    _ => after == before.push(u),
                }
            }),
    {
        let before = self.topo(stop, ends);
        assert(ends.push(u).drop_last() =~= ends);
        assert(self.topo(stop, ends.push(u)) == self.visit(stop, u, before));
        if let DriverType::AndGate(a, b) = self.drivers@[u as int] {
            let x = pin_of(a);
            let y = pin_of(b);
            self.lemma_rank(u);
            assert(ends.push(x).drop_last() =~= ends);
            assert(ends.push(y).drop_last() =~= ends);
            assert(ends.push(x).push(y).drop_last() =~= ends.push(x));
            assert(self.topo(stop, ends.push(x)) == self.visit(stop, x, before));
            assert(self.topo(stop, ends.push(y)) == self.visit(stop, y, before));
            assert(self.topo(stop, ends.push(x).push(y)) == self.visit(
                stop,
                y,
                self.visit(stop, x, before),
            ));
        }
    }
}

/// The pins that an endpoint reads: those of the literals that it takes in and that are not
/// constant.
pub proof fn law_inputs(group: EndpointGroup, x: usize)
    ensures
        group.input_pins().contains(x) <==> match group {
            EndpointGroup::PrimaryOutput(iv) => iv >= 2 && iv / 2 == x,
            EndpointGroup::DFF(dff) => (dff.en_iv >= 2 && dff.en_iv / 2 == x) || (dff.d_iv >= 2
                && dff.d_iv / 2 == x),
            EndpointGroup::RAMBlock(ram) => exists|k: int|
                0 <= k < ram.input_ivs@.len() && #[trigger] ram.input_ivs@[k] >= 2
                    && ram.input_ivs@[k] / 2 == x,
            EndpointGroup::StagedIOPin(pin) => pin >= 1 && pin == x,
        },
{
    let s = group.input_pins();
    match group {
        EndpointGroup::PrimaryOutput(iv) => {
            if iv >= 2 {
                assert(s[0] == pin_of(iv));
            }
        },
        EndpointGroup::DFF(dff) => {
            if dff.en_iv >= 2 {
                assert(s[0] == pin_of(dff.en_iv));
            }
            if dff.d_iv >= 2 {
                assert(s[s.len() - 1] == pin_of(dff.d_iv));
            }
        },
        EndpointGroup::RAMBlock(ram) => {
            lemma_lit_sources(ram.input_ivs@, x);
        },
        EndpointGroup::StagedIOPin(pin) => {
            if pin >= 1 {
                assert(s[0] == pin);
            }
        },
    }
}

/// The literals that an endpoint takes in; a pin that is handed on counts as its literal.
pub open spec fn literals(group: EndpointGroup) -> Seq<usize> {
    match group {
        EndpointGroup::PrimaryOutput(iv) => seq![iv],
        EndpointGroup::DFF(dff) => seq![dff.en_iv, dff.d_iv],
        EndpointGroup::RAMBlock(ram) => ram.input_ivs@,
        EndpointGroup::StagedIOPin(pin) => seq![(2 * pin) as usize],
    }
}

/// The pins that an endpoint reads come in the order of its literals, the enabling one of a
/// flip-flop first.
pub proof fn law_input_order(group: EndpointGroup)
    requires
        group matches EndpointGroup::StagedIOPin(pin) ==> pin < usize::MAX / 2,
    ensures
        group.input_pins() == literals(group).filter(|l: usize| l >= 2).map_values(
            |l: usize| (l / 2) as usize,
        ),
{
    let lits = literals(group);
    lemma_lits_kept(lits);
    match group {
        EndpointGroup::PrimaryOutput(iv) => {
            reveal_with_fuel(lit_sources, 2);
            assert(lits.drop_last() =~= Seq::empty());
            assert(group.input_pins() =~= lit_sources(lits));
        },
        EndpointGroup::DFF(dff) => {
            reveal_with_fuel(lit_sources, 3);
            assert(lits.drop_last() =~= seq![dff.en_iv]);
            assert(lits.drop_last().drop_last() =~= Seq::empty());
            assert(group.input_pins() =~= lit_sources(lits));
        },
        EndpointGroup::RAMBlock(ram) => {},
        EndpointGroup::StagedIOPin(pin) => {
            reveal_with_fuel(lit_sources, 2);
            assert(lits.drop_last() =~= Seq::empty());
            assert(group.input_pins() =~= lit_sources(lits));
        },
    }
}

proof fn lemma_lits_kept(lits: Seq<usize>)
    ensures
        lit_sources(lits) == lits.filter(|l: usize| l >= 2).map_values(
            |l: usize| (l / 2) as usize,
        ),
    decreases lits.len(),
{
    reveal(Seq::filter);
    let keep = |l: usize| l >= 2;
    let half = |l: usize| (l / 2) as usize;
    if lits.len() > 0 {
        let front = lits.drop_last();
        lemma_lits_kept(front);
        let a = front.filter(keep);
        if lits.last() >= 2 {
            assert(a.push(lits.last()).map_values(half) =~= a.map_values(half) + lit_source(
                lits.last(),
            ));
        } else {
            assert(a.map_values(half) + lit_source(lits.last()) =~= a.map_values(half));
        }
    } else {
        assert(lits.filter(keep).map_values(half) =~= Seq::empty());
    }
}

proof fn lemma_lit_sources(lits: Seq<usize>, x: usize)
    ensures
        lit_sources(lits).contains(x) <==> exists|k: int|
            0 <= k < lits.len() && #[trigger] lits[k] >= 2 && lits[k] / 2 == x,
    decreases lits.len(),
{
    if lits.len() > 0 {
        let front = lits.drop_last();
        let n = lits.len() - 1;
        lemma_lit_sources(front, x);
        let a = lit_sources(front);
        let b = lit_source(lits[n]);
        let s = lit_sources(lits);
        assert(s == a + b);
        if a.contains(x) {
            let i = a.index_of(x);
            assert(s[i] == x);
            let k = choose|k: int|
                0 <= k < front.len() && #[trigger] front[k] >= 2 && front[k] / 2 == x;
            assert(lits[k] >= 2);
        }
        if lits[n] >= 2 && lits[n] / 2 == x {
            assert(s[a.len() as int] == x);
        }
        if exists|k: int| 0 <= k < lits.len() && #[trigger] lits[k] >= 2 && lits[k] / 2 == x {
            let k = choose|k: int|
                0 <= k < lits.len() && #[trigger] lits[k] >= 2 && lits[k] / 2 == x;
            if k < n {
                assert(front[k] == lits[k]);
            }
        }
        if s.contains(x) && !a.contains(x) {
            let i = s.index_of(x);
            if i < a.len() {
                assert(a[i] == x);
            }
            assert(b[i - a.len()] == x);
            assert(lits[n] >= 2);
        }
    }
}

/// The pins on paths to the pins that endpoints read.
pub open spec fn cone_pins(aig: &AIG, staged: &StagedAIG, eps: Seq<usize>) -> Set<usize> {
    Set::new(
        |x: usize|
            exists|path: Seq<usize>| #[trigger]
                aig.is_path(opt_elems(staged.primary_inputs), path) && path[0] == x && reads(
                    aig,
                    staged,
                    eps,
                    path.last(),
                ),
    )
}

/// Whether one of the endpoints `eps` reads a pin.
pub open spec fn reads(aig: &AIG, staged: &StagedAIG, eps: Seq<usize>, x: usize) -> bool {
    exists|k: int|
        0 <= k < eps.len() && staged.group(aig, #[trigger] eps[k] as int).input_pins().contains(x)
}

proof fn lemma_all_pins_read(aig: &AIG, staged: &StagedAIG, eps: Seq<usize>, x: usize)
    ensures
        all_pins(aig, staged, eps).contains(x) == reads(aig, staged, eps, x),
    decreases eps.len(),
{
    let all = all_pins(aig, staged, eps);
    if eps.len() > 0 {
        let front = eps.drop_last();
        let n = eps.len() - 1;
        lemma_all_pins_read(aig, staged, front, x);
        let a = all_pins(aig, staged, front);
        let b = staged.group(aig, eps[n] as int).input_pins();
        assert(all == a + b);
        if a.contains(x) {
            let i = a.index_of(x);
            assert(all[i] == x);
            let k = choose|k: int|
                0 <= k < front.len() && staged.group(
                    aig,
                    #[trigger] front[k] as int,
                ).input_pins().contains(x);
            assert(staged.group(aig, eps[k] as int).input_pins().contains(x));
        }
        if b.contains(x) {
            let i = b.index_of(x);
            assert(all[a.len() + i] == x);
        }
        if all.contains(x) && !a.contains(x) {
            let i = all.index_of(x);
            if i < a.len() {
                assert(a[i] == x);
            }
            assert(b[i - a.len()] == x);
        }
        if reads(aig, staged, eps, x) {
            let k = choose|k: int|
                0 <= k < eps.len() && staged.group(
                    aig,
                    #[trigger] eps[k] as int,
                ).input_pins().contains(x);
            if k < n {
                assert(staged.group(aig, front[k] as int).input_pins().contains(x));
            }
        }
    }
}

/// The size of a part is the number of pins on paths to the pins that its endpoints read.
pub proof fn law_cone_size(aig: &AIG, staged: &StagedAIG, eps: Seq<usize>)
    requires
        staged.wf(aig),
        forall|k: int| 0 <= k < eps.len() ==> (#[trigger] eps[k]) < staged.group_count(),
    ensures
        cone_pins(aig, staged, eps).finite(),
        cone_size(aig, staged, eps) == cone_pins(aig, staged, eps).len(),
{
    let stop = opt_elems(staged.primary_inputs);
    let all = all_pins(aig, staged, eps);
    let s = aig.topo(stop, all);
    lemma_all_pins_bound(aig, staged, eps);
    aig.law_topo(stop, all);
    s.unique_seq_to_set();
    let set = cone_pins(aig, staged, eps);
    assert forall|x: usize| #[trigger] s.to_set().contains(x) <==> set.contains(x) by {
        if s.contains(x) {
            let path = choose|path: Seq<usize>| #[trigger]
                aig.is_path(stop, path) && path[0] == x && all.contains(path.last());
            lemma_all_pins_read(aig, staged, eps, path.last());
        }
        if set.contains(x) {
            let path = choose|path: Seq<usize>| #[trigger]
                aig.is_path(stop, path) && path[0] == x && reads(aig, staged, eps, path.last());
            lemma_all_pins_read(aig, staged, eps, path.last());
            assert(aig.leads_to(stop, x, all));
        }
    }
    assert(s.to_set() =~= set);
}

} // verus!
