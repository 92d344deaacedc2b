//! What endpoints need besides the pins that they read.
use crate::aig::{pin_of, EndpointGroup, AIG};
use crate::index_set::{
    entries_filled, entry_added, entry_dups, entry_index, entry_total, inserted, lemma_inserted,
    opt_elems,
};
use crate::pe::partition::{
    activations, built, lemma_read_pins, output_dups, realization, sram_count,
};
use crate::staging::StagedAIG;
use vstd::arithmetic::power2::pow2;
use vstd::prelude::*;

verus! {

/// How an endpoint stores a pin: the pin, the literal that has to be true for the pin to be
/// stored, and whether the pin is inverted. A memory block stores none in this way; outputs
/// are stored in any case.
pub open spec fn stores(group: EndpointGroup) -> Option<(usize, usize, bool)> {
    match group {
        EndpointGroup::DFF(dff) => Some((pin_of(dff.d_iv), dff.en_iv, dff.d_iv % 2 == 1)),
        EndpointGroup::PrimaryOutput(iv) => Some((pin_of(iv), 1, iv % 2 == 1)),
        EndpointGroup::StagedIOPin(pin) => Some((pin, 1, false)),
        EndpointGroup::RAMBlock(_) => None,
    }
}

/// The different ways in which the endpoints `eps` store pins.
pub open spec fn ways_stored(aig: &AIG, staged: &StagedAIG, eps: Seq<usize>) -> Set<
    (usize, usize, bool),
> {
    Set::new(
        |t: (usize, usize, bool)|
            exists|k: int|
                0 <= k < eps.len() && stores(staged.group(aig, #[trigger] eps[k] as int)) == Some(t),
    )
}

/// The different pins that the endpoints `eps` store.
pub open spec fn pins_stored(aig: &AIG, staged: &StagedAIG, eps: Seq<usize>) -> Set<usize> {
    Set::new(
        |p: usize|
            exists|k: int|
                0 <= k < eps.len() && (stores(
                    staged.group(aig, #[trigger] eps[k] as int),
                ) matches Some(t) && t.0 == p),
    )
}

/// The places of `eps` at which there is a memory block.
pub open spec fn ram_places(aig: &AIG, staged: &StagedAIG, eps: Seq<usize>) -> Set<int> {
    Set::new(|k: int| 0 <= k < eps.len() && staged.group(aig, eps[k] as int) is RAMBlock)
}

/// Whether a pin has an entry.
spec fn listed(es: Seq<(usize, Seq<usize>)>, pin: usize) -> bool {
    exists|i: int| 0 <= i < es.len() && #[trigger] es[i].0 == pin
}

/// Whether a pin has an activation.
spec fn holds(es: Seq<(usize, Seq<usize>)>, pin: usize, act: usize) -> bool {
    exists|i: int| 0 <= i < es.len() && #[trigger] es[i].0 == pin && es[i].1.contains(act)
}

/// Whether the pins of entries are distinct, and the activations of each.
spec fn tidy(es: Seq<(usize, Seq<usize>)>) -> bool {
    &&& forall|i: int, j: int|
        0 <= i < es.len() && 0 <= j < es.len() && #[trigger] es[i].0 == #[trigger] es[j].0 ==> i == j
    &&& forall|i: int| 0 <= i < es.len() ==> (#[trigger] es[i]).1.no_duplicates()
    &&& entries_filled(es)
}

proof fn lemma_total_updated(es: Seq<(usize, Seq<usize>)>, i: int, e: (usize, Seq<usize>))
    requires
        0 <= i < es.len(),
    ensures
        entry_total(es.update(i, e)) + es[i].1.len() == entry_total(es) + e.1.len(),
    decreases es.len(),
{
    let t = es.update(i, e);
    if i == es.len() - 1 {
        assert(t.drop_last() =~= es.drop_last());
    } else {
        lemma_total_updated(es.drop_last(), i, e);
        assert(t.drop_last() =~= es.drop_last().update(i, e));
    }
}

proof fn lemma_added(es: Seq<(usize, Seq<usize>)>, pin: usize, act: usize)
    requires
        tidy(es),
    ensures
        ({
            let t = entry_added(es, pin, act);
            &&& tidy(t)
            &&& forall|p: usize, a: usize| #[trigger]
                holds(t, p, a) <==> holds(es, p, a) || (p == pin && a == act)
            &&& entry_total(t) == entry_total(es) + if holds(es, pin, act) {
                0nat
            } else {
                1nat
            }
            &&& t.len() == es.len() + if listed(es, pin) {
                0nat
            } else {
                1nat
            }
            &&& forall|p: usize| #[trigger] listed(t, p) <==> listed(es, p) || p == pin
        }),
{
    let t = entry_added(es, pin, act);
    if listed(es, pin) {
        let i = entry_index(es, pin);
        assert(0 <= i < es.len() && es[i].0 == pin);
        let s = es[i].1;
        lemma_inserted(s, act);
        lemma_total_updated(es, i, (pin, inserted(s, act)));
        assert(t == es.update(i, (pin, inserted(s, act))));
        assert(holds(es, pin, act) == s.contains(act)) by {
            if holds(es, pin, act) {
                let j = choose|j: int|
                    0 <= j < es.len() && #[trigger] es[j].0 == pin && es[j].1.contains(act);
                assert(es[i].0 == es[j].0);
            }
        }
        assert forall|p: usize, a: usize| #[trigger] holds(t, p, a) <==> holds(es, p, a) || (p == pin
            && a == act) by {
            if holds(es, p, a) {
                let j = choose|j: int|
                    0 <= j < es.len() && #[trigger] es[j].0 == p && es[j].1.contains(a);
                assert(t[j].0 == p && t[j].1.contains(a));
            }
            if p == pin && a == act {
                assert(t[i].0 == p && t[i].1.contains(a));
            }
            if holds(t, p, a) {
                let j = choose|j: int|
                    0 <= j < t.len() && #[trigger] t[j].0 == p && t[j].1.contains(a);
                assert(es[j].0 == p);
            }
        }
        assert forall|p: usize| #[trigger] listed(t, p) <==> listed(es, p) || p == pin by {
            if listed(es, p) {
                let j = choose|j: int| 0 <= j < es.len() && #[trigger] es[j].0 == p;
                assert(t[j].0 == p);
            }
            if listed(t, p) {
                let j = choose|j: int| 0 <= j < t.len() && #[trigger] t[j].0 == p;
                assert(es[j].0 == p);
            }
        }
        assert forall|j: int| 0 <= j < t.len() implies (#[trigger] t[j]).1.no_duplicates() && t[j].1.len()
            >= 1 by {
            assert(es[j].1.no_duplicates());
        }
    } else {
        assert(t == es.push((pin, seq![act])));
        assert(t.drop_last() =~= es);
        let n = es.len() as int;
        assert(t[n] == (pin, seq![act]));
        assert(seq![act].contains(act)) by {
            assert(seq![act][0] == act);
        }
        assert(t.last().1.len() == 1);
        assert forall|p: usize, a: usize| #[trigger] holds(t, p, a) <==> holds(es, p, a) || (p == pin
            && a == act) by {
            if holds(es, p, a) {
                let j = choose|j: int|
                    0 <= j < es.len() && #[trigger] es[j].0 == p && es[j].1.contains(a);
                assert(t[j].0 == p && t[j].1.contains(a));
            }
            if p == pin && a == act {
                assert(t[n].0 == p && t[n].1.contains(a));
            }
            if holds(t, p, a) {
                let j = choose|j: int|
                    0 <= j < t.len() && #[trigger] t[j].0 == p && t[j].1.contains(a);
                if j < n {
                    assert(es[j].0 == p);
                }
            }
        }
        assert forall|p: usize| #[trigger] listed(t, p) <==> listed(es, p) || p == pin by {
            if listed(es, p) {
                let j = choose|j: int| 0 <= j < es.len() && #[trigger] es[j].0 == p;
                assert(t[j].0 == p);
            }
            if p == pin {
                assert(t[n].0 == p);
            }
            if listed(t, p) {
                let j = choose|j: int| 0 <= j < t.len() && #[trigger] t[j].0 == p;
                if j < n {
                    assert(es[j].0 == p);
                }
            }
        }
        assert forall|i: int, j: int|
            0 <= i < t.len() && 0 <= j < t.len() && #[trigger] t[i].0 == #[trigger] t[j].0 implies i
            == j by {
            if i < n && j < n {
                assert(es[i].0 == es[j].0);
            } else if i < n {
                assert(es[i].0 == pin);
            } else if j < n {
                assert(es[j].0 == pin);
            }
        }
        assert forall|j: int| 0 <= j < t.len() implies (#[trigger] t[j]).1.no_duplicates() && t[j].1.len()
            >= 1 by {
            if j < n {
                assert(t[j] == es[j]);
            }
        }
    }
}

proof fn lemma_dups(es: Seq<(usize, Seq<usize>)>)
    requires
        entries_filled(es),
    ensures
        entry_dups(es) + es.len() == entry_total(es),
    decreases es.len(),
{
    if es.len() > 0 {
        assert(es[es.len() - 1].1.len() >= 1);
        assert forall|i: int| 0 <= i < es.drop_last().len() implies (
        #[trigger] es.drop_last()[i]).1.len() >= 1 by {
            assert(es[i].1.len() >= 1);
        }
        lemma_dups(es.drop_last());
    }
}

/// The number by which a way of storing a pin is known.
spec fn act_of(t: (usize, usize, bool)) -> usize {
    (t.1 * 2 + if t.2 {
        1int
    } else {
        0
    }) as usize
}

proof fn lemma_ways(aig: &AIG, staged: &StagedAIG, eps: Seq<usize>)
    requires
        staged.wf(aig),
        forall|k: int| 0 <= k < eps.len() ==> (#[trigger] eps[k]) < staged.group_count(),
    ensures
        ({
            let es = activations(aig, staged, eps);
            let ways = ways_stored(aig, staged, eps);
            let pins = pins_stored(aig, staged, eps);
            &&& tidy(es)
            &&& ways.finite()
            &&& pins.finite()
            &&& ways.len() == entry_total(es)
            &&& pins.len() == es.len()
            &&& forall|t: (usize, usize, bool)| #[trigger]
                ways.contains(t) ==> t.1 < usize::MAX / 2 && holds(es, t.0, act_of(t))
            &&& forall|p: usize, a: usize| #[trigger]
                holds(es, p, a) ==> exists|t: (usize, usize, bool)| #[trigger]
                    ways.contains(t) && t.0 == p && act_of(t) == a
            &&& forall|p: usize| #[trigger] listed(es, p) <==> pins.contains(p)
        }),
    decreases eps.len(),
{
    let es = activations(aig, staged, eps);
    let ways = ways_stored(aig, staged, eps);
    let pins = pins_stored(aig, staged, eps);
    if eps.len() == 0 {
        assert(ways =~= Set::empty());
        assert(pins =~= Set::empty());
    } else {
        let front = eps.drop_last();
        let n = eps.len() - 1;
        assert forall|k: int| 0 <= k < front.len() implies (#[trigger] front[k])
            < staged.group_count() by {
            assert(eps[k] == front[k]);
        }
        lemma_ways(aig, staged, front);
        let was = activations(aig, staged, front);
        let ways0 = ways_stored(aig, staged, front);
        let pins0 = pins_stored(aig, staged, front);
        assert(eps[n] < staged.group_count());
        let group = staged.group(aig, eps[n] as int);
        staged.lemma_group_lits(aig, eps[n] as int);
        match stores(group) {
            None => {
                assert(ways =~= ways0) by {
                    lemma_ways_step(aig, staged, eps);
                }
                assert(pins =~= pins0) by {
                    lemma_ways_step(aig, staged, eps);
                }
            },
            Some(w) => {
                lemma_ways_step(aig, staged, eps);
                assert(ways =~= ways0.insert(w));
                assert(pins =~= pins0.insert(w.0));
                let act = act_of(w);
                assert(w.1 < usize::MAX / 2);
                assert(es == entry_added(was, w.0, act));
                lemma_added(was, w.0, act);
                assert(holds(was, w.0, act) == ways0.contains(w)) by {
                    if holds(was, w.0, act) {
                        let t = choose|t: (usize, usize, bool)| #[trigger]
                            ways0.contains(t) && t.0 == w.0 && act_of(t) == act;
                        assert(t == w);
                    }
                }
                assert forall|t: (usize, usize, bool)| #[trigger] ways.contains(t) implies t.1
                    < usize::MAX / 2 && holds(es, t.0, act_of(t)) by {
                    if t != w {
                        assert(ways0.contains(t));
                    }
                }
                assert forall|p: usize, a: usize| #[trigger] holds(es, p, a) implies exists|
                    t: (usize, usize, bool),
                | #[trigger] ways.contains(t) && t.0 == p && act_of(t) == a by {
                    if holds(was, p, a) {
                        let t = choose|t: (usize, usize, bool)| #[trigger]
                            ways0.contains(t) && t.0 == p && act_of(t) == a;
                        assert(ways.contains(t));
                    } else {
                        assert(ways.contains(w));
                    }
                }
            },
        }
    }
}

/// One more endpoint stores one more pin, unless it is a memory block.
proof fn lemma_ways_step(aig: &AIG, staged: &StagedAIG, eps: Seq<usize>)
    requires
        eps.len() > 0,
    ensures
        ({
            let front = eps.drop_last();
            let last = stores(staged.group(aig, eps.last() as int));
            &&& forall|t: (usize, usize, bool)| #[trigger]
                ways_stored(aig, staged, eps).contains(t) <==> ways_stored(
                    aig,
                    staged,
                    front,
                ).contains(t) || last == Some(t)
            &&& forall|p: usize| #[trigger]
                pins_stored(aig, staged, eps).contains(p) <==> pins_stored(
                    aig,
                    staged,
                    front,
                ).contains(p) || (last is Some && last.unwrap().0 == p)
        }),
{
    let front = eps.drop_last();
    let n = eps.len() - 1;
    let last = stores(staged.group(aig, eps.last() as int));
    assert(eps[n] == eps.last());
    assert forall|t: (usize, usize, bool)| #[trigger]
        ways_stored(aig, staged, eps).contains(t) <==> ways_stored(aig, staged, front).contains(t)
            || last == Some(t) by {
        if ways_stored(aig, staged, front).contains(t) {
            let k = choose|k: int|
                0 <= k < front.len() && stores(staged.group(aig, #[trigger] front[k] as int))
                    == Some(t);
            assert(stores(staged.group(aig, eps[k] as int)) == Some(t));
        }
        if last == Some(t) {
            assert(stores(staged.group(aig, eps[n] as int)) == Some(t));
        }
        if ways_stored(aig, staged, eps).contains(t) && last != Some(t) {
            let k = choose|k: int|
                0 <= k < eps.len() && stores(staged.group(aig, #[trigger] eps[k] as int)) == Some(t);
            assert(stores(staged.group(aig, front[k] as int)) == Some(t));
        }
    }
    assert forall|p: usize| #[trigger]
        pins_stored(aig, staged, eps).contains(p) <==> pins_stored(aig, staged, front).contains(p)
            || (last is Some && last.unwrap().0 == p) by {
        if pins_stored(aig, staged, front).contains(p) {
            let k = choose|k: int|
                0 <= k < front.len() && (stores(
                    staged.group(aig, #[trigger] front[k] as int),
                ) matches Some(t) && t.0 == p);
            assert(stores(staged.group(aig, eps[k] as int)) is Some);
        }
        if last is Some && last.unwrap().0 == p {
            assert(stores(staged.group(aig, eps[n] as int)) is Some);
        }
        if pins_stored(aig, staged, eps).contains(p) && !(last is Some && last.unwrap().0 == p) {
            let k = choose|k: int|
                0 <= k < eps.len() && (stores(
                    staged.group(aig, #[trigger] eps[k] as int),
                ) matches Some(t) && t.0 == p);
            assert(stores(staged.group(aig, front[k] as int)) is Some);
        }
    }
}

/// The pins that have to be stored once more: as many as there are ways in which pins are
/// stored beyond one for each pin. A way is a pin, the condition under which it is stored,
/// and whether it is inverted.
pub proof fn law_output_dups(aig: &AIG, staged: &StagedAIG, eps: Seq<usize>)
    requires
        staged.wf(aig),
        forall|k: int| 0 <= k < eps.len() ==> (#[trigger] eps[k]) < staged.group_count(),
    ensures
        ways_stored(aig, staged, eps).finite(),
        pins_stored(aig, staged, eps).finite(),
        output_dups(aig, staged, eps) + pins_stored(aig, staged, eps).len() == ways_stored(
            aig,
            staged,
            eps,
        ).len(),
{
    lemma_ways(aig, staged, eps);
    lemma_dups(activations(aig, staged, eps));
}

/// The memory blocks among endpoints are those at the places that hold one.
pub proof fn law_sram_count(aig: &AIG, staged: &StagedAIG, eps: Seq<usize>)
    ensures
        ram_places(aig, staged, eps).finite(),
        sram_count(aig, staged, eps) == ram_places(aig, staged, eps).len(),
    decreases eps.len(),
{
    let all = ram_places(aig, staged, eps);
    if eps.len() == 0 {
        assert(all =~= Set::empty());
    } else {
        let front = eps.drop_last();
        let n = eps.len() - 1;
        law_sram_count(aig, staged, front);
        let before = ram_places(aig, staged, front);
        if staged.group(aig, eps.last() as int) is RAMBlock {
            assert(all =~= before.insert(n));
        } else {
            assert(all =~= before);
        }
    }
}

/// What endpoints are given before the first stage. They start with the pins that one of
/// them reads, each once, and count as words written out those that they need besides:
/// four for each memory block, one for each way of storing a pin beyond one for each pin,
/// and the words that are reserved, namely one for each memory block and as many as those
/// ways fill, 32 to a word.
///
/// There is no partition if the reserved words reach the limit, or if the words for memory
/// blocks and for pins that are stored once more exceed it.
pub proof fn law_demand(aig: &AIG, staged: &StagedAIG, eps: Seq<usize>, num_stages: usize)
    requires
        staged.wf(aig),
        num_stages >= 5,
        forall|k: int| 0 <= k < eps.len() ==> (#[trigger] eps[k]) < staged.group_count(),
    ensures
        ({
            let rams = ram_places(aig, staged, eps).len() as int;
            let extra = ways_stored(aig, staged, eps).len() - pins_stored(aig, staged, eps).len();
            let words = if extra % 32 == 0 {
                extra / 32
            } else {
                extra / 32 + 1
            };
            let limit = pow2((num_stages - 5) as nat);
            let r = realization(aig, staged, eps, num_stages);
            &&& r.stages == num_stages
            &&& r.aig == *aig
            &&& r.reserved == rams + words
            &&& r.start.total == rams + words + 4 * rams + extra
            &&& r.start.stages.len() == 0
            &&& r.start.outs.no_duplicates()
            &&& forall|x: usize| #[trigger]
                r.start.outs.contains(x) <==> exists|k: int|
                    0 <= k < eps.len() && staged.group(
                        aig,
                        #[trigger] eps[k] as int,
                    ).input_pins().contains(x)
            &&& r.start.avail == opt_elems(staged.primary_inputs)
            &&& built(aig, staged, eps, num_stages) matches Some(m) ==> m.endpoints == eps
                && r.result() == Some(m.stages)
            &&& rams + words >= limit ==> built(aig, staged, eps, num_stages) is None
            &&& 4 * rams + extra > limit ==> built(aig, staged, eps, num_stages) is None
            &&& rams + words < limit && 4 * rams + extra <= limit ==> (built(
                aig,
                staged,
                eps,
                num_stages,
            ) is Some) == (r.result() is Some)
        }),
{
    law_output_dups(aig, staged, eps);
    law_sram_count(aig, staged, eps);
    lemma_read_pins(aig, staged, eps);
}

} // verus!
