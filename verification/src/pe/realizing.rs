//! How the stages of a partition follow each other.
use crate::aig::{DriverType, AIG};
use crate::index_order::{law_inserted_order, occurs_before};
use crate::index_set::{lemma_inserted_all, opt_elems};
use crate::pe::hier::Cone;
use crate::pe::partition::{mappable, read_pins, Progress, Realization};
use crate::staging::StagedAIG;
use vstd::prelude::*;

verus! {

impl Realization {
    /// Whether `q` follows `p`: something remains to be realized, and a stage can be built for it,
    /// which is the next one; what it leaves remains, and what it computes is available.
    pub open spec fn follows(self, p: Progress, q: Progress) -> bool {
        let c = Cone { aig: self.aig, outs: p.outs, avail: p.avail };
        let r = c.build(self.stages as nat, self.reserved, p.total);
        &&& p.outs.len() > 0
        &&& r.stage is Some
        &&& q.outs == r.outs
        &&& q.avail == r.avail
        &&& q.total == r.total
        &&& q.stages.len() == p.stages.len() + 1
        &&& q.stages.drop_last() == p.stages
        &&& q.stages.last() == r.stage.unwrap()
    }

    /// Whether no stage can be built although something remains to be realized.
    pub open spec fn fails_at(self, p: Progress) -> bool {
        let c = Cone { aig: self.aig, outs: p.outs, avail: p.avail };
        p.outs.len() > 0 && c.build(self.stages as nat, self.reserved, p.total).stage is None
    }

    /// Whether states follow each other from the start on.
    pub open spec fn is_course(self, ps: Seq<Progress>) -> bool {
        &&& ps.len() > 0
        &&& ps[0] == self.start
        &&& forall|t: int| 0 < t < ps.len() ==> #[trigger] self.follows(ps[t - 1], ps[t])
    }

    proof fn lemma_course(self, k: nat) -> (ps: Seq<Progress>)
        requires
            self.after(k) is Some,
        ensures
            self.is_course(ps),
            ps.last() == self.after(k).unwrap(),
        decreases k,
    {
        if k == 0 {
            seq![self.start]
        } else {
            let less = self.lemma_course((k - 1) as nat);
            let p = less.last();
            let q = self.after(k).unwrap();
            let ps = less.push(q);
            assert(q.stages.drop_last() =~= p.stages);
            assert forall|t: int| 0 < t < ps.len() implies #[trigger] self.follows(
                ps[t - 1],
                ps[t],
            ) by {
                if t < less.len() {
                    assert(self.follows(less[t - 1], less[t]));
                }
            }
            ps
        }
    }

    proof fn lemma_after_course(self, ps: Seq<Progress>, k: nat)
        requires
            self.is_course(ps),
            k < ps.len(),
        ensures
            self.after(k) == Some(ps[k as int]),
        decreases k,
    {
        if k > 0 {
            self.lemma_after_course(ps, (k - 1) as nat);
            let p = ps[k - 1];
            let q = ps[k as int];
            assert(self.follows(ps[k - 1], ps[k as int]));
            let m = self.cone(p).build(self.stages as nat, self.reserved, p.total).stage.unwrap();
            assert(q.stages =~= p.stages.push(m));
        }
    }

    /// The stages of a partition are those of states that follow each other until nothing remains
    /// to be realized. There is no partition if and only if there are no such states; if the
    /// realization comes to an end then, it is at a state for which no stage can be built.
    pub proof fn law_result(self) -> (ps: Seq<Progress>)
        requires
            self.wf(),
        ensures
            match self.result() {
                Some(stages) => {
                    &&& self.is_course(ps)
                    &&& ps.last().outs.len() == 0
                    &&& ps.last().stages == stages
                },
                None => {
                    &&& self.settles() ==> self.is_course(ps) && self.fails_at(ps.last())
                    &&& forall|qs: Seq<Progress>| #[trigger]
                        self.is_course(qs) ==> qs.last().outs.len() > 0
                },
            },
    {
        if exists|k: nat| self.finished(k) {
            let k = choose|k: nat| self.finished(k);
            self.lemma_course(k)
        } else {
            assert forall|qs: Seq<Progress>| #[trigger] self.is_course(qs) implies qs.last().outs.len()
                > 0 by {
                let k = (qs.len() - 1) as nat;
                self.lemma_after_course(qs, k);
                assert(!self.finished(k));
            }
            if self.settles() {
                let k = choose|k: nat| self.ended(k);
                self.lemma_course(k)
            } else {
                Seq::empty()
            }
        }
    }
}

/// An endpoint can be mapped by itself exactly if it exists, and every gate with a constant input
/// that is on a path to a pin that it reads has no gate before it.
pub proof fn law_mappable(aig: &AIG, staged: &StagedAIG, e: usize)
    requires
        staged.wf(aig),
    ensures
        mappable(aig, staged, e) <==> {
            let stop = opt_elems(staged.primary_inputs);
            let pins = staged.group(aig, e as int).input_pins();
            &&& e < staged.group_count()
            &&& forall|v: usize| #[trigger]
                aig.leads_to(stop, v, pins) && half_constant(aig, v) ==> aig.depth(stop, v) <= 1
        },
{
    let stop = opt_elems(staged.primary_inputs);
    let pins = staged.group(aig, e as int).input_pins();
    if e < staged.group_count() {
        staged.lemma_group_inputs(aig, e as int);
        let s = aig.topo(stop, pins);
        aig.law_topo(stop, pins);
        if mappable(aig, staged, e) {
            assert forall|v: usize| #[trigger]
                aig.leads_to(stop, v, pins) && half_constant(aig, v) implies aig.depth(stop, v)
                <= 1 by {
                assert(s.contains(v));
                let p = s.index_of(v);
                assert(s[p] == v);
            }
        }
        if forall|v: usize| #[trigger]
            aig.leads_to(stop, v, pins) && half_constant(aig, v) ==> aig.depth(stop, v) <= 1 {
            assert forall|p: int| 0 <= p < s.len() implies match aig.drivers@[#[trigger] s[p] as int] {
                DriverType::AndGate(a, b) => a < 2 || b < 2 ==> aig.depth(stop, s[p]) <= 1,
                _ => true,
            } by {
                assert(s.contains(s[p]));
                assert(aig.leads_to(stop, s[p], pins));
            }
        }
    }
}

/// Whether a pin is a gate with a constant input.
pub open spec fn half_constant(aig: &AIG, v: usize) -> bool {
    match aig.drivers@[v as int] {
        DriverType::AndGate(a, b) => a < 2 || b < 2,
        _ => false,
    }
}

/// The pins that one more endpoint reads follow those that others read, in the order in which it
/// reads them first.
pub proof fn law_read_last(aig: &AIG, staged: &StagedAIG, eps: Seq<usize>, e: usize)
    ensures
        ({
            let before = read_pins(aig, staged, eps);
            let after = read_pins(aig, staged, eps.push(e));
            let pins = staged.group(aig, e as int).input_pins();
            &&& before.is_prefix_of(after)
            &&& forall|i: int, j: int|
                before.len() <= i < j < after.len() ==> occurs_before(
                    pins,
                    #[trigger] after[i],
                    #[trigger] after[j],
                )
        }),
{
    assert(eps.push(e).drop_last() =~= eps);
    law_inserted_order(
        read_pins(aig, staged, eps),
        staged.group(aig, e as int).input_pins(),
    );
}

/// The pins that endpoints read come in the order of the endpoints: those of the first `k` of them
/// come first.
pub proof fn law_read_order(aig: &AIG, staged: &StagedAIG, eps: Seq<usize>, k: int)
    requires
        0 <= k <= eps.len(),
    ensures
        read_pins(aig, staged, eps.take(k)).is_prefix_of(read_pins(aig, staged, eps)),
    decreases eps.len(),
{
    if k == eps.len() {
        assert(eps.take(k) =~= eps);
    } else {
        let front = eps.drop_last();
        assert(eps.take(k) =~= front.take(k));
        law_read_order(aig, staged, front, k);
        lemma_inserted_all(
            read_pins(aig, staged, front),
            staged.group(aig, eps.last() as int).input_pins(),
        );
    }
}

} // verus!
