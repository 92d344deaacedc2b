//! Cutting a stage into parts that can be mapped.
//!
//! The endpoints are partitioned by an outside partitioner. Only those of parts that
//! cannot be mapped are partitioned again, into smaller parts.
use crate::aig::AIG;
use crate::parallel::par_map;
use crate::pe::hier::rows;
use crate::pe::merge::in_parts;
use crate::pe::partition::{buildable, built, mappable, settled};
use crate::pe::plan::stages_fit;
use crate::pe::{part_ok, Partition};
use crate::sorting::{lemma_sorted_numbers, sort_numbers, sorted_numbers};
use crate::staging::StagedAIG;
use vstd::prelude::*;

verus! {

/// Twice the number of endpoints that a part has in the first round.
pub const FIRST_DIVISION: usize = 600;

/// The positions among the first `k` of a list that hold `p`.
pub open spec fn positions(ids: Seq<usize>, p: usize, k: int) -> Seq<usize>
    decreases k,
{
    if k <= 0 {
        Seq::empty()
    } else if ids[k - 1] == p {
        positions(ids, p, k - 1).push((k - 1) as usize)
    } else {
        positions(ids, p, k - 1)
    }
}

/// The vertices of each part. A single part holds all of them.
pub open spec fn grouped(num_vertices: usize, num_parts: usize, ids: Seq<usize>) -> Seq<
    Seq<usize>,
> {
    if num_parts == 1 {
        seq![Seq::new(num_vertices as nat, |i: int| i as usize)]
    } else {
        Seq::new(num_parts as nat, |p: int| positions(ids, p as usize, ids.len() as int))
    }
}

/// Groups vertices by the numbers that the partitioner has given them. With one part
/// the partitioner is not asked, and `parts_ids` is not looked at.
pub fn run_par(num_vertices: usize, num_parts: usize, parts_ids: &Vec<usize>) -> (parts: Vec<
    Vec<usize>,
>)
    requires
        num_parts == 1 || forall|i: int|
            0 <= i < parts_ids@.len() ==> #[trigger] parts_ids@[i] < num_parts,
    ensures
        rows(parts@) == grouped(num_vertices, num_parts, parts_ids@),
{
    let mut parts: Vec<Vec<usize>> = Vec::new();
    if num_parts == 1 {
        let mut all: Vec<usize> = Vec::new();
        let mut i: usize = 0;
        while i < num_vertices
            invariant
                i <= num_vertices,
                all@ == Seq::new(i as nat, |k: int| k as usize),
            decreases num_vertices - i,
        {
            all.push(i);
            assert(all@ =~= Seq::new((i + 1) as nat, |k: int| k as usize));
            i += 1;
        }
        parts.push(all);
        assert(rows(parts@) =~= grouped(num_vertices, num_parts, parts_ids@));
        return parts;
    }
    let mut p: usize = 0;
    while p < num_parts
        invariant
            p <= num_parts,
            parts@.len() == p,
            forall|q: int| 0 <= q < p ==> (#[trigger] parts@[q])@ == Seq::<usize>::empty(),
        decreases num_parts - p,
    {
        parts.push(Vec::new());
        p += 1;
    }
    let mut k: usize = 0;
    while k < parts_ids.len()
        invariant
            k <= parts_ids@.len(),
            parts@.len() == num_parts,
            forall|i: int| 0 <= i < parts_ids@.len() ==> #[trigger] parts_ids@[i] < num_parts,
            forall|q: int|
                0 <= q < num_parts ==> (#[trigger] parts@[q])@ == positions(
                    parts_ids@,
                    q as usize,
                    k as int,
                ),
        decreases parts_ids@.len() - k,
    {
        let id = parts_ids[k];
        assert(parts_ids@[k as int] < num_parts);
        let ghost before = parts@;
        parts[id].push(k);
        assert forall|q: int| 0 <= q < num_parts implies (#[trigger] parts@[q])@ == positions(
            parts_ids@,
            q as usize,
            k + 1,
        ) by {
            assert(before[q]@ == positions(parts_ids@, q as usize, k as int));
            if q != id {
                assert(parts@[q] == before[q]);
            }
        }
        k += 1;
    }
    assert(rows(parts@) =~= grouped(num_vertices, num_parts, parts_ids@));
    parts
}

/// What is listed holds the number that is looked for.
proof fn lemma_positions(ids: Seq<usize>, p: usize, k: int)
    requires
        k <= ids.len() <= usize::MAX,
    ensures
        positions(ids, p, k).no_duplicates(),
        forall|i: usize| #[trigger]
            positions(ids, p, k).contains(i) <==> i < k && ids[i as int] == p,
    decreases k,
{
    if k > 0 {
        lemma_positions(ids, p, k - 1);
        let s = positions(ids, p, k - 1);
        let t = positions(ids, p, k);
        assert(!s.contains((k - 1) as usize));
        assert forall|a: int, b: int| 0 <= a < b < t.len() implies t[a] != t[b] by {
            if b == s.len() {
                assert(s.contains(s[a]));
            }
        }
        assert forall|i: usize| #[trigger] t.contains(i) <==> i < k && ids[i as int] == p by {
            if s.contains(i) {
                let j = s.index_of(i);
                assert(t[j] == i);
            }
            if i == k - 1 && ids[k - 1] == p {
                assert(t[s.len() as int] == i);
            }
            if t.contains(i) {
                let j = t.index_of(i);
                if j < s.len() {
                    assert(s[j] == i);
                    assert(s.contains(i));
                }
            }
        }
    }
}

/// Grouping puts each vertex into exactly one part, the one that it has the number of,
/// once.
pub proof fn law_grouped(num_vertices: usize, num_parts: usize, ids: Seq<usize>)
    requires
        ids.len() == num_vertices,
        num_parts != 1,
    ensures
        forall|p: int|
            0 <= p < num_parts ==> (#[trigger] grouped(
                num_vertices,
                num_parts,
                ids,
            )[p]).no_duplicates(),
        forall|p: int, i: usize|
            0 <= p < num_parts ==> (#[trigger] grouped(num_vertices, num_parts, ids)[p].contains(i)
                <==> i < num_vertices && ids[i as int] == p),
{
    let parts = grouped(num_vertices, num_parts, ids);
    assert forall|p: int| 0 <= p < num_parts implies (#[trigger] parts[p]).no_duplicates() by {
        lemma_positions(ids, p as usize, ids.len() as int);
    }
    assert forall|p: int, i: usize| 0 <= p < num_parts implies (#[trigger] parts[p].contains(i)
        <==> i < num_vertices && ids[i as int] == p) by {
        lemma_positions(ids, p as usize, ids.len() as int);
    }
}

/// How far cutting has got.
pub struct CutModel {
    /// The parts that can be mapped.
    pub good: Seq<Seq<usize>>,
    /// The endpoints of parts that cannot.
    pub left: Seq<usize>,
    pub division: nat,
}

/// The endpoints that the indices of a part stand for.
pub open spec fn translated(left: Seq<usize>, part: Seq<usize>) -> Seq<usize> {
    Seq::new(part.len(), |i: int| left[part[i] as int])
}

/// A stage that is being cut.
pub struct Cutting {
    pub aig: AIG,
    pub staged: StagedAIG,
    pub num_stages: usize,
}

impl Cutting {
    /// Whether a list of endpoints can be mapped.
    pub open spec fn maps(self, eps: Seq<usize>) -> bool {
        built(&self.aig, &self.staged, eps, self.num_stages) is Some
    }

    /// Whether a part is a single endpoint that cannot be mapped.
    pub open spec fn stuck(self, eps: Seq<usize>) -> bool {
        !self.maps(eps) && eps.len() == 1
    }

    /// The first `k` parts that can be mapped, behind those of `good`.
    pub open spec fn good_upto(
        self,
        m: CutModel,
        parts: Seq<Seq<usize>>,
        k: int,
    ) -> Seq<Seq<usize>>
        decreases k,
    {
        if k <= 0 {
            m.good
        } else {
            let eps = translated(m.left, parts[k - 1]);
            let before = self.good_upto(m, parts, k - 1);
            if self.maps(eps) {
                before.push(eps)
            } else {
                before
            }
        }
    }

    /// The endpoints of the first `k` parts, if these cannot be mapped.
    pub open spec fn left_upto(self, m: CutModel, parts: Seq<Seq<usize>>, k: int) -> Seq<usize>
        decreases k,
    {
        if k <= 0 {
            Seq::empty()
        } else {
            let eps = translated(m.left, parts[k - 1]);
            let before = self.left_upto(m, parts, k - 1);
            if self.maps(eps) {
                before
            } else {
                before + eps
            }
        }
    }

    /// The state after a round in which the endpoints were partitioned into `parts`.
    pub open spec fn after(self, m: CutModel, parts: Seq<Seq<usize>>) -> CutModel {
        let n = parts.len() as int;
        CutModel {
            good: self.good_upto(m, parts, n),
            left: sorted_numbers(self.left_upto(m, parts, n)),
            division: m.division,
        }
    }

    /// The endpoints of the parts that can be mapped are those that were there before
    /// and those of the first `k` parts that can be mapped.
    proof fn lemma_good_upto(self, m: CutModel, parts: Seq<Seq<usize>>, k: int, e: usize)
        requires
            0 <= k <= parts.len(),
        ensures
            in_parts(self.good_upto(m, parts, k), e) <==> in_parts(m.good, e) || exists|p: int|
                0 <= p < k && self.maps(translated(m.left, #[trigger] parts[p])) && translated(
                    m.left,
                    parts[p],
                ).contains(e),
        decreases k,
    {
        if k > 0 {
            self.lemma_good_upto(m, parts, k - 1, e);
            let eps = translated(m.left, parts[k - 1]);
            let a = self.good_upto(m, parts, k - 1);
            let b = self.good_upto(m, parts, k);
            if self.maps(eps) {
                if in_parts(a, e) {
                    let i = choose|i: int| 0 <= i < a.len() && (#[trigger] a[i]).contains(e);
                    assert(b[i].contains(e));
                }
                if eps.contains(e) {
                    assert(b[a.len() as int].contains(e));
                }
                if in_parts(b, e) {
                    let i = choose|i: int| 0 <= i < b.len() && (#[trigger] b[i]).contains(e);
                    if i < a.len() {
                        assert(a[i].contains(e));
                    }
                }
            }
            if exists|p: int|
                0 <= p < k - 1 && self.maps(translated(m.left, #[trigger] parts[p])) && translated(
                    m.left,
                    parts[p],
                ).contains(e) {
                let p = choose|p: int|
                    0 <= p < k - 1 && self.maps(translated(m.left, #[trigger] parts[p]))
                        && translated(m.left, parts[p]).contains(e);
                assert(self.maps(translated(m.left, parts[p])));
            }
        }
    }

    proof fn lemma_left_upto(self, m: CutModel, parts: Seq<Seq<usize>>, k: int, e: usize)
        requires
            0 <= k <= parts.len(),
        ensures
            self.left_upto(m, parts, k).contains(e) <==> exists|p: int|
                0 <= p < k && !self.maps(translated(m.left, #[trigger] parts[p])) && translated(
                    m.left,
                    parts[p],
                ).contains(e),
        decreases k,
    {
        if k > 0 {
            self.lemma_left_upto(m, parts, k - 1, e);
            let eps = translated(m.left, parts[k - 1]);
            let a = self.left_upto(m, parts, k - 1);
            let b = self.left_upto(m, parts, k);
            if !self.maps(eps) {
                if a.contains(e) {
                    let i = a.index_of(e);
                    assert(b[i] == e);
                }
                if eps.contains(e) {
                    let i = eps.index_of(e);
                    assert(b[a.len() + i] == e);
                }
                if b.contains(e) {
                    let i = b.index_of(e);
                    if i < a.len() {
                        assert(a[i] == e);
                    } else {
                        assert(eps[i - a.len()] == e);
                    }
                }
            }
            if exists|p: int|
                0 <= p < k - 1 && !self.maps(translated(m.left, #[trigger] parts[p]))
                    && translated(m.left, parts[p]).contains(e) {
                let p = choose|p: int|
                    0 <= p < k - 1 && !self.maps(translated(m.left, #[trigger] parts[p]))
                        && translated(m.left, parts[p]).contains(e);
                assert(!self.maps(translated(m.left, parts[p])));
            }
        }
    }

    /// No endpoint is lost and none is added: if the partitioner has put each endpoint
    /// into a part, an endpoint is in a part that can be mapped or left afterwards
    /// exactly if it was before.
    pub proof fn law_endpoints_kept(self, m: CutModel, parts: Seq<Seq<usize>>, e: usize)
        requires
            forall|p: int, i: int|
                0 <= p < parts.len() && 0 <= i < parts[p].len() ==> #[trigger] parts[p][i]
                    < m.left.len(),
            forall|i: usize| i < m.left.len() ==> #[trigger] in_parts(parts, i),
            m.left.len() <= usize::MAX,
        ensures
            ({
                let next = self.after(m, parts);
                (in_parts(next.good, e) || next.left.contains(e)) <==> (in_parts(m.good, e)
                    || m.left.contains(e))
            }),
    {
        let n = parts.len() as int;
        self.lemma_good_upto(m, parts, n, e);
        self.lemma_left_upto(m, parts, n, e);
        lemma_sorted_numbers(self.left_upto(m, parts, n));
        if m.left.contains(e) {
            let i = m.left.index_of(e);
            assert(in_parts(parts, i as usize));
            let p = choose|p: int| 0 <= p < parts.len() && (#[trigger] parts[p]).contains(i as usize);
            let k = parts[p].index_of(i as usize);
            let eps = translated(m.left, parts[p]);
            assert(eps[k] == e);
            assert(eps.contains(e));
        }
        assert forall|p: int| 0 <= p < n && #[trigger] translated(m.left, parts[p]).contains(
            e,
        ) implies m.left.contains(e) by {
            let k = translated(m.left, parts[p]).index_of(e);
            assert(parts[p][k] < m.left.len());
            assert(m.left[parts[p][k] as int] == e);
        }
    }
}

/// Cutting a stage into parts that can be mapped.
pub struct Cutter {
    /// The parts that can be mapped.
    pub good: Vec<Vec<usize>>,
    /// The endpoints that are left, in increasing order.
    pub left: Vec<usize>,
    pub division: usize,
}

impl View for Cutter {
    type V = CutModel;

    open spec fn view(&self) -> CutModel {
        CutModel { good: rows(self.good@), left: self.left@, division: self.division as nat }
    }
}

impl Cutter {
    /// Before the first round, all endpoints are left.
    pub fn new(staged: &StagedAIG) -> (c: Cutter)
        requires
            staged.group_count() <= usize::MAX,
        ensures
            c@.good == Seq::<Seq<usize>>::empty(),
            c@.left == Seq::new(staged.group_count(), |i: int| i as usize),
            c@.division == FIRST_DIVISION,
    {
        let n = staged.num_endpoint_groups();
        let mut left: Vec<usize> = Vec::new();
        let mut i: usize = 0;
        while i < n
            invariant
                i <= n,
                left@ == Seq::new(i as nat, |k: int| k as usize),
            decreases n - i,
        {
            left.push(i);
            assert(left@ =~= Seq::new((i + 1) as nat, |k: int| k as usize));
            i += 1;
        }
        let good: Vec<Vec<usize>> = Vec::new();
        assert(rows(good@) =~= Seq::<Seq<usize>>::empty());
        Cutter { good, left, division: FIRST_DIVISION }
    }

    /// The number of parts to try next; nothing if no endpoint is left. Parts are half
    /// as large as in the round before, down to single endpoints.
    pub fn next_parts(&mut self) -> (n: Option<usize>)
        ensures
            final(self)@.good == old(self)@.good,
            final(self)@.left == old(self)@.left,
            match n {
                Some(n) => {
                    let d = if old(self)@.division / 2 < 1 {
                        1
                    } else {
                        old(self)@.division / 2
                    };
                    &&& old(self)@.left.len() > 0
                    &&& final(self)@.division == d
                    &&& n == (old(self)@.left.len() + d - 1) / d as int
                    &&& n >= 1
                    &&& (n - 1) * d < old(self)@.left.len() <= n * d
                },
                None => {
                    &&& old(self)@.left.len() == 0
                    &&& final(self)@.division == old(self)@.division
                },
            },
    {
        let len = self.left.len();
        if len == 0 {
            return None;
        }
        let d = if self.division / 2 < 1 {
            1
        } else {
            self.division / 2
        };
        self.division = d;
        let n = (len - 1) / d + 1;
        proof {
            lemma_ceil(len as int, d as int);
        }
        Some(n)
    }

    /// Maps the parts that the partitioner has found. Parts that can be mapped are
    /// kept; the endpoints of the others are left. Returns the first endpoint that
    /// cannot be mapped by itself, if there is one.
    pub fn take_parts(
        &mut self,
        aig: &AIG,
        staged: &StagedAIG,
        parts: &Vec<Vec<usize>>,
        num_stages: usize,
    ) -> (r: Result<(), usize>)
        requires
            stages_fit(num_stages),
            staged.wf(aig),
            forall|p: int, i: int|
                0 <= p < parts@.len() && 0 <= i < parts@[p]@.len()
                    ==> #[trigger] parts@[p]@[i] < old(self)@.left.len(),
            (forall|i: int|
                0 <= i < old(self)@.left.len() ==> mappable(
                    aig,
                    staged,
                    #[trigger] old(self)@.left[i],
                )) || forall|p: int|
                0 <= p < parts@.len() ==> buildable(
                    aig,
                    staged,
                    translated(old(self)@.left, #[trigger] parts@[p]@),
                    num_stages,
                ),
            num_stages >= 6 || forall|p: int|
                0 <= p < parts@.len() ==> settled(
                    aig,
                    staged,
                    translated(old(self)@.left, #[trigger] parts@[p]@),
                    num_stages,
                ),
        ensures
            ({
                let c = Cutting { aig: *aig, staged: *staged, num_stages };
                match r {
                    Ok(_) => {
                        &&& final(self)@ == c.after(old(self)@, rows(parts@))
                        &&& forall|p: int|
                            0 <= p < parts@.len() ==> !c.stuck(
                                translated(old(self)@.left, #[trigger] rows(parts@)[p]),
                            )
                    },
                    Err(e) => exists|p: int|
                        0 <= p < parts@.len() && c.stuck(
                            translated(old(self)@.left, #[trigger] rows(parts@)[p]),
                        ) && translated(old(self)@.left, rows(parts@)[p])[0] == e && forall|q: int|
                            0 <= q < p ==> !c.stuck(
                                translated(old(self)@.left, #[trigger] rows(parts@)[q]),
                            ),
                }
            }),
    {
        let ghost m = self@;
        let ghost c = Cutting { aig: *aig, staged: *staged, num_stages };
        let ghost ps = rows(parts@);
        let lists = self.translate(parts);
        proof {
            assert forall|p: int| 0 <= p < lists@.len() implies part_ok(
                aig,
                staged,
                #[trigger] lists@[p],
                num_stages,
            ) by {
                let eps = translated(m.left, ps[p]);
                assert(lists@[p]@ == eps);
                assert(ps[p] == parts@[p]@);
                if forall|i: int|
                    0 <= i < m.left.len() ==> mappable(aig, staged, #[trigger] m.left[i]) {
                    assert forall|k: int| 0 <= k < eps.len() implies mappable(
                        aig,
                        staged,
                        #[trigger] eps[k],
                    ) && eps[k] < staged.group_count() by {
                        assert(parts@[p]@[k] < m.left.len());
                        assert(mappable(aig, staged, m.left[parts@[p]@[k] as int]));
                    }
                }
            }
        }
        let build = |v: &Vec<usize>| -> (b: bool)
            requires
                part_ok(aig, staged, *v, num_stages),
            ensures
                b == (built(aig, staged, v@, num_stages) is Some),
            { Partition::build_one(aig, staged, v.as_slice(), num_stages).is_some() };
        let fits = par_map(&lists, build);
        let mut left: Vec<usize> = Vec::new();
        let mut lists = lists;
        let ghost all = lists@;
        let n = lists.len();
        let mut p: usize = 0;
        let mut good: Vec<Vec<usize>> = Vec::new();
        self.take_good(&mut good);
        while p < n
            invariant
                p <= n,
                n == ps.len(),
                n == parts@.len(),
                ps == rows(parts@),
                n == all.len(),
                n == fits@.len(),
                m == old(self)@,
                c == (Cutting { aig: *aig, staged: *staged, num_stages }),
                lists@.len() == n,
                forall|q: int| p <= q < n ==> #[trigger] lists@[q] == all[q],
                forall|q: int| 0 <= q < n ==> (#[trigger] all[q])@ == translated(m.left, ps[q]),
                forall|q: int| 0 <= q < n ==> #[trigger] fits@[q] == c.maps(all[q]@),
                forall|q: int|
                    0 <= q < p ==> !c.stuck(translated(m.left, #[trigger] ps[q])),
                rows(good@) == c.good_upto(m, ps, p as int),
                left@ == c.left_upto(m, ps, p as int),
                self.division == m.division,
            decreases n - p,
        {
            assert(all[p as int]@ == translated(m.left, ps[p as int]));
            assert(fits@[p as int] == c.maps(all[p as int]@));
            let ghost was = rows(good@);
            let mut list: Vec<usize> = Vec::new();
            swap_lists(&mut lists, p, &mut list);
            if fits[p] {
                good.push(list);
                assert(rows(good@) =~= was.push(all[p as int]@));
            } else {
                if list.len() == 1 {
                    assert(c.stuck(translated(m.left, ps[p as int])));
                    return Err(list[0]);
                }
                left.append(&mut list);
            }
            p += 1;
        }
        sort_numbers(&mut left);
        self.good = good;
        self.left = left;
        Ok(())
    }

    /// Takes the parts that can be mapped out.
    fn take_good(&mut self, good: &mut Vec<Vec<usize>>)
        requires
            old(good)@.len() == 0,
        ensures
            final(good)@ == old(self).good@,
            final(self).left == old(self).left,
            final(self).division == old(self).division,
    {
        good.append(&mut self.good);
        assert(good@ =~= old(self).good@);
    }

    /// The endpoints that the indices of parts stand for.
    fn translate(&self, parts: &Vec<Vec<usize>>) -> (lists: Vec<Vec<usize>>)
        requires
            forall|p: int, i: int|
                0 <= p < parts@.len() && 0 <= i < parts@[p]@.len()
                    ==> #[trigger] parts@[p]@[i] < self.left@.len(),
        ensures
            lists@.len() == parts@.len(),
            forall|p: int|
                0 <= p < lists@.len() ==> (#[trigger] lists@[p])@ == translated(
                    self.left@,
                    rows(parts@)[p],
                ),
    {
        let mut lists: Vec<Vec<usize>> = Vec::new();
        let mut p: usize = 0;
        while p < parts.len()
            invariant
                p <= parts@.len(),
                lists@.len() == p,
                forall|q: int, i: int|
                    0 <= q < parts@.len() && 0 <= i < parts@[q]@.len()
                        ==> #[trigger] parts@[q]@[i] < self.left@.len(),
                forall|q: int|
                    0 <= q < p ==> (#[trigger] lists@[q])@ == translated(
                        self.left@,
                        rows(parts@)[q],
                    ),
            decreases parts@.len() - p,
        {
            let mut list: Vec<usize> = Vec::new();
            let mut i: usize = 0;
            while i < parts[p].len()
                invariant
                    p < parts@.len(),
                    i <= parts@[p as int]@.len(),
                    list@.len() == i,
                    forall|q: int, j: int|
                        0 <= q < parts@.len() && 0 <= j < parts@[q]@.len()
                            ==> #[trigger] parts@[q]@[j] < self.left@.len(),
                    forall|j: int|
                        0 <= j < i ==> #[trigger] list@[j]
                            == self.left@[parts@[p as int]@[j] as int],
                decreases parts@[p as int]@.len() - i,
            {
                assert(parts@[p as int]@[i as int] < self.left@.len());
                list.push(self.left[parts[p][i]]);
                i += 1;
            }
            assert(list@ =~= translated(self.left@, rows(parts@)[p as int]));
            lists.push(list);
            p += 1;
        }
        lists
    }
}

/// Takes a list out of a list of lists.
fn swap_lists(lists: &mut Vec<Vec<usize>>, p: usize, out: &mut Vec<usize>)
    requires
        p < old(lists)@.len(),
        old(out)@.len() == 0,
    ensures
        final(out)@ == old(lists)@[p as int]@,
        final(lists)@.len() == old(lists)@.len(),
        forall|q: int|
            0 <= q < old(lists)@.len() && q != p ==> #[trigger] final(lists)@[q] == old(lists)@[q],
{
    out.append(&mut lists[p]);
    assert(out@ =~= old(lists)@[p as int]@);
}

/// Rounding up a quotient.
proof fn lemma_ceil(n: int, d: int)
    requires
        n >= 1,
        d >= 1,
    ensures
        (n - 1) / d + 1 == (n + d - 1) / d,
        (n - 1) / d * d < n <= ((n - 1) / d + 1) * d,
{
    assert((n - 1) / d * d < n <= ((n - 1) / d + 1) * d) by (nonlinear_arith)
        requires
            n >= 1,
            d >= 1,
    ;
    assert((n + d - 1) / d == (n - 1) / d + 1) by (nonlinear_arith)
        requires
            n >= 1,
            d >= 1,
    ;
}

} // verus!
