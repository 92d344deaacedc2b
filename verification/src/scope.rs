//! Scope paths of value change dumps.
pub mod laws;

use std::hash::{Hash, Hasher};
use std::rc::Rc;
use sverilogparse::SVerilogRange;
use vstd::prelude::*;
use vstd::string::StringSliceAdditionalSpecFns;
use vstd::utf8::{
    encode_utf8, is_char_boundary, is_char_boundary_iff_not_is_continuation_byte,
    is_char_boundary_start_end_of_seq,
};

verus! {

/// The separator of path components.
pub const SLASH: u8 = 47;

/// A path without a separator at its front.
pub open spec fn without_slash(path: Seq<u8>) -> Seq<u8> {
    if path.len() > 0 && path[0] == SLASH {
        path.skip(1)
    } else {
        path
    }
}

/// What remains of a path when its first component is `cur`; nothing if it is
/// another one. An empty path matches any component.
pub open spec fn path_rest(path: Seq<u8>, cur: Seq<u8>) -> Option<Seq<u8>> {
    let p = without_slash(path);
    if p.len() == 0 {
        Some(Seq::empty())
    } else if cur.is_prefix_of(p) {
        if p.len() == cur.len() {
            Some(Seq::empty())
        } else if p[cur.len() as int] == SLASH {
            Some(p.skip(cur.len() as int + 1))
        } else {
            None
        }
    } else {
        None
    }
}

/// Whether `a` begins with the bytes of `b`.
fn has_prefix(a: &[u8], b: &[u8]) -> (r: bool)
    ensures
        r == b@.is_prefix_of(a@),
{
    if a.len() < b.len() {
        return false;
    }
    let mut k: usize = 0;
    while k < b.len()
        invariant
            b@.len() <= a@.len(),
            k <= b@.len(),
            forall|i: int| 0 <= i < k ==> a@[i] == b@[i],
        decreases b@.len() - k,
    {
        if a[k] != b[k] {
            assert(a@.subrange(0, b@.len() as int)[k as int] == a@[k as int]);
            return false;
        }
        k += 1;
    }
    assert(b@ =~= a@.subrange(0, b@.len() as int));
    true
}

/// Tries to match one component in a scope path. Returns the remaining path,
/// which is empty if the whole path matched, or `None` if the component differs.
pub fn match_scope_path<'i>(scope: &'i str, cur: &str) -> (rest: Option<&'i str>)
    ensures
        match path_rest(scope.spec_bytes(), cur.spec_bytes()) {
            Some(bytes) => rest matches Some(s) && s.spec_bytes() == bytes,
            None => rest is None,
        },
{
    broadcast use vstd::utf8::encode_utf8_valid_utf8;

    let mut path = scope;
    if path.as_bytes().len() == 0 {
        return Some(path);
    }
    if path.as_bytes()[0] == SLASH {
        proof {
            reveal_with_fuel(is_char_boundary, 2);
        }
        path = path.split_at(1).1;
        assert(path.spec_bytes() =~= scope.spec_bytes().skip(1));
    }
    if path.as_bytes().len() == 0 {
        return Some(path);
    }
    let ghost p = path.spec_bytes();
    if !has_prefix(path.as_bytes(), cur.as_bytes()) {
        return None;
    }
    let n = cur.as_bytes().len();
    if path.as_bytes().len() == n {
        proof {
            is_char_boundary_start_end_of_seq(p);
        }
        let rest = path.split_at(n).1;
        assert(rest.spec_bytes() =~= Seq::<u8>::empty());
        return Some(rest);
    }
    if path.as_bytes()[n] == SLASH {
        proof {
            is_char_boundary_iff_not_is_continuation_byte(p, n as int);
        }
        let rest = path.split_at(n).1;
        proof {
            reveal_with_fuel(is_char_boundary, 2);
            assert(rest.spec_bytes()[0] == p[n as int]);
        }
        let rest2 = rest.split_at(1).1;
        assert(rest2.spec_bytes() =~= p.skip(n + 1));
        Some(rest2)
    } else {
        None
    }
}

/// The bits that a variable stands for.
pub enum ReferenceIndex {
    /// One bit of a vector.
    BitSelect(i32),
    /// A range of bits of a vector, both ends included.
    Range(i32, i32),
}

/// A variable of a dump.
pub struct Var {
    /// The number of bits.
    pub size: u32,
    /// The code by which value changes refer to the variable.
    pub code: u64,
    /// The name.
    pub reference: String,
    /// The bits that the variable stands for, if it says so.
    pub index: Option<ReferenceIndex>,
}

/// A scope of a dump.
pub struct Scope {
    pub identifier: String,
    pub children: Vec<ScopeItem>,
}

/// An item in a scope.
pub enum ScopeItem {
    Scope(Scope),
    Var(Var),
    Comment(String),
}

/// The rest of a path is shorter.
pub proof fn lemma_path_rest(path: Seq<u8>, cur: Seq<u8>)
    requires
        path.len() > 0,
    ensures
        path_rest(path, cur) matches Some(rest) ==> rest.len() < path.len(),
{
}

/// The scope that a path leads to, from the items from `k` on. The first scope that
/// matches the first component decides.
pub open spec fn scope_at(items: Seq<ScopeItem>, path: Seq<u8>, k: int) -> Option<Scope>
    decreases path.len(), items.len() - k,
{
    if k >= items.len() {
        None
    } else {
        match items[k] {
            ScopeItem::Scope(scope) => match path_rest(path, encode_utf8(scope.identifier@)) {
                Some(rest) => if rest.len() == 0 {
                    Some(scope)
                } else {
                    proof {
                        if path.len() > 0 {
                            lemma_path_rest(path, encode_utf8(scope.identifier@));
                        }
                    }
                    scope_at(scope.children@, rest, 0)
                },
                None => scope_at(items, path, k + 1),
            },
            _ => scope_at(items, path, k + 1),
        }
    }
}

/// Finds the scope that a path leads to.
pub fn find_top_scope<'i>(items: &'i [ScopeItem], top_scope: &str) -> (r: Option<&'i Scope>)
    ensures
        match scope_at(items@, top_scope.spec_bytes(), 0) {
            Some(scope) => r matches Some(s) && *s == scope,
            None => r is None,
        },
    decreases top_scope.spec_bytes().len(),
{
    let n = items.len();
    let ghost path = top_scope.spec_bytes();
    let mut k: usize = 0;
    while k < n
        invariant
            k <= n,
            n == items@.len(),
            path == top_scope.spec_bytes(),
            scope_at(items@, path, 0) == scope_at(items@, path, k as int),
        decreases n - k,
    {
        if let ScopeItem::Scope(scope) = &items[k] {
            if let Some(rest) = match_scope_path(top_scope, scope.identifier.as_str()) {
                if rest.as_bytes().len() == 0 {
                    return Some(scope);
                }
                proof {
                    if path.len() > 0 {
                        lemma_path_rest(path, encode_utf8(scope.identifier@));
                    }
                }
                return find_top_scope(scope.children.as_slice(), rest);
            }
        }
        k += 1;
    }
    None
}

/// The indices of a range, from one end to the other.
pub open spec fn range_indices(a: int, b: int) -> Seq<isize> {
    if a <= b {
        Seq::new((b - a + 1) as nat, |k: int| (a + k) as isize)
    } else {
        Seq::new((a - b + 1) as nat, |k: int| (a - k) as isize)
    }
}

/// Whether the ends of a range, and the number of its indices, are machine words.
pub open spec fn range_fits(a: int, b: int) -> bool {
    &&& isize::MIN <= a < isize::MAX
    &&& isize::MIN <= b < isize::MAX
    &&& a - b < isize::MAX
    &&& b - a < isize::MAX
}

/// `SVerilogRange` of `sverilogparse` iterates over the indices of a range from its
/// first end to its second, both included. Ends at the largest number, where that
/// crate keeps its empty range, are left out, and so are ranges that are too long.
#[verifier::external_body]
fn sverilog_range(a: isize, b: isize) -> (v: Vec<isize>)
    requires
        range_fits(a as int, b as int),
    ensures
        v@ == range_indices(a as int, b as int),
{
    SVerilogRange(a, b).collect()
}

/// The bits of a variable: the index of each, and its position in value changes.
pub open spec fn bits_of(var: Var) -> Seq<(Option<isize>, usize)> {
    match var.index {
        None => if var.size == 1 {
            seq![(None, 0)]
        } else {
            Seq::new(
                var.size as nat,
                |k: int| (Some((var.size - 1 - k) as isize), k as usize),
            )
        },
        Some(ReferenceIndex::BitSelect(i)) => seq![(Some(i as isize), 0)],
        Some(ReferenceIndex::Range(a, b)) => {
            let s = range_indices(a as int, b as int);
            Seq::new(s.len(), |k: int| (Some(s[k]), k as usize))
        },
    }
}

/// Whether the indices of the bits of a variable are machine words.
pub open spec fn bits_fit(var: Var) -> bool {
    match var.index {
        None => var.size <= isize::MAX,
        Some(ReferenceIndex::BitSelect(_)) => true,
        Some(ReferenceIndex::Range(a, b)) => range_fits(a as int, b as int),
    }
}

impl Var {
    /// Whether the indices of the bits are machine words.
    pub fn fits(&self) -> (r: bool)
        ensures
            r == bits_fit(*self),
    {
        match self.index {
            None => self.size as u64 <= isize::MAX as u64,
            Some(ReferenceIndex::BitSelect(_)) => true,
            Some(ReferenceIndex::Range(a, b)) => {
                let (a, b) = (a as i64, b as i64);
                let max = isize::MAX as i64;
                a < max && b < max && a - b < max && b - a < max
            },
        }
    }

    /// The bits of the variable: the index of each, and its position in value changes.
    pub fn bits(&self) -> (r: Vec<(Option<isize>, usize)>)
        requires
            bits_fit(*self),
        ensures
            r@ == bits_of(*self),
    {
        let mut r: Vec<(Option<isize>, usize)> = Vec::new();
        match self.index {
            None => {
                if self.size == 1 {
                    r.push((None, 0));
                } else {
                    let n = self.size as usize;
                    let mut k: usize = 0;
                    while k < n
                        invariant
                            k <= n,
                            n == self.size,
                            n <= isize::MAX,
                            r@.len() == k,
                            forall|i: int|
                                0 <= i < k ==> #[trigger] r@[i] == (
                                    Some((self.size - 1 - i) as isize),
                                    i as usize,
                                ),
                        decreases n - k,
                    {
                        r.push((Some((n - 1 - k) as isize), k));
                        k += 1;
                    }
                }
            },
            Some(ReferenceIndex::BitSelect(i)) => {
                r.push((Some(i as isize), 0));
            },
            Some(ReferenceIndex::Range(a, b)) => {
                let indices = sverilog_range(a as isize, b as isize);
                let mut k: usize = 0;
                while k < indices.len()
                    invariant
                        k <= indices@.len(),
                        r@.len() == k,
                        forall|i: int|
                            0 <= i < k ==> #[trigger] r@[i] == (Some(indices@[i]), i as usize),
                    decreases indices@.len() - k,
                {
                    r.push((Some(indices[k]), k));
                    k += 1;
                }
            },
        }
        assert(r@ =~= bits_of(*self));
        r
    }
}

/// A hierarchical name in a dump.
#[derive(PartialEq, Eq, Clone, Debug)]
pub struct VCDHier {
    /// The name of the cell.
    pub cur: String,
    /// The name of the cell around it.
    pub prev: Option<Rc<VCDHier>>,
}

/// An iterator over the cell names of a hierarchical name, from the bottom to the top
/// module.
pub struct VCDHierRevIter<'i>(pub Option<&'i VCDHier>);

impl VCDHier {
    /// The cell names, from the bottom to the top module, up to an empty one.
    pub open spec fn names(self) -> Seq<Seq<char>>
        decreases self,
    {
        if self.cur@.len() == 0 {
            Seq::empty()
        } else {
            seq![self.cur@] + match self.prev {
                Some(p) => p.names(),
                None => Seq::empty(),
            }
        }
    }

    /// A name with one component.
    pub fn single(cur: String) -> (h: VCDHier)
        ensures
            h.cur == cur,
            h.prev is None,
            cur@.len() > 0 ==> h.names() == seq![cur@],
    {
        let h = VCDHier { cur, prev: None };
        assert(seq![cur@] + Seq::<Seq<char>>::empty() =~= seq![cur@]);
        h
    }

    /// The name without components.
    pub fn empty() -> (h: VCDHier)
        ensures
            h.cur@ == Seq::<char>::empty(),
            h.prev is None,
            h.names() == Seq::<Seq<char>>::empty(),
    {
        VCDHier { cur: String::new(), prev: None }
    }

    /// Whether this is the name without components.
    pub fn is_empty(&self) -> (r: bool)
        ensures
            r == (self.cur@.len() == 0 && self.prev is None),
    {
        self.cur.as_str().is_empty() && self.prev.is_none()
    }

    /// The cell names, from the bottom to the top module.
    pub fn iter(&self) -> (it: VCDHierRevIter<'_>)
        ensures
            it.0 == Some(self),
            it.remaining() == self.names(),
    {
        VCDHierRevIter(Some(self))
    }
}

impl<'i> VCDHierRevIter<'i> {
    /// The cell names that are still to come.
    pub open spec fn remaining(self) -> Seq<Seq<char>> {
        match self.0 {
            Some(h) => h.names(),
            None => Seq::empty(),
        }
    }

    /// The next cell name.
    pub fn next(&mut self) -> (name: Option<&'i String>)
        ensures
            match name {
                Some(s) => {
                    &&& old(self).remaining().len() > 0
                    &&& s@ == old(self).remaining()[0]
                    &&& final(self).remaining() == old(self).remaining().skip(1)
                    &&& old(self).0 matches Some(h) && *s == h.cur && match h.prev {
                        Some(p) => final(self).0 == Some(&*p),
                        None => final(self).0 is None,
                    }
                },
                None => {
                    &&& old(self).remaining().len() == 0
                    &&& *final(self) == *old(self)
                },
            },
    {
        match self.0 {
            Some(h) => {
                if h.cur.as_str().is_empty() {
                    return None;
                }
                match &h.prev {
                    Some(p) => {
                        self.0 = Some(&**p);
                    },
                    None => {
                        self.0 = None;
                    },
                }
                assert(self.remaining() =~= old(self).remaining().skip(1));
                Some(&h.cur)
            },
            None => None,
        }
    }
}

/// Feeds a name to a hasher, by `Hash::hash` of a string. Nothing is claimed of what this
/// leaves in the hasher: that is up to the hasher, and to how a string is written to it.
#[verifier::external_body]
fn feed_name<H: Hasher>(name: &String, state: &mut H) {
    name.hash(state)
}

/// Whether feeding a name to a hasher can change it as `state` says.
pub closed spec fn name_fed<H: Hasher>(name: &String, state: &mut H) -> bool {
    call_ensures(feed_name::<H>, (name, state), ())
}

impl Hash for VCDHier {
    /// Feeds the cell names to a hasher, from the bottom to the top module. The hasher
    /// goes through the states `steps`, from each to the next by one name.
    fn hash<H: Hasher>(&self, state: &mut H)
        ensures
            exists|fed: Seq<String>, steps: Seq<H>|
                {
                    &&& fed.len() == self.names().len()
                    &&& #[trigger] steps.len() == #[trigger] fed.len() + 1
                    &&& steps[0] == *old(state)
                    &&& steps.last() == *final(state)
                    &&& forall|k: int|
                        0 <= k < fed.len() ==> (#[trigger] fed[k])@ == self.names()[k] && exists|
                            step: &mut H,
                        |
                            *step == steps[k] && *final(step) == steps[k + 1] && #[trigger] name_fed(
                                &fed[k],
                                step,
                            )
                },
    {
        let ghost mut fed: Seq<String> = Seq::empty();
        let ghost mut steps: Seq<H> = seq![*state];
        let mut it = self.iter();
        loop
            invariant
                fed.len() <= self.names().len(),
                steps.len() == fed.len() + 1,
                it.remaining() == self.names().skip(fed.len() as int),
                steps[0] == *old(state),
                steps.last() == *state,
                forall|k: int|
                    0 <= k < fed.len() ==> (#[trigger] fed[k])@ == self.names()[k] && exists|
                        step: &mut H,
                    |
                        *step == steps[k] && *final(step) == steps[k + 1] && #[trigger] name_fed(
                            &fed[k],
                            step,
                        ),
            decreases it.remaining().len(),
        {
            match it.next() {
                Some(name) => {
                    let ghost before = *state;
                    feed_name(name, state);
                    proof {
                        let step = choose|step: &mut H|
                            *step == before && *final(step) == *state && #[trigger] call_ensures(
                                feed_name::<H>,
                                (name, step),
                                (),
                            );
                        assert(name_fed(name, step));
                        fed = fed.push(*name);
                        steps = steps.push(*state);
                    }
                },
                None => {
                    return ;
                },
            }
        }
    }
}

} // verus!
