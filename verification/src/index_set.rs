//! Insertion-ordered sets and maps of pins, as provided by `indexmap`.
//!
//! The collections themselves are opaque; every contract below speaks of the
//! sequence of their elements in iteration order.
use indexmap::{IndexMap, IndexSet};
use vstd::prelude::*;

verus! {

/// The insertion-ordered hash set of `indexmap`.
#[verifier::external_type_specification]
#[verifier::external_body]
#[verifier::reject_recursive_types(T)]
#[verifier::reject_recursive_types(S)]
pub struct ExIndexSet<T, S>(IndexSet<T, S>);

/// The insertion-ordered hash map of `indexmap`.
#[verifier::external_type_specification]
#[verifier::external_body]
#[verifier::reject_recursive_types(K)]
#[verifier::reject_recursive_types(V)]
#[verifier::reject_recursive_types(S)]
pub struct ExIndexMap<K, V, S>(IndexMap<K, V, S>);

/// The elements of a set, in iteration order.
pub uninterp spec fn elems(s: IndexSet<usize>) -> Seq<usize>;

/// The entries of a map from pins to sets of activations, in iteration order,
/// the elements of each set in iteration order too.
pub uninterp spec fn entries(m: IndexMap<usize, IndexSet<usize>>) -> Seq<(usize, Seq<usize>)>;

/// The elements of an optional set; an absent set has none.
pub open spec fn opt_elems(s: Option<IndexSet<usize>>) -> Seq<usize> {
    match s {
        Some(s) => elems(s),
        None => Seq::empty(),
    }
}

/// The elements of an optional reference to a set; an absent set has none.
pub open spec fn ref_elems(s: Option<&IndexSet<usize>>) -> Seq<usize> {
    match s {
        Some(s) => elems(*s),
        None => Seq::empty(),
    }
}

/// `s` after inserting `x`: a new element goes to the end, one that is there stays where it is.
pub open spec fn inserted(s: Seq<usize>, x: usize) -> Seq<usize> {
    if s.contains(x) {
        s
    } else {
        s.push(x)
    }
}

/// `s` after inserting the elements of `xs` from left to right.
pub open spec fn inserted_all(s: Seq<usize>, xs: Seq<usize>) -> Seq<usize>
    decreases xs.len(),
{
    if xs.len() == 0 {
        s
    } else {
        inserted(inserted_all(s, xs.drop_last()), xs.last())
    }
}

/// `s` after removing `x` in such a way that the last element takes its place.
pub open spec fn swap_removed(s: Seq<usize>, x: usize) -> Seq<usize> {
    if s.contains(x) {
        s.update(s.index_of(x), s.last()).drop_last()
    } else {
        s
    }
}

/// `s` after removing the elements of `xs` from left to right.
pub open spec fn swap_removed_all(s: Seq<usize>, xs: Seq<usize>) -> Seq<usize>
    decreases xs.len(),
{
    if xs.len() == 0 {
        s
    } else {
        swap_removed(swap_removed_all(s, xs.drop_last()), xs.last())
    }
}

/// The position of the entry of `pin`.
pub open spec fn entry_index(es: Seq<(usize, Seq<usize>)>, pin: usize) -> int {
    choose|i: int| 0 <= i < es.len() && #[trigger] es[i].0 == pin
}

/// The entries `es` after adding activation `act` to the set of `pin`.
pub open spec fn entry_added(
    es: Seq<(usize, Seq<usize>)>,
    pin: usize,
    act: usize,
) -> Seq<(usize, Seq<usize>)> {
    if exists|i: int| 0 <= i < es.len() && #[trigger] es[i].0 == pin {
        let i = entry_index(es, pin);
        es.update(i, (pin, inserted(es[i].1, act)))
    } else {
        es.push((pin, seq![act]))
    }
}

/// `IndexSet::new` makes a set without elements.
#[verifier::external_body]
pub(crate) fn set_new() -> (s: IndexSet<usize>)
    ensures
        elems(s) == Seq::<usize>::empty(),
{
    IndexSet::new()
}

/// `IndexSet::contains` tells whether a value is an element.
#[verifier::external_body]
pub(crate) fn set_contains(s: &IndexSet<usize>, x: usize) -> (r: bool)
    ensures
        r == elems(*s).contains(x),
{
    s.contains(&x)
}

/// `IndexSet::insert` appends a value that is not an element yet, keeps the
/// set as it is otherwise, and tells which of the two it did.
#[verifier::external_body]
pub(crate) fn set_insert(s: &mut IndexSet<usize>, x: usize) -> (r: bool)
    ensures
        r == !elems(*old(s)).contains(x),
        elems(*final(s)) == inserted(elems(*old(s)), x),
{
    s.insert(x)
}

/// `IndexSet::swap_remove` removes a value by moving the last element into its
/// place, and tells whether the value was an element.
#[verifier::external_body]
pub(crate) fn set_swap_remove(s: &mut IndexSet<usize>, x: usize) -> (r: bool)
    ensures
        r == elems(*old(s)).contains(x),
        elems(*final(s)) == swap_removed(elems(*old(s)), x),
{
    s.swap_remove(&x)
}

/// `IndexSet::len` counts the elements.
#[verifier::external_body]
pub(crate) fn set_len(s: &IndexSet<usize>) -> (n: usize)
    ensures
        n == elems(*s).len(),
{
    s.len()
}

/// `IndexSet::iter` hands out the elements in iteration order, each of them once.
#[verifier::external_body]
pub(crate) fn set_to_vec(s: &IndexSet<usize>) -> (v: Vec<usize>)
    ensures
        v@ == elems(*s),
        v@.no_duplicates(),
{
    s.iter().copied().collect()
}

/// `IndexSet::clone` makes a set with the same elements, each of them once, in
/// the same order.
#[verifier::external_body]
pub(crate) fn set_clone(s: &IndexSet<usize>) -> (r: IndexSet<usize>)
    ensures
        elems(r) == elems(*s),
        elems(r).no_duplicates(),
{
    s.clone()
}

/// `IndexMap::new` makes a map without entries.
#[verifier::external_body]
pub(crate) fn map_new() -> (m: IndexMap<usize, IndexSet<usize>>)
    ensures
        entries(m) == Seq::<(usize, Seq<usize>)>::empty(),
{
    IndexMap::new()
}

/// `IndexMap::entry` followed by `or_default` finds the set of a key, or appends
/// the key with an empty set; the activation is inserted into that set.
#[verifier::external_body]
pub(crate) fn map_add(m: &mut IndexMap<usize, IndexSet<usize>>, pin: usize, act: usize)
    ensures
        entries(*final(m)) == entry_added(entries(*old(m)), pin, act),
{
    m.entry(pin).or_default().insert(act);
}

/// `IndexMap::iter` hands out the entries in iteration order; of each, the
/// number of elements of its set is kept.
#[verifier::external_body]
pub(crate) fn map_sizes(m: &IndexMap<usize, IndexSet<usize>>) -> (v: Vec<usize>)
    ensures
        v@.len() == entries(*m).len(),
        forall|i: int| 0 <= i < v@.len() ==> #[trigger] v@[i] == entries(*m)[i].1.len(),
{
    m.iter().map(|e| e.1.len()).collect()
}

/// The elements of a set, an absent set having none.
pub(crate) fn opt_contains(s: Option<&IndexSet<usize>>, x: usize) -> (r: bool)
    ensures
        r == ref_elems(s).contains(x),
{
    match s {
        Some(s) => set_contains(s, x),
        None => false,
    }
}

/// A copy of an optional set.
pub(crate) fn opt_clone(s: Option<&IndexSet<usize>>) -> (r: Option<IndexSet<usize>>)
    ensures
        (r is Some) == (s is Some),
        opt_elems(r) == ref_elems(s),
{
    match s {
        Some(s) => Some(set_clone(s)),
        None => None,
    }
}

/// Inserts all elements of a list.
pub(crate) fn insert_all(set: &mut IndexSet<usize>, pins: &Vec<usize>)
    ensures
        elems(*final(set)) == inserted_all(elems(*old(set)), pins@),
{
    let ghost before = elems(*set);
    let mut k: usize = 0;
    while k < pins.len()
        invariant
            k <= pins@.len(),
            elems(*set) == inserted_all(before, pins@.take(k as int)),
        decreases pins@.len() - k,
    {
        set_insert(set, pins[k]);
        assert(pins@.take(k + 1).drop_last() =~= pins@.take(k as int));
        k += 1;
    }
    assert(pins@.take(pins@.len() as int) =~= pins@);
}

/// Removes all elements of a list.
pub(crate) fn remove_all(set: &mut IndexSet<usize>, pins: &Vec<usize>)
    ensures
        elems(*final(set)) == swap_removed_all(elems(*old(set)), pins@),
{
    let ghost before = elems(*set);
    let mut k: usize = 0;
    while k < pins.len()
        invariant
            k <= pins@.len(),
            elems(*set) == swap_removed_all(before, pins@.take(k as int)),
        decreases pins@.len() - k,
    {
        set_swap_remove(set, pins[k]);
        assert(pins@.take(k + 1).drop_last() =~= pins@.take(k as int));
        k += 1;
    }
    assert(pins@.take(pins@.len() as int) =~= pins@);
}

/// Inserting keeps the elements distinct and adds nothing but `x`.
pub proof fn lemma_inserted(s: Seq<usize>, x: usize)
    ensures
        s.no_duplicates() ==> inserted(s, x).no_duplicates(),
        forall|y: usize| #[trigger] inserted(s, x).contains(y) <==> s.contains(y) || y == x,
        s.is_prefix_of(inserted(s, x)),
{
    if !s.contains(x) {
        let t = s.push(x);
        assert(t[s.len() as int] == x);
        assert forall|y: usize| #[trigger] t.contains(y) <==> s.contains(y) || y == x by {
            if s.contains(y) {
                let i = s.index_of(y);
                assert(t[i] == y);
            }
        }
    }
}

/// Inserting several values keeps the elements distinct and adds exactly those values.
pub proof fn lemma_inserted_all(s: Seq<usize>, xs: Seq<usize>)
    ensures
        s.no_duplicates() ==> inserted_all(s, xs).no_duplicates(),
        forall|y: usize| #[trigger]
            inserted_all(s, xs).contains(y) <==> s.contains(y) || xs.contains(y),
        s.is_prefix_of(inserted_all(s, xs)),
    decreases xs.len(),
{
    if xs.len() > 0 {
        lemma_inserted_all(s, xs.drop_last());
        lemma_inserted(inserted_all(s, xs.drop_last()), xs.last());
        assert forall|y: usize| xs.contains(y) <==> xs.drop_last().contains(y) || y
            == xs.last() by {
            if xs.contains(y) {
                let i = xs.index_of(y);
                if i < xs.len() - 1 {
                    assert(xs.drop_last()[i] == y);
                }
            }
            if xs.drop_last().contains(y) {
                let i = xs.drop_last().index_of(y);
                assert(xs[i] == y);
            }
            assert(xs[xs.len() - 1] == xs.last());
        }
    }
}

/// Removing `x` from distinct elements leaves the others, still distinct.
pub proof fn lemma_swap_removed(s: Seq<usize>, x: usize)
    requires
        s.no_duplicates(),
    ensures
        swap_removed(s, x).no_duplicates(),
        forall|y: usize| #[trigger]
            swap_removed(s, x).contains(y) <==> s.contains(y) && y != x,
        s.contains(x) ==> swap_removed(s, x).len() == s.len() - 1,
{
    if s.contains(x) {
        let i = s.index_of(x);
        let t = swap_removed(s, x);
        assert(s[i] == x);
        assert forall|y: usize| #[trigger] t.contains(y) <==> s.contains(y) && y != x by {
            if s.contains(y) && y != x {
                let k = s.index_of(y);
                if k == s.len() - 1 {
                    assert(t[i] == y);
                } else {
                    assert(t[k] == y);
                }
            }
            if t.contains(y) {
                let k = t.index_of(y);
                if k == i {
                    assert(s[s.len() - 1] == y);
                } else {
                    assert(s[k] == y);
                }
            }
        }
    }
}

/// Removing several values leaves the other elements, still distinct.
pub proof fn lemma_swap_removed_all(s: Seq<usize>, xs: Seq<usize>)
    requires
        s.no_duplicates(),
    ensures
        swap_removed_all(s, xs).no_duplicates(),
        forall|y: usize| #[trigger]
            swap_removed_all(s, xs).contains(y) <==> s.contains(y) && !xs.contains(y),
    decreases xs.len(),
{
    if xs.len() > 0 {
        lemma_swap_removed_all(s, xs.drop_last());
        lemma_swap_removed(swap_removed_all(s, xs.drop_last()), xs.last());
        assert forall|y: usize| xs.contains(y) <==> xs.drop_last().contains(y) || y
            == xs.last() by {
            if xs.contains(y) {
                let i = xs.index_of(y);
                if i < xs.len() - 1 {
                    assert(xs.drop_last()[i] == y);
                }
            }
            if xs.drop_last().contains(y) {
                let i = xs.drop_last().index_of(y);
                assert(xs[i] == y);
            }
            assert(xs[xs.len() - 1] == xs.last());
        }
    }
}

/// Inserting two lists one after the other is inserting their concatenation.
pub proof fn lemma_inserted_concat(s: Seq<usize>, xs: Seq<usize>, ys: Seq<usize>)
    ensures
        inserted_all(s, xs + ys) == inserted_all(inserted_all(s, xs), ys),
    decreases ys.len(),
{
    if ys.len() == 0 {
        assert(xs + ys =~= xs);
    } else {
        lemma_inserted_concat(s, xs, ys.drop_last());
        assert((xs + ys).drop_last() =~= xs + ys.drop_last());
    }
}

/// Inserting a list of one element.
pub proof fn lemma_inserted_one(s: Seq<usize>, x: usize)
    ensures
        inserted_all(s, seq![x]) == inserted(s, x),
{
    assert(seq![x].drop_last() =~= Seq::<usize>::empty());
    assert(inserted_all(s, seq![x].drop_last()) == s);
}

/// A list of distinct numbers up to `n` has at most `n + 1` elements.
pub proof fn lemma_distinct_bound(s: Seq<usize>, n: int)
    requires
        s.no_duplicates(),
        forall|k: int| 0 <= k < s.len() ==> #[trigger] s[k] <= n,
        n >= -1,
    ensures
        s.len() <= n + 1,
    decreases n + 1,
{
    if s.len() > 0 {
        assert(s[0] <= n);
        if s.contains(n as usize) {
            let i = s.index_of(n as usize);
            let t = s.remove(i);
            assert forall|k: int| 0 <= k < t.len() implies #[trigger] t[k] <= n - 1 by {
                if k < i {
                    assert(t[k] == s[k]);
                } else {
                    assert(t[k] == s[k + 1]);
                }
            }
            lemma_distinct_bound(t, n - 1);
        } else {
            assert forall|k: int| 0 <= k < s.len() implies #[trigger] s[k] <= n - 1 by {
                assert(s[k] != n);
            }
            lemma_distinct_bound(s, n - 1);
        }
    }
}

/// The number of activations in all entries.
pub open spec fn entry_total(es: Seq<(usize, Seq<usize>)>) -> nat
    decreases es.len(),
{
    if es.len() == 0 {
        0
    } else {
        entry_total(es.drop_last()) + es.last().1.len()
    }
}

/// The number of activations in all entries that are not the first of their entry.
pub open spec fn entry_dups(es: Seq<(usize, Seq<usize>)>) -> nat
    decreases es.len(),
{
    if es.len() == 0 {
        0
    } else {
        (entry_dups(es.drop_last()) + es.last().1.len() - 1) as nat
    }
}

/// Whether no entry is empty.
pub open spec fn entries_filled(es: Seq<(usize, Seq<usize>)>) -> bool {
    forall|i: int| 0 <= i < es.len() ==> (#[trigger] es[i]).1.len() >= 1
}

proof fn lemma_entry_update(es: Seq<(usize, Seq<usize>)>, i: int, e: (usize, Seq<usize>))
    requires
        0 <= i < es.len(),
    ensures
        entry_total(es.update(i, e)) + es[i].1.len() == entry_total(es) + e.1.len(),
    decreases es.len(),
{
    let t = es.update(i, e);
    if i == es.len() - 1 {
        assert(t.drop_last() =~= es.drop_last());
    } else {
        lemma_entry_update(es.drop_last(), i, e);
        assert(t.drop_last() =~= es.drop_last().update(i, e));
    }
}

/// Adding an activation fills entries and adds at most one.
pub proof fn lemma_entry_added(es: Seq<(usize, Seq<usize>)>, pin: usize, act: usize)
    requires
        entries_filled(es),
    ensures
        entries_filled(entry_added(es, pin, act)),
        entry_total(entry_added(es, pin, act)) <= entry_total(es) + 1,
{
    let t = entry_added(es, pin, act);
    if exists|i: int| 0 <= i < es.len() && #[trigger] es[i].0 == pin {
        let i = entry_index(es, pin);
        let e = (pin, inserted(es[i].1, act));
        lemma_entry_update(es, i, e);
        assert(t == es.update(i, e));
        assert(e.1.len() <= es[i].1.len() + 1);
    } else {
        assert(t.drop_last() =~= es);
        assert(t.last().1 == seq![act]);
        assert(t.last().1.len() == 1);
    }
}

/// Not counting the first activation of each entry leaves at most as many.
pub proof fn lemma_entry_dups(es: Seq<(usize, Seq<usize>)>)
    requires
        entries_filled(es),
    ensures
        entry_dups(es) <= entry_total(es),
    decreases es.len(),
{
    if es.len() > 0 {
        assert(es[es.len() - 1].1.len() >= 1);
        assert forall|i: int| 0 <= i < es.drop_last().len() implies (
        #[trigger] es.drop_last()[i]).1.len() >= 1 by {
            assert(es[i].1.len() >= 1);
        }
        lemma_entry_dups(es.drop_last());
    }
}

/// Counts the activations that are not the first of their entry.
pub(crate) fn count_dups(m: &IndexMap<usize, IndexSet<usize>>) -> (n: usize)
    requires
        entries_filled(entries(*m)),
        entry_total(entries(*m)) <= usize::MAX,
    ensures
        n == entry_dups(entries(*m)),
{
    let sizes = map_sizes(m);
    let ghost es = entries(*m);
    let mut n: usize = 0;
    let mut k: usize = 0;
    assert(es.take(0) =~= Seq::<(usize, Seq<usize>)>::empty());
    while k < sizes.len()
        invariant
            k <= sizes@.len(),
            es == entries(*m),
            entries_filled(es),
            entry_total(es) <= usize::MAX,
            sizes@.len() == es.len(),
            forall|i: int| 0 <= i < sizes@.len() ==> #[trigger] sizes@[i] == es[i].1.len(),
            n == entry_dups(es.take(k as int)),
        decreases sizes@.len() - k,
    {
        proof {
            let t = es.take(k + 1);
            assert(t.drop_last() =~= es.take(k as int));
            assert(es[k as int].1.len() >= 1);
            lemma_entry_dups(t);
            lemma_entry_take(es, k + 1);
        }
        n += sizes[k] - 1;
        k += 1;
    }
    assert(es.take(es.len() as int) =~= es);
    n
}

proof fn lemma_entry_take(es: Seq<(usize, Seq<usize>)>, k: int)
    requires
        0 <= k <= es.len(),
    ensures
        entry_total(es.take(k)) <= entry_total(es),
    decreases es.len() - k,
{
    if k < es.len() {
        assert(es.take(k + 1).drop_last() =~= es.take(k));
        lemma_entry_take(es, k + 1);
    } else {
        assert(es.take(k) =~= es);
    }
}

} // verus!
