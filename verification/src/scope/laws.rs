//! What scope paths lead to, and what the bits of a variable are.
use crate::scope::{
    bits_of, path_rest, scope_at, without_slash, ReferenceIndex, ScopeItem, Var,
};
use vstd::prelude::*;
use vstd::utf8::encode_utf8;

verus! {

/// Whether a path reads `p`, with or without one separator in front.
pub open spec fn spells(path: Seq<u8>, p: Seq<u8>) -> bool {
    ||| path == seq![0x2fu8] + p
    ||| path == p && (p.len() == 0 || p[0] != 0x2f)
}

/// A path that reads as nothing matches any component, and nothing remains of it. Any other path
/// matches a component if it consists of it, and nothing remains, or of the component, a
/// separator and the rest.
pub proof fn law_path_rest(path: Seq<u8>, p: Seq<u8>, cur: Seq<u8>, rest: Seq<u8>)
    requires
        spells(path, p),
    ensures
        path_rest(path, cur) == Some(rest) <==> if p.len() == 0 {
            rest.len() == 0
        } else {
            (p == cur && rest.len() == 0) || p == cur + seq![0x2fu8] + rest
        },
{
    assert(without_slash(path) =~= p);
    if rest.len() == 0 {
        assert(rest =~= Seq::<u8>::empty());
    }
    let n = cur.len() as int;
    if p == cur + seq![0x2fu8] + rest {
        assert(p.subrange(0, n) =~= cur);
        assert(p.skip(n + 1) =~= rest);
    }
    if p.len() > 0 && cur.is_prefix_of(p) {
        if p.len() == n {
            assert(p =~= cur);
        } else if p[n] == 0x2f {
            assert(p =~= cur + seq![0x2fu8] + p.skip(n + 1));
        }
    }
}

/// Whether an item is a scope whose name matches the first component of a path.
pub open spec fn enters(item: ScopeItem, path: Seq<u8>) -> bool {
    match item {
        ScopeItem::Scope(scope) => path_rest(path, encode_utf8(scope.identifier@)) is Some,
        _ => false,
    }
}

/// A path leads to nothing if no item matches its first component. Otherwise the first item that
/// does decides: the path leads to it if nothing remains, and else to where the rest leads
/// among the items in it.
pub proof fn law_scope_at(items: Seq<ScopeItem>, path: Seq<u8>)
    ensures
        (forall|i: int| 0 <= i < items.len() ==> !enters(#[trigger] items[i], path)) ==> scope_at(
            items,
            path,
            0,
        ) is None,
        forall|k: int|
            0 <= k < items.len() && enters(#[trigger] items[k], path) && (forall|i: int|
                0 <= i < k ==> !enters(#[trigger] items[i], path)) ==> {
                &&& items[k] matches ScopeItem::Scope(scope)
                &&& path_rest(path, encode_utf8(scope.identifier@)) matches Some(rest)
                &&& rest.len() == 0 ==> scope_at(items, path, 0) == Some(scope)
                &&& rest.len() > 0 ==> scope_at(items, path, 0) == scope_at(
                    scope.children@,
                    rest,
                    0,
                )
            },
{
    lemma_scope_from(items, path, 0);
}

proof fn lemma_scope_from(items: Seq<ScopeItem>, path: Seq<u8>, from: int)
    requires
        0 <= from <= items.len(),
    ensures
        (forall|i: int| from <= i < items.len() ==> !enters(#[trigger] items[i], path)) ==> scope_at(
            items,
            path,
            from,
        ) is None,
        forall|k: int|
            from <= k < items.len() && enters(#[trigger] items[k], path) && (forall|i: int|
                from <= i < k ==> !enters(#[trigger] items[i], path)) ==> {
                &&& items[k] matches ScopeItem::Scope(scope)
                &&& path_rest(path, encode_utf8(scope.identifier@)) matches Some(rest)
                &&& rest.len() == 0 ==> scope_at(items, path, from) == Some(scope)
                &&& rest.len() > 0 ==> scope_at(items, path, from) == scope_at(
                    scope.children@,
                    rest,
                    0,
                )
            },
    decreases items.len() - from,
{
    if from < items.len() {
        lemma_scope_from(items, path, from + 1);
        if !enters(items[from], path) {
            assert(scope_at(items, path, from) == scope_at(items, path, from + 1));
        }
        assert forall|k: int|
            from <= k < items.len() && enters(#[trigger] items[k], path) && (forall|i: int|
                from <= i < k ==> !enters(#[trigger] items[i], path)) implies ({
            &&& items[k] matches ScopeItem::Scope(scope)
            &&& path_rest(path, encode_utf8(scope.identifier@)) matches Some(rest)
            &&& rest.len() == 0 ==> scope_at(items, path, from) == Some(scope)
            &&& rest.len() > 0 ==> scope_at(items, path, from) == scope_at(scope.children@, rest, 0)
        }) by {
            if k > from {
                assert(!enters(items[from], path));
            }
        }
    }
}

/// The bits of a variable stand at the positions from 0 on. One bit without an index has none;
/// several bits without indices are counted down to 0; a selected bit has its index, and the
/// indices of a range go from its first end to its second, one by one.
pub proof fn law_bits(var: Var)
    ensures
        ({
            let bits = bits_of(var);
            &&& forall|k: int| 0 <= k < bits.len() ==> (#[trigger] bits[k]).1 == k as usize
            &&& match var.index {
                None => {
                    &&& bits.len() == var.size
                    &&& var.size == 1 ==> bits[0].0 is None
                    &&& var.size != 1 ==> forall|k: int|
                        0 <= k < bits.len() ==> (#[trigger] bits[k]).0 == Some(
                            (var.size - 1 - k) as isize,
                        )
                },
                Some(ReferenceIndex::BitSelect(i)) => bits.len() == 1 && bits[0].0 == Some(
                    i as isize,
                ),
                Some(ReferenceIndex::Range(a, b)) => {
                    &&& bits.len() == if a <= b {
                        b - a + 1
                    } else {
                        a - b + 1
                    }
                    &&& forall|k: int|
                        0 <= k < bits.len() ==> (#[trigger] bits[k]).0 == Some(
                            (if a <= b {
                                a + k
                            } else {
                                a - k
                            }) as isize,
                        )
                },
            }
        }),
{
}

} // verus!
