use gem::scope::{
    find_top_scope, match_scope_path, ReferenceIndex, Scope, ScopeItem, VCDHier, Var,
};
use std::collections::hash_map::DefaultHasher;
use std::hash::{Hash, Hasher};
use std::rc::Rc;

fn scope(name: &str, children: Vec<ScopeItem>) -> ScopeItem {
    ScopeItem::Scope(Scope { identifier: name.to_string(), children })
}

fn var(size: u32, index: Option<ReferenceIndex>) -> Var {
    Var { size, code: 7, reference: "v".to_string(), index }
}

#[test]
fn scope_path_components() {
    assert_eq!(match_scope_path("", "top"), Some(""));
    assert_eq!(match_scope_path("/", "top"), Some(""));
    assert_eq!(match_scope_path("top", "top"), Some(""));
    assert_eq!(match_scope_path("/top/cpu", "top"), Some("cpu"));
    assert_eq!(match_scope_path("top/cpu/alu", "top"), Some("cpu/alu"));
    assert_eq!(match_scope_path("top/", "top"), Some(""));
    assert_eq!(match_scope_path("top/cpu", "to"), None);
    assert_eq!(match_scope_path("top", "topmost"), None);
    assert_eq!(match_scope_path("//x", ""), Some("x"));
    assert_eq!(match_scope_path("\u{e9}t/b", "\u{e9}t"), Some("b"));
    assert_eq!(match_scope_path("\u{e9}t", "\u{e9}"), None);
}

#[test]
fn top_scope_is_found_by_path() {
    let items = vec![
        ScopeItem::Comment("top".to_string()),
        ScopeItem::Var(var(1, None)),
        scope("other", vec![scope("cpu", vec![])]),
        scope("top", vec![scope("mem", vec![]), scope("cpu", vec![ScopeItem::Var(var(1, None))])]),
    ];
    assert_eq!(find_top_scope(&items, "top/cpu").unwrap().children.len(), 1);
    assert_eq!(find_top_scope(&items, "/top").unwrap().children.len(), 2);
    assert_eq!(find_top_scope(&items, "other/cpu").unwrap().children.len(), 0);
    assert_eq!(find_top_scope(&items, "").unwrap().identifier, "other");
    assert!(find_top_scope(&items, "top/alu").is_none());
    assert!(find_top_scope(&items, "cpu").is_none());
    assert!(find_top_scope(&[], "").is_none());
}

#[test]
fn first_matching_scope_decides() {
    let items = vec![scope("top", vec![]), scope("top", vec![scope("cpu", vec![])])];
    assert!(find_top_scope(&items, "top/cpu").is_none());
}

#[test]
fn variable_bits() {
    assert_eq!(var(1, None).bits(), vec![(None, 0)]);
    assert_eq!(var(3, None).bits(), vec![(Some(2), 0), (Some(1), 1), (Some(0), 2)]);
    assert_eq!(var(0, None).bits(), vec![]);
    assert_eq!(var(1, Some(ReferenceIndex::BitSelect(5))).bits(), vec![(Some(5), 0)]);
    assert_eq!(
        var(3, Some(ReferenceIndex::Range(4, 2))).bits(),
        vec![(Some(4), 0), (Some(3), 1), (Some(2), 2)]
    );
    assert_eq!(
        var(3, Some(ReferenceIndex::Range(-1, 1))).bits(),
        vec![(Some(-1), 0), (Some(0), 1), (Some(1), 2)]
    );
    assert_eq!(var(1, Some(ReferenceIndex::Range(3, 3))).bits(), vec![(Some(3), 0)]);
    assert!(var(3, Some(ReferenceIndex::Range(4, 2))).fits());
    assert!(var(3, None).fits());
}

#[test]
fn hierarchical_names_end_at_the_top() {
    let top = VCDHier::single("top".to_string());
    let cpu = VCDHier { cur: "cpu".to_string(), prev: Some(Rc::new(top)) };
    let mut it = cpu.iter();
    assert_eq!(it.next().unwrap(), "cpu");
    assert!(it.0 == cpu.prev.as_deref());
    assert_eq!(it.next().unwrap(), "top");
    assert!(it.next().is_none());
    assert!(it.next().is_none());
    assert!(!cpu.is_empty());
}

#[test]
fn empty_names_have_no_components() {
    let e = VCDHier::empty();
    assert!(e.is_empty());
    assert!(e.iter().next().is_none());
    let odd = VCDHier { cur: String::new(), prev: Some(Rc::new(VCDHier::single("a".to_string()))) };
    assert!(!odd.is_empty());
    assert!(odd.iter().next().is_none());
}

fn below(cur: &str, prev: VCDHier) -> VCDHier {
    VCDHier { cur: cur.to_string(), prev: Some(Rc::new(prev)) }
}

fn hash(h: &VCDHier) -> u64 {
    let mut state = DefaultHasher::new();
    h.hash(&mut state);
    state.finish()
}

#[test]
fn hierarchical_names_hash_by_their_components() {
    let top = VCDHier::single("top".to_string());
    let cpu = below("cpu", top.clone());
    let mut state = DefaultHasher::new();
    "cpu".hash(&mut state);
    "top".hash(&mut state);
    assert_eq!(hash(&cpu), state.finish());
    assert_eq!(hash(&cpu), hash(&cpu.clone()));
    assert_eq!(hash(&cpu), hash(&below("cpu", below("top", VCDHier::empty()))));
    assert_ne!(hash(&cpu), hash(&top));
    assert_ne!(hash(&cpu), hash(&below("top", VCDHier::single("cpu".to_string()))));
    assert_eq!(hash(&VCDHier::empty()), DefaultHasher::new().finish());
}
