use c2rust_analyze::callgraph::{
    fn_body_owners_postorder, for_each_callee, is_impl_clone, BodyOwner, CalleeRef,
};
use c2rust_analyze::def_id::{DefId, DefKind, LocalDefId};
use c2rust_analyze::wellformed::are_owners_wf;

const CLONE: DefId = DefId { krate: 2, index: 7 };

fn local(index: u32) -> LocalDefId {
    LocalDefId { index }
}

fn callee(index: u32) -> Option<CalleeRef> {
    Some(CalleeRef {
        def_id: DefId { krate: 0, index },
        kind: DefKind::Fn,
        is_foreign: false,
    })
}

fn function(index: u32, callees: &[u32]) -> BodyOwner {
    BodyOwner {
        ldid: local(index),
        kind: DefKind::Fn,
        operands: callees.iter().map(|&c| callee(c)).collect(),
    }
}

fn order(owners: &Vec<BodyOwner>) -> Vec<u32> {
    fn_body_owners_postorder(owners).0.iter().map(|l| l.index).collect()
}

#[test]
fn callees_come_before_callers() {
    // 1 calls 2 and 3, 2 calls 3.
    let owners = vec![function(1, &[2, 3]), function(2, &[3]), function(3, &[])];
    assert_eq!(order(&owners), [3, 2, 1]);
}

#[test]
fn last_callee_is_visited_first() {
    let owners = vec![function(1, &[2, 3]), function(2, &[]), function(3, &[])];
    assert_eq!(order(&owners), [3, 2, 1]);
    let owners = vec![function(1, &[3, 2]), function(2, &[]), function(3, &[])];
    assert_eq!(order(&owners), [2, 3, 1]);
}

#[test]
fn recursion_is_broken_at_the_first_function() {
    let owners = vec![function(1, &[2]), function(2, &[1]), function(3, &[3])];
    assert_eq!(order(&owners), [2, 1, 3]);
}

#[test]
fn constants_and_statics_are_no_roots() {
    let mut owners = vec![function(1, &[]), function(2, &[]), function(3, &[])];
    owners[0].kind = DefKind::Static;
    owners[1].kind = DefKind::Const;
    assert_eq!(order(&owners), [3]);
}

#[test]
fn functions_that_nothing_refers_to_are_listed() {
    let mut owners = vec![function(1, &[]), function(2, &[])];
    owners[0].kind = DefKind::AssocFn;
    assert_eq!(order(&owners), [1, 2]);
    owners[0].operands = vec![callee(2)];
    assert_eq!(order(&owners), [2, 1]);
}

#[test]
fn clone_needs_the_trait() {
    assert!(is_impl_clone(Some(CLONE), Some(CLONE)));
    assert!(!is_impl_clone(Some(CLONE), None));
    assert!(!is_impl_clone(None, None));
    assert!(!is_impl_clone(None, Some(CLONE)));
    assert!(!is_impl_clone(Some(CLONE), Some(DefId { krate: 2, index: 8 })));
}

#[test]
fn only_functions_of_the_crate_are_callees() {
    let foreign = CalleeRef { def_id: DefId { krate: 0, index: 1 }, kind: DefKind::Fn, is_foreign: true };
    let other_crate =
        CalleeRef { def_id: DefId { krate: 1, index: 1 }, kind: DefKind::Fn, is_foreign: false };
    let ctor =
        CalleeRef { def_id: DefId { krate: 0, index: 2 }, kind: DefKind::Other, is_foreign: false };
    let method =
        CalleeRef { def_id: DefId { krate: 0, index: 3 }, kind: DefKind::AssocFn, is_foreign: false };
    let operands =
        vec![None, Some(foreign), Some(other_crate), Some(ctor), Some(method), callee(4)];
    assert_eq!(for_each_callee(&operands), [local(3), local(4)]);
}

#[test]
fn callers_are_the_reversed_calls() {
    let mut owners =
        vec![function(1, &[2, 3, 3]), function(2, &[3]), function(3, &[]), function(4, &[3])];
    owners[3].kind = DefKind::Static;
    let (_, graph) = fn_body_owners_postorder(&owners);
    let is_caller = |l: u32, c: u32| {
        graph.get(local(l)).unwrap().contains(DefId { krate: 0, index: c })
    };
    // Nothing refers to 1, and 4 is no function.
    assert_eq!(graph.len(), 2);
    assert!(graph.get(local(1)).is_none());
    assert!(is_caller(2, 1) && !is_caller(2, 2) && !is_caller(2, 3));
    assert!(is_caller(3, 1) && is_caller(3, 2) && !is_caller(3, 3) && !is_caller(3, 4));
}

#[test]
fn recursive_functions_call_themselves() {
    let (order, graph) = fn_body_owners_postorder(&vec![function(1, &[1])]);
    assert_eq!(order, [local(1)]);
    assert!(graph.get(local(1)).unwrap().contains(DefId { krate: 0, index: 1 }));
}

#[test]
fn owners_that_fit_together_are_recognized() {
    assert!(are_owners_wf(&vec![]));
    assert!(are_owners_wf(&vec![function(1, &[2]), function(2, &[1])]));
    assert!(!are_owners_wf(&vec![function(1, &[2])]));
    assert!(!are_owners_wf(&vec![function(1, &[]), function(1, &[])]));
    let mut owner = function(1, &[2]);
    owner.kind = DefKind::Const;
    assert!(are_owners_wf(&vec![owner]));
    let mut owner = function(1, &[]);
    owner.kind = DefKind::Struct;
    assert!(!are_owners_wf(&vec![owner]));
    // What is called must be a function.
    let mut owner = function(2, &[]);
    owner.kind = DefKind::Static;
    assert!(!are_owners_wf(&vec![function(1, &[2]), owner]));
}
