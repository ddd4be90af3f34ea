use c2rust_analyze::analysis::FuncInfo;
use c2rust_analyze::assigning::{Assigning, NodeError};
use c2rust_analyze::assignment::is_fixed_kept;
use c2rust_analyze::callbacks::{AnalysisCallbacks, Compilation};
use c2rust_analyze::checking::{CheckStep, Checking};
use c2rust_analyze::constraining::Constraining;
use c2rust_analyze::context::PanicDetail;
use c2rust_analyze::def_id::{DefId, DefIdSet, DefKind, DefMap, LocalDefId};
use c2rust_analyze::definitions::Definition;
use c2rust_analyze::flags::{FlagSet, PermissionSet, PointerInfo};
use c2rust_analyze::gathering::Gathering;
use c2rust_analyze::labeling::{FnDecl, StaticDecl};
use c2rust_analyze::mir::{Body, LocalDecl, LocalKind};
use c2rust_analyze::pdg::{DefPathHash, Node, NodeDest, NodeInfo, NodeOutcome};
use c2rust_analyze::permissions::KnownPerms;
use c2rust_analyze::pointee::{duplicate_types, PointeeTypes};
use c2rust_analyze::pointer_id::PointerId;
use c2rust_analyze::program::{FnAttrs, Program};
use c2rust_analyze::remap::are_numbers_within;
use c2rust_analyze::remapping::{LocalNumbers, Remapping};
use c2rust_analyze::report::Rewrite;
use c2rust_analyze::rewriting::{report_order, RewriteStep, Rewriting};
use c2rust_analyze::solving::{SolveStep, Solving};
use c2rust_analyze::ty::{Ty, TyCtor, TyNode};

type Info = FuncInfo<&'static str, u8, char, bool>;
type First = Constraining<&'static str, u8, char, bool>;

fn did(index: u32) -> DefId {
    DefId { krate: 0, index }
}

fn raw() -> Ty {
    Ty {
        nodes: vec![
            TyNode { ctor: TyCtor::RawPtr, arity: 1, ty: 0 },
            TyNode { ctor: TyCtor::Other, arity: 0, ty: 1 },
        ],
    }
}

const PLAIN: FnAttrs =
    FnAttrs { fail_before_analysis: false, fail_before_rewriting: false, skip_rewrite: false };

/// The functions 1 to `n`, each of type `fn(*mut i32)`, with one variable of type `*mut i32`, and
/// the static 100.
fn program(n: u32) -> Program {
    let body = || Body {
        locals: vec![
            LocalDecl {
                kind: LocalKind::ReturnPointer,
                ty: Ty { nodes: vec![TyNode { ctor: TyCtor::Other, arity: 0, ty: 2 }] },
            },
            LocalDecl { kind: LocalKind::Arg, ty: raw() },
            LocalDecl { kind: LocalKind::Var, ty: raw() },
        ],
        blocks: vec![],
    };
    let decl = |index: u32| FnDecl {
        did: did(index),
        inputs: vec![raw()],
        output: Ty { nodes: vec![TyNode { ctor: TyCtor::Other, arity: 0, ty: 2 }] },
    };
    Program {
        order: (1..=n).map(|index| LocalDefId { index }).collect(),
        decls: (1..=n).map(decl).collect(),
        bodies: (1..=n).map(|_| body()).collect(),
        attrs: (1..=n).map(|_| PLAIN).collect(),
        hashes: (1..=n).map(|i| DefPathHash { high: 7, low: i as u64 }).collect(),
        defs: vec![Definition {
            ldid: LocalDefId { index: 100 },
            kind: DefKind::Static,
            fixed_signature: false,
        }],
        statics: vec![StaticDecl { did: did(100), ty: raw() }],
        adts: DefMap::new(),
        foreign_items: vec![],
        fixed_defs: DefIdSet::new(),
    }
}

fn failure(msg: &str) -> PanicDetail {
    PanicDetail::new(msg)
}

/// Labels all functions; those in `failing` fail.
fn constrain(program: Program, failing: &[usize]) -> First {
    let (mut c, compilation): (First, Compilation) = AnalysisCallbacks.after_expansion(program);
    assert_eq!(compilation, Compilation::Continue);
    while let Some(i) = c.next() {
        if failing.contains(&i) {
            c.generated(Err(failure("constraints")));
        } else {
            c.generated(Ok(('c', true)));
        }
    }
    c
}

fn no_types(n: usize) -> Vec<PointeeTypes> {
    (0..n).map(|_| PointeeTypes { ltys: vec![], incomplete: false }).collect()
}

/// Solves all constraints without finding anything.
fn solve(c: First) -> Solving<&'static str, u8, char, bool> {
    let mut s = Solving::start(c);
    loop {
        match s.next() {
            SolveStep::Function(i) => {
                let local = s.a.infos[i].as_ref().unwrap().local_pointee_types.get().values.len();
                let global = duplicate_types(&s.types.values);
                s.solved(global, no_types(local));
            }
            SolveStep::NewRound => {}
            SolveStep::Finished => return s,
            SolveStep::TooManyRounds => panic!("too many rounds"),
        }
    }
}

/// Gathers the flow of all functions; those in `failing` fail.
fn gather(
    s: Solving<&'static str, u8, char, bool>,
    failing: &[usize],
) -> Gathering<&'static str, u8, char, bool> {
    let mut g = Gathering::start(s);
    while let Some(i) = g.next() {
        if failing.contains(&i) {
            g.gathered(Err(failure("dataflow")));
        } else {
            g.gathered(Ok(("old", 5)));
        }
    }
    g
}

/// Gives all pointers the numbers that they have.
fn remap(g: Gathering<&'static str, u8, char, bool>) -> Remapping<&'static str, u8, char, bool> {
    let n = g.a.gacx.ptr_info.values.len();
    let map = (0..n).map(PointerId::Global).collect();
    let infos = g.a.gacx.ptr_info.values.clone();
    let mut r = Remapping::start(g, map, infos, no_types(n));
    while let Some(i) = r.next() {
        let local = r.a.infos[i].as_ref().unwrap().acx_data.get().ptr_info.values.clone();
        let numbers = LocalNumbers {
            map: (0..local.len()).map(PointerId::Local).collect(),
            types: no_types(local.len()),
            ptr_info: local,
            global_ptr_info: r.a.gacx.ptr_info.values.clone(),
            global_types: no_types(n),
            dataflow: "new",
        };
        r.remapped(numbers);
    }
    r
}

fn assign(program: Program) -> Assigning<&'static str, u8, char, bool> {
    Assigning::start(remap(gather(solve(constrain(program, &[])), &[])), &vec![], vec![])
}

/// Hands back what there is about the function at position `i`.
fn keep_cells(
    c: &mut Checking<&'static str, u8, char, bool>,
    i: usize,
    result: Result<(), PanicDetail>,
) {
    let perms = c.s.gasn.perms.values.clone();
    let flags = c.s.gasn.flags.values.clone();
    let lasn = c.s.a.infos[i].as_ref().unwrap().lasn.get();
    let local_perms = lasn.perms.values.clone();
    let local_flags = lasn.flags.values.clone();
    c.cells_checked(perms, flags, local_perms, local_flags, result);
}

/// Checks all functions without changing a permission.
fn check(s: Assigning<&'static str, u8, char, bool>) -> Checking<&'static str, u8, char, bool> {
    let mut c = Checking::start(s);
    loop {
        match c.next() {
            CheckStep::Borrows(i) => {
                let perms = c.s.gasn.perms.values.clone();
                let local = c.s.a.infos[i].as_ref().unwrap().lasn.get().perms.values.clone();
                c.checked(perms, local, Ok(()));
            }
            CheckStep::Cells(i) => keep_cells(&mut c, i, Ok(())),
            CheckStep::Round { .. } => {}
            CheckStep::Finished => return c,
        }
    }
}

fn rw(text: &str) -> Rewrite<u32> {
    Rewrite { place: "1: x".to_string(), text: text.to_string(), edit: 0 }
}

#[test]
fn functions_are_labeled_in_order() {
    let c = constrain(program(3), &[1]);
    assert_eq!(c.a.infos.len(), 3);
    assert!(c.a.infos[1].is_none());
    assert!(c.a.gacx.fn_failed(did(2)));
    let info: &Info = c.a.infos[2].as_ref().unwrap();
    assert_eq!(*info.pointee_constraints.get(), 'c');
    let acx = info.acx_data.get();
    assert_eq!(acx.local_tys[1].nodes[0].label, PointerId::Global(2));
    assert_eq!(acx.local_tys[2].nodes[0].label, PointerId::Local(2));
    assert_eq!(info.local_pointee_types.get().values.len(), acx.ptr_info.values.len());
}

#[test]
fn arguments_without_types_give_up_one_function() {
    let mut p = program(3);
    // One argument more than the signature has.
    p.bodies[1].locals[2].kind = LocalKind::Arg;
    assert!(p.is_wf());
    let (mut c, _): (First, Compilation) = AnalysisCallbacks.after_expansion(p);
    assert_eq!(c.next(), Some(0));
    c.generated(Ok(('c', true)));
    let infos: Vec<u16> = c.a.gacx.ptr_info.values.iter().map(|i| i.bits).collect();
    assert_eq!(c.next(), Some(2));
    assert!(c.a.infos[1].is_none());
    let detail = c.a.gacx.fns_failed.get(did(2)).unwrap();
    assert_eq!(detail.short, "argument without a type in the signature");
    // The pointers of its signature are as they were.
    assert_eq!(c.a.gacx.ptr_info.values[1].bits, infos[1]);
    c.generated(Ok(('c', true)));
    assert_eq!(c.next(), None);
    assert_eq!(c.a.gacx.fns_failed.len(), 1);
    // The others are analyzed to the end, and the signature of the function is fixed.
    let s = Assigning::start(remap(gather(solve(c), &[])), &vec![], vec![]);
    let mut r = Rewriting::start(check(s), vec![]);
    assert!(r.s.gasn.flags.values[1].contains(FlagSet::FIXED));
    assert!(!r.s.gasn.flags.values[0].contains(FlagSet::FIXED));
    assert_eq!(r.next(), RewriteStep::Function(0));
    r.rewritten("\"f\"", Ok((vec![rw("f")], vec![])));
    assert_eq!(r.next(), RewriteStep::Function(2));
}

#[test]
fn misfits_at_the_end_are_given_up() {
    let mut p = program(2);
    p.bodies[0].locals[2].kind = LocalKind::Arg;
    p.bodies[1].locals[2].kind = LocalKind::Arg;
    let (mut c, _): (First, Compilation) = AnalysisCallbacks.after_expansion(p);
    assert_eq!(c.next(), None);
    assert_eq!(c.a.infos.len(), 2);
    assert!(c.a.gacx.fn_failed(did(1)) && c.a.gacx.fn_failed(did(2)));
}

#[test]
fn unread_bodies_are_given_up() {
    let (mut c, _): (First, Compilation) = AnalysisCallbacks.after_expansion(program(2));
    c.give_up(0, failure("unread"));
    assert_eq!(c.next(), Some(1));
    assert!(c.a.infos[0].is_none());
    assert_eq!(c.a.gacx.fns_failed.get(did(1)).unwrap().short, "unread");
}

#[test]
fn fixed_flags_must_stay() {
    let plain = FlagSet { bits: 0 };
    let fixed = FlagSet { bits: FlagSet::FIXED };
    assert!(is_fixed_kept(&vec![plain, fixed], &vec![fixed, fixed]));
    assert!(!is_fixed_kept(&vec![plain, fixed], &vec![fixed, plain]));
    assert!(!is_fixed_kept(&vec![plain], &vec![]));
    assert!(is_fixed_kept(&vec![], &vec![]));
}

#[test]
fn solving_stops_when_nothing_changes() {
    let mut s = Solving::start(constrain(program(2), &[]));
    let mut steps = Vec::new();
    let mut found = false;
    loop {
        let step = s.next();
        steps.push(step);
        match step {
            SolveStep::Function(i) => {
                let local = s.a.infos[i].as_ref().unwrap().local_pointee_types.get().values.len();
                let mut global = duplicate_types(&s.types.values);
                if !found {
                    global[0].ltys.push(9);
                    found = true;
                }
                s.solved(global, no_types(local));
            }
            SolveStep::NewRound => {}
            _ => break,
        }
    }
    assert_eq!(
        steps,
        [
            SolveStep::Function(0),
            SolveStep::Function(1),
            SolveStep::NewRound,
            SolveStep::Function(0),
            SolveStep::Function(1),
            SolveStep::Finished,
        ]
    );
    assert_eq!(s.round, 2);
}

#[test]
fn incomplete_types_are_found_anew_in_each_round() {
    let mut s = Solving::start(constrain(program(1), &[]));
    let mut rounds: usize = 1;
    loop {
        match s.next() {
            SolveStep::Function(i) => {
                // The round begins with complete types.
                assert!(!s.types.values[0].incomplete);
                let local = s.a.infos[i].as_ref().unwrap().local_pointee_types.get().values.len();
                let mut global = duplicate_types(&s.types.values);
                global[0].incomplete = true;
                s.solved(global, no_types(local));
            }
            SolveStep::NewRound => rounds += 1,
            SolveStep::Finished => break,
            SolveStep::TooManyRounds => panic!("too many rounds"),
        }
    }
    assert_eq!(rounds, 2);
    assert!(s.types.values[0].incomplete);
}

#[test]
fn solving_gives_up_after_too_many_rounds() {
    let mut s = Solving::start(constrain(program(1), &[]));
    let mut rounds: usize = 1;
    loop {
        match s.next() {
            SolveStep::Function(i) => {
                let local = s.a.infos[i].as_ref().unwrap().local_pointee_types.get().values.len();
                let mut global = duplicate_types(&s.types.values);
                global[0].ltys = vec![rounds];
                s.solved(global, no_types(local));
            }
            SolveStep::NewRound => rounds += 1,
            SolveStep::Finished => panic!("finished"),
            SolveStep::TooManyRounds => break,
        }
    }
    assert_eq!(rounds, 1000);
}

#[test]
fn labels_of_a_function_without_flow_stay() {
    let g = gather(solve(constrain(program(2), &[])), &[0]);
    assert!(g.a.gacx.fn_failed(did(1)));
    let info = g.a.infos[0].as_ref().unwrap();
    assert_eq!(info.acx_data.get().local_tys.len(), 3);
    assert_eq!(*g.a.infos[1].as_ref().unwrap().local_equiv.get(), 5);
}

#[test]
fn equivalent_pointers_get_the_same_number() {
    let g = gather(solve(constrain(program(2), &[])), &[]);
    // Pointers 0 and 1 are the arguments, 2 and 3 belong to the static.
    let map = vec![0, 0, 1, 1].into_iter().map(PointerId::Global).collect();
    let infos = vec![PointerInfo { bits: 2 }, PointerInfo { bits: 0 }];
    let mut r = Remapping::start(g, map, infos, no_types(2));
    for index in [1, 2] {
        let sig = r.a.gacx.fn_sigs.get(did(index)).unwrap();
        assert_eq!(sig.inputs[0].nodes[0].label, PointerId::Global(0));
    }
    assert_eq!(
        r.a.gacx.static_tys.get(did(100)).unwrap().nodes[0].label,
        PointerId::Global(1)
    );
    assert_eq!(*r.a.gacx.addr_of_static.get(did(100)).unwrap(), PointerId::Global(1));
    assert_eq!(r.next(), Some(0));
    let numbers = LocalNumbers {
        map: vec![
            PointerId::Local(0),
            PointerId::Local(0),
            PointerId::Global(1),
            PointerId::Local(0),
        ],
        ptr_info: vec![PointerInfo { bits: 4 }],
        global_ptr_info: vec![PointerInfo { bits: 2 }, PointerInfo { bits: 1 }],
        types: no_types(1),
        global_types: no_types(2),
        dataflow: "new",
    };
    r.remapped(numbers);
    let info = r.a.infos[0].as_ref().unwrap();
    assert_eq!(info.acx_data.get().local_tys[1].nodes[0].label, PointerId::Global(0));
    assert_eq!(info.acx_data.get().local_tys[2].nodes[0].label, PointerId::Global(1));
    assert_eq!(info.acx_data.get().addr_of_local, [PointerId::Local(0); 3]);
    assert_eq!(*info.dataflow.get(), "new");
    assert_eq!(r.a.gacx.ptr_info.values[1], PointerInfo { bits: 1 });
    assert_eq!(r.next(), Some(1));
}

#[test]
fn known_permissions_are_put_in_at_the_start() {
    let r = remap(gather(solve(constrain(program(1), &[])), &[]));
    let read = PermissionSet { bits: PermissionSet::READ };
    let s = Assigning::start(
        r,
        &vec![],
        vec![KnownPerms { ptr: PointerId::Global(1), perms: read }],
    );
    let unique = PermissionSet { bits: PermissionSet::UNIQUE };
    assert_eq!(s.gasn.perms.values, [unique, read, unique]);
    let lasn = s.a.infos[0].as_ref().unwrap().lasn.get();
    assert!(lasn.perms.values.iter().all(|p| *p == unique));
}

fn recorded(low: u64, local: usize) -> Node {
    Node {
        function: DefPathHash { high: 7, low },
        function_name: "f".to_string(),
        dest: Some(NodeDest { local, has_projection: false }),
        info: Some(NodeInfo {
            load: true,
            store: false,
            pos_offset: false,
            neg_offset: false,
            unique: true,
        }),
    }
}

#[test]
fn recorded_nodes_are_applied_to_their_functions() {
    let mut s = assign(program(2));
    let flags = s.gasn.flags.values.clone();
    let outcomes = s.record_all(&vec![recorded(2, 1), recorded(1, 2), recorded(1, 0)]).unwrap();
    assert!(matches!(outcomes[0], NodeOutcome::Changed(PointerId::Global(1), _)));
    assert!(matches!(outcomes[1], NodeOutcome::Changed(PointerId::Local(2), _)));
    assert_eq!(outcomes[2], NodeOutcome::NotAPointer(0));
    assert!(s.gasn.perms.values[1].contains(PermissionSet::READ));
    assert!(!s.gasn.perms.values[0].contains(PermissionSet::READ));
    let lasn = s.a.infos[0].as_ref().unwrap().lasn.get();
    assert!(lasn.perms.values[2].contains(PermissionSet::READ));
    // Nothing but permissions changes.
    assert_eq!(s.gasn.flags.values, flags);
    assert_eq!(s.a.gacx.fns_failed.len(), 0);
}

#[test]
fn unknown_nodes_are_refused() {
    let mut s = assign(program(1));
    assert_eq!(
        s.record_all(&vec![recorded(1, 1), recorded(9, 1)]),
        Err((1, NodeError::UnknownFunction))
    );
    assert_eq!(s.record_all(&vec![recorded(1, 7)]), Err((0, NodeError::BadLocal(0))));
    let r = remap(gather(solve(constrain(program(1), &[0])), &[]));
    let mut s = Assigning::start(r, &vec![], vec![]);
    assert_eq!(s.record_all(&vec![recorded(1, 1)]), Err((0, NodeError::NoInfo(0))));
}

#[test]
fn rounds_end_when_the_assignment_stays() {
    let mut c = Checking::start(assign(program(2)));
    let mut log = Vec::new();
    let mut changed_once = false;
    loop {
        match c.next() {
            CheckStep::Borrows(i) => {
                log.push(format!("borrows {}", i));
                let mut perms = c.s.gasn.perms.values.clone();
                if !changed_once {
                    perms[0] = PermissionSet { bits: PermissionSet::READ };
                    changed_once = true;
                }
                let local = c.s.a.infos[i].as_ref().unwrap().lasn.get().perms.values.clone();
                c.checked(perms, local, Ok(()));
            }
            CheckStep::Round { round, changed, is_last } => {
                log.push(format!("round {}: {} changed, last {}", round, changed.len(), is_last));
            }
            CheckStep::Cells(i) => {
                log.push(format!("cells {}", i));
                keep_cells(&mut c, i, Ok(()));
            }
            CheckStep::Finished => break,
        }
    }
    assert_eq!(
        log,
        [
            "borrows 0",
            "borrows 1",
            "round 1: 1 changed, last false",
            "borrows 0",
            "borrows 1",
            "round 2: 0 changed, last true",
            "cells 0",
            "cells 1",
        ]
    );
}

#[test]
fn functions_that_fail_are_not_checked_again() {
    let mut c = Checking::start(assign(program(2)));
    assert!(matches!(c.next(), CheckStep::Borrows(0)));
    let mut perms = c.s.gasn.perms.values.clone();
    perms[2] = PermissionSet { bits: 0 };
    let local = c.s.a.infos[0].as_ref().unwrap().lasn.get().perms.values.clone();
    c.checked(perms, local, Err(failure("borrows")));
    // What was found before the failure stays.
    assert_eq!(c.s.gasn.perms.values[2], PermissionSet { bits: 0 });
    assert!(matches!(c.next(), CheckStep::Borrows(1)));
    assert!(c.s.a.gacx.fn_failed(did(1)));
    assert_eq!(c.s.a.gacx.fns_failed.get(did(1)).unwrap().short, "borrows");
}

#[test]
fn cells_change_permissions_and_flags() {
    let mut c = Checking::start(assign(program(2)));
    for i in [0, 1] {
        assert!(matches!(c.next(), CheckStep::Borrows(k) if k == i));
        let perms = c.s.gasn.perms.values.clone();
        let local = c.s.a.infos[i].as_ref().unwrap().lasn.get().perms.values.clone();
        c.checked(perms, local, Ok(()));
    }
    assert!(matches!(c.next(), CheckStep::Round { is_last: true, .. }));
    assert!(matches!(c.next(), CheckStep::Cells(0)));
    let mut perms = c.s.gasn.perms.values.clone();
    let mut flags = c.s.gasn.flags.values.clone();
    let lasn = c.s.a.infos[0].as_ref().unwrap().lasn.get();
    let mut local_perms = lasn.perms.values.clone();
    let mut local_flags = lasn.flags.values.clone();
    perms[0] = PermissionSet { bits: 0x100 };
    flags[0] = FlagSet { bits: 0x4 };
    local_perms[0] = PermissionSet { bits: 0x101 };
    local_flags[0] = FlagSet { bits: 0x8 };
    c.cells_checked(perms, flags, local_perms, local_flags, Ok(()));
    assert_eq!(c.s.gasn.perms.values[0], PermissionSet { bits: 0x100 });
    assert_eq!(c.s.gasn.flags.values[0], FlagSet { bits: 0x4 });
    let lasn = c.s.a.infos[0].as_ref().unwrap().lasn.get();
    assert_eq!(lasn.perms.values[0], PermissionSet { bits: 0x101 });
    assert_eq!(lasn.flags.values[0], FlagSet { bits: 0x8 });
    assert!(matches!(c.next(), CheckStep::Cells(1)));
    keep_cells(&mut c, 1, Err(failure("cells")));
    assert!(c.s.a.gacx.fn_failed(did(2)));
    assert!(matches!(c.next(), CheckStep::Finished));
}

#[test]
fn marked_functions_fail_on_purpose() {
    let mut p = program(3);
    p.attrs[0].fail_before_analysis = true;
    p.attrs[1].fail_before_rewriting = true;
    let c = check(assign(p));
    assert!(c.s.a.gacx.fn_failed(did(1)));
    assert!(!c.s.a.gacx.fn_failed(did(2)));
    let detail = c.s.a.gacx.fns_failed.get(did(1)).unwrap();
    assert_eq!(detail.short, "explicit fail_before_analysis for testing");
    assert!(!detail.has_backtrace);
    let r: Rewriting<_, _, _, _, u32> = Rewriting::start(c, vec![]);
    let detail = r.s.a.gacx.fns_failed.get(did(2)).unwrap();
    assert_eq!(detail.short, "explicit fail_before_rewriting for testing");
    assert!(!r.s.a.gacx.fn_failed(did(3)));
    // Their signatures are fixed from the start.
    let fixed: Vec<bool> =
        r.s.gasn.flags.values.iter().map(|f| f.contains(FlagSet::FIXED)).collect();
    assert_eq!(fixed, [true, true, false, false, false]);
}

#[test]
fn rewrites_are_gathered() {
    let mut p = program(3);
    p.attrs[1].skip_rewrite = true;
    p.fixed_defs.insert(did(3));
    let mut r = Rewriting::start(check(assign(p)), vec![did(50), did(3)]);
    assert_eq!(r.next(), RewriteStep::Function(0));
    r.rewritten("\"f\"", Ok((vec![rw("e")], vec![rw("t")])));
    // The other functions are left alone.
    assert_eq!(r.next(), RewriteStep::ShimCalls);
    r.calls_rewritten(vec![rw("call")], vec![did(2)]);
    assert_eq!(r.next(), RewriteStep::Shim(did(2)));
    r.shim_generated(Ok(rw("shim")));
    assert_eq!(r.next(), RewriteStep::NextStage);
    assert_eq!(r.next(), RewriteStep::Static(did(100), PointerId::Global(4)));
    r.static_rewritten(vec![rw("static")]);
    assert_eq!(r.next(), RewriteStep::NextStage);
    assert_eq!(r.next(), RewriteStep::Adt(did(50)));
    r.adt_rewritten("S", vec![rw("adt")]);
    // The second one is fixed.
    assert_eq!(r.next(), RewriteStep::Finished);
    let texts: Vec<&str> = r.out.rewrites.iter().map(|w| w.text.as_str()).collect();
    assert_eq!(texts, ["e", "t", "call", "shim", "static", "adt"]);
    assert_eq!(
        r.out.fn_reports.get(did(1)).unwrap(),
        "generated 1 expr rewrites + 1 ty rewrites for \"f\":\n  1: x: e\n  1: x: t\n\n"
    );
    assert_eq!(r.out.statics_report, "generated 1 static rewrites:\n    1: x: static\n");
    assert_eq!(
        r.out.adt_reports.get(did(50)).unwrap(),
        "generated 1 ADT rewrites for S:\n    1: x: adt\n"
    );
}

#[test]
fn failed_shim_starts_a_new_try() {
    let mut r = Rewriting::start(check(assign(program(2))), vec![]);
    assert_eq!(r.next(), RewriteStep::Function(0));
    r.rewritten("\"f\"", Ok((vec![rw("first")], vec![])));
    assert_eq!(r.next(), RewriteStep::Function(1));
    r.rewritten("\"g\"", Ok((vec![rw("second")], vec![])));
    assert_eq!(r.next(), RewriteStep::ShimCalls);
    r.calls_rewritten(vec![], vec![did(2)]);
    assert_eq!(r.next(), RewriteStep::Shim(did(2)));
    r.shim_generated(Err(failure("shim")));
    assert_eq!(r.next(), RewriteStep::NewTry);
    assert!(r.out.rewrites.is_empty());
    assert!(r.out.fn_reports.get(did(1)).is_none());
    assert!(r.s.gasn.flags.values[1].contains(FlagSet::FIXED));
    assert_eq!(r.next(), RewriteStep::Function(0));
    r.rewritten("\"f\"", Ok((vec![rw("again")], vec![])));
    assert_eq!(r.next(), RewriteStep::ShimCalls);
    r.calls_rewritten(vec![], vec![]);
    assert_eq!(r.next(), RewriteStep::NextStage);
    assert_eq!(r.out.rewrites.len(), 1);
}

#[test]
fn failed_rewrite_gives_the_function_up() {
    let mut r: Rewriting<_, _, _, _, u32> = Rewriting::start(check(assign(program(2))), vec![]);
    assert_eq!(r.next(), RewriteStep::Function(0));
    r.rewritten("\"f\"", Err(failure("rewrite")));
    assert!(r.out.rewrites.is_empty());
    assert!(r.s.a.gacx.fn_failed(did(1)));
    assert_eq!(r.next(), RewriteStep::Function(1));
    r.rewritten("\"g\"", Ok((vec![], vec![])));
    let owners: Vec<LocalDefId> =
        [5, 2, 1].iter().map(|&index| LocalDefId { index }).collect();
    assert_eq!(report_order(&r.s.a, &owners), [1]);
}

#[test]
fn failed_rewrite_starts_a_new_try() {
    let mut r = Rewriting::start(check(assign(program(2))), vec![]);
    assert_eq!(r.next(), RewriteStep::Function(0));
    r.rewritten("\"f\"", Err(failure("rewrite")));
    assert!(r.any_failed);
    assert_eq!(r.next(), RewriteStep::Function(1));
    r.rewritten("\"g\"", Ok((vec![rw("first")], vec![])));
    assert_eq!(r.next(), RewriteStep::ShimCalls);
    r.calls_rewritten(vec![], vec![did(2)]);
    assert_eq!(r.next(), RewriteStep::Shim(did(2)));
    r.shim_generated(Ok(rw("shim")));
    assert!(!r.s.gasn.flags.values[0].contains(FlagSet::FIXED));
    // All shims succeeded, but a function did not.
    assert_eq!(r.next(), RewriteStep::NewTry);
    assert!(r.out.rewrites.is_empty());
    assert!(r.s.gasn.flags.values[0].contains(FlagSet::FIXED));
    assert_eq!(r.next(), RewriteStep::Function(1));
    r.rewritten("\"g\"", Ok((vec![rw("again")], vec![])));
    assert_eq!(r.next(), RewriteStep::ShimCalls);
    r.calls_rewritten(vec![], vec![]);
    assert_eq!(r.next(), RewriteStep::NextStage);
    let texts: Vec<&str> = r.out.rewrites.iter().map(|w| w.text.as_str()).collect();
    assert_eq!(texts, ["again"]);
}

#[test]
fn programs_that_fit_together_are_recognized() {
    assert!(program(0).is_wf());
    assert!(program(3).is_wf());

    let mut twice = program(2);
    twice.order[1] = twice.order[0];
    twice.decls[1].did = twice.decls[0].did;
    assert!(!twice.is_wf());

    let mut other_decl = program(2);
    other_decl.decls[1].did = did(9);
    assert!(!other_decl.is_wf());

    let mut missing_body = program(2);
    missing_body.bodies.pop();
    assert!(!missing_body.is_wf());

    // A body that does not fit its signature concerns that function alone.
    let mut extra_arg = program(1);
    extra_arg.bodies[0].locals[2].kind = LocalKind::Arg;
    assert!(extra_arg.is_wf());

    let mut no_type = program(1);
    no_type.bodies[0].locals[2].ty = Ty { nodes: vec![] };
    assert!(!no_type.is_wf());

    let mut no_static = program(1);
    no_static.statics.pop();
    assert!(!no_static.is_wf());

    let mut no_fields = program(1);
    no_fields.defs[0].kind = DefKind::Struct;
    no_fields.statics.pop();
    assert!(!no_fields.is_wf());
    no_fields.adts.insert(did(100), vec![]);
    assert!(no_fields.is_wf());
}

#[test]
fn numbers_must_be_those_of_pointers() {
    let map = vec![PointerId::Global(1), PointerId::Local(0)];
    assert!(are_numbers_within(&map, 2, 1));
    assert!(!are_numbers_within(&map, 1, 1));
    assert!(!are_numbers_within(&map, 2, 0));
    assert!(!are_numbers_within(&vec![PointerId::Absent], 2, 1));
    assert!(are_numbers_within(&vec![], 0, 0));
}
