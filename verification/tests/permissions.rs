use c2rust_analyze::assignment::GlobalAssignment;
use c2rust_analyze::context::GlobalAnalysisCtxt;
use c2rust_analyze::def_id::{DefId, DefIdSet};
use c2rust_analyze::flags::{
    permission_change, should_make_fixed, FlagSet, PermissionSet, PointerInfo,
};
use c2rust_analyze::labeling::{label_fn_sigs, FnDecl};
use c2rust_analyze::permissions::{
    can_set_known, changed_pointers, gets_region, initial_global, known_perm_error_fns,
    known_perm_errors, region_candidate, set_known_perms, KnownPerms, Ownership,
};
use c2rust_analyze::pointer_id::{GlobalPointerTable, PointerId};
use c2rust_analyze::ty::{Ty, TyCtor, TyNode};

const READ: u16 = PermissionSet::READ;
const WRITE: u16 = PermissionSet::WRITE;
const UNIQUE: u16 = PermissionSet::UNIQUE;

fn perms(bits: u16) -> PermissionSet {
    PermissionSet { bits }
}

fn assignment(p: &[u16], f: &[u16]) -> GlobalAssignment {
    GlobalAssignment {
        perms: GlobalPointerTable { values: p.iter().map(|&b| perms(b)).collect() },
        flags: GlobalPointerTable { values: f.iter().map(|&bits| FlagSet { bits }).collect() },
    }
}

fn known(p: usize, bits: u16) -> KnownPerms {
    KnownPerms { ptr: PointerId::Global(p), perms: perms(bits) }
}

fn bits(gasn: &GlobalAssignment) -> Vec<u16> {
    gasn.perms.values.iter().map(|p| p.bits).collect()
}

#[test]
fn annotated_and_lasting_references_are_fixed() {
    let info = |bits: u16| should_make_fixed(PointerInfo { bits });
    let (r, a, n) = (PointerInfo::REF, PointerInfo::ANNOTATED, PointerInfo::NOT_TEMPORARY_REF);
    assert!(info(r | a));
    assert!(info(r | n));
    assert!(info(r | a | n));
    assert!(!info(r));
    assert!(!info(a | n));
    assert!(!info(0));
}

#[test]
fn pointers_start_out_unique() {
    let mut gacx = GlobalAnalysisCtxt::new();
    gacx.ptr_info.values = vec![
        PointerInfo { bits: 0 },
        PointerInfo { bits: PointerInfo::REF | PointerInfo::ANNOTATED },
        PointerInfo { bits: PointerInfo::REF },
    ];
    let gasn = initial_global(&gacx);
    assert_eq!(bits(&gasn), [UNIQUE, UNIQUE, UNIQUE]);
    let flags: Vec<u16> = gasn.flags.values.iter().map(|f| f.bits).collect();
    assert_eq!(flags, [0, FlagSet::FIXED, 0]);
}

#[test]
fn known_permissions_replace_the_first_ones() {
    let mut gasn = assignment(&[UNIQUE, UNIQUE, UNIQUE], &[0, 0, 0]);
    let list = vec![known(2, READ), known(0, READ | WRITE)];
    assert!(can_set_known(&gasn, &list));
    set_known_perms(&mut gasn, &list);
    assert_eq!(bits(&gasn), [READ | WRITE, UNIQUE, READ]);
}

#[test]
fn known_permissions_replace_no_others() {
    let gasn = assignment(&[UNIQUE | READ, UNIQUE], &[0, 0]);
    assert!(!can_set_known(&gasn, &vec![known(0, READ)]));
    assert!(can_set_known(&gasn, &vec![known(1, READ)]));
    // The second time there are others.
    assert!(!can_set_known(&gasn, &vec![known(1, READ), known(1, READ)]));
    // Unless there are none.
    assert!(can_set_known(&gasn, &vec![known(1, 0), known(1, READ)]));
    assert!(!can_set_known(&gasn, &vec![known(2, READ)]));
    let local = KnownPerms { ptr: PointerId::Local(0), perms: perms(READ) };
    assert!(!can_set_known(&gasn, &vec![local]));
}

#[test]
fn last_known_permissions_count() {
    let mut gasn = assignment(&[UNIQUE], &[0]);
    set_known_perms(&mut gasn, &vec![known(0, UNIQUE), known(0, READ)]);
    assert_eq!(bits(&gasn), [READ]);
}

#[test]
fn changes_are_split_into_added_removed_and_kept() {
    let c = permission_change(perms(READ | UNIQUE), perms(READ | WRITE));
    assert_eq!((c.added.bits, c.removed.bits, c.kept.bits), (WRITE, UNIQUE, READ));
}

#[test]
fn changed_pointers_are_listed_in_order() {
    let before = assignment(&[READ, UNIQUE, 0], &[0, 0, 0]);
    let after = assignment(&[READ, READ, WRITE], &[0, 0, 2]);
    let changed = changed_pointers(&before, &after);
    let ptrs: Vec<PointerId> = changed.iter().map(|c| c.ptr).collect();
    assert_eq!(ptrs, [PointerId::Global(1), PointerId::Global(2)]);
    assert_eq!(changed[0].change, permission_change(perms(UNIQUE), perms(READ)));
    assert!(changed_pointers(&before, &before).is_empty());
}

#[test]
fn flags_count_for_equality() {
    let a = assignment(&[READ], &[0]);
    assert!(a.same(&a.duplicate()));
    assert!(!a.same(&assignment(&[READ], &[2])));
    assert!(!a.same(&assignment(&[WRITE], &[0])));
    assert!(!a.same(&assignment(&[READ, READ], &[0, 0])));
}

#[test]
fn changed_known_permissions_are_errors() {
    let gasn = assignment(&[READ, WRITE], &[0, 0]);
    let errors = known_perm_errors(&gasn, &vec![known(0, READ), known(1, READ)]);
    assert_eq!(errors.len(), 1);
    assert_eq!(errors[0].ptr, PointerId::Global(1));
    assert_eq!(errors[0].known, perms(READ));
    assert_eq!(errors[0].found, perms(WRITE));
}

#[test]
fn errors_are_traced_to_foreign_functions() {
    let node = |ctor: TyCtor, arity: usize| TyNode { ctor, arity, ty: 0 };
    let raw = || Ty { nodes: vec![node(TyCtor::RawPtr, 1), node(TyCtor::Other, 0)] };
    let number = || Ty { nodes: vec![node(TyCtor::Other, 0)] };
    let did = |index: u32| DefId { krate: 0, index };
    let mut gacx = GlobalAnalysisCtxt::new();
    label_fn_sigs(&mut gacx, &vec![
        FnDecl { did: did(1), inputs: vec![raw()], output: number() },
        FnDecl { did: did(2), inputs: vec![number(), raw()], output: number() },
        FnDecl { did: did(3), inputs: vec![], output: raw() },
        FnDecl { did: did(4), inputs: vec![], output: raw() },
    ]);
    let mut foreign = DefIdSet::new();
    for i in [2, 3, 4] {
        foreign.insert(did(i));
    }
    let gasn = assignment(&[READ, READ, READ, READ], &[0, 0, 0, 0]);
    let errors = known_perm_errors(
        &gasn,
        &vec![known(0, WRITE), known(1, WRITE), known(2, WRITE), known(3, READ)],
    );
    assert_eq!(errors.len(), 3);
    assert_eq!(known_perm_error_fns(&gacx, &foreign, &errors), [did(2), did(3)]);
}

#[test]
fn regions_are_for_references_that_are_not_fixed() {
    let gasn = assignment(&[READ, WRITE], &[0, FlagSet::FIXED]);
    assert_eq!(
        region_candidate(&gasn, PointerId::Global(0)),
        Some((perms(READ), FlagSet { bits: 0 }))
    );
    assert_eq!(region_candidate(&gasn, PointerId::Global(1)), None);
    assert_eq!(region_candidate(&gasn, PointerId::Absent), None);
    let own = |p: PermissionSet, _: FlagSet| {
        if p.contains(READ) { Ownership::Imm } else { Ownership::Raw }
    };
    assert!(gets_region(&gasn, PointerId::Global(0), &own));
    assert!(!gets_region(&gasn, PointerId::Global(1), &own));
    assert!(!gets_region(&gasn, PointerId::Global(0), &|_, _| Ownership::Box));
    assert!(!gets_region(&gasn, PointerId::Absent, &own));
}

#[test]
fn three_kinds_of_ownership_borrow() {
    for own in [Ownership::Imm, Ownership::Cell, Ownership::Mut] {
        assert!(own.is_reference());
    }
    for own in [Ownership::Raw, Ownership::RawMut, Ownership::Rc, Ownership::Box] {
        assert!(!own.is_reference());
    }
}
