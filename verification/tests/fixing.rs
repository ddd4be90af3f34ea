use c2rust_analyze::adts::{
    foreign_mentioned_tys, walk_adts, walk_adts_in_order, AdtVisit, Field, ForeignItem,
};
use c2rust_analyze::assignment::{make_sig_fixed, make_ty_fixed, GlobalAssignment};
use c2rust_analyze::context::{GlobalAnalysisCtxt, PanicDetail};
use c2rust_analyze::def_id::{DefId, DefIdSet, DefKind, DefMap, LocalDefId};
use c2rust_analyze::definitions::Definition;
use c2rust_analyze::fixing::{
    defs_known, fix_failed_sigs, mark_fixed_defs, mark_foreign_fixed, structs_known,
};
use c2rust_analyze::flags::FlagSet;
use c2rust_analyze::labeling::{
    label_fields, label_fn_sigs, label_statics, FnDecl, StaticDecl,
};
use c2rust_analyze::permissions::initial_global;
use c2rust_analyze::ty::{Ty, TyCtor, TyNode};

fn node(ctor: TyCtor, arity: usize) -> TyNode {
    TyNode { ctor, arity, ty: 0 }
}

fn raw() -> Ty {
    Ty { nodes: vec![node(TyCtor::RawPtr, 1), node(TyCtor::Other, 0)] }
}

fn number() -> Ty {
    Ty { nodes: vec![node(TyCtor::Other, 0)] }
}

fn adt(d: DefId) -> Ty {
    Ty { nodes: vec![node(TyCtor::RawPtr, 1), node(TyCtor::Adt(d), 0)] }
}

fn did(index: u32) -> DefId {
    DefId { krate: 0, index }
}

fn set(dids: &[u32]) -> DefIdSet {
    let mut s = DefIdSet::new();
    for &d in dids {
        s.insert(did(d));
    }
    s
}

fn field(index: u32, ty: Ty, fixed_signature: bool) -> Field {
    let walk_ty = Ty { nodes: ty.nodes.clone() };
    Field { did: did(index), ty, walk_ty, fixed_signature }
}

/// Functions 1 (pointers 0 and 1) and 2 (pointer 2), static 3 (pointers 3 and 4), struct 4 with
/// the fields 5 (pointer 5) and 6 (pointer 6).
fn program() -> (GlobalAnalysisCtxt, DefMap<Vec<Field>>) {
    let mut gacx = GlobalAnalysisCtxt::new();
    label_fn_sigs(&mut gacx, &vec![
        FnDecl { did: did(1), inputs: vec![raw()], output: raw() },
        FnDecl { did: did(2), inputs: vec![number()], output: raw() },
    ]);
    label_statics(&mut gacx, &vec![StaticDecl { did: did(3), ty: raw() }]);
    let mut adts = DefMap::new();
    adts.insert(did(4), vec![field(5, raw(), false), field(6, raw(), false)]);
    label_fields(&mut gacx, &adts, &vec![did(4)]);
    (gacx, adts)
}

fn fixed(gasn: &GlobalAssignment) -> Vec<usize> {
    (0..gasn.flags.values.len())
        .filter(|&i| gasn.flags.values[i].contains(FlagSet::FIXED))
        .collect()
}

fn def(index: u32, kind: DefKind, fixed_signature: bool) -> Definition {
    Definition { ldid: LocalDefId { index }, kind, fixed_signature }
}

#[test]
fn all_pointers_of_a_type_are_fixed() {
    let (gacx, _) = program();
    let mut gasn = initial_global(&gacx);
    make_ty_fixed(&mut gasn, gacx.static_tys.get(did(3)).unwrap());
    assert_eq!(fixed(&gasn), [3]);
    make_sig_fixed(&mut gasn, gacx.fn_sigs.get(did(1)).unwrap());
    assert_eq!(fixed(&gasn), [0, 1, 3]);
    make_sig_fixed(&mut gasn, gacx.fn_sigs.get(did(1)).unwrap());
    assert_eq!(fixed(&gasn), [0, 1, 3]);
}

#[test]
fn foreign_declarations_are_fixed() {
    let (gacx, adts) = program();
    let mut gasn = initial_global(&gacx);
    mark_foreign_fixed(&gacx, &mut gasn, &set(&[2]), &adts, &vec![did(4)], &set(&[]));
    assert_eq!(fixed(&gasn), [2]);

    let mut gasn = initial_global(&gacx);
    mark_foreign_fixed(&gacx, &mut gasn, &set(&[3]), &adts, &vec![did(4)], &set(&[]));
    assert_eq!(fixed(&gasn), [3, 4]);

    let mut gasn = initial_global(&gacx);
    assert!(structs_known(&gacx, &adts, &vec![did(4)], &set(&[4])));
    mark_foreign_fixed(&gacx, &mut gasn, &set(&[]), &adts, &vec![did(4)], &set(&[4]));
    assert_eq!(fixed(&gasn), [5, 6]);

    // What is mentioned but no struct of the program is left alone.
    let mut gasn = initial_global(&gacx);
    mark_foreign_fixed(&gacx, &mut gasn, &set(&[]), &adts, &vec![], &set(&[4]));
    assert!(fixed(&gasn).is_empty());
    assert!(!structs_known(&gacx, &adts, &vec![did(7)], &set(&[7])));
    assert!(structs_known(&gacx, &adts, &vec![did(7)], &set(&[])));
}

#[test]
fn listed_definitions_are_fixed() {
    let (gacx, adts) = program();
    let defs = vec![
        def(1, DefKind::Fn, false),
        def(2, DefKind::AssocFn, true),
        def(3, DefKind::Static, false),
        def(4, DefKind::Struct, false),
        def(5, DefKind::Other, true),
    ];
    let run = |listed: &[u32]| {
        let mut gasn = initial_global(&gacx);
        assert!(defs_known(&gacx, &adts, &defs, &set(listed)));
        mark_fixed_defs(&gacx, &mut gasn, &adts, &defs, &set(listed));
        fixed(&gasn)
    };
    // The second function is marked, which has the same effect as being listed.
    assert_eq!(run(&[]), [2]);
    assert_eq!(run(&[1]), [0, 1, 2]);
    assert_eq!(run(&[3]), [2, 3, 4]);
    assert_eq!(run(&[4]), [2, 5, 6]);
    // A field can be listed by itself.
    assert_eq!(run(&[6]), [2, 6]);
}

#[test]
fn marked_fields_are_fixed() {
    let (gacx, _) = program();
    let mut adts = DefMap::new();
    adts.insert(did(4), vec![field(5, raw(), true), field(6, raw(), false)]);
    let defs = vec![def(4, DefKind::Struct, false)];
    let mut gasn = initial_global(&gacx);
    mark_fixed_defs(&gacx, &mut gasn, &adts, &defs, &set(&[]));
    assert_eq!(fixed(&gasn), [5]);
    let defs = vec![def(4, DefKind::Enum, true)];
    mark_fixed_defs(&gacx, &mut gasn, &adts, &defs, &set(&[]));
    assert_eq!(fixed(&gasn), [5, 6]);
}

#[test]
fn fixed_definitions_must_have_types() {
    let (gacx, adts) = program();
    let unknown = |kind: DefKind, fixed_signature: bool| {
        !defs_known(&gacx, &adts, &vec![def(9, kind, fixed_signature)], &set(&[]))
    };
    assert!(unknown(DefKind::Fn, true));
    assert!(!unknown(DefKind::Fn, false));
    assert!(unknown(DefKind::Static, true));
    assert!(unknown(DefKind::Union, false));
    assert!(!unknown(DefKind::Const, true));
}

#[test]
fn signatures_of_failed_functions_are_fixed() {
    let (mut gacx, _) = program();
    gacx.mark_fn_failed(did(2), PanicDetail::new("x"));
    let mut gasn = initial_global(&gacx);
    fix_failed_sigs(&gacx, &mut gasn);
    assert_eq!(fixed(&gasn), [2]);
    gacx.mark_fn_failed(did(1), PanicDetail::new("x"));
    fix_failed_sigs(&gacx, &mut gasn);
    assert_eq!(fixed(&gasn), [0, 1, 2]);
}

/// 1 has a field of type 2, 2 one of type 3 and one of type 1, and 4 one of type 3.
fn chain() -> DefMap<Vec<Field>> {
    let mut adts = DefMap::new();
    adts.insert(did(1), vec![field(11, adt(did(2)), false)]);
    adts.insert(did(2), vec![field(12, adt(did(3)), false), field(13, adt(did(1)), false)]);
    adts.insert(did(3), vec![field(14, number(), false)]);
    adts.insert(did(4), vec![field(15, adt(did(3)), false)]);
    adts
}

#[test]
fn types_lead_on_through_fields() {
    let mut found = set(&[]);
    walk_adts(&chain(), &adt(did(1)), &mut found);
    for i in [1, 2, 3] {
        assert!(found.contains(did(i)));
    }
    assert!(!found.contains(did(4)));
}

#[test]
fn what_was_found_before_is_not_followed() {
    let mut found = set(&[2]);
    walk_adts(&chain(), &adt(did(1)), &mut found);
    assert!(found.contains(did(1)));
    assert!(!found.contains(did(3)));
}

#[test]
fn unlabeled_parts_of_fields_are_walked() {
    // The field of 1 has 2 only in a part that gets no labels.
    let mut adts = DefMap::new();
    let hidden = Field {
        did: did(11),
        ty: number(),
        walk_ty: Ty { nodes: vec![node(TyCtor::Other, 0), node(TyCtor::Adt(did(2)), 0)] },
        fixed_signature: false,
    };
    adts.insert(did(1), vec![hidden]);
    adts.insert(did(2), vec![]);
    let mut found = set(&[]);
    walk_adts(&adts, &adt(did(1)), &mut found);
    assert!(found.contains(did(2)));
}

#[test]
fn fields_are_walked_before_arguments() {
    // 1 is generic and has a field of type 2; the type is 1 of 3.
    let mut adts = DefMap::new();
    adts.insert(did(1), vec![field(11, adt(did(2)), false), field(12, number(), false)]);
    adts.insert(did(2), vec![]);
    adts.insert(did(3), vec![]);
    let ty = Ty { nodes: vec![node(TyCtor::Adt(did(1)), 1), node(TyCtor::Adt(did(3)), 0)] };
    let visit = |index: u32, is_new: bool| AdtVisit { did: did(index), is_new };
    let mut met = set(&[]);
    assert_eq!(
        walk_adts_in_order(&adts, &ty, &mut met),
        [visit(1, true), visit(2, true), visit(3, true)]
    );
    // Fields are skipped where the walk was before, arguments are not.
    let mut met = set(&[1]);
    assert_eq!(walk_adts_in_order(&adts, &ty, &mut met), [visit(1, false), visit(3, true)]);
    assert!(!met.contains(did(2)));
    // What refers to itself is met again, but not followed.
    let mut met = set(&[]);
    assert_eq!(
        walk_adts_in_order(&chain(), &adt(did(1)), &mut met),
        [visit(1, true), visit(2, true), visit(3, true), visit(1, false)]
    );
}

#[test]
fn foreign_functions_and_statics_mention_types() {
    let item = |index: u32, kind: DefKind, ty: Ty| ForeignItem {
        did: did(index),
        kind,
        ty,
        inputs: vec![],
        output: number(),
    };
    let items = vec![
        item(21, DefKind::Static, adt(did(4))),
        item(22, DefKind::Other, adt(did(1))),
        item(23, DefKind::Fn, number()),
    ];
    let found = foreign_mentioned_tys(&chain(), &items);
    assert!(found.contains(did(4)));
    assert!(found.contains(did(3)));
    assert!(!found.contains(did(1)));
    assert!(!found.contains(did(2)));
    let found = foreign_mentioned_tys(&chain(), &vec![item(24, DefKind::Fn, adt(did(2)))]);
    for i in [1, 2, 3] {
        assert!(found.contains(did(i)));
    }
}
