use c2rust_analyze::adts::{Field, ForeignItem};
use c2rust_analyze::context::{AnalysisCtxtData, GlobalAnalysisCtxt, Location};
use c2rust_analyze::def_id::{DefId, DefKind, DefMap, LocalDefId};
use c2rust_analyze::definitions::{all_adt_items, all_static_items, Definition};
use c2rust_analyze::flags::PointerInfo;
use c2rust_analyze::function::label_function;
use c2rust_analyze::labeling::{
    gather_foreign_sigs, label_fields, label_fn_sigs, label_statics, FnDecl, StaticDecl,
};
use c2rust_analyze::mir::{
    is_string_literal, label_rvalue_tys, label_string_literals, Body, LocalDecl, LocalKind, Place,
    Rvalue, Statement,
};
use c2rust_analyze::pointer_id::PointerId;
use c2rust_analyze::ty::{AssignPointerIds, LTy, Ty, TyCtor, TyNode};

fn node(ctor: TyCtor, arity: usize) -> TyNode {
    TyNode { ctor, arity, ty: 0 }
}

/// `i32`
fn number() -> Ty {
    Ty { nodes: vec![node(TyCtor::Other, 0)] }
}

/// `*mut i32`
fn raw() -> Ty {
    Ty { nodes: vec![node(TyCtor::RawPtr, 1), node(TyCtor::Other, 0)] }
}

/// `&i32`
fn reference() -> Ty {
    Ty { nodes: vec![node(TyCtor::Ref, 1), node(TyCtor::Other, 0)] }
}

/// `&*mut i32`
fn nested() -> Ty {
    Ty { nodes: vec![node(TyCtor::Ref, 1), node(TyCtor::RawPtr, 1), node(TyCtor::Other, 0)] }
}

fn labels(lty: &LTy) -> Vec<PointerId> {
    lty.nodes.iter().map(|n| n.label).collect()
}

fn did(index: u32) -> DefId {
    DefId { krate: 0, index }
}

use PointerId::{Absent, Global, Local};

#[test]
fn pointers_are_numbered_in_preorder() {
    let mut gacx = GlobalAnalysisCtxt::new();
    assert_eq!(labels(&gacx.assign_pointer_ids(&nested())), [Global(0), Global(1), Absent]);
    assert_eq!(labels(&gacx.assign_pointer_ids(&number())), [Absent]);
    let base = PointerInfo { bits: PointerInfo::ANNOTATED };
    assert_eq!(labels(&gacx.assign_pointer_ids_with_info(&raw(), base)), [Global(2), Absent]);
    let infos: Vec<u16> = gacx.ptr_info.values.iter().map(|i| i.bits).collect();
    assert_eq!(infos, [PointerInfo::REF, 0, PointerInfo::ANNOTATED]);
}

#[test]
fn pointers_of_a_function_are_local() {
    let mut acx = AnalysisCtxtData::new();
    assert_eq!(labels(&acx.assign_pointer_ids(&reference())), [Local(0), Absent]);
    assert_eq!(acx.new_pointer(PointerInfo { bits: 0 }), Local(1));
}

#[test]
fn shared_types_are_annotated() {
    let mut gacx = GlobalAnalysisCtxt::new();
    label_fn_sigs(
        &mut gacx,
        &vec![FnDecl { did: did(1), inputs: vec![raw(), nested()], output: reference() }],
    );
    let item = |index: u32, kind: DefKind| ForeignItem {
        did: did(index),
        kind,
        ty: number(),
        inputs: vec![],
        output: raw(),
    };
    gather_foreign_sigs(
        &mut gacx,
        &vec![item(2, DefKind::Static), item(3, DefKind::Fn), item(4, DefKind::Other)],
    );
    label_statics(&mut gacx, &vec![StaticDecl { did: did(5), ty: raw() }]);
    let mut adts = DefMap::new();
    adts.insert(did(6), vec![
        Field { did: did(7), ty: number(), walk_ty: number(), fixed_signature: false },
        Field { did: did(8), ty: raw(), walk_ty: raw(), fixed_signature: false },
    ]);
    label_fields(&mut gacx, &adts, &vec![did(6)]);

    let sig = gacx.fn_sigs.get(did(1)).unwrap();
    assert_eq!(labels(&sig.inputs[0]), [Global(0), Absent]);
    assert_eq!(labels(&sig.inputs[1]), [Global(1), Global(2), Absent]);
    assert_eq!(labels(&sig.output), [Global(3), Absent]);
    assert!(!gacx.fn_sigs.contains_key(did(2)));
    assert!(!gacx.fn_sigs.contains_key(did(4)));
    assert_eq!(labels(&gacx.fn_sigs.get(did(3)).unwrap().output), [Global(4), Absent]);
    assert_eq!(labels(gacx.static_tys.get(did(5)).unwrap()), [Global(5), Absent]);
    assert_eq!(*gacx.addr_of_static.get(did(5)).unwrap(), Global(6));
    assert_eq!(labels(gacx.field_ltys.get(did(7)).unwrap()), [Absent]);
    assert_eq!(labels(gacx.field_ltys.get(did(8)).unwrap()), [Global(7), Absent]);
    let a = PointerInfo::ANNOTATED;
    let r = PointerInfo::REF;
    let infos: Vec<u16> = gacx.ptr_info.values.iter().map(|i| i.bits).collect();
    assert_eq!(infos, [a, a | r, a, a | r, a, a, 0, a]);
}

#[test]
fn statics_and_adts_are_picked_from_the_definitions() {
    let def = |index: u32, kind: DefKind| Definition {
        ldid: LocalDefId { index },
        kind,
        fixed_signature: false,
    };
    let defs = vec![
        def(1, DefKind::Fn),
        def(2, DefKind::Static),
        def(3, DefKind::Struct),
        def(4, DefKind::Union),
        def(5, DefKind::Static),
        def(6, DefKind::Enum),
        def(7, DefKind::Other),
    ];
    assert_eq!(all_static_items(&defs), [did(2), did(5)]);
    assert_eq!(all_adt_items(&defs), [did(3), did(4), did(6)]);
}

#[test]
fn string_literals_are_told_by_their_text() {
    assert!(is_string_literal("const \"hello\""));
    assert!(is_string_literal("const b\"hello\\x00\""));
    assert!(is_string_literal("const \""));
    assert!(!is_string_literal("\"hello\""));
    assert!(!is_string_literal("const 3_u8"));
    assert!(!is_string_literal("const \"hello"));
    assert!(!is_string_literal("const r\"hello\""));
    assert!(!is_string_literal("const "));
    assert!(!is_string_literal(""));
}

#[test]
fn only_references_can_be_string_literals() {
    let loc = Location { block: 1, statement_index: 2 };
    let mut acx = AnalysisCtxtData::new();
    assert!(label_string_literals(&mut acx, &raw(), "const \"x\"", loc).is_none());
    assert!(label_string_literals(&mut acx, &reference(), "const 3_i32", loc).is_none());
    assert_eq!(acx.string_literal_locs, []);
    let lty = label_string_literals(&mut acx, &reference(), "const \"x\"", loc).unwrap();
    assert_eq!(labels(&lty), [Local(0), Absent]);
    assert_eq!(acx.string_literal_locs, [loc]);
}

fn place(local: usize) -> Place {
    Place { local, is_indirect: false }
}

fn through(local: usize) -> Place {
    Place { local, is_indirect: true }
}

fn assign(p: Place, rvalue: Rvalue) -> Statement {
    Statement::Assign { place: p, rvalue }
}

fn gacx_with(inputs: Vec<Ty>, output: Ty) -> GlobalAnalysisCtxt {
    let mut gacx = GlobalAnalysisCtxt::new();
    label_fn_sigs(&mut gacx, &vec![FnDecl { did: did(1), inputs, output }]);
    gacx
}

#[test]
fn arguments_share_the_labels_of_the_signature() {
    let mut gacx = gacx_with(vec![raw()], raw());
    let body = Body {
        locals: vec![
            LocalDecl { kind: LocalKind::ReturnPointer, ty: raw() },
            LocalDecl { kind: LocalKind::Arg, ty: raw() },
            LocalDecl { kind: LocalKind::Var, ty: raw() },
        ],
        blocks: vec![],
    };
    let acx = label_function(&mut gacx, did(1), &body);
    assert_eq!(labels(&acx.local_tys[0]), [Global(1), Absent]);
    assert_eq!(labels(&acx.local_tys[1]), [Global(0), Absent]);
    assert_eq!(labels(&acx.local_tys[2]), [Local(2), Absent]);
    assert_eq!(acx.addr_of_local, [Local(0), Local(1), Local(3)]);
}

#[test]
fn right_hand_sides_get_types_of_their_own() {
    let mut gacx = gacx_with(vec![], number());
    let array = Ty { nodes: vec![node(TyCtor::Other, 1), node(TyCtor::RawPtr, 1), node(TyCtor::Other, 0)] };
    let body = Body {
        locals: vec![LocalDecl { kind: LocalKind::ReturnPointer, ty: number() }],
        blocks: vec![
            vec![
                Statement::Other,
                assign(place(0), Rvalue::Ref { place: place(0), ty: reference() }),
                assign(place(0), Rvalue::Other),
            ],
            vec![
                assign(place(0), Rvalue::Cast { ty: raw() }),
                assign(place(0), Rvalue::Array { elem_ty: raw(), array_ty: array }),
                assign(place(0), Rvalue::Constant { ty: reference(), text: "const b\"x\"".to_string() }),
                assign(place(0), Rvalue::Constant { ty: reference(), text: "const X".to_string() }),
                assign(place(0), Rvalue::Tuple { ty: number() }),
            ],
        ],
    };
    let acx = label_function(&mut gacx, did(1), &body);
    let loc = |block: usize, statement_index: usize| Location { block, statement_index };
    let found: Vec<(Location, Vec<PointerId>)> = (0..acx.rvalue_tys.len())
        .map(|i| acx.rvalue_tys.entry(i))
        .map(|(l, t)| (l, labels(t)))
        .collect();
    assert_eq!(
        found,
        [
            (loc(0, 1), vec![Local(1), Absent]),
            (loc(1, 0), vec![Local(2), Absent]),
            (loc(1, 1), vec![Absent, Local(3), Absent]),
            (loc(1, 2), vec![Local(4), Absent]),
            (loc(1, 4), vec![Absent]),
        ]
    );
    assert_eq!(acx.string_literal_locs, [loc(1, 2)]);
    // The cast is annotated, references are references.
    let infos: Vec<u16> = acx.ptr_info.values.iter().map(|i| i.bits).collect();
    assert_eq!(infos, [0, PointerInfo::REF, PointerInfo::ANNOTATED, 0, PointerInfo::REF]);
}

#[test]
fn temporary_references_are_told_from_lasting_ones() {
    let mut gacx = gacx_with(vec![reference()], number());
    let local = |kind: LocalKind| LocalDecl { kind, ty: reference() };
    let body = Body {
        locals: vec![
            LocalDecl { kind: LocalKind::ReturnPointer, ty: number() },
            local(LocalKind::Arg),
            // Written once, with a reference: temporary.
            local(LocalKind::Temp),
            // A variable.
            local(LocalKind::Var),
            // Written twice.
            local(LocalKind::Temp),
            // Written once, but not with a reference.
            local(LocalKind::Temp),
            // Its address is taken, which counts as a write.
            local(LocalKind::Temp),
            // Never written.
            local(LocalKind::Temp),
            // Written once with an address; a write through it does not count.
            local(LocalKind::Temp),
            // Written only through a pointer.
            local(LocalKind::Temp),
            // Written once with a reference, and by a call.
            local(LocalKind::Temp),
            // Written once with a reference; a call that writes through it does not count.
            local(LocalKind::Temp),
            // Written once, by a call.
            local(LocalKind::Temp),
        ],
        blocks: vec![vec![
            assign(place(2), Rvalue::Ref { place: through(1), ty: reference() }),
            assign(place(3), Rvalue::Ref { place: through(1), ty: reference() }),
            assign(place(4), Rvalue::Ref { place: through(1), ty: reference() }),
            assign(place(4), Rvalue::Ref { place: through(1), ty: reference() }),
            assign(place(5), Rvalue::Other),
            assign(place(6), Rvalue::Ref { place: place(6), ty: reference() }),
            assign(place(8), Rvalue::AddressOf { place: through(1), ty: reference() }),
            assign(through(8), Rvalue::Other),
            assign(through(9), Rvalue::Ref { place: through(1), ty: reference() }),
            assign(place(10), Rvalue::Ref { place: through(1), ty: reference() }),
            assign(place(11), Rvalue::Ref { place: through(1), ty: reference() }),
            Statement::Call { dest: place(10) },
        ], vec![
            Statement::Call { dest: through(11) },
        ], vec![
            Statement::Call { dest: place(12) },
        ]],
    };
    let acx = label_function(&mut gacx, did(1), &body);
    let is_temporary: Vec<usize> = (0..body.locals.len())
        .filter(|&l| match acx.local_tys[l].nodes[0].label {
            Local(i) => acx.ptr_info.values[i].bits & PointerInfo::NOT_TEMPORARY_REF == 0,
            Global(i) => gacx.ptr_info.values[i].bits & PointerInfo::NOT_TEMPORARY_REF == 0,
            Absent => false,
        })
        .collect();
    assert_eq!(is_temporary, [2, 8, 11]);
    // The argument is a shared pointer.
    assert_eq!(
        gacx.ptr_info.values[0].bits,
        PointerInfo::REF | PointerInfo::ANNOTATED | PointerInfo::NOT_TEMPORARY_REF
    );
}

#[test]
fn labeling_again_replaces_the_types() {
    let mut acx = AnalysisCtxtData::new();
    let body = Body {
        locals: vec![LocalDecl { kind: LocalKind::ReturnPointer, ty: number() }],
        blocks: vec![vec![assign(place(0), Rvalue::Cast { ty: raw() })]],
    };
    label_rvalue_tys(&mut acx, &body);
    label_rvalue_tys(&mut acx, &body);
    assert_eq!(acx.rvalue_tys.len(), 1);
    let lty = acx.rvalue_tys.get(Location { block: 0, statement_index: 0 }).unwrap();
    assert_eq!(labels(lty), [Local(1), Absent]);
}
