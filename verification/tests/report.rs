use c2rust_analyze::assignment::GlobalAssignment;
use c2rust_analyze::context::{GlobalAnalysisCtxt, PanicDetail};
use c2rust_analyze::def_id::{DefId, DefMap, LocalDefId};
use c2rust_analyze::flags::{FlagSet, PermissionSet, PointerInfo};
use c2rust_analyze::pointer_id::{GlobalPointerTable, LocalPointerTable, PointerId};
use c2rust_analyze::report::{
    closing, error_details, error_summary, labeling_for_fields, labeling_for_var, report_adt,
    report_fn, report_statics, sorted_keys, Rewrite,
};
use c2rust_analyze::ty::{LTy, LabeledNode, TyCtor, TyNode};

fn rw(place: &str, text: &str) -> Rewrite<()> {
    Rewrite { place: place.to_string(), text: text.to_string(), edit: () }
}

fn did(krate: u32, index: u32) -> DefId {
    DefId { krate, index }
}

fn lty(labels: &[PointerId]) -> LTy {
    LTy {
        nodes: labels
            .iter()
            .map(|&label| LabeledNode {
                node: TyNode { ctor: TyCtor::Other, arity: 0, ty: 0 },
                label,
            })
            .collect(),
    }
}

#[test]
fn rewrites_of_a_function_are_counted_and_listed() {
    let exprs = vec![rw("3: *p", "*q"), rw("4: r", "&r")];
    let tys = vec![rw("1: *mut i32", "&mut i32")];
    assert_eq!(
        report_fn(&exprs, &tys, "\"f\""),
        "generated 2 expr rewrites + 1 ty rewrites for \"f\":\n  3: *p: *q\n  4: r: &r\n  \
         1: *mut i32: &mut i32\n\n"
    );
    let none: Vec<Rewrite<()>> = vec![];
    assert_eq!(
        report_fn(&none, &none, "\"g\""),
        "generated 0 expr rewrites + 0 ty rewrites for \"g\":\n\n"
    );
}

#[test]
fn rewrites_of_statics_and_adts_are_indented_further() {
    let rws = vec![rw("9: S", "T")];
    assert_eq!(report_statics(&rws), "generated 1 static rewrites:\n    9: S: T\n");
    assert_eq!(
        report_adt(&rws, "DefId(0:3 ~ S)"),
        "generated 1 ADT rewrites for DefId(0:3 ~ S):\n    9: S: T\n"
    );
}

#[test]
fn definitions_are_sorted_by_position_and_crate() {
    let mut map = DefMap::new();
    for d in [did(0, 5), did(1, 2), did(0, 2), did(0, 9), did(3, 0)] {
        map.insert(d, ());
    }
    assert_eq!(sorted_keys(&map), [did(3, 0), did(0, 2), did(1, 2), did(0, 5), did(0, 9)]);
}

#[test]
fn variables_show_the_values_of_their_pointers() {
    let p = |bits: u16| PermissionSet { bits };
    let f = |bits: u16| FlagSet { bits };
    let v = labeling_for_var(
        PointerId::Local(0),
        &lty(&[PointerId::Global(1), PointerId::Absent, PointerId::Local(1)]),
        &GlobalPointerTable { values: vec![p(1), p(2)] },
        &LocalPointerTable { values: vec![p(3), p(4)] },
        &GlobalPointerTable { values: vec![f(5), f(6)] },
        &LocalPointerTable { values: vec![f(7), f(8)] },
    );
    assert_eq!(v.addr_of_perms, p(3));
    assert_eq!(v.addr_of_flags, f(7));
    let perms: Vec<u16> = v.ty_perms.nodes.iter().map(|n| n.label.bits).collect();
    assert_eq!(perms, [2, 0, 4]);
    let flags: Vec<u16> = v.ty_flags.nodes.iter().map(|n| n.label.bits).collect();
    assert_eq!(flags, [6, 0, 8]);
}

#[test]
fn fields_that_are_pointers_are_shown() {
    let mut gacx = GlobalAnalysisCtxt::new();
    gacx.ptr_info.values = vec![PointerInfo { bits: 0 }, PointerInfo { bits: 0 }];
    gacx.field_ltys.insert(did(0, 9), lty(&[PointerId::Global(0)]));
    gacx.field_ltys.insert(did(0, 8), lty(&[PointerId::Absent, PointerId::Global(0)]));
    gacx.field_ltys.insert(did(0, 7), lty(&[PointerId::Global(1)]));
    let gasn = GlobalAssignment {
        perms: GlobalPointerTable {
            values: vec![PermissionSet { bits: 1 }, PermissionSet { bits: 2 }],
        },
        flags: GlobalPointerTable { values: vec![FlagSet { bits: 0 }, FlagSet { bits: 2 }] },
    };
    let lines: Vec<(DefId, PointerId, u16, u16)> = labeling_for_fields(&gacx, &gasn)
        .iter()
        .map(|l| (l.did, l.ptr, l.perms.bits, l.flags.bits))
        .collect();
    assert_eq!(
        lines,
        [(did(0, 7), PointerId::Global(1), 2, 2), (did(0, 9), PointerId::Global(0), 1, 0)]
    );
}

#[test]
fn failures_are_listed_in_the_order_of_the_bodies() {
    let mut gacx = GlobalAnalysisCtxt::new();
    gacx.mark_fn_failed(
        did(0, 3),
        PanicDetail { short: "s".to_string(), full: "f".to_string(), has_backtrace: true },
    );
    gacx.mark_fn_failed(did(0, 1), PanicDetail::new("on purpose"));
    gacx.mark_fn_failed(did(0, 1), PanicDetail::new("again"));
    let owners: Vec<LocalDefId> = [1, 2, 3].iter().map(|&index| LocalDefId { index }).collect();
    assert_eq!(error_details(&gacx, &owners), [LocalDefId { index: 3 }]);
    assert_eq!(
        error_summary(&gacx, &owners),
        [LocalDefId { index: 1 }, LocalDefId { index: 3 }]
    );
    assert_eq!(gacx.fns_failed.get(did(0, 1)).unwrap().short, "on purpose");
    assert_eq!(closing(&gacx, 5, 0), "\nsaw errors in 2 / 5 functions\n");
    assert_eq!(
        closing(&gacx, 5, 12),
        "\nsaw errors in 2 / 5 functions\nsaw permission errors in 12 known fns\n"
    );
}
