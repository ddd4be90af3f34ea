use c2rust_analyze::context::AnalysisCtxtData;
use c2rust_analyze::flags::PointerInfo;
use c2rust_analyze::pointee::{
    clear_incomplete, duplicate_types, pointers_of_local, reported_pointers, same_types,
    unknown_types, PointeeTypes,
};
use c2rust_analyze::pointer_id::{GlobalPointerTable, LocalPointerTable, PointerId};
use c2rust_analyze::relabel::relabel;
use c2rust_analyze::remap::remap_locals;
use c2rust_analyze::ty::{LTy, LabeledNode, TyCtor, TyNode};

fn types(ltys: &[usize], incomplete: bool) -> PointeeTypes {
    PointeeTypes { ltys: ltys.to_vec(), incomplete }
}

fn lty(labels: &[PointerId]) -> LTy {
    LTy {
        nodes: labels
            .iter()
            .map(|&label| LabeledNode {
                node: TyNode { ctor: TyCtor::Other, arity: 0, ty: 0 },
                label,
            })
            .collect(),
    }
}

fn labels(lty: &LTy) -> Vec<PointerId> {
    lty.nodes.iter().map(|n| n.label).collect()
}

#[test]
fn types_are_equal_as_sets() {
    assert!(types(&[1, 2], false).same(&types(&[2, 1, 2], false)));
    assert!(!types(&[1, 2], false).same(&types(&[1], false)));
    assert!(!types(&[1], false).same(&types(&[1, 2], false)));
    assert!(!types(&[1], false).same(&types(&[1], true)));
}

#[test]
fn tables_are_equal_pointer_by_pointer() {
    let a = vec![types(&[1], false), types(&[], true)];
    assert!(same_types(&a, &duplicate_types(&a)));
    assert!(!same_types(&a, &vec![types(&[1], false)]));
    assert!(!same_types(&a, &vec![types(&[1], false), types(&[], false)]));
    assert!(same_types(&unknown_types(2), &vec![types(&[], false), types(&[], false)]));
}

#[test]
fn incomplete_types_can_be_cleared() {
    let mut a = vec![types(&[1], true), types(&[], false), types(&[], true)];
    clear_incomplete(&mut a);
    assert!(same_types(&a, &vec![types(&[1], false), types(&[], false), types(&[], false)]));
}

#[test]
fn known_pointers_of_a_local_are_reported() {
    let mut acx = AnalysisCtxtData::new();
    acx.local_tys = vec![lty(&[PointerId::Global(0), PointerId::Absent, PointerId::Local(1)])];
    acx.addr_of_local = vec![PointerId::Local(0)];
    assert_eq!(
        pointers_of_local(&acx, 0),
        [PointerId::Local(0), PointerId::Global(0), PointerId::Local(1)]
    );
    let global = GlobalPointerTable { values: vec![types(&[], false)] };
    let local = LocalPointerTable { values: vec![types(&[4], false), types(&[], true)] };
    assert_eq!(
        reported_pointers(&acx, 0, &global, &local),
        [PointerId::Local(0), PointerId::Local(1)]
    );
    acx.addr_of_local = vec![PointerId::Absent];
    assert_eq!(pointers_of_local(&acx, 0), [PointerId::Global(0), PointerId::Local(1)]);
}

#[test]
fn labels_are_replaced_by_values() {
    let r = relabel(
        &lty(&[PointerId::Local(1), PointerId::Absent, PointerId::Global(0)]),
        &GlobalPointerTable { values: vec!['g'] },
        &LocalPointerTable { values: vec!['a', 'b'] },
        '-',
    );
    let found: Vec<char> = r.nodes.iter().map(|n| n.label).collect();
    assert_eq!(found, ['b', '-', 'g']);
}

#[test]
fn pointers_of_a_function_can_become_global() {
    let mut acx = AnalysisCtxtData::new();
    acx.ptr_info.values = vec![PointerInfo { bits: 0 }; 3];
    acx.local_tys = vec![lty(&[PointerId::Local(0)]), lty(&[PointerId::Global(1)])];
    acx.addr_of_local = vec![PointerId::Local(1), PointerId::Local(2)];
    let global = GlobalPointerTable { values: vec![PointerId::Global(0), PointerId::Global(0)] };
    let local = LocalPointerTable {
        values: vec![PointerId::Global(0), PointerId::Local(0), PointerId::Local(0)],
    };
    remap_locals(&mut acx, &global, &local, vec![PointerInfo { bits: 1 }], 1);
    assert_eq!(labels(&acx.local_tys[0]), [PointerId::Global(0)]);
    assert_eq!(labels(&acx.local_tys[1]), [PointerId::Global(0)]);
    assert_eq!(acx.addr_of_local, [PointerId::Local(0), PointerId::Local(0)]);
    assert_eq!(acx.ptr_info.values, [PointerInfo { bits: 1 }]);
}
