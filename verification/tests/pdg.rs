use c2rust_analyze::assignment::{GlobalAssignment, LocalAssignment};
use c2rust_analyze::context::AnalysisCtxtData;
use c2rust_analyze::flags::{permission_change, FlagSet, PermissionSet};
use c2rust_analyze::pdg::{
    apply_node, can_apply, DefPathHash, FunctionHashes, Node, NodeDest, NodeInfo, NodeOutcome,
};
use c2rust_analyze::pointer_id::{GlobalPointerTable, LocalPointerTable, PointerId};
use c2rust_analyze::ty::{LTy, LabeledNode, TyCtor, TyNode};

fn lty(label: PointerId) -> LTy {
    LTy { nodes: vec![LabeledNode { node: TyNode { ctor: TyCtor::RawPtr, arity: 0, ty: 0 }, label }] }
}

/// A function with a shared pointer, a pointer of its own, and a local that is no pointer.
fn acx() -> AnalysisCtxtData {
    let mut acx = AnalysisCtxtData::new();
    acx.local_tys =
        vec![lty(PointerId::Global(0)), lty(PointerId::Local(0)), lty(PointerId::Absent)];
    acx
}

fn global(bits: u16) -> GlobalAssignment {
    GlobalAssignment {
        perms: GlobalPointerTable { values: vec![PermissionSet { bits }] },
        flags: GlobalPointerTable { values: vec![FlagSet { bits: 0 }] },
    }
}

fn local(bits: u16) -> LocalAssignment {
    LocalAssignment {
        perms: LocalPointerTable { values: vec![PermissionSet { bits }] },
        flags: LocalPointerTable { values: vec![FlagSet { bits: 0 }] },
    }
}

const NOTHING: NodeInfo =
    NodeInfo { load: false, store: false, pos_offset: false, neg_offset: false, unique: true };

fn node(dest: Option<usize>, info: Option<NodeInfo>) -> Node {
    Node {
        function: DefPathHash { high: 1, low: 2 },
        function_name: "f".to_string(),
        dest: dest.map(|local| NodeDest { local, has_projection: false }),
        info,
    }
}

#[test]
fn recorded_uses_become_permissions() {
    let unique = PermissionSet::UNIQUE;
    let cases = [
        (NodeInfo { load: true, ..NOTHING }, unique | PermissionSet::READ),
        (NodeInfo { store: true, ..NOTHING }, unique | PermissionSet::WRITE),
        (NodeInfo { pos_offset: true, ..NOTHING }, unique | PermissionSet::OFFSET_ADD),
        (NodeInfo { neg_offset: true, ..NOTHING }, unique | PermissionSet::OFFSET_SUB),
        (NodeInfo { unique: false, ..NOTHING }, 0),
        (
            NodeInfo { load: true, store: true, unique: false, ..NOTHING },
            PermissionSet::READ | PermissionSet::WRITE,
        ),
    ];
    for (info, expected) in cases {
        let mut gasn = global(unique);
        let mut lasn = local(unique);
        let outcome = apply_node(&acx(), &mut gasn, &mut lasn, &node(Some(0), Some(info)));
        let after = PermissionSet { bits: expected };
        assert_eq!(
            outcome,
            NodeOutcome::Changed(
                PointerId::Global(0),
                permission_change(PermissionSet { bits: unique }, after)
            )
        );
        assert_eq!(gasn.perms.values, [after]);
        assert_eq!(lasn.perms.values, [PermissionSet { bits: unique }]);
        // The same again changes nothing.
        let again = apply_node(&acx(), &mut gasn, &mut lasn, &node(Some(0), Some(info)));
        assert_eq!(again, NodeOutcome::Unchanged(PointerId::Global(0)));
    }
}

#[test]
fn pointers_of_the_function_have_their_own_table() {
    let mut gasn = global(0);
    let mut lasn = local(0);
    let info = NodeInfo { load: true, ..NOTHING };
    apply_node(&acx(), &mut gasn, &mut lasn, &node(Some(1), Some(info)));
    assert_eq!(gasn.perms.values, [PermissionSet { bits: 0 }]);
    assert_eq!(lasn.perms.values, [PermissionSet { bits: PermissionSet::READ }]);
}

#[test]
fn other_nodes_are_passed_over() {
    let mut gasn = global(0);
    let mut lasn = local(0);
    let info = Some(NodeInfo { load: true, ..NOTHING });
    let mut partial = node(Some(0), info);
    partial.dest = Some(NodeDest { local: 0, has_projection: true });
    let cases = [
        (node(None, info), NodeOutcome::Skipped),
        (partial, NodeOutcome::Skipped),
        (node(Some(2), info), NodeOutcome::NotAPointer(2)),
        (node(Some(2), None), NodeOutcome::NotAPointer(2)),
        (node(Some(0), None), NodeOutcome::MissingInfo(0)),
    ];
    for (n, expected) in cases {
        assert!(can_apply(&acx(), &gasn, &lasn, &n));
        assert_eq!(apply_node(&acx(), &mut gasn, &mut lasn, &n), expected);
    }
    assert_eq!(gasn.perms.values, [PermissionSet { bits: 0 }]);
    assert!(!can_apply(&acx(), &gasn, &lasn, &node(Some(3), info)));
}

#[test]
fn last_function_with_a_hash_counts() {
    let h = |high: u64, low: u64| DefPathHash { high, low };
    let table = FunctionHashes::new(&vec![h(1, 2), h(2, 1), h(1, 2), h(u64::MAX, u64::MAX)]);
    assert_eq!(table.get(h(1, 2)), Some(2));
    assert_eq!(table.get(h(2, 1)), Some(1));
    assert_eq!(table.get(h(u64::MAX, u64::MAX)), Some(3));
    assert_eq!(table.get(h(0, 2)), None);
}
