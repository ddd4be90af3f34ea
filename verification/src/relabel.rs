//! Labeled types with other labels in the place of pointers.
use crate::context::lty_fits;
use crate::pointer_id::{
    is_label, lookup, value_of, GlobalPointerTable, LocalPointerTable, PointerId,
};
use crate::ty::{LTy, LabeledNode, LabeledTy};
use vstd::prelude::*;

verus! {

/// The type with the value of its pointer at every node, and `empty` where there is no pointer.
pub open spec fn relabeled<T>(
    lty: Seq<LabeledNode<PointerId>>,
    global: Seq<T>,
    local: Seq<T>,
    empty: T,
) -> Seq<LabeledNode<T>> {
    Seq::new(
        lty.len(),
        |k: int|
            LabeledNode {
                node: lty[k].node,
                label: if lty[k].label is Absent {
                    empty
                } else {
                    value_of(global, local, lty[k].label)
                },
            },
    )
}

/// Puts the values of the pointers in the place of the pointers.
pub fn relabel<T: Copy>(
    lty: &LTy,
    global: &GlobalPointerTable<T>,
    local: &LocalPointerTable<T>,
    empty: T,
) -> (r: LabeledTy<T>)
    requires
        lty_fits(lty@, global@.len(), local@.len()),
    ensures
        r@ == relabeled(lty@, global@, local@, empty),
{
    let mut nodes: Vec<LabeledNode<T>> = Vec::new();
    let mut k: usize = 0;
    while k < lty.nodes.len()
        invariant
            k <= lty@.len(),
            lty_fits(lty@, global@.len(), local@.len()),
            nodes@ == relabeled(lty@, global@, local@, empty).take(k as int),
        decreases lty@.len() - k,
    {
        let n = lty.nodes[k];
        assert(is_label(global@.len(), local@.len(), lty@[k as int].label));
        let label = if n.label.is_none() {
            empty
        } else {
            lookup(global, local, n.label)
        };
        nodes.push(LabeledNode { node: n.node, label });
        k += 1;
        assert(nodes@ =~= relabeled(lty@, global@, local@, empty).take(k as int));
    }
    assert(nodes@ =~= relabeled(lty@, global@, local@, empty));
    LabeledTy { nodes }
}

/// A type with other labels has the same nodes. At each global or local pointer it has the value of
/// that pointer, and where there is none, the empty label.
pub proof fn law_relabeled<T>(
    lty: Seq<LabeledNode<PointerId>>,
    global: Seq<T>,
    local: Seq<T>,
    empty: T,
    k: int,
)
    requires
        0 <= k < lty.len(),
    ensures
        relabeled(lty, global, local, empty).len() == lty.len(),
        relabeled(lty, global, local, empty)[k].node == lty[k].node,
        relabeled(lty, global, local, empty)[k].label == match lty[k].label {
            PointerId::Absent => empty,
            PointerId::Global(p) => global[p as int],
            PointerId::Local(p) => local[p as int],
        },
{
}

} // verus!
