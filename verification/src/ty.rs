//! Types, types with a label at every constructor, and the labeling of types with pointers.
use crate::def_id::DefId;
use crate::flags::{law_info_masks, PointerInfo};
use crate::pointer_id::PointerId;
use vstd::prelude::*;

verus! {

/// The constructor at a node of a type.
#[derive(Clone, Copy, Debug, PartialEq, Eq, Structural)]
pub enum TyCtor {
    /// A reference.
    Ref,
    /// A raw pointer.
    RawPtr,
    /// A struct, an enum or a union.
    Adt(DefId),
    /// Any other constructor.
    Other,
}

/// A node of a type: its constructor, the number of its arguments, and the compiler's number for
/// the type that starts at this node.
#[derive(Clone, Copy, Debug, PartialEq, Eq, Structural)]
pub struct TyNode {
    pub ctor: TyCtor,
    pub arity: usize,
    pub ty: usize,
}

/// A type, as the list of its nodes in preorder: every node comes before its arguments, and the
/// arguments stand side by side.
pub struct Ty {
    pub nodes: Vec<TyNode>,
}

/// A node of a type together with its label.
#[derive(Clone, Copy, Debug, PartialEq, Eq, Structural)]
pub struct LabeledNode<L> {
    pub node: TyNode,
    pub label: L,
}

/// A type with a label at every node, in preorder.
pub struct LabeledTy<L> {
    pub nodes: Vec<LabeledNode<L>>,
}

/// A type with a pointer at every reference and raw pointer.
pub type LTy = LabeledTy<PointerId>;

/// The labeled types of a function's inputs and output.
pub struct LFnSig {
    pub inputs: Vec<LTy>,
    pub output: LTy,
}

impl View for Ty {
    type V = Seq<TyNode>;

    open spec fn view(&self) -> Seq<TyNode> {
        self.nodes@
    }
}

impl<L> View for LabeledTy<L> {
    type V = Seq<LabeledNode<L>>;

    open spec fn view(&self) -> Seq<LabeledNode<L>> {
        self.nodes@
    }
}

/// The nodes of the types of a signature.
pub struct SigView {
    pub inputs: Seq<Seq<LabeledNode<PointerId>>>,
    pub output: Seq<LabeledNode<PointerId>>,
}

impl View for LFnSig {
    type V = SigView;

    open spec fn view(&self) -> SigView {
        SigView {
            inputs: Seq::new(self.inputs@.len(), |i: int| self.inputs@[i]@),
            output: self.output@,
        }
    }
}

impl Ty {
    /// A type has at least its root.
    pub open spec fn wf(&self) -> bool {
        self@.len() > 0
    }

    /// Whether the root is a reference.
    pub fn is_ref(&self) -> (r: bool)
        requires
            self.wf(),
        ensures
            r == (self@[0].ctor is Ref),
    {
        matches!(self.nodes[0].ctor, TyCtor::Ref)
    }
}

impl<L: Copy> LabeledTy<L> {
    /// A copy of the type.
    pub fn duplicate(&self) -> (r: LabeledTy<L>)
        ensures
            r@ == self@,
    {
        let mut nodes: Vec<LabeledNode<L>> = Vec::new();
        let mut i: usize = 0;
        while i < self.nodes.len()
            invariant
                i <= self.nodes@.len(),
                nodes@ == self.nodes@.take(i as int),
            decreases self.nodes@.len() - i,
        {
            let n = &self.nodes[i];
            nodes.push(LabeledNode { node: n.node, label: n.label });
            i += 1;
            assert(self.nodes@.take(i as int) =~= self.nodes@.take(i - 1).push(
                self.nodes@[i - 1],
            ));
        }
        assert(nodes@ =~= self.nodes@);
        LabeledTy { nodes }
    }
}

/// The pointer that a labeled type itself is, if it is one.
pub open spec fn pointer_of(lty: Seq<LabeledNode<PointerId>>) -> Option<PointerId> {
    if lty[0].label is Absent {
        None
    } else {
        Some(lty[0].label)
    }
}

/// Whether `ptr` is the pointer at some node of `lty`.
pub open spec fn mentions(lty: Seq<LabeledNode<PointerId>>, ptr: PointerId) -> bool {
    !(ptr is Absent) && exists|k: int| 0 <= k < lty.len() && #[trigger] lty[k].label == ptr
}

/// Whether `ptr` is the pointer at some node of an input or of the output.
pub open spec fn sig_mentions(sig: SigView, ptr: PointerId) -> bool {
    ||| mentions(sig.output, ptr)
    ||| exists|i: int| 0 <= i < sig.inputs.len() && #[trigger] mentions(sig.inputs[i], ptr)
}

/// Whether the node stands for a pointer.
pub open spec fn is_pointer(n: TyNode) -> bool {
    n.ctor is Ref || n.ctor is RawPtr
}

/// What is known about the pointer at `n`, where `base` holds of all pointers of the type.
pub open spec fn info_at(n: TyNode, base: PointerInfo) -> PointerInfo {
    if n.ctor is Ref {
        base.with(PointerInfo::REF)
    } else {
        base
    }
}

/// What is known about each pointer among `nodes`, in the order of the nodes.
pub open spec fn pointer_infos(nodes: Seq<TyNode>, base: PointerInfo) -> Seq<PointerInfo>
    decreases nodes.len(),
{
    if nodes.len() == 0 {
        Seq::empty()
    } else if is_pointer(nodes.last()) {
        pointer_infos(nodes.drop_last(), base).push(info_at(nodes.last(), base))
    } else {
        pointer_infos(nodes.drop_last(), base)
    }
}

/// The number of pointers among `nodes`.
pub open spec fn count_pointers(nodes: Seq<TyNode>) -> nat
    decreases nodes.len(),
{
    if nodes.len() == 0 {
        0
    } else {
        count_pointers(nodes.drop_last()) + if is_pointer(nodes.last()) {
            1nat
        } else {
            0nat
        }
    }
}

/// The type `nodes`, with the pointers numbered on from `first` in the order of the nodes.
pub open spec fn labeled_from(nodes: Seq<TyNode>, first: nat, id: spec_fn(nat) -> PointerId) -> Seq<
    LabeledNode<PointerId>,
> {
    Seq::new(
        nodes.len(),
        |k: int|
            LabeledNode {
                node: nodes[k],
                label: if is_pointer(nodes[k]) {
                    id(first + count_pointers(nodes.take(k)))
                } else {
                    PointerId::Absent
                },
            },
    )
}

/// There is one piece of information for each pointer.
pub proof fn lemma_one_info_each(nodes: Seq<TyNode>, base: PointerInfo)
    ensures
        pointer_infos(nodes, base).len() == count_pointers(nodes),
    decreases nodes.len(),
{
    if nodes.len() > 0 {
        lemma_one_info_each(nodes.drop_last(), base);
    }
}

/// A longer part of a type has no fewer pointers, and more if a pointer was added.
pub proof fn lemma_count_grows(nodes: Seq<TyNode>, j: int, k: int)
    requires
        0 <= j < k <= nodes.len(),
    ensures
        count_pointers(nodes.take(j)) <= count_pointers(nodes.take(k)),
        is_pointer(nodes[j]) ==> count_pointers(nodes.take(j)) < count_pointers(nodes.take(k)),
    decreases k,
{
    assert(nodes.take(k).drop_last() =~= nodes.take(k - 1));
    if j < k - 1 {
        lemma_count_grows(nodes, j, k - 1);
    }
}

/// Two pointers of a type never get the same number, and all numbers are at least `first` and
/// less than `first` plus the number of pointers.
pub proof fn law_labels_distinct(nodes: Seq<TyNode>, first: nat, j: int, k: int)
    requires
        0 <= j < k < nodes.len(),
        is_pointer(nodes[j]),
        is_pointer(nodes[k]),
    ensures
        first <= first + count_pointers(nodes.take(j)) < first + count_pointers(nodes.take(k))
            < first + count_pointers(nodes),
{
    lemma_count_grows(nodes, j, k);
    lemma_count_grows(nodes, k, nodes.len() as int);
    assert(nodes.take(nodes.len() as int) =~= nodes);
}

/// A source of new pointers, which remembers what is known about each pointer that it made.
pub trait AssignPointerIds: Sized {
    /// The parts of `self` that making a pointer leaves alone.
    type Others;

    /// What is known about each pointer made so far.
    spec fn infos(&self) -> Seq<PointerInfo>;

    /// Everything but the pointers.
    spec fn others(&self) -> Self::Others;

    /// The pointer with the number `i`.
    spec fn pointer(i: nat) -> PointerId;

    /// Makes a pointer of which `info` is known.
    fn new_pointer(&mut self, info: PointerInfo) -> (r: PointerId)
        ensures
            r == Self::pointer(old(self).infos().len()),
            final(self).infos() == old(self).infos().push(info),
            final(self).others() == old(self).others(),
    ;

    /// Labels `ty` with new pointers of which nothing more is known than whether they are
    /// references.
    fn assign_pointer_ids(&mut self, ty: &Ty) -> (r: LTy)
        ensures
            r@ == labeled_from(ty@, old(self).infos().len(), |i: nat| Self::pointer(i)),
            final(self).infos() == old(self).infos() + pointer_infos(ty@, PointerInfo { bits: 0 }),
            final(self).others() == old(self).others(),
    {
        self.assign_pointer_ids_with_info(ty, PointerInfo::empty())
    }

    /// Labels every reference and raw pointer of `ty` with a new pointer. References are marked
    /// as such, besides what `base_ptr_info` says of all of them.
    fn assign_pointer_ids_with_info(&mut self, ty: &Ty, base_ptr_info: PointerInfo) -> (r: LTy)
        ensures
            r@ == labeled_from(ty@, old(self).infos().len(), |i: nat| Self::pointer(i)),
            final(self).infos() == old(self).infos() + pointer_infos(ty@, base_ptr_info),
            final(self).others() == old(self).others(),
    {
        let ghost infos0 = self.infos();
        let ghost first = infos0.len();
        let mut nodes: Vec<LabeledNode<PointerId>> = Vec::new();
        let mut i: usize = 0;
        assert(infos0 + pointer_infos(ty@.take(0), base_ptr_info) =~= infos0);
        while i < ty.nodes.len()
            invariant
                i <= ty@.len(),
                first == infos0.len(),
                nodes@.len() == i,
                forall|k: int|
                    0 <= k < i ==> #[trigger] nodes@[k] == labeled_from(
                        ty@,
                        first,
                        |i: nat| Self::pointer(i),
                    )[k],
                self.infos() == infos0 + pointer_infos(ty@.take(i as int), base_ptr_info),
                self.others() == old(self).others(),
            decreases ty@.len() - i,
        {
            let node = ty.nodes[i];
            proof {
                lemma_one_info_each(ty@.take(i as int), base_ptr_info);
                assert(ty@.take(i + 1).drop_last() =~= ty@.take(i as int));
            }
            let label = match node.ctor {
                TyCtor::Ref => {
                    let mut info = base_ptr_info;
                    info.insert(PointerInfo::REF);
                    self.new_pointer(info)
                },
                TyCtor::RawPtr => self.new_pointer(base_ptr_info),
                _ => PointerId::Absent,
            };
            nodes.push(LabeledNode { node, label });
            i += 1;
            assert(self.infos() =~= infos0 + pointer_infos(ty@.take(i as int), base_ptr_info));
        }
        assert(ty@.take(i as int) =~= ty@);
        assert(nodes@ =~= labeled_from(ty@, first, |i: nat| Self::pointer(i)));
        LabeledTy { nodes }
    }
}

/// A part of a type that stands before another part: its pointers are counted and described
/// first, and take the first numbers.
pub proof fn law_parts_of_types(
    a: Seq<TyNode>,
    b: Seq<TyNode>,
    base: PointerInfo,
    first: nat,
    id: spec_fn(nat) -> PointerId,
)
    ensures
        count_pointers(a + b) == count_pointers(a) + count_pointers(b),
        pointer_infos(a + b, base) == pointer_infos(a, base) + pointer_infos(b, base),
        labeled_from(a + b, first, id) == labeled_from(a, first, id) + labeled_from(
            b,
            first + count_pointers(a),
            id,
        ),
    decreases b.len(),
{
    if b.len() == 0 {
        assert(a + b =~= a);
        assert(pointer_infos(a, base) + pointer_infos(b, base) =~= pointer_infos(a, base));
    } else {
        assert((a + b).drop_last() =~= a + b.drop_last());
        law_parts_of_types(a, b.drop_last(), base, first, id);
        assert(pointer_infos(a + b, base) =~= pointer_infos(a, base) + pointer_infos(b, base));
    }
    let all = labeled_from(a + b, first, id);
    let parts = labeled_from(a, first, id) + labeled_from(b, first + count_pointers(a), id);
    assert forall|k: int| 0 <= k < all.len() implies all[k] == parts[k] by {
        if k < a.len() {
            assert((a + b).take(k) =~= a.take(k));
        } else {
            assert((a + b).take(k) =~= a + b.take(k - a.len()));
            lemma_count_parts(a, b.take(k - a.len()));
        }
    }
    assert(all =~= parts);
}

proof fn lemma_count_parts(a: Seq<TyNode>, b: Seq<TyNode>)
    ensures
        count_pointers(a + b) == count_pointers(a) + count_pointers(b),
    decreases b.len(),
{
    if b.len() == 0 {
        assert(a + b =~= a);
    } else {
        assert((a + b).drop_last() =~= a + b.drop_last());
        lemma_count_parts(a, b.drop_last());
    }
}

/// References and raw pointers get a pointer, and nothing else does. References are marked as such,
/// besides what is known of all pointers of the type; raw pointers are not.
pub proof fn law_single_nodes(
    n: TyNode,
    base: PointerInfo,
    first: nat,
    id: spec_fn(nat) -> PointerId,
)
    ensures
        n.ctor == TyCtor::Ref ==> {
            &&& pointer_infos(seq![n], base).len() == 1
            &&& pointer_infos(seq![n], base)[0].bits & PointerInfo::REF == PointerInfo::REF
            &&& pointer_infos(seq![n], base)[0].bits & !PointerInfo::REF == base.bits
                & !PointerInfo::REF
            &&& labeled_from(seq![n], first, id) == seq![LabeledNode { node: n, label: id(first) }]
        },
        n.ctor == TyCtor::RawPtr ==> {
            &&& pointer_infos(seq![n], base) == seq![base]
            &&& labeled_from(seq![n], first, id) == seq![LabeledNode { node: n, label: id(first) }]
        },
        n.ctor is Adt || n.ctor is Other ==> {
            &&& pointer_infos(seq![n], base).len() == 0
            &&& labeled_from(seq![n], first, id) == seq![
                LabeledNode { node: n, label: PointerId::Absent },
            ]
        },
        count_pointers(seq![n]) == pointer_infos(seq![n], base).len(),
        labeled_from(Seq::<TyNode>::empty(), first, id).len() == 0,
        count_pointers(Seq::<TyNode>::empty()) == 0,
{
    let one = seq![n];
    assert(one.drop_last() =~= Seq::<TyNode>::empty());
    assert(pointer_infos(one.drop_last(), base) =~= Seq::<PointerInfo>::empty());
    assert(one.take(0) =~= Seq::<TyNode>::empty());
    assert(count_pointers(one.take(0)) == 0);
    law_info_masks(base, PointerInfo::REF);
    assert(labeled_from(one, first, id) =~= seq![
        LabeledNode {
            node: n,
            label: if n.ctor is Ref || n.ctor is RawPtr {
                id(first)
            } else {
                PointerId::Absent
            },
        },
    ]);
    lemma_one_info_each(one, base);
    if n.ctor is RawPtr {
        assert(pointer_infos(one, base) =~= seq![base]);
    }
}

/// A labeled type has the nodes of the type, a label at exactly its references and raw pointers,
/// and no label twice.
pub proof fn law_labeled_types(
    nodes: Seq<TyNode>,
    first: nat,
    id: spec_fn(nat) -> PointerId,
    j: int,
    k: int,
)
    requires
        first + count_pointers(nodes) <= usize::MAX,
        forall|a: nat, b: nat|
            a < b && b <= usize::MAX ==> #[trigger] id(a) != #[trigger] id(b),
        forall|a: nat| a <= usize::MAX ==> !(#[trigger] id(a) is Absent),
        0 <= k < nodes.len(),
    ensures
        labeled_from(nodes, first, id).len() == nodes.len(),
        labeled_from(nodes, first, id)[k].node == nodes[k],
        labeled_from(nodes, first, id)[k].label is Absent <==> nodes[k].ctor is Adt
            || nodes[k].ctor is Other,
        nodes[k].ctor is Ref || nodes[k].ctor is RawPtr ==> labeled_from(nodes, first, id)[k].label
            == id(first + count_pointers(nodes.take(k))),
        0 <= j < k && labeled_from(nodes, first, id)[j].label == labeled_from(
            nodes,
            first,
            id,
        )[k].label ==> labeled_from(nodes, first, id)[k].label is Absent,
{
    if 0 <= j < k && is_pointer(nodes[j]) && is_pointer(nodes[k]) {
        law_labels_distinct(nodes, first, j, k);
    }
    lemma_count_grows(nodes, k, nodes.len() as int);
    assert(nodes.take(nodes.len() as int) =~= nodes);
}

/// The pointer that a type is, is the label of its root. A type mentions the label of each of its
/// nodes, and a signature the labels of all its inputs and of its output; a label that is absent is
/// mentioned nowhere.
pub proof fn law_mentioned_labels(
    lty: Seq<LabeledNode<PointerId>>,
    sig: SigView,
    i: int,
    k: int,
    p: PointerId,
)
    ensures
        lty.len() > 0 && lty[0].label == p && p != PointerId::Absent ==> pointer_of(lty) == Some(p),
        lty.len() > 0 && lty[0].label == PointerId::Absent ==> pointer_of(lty) is None,
        0 <= k < lty.len() && lty[k].label == p && p != PointerId::Absent ==> mentions(lty, p),
        0 <= i < sig.inputs.len() && 0 <= k < sig.inputs[i].len() && sig.inputs[i][k].label == p && p
            != PointerId::Absent ==> sig_mentions(sig, p),
        0 <= k < sig.output.len() && sig.output[k].label == p && p != PointerId::Absent
            ==> sig_mentions(sig, p),
        p == PointerId::Absent ==> !mentions(lty, p) && !sig_mentions(sig, p),
        mentions(lty, p) ==> exists|n: int| 0 <= n < lty.len() && #[trigger] lty[n].label == p,
        sig_mentions(sig, p) ==> (exists|n: int|
            0 <= n < sig.output.len() && #[trigger] sig.output[n].label == p) || (exists|
            a: int,
            n: int,
        |
            0 <= a < sig.inputs.len() && 0 <= n < sig.inputs[a].len()
                && #[trigger] sig.inputs[a][n].label == p),
{
    if 0 <= i < sig.inputs.len() && 0 <= k < sig.inputs[i].len() && sig.inputs[i][k].label == p && p
        != PointerId::Absent {
        assert(mentions(sig.inputs[i], p));
    }
    if sig_mentions(sig, p) && !mentions(sig.output, p) {
        let a = choose|a: int| 0 <= a < sig.inputs.len() && #[trigger] mentions(sig.inputs[a], p);
        let n = choose|n: int| 0 <= n < sig.inputs[a].len() && #[trigger] sig.inputs[a][n].label == p;
        assert(sig.inputs[a][n].label == p);
    }
}

} // verus!
