//! The first assignment of permissions and flags, and what a recorded run says about it.
use crate::adts::foreign_mentioned_tys;
use crate::analysis::{Analysis, FuncInfo};
use crate::assignment::{fix, GlobalAssignment};
use crate::def_id::{DefId, DefIdSet};
use crate::fixing::{fields_known, foreign_pointers, mark_foreign_fixed};
use crate::pdg::{
    apply_node, can_apply, last_position, law_last_position, node_fits, outcome_of, table_after,
    DefPathHash, FunctionHashes, Node, NodeOutcome,
};
use crate::permissions::{
    first_flags, first_perms, initial_global, initial_local, known_fits, known_within,
    lemma_known_len, set_known_perms, with_known, KnownPerms,
};
use crate::pointee::PointeeTypes;
use crate::pointer_id::{GlobalPointerTable, PointerId};
use crate::program::{foreign_dids, foreign_set, mentioned_set};
use crate::remapping::{remapped_to, Remapping};
use vstd::prelude::*;

verus! {

/// An analysis with permissions and flags for all pointers.
pub struct Assigning<D, E, C, R> {
    pub a: Analysis<D, E, C, R>,
    /// The types that the shared pointers point to.
    pub types: GlobalPointerTable<PointeeTypes>,
    /// The permissions and flags of the global pointers.
    pub gasn: GlobalAssignment,
    /// The permissions that are known beforehand.
    pub known: Vec<KnownPerms>,
    /// The items that are declared in `extern` blocks.
    pub foreign: DefIdSet,
    /// The structs, enums and unions that are mentioned in `extern` blocks.
    pub mentioned: DefIdSet,
}

/// There are permissions and flags for the pointers of the function.
pub open spec fn has_assignment<D, E, C, R>(info: FuncInfo<D, E, C, R>) -> bool {
    &&& info.acx_data.is_set()
    &&& info.lasn@ matches Some(lasn) && lasn.wf(info.acx_data@->Some_0.ptr_info@.len())
}

/// The slots of a function that is ready to be checked.
pub open spec fn is_ready<D, E, C, R>(info: FuncInfo<D, E, C, R>, globals: nat) -> bool {
    &&& info.is_labeled(globals)
    &&& info.dataflow.is_set()
    &&& !info.local_equiv.is_set()
    &&& has_assignment(info)
}

/// What there is about the function at position `i`.
pub open spec fn is_assigned<D, E, C, R>(a: Analysis<D, E, C, R>, i: int) -> bool {
    match a.infos@[i] {
        None => a.is_failed(i),
        Some(info) => {
            &&& has_assignment(info)
            &&& !a.is_failed(i) ==> is_ready(info, a.gacx.ptr_info@.len())
        },
    }
}

/// `after` is `before` with the permissions and flags that its pointers start with.
pub open spec fn info_assigned<D, E, C, R>(
    before: Option<FuncInfo<D, E, C, R>>,
    after: Option<FuncInfo<D, E, C, R>>,
) -> bool {
    match (before, after) {
        (Some(b), Some(f)) => {
            let infos = b.acx_data@->Some_0.ptr_info@;
            &&& f.lasn@ matches Some(lasn) && {
                &&& lasn.perms@ == Seq::new(infos.len(), |i: int| first_perms())
                &&& lasn.flags@ == Seq::new(infos.len(), |i: int| first_flags(infos[i]))
            }
            &&& f.acx_data == b.acx_data
            &&& f.dataflow == b.dataflow
            &&& f.local_equiv == b.local_equiv
            &&& f.pointee_constraints == b.pointee_constraints
            &&& f.local_pointee_types == b.local_pointee_types
            &&& f.recent_writes == b.recent_writes
        },
        (None, None) => true,
        _ => false,
    }
}

/// Why a recorded node cannot be applied.
#[derive(Clone, Copy, Debug, PartialEq, Eq, Structural)]
pub enum NodeError {
    /// There is no function with the recorded hash.
    UnknownFunction,
    /// Nothing is known about the function at this position.
    NoInfo(usize),
    /// The function at this position has no such local, or there are no permissions for its
    /// pointer.
    BadLocal(usize),
}

/// What comes of applying a node.
pub open spec fn node_result<D, E, C, R>(s: Assigning<D, E, C, R>, node: Node) -> Result<
    NodeOutcome,
    NodeError,
> {
    match last_position(s.a.program.hashes@, node.function) {
        None => Err(NodeError::UnknownFunction),
        Some(i) => match s.a.infos@[i] {
            None => Err(NodeError::NoInfo(i as usize)),
            Some(info) => {
                let acx = info.acx_data@->Some_0;
                let lasn = info.lasn@->Some_0;
                if node_fits(acx, s.gasn.perms@.len(), lasn.perms@.len(), node) {
                    Ok(outcome_of(acx, s.gasn.perms@, lasn.perms@, node))
                } else {
                    Err(NodeError::BadLocal(i as usize))
                }
            },
        },
    }
}

/// `after` is `before` with the permissions that a node gives, where `outcome` is what became of
/// it.
pub open spec fn node_applied<D, E, C, R>(
    before: Assigning<D, E, C, R>,
    after: Assigning<D, E, C, R>,
    node: Node,
    outcome: NodeOutcome,
) -> bool {
    let i = last_position(before.a.program.hashes@, node.function)->Some_0;
    let b = before.a.info(i);
    &&& after.gasn.perms@ == table_after(
        before.gasn.perms@,
        |p: usize| PointerId::Global(p),
        outcome,
        node,
    )
    &&& after.gasn.flags == before.gasn.flags
    &&& after.a.program == before.a.program
    &&& after.a.gacx == before.a.gacx
    &&& after.a.infos@.len() == before.a.infos@.len()
    &&& forall|k: int|
        0 <= k < before.a.infos@.len() && k != i ==> #[trigger] after.a.infos@[k]
            == before.a.infos@[k]
    &&& after.a.infos@[i] matches Some(f) && {
        &&& f.lasn@ matches Some(lasn) && {
            &&& lasn.perms@ == table_after(
                b.lasn@->Some_0.perms@,
                |p: usize| PointerId::Local(p),
                outcome,
                node,
            )
            &&& lasn.flags == b.lasn@->Some_0.flags
        }
        &&& f.acx_data == b.acx_data
        &&& f.dataflow == b.dataflow
        &&& f.local_equiv == b.local_equiv
        &&& f.pointee_constraints == b.pointee_constraints
        &&& f.local_pointee_types == b.local_pointee_types
        &&& f.recent_writes == b.recent_writes
    }
    &&& after.types == before.types
    &&& after.known == before.known
    &&& after.foreign == before.foreign
    &&& after.mentioned == before.mentioned
}

/// `after` is `before` with all of the nodes applied, one after the other, where `outcomes` is what
/// became of them.
pub open spec fn nodes_applied<D, E, C, R>(
    before: Assigning<D, E, C, R>,
    after: Assigning<D, E, C, R>,
    nodes: Seq<Node>,
    outcomes: Seq<NodeOutcome>,
) -> bool
    decreases nodes.len(),
{
    if nodes.len() == 0 {
        after == before && outcomes.len() == 0
    } else {
        &&& outcomes.len() > 0
        &&& exists|mid: Assigning<D, E, C, R>|
            {
                &&& nodes_applied(
                    before,
                    mid,
                    nodes.drop_last(),
                    outcomes.drop_last(),
                )
                &&& node_result(mid, nodes.last()) == Ok::<NodeOutcome, NodeError>(outcomes.last())
                &&& #[trigger] node_applied(mid, after, nodes.last(), outcomes.last())
            }
    }
}

/// A recording changes permissions alone: no flag, no label and no failure.
pub proof fn law_recording_changes_permissions_alone<D, E, C, R>(
    before: Assigning<D, E, C, R>,
    after: Assigning<D, E, C, R>,
    nodes: Seq<Node>,
    outcomes: Seq<NodeOutcome>,
)
    requires
        nodes_applied(before, after, nodes, outcomes),
    ensures
        after.gasn.flags == before.gasn.flags,
        after.gasn.perms@.len() == before.gasn.perms@.len(),
        after.a.program == before.a.program,
        after.a.gacx == before.a.gacx,
        after.types == before.types,
        after.known == before.known,
        outcomes.len() == nodes.len(),
    decreases nodes.len(),
{
    if nodes.len() > 0 {
        let mid = choose|mid: Assigning<D, E, C, R>|
            {
                &&& nodes_applied(before, mid, nodes.drop_last(), outcomes.drop_last())
                &&& node_result(mid, nodes.last()) == Ok::<NodeOutcome, NodeError>(outcomes.last())
                &&& #[trigger] node_applied(mid, after, nodes.last(), outcomes.last())
            };
        law_recording_changes_permissions_alone(
            before,
            mid,
            nodes.drop_last(),
            outcomes.drop_last(),
        );
    }
}

impl<D, E, C, R> Assigning<D, E, C, R> {
    /// There is something about every function that was not given up, and the tables have an entry
    /// for every pointer.
    pub open spec fn wf(&self) -> bool {
        let globals = self.a.gacx.ptr_info@.len();
        &&& self.a.wf()
        &&& self.a.infos@.len() == self.a.program.len()
        &&& self.types@.len() == globals
        &&& self.gasn.wf(globals)
        &&& known_within(globals, self.known@)
        &&& self.foreign@ == foreign_set(self.a.program.foreign_items@)
        &&& self.mentioned@ == mentioned_set(self.a.program)
        &&& forall|i: int|
            #![trigger self.a.infos@[i]]
            0 <= i < self.a.infos@.len() ==> is_assigned(self.a, i)
    }

    /// Gives all pointers the permissions and flags that they start with, fixes what is declared in
    /// `extern` blocks, and puts in the permissions that are known.
    pub fn start(
        r: Remapping<D, E, C, R>,
        structs: &Vec<DefId>,
        known: Vec<KnownPerms>,
    ) -> (s: Self)
        requires
            r.wf(),
            r.at == r.a.program.len(),
            forall|i: int|
                0 <= i < structs@.len() && mentioned_set(r.a.program).contains(
                    #[trigger] structs@[i],
                ) ==> fields_known(r.a.program.adts@, r.a.gacx.field_ltys@, structs@[i]),
            known_fits(Seq::new(r.a.gacx.ptr_info@.len(), |i: int| first_perms()), known@),
        ensures
            s.wf(),
            s.a.program == r.a.program,
            s.a.gacx == r.a.gacx,
            s.types == r.types,
            s.known == known,
            s.gasn.perms@ == with_known(
                Seq::new(r.a.gacx.ptr_info@.len(), |i: int| first_perms()),
                known@,
            ),
            s.gasn.flags@ == fix(
                Seq::new(
                    r.a.gacx.ptr_info@.len(),
                    |i: int| first_flags(r.a.gacx.ptr_info@[i]),
                ),
                foreign_pointers(
                    r.a.gacx,
                    foreign_set(r.a.program.foreign_items@),
                    r.a.program.adts@,
                    structs@,
                    mentioned_set(r.a.program),
                ),
            ),
            s.a.infos@.len() == r.a.infos@.len(),
            forall|i: int|
                0 <= i < s.a.infos@.len() ==> info_assigned(
                    r.a.infos@[i],
                    #[trigger] s.a.infos@[i],
                ),
    {
        let ghost a0 = r.a;
        let Remapping { a, types, map, at } = r;
        let ghost olds = map@.len();
        let mut a = a;
        let foreign = foreign_dids(&a.program.foreign_items);
        let mentioned = foreign_mentioned_tys(&a.program.adts, &a.program.foreign_items);
        assert(mentioned@ =~= mentioned_set(a.program));
        let mut gasn = initial_global(&a.gacx);
        mark_foreign_fixed(
            &a.gacx,
            &mut gasn,
            &foreign,
            &a.program.adts,
            structs,
            &mentioned,
        );
        set_known_perms(&mut gasn, &known);
        proof {
            lemma_known_len(
                Seq::new(a.gacx.ptr_info@.len(), |i: int| first_perms()),
                known@,
            );
        }
        let mut i: usize = 0;
        while i < a.infos.len()
            invariant
                i <= a.infos@.len(),
                a.infos@.len() == a0.infos@.len(),
                a0.infos@.len() == a0.program.len(),
                a.program == a0.program,
                a.gacx == a0.gacx,
                forall|k: int|
                    #![trigger a0.infos@[k]]
                    0 <= k < a0.infos@.len() ==> remapped_to(
                        a0,
                        olds,
                        a0.program.len() as int,
                        k,
                    ),
                forall|k: int|
                    0 <= k < i ==> info_assigned(a0.infos@[k], #[trigger] a.infos@[k]),
                forall|k: int|
                    #![trigger a.infos@[k]]
                    0 <= k < i ==> is_assigned(a, k),
                forall|k: int|
                    i <= k < a.infos@.len() ==> #[trigger] a.infos@[k] == a0.infos@[k],
            decreases a.infos@.len() - i,
        {
            let ghost before = a;
            assert(remapped_to(a0, olds, a0.program.len() as int, i as int)) by {
                assert(a0.infos@[i as int] == a.infos@[i as int]);
            }
            let mut slot: Option<FuncInfo<D, E, C, R>> = None;
            std::mem::swap(&mut slot, &mut a.infos[i]);
            if let Some(mut info) = slot {
                let lasn = initial_local(info.acx_data.get());
                info.lasn.set(lasn);
                a.infos.set(i, Some(info));
            }
            proof {
                assert forall|k: int|
                    #![trigger a.infos@[k]]
                    0 <= k < i + 1 implies is_assigned(a, k) && info_assigned(
                    a0.infos@[k],
                    a.infos@[k],
                ) by {
                    if k < i {
                        assert(is_assigned(before, k)) by {
                            assert(before.infos@[k] == a.infos@[k]);
                        }
                        assert(info_assigned(a0.infos@[k], before.infos@[k]));
                    }
                }
            }
            i += 1;
        }
        Assigning { a, types, gasn, known, foreign, mentioned }
    }

    /// Gives the pointer that a recorded node writes the permissions that were recorded of it.
    pub fn record(&mut self, hashes: &FunctionHashes, node: &Node) -> (r: Result<
        NodeOutcome,
        NodeError,
    >)
        requires
            old(self).wf(),
            forall|h| #[trigger]
                hashes.position(h) == last_position(old(self).a.program.hashes@, h),
        ensures
            final(self).wf(),
            r == node_result(*old(self), *node),
            match r {
                Ok(outcome) => node_applied(*old(self), *final(self), *node, outcome),
                Err(_) => *final(self) == *old(self),
            },
    {
        let ghost was = *self;
        let i = match hashes.get(node.function) {
            Some(i) => i,
            None => {
                return Err(NodeError::UnknownFunction);
            },
        };
        proof {
            lemma_last_position(self.a.program.hashes@, node.function);
        }
        let ok = match &self.a.infos[i] {
            None => {
                return Err(NodeError::NoInfo(i));
            },
            Some(info) => {
                assert(is_assigned(self.a, i as int));
                can_apply(info.acx_data.get(), &self.gasn, info.lasn.get(), node)
            },
        };
        if !ok {
            return Err(NodeError::BadLocal(i));
        }
        let mut outcome = NodeOutcome::Skipped;
        let mut slot: Option<FuncInfo<D, E, C, R>> = None;
        std::mem::swap(&mut slot, &mut self.a.infos[i]);
        if let Some(mut info) = slot {
            let mut lasn = info.lasn.take();
            outcome = apply_node(info.acx_data.get(), &mut self.gasn, &mut lasn, node);
            info.lasn.set(lasn);
            self.a.infos.set(i, Some(info));
        }
        proof {
            assert forall|k: int|
                #![trigger self.a.infos@[k]]
                0 <= k < self.a.infos@.len() implies is_assigned(self.a, k) by {
                assert(is_assigned(was.a, k)) by {
                    assert(was.a.infos@[k] == was.a.infos@[k]);
                }
                if k != i {
                    assert(self.a.infos@[k] == was.a.infos@[k]);
                }
            }
        }
        Ok(outcome)
    }

    /// Applies all recorded nodes in order, up to the first one that cannot be applied.
    pub fn record_all(&mut self, nodes: &Vec<Node>) -> (r: Result<
        Vec<NodeOutcome>,
        (usize, NodeError),
    >)
        requires
            old(self).wf(),
        ensures
            final(self).wf(),
            match r {
                Ok(outcomes) => nodes_applied(*old(self), *final(self), nodes@, outcomes@),
                Err((i, e)) => {
                    &&& i < nodes@.len()
                    &&& node_result(*final(self), nodes@[i as int]) == Err::<
                        NodeOutcome,
                        NodeError,
                    >(e)
                    &&& exists|outcomes: Seq<NodeOutcome>| #[trigger]
                        nodes_applied(*old(self), *final(self), nodes@.take(i as int), outcomes)
                },
            },
    {
        let hashes = FunctionHashes::new(&self.a.program.hashes);
        let mut outcomes: Vec<NodeOutcome> = Vec::new();
        let mut i: usize = 0;
        while i < nodes.len()
            invariant
                i <= nodes@.len(),
                self.wf(),
                self.a.program == old(self).a.program,
                forall|h| #[trigger]
                    hashes.position(h) == last_position(old(self).a.program.hashes@, h),
                outcomes@.len() == i,
                nodes_applied(*old(self), *self, nodes@.take(i as int), outcomes@),
            decreases nodes@.len() - i,
        {
            let ghost mid = *self;
            let ghost done = outcomes@;
            match self.record(&hashes, &nodes[i]) {
                Ok(outcome) => {
                    outcomes.push(outcome);
                },
                Err(e) => {
                    return Err((i, e));
                },
            }
            proof {
                let now = nodes@.take(i + 1);
                assert(now.drop_last() =~= nodes@.take(i as int));
                assert(outcomes@.drop_last() =~= done);
                assert(now.last() == nodes@[i as int]);
                assert(nodes_applied(*old(self), mid, now.drop_last(), outcomes@.drop_last()));
                assert(node_result(mid, now.last()) == Ok::<NodeOutcome, NodeError>(
                    outcomes@.last(),
                ));
                assert(node_applied(mid, *self, now.last(), outcomes@.last()));
            }
            i += 1;
        }
        assert(nodes@.take(i as int) =~= nodes@);
        Ok(outcomes)
    }
}

proof fn lemma_last_position(hashes: Seq<DefPathHash>, h: DefPathHash)
    ensures
        last_position(hashes, h) matches Some(i) ==> 0 <= i < hashes.len(),
    decreases hashes.len(),
{
    if hashes.len() > 0 {
        lemma_last_position(hashes.drop_last(), h);
    }
}

/// What is known of a function after the first assignment: each local pointer has the first
/// permissions and flags, and nothing else of the function changed.
pub proof fn law_first_local_assignment<D, E, C, R>(
    before: FuncInfo<D, E, C, R>,
    after: FuncInfo<D, E, C, R>,
    p: int,
)
    requires
        info_assigned(Some(before), Some(after)),
    ensures
        after.lasn.is_set(),
        ({
            let infos = before.acx_data@->Some_0.ptr_info@;
            let lasn = after.lasn@->Some_0;
            &&& lasn.perms@.len() == infos.len()
            &&& lasn.flags@.len() == infos.len()
            &&& 0 <= p < infos.len() ==> lasn.perms@[p] == first_perms()
            &&& 0 <= p < infos.len() ==> lasn.flags@[p] == first_flags(infos[p])
        }),
        after.acx_data == before.acx_data,
        after.dataflow == before.dataflow,
        after.local_equiv == before.local_equiv,
        after.pointee_constraints == before.pointee_constraints,
        after.local_pointee_types == before.local_pointee_types,
        after.recent_writes == before.recent_writes,
        !info_assigned(Some(before), None),
        !info_assigned(None, Some(after)),
{
}

/// A node is about the last function with its hash. It is in error if there is none, if nothing is
/// known of the function, or if the local that it writes is none of the function's. Otherwise it
/// has the outcome that the labels of the function and the permissions so far give.
pub proof fn law_node_results<D, E, C, R>(s: Assigning<D, E, C, R>, node: Node, i: int)
    ensures
        (forall|k: int|
            0 <= k < s.a.program.hashes@.len() ==> #[trigger] s.a.program.hashes@[k]
                != node.function) ==> node_result(s, node) == Err::<NodeOutcome, NodeError>(
            NodeError::UnknownFunction,
        ),
        0 <= i < s.a.program.hashes@.len() && s.a.program.hashes@[i] == node.function && (forall|
            k: int,
        |
            i < k < s.a.program.hashes@.len() ==> #[trigger] s.a.program.hashes@[k]
                != node.function) ==> match s.a.infos@[i] {
            None => node_result(s, node) == Err::<NodeOutcome, NodeError>(
                NodeError::NoInfo(i as usize),
            ),
            Some(info) => {
                let acx = info.acx_data@->Some_0;
                let local = info.lasn@->Some_0.perms@;
                let global = s.gasn.perms@;
                if node_fits(acx, global.len(), local.len(), node) {
                    node_result(s, node) == Ok::<NodeOutcome, NodeError>(
                        outcome_of(acx, global, local, node),
                    )
                } else {
                    node_result(s, node) == Err::<NodeOutcome, NodeError>(
                        NodeError::BadLocal(i as usize),
                    )
                }
            },
        },
{
    law_last_position(s.a.program.hashes@, node.function);
    let hashes = s.a.program.hashes@;
    if 0 <= i < hashes.len() && hashes[i] == node.function && (forall|k: int|
        i < k < hashes.len() ==> #[trigger] hashes[k] != node.function) {
        let j = last_position(hashes, node.function)->Some_0;
        assert(hashes[i] == node.function);
        assert(hashes[j] == node.function);
        assert(j == i);
    }
}

/// A node changes the permissions of at most one pointer: the one that its outcome names. No flag,
/// no label, and nothing of another function changes.
pub proof fn law_node_applied<D, E, C, R>(
    before: Assigning<D, E, C, R>,
    after: Assigning<D, E, C, R>,
    node: Node,
    outcome: NodeOutcome,
    i: int,
    k: int,
    p: usize,
)
    requires
        node_applied(before, after, node, outcome),
        last_position(before.a.program.hashes@, node.function) == Some(i),
    ensures
        after.gasn.flags@ == before.gasn.flags@,
        after.gasn.perms@.len() == before.gasn.perms@.len(),
        p < before.gasn.perms@.len() && (outcome matches NodeOutcome::Changed(q, _) ==> q
            != PointerId::Global(p)) ==> after.gasn.perms@[p as int] == before.gasn.perms@[p as int],
        after.a.program == before.a.program,
        after.a.gacx == before.a.gacx,
        after.types == before.types,
        after.known == before.known,
        after.foreign == before.foreign,
        after.mentioned == before.mentioned,
        after.a.infos@.len() == before.a.infos@.len(),
        0 <= k < before.a.infos@.len() && k != i ==> after.a.infos@[k] == before.a.infos@[k],
        after.a.infos@[i] is Some,
        ({
            let now = after.a.info(i);
            let was = before.a.info(i);
            let perms = was.lasn@->Some_0.perms@;
            let new_perms = now.lasn@->Some_0.perms@;
            &&& now.lasn.is_set()
            &&& now.lasn@->Some_0.flags@ == was.lasn@->Some_0.flags@
            &&& new_perms.len() == perms.len()
            &&& p < perms.len() && (outcome matches NodeOutcome::Changed(q, _) ==> q
                != PointerId::Local(p)) ==> new_perms[p as int] == perms[p as int]
            &&& now.acx_data == was.acx_data
            &&& now.dataflow == was.dataflow
            &&& now.local_equiv == was.local_equiv
            &&& now.pointee_constraints == was.pointee_constraints
            &&& now.local_pointee_types == was.local_pointee_types
            &&& now.recent_writes == was.recent_writes
        }),
{
}

/// Nodes are applied one after the other: no nodes change nothing, and a single node does what it
/// does alone.
pub proof fn law_nodes_in_order<D, E, C, R>(
    a: Assigning<D, E, C, R>,
    b: Assigning<D, E, C, R>,
    c: Assigning<D, E, C, R>,
    first: Seq<Node>,
    found: Seq<NodeOutcome>,
    second: Seq<Node>,
    more: Seq<NodeOutcome>,
)
    requires
        nodes_applied(a, b, first, found),
        nodes_applied(b, c, second, more),
    ensures
        nodes_applied(a, c, first + second, found + more),
    decreases second.len(),
{
    if second.len() == 0 {
        assert(first + second =~= first);
        assert(found + more =~= found);
    } else {
        let node = second.last();
        let outcome = more.last();
        let mid = choose|mid: Assigning<D, E, C, R>|
            {
                &&& nodes_applied(b, mid, second.drop_last(), more.drop_last())
                &&& node_result(mid, node) == Ok::<NodeOutcome, NodeError>(outcome)
                &&& #[trigger] node_applied(mid, c, node, outcome)
            };
        law_nodes_in_order(a, b, mid, first, found, second.drop_last(), more.drop_last());
        let all = first + second;
        let outcomes = found + more;
        assert(all.drop_last() =~= first + second.drop_last());
        assert(outcomes.drop_last() =~= found + more.drop_last());
        assert(all.last() == node && outcomes.last() == outcome);
        assert(node_applied(mid, c, node, outcome));
    }
}

/// Applying no node changes nothing, and applying a single one does what it does.
pub proof fn law_single_node<D, E, C, R>(
    before: Assigning<D, E, C, R>,
    after: Assigning<D, E, C, R>,
    node: Node,
    outcome: NodeOutcome,
)
    ensures
        nodes_applied(before, after, Seq::empty(), Seq::empty()) <==> after == before,
        nodes_applied(before, after, seq![node], seq![outcome]) <==> node_result(before, node)
            == Ok::<NodeOutcome, NodeError>(outcome) && node_applied(before, after, node, outcome),
{
    reveal_with_fuel(nodes_applied, 2);
    let one = seq![node];
    let got = seq![outcome];
    assert(one.drop_last() =~= Seq::<Node>::empty());
    assert(got.drop_last() =~= Seq::<NodeOutcome>::empty());
    assert(nodes_applied(before, before, one.drop_last(), got.drop_last()));
    if nodes_applied(before, after, one, got) {
        let mid = choose|mid: Assigning<D, E, C, R>|
            {
                &&& nodes_applied(before, mid, one.drop_last(), got.drop_last())
                &&& node_result(mid, one.last()) == Ok::<NodeOutcome, NodeError>(got.last())
                &&& #[trigger] node_applied(mid, after, one.last(), got.last())
            };
        assert(mid == before);
    }
}

/// A function is ready exactly if it is labeled, has constraints on the flow of pointers, has no
/// classes of pointers any more, and has permissions and flags for each of its pointers.
pub proof fn law_ready_functions<D, E, C, R>(
    a: Analysis<D, E, C, R>,
    info: FuncInfo<D, E, C, R>,
    globals: nat,
    i: int,
)
    ensures
        is_ready(info, globals) <==> info.is_labeled(globals) && info.dataflow.is_set()
            && !info.local_equiv.is_set() && has_assignment(info),
        has_assignment(info) ==> info.acx_data.is_set() && info.lasn.is_set()
            && info.lasn@->Some_0.perms@.len() == info.acx_data@->Some_0.ptr_info@.len()
            && info.lasn@->Some_0.flags@.len() == info.acx_data@->Some_0.ptr_info@.len(),
        is_assigned(a, i) && a.infos@[i] is None ==> a.is_failed(i),
        is_assigned(a, i) && a.infos@[i] == Some(info) ==> has_assignment(info),
        is_assigned(a, i) && a.infos@[i] == Some(info) && !a.is_failed(i) ==> is_ready(
            info,
            a.gacx.ptr_info@.len(),
        ),
{
}

} // verus!
