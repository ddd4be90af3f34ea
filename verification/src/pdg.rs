//! What a recorded run of the program says about the permissions of pointers.
use crate::assignment::{GlobalAssignment, LocalAssignment};
use crate::context::AnalysisCtxtData;
use crate::flags::{change_between, permission_change, PermissionChange, PermissionSet};
use crate::pointer_id::{is_label, lookup, value_of, PointerId};
use crate::ty::pointer_of;
use std::collections::HashMap;
use vstd::prelude::*;

verus! {

/// The stable hash by which a recording names a function.
#[derive(Clone, Copy, Debug, PartialEq, Eq, Structural)]
pub struct DefPathHash {
    pub high: u64,
    pub low: u64,
}

/// What is done with the value of a node, directly or further on.
#[derive(Clone, Copy, Debug, PartialEq, Eq, Structural)]
pub struct NodeInfo {
    /// It is loaded from.
    pub load: bool,
    /// It is stored to.
    pub store: bool,
    /// It is moved towards the end of its allocation.
    pub pos_offset: bool,
    /// It is moved towards the start of its allocation.
    pub neg_offset: bool,
    /// No other pointer reaches the value at the same time.
    pub unique: bool,
}

/// The place that a node writes.
#[derive(Clone, Copy, Debug, PartialEq, Eq, Structural)]
pub struct NodeDest {
    pub local: usize,
    /// Whether a part of the local, or what it points to, is written.
    pub has_projection: bool,
}

/// A recorded operation on a pointer.
pub struct Node {
    pub function: DefPathHash,
    pub function_name: String,
    pub dest: Option<NodeDest>,
    pub info: Option<NodeInfo>,
}

/// What became of a node.
#[derive(Clone, Copy, Debug, PartialEq, Eq, Structural)]
pub enum NodeOutcome {
    /// The node writes nothing, or no local as a whole.
    Skipped,
    /// The local that the node writes is no pointer.
    NotAPointer(usize),
    /// Nothing is recorded of what is done with the local.
    MissingInfo(usize),
    /// The pointer has the recorded permissions already.
    Unchanged(PointerId),
    /// The permissions of the pointer changed.
    Changed(PointerId, PermissionChange),
}

/// `perms` if `cond` does not hold, and `perms` with `mask` if it does.
pub open spec fn with_if(perms: PermissionSet, cond: bool, mask: u16) -> PermissionSet {
    if cond {
        perms.with(mask)
    } else {
        perms
    }
}

/// The permissions of a pointer after a node with this `info`.
pub open spec fn perms_after(perms: PermissionSet, info: NodeInfo) -> PermissionSet {
    let p = with_if(perms, info.load, PermissionSet::READ);
    let p = with_if(p, info.store, PermissionSet::WRITE);
    let p = with_if(p, info.pos_offset, PermissionSet::OFFSET_ADD);
    let p = with_if(p, info.neg_offset, PermissionSet::OFFSET_SUB);
    if info.unique {
        p
    } else {
        p.without(PermissionSet::UNIQUE)
    }
}

/// The permissions of a pointer after a node with this `info`.
fn node_perms(old_perms: PermissionSet, info: NodeInfo) -> (r: PermissionSet)
    ensures
        r == perms_after(old_perms, info),
{
    let mut perms = old_perms;
    if info.load {
        perms.insert(PermissionSet::READ);
    }
    if info.store {
        perms.insert(PermissionSet::WRITE);
    }
    if info.pos_offset {
        perms.insert(PermissionSet::OFFSET_ADD);
    }
    if info.neg_offset {
        perms.insert(PermissionSet::OFFSET_SUB);
    }
    if !info.unique {
        perms.remove(PermissionSet::UNIQUE);
    }
    perms
}

/// A node gives a pointer what was recorded of it, takes nothing but the uniqueness away, and says
/// the same when it comes again.
pub proof fn law_node_perms(perms: PermissionSet, info: NodeInfo)
    ensures
        info.load ==> perms_after(perms, info).has(PermissionSet::READ),
        info.store ==> perms_after(perms, info).has(PermissionSet::WRITE),
        info.pos_offset ==> perms_after(perms, info).has(PermissionSet::OFFSET_ADD),
        info.neg_offset ==> perms_after(perms, info).has(PermissionSet::OFFSET_SUB),
        !info.unique ==> perms_after(perms, info).bits & PermissionSet::UNIQUE == 0,
        perms.without(perms_after(perms, info).bits).without(PermissionSet::UNIQUE).bits == 0,
        perms_after(perms_after(perms, info), info) == perms_after(perms, info),
{
    let b = perms.bits;
    let l: u16 = if info.load {
        0x1
    } else {
        0
    };
    let s: u16 = if info.store {
        0x2
    } else {
        0
    };
    let p: u16 = if info.pos_offset {
        0x10
    } else {
        0
    };
    let n: u16 = if info.neg_offset {
        0x20
    } else {
        0
    };
    let u: u16 = if info.unique {
        0
    } else {
        0x4
    };
    assert(b | 0 == b && b & !0u16 == b) by (bit_vector);
    let b1 = b | l;
    let b2 = b1 | s;
    let b3 = b2 | p;
    let b4 = b3 | n;
    assert(b1 | 0 == b1 && b2 | 0 == b2 && b3 | 0 == b3 && b4 & !0u16 == b4) by (bit_vector);
    let r = b4 & !u;
    assert(perms_after(perms, info).bits == r);
    let r1 = r | l;
    let r2 = r1 | s;
    let r3 = r2 | p;
    let r4 = r3 | n;
    assert(r | 0 == r && r1 | 0 == r1 && r2 | 0 == r2 && r3 | 0 == r3 && r4 & !0u16 == r4)
        by (bit_vector);
    assert(perms_after(perms_after(perms, info), info).bits == r4 & !u);
    assert({
        &&& l == 0x1 ==> r & 0x1 == 0x1
        &&& s == 0x2 ==> r & 0x2 == 0x2
        &&& p == 0x10 ==> r & 0x10 == 0x10
        &&& n == 0x20 ==> r & 0x20 == 0x20
        &&& u == 0x4 ==> r & 0x4 == 0
        &&& (b & !r) & !0x4u16 == 0
        &&& ((((r | l) | s) | p) | n) & !u == r
    }) by (bit_vector)
        requires
            r == ((((b | l) | s) | p) | n) & !u,
            l == 0 || l == 0x1,
            s == 0 || s == 0x2,
            p == 0 || p == 0x10,
            n == 0 || n == 0x20,
            u == 0 || u == 0x4,
    ;
}

/// What becomes of a node in the function `acx`, where the pointers have the permissions `global`
/// and `local`.
pub open spec fn outcome_of(
    acx: AnalysisCtxtData,
    global: Seq<PermissionSet>,
    local: Seq<PermissionSet>,
    node: Node,
) -> NodeOutcome {
    match node.dest {
        None => NodeOutcome::Skipped,
        Some(dest) => if dest.has_projection {
            NodeOutcome::Skipped
        } else {
            match (pointer_of(acx.local_tys@[dest.local as int]@), node.info) {
                (None, _) => NodeOutcome::NotAPointer(dest.local),
                (Some(ptr), None) => NodeOutcome::MissingInfo(dest.local),
                (Some(ptr), Some(info)) => {
                    let perms = value_of(global, local, ptr);
                    if perms_after(perms, info) == perms {
                        NodeOutcome::Unchanged(ptr)
                    } else {
                        NodeOutcome::Changed(ptr, change_between(perms, perms_after(perms, info)))
                    }
                },
            }
        },
    }
}

/// The permissions of the pointers `ids` of one table, after a node with the outcome `outcome`.
pub open spec fn table_after(
    perms: Seq<PermissionSet>,
    id: spec_fn(usize) -> PointerId,
    outcome: NodeOutcome,
    node: Node,
) -> Seq<PermissionSet> {
    Seq::new(
        perms.len(),
        |i: int|
            match outcome {
                NodeOutcome::Changed(ptr, _) if ptr == id(i as usize) => perms_after(
                    perms[i],
                    node.info->Some_0,
                ),
                _ => perms[i],
            },
    )
}

/// The local that the node is about is one of the function, and the tables have an entry for its
/// pointer.
pub open spec fn node_fits(
    acx: AnalysisCtxtData,
    global: nat,
    local: nat,
    node: Node,
) -> bool {
    match node.dest {
        Some(dest) if !dest.has_projection => {
            &&& dest.local < acx.local_tys@.len()
            &&& acx.local_tys@[dest.local as int]@.len() > 0
            &&& is_label(global, local, acx.local_tys@[dest.local as int]@[0].label)
        },
        _ => true,
    }
}

/// Gives the pointer that a node writes the permissions that were recorded of it.
pub fn apply_node(
    acx: &AnalysisCtxtData,
    gasn: &mut GlobalAssignment,
    lasn: &mut LocalAssignment,
    node: &Node,
) -> (r: NodeOutcome)
    requires
        node_fits(*acx, old(gasn).perms@.len(), old(lasn).perms@.len(), *node),
    ensures
        r == outcome_of(*acx, old(gasn).perms@, old(lasn).perms@, *node),
        final(gasn).perms@ == table_after(
            old(gasn).perms@,
            |i: usize| PointerId::Global(i),
            r,
            *node,
        ),
        final(lasn).perms@ == table_after(
            old(lasn).perms@,
            |i: usize| PointerId::Local(i),
            r,
            *node,
        ),
        final(gasn).flags == old(gasn).flags,
        final(lasn).flags == old(lasn).flags,
{
    assert(gasn.perms@.len() == gasn.perms.values.len());
    assert(lasn.perms@.len() == lasn.perms.values.len());
    let outcome = match &node.dest {
        None => NodeOutcome::Skipped,
        Some(dest) => {
            if dest.has_projection {
                NodeOutcome::Skipped
            } else {
                let ptr = acx.local_tys[dest.local].nodes[0].label;
                if ptr.is_none() {
                    NodeOutcome::NotAPointer(dest.local)
                } else {
                    match &node.info {
                        None => NodeOutcome::MissingInfo(dest.local),
                        Some(info) => {
                            let old_perms = lookup(&gasn.perms, &lasn.perms, ptr);
                            let perms = node_perms(old_perms, *info);
                            if perms != old_perms {
                                match ptr {
                                    PointerId::Global(i) => gasn.perms.values.set(i, perms),
                                    PointerId::Local(i) => lasn.perms.values.set(i, perms),
                                    PointerId::Absent => {},
                                }
                                NodeOutcome::Changed(ptr, permission_change(old_perms, perms))
                            } else {
                                NodeOutcome::Unchanged(ptr)
                            }
                        },
                    }
                }
            }
        },
    };
    proof {
        assert(gasn.perms@ =~= table_after(
            old(gasn).perms@,
            |i: usize| PointerId::Global(i),
            outcome,
            *node,
        ));
        assert(lasn.perms@ =~= table_after(
            old(lasn).perms@,
            |i: usize| PointerId::Local(i),
            outcome,
            *node,
        ));
    }
    outcome
}

/// Whether a node can be applied: the local that it is about is one of the function, and there are
/// permissions for its pointer.
pub fn can_apply(
    acx: &AnalysisCtxtData,
    gasn: &GlobalAssignment,
    lasn: &LocalAssignment,
    node: &Node,
) -> (r: bool)
    ensures
        r == node_fits(*acx, gasn.perms@.len(), lasn.perms@.len(), *node),
{
    match &node.dest {
        Some(dest) => {
            if dest.has_projection {
                true
            } else if dest.local >= acx.local_tys.len() {
                false
            } else if acx.local_tys[dest.local].nodes.len() == 0 {
                false
            } else {
                match acx.local_tys[dest.local].nodes[0].label {
                    PointerId::Global(i) => i < gasn.perms.values.len(),
                    PointerId::Local(i) => i < lasn.perms.values.len(),
                    PointerId::Absent => true,
                }
            }
        },
        None => true,
    }
}

/// Where `h` stands last in `hashes`.
pub open spec fn last_position(hashes: Seq<DefPathHash>, h: DefPathHash) -> Option<int>
    decreases hashes.len(),
{
    if hashes.len() == 0 {
        None
    } else if hashes.last() == h {
        Some(hashes.len() - 1)
    } else {
        last_position(hashes.drop_last(), h)
    }
}

/// The functions by their hashes.
pub struct FunctionHashes {
    positions: HashMap<u128, usize>,
}

spec fn hash_key(h: DefPathHash) -> u128 {
    (h.high * 0x1_0000_0000_0000_0000 + h.low) as u128
}

fn key_of(h: DefPathHash) -> (r: u128)
    ensures
        r == hash_key(h),
{
    (h.high as u128) * 0x1_0000_0000_0000_0000 + (h.low as u128)
}

proof fn lemma_key_of(a: DefPathHash, b: DefPathHash)
    requires
        hash_key(a) == hash_key(b),
    ensures
        a == b,
{
}

impl FunctionHashes {
    /// Where each hash stands in the list that the table was made from. Where a hash stands more
    /// than once, the last position counts.
    pub closed spec fn position(&self, h: DefPathHash) -> Option<int> {
        if self.positions@.contains_key(hash_key(h)) {
            Some(self.positions@[hash_key(h)] as int)
        } else {
            None
        }
    }

    /// The table for functions with these hashes.
    pub fn new(hashes: &Vec<DefPathHash>) -> (r: FunctionHashes)
        ensures
            forall|h: DefPathHash| #[trigger] r.position(h) == last_position(hashes@, h),
    {
        broadcast use vstd::std_specs::hash::group_hash_axioms;

        let mut table = FunctionHashes { positions: HashMap::new() };
        let mut i: usize = 0;
        while i < hashes.len()
            invariant
                i <= hashes@.len(),
                forall|h: DefPathHash| #[trigger]
                    table.position(h) == last_position(hashes@.take(i as int), h),
            decreases hashes@.len() - i,
        {
            let ghost before = table;
            table.positions.insert(key_of(hashes[i]), i);
            proof {
                let now = hashes@.take(i + 1);
                assert(now.drop_last() =~= hashes@.take(i as int));
                assert forall|h: DefPathHash| #[trigger] table.position(h) == last_position(
                    now,
                    h,
                ) by {
                    assert(before.position(h) == last_position(hashes@.take(i as int), h));
                    if hash_key(h) == hash_key(hashes@[i as int]) {
                        lemma_key_of(h, hashes@[i as int]);
                    }
                }
            }
            i += 1;
        }
        assert(hashes@.take(i as int) =~= hashes@);
        table
    }

    /// The position of the function with the hash `h`.
    pub fn get(&self, h: DefPathHash) -> (r: Option<usize>)
        ensures
            match r {
                Some(i) => self.position(h) == Some(i as int),
                None => self.position(h) is None,
            },
    {
        broadcast use vstd::std_specs::hash::group_hash_axioms;

        match self.positions.get(&key_of(h)) {
            Some(i) => Some(*i),
            None => None,
        }
    }
}

/// A pointer may be written after a node exactly if it could be before or the node stores to it,
/// and so on for each permission that a recording gives. It is unique exactly if it was and the
/// node says nothing else. A node leaves all other permissions as they are.
pub proof fn law_recorded_permissions(perms: PermissionSet, info: NodeInfo, other: u16)
    requires
        other & PermissionSet::READ == 0,
        other & PermissionSet::WRITE == 0,
        other & PermissionSet::OFFSET_ADD == 0,
        other & PermissionSet::OFFSET_SUB == 0,
        other & PermissionSet::UNIQUE == 0,
    ensures
        ({
            let before = perms.bits;
            let after = perms_after(perms, info).bits;
            &&& after & PermissionSet::READ != 0 <==> before & PermissionSet::READ != 0 || info.load
            &&& after & PermissionSet::WRITE != 0 <==> before & PermissionSet::WRITE != 0
                || info.store
            &&& after & PermissionSet::OFFSET_ADD != 0 <==> before & PermissionSet::OFFSET_ADD != 0
                || info.pos_offset
            &&& after & PermissionSet::OFFSET_SUB != 0 <==> before & PermissionSet::OFFSET_SUB != 0
                || info.neg_offset
            &&& after & PermissionSet::UNIQUE != 0 <==> before & PermissionSet::UNIQUE != 0
                && info.unique
            &&& after & other == before & other
        }),
{
    let b = perms.bits;
    let b1 = with_if(perms, info.load, PermissionSet::READ);
    let b2 = with_if(b1, info.store, PermissionSet::WRITE);
    let b3 = with_if(b2, info.pos_offset, PermissionSet::OFFSET_ADD);
    let b4 = with_if(b3, info.neg_offset, PermissionSet::OFFSET_SUB);
    lemma_permission_added(perms, PermissionSet::READ, info.load, other);
    lemma_permission_added(b1, PermissionSet::WRITE, info.store, other);
    lemma_permission_added(b2, PermissionSet::OFFSET_ADD, info.pos_offset, other);
    lemma_permission_added(b3, PermissionSet::OFFSET_SUB, info.neg_offset, other);
    let x = b4.bits;
    assert({
        &&& (x & !0x4u16) & 0x4 == 0
        &&& (x & !0x4u16) & 0x1 == x & 0x1
        &&& (x & !0x4u16) & 0x2 == x & 0x2
        &&& (x & !0x4u16) & 0x10 == x & 0x10
        &&& (x & !0x4u16) & 0x20 == x & 0x20
        &&& other & 0x4 == 0 ==> (x & !0x4u16) & other == x & other
    }) by (bit_vector);
}

/// Adding one permission sets its bit, and no other.
proof fn lemma_permission_added(perms: PermissionSet, mask: u16, cond: bool, other: u16)
    requires
        mask == 0x1 || mask == 0x2 || mask == 0x10 || mask == 0x20,
        other & mask == 0,
    ensures
        ({
            let r = with_if(perms, cond, mask).bits;
            let b = perms.bits;
            &&& r & mask != 0 <==> b & mask != 0 || cond
            &&& r & other == b & other
            &&& mask != 0x1 ==> r & 0x1 == b & 0x1
            &&& mask != 0x2 ==> r & 0x2 == b & 0x2
            &&& mask != 0x10 ==> r & 0x10 == b & 0x10
            &&& mask != 0x20 ==> r & 0x20 == b & 0x20
            &&& r & 0x4 == b & 0x4
        }),
{
    let b = perms.bits;
    assert({
        &&& (b | mask) & mask != 0
        &&& (b | mask) & other == b & other
        &&& mask != 0x1 ==> (b | mask) & 0x1 == b & 0x1
        &&& mask != 0x2 ==> (b | mask) & 0x2 == b & 0x2
        &&& mask != 0x10 ==> (b | mask) & 0x10 == b & 0x10
        &&& mask != 0x20 ==> (b | mask) & 0x20 == b & 0x20
        &&& (b | mask) & 0x4 == b & 0x4
    }) by (bit_vector)
        requires
            mask == 0x1 || mask == 0x2 || mask == 0x10 || mask == 0x20,
            other & mask == 0,
    ;
}

/// Only a node that writes a local as a whole says anything, and only if the local is a pointer and
/// something is recorded of it. Then the permissions of exactly that pointer change, unless they
/// are the recorded ones already.
pub proof fn law_node_outcomes(
    acx: AnalysisCtxtData,
    global: Seq<PermissionSet>,
    local: Seq<PermissionSet>,
    node: Node,
    dest: NodeDest,
    info: NodeInfo,
)
    requires
        node.dest == Some(dest),
        node_fits(acx, global.len(), local.len(), node),
    ensures
        ({
            let r = outcome_of(acx, global, local, node);
            let label = acx.local_tys@[dest.local as int]@[0].label;
            &&& dest.has_projection ==> r == NodeOutcome::Skipped
            &&& !dest.has_projection && label is Absent ==> r == NodeOutcome::NotAPointer(
                dest.local,
            )
            &&& !dest.has_projection && !(label is Absent) && node.info is None ==> r
                == NodeOutcome::MissingInfo(dest.local)
            &&& !dest.has_projection && node.info == Some(info) ==> (label matches PointerId::Global(
                p,
            ) ==> if perms_after(global[p as int], info) == global[p as int] {
                r == NodeOutcome::Unchanged(label)
            } else {
                r == NodeOutcome::Changed(
                    label,
                    change_between(global[p as int], perms_after(global[p as int], info)),
                )
            })
            &&& !dest.has_projection && node.info == Some(info) ==> (label matches PointerId::Local(
                p,
            ) ==> if perms_after(local[p as int], info) == local[p as int] {
                r == NodeOutcome::Unchanged(label)
            } else {
                r == NodeOutcome::Changed(
                    label,
                    change_between(local[p as int], perms_after(local[p as int], info)),
                )
            })
        }),
{
}

/// A node that writes nothing is skipped, and every node that is skipped can be applied.
pub proof fn law_skipped_nodes(
    acx: AnalysisCtxtData,
    global: Seq<PermissionSet>,
    local: Seq<PermissionSet>,
    node: Node,
)
    ensures
        node.dest is None ==> outcome_of(acx, global, local, node) == NodeOutcome::Skipped,
        node.dest is None ==> node_fits(acx, global.len(), local.len(), node),
        (node.dest matches Some(d) && d.has_projection) ==> node_fits(
            acx,
            global.len(),
            local.len(),
            node,
        ),
        (node.dest matches Some(d) && !d.has_projection) ==> (node_fits(
            acx,
            global.len(),
            local.len(),
            node,
        ) <==> {
            let d = node.dest->Some_0;
            &&& d.local < acx.local_tys@.len()
            &&& acx.local_tys@[d.local as int]@.len() > 0
            &&& match acx.local_tys@[d.local as int]@[0].label {
                PointerId::Global(p) => p < global.len(),
                PointerId::Local(p) => p < local.len(),
                PointerId::Absent => true,
            }
        }),
{
}

/// A node that changes a pointer gives it what was recorded. The permissions of all others, and of
/// all pointers after a node that changes none, are what they were.
pub proof fn law_node_changes_one(
    perms: Seq<PermissionSet>,
    id: spec_fn(usize) -> PointerId,
    outcome: NodeOutcome,
    node: Node,
    info: NodeInfo,
    i: usize,
    change: PermissionChange,
)
    requires
        i < perms.len(),
    ensures
        table_after(perms, id, outcome, node).len() == perms.len(),
        outcome == NodeOutcome::Changed(id(i), change) && node.info == Some(info) ==> table_after(
            perms,
            id,
            outcome,
            node,
        )[i as int] == perms_after(perms[i as int], info),
        (outcome matches NodeOutcome::Changed(p, _) ==> p != id(i)) ==> table_after(
            perms,
            id,
            outcome,
            node,
        )[i as int] == perms[i as int],
{
}

/// The position that counts for a hash is one where it stands, and it stands nowhere after it.
pub proof fn law_last_position(hashes: Seq<DefPathHash>, h: DefPathHash)
    ensures
        match last_position(hashes, h) {
            Some(i) => {
                &&& 0 <= i < hashes.len()
                &&& hashes[i] == h
                &&& forall|j: int| i < j < hashes.len() ==> #[trigger] hashes[j] != h
            },
            None => forall|j: int| 0 <= j < hashes.len() ==> #[trigger] hashes[j] != h,
        },
    decreases hashes.len(),
{
    if hashes.len() > 0 {
        let rest = hashes.drop_last();
        law_last_position(rest, h);
        assert forall|j: int| 0 <= j < rest.len() implies rest[j] == #[trigger] hashes[j] by {}
    }
}

} // verus!
