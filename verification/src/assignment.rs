//! Permissions and flags of all pointers, and the pointers whose type must not be changed.
use crate::context::{lty_fits, sig_fits};
use crate::flags::{law_fixed_bit, law_flags_with, FlagSet, PermissionSet};
use crate::pointer_id::{is_label, GlobalPointerTable, LocalPointerTable, PointerId};
use crate::ty::{mentions, sig_mentions, LFnSig, LTy, LabeledNode, SigView};
use vstd::prelude::*;

verus! {

/// The permissions and flags of all global pointers.
pub struct GlobalAssignment {
    pub perms: GlobalPointerTable<PermissionSet>,
    pub flags: GlobalPointerTable<FlagSet>,
}

/// The permissions and flags of the local pointers of one function.
pub struct LocalAssignment {
    pub perms: LocalPointerTable<PermissionSet>,
    pub flags: LocalPointerTable<FlagSet>,
}

impl GlobalAssignment {
    /// The tables are for `n` pointers.
    pub open spec fn wf(&self, n: nat) -> bool {
        self.perms@.len() == n && self.flags@.len() == n
    }
}

impl LocalAssignment {
    /// The tables are for `n` pointers.
    pub open spec fn wf(&self, n: nat) -> bool {
        self.perms@.len() == n && self.flags@.len() == n
    }
}

/// `flags` with the flag `FIXED` added for the global pointers in `ptrs`.
pub open spec fn fix(flags: Seq<FlagSet>, ptrs: Set<PointerId>) -> Seq<FlagSet> {
    Seq::new(
        flags.len(),
        |i: int|
            if ptrs.contains(PointerId::Global(i as usize)) {
                flags[i].with(FlagSet::FIXED)
            } else {
                flags[i]
            },
    )
}

/// `after` is `before` with the pointers in `ptrs` fixed.
pub open spec fn fixes(
    before: GlobalAssignment,
    after: GlobalAssignment,
    ptrs: Set<PointerId>,
) -> bool {
    &&& after.flags@ == fix(before.flags@, ptrs)
    &&& after.perms == before.perms
}

/// `ptr` alone, or nothing if it is absent.
pub open spec fn only(ptr: PointerId) -> Set<PointerId> {
    Set::new(|p: PointerId| p == ptr && !(p is Absent))
}

/// The pointers of a type.
pub open spec fn pointers_in(lty: Seq<LabeledNode<PointerId>>) -> Set<PointerId> {
    Set::new(|p: PointerId| mentions(lty, p))
}

/// The pointers of a signature.
pub open spec fn sig_pointers(sig: SigView) -> Set<PointerId> {
    Set::new(|p: PointerId| sig_mentions(sig, p))
}

/// Every pointer that is fixed in `before` is fixed in `after`.
pub open spec fn fixed_kept(before: Seq<FlagSet>, after: Seq<FlagSet>) -> bool {
    &&& after.len() == before.len()
    &&& forall|i: int|
        0 <= i < before.len() && (#[trigger] before[i]).has(FlagSet::FIXED) ==> after[i].has(
            FlagSet::FIXED,
        )
}

/// Whether every pointer that is fixed in `before` is fixed in `after`.
pub fn is_fixed_kept(before: &Vec<FlagSet>, after: &Vec<FlagSet>) -> (r: bool)
    ensures
        r == fixed_kept(before@, after@),
{
    if after.len() != before.len() {
        return false;
    }
    let mut i: usize = 0;
    while i < before.len()
        invariant
            i <= before@.len(),
            after@.len() == before@.len(),
            forall|k: int|
                0 <= k < i && (#[trigger] before@[k]).has(FlagSet::FIXED) ==> after@[k].has(
                    FlagSet::FIXED,
                ),
        decreases before@.len() - i,
    {
        if before[i].contains(FlagSet::FIXED) && !after[i].contains(FlagSet::FIXED) {
            assert(before@[i as int].has(FlagSet::FIXED));
            return false;
        }
        i += 1;
    }
    true
}

/// Fixing pointers keeps those that were fixed.
pub proof fn lemma_fix_keeps(flags: Seq<FlagSet>, ptrs: Set<PointerId>)
    ensures
        fixed_kept(flags, fix(flags, ptrs)),
{
    assert forall|i: int|
        0 <= i < flags.len() && (#[trigger] flags[i]).has(FlagSet::FIXED) implies fix(
        flags,
        ptrs,
    )[i].has(FlagSet::FIXED) by {
        law_fix(flags, ptrs, i, FlagSet::FIXED);
    }
}

/// Fixing some pointers, and then others, fixes both.
pub proof fn law_fix_twice(flags: Seq<FlagSet>, a: Set<PointerId>, b: Set<PointerId>)
    ensures
        fix(fix(flags, a), b) == fix(flags, a.union(b)),
{
    assert forall|i: int| 0 <= i < flags.len() implies fix(fix(flags, a), b)[i] == fix(
        flags,
        a.union(b),
    )[i] by {
        law_flags_with(flags[i], FlagSet::FIXED, 0);
    }
    assert(fix(fix(flags, a), b) =~= fix(flags, a.union(b)));
}

/// Fixing pointers gives them the flag, takes no flag from any pointer, and leaves the other
/// pointers alone.
pub proof fn law_fix(flags: Seq<FlagSet>, ptrs: Set<PointerId>, i: int, mask: u16)
    requires
        0 <= i < flags.len(),
    ensures
        ptrs.contains(PointerId::Global(i as usize)) ==> fix(flags, ptrs)[i].has(FlagSet::FIXED),
        !ptrs.contains(PointerId::Global(i as usize)) ==> fix(flags, ptrs)[i] == flags[i],
        flags[i].has(mask) ==> fix(flags, ptrs)[i].has(mask),
{
    law_flags_with(flags[i], FlagSet::FIXED, mask);
}

/// Fixing no pointer changes nothing.
pub proof fn lemma_fix_none(flags: Seq<FlagSet>)
    ensures
        fix(flags, Set::empty()) == flags,
{
    assert(fix(flags, Set::empty()) =~= flags);
}

/// Fixes `ptr`, unless it is absent.
pub fn fix_pointer(gasn: &mut GlobalAssignment, ptr: PointerId)
    requires
        is_label(old(gasn).flags@.len(), 0, ptr),
    ensures
        fixes(*old(gasn), *final(gasn), only(ptr)),
{
    let ghost ptrs = only(ptr);
    assert(gasn.flags@.len() == gasn.flags.values.len());
    if let PointerId::Global(i) = ptr {
        let mut flags = gasn.flags.values[i];
        flags.insert(FlagSet::FIXED);
        gasn.flags.values.set(i, flags);
    }
    assert(gasn.flags@ =~= fix(old(gasn).flags@, ptrs));
}

/// Fixes all pointers of a type.
pub fn make_ty_fixed(gasn: &mut GlobalAssignment, lty: &LTy)
    requires
        lty_fits(lty@, old(gasn).flags@.len(), 0),
    ensures
        fixes(*old(gasn), *final(gasn), pointers_in(lty@)),
{
    let ghost before = *gasn;
    let mut k: usize = 0;
    proof {
        lemma_fix_none(before.flags@);
        assert(pointers_in(lty@.take(0)) =~= Set::empty());
    }
    while k < lty.nodes.len()
        invariant
            k <= lty@.len(),
            lty_fits(lty@, before.flags@.len(), 0),
            fixes(before, *gasn, pointers_in(lty@.take(k as int))),
        decreases lty@.len() - k,
    {
        let ghost done = pointers_in(lty@.take(k as int));
        let ptr = lty.nodes[k].label;
        let ghost this = only(ptr);
        fix_pointer(gasn, ptr);
        proof {
            law_fix_twice(before.flags@, done, this);
            let next = lty@.take(k + 1);
            assert forall|p: PointerId| done.union(this).contains(p) <==> mentions(next, p) by {
                if mentions(lty@.take(k as int), p) {
                    let j = choose|j: int|
                        0 <= j < k && #[trigger] lty@.take(k as int)[j].label == p;
                    assert(next[j].label == p);
                }
                if mentions(next, p) {
                    let j = choose|j: int| 0 <= j < next.len() && #[trigger] next[j].label == p;
                    if j < k {
                        assert(lty@.take(k as int)[j].label == p);
                    }
                }
                assert(next[k as int].label == ptr);
            }
            assert(done.union(this) =~= pointers_in(next));
        }
        k += 1;
    }
    assert(lty@.take(k as int) =~= lty@);
}

/// Fixes all pointers of a signature.
pub fn make_sig_fixed(gasn: &mut GlobalAssignment, lsig: &LFnSig)
    requires
        sig_fits(lsig@, old(gasn).flags@.len()),
    ensures
        fixes(*old(gasn), *final(gasn), sig_pointers(lsig@)),
{
    let ghost before = *gasn;
    let ghost inputs = lsig@.inputs;
    let mut i: usize = 0;
    proof {
        lemma_fix_none(before.flags@);
        assert(input_pointers(inputs, 0) =~= Set::empty());
    }
    while i < lsig.inputs.len()
        invariant
            i <= lsig.inputs@.len(),
            inputs == lsig@.inputs,
            sig_fits(lsig@, before.flags@.len()),
            fixes(before, *gasn, input_pointers(inputs, i as int)),
        decreases lsig.inputs@.len() - i,
    {
        let ghost done = input_pointers(inputs, i as int);
        assert(lty_fits(lsig@.inputs[i as int], before.flags@.len(), 0));
        make_ty_fixed(gasn, &lsig.inputs[i]);
        proof {
            let this = pointers_in(inputs[i as int]);
            law_fix_twice(before.flags@, done, this);
            assert forall|p: PointerId|
                done.union(this).contains(p) implies input_pointers(inputs, i + 1).contains(p) by {
                if done.contains(p) {
                    let j = choose|j: int| 0 <= j < i && #[trigger] mentions(inputs[j], p);
                    assert(mentions(inputs[j], p));
                } else {
                    assert(mentions(inputs[i as int], p));
                }
            }
            assert(done.union(this) =~= input_pointers(inputs, i + 1));
        }
        i += 1;
    }
    let ghost done = input_pointers(inputs, inputs.len() as int);
    make_ty_fixed(gasn, &lsig.output);
    proof {
        law_fix_twice(before.flags@, done, pointers_in(lsig@.output));
        assert(done.union(pointers_in(lsig@.output)) =~= sig_pointers(lsig@));
    }
}

spec fn input_pointers(inputs: Seq<Seq<LabeledNode<PointerId>>>, n: int) -> Set<PointerId> {
    Set::new(|p: PointerId| exists|j: int| 0 <= j < n && #[trigger] mentions(inputs[j], p))
}

/// Fixing pointers sets one bit for each of them, and changes no other bit of any pointer and no
/// permission.
pub proof fn law_fixing_sets_one_bit(
    before: GlobalAssignment,
    after: GlobalAssignment,
    ptrs: Set<PointerId>,
    i: usize,
)
    requires
        fixes(before, after, ptrs),
        i < before.flags@.len(),
    ensures
        after.perms@ == before.perms@,
        after.flags@.len() == before.flags@.len(),
        ptrs.contains(PointerId::Global(i)) ==> after.flags@[i as int].bits & FlagSet::FIXED != 0,
        ptrs.contains(PointerId::Global(i)) ==> after.flags@[i as int].bits & !FlagSet::FIXED
            == before.flags@[i as int].bits & !FlagSet::FIXED,
        !ptrs.contains(PointerId::Global(i)) ==> after.flags@[i as int] == before.flags@[i as int],
{
    law_fixed_bit(before.flags@[i as int]);
}

/// The pointers of a type or a signature are the labels that it mentions, and a single pointer
/// stands for itself. An absent label is no pointer.
pub proof fn law_pointer_sets(
    lty: Seq<LabeledNode<PointerId>>,
    sig: SigView,
    ptr: PointerId,
    p: PointerId,
)
    ensures
        pointers_in(lty).contains(p) <==> mentions(lty, p),
        sig_pointers(sig).contains(p) <==> sig_mentions(sig, p),
        ptr != PointerId::Absent ==> only(ptr).contains(ptr),
        p != ptr || p == PointerId::Absent ==> !only(ptr).contains(p),
{
}

/// Fixed pointers are kept exactly if there are as many pointers as before, and each of those with
/// the bit has it still.
pub proof fn law_fixed_kept(before: Seq<FlagSet>, after: Seq<FlagSet>)
    ensures
        fixed_kept(before, after) <==> {
            &&& after.len() == before.len()
            &&& forall|i: int|
                0 <= i < before.len() && (#[trigger] before[i]).bits & FlagSet::FIXED != 0
                    ==> after[i].bits & FlagSet::FIXED != 0
        },
{
    assert forall|i: int| #![trigger before[i]] 0 <= i < before.len() implies (before[i].has(
        FlagSet::FIXED,
    ) <==> before[i].bits & FlagSet::FIXED != 0) && (after[i].has(FlagSet::FIXED)
        <==> after[i].bits & FlagSet::FIXED != 0) by {
        law_fixed_bit(before[i]);
        law_fixed_bit(after[i]);
    }
}

} // verus!
