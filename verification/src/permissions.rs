//! The first assignment of permissions, and how permissions change after it.
use crate::assignment::{GlobalAssignment, LocalAssignment};
use crate::context::{lty_fits, sig_fits, AnalysisCtxtData, GlobalAnalysisCtxt};
use crate::def_id::{lemma_next_key, DefId, DefIdSet};
use crate::flags::{
    change_between, is_kept_ref, law_fixed_bit, permission_change, should_make_fixed, FlagSet,
    PermissionChange, PermissionSet, PointerInfo,
};
use crate::pointer_id::{is_label, GlobalPointerTable, LocalPointerTable, PointerId};
use crate::ty::{mentions, sig_mentions, LFnSig, LTy};
use vstd::prelude::*;

verus! {

/// Permissions that are known beforehand, for a pointer of a function that is not analyzed.
#[derive(Clone, Copy, Debug, PartialEq, Eq, Structural)]
pub struct KnownPerms {
    pub ptr: PointerId,
    pub perms: PermissionSet,
}

/// The permissions that every pointer starts with.
pub open spec fn first_perms() -> PermissionSet {
    PermissionSet { bits: PermissionSet::UNIQUE }
}

/// The flags that a pointer starts with.
pub open spec fn first_flags(info: PointerInfo) -> FlagSet {
    if is_kept_ref(info) {
        FlagSet { bits: 0 }.with(FlagSet::FIXED)
    } else {
        FlagSet { bits: 0 }
    }
}

/// The flags that pointers with these `infos` start with.
fn flags_of(infos: &Vec<PointerInfo>) -> (r: Vec<FlagSet>)
    ensures
        r@ == Seq::new(infos@.len(), |i: int| first_flags(infos@[i])),
{
    let mut all: Vec<FlagSet> = Vec::new();
    let mut i: usize = 0;
    while i < infos.len()
        invariant
            i <= infos@.len(),
            all@ == Seq::new(i as nat, |i: int| first_flags(infos@[i])),
        decreases infos@.len() - i,
    {
        let mut flags = FlagSet::empty();
        if should_make_fixed(infos[i]) {
            flags.insert(FlagSet::FIXED);
        }
        all.push(flags);
        i += 1;
    }
    all
}

/// The assignment to begin with, for the global pointers: every pointer is unique, and the
/// references that are kept are fixed.
pub fn initial_global(gacx: &GlobalAnalysisCtxt) -> (r: GlobalAssignment)
    ensures
        r.wf(gacx.ptr_info@.len()),
        r.perms@ == Seq::new(gacx.ptr_info@.len(), |i: int| first_perms()),
        r.flags@ == Seq::new(gacx.ptr_info@.len(), |i: int| first_flags(gacx.ptr_info@[i])),
{
    let unique = PermissionSet { bits: PermissionSet::UNIQUE };
    GlobalAssignment {
        perms: GlobalPointerTable::filled(gacx.ptr_info.values.len(), unique),
        flags: GlobalPointerTable { values: flags_of(&gacx.ptr_info.values) },
    }
}

/// The assignment to begin with, for the local pointers of one function.
pub fn initial_local(acx: &AnalysisCtxtData) -> (r: LocalAssignment)
    ensures
        r.wf(acx.ptr_info@.len()),
        r.perms@ == Seq::new(acx.ptr_info@.len(), |i: int| first_perms()),
        r.flags@ == Seq::new(acx.ptr_info@.len(), |i: int| first_flags(acx.ptr_info@[i])),
{
    let unique = PermissionSet { bits: PermissionSet::UNIQUE };
    LocalAssignment {
        perms: LocalPointerTable::filled(acx.ptr_info.values.len(), unique),
        flags: LocalPointerTable { values: flags_of(&acx.ptr_info.values) },
    }
}

/// `perms` with the known permissions put in, one after the other.
pub open spec fn with_known(perms: Seq<PermissionSet>, known: Seq<KnownPerms>) -> Seq<PermissionSet>
    decreases known.len(),
{
    if known.len() == 0 {
        perms
    } else {
        let k = known.last();
        with_known(perms, known.drop_last()).update(k.ptr->Global_0 as int, k.perms)
    }
}

/// All known permissions are of global pointers of a program with `n` of them.
pub open spec fn known_within(n: nat, known: Seq<KnownPerms>) -> bool {
    forall|i: int|
        0 <= i < known.len() ==> (#[trigger] known[i]).ptr is Global && known[i].ptr->Global_0 < n
}

/// Known permissions only ever replace the permissions that a pointer started with.
pub open spec fn known_fits(perms: Seq<PermissionSet>, known: Seq<KnownPerms>) -> bool {
    &&& known_within(perms.len(), known)
    &&& forall|i: int|
        0 <= i < known.len() ==> with_known(
            perms,
            #[trigger] known.take(i),
        )[known[i].ptr->Global_0 as int].without(PermissionSet::UNIQUE).bits == 0
}

/// Puts in the permissions that are known beforehand.
pub fn set_known_perms(gasn: &mut GlobalAssignment, known: &Vec<KnownPerms>)
    requires
        known_fits(old(gasn).perms@, known@),
    ensures
        final(gasn).perms@ == with_known(old(gasn).perms@, known@),
        final(gasn).flags == old(gasn).flags,
{
    let ghost perms0 = gasn.perms@;
    let mut i: usize = 0;
    while i < known.len()
        invariant
            i <= known@.len(),
            known_within(perms0.len(), known@),
            gasn.perms@ == with_known(perms0, known@.take(i as int)),
            gasn.perms@.len() == perms0.len(),
            gasn.flags == old(gasn).flags,
        decreases known@.len() - i,
    {
        let k = known[i];
        assert(known@.take(i + 1).drop_last() =~= known@.take(i as int));
        if let PointerId::Global(p) = k.ptr {
            gasn.perms.values.set(p, k.perms);
        }
        i += 1;
    }
    assert(known@.take(i as int) =~= known@);
}

/// Whether the known permissions can be put in: no pointer has other permissions yet than those
/// that it started with.
pub fn can_set_known(gasn: &GlobalAssignment, known: &Vec<KnownPerms>) -> (r: bool)
    ensures
        r == known_fits(gasn.perms@, known@),
{
    let ghost perms0 = gasn.perms@;
    let mut now = gasn.duplicate();
    let mut i: usize = 0;
    while i < known.len()
        invariant
            i <= known@.len(),
            perms0 == gasn.perms@,
            known_within(perms0.len(), known@.take(i as int)),
            forall|k: int|
                0 <= k < i ==> with_known(
                    perms0,
                    #[trigger] known@.take(k),
                )[known@[k].ptr->Global_0 as int].without(PermissionSet::UNIQUE).bits == 0,
            now.perms@ == with_known(perms0, known@.take(i as int)),
            now.perms@.len() == perms0.len(),
        decreases known@.len() - i,
    {
        let k = known[i];
        proof {
            assert(known@.take(i + 1).drop_last() =~= known@.take(i as int));
            assert forall|j: int| 0 <= j < i implies known@[j].ptr is Global && (
            #[trigger] known@[j]).ptr->Global_0 < perms0.len() by {
                assert(known@.take(i as int)[j] == known@[j]);
            }
        }
        match k.ptr {
            PointerId::Global(p) => {
                if p >= now.perms.values.len() {
                    assert(!known_within(perms0.len(), known@)) by {
                        assert(known@[i as int].ptr is Global);
                    }
                    return false;
                }
                let mut existing = now.perms.values[p];
                existing.remove(PermissionSet::UNIQUE);
                if existing.bits != 0 {
                    assert(known@.take(i as int) == known@.take(i as int));
                    return false;
                }
                now.perms.values.set(p, k.perms);
            },
            _ => {
                assert(!known_within(perms0.len(), known@)) by {
                    assert(!(known@[i as int].ptr is Global));
                }
                return false;
            },
        }
        i += 1;
    }
    proof {
        assert(known@.take(i as int) =~= known@);
    }
    true
}

/// Putting in known permissions keeps the number of pointers.
pub proof fn lemma_known_len(perms: Seq<PermissionSet>, known: Seq<KnownPerms>)
    requires
        known_within(perms.len(), known),
    ensures
        with_known(perms, known).len() == perms.len(),
    decreases known.len(),
{
    if known.len() > 0 {
        lemma_known_len(perms, known.drop_last());
    }
}

/// Whether `known[i]` is the last of the known permissions of the global pointer `p`.
pub open spec fn is_last_known(known: Seq<KnownPerms>, p: usize, i: int) -> bool {
    &&& 0 <= i < known.len()
    &&& known[i].ptr == PointerId::Global(p)
    &&& forall|j: int| i < j < known.len() ==> (#[trigger] known[j]).ptr != PointerId::Global(p)
}

/// After the known permissions were put in, a pointer has those that were known of it last.
pub proof fn law_last_known_counts(
    perms: Seq<PermissionSet>,
    known: Seq<KnownPerms>,
    p: usize,
    i: int,
)
    requires
        p < perms.len(),
        known_within(perms.len(), known),
        is_last_known(known, p, i),
    ensures
        with_known(perms, known)[p as int] == known[i].perms,
    decreases known.len(),
{
    let before = known.drop_last();
    let last = known.len() - 1;
    assert forall|j: int| 0 <= j < before.len() implies (#[trigger] before[j]).ptr is Global
        && before[j].ptr->Global_0 < perms.len() by {
        assert(known[j].ptr is Global);
    }
    lemma_known_len(perms, before);
    assert(known[last] == known.last());
    if i < last {
        assert(known[last].ptr != PointerId::Global(p));
        assert forall|j: int| i < j < before.len() implies (#[trigger] before[j]).ptr
            != PointerId::Global(p) by {
            assert(known[j].ptr != PointerId::Global(p));
        }
        assert(is_last_known(before, p, i));
        law_last_known_counts(perms, before, p, i);
    }
}

/// A pointer of which nothing is known has what it had.
pub proof fn law_unknown_stays(perms: Seq<PermissionSet>, known: Seq<KnownPerms>, p: usize)
    requires
        p < perms.len(),
        known_within(perms.len(), known),
        forall|i: int| 0 <= i < known.len() ==> (#[trigger] known[i]).ptr != PointerId::Global(p),
    ensures
        with_known(perms, known)[p as int] == perms[p as int],
    decreases known.len(),
{
    if known.len() > 0 {
        let before = known.drop_last();
        assert(known[known.len() - 1] == known.last());
        assert forall|j: int| 0 <= j < before.len() implies (#[trigger] before[j]).ptr is Global
            && before[j].ptr->Global_0 < perms.len() && before[j].ptr != PointerId::Global(p) by {
            assert(known[j].ptr is Global);
        }
        lemma_known_len(perms, before);
        law_unknown_stays(perms, before, p);
    }
}

/// A global pointer whose permissions changed, and how.
#[derive(Clone, Copy, Debug, PartialEq, Eq, Structural)]
pub struct ChangedPointer {
    pub ptr: PointerId,
    pub change: PermissionChange,
}

/// The global pointers whose permissions differ, in order.
pub open spec fn changed_between(before: Seq<PermissionSet>, after: Seq<PermissionSet>) -> Seq<
    ChangedPointer,
>
    decreases before.len(),
{
    if before.len() == 0 {
        Seq::empty()
    } else {
        let n = before.len() - 1;
        let earlier = changed_between(before.take(n), after.take(n));
        if before[n] == after[n] {
            earlier
        } else {
            earlier.push(
                ChangedPointer {
                    ptr: PointerId::Global(n as usize),
                    change: change_between(before[n], after[n]),
                },
            )
        }
    }
}

/// The global pointers whose permissions differ between two assignments.
pub fn changed_pointers(before: &GlobalAssignment, after: &GlobalAssignment) -> (r: Vec<
    ChangedPointer,
>)
    requires
        before.perms@.len() == after.perms@.len(),
    ensures
        r@ == changed_between(before.perms@, after.perms@),
{
    let ghost b = before.perms@;
    let ghost a = after.perms@;
    let mut changed: Vec<ChangedPointer> = Vec::new();
    let mut i: usize = 0;
    while i < before.perms.values.len()
        invariant
            i <= b.len(),
            b == before.perms@,
            a == after.perms@,
            a.len() == b.len(),
            changed@ == changed_between(b.take(i as int), a.take(i as int)),
        decreases b.len() - i,
    {
        let old_perms = before.perms.values[i];
        let new_perms = after.perms.values[i];
        proof {
            assert(b.take(i + 1).take(i as int) =~= b.take(i as int));
            assert(a.take(i + 1).take(i as int) =~= a.take(i as int));
        }
        if old_perms != new_perms {
            changed.push(
                ChangedPointer {
                    ptr: PointerId::Global(i),
                    change: permission_change(old_perms, new_perms),
                },
            );
        }
        i += 1;
    }
    proof {
        assert(b.take(i as int) =~= b);
        assert(a.take(i as int) =~= a);
    }
    changed
}

/// Nothing is reported as changed exactly if the permissions are the same.
pub proof fn law_no_change(before: Seq<PermissionSet>, after: Seq<PermissionSet>)
    requires
        before.len() == after.len(),
    ensures
        changed_between(before, after).len() == 0 <==> before == after,
    decreases before.len(),
{
    if before.len() > 0 {
        let n = before.len() - 1;
        law_no_change(before.take(n), after.take(n));
        if before.take(n) == after.take(n) && before[n] == after[n] {
            assert forall|i: int| 0 <= i < before.len() implies before[i] == after[i] by {
                if i < n {
                    assert(before.take(n)[i] == after.take(n)[i]);
                }
            }
            assert(before =~= after);
        }
    } else {
        assert(before =~= after);
    }
}

impl GlobalAssignment {
    /// A copy of the assignment.
    pub fn duplicate(&self) -> (r: GlobalAssignment)
        ensures
            r.perms@ == self.perms@,
            r.flags@ == self.flags@,
    {
        let mut perms: Vec<PermissionSet> = Vec::new();
        let mut i: usize = 0;
        while i < self.perms.values.len()
            invariant
                i <= self.perms@.len(),
                perms@ == self.perms@.take(i as int),
            decreases self.perms@.len() - i,
        {
            perms.push(self.perms.values[i]);
            i += 1;
            assert(self.perms@.take(i as int) =~= self.perms@.take(i - 1).push(
                self.perms@[i - 1],
            ));
        }
        let mut flags: Vec<FlagSet> = Vec::new();
        let mut j: usize = 0;
        while j < self.flags.values.len()
            invariant
                j <= self.flags@.len(),
                flags@ == self.flags@.take(j as int),
            decreases self.flags@.len() - j,
        {
            flags.push(self.flags.values[j]);
            j += 1;
            assert(self.flags@.take(j as int) =~= self.flags@.take(j - 1).push(
                self.flags@[j - 1],
            ));
        }
        assert(perms@ =~= self.perms@);
        assert(flags@ =~= self.flags@);
        GlobalAssignment {
            perms: GlobalPointerTable { values: perms },
            flags: GlobalPointerTable { values: flags },
        }
    }

    /// Whether the two assignments give all pointers the same permissions and flags.
    pub fn same(&self, other: &GlobalAssignment) -> (r: bool)
        ensures
            r == (self.perms@ == other.perms@ && self.flags@ == other.flags@),
    {
        if self.perms.values.len() != other.perms.values.len() || self.flags.values.len()
            != other.flags.values.len() {
            return false;
        }
        let mut i: usize = 0;
        while i < self.perms.values.len()
            invariant
                i <= self.perms@.len(),
                self.perms@.len() == other.perms@.len(),
                forall|k: int| 0 <= k < i ==> self.perms@[k] == other.perms@[k],
            decreases self.perms@.len() - i,
        {
            if self.perms.values[i] != other.perms.values[i] {
                return false;
            }
            i += 1;
        }
        let mut j: usize = 0;
        while j < self.flags.values.len()
            invariant
                j <= self.flags@.len(),
                self.flags@.len() == other.flags@.len(),
                forall|k: int| 0 <= k < j ==> self.flags@[k] == other.flags@[k],
            decreases self.flags@.len() - j,
        {
            if self.flags.values[j] != other.flags.values[j] {
                return false;
            }
            j += 1;
        }
        assert(self.perms@ =~= other.perms@);
        assert(self.flags@ =~= other.flags@);
        true
    }
}

/// Known permissions that the analysis did not keep.
#[derive(Clone, Copy, Debug, PartialEq, Eq, Structural)]
pub struct KnownPermError {
    pub ptr: PointerId,
    pub known: PermissionSet,
    pub found: PermissionSet,
}

/// The known permissions that differ from `perms`, in order.
pub open spec fn perm_errors(perms: Seq<PermissionSet>, known: Seq<KnownPerms>) -> Seq<
    KnownPermError,
>
    decreases known.len(),
{
    if known.len() == 0 {
        Seq::empty()
    } else {
        let k = known.last();
        let found = perms[k.ptr->Global_0 as int];
        let earlier = perm_errors(perms, known.drop_last());
        if found == k.perms {
            earlier
        } else {
            earlier.push(KnownPermError { ptr: k.ptr, known: k.perms, found })
        }
    }
}

/// Finds the known permissions that changed.
pub fn known_perm_errors(gasn: &GlobalAssignment, known: &Vec<KnownPerms>) -> (r: Vec<
    KnownPermError,
>)
    requires
        known_within(gasn.perms@.len(), known@),
    ensures
        r@ == perm_errors(gasn.perms@, known@),
{
    let mut errors: Vec<KnownPermError> = Vec::new();
    let mut i: usize = 0;
    while i < known.len()
        invariant
            i <= known@.len(),
            known_within(gasn.perms@.len(), known@),
            errors@ == perm_errors(gasn.perms@, known@.take(i as int)),
        decreases known@.len() - i,
    {
        let k = known[i];
        assert(known@.take(i + 1).drop_last() =~= known@.take(i as int));
        if let PointerId::Global(p) = k.ptr {
            let found = gasn.perms.values[p];
            if found != k.perms {
                errors.push(KnownPermError { ptr: k.ptr, known: k.perms, found });
            }
        }
        i += 1;
    }
    assert(known@.take(i as int) =~= known@);
    errors
}

/// Where no pointer is listed twice, putting in the known permissions leaves nothing to complain
/// about.
pub proof fn law_known_perms_are_kept(perms: Seq<PermissionSet>, known: Seq<KnownPerms>)
    requires
        known_within(perms.len(), known),
        forall|i: int, j: int|
            0 <= i < j < known.len() ==> (#[trigger] known[i]).ptr != (#[trigger] known[j]).ptr,
    ensures
        perm_errors(with_known(perms, known), known).len() == 0,
{
    lemma_known_len(perms, known);
    let after = with_known(perms, known);
    assert forall|i: int| 0 <= i < known.len() implies after[(#[trigger] known[i]).ptr->Global_0 as int]
        == known[i].perms by {
        law_last_known_counts(perms, known, known[i].ptr->Global_0, i);
    }
    lemma_no_errors(after, known);
}

proof fn lemma_no_errors(perms: Seq<PermissionSet>, known: Seq<KnownPerms>)
    requires
        forall|i: int|
            0 <= i < known.len() ==> perms[(#[trigger] known[i]).ptr->Global_0 as int]
                == known[i].perms,
    ensures
        perm_errors(perms, known).len() == 0,
    decreases known.len(),
{
    if known.len() > 0 {
        let before = known.drop_last();
        assert forall|i: int| 0 <= i < before.len() implies perms[(#[trigger] before[i]).ptr->Global_0 as int]
            == before[i].perms by {
            assert(before[i] == known[i]);
        }
        lemma_no_errors(perms, before);
        assert(known[known.len() - 1] == known.last());
    }
}

/// Whether one of the errors is about `ptr`.
pub open spec fn is_error_ptr(errors: Seq<KnownPermError>, ptr: PointerId) -> bool {
    exists|i: int| 0 <= i < errors.len() && (#[trigger] errors[i]).ptr == ptr
}

/// Whether one of the errors is about a pointer of the signature of the foreign function `did`.
pub open spec fn is_error_fn(
    sigs: Map<DefId, LFnSig>,
    foreign: Set<DefId>,
    errors: Seq<KnownPermError>,
    did: DefId,
) -> bool {
    &&& foreign.contains(did)
    &&& sigs.contains_key(did)
    &&& exists|p: PointerId| #[trigger] sig_mentions(sigs[did]@, p) && is_error_ptr(errors, p)
}

/// Whether `ptr` is flagged in the table.
fn is_flagged(table: &Vec<bool>, ptr: PointerId, Ghost(errors): Ghost<Seq<KnownPermError>>) -> (r:
    bool)
    requires
        table_of(table@, errors),
        forall|i: int| 0 <= i < errors.len() ==> (#[trigger] errors[i]).ptr is Global,
        ptr is Global ==> ptr->Global_0 < table@.len(),
    ensures
        r == is_error_ptr(errors, ptr),
{
    match ptr {
        PointerId::Global(i) => table[i],
        _ => false,
    }
}

spec fn table_of(table: Seq<bool>, errors: Seq<KnownPermError>) -> bool {
    forall|i: int|
        0 <= i < table.len() ==> #[trigger] table[i] == is_error_ptr(
            errors,
            PointerId::Global(i as usize),
        )
}

/// Whether one of the errors is about a pointer of the type.
fn lty_has_error(
    table: &Vec<bool>,
    lty: &LTy,
    Ghost(errors): Ghost<Seq<KnownPermError>>,
) -> (r: bool)
    requires
        table_of(table@, errors),
        forall|i: int| 0 <= i < errors.len() ==> (#[trigger] errors[i]).ptr is Global,
        lty_fits(lty@, table@.len(), 0),
    ensures
        r == exists|p: PointerId| #[trigger] mentions(lty@, p) && is_error_ptr(errors, p),
{
    let mut k: usize = 0;
    while k < lty.nodes.len()
        invariant
            k <= lty@.len(),
            table_of(table@, errors),
            forall|i: int| 0 <= i < errors.len() ==> (#[trigger] errors[i]).ptr is Global,
            lty_fits(lty@, table@.len(), 0),
            forall|j: int| 0 <= j < k ==> !is_error_ptr(errors, (#[trigger] lty@[j]).label),
        decreases lty@.len() - k,
    {
        let ptr = lty.nodes[k].label;
        assert(is_label(table@.len(), 0, lty@[k as int].label));
        if is_flagged(table, ptr, Ghost(errors)) {
            assert(mentions(lty@, ptr));
            return true;
        }
        k += 1;
    }
    assert forall|p: PointerId| #[trigger] mentions(lty@, p) implies !is_error_ptr(errors, p) by {
        let j = choose|j: int| 0 <= j < lty@.len() && #[trigger] lty@[j].label == p;
        assert(!is_error_ptr(errors, lty@[j].label));
    }
    false
}

/// Whether one of the errors is about a pointer of the signature.
fn sig_has_error(
    table: &Vec<bool>,
    lsig: &LFnSig,
    Ghost(errors): Ghost<Seq<KnownPermError>>,
) -> (r: bool)
    requires
        table_of(table@, errors),
        forall|i: int| 0 <= i < errors.len() ==> (#[trigger] errors[i]).ptr is Global,
        sig_fits(lsig@, table@.len()),
    ensures
        r == exists|p: PointerId| #[trigger] sig_mentions(lsig@, p) && is_error_ptr(errors, p),
{
    let mut i: usize = 0;
    while i < lsig.inputs.len()
        invariant
            i <= lsig.inputs@.len(),
            table_of(table@, errors),
            forall|i: int| 0 <= i < errors.len() ==> (#[trigger] errors[i]).ptr is Global,
            sig_fits(lsig@, table@.len()),
            forall|j: int, p: PointerId|
                0 <= j < i && #[trigger] mentions(lsig@.inputs[j], p) ==> !is_error_ptr(errors, p),
        decreases lsig.inputs@.len() - i,
    {
        assert(lty_fits(lsig@.inputs[i as int], table@.len(), 0));
        if lty_has_error(table, &lsig.inputs[i], Ghost(errors)) {
            proof {
                let p = choose|p: PointerId| #[trigger]
                    mentions(lsig.inputs@[i as int]@, p) && is_error_ptr(errors, p);
                assert(mentions(lsig@.inputs[i as int], p));
                assert(sig_mentions(lsig@, p));
            }
            return true;
        }
        i += 1;
    }
    let r = lty_has_error(table, &lsig.output, Ghost(errors));
    proof {
        if r {
            let p = choose|p: PointerId| #[trigger]
                mentions(lsig.output@, p) && is_error_ptr(errors, p);
            assert(sig_mentions(lsig@, p));
        }
    }
    r
}

/// The foreign functions with a pointer in their signature whose known permissions changed.
pub fn known_perm_error_fns(
    gacx: &GlobalAnalysisCtxt,
    foreign: &DefIdSet,
    errors: &Vec<KnownPermError>,
) -> (r: Vec<DefId>)
    requires
        gacx.wf(),
        forall|i: int|
            0 <= i < errors@.len() ==> (#[trigger] errors@[i]).ptr is Global
                && errors@[i].ptr->Global_0 < gacx.ptr_info@.len(),
    ensures
        r@.no_duplicates(),
        forall|d: DefId| #[trigger]
            r@.contains(d) <==> is_error_fn(gacx.fn_sigs@, foreign@, errors@, d),
{
    let mut table: Vec<bool> = Vec::new();
    let mut i: usize = 0;
    let n_ptrs = gacx.ptr_info.values.len();
    while i < n_ptrs
        invariant
            i <= n_ptrs,
            table@.len() == i,
            forall|k: int| 0 <= k < i ==> !table@[k],
        decreases n_ptrs - i,
    {
        table.push(false);
        i += 1;
    }
    let mut e: usize = 0;
    while e < errors.len()
        invariant
            e <= errors@.len(),
            table@.len() == gacx.ptr_info@.len(),
            forall|i: int|
                0 <= i < errors@.len() ==> (#[trigger] errors@[i]).ptr is Global
                    && errors@[i].ptr->Global_0 < gacx.ptr_info@.len(),
            table_of(table@, errors@.take(e as int)),
        decreases errors@.len() - e,
    {
        let ghost before = table@;
        if let PointerId::Global(p) = errors[e].ptr {
            table.set(p, true);
        }
        proof {
            let seen = errors@.take(e as int);
            let now = errors@.take(e + 1);
            assert(table.len() == table@.len());
            assert forall|i: int| 0 <= i < table@.len() implies #[trigger] table@[i]
                == is_error_ptr(now, PointerId::Global(i as usize)) by {
                let ptr = PointerId::Global(i as usize);
                assert(before[i] == is_error_ptr(seen, ptr));
                if is_error_ptr(seen, ptr) {
                    let j = choose|j: int| 0 <= j < seen.len() && (#[trigger] seen[j]).ptr == ptr;
                    assert(now[j].ptr == ptr);
                }
                if is_error_ptr(now, ptr) {
                    let j = choose|j: int| 0 <= j < now.len() && (#[trigger] now[j]).ptr == ptr;
                    if j < e {
                        assert(seen[j].ptr == ptr);
                    }
                }
                assert(now[e as int] == errors@[e as int]);
            }
        }
        e += 1;
    }
    assert(errors@.take(e as int) =~= errors@);

    let mut fns: Vec<DefId> = Vec::new();
    let n = gacx.fn_sigs.len();
    let ghost keys = gacx.fn_sigs.keys();
    let mut k: usize = 0;
    while k < n
        invariant
            k <= n,
            n == keys.len(),
            keys == gacx.fn_sigs.keys(),
            keys.no_duplicates(),
            gacx.wf(),
            table@.len() == gacx.ptr_info@.len(),
            table_of(table@, errors@),
            forall|i: int| 0 <= i < errors@.len() ==> (#[trigger] errors@[i]).ptr is Global,
            fns@.no_duplicates(),
            forall|d: DefId| #[trigger]
                fns@.contains(d) <==> keys.take(k as int).contains(d) && is_error_fn(
                    gacx.fn_sigs@,
                    foreign@,
                    errors@,
                    d,
                ),
        decreases n - k,
    {
        let ghost fns0 = fns@;
        let (did, lsig) = gacx.fn_sigs.entry(k);
        proof {
            lemma_next_key(keys, k as int);
        }
        if foreign.contains(did) && sig_has_error(&table, lsig, Ghost(errors@)) {
            fns.push(did);
            proof {
                assert(is_error_fn(gacx.fn_sigs@, foreign@, errors@, did));
                assert(!fns0.contains(did));
                assert forall|d: DefId| #[trigger] fns@.contains(d) <==> fns0.contains(d) || d
                    == did by {
                    if fns0.contains(d) {
                        let j = choose|j: int| 0 <= j < fns0.len() && fns0[j] == d;
                        assert(fns@[j] == d);
                    }
                    assert(fns@[fns0.len() as int] == did);
                }
                assert(fns@.no_duplicates());
            }
        } else {
            assert(!is_error_fn(gacx.fn_sigs@, foreign@, errors@, did));
        }
        k += 1;
    }
    assert(keys.take(n as int) =~= keys);
    fns
}

/// What a pointer is turned into.
#[derive(Clone, Copy, Debug, PartialEq, Eq, Structural)]
pub enum Ownership {
    /// `*const T`
    Raw,
    /// `*mut T`
    RawMut,
    /// `&T`
    Imm,
    /// `&Cell<T>`
    Cell,
    /// `&mut T`
    Mut,
    /// `Rc<T>`
    Rc,
    /// `Box<T>`
    Box,
}

impl Ownership {
    /// The kinds of ownership that borrow.
    pub open spec fn borrows(self) -> bool {
        self is Imm || self is Cell || self is Mut
    }

    /// Whether the pointer becomes a reference.
    pub fn is_reference(self) -> (r: bool)
        ensures
            r == self.borrows(),
    {
        match self {
            Ownership::Imm | Ownership::Cell | Ownership::Mut => true,
            Ownership::Raw | Ownership::RawMut | Ownership::Rc | Ownership::Box => false,
        }
    }
}

/// What a pointer's type may be turned into depends on its permissions and flags. There are none
/// to go by at a label that is no pointer, or one that is fixed.
pub open spec fn changeable(gasn: GlobalAssignment, ptr: PointerId) -> Option<
    (PermissionSet, FlagSet),
> {
    match ptr {
        PointerId::Global(i) if !gasn.flags@[i as int].has(FlagSet::FIXED) => Some(
            (gasn.perms@[i as int], gasn.flags@[i as int]),
        ),
        _ => None,
    }
}

/// The permissions and flags to go by when the type at the label `ptr` may be changed.
pub fn region_candidate(gasn: &GlobalAssignment, ptr: PointerId) -> (r: Option<
    (PermissionSet, FlagSet),
>)
    requires
        is_label(gasn.flags@.len(), 0, ptr),
        gasn.perms@.len() == gasn.flags@.len(),
    ensures
        r == changeable(*gasn, ptr),
        ptr matches PointerId::Global(i) ==> r == if gasn.flags@[i as int].bits & FlagSet::FIXED
            == 0 {
            Some((gasn.perms@[i as int], gasn.flags@[i as int]))
        } else {
            None
        },
        !(ptr is Global) ==> r is None,
{
    match ptr {
        PointerId::Global(i) => {
            let flags = gasn.flags.values[i];
            proof {
                law_fixed_bit(flags);
            }
            if flags.contains(FlagSet::FIXED) {
                None
            } else {
                Some((gasn.perms.values[i], flags))
            }
        },
        _ => None,
    }
}

/// Whether the type at the label `ptr` gets a region: it may be changed, and `ownership_of` makes
/// a reference of it.
pub fn gets_region<F: Fn(PermissionSet, FlagSet) -> Ownership>(
    gasn: &GlobalAssignment,
    ptr: PointerId,
    ownership_of: &F,
) -> (r: bool)
    requires
        is_label(gasn.flags@.len(), 0, ptr),
        gasn.perms@.len() == gasn.flags@.len(),
        forall|perms: PermissionSet, flags: FlagSet| call_requires(ownership_of, (perms, flags)),
    ensures
        match changeable(*gasn, ptr) {
            None => !r,
            Some((perms, flags)) => exists|own: Ownership| #[trigger]
                call_ensures(ownership_of, (perms, flags), own) && r == own.borrows(),
        },
        ptr matches PointerId::Global(i) ==> (gasn.flags@[i as int].bits & FlagSet::FIXED == 0
            ==> exists|own: Ownership| #[trigger]
            call_ensures(ownership_of, (gasn.perms@[i as int], gasn.flags@[i as int]), own) && r == (
            own is Imm || own is Cell || own is Mut)),
        ptr matches PointerId::Global(i) ==> (gasn.flags@[i as int].bits & FlagSet::FIXED != 0
            ==> !r),
        !(ptr is Global) ==> !r,
{
    match region_candidate(gasn, ptr) {
        None => false,
        Some((perms, flags)) => {
            let own = ownership_of(perms, flags);
            assert(call_ensures(ownership_of, (perms, flags), own));
            own.is_reference()
        },
    }
}

/// Whether a global pointer may be changed depends on the flag `FIXED` alone: without it, whatever
/// its permissions, it may, and all of its permissions and flags are gone by. With it, and where
/// there is no global pointer, nothing may be changed.
pub proof fn law_only_fixed_pointers_stay(gasn: GlobalAssignment, ptr: PointerId, p: usize)
    ensures
        ptr == PointerId::Global(p) && gasn.flags@[p as int].bits & FlagSet::FIXED == 0
            ==> changeable(gasn, ptr) == Some((gasn.perms@[p as int], gasn.flags@[p as int])),
        ptr == PointerId::Global(p) && gasn.flags@[p as int].bits & FlagSet::FIXED != 0
            ==> changeable(gasn, ptr) is None,
        !(ptr is Global) ==> changeable(gasn, ptr) is None,
{
    law_fixed_bit(gasn.flags@[p as int]);
}

/// The references, and only they, borrow.
pub proof fn law_borrowing_kinds(own: Ownership)
    ensures
        own.borrows() <==> own == Ownership::Imm || own == Ownership::Cell || own == Ownership::Mut,
        own.borrows() <==> own != Ownership::Raw && own != Ownership::RawMut && own
            != Ownership::Rc && own != Ownership::Box,
{
}

/// To begin with a pointer has the permission to be unique and no other, and it is fixed exactly if
/// it is a reference that is kept.
pub proof fn law_first_assignment(info: PointerInfo)
    ensures
        first_perms().bits == PermissionSet::UNIQUE,
        is_kept_ref(info) ==> first_flags(info).bits == FlagSet::FIXED,
        !is_kept_ref(info) ==> first_flags(info).bits == 0,
{
    assert(0u16 | 0x2u16 == 0x2u16) by (bit_vector);
}

/// Known permissions can be put in exactly if they are of global pointers of the program, and none
/// of these has, when its turn comes, any permission but to be unique.
pub proof fn law_known_permissions_fit(perms: Seq<PermissionSet>, known: Seq<KnownPerms>)
    ensures
        known_fits(perms, known) <==> {
            &&& forall|i: int|
                0 <= i < known.len() ==> ((#[trigger] known[i]).ptr matches PointerId::Global(p)
                    && p < perms.len())
            &&& forall|i: int|
                0 <= i < known.len() ==> with_known(
                    perms,
                    #[trigger] known.take(i),
                )[known[i].ptr->Global_0 as int].bits & !PermissionSet::UNIQUE == 0
        },
{
}

/// A pointer is reported exactly if its permissions differ, with how they differ, and the pointers
/// are in order.
pub proof fn law_changed_pointers(before: Seq<PermissionSet>, after: Seq<PermissionSet>)
    requires
        before.len() == after.len(),
        before.len() <= usize::MAX,
    ensures
        ({
            let r = changed_between(before, after);
            &&& forall|k: int|
                0 <= k < r.len() ==> ((#[trigger] r[k]).ptr matches PointerId::Global(p) && p
                    < before.len() && before[p as int] != after[p as int] && r[k].change
                    == change_between(before[p as int], after[p as int]))
            &&& forall|i: int|
                0 <= i < before.len() && before[i] != #[trigger] after[i] ==> exists|k: int|
                    0 <= k < r.len() && (#[trigger] r[k]).ptr == PointerId::Global(i as usize)
            &&& forall|j: int, k: int|
                0 <= j < k < r.len() ==> (#[trigger] r[j]).ptr->Global_0 < (
                #[trigger] r[k]).ptr->Global_0
        }),
    decreases before.len(),
{
    if before.len() > 0 {
        let n = before.len() - 1;
        let b = before.take(n);
        let a = after.take(n);
        law_changed_pointers(b, a);
        let earlier = changed_between(b, a);
        let r = changed_between(before, after);
        assert forall|k: int| 0 <= k < earlier.len() implies (#[trigger] r[k]) == earlier[k] by {}
        assert forall|i: int|
            0 <= i < before.len() && before[i] != #[trigger] after[i] implies exists|k: int|
            0 <= k < r.len() && (#[trigger] r[k]).ptr == PointerId::Global(i as usize) by {
            if i < n {
                assert(b[i] != a[i]);
                let k = choose|k: int|
                    0 <= k < earlier.len() && (#[trigger] earlier[k]).ptr == PointerId::Global(
                        i as usize,
                    );
                assert(r[k].ptr == PointerId::Global(i as usize));
            } else {
                assert(r[r.len() - 1].ptr == PointerId::Global(i as usize));
            }
        }
        assert forall|k: int| 0 <= k < r.len() implies ((#[trigger] r[k]).ptr matches PointerId::Global(
            p,
        ) && p < before.len() && before[p as int] != after[p as int] && r[k].change
            == change_between(before[p as int], after[p as int])) by {
            if k < earlier.len() {
                let p = earlier[k].ptr->Global_0;
                assert(b[p as int] == before[p as int]);
                assert(a[p as int] == after[p as int]);
            }
        }
    }
}

/// The known permissions that were not kept are those of a first part and then those of a second.
/// A single one is reported exactly if the pointer has other permissions, with both.
pub proof fn law_permission_errors(
    perms: Seq<PermissionSet>,
    a: Seq<KnownPerms>,
    b: Seq<KnownPerms>,
    ptr: usize,
    known: PermissionSet,
)
    ensures
        perm_errors(perms, a + b) == perm_errors(perms, a) + perm_errors(perms, b),
        perms[ptr as int] == known ==> perm_errors(
            perms,
            seq![KnownPerms { ptr: PointerId::Global(ptr), perms: known }],
        ).len() == 0,
        perms[ptr as int] != known ==> perm_errors(
            perms,
            seq![KnownPerms { ptr: PointerId::Global(ptr), perms: known }],
        ) == seq![
            KnownPermError { ptr: PointerId::Global(ptr), known, found: perms[ptr as int] },
        ],
    decreases b.len(),
{
    reveal_with_fuel(perm_errors, 2);
    let one = seq![KnownPerms { ptr: PointerId::Global(ptr), perms: known }];
    assert(one.drop_last() =~= Seq::<KnownPerms>::empty());
    assert(perms[ptr as int] != known ==> perm_errors(perms, one) =~= seq![
        KnownPermError { ptr: PointerId::Global(ptr), known, found: perms[ptr as int] },
    ]);
    if b.len() == 0 {
        assert(a + b =~= a);
        assert(perm_errors(perms, a) + perm_errors(perms, b) =~= perm_errors(perms, a));
    } else {
        assert((a + b).drop_last() =~= a + b.drop_last());
        law_permission_errors(perms, a, b.drop_last(), ptr, known);
        assert(perm_errors(perms, a + b) =~= perm_errors(perms, a) + perm_errors(perms, b));
    }
}

/// A foreign function has an error exactly if one of the errors is about a pointer that its
/// signature mentions. Other functions have none.
pub proof fn law_error_functions(
    sigs: Map<DefId, LFnSig>,
    foreign: Set<DefId>,
    errors: Seq<KnownPermError>,
    did: DefId,
    k: int,
)
    ensures
        0 <= k < errors.len() && foreign.contains(did) && sigs.contains_key(did) && sig_mentions(
            sigs[did]@,
            errors[k].ptr,
        ) ==> is_error_fn(sigs, foreign, errors, did),
        is_error_fn(sigs, foreign, errors, did) ==> foreign.contains(did) && sigs.contains_key(did)
            && exists|n: int|
            0 <= n < errors.len() && sig_mentions(sigs[did]@, (#[trigger] errors[n]).ptr),
        0 <= k < errors.len() ==> is_error_ptr(errors, errors[k].ptr),
{
    if 0 <= k < errors.len() {
        assert(is_error_ptr(errors, errors[k].ptr));
    }
    if is_error_fn(sigs, foreign, errors, did) {
        let p = choose|p: PointerId| #[trigger]
            sig_mentions(sigs[did]@, p) && is_error_ptr(errors, p);
        let n = choose|n: int| 0 <= n < errors.len() && (#[trigger] errors[n]).ptr == p;
        assert(sig_mentions(sigs[did]@, errors[n].ptr));
    }
}

/// Known permissions are within the program exactly if each is of a global pointer that there is.
pub proof fn law_known_within(n: nat, known: Seq<KnownPerms>)
    ensures
        known_within(n, known) <==> forall|i: int|
            0 <= i < known.len() ==> ((#[trigger] known[i]).ptr matches PointerId::Global(p) && p
                < n),
{
}

} // verus!
