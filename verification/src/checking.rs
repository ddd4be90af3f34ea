//! The fifth pass: works out the permissions of all pointers, until nothing changes any more.
use crate::analysis::{
    fail_marked, labels_kept, law_next_live, live_from, next_live, others_kept, taken_upto,
    with_failure, Analysis, FailPoint, FuncInfo,
};
use crate::assigning::{is_assigned, is_ready, Assigning};
use crate::assignment::{
    fixed_kept, fixes, lemma_fix_keeps, GlobalAssignment, LocalAssignment,
};
use crate::context::PanicDetail;
use crate::def_id::DefId;
use crate::fixing::{def_known, mark_fixed_defs, pointers_of_defs};
use crate::flags::{FlagSet, PermissionSet};
use crate::permissions::{changed_between, changed_pointers, known_within, ChangedPointer};
use crate::pointer_id::{GlobalPointerTable, LocalPointerTable};
use crate::program::{foreign_set, has_sigs, mentioned_set};
use vstd::prelude::*;

verus! {

/// What the pass is doing.
#[derive(Clone, Copy, Debug, PartialEq, Eq, Structural)]
pub enum CheckStage {
    /// Propagating permissions and checking borrows, in rounds.
    Borrows,
    /// Finding out which pointers need cells, and checking string literals.
    Cells,
}

/// The pass goes over all functions in rounds. What is found in one function can change the
/// permissions of shared pointers, and so what is found in others. After the last round, it goes
/// over all functions once more.
pub struct Checking<D, E, C, R> {
    pub s: Assigning<D, E, C, R>,
    pub stage: CheckStage,
    /// The assignment as it was when the round began.
    pub before: GlobalAssignment,
    /// The number of the round.
    pub round: u64,
    /// The position of the function that comes next.
    pub at: usize,
    /// What the pass started from.
    pub first: Ghost<Assigning<D, E, C, R>>,
}

/// What to do next.
pub enum CheckStep {
    /// Propagate the permissions of the function at this position, and check its borrows.
    Borrows(usize),
    /// A round is over, in which these pointers got other permissions.
    Round { round: u64, changed: Vec<ChangedPointer>, is_last: bool },
    /// Propagate cells in the function at this position, and check its string literals.
    Cells(usize),
    /// All functions were checked.
    Finished,
}

/// What there is about the function at position `i`. Of functions that were given up, nothing is
/// needed any more.
pub open spec fn is_checkable<D, E, C, R>(a: Analysis<D, E, C, R>, i: int) -> bool {
    match a.infos@[i] {
        None => a.is_failed(i),
        Some(info) => !a.is_failed(i) ==> is_ready(info, a.gacx.ptr_info@.len()),
    }
}

/// There is something about every function that was not given up, and the tables have an entry for
/// every pointer.
pub open spec fn all_checkable<D, E, C, R>(s: Assigning<D, E, C, R>) -> bool {
    let globals = s.a.gacx.ptr_info@.len();
    &&& s.a.wf()
    &&& s.a.infos@.len() == s.a.program.len()
    &&& s.types@.len() == globals
    &&& s.gasn.wf(globals)
    &&& known_within(globals, s.known@)
    &&& s.foreign@ == foreign_set(s.a.program.foreign_items@)
    &&& s.mentioned@ == mentioned_set(s.a.program)
    &&& forall|i: int|
        #![trigger s.a.infos@[i]]
        0 <= i < s.a.infos@.len() ==> is_checkable(s.a, i)
}

/// The functions of which there is an assignment still have one, in which every pointer is fixed
/// that was.
pub open spec fn local_fixed_kept<D, E, C, R>(
    before: Seq<Option<FuncInfo<D, E, C, R>>>,
    after: Seq<Option<FuncInfo<D, E, C, R>>>,
) -> bool {
    &&& after.len() == before.len()
    &&& forall|i: int|
        #![trigger after[i]]
        0 <= i < before.len() ==> local_flags_kept(before[i], after[i])
}

/// The function has an assignment if it had one, in which every pointer is fixed that was.
pub open spec fn local_flags_kept<D, E, C, R>(
    before: Option<FuncInfo<D, E, C, R>>,
    after: Option<FuncInfo<D, E, C, R>>,
) -> bool {
    before matches Some(was) ==> (was.lasn@ matches Some(old_lasn) ==> (after matches Some(now)
        && (now.lasn@ matches Some(new_lasn) && fixed_kept(old_lasn.flags@, new_lasn.flags@))))
}

/// What a pass over the functions leaves alone.
pub open spec fn tables_kept<D, E, C, R>(
    before: Assigning<D, E, C, R>,
    after: Assigning<D, E, C, R>,
) -> bool {
    &&& after.types == before.types
    &&& after.known == before.known
    &&& after.foreign == before.foreign
    &&& after.mentioned == before.mentioned
}

impl<D, E, C, R> Checking<D, E, C, R> {
    /// The tables have an entry for every pointer.
    pub open spec fn wf(&self) -> bool {
        &&& all_checkable(self.s)
        &&& self.before.wf(self.s.a.gacx.ptr_info@.len())
        &&& self.at <= self.s.a.program.len()
        &&& fixed_kept(self.first@.gasn.flags@, self.s.gasn.flags@)
        &&& local_fixed_kept(self.first@.a.infos@, self.s.a.infos@)
    }

    /// Whether the pass is at a function that was not given up.
    pub open spec fn is_at_function(&self) -> bool {
        self.at < self.s.a.program.len() && !self.s.a.is_failed(self.at as int)
    }

    /// Fixes the definitions that are listed or marked, gives up the functions that are marked for
    /// it, and begins the first round.
    pub fn start(s: Assigning<D, E, C, R>) -> (r: Self)
        requires
            s.wf(),
            forall|i: int|
                0 <= i < s.a.program.defs@.len() ==> def_known(
                    s.a.gacx,
                    s.a.program.adts@,
                    s.a.program.fixed_defs@,
                    #[trigger] s.a.program.defs@[i],
                ),
        ensures
            r.wf(),
            r.stage is Borrows,
            r.round == 1,
            r.at == 0,
            r.first@ == s,
            fixes(
                s.gasn,
                r.s.gasn,
                pointers_of_defs(
                    s.a.gacx,
                    s.a.program.adts@,
                    s.a.program.fixed_defs@,
                    s.a.program.defs@,
                ),
            ),
            r.before.perms@ == r.s.gasn.perms@,
            r.before.flags@ == r.s.gasn.flags@,
            r.s.a.program == s.a.program,
            r.s.a.infos == s.a.infos,
            labels_kept(s.a.gacx, r.s.a.gacx),
            taken_upto(
                s.a.gacx.fns_failed@,
                r.s.a.gacx.fns_failed@,
                s.a.program,
                FailPoint::BeforeAnalysis,
                s.a.program.len() as int,
            ),
            tables_kept(s, r.s),
    {
        let ghost s0 = s;
        let mut s = s;
        mark_fixed_defs(
            &s.a.gacx,
            &mut s.gasn,
            &s.a.program.adts,
            &s.a.program.defs,
            &s.a.program.fixed_defs,
        );
        fail_marked(&s.a.program, &mut s.a.gacx, FailPoint::BeforeAnalysis);
        let before = s.gasn.duplicate();
        proof {
            lemma_fix_keeps(
                s0.gasn.flags@,
                pointers_of_defs(
                    s0.a.gacx,
                    s0.a.program.adts@,
                    s0.a.program.fixed_defs@,
                    s0.a.program.defs@,
                ),
            );
            lemma_marked_wf(s0.a, s.a, FailPoint::BeforeAnalysis);
            assert forall|i: int|
                #![trigger s.a.infos@[i]]
                0 <= i < s.a.infos@.len() implies is_checkable(s.a, i) by {
                assert(is_assigned(s0.a, i)) by {
                    assert(s0.a.infos@[i] == s.a.infos@[i]);
                }
                assert(s0.a.is_failed(i) ==> s.a.is_failed(i));
            }
        }
        Checking { s, stage: CheckStage::Borrows, before, round: 1, at: 0, first: Ghost(s0) }
    }

    /// Goes on to the next function. A round after which the shared assignment is the same as at
    /// its beginning is the last one.
    pub fn next(&mut self) -> (r: CheckStep)
        requires
            old(self).wf(),
        ensures
            final(self).wf(),
            final(self).s == old(self).s,
            final(self).first == old(self).first,
            ({
                let was = old(self);
                let i = live_from(
                    was.s.a.program.order@,
                    was.s.a.gacx.fns_failed@,
                    was.at as int,
                );
                let same = was.s.gasn.perms@ == was.before.perms@ && was.s.gasn.flags@
                    == was.before.flags@;
                match r {
                    CheckStep::Borrows(k) => {
                        &&& was.stage is Borrows
                        &&& k == i
                        &&& final(self).at == k
                        &&& final(self).is_at_function()
                        &&& final(self).stage == was.stage
                        &&& final(self).before == was.before
                        &&& final(self).round == was.round
                    },
                    CheckStep::Round { round, changed, is_last } => {
                        &&& was.stage is Borrows
                        &&& i == was.s.a.program.len()
                        &&& round == was.round
                        &&& changed@ == changed_between(was.before.perms@, was.s.gasn.perms@)
                        &&& is_last == same
                        &&& final(self).at == 0
                        &&& same ==> {
                            &&& final(self).stage is Cells
                            &&& final(self).round == was.round
                            &&& final(self).before == was.before
                        }
                        &&& !same ==> {
                            &&& final(self).stage is Borrows
                            &&& final(self).before.perms@ == was.s.gasn.perms@
                            &&& final(self).before.flags@ == was.s.gasn.flags@
                            &&& final(self).round == if was.round < u64::MAX {
                                was.round + 1
                            } else {
                                was.round as int
                            }
                        }
                    },
                    CheckStep::Cells(k) => {
                        &&& was.stage is Cells
                        &&& k == i
                        &&& final(self).at == k
                        &&& final(self).is_at_function()
                        &&& final(self).stage == was.stage
                        &&& final(self).before == was.before
                        &&& final(self).round == was.round
                    },
                    CheckStep::Finished => {
                        &&& was.stage is Cells
                        &&& i == was.s.a.program.len()
                        &&& final(self).stage is Cells
                        &&& final(self).at == i
                        &&& final(self).before == was.before
                        &&& final(self).round == was.round
                    },
                }
            }),
    {
        let i = next_live(&self.s.a.program.order, &self.s.a.gacx, self.at);
        proof {
            law_next_live(
                self.s.a.program.order@,
                self.s.a.gacx.fns_failed@,
                self.at as int,
            );
        }
        let n = self.s.a.program.order.len();
        match self.stage {
            CheckStage::Borrows => {
                if i < n {
                    self.at = i;
                    return CheckStep::Borrows(i);
                }
                let changed = changed_pointers(&self.before, &self.s.gasn);
                let is_last = self.s.gasn.same(&self.before);
                let round = self.round;
                self.at = 0;
                if is_last {
                    self.stage = CheckStage::Cells;
                } else {
                    self.before = self.s.gasn.duplicate();
                    if round < u64::MAX {
                        self.round = round + 1;
                    }
                }
                CheckStep::Round { round, changed, is_last }
            },
            CheckStage::Cells => {
                self.at = i;
                if i < n {
                    CheckStep::Cells(i)
                } else {
                    CheckStep::Finished
                }
            },
        }
    }

    /// What keeping the findings in the current function does, with `gasn` and `lasn` as the
    /// permissions and flags that were found.
    pub open spec fn findings_kept(
        before: Self,
        after: Self,
        gasn: (Seq<PermissionSet>, Seq<FlagSet>),
        lasn: (Seq<PermissionSet>, Seq<FlagSet>),
        result: Result<(), PanicDetail>,
    ) -> bool {
        let i = before.at as int;
        let was = before.s.a.info(i);
        &&& after.at == before.at + 1
        &&& after.stage == before.stage
        &&& after.before == before.before
        &&& after.round == before.round
        &&& after.first == before.first
        &&& after.s.gasn.perms@ == gasn.0
        &&& after.s.gasn.flags@ == gasn.1
        &&& tables_kept(before.s, after.s)
        &&& labels_kept(before.s.a.gacx, after.s.a.gacx)
        &&& others_kept(before.s.a, after.s.a, i)
        &&& after.s.a.infos@[i] matches Some(info) && {
            &&& info.lasn@ matches Some(now) && now.perms@ == lasn.0 && now.flags@ == lasn.1
            &&& result is Ok ==> info.acx_data == was.acx_data
            &&& result is Err ==> !info.acx_data.is_set()
            &&& info.dataflow == was.dataflow
            &&& info.local_equiv == was.local_equiv
            &&& info.pointee_constraints == was.pointee_constraints
            &&& info.local_pointee_types == was.local_pointee_types
            &&& info.recent_writes == was.recent_writes
        }
        &&& match result {
            Ok(_) => after.s.a.gacx == before.s.a.gacx,
            Err(detail) => after.s.a.gacx.fns_failed@ == with_failure(
                before.s.a.gacx.fns_failed@,
                before.s.a.program.did(i),
                detail,
            ),
        }
    }

    /// The local permissions and flags of the current function.
    pub open spec fn current_lasn(&self) -> LocalAssignment {
        self.s.a.info(self.at as int).lasn@->Some_0
    }

    /// Keeps the permissions that were found in the current function, and gives it up if the pass
    /// failed on it. What was found before a failure stays.
    pub fn checked(
        &mut self,
        perms: Vec<PermissionSet>,
        local_perms: Vec<PermissionSet>,
        result: Result<(), PanicDetail>,
    )
        requires
            old(self).wf(),
            old(self).is_at_function(),
            old(self).stage is Borrows,
            perms@.len() == old(self).s.gasn.perms@.len(),
            local_perms@.len() == old(self).current_lasn().perms@.len(),
        ensures
            final(self).wf(),
            Self::findings_kept(
                *old(self),
                *final(self),
                (perms@, old(self).s.gasn.flags@),
                (local_perms@, old(self).current_lasn().flags@),
                result,
            ),
    {
        self.keep(perms, local_perms, None, result);
    }

    /// Keeps the permissions and flags that were found in the current function when cells were
    /// propagated, and gives it up if the pass failed on it. What was found before a failure stays.
    /// No pointer that was fixed becomes changeable.
    pub fn cells_checked(
        &mut self,
        perms: Vec<PermissionSet>,
        flags: Vec<FlagSet>,
        local_perms: Vec<PermissionSet>,
        local_flags: Vec<FlagSet>,
        result: Result<(), PanicDetail>,
    )
        requires
            old(self).wf(),
            old(self).is_at_function(),
            old(self).stage is Cells,
            perms@.len() == old(self).s.gasn.perms@.len(),
            fixed_kept(old(self).s.gasn.flags@, flags@),
            local_perms@.len() == old(self).current_lasn().perms@.len(),
            fixed_kept(old(self).current_lasn().flags@, local_flags@),
        ensures
            final(self).wf(),
            Self::findings_kept(
                *old(self),
                *final(self),
                (perms@, flags@),
                (local_perms@, local_flags@),
                result,
            ),
    {
        self.keep(perms, local_perms, Some((flags, local_flags)), result);
    }

    /// Keeps what was found in the current function.
    fn keep(
        &mut self,
        perms: Vec<PermissionSet>,
        local_perms: Vec<PermissionSet>,
        flags: Option<(Vec<FlagSet>, Vec<FlagSet>)>,
        result: Result<(), PanicDetail>,
    )
        requires
            old(self).wf(),
            old(self).is_at_function(),
            perms@.len() == old(self).s.gasn.perms@.len(),
            local_perms@.len() == old(self).current_lasn().perms@.len(),
            flags matches Some(f) ==> {
                &&& fixed_kept(old(self).s.gasn.flags@, f.0@)
                &&& fixed_kept(old(self).current_lasn().flags@, f.1@)
            },
        ensures
            final(self).wf(),
            Self::findings_kept(
                *old(self),
                *final(self),
                (
                    perms@,
                    match flags {
                        Some(f) => f.0@,
                        None => old(self).s.gasn.flags@,
                    },
                ),
                (
                    local_perms@,
                    match flags {
                        Some(f) => f.1@,
                        None => old(self).current_lasn().flags@,
                    },
                ),
                result,
            ),
    {
        let ghost a = self.s.a;
        let i = self.at;
        assert(i < self.s.a.program.order.len());
        assert(is_checkable(a, i as int)) by {
            assert(a.infos@[i as int] == a.infos@[i as int]);
        }
        let failed = result.is_err();
        let local_flags = match flags {
            Some((global_flags, local_flags)) => {
                self.s.gasn.flags = GlobalPointerTable { values: global_flags };
                Some(local_flags)
            },
            None => None,
        };
        let mut slot: Option<FuncInfo<D, E, C, R>> = None;
        std::mem::swap(&mut slot, &mut self.s.a.infos[i]);
        if let Some(mut info) = slot {
            let lasn = info.lasn.take();
            let local_flags = match local_flags {
                Some(values) => LocalPointerTable { values },
                None => lasn.flags,
            };
            info.lasn.set(
                LocalAssignment {
                    perms: LocalPointerTable { values: local_perms },
                    flags: local_flags,
                },
            );
            if failed {
                info.acx_data.clear();
            }
            self.s.a.infos.set(i, Some(info));
        }
        self.s.gasn.perms = GlobalPointerTable { values: perms };
        if let Err(detail) = result {
            let did = self.s.a.program.order[i].to_def_id();
            self.s.a.gacx.mark_fn_failed(did, detail);
        }
        self.at += 1;
        proof {
            assert forall|k: int|
                #![trigger self.s.a.infos@[k]]
                0 <= k < a.infos@.len() implies is_checkable(self.s.a, k) by {
                assert(is_checkable(a, k)) by {
                    assert(a.infos@[k] == a.infos@[k]);
                }
                if k != i {
                    assert(self.s.a.infos@[k] == a.infos@[k]);
                    assert(a.program.order@[k] != a.program.order@[i as int]);
                }
            }
            assert(has_sigs(a.program, a.gacx));
        }
    }
}

/// Giving up marked functions keeps the analysis well-formed.
pub proof fn lemma_marked_wf<D, E, C, R>(
    before: Analysis<D, E, C, R>,
    after: Analysis<D, E, C, R>,
    point: FailPoint,
)
    requires
        before.wf(),
        after.program == before.program,
        labels_kept(before.gacx, after.gacx),
        taken_upto(
            before.gacx.fns_failed@,
            after.gacx.fns_failed@,
            before.program,
            point,
            before.program.len() as int,
        ),
    ensures
        after.wf(),
        forall|i: int|
            #![trigger after.is_failed(i)]
            0 <= i < before.program.len() && before.is_failed(i) ==> after.is_failed(i),
{
    assert(has_sigs(before.program, before.gacx));
    assert forall|d: DefId| #[trigger]
        after.gacx.fns_failed@.dom().contains(d) implies after.gacx.fn_sigs@.dom().contains(d) by {
        assert(after.gacx.fns_failed@.contains_key(d));
        if before.gacx.fns_failed@.contains_key(d) {
            assert(before.gacx.fns_failed@.dom().contains(d));
        } else {
            let i = choose|i: int|
                0 <= i < before.program.len() && (#[trigger] before.program.order@[i]).def_id()
                    == d && point.takes(before.program.attrs@[i]);
            assert(before.gacx.fn_sigs@.contains_key(before.program.order@[i].def_id()));
        }
    }
    assert forall|i: int|
        #![trigger after.is_failed(i)]
        0 <= i < before.program.len() && before.is_failed(i) implies after.is_failed(i) by {
        assert(before.gacx.fns_failed@.contains_key(before.program.did(i)));
    }
}

/// A check of one function gives its pointers and the shared ones the permissions and flags that it
/// found, and goes on to the next function. If it failed, the function is given up and loses its
/// labels. Nothing else changes.
pub proof fn law_findings<D, E, C, R>(
    before: Checking<D, E, C, R>,
    after: Checking<D, E, C, R>,
    gasn: (Seq<PermissionSet>, Seq<FlagSet>),
    lasn: (Seq<PermissionSet>, Seq<FlagSet>),
    result: Result<(), PanicDetail>,
    k: int,
)
    requires
        Checking::findings_kept(before, after, gasn, lasn, result),
    ensures
        after.at == before.at + 1,
        after.stage == before.stage,
        after.round == before.round,
        after.before == before.before,
        after.s.gasn.perms@ == gasn.0,
        after.s.gasn.flags@ == gasn.1,
        after.s.types == before.s.types,
        after.s.known == before.s.known,
        after.s.foreign == before.s.foreign,
        after.s.mentioned == before.s.mentioned,
        after.s.a.program == before.s.a.program,
        after.s.a.gacx.ptr_info == before.s.a.gacx.ptr_info,
        after.s.a.gacx.fn_sigs == before.s.a.gacx.fn_sigs,
        0 <= k < before.s.a.infos@.len() && k != before.at ==> after.s.a.infos@[k]
            == before.s.a.infos@[k],
        after.s.a.infos@[before.at as int] is Some,
        ({
            let now = after.s.a.info(before.at as int);
            let was = before.s.a.info(before.at as int);
            &&& now.lasn.is_set()
            &&& now.lasn@->Some_0.perms@ == lasn.0
            &&& now.lasn@->Some_0.flags@ == lasn.1
            &&& result is Ok ==> now.acx_data == was.acx_data
            &&& result is Err ==> !now.acx_data.is_set()
            &&& now.dataflow == was.dataflow
            &&& now.local_equiv == was.local_equiv
            &&& now.pointee_constraints == was.pointee_constraints
            &&& now.local_pointee_types == was.local_pointee_types
            &&& now.recent_writes == was.recent_writes
        }),
        result is Ok ==> after.s.a.gacx.fns_failed@ == before.s.a.gacx.fns_failed@,
        result matches Err(detail) ==> after.s.a.gacx.fns_failed@ == with_failure(
            before.s.a.gacx.fns_failed@,
            before.s.a.program.did(before.at as int),
            detail,
        ),
{
}

/// Where the flags of a function are kept, each of its pointers that was fixed is so still.
pub proof fn law_local_flags<D, E, C, R>(
    before: FuncInfo<D, E, C, R>,
    after: Option<FuncInfo<D, E, C, R>>,
)
    requires
        local_flags_kept(Some(before), after),
        before.lasn.is_set(),
    ensures
        after is Some,
        after->Some_0.lasn.is_set(),
        fixed_kept(before.lasn@->Some_0.flags@, after->Some_0.lasn@->Some_0.flags@),
{
}

/// A function can be checked exactly if it was given up, or everything is there that a check needs.
pub proof fn law_checkable_functions<D, E, C, R>(
    a: Analysis<D, E, C, R>,
    info: FuncInfo<D, E, C, R>,
    i: int,
)
    ensures
        is_checkable(a, i) && a.infos@[i] is None ==> a.is_failed(i),
        is_checkable(a, i) && a.infos@[i] == Some(info) && !a.is_failed(i) ==> is_ready(
            info,
            a.gacx.ptr_info@.len(),
        ),
        a.infos@[i] is Some && a.is_failed(i) ==> is_checkable(a, i),
{
}

/// The tables that the later passes leave alone are the types, the known permissions, and the
/// foreign and the mentioned definitions.
pub proof fn law_tables_kept<D, E, C, R>(
    before: Assigning<D, E, C, R>,
    after: Assigning<D, E, C, R>,
)
    ensures
        tables_kept(before, after) <==> after.types == before.types && after.known == before.known
            && after.foreign == before.foreign && after.mentioned == before.mentioned,
{
}

/// The pass is at a function exactly if one is left, and it was not given up.
pub proof fn law_at_function<D, E, C, R>(c: Checking<D, E, C, R>)
    ensures
        c.is_at_function() <==> c.at < c.s.a.program.order@.len()
            && !c.s.a.gacx.fns_failed@.contains_key(c.s.a.program.order@[c.at as int].def_id()),
        c.is_at_function() && c.s.a.infos@[c.at as int] is Some ==> c.current_lasn()
            == c.s.a.info(c.at as int).lasn@->Some_0,
{
}

} // verus!
