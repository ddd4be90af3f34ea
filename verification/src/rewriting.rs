//! The last pass: gathers the rewrites of all functions, statics, structs, enums and unions.
use crate::analysis::{
    fail_marked, labels_kept, others_kept, taken_upto, with_failure, Analysis, FailPoint,
    Failures, FuncInfo,
};
use crate::assigning::{
    is_ready, law_recording_changes_permissions_alone, nodes_applied, Assigning,
};
use crate::assignment::{fixes, law_fix, GlobalAssignment};
use crate::checking::{
    all_checkable, is_checkable, lemma_marked_wf, local_flags_kept, tables_kept, Checking,
};
use crate::context::PanicDetail;
use crate::def_id::{DefId, DefMap, LocalDefId};
use crate::fixing::{fix_failed_sigs, pointers_of_sigs};
use crate::flags::{law_fixed_bit, FlagSet};
use crate::pdg::{Node, NodeOutcome};
use crate::pointer_id::PointerId;
use crate::program::{has_sigs, Program};
use crate::report::{
    adt_report, fn_report, report_adt, report_fn, report_statics, static_report, Rewrite,
};
use crate::ty::{sig_mentions, LFnSig};
use vstd::prelude::*;
use vstd::set_lib::*;

verus! {

/// What the pass is doing.
#[derive(Clone, Copy, Debug, PartialEq, Eq, Structural)]
pub enum RewriteStage {
    /// Rewriting functions.
    Functions,
    /// Rewriting calls of functions whose signature was kept.
    ShimCalls,
    /// Defining functions with the old signatures of rewritten functions.
    Shims,
    /// Rewriting statics.
    Statics,
    /// Rewriting structs, enums and unions.
    Adts,
    /// Nothing any more.
    Done,
}

/// The rewrites that were found, and the reports on them.
pub struct Output<W> {
    /// All rewrites.
    pub rewrites: Vec<Rewrite<W>>,
    /// The report on each function.
    pub fn_reports: DefMap<String>,
    /// The rewrites of statics.
    pub static_rewrites: Vec<Rewrite<W>>,
    /// The report on statics.
    pub statics_report: String,
    /// The report on each struct, enum and union.
    pub adt_reports: DefMap<String>,
}

/// It may take several tries until all rewrites of functions succeed: a function whose rewrites
/// fail keeps its signature, and that changes what its callers need.
pub struct Rewriting<D, E, C, R, W> {
    pub s: Assigning<D, E, C, R>,
    pub out: Output<W>,
    pub stage: RewriteStage,
    /// The position of the item of the current stage that comes next.
    pub at: usize,
    /// The functions that need shims.
    pub shims: Vec<DefId>,
    /// Whether the rewrites of a function or a shim failed in this try.
    pub any_failed: bool,
    /// The functions that had been given up when this try began.
    pub given_up: Ghost<Set<DefId>>,
    /// The structs, enums and unions that may be rewritten.
    pub adts: Vec<DefId>,
}

/// What to do next.
#[derive(Clone, Copy, Debug, PartialEq, Eq, Structural)]
pub enum RewriteStep {
    /// Generate the rewrites of the function at this position.
    Function(usize),
    /// Generate the rewrites of calls, and find out which functions need shims.
    ShimCalls,
    /// Generate the shim of this function.
    Shim(DefId),
    /// A new try begins.
    NewTry,
    /// Generate the rewrites of this static, whose address is this pointer.
    Static(DefId, PointerId),
    /// Generate the rewrites of this struct, enum or union.
    Adt(DefId),
    /// The next stage begins.
    NextStage,
    /// There are no more rewrites.
    Finished,
}

/// Whether the function at position `i` is to be rewritten: it was not given up, and is not marked
/// or listed as one to leave alone.
pub open spec fn is_rewritable(program: Program, failed: Failures, i: int) -> bool {
    &&& !failed.contains_key(program.order@[i].def_id())
    &&& !program.attrs@[i].skip_rewrite
    &&& !program.fixed_defs@.contains(program.order@[i].def_id())
}

/// The position of the first function from `from` on that is to be rewritten.
pub open spec fn rewritable_from(program: Program, failed: Failures, from: int) -> int
    decreases program.order@.len() - from,
{
    if from >= program.order@.len() {
        program.order@.len() as int
    } else if is_rewritable(program, failed, from) {
        from
    } else {
        rewritable_from(program, failed, from + 1)
    }
}

/// The position of the first of `dids` from `from` on that is not in `skipped`.
pub open spec fn first_outside(dids: Seq<DefId>, skipped: Set<DefId>, from: int) -> int
    decreases dids.len() - from,
{
    if from >= dids.len() {
        dids.len() as int
    } else if skipped.contains(dids[from]) {
        first_outside(dids, skipped, from + 1)
    } else {
        from
    }
}

/// Only what may be rewritten is: a function that comes next was not given up, and is not to be
/// left alone.
pub proof fn law_rewritable_from(program: Program, failed: Failures, from: int)
    requires
        0 <= from <= program.order@.len(),
    ensures
        from <= rewritable_from(program, failed, from) <= program.order@.len(),
        rewritable_from(program, failed, from) < program.order@.len() ==> is_rewritable(
            program,
            failed,
            rewritable_from(program, failed, from),
        ),
        forall|i: int|
            from <= i < rewritable_from(program, failed, from) ==> !#[trigger] is_rewritable(
                program,
                failed,
                i,
            ),
    decreases program.order@.len() - from,
{
    if from < program.order@.len() && !is_rewritable(program, failed, from) {
        law_rewritable_from(program, failed, from + 1);
    }
}

/// When a try begins, every pointer in the signature of a function that was given up is fixed: its
/// callers see it as it was.
pub proof fn law_failed_sigs_are_fixed<D, E, C, R, W>(
    r: Rewriting<D, E, C, R, W>,
    gasn: GlobalAssignment,
    did: DefId,
    p: usize,
)
    requires
        r.try_begins(gasn),
        r.s.a.gacx.fns_failed@.contains_key(did),
        r.s.a.gacx.fn_sigs@.contains_key(did),
        sig_mentions(r.s.a.gacx.fn_sigs@[did]@, PointerId::Global(p)),
        p < gasn.flags@.len(),
    ensures
        r.s.gasn.flags@[p as int].has(FlagSet::FIXED),
{
    let ptrs = pointers_of_sigs(r.s.a.gacx.fn_sigs@, r.s.a.gacx.fns_failed@.dom());
    assert(r.s.a.gacx.fns_failed@.dom().contains(did));
    assert(ptrs.contains(PointerId::Global(p)));
    law_fix(gasn.flags@, ptrs, p as int, FlagSet::FIXED);
}

/// Every pointer in the signatures of `fns` is fixed.
pub open spec fn sigs_are_fixed(
    gasn: GlobalAssignment,
    sigs: Map<DefId, LFnSig>,
    fns: Set<DefId>,
) -> bool {
    forall|did: DefId, p: usize|
        #![trigger fns.contains(did), gasn.flags@[p as int]]
        fns.contains(did) && sigs.contains_key(did) && p < gasn.flags@.len() && sig_mentions(
            sigs[did]@,
            PointerId::Global(p),
        ) ==> gasn.flags@[p as int].has(FlagSet::FIXED)
}

proof fn lemma_sigs_are_fixed(
    before: GlobalAssignment,
    after: GlobalAssignment,
    sigs: Map<DefId, LFnSig>,
    fns: Set<DefId>,
)
    requires
        fixes(before, after, pointers_of_sigs(sigs, fns)),
    ensures
        sigs_are_fixed(after, sigs, fns),
{
    let ptrs = pointers_of_sigs(sigs, fns);
    assert forall|did: DefId, p: usize|
        #![trigger fns.contains(did), after.flags@[p as int]]
        fns.contains(did) && sigs.contains_key(did) && p < after.flags@.len() && sig_mentions(
            sigs[did]@,
            PointerId::Global(p),
        ) implies after.flags@[p as int].has(FlagSet::FIXED) by {
        assert(ptrs.contains(PointerId::Global(p)));
        law_fix(before.flags@, ptrs, p as int, FlagSet::FIXED);
    }
}

/// The rewrites that are kept come from a try in which all rewrites of functions and all shims
/// succeeded: once functions are done, the signature of every function that was given up is fixed,
/// and was so when the try began.
pub proof fn law_kept_rewrites_fit<D, E, C, R, W>(r: Rewriting<D, E, C, R, W>, did: DefId, p: usize)
    requires
        r.wf(),
        r.stage is Statics || r.stage is Adts || r.stage is Done,
        r.s.a.gacx.fns_failed@.contains_key(did),
        sig_mentions(r.s.a.gacx.fn_sigs@[did]@, PointerId::Global(p)),
        p < r.s.gasn.flags@.len(),
    ensures
        !r.any_failed,
        r.given_up@.contains(did),
        r.s.gasn.flags@[p as int].has(FlagSet::FIXED),
{
    assert(r.s.a.gacx.fns_failed@.dom().contains(did));
    assert(r.s.a.gacx.fn_sigs@.dom().contains(did));
}

/// A new try begins only after another function was given up, unless the shim failed of a function
/// that had been given up before this try.
pub proof fn law_failed_try_gives_up_more<D, E, C, R, W>(r: Rewriting<D, E, C, R, W>)
    requires
        r.wf(),
        r.any_failed,
        r.shims_are_new(),
    ensures
        r.given_up@.subset_of(r.s.a.gacx.fns_failed@.dom()),
        exists|d: DefId|
            #![trigger r.given_up@.contains(d)]
            !r.given_up@.contains(d) && r.s.a.gacx.fns_failed@.contains_key(d)
                && r.s.a.gacx.fn_sigs@.contains_key(d),
{
    let failed = r.s.a.gacx.fns_failed@.dom();
    assert(!(failed =~= r.given_up@));
    let d = choose|d: DefId| #[trigger] failed.contains(d) && !r.given_up@.contains(d);
    assert(failed.contains(d) && !r.given_up@.contains(d));
    assert(r.s.a.gacx.fn_sigs@.dom().contains(d));
}

/// The functions that have not been given up.
pub open spec fn still_kept(sigs: Map<DefId, LFnSig>, given_up: Set<DefId>) -> Set<DefId> {
    sigs.dom().difference(given_up)
}

/// A pointer that is fixed in the first assignment stays so until rewriting begins: neither what a
/// recorded run says, nor the checks take it back.
pub proof fn law_fixed_until_rewriting<D, E, C, R, W>(
    assigned: Assigning<D, E, C, R>,
    nodes: Seq<Node>,
    outcomes: Seq<NodeOutcome>,
    c: Checking<D, E, C, R>,
    r: Rewriting<D, E, C, R, W>,
    p: int,
)
    requires
        nodes_applied(assigned, c.first@, nodes, outcomes),
        c.wf(),
        r.try_begins(c.s.gasn),
        0 <= p < assigned.gasn.flags@.len(),
        assigned.gasn.flags@[p].has(FlagSet::FIXED),
    ensures
        r.s.gasn.flags@[p].has(FlagSet::FIXED),
{
    law_recording_changes_permissions_alone(assigned, c.first@, nodes, outcomes);
    assert(c.first@.gasn.flags@[p].has(FlagSet::FIXED));
    assert(c.s.gasn.flags@[p].has(FlagSet::FIXED));
    law_fix(
        c.s.gasn.flags@,
        pointers_of_sigs(r.s.a.gacx.fn_sigs@, r.s.a.gacx.fns_failed@.dom()),
        p,
        FlagSet::FIXED,
    );
}

/// A pointer of a function that is fixed before the checks is fixed after them.
pub proof fn law_local_fixed_until_rewriting<D, E, C, R>(c: Checking<D, E, C, R>, i: int, p: int)
    requires
        c.wf(),
        0 <= i < c.first@.a.infos@.len(),
        c.first@.a.infos@[i] is Some,
        c.first@.a.info(i).lasn.is_set(),
        0 <= p < c.first@.a.info(i).lasn@->Some_0.flags@.len(),
        c.first@.a.info(i).lasn@->Some_0.flags@[p].has(FlagSet::FIXED),
    ensures
        c.s.a.infos@[i] is Some,
        c.s.a.info(i).lasn.is_set(),
        c.s.a.info(i).lasn@->Some_0.flags@[p].has(FlagSet::FIXED),
{
    assert(local_flags_kept(c.first@.a.infos@[i], c.s.a.infos@[i]));
    assert(c.first@.a.info(i).lasn@->Some_0.flags@[p].has(FlagSet::FIXED));
}

/// What stays in the output while functions are rewritten.
pub open spec fn globals_out_kept<W>(before: Output<W>, after: Output<W>) -> bool {
    &&& after.static_rewrites == before.static_rewrites
    &&& after.statics_report == before.statics_report
    &&& after.adt_reports == before.adt_reports
}

/// What a step leaves alone unless it says otherwise.
pub open spec fn inputs_kept<D, E, C, R, W>(
    before: Rewriting<D, E, C, R, W>,
    after: Rewriting<D, E, C, R, W>,
) -> bool {
    &&& tables_kept(before.s, after.s)
    &&& after.s.a.program == before.s.a.program
    &&& labels_kept(before.s.a.gacx, after.s.a.gacx)
    &&& after.adts == before.adts
}

/// Whether `d` is a struct, enum or union to leave alone.
pub open spec fn kept_adts(mentioned: Set<DefId>, fixed_defs: Set<DefId>) -> Set<DefId> {
    mentioned.union(fixed_defs)
}

impl<D, E, C, R, W> Rewriting<D, E, C, R, W> {
    /// There is something about every function that was not given up, the tables have an entry for
    /// every pointer, and what is at hand exists.
    pub open spec fn wf(&self) -> bool {
        &&& all_checkable(self.s)
        &&& self.adts@.no_duplicates()
        &&& self.given_up@.subset_of(self.s.a.gacx.fns_failed@.dom())
        &&& sigs_are_fixed(self.s.gasn, self.s.a.gacx.fn_sigs@, self.given_up@)
        &&& !self.any_failed ==> self.s.a.gacx.fns_failed@.dom() == self.given_up@
        &&& self.any_failed ==> self.stage is Functions || self.stage is ShimCalls
            || self.stage is Shims
        &&& self.any_failed ==> self.s.a.gacx.fns_failed@.dom() != self.given_up@
            || self.stage is Shims && exists|k: int|
            0 <= k < self.at && k < self.shims@.len() && self.given_up@.contains(
                #[trigger] self.shims@[k],
            )
        &&& match self.stage {
            RewriteStage::Functions => self.at <= self.s.a.program.len(),
            RewriteStage::ShimCalls => true,
            RewriteStage::Shims => {
                &&& self.at <= self.shims@.len()
                &&& forall|i: int|
                    0 <= i < self.shims@.len() ==> self.s.a.gacx.fn_sigs@.contains_key(
                        #[trigger] self.shims@[i],
                    )
            },
            RewriteStage::Statics => self.at <= self.s.a.gacx.addr_of_static.keys().len(),
            RewriteStage::Adts => self.at <= self.adts@.len(),
            RewriteStage::Done => true,
        }
    }

    /// None of the functions that need shims had been given up when the try began.
    pub open spec fn shims_are_new(&self) -> bool {
        forall|k: int|
            0 <= k < self.shims@.len() ==> !self.given_up@.contains(#[trigger] self.shims@[k])
    }

    /// Whether the pass is at a function that is to be rewritten.
    pub open spec fn is_at_function(&self) -> bool {
        &&& self.stage is Functions
        &&& self.at < self.s.a.program.len()
        &&& is_rewritable(self.s.a.program, self.s.a.gacx.fns_failed@, self.at as int)
    }

    /// A try begins: there are no rewrites of functions yet, and the signatures of the functions
    /// that were given up so far are fixed.
    pub open spec fn try_begins(&self, gasn: GlobalAssignment) -> bool {
        &&& self.stage is Functions
        &&& self.at == 0
        &&& !self.any_failed
        &&& self.given_up@ == self.s.a.gacx.fns_failed@.dom()
        &&& self.out.rewrites@.len() == 0
        &&& self.out.fn_reports@ == Map::<DefId, String>::empty()
        &&& fixes(
            gasn,
            self.s.gasn,
            pointers_of_sigs(self.s.a.gacx.fn_sigs@, self.s.a.gacx.fns_failed@.dom()),
        )
    }

    /// Gives up the functions that are marked for it, and begins the first try. `adts` are the
    /// structs, enums and unions that may be rewritten.
    pub fn start(c: Checking<D, E, C, R>, adts: Vec<DefId>) -> (r: Self)
        requires
            c.wf(),
            c.stage is Cells,
            c.at == c.s.a.program.len(),
            adts@.no_duplicates(),
        ensures
            r.wf(),
            r.try_begins(c.s.gasn),
            r.s.a.program == c.s.a.program,
            r.s.a.infos == c.s.a.infos,
            r.adts == adts,
            tables_kept(c.s, r.s),
            labels_kept(c.s.a.gacx, r.s.a.gacx),
            taken_upto(
                c.s.a.gacx.fns_failed@,
                r.s.a.gacx.fns_failed@,
                c.s.a.program,
                FailPoint::BeforeRewriting,
                c.s.a.program.len() as int,
            ),
            r.out.static_rewrites@.len() == 0,
            r.out.adt_reports@ == Map::<DefId, String>::empty(),
    {
        let ghost s0 = c.s;
        let mut s = c.s;
        fail_marked(&s.a.program, &mut s.a.gacx, FailPoint::BeforeRewriting);
        proof {
            lemma_marked_wf(s0.a, s.a, FailPoint::BeforeRewriting);
            assert forall|i: int|
                #![trigger s.a.infos@[i]]
                0 <= i < s.a.infos@.len() implies is_checkable(s.a, i) by {
                assert(is_checkable(s0.a, i)) by {
                    assert(s0.a.infos@[i] == s.a.infos@[i]);
                }
                assert(s0.a.is_failed(i) ==> s.a.is_failed(i));
            }
        }
        fix_failed_sigs(&s.a.gacx, &mut s.gasn);
        let ghost given_up = s.a.gacx.fns_failed@.dom();
        proof {
            lemma_sigs_are_fixed(s0.gasn, s.gasn, s.a.gacx.fn_sigs@, given_up);
        }
        Rewriting {
            s,
            out: Output {
                rewrites: Vec::new(),
                fn_reports: DefMap::new(),
                static_rewrites: Vec::new(),
                statics_report: String::new(),
                adt_reports: DefMap::new(),
            },
            stage: RewriteStage::Functions,
            at: 0,
            shims: Vec::new(),
            any_failed: false,
            given_up: Ghost(given_up),
            adts,
        }
    }

    /// Goes on to the next item.
    pub fn next(&mut self) -> (r: RewriteStep)
        requires
            old(self).wf(),
        ensures
            final(self).wf(),
            inputs_kept(*old(self), *final(self)),
            final(self).s.a == old(self).s.a,
            ({
                let was = *old(self);
                let now = *final(self);
                let program = was.s.a.program;
                let failed = was.s.a.gacx.fns_failed@;
                let f = rewritable_from(program, failed, was.at as int);
                let statics = was.s.a.gacx.addr_of_static.keys();
                let t = first_outside(statics, program.fixed_defs@, was.at as int);
                let d = first_outside(
                    was.adts@,
                    kept_adts(was.s.mentioned@, program.fixed_defs@),
                    was.at as int,
                );
                match was.stage {
                    RewriteStage::Functions => {
                        &&& now.out == was.out
                        &&& now.s == was.s
                        &&& now.shims == was.shims
                        &&& now.any_failed == was.any_failed
                        &&& now.given_up == was.given_up
                        &&& if f < program.len() {
                            &&& r == RewriteStep::Function(f as usize)
                            &&& now.at == f
                            &&& now.is_at_function()
                        } else {
                            r is ShimCalls && now.stage is ShimCalls && now.at == was.at
                        }
                    },
                    RewriteStage::ShimCalls => r is ShimCalls && now == was,
                    RewriteStage::Shims => if was.at < was.shims@.len() {
                        r == RewriteStep::Shim(was.shims@[was.at as int]) && now == was
                    } else if was.any_failed {
                        &&& r is NewTry
                        &&& now.try_begins(was.s.gasn)
                        &&& now.shims == was.shims
                        &&& globals_out_kept(was.out, now.out)
                        &&& was.shims_are_new() ==> still_kept(
                            now.s.a.gacx.fn_sigs@,
                            now.given_up@,
                        ).len() < still_kept(was.s.a.gacx.fn_sigs@, was.given_up@).len()
                    } else {
                        &&& r is NextStage
                        &&& now == (Rewriting { stage: RewriteStage::Statics, at: 0, ..was })
                    },
                    RewriteStage::Statics => {
                        &&& now.s == was.s
                        &&& now.shims == was.shims
                        &&& now.any_failed == was.any_failed
                        &&& now.given_up == was.given_up
                        &&& if t < statics.len() {
                            &&& r == RewriteStep::Static(
                                statics[t],
                                was.s.a.gacx.addr_of_static@[statics[t]],
                            )
                            &&& now.stage is Statics
                            &&& now.at == t
                            &&& now.out == was.out
                        } else {
                            &&& r is NextStage
                            &&& now.stage is Adts
                            &&& now.at == 0
                            &&& now.out.statics_report@ == static_report(was.out.static_rewrites@)
                            &&& now.out.rewrites@ == was.out.rewrites@ + was.out.static_rewrites@
                            &&& now.out.static_rewrites@.len() == 0
                            &&& now.out.fn_reports == was.out.fn_reports
                            &&& now.out.adt_reports == was.out.adt_reports
                        }
                    },
                    RewriteStage::Adts => if d < was.adts@.len() {
                        &&& r == RewriteStep::Adt(was.adts@[d])
                        &&& now == (Rewriting { at: d as usize, ..was })
                    } else {
                        &&& r is Finished
                        &&& now == (Rewriting { stage: RewriteStage::Done, ..was })
                    },
                    RewriteStage::Done => r is Finished && now == was,
                }
            }),
            ({
                let was = *old(self);
                let at = final(self).at as int;
                let end = if r is Adt {
                    at
                } else {
                    was.adts@.len() as int
                };
                let mentioned = was.s.mentioned@;
                let fixed = was.s.a.program.fixed_defs@;
                &&& r matches RewriteStep::Adt(d) ==> {
                    &&& was.stage is Adts
                    &&& was.at <= at < was.adts@.len()
                    &&& was.adts@[at] == d
                    &&& !mentioned.contains(d)
                    &&& !fixed.contains(d)
                }
                &&& was.stage is Adts ==> (r is Adt || r is Finished) && forall|i: int|
                    was.at <= i < end ==> mentioned.contains(#[trigger] was.adts@[i])
                        || fixed.contains(was.adts@[i])
            }),
            ({
                let was = *old(self);
                let at = final(self).at as int;
                let order = was.s.a.program.order@;
                let attrs = was.s.a.program.attrs@;
                let failed = was.s.a.gacx.fns_failed@;
                let fixed = was.s.a.program.fixed_defs@;
                let end = if r is Function {
                    at
                } else {
                    order.len() as int
                };
                &&& r matches RewriteStep::Function(i) ==> {
                    &&& was.stage is Functions
                    &&& was.at <= i < order.len()
                    &&& i == at
                    &&& !failed.contains_key(order[at].def_id())
                    &&& !attrs[at].skip_rewrite
                    &&& !fixed.contains(order[at].def_id())
                }
                &&& was.stage is Functions ==> (r is Function || r is ShimCalls) && forall|i: int|
                    was.at <= i < end ==> failed.contains_key((#[trigger] order[i]).def_id())
                        || attrs[i].skip_rewrite || fixed.contains(order[i].def_id())
            }),
            ({
                let was = *old(self);
                let at = final(self).at as int;
                let statics = was.s.a.gacx.addr_of_static.keys();
                let fixed = was.s.a.program.fixed_defs@;
                let end = if r is Static {
                    at
                } else {
                    statics.len() as int
                };
                &&& r matches RewriteStep::Static(d, p) ==> {
                    &&& was.stage is Statics
                    &&& was.at <= at < statics.len()
                    &&& statics[at] == d
                    &&& was.s.a.gacx.addr_of_static@[d] == p
                    &&& !fixed.contains(d)
                }
                &&& was.stage is Statics ==> (r is Static || r is NextStage) && forall|i: int|
                    was.at <= i < end ==> fixed.contains(#[trigger] statics[i])
            }),
    {
        let ghost was = *self;
        match self.stage {
            RewriteStage::Functions => {
                let n = self.s.a.program.order.len();
                let ghost failed = self.s.a.gacx.fns_failed@;
                let ghost from = self.at as int;
                let mut i = self.at;
                while i < n && (self.s.a.gacx.fn_failed(self.s.a.program.order[i].to_def_id())
                    || self.s.a.program.attrs[i].skip_rewrite
                    || self.s.a.program.fixed_defs.contains(
                    self.s.a.program.order[i].to_def_id(),
                ))
                    invariant
                        self.wf(),
                        *self == was,
                        n == self.s.a.program.order@.len(),
                        failed == self.s.a.gacx.fns_failed@,
                        from <= i <= n,
                        forall|k: int|
                            from <= k < i ==> failed.contains_key(
                                (#[trigger] self.s.a.program.order@[k]).def_id(),
                            ) || self.s.a.program.attrs@[k].skip_rewrite
                                || self.s.a.program.fixed_defs@.contains(
                                self.s.a.program.order@[k].def_id(),
                            ),
                        rewritable_from(self.s.a.program, failed, i as int) == rewritable_from(
                            self.s.a.program,
                            failed,
                            from,
                        ),
                    decreases n - i,
                {
                    i += 1;
                }
                if i < n {
                    self.at = i;
                    RewriteStep::Function(i)
                } else {
                    self.stage = RewriteStage::ShimCalls;
                    RewriteStep::ShimCalls
                }
            },
            RewriteStage::ShimCalls => RewriteStep::ShimCalls,
            RewriteStage::Shims => {
                if self.at < self.shims.len() {
                    return RewriteStep::Shim(self.shims[self.at]);
                }
                self.at = 0;
                if self.any_failed {
                    let _n = self.s.a.gacx.fn_sigs.len();
                    proof {
                        lemma_fewer_kept(was);
                        self.given_up@ = self.s.a.gacx.fns_failed@.dom();
                    }
                    self.any_failed = false;
                    self.out.rewrites = Vec::new();
                    self.out.fn_reports = DefMap::new();
                    self.stage = RewriteStage::Functions;
                    fix_failed_sigs(&self.s.a.gacx, &mut self.s.gasn);
                    proof {
                        lemma_sigs_are_fixed(
                            was.s.gasn,
                            self.s.gasn,
                            self.s.a.gacx.fn_sigs@,
                            self.given_up@,
                        );
                    }
                    RewriteStep::NewTry
                } else {
                    self.stage = RewriteStage::Statics;
                    RewriteStep::NextStage
                }
            },
            RewriteStage::Statics => {
                let n = self.s.a.gacx.addr_of_static.len();
                let ghost keys = self.s.a.gacx.addr_of_static.keys();
                let ghost fixed = self.s.a.program.fixed_defs@;
                let ghost from = self.at as int;
                let mut i = self.at;
                while i < n && self.s.a.program.fixed_defs.contains(
                    self.s.a.gacx.addr_of_static.entry(i).0,
                )
                    invariant
                        *self == was,
                        n == keys.len(),
                        keys == self.s.a.gacx.addr_of_static.keys(),
                        fixed == self.s.a.program.fixed_defs@,
                        from <= i <= n,
                        forall|k: int| from <= k < i ==> fixed.contains(#[trigger] keys[k]),
                        first_outside(keys, fixed, i as int) == first_outside(keys, fixed, from),
                    decreases n - i,
                {
                    i += 1;
                }
                if i < n {
                    self.at = i;
                    let (did, ptr) = self.s.a.gacx.addr_of_static.entry(i);
                    RewriteStep::Static(did, *ptr)
                } else {
                    self.out.statics_report = report_statics(&self.out.static_rewrites);
                    self.out.rewrites.append(&mut self.out.static_rewrites);
                    self.stage = RewriteStage::Adts;
                    self.at = 0;
                    RewriteStep::NextStage
                }
            },
            RewriteStage::Adts => {
                let n = self.adts.len();
                let ghost kept = kept_adts(self.s.mentioned@, self.s.a.program.fixed_defs@);
                let ghost from = self.at as int;
                let mut i = self.at;
                while i < n && (self.s.mentioned.contains(self.adts[i])
                    || self.s.a.program.fixed_defs.contains(self.adts[i]))
                    invariant
                        *self == was,
                        n == self.adts@.len(),
                        kept == kept_adts(self.s.mentioned@, self.s.a.program.fixed_defs@),
                        from <= i <= n,
                        forall|k: int|
                            from <= k < i ==> self.s.mentioned@.contains(#[trigger] self.adts@[k])
                                || self.s.a.program.fixed_defs@.contains(self.adts@[k]),
                        first_outside(self.adts@, kept, i as int) == first_outside(
                            self.adts@,
                            kept,
                            from,
                        ),
                    decreases n - i,
                {
                    i += 1;
                }
                if i < n {
                    self.at = i;
                    RewriteStep::Adt(self.adts[i])
                } else {
                    self.stage = RewriteStage::Done;
                    RewriteStep::Finished
                }
            },
            RewriteStage::Done => RewriteStep::Finished,
        }
    }

    /// Keeps the rewrites of the current function, and reports on them under the (quoted) name
    /// `name`; or gives the function up. Where one fails, all functions are rewritten anew.
    pub fn rewritten(
        &mut self,
        name: &str,
        result: Result<(Vec<Rewrite<W>>, Vec<Rewrite<W>>), PanicDetail>,
    )
        requires
            old(self).wf(),
            old(self).is_at_function(),
        ensures
            final(self).wf(),
            inputs_kept(*old(self), *final(self)),
            final(self).stage is Functions,
            final(self).at == old(self).at + 1,
            final(self).s.gasn == old(self).s.gasn,
            final(self).shims == old(self).shims,
            final(self).given_up == old(self).given_up,
            final(self).any_failed == (old(self).any_failed || result is Err),
            globals_out_kept(old(self).out, final(self).out),
            match result {
                Ok((exprs, tys)) => {
                    &&& final(self).s == old(self).s
                    &&& final(self).out.rewrites@ == old(self).out.rewrites@ + exprs@ + tys@
                    &&& report_added(
                        old(self).out.fn_reports@,
                        final(self).out.fn_reports@,
                        old(self).s.a.program.did(old(self).at as int),
                        fn_report(exprs@, tys@, name@),
                    )
                },
                Err(detail) => {
                    &&& final(self).out == old(self).out
                    &&& final(self).s.a.gacx.fns_failed@ == with_failure(
                        old(self).s.a.gacx.fns_failed@,
                        old(self).s.a.program.did(old(self).at as int),
                        detail,
                    )
                    &&& others_kept(old(self).s.a, final(self).s.a, old(self).at as int)
                    &&& labels_dropped(
                        old(self).s.a.infos@[old(self).at as int],
                        final(self).s.a.infos@[old(self).at as int],
                    )
                },
            },
    {
        let ghost a = self.s.a;
        let i = self.at;
        assert(i < self.s.a.program.order.len());
        let did = self.s.a.program.order[i].to_def_id();
        assert(is_checkable(a, i as int)) by {
            assert(a.infos@[i as int] == a.infos@[i as int]);
        }
        match result {
            Ok((exprs, tys)) => {
                let mut exprs = exprs;
                let mut tys = tys;
                let report = report_fn(&exprs, &tys, name);
                self.out.fn_reports.insert(did, report);
                self.out.rewrites.append(&mut exprs);
                self.out.rewrites.append(&mut tys);
            },
            Err(detail) => {
                let mut slot: Option<FuncInfo<D, E, C, R>> = None;
                std::mem::swap(&mut slot, &mut self.s.a.infos[i]);
                if let Some(mut info) = slot {
                    info.acx_data.clear();
                    self.s.a.infos.set(i, Some(info));
                }
                self.s.a.gacx.mark_fn_failed(did, detail);
                self.any_failed = true;
                proof {
                    assert(self.s.a.gacx.fns_failed@.dom().contains(did));
                    assert(!self.given_up@.contains(did));
                    assert forall|k: int|
                        #![trigger self.s.a.infos@[k]]
                        0 <= k < a.infos@.len() implies is_checkable(self.s.a, k) by {
                        assert(is_checkable(a, k)) by {
                            assert(a.infos@[k] == a.infos@[k]);
                        }
                        if k != i {
                            assert(self.s.a.infos@[k] == a.infos@[k]);
                            assert(a.program.order@[k] != a.program.order@[i as int]);
                        }
                    }
                    assert(has_sigs(a.program, a.gacx));
                }
            },
        }
        self.at += 1;
    }

    /// Keeps the rewrites of calls, and goes on to the functions that need shims.
    pub fn calls_rewritten(&mut self, rewrites: Vec<Rewrite<W>>, shims: Vec<DefId>)
        requires
            old(self).wf(),
            old(self).stage is ShimCalls,
            forall|i: int|
                0 <= i < shims@.len() ==> old(self).s.a.gacx.fn_sigs@.contains_key(
                    #[trigger] shims@[i],
                ),
        ensures
            final(self).wf(),
            inputs_kept(*old(self), *final(self)),
            final(self).s == old(self).s,
            final(self).stage is Shims,
            final(self).at == 0,
            final(self).shims == shims,
            final(self).any_failed == old(self).any_failed,
            final(self).given_up == old(self).given_up,
            final(self).out.rewrites@ == old(self).out.rewrites@ + rewrites@,
            final(self).out.fn_reports == old(self).out.fn_reports,
            globals_out_kept(old(self).out, final(self).out),
    {
        let mut rewrites = rewrites;
        self.out.rewrites.append(&mut rewrites);
        self.shims = shims;
        self.stage = RewriteStage::Shims;
        self.at = 0;
    }

    /// Keeps the shim of the current function, or gives the function up. Where one fails, all
    /// functions are rewritten anew.
    pub fn shim_generated(&mut self, result: Result<Rewrite<W>, PanicDetail>)
        requires
            old(self).wf(),
            old(self).stage is Shims,
            old(self).at < old(self).shims@.len(),
        ensures
            final(self).wf(),
            inputs_kept(*old(self), *final(self)),
            final(self).stage is Shims,
            final(self).at == old(self).at + 1,
            final(self).shims == old(self).shims,
            final(self).any_failed == (old(self).any_failed || result is Err),
            final(self).given_up == old(self).given_up,
            final(self).s.gasn == old(self).s.gasn,
            final(self).s.a.infos == old(self).s.a.infos,
            final(self).out.fn_reports == old(self).out.fn_reports,
            globals_out_kept(old(self).out, final(self).out),
            match result {
                Ok(rw) => {
                    &&& final(self).s == old(self).s
                    &&& final(self).out.rewrites@ == old(self).out.rewrites@.push(rw)
                },
                Err(detail) => {
                    &&& final(self).out.rewrites == old(self).out.rewrites
                    &&& final(self).s.a.gacx.fns_failed@ == with_failure(
                        old(self).s.a.gacx.fns_failed@,
                        old(self).shims@[old(self).at as int],
                        detail,
                    )
                },
            },
    {
        let ghost a = self.s.a;
        assert(self.at < self.shims.len());
        let did = self.shims[self.at];
        match result {
            Ok(rw) => {
                self.out.rewrites.push(rw);
            },
            Err(detail) => {
                self.s.a.gacx.mark_fn_failed(did, detail);
                self.any_failed = true;
                proof {
                    assert(self.s.a.gacx.fns_failed@.dom().contains(did));
                    assert(self.shims@[self.at as int] == did);
                    assert forall|k: int|
                        #![trigger self.s.a.infos@[k]]
                        0 <= k < a.infos@.len() implies is_checkable(self.s.a, k) by {
                        assert(is_checkable(a, k)) by {
                            assert(a.infos@[k] == a.infos@[k]);
                        }
                    }
                    assert(has_sigs(a.program, a.gacx));
                }
            },
        }
        self.at += 1;
        proof {
            let failed = self.s.a.gacx.fns_failed@.dom();
            if self.any_failed && failed == self.given_up@ {
                assert(a.gacx.fns_failed@.dom() =~= self.given_up@);
                if result is Err {
                    assert(self.given_up@.contains(self.shims@[self.at - 1]));
                }
            }
        }
    }

    /// Keeps the rewrites of the current static.
    pub fn static_rewritten(&mut self, rewrites: Vec<Rewrite<W>>)
        requires
            old(self).wf(),
            old(self).stage is Statics,
            old(self).at < old(self).s.a.gacx.addr_of_static.keys().len(),
        ensures
            final(self).wf(),
            inputs_kept(*old(self), *final(self)),
            final(self).s == old(self).s,
            final(self).stage is Statics,
            final(self).at == old(self).at + 1,
            final(self).shims == old(self).shims,
            final(self).any_failed == old(self).any_failed,
            final(self).given_up == old(self).given_up,
            final(self).out.static_rewrites@ == old(self).out.static_rewrites@ + rewrites@,
            final(self).out.rewrites == old(self).out.rewrites,
            final(self).out.fn_reports == old(self).out.fn_reports,
            final(self).out.statics_report == old(self).out.statics_report,
            final(self).out.adt_reports == old(self).out.adt_reports,
    {
        let mut rewrites = rewrites;
        let n = self.s.a.gacx.addr_of_static.len();
        assert(self.at < n);
        self.out.static_rewrites.append(&mut rewrites);
        self.at += 1;
    }

    /// Keeps the rewrites of the current struct, enum or union, and reports on them. It is printed
    /// as `name`.
    pub fn adt_rewritten(&mut self, name: &str, rewrites: Vec<Rewrite<W>>)
        requires
            old(self).wf(),
            old(self).stage is Adts,
            old(self).at < old(self).adts@.len(),
        ensures
            final(self).wf(),
            inputs_kept(*old(self), *final(self)),
            final(self).s == old(self).s,
            final(self).stage is Adts,
            final(self).at == old(self).at + 1,
            final(self).shims == old(self).shims,
            final(self).any_failed == old(self).any_failed,
            final(self).given_up == old(self).given_up,
            final(self).out.rewrites@ == old(self).out.rewrites@ + rewrites@,
            report_added(
                old(self).out.adt_reports@,
                final(self).out.adt_reports@,
                old(self).adts@[old(self).at as int],
                adt_report(rewrites@, name@),
            ),
            final(self).out.fn_reports == old(self).out.fn_reports,
            final(self).out.static_rewrites == old(self).out.static_rewrites,
            final(self).out.statics_report == old(self).out.statics_report,
    {
        let mut rewrites = rewrites;
        assert(self.at < self.adts.len());
        let report = report_adt(&rewrites, name);
        self.out.adt_reports.insert(self.adts[self.at], report);
        self.out.rewrites.append(&mut rewrites);
        self.at += 1;
    }
}

/// After a try that failed on something new, fewer functions are left to fail.
proof fn lemma_fewer_kept<D, E, C, R, W>(r: Rewriting<D, E, C, R, W>)
    requires
        r.wf(),
        r.any_failed,
        r.s.a.gacx.fn_sigs@.dom().finite(),
    ensures
        r.shims_are_new() ==> still_kept(
            r.s.a.gacx.fn_sigs@,
            r.s.a.gacx.fns_failed@.dom(),
        ).len() < still_kept(r.s.a.gacx.fn_sigs@, r.given_up@).len(),
{
    if r.shims_are_new() {
        law_failed_try_gives_up_more(r);
        let sigs = r.s.a.gacx.fn_sigs@;
        let failed = r.s.a.gacx.fns_failed@.dom();
        let d = choose|d: DefId|
            #![trigger r.given_up@.contains(d)]
            !r.given_up@.contains(d) && r.s.a.gacx.fns_failed@.contains_key(d)
                && sigs.contains_key(d);
        let was = still_kept(sigs, r.given_up@);
        let now = still_kept(sigs, failed);
        lemma_set_subset_finite(sigs.dom(), was);
        assert(now.subset_of(was.remove(d)));
        lemma_len_subset(now, was.remove(d));
    }
}

/// `after` is `before` with the report `text` on `did`.
pub open spec fn report_added(
    before: Map<DefId, String>,
    after: Map<DefId, String>,
    did: DefId,
    text: Seq<char>,
) -> bool {
    after.contains_key(did) && after[did]@ == text && after == before.insert(did, after[did])
}

/// `after` is `before` without the labels of the function.
pub open spec fn labels_dropped<D, E, C, R>(
    before: Option<FuncInfo<D, E, C, R>>,
    after: Option<FuncInfo<D, E, C, R>>,
) -> bool {
    match (before, after) {
        (Some(b), Some(f)) => {
            &&& !f.acx_data.is_set()
            &&& f.dataflow == b.dataflow
            &&& f.local_equiv == b.local_equiv
            &&& f.lasn == b.lasn
            &&& f.pointee_constraints == b.pointee_constraints
            &&& f.local_pointee_types == b.local_pointee_types
            &&& f.recent_writes == b.recent_writes
        },
        _ => false,
    }
}

/// Where `ldid` stands first in `order`.
pub open spec fn position_in(order: Seq<LocalDefId>, ldid: LocalDefId) -> Option<int>
    decreases order.len(),
{
    if order.len() == 0 {
        None
    } else {
        match position_in(order.drop_last(), ldid) {
            Some(i) => Some(i),
            None => if order.last() == ldid {
                Some(order.len() - 1)
            } else {
                None
            },
        }
    }
}

/// The positions of the functions to report on, in the order in which they are declared: those of
/// which something is known and that were not given up.
pub open spec fn reported_fns<D, E, C, R>(
    a: Analysis<D, E, C, R>,
    owners: Seq<LocalDefId>,
) -> Seq<usize>
    decreases owners.len(),
{
    if owners.len() == 0 {
        Seq::empty()
    } else {
        let earlier = reported_fns(a, owners.drop_last());
        match position_in(a.program.order@, owners.last()) {
            Some(i) if a.infos@[i] is Some && !a.is_failed(i) => earlier.push(i as usize),
            _ => earlier,
        }
    }
}

/// Everything is there that is needed to report on a function.
pub proof fn law_reported_fns_are_ready<D, E, C, R>(
    s: Assigning<D, E, C, R>,
    owners: Seq<LocalDefId>,
    k: int,
)
    requires
        all_checkable(s),
        0 <= k < reported_fns(s.a, owners).len(),
    ensures
        ({
            let i = reported_fns(s.a, owners)[k] as int;
            &&& i < s.a.program.len()
            &&& owners.contains(s.a.program.order@[i])
            &&& s.a.infos@[i] matches Some(info) && is_ready(info, s.a.gacx.ptr_info@.len())
        }),
    decreases owners.len(),
{
    let order = s.a.program.order@;
    assert(order.len() == s.a.program.order.len());
    if owners.len() > 0 {
        let front = owners.drop_last();
        lemma_position_in(order, owners.last());
        if k < reported_fns(s.a, front).len() {
            law_reported_fns_are_ready(s, front, k);
            let i = reported_fns(s.a, front)[k] as int;
            let j = choose|j: int| 0 <= j < front.len() && front[j] == order[i];
            assert(owners[j] == order[i]);
        } else {
            let i = position_in(order, owners.last())->Some_0;
            assert(is_checkable(s.a, i)) by {
                assert(s.a.infos@[i] == s.a.infos@[i]);
            }
            assert(owners[owners.len() - 1] == order[i]);
        }
    }
}

/// Where each of the functions stands in the order.
fn positions_of(order: &Vec<LocalDefId>) -> (r: DefMap<usize>)
    ensures
        forall|l: LocalDefId|
            #![trigger l.def_id()]
            match position_in(order@, l) {
                Some(i) => r@.contains_key(l.def_id()) && r@[l.def_id()] == i,
                None => !r@.contains_key(l.def_id()),
            },
{
    let mut r: DefMap<usize> = DefMap::new();
    let mut i: usize = 0;
    while i < order.len()
        invariant
            i <= order@.len(),
            forall|l: LocalDefId|
                #![trigger l.def_id()]
                match position_in(order@.take(i as int), l) {
                    Some(i) => r@.contains_key(l.def_id()) && r@[l.def_id()] == i,
                    None => !r@.contains_key(l.def_id()),
                },
        decreases order@.len() - i,
    {
        let did = order[i].to_def_id();
        let ghost before = r@;
        if !r.contains_key(did) {
            r.insert(did, i);
        }
        proof {
            let now = order@.take(i + 1);
            assert(now.drop_last() =~= order@.take(i as int));
            assert forall|l: LocalDefId|
                #![trigger l.def_id()]
                match position_in(now, l) {
                    Some(i) => r@.contains_key(l.def_id()) && r@[l.def_id()] == i,
                    None => !r@.contains_key(l.def_id()),
                } by {
                if l.def_id() == did {
                    assert(l == order@[i as int]);
                }
                match position_in(order@.take(i as int), l) {
                    Some(k) => {
                        assert(before.contains_key(l.def_id()));
                    },
                    None => {
                        assert(!before.contains_key(l.def_id()));
                    },
                }
            }
        }
        i += 1;
    }
    assert(order@.take(i as int) =~= order@);
    r
}

/// The functions to report on, in the order in which they are declared.
pub fn report_order<D, E, C, R>(a: &Analysis<D, E, C, R>, owners: &Vec<LocalDefId>) -> (r: Vec<
    usize,
>)
    requires
        a.infos@.len() == a.program.len(),
    ensures
        r@ == reported_fns(*a, owners@),
{
    let positions = positions_of(&a.program.order);
    let mut found: Vec<usize> = Vec::new();
    let mut k: usize = 0;
    while k < owners.len()
        invariant
            k <= owners@.len(),
            a.infos@.len() == a.program.len(),
            forall|l: LocalDefId|
                #![trigger l.def_id()]
                match position_in(a.program.order@, l) {
                    Some(i) => positions@.contains_key(l.def_id()) && positions@[l.def_id()] == i,
                    None => !positions@.contains_key(l.def_id()),
                },
            found@ == reported_fns(*a, owners@.take(k as int)),
        decreases owners@.len() - k,
    {
        let ldid = owners[k];
        let did = ldid.to_def_id();
        proof {
            assert(owners@.take(k + 1).drop_last() =~= owners@.take(k as int));
            assert(did == ldid.def_id());
            lemma_position_in(a.program.order@, ldid);
        }
        if let Some(i) = positions.get(did) {
            if a.infos[*i].is_some() && !a.gacx.fn_failed(did) {
                found.push(*i);
            }
        }
        k += 1;
    }
    assert(owners@.take(k as int) =~= owners@);
    found
}

proof fn lemma_position_in(order: Seq<LocalDefId>, ldid: LocalDefId)
    ensures
        position_in(order, ldid) matches Some(i) ==> 0 <= i < order.len() && order[i] == ldid,
    decreases order.len(),
{
    if order.len() > 0 {
        lemma_position_in(order.drop_last(), ldid);
    }
}

/// A struct, enum or union is left alone exactly if a foreign item mentions it or it is listed.
pub proof fn law_kept_adts(mentioned: Set<DefId>, fixed_defs: Set<DefId>, d: DefId)
    ensures
        mentioned.contains(d) ==> kept_adts(mentioned, fixed_defs).contains(d),
        fixed_defs.contains(d) ==> kept_adts(mentioned, fixed_defs).contains(d),
        !mentioned.contains(d) && !fixed_defs.contains(d) ==> !kept_adts(
            mentioned,
            fixed_defs,
        ).contains(d),
{
}

/// What comes next is not to be skipped, and everything on the way to it is.
pub proof fn law_first_outside(dids: Seq<DefId>, skipped: Set<DefId>, from: int)
    requires
        0 <= from <= dids.len(),
    ensures
        from <= first_outside(dids, skipped, from) <= dids.len(),
        first_outside(dids, skipped, from) < dids.len() ==> !skipped.contains(
            dids[first_outside(dids, skipped, from)],
        ),
        forall|i: int|
            from <= i < first_outside(dids, skipped, from) ==> skipped.contains(
                #[trigger] dids[i],
            ),
    decreases dids.len() - from,
{
    if from < dids.len() && skipped.contains(dids[from]) {
        law_first_outside(dids, skipped, from + 1);
    }
}

/// The position that is reached after going on `n` times, each time from behind the last one.
pub open spec fn nth_outside(dids: Seq<DefId>, skipped: Set<DefId>, from: int, n: nat) -> int
    decreases n,
{
    if n == 0 {
        first_outside(dids, skipped, from)
    } else {
        nth_outside(dids, skipped, first_outside(dids, skipped, from) + 1, (n - 1) as nat)
    }
}

/// Every struct, enum or union of the list that no foreign item mentions and that is not listed to
/// be left alone is reached, if one goes on often enough.
pub proof fn law_every_adt_is_reached(
    adts: Seq<DefId>,
    mentioned: Set<DefId>,
    fixed_defs: Set<DefId>,
    from: int,
    i: int,
) -> (n: nat)
    requires
        0 <= from <= i < adts.len(),
        !mentioned.contains(adts[i]),
        !fixed_defs.contains(adts[i]),
    ensures
        nth_outside(adts, kept_adts(mentioned, fixed_defs), from, n) == i,
        n <= i - from,
    decreases i - from,
{
    let skipped = kept_adts(mentioned, fixed_defs);
    law_first_outside(adts, skipped, from);
    let next = first_outside(adts, skipped, from);
    if next == i {
        0
    } else {
        (law_every_adt_is_reached(adts, mentioned, fixed_defs, next + 1, i) + 1) as nat
    }
}

/// A function is to be rewritten exactly if it was not given up, is not marked to be skipped, and
/// is not listed.
pub proof fn law_rewritable(program: Program, failed: Failures, i: int)
    ensures
        is_rewritable(program, failed, i) <==> {
            let did = DefId { krate: 0, index: program.order@[i].index };
            !failed.contains_key(did) && !program.attrs@[i].skip_rewrite
                && !program.fixed_defs@.contains(did)
        },
{
}

/// What a step leaves alone: the labels, the program, the tables, and the list of structs, enums
/// and unions; and, while functions are rewritten, all that was found for statics and types.
pub proof fn law_steps_leave_alone<D, E, C, R, W>(
    before: Rewriting<D, E, C, R, W>,
    after: Rewriting<D, E, C, R, W>,
)
    ensures
        inputs_kept(before, after) ==> {
            &&& after.adts@ == before.adts@
            &&& after.s.a.program == before.s.a.program
            &&& tables_kept(before.s, after.s)
            &&& labels_kept(before.s.a.gacx, after.s.a.gacx)
        },
        globals_out_kept(before.out, after.out) ==> {
            &&& after.out.static_rewrites@ == before.out.static_rewrites@
            &&& after.out.statics_report@ == before.out.statics_report@
            &&& after.out.adt_reports@ == before.out.adt_reports@
        },
{
}

/// A try begins with the first function, with no rewrites of functions and no reports on them, and
/// nothing that failed in it.
pub proof fn law_try_begins<D, E, C, R, W>(r: Rewriting<D, E, C, R, W>, gasn: GlobalAssignment)
    requires
        r.try_begins(gasn),
    ensures
        r.stage == RewriteStage::Functions,
        r.at == 0,
        !r.any_failed,
        r.out.rewrites@.len() == 0,
        forall|d: DefId| !#[trigger] r.out.fn_reports@.contains_key(d),
        r.s.gasn.perms@ == gasn.perms@,
        forall|d: DefId| #[trigger]
            r.given_up@.contains(d) <==> r.s.a.gacx.fns_failed@.contains_key(d),
{
    assert forall|d: DefId| #[trigger] r.given_up@.contains(d)
        <==> r.s.a.gacx.fns_failed@.contains_key(d) by {
        assert(r.s.a.gacx.fns_failed@.dom().contains(d) <==> r.s.a.gacx.fns_failed@.contains_key(d));
    }
}

/// Where the signatures of functions are fixed, every pointer that one of them mentions has the
/// flag.
pub proof fn law_fixed_signatures(
    gasn: GlobalAssignment,
    sigs: Map<DefId, LFnSig>,
    fns: Set<DefId>,
    did: DefId,
    p: usize,
)
    requires
        sigs_are_fixed(gasn, sigs, fns),
        fns.contains(did),
        sigs.contains_key(did),
        p < gasn.flags@.len(),
        sig_mentions(sigs[did]@, PointerId::Global(p)),
    ensures
        gasn.flags@[p as int].bits & FlagSet::FIXED != 0,
{
    law_fixed_bit(gasn.flags@[p as int]);
}

/// A function counts as kept exactly if it has a signature and was not given up.
pub proof fn law_still_kept(sigs: Map<DefId, LFnSig>, given_up: Set<DefId>, d: DefId)
    ensures
        still_kept(sigs, given_up).contains(d) <==> sigs.contains_key(d) && !given_up.contains(d),
{
}

/// A new report takes the place of one on the same definition, and leaves all others.
pub proof fn law_reports_are_kept(
    before: Map<DefId, String>,
    after: Map<DefId, String>,
    did: DefId,
    text: Seq<char>,
    other: DefId,
)
    requires
        report_added(before, after, did, text),
    ensures
        after.contains_key(did),
        after[did]@ == text,
        other != did ==> (after.contains_key(other) <==> before.contains_key(other)),
        other != did && before.contains_key(other) ==> after[other] == before[other],
{
}

/// Where a function loses its labels, it loses nothing else.
pub proof fn law_only_labels_are_dropped<D, E, C, R>(
    before: FuncInfo<D, E, C, R>,
    after: FuncInfo<D, E, C, R>,
)
    ensures
        labels_dropped(Some(before), Some(after)) <==> {
            &&& !after.acx_data.is_set()
            &&& after.dataflow == before.dataflow
            &&& after.local_equiv == before.local_equiv
            &&& after.lasn == before.lasn
            &&& after.pointee_constraints == before.pointee_constraints
            &&& after.local_pointee_types == before.local_pointee_types
            &&& after.recent_writes == before.recent_writes
        },
        !labels_dropped(Some(before), None),
        !labels_dropped(None, Some(after)),
{
}

/// A position is found exactly if the function is in the order, and it is the first one.
pub proof fn law_position_in(order: Seq<LocalDefId>, ldid: LocalDefId)
    ensures
        match position_in(order, ldid) {
            Some(i) => {
                &&& 0 <= i < order.len()
                &&& order[i] == ldid
                &&& forall|j: int| 0 <= j < i ==> #[trigger] order[j] != ldid
            },
            None => forall|j: int| 0 <= j < order.len() ==> #[trigger] order[j] != ldid,
        },
    decreases order.len(),
{
    if order.len() > 0 {
        let front = order.drop_last();
        law_position_in(front, ldid);
        assert forall|j: int| 0 <= j < front.len() implies front[j] == #[trigger] order[j] by {}
    }
}

/// The functions to report on are those of a first part of the list and then those of a second.
/// A single function is reported on exactly if it is analyzed, something is known of it, and it was
/// not given up.
pub proof fn law_reported_functions<D, E, C, R>(
    an: Analysis<D, E, C, R>,
    a: Seq<LocalDefId>,
    b: Seq<LocalDefId>,
    ldid: LocalDefId,
)
    ensures
        reported_fns(an, a + b) == reported_fns(an, a) + reported_fns(an, b),
        match position_in(an.program.order@, ldid) {
            Some(i) => reported_fns(an, seq![ldid]) == if an.infos@[i] is Some
                && !an.gacx.fns_failed@.contains_key(DefId { krate: 0, index: ldid.index }) {
                seq![i as usize]
            } else {
                Seq::empty()
            },
            None => reported_fns(an, seq![ldid]).len() == 0,
        },
    decreases b.len(),
{
    reveal_with_fuel(reported_fns, 2);
    let one = seq![ldid];
    assert(one.drop_last() =~= Seq::<LocalDefId>::empty());
    law_position_in(an.program.order@, ldid);
    if let Some(i) = position_in(an.program.order@, ldid) {
        assert(reported_fns(an, one) =~= if an.infos@[i] is Some
            && !an.gacx.fns_failed@.contains_key(DefId { krate: 0, index: ldid.index }) {
            seq![i as usize]
        } else {
            Seq::empty()
        });
    }
    if b.len() == 0 {
        assert(a + b =~= a);
        assert(reported_fns(an, a) + reported_fns(an, b) =~= reported_fns(an, a));
    } else {
        assert((a + b).drop_last() =~= a + b.drop_last());
        law_reported_functions(an, a, b.drop_last(), ldid);
        assert(reported_fns(an, a + b) =~= reported_fns(an, a) + reported_fns(an, b));
    }
}

/// The pass is at a function exactly if it is rewriting functions, and the one at hand was not
/// given up, is not marked to be skipped, and is not listed.
pub proof fn law_at_function<D, E, C, R, W>(r: Rewriting<D, E, C, R, W>)
    ensures
        r.is_at_function() <==> {
            let did = DefId { krate: 0, index: r.s.a.program.order@[r.at as int].index };
            &&& r.stage == RewriteStage::Functions
            &&& r.at < r.s.a.program.order@.len()
            &&& !r.s.a.gacx.fns_failed@.contains_key(did)
            &&& !r.s.a.program.attrs@[r.at as int].skip_rewrite
            &&& !r.s.a.program.fixed_defs@.contains(did)
        },
        r.shims_are_new() <==> forall|k: int|
            0 <= k < r.shims@.len() ==> !r.given_up@.contains(#[trigger] r.shims@[k]),
{
}

} // verus!
