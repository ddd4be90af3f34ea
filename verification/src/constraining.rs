//! The first pass: labels every function, and keeps what its body says about pointee types.
use crate::analysis::{labels_kept, with_failure, Analysis, Failures, FuncInfo};
use crate::context::{AnalysisCtxtData, PanicDetail};
use crate::def_id::DefId;
use crate::function::{
    args_have_types, body_fits, function_labeled, label_function, lasting, law_function_fits,
};
use crate::maybe_unset::MaybeUnset;
use crate::pointee::{no_pointees, pointees, unknown_types};
use crate::pointer_id::{LocalPointerTable, PointerId};
use crate::program::{globals_labeled, has_sigs, label_globals, Program};
use crate::ty::{AssignPointerIds, LFnSig};
use vstd::prelude::*;

verus! {

/// The pass is at the function at position `a.infos.len()`.
pub struct Constraining<D, E, C, R> {
    pub a: Analysis<D, E, C, R>,
    /// The labels of the function that is being looked at.
    pub pending: MaybeUnset<AnalysisCtxtData>,
}

/// The slots of a function after this pass.
pub open spec fn is_fresh<D, E, C, R>(info: FuncInfo<D, E, C, R>, globals: nat) -> bool {
    &&& info.is_labeled(globals)
    &&& !info.dataflow.is_set()
    &&& !info.local_equiv.is_set()
    &&& !info.lasn.is_set()
}

/// Whether the body of the function at position `i` fits its signature.
pub open spec fn fits_sig(program: Program, sigs: Map<DefId, LFnSig>, i: int) -> bool {
    body_fits(program.bodies@[i], sigs[program.did(i)]@)
}

/// The position of the first function from `from` on that can be labeled: it was not given up, and
/// its body fits its signature.
pub open spec fn labelable_from(
    program: Program,
    sigs: Map<DefId, LFnSig>,
    failed: Failures,
    from: int,
) -> int
    decreases program.len() - from,
{
    if from >= program.len() {
        program.len() as int
    } else if !failed.contains_key(program.did(from)) && fits_sig(program, sigs, from) {
        from
    } else {
        labelable_from(program, sigs, failed, from + 1)
    }
}

/// The reason for giving up a function whose body does not fit its signature.
pub open spec fn misfit_reason() -> Seq<char> {
    "argument without a type in the signature"@
}

/// Whether one of the functions from `from` to before `to` is `did`, and its body does not fit its
/// signature.
pub open spec fn is_misfit(
    program: Program,
    sigs: Map<DefId, LFnSig>,
    from: int,
    to: int,
    did: DefId,
) -> bool {
    exists|k: int|
        from <= k < to && (#[trigger] program.order@[k]).def_id() == did && !fits_sig(
            program,
            sigs,
            k,
        )
}

/// `after` is `before` with the functions from `from` to before `to` whose body does not fit their
/// signature.
pub open spec fn misfits_given_up(
    program: Program,
    sigs: Map<DefId, LFnSig>,
    before: Failures,
    after: Failures,
    from: int,
    to: int,
) -> bool {
    &&& forall|d: DefId| #[trigger]
        after.contains_key(d) <==> before.contains_key(d) || is_misfit(program, sigs, from, to, d)
    &&& forall|d: DefId| #[trigger] before.contains_key(d) ==> after[d] == before[d]
    &&& forall|d: DefId| #[trigger]
        after.contains_key(d) && !before.contains_key(d) ==> after[d].says(misfit_reason())
}

/// One function whose labeling fails does not keep the others from being labeled: the pass leaves
/// out none that can be labeled, and goes only to such a function.
pub proof fn law_next_labelable(
    program: Program,
    sigs: Map<DefId, LFnSig>,
    failed: Failures,
    from: int,
)
    requires
        0 <= from <= program.len(),
    ensures
        from <= labelable_from(program, sigs, failed, from) <= program.len(),
        forall|i: int|
            from <= i < labelable_from(program, sigs, failed, from) ==> failed.contains_key(
                (#[trigger] program.order@[i]).def_id(),
            ) || !fits_sig(program, sigs, i),
        labelable_from(program, sigs, failed, from) < program.len() ==> {
            let i = labelable_from(program, sigs, failed, from);
            !failed.contains_key(program.did(i)) && fits_sig(program, sigs, i)
        },
    decreases program.len() - from,
{
    if from < program.len() && !(!failed.contains_key(program.did(from)) && fits_sig(
        program,
        sigs,
        from,
    )) {
        law_next_labelable(program, sigs, failed, from + 1);
    }
}

impl<D, E, C, R> Constraining<D, E, C, R> {
    /// The functions before the current one have fresh slots, or were given up.
    pub open spec fn wf(&self) -> bool {
        let globals = self.a.gacx.ptr_info@.len();
        &&& self.a.wf()
        &&& self.a.infos@.len() <= self.a.program.len()
        &&& forall|i: int|
            #![trigger self.a.infos@[i]]
            0 <= i < self.a.infos@.len() ==> (self.a.infos@[i] is None <==> self.a.is_failed(i))
                && (self.a.infos@[i] matches Some(info) ==> is_fresh(info, globals))
        &&& self.pending@ matches Some(acx) ==> {
            &&& self.a.infos@.len() < self.a.program.len()
            &&& !self.a.is_failed(self.a.infos@.len() as int)
            &&& acx.fits(globals)
        }
    }

    /// Labels the shared types of the program, and begins with the first function.
    pub fn start(program: Program) -> (r: Self)
        requires
            program.wf(),
        ensures
            r.wf(),
            r.a.program == program,
            globals_labeled(program, r.a.gacx),
            r.a.infos@.len() == 0,
            !r.pending.is_set(),
    {
        let gacx = label_globals(&program);
        assert(gacx.fns_failed@.dom() =~= Set::empty());
        Constraining {
            a: Analysis { program, gacx, infos: Vec::new() },
            pending: MaybeUnset::default(),
        }
    }

    /// Gives up the function at position `i`, which is still to come, because its body could not
    /// be read.
    pub fn give_up(&mut self, i: usize, detail: PanicDetail)
        requires
            old(self).wf(),
            !old(self).pending.is_set(),
            old(self).a.infos@.len() <= i < old(self).a.program.len(),
        ensures
            final(self).wf(),
            final(self).pending == old(self).pending,
            final(self).a.program == old(self).a.program,
            final(self).a.infos == old(self).a.infos,
            labels_kept(old(self).a.gacx, final(self).a.gacx),
            final(self).a.gacx.fns_failed@ == with_failure(
                old(self).a.gacx.fns_failed@,
                old(self).a.program.did(i as int),
                detail,
            ),
    {
        let ghost a = self.a;
        let did = self.a.program.order[i].to_def_id();
        self.a.gacx.mark_fn_failed(did, detail);
        proof {
            assert(has_sigs(a.program, a.gacx));
            assert forall|k: int|
                #![trigger self.a.infos@[k]]
                0 <= k < a.infos@.len() implies self.a.is_failed(k) == a.is_failed(k) by {
                assert(a.program.order@[k] != a.program.order@[i as int]);
            }
        }
    }

    /// Whether the body of the function at position `i` fits its signature.
    fn body_fits_sig(&self, i: usize) -> (r: bool)
        requires
            self.a.wf(),
            i < self.a.program.len(),
        ensures
            r == fits_sig(self.a.program, self.a.gacx.fn_sigs@, i as int),
    {
        assert(has_sigs(self.a.program, self.a.gacx));
        match self.a.gacx.fn_sigs.get(self.a.program.order[i].to_def_id()) {
            Some(lsig) => args_have_types(&self.a.program.bodies[i], lsig),
            None => false,
        }
    }

    /// Goes on to the next function that can be labeled, and labels it. Its constraints are to be
    /// generated then. Functions whose body does not fit their signature are given up. The result
    /// is `None` after the last function.
    pub fn next(&mut self) -> (r: Option<usize>)
        requires
            old(self).wf(),
            !old(self).pending.is_set(),
        ensures
            final(self).wf(),
            final(self).a.program == old(self).a.program,
            final(self).a.gacx.fn_sigs == old(self).a.gacx.fn_sigs,
            final(self).a.gacx.static_tys == old(self).a.gacx.static_tys,
            final(self).a.gacx.addr_of_static == old(self).a.gacx.addr_of_static,
            final(self).a.gacx.field_ltys == old(self).a.gacx.field_ltys,
            ({
                let a = old(self).a;
                let start = a.infos@.len() as int;
                let i = labelable_from(a.program, a.gacx.fn_sigs@, a.gacx.fns_failed@, start);
                &&& final(self).a.infos@ == a.infos@ + Seq::new(
                    (i - start) as nat,
                    |k: int| None,
                )
                &&& misfits_given_up(
                    a.program,
                    a.gacx.fn_sigs@,
                    a.gacx.fns_failed@,
                    final(self).a.gacx.fns_failed@,
                    start,
                    i,
                )
                &&& if i >= a.program.len() {
                    &&& r is None
                    &&& !final(self).pending.is_set()
                    &&& final(self).a.gacx.ptr_info == a.gacx.ptr_info
                } else {
                    &&& r == Some(i as usize)
                    &&& final(self).pending@ matches Some(acx) && {
                        &&& function_labeled(
                            a.program.bodies@[i],
                            a.gacx.fn_sigs@[a.program.did(i)]@,
                            acx,
                        )
                        &&& final(self).a.gacx.ptr_info@ == lasting(
                            a.program.bodies@[i],
                            acx,
                            |k: usize| PointerId::Global(k),
                            a.gacx.ptr_info@,
                        )
                    }
                }
            }),
    {
        let ghost a = self.a;
        let ghost start = a.infos@.len() as int;
        let ghost sigs = a.gacx.fn_sigs@;
        let ghost failed = a.gacx.fns_failed@;
        let ghost order = a.program.order@;
        assert(a.infos@ =~= a.infos@ + Seq::new(0nat, |k: int| None));
        let mut found = false;
        while !found && self.a.infos.len() < self.a.program.order.len()
            invariant
                self.wf(),
                !self.pending.is_set(),
                self.a.program == a.program,
                labels_kept(a.gacx, self.a.gacx),
                sigs == a.gacx.fn_sigs@,
                failed == a.gacx.fns_failed@,
                order == a.program.order@,
                start == a.infos@.len(),
                start <= self.a.infos@.len(),
                misfits_given_up(
                    a.program,
                    sigs,
                    failed,
                    self.a.gacx.fns_failed@,
                    start,
                    self.a.infos@.len() as int,
                ),
                labelable_from(a.program, sigs, failed, self.a.infos@.len() as int)
                    == labelable_from(a.program, sigs, failed, start),
                found ==> {
                    &&& self.a.infos@.len() < order.len()
                    &&& self.a.infos@.len() == labelable_from(a.program, sigs, failed, start)
                    &&& !self.a.is_failed(self.a.infos@.len() as int)
                    &&& fits_sig(a.program, sigs, self.a.infos@.len() as int)
                },
                self.a.infos@ == a.infos@ + Seq::new(
                    (self.a.infos@.len() - start) as nat,
                    |k: int| None,
                ),
            decreases self.a.program.order@.len() - self.a.infos@.len(), !found as int,
        {
            let ghost was = self.a;
            let i = self.a.infos.len();
            let did = self.a.program.order[i].to_def_id();
            let fits = self.body_fits_sig(i);
            proof {
                if is_misfit(a.program, sigs, start, i as int, did) {
                    let k = choose|k: int|
                        start <= k < i && (#[trigger] order[k]).def_id() == did && !fits_sig(
                            a.program,
                            sigs,
                            k,
                        );
                    assert(order[k] != order[i as int]);
                }
                assert(was.gacx.fns_failed@.contains_key(did) == failed.contains_key(did));
            }
            if !self.a.gacx.fn_failed(did) && fits {
                found = true;
            } else {
                if !fits {
                    self.a.gacx.mark_fn_failed(
                        did,
                        PanicDetail::new("argument without a type in the signature"),
                    );
                }
                self.a.infos.push(None);
                proof {
                    assert(has_sigs(a.program, was.gacx));
                    assert(order[i as int].def_id() == did);
                    assert forall|d: DefId|
                        is_misfit(a.program, sigs, start, i + 1, d) == (is_misfit(
                            a.program,
                            sigs,
                            start,
                            i as int,
                            d,
                        ) || (d == did && !fits)) by {
                        if is_misfit(a.program, sigs, start, i as int, d) {
                            let k = choose|k: int|
                                start <= k < i && (#[trigger] order[k]).def_id() == d && !fits_sig(
                                    a.program,
                                    sigs,
                                    k,
                                );
                            assert(order[k].def_id() == d);
                        }
                    }
                    assert forall|k: int|
                        #![trigger self.a.infos@[k]]
                        0 <= k < i implies self.a.is_failed(k) == was.is_failed(k) by {
                        assert(self.a.infos@[k] == was.infos@[k]);
                        assert(order[k] != order[i as int]);
                    }
                    assert(self.a.infos@ =~= a.infos@ + Seq::new(
                        (self.a.infos@.len() - start) as nat,
                        |k: int| None,
                    ));
                }
            }
        }
        if !found {
            return None;
        }
        let i = self.a.infos.len();
        let did = self.a.program.order[i].to_def_id();
        assert(has_sigs(self.a.program, self.a.gacx));
        let acx = label_function(&mut self.a.gacx, did, &self.a.program.bodies[i]);
        proof {
            law_function_fits(
                a.program.bodies@[i as int],
                a.gacx.fn_sigs@[did]@,
                self.a.gacx.ptr_info@.len(),
                acx,
            );
        }
        self.pending.set(acx);
        Some(i)
    }

    /// Keeps the constraints and the latest writes of the current function, or gives it up.
    pub fn generated(&mut self, result: Result<(C, R), PanicDetail>)
        requires
            old(self).wf(),
            old(self).pending.is_set(),
        ensures
            final(self).wf(),
            !final(self).pending.is_set(),
            final(self).a.program == old(self).a.program,
            final(self).a.gacx.infos() == old(self).a.gacx.infos(),
            final(self).a.gacx.fn_sigs == old(self).a.gacx.fn_sigs,
            final(self).a.gacx.static_tys == old(self).a.gacx.static_tys,
            final(self).a.gacx.addr_of_static == old(self).a.gacx.addr_of_static,
            final(self).a.gacx.field_ltys == old(self).a.gacx.field_ltys,
            final(self).a.infos@.len() == old(self).a.infos@.len() + 1,
            final(self).a.infos@.drop_last() == old(self).a.infos@,
            match result {
                Ok((constraints, writes)) => {
                    &&& final(self).a.gacx == old(self).a.gacx
                    &&& final(self).a.infos@.last() matches Some(info) && {
                        &&& info.acx_data@ == old(self).pending@
                        &&& info.pointee_constraints@ == Some(constraints)
                        &&& info.recent_writes@ == Some(writes)
                        &&& info.local_pointee_types@ matches Some(types) && pointees(types@)
                            == no_pointees(old(self).pending@->Some_0.ptr_info@.len())
                        &&& !info.dataflow.is_set()
                        &&& !info.local_equiv.is_set()
                        &&& !info.lasn.is_set()
                    }
                },
                Err(detail) => {
                    &&& final(self).a.infos@.last() is None
                    &&& final(self).a.gacx.fns_failed@ == with_failure(
                        old(self).a.gacx.fns_failed@,
                        old(self).a.program.did(old(self).a.infos@.len() as int),
                        detail,
                    )
                },
            },
    {
        let ghost a = self.a;
        let i = self.a.infos.len();
        let acx = self.pending.take();
        match result {
            Ok((constraints, writes)) => {
                let n = acx.ptr_info.values.len();
                let types = LocalPointerTable { values: unknown_types(n) };
                let mut info: FuncInfo<D, E, C, R> = FuncInfo {
                    acx_data: MaybeUnset::default(),
                    dataflow: MaybeUnset::default(),
                    local_equiv: MaybeUnset::default(),
                    lasn: MaybeUnset::default(),
                    pointee_constraints: MaybeUnset::default(),
                    local_pointee_types: MaybeUnset::default(),
                    recent_writes: MaybeUnset::default(),
                };
                info.acx_data.set(acx);
                info.pointee_constraints.set(constraints);
                info.local_pointee_types.set(types);
                info.recent_writes.set(writes);
                self.a.infos.push(Some(info));
            },
            Err(detail) => {
                let did = self.a.program.order[i].to_def_id();
                self.a.gacx.mark_fn_failed(did, detail);
                self.a.infos.push(None);
                proof {
                    assert forall|k: int|
                        #![trigger self.a.infos@[k]]
                        0 <= k < i implies self.a.is_failed(k) == a.is_failed(k) by {
                        assert(a.infos@[k] == self.a.infos@[k]);
                        assert(a.program.order@[k] != a.program.order@[i as int]);
                    }
                }
            },
        }
        assert(self.a.infos@.drop_last() =~= a.infos@);
        assert forall|k: int|
            #![trigger self.a.infos@[k]]
            0 <= k < i implies self.a.infos@[k] == a.infos@[k] by {
            assert(self.a.infos@.drop_last()[k] == self.a.infos@[k]);
        }
    }
}

/// The functions that are passed over are given up exactly if an argument has no type in the
/// signature, with that reason. All that was given up before stays so.
pub proof fn law_misfits(
    program: Program,
    sigs: Map<DefId, LFnSig>,
    before: Failures,
    after: Failures,
    from: int,
    to: int,
    k: int,
    d: DefId,
)
    requires
        misfits_given_up(program, sigs, before, after, from, to),
    ensures
        from <= k < to && !body_fits(
            program.bodies@[k],
            sigs[DefId { krate: 0, index: program.order@[k].index }]@,
        ) ==> after.contains_key(DefId { krate: 0, index: program.order@[k].index }),
        before.contains_key(d) ==> after.contains_key(d) && after[d] == before[d],
        after.contains_key(d) && !before.contains_key(d) ==> after[d].short@
            == "argument without a type in the signature"@ && !after[d].has_backtrace && exists|
            n: int,
        |
            from <= n < to && (#[trigger] program.order@[n]).def_id() == d && !body_fits(
                program.bodies@[n],
                sigs[d]@,
            ),
{
    if from <= k < to && !fits_sig(program, sigs, k) {
        let did = program.order@[k].def_id();
        assert(is_misfit(program, sigs, from, to, did));
        assert(after.contains_key(did));
    }
    if after.contains_key(d) && !before.contains_key(d) {
        assert(is_misfit(program, sigs, from, to, d));
        let n = choose|n: int|
            from <= n < to && (#[trigger] program.order@[n]).def_id() == d && !fits_sig(
                program,
                sigs,
                n,
            );
        assert(program.did(n) == d);
        assert(!body_fits(program.bodies@[n], sigs[d]@));
    }
}

/// The next function to be labeled was not given up, and its body fits its signature. On the way to
/// it there are only functions that were given up or do not fit.
pub proof fn law_next_function(
    program: Program,
    sigs: Map<DefId, LFnSig>,
    failed: Failures,
    from: int,
    k: int,
)
    requires
        0 <= from <= program.len(),
    ensures
        ({
            let i = labelable_from(program, sigs, failed, from);
            let did = |n: int| DefId { krate: 0, index: program.order@[n].index };
            &&& from <= i <= program.order@.len()
            &&& i < program.order@.len() ==> !failed.contains_key(did(i)) && body_fits(
                program.bodies@[i],
                sigs[did(i)]@,
            )
            &&& from <= k < i ==> failed.contains_key(did(k)) || !body_fits(
                program.bodies@[k],
                sigs[did(k)]@,
            )
        }),
{
    law_next_labelable(program, sigs, failed, from);
    let i = labelable_from(program, sigs, failed, from);
    if from <= k < i {
        assert(program.order@[k].def_id() == program.did(k));
        assert(failed.contains_key(program.order@[k].def_id()) || !fits_sig(program, sigs, k));
    }
}

/// A fresh function is labeled, and has nothing yet that a later pass finds.
pub proof fn law_fresh_functions<D, E, C, R>(info: FuncInfo<D, E, C, R>, globals: nat)
    ensures
        is_fresh(info, globals) <==> info.is_labeled(globals) && !info.dataflow.is_set()
            && !info.local_equiv.is_set() && !info.lasn.is_set(),
{
}

} // verus!
