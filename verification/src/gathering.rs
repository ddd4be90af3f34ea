//! The third pass: gathers how pointers flow through the functions.
use crate::analysis::{
    labels_kept, law_next_live, live_from, next_live, others_kept, with_failure, Analysis,
    FuncInfo,
};
use crate::constraining::is_fresh;
use crate::context::PanicDetail;
use crate::pointee::PointeeTypes;
use crate::pointer_id::GlobalPointerTable;
use crate::solving::Solving;
use vstd::prelude::*;

verus! {

/// The pass is at the function at position `at`.
pub struct Gathering<D, E, C, R> {
    pub a: Analysis<D, E, C, R>,
    /// The types that the shared pointers point to.
    pub types: GlobalPointerTable<PointeeTypes>,
    pub at: usize,
}

/// The slots of a function after this pass.
pub open spec fn is_gathered<D, E, C, R>(info: FuncInfo<D, E, C, R>, globals: nat) -> bool {
    &&& info.is_labeled(globals)
    &&& info.dataflow.is_set()
    &&& info.local_equiv.is_set()
    &&& !info.lasn.is_set()
}

/// What there is about the function at position `i`, where the pass is at position `at`: the slots
/// of functions that were given up, and of those that are still to come, are fresh.
pub open spec fn gathered_to<D, E, C, R>(
    a: Analysis<D, E, C, R>,
    globals: nat,
    at: int,
    i: int,
) -> bool {
    match a.infos@[i] {
        None => a.is_failed(i),
        Some(info) => if i < at && !a.is_failed(i) {
            is_gathered(info, globals)
        } else {
            is_fresh(info, globals)
        },
    }
}

impl<D, E, C, R> Gathering<D, E, C, R> {
    /// There is something about every function that was not given up, and the table has an entry
    /// for every pointer.
    pub open spec fn wf(&self) -> bool {
        let globals = self.a.gacx.ptr_info@.len();
        &&& self.a.wf()
        &&& self.a.infos@.len() == self.a.program.len()
        &&& self.at <= self.a.program.len()
        &&& self.types@.len() == globals
        &&& forall|i: int|
            #![trigger self.a.infos@[i]]
            0 <= i < self.a.infos@.len() ==> gathered_to(self.a, globals, self.at as int, i)
    }

    /// Whether the pass is at a function that was not given up.
    pub open spec fn is_at_function(&self) -> bool {
        self.at < self.a.program.len() && !self.a.is_failed(self.at as int)
    }

    /// Begins with the first function, when the pointee types are known.
    pub fn start(s: Solving<D, E, C, R>) -> (r: Self)
        requires
            s.wf(),
            s.is_finished(),
        ensures
            r.wf(),
            r.a == s.a,
            r.types == s.types,
            r.at == 0,
    {
        Gathering { a: s.a, types: s.types, at: 0 }
    }

    /// Goes on to the next function. The result is `None` after the last one.
    pub fn next(&mut self) -> (r: Option<usize>)
        requires
            old(self).wf(),
        ensures
            final(self).wf(),
            final(self).a == old(self).a,
            final(self).types == old(self).types,
            final(self).at == live_from(
                old(self).a.program.order@,
                old(self).a.gacx.fns_failed@,
                old(self).at as int,
            ),
            match r {
                Some(i) => i == final(self).at && final(self).is_at_function(),
                None => final(self).at == final(self).a.program.len(),
            },
    {
        let i = next_live(&self.a.program.order, &self.a.gacx, self.at);
        proof {
            law_next_live(
                self.a.program.order@,
                self.a.gacx.fns_failed@,
                self.at as int,
            );
            assert forall|k: int|
                #![trigger self.a.infos@[k]]
                0 <= k < self.a.infos@.len() implies gathered_to(
                self.a,
                self.a.gacx.ptr_info@.len(),
                i as int,
                k,
            ) by {
                assert(gathered_to(self.a, self.a.gacx.ptr_info@.len(), self.at as int, k));
                if self.at <= k < i {
                    assert(self.a.gacx.fns_failed@.contains_key(
                        self.a.program.order@[k].def_id(),
                    ));
                }
            }
        }
        self.at = i;
        if i < self.a.program.order.len() {
            Some(i)
        } else {
            None
        }
    }

    /// Keeps the flow of pointers and the equivalence classes of the current function, or gives it
    /// up. The labels of a function that is given up stay.
    pub fn gathered(&mut self, result: Result<(D, E), PanicDetail>)
        requires
            old(self).wf(),
            old(self).is_at_function(),
        ensures
            final(self).wf(),
            final(self).types == old(self).types,
            final(self).at == old(self).at + 1,
            others_kept(old(self).a, final(self).a, old(self).at as int),
            labels_kept(old(self).a.gacx, final(self).a.gacx),
            match result {
                Ok((dataflow, equiv)) => {
                    let was = old(self).a.info(old(self).at as int);
                    &&& final(self).a.gacx == old(self).a.gacx
                    &&& final(self).a.infos@[old(self).at as int] matches Some(info) && {
                        &&& info.dataflow@ == Some(dataflow)
                        &&& info.local_equiv@ == Some(equiv)
                        &&& info.acx_data == was.acx_data
                        &&& info.lasn == was.lasn
                        &&& info.pointee_constraints == was.pointee_constraints
                        &&& info.local_pointee_types == was.local_pointee_types
                        &&& info.recent_writes == was.recent_writes
                    }
                },
                Err(detail) => {
                    &&& final(self).a.infos == old(self).a.infos
                    &&& final(self).a.gacx.fns_failed@ == with_failure(
                        old(self).a.gacx.fns_failed@,
                        old(self).a.program.did(old(self).at as int),
                        detail,
                    )
                },
            },
    {
        let ghost a = self.a;
        let ghost globals = self.a.gacx.ptr_info@.len();
        let i = self.at;
        assert(i < self.a.program.order.len());
        assert(gathered_to(a, globals, i as int, i as int)) by {
            assert(a.infos@[i as int] == a.infos@[i as int]);
        }
        match result {
            Ok((dataflow, equiv)) => {
                let mut slot: Option<FuncInfo<D, E, C, R>> = None;
                std::mem::swap(&mut slot, &mut self.a.infos[i]);
                if let Some(mut info) = slot {
                    info.dataflow.set(dataflow);
                    info.local_equiv.set(equiv);
                    self.a.infos.set(i, Some(info));
                }
            },
            Err(detail) => {
                let did = self.a.program.order[i].to_def_id();
                self.a.gacx.mark_fn_failed(did, detail);
            },
        }
        self.at += 1;
        proof {
            assert forall|k: int|
                #![trigger self.a.infos@[k]]
                0 <= k < a.infos@.len() implies gathered_to(self.a, globals, self.at as int, k) by {
                assert(gathered_to(a, globals, i as int, k)) by {
                    assert(a.infos@[k] == a.infos@[k]);
                }
                if k != i {
                    assert(self.a.infos@[k] == a.infos@[k]);
                    assert(a.program.order@[k] != a.program.order@[i as int]);
                }
            }
        }
    }
}

/// A function is gathered exactly if it is labeled, and has constraints on the flow of pointers and
/// classes of pointers, but no permissions yet. It comes to that when it was passed and not given
/// up.
pub proof fn law_gathered_functions<D, E, C, R>(
    a: Analysis<D, E, C, R>,
    info: FuncInfo<D, E, C, R>,
    globals: nat,
    at: int,
    i: int,
)
    ensures
        is_gathered(info, globals) <==> info.is_labeled(globals) && info.dataflow.is_set()
            && info.local_equiv.is_set() && !info.lasn.is_set(),
        gathered_to(a, globals, at, i) && a.infos@[i] == Some(info) && i < at && !a.is_failed(i)
            ==> is_gathered(info, globals),
        gathered_to(a, globals, at, i) && a.infos@[i] == Some(info) && (i >= at || a.is_failed(i))
            ==> is_fresh(info, globals),
        gathered_to(a, globals, at, i) && a.infos@[i] is None ==> a.is_failed(i),
{
}

/// The pass is at a function exactly if one is left, and it was not given up.
pub proof fn law_at_function<D, E, C, R>(s: Gathering<D, E, C, R>)
    ensures
        s.is_at_function() <==> s.at < s.a.program.order@.len()
            && !s.a.gacx.fns_failed@.contains_key(s.a.program.order@[s.at as int].def_id()),
{
}

} // verus!
