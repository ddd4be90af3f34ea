//! The fourth pass: gives the pointers of each equivalence class the same number.
use crate::analysis::{law_next_live, live_from, next_live, others_kept, Analysis, FuncInfo};
use crate::constraining::is_fresh;
use crate::flags::PointerInfo;
use crate::function::body_rooted;
use crate::gathering::{gathered_to, is_gathered, Gathering};
use crate::pointee::PointeeTypes;
use crate::pointer_id::{GlobalPointerTable, LocalPointerTable, PointerId};
use crate::program::has_sigs;
use crate::remap::{
    globals_renumbered, locals_renumbered, numbers_within, remap_globals, remap_locals,
    renumbered_sig,
};
use crate::ty::AssignPointerIds;
use vstd::prelude::*;

verus! {

/// The global pointers have their new numbers. The pass is at the function at position `at`.
pub struct Remapping<D, E, C, R> {
    pub a: Analysis<D, E, C, R>,
    /// The types that the shared pointers point to.
    pub types: GlobalPointerTable<PointeeTypes>,
    /// The new number of each global pointer.
    pub map: GlobalPointerTable<PointerId>,
    pub at: usize,
}

/// The new numbers of the pointers of a function, and what goes with them.
pub struct LocalNumbers<D> {
    /// The new number of each pointer of the function. It can become a global pointer.
    pub map: Vec<PointerId>,
    /// What is known of the pointers of the function.
    pub ptr_info: Vec<PointerInfo>,
    /// What is known of the global pointers, as some of the function may have become global.
    pub global_ptr_info: Vec<PointerInfo>,
    /// What the pointers of the function point to.
    pub types: Vec<PointeeTypes>,
    /// What the global pointers point to.
    pub global_types: Vec<PointeeTypes>,
    /// How pointers flow through the function.
    pub dataflow: D,
}

/// The slots of a function after this pass.
pub open spec fn is_remapped<D, E, C, R>(info: FuncInfo<D, E, C, R>, globals: nat) -> bool {
    &&& info.is_labeled(globals)
    &&& info.dataflow.is_set()
    &&& !info.local_equiv.is_set()
    &&& !info.lasn.is_set()
}

/// What there is about the function at position `i`, where the pass is at position `at`. The
/// functions that were given up, and those that are still to come, have the old numbers, of which
/// there were `olds`.
pub open spec fn remapped_to<D, E, C, R>(
    a: Analysis<D, E, C, R>,
    olds: nat,
    at: int,
    i: int,
) -> bool {
    match a.infos@[i] {
        None => a.is_failed(i),
        Some(info) => if a.is_failed(i) {
            is_fresh(info, olds)
        } else if i < at {
            is_remapped(info, a.gacx.ptr_info@.len())
        } else {
            is_gathered(info, olds)
        },
    }
}

impl<D, E, C, R> Remapping<D, E, C, R> {
    /// There is something about every function that was not given up, and the tables have an entry
    /// for every pointer.
    pub open spec fn wf(&self) -> bool {
        let globals = self.a.gacx.ptr_info@.len();
        &&& self.a.wf()
        &&& self.a.infos@.len() == self.a.program.len()
        &&& self.at <= self.a.program.len()
        &&& self.types@.len() == globals
        &&& numbers_within(self.map@, globals, 0)
        &&& forall|i: int|
            #![trigger self.a.infos@[i]]
            0 <= i < self.a.infos@.len() ==> remapped_to(
                self.a,
                self.map@.len(),
                self.at as int,
                i,
            )
    }

    /// Whether the pass is at a function that was not given up.
    pub open spec fn is_at_function(&self) -> bool {
        self.at < self.a.program.len() && !self.a.is_failed(self.at as int)
    }

    /// Renumbers the global pointers, when all equivalence classes are known, and begins with the
    /// first function. `infos` and `types` are for the new numbers.
    pub fn start(
        g: Gathering<D, E, C, R>,
        map: Vec<PointerId>,
        infos: Vec<PointerInfo>,
        types: Vec<PointeeTypes>,
    ) -> (r: Self)
        requires
            g.wf(),
            g.at == g.a.program.len(),
            map@.len() == g.a.gacx.ptr_info@.len(),
            numbers_within(map@, infos@.len(), 0),
            types@.len() == infos@.len(),
        ensures
            r.wf(),
            r.a.program == g.a.program,
            r.a.infos == g.a.infos,
            globals_renumbered(g.a.gacx, r.a.gacx, map@, infos@),
            r.types@ == types@,
            r.map@ == map@,
            r.at == 0,
    {
        let ghost a = g.a;
        let mut g = g;
        let map = GlobalPointerTable { values: map };
        remap_globals(&mut g.a.gacx, &map, infos);
        proof {
            assert forall|i: int| 0 <= i < a.program.order@.len() implies {
                &&& g.a.gacx.fn_sigs@.contains_key((#[trigger] a.program.order@[i]).def_id())
                &&& body_rooted(
                    a.program.bodies@[i],
                    g.a.gacx.fn_sigs@[a.program.order@[i].def_id()]@,
                )
            } by {
                let d = a.program.order@[i].def_id();
                assert(a.gacx.fn_sigs@.contains_key(d));
                assert(g.a.gacx.fn_sigs@.dom().contains(d));
                let sig = a.gacx.fn_sigs@[d]@;
                let new_sig = renumbered_sig(sig, map@);
                assert(g.a.gacx.fn_sigs@[d]@ == new_sig);
                assert forall|k: int| 0 <= k < new_sig.inputs.len() implies (
                #[trigger] new_sig.inputs[k]).len() > 0 by {
                    assert(sig.inputs[k].len() > 0);
                }
            }
            assert forall|i: int|
                #![trigger g.a.infos@[i]]
                0 <= i < g.a.infos@.len() implies remapped_to(g.a, map@.len(), 0, i) by {
                assert(gathered_to(a, map@.len(), a.program.len() as int, i)) by {
                    assert(a.infos@[i] == a.infos@[i]);
                }
            }
        }
        Remapping { a: g.a, types: GlobalPointerTable { values: types }, map, at: 0 }
    }

    /// Goes on to the next function. The result is `None` after the last one.
    pub fn next(&mut self) -> (r: Option<usize>)
        requires
            old(self).wf(),
        ensures
            final(self).wf(),
            final(self).a == old(self).a,
            final(self).types == old(self).types,
            final(self).map == old(self).map,
            final(self).at == live_from(
                old(self).a.program.order@,
                old(self).a.gacx.fns_failed@,
                old(self).at as int,
            ),
            match r {
                Some(i) => i == final(self).at && final(self).is_at_function(),
                None => final(self).at == final(self).a.program.len(),
            },
    {
        let i = next_live(&self.a.program.order, &self.a.gacx, self.at);
        proof {
            law_next_live(
                self.a.program.order@,
                self.a.gacx.fns_failed@,
                self.at as int,
            );
            assert forall|k: int|
                #![trigger self.a.infos@[k]]
                0 <= k < self.a.infos@.len() implies remapped_to(
                self.a,
                self.map@.len(),
                i as int,
                k,
            ) by {
                assert(remapped_to(self.a, self.map@.len(), self.at as int, k));
                if self.at <= k < i {
                    assert(self.a.gacx.fns_failed@.contains_key(
                        self.a.program.order@[k].def_id(),
                    ));
                }
            }
        }
        self.at = i;
        if i < self.a.program.order.len() {
            Some(i)
        } else {
            None
        }
    }

    /// Renumbers the pointers of the current function. Its equivalence classes are not needed any
    /// more.
    pub fn remapped(&mut self, numbers: LocalNumbers<D>)
        requires
            old(self).wf(),
            old(self).is_at_function(),
            ({
                let globals = old(self).a.gacx.ptr_info@.len();
                let acx = old(self).a.info(old(self).at as int).acx_data@->Some_0;
                &&& numbers.map@.len() == acx.ptr_info@.len()
                &&& numbers_within(numbers.map@, globals, numbers.ptr_info@.len())
                &&& numbers.types@.len() == numbers.ptr_info@.len()
                &&& numbers.global_ptr_info@.len() == globals
                &&& numbers.global_types@.len() == globals
            }),
        ensures
            final(self).wf(),
            final(self).at == old(self).at + 1,
            final(self).map == old(self).map,
            final(self).types@ == numbers.global_types@,
            others_kept(old(self).a, final(self).a, old(self).at as int),
            final(self).a.gacx.ptr_info@ == numbers.global_ptr_info@,
            final(self).a.gacx.others() == old(self).a.gacx.others(),
            ({
                let was = old(self).a.info(old(self).at as int);
                &&& final(self).a.infos@[old(self).at as int] matches Some(info) && {
                    &&& info.acx_data@ matches Some(acx) && locals_renumbered(
                        was.acx_data@->Some_0,
                        acx,
                        old(self).map@,
                        numbers.map@,
                        numbers.ptr_info@,
                    )
                    &&& info.dataflow@ == Some(numbers.dataflow)
                    &&& !info.local_equiv.is_set()
                    &&& info.local_pointee_types@ matches Some(types) && types@
                        == numbers.types@
                    &&& info.lasn == was.lasn
                    &&& info.pointee_constraints == was.pointee_constraints
                    &&& info.recent_writes == was.recent_writes
                }
            }),
    {
        let ghost a = self.a;
        let ghost olds = self.map@.len();
        let ghost globals = self.a.gacx.ptr_info@.len();
        let i = self.at;
        assert(i < self.a.program.order.len());
        assert(remapped_to(a, olds, i as int, i as int)) by {
            assert(a.infos@[i as int] == a.infos@[i as int]);
        }
        let mut slot: Option<FuncInfo<D, E, C, R>> = None;
        std::mem::swap(&mut slot, &mut self.a.infos[i]);
        if let Some(mut info) = slot {
            let local_map = LocalPointerTable { values: numbers.map };
            let mut acx = info.acx_data.take();
            let n_globals = self.a.gacx.ptr_info.values.len();
            remap_locals(&mut acx, &self.map, &local_map, numbers.ptr_info, n_globals);
            info.acx_data.set(acx);
            *info.local_pointee_types.get_mut() = LocalPointerTable { values: numbers.types };
            *info.dataflow.get_mut() = numbers.dataflow;
            info.local_equiv.clear();
            self.a.infos.set(i, Some(info));
        }
        self.a.gacx.ptr_info = GlobalPointerTable { values: numbers.global_ptr_info };
        self.types = GlobalPointerTable { values: numbers.global_types };
        self.at += 1;
        proof {
            assert forall|k: int|
                #![trigger self.a.infos@[k]]
                0 <= k < a.infos@.len() implies remapped_to(self.a, olds, self.at as int, k) by {
                assert(remapped_to(a, olds, i as int, k)) by {
                    assert(a.infos@[k] == a.infos@[k]);
                }
                if k != i {
                    assert(self.a.infos@[k] == a.infos@[k]);
                }
            }
            assert(has_sigs(self.a.program, self.a.gacx)) by {
                assert(has_sigs(a.program, a.gacx));
            }
        }
    }
}

/// A function is remapped exactly if it is labeled and has constraints on the flow of pointers, but
/// no classes of pointers any more and no permissions yet. It comes to that when it was passed and
/// not given up.
pub proof fn law_remapped_functions<D, E, C, R>(
    a: Analysis<D, E, C, R>,
    info: FuncInfo<D, E, C, R>,
    olds: nat,
    at: int,
    i: int,
)
    ensures
        is_remapped(info, olds) <==> info.is_labeled(olds) && info.dataflow.is_set()
            && !info.local_equiv.is_set() && !info.lasn.is_set(),
        remapped_to(a, olds, at, i) && a.infos@[i] == Some(info) && i < at && !a.is_failed(i)
            ==> is_remapped(info, a.gacx.ptr_info@.len()),
        remapped_to(a, olds, at, i) && a.infos@[i] == Some(info) && i >= at && !a.is_failed(i)
            ==> is_gathered(info, olds),
        remapped_to(a, olds, at, i) && a.infos@[i] is None ==> a.is_failed(i),
{
}

/// The pass is at a function exactly if one is left, and it was not given up.
pub proof fn law_at_function<D, E, C, R>(s: Remapping<D, E, C, R>)
    ensures
        s.is_at_function() <==> s.at < s.a.program.order@.len()
            && !s.a.gacx.fns_failed@.contains_key(s.a.program.order@[s.at as int].def_id()),
{
}

} // verus!
