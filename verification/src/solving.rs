//! The second pass: works out what pointers point to, until nothing changes any more.
use crate::analysis::{law_next_live, live_from, next_live, Analysis, FuncInfo};
use crate::constraining::{is_fresh, Constraining};
use crate::pointee::{
    clear_incomplete, completed, duplicate_types, no_pointees, pointees, same_types,
    unknown_types, PointeeTypes,
};
use crate::pointer_id::{GlobalPointerTable, LocalPointerTable};
use vstd::prelude::*;

verus! {

/// The largest number of rounds. No more are needed than there are functions on the longest path
/// through the callgraph that comes to no function twice.
pub const MAX_ROUNDS: usize = 1000;

/// The pass goes over all functions in rounds. What is found in one function can change the shared
/// types, and so what is found in others.
pub struct Solving<D, E, C, R> {
    pub a: Analysis<D, E, C, R>,
    /// The types that the shared pointers point to.
    pub types: GlobalPointerTable<PointeeTypes>,
    /// The shared types as they were when the round began.
    pub before: Vec<PointeeTypes>,
    /// The number of the round.
    pub round: usize,
    /// The position of the function that comes next.
    pub at: usize,
}

/// What to do next.
#[derive(Clone, Copy, Debug, PartialEq, Eq, Structural)]
pub enum SolveStep {
    /// Solve the constraints of the function at this position.
    Function(usize),
    /// A new round begins.
    NewRound,
    /// Nothing changed in the last round.
    Finished,
    /// There were more rounds than there can be.
    TooManyRounds,
}

/// All functions have fresh slots, or were given up.
pub open spec fn all_fresh<D, E, C, R>(a: Analysis<D, E, C, R>) -> bool {
    &&& a.wf()
    &&& a.infos@.len() == a.program.len()
    &&& forall|i: int|
        #![trigger a.infos@[i]]
        0 <= i < a.infos@.len() ==> (a.infos@[i] is None <==> a.is_failed(i)) && (
        a.infos@[i] matches Some(info) ==> is_fresh(info, a.gacx.ptr_info@.len()))
}

impl<D, E, C, R> Solving<D, E, C, R> {
    /// The tables have an entry for every pointer.
    pub open spec fn wf(&self) -> bool {
        &&& all_fresh(self.a)
        &&& self.types@.len() == self.a.gacx.ptr_info@.len()
        &&& self.before@.len() == self.a.gacx.ptr_info@.len()
        &&& 1 <= self.round <= MAX_ROUNDS
        &&& self.at <= self.a.program.len()
    }

    /// A round begins: the shared types are remembered, and then all of them are marked as
    /// complete.
    pub open spec fn round_begins(&self, types: Seq<PointeeTypes>) -> bool {
        &&& pointees(self.before@) == pointees(types)
        &&& pointees(self.types@) == completed(pointees(types))
        &&& self.at == 0
    }

    /// A round is over, and the shared types are the same as when it began.
    pub open spec fn is_finished(&self) -> bool {
        &&& live_from(self.a.program.order@, self.a.gacx.fns_failed@, self.at as int)
            == self.a.program.len()
        &&& pointees(self.types@) == pointees(self.before@)
    }

    /// Whether the pass is at a function that is to be solved.
    pub open spec fn is_at_function(&self) -> bool {
        self.at < self.a.program.len() && !self.a.is_failed(self.at as int)
    }

    /// Begins the first round, when all functions were labeled. Nothing is known yet of any
    /// pointer.
    pub fn start(c: Constraining<D, E, C, R>) -> (r: Self)
        requires
            c.wf(),
            c.a.infos@.len() == c.a.program.len(),
        ensures
            r.wf(),
            r.a == c.a,
            pointees(r.before@) == no_pointees(c.a.gacx.ptr_info@.len()),
            pointees(r.types@) == no_pointees(c.a.gacx.ptr_info@.len()),
            r.round == 1,
            r.at == 0,
    {
        let n = c.a.gacx.ptr_info.values.len();
        let mut types = unknown_types(n);
        let before = duplicate_types(&types);
        clear_incomplete(&mut types);
        proof {
            let none = no_pointees(n as nat);
            assert(completed(none) =~= none);
            assert(pointees(types@).len() == types@.len());
            assert(pointees(before@).len() == before@.len());
        }
        Solving { a: c.a, types: GlobalPointerTable { values: types }, before, round: 1, at: 0 }
    }

    /// Goes on to the next function. After the last one the pass is finished if the shared types
    /// are the same as at the beginning of the round; if they are not, a new round begins, unless
    /// there were too many.
    pub fn next(&mut self) -> (r: SolveStep)
        requires
            old(self).wf(),
        ensures
            final(self).wf(),
            final(self).a == old(self).a,
            ({
                let was = old(self);
                let i = live_from(
                    was.a.program.order@,
                    was.a.gacx.fns_failed@,
                    was.at as int,
                );
                let same = pointees(was.types@) == pointees(was.before@);
                match r {
                    SolveStep::Function(k) => {
                        &&& k == i
                        &&& i < was.a.program.len()
                        &&& final(self).at == k
                        &&& final(self).is_at_function()
                        &&& final(self).types == was.types
                        &&& final(self).before == was.before
                        &&& final(self).round == was.round
                    },
                    SolveStep::Finished => {
                        &&& i == was.a.program.len()
                        &&& same
                        &&& *final(self) == *old(self)
                        &&& final(self).is_finished()
                    },
                    SolveStep::NewRound => {
                        &&& i == was.a.program.len()
                        &&& !same
                        &&& was.round < MAX_ROUNDS
                        &&& final(self).round == was.round + 1
                        &&& final(self).round_begins(was.types@)
                    },
                    SolveStep::TooManyRounds => {
                        &&& i == was.a.program.len()
                        &&& !same
                        &&& was.round == MAX_ROUNDS
                        &&& *final(self) == *old(self)
                    },
                }
            }),
    {
        let i = next_live(&self.a.program.order, &self.a.gacx, self.at);
        proof {
            law_next_live(
                self.a.program.order@,
                self.a.gacx.fns_failed@,
                self.at as int,
            );
        }
        if i < self.a.program.order.len() {
            self.at = i;
            return SolveStep::Function(i);
        }
        if same_types(&self.types.values, &self.before) {
            return SolveStep::Finished;
        }
        if self.round >= MAX_ROUNDS {
            return SolveStep::TooManyRounds;
        }
        let ghost types = self.types@;
        self.before = duplicate_types(&self.types.values);
        clear_incomplete(&mut self.types.values);
        self.round += 1;
        self.at = 0;
        proof {
            assert(pointees(self.before@).len() == self.before@.len());
            assert(pointees(self.types@).len() == self.types@.len());
            assert(pointees(types).len() == types.len());
        }
        SolveStep::NewRound
    }

    /// Keeps the types that were found for the current function, and the shared types.
    pub fn solved(&mut self, global: Vec<PointeeTypes>, local: Vec<PointeeTypes>)
        requires
            old(self).wf(),
            old(self).is_at_function(),
            global@.len() == old(self).types@.len(),
            local@.len() == old(self).a.info(
                old(self).at as int,
            ).local_pointee_types@->Some_0@.len(),
        ensures
            final(self).wf(),
            final(self).types@ == global@,
            final(self).before == old(self).before,
            final(self).round == old(self).round,
            final(self).at == old(self).at + 1,
            types_replaced(old(self).a, final(self).a, old(self).at as int, local@),
    {
        let ghost a = self.a;
        let i = self.at;
        assert(i < self.a.program.order.len());
        self.types = GlobalPointerTable { values: global };
        let mut slot: Option<FuncInfo<D, E, C, R>> = None;
        std::mem::swap(&mut slot, &mut self.a.infos[i]);
        assert(a.infos@[i as int] is Some);
        if let Some(mut info) = slot {
            *info.local_pointee_types.get_mut() = LocalPointerTable { values: local };
            self.a.infos.set(i, Some(info));
        }
        self.at += 1;
        proof {
            assert forall|k: int|
                #![trigger self.a.infos@[k]]
                0 <= k < a.infos@.len() && k != i implies self.a.infos@[k] == a.infos@[k] by {}
            assert forall|k: int|
                #![trigger self.a.infos@[k]]
                0 <= k < a.infos@.len() implies (self.a.infos@[k] is None <==> self.a.is_failed(k))
                && (self.a.infos@[k] matches Some(info) ==> is_fresh(
                info,
                self.a.gacx.ptr_info@.len(),
            )) by {
                assert(a.infos@[k] is None <==> a.is_failed(k));
            }
        }
    }
}

/// `after` is `before` with other pointee types for the function at position `i`.
pub open spec fn types_replaced<D, E, C, R>(
    before: Analysis<D, E, C, R>,
    after: Analysis<D, E, C, R>,
    i: int,
    types: Seq<PointeeTypes>,
) -> bool {
    &&& after.program == before.program
    &&& after.gacx == before.gacx
    &&& after.infos@.len() == before.infos@.len()
    &&& forall|k: int|
        0 <= k < before.infos@.len() && k != i ==> #[trigger] after.infos@[k] == before.infos@[k]
    &&& after.infos@[i] matches Some(info) && {
        &&& info.local_pointee_types@ matches Some(t) && t@ == types
        &&& info.acx_data == before.info(i).acx_data
        &&& info.dataflow == before.info(i).dataflow
        &&& info.local_equiv == before.info(i).local_equiv
        &&& info.lasn == before.info(i).lasn
        &&& info.pointee_constraints == before.info(i).pointee_constraints
        &&& info.recent_writes == before.info(i).recent_writes
    }
}

/// There are at most a thousand rounds. One begins with the first function and with the types that
/// were found, of which none are incomplete.
pub proof fn law_rounds<D, E, C, R>(s: Solving<D, E, C, R>, types: Seq<PointeeTypes>, i: int)
    requires
        s.wf(),
    ensures
        1 <= s.round <= 1000,
        s.round_begins(types) ==> s.at == 0,
        s.round_begins(types) && 0 <= i < types.len() ==> s.types@.len() == types.len()
            && s.before@.len() == types.len() && s.types@[i]@.ltys == types[i]@.ltys
            && !s.types@[i]@.incomplete && s.before@[i]@ == types[i]@,
{
    if s.round_begins(types) && 0 <= i < types.len() {
        let now = pointees(s.types@);
        let then = completed(pointees(types));
        assert(now.len() == then.len());
        assert(now[i] == then[i]);
        assert(pointees(s.before@).len() == pointees(types).len());
        assert(pointees(s.before@)[i] == pointees(types)[i]);
    }
}

/// Solving is finished exactly if no function is left that was not given up, and the round changed
/// nothing that any shared pointer points to.
pub proof fn law_finished<D, E, C, R>(s: Solving<D, E, C, R>, k: int)
    requires
        s.wf(),
    ensures
        s.is_finished() && s.at <= k < s.a.program.order@.len() ==> s.a.gacx.fns_failed@.contains_key(
            s.a.program.order@[k].def_id(),
        ),
        s.is_finished() && 0 <= k < s.types@.len() ==> s.types@[k]@ == s.before@[k]@,
        !s.is_finished() ==> (exists|n: int|
            s.at <= n < s.a.program.order@.len() && !s.a.gacx.fns_failed@.contains_key(
                (#[trigger] s.a.program.order@[n]).def_id(),
            )) || pointees(s.types@) != pointees(s.before@),
{
    let order = s.a.program.order@;
    let failed = s.a.gacx.fns_failed@;
    law_next_live(order, failed, s.at as int);
    let n = live_from(order, failed, s.at as int);
    if s.is_finished() && s.at <= k < order.len() {
        assert(failed.contains_key(order[k].def_id()));
    }
    if s.is_finished() && 0 <= k < s.types@.len() {
        assert(pointees(s.types@)[k] == pointees(s.before@)[k]);
    }
    if n < order.len() {
        assert(!failed.contains_key(order[n].def_id()));
    }
}

/// New types for one function change nothing else of it, and nothing of the others.
pub proof fn law_only_types_are_replaced<D, E, C, R>(
    before: Analysis<D, E, C, R>,
    after: Analysis<D, E, C, R>,
    i: int,
    types: Seq<PointeeTypes>,
    k: int,
)
    requires
        types_replaced(before, after, i, types),
    ensures
        after.program == before.program,
        after.gacx == before.gacx,
        after.infos@.len() == before.infos@.len(),
        0 <= k < before.infos@.len() && k != i ==> after.infos@[k] == before.infos@[k],
        after.infos@[i] is Some,
        ({
            let now = after.info(i);
            let was = before.info(i);
            &&& now.local_pointee_types.is_set()
            &&& now.local_pointee_types@->Some_0@ == types
            &&& now.acx_data == was.acx_data
            &&& now.dataflow == was.dataflow
            &&& now.local_equiv == was.local_equiv
            &&& now.lasn == was.lasn
            &&& now.pointee_constraints == was.pointee_constraints
            &&& now.recent_writes == was.recent_writes
        }),
{
}

/// Before solving, every function that was not given up is labeled and has nothing more, and of
/// those that were there is nothing.
pub proof fn law_all_fresh<D, E, C, R>(a: Analysis<D, E, C, R>, i: int)
    requires
        all_fresh(a),
        0 <= i < a.program.order@.len(),
    ensures
        a.infos@.len() == a.program.order@.len(),
        a.infos@[i] is None <==> a.is_failed(i),
        a.infos@[i] is Some ==> is_fresh(a.info(i), a.gacx.ptr_info@.len()),
{
}

/// The pass is at a function exactly if one is left, and it was not given up.
pub proof fn law_at_function<D, E, C, R>(s: Solving<D, E, C, R>)
    ensures
        s.is_at_function() <==> s.at < s.a.program.order@.len()
            && !s.a.gacx.fns_failed@.contains_key(s.a.program.order@[s.at as int].def_id()),
{
}

} // verus!
