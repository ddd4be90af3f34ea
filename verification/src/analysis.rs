//! The state of an analysis that its passes share.
use crate::assignment::LocalAssignment;
use crate::context::{AnalysisCtxtData, GlobalAnalysisCtxt, PanicDetail};
use crate::def_id::{DefId, LocalDefId};
use crate::maybe_unset::MaybeUnset;
use crate::pointee::PointeeTypes;
use crate::pointer_id::LocalPointerTable;
use crate::program::{has_sigs, FnAttrs, Program};
use vstd::prelude::*;

verus! {

/// What is known about a single function. Many tables have a part that all functions share and a
/// part for each function; here are the latter. The passes set, use and clear the slots.
///
/// `D` are constraints on the flow of pointers, `E` classes of pointers that must get the same
/// type, `C` constraints on pointee types, and `R` the table of the latest writes to each local.
pub struct FuncInfo<D, E, C, R> {
    /// The labels of the function. Together with the shared part, they give the context of the
    /// function.
    pub acx_data: MaybeUnset<AnalysisCtxtData>,
    /// How pointers flow through the function, for propagating permissions.
    pub dataflow: MaybeUnset<D>,
    /// The local part of the equivalence classes of pointers, for giving the pointers of a class
    /// the same number.
    pub local_equiv: MaybeUnset<E>,
    /// The local part of the permissions and flags.
    pub lasn: MaybeUnset<LocalAssignment>,
    /// What the body says about pointee types.
    pub pointee_constraints: MaybeUnset<C>,
    /// The local part of the pointee types.
    pub local_pointee_types: MaybeUnset<LocalPointerTable<PointeeTypes>>,
    /// The latest write to each local.
    pub recent_writes: MaybeUnset<R>,
}

/// The program, what is known about all of it, and what is known about each function. There is
/// nothing about a function whose analysis was given up early.
pub struct Analysis<D, E, C, R> {
    pub program: Program,
    pub gacx: GlobalAnalysisCtxt,
    pub infos: Vec<Option<FuncInfo<D, E, C, R>>>,
}

/// The functions whose analysis was given up.
pub type Failures = Map<DefId, PanicDetail>;

/// The failures after the analysis of `did` was given up because of `detail`. An earlier reason
/// stays.
pub open spec fn with_failure(failed: Failures, did: DefId, detail: PanicDetail) -> Failures {
    if failed.contains_key(did) {
        failed
    } else {
        failed.insert(did, detail)
    }
}

/// The position of the first function from `from` on whose analysis was not given up.
pub open spec fn live_from(order: Seq<LocalDefId>, failed: Failures, from: int) -> int
    decreases order.len() - from,
{
    if from >= order.len() {
        order.len() as int
    } else if failed.contains_key(order[from].def_id()) {
        live_from(order, failed, from + 1)
    } else {
        from
    }
}

/// Finds the first function from `from` on whose analysis was not given up.
pub fn next_live(order: &Vec<LocalDefId>, gacx: &GlobalAnalysisCtxt, from: usize) -> (r: usize)
    requires
        from <= order@.len(),
    ensures
        r == live_from(order@, gacx.fns_failed@, from as int),
        from <= r <= order@.len(),
{
    let mut i = from;
    while i < order.len() && gacx.fn_failed(order[i].to_def_id())
        invariant
            from <= i <= order@.len(),
            live_from(order@, gacx.fns_failed@, i as int) == live_from(
                order@,
                gacx.fns_failed@,
                from as int,
            ),
        decreases order@.len() - i,
    {
        i += 1;
    }
    i
}

/// A pass comes to every function whose analysis was not given up, in order: none between where it
/// is and where it goes next is left out, and where it goes next is not given up.
pub proof fn law_next_live(order: Seq<LocalDefId>, failed: Failures, from: int)
    requires
        0 <= from <= order.len(),
    ensures
        from <= live_from(order, failed, from) <= order.len(),
        forall|i: int|
            from <= i < live_from(order, failed, from) ==> failed.contains_key(
                (#[trigger] order[i]).def_id(),
            ),
        live_from(order, failed, from) < order.len() ==> !failed.contains_key(
            order[live_from(order, failed, from)].def_id(),
        ),
    decreases order.len() - from,
{
    if from < order.len() && failed.contains_key(order[from].def_id()) {
        law_next_live(order, failed, from + 1);
    }
}

/// `after` is `before`, except for what is known about the function at position `i`, and about all
/// of the program.
pub open spec fn others_kept<D, E, C, R>(
    before: Analysis<D, E, C, R>,
    after: Analysis<D, E, C, R>,
    i: int,
) -> bool {
    &&& after.program == before.program
    &&& after.infos@.len() == before.infos@.len()
    &&& forall|k: int|
        0 <= k < before.infos@.len() && k != i ==> #[trigger] after.infos@[k] == before.infos@[k]
}

/// What stays when the analysis of a function is given up.
pub open spec fn labels_kept(before: GlobalAnalysisCtxt, after: GlobalAnalysisCtxt) -> bool {
    &&& after.ptr_info == before.ptr_info
    &&& after.fn_sigs == before.fn_sigs
    &&& after.static_tys == before.static_tys
    &&& after.addr_of_static == before.addr_of_static
    &&& after.field_ltys == before.field_ltys
}

/// Giving up the analysis of a function keeps everything else as it is, and never takes back a
/// failure: the functions that were given up only become more.
pub proof fn law_failures_grow(failed: Failures, did: DefId, detail: PanicDetail)
    ensures
        failed.dom().subset_of(with_failure(failed, did, detail).dom()),
        forall|d: DefId| #[trigger]
            failed.contains_key(d) ==> with_failure(failed, did, detail)[d] == failed[d],
        with_failure(failed, did, detail).contains_key(did),
{
}

impl<D, E, C, R> FuncInfo<D, E, C, R> {
    /// The labels fit a program with `globals` global pointers, and everything that comes with
    /// them is there.
    pub open spec fn is_labeled(&self, globals: nat) -> bool {
        &&& self.acx_data@ matches Some(acx) && acx.fits(globals)
        &&& self.pointee_constraints.is_set()
        &&& self.recent_writes.is_set()
        &&& self.local_pointee_types@ matches Some(types) && types@.len()
            == self.acx_data@->Some_0.ptr_info@.len()
    }
}

impl<D, E, C, R> Analysis<D, E, C, R> {
    /// The program and what is known of it fit together, and all functions that were given up
    /// have signatures.
    pub open spec fn wf(&self) -> bool {
        &&& self.program.wf()
        &&& self.gacx.wf()
        &&& has_sigs(self.program, self.gacx)
        &&& self.gacx.fns_failed@.dom().subset_of(self.gacx.fn_sigs@.dom())
    }

    /// Whether the analysis of the function at position `i` was given up.
    pub open spec fn is_failed(&self, i: int) -> bool {
        self.gacx.fns_failed@.contains_key(self.program.did(i))
    }

    /// What is known about the function at position `i`.
    pub open spec fn info(&self, i: int) -> FuncInfo<D, E, C, R> {
        self.infos@[i]->Some_0
    }
}

/// The points at which functions are given up for testing.
#[derive(Clone, Copy, Debug, PartialEq, Eq, Structural)]
pub enum FailPoint {
    BeforeAnalysis,
    BeforeRewriting,
}

impl FailPoint {
    /// Whether functions with these marks are given up here.
    pub open spec fn takes(self, attrs: FnAttrs) -> bool {
        match self {
            FailPoint::BeforeAnalysis => attrs.fail_before_analysis,
            FailPoint::BeforeRewriting => attrs.fail_before_rewriting,
        }
    }

    /// The reason for giving them up.
    pub open spec fn reason(self) -> Seq<char> {
        match self {
            FailPoint::BeforeAnalysis => "explicit fail_before_analysis for testing"@,
            FailPoint::BeforeRewriting => "explicit fail_before_rewriting for testing"@,
        }
    }
}

/// Whether one of the first `n` functions is `did`, and is given up at `point`.
pub open spec fn is_taken(program: Program, point: FailPoint, n: int, did: DefId) -> bool {
    exists|i: int|
        0 <= i < n && (#[trigger] program.order@[i]).def_id() == did && point.takes(
            program.attrs@[i],
        )
}

/// `after` is `before` with those of the first `n` functions added that are given up at `point`.
pub open spec fn taken_upto(
    before: Failures,
    after: Failures,
    program: Program,
    point: FailPoint,
    n: int,
) -> bool {
    &&& forall|d: DefId| #[trigger]
        after.contains_key(d) <==> before.contains_key(d) || is_taken(program, point, n, d)
    &&& forall|d: DefId| #[trigger] before.contains_key(d) ==> after[d] == before[d]
    &&& forall|d: DefId| #[trigger]
        after.contains_key(d) && !before.contains_key(d) ==> after[d].says(point.reason())
}

/// Giving up marked functions takes back no failure, and gives up no other function.
pub proof fn law_marked_failures(
    before: Failures,
    after: Failures,
    program: Program,
    point: FailPoint,
    i: int,
)
    requires
        program.order@.no_duplicates(),
        taken_upto(before, after, program, point, program.len() as int),
        0 <= i < program.len(),
    ensures
        before.dom().subset_of(after.dom()),
        after.contains_key(program.did(i)) <==> before.contains_key(program.did(i))
            || point.takes(program.attrs@[i]),
{
    assert forall|d: DefId| #[trigger] before.dom().contains(d) implies after.dom().contains(
        d,
    ) by {
        assert(before.contains_key(d));
        assert(after.contains_key(d));
    }
    let did = program.did(i);
    if point.takes(program.attrs@[i]) {
        assert(program.order@[i].def_id() == did);
        assert(is_taken(program, point, program.len() as int, did));
    }
    if is_taken(program, point, program.len() as int, did) {
        let k = choose|k: int|
            0 <= k < program.len() && (#[trigger] program.order@[k]).def_id() == did
                && point.takes(program.attrs@[k]);
        assert(program.order@[k] == program.order@[i]);
    }
}

/// Gives up the functions that are marked for it.
pub fn fail_marked(program: &Program, gacx: &mut GlobalAnalysisCtxt, point: FailPoint)
    requires
        program.attrs@.len() == program.order@.len(),
    ensures
        labels_kept(*old(gacx), *final(gacx)),
        taken_upto(
            old(gacx).fns_failed@,
            final(gacx).fns_failed@,
            *program,
            point,
            program.len() as int,
        ),
{
    let ghost before = gacx.fns_failed@;
    let mut i: usize = 0;
    while i < program.order.len()
        invariant
            i <= program.order@.len(),
            program.attrs@.len() == program.order@.len(),
            labels_kept(*old(gacx), *gacx),
            taken_upto(before, gacx.fns_failed@, *program, point, i as int),
        decreases program.order@.len() - i,
    {
        let ghost now = gacx.fns_failed@;
        let did = program.order[i].to_def_id();
        let attrs = program.attrs[i];
        let takes = match point {
            FailPoint::BeforeAnalysis => attrs.fail_before_analysis,
            FailPoint::BeforeRewriting => attrs.fail_before_rewriting,
        };
        if takes {
            let detail = match point {
                FailPoint::BeforeAnalysis => PanicDetail::new(
                    "explicit fail_before_analysis for testing",
                ),
                FailPoint::BeforeRewriting => PanicDetail::new(
                    "explicit fail_before_rewriting for testing",
                ),
            };
            gacx.mark_fn_failed(did, detail);
        }
        proof {
            assert forall|d: DefId|
                is_taken(*program, point, i + 1, d) <==> #[trigger] is_taken(
                    *program,
                    point,
                    i as int,
                    d,
                ) || (takes && d == did) by {
                if is_taken(*program, point, i as int, d) {
                    let k = choose|k: int|
                        0 <= k < i && (#[trigger] program.order@[k]).def_id() == d && point.takes(
                            program.attrs@[k],
                        );
                    assert(program.order@[k].def_id() == d);
                }
                assert(program.order@[i as int].def_id() == did);
            }
            assert forall|d: DefId| #[trigger]
                gacx.fns_failed@.contains_key(d) <==> before.contains_key(d) || is_taken(
                    *program,
                    point,
                    i + 1,
                    d,
                ) by {
                assert(now.contains_key(d) <==> before.contains_key(d) || is_taken(
                    *program,
                    point,
                    i as int,
                    d,
                ));
            }
            assert forall|d: DefId| #[trigger]
                gacx.fns_failed@.contains_key(d) && !before.contains_key(
                    d,
                ) implies gacx.fns_failed@[d].says(point.reason()) by {
                if now.contains_key(d) {
                    assert(now[d].says(point.reason()));
                }
            }
            assert forall|d: DefId| #[trigger] before.contains_key(d) implies gacx.fns_failed@[d]
                == before[d] by {
                assert(now.contains_key(d));
            }
        }
        i += 1;
    }
}

/// A function that is given up keeps the reason for which it was given up first. All others stay as
/// they are.
pub proof fn law_first_reason_counts(
    failed: Failures,
    did: DefId,
    detail: PanicDetail,
    other: DefId,
)
    ensures
        !failed.contains_key(did) ==> with_failure(failed, did, detail)[did] == detail,
        failed.contains_key(did) ==> with_failure(failed, did, detail)[did] == failed[did],
        other != did ==> (with_failure(failed, did, detail).contains_key(other)
            <==> failed.contains_key(other)),
        other != did && failed.contains_key(other) ==> with_failure(failed, did, detail)[other]
            == failed[other],
{
}

/// What is left alone, where one function changes: all other functions, and the labels that the
/// functions share.
pub proof fn law_left_alone<D, E, C, R>(
    before: Analysis<D, E, C, R>,
    after: Analysis<D, E, C, R>,
    i: int,
    k: int,
)
    ensures
        others_kept(before, after, i) ==> after.program == before.program && after.infos@.len()
            == before.infos@.len(),
        others_kept(before, after, i) && 0 <= k < before.infos@.len() && k != i ==> after.infos@[k]
            == before.infos@[k],
        labels_kept(before.gacx, after.gacx) ==> after.gacx.ptr_info@ == before.gacx.ptr_info@
            && after.gacx.fn_sigs == before.gacx.fn_sigs && after.gacx.static_tys
            == before.gacx.static_tys && after.gacx.addr_of_static == before.gacx.addr_of_static
            && after.gacx.field_ltys == before.gacx.field_ltys,
{
}

/// Each of the two points at which a function may be made to fail has a mark and a reason of its
/// own.
pub proof fn law_fail_points(attrs: FnAttrs)
    ensures
        FailPoint::BeforeAnalysis.takes(attrs) == attrs.fail_before_analysis,
        FailPoint::BeforeRewriting.takes(attrs) == attrs.fail_before_rewriting,
        FailPoint::BeforeAnalysis.reason() == "explicit fail_before_analysis for testing"@,
        FailPoint::BeforeRewriting.reason() == "explicit fail_before_rewriting for testing"@,
{
}

/// A function that is marked for the point at hand is given up for the reason of that point, unless
/// it was given up before. No other function is.
pub proof fn law_marked_functions(
    before: Failures,
    after: Failures,
    program: Program,
    point: FailPoint,
    n: int,
    i: int,
    d: DefId,
)
    requires
        taken_upto(before, after, program, point, n),
    ensures
        0 <= i < n && point.takes(program.attrs@[i]) ==> after.contains_key(
            DefId { krate: 0, index: program.order@[i].index },
        ),
        before.contains_key(d) ==> after.contains_key(d) && after[d] == before[d],
        after.contains_key(d) && !before.contains_key(d) ==> after[d].short@ == point.reason()
            && !after[d].has_backtrace && exists|k: int|
            0 <= k < n && (#[trigger] program.order@[k]).def_id() == d && point.takes(
                program.attrs@[k],
            ),
{
    if 0 <= i < n && point.takes(program.attrs@[i]) {
        let did = program.order@[i].def_id();
        assert(is_taken(program, point, n, did));
        assert(after.contains_key(did));
    }
    if after.contains_key(d) && !before.contains_key(d) {
        assert(is_taken(program, point, n, d));
    }
}

/// A function has failed exactly if the failures have it. It is labeled exactly if it has labels
/// that fit, constraints, writes, and as many entries for pointee types as it has pointers.
pub proof fn law_states_of_functions<D, E, C, R>(
    a: Analysis<D, E, C, R>,
    info: FuncInfo<D, E, C, R>,
    globals: nat,
    i: int,
)
    ensures
        a.is_failed(i) <==> a.gacx.fns_failed@.contains_key(
            DefId { krate: 0, index: a.program.order@[i].index },
        ),
        a.infos@[i] == Some(info) ==> a.info(i) == info,
        info.is_labeled(globals) ==> info.acx_data.is_set() && info.pointee_constraints.is_set()
            && info.recent_writes.is_set() && info.local_pointee_types.is_set(),
        info.is_labeled(globals) ==> info.acx_data@->Some_0.fits(globals)
            && info.local_pointee_types@->Some_0@.len() == info.acx_data@->Some_0.ptr_info@.len(),
{
}

} // verus!
