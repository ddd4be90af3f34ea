//! The labeling of one function.
use crate::context::{lty_fits, sig_fits, AnalysisCtxtData, GlobalAnalysisCtxt, Location};
use crate::def_id::DefId;
use crate::flags::PointerInfo;
use crate::keyed_map::KeyedMap;
use crate::mir::{
    all_statements, args_match, count_locals, label_locals, label_rvalue_tys,
    lemma_local_infos_len, local_addr,
    local_infos, local_labels, local_ty, new_ty, new_ty_labels, own_pointers, rvalue_labels,
    rvalue_ty_views, Body, LocalDecl, LocalKind, Statement,
};
use crate::pointer_id::{has_value, is_label, LocalPointerTable, PointerId};
use crate::temporaries::{is_lasting, lasting_info, update_pointer_info};
use crate::ty::{
    count_pointers, lemma_count_grows, lemma_one_info_each, AssignPointerIds, LFnSig, LTy, SigView,
    TyNode,
};
use vstd::prelude::*;

verus! {

impl AnalysisCtxtData {
    /// Nothing is known yet.
    pub fn new() -> (r: AnalysisCtxtData)
        ensures
            r.ptr_info@.len() == 0,
            r.local_tys@.len() == 0,
            r.addr_of_local@.len() == 0,
            r.rvalue_tys@ == Map::<Location, LTy>::empty(),
            r.string_literal_locs@.len() == 0,
    {
        AnalysisCtxtData {
            ptr_info: LocalPointerTable { values: Vec::new() },
            local_tys: Vec::new(),
            addr_of_local: Vec::new(),
            rvalue_tys: KeyedMap::new(),
            string_literal_locs: Vec::new(),
        }
    }

    /// Every label is absent, one of the `globals` global pointers or a pointer of this function,
    /// and there is a pointer to every local.
    pub open spec fn fits(&self, globals: nat) -> bool {
        let locals = self.ptr_info@.len();
        &&& self.addr_of_local@.len() == self.local_tys@.len()
        &&& forall|l: int|
            0 <= l < self.local_tys@.len() ==> {
                &&& (#[trigger] self.local_tys@[l])@.len() > 0
                &&& lty_fits(self.local_tys@[l]@, globals, locals)
            }
        &&& forall|l: int|
            0 <= l < self.addr_of_local@.len() ==> has_value(
                globals,
                locals,
                #[trigger] self.addr_of_local@[l],
            )
        &&& forall|loc: Location|
            self.rvalue_tys@.contains_key(loc) ==> lty_fits(
                (#[trigger] self.rvalue_tys@[loc])@,
                globals,
                locals,
            )
    }
}

/// The body belongs to a function with this signature: every argument has a type in it, places
/// start from locals, and all types have roots.
pub open spec fn body_fits(body: Body, sig: SigView) -> bool {
    &&& body_rooted(body, sig)
    &&& args_match(body.locals@, sig)
}

/// Places start from locals, and all types of the body and the signature have roots.
pub open spec fn body_rooted(body: Body, sig: SigView) -> bool {
    &&& body.wf()
    &&& sig.output.len() > 0
    &&& forall|i: int| 0 <= i < sig.inputs.len() ==> (#[trigger] sig.inputs[i]).len() > 0
    &&& forall|l: int| 0 <= l < body.locals@.len() ==> (#[trigger] body.locals@[l]).ty.wf()
}

/// Whether every argument of the body has a type in the signature. The definition of a variadic
/// function has an argument more than its signature.
pub fn args_have_types(body: &Body, lsig: &LFnSig) -> (r: bool)
    ensures
        r == args_match(body.locals@, lsig@),
{
    let mut l: usize = 0;
    while l < body.locals.len()
        invariant
            l <= body.locals@.len(),
            forall|k: int|
                0 <= k < l && (#[trigger] body.locals@[k]).kind is Arg ==> 1 <= k
                    <= lsig@.inputs.len(),
        decreases body.locals@.len() - l,
    {
        if matches!(body.locals[l].kind, LocalKind::Arg) && (l == 0 || l > lsig.inputs.len()) {
            assert(body.locals@[l as int].kind is Arg);
            return false;
        }
        l += 1;
    }
    true
}

/// What is known of each pointer of a function when it is made.
pub open spec fn made_infos(body: Body) -> Seq<PointerInfo> {
    local_infos(body.locals@) + rvalue_labels(
        all_statements(body.blocks@),
        count_locals(body.locals@),
    ).infos
}

/// `acx` is what the labeling of a function with this body and signature gives: the locals come
/// first, and then the right hand sides of assignments.
pub open spec fn function_labeled(body: Body, sig: SigView, acx: AnalysisCtxtData) -> bool {
    let locals = body.locals@;
    let more = rvalue_labels(all_statements(body.blocks@), count_locals(locals));
    &&& acx.local_tys@.len() == locals.len()
    &&& acx.addr_of_local@.len() == locals.len()
    &&& forall|l: int|
        0 <= l < locals.len() ==> (#[trigger] acx.local_tys@[l])@ == local_ty(locals, sig, 0, l)
    &&& forall|l: int|
        0 <= l < locals.len() ==> #[trigger] acx.addr_of_local@[l] == local_addr(locals, 0, l)
    &&& rvalue_ty_views(acx.rvalue_tys@) == more.tys
    &&& acx.string_literal_locs@ == more.literals
    &&& acx.ptr_info@ == lasting(body, acx, |i: usize| PointerId::Local(i), made_infos(body))
}

/// What is known of the pointers `id(0)`, `id(1)` and so on, after those that are no temporary
/// references were marked.
pub open spec fn lasting(
    body: Body,
    acx: AnalysisCtxtData,
    id: spec_fn(usize) -> PointerId,
    infos: Seq<PointerInfo>,
) -> Seq<PointerInfo> {
    Seq::new(infos.len(), |i: int| lasting_info(body, acx, id(i as usize), infos[i]))
}

proof fn lemma_local_labels_fit(nodes: Seq<TyNode>, first: nat, globals: nat, n: nat)
    requires
        first + count_pointers(nodes) <= n,
        n <= usize::MAX,
    ensures
        lty_fits(local_labels(nodes, first), globals, n),
{
    assert forall|k: int| 0 <= k < nodes.len() implies is_label(
        globals,
        n,
        (#[trigger] local_labels(nodes, first)[k]).label,
    ) by {
        lemma_count_grows(nodes, k, nodes.len() as int);
        assert(nodes.take(nodes.len() as int) =~= nodes);
    }
}

proof fn lemma_count_locals_grows(locals: Seq<LocalDecl>, j: int, k: int)
    requires
        0 <= j < k <= locals.len(),
    ensures
        count_locals(locals.take(j)) + own_pointers(locals[j]) + 1 <= count_locals(locals.take(k)),
    decreases k,
{
    assert(locals.take(k).drop_last() =~= locals.take(k - 1));
    if j < k - 1 {
        lemma_count_locals_grows(locals, j, k - 1);
    }
}

/// No two locals of a function have the same address.
pub proof fn law_local_addrs_distinct(
    body: Body,
    sig: SigView,
    acx: AnalysisCtxtData,
    j: int,
    k: int,
)
    requires
        function_labeled(body, sig, acx),
        0 <= j < k < body.locals@.len(),
    ensures
        acx.addr_of_local@[j] != acx.addr_of_local@[k],
{
    let locals = body.locals@;
    lemma_local_infos_len(locals);
    assert(acx.ptr_info@.len() == acx.ptr_info.values.len());
    lemma_count_locals_grows(locals, j, k);
    lemma_count_locals_grows(locals, k, locals.len() as int);
    assert(locals.take(locals.len() as int) =~= locals);
    assert(acx.addr_of_local@[j] == local_addr(locals, 0, j));
    assert(acx.addr_of_local@[k] == local_addr(locals, 0, k));
}

proof fn lemma_locals_fit(body: Body, sig: SigView, globals: nat, n: nat, l: int)
    requires
        body_fits(body, sig),
        sig_fits(sig, globals),
        count_locals(body.locals@) <= n,
        n <= usize::MAX,
        0 <= l < body.locals@.len(),
    ensures
        local_ty(body.locals@, sig, 0, l).len() > 0,
        lty_fits(local_ty(body.locals@, sig, 0, l), globals, n),
        has_value(globals, n, local_addr(body.locals@, 0, l)),
{
    let locals = body.locals@;
    lemma_count_locals_grows(locals, l, locals.len() as int);
    assert(locals.take(locals.len() as int) =~= locals);
    let ty = local_ty(locals, sig, 0, l);
    assert(locals[l].ty.wf());
    match locals[l].kind {
        LocalKind::Var | LocalKind::Temp => {
            lemma_local_labels_fit(locals[l].ty@, count_locals(locals.take(l)), globals, n);
        },
        LocalKind::Arg => {
            assert(lty_fits(sig.inputs[l - 1], globals, 0));
            assert(sig.inputs[l - 1].len() > 0);
            assert forall|k: int| 0 <= k < ty.len() implies is_label(
                globals,
                n,
                (#[trigger] ty[k]).label,
            ) by {
                assert(is_label(globals, 0, sig.inputs[l - 1][k].label));
            }
        },
        LocalKind::ReturnPointer => {
            assert forall|k: int| 0 <= k < ty.len() implies is_label(
                globals,
                n,
                (#[trigger] ty[k]).label,
            ) by {
                assert(is_label(globals, 0, sig.output[k].label));
            }
        },
    }
}

proof fn lemma_rvalues_fit(
    stmts: Seq<(Location, Statement)>,
    first: nat,
    globals: nat,
    n: nat,
    loc: Location,
)
    requires
        first + rvalue_labels(stmts, first).infos.len() <= n,
        n <= usize::MAX,
        rvalue_labels(stmts, first).tys.contains_key(loc),
    ensures
        lty_fits(rvalue_labels(stmts, first).tys[loc], globals, n),
    decreases stmts.len(),
{
    if stmts.len() > 0 {
        let front = rvalue_labels(stmts.drop_last(), first);
        if front.tys.contains_key(loc) {
            lemma_rvalues_fit(stmts.drop_last(), first, globals, n, loc);
        }
        if stmts.last().0 == loc {
            if let Statement::Assign { rvalue, .. } = stmts.last().1 {
                if let Some(t) = new_ty(rvalue) {
                    let at = first + front.infos.len();
                    lemma_one_info_each(t.labeled, t.base);
                    lemma_local_labels_fit(t.labeled, at, globals, n);
                    let ty = new_ty_labels(t, at);
                    assert forall|j: int| 0 <= j < ty.len() implies is_label(
                        globals,
                        n,
                        (#[trigger] ty[j]).label,
                    ) by {
                        if t.above is Some {
                            if j > 0 {
                                assert(ty[j] == local_labels(t.labeled, at)[j - 1]);
                            }
                        }
                    }
                }
            }
        }
    }
}

/// What labeling a function gives is within the pointers that there are.
pub proof fn law_function_fits(body: Body, sig: SigView, globals: nat, acx: AnalysisCtxtData)
    requires
        body_fits(body, sig),
        sig_fits(sig, globals),
        function_labeled(body, sig, acx),
    ensures
        acx.fits(globals),
{
    let locals = body.locals@;
    let stmts = all_statements(body.blocks@);
    let more = rvalue_labels(stmts, count_locals(locals));
    let n = acx.ptr_info@.len();
    assert(n == acx.ptr_info.values.len());
    lemma_local_infos_len(locals);
    assert forall|l: int| 0 <= l < acx.local_tys@.len() implies {
        &&& (#[trigger] acx.local_tys@[l])@.len() > 0
        &&& lty_fits(acx.local_tys@[l]@, globals, n)
    } by {
        lemma_locals_fit(body, sig, globals, n, l);
    }
    assert forall|l: int| 0 <= l < acx.addr_of_local@.len() implies has_value(
        globals,
        n,
        #[trigger] acx.addr_of_local@[l],
    ) by {
        lemma_locals_fit(body, sig, globals, n, l);
    }
    assert forall|loc: Location| acx.rvalue_tys@.contains_key(loc) implies lty_fits(
        (#[trigger] acx.rvalue_tys@[loc])@,
        globals,
        n,
    ) by {
        assert(rvalue_ty_views(acx.rvalue_tys@).contains_key(loc));
        assert(rvalue_ty_views(acx.rvalue_tys@)[loc] == more.tys[loc]);
        lemma_rvalues_fit(stmts, count_locals(locals), globals, n, loc);
    }
}

/// Labels the locals and the right hand sides of the function `did`, and marks the pointers that
/// are no temporary references.
pub fn label_function(gacx: &mut GlobalAnalysisCtxt, did: DefId, body: &Body) -> (r:
    AnalysisCtxtData)
    requires
        old(gacx).wf(),
        old(gacx).fn_sigs@.contains_key(did),
        body_fits(*body, old(gacx).fn_sigs@[did]@),
    ensures
        function_labeled(*body, old(gacx).fn_sigs@[did]@, r),
        final(gacx).ptr_info@ == lasting(
            *body,
            r,
            |i: usize| PointerId::Global(i),
            old(gacx).ptr_info@,
        ),
        final(gacx).others() == old(gacx).others(),
        final(gacx).wf(),
{
    let mut acx = AnalysisCtxtData::new();
    let ghost sig = gacx.fn_sigs@[did]@;
    let ghost first = acx.infos();
    if let Some(lsig) = gacx.fn_sigs.get(did) {
        label_locals(&mut acx, body, lsig);
    }
    assert(acx.infos() =~= local_infos(body.locals@));
    proof {
        lemma_local_infos_len(body.locals@);
    }
    label_rvalue_tys(&mut acx, body);
    let ghost made = acx;
    let ghost globals = gacx.ptr_info@.len();
    proof {
        assert(made.ptr_info@ =~= made_infos(*body));
        assert(made.ptr_info@.len() == made.ptr_info.values.len());
        assert forall|l: int| 0 <= l < body.locals@.len() implies {
            &&& (#[trigger] made.local_tys@[l])@.len() > 0
            &&& lty_fits(made.local_tys@[l]@, globals, made.ptr_info@.len())
        } by {
            lemma_locals_fit(*body, sig, globals, made.ptr_info@.len(), l);
        }
    }
    update_pointer_info(gacx, &mut acx, body);
    proof {
        assert(acx.local_tys == made.local_tys);
        assert forall|ptr: PointerId|
            is_lasting(*body, acx, ptr) == #[trigger] is_lasting(*body, made, ptr) by {}
        assert(acx.ptr_info@ =~= lasting(
            *body,
            acx,
            |i: usize| PointerId::Local(i),
            made_infos(*body),
        ));
        assert(gacx.ptr_info@ =~= lasting(
            *body,
            acx,
            |i: usize| PointerId::Global(i),
            old(gacx).ptr_info@,
        ));
        assert(rvalue_ty_views(acx.rvalue_tys@) =~= rvalue_labels(
            all_statements(body.blocks@),
            count_locals(body.locals@),
        ).tys);
        assert(acx.string_literal_locs@ =~= rvalue_labels(
            all_statements(body.blocks@),
            count_locals(body.locals@),
        ).literals);
    }
    acx
}

/// The labels of a function fit exactly if every local has a type with a root and an address, and
/// all labels are of pointers that there are.
pub proof fn law_fitting_functions(acx: AnalysisCtxtData, globals: nat, l: int, loc: Location)
    requires
        acx.fits(globals),
    ensures
        acx.addr_of_local@.len() == acx.local_tys@.len(),
        0 <= l < acx.local_tys@.len() ==> acx.local_tys@[l]@.len() > 0 && lty_fits(
            acx.local_tys@[l]@,
            globals,
            acx.ptr_info@.len(),
        ),
        0 <= l < acx.addr_of_local@.len() ==> match acx.addr_of_local@[l] {
            PointerId::Global(p) => p < globals,
            PointerId::Local(p) => p < acx.ptr_info@.len(),
            PointerId::Absent => false,
        },
        acx.rvalue_tys@.contains_key(loc) ==> lty_fits(
            acx.rvalue_tys@[loc]@,
            globals,
            acx.ptr_info@.len(),
        ),
{
}

/// A body fits a signature exactly if its statements are in order, all types have roots, and each
/// argument has an input.
pub proof fn law_fitting_bodies(body: Body, sig: SigView)
    ensures
        body_rooted(body, sig) <==> {
            &&& body.wf()
            &&& sig.output.len() > 0
            &&& forall|i: int| 0 <= i < sig.inputs.len() ==> (#[trigger] sig.inputs[i]).len() > 0
            &&& forall|l: int|
                0 <= l < body.locals@.len() ==> (#[trigger] body.locals@[l]).ty@.len() > 0
        },
        body_fits(body, sig) <==> body_rooted(body, sig) && forall|l: int|
            0 <= l < body.locals@.len() && (#[trigger] body.locals@[l]).kind == LocalKind::Arg
                ==> 1 <= l <= sig.inputs.len(),
{
}

/// In a labeled function, arguments and the place of the result have the types of the signature,
/// with the same pointers. Every other local has its own type, whose pointers, like the pointer to
/// each local, are local to the function.
pub proof fn law_labeled_locals(
    body: Body,
    sig: SigView,
    acx: AnalysisCtxtData,
    l: int,
    k: int,
)
    requires
        function_labeled(body, sig, acx),
        0 <= l < body.locals@.len(),
    ensures
        acx.local_tys@.len() == body.locals@.len(),
        acx.addr_of_local@.len() == body.locals@.len(),
        ({
            let decl = body.locals@[l];
            let lty = acx.local_tys@[l]@;
            &&& decl.kind == LocalKind::Arg ==> lty == sig.inputs[l - 1]
            &&& decl.kind == LocalKind::ReturnPointer ==> lty == sig.output
            &&& decl.kind == LocalKind::Var || decl.kind == LocalKind::Temp ==> {
                &&& lty.len() == decl.ty@.len()
                &&& 0 <= k < lty.len() ==> lty[k].node == decl.ty@[k]
                &&& 0 <= k < lty.len() ==> (lty[k].label is Local <==> decl.ty@[k].ctor is Ref
                    || decl.ty@[k].ctor is RawPtr)
                &&& 0 <= k < lty.len() ==> !(lty[k].label is Global)
            }
            &&& acx.addr_of_local@[l] is Local
        }),
{
    assert(acx.local_tys@[l]@ == local_ty(body.locals@, sig, 0, l));
}

/// A labeled function has types of its own at exactly the locations where labeling put them, and
/// one piece of information for each pointer of its locals and of these types, in this order.
pub proof fn law_labeled_function(
    body: Body,
    sig: SigView,
    acx: AnalysisCtxtData,
    loc: Location,
    i: int,
)
    requires
        function_labeled(body, sig, acx),
    ensures
        ({
            let more = rvalue_labels(all_statements(body.blocks@), count_locals(body.locals@));
            let own = local_infos(body.locals@);
            &&& acx.rvalue_tys@.contains_key(loc) <==> more.tys.contains_key(loc)
            &&& more.tys.contains_key(loc) ==> acx.rvalue_tys@[loc]@ == more.tys[loc]
            &&& acx.string_literal_locs@ == more.literals
            &&& acx.ptr_info@.len() == own.len() + more.infos.len()
            &&& 0 <= i < own.len() ==> acx.ptr_info@[i] == lasting_info(
                body,
                acx,
                PointerId::Local(i as usize),
                own[i],
            )
            &&& 0 <= i < more.infos.len() ==> acx.ptr_info@[own.len() + i] == lasting_info(
                body,
                acx,
                PointerId::Local((own.len() + i) as usize),
                more.infos[i],
            )
        }),
{
    let views = rvalue_ty_views(acx.rvalue_tys@);
    assert(views.contains_key(loc) <==> acx.rvalue_tys@.contains_key(loc));
    if acx.rvalue_tys@.contains_key(loc) {
        assert(views[loc] == acx.rvalue_tys@[loc]@);
    }
}

/// Whether pointers last is found out for each of them, and for no others.
pub proof fn law_lasting(
    body: Body,
    acx: AnalysisCtxtData,
    id: spec_fn(usize) -> PointerId,
    infos: Seq<PointerInfo>,
    i: usize,
)
    ensures
        lasting(body, acx, id, infos).len() == infos.len(),
        i < infos.len() && is_lasting(body, acx, id(i)) ==> lasting(body, acx, id, infos)[i as int]
            == infos[i as int].with(PointerInfo::NOT_TEMPORARY_REF),
        i < infos.len() && !is_lasting(body, acx, id(i)) ==> lasting(
            body,
            acx,
            id,
            infos,
        )[i as int] == infos[i as int],
{
}

} // verus!
