//! What an analysis starts from, and the labeling of what all functions share.
use crate::adts::{covers_fields, covers_type, is_mentioned, Field, ForeignItem};
use crate::context::{GlobalAnalysisCtxt, PanicDetail};
use crate::def_id::{DefId, DefIdSet, DefKind, DefMap, LocalDefId};
use crate::definitions::{adts_of, all_adt_items, statics_of, Definition};
use crate::function::body_rooted;
use crate::labeling::{
    all_fields, count_decls, count_statics, decl_infos, decl_views, field_infos, field_tys_after,
    foreign_decls, gather_foreign_sigs, label_fields, label_fn_sigs, label_statics,
    law_every_declaration_is_labeled, law_every_field_is_labeled, law_every_static_is_labeled,
    law_fields_fit, law_fields_of_all, law_foreign_functions, law_sigs_fit, law_statics_fit,
    lemma_decl_infos_len, lemma_static_infos_len, lty_views, sig_from, sig_views, sigs_after, static_addrs_after, static_infos, static_tys_after,
    static_views, DeclView, FnDecl, StaticDecl, TypedDef,
};
use crate::mir::Body;
use crate::pdg::DefPathHash;
use crate::pointer_id::PointerId;
use crate::ty::{AssignPointerIds, LabeledNode, SigView};
use vstd::prelude::*;

verus! {

/// How a function is marked for testing.
#[derive(Clone, Copy, Debug, PartialEq, Eq, Structural)]
pub struct FnAttrs {
    /// The analysis of the function is given up before its permissions are worked out.
    pub fail_before_analysis: bool,
    /// The analysis of the function is given up before it is rewritten.
    pub fail_before_rewriting: bool,
    /// The function is not rewritten.
    pub skip_rewrite: bool,
}

/// What an analysis starts from.
pub struct Program {
    /// The functions, callees before their callers.
    pub order: Vec<LocalDefId>,
    /// The declaration of each function.
    pub decls: Vec<FnDecl>,
    /// The body of each function.
    pub bodies: Vec<Body>,
    /// The marks of each function.
    pub attrs: Vec<FnAttrs>,
    /// The hash of each function.
    pub hashes: Vec<DefPathHash>,
    /// All definitions.
    pub defs: Vec<Definition>,
    /// The statics.
    pub statics: Vec<StaticDecl>,
    /// The fields of the structs, enums and unions.
    pub adts: DefMap<Vec<Field>>,
    /// The items that are declared in `extern` blocks.
    pub foreign_items: Vec<ForeignItem>,
    /// The definitions whose types must not be changed.
    pub fixed_defs: DefIdSet,
}

impl Program {
    /// The number of functions.
    pub open spec fn len(&self) -> nat {
        self.order@.len()
    }

    /// The function at position `i`.
    pub open spec fn did(&self, i: int) -> DefId {
        self.order@[i].def_id()
    }

    /// There is one of everything for each function, no function comes twice or is foreign, the
    /// types of bodies and declarations have roots, the statics are those among the definitions,
    /// and the fields of all structs, enums and unions are known.
    pub open spec fn wf(&self) -> bool {
        let n = self.order@.len();
        &&& self.order@.no_duplicates()
        &&& self.decls@.len() == n
        &&& self.bodies@.len() == n
        &&& self.attrs@.len() == n
        &&& self.hashes@.len() == n
        &&& forall|i: int|
            0 <= i < n ==> (#[trigger] self.decls@[i]).did == self.order@[i].def_id()
        &&& forall|i: int|
            0 <= i < n ==> body_rooted(
                #[trigger] self.bodies@[i],
                sig_from(self.decls@[i]@.inputs, self.decls@[i]@.output, 0),
            )
        &&& forall|i: int, j: int|
            0 <= i < n && 0 <= j < self.foreign_items@.len() ==> (
            #[trigger] self.foreign_items@[j]).did != (#[trigger] self.order@[i]).def_id()
        &&& self.statics@.len() == statics_of(self.defs@).len()
        &&& forall|i: int|
            0 <= i < self.statics@.len() ==> (#[trigger] self.statics@[i]).did == statics_of(
                self.defs@,
            )[i]
        &&& covers_fields(self.adts@)
        &&& forall|i: int|
            0 <= i < self.defs@.len() && (#[trigger] self.defs@[i]).kind.is_adt_spec()
                ==> self.adts@.contains_key(self.defs@[i].ldid.def_id())
        &&& forall|i: int|
            0 <= i < self.foreign_items@.len() ==> covers_type(
                self.adts@,
                (#[trigger] self.foreign_items@[i]).ty@,
            )
    }
}

/// The items that are declared in `extern` blocks.
pub open spec fn foreign_set(items: Seq<ForeignItem>) -> Set<DefId> {
    Set::new(
        |d: DefId| exists|i: int| 0 <= i < items.len() && (#[trigger] items[i]).did == d,
    )
}

/// The items that are declared in `extern` blocks.
pub fn foreign_dids(items: &Vec<ForeignItem>) -> (r: DefIdSet)
    ensures
        r@ == foreign_set(items@),
{
    let mut dids = DefIdSet::new();
    let mut i: usize = 0;
    assert(dids@ =~= foreign_set(items@.take(0)));
    while i < items.len()
        invariant
            i <= items@.len(),
            dids@ == foreign_set(items@.take(i as int)),
        decreases items@.len() - i,
    {
        let ghost seen = items@.take(i as int);
        let ghost now = items@.take(i + 1);
        dids.insert(items[i].did);
        proof {
            assert forall|d: DefId| dids@.contains(d) <==> foreign_set(now).contains(d) by {
                if foreign_set(seen).contains(d) {
                    let j = choose|j: int| 0 <= j < seen.len() && (#[trigger] seen[j]).did == d;
                    assert(now[j].did == d);
                }
                if foreign_set(now).contains(d) {
                    let j = choose|j: int| 0 <= j < now.len() && (#[trigger] now[j]).did == d;
                    if j < i {
                        assert(seen[j].did == d);
                    }
                }
                assert(now[i as int] == items@[i as int]);
            }
            assert(dids@ =~= foreign_set(now));
        }
        i += 1;
    }
    assert(items@.take(i as int) =~= items@);
    dids
}

/// The structs, enums and unions that are mentioned in `extern` blocks.
pub open spec fn mentioned_set(program: Program) -> Set<DefId> {
    Set::new(|d: DefId| is_mentioned(program.adts@, program.foreign_items@, d))
}

/// The fields of all structs, enums and unions of the program.
pub open spec fn program_fields(program: Program) -> Seq<TypedDef> {
    all_fields(program.adts@, adts_of(program.defs@))
}

/// The number of global pointers when the labeling of functions, foreign functions, statics and
/// fields begins.
pub open spec fn firsts(program: Program) -> (nat, nat, nat) {
    let n1 = count_decls(decl_views(program.decls@));
    let n2 = n1 + count_decls(foreign_decls(program.foreign_items@));
    let n3 = n2 + count_statics(static_views(program.statics@));
    (n1, n2, n3)
}

/// `gacx` is what the labeling of the shared types of a program gives: the signatures of its
/// functions come first, then those of foreign functions, the statics and the fields.
pub open spec fn globals_labeled(program: Program, gacx: GlobalAnalysisCtxt) -> bool {
    let decls = decl_views(program.decls@);
    let foreign = foreign_decls(program.foreign_items@);
    let statics = static_views(program.statics@);
    let fields = program_fields(program);
    let (n1, n2, n3) = firsts(program);
    &&& sig_views(gacx.fn_sigs@) == sigs_after(
        sigs_after(Map::<DefId, SigView>::empty(), decls, 0),
        foreign,
        n1,
    )
    &&& lty_views(gacx.static_tys@) == static_tys_after(
        Map::<DefId, Seq<LabeledNode<PointerId>>>::empty(),
        statics,
        n2,
    )
    &&& gacx.addr_of_static@ == static_addrs_after(Map::<DefId, PointerId>::empty(), statics, n2)
    &&& lty_views(gacx.field_ltys@) == field_tys_after(
        Map::<DefId, Seq<LabeledNode<PointerId>>>::empty(),
        fields,
        n3,
    )
    &&& gacx.ptr_info@ == decl_infos(decls) + decl_infos(foreign) + static_infos(statics)
        + field_infos(fields)
    &&& gacx.fns_failed@ == Map::<DefId, PanicDetail>::empty()
}

/// Every function has a signature, and its body belongs to it.
pub open spec fn has_sigs(program: Program, gacx: GlobalAnalysisCtxt) -> bool {
    forall|i: int|
        0 <= i < program.order@.len() ==> {
            &&& gacx.fn_sigs@.contains_key((#[trigger] program.order@[i]).def_id())
            &&& body_rooted(program.bodies@[i], gacx.fn_sigs@[program.order@[i].def_id()]@)
        }
}

proof fn lemma_sigs_after_other(
    sigs: Map<DefId, SigView>,
    decls: Seq<DeclView>,
    first: nat,
    d: DefId,
)
    requires
        forall|i: int| 0 <= i < decls.len() ==> (#[trigger] decls[i]).did != d,
    ensures
        sigs_after(sigs, decls, first).contains_key(d) == sigs.contains_key(d),
        sigs.contains_key(d) ==> sigs_after(sigs, decls, first)[d] == sigs[d],
    decreases decls.len(),
{
    if decls.len() > 0 {
        assert(decls[decls.len() - 1].did != d);
        assert forall|i: int| 0 <= i < decls.drop_last().len() implies (
        #[trigger] decls.drop_last()[i]).did != d by {
            assert(decls[i].did != d);
        }
        lemma_sigs_after_other(sigs, decls.drop_last(), first, d);
    }
}

proof fn lemma_sigs_after_at(
    sigs: Map<DefId, SigView>,
    decls: Seq<DeclView>,
    first: nat,
    i: int,
)
    requires
        0 <= i < decls.len(),
        forall|j: int| i < j < decls.len() ==> (#[trigger] decls[j]).did != decls[i].did,
    ensures
        sigs_after(sigs, decls, first).contains_key(decls[i].did),
        sigs_after(sigs, decls, first)[decls[i].did] == sig_from(
            decls[i].inputs,
            decls[i].output,
            first + count_decls(decls.take(i)),
        ),
    decreases decls.len(),
{
    let front = decls.drop_last();
    if i == decls.len() - 1 {
        assert(decls.take(i) =~= front);
    } else {
        assert(decls[decls.len() - 1].did != decls[i].did);
        assert(front.take(i) =~= decls.take(i));
        assert forall|j: int| i < j < front.len() implies (#[trigger] front[j]).did
            != front[i].did by {
            assert(decls[j].did != decls[i].did);
        }
        lemma_sigs_after_at(sigs, front, first, i);
    }
}

proof fn lemma_foreign_decl_dids(items: Seq<ForeignItem>, d: DefId)
    requires
        forall|j: int| 0 <= j < items.len() ==> (#[trigger] items[j]).did != d,
    ensures
        forall|k: int| 0 <= k < foreign_decls(items).len() ==> (#[trigger] foreign_decls(items)[k]).did
            != d,
    decreases items.len(),
{
    if items.len() > 0 {
        let front = items.drop_last();
        assert(items[items.len() - 1].did != d);
        assert forall|j: int| 0 <= j < front.len() implies (#[trigger] front[j]).did != d by {
            assert(items[j].did != d);
        }
        lemma_foreign_decl_dids(front, d);
        assert forall|k: int| 0 <= k < foreign_decls(items).len() implies (
        #[trigger] foreign_decls(items)[k]).did != d by {
            if k < foreign_decls(front).len() {
                assert(foreign_decls(front)[k].did != d);
            }
        }
    }
}

/// After the labeling, every function has the signature of its own declaration.
pub proof fn law_labeled_has_sigs(program: Program, gacx: GlobalAnalysisCtxt)
    requires
        program.wf(),
        globals_labeled(program, gacx),
    ensures
        has_sigs(program, gacx),
{
    let decls = decl_views(program.decls@);
    let foreign = foreign_decls(program.foreign_items@);
    let (n1, n2, n3) = firsts(program);
    assert forall|i: int| 0 <= i < program.order@.len() implies {
        &&& gacx.fn_sigs@.contains_key((#[trigger] program.order@[i]).def_id())
        &&& body_rooted(program.bodies@[i], gacx.fn_sigs@[program.order@[i].def_id()]@)
    } by {
        let d = program.order@[i].def_id();
        assert(program.decls@[i].did == d);
        assert(decls[i].did == d);
        assert forall|j: int| i < j < decls.len() implies (#[trigger] decls[j]).did
            != decls[i].did by {
            assert(program.decls@[j].did == program.order@[j].def_id());
            assert(program.order@[i] != program.order@[j]);
        }
        let own = sigs_after(Map::<DefId, SigView>::empty(), decls, 0);
        lemma_sigs_after_at(Map::<DefId, SigView>::empty(), decls, 0, i);
        assert forall|j: int| 0 <= j < program.foreign_items@.len() implies (
        #[trigger] program.foreign_items@[j]).did != d by {
            assert(program.foreign_items@[j].did != program.order@[i].def_id());
        }
        lemma_foreign_decl_dids(program.foreign_items@, d);
        lemma_sigs_after_other(own, foreign, n1, d);
        assert(sig_views(gacx.fn_sigs@).contains_key(d));
        let sig = gacx.fn_sigs@[d]@;
        assert(sig == sig_views(gacx.fn_sigs@)[d]);
        let plain = sig_from(decls[i].inputs, decls[i].output, 0);
        assert(body_rooted(program.bodies@[i], plain));
        assert(sig.inputs.len() == plain.inputs.len());
        assert forall|k: int| 0 <= k < sig.inputs.len() implies (#[trigger] sig.inputs[k]).len()
            > 0 by {
            assert(plain.inputs[k].len() > 0);
        }
    }
}

proof fn lemma_adt_dids_known(program: Program, defs: Seq<Definition>, i: int)
    requires
        forall|i: int|
            0 <= i < defs.len() && (#[trigger] defs[i]).kind.is_adt_spec()
                ==> program.adts@.contains_key(defs[i].ldid.def_id()),
        0 <= i < adts_of(defs).len(),
    ensures
        program.adts@.contains_key(adts_of(defs)[i]),
    decreases defs.len(),
{
    if defs.len() > 0 {
        let front = defs.drop_last();
        assert(defs[defs.len() - 1] == defs.last());
        assert forall|j: int|
            0 <= j < front.len() && (#[trigger] front[j]).kind.is_adt_spec()
            implies program.adts@.contains_key(front[j].ldid.def_id()) by {
            assert(front[j] == defs[j]);
        }
        if i < adts_of(front).len() {
            lemma_adt_dids_known(program, front, i);
        }
    }
}

/// Labels all types that the functions of a program share.
pub fn label_globals(program: &Program) -> (r: GlobalAnalysisCtxt)
    requires
        program.wf(),
    ensures
        globals_labeled(*program, r),
        has_sigs(*program, r),
        r.wf(),
{
    let mut gacx = GlobalAnalysisCtxt::new();
    let ghost g0 = gacx;
    proof {
        assert(sig_views(g0.fn_sigs@) =~= Map::<DefId, SigView>::empty());
        assert(lty_views(g0.static_tys@)
            =~= Map::<DefId, Seq<LabeledNode<PointerId>>>::empty());
        assert(lty_views(g0.field_ltys@)
            =~= Map::<DefId, Seq<LabeledNode<PointerId>>>::empty());
    }
    label_fn_sigs(&mut gacx, &program.decls);
    let ghost g1 = gacx;
    gather_foreign_sigs(&mut gacx, &program.foreign_items);
    let ghost g2 = gacx;
    label_statics(&mut gacx, &program.statics);
    let ghost g3 = gacx;
    let adt_dids = all_adt_items(&program.defs);
    proof {
        assert forall|i: int| 0 <= i < adt_dids@.len() implies program.adts@.contains_key(
            #[trigger] adt_dids@[i],
        ) by {
            lemma_adt_dids_known(*program, program.defs@, i);
        }
    }
    label_fields(&mut gacx, &program.adts, &adt_dids);
    proof {
        let decls = decl_views(program.decls@);
        let foreign = foreign_decls(program.foreign_items@);
        let statics = static_views(program.statics@);
        let fields = program_fields(*program);
        law_sigs_fit(g0, g1, decls);
        law_sigs_fit(g1, g2, foreign);
        law_statics_fit(g2, g3, statics);
        law_fields_fit(g3, gacx, fields);
        lemma_decl_infos_len(decls);
        lemma_decl_infos_len(foreign);
        lemma_static_infos_len(statics);
        assert(g1.infos() =~= decl_infos(decls));
        assert(g2.infos().len() == firsts(*program).1);
        assert(g3.infos().len() == firsts(*program).2);
        assert(gacx.ptr_info@ =~= decl_infos(decls) + decl_infos(foreign) + static_infos(statics)
            + field_infos(fields));
        law_labeled_has_sigs(*program, gacx);
    }
    gacx
}

/// The functions of a program are those in its order, and each is a definition of the crate. A
/// definition is foreign exactly if a foreign item has it, and counts as mentioned exactly if a
/// foreign item mentions it.
pub proof fn law_functions_and_foreign_items(program: Program, d: DefId, i: int)
    ensures
        program.len() == program.order@.len(),
        program.did(i) == (DefId { krate: 0, index: program.order@[i].index }),
        foreign_set(program.foreign_items@).contains(d) <==> exists|n: int|
            0 <= n < program.foreign_items@.len() && (#[trigger] program.foreign_items@[n]).did
                == d,
        mentioned_set(program).contains(d) <==> is_mentioned(
            program.adts@,
            program.foreign_items@,
            d,
        ),
{
}

/// After the labeling, exactly the functions of the program and the foreign functions have
/// signatures, exactly the statics have types and addresses, and exactly the fields of the structs,
/// enums and unions of the crate have types. No function was given up.
pub proof fn law_everything_is_labeled(program: Program, gacx: GlobalAnalysisCtxt, d: DefId)
    requires
        globals_labeled(program, gacx),
    ensures
        gacx.fn_sigs@.contains_key(d) <==> (exists|i: int|
            0 <= i < program.decls@.len() && (#[trigger] program.decls@[i]).did == d) || exists|
            i: int,
        |
            0 <= i < program.foreign_items@.len() && (#[trigger] program.foreign_items@[i]).did == d
                && (program.foreign_items@[i].kind == DefKind::Fn || program.foreign_items@[i].kind
                == DefKind::AssocFn),
        gacx.static_tys@.contains_key(d) <==> exists|i: int|
            0 <= i < program.statics@.len() && (#[trigger] program.statics@[i]).did == d,
        gacx.addr_of_static@.contains_key(d) <==> exists|i: int|
            0 <= i < program.statics@.len() && (#[trigger] program.statics@[i]).did == d,
        gacx.field_ltys@.contains_key(d) <==> ({
            let dids = adts_of(program.defs@);
            exists|i: int, f: int|
                #![trigger program.adts@[dids[i]]@[f]]
                0 <= i < dids.len() && 0 <= f < program.adts@[dids[i]]@.len()
                    && program.adts@[dids[i]]@[f].did == d
        }),
        !gacx.fns_failed@.contains_key(d),
{
    let decls = decl_views(program.decls@);
    let foreign = foreign_decls(program.foreign_items@);
    let statics = static_views(program.statics@);
    let fields = program_fields(program);
    let (n1, n2, n3) = firsts(program);
    let none = Map::<DefId, Seq<LabeledNode<PointerId>>>::empty();
    let own = sigs_after(Map::<DefId, SigView>::empty(), decls, 0);
    law_every_declaration_is_labeled(Map::<DefId, SigView>::empty(), decls, 0, d);
    law_every_declaration_is_labeled(own, foreign, n1, d);
    law_foreign_functions(program.foreign_items@, d);
    law_every_static_is_labeled(none, Map::<DefId, PointerId>::empty(), statics, n2, d);
    law_every_field_is_labeled(none, fields, n3, d);
    law_fields_of_all(program.adts@, adts_of(program.defs@), d);
    assert(sig_views(gacx.fn_sigs@).contains_key(d) <==> gacx.fn_sigs@.contains_key(d));
    assert(lty_views(gacx.static_tys@).contains_key(d) <==> gacx.static_tys@.contains_key(d));
    assert(lty_views(gacx.field_ltys@).contains_key(d) <==> gacx.field_ltys@.contains_key(d));
    assert forall|i: int| 0 <= i < decls.len() implies #[trigger] decls[i].did
        == program.decls@[i].did by {}
    assert forall|i: int| 0 <= i < statics.len() implies #[trigger] statics[i].did
        == program.statics@[i].did by {}
    if exists|i: int| 0 <= i < program.decls@.len() && (#[trigger] program.decls@[i]).did == d {
        let i = choose|i: int|
            0 <= i < program.decls@.len() && (#[trigger] program.decls@[i]).did == d;
        assert(decls[i].did == d);
    }
    if exists|i: int| 0 <= i < decls.len() && (#[trigger] decls[i]).did == d {
        let i = choose|i: int| 0 <= i < decls.len() && (#[trigger] decls[i]).did == d;
        assert(program.decls@[i].did == d);
    }
    if exists|i: int| 0 <= i < program.statics@.len() && (#[trigger] program.statics@[i]).did == d {
        let i = choose|i: int|
            0 <= i < program.statics@.len() && (#[trigger] program.statics@[i]).did == d;
        assert(statics[i].did == d);
    }
    if exists|i: int| 0 <= i < statics.len() && (#[trigger] statics[i]).did == d {
        let i = choose|i: int| 0 <= i < statics.len() && (#[trigger] statics[i]).did == d;
        assert(program.statics@[i].did == d);
    }
}

/// The pointers of the functions come first, then those of the foreign functions, those of the
/// statics and those of the fields, and there is one piece of information for each.
pub proof fn law_global_pointers(program: Program, gacx: GlobalAnalysisCtxt)
    requires
        globals_labeled(program, gacx),
    ensures
        ({
            let own = decl_infos(decl_views(program.decls@));
            let foreign = decl_infos(foreign_decls(program.foreign_items@));
            let statics = static_infos(static_views(program.statics@));
            let fields = field_infos(all_fields(program.adts@, adts_of(program.defs@)));
            let (n1, n2, n3) = firsts(program);
            &&& gacx.ptr_info@ == own + foreign + statics + fields
            &&& n1 == own.len()
            &&& n2 == own.len() + foreign.len()
            &&& n3 == own.len() + foreign.len() + statics.len()
        }),
{
    lemma_decl_infos_len(decl_views(program.decls@));
    lemma_decl_infos_len(foreign_decls(program.foreign_items@));
    lemma_static_infos_len(static_views(program.statics@));
}

/// After the labeling, the signature of each function has the types of its declaration.
pub proof fn law_functions_keep_their_types(
    program: Program,
    gacx: GlobalAnalysisCtxt,
    i: int,
    a: int,
    k: int,
)
    requires
        program.wf(),
        globals_labeled(program, gacx),
        0 <= i < program.order@.len(),
    ensures
        ({
            let did = DefId { krate: 0, index: program.order@[i].index };
            let sig = gacx.fn_sigs@[did]@;
            let decl = program.decls@[i];
            &&& gacx.fn_sigs@.contains_key(did)
            &&& sig.inputs.len() == decl.inputs@.len()
            &&& sig.output.len() == decl.output.nodes@.len()
            &&& 0 <= k < sig.output.len() ==> sig.output[k].node == decl.output.nodes@[k]
            &&& 0 <= a < sig.inputs.len() ==> sig.inputs[a].len() == decl.inputs@[a].nodes@.len()
            &&& 0 <= a < sig.inputs.len() && 0 <= k < sig.inputs[a].len() ==> sig.inputs[a][k].node
                == decl.inputs@[a].nodes@[k]
        }),
{
    let decls = decl_views(program.decls@);
    let foreign = foreign_decls(program.foreign_items@);
    let (n1, n2, n3) = firsts(program);
    let d = program.order@[i].def_id();
    assert(program.decls@[i].did == d);
    assert(decls[i].did == d);
    assert forall|j: int| i < j < decls.len() implies (#[trigger] decls[j]).did != decls[i].did by {
        assert(program.decls@[j].did == program.order@[j].def_id());
        assert(program.order@[i] != program.order@[j]);
    }
    let own = sigs_after(Map::<DefId, SigView>::empty(), decls, 0);
    lemma_sigs_after_at(Map::<DefId, SigView>::empty(), decls, 0, i);
    assert forall|j: int| 0 <= j < program.foreign_items@.len() implies (
    #[trigger] program.foreign_items@[j]).did != d by {
        assert(program.foreign_items@[j].did != program.order@[i].def_id());
    }
    lemma_foreign_decl_dids(program.foreign_items@, d);
    lemma_sigs_after_other(own, foreign, n1, d);
    let views = sig_views(gacx.fn_sigs@);
    assert(views.contains_key(d));
    assert(views[d] == gacx.fn_sigs@[d]@);
}

/// A program is well formed exactly if no function occurs twice, every function has its own
/// declaration, a body whose types have roots, marks and a hash, no foreign item is one of the
/// functions, the statics are those of the crate, and the fields are listed of every struct, enum
/// and union of the crate and of all that foreign items and fields mention.
pub proof fn law_well_formed_programs(p: Program)
    ensures
        p.wf() <==> {
            let n = p.order@.len();
            &&& p.decls@.len() == n && p.bodies@.len() == n && p.attrs@.len() == n
                && p.hashes@.len() == n
            &&& forall|i: int, j: int|
                0 <= i < j < n ==> (#[trigger] p.order@[i]).index != (#[trigger] p.order@[j]).index
            &&& forall|i: int|
                0 <= i < n ==> (#[trigger] p.decls@[i]).did == (DefId {
                    krate: 0,
                    index: p.order@[i].index,
                })
            &&& forall|i: int|
                0 <= i < n ==> body_rooted(
                    #[trigger] p.bodies@[i],
                    sig_from(p.decls@[i]@.inputs, p.decls@[i]@.output, 0),
                )
            &&& forall|i: int, j: int|
                0 <= i < n && 0 <= j < p.foreign_items@.len() ==> (
                #[trigger] p.foreign_items@[j]).did != (#[trigger] p.order@[i]).def_id()
            &&& p.statics@.len() == statics_of(p.defs@).len()
            &&& forall|i: int|
                0 <= i < p.statics@.len() ==> (#[trigger] p.statics@[i]).did == statics_of(
                    p.defs@,
                )[i]
            &&& forall|d: DefId, f: int|
                #![trigger p.adts@[d]@[f]]
                p.adts@.contains_key(d) && 0 <= f < p.adts@[d]@.len() ==> covers_type(
                    p.adts@,
                    p.adts@[d]@[f].walk_ty@,
                )
            &&& forall|i: int|
                0 <= i < p.defs@.len() && ((#[trigger] p.defs@[i]).kind == DefKind::Struct
                    || p.defs@[i].kind == DefKind::Enum || p.defs@[i].kind == DefKind::Union)
                    ==> p.adts@.contains_key(p.defs@[i].ldid.def_id())
            &&& forall|i: int|
                0 <= i < p.foreign_items@.len() ==> covers_type(
                    p.adts@,
                    (#[trigger] p.foreign_items@[i]).ty@,
                )
        },
{
    let order = p.order@;
    if order.no_duplicates() {
        assert forall|i: int, j: int| 0 <= i < j < order.len() implies (#[trigger] order[i]).index
            != (#[trigger] order[j]).index by {
            assert(order[i] != order[j]);
        }
    }
    if forall|i: int, j: int|
        0 <= i < j < order.len() ==> (#[trigger] order[i]).index != (#[trigger] order[j]).index {
        assert forall|i: int, j: int| 0 <= i < order.len() && 0 <= j < order.len() && i
            != j implies order[i] != order[j] by {
            if i < j {
                assert(order[i].index != order[j].index);
            } else {
                assert(order[j].index != order[i].index);
            }
        }
    }
    assert forall|i: int| #![trigger p.decls@[i]] 0 <= i < order.len() implies order[i].def_id()
        == (DefId { krate: 0, index: order[i].index }) by {}
}

/// Functions have signatures exactly if there is one for each function of the program, and its body
/// and its types have roots.
pub proof fn law_signatures(program: Program, gacx: GlobalAnalysisCtxt)
    ensures
        has_sigs(program, gacx) <==> forall|i: int|
            0 <= i < program.order@.len() ==> gacx.fn_sigs@.contains_key(
                (#[trigger] program.order@[i]).def_id(),
            ) && body_rooted(program.bodies@[i], gacx.fn_sigs@[program.order@[i].def_id()]@),
{
}

} // verus!
