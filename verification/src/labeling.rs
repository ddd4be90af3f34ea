//! The labeling of all types that the functions of a program share.
use crate::adts::{Field, ForeignItem};
use crate::context::{global_pointer, lty_fits, sig_fits, GlobalAnalysisCtxt};
use crate::def_id::{DefId, DefKind, DefMap};
use crate::flags::PointerInfo;
use crate::pointer_id::{is_label, PointerId};
use crate::ty::{
    count_pointers, labeled_from, lemma_count_grows, lemma_one_info_each, pointer_infos,
    AssignPointerIds, LFnSig, LTy, LabeledNode, SigView, Ty, TyNode,
};
use vstd::prelude::*;

verus! {

/// The declaration of a function.
pub struct FnDecl {
    pub did: DefId,
    pub inputs: Vec<Ty>,
    pub output: Ty,
}

/// A static, and its type.
pub struct StaticDecl {
    pub did: DefId,
    pub ty: Ty,
}

/// The declaration of a function, by the nodes of its types.
pub struct DeclView {
    pub did: DefId,
    pub inputs: Seq<Seq<TyNode>>,
    pub output: Seq<TyNode>,
}

/// The nodes of each type.
pub open spec fn ty_views(tys: Seq<Ty>) -> Seq<Seq<TyNode>> {
    Seq::new(tys.len(), |i: int| tys[i]@)
}

impl View for FnDecl {
    type V = DeclView;

    open spec fn view(&self) -> DeclView {
        DeclView { did: self.did, inputs: ty_views(self.inputs@), output: self.output@ }
    }
}

/// Shared types are written down by the user.
pub open spec fn annotated() -> PointerInfo {
    PointerInfo { bits: PointerInfo::ANNOTATED }
}

/// The type `nodes`, with its pointers numbered on from the global pointer `first`.
pub open spec fn global_labels(nodes: Seq<TyNode>, first: nat) -> Seq<LabeledNode<PointerId>> {
    labeled_from(nodes, first, |i: nat| global_pointer(i))
}

/// The number of pointers in all of `tys`.
pub open spec fn count_all(tys: Seq<Seq<TyNode>>) -> nat
    decreases tys.len(),
{
    if tys.len() == 0 {
        0
    } else {
        count_all(tys.drop_last()) + count_pointers(tys.last())
    }
}

/// What is known about each pointer of `tys`.
pub open spec fn infos_all(tys: Seq<Seq<TyNode>>, base: PointerInfo) -> Seq<PointerInfo>
    decreases tys.len(),
{
    if tys.len() == 0 {
        Seq::empty()
    } else {
        infos_all(tys.drop_last(), base) + pointer_infos(tys.last(), base)
    }
}

proof fn lemma_infos_all_len(tys: Seq<Seq<TyNode>>, base: PointerInfo)
    ensures
        infos_all(tys, base).len() == count_all(tys),
    decreases tys.len(),
{
    if tys.len() > 0 {
        lemma_infos_all_len(tys.drop_last(), base);
        lemma_one_info_each(tys.last(), base);
    }
}

/// The types of `decl`: its inputs, and then its output.
pub open spec fn decl_tys(decl: DeclView) -> Seq<Seq<TyNode>> {
    decl.inputs.push(decl.output)
}

/// A signature with these types, with its pointers numbered on from `first`: the inputs in their
/// order, and then the output.
pub open spec fn sig_from(inputs: Seq<Seq<TyNode>>, output: Seq<TyNode>, first: nat) -> SigView {
    SigView {
        inputs: Seq::new(
            inputs.len(),
            |i: int| global_labels(inputs[i], first + count_all(inputs.take(i))),
        ),
        output: global_labels(output, first + count_all(inputs)),
    }
}

/// Labels a signature.
fn label_sig(gacx: &mut GlobalAnalysisCtxt, inputs: &Vec<Ty>, output: &Ty) -> (r: LFnSig)
    ensures
        r@ == sig_from(ty_views(inputs@), output@, old(gacx).infos().len()),
        final(gacx).infos() == old(gacx).infos() + infos_all(
            ty_views(inputs@).push(output@),
            annotated(),
        ),
        final(gacx).others() == old(gacx).others(),
{
    let ghost tys = ty_views(inputs@);
    let ghost first = gacx.infos().len();
    let ghost infos0 = gacx.infos();
    let mut base = PointerInfo::empty();
    base.insert(PointerInfo::ANNOTATED);
    assert(base == annotated()) by {
        assert(0u16 | PointerInfo::ANNOTATED == PointerInfo::ANNOTATED) by (bit_vector);
    }
    let mut linputs: Vec<LTy> = Vec::new();
    let mut i: usize = 0;
    assert(infos0 + infos_all(tys.take(0), annotated()) =~= infos0);
    while i < inputs.len()
        invariant
            i <= inputs@.len(),
            tys == ty_views(inputs@),
            base == annotated(),
            first == infos0.len(),
            linputs@.len() == i,
            forall|k: int|
                0 <= k < i ==> (#[trigger] linputs@[k])@ == global_labels(
                    tys[k],
                    first + count_all(tys.take(k)),
                ),
            gacx.infos() == infos0 + infos_all(tys.take(i as int), annotated()),
            gacx.others() == old(gacx).others(),
        decreases inputs@.len() - i,
    {
        proof {
            lemma_infos_all_len(tys.take(i as int), annotated());
            assert(tys.take(i + 1).drop_last() =~= tys.take(i as int));
        }
        let lty = gacx.assign_pointer_ids_with_info(&inputs[i], base);
        assert(lty@ =~= global_labels(tys[i as int], first + count_all(tys.take(i as int))));
        linputs.push(lty);
        i += 1;
        assert(gacx.infos() =~= infos0 + infos_all(tys.take(i as int), annotated()));
    }
    assert(tys.take(i as int) =~= tys);
    proof {
        lemma_infos_all_len(tys, annotated());
        assert(tys.push(output@).drop_last() =~= tys);
    }
    let loutput = gacx.assign_pointer_ids_with_info(output, base);
    assert(loutput@ =~= global_labels(output@, first + count_all(tys)));
    assert(gacx.infos() =~= infos0 + infos_all(tys.push(output@), annotated()));
    let sig = LFnSig { inputs: linputs, output: loutput };
    assert(sig@.inputs =~= sig_from(tys, output@, first).inputs);
    sig
}

/// The nodes of each signature.
pub open spec fn sig_views(sigs: Map<DefId, LFnSig>) -> Map<DefId, SigView> {
    sigs.map_values(|s: LFnSig| s@)
}

/// The nodes of each labeled type.
pub open spec fn lty_views(tys: Map<DefId, LTy>) -> Map<DefId, Seq<LabeledNode<PointerId>>> {
    tys.map_values(|t: LTy| t@)
}

/// The number of pointers in all of `decls`.
pub open spec fn count_decls(decls: Seq<DeclView>) -> nat
    decreases decls.len(),
{
    if decls.len() == 0 {
        0
    } else {
        count_decls(decls.drop_last()) + count_all(decl_tys(decls.last()))
    }
}

/// What is known about each pointer of `decls`.
pub open spec fn decl_infos(decls: Seq<DeclView>) -> Seq<PointerInfo>
    decreases decls.len(),
{
    if decls.len() == 0 {
        Seq::empty()
    } else {
        decl_infos(decls.drop_last()) + infos_all(decl_tys(decls.last()), annotated())
    }
}

/// `sigs` after the signatures of `decls` were added in their order, with the pointers numbered on
/// from `first`. A later declaration replaces an earlier one of the same function.
pub open spec fn sigs_after(sigs: Map<DefId, SigView>, decls: Seq<DeclView>, first: nat) -> Map<
    DefId,
    SigView,
>
    decreases decls.len(),
{
    if decls.len() == 0 {
        sigs
    } else {
        let front = decls.drop_last();
        let decl = decls.last();
        sigs_after(sigs, front, first).insert(
            decl.did,
            sig_from(decl.inputs, decl.output, first + count_decls(front)),
        )
    }
}

/// There is one piece of information for each pointer of the declarations.
pub proof fn lemma_decl_infos_len(decls: Seq<DeclView>)
    ensures
        decl_infos(decls).len() == count_decls(decls),
    decreases decls.len(),
{
    if decls.len() > 0 {
        lemma_decl_infos_len(decls.drop_last());
        lemma_infos_all_len(decl_tys(decls.last()), annotated());
    }
}

/// The declarations.
pub open spec fn decl_views(decls: Seq<FnDecl>) -> Seq<DeclView> {
    Seq::new(decls.len(), |i: int| decls[i]@)
}

/// `after` is `before` with the signatures of `decls` added.
pub open spec fn sigs_added(
    before: GlobalAnalysisCtxt,
    after: GlobalAnalysisCtxt,
    decls: Seq<DeclView>,
) -> bool {
    &&& sig_views(after.fn_sigs@) == sigs_after(
        sig_views(before.fn_sigs@),
        decls,
        before.infos().len(),
    )
    &&& after.infos() == before.infos() + decl_infos(decls)
    &&& after.static_tys == before.static_tys
    &&& after.addr_of_static == before.addr_of_static
    &&& after.field_ltys == before.field_ltys
    &&& after.fns_failed == before.fns_failed
}

/// Labels the signature of `did` and adds it.
fn add_sig(
    gacx: &mut GlobalAnalysisCtxt,
    did: DefId,
    inputs: &Vec<Ty>,
    output: &Ty,
    Ghost(before): Ghost<GlobalAnalysisCtxt>,
    Ghost(done): Ghost<Seq<DeclView>>,
)
    requires
        sigs_added(before, *old(gacx), done),
    ensures
        sigs_added(
            before,
            *final(gacx),
            done.push(DeclView { did, inputs: ty_views(inputs@), output: output@ }),
        ),
{
    let ghost decl = DeclView { did, inputs: ty_views(inputs@), output: output@ };
    let ghost next = done.push(decl);
    let ghost was = gacx.fn_sigs@;
    proof {
        lemma_decl_infos_len(done);
        assert(next.drop_last() =~= done);
    }
    let sig = label_sig(gacx, inputs, output);
    gacx.fn_sigs.insert(did, sig);
    proof {
        let first = before.infos().len();
        assert(sig@ == sig_from(decl.inputs, decl.output, first + count_decls(done)));
        assert(sig_views(gacx.fn_sigs@) =~= sig_views(was).insert(did, sig@));
        assert(gacx.infos() =~= before.infos() + decl_infos(next));
    }
}

/// Labels the signatures of the functions that are defined in the program.
pub fn label_fn_sigs(gacx: &mut GlobalAnalysisCtxt, decls: &Vec<FnDecl>)
    ensures
        sigs_added(*old(gacx), *final(gacx), decl_views(decls@)),
{
    let ghost before = *gacx;
    let ghost all = decl_views(decls@);
    let mut i: usize = 0;
    assert(all.take(0) =~= Seq::<DeclView>::empty());
    assert(before.infos() + decl_infos(all.take(0)) =~= before.infos());
    while i < decls.len()
        invariant
            i <= decls@.len(),
            all == decl_views(decls@),
            sigs_added(before, *gacx, all.take(i as int)),
        decreases decls@.len() - i,
    {
        let d = &decls[i];
        add_sig(gacx, d.did, &d.inputs, &d.output, Ghost(before), Ghost(all.take(i as int)));
        i += 1;
        assert(all.take(i as int) =~= all.take(i - 1).push(all[i - 1]));
    }
    assert(all.take(i as int) =~= all);
}

/// The functions among the foreign items.
pub open spec fn foreign_decls(items: Seq<ForeignItem>) -> Seq<DeclView>
    decreases items.len(),
{
    if items.len() == 0 {
        Seq::empty()
    } else {
        let item = items.last();
        let front = foreign_decls(items.drop_last());
        if item.kind.is_fn_spec() {
            front.push(
                DeclView { did: item.did, inputs: ty_views(item.inputs@), output: item.output@ },
            )
        } else {
            front
        }
    }
}

/// Labels the signatures of the functions that are declared in `extern` blocks.
pub fn gather_foreign_sigs(gacx: &mut GlobalAnalysisCtxt, items: &Vec<ForeignItem>)
    ensures
        sigs_added(*old(gacx), *final(gacx), foreign_decls(items@)),
{
    let ghost before = *gacx;
    let mut i: usize = 0;
    assert(before.infos() + decl_infos(foreign_decls(items@.take(0))) =~= before.infos());
    while i < items.len()
        invariant
            i <= items@.len(),
            sigs_added(before, *gacx, foreign_decls(items@.take(i as int))),
        decreases items@.len() - i,
    {
        assert(items@.take(i + 1).drop_last() =~= items@.take(i as int));
        let item = &items[i];
        if item.kind.is_fn() {
            add_sig(
                gacx,
                item.did,
                &item.inputs,
                &item.output,
                Ghost(before),
                Ghost(foreign_decls(items@.take(i as int))),
            );
        }
        i += 1;
    }
    assert(items@.take(i as int) =~= items@);
}

/// A definition with a type: a static or a field.
pub struct TypedDef {
    pub did: DefId,
    pub nodes: Seq<TyNode>,
}

/// The statics with their types.
pub open spec fn static_views(statics: Seq<StaticDecl>) -> Seq<TypedDef> {
    Seq::new(statics.len(), |i: int| TypedDef { did: statics[i].did, nodes: statics[i].ty@ })
}

/// The number of pointers for `statics`: those in their types, and one to each of them.
pub open spec fn count_statics(statics: Seq<TypedDef>) -> nat
    decreases statics.len(),
{
    if statics.len() == 0 {
        0
    } else {
        count_statics(statics.drop_last()) + count_pointers(statics.last().nodes) + 1
    }
}

/// What is known about each pointer for `statics`.
pub open spec fn static_infos(statics: Seq<TypedDef>) -> Seq<PointerInfo>
    decreases statics.len(),
{
    if statics.len() == 0 {
        Seq::empty()
    } else {
        (static_infos(statics.drop_last()) + pointer_infos(statics.last().nodes, annotated())).push(
            PointerInfo { bits: 0 },
        )
    }
}

/// `tys` after the types of `statics` were added, with the pointers numbered on from `first`.
pub open spec fn static_tys_after(
    tys: Map<DefId, Seq<LabeledNode<PointerId>>>,
    statics: Seq<TypedDef>,
    first: nat,
) -> Map<DefId, Seq<LabeledNode<PointerId>>>
    decreases statics.len(),
{
    if statics.len() == 0 {
        tys
    } else {
        let front = statics.drop_last();
        static_tys_after(tys, front, first).insert(
            statics.last().did,
            global_labels(statics.last().nodes, first + count_statics(front)),
        )
    }
}

/// `addrs` after the pointers to `statics` were added: each comes next after those in the type.
pub open spec fn static_addrs_after(
    addrs: Map<DefId, PointerId>,
    statics: Seq<TypedDef>,
    first: nat,
) -> Map<DefId, PointerId>
    decreases statics.len(),
{
    if statics.len() == 0 {
        addrs
    } else {
        let front = statics.drop_last();
        static_addrs_after(addrs, front, first).insert(
            statics.last().did,
            global_pointer(first + count_statics(front) + count_pointers(statics.last().nodes)),
        )
    }
}

/// There is one piece of information for each pointer of the statics.
pub proof fn lemma_static_infos_len(statics: Seq<TypedDef>)
    ensures
        static_infos(statics).len() == count_statics(statics),
    decreases statics.len(),
{
    if statics.len() > 0 {
        lemma_static_infos_len(statics.drop_last());
        lemma_one_info_each(statics.last().nodes, annotated());
    }
}

/// `after` is `before` with `statics` added.
pub open spec fn statics_added(
    before: GlobalAnalysisCtxt,
    after: GlobalAnalysisCtxt,
    statics: Seq<TypedDef>,
) -> bool {
    let first = before.infos().len();
    &&& lty_views(after.static_tys@) == static_tys_after(
        lty_views(before.static_tys@),
        statics,
        first,
    )
    &&& after.addr_of_static@ == static_addrs_after(before.addr_of_static@, statics, first)
    &&& after.infos() == before.infos() + static_infos(statics)
    &&& after.fn_sigs == before.fn_sigs
    &&& after.field_ltys == before.field_ltys
    &&& after.fns_failed == before.fns_failed
}

/// Labels the types of statics, and makes a pointer to each of them.
pub fn label_statics(gacx: &mut GlobalAnalysisCtxt, statics: &Vec<StaticDecl>)
    ensures
        statics_added(*old(gacx), *final(gacx), static_views(statics@)),
{
    let ghost before = *gacx;
    let ghost all = static_views(statics@);
    let ghost first = before.infos().len();
    let mut base = PointerInfo::empty();
    base.insert(PointerInfo::ANNOTATED);
    assert(base == annotated()) by {
        assert(0u16 | PointerInfo::ANNOTATED == PointerInfo::ANNOTATED) by (bit_vector);
    }
    let mut i: usize = 0;
    assert(before.infos() + static_infos(all.take(0)) =~= before.infos());
    while i < statics.len()
        invariant
            i <= statics@.len(),
            base == annotated(),
            all == static_views(statics@),
            first == before.infos().len(),
            statics_added(before, *gacx, all.take(i as int)),
        decreases statics@.len() - i,
    {
        let ghost done = all.take(i as int);
        let ghost next = all.take(i + 1);
        proof {
            assert(next.drop_last() =~= done);
            lemma_static_infos_len(done);
            lemma_one_info_each(all[i as int].nodes, annotated());
        }
        let ghost tys = gacx.static_tys@;
        let lty = gacx.assign_pointer_ids_with_info(&statics[i].ty, base);
        assert(lty@ =~= global_labels(all[i as int].nodes, first + count_statics(done)));
        let ptr = gacx.new_pointer(PointerInfo::empty());
        gacx.static_tys.insert(statics[i].did, lty);
        gacx.addr_of_static.insert(statics[i].did, ptr);
        assert(lty_views(gacx.static_tys@) =~= lty_views(tys).insert(statics@[i as int].did, lty@));
        assert(gacx.infos() =~= before.infos() + static_infos(next));
        i += 1;
    }
    assert(all.take(i as int) =~= all);
}

/// The fields of `fields`, with their types.
pub open spec fn field_views(fields: Seq<Field>) -> Seq<TypedDef> {
    Seq::new(fields.len(), |i: int| TypedDef { did: fields[i].did, nodes: fields[i].ty@ })
}

/// The fields of all of `dids`, one after the other.
pub open spec fn all_fields(adts: Map<DefId, Vec<Field>>, dids: Seq<DefId>) -> Seq<TypedDef>
    decreases dids.len(),
{
    if dids.len() == 0 {
        Seq::empty()
    } else {
        all_fields(adts, dids.drop_last()) + field_views(adts[dids.last()]@)
    }
}

/// The number of pointers in the types of `fields`.
pub open spec fn count_fields(fields: Seq<TypedDef>) -> nat
    decreases fields.len(),
{
    if fields.len() == 0 {
        0
    } else {
        count_fields(fields.drop_last()) + count_pointers(fields.last().nodes)
    }
}

/// What is known about each pointer in the types of `fields`.
pub open spec fn field_infos(fields: Seq<TypedDef>) -> Seq<PointerInfo>
    decreases fields.len(),
{
    if fields.len() == 0 {
        Seq::empty()
    } else {
        field_infos(fields.drop_last()) + pointer_infos(fields.last().nodes, annotated())
    }
}

/// `tys` after the types of `fields` were added, with the pointers numbered on from `first`.
pub open spec fn field_tys_after(
    tys: Map<DefId, Seq<LabeledNode<PointerId>>>,
    fields: Seq<TypedDef>,
    first: nat,
) -> Map<DefId, Seq<LabeledNode<PointerId>>>
    decreases fields.len(),
{
    if fields.len() == 0 {
        tys
    } else {
        let front = fields.drop_last();
        field_tys_after(tys, front, first).insert(
            fields.last().did,
            global_labels(fields.last().nodes, first + count_fields(front)),
        )
    }
}

proof fn lemma_field_infos_len(fields: Seq<TypedDef>)
    ensures
        field_infos(fields).len() == count_fields(fields),
    decreases fields.len(),
{
    if fields.len() > 0 {
        lemma_field_infos_len(fields.drop_last());
        lemma_one_info_each(fields.last().nodes, annotated());
    }
}

/// `after` is `before` with the types of `fields` added.
pub open spec fn fields_added(
    before: GlobalAnalysisCtxt,
    after: GlobalAnalysisCtxt,
    fields: Seq<TypedDef>,
) -> bool {
    &&& lty_views(after.field_ltys@) == field_tys_after(
        lty_views(before.field_ltys@),
        fields,
        before.infos().len(),
    )
    &&& after.infos() == before.infos() + field_infos(fields)
    &&& after.fn_sigs == before.fn_sigs
    &&& after.static_tys == before.static_tys
    &&& after.addr_of_static == before.addr_of_static
    &&& after.fns_failed == before.fns_failed
}

/// Labels the types of the fields of `dids`.
pub fn label_fields(gacx: &mut GlobalAnalysisCtxt, adts: &DefMap<Vec<Field>>, dids: &Vec<DefId>)
    requires
        forall|i: int| 0 <= i < dids@.len() ==> adts@.contains_key(#[trigger] dids@[i]),
    ensures
        fields_added(*old(gacx), *final(gacx), all_fields(adts@, dids@)),
{
    let ghost before = *gacx;
    let ghost first = before.infos().len();
    let mut base = PointerInfo::empty();
    base.insert(PointerInfo::ANNOTATED);
    assert(base == annotated()) by {
        assert(0u16 | PointerInfo::ANNOTATED == PointerInfo::ANNOTATED) by (bit_vector);
    }
    let mut i: usize = 0;
    assert(before.infos() + field_infos(all_fields(adts@, dids@.take(0))) =~= before.infos());
    while i < dids.len()
        invariant
            i <= dids@.len(),
            base == annotated(),
            first == before.infos().len(),
            forall|i: int| 0 <= i < dids@.len() ==> adts@.contains_key(#[trigger] dids@[i]),
            fields_added(before, *gacx, all_fields(adts@, dids@.take(i as int))),
        decreases dids@.len() - i,
    {
        let ghost done = all_fields(adts@, dids@.take(i as int));
        assert(dids@.take(i + 1).drop_last() =~= dids@.take(i as int));
        match adts.get(dids[i]) {
            Some(fields) => {
                let ghost own = field_views(fields@);
                let mut f: usize = 0;
                assert(done + own.take(0) =~= done);
                while f < fields.len()
                    invariant
                        f <= fields@.len(),
                        base == annotated(),
                        own == field_views(fields@),
                        first == before.infos().len(),
                        fields_added(before, *gacx, done + own.take(f as int)),
                    decreases fields@.len() - f,
                {
                    let ghost part = done + own.take(f as int);
                    let ghost next = done + own.take(f + 1);
                    proof {
                        assert(next.drop_last() =~= part);
                        assert(next.last() == own[f as int]);
                        lemma_field_infos_len(part);
                    }
                    let ghost tys = gacx.field_ltys@;
                    let lty = gacx.assign_pointer_ids_with_info(&fields[f].ty, base);
                    assert(lty@ =~= global_labels(own[f as int].nodes, first + count_fields(part)));
                    gacx.field_ltys.insert(fields[f].did, lty);
                    assert(lty_views(gacx.field_ltys@) =~= lty_views(tys).insert(
                        fields@[f as int].did,
                        lty@,
                    ));
                    assert(gacx.infos() =~= before.infos() + field_infos(next));
                    f += 1;
                }
                assert(own.take(f as int) =~= own);
            },
            None => {},
        }
        i += 1;
    }
    assert(dids@.take(i as int) =~= dids@);
}

proof fn lemma_global_labels_fit(nodes: Seq<TyNode>, first: nat, n: nat)
    requires
        first + count_pointers(nodes) <= n,
        n <= usize::MAX,
    ensures
        lty_fits(global_labels(nodes, first), n, 0),
{
    assert forall|k: int| 0 <= k < nodes.len() implies is_label(
        n,
        0,
        (#[trigger] global_labels(nodes, first)[k]).label,
    ) by {
        lemma_count_grows(nodes, k, nodes.len() as int);
        assert(nodes.take(nodes.len() as int) =~= nodes);
    }
}

proof fn lemma_count_all_grows(tys: Seq<Seq<TyNode>>, j: int, k: int)
    requires
        0 <= j < k <= tys.len(),
    ensures
        count_all(tys.take(j)) + count_pointers(tys[j]) <= count_all(tys.take(k)),
    decreases k,
{
    assert(tys.take(k).drop_last() =~= tys.take(k - 1));
    if j < k - 1 {
        lemma_count_all_grows(tys, j, k - 1);
    }
}

proof fn lemma_sig_fits(decl: DeclView, first: nat, n: nat)
    requires
        first + count_all(decl_tys(decl)) <= n,
        n <= usize::MAX,
    ensures
        sig_fits(sig_from(decl.inputs, decl.output, first), n),
{
    let sig = sig_from(decl.inputs, decl.output, first);
    assert(decl_tys(decl).drop_last() =~= decl.inputs);
    lemma_global_labels_fit(decl.output, first + count_all(decl.inputs), n);
    assert forall|i: int| 0 <= i < sig.inputs.len() implies lty_fits(
        #[trigger] sig.inputs[i],
        n,
        0,
    ) by {
        lemma_count_all_grows(decl.inputs, i, decl.inputs.len() as int);
        assert(decl.inputs.take(decl.inputs.len() as int) =~= decl.inputs);
        lemma_global_labels_fit(decl.inputs[i], first + count_all(decl.inputs.take(i)), n);
    }
}

proof fn lemma_lty_fits_more(lty: Seq<LabeledNode<PointerId>>, n: nat, m: nat)
    requires
        lty_fits(lty, n, 0),
        n <= m,
    ensures
        lty_fits(lty, m, 0),
{
}

proof fn lemma_sig_fits_more(sig: SigView, n: nat, m: nat)
    requires
        sig_fits(sig, n),
        n <= m,
    ensures
        sig_fits(sig, m),
{
    lemma_lty_fits_more(sig.output, n, m);
    assert forall|i: int| 0 <= i < sig.inputs.len() implies lty_fits(
        #[trigger] sig.inputs[i],
        m,
        0,
    ) by {
        lemma_lty_fits_more(sig.inputs[i], n, m);
    }
}

proof fn lemma_sigs_after_fit(
    sigs: Map<DefId, SigView>,
    decls: Seq<DeclView>,
    first: nat,
    n: nat,
    d: DefId,
)
    requires
        forall|d: DefId| #[trigger] sigs.contains_key(d) ==> sig_fits(sigs[d], first),
        first + count_decls(decls) <= n,
        n <= usize::MAX,
        sigs_after(sigs, decls, first).contains_key(d),
    ensures
        sig_fits(sigs_after(sigs, decls, first)[d], n),
    decreases decls.len(),
{
    if decls.len() == 0 {
        lemma_sig_fits_more(sigs[d], first, n);
    } else {
        let front = decls.drop_last();
        if decls.last().did == d {
            lemma_sig_fits(decls.last(), first + count_decls(front), n);
        } else {
            lemma_sigs_after_fit(sigs, front, first, n, d);
        }
    }
}

/// Adding signatures keeps every label within the pointers that there are.
pub proof fn law_sigs_fit(
    before: GlobalAnalysisCtxt,
    after: GlobalAnalysisCtxt,
    decls: Seq<DeclView>,
)
    requires
        before.wf(),
        sigs_added(before, after, decls),
    ensures
        after.wf(),
{
    let first = before.infos().len();
    let n = after.infos().len();
    let sigs = sig_views(before.fn_sigs@);
    assert(n == after.ptr_info.values.len());
    lemma_decl_infos_len(decls);
    assert forall|d: DefId| #[trigger] sigs.contains_key(d) implies sig_fits(sigs[d], first) by {
        assert(before.fn_sigs@.contains_key(d));
    }
    assert forall|d: DefId| #[trigger] after.fn_sigs@.contains_key(d) implies sig_fits(
        after.fn_sigs@[d]@,
        n,
    ) by {
        assert(sig_views(after.fn_sigs@).contains_key(d));
        lemma_sigs_after_fit(sigs, decls, first, n, d);
    }
    lemma_rest_fits(before, after);
}

proof fn lemma_rest_fits(before: GlobalAnalysisCtxt, after: GlobalAnalysisCtxt)
    requires
        before.wf(),
        before.infos().len() <= after.infos().len(),
    ensures
        after.static_tys == before.static_tys ==> forall|d: DefId| #[trigger]
            after.static_tys@.contains_key(d) ==> lty_fits(
                after.static_tys@[d]@,
                after.infos().len(),
                0,
            ),
        after.field_ltys == before.field_ltys ==> forall|d: DefId| #[trigger]
            after.field_ltys@.contains_key(d) ==> lty_fits(
                after.field_ltys@[d]@,
                after.infos().len(),
                0,
            ),
        after.fn_sigs == before.fn_sigs ==> forall|d: DefId| #[trigger]
            after.fn_sigs@.contains_key(d) ==> sig_fits(
                after.fn_sigs@[d]@,
                after.infos().len(),
            ),
{
    let n = before.infos().len();
    let m = after.infos().len();
    if after.fn_sigs == before.fn_sigs {
        assert forall|d: DefId| #[trigger] after.fn_sigs@.contains_key(d) implies sig_fits(
            after.fn_sigs@[d]@,
            m,
        ) by {
            lemma_sig_fits_more(before.fn_sigs@[d]@, n, m);
        }
    }
}

proof fn lemma_static_tys_after_fit(
    tys: Map<DefId, Seq<LabeledNode<PointerId>>>,
    addrs: Map<DefId, PointerId>,
    statics: Seq<TypedDef>,
    first: nat,
    n: nat,
    d: DefId,
)
    requires
        forall|d: DefId| #[trigger] tys.contains_key(d) ==> lty_fits(tys[d], first, 0),
        forall|d: DefId| #[trigger] addrs.contains_key(d) ==> is_label(first, 0, addrs[d]),
        first + count_statics(statics) <= n,
        n <= usize::MAX,
    ensures
        static_tys_after(tys, statics, first).contains_key(d) ==> lty_fits(
            static_tys_after(tys, statics, first)[d],
            n,
            0,
        ),
        static_addrs_after(addrs, statics, first).contains_key(d) ==> is_label(
            n,
            0,
            static_addrs_after(addrs, statics, first)[d],
        ),
        (tys.contains_key(d) <==> addrs.contains_key(d)) ==> (static_tys_after(
            tys,
            statics,
            first,
        ).contains_key(d) <==> static_addrs_after(addrs, statics, first).contains_key(d)),
    decreases statics.len(),
{
    if statics.len() > 0 {
        let front = statics.drop_last();
        lemma_static_tys_after_fit(tys, addrs, front, first, n, d);
        if statics.last().did == d {
            lemma_global_labels_fit(statics.last().nodes, first + count_statics(front), n);
        }
    }
}

/// Adding statics keeps every label within the pointers that there are.
pub proof fn law_statics_fit(
    before: GlobalAnalysisCtxt,
    after: GlobalAnalysisCtxt,
    statics: Seq<TypedDef>,
)
    requires
        before.wf(),
        statics_added(before, after, statics),
    ensures
        after.wf(),
{
    let first = before.infos().len();
    let n = after.infos().len();
    let tys = lty_views(before.static_tys@);
    let addrs = before.addr_of_static@;
    assert(n == after.ptr_info.values.len());
    lemma_static_infos_len(statics);
    lemma_rest_fits(before, after);
    assert forall|d: DefId| #[trigger] tys.contains_key(d) implies lty_fits(tys[d], first, 0) by {
        assert(before.static_tys@.contains_key(d));
    }
    assert forall|d: DefId| #[trigger] after.static_tys@.contains_key(d) implies lty_fits(
        after.static_tys@[d]@,
        n,
        0,
    ) by {
        assert(lty_views(after.static_tys@).contains_key(d));
        lemma_static_tys_after_fit(tys, addrs, statics, first, n, d);
    }
    assert forall|d: DefId| #[trigger] after.addr_of_static@.contains_key(d) implies is_label(
        n,
        0,
        after.addr_of_static@[d],
    ) by {
        lemma_static_tys_after_fit(tys, addrs, statics, first, n, d);
    }
    assert forall|d: DefId|
        after.addr_of_static@.dom().contains(d) <==> after.static_tys@.dom().contains(d) by {
        assert(before.addr_of_static@.dom().contains(d) <==> before.static_tys@.dom().contains(d));
        assert(lty_views(after.static_tys@).contains_key(d) <==> after.static_tys@.contains_key(d));
        assert(tys.contains_key(d) <==> before.static_tys@.contains_key(d));
        lemma_static_tys_after_fit(tys, addrs, statics, first, n, d);
    }
    assert(after.addr_of_static@.dom() =~= after.static_tys@.dom());
}

proof fn lemma_field_tys_after_fit(
    tys: Map<DefId, Seq<LabeledNode<PointerId>>>,
    fields: Seq<TypedDef>,
    first: nat,
    n: nat,
    d: DefId,
)
    requires
        forall|d: DefId| #[trigger] tys.contains_key(d) ==> lty_fits(tys[d], first, 0),
        first + count_fields(fields) <= n,
        n <= usize::MAX,
        field_tys_after(tys, fields, first).contains_key(d),
    ensures
        lty_fits(field_tys_after(tys, fields, first)[d], n, 0),
    decreases fields.len(),
{
    if fields.len() > 0 {
        let front = fields.drop_last();
        if fields.last().did == d {
            lemma_global_labels_fit(fields.last().nodes, first + count_fields(front), n);
        } else {
            lemma_field_tys_after_fit(tys, front, first, n, d);
        }
    }
}

/// Adding fields keeps every label within the pointers that there are.
pub proof fn law_fields_fit(
    before: GlobalAnalysisCtxt,
    after: GlobalAnalysisCtxt,
    fields: Seq<TypedDef>,
)
    requires
        before.wf(),
        fields_added(before, after, fields),
    ensures
        after.wf(),
{
    let first = before.infos().len();
    let n = after.infos().len();
    let tys = lty_views(before.field_ltys@);
    assert(n == after.ptr_info.values.len());
    lemma_field_infos_len(fields);
    lemma_rest_fits(before, after);
    assert forall|d: DefId| #[trigger] tys.contains_key(d) implies lty_fits(tys[d], first, 0) by {
        assert(before.field_ltys@.contains_key(d));
    }
    assert forall|d: DefId| #[trigger] after.field_ltys@.contains_key(d) implies lty_fits(
        after.field_ltys@[d]@,
        n,
        0,
    ) by {
        assert(lty_views(after.field_ltys@).contains_key(d));
        lemma_field_tys_after_fit(tys, fields, first, n, d);
    }
}

proof fn lemma_count_all_parts(a: Seq<Seq<TyNode>>, b: Seq<Seq<TyNode>>, base: PointerInfo)
    ensures
        count_all(a + b) == count_all(a) + count_all(b),
        infos_all(a + b, base) == infos_all(a, base) + infos_all(b, base),
    decreases b.len(),
{
    if b.len() == 0 {
        assert(a + b =~= a);
        assert(infos_all(a, base) + infos_all(b, base) =~= infos_all(a, base));
    } else {
        assert((a + b).drop_last() =~= a + b.drop_last());
        lemma_count_all_parts(a, b.drop_last(), base);
        assert(infos_all(a + b, base) =~= infos_all(a, base) + infos_all(b, base));
    }
}

/// The pointers of several types are those of the first types and then those of the others, and
/// the pointers of a single type are its own.
pub proof fn law_several_types(
    a: Seq<Seq<TyNode>>,
    b: Seq<Seq<TyNode>>,
    nodes: Seq<TyNode>,
    base: PointerInfo,
)
    ensures
        count_all(a + b) == count_all(a) + count_all(b),
        infos_all(a + b, base) == infos_all(a, base) + infos_all(b, base),
        count_all(seq![nodes]) == pointer_infos(nodes, base).len(),
        infos_all(seq![nodes], base) == pointer_infos(nodes, base),
        count_all(Seq::<Seq<TyNode>>::empty()) == 0,
{
    lemma_count_all_parts(a, b, base);
    reveal_with_fuel(count_all, 2);
    reveal_with_fuel(infos_all, 2);
    let one = seq![nodes];
    assert(one.drop_last() =~= Seq::<Seq<TyNode>>::empty());
    lemma_one_info_each(nodes, base);
    assert(infos_all(one, base) =~= pointer_infos(nodes, base));
}

proof fn lemma_inputs_before(inputs: Seq<Seq<TyNode>>, i: int, j: int)
    requires
        0 <= i < j <= inputs.len(),
    ensures
        count_all(inputs.take(i)) + count_pointers(inputs[i]) <= count_all(inputs.take(j)),
    decreases j,
{
    assert(inputs.take(j).drop_last() =~= inputs.take(j - 1));
    if i < j - 1 {
        lemma_inputs_before(inputs, i, j - 1);
    }
}

proof fn lemma_label_range(nodes: Seq<TyNode>, first: nat, k: int)
    requires
        0 <= k < nodes.len(),
        nodes[k].ctor is Ref || nodes[k].ctor is RawPtr,
        first + count_pointers(nodes) <= usize::MAX,
    ensures
        global_labels(nodes, first)[k].label matches PointerId::Global(p) && first <= p < first
            + count_pointers(nodes),
{
    lemma_count_grows(nodes, k, nodes.len() as int);
    assert(nodes.take(nodes.len() as int) =~= nodes);
}

/// A labeled signature has the types that it was made from, in their order, with a pointer at
/// exactly the references and raw pointers. All of them are new, and no two are the same, neither
/// in one type nor in two.
pub proof fn law_signature_labels(
    inputs: Seq<Seq<TyNode>>,
    output: Seq<TyNode>,
    first: nat,
    i: int,
    j: int,
    k: int,
    m: int,
)
    requires
        first + count_all(inputs.push(output)) <= usize::MAX,
        0 <= i < inputs.len(),
        0 <= k < inputs[i].len(),
    ensures
        ({
            let sig = sig_from(inputs, output, first);
            let label = sig.inputs[i][k].label;
            let new = inputs[i][k].ctor is Ref || inputs[i][k].ctor is RawPtr;
            &&& sig.inputs.len() == inputs.len()
            &&& sig.inputs[i].len() == inputs[i].len()
            &&& sig.inputs[i][k].node == inputs[i][k]
            &&& new ==> (label matches PointerId::Global(p) && first <= p < first + count_all(
                inputs.push(output),
            ))
            &&& !new ==> label == PointerId::Absent
            &&& new && 0 <= j < inputs.len() && 0 <= m < inputs[j].len() && (i != j || k != m)
                ==> sig.inputs[j][m].label != label
            &&& new && 0 <= m < output.len() ==> sig.output[m].label != label
        }),
{
    let n = inputs.len() as int;
    let all = inputs.push(output);
    assert(all.drop_last() =~= inputs);
    assert(inputs.take(n) =~= inputs);
    lemma_inputs_before(inputs, i, n);
    let new = inputs[i][k].ctor is Ref || inputs[i][k].ctor is RawPtr;
    let at = first + count_all(inputs.take(i));
    if new {
        lemma_label_range(inputs[i], at, k);
        if 0 <= j < n && 0 <= m < inputs[j].len() {
            lemma_inputs_before(inputs, j, n);
            let at_j = first + count_all(inputs.take(j));
            if inputs[j][m].ctor is Ref || inputs[j][m].ctor is RawPtr {
                lemma_label_range(inputs[j], at_j, m);
                if i < j {
                    lemma_inputs_before(inputs, i, j);
                } else if j < i {
                    lemma_inputs_before(inputs, j, i);
                } else if k < m {
                    lemma_count_grows(inputs[i], k, m);
                } else if m < k {
                    lemma_count_grows(inputs[i], m, k);
                }
                if i == j {
                    lemma_count_grows(inputs[i], k, inputs[i].len() as int);
                    lemma_count_grows(inputs[i], m, inputs[i].len() as int);
                    assert(inputs[i].take(inputs[i].len() as int) =~= inputs[i]);
                }
            }
        }
        if 0 <= m < output.len() && (output[m].ctor is Ref || output[m].ctor is RawPtr) {
            lemma_label_range(output, first + count_all(inputs), m);
        }
    }
}

/// The output of a labeled signature has the nodes of its type, with a new pointer at exactly the
/// references and raw pointers, and no pointer twice.
pub proof fn law_output_labels(
    inputs: Seq<Seq<TyNode>>,
    output: Seq<TyNode>,
    first: nat,
    k: int,
    m: int,
)
    requires
        first + count_all(inputs.push(output)) <= usize::MAX,
        0 <= k < output.len(),
    ensures
        ({
            let sig = sig_from(inputs, output, first);
            let label = sig.output[k].label;
            let new = output[k].ctor is Ref || output[k].ctor is RawPtr;
            &&& sig.output.len() == output.len()
            &&& sig.output[k].node == output[k]
            &&& new ==> (label matches PointerId::Global(p) && first <= p < first + count_all(
                inputs.push(output),
            ))
            &&& !new ==> label == PointerId::Absent
            &&& new && 0 <= m < output.len() && k != m ==> sig.output[m].label != label
        }),
{
    assert(inputs.push(output).drop_last() =~= inputs);
    let at = first + count_all(inputs);
    if output[k].ctor is Ref || output[k].ctor is RawPtr {
        lemma_label_range(output, at, k);
        if 0 <= m < output.len() && (output[m].ctor is Ref || output[m].ctor is RawPtr) {
            lemma_label_range(output, at, m);
            if k < m {
                lemma_count_grows(output, k, m);
            } else if m < k {
                lemma_count_grows(output, m, k);
            }
            lemma_count_grows(output, k, output.len() as int);
            lemma_count_grows(output, m, output.len() as int);
            assert(output.take(output.len() as int) =~= output);
        }
    }
}

/// Declarations are labeled one after the other: those of a first part get the first pointers, and
/// those of a second the next ones. Of a single declaration, all inputs and the output get
/// pointers, of which it is known that the user wrote them down.
pub proof fn law_declarations_in_order(
    sigs: Map<DefId, SigView>,
    a: Seq<DeclView>,
    b: Seq<DeclView>,
    d: DeclView,
    first: nat,
)
    ensures
        count_decls(a + b) == count_decls(a) + count_decls(b),
        decl_infos(a + b) == decl_infos(a) + decl_infos(b),
        sigs_after(sigs, a + b, first) == sigs_after(
            sigs_after(sigs, a, first),
            b,
            first + count_decls(a),
        ),
        decl_infos(seq![d]) == infos_all(d.inputs, PointerInfo { bits: PointerInfo::ANNOTATED })
            + pointer_infos(d.output, PointerInfo { bits: PointerInfo::ANNOTATED }),
        count_decls(seq![d]) == decl_infos(seq![d]).len(),
        sigs_after(sigs, seq![d], first) == sigs.insert(d.did, sig_from(d.inputs, d.output, first)),
        sigs_after(sigs, Seq::<DeclView>::empty(), first) == sigs,
    decreases b.len(),
{
    reveal_with_fuel(count_decls, 2);
    reveal_with_fuel(decl_infos, 2);
    reveal_with_fuel(sigs_after, 2);
    let one = seq![d];
    assert(one.drop_last() =~= Seq::<DeclView>::empty());
    assert(d.inputs.push(d.output).drop_last() =~= d.inputs);
    assert(decl_infos(one) =~= infos_all(d.inputs, annotated()) + pointer_infos(
        d.output,
        annotated(),
    ));
    lemma_decl_infos_len(one);
    if b.len() == 0 {
        assert(a + b =~= a);
        assert(decl_infos(a) + decl_infos(b) =~= decl_infos(a));
    } else {
        assert((a + b).drop_last() =~= a + b.drop_last());
        law_declarations_in_order(sigs, a, b.drop_last(), d, first);
        assert(decl_infos(a + b) =~= decl_infos(a) + decl_infos(b));
    }
}

/// The declarations among foreign items are those of a first part and then those of a second. A
/// single item is a declaration exactly if it is a function, and then with all its inputs and its
/// output.
pub proof fn law_foreign_declarations(a: Seq<ForeignItem>, b: Seq<ForeignItem>, item: ForeignItem)
    ensures
        foreign_decls(a + b) == foreign_decls(a) + foreign_decls(b),
        item.kind == DefKind::Fn || item.kind == DefKind::AssocFn ==> {
            let ds = foreign_decls(seq![item]);
            &&& ds.len() == 1
            &&& ds[0].did == item.did
            &&& ds[0].output == item.output.nodes@
            &&& ds[0].inputs.len() == item.inputs@.len()
            &&& forall|i: int|
                0 <= i < item.inputs@.len() ==> #[trigger] ds[0].inputs[i] == item.inputs@[i].nodes@
        },
        item.kind != DefKind::Fn && item.kind != DefKind::AssocFn ==> foreign_decls(
            seq![item],
        ).len() == 0,
    decreases b.len(),
{
    reveal_with_fuel(foreign_decls, 2);
    assert(seq![item].drop_last() =~= Seq::<ForeignItem>::empty());
    if b.len() == 0 {
        assert(a + b =~= a);
        assert(foreign_decls(a) + foreign_decls(b) =~= foreign_decls(a));
    } else {
        assert((a + b).drop_last() =~= a + b.drop_last());
        law_foreign_declarations(a, b.drop_last(), item);
        assert(foreign_decls(a + b) =~= foreign_decls(a) + foreign_decls(b));
    }
}

/// Statics are labeled one after the other. The pointers in the type of a single static come
/// first, and the user wrote them down; then comes one more, the pointer to the static itself, of
/// which nothing is known.
pub proof fn law_statics_in_order(
    tys: Map<DefId, Seq<LabeledNode<PointerId>>>,
    addrs: Map<DefId, PointerId>,
    a: Seq<TypedDef>,
    b: Seq<TypedDef>,
    s: TypedDef,
    first: nat,
)
    requires
        first + count_pointers(s.nodes) <= usize::MAX,
    ensures
        count_statics(a + b) == count_statics(a) + count_statics(b),
        static_infos(a + b) == static_infos(a) + static_infos(b),
        static_tys_after(tys, a + b, first) == static_tys_after(
            static_tys_after(tys, a, first),
            b,
            first + count_statics(a),
        ),
        static_addrs_after(addrs, a + b, first) == static_addrs_after(
            static_addrs_after(addrs, a, first),
            b,
            first + count_statics(a),
        ),
        count_statics(seq![s]) == count_pointers(s.nodes) + 1,
        static_infos(seq![s]) == pointer_infos(
            s.nodes,
            PointerInfo { bits: PointerInfo::ANNOTATED },
        ).push(PointerInfo { bits: 0 }),
        static_tys_after(tys, seq![s], first) == tys.insert(
            s.did,
            labeled_from(s.nodes, first, |i: nat| PointerId::Global(i as usize)),
        ),
        static_addrs_after(addrs, seq![s], first) == addrs.insert(
            s.did,
            PointerId::Global((first + count_pointers(s.nodes)) as usize),
        ),
    decreases b.len(),
{
    reveal_with_fuel(count_statics, 2);
    reveal_with_fuel(static_infos, 2);
    reveal_with_fuel(static_tys_after, 2);
    reveal_with_fuel(static_addrs_after, 2);
    let one = seq![s];
    assert(one.drop_last() =~= Seq::<TypedDef>::empty());
    assert(static_infos(one) =~= pointer_infos(s.nodes, annotated()).push(PointerInfo { bits: 0 }));
    assert(global_labels(s.nodes, first) =~= labeled_from(
        s.nodes,
        first,
        |i: nat| PointerId::Global(i as usize),
    ));
    if b.len() == 0 {
        assert(a + b =~= a);
        assert(static_infos(a) + static_infos(b) =~= static_infos(a));
    } else {
        assert((a + b).drop_last() =~= a + b.drop_last());
        law_statics_in_order(tys, addrs, a, b.drop_last(), s, first);
        assert(static_infos(a + b) =~= static_infos(a) + static_infos(b));
    }
}

/// Fields are labeled one after the other, and the user wrote all their pointers down.
pub proof fn law_fields_in_order(
    tys: Map<DefId, Seq<LabeledNode<PointerId>>>,
    a: Seq<TypedDef>,
    b: Seq<TypedDef>,
    f: TypedDef,
    first: nat,
)
    ensures
        count_fields(a + b) == count_fields(a) + count_fields(b),
        field_infos(a + b) == field_infos(a) + field_infos(b),
        field_tys_after(tys, a + b, first) == field_tys_after(
            field_tys_after(tys, a, first),
            b,
            first + count_fields(a),
        ),
        count_fields(seq![f]) == count_pointers(f.nodes),
        field_infos(seq![f]) == pointer_infos(
            f.nodes,
            PointerInfo { bits: PointerInfo::ANNOTATED },
        ),
        field_tys_after(tys, seq![f], first) == tys.insert(
            f.did,
            labeled_from(f.nodes, first, |i: nat| PointerId::Global(i as usize)),
        ),
    decreases b.len(),
{
    reveal_with_fuel(count_fields, 2);
    reveal_with_fuel(field_infos, 2);
    reveal_with_fuel(field_tys_after, 2);
    let one = seq![f];
    assert(one.drop_last() =~= Seq::<TypedDef>::empty());
    assert(field_infos(one) =~= pointer_infos(f.nodes, annotated()));
    assert(global_labels(f.nodes, first) =~= labeled_from(
        f.nodes,
        first,
        |i: nat| PointerId::Global(i as usize),
    ));
    if b.len() == 0 {
        assert(a + b =~= a);
        assert(field_infos(a) + field_infos(b) =~= field_infos(a));
    } else {
        assert((a + b).drop_last() =~= a + b.drop_last());
        law_fields_in_order(tys, a, b.drop_last(), f, first);
        assert(field_infos(a + b) =~= field_infos(a) + field_infos(b));
    }
}

/// The fields of several structs, enums and unions are those of the first and then those of the
/// others; of a single one they are all its fields, in order, with the types that get labels.
pub proof fn law_all_fields(adts: Map<DefId, Vec<Field>>, a: Seq<DefId>, b: Seq<DefId>, d: DefId)
    ensures
        all_fields(adts, a + b) == all_fields(adts, a) + all_fields(adts, b),
        all_fields(adts, seq![d]).len() == adts[d]@.len(),
        forall|i: int|
            0 <= i < adts[d]@.len() ==> (#[trigger] all_fields(adts, seq![d])[i]).did
                == adts[d]@[i].did && all_fields(adts, seq![d])[i].nodes == adts[d]@[i].ty.nodes@,
    decreases b.len(),
{
    reveal_with_fuel(all_fields, 2);
    assert(seq![d].drop_last() =~= Seq::<DefId>::empty());
    assert(all_fields(adts, seq![d]) =~= field_views(adts[d]@));
    if b.len() == 0 {
        assert(a + b =~= a);
        assert(all_fields(adts, a) + all_fields(adts, b) =~= all_fields(adts, a));
    } else {
        assert((a + b).drop_last() =~= a + b.drop_last());
        law_all_fields(adts, a, b.drop_last(), d);
        assert(all_fields(adts, a + b) =~= all_fields(adts, a) + all_fields(adts, b));
    }
}

/// What declarations, statics and fields are about is taken over as it is.
pub proof fn law_views_are_faithful(decls: Seq<FnDecl>, statics: Seq<StaticDecl>, i: int, j: int)
    ensures
        decl_views(decls).len() == decls.len(),
        static_views(statics).len() == statics.len(),
        0 <= i < decls.len() ==> {
            &&& decl_views(decls)[i].did == decls[i].did
            &&& decl_views(decls)[i].output == decls[i].output.nodes@
            &&& decl_views(decls)[i].inputs.len() == decls[i].inputs@.len()
            &&& 0 <= j < decls[i].inputs@.len() ==> decl_views(decls)[i].inputs[j]
                == decls[i].inputs@[j].nodes@
        },
        0 <= i < statics.len() ==> static_views(statics)[i].did == statics[i].did
            && static_views(statics)[i].nodes == statics[i].ty.nodes@,
{
}

/// What labeling signatures, statics and fields adds is all that it changes.
pub proof fn law_labeling_frames(
    before: GlobalAnalysisCtxt,
    after: GlobalAnalysisCtxt,
    decls: Seq<DeclView>,
    defs: Seq<TypedDef>,
    d: DefId,
)
    ensures
        sigs_added(before, after, decls) ==> {
            &&& after.static_tys == before.static_tys
            &&& after.addr_of_static == before.addr_of_static
            &&& after.field_ltys == before.field_ltys
            &&& after.fns_failed == before.fns_failed
            &&& after.ptr_info@ == before.ptr_info@ + decl_infos(decls)
            &&& after.fn_sigs@.contains_key(d) <==> sigs_after(
                sig_views(before.fn_sigs@),
                decls,
                before.ptr_info@.len(),
            ).contains_key(d)
            &&& after.fn_sigs@.contains_key(d) ==> after.fn_sigs@[d]@ == sigs_after(
                sig_views(before.fn_sigs@),
                decls,
                before.ptr_info@.len(),
            )[d]
        },
        statics_added(before, after, defs) ==> {
            &&& after.fn_sigs == before.fn_sigs
            &&& after.field_ltys == before.field_ltys
            &&& after.fns_failed == before.fns_failed
            &&& after.ptr_info@ == before.ptr_info@ + static_infos(defs)
            &&& after.addr_of_static@ == static_addrs_after(
                before.addr_of_static@,
                defs,
                before.ptr_info@.len(),
            )
            &&& after.static_tys@.contains_key(d) ==> after.static_tys@[d]@ == static_tys_after(
                lty_views(before.static_tys@),
                defs,
                before.ptr_info@.len(),
            )[d]
            &&& after.static_tys@.contains_key(d) <==> static_tys_after(
                lty_views(before.static_tys@),
                defs,
                before.ptr_info@.len(),
            ).contains_key(d)
        },
        fields_added(before, after, defs) ==> {
            &&& after.fn_sigs == before.fn_sigs
            &&& after.static_tys == before.static_tys
            &&& after.addr_of_static == before.addr_of_static
            &&& after.fns_failed == before.fns_failed
            &&& after.ptr_info@ == before.ptr_info@ + field_infos(defs)
            &&& after.field_ltys@.contains_key(d) ==> after.field_ltys@[d]@ == field_tys_after(
                lty_views(before.field_ltys@),
                defs,
                before.ptr_info@.len(),
            )[d]
            &&& after.field_ltys@.contains_key(d) <==> field_tys_after(
                lty_views(before.field_ltys@),
                defs,
                before.ptr_info@.len(),
            ).contains_key(d)
        },
        sig_views(before.fn_sigs@).contains_key(d) <==> before.fn_sigs@.contains_key(d),
        before.fn_sigs@.contains_key(d) ==> sig_views(before.fn_sigs@)[d] == before.fn_sigs@[d]@,
        lty_views(before.field_ltys@).contains_key(d) <==> before.field_ltys@.contains_key(d),
        before.field_ltys@.contains_key(d) ==> lty_views(before.field_ltys@)[d]
            == before.field_ltys@[d].nodes@,
{
    assert(sig_views(after.fn_sigs@).contains_key(d) <==> after.fn_sigs@.contains_key(d));
    assert(lty_views(after.static_tys@).contains_key(d) <==> after.static_tys@.contains_key(d));
    assert(lty_views(after.field_ltys@).contains_key(d) <==> after.field_ltys@.contains_key(d));
}

/// After declarations were labeled, every one of them has a signature, and so has what had one
/// before; nothing else has. A signature that is new is that of one of the declarations.
pub proof fn law_every_declaration_is_labeled(
    sigs: Map<DefId, SigView>,
    decls: Seq<DeclView>,
    first: nat,
    d: DefId,
)
    ensures
        sigs_after(sigs, decls, first).contains_key(d) <==> sigs.contains_key(d) || exists|i: int|
            0 <= i < decls.len() && (#[trigger] decls[i]).did == d,
        sigs_after(sigs, decls, first).contains_key(d) ==> (sigs.contains_key(d) && sigs_after(
            sigs,
            decls,
            first,
        )[d] == sigs[d]) || exists|i: int|
            0 <= i < decls.len() && (#[trigger] decls[i]).did == d && sigs_after(
                sigs,
                decls,
                first,
            )[d] == sig_from(
                decls[i].inputs,
                decls[i].output,
                first + count_decls(decls.take(i)),
            ),
    decreases decls.len(),
{
    if decls.len() > 0 {
        let front = decls.drop_last();
        let n = decls.len() - 1;
        law_every_declaration_is_labeled(sigs, front, first, d);
        assert(decls.take(n) =~= front);
        if decls[n].did == d {
            assert(sigs_after(sigs, decls, first)[d] == sig_from(
                decls[n].inputs,
                decls[n].output,
                first + count_decls(decls.take(n)),
            ));
        }
        assert forall|i: int| 0 <= i < n implies #[trigger] decls[i] == front[i] && front.take(i)
            =~= decls.take(i) by {}
        if exists|i: int| 0 <= i < front.len() && (#[trigger] front[i]).did == d {
            let i = choose|i: int| 0 <= i < front.len() && (#[trigger] front[i]).did == d;
            assert(decls[i].did == d);
        }
        if decls[n].did != d && exists|i: int|
            0 <= i < front.len() && (#[trigger] front[i]).did == d && sigs_after(
                sigs,
                front,
                first,
            )[d] == sig_from(
                front[i].inputs,
                front[i].output,
                first + count_decls(front.take(i)),
            ) {
            let i = choose|i: int|
                0 <= i < front.len() && (#[trigger] front[i]).did == d && sigs_after(
                    sigs,
                    front,
                    first,
                )[d] == sig_from(
                    front[i].inputs,
                    front[i].output,
                    first + count_decls(front.take(i)),
                );
            assert(decls[i] == front[i]);
        }
    }
}

/// After statics were labeled, every one of them has a type and an address, and so has what had
/// them before; nothing else has. What is new has the nodes of the type of one of the statics.
pub proof fn law_every_static_is_labeled(
    tys: Map<DefId, Seq<LabeledNode<PointerId>>>,
    addrs: Map<DefId, PointerId>,
    statics: Seq<TypedDef>,
    first: nat,
    d: DefId,
)
    ensures
        static_tys_after(tys, statics, first).contains_key(d) <==> tys.contains_key(d) || exists|
            i: int,
        |
            0 <= i < statics.len() && (#[trigger] statics[i]).did == d,
        static_addrs_after(addrs, statics, first).contains_key(d) <==> addrs.contains_key(d)
            || exists|i: int| 0 <= i < statics.len() && (#[trigger] statics[i]).did == d,
        static_tys_after(tys, statics, first).contains_key(d) && !tys.contains_key(d) ==> exists|
            i: int,
        |
            0 <= i < statics.len() && (#[trigger] statics[i]).did == d && {
                let lty = static_tys_after(tys, statics, first)[d];
                &&& lty.len() == statics[i].nodes.len()
                &&& forall|k: int| 0 <= k < lty.len() ==> (#[trigger] lty[k]).node
                    == statics[i].nodes[k]
            },
    decreases statics.len(),
{
    if statics.len() > 0 {
        let front = statics.drop_last();
        let n = statics.len() - 1;
        law_every_static_is_labeled(tys, addrs, front, first, d);
        assert(statics[n] == statics.last());
        assert forall|i: int| 0 <= i < n implies #[trigger] statics[i] == front[i] by {}
        if exists|i: int| 0 <= i < front.len() && (#[trigger] front[i]).did == d {
            let i = choose|i: int| 0 <= i < front.len() && (#[trigger] front[i]).did == d;
            assert(statics[i].did == d);
        }
        if statics[n].did != d && static_tys_after(tys, front, first).contains_key(d)
            && !tys.contains_key(d) {
            let i = choose|i: int|
                0 <= i < front.len() && (#[trigger] front[i]).did == d && {
                    let lty = static_tys_after(tys, front, first)[d];
                    &&& lty.len() == front[i].nodes.len()
                    &&& forall|k: int| 0 <= k < lty.len() ==> (#[trigger] lty[k]).node
                        == front[i].nodes[k]
                };
            assert(statics[i] == front[i]);
        }
    }
}

/// After fields were labeled, every one of them has a type, and so has what had one before; nothing
/// else has. What is new has the nodes of the type of one of the fields.
pub proof fn law_every_field_is_labeled(
    tys: Map<DefId, Seq<LabeledNode<PointerId>>>,
    fields: Seq<TypedDef>,
    first: nat,
    d: DefId,
)
    ensures
        field_tys_after(tys, fields, first).contains_key(d) <==> tys.contains_key(d) || exists|
            i: int,
        |
            0 <= i < fields.len() && (#[trigger] fields[i]).did == d,
        field_tys_after(tys, fields, first).contains_key(d) && !tys.contains_key(d) ==> exists|
            i: int,
        |
            0 <= i < fields.len() && (#[trigger] fields[i]).did == d && {
                let lty = field_tys_after(tys, fields, first)[d];
                &&& lty.len() == fields[i].nodes.len()
                &&& forall|k: int| 0 <= k < lty.len() ==> (#[trigger] lty[k]).node
                    == fields[i].nodes[k]
            },
    decreases fields.len(),
{
    if fields.len() > 0 {
        let front = fields.drop_last();
        let n = fields.len() - 1;
        law_every_field_is_labeled(tys, front, first, d);
        assert(fields[n] == fields.last());
        assert forall|i: int| 0 <= i < n implies #[trigger] fields[i] == front[i] by {}
        if exists|i: int| 0 <= i < front.len() && (#[trigger] front[i]).did == d {
            let i = choose|i: int| 0 <= i < front.len() && (#[trigger] front[i]).did == d;
            assert(fields[i].did == d);
        }
        if fields[n].did != d && field_tys_after(tys, front, first).contains_key(d)
            && !tys.contains_key(d) {
            let i = choose|i: int|
                0 <= i < front.len() && (#[trigger] front[i]).did == d && {
                    let lty = field_tys_after(tys, front, first)[d];
                    &&& lty.len() == front[i].nodes.len()
                    &&& forall|k: int| 0 <= k < lty.len() ==> (#[trigger] lty[k]).node
                        == front[i].nodes[k]
                };
            assert(fields[i] == front[i]);
        }
    }
}

/// Every function among foreign items has a declaration, and every declaration is that of one.
pub proof fn law_foreign_functions(items: Seq<ForeignItem>, d: DefId)
    ensures
        (exists|k: int|
            0 <= k < foreign_decls(items).len() && (#[trigger] foreign_decls(items)[k]).did == d)
            <==> exists|i: int|
            0 <= i < items.len() && (#[trigger] items[i]).did == d && (items[i].kind == DefKind::Fn
                || items[i].kind == DefKind::AssocFn),
    decreases items.len(),
{
    if items.len() > 0 {
        let front = items.drop_last();
        let n = items.len() - 1;
        let ds = foreign_decls(items);
        let fs = foreign_decls(front);
        law_foreign_functions(front, d);
        assert(items[n] == items.last());
        assert forall|i: int| 0 <= i < n implies #[trigger] items[i] == front[i] by {}
        assert forall|k: int| 0 <= k < fs.len() implies #[trigger] ds[k] == fs[k] by {}
        if exists|i: int|
            0 <= i < items.len() && (#[trigger] items[i]).did == d && (items[i].kind == DefKind::Fn
                || items[i].kind == DefKind::AssocFn) {
            let i = choose|i: int|
                0 <= i < items.len() && (#[trigger] items[i]).did == d && (items[i].kind
                    == DefKind::Fn || items[i].kind == DefKind::AssocFn);
            if i < n {
                assert(front[i].did == d);
                let k = choose|k: int| 0 <= k < fs.len() && (#[trigger] fs[k]).did == d;
                assert(ds[k].did == d);
            } else {
                assert(ds[ds.len() - 1].did == d);
            }
        }
        if exists|k: int| 0 <= k < ds.len() && (#[trigger] ds[k]).did == d {
            let k = choose|k: int| 0 <= k < ds.len() && (#[trigger] ds[k]).did == d;
            if k < fs.len() {
                assert(fs[k].did == d);
                let i = choose|i: int|
                    0 <= i < front.len() && (#[trigger] front[i]).did == d && (front[i].kind
                        == DefKind::Fn || front[i].kind == DefKind::AssocFn);
                assert(items[i].did == d);
            } else {
                assert(items[n].did == d);
            }
        }
    }
}

/// The fields of structs, enums and unions are all fields of each of them, and no others.
pub proof fn law_fields_of_all(adts: Map<DefId, Vec<Field>>, dids: Seq<DefId>, d: DefId)
    ensures
        (exists|k: int|
            0 <= k < all_fields(adts, dids).len() && (#[trigger] all_fields(adts, dids)[k]).did
                == d) <==> exists|i: int, f: int|
            #![trigger adts[dids[i]]@[f]]
            0 <= i < dids.len() && 0 <= f < adts[dids[i]]@.len() && adts[dids[i]]@[f].did == d,
    decreases dids.len(),
{
    if dids.len() > 0 {
        let front = dids.drop_last();
        let n = dids.len() - 1;
        let all = all_fields(adts, dids);
        let fs = all_fields(adts, front);
        let own = field_views(adts[dids[n]]@);
        law_fields_of_all(adts, front, d);
        assert(all =~= fs + own);
        assert forall|i: int| 0 <= i < n implies #[trigger] dids[i] == front[i] by {}
        if exists|i: int, f: int|
            #![trigger adts[dids[i]]@[f]]
            0 <= i < dids.len() && 0 <= f < adts[dids[i]]@.len() && adts[dids[i]]@[f].did == d {
            let (i, f) = choose|i: int, f: int|
                #![trigger adts[dids[i]]@[f]]
                0 <= i < dids.len() && 0 <= f < adts[dids[i]]@.len() && adts[dids[i]]@[f].did == d;
            if i < n {
                assert(adts[front[i]]@[f].did == d);
                let k = choose|k: int| 0 <= k < fs.len() && (#[trigger] fs[k]).did == d;
                assert(all[k].did == d);
            } else {
                assert(own[f].did == d);
                assert(all[fs.len() + f].did == d);
            }
        }
        if exists|k: int| 0 <= k < all.len() && (#[trigger] all[k]).did == d {
            let k = choose|k: int| 0 <= k < all.len() && (#[trigger] all[k]).did == d;
            if k < fs.len() {
                assert(fs[k].did == d);
                let (i, f) = choose|i: int, f: int|
                    #![trigger adts[front[i]]@[f]]
                    0 <= i < front.len() && 0 <= f < adts[front[i]]@.len() && adts[front[i]]@[f].did
                        == d;
                assert(adts[dids[i]]@[f].did == d);
            } else {
                assert(adts[dids[n]]@[k - fs.len()].did == d);
            }
        }
    }
}

} // verus!
