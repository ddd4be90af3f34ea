//! Which pointers keep their types because of where they occur.
use crate::adts::Field;
use crate::assignment::{
    fix_pointer, fixes, law_fix, law_fix_twice, law_fixing_sets_one_bit, lemma_fix_none,
    make_sig_fixed, make_ty_fixed, only, pointers_in, sig_pointers, GlobalAssignment,
};
use crate::context::{lty_fits, sig_fits, GlobalAnalysisCtxt};
use crate::def_id::{lemma_next_key, DefId, DefIdSet, DefKind, DefMap};
use crate::definitions::Definition;
use crate::flags::FlagSet;
use crate::pointer_id::PointerId;
use crate::ty::{mentions, sig_mentions, LFnSig, LTy};
use vstd::prelude::*;

verus! {

proof fn lemma_fixes_more(
    before: GlobalAssignment,
    mid: GlobalAssignment,
    after: GlobalAssignment,
    done: Set<PointerId>,
    this: Set<PointerId>,
    all: Set<PointerId>,
)
    requires
        fixes(before, mid, done),
        fixes(mid, after, this),
        forall|p: PointerId| #[trigger] all.contains(p) <==> done.contains(p) || this.contains(p),
    ensures
        fixes(before, after, all),
{
    law_fix_twice(before.flags@, done, this);
    assert(done.union(this) =~= all);
}

/// The pointers in the signatures of the functions in `dids`, as far as those have signatures.
pub open spec fn pointers_of_sigs(sigs: Map<DefId, LFnSig>, dids: Set<DefId>) -> Set<PointerId> {
    Set::new(
        |p: PointerId|
            exists|d: DefId| #[trigger]
                sigs.contains_key(d) && dids.contains(d) && sig_mentions(sigs[d]@, p),
    )
}

/// The pointers in the types of the statics in `dids`, and the pointers to them.
pub open spec fn pointers_of_statics(
    tys: Map<DefId, LTy>,
    addrs: Map<DefId, PointerId>,
    dids: Set<DefId>,
) -> Set<PointerId> {
    Set::new(
        |p: PointerId|
            exists|d: DefId| #[trigger]
                tys.contains_key(d) && dids.contains(d) && (mentions(tys[d]@, p) || only(
                    addrs[d],
                ).contains(p)),
    )
}

/// The pointers in the types of the fields of those of `structs` that are in `dids`.
pub open spec fn pointers_of_structs(
    adts: Map<DefId, Vec<Field>>,
    tys: Map<DefId, LTy>,
    structs: Seq<DefId>,
    dids: Set<DefId>,
) -> Set<PointerId> {
    Set::new(
        |p: PointerId|
            exists|i: int, f: int|
                #![trigger adts[structs[i]]@[f]]
                0 <= i < structs.len() && dids.contains(structs[i]) && 0 <= f
                    < adts[structs[i]]@.len() && mentions(tys[adts[structs[i]]@[f].did]@, p),
    )
}

/// The fields of `did` are known, and so are their labeled types.
pub open spec fn fields_known(
    adts: Map<DefId, Vec<Field>>,
    tys: Map<DefId, LTy>,
    did: DefId,
) -> bool {
    &&& adts.contains_key(did)
    &&& forall|f: int|
        0 <= f < adts[did]@.len() ==> tys.contains_key((#[trigger] adts[did]@[f]).did)
}

/// The pointers that the declarations in `extern` blocks fix: those of the signatures and statics
/// declared there, and those in the fields of structs that are mentioned there.
pub open spec fn foreign_pointers(
    gacx: GlobalAnalysisCtxt,
    foreign: Set<DefId>,
    adts: Map<DefId, Vec<Field>>,
    structs: Seq<DefId>,
    mentioned: Set<DefId>,
) -> Set<PointerId> {
    pointers_of_sigs(gacx.fn_sigs@, foreign).union(
        pointers_of_statics(gacx.static_tys@, gacx.addr_of_static@, foreign),
    ).union(pointers_of_structs(adts, gacx.field_ltys@, structs, mentioned))
}

/// Fixes the signatures of the functions in `dids`.
fn fix_sigs(sigs: &DefMap<LFnSig>, dids: &DefIdSet, gasn: &mut GlobalAssignment)
    requires
        forall|d: DefId| #[trigger]
            sigs@.contains_key(d) ==> sig_fits(sigs@[d]@, old(gasn).flags@.len()),
    ensures
        fixes(*old(gasn), *final(gasn), pointers_of_sigs(sigs@, dids@)),
{
    let ghost before = *gasn;
    let n = sigs.len();
    let ghost keys = sigs.keys();
    let mut i: usize = 0;
    proof {
        lemma_fix_none(before.flags@);
        assert(sig_pointers_upto(sigs@, keys, dids@, 0) =~= Set::empty());
    }
    while i < n
        invariant
            i <= n,
            n == keys.len(),
            keys == sigs.keys(),
            forall|d: DefId| #[trigger]
                sigs@.contains_key(d) ==> sig_fits(sigs@[d]@, before.flags@.len()),
            fixes(before, *gasn, sig_pointers_upto(sigs@, keys, dids@, i as int)),
        decreases n - i,
    {
        let ghost mid = *gasn;
        let ghost done = sig_pointers_upto(sigs@, keys, dids@, i as int);
        let ghost all = sig_pointers_upto(sigs@, keys, dids@, i + 1);
        let (did, lsig) = sigs.entry(i);
        proof {
            assert forall|p: PointerId| done.contains(p) implies all.contains(p) by {
                let j = choose|j: int|
                    0 <= j < i && dids@.contains(#[trigger] keys[j]) && sig_mentions(
                        sigs@[keys[j]]@,
                        p,
                    );
                assert(dids@.contains(keys[j]));
            }
        }
        if dids.contains(did) {
            make_sig_fixed(gasn, lsig);
            proof {
                let this = sig_pointers(lsig@);
                assert forall|p: PointerId| #[trigger] all.contains(p) <==> done.contains(p)
                    || this.contains(p) by {
                    if this.contains(p) {
                        assert(dids@.contains(keys[i as int]));
                    }
                }
                lemma_fixes_more(before, mid, *gasn, done, this, all);
            }
        } else {
            assert(done =~= all);
        }
        i += 1;
    }
    proof {
        let all = sig_pointers_upto(sigs@, keys, dids@, n as int);
        assert forall|p: PointerId| all.contains(p) <==> pointers_of_sigs(sigs@, dids@).contains(
            p,
        ) by {
            if all.contains(p) {
                let j = choose|j: int|
                    0 <= j < n && dids@.contains(#[trigger] keys[j]) && sig_mentions(
                        sigs@[keys[j]]@,
                        p,
                    );
                assert(keys.contains(keys[j]));
                assert(sigs@.contains_key(keys[j]));
            }
            if pointers_of_sigs(sigs@, dids@).contains(p) {
                let d = choose|d: DefId| #[trigger]
                    sigs@.contains_key(d) && dids@.contains(d) && sig_mentions(sigs@[d]@, p);
                assert(keys.contains(d));
                let j = choose|j: int| 0 <= j < keys.len() && keys[j] == d;
                assert(dids@.contains(keys[j]));
            }
        }
        assert(all =~= pointers_of_sigs(sigs@, dids@));
    }
}

spec fn sig_pointers_upto(
    sigs: Map<DefId, LFnSig>,
    keys: Seq<DefId>,
    dids: Set<DefId>,
    n: int,
) -> Set<PointerId> {
    Set::new(
        |p: PointerId|
            exists|j: int|
                0 <= j < n && dids.contains(#[trigger] keys[j]) && sig_mentions(
                    sigs[keys[j]]@,
                    p,
                ),
    )
}

spec fn static_pointers_upto(
    tys: Map<DefId, LTy>,
    addrs: Map<DefId, PointerId>,
    keys: Seq<DefId>,
    dids: Set<DefId>,
    n: int,
) -> Set<PointerId> {
    Set::new(
        |p: PointerId|
            exists|j: int|
                0 <= j < n && dids.contains(#[trigger] keys[j]) && (mentions(tys[keys[j]]@, p)
                    || only(addrs[keys[j]]).contains(p)),
    )
}

/// Fixes the types of the statics in `dids`, and the pointers to them.
fn fix_statics(gacx: &GlobalAnalysisCtxt, dids: &DefIdSet, gasn: &mut GlobalAssignment)
    requires
        gacx.wf(),
        old(gasn).wf(gacx.ptr_info@.len()),
    ensures
        fixes(
            *old(gasn),
            *final(gasn),
            pointers_of_statics(gacx.static_tys@, gacx.addr_of_static@, dids@),
        ),
{
    let ghost before = *gasn;
    let ghost tys = gacx.static_tys@;
    let ghost addrs = gacx.addr_of_static@;
    let n = gacx.static_tys.len();
    let ghost keys = gacx.static_tys.keys();
    let mut i: usize = 0;
    proof {
        lemma_fix_none(before.flags@);
        assert(static_pointers_upto(tys, addrs, keys, dids@, 0) =~= Set::empty());
    }
    while i < n
        invariant
            i <= n,
            n == keys.len(),
            keys == gacx.static_tys.keys(),
            tys == gacx.static_tys@,
            addrs == gacx.addr_of_static@,
            gacx.wf(),
            before.wf(gacx.ptr_info@.len()),
            fixes(before, *gasn, static_pointers_upto(tys, addrs, keys, dids@, i as int)),
        decreases n - i,
    {
        let ghost mid = *gasn;
        let ghost done = static_pointers_upto(tys, addrs, keys, dids@, i as int);
        let ghost all = static_pointers_upto(tys, addrs, keys, dids@, i + 1);
        let (did, lty) = gacx.static_tys.entry(i);
        proof {
            assert forall|p: PointerId| done.contains(p) implies all.contains(p) by {
                let j = choose|j: int|
                    0 <= j < i && dids@.contains(#[trigger] keys[j]) && (mentions(
                        tys[keys[j]]@,
                        p,
                    ) || only(addrs[keys[j]]).contains(p));
                assert(dids@.contains(keys[j]));
            }
        }
        if dids.contains(did) {
            make_ty_fixed(gasn, lty);
            proof {
                assert(gacx.addr_of_static@.dom().contains(did));
                let both = done.union(pointers_in(lty@));
                lemma_fixes_more(before, mid, *gasn, done, pointers_in(lty@), both);
            }
            let ghost mid2 = *gasn;
            match gacx.addr_of_static.get(did) {
                Some(ptr) => {
                    fix_pointer(gasn, *ptr);
                },
                None => {},
            }
            proof {
                let both = done.union(pointers_in(lty@));
                let this = only(addrs[did]);
                assert forall|p: PointerId| #[trigger] all.contains(p) <==> both.contains(p)
                    || this.contains(p) by {
                    if this.contains(p) || mentions(lty@, p) {
                        assert(dids@.contains(keys[i as int]));
                    }
                }
                lemma_fixes_more(before, mid2, *gasn, both, this, all);
            }
        } else {
            assert(done =~= all);
        }
        i += 1;
    }
    proof {
        let all = static_pointers_upto(tys, addrs, keys, dids@, n as int);
        let goal = pointers_of_statics(tys, addrs, dids@);
        assert forall|p: PointerId| all.contains(p) <==> goal.contains(p) by {
            if all.contains(p) {
                let j = choose|j: int|
                    0 <= j < n && dids@.contains(#[trigger] keys[j]) && (mentions(
                        tys[keys[j]]@,
                        p,
                    ) || only(addrs[keys[j]]).contains(p));
                assert(keys.contains(keys[j]));
                assert(tys.contains_key(keys[j]));
            }
            if goal.contains(p) {
                let d = choose|d: DefId| #[trigger]
                    tys.contains_key(d) && dids@.contains(d) && (mentions(tys[d]@, p) || only(
                        addrs[d],
                    ).contains(p));
                assert(keys.contains(d));
                let j = choose|j: int| 0 <= j < keys.len() && keys[j] == d;
                assert(dids@.contains(keys[j]));
            }
        }
        assert(all =~= goal);
    }
}

/// The pointers in the types of the first `n` of `fields`, as far as those are chosen.
spec fn field_pointers_upto(
    fields: Seq<Field>,
    tys: Map<DefId, LTy>,
    chosen: spec_fn(Field) -> bool,
    n: int,
) -> Set<PointerId> {
    Set::new(
        |p: PointerId|
            exists|f: int|
                0 <= f < n && chosen(#[trigger] fields[f]) && mentions(tys[fields[f].did]@, p),
    )
}

/// Fixes the types of the fields that are listed or marked, or of all fields if `all` is set.
fn fix_fields(
    fields: &Vec<Field>,
    tys: &DefMap<LTy>,
    all: bool,
    fixed_defs: &DefIdSet,
    gasn: &mut GlobalAssignment,
)
    requires
        forall|d: DefId| #[trigger]
            tys@.contains_key(d) ==> lty_fits(tys@[d]@, old(gasn).flags@.len(), 0),
        forall|f: int|
            0 <= f < fields@.len() && is_field_fixed(#[trigger] fields@[f], all, fixed_defs@)
                ==> tys@.contains_key(fields@[f].did),
    ensures
        fixes(
            *old(gasn),
            *final(gasn),
            pointers_of_fields(fields@, tys@, all, fixed_defs@),
        ),
{
    let ghost before = *gasn;
    let ghost chosen = |f: Field| is_field_fixed(f, all, fixed_defs@);
    let mut f: usize = 0;
    proof {
        lemma_fix_none(before.flags@);
        assert(field_pointers_upto(fields@, tys@, chosen, 0) =~= Set::empty());
    }
    while f < fields.len()
        invariant
            f <= fields@.len(),
            chosen == (|f: Field| is_field_fixed(f, all, fixed_defs@)),
            forall|d: DefId| #[trigger]
                tys@.contains_key(d) ==> lty_fits(tys@[d]@, before.flags@.len(), 0),
            forall|f: int|
                0 <= f < fields@.len() && is_field_fixed(#[trigger] fields@[f], all, fixed_defs@)
                    ==> tys@.contains_key(fields@[f].did),
            fixes(before, *gasn, field_pointers_upto(fields@, tys@, chosen, f as int)),
        decreases fields@.len() - f,
    {
        let ghost mid = *gasn;
        let ghost done = field_pointers_upto(fields@, tys@, chosen, f as int);
        let ghost next = field_pointers_upto(fields@, tys@, chosen, f + 1);
        let field = &fields[f];
        let fixed = all || fixed_defs.contains(field.did) || (field.did.as_local().is_some()
            && field.fixed_signature);
        assert(fixed == chosen(fields@[f as int]));
        proof {
            assert forall|p: PointerId| done.contains(p) implies next.contains(p) by {
                let j = choose|j: int|
                    0 <= j < f && chosen(#[trigger] fields@[j]) && mentions(
                        tys@[fields@[j].did]@,
                        p,
                    );
                assert(chosen(fields@[j]));
            }
        }
        if fixed {
            match tys.get(field.did) {
                Some(lty) => {
                    make_ty_fixed(gasn, lty);
                    proof {
                        let this = pointers_in(lty@);
                        assert forall|p: PointerId| #[trigger] next.contains(p) <==> done.contains(
                            p,
                        ) || this.contains(p) by {
                            if this.contains(p) {
                                assert(chosen(fields@[f as int]));
                            }
                        }
                        lemma_fixes_more(before, mid, *gasn, done, this, next);
                    }
                },
                None => {
                    assert(is_field_fixed(fields@[f as int], all, fixed_defs@));
                },
            }
        } else {
            assert(done =~= next);
        }
        f += 1;
    }
    assert(field_pointers_upto(fields@, tys@, chosen, fields@.len() as int)
        =~= pointers_of_fields(fields@, tys@, all, fixed_defs@));
}

/// Whether the type of a field is fixed: its struct, enum or union is (`all`), the field is listed
/// in `fixed_defs`, or it is a field of this crate that is marked.
pub open spec fn is_field_fixed(f: Field, all: bool, fixed_defs: Set<DefId>) -> bool {
    all || fixed_defs.contains(f.did) || (f.did.local() is Some && f.fixed_signature)
}

/// The pointers in the types of the fixed fields among `fields`.
pub open spec fn pointers_of_fields(
    fields: Seq<Field>,
    tys: Map<DefId, LTy>,
    all: bool,
    fixed_defs: Set<DefId>,
) -> Set<PointerId> {
    Set::new(
        |p: PointerId|
            exists|f: int|
                0 <= f < fields.len() && is_field_fixed(#[trigger] fields[f], all, fixed_defs)
                    && mentions(tys[fields[f].did]@, p),
    )
}

/// Fixes what the declarations in `extern` blocks pin down: the signatures of `foreign` functions,
/// the types of `foreign` statics and the pointers to them, and the fields of the `structs` that
/// are `mentioned` in such blocks.
pub fn mark_foreign_fixed(
    gacx: &GlobalAnalysisCtxt,
    gasn: &mut GlobalAssignment,
    foreign: &DefIdSet,
    adts: &DefMap<Vec<Field>>,
    structs: &Vec<DefId>,
    mentioned: &DefIdSet,
)
    requires
        gacx.wf(),
        old(gasn).wf(gacx.ptr_info@.len()),
        forall|i: int|
            0 <= i < structs@.len() && mentioned@.contains(#[trigger] structs@[i]) ==> fields_known(
                adts@,
                gacx.field_ltys@,
                structs@[i],
            ),
    ensures
        fixes(
            *old(gasn),
            *final(gasn),
            foreign_pointers(*gacx, foreign@, adts@, structs@, mentioned@),
        ),
{
    let ghost before = *gasn;
    let ghost sigs = pointers_of_sigs(gacx.fn_sigs@, foreign@);
    let ghost statics = pointers_of_statics(gacx.static_tys@, gacx.addr_of_static@, foreign@);
    fix_sigs(&gacx.fn_sigs, foreign, gasn);
    let ghost mid = *gasn;
    fix_statics(gacx, foreign, gasn);
    proof {
        lemma_fixes_more(before, mid, *gasn, sigs, statics, sigs.union(statics));
    }
    let ghost mid = *gasn;
    let none = DefIdSet::new();
    let mut i: usize = 0;
    proof {
        lemma_fix_none(mid.flags@);
        assert(pointers_of_structs(adts@, gacx.field_ltys@, structs@.take(0), mentioned@)
            =~= Set::empty());
    }
    while i < structs.len()
        invariant
            i <= structs@.len(),
            none@ == Set::<DefId>::empty(),
            gacx.wf(),
            mid.wf(gacx.ptr_info@.len()),
            forall|i: int|
                0 <= i < structs@.len() && mentioned@.contains(#[trigger] structs@[i])
                    ==> fields_known(adts@, gacx.field_ltys@, structs@[i]),
            fixes(
                mid,
                *gasn,
                pointers_of_structs(
                    adts@,
                    gacx.field_ltys@,
                    structs@.take(i as int),
                    mentioned@,
                ),
            ),
        decreases structs@.len() - i,
    {
        let ghost now = *gasn;
        let ghost tys = gacx.field_ltys@;
        let ghost done = pointers_of_structs(adts@, tys, structs@.take(i as int), mentioned@);
        let ghost next = structs@.take(i + 1);
        let ghost all = pointers_of_structs(adts@, tys, next, mentioned@);
        proof {
            assert forall|p: PointerId| done.contains(p) implies all.contains(p) by {
                let (j, f) = choose|j: int, f: int|
                    #![trigger adts@[structs@.take(i as int)[j]]@[f]]
                    0 <= j < i && mentioned@.contains(structs@.take(i as int)[j]) && 0 <= f
                        < adts@[structs@.take(i as int)[j]]@.len() && mentions(
                        tys[adts@[structs@.take(i as int)[j]]@[f].did]@,
                        p,
                    );
                assert(mentions(tys[adts@[next[j]]@[f].did]@, p));
            }
        }
        let adt_did = structs[i];
        if mentioned.contains(adt_did) {
            match adts.get(adt_did) {
                Some(fields) => {
                    fix_fields(fields, &gacx.field_ltys, true, &none, gasn);
                    proof {
                        let this = pointers_of_fields(fields@, tys, true, Set::empty());
                        assert forall|p: PointerId| #[trigger] all.contains(p) <==> done.contains(
                            p,
                        ) || this.contains(p) by {
                            if this.contains(p) {
                                let f = choose|f: int|
                                    0 <= f < fields@.len() && is_field_fixed(
                                        #[trigger] fields@[f],
                                        true,
                                        Set::empty(),
                                    ) && mentions(tys[fields@[f].did]@, p);
                                assert(mentions(tys[adts@[next[i as int]]@[f].did]@, p));
                            }
                            if all.contains(p) {
                                let (j, f) = choose|j: int, f: int|
                                    #![trigger adts@[next[j]]@[f]]
                                    0 <= j < next.len() && mentioned@.contains(next[j]) && 0 <= f
                                        < adts@[next[j]]@.len() && mentions(
                                        tys[adts@[next[j]]@[f].did]@,
                                        p,
                                    );
                                if j == i {
                                    assert(is_field_fixed(fields@[f], true, Set::empty()));
                                } else {
                                    let earlier = structs@.take(i as int);
                                    assert(mentions(tys[adts@[earlier[j]]@[f].did]@, p));
                                }
                            }
                        }
                        lemma_fixes_more(mid, now, *gasn, done, this, all);
                    }
                },
                None => {
                    assert(fields_known(adts@, tys, structs@[i as int]));
                },
            }
        } else {
            proof {
                assert forall|p: PointerId| all.contains(p) implies done.contains(p) by {
                    let (j, f) = choose|j: int, f: int|
                        #![trigger adts@[next[j]]@[f]]
                        0 <= j < next.len() && mentioned@.contains(next[j]) && 0 <= f
                            < adts@[next[j]]@.len() && mentions(
                            tys[adts@[next[j]]@[f].did]@,
                            p,
                        );
                    let earlier = structs@.take(i as int);
                    assert(mentions(tys[adts@[earlier[j]]@[f].did]@, p));
                }
                assert(done =~= all);
            }
        }
        i += 1;
    }
    proof {
        assert(structs@.take(i as int) =~= structs@);
        let fields = pointers_of_structs(adts@, gacx.field_ltys@, structs@, mentioned@);
        lemma_fixes_more(
            before,
            mid,
            *gasn,
            sigs.union(statics),
            fields,
            foreign_pointers(*gacx, foreign@, adts@, structs@, mentioned@),
        );
    }
}

/// Whether the types of a definition are fixed: it is listed in `fixed_defs`, or marked.
pub open spec fn is_def_fixed(d: Definition, fixed_defs: Set<DefId>) -> bool {
    fixed_defs.contains(d.ldid.def_id()) || d.fixed_signature
}

/// The pointers that a definition fixes: those of the signature of a fixed function, those of the
/// type of a fixed static and the pointer to it, and those of the fixed fields of a struct, enum or
/// union.
pub open spec fn def_pointers(
    gacx: GlobalAnalysisCtxt,
    adts: Map<DefId, Vec<Field>>,
    fixed_defs: Set<DefId>,
    d: Definition,
) -> Set<PointerId> {
    let did = d.ldid.def_id();
    if d.kind.is_adt_spec() {
        pointers_of_fields(adts[did]@, gacx.field_ltys@, is_def_fixed(d, fixed_defs), fixed_defs)
    } else if d.kind.is_fn_spec() && is_def_fixed(d, fixed_defs) {
        sig_pointers(gacx.fn_sigs@[did]@)
    } else if d.kind is Static && is_def_fixed(d, fixed_defs) {
        pointers_in(gacx.static_tys@[did]@).union(only(gacx.addr_of_static@[did]))
    } else {
        Set::empty()
    }
}

/// The types that a definition fixes are known.
pub open spec fn def_known(
    gacx: GlobalAnalysisCtxt,
    adts: Map<DefId, Vec<Field>>,
    fixed_defs: Set<DefId>,
    d: Definition,
) -> bool {
    let did = d.ldid.def_id();
    if d.kind.is_adt_spec() {
        &&& adts.contains_key(did)
        &&& forall|f: int|
            0 <= f < adts[did]@.len() && is_field_fixed(
                #[trigger] adts[did]@[f],
                is_def_fixed(d, fixed_defs),
                fixed_defs,
            ) ==> gacx.field_ltys@.contains_key(adts[did]@[f].did)
    } else if is_def_fixed(d, fixed_defs) {
        &&& d.kind.is_fn_spec() ==> gacx.fn_sigs@.contains_key(did)
        &&& d.kind is Static ==> gacx.static_tys@.contains_key(did)
    } else {
        true
    }
}

/// The pointers that some of the definitions fixes.
pub open spec fn pointers_of_defs(
    gacx: GlobalAnalysisCtxt,
    adts: Map<DefId, Vec<Field>>,
    fixed_defs: Set<DefId>,
    defs: Seq<Definition>,
) -> Set<PointerId> {
    Set::new(
        |p: PointerId|
            exists|i: int|
                0 <= i < defs.len() && def_pointers(
                    gacx,
                    adts,
                    fixed_defs,
                    #[trigger] defs[i],
                ).contains(p),
    )
}

/// Fixes all pointers in the types of the definitions that are listed in `fixed_defs` or marked.
/// Each field can be listed or marked by itself; where a whole struct, enum or union is, all of
/// its fields are fixed.
pub fn mark_fixed_defs(
    gacx: &GlobalAnalysisCtxt,
    gasn: &mut GlobalAssignment,
    adts: &DefMap<Vec<Field>>,
    defs: &Vec<Definition>,
    fixed_defs: &DefIdSet,
)
    requires
        gacx.wf(),
        old(gasn).wf(gacx.ptr_info@.len()),
        forall|i: int|
            0 <= i < defs@.len() ==> def_known(*gacx, adts@, fixed_defs@, #[trigger] defs@[i]),
    ensures
        fixes(
            *old(gasn),
            *final(gasn),
            pointers_of_defs(*gacx, adts@, fixed_defs@, defs@),
        ),
{
    let ghost before = *gasn;
    let mut i: usize = 0;
    proof {
        lemma_fix_none(before.flags@);
        assert(pointers_of_defs(*gacx, adts@, fixed_defs@, defs@.take(0)) =~= Set::empty());
    }
    while i < defs.len()
        invariant
            i <= defs@.len(),
            gacx.wf(),
            before.wf(gacx.ptr_info@.len()),
            forall|i: int|
                0 <= i < defs@.len() ==> def_known(*gacx, adts@, fixed_defs@, #[trigger] defs@[i]),
            fixes(
                before,
                *gasn,
                pointers_of_defs(*gacx, adts@, fixed_defs@, defs@.take(i as int)),
            ),
        decreases defs@.len() - i,
    {
        let ghost now = *gasn;
        let ghost earlier = defs@.take(i as int);
        let ghost next = defs@.take(i + 1);
        mark_fixed_def(gacx, gasn, adts, defs[i], fixed_defs);
        proof {
            let done = pointers_of_defs(*gacx, adts@, fixed_defs@, earlier);
            let all = pointers_of_defs(*gacx, adts@, fixed_defs@, next);
            let this = def_pointers(*gacx, adts@, fixed_defs@, defs@[i as int]);
            assert forall|p: PointerId| #[trigger] all.contains(p) <==> done.contains(p)
                || this.contains(p) by {
                if this.contains(p) {
                    assert(def_pointers(*gacx, adts@, fixed_defs@, next[i as int]).contains(p));
                }
                if done.contains(p) {
                    let j = choose|j: int|
                        0 <= j < earlier.len() && def_pointers(
                            *gacx,
                            adts@,
                            fixed_defs@,
                            #[trigger] earlier[j],
                        ).contains(p);
                    assert(def_pointers(*gacx, adts@, fixed_defs@, next[j]).contains(p));
                }
                if all.contains(p) {
                    let j = choose|j: int|
                        0 <= j < next.len() && def_pointers(
                            *gacx,
                            adts@,
                            fixed_defs@,
                            #[trigger] next[j],
                        ).contains(p);
                    if j < i {
                        assert(def_pointers(*gacx, adts@, fixed_defs@, earlier[j]).contains(p));
                    }
                }
            }
            lemma_fixes_more(before, now, *gasn, done, this, all);
        }
        i += 1;
    }
    assert(defs@.take(i as int) =~= defs@);
}

/// Fixes the pointers in the types of one definition, as far as they are to be fixed.
fn mark_fixed_def(
    gacx: &GlobalAnalysisCtxt,
    gasn: &mut GlobalAssignment,
    adts: &DefMap<Vec<Field>>,
    def: Definition,
    fixed_defs: &DefIdSet,
)
    requires
        gacx.wf(),
        old(gasn).wf(gacx.ptr_info@.len()),
        def_known(*gacx, adts@, fixed_defs@, def),
    ensures
        fixes(*old(gasn), *final(gasn), def_pointers(*gacx, adts@, fixed_defs@, def)),
{
    let ghost before = *gasn;
    proof {
        lemma_fix_none(before.flags@);
    }
    let did = def.ldid.to_def_id();
    let def_fixed = fixed_defs.contains(did) || def.fixed_signature;
    match def.kind {
        DefKind::Fn | DefKind::AssocFn => {
            if def_fixed {
                if let Some(lsig) = gacx.fn_sigs.get(did) {
                    make_sig_fixed(gasn, lsig);
                }
            }
        },
        DefKind::Struct | DefKind::Enum | DefKind::Union => {
            if let Some(fields) = adts.get(did) {
                fix_fields(fields, &gacx.field_ltys, def_fixed, fixed_defs, gasn);
            }
        },
        DefKind::Static => {
            if def_fixed {
                assert(gacx.addr_of_static@.dom().contains(did));
                if let Some(lty) = gacx.static_tys.get(did) {
                    make_ty_fixed(gasn, lty);
                    let ghost mid = *gasn;
                    if let Some(ptr) = gacx.addr_of_static.get(did) {
                        fix_pointer(gasn, *ptr);
                        proof {
                            let tys = pointers_in(lty@);
                            let addr = only(*ptr);
                            lemma_fixes_more(before, mid, *gasn, tys, addr, tys.union(addr));
                        }
                    }
                }
            }
        },
        _ => {},
    }
}

/// Fixes the signatures of the functions whose analysis was given up, so that all callers go on
/// using them as they are.
pub fn fix_failed_sigs(gacx: &GlobalAnalysisCtxt, gasn: &mut GlobalAssignment)
    requires
        gacx.wf(),
        old(gasn).wf(gacx.ptr_info@.len()),
        gacx.fns_failed@.dom().subset_of(gacx.fn_sigs@.dom()),
    ensures
        fixes(
            *old(gasn),
            *final(gasn),
            pointers_of_sigs(gacx.fn_sigs@, gacx.fns_failed@.dom()),
        ),
{
    let ghost before = *gasn;
    let ghost sigs = gacx.fn_sigs@;
    let n = gacx.fns_failed.len();
    let ghost keys = gacx.fns_failed.keys();
    let mut i: usize = 0;
    proof {
        lemma_fix_none(before.flags@);
        assert(pointers_of_sigs(sigs, keys.take(0).to_set()) =~= Set::empty());
    }
    while i < n
        invariant
            i <= n,
            n == keys.len(),
            keys == gacx.fns_failed.keys(),
            keys.no_duplicates(),
            sigs == gacx.fn_sigs@,
            gacx.wf(),
            before.wf(gacx.ptr_info@.len()),
            gacx.fns_failed@.dom().subset_of(sigs.dom()),
            fixes(before, *gasn, pointers_of_sigs(sigs, keys.take(i as int).to_set())),
        decreases n - i,
    {
        let ghost now = *gasn;
        let ghost earlier = keys.take(i as int).to_set();
        let ghost next = keys.take(i + 1).to_set();
        let did = gacx.fns_failed.entry(i).0;
        assert(gacx.fns_failed@.dom().contains(did));
        if let Some(lsig) = gacx.fn_sigs.get(did) {
            make_sig_fixed(gasn, lsig);
            proof {
                let done = pointers_of_sigs(sigs, earlier);
                let all = pointers_of_sigs(sigs, next);
                let this = sig_pointers(lsig@);
                lemma_next_key(keys, i as int);
                assert forall|p: PointerId| #[trigger] all.contains(p) <==> done.contains(p)
                    || this.contains(p) by {
                    if this.contains(p) {
                        assert(sigs.contains_key(did));
                    }
                }
                lemma_fixes_more(before, now, *gasn, done, this, all);
            }
        }
        i += 1;
    }
    proof {
        assert(keys.take(n as int) =~= keys);
        assert(keys.to_set() =~= gacx.fns_failed@.dom());
    }
}

/// When more functions are given up, no pointer of a signature stops being fixed.
pub proof fn law_fixed_sigs_grow(
    sigs: Map<DefId, LFnSig>,
    failed: Set<DefId>,
    more: Set<DefId>,
)
    requires
        failed.subset_of(more),
    ensures
        pointers_of_sigs(sigs, failed).subset_of(pointers_of_sigs(sigs, more)),
{
    assert forall|p: PointerId| pointers_of_sigs(sigs, failed).contains(
        p,
    ) implies pointers_of_sigs(sigs, more).contains(p) by {
        let d = choose|d: DefId| #[trigger]
            sigs.contains_key(d) && failed.contains(d) && sig_mentions(sigs[d]@, p);
        assert(sigs.contains_key(d) && more.contains(d));
    }
}

/// What was fixed stays fixed, whatever is fixed after it, and no other flag is lost.
pub proof fn law_fixing_only_adds(
    before: GlobalAssignment,
    after: GlobalAssignment,
    ptrs: Set<PointerId>,
    i: int,
    mask: u16,
)
    requires
        fixes(before, after, ptrs),
        0 <= i < before.flags@.len(),
        before.flags@[i].has(mask),
    ensures
        after.flags@[i].has(mask),
{
    law_fix(before.flags@, ptrs, i, mask);
}

/// Whether the types of all fields that are fixed are known.
fn check_fields(fields: &Vec<Field>, tys: &DefMap<LTy>, all: bool, fixed_defs: &DefIdSet) -> (r:
    bool)
    ensures
        r == forall|f: int|
            0 <= f < fields@.len() && is_field_fixed(#[trigger] fields@[f], all, fixed_defs@)
                ==> tys@.contains_key(fields@[f].did),
{
    let mut f: usize = 0;
    while f < fields.len()
        invariant
            f <= fields@.len(),
            forall|k: int|
                0 <= k < f && is_field_fixed(#[trigger] fields@[k], all, fixed_defs@)
                    ==> tys@.contains_key(fields@[k].did),
        decreases fields@.len() - f,
    {
        let field = &fields[f];
        let fixed = all || fixed_defs.contains(field.did) || (field.did.as_local().is_some()
            && field.fixed_signature);
        if fixed && !tys.contains_key(field.did) {
            assert(is_field_fixed(fields@[f as int], all, fixed_defs@));
            return false;
        }
        f += 1;
    }
    true
}

/// Whether the types of all fields of the `structs` that are `mentioned` are known.
pub fn structs_known(
    gacx: &GlobalAnalysisCtxt,
    adts: &DefMap<Vec<Field>>,
    structs: &Vec<DefId>,
    mentioned: &DefIdSet,
) -> (r: bool)
    ensures
        r == forall|i: int|
            0 <= i < structs@.len() && mentioned@.contains(#[trigger] structs@[i]) ==> fields_known(
                adts@,
                gacx.field_ltys@,
                structs@[i],
            ),
{
    let none = DefIdSet::new();
    let mut i: usize = 0;
    while i < structs.len()
        invariant
            i <= structs@.len(),
            forall|k: int|
                0 <= k < i && mentioned@.contains(#[trigger] structs@[k]) ==> fields_known(
                    adts@,
                    gacx.field_ltys@,
                    structs@[k],
                ),
        decreases structs@.len() - i,
    {
        let did = structs[i];
        if mentioned.contains(did) {
            match adts.get(did) {
                Some(fields) => {
                    if !check_fields(fields, &gacx.field_ltys, true, &none) {
                        proof {
                            let f = choose|f: int|
                                0 <= f < fields@.len() && is_field_fixed(
                                    #[trigger] fields@[f],
                                    true,
                                    none@,
                                ) && !gacx.field_ltys@.contains_key(fields@[f].did);
                            assert(!gacx.field_ltys@.contains_key(adts@[did]@[f].did));
                            assert(!fields_known(adts@, gacx.field_ltys@, structs@[i as int]));
                        }
                        return false;
                    }
                    assert forall|f: int| 0 <= f < adts@[did]@.len() implies gacx.field_ltys@
                        .contains_key((#[trigger] adts@[did]@[f]).did) by {
                        assert(is_field_fixed(fields@[f], true, none@));
                    }
                },
                None => {
                    assert(!fields_known(adts@, gacx.field_ltys@, structs@[i as int]));
                    return false;
                },
            }
        }
        i += 1;
    }
    true
}

/// Whether the types of all definitions that are fixed are known.
pub fn defs_known(
    gacx: &GlobalAnalysisCtxt,
    adts: &DefMap<Vec<Field>>,
    defs: &Vec<Definition>,
    fixed_defs: &DefIdSet,
) -> (r: bool)
    ensures
        r == forall|i: int|
            0 <= i < defs@.len() ==> def_known(*gacx, adts@, fixed_defs@, #[trigger] defs@[i]),
{
    let mut i: usize = 0;
    while i < defs.len()
        invariant
            i <= defs@.len(),
            forall|k: int|
                0 <= k < i ==> def_known(*gacx, adts@, fixed_defs@, #[trigger] defs@[k]),
        decreases defs@.len() - i,
    {
        let def = defs[i];
        let did = def.ldid.to_def_id();
        let def_fixed = fixed_defs.contains(did) || def.fixed_signature;
        let known = match def.kind {
            DefKind::Fn | DefKind::AssocFn => !def_fixed || gacx.fn_sigs.contains_key(did),
            DefKind::Struct | DefKind::Enum | DefKind::Union => match adts.get(did) {
                Some(fields) => check_fields(fields, &gacx.field_ltys, def_fixed, fixed_defs),
                None => false,
            },
            DefKind::Static => !def_fixed || gacx.static_tys.contains_key(did),
            _ => true,
        };
        assert(known == def_known(*gacx, adts@, fixed_defs@, defs@[i as int]));
        if !known {
            return false;
        }
        i += 1;
    }
    true
}

/// After the definitions of a program were gone through, every pointer in the type of a field of a
/// struct, an enum or a union is fixed, if the definition or the field is listed or marked. A mark
/// on a field counts where the field is one of the crate.
pub proof fn law_marked_fields_are_fixed(
    gacx: GlobalAnalysisCtxt,
    adts: Map<DefId, Vec<Field>>,
    fixed_defs: Set<DefId>,
    defs: Seq<Definition>,
    before: GlobalAssignment,
    after: GlobalAssignment,
    i: int,
    f: int,
    k: int,
    p: usize,
)
    requires
        fixes(before, after, pointers_of_defs(gacx, adts, fixed_defs, defs)),
        0 <= i < defs.len(),
        defs[i].kind == DefKind::Struct || defs[i].kind == DefKind::Enum || defs[i].kind
            == DefKind::Union,
        0 <= f < adts[DefId { krate: 0, index: defs[i].ldid.index }]@.len(),
        ({
            let did = DefId { krate: 0, index: defs[i].ldid.index };
            let field = adts[did]@[f];
            ||| fixed_defs.contains(did)
            ||| defs[i].fixed_signature
            ||| fixed_defs.contains(field.did)
            ||| field.did.krate == 0 && field.fixed_signature
        }),
        ({
            let did = DefId { krate: 0, index: defs[i].ldid.index };
            let lty = gacx.field_ltys@[adts[did]@[f].did]@;
            0 <= k < lty.len() && lty[k].label == PointerId::Global(p)
        }),
        p < before.flags@.len(),
    ensures
        after.flags@[p as int].bits & FlagSet::FIXED != 0,
{
    let d = defs[i];
    let did = d.ldid.def_id();
    let ptr = PointerId::Global(p);
    assert(mentions(gacx.field_ltys@[adts[did]@[f].did]@, ptr));
    assert(def_pointers(gacx, adts, fixed_defs, d).contains(ptr));
    assert(pointers_of_defs(gacx, adts, fixed_defs, defs).contains(ptr));
    law_fixing_sets_one_bit(before, after, pointers_of_defs(gacx, adts, fixed_defs, defs), p);
}

/// After the definitions of a program were gone through, every pointer in the signature of a
/// function or a method is fixed, if the definition is listed or marked, and so is every pointer in
/// the type of such a static, and the pointer to it.
pub proof fn law_marked_items_are_fixed(
    gacx: GlobalAnalysisCtxt,
    adts: Map<DefId, Vec<Field>>,
    fixed_defs: Set<DefId>,
    defs: Seq<Definition>,
    before: GlobalAssignment,
    after: GlobalAssignment,
    i: int,
    p: usize,
)
    requires
        fixes(before, after, pointers_of_defs(gacx, adts, fixed_defs, defs)),
        0 <= i < defs.len(),
        fixed_defs.contains(DefId { krate: 0, index: defs[i].ldid.index })
            || defs[i].fixed_signature,
        ({
            let did = DefId { krate: 0, index: defs[i].ldid.index };
            let ptr = PointerId::Global(p);
            ||| (defs[i].kind == DefKind::Fn || defs[i].kind == DefKind::AssocFn) && sig_mentions(
                gacx.fn_sigs@[did]@,
                ptr,
            )
            ||| defs[i].kind == DefKind::Static && mentions(gacx.static_tys@[did]@, ptr)
            ||| defs[i].kind == DefKind::Static && gacx.addr_of_static@[did] == ptr
        }),
        p < before.flags@.len(),
    ensures
        after.flags@[p as int].bits & FlagSet::FIXED != 0,
{
    let ptr = PointerId::Global(p);
    assert(def_pointers(gacx, adts, fixed_defs, defs[i]).contains(ptr));
    assert(pointers_of_defs(gacx, adts, fixed_defs, defs).contains(ptr));
    law_fixing_sets_one_bit(before, after, pointers_of_defs(gacx, adts, fixed_defs, defs), p);
}

/// Going through the definitions of a program changes a pointer only because of a definition: a
/// listed or marked function or static that it occurs in, or a field that is listed or marked or
/// belongs to a listed or marked struct, enum or union.
pub proof fn law_nothing_else_is_fixed(
    gacx: GlobalAnalysisCtxt,
    adts: Map<DefId, Vec<Field>>,
    fixed_defs: Set<DefId>,
    defs: Seq<Definition>,
    before: GlobalAssignment,
    after: GlobalAssignment,
    p: usize,
) -> (r: (int, int))
    requires
        fixes(before, after, pointers_of_defs(gacx, adts, fixed_defs, defs)),
        p < before.flags@.len(),
        after.flags@[p as int] != before.flags@[p as int],
    ensures
        0 <= r.0 < defs.len(),
        ({
            let d = defs[r.0];
            let did = DefId { krate: 0, index: d.ldid.index };
            let ptr = PointerId::Global(p);
            let listed = fixed_defs.contains(did) || d.fixed_signature;
            let field = adts[did]@[r.1];
            ||| listed && (d.kind == DefKind::Fn || d.kind == DefKind::AssocFn) && sig_mentions(
                gacx.fn_sigs@[did]@,
                ptr,
            )
            ||| listed && d.kind == DefKind::Static && (mentions(gacx.static_tys@[did]@, ptr)
                || gacx.addr_of_static@[did] == ptr)
            ||| (d.kind == DefKind::Struct || d.kind == DefKind::Enum || d.kind == DefKind::Union)
                && 0 <= r.1 < adts[did]@.len() && (listed || fixed_defs.contains(field.did) || (
            field.did.krate == 0 && field.fixed_signature)) && mentions(
                gacx.field_ltys@[field.did]@,
                ptr,
            )
        }),
{
    let ptr = PointerId::Global(p);
    let all = pointers_of_defs(gacx, adts, fixed_defs, defs);
    law_fixing_sets_one_bit(before, after, all, p);
    assert(all.contains(ptr));
    let i = choose|i: int|
        0 <= i < defs.len() && def_pointers(gacx, adts, fixed_defs, #[trigger] defs[i]).contains(
            ptr,
        );
    let did = defs[i].ldid.def_id();
    if defs[i].kind.is_adt_spec() {
        let fields = adts[did]@;
        let listed = is_def_fixed(defs[i], fixed_defs);
        let f = choose|f: int|
            0 <= f < fields.len() && is_field_fixed(#[trigger] fields[f], listed, fixed_defs)
                && mentions(gacx.field_ltys@[fields[f].did]@, ptr);
        (i, f)
    } else {
        (i, 0)
    }
}

/// After the foreign items were gone through, every pointer is fixed that occurs in the signature
/// of a foreign function, in the type of a foreign static or as the pointer to it, or in a field of
/// a struct that a foreign item mentions.
pub proof fn law_foreign_items_are_fixed(
    gacx: GlobalAnalysisCtxt,
    foreign: Set<DefId>,
    adts: Map<DefId, Vec<Field>>,
    structs: Seq<DefId>,
    mentioned: Set<DefId>,
    before: GlobalAssignment,
    after: GlobalAssignment,
    d: DefId,
    i: int,
    f: int,
    p: usize,
)
    requires
        fixes(before, after, foreign_pointers(gacx, foreign, adts, structs, mentioned)),
        ({
            let ptr = PointerId::Global(p);
            ||| gacx.fn_sigs@.contains_key(d) && foreign.contains(d) && sig_mentions(
                gacx.fn_sigs@[d]@,
                ptr,
            )
            ||| gacx.static_tys@.contains_key(d) && foreign.contains(d) && mentions(
                gacx.static_tys@[d]@,
                ptr,
            )
            ||| gacx.static_tys@.contains_key(d) && foreign.contains(d) && gacx.addr_of_static@[d]
                == ptr
            ||| 0 <= i < structs.len() && mentioned.contains(structs[i]) && 0 <= f
                < adts[structs[i]]@.len() && mentions(
                gacx.field_ltys@[adts[structs[i]]@[f].did]@,
                ptr,
            )
        }),
        p < before.flags@.len(),
    ensures
        after.flags@[p as int].bits & FlagSet::FIXED != 0,
{
    let ptr = PointerId::Global(p);
    let all = foreign_pointers(gacx, foreign, adts, structs, mentioned);
    if 0 <= i < structs.len() && mentioned.contains(structs[i]) && 0 <= f < adts[structs[i]]@.len()
        && mentions(gacx.field_ltys@[adts[structs[i]]@[f].did]@, ptr) {
        let field = adts[structs[i]]@[f];
        assert(pointers_of_structs(adts, gacx.field_ltys@, structs, mentioned).contains(ptr));
    }
    assert(all.contains(ptr));
    law_fixing_sets_one_bit(before, after, all, p);
}

/// Going through the foreign items changes a pointer only because of a foreign function or static
/// that it occurs in, or a field of a struct that a foreign item mentions.
pub proof fn law_only_foreign_items_are_fixed(
    gacx: GlobalAnalysisCtxt,
    foreign: Set<DefId>,
    adts: Map<DefId, Vec<Field>>,
    structs: Seq<DefId>,
    mentioned: Set<DefId>,
    before: GlobalAssignment,
    after: GlobalAssignment,
    p: usize,
) -> (r: (DefId, int, int))
    requires
        fixes(before, after, foreign_pointers(gacx, foreign, adts, structs, mentioned)),
        p < before.flags@.len(),
        after.flags@[p as int] != before.flags@[p as int],
    ensures
        ({
            let ptr = PointerId::Global(p);
            let (d, i, f) = r;
            ||| gacx.fn_sigs@.contains_key(d) && foreign.contains(d) && sig_mentions(
                gacx.fn_sigs@[d]@,
                ptr,
            )
            ||| gacx.static_tys@.contains_key(d) && foreign.contains(d) && (mentions(
                gacx.static_tys@[d]@,
                ptr,
            ) || gacx.addr_of_static@[d] == ptr)
            ||| 0 <= i < structs.len() && mentioned.contains(structs[i]) && 0 <= f
                < adts[structs[i]]@.len() && mentions(
                gacx.field_ltys@[adts[structs[i]]@[f].did]@,
                ptr,
            )
        }),
{
    let ptr = PointerId::Global(p);
    let all = foreign_pointers(gacx, foreign, adts, structs, mentioned);
    law_fixing_sets_one_bit(before, after, all, p);
    assert(all.contains(ptr));
    let any = DefId { krate: 0, index: 0 };
    if pointers_of_sigs(gacx.fn_sigs@, foreign).contains(ptr) {
        let d = choose|d: DefId| #[trigger]
            gacx.fn_sigs@.contains_key(d) && foreign.contains(d) && sig_mentions(
                gacx.fn_sigs@[d]@,
                ptr,
            );
        (d, 0, 0)
    } else if pointers_of_statics(gacx.static_tys@, gacx.addr_of_static@, foreign).contains(ptr) {
        let d = choose|d: DefId| #[trigger]
            gacx.static_tys@.contains_key(d) && foreign.contains(d) && (mentions(
                gacx.static_tys@[d]@,
                ptr,
            ) || only(gacx.addr_of_static@[d]).contains(ptr));
        (d, 0, 0)
    } else {
        let (i, f) = choose|i: int, f: int|
            #![trigger adts[structs[i]]@[f]]
            0 <= i < structs.len() && mentioned.contains(structs[i]) && 0 <= f
                < adts[structs[i]]@.len() && mentions(
                gacx.field_ltys@[adts[structs[i]]@[f].did]@,
                ptr,
            );
        (any, i, f)
    }
}

/// The pointers of some functions are exactly those that the signature of one of them mentions.
pub proof fn law_pointers_of_functions(
    sigs: Map<DefId, LFnSig>,
    dids: Set<DefId>,
    d: DefId,
    p: PointerId,
)
    ensures
        sigs.contains_key(d) && dids.contains(d) && sig_mentions(sigs[d]@, p) ==> pointers_of_sigs(
            sigs,
            dids,
        ).contains(p),
        pointers_of_sigs(sigs, dids).contains(p) ==> exists|e: DefId| #[trigger]
            sigs.contains_key(e) && dids.contains(e) && sig_mentions(sigs[e]@, p),
{
}

/// Everything that is needed of a definition is known exactly if all its fields that are to be
/// fixed have labeled types, or, where it is a listed or marked function or static, it has a
/// labeled signature or type.
pub proof fn law_known_definitions(
    gacx: GlobalAnalysisCtxt,
    adts: Map<DefId, Vec<Field>>,
    fixed_defs: Set<DefId>,
    d: Definition,
)
    ensures
        ({
            let did = DefId { krate: 0, index: d.ldid.index };
            let listed = fixed_defs.contains(did) || d.fixed_signature;
            let known = def_known(gacx, adts, fixed_defs, d);
            &&& (d.kind == DefKind::Fn || d.kind == DefKind::AssocFn) ==> (known <==> !listed
                || gacx.fn_sigs@.contains_key(did))
            &&& d.kind == DefKind::Static ==> (known <==> !listed || gacx.static_tys@.contains_key(
                did,
            ))
            &&& (d.kind == DefKind::Struct || d.kind == DefKind::Enum || d.kind == DefKind::Union)
                ==> (known <==> adts.contains_key(did) && forall|f: int|
                0 <= f < adts[did]@.len() && (listed || fixed_defs.contains(
                    (#[trigger] adts[did]@[f]).did,
                ) || (adts[did]@[f].did.krate == 0 && adts[did]@[f].fixed_signature))
                    ==> gacx.field_ltys@.contains_key(adts[did]@[f].did))
            &&& d.kind == DefKind::Other ==> known
        }),
{
    let did = DefId { krate: 0, index: d.ldid.index };
    assert(did == d.ldid.def_id());
    if d.kind.is_adt_spec() {
        let listed = is_def_fixed(d, fixed_defs);
        assert forall|f: int| #![trigger adts[did]@[f]] is_field_fixed(
            adts[did]@[f],
            listed,
            fixed_defs,
        ) <==> (listed || fixed_defs.contains(adts[did]@[f].did) || (adts[did]@[f].did.krate == 0
            && adts[did]@[f].fixed_signature)) by {}
    }
}

/// The fields of a definition are known exactly if the definition has fields listed, and each of
/// them has a labeled type.
pub proof fn law_known_fields(adts: Map<DefId, Vec<Field>>, tys: Map<DefId, LTy>, did: DefId)
    ensures
        fields_known(adts, tys, did) <==> adts.contains_key(did) && forall|f: int|
            0 <= f < adts[did]@.len() ==> tys.contains_key((#[trigger] adts[did]@[f]).did),
{
}

} // verus!
