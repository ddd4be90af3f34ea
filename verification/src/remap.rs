//! New numbers for pointers, so that the pointers of an equivalence class have the same number.
use crate::context::{lty_fits, sig_fits, AnalysisCtxtData, GlobalAnalysisCtxt, Location};
use crate::def_id::{lemma_next_key, DefId, DefMap};
use crate::flags::PointerInfo;
use crate::keyed_map::KeyedMap;
use crate::pointer_id::{
    has_value, is_label, lookup, value_of, GlobalPointerTable, LocalPointerTable, PointerId,
};
use crate::relabel::{law_relabeled, relabel, relabeled};
use crate::ty::{LFnSig, LTy, LabeledNode, SigView};
use vstd::prelude::*;

verus! {

/// The new number of a label. Labels that are no pointers stay so.
pub open spec fn renumbered(
    global: Seq<PointerId>,
    local: Seq<PointerId>,
    ptr: PointerId,
) -> PointerId {
    if ptr is Absent {
        PointerId::Absent
    } else {
        value_of(global, local, ptr)
    }
}

/// The type with new numbers.
pub open spec fn renumbered_ty(
    lty: Seq<LabeledNode<PointerId>>,
    global: Seq<PointerId>,
    local: Seq<PointerId>,
) -> Seq<LabeledNode<PointerId>> {
    relabeled(lty, global, local, PointerId::Absent)
}

/// The signature with new numbers.
pub open spec fn renumbered_sig(sig: SigView, global: Seq<PointerId>) -> SigView {
    SigView {
        inputs: Seq::new(
            sig.inputs.len(),
            |i: int| renumbered_ty(sig.inputs[i], global, Seq::empty()),
        ),
        output: renumbered_ty(sig.output, global, Seq::empty()),
    }
}

/// Pointers with the same new number have it everywhere, and every node of a type keeps its place.
pub proof fn law_renumbering_merges(
    a: Seq<LabeledNode<PointerId>>,
    b: Seq<LabeledNode<PointerId>>,
    global: Seq<PointerId>,
    local: Seq<PointerId>,
    i: int,
    j: int,
)
    requires
        0 <= i < a.len(),
        0 <= j < b.len(),
        renumbered(global, local, a[i].label) == renumbered(global, local, b[j].label),
    ensures
        renumbered_ty(a, global, local)[i].label == renumbered_ty(b, global, local)[j].label,
        renumbered_ty(a, global, local).len() == a.len(),
        renumbered_ty(a, global, local)[i].node == a[i].node,
{
}

/// Every new number is that of a pointer of a program with `globals` global pointers.
pub open spec fn numbers_within(map: Seq<PointerId>, globals: nat, locals: nat) -> bool {
    forall|i: int| 0 <= i < map.len() ==> has_value(globals, locals, #[trigger] map[i])
}

/// Whether every new number is that of a pointer of a program with so many global and local
/// pointers.
pub fn are_numbers_within(map: &Vec<PointerId>, globals: usize, locals: usize) -> (r: bool)
    ensures
        r == numbers_within(map@, globals as nat, locals as nat),
{
    let mut i: usize = 0;
    while i < map.len()
        invariant
            i <= map@.len(),
            numbers_within(map@.take(i as int), globals as nat, locals as nat),
        decreases map@.len() - i,
    {
        let known = match map[i] {
            PointerId::Global(k) => k < globals,
            PointerId::Local(k) => k < locals,
            PointerId::Absent => false,
        };
        assert(known == has_value(globals as nat, locals as nat, map@[i as int]));
        if !known {
            return false;
        }
        assert(map@.take(i + 1) =~= map@.take(i as int).push(map@[i as int]));
        i += 1;
    }
    assert(map@.take(i as int) =~= map@);
    true
}

proof fn lemma_renumbered_fits(
    lty: Seq<LabeledNode<PointerId>>,
    global: Seq<PointerId>,
    local: Seq<PointerId>,
    globals: nat,
    locals: nat,
)
    requires
        lty_fits(lty, global.len(), local.len()),
        numbers_within(global, globals, locals),
        numbers_within(local, globals, locals),
    ensures
        lty_fits(renumbered_ty(lty, global, local), globals, locals),
{
    assert forall|k: int| 0 <= k < lty.len() implies is_label(
        globals,
        locals,
        (#[trigger] renumbered_ty(lty, global, local)[k]).label,
    ) by {
        assert(is_label(global.len(), local.len(), lty[k].label));
        match lty[k].label {
            PointerId::Global(i) => {
                assert(has_value(globals, locals, global[i as int]));
            },
            PointerId::Local(i) => {
                assert(has_value(globals, locals, local[i as int]));
            },
            PointerId::Absent => {},
        }
    }
}

/// The local table of what has no local pointers.
fn no_locals() -> (r: LocalPointerTable<PointerId>)
    ensures
        r@ == Seq::<PointerId>::empty(),
{
    LocalPointerTable { values: Vec::new() }
}

/// Renumbers the types.
fn renumber_tys(
    tys: &Vec<LTy>,
    global: &GlobalPointerTable<PointerId>,
    local: &LocalPointerTable<PointerId>,
) -> (r: Vec<LTy>)
    requires
        forall|i: int|
            0 <= i < tys@.len() ==> lty_fits((#[trigger] tys@[i])@, global@.len(), local@.len()),
    ensures
        r@.len() == tys@.len(),
        forall|i: int|
            0 <= i < tys@.len() ==> (#[trigger] r@[i])@ == renumbered_ty(
                tys@[i]@,
                global@,
                local@,
            ),
{
    let mut new_tys: Vec<LTy> = Vec::new();
    let mut i: usize = 0;
    while i < tys.len()
        invariant
            i <= tys@.len(),
            new_tys@.len() == i,
            forall|i: int|
                0 <= i < tys@.len() ==> lty_fits(
                    (#[trigger] tys@[i])@,
                    global@.len(),
                    local@.len(),
                ),
            forall|k: int|
                0 <= k < i ==> (#[trigger] new_tys@[k])@ == renumbered_ty(
                    tys@[k]@,
                    global@,
                    local@,
                ),
        decreases tys@.len() - i,
    {
        new_tys.push(relabel(&tys[i], global, local, PointerId::Absent));
        i += 1;
    }
    new_tys
}

/// Renumbers a signature.
fn renumber_sig(lsig: &LFnSig, global: &GlobalPointerTable<PointerId>) -> (r: LFnSig)
    requires
        sig_fits(lsig@, global@.len()),
    ensures
        r@ == renumbered_sig(lsig@, global@),
{
    let none = no_locals();
    assert forall|i: int| 0 <= i < lsig.inputs@.len() implies lty_fits(
        (#[trigger] lsig.inputs@[i])@,
        global@.len(),
        none@.len(),
    ) by {
        assert(lty_fits(lsig@.inputs[i], global@.len(), 0));
    }
    let inputs = renumber_tys(&lsig.inputs, global, &none);
    let output = relabel(&lsig.output, global, &none, PointerId::Absent);
    let r = LFnSig { inputs, output };
    assert(r@.inputs =~= renumbered_sig(lsig@, global@).inputs);
    r
}

/// Renumbers the signatures.
fn renumber_sigs(sigs: &DefMap<LFnSig>, global: &GlobalPointerTable<PointerId>) -> (r: DefMap<
    LFnSig,
>)
    requires
        forall|d: DefId| #[trigger]
            sigs@.contains_key(d) ==> sig_fits(sigs@[d]@, global@.len()),
    ensures
        r.keys() == sigs.keys(),
        r@.dom() == sigs@.dom(),
        forall|d: DefId| #[trigger]
            sigs@.contains_key(d) ==> r@[d]@ == renumbered_sig(sigs@[d]@, global@),
{
    let n = sigs.len();
    let ghost keys = sigs.keys();
    let mut r: DefMap<LFnSig> = DefMap::new();
    let mut i: usize = 0;
    assert(keys.take(0) =~= Seq::<DefId>::empty());
    while i < n
        invariant
            i <= n,
            n == keys.len(),
            keys == sigs.keys(),
            keys.no_duplicates(),
            forall|d: DefId| #[trigger]
                sigs@.contains_key(d) ==> sig_fits(sigs@[d]@, global@.len()),
            r.keys() == keys.take(i as int),
            forall|d: DefId| #[trigger]
                r@.contains_key(d) <==> keys.take(i as int).contains(d),
            forall|d: DefId| #[trigger]
                r@.contains_key(d) ==> r@[d]@ == renumbered_sig(sigs@[d]@, global@),
        decreases n - i,
    {
        let (did, lsig) = sigs.entry(i);
        proof {
            lemma_next_key(keys, i as int);
        }
        r.insert(did, renumber_sig(lsig, global));
        i += 1;
        assert(r.keys() =~= keys.take(i as int));
    }
    proof {
        assert(keys.take(n as int) =~= keys);
        assert(r@.dom() =~= sigs@.dom());
    }
    r
}

/// Renumbers the types of definitions.
fn renumber_def_tys(tys: &DefMap<LTy>, global: &GlobalPointerTable<PointerId>) -> (r: DefMap<LTy>)
    requires
        forall|d: DefId| #[trigger]
            tys@.contains_key(d) ==> lty_fits(tys@[d]@, global@.len(), 0),
    ensures
        r.keys() == tys.keys(),
        r@.dom() == tys@.dom(),
        forall|d: DefId| #[trigger]
            tys@.contains_key(d) ==> r@[d]@ == renumbered_ty(tys@[d]@, global@, Seq::empty()),
{
    let n = tys.len();
    let ghost keys = tys.keys();
    let none = no_locals();
    let mut r: DefMap<LTy> = DefMap::new();
    let mut i: usize = 0;
    assert(keys.take(0) =~= Seq::<DefId>::empty());
    while i < n
        invariant
            i <= n,
            n == keys.len(),
            keys == tys.keys(),
            keys.no_duplicates(),
            none@ == Seq::<PointerId>::empty(),
            forall|d: DefId| #[trigger]
                tys@.contains_key(d) ==> lty_fits(tys@[d]@, global@.len(), 0),
            r.keys() == keys.take(i as int),
            forall|d: DefId| #[trigger]
                r@.contains_key(d) <==> keys.take(i as int).contains(d),
            forall|d: DefId| #[trigger]
                r@.contains_key(d) ==> r@[d]@ == renumbered_ty(tys@[d]@, global@, Seq::empty()),
        decreases n - i,
    {
        let (did, lty) = tys.entry(i);
        proof {
            lemma_next_key(keys, i as int);
        }
        r.insert(did, relabel(lty, global, &none, PointerId::Absent));
        i += 1;
        assert(r.keys() =~= keys.take(i as int));
    }
    proof {
        assert(keys.take(n as int) =~= keys);
        assert(r@.dom() =~= tys@.dom());
    }
    r
}

/// The new number of a pointer.
fn renumber(
    global: &GlobalPointerTable<PointerId>,
    local: &LocalPointerTable<PointerId>,
    ptr: PointerId,
) -> (r: PointerId)
    requires
        is_label(global@.len(), local@.len(), ptr),
    ensures
        r == renumbered(global@, local@, ptr),
{
    if ptr.is_none() {
        ptr
    } else {
        lookup(global, local, ptr)
    }
}

/// Renumbers the pointers to definitions.
fn renumber_addrs(addrs: &DefMap<PointerId>, global: &GlobalPointerTable<PointerId>) -> (r: DefMap<
    PointerId,
>)
    requires
        forall|d: DefId| #[trigger]
            addrs@.contains_key(d) ==> is_label(global@.len(), 0, addrs@[d]),
    ensures
        r.keys() == addrs.keys(),
        r@.dom() == addrs@.dom(),
        forall|d: DefId| #[trigger]
            addrs@.contains_key(d) ==> r@[d] == renumbered(global@, Seq::empty(), addrs@[d]),
{
    let n = addrs.len();
    let ghost keys = addrs.keys();
    let none = no_locals();
    let mut r: DefMap<PointerId> = DefMap::new();
    let mut i: usize = 0;
    assert(keys.take(0) =~= Seq::<DefId>::empty());
    while i < n
        invariant
            i <= n,
            n == keys.len(),
            keys == addrs.keys(),
            keys.no_duplicates(),
            none@ == Seq::<PointerId>::empty(),
            forall|d: DefId| #[trigger]
                addrs@.contains_key(d) ==> is_label(global@.len(), 0, addrs@[d]),
            r.keys() == keys.take(i as int),
            forall|d: DefId| #[trigger]
                r@.contains_key(d) <==> keys.take(i as int).contains(d),
            forall|d: DefId| #[trigger]
                r@.contains_key(d) ==> r@[d] == renumbered(global@, Seq::empty(), addrs@[d]),
        decreases n - i,
    {
        let (did, ptr) = addrs.entry(i);
        proof {
            lemma_next_key(keys, i as int);
        }
        r.insert(did, renumber(global, &none, *ptr));
        i += 1;
        assert(r.keys() =~= keys.take(i as int));
    }
    proof {
        assert(keys.take(n as int) =~= keys);
        assert(r@.dom() =~= addrs@.dom());
    }
    r
}

/// `after` is `before` with new numbers for the global pointers, of which `infos` is known.
pub open spec fn globals_renumbered(
    before: GlobalAnalysisCtxt,
    after: GlobalAnalysisCtxt,
    global: Seq<PointerId>,
    infos: Seq<PointerInfo>,
) -> bool {
    &&& after.ptr_info@ == infos
    &&& after.fn_sigs.keys() == before.fn_sigs.keys()
    &&& after.fn_sigs@.dom() == before.fn_sigs@.dom()
    &&& forall|d: DefId| #[trigger]
        before.fn_sigs@.contains_key(d) ==> after.fn_sigs@[d]@ == renumbered_sig(
            before.fn_sigs@[d]@,
            global,
        )
    &&& after.static_tys.keys() == before.static_tys.keys()
    &&& after.static_tys@.dom() == before.static_tys@.dom()
    &&& forall|d: DefId| #[trigger]
        before.static_tys@.contains_key(d) ==> after.static_tys@[d]@ == renumbered_ty(
            before.static_tys@[d]@,
            global,
            Seq::empty(),
        )
    &&& after.addr_of_static.keys() == before.addr_of_static.keys()
    &&& after.addr_of_static@.dom() == before.addr_of_static@.dom()
    &&& forall|d: DefId| #[trigger]
        before.addr_of_static@.contains_key(d) ==> after.addr_of_static@[d] == renumbered(
            global,
            Seq::empty(),
            before.addr_of_static@[d],
        )
    &&& after.field_ltys.keys() == before.field_ltys.keys()
    &&& after.field_ltys@.dom() == before.field_ltys@.dom()
    &&& forall|d: DefId| #[trigger]
        before.field_ltys@.contains_key(d) ==> after.field_ltys@[d]@ == renumbered_ty(
            before.field_ltys@[d]@,
            global,
            Seq::empty(),
        )
    &&& after.fns_failed == before.fns_failed
}

/// Gives the global pointers new numbers, of which `infos` is known.
pub fn remap_globals(
    gacx: &mut GlobalAnalysisCtxt,
    global: &GlobalPointerTable<PointerId>,
    infos: Vec<PointerInfo>,
)
    requires
        old(gacx).wf(),
        global@.len() == old(gacx).ptr_info@.len(),
        numbers_within(global@, infos@.len(), 0),
    ensures
        globals_renumbered(*old(gacx), *final(gacx), global@, infos@),
        final(gacx).wf(),
{
    let ghost before = *gacx;
    let ghost n = infos@.len();
    gacx.fn_sigs = renumber_sigs(&gacx.fn_sigs, global);
    gacx.static_tys = renumber_def_tys(&gacx.static_tys, global);
    gacx.addr_of_static = renumber_addrs(&gacx.addr_of_static, global);
    gacx.field_ltys = renumber_def_tys(&gacx.field_ltys, global);
    gacx.ptr_info = GlobalPointerTable { values: infos };
    proof {
        let none = Seq::<PointerId>::empty();
        assert(numbers_within(none, n, 0));
        assert forall|d: DefId| #[trigger] gacx.fn_sigs@.contains_key(d) implies sig_fits(
            gacx.fn_sigs@[d]@,
            n,
        ) by {
            assert(before.fn_sigs@.dom().contains(d));
            let sig = before.fn_sigs@[d]@;
            lemma_renumbered_fits(sig.output, global@, none, n, 0);
            assert forall|i: int| 0 <= i < sig.inputs.len() implies lty_fits(
                #[trigger] renumbered_sig(sig, global@).inputs[i],
                n,
                0,
            ) by {
                assert(lty_fits(sig.inputs[i], global@.len(), 0));
                lemma_renumbered_fits(sig.inputs[i], global@, none, n, 0);
            }
        }
        assert forall|d: DefId| #[trigger] gacx.static_tys@.contains_key(d) implies lty_fits(
            gacx.static_tys@[d]@,
            n,
            0,
        ) by {
            assert(before.static_tys@.dom().contains(d));
            lemma_renumbered_fits(before.static_tys@[d]@, global@, none, n, 0);
        }
        assert forall|d: DefId| #[trigger] gacx.field_ltys@.contains_key(d) implies lty_fits(
            gacx.field_ltys@[d]@,
            n,
            0,
        ) by {
            assert(before.field_ltys@.dom().contains(d));
            lemma_renumbered_fits(before.field_ltys@[d]@, global@, none, n, 0);
        }
        assert forall|d: DefId| #[trigger] gacx.addr_of_static@.contains_key(d) implies is_label(
            n,
            0,
            gacx.addr_of_static@[d],
        ) by {
            assert(before.addr_of_static@.dom().contains(d));
            assert(is_label(global@.len(), 0, before.addr_of_static@[d]));
            if let PointerId::Global(i) = before.addr_of_static@[d] {
                assert(has_value(n, 0, global@[i as int]));
            }
        }
    }
}

/// `after` is `before` with new numbers for the pointers of the function, of which `infos` is
/// known.
pub open spec fn locals_renumbered(
    before: AnalysisCtxtData,
    after: AnalysisCtxtData,
    global: Seq<PointerId>,
    local: Seq<PointerId>,
    infos: Seq<PointerInfo>,
) -> bool {
    &&& after.ptr_info@ == infos
    &&& after.local_tys@.len() == before.local_tys@.len()
    &&& forall|l: int|
        0 <= l < before.local_tys@.len() ==> (#[trigger] after.local_tys@[l])@ == renumbered_ty(
            before.local_tys@[l]@,
            global,
            local,
        )
    &&& after.addr_of_local@ == Seq::new(
        before.addr_of_local@.len(),
        |l: int| renumbered(global, local, before.addr_of_local@[l]),
    )
    &&& after.rvalue_tys@.dom() == before.rvalue_tys@.dom()
    &&& forall|loc: Location|
        before.rvalue_tys@.contains_key(loc) ==> (#[trigger] after.rvalue_tys@[loc])@
            == renumbered_ty(before.rvalue_tys@[loc]@, global, local)
    &&& after.string_literal_locs == before.string_literal_locs
}

/// Gives the pointers of a function new numbers, of which `infos` is known. The global pointers
/// among its labels get theirs from `global`; there are `globals` of them afterwards.
pub fn remap_locals(
    acx: &mut AnalysisCtxtData,
    global: &GlobalPointerTable<PointerId>,
    local: &LocalPointerTable<PointerId>,
    infos: Vec<PointerInfo>,
    globals: usize,
)
    requires
        old(acx).fits(global@.len()),
        local@.len() == old(acx).ptr_info@.len(),
        numbers_within(global@, globals as nat, 0),
        numbers_within(local@, globals as nat, infos@.len()),
    ensures
        locals_renumbered(*old(acx), *final(acx), global@, local@, infos@),
        final(acx).fits(globals as nat),
{
    let ghost before = *acx;
    let ghost n = infos@.len();
    acx.local_tys = renumber_tys(&acx.local_tys, global, local);
    let mut addrs: Vec<PointerId> = Vec::new();
    let mut l: usize = 0;
    while l < acx.addr_of_local.len()
        invariant
            l <= acx.addr_of_local@.len(),
            acx.addr_of_local == before.addr_of_local,
            before.fits(global@.len()),
            local@.len() == before.ptr_info@.len(),
            addrs@ == Seq::new(
                l as nat,
                |l: int| renumbered(global@, local@, before.addr_of_local@[l]),
            ),
        decreases acx.addr_of_local@.len() - l,
    {
        assert(has_value(global@.len(), local@.len(), before.addr_of_local@[l as int]));
        addrs.push(renumber(global, local, acx.addr_of_local[l]));
        l += 1;
    }
    acx.addr_of_local = addrs;
    let mut tys: KeyedMap<Location, LTy> = KeyedMap::new();
    let n_tys = acx.rvalue_tys.len();
    let ghost locs = before.rvalue_tys.keys();
    let mut k: usize = 0;
    while k < n_tys
        invariant
            k <= n_tys,
            n_tys == locs.len(),
            locs == before.rvalue_tys.keys(),
            locs.no_duplicates(),
            acx.rvalue_tys == before.rvalue_tys,
            before.fits(global@.len()),
            local@.len() == before.ptr_info@.len(),
            forall|loc: Location| #[trigger]
                tys@.contains_key(loc) <==> exists|j: int| 0 <= j < k && #[trigger] locs[j] == loc,
            forall|loc: Location|
                tys@.contains_key(loc) ==> (#[trigger] tys@[loc])@ == renumbered_ty(
                    before.rvalue_tys@[loc]@,
                    global@,
                    local@,
                ),
        decreases n_tys - k,
    {
        let ghost done = tys@;
        let (loc, old_lty) = acx.rvalue_tys.entry(k);
        assert(lty_fits(before.rvalue_tys@[loc]@, global@.len(), local@.len()));
        let lty = relabel(old_lty, global, local, PointerId::Absent);
        tys.insert(loc, lty);
        assert forall|l: Location| #[trigger]
            tys@.contains_key(l) <==> exists|j: int| 0 <= j < k + 1 && #[trigger] locs[j] == l by {
            if done.contains_key(l) {
                let j = choose|j: int| 0 <= j < k && #[trigger] locs[j] == l;
                assert(locs[j] == l);
            }
            assert(locs[k as int] == loc);
        }
        k += 1;
    }
    assert forall|loc: Location| #[trigger]
        tys@.contains_key(loc) <==> before.rvalue_tys@.contains_key(loc) by {
        assert(locs.contains(loc) <==> before.rvalue_tys@.contains_key(loc));
    }
    assert(tys@.dom() =~= before.rvalue_tys@.dom());
    acx.rvalue_tys = tys;
    acx.ptr_info = LocalPointerTable { values: infos };
    proof {
        assert forall|i: int| 0 <= i < global@.len() implies has_value(
            globals as nat,
            n,
            #[trigger] global@[i],
        ) by {
            assert(has_value(globals as nat, 0, global@[i]));
        }
        assert forall|l: int| 0 <= l < acx.local_tys@.len() implies {
            &&& (#[trigger] acx.local_tys@[l])@.len() > 0
            &&& lty_fits(acx.local_tys@[l]@, globals as nat, n)
        } by {
            assert(before.local_tys@[l]@.len() > 0);
            lemma_renumbered_fits(before.local_tys@[l]@, global@, local@, globals as nat, n);
        }
        assert forall|l: int| 0 <= l < acx.addr_of_local@.len() implies has_value(
            globals as nat,
            n,
            #[trigger] acx.addr_of_local@[l],
        ) by {
            assert(has_value(global@.len(), local@.len(), before.addr_of_local@[l]));
        }
        assert forall|loc: Location| acx.rvalue_tys@.contains_key(loc) implies lty_fits(
            (#[trigger] acx.rvalue_tys@[loc])@,
            globals as nat,
            n,
        ) by {
            assert(before.rvalue_tys@.contains_key(loc));
            assert(lty_fits(before.rvalue_tys@[loc]@, global@.len(), local@.len()));
            lemma_renumbered_fits(before.rvalue_tys@[loc]@, global@, local@, globals as nat, n);
        }
    }
}

/// A pointer gets the number that the table of global or of local pointers has for it. An absent
/// label stays so.
pub proof fn law_new_numbers(
    global: Seq<PointerId>,
    local: Seq<PointerId>,
    p: usize,
    globals: nat,
    locals: nat,
    map: Seq<PointerId>,
    i: int,
)
    ensures
        renumbered(global, local, PointerId::Absent) == PointerId::Absent,
        renumbered(global, local, PointerId::Global(p)) == global[p as int],
        renumbered(global, local, PointerId::Local(p)) == local[p as int],
        numbers_within(map, globals, locals) && 0 <= i < map.len() ==> match map[i] {
            PointerId::Global(n) => n < globals,
            PointerId::Local(n) => n < locals,
            PointerId::Absent => false,
        },
{
}

/// Types and signatures with new numbers have the same shape, and the new number at each pointer.
pub proof fn law_renumbered_types(
    lty: Seq<LabeledNode<PointerId>>,
    sig: SigView,
    global: Seq<PointerId>,
    local: Seq<PointerId>,
    i: int,
    k: int,
)
    ensures
        renumbered_ty(lty, global, local).len() == lty.len(),
        0 <= k < lty.len() ==> renumbered_ty(lty, global, local)[k].node == lty[k].node,
        0 <= k < lty.len() ==> renumbered_ty(lty, global, local)[k].label == renumbered(
            global,
            local,
            lty[k].label,
        ),
        renumbered_sig(sig, global).inputs.len() == sig.inputs.len(),
        renumbered_sig(sig, global).output.len() == sig.output.len(),
        0 <= k < sig.output.len() ==> renumbered_sig(sig, global).output[k].node
            == sig.output[k].node,
        0 <= k < sig.output.len() && !(sig.output[k].label is Local) ==> renumbered_sig(
            sig,
            global,
        ).output[k].label == renumbered(global, local, sig.output[k].label),
        0 <= i < sig.inputs.len() ==> renumbered_sig(sig, global).inputs[i].len()
            == sig.inputs[i].len(),
        0 <= i < sig.inputs.len() && 0 <= k < sig.inputs[i].len() ==> renumbered_sig(
            sig,
            global,
        ).inputs[i][k].node == sig.inputs[i][k].node,
        0 <= i < sig.inputs.len() && 0 <= k < sig.inputs[i].len() && !(
        sig.inputs[i][k].label is Local) ==> renumbered_sig(sig, global).inputs[i][k].label
            == renumbered(global, local, sig.inputs[i][k].label),
{
    if 0 <= k < lty.len() {
        law_relabeled(lty, global, local, PointerId::Absent, k);
    }
    if 0 <= k < sig.output.len() {
        law_relabeled(sig.output, global, Seq::empty(), PointerId::Absent, k);
    }
    if 0 <= i < sig.inputs.len() && 0 <= k < sig.inputs[i].len() {
        law_relabeled(sig.inputs[i], global, Seq::empty(), PointerId::Absent, k);
    }
}

/// New numbers change the pointers of all signatures, statics and fields, and nothing else of them:
/// the same definitions have them, and the functions that were given up stay so.
pub proof fn law_globals_renumbered(
    before: GlobalAnalysisCtxt,
    after: GlobalAnalysisCtxt,
    global: Seq<PointerId>,
    infos: Seq<PointerInfo>,
    d: DefId,
)
    requires
        globals_renumbered(before, after, global, infos),
    ensures
        after.ptr_info@ == infos,
        after.fns_failed@ == before.fns_failed@,
        after.fn_sigs@.contains_key(d) <==> before.fn_sigs@.contains_key(d),
        before.fn_sigs@.contains_key(d) ==> after.fn_sigs@[d]@ == renumbered_sig(
            before.fn_sigs@[d]@,
            global,
        ),
        after.static_tys@.contains_key(d) <==> before.static_tys@.contains_key(d),
        before.static_tys@.contains_key(d) ==> after.static_tys@[d]@ == renumbered_ty(
            before.static_tys@[d]@,
            global,
            Seq::empty(),
        ),
        after.addr_of_static@.contains_key(d) <==> before.addr_of_static@.contains_key(d),
        before.addr_of_static@.contains_key(d) ==> after.addr_of_static@[d] == renumbered(
            global,
            Seq::empty(),
            before.addr_of_static@[d],
        ),
        after.field_ltys@.contains_key(d) <==> before.field_ltys@.contains_key(d),
        before.field_ltys@.contains_key(d) ==> after.field_ltys@[d]@ == renumbered_ty(
            before.field_ltys@[d]@,
            global,
            Seq::empty(),
        ),
        after.fn_sigs.keys() == before.fn_sigs.keys(),
        after.static_tys.keys() == before.static_tys.keys(),
        after.addr_of_static.keys() == before.addr_of_static.keys(),
        after.field_ltys.keys() == before.field_ltys.keys(),
{
    assert(after.fn_sigs@.dom().contains(d) <==> before.fn_sigs@.dom().contains(d));
    assert(after.static_tys@.dom().contains(d) <==> before.static_tys@.dom().contains(d));
    assert(after.addr_of_static@.dom().contains(d) <==> before.addr_of_static@.dom().contains(d));
    assert(after.field_ltys@.dom().contains(d) <==> before.field_ltys@.dom().contains(d));
}

/// New numbers change the pointers of all locals and right hand sides of a function, and the
/// pointers to its locals. The locals, the locations and the string literals stay.
pub proof fn law_locals_renumbered(
    before: AnalysisCtxtData,
    after: AnalysisCtxtData,
    global: Seq<PointerId>,
    local: Seq<PointerId>,
    infos: Seq<PointerInfo>,
    l: int,
    loc: Location,
)
    requires
        locals_renumbered(before, after, global, local, infos),
    ensures
        after.ptr_info@ == infos,
        after.string_literal_locs@ == before.string_literal_locs@,
        after.local_tys@.len() == before.local_tys@.len(),
        0 <= l < before.local_tys@.len() ==> after.local_tys@[l]@ == renumbered_ty(
            before.local_tys@[l]@,
            global,
            local,
        ),
        after.addr_of_local@.len() == before.addr_of_local@.len(),
        0 <= l < before.addr_of_local@.len() ==> after.addr_of_local@[l] == renumbered(
            global,
            local,
            before.addr_of_local@[l],
        ),
        after.rvalue_tys@.contains_key(loc) <==> before.rvalue_tys@.contains_key(loc),
        before.rvalue_tys@.contains_key(loc) ==> after.rvalue_tys@[loc]@ == renumbered_ty(
            before.rvalue_tys@[loc]@,
            global,
            local,
        ),
{
    assert(after.rvalue_tys@.dom().contains(loc) <==> before.rvalue_tys@.dom().contains(loc));
}

/// Numbers are within the tables exactly if each is of a pointer that there is.
pub proof fn law_numbers_within(map: Seq<PointerId>, globals: nat, locals: nat)
    ensures
        numbers_within(map, globals, locals) <==> forall|i: int|
            0 <= i < map.len() ==> match #[trigger] map[i] {
                PointerId::Global(n) => n < globals,
                PointerId::Local(n) => n < locals,
                PointerId::Absent => false,
            },
{
}

} // verus!
