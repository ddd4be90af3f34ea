//! Which pointers are temporary references.
use crate::context::{lty_fits, AnalysisCtxtData, GlobalAnalysisCtxt, Location};
use crate::flags::{law_info_masks, law_info_with, PointerInfo};
use crate::mir::{all_statements, in_block, statement_wf, Body, LocalKind, Place, Rvalue, Statement};
use crate::pointer_id::PointerId;
use crate::ty::{pointer_of, AssignPointerIds, LTy, Ty};
use vstd::prelude::*;

verus! {

/// The place that a right hand side takes a reference to or the address of.
pub open spec fn borrowed_place(rv: Rvalue) -> Option<Place> {
    match rv {
        Rvalue::Ref { place, .. } => Some(place),
        Rvalue::AddressOf { place, .. } => Some(place),
        _ => None,
    }
}

/// Whether `place` is the local `l` or a part of it.
pub open spec fn is_within(place: Place, l: int) -> bool {
    !place.is_indirect && place.local == l
}

/// How often a statement writes to the local `l`. To take the address of a local counts as a
/// write to it, and so does a call whose result goes there.
pub open spec fn writes_in(stmt: Statement, l: int) -> nat {
    match stmt {
        Statement::Assign { place, rvalue } => {
            let direct: nat = if is_within(place, l) {
                1
            } else {
                0
            };
            let borrow: nat = match borrowed_place(rvalue) {
                Some(p) => if is_within(p, l) {
                    1
                } else {
                    0
                },
                None => 0,
            };
            direct + borrow
        },
        Statement::Call { dest } => if is_within(dest, l) {
            1
        } else {
            0
        },
        Statement::Other => 0,
    }
}

/// How often the statements write to the local `l`.
pub open spec fn write_count(stmts: Seq<(Location, Statement)>, l: int) -> nat
    decreases stmts.len(),
{
    if stmts.len() == 0 {
        0
    } else {
        write_count(stmts.drop_last(), l) + writes_in(stmts.last().1, l)
    }
}

/// Whether a statement assigns a reference or an address to a place that starts from the local
/// `l`.
pub open spec fn assigns_ref(stmt: Statement, l: int) -> bool {
    match stmt {
        Statement::Assign { place, rvalue } => place.local == l && borrowed_place(rvalue) is Some,
        Statement::Call { .. } => false,
        Statement::Other => false,
    }
}

/// Whether one of the statements assigns a reference or an address to a place that starts from
/// the local `l`.
pub open spec fn ref_assigned(stmts: Seq<(Location, Statement)>, l: int) -> bool {
    exists|k: int| 0 <= k < stmts.len() && assigns_ref((#[trigger] stmts[k]).1, l)
}

/// Whether the local `l` holds a reference that the compiler made for an expression such as `&x`:
/// it is a temporary that is written once, and what is assigned is a reference or an address.
pub open spec fn is_temporary_ref(body: Body, l: int) -> bool {
    let stmts = all_statements(body.blocks@);
    &&& body.locals@[l].kind is Temp
    &&& write_count(stmts, l) == 1
    &&& ref_assigned(stmts, l)
}

/// Whether `ptr` is the type of a local that is no temporary reference.
pub open spec fn is_lasting(body: Body, acx: AnalysisCtxtData, ptr: PointerId) -> bool {
    exists|l: int|
        0 <= l < body.locals@.len() && pointer_of((#[trigger] acx.local_tys@[l])@) == Some(ptr)
            && !is_temporary_ref(body, l)
}

/// What is known about the pointer with the number `i`, after the lasting pointers were marked.
pub open spec fn lasting_info(
    body: Body,
    acx: AnalysisCtxtData,
    ptr: PointerId,
    info: PointerInfo,
) -> PointerInfo {
    if is_lasting(body, acx, ptr) {
        info.with(PointerInfo::NOT_TEMPORARY_REF)
    } else {
        info
    }
}

spec fn capped(n: nat) -> u8 {
    if n >= 2 {
        2
    } else {
        n as u8
    }
}

/// One more, as long as that is at most two.
fn count_one(counts: &mut Vec<u8>, l: usize)
    requires
        l < old(counts)@.len(),
    ensures
        final(counts)@ == old(counts)@.update(
            l as int,
            if old(counts)@[l as int] >= 2 {
                old(counts)@[l as int]
            } else {
                (old(counts)@[l as int] + 1) as u8
            },
        ),
{
    let c = counts[l];
    if c < 2 {
        counts.set(l, c + 1);
    } else {
        assert(counts@.update(l as int, c) =~= counts@);
    }
}

/// Marks the pointers in `gacx` and `acx` that are no temporary references, by looking at what the
/// body does with its locals.
pub fn update_pointer_info(gacx: &mut GlobalAnalysisCtxt, acx: &mut AnalysisCtxtData, body: &Body)
    requires
        body.wf(),
        old(acx).local_tys@.len() == body.locals@.len(),
        forall|l: int|
            0 <= l < body.locals@.len() ==> {
                &&& (#[trigger] old(acx).local_tys@[l])@.len() > 0
                &&& lty_fits(old(acx).local_tys@[l]@, old(gacx).infos().len(), old(acx).infos().len())
            },
    ensures
        final(gacx).infos() == Seq::new(
            old(gacx).infos().len(),
            |i: int|
                lasting_info(
                    *body,
                    *old(acx),
                    PointerId::Global(i as usize),
                    old(gacx).infos()[i],
                ),
        ),
        final(acx).infos() == Seq::new(
            old(acx).infos().len(),
            |i: int|
                lasting_info(*body, *old(acx), PointerId::Local(i as usize), old(acx).infos()[i]),
        ),
        final(gacx).others() == old(gacx).others(),
        final(acx).others() == old(acx).others(),
{
    let ghost n = body.locals@.len();
    let ghost stmts = all_statements(body.blocks@);
    let mut writes: Vec<u8> = Vec::new();
    let mut refs: Vec<bool> = Vec::new();
    let mut l: usize = 0;
    while l < body.locals.len()
        invariant
            l <= body.locals@.len(),
            writes@.len() == l,
            refs@.len() == l,
            forall|k: int| 0 <= k < l ==> writes@[k] == 0,
            forall|k: int| 0 <= k < l ==> refs@[k] == false,
        decreases body.locals@.len() - l,
    {
        writes.push(0);
        refs.push(false);
        l += 1;
    }
    scan_statements(body, &mut writes, &mut refs);
    let ghost ginfos0 = gacx.infos();
    let ghost linfos0 = acx.infos();
    assert(ginfos0.len() == gacx.ptr_info.values.len());
    assert(linfos0.len() == acx.ptr_info.values.len());
    l = 0;
    while l < body.locals.len()
        invariant
            l <= body.locals@.len(),
            n == body.locals@.len(),
            stmts == all_statements(body.blocks@),
            writes@.len() == n,
            refs@.len() == n,
            forall|k: int| 0 <= k < n ==> #[trigger] writes@[k] == capped(write_count(stmts, k)),
            forall|k: int| 0 <= k < n ==> #[trigger] refs@[k] == ref_assigned(stmts, k),
            ginfos0.len() <= usize::MAX,
            linfos0.len() <= usize::MAX,
            ginfos0 == old(gacx).infos(),
            linfos0 == old(acx).infos(),
            gacx.others() == old(gacx).others(),
            acx.others() == old(acx).others(),
            acx.local_tys@ == old(acx).local_tys@,
            acx.local_tys@.len() == n,
            gacx.infos().len() == ginfos0.len(),
            acx.infos().len() == linfos0.len(),
            forall|l: int|
                0 <= l < n ==> {
                    &&& (#[trigger] acx.local_tys@[l])@.len() > 0
                    &&& lty_fits(acx.local_tys@[l]@, ginfos0.len(), linfos0.len())
                },
            forall|i: int|
                0 <= i < ginfos0.len() ==> #[trigger] gacx.infos()[i] == marked_before(
                    *body,
                    acx.local_tys@,
                    l as int,
                    PointerId::Global(i as usize),
                    ginfos0[i],
                ),
            forall|i: int|
                0 <= i < linfos0.len() ==> #[trigger] acx.infos()[i] == marked_before(
                    *body,
                    acx.local_tys@,
                    l as int,
                    PointerId::Local(i as usize),
                    linfos0[i],
                ),
        decreases body.locals@.len() - l,
    {
        let is_temp_ref = matches!(body.locals[l].kind, LocalKind::Temp) && writes[l] == 1
            && refs[l];
        assert(is_temp_ref == is_temporary_ref(*body, l as int));
        let ghost gi = gacx.infos();
        let ghost li = acx.infos();
        let ghost tys = acx.local_tys@;
        let ptr = acx.local_tys[l].nodes[0].label;
        assert(lty_fits(acx.local_tys@[l as int]@, ginfos0.len(), linfos0.len()));
        if !is_temp_ref {
            match ptr {
                PointerId::Global(i) => {
                    let mut info = gacx.ptr_info.values[i];
                    info.insert(PointerInfo::NOT_TEMPORARY_REF);
                    gacx.ptr_info.values.set(i, info);
                },
                PointerId::Local(i) => {
                    let mut info = acx.ptr_info.values[i];
                    info.insert(PointerInfo::NOT_TEMPORARY_REF);
                    acx.ptr_info.values.set(i, info);
                },
                PointerId::Absent => {},
            }
        }
        proof {
            assert(acx.others() == old(acx).others());
            assert forall|i: int| 0 <= i < ginfos0.len() implies #[trigger] gacx.infos()[i]
                == marked_before(
                *body,
                tys,
                l + 1,
                PointerId::Global(i as usize),
                ginfos0[i],
            ) by {
                assert(gi[i] == marked_before(
                    *body,
                    tys,
                    l as int,
                    PointerId::Global(i as usize),
                    ginfos0[i],
                ));
                lemma_marked_step(
                    *body,
                    tys,
                    l as int,
                    PointerId::Global(i as usize),
                    ginfos0[i],
                );
            }
            assert forall|i: int| 0 <= i < linfos0.len() implies #[trigger] acx.infos()[i]
                == marked_before(
                *body,
                tys,
                l + 1,
                PointerId::Local(i as usize),
                linfos0[i],
            ) by {
                assert(li[i] == marked_before(
                    *body,
                    tys,
                    l as int,
                    PointerId::Local(i as usize),
                    linfos0[i],
                ));
                lemma_marked_step(*body, tys, l as int, PointerId::Local(i as usize), linfos0[i]);
            }
        }
        l += 1;
    }
    assert(gacx.infos() =~= Seq::new(
        ginfos0.len(),
        |i: int| lasting_info(*body, *old(acx), PointerId::Global(i as usize), ginfos0[i]),
    ));
    assert(acx.infos() =~= Seq::new(
        linfos0.len(),
        |i: int| lasting_info(*body, *old(acx), PointerId::Local(i as usize), linfos0[i]),
    ));
}

spec fn lasts_before(
    body: Body,
    tys: Seq<LTy>,
    n: int,
    ptr: PointerId,
) -> bool {
    exists|l: int|
        0 <= l < n && pointer_of((#[trigger] tys[l])@) == Some(ptr) && !is_temporary_ref(body, l)
}

spec fn marked_before(
    body: Body,
    tys: Seq<LTy>,
    n: int,
    ptr: PointerId,
    info: PointerInfo,
) -> PointerInfo {
    if lasts_before(body, tys, n, ptr) {
        info.with(PointerInfo::NOT_TEMPORARY_REF)
    } else {
        info
    }
}

proof fn lemma_marked_step(
    body: Body,
    tys: Seq<LTy>,
    n: int,
    ptr: PointerId,
    info: PointerInfo,
)
    requires
        0 <= n < tys.len(),
    ensures
        marked_before(body, tys, n + 1, ptr, info) == if pointer_of(tys[n]@) == Some(ptr)
            && !is_temporary_ref(body, n) {
            marked_before(body, tys, n, ptr, info).with(PointerInfo::NOT_TEMPORARY_REF)
        } else {
            marked_before(body, tys, n, ptr, info)
        },
{
    law_info_with(info, PointerInfo::NOT_TEMPORARY_REF, 0);
    if lasts_before(body, tys, n, ptr) {
        let l = choose|l: int|
            0 <= l < n && pointer_of((#[trigger] tys[l])@) == Some(ptr) && !is_temporary_ref(
                body,
                l,
            );
        assert(pointer_of(tys[l]@) == Some(ptr));
    }
}

/// Counts the writes to each local, and notes which locals are assigned a reference or an address.
fn scan_statements(body: &Body, writes: &mut Vec<u8>, refs: &mut Vec<bool>)
    requires
        body.wf(),
        old(writes)@.len() == body.locals@.len(),
        old(refs)@.len() == body.locals@.len(),
        forall|k: int| 0 <= k < body.locals@.len() ==> old(writes)@[k] == 0,
        forall|k: int| 0 <= k < body.locals@.len() ==> old(refs)@[k] == false,
    ensures
        final(writes)@.len() == body.locals@.len(),
        final(refs)@.len() == body.locals@.len(),
        forall|k: int|
            0 <= k < body.locals@.len() ==> #[trigger] final(writes)@[k] == capped(
                write_count(all_statements(body.blocks@), k),
            ),
        forall|k: int|
            0 <= k < body.locals@.len() ==> #[trigger] final(refs)@[k] == ref_assigned(
                all_statements(body.blocks@),
                k,
            ),
{
    let ghost n = body.locals@.len();
    let mut b: usize = 0;
    while b < body.blocks.len()
        invariant
            b <= body.blocks@.len(),
            body.wf(),
            n == body.locals@.len(),
            scanned(all_statements(body.blocks@.take(b as int)), n, writes@, refs@),
        decreases body.blocks@.len() - b,
    {
        let ghost done = all_statements(body.blocks@.take(b as int));
        let stmts = &body.blocks[b];
        let mut i: usize = 0;
        assert(done + in_block(stmts@, b as int, 0) =~= done);
        while i < stmts.len()
            invariant
                b < body.blocks@.len(),
                body.wf(),
                n == body.locals@.len(),
                *stmts == body.blocks@[b as int],
                i <= stmts@.len(),
                scanned(done + in_block(stmts@, b as int, i as int), n, writes@, refs@),
            decreases stmts@.len() - i,
        {
            let ghost part = done + in_block(stmts@, b as int, i as int);
            let ghost next = done + in_block(stmts@, b as int, i + 1);
            let ghost w0 = writes@;
            let ghost r0 = refs@;
            proof {
                assert(next.drop_last() =~= part);
                assert(next.last().1 == stmts@[i as int]);
                assert(statement_wf(body.blocks@[b as int]@[i as int], n));
            }
            match &stmts[i] {
                Statement::Assign { place, rvalue } => {
                    if !place.is_indirect {
                        count_one(writes, place.local);
                    }
                    let borrowed = match rvalue {
                        Rvalue::Ref { place, ty: _ } => Some(*place),
                        Rvalue::AddressOf { place, ty: _ } => Some(*place),
                        _ => None,
                    };
                    if let Some(ref_place) = borrowed {
                        // Taking the address of a local counts as a write. The temporaries that
                        // are looked for here are not borrowed themselves.
                        if !ref_place.is_indirect {
                            count_one(writes, ref_place.local);
                        }
                        refs.set(place.local, true);
                    }
                },
                Statement::Call { dest } => {
                    if !dest.is_indirect {
                        count_one(writes, dest.local);
                    }
                },
                Statement::Other => {},
            }
            proof {
                let stmt = stmts@[i as int];
                assert forall|k: int| 0 <= k < n implies #[trigger] refs@[k] == ref_assigned(
                    next,
                    k,
                ) by {
                    assert(r0[k] == ref_assigned(part, k));
                    if ref_assigned(part, k) {
                        let j = choose|j: int|
                            0 <= j < part.len() && assigns_ref((#[trigger] part[j]).1, k);
                        assert(next[j] == part[j]);
                    }
                    if ref_assigned(next, k) {
                        let j = choose|j: int|
                            0 <= j < next.len() && assigns_ref((#[trigger] next[j]).1, k);
                        if j < part.len() {
                            assert(part[j] == next[j]);
                        }
                    }
                    assert(next[next.len() - 1].1 == stmt);
                }
                assert forall|k: int| 0 <= k < n implies #[trigger] writes@[k] == capped(
                    write_count(next, k),
                ) by {
                    assert(w0[k] == capped(write_count(part, k)));
                }
            }
            i += 1;
        }
        assert(body.blocks@.take(b + 1).drop_last() =~= body.blocks@.take(b as int));
        b += 1;
    }
    assert(body.blocks@.take(b as int) =~= body.blocks@);
}

spec fn scanned(
    stmts: Seq<(Location, Statement)>,
    n: nat,
    writes: Seq<u8>,
    refs: Seq<bool>,
) -> bool {
    &&& writes.len() == n
    &&& refs.len() == n
    &&& forall|k: int| 0 <= k < n ==> #[trigger] writes[k] == capped(write_count(stmts, k))
    &&& forall|k: int| 0 <= k < n ==> #[trigger] refs[k] == ref_assigned(stmts, k)
}

/// The writes to a local in a list of statements are those in a first part and those in a second,
/// and so is a reference that is assigned to it.
pub proof fn law_writes_add_up(
    a: Seq<(Location, Statement)>,
    b: Seq<(Location, Statement)>,
    loc: Location,
    stmt: Statement,
    l: int,
)
    ensures
        write_count(a + b, l) == write_count(a, l) + write_count(b, l),
        write_count(seq![(loc, stmt)], l) == writes_in(stmt, l),
        write_count(Seq::empty(), l) == 0,
        ref_assigned(a + b, l) <==> ref_assigned(a, l) || ref_assigned(b, l),
        ref_assigned(seq![(loc, stmt)], l) <==> assigns_ref(stmt, l),
        !ref_assigned(Seq::empty(), l),
    decreases b.len(),
{
    reveal_with_fuel(write_count, 2);
    let one = seq![(loc, stmt)];
    assert(one.drop_last() =~= Seq::<(Location, Statement)>::empty());
    assert(one[0].1 == stmt);
    if ref_assigned(a, l) {
        let k = choose|k: int| 0 <= k < a.len() && assigns_ref((#[trigger] a[k]).1, l);
        assert((a + b)[k] == a[k]);
    }
    if ref_assigned(b, l) {
        let k = choose|k: int| 0 <= k < b.len() && assigns_ref((#[trigger] b[k]).1, l);
        assert((a + b)[a.len() + k] == b[k]);
    }
    if ref_assigned(a + b, l) {
        let k = choose|k: int| 0 <= k < (a + b).len() && assigns_ref((#[trigger] (a + b)[k]).1, l);
        if k < a.len() {
            assert(a[k] == (a + b)[k]);
        } else {
            assert(b[k - a.len()] == (a + b)[k]);
        }
    }
    if b.len() == 0 {
        assert(a + b =~= a);
    } else {
        assert((a + b).drop_last() =~= a + b.drop_last());
        assert((a + b).last() == b.last());
        law_writes_add_up(a, b.drop_last(), loc, stmt, l);
    }
}

/// A statement writes a local if it assigns to it or to a part of it, if it writes the result of a
/// call there, or if it takes a reference to or the address of the local or a part of it. What is
/// reached through a pointer does not count.
pub proof fn law_single_writes(place: Place, from: Place, ty: Ty, rvalue: Rvalue, l: int)
    ensures
        ({
            let there: nat = if place.local == l && !place.is_indirect {
                1
            } else {
                0
            };
            let borrowed: nat = if from.local == l && !from.is_indirect {
                1
            } else {
                0
            };
            &&& writes_in(Statement::Call { dest: place }, l) == there
            &&& writes_in(Statement::Other, l) == 0
            &&& writes_in(Statement::Assign { place, rvalue: Rvalue::Ref { place: from, ty } }, l)
                == there + borrowed
            &&& writes_in(
                Statement::Assign { place, rvalue: Rvalue::AddressOf { place: from, ty } },
                l,
            ) == there + borrowed
            &&& !(rvalue is Ref) && !(rvalue is AddressOf) ==> writes_in(
                Statement::Assign { place, rvalue },
                l,
            ) == there
        }),
{
}

/// A reference is assigned to a local by an assignment to a place in it, of a reference or an
/// address, and by nothing else.
pub proof fn law_assigned_references(place: Place, rvalue: Rvalue, l: int)
    ensures
        assigns_ref(Statement::Assign { place, rvalue }, l) <==> place.local == l && (rvalue is Ref
            || rvalue is AddressOf),
        !assigns_ref(Statement::Call { dest: place }, l),
        !assigns_ref(Statement::Other, l),
{
}

/// A local is a temporary reference exactly if it is a temporary that is written once, by an
/// assignment of a reference or an address.
pub proof fn law_temporary_references(body: Body, l: int)
    ensures
        ({
            let stmts = all_statements(body.blocks@);
            is_temporary_ref(body, l) <==> body.locals@[l].kind == LocalKind::Temp && write_count(
                stmts,
                l,
            ) == 1 && exists|k: int|
                0 <= k < stmts.len() && assigns_ref((#[trigger] stmts[k]).1, l)
        }),
{
}

/// A pointer is known to last exactly if it is the pointer that some local is, and that local is no
/// temporary reference. Then this one fact is added; all else that is known stays.
pub proof fn law_lasting_pointers(
    body: Body,
    acx: AnalysisCtxtData,
    ptr: PointerId,
    info: PointerInfo,
    l: int,
)
    ensures
        0 <= l < body.locals@.len() && acx.local_tys@[l]@[0].label == ptr && ptr
            != PointerId::Absent && !is_temporary_ref(body, l) ==> is_lasting(body, acx, ptr),
        is_lasting(body, acx, ptr) ==> ptr != PointerId::Absent && exists|m: int|
            0 <= m < body.locals@.len() && (#[trigger] acx.local_tys@[m])@[0].label == ptr
                && !is_temporary_ref(body, m),
        is_lasting(body, acx, ptr) ==> lasting_info(body, acx, ptr, info).bits
            & PointerInfo::NOT_TEMPORARY_REF == PointerInfo::NOT_TEMPORARY_REF,
        lasting_info(body, acx, ptr, info).bits & !PointerInfo::NOT_TEMPORARY_REF == info.bits
            & !PointerInfo::NOT_TEMPORARY_REF,
        !is_lasting(body, acx, ptr) ==> lasting_info(body, acx, ptr, info) == info,
{
    law_info_masks(info, PointerInfo::NOT_TEMPORARY_REF);
    if 0 <= l < body.locals@.len() && acx.local_tys@[l]@[0].label == ptr && ptr
        != PointerId::Absent && !is_temporary_ref(body, l) {
        assert(pointer_of(acx.local_tys@[l]@) == Some(ptr));
    }
    if is_lasting(body, acx, ptr) {
        let m = choose|m: int|
            0 <= m < body.locals@.len() && pointer_of((#[trigger] acx.local_tys@[m])@) == Some(ptr)
                && !is_temporary_ref(body, m);
        assert(acx.local_tys@[m]@[0].label == ptr);
    }
}

} // verus!
