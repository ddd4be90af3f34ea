//! What is reported at the end of an analysis.
use crate::assignment::GlobalAssignment;
use crate::context::{lty_fits, GlobalAnalysisCtxt, PanicDetail};
use crate::def_id::{lemma_next_key, DefId, DefMap, LocalDefId};
use crate::flags::{FlagSet, PermissionSet};
use crate::pointer_id::{
    has_value, is_label, lookup, value_of, GlobalPointerTable, LocalPointerTable, PointerId,
};
use crate::relabel::{relabel, relabeled};
use crate::text::{decimal, push_decimal};
use crate::ty::{pointer_of, LTy, LabeledTy};
use vstd::prelude::*;

verus! {

/// A change to the source: a description of the place, the new text, and the change itself.
pub struct Rewrite<W> {
    pub place: String,
    pub text: String,
    pub edit: W,
}

/// The line that reports a rewrite.
pub open spec fn rewrite_line<W>(indent: Seq<char>, rw: Rewrite<W>) -> Seq<char> {
    indent + rw.place@ + ": "@ + rw.text@ + "\n"@
}

/// The lines that report the rewrites.
pub open spec fn rewrite_lines<W>(indent: Seq<char>, rws: Seq<Rewrite<W>>) -> Seq<char>
    decreases rws.len(),
{
    if rws.len() == 0 {
        Seq::empty()
    } else {
        rewrite_lines(indent, rws.drop_last()) + rewrite_line(indent, rws.last())
    }
}

/// Appends a line for each rewrite.
fn push_rewrites<W>(out: &mut String, indent: &str, rws: &Vec<Rewrite<W>>)
    ensures
        final(out)@ == old(out)@ + rewrite_lines(indent@, rws@),
{
    let ghost before = out@;
    let mut i: usize = 0;
    assert(before + rewrite_lines(indent@, rws@.take(0)) =~= before);
    while i < rws.len()
        invariant
            i <= rws@.len(),
            out@ == before + rewrite_lines(indent@, rws@.take(i as int)),
        decreases rws@.len() - i,
    {
        let ghost now = out@;
        out.append(indent);
        out.append(rws[i].place.as_str());
        out.append(": ");
        out.append(rws[i].text.as_str());
        out.append("\n");
        i += 1;
        proof {
            assert(rws@.take(i as int).drop_last() =~= rws@.take(i - 1));
            assert(out@ =~= now + rewrite_line(indent@, rws@[i - 1]));
            assert(out@ =~= before + rewrite_lines(indent@, rws@.take(i as int)));
        }
    }
    assert(rws@.take(i as int) =~= rws@);
}

/// The report on the rewrites of a function: how many there are, and a line for each.
pub open spec fn fn_report<W>(
    exprs: Seq<Rewrite<W>>,
    tys: Seq<Rewrite<W>>,
    name: Seq<char>,
) -> Seq<char> {
    "generated "@ + decimal(exprs.len()) + " expr rewrites + "@ + decimal(tys.len())
        + " ty rewrites for "@ + name + ":\n"@ + rewrite_lines("  "@, exprs) + rewrite_lines(
        "  "@,
        tys,
    ) + "\n"@
}

/// Reports the rewrites of the function with the (quoted) name `name`.
pub fn report_fn<W>(exprs: &Vec<Rewrite<W>>, tys: &Vec<Rewrite<W>>, name: &str) -> (r: String)
    ensures
        r@ == fn_report(exprs@, tys@, name@),
{
    let mut out = String::new();
    out.append("generated ");
    push_decimal(&mut out, exprs.len() as u64);
    out.append(" expr rewrites + ");
    push_decimal(&mut out, tys.len() as u64);
    out.append(" ty rewrites for ");
    out.append(name);
    out.append(":\n");
    push_rewrites(&mut out, "  ", exprs);
    push_rewrites(&mut out, "  ", tys);
    out.append("\n");
    assert(out@ =~= fn_report(exprs@, tys@, name@));
    out
}

/// The report on the rewrites of statics.
pub open spec fn static_report<W>(rws: Seq<Rewrite<W>>) -> Seq<char> {
    "generated "@ + decimal(rws.len()) + " static rewrites:\n"@ + rewrite_lines("    "@, rws)
}

/// Reports the rewrites of statics.
pub fn report_statics<W>(rws: &Vec<Rewrite<W>>) -> (r: String)
    ensures
        r@ == static_report(rws@),
{
    let mut out = String::new();
    out.append("generated ");
    push_decimal(&mut out, rws.len() as u64);
    out.append(" static rewrites:\n");
    push_rewrites(&mut out, "    ", rws);
    assert(out@ =~= static_report(rws@));
    out
}

/// The report on the rewrites of a struct, enum or union.
pub open spec fn adt_report<W>(rws: Seq<Rewrite<W>>, name: Seq<char>) -> Seq<char> {
    "generated "@ + decimal(rws.len()) + " ADT rewrites for "@ + name + ":\n"@ + rewrite_lines(
        "    "@,
        rws,
    )
}

/// Reports the rewrites of the struct, enum or union that is printed as `name`.
pub fn report_adt<W>(rws: &Vec<Rewrite<W>>, name: &str) -> (r: String)
    ensures
        r@ == adt_report(rws@, name@),
{
    let mut out = String::new();
    out.append("generated ");
    push_decimal(&mut out, rws.len() as u64);
    out.append(" ADT rewrites for ");
    out.append(name);
    out.append(":\n");
    push_rewrites(&mut out, "    ", rws);
    assert(out@ =~= adt_report(rws@, name@));
    out
}

/// The permissions and flags of a variable: those of the pointer to it, and those of the pointers
/// of its type.
pub struct VarLabeling {
    pub addr_of_perms: PermissionSet,
    pub ty_perms: LabeledTy<PermissionSet>,
    pub addr_of_flags: FlagSet,
    pub ty_flags: LabeledTy<FlagSet>,
}

/// What is printed of a variable with the address `addr_of_ptr` and the type `lty`.
pub fn labeling_for_var(
    addr_of_ptr: PointerId,
    lty: &LTy,
    global_perms: &GlobalPointerTable<PermissionSet>,
    local_perms: &LocalPointerTable<PermissionSet>,
    global_flags: &GlobalPointerTable<FlagSet>,
    local_flags: &LocalPointerTable<FlagSet>,
) -> (r: VarLabeling)
    requires
        has_value(global_perms@.len(), local_perms@.len(), addr_of_ptr),
        lty_fits(lty@, global_perms@.len(), local_perms@.len()),
        global_flags@.len() == global_perms@.len(),
        local_flags@.len() == local_perms@.len(),
    ensures
        r.addr_of_perms == value_of(global_perms@, local_perms@, addr_of_ptr),
        r.addr_of_flags == value_of(global_flags@, local_flags@, addr_of_ptr),
        r.ty_perms@ == relabeled(
            lty@,
            global_perms@,
            local_perms@,
            (PermissionSet { bits: 0 }),
        ),
        r.ty_flags@ == relabeled(lty@, global_flags@, local_flags@, (FlagSet { bits: 0 })),
{
    VarLabeling {
        addr_of_perms: lookup(global_perms, local_perms, addr_of_ptr),
        ty_perms: relabel(lty, global_perms, local_perms, PermissionSet::empty()),
        addr_of_flags: lookup(global_flags, local_flags, addr_of_ptr),
        ty_flags: relabel(lty, global_flags, local_flags, FlagSet::empty()),
    }
}

/// Whether each definition comes strictly before the next ones.
pub open spec fn is_sorted(dids: Seq<DefId>) -> bool {
    forall|i: int, j: int|
        0 <= i < j < dids.len() ==> (#[trigger] dids[i]).precedes(#[trigger] dids[j])
}

/// There is only one way to sort a set of definitions.
pub proof fn law_sorted_is_unique(a: Seq<DefId>, b: Seq<DefId>)
    requires
        is_sorted(a),
        is_sorted(b),
        a.to_set() == b.to_set(),
    ensures
        a == b,
    decreases a.len(),
{
    if a.len() == 0 {
        if b.len() > 0 {
            assert(b.to_set().contains(b[0]));
            assert(a.contains(b[0]));
        }
        assert(a =~= b);
    } else {
        assert(a.to_set().contains(a.last()));
        assert(b.contains(a.last()));
        assert(b.to_set().contains(b.last()));
        assert(a.contains(b.last()));
        let i = choose|i: int| 0 <= i < b.len() && b[i] == a.last();
        let j = choose|j: int| 0 <= j < a.len() && a[j] == b.last();
        assert(a.last() == b.last()) by {
            if i < b.len() - 1 && j < a.len() - 1 {
                assert(b[i].precedes(b[b.len() - 1]));
                assert(a[j].precedes(a[a.len() - 1]));
            }
        }
        lemma_all_but_last(a);
        lemma_all_but_last(b);
        law_sorted_is_unique(a.drop_last(), b.drop_last());
        assert(a =~= a.drop_last().push(a.last()));
        assert(b =~= b.drop_last().push(b.last()));
    }
}

proof fn lemma_all_but_last(a: Seq<DefId>)
    requires
        is_sorted(a),
        a.len() > 0,
    ensures
        is_sorted(a.drop_last()),
        a.drop_last().to_set() == a.to_set().remove(a.last()),
{
    let rest = a.drop_last();
    assert forall|i: int, j: int| 0 <= i < j < rest.len() implies (#[trigger] rest[i]).precedes(
        #[trigger] rest[j],
    ) by {
        assert(a[i].precedes(a[j]));
    }
    assert forall|d: DefId| rest.contains(d) <==> a.contains(d) && d != a.last() by {
        if rest.contains(d) {
            let i = choose|i: int| 0 <= i < rest.len() && rest[i] == d;
            assert(a[i] == d);
            assert(a[i].precedes(a[a.len() - 1]));
        }
        if a.contains(d) && d != a.last() {
            let i = choose|i: int| 0 <= i < a.len() && a[i] == d;
            assert(rest[i] == d);
        }
    }
    assert(rest.to_set() =~= a.to_set().remove(a.last()));
}

/// Adds `did` where it belongs.
fn insert_sorted(dids: &mut Vec<DefId>, did: DefId)
    requires
        is_sorted(old(dids)@),
        !old(dids)@.contains(did),
    ensures
        is_sorted(final(dids)@),
        final(dids)@.to_set() == old(dids)@.to_set().insert(did),
{
    let ghost before = dids@;
    let mut i: usize = 0;
    while i < dids.len() && dids[i].is_before(did)
        invariant
            i <= dids@.len(),
            dids@ == before,
            forall|k: int| 0 <= k < i ==> (#[trigger] before[k]).precedes(did),
        decreases dids@.len() - i,
    {
        i += 1;
    }
    dids.insert(i, did);
    proof {
        let after = dids@;
        assert(after =~= before.insert(i as int, did));
        assert forall|j: int| i <= j < before.len() implies did.precedes(#[trigger] before[j]) by {
            assert(before.contains(before[j]));
            assert(before.contains(before[i as int]));
        }
        assert forall|a: int, b: int| 0 <= a < b < after.len() implies (
        #[trigger] after[a]).precedes(#[trigger] after[b]) by {
            if b < i {
                assert(after[a] == before[a] && after[b] == before[b]);
            } else if b == i {
                assert(after[a] == before[a]);
            } else if a < i {
                assert(after[a] == before[a] && after[b] == before[b - 1]);
            } else if a == i {
                assert(after[b] == before[b - 1]);
            } else {
                assert(after[a] == before[a - 1] && after[b] == before[b - 1]);
            }
        }
        assert forall|d: DefId| after.contains(d) <==> before.contains(d) || d == did by {
            if before.contains(d) {
                let k = choose|k: int| 0 <= k < before.len() && before[k] == d;
                if k < i {
                    assert(after[k] == d);
                } else {
                    assert(after[k + 1] == d);
                }
            }
            if after.contains(d) {
                let k = choose|k: int| 0 <= k < after.len() && after[k] == d;
                if k < i {
                    assert(before[k] == d);
                } else if k > i {
                    assert(before[k - 1] == d);
                }
            }
            assert(after[i as int] == did);
        }
        assert(after.to_set() =~= before.to_set().insert(did));
    }
}

/// The keys of a map in order.
pub fn sorted_keys<V>(map: &DefMap<V>) -> (r: Vec<DefId>)
    ensures
        is_sorted(r@),
        r@.to_set() == map@.dom(),
{
    let n = map.len();
    let ghost keys = map.keys();
    let mut dids: Vec<DefId> = Vec::new();
    let mut i: usize = 0;
    assert(dids@.to_set() =~= keys.take(0).to_set());
    while i < n
        invariant
            i <= n,
            n == keys.len(),
            keys == map.keys(),
            keys.no_duplicates(),
            is_sorted(dids@),
            dids@.to_set() == keys.take(i as int).to_set(),
        decreases n - i,
    {
        let did = map.entry(i).0;
        proof {
            let seen = keys.take(i as int);
            let now = keys.take(i + 1);
            lemma_next_key(keys, i as int);
            if dids@.contains(did) {
                assert(dids@.to_set().contains(did));
                assert(seen.contains(did));
            }
            assert(now.to_set() =~= seen.to_set().insert(did));
        }
        insert_sorted(&mut dids, did);
        i += 1;
    }
    proof {
        assert(keys.take(n as int) =~= keys);
        assert(keys.to_set() =~= map@.dom());
    }
    dids
}

/// What is printed of a field that is a pointer.
pub struct FieldLabeling {
    pub did: DefId,
    pub ptr: PointerId,
    pub perms: PermissionSet,
    pub flags: FlagSet,
}

/// What is printed of the fields `dids`, as far as they are pointers.
pub open spec fn field_labelings(
    tys: Map<DefId, LTy>,
    gasn: GlobalAssignment,
    dids: Seq<DefId>,
) -> Seq<FieldLabeling>
    decreases dids.len(),
{
    if dids.len() == 0 {
        Seq::empty()
    } else {
        let did = dids.last();
        let earlier = field_labelings(tys, gasn, dids.drop_last());
        match pointer_of(tys[did]@) {
            None => earlier,
            Some(ptr) => earlier.push(
                FieldLabeling {
                    did,
                    ptr,
                    perms: gasn.perms@[ptr->Global_0 as int],
                    flags: gasn.flags@[ptr->Global_0 as int],
                },
            ),
        }
    }
}

/// What is printed of the fields: the permissions and flags of those that are pointers, in the
/// order of the fields.
pub fn labeling_for_fields(gacx: &GlobalAnalysisCtxt, gasn: &GlobalAssignment) -> (r: Vec<
    FieldLabeling,
>)
    requires
        gacx.wf(),
        gasn.wf(gacx.ptr_info@.len()),
        forall|d: DefId| #[trigger]
            gacx.field_ltys@.contains_key(d) ==> gacx.field_ltys@[d]@.len() > 0,
    ensures
        exists|dids: Seq<DefId>|
            is_sorted(dids) && dids.to_set() == gacx.field_ltys@.dom() && r@
                == #[trigger] field_labelings(gacx.field_ltys@, *gasn, dids),
{
    let dids = sorted_keys(&gacx.field_ltys);
    let ghost tys = gacx.field_ltys@;
    let mut lines: Vec<FieldLabeling> = Vec::new();
    let mut i: usize = 0;
    while i < dids.len()
        invariant
            i <= dids@.len(),
            tys == gacx.field_ltys@,
            dids@.to_set() == tys.dom(),
            gacx.wf(),
            gasn.wf(gacx.ptr_info@.len()),
            forall|d: DefId| #[trigger] tys.contains_key(d) ==> tys[d]@.len() > 0,
            lines@ == field_labelings(tys, *gasn, dids@.take(i as int)),
        decreases dids@.len() - i,
    {
        let did = dids[i];
        proof {
            assert(dids@.to_set().contains(did));
            assert(dids@.take(i + 1).drop_last() =~= dids@.take(i as int));
        }
        if let Some(lty) = gacx.field_ltys.get(did) {
            assert(is_label(gacx.ptr_info@.len(), 0, lty@[0].label));
            let ptr = lty.nodes[0].label;
            if let PointerId::Global(p) = ptr {
                lines.push(
                    FieldLabeling {
                        did,
                        ptr,
                        perms: gasn.perms.values[p],
                        flags: gasn.flags.values[p],
                    },
                );
            }
        }
        i += 1;
    }
    proof {
        assert(dids@.take(i as int) =~= dids@);
    }
    lines
}

/// The functions among `owners` whose analysis was given up, in order. With `backtraces` set, only
/// those that left a backtrace.
pub open spec fn failures(
    failed: Map<DefId, PanicDetail>,
    owners: Seq<LocalDefId>,
    backtraces: bool,
) -> Seq<LocalDefId>
    decreases owners.len(),
{
    if owners.len() == 0 {
        Seq::empty()
    } else {
        let ldid = owners.last();
        let earlier = failures(failed, owners.drop_last(), backtraces);
        if failed.contains_key(ldid.def_id()) && (backtraces
            ==> failed[ldid.def_id()].has_backtrace) {
            earlier.push(ldid)
        } else {
            earlier
        }
    }
}

/// Picks the functions whose analysis was given up.
fn failed_owners(gacx: &GlobalAnalysisCtxt, owners: &Vec<LocalDefId>, backtraces: bool) -> (r: Vec<
    LocalDefId,
>)
    ensures
        r@ == failures(gacx.fns_failed@, owners@, backtraces),
{
    let mut found: Vec<LocalDefId> = Vec::new();
    let mut i: usize = 0;
    while i < owners.len()
        invariant
            i <= owners@.len(),
            found@ == failures(gacx.fns_failed@, owners@.take(i as int), backtraces),
        decreases owners@.len() - i,
    {
        assert(owners@.take(i + 1).drop_last() =~= owners@.take(i as int));
        let ldid = owners[i];
        if let Some(detail) = gacx.fns_failed.get(ldid.to_def_id()) {
            if !backtraces || detail.has_backtrace {
                found.push(ldid);
            }
        }
        i += 1;
    }
    assert(owners@.take(i as int) =~= owners@);
    found
}

/// The functions whose failures are reported in detail.
pub fn error_details(gacx: &GlobalAnalysisCtxt, owners: &Vec<LocalDefId>) -> (r: Vec<LocalDefId>)
    ensures
        r@ == failures(gacx.fns_failed@, owners@, true),
{
    failed_owners(gacx, owners, true)
}

/// The functions whose failures are summed up.
pub fn error_summary(gacx: &GlobalAnalysisCtxt, owners: &Vec<LocalDefId>) -> (r: Vec<LocalDefId>)
    ensures
        r@ == failures(gacx.fns_failed@, owners@, false),
{
    failed_owners(gacx, owners, false)
}

/// The last lines of a run.
pub open spec fn closing_text(failed: nat, all: nat, known_fns: nat) -> Seq<char> {
    let errors = "\nsaw errors in "@ + decimal(failed) + " / "@ + decimal(all) + " functions\n"@;
    if known_fns > 0 {
        errors + "saw permission errors in "@ + decimal(known_fns) + " known fns\n"@
    } else {
        errors
    }
}

/// How many functions failed, and how many foreign functions lost the permissions that are known
/// of them.
pub fn closing(gacx: &GlobalAnalysisCtxt, fns: usize, known_fns: usize) -> (r: String)
    ensures
        r@ == closing_text(gacx.fns_failed@.dom().len(), fns as nat, known_fns as nat),
{
    let mut out = String::new();
    out.append("\nsaw errors in ");
    push_decimal(&mut out, gacx.fns_failed.len() as u64);
    out.append(" / ");
    push_decimal(&mut out, fns as u64);
    out.append(" functions\n");
    if known_fns > 0 {
        out.append("saw permission errors in ");
        push_decimal(&mut out, known_fns as u64);
        out.append(" known fns\n");
    }
    assert(out@ =~= closing_text(gacx.fns_failed@.dom().len(), fns as nat, known_fns as nat));
    out
}

/// The lines on rewrites are those on a first part and then those on a second. The line on a single
/// rewrite is its place, a colon and its text, indented.
pub proof fn law_rewrite_lines<W>(
    indent: Seq<char>,
    a: Seq<Rewrite<W>>,
    b: Seq<Rewrite<W>>,
    rw: Rewrite<W>,
)
    ensures
        rewrite_lines(indent, a + b) == rewrite_lines(indent, a) + rewrite_lines(indent, b),
        rewrite_lines(indent, seq![rw]) == indent + rw.place@ + ": "@ + rw.text@ + "\n"@,
        rewrite_lines(indent, Seq::<Rewrite<W>>::empty()).len() == 0,
    decreases b.len(),
{
    reveal_with_fuel(rewrite_lines, 2);
    let one = seq![rw];
    assert(one.drop_last() =~= Seq::<Rewrite<W>>::empty());
    assert(rewrite_lines(indent, one) =~= rewrite_line(indent, rw));
    if b.len() == 0 {
        assert(a + b =~= a);
        assert(rewrite_lines(indent, a) + rewrite_lines(indent, b) =~= rewrite_lines(indent, a));
    } else {
        assert((a + b).drop_last() =~= a + b.drop_last());
        law_rewrite_lines(indent, a, b.drop_last(), rw);
        assert(rewrite_lines(indent, a + b) =~= rewrite_lines(indent, a) + rewrite_lines(indent, b));
    }
}

/// What the reports say: how many rewrites there are of which kind and for what, and a line on each
/// of them.
pub proof fn law_report_texts<W>(
    exprs: Seq<Rewrite<W>>,
    tys: Seq<Rewrite<W>>,
    name: Seq<char>,
    failed: nat,
    all: nat,
    known: nat,
)
    ensures
        fn_report(exprs, tys, name) == "generated "@ + decimal(exprs.len()) + " expr rewrites + "@
            + decimal(tys.len()) + " ty rewrites for "@ + name + ":\n"@ + rewrite_lines(
            "  "@,
            exprs,
        ) + rewrite_lines("  "@, tys) + "\n"@,
        static_report(exprs) == "generated "@ + decimal(exprs.len()) + " static rewrites:\n"@
            + rewrite_lines("    "@, exprs),
        adt_report(exprs, name) == "generated "@ + decimal(exprs.len()) + " ADT rewrites for "@
            + name + ":\n"@ + rewrite_lines("    "@, exprs),
        closing_text(failed, all, 0) == "\nsaw errors in "@ + decimal(failed) + " / "@ + decimal(all)
            + " functions\n"@,
        known > 0 ==> closing_text(failed, all, known) == closing_text(failed, all, 0)
            + "saw permission errors in "@ + decimal(known) + " known fns\n"@,
{
}

/// The labelings of fields are those of a first part and then those of a second. A single field has
/// one exactly if it is a pointer, with the permissions and flags of that pointer.
pub proof fn law_field_labelings(
    tys: Map<DefId, LTy>,
    gasn: GlobalAssignment,
    a: Seq<DefId>,
    b: Seq<DefId>,
    d: DefId,
    p: usize,
)
    ensures
        field_labelings(tys, gasn, a + b) == field_labelings(tys, gasn, a) + field_labelings(
            tys,
            gasn,
            b,
        ),
        tys[d]@[0].label == PointerId::Global(p) ==> field_labelings(tys, gasn, seq![d]) == seq![
            FieldLabeling {
                did: d,
                ptr: PointerId::Global(p),
                perms: gasn.perms@[p as int],
                flags: gasn.flags@[p as int],
            },
        ],
        tys[d]@[0].label == PointerId::Absent ==> field_labelings(tys, gasn, seq![d]).len() == 0,
    decreases b.len(),
{
    reveal_with_fuel(field_labelings, 2);
    let one = seq![d];
    assert(one.drop_last() =~= Seq::<DefId>::empty());
    if tys[d]@[0].label == PointerId::Global(p) {
        assert(field_labelings(tys, gasn, one) =~= seq![
            FieldLabeling {
                did: d,
                ptr: PointerId::Global(p),
                perms: gasn.perms@[p as int],
                flags: gasn.flags@[p as int],
            },
        ]);
    }
    if b.len() == 0 {
        assert(a + b =~= a);
        assert(field_labelings(tys, gasn, a) + field_labelings(tys, gasn, b) =~= field_labelings(
            tys,
            gasn,
            a,
        ));
    } else {
        assert((a + b).drop_last() =~= a + b.drop_last());
        law_field_labelings(tys, gasn, a, b.drop_last(), d, p);
        assert(field_labelings(tys, gasn, a + b) =~= field_labelings(tys, gasn, a)
            + field_labelings(tys, gasn, b));
    }
}

/// The functions with errors are those of a first part and then those of a second. A single
/// function is among them exactly if it was given up; among those with backtraces, if the reason
/// has one.
pub proof fn law_functions_with_errors(
    failed: Map<DefId, PanicDetail>,
    a: Seq<LocalDefId>,
    b: Seq<LocalDefId>,
    l: LocalDefId,
    backtraces: bool,
)
    ensures
        failures(failed, a + b, backtraces) == failures(failed, a, backtraces) + failures(
            failed,
            b,
            backtraces,
        ),
        ({
            let did = DefId { krate: 0, index: l.index };
            &&& failures(failed, seq![l], false) == if failed.contains_key(did) {
                seq![l]
            } else {
                Seq::empty()
            }
            &&& failures(failed, seq![l], true) == if failed.contains_key(did)
                && failed[did].has_backtrace {
                seq![l]
            } else {
                Seq::empty()
            }
        }),
    decreases b.len(),
{
    reveal_with_fuel(failures, 2);
    let one = seq![l];
    assert(one.drop_last() =~= Seq::<LocalDefId>::empty());
    let did = l.def_id();
    if failed.contains_key(did) {
        assert(failures(failed, one, false) =~= one);
        if failed[did].has_backtrace {
            assert(failures(failed, one, true) =~= one);
        }
    }
    if b.len() == 0 {
        assert(a + b =~= a);
        assert(failures(failed, a, backtraces) + failures(failed, b, backtraces) =~= failures(
            failed,
            a,
            backtraces,
        ));
    } else {
        assert((a + b).drop_last() =~= a + b.drop_last());
        law_functions_with_errors(failed, a, b.drop_last(), l, backtraces);
        assert(failures(failed, a + b, backtraces) =~= failures(failed, a, backtraces) + failures(
            failed,
            b,
            backtraces,
        ));
    }
}

/// Definitions are sorted exactly if each comes before all that follow it.
pub proof fn law_sorted(dids: Seq<DefId>, i: int, j: int)
    requires
        is_sorted(dids),
        0 <= i < j < dids.len(),
    ensures
        dids[i].precedes(dids[j]),
{
}

} // verus!
