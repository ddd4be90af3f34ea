//! Whether what the compiler hands over fits together.
use crate::adts::{covers_fields, covers_type, occurs_in, Field, ForeignItem};
use crate::callgraph::{
    callees, for_each_callee, has_body_kind, is_body_fn, owner_ids, owners_wf, BodyOwner,
};
use crate::def_id::{DefIdSet, DefKind, DefMap, LocalDefId};
use crate::definitions::{all_static_items, statics_of, Definition};
use crate::function::body_rooted;
use crate::labeling::{sig_from, FnDecl, StaticDecl};
use crate::mir::{statement_wf, Body, Rvalue, Statement};
use crate::program::Program;
use crate::ty::{Ty, TyCtor};
use vstd::prelude::*;

verus! {

/// Whether the table has the fields of everything that occurs in the type.
fn is_covered(adts: &DefMap<Vec<Field>>, ty: &Ty) -> (r: bool)
    ensures
        r == covers_type(adts@, ty@),
{
    let mut k: usize = 0;
    while k < ty.nodes.len()
        invariant
            k <= ty@.len(),
            forall|j: int, d|
                0 <= j < k && #[trigger] ty@[j].ctor == TyCtor::Adt(d)
                    ==> #[trigger] adts@.contains_key(d),
        decreases ty@.len() - k,
    {
        if let TyCtor::Adt(d) = ty.nodes[k].ctor {
            if !adts.contains_key(d) {
                assert(ty@[k as int].ctor == TyCtor::Adt(d));
                assert(occurs_in(d, ty@));
                return false;
            }
        }
        k += 1;
    }
    assert forall|d| #[trigger] occurs_in(d, ty@) implies adts@.contains_key(d) by {
        let j = choose|j: int| 0 <= j < ty@.len() && #[trigger] ty@[j].ctor == TyCtor::Adt(d);
        assert(ty@[j].ctor == TyCtor::Adt(d));
    }
    true
}

/// Whether the table has the fields of everything that occurs in a field.
fn are_fields_covered(adts: &DefMap<Vec<Field>>) -> (r: bool)
    ensures
        r == covers_fields(adts@),
{
    let n = adts.len();
    let ghost keys = adts.keys();
    let mut i: usize = 0;
    while i < n
        invariant
            i <= n,
            n == keys.len(),
            keys == adts.keys(),
            forall|k: int, f: int|
                #![trigger adts@[keys[k]]@[f]]
                0 <= k < i && 0 <= f < adts@[keys[k]]@.len() ==> covers_type(
                    adts@,
                    adts@[keys[k]]@[f].walk_ty@,
                ),
        decreases n - i,
    {
        let (did, fields) = adts.entry(i);
        let mut f: usize = 0;
        while f < fields.len()
            invariant
                f <= fields@.len(),
                adts@.contains_key(did),
                adts@[did] == *fields,
                forall|k: int|
                    0 <= k < f ==> covers_type(adts@, (#[trigger] fields@[k]).walk_ty@),
            decreases fields@.len() - f,
        {
            if !is_covered(adts, &fields[f].walk_ty) {
                assert(!covers_type(adts@, adts@[did]@[f as int].walk_ty@));
                return false;
            }
            f += 1;
        }
        assert forall|k: int, f: int|
            #![trigger adts@[keys[k]]@[f]]
            0 <= k < i + 1 && 0 <= f < adts@[keys[k]]@.len() implies covers_type(
            adts@,
            adts@[keys[k]]@[f].walk_ty@,
        ) by {
            if k == i {
                assert(covers_type(adts@, fields@[f].walk_ty@));
            }
        }
        i += 1;
    }
    proof {
        assert forall|d, f: int|
            #![trigger adts@[d]@[f]]
            adts@.contains_key(d) && 0 <= f < adts@[d]@.len() implies covers_type(
            adts@,
            adts@[d]@[f].walk_ty@,
        ) by {
            assert(keys.contains(d));
            let k = choose|k: int| 0 <= k < keys.len() && keys[k] == d;
            assert(covers_type(adts@, adts@[keys[k]]@[f].walk_ty@));
        }
    }
    true
}

/// Whether the statement fits a body with `locals` locals.
fn is_statement_wf(stmt: &Statement, locals: usize) -> (r: bool)
    ensures
        r == statement_wf(*stmt, locals as nat),
{
    match stmt {
        Statement::Other => true,
        Statement::Call { dest } => dest.local < locals,
        Statement::Assign { place, rvalue } => place.local < locals && match rvalue {
            Rvalue::Ref { place, ty: _ } => place.local < locals,
            Rvalue::AddressOf { place, ty: _ } => place.local < locals,
            Rvalue::Array { elem_ty: _, array_ty } => array_ty.nodes.len() > 0,
            Rvalue::Constant { ty, text: _ } => ty.nodes.len() > 0,
            _ => true,
        },
    }
}

/// Whether the statements of a body fit its locals.
fn is_body_wf(body: &Body) -> (r: bool)
    ensures
        r == body.wf(),
{
    let n = body.locals.len();
    let mut b: usize = 0;
    while b < body.blocks.len()
        invariant
            b <= body.blocks@.len(),
            n == body.locals@.len(),
            forall|c: int, i: int|
                #![trigger body.blocks@[c]@[i]]
                0 <= c < b && 0 <= i < body.blocks@[c]@.len() ==> statement_wf(
                    body.blocks@[c]@[i],
                    n as nat,
                ),
        decreases body.blocks@.len() - b,
    {
        let block = &body.blocks[b];
        let mut i: usize = 0;
        while i < block.len()
            invariant
                i <= block@.len(),
                b < body.blocks@.len(),
                n == body.locals@.len(),
                *block == body.blocks@[b as int],
                forall|k: int| 0 <= k < i ==> statement_wf(#[trigger] block@[k], n as nat),
            decreases block@.len() - i,
        {
            if !is_statement_wf(&block[i], n) {
                assert(!statement_wf(body.blocks@[b as int]@[i as int], n as nat));
                return false;
            }
            i += 1;
        }
        b += 1;
    }
    true
}

/// Whether all types of the body and the declaration have roots.
fn is_rooted(body: &Body, decl: &FnDecl) -> (r: bool)
    ensures
        r == body_rooted(*body, sig_from(decl@.inputs, decl@.output, 0)),
{
    let ghost sig = sig_from(decl@.inputs, decl@.output, 0);
    if !is_body_wf(body) || decl.output.nodes.len() == 0 {
        return false;
    }
    let mut i: usize = 0;
    while i < decl.inputs.len()
        invariant
            i <= decl.inputs@.len(),
            sig == sig_from(decl@.inputs, decl@.output, 0),
            forall|k: int| 0 <= k < i ==> (#[trigger] sig.inputs[k]).len() > 0,
        decreases decl.inputs@.len() - i,
    {
        assert(decl@.inputs[i as int] == decl.inputs@[i as int]@);
        if decl.inputs[i].nodes.len() == 0 {
            assert(sig.inputs[i as int].len() == 0);
            return false;
        }
        assert(sig.inputs[i as int].len() > 0);
        i += 1;
    }
    let mut l: usize = 0;
    while l < body.locals.len()
        invariant
            l <= body.locals@.len(),
            forall|k: int| 0 <= k < l ==> (#[trigger] body.locals@[k]).ty.wf(),
        decreases body.locals@.len() - l,
    {
        if body.locals[l].ty.nodes.len() == 0 {
            assert(!body.locals@[l as int].ty.wf());
            return false;
        }
        l += 1;
    }
    true
}

/// Whether no function comes twice. The result is the set of functions, if none does.
fn distinct(order: &Vec<LocalDefId>) -> (r: Option<DefIdSet>)
    ensures
        match r {
            Some(set) => {
                &&& order@.no_duplicates()
                &&& forall|l: LocalDefId| #[trigger]
                    set@.contains(l.def_id()) <==> order@.contains(l)
                &&& forall|d| #[trigger]
                    set@.contains(d) ==> exists|l: LocalDefId| #[trigger] l.def_id() == d
            },
            None => !order@.no_duplicates(),
        },
{
    let mut set = DefIdSet::new();
    let mut i: usize = 0;
    while i < order.len()
        invariant
            i <= order@.len(),
            order@.take(i as int).no_duplicates(),
            forall|l: LocalDefId| #[trigger]
                set@.contains(l.def_id()) <==> order@.take(i as int).contains(l),
            forall|d| #[trigger]
                set@.contains(d) ==> exists|l: LocalDefId| #[trigger] l.def_id() == d,
        decreases order@.len() - i,
    {
        let ghost seen = order@.take(i as int);
        let ghost now = order@.take(i + 1);
        let l = order[i];
        assert(now =~= seen.push(l));
        if !set.insert(l.to_def_id()) {
            proof {
                assert(seen.contains(l));
                let j = choose|j: int| 0 <= j < seen.len() && seen[j] == l;
                assert(order@[j] == order@[i as int]);
            }
            return None;
        }
        proof {
            assert(!seen.contains(l));
            assert forall|m: LocalDefId| #[trigger] set@.contains(m.def_id()) <==> now.contains(
                m,
            ) by {
                if seen.contains(m) {
                    let j = choose|j: int| 0 <= j < seen.len() && seen[j] == m;
                    assert(now[j] == m);
                }
                assert(now[i as int] == l);
                if m.def_id() == l.def_id() {
                    assert(m == l);
                }
            }
        }
        i += 1;
    }
    assert(order@.take(i as int) =~= order@);
    Some(set)
}

/// Whether all of `ids` are in the set.
fn contains_all(set: &DefIdSet, ids: &Vec<LocalDefId>) -> (r: bool)
    ensures
        r == forall|k: int| 0 <= k < ids@.len() ==> set@.contains((#[trigger] ids@[k]).def_id()),
{
    let mut k: usize = 0;
    while k < ids.len()
        invariant
            k <= ids@.len(),
            forall|j: int| 0 <= j < k ==> set@.contains((#[trigger] ids@[j]).def_id()),
        decreases ids@.len() - k,
    {
        if !set.contains(ids[k].to_def_id()) {
            assert(!set@.contains(ids@[k as int].def_id()));
            return false;
        }
        k += 1;
    }
    true
}

/// Whether the bodies of a crate fit together: no two have the same owner, the owners are of the
/// kinds that may have a body, and whatever a function calls is a function with a body.
pub fn are_owners_wf(owners: &Vec<BodyOwner>) -> (r: bool)
    ensures
        r == owners_wf(owners@),
{
    let mut ids: Vec<LocalDefId> = Vec::new();
    let mut fns = DefIdSet::new();
    let mut i: usize = 0;
    while i < owners.len()
        invariant
            i <= owners@.len(),
            ids@ == owner_ids(owners@.take(i as int)),
            forall|l: LocalDefId| #[trigger]
                fns@.contains(l.def_id()) <==> is_body_fn(owners@.take(i as int), l),
            forall|k: int| 0 <= k < i ==> has_body_kind((#[trigger] owners@[k]).kind),
        decreases owners@.len() - i,
    {
        let kind = owners[i].kind;
        let ghost seen = owners@.take(i as int);
        let ghost now = owners@.take(i + 1);
        if kind.is_fn() {
            fns.insert(owners[i].ldid.to_def_id());
        } else if !matches!(kind, DefKind::AnonConst | DefKind::Const | DefKind::Static) {
            assert(!has_body_kind(owners@[i as int].kind));
            return false;
        }
        ids.push(owners[i].ldid);
        proof {
            assert(ids@ =~= owner_ids(now));
            assert(now[i as int] == owners@[i as int]);
            assert forall|l: LocalDefId| #[trigger]
                fns@.contains(l.def_id()) <==> is_body_fn(now, l) by {
                if is_body_fn(seen, l) {
                    let k = choose|k: int|
                        0 <= k < seen.len() && (#[trigger] seen[k]).ldid == l
                            && seen[k].kind.is_fn_spec();
                    assert(now[k] == seen[k]);
                }
                if is_body_fn(now, l) {
                    let k = choose|k: int|
                        0 <= k < now.len() && (#[trigger] now[k]).ldid == l
                            && now[k].kind.is_fn_spec();
                    if k < i {
                        assert(seen[k] == now[k]);
                    }
                }
            }
        }
        i += 1;
    }
    assert(owners@.take(i as int) =~= owners@);
    if distinct(&ids).is_none() {
        return false;
    }
    i = 0;
    while i < owners.len()
        invariant
            i <= owners@.len(),
            forall|l: LocalDefId| #[trigger]
                fns@.contains(l.def_id()) <==> is_body_fn(owners@, l),
            forall|n: int, k: int|
                #![trigger callees(owners@[n].operands@)[k]]
                0 <= n < i && owners@[n].kind.is_fn_spec() && 0 <= k < callees(
                    owners@[n].operands@,
                ).len() ==> is_body_fn(owners@, callees(owners@[n].operands@)[k]),
        decreases owners@.len() - i,
    {
        if owners[i].kind.is_fn() && !contains_all(&fns, &for_each_callee(&owners[i].operands)) {
            proof {
                let called = callees(owners@[i as int].operands@);
                let k = choose|k: int|
                    0 <= k < called.len() && !fns@.contains((#[trigger] called[k]).def_id());
                assert(!is_body_fn(owners@, callees(owners@[i as int].operands@)[k]));
            }
            return false;
        }
        proof {
            let called = callees(owners@[i as int].operands@);
            assert forall|k: int|
                owners@[i as int].kind.is_fn_spec() && 0 <= k < called.len() implies is_body_fn(
                owners@,
                #[trigger] called[k],
            ) by {
                assert(fns@.contains(called[k].def_id()));
            }
        }
        i += 1;
    }
    true
}

/// Whether the statics are those among the definitions.
fn are_statics(statics: &Vec<StaticDecl>, defs: &Vec<Definition>) -> (r: bool)
    ensures
        r == (statics@.len() == statics_of(defs@).len() && forall|i: int|
            0 <= i < statics@.len() ==> (#[trigger] statics@[i]).did == statics_of(defs@)[i]),
{
    let dids = all_static_items(defs);
    if statics.len() != dids.len() {
        return false;
    }
    let mut i: usize = 0;
    while i < statics.len()
        invariant
            i <= statics@.len(),
            statics@.len() == dids@.len(),
            dids@ == statics_of(defs@),
            forall|k: int| 0 <= k < i ==> (#[trigger] statics@[k]).did == dids@[k],
        decreases statics@.len() - i,
    {
        if statics[i].did != dids[i] {
            assert(statics@[i as int].did != statics_of(defs@)[i as int]);
            return false;
        }
        i += 1;
    }
    true
}

/// Whether the declarations and bodies are those of the functions.
fn are_functions(program: &Program) -> (r: bool)
    requires
        program.decls@.len() == program.order@.len(),
        program.bodies@.len() == program.order@.len(),
    ensures
        r == ((forall|i: int|
            0 <= i < program.order@.len() ==> (#[trigger] program.decls@[i]).did
                == program.order@[i].def_id()) && (forall|i: int|
            0 <= i < program.order@.len() ==> body_rooted(
                #[trigger] program.bodies@[i],
                sig_from(program.decls@[i]@.inputs, program.decls@[i]@.output, 0),
            ))),
{
    let mut i: usize = 0;
    while i < program.order.len()
        invariant
            i <= program.order@.len(),
            program.decls@.len() == program.order@.len(),
            program.bodies@.len() == program.order@.len(),
            forall|k: int|
                0 <= k < i ==> (#[trigger] program.decls@[k]).did == program.order@[k].def_id(),
            forall|k: int|
                0 <= k < i ==> body_rooted(
                    #[trigger] program.bodies@[k],
                    sig_from(program.decls@[k]@.inputs, program.decls@[k]@.output, 0),
                ),
        decreases program.order@.len() - i,
    {
        if program.decls[i].did != program.order[i].to_def_id() {
            assert(program.decls@[i as int].did != program.order@[i as int].def_id());
            return false;
        }
        if !is_rooted(&program.bodies[i], &program.decls[i]) {
            assert(!body_rooted(
                program.bodies@[i as int],
                sig_from(program.decls@[i as int]@.inputs, program.decls@[i as int]@.output, 0),
            ));
            return false;
        }
        i += 1;
    }
    true
}

/// Whether no foreign item is one of the functions, and the fields of all that occurs in the
/// foreign items are known.
fn are_foreign(program: &Program, functions: &DefIdSet) -> (r: bool)
    requires
        forall|l: LocalDefId| #[trigger]
            functions@.contains(l.def_id()) <==> program.order@.contains(l),
        forall|d| #[trigger]
            functions@.contains(d) ==> exists|l: LocalDefId| #[trigger] l.def_id() == d,
    ensures
        r == ((forall|i: int, j: int|
            0 <= i < program.order@.len() && 0 <= j < program.foreign_items@.len() ==> (
            #[trigger] program.foreign_items@[j]).did != (
            #[trigger] program.order@[i]).def_id()) && (forall|i: int|
            0 <= i < program.foreign_items@.len() ==> covers_type(
                program.adts@,
                (#[trigger] program.foreign_items@[i]).ty@,
            ))),
{
    let mut j: usize = 0;
    while j < program.foreign_items.len()
        invariant
            j <= program.foreign_items@.len(),
            forall|l: LocalDefId| #[trigger]
                functions@.contains(l.def_id()) <==> program.order@.contains(l),
            forall|d| #[trigger]
                functions@.contains(d) ==> exists|l: LocalDefId| #[trigger] l.def_id() == d,
            forall|i: int, k: int|
                0 <= i < program.order@.len() && 0 <= k < j ==> (
                #[trigger] program.foreign_items@[k]).did != (
                #[trigger] program.order@[i]).def_id(),
            forall|k: int|
                0 <= k < j ==> covers_type(
                    program.adts@,
                    (#[trigger] program.foreign_items@[k]).ty@,
                ),
        decreases program.foreign_items@.len() - j,
    {
        let item: &ForeignItem = &program.foreign_items[j];
        if functions.contains(item.did) {
            proof {
                let l = choose|l: LocalDefId| #[trigger] l.def_id() == item.did;
                assert(functions@.contains(l.def_id()));
                let i = choose|i: int| 0 <= i < program.order@.len() && program.order@[i] == l;
                assert(program.foreign_items@[j as int].did == program.order@[i].def_id());
            }
            return false;
        }
        if !is_covered(&program.adts, &item.ty) {
            assert(!covers_type(program.adts@, program.foreign_items@[j as int].ty@));
            return false;
        }
        proof {
            assert forall|i: int| 0 <= i < program.order@.len() implies item.did != (
            #[trigger] program.order@[i]).def_id() by {
                assert(program.order@.contains(program.order@[i]));
                assert(functions@.contains(program.order@[i].def_id()));
            }
        }
        j += 1;
    }
    true
}

/// Whether the fields of all structs, enums and unions among the definitions are known.
fn are_adts_known(adts: &DefMap<Vec<Field>>, defs: &Vec<Definition>) -> (r: bool)
    ensures
        r == forall|i: int|
            0 <= i < defs@.len() && (#[trigger] defs@[i]).kind.is_adt_spec() ==> adts@.contains_key(
                defs@[i].ldid.def_id(),
            ),
{
    let mut i: usize = 0;
    while i < defs.len()
        invariant
            i <= defs@.len(),
            forall|k: int|
                0 <= k < i && (#[trigger] defs@[k]).kind.is_adt_spec() ==> adts@.contains_key(
                    defs@[k].ldid.def_id(),
                ),
        decreases defs@.len() - i,
    {
        if defs[i].kind.is_adt() && !adts.contains_key(defs[i].ldid.to_def_id()) {
            assert(defs@[i as int].kind.is_adt_spec());
            return false;
        }
        i += 1;
    }
    true
}

impl Program {
    /// Whether the parts of the program fit together.
    pub fn is_wf(&self) -> (r: bool)
        ensures
            r == self.wf(),
    {
        let n = self.order.len();
        if self.decls.len() != n || self.bodies.len() != n || self.attrs.len() != n
            || self.hashes.len() != n {
            return false;
        }
        match distinct(&self.order) {
            None => false,
            Some(functions) => are_functions(self) && are_foreign(self, &functions) && are_statics(
                &self.statics,
                &self.defs,
            ) && are_fields_covered(&self.adts) && are_adts_known(&self.adts, &self.defs),
        }
    }
}

} // verus!
