//! The structs, enums and unions that a type leads to.
use crate::def_id::{DefId, DefIdSet, DefKind, DefMap};
use crate::ty::{Ty, TyCtor, TyNode};
use vstd::prelude::*;
use vstd::set_lib::*;

verus! {

/// A field of a struct, an enum or a union.
pub struct Field {
    pub did: DefId,
    /// The type, of which the references and raw pointers get labels.
    pub ty: Ty,
    /// The type with all that occurs in it, of which a walk looks for structs, enums and unions. It
    /// has also what stands in parts that get no labels.
    pub walk_ty: Ty,
    /// Whether the field is marked, for testing, as one whose type must not be changed.
    pub fixed_signature: bool,
}

/// The fields of every struct, enum and union.
pub type AdtFields = Map<DefId, Vec<Field>>;

/// Whether `d` occurs in the type with these nodes.
pub open spec fn occurs_in(d: DefId, nodes: Seq<TyNode>) -> bool {
    exists|k: int| 0 <= k < nodes.len() && #[trigger] nodes[k].ctor == TyCtor::Adt(d)
}

/// Whether `b` occurs in the type of a field of `a`.
pub open spec fn field_leads_to(adts: AdtFields, a: DefId, b: DefId) -> bool {
    exists|f: int| 0 <= f < adts[a]@.len() && occurs_in(b, (#[trigger] adts[a]@[f]).walk_ty@)
}

/// `path` begins with something that occurs in the type `nodes`, follows fields, ends with `d`,
/// and touches nothing in `avoid`.
pub open spec fn is_field_path(
    adts: AdtFields,
    nodes: Seq<TyNode>,
    avoid: Set<DefId>,
    path: Seq<DefId>,
    d: DefId,
) -> bool {
    &&& path.len() > 0
    &&& occurs_in(path[0], nodes)
    &&& path.last() == d
    &&& forall|i: int| 0 <= i < path.len() ==> !avoid.contains(#[trigger] path[i])
    &&& forall|i: int|
        0 <= i < path.len() - 1 ==> field_leads_to(adts, #[trigger] path[i], path[i + 1])
}

/// Whether the type `nodes` leads to `d` through its arguments and through fields, on a way that
/// touches nothing in `avoid`.
pub open spec fn leads_to(
    adts: AdtFields,
    nodes: Seq<TyNode>,
    avoid: Set<DefId>,
    d: DefId,
) -> bool {
    exists|path: Seq<DefId>| is_field_path(adts, nodes, avoid, path, d)
}

/// The table `adts` has the fields of everything that occurs in the type `nodes`.
pub open spec fn covers_type(adts: AdtFields, nodes: Seq<TyNode>) -> bool {
    forall|d: DefId| #[trigger] occurs_in(d, nodes) ==> adts.contains_key(d)
}

/// The table `adts` has the fields of everything that occurs in a field.
pub open spec fn covers_fields(adts: AdtFields) -> bool {
    forall|d: DefId, f: int|
        #![trigger adts[d]@[f]]
        adts.contains_key(d) && 0 <= f < adts[d]@.len() ==> covers_type(adts, adts[d]@[f].walk_ty@)
}

proof fn lemma_leads_start(adts: AdtFields, nodes: Seq<TyNode>, avoid: Set<DefId>, d: DefId)
    requires
        occurs_in(d, nodes),
        !avoid.contains(d),
    ensures
        leads_to(adts, nodes, avoid, d),
{
    assert(is_field_path(adts, nodes, avoid, seq![d], d));
}

proof fn lemma_leads_extend(
    adts: AdtFields,
    nodes: Seq<TyNode>,
    avoid: Set<DefId>,
    d: DefId,
    e: DefId,
)
    requires
        leads_to(adts, nodes, avoid, d),
        field_leads_to(adts, d, e),
        !avoid.contains(e),
    ensures
        leads_to(adts, nodes, avoid, e),
{
    let path = choose|path: Seq<DefId>| is_field_path(adts, nodes, avoid, path, d);
    let longer = path.push(e);
    assert forall|i: int| 0 <= i < longer.len() - 1 implies field_leads_to(
        adts,
        #[trigger] longer[i],
        longer[i + 1],
    ) by {
        if i < path.len() - 1 {
            assert(field_leads_to(adts, path[i], path[i + 1]));
        }
    }
    assert(is_field_path(adts, nodes, avoid, longer, e));
}

proof fn lemma_leads_prepend(
    adts: AdtFields,
    nodes: Seq<TyNode>,
    avoid: Set<DefId>,
    less: Set<DefId>,
    d: DefId,
    f: int,
    e: DefId,
)
    requires
        occurs_in(d, nodes),
        !less.contains(d),
        less.subset_of(avoid),
        0 <= f < adts[d]@.len(),
        leads_to(adts, adts[d]@[f].walk_ty@, avoid, e),
    ensures
        leads_to(adts, nodes, less, e),
{
    let path = choose|path: Seq<DefId>|
        is_field_path(adts, adts[d]@[f].walk_ty@, avoid, path, e);
    let longer = seq![d] + path;
    assert(field_leads_to(adts, d, path[0]));
    assert forall|i: int| 0 <= i < longer.len() - 1 implies field_leads_to(
        adts,
        #[trigger] longer[i],
        longer[i + 1],
    ) by {
        if i > 0 {
            assert(field_leads_to(adts, path[i - 1], path[i - 1 + 1]));
        }
    }
    assert forall|i: int| 0 <= i < longer.len() implies !less.contains(#[trigger] longer[i]) by {
        if i > 0 {
            assert(!avoid.contains(path[i - 1]));
        }
    }
    assert(longer.last() == path.last());
    assert(is_field_path(adts, nodes, less, longer, e));
}

/// Everything on a path is in `all`, if what occurs in the type is, and what is in `all` and was
/// not in `avoid` passes it on to what its fields lead to.
proof fn lemma_path_within(
    adts: AdtFields,
    nodes: Seq<TyNode>,
    avoid: Set<DefId>,
    all: Set<DefId>,
    path: Seq<DefId>,
    i: int,
)
    requires
        is_field_path(adts, nodes, avoid, path, path.last()),
        forall|d: DefId| #[trigger] occurs_in(d, nodes) ==> all.contains(d),
        forall|d: DefId, e: DefId|
            all.contains(d) && !avoid.contains(d) && #[trigger] field_leads_to(adts, d, e)
                ==> all.contains(e),
        0 <= i < path.len(),
    ensures
        all.contains(path[i]),
    decreases i,
{
    if i > 0 {
        lemma_path_within(adts, nodes, avoid, all, path, i - 1);
        assert(!avoid.contains(path[i - 1]));
        assert(field_leads_to(adts, path[i - 1], path[i - 1 + 1]));
    }
}

/// What is still to be found.
pub open spec fn remaining(adts: AdtFields, mentioned: Set<DefId>) -> Set<DefId> {
    adts.dom().difference(mentioned)
}

proof fn lemma_remaining_shrinks(adts: AdtFields, less: Set<DefId>, more: Set<DefId>, d: DefId)
    requires
        adts.dom().finite(),
        adts.contains_key(d),
        !less.contains(d),
        more.contains(d),
        less.subset_of(more),
    ensures
        remaining(adts, more).len() < remaining(adts, less).len(),
{
    let a = remaining(adts, less);
    let b = remaining(adts, more);
    assert(a.subset_of(adts.dom()));
    lemma_set_subset_finite(adts.dom(), a);
    assert(b.subset_of(a.remove(d)));
    lemma_len_subset(b, a.remove(d));
}

/// A struct, an enum or a union that a walk comes to.
#[derive(Clone, Copy, Debug, PartialEq, Eq, Structural)]
pub struct AdtVisit {
    pub did: DefId,
    /// Whether the walk comes to it for the first time, and so looks at its fields.
    pub is_new: bool,
}

/// The walk over a type: what was met at its end, if `met` was met before, and what the walk comes
/// to, in this order. It goes over the type from the outside to the inside, and from the first
/// argument to the last. Where it comes to something new, it goes over its fields before it goes
/// on to its arguments. `depth` bounds how deep fields are nested; the number of structs, enums and
/// unions that are left to be met is always enough.
pub open spec fn walk(adts: AdtFields, nodes: Seq<TyNode>, met: Set<DefId>, depth: nat) -> (
    Set<DefId>,
    Seq<AdtVisit>,
)
    decreases depth, 0nat, nodes.len(),
{
    if nodes.len() == 0 {
        (met, Seq::empty())
    } else {
        let (now, visits) = walk(adts, nodes.drop_last(), met, depth);
        match nodes.last().ctor {
            TyCtor::Adt(did) => if now.contains(did) {
                (now, visits.push(AdtVisit { did, is_new: false }))
            } else if depth > 0 {
                let (after, more) = walk_fields(
                    adts,
                    adts[did]@,
                    now.insert(did),
                    (depth - 1) as nat,
                );
                (after, visits.push(AdtVisit { did, is_new: true }) + more)
            } else {
                (now, visits)
            },
            _ => (now, visits),
        }
    }
}

/// The walk over the types of fields, one after the other.
pub open spec fn walk_fields(
    adts: AdtFields,
    fields: Seq<Field>,
    met: Set<DefId>,
    depth: nat,
) -> (Set<DefId>, Seq<AdtVisit>)
    decreases depth, 1nat, fields.len(),
{
    if fields.len() == 0 {
        (met, Seq::empty())
    } else {
        let (now, visits) = walk_fields(adts, fields.drop_last(), met, depth);
        let (after, more) = walk(adts, fields.last().walk_ty@, now, depth);
        (after, visits + more)
    }
}

/// What is new in `visits` was not in `met`, is new once, and makes `after` out of `met`.
pub open spec fn meets(met: Set<DefId>, after: Set<DefId>, visits: Seq<AdtVisit>) -> bool {
    &&& forall|d: DefId| #[trigger]
        after.contains(d) <==> met.contains(d) || visits.contains(AdtVisit { did: d, is_new: true })
    &&& forall|i: int|
        0 <= i < visits.len() && (#[trigger] visits[i]).is_new ==> !met.contains(visits[i].did)
    &&& forall|i: int, j: int|
        0 <= i < j < visits.len() && (#[trigger] visits[i]).is_new && (
        #[trigger] visits[j]).is_new ==> visits[i].did != visits[j].did
    &&& forall|i: int| 0 <= i < visits.len() ==> after.contains((#[trigger] visits[i]).did)
}

proof fn lemma_meets_append(
    met: Set<DefId>,
    middle: Set<DefId>,
    after: Set<DefId>,
    a: Seq<AdtVisit>,
    b: Seq<AdtVisit>,
)
    requires
        meets(met, middle, a),
        meets(middle, after, b),
    ensures
        meets(met, after, a + b),
{
    let all = a + b;
    assert forall|i: int, j: int|
        0 <= i < j < all.len() && (#[trigger] all[i]).is_new && (
        #[trigger] all[j]).is_new implies all[i].did != all[j].did by {
        if i < a.len() && j >= a.len() {
            assert(middle.contains(a[i].did));
            assert(!middle.contains(b[j - a.len()].did));
        } else if i >= a.len() {
            assert(b[i - a.len()].is_new && b[j - a.len()].is_new);
        }
    }
    assert forall|d: DefId| #[trigger]
        after.contains(d) <==> met.contains(d) || all.contains(AdtVisit { did: d, is_new: true }) by {
        let v = AdtVisit { did: d, is_new: true };
        assert(after.contains(d) <==> middle.contains(d) || b.contains(v));
        assert(middle.contains(d) <==> met.contains(d) || a.contains(v));
        if a.contains(v) {
            let i = choose|i: int| 0 <= i < a.len() && a[i] == v;
            assert(all[i] == v);
        }
        if b.contains(v) {
            let i = choose|i: int| 0 <= i < b.len() && b[i] == v;
            assert(all[a.len() + i] == v);
        }
        if all.contains(v) {
            let i = choose|i: int| 0 <= i < all.len() && all[i] == v;
            if i < a.len() {
                assert(a[i] == v);
            } else {
                assert(b[i - a.len()] == v);
            }
        }
    }
    assert forall|i: int| 0 <= i < all.len() implies after.contains((#[trigger] all[i]).did) by {
        if i < a.len() {
            assert(middle.contains(a[i].did));
        } else {
            assert(after.contains(b[i - a.len()].did));
        }
    }
    assert forall|i: int| 0 <= i < all.len() && (#[trigger] all[i]).is_new implies !met.contains(
        all[i].did,
    ) by {
        if i >= a.len() {
            assert(!middle.contains(b[i - a.len()].did));
            assert(met.contains(all[i].did) ==> middle.contains(all[i].did));
        }
    }
}

/// Whatever a walk comes to is new at most once, and only if it was not met before; and a walk
/// adds to what was met exactly what is new.
pub proof fn law_walk_meets(adts: AdtFields, nodes: Seq<TyNode>, met: Set<DefId>, depth: nat)
    ensures
        meets(met, walk(adts, nodes, met, depth).0, walk(adts, nodes, met, depth).1),
    decreases depth, 0nat, nodes.len(),
{
    if nodes.len() > 0 {
        law_walk_meets(adts, nodes.drop_last(), met, depth);
        let (now, visits) = walk(adts, nodes.drop_last(), met, depth);
        if let TyCtor::Adt(did) = nodes.last().ctor {
            if now.contains(did) {
                let v = seq![AdtVisit { did, is_new: false }];
                assert(meets(now, now, v));
                lemma_meets_append(met, now, now, visits, v);
                assert(visits + v =~= visits.push(v[0]));
            } else if depth > 0 {
                let v = seq![AdtVisit { did, is_new: true }];
                assert(v[0] == AdtVisit { did, is_new: true });
                let entered = now.insert(did);
                assert(meets(now, entered, v));
                lemma_meets_append(met, now, entered, visits, v);
                assert(visits + v =~= visits.push(v[0]));
                let inner = (depth - 1) as nat;
                lemma_walk_fields_meets(adts, adts[did]@, entered, inner);
                let (after, more) = walk_fields(adts, adts[did]@, entered, inner);
                lemma_meets_append(met, entered, after, visits.push(v[0]), more);
            }
        }
    }
}

proof fn lemma_walk_fields_meets(
    adts: AdtFields,
    fields: Seq<Field>,
    met: Set<DefId>,
    depth: nat,
)
    ensures
        meets(met, walk_fields(adts, fields, met, depth).0, walk_fields(
            adts,
            fields,
            met,
            depth,
        ).1),
    decreases depth, 1nat, fields.len(),
{
    if fields.len() > 0 {
        lemma_walk_fields_meets(adts, fields.drop_last(), met, depth);
        let (now, visits) = walk_fields(adts, fields.drop_last(), met, depth);
        law_walk_meets(adts, fields.last().walk_ty@, now, depth);
        let (after, more) = walk(adts, fields.last().walk_ty@, now, depth);
        lemma_meets_append(met, now, after, visits, more);
    }
}

/// What a walk over a type comes to, if `met` was met before.
pub open spec fn visits(adts: AdtFields, nodes: Seq<TyNode>, met: Set<DefId>) -> Seq<AdtVisit> {
    walk(adts, nodes, met, remaining(adts, met).len()).1
}

/// Adds to `mentioned` every struct, enum and union that `ty` leads to, through its arguments and
/// through the types of fields. The fields of what is already in `mentioned` are not looked at.
pub fn walk_adts(adts: &DefMap<Vec<Field>>, ty: &Ty, mentioned: &mut DefIdSet)
    requires
        covers_type(adts@, ty@),
        covers_fields(adts@),
    ensures
        forall|d: DefId| #[trigger]
            final(mentioned)@.contains(d) <==> old(mentioned)@.contains(d) || leads_to(
                adts@,
                ty@,
                old(mentioned)@,
                d,
            ),
{
    let _visits = walk_adts_in_order(adts, ty, mentioned);
}

/// Adds to `mentioned` every struct, enum and union that `ty` leads to, and hands back those that
/// the walk comes to, in the order in which it does.
pub fn walk_adts_in_order(adts: &DefMap<Vec<Field>>, ty: &Ty, mentioned: &mut DefIdSet) -> (r: Vec<
    AdtVisit,
>)
    requires
        covers_type(adts@, ty@),
        covers_fields(adts@),
    ensures
        forall|d: DefId| #[trigger]
            final(mentioned)@.contains(d) <==> old(mentioned)@.contains(d) || leads_to(
                adts@,
                ty@,
                old(mentioned)@,
                d,
            ),
        r@ == visits(adts@, ty@, old(mentioned)@),
{
    let mut found: Vec<AdtVisit> = Vec::new();
    let ghost depth = remaining(adts@, mentioned@).len();
    walk_from(adts, ty, mentioned, &mut found, Ghost(depth));
    assert(found@ =~= visits(adts@, ty@, old(mentioned)@));
    found
}

/// Walks over `ty`, and adds what the walk comes to.
fn walk_from(
    adts: &DefMap<Vec<Field>>,
    ty: &Ty,
    mentioned: &mut DefIdSet,
    found: &mut Vec<AdtVisit>,
    Ghost(depth): Ghost<nat>,
)
    requires
        covers_type(adts@, ty@),
        covers_fields(adts@),
        remaining(adts@, old(mentioned)@).len() <= depth,
    ensures
        forall|d: DefId| #[trigger]
            final(mentioned)@.contains(d) <==> old(mentioned)@.contains(d) || leads_to(
                adts@,
                ty@,
                old(mentioned)@,
                d,
            ),
        final(mentioned)@ == walk(adts@, ty@, old(mentioned)@, depth).0,
        final(found)@ == old(found)@ + walk(adts@, ty@, old(mentioned)@, depth).1,
    decreases depth,
{
    let _n = adts.len();
    let ghost start = mentioned@;
    let ghost found0 = found@;
    let mut i: usize = 0;
    assert(found0 + walk(adts@, ty@.take(0), start, depth).1 =~= found0);
    while i < ty.nodes.len()
        invariant
            start == old(mentioned)@,
            found0 == old(found)@,
            remaining(adts@, start).len() <= depth,
            mentioned@ == walk(adts@, ty@.take(i as int), start, depth).0,
            found@ == found0 + walk(adts@, ty@.take(i as int), start, depth).1,
            i <= ty@.len(),
            adts@.dom().finite(),
            covers_type(adts@, ty@),
            covers_fields(adts@),
            start.subset_of(mentioned@),
            forall|k: int, d: DefId|
                0 <= k < i && #[trigger] ty@[k].ctor == TyCtor::Adt(d) ==> #[trigger] mentioned@.contains(d),
            forall|d: DefId, e: DefId|
                mentioned@.contains(d) && !start.contains(d) && #[trigger] field_leads_to(
                    adts@,
                    d,
                    e,
                ) ==> mentioned@.contains(e),
            forall|d: DefId|
                #![trigger mentioned@.contains(d)]
                mentioned@.contains(d) && !start.contains(d) ==> leads_to(adts@, ty@, start, d),
        decreases ty@.len() - i,
    {
        assert(ty@.take(i + 1).drop_last() =~= ty@.take(i as int));
        assert(ty@.take(i + 1).last() == ty@[i as int]);
        if let TyCtor::Adt(did) = ty.nodes[i].ctor {
            assert(occurs_in(did, ty@));
            let ghost before = mentioned@;
            let is_new = mentioned.insert(did);
            found.push(AdtVisit { did, is_new });
            if is_new {
                proof {
                    lemma_leads_start(adts@, ty@, start, did);
                    lemma_remaining_shrinks(adts@, start, mentioned@, did);
                }
                let ghost base = found@;
                let ghost entered = mentioned@;
                let ghost inner_depth = (depth - 1) as nat;
                let fields = match adts.get(did) {
                    Some(fields) => fields,
                    None => {
                        assert(false);
                        return;
                    },
                };
                let mut f: usize = 0;
                assert(base + walk_fields(adts@, fields@.take(0), entered, inner_depth).1 =~= base);
                while f < fields.len()
                    invariant
                        start == old(mentioned)@,
                        0 < depth,
                        inner_depth == depth - 1,
                        remaining(adts@, start).len() <= depth,
                        mentioned@ == walk_fields(
                            adts@,
                            fields@.take(f as int),
                            entered,
                            inner_depth,
                        ).0,
                        found@ == base + walk_fields(
                            adts@,
                            fields@.take(f as int),
                            entered,
                            inner_depth,
                        ).1,
                        adts@.dom().finite(),
                        adts@.contains_key(did),
                        adts@[did] == *fields,
                        f <= fields@.len(),
                        i < ty@.len(),
                        ty@[i as int].ctor == TyCtor::Adt(did),
                        occurs_in(did, ty@),
                        !start.contains(did),
                        mentioned@.contains(did),
                        covers_fields(adts@),
                        covers_type(adts@, ty@),
                        start.subset_of(mentioned@),
                        remaining(adts@, mentioned@).len() < remaining(adts@, start).len(),
                        forall|k: int, d: DefId|
                            0 <= k < i && #[trigger] ty@[k].ctor == TyCtor::Adt(d)
                                ==> #[trigger] mentioned@.contains(d),
                        forall|d: DefId, e: DefId|
                            mentioned@.contains(d) && !start.contains(d) && d != did
                                && #[trigger] field_leads_to(adts@, d, e) ==> mentioned@.contains(
                                e,
                            ),
                        forall|k: int, e: DefId|
                            0 <= k < f && #[trigger] occurs_in(e, fields@[k].walk_ty@)
                                ==> mentioned@.contains(e),
                        forall|d: DefId|
                            #![trigger mentioned@.contains(d)]
                            mentioned@.contains(d) && !start.contains(d) ==> leads_to(
                                adts@,
                                ty@,
                                start,
                                d,
                            ),
                    decreases fields@.len() - f,
                {
                    let ghost inner = mentioned@;
                    assert(covers_type(adts@, adts@[did]@[f as int].walk_ty@));
                    walk_from(adts, &fields[f].walk_ty, mentioned, found, Ghost(inner_depth));
                    proof {
                        let nodes = fields@[f as int].walk_ty@;
                        assert(fields@.take(f + 1).drop_last() =~= fields@.take(f as int));
                        assert(fields@.take(f + 1).last() == fields@[f as int]);
                        assert(found@ =~= base + walk_fields(
                            adts@,
                            fields@.take(f + 1),
                            entered,
                            inner_depth,
                        ).1);
                        lemma_remaining_shrinks(adts@, start, mentioned@, did);
                        assert forall|e: DefId| #[trigger] occurs_in(e, nodes) implies mentioned@.contains(
                            e,
                        ) by {
                            if !inner.contains(e) {
                                lemma_leads_start(adts@, nodes, inner, e);
                            }
                        }
                        assert forall|d: DefId, e: DefId|
                            mentioned@.contains(d) && !start.contains(d) && d != did
                                && #[trigger] field_leads_to(adts@, d, e) implies mentioned@.contains(
                            e,
                        ) by {
                            if inner.contains(d) {
                                assert(inner.contains(e));
                            } else if !inner.contains(e) {
                                lemma_leads_extend(adts@, nodes, inner, d, e);
                            }
                        }
                        assert forall|d: DefId|
                            #![trigger mentioned@.contains(d)]
                            mentioned@.contains(d) && !start.contains(d) implies leads_to(
                            adts@,
                            ty@,
                            start,
                            d,
                        ) by {
                            if !inner.contains(d) {
                                lemma_leads_prepend(
                                    adts@,
                                    ty@,
                                    inner,
                                    start,
                                    did,
                                    f as int,
                                    d,
                                );
                            }
                        }
                    }
                    f += 1;
                }
                proof {
                    assert(fields@.take(f as int) =~= fields@);
                    assert(found@ =~= found0 + walk(adts@, ty@.take(i + 1), start, depth).1);
                }
                assert forall|d: DefId, e: DefId|
                    mentioned@.contains(d) && !start.contains(d) && #[trigger] field_leads_to(
                        adts@,
                        d,
                        e,
                    ) implies mentioned@.contains(e) by {
                    if d == did {
                        let k = choose|k: int|
                            0 <= k < adts@[did]@.len() && occurs_in(
                                e,
                                (#[trigger] adts@[did]@[k]).walk_ty@,
                            );
                        assert(occurs_in(e, fields@[k].walk_ty@));
                    }
                }
            } else {
                assert(mentioned@ =~= before);
                assert(found@ =~= found0 + walk(adts@, ty@.take(i + 1), start, depth).1);
            }
        }
        i += 1;
    }
    assert(ty@.take(i as int) =~= ty@);
    assert forall|d: DefId| #[trigger]
        mentioned@.contains(d) <==> start.contains(d) || leads_to(adts@, ty@, start, d) by {
        if leads_to(adts@, ty@, start, d) {
            let path = choose|path: Seq<DefId>| is_field_path(adts@, ty@, start, path, d);
            assert forall|e: DefId| #[trigger] occurs_in(e, ty@) implies mentioned@.contains(e) by {
                let k = choose|k: int|
                    0 <= k < ty@.len() && #[trigger] ty@[k].ctor == TyCtor::Adt(e);
            }
            lemma_path_within(adts@, ty@, start, mentioned@, path, path.len() - 1);
        }
    }
}

/// An item that is declared in an `extern` block.
pub struct ForeignItem {
    pub did: DefId,
    pub kind: DefKind,
    /// The type of a static, or the function pointer type of a function.
    pub ty: Ty,
    /// The types of the inputs of a function.
    pub inputs: Vec<Ty>,
    /// The type of the output of a function.
    pub output: Ty,
}

/// Whether the item has a type: it is a function or a static.
pub open spec fn is_typed_item(item: ForeignItem) -> bool {
    item.kind.is_fn_spec() || item.kind is Static
}

/// Whether the type of one of `items` leads to `d`.
pub open spec fn is_mentioned(adts: AdtFields, items: Seq<ForeignItem>, d: DefId) -> bool {
    exists|i: int|
        0 <= i < items.len() && is_typed_item(#[trigger] items[i]) && leads_to(
            adts,
            items[i].ty@,
            Set::empty(),
            d,
        )
}

/// The structs, enums and unions that the types of the foreign functions and statics lead to.
pub fn foreign_mentioned_tys(adts: &DefMap<Vec<Field>>, items: &Vec<ForeignItem>) -> (r: DefIdSet)
    requires
        covers_fields(adts@),
        forall|i: int| 0 <= i < items@.len() ==> covers_type(adts@, (#[trigger] items@[i]).ty@),
    ensures
        forall|d: DefId| #[trigger] r@.contains(d) <==> is_mentioned(adts@, items@, d),
{
    let mut r = DefIdSet::new();
    let mut i: usize = 0;
    while i < items.len()
        invariant
            i <= items@.len(),
            covers_fields(adts@),
            forall|i: int|
                0 <= i < items@.len() ==> covers_type(adts@, (#[trigger] items@[i]).ty@),
            forall|d: DefId| #[trigger]
                r@.contains(d) <==> is_mentioned(adts@, items@.take(i as int), d),
        decreases items@.len() - i,
    {
        let ghost before = r@;
        let ghost seen = items@.take(i as int);
        let ghost next = items@.take(i + 1);
        let ghost item = items@[i as int];
        assert(next =~= seen.push(item));
        let walked = items[i].kind.is_fn() || matches!(items[i].kind, DefKind::Static);
        assert(walked == is_typed_item(item));
        if walked {
            walk_adts(adts, &items[i].ty, &mut r);
        }
        assert forall|d: DefId| #[trigger] r@.contains(d) <==> is_mentioned(adts@, next, d) by {
            if before.contains(d) {
                let k = choose|k: int|
                    0 <= k < seen.len() && is_typed_item(#[trigger] seen[k]) && leads_to(
                        adts@,
                        seen[k].ty@,
                        Set::empty(),
                        d,
                    );
                assert(next[k] == seen[k]);
            } else if r@.contains(d) {
                let path = choose|path: Seq<DefId>|
                    is_field_path(adts@, item.ty@, before, path, d);
                assert(is_field_path(adts@, item.ty@, Set::empty(), path, d));
                assert(next[i as int] == item);
            }
            if is_mentioned(adts@, next, d) {
                let k = choose|k: int|
                    0 <= k < next.len() && is_typed_item(#[trigger] next[k]) && leads_to(
                        adts@,
                        next[k].ty@,
                        Set::empty(),
                        d,
                    );
                if k < i {
                    assert(seen[k] == next[k]);
                    assert(before.contains(d));
                } else {
                    lemma_avoid_closed(adts@, item.ty@, seen, before, d);
                }
            }
        }
        i += 1;
    }
    assert(items@.take(i as int) =~= items@);
    r
}

/// What is mentioned so far is closed under fields, so a way from another type either stays clear
/// of it or ends in it.
proof fn lemma_avoid_closed(
    adts: AdtFields,
    nodes: Seq<TyNode>,
    items: Seq<ForeignItem>,
    mentioned: Set<DefId>,
    d: DefId,
)
    requires
        forall|d: DefId| #[trigger] mentioned.contains(d) <==> is_mentioned(adts, items, d),
        leads_to(adts, nodes, Set::empty(), d),
    ensures
        mentioned.contains(d) || leads_to(adts, nodes, mentioned, d),
{
    let path = choose|path: Seq<DefId>| is_field_path(adts, nodes, Set::empty(), path, d);
    if exists|i: int| 0 <= i < path.len() && mentioned.contains(#[trigger] path[i]) {
        let i = choose|i: int| 0 <= i < path.len() && mentioned.contains(#[trigger] path[i]);
        lemma_mentioned_along(adts, items, mentioned, path, i, path.len() - 1);
    } else {
        assert(is_field_path(adts, nodes, mentioned, path, d));
    }
}

proof fn lemma_mentioned_along(
    adts: AdtFields,
    items: Seq<ForeignItem>,
    mentioned: Set<DefId>,
    path: Seq<DefId>,
    i: int,
    j: int,
)
    requires
        forall|d: DefId| #[trigger] mentioned.contains(d) <==> is_mentioned(adts, items, d),
        forall|i: int|
            0 <= i < path.len() - 1 ==> field_leads_to(adts, #[trigger] path[i], path[i + 1]),
        0 <= i <= j < path.len(),
        mentioned.contains(path[i]),
    ensures
        mentioned.contains(path[j]),
    decreases j - i,
{
    if i < j {
        lemma_mentioned_along(adts, items, mentioned, path, i, j - 1);
        let d = path[j - 1];
        let k = choose|k: int|
            0 <= k < items.len() && is_typed_item(#[trigger] items[k]) && leads_to(
                adts,
                items[k].ty@,
                Set::empty(),
                d,
            );
        assert(field_leads_to(adts, path[j - 1], path[j - 1 + 1]));
        lemma_leads_extend(adts, items[k].ty@, Set::empty(), d, path[j]);
        assert(is_mentioned(adts, items, path[j]));
    }
}

/// Whatever a mentioned struct, enum or union has in a field is mentioned too.
pub proof fn law_mentioned_is_closed(adts: AdtFields, items: Seq<ForeignItem>, d: DefId, e: DefId)
    requires
        is_mentioned(adts, items, d),
        field_leads_to(adts, d, e),
    ensures
        is_mentioned(adts, items, e),
{
    let k = choose|k: int|
        0 <= k < items.len() && is_typed_item(#[trigger] items[k]) && leads_to(
            adts,
            items[k].ty@,
            Set::empty(),
            d,
        );
    lemma_leads_extend(adts, items[k].ty@, Set::empty(), d, e);
}

/// A definition occurs in a type exactly if one of its nodes is that definition, and a field leads
/// to a definition exactly if it occurs in the type of the field.
pub proof fn law_occurrences(adts: AdtFields, nodes: Seq<TyNode>, a: DefId, d: DefId, k: int)
    ensures
        0 <= k < nodes.len() && nodes[k].ctor == TyCtor::Adt(d) ==> occurs_in(d, nodes),
        occurs_in(d, nodes) ==> exists|n: int|
            0 <= n < nodes.len() && #[trigger] nodes[n].ctor == TyCtor::Adt(d),
        0 <= k < adts[a]@.len() && occurs_in(d, adts[a]@[k].walk_ty@) ==> field_leads_to(adts, a, d),
        field_leads_to(adts, a, d) ==> exists|n: int|
            0 <= n < adts[a]@.len() && occurs_in(d, (#[trigger] adts[a]@[n]).walk_ty@),
{
}

/// A type leads to all that occurs in it, and to all that a field of what it leads to leads to,
/// but for what is avoided.
pub proof fn law_leads_to_grows(
    adts: AdtFields,
    nodes: Seq<TyNode>,
    avoid: Set<DefId>,
    d: DefId,
    e: DefId,
)
    ensures
        occurs_in(d, nodes) && !avoid.contains(d) ==> leads_to(adts, nodes, avoid, d),
        leads_to(adts, nodes, avoid, d) && field_leads_to(adts, d, e) && !avoid.contains(e)
            ==> leads_to(adts, nodes, avoid, e),
        leads_to(adts, nodes, avoid, d) ==> !avoid.contains(d),
{
    if occurs_in(d, nodes) && !avoid.contains(d) {
        lemma_leads_start(adts, nodes, avoid, d);
    }
    if leads_to(adts, nodes, avoid, d) {
        let path = choose|path: Seq<DefId>| is_field_path(adts, nodes, avoid, path, d);
        assert(!avoid.contains(path[path.len() - 1]));
        if field_leads_to(adts, d, e) && !avoid.contains(e) {
            lemma_leads_extend(adts, nodes, avoid, d, e);
        }
    }
}

/// A type leads to nothing else: what it leads to is in every set that has all that occurs in the
/// type, and all that the fields of its members lead to, but for what is avoided.
pub proof fn law_leads_to_nothing_else(
    adts: AdtFields,
    nodes: Seq<TyNode>,
    avoid: Set<DefId>,
    closed: Set<DefId>,
    d: DefId,
)
    requires
        forall|a: DefId| #[trigger] occurs_in(a, nodes) && !avoid.contains(a) ==> closed.contains(a),
        forall|a: DefId, b: DefId| #[trigger]
            field_leads_to(adts, a, b) && closed.contains(a) && !avoid.contains(b)
                ==> closed.contains(b),
        leads_to(adts, nodes, avoid, d),
    ensures
        closed.contains(d),
{
    let path = choose|path: Seq<DefId>| is_field_path(adts, nodes, avoid, path, d);
    lemma_path_in_closed(adts, nodes, avoid, closed, path, d, path.len() - 1);
}

proof fn lemma_path_in_closed(
    adts: AdtFields,
    nodes: Seq<TyNode>,
    avoid: Set<DefId>,
    closed: Set<DefId>,
    path: Seq<DefId>,
    d: DefId,
    i: int,
)
    requires
        forall|a: DefId| #[trigger] occurs_in(a, nodes) && !avoid.contains(a) ==> closed.contains(a),
        forall|a: DefId, b: DefId| #[trigger]
            field_leads_to(adts, a, b) && closed.contains(a) && !avoid.contains(b)
                ==> closed.contains(b),
        is_field_path(adts, nodes, avoid, path, d),
        0 <= i < path.len(),
    ensures
        closed.contains(path[i]),
    decreases i,
{
    assert(!avoid.contains(path[i]));
    if i > 0 {
        lemma_path_in_closed(adts, nodes, avoid, closed, path, d, i - 1);
        assert(field_leads_to(adts, path[i - 1], path[i - 1 + 1]));
    }
}

/// Types are known exactly if the fields are of every definition that occurs in them.
pub proof fn law_covered_types(adts: AdtFields, nodes: Seq<TyNode>, d: DefId, f: int, k: int)
    ensures
        covers_type(adts, nodes) && 0 <= k < nodes.len() && nodes[k].ctor == TyCtor::Adt(d)
            ==> adts.contains_key(d),
        !covers_type(adts, nodes) ==> exists|n: int|
            0 <= n < nodes.len() && ((#[trigger] nodes[n]).ctor matches TyCtor::Adt(e)
                && !adts.contains_key(e)),
        covers_fields(adts) && adts.contains_key(d) && 0 <= f < adts[d]@.len() ==> covers_type(
            adts,
            adts[d]@[f].walk_ty@,
        ),
{
    if covers_type(adts, nodes) && 0 <= k < nodes.len() && nodes[k].ctor == TyCtor::Adt(d) {
        assert(occurs_in(d, nodes));
    }
    if !covers_type(adts, nodes) {
        let e = choose|e: DefId| #[trigger] occurs_in(e, nodes) && !adts.contains_key(e);
        let n = choose|n: int| 0 <= n < nodes.len() && #[trigger] nodes[n].ctor == TyCtor::Adt(e);
        assert(nodes[n].ctor == TyCtor::Adt(e));
    }
}

/// Functions, methods and statics, and nothing else among foreign items, have types that count. A
/// definition is mentioned exactly if the type of one of them leads to it.
pub proof fn law_mentioned_definitions(
    adts: AdtFields,
    items: Seq<ForeignItem>,
    i: int,
    d: DefId,
)
    ensures
        0 <= i < items.len() && (items[i].kind == DefKind::Fn || items[i].kind == DefKind::AssocFn
            || items[i].kind == DefKind::Static) && leads_to(
            adts,
            items[i].ty@,
            Set::empty(),
            d,
        ) ==> is_mentioned(adts, items, d),
        is_mentioned(adts, items, d) ==> exists|n: int|
            0 <= n < items.len() && ((#[trigger] items[n]).kind == DefKind::Fn || items[n].kind
                == DefKind::AssocFn || items[n].kind == DefKind::Static) && leads_to(
                adts,
                items[n].ty@,
                Set::empty(),
                d,
            ),
{
    if is_mentioned(adts, items, d) {
        let n = choose|n: int|
            0 <= n < items.len() && is_typed_item(#[trigger] items[n]) && leads_to(
                adts,
                items[n].ty@,
                Set::empty(),
                d,
            );
        assert(items[n].kind == DefKind::Fn || items[n].kind == DefKind::AssocFn || items[n].kind
            == DefKind::Static);
    }
}

/// A walk over the nodes of a type, or over fields, goes over a first part and then, from where
/// that ended, over a second.
pub proof fn law_walks_in_order(
    adts: AdtFields,
    a: Seq<TyNode>,
    b: Seq<TyNode>,
    met: Set<DefId>,
    depth: nat,
)
    ensures
        ({
            let (now, first) = walk(adts, a, met, depth);
            let (after, second) = walk(adts, b, now, depth);
            walk(adts, a + b, met, depth) == (after, first + second)
        }),
    decreases b.len(),
{
    let (now, first) = walk(adts, a, met, depth);
    if b.len() == 0 {
        assert(a + b =~= a);
        assert(first + Seq::<AdtVisit>::empty() =~= first);
    } else {
        assert((a + b).drop_last() =~= a + b.drop_last());
        assert((a + b).last() == b.last());
        law_walks_in_order(adts, a, b.drop_last(), met, depth);
        assert(walk(adts, a + b, met, depth).1 =~= first + walk(adts, b, now, depth).1);
    }
}

/// A walk over fields goes over a first part of them and then over a second, and over a single one
/// by its type.
pub proof fn law_field_walks_in_order(
    adts: AdtFields,
    a: Seq<Field>,
    b: Seq<Field>,
    field: Field,
    met: Set<DefId>,
    depth: nat,
)
    ensures
        ({
            let (now, first) = walk_fields(adts, a, met, depth);
            let (after, second) = walk_fields(adts, b, now, depth);
            walk_fields(adts, a + b, met, depth) == (after, first + second)
        }),
        walk_fields(adts, seq![field], met, depth) == walk(adts, field.walk_ty@, met, depth),
    decreases b.len(),
{
    reveal_with_fuel(walk_fields, 2);
    let one = seq![field];
    assert(one.drop_last() =~= Seq::<Field>::empty());
    assert(walk_fields(adts, one, met, depth).1 =~= walk(adts, field.walk_ty@, met, depth).1);
    let (now, first) = walk_fields(adts, a, met, depth);
    if b.len() == 0 {
        assert(a + b =~= a);
        assert(first + Seq::<AdtVisit>::empty() =~= first);
    } else {
        assert((a + b).drop_last() =~= a + b.drop_last());
        assert((a + b).last() == b.last());
        law_field_walks_in_order(adts, a, b.drop_last(), field, met, depth);
        assert(walk_fields(adts, a + b, met, depth).1 =~= first + walk_fields(
            adts,
            b,
            now,
            depth,
        ).1);
    }
}

/// A walk visits each struct, enum and union that it comes by. One that it has not met yet is new,
/// and its fields are walked next, before anything else; one that it has met is not.
pub proof fn law_single_visits(adts: AdtFields, node: TyNode, d: DefId, met: Set<DefId>, depth: nat)
    ensures
        node.ctor == TyCtor::Adt(d) && met.contains(d) ==> walk(adts, seq![node], met, depth) == (
            met,
            seq![AdtVisit { did: d, is_new: false }],
        ),
        node.ctor == TyCtor::Adt(d) && !met.contains(d) && depth > 0 ==> ({
            let (after, more) = walk_fields(adts, adts[d]@, met.insert(d), (depth - 1) as nat);
            walk(adts, seq![node], met, depth) == (
                after,
                seq![AdtVisit { did: d, is_new: true }] + more,
            )
        }),
        !(node.ctor is Adt) ==> walk(adts, seq![node], met, depth) == (met, Seq::<AdtVisit>::empty()),
{
    reveal_with_fuel(walk, 2);
    let one = seq![node];
    assert(one.drop_last() =~= Seq::<TyNode>::empty());
    if node.ctor == TyCtor::Adt(d) {
        if met.contains(d) {
            assert(walk(adts, one, met, depth).1 =~= seq![AdtVisit { did: d, is_new: false }]);
        } else if depth > 0 {
            let (after, more) = walk_fields(adts, adts[d]@, met.insert(d), (depth - 1) as nat);
            assert(walk(adts, one, met, depth).1 =~= seq![AdtVisit { did: d, is_new: true }] + more);
        }
    }
}

/// A walk meets exactly what it met before and what it visits as new. Nothing is new twice.
pub proof fn law_meetings(met: Set<DefId>, after: Set<DefId>, visits: Seq<AdtVisit>, i: int, j: int)
    requires
        meets(met, after, visits),
        0 <= i < visits.len(),
        0 <= j < visits.len(),
    ensures
        after.contains(visits[i].did),
        visits[i].is_new ==> !met.contains(visits[i].did),
        visits[i].is_new && visits[j].is_new && i != j ==> visits[i].did != visits[j].did,
        forall|d: DefId| #[trigger] met.contains(d) ==> after.contains(d),
        forall|d: DefId| #[trigger]
            after.contains(d) && !met.contains(d) ==> exists|k: int|
                0 <= k < visits.len() && #[trigger] visits[k] == (AdtVisit {
                    did: d,
                    is_new: true,
                }),
{
    assert(visits[i].did == visits[i].did);
    assert(visits[j].did == visits[j].did);
}

} // verus!
