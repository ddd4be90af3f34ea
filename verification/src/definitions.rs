//! The definitions of the crate that is being compiled.
use crate::def_id::{DefId, DefKind, LocalDefId};
use vstd::prelude::*;

verus! {

/// A definition of the crate.
#[derive(Clone, Copy, Debug, PartialEq, Eq, Structural)]
pub struct Definition {
    pub ldid: LocalDefId,
    pub kind: DefKind,
    /// Whether the definition is marked, for testing, as one whose types must not be changed.
    pub fixed_signature: bool,
}

/// The statics among the definitions, in order.
pub open spec fn statics_of(defs: Seq<Definition>) -> Seq<DefId>
    decreases defs.len(),
{
    if defs.len() == 0 {
        Seq::empty()
    } else if defs.last().kind is Static {
        statics_of(defs.drop_last()).push(defs.last().ldid.def_id())
    } else {
        statics_of(defs.drop_last())
    }
}

/// All statics.
pub fn all_static_items(defs: &Vec<Definition>) -> (r: Vec<DefId>)
    ensures
        r@ == statics_of(defs@),
{
    let mut order: Vec<DefId> = Vec::new();
    let mut i: usize = 0;
    while i < defs.len()
        invariant
            i <= defs@.len(),
            order@ == statics_of(defs@.take(i as int)),
        decreases defs@.len() - i,
    {
        assert(defs@.take(i + 1).drop_last() =~= defs@.take(i as int));
        if matches!(defs[i].kind, DefKind::Static) {
            order.push(defs[i].ldid.to_def_id());
        }
        i += 1;
    }
    assert(defs@.take(i as int) =~= defs@);
    order
}

/// The structs, enums and unions among the definitions, in order.
pub open spec fn adts_of(defs: Seq<Definition>) -> Seq<DefId>
    decreases defs.len(),
{
    if defs.len() == 0 {
        Seq::empty()
    } else if defs.last().kind.is_adt_spec() {
        adts_of(defs.drop_last()).push(defs.last().ldid.def_id())
    } else {
        adts_of(defs.drop_last())
    }
}

/// All structs, enums and unions.
pub fn all_adt_items(defs: &Vec<Definition>) -> (r: Vec<DefId>)
    ensures
        r@ == adts_of(defs@),
{
    let mut order: Vec<DefId> = Vec::new();
    let mut i: usize = 0;
    while i < defs.len()
        invariant
            i <= defs@.len(),
            order@ == adts_of(defs@.take(i as int)),
        decreases defs@.len() - i,
    {
        assert(defs@.take(i + 1).drop_last() =~= defs@.take(i as int));
        if defs[i].kind.is_adt() {
            order.push(defs[i].ldid.to_def_id());
        }
        i += 1;
    }
    assert(defs@.take(i as int) =~= defs@);
    order
}

/// Every definition in the lists is one of the definitions, of the kind that the list is for.
pub proof fn law_items_are_definitions(defs: Seq<Definition>, d: DefId)
    ensures
        statics_of(defs).contains(d) <==> exists|i: int|
            0 <= i < defs.len() && (#[trigger] defs[i]).kind is Static && defs[i].ldid.def_id() == d,
        adts_of(defs).contains(d) <==> exists|i: int|
            0 <= i < defs.len() && (#[trigger] defs[i]).kind.is_adt_spec() && defs[i].ldid.def_id()
                == d,
    decreases defs.len(),
{
    if defs.len() > 0 {
        let n = defs.len() - 1;
        let front = defs.drop_last();
        law_items_are_definitions(front, d);
        assert forall|i: int| 0 <= i < n implies front[i] == #[trigger] defs[i] by {}
        assert(defs[n] == defs.last());
        if statics_of(front).contains(d) {
            let i = choose|i: int|
                0 <= i < front.len() && (#[trigger] front[i]).kind is Static
                    && front[i].ldid.def_id() == d;
            assert(defs[i].kind is Static);
            let k = choose|k: int| 0 <= k < statics_of(front).len() && statics_of(front)[k] == d;
            assert(statics_of(defs)[k] == d);
        }
        if adts_of(front).contains(d) {
            let i = choose|i: int|
                0 <= i < front.len() && (#[trigger] front[i]).kind.is_adt_spec()
                    && front[i].ldid.def_id() == d;
            assert(defs[i].kind.is_adt_spec());
            let k = choose|k: int| 0 <= k < adts_of(front).len() && adts_of(front)[k] == d;
            assert(adts_of(defs)[k] == d);
        }
        if statics_of(defs).contains(d) && !statics_of(front).contains(d) {
            let k = choose|k: int| 0 <= k < statics_of(defs).len() && statics_of(defs)[k] == d;
            if k < statics_of(front).len() {
                assert(statics_of(front)[k] == d);
            }
        }
        if adts_of(defs).contains(d) && !adts_of(front).contains(d) {
            let k = choose|k: int| 0 <= k < adts_of(defs).len() && adts_of(defs)[k] == d;
            if k < adts_of(front).len() {
                assert(adts_of(front)[k] == d);
            }
        }
        if defs.last().ldid.def_id() == d {
            if defs.last().kind is Static {
                assert(statics_of(defs)[statics_of(front).len() as int] == d);
            }
            if defs.last().kind.is_adt_spec() {
                assert(adts_of(defs)[adts_of(front).len() as int] == d);
            }
        }
        if exists|i: int|
            0 <= i < defs.len() && (#[trigger] defs[i]).kind is Static && defs[i].ldid.def_id()
                == d {
            let i = choose|i: int|
                0 <= i < defs.len() && (#[trigger] defs[i]).kind is Static
                    && defs[i].ldid.def_id() == d;
            if i < n {
                assert(front[i].kind is Static);
            }
        }
        if exists|i: int|
            0 <= i < defs.len() && (#[trigger] defs[i]).kind.is_adt_spec()
                && defs[i].ldid.def_id() == d {
            let i = choose|i: int|
                0 <= i < defs.len() && (#[trigger] defs[i]).kind.is_adt_spec()
                    && defs[i].ldid.def_id() == d;
            if i < n {
                assert(front[i].kind.is_adt_spec());
            }
        }
    }
}

/// The statics and the structs, enums and unions of a list of definitions are those of its first
/// part and then those of its second. Of a single definition there is at most one: the definition
/// itself, by its kind.
pub proof fn law_items_in_order(a: Seq<Definition>, b: Seq<Definition>, d: Definition)
    ensures
        statics_of(a + b) == statics_of(a) + statics_of(b),
        adts_of(a + b) == adts_of(a) + adts_of(b),
        statics_of(seq![d]) == if d.kind == DefKind::Static {
            seq![DefId { krate: 0, index: d.ldid.index }]
        } else {
            Seq::empty()
        },
        adts_of(seq![d]) == if d.kind == DefKind::Struct || d.kind == DefKind::Enum || d.kind
            == DefKind::Union {
            seq![DefId { krate: 0, index: d.ldid.index }]
        } else {
            Seq::empty()
        },
    decreases b.len(),
{
    reveal_with_fuel(statics_of, 2);
    reveal_with_fuel(adts_of, 2);
    assert(seq![d].drop_last() =~= Seq::<Definition>::empty());
    assert(statics_of(seq![d]) =~= if d.kind == DefKind::Static {
        seq![DefId { krate: 0, index: d.ldid.index }]
    } else {
        Seq::empty()
    });
    assert(adts_of(seq![d]) =~= if d.kind == DefKind::Struct || d.kind == DefKind::Enum || d.kind
        == DefKind::Union {
        seq![DefId { krate: 0, index: d.ldid.index }]
    } else {
        Seq::empty()
    });
    if b.len() == 0 {
        assert(a + b =~= a);
        assert(statics_of(a) + statics_of(b) =~= statics_of(a));
        assert(adts_of(a) + adts_of(b) =~= adts_of(a));
    } else {
        assert((a + b).drop_last() =~= a + b.drop_last());
        law_items_in_order(a, b.drop_last(), d);
        assert(statics_of(a + b) =~= statics_of(a) + statics_of(b));
        assert(adts_of(a + b) =~= adts_of(a) + adts_of(b));
    }
}

} // verus!
