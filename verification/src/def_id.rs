//! Identifiers of definitions, and sets and maps of them.
use crate::keyed_map::{KeyedMap, MapKey};
use std::collections::HashSet;
use vstd::prelude::*;

verus! {

broadcast use vstd::std_specs::hash::group_hash_axioms;

/// The number of the crate that is being compiled.
pub const LOCAL_CRATE: u32 = 0;

/// A definition: a crate, and the position of the definition in that crate.
#[derive(Clone, Copy, Debug, PartialEq, Eq, Structural)]
pub struct DefId {
    pub krate: u32,
    pub index: u32,
}

/// A definition of the crate that is being compiled.
#[derive(Clone, Copy, Debug, PartialEq, Eq, Structural)]
pub struct LocalDefId {
    pub index: u32,
}

/// What sort of thing a definition defines.
#[derive(Clone, Copy, Debug, PartialEq, Eq, Structural)]
pub enum DefKind {
    Fn,
    AssocFn,
    Static,
    Const,
    AnonConst,
    Struct,
    Enum,
    Union,
    Other,
}

impl DefKind {
    /// Functions and methods.
    pub open spec fn is_fn_spec(self) -> bool {
        self is Fn || self is AssocFn
    }

    /// Whether this is a function or a method.
    pub fn is_fn(self) -> (r: bool)
        ensures
            r == self.is_fn_spec(),
    {
        matches!(self, DefKind::Fn | DefKind::AssocFn)
    }

    /// Structs, enums and unions.
    pub open spec fn is_adt_spec(self) -> bool {
        self is Struct || self is Enum || self is Union
    }

    /// Whether this is a struct, an enum or a union.
    pub fn is_adt(self) -> (r: bool)
        ensures
            r == self.is_adt_spec(),
    {
        matches!(self, DefKind::Struct | DefKind::Enum | DefKind::Union)
    }
}

impl LocalDefId {
    /// The definition that `self` stands for.
    pub open spec fn def_id(self) -> DefId {
        DefId { krate: LOCAL_CRATE, index: self.index }
    }

    /// `self` as a definition of any crate.
    pub fn to_def_id(self) -> (r: DefId)
        ensures
            r == self.def_id(),
    {
        DefId { krate: LOCAL_CRATE, index: self.index }
    }
}

impl DefId {
    /// The local definition that `self` stands for, if it is one.
    pub open spec fn local(self) -> Option<LocalDefId> {
        if self.krate == LOCAL_CRATE {
            Some(LocalDefId { index: self.index })
        } else {
            None
        }
    }

    /// `self` as a local definition, if it is one.
    pub fn as_local(self) -> (r: Option<LocalDefId>)
        ensures
            r == self.local(),
    {
        if self.krate == LOCAL_CRATE {
            Some(LocalDefId { index: self.index })
        } else {
            None
        }
    }

    /// Definitions are ordered by their position, and by their crate where that is the same.
    pub open spec fn precedes(self, other: DefId) -> bool {
        self.index < other.index || (self.index == other.index && self.krate < other.krate)
    }

    /// Whether `self` comes before `other`.
    pub fn is_before(self, other: DefId) -> (r: bool)
        ensures
            r == self.precedes(other),
    {
        self.index < other.index || (self.index == other.index && self.krate < other.krate)
    }

    /// A number that stands for this definition alone.
    spec fn spec_key(self) -> u64 {
        (self.krate * 0x1_0000_0000 + self.index) as u64
    }

    fn key(self) -> (r: u64)
        ensures
            r == self.spec_key(),
    {
        self.krate as u64 * 0x1_0000_0000 + self.index as u64
    }

    spec fn from_key(key: u64) -> DefId {
        DefId { krate: (key / 0x1_0000_0000) as u32, index: (key % 0x1_0000_0000) as u32 }
    }
}

broadcast proof fn lemma_key_distinct(d: DefId)
    ensures
        DefId::from_key(#[trigger] d.spec_key()) == d,
{
    let k = d.krate * 0x1_0000_0000 + d.index;
    assert(k / 0x1_0000_0000 == d.krate && k % 0x1_0000_0000 == d.index) by (nonlinear_arith)
        requires
            k == d.krate * 0x1_0000_0000 + d.index,
            0 <= d.index < 0x1_0000_0000,
            0 <= d.krate < 0x1_0000_0000,
    ;
}

/// A set of definitions.
pub struct DefIdSet {
    keys: HashSet<u64>,
}

impl View for DefIdSet {
    type V = Set<DefId>;

    closed spec fn view(&self) -> Set<DefId> {
        Set::new(|d: DefId| self.keys@.contains(d.spec_key()))
    }
}

impl DefIdSet {
    /// The empty set.
    pub fn new() -> (r: DefIdSet)
        ensures
            r@ == Set::<DefId>::empty(),
    {
        let r = DefIdSet { keys: HashSet::new() };
        assert(r@ =~= Set::<DefId>::empty());
        r
    }

    /// Adds `did`, and says whether it was missing.
    pub fn insert(&mut self, did: DefId) -> (r: bool)
        ensures
            final(self)@ == old(self)@.insert(did),
            r == !old(self)@.contains(did),
    {
        broadcast use lemma_key_distinct;

        let r = self.keys.insert(did.key());
        assert(self@ =~= old(self)@.insert(did));
        r
    }

    /// Whether `did` is in the set.
    pub fn contains(&self, did: DefId) -> (r: bool)
        ensures
            r == self@.contains(did),
    {
        self.keys.contains(&did.key())
    }
}

/// A map from definitions to values, which keeps the order in which the keys were first added.
pub type DefMap<V> = KeyedMap<DefId, V>;

impl MapKey for LocalDefId {
    closed spec fn spec_number(self) -> u128 {
        self.index as u128
    }

    fn number(self) -> (r: u128) {
        self.index as u128
    }

    proof fn lemma_number_distinct(a: LocalDefId, b: LocalDefId) {
    }
}

impl MapKey for DefId {
    closed spec fn spec_number(self) -> u128 {
        self.spec_key() as u128
    }

    fn number(self) -> (r: u128) {
        self.key() as u128
    }

    proof fn lemma_number_distinct(a: DefId, b: DefId) {
        broadcast use lemma_key_distinct;

    }
}

/// One more of the keys, none of which occurs twice.
pub proof fn lemma_next_key(keys: Seq<DefId>, i: int)
    requires
        keys.no_duplicates(),
        0 <= i < keys.len(),
    ensures
        keys.take(i + 1) == keys.take(i).push(keys[i]),
        !keys.take(i).contains(keys[i]),
        forall|d: DefId| #[trigger]
            keys.take(i + 1).contains(d) <==> keys.take(i).contains(d) || d == keys[i],
{
    let seen = keys.take(i);
    let now = keys.take(i + 1);
    assert(now =~= seen.push(keys[i]));
    if seen.contains(keys[i]) {
        let j = choose|j: int| 0 <= j < seen.len() && seen[j] == keys[i];
        assert(keys[j] == keys[i]);
    }
    assert forall|d: DefId| #[trigger] now.contains(d) <==> seen.contains(d) || d == keys[i] by {
        if seen.contains(d) {
            let j = choose|j: int| 0 <= j < seen.len() && seen[j] == d;
            assert(now[j] == d);
        }
        assert(now[i] == keys[i]);
    }
}

/// A definition of this crate is found again by its index, has the number of this crate, and no
/// definition of another crate is taken for one.
pub proof fn law_local_definitions(l: LocalDefId, d: DefId)
    ensures
        l.def_id().krate == 0,
        l.def_id().index == l.index,
        l.def_id().local() == Some(l),
        d.krate == 0 ==> (d.local() matches Some(m) && m.def_id() == d),
        d.krate != 0 ==> d.local() is None,
{
}

/// Every sort of definition is either a function, a struct, enum or union, or neither.
pub proof fn law_kinds(kind: DefKind)
    ensures
        kind == DefKind::Fn || kind == DefKind::AssocFn <==> kind.is_fn_spec(),
        kind == DefKind::Struct || kind == DefKind::Enum || kind == DefKind::Union
            <==> kind.is_adt_spec(),
        !(kind.is_fn_spec() && kind.is_adt_spec()),
        kind is Static || kind is Const || kind is AnonConst || kind is Other
            ==> !kind.is_fn_spec() && !kind.is_adt_spec(),
{
}

/// Definitions are in a strict total order, which goes by the index, and by the crate only where
/// that is the same.
pub proof fn law_definition_order(a: DefId, b: DefId, c: DefId)
    ensures
        !a.precedes(a),
        a != b ==> a.precedes(b) || b.precedes(a),
        !(a.precedes(b) && b.precedes(a)),
        a.precedes(b) && b.precedes(c) ==> a.precedes(c),
        a.index < b.index ==> a.precedes(b),
        a.index == b.index && a.krate < b.krate ==> a.precedes(b),
{
}

} // verus!
