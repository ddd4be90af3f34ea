//! Bit sets that describe pointers.
use vstd::prelude::*;

verus! {

/// What may be done through a pointer.
#[derive(Clone, Copy, Debug, PartialEq, Eq, Structural)]
pub struct PermissionSet {
    pub bits: u16,
}

/// How a pointer is to be treated.
#[derive(Clone, Copy, Debug, PartialEq, Eq, Structural)]
pub struct FlagSet {
    pub bits: u16,
}

/// What is known about a pointer from the place where it occurs.
#[derive(Clone, Copy, Debug, PartialEq, Eq, Structural)]
pub struct PointerInfo {
    pub bits: u16,
}

impl PermissionSet {
    /// The value is read.
    pub const READ: u16 = 0x1;

    /// The value is written.
    pub const WRITE: u16 = 0x2;

    /// No other pointer reaches the value at the same time.
    pub const UNIQUE: u16 = 0x4;

    /// The pointer is moved towards the end of its allocation.
    pub const OFFSET_ADD: u16 = 0x10;

    /// The pointer is moved towards the start of its allocation.
    pub const OFFSET_SUB: u16 = 0x20;

    /// Whether all of `mask` is in the set.
    pub open spec fn has(self, mask: u16) -> bool {
        self.bits & mask == mask
    }

    /// The set together with `mask`.
    pub open spec fn with(self, mask: u16) -> PermissionSet {
        PermissionSet { bits: self.bits | mask }
    }

    /// The set without `mask`.
    pub open spec fn without(self, mask: u16) -> PermissionSet {
        PermissionSet { bits: self.bits & !mask }
    }

    /// The empty set.
    pub fn empty() -> (r: PermissionSet)
        ensures
            r.bits == 0,
    {
        PermissionSet { bits: 0 }
    }

    /// Whether all of `mask` is in the set.
    pub fn contains(self, mask: u16) -> (r: bool)
        ensures
            r == self.has(mask),
    {
        self.bits & mask == mask
    }

    /// Adds `mask`.
    pub fn insert(&mut self, mask: u16)
        ensures
            *final(self) == old(self).with(mask),
    {
        self.bits = self.bits | mask;
    }

    /// Removes `mask`.
    pub fn remove(&mut self, mask: u16)
        ensures
            *final(self) == old(self).without(mask),
    {
        self.bits = self.bits & !mask;
    }
}

impl FlagSet {
    /// The type of the pointer must not be changed.
    pub const FIXED: u16 = 0x2;

    /// Whether all of `mask` is in the set.
    pub open spec fn has(self, mask: u16) -> bool {
        self.bits & mask == mask
    }

    /// The set together with `mask`.
    pub open spec fn with(self, mask: u16) -> FlagSet {
        FlagSet { bits: self.bits | mask }
    }

    /// The empty set.
    pub fn empty() -> (r: FlagSet)
        ensures
            r.bits == 0,
    {
        FlagSet { bits: 0 }
    }

    /// Whether all of `mask` is in the set.
    pub fn contains(self, mask: u16) -> (r: bool)
        ensures
            r == self.has(mask),
    {
        self.bits & mask == mask
    }

    /// Adds `mask`.
    pub fn insert(&mut self, mask: u16)
        ensures
            *final(self) == old(self).with(mask),
    {
        self.bits = self.bits | mask;
    }
}

impl PointerInfo {
    /// The pointer is a reference.
    pub const REF: u16 = 0x1;

    /// The type of the pointer was written down by the user.
    pub const ANNOTATED: u16 = 0x2;

    /// The pointer is not a temporary reference made by the compiler.
    pub const NOT_TEMPORARY_REF: u16 = 0x4;

    /// Whether all of `mask` is in the set.
    pub open spec fn has(self, mask: u16) -> bool {
        self.bits & mask == mask
    }

    /// The set together with `mask`.
    pub open spec fn with(self, mask: u16) -> PointerInfo {
        PointerInfo { bits: self.bits | mask }
    }

    /// The empty set.
    pub fn empty() -> (r: PointerInfo)
        ensures
            r.bits == 0,
    {
        PointerInfo { bits: 0 }
    }

    /// Whether all of `mask` is in the set.
    pub fn contains(self, mask: u16) -> (r: bool)
        ensures
            r == self.has(mask),
    {
        self.bits & mask == mask
    }

    /// Adds `mask`.
    pub fn insert(&mut self, mask: u16)
        ensures
            *final(self) == old(self).with(mask),
    {
        self.bits = self.bits | mask;
    }
}

/// The references whose type is kept: those that the user annotated, and those that the compiler
/// inferred and that are no temporaries.
pub open spec fn is_kept_ref(info: PointerInfo) -> bool {
    &&& info.has(PointerInfo::REF)
    &&& info.has(PointerInfo::ANNOTATED) || info.has(PointerInfo::NOT_TEMPORARY_REF)
}

/// Whether a pointer with this `info` gets the `FIXED` flag from the start.
pub fn should_make_fixed(info: PointerInfo) -> (r: bool)
    ensures
        r == is_kept_ref(info),
{
    // References fall into three groups:
    //
    // 1. annotated by the user (`REF` and `ANNOTATED`);
    // 2. inferred by the compiler and no temporaries (`REF` and `NOT_TEMPORARY_REF`, but not
    //    `ANNOTATED`);
    // 3. temporaries (`REF` alone).
    //
    // The first two groups are fixed.
    info.contains(PointerInfo::REF) && (info.contains(PointerInfo::ANNOTATED) || info.contains(
        PointerInfo::NOT_TEMPORARY_REF,
    ))
}

/// How the permissions of a pointer changed.
#[derive(Clone, Copy, Debug, PartialEq, Eq, Structural)]
pub struct PermissionChange {
    pub added: PermissionSet,
    pub removed: PermissionSet,
    pub kept: PermissionSet,
}

/// The change from `before` to `after`.
pub open spec fn change_between(before: PermissionSet, after: PermissionSet) -> PermissionChange {
    PermissionChange {
        added: after.without(before.bits),
        removed: before.without(after.bits),
        kept: PermissionSet { bits: before.bits & after.bits },
    }
}

/// What was added, removed and kept from `before` to `after`.
pub fn permission_change(before: PermissionSet, after: PermissionSet) -> (r: PermissionChange)
    ensures
        r == change_between(before, after),
{
    PermissionChange {
        added: PermissionSet { bits: after.bits & !before.bits },
        removed: PermissionSet { bits: before.bits & !after.bits },
        kept: PermissionSet { bits: before.bits & after.bits },
    }
}

/// Adding a mask adds all of it, adding it again changes nothing, and what was there stays.
pub proof fn law_flags_with(f: FlagSet, mask: u16, other: u16)
    ensures
        f.with(mask).has(mask),
        f.with(mask).with(mask) == f.with(mask),
        f.has(other) ==> f.with(mask).has(other),
        f.has(mask) ==> f.with(mask) == f,
{
    let b = f.bits;
    assert((b | mask) & mask == mask) by (bit_vector);
    assert((b | mask) | mask == b | mask) by (bit_vector);
    assert(b & other == other ==> (b | mask) & other == other) by (bit_vector);
    assert(b & mask == mask ==> b | mask == b) by (bit_vector);
}

/// As for flags: adding a mask adds all of it, once, and what was there stays.
pub proof fn law_info_with(f: PointerInfo, mask: u16, other: u16)
    ensures
        f.with(mask).has(mask),
        f.with(mask).with(mask) == f.with(mask),
        f.has(other) ==> f.with(mask).has(other),
{
    let b = f.bits;
    assert((b | mask) & mask == mask) by (bit_vector);
    assert((b | mask) | mask == b | mask) by (bit_vector);
    assert(b & other == other ==> (b | mask) & other == other) by (bit_vector);
}

/// A permission change accounts for both sides: what was kept and removed is what there was, and
/// what was kept and added is what there is. Nothing was both added and removed.
pub proof fn law_permission_change(before: PermissionSet, after: PermissionSet)
    ensures
        ({
            let c = change_between(before, after);
            &&& c.kept.bits | c.removed.bits == before.bits
            &&& c.kept.bits | c.added.bits == after.bits
            &&& c.added.bits & c.removed.bits == 0
            &&& before == after <==> c.added.bits == 0 && c.removed.bits == 0
        }),
{
    let b = before.bits;
    let a = after.bits;
    assert((b & a) | (b & !a) == b) by (bit_vector);
    assert((b & a) | (a & !b) == a) by (bit_vector);
    assert((a & !b) & (b & !a) == 0) by (bit_vector);
    assert(a == b <==> a & !b == 0 && b & !a == 0) by (bit_vector);
}

/// How the bits of a set relate to those of a mask.
pub proof fn lemma_mask(b: u16, m: u16)
    by (bit_vector)
    ensures
        b & m == m <==> b | m == b,
        (b | m) & m == m,
        (b | m) & !m == b & !m,
        (b & !m) & m == 0,
        (b & !m) & !m == b & !m,
{
}

/// A set of permissions has a mask exactly if adding the mask would change nothing. Adding puts
/// in all of the mask, removing takes out all of it, and neither touches any other permission.
pub proof fn law_permission_masks(p: PermissionSet, mask: u16)
    ensures
        p.has(mask) <==> p.bits | mask == p.bits,
        p.with(mask).bits & mask == mask,
        p.with(mask).bits & !mask == p.bits & !mask,
        p.without(mask).bits & mask == 0,
        p.without(mask).bits & !mask == p.bits & !mask,
{
    lemma_mask(p.bits, mask);
}

/// A set of flags has a mask exactly if adding the mask would change nothing. Adding puts in all of
/// the mask, and no other flag.
pub proof fn law_flag_masks(f: FlagSet, mask: u16)
    ensures
        f.has(mask) <==> f.bits | mask == f.bits,
        f.with(mask).bits & mask == mask,
        f.with(mask).bits & !mask == f.bits & !mask,
{
    lemma_mask(f.bits, mask);
}

/// What is known about a pointer has a mask exactly if adding the mask would change nothing. Adding
/// puts in all of the mask, and nothing else.
pub proof fn law_info_masks(i: PointerInfo, mask: u16)
    ensures
        i.has(mask) <==> i.bits | mask == i.bits,
        i.with(mask).bits & mask == mask,
        i.with(mask).bits & !mask == i.bits & !mask,
{
    lemma_mask(i.bits, mask);
}

/// No two permissions share a bit, and no two facts about a pointer do.
pub proof fn law_bits_are_separate()
    ensures
        PermissionSet::READ & PermissionSet::WRITE == 0,
        (PermissionSet::READ | PermissionSet::WRITE) & PermissionSet::UNIQUE == 0,
        (PermissionSet::READ | PermissionSet::WRITE | PermissionSet::UNIQUE)
            & PermissionSet::OFFSET_ADD == 0,
        (PermissionSet::READ | PermissionSet::WRITE | PermissionSet::UNIQUE
            | PermissionSet::OFFSET_ADD) & PermissionSet::OFFSET_SUB == 0,
        PointerInfo::REF & PointerInfo::ANNOTATED == 0,
        (PointerInfo::REF | PointerInfo::ANNOTATED) & PointerInfo::NOT_TEMPORARY_REF == 0,
        PermissionSet::READ != 0 && PermissionSet::WRITE != 0 && PermissionSet::UNIQUE != 0,
        PermissionSet::OFFSET_ADD != 0 && PermissionSet::OFFSET_SUB != 0,
        PointerInfo::REF != 0 && PointerInfo::ANNOTATED != 0 && PointerInfo::NOT_TEMPORARY_REF != 0,
        FlagSet::FIXED != 0,
{
    assert(0x1u16 & 0x2 == 0 && (0x1u16 | 0x2) & 0x4 == 0 && (0x1u16 | 0x2 | 0x4) & 0x10 == 0 && (
    0x1u16 | 0x2 | 0x4 | 0x10) & 0x20 == 0) by (bit_vector);
}

/// Of all pointers, exactly two sorts keep their type from the start: references that the user
/// wrote down, whatever else is known of them, and references that are no temporaries. Raw
/// pointers and temporary references do not.
pub proof fn law_kept_refs(info: PointerInfo)
    ensures
        info.bits & PointerInfo::REF == 0 ==> !is_kept_ref(info),
        info.bits & PointerInfo::REF != 0 && info.bits & PointerInfo::ANNOTATED != 0
            ==> is_kept_ref(info),
        info.bits & PointerInfo::REF != 0 && info.bits & PointerInfo::NOT_TEMPORARY_REF != 0
            ==> is_kept_ref(info),
        info.bits & PointerInfo::ANNOTATED == 0 && info.bits & PointerInfo::NOT_TEMPORARY_REF == 0
            ==> !is_kept_ref(info),
{
    let b = info.bits;
    assert((b & 0x1 == 0x1 <==> b & 0x1 != 0) && (b & 0x2 == 0x2 <==> b & 0x2 != 0) && (b & 0x4
        == 0x4 <==> b & 0x4 != 0)) by (bit_vector);
}

/// Each permission is in exactly one part of a change: it was kept, removed, added, or on neither
/// side.
pub proof fn law_change_is_a_partition(before: PermissionSet, after: PermissionSet)
    ensures
        ({
            let c = change_between(before, after);
            &&& c.kept.bits & c.removed.bits == 0
            &&& c.kept.bits & c.added.bits == 0
            &&& c.added.bits & c.removed.bits == 0
            &&& c.kept.bits | c.removed.bits == before.bits
            &&& c.kept.bits | c.added.bits == after.bits
        }),
{
    let b = before.bits;
    let a = after.bits;
    law_permission_change(before, after);
    assert((b & a) & (b & !a) == 0 && (b & a) & (a & !b) == 0) by (bit_vector);
}

/// A set of flags has the flag `FIXED` exactly if the bit is set. Adding the flag sets the bit, and
/// leaves all other bits as they are.
pub proof fn law_fixed_bit(f: FlagSet)
    ensures
        f.has(FlagSet::FIXED) <==> f.bits & FlagSet::FIXED != 0,
        f.with(FlagSet::FIXED).bits & FlagSet::FIXED != 0,
        f.with(FlagSet::FIXED).bits & !FlagSet::FIXED == f.bits & !FlagSet::FIXED,
{
    let b = f.bits;
    assert(b & 0x2 == 0x2 <==> b & 0x2 != 0) by (bit_vector);
    lemma_mask(b, FlagSet::FIXED);
}

} // verus!
