//! Pointers of the program under analysis, and tables with a value for each of them.
use vstd::prelude::*;

verus! {

/// The identity of a pointer that occurs in a type.
#[derive(Clone, Copy, Debug, PartialEq, Eq, Structural)]
pub enum PointerId {
    /// The label of a type that is no pointer.
    Absent,
    /// A pointer that all functions share.
    Global(usize),
    /// A pointer of the function at hand.
    Local(usize),
}

impl PointerId {
    /// Whether this is the label of a type that is no pointer.
    pub fn is_none(self) -> (r: bool)
        ensures
            r == (self is Absent),
    {
        matches!(self, PointerId::Absent)
    }
}

/// A value for every global pointer.
pub struct GlobalPointerTable<T> {
    pub values: Vec<T>,
}

/// A value for every local pointer of one function.
pub struct LocalPointerTable<T> {
    pub values: Vec<T>,
}

/// The value for `ptr` in the tables `global` and `local`.
pub open spec fn value_of<T>(global: Seq<T>, local: Seq<T>, ptr: PointerId) -> T
    recommends
        has_value(global.len(), local.len(), ptr),
{
    match ptr {
        PointerId::Global(i) => global[i as int],
        PointerId::Local(i) => local[i as int],
        PointerId::Absent => arbitrary(),
    }
}

/// Whether tables for `globals` global and `locals` local pointers have a value for `ptr`.
pub open spec fn has_value(globals: nat, locals: nat, ptr: PointerId) -> bool {
    match ptr {
        PointerId::Global(i) => i < globals,
        PointerId::Local(i) => i < locals,
        PointerId::Absent => false,
    }
}

/// Whether `ptr` is no pointer, or one that tables of this size have a value for.
pub open spec fn is_label(globals: nat, locals: nat, ptr: PointerId) -> bool {
    ptr is Absent || has_value(globals, locals, ptr)
}

impl<T> View for GlobalPointerTable<T> {
    type V = Seq<T>;

    open spec fn view(&self) -> Seq<T> {
        self.values@
    }
}

impl<T> View for LocalPointerTable<T> {
    type V = Seq<T>;

    open spec fn view(&self) -> Seq<T> {
        self.values@
    }
}

impl<T: Copy> GlobalPointerTable<T> {
    /// A table for `n` pointers, all with the value `x`.
    pub fn filled(n: usize, x: T) -> (r: GlobalPointerTable<T>)
        ensures
            r@ == Seq::new(n as nat, |i: int| x),
    {
        GlobalPointerTable { values: repeated(n, x) }
    }
}

impl<T: Copy> LocalPointerTable<T> {
    /// A table for `n` pointers, all with the value `x`.
    pub fn filled(n: usize, x: T) -> (r: LocalPointerTable<T>)
        ensures
            r@ == Seq::new(n as nat, |i: int| x),
    {
        LocalPointerTable { values: repeated(n, x) }
    }
}

/// `n` copies of `x`.
fn repeated<T: Copy>(n: usize, x: T) -> (r: Vec<T>)
    ensures
        r@ == Seq::new(n as nat, |i: int| x),
{
    let mut values: Vec<T> = Vec::new();
    let mut i: usize = 0;
    while i < n
        invariant
            i <= n,
            values@ == Seq::new(i as nat, |i: int| x),
        decreases n - i,
    {
        values.push(x);
        i += 1;
    }
    values
}

/// The value for `ptr` in the two tables.
pub fn lookup<T: Copy>(
    global: &GlobalPointerTable<T>,
    local: &LocalPointerTable<T>,
    ptr: PointerId,
) -> (r: T)
    requires
        has_value(global@.len(), local@.len(), ptr),
    ensures
        r == value_of(global@, local@, ptr),
{
    match ptr {
        PointerId::Global(i) => global.values[i],
        PointerId::Local(i) => local.values[i],
        PointerId::Absent => {
            proof {
                assert(false);
            }
            global.values[0]
        },
    }
}

/// A table has a value for exactly the pointers of its own sort that are within it, and what is put
/// in for one pointer is found for that pointer and for no other.
pub proof fn law_tables<T>(global: Seq<T>, local: Seq<T>, i: usize, j: usize, x: T)
    ensures
        has_value(global.len(), local.len(), PointerId::Global(i)) <==> i < global.len(),
        has_value(global.len(), local.len(), PointerId::Local(i)) <==> i < local.len(),
        !has_value(global.len(), local.len(), PointerId::Absent),
        is_label(global.len(), local.len(), PointerId::Absent),
        is_label(global.len(), local.len(), PointerId::Global(i)) <==> i < global.len(),
        is_label(global.len(), local.len(), PointerId::Local(i)) <==> i < local.len(),
        i < global.len() ==> value_of(global.update(i as int, x), local, PointerId::Global(i)) == x,
        i < local.len() ==> value_of(global, local.update(i as int, x), PointerId::Local(i)) == x,
        i < global.len() && j < global.len() && i != j ==> value_of(
            global.update(i as int, x),
            local,
            PointerId::Global(j),
        ) == value_of(global, local, PointerId::Global(j)),
        i < local.len() && j < global.len() ==> value_of(
            global,
            local.update(i as int, x),
            PointerId::Global(j),
        ) == global[j as int],
        i < global.len() && j < local.len() ==> value_of(
            global.update(i as int, x),
            local,
            PointerId::Local(j),
        ) == local[j as int],
{
}

} // verus!
