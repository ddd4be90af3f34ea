//! What pointers may point to.
use crate::context::AnalysisCtxtData;
use crate::pointer_id::{has_value, value_of, GlobalPointerTable, LocalPointerTable, PointerId};
use crate::ty::{LTy, LabeledNode};
use vstd::prelude::*;

verus! {

/// The types that a pointer may point to.
pub struct PointeeTypes {
    /// The numbers of the types. Their order says nothing, nor does a number that occurs twice.
    pub ltys: Vec<usize>,
    /// Whether the pointer may point to other types as well.
    pub incomplete: bool,
}

/// The types that a pointer may point to, as a set.
pub struct Pointees {
    pub ltys: Set<usize>,
    pub incomplete: bool,
}

impl View for PointeeTypes {
    type V = Pointees;

    open spec fn view(&self) -> Pointees {
        Pointees { ltys: self.ltys@.to_set(), incomplete: self.incomplete }
    }
}

/// The sets of types in a table.
pub open spec fn pointees(types: Seq<PointeeTypes>) -> Seq<Pointees> {
    Seq::new(types.len(), |i: int| types[i]@)
}

/// The same types, all of them complete.
pub open spec fn completed(types: Seq<Pointees>) -> Seq<Pointees> {
    Seq::new(types.len(), |i: int| Pointees { ltys: types[i].ltys, incomplete: false })
}

/// Nothing is known yet of any pointer.
pub open spec fn no_pointees(n: nat) -> Seq<Pointees> {
    Seq::new(n, |i: int| Pointees { ltys: Set::empty(), incomplete: false })
}

/// Whether `x` occurs in `v`.
fn occurs(v: &Vec<usize>, x: usize) -> (r: bool)
    ensures
        r == v@.contains(x),
{
    let mut i: usize = 0;
    while i < v.len()
        invariant
            i <= v@.len(),
            forall|k: int| 0 <= k < i ==> v@[k] != x,
        decreases v@.len() - i,
    {
        if v[i] == x {
            return true;
        }
        i += 1;
    }
    false
}

/// Whether everything in `a` is in `b`.
fn all_in(a: &Vec<usize>, b: &Vec<usize>) -> (r: bool)
    ensures
        r == a@.to_set().subset_of(b@.to_set()),
{
    let mut i: usize = 0;
    while i < a.len()
        invariant
            i <= a@.len(),
            forall|k: int| 0 <= k < i ==> b@.contains(#[trigger] a@[k]),
        decreases a@.len() - i,
    {
        if !occurs(b, a[i]) {
            assert(a@.to_set().contains(a@[i as int]));
            return false;
        }
        i += 1;
    }
    true
}

impl PointeeTypes {
    /// Whether the two say the same of a pointer.
    pub fn same(&self, other: &PointeeTypes) -> (r: bool)
        ensures
            r == (self@ == other@),
    {
        let r = self.incomplete == other.incomplete && all_in(&self.ltys, &other.ltys) && all_in(
            &other.ltys,
            &self.ltys,
        );
        assert(r ==> self@.ltys =~= other@.ltys);
        r
    }

    /// A copy.
    pub fn duplicate(&self) -> (r: PointeeTypes)
        ensures
            r@ == self@,
    {
        let mut ltys: Vec<usize> = Vec::new();
        let mut i: usize = 0;
        while i < self.ltys.len()
            invariant
                i <= self.ltys@.len(),
                ltys@ == self.ltys@.take(i as int),
            decreases self.ltys@.len() - i,
        {
            ltys.push(self.ltys[i]);
            i += 1;
            assert(self.ltys@.take(i as int) =~= self.ltys@.take(i - 1).push(self.ltys@[i - 1]));
        }
        assert(ltys@ =~= self.ltys@);
        PointeeTypes { ltys, incomplete: self.incomplete }
    }

    /// Whether there is anything to report.
    pub open spec fn is_known(&self) -> bool {
        self.ltys@.len() > 0 || self.incomplete
    }
}

/// A table for `n` pointers of which nothing is known yet.
pub fn unknown_types(n: usize) -> (r: Vec<PointeeTypes>)
    ensures
        pointees(r@) == no_pointees(n as nat),
        r@.len() == n,
{
    let mut types: Vec<PointeeTypes> = Vec::new();
    let mut i: usize = 0;
    while i < n
        invariant
            i <= n,
            types@.len() == i,
            forall|k: int|
                0 <= k < i ==> (#[trigger] types@[k])@ == (Pointees {
                    ltys: Set::empty(),
                    incomplete: false,
                }),
        decreases n - i,
    {
        let t = PointeeTypes { ltys: Vec::new(), incomplete: false };
        assert(t@.ltys =~= Set::empty());
        types.push(t);
        i += 1;
    }
    assert(pointees(types@) =~= no_pointees(n as nat));
    types
}

/// A copy of a table.
pub fn duplicate_types(types: &Vec<PointeeTypes>) -> (r: Vec<PointeeTypes>)
    ensures
        pointees(r@) == pointees(types@),
{
    let mut copy: Vec<PointeeTypes> = Vec::new();
    let mut i: usize = 0;
    while i < types.len()
        invariant
            i <= types@.len(),
            copy@.len() == i,
            forall|k: int| 0 <= k < i ==> (#[trigger] copy@[k])@ == types@[k]@,
        decreases types@.len() - i,
    {
        copy.push(types[i].duplicate());
        i += 1;
    }
    assert(pointees(copy@) =~= pointees(types@));
    copy
}

/// Whether two tables say the same of all pointers.
pub fn same_types(a: &Vec<PointeeTypes>, b: &Vec<PointeeTypes>) -> (r: bool)
    ensures
        r == (pointees(a@) == pointees(b@)),
{
    if a.len() != b.len() {
        assert(pointees(a@).len() != pointees(b@).len());
        return false;
    }
    let mut i: usize = 0;
    while i < a.len()
        invariant
            i <= a@.len(),
            a@.len() == b@.len(),
            forall|k: int| 0 <= k < i ==> (#[trigger] a@[k])@ == b@[k]@,
        decreases a@.len() - i,
    {
        if !a[i].same(&b[i]) {
            assert(pointees(a@)[i as int] != pointees(b@)[i as int]);
            return false;
        }
        i += 1;
    }
    assert(pointees(a@) =~= pointees(b@));
    true
}

/// Marks all types as complete.
pub fn clear_incomplete(types: &mut Vec<PointeeTypes>)
    ensures
        pointees(final(types)@) == completed(pointees(old(types)@)),
{
    let ghost before = types@;
    let mut i: usize = 0;
    while i < types.len()
        invariant
            i <= types@.len(),
            types@.len() == before.len(),
            forall|k: int|
                #![trigger types@[k]]
                0 <= k < i ==> types@[k].ltys == before[k].ltys && !types@[k].incomplete,
            forall|k: int| i <= k < types@.len() ==> #[trigger] types@[k] == before[k],
        decreases types@.len() - i,
    {
        types[i].incomplete = false;
        i += 1;
    }
    assert(pointees(types@) =~= completed(pointees(before)));
}

/// The pointers among the labels, in order.
pub open spec fn present(lty: Seq<LabeledNode<PointerId>>) -> Seq<PointerId>
    decreases lty.len(),
{
    if lty.len() == 0 {
        Seq::empty()
    } else if lty.last().label is Absent {
        present(lty.drop_last())
    } else {
        present(lty.drop_last()).push(lty.last().label)
    }
}

/// The pointer to a local, if there is one, and the pointers of its type.
pub open spec fn pointers_at(acx: AnalysisCtxtData, l: int) -> Seq<PointerId> {
    let addr = acx.addr_of_local@[l];
    if addr is Absent {
        present(acx.local_tys@[l]@)
    } else {
        seq![addr] + present(acx.local_tys@[l]@)
    }
}

/// The pointers that belong to a local: the one to the local itself, and those of its type.
pub fn pointers_of_local(acx: &AnalysisCtxtData, l: usize) -> (r: Vec<PointerId>)
    requires
        l < acx.local_tys@.len(),
        l < acx.addr_of_local@.len(),
    ensures
        r@ == pointers_at(*acx, l as int),
{
    let mut ptrs: Vec<PointerId> = Vec::new();
    let addr = acx.addr_of_local[l];
    if !addr.is_none() {
        ptrs.push(addr);
    }
    let ghost first = ptrs@;
    let lty: &LTy = &acx.local_tys[l];
    let mut k: usize = 0;
    assert(first + present(lty@.take(0)) =~= first);
    while k < lty.nodes.len()
        invariant
            k <= lty@.len(),
            ptrs@ == first + present(lty@.take(k as int)),
        decreases lty@.len() - k,
    {
        let ptr = lty.nodes[k].label;
        assert(lty@.take(k + 1).drop_last() =~= lty@.take(k as int));
        if !ptr.is_none() {
            ptrs.push(ptr);
        }
        k += 1;
        assert(ptrs@ =~= first + present(lty@.take(k as int)));
    }
    proof {
        assert(lty@.take(k as int) =~= lty@);
        assert(ptrs@ =~= pointers_at(*acx, l as int));
    }
    ptrs
}

/// The pointers of which there is something to report, in order.
pub open spec fn known_pointers(
    ptrs: Seq<PointerId>,
    global: Seq<PointeeTypes>,
    local: Seq<PointeeTypes>,
) -> Seq<PointerId>
    decreases ptrs.len(),
{
    if ptrs.len() == 0 {
        Seq::empty()
    } else {
        let earlier = known_pointers(ptrs.drop_last(), global, local);
        if value_of(global, local, ptrs.last()).is_known() {
            earlier.push(ptrs.last())
        } else {
            earlier
        }
    }
}

/// The pointers of a local whose pointee types are reported: those that are known to point to some
/// type, and those whose types are incomplete.
pub fn reported_pointers(
    acx: &AnalysisCtxtData,
    l: usize,
    global: &GlobalPointerTable<PointeeTypes>,
    local: &LocalPointerTable<PointeeTypes>,
) -> (r: Vec<PointerId>)
    requires
        l < acx.local_tys@.len(),
        l < acx.addr_of_local@.len(),
        forall|i: int|
            0 <= i < pointers_at(*acx, l as int).len() ==> has_value(
                global@.len(),
                local@.len(),
                #[trigger] pointers_at(*acx, l as int)[i],
            ),
    ensures
        r@ == known_pointers(pointers_at(*acx, l as int), global@, local@),
{
    let all = pointers_of_local(acx, l);
    let mut known: Vec<PointerId> = Vec::new();
    let mut i: usize = 0;
    while i < all.len()
        invariant
            i <= all@.len(),
            forall|i: int|
                0 <= i < all@.len() ==> has_value(
                    global@.len(),
                    local@.len(),
                    #[trigger] all@[i],
                ),
            known@ == known_pointers(all@.take(i as int), global@, local@),
        decreases all@.len() - i,
    {
        let ptr = all[i];
        assert(has_value(global@.len(), local@.len(), all@[i as int]));
        assert(all@.take(i + 1).drop_last() =~= all@.take(i as int));
        let is_known = match ptr {
            PointerId::Global(p) => global.values[p].ltys.len() > 0 || global.values[p].incomplete,
            PointerId::Local(p) => local.values[p].ltys.len() > 0 || local.values[p].incomplete,
            PointerId::Absent => false,
        };
        if is_known {
            known.push(ptr);
        }
        i += 1;
    }
    assert(all@.take(i as int) =~= all@);
    known
}

/// The types of a pointer are known exactly if there is one, or there may be more.
pub proof fn law_known_types(t: PointeeTypes)
    ensures
        t.ltys@.len() > 0 ==> t.is_known(),
        t.incomplete ==> t.is_known(),
        t.ltys@.len() == 0 && !t.incomplete ==> !t.is_known(),
{
}

/// What pointers may point to is compared by the types, whatever their order, and by whether there
/// may be more. To begin with there are none; completing keeps the types of every pointer, and
/// says that there are no more.
pub proof fn law_pointees(types: Seq<PointeeTypes>, i: int, n: nat, t: usize)
    ensures
        pointees(types).len() == types.len(),
        0 <= i < types.len() ==> (pointees(types)[i].ltys.contains(t) <==> types[i].ltys@.contains(
            t,
        )),
        0 <= i < types.len() ==> pointees(types)[i].incomplete == types[i].incomplete,
        completed(pointees(types)).len() == types.len(),
        0 <= i < types.len() ==> completed(pointees(types))[i].ltys == pointees(types)[i].ltys,
        0 <= i < types.len() ==> !completed(pointees(types))[i].incomplete,
        no_pointees(n).len() == n,
        0 <= i < n ==> !no_pointees(n)[i].ltys.contains(t) && !no_pointees(n)[i].incomplete,
{
}

/// The pointers of a type are those of a first part of its nodes and then those of a second, and
/// at a single node there is one exactly if the label is not absent.
pub proof fn law_present_pointers(
    a: Seq<LabeledNode<PointerId>>,
    b: Seq<LabeledNode<PointerId>>,
    node: LabeledNode<PointerId>,
)
    ensures
        present(a + b) == present(a) + present(b),
        node.label == PointerId::Absent ==> present(seq![node]).len() == 0,
        node.label != PointerId::Absent ==> present(seq![node]) == seq![node.label],
    decreases b.len(),
{
    reveal_with_fuel(present, 2);
    let one = seq![node];
    assert(one.drop_last() =~= Seq::<LabeledNode<PointerId>>::empty());
    assert(node.label != PointerId::Absent ==> present(one) =~= seq![node.label]);
    if b.len() == 0 {
        assert(a + b =~= a);
        assert(present(a) + present(b) =~= present(a));
    } else {
        assert((a + b).drop_last() =~= a + b.drop_last());
        law_present_pointers(a, b.drop_last(), node);
        assert(present(a + b) =~= present(a) + present(b));
    }
}

/// The pointers of a local are the one to itself, and then those of its type.
pub proof fn law_pointers_of_locals(acx: AnalysisCtxtData, l: int)
    ensures
        acx.addr_of_local@[l] != PointerId::Absent ==> pointers_at(acx, l).len() == 1 + present(
            acx.local_tys@[l]@,
        ).len() && pointers_at(acx, l)[0] == acx.addr_of_local@[l] && pointers_at(acx, l).skip(1)
            == present(acx.local_tys@[l]@),
        acx.addr_of_local@[l] == PointerId::Absent ==> pointers_at(acx, l) == present(
            acx.local_tys@[l]@,
        ),
{
    assert(acx.addr_of_local@[l] != PointerId::Absent ==> pointers_at(acx, l).skip(1) =~= present(
        acx.local_tys@[l]@,
    ));
}

/// The pointers of which something is known are those of a first part and then those of a second.
/// A single one is reported exactly if its table has a type for it, or says that there may be more.
pub proof fn law_reported_pointers(
    a: Seq<PointerId>,
    b: Seq<PointerId>,
    global: Seq<PointeeTypes>,
    local: Seq<PointeeTypes>,
    p: usize,
)
    ensures
        known_pointers(a + b, global, local) == known_pointers(a, global, local) + known_pointers(
            b,
            global,
            local,
        ),
        known_pointers(seq![PointerId::Global(p)], global, local) == if global[p as int].ltys@.len()
            > 0 || global[p as int].incomplete {
            seq![PointerId::Global(p)]
        } else {
            Seq::empty()
        },
        known_pointers(seq![PointerId::Local(p)], global, local) == if local[p as int].ltys@.len()
            > 0 || local[p as int].incomplete {
            seq![PointerId::Local(p)]
        } else {
            Seq::empty()
        },
    decreases b.len(),
{
    reveal_with_fuel(known_pointers, 2);
    let g = seq![PointerId::Global(p)];
    let l = seq![PointerId::Local(p)];
    assert(g.drop_last() =~= Seq::<PointerId>::empty());
    assert(l.drop_last() =~= Seq::<PointerId>::empty());
    assert(global[p as int].is_known() ==> known_pointers(g, global, local) =~= g);
    assert(local[p as int].is_known() ==> known_pointers(l, global, local) =~= l);
    if b.len() == 0 {
        assert(a + b =~= a);
        assert(known_pointers(a, global, local) + known_pointers(b, global, local)
            =~= known_pointers(a, global, local));
    } else {
        assert((a + b).drop_last() =~= a + b.drop_last());
        law_reported_pointers(a, b.drop_last(), global, local, p);
        assert(known_pointers(a + b, global, local) =~= known_pointers(a, global, local)
            + known_pointers(b, global, local));
    }
}

} // verus!
