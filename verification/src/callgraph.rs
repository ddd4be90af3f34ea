//! The functions of a crate, in an order in which callees come before their callers.
use crate::def_id::{DefId, DefIdSet, DefKind, LocalDefId};
use crate::graph::{
    adjacency, closed_graph, edge, is_path, law_postorder_reached, law_postorder_successors_first,
    law_search_order,
    lemma_postorder_nodes, lemma_search_append, nodes_of, postorder, reached_from, reaches, search,
    visit_from, Adjacency,
};
use crate::keyed_map::KeyedMap;
use std::collections::{HashMap, HashSet};
use vstd::prelude::*;

verus! {

broadcast use vstd::std_specs::hash::group_hash_axioms;

/// The definition in this crate that an operand refers to by its type.
#[derive(Clone, Copy, Debug, PartialEq, Eq, Structural)]
pub struct CalleeRef {
    pub def_id: DefId,
    pub kind: DefKind,
    /// Whether it is declared in an `extern` block.
    pub is_foreign: bool,
}

/// A definition that has a body.
pub struct BodyOwner {
    pub ldid: LocalDefId,
    pub kind: DefKind,
    /// What each operand of the body refers to, in the order of the body.
    pub operands: Vec<Option<CalleeRef>>,
}

/// The function that an operand may call: one of this crate that has a body here.
pub open spec fn callee_of(operand: Option<CalleeRef>) -> Option<LocalDefId> {
    match operand {
        Some(c) => if !c.is_foreign && c.kind.is_fn_spec() {
            c.def_id.local()
        } else {
            None
        },
        None => None,
    }
}

/// The functions that the operands may call, in the order of the operands.
pub open spec fn callees(operands: Seq<Option<CalleeRef>>) -> Seq<LocalDefId>
    decreases operands.len(),
{
    if operands.len() == 0 {
        Seq::empty()
    } else {
        match callee_of(operands.last()) {
            Some(l) => callees(operands.drop_last()).push(l),
            None => callees(operands.drop_last()),
        }
    }
}

/// The functions that a body with these operands may call.
pub fn for_each_callee(operands: &Vec<Option<CalleeRef>>) -> (r: Vec<LocalDefId>)
    ensures
        r@ == callees(operands@),
{
    let mut r: Vec<LocalDefId> = Vec::new();
    let mut i: usize = 0;
    while i < operands.len()
        invariant
            i <= operands@.len(),
            r@ == callees(operands@.take(i as int)),
        decreases operands@.len() - i,
    {
        assert(operands@.take(i + 1).drop_last() =~= operands@.take(i as int));
        if let Some(c) = operands[i] {
            if let Some(ldid) = c.def_id.as_local() {
                if !c.is_foreign && c.kind.is_fn() {
                    r.push(ldid);
                }
            }
        }
        i += 1;
    }
    assert(operands@.take(i as int) =~= operands@);
    r
}

/// Whether a method of an impl of `implemented_trait` implements `Clone`, where `clone_trait` is
/// the trait `Clone` if the program has it.
pub fn is_impl_clone(clone_trait: Option<DefId>, implemented_trait: Option<DefId>) -> (r: bool)
    ensures
        r == (clone_trait is Some && implemented_trait == clone_trait),
{
    match (clone_trait, implemented_trait) {
        (Some(a), Some(b)) => a == b,
        _ => false,
    }
}

/// The identities of the owners.
pub open spec fn owner_ids(owners: Seq<BodyOwner>) -> Seq<LocalDefId> {
    owners.map_values(|o: BodyOwner| o.ldid)
}

/// The kinds of definition that may have a body.
pub open spec fn has_body_kind(kind: DefKind) -> bool {
    kind.is_fn_spec() || kind is AnonConst || kind is Const || kind is Static
}

/// Whether `l` is a function with a body.
pub open spec fn is_body_fn(owners: Seq<BodyOwner>, l: LocalDefId) -> bool {
    exists|i: int|
        0 <= i < owners.len() && (#[trigger] owners[i]).ldid == l && owners[i].kind.is_fn_spec()
}

/// The bodies of a crate: no two have the same owner, the owners are of the kinds that may have
/// a body, and whatever a function calls is a function with a body.
pub open spec fn owners_wf(owners: Seq<BodyOwner>) -> bool {
    &&& owner_ids(owners).no_duplicates()
    &&& forall|i: int| 0 <= i < owners.len() ==> has_body_kind((#[trigger] owners[i]).kind)
    &&& forall|i: int, k: int|
        #![trigger callees(owners[i].operands@)[k]]
        0 <= i < owners.len() && owners[i].kind.is_fn_spec() && 0 <= k < callees(
            owners[i].operands@,
        ).len() ==> is_body_fn(owners, callees(owners[i].operands@)[k])
}

/// Where `l` stands among the owners.
pub open spec fn position_of(owners: Seq<BodyOwner>, l: LocalDefId) -> usize {
    owner_ids(owners).index_of(l) as usize
}

/// The calls between the owners: each function leads to the functions that it may call.
pub open spec fn calls(owners: Seq<BodyOwner>) -> Adjacency {
    Seq::new(
        owners.len(),
        |i: int|
            if owners[i].kind.is_fn_spec() {
                callees(owners[i].operands@).map_values(|l: LocalDefId| position_of(owners, l))
            } else {
                Seq::empty()
            },
    )
}

/// Whether the search for functions starts at `o`, as it does at every function.
pub open spec fn is_root(o: BodyOwner) -> bool {
    o.kind.is_fn_spec()
}

/// Where the search starts, in the order of the owners.
pub open spec fn root_positions(owners: Seq<BodyOwner>) -> Seq<usize>
    decreases owners.len(),
{
    if owners.len() == 0 {
        Seq::empty()
    } else if is_root(owners.last()) {
        root_positions(owners.drop_last()).push((owners.len() - 1) as usize)
    } else {
        root_positions(owners.drop_last())
    }
}

/// The positions of the functions of the crate in postorder. The roots are visited in the order
/// of the owners, and the callees of a function from the last to the first.
pub open spec fn function_positions(owners: Seq<BodyOwner>) -> Seq<
    usize,
> {
    postorder(calls(owners), root_positions(owners).reverse())
}

/// The functions of the crate in postorder.
pub open spec fn function_order(owners: Seq<BodyOwner>) -> Seq<
    LocalDefId,
> {
    function_positions(owners).map_values(|p: usize| owners[p as int].ldid)
}

proof fn lemma_position(owners: Seq<BodyOwner>, i: int)
    requires
        owner_ids(owners).no_duplicates(),
        owners.len() <= usize::MAX,
        0 <= i < owners.len(),
    ensures
        position_of(owners, owners[i].ldid) == i,
{
    let ids = owner_ids(owners);
    assert(ids[i] == owners[i].ldid);
    assert(ids.contains(ids[i]));
}

/// A function with a body stands among the owners.
proof fn lemma_body_fn(owners: Seq<BodyOwner>, l: LocalDefId)
    requires
        is_body_fn(owners, l),
        owner_ids(owners).no_duplicates(),
        owners.len() <= usize::MAX,
    ensures
        owner_ids(owners).contains(l),
        position_of(owners, l) < owners.len(),
        owners[position_of(owners, l) as int].ldid == l,
        owners[position_of(owners, l) as int].kind.is_fn_spec(),
{
    let i = choose|i: int|
        0 <= i < owners.len() && (#[trigger] owners[i]).ldid == l && owners[i].kind.is_fn_spec();
    assert(owner_ids(owners)[i] == l);
    lemma_position(owners, i);
}

proof fn lemma_calls_closed(owners: Seq<BodyOwner>)
    requires
        owners_wf(owners),
        owners.len() <= usize::MAX,
    ensures
        closed_graph(calls(owners)),
{
    let g = calls(owners);
    assert forall|n: int, k: int|
        #![trigger g[n][k]]
        0 <= n < g.len() && 0 <= k < g[n].len() implies g[n][k] < g.len() by {
        let l = callees(owners[n].operands@)[k];
        assert(is_body_fn(owners, l));
        lemma_body_fn(owners, l);
    }
}

proof fn lemma_roots_bounded(owners: Seq<BodyOwner>, n: nat)
    requires
        owners.len() <= n,
        n <= usize::MAX,
    ensures
        forall|k: int|
            0 <= k < root_positions(owners).len() ==> #[trigger] root_positions(
                owners,
            )[k] < n,
    decreases owners.len(),
{
    if owners.len() > 0 {
        let front = root_positions(owners.drop_last());
        lemma_roots_bounded(owners.drop_last(), n);
        assert forall|k: int|
            0 <= k < root_positions(owners).len() implies #[trigger] root_positions(
            owners,
        )[k] < n by {
            if k < front.len() {
                assert(front[k] < n);
            }
        }
    }
}

/// The adjacency lists of the calls between `owners`.
fn call_lists(owners: &Vec<BodyOwner>) -> (r: Vec<Vec<usize>>)
    requires
        owners_wf(owners@),
    ensures
        adjacency(r@) == calls(owners@),
{
    let mut positions: HashMap<u32, usize> = HashMap::new();
    let mut i: usize = 0;
    while i < owners.len()
        invariant
            i <= owners@.len(),
            owners_wf(owners@),
            forall|k: int|
                0 <= k < i ==> positions@.contains_key((#[trigger] owners@[k]).ldid.index)
                    && positions@[owners@[k].ldid.index] == k,
        decreases owners@.len() - i,
    {
        proof {
            assert forall|k: int| 0 <= k < i implies (#[trigger] owners@[k]).ldid
                != owners@[i as int].ldid by {
                let ids = owner_ids(owners@);
                assert(ids[k] == owners@[k].ldid && ids[i as int] == owners@[i as int].ldid);
            }
        }
        positions.insert(owners[i].ldid.index, i);
        i += 1;
    }
    let mut lists: Vec<Vec<usize>> = Vec::new();
    i = 0;
    while i < owners.len()
        invariant
            i <= owners@.len(),
            owners_wf(owners@),
            forall|k: int|
                0 <= k < owners@.len() ==> positions@.contains_key(
                    (#[trigger] owners@[k]).ldid.index,
                ) && positions@[owners@[k].ldid.index] == k,
            lists@.len() == i,
            forall|k: int| 0 <= k < i ==> (#[trigger] lists@[k])@ == calls(owners@)[k],
        decreases owners@.len() - i,
    {
        let mut list: Vec<usize> = Vec::new();
        if owners[i].kind.is_fn() {
            let found = for_each_callee(&owners[i].operands);
            let ghost goal = calls(owners@)[i as int];
            let mut k: usize = 0;
            while k < found.len()
                invariant
                    i < owners@.len(),
                    owners@.len() <= usize::MAX,
                    owners_wf(owners@),
                    owners@[i as int].kind.is_fn_spec(),
                    found@ == callees(owners@[i as int].operands@),
                    goal == calls(owners@)[i as int],
                    k <= found@.len(),
                    list@ == goal.take(k as int),
                    forall|k: int|
                        0 <= k < owners@.len() ==> positions@.contains_key(
                            (#[trigger] owners@[k]).ldid.index,
                        ) && positions@[owners@[k].ldid.index] == k,
                decreases found@.len() - k,
            {
                let l = found[k];
                proof {
                    assert(callees(owners@[i as int].operands@)[k as int] == l);
                    assert(is_body_fn(owners@, l));
                    lemma_body_fn(owners@, l);
                    let j = position_of(owners@, l) as int;
                    assert(owners@[j].ldid == l);
                    assert(goal[k as int] == j);
                    assert(goal.take(k + 1) =~= goal.take(k as int).push(goal[k as int]));
                }
                match positions.get(&l.index) {
                    Some(p) => list.push(*p),
                    None => {},
                }
                k += 1;
            }
            assert(goal.take(k as int) =~= goal);
        }
        assert(list@ =~= calls(owners@)[i as int]);
        lists.push(list);
        i += 1;
    }
    assert(adjacency(lists@) =~= calls(owners@));
    lists
}

/// The functions with a body in postorder.
fn postorder_of(owners: &Vec<BodyOwner>) -> (r: Vec<LocalDefId>)
    requires
        owners_wf(owners@),
    ensures
        r@ == function_order(owners@),
{
    let g = call_lists(owners);
    let ghost adj = calls(owners@);
    let mut seen: HashSet<usize> = HashSet::new();
    let mut order: Vec<usize> = Vec::new();
    let mut i: usize = 0;
    proof {
        assert(owners.len() == owners@.len());
        assert(adjacency(g@).len() == g@.len());
        lemma_calls_closed(owners@);
        assert(root_positions(owners@.take(0)).reverse() =~= Seq::<usize>::empty());
    }
    while i < owners.len()
        invariant
            i <= owners@.len(),
            owners@.len() <= usize::MAX,
            adj == calls(owners@),
            adjacency(g@) == adj,
            g@.len() == owners@.len(),
            closed_graph(adj),
            (seen@, order@) == search(
                adj,
                root_positions(owners@.take(i as int)).reverse(),
                Set::empty(),
                adj.len(),
            ),
        decreases owners@.len() - i,
    {
        let ghost before = root_positions(owners@.take(i as int));
        assert(owners@.take(i + 1).drop_last() =~= owners@.take(i as int));
        if owners[i].kind.is_fn() {
            visit_from(&g, i, &mut seen, &mut order);
            proof {
                let after = before.push(i);
                assert(after.reverse() =~= seq![i] + before.reverse());
                lemma_roots_bounded(owners@.take(i as int), adj.len());
                lemma_search_append(adj, seq![i], before.reverse(), Set::empty());
            }
        }
        i += 1;
    }
    assert(owners@.take(i as int) =~= owners@);
    let mut r: Vec<LocalDefId> = Vec::new();
    let mut k: usize = 0;
    proof {
        let roots = root_positions(owners@).reverse();
        lemma_roots_bounded(owners@, adj.len());
        lemma_postorder_nodes(adj, roots);
    }
    while k < order.len()
        invariant
            order@ == function_positions(owners@),
            forall|j: int| 0 <= j < order@.len() ==> #[trigger] order@[j] < owners@.len(),
            k <= order@.len(),
            r@ == function_order(owners@).take(k as int),
        decreases order@.len() - k,
    {
        r.push(owners[order[k]].ldid);
        k += 1;
        assert(r@ =~= function_order(owners@).take(k as int));
    }
    assert(r@ =~= function_order(owners@));
    r
}

/// Whether the body of `a` refers to the function `b`.
pub open spec fn refers_to(a: BodyOwner, b: LocalDefId) -> bool {
    a.kind.is_fn_spec() && callees(a.operands@).contains(b)
}

proof fn lemma_root_positions_exact(owners: Seq<BodyOwner>, p: int)
    requires
        owners.len() <= usize::MAX,
    ensures
        root_positions(owners).contains(p as usize) && 0 <= p <= usize::MAX <==> 0 <= p
            < owners.len() && is_root(owners[p]),
    decreases owners.len(),
{
    if owners.len() > 0 {
        let front = owners.drop_last();
        let before = root_positions(front);
        let n = (owners.len() - 1) as usize;
        lemma_root_positions_exact(front, p);
        lemma_roots_bounded(front, front.len());
        if is_root(owners.last()) {
            let all = before.push(n);
            if before.contains(p as usize) {
                let k = choose|k: int| 0 <= k < before.len() && before[k] == p as usize;
                assert(all[k] == p as usize);
            }
            if p == n {
                assert(all[all.len() - 1] == p as usize);
            }
            if all.contains(p as usize) {
                let k = choose|k: int| 0 <= k < all.len() && all[k] == p as usize;
                if k < before.len() {
                    assert(before[k] == p as usize);
                }
            }
        }
        if 0 <= p < front.len() {
            assert(front[p] == owners[p]);
        }
    }
}

/// The function order lists every function of the crate that has a body, each of them once, and
/// nothing else.
pub proof fn law_order_is_complete(owners: Seq<BodyOwner>)
    requires
        owners_wf(owners),
        owners.len() <= usize::MAX,
    ensures
        function_order(owners).no_duplicates(),
        forall|l: LocalDefId| #[trigger]
            function_order(owners).contains(l) <==> is_body_fn(owners, l),
{
    let g = calls(owners);
    let forward = root_positions(owners);
    let roots = forward.reverse();
    let order = function_positions(owners);
    let fns = function_order(owners);
    lemma_calls_closed(owners);
    lemma_roots_bounded(owners, g.len());
    assert(nodes_of(g, roots));
    law_postorder_reached(g, roots);
    lemma_postorder_nodes(g, roots);
    let ids = owner_ids(owners);
    assert forall|i: int, j: int| 0 <= i < j < fns.len() implies fns[i] != fns[j] by {
        assert(order[i] != order[j]);
        assert(ids[order[i] as int] == fns[i] && ids[order[j] as int] == fns[j]);
    }
    assert forall|l: LocalDefId| #[trigger] fns.contains(l) <==> is_body_fn(owners, l) by {
        if fns.contains(l) {
            let k = choose|k: int| 0 <= k < fns.len() && fns[k] == l;
            let p = order[k];
            assert(order.contains(p));
            let q = choose|q: int| 0 <= q < roots.len() && reaches(g, #[trigger] roots[q], p);
            let r = roots[q];
            assert(forward[forward.len() - 1 - q] == r);
            assert(forward.contains(r));
            lemma_root_positions_exact(owners, r as int);
            let path = choose|path: Seq<usize>| is_path(g, path, r, p);
            lemma_path_of_fns(owners, path, path.len() - 1);
            assert(owners[p as int].ldid == l);
        }
        if is_body_fn(owners, l) {
            lemma_body_fn(owners, l);
            let p = position_of(owners, l);
            lemma_root_positions_exact(owners, p as int);
            let q = choose|q: int| 0 <= q < forward.len() && forward[q] == p;
            assert(roots[roots.len() - 1 - q] == p);
            assert(is_path(g, seq![p], p, p));
            assert(reached_from(g, roots, p));
            assert(order.contains(p));
            let k = choose|k: int| 0 <= k < order.len() && order[k] == p;
            assert(fns[k] == l);
        }
    }
}

/// References lead from functions to functions.
proof fn lemma_path_of_fns(owners: Seq<BodyOwner>, path: Seq<usize>, i: int)
    requires
        owners_wf(owners),
        owners.len() <= usize::MAX,
        is_path(calls(owners), path, path.first(), path.last()),
        path[0] < owners.len(),
        owners[path[0] as int].kind.is_fn_spec(),
        0 <= i < path.len(),
    ensures
        path[i] < owners.len(),
        owners[path[i] as int].kind.is_fn_spec(),
    decreases i,
{
    if i > 0 {
        lemma_path_of_fns(owners, path, i - 1);
        let g = calls(owners);
        let a = path[i - 1];
        assert(edge(g, path[i - 1], path[i - 1 + 1]));
        let k = choose|k: int| 0 <= k < g[a as int].len() && g[a as int][k] == path[i];
        let l = callees(owners[a as int].operands@)[k];
        assert(is_body_fn(owners, l));
        lemma_body_fn(owners, l);
    }
}

/// In the function order a function comes after every function that it refers to, unless that
/// function leads back to it.
pub proof fn law_callees_come_first(
    owners: Seq<BodyOwner>,
    a: int,
    b: int,
    i: int,
    j: int,
)
    requires
        owners_wf(owners),
        owners.len() <= usize::MAX,
        0 <= a < owners.len(),
        0 <= b < owners.len(),
        refers_to(owners[a], owners[b].ldid),
        0 <= i < function_order(owners).len(),
        0 <= j < function_order(owners).len(),
        function_order(owners)[i] == owners[a].ldid,
        function_order(owners)[j] == owners[b].ldid,
    ensures
        j < i || reaches(calls(owners), b as usize, a as usize),
{
    let g = calls(owners);
    let roots = root_positions(owners).reverse();
    let order = function_positions(owners);
    lemma_calls_closed(owners);
    lemma_roots_bounded(owners, g.len());
    assert(nodes_of(g, roots));
    lemma_postorder_nodes(g, roots);
    lemma_position(owners, order[i] as int);
    lemma_position(owners, order[j] as int);
    lemma_position(owners, a);
    lemma_position(owners, b);
    assert(order[i] == a && order[j] == b);
    let cs = callees(owners[a].operands@);
    let k = choose|k: int| 0 <= k < cs.len() && cs[k] == owners[b].ldid;
    assert(g[a][k] == b as usize);
    assert(edge(g, order[i], order[j]));
    law_postorder_successors_first(g, roots, i, j);
}

/// The functions whose body refers to `l`.
pub open spec fn callers_of(owners: Seq<BodyOwner>, l: LocalDefId) -> Set<DefId> {
    Set::new(
        |d: DefId|
            exists|a: int|
                0 <= a < owners.len() && refers_to(#[trigger] owners[a], l)
                    && owners[a].ldid.def_id() == d,
    )
}

/// Whether the body of some function refers to `l`.
pub open spec fn is_callee(owners: Seq<BodyOwner>, l: LocalDefId) -> bool {
    exists|a: int| 0 <= a < owners.len() && refers_to(#[trigger] owners[a], l)
}

/// `graph` has exactly the functions whose body refers to it, for each function that some body
/// refers to.
pub open spec fn is_call_graph(owners: Seq<BodyOwner>, graph: Map<LocalDefId, DefIdSet>) -> bool {
    &&& forall|l: LocalDefId| #[trigger] graph.contains_key(l) <==> is_callee(owners, l)
    &&& forall|l: LocalDefId|
        graph.contains_key(l) ==> (#[trigger] graph[l])@ == callers_of(owners, l)
}

/// The call graph: for each function that is referred to, the functions that refer to it.
fn call_graph(owners: &Vec<BodyOwner>) -> (r: KeyedMap<LocalDefId, DefIdSet>)
    ensures
        is_call_graph(owners@, r@),
{
    let mut graph: KeyedMap<LocalDefId, DefIdSet> = KeyedMap::new();
    let mut a: usize = 0;
    while a < owners.len()
        invariant
            a <= owners@.len(),
            is_call_graph(owners@.take(a as int), graph@),
        decreases owners@.len() - a,
    {
        let ghost part = owners@.take(a as int);
        let ghost next = owners@.take(a + 1);
        let caller = owners[a].ldid.to_def_id();
        let ghost found0 = graph@;
        let mut found: Vec<LocalDefId> = Vec::new();
        if owners[a].kind.is_fn() {
            found = for_each_callee(&owners[a].operands);
        }
        let mut k: usize = 0;
        while k < found.len()
            invariant
                k <= found@.len(),
                is_call_graph(part, found0),
                forall|l: LocalDefId| #[trigger]
                    graph@.contains_key(l) <==> found0.contains_key(l) || found@.take(
                        k as int,
                    ).contains(l),
                forall|l: LocalDefId|
                    graph@.contains_key(l) ==> (#[trigger] graph@[l])@ == added_caller(
                        callers_of(part, l),
                        found@.take(k as int).contains(l),
                        caller,
                    ),
            decreases found@.len() - k,
        {
            let ghost before = graph@;
            let ghost seen = found@.take(k as int);
            let l = found[k];
            assert(found@.take(k + 1) =~= seen.push(l));
            let mut set = match graph.insert(l, DefIdSet::new()) {
                Some(set) => set,
                None => DefIdSet::new(),
            };
            set.insert(caller);
            proof {
                if !before.contains_key(l) {
                    lemma_no_callers(part, l);
                }
            }
            graph.insert(l, set);
            proof {
                let now = found@.take(k + 1);
                assert(now[k as int] == l);
                assert forall|m: LocalDefId| now.contains(m) <==> seen.contains(m) || m == l by {
                    if seen.contains(m) {
                        let j = choose|j: int| 0 <= j < seen.len() && seen[j] == m;
                        assert(now[j] == m);
                    }
                }
                assert forall|m: LocalDefId| graph@.contains_key(m) implies (
                #[trigger] graph@[m])@ == added_caller(
                    callers_of(part, m),
                    now.contains(m),
                    caller,
                ) by {
                    assert(graph@[m]@ =~= added_caller(
                        callers_of(part, m),
                        now.contains(m),
                        caller,
                    ));
                }
            }
            k += 1;
        }
        proof {
            assert(found@.take(k as int) =~= found@);
            assert(next =~= part.push(owners@[a as int]));
            assert forall|l: LocalDefId|
                refers_to(owners@[a as int], l) == found@.contains(l) by {}
            assert forall|l: LocalDefId| callers_of(next, l) == #[trigger] added_caller(
                callers_of(part, l),
                found@.contains(l),
                caller,
            ) by {
                lemma_callers_step(owners@, a as int, l);
                assert(callers_of(next, l) =~= added_caller(
                    callers_of(part, l),
                    found@.contains(l),
                    caller,
                ));
            }
            assert forall|l: LocalDefId| #[trigger]
                graph@.contains_key(l) <==> is_callee(next, l) by {
                lemma_callers_step(owners@, a as int, l);
            }
            assert forall|l: LocalDefId| graph@.contains_key(l) implies (#[trigger] graph@[l])@
                == callers_of(next, l) by {}
        }
        a += 1;
    }
    assert(owners@.take(a as int) =~= owners@);
    graph
}

spec fn added_caller(callers: Set<DefId>, refers: bool, caller: DefId) -> Set<DefId> {
    if refers {
        callers.insert(caller)
    } else {
        callers
    }
}

proof fn lemma_no_callers(owners: Seq<BodyOwner>, l: LocalDefId)
    requires
        !is_callee(owners, l),
    ensures
        callers_of(owners, l) == Set::<DefId>::empty(),
{
    assert(callers_of(owners, l) =~= Set::<DefId>::empty());
}

/// What one more owner adds.
proof fn lemma_callers_step(owners: Seq<BodyOwner>, a: int, l: LocalDefId)
    requires
        0 <= a < owners.len(),
    ensures
        is_callee(owners.take(a + 1), l) <==> is_callee(owners.take(a), l) || refers_to(
            owners[a],
            l,
        ),
        forall|d: DefId| #[trigger]
            callers_of(owners.take(a + 1), l).contains(d) <==> callers_of(
                owners.take(a),
                l,
            ).contains(d) || refers_to(owners[a], l) && owners[a].ldid.def_id() == d,
{
    let part = owners.take(a);
    let next = owners.take(a + 1);
    assert(next[a] == owners[a]);
    if is_callee(part, l) {
        let b = choose|b: int| 0 <= b < part.len() && refers_to(#[trigger] part[b], l);
        assert(next[b] == part[b]);
    }
    if is_callee(next, l) {
        let b = choose|b: int| 0 <= b < next.len() && refers_to(#[trigger] next[b], l);
        if b < a {
            assert(part[b] == next[b]);
        }
    }
    assert forall|d: DefId| #[trigger]
        callers_of(next, l).contains(d) <==> callers_of(part, l).contains(d) || refers_to(
            owners[a],
            l,
        ) && owners[a].ldid.def_id() == d by {
        if callers_of(part, l).contains(d) {
            let b = choose|b: int|
                0 <= b < part.len() && refers_to(#[trigger] part[b], l) && part[b].ldid.def_id()
                    == d;
            assert(next[b] == part[b]);
        }
        if callers_of(next, l).contains(d) {
            let b = choose|b: int|
                0 <= b < next.len() && refers_to(#[trigger] next[b], l) && next[b].ldid.def_id()
                    == d;
            if b < a {
                assert(part[b] == next[b]);
            }
        }
    }
}

/// All functions with a body, ordered so that they follow a postorder traversal of the references
/// between bodies; and the call graph, as a map from each function that is referred to, to the
/// functions that refer to it.
pub fn fn_body_owners_postorder(owners: &Vec<BodyOwner>) -> (r: (
    Vec<LocalDefId>,
    KeyedMap<LocalDefId, DefIdSet>,
))
    requires
        owners_wf(owners@),
    ensures
        r.0@ == function_order(owners@),
        forall|i: int|
            0 <= i < owners@.len() && (#[trigger] owners@[i]).kind.is_fn_spec() ==> r.0@.contains(
                owners@[i].ldid,
            ),
        is_call_graph(owners@, r.1@),
{
    let order = postorder_of(owners);
    let graph = call_graph(owners);
    proof {
        assert(owners.len() == owners@.len());
        law_order_is_complete(owners@);
        assert forall|i: int|
            0 <= i < owners@.len() && (#[trigger] owners@[i]).kind.is_fn_spec() implies
            order@.contains(owners@[i].ldid) by {
            assert(is_body_fn(owners@, owners@[i].ldid));
        }
    }
    (order, graph)
}

/// An operand calls a function exactly if it refers to a function or a method of this crate that is
/// not foreign.
pub proof fn law_callees_of_operands(c: CalleeRef)
    ensures
        callee_of(None) is None,
        !c.is_foreign && c.def_id.krate == 0 && (c.kind == DefKind::Fn || c.kind
            == DefKind::AssocFn) ==> callee_of(Some(c)) == Some(
            LocalDefId { index: c.def_id.index },
        ),
        c.is_foreign || c.def_id.krate != 0 || (c.kind != DefKind::Fn && c.kind
            != DefKind::AssocFn) ==> callee_of(Some(c)) is None,
{
}

/// The callees of operands are those of a first part and then those of a second, in order, as often
/// as they are called.
pub proof fn law_callees_in_order(
    a: Seq<Option<CalleeRef>>,
    b: Seq<Option<CalleeRef>>,
    operand: Option<CalleeRef>,
)
    ensures
        callees(a + b) == callees(a) + callees(b),
        callee_of(operand) is None ==> callees(seq![operand]).len() == 0,
        callee_of(operand) matches Some(l) ==> callees(seq![operand]) == seq![l],
    decreases b.len(),
{
    reveal_with_fuel(callees, 2);
    let one = seq![operand];
    assert(one.drop_last() =~= Seq::<Option<CalleeRef>>::empty());
    if let Some(l) = callee_of(operand) {
        assert(callees(one) =~= seq![l]);
    }
    if b.len() == 0 {
        assert(a + b =~= a);
        assert(callees(a) + callees(b) =~= callees(a));
    } else {
        assert((a + b).drop_last() =~= a + b.drop_last());
        law_callees_in_order(a, b.drop_last(), operand);
        assert(callees(a + b) =~= callees(a) + callees(b));
    }
}

/// What may have a body, and what is searched from: functions and methods.
pub proof fn law_kinds_with_bodies(kind: DefKind, o: BodyOwner)
    ensures
        has_body_kind(kind) <==> kind == DefKind::Fn || kind == DefKind::AssocFn || kind
            == DefKind::AnonConst || kind == DefKind::Const || kind == DefKind::Static,
        is_root(o) <==> o.kind == DefKind::Fn || o.kind == DefKind::AssocFn,
{
}

/// A definition refers to a function exactly if it is a function or a method and calls it. The
/// callers of a function are exactly those that refer to it.
pub proof fn law_callers(owners: Seq<BodyOwner>, a: int, l: LocalDefId, d: DefId)
    ensures
        0 <= a < owners.len() ==> (refers_to(owners[a], l) <==> (owners[a].kind == DefKind::Fn
            || owners[a].kind == DefKind::AssocFn) && callees(owners[a].operands@).contains(l)),
        0 <= a < owners.len() && refers_to(owners[a], l) ==> is_callee(owners, l) && callers_of(
            owners,
            l,
        ).contains(DefId { krate: 0, index: owners[a].ldid.index }),
        callers_of(owners, l).contains(d) ==> exists|n: int|
            0 <= n < owners.len() && refers_to(#[trigger] owners[n], l) && owners[n].ldid.def_id()
                == d,
        is_callee(owners, l) ==> exists|n: int|
            0 <= n < owners.len() && refers_to(#[trigger] owners[n], l),
{
    if 0 <= a < owners.len() && refers_to(owners[a], l) {
        assert(is_callee(owners, l));
        assert(callers_of(owners, l).contains(owners[a].ldid.def_id()));
    }
}

/// A call graph has exactly the functions that are called, each with exactly its callers.
pub proof fn law_call_graph(
    owners: Seq<BodyOwner>,
    graph: Map<LocalDefId, DefIdSet>,
    l: LocalDefId,
    d: DefId,
)
    requires
        is_call_graph(owners, graph),
    ensures
        graph.contains_key(l) <==> is_callee(owners, l),
        graph.contains_key(l) ==> (graph[l]@.contains(d) <==> callers_of(owners, l).contains(d)),
{
}

/// The positions to search from are those of the functions and methods, in order.
pub proof fn law_root_positions(owners: Seq<BodyOwner>)
    requires
        owners.len() <= usize::MAX,
    ensures
        forall|i: int|
            0 <= i < owners.len() && is_root(#[trigger] owners[i]) ==> root_positions(
                owners,
            ).contains(i as usize),
        forall|k: int|
            0 <= k < root_positions(owners).len() ==> (#[trigger] root_positions(owners)[k])
                < owners.len() && is_root(owners[root_positions(owners)[k] as int]),
        forall|j: int, k: int|
            0 <= j < k < root_positions(owners).len() ==> (#[trigger] root_positions(owners)[j]) < (
            #[trigger] root_positions(owners)[k]),
    decreases owners.len(),
{
    if owners.len() > 0 {
        let front = owners.drop_last();
        let n = owners.len() - 1;
        law_root_positions(front);
        let roots = root_positions(owners);
        let earlier = root_positions(front);
        assert(owners[n] == owners.last());
        assert forall|k: int| 0 <= k < earlier.len() implies roots[k] == #[trigger] earlier[k] by {}
        assert forall|i: int| 0 <= i < owners.len() && is_root(#[trigger] owners[i]) implies roots
            .contains(i as usize) by {
            if i < n {
                assert(is_root(front[i]));
                let k = choose|k: int| 0 <= k < earlier.len() && earlier[k] == i as usize;
                assert(roots[k] == i as usize);
            } else {
                assert(roots[roots.len() - 1] == i as usize);
            }
        }
        assert forall|k: int| 0 <= k < roots.len() implies (#[trigger] roots[k]) < owners.len()
            && is_root(owners[roots[k] as int]) by {
            if k < earlier.len() {
                assert(earlier[k] < front.len());
                assert(front[earlier[k] as int] == owners[earlier[k] as int]);
            }
        }
        assert forall|j: int, k: int| 0 <= j < k < roots.len() implies (#[trigger] roots[j]) < (
        #[trigger] roots[k]) by {
            if k < earlier.len() {
                assert(earlier[j] < earlier[k]);
            } else {
                assert(earlier[j] < front.len());
            }
        }
    }
}

/// What the first functions lead to comes first, in the order of the functions: all that is found
/// from the first `k` of them stands before all else.
pub proof fn law_earlier_functions_come_first(owners: Seq<BodyOwner>, k: int)
    requires
        owners_wf(owners),
        owners.len() <= usize::MAX,
        0 <= k <= root_positions(owners).len(),
    ensures
        postorder(calls(owners), root_positions(owners).take(k).reverse()).is_prefix_of(
            function_positions(owners),
        ),
{
    let g = calls(owners);
    let roots = root_positions(owners);
    lemma_calls_closed(owners);
    law_root_positions(owners);
    let a = roots.skip(k).reverse();
    let b = roots.take(k).reverse();
    assert(roots.reverse() =~= a + b);
    assert forall|i: int| 0 <= i < a.len() implies #[trigger] a[i] < g.len() by {
        assert(a[i] == roots[roots.len() - 1 - i]);
    }
    assert forall|i: int| 0 <= i < b.len() implies #[trigger] b[i] < g.len() by {
        assert(b[i] == roots[k - 1 - i]);
    }
    law_search_order(g, a, b, Set::empty());
}

/// The graph of calls has a node for each definition with a body, and from a function to each of
/// its callees, in order, an edge.
pub proof fn law_calls(owners: Seq<BodyOwner>, i: int, k: int)
    requires
        0 <= i < owners.len(),
    ensures
        calls(owners).len() == owners.len(),
        !is_root(owners[i]) ==> calls(owners)[i].len() == 0,
        is_root(owners[i]) ==> calls(owners)[i].len() == callees(owners[i].operands@).len(),
        owners_wf(owners) && owners.len() <= usize::MAX && is_root(owners[i]) && 0 <= k < callees(
            owners[i].operands@,
        ).len() ==> calls(owners)[i][k] < owners.len() && owners[calls(owners)[i][k] as int].ldid
            == callees(owners[i].operands@)[k],
{
    if owners_wf(owners) && owners.len() <= usize::MAX && is_root(owners[i]) && 0 <= k < callees(
        owners[i].operands@,
    ).len() {
        let l = callees(owners[i].operands@)[k];
        assert(is_body_fn(owners, l));
        let n = choose|n: int|
            0 <= n < owners.len() && (#[trigger] owners[n]).ldid == l && owners[n].kind.is_fn_spec();
        let ids = owner_ids(owners);
        assert(ids[n] == l);
        let at = ids.index_of(l);
        assert(0 <= at < ids.len() && ids[at] == l);
    }
}

/// Definitions with bodies are in order exactly if none occurs twice, all are of a kind that has a
/// body, and every function that one of the functions calls is among them.
pub proof fn law_owners(owners: Seq<BodyOwner>)
    ensures
        owners_wf(owners) <==> {
            &&& forall|i: int, j: int|
                0 <= i < j < owners.len() ==> (#[trigger] owners[i]).ldid != (
                #[trigger] owners[j]).ldid
            &&& forall|i: int| 0 <= i < owners.len() ==> has_body_kind((#[trigger] owners[i]).kind)
            &&& forall|i: int, k: int|
                #![trigger callees(owners[i].operands@)[k]]
                0 <= i < owners.len() && is_root(owners[i]) && 0 <= k < callees(
                    owners[i].operands@,
                ).len() ==> exists|n: int|
                    0 <= n < owners.len() && (#[trigger] owners[n]).ldid == callees(
                        owners[i].operands@,
                    )[k] && is_root(owners[n])
        },
{
    let ids = owner_ids(owners);
    assert forall|i: int| 0 <= i < owners.len() implies #[trigger] ids[i] == owners[i].ldid by {}
    if ids.no_duplicates() {
        assert forall|i: int, j: int| 0 <= i < j < owners.len() implies (#[trigger] owners[i]).ldid
            != (#[trigger] owners[j]).ldid by {
            assert(ids[i] != ids[j]);
        }
    }
    if forall|i: int, j: int|
        0 <= i < j < owners.len() ==> (#[trigger] owners[i]).ldid != (#[trigger] owners[j]).ldid {
        assert forall|i: int, j: int| 0 <= i < ids.len() && 0 <= j < ids.len() && i
            != j implies ids[i] != ids[j] by {
            if i < j {
                assert(owners[i].ldid != owners[j].ldid);
            } else {
                assert(owners[j].ldid != owners[i].ldid);
            }
        }
    }
    assert forall|i: int, k: int|
        #![trigger callees(owners[i].operands@)[k]]
        0 <= i < owners.len() && 0 <= k < callees(owners[i].operands@).len() implies (is_body_fn(
        owners,
        callees(owners[i].operands@)[k],
    ) <==> exists|n: int|
        0 <= n < owners.len() && (#[trigger] owners[n]).ldid == callees(owners[i].operands@)[k]
            && is_root(owners[n])) by {
        let l = callees(owners[i].operands@)[k];
        if is_body_fn(owners, l) {
            let n = choose|n: int|
                0 <= n < owners.len() && (#[trigger] owners[n]).ldid == l
                    && owners[n].kind.is_fn_spec();
            assert(is_root(owners[n]));
        }
    }
}

} // verus!
