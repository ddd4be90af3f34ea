//! Depth-first postorder of a directed graph given by adjacency lists.
use std::collections::HashSet;
use vstd::prelude::*;
use vstd::set_lib::*;

verus! {

broadcast use vstd::std_specs::hash::group_hash_axioms;

/// The adjacency lists of a graph: node `n` has an edge to each node of `g[n]`, in that order.
pub type Adjacency = Seq<Seq<usize>>;

/// Every edge of `g` ends at a node of `g`.
pub open spec fn closed_graph(g: Adjacency) -> bool {
    forall|n: int, k: int|
        #![trigger g[n][k]]
        0 <= n < g.len() && 0 <= k < g[n].len() ==> g[n][k] < g.len()
}

/// Every entry of `nodes` is a node of `g`.
pub open spec fn nodes_of(g: Adjacency, nodes: Seq<usize>) -> bool {
    forall|k: int| 0 <= k < nodes.len() ==> #[trigger] nodes[k] < g.len()
}

/// `g` has an edge from `a` to `b`.
pub open spec fn edge(g: Adjacency, a: usize, b: usize) -> bool {
    a < g.len() && g[a as int].contains(b)
}

/// `path` follows edges of `g` from `a` to `b`.
pub open spec fn is_path(g: Adjacency, path: Seq<usize>, a: usize, b: usize) -> bool {
    &&& path.len() > 0
    &&& path.first() == a
    &&& path.last() == b
    &&& forall|i: int| 0 <= i < path.len() - 1 ==> edge(g, #[trigger] path[i], path[i + 1])
}

/// `b` can be reached from `a` by zero or more edges of `g`.
pub open spec fn reaches(g: Adjacency, a: usize, b: usize) -> bool {
    exists|path: Seq<usize>| is_path(g, path, a, b)
}

/// `b` can be reached from some entry of `roots`.
pub open spec fn reached_from(g: Adjacency, roots: Seq<usize>, b: usize) -> bool {
    exists|k: int| 0 <= k < roots.len() && reaches(g, #[trigger] roots[k], b)
}

/// The depth-first search of `g` from `nodes`, which are visited from the last to the first:
/// the set of nodes seen at the end, and the nodes that the search leaves, in the order in which
/// it leaves them. Nodes in `seen` are skipped. `depth` bounds how deep the search may go; the
/// number of nodes is always enough.
pub open spec fn search(g: Adjacency, nodes: Seq<usize>, seen: Set<usize>, depth: nat) -> (
    Set<usize>,
    Seq<usize>,
)
    decreases depth, nodes.len(),
{
    if nodes.len() == 0 {
        (seen, Seq::empty())
    } else {
        let n = nodes.last();
        if seen.contains(n) {
            search(g, nodes.drop_last(), seen, depth)
        } else if depth == 0 {
            (seen, Seq::empty())
        } else {
            let below = search(g, g[n as int], seen.insert(n), (depth - 1) as nat);
            let rest = search(g, nodes.drop_last(), below.0, depth);
            (rest.0, below.1.push(n) + rest.1)
        }
    }
}

/// The nodes reached from `roots` in depth-first postorder. Both the roots and the successors of
/// a node are visited from the last to the first.
pub open spec fn postorder(g: Adjacency, roots: Seq<usize>) -> Seq<usize> {
    search(g, roots, Set::empty(), g.len()).1
}

/// The nodes of `g` that are not in `seen`.
spec fn unseen(g: Adjacency, seen: Set<usize>) -> Set<usize> {
    Set::new(|n: usize| n < g.len() && !seen.contains(n))
}

proof fn lemma_unseen_finite(g: Adjacency, seen: Set<usize>)
    requires
        g.len() <= usize::MAX,
    ensures
        unseen(g, seen).finite(),
        unseen(g, seen).len() <= g.len(),
{
    let ints = set_int_range(0, g.len() as int);
    lemma_int_range(0, g.len() as int);
    let all = ints.map(|i: int| i as usize);
    lemma_map_size_bound(ints, all, |i: int| i as usize);
    assert forall|n: usize| unseen(g, seen).contains(n) implies all.contains(n) by {
        assert(ints.contains(n as int));
        assert((n as int) as usize == n);
    }
    assert(unseen(g, seen).subset_of(all));
    lemma_len_subset(unseen(g, seen), all);
}

proof fn lemma_unseen_insert(g: Adjacency, seen: Set<usize>, n: usize)
    requires
        g.len() <= usize::MAX,
        n < g.len(),
        !seen.contains(n),
    ensures
        unseen(g, seen.insert(n)).len() + 1 == unseen(g, seen).len(),
{
    lemma_unseen_finite(g, seen);
    assert(unseen(g, seen.insert(n)) =~= unseen(g, seen).remove(n));
    assert(unseen(g, seen).contains(n));
}

proof fn lemma_unseen_grow(g: Adjacency, seen: Set<usize>, more: Set<usize>)
    requires
        g.len() <= usize::MAX,
        seen.subset_of(more),
    ensures
        unseen(g, more).len() <= unseen(g, seen).len(),
{
    lemma_unseen_finite(g, seen);
    lemma_len_subset(unseen(g, more), unseen(g, seen));
}

/// A search never forgets a node.
proof fn lemma_search_grows(g: Adjacency, nodes: Seq<usize>, seen: Set<usize>, depth: nat)
    ensures
        seen.subset_of(search(g, nodes, seen, depth).0),
    decreases depth, nodes.len(),
{
    if nodes.len() > 0 {
        let n = nodes.last();
        if seen.contains(n) {
            lemma_search_grows(g, nodes.drop_last(), seen, depth);
        } else if depth > 0 {
            let below = search(g, g[n as int], seen.insert(n), (depth - 1) as nat);
            lemma_search_grows(g, g[n as int], seen.insert(n), (depth - 1) as nat);
            lemma_search_grows(g, nodes.drop_last(), below.0, depth);
        }
    }
}

/// Once the depth covers the nodes that are left, a greater depth changes nothing.
proof fn lemma_search_depth(g: Adjacency, nodes: Seq<usize>, seen: Set<usize>, d1: nat, d2: nat)
    requires
        g.len() <= usize::MAX,
        closed_graph(g),
        nodes_of(g, nodes),
        unseen(g, seen).len() <= d1,
        unseen(g, seen).len() <= d2,
    ensures
        search(g, nodes, seen, d1) == search(g, nodes, seen, d2),
    decreases d1, nodes.len(),
{
    if nodes.len() > 0 {
        let n = nodes.last();
        let front = nodes.drop_last();
        if seen.contains(n) {
            lemma_search_depth(g, front, seen, d1, d2);
        } else {
            lemma_unseen_insert(g, seen, n);
            let below = search(g, g[n as int], seen.insert(n), (d1 - 1) as nat);
            lemma_search_depth(
                g,
                g[n as int],
                seen.insert(n),
                (d1 - 1) as nat,
                (d2 - 1) as nat,
            );
            lemma_search_grows(g, g[n as int], seen.insert(n), (d1 - 1) as nat);
            lemma_unseen_grow(g, seen, below.0);
            lemma_search_depth(g, front, below.0, d1, d2);
        }
    }
}

/// The work that a search still has to do.
enum Visit {
    /// Enter a node.
    Pre(usize),
    /// Leave a node, all of whose successors have been entered.
    Post(usize),
}

spec fn visits_of(g: Adjacency, stack: Seq<Visit>) -> bool {
    forall|k: int|
        0 <= k < stack.len() ==> match #[trigger] stack[k] {
            Visit::Pre(n) => n < g.len(),
            Visit::Post(n) => n < g.len(),
        }
}

/// What is left to do when `stack` is worked off from its top.
spec fn unwind(g: Adjacency, stack: Seq<Visit>, seen: Set<usize>) -> (Set<usize>, Seq<usize>)
    decreases stack.len(),
{
    if stack.len() == 0 {
        (seen, Seq::empty())
    } else {
        let front = stack.drop_last();
        match stack.last() {
            Visit::Pre(n) => {
                let here = search(g, seq![n], seen, g.len());
                let rest = unwind(g, front, here.0);
                (rest.0, here.1 + rest.1)
            },
            Visit::Post(n) => {
                let rest = unwind(g, front, seen);
                (rest.0, seq![n] + rest.1)
            },
        }
    }
}

spec fn entries(nodes: Seq<usize>) -> Seq<Visit> {
    nodes.map_values(|n: usize| Visit::Pre(n))
}

/// Searching from a list visits its last node and goes on with the others.
proof fn lemma_search_last(g: Adjacency, nodes: Seq<usize>, seen: Set<usize>)
    requires
        g.len() <= usize::MAX,
        closed_graph(g),
        nodes_of(g, nodes),
        nodes.len() > 0,
    ensures
        ({
            let here = search(g, seq![nodes.last()], seen, g.len());
            let rest = search(g, nodes.drop_last(), here.0, g.len());
            search(g, nodes, seen, g.len()) == (rest.0, here.1 + rest.1)
        }),
{
    let n = nodes.last();
    let one = seq![n];
    let d = g.len();
    assert(one.drop_last() =~= Seq::<usize>::empty());
    if seen.contains(n) {
        assert(search(g, one.drop_last(), seen, d) == (seen, Seq::<usize>::empty()));
        let rest = search(g, nodes.drop_last(), seen, d);
        assert(Seq::<usize>::empty() + rest.1 =~= rest.1);
    } else {
        lemma_unseen_insert(g, seen, n);
        lemma_unseen_finite(g, seen);
        let below = search(g, g[n as int], seen.insert(n), (d - 1) as nat);
        assert(search(g, one.drop_last(), below.0, d) == (below.0, Seq::<usize>::empty()));
        assert(below.1.push(n) + Seq::<usize>::empty() =~= below.1.push(n));
    }
}

/// Entries pushed on a stack are worked off as one search.
proof fn lemma_unwind_entries(
    g: Adjacency,
    stack: Seq<Visit>,
    nodes: Seq<usize>,
    seen: Set<usize>,
)
    requires
        g.len() <= usize::MAX,
        closed_graph(g),
        nodes_of(g, nodes),
    ensures
        ({
            let here = search(g, nodes, seen, g.len());
            let rest = unwind(g, stack, here.0);
            unwind(g, stack + entries(nodes), seen) == (rest.0, here.1 + rest.1)
        }),
    decreases nodes.len(),
{
    if nodes.len() == 0 {
        assert(stack + entries(nodes) =~= stack);
        let rest = unwind(g, stack, seen);
        assert(Seq::<usize>::empty() + rest.1 =~= rest.1);
    } else {
        let n = nodes.last();
        let front = nodes.drop_last();
        let whole = stack + entries(nodes);
        assert(whole.drop_last() =~= stack + entries(front));
        let one = search(g, seq![n], seen, g.len());
        lemma_search_last(g, nodes, seen);
        lemma_unwind_entries(g, stack, front, one.0);
        let mid = search(g, front, one.0, g.len());
        let rest = unwind(g, stack, mid.0);
        assert(one.1 + (mid.1 + rest.1) =~= (one.1 + mid.1) + rest.1);
    }
}

/// Entering a node that has not been seen.
proof fn lemma_unwind_enter(g: Adjacency, front: Seq<Visit>, n: usize, seen: Set<usize>)
    requires
        g.len() <= usize::MAX,
        closed_graph(g),
        n < g.len(),
        !seen.contains(n),
    ensures
        unwind(g, front.push(Visit::Pre(n)), seen) == unwind(
            g,
            front.push(Visit::Post(n)) + entries(g[n as int]),
            seen.insert(n),
        ),
{
    let d = g.len();
    let one = seq![n];
    let before = front.push(Visit::Pre(n));
    let left = front.push(Visit::Post(n));
    assert(before.drop_last() =~= front);
    assert(left.drop_last() =~= front);
    assert(nodes_of(g, g[n as int])) by {
        assert forall|k: int| 0 <= k < g[n as int].len() implies #[trigger] g[n as int][k]
            < g.len() by {}
    }
    lemma_unseen_finite(g, seen);
    lemma_unseen_insert(g, seen, n);
    lemma_search_depth(g, g[n as int], seen.insert(n), (d - 1) as nat, d);
    lemma_unwind_entries(g, left, g[n as int], seen.insert(n));
    let below = search(g, g[n as int], seen.insert(n), d);
    assert(one.drop_last() =~= Seq::<usize>::empty());
    assert(search(g, one.drop_last(), below.0, d) == (below.0, Seq::<usize>::empty()));
    let rest = unwind(g, front, below.0);
    assert(below.1.push(n) + Seq::<usize>::empty() =~= below.1.push(n));
    assert(below.1 + (seq![n] + rest.1) =~= below.1.push(n) + rest.1);
}

proof fn lemma_reaches_self(g: Adjacency, a: usize)
    ensures
        reaches(g, a, a),
{
    assert(is_path(g, seq![a], a, a));
}

proof fn lemma_reaches_step(g: Adjacency, a: usize, b: usize, c: usize)
    requires
        edge(g, a, b),
        reaches(g, b, c),
    ensures
        reaches(g, a, c),
{
    let tail = choose|path: Seq<usize>| is_path(g, path, b, c);
    let path = seq![a] + tail;
    assert forall|i: int| 0 <= i < path.len() - 1 implies edge(g, #[trigger] path[i], path[i + 1]) by {
        if i > 0 {
            assert(edge(g, tail[i - 1], tail[i]));
        }
    }
    assert(path.last() == tail.last());
    assert(is_path(g, path, a, c));
}

/// What the nodes that a search leaves have to do with the nodes that it was given.
spec fn search_facts(
    g: Adjacency,
    nodes: Seq<usize>,
    seen: Set<usize>,
    found: (Set<usize>, Seq<usize>),
) -> bool {
    let order = found.1;
    &&& forall|n: usize| #[trigger] found.0.contains(n) <==> seen.contains(n) || order.contains(n)
    &&& forall|i: int| 0 <= i < order.len() ==> !seen.contains(#[trigger] order[i])
    &&& order.no_duplicates()
    &&& forall|k: int| 0 <= k < nodes.len() ==> found.0.contains(#[trigger] nodes[k])
    &&& forall|i: int| 0 <= i < order.len() ==> reached_from(g, nodes, #[trigger] order[i])
    &&& forall|i: int, c: usize|
        0 <= i < order.len() && #[trigger] edge(g, order[i], c) ==> found.0.contains(c)
    &&& forall|i: int, j: int|
        0 <= i <= j < order.len() && #[trigger] edge(g, order[i], order[j]) ==> reaches(
            g,
            order[j],
            order[i],
        )
}

#[verifier::spinoff_prover]
proof fn lemma_search_facts(g: Adjacency, nodes: Seq<usize>, seen: Set<usize>, depth: nat)
    requires
        g.len() <= usize::MAX,
        closed_graph(g),
        nodes_of(g, nodes),
        unseen(g, seen).len() <= depth,
    ensures
        search_facts(g, nodes, seen, search(g, nodes, seen, depth)),
    decreases depth, nodes.len(),
{
    let found = search(g, nodes, seen, depth);
    if nodes.len() > 0 {
        let n = nodes.last();
        let front = nodes.drop_last();
        assert forall|b: usize| reached_from(g, front, b) implies reached_from(g, nodes, b) by {
            let k = choose|k: int| 0 <= k < front.len() && reaches(g, #[trigger] front[k], b);
            assert(reaches(g, nodes[k], b));
        }
        if seen.contains(n) {
            lemma_search_facts(g, front, seen, depth);
            assert forall|k: int| 0 <= k < nodes.len() implies found.0.contains(#[trigger] nodes[k]) by {
                if k < front.len() {
                    assert(found.0.contains(front[k]));
                }
            }
        } else {
            let succ = g[n as int];
            let below = search(g, succ, seen.insert(n), (depth - 1) as nat);
            let rest = search(g, front, below.0, depth);
            lemma_unseen_insert(g, seen, n);
            assert(nodes_of(g, succ)) by {
                assert forall|k: int| 0 <= k < succ.len() implies #[trigger] succ[k] < g.len() by {
                    assert(g[n as int][k] < g.len());
                }
            }
            lemma_search_facts(g, succ, seen.insert(n), (depth - 1) as nat);
            lemma_search_grows(g, succ, seen.insert(n), (depth - 1) as nat);
            lemma_unseen_grow(g, seen, below.0);
            lemma_search_facts(g, front, below.0, depth);
            lemma_search_split(g, nodes, seen, below, rest);
        }
    }
}

#[verifier::spinoff_prover]
#[verifier::rlimit(40)]
proof fn lemma_search_split(
    g: Adjacency,
    nodes: Seq<usize>,
    seen: Set<usize>,
    below: (Set<usize>, Seq<usize>),
    rest: (Set<usize>, Seq<usize>),
)
    requires
        nodes.len() > 0,
        nodes.last() < g.len(),
        !seen.contains(nodes.last()),
        search_facts(g, g[nodes.last() as int], seen.insert(nodes.last()), below),
        search_facts(g, nodes.drop_last(), below.0, rest),
    ensures
        search_facts(g, nodes, seen, (rest.0, below.1.push(nodes.last()) + rest.1)),
{
    let n = nodes.last();
    let front = nodes.drop_last();
    let succ = g[n as int];
    let a = below.1;
    let b = rest.1;
    let order = a.push(n) + b;
    let m = a.len() as int;
    let found = (rest.0, order);
    assert(order[m] == n);
    assert forall|i: int| 0 <= i < m implies #[trigger] order[i] == a[i] by {}
    assert forall|i: int| m < i < order.len() implies #[trigger] order[i] == b[i - m - 1] by {}
    assert forall|x: usize| order.contains(x) <==> a.contains(x) || x == n || b.contains(x) by {
        if order.contains(x) {
            let i = choose|i: int| 0 <= i < order.len() && order[i] == x;
            if i < m {
                assert(a[i] == x);
            } else if i > m {
                assert(b[i - m - 1] == x);
            }
        }
        if a.contains(x) {
            let i = choose|i: int| 0 <= i < a.len() && a[i] == x;
            assert(order[i] == x);
        }
        if b.contains(x) {
            let i = choose|i: int| 0 <= i < b.len() && b[i] == x;
            assert(order[i + m + 1] == x);
        }
    }
    assert forall|x: usize| #[trigger] found.0.contains(x) <==> seen.contains(x) || order.contains(
        x,
    ) by {
        assert(below.0.contains(x) <==> seen.insert(n).contains(x) || a.contains(x));
        assert(order.contains(x) <==> a.contains(x) || x == n || b.contains(x));
    }
    assert forall|i: int| 0 <= i < order.len() implies !seen.contains(#[trigger] order[i]) by {
        if i > m {
            assert(!below.0.contains(b[i - m - 1]));
            assert(below.0.contains(order[i]) <==> seen.insert(n).contains(order[i]) || a.contains(
                order[i],
            ));
        } else if i < m {
            assert(!seen.insert(n).contains(a[i]));
        }
    }
    assert forall|i: int, j: int| 0 <= i < j < order.len() implies order[i] != order[j] by {
        if j > m {
            let y = b[j - m - 1];
            assert(!below.0.contains(y));
            assert(below.0.contains(y) <==> seen.insert(n).contains(y) || a.contains(y));
            if i < m {
                assert(a.contains(a[i]));
            } else if i > m {
                assert(b[i - m - 1] != y);
            }
        } else if j == m {
            assert(!seen.insert(n).contains(a[i]));
        }
    }
    assert(order.no_duplicates());
    assert forall|k: int| 0 <= k < nodes.len() implies found.0.contains(#[trigger] nodes[k]) by {
        if k < front.len() {
            assert(rest.0.contains(front[k]));
        } else {
            assert(order.contains(n));
        }
    }
    assert forall|i: int| 0 <= i < m implies reaches(g, n, #[trigger] a[i]) by {
        assert(reached_from(g, succ, a[i]));
        let k = choose|k: int| 0 <= k < succ.len() && reaches(g, #[trigger] succ[k], a[i]);
        assert(edge(g, n, succ[k]));
        lemma_reaches_step(g, n, succ[k], a[i]);
    }
    lemma_reaches_self(g, n);
    assert forall|i: int| 0 <= i < order.len() implies reached_from(g, nodes, #[trigger] order[i]) by {
        if i <= m {
            if i < m {
                assert(reaches(g, n, a[i]));
            }
            assert(reaches(g, nodes[nodes.len() - 1], order[i]));
        } else {
            let x = b[i - m - 1];
            assert(reached_from(g, front, x));
            let k = choose|k: int| 0 <= k < front.len() && reaches(g, #[trigger] front[k], x);
            assert(reaches(g, nodes[k], x));
        }
    }
    assert forall|x: usize| below.0.contains(x) implies rest.0.contains(x) by {}
    assert forall|i: int, c: usize|
        0 <= i < order.len() && #[trigger] edge(g, order[i], c) implies found.0.contains(c) by {
        if i < m {
            assert(edge(g, a[i], c));
        } else if i == m {
            let k = choose|k: int| 0 <= k < succ.len() && succ[k] == c;
            assert(below.0.contains(succ[k]));
        } else {
            assert(edge(g, b[i - m - 1], c));
        }
    }
    assert forall|i: int, j: int|
        0 <= i <= j < order.len() && #[trigger] edge(g, order[i], order[j]) implies reaches(
        g,
        order[j],
        order[i],
    ) by {
        let x = order[i];
        let y = order[j];
        if i < m {
            assert(edge(g, a[i], y));
            assert(below.0.contains(y));
            if j < m {
                assert(edge(g, a[i], a[j]));
            } else if j == m {
                assert(reaches(g, n, a[i]));
            } else {
                assert(!below.0.contains(b[j - m - 1]));
            }
        } else if i == m {
            if j > m {
                let k = choose|k: int| 0 <= k < succ.len() && succ[k] == y;
                assert(below.0.contains(succ[k]));
                assert(!below.0.contains(b[j - m - 1]));
            }
        } else {
            assert(edge(g, b[i - m - 1], b[j - m - 1]));
        }
    }
}

/// The postorder of `roots` lists every node that can be reached from them, and no other, once.
pub proof fn law_postorder_reached(g: Adjacency, roots: Seq<usize>)
    requires
        g.len() <= usize::MAX,
        closed_graph(g),
        nodes_of(g, roots),
    ensures
        postorder(g, roots).no_duplicates(),
        forall|n: usize| #[trigger] postorder(g, roots).contains(n) <==> reached_from(g, roots, n),
{
    let order = postorder(g, roots);
    let found = search(g, roots, Set::empty(), g.len());
    lemma_unseen_finite(g, Set::empty());
    lemma_search_facts(g, roots, Set::empty(), g.len());
    assert forall|n: usize| #[trigger] order.contains(n) <==> reached_from(g, roots, n) by {
        if reached_from(g, roots, n) {
            let k = choose|k: int| 0 <= k < roots.len() && reaches(g, #[trigger] roots[k], n);
            let path = choose|path: Seq<usize>| is_path(g, path, roots[k], n);
            assert(found.0.contains(roots[k]));
            lemma_path_found(g, roots, path, path.len() - 1);
        }
        if order.contains(n) {
            let i = choose|i: int| 0 <= i < order.len() && order[i] == n;
            assert(reached_from(g, roots, order[i]));
        }
    }
}

proof fn lemma_path_found(g: Adjacency, roots: Seq<usize>, path: Seq<usize>, i: int)
    requires
        0 <= i < path.len(),
        is_path(g, path, path.first(), path.last()),
        search_facts(g, roots, Set::empty(), search(g, roots, Set::empty(), g.len())),
        search(g, roots, Set::empty(), g.len()).0.contains(path.first()),
    ensures
        postorder(g, roots).contains(path[i]),
    decreases i,
{
    let found = search(g, roots, Set::empty(), g.len());
    if i > 0 {
        lemma_path_found(g, roots, path, i - 1);
        let j = choose|j: int| 0 <= j < found.1.len() && found.1[j] == path[i - 1];
        assert(edge(g, path[i - 1], path[i - 1 + 1]));
        assert(edge(g, found.1[j], path[i]));
    }
    assert(found.0.contains(path[i]));
}

/// A postorder lists nodes of the graph.
pub proof fn lemma_postorder_nodes(g: Adjacency, roots: Seq<usize>)
    requires
        g.len() <= usize::MAX,
        closed_graph(g),
        nodes_of(g, roots),
    ensures
        nodes_of(g, postorder(g, roots)),
{
    lemma_search_nodes(g, roots, Set::empty(), g.len());
}

proof fn lemma_search_nodes(g: Adjacency, nodes: Seq<usize>, seen: Set<usize>, depth: nat)
    requires
        closed_graph(g),
        nodes_of(g, nodes),
    ensures
        nodes_of(g, search(g, nodes, seen, depth).1),
    decreases depth, nodes.len(),
{
    if nodes.len() > 0 {
        let n = nodes.last();
        if seen.contains(n) {
            lemma_search_nodes(g, nodes.drop_last(), seen, depth);
        } else if depth > 0 {
            let below = search(g, g[n as int], seen.insert(n), (depth - 1) as nat);
            lemma_search_nodes(g, g[n as int], seen.insert(n), (depth - 1) as nat);
            lemma_search_nodes(g, nodes.drop_last(), below.0, depth);
        }
    }
}

/// A search from two lists, one after the other, is a search from the lists put together.
pub proof fn lemma_search_append(g: Adjacency, a: Seq<usize>, b: Seq<usize>, seen: Set<usize>)
    requires
        g.len() <= usize::MAX,
        closed_graph(g),
        nodes_of(g, a),
        nodes_of(g, b),
    ensures
        ({
            let first = search(g, b, seen, g.len());
            let second = search(g, a, first.0, g.len());
            search(g, a + b, seen, g.len()) == (second.0, first.1 + second.1)
        }),
    decreases b.len(),
{
    if b.len() == 0 {
        assert(a + b =~= a);
        let second = search(g, a, seen, g.len());
        assert(Seq::<usize>::empty() + second.1 =~= second.1);
    } else {
        let n = b.last();
        let front = b.drop_last();
        assert((a + b).drop_last() =~= a + front);
        assert((a + b).last() == n);
        lemma_search_last(g, b, seen);
        assert(nodes_of(g, a + b)) by {
            assert forall|k: int| 0 <= k < (a + b).len() implies #[trigger] (a + b)[k]
                < g.len() by {
                if k >= a.len() {
                    assert((a + b)[k] == b[k - a.len()]);
                }
            }
        }
        lemma_search_last(g, a + b, seen);
        let one = search(g, seq![n], seen, g.len());
        lemma_search_append(g, a, front, one.0);
        let mid = search(g, front, one.0, g.len());
        let second = search(g, a, mid.0, g.len());
        assert(one.1 + (mid.1 + second.1) =~= (one.1 + mid.1) + second.1);
    }
}

/// In a postorder a node comes after each of its successors, unless the successor leads back to
/// it.
pub proof fn law_postorder_successors_first(g: Adjacency, roots: Seq<usize>, i: int, j: int)
    requires
        g.len() <= usize::MAX,
        closed_graph(g),
        nodes_of(g, roots),
        0 <= i < postorder(g, roots).len(),
        0 <= j < postorder(g, roots).len(),
        edge(g, postorder(g, roots)[i], postorder(g, roots)[j]),
    ensures
        j < i || reaches(g, postorder(g, roots)[j], postorder(g, roots)[i]),
{
    lemma_unseen_finite(g, Set::empty());
    lemma_search_facts(g, roots, Set::empty(), g.len());
}

/// The adjacency lists that `g` holds.
pub open spec fn adjacency(g: Seq<Vec<usize>>) -> Adjacency {
    Seq::new(g.len(), |n: int| g[n]@)
}

/// Visits everything reachable from `root` that is not in `seen`, and appends the nodes to
/// `order` as the search leaves them.
pub fn visit_from(
    g: &Vec<Vec<usize>>,
    root: usize,
    seen: &mut HashSet<usize>,
    order: &mut Vec<usize>,
)
    requires
        closed_graph(adjacency(g@)),
        root < g@.len(),
    ensures
        ({
            let found = search(adjacency(g@), seq![root], old(seen)@, g@.len());
            &&& final(seen)@ == found.0
            &&& final(order)@ == old(order)@ + found.1
        }),
{
    let ghost adj = adjacency(g@);
    let mut stack: Vec<Visit> = Vec::new();
    stack.push(Visit::Pre(root));
    let ghost seen0 = seen@;
    let ghost order0 = order@;
    let ghost goal = search(adj, seq![root], seen0, adj.len());
    proof {
        assert(g.len() == g@.len());
        let s = stack@;
        assert(s.drop_last() =~= Seq::<Visit>::empty());
        assert(unwind(adj, s.drop_last(), goal.0) == (goal.0, Seq::<usize>::empty()));
        assert(goal.1 + Seq::<usize>::empty() =~= goal.1);
        assert(unwind(adj, s, seen0) == goal);
        assert(order0 + goal.1 =~= order@ + unwind(adj, s, seen@).1);
    }
    while stack.len() > 0
        invariant
            adj == adjacency(g@),
            adj.len() == g@.len(),
            adj.len() <= usize::MAX,
            closed_graph(adj),
            visits_of(adj, stack@),
            unwind(adj, stack@, seen@).0 == goal.0,
            order@ + unwind(adj, stack@, seen@).1 == order0 + goal.1,
        decreases unseen(adj, seen@).len(), stack@.len(),
    {
        let visit = stack.pop().unwrap();
        let ghost front = stack@;
        match visit {
            Visit::Pre(n) => {
                assert(front.push(visit).last() == visit);
                assert(front.push(visit).drop_last() =~= front);
                let ghost was = seen@;
                if seen.insert(n) {
                    proof {
                        lemma_unwind_enter(adj, front, n, was);
                        lemma_unseen_insert(adj, was, n);
                        lemma_unseen_finite(adj, was);
                    }
                    stack.push(Visit::Post(n));
                    let ghost base = stack@;
                    let next = &g[n];
                    let mut k: usize = 0;
                    while k < next.len()
                        invariant
                            next@ == adj[n as int],
                            n < adj.len(),
                            adj.len() == g@.len(),
                            closed_graph(adj),
                            k <= next@.len(),
                            visits_of(adj, base),
                            visits_of(adj, stack@),
                            stack@ =~= base + entries(next@.take(k as int)),
                        decreases next@.len() - k,
                    {
                        assert(adj[n as int][k as int] < adj.len());
                        stack.push(Visit::Pre(next[k]));
                        assert(next@.take(k + 1) =~= next@.take(k as int).push(next@[k as int]));
                        k += 1;
                    }
                    assert(next@.take(k as int) =~= adj[n as int]);
                } else {
                    assert(was.insert(n) =~= was);
                    assert(seen@ =~= was);
                    let ghost one = seq![n];
                    assert(one.drop_last() =~= Seq::<usize>::empty());
                    assert(search(adj, one.drop_last(), was, adj.len()) == (
                        was,
                        Seq::<usize>::empty(),
                    ));
                    let ghost rest = unwind(adj, front, was);
                    assert(Seq::<usize>::empty() + rest.1 =~= rest.1);
                }
            },
            Visit::Post(n) => {
                assert(front.push(visit).drop_last() =~= front);
                let ghost rest = unwind(adj, front, seen@);
                let ghost was = order@;
                order.push(n);
                assert(was + (seq![n] + rest.1) =~= order@ + rest.1);
            },
        }
    }
    proof {
        assert(order@ + Seq::<usize>::empty() =~= order@);
    }
}

/// There is a path from every node to itself, and from a node to all that the end of an edge leads
/// to. There is an edge exactly to the nodes in a node's list.
pub proof fn law_reaches(g: Adjacency, a: usize, b: usize, c: usize, k: int)
    ensures
        reaches(g, a, a),
        a < g.len() && 0 <= k < g[a as int].len() ==> edge(g, a, g[a as int][k]),
        edge(g, a, b) ==> a < g.len() && exists|n: int|
            0 <= n < g[a as int].len() && #[trigger] g[a as int][n] == b,
        reaches(g, a, b) && edge(g, b, c) ==> reaches(g, a, c),
{
    lemma_reaches_self(g, a);
    if reaches(g, a, b) && edge(g, b, c) {
        let path = choose|path: Seq<usize>| is_path(g, path, a, b);
        let longer = path.push(c);
        assert forall|i: int| 0 <= i < longer.len() - 1 implies edge(
            g,
            #[trigger] longer[i],
            longer[i + 1],
        ) by {
            assert(longer[i] == path[i]);
            if i + 1 < path.len() {
                assert(longer[i + 1] == path[i + 1]);
            }
        }
        assert(is_path(g, longer, a, c));
    }
}

/// There is a path to nothing else: what a node reaches is in every set that has the node and is
/// left by no edge.
pub proof fn law_reaches_nothing_else(g: Adjacency, a: usize, b: usize, closed: Set<usize>)
    requires
        reaches(g, a, b),
        closed.contains(a),
        forall|m: usize, n: usize| #[trigger] edge(g, m, n) && closed.contains(m) ==> closed.contains(n),
    ensures
        closed.contains(b),
{
    let path = choose|path: Seq<usize>| is_path(g, path, a, b);
    lemma_path_stays(g, path, closed, path.len() - 1);
}

proof fn lemma_path_stays(g: Adjacency, path: Seq<usize>, closed: Set<usize>, i: int)
    requires
        0 <= i < path.len(),
        closed.contains(path[0]),
        forall|k: int| 0 <= k < path.len() - 1 ==> edge(g, #[trigger] path[k], path[k + 1]),
        forall|m: usize, n: usize| #[trigger] edge(g, m, n) && closed.contains(m) ==> closed.contains(n),
    ensures
        closed.contains(path[i]),
    decreases i,
{
    if i > 0 {
        lemma_path_stays(g, path, closed, i - 1);
        assert(edge(g, path[i - 1], path[i - 1 + 1]));
    }
}

/// A search that comes by a node for the first time searches what it leads to, and then puts the
/// node itself. It passes over a node that it has seen.
pub proof fn law_search_of_one(g: Adjacency, n: usize, seen: Set<usize>, depth: nat)
    ensures
        seen.contains(n) ==> search(g, seq![n], seen, depth) == (seen, Seq::<usize>::empty()),
        !seen.contains(n) && depth > 0 ==> ({
            let below = search(g, g[n as int], seen.insert(n), (depth - 1) as nat);
            search(g, seq![n], seen, depth) == (below.0, below.1.push(n))
        }),
        search(g, Seq::empty(), seen, depth) == (seen, Seq::<usize>::empty()),
{
    reveal_with_fuel(search, 2);
    let one = seq![n];
    assert(one.drop_last() =~= Seq::<usize>::empty());
    if !seen.contains(n) && depth > 0 {
        let below = search(g, g[n as int], seen.insert(n), (depth - 1) as nat);
        assert(search(g, one, seen, depth).1 =~= below.1.push(n));
    }
}

/// The last of several nodes is searched first: what the others lead to comes after all that it
/// leads to.
pub proof fn law_search_order(g: Adjacency, a: Seq<usize>, b: Seq<usize>, seen: Set<usize>)
    requires
        g.len() <= usize::MAX,
        closed_graph(g),
        nodes_of(g, a),
        nodes_of(g, b),
    ensures
        ({
            let first = search(g, b, seen, g.len());
            let second = search(g, a, first.0, g.len());
            &&& search(g, a + b, seen, g.len()).0 == second.0
            &&& search(g, a + b, seen, g.len()).1 == first.1 + second.1
        }),
        postorder(g, b).is_prefix_of(postorder(g, a + b)),
{
    lemma_search_append(g, a, b, seen);
    lemma_search_append(g, a, b, Set::empty());
    let first = search(g, b, Set::empty(), g.len());
    let second = search(g, a, first.0, g.len());
    assert(first.1.is_prefix_of(first.1 + second.1));
}

/// The lists of a graph are taken over as they are, and it is closed exactly if no list has a node
/// that there is not.
pub proof fn law_adjacency(g: Seq<Vec<usize>>, n: int, k: int)
    ensures
        adjacency(g).len() == g.len(),
        0 <= n < g.len() ==> adjacency(g)[n] == g[n]@,
        closed_graph(adjacency(g)) && 0 <= n < g.len() && 0 <= k < g[n]@.len() ==> g[n]@[k]
            < g.len(),
{
    if closed_graph(adjacency(g)) && 0 <= n < g.len() && 0 <= k < g[n]@.len() {
        assert(adjacency(g)[n][k] == g[n]@[k]);
    }
}

} // verus!
