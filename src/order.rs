//! Paths, cycles and topological orders over a directed graph whose edges are
//! given as pairs of node indices, and the sort that petgraph provides.
use vstd::prelude::*;

verus! {

/// Whether some edge goes from `a` to `b`.
pub open spec fn has_edge(es: Seq<(usize, usize)>, a: int, b: int) -> bool {
    exists|k: int| 0 <= k < es.len() && (#[trigger] es[k]).0 == a && es[k].1 == b
}

/// Whether `p` is a walk of at least one step along the relation `rel`.
pub open spec fn is_walk(rel: spec_fn(int, int) -> bool, p: Seq<int>) -> bool {
    p.len() >= 2 && forall|i: int| 0 <= i < p.len() - 1 ==> #[trigger] rel(p[i], p[i + 1])
}

/// Whether some walk along `rel` leads from `c` back to `c`.
pub open spec fn on_cycle(rel: spec_fn(int, int) -> bool, c: int) -> bool {
    exists|p: Seq<int>| #[trigger] is_walk(rel, p) && p[0] == c && p.last() == c
}

/// Whether no node lies on a cycle of `rel`.
pub open spec fn acyclic(rel: spec_fn(int, int) -> bool) -> bool {
    forall|c: int| !#[trigger] on_cycle(rel, c)
}

pub open spec fn edge_rel(es: Seq<(usize, usize)>) -> spec_fn(int, int) -> bool {
    |a: int, b: int| has_edge(es, a, b)
}

/// Whether `order` lists each of the nodes `0..n` exactly once.
pub open spec fn is_permutation(n: nat, order: Seq<usize>) -> bool {
    &&& order.len() == n
    &&& forall|i: int| 0 <= i < order.len() ==> (#[trigger] order[i]) < n
    &&& forall|i: int, j: int| 0 <= i < j < order.len() ==> order[i] != order[j]
    &&& forall|x: int| 0 <= x < n ==> #[trigger] listed(order, x)
}

/// Whether `x` occurs in `order`.
pub open spec fn listed(order: Seq<usize>, x: int) -> bool {
    exists|i: int| 0 <= i < order.len() && order[i] == x
}

/// Whether `order` lists the nodes `0..n` once each, every edge going from an
/// earlier node to a later one.
pub open spec fn is_topo_order(n: nat, es: Seq<(usize, usize)>, order: Seq<usize>) -> bool {
    &&& is_permutation(n, order)
    &&& forall|k: int, i: int, j: int|
        #![trigger es[k], order[i], order[j]]
        0 <= k < es.len() && 0 <= i < order.len() && 0 <= j < order.len() && order[i] == es[k].0
            && order[j] == es[k].1 ==> i < j
}

pub open spec fn edges_in_range(n: nat, es: Seq<(usize, usize)>) -> bool {
    forall|k: int| 0 <= k < es.len() ==> (#[trigger] es[k]).0 < n && es[k].1 < n
}

/// The position of node `x` in `order`.
pub open spec fn position(order: Seq<usize>, x: int) -> int {
    choose|i: int| 0 <= i < order.len() && order[i] == x
}

pub proof fn lemma_walk_rises(n: nat, es: Seq<(usize, usize)>, order: Seq<usize>, p: Seq<int>, m: int)
    requires
        is_topo_order(n, es, order),
        edges_in_range(n, es),
        is_walk(edge_rel(es), p),
        1 <= m < p.len(),
    ensures
        0 <= p[m] < n,
        0 <= position(order, p[0]) < order.len(),
        position(order, p[0]) < position(order, p[m]),
        order[position(order, p[m])] == p[m],
    decreases m,
{
    let rel = edge_rel(es);
    assert(rel(p[m - 1], p[m - 1 + 1]));
    let k = choose|k: int| 0 <= k < es.len() && (#[trigger] es[k]).0 == p[m - 1] && es[k].1 == p[m];
    assert(es[k].0 < n && es[k].1 < n);
    let i = position(order, p[m - 1]);
    let j = position(order, p[m]);
    assert(listed(order, p[m - 1]));
    assert(listed(order, p[m]));
    assert(order[i] == es[k].0 && order[j] == es[k].1);
    if m > 1 {
        lemma_walk_rises(n, es, order, p, m - 1);
    }
}

/// A graph whose nodes have a topological order has no cycle.
pub proof fn lemma_topo_order_acyclic(n: nat, es: Seq<(usize, usize)>, order: Seq<usize>)
    requires
        is_topo_order(n, es, order),
        edges_in_range(n, es),
    ensures
        acyclic(edge_rel(es)),
{
    assert forall|c: int| !#[trigger] on_cycle(edge_rel(es), c) by {
        if on_cycle(edge_rel(es), c) {
            let p = choose|p: Seq<int>| #[trigger] is_walk(edge_rel(es), p) && p[0] == c && p.last() == c;
            lemma_walk_rises(n, es, order, p, p.len() - 1);
        }
    }
}

/// A walk along `small` is a walk along every relation that contains it.
pub proof fn lemma_walk_widen(small: spec_fn(int, int) -> bool, big: spec_fn(int, int) -> bool, p: Seq<int>)
    requires
        is_walk(small, p),
        forall|a: int, b: int| #[trigger] small(a, b) ==> big(a, b),
    ensures
        is_walk(big, p),
{
    assert forall|i: int| 0 <= i < p.len() - 1 implies #[trigger] big(p[i], p[i + 1]) by {
        assert(small(p[i], p[i + 1]));
    }
}

/// Where the edges of `big` missing from `small` all leave nodes that no edge
/// enters, a cycle of `big` is a cycle of `small`.
pub proof fn lemma_cycle_narrow(
    small: spec_fn(int, int) -> bool,
    big: spec_fn(int, int) -> bool,
    c: int,
)
    requires
        on_cycle(big, c),
        forall|a: int, b: int| #[trigger] big(a, b) ==> small(a, b) || forall|x: int| !#[trigger] big(x, a),
    ensures
        on_cycle(small, c),
{
    let p = choose|p: Seq<int>| #[trigger] is_walk(big, p) && p[0] == c && p.last() == c;
    assert forall|i: int| 0 <= i < p.len() - 1 implies #[trigger] small(p[i], p[i + 1]) by {
        assert(big(p[i], p[i + 1]));
        if i == 0 {
            assert(big(p[p.len() - 2], p[p.len() - 2 + 1]));
        } else {
            assert(big(p[i - 1], p[i - 1 + 1]));
        }
    }
    assert(is_walk(small, p));
}

/// Adding node `n` with an edge from `s` and an edge to `f`, and listing it
/// just before `f`, keeps the order topological where `s` comes before `f`.
pub proof fn lemma_topo_insert(n: nat, es: Seq<(usize, usize)>, order: Seq<usize>, p: int, s: usize, f: usize)
    requires
        is_topo_order(n, es, order),
        0 <= p < order.len(),
        order[p] == f,
        exists|i: int| 0 <= i < p && order[i] == s,
        edges_in_range(n, es),
        n <= usize::MAX,
    ensures
        is_topo_order(n + 1, es.push((s, n as usize)).push((n as usize, f)), order.insert(p, n as usize)),
{
    let es2 = es.push((s, n as usize)).push((n as usize, f));
    let o2 = order.insert(p, n as usize);
    let back = |i: int| if i < p { i } else { i - 1 };
    assert forall|i: int| 0 <= i < o2.len() && i != p implies #[trigger] o2[i] == order[back(i)] by {}
    assert(o2[p] == n);
    assert forall|i: int| 0 <= i < o2.len() implies (#[trigger] o2[i]) < n + 1 by {
        if i != p {
            assert(o2[i] == order[back(i)]);
        }
    }
    assert forall|i: int, j: int| 0 <= i < j < o2.len() implies o2[i] != o2[j] by {
        if i == p {
            assert(o2[j] == order[back(j)]);
        } else if j == p {
            assert(o2[i] == order[back(i)]);
        } else {
            assert(o2[i] == order[back(i)]);
            assert(o2[j] == order[back(j)]);
        }
    }
    assert forall|x: int| 0 <= x < n + 1 implies #[trigger] listed(o2, x) by {
        if x == n {
            assert(o2[p] == x);
        } else {
            assert(listed(order, x));
            let i = choose|i: int| 0 <= i < order.len() && order[i] == x;
            if i < p {
                assert(o2[i] == x);
            } else {
                assert(o2[i + 1] == x);
            }
        }
    }
    let si = choose|i: int| 0 <= i < p && order[i] == s;
    assert forall|k: int, i: int, j: int|
        #![trigger es2[k], o2[i], o2[j]]
        0 <= k < es2.len() && 0 <= i < o2.len() && 0 <= j < o2.len() && o2[i] == es2[k].0 && o2[j]
            == es2[k].1 implies i < j by {
        if k < es.len() {
            assert(es2[k] == es[k]);
            assert(es[k].0 < n && es[k].1 < n);
            assert(i != p && j != p);
            assert(order[back(i)] == es[k].0);
            assert(order[back(j)] == es[k].1);
        } else if k == es.len() {
            assert(o2[i] == s);
            assert(o2[j] == n);
            assert(j == p) by {
                if j != p {
                    assert(order[back(j)] == n);
                }
            }
            assert(i != p);
            assert(order[back(i)] == s);
            assert(back(i) == si) by {
                if back(i) != si {
                    if back(i) < si {
                    } else {
                    }
                }
            }
        } else {
            assert(o2[i] == n);
            assert(i == p) by {
                if i != p {
                    assert(order[back(i)] == n);
                }
            }
            assert(j != p);
            assert(order[back(j)] == f);
            assert(back(j) == p) by {
                if back(j) != p {
                    if back(j) < p {
                    } else {
                    }
                }
            }
        }
    }
}

/// Relies on `petgraph::algo::toposort`, run on a graph of `n` nodes with
/// the given edges: either every node in an order where each edge goes
/// forward, or a node that lies on a cycle.
#[verifier::external_body]
pub(crate) fn toposort(n: usize, edges: &Vec<(usize, usize)>) -> (r: Result<Vec<usize>, usize>)
    requires
        edges_in_range(n as nat, edges@),
    ensures
        match r {
            Ok(order) => is_topo_order(n as nat, edges@, order@),
            Err(c) => c < n && on_cycle(edge_rel(edges@), c as int),
        },
{
    let mut g = petgraph::graph::Graph::<(), (), petgraph::Directed, usize>::with_capacity(n, edges.len());
    for _ in 0..n {
        g.add_node(());
    }
    g.extend_with_edges(edges.iter().copied());
    match petgraph::algo::toposort(&g, None) {
        Ok(order) => Ok(order.into_iter().map(|x| x.index()).collect()),
        Err(cycle) => Err(cycle.node_id().index()),
    }
}

} // verus!
