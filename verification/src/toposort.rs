//! Topological ordering of an index graph by repeated removal of the nodes
//! that no remaining edge enters.

use vstd::prelude::*;
use crate::dag::{
    edges_in_range, index_model, last_from, lemma_covering_len, lemma_distinct_bounded,
    lemma_distinct_full, lemma_last_from, LinkTable,
};
use crate::model::{fed_from_within, lemma_back_walk};

verus! {

/// The number of edges before `upto` that enter `v` and are not removed.
pub open spec fn live_in(edges: Seq<(usize, usize)>, removed: Seq<bool>, v: usize, upto: int) -> nat
    decreases upto,
{
    if upto <= 0 {
        0
    } else {
        live_in(edges, removed, v, upto - 1) + if edges[upto - 1].1 == v && !removed[upto - 1] {
            1nat
        } else {
            0nat
        }
    }
}

proof fn lemma_live_in_bound(edges: Seq<(usize, usize)>, removed: Seq<bool>, v: usize, upto: int)
    requires
        0 <= upto,
    ensures
        live_in(edges, removed, v, upto) <= upto,
    decreases upto,
{
    if upto > 0 {
        lemma_live_in_bound(edges, removed, v, upto - 1);
    }
}

proof fn lemma_live_in_remove(
    edges: Seq<(usize, usize)>,
    removed: Seq<bool>,
    v: usize,
    upto: int,
    gone: int,
)
    requires
        removed.len() == edges.len(),
        0 <= upto <= edges.len(),
        0 <= gone < edges.len(),
        !removed[gone],
    ensures
        live_in(edges, removed, v, upto) == live_in(edges, removed.update(gone, true), v, upto) + (if gone
            < upto && edges[gone].1 == v {
            1nat
        } else {
            0nat
        }),
    decreases upto,
{
    if upto > 0 {
        lemma_live_in_remove(edges, removed, v, upto - 1, gone);
    }
}

proof fn lemma_live_in_zero(edges: Seq<(usize, usize)>, removed: Seq<bool>, v: usize, upto: int)
    requires
        0 <= upto <= edges.len(),
        live_in(edges, removed, v, upto) == 0,
    ensures
        forall|e: int| 0 <= e < upto && (#[trigger] edges[e]).1 == v ==> removed[e],
    decreases upto,
{
    if upto > 0 {
        lemma_live_in_zero(edges, removed, v, upto - 1);
    }
}

proof fn lemma_live_in_positive(
    edges: Seq<(usize, usize)>,
    removed: Seq<bool>,
    v: usize,
    upto: int,
) -> (e: int)
    requires
        0 <= upto <= edges.len(),
        live_in(edges, removed, v, upto) > 0,
    ensures
        0 <= e < upto,
        edges[e].1 == v,
        !removed[e],
    decreases upto,
{
    if edges[upto - 1].1 == v && !removed[upto - 1] {
        upto - 1
    } else {
        lemma_live_in_positive(edges, removed, v, upto - 1)
    }
}

/// `v` stands among the first `upto` entries of `order`.
pub open spec fn placed(order: Seq<usize>, upto: int, v: usize) -> bool {
    exists|i: int| 0 <= i < upto && #[trigger] order[i] == v
}

/// The nodes that `order` does not hold.
pub open spec fn left_out(n: int, order: Seq<usize>) -> Set<usize> {
    Set::new(|v: usize| v < n && !order.contains(v))
}

proof fn lemma_stuck_cycle(weights: Seq<u64>, edges: Seq<(usize, usize)>, order: Seq<usize>)
    requires
        weights.len() <= usize::MAX,
        order.len() < weights.len(),
        fed_from_within(index_model(weights, edges), left_out(weights.len() as int, order)),
    ensures
        !index_model(weights, edges).acyclic(),
{
    let g = index_model(weights, edges);
    let n = weights.len() as int;
    let stuck = left_out(n, order);
    if forall|v: usize| 0 <= v < n ==> order.contains(v) {
        lemma_covering_len(order, n);
    }
    let v0 = choose|v: usize| 0 <= v < n && !order.contains(v);
    assert(stuck.contains(v0));
    let p = lemma_back_walk(g, stuck, v0, n as nat);
    if g.acyclic() {
        g.lemma_acyclic_chain_distinct(p);
        assert forall|i: int| 0 <= i < p.len() implies 0 <= #[trigger] p[i] < n by {
            assert(stuck.contains(p[i]));
        }
        lemma_distinct_bounded(p, n);
    }
}

/// Orders the nodes so that every edge points forward, as far as that can be
/// done: nodes on a cycle, and nodes behind one, stay out of the result.
/// Among the nodes that are free at one time the lowest index comes first.
pub fn kahn_order(weights: &Vec<u64>, edges: &Vec<(usize, usize)>, table: &LinkTable) -> (order: Vec<
    usize,
>)
    requires
        edges_in_range(weights.len() as int, edges@),
        table.matches(weights.len() as int, edges@),
    ensures
        order.len() <= weights.len(),
        order.len() == weights.len() ==> index_model(weights@, edges@).is_topological_order(order@),
        order.len() < weights.len() ==> !index_model(weights@, edges@).acyclic(),
{
    let n: usize = weights.len();
    let m: usize = edges.len();
    let ghost g = index_model(weights@, edges@);
    let ghost mut removed: Seq<bool> = Seq::new(m as nat, |i: int| false);

    let mut indeg: Vec<usize> = Vec::new();
    let mut v: usize = 0;
    while v < n
        invariant
            v <= n,
            indeg.len() == v,
            forall|x: int| 0 <= x < v ==> indeg[x] == 0,
        decreases n - v,
    {
        indeg.push(0);
        v += 1;
    }
    let mut e: usize = 0;
    while e < m
        invariant
            e <= m,
            m == edges.len(),
            n == weights.len(),
            indeg.len() == n,
            edges_in_range(n as int, edges@),
            removed.len() == m,
            forall|x: int| 0 <= x < m ==> !removed[x],
            forall|x: usize| x < n ==> indeg[x as int] == live_in(edges@, removed, x, e as int),
        decreases m - e,
    {
        let t: usize = edges[e].1;
        proof {
            lemma_live_in_bound(edges@, removed, t, e as int);
        }
        indeg[t] = indeg[t] + 1;
        e += 1;
    }

    let mut order: Vec<usize> = Vec::new();
    v = 0;
    while v < n
        invariant
            v <= n,
            indeg.len() == n,
            removed.len() == m,
            forall|x: int| 0 <= x < m ==> !removed[x],
            forall|x: usize| x < n ==> indeg[x as int] == live_in(edges@, removed, x, m as int),
            order@.no_duplicates(),
            forall|i: int| 0 <= i < order.len() ==> #[trigger] order[i] < v,
            forall|x: usize| x < v && indeg[x as int] == 0 ==> order@.contains(x),
            forall|i: int| 0 <= i < order.len() ==> indeg[#[trigger] order[i] as int] == 0,
        decreases n - v,
    {
        if indeg[v] == 0 {
            let ghost before = order@;
            order.push(v);
            proof {
                assert forall|x: usize| x <= v && indeg[x as int] == 0 implies order@.contains(x) by {
                    if x < v {
                        let i = choose|i: int| 0 <= i < before.len() && before[i] == x;
                        assert(order@[i] == x);
                    } else {
                        assert(order@[before.len() as int] == x);
                    }
                }
            }
        }
        v += 1;
    }

    proof {
        assert forall|x: int, i: int, j: int|
            0 <= x < m && 0 <= i < order.len() && 0 <= j < order.len() && #[trigger] order@[i] == (
            #[trigger] edges@[x]).0 && #[trigger] order@[j] == edges@[x].1 implies i < j by {
            lemma_live_in_zero(edges@, removed, order@[j], m as int);
        }
    }
    let mut qh: usize = 0;
    while qh < order.len()
        invariant
            m == edges.len(),
            n == weights.len(),
            g == index_model(weights@, edges@),
            edges_in_range(n as int, edges@),
            table.matches(n as int, edges@),
            indeg.len() == n,
            removed.len() == m,
            qh <= order.len(),
            order@.no_duplicates(),
            forall|i: int| 0 <= i < order.len() ==> #[trigger] order[i] < n,
            forall|x: usize| x < n ==> indeg[x as int] == live_in(edges@, removed, x, m as int),
            forall|x: usize| x < n ==> (order@.contains(x) <==> indeg[x as int] == 0),
            forall|e: int|
                0 <= e < m ==> (removed[e] <==> placed(order@, qh as int, (#[trigger] edges[e]).0)),
            forall|e: int, i: int, j: int|
                0 <= e < m && 0 <= i < order.len() && 0 <= j < order.len() && #[trigger] order[i] == (
                #[trigger] edges[e]).0 && #[trigger] order[j] == edges[e].1 ==> i < j,
        decreases n - qh,
    {
        proof {
            lemma_distinct_bounded(order@, n as int);
        }
        let u: usize = order[qh];
        let mut cur: Option<usize> = table.head[u];
        let ghost mut bound: int = m as int;
        while cur.is_some()
            invariant
                m == edges.len(),
                n == weights.len(),
                edges_in_range(n as int, edges@),
                table.matches(n as int, edges@),
                indeg.len() == n,
                removed.len() == m,
                qh < order.len(),
                u == order[qh as int],
                u < n,
                order@.no_duplicates(),
                forall|i: int| 0 <= i < order.len() ==> #[trigger] order[i] < n,
                forall|x: usize| x < n ==> indeg[x as int] == live_in(edges@, removed, x, m as int),
                forall|x: usize| x < n ==> (order@.contains(x) <==> indeg[x as int] == 0),
                0 <= bound <= m,
                cur == last_from(edges@, u, bound),
                forall|e: int|
                    0 <= e < m ==> (removed[e] <==> (placed(order@, qh as int, (#[trigger] edges[e]).0)
                        || (edges[e].0 == u && e >= bound))),
                forall|e: int, i: int, j: int|
                    0 <= e < m && 0 <= i < order.len() && 0 <= j < order.len() && #[trigger] order[i]
                        == (#[trigger] edges[e]).0 && #[trigger] order[j] == edges[e].1 ==> i < j,
            decreases bound,
        {
            proof {
                lemma_last_from(edges@, u, bound);
            }
            let e: usize = cur.unwrap();
            let t: usize = edges[e].1;
            let ghost old_removed = removed;
            let ghost old_order = order@;
            proof {
                assert(edges@[e as int].0 == u);
                if placed(order@, qh as int, u) {
                    let i = choose|i: int| 0 <= i < qh && #[trigger] order@[i] == u;
                    assert(order@[i] == order@[qh as int]);
                }
                assert(!removed[e as int]);
                removed = removed.update(e as int, true);
                assert forall|x: usize| x < n implies live_in(edges@, old_removed, x, m as int)
                    == live_in(edges@, removed, x, m as int) + (if edges@[e as int].1 == x {
                    1nat
                } else {
                    0nat
                }) by {
                    lemma_live_in_remove(edges@, old_removed, x, m as int, e as int);
                }
            }
            indeg[t] = indeg[t] - 1;
            if indeg[t] == 0 {
                order.push(t);
                proof {
                    assert(!old_order.contains(t));
                    assert(order@.no_duplicates()) by {
                        assert forall|a: int, b: int|
                            0 <= a < order.len() && 0 <= b < order.len() && a != b implies order@[a]
                            != order@[b] by {
                            if a < old_order.len() && b < old_order.len() {
                                assert(order@[a] == old_order[a] && order@[b] == old_order[b]);
                            } else if a < old_order.len() {
                                assert(old_order.contains(old_order[a]));
                            } else {
                                assert(old_order.contains(old_order[b]));
                            }
                        }
                    }
                    assert forall|x: usize| x < n implies (order@.contains(x) <==> indeg[x as int]
                        == 0) by {
                        if x == t {
                            assert(order@[old_order.len() as int] == t);
                        } else if old_order.contains(x) {
                            let i = choose|i: int| 0 <= i < old_order.len() && old_order[i] == x;
                            assert(order@[i] == x);
                        } else if order@.contains(x) {
                            let i = choose|i: int| 0 <= i < order.len() && order@[i] == x;
                            assert(old_order[i] == x);
                        }
                    }
                }
            }
            proof {
                assert forall|x: int| 0 <= x < m implies (removed[x] <==> (placed(
                    order@,
                    qh as int,
                    (#[trigger] edges@[x]).0,
                ) || (edges@[x].0 == u && x >= e))) by {
                    let s = edges@[x].0;
                    if placed(old_order, qh as int, s) {
                        let i = choose|i: int| 0 <= i < qh && #[trigger] old_order[i] == s;
                        assert(order@[i] == s);
                    }
                    if placed(order@, qh as int, s) {
                        let i = choose|i: int| 0 <= i < qh && #[trigger] order@[i] == s;
                        assert(old_order[i] == s);
                    }
                }
                assert forall|x: int, i: int, j: int|
                    0 <= x < m && 0 <= i < order.len() && 0 <= j < order.len() && #[trigger] order@[i]
                        == (#[trigger] edges@[x]).0 && #[trigger] order@[j] == edges@[x].1 implies i
                    < j by {
                    if i < old_order.len() && j < old_order.len() {
                        assert(old_order[i] == order@[i] && old_order[j] == order@[j]);
                    } else {
                        // the entry just added is `t`, whose incoming edges are all removed
                        let target = edges@[x].1;
                        assert(order@.contains(target));
                        lemma_live_in_zero(edges@, removed, target, m as int);
                        assert(removed[x]);
                        let s = edges@[x].0;
                        if placed(order@, qh as int, s) {
                            let k = choose|k: int| 0 <= k < qh && #[trigger] order@[k] == s;
                            assert(order@[k] == order@[i]);
                        } else {
                            assert(order@[qh as int] == order@[i]);
                        }
                    }
                }
                bound = e as int;
            }
            cur = table.next[e];
        }
        proof {
            lemma_last_from(edges@, u, bound);
            assert forall|x: int| 0 <= x < m implies (removed[x] <==> placed(
                order@,
                qh as int + 1,
                (#[trigger] edges@[x]).0,
            )) by {
                let s = edges@[x].0;
                if placed(order@, qh as int, s) {
                    let i = choose|i: int| 0 <= i < qh && #[trigger] order@[i] == s;
                    assert(0 <= i < qh + 1 && order@[i] == s);
                }
                if s == u {
                    assert(order@[qh as int] == s);
                }
                if placed(order@, qh as int + 1, s) {
                    let i = choose|i: int| 0 <= i < qh + 1 && #[trigger] order@[i] == s;
                    if i < qh {
                        assert(placed(order@, qh as int, s));
                    }
                }
            }
        }
        qh += 1;
    }

    proof {
        lemma_distinct_bounded(order@, n as int);
        if order.len() == n {
            assert forall|a: usize| g.has_node(a) <==> #[trigger] order@.contains(a) by {
                if g.has_node(a) {
                    lemma_distinct_full(order@, n as int, a);
                }
            }
            assert forall|i: int, j: int|
                0 <= i < order.len() && 0 <= j < order.len() && #[trigger] g.has_link(
                    order@[i],
                    order@[j],
                ) implies i < j by {
                assert(edges@.contains((order@[i], order@[j])));
                let x = choose|x: int| 0 <= x < m && edges@[x] == (order@[i], order@[j]);
                assert(order@[i] == edges@[x].0 && order@[j] == edges@[x].1);
            }
        } else {
            let stuck = left_out(n as int, order@);
            assert forall|x: usize| #[trigger] stuck.contains(x) implies g.has_node(x) && exists|
                y: usize,
            |
                stuck.contains(y) && g.has_link(y, x) by {
                let ed = lemma_live_in_positive(edges@, removed, x, m as int);
                let y = edges@[ed].0;
                assert(edges@.contains((y, x)));
                if order@.contains(y) {
                    let i = choose|i: int| 0 <= i < order.len() && order@[i] == y;
                    assert(placed(order@, qh as int, y));
                }
                assert(stuck.contains(y) && g.has_link(y, x));
            }
            lemma_stuck_cycle(weights@, edges@, order@);
        }
    }
    order
}

/// A topological order of the graph, or nothing where the graph has a cycle.
pub fn topological_order(weights: &Vec<u64>, edges: &Vec<(usize, usize)>, table: &LinkTable) -> (found:
    Option<Vec<usize>>)
    requires
        edges_in_range(weights.len() as int, edges@),
        table.matches(weights.len() as int, edges@),
    ensures
        found is Some <==> index_model(weights@, edges@).acyclic(),
        match found {
            Some(order) => index_model(weights@, edges@).is_topological_order(order@),
            None => true,
        },
{
    let order = kahn_order(weights, edges, table);
    if order.len() == weights.len() {
        proof {
            index_model(weights@, edges@).lemma_topological_order_acyclic(order@);
        }
        Some(order)
    } else {
        None
    }
}

} // verus!
