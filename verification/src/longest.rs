//! The heaviest chain of an index graph, by dynamic programming along a
//! topological order.

use vstd::prelude::*;
use crate::dag::{
    edges_in_range, index_model, last_from, lemma_covering_len, lemma_distinct_bounded,
    lemma_last_from, LinkTable,
};

verus! {

/// The edge `e` cannot raise the best weight known for its target.
pub open spec fn relaxed(weights: Seq<u64>, edges: Seq<(usize, usize)>, best: Seq<u128>, e: int) -> bool {
    best[edges[e].0 as int] + weights[edges[e].1 as int] <= best[edges[e].1 as int]
}

proof fn lemma_relaxed_bounds_chain(
    weights: Seq<u64>,
    edges: Seq<(usize, usize)>,
    best: Seq<u128>,
    q: Seq<usize>,
)
    requires
        best.len() == weights.len(),
        forall|v: int| 0 <= v < weights.len() ==> #[trigger] best[v] >= weights[v],
        forall|e: int| 0 <= e < edges.len() ==> #[trigger] relaxed(weights, edges, best, e),
        index_model(weights, edges).is_chain(q),
    ensures
        index_model(weights, edges).chain_weight(q) <= best[q.last() as int],
    decreases q.len(),
{
    let g = index_model(weights, edges);
    assert(g.has_node(q.last()));
    if q.len() == 1 {
        assert(q.drop_last() =~= Seq::<usize>::empty());
        assert(g.chain_weight(q.drop_last()) == 0);
    } else {
        let r = q.drop_last();
        g.lemma_chain_prefix(q, q.len() - 1);
        assert(q.take(q.len() - 1) =~= r);
        lemma_relaxed_bounds_chain(weights, edges, best, r);
        let i = q.len() - 2;
        assert(g.has_link(q[i], q[i + 1]));
        assert(edges.contains((q[i], q[i + 1])));
        let e = choose|e: int| 0 <= e < edges.len() && edges[e] == (q[i], q[i + 1]);
        assert(relaxed(weights, edges, best, e));
        assert(r.last() == q[i]);
    }
}

/// The place of every node in `order`.
fn ranks(n: usize, order: &Vec<usize>) -> (pos: Vec<usize>)
    requires
        order.len() == n,
        order@.no_duplicates(),
        forall|i: int| 0 <= i < n ==> #[trigger] order[i] < n,
        forall|v: usize| v < n ==> order@.contains(v),
    ensures
        pos.len() == n,
        forall|v: int| 0 <= v < n ==> #[trigger] pos[v] < n && order[pos[v] as int] == v,
        forall|i: int| 0 <= i < n ==> pos[#[trigger] order[i] as int] == i,
{
    let mut pos: Vec<usize> = Vec::new();
    let mut v: usize = 0;
    while v < n
        invariant
            v <= n,
            pos.len() == v,
        decreases n - v,
    {
        pos.push(0);
        v += 1;
    }
    let mut i: usize = 0;
    while i < n
        invariant
            i <= n,
            order.len() == n,
            pos.len() == n,
            order@.no_duplicates(),
            forall|j: int| 0 <= j < n ==> #[trigger] order[j] < n,
            forall|j: int| 0 <= j < i ==> pos[#[trigger] order[j] as int] == j,
        decreases n - i,
    {
        pos[order[i]] = i;
        i += 1;
    }
    proof {
        assert forall|v: int| 0 <= v < n implies #[trigger] pos[v] < n && order[pos[v] as int] == v by {
            assert(order@.contains(v as usize));
            let j = choose|j: int| 0 <= j < order.len() && order@[j] == v as usize;
            assert(pos[order[j] as int] == j);
        }
    }
    pos
}

/// A chain of the greatest total weight; empty where there is no node. Where
/// several nodes end chains of that weight the lowest index is taken.
pub fn longest_chain(
    weights: &Vec<u64>,
    edges: &Vec<(usize, usize)>,
    table: &LinkTable,
    order: &Vec<usize>,
) -> (path: Vec<usize>)
    requires
        edges_in_range(weights.len() as int, edges@),
        table.matches(weights.len() as int, edges@),
        index_model(weights@, edges@).is_topological_order(order@),
    ensures
        index_model(weights@, edges@).is_critical_path(path@),
{
    let n: usize = weights.len();
    let m: usize = edges.len();
    let ghost g = index_model(weights@, edges@);
    let ghost cap: int = 0xFFFF_FFFF_FFFF_FFFF;
    if n == 0 {
        return Vec::new();
    }
    proof {
        assert(g.has_node(0usize));
        assert forall|i: int| 0 <= i < order.len() implies 0 <= #[trigger] order[i] < n by {
            assert(order@.contains(order[i]));
            assert(g.has_node(order[i]));
        }
        lemma_distinct_bounded(order@, n as int);
        assert forall|v: usize| 0 <= v < n implies order@.contains(v) by {
            assert(g.has_node(v));
        }
        lemma_covering_len(order@, n as int);
    }
    let pos = ranks(n, order);
    proof {
        assert forall|e: int| 0 <= e < m implies pos[(#[trigger] edges[e]).0 as int] < pos[edges[e].1 as int] by {
            let a = edges[e].0;
            let b = edges[e].1;
            assert(edges@.contains((a, b)));
            assert(g.has_link(order[pos[a as int] as int], order[pos[b as int] as int]));
        }
    }

    let mut best: Vec<u128> = Vec::new();
    let mut prev: Vec<Option<usize>> = Vec::new();
    let mut v: usize = 0;
    while v < n
        invariant
            v <= n,
            n == weights.len(),
            best.len() == v,
            prev.len() == v,
            forall|x: int| 0 <= x < v ==> #[trigger] best[x] == weights[x],
            forall|x: int| 0 <= x < v ==> #[trigger] prev[x] == None::<usize>,
        decreases n - v,
    {
        best.push(weights[v] as u128);
        prev.push(None);
        v += 1;
    }

    let mut k: usize = 0;
    while k < n
        invariant
            k <= n,
            n == weights.len(),
            m == edges.len(),
            cap == 0xFFFF_FFFF_FFFF_FFFF,
            order.len() == n,
            pos.len() == n,
            best.len() == n,
            prev.len() == n,
            edges_in_range(n as int, edges@),
            table.matches(n as int, edges@),
            forall|x: int| 0 <= x < n ==> #[trigger] pos[x] < n && order[pos[x] as int] == x,
            forall|i: int| 0 <= i < n ==> pos[#[trigger] order[i] as int] == i,
            forall|i: int| 0 <= i < n ==> #[trigger] order[i] < n,
            forall|e: int| 0 <= e < m ==> pos[(#[trigger] edges[e]).0 as int] < pos[edges[e].1 as int],
            forall|x: int| 0 <= x < n ==> #[trigger] best[x] >= weights[x],
            forall|x: int| 0 <= x < n ==> (#[trigger] best[x]) as int <= (pos[x] + 1) * cap,
            forall|x: int|
                0 <= x < n ==> match #[trigger] prev[x] {
                    None => best[x] == weights[x],
                    Some(p) => p < n && pos[p as int] < k && pos[p as int] < pos[x] && best[x] == best[p as int]
                        + weights[x] && edges@.contains((p, x as usize)),
                },
            forall|e: int|
                0 <= e < m && pos[(#[trigger] edges[e]).0 as int] < k ==> relaxed(weights@, edges@, best@, e),
        decreases n - k,
    {
        let u: usize = order[k];
        let mut cur: Option<usize> = table.head[u];
        let ghost mut bound: int = m as int;
        while cur.is_some()
            invariant
                k < n,
                n == weights.len(),
                m == edges.len(),
                cap == 0xFFFF_FFFF_FFFF_FFFF,
                order.len() == n,
                pos.len() == n,
                best.len() == n,
                prev.len() == n,
                u == order[k as int],
                u < n,
                pos[u as int] == k,
                edges_in_range(n as int, edges@),
                table.matches(n as int, edges@),
                forall|x: int| 0 <= x < n ==> #[trigger] pos[x] < n && order[pos[x] as int] == x,
                forall|e: int|
                    0 <= e < m ==> pos[(#[trigger] edges[e]).0 as int] < pos[edges[e].1 as int],
                forall|x: int| 0 <= x < n ==> #[trigger] best[x] >= weights[x],
                forall|x: int| 0 <= x < n ==> (#[trigger] best[x]) as int <= (pos[x] + 1) * cap,
                forall|x: int|
                    0 <= x < n ==> match #[trigger] prev[x] {
                        None => best[x] == weights[x],
                        Some(p) => p < n && pos[p as int] <= k && pos[p as int] < pos[x] && best[x]
                            == best[p as int] + weights[x] && edges@.contains((p, x as usize)),
                    },
                0 <= bound <= m,
                cur == last_from(edges@, u, bound),
                forall|e: int|
                    0 <= e < m && (pos[(#[trigger] edges[e]).0 as int] < k || (edges[e].0 == u && e >= bound))
                        ==> relaxed(weights@, edges@, best@, e),
            decreases bound,
        {
            proof {
                lemma_last_from(edges@, u, bound);
            }
            let e: usize = cur.unwrap();
            let t: usize = edges[e].1;
            proof {
                assert(edges@[e as int] == (u, t));
                assert(pos[edges@[e as int].0 as int] < pos[edges@[e as int].1 as int]);
                assert(best[u as int] as int <= (pos[u as int] + 1) * cap);
                assert(pos[t as int] < n);
            }
            let cand: u128 = best[u] + weights[t] as u128;
            if cand > best[t] {
                let ghost old_best = best@;
                best[t] = cand;
                prev[t] = Some(u);
                proof {
                    assert(edges@.contains((u, t)));
                    assert forall|x: int|
                        0 <= x < m && (pos[(#[trigger] edges@[x]).0 as int] < k || (edges@[x].0 == u && x
                            >= e)) implies relaxed(weights@, edges@, best@, x) by {
                        let a = edges@[x].0;
                        let b = edges@[x].1;
                        assert(pos[a as int] < pos[b as int]);
                        assert(a != t);
                        if x != e {
                            assert(relaxed(weights@, edges@, old_best, x));
                        }
                    }
                    assert forall|x: int| 0 <= x < n implies match #[trigger] prev[x] {
                        None => best[x] == weights[x],
                        Some(p) => p < n && pos[p as int] <= k && pos[p as int] < pos[x] && best[x]
                            == best[p as int] + weights[x] && edges@.contains((p, x as usize)),
                    } by {
                        if x != t {
                            match prev[x] {
                                None => {},
                                Some(p) => {
                                    assert(p != t);
                                },
                            }
                        }
                    }
                }
            }
            proof {
                bound = e as int;
            }
            cur = table.next[e];
        }
        proof {
            lemma_last_from(edges@, u, bound);
            assert forall|x: int| 0 <= x < m && pos[(#[trigger] edges@[x]).0 as int] < k + 1 implies relaxed(
                weights@,
                edges@,
                best@,
                x,
            ) by {
                let a = edges@[x].0;
                if pos[a as int] == k {
                    assert(order[pos[a as int] as int] == a);
                }
            }
        }
        k += 1;
    }

    let mut top: usize = 0;
    v = 1;
    while v < n
        invariant
            1 <= v <= n,
            top < v,
            best.len() == n,
            forall|x: int| 0 <= x < v ==> #[trigger] best[x] <= best[top as int],
        decreases n - v,
    {
        if best[v] > best[top] {
            top = v;
        }
        v += 1;
    }

    let mut back: Vec<usize> = Vec::new();
    back.push(top);
    let mut at: usize = top;
    let ghost mut chain: Seq<usize> = seq![top];
    proof {
        assert(g.has_node(top));
        assert(g.is_chain(chain));
        assert(chain.drop_last() =~= Seq::<usize>::empty());
        assert(g.chain_weight(chain.drop_last()) == 0);
        assert(g.chain_weight(chain) == weights[top as int]);
    }
    while prev[at].is_some()
        invariant
            n == weights.len(),
            g == index_model(weights@, edges@),
            pos.len() == n,
            best.len() == n,
            prev.len() == n,
            at < n,
            top < n,
            forall|x: int|
                0 <= x < n ==> match #[trigger] prev[x] {
                    None => best[x] == weights[x],
                    Some(p) => p < n && pos[p as int] < pos[x] && best[x] == best[p as int] + weights[x]
                        && edges@.contains((p, x as usize)),
                },
            back.len() == chain.len(),
            back.len() >= 1,
            forall|i: int| 0 <= i < chain.len() ==> chain[i] == back[chain.len() - 1 - i],
            chain[0] == at,
            g.is_chain(chain),
            g.chain_weight(chain) + best[at as int] - weights[at as int] == best[top as int],
        decreases pos[at as int],
    {
        let p: usize = prev[at].unwrap();
        proof {
            assert(g.has_node(p));
            assert(g.has_link(p, chain[0]));
            g.lemma_chain_prepend(p, chain);
            let longer = seq![p] + chain;
            assert forall|i: int| 0 <= i < longer.len() implies longer[i] == back@.push(p)[longer.len() - 1
                - i] by {
                if i > 0 {
                    assert(longer[i] == chain[i - 1]);
                }
            }
            chain = longer;
        }
        back.push(p);
        at = p;
    }

    let mut path: Vec<usize> = Vec::new();
    let mut left: usize = back.len();
    while left > 0
        invariant
            left <= back.len(),
            back.len() == chain.len(),
            path.len() == back.len() - left,
            forall|i: int| 0 <= i < chain.len() ==> chain[i] == back[chain.len() - 1 - i],
            forall|i: int| 0 <= i < path.len() ==> path[i] == chain[i],
        decreases left,
    {
        left -= 1;
        path.push(back[left]);
    }
    proof {
        assert(path@ =~= chain);
        assert(!g.has_no_nodes());
        assert forall|q: Seq<usize>| #[trigger] g.is_chain(q) implies g.chain_weight(q) <= g.chain_weight(
            path@,
        ) by {
            lemma_relaxed_bounds_chain(weights@, edges@, best@, q);
            assert(g.has_node(q.last()));
        }
    }
    path
}

} // verus!
