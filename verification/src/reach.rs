//! Forward reachability over an index graph.

use vstd::prelude::*;
use crate::dag::{
    count_true, edges_in_range, index_model, last_from, lemma_count_true_bound,
    lemma_count_true_set, lemma_last_from, LinkTable,
};

verus! {

/// Every node of `queue` has all its successors marked in `seen`.
pub open spec fn closed_under_links(
    edges: Seq<(usize, usize)>,
    queue: Seq<usize>,
    seen: Seq<bool>,
) -> bool {
    forall|i: int, e: int|
        0 <= i < queue.len() && 0 <= e < edges.len() && (#[trigger] edges[e]).0 == #[trigger] queue[i]
            ==> seen[edges[e].1 as int]
}

proof fn lemma_closed_marks_chain(
    weights: Seq<u64>,
    edges: Seq<(usize, usize)>,
    queue: Seq<usize>,
    seen: Seq<bool>,
    p: Seq<usize>,
    k: int,
)
    requires
        edges_in_range(weights.len() as int, edges),
        seen.len() == weights.len(),
        queue.len() > 0,
        queue[0] == p[0],
        closed_under_links(edges, queue, seen),
        forall|v: int| 0 <= v < seen.len() && seen[v] ==> queue.contains(v as usize),
        index_model(weights, edges).is_chain(p),
        1 <= k < p.len(),
    ensures
        seen[p[k] as int],
    decreases k,
{
    let g = index_model(weights, edges);
    assert(g.has_link(p[k - 1], p[k - 1 + 1]));
    assert(edges.contains((p[k - 1], p[k])));
    let e = choose|e: int| 0 <= e < edges.len() && edges[e] == (p[k - 1], p[k]);
    if k == 1 {
        assert(edges[e].0 == queue[0]);
    } else {
        lemma_closed_marks_chain(weights, edges, queue, seen, p, k - 1);
        assert(g.has_node(p[k - 1]));
        assert(queue.contains(p[k - 1]));
        let i = choose|i: int| 0 <= i < queue.len() && queue[i] == p[k - 1];
        assert(edges[e].0 == queue[i]);
    }
}

/// Marks the nodes that can be reached from `from` over at least one edge.
pub fn reach_from(
    weights: &Vec<u64>,
    edges: &Vec<(usize, usize)>,
    table: &LinkTable,
    from: usize,
) -> (seen: Vec<bool>)
    requires
        edges_in_range(weights.len() as int, edges@),
        table.matches(weights.len() as int, edges@),
        from < weights.len(),
    ensures
        seen.len() == weights.len(),
        forall|v: usize|
            v < weights.len() ==> seen[v as int] == index_model(weights@, edges@).reaches(from, v),
{
    let n: usize = weights.len();
    let ghost g = index_model(weights@, edges@);
    let mut seen: Vec<bool> = Vec::new();
    let mut v: usize = 0;
    while v < n
        invariant
            v <= n,
            seen.len() == v,
            forall|x: int| 0 <= x < v ==> !seen[x],
            count_true(seen@) == 0,
        decreases n - v,
    {
        let ghost before = seen@;
        seen.push(false);
        proof {
            assert(seen@.drop_last() =~= before);
        }
        v += 1;
    }
    let mut queue: Vec<usize> = Vec::new();
    queue.push(from);
    let mut qh: usize = 0;
    while qh < queue.len()
        invariant
            n == weights.len(),
            g == index_model(weights@, edges@),
            edges_in_range(n as int, edges@),
            table.matches(n as int, edges@),
            seen.len() == n,
            qh <= queue.len(),
            queue.len() >= 1,
            queue[0] == from,
            from < n,
            forall|i: int| 0 <= i < queue.len() ==> #[trigger] queue[i] < n,
            forall|i: int| 1 <= i < queue.len() ==> seen[#[trigger] queue[i] as int],
            queue.len() == 1 + count_true(seen@),
            forall|x: usize| x < n && seen[x as int] ==> g.reaches(from, x),
            forall|x: int| 0 <= x < n && seen[x] ==> queue@.contains(x as usize),
            closed_under_links(edges@, queue@.take(qh as int), seen@),
        decreases n + 1 - qh,
    {
        proof {
            lemma_count_true_bound(seen@);
        }
        let u: usize = queue[qh];
        let mut cur: Option<usize> = table.head[u];
        let ghost mut bound: int = edges.len() as int;
        while cur.is_some()
            invariant
                n == weights.len(),
                g == index_model(weights@, edges@),
                edges_in_range(n as int, edges@),
                table.matches(n as int, edges@),
                seen.len() == n,
                qh < queue.len(),
                u == queue[qh as int],
                u < n,
                queue[0] == from,
                from < n,
                forall|i: int| 0 <= i < queue.len() ==> #[trigger] queue[i] < n,
                forall|i: int| 1 <= i < queue.len() ==> seen[#[trigger] queue[i] as int],
                queue.len() == 1 + count_true(seen@),
                forall|x: usize| x < n && seen[x as int] ==> g.reaches(from, x),
                forall|x: int| 0 <= x < n && seen[x] ==> queue@.contains(x as usize),
                closed_under_links(edges@, queue@.take(qh as int), seen@),
                0 <= bound <= edges.len(),
                cur == last_from(edges@, u, bound),
                forall|e: int|
                    bound <= e < edges.len() && (#[trigger] edges[e]).0 == u ==> seen[edges[e].1 as int],
            decreases bound,
        {
            proof {
                lemma_last_from(edges@, u, bound);
            }
            let e: usize = cur.unwrap();
            let w: usize = edges[e].1;
            if !seen[w] {
                proof {
                    lemma_count_true_set(seen@, w as int);
                    assert(g.has_node(u) && g.has_node(w));
                    assert(edges@[e as int] == (u, w));
                    assert(g.has_link(u, w));
                    if u == from {
                        g.lemma_link_reaches(u, w);
                    } else {
                        assert(queue@.contains(u));
                        g.lemma_reaches_then_link(from, u, w);
                    }
                }
                let ghost old_queue = queue@;
                let ghost old_seen = seen@;
                seen[w] = true;
                queue.push(w);
                proof {
                    assert(seen@ == old_seen.update(w as int, true));
                    assert(queue@.take(qh as int) =~= old_queue.take(qh as int));
                    assert forall|x: int| 0 <= x < n && seen[x] implies queue@.contains(x as usize) by {
                        if x == w {
                            assert(queue@[old_queue.len() as int] == w);
                        } else {
                            assert(old_queue.contains(x as usize));
                            let i = choose|i: int| 0 <= i < old_queue.len() && old_queue[i] == x as usize;
                            assert(queue@[i] == x as usize);
                        }
                    }
                }
            }
            proof {
                bound = e as int;
            }
            cur = table.next[e];
        }
        proof {
            lemma_last_from(edges@, u, bound);
            let before = queue@.take(qh as int);
            let after = queue@.take(qh as int + 1);
            assert forall|i: int, e: int|
                0 <= i < after.len() && 0 <= e < edges.len() && (#[trigger] edges@[e]).0
                    == #[trigger] after[i] implies seen@[edges@[e].1 as int] by {
                if i < qh {
                    assert(before[i] == after[i]);
                }
            }
        }
        qh += 1;
    }
    proof {
        assert(queue@.take(qh as int) =~= queue@);
        assert forall|x: usize| x < n implies seen[x as int] == g.reaches(from, x) by {
            if g.reaches(from, x) {
                let p = choose|p: Seq<usize>| #[trigger]
                    g.is_chain(p) && p.len() >= 2 && p[0] == from && p.last() == x;
                lemma_closed_marks_chain(weights@, edges@, queue@, seen@, p, p.len() - 1);
            }
        }
    }
    seen
}

} // verus!
