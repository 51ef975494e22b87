//! Graphs over dense indices: nodes are `0..n`, edges are pairs of indices.

use vstd::prelude::*;
use crate::model::GraphModel;

verus! {

/// The graph that a weight per node and a list of index pairs stand for.
pub open spec fn index_model(weights: Seq<u64>, edges: Seq<(usize, usize)>) -> GraphModel<usize> {
    GraphModel {
        weights: Map::new(|i: usize| (i as int) < weights.len(), |i: usize| weights[i as int]),
        links: Set::new(|l: (usize, usize)| edges.contains(l)),
    }
}

/// Both ends of every edge are nodes.
pub open spec fn edges_in_range(n: int, edges: Seq<(usize, usize)>) -> bool {
    forall|e: int| 0 <= e < edges.len() ==> (#[trigger] edges[e]).0 < n && edges[e].1 < n
}

/// The last edge before `bound` that leaves `u`, if there is one.
pub open spec fn last_from(edges: Seq<(usize, usize)>, u: usize, bound: int) -> Option<usize>
    decreases bound,
{
    if bound <= 0 {
        None
    } else if edges[bound - 1].0 == u {
        Some((bound - 1) as usize)
    } else {
        last_from(edges, u, bound - 1)
    }
}

/// What `last_from` finds leaves `u`, and no later edge before `bound` does.
pub proof fn lemma_last_from(edges: Seq<(usize, usize)>, u: usize, bound: int)
    requires
        0 <= bound <= edges.len() <= usize::MAX,
    ensures
        match last_from(edges, u, bound) {
            Some(e) => e < bound && edges[e as int].0 == u && forall|x: int|
                e < x < bound ==> (#[trigger] edges[x]).0 != u,
            None => forall|x: int| 0 <= x < bound ==> (#[trigger] edges[x]).0 != u,
        },
    decreases bound,
{
    if bound > 0 && edges[bound - 1].0 != u {
        lemma_last_from(edges, u, bound - 1);
    }
}

/// For each node the chain of the edges that leave it, latest first: `head`
/// gives a node's last edge, `next` the one before an edge from the same node.
pub struct LinkTable {
    pub head: Vec<Option<usize>>,
    pub next: Vec<Option<usize>>,
}

impl LinkTable {
    /// The table threads exactly the edges `edges` over `n` nodes.
    pub open spec fn matches(&self, n: int, edges: Seq<(usize, usize)>) -> bool {
        &&& self.head.len() == n
        &&& self.next.len() == edges.len()
        &&& forall|u: int|
            0 <= u < n ==> #[trigger] self.head[u] == last_from(edges, u as usize, edges.len() as int)
        &&& forall|e: int|
            0 <= e < edges.len() ==> #[trigger] self.next[e] == last_from(edges, edges[e].0, e)
    }

    /// Threads the edges of each node into its chain.
    pub fn build(n: usize, edges: &Vec<(usize, usize)>) -> (table: LinkTable)
        requires
            edges_in_range(n as int, edges@),
        ensures
            table.matches(n as int, edges@),
    {
        let mut head: Vec<Option<usize>> = Vec::new();
        let mut u: usize = 0;
        while u < n
            invariant
                u <= n,
                head.len() == u,
                forall|x: int| 0 <= x < u ==> head[x] == None::<usize>,
            decreases n - u,
        {
            head.push(None);
            u += 1;
        }
        let mut next: Vec<Option<usize>> = Vec::new();
        let mut e: usize = 0;
        while e < edges.len()
            invariant
                e <= edges.len(),
                edges_in_range(n as int, edges@),
                head.len() == n,
                next.len() == e,
                forall|x: int| 0 <= x < n ==> #[trigger] head[x] == last_from(edges@, x as usize, e as int),
                forall|x: int| 0 <= x < e ==> #[trigger] next[x] == last_from(edges@, edges[x].0, x),
            decreases edges.len() - e,
        {
            let from: usize = edges[e].0;
            next.push(head[from]);
            head[from] = Some(e);
            e += 1;
        }
        LinkTable { head, next }
    }
}

/// How many entries of `s` are set.
pub open spec fn count_true(s: Seq<bool>) -> nat
    decreases s.len(),
{
    if s.len() == 0 {
        0
    } else {
        count_true(s.drop_last()) + if s.last() { 1nat } else { 0nat }
    }
}

/// No more entries are set than there are.
pub proof fn lemma_count_true_bound(s: Seq<bool>)
    ensures
        count_true(s) <= s.len(),
    decreases s.len(),
{
    if s.len() > 0 {
        lemma_count_true_bound(s.drop_last());
    }
}

/// Setting an entry that was not set raises the count by one.
pub proof fn lemma_count_true_set(s: Seq<bool>, i: int)
    requires
        0 <= i < s.len(),
        !s[i],
    ensures
        count_true(s.update(i, true)) == count_true(s) + 1,
    decreases s.len(),
{
    let t = s.update(i, true);
    if i == s.len() - 1 {
        assert(t.drop_last() =~= s.drop_last());
    } else {
        assert(t.drop_last() =~= s.drop_last().update(i, true));
        lemma_count_true_set(s.drop_last(), i);
    }
}

/// Distinct values below `n` are at most `n` in number.
pub proof fn lemma_distinct_bounded(s: Seq<usize>, n: int)
    requires
        0 <= n,
        s.no_duplicates(),
        forall|i: int| 0 <= i < s.len() ==> 0 <= #[trigger] s[i] < n,
    ensures
        s.len() <= n,
    decreases n,
{
    if s.len() > 0 {
        if n == 0 {
            assert(s[0] < n);
        } else if exists|i: int| 0 <= i < s.len() && s[i] == n - 1 {
            let i = choose|i: int| 0 <= i < s.len() && s[i] == n - 1;
            let r = s.remove(i);
            assert forall|j: int| 0 <= j < r.len() implies 0 <= #[trigger] r[j] < n - 1 by {
                if j < i {
                    assert(r[j] == s[j]);
                } else {
                    assert(r[j] == s[j + 1]);
                }
            }
            assert(r.no_duplicates()) by {
                assert forall|a: int, b: int| 0 <= a < r.len() && 0 <= b < r.len() && a != b implies r[a]
                    != r[b] by {
                    let a2 = if a < i { a } else { a + 1 };
                    let b2 = if b < i { b } else { b + 1 };
                    assert(r[a] == s[a2] && r[b] == s[b2]);
                }
            }
            lemma_distinct_bounded(r, n - 1);
            assert(r.len() == s.len() - 1);
        } else {
            assert forall|j: int| 0 <= j < s.len() implies 0 <= #[trigger] s[j] < n - 1 by {
                assert(s[j] < n);
                assert(!(0 <= j < s.len() && s[j] == n - 1));
            }
            lemma_distinct_bounded(s, n - 1);
        }
    }
}

/// Distinct values below `n`, `n` in number, are all the values below `n`.
pub proof fn lemma_distinct_full(s: Seq<usize>, n: int, v: usize)
    requires
        s.no_duplicates(),
        forall|i: int| 0 <= i < s.len() ==> 0 <= #[trigger] s[i] < n,
        s.len() == n,
        0 <= v < n,
    ensures
        s.contains(v),
{
    if !s.contains(v) {
        let t = s.push(v);
        assert(t.no_duplicates()) by {
            assert forall|a: int, b: int| 0 <= a < t.len() && 0 <= b < t.len() && a != b implies t[a]
                != t[b] by {
                if a < s.len() && b < s.len() {
                    assert(t[a] == s[a] && t[b] == s[b]);
                } else if a < s.len() {
                    assert(s.contains(s[a]));
                } else {
                    assert(s.contains(s[b]));
                }
            }
        }
        lemma_distinct_bounded(t, n);
    }
}

/// A sequence that holds every value below `n` has at least `n` entries.
pub proof fn lemma_covering_len(s: Seq<usize>, n: int)
    requires
        n <= usize::MAX,
        forall|v: usize| 0 <= v < n ==> s.contains(v),
    ensures
        s.len() >= n,
    decreases n,
{
    if n > 0 {
        let top = (n - 1) as usize;
        assert(s.contains(top));
        let i = choose|i: int| 0 <= i < s.len() && s[i] == top;
        let r = s.remove(i);
        assert forall|v: usize| 0 <= v < n - 1 implies r.contains(v) by {
            assert(s.contains(v));
            let j = choose|j: int| 0 <= j < s.len() && s[j] == v;
            assert(j != i);
            if j < i {
                assert(r[j] == v);
            } else {
                assert(r[j - 1] == v);
            }
        }
        lemma_covering_len(r, n - 1);
    }
}

} // verus!
