//! Dependency graphs as mathematical objects, and what holds of them: chains,
//! reachability, cycles, topological orders, critical paths and the guard on
//! new links.

use vstd::prelude::*;
use crate::errors::GraphError;

verus! {

/// The mathematical content of a dependency graph: the weight of every node
/// and the set of directed links between nodes.
#[verifier::reject_recursive_types(T)]
pub struct GraphModel<T> {
    pub weights: Map<T, u64>,
    pub links: Set<(T, T)>,
}

impl<T> GraphModel<T> {
    /// `a` is a node of the graph.
    pub open spec fn has_node(self, a: T) -> bool {
        self.weights.contains_key(a)
    }

    /// The graph has a link from `a` to `b`.
    pub open spec fn has_link(self, a: T, b: T) -> bool {
        self.links.contains((a, b))
    }

    /// The graph has no node.
    pub open spec fn has_no_nodes(self) -> bool {
        forall|a: T| !self.has_node(a)
    }

    /// The graph with the node `a` of the weight `weight`, added or changed.
    pub open spec fn with_node(self, a: T, weight: u64) -> Self {
        GraphModel { weights: self.weights.insert(a, weight), links: self.links }
    }

    /// The graph with a link from `a` to `b`.
    pub open spec fn with_link(self, a: T, b: T) -> Self {
        GraphModel { weights: self.weights, links: self.links.insert((a, b)) }
    }

    /// A chain is a non-empty sequence of nodes in which every consecutive
    /// pair is a link.
    pub open spec fn is_chain(self, p: Seq<T>) -> bool {
        &&& p.len() > 0
        &&& forall|i: int| 0 <= i < p.len() ==> self.has_node(#[trigger] p[i])
        &&& forall|i: int| 0 <= i < p.len() - 1 ==> self.has_link(#[trigger] p[i], p[i + 1])
    }

    /// The sum of the weights of the nodes of `p`.
    pub open spec fn chain_weight(self, p: Seq<T>) -> int
        decreases p.len(),
    {
        if p.len() == 0 {
            0
        } else {
            self.chain_weight(p.drop_last()) + self.weights[p.last()] as int
        }
    }

    /// `b` can be reached from `a` over at least one link.
    pub open spec fn reaches(self, a: T, b: T) -> bool {
        exists|p: Seq<T>| #[trigger] self.is_chain(p) && p.len() >= 2 && p[0] == a && p.last() == b
    }

    /// No node can be reached from itself.
    pub open spec fn acyclic(self) -> bool {
        forall|a: T| !#[trigger] self.reaches(a, a)
    }

    /// `o` lists every node once, and every link points from an earlier to a
    /// later place in it.
    pub open spec fn is_topological_order(self, o: Seq<T>) -> bool {
        &&& o.no_duplicates()
        &&& forall|a: T| self.has_node(a) <==> #[trigger] o.contains(a)
        &&& forall|i: int, j: int|
            0 <= i < o.len() && 0 <= j < o.len() && #[trigger] self.has_link(o[i], o[j]) ==> i < j
    }

    /// `p` is a chain of the greatest total weight, or empty where the graph
    /// has no node.
    pub open spec fn is_critical_path(self, p: Seq<T>) -> bool {
        if self.has_no_nodes() {
            p.len() == 0
        } else {
            &&& self.is_chain(p)
            &&& forall|q: Seq<T>| #[trigger]
                self.is_chain(q) ==> self.chain_weight(q) <= self.chain_weight(p)
        }
    }

    /// The decision on a new link from `source` to `target`: the first rule
    /// that applies names the refusal.
    pub open spec fn vet_link(self, source: T, target: T) -> Result<(), GraphError> {
        if !self.has_node(source) || !self.has_node(target) {
            Err(GraphError::TaskNotFound)
        } else if source == target {
            Err(GraphError::SelfDependency)
        } else if self.has_link(target, source) {
            Err(GraphError::ReverseExists)
        } else if self.reaches(target, source) {
            Err(GraphError::CycleDetected)
        } else {
            Ok(())
        }
    }

    /// A link reaches its target.
    pub proof fn lemma_link_reaches(self, a: T, b: T)
        requires
            self.has_node(a),
            self.has_node(b),
            self.has_link(a, b),
        ensures
            self.reaches(a, b),
    {
        let p = seq![a, b];
        assert(self.is_chain(p)) by {
            assert forall|i: int| 0 <= i < p.len() - 1 implies self.has_link(
                #[trigger] p[i],
                p[i + 1],
            ) by {
                assert(i == 0);
            }
        }
        assert(p[0] == a && p.last() == b);
    }

    /// A chain can be lengthened at its end by a link.
    pub proof fn lemma_chain_push(self, p: Seq<T>, c: T)
        requires
            self.is_chain(p),
            self.has_node(c),
            self.has_link(p.last(), c),
        ensures
            self.is_chain(p.push(c)),
            self.chain_weight(p.push(c)) == self.chain_weight(p) + self.weights[c],
    {
        let q = p.push(c);
        assert forall|i: int| 0 <= i < q.len() - 1 implies self.has_link(
            #[trigger] q[i],
            q[i + 1],
        ) by {
            if i < p.len() - 1 {
                assert(q[i] == p[i]);
                assert(q[i + 1] == p[i + 1]);
            }
        }
        assert(q.drop_last() =~= p);
    }

    /// A chain can be lengthened at its start by a link.
    pub proof fn lemma_chain_prepend(self, a: T, p: Seq<T>)
        requires
            self.is_chain(p),
            self.has_node(a),
            self.has_link(a, p[0]),
        ensures
            self.is_chain(seq![a] + p),
            self.chain_weight(seq![a] + p) == self.weights[a] + self.chain_weight(p),
        decreases p.len(),
    {
        let q = seq![a] + p;
        assert forall|i: int| 0 <= i < q.len() - 1 implies self.has_link(
            #[trigger] q[i],
            q[i + 1],
        ) by {
            if i > 0 {
                assert(q[i] == p[i - 1]);
                assert(q[i + 1] == p[i]);
            }
        }
        assert forall|i: int| 0 <= i < q.len() implies self.has_node(#[trigger] q[i]) by {
            if i > 0 {
                assert(q[i] == p[i - 1]);
            }
        }
        self.lemma_weight_prepend(a, p);
    }

    /// The weight of a sequence is the weight of its first node and of the
    /// rest.
    pub proof fn lemma_weight_prepend(self, a: T, p: Seq<T>)
        ensures
            self.chain_weight(seq![a] + p) == self.weights[a] + self.chain_weight(p),
        decreases p.len(),
    {
        let q = seq![a] + p;
        if p.len() == 0 {
            assert(q.drop_last() =~= Seq::<T>::empty());
            assert(self.chain_weight(q.drop_last()) == 0);
        } else {
            assert(q.drop_last() =~= seq![a] + p.drop_last());
            self.lemma_weight_prepend(a, p.drop_last());
        }
    }

    /// The start of a chain is a chain.
    pub proof fn lemma_chain_prefix(self, p: Seq<T>, k: int)
        requires
            self.is_chain(p),
            0 < k <= p.len(),
        ensures
            self.is_chain(p.take(k)),
    {
        let q = p.take(k);
        assert forall|i: int| 0 <= i < q.len() - 1 implies self.has_link(
            #[trigger] q[i],
            q[i + 1],
        ) by {
            assert(q[i] == p[i]);
            assert(q[i + 1] == p[i + 1]);
        }
    }

    /// The end of a chain is a chain.
    pub proof fn lemma_chain_suffix(self, p: Seq<T>, k: int)
        requires
            self.is_chain(p),
            0 <= k < p.len(),
        ensures
            self.is_chain(p.skip(k)),
    {
        let q = p.skip(k);
        assert forall|i: int| 0 <= i < q.len() - 1 implies self.has_link(
            #[trigger] q[i],
            q[i + 1],
        ) by {
            assert(q[i] == p[i + k]);
            assert(q[i + 1] == p[i + k + 1]);
        }
        assert forall|i: int| 0 <= i < q.len() implies self.has_node(#[trigger] q[i]) by {
            assert(q[i] == p[i + k]);
        }
    }

    /// What reaches the source of a link reaches its target.
    pub proof fn lemma_reaches_then_link(self, a: T, b: T, c: T)
        requires
            self.reaches(a, b),
            self.has_node(c),
            self.has_link(b, c),
        ensures
            self.reaches(a, c),
    {
        let p = choose|p: Seq<T>| #[trigger]
            self.is_chain(p) && p.len() >= 2 && p[0] == a && p.last() == b;
        self.lemma_chain_push(p, c);
        let q = p.push(c);
        assert(q[0] == p[0]);
        assert(self.is_chain(q) && q.len() >= 2 && q[0] == a && q.last() == c);
    }

    /// Reachability is transitive.
    pub proof fn lemma_reaches_transitive(self, a: T, b: T, c: T)
        requires
            self.reaches(a, b),
            self.reaches(b, c),
        ensures
            self.reaches(a, c),
    {
        let q = choose|q: Seq<T>| #[trigger]
            self.is_chain(q) && q.len() >= 2 && q[0] == b && q.last() == c;
        self.lemma_reaches_along(a, q, q.len() - 1);
    }

    proof fn lemma_reaches_along(self, a: T, q: Seq<T>, k: int)
        requires
            self.is_chain(q),
            self.reaches(a, q[0]),
            0 <= k < q.len(),
        ensures
            self.reaches(a, q[k]),
        decreases k,
    {
        if k > 0 {
            self.lemma_reaches_along(a, q, k - 1);
            assert(self.has_link(q[k - 1], q[k - 1 + 1]));
            self.lemma_reaches_then_link(a, q[k - 1], q[k]);
        }
    }

    proof fn lemma_chain_rank(self, o: Seq<T>, p: Seq<T>, k: int)
        requires
            self.is_topological_order(o),
            self.is_chain(p),
            1 <= k < p.len(),
        ensures
            o.index_of(p[0]) < o.index_of(p[k]),
        decreases k,
    {
        assert(self.has_node(p[k - 1]) && self.has_node(p[k]));
        assert(o.contains(p[k - 1]) && o.contains(p[k]));
        let i = o.index_of(p[k - 1]);
        let j = o.index_of(p[k]);
        assert(self.has_link(p[k - 1], p[k - 1 + 1]));
        assert(self.has_link(o[i], o[j]));
        if k > 1 {
            self.lemma_chain_rank(o, p, k - 1);
        }
    }

    /// A graph that has a topological order has no cycle.
    pub proof fn lemma_topological_order_acyclic(self, o: Seq<T>)
        requires
            self.is_topological_order(o),
        ensures
            self.acyclic(),
    {
        assert forall|a: T| !#[trigger] self.reaches(a, a) by {
            if self.reaches(a, a) {
                let p = choose|p: Seq<T>| #[trigger]
                    self.is_chain(p) && p.len() >= 2 && p[0] == a && p.last() == a;
                self.lemma_chain_rank(o, p, p.len() - 1);
            }
        }
    }

    /// `b` is `a` itself or can be reached from it.
    pub open spec fn leads_to(self, a: T, b: T) -> bool {
        a == b || self.reaches(a, b)
    }

    proof fn lemma_new_link_chain(self, s: T, t: T, p: Seq<T>, k: int)
        requires
            self.with_link(s, t).is_chain(p),
            1 <= k < p.len(),
        ensures
            self.reaches(p[0], p[k]) || (self.leads_to(p[0], s) && self.leads_to(t, p[k])),
        decreases k,
    {
        let g2 = self.with_link(s, t);
        assert(g2.has_link(p[k - 1], p[k - 1 + 1]));
        assert(g2.has_node(p[k - 1]) && g2.has_node(p[k]));
        let kept = self.has_link(p[k - 1], p[k]);
        if !kept {
            assert((p[k - 1], p[k]) == (s, t));
        }
        if k == 1 {
            if kept {
                self.lemma_link_reaches(p[0], p[1]);
            }
        } else {
            self.lemma_new_link_chain(s, t, p, k - 1);
            if kept {
                if self.reaches(p[0], p[k - 1]) {
                    self.lemma_reaches_then_link(p[0], p[k - 1], p[k]);
                } else if t == p[k - 1] {
                    self.lemma_link_reaches(t, p[k]);
                } else {
                    self.lemma_reaches_then_link(t, p[k - 1], p[k]);
                }
            }
        }
    }

    /// Adding a link that the guard accepts to a graph without a cycle gives
    /// a graph without a cycle.
    pub proof fn lemma_accepted_link_keeps_acyclic(self, source: T, target: T)
        requires
            self.acyclic(),
            self.vet_link(source, target) is Ok,
        ensures
            self.with_link(source, target).acyclic(),
    {
        let g2 = self.with_link(source, target);
        assert forall|a: T| !#[trigger] g2.reaches(a, a) by {
            if g2.reaches(a, a) {
                let p = choose|p: Seq<T>| #[trigger]
                    g2.is_chain(p) && p.len() >= 2 && p[0] == a && p.last() == a;
                self.lemma_new_link_chain(source, target, p, p.len() - 1);
                assert(!self.reaches(a, a));
                if a != source && a != target {
                    self.lemma_reaches_transitive(target, a, source);
                }
                assert(self.reaches(target, source));
            }
        }
    }

    /// The graph without nodes and links.
    pub open spec fn empty() -> Self {
        GraphModel { weights: Map::empty(), links: Set::empty() }
    }

    /// Both ends of every link are nodes.
    pub open spec fn links_join_nodes(self) -> bool {
        forall|a: T, b: T| #[trigger] self.has_link(a, b) ==> self.has_node(a) && self.has_node(b)
    }

    /// The graph after the requests for new links `(source, target)` have
    /// passed the guard one after the other: an accepted request adds its
    /// link, a refused one changes nothing.
    pub open spec fn after_requests(self, requests: Seq<(T, T)>) -> Self
        decreases requests.len(),
    {
        if requests.len() == 0 {
            self
        } else {
            let g = self.after_requests(requests.drop_last());
            let r = requests.last();
            if g.vet_link(r.0, r.1) is Ok {
                g.with_link(r.0, r.1)
            } else {
                g
            }
        }
    }

    /// A graph without links has no cycle.
    pub proof fn lemma_no_links_acyclic(self)
        requires
            forall|a: T, b: T| !self.has_link(a, b),
        ensures
            self.acyclic(),
    {
        assert forall|a: T| !#[trigger] self.reaches(a, a) by {
            if self.reaches(a, a) {
                let p = choose|p: Seq<T>| #[trigger]
                    self.is_chain(p) && p.len() >= 2 && p[0] == a && p.last() == a;
                assert(self.has_link(p[0], p[0int + 1]));
            }
        }
    }

    /// Whatever requests for new links pass the guard, in whatever order, a
    /// graph without a cycle stays without one.
    pub proof fn lemma_requests_keep_acyclic(self, requests: Seq<(T, T)>)
        requires
            self.acyclic(),
        ensures
            self.after_requests(requests).acyclic(),
        decreases requests.len(),
    {
        if requests.len() > 0 {
            self.lemma_requests_keep_acyclic(requests.drop_last());
            let g = self.after_requests(requests.drop_last());
            let r = requests.last();
            if g.vet_link(r.0, r.1) is Ok {
                g.lemma_accepted_link_keeps_acyclic(r.0, r.1);
            }
        }
    }

    /// Adding a node, or giving a node another weight, makes no cycle.
    pub proof fn lemma_node_keeps_acyclic(self, a: T, weight: u64)
        requires
            self.acyclic(),
            self.links_join_nodes(),
        ensures
            self.with_node(a, weight).acyclic(),
            self.with_node(a, weight).links_join_nodes(),
    {
        let g2 = self.with_node(a, weight);
        assert forall|x: T| !#[trigger] g2.reaches(x, x) by {
            if g2.reaches(x, x) {
                let p = choose|p: Seq<T>| #[trigger]
                    g2.is_chain(p) && p.len() >= 2 && p[0] == x && p.last() == x;
                assert forall|i: int| 0 <= i < p.len() implies self.has_node(#[trigger] p[i]) by {
                    if i < p.len() - 1 {
                        assert(g2.has_link(p[i], p[i + 1]));
                        assert(self.has_link(p[i], p[i + 1]));
                    } else {
                        assert(g2.has_link(p[i - 1], p[i - 1 + 1]));
                        assert(self.has_link(p[i - 1], p[i]));
                    }
                }
                assert forall|i: int| 0 <= i < p.len() - 1 implies self.has_link(
                    #[trigger] p[i],
                    p[i + 1],
                ) by {
                    assert(g2.has_link(p[i], p[i + 1]));
                }
                assert(self.is_chain(p));
                assert(self.reaches(x, x));
            }
        }
        assert forall|x: T, y: T| #[trigger] g2.has_link(x, y) implies g2.has_node(x) && g2.has_node(
            y,
        ) by {
            assert(self.has_link(x, y));
        }
    }

    /// A dependency of a task on itself is refused as such.
    pub proof fn lemma_self_link_refused(self, x: T)
        requires
            self.has_node(x),
        ensures
            self.vet_link(x, x) == Err::<(), GraphError>(GraphError::SelfDependency),
    {
    }

    /// Where `a` has a link to another node `b`, a link from `b` to `a` is
    /// refused because its reverse exists.
    pub proof fn lemma_reverse_link_refused(self, a: T, b: T)
        requires
            self.has_node(a),
            self.has_node(b),
            a != b,
            self.has_link(a, b),
        ensures
            self.vet_link(b, a) == Err::<(), GraphError>(GraphError::ReverseExists),
    {
    }

    /// Where links lead from `a` to `b` and from `b` to `c`, a link from `c`
    /// back to another node `a` is refused as closing a cycle, unless the
    /// direct link from `a` to `c` is there as well and names the refusal.
    pub proof fn lemma_closing_link_refused(self, a: T, b: T, c: T)
        requires
            self.has_node(a),
            self.has_node(b),
            self.has_node(c),
            self.has_link(a, b),
            self.has_link(b, c),
            a != c,
            !self.has_link(a, c),
        ensures
            self.vet_link(c, a) == Err::<(), GraphError>(GraphError::CycleDetected),
    {
        self.lemma_link_reaches(a, b);
        self.lemma_reaches_then_link(a, b, c);
    }

    /// The guard accepts a link exactly when both ends are nodes and the
    /// target does not lead to the source, itself included.
    pub proof fn lemma_guard_accepts(self, source: T, target: T)
        requires
            self.has_node(source),
            self.has_node(target),
        ensures
            self.vet_link(source, target) is Ok <==> !self.leads_to(target, source),
    {
        if self.has_link(target, source) {
            self.lemma_link_reaches(target, source);
        }
    }

    /// Two critical paths of one graph have the same total weight.
    pub proof fn lemma_critical_weight_unique(self, p: Seq<T>, q: Seq<T>)
        requires
            self.is_critical_path(p),
            self.is_critical_path(q),
        ensures
            self.chain_weight(p) == self.chain_weight(q),
    {
        if self.has_no_nodes() {
            assert(p =~= q);
        }
    }

    /// A chain of a graph without a cycle visits no node twice.
    pub proof fn lemma_acyclic_chain_distinct(self, p: Seq<T>)
        requires
            self.acyclic(),
            self.is_chain(p),
        ensures
            p.no_duplicates(),
    {
        assert forall|i: int, j: int| 0 <= i < j < p.len() implies p[i] != p[j] by {
            if p[i] == p[j] {
                self.lemma_chain_prefix(p, j + 1);
                self.lemma_chain_suffix(p.take(j + 1), i);
                let c = p.take(j + 1).skip(i);
                assert(c[0] == p[i] && c.last() == p[j]);
                assert(self.is_chain(c) && c.len() >= 2);
                assert(self.reaches(p[i], p[i]));
            }
        }
    }
}

/// Every node of `stuck` has a link into it from a node of `stuck`.
pub open spec fn fed_from_within<T>(g: GraphModel<T>, stuck: Set<T>) -> bool {
    forall|v: T| #[trigger]
        stuck.contains(v) ==> g.has_node(v) && exists|u: T| stuck.contains(u) && g.has_link(u, v)
}

/// Walking links backwards inside `stuck` gives a chain of any length that
/// ends in `last`.
pub proof fn lemma_back_walk<T>(g: GraphModel<T>, stuck: Set<T>, last: T, steps: nat) -> (p: Seq<T>)
    requires
        fed_from_within(g, stuck),
        stuck.contains(last),
    ensures
        g.is_chain(p),
        p.len() == steps + 1,
        p.last() == last,
        forall|i: int| 0 <= i < p.len() ==> stuck.contains(#[trigger] p[i]),
    decreases steps,
{
    if steps == 0 {
        seq![last]
    } else {
        let q = lemma_back_walk(g, stuck, last, (steps - 1) as nat);
        assert(stuck.contains(q[0]));
        let u = choose|u: T| stuck.contains(u) && g.has_link(u, q[0]);
        g.lemma_chain_prepend(u, q);
        let p = seq![u] + q;
        assert forall|i: int| 0 <= i < p.len() implies stuck.contains(#[trigger] p[i]) by {
            if i > 0 {
                assert(p[i] == q[i - 1]);
            }
        }
        assert(p.last() == q.last());
        p
    }
}

/// `f` carries the nodes of `ga` to nodes of `gb` of the same weight, and links
/// to links.
pub open spec fn embeds<A, B>(ga: GraphModel<A>, gb: GraphModel<B>, f: spec_fn(A) -> B) -> bool {
    &&& forall|a: A| #[trigger]
        ga.has_node(a) ==> gb.has_node(f(a)) && gb.weights[f(a)] == ga.weights[a]
    &&& forall|a: A, b: A| #[trigger]
        ga.has_link(a, b) && ga.has_node(a) && ga.has_node(b) ==> gb.has_link(f(a), f(b))
}

/// An embedding carries chains to chains of the same weight.
pub proof fn lemma_embedded_chain<A, B>(
    ga: GraphModel<A>,
    gb: GraphModel<B>,
    f: spec_fn(A) -> B,
    p: Seq<A>,
)
    requires
        embeds(ga, gb, f),
        ga.is_chain(p),
    ensures
        gb.is_chain(p.map_values(f)),
        gb.chain_weight(p.map_values(f)) == ga.chain_weight(p),
    decreases p.len(),
{
    let q = p.map_values(f);
    assert forall|i: int| 0 <= i < q.len() implies gb.has_node(#[trigger] q[i]) by {
        assert(ga.has_node(p[i]));
    }
    assert forall|i: int| 0 <= i < q.len() - 1 implies gb.has_link(#[trigger] q[i], q[i + 1]) by {
        assert(ga.has_link(p[i], p[i + 1]));
        assert(ga.has_node(p[i]) && ga.has_node(p[i + 1]));
    }
    if p.len() > 1 {
        ga.lemma_chain_prefix(p, p.len() - 1);
        assert(p.take(p.len() - 1) =~= p.drop_last());
        lemma_embedded_chain(ga, gb, f, p.drop_last());
        assert(q.drop_last() =~= p.drop_last().map_values(f));
    } else {
        assert(q.drop_last() =~= Seq::<B>::empty());
        assert(p.drop_last() =~= Seq::<A>::empty());
        assert(gb.chain_weight(q.drop_last()) == 0);
        assert(ga.chain_weight(p.drop_last()) == 0);
    }
    assert(ga.has_node(p.last()));
}

/// An embedding keeps reachability.
pub proof fn lemma_embedded_reaches<A, B>(
    ga: GraphModel<A>,
    gb: GraphModel<B>,
    f: spec_fn(A) -> B,
    a: A,
    b: A,
)
    requires
        embeds(ga, gb, f),
        ga.reaches(a, b),
    ensures
        gb.reaches(f(a), f(b)),
{
    let p = choose|p: Seq<A>| #[trigger] ga.is_chain(p) && p.len() >= 2 && p[0] == a && p.last() == b;
    lemma_embedded_chain(ga, gb, f, p);
    let q = p.map_values(f);
    assert(gb.is_chain(q) && q.len() >= 2 && q[0] == f(a) && q.last() == f(b));
}

} // verus!
