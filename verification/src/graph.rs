//! The dependency graph of one project: tasks by identifier, with their
//! weights, and the dependencies between them.

use std::collections::HashMap;
use vstd::prelude::*;
use crate::dag::{edges_in_range, index_model, LinkTable};
use crate::errors::GraphError;
use crate::longest::longest_chain;
use crate::model::{embeds, lemma_embedded_chain, lemma_embedded_reaches, GraphModel};
use crate::reach::reach_from;
use crate::toposort::topological_order;

verus! {

/// An identifier of a task: the 128 bits of its UUID.
pub type TaskId = u128;

/// A project's tasks and dependencies. Tasks are kept in a dense arena in
/// the order in which they were added; dependencies are pairs of arena
/// indices, so only dependencies between known tasks are held.
pub struct TaskGraph {
    ids: Vec<TaskId>,
    weights: Vec<u64>,
    index: HashMap<TaskId, usize>,
    edges: Vec<(usize, usize)>,
}

impl View for TaskGraph {
    type V = GraphModel<TaskId>;

    closed spec fn view(&self) -> GraphModel<TaskId> {
        GraphModel {
            weights: Map::new(
                |id: TaskId| self.index@.contains_key(id),
                |id: TaskId| self.weights@[self.index@[id] as int],
            ),
            links: Set::new(
                |l: (TaskId, TaskId)|
                    exists|e: int|
                        0 <= e < self.edges.len() && self.ids@[(#[trigger] self.edges@[e]).0 as int] == l.0
                            && self.ids@[self.edges@[e].1 as int] == l.1,
            ),
        }
    }
}

/// Whether the index pair `(a, b)` occurs in `edges`.
fn holds_pair(edges: &Vec<(usize, usize)>, a: usize, b: usize) -> (found: bool)
    ensures
        found == edges@.contains((a, b)),
{
    let mut e: usize = 0;
    while e < edges.len()
        invariant
            e <= edges.len(),
            forall|x: int| 0 <= x < e ==> edges@[x] != (a, b),
        decreases edges.len() - e,
    {
        if edges[e].0 == a && edges[e].1 == b {
            assert(edges@[e as int] == (a, b));
            return true;
        }
        e += 1;
    }
    false
}

impl TaskGraph {
    /// The representation is consistent: the index finds every task at its
    /// place in the arena, and every dependency joins two tasks.
    pub closed spec fn wf(&self) -> bool {
        &&& self.ids.len() == self.weights.len()
        &&& edges_in_range(self.ids.len() as int, self.edges@)
        &&& forall|k: TaskId| #[trigger]
            self.index@.contains_key(k) ==> self.index@[k] < self.ids.len() && self.ids@[self.index@[k] as int]
                == k
        &&& forall|i: int|
            0 <= i < self.ids.len() ==> self.index@.contains_key(#[trigger] self.ids@[i])
                && self.index@[self.ids@[i]] == i
    }

    closed spec fn to_index(&self) -> spec_fn(TaskId) -> usize {
        |id: TaskId| self.index@[id]
    }

    closed spec fn to_id(&self) -> spec_fn(usize) -> TaskId {
        |i: usize| self.ids@[i as int]
    }

    closed spec fn dense(&self) -> GraphModel<usize> {
        index_model(self.weights@, self.edges@)
    }

    proof fn lemma_embeddings(&self)
        requires
            self.wf(),
        ensures
            embeds(self@, self.dense(), self.to_index()),
            embeds(self.dense(), self@, self.to_id()),
    {
        let g = self@;
        let d = self.dense();
        let f = self.to_index();
        let h = self.to_id();
        assert forall|a: TaskId, b: TaskId| #[trigger]
            g.has_link(a, b) && g.has_node(a) && g.has_node(b) implies d.has_link(f(a), f(b)) by {
            let e = choose|e: int|
                0 <= e < self.edges.len() && self.ids@[(#[trigger] self.edges@[e]).0 as int] == a
                    && self.ids@[self.edges@[e].1 as int] == b;
            assert(self.edges@[e] == (f(a), f(b)));
        }
        assert forall|i: usize, j: usize| #[trigger]
            d.has_link(i, j) && d.has_node(i) && d.has_node(j) implies g.has_link(h(i), h(j)) by {
            let e = choose|e: int| 0 <= e < self.edges.len() && self.edges@[e] == (i, j);
            assert(self.ids@[self.edges@[e].0 as int] == h(i));
        }
        assert forall|i: usize| #[trigger] d.has_node(i) implies g.has_node(h(i)) && g.weights[h(i)]
            == d.weights[i] by {
            assert(self.index@.contains_key(self.ids@[i as int]));
        }
    }

    proof fn lemma_reaches_dense(&self, a: TaskId, b: TaskId)
        requires
            self.wf(),
            self@.has_node(a),
            self@.has_node(b),
        ensures
            self@.reaches(a, b) == self.dense().reaches(self.index@[a], self.index@[b]),
    {
        self.lemma_embeddings();
        if self@.reaches(a, b) {
            lemma_embedded_reaches(self@, self.dense(), self.to_index(), a, b);
        }
        if self.dense().reaches(self.index@[a], self.index@[b]) {
            lemma_embedded_reaches(self.dense(), self@, self.to_id(), self.index@[a], self.index@[b]);
        }
    }

    proof fn lemma_acyclic_dense(&self)
        requires
            self.wf(),
        ensures
            self@.acyclic() == self.dense().acyclic(),
    {
        let g = self@;
        let d = self.dense();
        self.lemma_embeddings();
        if !g.acyclic() {
            let a = choose|a: TaskId| g.reaches(a, a);
            lemma_embedded_reaches(g, d, self.to_index(), a, a);
        }
        if !d.acyclic() {
            let i = choose|i: usize| d.reaches(i, i);
            lemma_embedded_reaches(d, g, self.to_id(), i, i);
        }
    }

    /// Every dependency that the graph holds joins two of its tasks.
    pub proof fn lemma_links_join_nodes(&self)
        requires
            self.wf(),
        ensures
            self@.links_join_nodes(),
    {
        assert forall|a: TaskId, b: TaskId| #[trigger] self@.has_link(a, b) implies self@.has_node(a)
            && self@.has_node(b) by {
            let e = choose|e: int|
                0 <= e < self.edges.len() && self.ids@[(#[trigger] self.edges@[e]).0 as int] == a
                    && self.ids@[self.edges@[e].1 as int] == b;
            assert(self.index@.contains_key(self.ids@[self.edges@[e].0 as int]));
            assert(self.index@.contains_key(self.ids@[self.edges@[e].1 as int]));
        }
    }

    /// Where the graph holds a dependency from `a` to another task `b`, a
    /// dependency from `b` to `a` is refused because its reverse exists.
    pub proof fn lemma_reverse_refused(&self, a: TaskId, b: TaskId)
        requires
            self.wf(),
            self@.has_link(a, b),
            a != b,
        ensures
            self@.vet_link(b, a) == Err::<(), GraphError>(GraphError::ReverseExists),
    {
        self.lemma_links_join_nodes();
    }

    /// Where the graph holds dependencies from `a` to `b` and from `b` to
    /// `c`, a dependency from `c` back to another task `a` is refused as
    /// closing a cycle, unless the graph also holds the dependency from `a`
    /// to `c`, whose reverse it then is.
    pub proof fn lemma_closing_refused(&self, a: TaskId, b: TaskId, c: TaskId)
        requires
            self.wf(),
            self@.has_link(a, b),
            self@.has_link(b, c),
            a != c,
            !self@.has_link(a, c),
        ensures
            self@.vet_link(c, a) == Err::<(), GraphError>(GraphError::CycleDetected),
    {
        self.lemma_links_join_nodes();
        self@.lemma_closing_link_refused(a, b, c);
    }

    /// A graph without tasks.
    pub fn new() -> (graph: TaskGraph)
        ensures
            graph.wf(),
            graph@ == GraphModel::<TaskId>::empty(),
            graph@.acyclic(),
    {
        let graph = TaskGraph {
            ids: Vec::new(),
            weights: Vec::new(),
            index: HashMap::new(),
            edges: Vec::new(),
        };
        assert(graph@.links =~= Set::<(TaskId, TaskId)>::empty());
        assert(graph@.weights =~= Map::<TaskId, u64>::empty());
        proof {
            graph@.lemma_no_links_acyclic();
        }
        graph
    }

    /// The number of tasks.
    pub fn task_count(&self) -> (count: usize)
        requires
            self.wf(),
        ensures
            self@.weights.dom().finite(),
            count == self@.weights.dom().len(),
    {
        proof {
            let ids = self.ids@;
            assert(ids.no_duplicates()) by {
                assert forall|i: int, j: int| 0 <= i < ids.len() && 0 <= j < ids.len() && i != j implies ids[i]
                    != ids[j] by {
                    assert(self.index@[ids[i]] == i && self.index@[ids[j]] == j);
                }
            }
            assert(self@.weights.dom() =~= ids.to_set()) by {
                assert forall|id: TaskId| self@.weights.dom().contains(id) == ids.to_set().contains(id) by {
                    if self.index@.contains_key(id) {
                        assert(ids[self.index@[id] as int] == id);
                        assert(ids.contains(id));
                    }
                    if ids.contains(id) {
                        let i = choose|i: int| 0 <= i < ids.len() && ids[i] == id;
                        assert(self.index@.contains_key(ids[i]));
                    }
                }
            }
            ids.unique_seq_to_set();
            vstd::seq_lib::seq_to_set_is_finite(ids);
        }
        self.ids.len()
    }

    /// Whether `id` is a task of the graph.
    pub fn contains_task(&self, id: TaskId) -> (found: bool)
        requires
            self.wf(),
        ensures
            found == self@.has_node(id),
    {
        self.index.get(&id).is_some()
    }

    /// The weight of the task `id`.
    pub fn weight_of(&self, id: TaskId) -> (weight: Option<u64>)
        requires
            self.wf(),
        ensures
            weight == if self@.has_node(id) {
                Some(self@.weights[id])
            } else {
                None
            },
    {
        match self.index.get(&id) {
            Some(i) => Some(self.weights[*i]),
            None => None,
        }
    }

    /// Whether a dependency from `source` to `target` is held.
    pub fn has_dependency(&self, source: TaskId, target: TaskId) -> (found: bool)
        requires
            self.wf(),
        ensures
            found == (self@.has_node(source) && self@.has_node(target) && self@.has_link(source, target)),
    {
        let s: usize = match self.index.get(&source) {
            Some(i) => *i,
            None => {
                return false;
            },
        };
        let t: usize = match self.index.get(&target) {
            Some(i) => *i,
            None => {
                return false;
            },
        };
        proof {
            self.lemma_embeddings();
            let g = self@;
            let d = self.dense();
            if g.has_link(source, target) {
                assert(d.has_link((self.to_index())(source), (self.to_index())(target)));
            }
            if d.has_link(s, t) {
                assert(d.has_node(s) && d.has_node(t));
                assert(g.has_link((self.to_id())(s), (self.to_id())(t)));
            }
        }
        holds_pair(&self.edges, s, t)
    }

    /// The total weight of the tasks of `path`, counting a task as often as
    /// it occurs; nothing where `path` names something that is no task.
    pub fn path_weight(&self, path: &Vec<TaskId>) -> (total: Option<u128>)
        requires
            self.wf(),
        ensures
            total is Some <==> forall|i: int| 0 <= i < path.len() ==> self@.has_node(#[trigger] path[i]),
            match total {
                Some(sum) => sum == self@.chain_weight(path@),
                None => true,
            },
    {
        let mut sum: u128 = 0;
        let mut i: usize = 0;
        while i < path.len()
            invariant
                i <= path.len(),
                self.wf(),
                forall|j: int| 0 <= j < i ==> self@.has_node(#[trigger] path[j]),
                sum == self@.chain_weight(path@.take(i as int)),
                sum <= i * 0xFFFF_FFFF_FFFF_FFFF,
            decreases path.len() - i,
        {
            proof {
                assert(path@.take(i as int + 1).drop_last() =~= path@.take(i as int));
            }
            match self.index.get(&path[i]) {
                Some(place) => {
                    sum = sum + self.weights[*place] as u128;
                },
                None => {
                    return None;
                },
            }
            i += 1;
        }
        proof {
            assert(path@.take(path.len() as int) =~= path@);
        }
        Some(sum)
    }

    /// Adds the task `id`, or gives it a new weight if it is there already.
    pub fn add_task(&mut self, id: TaskId, weight: u64)
        requires
            old(self).wf(),
        ensures
            final(self).wf(),
            final(self)@ == old(self)@.with_node(id, weight),
            old(self)@.acyclic() ==> final(self)@.acyclic(),
    {
        let ghost before = *self;
        proof {
            self.lemma_links_join_nodes();
            if self@.acyclic() {
                self@.lemma_node_keeps_acyclic(id, weight);
            }
        }
        let place: Option<usize> = match self.index.get(&id) {
            Some(i) => Some(*i),
            None => None,
        };
        match place {
            Some(i) => {
                self.weights[i] = weight;
            },
            None => {
                let i: usize = self.ids.len();
                self.ids.push(id);
                self.weights.push(weight);
                self.index.insert(id, i);
            },
        }
        proof {
            assert(self@.weights =~= before@.weights.insert(id, weight));
            assert(self@.links =~= before@.links) by {
                assert forall|l: (TaskId, TaskId)| self@.links.contains(l) == before@.links.contains(l) by {
                    if before@.links.contains(l) {
                        let e = choose|e: int|
                            0 <= e < before.edges.len() && before.ids@[(#[trigger] before.edges@[e]).0 as int]
                                == l.0 && before.ids@[before.edges@[e].1 as int] == l.1;
                        assert(self.ids@[self.edges@[e].0 as int] == l.0);
                    }
                    if self@.links.contains(l) {
                        let e = choose|e: int|
                            0 <= e < self.edges.len() && self.ids@[(#[trigger] self.edges@[e]).0 as int]
                                == l.0 && self.ids@[self.edges@[e].1 as int] == l.1;
                        assert(before.ids@[before.edges@[e].0 as int] == l.0);
                    }
                }
            }
        }
    }

    /// Takes over a stored dependency without vetting it. A dependency with
    /// an end that is no task of the graph is left out.
    pub fn insert_dependency(&mut self, source: TaskId, target: TaskId) -> (kept: bool)
        requires
            old(self).wf(),
        ensures
            final(self).wf(),
            kept == (old(self)@.has_node(source) && old(self)@.has_node(target)),
            final(self)@ == if kept {
                old(self)@.with_link(source, target)
            } else {
                old(self)@
            },
    {
        let ghost before = *self;
        let s: usize = match self.index.get(&source) {
            Some(i) => *i,
            None => {
                return false;
            },
        };
        let t: usize = match self.index.get(&target) {
            Some(i) => *i,
            None => {
                return false;
            },
        };
        self.edges.push((s, t));
        proof {
            assert(self@.weights =~= before@.weights);
            assert(self@.links =~= before@.links.insert((source, target))) by {
                assert forall|l: (TaskId, TaskId)|
                    self@.links.contains(l) == before@.links.insert((source, target)).contains(l) by {
                    if before@.links.contains(l) {
                        let e = choose|e: int|
                            0 <= e < before.edges.len() && before.ids@[(#[trigger] before.edges@[e]).0 as int]
                                == l.0 && before.ids@[before.edges@[e].1 as int] == l.1;
                        assert(self.ids@[self.edges@[e].0 as int] == l.0);
                    }
                    if l == (source, target) {
                        let e = before.edges.len() as int;
                        assert(self.ids@[self.edges@[e].0 as int] == l.0);
                    }
                    if self@.links.contains(l) {
                        let e = choose|e: int|
                            0 <= e < self.edges.len() && self.ids@[(#[trigger] self.edges@[e]).0 as int]
                                == l.0 && self.ids@[self.edges@[e].1 as int] == l.1;
                        if e < before.edges.len() {
                            assert(before.ids@[before.edges@[e].0 as int] == l.0);
                        }
                    }
                }
            }
        }
        true
    }

    /// Whether `to` can be reached from `from` over at least one dependency.
    pub fn reaches(&self, from: TaskId, to: TaskId) -> (found: bool)
        requires
            self.wf(),
        ensures
            found == self@.reaches(from, to),
    {
        let f: usize = match self.index.get(&from) {
            Some(i) => *i,
            None => {
                proof {
                    if self@.reaches(from, to) {
                        let p = choose|p: Seq<TaskId>| #[trigger]
                            self@.is_chain(p) && p.len() >= 2 && p[0] == from && p.last() == to;
                        assert(self@.has_node(p[0]));
                    }
                }
                return false;
            },
        };
        let t: usize = match self.index.get(&to) {
            Some(i) => *i,
            None => {
                proof {
                    if self@.reaches(from, to) {
                        let p = choose|p: Seq<TaskId>| #[trigger]
                            self@.is_chain(p) && p.len() >= 2 && p[0] == from && p.last() == to;
                        assert(self@.has_node(p[p.len() - 1]));
                    }
                }
                return false;
            },
        };
        let table = LinkTable::build(self.ids.len(), &self.edges);
        let seen = reach_from(&self.weights, &self.edges, &table, f);
        proof {
            self.lemma_reaches_dense(from, to);
        }
        seen[t]
    }

    /// Decides whether a dependency from `source` to `target` may be added:
    /// both must be tasks, they must differ, the opposite dependency must not
    /// be held, and `target` must not lead back to `source`.
    pub fn check_dependency(&self, source: TaskId, target: TaskId) -> (verdict: Result<(), GraphError>)
        requires
            self.wf(),
        ensures
            verdict == self@.vet_link(source, target),
    {
        let s: usize = match self.index.get(&source) {
            Some(i) => *i,
            None => {
                return Err(GraphError::TaskNotFound);
            },
        };
        let t: usize = match self.index.get(&target) {
            Some(i) => *i,
            None => {
                return Err(GraphError::TaskNotFound);
            },
        };
        if s == t {
            return Err(GraphError::SelfDependency);
        }
        if self.has_dependency(target, source) {
            return Err(GraphError::ReverseExists);
        }
        if self.reaches(target, source) {
            Err(GraphError::CycleDetected)
        } else {
            Ok(())
        }
    }

    /// Adds the dependency from `source` to `target` if the guard accepts it,
    /// and leaves the graph as it is otherwise. A graph without a cycle stays
    /// without one.
    pub fn create_dependency(&mut self, source: TaskId, target: TaskId) -> (verdict: Result<
        (),
        GraphError,
    >)
        requires
            old(self).wf(),
        ensures
            final(self).wf(),
            verdict == old(self)@.vet_link(source, target),
            final(self)@ == if verdict is Ok {
                old(self)@.with_link(source, target)
            } else {
                old(self)@
            },
            old(self)@.acyclic() ==> final(self)@.acyclic(),
    {
        let verdict = self.check_dependency(source, target);
        if verdict.is_ok() {
            proof {
                if self@.acyclic() {
                    self@.lemma_accepted_link_keeps_acyclic(source, target);
                }
            }
            let _kept = self.insert_dependency(source, target);
        }
        verdict
    }

    fn to_ids(&self, places: &Vec<usize>) -> (out: Vec<TaskId>)
        requires
            self.wf(),
            forall|i: int| 0 <= i < places.len() ==> #[trigger] places[i] < self.ids.len(),
        ensures
            out@ == places@.map_values(self.to_id()),
    {
        let mut out: Vec<TaskId> = Vec::new();
        let mut i: usize = 0;
        while i < places.len()
            invariant
                i <= places.len(),
                out.len() == i,
                forall|j: int| 0 <= j < places.len() ==> #[trigger] places[j] < self.ids.len(),
                forall|j: int| 0 <= j < i ==> out[j] == self.ids@[places[j] as int],
            decreases places.len() - i,
        {
            out.push(self.ids[places[i]]);
            i += 1;
        }
        assert(out@ =~= places@.map_values(self.to_id()));
        out
    }

    /// The tasks in an order in which every dependency points forward, or
    /// nothing where the dependencies hold a cycle.
    pub fn topological_order(&self) -> (found: Option<Vec<TaskId>>)
        requires
            self.wf(),
        ensures
            found is Some <==> self@.acyclic(),
            match found {
                Some(order) => self@.is_topological_order(order@),
                None => true,
            },
    {
        let table = LinkTable::build(self.ids.len(), &self.edges);
        proof {
            self.lemma_acyclic_dense();
        }
        match topological_order(&self.weights, &self.edges, &table) {
            Some(places) => {
                proof {
                    assert forall|i: int| 0 <= i < places.len() implies #[trigger] places[i]
                        < self.ids.len() by {
                        assert(places@.contains(places[i]));
                        assert(self.dense().has_node(places[i]));
                    }
                }
                let order = self.to_ids(&places);
                proof {
                    self.lemma_order_to_ids(places@);
                }
                Some(order)
            },
            None => None,
        }
    }

    proof fn lemma_order_to_ids(&self, places: Seq<usize>)
        requires
            self.wf(),
            self.dense().is_topological_order(places),
        ensures
            self@.is_topological_order(places.map_values(self.to_id())),
    {
        let g = self@;
        let d = self.dense();
        let h = self.to_id();
        let o = places.map_values(h);
        self.lemma_embeddings();
        assert forall|i: int| 0 <= i < places.len() implies #[trigger] places[i] < self.ids.len() by {
            assert(places.contains(places[i]));
            assert(d.has_node(places[i]));
        }
        assert forall|i: int, j: int| 0 <= i < o.len() && 0 <= j < o.len() && i != j implies o[i] != o[j] by {
            assert(self.index@[self.ids@[places[i] as int]] == places[i]);
            assert(self.index@[self.ids@[places[j] as int]] == places[j]);
        }
        assert forall|a: TaskId| g.has_node(a) <==> #[trigger] o.contains(a) by {
            if g.has_node(a) {
                let x = self.index@[a];
                assert(d.has_node(x));
                assert(places.contains(x));
                let i = choose|i: int| 0 <= i < places.len() && places[i] == x;
                assert(o[i] == a);
            }
            if o.contains(a) {
                let i = choose|i: int| 0 <= i < o.len() && o[i] == a;
                assert(self.index@.contains_key(self.ids@[places[i] as int]));
            }
        }
        assert forall|i: int, j: int|
            0 <= i < o.len() && 0 <= j < o.len() && #[trigger] g.has_link(o[i], o[j]) implies i < j by {
            assert(g.has_node(o[i]) && g.has_node(o[j])) by {
                assert(o.contains(o[i]) && o.contains(o[j]));
            }
            assert(d.has_link((self.to_index())(o[i]), (self.to_index())(o[j])));
            assert(self.index@[self.ids@[places[i] as int]] == places[i]);
            assert(self.index@[self.ids@[places[j] as int]] == places[j]);
            assert(d.has_link(places[i], places[j]));
        }
    }

    /// The critical path: a chain of dependent tasks of the greatest total
    /// weight over the whole graph, in the order of the dependencies. It is
    /// empty where the graph has no task. Where the dependencies hold a cycle
    /// there is no answer but `GraphInvalid`.
    pub fn critical_path(&self) -> (found: Result<Vec<TaskId>, GraphError>)
        requires
            self.wf(),
        ensures
            found is Ok <==> self@.acyclic(),
            match found {
                Ok(path) => self@.is_critical_path(path@),
                Err(e) => e == GraphError::GraphInvalid,
            },
    {
        let table = LinkTable::build(self.ids.len(), &self.edges);
        proof {
            self.lemma_acyclic_dense();
        }
        match topological_order(&self.weights, &self.edges, &table) {
            Some(places) => {
                let chain = longest_chain(&self.weights, &self.edges, &table, &places);
                proof {
                    if self.ids.len() > 0 {
                        assert(self.dense().has_node(0usize));
                        assert forall|i: int| 0 <= i < chain.len() implies #[trigger] chain[i]
                            < self.ids.len() by {
                            assert(self.dense().has_node(chain[i]));
                        }
                    }
                }
                let path = self.to_ids(&chain);
                proof {
                    self.lemma_critical_to_ids(chain@);
                }
                Ok(path)
            },
            None => Err(GraphError::GraphInvalid),
        }
    }

    /// The total weight of the critical path: the greatest total weight of
    /// any chain of dependent tasks, 0 for a graph without tasks.
    pub fn critical_weight(&self) -> (found: Result<u128, GraphError>)
        requires
            self.wf(),
        ensures
            found is Ok <==> self@.acyclic(),
            match found {
                Ok(total) => forall|p: Seq<TaskId>| #[trigger]
                    self@.is_critical_path(p) ==> self@.chain_weight(p) == total,
                Err(e) => e == GraphError::GraphInvalid,
            },
    {
        match self.critical_path() {
            Ok(path) => {
                proof {
                    assert forall|i: int| 0 <= i < path.len() implies self@.has_node(#[trigger] path[i]) by {
                        assert(self@.is_chain(path@));
                    }
                    assert forall|p: Seq<TaskId>| #[trigger] self@.is_critical_path(p) implies self@.chain_weight(
                        p,
                    ) == self@.chain_weight(path@) by {
                        self@.lemma_critical_weight_unique(p, path@);
                    }
                }
                Ok(self.path_weight(&path).unwrap())
            },
            Err(e) => Err(e),
        }
    }

    proof fn lemma_critical_to_ids(&self, chain: Seq<usize>)
        requires
            self.wf(),
            self.dense().is_critical_path(chain),
        ensures
            self@.is_critical_path(chain.map_values(self.to_id())),
    {
        let g = self@;
        let d = self.dense();
        let path = chain.map_values(self.to_id());
        self.lemma_embeddings();
        if self.ids.len() == 0 {
            assert(d.has_no_nodes());
            assert forall|a: TaskId| !g.has_node(a) by {
                if g.has_node(a) {
                    assert(self.index@[a] < self.ids.len());
                }
            }
        } else {
            assert(d.has_node(0usize));
            assert(g.has_node(self.ids@[0]));
            lemma_embedded_chain(d, g, self.to_id(), chain);
            assert forall|q: Seq<TaskId>| #[trigger] g.is_chain(q) implies g.chain_weight(q)
                <= g.chain_weight(path) by {
                lemma_embedded_chain(g, d, self.to_index(), q);
                assert(d.is_chain(q.map_values(self.to_index())));
            }
        }
    }
}

} // verus!
