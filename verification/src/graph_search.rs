//! The search of the dependency graph, and the operations that are built
//! on it: the program-order edges of a loaded program, and the firing of
//! a leaf.
use vstd::prelude::*;
use crate::graph_model::{GraphView, NodeId, NodeTypeView, PropagateView};
use crate::instruction::MemoryAccessMode;

verus! {

/// The number of positions not yet visited.
pub open spec fn unvisited(visited: Seq<bool>) -> nat
    decreases visited.len(),
{
    if visited.len() == 0 {
        0
    } else if visited.last() {
        unvisited(visited.drop_last())
    } else {
        unvisited(visited.drop_last()) + 1
    }
}

/// A visit to a position not yet visited leaves one position less to visit.
pub proof fn lemma_unvisited_mark(visited: Seq<bool>, i: int)
    requires
        0 <= i < visited.len(),
        !visited[i],
    ensures
        unvisited(visited.update(i, true)) + 1 == unvisited(visited),
    decreases visited.len(),
{
    let marked = visited.update(i, true);
    if i == visited.len() - 1 {
        assert(marked.drop_last() == visited.drop_last());
    } else {
        assert(marked.drop_last() == visited.drop_last().update(i, true));
        lemma_unvisited_mark(visited.drop_last(), i);
    }
}

impl GraphView {
    /// The flags of a search in which no node was visited yet.
    pub open spec fn unseen(self) -> Seq<bool> {
        Seq::new(self.nodes.len(), |i: int| false)
    }

    /// The keys of the nodes, in order.
    pub open spec fn keys(self) -> Seq<NodeId> {
        Seq::new(self.nodes.len(), |i: int| self.key_at(i))
    }

    /// Whether a search passes over a key: the graph has no such node, or
    /// the node was visited.
    pub open spec fn passed(self, id: NodeId, visited: Seq<bool>) -> bool {
        !self.contains(id) || visited[self.index_of(id)]
    }

    /// The flags after a depth-first search. `pending` holds the keys that
    /// the search is yet to come to, the next one first; a node not visited
    /// before is visited, and the nodes it waits for come next, in the
    /// order of its depends-on list.
    pub open spec fn visit(self, pending: Seq<NodeId>, visited: Seq<bool>) -> Seq<bool>
        decreases unvisited(visited), pending.len(),
    {
        if pending.len() == 0 || visited.len() != self.nodes.len() {
            visited
        } else if self.passed(pending[0], visited) {
            self.visit(pending.drop_first(), visited)
        } else {
            let i = self.index_of(pending[0]);
            proof {
                lemma_unvisited_mark(visited, i);
            }
            self.visit(self.nodes[i].depends_on + pending.drop_first(), visited.update(i, true))
        }
    }

    /// The keys that a depth-first search collects: those of the nodes it
    /// visits that are wanted, in the order in which it comes to them.
    pub open spec fn found(
        self,
        pending: Seq<NodeId>,
        visited: Seq<bool>,
        wanted: spec_fn(NodeId) -> bool,
    ) -> Seq<NodeId>
        decreases unvisited(visited), pending.len(),
    {
        if pending.len() == 0 || visited.len() != self.nodes.len() {
            Seq::empty()
        } else if self.passed(pending[0], visited) {
            self.found(pending.drop_first(), visited, wanted)
        } else {
            let i = self.index_of(pending[0]);
            proof {
                lemma_unvisited_mark(visited, i);
            }
            let rest = self.found(
                self.nodes[i].depends_on + pending.drop_first(),
                visited.update(i, true),
                wanted,
            );
            if wanted(pending[0]) {
                seq![pending[0]] + rest
            } else {
                rest
            }
        }
    }

    /// The keys of the wanted nodes, each once, in the order in which a
    /// depth-first search comes to them that starts from each node in turn
    /// and follows the depends-on edges.
    pub open spec fn search(self, wanted: spec_fn(NodeId) -> bool) -> Seq<NodeId> {
        self.found(self.keys(), self.unseen(), wanted)
    }
}

impl GraphView {
    /// A search keeps what was visited, and visits nothing twice.
    pub proof fn lemma_visit(self, pending: Seq<NodeId>, visited: Seq<bool>)
        requires
            visited.len() == self.nodes.len(),
        ensures
            self.visit(pending, visited).len() == visited.len(),
            forall|i: int|
                0 <= i < visited.len() && visited[i] ==> #[trigger] self.visit(pending, visited)[i],
            unvisited(self.visit(pending, visited)) <= unvisited(visited),
        decreases unvisited(visited), pending.len(),
    {
        if pending.len() == 0 {
        } else if self.passed(pending[0], visited) {
            self.lemma_visit(pending.drop_first(), visited);
        } else {
            let i = self.index_of(pending[0]);
            let marked = visited.update(i, true);
            lemma_unvisited_mark(visited, i);
            self.lemma_visit(self.nodes[i].depends_on + pending.drop_first(), marked);
            assert forall|k: int|
                0 <= k < visited.len() && visited[k] implies #[trigger] self.visit(
                pending,
                visited,
            )[k] by {
                assert(marked[k]);
            }
        }
    }

    /// A search of two lists of keys, one after the other, is a search of
    /// the first and then, from where that ends, a search of the second.
    pub proof fn lemma_search_split(
        self,
        first: Seq<NodeId>,
        second: Seq<NodeId>,
        visited: Seq<bool>,
        wanted: spec_fn(NodeId) -> bool,
    )
        requires
            visited.len() == self.nodes.len(),
        ensures
            self.visit(first + second, visited) == self.visit(
                second,
                self.visit(first, visited),
            ),
            self.found(first + second, visited, wanted) == self.found(first, visited, wanted)
                + self.found(second, self.visit(first, visited), wanted),
        decreases unvisited(visited), first.len(),
    {
        let both = first + second;
        if first.len() == 0 {
            assert(both == second);
            assert(self.found(first, visited, wanted) + self.found(second, visited, wanted)
                == self.found(second, visited, wanted));
        } else {
            assert(both[0] == first[0]);
            assert(both.drop_first() == first.drop_first() + second);
            if self.passed(first[0], visited) {
                self.lemma_search_split(first.drop_first(), second, visited, wanted);
            } else {
                let i = self.index_of(first[0]);
                let marked = visited.update(i, true);
                let next = self.nodes[i].depends_on + first.drop_first();
                lemma_unvisited_mark(visited, i);
                assert(self.nodes[i].depends_on + both.drop_first() == next + second);
                self.lemma_search_split(next, second, marked, wanted);
                let tail = self.found(next, marked, wanted);
                let last = self.found(second, self.visit(next, marked), wanted);
                assert(seq![first[0]] + (tail + last) == (seq![first[0]] + tail) + last);
            }
        }
    }

    /// What a search collects depends on which of the nodes it visits are
    /// wanted, and on nothing else.
    pub proof fn lemma_found_agrees(
        self,
        pending: Seq<NodeId>,
        visited: Seq<bool>,
        wanted: spec_fn(NodeId) -> bool,
        other: spec_fn(NodeId) -> bool,
    )
        requires
            visited.len() == self.nodes.len(),
            forall|i: int|
                0 <= i < self.nodes.len() && self.visit(pending, visited)[i] && !visited[i]
                    ==> wanted(#[trigger] self.key_at(i)) == other(self.key_at(i)),
        ensures
            self.found(pending, visited, wanted) == self.found(pending, visited, other),
        decreases unvisited(visited), pending.len(),
    {
        if pending.len() == 0 {
        } else if self.passed(pending[0], visited) {
            self.lemma_found_agrees(pending.drop_first(), visited, wanted, other);
        } else {
            let i = self.index_of(pending[0]);
            let marked = visited.update(i, true);
            let next = self.nodes[i].depends_on + pending.drop_first();
            lemma_unvisited_mark(visited, i);
            self.lemma_visit(next, marked);
            assert(self.visit(pending, visited)[i]);
            assert(self.key_at(i) == pending[0]);
            self.lemma_found_agrees(next, marked, wanted, other);
        }
    }
}

impl GraphView {
    /// Searches that want the same nodes of the graph collect the same.
    pub proof fn lemma_search_agrees(
        self,
        wanted: spec_fn(NodeId) -> bool,
        other: spec_fn(NodeId) -> bool,
    )
        requires
            forall|i: int|
                0 <= i < self.nodes.len() ==> wanted(#[trigger] self.key_at(i)) == other(
                    self.key_at(i),
                ),
        ensures
            self.search(wanted) == self.search(other),
    {
        self.lemma_found_agrees(self.keys(), self.unseen(), wanted, other);
    }

    /// The graph in which each of `sources`, in turn, waits for `to`.
    pub open spec fn add_edges_from(self, sources: Seq<NodeId>, to: NodeId) -> GraphView
        decreases sources.len(),
    {
        if sources.len() == 0 {
            self
        } else {
            self.add_edges_from(sources.drop_last(), to).add_edge(sources.last(), to)
        }
    }

    /// The graph in which `from` waits for each of `targets`, in turn.
    pub open spec fn add_edges_to(self, from: NodeId, targets: Seq<NodeId>) -> GraphView
        decreases targets.len(),
    {
        if targets.len() == 0 {
            self
        } else {
            self.add_edges_to(from, targets.drop_last()).add_edge(from, targets.last())
        }
    }

    /// The graph in which every later instruction of the thread of the node
    /// at position `n` waits for that node, in the order in which a search
    /// comes to them.
    pub open spec fn add_release_edges(self, n: int) -> GraphView {
        if self.nodes[n].instruction is Instruction {
            self.add_edges_from(
                self.search(|id: NodeId| self.in_program_order(id, self.key_at(n))),
                self.key_at(n),
            )
        } else {
            self
        }
    }

    /// The graph in which the node at position `n` waits for every earlier
    /// instruction of its thread, in the order in which a search comes to
    /// them.
    pub open spec fn add_acquire_edges(self, n: int) -> GraphView {
        if self.nodes[n].instruction is Instruction {
            self.add_edges_to(
                self.key_at(n),
                self.search(|id: NodeId| self.in_program_order(self.key_at(n), id)),
            )
        } else {
            self
        }
    }

    /// The graph with the program-order edges that the node at position `n`
    /// asks for: those of a release, those of an acquire, or first those of
    /// a release and then those of an acquire.
    pub open spec fn add_dependencies(self, n: int) -> GraphView {
        let mode = self.nodes[n].instruction.mode();
        if mode == MemoryAccessMode::Rel {
            self.add_release_edges(n)
        } else if mode == MemoryAccessMode::Acq {
            self.add_acquire_edges(n)
        } else if mode == MemoryAccessMode::RelAcq {
            self.add_release_edges(n).add_acquire_edges(n)
        } else {
            self
        }
    }

    /// The graph with the program-order edges that its first `n` nodes ask
    /// for, node by node.
    pub open spec fn build_among(self, n: int) -> GraphView
        decreases n,
    {
        if n <= 0 {
            self
        } else {
            self.build_among(n - 1).add_dependencies(n - 1)
        }
    }

    /// The graph with the program-order edges that its nodes ask for.
    pub open spec fn build(self) -> GraphView {
        self.build_among(self.nodes.len() as int)
    }

    /// The graph once the leaf `node` has fired. Without a propagation the
    /// leaf is removed. With one, the leaf is removed and the propagation
    /// added as the last node; then every fence of its thread waits for
    /// it; then it waits for the other propagations of its thread, under
    /// partial store order only for those to its location; each in the
    /// order in which a search comes to them.
    pub open spec fn fire(
        self,
        node: NodeId,
        propagation: Option<PropagateView>,
        pso: bool,
    ) -> GraphView {
        match propagation {
            None => self.remove_node(node),
            Some(propagate) => {
                let kind = NodeTypeView::Propagate(propagate);
                let base = self.remove_node(node).add_node(kind);
                let p = kind.key();
                let fenced = base.add_edges_from(
                    base.search(|id: NodeId| base.fence_edge(id, p)),
                    p,
                );
                fenced.add_edges_to(
                    p,
                    fenced.search(
                        |id: NodeId| fenced.drain_edge(p, propagate.to_location, pso, id),
                    ),
                )
            },
        }
    }
}

} // verus!
