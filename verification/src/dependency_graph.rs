//! The dependency graph: the pending instructions and propagations of a
//! program under total or partial store order, and which of them must wait
//! for which. Its leaves are the steps that may be taken next.
use vstd::prelude::*;
use vstd::string::*;
use crate::graph_model::{
    lemma_push_no_duplicates, lemma_without, without, GraphView, NodeId, NodeTypeView, NodeView,
    PropagateView,
};
use crate::graph_search::{lemma_unvisited_mark, unvisited};
use crate::instruction::{Instruction, LabeledInstruction, MemoryAccessMode, Reference};

verus! {

/// The pending drain of one buffered write: the instruction that wrote, and
/// the location written.
#[derive(Debug, PartialEq)]
pub struct Propagate {
    pub associated_write: LabeledInstruction,
    pub to_location: Reference,
}

impl View for Propagate {
    type V = PropagateView;

    open spec fn view(&self) -> PropagateView {
        PropagateView { associated_write: self.associated_write@, to_location: self.to_location@ }
    }
}

impl Clone for Propagate {
    fn clone(&self) -> (res: Self)
        ensures
            res == *self,
    {
        Propagate {
            associated_write: self.associated_write.clone(),
            to_location: self.to_location.clone(),
        }
    }
}

impl Propagate {
    pub fn new(associated_write: LabeledInstruction, to_location: Reference) -> (p: Self)
        ensures
            p.associated_write == associated_write,
            p.to_location == to_location,
    {
        Self { associated_write, to_location }
    }
}

/// What a node of the graph stands for.
#[derive(Debug, PartialEq)]
pub enum NodeType {
    Instruction(LabeledInstruction),
    Propagate(Propagate),
}

impl View for NodeType {
    type V = NodeTypeView;

    open spec fn view(&self) -> NodeTypeView {
        match self {
            NodeType::Instruction(instruction) => NodeTypeView::Instruction(instruction@),
            NodeType::Propagate(propagate) => NodeTypeView::Propagate(propagate@),
        }
    }
}

impl Clone for NodeType {
    fn clone(&self) -> (res: Self)
        ensures
            res == *self,
    {
        match self {
            NodeType::Instruction(instruction) => NodeType::Instruction(instruction.clone()),
            NodeType::Propagate(propagate) => NodeType::Propagate(propagate.clone()),
        }
    }
}

impl PropagateView {
    /// The identifier of a propagation: `prop_`, then that of its write.
    pub open spec fn id(self) -> Seq<char> {
        "prop_"@ + self.associated_write.id()
    }
}

impl NodeTypeView {
    /// The identifier of a node: that of its instruction or propagation.
    pub open spec fn id(self) -> Seq<char> {
        match self {
            NodeTypeView::Instruction(instruction) => instruction.id(),
            NodeTypeView::Propagate(propagate) => propagate.id(),
        }
    }

    /// The rendering of a node.
    pub open spec fn text(self) -> Seq<char> {
        match self {
            NodeTypeView::Instruction(instruction) => instruction.text(),
            NodeTypeView::Propagate(propagate) => "Propagate for write ("@
                + propagate.associated_write.text() + ")"@,
        }
    }
}

impl Propagate {
    /// The identifier of the propagation.
    pub fn id(&self) -> (s: String)
        ensures
            s@ == self@.id(),
    {
        let mut s = "prop_".to_owned();
        s.append(self.associated_write.id().as_str());
        s
    }
}

impl NodeType {
    /// The identifier of the node.
    pub fn id(&self) -> (s: String)
        ensures
            s@ == self@.id(),
    {
        match self {
            NodeType::Instruction(instruction) => instruction.id(),
            NodeType::Propagate(propagate) => propagate.id(),
        }
    }

    /// Renders the node.
    pub fn to_string(&self) -> (s: String)
        ensures
            s@ == self@.text(),
    {
        match self {
            NodeType::Instruction(instruction) => instruction.to_string(),
            NodeType::Propagate(propagate) => {
                let mut s = "Propagate for write (".to_owned();
                s.append(propagate.associated_write.to_string().as_str());
                s.append(")");
                s
            },
        }
    }

    pub fn thread_id(&self) -> (t: usize)
        ensures
            t == self@.thread_id(),
    {
        match self {
            NodeType::Instruction(instruction) => instruction.thread_id,
            NodeType::Propagate(propagate) => propagate.associated_write.thread_id,
        }
    }

    pub fn line_index(&self) -> (l: usize)
        ensures
            l == self@.line_index(),
    {
        match self {
            NodeType::Instruction(instruction) => instruction.line_index,
            NodeType::Propagate(propagate) => propagate.associated_write.line_index,
        }
    }

    /// The key under which the node stands in a graph.
    pub fn key(&self) -> (id: NodeId)
        ensures
            id == self@.key(),
    {
        match self {
            NodeType::Instruction(instruction) => NodeId {
                propagate: false,
                thread_id: instruction.thread_id,
                line_index: instruction.line_index,
            },
            NodeType::Propagate(propagate) => NodeId {
                propagate: true,
                thread_id: propagate.associated_write.thread_id,
                line_index: propagate.associated_write.line_index,
            },
        }
    }
}

/// A node of the graph with its two edge lists.
#[derive(Debug, PartialEq)]
pub struct InstructionNode {
    pub instruction: NodeType,
    /// The nodes that must fire before this one.
    pub depends_on: Vec<NodeId>,
    /// The nodes that wait for this one.
    pub depends_on_me: Vec<NodeId>,
}

impl View for InstructionNode {
    type V = NodeView;

    open spec fn view(&self) -> NodeView {
        NodeView {
            instruction: self.instruction@,
            depends_on: self.depends_on@,
            depends_on_me: self.depends_on_me@,
        }
    }
}

/// The dependency graph.
pub struct DependencyGraph {
    pub nodes: Vec<InstructionNode>,
}

impl View for DependencyGraph {
    type V = GraphView;

    open spec fn view(&self) -> GraphView {
        GraphView { nodes: Seq::new(self.nodes@.len(), |i: int| self.nodes@[i]@) }
    }
}

/// Whether a list of keys holds a key.
fn holds(list: &Vec<NodeId>, id: NodeId) -> (b: bool)
    ensures
        b == list@.contains(id),
{
    let mut i: usize = 0;
    while i < list.len()
        invariant
            i <= list.len(),
            forall|k: int| 0 <= k < i ==> list@[k] != id,
        decreases list.len() - i,
    {
        if list[i] == id {
            return true;
        }
        i = i + 1;
    }
    false
}

impl InstructionNode {
    fn new(instruction: LabeledInstruction) -> (node: Self)
        ensures
            node@ == (NodeView {
                instruction: NodeTypeView::Instruction(instruction@),
                depends_on: Seq::empty(),
                depends_on_me: Seq::empty(),
            }),
    {
        Self {
            instruction: NodeType::Instruction(instruction),
            depends_on: Vec::new(),
            depends_on_me: Vec::new(),
        }
    }

    fn new_propagate(write: LabeledInstruction, to_location: Reference) -> (node: Self)
        ensures
            node@ == (NodeView {
                instruction: NodeTypeView::Propagate(
                    PropagateView { associated_write: write@, to_location: to_location@ },
                ),
                depends_on: Seq::empty(),
                depends_on_me: Seq::empty(),
            }),
    {
        Self {
            instruction: NodeType::Propagate(Propagate::new(write, to_location)),
            depends_on: Vec::new(),
            depends_on_me: Vec::new(),
        }
    }

    /// Makes `from` wait for `to`. Nothing changes where the graph lacks
    /// one of the two or has the edge already.
    pub fn add_dependency(graph: &mut DependencyGraph, from: NodeId, to: NodeId)
        requires
            old(graph)@.wf(),
        ensures
            final(graph)@ == old(graph)@.add_edge(from, to),
            final(graph)@.wf(),
            old(graph)@.ordered() && old(graph)@.edge_in_order(from, to)
                ==> final(graph)@.ordered(),
    {
        proof {
            if old(graph)@.ordered() && old(graph)@.edge_in_order(from, to) {
                old(graph)@.lemma_add_edge_ordered(from, to);
            }
        }
        let fi = match graph.position(from) {
            Some(i) => i,
            None => {
                return ;
            },
        };
        let ti = match graph.position(to) {
            Some(i) => i,
            None => {
                return ;
            },
        };
        if holds(&graph.nodes[fi].depends_on, to) {
            return ;
        }
        proof {
            old(graph)@.lemma_add_edge(from, to);
        }
        graph.nodes[fi].depends_on.push(to);
        graph.nodes[ti].depends_on_me.push(from);
        assert(graph@.nodes =~= old(graph)@.add_edge(from, to).nodes);
    }
}

impl DependencyGraph {
    pub fn new() -> (g: Self)
        ensures
            g@.nodes == Seq::<NodeView>::empty(),
            g@.wf(),
            g@.ordered(),
    {
        let g = Self { nodes: Vec::new() };
        assert(g@.nodes =~= Seq::<NodeView>::empty());
        g
    }

    /// The position of the node with the key, if the graph holds it.
    pub fn position(&self, id: NodeId) -> (r: Option<usize>)
        ensures
            r is Some <==> self@.contains(id),
            r matches Some(i) ==> i < self.nodes@.len() && self@.key_at(i as int) == id
                && forall|k: int| 0 <= k < i ==> self@.key_at(k) != id,
            r matches Some(i) ==> self@.unique_keys() ==> i == self@.index_of(id),
    {
        let mut i: usize = 0;
        while i < self.nodes.len()
            invariant
                i <= self.nodes.len(),
                forall|k: int| 0 <= k < i ==> self@.key_at(k) != id,
            decreases self.nodes.len() - i,
        {
            if self.nodes[i].instruction.key() == id {
                proof {
                    if self@.unique_keys() {
                        self@.lemma_index_of(i as int);
                    }
                }
                return Some(i);
            }
            i = i + 1;
        }
        None
    }
}

impl DependencyGraph {
    /// Whether the graph holds a node with the key.
    pub fn contains(&self, id: NodeId) -> (b: bool)
        ensures
            b == self@.contains(id),
    {
        self.position(id).is_some()
    }

    /// The node with the key, if the graph holds it.
    pub fn node(&self, id: NodeId) -> (r: Option<&InstructionNode>)
        ensures
            r is Some <==> self@.contains(id),
            r matches Some(node) ==> node@.instruction.key() == id && (self@.unique_keys()
                ==> node@ == self@.nodes[self@.index_of(id)]),
    {
        match self.position(id) {
            Some(i) => Some(&self.nodes[i]),
            None => None,
        }
    }

    /// Adds a propagation node, without edges, and returns its key.
    pub fn add_propagate(&mut self, write: LabeledInstruction, to_location: Reference) -> (id:
        NodeId)
        requires
            old(self)@.wf(),
            !old(self)@.contains(
                NodeId {
                    propagate: true,
                    thread_id: write.thread_id,
                    line_index: write.line_index,
                },
            ),
        ensures
            final(self)@ == old(self)@.add_node(
                NodeTypeView::Propagate(
                    PropagateView { associated_write: write@, to_location: to_location@ },
                ),
            ),
            final(self)@.wf(),
            old(self)@.ordered() ==> final(self)@.ordered(),
            id == (NodeId {
                propagate: true,
                thread_id: write.thread_id,
                line_index: write.line_index,
            }),
    {
        let id = NodeId {
            propagate: true,
            thread_id: write.thread_id,
            line_index: write.line_index,
        };
        let ghost kind = NodeTypeView::Propagate(
            PropagateView { associated_write: write@, to_location: to_location@ },
        );
        proof {
            old(self)@.lemma_add_node(kind);
            if old(self)@.ordered() {
                old(self)@.lemma_add_node_ordered(kind);
            }
        }
        self.nodes.push(InstructionNode::new_propagate(write, to_location));
        assert(self@.nodes =~= old(self)@.add_node(kind).nodes);
        id
    }

    /// Adds an instruction node, without edges, and returns its key.
    pub fn add_node(&mut self, instruction: LabeledInstruction) -> (id: NodeId)
        requires
            old(self)@.wf(),
            !old(self)@.contains(
                NodeId {
                    propagate: false,
                    thread_id: instruction.thread_id,
                    line_index: instruction.line_index,
                },
            ),
        ensures
            final(self)@ == old(self)@.add_node(NodeTypeView::Instruction(instruction@)),
            final(self)@.wf(),
            old(self)@.ordered() ==> final(self)@.ordered(),
            id == (NodeId {
                propagate: false,
                thread_id: instruction.thread_id,
                line_index: instruction.line_index,
            }),
    {
        let id = NodeId {
            propagate: false,
            thread_id: instruction.thread_id,
            line_index: instruction.line_index,
        };
        let ghost kind = NodeTypeView::Instruction(instruction@);
        proof {
            old(self)@.lemma_add_node(kind);
            if old(self)@.ordered() {
                old(self)@.lemma_add_node_ordered(kind);
            }
        }
        self.nodes.push(InstructionNode::new(instruction));
        assert(self@.nodes =~= old(self)@.add_node(kind).nodes);
        id
    }

    /// The steps that may be taken next: the keys of the nodes that wait
    /// for nothing, in the order of the nodes.
    pub fn get_leaves(&self) -> (leaves: Vec<NodeId>)
        ensures
            leaves@ == self@.leaves(),
            self@.unique_keys() ==> forall|id: NodeId|
                #[trigger] leaves@.contains(id) <==> self@.is_leaf(id),
    {
        let mut leaves: Vec<NodeId> = Vec::new();
        let mut i: usize = 0;
        while i < self.nodes.len()
            invariant
                i <= self.nodes.len(),
                leaves@ == self@.leaves_among(i as int),
            decreases self.nodes.len() - i,
        {
            if self.nodes[i].depends_on.len() == 0 {
                leaves.push(self.nodes[i].instruction.key());
            }
            i = i + 1;
        }
        proof {
            assert(leaves@ == self@.leaves());
            if self@.unique_keys() {
                self@.lemma_leaves();
                assert forall|id: NodeId| #[trigger] leaves@.contains(id) <==> self@.is_leaf(
                    id,
                ) by {
                    assert(self@.leaves().contains(id) <==> self@.is_leaf(id));
                }
            }
        }
        leaves
    }
}

impl DependencyGraph {
    /// What holds of a search in progress: nothing was collected twice;
    /// what was collected was visited and met the predicate; what was
    /// visited and not collected did not meet it.
    pub open spec fn search_invariant<F: Fn(&NodeType) -> bool>(
        &self,
        visited: Seq<bool>,
        result: Seq<NodeId>,
        predicate: &F,
    ) -> bool {
        &&& visited.len() == self.nodes@.len()
        &&& result.no_duplicates()
        &&& forall|id: NodeId| #[trigger]
            result.contains(id) ==> self@.contains(id) && visited[self@.index_of(id)]
                && call_ensures(*predicate, (&self.nodes@[self@.index_of(id)].instruction,), true)
        &&& forall|i: int|
            0 <= i < self.nodes@.len() && #[trigger] visited[i] && !result.contains(
                self@.key_at(i),
            ) ==> call_ensures(*predicate, (&self.nodes@[i].instruction,), false)
    }

    /// Visits the node with the key and, through the depends-on edges, every
    /// node that can be reached from it and was not visited before; collects
    /// the keys of the visited nodes that meet the predicate, in the order
    /// in which the search comes to them. `visited` holds one flag per
    /// node, by position.
    pub fn dfs_filter_aux<F: Fn(&NodeType) -> bool>(
        &self,
        node: NodeId,
        visited: &mut Vec<bool>,
        result: &mut Vec<NodeId>,
        predicate: &F,
    )
        requires
            self@.wf(),
            self.search_invariant(old(visited)@, old(result)@, predicate),
            forall|i: int|
                0 <= i < self.nodes@.len() ==> call_requires(
                    *predicate,
                    (&#[trigger] self.nodes@[i].instruction,),
                ),
        ensures
            self.search_invariant(final(visited)@, final(result)@, predicate),
            final(visited)@ == self@.visit(seq![node], old(visited)@),
            final(result)@ == old(result)@ + self@.found(
                seq![node],
                old(visited)@,
                |id: NodeId| final(result)@.contains(id),
            ),
            forall|id: NodeId|
                #[trigger] final(result)@.contains(id) && !old(result)@.contains(id)
                    ==> self@.contains(id) && !old(visited)@[self@.index_of(id)],
            forall|i: int|
                0 <= i < self.nodes@.len() && old(visited)@[i] ==> #[trigger] final(visited)@[i],
            self@.contains(node) ==> final(visited)@[self@.index_of(node)],
        decreases unvisited(old(visited)@),
    {
        let ghost graph = self@;
        let ghost v0 = visited@;
        let ghost r0 = result@;
        let ghost one = seq![node];
        proof {
            assert(one.drop_first() == Seq::<NodeId>::empty());
            assert(r0 + Seq::<NodeId>::empty() == r0);
            graph.lemma_visit(one, v0);
        }
        let idx = match self.position(node) {
            Some(i) => i,
            None => {
                proof {
                    assert(graph.passed(node, v0));
                    assert(graph.visit(one, v0) == graph.visit(one.drop_first(), v0));
                    assert(graph.found(one, v0, |id: NodeId| r0.contains(id)) == graph.found(
                        one.drop_first(),
                        v0,
                        |id: NodeId| r0.contains(id),
                    ));
                }
                return ;
            },
        };
        proof {
            graph.lemma_index_of(idx as int);
        }
        if visited[idx] {
            proof {
                assert(graph.passed(node, v0));
                assert(graph.visit(one, v0) == graph.visit(one.drop_first(), v0));
                assert(graph.found(one, v0, |id: NodeId| r0.contains(id)) == graph.found(
                    one.drop_first(),
                    v0,
                    |id: NodeId| r0.contains(id),
                ));
            }
            return ;
        }
        proof {
            lemma_unvisited_mark(visited@, idx as int);
        }
        visited.set(idx, true);
        let ghost marked = visited@;
        let keep = predicate(&self.nodes[idx].instruction);
        let ghost head = if keep {
            seq![node]
        } else {
            Seq::<NodeId>::empty()
        };
        assert(!r0.contains(node)) by {
            if r0.contains(node) {
                assert(v0[graph.index_of(node)]);
            }
        }
        if keep {
            proof {
                lemma_push_no_duplicates(result@, node);
            }
            result.push(node);
            assert forall|id: NodeId| #[trigger] result@.contains(id) implies graph.contains(id)
                && visited@[graph.index_of(id)] && call_ensures(
                *predicate,
                (&self.nodes@[graph.index_of(id)].instruction,),
                true,
            ) by {
                broadcast use vstd::seq_lib::lemma_seq_contains_after_push;

                if id != node {
                    assert(r0.contains(id));
                }
            }
            assert forall|i: int|
                0 <= i < self.nodes@.len() && #[trigger] visited@[i] && !result@.contains(
                    graph.key_at(i),
                ) implies call_ensures(*predicate, (&self.nodes@[i].instruction,), false) by {
                broadcast use vstd::seq_lib::lemma_seq_contains_after_push;

                assert(i != idx);
                assert(v0[i]);
                assert(!r0.contains(graph.key_at(i)));
            }
        } else {
            assert forall|i: int|
                0 <= i < self.nodes@.len() && #[trigger] visited@[i] && !result@.contains(
                    graph.key_at(i),
                ) implies call_ensures(*predicate, (&self.nodes@[i].instruction,), false) by {
                if i != idx {
                    assert(v0[i]);
                }
            }
        }
        assert(result@ == r0 + head);
        let ghost waits = graph.nodes[idx as int].depends_on;
        proof {
            assert(waits.take(0) == Seq::<NodeId>::empty());
            assert(r0 + head + Seq::<NodeId>::empty() == r0 + head);
        }
        let mut k: usize = 0;
        while k < self.nodes[idx].depends_on.len()
            invariant
                graph == self@,
                graph.wf(),
                idx < self.nodes@.len(),
                waits == graph.nodes[idx as int].depends_on,
                waits == self.nodes@[idx as int].depends_on@,
                k <= waits.len(),
                self.search_invariant(visited@, result@, predicate),
                forall|i: int|
                    0 <= i < self.nodes@.len() ==> call_requires(
                        *predicate,
                        (&#[trigger] self.nodes@[i].instruction,),
                    ),
                v0 == old(visited)@,
                v0.len() == self.nodes@.len(),
                marked == v0.update(idx as int, true),
                unvisited(marked) < unvisited(v0),
                visited@ == graph.visit(waits.take(k as int), marked),
                result@ == r0 + head + graph.found(
                    waits.take(k as int),
                    marked,
                    |id: NodeId| result@.contains(id),
                ),
                forall|id: NodeId|
                    #[trigger] result@.contains(id) && !(r0 + head).contains(id) ==> graph.contains(
                        id,
                    ) && !marked[graph.index_of(id)],
            decreases waits.len() - k,
        {
            let ghost vk = visited@;
            let ghost rk = result@;
            let ghost done = waits.take(k as int);
            let next = self.nodes[idx].depends_on[k];
            proof {
                graph.lemma_visit(done, marked);
                assert(unvisited(visited@) < unvisited(v0));
            }
            self.dfs_filter_aux(next, visited, result, predicate);
            proof {
                let now = result@;
                let member = |id: NodeId| now.contains(id);
                let before = |id: NodeId| rk.contains(id);
                let one = seq![next];
                assert(waits.take(k + 1) == done + one);
                graph.lemma_search_split(done, one, marked, member);
                graph.lemma_visit(one, vk);
                assert forall|i: int|
                    0 <= i < graph.nodes.len() && graph.visit(done, marked)[i]
                        && !marked[i] implies member(#[trigger] graph.key_at(i)) == before(
                    graph.key_at(i),
                ) by {
                    graph.lemma_index_of(i);
                    let id = graph.key_at(i);
                    if now.contains(id) && !rk.contains(id) {
                        assert(!vk[graph.index_of(id)]);
                    }
                    if rk.contains(id) {
                        let m = choose|m: int| 0 <= m < rk.len() && rk[m] == id;
                        assert(now[m] == id);
                    }
                }
                graph.lemma_found_agrees(done, marked, member, before);
                let gone = graph.found(one, vk, member);
                assert(now == rk + gone);
                assert(now == (r0 + head + graph.found(done, marked, before)) + gone);
                assert((r0 + head + graph.found(done, marked, member)) + gone == r0 + head + (
                graph.found(done, marked, member) + gone));
                assert forall|id: NodeId| #[trigger]
                    now.contains(id) && !(r0 + head).contains(id) implies graph.contains(id)
                    && !marked[graph.index_of(id)] by {
                    if !rk.contains(id) {
                        assert(!vk[graph.index_of(id)]);
                    }
                }
            }
            k = k + 1;
        }
        proof {
            let last = result@;
            let member = |id: NodeId| last.contains(id);
            assert(waits.take(k as int) == waits);
            assert(waits + one.drop_first() == waits);
            graph.lemma_visit(waits, marked);
            assert(!graph.passed(node, v0));
            assert(graph.visit(one, v0) == graph.visit(waits, marked));
            assert(member(node) == keep) by {
                if keep {
                    assert((r0 + head)[r0.len() as int] == node);
                    assert(last[r0.len() as int] == node);
                } else if last.contains(node) {
                    assert(head == Seq::<NodeId>::empty());
                    assert(r0 + head == r0);
                    assert(!marked[graph.index_of(node)]);
                }
            }
            assert(graph.found(one, v0, member) == head + graph.found(waits, marked, member));
            assert(r0 + head + graph.found(waits, marked, member) == r0 + (head + graph.found(
                waits,
                marked,
                member,
            )));
            assert forall|id: NodeId| #[trigger]
                last.contains(id) && !r0.contains(id) implies graph.contains(id)
                && !v0[graph.index_of(id)] by {
                if (r0 + head).contains(id) {
                    let m = choose|m: int| 0 <= m < (r0 + head).len() && (r0 + head)[m] == id;
                    if m < r0.len() {
                        assert(r0[m] == id);
                    }
                    assert(id == node);
                }
            }
        }
    }
}

impl DependencyGraph {
    /// The keys of the nodes that meet the predicate, each once, in the
    /// order in which a depth-first search comes to them that starts from
    /// each node in turn and follows the depends-on edges.
    pub fn dfs_filter<F: Fn(&NodeType) -> bool>(&self, predicate: F) -> (result: Vec<NodeId>)
        requires
            self@.wf(),
            forall|i: int|
                0 <= i < self.nodes@.len() ==> call_requires(
                    predicate,
                    (&#[trigger] self.nodes@[i].instruction,),
                ),
        ensures
            result@.no_duplicates(),
            forall|id: NodeId| #[trigger]
                result@.contains(id) ==> self@.contains(id) && call_ensures(
                    predicate,
                    (&self.nodes@[self@.index_of(id)].instruction,),
                    true,
                ),
            forall|i: int|
                0 <= i < self.nodes@.len() && !result@.contains(#[trigger] self@.key_at(i))
                    ==> call_ensures(predicate, (&self.nodes@[i].instruction,), false),
            result@ == self@.search(|id: NodeId| result@.contains(id)),
    {
        let ghost graph = self@;
        let ghost keys = graph.keys();
        let n: usize = self.nodes.len();
        let mut visited: Vec<bool> = Vec::new();
        let mut j: usize = 0;
        while j < n
            invariant
                j <= n,
                visited@.len() == j,
                forall|i: int| 0 <= i < j ==> !visited@[i],
            decreases n - j,
        {
            visited.push(false);
            j = j + 1;
        }
        assert(visited@ == graph.unseen());
        let mut result: Vec<NodeId> = Vec::new();
        let mut i: usize = 0;
        proof {
            assert(keys.take(0) == Seq::<NodeId>::empty());
        }
        while i < n
            invariant
                graph == self@,
                keys == graph.keys(),
                n == self.nodes@.len(),
                i <= n,
                graph.wf(),
                self.search_invariant(visited@, result@, &predicate),
                forall|k: int| 0 <= k < i ==> visited@[k],
                forall|k: int|
                    0 <= k < self.nodes@.len() ==> call_requires(
                        predicate,
                        (&#[trigger] self.nodes@[k].instruction,),
                    ),
                visited@ == graph.visit(keys.take(i as int), graph.unseen()),
                result@ == graph.found(
                    keys.take(i as int),
                    graph.unseen(),
                    |id: NodeId| result@.contains(id),
                ),
            decreases n - i,
        {
            let ghost vi = visited@;
            let ghost ri = result@;
            let ghost done = keys.take(i as int);
            let root = self.nodes[i].instruction.key();
            proof {
                graph.lemma_index_of(i as int);
            }
            self.dfs_filter_aux(root, &mut visited, &mut result, &predicate);
            proof {
                let now = result@;
                let member = |id: NodeId| now.contains(id);
                let before = |id: NodeId| ri.contains(id);
                let one = seq![root];
                assert(keys.take(i + 1) == done + one);
                graph.lemma_search_split(done, one, graph.unseen(), member);
                assert forall|k: int|
                    0 <= k < graph.nodes.len() && graph.visit(done, graph.unseen())[k]
                        && !graph.unseen()[k] implies member(#[trigger] graph.key_at(k))
                    == before(graph.key_at(k)) by {
                    graph.lemma_index_of(k);
                    let id = graph.key_at(k);
                    if now.contains(id) && !ri.contains(id) {
                        assert(!vi[graph.index_of(id)]);
                    }
                    if ri.contains(id) {
                        let m = choose|m: int| 0 <= m < ri.len() && ri[m] == id;
                        assert(now[m] == id);
                    }
                }
                graph.lemma_found_agrees(done, graph.unseen(), member, before);
            }
            i = i + 1;
        }
        assert(keys.take(n as int) == keys);
        assert forall|i: int|
            0 <= i < self.nodes@.len() && !result@.contains(
                #[trigger] self@.key_at(i),
            ) implies call_ensures(predicate, (&self.nodes@[i].instruction,), false) by {
            assert(visited@[i]);
        }
        result
    }
}

impl DependencyGraph {
    /// Makes each of `sources` wait for `to`.
    fn add_edges_from(&mut self, sources: &Vec<NodeId>, to: NodeId)
        requires
            old(self)@.wf(),
        ensures
            final(self)@ == old(self)@.add_edges_from(sources@, to),
            final(self)@.wf(),
            old(self)@.extended_by(final(self)@),
            forall|a: NodeId, b: NodeId|
                #[trigger] final(self)@.depends(a, b) <==> old(self)@.depends(a, b) || (b == to
                    && sources@.contains(a) && old(self)@.contains(a) && old(self)@.contains(to)),
            old(self)@.ordered() && (forall|k: int|
                0 <= k < sources@.len() && old(self)@.contains(#[trigger] sources@[k]) && old(
                    self,
                )@.contains(to) ==> old(self)@.edge_in_order(sources@[k], to))
                ==> final(self)@.ordered(),
    {
        let ghost start = self@;
        let ghost in_order = start.ordered() && (forall|k: int|
            0 <= k < sources@.len() && start.contains(#[trigger] sources@[k]) && start.contains(to)
                ==> start.edge_in_order(sources@[k], to));
        proof {
            start.lemma_extended_by_itself();
            assert(sources@.take(0) == Seq::<NodeId>::empty());
        }
        let mut k: usize = 0;
        while k < sources.len()
            invariant
                k <= sources@.len(),
                start.wf(),
                self@.wf(),
                self@ == start.add_edges_from(sources@.take(k as int), to),
                start.extended_by(self@),
                forall|a: NodeId, b: NodeId|
                    #[trigger] self@.depends(a, b) <==> start.depends(a, b) || (b == to
                        && sources@.take(k as int).contains(a) && start.contains(a)
                        && start.contains(to)),
                in_order == (start.ordered() && (forall|k: int|
                    0 <= k < sources@.len() && start.contains(#[trigger] sources@[k])
                        && start.contains(to) ==> start.edge_in_order(sources@[k], to))),
                in_order ==> self@.ordered(),
            decreases sources@.len() - k,
        {
            let ghost before = self@;
            let from = sources[k];
            proof {
                before.lemma_add_edge(from, to);
                before.lemma_add_edge_extends(from, to);
                start.lemma_extended_twice(before, before.add_edge(from, to));
                if in_order {
                    assert(start.contains(from) && start.contains(to) ==> start.edge_in_order(
                        from,
                        to,
                    ));
                    before.lemma_add_edge_ordered(from, to);
                }
                assert(sources@.take(k + 1) == sources@.take(k as int).push(from));
                assert(sources@.take(k + 1).drop_last() == sources@.take(k as int));
            }
            InstructionNode::add_dependency(self, from, to);
            proof {
                broadcast use vstd::seq_lib::lemma_seq_contains_after_push;

                assert forall|a: NodeId, b: NodeId| #[trigger]
                    self@.depends(a, b) <==> start.depends(a, b) || (b == to && sources@.take(
                        k + 1,
                    ).contains(a) && start.contains(a) && start.contains(to)) by {
                    assert(before.depends(a, b) <==> start.depends(a, b) || (b == to
                        && sources@.take(k as int).contains(a) && start.contains(a)
                        && start.contains(to)));
                }
            }
            k = k + 1;
        }
        assert(sources@.take(k as int) == sources@);
    }

    /// Makes `from` wait for each of `targets`.
    fn add_edges_to(&mut self, from: NodeId, targets: &Vec<NodeId>)
        requires
            old(self)@.wf(),
        ensures
            final(self)@ == old(self)@.add_edges_to(from, targets@),
            final(self)@.wf(),
            old(self)@.extended_by(final(self)@),
            forall|a: NodeId, b: NodeId|
                #[trigger] final(self)@.depends(a, b) <==> old(self)@.depends(a, b) || (a == from
                    && targets@.contains(b) && old(self)@.contains(b) && old(self)@.contains(
                    from,
                )),
            old(self)@.ordered() && (forall|k: int|
                0 <= k < targets@.len() && old(self)@.contains(#[trigger] targets@[k]) && old(
                    self,
                )@.contains(from) ==> old(self)@.edge_in_order(from, targets@[k]))
                ==> final(self)@.ordered(),
    {
        let ghost start = self@;
        let ghost in_order = start.ordered() && (forall|k: int|
            0 <= k < targets@.len() && start.contains(#[trigger] targets@[k]) && start.contains(
                from,
            ) ==> start.edge_in_order(from, targets@[k]));
        proof {
            start.lemma_extended_by_itself();
            assert(targets@.take(0) == Seq::<NodeId>::empty());
        }
        let mut k: usize = 0;
        while k < targets.len()
            invariant
                k <= targets@.len(),
                start.wf(),
                self@.wf(),
                self@ == start.add_edges_to(from, targets@.take(k as int)),
                start.extended_by(self@),
                forall|a: NodeId, b: NodeId|
                    #[trigger] self@.depends(a, b) <==> start.depends(a, b) || (a == from
                        && targets@.take(k as int).contains(b) && start.contains(b)
                        && start.contains(from)),
                in_order == (start.ordered() && (forall|k: int|
                    0 <= k < targets@.len() && start.contains(#[trigger] targets@[k])
                        && start.contains(from) ==> start.edge_in_order(from, targets@[k]))),
                in_order ==> self@.ordered(),
            decreases targets@.len() - k,
        {
            let ghost before = self@;
            let to = targets[k];
            proof {
                before.lemma_add_edge(from, to);
                before.lemma_add_edge_extends(from, to);
                start.lemma_extended_twice(before, before.add_edge(from, to));
                if in_order {
                    assert(start.contains(to) && start.contains(from) ==> start.edge_in_order(
                        from,
                        to,
                    ));
                    before.lemma_add_edge_ordered(from, to);
                }
                assert(targets@.take(k + 1) == targets@.take(k as int).push(to));
                assert(targets@.take(k + 1).drop_last() == targets@.take(k as int));
            }
            InstructionNode::add_dependency(self, from, to);
            proof {
                broadcast use vstd::seq_lib::lemma_seq_contains_after_push;

                assert forall|a: NodeId, b: NodeId| #[trigger]
                    self@.depends(a, b) <==> start.depends(a, b) || (a == from && targets@.take(
                        k + 1,
                    ).contains(b) && start.contains(b) && start.contains(from)) by {
                    assert(before.depends(a, b) <==> start.depends(a, b) || (a == from
                        && targets@.take(k as int).contains(b) && start.contains(b)
                        && start.contains(from)));
                }
            }
            k = k + 1;
        }
        assert(targets@.take(k as int) == targets@);
    }
}

impl NodeType {
    /// The mode that decides the node's program-order edges.
    pub fn effective_mode(&self) -> (mode: MemoryAccessMode)
        ensures
            mode == self@.mode(),
    {
        match self {
            NodeType::Instruction(labeled) => match &labeled.instruction {
                Instruction::Load(mode, _, _) => if *mode == MemoryAccessMode::SeqCst {
                    MemoryAccessMode::Acq
                } else {
                    *mode
                },
                Instruction::Store(mode, _, _) => if *mode == MemoryAccessMode::SeqCst {
                    MemoryAccessMode::Rel
                } else {
                    *mode
                },
                Instruction::Cas(_, mode, _, _, _) => if *mode == MemoryAccessMode::SeqCst {
                    MemoryAccessMode::RelAcq
                } else {
                    *mode
                },
                Instruction::Fai(_, mode, _, _) => if *mode == MemoryAccessMode::SeqCst {
                    MemoryAccessMode::RelAcq
                } else {
                    *mode
                },
                Instruction::Fence(mode) => if *mode == MemoryAccessMode::SeqCst {
                    MemoryAccessMode::Rlx
                } else {
                    *mode
                },
                _ => MemoryAccessMode::Rlx,
            },
            NodeType::Propagate(_) => MemoryAccessMode::Rlx,
        }
    }
}

impl DependencyGraph {
    /// Makes every later instruction of the thread of the node at
    /// `node_index` wait for that node, where it is an instruction.
    fn add_rel_deps(&mut self, node_index: usize)
        requires
            old(self)@.wf(),
            node_index < old(self).nodes@.len(),
        ensures
            final(self)@ == old(self)@.add_release_edges(node_index as int),
            final(self)@.wf(),
            old(self)@.extended_by(final(self)@),
            forall|a: NodeId, b: NodeId|
                #[trigger] final(self)@.depends(a, b) <==> old(self)@.depends(a, b) || (b == old(
                    self,
                )@.key_at(node_index as int) && old(self)@.in_program_order(a, b)),
            old(self)@.ordered() ==> final(self)@.ordered(),
    {
        let (thread_id, line_index) = match &self.nodes[node_index].instruction {
            NodeType::Instruction(current) => (current.thread_id, current.line_index),
            NodeType::Propagate(_) => {
                proof {
                    self@.lemma_extended_by_itself();
                }
                return ;
            },
        };
        let to = NodeId { propagate: false, thread_id, line_index };
        let later = |other: &NodeType| -> (b: bool)
            ensures
                b == (other@ matches NodeTypeView::Instruction(o) && o.thread_id == thread_id
                    && line_index < o.line_index),
            {
                match other {
                    NodeType::Instruction(o) => thread_id == o.thread_id && line_index
                        < o.line_index,
                    NodeType::Propagate(_) => false,
                }
            };
        let sources = self.dfs_filter(later);
        proof {
            let g = self@;
            g.lemma_index_of(node_index as int);
            assert forall|a: NodeId| #[trigger]
                sources@.contains(a) && g.contains(a) <==> g.in_program_order(a, to) by {
                if g.contains(a) {
                    let i = g.index_of(a);
                    assert(g.key_at(i) == a);
                    assert(self.nodes@[i].instruction@ == g.nodes[i].instruction);
                }
            }
            let member = |id: NodeId| sources@.contains(id);
            let wanted = |id: NodeId| g.in_program_order(id, g.key_at(node_index as int));
            assert forall|i: int| 0 <= i < g.nodes.len() implies member(#[trigger] g.key_at(i))
                == wanted(g.key_at(i)) by {
                g.lemma_index_of(i);
                assert(sources@.contains(g.key_at(i)) && g.contains(g.key_at(i))
                    <==> g.in_program_order(g.key_at(i), to));
            }
            g.lemma_search_agrees(member, wanted);
        }
        self.add_edges_from(&sources, to);
    }

    /// Makes the node at `node_index` wait for every earlier instruction of
    /// its thread, where it is an instruction.
    fn add_acq_deps(&mut self, node_index: usize)
        requires
            old(self)@.wf(),
            node_index < old(self).nodes@.len(),
        ensures
            final(self)@ == old(self)@.add_acquire_edges(node_index as int),
            final(self)@.wf(),
            old(self)@.extended_by(final(self)@),
            forall|a: NodeId, b: NodeId|
                #[trigger] final(self)@.depends(a, b) <==> old(self)@.depends(a, b) || (a == old(
                    self,
                )@.key_at(node_index as int) && old(self)@.in_program_order(a, b)),
            old(self)@.ordered() ==> final(self)@.ordered(),
    {
        let (thread_id, line_index) = match &self.nodes[node_index].instruction {
            NodeType::Instruction(current) => (current.thread_id, current.line_index),
            NodeType::Propagate(_) => {
                proof {
                    self@.lemma_extended_by_itself();
                }
                return ;
            },
        };
        let from = NodeId { propagate: false, thread_id, line_index };
        let earlier = |other: &NodeType| -> (b: bool)
            ensures
                b == (other@ matches NodeTypeView::Instruction(o) && o.thread_id == thread_id
                    && o.line_index < line_index),
            {
                match other {
                    NodeType::Instruction(o) => thread_id == o.thread_id && line_index
                        > o.line_index,
                    NodeType::Propagate(_) => false,
                }
            };
        let targets = self.dfs_filter(earlier);
        proof {
            let g = self@;
            g.lemma_index_of(node_index as int);
            assert forall|b: NodeId| #[trigger]
                targets@.contains(b) && g.contains(b) <==> g.in_program_order(from, b) by {
                if g.contains(b) {
                    let i = g.index_of(b);
                    assert(g.key_at(i) == b);
                    assert(self.nodes@[i].instruction@ == g.nodes[i].instruction);
                }
            }
            let member = |id: NodeId| targets@.contains(id);
            let wanted = |id: NodeId| g.in_program_order(g.key_at(node_index as int), id);
            assert forall|i: int| 0 <= i < g.nodes.len() implies member(#[trigger] g.key_at(i))
                == wanted(g.key_at(i)) by {
                g.lemma_index_of(i);
                assert(targets@.contains(g.key_at(i)) && g.contains(g.key_at(i))
                    <==> g.in_program_order(from, g.key_at(i)));
            }
            g.lemma_search_agrees(member, wanted);
        }
        self.add_edges_to(from, &targets);
    }

    /// Adds the program-order edges that the node at `node_index` asks for.
    pub fn add_dependencies(&mut self, node_index: usize)
        requires
            old(self)@.wf(),
            node_index < old(self).nodes@.len(),
        ensures
            final(self)@ == old(self)@.add_dependencies(node_index as int),
            final(self)@.wf(),
            old(self)@.extended_by(final(self)@),
            forall|a: NodeId, b: NodeId|
                #[trigger] final(self)@.depends(a, b) <==> old(self)@.depends(a, b) || old(
                    self,
                )@.program_order_from(node_index as int, a, b),
            old(self)@.ordered() ==> final(self)@.ordered(),
    {
        proof {
            old(self)@.lemma_extended_by_itself();
        }
        let mode = self.nodes[node_index].instruction.effective_mode();
        match mode {
            MemoryAccessMode::Rel => {
                self.add_rel_deps(node_index);
            },
            MemoryAccessMode::Acq => {
                self.add_acq_deps(node_index);
            },
            MemoryAccessMode::RelAcq => {
                self.add_rel_deps(node_index);
                let ghost middle = self@;
                self.add_acq_deps(node_index);
                proof {
                    old(self)@.lemma_extended_twice(middle, self@);
                }
            },
            _ => {},
        }
    }

    /// Adds the program-order edges of every node: an instruction waits for
    /// an earlier instruction of its thread where the earlier one releases
    /// or the later one acquires.
    pub fn build_dependencies(&mut self)
        requires
            old(self)@.wf(),
        ensures
            final(self)@ == old(self)@.build(),
            final(self)@.wf(),
            old(self)@.extended_by(final(self)@),
            forall|a: NodeId, b: NodeId|
                #[trigger] final(self)@.depends(a, b) <==> old(self)@.depends(a, b) || old(
                    self,
                )@.program_order(a, b),
            old(self)@.ordered() ==> final(self)@.ordered() && final(self)@.acyclic(),
    {
        let ghost start = self@;
        let node_count: usize = self.nodes.len();
        let mut index: usize = 0;
        while index < node_count
            invariant
                index <= node_count,
                node_count == self.nodes@.len(),
                start.wf(),
                self@.wf(),
                self@ == start.build_among(index as int),
                start.extended_by(self@),
                forall|a: NodeId, b: NodeId|
                    #[trigger] self@.depends(a, b) <==> start.depends(a, b)
                        || start.program_order_among(index as int, a, b),
                start.ordered() ==> self@.ordered(),
            decreases node_count - index,
        {
            let ghost before = self@;
            self.add_dependencies(index);
            proof {
                assert forall|a: NodeId, b: NodeId| #[trigger]
                    self@.depends(a, b) <==> start.depends(a, b) || start.program_order_among(
                        index + 1,
                        a,
                        b,
                    ) by {
                    assert(before.depends(a, b) <==> start.depends(a, b)
                        || start.program_order_among(index as int, a, b));
                    start.lemma_index_of(index as int);
                }
                start.lemma_extended_twice(before, self@);
            }
            index = index + 1;
        }
        proof {
            if start.ordered() {
                self@.lemma_ordered_acyclic();
            }
        }
    }
}

/// A copy of a list of keys without the given key.
fn remove_key(list: &Vec<NodeId>, id: NodeId) -> (out: Vec<NodeId>)
    ensures
        out@ == without(list@, id),
{
    let mut out: Vec<NodeId> = Vec::new();
    let mut i: usize = 0;
    while i < list.len()
        invariant
            i <= list.len(),
            out@ == without(list@.take(i as int), id),
        decreases list.len() - i,
    {
        assert(list@.take(i + 1).drop_last() == list@.take(i as int));
        if list[i] != id {
            out.push(list[i]);
        }
        i = i + 1;
    }
    assert(list@.take(i as int) == list@);
    out
}

/// A copy of a list of keys.
fn copy_keys(list: &Vec<NodeId>) -> (out: Vec<NodeId>)
    ensures
        out@ == list@,
{
    let mut out: Vec<NodeId> = Vec::new();
    let mut i: usize = 0;
    while i < list.len()
        invariant
            i <= list.len(),
            out@ == list@.take(i as int),
        decreases list.len() - i,
    {
        out.push(list[i]);
        assert(list@.take(i + 1) == list@.take(i as int).push(list@[i as int]));
        i = i + 1;
    }
    assert(list@.take(i as int) == list@);
    out
}

impl DependencyGraph {
    /// Takes a leaf out of the graph: drops it from the depends-on list of
    /// each node that waited for it, then from the nodes.
    fn detach(&mut self, node: NodeId)
        requires
            old(self)@.wf(),
            old(self)@.is_leaf(node),
        ensures
            final(self)@ == old(self)@.remove_node(node),
    {
        let ghost start = self@;
        let idx = match self.position(node) {
            Some(i) => i,
            None => {
                return ;
            },
        };
        let dependants = copy_keys(&self.nodes[idx].depends_on_me);
        assert(dependants@ == start.nodes[idx as int].depends_on_me);
        assert(dependants@.no_duplicates());
        let mut k: usize = 0;
        while k < dependants.len()
            invariant
                start.wf(),
                idx < start.nodes.len(),
                k <= dependants@.len(),
                dependants@ == start.nodes[idx as int].depends_on_me,
                dependants@.no_duplicates(),
                self.nodes@.len() == start.nodes.len(),
                forall|j: int|
                    0 <= j < start.nodes.len() ==> (#[trigger] self.nodes@[j]).instruction@
                        == start.nodes[j].instruction && self.nodes@[j].depends_on_me@
                        == start.nodes[j].depends_on_me && self.nodes@[j].depends_on@
                        == if dependants@.take(k as int).contains(start.key_at(j)) {
                        without(start.nodes[j].depends_on, node)
                    } else {
                        start.nodes[j].depends_on
                    },
            decreases dependants@.len() - k,
        {
            let d = dependants[k];
            let ghost now = dependants@.take(k as int);
            assert(dependants@.take(k + 1) == now.push(d));
            assert(!now.contains(d)) by {
                if now.contains(d) {
                    let m = choose|m: int| 0 <= m < now.len() && now[m] == d;
                    assert(dependants@[m] == dependants@[k as int]);
                }
            }
            match self.position(d) {
                Some(di) => {
                    proof {
                        assert(self@.key_at(di as int) == start.key_at(di as int));
                        start.lemma_index_of(di as int);
                    }
                    let kept = remove_key(&self.nodes[di].depends_on, node);
                    self.nodes[di].depends_on = kept;
                    assert forall|j: int| 0 <= j < start.nodes.len() implies (
                    #[trigger] self.nodes@[j]).instruction@ == start.nodes[j].instruction
                        && self.nodes@[j].depends_on_me@ == start.nodes[j].depends_on_me
                        && self.nodes@[j].depends_on@ == if dependants@.take(k + 1).contains(
                        start.key_at(j),
                    ) {
                        without(start.nodes[j].depends_on, node)
                    } else {
                        start.nodes[j].depends_on
                    } by {
                        broadcast use vstd::seq_lib::lemma_seq_contains_after_push;

                        if j != di {
                            start.lemma_index_of(j);
                        }
                    }
                },
                None => {
                    proof {
                        assert(start.nodes[idx as int].depends_on_me.contains(d));
                        assert(start.contains(d));
                        let i = start.index_of(d);
                        assert(self@.key_at(i) == d);
                    }
                },
            }
            k = k + 1;
        }
        assert(dependants@.take(k as int) == dependants@);
        self.nodes.remove(idx);
        proof {
            let goal = start.remove_node(node);
            start.lemma_index_of(idx as int);
            assert(goal.nodes.len() == self@.nodes.len());
            assert forall|j: int| 0 <= j < goal.nodes.len() implies self@.nodes[j]
                == goal.nodes[j] by {
                let s = if j < idx {
                    j
                } else {
                    j + 1
                };
                lemma_without(start.nodes[s].depends_on, node);
                assert(start.nodes[s].depends_on.contains(start.key_at(idx as int))
                    <==> start.nodes[idx as int].depends_on_me.contains(start.key_at(s)));
            }
            assert(self@.nodes =~= goal.nodes);
        }
    }
}

/// The key of the propagation of a write.
pub open spec fn propagate_key(write: LabeledInstruction) -> NodeId {
    NodeId { propagate: true, thread_id: write.thread_id, line_index: write.line_index }
}

/// What a propagation of a write to a location stands for.
pub open spec fn propagate_kind(write: LabeledInstruction, location: Reference) -> NodeTypeView {
    NodeTypeView::Propagate(PropagateView { associated_write: write@, to_location: location@ })
}

/// The propagation that a firing asks for, as a mathematical value.
pub open spec fn propagation_view(propagate: Option<(LabeledInstruction, Reference)>) -> Option<
    PropagateView,
> {
    match propagate {
        Some((write, location)) => Some(
            PropagateView { associated_write: write@, to_location: location@ },
        ),
        None => None,
    }
}

impl DependencyGraph {
    /// Removes a leaf that has fired. Where it buffered a write, adds the
    /// propagation of that write: every fence of the thread then waits for
    /// it, and it waits for the other propagations of the thread; under
    /// partial store order only for those to the same location.
    pub fn remove_node(
        &mut self,
        node: NodeId,
        propagate: Option<(LabeledInstruction, Reference)>,
        pso: bool,
    )
        requires
            old(self)@.wf(),
            old(self)@.is_leaf(node),
            propagate matches Some((write, _)) ==> !old(self)@.contains(propagate_key(write)),
        ensures
            final(self)@ == old(self)@.fire(node, propagation_view(propagate), pso),
            final(self)@.wf(),
            old(self)@.fired(final(self)@, node, propagation_view(propagate), pso),
            old(self)@.ordered() ==> final(self)@.ordered() && final(self)@.acyclic(),
    {
        proof {
            old(self)@.lemma_remove_node(node);
            if old(self)@.ordered() {
                old(self)@.lemma_remove_node_ordered(node);
                old(self)@.remove_node(node).lemma_ordered_acyclic();
            }
        }
        self.detach(node);
        match propagate {
            None => {},
            Some((write, location)) => {
                let ghost removed = self@;
                let ghost kind = propagate_kind(write, location);
                let ghost base = removed.add_node(kind);
                let thread_id = write.thread_id;
                let line_index = write.line_index;
                let target = location.clone();
                proof {
                    removed.lemma_add_node(kind);
                    if removed.ordered() {
                        removed.lemma_add_node_ordered(kind);
                    }
                }
                let p = self.add_propagate(write, location);
                assert(self@ == base);
                let is_fence = |other: &NodeType| -> (b: bool)
                    ensures
                        b == (other@.is_fence() && other@.thread_id() == thread_id),
                    {
                        match other {
                            NodeType::Instruction(labeled) => match &labeled.instruction {
                                Instruction::Fence(_) => labeled.thread_id == thread_id,
                                _ => false,
                            },
                            NodeType::Propagate(_) => false,
                        }
                    };
                let fences = self.dfs_filter(is_fence);
                proof {
                    assert forall|a: NodeId| #[trigger]
                        fences@.contains(a) && base.contains(a) <==> base.fence_edge(a, p) by {
                        if base.contains(a) {
                            let i = base.index_of(a);
                            assert(base.key_at(i) == a);
                            assert(self.nodes@[i].instruction@ == base.nodes[i].instruction);
                        }
                    }
                    let member = |id: NodeId| fences@.contains(id);
                    let wanted = |id: NodeId| base.fence_edge(id, p);
                    assert forall|i: int| 0 <= i < base.nodes.len() implies member(
                        #[trigger] base.key_at(i),
                    ) == wanted(base.key_at(i)) by {
                        base.lemma_index_of(i);
                        assert(fences@.contains(base.key_at(i)) && base.contains(base.key_at(i))
                            <==> base.fence_edge(base.key_at(i), p));
                    }
                    base.lemma_search_agrees(member, wanted);
                    assert forall|k: int|
                        0 <= k < fences@.len() && base.contains(#[trigger] fences@[k])
                            && base.contains(p) implies base.edge_in_order(fences@[k], p) by {
                        let a = fences@[k];
                        assert(fences@.contains(a));
                        let i = base.index_of(a);
                        assert(base.key_at(i) == a);
                        assert(self.nodes@[i].instruction@ == base.nodes[i].instruction);
                    }
                }
                self.add_edges_from(&fences, p);
                let ghost fenced = self@;
                let is_earlier = |other: &NodeType| -> (b: bool)
                    ensures
                        b == (other@ matches NodeTypeView::Propagate(q)
                            && q.associated_write.thread_id == thread_id
                            && q.associated_write.line_index != line_index && (pso
                            ==> q.to_location == target@)),
                    {
                        match other {
                            NodeType::Propagate(q) => q.associated_write.thread_id == thread_id
                                && q.associated_write.line_index != line_index && (!pso
                                || q.to_location.same(&target)),
                            NodeType::Instruction(_) => false,
                        }
                    };
                let earlier = self.dfs_filter(is_earlier);
                proof {
                    assert forall|b: NodeId| #[trigger]
                        earlier@.contains(b) && base.contains(b) <==> base.drain_edge(
                            p,
                            target@,
                            pso,
                            b,
                        ) by {
                        if base.contains(b) {
                            let i = base.index_of(b);
                            assert(base.key_at(i) == b);
                            assert(fenced.contains(b));
                            assert(fenced.index_of(b) == i);
                            assert(fenced.nodes[i].instruction == base.nodes[i].instruction);
                            assert(fenced.key_at(i) == b);
                            assert(self.nodes@[i].instruction@ == fenced.nodes[i].instruction);
                            assert(target@ == location@);
                        }
                    }
                    let member = |id: NodeId| earlier@.contains(id);
                    let wanted = |id: NodeId| fenced.drain_edge(p, location@, pso, id);
                    assert forall|i: int| 0 <= i < fenced.nodes.len() implies member(
                        #[trigger] fenced.key_at(i),
                    ) == wanted(fenced.key_at(i)) by {
                        base.lemma_index_of(i);
                        fenced.lemma_index_of(i);
                        let id = fenced.key_at(i);
                        assert(id == base.key_at(i));
                        assert(earlier@.contains(id) && base.contains(id) <==> base.drain_edge(
                            p,
                            target@,
                            pso,
                            id,
                        ));
                        assert(fenced.kind_of(id) == base.kind_of(id));
                    }
                    fenced.lemma_search_agrees(member, wanted);
                    assert forall|k: int|
                        0 <= k < earlier@.len() && fenced.contains(#[trigger] earlier@[k])
                            && fenced.contains(p) implies fenced.edge_in_order(p, earlier@[k]) by {
                        let b = earlier@[k];
                        assert(earlier@.contains(b));
                        let i = base.index_of(b);
                        assert(base.key_at(i) == b);
                        assert(fenced.nodes[i].instruction == base.nodes[i].instruction);
                        assert(self.nodes@[i].instruction@ == fenced.nodes[i].instruction);
                    }
                }
                self.add_edges_to(p, &earlier);
                proof {
                    let last = self@;
                    base.lemma_extended_twice(fenced, last);
                    if old(self)@.ordered() {
                        last.lemma_ordered_acyclic();
                    }
                }
            },
        }
    }
}

} // verus!
