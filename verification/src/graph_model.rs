//! The dependency graph as a mathematical value: nodes with their two edge
//! lists, the invariants of the graph, and the operations on it.
use vstd::prelude::*;
use crate::instruction::{
    InstructionView, LabeledInstructionView, MemoryAccessMode, ReferenceView,
};

verus! {

/// The key of a node: whether it is a propagation, and the thread and line
/// of the instruction it stands for. No two nodes of a graph share a key.
#[derive(Debug, Clone, Copy, PartialEq, Eq, Structural, Hash)]
pub struct NodeId {
    pub propagate: bool,
    pub thread_id: usize,
    pub line_index: usize,
}

/// A pending propagation as a mathematical value.
pub struct PropagateView {
    pub associated_write: LabeledInstructionView,
    pub to_location: ReferenceView,
}

/// What a node stands for, as a mathematical value.
pub enum NodeTypeView {
    Instruction(LabeledInstructionView),
    Propagate(PropagateView),
}

/// The mode that decides which program-order edges an instruction gets:
/// a sequentially consistent load acquires, a sequentially consistent store
/// releases, a sequentially consistent read-modify-write does both; any
/// other mode of a memory operation or a fence stands for itself; every
/// other instruction is relaxed.
pub open spec fn effective_mode(instruction: InstructionView) -> MemoryAccessMode {
    match instruction {
        InstructionView::Load(mode, _, _) => if mode == MemoryAccessMode::SeqCst {
            MemoryAccessMode::Acq
        } else {
            mode
        },
        InstructionView::Store(mode, _, _) => if mode == MemoryAccessMode::SeqCst {
            MemoryAccessMode::Rel
        } else {
            mode
        },
        InstructionView::Cas(_, mode, _, _, _) => if mode == MemoryAccessMode::SeqCst {
            MemoryAccessMode::RelAcq
        } else {
            mode
        },
        InstructionView::Fai(_, mode, _, _) => if mode == MemoryAccessMode::SeqCst {
            MemoryAccessMode::RelAcq
        } else {
            mode
        },
        InstructionView::Fence(mode) => if mode == MemoryAccessMode::SeqCst {
            MemoryAccessMode::Rlx
        } else {
            mode
        },
        _ => MemoryAccessMode::Rlx,
    }
}

/// Whether a mode releases: what follows in program order waits for it.
pub open spec fn releases(mode: MemoryAccessMode) -> bool {
    mode == MemoryAccessMode::Rel || mode == MemoryAccessMode::RelAcq
}

/// Whether a mode acquires: it waits for what precedes in program order.
pub open spec fn acquires(mode: MemoryAccessMode) -> bool {
    mode == MemoryAccessMode::Acq || mode == MemoryAccessMode::RelAcq
}

impl NodeTypeView {
    pub open spec fn thread_id(self) -> usize {
        match self {
            NodeTypeView::Instruction(instruction) => instruction.thread_id,
            NodeTypeView::Propagate(propagate) => propagate.associated_write.thread_id,
        }
    }

    pub open spec fn line_index(self) -> usize {
        match self {
            NodeTypeView::Instruction(instruction) => instruction.line_index,
            NodeTypeView::Propagate(propagate) => propagate.associated_write.line_index,
        }
    }

    pub open spec fn key(self) -> NodeId {
        NodeId {
            propagate: self is Propagate,
            thread_id: self.thread_id(),
            line_index: self.line_index(),
        }
    }

    /// Whether the node is a fence instruction.
    pub open spec fn is_fence(self) -> bool {
        self matches NodeTypeView::Instruction(instruction) && instruction.instruction is Fence
    }

    /// The effective mode of the node; a propagation is relaxed.
    pub open spec fn mode(self) -> MemoryAccessMode {
        match self {
            NodeTypeView::Instruction(instruction) => effective_mode(instruction.instruction),
            NodeTypeView::Propagate(_) => MemoryAccessMode::Rlx,
        }
    }
}

/// A node as a mathematical value: what it stands for, the keys of the nodes
/// that must fire before it, and the keys of the nodes that wait for it.
pub struct NodeView {
    pub instruction: NodeTypeView,
    pub depends_on: Seq<NodeId>,
    pub depends_on_me: Seq<NodeId>,
}

/// A sequence of keys without the given key.
pub open spec fn without(s: Seq<NodeId>, id: NodeId) -> Seq<NodeId>
    decreases s.len(),
{
    if s.len() == 0 {
        Seq::empty()
    } else if s.last() == id {
        without(s.drop_last(), id)
    } else {
        without(s.drop_last(), id).push(s.last())
    }
}

/// What `without` keeps: every other key, once where it was there once.
pub proof fn lemma_without(s: Seq<NodeId>, id: NodeId)
    ensures
        forall|x: NodeId| #[trigger] without(s, id).contains(x) <==> s.contains(x) && x != id,
        s.no_duplicates() ==> without(s, id).no_duplicates(),
        !s.contains(id) ==> without(s, id) == s,
        without(s, id).len() <= s.len(),
    decreases s.len(),
{
    broadcast use vstd::seq_lib::lemma_seq_contains_after_push;

    if s.len() > 0 {
        let rest = s.drop_last();
        let last = s.last();
        let w = without(rest, id);
        lemma_without(rest, id);
        assert(s == rest.push(last));
        if s.no_duplicates() {
            assert(rest.no_duplicates());
            assert(!rest.contains(last)) by {
                if rest.contains(last) {
                    let m = choose|m: int| 0 <= m < rest.len() && rest[m] == last;
                    assert(s[m] == s[s.len() - 1]);
                }
            }
            if last != id {
                assert(!w.contains(last));
                assert forall|i: int, j: int|
                    0 <= i < w.push(last).len() && 0 <= j < w.push(last).len() && i
                        != j implies w.push(last)[i] != w.push(last)[j] by {
                    if i < w.len() {
                        assert(w.contains(w[i]));
                    }
                    if j < w.len() {
                        assert(w.contains(w[j]));
                    }
                }
            }
        }
        if !s.contains(id) {
            assert(last != id);
            assert(!rest.contains(id));
        }
    }
}

/// A dependency graph as a mathematical value: its nodes, in the order in
/// which they were added.
pub struct GraphView {
    pub nodes: Seq<NodeView>,
}

impl GraphView {
    /// The key of the node at a position.
    pub open spec fn key_at(self, i: int) -> NodeId {
        self.nodes[i].instruction.key()
    }

    /// Whether the graph has a node with the key.
    pub open spec fn contains(self, id: NodeId) -> bool {
        exists|i: int| 0 <= i < self.nodes.len() && (#[trigger] self.key_at(i)) == id
    }

    /// The position of the node with the key.
    pub open spec fn index_of(self, id: NodeId) -> int {
        choose|i: int| 0 <= i < self.nodes.len() && (#[trigger] self.key_at(i)) == id
    }

    /// What the nodes stand for, in order.
    pub open spec fn kinds(self) -> Seq<NodeTypeView> {
        Seq::new(self.nodes.len(), |i: int| self.nodes[i].instruction)
    }

    /// Whether `a` must wait for `b`: `b` is in the depends-on list of `a`.
    pub open spec fn depends(self, a: NodeId, b: NodeId) -> bool {
        self.contains(a) && self.nodes[self.index_of(a)].depends_on.contains(b)
    }

    /// Whether `b` is in the depended-on-by list of `a`.
    pub open spec fn depended_on_by(self, a: NodeId, b: NodeId) -> bool {
        self.contains(a) && self.nodes[self.index_of(a)].depends_on_me.contains(b)
    }

    /// Whether the node with the key waits for nothing.
    pub open spec fn is_leaf(self, id: NodeId) -> bool {
        self.contains(id) && self.nodes[self.index_of(id)].depends_on.len() == 0
    }

    /// No two nodes share a key.
    pub open spec fn unique_keys(self) -> bool {
        forall|i: int, j: int|
            0 <= i < j < self.nodes.len() ==> #[trigger] self.key_at(i) != #[trigger] self.key_at(
                j,
            )
    }

    /// Every edge leads to a node of the graph.
    pub open spec fn edges_closed(self) -> bool {
        &&& forall|i: int, b: NodeId|
            0 <= i < self.nodes.len() && #[trigger] self.nodes[i].depends_on.contains(b)
                ==> self.contains(b)
        &&& forall|i: int, b: NodeId|
            0 <= i < self.nodes.len() && #[trigger] self.nodes[i].depends_on_me.contains(b)
                ==> self.contains(b)
    }

    /// No edge list names a node twice.
    pub open spec fn edges_unique(self) -> bool {
        forall|i: int|
            0 <= i < self.nodes.len() ==> (#[trigger] self.nodes[i]).depends_on.no_duplicates()
                && self.nodes[i].depends_on_me.no_duplicates()
    }

    /// The two edge lists mirror each other: one node names another as
    /// a prerequisite exactly when the other names it as a dependant.
    pub open spec fn edges_symmetric(self) -> bool {
        forall|i: int, j: int|
            #![trigger self.nodes[i].depends_on.contains(self.key_at(j))]
            #![trigger self.nodes[j].depends_on_me.contains(self.key_at(i))]
            0 <= i < self.nodes.len() && 0 <= j < self.nodes.len() ==> (
            self.nodes[i].depends_on.contains(self.key_at(j))
                <==> self.nodes[j].depends_on_me.contains(self.key_at(i)))
    }

    /// The invariant of a dependency graph.
    pub open spec fn wf(self) -> bool {
        &&& self.unique_keys()
        &&& self.edges_closed()
        &&& self.edges_unique()
        &&& self.edges_symmetric()
    }

    /// The graph of the given nodes, in order, without edges.
    pub open spec fn without_edges(kinds: Seq<NodeTypeView>) -> GraphView {
        GraphView {
            nodes: Seq::new(
                kinds.len(),
                |i: int|
                    NodeView {
                        instruction: kinds[i],
                        depends_on: Seq::empty(),
                        depends_on_me: Seq::empty(),
                    },
            ),
        }
    }

    /// The graph with one more node, which has no edges.
    pub open spec fn add_node(self, instruction: NodeTypeView) -> GraphView {
        GraphView {
            nodes: self.nodes.push(
                NodeView { instruction, depends_on: Seq::empty(), depends_on_me: Seq::empty() },
            ),
        }
    }

    /// The graph with the edge by which `from` waits for `to`, appended to
    /// both lists; the same graph where either node is missing or the edge
    /// is already there.
    pub open spec fn add_edge(self, from: NodeId, to: NodeId) -> GraphView {
        if self.contains(from) && self.contains(to) && !self.depends(from, to) {
            let fi = self.index_of(from);
            let ti = self.index_of(to);
            let forward = self.nodes.update(
                fi,
                NodeView { depends_on: self.nodes[fi].depends_on.push(to), ..self.nodes[fi] },
            );
            GraphView {
                nodes: forward.update(
                    ti,
                    NodeView { depends_on_me: forward[ti].depends_on_me.push(from), ..forward[ti] },
                ),
            }
        } else {
            self
        }
    }

    /// The graph without the node with the key, and without the edges to it
    /// from the nodes that waited for it.
    pub open spec fn remove_node(self, id: NodeId) -> GraphView {
        if self.contains(id) {
            let r = self.index_of(id);
            GraphView {
                nodes: Seq::new(
                    (self.nodes.len() - 1) as nat,
                    |j: int|
                        {
                            let n = self.nodes[if j < r {
                                j
                            } else {
                                j + 1
                            }];
                            NodeView { depends_on: without(n.depends_on, id), ..n }
                        },
                ),
            }
        } else {
            self
        }
    }

    /// Where keys are unique, the position of a key is the position at
    /// which it stands.
    pub proof fn lemma_index_of(self, i: int)
        requires
            self.unique_keys(),
            0 <= i < self.nodes.len(),
        ensures
            self.contains(self.key_at(i)),
            self.index_of(self.key_at(i)) == i,
    {
        let k = self.index_of(self.key_at(i));
        assert(self.key_at(k) == self.key_at(i));
        if k < i {
            assert(self.key_at(k) != self.key_at(i));
        } else if i < k {
            assert(self.key_at(i) != self.key_at(k));
        }
    }

    /// The position of a key that the graph holds is in range and holds
    /// that key.
    pub proof fn lemma_index_in_range(self, id: NodeId)
        requires
            self.contains(id),
        ensures
            0 <= self.index_of(id) < self.nodes.len(),
            self.key_at(self.index_of(id)) == id,
    {
    }

    /// In a well-formed graph the two edge lists agree: `a` names `b` as
    /// a prerequisite exactly when `b` names `a` as a dependant.
    pub proof fn lemma_symmetric(self, a: NodeId, b: NodeId)
        requires
            self.wf(),
        ensures
            self.depends(a, b) <==> self.depended_on_by(b, a),
    {
        if self.depends(a, b) {
            let i = self.index_of(a);
            assert(self.contains(b));
            let j = self.index_of(b);
            assert(self.nodes[i].depends_on.contains(self.key_at(j)));
        }
        if self.depended_on_by(b, a) {
            let j = self.index_of(b);
            assert(self.contains(a));
            let i = self.index_of(a);
            assert(self.nodes[j].depends_on_me.contains(self.key_at(i)));
        }
    }

    /// In a well-formed graph no edge list names a node twice: two places
    /// of a list of one node that hold the same key are one place.
    pub proof fn lemma_no_duplicate_edges(self, a: NodeId, i: int, j: int)
        requires
            self.wf(),
            self.contains(a),
        ensures
            0 <= i < self.nodes[self.index_of(a)].depends_on.len() && 0 <= j
                < self.nodes[self.index_of(a)].depends_on.len() && self.nodes[self.index_of(
                a,
            )].depends_on[i] == self.nodes[self.index_of(a)].depends_on[j] ==> i == j,
            0 <= i < self.nodes[self.index_of(a)].depends_on_me.len() && 0 <= j
                < self.nodes[self.index_of(a)].depends_on_me.len() && self.nodes[self.index_of(
                a,
            )].depends_on_me[i] == self.nodes[self.index_of(a)].depends_on_me[j] ==> i == j,
    {
        let k = self.index_of(a);
        assert(self.nodes[k].depends_on.no_duplicates());
        assert(self.nodes[k].depends_on_me.no_duplicates());
    }
}

impl GraphView {
    /// A node added under a new key leaves the graph well-formed, with the
    /// nodes and edges it had and the new node as a leaf.
    pub proof fn lemma_add_node(self, instruction: NodeTypeView)
        requires
            self.wf(),
            !self.contains(instruction.key()),
        ensures
            self.add_node(instruction).wf(),
            self.add_node(instruction).kinds() == self.kinds().push(instruction),
            forall|x: NodeId|
                #[trigger] self.add_node(instruction).contains(x) <==> self.contains(x) || x
                    == instruction.key(),
            forall|x: NodeId|
                self.contains(x) ==> #[trigger] self.add_node(instruction).index_of(x)
                    == self.index_of(x),
            self.add_node(instruction).index_of(instruction.key()) == self.nodes.len(),
            forall|a: NodeId, b: NodeId|
                #[trigger] self.add_node(instruction).depends(a, b) <==> self.depends(a, b),
            self.add_node(instruction).is_leaf(instruction.key()),
    {
        let g = self.add_node(instruction);
        let n = self.nodes.len() as int;
        assert(g.nodes.len() == n + 1);
        assert forall|i: int| 0 <= i < n implies g.nodes[i] == self.nodes[i] && g.key_at(i)
            == self.key_at(i) by {}
        assert(g.key_at(n) == instruction.key());
        assert(g.unique_keys()) by {
            assert forall|i: int, j: int| 0 <= i < j < g.nodes.len() implies g.key_at(i)
                != g.key_at(j) by {
                if j == n {
                    assert(self.key_at(i) == g.key_at(i));
                } else {
                    assert(self.key_at(i) != self.key_at(j));
                }
            }
        }
        assert forall|x: NodeId| #[trigger] g.contains(x) <==> self.contains(x) || x
            == instruction.key() by {
            if g.contains(x) {
                let i = g.index_of(x);
                if i < n {
                    assert(self.key_at(i) == x);
                }
            }
            if self.contains(x) {
                let i = self.index_of(x);
                assert(g.key_at(i) == x);
            }
        }
        assert forall|x: NodeId| self.contains(x) implies #[trigger] g.index_of(x)
            == self.index_of(x) by {
            let i = self.index_of(x);
            assert(g.key_at(i) == x);
            g.lemma_index_of(i);
        }
        g.lemma_index_of(n);
        assert(g.edges_closed()) by {
            assert forall|i: int, b: NodeId|
                0 <= i < g.nodes.len() && #[trigger] g.nodes[i].depends_on.contains(
                    b,
                ) implies g.contains(b) by {
                assert(i < n);
                assert(self.nodes[i].depends_on.contains(b));
            }
            assert forall|i: int, b: NodeId|
                0 <= i < g.nodes.len() && #[trigger] g.nodes[i].depends_on_me.contains(
                    b,
                ) implies g.contains(b) by {
                assert(i < n);
                assert(self.nodes[i].depends_on_me.contains(b));
            }
        }
        assert(g.edges_unique()) by {
            assert forall|i: int| 0 <= i < g.nodes.len() implies (#[trigger] g.nodes[i])
                .depends_on.no_duplicates() && g.nodes[i].depends_on_me.no_duplicates() by {
                if i < n {
                    assert(self.nodes[i].depends_on.no_duplicates());
                }
            }
        }
        assert(g.edges_symmetric()) by {
            assert forall|i: int, j: int|
                0 <= i < g.nodes.len() && 0 <= j < g.nodes.len() implies (
                g.nodes[i].depends_on.contains(g.key_at(j)) <==> g.nodes[j].depends_on_me.contains(
                    g.key_at(i),
                )) by {
                if i < n && j < n {
                    assert(self.nodes[i].depends_on.contains(self.key_at(j))
                        <==> self.nodes[j].depends_on_me.contains(self.key_at(i)));
                } else if i < n {
                    if self.nodes[i].depends_on.contains(instruction.key()) {
                        assert(self.contains(instruction.key()));
                    }
                } else if j < n {
                    if self.nodes[j].depends_on_me.contains(instruction.key()) {
                        assert(self.contains(instruction.key()));
                    }
                }
            }
        }
        assert(g.kinds() =~= self.kinds().push(instruction));
        assert forall|a: NodeId, b: NodeId| #[trigger] g.depends(a, b) <==> self.depends(
            a,
            b,
        ) by {
            if self.contains(a) {
                assert(g.nodes[g.index_of(a)] == self.nodes[self.index_of(a)]);
            }
        }
    }

    /// An edge added leaves the graph well-formed, with the same nodes in
    /// the same places, and with that edge beside the edges it had.
    pub proof fn lemma_add_edge(self, from: NodeId, to: NodeId)
        requires
            self.wf(),
        ensures
            self.add_edge(from, to).wf(),
            self.add_edge(from, to).kinds() == self.kinds(),
            forall|x: NodeId| #[trigger] self.add_edge(from, to).contains(x) == self.contains(x),
            forall|x: NodeId|
                self.contains(x) ==> #[trigger] self.add_edge(from, to).index_of(x)
                    == self.index_of(x),
            forall|a: NodeId, b: NodeId|
                #[trigger] self.add_edge(from, to).depends(a, b) <==> self.depends(a, b) || (a
                    == from && b == to && self.contains(from) && self.contains(to)),
    {
        broadcast use vstd::seq_lib::lemma_seq_contains_after_push;

        let g = self.add_edge(from, to);
        if self.contains(from) && self.contains(to) && !self.depends(from, to) {
            let fi = self.index_of(from);
            let ti = self.index_of(to);
            let n = self.nodes.len() as int;
            assert(g.nodes.len() == n);
            assert forall|k: int| 0 <= k < n implies {
                &&& g.nodes[k].instruction == self.nodes[k].instruction
                &&& g.key_at(k) == self.key_at(k)
                &&& g.nodes[k].depends_on == if k == fi {
                    self.nodes[k].depends_on.push(to)
                } else {
                    self.nodes[k].depends_on
                }
                &&& g.nodes[k].depends_on_me == if k == ti {
                    self.nodes[k].depends_on_me.push(from)
                } else {
                    self.nodes[k].depends_on_me
                }
            } by {}
            assert(g.kinds() =~= self.kinds());
            assert(g.unique_keys()) by {
                assert forall|i: int, j: int| 0 <= i < j < g.nodes.len() implies g.key_at(i)
                    != g.key_at(j) by {
                    assert(self.key_at(i) != self.key_at(j));
                }
            }
            assert forall|x: NodeId| #[trigger] g.contains(x) == self.contains(x) by {
                if g.contains(x) {
                    let i = g.index_of(x);
                    assert(self.key_at(i) == x);
                }
                if self.contains(x) {
                    let i = self.index_of(x);
                    assert(g.key_at(i) == x);
                }
            }
            assert forall|x: NodeId| self.contains(x) implies #[trigger] g.index_of(x)
                == self.index_of(x) by {
                let i = self.index_of(x);
                assert(g.key_at(i) == x);
                g.lemma_index_of(i);
            }
            assert(!self.nodes[ti].depends_on_me.contains(from)) by {
                assert(self.nodes[fi].depends_on.contains(self.key_at(ti))
                    <==> self.nodes[ti].depends_on_me.contains(self.key_at(fi)));
            }
            assert(g.edges_closed()) by {
                assert forall|i: int, b: NodeId|
                    0 <= i < g.nodes.len() && #[trigger] g.nodes[i].depends_on.contains(
                        b,
                    ) implies g.contains(b) by {
                    if self.nodes[i].depends_on.contains(b) {
                        assert(self.contains(b));
                    }
                }
                assert forall|i: int, b: NodeId|
                    0 <= i < g.nodes.len() && #[trigger] g.nodes[i].depends_on_me.contains(
                        b,
                    ) implies g.contains(b) by {
                    if self.nodes[i].depends_on_me.contains(b) {
                        assert(self.contains(b));
                    }
                }
            }
            assert(g.edges_unique()) by {
                assert forall|i: int| 0 <= i < g.nodes.len() implies (#[trigger] g.nodes[i])
                    .depends_on.no_duplicates() && g.nodes[i].depends_on_me.no_duplicates() by {
                    assert(self.nodes[i].depends_on.no_duplicates());
                    assert(self.nodes[i].depends_on_me.no_duplicates());
                    lemma_push_no_duplicates(self.nodes[fi].depends_on, to);
                    lemma_push_no_duplicates(self.nodes[ti].depends_on_me, from);
                }
            }
            assert(g.edges_symmetric()) by {
                assert forall|i: int, j: int|
                    0 <= i < g.nodes.len() && 0 <= j < g.nodes.len() implies (
                    g.nodes[i].depends_on.contains(g.key_at(j))
                        <==> g.nodes[j].depends_on_me.contains(g.key_at(i))) by {
                    assert(self.nodes[i].depends_on.contains(self.key_at(j))
                        <==> self.nodes[j].depends_on_me.contains(self.key_at(i)));
                    self.lemma_index_of(i);
                    self.lemma_index_of(j);
                }
            }
            assert forall|a: NodeId, b: NodeId| #[trigger]
                g.depends(a, b) <==> self.depends(a, b) || (a == from && b == to) by {
                if self.contains(a) {
                    let i = self.index_of(a);
                    assert(g.index_of(a) == i);
                }
            }
        }
    }
}

/// A key appended to a list that does not hold it leaves the list without
/// duplicates.
pub proof fn lemma_push_no_duplicates(s: Seq<NodeId>, id: NodeId)
    requires
        s.no_duplicates(),
        !s.contains(id),
    ensures
        s.push(id).no_duplicates(),
{
    assert forall|i: int, j: int|
        0 <= i < s.push(id).len() && 0 <= j < s.push(id).len() && i != j implies s.push(id)[i]
        != s.push(id)[j] by {
        if i < s.len() {
            assert(s.contains(s[i]));
        }
        if j < s.len() {
            assert(s.contains(s[j]));
        }
    }
}

impl GraphView {
    /// A leaf removed leaves the graph well-formed, with the other nodes in
    /// the order they had and the edges among them.
    pub proof fn lemma_remove_node(self, id: NodeId)
        requires
            self.wf(),
            self.is_leaf(id),
        ensures
            self.remove_node(id).wf(),
            self.remove_node(id).nodes.len() == self.nodes.len() - 1,
            self.remove_node(id).kinds() == self.kinds().remove(self.index_of(id)),
            forall|x: NodeId|
                #[trigger] self.remove_node(id).contains(x) <==> self.contains(x) && x != id,
            forall|x: NodeId|
                self.contains(x) && x != id ==> #[trigger] self.remove_node(id).index_of(x)
                    == if self.index_of(x) < self.index_of(id) {
                    self.index_of(x)
                } else {
                    self.index_of(x) - 1
                },
            forall|a: NodeId, b: NodeId|
                #[trigger] self.remove_node(id).depends(a, b) <==> self.depends(a, b) && a != id
                    && b != id,
    {
        let g = self.remove_node(id);
        let r = self.index_of(id);
        let n = self.nodes.len() as int;
        self.lemma_index_of(r);
        assert(g.nodes.len() == n - 1);
        assert forall|j: int| 0 <= j < n - 1 implies {
            let s = if j < r {
                j
            } else {
                j + 1
            };
            &&& (#[trigger] g.nodes[j]).instruction == self.nodes[s].instruction
            &&& g.key_at(j) == self.key_at(s)
            &&& g.key_at(j) != id
            &&& g.nodes[j].depends_on == without(self.nodes[s].depends_on, id)
            &&& g.nodes[j].depends_on_me == self.nodes[s].depends_on_me
            &&& !self.nodes[s].depends_on_me.contains(id)
        } by {
            let s = if j < r {
                j
            } else {
                j + 1
            };
            self.lemma_index_of(s);
            assert(self.nodes[r].depends_on.contains(self.key_at(s))
                <==> self.nodes[s].depends_on_me.contains(self.key_at(r)));
        }
        assert(g.kinds() =~= self.kinds().remove(r));
        assert(g.unique_keys()) by {
            assert forall|i: int, j: int| 0 <= i < j < g.nodes.len() implies g.key_at(i)
                != g.key_at(j) by {
                let si = if i < r {
                    i
                } else {
                    i + 1
                };
                let sj = if j < r {
                    j
                } else {
                    j + 1
                };
                assert(self.key_at(si) != self.key_at(sj));
            }
        }
        assert forall|x: NodeId| #[trigger] g.contains(x) <==> self.contains(x) && x != id by {
            if g.contains(x) {
                let j = g.index_of(x);
                let s = if j < r {
                    j
                } else {
                    j + 1
                };
                assert(self.key_at(s) == x);
            }
            if self.contains(x) && x != id {
                let s = self.index_of(x);
                let j = if s < r {
                    s
                } else {
                    s - 1
                };
                assert(g.key_at(j) == x);
            }
        }
        assert forall|x: NodeId| self.contains(x) && x != id implies #[trigger] g.index_of(x)
            == if self.index_of(x) < self.index_of(id) {
            self.index_of(x)
        } else {
            self.index_of(x) - 1
        } by {
            let s = self.index_of(x);
            let j = if s < r {
                s
            } else {
                s - 1
            };
            assert(g.key_at(j) == x);
            g.lemma_index_of(j);
        }
        assert(g.edges_closed()) by {
            assert forall|i: int, b: NodeId|
                0 <= i < g.nodes.len() && #[trigger] g.nodes[i].depends_on.contains(
                    b,
                ) implies g.contains(b) by {
                let s = if i < r {
                    i
                } else {
                    i + 1
                };
                lemma_without(self.nodes[s].depends_on, id);
                assert(self.nodes[s].depends_on.contains(b));
                assert(self.contains(b));
            }
            assert forall|i: int, b: NodeId|
                0 <= i < g.nodes.len() && #[trigger] g.nodes[i].depends_on_me.contains(
                    b,
                ) implies g.contains(b) by {
                let s = if i < r {
                    i
                } else {
                    i + 1
                };
                assert(self.nodes[s].depends_on_me.contains(b));
                assert(self.contains(b));
            }
        }
        assert(g.edges_unique()) by {
            assert forall|i: int| 0 <= i < g.nodes.len() implies (#[trigger] g.nodes[i])
                .depends_on.no_duplicates() && g.nodes[i].depends_on_me.no_duplicates() by {
                let s = if i < r {
                    i
                } else {
                    i + 1
                };
                lemma_without(self.nodes[s].depends_on, id);
                assert(self.nodes[s].depends_on.no_duplicates());
            }
        }
        assert(g.edges_symmetric()) by {
            assert forall|i: int, j: int|
                0 <= i < g.nodes.len() && 0 <= j < g.nodes.len() implies (
                g.nodes[i].depends_on.contains(g.key_at(j)) <==> g.nodes[j].depends_on_me.contains(
                    g.key_at(i),
                )) by {
                let si = if i < r {
                    i
                } else {
                    i + 1
                };
                let sj = if j < r {
                    j
                } else {
                    j + 1
                };
                lemma_without(self.nodes[si].depends_on, id);
                assert(self.nodes[si].depends_on.contains(self.key_at(sj))
                    <==> self.nodes[sj].depends_on_me.contains(self.key_at(si)));
            }
        }
        assert forall|a: NodeId, b: NodeId| #[trigger]
            g.depends(a, b) <==> self.depends(a, b) && a != id && b != id by {
            if self.contains(a) && a != id {
                let s = self.index_of(a);
                let j = g.index_of(a);
                lemma_without(self.nodes[s].depends_on, id);
                assert(g.nodes[j].depends_on == without(self.nodes[s].depends_on, id));
            }
        }
    }
}

impl GraphView {
    /// The direction in which an edge of an engine's graph runs. An
    /// instruction waits for an earlier instruction of its own thread or
    /// for a propagation; a propagation waits for a propagation that was
    /// added before it.
    pub open spec fn edge_in_order(self, a: NodeId, b: NodeId) -> bool {
        if a.propagate {
            b.propagate && self.index_of(b) < self.index_of(a)
        } else {
            b.propagate || (a.thread_id == b.thread_id && b.line_index < a.line_index)
        }
    }

    /// Every edge runs in order.
    pub open spec fn ordered(self) -> bool {
        forall|a: NodeId, b: NodeId| #[trigger] self.depends(a, b) ==> self.edge_in_order(a, b)
    }

    /// A number that falls along every edge of an ordered graph.
    pub open spec fn rank(self, id: NodeId) -> int {
        if id.propagate {
            self.index_of(id)
        } else {
            self.nodes.len() + id.line_index
        }
    }

    /// A walk along depends-on edges: each key waits for the next.
    pub open spec fn is_path(self, p: Seq<NodeId>) -> bool {
        &&& p.len() >= 1
        &&& forall|k: int| 0 <= k < p.len() - 1 ==> self.depends(#[trigger] p[k], p[k + 1])
    }

    /// No walk of one edge or more comes back to where it began.
    pub open spec fn acyclic(self) -> bool {
        forall|p: Seq<NodeId>| #[trigger] self.is_path(p) && p.len() >= 2 ==> p.first() != p.last()
    }

    /// Along a walk in an ordered graph the rank falls by at least one per
    /// edge.
    pub proof fn lemma_path_rank(self, p: Seq<NodeId>)
        requires
            self.wf(),
            self.ordered(),
            self.is_path(p),
        ensures
            self.rank(p.last()) + p.len() - 1 <= self.rank(p.first()),
        decreases p.len(),
    {
        if p.len() >= 2 {
            let q = p.drop_last();
            assert(self.is_path(q)) by {
                assert forall|k: int| 0 <= k < q.len() - 1 implies self.depends(
                    #[trigger] q[k],
                    q[k + 1],
                ) by {
                    assert(self.depends(p[k], p[k + 1]));
                }
            }
            self.lemma_path_rank(q);
            let a = p[p.len() - 2];
            let b = p[p.len() - 1];
            assert(self.depends(a, b));
            assert(self.edge_in_order(a, b));
            assert(self.contains(b));
        }
    }

    /// An ordered graph has no cycle.
    pub proof fn lemma_ordered_acyclic(self)
        requires
            self.wf(),
            self.ordered(),
        ensures
            self.acyclic(),
    {
        assert forall|p: Seq<NodeId>| #[trigger] self.is_path(p) && p.len() >= 2 implies p.first()
            != p.last() by {
            self.lemma_path_rank(p);
        }
    }

    /// A new node keeps the graph ordered.
    pub proof fn lemma_add_node_ordered(self, instruction: NodeTypeView)
        requires
            self.wf(),
            self.ordered(),
            !self.contains(instruction.key()),
        ensures
            self.add_node(instruction).ordered(),
    {
        self.lemma_add_node(instruction);
        let g = self.add_node(instruction);
        assert forall|a: NodeId, b: NodeId| #[trigger] g.depends(a, b) implies g.edge_in_order(
            a,
            b,
        ) by {
            assert(self.depends(a, b));
            assert(self.edge_in_order(a, b));
            assert(self.contains(b));
        }
    }

    /// An edge that runs in order keeps the graph ordered.
    pub proof fn lemma_add_edge_ordered(self, from: NodeId, to: NodeId)
        requires
            self.wf(),
            self.ordered(),
            self.contains(from) && self.contains(to) ==> self.edge_in_order(from, to),
        ensures
            self.add_edge(from, to).ordered(),
    {
        self.lemma_add_edge(from, to);
        let g = self.add_edge(from, to);
        assert forall|a: NodeId, b: NodeId| #[trigger] g.depends(a, b) implies g.edge_in_order(
            a,
            b,
        ) by {
            if self.depends(a, b) {
                assert(self.edge_in_order(a, b));
                assert(self.contains(b));
            }
        }
    }

    /// The removal of a leaf keeps the graph ordered.
    pub proof fn lemma_remove_node_ordered(self, id: NodeId)
        requires
            self.wf(),
            self.ordered(),
            self.is_leaf(id),
        ensures
            self.remove_node(id).ordered(),
    {
        self.lemma_remove_node(id);
        let g = self.remove_node(id);
        assert forall|a: NodeId, b: NodeId| #[trigger] g.depends(a, b) implies g.edge_in_order(
            a,
            b,
        ) by {
            assert(self.depends(a, b));
            assert(self.edge_in_order(a, b));
            assert(self.contains(b));
        }
    }
}

impl GraphView {
    /// What the node with the key stands for.
    pub open spec fn kind_of(self, id: NodeId) -> NodeTypeView {
        self.nodes[self.index_of(id)].instruction
    }

    /// Whether `a` and `b` are instructions of one thread, `b` before `a`.
    pub open spec fn in_program_order(self, a: NodeId, b: NodeId) -> bool {
        &&& self.contains(a)
        &&& self.contains(b)
        &&& !a.propagate
        &&& !b.propagate
        &&& a.thread_id == b.thread_id
        &&& b.line_index < a.line_index
    }

    /// The edges that the node at position `n` asks for: where it releases,
    /// every later instruction of its thread waits for it; where it
    /// acquires, it waits for every earlier instruction of its thread.
    pub open spec fn program_order_from(self, n: int, a: NodeId, b: NodeId) -> bool {
        &&& self.in_program_order(a, b)
        &&& (b == self.key_at(n) && releases(self.nodes[n].instruction.mode())) || (a
            == self.key_at(n) && acquires(self.nodes[n].instruction.mode()))
    }

    /// The edges that the first `n` nodes ask for.
    pub open spec fn program_order_among(self, n: int, a: NodeId, b: NodeId) -> bool {
        &&& self.in_program_order(a, b)
        &&& (self.index_of(b) < n && releases(self.kind_of(b).mode())) || (self.index_of(a) < n
            && acquires(self.kind_of(a).mode()))
    }

    /// The program-order edges of the graph: `a` waits for `b` where `b` is
    /// an earlier instruction of the same thread and `b` releases or `a`
    /// acquires.
    pub open spec fn program_order(self, a: NodeId, b: NodeId) -> bool {
        &&& self.in_program_order(a, b)
        &&& releases(self.kind_of(b).mode()) || acquires(self.kind_of(a).mode())
    }

    /// The edge by which a fence waits for a new propagation of its thread.
    pub open spec fn fence_edge(self, a: NodeId, p: NodeId) -> bool {
        &&& self.contains(a)
        &&& self.kind_of(a).is_fence()
        &&& a.thread_id == p.thread_id
    }

    /// The edge by which a new propagation waits for one before it: every
    /// other propagation of its thread, or under partial store order every
    /// other one of its thread to the same location.
    pub open spec fn drain_edge(
        self,
        p: NodeId,
        location: ReferenceView,
        pso: bool,
        b: NodeId,
    ) -> bool {
        &&& self.contains(b)
        &&& b.propagate
        &&& b.thread_id == p.thread_id
        &&& b.line_index != p.line_index
        &&& pso ==> (self.kind_of(b) matches NodeTypeView::Propagate(q) && q.to_location
            == location)
    }
}

impl GraphView {
    /// Whether `other` is `self` with edges added: it has the nodes of
    /// `self` in the same places, and its edge lists begin with those of
    /// `self`.
    pub open spec fn extended_by(self, other: GraphView) -> bool {
        &&& other.kinds() == self.kinds()
        &&& other.nodes.len() == self.nodes.len()
        &&& forall|i: int|
            0 <= i < self.nodes.len() ==> (#[trigger] other.nodes[i]).instruction
                == self.nodes[i].instruction
        &&& forall|i: int|
            0 <= i < self.nodes.len() ==> self.nodes[i].depends_on.is_prefix_of(
                (#[trigger] other.nodes[i]).depends_on,
            ) && self.nodes[i].depends_on_me.is_prefix_of(other.nodes[i].depends_on_me)
        &&& forall|x: NodeId| #[trigger] other.contains(x) == self.contains(x)
        &&& forall|x: NodeId| self.contains(x) ==> #[trigger] other.index_of(x) == self.index_of(x)
    }

    /// A graph is itself with no edge added.
    pub proof fn lemma_extended_by_itself(self)
        ensures
            self.extended_by(self),
    {
        assert forall|i: int|
            0 <= i < self.nodes.len() implies self.nodes[i].depends_on.is_prefix_of(
            (#[trigger] self.nodes[i]).depends_on,
        ) && self.nodes[i].depends_on_me.is_prefix_of(self.nodes[i].depends_on_me) by {
            assert(self.nodes[i].depends_on.subrange(0, self.nodes[i].depends_on.len() as int)
                == self.nodes[i].depends_on);
            assert(self.nodes[i].depends_on_me.subrange(
                0,
                self.nodes[i].depends_on_me.len() as int,
            ) == self.nodes[i].depends_on_me);
        }
    }

    /// Edges added in two steps were added.
    pub proof fn lemma_extended_twice(self, middle: GraphView, last: GraphView)
        requires
            self.extended_by(middle),
            middle.extended_by(last),
        ensures
            self.extended_by(last),
    {
        assert forall|i: int| 0 <= i < self.nodes.len() implies (#[trigger] last.nodes[i])
            .instruction == self.nodes[i].instruction by {
            assert(middle.nodes[i].instruction == self.nodes[i].instruction);
        }
        assert forall|i: int|
            0 <= i < self.nodes.len() implies self.nodes[i].depends_on.is_prefix_of(
            (#[trigger] last.nodes[i]).depends_on,
        ) && self.nodes[i].depends_on_me.is_prefix_of(last.nodes[i].depends_on_me) by {
            let a = self.nodes[i];
            let b = middle.nodes[i];
            let c = last.nodes[i];
            assert(a.depends_on.is_prefix_of(b.depends_on));
            assert(b.depends_on.is_prefix_of(c.depends_on));
            assert(a.depends_on =~= c.depends_on.subrange(0, a.depends_on.len() as int)) by {
                assert forall|k: int| 0 <= k < a.depends_on.len() implies a.depends_on[k]
                    == c.depends_on[k] by {
                    assert(a.depends_on[k] == b.depends_on.subrange(
                        0,
                        a.depends_on.len() as int,
                    )[k]);
                    assert(b.depends_on[k] == c.depends_on.subrange(
                        0,
                        b.depends_on.len() as int,
                    )[k]);
                }
            }
            assert(a.depends_on_me =~= c.depends_on_me.subrange(0, a.depends_on_me.len() as int))
                by {
                assert forall|k: int| 0 <= k < a.depends_on_me.len() implies a.depends_on_me[k]
                    == c.depends_on_me[k] by {
                    assert(a.depends_on_me[k] == b.depends_on_me.subrange(
                        0,
                        a.depends_on_me.len() as int,
                    )[k]);
                    assert(b.depends_on_me[k] == c.depends_on_me.subrange(
                        0,
                        b.depends_on_me.len() as int,
                    )[k]);
                }
            }
        }
        assert forall|x: NodeId| #[trigger] last.contains(x) == self.contains(x) by {
            assert(middle.contains(x) == self.contains(x));
        }
        assert forall|x: NodeId| self.contains(x) implies #[trigger] last.index_of(x)
            == self.index_of(x) by {
            assert(middle.contains(x));
            assert(middle.index_of(x) == self.index_of(x));
        }
    }

    /// An edge is added at the ends of the two lists, and leaves the nodes
    /// in their places.
    pub proof fn lemma_add_edge_extends(self, from: NodeId, to: NodeId)
        requires
            self.wf(),
        ensures
            self.extended_by(self.add_edge(from, to)),
    {
        self.lemma_add_edge(from, to);
        let g = self.add_edge(from, to);
        self.lemma_same_kinds(g);
        if self.contains(from) && self.contains(to) && !self.depends(from, to) {
            let fi = self.index_of(from);
            let ti = self.index_of(to);
            assert forall|i: int|
                0 <= i < self.nodes.len() implies self.nodes[i].depends_on.is_prefix_of(
                (#[trigger] g.nodes[i]).depends_on,
            ) && self.nodes[i].depends_on_me.is_prefix_of(g.nodes[i].depends_on_me) by {
                let old_on = self.nodes[i].depends_on;
                let old_me = self.nodes[i].depends_on_me;
                assert(g.nodes[i].depends_on == if i == fi {
                    old_on.push(to)
                } else {
                    old_on
                });
                assert(g.nodes[i].depends_on_me == if i == ti {
                    old_me.push(from)
                } else {
                    old_me
                });
                assert(old_on =~= g.nodes[i].depends_on.subrange(0, old_on.len() as int));
                assert(old_me =~= g.nodes[i].depends_on_me.subrange(0, old_me.len() as int));
            }
        } else {
            self.lemma_extended_by_itself();
        }
    }

    /// Graphs that stand for the same things in the same order have as many
    /// nodes, and node by node the same thing.
    pub proof fn lemma_same_kinds(self, other: GraphView)
        requires
            other.kinds() == self.kinds(),
        ensures
            other.nodes.len() == self.nodes.len(),
            forall|i: int|
                0 <= i < self.nodes.len() ==> (#[trigger] other.nodes[i]).instruction
                    == self.nodes[i].instruction,
    {
        assert(self.kinds().len() == self.nodes.len());
        assert(other.kinds().len() == other.nodes.len());
        assert forall|i: int| 0 <= i < self.nodes.len() implies (#[trigger] other.nodes[i])
            .instruction == self.nodes[i].instruction by {
            assert(self.kinds()[i] == self.nodes[i].instruction);
            assert(other.kinds()[i] == other.nodes[i].instruction);
        }
    }

    /// Whether `after` is this graph once the leaf `node` has fired. Without
    /// a propagation the leaf is removed. With one, the leaf is removed and
    /// the propagation added as the last node; every fence of its thread
    /// waits for it, and it waits for the other propagations of its
    /// thread, under partial store order only for those to its location.
    pub open spec fn fired(
        self,
        after: GraphView,
        node: NodeId,
        propagation: Option<PropagateView>,
        pso: bool,
    ) -> bool {
        match propagation {
            None => after == self.remove_node(node),
            Some(propagate) => {
                let kind = NodeTypeView::Propagate(propagate);
                let base = self.remove_node(node).add_node(kind);
                let p = kind.key();
                &&& base.extended_by(after)
                &&& forall|a: NodeId, b: NodeId|
                    #[trigger] after.depends(a, b) <==> base.depends(a, b) || (b == p
                        && base.fence_edge(a, p)) || (a == p && base.drain_edge(
                        p,
                        propagate.to_location,
                        pso,
                        b,
                    ))
            },
        }
    }

    /// No instruction is pending together with the propagation of its own
    /// write.
    pub open spec fn exclusive(self) -> bool {
        forall|id: NodeId|
            #[trigger] self.contains(id) && !id.propagate ==> !self.contains(
                NodeId { propagate: true, thread_id: id.thread_id, line_index: id.line_index },
            )
    }

    /// A node waits until what it waits for has fired: the firing of one
    /// leaf leaves every other prerequisite in place, so that a node with
    /// such a prerequisite is no leaf afterwards either.
    pub proof fn lemma_waits_until_fired(
        self,
        after: GraphView,
        node: NodeId,
        propagation: Option<PropagateView>,
        pso: bool,
        a: NodeId,
        b: NodeId,
    )
        requires
            self.wf(),
            self.is_leaf(node),
            propagation matches Some(p) ==> !self.contains(NodeTypeView::Propagate(p).key()),
            self.fired(after, node, propagation, pso),
            self.depends(a, b),
            b != node,
        ensures
            after.depends(a, b),
            !after.is_leaf(a),
    {
        self.lemma_remove_node(node);
        self.lemma_index_in_range(a);
        match propagation {
            None => {},
            Some(p) => {
                self.remove_node(node).lemma_add_node(NodeTypeView::Propagate(p));
            },
        }
        assert(after.depends(a, b));
        let i = after.index_of(a);
        assert(after.nodes[i].depends_on.contains(b));
    }

    /// What a fired leaf leaves behind: the other nodes and, where it
    /// buffered a write, the propagation.
    pub proof fn lemma_fired_contains(
        self,
        after: GraphView,
        node: NodeId,
        propagation: Option<PropagateView>,
        pso: bool,
    )
        requires
            self.wf(),
            self.is_leaf(node),
            propagation matches Some(p) ==> !self.contains(NodeTypeView::Propagate(p).key()),
            self.fired(after, node, propagation, pso),
        ensures
            forall|x: NodeId|
                #[trigger] after.contains(x) <==> (self.contains(x) && x != node) || (
                propagation matches Some(p) && x == NodeTypeView::Propagate(p).key()),
    {
        self.lemma_remove_node(node);
        match propagation {
            None => {},
            Some(p) => {
                self.remove_node(node).lemma_add_node(NodeTypeView::Propagate(p));
            },
        }
    }
}

impl GraphView {
    /// The keys of the leaves among the first `n` nodes, in order.
    pub open spec fn leaves_among(self, n: int) -> Seq<NodeId>
        decreases n,
    {
        if n <= 0 {
            Seq::empty()
        } else if self.nodes[n - 1].depends_on.len() == 0 {
            self.leaves_among(n - 1).push(self.key_at(n - 1))
        } else {
            self.leaves_among(n - 1)
        }
    }

    /// The keys of the leaves, in the order of the nodes.
    pub open spec fn leaves(self) -> Seq<NodeId> {
        self.leaves_among(self.nodes.len() as int)
    }

    /// The leaves among the first nodes are the keys of those of them that
    /// wait for nothing.
    pub proof fn lemma_leaves_among(self, n: int)
        requires
            0 <= n <= self.nodes.len(),
        ensures
            forall|id: NodeId|
                #[trigger] self.leaves_among(n).contains(id) <==> exists|i: int|
                    0 <= i < n && #[trigger] self.key_at(i) == id
                        && self.nodes[i].depends_on.len() == 0,
        decreases n,
    {
        broadcast use vstd::seq_lib::lemma_seq_contains_after_push;

        if n > 0 {
            self.lemma_leaves_among(n - 1);
            assert forall|id: NodeId| #[trigger]
                self.leaves_among(n).contains(id) <==> exists|i: int|
                    0 <= i < n && #[trigger] self.key_at(i) == id
                        && self.nodes[i].depends_on.len() == 0 by {
                if self.leaves_among(n - 1).contains(id) {
                    let i = choose|i: int|
                        0 <= i < n - 1 && #[trigger] self.key_at(i) == id
                            && self.nodes[i].depends_on.len() == 0;
                    assert(0 <= i < n && self.key_at(i) == id);
                }
                if exists|i: int|
                    0 <= i < n && #[trigger] self.key_at(i) == id
                        && self.nodes[i].depends_on.len() == 0 {
                    let i = choose|i: int|
                        0 <= i < n && #[trigger] self.key_at(i) == id
                            && self.nodes[i].depends_on.len() == 0;
                    if i < n - 1 {
                        assert(self.leaves_among(n - 1).contains(id));
                    }
                }
            }
        }
    }

    /// The set of leaves is the set of nodes whose depends-on list is empty.
    pub proof fn lemma_leaves(self)
        requires
            self.unique_keys(),
        ensures
            forall|id: NodeId| #[trigger] self.leaves().contains(id) <==> self.is_leaf(id),
    {
        self.lemma_leaves_among(self.nodes.len() as int);
        assert forall|id: NodeId| #[trigger] self.leaves().contains(id) <==> self.is_leaf(id) by {
            if self.leaves().contains(id) {
                let i = choose|i: int|
                    0 <= i < self.nodes.len() && #[trigger] self.key_at(i) == id
                        && self.nodes[i].depends_on.len() == 0;
                self.lemma_index_of(i);
            }
            if self.is_leaf(id) {
                let i = self.index_of(id);
                assert(self.key_at(i) == id);
            }
        }
    }
}

} // verus!
