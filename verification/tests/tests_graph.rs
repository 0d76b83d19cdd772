use isa_interpreter::dependency_graph::{
    DependencyGraph, InstructionNode, NodeType, Propagate,
};
use isa_interpreter::graph_model::NodeId;
use isa_interpreter::{programs_to_instructions, LabeledInstruction, MemoryAccessMode, Reference};

fn instr(thread_id: usize, line_index: usize) -> NodeId {
    NodeId { propagate: false, thread_id, line_index }
}

fn prop(thread_id: usize, line_index: usize) -> NodeId {
    NodeId { propagate: true, thread_id, line_index }
}

fn line(text: &str, line_index: usize, thread_id: usize) -> LabeledInstruction {
    LabeledInstruction::from_line(text, line_index, thread_id).unwrap()
}

fn graph_of(texts: &[&str]) -> DependencyGraph {
    let texts: Vec<String> = texts.iter().map(|t| t.to_string()).collect();
    let programs = programs_to_instructions(texts).unwrap();
    let mut graph = DependencyGraph::new();
    for program in programs {
        for instruction in program {
            graph.add_node(instruction);
        }
    }
    graph.build_dependencies();
    graph
}

fn depends_on(graph: &DependencyGraph, id: NodeId) -> Vec<NodeId> {
    graph.node(id).unwrap().depends_on.clone()
}

fn depends_on_me(graph: &DependencyGraph, id: NodeId) -> Vec<NodeId> {
    graph.node(id).unwrap().depends_on_me.clone()
}

fn sorted(mut ids: Vec<NodeId>) -> Vec<NodeId> {
    ids.sort_by_key(|id| (id.propagate, id.thread_id, id.line_index));
    ids
}

fn reaches(graph: &DependencyGraph, from: NodeId, target: NodeId, seen: &mut Vec<NodeId>) -> bool {
    for next in depends_on(graph, from) {
        if next == target {
            return true;
        }
        if !seen.contains(&next) {
            seen.push(next);
            if reaches(graph, next, target, seen) {
                return true;
            }
        }
    }
    false
}

fn check_invariants(graph: &DependencyGraph) {
    let keys: Vec<NodeId> = graph.nodes.iter().map(|n| n.instruction.key()).collect();
    for (i, a) in keys.iter().enumerate() {
        for b in &keys[i + 1..] {
            assert_ne!(a, b, "two nodes share a key");
        }
    }
    for node in &graph.nodes {
        let a = node.instruction.key();
        for b in &node.depends_on {
            assert!(graph.contains(*b), "edge to a missing node");
            assert!(depends_on_me(graph, *b).contains(&a), "edge without its mirror");
        }
        for b in &node.depends_on_me {
            assert!(graph.contains(*b), "edge from a missing node");
            assert!(depends_on(graph, *b).contains(&a), "mirror without its edge");
        }
        for (i, b) in node.depends_on.iter().enumerate() {
            assert!(!node.depends_on[i + 1..].contains(b), "duplicate in depends-on");
        }
        for (i, b) in node.depends_on_me.iter().enumerate() {
            assert!(!node.depends_on_me[i + 1..].contains(b), "duplicate in depended-on-by");
        }
        assert!(!reaches(graph, a, a, &mut Vec::new()), "cycle through a node");
    }
    let leaves = graph.get_leaves();
    let expected: Vec<NodeId> = graph
        .nodes
        .iter()
        .filter(|n| n.depends_on.is_empty())
        .map(|n| n.instruction.key())
        .collect();
    assert_eq!(leaves, expected);
}

#[test]
fn a_new_graph_is_empty() {
    let graph = DependencyGraph::new();
    assert!(graph.nodes.is_empty());
    assert!(graph.get_leaves().is_empty());
    assert!(!graph.contains(instr(0, 0)));
    assert!(graph.node(instr(0, 0)).is_none());
    assert_eq!(graph.position(instr(0, 0)), None);
}

#[test]
fn nodes_are_added_without_edges() {
    let mut graph = DependencyGraph::new();
    let a = graph.add_node(line("x = 1", 0, 0));
    let b = graph.add_node(line("store REL x #m", 1, 0));
    let p = graph.add_propagate(line("store REL x #m", 5, 2), Reference::Memory("m".to_string()));
    assert_eq!(a, instr(0, 0));
    assert_eq!(b, instr(0, 1));
    assert_eq!(p, prop(2, 5));
    assert_eq!(graph.nodes.len(), 3);
    assert_eq!(graph.position(b), Some(1));
    assert_eq!(graph.position(p), Some(2));
    assert_eq!(graph.get_leaves(), vec![a, b, p]);
    assert_eq!(
        graph.node(p).unwrap().instruction,
        NodeType::Propagate(Propagate::new(
            line("store REL x #m", 5, 2),
            Reference::Memory("m".to_string())
        ))
    );
    check_invariants(&graph);
}

#[test]
fn an_edge_is_added_to_both_lists_once() {
    let mut graph = DependencyGraph::new();
    let a = graph.add_node(line("x = 1", 0, 0));
    let b = graph.add_node(line("y = 1", 1, 0));
    InstructionNode::add_dependency(&mut graph, b, a);
    assert_eq!(depends_on(&graph, b), vec![a]);
    assert_eq!(depends_on_me(&graph, a), vec![b]);
    assert_eq!(depends_on(&graph, a), vec![]);
    assert_eq!(depends_on_me(&graph, b), vec![]);
    InstructionNode::add_dependency(&mut graph, b, a);
    assert_eq!(depends_on(&graph, b), vec![a]);
    assert_eq!(depends_on_me(&graph, a), vec![b]);
    InstructionNode::add_dependency(&mut graph, b, instr(3, 3));
    InstructionNode::add_dependency(&mut graph, instr(3, 3), a);
    assert_eq!(depends_on(&graph, b), vec![a]);
    assert_eq!(depends_on_me(&graph, a), vec![b]);
    assert_eq!(graph.get_leaves(), vec![a]);
    check_invariants(&graph);
}

#[test]
fn a_release_is_waited_for_by_what_follows() {
    let graph = graph_of(&["x = 1\nstore REL x #data\ny = 2\nz = 3"]);
    assert_eq!(depends_on(&graph, instr(0, 0)), vec![]);
    assert_eq!(depends_on(&graph, instr(0, 1)), vec![]);
    assert_eq!(depends_on(&graph, instr(0, 2)), vec![instr(0, 1)]);
    assert_eq!(depends_on(&graph, instr(0, 3)), vec![instr(0, 1)]);
    assert_eq!(sorted(depends_on_me(&graph, instr(0, 1))), vec![instr(0, 2), instr(0, 3)]);
    assert_eq!(graph.get_leaves(), vec![instr(0, 0), instr(0, 1)]);
    check_invariants(&graph);
}

#[test]
fn an_acquire_waits_for_what_precedes() {
    let graph = graph_of(&["x = 1\ny = 2\nload ACQ #flag r\nz = 3"]);
    assert_eq!(sorted(depends_on(&graph, instr(0, 2))), vec![instr(0, 0), instr(0, 1)]);
    assert_eq!(depends_on(&graph, instr(0, 3)), vec![]);
    assert_eq!(depends_on_me(&graph, instr(0, 0)), vec![instr(0, 2)]);
    assert_eq!(graph.get_leaves(), vec![instr(0, 0), instr(0, 1), instr(0, 3)]);
    check_invariants(&graph);
}

#[test]
fn release_acquire_orders_both_ways() {
    let graph = graph_of(&["x = 1\nd := fai REL_ACQ #m x\ny = 2"]);
    assert_eq!(depends_on(&graph, instr(0, 1)), vec![instr(0, 0)]);
    assert_eq!(depends_on(&graph, instr(0, 2)), vec![instr(0, 1)]);
    assert_eq!(graph.get_leaves(), vec![instr(0, 0)]);
    check_invariants(&graph);
}

#[test]
fn sequential_consistency_stands_for_the_strongest_mode_of_the_access() {
    let load = graph_of(&["x = 1\nload SEQ_CST #m r\ny = 2"]);
    assert_eq!(depends_on(&load, instr(0, 1)), vec![instr(0, 0)]);
    assert_eq!(depends_on(&load, instr(0, 2)), vec![]);
    let store = graph_of(&["x = 1\nstore SEQ_CST x #m\ny = 2"]);
    assert_eq!(depends_on(&store, instr(0, 1)), vec![]);
    assert_eq!(depends_on(&store, instr(0, 2)), vec![instr(0, 1)]);
    let cas = graph_of(&["x = 1\nd := cas SEQ_CST #m x x\ny = 2"]);
    assert_eq!(depends_on(&cas, instr(0, 1)), vec![instr(0, 0)]);
    assert_eq!(depends_on(&cas, instr(0, 2)), vec![instr(0, 1)]);
    let fai = graph_of(&["x = 1\nd := fai SEQ_CST #m x\ny = 2"]);
    assert_eq!(depends_on(&fai, instr(0, 1)), vec![instr(0, 0)]);
    assert_eq!(depends_on(&fai, instr(0, 2)), vec![instr(0, 1)]);
}

#[test]
fn effective_modes_follow_the_table() {
    let mode = |text: &str| NodeType::Instruction(line(text, 0, 0)).effective_mode();
    assert_eq!(mode("load SEQ_CST #m r"), MemoryAccessMode::Acq);
    assert_eq!(mode("load RLX #m r"), MemoryAccessMode::Rlx);
    assert_eq!(mode("load REL #m r"), MemoryAccessMode::Rel);
    assert_eq!(mode("store SEQ_CST r #m"), MemoryAccessMode::Rel);
    assert_eq!(mode("store ACQ r #m"), MemoryAccessMode::Acq);
    assert_eq!(mode("d := cas SEQ_CST #m a b"), MemoryAccessMode::RelAcq);
    assert_eq!(mode("d := cas REL #m a b"), MemoryAccessMode::Rel);
    assert_eq!(mode("d := fai SEQ_CST #m a"), MemoryAccessMode::RelAcq);
    assert_eq!(mode("d := fai REL_ACQ #m a"), MemoryAccessMode::RelAcq);
    assert_eq!(mode("fence REL_ACQ"), MemoryAccessMode::RelAcq);
    assert_eq!(mode("fence ACQ"), MemoryAccessMode::Acq);
    assert_eq!(mode("fence SEQ_CST"), MemoryAccessMode::Rlx);
    assert_eq!(mode("x = 1"), MemoryAccessMode::Rlx);
    assert_eq!(mode("x = a + b"), MemoryAccessMode::Rlx);
    assert_eq!(mode("if x goto L"), MemoryAccessMode::Rlx);
    let propagate = NodeType::Propagate(Propagate::new(
        line("store REL r #m", 0, 0),
        Reference::Memory("m".to_string()),
    ));
    assert_eq!(propagate.effective_mode(), MemoryAccessMode::Rlx);
}

#[test]
fn a_fence_is_ordered_by_its_mode() {
    let graph = graph_of(&["x = 1\nfence REL_ACQ\ny = 2"]);
    assert_eq!(depends_on(&graph, instr(0, 1)), vec![instr(0, 0)]);
    assert_eq!(depends_on(&graph, instr(0, 2)), vec![instr(0, 1)]);
    let relaxed = graph_of(&["x = 1\nfence RLX\ny = 2"]);
    assert_eq!(relaxed.get_leaves(), vec![instr(0, 0), instr(0, 1), instr(0, 2)]);
}

#[test]
fn relaxed_accesses_and_other_threads_are_not_ordered() {
    let graph = graph_of(&[
        "store RLX a #A\nload RLX #B r\nx = 1",
        "store REL a #A\nload ACQ #B r",
    ]);
    assert_eq!(
        graph.get_leaves(),
        vec![instr(0, 0), instr(0, 1), instr(0, 2), instr(1, 0)]
    );
    assert_eq!(depends_on(&graph, instr(1, 1)), vec![instr(1, 0)]);
    assert_eq!(depends_on_me(&graph, instr(1, 0)), vec![instr(1, 1)]);
    check_invariants(&graph);
}

#[test]
fn edges_of_one_node_are_added_by_its_position() {
    let texts = vec!["x = 1\nstore REL x #m\ny = 2".to_string()];
    let programs = programs_to_instructions(texts).unwrap();
    let mut graph = DependencyGraph::new();
    for instruction in programs[0].clone() {
        graph.add_node(instruction);
    }
    graph.add_dependencies(0);
    graph.add_dependencies(2);
    assert_eq!(graph.get_leaves().len(), 3);
    graph.add_dependencies(1);
    assert_eq!(depends_on(&graph, instr(0, 2)), vec![instr(0, 1)]);
    assert_eq!(graph.get_leaves(), vec![instr(0, 0), instr(0, 1)]);
    check_invariants(&graph);
}

#[test]
fn the_search_finds_each_node_that_meets_the_predicate_once() {
    let graph = graph_of(&[
        "x = 1\nfence REL_ACQ\nstore REL x #m\nfence RLX",
        "fence ACQ\ny = 1",
    ]);
    let fences = graph.dfs_filter(|node: &NodeType| match node {
        NodeType::Instruction(labeled) => labeled.to_string().contains("fence"),
        NodeType::Propagate(_) => false,
    });
    assert_eq!(sorted(fences), vec![instr(0, 1), instr(0, 3), instr(1, 0)]);
    let all = graph.dfs_filter(|_: &NodeType| true);
    assert_eq!(all.len(), 6);
    assert_eq!(
        sorted(all),
        vec![instr(0, 0), instr(0, 1), instr(0, 2), instr(0, 3), instr(1, 0), instr(1, 1)]
    );
    let none = graph.dfs_filter(|_: &NodeType| false);
    assert!(none.is_empty());
}

#[test]
fn the_search_goes_depth_first_along_depends_on() {
    let graph = graph_of(&["a = 1\nb = 2\nload ACQ #m r"]);
    let mut visited = vec![false; graph.nodes.len()];
    let mut result = Vec::new();
    let all = |_: &NodeType| true;
    graph.dfs_filter_aux(instr(0, 2), &mut visited, &mut result, &all);
    assert_eq!(visited, vec![true, true, true]);
    assert_eq!(result[0], instr(0, 2));
    assert_eq!(sorted(result.clone()), vec![instr(0, 0), instr(0, 1), instr(0, 2)]);
    graph.dfs_filter_aux(instr(0, 0), &mut visited, &mut result, &all);
    assert_eq!(result.len(), 3);
    let mut fresh = vec![false; graph.nodes.len()];
    let mut found = Vec::new();
    graph.dfs_filter_aux(instr(0, 1), &mut fresh, &mut found, &all);
    assert_eq!(fresh, vec![false, true, false]);
    assert_eq!(found, vec![instr(0, 1)]);
    graph.dfs_filter_aux(instr(9, 9), &mut fresh, &mut found, &all);
    assert_eq!(found, vec![instr(0, 1)]);
}

#[test]
fn a_removed_leaf_frees_what_waited_for_it() {
    let mut graph = graph_of(&["store REL x #m\ny = 2\nload ACQ #m r"]);
    assert_eq!(graph.get_leaves(), vec![instr(0, 0)]);
    graph.remove_node(instr(0, 0), None, false);
    assert!(!graph.contains(instr(0, 0)));
    assert_eq!(graph.nodes.len(), 2);
    assert_eq!(depends_on(&graph, instr(0, 1)), vec![]);
    assert_eq!(depends_on(&graph, instr(0, 2)), vec![instr(0, 1)]);
    assert_eq!(graph.get_leaves(), vec![instr(0, 1)]);
    check_invariants(&graph);
    graph.remove_node(instr(0, 1), None, false);
    assert_eq!(graph.get_leaves(), vec![instr(0, 2)]);
    graph.remove_node(instr(0, 2), None, false);
    assert!(graph.nodes.is_empty());
}

#[test]
fn a_propagation_is_waited_for_by_the_fences_of_its_thread() {
    let mut graph = graph_of(&["store RLX x #m\nfence RLX\ny = 1", "fence RLX"]);
    let write = line("store RLX x #m", 0, 0);
    graph.remove_node(instr(0, 0), Some((write, Reference::Memory("m".to_string()))), false);
    assert_eq!(graph.nodes.last().unwrap().instruction.key(), prop(0, 0));
    assert_eq!(depends_on(&graph, instr(0, 1)), vec![prop(0, 0)]);
    assert_eq!(depends_on_me(&graph, prop(0, 0)), vec![instr(0, 1)]);
    assert_eq!(depends_on(&graph, instr(1, 0)), vec![]);
    assert_eq!(depends_on(&graph, instr(0, 2)), vec![]);
    assert_eq!(graph.get_leaves(), vec![instr(0, 2), instr(1, 0), prop(0, 0)]);
    check_invariants(&graph);
    graph.remove_node(prop(0, 0), None, false);
    assert_eq!(graph.get_leaves(), vec![instr(0, 1), instr(0, 2), instr(1, 0)]);
    check_invariants(&graph);
}

fn two_stores(pso: bool) -> DependencyGraph {
    let mut graph = graph_of(&["store RLX a #A\nstore RLX b #B\nstore RLX c #A", "store RLX a #A"]);
    let location = |name: &str| Reference::Memory(name.to_string());
    graph.remove_node(instr(1, 0), Some((line("store RLX a #A", 0, 1), location("A"))), pso);
    graph.remove_node(instr(0, 0), Some((line("store RLX a #A", 0, 0), location("A"))), pso);
    graph.remove_node(instr(0, 1), Some((line("store RLX b #B", 1, 0), location("B"))), pso);
    graph.remove_node(instr(0, 2), Some((line("store RLX c #A", 2, 0), location("A"))), pso);
    check_invariants(&graph);
    graph
}

#[test]
fn under_total_store_order_a_propagation_waits_for_all_before_it() {
    let graph = two_stores(false);
    assert_eq!(depends_on(&graph, prop(1, 0)), vec![]);
    assert_eq!(depends_on(&graph, prop(0, 0)), vec![]);
    assert_eq!(depends_on(&graph, prop(0, 1)), vec![prop(0, 0)]);
    assert_eq!(sorted(depends_on(&graph, prop(0, 2))), vec![prop(0, 0), prop(0, 1)]);
    assert_eq!(graph.get_leaves(), vec![prop(1, 0), prop(0, 0)]);
}

#[test]
fn under_partial_store_order_a_propagation_waits_for_those_to_its_location() {
    let graph = two_stores(true);
    assert_eq!(depends_on(&graph, prop(0, 0)), vec![]);
    assert_eq!(depends_on(&graph, prop(0, 1)), vec![]);
    assert_eq!(depends_on(&graph, prop(0, 2)), vec![prop(0, 0)]);
    assert_eq!(graph.get_leaves(), vec![prop(1, 0), prop(0, 0), prop(0, 1)]);
}

#[test]
fn a_later_line_may_propagate_first_where_it_fired_first() {
    let mut graph = graph_of(&["store RLX a #A\nstore RLX b #B"]);
    let location = |name: &str| Reference::Memory(name.to_string());
    graph.remove_node(instr(0, 1), Some((line("store RLX b #B", 1, 0), location("B"))), false);
    graph.remove_node(instr(0, 0), Some((line("store RLX a #A", 0, 0), location("A"))), false);
    assert_eq!(depends_on(&graph, prop(0, 0)), vec![prop(0, 1)]);
    assert_eq!(graph.get_leaves(), vec![prop(0, 1)]);
    check_invariants(&graph);
}

#[test]
fn nodes_are_named() {
    let instruction = NodeType::Instruction(line("L: x = 1", 3, 2));
    assert_eq!(instruction.id(), "2-3");
    assert_eq!(instruction.to_dot(), "T2Xinstr3");
    assert_eq!(instruction.to_string(), "Thread 2, line 3: L: rx := 1");
    assert_eq!(instruction.thread_id(), 2);
    assert_eq!(instruction.line_index(), 3);
    assert_eq!(instruction.key(), instr(2, 3));
    let propagate = Propagate::new(line("store REL r #m", 7, 1), Reference::Memory("m".to_string()));
    assert_eq!(propagate.id(), "prop_1-7");
    let node = NodeType::Propagate(propagate);
    assert_eq!(node.id(), "prop_1-7");
    assert_eq!(node.to_dot(), "T1Xprop7");
    assert_eq!(node.to_string(), "Propagate for write (Thread 1, line 7: store REL rr mm)");
    assert_eq!(node.thread_id(), 1);
    assert_eq!(node.line_index(), 7);
    assert_eq!(node.key(), prop(1, 7));
    assert_eq!(node.clone(), node);
}

#[test]
fn the_search_comes_to_a_prerequisite_before_the_next_node() {
    let mut graph = graph_of(&["store RLX x #m\nfence RLX\ny = 1", "fence RLX"]);
    let write = line("store RLX x #m", 0, 0);
    graph.remove_node(instr(0, 0), Some((write, Reference::Memory("m".to_string()))), false);
    let keys: Vec<NodeId> = graph.nodes.iter().map(|n| n.instruction.key()).collect();
    assert_eq!(keys, vec![instr(0, 1), instr(0, 2), instr(1, 0), prop(0, 0)]);
    let all = graph.dfs_filter(|_: &NodeType| true);
    assert_eq!(all, vec![instr(0, 1), prop(0, 0), instr(0, 2), instr(1, 0)]);
    let instructions = graph.dfs_filter(|node: &NodeType| !node.key().propagate);
    assert_eq!(instructions, vec![instr(0, 1), instr(0, 2), instr(1, 0)]);
}

#[test]
fn edges_are_listed_in_the_order_of_the_search() {
    let graph = graph_of(&["a = 1\nb = 2\nc := fai REL_ACQ #m a\nd = 4\ne = 5"]);
    assert_eq!(depends_on(&graph, instr(0, 2)), vec![instr(0, 0), instr(0, 1)]);
    assert_eq!(depends_on_me(&graph, instr(0, 2)), vec![instr(0, 3), instr(0, 4)]);
    assert_eq!(depends_on(&graph, instr(0, 3)), vec![instr(0, 2)]);
    assert_eq!(depends_on_me(&graph, instr(0, 0)), vec![instr(0, 2)]);
    let both = graph_of(&["store REL a #m\nstore REL b #m\nload ACQ #m c"]);
    assert_eq!(depends_on(&both, instr(0, 1)), vec![instr(0, 0)]);
    assert_eq!(depends_on(&both, instr(0, 2)), vec![instr(0, 0), instr(0, 1)]);
    assert_eq!(depends_on_me(&both, instr(0, 0)), vec![instr(0, 1), instr(0, 2)]);
    assert_eq!(depends_on_me(&both, instr(0, 1)), vec![instr(0, 2)]);
}
