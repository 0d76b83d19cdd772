use isa_interpreter::dependency_graph::DependencyGraph;
use isa_interpreter::dot::{color_at, render, DotCluster, DotColor, DotNode};
use isa_interpreter::graph_model::NodeId;
use isa_interpreter::{programs_to_instructions, Reference, TSO};

fn graph_of(texts: &[&str]) -> DependencyGraph {
    let texts: Vec<String> = texts.iter().map(|t| t.to_string()).collect();
    TSO::new(programs_to_instructions(texts).unwrap(), false).dependency_graph
}

const COLORS: [&str; 5] = ["palegreen", "paleturquoise", "red", "blue", "black"];

#[test]
fn the_palette_has_five_colours() {
    assert_eq!(color_at(0), DotColor::PaleGreen);
    assert_eq!(color_at(1), DotColor::PaleTurquoise);
    assert_eq!(color_at(2), DotColor::Red);
    assert_eq!(color_at(3), DotColor::Blue);
    assert_eq!(color_at(4), DotColor::Black);
    assert_eq!(color_at(200), DotColor::Black);
}

#[test]
fn keys_are_named_in_the_document() {
    let a = NodeId { propagate: false, thread_id: 3, line_index: 14 };
    let b = NodeId { propagate: true, thread_id: 0, line_index: 0 };
    assert_eq!(a.to_dot(), "T3Xinstr14");
    assert_eq!(b.to_dot(), "T0Xprop0");
}

#[test]
fn threads_are_listed_by_first_occurrence() {
    let mut graph = graph_of(&["x = 1\ny = 2", "", "z = 3"]);
    assert_eq!(graph.threads(), vec![0, 2]);
    let first = graph.get_leaves()[0];
    graph.remove_node(first, None, false);
    let write = isa_interpreter::LabeledInstruction::from_line("store RLX x #m", 1, 0).unwrap();
    let second = graph.get_leaves()[0];
    graph.remove_node(second, Some((write, Reference::Memory("m".to_string()))), false);
    assert_eq!(graph.threads(), vec![2, 0]);
    assert!(DependencyGraph::new().threads().is_empty());
}

#[test]
fn a_cluster_holds_the_nodes_and_edges_of_its_thread() {
    let graph = graph_of(&["store REL x #m\ny = 1", "load ACQ #m r"]);
    let cluster = graph.dot_cluster(0, DotColor::Red);
    assert_eq!(
        cluster,
        DotCluster {
            thread_id: 0,
            color: DotColor::Red,
            label: "Thread #0".to_string(),
            nodes: vec![
                DotNode { name: "T0Xinstr0".to_string(), targets: vec![] },
                DotNode { name: "T0Xinstr1".to_string(), targets: vec!["T0Xinstr0".to_string()] },
            ],
        }
    );
    let empty = graph.dot_cluster(7, DotColor::Blue);
    assert_eq!(empty.label, "Thread #7");
    assert!(empty.nodes.is_empty());
    let clusters = graph.dot_clusters(&vec![3]);
    assert_eq!(clusters.len(), 2);
    assert_eq!(clusters[0], graph.dot_cluster(0, DotColor::Blue));
    assert_eq!(clusters[1], graph.dot_cluster(1, DotColor::Black));
}

#[test]
fn clusters_are_written_as_a_digraph() {
    assert_eq!(render(&Vec::new()), "digraph{}");
    let clusters = vec![
        DotCluster {
            thread_id: 0,
            color: DotColor::PaleTurquoise,
            label: "Thread #0".to_string(),
            nodes: vec![
                DotNode { name: "a".to_string(), targets: vec![] },
                DotNode { name: "b".to_string(), targets: vec!["a".to_string(), "c".to_string()] },
            ],
        },
        DotCluster {
            thread_id: 1,
            color: DotColor::Black,
            label: "Thread #1".to_string(),
            nodes: vec![DotNode { name: "c".to_string(), targets: vec![] }],
        },
    ];
    assert_eq!(
        render(&clusters),
        "digraph{subgraph cluster_0{color=paleturquoise;node[style=\"filled\",color=lightgray];label=\"Thread #0\";a;b;b->a;b->c;}subgraph cluster_1{color=black;node[style=\"filled\",color=lightgray];label=\"Thread #1\";c;}}"
    );
}

#[test]
fn each_colour_has_its_name() {
    let names = [
        (DotColor::PaleGreen, "palegreen"),
        (DotColor::PaleTurquoise, "paleturquoise"),
        (DotColor::Red, "red"),
        (DotColor::Blue, "blue"),
        (DotColor::Black, "black"),
        (DotColor::LightGrey, "lightgray"),
    ];
    for (color, name) in names {
        let cluster = DotCluster { thread_id: 0, color, label: "l".to_string(), nodes: vec![] };
        let text = render(&vec![cluster]);
        assert!(text.starts_with(&format!("digraph{{subgraph cluster_0{{color={};", name)), "{}", text);
    }
}

#[test]
fn the_graph_is_written_with_a_random_colour_per_thread() {
    let graph = graph_of(&["store REL x #m\ny = 1", "load ACQ #m r"]);
    let mut seen = Vec::new();
    for _ in 0..200 {
        let text = graph.to_dot();
        let rest = text.strip_prefix("digraph{subgraph cluster_0{color=").unwrap();
        let (first, rest) = rest.split_once(';').unwrap();
        assert!(COLORS.contains(&first), "{}", first);
        let rest = rest
            .strip_prefix("node[style=\"filled\",color=lightgray];label=\"Thread #0\";T0Xinstr0;T0Xinstr1;T0Xinstr1->T0Xinstr0;}subgraph cluster_1{color=")
            .unwrap();
        let (second, rest) = rest.split_once(';').unwrap();
        assert!(COLORS.contains(&second), "{}", second);
        assert_eq!(
            rest,
            "node[style=\"filled\",color=lightgray];label=\"Thread #1\";T1Xinstr0;}}"
        );
        if !seen.contains(&first.to_string()) {
            seen.push(first.to_string());
        }
    }
    assert!(seen.len() > 1);
}

#[test]
fn the_written_graph_is_the_document_in_some_colours_of_the_palette() {
    let graph = graph_of(&["store REL x #m\ny = 1", "load ACQ #m r", "fence RLX"]);
    assert_eq!(graph.threads().len(), 3);
    let mut documents = Vec::new();
    for a in 0..=4u8 {
        for b in 0..=4u8 {
            for c in 0..=4u8 {
                documents.push(render(&graph.dot_clusters(&vec![a, b, c])));
            }
        }
    }
    for _ in 0..50 {
        assert!(documents.contains(&graph.to_dot()));
    }
    assert_eq!(DependencyGraph::new().to_dot(), "digraph{}");
    assert_eq!(render(&DependencyGraph::new().dot_clusters(&Vec::new())), "digraph{}");
}

#[test]
fn the_same_clusters_are_written_alike() {
    let graph = graph_of(&["store REL x #m\ny = 1", "load ACQ #m r"]);
    let first = render(&graph.dot_clusters(&vec![2, 0]));
    let second = render(&graph.dot_clusters(&vec![2, 0]));
    assert_eq!(first, second);
    assert_ne!(first, render(&graph.dot_clusters(&vec![0, 2])));
}
