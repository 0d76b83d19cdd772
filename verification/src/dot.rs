//! The dependency graph as a DOT document: one cluster per thread, one
//! statement per node and per depends-on edge.
use vstd::prelude::*;
use vstd::string::*;
use dot_writer::Attributes;
use rand::Rng;
use crate::dependency_graph::{DependencyGraph, NodeType};
use crate::graph_model::{GraphView, NodeId};
use crate::text::{decimal, decimal_string};

verus! {

/// A colour of the document.
#[derive(Debug, Clone, Copy, PartialEq, Eq, Structural)]
pub enum DotColor {
    PaleGreen,
    PaleTurquoise,
    Red,
    Blue,
    Black,
    LightGrey,
}

/// A style of the document's nodes.
#[derive(Debug, Clone, Copy, PartialEq, Eq, Structural)]
pub enum DotStyle {
    Filled,
}

/// One node of the document: its name, and the names of the nodes it waits
/// for.
#[derive(Debug, PartialEq)]
pub struct DotNode {
    pub name: String,
    pub targets: Vec<String>,
}

/// One cluster of the document: the nodes of one thread.
#[derive(Debug, PartialEq)]
pub struct DotCluster {
    pub thread_id: usize,
    pub color: DotColor,
    pub label: String,
    pub nodes: Vec<DotNode>,
}

/// A node of the document as a mathematical value.
pub struct DotNodeView {
    pub name: Seq<char>,
    pub targets: Seq<Seq<char>>,
}

/// A cluster of the document as a mathematical value.
pub struct DotClusterView {
    pub thread_id: usize,
    pub color: DotColor,
    pub label: Seq<char>,
    pub nodes: Seq<DotNodeView>,
}

impl View for DotNode {
    type V = DotNodeView;

    open spec fn view(&self) -> DotNodeView {
        DotNodeView {
            name: self.name@,
            targets: Seq::new(self.targets@.len(), |i: int| self.targets@[i]@),
        }
    }
}

impl View for DotCluster {
    type V = DotClusterView;

    open spec fn view(&self) -> DotClusterView {
        DotClusterView {
            thread_id: self.thread_id,
            color: self.color,
            label: self.label@,
            nodes: Seq::new(self.nodes@.len(), |i: int| self.nodes@[i]@),
        }
    }
}

/// The colour that stands at a position of the palette; black beyond it.
pub open spec fn palette(index: u8) -> DotColor {
    if index == 0 {
        DotColor::PaleGreen
    } else if index == 1 {
        DotColor::PaleTurquoise
    } else if index == 2 {
        DotColor::Red
    } else if index == 3 {
        DotColor::Blue
    } else {
        DotColor::Black
    }
}

/// The name of the node with a key in the document: `T`, the thread,
/// `Xinstr` or `Xprop`, the line.
pub open spec fn dot_name(id: NodeId) -> Seq<char> {
    "T"@ + decimal(id.thread_id as nat) + if id.propagate {
        "Xprop"@
    } else {
        "Xinstr"@
    } + decimal(id.line_index as nat)
}

/// The names of the nodes with the given keys.
pub open spec fn dot_names(ids: Seq<NodeId>) -> Seq<Seq<char>> {
    Seq::new(ids.len(), |i: int| dot_name(ids[i]))
}

/// The label of a thread's cluster.
pub open spec fn cluster_label(thread_id: usize) -> Seq<char> {
    "Thread #"@ + decimal(thread_id as nat)
}

impl GraphView {
    /// The threads of the first `n` nodes, each once, in the order in which
    /// they first occur.
    pub open spec fn threads_among(self, n: int) -> Seq<usize>
        decreases n,
    {
        if n <= 0 {
            Seq::empty()
        } else {
            let rest = self.threads_among(n - 1);
            let t = self.key_at(n - 1).thread_id;
            if rest.contains(t) {
                rest
            } else {
                rest.push(t)
            }
        }
    }

    /// The threads of the graph, each once, in the order in which they
    /// first occur among the nodes.
    pub open spec fn threads(self) -> Seq<usize> {
        self.threads_among(self.nodes.len() as int)
    }

    /// The document's nodes for the nodes of a thread among the first `n`.
    pub open spec fn dot_nodes_among(self, thread_id: usize, n: int) -> Seq<DotNodeView>
        decreases n,
    {
        if n <= 0 {
            Seq::empty()
        } else {
            let rest = self.dot_nodes_among(thread_id, n - 1);
            if self.key_at(n - 1).thread_id == thread_id {
                rest.push(
                    DotNodeView {
                        name: dot_name(self.key_at(n - 1)),
                        targets: dot_names(self.nodes[n - 1].depends_on),
                    },
                )
            } else {
                rest
            }
        }
    }

    /// The cluster of a thread: its nodes in the order of the graph, each
    /// with its depends-on edges in their order.
    pub open spec fn dot_cluster(self, thread_id: usize, color: DotColor) -> DotClusterView {
        DotClusterView {
            thread_id,
            color,
            label: cluster_label(thread_id),
            nodes: self.dot_nodes_among(thread_id, self.nodes.len() as int),
        }
    }

    /// The document: one cluster per thread, in the order of the threads,
    /// coloured by the palette at the positions given; black where none is
    /// given.
    pub open spec fn dot_clusters(self, colors: Seq<u8>) -> Seq<DotClusterView> {
        Seq::new(
            self.threads().len(),
            |k: int|
                self.dot_cluster(
                    self.threads()[k],
                    if k < colors.len() {
                        palette(colors[k])
                    } else {
                        DotColor::Black
                    },
                ),
        )
    }
}

/// The views of a sequence of clusters.
pub open spec fn cluster_views(clusters: Seq<DotCluster>) -> Seq<DotClusterView> {
    Seq::new(clusters.len(), |i: int| clusters[i]@)
}

/// The colour at a position of the palette.
pub fn color_at(index: u8) -> (color: DotColor)
    ensures
        color == palette(index),
{
    match index {
        0 => DotColor::PaleGreen,
        1 => DotColor::PaleTurquoise,
        2 => DotColor::Red,
        3 => DotColor::Blue,
        _ => DotColor::Black,
    }
}

impl NodeType {
    /// The name of the node in a DOT document.
    pub fn to_dot(&self) -> (s: String)
        ensures
            s@ == dot_name(self@.key()),
    {
        self.key().to_dot()
    }
}

impl NodeId {
    /// The name of the node with this key in a DOT document.
    pub fn to_dot(&self) -> (s: String)
        ensures
            s@ == dot_name(*self),
    {
        let mut s = "T".to_owned();
        s.append(decimal_string(self.thread_id).as_str());
        if self.propagate {
            s.append("Xprop");
        } else {
            s.append("Xinstr");
        }
        s.append(decimal_string(self.line_index).as_str());
        s
    }
}

/// Whether a list of threads holds a thread.
fn holds_thread(list: &Vec<usize>, thread_id: usize) -> (b: bool)
    ensures
        b == list@.contains(thread_id),
{
    let mut i: usize = 0;
    while i < list.len()
        invariant
            i <= list.len(),
            forall|k: int| 0 <= k < i ==> list@[k] != thread_id,
        decreases list.len() - i,
    {
        if list[i] == thread_id {
            return true;
        }
        i = i + 1;
    }
    false
}

impl DependencyGraph {
    /// The threads of the graph, each once, in the order in which they
    /// first occur among the nodes.
    pub fn threads(&self) -> (threads: Vec<usize>)
        ensures
            threads@ == self@.threads(),
    {
        let mut threads: Vec<usize> = Vec::new();
        let mut i: usize = 0;
        while i < self.nodes.len()
            invariant
                i <= self.nodes@.len(),
                threads@ == self@.threads_among(i as int),
            decreases self.nodes@.len() - i,
        {
            let thread_id = self.nodes[i].instruction.thread_id();
            if !holds_thread(&threads, thread_id) {
                threads.push(thread_id);
            }
            i = i + 1;
        }
        threads
    }

    /// The cluster of a thread.
    pub fn dot_cluster(&self, thread_id: usize, color: DotColor) -> (cluster: DotCluster)
        ensures
            cluster@ == self@.dot_cluster(thread_id, color),
    {
        let mut nodes: Vec<DotNode> = Vec::new();
        let mut i: usize = 0;
        assert(Seq::new(nodes@.len(), |k: int| nodes@[k]@) =~= self@.dot_nodes_among(thread_id, 0));
        while i < self.nodes.len()
            invariant
                i <= self.nodes@.len(),
                Seq::new(nodes@.len(), |k: int| nodes@[k]@) == self@.dot_nodes_among(
                    thread_id,
                    i as int,
                ),
            decreases self.nodes@.len() - i,
        {
            let node = &self.nodes[i];
            if node.instruction.thread_id() == thread_id {
                let mut targets: Vec<String> = Vec::new();
                let mut k: usize = 0;
                while k < node.depends_on.len()
                    invariant
                        k <= node.depends_on@.len(),
                        targets@.len() == k,
                        forall|j: int| 0 <= j < k ==> targets@[j]@ == dot_name(node.depends_on@[j]),
                    decreases node.depends_on@.len() - k,
                {
                    targets.push(node.depends_on[k].to_dot());
                    k = k + 1;
                }
                let ghost before = Seq::new(nodes@.len(), |k: int| nodes@[k]@);
                let entry = DotNode { name: node.instruction.to_dot(), targets };
                assert(entry@.targets =~= dot_names(self@.nodes[i as int].depends_on));
                nodes.push(entry);
                assert(Seq::new(nodes@.len(), |k: int| nodes@[k]@) =~= before.push(entry@));
            }
            i = i + 1;
        }
        let mut label = "Thread #".to_owned();
        label.append(decimal_string(thread_id).as_str());
        DotCluster { thread_id, color, label, nodes }
    }

    /// The document: one cluster per thread, coloured by the palette at the
    /// positions given.
    pub fn dot_clusters(&self, colors: &Vec<u8>) -> (clusters: Vec<DotCluster>)
        ensures
            cluster_views(clusters@) == self@.dot_clusters(colors@),
    {
        let threads = self.threads();
        let mut clusters: Vec<DotCluster> = Vec::new();
        let mut k: usize = 0;
        while k < threads.len()
            invariant
                threads@ == self@.threads(),
                k <= threads@.len(),
                clusters@.len() == k,
                forall|j: int| 0 <= j < k ==> clusters@[j]@ == self@.dot_clusters(colors@)[j],
            decreases threads@.len() - k,
        {
            let color = if k < colors.len() {
                color_at(colors[k])
            } else {
                DotColor::Black
            };
            clusters.push(self.dot_cluster(threads[k], color));
            k = k + 1;
        }
        assert(cluster_views(clusters@) =~= self@.dot_clusters(colors@));
        clusters
    }
}

/// Declares `dot_writer::DotWriter`; nothing is known of what it holds.
#[verifier::external_type_specification]
#[verifier::external_body]
pub struct ExDotWriter<'w>(dot_writer::DotWriter<'w>);

/// Declares `dot_writer::Scope`; nothing is known of what it holds.
#[verifier::external_type_specification]
#[verifier::external_body]
pub struct ExScope<'d, 'w>(dot_writer::Scope<'d, 'w>);

/// Declares `dot_writer::AttributesList`; nothing is known of what it
/// holds.
#[verifier::external_type_specification]
#[verifier::external_body]
pub struct ExAttributesList<'d, 'w>(dot_writer::AttributesList<'d, 'w>);

/// Calls `DotWriter::digraph`: opens a directed graph, which closes when
/// the scope is dropped. Nothing is claimed of it.
#[verifier::external_body]
fn digraph<'d, 'w>(writer: &'d mut dot_writer::DotWriter<'w>) -> dot_writer::Scope<'d, 'w> {
    writer.digraph()
}

/// Calls `Scope::cluster`: opens a cluster in the scope, which closes when
/// it is dropped. Nothing is claimed of it.
#[verifier::external_body]
fn cluster<'d, 'w>(scope: &'d mut dot_writer::Scope<'_, 'w>) -> dot_writer::Scope<'d, 'w> {
    scope.cluster()
}

/// Calls `Attributes::set_color` on a scope, with the colour of
/// `dot_writer` of the same name. Nothing is claimed of it.
#[verifier::external_body]
fn scope_set_color<'d, 'w>(scope: &mut dot_writer::Scope<'d, 'w>, color: DotColor) {
    scope.set_color(
        match color {
            DotColor::PaleGreen => dot_writer::Color::PaleGreen,
            DotColor::PaleTurquoise => dot_writer::Color::PaleTurquoise,
            DotColor::Red => dot_writer::Color::Red,
            DotColor::Blue => dot_writer::Color::Blue,
            DotColor::Black => dot_writer::Color::Black,
            DotColor::LightGrey => dot_writer::Color::LightGrey,
        },
    );
}

/// Calls `Attributes::set_label` on a scope. Nothing is claimed of it.
#[verifier::external_body]
fn scope_set_label<'d, 'w>(scope: &mut dot_writer::Scope<'d, 'w>, label: &str) {
    scope.set_label(label);
}

/// Calls `Scope::node_attributes`: opens the list of default attributes of
/// the scope's nodes, which closes when it is dropped. Nothing is claimed
/// of it.
#[verifier::external_body]
fn node_attributes<'d, 'w>(scope: &'d mut dot_writer::Scope<'_, 'w>) -> dot_writer::AttributesList<
    'd,
    'w,
> {
    scope.node_attributes()
}

/// Calls `Attributes::set_style` on a list of attributes, with the style of
/// `dot_writer` of the same name. Nothing is claimed of it.
#[verifier::external_body]
fn list_set_style<'d, 'w>(list: &mut dot_writer::AttributesList<'d, 'w>, style: DotStyle) {
    list.set_style(
        match style {
            DotStyle::Filled => dot_writer::Style::Filled,
        },
    );
}

/// Calls `Attributes::set_color` on a list of attributes, with the colour
/// of `dot_writer` of the same name. Nothing is claimed of it.
#[verifier::external_body]
fn list_set_color<'d, 'w>(list: &mut dot_writer::AttributesList<'d, 'w>, color: DotColor) {
    list.set_color(
        match color {
            DotColor::PaleGreen => dot_writer::Color::PaleGreen,
            DotColor::PaleTurquoise => dot_writer::Color::PaleTurquoise,
            DotColor::Red => dot_writer::Color::Red,
            DotColor::Blue => dot_writer::Color::Blue,
            DotColor::Black => dot_writer::Color::Black,
            DotColor::LightGrey => dot_writer::Color::LightGrey,
        },
    );
}

/// Calls `Scope::node_named`: writes a node statement. Nothing is claimed
/// of it.
#[verifier::external_body]
fn node_named<'d, 'w>(scope: &mut dot_writer::Scope<'d, 'w>, name: &str) {
    scope.node_named(name);
}

/// Calls `Scope::edge`: writes an edge statement. Nothing is claimed of it.
#[verifier::external_body]
fn edge<'d, 'w>(scope: &mut dot_writer::Scope<'d, 'w>, from: &str, to: &str) {
    scope.edge(from, to);
}

/// Calls `Rng::gen_range` on `rand::thread_rng()` with the range from 0 to
/// `max`, both included: the number drawn lies in that range.
#[verifier::external_body]
fn random_up_to(max: u8) -> (r: u8)
    ensures
        r <= max,
{
    rand::thread_rng().gen_range(0..=max)
}

/// The text of a document: what a writer of `dot_writer` without pretty
/// printing holds once the clusters of the document have been written into
/// it.
pub uninterp spec fn dot_text(document: Seq<DotClusterView>) -> Seq<char>;

/// Writes the clusters into a writer: a directed graph; in it one cluster
/// per cluster of the document, with its colour, filled light grey nodes by
/// default, and its label; in each cluster one node statement per node,
/// each followed by one edge statement per target.
fn write_clusters<'w>(writer: &mut dot_writer::DotWriter<'w>, clusters: &Vec<DotCluster>) {
    let mut graph = digraph(writer);
    let mut c: usize = 0;
    while c < clusters.len()
        invariant
            c <= clusters.len(),
        decreases clusters.len() - c,
    {
        let mut scope = cluster(&mut graph);
        scope_set_color(&mut scope, clusters[c].color);
        {
            let mut defaults = node_attributes(&mut scope);
            list_set_style(&mut defaults, DotStyle::Filled);
            list_set_color(&mut defaults, DotColor::LightGrey);
        }
        scope_set_label(&mut scope, clusters[c].label.as_str());
        let mut n: usize = 0;
        let nodes = &clusters[c].nodes;
        while n < nodes.len()
            invariant
                n <= nodes.len(),
            decreases nodes.len() - n,
        {
            let node = &nodes[n];
            node_named(&mut scope, node.name.as_str());
            let mut e: usize = 0;
            while e < node.targets.len()
                invariant
                    e <= node.targets.len(),
                decreases node.targets.len() - e,
            {
                edge(&mut scope, node.name.as_str(), node.targets[e].as_str());
                e = e + 1;
            }
            n = n + 1;
        }
        c = c + 1;
    }
}

/// Calls `DotWriter::write_string` with a builder that writes the
/// clusters: the text that a writer without pretty printing holds once the
/// builder has run. The text depends on the clusters alone, and is named
/// `dot_text` of them.
#[verifier::external_body]
fn write_document(clusters: &Vec<DotCluster>) -> (text: String)
    ensures
        text@ == dot_text(cluster_views(clusters@)),
{
    dot_writer::DotWriter::write_string(|writer| write_clusters(writer, clusters))
}

/// Writes the clusters as a DOT document, without whitespace between the
/// statements.
pub fn render(clusters: &Vec<DotCluster>) -> (text: String)
    ensures
        text@ == dot_text(cluster_views(clusters@)),
{
    write_document(clusters)
}

impl GraphView {
    /// Whether a text is a DOT document of the graph: the text of its
    /// clusters, one per thread, each in some colour of the palette.
    pub open spec fn is_dot_text(self, text: Seq<char>) -> bool {
        exists|colors: Seq<u8>|
            colors.len() == self.threads().len() && (forall|k: int|
                0 <= k < colors.len() ==> colors[k] <= 4) && #[trigger] dot_text(
                self.dot_clusters(colors),
            ) == text
    }
}

impl DependencyGraph {
    /// Renders the graph as a DOT document: a directed graph with one
    /// cluster per thread, in a colour drawn at random from the palette.
    pub fn to_dot(&self) -> (text: String)
        ensures
            self@.is_dot_text(text@),
    {
        let threads = self.threads();
        let mut colors: Vec<u8> = Vec::new();
        let mut k: usize = 0;
        while k < threads.len()
            invariant
                k <= threads.len(),
                colors@.len() == k,
                forall|j: int| 0 <= j < k ==> colors@[j] <= 4,
            decreases threads.len() - k,
        {
            colors.push(random_up_to(4));
            k = k + 1;
        }
        let clusters = self.dot_clusters(&colors);
        let text = render(&clusters);
        assert(dot_text(self@.dot_clusters(colors@)) == text@);
        text
    }
}

} // verus!
