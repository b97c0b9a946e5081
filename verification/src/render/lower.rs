//! Lowering diagram ASTs into scene models.

use vstd::prelude::*;
use crate::model::diagram::DiagramAst;
use crate::model::flow_ast::{FlowEdge, FlowEdgeView, FlowNode, FlowNodeView, FlowchartAst, dup_opt_string, dup_opt_symbol};
use crate::model::seq_ast::{SequenceAst, message_views};
use crate::sorted_map::{Duplicate, OrdKey};
use super::scene::{
    CapKind, EdgeStroke, GraphEdge, GraphEdgeView, GraphModel, GraphNode, GraphNodeView, RenderScene, TrackModel,
    TrackSpanStyle, flow_caps, flow_stroke, graph_edge_as_flow, graph_node_as_flow, opt_str_view,
};

verus! {

/// The graph node a flowchart node lowers to.
pub open spec fn flow_node_as_graph(n: FlowNodeView) -> GraphNodeView {
    GraphNodeView {
        mermaid_id: n.mermaid_id,
        label: n.label,
        shape: n.shape,
        note: n.note,
        symbol: n.symbol,
        compartments: Seq::empty(),
    }
}

/// The graph edge a flowchart edge lowers to: caps and stroke resolved from its connector and
/// style, the connector kept as it is.
pub open spec fn flow_edge_as_graph(e: FlowEdgeView) -> GraphEdgeView {
    GraphEdgeView {
        from_node_id: e.from_node_id,
        to_node_id: e.to_node_id,
        label: e.label,
        connector: e.connector,
        style: e.style,
        start_cap: flow_caps(e.connector).0,
        end_cap: flow_caps(e.connector).1,
        stroke: flow_stroke(e.connector, e.style),
    }
}

/// Lowers a flowchart into a graph scene: one graph node per node and one graph edge per edge,
/// under the same ids.
pub fn lower_flowchart(ast: &FlowchartAst) -> (model: GraphModel)
    ensures
        model.nodes@.map_values(|g: GraphNode| g@) == ast.nodes@.map_values(|n: FlowNode| flow_node_as_graph(n@)),
        model.edges@.map_values(|g: GraphEdge| g@) == ast.edges@.map_values(|e: FlowEdge| flow_edge_as_graph(e@)),
{
    let mut model = GraphModel::default();
    proof {
        use_type_invariant(&ast.nodes);
        use_type_invariant(&ast.edges);
        ast.nodes.lemma_shape();
        ast.edges.lemma_shape();
    }
    let ghost nks = ast.nodes.keys_seq();
    let n = ast.nodes.len();
    let mut i: usize = 0;
    while i < n
        invariant
            n == nks.len(),
            nks == ast.nodes.keys_seq(),
            ast.nodes.well_formed(),
            i <= n,
            model.edges@ == Map::<Seq<char>, GraphEdge>::empty(),
            forall|k: Seq<char>| #[trigger] model.nodes@.contains_key(k) <==> nks.take(i as int).contains(k),
            forall|k: Seq<char>| #[trigger] model.nodes@.contains_key(k) ==> model.nodes@[k]@ == flow_node_as_graph(ast.nodes@[k]@),
        decreases n - i,
    {
        let id = ast.nodes.key_at(i);
        let node = ast.nodes.value_at(i);
        let graph_node = GraphNode::new(node.label.as_str())
            .with_mermaid_id(dup_opt_string(&node.mermaid_id))
            .with_shape(node.shape.as_str())
            .with_note(dup_opt_string(&node.note))
            .with_symbol(dup_opt_symbol(&node.symbol));
        proof {
            ast.nodes.lemma_shape();
            assert(ast.nodes@.contains_key(nks[i as int]));
            assert(ast.nodes@[nks[i as int]] == *node);
            assert(graph_node@ == flow_node_as_graph(node@));
        }
        model.nodes.insert(id.duplicate(), graph_node);
        proof {
            let t0 = nks.take(i as int);
            let t1 = nks.take(i + 1);
            assert(t1 =~= t0.push(nks[i as int]));
            assert forall|k: Seq<char>| #[trigger] model.nodes@.contains_key(k) <==> t1.contains(k) by {
                if k == nks[i as int] {
                    assert(t1[i as int] == k);
                }
                if t1.contains(k) && k != nks[i as int] {
                    let j = choose|j: int| 0 <= j < t1.len() && t1[j] == k;
                    assert(t0[j] == k);
                }
                if t0.contains(k) {
                    let j = choose|j: int| 0 <= j < t0.len() && t0[j] == k;
                    assert(t1[j] == k);
                }
            }
        }
        i = i + 1;
    }
    proof {
        assert(nks.take(n as int) =~= nks);
        assert(model.nodes@.map_values(|g: GraphNode| g@) =~= ast.nodes@.map_values(|n: FlowNode| flow_node_as_graph(n@)));
    }
    let ghost eks = ast.edges.keys_seq();
    let ghost nodes_done = model.nodes@;
    let m = ast.edges.len();
    let mut i: usize = 0;
    while i < m
        invariant
            m == eks.len(),
            eks == ast.edges.keys_seq(),
            ast.edges.well_formed(),
            i <= m,
            model.nodes@ == nodes_done,
            forall|k: Seq<char>| #[trigger] model.edges@.contains_key(k) <==> eks.take(i as int).contains(k),
            forall|k: Seq<char>| #[trigger] model.edges@.contains_key(k) ==> model.edges@[k]@ == flow_edge_as_graph(ast.edges@[k]@),
        decreases m - i,
    {
        let id = ast.edges.key_at(i);
        let edge = ast.edges.value_at(i);
        let connector = crate::model::flow_ast::opt_as_str(&edge.connector);
        let style = crate::model::flow_ast::opt_as_str(&edge.style);
        let (start_cap, end_cap) = CapKind::from_flow_connector(connector);
        let stroke = EdgeStroke::from_flow_connector_and_style(connector, style);
        let graph_edge = GraphEdge::new(edge.from_node_id.duplicate(), edge.to_node_id.duplicate())
            .with_label(dup_opt_string(&edge.label))
            .with_connector(dup_opt_string(&edge.connector))
            .with_style(dup_opt_string(&edge.style))
            .with_caps(start_cap, end_cap)
            .with_stroke(stroke);
        proof {
            ast.edges.lemma_shape();
            assert(ast.edges@.contains_key(eks[i as int]));
            assert(ast.edges@[eks[i as int]] == *edge);
            assert(opt_str_view(connector) == edge@.connector);
            assert(opt_str_view(style) == edge@.style);
            assert(graph_edge@ == flow_edge_as_graph(edge@));
        }
        model.edges.insert(id.duplicate(), graph_edge);
        proof {
            let t0 = eks.take(i as int);
            let t1 = eks.take(i + 1);
            assert(t1 =~= t0.push(eks[i as int]));
            assert forall|k: Seq<char>| #[trigger] model.edges@.contains_key(k) <==> t1.contains(k) by {
                if k == eks[i as int] {
                    assert(t1[i as int] == k);
                }
                if t1.contains(k) && k != eks[i as int] {
                    let j = choose|j: int| 0 <= j < t1.len() && t1[j] == k;
                    assert(t0[j] == k);
                }
                if t0.contains(k) {
                    let j = choose|j: int| 0 <= j < t0.len() && t0[j] == k;
                    assert(t1[j] == k);
                }
            }
        }
        i = i + 1;
    }
    proof {
        assert(eks.take(m as int) =~= eks);
        assert(model.edges@.map_values(|g: GraphEdge| g@) =~= ast.edges@.map_values(|e: FlowEdge| flow_edge_as_graph(e@)));
    }
    model
}

/// Lowering a flowchart and bridging the scene back gives the same flowchart: nodes and edges
/// keep every flowchart field.
pub proof fn lemma_lower_then_bridge_is_identity(
    nodes: Map<Seq<char>, FlowNodeView>,
    edges: Map<Seq<char>, FlowEdgeView>,
)
    ensures
        nodes.map_values(|n: FlowNodeView| flow_node_as_graph(n)).map_values(|g: GraphNodeView| graph_node_as_flow(g)) == nodes,
        edges.map_values(|e: FlowEdgeView| flow_edge_as_graph(e)).map_values(|g: GraphEdgeView| graph_edge_as_flow(g)) == edges,
{
    assert(nodes.map_values(|n: FlowNodeView| flow_node_as_graph(n)).map_values(|g: GraphNodeView| graph_node_as_flow(g)) =~= nodes);
    assert(edges.map_values(|e: FlowEdgeView| flow_edge_as_graph(e)).map_values(|g: GraphEdgeView| graph_edge_as_flow(g)) =~= edges);
}

/// Lowers a sequence diagram into a track scene painted with arrows.
pub fn lower_sequence(ast: &SequenceAst) -> (t: TrackModel)
    ensures
        t.sequence().participants@ == ast.participants@,
        t.sequence().messages@ == ast.messages@,
        t.span_style() == TrackSpanStyle::Arrow,
{
    TrackModel::from_sequence(ast.duplicate())
}

/// Lowers a diagram into the scene family of its kind: flowcharts into graphs, sequence
/// diagrams into tracks.
pub fn lower_diagram_ast(ast: &DiagramAst) -> (scene: RenderScene)
    ensures
        match (ast, scene) {
            (DiagramAst::Flowchart(f), RenderScene::Graph(g)) =>
                g.nodes@.map_values(|n: GraphNode| n@) == f.nodes@.map_values(|n: FlowNode| flow_node_as_graph(n@))
                && g.edges@.map_values(|e: GraphEdge| e@) == f.edges@.map_values(|e: FlowEdge| flow_edge_as_graph(e@)),
            (DiagramAst::Sequence(s), RenderScene::Track(t)) =>
                t.sequence().participants@ == s.participants@ && t.sequence().messages@ == s.messages@
                && t.span_style() == TrackSpanStyle::Arrow,
            _ => false,
        },
{
    match ast {
        DiagramAst::Flowchart(flow) => RenderScene::Graph(lower_flowchart(flow)),
        DiagramAst::Sequence(seq) => RenderScene::Track(lower_sequence(seq)),
    }
}

} // verus!
