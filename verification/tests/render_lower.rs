//! Lowering diagrams into scenes.

use nereid::model::diagram::DiagramAst;
use nereid::model::flow_ast::{FlowEdge, FlowNode, FlowchartAst};
use nereid::model::ids::ObjectId;
use nereid::model::seq_ast::{SequenceAst, SequenceParticipant};
use nereid::render::lower::{lower_diagram_ast, lower_flowchart, lower_sequence};
use nereid::render::scene::{CapKind, TrackSpanStyle};

fn oid(s: &str) -> ObjectId {
    ObjectId::new(s).expect("object id")
}

#[test]
fn lower_flowchart_resolves_caps() {
    let mut ast = FlowchartAst::default();
    let a = oid("n:a");
    let b = oid("n:b");
    ast.nodes_mut().insert(a.clone(), FlowNode::new("A"));
    ast.nodes_mut().insert(b.clone(), FlowNode::new("B"));
    let mut edge = FlowEdge::new(a, b);
    edge.set_connector(Some("o-->".to_owned()));
    ast.edges_mut().insert(oid("e:1"), edge);

    let model = lower_flowchart(&ast);
    let e = model.edges().get(&oid("e:1")).expect("edge");
    assert_eq!(e.start_cap(), CapKind::Circle);
    assert_eq!(e.end_cap(), CapKind::Arrow);
}

#[test]
fn lower_sequence_preserves_participants() {
    let mut ast = SequenceAst::default();
    ast.participants_mut().insert(oid("p:a"), SequenceParticipant::new("Alice"));
    let track = lower_sequence(&ast);
    assert_eq!(track.as_sequence_ast().participants().len(), 1);
    assert_eq!(track.default_span_style(), TrackSpanStyle::Arrow);
}

#[test]
fn lower_diagram_ast_picks_family() {
    let scene = lower_diagram_ast(&DiagramAst::Flowchart(FlowchartAst::default()));
    assert_eq!(scene.family_name(), "graph");
    let scene = lower_diagram_ast(&DiagramAst::Sequence(SequenceAst::default()));
    assert_eq!(scene.family_name(), "track");
}
