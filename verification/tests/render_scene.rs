//! Scene models: caps, strokes, and the bridge back to flowcharts.

use nereid::model::flow_ast::{FlowEdge, FlowNode, FlowchartAst};
use nereid::model::ids::ObjectId;
use nereid::render::lower::lower_flowchart;
use nereid::render::scene::{CapKind, EdgeStroke};

fn oid(s: &str) -> ObjectId {
    ObjectId::new(s).expect("object id")
}

#[test]
fn flow_connector_caps_match_legacy_rules() {
    assert_eq!(CapKind::from_flow_connector(Some("-->")), (CapKind::NoCap, CapKind::Arrow));
    assert_eq!(CapKind::from_flow_connector(Some("<-->")), (CapKind::Arrow, CapKind::Arrow));
    assert_eq!(CapKind::from_flow_connector(Some("---o")), (CapKind::NoCap, CapKind::Circle));
    assert_eq!(CapKind::from_flow_connector(Some("o--x")), (CapKind::Circle, CapKind::Cross));
    assert_eq!(CapKind::from_flow_connector(None), (CapKind::NoCap, CapKind::Arrow));
}

#[test]
fn every_cap_kind_emits_exactly_one_unicode_scalar_when_present() {
    for kind in [
        CapKind::NoCap,
        CapKind::Arrow,
        CapKind::Circle,
        CapKind::Cross,
        CapKind::DiamondFilled,
        CapKind::DiamondHollow,
        CapKind::TriangleHollow,
        CapKind::ExactlyOne,
        CapKind::CrowFoot,
        CapKind::ZeroOrOne,
    ] {
        for (dx, dy) in [(1, 0), (-1, 0), (0, 1), (0, -1)] {
            let g = kind.glyph(dx, dy);
            if kind == CapKind::NoCap {
                assert!(g.is_none());
            } else {
                let ch = g.expect("cap paints one cell");
                // Cap is a single Rust char (one Unicode scalar); never multi-cell strings.
                assert!(ch.len_utf8() > 0);
            }
        }
    }
}

#[test]
fn arrow_circle_cross_glyphs_match_legacy_endpoint_orientations() {
    // `glyph` takes outward direction from the node along the edge; the arrow points
    // toward the node (opposite outward), matching flowchart endpoint_cap_char.
    assert_eq!(CapKind::Arrow.glyph(1, 0), Some('◀'));
    assert_eq!(CapKind::Arrow.glyph(-1, 0), Some('▶'));
    assert_eq!(CapKind::Arrow.glyph(0, 1), Some('▲'));
    assert_eq!(CapKind::Arrow.glyph(0, -1), Some('▼'));
    assert_eq!(CapKind::Circle.glyph(1, 0), Some('○'));
    assert_eq!(CapKind::Cross.glyph(1, 0), Some('✕'));
}

#[test]
fn edge_stroke_detects_dotted_connectors_and_dashed_style() {
    assert_eq!(EdgeStroke::from_flow_connector_and_style(Some("-->"), None), EdgeStroke::Solid);
    assert_eq!(
        EdgeStroke::from_flow_connector_and_style(Some("-.->"), None),
        EdgeStroke::Dashed
    );
    assert_eq!(
        EdgeStroke::from_flow_connector_and_style(Some("-->"), Some("stroke-dasharray: 5")),
        EdgeStroke::Solid
    );
    assert_eq!(
        EdgeStroke::from_flow_connector_and_style(Some("-->"), Some("dashed")),
        EdgeStroke::Dashed
    );
}

#[test]
fn graph_model_bridge_roundtrip_preserves_flow_fields() {
    let mut ast = FlowchartAst::default();
    let a = oid("n:a");
    let b = oid("n:b");
    let mut na = FlowNode::new_with("A", "circle", Some("A".to_owned()));
    na.set_note(Some("note-a".to_owned()));
    ast.nodes_mut().insert(a.clone(), na);
    ast.nodes_mut().insert(b.clone(), FlowNode::new("B"));
    let mut edge = FlowEdge::new(a.clone(), b.clone());
    edge.set_label(Some("go".to_owned()));
    edge.set_connector(Some("<-->".to_owned()));
    edge.set_style(Some("dashed".to_owned()));
    ast.edges_mut().insert(oid("e:1"), edge);

    let model = lower_flowchart(&ast);
    assert_eq!(model.nodes().get(&a).unwrap().shape(), "circle");
    assert_eq!(model.edges().get(&oid("e:1")).unwrap().stroke(), EdgeStroke::Dashed);
    assert_eq!(model.edges().get(&oid("e:1")).unwrap().start_cap(), CapKind::Arrow);
    assert_eq!(model.edges().get(&oid("e:1")).unwrap().end_cap(), CapKind::Arrow);

    let back = model.to_flowchart_ast();
    assert_eq!(back.nodes().len(), 2);
    assert_eq!(back.nodes().get(&a).unwrap().label(), "A");
    assert_eq!(back.nodes().get(&a).unwrap().shape(), "circle");
    assert_eq!(back.nodes().get(&a).unwrap().mermaid_id(), Some("A"));
    assert_eq!(back.nodes().get(&a).unwrap().note(), Some("note-a"));
    assert_eq!(back.edges().get(&oid("e:1")).unwrap().connector(), Some("<-->"));
    assert_eq!(back.edges().get(&oid("e:1")).unwrap().label(), Some("go"));
    assert_eq!(back.edges().get(&oid("e:1")).unwrap().style(), Some("dashed"));
}
