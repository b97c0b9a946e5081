//! Scene paint decisions, box hit tests, and track scene styles.

use nereid::model::ids::ObjectId;
use nereid::model::SequenceAst;
use nereid::render::graph_paint::{cell_on_box_border_or_interior, graph_model_needs_scene_paint};
use nereid::render::scene::{CapKind, EdgeStroke, GraphCompartment, GraphEdge, GraphModel, GraphNode, TrackModel, TrackSpanStyle};
use nereid::render::Canvas;

fn oid(raw: &str) -> ObjectId {
    ObjectId::new(raw).expect("object id")
}

#[test]
fn plain_flow_scene_needs_no_scene_paint() {
    let mut model = GraphModel::default();
    model.nodes.insert(oid("n:a"), GraphNode::new("A"));
    model.nodes.insert(oid("n:b"), GraphNode::new("B"));
    model.edges.insert(oid("e:ab"), GraphEdge::new(oid("n:a"), oid("n:b")).with_caps(CapKind::NoCap, CapKind::Arrow));
    assert!(!graph_model_needs_scene_paint(&model));
}

#[test]
fn dashed_edges_diamonds_or_compartments_need_scene_paint() {
    let mut dashed = GraphModel::default();
    dashed.edges.insert(oid("e:ab"), GraphEdge::new(oid("n:a"), oid("n:b")).with_stroke(EdgeStroke::Dashed));
    assert!(graph_model_needs_scene_paint(&dashed));

    let mut diamond = GraphModel::default();
    diamond.edges.insert(oid("e:ab"), GraphEdge::new(oid("n:a"), oid("n:b")).with_caps(CapKind::DiamondFilled, CapKind::NoCap));
    assert!(graph_model_needs_scene_paint(&diamond));

    let mut boxed = GraphModel::default();
    boxed.nodes.insert(oid("c:a"), GraphNode::new("A").with_compartments(vec![GraphCompartment::new(&["x"])]));
    assert!(graph_model_needs_scene_paint(&boxed));
}

#[test]
fn box_hit_test_includes_borders() {
    let placed = [(2, 1, 5, 3), (10, 0, 12, 2)];
    assert!(cell_on_box_border_or_interior(&placed, 2, 1));
    assert!(cell_on_box_border_or_interior(&placed, 4, 2));
    assert!(cell_on_box_border_or_interior(&placed, 12, 2));
    assert!(!cell_on_box_border_or_interior(&placed, 6, 2));
    assert!(!cell_on_box_border_or_interior(&placed, 11, 3));
    assert!(!cell_on_box_border_or_interior(&[], 0, 0));
}

#[test]
fn vertical_lines_are_seen_in_merged_cells() {
    let mut canvas = Canvas::new(3, 3).expect("canvas");
    canvas.draw_hline(0, 2, 1).expect("fits");
    assert_eq!(canvas.has_box_vertical(1, 1), Ok(false));
    canvas.draw_vline(1, 0, 2).expect("fits");
    assert_eq!(canvas.has_box_vertical(1, 1), Ok(true));
    assert!(canvas.has_box_vertical(3, 0).is_err());
}

#[test]
fn track_scene_keeps_its_sequence_and_style() {
    let track = TrackModel::from_sequence(SequenceAst::default()).with_default_span_style(TrackSpanStyle::Bar);
    assert_eq!(track.default_span_style(), TrackSpanStyle::Bar);
    let sequence = track.into_sequence_ast();
    assert!(sequence.messages().is_empty());
}
