//! Walkthrough rendering: step boxes left to right, arrows between neighbouring steps.

use nereid::model::{ObjectId, Walkthrough, WalkthroughEdge, WalkthroughId, WalkthroughNode, WalkthroughNodeId};
use nereid::render::walkthrough::{render_walkthrough_unicode, WalkthroughRenderError};

fn node_id(raw: &str) -> WalkthroughNodeId {
    WalkthroughNodeId::new(raw).expect("node id")
}

#[test]
fn snapshot_two_nodes_one_edge() {
    let mut wt = Walkthrough::new(WalkthroughId::new("wt:demo").expect("walkthrough id"), "Demo");

    let n_start = WalkthroughNodeId::new("wtn:start").expect("node id");
    let n_end = WalkthroughNodeId::new("wtn:end").expect("node id");

    wt.nodes_mut().push(WalkthroughNode::new(n_start.clone(), "Start"));
    wt.nodes_mut().push(WalkthroughNode::new(n_end.clone(), "End"));
    wt.edges_mut().push(WalkthroughEdge::new(n_start, n_end, "next"));

    let rendered = render_walkthrough_unicode(&wt).expect("render");
    assert_eq!(rendered, "┌───────┐    ┌─────┐\n│ Start │───▶│ End │\n└───────┘    └─────┘");
}

#[test]
fn empty_walkthrough_renders_nothing() {
    let wt = Walkthrough::new(ObjectId::new("wt:e").expect("id"), "E");
    assert_eq!(render_walkthrough_unicode(&wt).expect("render"), "");
}

#[test]
fn backward_link_points_left_and_far_links_draw_nothing() {
    let mut wt = Walkthrough::new(ObjectId::new("wt:b").expect("id"), "B");
    wt.nodes_mut().push(WalkthroughNode::new(node_id("a"), "A"));
    wt.nodes_mut().push(WalkthroughNode::new(node_id("b"), "B"));
    wt.nodes_mut().push(WalkthroughNode::new(node_id("c"), ""));
    wt.edges_mut().push(WalkthroughEdge::new(node_id("b"), node_id("a"), "back"));
    wt.edges_mut().push(WalkthroughEdge::new(node_id("a"), node_id("c"), "far"));
    let rendered = render_walkthrough_unicode(&wt).expect("render");
    assert_eq!(
        rendered,
        "┌───┐    ┌───┐    ┌───┐\n│ A │◀───│ B │    │   │\n└───┘    └───┘    └───┘"
    );
}

#[test]
fn link_to_an_unknown_step_is_refused_with_its_id() {
    let mut wt = Walkthrough::new(ObjectId::new("wt:m").expect("id"), "M");
    wt.nodes_mut().push(WalkthroughNode::new(node_id("a"), "A"));
    wt.edges_mut().push(WalkthroughEdge::new(node_id("a"), node_id("zz"), "x"));
    assert_eq!(
        render_walkthrough_unicode(&wt),
        Err(WalkthroughRenderError::MissingNode { node_id: node_id("zz") })
    );
}

#[test]
fn canvas_errors_convert_into_walkthrough_errors() {
    let e = nereid::render::CanvasError::AreaOverflow { width: 3, height: 4 };
    assert_eq!(WalkthroughRenderError::from(e.clone()), WalkthroughRenderError::Canvas(e));
}
