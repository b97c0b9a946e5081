//! Graph paint: node box geometry, node boxes with compartments, caps and corridors.

use nereid::model::ids::ObjectId;
use nereid::render::graph_paint::{
    edge_corridor_need, graph_cap_glyph, graph_node_attach_mid_y, graph_node_box_height,
    graph_node_inner_rows, graph_node_preferred_inner_width, paint_graph_node_box, GRAPH_MIN_CORRIDOR,
};
use nereid::render::scene::{CapKind, GraphCompartment, GraphEdge, GraphNode};
use nereid::render::{Canvas, RenderOptions};

#[test]
fn plain_node_height_matches_legacy_three_rows() {
    let node = GraphNode::new("A");
    assert_eq!(graph_node_box_height(&node, RenderOptions::default()), 3);
    assert_eq!(graph_node_inner_rows(&node, RenderOptions::default()), 1);
}

#[test]
fn note_adds_one_inner_row() {
    let node = GraphNode::new("A").with_note(Some("n".to_owned()));
    let options = RenderOptions { show_notes: true, ..RenderOptions::default() };
    assert_eq!(graph_node_box_height(&node, options), 4);
}

#[test]
fn two_member_compartments_expand_height() {
    let node = GraphNode::new("Class01").with_compartments(vec![
        GraphCompartment::new(&["int chimp", "int gorilla"]),
        GraphCompartment::new(&["size()"]),
    ]);
    // title + div + 2 lines + div + 1 line + borders = 1+1+2+1+1+2 = 8
    assert_eq!(graph_node_box_height(&node, RenderOptions::default()), 8);
}

#[test]
fn preferred_width_includes_side_padding_and_long_members() {
    let node =
        GraphNode::new("C").with_compartments(vec![GraphCompartment::new(&["abcdefghij"])]);
    assert_eq!(graph_node_preferred_inner_width(&node, RenderOptions::default()), 12);
}

#[test]
fn notes_off_ignores_note_in_height() {
    let node = GraphNode::new("A").with_note(Some("hidden".to_owned()));
    let options = RenderOptions { show_notes: false, ..RenderOptions::default() };
    assert_eq!(graph_node_box_height(&node, options), 3);
}

#[test]
fn empty_compartment_still_reserves_divider_and_blank() {
    let node = GraphNode::new("Empty")
        .with_compartments(vec![GraphCompartment::new(&[])]);
    // title + div + blank + borders = 1+1+1+2 = 5
    assert_eq!(graph_node_box_height(&node, RenderOptions::default()), 5);
}

#[test]
fn paint_class_style_box_has_dividers_and_members() {
    let node = GraphNode::new("Class01").with_compartments(vec![
        GraphCompartment::new(&["int chimp", "int gorilla"]),
        GraphCompartment::new(&["size()"]),
    ]);
    let inner = graph_node_preferred_inner_width(&node, RenderOptions::default());
    let height = graph_node_box_height(&node, RenderOptions::default());
    let width = inner + 2;
    let mut canvas = Canvas::new(width, height).expect("canvas");
    paint_graph_node_box(&mut canvas, &node, 0, 0, inner, RenderOptions::default())
        .expect("paint");
    let text = canvas.to_string();
    assert!(text.contains("Class01"), "{text}");
    assert!(text.contains("int chimp"), "{text}");
    assert!(text.contains("size()"), "{text}");
    assert!(text.contains('├') || text.contains('─'), "expected divider: {text}");
    // Side tees from full-width hline merge.
    let has_tee = text.chars().any(|ch| ch == '├' || ch == '┤');
    assert!(has_tee, "expected compartment tee into sides:\n{text}");
}

#[test]
fn long_member_truncates_with_ellipsis() {
    let node = GraphNode::new("C")
        .with_compartments(vec![GraphCompartment::new(&["this_is_a_very_long_member_name"])]);
    let inner = 8usize;
    let height = graph_node_box_height(&node, RenderOptions::default());
    let mut canvas = Canvas::new(inner + 2, height).expect("canvas");
    paint_graph_node_box(&mut canvas, &node, 0, 0, inner, RenderOptions::default())
        .expect("paint");
    let text = canvas.to_string();
    assert!(text.contains('…'), "expected ellipsis:\n{text}");
}

#[test]
fn attach_mid_y_is_center_of_tall_box() {
    assert_eq!(graph_node_attach_mid_y(0, 8), 3);
    assert_eq!(graph_node_attach_mid_y(2, 5), 4);
}

#[test]
fn cap_matrix_every_kind_one_char() {
    for kind in [
        CapKind::Arrow,
        CapKind::Circle,
        CapKind::Cross,
        CapKind::DiamondFilled,
        CapKind::DiamondHollow,
        CapKind::TriangleHollow,
        CapKind::ExactlyOne,
        CapKind::CrowFoot,
        CapKind::ZeroOrOne,
    ] {
        let ch = graph_cap_glyph(kind, 1, 0).expect("glyph");
        assert!(ch.len_utf8() > 0);
    }
    assert!(graph_cap_glyph(CapKind::NoCap, 1, 0).is_none());
}

#[test]
fn painted_box_interior_rows_are_between_side_walls() {
    let node = GraphNode::new("Box").with_compartments(vec![
        GraphCompartment::new(&["attr"]),
        GraphCompartment::new(&["method()"]),
    ]);
    let inner = graph_node_preferred_inner_width(&node, RenderOptions::default());
    let h = graph_node_box_height(&node, RenderOptions::default());
    let mut canvas = Canvas::new(inner + 2, h).expect("canvas");
    paint_graph_node_box(&mut canvas, &node, 0, 0, inner, RenderOptions::default())
        .expect("paint");
    let text = canvas.to_string();
    for (i, line) in text.lines().enumerate() {
        if i == 0 || i + 1 == text.lines().count() {
            continue; // top/bottom borders
        }
        let chars: Vec<char> = line.chars().collect();
        if chars.is_empty() {
            continue;
        }
        // Interior content rows: first and last should be vertical walls (or tees).
        let left = chars[0];
        let right = *chars.last().unwrap();
        assert!(
            matches!(left, '│' | '├' | '┤' | '┌' | '└'),
            "row {i} left wall broken: {line:?}\n{text}"
        );
        assert!(
            matches!(right, '│' | '├' | '┤' | '┐' | '┘'),
            "row {i} right wall broken: {line:?}\n{text}"
        );
    }
}

#[test]
fn edge_corridor_need_grows_with_label_and_caps() {

    let a = ObjectId::new("n:a").unwrap();
    let b = ObjectId::new("n:b").unwrap();
    let plain = GraphEdge::new(a.clone(), b.clone());
    assert_eq!(edge_corridor_need(&plain), GRAPH_MIN_CORRIDOR);

    let labeled = GraphEdge::new(a.clone(), b.clone())
        .with_label(Some("places".to_owned()))
        .with_caps(CapKind::ExactlyOne, CapKind::CrowFoot);
    // caps(1+1) + pad(1+1) + "places"(6) = 10
    assert_eq!(edge_corridor_need(&labeled), 10);
    assert!(edge_corridor_need(&labeled) > GRAPH_MIN_CORRIDOR);
}

#[test]
fn every_divider_joins_both_walls() {
    let node = GraphNode::new("K").with_compartments(vec![
        GraphCompartment::new(&["a"]),
        GraphCompartment::new(&["b", "c"]),
    ]);
    let inner = 4usize;
    let height = graph_node_box_height(&node, RenderOptions::default());
    let mut canvas = Canvas::new(inner + 4, height + 1).expect("canvas");
    paint_graph_node_box(&mut canvas, &node, 1, 0, inner, RenderOptions::default())
        .expect("paint");
    let text = canvas.to_string();
    let rows: Vec<Vec<char>> = text.lines().map(|l| l.chars().collect()).collect();
    // Dividers sit on rows 2 and 4 (title on row 1); walls in columns 1 and 6.
    for r in [2usize, 4] {
        assert_eq!(rows[r][1], '├', "{text}");
        assert_eq!(rows[r][inner + 2], '┤', "{text}");
    }
}

#[test]
fn box_corners_and_walls_hold_on_every_inner_row() {
    let node = GraphNode::new("Title").with_note(Some("n".to_owned())).with_compartments(vec![
        GraphCompartment::new(&["x"]),
        GraphCompartment::new(&[]),
    ]);
    let options = RenderOptions { show_notes: true, ..RenderOptions::default() };
    let inner = 5usize;
    let height = graph_node_box_height(&node, options);
    let mut canvas = Canvas::new(inner + 2, height).expect("canvas");
    paint_graph_node_box(&mut canvas, &node, 0, 0, inner, options).expect("paint");
    let text = canvas.to_string();
    let rows: Vec<Vec<char>> = text.lines().map(|l| l.chars().collect()).collect();
    let last = height - 1;
    assert_eq!(rows[0][0], '┌', "{text}");
    assert_eq!(rows[0][inner + 1], '┐', "{text}");
    assert_eq!(rows[last][0], '└', "{text}");
    assert_eq!(rows[last][inner + 1], '┘', "{text}");
    for y in 1..last {
        assert!(matches!(rows[y][0], '│' | '├'), "{text}");
        assert!(matches!(rows[y][inner + 1], '│' | '┤'), "{text}");
    }
}
