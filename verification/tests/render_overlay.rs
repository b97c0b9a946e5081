//! Endpoint caps stamped over connector text, and highlight spans cut to rendered lines.

use nereid::model::ObjectRef;
use nereid::render::edge_caps::{overlay_edge_caps_on_text, EdgeCapCell, EdgeCapPlacement};
use nereid::render::{clamp_highlight_index_to_text, AnnotatedRender, HighlightIndex};

fn cap(x: usize, y: usize, ch: char, dx: i32, dy: i32) -> EdgeCapCell {
    EdgeCapCell { x, y, ch, outward_dx: dx, outward_dy: dy }
}

#[test]
fn arrowhead_trims_connector_stroke_behind_it() {
    let text = "  │  \n──┼──\n  │  ".to_owned();
    let caps = vec![EdgeCapPlacement { start: None, end: Some(cap(2, 2, '▼', 0, 1)) }];
    let out = overlay_edge_caps_on_text(text, &caps);
    assert_eq!(out, "  │  \n──┴──\n  ▼  ");
}

#[test]
fn arrowhead_keeps_a_lone_stroke_as_a_line() {
    let text = "──────".to_owned();
    let caps = vec![EdgeCapPlacement { start: Some(cap(5, 0, '▶', 1, 0)), end: None }];
    assert_eq!(overlay_edge_caps_on_text(text, &caps), "─────▶");
}

#[test]
fn non_arrow_caps_only_replace_their_cell_and_outside_caps_are_ignored() {
    let text = "┌──┐\n└──┘\n".to_owned();
    let caps = vec![
        EdgeCapPlacement { start: Some(cap(1, 0, '○', 0, -1)), end: Some(cap(9, 9, '▶', 1, 0)) },
        EdgeCapPlacement { start: None, end: Some(cap(3, 1, '◆', 1, 0)) },
    ];
    assert_eq!(overlay_edge_caps_on_text(text, &caps), "┌○─┐\n└──◆");
}

#[test]
fn overlay_reads_lines_like_str_lines() {
    let text = "ab\r\ncd\n".to_owned();
    assert_eq!(overlay_edge_caps_on_text(text, &Vec::new()), "ab\ncd");
    assert_eq!(overlay_edge_caps_on_text(String::new(), &Vec::new()), "");
}

fn object(raw: &str) -> ObjectRef {
    ObjectRef::parse(raw).expect("object ref")
}

#[test]
fn clamp_cuts_spans_to_lines_and_drops_empty_objects() {
    let text = "abc\n\nxy";
    let mut index = HighlightIndex::new();
    index.insert(object("d:flow/flow/node/n:a"), vec![(0, 1, 10), (1, 0, 0), (2, 2, 3), (2, 0, 1)]);
    index.insert(object("d:flow/flow/node/n:b"), vec![(5, 0, 0), (0, 3, 4)]);
    clamp_highlight_index_to_text(&mut index, text);
    assert_eq!(index.len(), 1);
    let spans = index.get(&object("d:flow/flow/node/n:a")).expect("kept object");
    assert_eq!(spans, &vec![(0, 1, 2), (2, 0, 1)]);
    assert!(index.get(&object("d:flow/flow/node/n:b")).is_none());

    let annotated = AnnotatedRender { text: text.to_owned(), highlight_index: index };
    assert_eq!(annotated.text, "abc\n\nxy");
}
