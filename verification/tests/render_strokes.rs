//! Connector strokes on the canvas and layer offsets of graph paint.

use nereid::render::graph_paint::{draw_hline_stroke, draw_vline_stroke, layer_x0_from_metrics};
use nereid::render::scene::EdgeStroke;
use nereid::render::{Canvas, CanvasError};

#[test]
fn dashed_hline_writes_every_other_cell_from_the_left_end() {
    let mut canvas = Canvas::new(7, 1).expect("canvas");
    draw_hline_stroke(&mut canvas, 5, 0, 0, EdgeStroke::Dashed).expect("fits");
    assert_eq!(canvas.to_string(), "─ ─ ─  ");
}

#[test]
fn solid_strokes_draw_full_lines() {
    let mut canvas = Canvas::new(3, 3).expect("canvas");
    draw_hline_stroke(&mut canvas, 0, 2, 1, EdgeStroke::Solid).expect("fits");
    draw_vline_stroke(&mut canvas, 1, 0, 2, EdgeStroke::Solid).expect("fits");
    assert_eq!(canvas.to_string(), " │ \n─┼─\n │ ");
}

#[test]
fn dashed_vline_stops_at_first_cell_outside() {
    let mut canvas = Canvas::new(1, 4).expect("canvas");
    let err = draw_vline_stroke(&mut canvas, 0, 0, 6, EdgeStroke::Dashed).expect_err("too tall");
    assert_eq!(err, CanvasError::OutOfBounds { x: 0, y: 4, width: 1, height: 4 });
    assert_eq!(canvas.to_string(), "│\n \n│\n ");
}

#[test]
fn dashed_hline_on_missing_row_is_refused_at_its_left_end() {
    let mut canvas = Canvas::new(4, 1).expect("canvas");
    let err = draw_hline_stroke(&mut canvas, 3, 1, 2, EdgeStroke::Dashed).expect_err("no row");
    assert_eq!(err, CanvasError::OutOfBounds { x: 1, y: 2, width: 4, height: 1 });
    assert_eq!(canvas.to_string(), "    ");
}

#[test]
fn layer_offsets_add_walls_and_gaps() {
    let (x0s, width) = layer_x0_from_metrics(&[3, 5, 4], &[4, 6]);
    assert_eq!(x0s, vec![0, 9, 22]);
    assert_eq!(width, 28);
    let (none, min_width) = layer_x0_from_metrics(&[], &[]);
    assert!(none.is_empty());
    assert_eq!(min_width, 1);
}
