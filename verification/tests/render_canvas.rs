//! The character canvas: bounds, clipping, and merging of box-drawing lines.

use nereid::render::{Canvas, CanvasError};

#[test]
fn set_and_get_in_bounds() {
    let mut c = Canvas::new_filled(3, 2, '.').expect("canvas");
    assert_eq!(c.get(1, 0).unwrap(), '.');
    c.set(1, 0, 'X').unwrap();
    assert_eq!(c.get(1, 0).unwrap(), 'X');
    assert_eq!(c.to_string(), ".X.\n...");
}

#[test]
fn set_out_of_bounds_errors() {
    let mut c = Canvas::new(2, 2).expect("canvas");
    let err = c.set(2, 0, 'X').unwrap_err();
    assert_eq!(
        err,
        CanvasError::OutOfBounds {
            x: 2,
            y: 0,
            width: 2,
            height: 2
        }
    );
}

#[test]
fn get_out_of_bounds_errors() {
    let c = Canvas::new(2, 2).expect("canvas");
    let err = c.get(0, 2).unwrap_err();
    assert_eq!(
        err,
        CanvasError::OutOfBounds {
            x: 0,
            y: 2,
            width: 2,
            height: 2
        }
    );
}

#[test]
fn write_str_clips_at_right_edge() {
    let mut c = Canvas::new_filled(4, 1, '.').expect("canvas");
    c.write_str(2, 0, "abcdef").unwrap();
    assert_eq!(c.to_string(), "..ab");
}

#[test]
fn rejects_area_overflow() {
    let err = Canvas::new_filled(usize::MAX, 2, '.').unwrap_err();
    assert_eq!(
        err,
        CanvasError::AreaOverflow {
            width: usize::MAX,
            height: 2
        }
    );
}

#[test]
fn draw_hline_draws_unicode_horizontal() {
    let mut c = Canvas::new_filled(5, 3, '.').expect("canvas");
    c.draw_hline(1, 3, 1).unwrap();
    assert_eq!(c.to_string(), ".....\n.───.\n.....");
}

#[test]
fn draw_vline_draws_unicode_vertical() {
    let mut c = Canvas::new_filled(5, 3, '.').expect("canvas");
    c.draw_vline(2, 0, 2).unwrap();
    assert_eq!(c.to_string(), "..│..\n..│..\n..│..");
}

#[test]
fn draw_box_draws_unicode_corners_and_edges() {
    let mut c = Canvas::new_filled(6, 5, '.').expect("canvas");
    c.draw_box(1, 1, 4, 3).unwrap();
    assert_eq!(c.to_string(), "......\n.┌──┐.\n.│..│.\n.└──┘.\n......");
}

#[test]
fn draw_box_out_of_bounds_is_not_partial() {
    let mut c = Canvas::new_filled(4, 3, '.').expect("canvas");
    let err = c.draw_box(0, 0, 4, 2).unwrap_err();
    assert_eq!(
        err,
        CanvasError::OutOfBounds {
            x: 4,
            y: 0,
            width: 4,
            height: 3
        }
    );
    assert_eq!(c.to_string(), "....\n....\n....");
}

#[test]
fn intersects_hline_and_vline_as_cross_not_overwrite() {
    let mut c = Canvas::new_filled(5, 5, '.').expect("canvas");
    c.draw_hline(0, 4, 2).unwrap();
    c.draw_vline(2, 0, 4).unwrap();
    assert_eq!(c.to_string(), "..│..\n..│..\n──┼──\n..│..\n..│..");
}

#[test]
fn intersects_as_left_and_right_tees() {
    let mut c = Canvas::new_filled(5, 5, '.').expect("canvas");
    c.draw_vline(2, 0, 4).unwrap();
    c.draw_hline(2, 4, 2).unwrap();
    assert_eq!(c.to_string(), "..│..\n..│..\n..├──\n..│..\n..│..");

    let mut c = Canvas::new_filled(5, 5, '.').expect("canvas");
    c.draw_vline(2, 0, 4).unwrap();
    c.draw_hline(0, 2, 2).unwrap();
    assert_eq!(c.to_string(), "..│..\n..│..\n──┤..\n..│..\n..│..");
}

#[test]
fn intersects_as_top_and_bottom_tees() {
    let mut c = Canvas::new_filled(5, 5, '.').expect("canvas");
    c.draw_hline(0, 4, 2).unwrap();
    c.draw_vline(2, 2, 4).unwrap();
    assert_eq!(c.to_string(), ".....\n.....\n──┬──\n..│..\n..│..");

    let mut c = Canvas::new_filled(5, 5, '.').expect("canvas");
    c.draw_hline(0, 4, 2).unwrap();
    c.draw_vline(2, 0, 2).unwrap();
    assert_eq!(c.to_string(), "..│..\n..│..\n──┴──\n.....\n.....");
}
