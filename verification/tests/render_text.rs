//! Text measurement, truncation and trimmed canvas output.

use nereid::render::text::{canvas_to_string_trimmed, text_len, truncate_with_ellipsis};
use nereid::render::Canvas;

#[test]
fn truncate_with_ellipsis_handles_small_widths() {
    assert_eq!(truncate_with_ellipsis("hello", 0), "");
    assert_eq!(truncate_with_ellipsis("hello", 1), "…");
    assert_eq!(truncate_with_ellipsis("h", 1), "h");
    assert_eq!(truncate_with_ellipsis("hello", 2), "h…");
}

#[test]
fn truncate_with_ellipsis_counts_chars_not_bytes() {
    assert_eq!(text_len("αβγ"), 3);
    assert_eq!(truncate_with_ellipsis("αβγ", 2), "α…");
}

#[test]
fn canvas_to_string_trimmed_removes_trailing_spaces_and_empty_lines() {
    let mut canvas = Canvas::new(3, 2).expect("canvas");
    canvas.set(0, 0, 'A').expect("set");
    canvas.set(1, 0, ' ').expect("set");
    canvas.set(2, 0, ' ').expect("set");
    assert_eq!(canvas_to_string_trimmed(&canvas), "A");
}
