//! Track paint: content boxes.

use nereid::render::track_paint::{paint_track_content_box, TRACK_BOX_HEIGHT_WITH_NOTES};
use nereid::render::{Canvas, RenderOptions};

#[test]
fn paint_track_content_box_matches_sequence_geometry() {
    let mut canvas = Canvas::new(12, 4).unwrap();
    let h = paint_track_content_box(
        &mut canvas,
        1,
        0,
        10,
        "Alice",
        Some("note"),
        RenderOptions { show_notes: true, ..Default::default() },
    )
    .unwrap();
    assert_eq!(h, TRACK_BOX_HEIGHT_WITH_NOTES);
    let text = canvas.to_string();
    assert!(text.contains("Alice"), "{text}");
    assert!(text.contains("note"), "{text}");
    assert!(text.contains('┌'), "{text}");
}
