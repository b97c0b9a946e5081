//! Track paint: the content boxes of sequence participant headers and track spans.

use vstd::prelude::*;
use super::canvas::{Canvas, CanvasError, box_pattern, lemma_stamped_agree, lemma_stamped_compose, overlay, stamped, text_run};
use super::text::{lemma_truncated_len, text_len, truncate_with_ellipsis, truncated};
use super::RenderOptions;

verus! {

/// Minimum inner width of a content box.
pub const TRACK_MIN_BOX_INNER_WIDTH: usize = 3;
/// Content box height without a note row.
pub const TRACK_BOX_HEIGHT_NO_NOTES: usize = 3;
/// Content box height with a note row (when notes are shown).
pub const TRACK_BOX_HEIGHT_WITH_NOTES: usize = 4;

/// Height of a track content box: with notes shown, every box reserves a note row.
pub fn track_content_box_height(options: RenderOptions) -> (h: usize)
    ensures
        h == (if options.show_notes { TRACK_BOX_HEIGHT_WITH_NOTES } else { TRACK_BOX_HEIGHT_NO_NOTES }),
{
    if options.show_notes {
        TRACK_BOX_HEIGHT_WITH_NOTES
    } else {
        TRACK_BOX_HEIGHT_NO_NOTES
    }
}

/// `text` cut to `inner` characters and centred in a row of `inner` cells starting at `x`.
pub open spec fn centred_run(x: int, y: int, text: Seq<char>, inner: int) -> spec_fn(int, int) -> Option<char> {
    let t = truncated(text, inner);
    let pad = (inner - t.len()) / 2;
    text_run(x + pad, y, t, t.len() as int)
}

/// A centred run stays within its row of `inner` cells.
proof fn lemma_centred_within(x: int, y: int, text: Seq<char>, inner: int)
    requires
        inner >= 1,
    ensures
        forall|i: int, j: int| #[trigger] centred_run(x, y, text, inner)(i, j) is Some ==> j == y && x <= i < x + inner,
{
    lemma_truncated_len(text, inner);
}

/// What a content box paints: the box, the title centred on the first inner row and, when
/// notes are shown, the note centred on the second.
pub open spec fn content_box_pattern(
    x0: int,
    y0: int,
    x1: int,
    y1: int,
    title: Seq<char>,
    note: Option<Seq<char>>,
    show_notes: bool,
) -> spec_fn(int, int) -> Option<char> {
    let inner = x1 - x0 - 1;
    let frame = box_pattern(x0, y0, x1, y1);
    if inner <= 0 {
        frame
    } else {
        let with_title = overlay(frame, centred_run(x0 + 1, y0 + 1, title, inner));
        match note {
            Some(n) if show_notes => overlay(with_title, centred_run(x0 + 1, y0 + 2, n, inner)),
            _ => with_title,
        }
    }
}

/// Paints a content box from column `x0` to `x1` with its top at `y0`; returns the box height.
///
/// Nothing is painted when `x1 < x0`; a box that does not fit is refused with nothing painted.
pub fn paint_track_content_box(
    canvas: &mut Canvas,
    x0: usize,
    y0: usize,
    x1: usize,
    title: &str,
    note: Option<&str>,
    options: RenderOptions,
) -> (r: Result<usize, CanvasError>)
    ensures
        ({
            let height: int = if options.show_notes { 4 } else { 3 };
            let y1: int = if y0 + height - 1 <= usize::MAX { y0 + height - 1 } else { usize::MAX as int };
            &&& x1 < x0 ==> r == Ok::<usize, CanvasError>(height as usize) && *final(canvas) == *old(canvas)
            &&& x0 <= x1 ==> (r is Err <==> (x1 as int) >= old(canvas).w() || y1 >= old(canvas).h())
            &&& r is Err ==> *final(canvas) == *old(canvas)
            &&& x0 <= x1 && r is Ok ==> r == Ok::<usize, CanvasError>(height as usize) && stamped(
                old(canvas),
                final(canvas),
                content_box_pattern(
                    x0 as int,
                    y0 as int,
                    x1 as int,
                    y1,
                    title@,
                    match note {
                        Some(n) => Some(n@),
                        None => None,
                    },
                    options.show_notes,
                ),
            )
        }),
{
    let height = track_content_box_height(options);
    let y1 = y0.saturating_add(height - 1);
    if x1 < x0 {
        return Ok(height);
    }
    canvas.draw_box(x0, y0, x1, y1)?;
    let ghost c0 = *old(canvas);
    let ghost frame = box_pattern(x0 as int, y0 as int, x1 as int, y1 as int);
    let inner_width = x1.saturating_sub(x0).saturating_sub(1);
    if inner_width == 0 {
        return Ok(height);
    }
    let ghost c1 = *canvas;
    let ghost inner = inner_width as int;
    proof {
        use_type_invariant(&*canvas);
        canvas.lemma_dims();
        assert(y1 == y0 + height - 1);
        assert(x1 - x0 - 1 == inner);
        lemma_centred_within(x0 + 1, y0 + 1, title@, inner);
        lemma_centred_within(x0 + 1, y0 + 2, match note {
            Some(n) => n@,
            None => Seq::empty(),
        }, inner);
    }
    let title_clipped = truncate_with_ellipsis(title, inner_width);
    let title_len = text_len(title_clipped.as_str());
    let title_pad = (inner_width - title_len) / 2;
    let r1 = canvas.write_str(x0 + 1 + title_pad, y0 + 1, title_clipped.as_str());
    let ghost c2 = *canvas;
    proof {
        assert(r1 is Ok);
        let title_cells = centred_run(x0 + 1, y0 + 1, title@, inner);
        lemma_stamped_compose(&c0, &c1, &c2, frame, title_cells);
    }
    let ghost with_title = overlay(frame, centred_run(x0 + 1, y0 + 1, title@, inner));
    if options.show_notes {
        match note {
            Some(n) => {
                let clipped = truncate_with_ellipsis(n, inner_width);
                let clipped_len = text_len(clipped.as_str());
                let note_pad = (inner_width - clipped_len) / 2;
                let r2 = canvas.write_str(x0 + 1 + note_pad, y0 + 2, clipped.as_str());
                proof {
                    assert(r2 is Ok);
                    lemma_stamped_compose(&c0, &c2, canvas, with_title, centred_run(x0 + 1, y0 + 2, n@, inner));
                    lemma_stamped_agree(&c0, canvas, overlay(with_title, centred_run(x0 + 1, y0 + 2, n@, inner)),
                        content_box_pattern(x0 as int, y0 as int, x1 as int, y1 as int, title@, Some(n@), options.show_notes));
                }
                return Ok(height);
            },
            None => {},
        }
    }
    proof {
        lemma_stamped_agree(&c0, canvas, with_title, content_box_pattern(x0 as int, y0 as int, x1 as int, y1 as int, title@,
            match note {
                Some(n) => Some(n@),
                None => None,
            }, options.show_notes));
    }
    Ok(height)
}

} // verus!
