//! Text rendering of diagrams: the character canvas, the scene models that diagrams lower
//! into, and the painters for graph and track scenes.

pub mod canvas;
pub mod text;
pub mod scene;
pub mod lower;
pub mod graph_paint;

pub mod track_paint;
pub mod edge_caps;
pub mod highlight;
pub mod walkthrough;

use vstd::prelude::*;

pub use self::highlight::{clamp_highlight_index_to_text, AnnotatedRender, HighlightIndex, LineSpan};
pub use self::canvas::{
    Canvas, CanvasError, UNICODE_BOX_BOTTOM_LEFT, UNICODE_BOX_BOTTOM_RIGHT, UNICODE_BOX_CROSS,
    UNICODE_BOX_HORIZONTAL, UNICODE_BOX_TEE_DOWN, UNICODE_BOX_TEE_LEFT, UNICODE_BOX_TEE_RIGHT,
    UNICODE_BOX_TEE_UP, UNICODE_BOX_TOP_LEFT, UNICODE_BOX_TOP_RIGHT, UNICODE_BOX_VERTICAL,
};

verus! {

/// Options shared by the renderers.
#[derive(Debug, Clone, Copy, PartialEq, Eq, Structural)]
pub struct RenderOptions {
    /// Paint object notes.
    pub show_notes: bool,
    /// Prefix labels with their object ids.
    pub prefix_object_labels: bool,
    /// Extra columns between flowchart layers.
    pub flowchart_extra_col_gap: usize,
}

impl Default for RenderOptions {
    fn default() -> (o: RenderOptions)
        ensures
            o == (RenderOptions { show_notes: false, prefix_object_labels: false, flowchart_extra_col_gap: 0 }),
    {
        RenderOptions { show_notes: false, prefix_object_labels: false, flowchart_extra_col_gap: 0 }
    }
}

} // verus!
