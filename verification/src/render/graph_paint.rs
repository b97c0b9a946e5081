//! Graph paint: node box geometry, node boxes with compartments, and edge caps.

use vstd::prelude::*;
use crate::model::ids::ObjectId;
use crate::sorted_map::{OrdKey, SortedMap};
use super::scene::{CapKind, EdgeStroke, GraphEdge, GraphEdgeView, GraphModel, GraphNode, GraphNodeView, cap_glyph, opt_str_view};
use super::text::{lemma_truncated_len, text_len, truncate_with_ellipsis, truncated};
use super::canvas::{Canvas, CanvasError, apply_write, box_pattern, is_empty_edges, lemma_stamped_twice_extend, lemma_stamped_twice_start, no_writes, overlay, stamped_twice, text_run};
use super::RenderOptions;

verus! {

/// Minimum inner width of a graph node box.
pub const GRAPH_MIN_INNER_WIDTH: usize = 3;
/// Minimum corridor between layer boxes (caps and connector body).
pub const GRAPH_MIN_CORRIDOR: usize = 4;
/// Blank cells beside an edge label, on each side, inside the corridor.
pub const GRAPH_EDGE_LABEL_SIDE_PAD: usize = 1;
/// Rows of a node with notes off and no compartments (the title only).
pub const GRAPH_PLAIN_INNER_ROWS: usize = 1;

/// `v`, saturated at the largest machine size.
pub open spec fn sat(v: int) -> int {
    if v > usize::MAX {
        usize::MAX as int
    } else {
        v
    }
}

/// Rows taken by compartments: a divider and at least one line each.
pub open spec fn compartment_rows(cs: Seq<Seq<Seq<char>>>) -> int
    decreases cs.len(),
{
    if cs.len() == 0 {
        0
    } else {
        let lines = cs.last().len() as int;
        compartment_rows(cs.drop_last()) + 1 + if lines < 1 { 1 } else { lines }
    }
}

/// Content rows inside a node box: the title, the note row when notes are shown and the node
/// has one, and for each compartment a divider plus at least one line.
pub open spec fn inner_rows(n: GraphNodeView, show_notes: bool) -> int {
    sat(1 + (if show_notes && n.note is Some { 1int } else { 0int }) + compartment_rows(n.compartments))
}

proof fn lemma_compartment_rows_nonneg(cs: Seq<Seq<Seq<char>>>)
    ensures
        compartment_rows(cs) >= 0,
    decreases cs.len(),
{
    if cs.len() > 0 {
        lemma_compartment_rows_nonneg(cs.drop_last());
    }
}

/// Content rows inside a graph node box (excluding the top and bottom borders).
pub fn graph_node_inner_rows(node: &GraphNode, options: RenderOptions) -> (rows: usize)
    ensures
        rows == inner_rows(node@, options.show_notes),
{
    let mut rows: usize = 1;
    if options.show_notes && node.note().is_some() {
        rows = rows.saturating_add(1);
    }
    let cs = node.compartments();
    let ghost cv = cs@.map_values(|c: super::scene::GraphCompartment| c@);
    let ghost base: int = 1 + (if options.show_notes && node@.note is Some { 1int } else { 0int });
    let mut i: usize = 0;
    proof {
        assert(cv.take(0) =~= Seq::<Seq<Seq<char>>>::empty());
    }
    while i < cs.len()
        invariant
            cv == cs@.map_values(|c: super::scene::GraphCompartment| c@),
            i <= cs@.len(),
            rows == sat(base + compartment_rows(cv.take(i as int))),
            base >= 1,
        decreases cs@.len() - i,
    {
        let n = cs[i].lines().len();
        let line_count = if n < 1 { 1 } else { n };
        proof {
            lemma_compartment_rows_nonneg(cv.take(i as int));
            assert(cv.take(i + 1).drop_last() =~= cv.take(i as int));
            assert(cv.take(i + 1).last() == cs@[i as int]@);
        }
        rows = rows.saturating_add(1);
        rows = rows.saturating_add(line_count);
        i = i + 1;
    }
    proof {
        assert(cv.take(i as int) =~= cv);
        lemma_compartment_rows_nonneg(cv);
        assert(cv == node@.compartments);
    }
    if rows < GRAPH_PLAIN_INNER_ROWS {
        GRAPH_PLAIN_INNER_ROWS
    } else {
        rows
    }
}

/// Total box height including the top and bottom borders.
pub fn graph_node_box_height(node: &GraphNode, options: RenderOptions) -> (h: usize)
    ensures
        h == sat(inner_rows(node@, options.show_notes) + 2),
{
    graph_node_inner_rows(node, options).saturating_add(2)
}

/// The row edges attach to: the middle of the full box (borders included).
pub fn graph_node_attach_mid_y(box_y0: usize, box_height: usize) -> (y: usize)
    ensures
        y == sat(box_y0 + (if box_height == 0 { 0int } else { (box_height - 1) / 2 })),
{
    box_y0.saturating_add(box_height.saturating_sub(1) / 2)
}

/// The longest of the lines.
pub open spec fn max_line_len(lines: Seq<Seq<char>>) -> int
    decreases lines.len(),
{
    if lines.len() == 0 {
        0
    } else {
        let rest = max_line_len(lines.drop_last());
        if lines.last().len() > rest { lines.last().len() as int } else { rest }
    }
}

/// The longest line of all compartments.
pub open spec fn max_compartment_line_len(cs: Seq<Seq<Seq<char>>>) -> int
    decreases cs.len(),
{
    if cs.len() == 0 {
        0
    } else {
        let rest = max_compartment_line_len(cs.drop_last());
        let m = max_line_len(cs.last());
        if m > rest { m } else { rest }
    }
}

/// Preferred inner width: the longest of the title (at least the minimum width), the note
/// when notes are shown, and the compartment lines, plus one cell of padding on each side.
pub open spec fn preferred_inner_width(n: GraphNodeView, show_notes: bool) -> int {
    let title = if n.label.len() > 3 { n.label.len() as int } else { 3int };
    let with_note = match n.note {
        Some(t) if show_notes && t.len() > title => t.len() as int,
        _ => title,
    };
    let lines = max_compartment_line_len(n.compartments);
    let widest = if lines > with_note { lines } else { with_note };
    sat(widest + 2)
}

/// The longest line, scanning lines one at a time.
fn longest_line(lines: &Vec<String>, start: usize) -> (w: usize)
    ensures
        w == (if max_line_len(lines@.map_values(|l: String| l@)) > start {
            max_line_len(lines@.map_values(|l: String| l@))
        } else {
            start as int
        }),
{
    let ghost lv = lines@.map_values(|l: String| l@);
    let mut w = start;
    let mut i: usize = 0;
    proof {
        assert(lv.take(0) =~= Seq::<Seq<char>>::empty());
    }
    while i < lines.len()
        invariant
            lv == lines@.map_values(|l: String| l@),
            i <= lines@.len(),
            w == (if max_line_len(lv.take(i as int)) > start { max_line_len(lv.take(i as int)) } else { start as int }),
        decreases lines@.len() - i,
    {
        let n = text_len(lines[i].as_str());
        proof {
            assert(lv.take(i + 1).drop_last() =~= lv.take(i as int));
            assert(lv.take(i + 1).last() == lines@[i as int]@);
        }
        if n > w {
            w = n;
        }
        i = i + 1;
    }
    proof {
        assert(lv.take(i as int) =~= lv);
    }
    w
}

/// The preferred inner width of a node box.
pub fn graph_node_preferred_inner_width(node: &GraphNode, options: RenderOptions) -> (w: usize)
    ensures
        w == preferred_inner_width(node@, options.show_notes),
{
    let len = text_len(node.label());
    let mut width = if len > GRAPH_MIN_INNER_WIDTH { len } else { GRAPH_MIN_INNER_WIDTH };
    if options.show_notes {
        match node.note() {
            Some(note) => {
                let n = text_len(note);
                if n > width {
                    width = n;
                }
            },
            None => {},
        }
    }
    let ghost with_note = width as int;
    let cs = node.compartments();
    let ghost cv = cs@.map_values(|c: super::scene::GraphCompartment| c@);
    let mut i: usize = 0;
    proof {
        assert(cv.take(0) =~= Seq::<Seq<Seq<char>>>::empty());
    }
    while i < cs.len()
        invariant
            cv == cs@.map_values(|c: super::scene::GraphCompartment| c@),
            i <= cs@.len(),
            width == (if max_compartment_line_len(cv.take(i as int)) > with_note {
                max_compartment_line_len(cv.take(i as int))
            } else {
                with_note
            }),
        decreases cs@.len() - i,
    {
        proof {
            assert(cv.take(i + 1).drop_last() =~= cv.take(i as int));
            assert(cv.take(i + 1).last() == cs@[i as int]@);
        }
        width = longest_line(cs[i].lines(), width);
        i = i + 1;
    }
    proof {
        assert(cv.take(i as int) =~= cv);
    }
    let w = width.saturating_add(2);
    if w < GRAPH_MIN_INNER_WIDTH {
        GRAPH_MIN_INNER_WIDTH
    } else {
        w
    }
}

/// The one-cell cap glyph for graph edges.
pub fn graph_cap_glyph(kind: CapKind, outward_dx: i32, outward_dy: i32) -> (r: Option<char>)
    ensures
        r == cap_glyph(kind, outward_dx as int, outward_dy as int),
{
    kind.glyph(outward_dx, outward_dy)
}

/// Some node has compartments.
pub open spec fn has_compartments(m: &GraphModel) -> bool {
    exists|k: Seq<char>| #[trigger] m.nodes@.contains_key(k) && m.nodes@[k]@.compartments.len() > 0
}

/// An edge the flowchart painter cannot show: dashed, or with a cap other than the flowchart
/// ones (no cap or an arrow at the start; no cap, arrow, circle or cross at the end).
pub open spec fn needs_scene_edge(e: GraphEdgeView) -> bool {
    ||| e.stroke == EdgeStroke::Dashed
    ||| !(e.start_cap == CapKind::NoCap || e.start_cap == CapKind::Arrow)
    ||| !(e.end_cap == CapKind::NoCap || e.end_cap == CapKind::Arrow || e.end_cap == CapKind::Circle
        || e.end_cap == CapKind::Cross)
}

/// True when some node carries compartments.
pub fn graph_model_has_compartments(model: &GraphModel) -> (b: bool)
    ensures
        b == has_compartments(model),
{
    proof {
        use_type_invariant(&model.nodes);
        model.nodes.lemma_shape();
    }
    let n = model.nodes.len();
    let mut i: usize = 0;
    while i < n
        invariant
            n == model.nodes.keys_seq().len(),
            model.nodes.well_formed(),
            i <= n,
            forall|j: int| 0 <= j < i ==> (#[trigger] model.nodes.vals_seq()[j])@.compartments.len() == 0,
        decreases n - i,
    {
        let node = model.nodes.value_at(i);
        if node.compartments().len() > 0 {
            proof {
                model.nodes.lemma_shape();
                let k = model.nodes.keys_seq()[i as int];
                assert(model.nodes@.contains_key(k));
            }
            return true;
        }
        i = i + 1;
    }
    proof {
        model.nodes.lemma_shape();
        if has_compartments(model) {
            let k = choose|k: Seq<char>| #[trigger] model.nodes@.contains_key(k) && model.nodes@[k]@.compartments.len() > 0;
            let j = choose|j: int| 0 <= j < model.nodes.keys_seq().len() && model.nodes.keys_seq()[j] == k;
            assert(model.nodes@.contains_key(model.nodes.keys_seq()[j]));
            assert(model.nodes.vals_seq()[j]@.compartments.len() == 0);
        }
    }
    false
}

/// True when the scene painter must run: compartments, caps beyond the flowchart ones, or a
/// dashed stroke.
pub fn graph_model_needs_scene_paint(model: &GraphModel) -> (b: bool)
    ensures
        b == (has_compartments(model) || exists|k: Seq<char>| #[trigger] model.edges@.contains_key(k)
            && needs_scene_edge(model.edges@[k]@)),
{
    if graph_model_has_compartments(model) {
        return true;
    }
    proof {
        use_type_invariant(&model.edges);
        model.edges.lemma_shape();
    }
    let n = model.edges.len();
    let mut i: usize = 0;
    while i < n
        invariant
            n == model.edges.keys_seq().len(),
            model.edges.well_formed(),
            i <= n,
            forall|j: int| 0 <= j < i ==> !needs_scene_edge((#[trigger] model.edges.vals_seq()[j])@),
        decreases n - i,
    {
        let e = model.edges.value_at(i);
        let stroke = e.stroke();
        let start = e.start_cap();
        let end = e.end_cap();
        let plain_start = match start {
            CapKind::NoCap | CapKind::Arrow => true,
            _ => false,
        };
        let plain_end = match end {
            CapKind::NoCap | CapKind::Arrow | CapKind::Circle | CapKind::Cross => true,
            _ => false,
        };
        let dashed = match stroke {
            EdgeStroke::Dashed => true,
            EdgeStroke::Solid => false,
        };
        if dashed || !plain_start || !plain_end {
            proof {
                model.edges.lemma_shape();
                let k = model.edges.keys_seq()[i as int];
                assert(model.edges@.contains_key(k));
                assert(needs_scene_edge(model.edges@[k]@));
            }
            return true;
        }
        i = i + 1;
    }
    proof {
        model.edges.lemma_shape();
        if exists|k: Seq<char>| #[trigger] model.edges@.contains_key(k) && needs_scene_edge(model.edges@[k]@) {
            let k = choose|k: Seq<char>| #[trigger] model.edges@.contains_key(k) && needs_scene_edge(model.edges@[k]@);
            let j = choose|j: int| 0 <= j < model.edges.keys_seq().len() && model.edges.keys_seq()[j] == k;
            assert(model.edges@.contains_key(model.edges.keys_seq()[j]));
            assert(!needs_scene_edge(model.edges.vals_seq()[j]@));
        }
    }
    false
}

/// Corridor cells one edge needs: its caps, its label with a blank cell on each side, and at
/// least the minimum corridor.
pub open spec fn corridor_need(e: GraphEdgeView) -> int {
    let label_len: int = match e.label {
        Some(l) => l.len() as int,
        None => 0,
    };
    let caps: int = (if e.start_cap != CapKind::NoCap { 1int } else { 0int }) + (if e.end_cap != CapKind::NoCap { 1int } else { 0int });
    let pad: int = if label_len > 0 { 2 } else { 0 };
    let need = sat(caps + label_len + pad);
    if need > 4 { need } else { 4 }
}

/// Corridor cells needed for one edge (not counting the box walls).
pub fn edge_corridor_need(edge: &GraphEdge) -> (n: usize)
    ensures
        n == corridor_need(edge@),
{
    let label_len = match edge.label() {
        Some(l) => text_len(l),
        None => 0,
    };
    let start_cap: usize = if edge.start_cap() != CapKind::NoCap { 1 } else { 0 };
    let end_cap: usize = if edge.end_cap() != CapKind::NoCap { 1 } else { 0 };
    let pad: usize = if label_len > 0 { GRAPH_EDGE_LABEL_SIDE_PAD * 2 } else { 0 };
    let need = start_cap.saturating_add(end_cap).saturating_add(label_len).saturating_add(pad);
    if need > GRAPH_MIN_CORRIDOR {
        need
    } else {
        GRAPH_MIN_CORRIDOR
    }
}

/// Whether `(x, y)` lies on any of the boxes `(x0, y0, x1, y1)`, border included.
pub fn cell_on_box_border_or_interior(placed: &[(usize, usize, usize, usize)], x: usize, y: usize) -> (b: bool)
    ensures
        b == exists|i: int| 0 <= i < placed@.len() && #[trigger] placed@[i].0 <= x && x <= placed@[i].2
            && placed@[i].1 <= y && y <= placed@[i].3,
{
    let mut i: usize = 0;
    while i < placed.len()
        invariant
            i <= placed@.len(),
            forall|j: int| 0 <= j < i ==> !(#[trigger] placed@[j].0 <= x && x <= placed@[j].2 && placed@[j].1 <= y
                && y <= placed@[j].3),
        decreases placed@.len() - i,
    {
        let (x0, y0, x1, y1) = placed[i];
        if x >= x0 && x <= x1 && y >= y0 && y <= y1 {
            return true;
        }
        i = i + 1;
    }
    false
}

/// Compartment rows grow with the compartments taken.
proof fn lemma_compartment_rows_prefix(cs: Seq<Seq<Seq<char>>>, i: int)
    requires
        0 <= i <= cs.len(),
    ensures
        compartment_rows(cs.take(i)) <= compartment_rows(cs),
    decreases cs.len() - i,
{
    if i < cs.len() {
        lemma_compartment_rows_prefix(cs, i + 1);
        assert(cs.take(i + 1).drop_last() =~= cs.take(i));
    } else {
        assert(cs.take(i) =~= cs);
    }
}

/// The title, cut to the inner width and centred on the first inner row.
pub open spec fn title_run(label: Seq<char>, x0: int, y0: int, inner: int) -> spec_fn(int, int) -> Option<char> {
    let t = truncated(label, inner);
    text_run(x0 + 1 + (inner - t.len()) / 2, y0 + 1, t, t.len() as int)
}

/// The note when notes are shown and there is one, cut to the inner width and centred on the
/// second inner row.
pub open spec fn note_run(note: Option<Seq<char>>, show_notes: bool, x0: int, y0: int, inner: int) -> spec_fn(int, int) -> Option<char> {
    if show_notes && note is Some {
        let t = truncated(note.unwrap(), inner);
        text_run(x0 + 1 + (inner - t.len()) / 2, y0 + 2, t, t.len() as int)
    } else {
        no_writes()
    }
}

/// A compartment starting at row `r`: the divider across the box, then its first `k` lines,
/// each cut to the inner width, from the first inner column.
pub open spec fn compartment_prefix(c: Seq<Seq<char>>, x0: int, x1: int, inner: int, r: int, k: int) -> spec_fn(int, int) -> Option<char> {
    |i: int, j: int|
        if j == r {
            if x0 <= i <= x1 { Some('─') } else { None }
        } else if r < j && j - r - 1 < k && j - r - 1 < c.len() {
            text_run(x0 + 1, j, truncated(c[j - r - 1], inner), truncated(c[j - r - 1], inner).len() as int)(i, j)
        } else {
            None
        }
}

/// The compartments, the first starting at row `s`, each below the one before.
pub open spec fn compartments_paint(cs: Seq<Seq<Seq<char>>>, x0: int, x1: int, inner: int, s: int) -> spec_fn(int, int) -> Option<char>
    decreases cs.len(),
{
    if cs.len() == 0 {
        no_writes()
    } else {
        overlay(
            compartments_paint(cs.drop_last(), x0, x1, inner, s),
            compartment_prefix(cs.last(), x0, x1, inner, s + compartment_rows(cs.drop_last()), cs.last().len() as int),
        )
    }
}

/// What a node box holds inside its border: title, note, compartments.
pub open spec fn node_box_content(n: GraphNodeView, show_notes: bool, x0: int, y0: int, inner: int) -> spec_fn(int, int) -> Option<char> {
    let base: int = 1 + (if show_notes && n.note is Some { 1int } else { 0int });
    overlay(
        title_run(n.label, x0, y0, inner),
        overlay(note_run(n.note, show_notes, x0, y0, inner), compartments_paint(n.compartments, x0, x0 + inner + 1, inner, y0 + base + 1)),
    )
}

/// Compartments write only to their own rows.
proof fn lemma_compartments_rows(cs: Seq<Seq<Seq<char>>>, x0: int, x1: int, inner: int, s: int, i: int, j: int)
    requires
        compartments_paint(cs, x0, x1, inner, s)(i, j) is Some,
    ensures
        s <= j < s + compartment_rows(cs),
    decreases cs.len(),
{
    lemma_compartment_rows_nonneg(cs);
    if cs.len() > 0 {
        lemma_compartment_rows_nonneg(cs.drop_last());
        if compartments_paint(cs.drop_last(), x0, x1, inner, s)(i, j) is Some {
            lemma_compartments_rows(cs.drop_last(), x0, x1, inner, s, i, j);
        }
    }
}

/// Paints a node box at `(box_x0, box_y0)` with `inner_width` (at least the minimum) inner
/// columns: the border, the title centred on the first inner row, the note (when shown), and
/// each compartment as a full-width divider followed by its lines (an empty compartment keeps
/// one blank row). Returns the bottom-right corner of the box.
///
/// A box that does not fit is refused with nothing painted.
pub fn paint_graph_node_box(
    canvas: &mut Canvas,
    node: &GraphNode,
    box_x0: usize,
    box_y0: usize,
    inner_width: usize,
    options: RenderOptions,
) -> (r: Result<(usize, usize), CanvasError>)
    ensures
        ({
            let inner: int = if inner_width < 3 { 3 } else { inner_width as int };
            let x1 = sat(sat(box_x0 + inner) + 1);
            let y1 = sat(box_y0 + sat(inner_rows(node@, options.show_notes) + 2) - 1);
            &&& r is Ok <==> x1 < old(canvas).w() && y1 < old(canvas).h()
            &&& r is Err ==> *final(canvas) == *old(canvas)
            &&& r matches Ok((a, b)) ==> a == x1 && b == y1 && final(canvas).w() == old(canvas).w()
                && final(canvas).h() == old(canvas).h()
            &&& r is Ok ==> stamped_twice(old(canvas), final(canvas), box_pattern(box_x0 as int, box_y0 as int, x1, y1),
                node_box_content(node@, options.show_notes, box_x0 as int, box_y0 as int, inner))
        }),
{
    proof {
        lemma_compartment_rows_nonneg(node@.compartments);
    }
    let inner_width = if inner_width < GRAPH_MIN_INNER_WIDTH { GRAPH_MIN_INNER_WIDTH } else { inner_width };
    let box_height = graph_node_box_height(node, options);
    let box_x1 = box_x0.saturating_add(inner_width).saturating_add(1);
    let box_y1 = box_y0.saturating_add(box_height.saturating_sub(1));
    let ghost c0 = *canvas;
    canvas.draw_box(box_x0, box_y0, box_x1, box_y1)?;
    let ghost w = canvas.w();
    let ghost h = canvas.h();
    let ghost cv = node@.compartments;
    let ghost base: int = 1 + (if options.show_notes && node@.note is Some { 1int } else { 0int });
    let ghost inner = inner_width as int;
    let ghost bx = box_pattern(box_x0 as int, box_y0 as int, box_x1 as int, box_y1 as int);
    let ghost s0: int = box_y0 + base + 1;
    let ghost tr = title_run(node@.label, box_x0 as int, box_y0 as int, inner);
    let ghost nr = note_run(node@.note, options.show_notes, box_x0 as int, box_y0 as int, inner);
    proof {
        use_type_invariant(&*canvas);
        canvas.lemma_dims();
        lemma_compartment_rows_nonneg(cv);
        assert(w >= 5);
        assert(h < usize::MAX - 2) by (nonlinear_arith)
            requires
                w >= 5,
                w * h <= usize::MAX,
                h >= 0,
        ;
        assert(box_y1 == box_y0 + base + compartment_rows(cv) + 1);
        lemma_stamped_twice_start(&c0, &*canvas, bx);
    }
    let mut row = box_y0 + 1;
    let title = truncate_with_ellipsis(node.label(), inner_width);
    let title_pad = (inner_width - text_len(title.as_str())) / 2;
    proof {
        lemma_truncated_len(node@.label, inner_width as int);
    }
    let ghost c1 = *canvas;
    let r1 = canvas.write_str(box_x0 + 1 + title_pad, row, title.as_str());
    proof {
        assert(r1 is Ok);
        lemma_stamped_twice_extend(&c0, &c1, &*canvas, bx, no_writes(), text_run((box_x0 + 1 + title_pad) as int, row as int, title@, title@.len() as int), tr);
    }
    row = row + 1;
    if options.show_notes {
        match node.note() {
            Some(note) => {
                let clipped = truncate_with_ellipsis(note, inner_width);
                proof {
                    lemma_truncated_len(note@, inner_width as int);
                }
                let pad = (inner_width - text_len(clipped.as_str())) / 2;
                let ghost c2 = *canvas;
                let r2 = canvas.write_str(box_x0 + 1 + pad, row, clipped.as_str());
                proof {
                    assert(r2 is Ok);
                    lemma_stamped_twice_extend(&c0, &c2, &*canvas, bx, tr, text_run((box_x0 + 1 + pad) as int, row as int, clipped@, clipped@.len() as int), overlay(tr, nr));
                }
                row = row + 1;
            },
            None => {
                proof {
                    lemma_stamped_twice_extend(&c0, &*canvas, &*canvas, bx, tr, no_writes(), overlay(tr, nr));
                }
            },
        }
    } else {
        proof {
            lemma_stamped_twice_extend(&c0, &*canvas, &*canvas, bx, tr, no_writes(), overlay(tr, nr));
        }
    }
    let cs = node.compartments();
    let mut i: usize = 0;
    proof {
        assert(cv.take(0) =~= Seq::<Seq<Seq<char>>>::empty());
        lemma_stamped_twice_extend(&c0, &*canvas, &*canvas, bx, overlay(tr, nr), no_writes(),
            overlay(tr, overlay(nr, compartments_paint(cv.take(0), box_x0 as int, box_x1 as int, inner, s0))));
    }
    while i < cs.len()
        invariant
            cv == cs@.map_values(|c: super::scene::GraphCompartment| c@),
            i <= cs@.len(),
            row == box_y0 + base + 1 + compartment_rows(cv.take(i as int)),
            s0 == box_y0 + base + 1,
            base >= 1,
            box_y1 == box_y0 + base + compartment_rows(cv) + 1,
            box_x0 < box_x1,
            box_x1 == box_x0 + inner + 1,
            inner == inner_width,
            (box_x1 as int) < w,
            (box_y1 as int) < h,
            canvas.w() == w,
            canvas.h() == h,
            c0.w() == w,
            c0.h() == h,
            tr == title_run(node@.label, box_x0 as int, box_y0 as int, inner),
            nr == note_run(node@.note, options.show_notes, box_x0 as int, box_y0 as int, inner),
            forall|a: int, b: int| #[trigger] tr(a, b) is Some ==> b == box_y0 + 1,
            forall|a: int, b: int| #[trigger] nr(a, b) is Some ==> b == box_y0 + 2 && base == 2,
            stamped_twice(&c0, &*canvas, bx, overlay(tr, overlay(nr, compartments_paint(cv.take(i as int), box_x0 as int, box_x1 as int, inner, s0)))),
        decreases cs@.len() - i,
    {
        let ghost ci = cv[i as int];
        let ghost gi = overlay(tr, overlay(nr, compartments_paint(cv.take(i as int), box_x0 as int, box_x1 as int, inner, s0)));
        let ghost ri = row as int;
        proof {
            lemma_compartment_rows_prefix(cv, i + 1);
            assert(cv.take(i + 1).drop_last() =~= cv.take(i as int));
            assert(cv.take(i + 1).last() == cs@[i as int]@);
            assert forall|a: int, b: int| #[trigger] gi(a, b) is Some implies b < ri by {
                if compartments_paint(cv.take(i as int), box_x0 as int, box_x1 as int, inner, s0)(a, b) is Some {
                    lemma_compartments_rows(cv.take(i as int), box_x0 as int, box_x1 as int, inner, s0, a, b);
                }
                if tr(a, b) is Some {
                    lemma_compartment_rows_nonneg(cv.take(i as int));
                }
                if nr(a, b) is Some {
                    lemma_compartment_rows_nonneg(cv.take(i as int));
                }
            }
        }
        let ghost cb = *canvas;
        let r3 = canvas.draw_hline(box_x0, box_x1, row);
        proof {
            assert(r3 is Ok);
            lemma_stamped_twice_extend(&c0, &cb, &*canvas, bx, gi, super::canvas::hrun(box_x0 as int, box_x1 as int, ri, '─'),
                overlay(gi, compartment_prefix(ci, box_x0 as int, box_x1 as int, inner, ri, 0)));
        }
        row = row + 1;
        let lines = cs[i].lines();
        let ghost target = row + (if lines@.len() < 1 { 1int } else { lines@.len() as int });
        proof {
            assert(lines@.len() == cs@[i as int]@.len());
            assert(ci == cs@[i as int]@);
            assert(target <= box_y1);
        }
        if lines.len() == 0 {
            if row < box_y1 {
                row = row + 1;
            }
        } else {
            let mut k: usize = 0;
            while k < lines.len()
                invariant
                    k <= lines@.len(),
                    row == target - lines@.len() + k,
                    row == ri + 1 + k,
                    lines@.map_values(|l: String| l@) == ci,
                    target <= box_y1,
                    (box_y1 as int) < h,
                    canvas.w() == w,
                    canvas.h() == h,
                    c0.w() == w,
                    c0.h() == h,
                    (box_x1 as int) < w,
                    box_x0 < box_x1,
                    box_x1 == box_x0 + inner + 1,
                    inner == inner_width,
                    forall|a: int, b: int| #[trigger] gi(a, b) is Some ==> b < ri,
                    stamped_twice(&c0, &*canvas, bx, overlay(gi, compartment_prefix(ci, box_x0 as int, box_x1 as int, inner, ri, k as int))),
                decreases lines@.len() - k,
            {
                let clipped = truncate_with_ellipsis(lines[k].as_str(), inner_width);
                proof {
                    assert(lines@[k as int]@ == ci[k as int]);
                }
                let ghost ck = *canvas;
                let r4 = canvas.write_str(box_x0 + 1, row, clipped.as_str());
                proof {
                    assert(r4 is Ok);
                    let hk = text_run((box_x0 + 1) as int, row as int, clipped@, clipped@.len() as int);
                    let pk = compartment_prefix(ci, box_x0 as int, box_x1 as int, inner, ri, k as int);
                    let pk1 = compartment_prefix(ci, box_x0 as int, box_x1 as int, inner, ri, k + 1);
                    assert forall|a: int, b: int| c0.in_bounds_spec(a, b) implies overlay(gi, pk1)(a, b) == (match hk(a, b) {
                        Some(ch) => Some(ch),
                        None => overlay(gi, pk)(a, b),
                    }) by {
                        if b == row {
                            assert(gi(a, b) is None);
                        }
                    }
                    lemma_stamped_twice_extend(&c0, &ck, &*canvas, bx, overlay(gi, pk), hk, overlay(gi, pk1));
                }
                row = row + 1;
                k = k + 1;
            }
        }
        proof {
            assert(row == target);
            let next = overlay(tr, overlay(nr, compartments_paint(cv.take(i + 1), box_x0 as int, box_x1 as int, inner, s0)));
            let pfull = compartment_prefix(ci, box_x0 as int, box_x1 as int, inner, ri, ci.len() as int);
            assert(ri == s0 + compartment_rows(cv.take(i as int)));
            assert forall|a: int, b: int| c0.in_bounds_spec(a, b) implies next(a, b) == (match no_writes()(a, b) {
                Some(ch) => Some(ch),
                None => overlay(gi, pfull)(a, b),
            }) by {
            }
            if ci.len() == 0 {
                assert forall|a: int, b: int| c0.in_bounds_spec(a, b) implies overlay(gi, pfull)(a, b) == (match no_writes()(a, b) {
                    Some(ch) => Some(ch),
                    None => overlay(gi, compartment_prefix(ci, box_x0 as int, box_x1 as int, inner, ri, 0))(a, b),
                }) by {
                }
                lemma_stamped_twice_extend(&c0, &*canvas, &*canvas, bx, overlay(gi, compartment_prefix(ci, box_x0 as int, box_x1 as int, inner, ri, 0)), no_writes(), overlay(gi, pfull));
            }
            lemma_stamped_twice_extend(&c0, &*canvas, &*canvas, bx, overlay(gi, pfull), no_writes(), next);
        }
        i = i + 1;
    }
    proof {
        assert(cv.take(i as int) =~= cv);
        assert(box_x1 == box_x0 + inner + 1);
    }
    Ok((box_x1, box_y1))
}

/// Every other cell from position `a` to position `b` on row `fixed` (horizontal) or in column
/// `fixed` (vertical), starting at `a`.
pub open spec fn dash_run(horizontal: bool, fixed: int, a: int, b: int, ch: char) -> spec_fn(int, int) -> Option<char> {
    |i: int, j: int| {
        let (p, q) = if horizontal { (i, j) } else { (j, i) };
        if q == fixed && a <= p <= b && (p - a) % 2 == 0 { Some(ch) } else { None }
    }
}

/// The first position of a dash run from `a` that is not below `n`.
pub open spec fn first_dash_outside(a: int, n: int) -> int {
    if a >= n {
        a
    } else if (n - a) % 2 == 0 {
        n
    } else {
        n + 1
    }
}

/// The cell at position `p` on the line: `(p, fixed)` or `(fixed, p)`.
pub open spec fn line_cell(horizontal: bool, fixed: int, p: int) -> (int, int) {
    if horizontal { (p, fixed) } else { (fixed, p) }
}

/// Writes `ch` at every other position from `a` to `b` (`a <= b`) along a line, stopping at
/// the first cell outside the canvas.
fn draw_dashes(canvas: &mut Canvas, horizontal: bool, fixed: usize, a: usize, b: usize, ch: char) -> (r: Result<(), CanvasError>)
    requires
        a <= b,
    ensures
        ({
            let last = a + 2 * ((b - a) / 2);
            let (lx, ly) = line_cell(horizontal, fixed as int, last);
            let len = if horizontal { old(canvas).w() } else { old(canvas).h() };
            let span = if horizontal { old(canvas).h() } else { old(canvas).w() };
            let stop = if fixed >= span { a as int } else { first_dash_outside(a as int, len) };
            &&& r is Ok <==> old(canvas).in_bounds_spec(lx, ly)
            &&& r is Ok ==> super::canvas::stamped(old(canvas), final(canvas), dash_run(horizontal, fixed as int, a as int, b as int, ch))
            &&& r matches Err(e) ==> ({
                let (sx, sy) = line_cell(horizontal, fixed as int, stop);
                &&& e == old(canvas).oob(sx as usize, sy as usize)
                &&& super::canvas::stamped(old(canvas), final(canvas), dash_run(horizontal, fixed as int, a as int, stop - 1, ch))
            })
        }),
{
    let n = (b - a) / 2;
    let ghost c0 = *canvas;
    proof {
        super::canvas::lemma_stamped_nothing(&*canvas);
        super::canvas::lemma_stamped_agree(&c0, &*canvas, no_writes(), dash_run(horizontal, fixed as int, a as int, a - 1, ch));
    }
    let mut k: usize = 0;
    while k <= n
        invariant
            n == (b - a) / 2,
            a <= b,
            c0 == *old(canvas),
            k <= n + 1,
            canvas.w() == c0.w(),
            canvas.h() == c0.h(),
            k > 0 ==> c0.in_bounds_spec(line_cell(horizontal, fixed as int, a + 2 * (k - 1)).0, line_cell(horizontal, fixed as int, a + 2 * (k - 1)).1),
            super::canvas::stamped(&c0, &*canvas, dash_run(horizontal, fixed as int, a as int, a + 2 * k - 1, ch)),
        decreases n + 1 - k,
    {
        let p = a + 2 * k;
        let (x, y) = if horizontal { (p, fixed) } else { (fixed, p) };
        let ghost cb = *canvas;
        let r = canvas.set(x, y, ch);
        match r {
            Ok(()) => {},
            Err(e) => {
                proof {
                    let len = if horizontal { c0.w() } else { c0.h() };
                    let span = if horizontal { c0.h() } else { c0.w() };
                    if k > 0 {
                        assert(fixed < span);
                        assert(p >= len);
                        assert(a + 2 * (k - 1) < len);
                        assert(first_dash_outside(a as int, len) == p);
                    } else if fixed < span {
                        assert(p >= len);
                    }
                    assert(k <= n);
                    assert(p <= a + 2 * n) by (nonlinear_arith)
                        requires
                            p == a + 2 * k,
                            k <= n,
                    ;
                    let lc = line_cell(horizontal, fixed as int, a + 2 * ((b - a) / 2));
                    assert(!c0.in_bounds_spec(lc.0, lc.1));
                    let stop = if fixed >= span { a as int } else { first_dash_outside(a as int, len) };
                    assert(stop == p);
                }
                return Err(e);
            },
        }
        proof {
            super::canvas::lemma_stamped_step(&c0, &cb, &*canvas, dash_run(horizontal, fixed as int, a as int, a + 2 * k - 1, ch), x as int, y as int, ch);
            super::canvas::lemma_stamped_agree(&c0, &*canvas,
                super::canvas::with_cell(dash_run(horizontal, fixed as int, a as int, a + 2 * k - 1, ch), x as int, y as int, ch),
                dash_run(horizontal, fixed as int, a as int, a + 2 * (k + 1) - 1, ch));
        }
        k = k + 1;
    }
    proof {
        super::canvas::lemma_stamped_agree(&c0, &*canvas, dash_run(horizontal, fixed as int, a as int, a + 2 * k - 1, ch), dash_run(horizontal, fixed as int, a as int, b as int, ch));
    }
    Ok(())
}

/// Draws a horizontal connector run from `x0` to `x1` on row `y`: a solid line, or for a dashed
/// stroke every other cell from the left end (stopping at the first cell outside the canvas).
pub fn draw_hline_stroke(canvas: &mut Canvas, x0: usize, x1: usize, y: usize, stroke: EdgeStroke) -> (r: Result<(), CanvasError>)
    ensures
        ({
            let (min_x, max_x) = super::canvas::ordered_pair(x0, x1);
            &&& stroke == EdgeStroke::Solid ==> {
                &&& r is Ok <==> (y as int) < old(canvas).h() && (max_x as int) < old(canvas).w()
                &&& r is Err ==> *final(canvas) == *old(canvas)
                &&& (y as int) >= old(canvas).h() ==> r == Err::<(), CanvasError>(old(canvas).oob(min_x, y))
                &&& (y as int) < old(canvas).h() && (max_x as int) >= old(canvas).w() ==> r == Err::<(), CanvasError>(old(canvas).oob(max_x, y))
                &&& r is Ok ==> super::canvas::stamped(old(canvas), final(canvas), super::canvas::hrun(min_x as int, max_x as int, y as int, '─'))
            }
            &&& stroke == EdgeStroke::Dashed ==> {
                let last = min_x + 2 * ((max_x - min_x) / 2);
                let stop = if (y as int) >= old(canvas).h() { min_x as int } else { first_dash_outside(min_x as int, old(canvas).w()) };
                &&& r is Ok <==> (y as int) < old(canvas).h() && last < old(canvas).w()
                &&& r is Ok ==> super::canvas::stamped(old(canvas), final(canvas), dash_run(true, y as int, min_x as int, max_x as int, '─'))
                &&& r matches Err(e) ==> e == old(canvas).oob(stop as usize, y)
                    && super::canvas::stamped(old(canvas), final(canvas), dash_run(true, y as int, min_x as int, stop - 1, '─'))
            }
        }),
{
    match stroke {
        EdgeStroke::Solid => canvas.draw_hline(x0, x1, y),
        EdgeStroke::Dashed => {
            let (min_x, max_x) = if x0 <= x1 { (x0, x1) } else { (x1, x0) };
            draw_dashes(canvas, true, y, min_x, max_x, '─')
        },
    }
}

/// Draws a vertical connector run from `y0` to `y1` in column `x`: a solid line, or for a
/// dashed stroke every other cell from the top end (stopping at the first cell outside the
/// canvas).
pub fn draw_vline_stroke(canvas: &mut Canvas, x: usize, y0: usize, y1: usize, stroke: EdgeStroke) -> (r: Result<(), CanvasError>)
    ensures
        ({
            let (min_y, max_y) = super::canvas::ordered_pair(y0, y1);
            &&& stroke == EdgeStroke::Solid ==> {
                &&& r is Ok <==> (x as int) < old(canvas).w() && (max_y as int) < old(canvas).h()
                &&& r is Err ==> *final(canvas) == *old(canvas)
                &&& (x as int) >= old(canvas).w() ==> r == Err::<(), CanvasError>(old(canvas).oob(x, min_y))
                &&& (x as int) < old(canvas).w() && (max_y as int) >= old(canvas).h() ==> r == Err::<(), CanvasError>(old(canvas).oob(x, max_y))
                &&& r is Ok ==> super::canvas::stamped(old(canvas), final(canvas), super::canvas::vrun(x as int, min_y as int, max_y as int, '│'))
            }
            &&& stroke == EdgeStroke::Dashed ==> {
                let last = min_y + 2 * ((max_y - min_y) / 2);
                let stop = if (x as int) >= old(canvas).w() { min_y as int } else { first_dash_outside(min_y as int, old(canvas).h()) };
                &&& r is Ok <==> (x as int) < old(canvas).w() && last < old(canvas).h()
                &&& r is Ok ==> super::canvas::stamped(old(canvas), final(canvas), dash_run(false, x as int, min_y as int, max_y as int, '│'))
                &&& r matches Err(e) ==> e == old(canvas).oob(x, stop as usize)
                    && super::canvas::stamped(old(canvas), final(canvas), dash_run(false, x as int, min_y as int, stop - 1, '│'))
            }
        }),
{
    match stroke {
        EdgeStroke::Solid => canvas.draw_vline(x, y0, y1),
        EdgeStroke::Dashed => {
            let (min_y, max_y) = if y0 <= y1 { (y0, y1) } else { (y1, y0) };
            draw_dashes(canvas, false, x, min_y, max_y, '│')
        },
    }
}

/// The left edge of layer `i`: the layers before it, each its inner width plus two walls and
/// then its gap (when it has one), added with saturation.
pub open spec fn layer_x(inner: Seq<usize>, gaps: Seq<usize>, i: int) -> int
    decreases i,
{
    if i <= 0 {
        0
    } else {
        let x = sat(layer_x(inner, gaps, i - 1) + sat(inner[i - 1] + 2));
        if i - 1 < gaps.len() {
            sat(x + gaps[i - 1])
        } else {
            x
        }
    }
}

proof fn lemma_layer_x_range(inner: Seq<usize>, gaps: Seq<usize>, i: int)
    ensures
        0 <= layer_x(inner, gaps, i) <= usize::MAX,
    decreases i,
{
    if i > 0 {
        lemma_layer_x_range(inner, gaps, i - 1);
    }
}

/// The left edge of each layer box, and the total width (at least one column).
pub fn layer_x0_from_metrics(layer_inner_widths: &[usize], gap_widths: &[usize]) -> (r: (Vec<usize>, usize))
    ensures
        r.0@.len() == layer_inner_widths@.len(),
        forall|i: int| 0 <= i < r.0@.len() ==> r.0@[i] == layer_x(layer_inner_widths@, gap_widths@, i),
        r.1 == (if layer_x(layer_inner_widths@, gap_widths@, layer_inner_widths@.len() as int) < 1 {
            1
        } else {
            layer_x(layer_inner_widths@, gap_widths@, layer_inner_widths@.len() as int)
        }),
{
    let mut layer_x0: Vec<usize> = Vec::new();
    let mut x: usize = 0;
    let mut i: usize = 0;
    while i < layer_inner_widths.len()
        invariant
            i <= layer_inner_widths@.len(),
            layer_x0@.len() == i,
            forall|k: int| 0 <= k < i ==> layer_x0@[k] == layer_x(layer_inner_widths@, gap_widths@, k),
            x == layer_x(layer_inner_widths@, gap_widths@, i as int),
        decreases layer_inner_widths@.len() - i,
    {
        layer_x0.push(x);
        x = x.saturating_add(layer_inner_widths[i].saturating_add(2));
        if i < gap_widths.len() {
            x = x.saturating_add(gap_widths[i]);
        }
        proof {
            lemma_layer_x_range(layer_inner_widths@, gap_widths@, i as int);
        }
        i = i + 1;
    }
    let total = if x < 1 { 1 } else { x };
    (layer_x0, total)
}

/// Node box content stays strictly inside the side walls, but for compartment dividers,
/// which span the whole width.
proof fn lemma_content_columns(n: GraphNodeView, show_notes: bool, x0: int, y0: int, inner: int, x: int, y: int)
    requires
        inner >= 0,
        node_box_content(n, show_notes, x0, y0, inner)(x, y) is Some,
    ensures
        x0 <= x <= x0 + inner + 1,
        (x == x0 || x == x0 + inner + 1) ==> node_box_content(n, show_notes, x0, y0, inner)(x, y) == Some('─'),
{
    let t = truncated(n.label, inner);
    lemma_truncated_len(n.label, inner);
    if n.note is Some {
        lemma_truncated_len(n.note.unwrap(), inner);
    }
    let base: int = 1 + (if show_notes && n.note is Some { 1int } else { 0int });
    let cp = compartments_paint(n.compartments, x0, x0 + inner + 1, inner, y0 + base + 1);
    if title_run(n.label, x0, y0, inner)(x, y) is None && note_run(n.note, show_notes, x0, y0, inner)(x, y) is None {
        lemma_compartment_columns(n.compartments, x0, x0 + inner + 1, inner, y0 + base + 1, x, y);
    }
}

/// Compartments write between the walls, and only dividers on the walls.
proof fn lemma_compartment_columns(cs: Seq<Seq<Seq<char>>>, x0: int, x1: int, inner: int, s: int, x: int, y: int)
    requires
        inner >= 0,
        x1 == x0 + inner + 1,
        compartments_paint(cs, x0, x1, inner, s)(x, y) is Some,
    ensures
        x0 <= x <= x1,
        (x == x0 || x == x1) ==> compartments_paint(cs, x0, x1, inner, s)(x, y) == Some('─'),
    decreases cs.len(),
{
    if cs.len() > 0 {
        let r = s + compartment_rows(cs.drop_last());
        let c = cs.last();
        if compartments_paint(cs.drop_last(), x0, x1, inner, s)(x, y) is Some {
            lemma_compartment_columns(cs.drop_last(), x0, x1, inner, s, x, y);
        } else if y != r {
            lemma_truncated_len(c[y - r - 1], inner);
        }
    }
}

/// The divider of compartment `i` spans its row between the walls.
proof fn lemma_divider_cell(cs: Seq<Seq<Seq<char>>>, x0: int, x1: int, inner: int, s: int, i: int, x: int)
    requires
        0 <= i < cs.len(),
        x0 <= x <= x1,
    ensures
        compartments_paint(cs, x0, x1, inner, s)(x, s + compartment_rows(cs.take(i))) == Some('─'),
    decreases cs.len(),
{
    let r = s + compartment_rows(cs.take(i));
    lemma_compartment_rows_nonneg(cs);
    if i == cs.len() - 1 {
        assert(cs.take(i) =~= cs.drop_last());
        if compartments_paint(cs.drop_last(), x0, x1, inner, s)(x, r) is Some {
            lemma_compartments_rows(cs.drop_last(), x0, x1, inner, s, x, r);
        }
    } else {
        assert(cs.drop_last().take(i) =~= cs.take(i));
        lemma_divider_cell(cs.drop_last(), x0, x1, inner, s, i, x);
        lemma_compartment_rows_prefix(cs.drop_last(), i + 1);
        assert(cs.drop_last().take(i + 1).drop_last() =~= cs.take(i));
        lemma_compartment_rows_nonneg(cs.drop_last().take(i + 1));
    }
}

/// The compartments of a node start below its title (and note) and each is one row further
/// down than the rows before it.
proof fn lemma_divider_row(cs: Seq<Seq<Seq<char>>>, i: int)
    requires
        0 <= i < cs.len(),
    ensures
        0 <= compartment_rows(cs.take(i)),
        compartment_rows(cs.take(i)) + 2 <= compartment_rows(cs),
{
    lemma_compartment_rows_nonneg(cs.take(i));
    lemma_compartment_rows_prefix(cs, i + 1);
    assert(cs.take(i + 1).drop_last() =~= cs.take(i));
}

/// Node box content lies on the inner rows, strictly between the top and bottom borders.
proof fn lemma_content_rows(n: GraphNodeView, show_notes: bool, x0: int, y0: int, inner: int, x: int, y: int)
    requires
        inner >= 0,
        node_box_content(n, show_notes, x0, y0, inner)(x, y) is Some,
    ensures
        y0 < y < y0 + (1 + (if show_notes && n.note is Some { 1int } else { 0int })) + compartment_rows(n.compartments) + 1,
{
    let base: int = 1 + (if show_notes && n.note is Some { 1int } else { 0int });
    lemma_compartment_rows_nonneg(n.compartments);
    if title_run(n.label, x0, y0, inner)(x, y) is None && note_run(n.note, show_notes, x0, y0, inner)(x, y) is None {
        lemma_compartments_rows(n.compartments, x0, x0 + inner + 1, inner, y0 + base + 1, x, y);
    }
}

/// A painted node box on a canvas without lines shows its four corners, and on every row
/// between top and bottom its left wall shows `│` (or `├` where a divider meets it) and its
/// right wall `│` (or `┤`).
pub proof fn lemma_box_walls(
    before: &Canvas,
    after: &Canvas,
    n: GraphNodeView,
    show_notes: bool,
    x0: int,
    y0: int,
    inner: int,
)
    requires
        inner >= 1,
        0 <= x0,
        0 <= y0,
        x0 + inner + 1 < before.w(),
        y0 + (1 + (if show_notes && n.note is Some { 1int } else { 0int })) + compartment_rows(n.compartments) + 1 < before.h(),
        forall|x: int, y: int| before.in_bounds_spec(x, y) ==> is_empty_edges(#[trigger] before.edges_at(x, y)),
        stamped_twice(
            before,
            after,
            box_pattern(x0, y0, x0 + inner + 1, y0 + (1 + (if show_notes && n.note is Some { 1int } else { 0int })) + compartment_rows(n.compartments) + 1),
            node_box_content(n, show_notes, x0, y0, inner),
        ),
    ensures
        ({
            let x1 = x0 + inner + 1;
            let y1 = y0 + (1 + (if show_notes && n.note is Some { 1int } else { 0int })) + compartment_rows(n.compartments) + 1;
            &&& after.shown(x0, y0) == '┌'
            &&& after.shown(x1, y0) == '┐'
            &&& after.shown(x0, y1) == '└'
            &&& after.shown(x1, y1) == '┘'
            &&& forall|y: int| y0 < y < y1 ==> (after.shown(x0, y) == '│' || after.shown(x0, y) == '├')
                && (after.shown(x1, y) == '│' || after.shown(x1, y) == '┤')
        }),
{
    let base: int = 1 + (if show_notes && n.note is Some { 1int } else { 0int });
    let x1 = x0 + inner + 1;
    let y1 = y0 + base + compartment_rows(n.compartments) + 1;
    let bx = box_pattern(x0, y0, x1, y1);
    let ct = node_box_content(n, show_notes, x0, y0, inner);
    lemma_compartment_rows_nonneg(n.compartments);
    assert(y1 >= y0 + 2);
    let ed = |x: int, y: int| apply_write(ct, x, y, apply_write(bx, x, y, (before.cell(x, y), before.edges_at(x, y)))).1;
    assert forall|x: int, y: int| before.in_bounds_spec(x, y) implies after.edges_at(x, y) == #[trigger] ed(x, y) by {
        let _ = after.edges_at(x, y);
    }
    // Content never reaches the border rows, nor outside the walls.
    assert forall|x: int, y: int| (y == y0 || y == y1 || x < x0 || x > x1) implies #[trigger] ct(x, y) is None by {
        if ct(x, y) is Some {
            lemma_content_rows(n, show_notes, x0, y0, inner, x, y);
            lemma_content_columns(n, show_notes, x0, y0, inner, x, y);
        }
    }
    // Corners.
    assert(is_empty_edges(before.edges_at(x0, y0)) && is_empty_edges(before.edges_at(x0 + 1, y0)) && is_empty_edges(before.edges_at(x0, y0 + 1)));
    assert(after.edges_at(x0, y0) == ed(x0, y0));
    assert(after.edges_at(x0 + 1, y0) == ed(x0 + 1, y0));
    assert(after.edges_at(x0, y0 + 1) == ed(x0, y0 + 1));
    if ct(x0, y0 + 1) is Some {
        lemma_content_columns(n, show_notes, x0, y0, inner, x0, y0 + 1);
    }
    assert(is_empty_edges(before.edges_at(x1, y0)) && is_empty_edges(before.edges_at(x1 - 1, y0)) && is_empty_edges(before.edges_at(x1, y0 + 1)));
    assert(after.edges_at(x1, y0) == ed(x1, y0));
    assert(after.edges_at(x1 - 1, y0) == ed(x1 - 1, y0));
    assert(after.edges_at(x1, y0 + 1) == ed(x1, y0 + 1));
    if ct(x1, y0 + 1) is Some {
        lemma_content_columns(n, show_notes, x0, y0, inner, x1, y0 + 1);
    }
    assert(is_empty_edges(before.edges_at(x0, y1)) && is_empty_edges(before.edges_at(x0 + 1, y1)) && is_empty_edges(before.edges_at(x0, y1 - 1)));
    assert(after.edges_at(x0, y1) == ed(x0, y1));
    assert(after.edges_at(x0 + 1, y1) == ed(x0 + 1, y1));
    assert(after.edges_at(x0, y1 - 1) == ed(x0, y1 - 1));
    if ct(x0, y1 - 1) is Some {
        lemma_content_columns(n, show_notes, x0, y0, inner, x0, y1 - 1);
    }
    assert(is_empty_edges(before.edges_at(x1, y1)) && is_empty_edges(before.edges_at(x1 - 1, y1)) && is_empty_edges(before.edges_at(x1, y1 - 1)));
    assert(after.edges_at(x1, y1) == ed(x1, y1));
    assert(after.edges_at(x1 - 1, y1) == ed(x1 - 1, y1));
    assert(after.edges_at(x1, y1 - 1) == ed(x1, y1 - 1));
    if ct(x1, y1 - 1) is Some {
        lemma_content_columns(n, show_notes, x0, y0, inner, x1, y1 - 1);
    }
    assert(after.shown(x0, y0) == '┌');
    assert(after.shown(x1, y0) == '┐');
    assert(after.shown(x0, y1) == '└');
    assert(after.shown(x1, y1) == '┘');
    // Walls.
    assert forall|y: int| y0 < y < y1 implies (after.shown(x0, y) == '│' || after.shown(x0, y) == '├')
        && (after.shown(x1, y) == '│' || after.shown(x1, y) == '┤') by {
        assert(is_empty_edges(before.edges_at(x0, y)) && is_empty_edges(before.edges_at(x0, y - 1)) && is_empty_edges(before.edges_at(x0, y + 1)));
        assert(is_empty_edges(before.edges_at(x1, y)) && is_empty_edges(before.edges_at(x1, y - 1)) && is_empty_edges(before.edges_at(x1, y + 1)));
        assert(after.edges_at(x0, y) == ed(x0, y));
        assert(after.edges_at(x0, y - 1) == ed(x0, y - 1));
        assert(after.edges_at(x0, y + 1) == ed(x0, y + 1));
        assert(after.edges_at(x1, y) == ed(x1, y));
        assert(after.edges_at(x1, y - 1) == ed(x1, y - 1));
        assert(after.edges_at(x1, y + 1) == ed(x1, y + 1));
        if x1 + 1 < before.w() {
            assert(is_empty_edges(before.edges_at(x1 + 1, y)));
            assert(after.edges_at(x1 + 1, y) == ed(x1 + 1, y));
            assert(ct(x1 + 1, y) is None);
        }
        if x0 > 0 {
            assert(is_empty_edges(before.edges_at(x0 - 1, y)));
            assert(after.edges_at(x0 - 1, y) == ed(x0 - 1, y));
            assert(ct(x0 - 1, y) is None);
        }
        if ct(x0, y) is Some {
            lemma_content_columns(n, show_notes, x0, y0, inner, x0, y);
        }
        if ct(x0, y - 1) is Some {
            lemma_content_columns(n, show_notes, x0, y0, inner, x0, y - 1);
        }
        if ct(x0, y + 1) is Some {
            lemma_content_columns(n, show_notes, x0, y0, inner, x0, y + 1);
        }
        if ct(x1, y) is Some {
            lemma_content_columns(n, show_notes, x0, y0, inner, x1, y);
        }
        if ct(x1, y - 1) is Some {
            lemma_content_columns(n, show_notes, x0, y0, inner, x1, y - 1);
        }
        if ct(x1, y + 1) is Some {
            lemma_content_columns(n, show_notes, x0, y0, inner, x1, y + 1);
        }
        let e0 = after.edges_at(x0, y);
        assert(e0.up && e0.down);
        assert(after.edges_at(x0, y - 1).down && after.edges_at(x0, y + 1).up);
        assert(!after.joined_edges(x0, y).left);
        let e1 = after.edges_at(x1, y);
        assert(e1.up && e1.down);
        assert(after.edges_at(x1, y - 1).down && after.edges_at(x1, y + 1).up);
        assert(!after.joined_edges(x1, y).right);
    }
}

/// Dividers meet the walls in junctions: painted on a canvas without lines, each compartment
/// divider of a node box shows `├` at the left wall and `┤` at the right wall.
pub proof fn lemma_dividers_meet_walls(
    before: &Canvas,
    after: &Canvas,
    n: GraphNodeView,
    show_notes: bool,
    x0: int,
    y0: int,
    inner: int,
    i: int,
)
    requires
        inner >= 1,
        0 <= x0,
        0 <= y0,
        0 <= i < n.compartments.len(),
        x0 + inner + 1 < before.w(),
        y0 + (1 + (if show_notes && n.note is Some { 1int } else { 0int })) + compartment_rows(n.compartments) + 1 < before.h(),
        forall|x: int, y: int| before.in_bounds_spec(x, y) ==> is_empty_edges(#[trigger] before.edges_at(x, y)),
        stamped_twice(
            before,
            after,
            box_pattern(x0, y0, x0 + inner + 1, y0 + (1 + (if show_notes && n.note is Some { 1int } else { 0int })) + compartment_rows(n.compartments) + 1),
            node_box_content(n, show_notes, x0, y0, inner),
        ),
    ensures
        ({
            let base: int = 1 + (if show_notes && n.note is Some { 1int } else { 0int });
            let r = y0 + base + 1 + compartment_rows(n.compartments.take(i));
            after.shown(x0, r) == '├' && after.shown(x0 + inner + 1, r) == '┤'
        }),
{
    let base: int = 1 + (if show_notes && n.note is Some { 1int } else { 0int });
    let cs = n.compartments;
    let x1 = x0 + inner + 1;
    let y1 = y0 + base + compartment_rows(cs) + 1;
    let s = y0 + base + 1;
    let r = s + compartment_rows(cs.take(i));
    let bx = box_pattern(x0, y0, x1, y1);
    let ct = node_box_content(n, show_notes, x0, y0, inner);
    let tr = title_run(n.label, x0, y0, inner);
    let nr = note_run(n.note, show_notes, x0, y0, inner);
    lemma_divider_row(cs, i);
    lemma_truncated_len(n.label, inner);
    if n.note is Some {
        lemma_truncated_len(n.note.unwrap(), inner);
    }
    assert(y0 < r - 1 && r + 1 <= y1);
    // The divider row: the title and note rows lie above it.
    assert forall|x: int| x0 <= x <= x1 implies #[trigger] ct(x, r) == Some('─') by {
        lemma_divider_cell(cs, x0, x1, inner, s, i, x);
        assert(tr(x, r) is None);
        assert(nr(x, r) is None);
    }
    // What a cell holds after both layers, from a blank cell.
    let ed = |x: int, y: int| apply_write(ct, x, y, apply_write(bx, x, y, (before.cell(x, y), before.edges_at(x, y)))).1;
    assert forall|x: int, y: int| before.in_bounds_spec(x, y) implies after.edges_at(x, y) == #[trigger] ed(x, y) by {
        let _ = after.edges_at(x, y);
    }
    // Left wall.
    assert(before.in_bounds_spec(x0, r) && before.in_bounds_spec(x0, r - 1) && before.in_bounds_spec(x0, r + 1) && before.in_bounds_spec(x0 + 1, r));
    assert(is_empty_edges(before.edges_at(x0, r)));
    assert(is_empty_edges(before.edges_at(x0, r - 1)));
    assert(is_empty_edges(before.edges_at(x0, r + 1)));
    assert(is_empty_edges(before.edges_at(x0 + 1, r)));
    assert(ct(x0, r) == Some('─'));
    assert(ct(x0 + 1, r) == Some('─'));
    if ct(x0, r - 1) is Some {
        lemma_content_columns(n, show_notes, x0, y0, inner, x0, r - 1);
    }
    if ct(x0, r + 1) is Some {
        lemma_content_columns(n, show_notes, x0, y0, inner, x0, r + 1);
    }
    let el = after.edges_at(x0, r);
    assert(el == ed(x0, r));
    assert(el.up && el.down && el.left && el.right);
    assert(after.edges_at(x0, r - 1) == ed(x0, r - 1));
    assert(after.edges_at(x0, r - 1).down);
    assert(after.edges_at(x0, r + 1) == ed(x0, r + 1));
    assert(after.edges_at(x0, r + 1).up);
    assert(after.edges_at(x0 + 1, r) == ed(x0 + 1, r));
    assert(after.edges_at(x0 + 1, r).left);
    if x0 > 0 {
        assert(before.in_bounds_spec(x0 - 1, r));
        assert(is_empty_edges(before.edges_at(x0 - 1, r)));
        if ct(x0 - 1, r) is Some {
            lemma_content_columns(n, show_notes, x0, y0, inner, x0 - 1, r);
        }
        assert(after.edges_at(x0 - 1, r) == ed(x0 - 1, r));
        assert(!after.edges_at(x0 - 1, r).right);
    }
    // Right wall.
    assert(before.in_bounds_spec(x1, r) && before.in_bounds_spec(x1, r - 1) && before.in_bounds_spec(x1, r + 1) && before.in_bounds_spec(x1 - 1, r));
    assert(is_empty_edges(before.edges_at(x1, r)));
    assert(is_empty_edges(before.edges_at(x1, r - 1)));
    assert(is_empty_edges(before.edges_at(x1, r + 1)));
    assert(is_empty_edges(before.edges_at(x1 - 1, r)));
    assert(ct(x1, r) == Some('─'));
    assert(ct(x1 - 1, r) == Some('─'));
    if ct(x1, r - 1) is Some {
        lemma_content_columns(n, show_notes, x0, y0, inner, x1, r - 1);
    }
    if ct(x1, r + 1) is Some {
        lemma_content_columns(n, show_notes, x0, y0, inner, x1, r + 1);
    }
    assert(after.edges_at(x1, r) == ed(x1, r));
    assert(after.edges_at(x1, r - 1) == ed(x1, r - 1));
    assert(after.edges_at(x1, r + 1) == ed(x1, r + 1));
    assert(after.edges_at(x1 - 1, r) == ed(x1 - 1, r));
    if x1 + 1 < before.w() {
        assert(before.in_bounds_spec(x1 + 1, r));
        assert(is_empty_edges(before.edges_at(x1 + 1, r)));
        if ct(x1 + 1, r) is Some {
            lemma_content_columns(n, show_notes, x0, y0, inner, x1 + 1, r);
        }
        assert(after.edges_at(x1 + 1, r) == ed(x1 + 1, r));
        assert(!after.edges_at(x1 + 1, r).left);
    }
}

} // verus!
