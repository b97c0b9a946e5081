//! Walkthrough rendering: each step a titled box, left to right, and arrows for the links
//! between neighbouring steps.

use vstd::prelude::*;
use crate::model::ids::WalkthroughNodeId;
use crate::model::walkthrough::{Walkthrough, WalkthroughEdge, WalkthroughNode};
use crate::sorted_map::Duplicate;
use super::canvas::{
    Canvas, CanvasError, apply_all, hrun, is_empty_edges, lemma_stamped_seq_push, lemma_stamped_seq_start, no_edges,
    single, stamped_seq,
};
use super::text::{canvas_to_string_trimmed, text_len, trimmed_text};
use super::track_paint::{content_box_pattern, paint_track_content_box};
use super::RenderOptions;

verus! {

/// Height of a walkthrough step box.
pub const WALK_BOX_HEIGHT: usize = 3;
/// Blank columns between neighbouring step boxes.
pub const WALK_COL_GAP: usize = 4;
/// Minimum inner width of a step box.
pub const WALK_MIN_BOX_INNER_WIDTH: usize = 3;

/// A walkthrough could not be rendered.
#[derive(Debug, Clone, PartialEq, Eq)]
pub enum WalkthroughRenderError {
    Canvas(CanvasError),
    MissingNode { node_id: WalkthroughNodeId },
}

impl From<CanvasError> for WalkthroughRenderError {
    fn from(value: CanvasError) -> (r: WalkthroughRenderError) {
        WalkthroughRenderError::Canvas(value)
    }
}

impl vstd::std_specs::convert::FromSpecImpl<CanvasError> for WalkthroughRenderError {
    open spec fn obeys_from_spec() -> bool {
        true
    }

    open spec fn from_spec(v: CanvasError) -> WalkthroughRenderError {
        WalkthroughRenderError::Canvas(v)
    }
}

/// Inner width of the box for a title: the title plus one blank on each side, at least the
/// minimum, and one more when the whole box would otherwise be even.
pub open spec fn walk_inner(title: Seq<char>) -> int {
    let i: int = if title.len() + 2 >= 3 { title.len() + 2int } else { 3int };
    if (i + 2) % 2 == 0 {
        i + 1
    } else {
        i
    }
}

/// Whole width of the box for a title.
pub open spec fn walk_total(title: Seq<char>) -> int {
    walk_inner(title) + 2
}

/// Left column of the box of step `i`: the boxes before it, each followed by the gap.
pub open spec fn walk_x0(nodes: Seq<WalkthroughNode>, i: int) -> int
    decreases i,
{
    if i <= 0 {
        0
    } else {
        walk_x0(nodes, i - 1) + walk_total(nodes[i - 1].title_view()) + 4
    }
}

/// Right column of the box of step `i`.
pub open spec fn walk_x1(nodes: Seq<WalkthroughNode>, i: int) -> int {
    walk_x0(nodes, i) + walk_total(nodes[i].title_view()) - 1
}

/// Width of the rendering: up to the right column of the last box.
pub open spec fn walk_width(nodes: Seq<WalkthroughNode>) -> int {
    walk_x1(nodes, nodes.len() - 1) + 1
}

/// `p` is the first position of a step with identifier `id`.
pub open spec fn is_first_pos(nodes: Seq<WalkthroughNode>, id: Seq<char>, p: int) -> bool {
    &&& 0 <= p < nodes.len()
    &&& nodes[p].id_view() == id
    &&& forall|k: int| 0 <= k < p ==> nodes[k].id_view() != id
}

/// The first position of a step with identifier `id`, or -1 when there is none.
pub open spec fn first_pos(nodes: Seq<WalkthroughNode>, id: Seq<char>) -> int {
    if exists|p: int| is_first_pos(nodes, id, p) {
        choose|p: int| is_first_pos(nodes, id, p)
    } else {
        -1
    }
}

/// What a link paints: between neighbouring steps, a line along the middle row from the box
/// it leaves to the box it enters, ending in an arrow head beside the target.
pub open spec fn edge_paint(nodes: Seq<WalkthroughNode>, e: WalkthroughEdge) -> Seq<spec_fn(int, int) -> Option<char>> {
    let f = first_pos(nodes, e.from_view());
    let t = first_pos(nodes, e.to_view());
    if f + 1 == t {
        let s = walk_x1(nodes, f) + 1;
        let h = walk_x0(nodes, t) - 1;
        if h >= s {
            seq![hrun(s, h, 1, '─'), single(h, 1, '▶')]
        } else {
            Seq::empty()
        }
    } else if t + 1 == f {
        let s = walk_x0(nodes, f) - 1;
        let h = walk_x1(nodes, t) + 1;
        if s >= h {
            seq![hrun(h, s, 1, '─'), single(h, 1, '◀')]
        } else {
            Seq::empty()
        }
    } else {
        Seq::empty()
    }
}

/// What the links paint, in order.
pub open spec fn edges_paint(nodes: Seq<WalkthroughNode>, edges: Seq<WalkthroughEdge>) -> Seq<spec_fn(int, int) -> Option<char>>
    decreases edges.len(),
{
    if edges.len() == 0 {
        Seq::empty()
    } else {
        edges_paint(nodes, edges.drop_last()) + edge_paint(nodes, edges.last())
    }
}

/// What the first `k` step boxes paint: each box with its title centred in the middle row.
pub open spec fn boxes_paint(nodes: Seq<WalkthroughNode>, k: int) -> Seq<spec_fn(int, int) -> Option<char>>
    decreases k,
{
    if k <= 0 {
        Seq::empty()
    } else {
        boxes_paint(nodes, k - 1).push(
            content_box_pattern(walk_x0(nodes, k - 1), 0, walk_x1(nodes, k - 1), 2, nodes[k - 1].title_view(), None, false),
        )
    }
}

/// Everything a walkthrough paints, in order: the boxes, then the links.
pub open spec fn walk_paint(nodes: Seq<WalkthroughNode>, edges: Seq<WalkthroughEdge>) -> Seq<spec_fn(int, int) -> Option<char>> {
    boxes_paint(nodes, nodes.len() as int) + edges_paint(nodes, edges)
}

/// The first link, in order, with an end that names no step: that end (the source first).
pub open spec fn missing_endpoint(nodes: Seq<WalkthroughNode>, edges: Seq<WalkthroughEdge>) -> Option<Seq<char>>
    decreases edges.len(),
{
    if edges.len() == 0 {
        None
    } else if first_pos(nodes, edges[0].from_view()) < 0 {
        Some(edges[0].from_view())
    } else if first_pos(nodes, edges[0].to_view()) < 0 {
        Some(edges[0].to_view())
    } else {
        missing_endpoint(nodes, edges.drop_first())
    }
}

proof fn lemma_walk_x0_mono(nodes: Seq<WalkthroughNode>, i: int, j: int)
    requires
        0 <= i <= j <= nodes.len(),
    ensures
        walk_x0(nodes, i) <= walk_x0(nodes, j),
        i < j ==> walk_x1(nodes, i) + 5 <= walk_x0(nodes, j),
    decreases j - i,
{
    if i < j {
        lemma_walk_x0_mono(nodes, i, j - 1);
    }
}

proof fn lemma_first_pos_unique(nodes: Seq<WalkthroughNode>, id: Seq<char>, p: int)
    requires
        is_first_pos(nodes, id, p),
    ensures
        first_pos(nodes, id) == p,
{
    let q = choose|q: int| is_first_pos(nodes, id, q);
    assert(is_first_pos(nodes, id, q));
    if q < p {
        assert(nodes[q].id_view() != id);
    } else if p < q {
        assert(nodes[p].id_view() != id);
    }
}

/// The first step with identifier `id`.
fn find_walk_node(nodes: &Vec<WalkthroughNode>, id: &WalkthroughNodeId) -> (r: Option<usize>)
    ensures
        r matches Some(p) ==> p < nodes@.len() && p as int == first_pos(nodes@, id@),
        r is None ==> first_pos(nodes@, id@) == -1,
{
    let mut i: usize = 0;
    while i < nodes.len()
        invariant
            i <= nodes@.len(),
            forall|k: int| 0 <= k < i ==> nodes@[k].id_view() != id@,
        decreases nodes@.len() - i,
    {
        if nodes[i].node_id().same_as(id) {
            proof {
                lemma_first_pos_unique(nodes@, id@, i as int);
            }
            return Some(i);
        }
        i = i + 1;
    }
    proof {
        assert forall|p: int| !is_first_pos(nodes@, id@, p) by {
            if 0 <= p < nodes@.len() {
                assert(nodes@[p].id_view() != id@);
            }
        }
    }
    None
}

/// Inner and whole width of the box for a title.
fn walk_box_widths(title: &str) -> (r: (usize, usize))
    requires
        title@.len() + 5 <= usize::MAX,
    ensures
        r.0 == walk_inner(title@),
        r.1 == walk_total(title@),
{
    let title_len = text_len(title);
    let mut inner = if title_len + 2 >= WALK_MIN_BOX_INNER_WIDTH { title_len + 2 } else { WALK_MIN_BOX_INNER_WIDTH };
    let mut total = inner + 2;
    if total % 2 == 0 {
        total = total + 1;
        inner = inner + 1;
    }
    (inner, total)
}

/// Renders a walkthrough: the steps as boxes in order, left to right, each with its title
/// centred (cut with `…` when it does not fit); a link between neighbouring steps becomes an
/// arrow along the middle row; other links draw nothing. A link whose end names no step is
/// refused with that identifier.
pub fn render_walkthrough_unicode(walkthrough: &Walkthrough) -> (r: Result<String, WalkthroughRenderError>)
    requires
        walk_x0(walkthrough.nodes_view(), walkthrough.nodes_view().len() as int) <= usize::MAX,
    ensures
        ({
            let nodes = walkthrough.nodes_view();
            let edges = walkthrough.edges_view();
            let width = walk_width(nodes);
            &&& nodes.len() == 0 ==> (r matches Ok(t) && t@.len() == 0)
            &&& nodes.len() > 0 && width * 3 > usize::MAX ==> (r matches Err(WalkthroughRenderError::Canvas(e))
                && e == (CanvasError::AreaOverflow { width: width as usize, height: 3 }))
            &&& nodes.len() > 0 && width * 3 <= usize::MAX ==> match missing_endpoint(nodes, edges) {
                Some(id) => r matches Err(WalkthroughRenderError::MissingNode { node_id }) && node_id@ == id,
                None => r matches Ok(t) && exists|c: Canvas| {
                    &&& c.w() == width
                    &&& c.h() == 3
                    &&& forall|x: int, y: int| c.in_bounds_spec(x, y) ==> (#[trigger] c.cell(x, y), c.edges_at(x, y))
                        == apply_all(walk_paint(nodes, edges), x, y, (' ', no_edges()))
                    &&& t@ == trimmed_text(&c)
                },
            }
        }),
{
    let nodes = walkthrough.nodes();
    let n = nodes.len();
    if n == 0 {
        return Ok(String::new());
    }
    let ghost ns = nodes@;
    let mut boxes: Vec<(usize, usize)> = Vec::new();
    let mut cursor_x: usize = 0;
    let mut i: usize = 0;
    while i < n
        invariant
            ns == nodes@,
            n == ns.len(),
            i <= n,
            walk_x0(ns, n as int) <= usize::MAX,
            boxes@.len() == i,
            cursor_x == walk_x0(ns, i as int),
            forall|k: int| 0 <= k < i ==> (#[trigger] boxes@[k]).0 == walk_x0(ns, k) && boxes@[k].1 == walk_x1(ns, k),
        decreases n - i,
    {
        proof {
            lemma_walk_x0_mono(ns, i as int + 1, n as int);
        }
        let (_inner, total) = walk_box_widths(nodes[i].title());
        let x0 = cursor_x;
        let x1 = x0 + total - 1;
        boxes.push((x0, x1));
        cursor_x = x1 + 1 + WALK_COL_GAP;
        i = i + 1;
    }
    let width = boxes[n - 1].1 + 1;
    let mut canvas = match Canvas::new(width, WALK_BOX_HEIGHT) {
        Ok(c) => c,
        Err(e) => {
            return Err(WalkthroughRenderError::Canvas(e));
        },
    };
    let ghost c0 = canvas;
    proof {
        lemma_stamped_seq_start(&canvas);
        assert(boxes_paint(ns, 0) =~= Seq::empty());
    }
    let mut j: usize = 0;
    while j < n
        invariant
            ns == nodes@,
            n == ns.len(),
            n > 0,
            j <= n,
            boxes@.len() == n,
            forall|k: int| 0 <= k < n ==> (#[trigger] boxes@[k]).0 == walk_x0(ns, k) && boxes@[k].1 == walk_x1(ns, k),
            width == walk_width(ns),
            canvas.w() == width,
            canvas.h() == 3,
            stamped_seq(&c0, &canvas, boxes_paint(ns, j as int)),
        decreases n - j,
    {
        let (x0, x1) = boxes[j];
        let ghost before = canvas;
        proof {
            if j + 1 < n {
                lemma_walk_x0_mono(ns, j as int, n as int - 1);
            }
        }
        let res = paint_track_content_box(&mut canvas, x0, 0, x1, nodes[j].title(), None, RenderOptions::default());
        proof {
            assert(res is Ok);
            lemma_stamped_seq_push(&c0, &before, &canvas, boxes_paint(ns, j as int),
                content_box_pattern(walk_x0(ns, j as int), 0, walk_x1(ns, j as int), 2, ns[j as int].title_view(), None, false));
        }
        j = j + 1;
    }
    let edges = walkthrough.edges();
    let m = edges.len();
    let ghost es = edges@;
    let ghost bp = boxes_paint(ns, n as int);
    proof {
        assert(es.subrange(0, 0) =~= Seq::<WalkthroughEdge>::empty());
        assert(bp + edges_paint(ns, es.subrange(0, 0)) =~= bp);
        assert(es.subrange(0, m as int) =~= es);
    }
    let mut k: usize = 0;
    while k < m
        invariant
            ns == nodes@,
            es == edges@,
            ns == walkthrough.nodes_view(),
            es == walkthrough.edges_view(),
            n == ns.len(),
            m == es.len(),
            n > 0,
            k <= m,
            boxes@.len() == n,
            forall|q: int| 0 <= q < n ==> (#[trigger] boxes@[q]).0 == walk_x0(ns, q) && boxes@[q].1 == walk_x1(ns, q),
            width == walk_width(ns),
            canvas.w() == width,
            canvas.h() == 3,
            bp == boxes_paint(ns, n as int),
            width * 3 <= usize::MAX,
            stamped_seq(&c0, &canvas, bp + edges_paint(ns, es.subrange(0, k as int))),
            missing_endpoint(ns, es) == missing_endpoint(ns, es.subrange(k as int, m as int)),
        decreases m - k,
    {
        let e = &edges[k];
        proof {
            assert(es.subrange(k as int, m as int)[0] == es[k as int]);
            assert(es.subrange(k as int, m as int).drop_first() =~= es.subrange(k as int + 1, m as int));
            assert(es.subrange(0, k as int + 1).drop_last() =~= es.subrange(0, k as int));
            assert(es.subrange(0, k as int + 1).last() == es[k as int]);
        }
        let f = match find_walk_node(nodes, e.from_node_id()) {
            Some(f) => f,
            None => {
                proof {
                    let sub = es.subrange(k as int, m as int);
                    assert(first_pos(ns, sub[0].from_view()) < 0);
                    assert(missing_endpoint(ns, sub) == Some(sub[0].from_view()));
                    assert(missing_endpoint(ns, es) == Some(e.from_view()));
                    assert(walk_width(ns) * 3 <= usize::MAX);
                }
                return Err(WalkthroughRenderError::MissingNode { node_id: e.from_node_id().duplicate() });
            },
        };
        let t = match find_walk_node(nodes, e.to_node_id()) {
            Some(t) => t,
            None => {
                proof {
                    let sub = es.subrange(k as int, m as int);
                    assert(first_pos(ns, sub[0].from_view()) >= 0);
                    assert(first_pos(ns, sub[0].to_view()) < 0);
                    assert(missing_endpoint(ns, sub) == Some(sub[0].to_view()));
                }
                return Err(WalkthroughRenderError::MissingNode { node_id: e.to_node_id().duplicate() });
            },
        };
        let ghost fs = bp + edges_paint(ns, es.subrange(0, k as int));
        let ghost before = canvas;
        proof {
            if (f as int) < n - 1 {
                lemma_walk_x0_mono(ns, f as int, n as int - 1);
            }
            if (t as int) < n - 1 {
                lemma_walk_x0_mono(ns, t as int, n as int - 1);
            }
        }
        if f + 1 == t {
            let start_x = boxes[f].1 + 1;
            let head_x = boxes[t].0.saturating_sub(1);
            if head_x >= start_x {
                proof {
                    lemma_walk_x0_mono(ns, t as int, n as int - 1);
                }
                let r1 = canvas.draw_hline(start_x, head_x, 1);
                let ghost mid = canvas;
                let r2 = canvas.set(head_x, 1, '▶');
                proof {
                    assert(r1 is Ok && r2 is Ok);
                    lemma_stamped_seq_push(&c0, &before, &mid, fs, hrun(start_x as int, head_x as int, 1, '─'));
                    lemma_stamped_seq_push(&c0, &mid, &canvas, fs.push(hrun(start_x as int, head_x as int, 1, '─')), single(head_x as int, 1, '▶'));
                    assert(fs.push(hrun(start_x as int, head_x as int, 1, '─')).push(single(head_x as int, 1, '▶'))
                        =~= bp + edges_paint(ns, es.subrange(0, k as int + 1)));
                }
            } else {
                proof {
                    assert(fs =~= bp + edges_paint(ns, es.subrange(0, k as int + 1)));
                }
            }
        } else if t + 1 == f {
            let start_x = boxes[f].0.saturating_sub(1);
            let head_x = boxes[t].1 + 1;
            if start_x >= head_x {
                proof {
                    lemma_walk_x0_mono(ns, f as int, n as int - 1);
                }
                let r1 = canvas.draw_hline(head_x, start_x, 1);
                let ghost mid = canvas;
                let r2 = canvas.set(head_x, 1, '◀');
                proof {
                    assert(r1 is Ok && r2 is Ok);
                    lemma_stamped_seq_push(&c0, &before, &mid, fs, hrun(head_x as int, start_x as int, 1, '─'));
                    lemma_stamped_seq_push(&c0, &mid, &canvas, fs.push(hrun(head_x as int, start_x as int, 1, '─')), single(head_x as int, 1, '◀'));
                    assert(fs.push(hrun(head_x as int, start_x as int, 1, '─')).push(single(head_x as int, 1, '◀'))
                        =~= bp + edges_paint(ns, es.subrange(0, k as int + 1)));
                }
            } else {
                proof {
                    assert(fs =~= bp + edges_paint(ns, es.subrange(0, k as int + 1)));
                }
            }
        } else {
            proof {
                assert(fs =~= bp + edges_paint(ns, es.subrange(0, k as int + 1)));
            }
        }
        k = k + 1;
    }
    let text = canvas_to_string_trimmed(&canvas);
    proof {
        assert(es.subrange(m as int, m as int) =~= Seq::<WalkthroughEdge>::empty());
        assert forall|x: int, y: int| canvas.in_bounds_spec(x, y) implies (#[trigger] canvas.cell(x, y), canvas.edges_at(x, y))
            == apply_all(walk_paint(ns, es), x, y, (' ', no_edges())) by {
            assert(c0.in_bounds_spec(x, y));
            assert(c0.cell(x, y) == ' ' && is_empty_edges(c0.edges_at(x, y)));
            assert(c0.edges_at(x, y) == no_edges());
        }
    }
    Ok(text)
}

} // verus!
