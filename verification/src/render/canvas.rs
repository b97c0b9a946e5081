//! A fixed-size, bounds-checked character grid.
//!
//! Collisions are deterministic: a character that is not a box-drawing character overwrites the
//! cell (last writer wins); box-drawing characters merge their line directions, so crossing
//! lines render as junctions (`┼`, `├`, `┤`, `┬`, `┴`) instead of overwriting each other.

use vstd::prelude::*;
use crate::chars::push_char;

verus! {

pub const UNICODE_BOX_HORIZONTAL: char = '─';
pub const UNICODE_BOX_VERTICAL: char = '│';
pub const UNICODE_BOX_TOP_LEFT: char = '┌';
pub const UNICODE_BOX_TOP_RIGHT: char = '┐';
pub const UNICODE_BOX_BOTTOM_LEFT: char = '└';
pub const UNICODE_BOX_BOTTOM_RIGHT: char = '┘';
pub const UNICODE_BOX_TEE_RIGHT: char = '├';
pub const UNICODE_BOX_TEE_LEFT: char = '┤';
pub const UNICODE_BOX_TEE_DOWN: char = '┬';
pub const UNICODE_BOX_TEE_UP: char = '┴';
pub const UNICODE_BOX_CROSS: char = '┼';

/// The line directions leaving a cell.
#[derive(Debug, Clone, Copy, PartialEq, Eq, Structural)]
pub struct BoxEdges {
    pub left: bool,
    pub right: bool,
    pub up: bool,
    pub down: bool,
}

pub open spec fn edges(left: bool, right: bool, up: bool, down: bool) -> BoxEdges {
    BoxEdges { left, right, up, down }
}

pub open spec fn no_edges() -> BoxEdges {
    edges(false, false, false, false)
}

pub open spec fn is_empty_edges(e: BoxEdges) -> bool {
    !e.left && !e.right && !e.up && !e.down
}

/// The directions of either.
pub open spec fn merge(a: BoxEdges, b: BoxEdges) -> BoxEdges {
    edges(a.left || b.left, a.right || b.right, a.up || b.up, a.down || b.down)
}

/// The directions a box-drawing character stands for; `None` for other characters.
pub open spec fn box_edges_of(ch: char) -> Option<BoxEdges> {
    if ch == '─' {
        Some(edges(true, true, false, false))
    } else if ch == '│' {
        Some(edges(false, false, true, true))
    } else if ch == '┌' {
        Some(edges(false, true, false, true))
    } else if ch == '┐' {
        Some(edges(true, false, false, true))
    } else if ch == '└' {
        Some(edges(false, true, true, false))
    } else if ch == '┘' {
        Some(edges(true, false, true, false))
    } else if ch == '├' {
        Some(edges(false, true, true, true))
    } else if ch == '┤' {
        Some(edges(true, false, true, true))
    } else if ch == '┬' {
        Some(edges(true, true, false, true))
    } else if ch == '┴' {
        Some(edges(true, true, true, false))
    } else if ch == '┼' {
        Some(edges(true, true, true, true))
    } else {
        None
    }
}

/// The box-drawing character for a set of directions (a lone end of a line draws as the line).
pub open spec fn box_char(e: BoxEdges) -> char {
    let horizontal = e.left || e.right;
    let vertical = e.up || e.down;
    if !horizontal && !vertical {
        ' '
    } else if !vertical {
        '─'
    } else if !horizontal {
        '│'
    } else if e.left && e.right && e.up && e.down {
        '┼'
    } else if e.left && e.right {
        if e.down {
            '┬'
        } else {
            '┴'
        }
    } else if e.up && e.down {
        if e.right {
            '├'
        } else {
            '┤'
        }
    } else if e.right {
        if e.down {
            '┌'
        } else {
            '└'
        }
    } else if e.down {
        '┐'
    } else {
        '┘'
    }
}

/// What writing `ch` does to a cell holding `cell` with directions `e`.
pub open spec fn stamp(cell: char, e: BoxEdges, ch: char) -> (char, BoxEdges) {
    match box_edges_of(ch) {
        Some(b) => (cell, merge(e, b)),
        None => (ch, no_edges()),
    }
}

pub(crate) fn box_edges_from_char(ch: char) -> (r: Option<BoxEdges>)
    ensures
        r == box_edges_of(ch),
{
    let h = BoxEdges { left: true, right: true, up: false, down: false };
    if ch == UNICODE_BOX_HORIZONTAL {
        Some(h)
    } else if ch == UNICODE_BOX_VERTICAL {
        Some(BoxEdges { left: false, right: false, up: true, down: true })
    } else if ch == UNICODE_BOX_TOP_LEFT {
        Some(BoxEdges { left: false, right: true, up: false, down: true })
    } else if ch == UNICODE_BOX_TOP_RIGHT {
        Some(BoxEdges { left: true, right: false, up: false, down: true })
    } else if ch == UNICODE_BOX_BOTTOM_LEFT {
        Some(BoxEdges { left: false, right: true, up: true, down: false })
    } else if ch == UNICODE_BOX_BOTTOM_RIGHT {
        Some(BoxEdges { left: true, right: false, up: true, down: false })
    } else if ch == UNICODE_BOX_TEE_RIGHT {
        Some(BoxEdges { left: false, right: true, up: true, down: true })
    } else if ch == UNICODE_BOX_TEE_LEFT {
        Some(BoxEdges { left: true, right: false, up: true, down: true })
    } else if ch == UNICODE_BOX_TEE_DOWN {
        Some(BoxEdges { left: true, right: true, up: false, down: true })
    } else if ch == UNICODE_BOX_TEE_UP {
        Some(BoxEdges { left: true, right: true, up: true, down: false })
    } else if ch == UNICODE_BOX_CROSS {
        Some(BoxEdges { left: true, right: true, up: true, down: true })
    } else {
        None
    }
}

pub(crate) fn box_char_from_edges(e: BoxEdges) -> (c: char)
    ensures
        c == box_char(e),
{
    let horizontal = e.left || e.right;
    let vertical = e.up || e.down;
    if !horizontal && !vertical {
        ' '
    } else if !vertical {
        UNICODE_BOX_HORIZONTAL
    } else if !horizontal {
        UNICODE_BOX_VERTICAL
    } else if e.left && e.right && e.up && e.down {
        UNICODE_BOX_CROSS
    } else if e.left && e.right {
        if e.down {
            UNICODE_BOX_TEE_DOWN
        } else {
            UNICODE_BOX_TEE_UP
        }
    } else if e.up && e.down {
        if e.right {
            UNICODE_BOX_TEE_RIGHT
        } else {
            UNICODE_BOX_TEE_LEFT
        }
    } else if e.right {
        if e.down {
            UNICODE_BOX_TOP_LEFT
        } else {
            UNICODE_BOX_BOTTOM_LEFT
        }
    } else if e.down {
        UNICODE_BOX_TOP_RIGHT
    } else {
        UNICODE_BOX_BOTTOM_RIGHT
    }
}

fn merge_edges(a: BoxEdges, b: BoxEdges) -> (r: BoxEdges)
    ensures
        r == merge(a, b),
{
    BoxEdges { left: a.left || b.left, right: a.right || b.right, up: a.up || b.up, down: a.down || b.down }
}

/// Why a canvas operation was refused.
#[derive(Debug, Clone, PartialEq, Eq, Structural)]
pub enum CanvasError {
    AreaOverflow { width: usize, height: usize },
    OutOfBounds { x: usize, y: usize, width: usize, height: usize },
}

/// A `width` × `height` grid of characters, each with the line directions drawn into it.
#[derive(Debug, PartialEq, Eq)]
pub struct Canvas {
    width: usize,
    height: usize,
    cells: Vec<char>,
    box_edges: Vec<BoxEdges>,
}

/// Position of cell `(x, y)` in row-major storage.
pub open spec fn cell_index(w: int, x: int, y: int) -> int {
    y * w + x
}

proof fn lemma_cell_index(w: int, h: int, x: int, y: int)
    requires
        0 <= x < w,
        0 <= y < h,
    ensures
        0 <= cell_index(w, x, y) < w * h,
{
    assert(0 <= y * w + x < w * h) by (nonlinear_arith)
        requires
            0 <= x < w,
            0 <= y < h,
    ;
}

proof fn lemma_cell_index_injective(w: int, x1: int, y1: int, x2: int, y2: int)
    requires
        0 <= x1 < w,
        0 <= x2 < w,
        0 <= y1,
        0 <= y2,
        cell_index(w, x1, y1) == cell_index(w, x2, y2),
    ensures
        x1 == x2 && y1 == y2,
{
    assert(x1 == x2 && y1 == y2) by (nonlinear_arith)
        requires
            0 <= x1 < w,
            0 <= x2 < w,
            0 <= y1,
            0 <= y2,
            y1 * w + x1 == y2 * w + x2,
    ;
}

impl Canvas {
    #[verifier::type_invariant]
    pub closed spec fn well_formed(&self) -> bool {
        &&& self.width * self.height <= usize::MAX
        &&& self.cells@.len() == self.width * self.height
        &&& self.box_edges@.len() == self.width * self.height
    }

    pub closed spec fn w(&self) -> int {
        self.width as int
    }

    pub closed spec fn h(&self) -> int {
        self.height as int
    }

    /// The character stored at `(x, y)` (shown unless line directions were drawn there).
    pub closed spec fn cell(&self, x: int, y: int) -> char {
        self.cells@[cell_index(self.width as int, x, y)]
    }

    /// The line directions drawn at `(x, y)`.
    pub closed spec fn edges_at(&self, x: int, y: int) -> BoxEdges {
        self.box_edges@[cell_index(self.width as int, x, y)]
    }

    /// The dimensions are machine sizes.
    pub proof fn lemma_dims(&self)
        requires
            self.well_formed(),
        ensures
            0 <= self.w() <= usize::MAX,
            0 <= self.h() <= usize::MAX,
            self.w() * self.h() <= usize::MAX,
    {
    }

    pub open spec fn in_bounds_spec(&self, x: int, y: int) -> bool {
        0 <= x < self.w() && 0 <= y < self.h()
    }

    /// The drawn directions at `(x, y)` whose neighbour cell has a line coming back.
    pub open spec fn joined_edges(&self, x: int, y: int) -> BoxEdges {
        let e = self.edges_at(x, y);
        edges(
            e.left && x > 0 && self.edges_at(x - 1, y).right,
            e.right && x + 1 < self.w() && self.edges_at(x + 1, y).left,
            e.up && y > 0 && self.edges_at(x, y - 1).down,
            e.down && y + 1 < self.h() && self.edges_at(x, y + 1).up,
        )
    }

    /// The character shown at `(x, y)`: the stored character where no lines were drawn;
    /// otherwise the junction of the lines that connect to neighbours (all drawn directions
    /// when none connects).
    pub open spec fn shown(&self, x: int, y: int) -> char {
        let e = self.edges_at(x, y);
        if is_empty_edges(e) {
            self.cell(x, y)
        } else if is_empty_edges(self.joined_edges(x, y)) {
            box_char(e)
        } else {
            box_char(self.joined_edges(x, y))
        }
    }

    /// The out-of-bounds error for `(x, y)`.
    pub open spec fn oob(&self, x: usize, y: usize) -> CanvasError {
        CanvasError::OutOfBounds { x, y, width: self.w() as usize, height: self.h() as usize }
    }

    /// Every cell holds `fill` and no lines.
    pub open spec fn filled_with(&self, fill: char) -> bool {
        forall|x: int, y: int| self.in_bounds_spec(x, y) ==> #[trigger] self.cell(x, y) == fill && is_empty_edges(
            self.edges_at(x, y),
        )
    }

    /// A canvas filled with spaces.
    pub fn new(width: usize, height: usize) -> (r: Result<Canvas, CanvasError>)
        ensures
            r is Err <==> width * height > usize::MAX,
            r matches Err(e) ==> e == (CanvasError::AreaOverflow { width, height }),
            r matches Ok(c) ==> c.w() == width && c.h() == height && c.filled_with(' '),
    {
        Canvas::new_filled(width, height, ' ')
    }

    /// A canvas filled with `fill`.
    pub fn new_filled(width: usize, height: usize, fill: char) -> (r: Result<Canvas, CanvasError>)
        ensures
            r is Err <==> width * height > usize::MAX,
            r matches Err(e) ==> e == (CanvasError::AreaOverflow { width, height }),
            r matches Ok(c) ==> c.w() == width && c.h() == height && c.filled_with(fill),
    {
        let len = match width.checked_mul(height) {
            None => {
                return Err(CanvasError::AreaOverflow { width, height });
            },
            Some(n) => n,
        };
        let mut cells: Vec<char> = Vec::new();
        let mut box_edges: Vec<BoxEdges> = Vec::new();
        let mut i: usize = 0;
        while i < len
            invariant
                i <= len,
                cells@.len() == i,
                box_edges@.len() == i,
                forall|k: int| 0 <= k < i ==> #[trigger] cells@[k] == fill,
                forall|k: int| 0 <= k < i ==> #[trigger] box_edges@[k] == no_edges(),
            decreases len - i,
        {
            cells.push(fill);
            box_edges.push(BoxEdges { left: false, right: false, up: false, down: false });
            proof {
                assert(box_edges@[i as int] == no_edges());
                assert(cells@[i as int] == fill);
            }
            i = i + 1;
        }
        let c = Canvas { width, height, cells, box_edges };
        proof {
            assert forall|x: int, y: int| c.in_bounds_spec(x, y) implies #[trigger] c.cell(x, y) == fill
                && is_empty_edges(c.edges_at(x, y)) by {
                lemma_cell_index(width as int, height as int, x, y);
            }
            assert(c.filled_with(fill));
        }
        Ok(c)
    }

    pub fn width(&self) -> (w: usize)
        ensures
            w == self.w(),
    {
        self.width
    }

    pub fn height(&self) -> (h: usize)
        ensures
            h == self.h(),
    {
        self.height
    }

    pub fn in_bounds(&self, x: usize, y: usize) -> (b: bool)
        ensures
            b == self.in_bounds_spec(x as int, y as int),
    {
        x < self.width && y < self.height
    }

    fn index_of(&self, x: usize, y: usize) -> (r: Result<usize, CanvasError>)
        ensures
            r is Ok <==> self.in_bounds_spec(x as int, y as int),
            r matches Ok(i) ==> i == cell_index(self.w(), x as int, y as int) && i < self.cells@.len()
                && i < self.box_edges@.len(),
            r matches Err(e) ==> e == self.oob(x, y),
    {
        proof {
            use_type_invariant(self);
        }
        if !self.in_bounds(x, y) {
            return Err(CanvasError::OutOfBounds { x, y, width: self.width, height: self.height });
        }
        proof {
            lemma_cell_index(self.width as int, self.height as int, x as int, y as int);
        }
        Ok(y * self.width + x)
    }

    /// The character shown at `(x, y)`.
    pub fn get(&self, x: usize, y: usize) -> (r: Result<char, CanvasError>)
        ensures
            r is Ok <==> self.in_bounds_spec(x as int, y as int),
            r matches Ok(c) ==> c == self.shown(x as int, y as int),
            r matches Err(e) ==> e == self.oob(x, y),
    {
        let idx = self.index_of(x, y)?;
        Ok(self.render_at(x, y, idx))
    }

    /// Whether a vertical line was drawn through `(x, y)`.
    pub fn has_box_vertical(&self, x: usize, y: usize) -> (r: Result<bool, CanvasError>)
        ensures
            r is Ok <==> self.in_bounds_spec(x as int, y as int),
            r matches Ok(b) ==> b == (self.edges_at(x as int, y as int).up || self.edges_at(x as int, y as int).down),
            r matches Err(e) ==> e == self.oob(x, y),
    {
        let idx = self.index_of(x, y)?;
        let e = self.box_edges[idx];
        Ok(e.up || e.down)
    }

    fn render_at(&self, x: usize, y: usize, idx: usize) -> (c: char)
        requires
            self.in_bounds_spec(x as int, y as int),
            idx == cell_index(self.w(), x as int, y as int),
        ensures
            c == self.shown(x as int, y as int),
    {
        proof {
            use_type_invariant(self);
            lemma_cell_index(self.width as int, self.height as int, x as int, y as int);
        }
        let e = self.box_edges[idx];
        if !e.left && !e.right && !e.up && !e.down {
            return self.cells[idx];
        }
        let joined = self.connected_box_edges(x, y, e);
        if !joined.left && !joined.right && !joined.up && !joined.down {
            box_char_from_edges(e)
        } else {
            box_char_from_edges(joined)
        }
    }

    fn edges_of_cell(&self, x: usize, y: usize) -> (e: BoxEdges)
        requires
            self.in_bounds_spec(x as int, y as int),
        ensures
            e == self.edges_at(x as int, y as int),
    {
        proof {
            use_type_invariant(self);
            lemma_cell_index(self.width as int, self.height as int, x as int, y as int);
        }
        self.box_edges[y * self.width + x]
    }

    fn connected_box_edges(&self, x: usize, y: usize, e: BoxEdges) -> (r: BoxEdges)
        requires
            self.in_bounds_spec(x as int, y as int),
            e == self.edges_at(x as int, y as int),
        ensures
            r == self.joined_edges(x as int, y as int),
    {
        let left = e.left && x > 0 && self.edges_of_cell(x - 1, y).right;
        let right = e.right && x + 1 < self.width && self.edges_of_cell(x + 1, y).left;
        let up = e.up && y > 0 && self.edges_of_cell(x, y - 1).down;
        let down = e.down && y + 1 < self.height && self.edges_of_cell(x, y + 1).up;
        BoxEdges { left, right, up, down }
    }
}

/// The character written at one cell only.
pub open spec fn single(x: int, y: int, ch: char) -> spec_fn(int, int) -> Option<char> {
    |i: int, j: int| if i == x && j == y { Some(ch) } else { None }
}

/// `f`, and also `ch` written at `(x, y)`.
pub open spec fn with_cell(f: spec_fn(int, int) -> Option<char>, x: int, y: int, ch: char) -> spec_fn(int, int) -> Option<char> {
    |i: int, j: int| if i == x && j == y { Some(ch) } else { f(i, j) }
}

/// `after` is `before` with the character `f(x, y)` written at each cell where `f` gives one.
pub open spec fn stamped(before: &Canvas, after: &Canvas, f: spec_fn(int, int) -> Option<char>) -> bool {
    &&& after.w() == before.w()
    &&& after.h() == before.h()
    &&& forall|x: int, y: int| #![trigger after.cell(x, y)] #![trigger after.edges_at(x, y)]
        before.in_bounds_spec(x, y) ==> (after.cell(x, y), after.edges_at(x, y)) == match f(x, y) {
            Some(ch) => stamp(before.cell(x, y), before.edges_at(x, y), ch),
            None => (before.cell(x, y), before.edges_at(x, y)),
        }
}

/// Writing one more cell, not written before, extends a batch of writes.
pub proof fn lemma_stamped_step(a: &Canvas, b: &Canvas, c: &Canvas, f: spec_fn(int, int) -> Option<char>, x: int, y: int, ch: char)
    requires
        stamped(a, b, f),
        stamped(b, c, single(x, y, ch)),
        f(x, y) is None,
    ensures
        stamped(a, c, with_cell(f, x, y, ch)),
{
    assert forall|i: int, j: int| a.in_bounds_spec(i, j) implies (c.cell(i, j), c.edges_at(i, j)) == match with_cell(f, x, y, ch)(i, j) {
        Some(k) => stamp(a.cell(i, j), a.edges_at(i, j), k),
        None => (a.cell(i, j), a.edges_at(i, j)),
    } by {
        assert(b.in_bounds_spec(i, j));
        let _ = b.cell(i, j);
        let _ = b.edges_at(i, j);
        let _ = c.cell(i, j);
    }
}

pub proof fn lemma_stamped_nothing(a: &Canvas)
    ensures
        stamped(a, a, |i: int, j: int| None::<char>),
{
}

impl Canvas {
    /// Writes `ch` at `(x, y)`: a box-drawing character adds its line directions to the cell,
    /// any other character replaces the cell's content and lines.
    pub fn set(&mut self, x: usize, y: usize, ch: char) -> (r: Result<(), CanvasError>)
        ensures
            r is Ok <==> old(self).in_bounds_spec(x as int, y as int),
            r matches Err(e) ==> e == old(self).oob(x, y) && *final(self) == *old(self),
            r is Ok ==> stamped(old(self), final(self), single(x as int, y as int, ch)),
    {
        proof {
            use_type_invariant(&*self);
        }
        let idx = self.index_of(x, y)?;
        let mut taken = Canvas { width: 0, height: 0, cells: Vec::new(), box_edges: Vec::new() };
        std::mem::swap(&mut taken, self);
        let Canvas { width, height, mut cells, mut box_edges } = taken;
        match box_edges_from_char(ch) {
            Some(b) => {
                let m = merge_edges(box_edges[idx], b);
                box_edges.set(idx, m);
            },
            None => {
                cells.set(idx, ch);
                box_edges.set(idx, BoxEdges { left: false, right: false, up: false, down: false });
            },
        }
        *self = Canvas { width, height, cells, box_edges };
        proof {
            let w = self.width as int;
            assert forall|i: int, j: int| #![trigger self.cell(i, j)] #![trigger self.edges_at(i, j)]
                old(self).in_bounds_spec(i, j) implies (self.cell(i, j), self.edges_at(i, j)) == match single(x as int, y as int, ch)(i, j) {
                    Some(k) => stamp(old(self).cell(i, j), old(self).edges_at(i, j), k),
                    None => (old(self).cell(i, j), old(self).edges_at(i, j)),
                } by {
                lemma_cell_index(w, self.height as int, i, j);
                lemma_cell_index(w, self.height as int, x as int, y as int);
                if !(i == x && j == y) {
                    if cell_index(w, i, j) == cell_index(w, x as int, y as int) {
                        lemma_cell_index_injective(w, i, j, x as int, y as int);
                    }
                }
            }
        }
        Ok(())
    }

    /// Writes `ch` at an in-bounds cell.
    fn put(&mut self, x: usize, y: usize, ch: char)
        requires
            old(self).in_bounds_spec(x as int, y as int),
        ensures
            stamped(old(self), final(self), single(x as int, y as int, ch)),
    {
        let r = self.set(x, y, ch);
        proof {
            assert(r is Ok);
        }
    }

    /// Fills every cell with `ch` and clears all lines.
    pub fn fill(&mut self, ch: char)
        ensures
            final(self).w() == old(self).w(),
            final(self).h() == old(self).h(),
            final(self).filled_with(ch),
    {
        proof {
            use_type_invariant(&*self);
        }
        let mut taken = Canvas { width: 0, height: 0, cells: Vec::new(), box_edges: Vec::new() };
        std::mem::swap(&mut taken, self);
        let Canvas { width, height, mut cells, mut box_edges } = taken;
        let n = cells.len();
        let mut i: usize = 0;
        while i < n
            invariant
                n == cells@.len(),
                n == box_edges@.len(),
                width * height == n,
                i <= n,
                forall|k: int| 0 <= k < i ==> #[trigger] cells@[k] == ch,
                forall|k: int| 0 <= k < i ==> #[trigger] box_edges@[k] == no_edges(),
            decreases n - i,
        {
            cells.set(i, ch);
            box_edges.set(i, BoxEdges { left: false, right: false, up: false, down: false });
            proof {
                assert(box_edges@[i as int] == no_edges());
            }
            i = i + 1;
        }
        *self = Canvas { width, height, cells, box_edges };
        proof {
            assert forall|x: int, y: int| self.in_bounds_spec(x, y) implies #[trigger] self.cell(x, y) == ch
                && is_empty_edges(self.edges_at(x, y)) by {
                lemma_cell_index(self.width as int, self.height as int, x, y);
            }
            assert(self.filled_with(ch));
        }
    }
}

/// Stamping agrees with any description that names the same characters on the canvas.
pub proof fn lemma_stamped_agree(a: &Canvas, b: &Canvas, f: spec_fn(int, int) -> Option<char>, g: spec_fn(int, int) -> Option<char>)
    requires
        stamped(a, b, f),
        forall|i: int, j: int| a.in_bounds_spec(i, j) ==> f(i, j) == g(i, j),
    ensures
        stamped(a, b, g),
{
    assert forall|i: int, j: int| a.in_bounds_spec(i, j) implies (b.cell(i, j), b.edges_at(i, j)) == match g(i, j) {
        Some(k) => stamp(a.cell(i, j), a.edges_at(i, j), k),
        None => (a.cell(i, j), a.edges_at(i, j)),
    } by {
        assert(f(i, j) == g(i, j));
        let _ = b.cell(i, j);
    }
}

/// The first `k` characters of `text`, written rightwards from `(x, y)`.
pub open spec fn text_run(x: int, y: int, text: Seq<char>, k: int) -> spec_fn(int, int) -> Option<char> {
    |i: int, j: int| if j == y && x <= i && i < x + k && i - x < text.len() { Some(text[i - x]) } else { None }
}

/// A horizontal run of `ch` on row `y` from `x0` to `x1` inclusive.
pub open spec fn hrun(x0: int, x1: int, y: int, ch: char) -> spec_fn(int, int) -> Option<char> {
    |i: int, j: int| if j == y && x0 <= i <= x1 { Some(ch) } else { None }
}

/// A vertical run of `ch` in column `x` from `y0` to `y1` inclusive.
pub open spec fn vrun(x: int, y0: int, y1: int, ch: char) -> spec_fn(int, int) -> Option<char> {
    |i: int, j: int| if i == x && y0 <= j <= y1 { Some(ch) } else { None }
}

/// The lines of a box with corners `(x0, y0)` and `(x1, y1)` (`x0 <= x1`, `y0 <= y1`): a single
/// cell is a cross, a flat or thin box a plain line, any other box four corners and four sides.
pub open spec fn box_pattern(x0: int, y0: int, x1: int, y1: int) -> spec_fn(int, int) -> Option<char> {
    |i: int, j: int|
        if x0 == x1 && y0 == y1 {
            if i == x0 && j == y0 { Some('┼') } else { None }
        } else if y0 == y1 {
            if j == y0 && x0 <= i <= x1 { Some('─') } else { None }
        } else if x0 == x1 {
            if i == x0 && y0 <= j <= y1 { Some('│') } else { None }
        } else if i == x0 && j == y0 {
            Some('┌')
        } else if i == x1 && j == y0 {
            Some('┐')
        } else if i == x0 && j == y1 {
            Some('└')
        } else if i == x1 && j == y1 {
            Some('┘')
        } else if (j == y0 || j == y1) && x0 < i < x1 {
            Some('─')
        } else if (i == x0 || i == x1) && y0 < j < y1 {
            Some('│')
        } else {
            None
        }
}

/// The smaller and the larger of two coordinates.
pub open spec fn ordered_pair(a: usize, b: usize) -> (usize, usize) {
    if a <= b { (a, b) } else { (b, a) }
}

impl Canvas {
    /// Writes `text` rightwards from `(x, y)`, clipped at the right edge.
    pub fn write_str(&mut self, x: usize, y: usize, text: &str) -> (r: Result<(), CanvasError>)
        ensures
            r is Ok <==> (y as int) < old(self).h(),
            r matches Err(e) ==> e == old(self).oob(x, y) && *final(self) == *old(self),
            r is Ok ==> stamped(old(self), final(self), text_run(x as int, y as int, text@, text@.len() as int)),
    {
        if y >= self.height {
            return Err(CanvasError::OutOfBounds { x, y, width: self.width, height: self.height });
        }
        let n = text.unicode_len();
        let mut cx: usize = x;
        let mut k: usize = 0;
        let ghost start = *self;
        proof {
            lemma_stamped_nothing(self);
            lemma_stamped_agree(self, self, |i: int, j: int| None::<char>, text_run(x as int, y as int, text@, 0));
        }
        while k < n
            invariant
                n == text@.len(),
                k <= n,
                cx == x + k,
                (y as int) < start.h(),
                stamped(&start, self, text_run(x as int, y as int, text@, k as int)),
            ensures
                k <= n,
                cx == x + k,
                stamped(&start, self, text_run(x as int, y as int, text@, k as int)),
                k == n || (cx as int) >= start.w(),
            decreases n - k,
        {
            if cx >= self.width {
                break;
            }
            let ghost before = *self;
            let c = text.get_char(k);
            self.put(cx, y, c);
            proof {
                lemma_stamped_step(&start, &before, self, text_run(x as int, y as int, text@, k as int), cx as int, y as int, c);
                lemma_stamped_agree(&start, self, with_cell(text_run(x as int, y as int, text@, k as int), cx as int, y as int, c),
                    text_run(x as int, y as int, text@, k + 1));
            }
            cx = cx + 1;
            k = k + 1;
        }
        proof {
            lemma_stamped_agree(&start, self, text_run(x as int, y as int, text@, k as int), text_run(x as int, y as int, text@, n as int));
        }
        Ok(())
    }

    /// Puts `ch` on row `y` from `x0` to `x1` inclusive (all in bounds).
    fn put_hrun(&mut self, x0: usize, x1: usize, y: usize, ch: char)
        requires
            x0 <= x1 + 1,
            (x1 as int) < old(self).w(),
            (y as int) < old(self).h(),
        ensures
            stamped(old(self), final(self), hrun(x0 as int, x1 as int, y as int, ch)),
    {
        let ghost start = *self;
        let mut cx: usize = x0;
        proof {
            lemma_stamped_nothing(self);
            lemma_stamped_agree(self, self, |i: int, j: int| None::<char>, hrun(x0 as int, x0 - 1, y as int, ch));
        }
        while cx <= x1
            invariant
                x0 <= cx <= x1 + 1,
                (x1 as int) < start.w(),
                (y as int) < start.h(),
                stamped(&start, self, hrun(x0 as int, cx - 1, y as int, ch)),
            decreases x1 + 1 - cx,
        {
            let ghost before = *self;
            self.put(cx, y, ch);
            proof {
                lemma_stamped_step(&start, &before, self, hrun(x0 as int, cx - 1, y as int, ch), cx as int, y as int, ch);
                lemma_stamped_agree(&start, self, with_cell(hrun(x0 as int, cx - 1, y as int, ch), cx as int, y as int, ch),
                    hrun(x0 as int, cx as int, y as int, ch));
            }
            cx = cx + 1;
        }
    }

    /// Puts `ch` in column `x` from `y0` to `y1` inclusive (all in bounds).
    fn put_vrun(&mut self, x: usize, y0: usize, y1: usize, ch: char)
        requires
            y0 <= y1 + 1,
            (x as int) < old(self).w(),
            (y1 as int) < old(self).h(),
        ensures
            stamped(old(self), final(self), vrun(x as int, y0 as int, y1 as int, ch)),
    {
        let ghost start = *self;
        let mut cy: usize = y0;
        proof {
            lemma_stamped_nothing(self);
            lemma_stamped_agree(self, self, |i: int, j: int| None::<char>, vrun(x as int, y0 as int, y0 - 1, ch));
        }
        while cy <= y1
            invariant
                y0 <= cy <= y1 + 1,
                (x as int) < start.w(),
                (y1 as int) < start.h(),
                stamped(&start, self, vrun(x as int, y0 as int, cy - 1, ch)),
            decreases y1 + 1 - cy,
        {
            let ghost before = *self;
            self.put(x, cy, ch);
            proof {
                lemma_stamped_step(&start, &before, self, vrun(x as int, y0 as int, cy - 1, ch), x as int, cy as int, ch);
                lemma_stamped_agree(&start, self, with_cell(vrun(x as int, y0 as int, cy - 1, ch), x as int, cy as int, ch),
                    vrun(x as int, y0 as int, cy as int, ch));
            }
            cy = cy + 1;
        }
    }

    /// Draws a horizontal line on row `y` between `x0` and `x1` (either order), merging with
    /// lines already drawn.
    pub fn draw_hline(&mut self, x0: usize, x1: usize, y: usize) -> (r: Result<(), CanvasError>)
        ensures
            ({
                let (min_x, max_x) = ordered_pair(x0, x1);
                &&& (y as int) >= old(self).h() ==> r == Err::<(), CanvasError>(old(self).oob(min_x, y))
                &&& (y as int) < old(self).h() && (max_x as int) >= old(self).w() ==> r == Err::<(), CanvasError>(old(self).oob(max_x, y))
                &&& r is Err ==> *final(self) == *old(self)
                &&& r is Ok <==> (y as int) < old(self).h() && (max_x as int) < old(self).w()
                &&& r is Ok ==> stamped(old(self), final(self), hrun(min_x as int, max_x as int, y as int, '─'))
            }),
    {
        let (min_x, max_x) = if x0 <= x1 { (x0, x1) } else { (x1, x0) };
        if y >= self.height {
            return Err(CanvasError::OutOfBounds { x: min_x, y, width: self.width, height: self.height });
        }
        if max_x >= self.width {
            return Err(CanvasError::OutOfBounds { x: max_x, y, width: self.width, height: self.height });
        }
        self.put_hrun(min_x, max_x, y, UNICODE_BOX_HORIZONTAL);
        Ok(())
    }

    /// Draws a vertical line in column `x` between `y0` and `y1` (either order), merging with
    /// lines already drawn.
    pub fn draw_vline(&mut self, x: usize, y0: usize, y1: usize) -> (r: Result<(), CanvasError>)
        ensures
            ({
                let (min_y, max_y) = ordered_pair(y0, y1);
                &&& (x as int) >= old(self).w() ==> r == Err::<(), CanvasError>(old(self).oob(x, min_y))
                &&& (x as int) < old(self).w() && (max_y as int) >= old(self).h() ==> r == Err::<(), CanvasError>(old(self).oob(x, max_y))
                &&& r is Err ==> *final(self) == *old(self)
                &&& r is Ok <==> (x as int) < old(self).w() && (max_y as int) < old(self).h()
                &&& r is Ok ==> stamped(old(self), final(self), vrun(x as int, min_y as int, max_y as int, '│'))
            }),
    {
        let (min_y, max_y) = if y0 <= y1 { (y0, y1) } else { (y1, y0) };
        if x >= self.width {
            return Err(CanvasError::OutOfBounds { x, y: min_y, width: self.width, height: self.height });
        }
        if max_y >= self.height {
            return Err(CanvasError::OutOfBounds { x, y: max_y, width: self.width, height: self.height });
        }
        self.put_vrun(x, min_y, max_y, UNICODE_BOX_VERTICAL);
        Ok(())
    }
}

/// A cell after the write `f` names there, if any.
pub open spec fn apply_write(f: spec_fn(int, int) -> Option<char>, x: int, y: int, cell: (char, BoxEdges)) -> (char, BoxEdges) {
    match f(x, y) {
        Some(ch) => stamp(cell.0, cell.1, ch),
        None => cell,
    }
}

/// Writes nowhere.
pub open spec fn no_writes() -> spec_fn(int, int) -> Option<char> {
    |i: int, j: int| None::<char>
}

/// `after` is `before` with the writes of `f`, then those of `g` (where both write a cell,
/// the second write merges with or replaces the first).
pub open spec fn stamped_twice(before: &Canvas, after: &Canvas, f: spec_fn(int, int) -> Option<char>, g: spec_fn(int, int) -> Option<char>) -> bool {
    &&& after.w() == before.w()
    &&& after.h() == before.h()
    &&& forall|x: int, y: int| #![trigger after.cell(x, y)] #![trigger after.edges_at(x, y)]
        before.in_bounds_spec(x, y) ==> (after.cell(x, y), after.edges_at(x, y))
            == apply_write(g, x, y, apply_write(f, x, y, (before.cell(x, y), before.edges_at(x, y))))
}

/// A cell after the writes of each pattern of `fs` in turn.
pub open spec fn apply_all(fs: Seq<spec_fn(int, int) -> Option<char>>, x: int, y: int, cell: (char, BoxEdges)) -> (char, BoxEdges)
    decreases fs.len(),
{
    if fs.len() == 0 {
        cell
    } else {
        apply_write(fs.last(), x, y, apply_all(fs.drop_last(), x, y, cell))
    }
}

/// `after` is `before` with the writes of each pattern of `fs` in turn (later writes over
/// earlier ones, lines merging).
pub open spec fn stamped_seq(before: &Canvas, after: &Canvas, fs: Seq<spec_fn(int, int) -> Option<char>>) -> bool {
    &&& after.w() == before.w()
    &&& after.h() == before.h()
    &&& forall|x: int, y: int| #![trigger after.cell(x, y)] #![trigger after.edges_at(x, y)]
        before.in_bounds_spec(x, y) ==> (after.cell(x, y), after.edges_at(x, y))
            == apply_all(fs, x, y, (before.cell(x, y), before.edges_at(x, y)))
}

/// No batches of writes leave a canvas as it is.
pub proof fn lemma_stamped_seq_start(a: &Canvas)
    ensures
        stamped_seq(a, a, Seq::empty()),
{
}

/// One more batch of writes extends the list.
pub proof fn lemma_stamped_seq_push(a: &Canvas, b: &Canvas, c: &Canvas, fs: Seq<spec_fn(int, int) -> Option<char>>, f: spec_fn(int, int) -> Option<char>)
    requires
        stamped_seq(a, b, fs),
        stamped(b, c, f),
    ensures
        stamped_seq(a, c, fs.push(f)),
{
    assert(fs.push(f).drop_last() =~= fs);
    assert forall|x: int, y: int| a.in_bounds_spec(x, y) implies (c.cell(x, y), c.edges_at(x, y))
        == apply_all(fs.push(f), x, y, (a.cell(x, y), a.edges_at(x, y))) by {
        let _ = b.cell(x, y);
        let _ = c.cell(x, y);
    }
}

/// One batch of writes is two batches, the second empty.
pub proof fn lemma_stamped_twice_start(a: &Canvas, b: &Canvas, f: spec_fn(int, int) -> Option<char>)
    requires
        stamped(a, b, f),
    ensures
        stamped_twice(a, b, f, no_writes()),
{
    assert forall|x: int, y: int| a.in_bounds_spec(x, y) implies (b.cell(x, y), b.edges_at(x, y))
        == apply_write(no_writes(), x, y, apply_write(f, x, y, (a.cell(x, y), a.edges_at(x, y)))) by {
        let _ = b.cell(x, y);
    }
}

/// Writes to cells the second batch has not written extend the second batch.
pub proof fn lemma_stamped_twice_extend(
    a: &Canvas,
    b: &Canvas,
    c: &Canvas,
    f: spec_fn(int, int) -> Option<char>,
    g: spec_fn(int, int) -> Option<char>,
    h: spec_fn(int, int) -> Option<char>,
    g2: spec_fn(int, int) -> Option<char>,
)
    requires
        stamped_twice(a, b, f, g),
        stamped(b, c, h),
        forall|i: int, j: int| a.in_bounds_spec(i, j) ==> g(i, j) is None || h(i, j) is None,
        forall|i: int, j: int| a.in_bounds_spec(i, j) ==> g2(i, j) == (match h(i, j) {
            Some(ch) => Some(ch),
            None => g(i, j),
        }),
    ensures
        stamped_twice(a, c, f, g2),
{
    assert forall|x: int, y: int| a.in_bounds_spec(x, y) implies (c.cell(x, y), c.edges_at(x, y))
        == apply_write(g2, x, y, apply_write(f, x, y, (a.cell(x, y), a.edges_at(x, y)))) by {
        assert(b.in_bounds_spec(x, y));
        let _ = b.cell(x, y);
        let _ = b.edges_at(x, y);
        let _ = c.cell(x, y);
    }
}

/// `f` where it names a character, else `g`.
pub open spec fn overlay(f: spec_fn(int, int) -> Option<char>, g: spec_fn(int, int) -> Option<char>) -> spec_fn(int, int) -> Option<char> {
    |i: int, j: int| match f(i, j) {
        Some(c) => Some(c),
        None => g(i, j),
    }
}

/// Two batches of writes to disjoint cells, one after the other, are one batch.
pub proof fn lemma_stamped_compose(a: &Canvas, b: &Canvas, c: &Canvas, f: spec_fn(int, int) -> Option<char>, g: spec_fn(int, int) -> Option<char>)
    requires
        stamped(a, b, f),
        stamped(b, c, g),
        forall|i: int, j: int| a.in_bounds_spec(i, j) ==> f(i, j) is None || g(i, j) is None,
    ensures
        stamped(a, c, overlay(f, g)),
{
    assert forall|i: int, j: int| a.in_bounds_spec(i, j) implies (c.cell(i, j), c.edges_at(i, j)) == match overlay(f, g)(i, j) {
        Some(k) => stamp(a.cell(i, j), a.edges_at(i, j), k),
        None => (a.cell(i, j), a.edges_at(i, j)),
    } by {
        assert(b.in_bounds_spec(i, j));
        let _ = b.cell(i, j);
        let _ = c.cell(i, j);
    }
}

impl Canvas {
    /// Draws a single-line box with corners `(x0, y0)` and `(x1, y1)` (in either order),
    /// merging with lines already drawn. A box that does not fit is refused before anything
    /// is drawn.
    pub fn draw_box(&mut self, x0: usize, y0: usize, x1: usize, y1: usize) -> (r: Result<(), CanvasError>)
        ensures
            ({
                let (min_x, max_x) = ordered_pair(x0, x1);
                let (min_y, max_y) = ordered_pair(y0, y1);
                &&& (max_x as int) >= old(self).w() ==> r == Err::<(), CanvasError>(old(self).oob(max_x, min_y))
                &&& (max_x as int) < old(self).w() && (max_y as int) >= old(self).h() ==> r == Err::<(), CanvasError>(old(self).oob(min_x, max_y))
                &&& r is Err ==> *final(self) == *old(self)
                &&& r is Ok <==> (max_x as int) < old(self).w() && (max_y as int) < old(self).h()
                &&& r is Ok ==> stamped(old(self), final(self), box_pattern(min_x as int, min_y as int, max_x as int, max_y as int))
            }),
    {
        let (min_x, max_x) = if x0 <= x1 { (x0, x1) } else { (x1, x0) };
        let (min_y, max_y) = if y0 <= y1 { (y0, y1) } else { (y1, y0) };
        if max_x >= self.width {
            return Err(CanvasError::OutOfBounds { x: max_x, y: min_y, width: self.width, height: self.height });
        }
        if max_y >= self.height {
            return Err(CanvasError::OutOfBounds { x: min_x, y: max_y, width: self.width, height: self.height });
        }
        let ghost a = *self;
        let ghost target = box_pattern(min_x as int, min_y as int, max_x as int, max_y as int);
        if min_x == max_x && min_y == max_y {
            self.put(min_x, min_y, UNICODE_BOX_CROSS);
            proof {
                lemma_stamped_agree(&a, self, single(min_x as int, min_y as int, '┼'), target);
            }
            return Ok(());
        }
        if min_y == max_y {
            self.put_hrun(min_x, max_x, min_y, UNICODE_BOX_HORIZONTAL);
            proof {
                lemma_stamped_agree(&a, self, hrun(min_x as int, max_x as int, min_y as int, '─'), target);
            }
            return Ok(());
        }
        if min_x == max_x {
            self.put_vrun(min_x, min_y, max_y, UNICODE_BOX_VERTICAL);
            proof {
                lemma_stamped_agree(&a, self, vrun(min_x as int, min_y as int, max_y as int, '│'), target);
            }
            return Ok(());
        }
        let ghost top = hrun(min_x + 1, max_x - 1, min_y as int, '─');
        let ghost bottom = hrun(min_x + 1, max_x - 1, max_y as int, '─');
        let ghost left = vrun(min_x as int, min_y + 1, max_y - 1, '│');
        let ghost right = vrun(max_x as int, min_y + 1, max_y - 1, '│');
        self.put_hrun(min_x + 1, max_x - 1, min_y, UNICODE_BOX_HORIZONTAL);
        let ghost b1 = *self;
        self.put_hrun(min_x + 1, max_x - 1, max_y, UNICODE_BOX_HORIZONTAL);
        let ghost b2 = *self;
        proof {
            lemma_stamped_compose(&a, &b1, &b2, top, bottom);
        }
        self.put_vrun(min_x, min_y + 1, max_y - 1, UNICODE_BOX_VERTICAL);
        let ghost b3 = *self;
        proof {
            lemma_stamped_compose(&a, &b2, &b3, overlay(top, bottom), left);
        }
        self.put_vrun(max_x, min_y + 1, max_y - 1, UNICODE_BOX_VERTICAL);
        let ghost b4 = *self;
        let ghost sides = overlay(overlay(overlay(top, bottom), left), right);
        proof {
            lemma_stamped_compose(&a, &b3, &b4, overlay(overlay(top, bottom), left), right);
        }
        self.put(min_x, min_y, UNICODE_BOX_TOP_LEFT);
        let ghost b5 = *self;
        proof {
            lemma_stamped_step(&a, &b4, &b5, sides, min_x as int, min_y as int, '┌');
        }
        self.put(max_x, min_y, UNICODE_BOX_TOP_RIGHT);
        let ghost b6 = *self;
        let ghost s1 = with_cell(sides, min_x as int, min_y as int, '┌');
        proof {
            lemma_stamped_step(&a, &b5, &b6, s1, max_x as int, min_y as int, '┐');
        }
        self.put(min_x, max_y, UNICODE_BOX_BOTTOM_LEFT);
        let ghost b7 = *self;
        let ghost s2 = with_cell(s1, max_x as int, min_y as int, '┐');
        proof {
            lemma_stamped_step(&a, &b6, &b7, s2, min_x as int, max_y as int, '└');
        }
        self.put(max_x, max_y, UNICODE_BOX_BOTTOM_RIGHT);
        let ghost s3 = with_cell(s2, min_x as int, max_y as int, '└');
        proof {
            lemma_stamped_step(&a, &b7, self, s3, max_x as int, max_y as int, '┘');
            lemma_stamped_agree(&a, self, with_cell(s3, max_x as int, max_y as int, '┘'), target);
        }
        Ok(())
    }

    /// The character shown at an in-bounds cell.
    fn shown_at(&self, x: usize, y: usize) -> (c: char)
        requires
            self.in_bounds_spec(x as int, y as int),
        ensures
            c == self.shown(x as int, y as int),
    {
        proof {
            use_type_invariant(self);
            lemma_cell_index(self.width as int, self.height as int, x as int, y as int);
        }
        self.render_at(x, y, y * self.width + x)
    }

    /// The shown characters of row `y`.
    pub open spec fn row_text(&self, y: int) -> Seq<char> {
        Seq::new(self.w() as nat, |x: int| self.shown(x, y))
    }

    /// The first `n` rows, separated by newlines.
    pub open spec fn rows_text(&self, n: int) -> Seq<char>
        decreases n,
    {
        if n <= 0 {
            Seq::empty()
        } else if n == 1 {
            self.row_text(0)
        } else {
            self.rows_text(n - 1).push('\n') + self.row_text(n - 1)
        }
    }

    /// The canvas as text: its rows, top to bottom, separated by newlines.
    pub fn to_string(&self) -> (s: String)
        ensures
            s@ == self.rows_text(self.h()),
    {
        let mut out = String::new();
        let mut y: usize = 0;
        while y < self.height
            invariant
                y <= self.h(),
                out@ == self.rows_text(y as int),
            decreases self.h() - y,
        {
            if y > 0 {
                push_char(&mut out, '\n');
            }
            let ghost head = out@;
            let mut x: usize = 0;
            while x < self.width
                invariant
                    x <= self.w(),
                    (y as int) < self.h(),
                    out@ == head + self.row_text(y as int).take(x as int),
                decreases self.w() - x,
            {
                let c = self.shown_at(x, y);
                push_char(&mut out, c);
                proof {
                    assert(self.row_text(y as int).take(x + 1) =~= self.row_text(y as int).take(x as int).push(c));
                }
                x = x + 1;
            }
            proof {
                assert(self.row_text(y as int).take(x as int) =~= self.row_text(y as int));
                if y == 0 {
                    assert(out@ =~= self.rows_text(1));
                }
            }
            y = y + 1;
        }
        out
    }
}

/// Reading back a written cell: after writing a character that is not a box-drawing
/// character, the cell shows exactly that character.
pub proof fn lemma_shown_after_write(before: &Canvas, after: &Canvas, x: int, y: int, ch: char)
    requires
        stamped(before, after, single(x, y, ch)),
        before.in_bounds_spec(x, y),
        box_edges_of(ch) is None,
    ensures
        after.shown(x, y) == ch,
{
    let _ = after.cell(x, y);
}

/// Box-drawing characters merge: writing two of them into the same canvas in either order
/// gives the same canvas.
pub proof fn lemma_box_writes_commute(
    a: &Canvas,
    b1: &Canvas,
    c1: &Canvas,
    b2: &Canvas,
    c2: &Canvas,
    x1: int,
    y1: int,
    ch1: char,
    x2: int,
    y2: int,
    ch2: char,
)
    requires
        box_edges_of(ch1) is Some,
        box_edges_of(ch2) is Some,
        stamped(a, b1, single(x1, y1, ch1)),
        stamped(b1, c1, single(x2, y2, ch2)),
        stamped(a, b2, single(x2, y2, ch2)),
        stamped(b2, c2, single(x1, y1, ch1)),
    ensures
        c1.w() == c2.w() && c1.h() == c2.h(),
        forall|x: int, y: int| a.in_bounds_spec(x, y) ==> #[trigger] c1.cell(x, y) == c2.cell(x, y)
            && c1.edges_at(x, y) == c2.edges_at(x, y),
{
    assert forall|x: int, y: int| a.in_bounds_spec(x, y) implies #[trigger] c1.cell(x, y) == c2.cell(x, y)
        && c1.edges_at(x, y) == c2.edges_at(x, y) by {
        let _ = b1.cell(x, y);
        let _ = b2.cell(x, y);
        let _ = c2.cell(x, y);
    }
}

} // verus!
