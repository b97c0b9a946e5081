//! Endpoint caps (arrowheads and markers) stamped over rendered connector text.

use vstd::prelude::*;
use crate::chars::push_char;
use super::canvas::{BoxEdges, box_edges_of, box_char, box_char_from_edges, box_edges_from_char};

verus! {

/// A cap character at cell `(x, y)`, pointing away from its node by `(outward_dx, outward_dy)`.
#[derive(Debug, Clone, Copy, PartialEq, Eq, Structural)]
pub struct EdgeCapCell {
    pub x: usize,
    pub y: usize,
    pub ch: char,
    pub outward_dx: i32,
    pub outward_dy: i32,
}

/// The caps of one edge, at its start and at its end.
#[derive(Debug, Clone, Copy, PartialEq, Eq, Structural)]
pub struct EdgeCapPlacement {
    pub start: Option<EdgeCapCell>,
    pub end: Option<EdgeCapCell>,
}

/// A line without its trailing carriage return, if any.
pub open spec fn strip_cr(l: Seq<char>) -> Seq<char> {
    if l.len() > 0 && l.last() == '\r' {
        l.drop_last()
    } else {
        l
    }
}

/// The lines ended so far and the line in progress, reading `t` from the start.
pub open spec fn lines_acc(t: Seq<char>) -> (Seq<Seq<char>>, Seq<char>)
    decreases t.len(),
{
    if t.len() == 0 {
        (Seq::empty(), Seq::empty())
    } else {
        let (done, cur) = lines_acc(t.drop_last());
        if t.last() == '\n' {
            (done.push(strip_cr(cur)), Seq::empty())
        } else {
            (done, cur.push(t.last()))
        }
    }
}

/// The lines of `t` as `str::lines` gives them: split at `\n`, a `\r` before it dropped, and
/// no empty line after a final `\n`.
pub open spec fn text_lines(t: Seq<char>) -> Seq<Seq<char>> {
    let (done, cur) = lines_acc(t);
    if cur.len() > 0 {
        done.push(cur)
    } else {
        done
    }
}

/// Lines joined with `\n` between them.
pub open spec fn join_lines(ls: Seq<Seq<char>>) -> Seq<char>
    decreases ls.len(),
{
    if ls.len() == 0 {
        Seq::empty()
    } else if ls.len() == 1 {
        ls[0]
    } else {
        join_lines(ls.drop_last()) + seq!['\n'] + ls.last()
    }
}

/// The lines of `t` as character vectors.
fn split_lines(t: &str) -> (r: Vec<Vec<char>>)
    ensures
        r@.map_values(|l: Vec<char>| l@) == text_lines(t@),
{
    let n = t.unicode_len();
    let mut done: Vec<Vec<char>> = Vec::new();
    let mut cur: Vec<char> = Vec::new();
    let mut i: usize = 0;
    while i < n
        invariant
            n == t@.len(),
            i <= n,
            lines_acc(t@.take(i as int)) == (done@.map_values(|l: Vec<char>| l@), cur@),
        decreases n - i,
    {
        let c = t.get_char(i);
        proof {
            assert(t@.take(i + 1).drop_last() =~= t@.take(i as int));
            assert(t@.take(i + 1).last() == c);
        }
        if c == '\n' {
            let ghost cv = cur@;
            let mut line = cur;
            if line.len() > 0 && line[line.len() - 1] == '\r' {
                line.pop();
                proof {
                    assert(line@ =~= cv.drop_last());
                }
            }
            let ghost before = done@.map_values(|l: Vec<char>| l@);
            done.push(line);
            cur = Vec::new();
            proof {
                assert(done@.map_values(|l: Vec<char>| l@) =~= before.push(strip_cr(cv)));
                assert(cur@ =~= Seq::<char>::empty());
            }
        } else {
            cur.push(c);
        }
        i = i + 1;
    }
    proof {
        assert(t@.take(n as int) =~= t@);
    }
    if cur.len() > 0 {
        let ghost before = done@.map_values(|l: Vec<char>| l@);
        let ghost cv = cur@;
        done.push(cur);
        proof {
            assert(done@.map_values(|l: Vec<char>| l@) =~= before.push(cv));
        }
    }
    done
}

/// The lines joined with `\n` between them.
fn join_char_lines(lines: &Vec<Vec<char>>) -> (s: String)
    ensures
        s@ == join_lines(lines@.map_values(|l: Vec<char>| l@)),
{
    let mut s = String::new();
    let mut k: usize = 0;
    proof {
        assert(s@ =~= join_lines(lines@.map_values(|l: Vec<char>| l@).take(0)));
    }
    while k < lines.len()
        invariant
            k <= lines@.len(),
            s@ == join_lines(lines@.map_values(|l: Vec<char>| l@).take(k as int)),
        decreases lines@.len() - k,
    {
        let ghost ls = lines@.map_values(|l: Vec<char>| l@);
        let ghost prev = s@;
        if k > 0 {
            push_char(&mut s, '\n');
        }
        let line = &lines[k];
        let mut j: usize = 0;
        let ghost base = s@;
        while j < line.len()
            invariant
                j <= line@.len(),
                s@ == base + line@.take(j as int),
            decreases line@.len() - j,
        {
            push_char(&mut s, line[j]);
            proof {
                assert(line@.take(j + 1) =~= line@.take(j as int).push(line@[j as int]));
            }
            j = j + 1;
        }
        proof {
            assert(line@.take(j as int) =~= line@);
            assert(ls.take(k + 1).drop_last() =~= ls.take(k as int));
            assert(ls.take(k + 1).last() == line@);
            if k == 0 {
                assert(prev =~= Seq::<char>::empty());
                assert(s@ =~= ls.take(1)[0]);
            } else {
                assert(s@ =~= prev + seq!['\n'] + line@);
            }
        }
        k = k + 1;
    }
    proof {
        assert(lines@.map_values(|l: Vec<char>| l@).take(k as int) =~= lines@.map_values(|l: Vec<char>| l@));
    }
    s
}

/// An arrowhead cap.
pub open spec fn is_arrow_cap(ch: char) -> bool {
    ch == '◀' || ch == '▶' || ch == '▲' || ch == '▼'
}

/// The direction a cap points away from its node, as a box edge; none when it does not move.
pub open spec fn outward_edge(dx: i32, dy: i32) -> Option<BoxEdges> {
    if dx < 0 {
        Some(BoxEdges { left: true, right: false, up: false, down: false })
    } else if dx > 0 {
        Some(BoxEdges { left: false, right: true, up: false, down: false })
    } else if dy < 0 {
        Some(BoxEdges { left: false, right: false, up: true, down: false })
    } else if dy > 0 {
        Some(BoxEdges { left: false, right: false, up: false, down: true })
    } else {
        None
    }
}

/// `e` without the directions of `b`.
pub open spec fn without(e: BoxEdges, b: BoxEdges) -> BoxEdges {
    BoxEdges { left: e.left && !b.left, right: e.right && !b.right, up: e.up && !b.up, down: e.down && !b.down }
}

/// `e` and `b` share a direction.
pub open spec fn shares(e: BoxEdges, b: BoxEdges) -> bool {
    (e.left && b.left) || (e.right && b.right) || (e.up && b.up) || (e.down && b.down)
}

/// No direction at all.
pub open spec fn no_edges(e: BoxEdges) -> bool {
    !e.left && !e.right && !e.up && !e.down
}

/// `lines` with the cell at `(x, y)` set to `ch`, when it exists.
pub open spec fn put_cell(lines: Seq<Seq<char>>, x: int, y: int, ch: char) -> Seq<Seq<char>> {
    if 0 <= y < lines.len() && 0 <= x < lines[y].len() {
        lines.update(y, lines[y].update(x, ch))
    } else {
        lines
    }
}

/// For an arrowhead: the connector in the cell one step back towards the node loses its
/// stroke towards the cap, unless that would leave it empty.
pub open spec fn drop_toward_cap(lines: Seq<Seq<char>>, cap: EdgeCapCell) -> Seq<Seq<char>> {
    let nx = cap.x - cap.outward_dx;
    let ny = cap.y - cap.outward_dy;
    if !is_arrow_cap(cap.ch) || !(0 <= ny < lines.len() && 0 <= nx < lines[ny].len()) {
        lines
    } else {
        match (box_edges_of(lines[ny][nx]), outward_edge(cap.outward_dx, cap.outward_dy)) {
            (Some(mask), Some(bit)) => if shares(mask, bit) && !no_edges(without(mask, bit)) {
                put_cell(lines, nx, ny, box_char(without(mask, bit)))
            } else {
                lines
            },
            _ => lines,
        }
    }
}

/// One cap stamped: the connector behind an arrowhead adjusted, then the cap character set.
pub open spec fn stamp_cap(lines: Seq<Seq<char>>, cap: EdgeCapCell) -> Seq<Seq<char>> {
    put_cell(drop_toward_cap(lines, cap), cap.x as int, cap.y as int, cap.ch)
}

/// The caps of one edge stamped, start first.
pub open spec fn stamp_placement(lines: Seq<Seq<char>>, p: EdgeCapPlacement) -> Seq<Seq<char>> {
    let a = match p.start {
        Some(c) => stamp_cap(lines, c),
        None => lines,
    };
    match p.end {
        Some(c) => stamp_cap(a, c),
        None => a,
    }
}

/// All caps stamped, edge by edge.
pub open spec fn stamp_all(lines: Seq<Seq<char>>, caps: Seq<EdgeCapPlacement>) -> Seq<Seq<char>>
    decreases caps.len(),
{
    if caps.len() == 0 {
        lines
    } else {
        stamp_placement(stamp_all(lines, caps.drop_last()), caps.last())
    }
}

/// Views of character lines.
pub open spec fn line_views(lines: Seq<Vec<char>>) -> Seq<Seq<char>> {
    lines.map_values(|l: Vec<char>| l@)
}

/// Sets the cell at `(x, y)` to `ch`, when it exists.
fn put(lines: &mut Vec<Vec<char>>, x: usize, y: usize, ch: char)
    ensures
        line_views(final(lines)@) == put_cell(line_views(old(lines)@), x as int, y as int, ch),
{
    if y < lines.len() && x < lines[y].len() {
        let mut row = Vec::new();
        std::mem::swap(&mut row, &mut lines[y]);
        let ghost old_row = row@;
        row.set(x, ch);
        let ghost mid = lines@;
        lines.set(y, row);
        proof {
            assert(line_views(lines@) =~= line_views(old(lines)@).update(y as int, old_row.update(x as int, ch)));
        }
    } else {
        proof {
            assert(line_views(lines@) == line_views(old(lines)@));
        }
    }
}

/// Adjusts the connector behind an arrowhead cap (see `drop_toward_cap`).
fn drop_toward(lines: &mut Vec<Vec<char>>, cap: EdgeCapCell)
    ensures
        line_views(final(lines)@) == drop_toward_cap(line_views(old(lines)@), cap),
{
    let ch = cap.ch;
    if !(ch == '◀' || ch == '▶' || ch == '▲' || ch == '▼') {
        return;
    }
    let nx: i128 = (cap.x as i128) - (cap.outward_dx as i128);
    let ny: i128 = (cap.y as i128) - (cap.outward_dy as i128);
    if nx < 0 || ny < 0 || ny >= (lines.len() as i128) {
        return;
    }
    let row = ny as usize;
    if nx >= (lines[row].len() as i128) {
        return;
    }
    let col = nx as usize;
    let current = lines[row][col];
    proof {
        assert(line_views(lines@)[row as int] == lines@[row as int]@);
        assert(line_views(lines@)[row as int][col as int] == current);
    }
    let bit = if cap.outward_dx < 0 {
        Some(BoxEdges { left: true, right: false, up: false, down: false })
    } else if cap.outward_dx > 0 {
        Some(BoxEdges { left: false, right: true, up: false, down: false })
    } else if cap.outward_dy < 0 {
        Some(BoxEdges { left: false, right: false, up: true, down: false })
    } else if cap.outward_dy > 0 {
        Some(BoxEdges { left: false, right: false, up: false, down: true })
    } else {
        None
    };
    match (box_edges_from_char(current), bit) {
        (Some(mask), Some(b)) => {
            let rest = BoxEdges {
                left: mask.left && !b.left,
                right: mask.right && !b.right,
                up: mask.up && !b.up,
                down: mask.down && !b.down,
            };
            let shared = (mask.left && b.left) || (mask.right && b.right) || (mask.up && b.up) || (mask.down && b.down);
            let empty = !rest.left && !rest.right && !rest.up && !rest.down;
            if shared && !empty {
                put(lines, col, row, box_char_from_edges(rest));
            }
        },
        _ => {},
    }
}

/// Stamps one cap (see `stamp_cap`).
fn stamp(lines: &mut Vec<Vec<char>>, cap: EdgeCapCell)
    ensures
        line_views(final(lines)@) == stamp_cap(line_views(old(lines)@), cap),
{
    drop_toward(lines, cap);
    put(lines, cap.x, cap.y, cap.ch);
}

/// Stamps the endpoint caps of each edge, in order, over `text`: an arrowhead's connector
/// cell behind it loses its stroke towards the cap, then the cap character is set. Cells
/// outside the text are left alone; the text comes back with its lines joined by `\n`.
pub fn overlay_edge_caps_on_text(text: String, edge_caps: &Vec<EdgeCapPlacement>) -> (r: String)
    ensures
        r@ == join_lines(stamp_all(text_lines(text@), edge_caps@)),
{
    let mut lines = split_lines(text.as_str());
    let mut k: usize = 0;
    proof {
        assert(edge_caps@.take(0) =~= Seq::<EdgeCapPlacement>::empty());
    }
    while k < edge_caps.len()
        invariant
            k <= edge_caps@.len(),
            line_views(lines@) == stamp_all(text_lines(text@), edge_caps@.take(k as int)),
        decreases edge_caps@.len() - k,
    {
        let caps = edge_caps[k];
        proof {
            assert(caps == edge_caps@[k as int]);
        }
        match caps.start {
            Some(cap) => stamp(&mut lines, cap),
            None => {},
        }
        match caps.end {
            Some(cap) => stamp(&mut lines, cap),
            None => {},
        }
        proof {
            assert(edge_caps@.take(k + 1).drop_last() =~= edge_caps@.take(k as int));
            assert(edge_caps@.take(k + 1).last() == caps);
        }
        k = k + 1;
    }
    proof {
        assert(edge_caps@.take(k as int) =~= edge_caps@);
    }
    join_char_lines(&lines)
}

} // verus!
