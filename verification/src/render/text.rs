//! Text measurement, truncation and trimmed canvas output.

use vstd::prelude::*;
use crate::chars::push_char;
use super::canvas::Canvas;

verus! {

/// Length in characters (not bytes).
pub fn text_len(text: &str) -> (n: usize)
    ensures
        n == text@.len(),
{
    text.unicode_len()
}

/// `text` cut to at most `max_len` characters, the last one replaced by `…` when cut.
pub open spec fn truncated(text: Seq<char>, max_len: int) -> Seq<char> {
    if max_len <= 0 {
        Seq::empty()
    } else if text.len() <= max_len {
        text
    } else if max_len == 1 {
        seq!['…']
    } else {
        text.take(max_len - 1).push('…')
    }
}

/// A truncated text fits its width.
pub proof fn lemma_truncated_len(text: Seq<char>, max_len: int)
    ensures
        truncated(text, max_len).len() <= if max_len < 0 { 0 } else { max_len },
{
}

/// Cuts `text` to at most `max_len` characters, ending in `…` when it had to be cut.
pub fn truncate_with_ellipsis(text: &str, max_len: usize) -> (r: String)
    ensures
        r@ == truncated(text@, max_len as int),
{
    if max_len == 0 {
        return String::new();
    }
    let len = text_len(text);
    if len <= max_len {
        return String::from_str(text);
    }
    let mut out = String::from_str(text.substring_char(0, max_len - 1));
    push_char(&mut out, '…');
    proof {
        assert(text@.subrange(0, max_len - 1) =~= text@.take(max_len - 1));
        if max_len == 1 {
            assert(out@ =~= seq!['…']);
        }
    }
    out
}

/// `s` without trailing spaces.
pub open spec fn trim_end_spaces(s: Seq<char>) -> Seq<char>
    decreases s.len(),
{
    if s.len() > 0 && s.last() == ' ' {
        trim_end_spaces(s.drop_last())
    } else {
        s
    }
}

/// Row `y` of the canvas without trailing spaces.
pub open spec fn trimmed_row(c: &Canvas, y: int) -> Seq<char> {
    trim_end_spaces(c.row_text(y))
}

/// The number of leading rows up to and including the last row with content, among the first `n`.
pub open spec fn rows_with_content(c: &Canvas, n: int) -> int
    decreases n,
{
    if n <= 0 {
        0
    } else if trimmed_row(c, n - 1).len() > 0 {
        n
    } else {
        rows_with_content(c, n - 1)
    }
}

/// The first `n` trimmed rows, separated by newlines.
pub open spec fn trimmed_rows_text(c: &Canvas, n: int) -> Seq<char>
    decreases n,
{
    if n <= 0 {
        Seq::empty()
    } else if n == 1 {
        trimmed_row(c, 0)
    } else {
        trimmed_rows_text(c, n - 1).push('\n') + trimmed_row(c, n - 1)
    }
}

/// The canvas text with trailing spaces removed from each row and trailing empty rows dropped.
pub open spec fn trimmed_text(c: &Canvas) -> Seq<char> {
    trimmed_rows_text(c, rows_with_content(c, c.h()))
}

proof fn lemma_rows_with_content_bounds(c: &Canvas, n: int)
    ensures
        0 <= rows_with_content(c, n) <= if n < 0 { 0 } else { n },
    decreases n,
{
    if n > 0 {
        lemma_rows_with_content_bounds(c, n - 1);
    }
}

/// Whether the in-bounds cell `(x, y)` shows a space.
fn shows_space(c: &Canvas, x: usize, y: usize) -> (b: bool)
    requires
        c.in_bounds_spec(x as int, y as int),
    ensures
        b == (c.shown(x as int, y as int) == ' '),
{
    match c.get(x, y) {
        Ok(ch) => ch == ' ',
        Err(_) => false,
    }
}

/// Row `y` of the canvas, trimmed of trailing spaces.
fn trimmed_row_string(c: &Canvas, y: usize) -> (s: String)
    requires
        (y as int) < c.h(),
    ensures
        s@ == trimmed_row(c, y as int),
{
    let w = c.width();
    let mut end: usize = w;
    proof {
        assert(c.row_text(y as int).take(w as int) =~= c.row_text(y as int));
    }
    while end > 0 && shows_space(c, end - 1, y)
        invariant
            end <= w,
            w == c.w(),
            (y as int) < c.h(),
            trim_end_spaces(c.row_text(y as int)) == trim_end_spaces(c.row_text(y as int).take(end as int)),
        decreases end,
    {
        proof {
            let t = c.row_text(y as int).take(end as int);
            assert(t.drop_last() =~= c.row_text(y as int).take(end - 1));
        }
        end = end - 1;
    }
    let mut s = String::new();
    let mut x: usize = 0;
    while x < end
        invariant
            x <= end,
            end <= w,
            w == c.w(),
            (y as int) < c.h(),
            s@ == c.row_text(y as int).take(x as int),
        decreases end - x,
    {
        let ch = match c.get(x, y) {
            Ok(ch) => ch,
            Err(_) => ' ',
        };
        push_char(&mut s, ch);
        proof {
            assert(c.row_text(y as int).take(x + 1) =~= c.row_text(y as int).take(x as int).push(ch));
        }
        x = x + 1;
    }
    proof {
        let t = c.row_text(y as int).take(end as int);
        if end > 0 {
            assert(t.last() == c.row_text(y as int)[end - 1]);
        }
        assert(trim_end_spaces(t) == t);
    }
    s
}

/// The canvas as text, with trailing spaces removed from each row and trailing empty rows
/// dropped.
pub fn canvas_to_string_trimmed(canvas: &Canvas) -> (s: String)
    ensures
        s@ == trimmed_text(canvas),
{
    let h = canvas.height();
    let mut n: usize = h;
    proof {
        lemma_rows_with_content_bounds(canvas, h as int);
    }
    while n > 0 && trimmed_row_string(canvas, n - 1).as_str().unicode_len() == 0
        invariant
            n <= h,
            h == canvas.h(),
            rows_with_content(canvas, h as int) == rows_with_content(canvas, n as int),
        decreases n,
    {
        n = n - 1;
    }
    let mut out = String::new();
    let mut y: usize = 0;
    while y < n
        invariant
            y <= n,
            n <= h,
            h == canvas.h(),
            out@ == trimmed_rows_text(canvas, y as int),
        decreases n - y,
    {
        if y > 0 {
            push_char(&mut out, '\n');
        }
        let line = trimmed_row_string(canvas, y);
        out.append(line.as_str());
        proof {
            if y == 0 {
                assert(out@ =~= trimmed_rows_text(canvas, 1));
            } else {
                assert(out@ =~= trimmed_rows_text(canvas, y + 1));
            }
        }
        y = y + 1;
    }
    out
}

} // verus!
