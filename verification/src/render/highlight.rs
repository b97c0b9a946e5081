//! Highlight indexes: for each object, the spans of rendered cells that show it.

use vstd::prelude::*;
use crate::model::object_ref::{ObjectRef, RefView};
use crate::sorted_map::{OrdKey, SortedMap};

verus! {

/// A run of highlighted cells on one line: `(y, x0, x1)`, both ends included.
pub type LineSpan = (usize, usize, usize);

/// For each object, the spans of rendered cells that show it.
pub type HighlightIndex = SortedMap<ObjectRef, Vec<LineSpan>>;

/// Rendered text with its highlight index.
pub struct AnnotatedRender {
    pub text: String,
    pub highlight_index: HighlightIndex,
}

/// The parts of `t` between `\n` characters, as `str::split('\n')` gives them (always at
/// least one).
pub open spec fn split_parts(t: Seq<char>) -> Seq<Seq<char>>
    decreases t.len(),
{
    if t.len() == 0 {
        seq![Seq::empty()]
    } else {
        let p = split_parts(t.drop_last());
        if t.last() == '\n' {
            p.push(Seq::empty())
        } else {
            p.update(p.len() - 1, p.last().push(t.last()))
        }
    }
}

proof fn lemma_split_parts_nonempty(t: Seq<char>)
    ensures
        split_parts(t).len() >= 1,
    decreases t.len(),
{
    if t.len() > 0 {
        lemma_split_parts_nonempty(t.drop_last());
    }
}

/// The length in characters of each line of `t`.
pub open spec fn line_lengths(t: Seq<char>) -> Seq<int> {
    split_parts(t).map_values(|l: Seq<char>| l.len() as int)
}

/// A span cut to the line it is on: gone when the line does not exist, is empty, or ends
/// before the span starts; otherwise its end is cut to the line's last cell.
pub open spec fn clamp_span(lens: Seq<int>, s: LineSpan) -> Option<LineSpan> {
    let (y, x0, x1) = s;
    if y >= lens.len() || lens[y as int] == 0 || x0 >= lens[y as int] {
        None
    } else {
        let end = if x1 > lens[y as int] - 1 { (lens[y as int] - 1) as usize } else { x1 };
        if x0 <= end {
            Some((y, x0, end))
        } else {
            None
        }
    }
}

/// The spans that remain after cutting each to its line, in order.
pub open spec fn clamp_spans(lens: Seq<int>, spans: Seq<LineSpan>) -> Seq<LineSpan>
    decreases spans.len(),
{
    if spans.len() == 0 {
        Seq::empty()
    } else {
        let rest = clamp_spans(lens, spans.drop_last());
        match clamp_span(lens, spans.last()) {
            Some(s) => rest.push(s),
            None => rest,
        }
    }
}

/// The length of each line of `t`.
fn line_lengths_of(t: &str) -> (r: Vec<usize>)
    ensures
        r@.map_values(|n: usize| n as int) == line_lengths(t@),
{
    let n = t.unicode_len();
    let mut r: Vec<usize> = Vec::new();
    r.push(0);
    let mut i: usize = 0;
    proof {
        assert(t@.take(0) =~= Seq::<char>::empty());
    }
    while i < n
        invariant
            n == t@.len(),
            i <= n,
            r@.len() == split_parts(t@.take(i as int)).len(),
            forall|j: int| 0 <= j < r@.len() ==> r@[j] == #[trigger] split_parts(t@.take(i as int))[j].len(),
            r@.len() >= 1,
            r@.last() <= i,
        decreases n - i,
    {
        let c = t.get_char(i);
        let ghost p = split_parts(t@.take(i as int));
        proof {
            assert(t@.take(i + 1).drop_last() =~= t@.take(i as int));
            assert(t@.take(i + 1).last() == c);
            assert(r@.last() == p.last().len());
        }
        if c == '\n' {
            r.push(0);
            proof {
                let q = split_parts(t@.take(i + 1));
                assert(q == p.push(Seq::empty()));
                assert forall|j: int| 0 <= j < r@.len() implies r@[j] == #[trigger] split_parts(t@.take(i + 1))[j].len() by {
                    if j < p.len() {
                        assert(q[j] == p[j]);
                    }
                }
            }
        } else {
            let last = r.len() - 1;
            let v = r[last];
            r.set(last, v + 1);
            proof {
                let q = split_parts(t@.take(i + 1));
                assert(q == p.update(p.len() - 1, p.last().push(c)));
                assert forall|j: int| 0 <= j < r@.len() implies r@[j] == #[trigger] split_parts(t@.take(i + 1))[j].len() by {
                    if j < p.len() - 1 {
                        assert(q[j] == p[j]);
                    }
                }
            }
        }
        i = i + 1;
    }
    proof {
        assert(t@.take(n as int) =~= t@);
        assert(r@.map_values(|k: usize| k as int) =~= line_lengths(t@));
    }
    r
}

/// Cuts one span to the line it is on (see `clamp_span`).
fn clamp_one(lens: &Vec<usize>, s: LineSpan) -> (r: Option<LineSpan>)
    ensures
        r == clamp_span(lens@.map_values(|n: usize| n as int), s),
{
    let (y, x0, x1) = s;
    if y >= lens.len() {
        return None;
    }
    let len = lens[y];
    if len == 0 || x0 >= len {
        return None;
    }
    let end = if x1 > len - 1 { len - 1 } else { x1 };
    if x0 <= end {
        Some((y, x0, end))
    } else {
        None
    }
}

/// Drops the spans that fall outside the lines of `text` and cuts the others to their lines;
/// objects left without spans are dropped.
pub fn clamp_highlight_index_to_text(highlight_index: &mut HighlightIndex, text: &str)
    ensures
        forall|k: RefView| #[trigger] final(highlight_index)@.contains_key(k) <==> old(highlight_index)@.contains_key(k)
            && clamp_spans(line_lengths(text@), old(highlight_index)@[k]@).len() > 0,
        forall|k: RefView| #[trigger] final(highlight_index)@.contains_key(k) ==> final(highlight_index)@[k]@
            == clamp_spans(line_lengths(text@), old(highlight_index)@[k]@),
{
    let lens = line_lengths_of(text);
    let ghost lv = line_lengths(text@);
    let mut out: HighlightIndex = SortedMap::new();
    proof {
        use_type_invariant(&*highlight_index);
        highlight_index.lemma_shape();
        assert forall|a: int, b: int| 0 <= a < b < highlight_index.keys_seq().len() implies #[trigger] highlight_index.keys_seq()[a] != #[trigger] highlight_index.keys_seq()[b] by {
            crate::sorted_map::lemma_sorted_distinct::<ObjectRef>(highlight_index.keys_seq(), a, b);
        }
    }
    let n = highlight_index.len();
    let ghost ks = highlight_index.keys_seq();
    let ghost vs = highlight_index.vals_seq();
    let mut i: usize = 0;
    while i < n
        invariant
            lens@.map_values(|k: usize| k as int) == lv,
            ks == highlight_index.keys_seq(),
            vs == highlight_index.vals_seq(),
            n == ks.len(),
            n == vs.len(),
            i <= n,
            forall|j: int| 0 <= j < ks.len() ==> #[trigger] highlight_index@.contains_key(ks[j]) && highlight_index@[ks[j]] == vs[j],
            forall|k: RefView| #[trigger] highlight_index@.contains_key(k) <==> ks.contains(k),
            forall|a: int, b: int| 0 <= a < b < ks.len() ==> #[trigger] ks[a] != #[trigger] ks[b],
            forall|k: RefView| #[trigger] out@.contains_key(k) <==> ks.take(i as int).contains(k)
                && clamp_spans(lv, highlight_index@[k]@).len() > 0,
            forall|k: RefView| #[trigger] out@.contains_key(k) ==> out@[k]@ == clamp_spans(lv, highlight_index@[k]@),
        decreases n - i,
    {
        let spans = highlight_index.value_at(i);
        let mut kept: Vec<LineSpan> = Vec::new();
        let mut j: usize = 0;
        proof {
            assert(spans@.take(0) =~= Seq::<LineSpan>::empty());
        }
        while j < spans.len()
            invariant
                lens@.map_values(|k: usize| k as int) == lv,
                j <= spans@.len(),
                kept@ == clamp_spans(lv, spans@.take(j as int)),
            decreases spans@.len() - j,
        {
            let c = clamp_one(&lens, spans[j]);
            proof {
                assert(spans@.take(j + 1).drop_last() =~= spans@.take(j as int));
                assert(spans@.take(j + 1).last() == spans@[j as int]);
            }
            match c {
                Some(sp) => kept.push(sp),
                None => {},
            }
            j = j + 1;
        }
        proof {
            assert(spans@.take(j as int) =~= spans@);
            assert(ks.take(i + 1) =~= ks.take(i as int).push(ks[i as int]));
        }
        let ghost kv = ks[i as int];
        let ghost old_out = out@;
        proof {
            assert(highlight_index@[kv] == vs[i as int]);
            assert(*spans == vs[i as int]);
            assert(!ks.take(i as int).contains(kv)) by {
                if ks.take(i as int).contains(kv) {
                    let q = choose|q: int| 0 <= q < i && #[trigger] ks.take(i as int)[q] == kv;
                    assert(ks[q] == ks[i as int]);
                }
            }
        }
        if kept.len() > 0 {
            out.insert(highlight_index.key_at(i).key_dup(), kept);
        }
        proof {
            assert forall|k: RefView| #[trigger] out@.contains_key(k) <==> ks.take(i + 1).contains(k)
                && clamp_spans(lv, highlight_index@[k]@).len() > 0 by {
                if k == kv {
                    assert(ks.take(i + 1)[i as int] == kv);
                } else {
                    assert(out@.contains_key(k) == old_out.contains_key(k));
                    if ks.take(i as int).contains(k) {
                        let q = choose|q: int| 0 <= q < i && #[trigger] ks.take(i as int)[q] == k;
                        assert(ks.take(i + 1)[q] == k);
                    }
                    if ks.take(i + 1).contains(k) {
                        let q = choose|q: int| 0 <= q < i + 1 && #[trigger] ks.take(i + 1)[q] == k;
                        assert(q != i);
                        assert(ks.take(i as int)[q] == k);
                    }
                }
            }
            assert forall|k: RefView| #[trigger] out@.contains_key(k) implies out@[k]@ == clamp_spans(lv, highlight_index@[k]@) by {
                if k != kv {
                    assert(old_out.contains_key(k));
                }
            }
        }
        i = i + 1;
    }
    proof {
        assert(ks.take(n as int) =~= ks);
    }
    *highlight_index = out;
}

} // verus!
