//! Slash-separated paths: joining parts with `/` and splitting text back into its parts.

use vstd::prelude::*;

verus! {

/// Parts joined by `/` (no leading or trailing separator).
pub open spec fn join_slash(parts: Seq<Seq<char>>) -> Seq<char>
    decreases parts.len(),
{
    if parts.len() == 0 {
        Seq::empty()
    } else if parts.len() == 1 {
        parts[0]
    } else {
        parts[0] + seq!['/'] + join_slash(parts.drop_first())
    }
}

/// No part contains the separator.
pub open spec fn slash_free_parts(parts: Seq<Seq<char>>) -> bool {
    forall|i: int| 0 <= i < parts.len() ==> !(#[trigger] parts[i]).contains('/')
}

proof fn lemma_join_prefix(parts: Seq<Seq<char>>)
    requires
        parts.len() >= 1,
        slash_free_parts(parts),
    ensures
        join_slash(parts).len() >= parts[0].len(),
        forall|j: int| 0 <= j < parts[0].len() ==> #[trigger] join_slash(parts)[j] == parts[0][j],
        parts.len() > 1 ==> join_slash(parts).len() > parts[0].len() && join_slash(parts)[parts[0].len() as int] == '/',
        parts.len() == 1 ==> !join_slash(parts).contains('/'),
{
    assert(!parts[0].contains('/'));
}

/// A text has exactly one decomposition into slash-free parts.
pub proof fn lemma_join_slash_injective(p: Seq<Seq<char>>, q: Seq<Seq<char>>)
    requires
        p.len() >= 1,
        q.len() >= 1,
        slash_free_parts(p),
        slash_free_parts(q),
        join_slash(p) == join_slash(q),
    ensures
        p == q,
    decreases p.len(),
{
    lemma_join_prefix(p);
    lemma_join_prefix(q);
    let s = join_slash(p);
    let a = p[0].len() as int;
    let b = q[0].len() as int;
    assert(!p[0].contains('/'));
    assert(!q[0].contains('/'));
    if p.len() == 1 && q.len() > 1 {
        assert(s.contains('/')) by {
            assert(s[b] == '/');
        }
    } else if q.len() == 1 && p.len() > 1 {
        assert(s.contains('/')) by {
            assert(s[a] == '/');
        }
    } else if p.len() == 1 && q.len() == 1 {
        assert(p =~= q);
    } else {
        if a < b {
            assert(s[a] == q[0][a]);
            assert(q[0].contains('/'));
        } else if b < a {
            assert(s[b] == p[0][b]);
            assert(p[0].contains('/'));
        }
        assert(p[0] =~= q[0]) by {
            assert forall|j: int| 0 <= j < a implies p[0][j] == q[0][j] by {
                assert(s[j] == p[0][j]);
                assert(s[j] == q[0][j]);
            }
        }
        let rp = p.drop_first();
        let rq = q.drop_first();
        assert(join_slash(p) == p[0] + seq!['/'] + join_slash(rp));
        assert(join_slash(q) == q[0] + seq!['/'] + join_slash(rq));
        assert(join_slash(rp) =~= s.subrange(a + 1, s.len() as int));
        assert(join_slash(rq) =~= s.subrange(a + 1, s.len() as int));
        assert forall|i: int| 0 <= i < rp.len() implies !(#[trigger] rp[i]).contains('/') by {
            assert(rp[i] == p[i + 1]);
        }
        assert forall|i: int| 0 <= i < rq.len() implies !(#[trigger] rq[i]).contains('/') by {
            assert(rq[i] == q[i + 1]);
        }
        lemma_join_slash_injective(rp, rq);
        assert(p =~= seq![p[0]] + rp);
        assert(q =~= seq![q[0]] + rq);
    }
}

/// Splits `s` at every `/`; the parts are slash-free and join back to `s`.
pub fn split_slash(s: &str) -> (parts: Vec<String>)
    ensures
        parts@.len() >= 1,
        slash_free_parts(parts@.map_values(|p: String| p@)),
        join_slash(parts@.map_values(|p: String| p@)) == s@,
{
    let n = s.unicode_len();
    let mut parts: Vec<String> = Vec::new();
    let mut start: usize = 0;
    let mut i: usize = 0;
    while i < n
        invariant
            n == s@.len(),
            start <= i <= n,
            forall|j: int| start <= j < i ==> s@[j] != '/',
            slash_free_parts(parts@.map_values(|p: String| p@)),
            parts@.len() == 0 ==> start == 0,
            parts@.len() > 0 ==> start >= 1 && s@[start - 1] == '/' && join_slash(
                parts@.map_values(|p: String| p@),
            ) == s@.subrange(0, start - 1),
        decreases n - i,
    {
        if s.get_char(i) == '/' {
            let piece = String::from_str(s.substring_char(start, i));
            let ghost old_parts = parts@.map_values(|p: String| p@);
            parts.push(piece);
            proof {
                let np = parts@.map_values(|p: String| p@);
                assert(np =~= old_parts.push(s@.subrange(start as int, i as int)));
                assert forall|k: int| 0 <= k < np.len() implies !(#[trigger] np[k]).contains('/') by {
                    if k == np.len() - 1 {
                        if np[k].contains('/') {
                            let w = choose|w: int| 0 <= w < np[k].len() && np[k][w] == '/';
                            assert(s@[start + w] == '/');
                        }
                    } else {
                        assert(np[k] == old_parts[k]);
                    }
                }
                lemma_join_push(old_parts, s@.subrange(start as int, i as int));
                if old_parts.len() == 0 {
                    assert(join_slash(np) =~= s@.subrange(0, i as int));
                } else {
                    assert(join_slash(np) =~= s@.subrange(0, i as int));
                }
            }
            start = i + 1;
        }
        i = i + 1;
    }
    let piece = String::from_str(s.substring_char(start, n));
    let ghost old_parts = parts@.map_values(|p: String| p@);
    parts.push(piece);
    proof {
        let np = parts@.map_values(|p: String| p@);
        assert(np =~= old_parts.push(s@.subrange(start as int, n as int)));
        assert forall|k: int| 0 <= k < np.len() implies !(#[trigger] np[k]).contains('/') by {
            if k == np.len() - 1 {
                if np[k].contains('/') {
                    let w = choose|w: int| 0 <= w < np[k].len() && np[k][w] == '/';
                    assert(s@[start + w] == '/');
                }
            } else {
                assert(np[k] == old_parts[k]);
            }
        }
        lemma_join_push(old_parts, s@.subrange(start as int, n as int));
        assert(join_slash(np) =~= s@);
    }
    parts
}

/// Joining after a push appends a separator and the new part.
pub proof fn lemma_join_push(parts: Seq<Seq<char>>, last: Seq<char>)
    ensures
        parts.len() == 0 ==> join_slash(parts.push(last)) == last,
        parts.len() > 0 ==> join_slash(parts.push(last)) == join_slash(parts) + seq!['/'] + last,
    decreases parts.len(),
{
    if parts.len() == 1 {
        assert(parts.push(last).drop_first() =~= seq![last]);
        assert(join_slash(seq![last]) == last);
        assert(join_slash(parts.push(last)) =~= join_slash(parts) + seq!['/'] + last);
    } else if parts.len() > 1 {
        lemma_join_push(parts.drop_first(), last);
        assert(parts.push(last).drop_first() =~= parts.drop_first().push(last));
        assert(join_slash(parts.push(last)) =~= join_slash(parts) + seq!['/'] + last);
    }
}

} // verus!
