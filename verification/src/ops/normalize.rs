//! Canonical forms of message arrows and edge connectors as stored in the AST.

use vstd::prelude::*;
use crate::chars::{contains_char, trim};
use crate::model::flow_ast::opt_view;
use crate::model::seq_ast::SequenceMessageKind;
use crate::order::{CmpResult, compare_str};
use super::spec::{canonical_arrow, flip_left_connector, norm_arrow, norm_connector, remove_char};

verus! {

/// Whether two strings hold the same characters.
pub fn same_text(a: &str, b: &str) -> (r: bool)
    ensures
        r == (a@ == b@),
{
    match compare_str(a, b) {
        CmpResult::Equal => true,
        _ => false,
    }
}

/// The default arrow of a message kind.
fn canonical_arrow_str(kind: SequenceMessageKind) -> (s: &'static str)
    ensures
        s@ == canonical_arrow(kind),
{
    match kind {
        SequenceMessageKind::Sync => {
            proof {
                reveal_strlit("->>");
            }
            "->>"
        },
        SequenceMessageKind::Async => {
            proof {
                reveal_strlit("-)");
            }
            "-)"
        },
        SequenceMessageKind::Return => {
            proof {
                reveal_strlit("-->>");
            }
            "-->>"
        },
    }
}

/// Keeps a message arrow only when, trimmed, it is non-empty and not the kind's default.
pub fn normalize_seq_raw_arrow(kind: SequenceMessageKind, raw_arrow: Option<String>) -> (r: Option<String>)
    ensures
        opt_view(r) == norm_arrow(kind, opt_view(raw_arrow)),
{
    match raw_arrow {
        None => None,
        Some(a) => {
            let t = trim(a.as_str());
            if t.as_str().unicode_len() == 0 {
                None
            } else if same_text(t.as_str(), canonical_arrow_str(kind)) {
                None
            } else {
                Some(t)
            }
        },
    }
}

/// `t` without any `<`.
fn without_left_marks(t: &str) -> (r: String)
    ensures
        r@ == remove_char(t@, '<'),
{
    let n = t.unicode_len();
    let mut out = String::new();
    let mut i: usize = 0;
    proof {
        assert(t@.take(0) =~= Seq::<char>::empty());
    }
    while i < n
        invariant
            n == t@.len(),
            i <= n,
            out@ == remove_char(t@.take(i as int), '<'),
        decreases n - i,
    {
        let c = t.get_char(i);
        proof {
            let s1 = t@.take(i + 1);
            assert(s1.drop_last() =~= t@.take(i as int));
            assert(s1.last() == c);
        }
        if c != '<' {
            let piece = t.substring_char(i, i + 1);
            proof {
                assert(piece@ =~= seq![c]);
            }
            out.append(piece);
            proof {
                assert(out@ =~= remove_char(t@.take(i as int), '<').push(c));
            }
        }
        i = i + 1;
    }
    proof {
        assert(t@.take(n as int) =~= t@);
    }
    out
}

/// A connector written only with left arrow marks, turned around to point right.
fn flip_connector(t: &str) -> (r: String)
    ensures
        r@ == flip_left_connector(t@),
{
    let core = without_left_marks(t);
    let m = core.as_str().unicode_len();
    proof {
        reveal_strlit(">");
    }
    if m > 0 && (core.as_str().get_char(m - 1) == 'o' || core.as_str().get_char(m - 1) == 'x') {
        let mut out = String::from_str(core.as_str().substring_char(0, m - 1));
        out.append(">");
        out.append(core.as_str().substring_char(m - 1, m));
        proof {
            let rs = core@;
            assert(rs.subrange(0, m - 1) =~= rs.drop_last());
            assert(rs.subrange(m - 1, m as int) =~= seq![rs.last()]);
            assert(out@ =~= rs.drop_last().push('>').push(rs.last()));
        }
        out
    } else {
        let ghost c0 = core@;
        let mut out = core;
        out.append(">");
        proof {
            assert(out@ =~= c0.push('>'));
        }
        out
    }
}

/// Keeps an edge connector only when, trimmed and turned to point right, it is not the
/// default `-->`.
pub fn normalize_flow_connector(raw_connector: Option<String>) -> (r: Option<String>)
    ensures
        opt_view(r) == norm_connector(opt_view(raw_connector)),
{
    match raw_connector {
        None => None,
        Some(a) => {
            let t = trim(a.as_str());
            if t.as_str().unicode_len() == 0 {
                return None;
            }
            let u = if contains_char(t.as_str(), '<') && !contains_char(t.as_str(), '>') {
                flip_connector(t.as_str())
            } else {
                t
            };
            proof {
                reveal_strlit("-->");
            }
            if same_text(u.as_str(), "-->") {
                None
            } else {
                Some(u)
            }
        },
    }
}

} // verus!
