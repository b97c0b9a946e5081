//! Character classes, trimming, and the Mermaid identifier rules.

use vstd::prelude::*;

verus! {

/// Unicode `White_Space` (the set `char::is_whitespace` tests).
pub open spec fn is_ws(c: char) -> bool {
    let u = c as u32;
    (0x09 <= u <= 0x0d) || u == 0x20 || u == 0x85 || u == 0xa0 || u == 0x1680 || (0x2000 <= u
        <= 0x200a) || u == 0x2028 || u == 0x2029 || u == 0x202f || u == 0x205f || u == 0x3000
}

pub fn is_whitespace(c: char) -> (b: bool)
    ensures
        b == is_ws(c),
{
    let u = c as u32;
    (0x09 <= u && u <= 0x0d) || u == 0x20 || u == 0x85 || u == 0xa0 || u == 0x1680 || (0x2000 <= u
        && u <= 0x200a) || u == 0x2028 || u == 0x2029 || u == 0x202f || u == 0x205f || u == 0x3000
}

/// ASCII letter or digit.
pub open spec fn is_ascii_alnum(c: char) -> bool {
    ('0' <= c <= '9') || ('a' <= c <= 'z') || ('A' <= c <= 'Z')
}

/// `s` without leading whitespace.
pub open spec fn strip_front(s: Seq<char>) -> Seq<char>
    decreases s.len(),
{
    if s.len() > 0 && is_ws(s[0]) {
        strip_front(s.drop_first())
    } else {
        s
    }
}

/// `s` without trailing whitespace.
pub open spec fn strip_back(s: Seq<char>) -> Seq<char>
    decreases s.len(),
{
    if s.len() > 0 && is_ws(s.last()) {
        strip_back(s.drop_last())
    } else {
        s
    }
}

/// `s` without leading and trailing whitespace.
pub open spec fn trimmed(s: Seq<char>) -> Seq<char> {
    strip_back(strip_front(s))
}

/// Every character is whitespace.
pub open spec fn all_ws(s: Seq<char>) -> bool {
    forall|i: int| 0 <= i < s.len() ==> is_ws(#[trigger] s[i])
}

proof fn lemma_strip_front_skip(s: Seq<char>, i: int)
    requires
        0 <= i <= s.len(),
        all_ws(s.take(i)),
    ensures
        strip_front(s) == strip_front(s.skip(i)),
    decreases i,
{
    if i > 0 {
        assert(s.take(i)[0] == s[0]);
        assert(s.drop_first().take(i - 1) =~= s.take(i).drop_first());
        assert(all_ws(s.drop_first().take(i - 1))) by {
            assert forall|j: int| 0 <= j < i - 1 implies is_ws(#[trigger] s.drop_first().take(i - 1)[j]) by {
                assert(s.take(i)[j + 1] == s.drop_first().take(i - 1)[j]);
            }
        }
        lemma_strip_front_skip(s.drop_first(), i - 1);
        assert(s.drop_first().skip(i - 1) =~= s.skip(i));
    } else {
        assert(s.skip(0) =~= s);
    }
}

proof fn lemma_strip_back_take(s: Seq<char>, j: int)
    requires
        0 <= j <= s.len(),
        all_ws(s.skip(j)),
    ensures
        strip_back(s) == strip_back(s.take(j)),
    decreases s.len() - j,
{
    if j < s.len() {
        assert(s.skip(j)[s.len() - 1 - j] == s.last());
        assert(s.drop_last().skip(j) =~= s.skip(j).drop_last());
        assert(all_ws(s.drop_last().skip(j))) by {
            assert forall|k: int| 0 <= k < s.drop_last().skip(j).len() implies is_ws(#[trigger] s.drop_last().skip(j)[k]) by {
                assert(s.skip(j)[k] == s.drop_last().skip(j)[k]);
            }
        }
        lemma_strip_back_take(s.drop_last(), j);
        assert(s.drop_last().take(j) =~= s.take(j));
    } else {
        assert(s.take(j) =~= s);
    }
}

/// Removes leading and trailing whitespace.
pub fn trim(s: &str) -> (r: String)
    ensures
        r@ == trimmed(s@),
{
    let n = s.unicode_len();
    let mut a: usize = 0;
    while a < n && is_whitespace(s.get_char(a))
        invariant
            n == s@.len(),
            a <= n,
            all_ws(s@.take(a as int)),
        decreases n - a,
    {
        proof {
            assert(s@.take(a + 1) =~= s@.take(a as int).push(s@[a as int]));
        }
        a = a + 1;
    }
    proof {
        lemma_strip_front_skip(s@, a as int);
        if a < n {
            assert(s@.skip(a as int)[0] == s@[a as int]);
        }
        assert(strip_front(s@.skip(a as int)) == s@.skip(a as int));
    }
    let mut b: usize = n;
    let ghost f = s@.skip(a as int);
    while b > a && is_whitespace(s.get_char(b - 1))
        invariant
            n == s@.len(),
            a <= b <= n,
            f == s@.skip(a as int),
            all_ws(f.skip(b - a)),
        decreases b,
    {
        proof {
            assert(f.skip(b - a - 1) =~= seq![s@[b - 1]] + f.skip(b - a));
        }
        b = b - 1;
    }
    proof {
        lemma_strip_back_take(f, b - a);
        let g = f.take(b - a);
        if b > a {
            assert(g.last() == s@[b - 1]);
        }
        assert(strip_back(g) == g);
        assert(g =~= s@.subrange(a as int, b as int));
    }
    String::from_str(s.substring_char(a, b))
}

/// Trimming leaves nothing exactly when every character is whitespace.
pub proof fn lemma_trimmed_empty(s: Seq<char>)
    ensures
        trimmed(s).len() == 0 <==> all_ws(s),
    decreases s.len(),
{
    if s.len() > 0 {
        if is_ws(s[0]) {
            lemma_trimmed_empty(s.drop_first());
            if all_ws(s.drop_first()) {
                assert forall|i: int| 0 <= i < s.len() implies is_ws(#[trigger] s[i]) by {
                    if i > 0 {
                        assert(s.drop_first()[i - 1] == s[i]);
                    }
                }
            }
            if all_ws(s) {
                assert forall|i: int| 0 <= i < s.drop_first().len() implies is_ws(#[trigger] s.drop_first()[i]) by {
                    assert(s[i + 1] == s.drop_first()[i]);
                }
            }
        } else {
            lemma_strip_back_nonempty(s);
        }
    }
}

proof fn lemma_strip_back_nonempty(s: Seq<char>)
    requires
        s.len() > 0,
        !is_ws(s[0]),
    ensures
        strip_back(s).len() > 0,
    decreases s.len(),
{
    if is_ws(s.last()) {
        assert(s.len() > 1);
        assert(s.drop_last()[0] == s[0]);
        lemma_strip_back_nonempty(s.drop_last());
    }
}

/// Whether every character is whitespace.
pub fn is_blank(s: &str) -> (b: bool)
    ensures
        b == all_ws(s@),
{
    let n = s.unicode_len();
    let mut i: usize = 0;
    while i < n
        invariant
            n == s@.len(),
            i <= n,
            forall|j: int| 0 <= j < i ==> is_ws(#[trigger] s@[j]),
        decreases n - i,
    {
        if !is_whitespace(s.get_char(i)) {
            return false;
        }
        i = i + 1;
    }
    true
}

/// Whether `s` contains the character `c`.
pub fn contains_char(s: &str, c: char) -> (b: bool)
    ensures
        b == s@.contains(c),
{
    let n = s.unicode_len();
    let mut i: usize = 0;
    while i < n
        invariant
            n == s@.len(),
            i <= n,
            forall|j: int| 0 <= j < i ==> s@[j] != c,
        decreases n - i,
    {
        if s.get_char(i) == c {
            proof {
                assert(s@[i as int] == c);
            }
            return true;
        }
        i = i + 1;
    }
    false
}

/// Why text is not a valid Mermaid identifier.
#[derive(Debug, Clone, Copy, PartialEq, Eq, Structural)]
pub enum MermaidIdentError {
    Empty,
    ContainsWhitespace,
    ContainsSlash,
    InvalidChar { ch: char },
}

/// The first character that is neither an ASCII letter or digit nor `_`.
pub open spec fn first_invalid_ident_char(s: Seq<char>) -> Option<char>
    decreases s.len(),
{
    if s.len() == 0 {
        None
    } else if !is_ascii_alnum(s[0]) && s[0] != '_' {
        Some(s[0])
    } else {
        first_invalid_ident_char(s.drop_first())
    }
}

/// The Mermaid identifier rules, checked in order: non-empty, no whitespace, no `/`,
/// only ASCII letters, digits and `_`.
pub open spec fn mermaid_ident_problem(s: Seq<char>) -> Option<MermaidIdentError> {
    if s.len() == 0 {
        Some(MermaidIdentError::Empty)
    } else if exists|i: int| 0 <= i < s.len() && is_ws(#[trigger] s[i]) {
        Some(MermaidIdentError::ContainsWhitespace)
    } else if s.contains('/') {
        Some(MermaidIdentError::ContainsSlash)
    } else {
        match first_invalid_ident_char(s) {
            Some(ch) => Some(MermaidIdentError::InvalidChar { ch }),
            None => None,
        }
    }
}

proof fn lemma_first_invalid_skip(s: Seq<char>, i: int)
    requires
        0 <= i <= s.len(),
        forall|j: int| 0 <= j < i ==> is_ascii_alnum(#[trigger] s[j]) || s[j] == '_',
    ensures
        first_invalid_ident_char(s) == first_invalid_ident_char(s.skip(i)),
    decreases i,
{
    if i > 0 {
        assert forall|j: int| 0 <= j < i - 1 implies is_ascii_alnum(#[trigger] s.drop_first()[j]) || s.drop_first()[j] == '_' by {
            assert(s.drop_first()[j] == s[j + 1]);
        }
        lemma_first_invalid_skip(s.drop_first(), i - 1);
        assert(s.drop_first().skip(i - 1) =~= s.skip(i));
    } else {
        assert(s.skip(0) =~= s);
    }
}

/// Checks text against the Mermaid identifier rules.
pub fn check_mermaid_ident(s: &str) -> (r: Result<(), MermaidIdentError>)
    ensures
        r is Ok <==> mermaid_ident_problem(s@) is None,
        r matches Err(e) ==> mermaid_ident_problem(s@) == Some(e),
{
    let n = s.unicode_len();
    if n == 0 {
        return Err(MermaidIdentError::Empty);
    }
    let mut i: usize = 0;
    while i < n
        invariant
            n == s@.len(),
            i <= n,
            forall|j: int| 0 <= j < i ==> !is_ws(#[trigger] s@[j]),
        decreases n - i,
    {
        if is_whitespace(s.get_char(i)) {
            return Err(MermaidIdentError::ContainsWhitespace);
        }
        i = i + 1;
    }
    if contains_char(s, '/') {
        return Err(MermaidIdentError::ContainsSlash);
    }
    let mut i: usize = 0;
    while i < n
        invariant
            n == s@.len(),
            i <= n,
            forall|j: int| 0 <= j < i ==> is_ascii_alnum(#[trigger] s@[j]) || s@[j] == '_',
            forall|j: int| 0 <= j < n ==> !is_ws(#[trigger] s@[j]),
            !s@.contains('/'),
        decreases n - i,
    {
        let c = s.get_char(i);
        if !(('0' <= c && c <= '9') || ('a' <= c && c <= 'z') || ('A' <= c && c <= 'Z') || c == '_') {
            proof {
                lemma_first_invalid_skip(s@, i as int);
                assert(s@.skip(i as int)[0] == c);
            }
            return Err(MermaidIdentError::InvalidChar { ch: c });
        }
        i = i + 1;
    }
    proof {
        lemma_first_invalid_skip(s@, n as int);
    }
    Ok(())
}

/// `String::push`.
///
/// Trusted: the character is appended.
#[verifier::external_body]
pub(crate) fn push_char(s: &mut String, c: char)
    ensures
        final(s)@ == old(s)@.push(c),
{
    s.push(c);
}

/// `needle` occurs in `haystack` as a contiguous run of characters.
pub open spec fn contains_seq(haystack: Seq<char>, needle: Seq<char>) -> bool {
    exists|i: int| 0 <= i && i + needle.len() <= haystack.len() && #[trigger] haystack.subrange(i, i + needle.len()) == needle
}

/// Whether `needle` occurs in `haystack` starting at character `i`.
fn occurs_at(haystack: &str, needle: &str, i: usize) -> (b: bool)
    requires
        i + needle@.len() <= haystack@.len(),
    ensures
        b == (haystack@.subrange(i as int, i + needle@.len()) == needle@),
{
    let n = needle.unicode_len();
    let h = haystack.unicode_len();
    let mut j: usize = 0;
    while j < n
        invariant
            n == needle@.len(),
            h == haystack@.len(),
            i + n <= haystack@.len(),
            j <= n,
            haystack@.subrange(i as int, i + j) =~= needle@.take(j as int),
        decreases n - j,
    {
        if haystack.get_char(i + j) != needle.get_char(j) {
            proof {
                assert(haystack@.subrange(i as int, i + n)[j as int] == haystack@[i + j]);
            }
            return false;
        }
        proof {
            assert(haystack@.subrange(i as int, i + j + 1) =~= haystack@.subrange(i as int, i + j).push(haystack@[i + j]));
            assert(needle@.take(j + 1) =~= needle@.take(j as int).push(needle@[j as int]));
        }
        j = j + 1;
    }
    proof {
        assert(needle@.take(n as int) =~= needle@);
    }
    true
}

/// Whether `needle` occurs in `haystack` (an empty needle occurs in every text).
pub fn contains_text(haystack: &str, needle: &str) -> (b: bool)
    ensures
        b == contains_seq(haystack@, needle@),
{
    let h = haystack.unicode_len();
    let n = needle.unicode_len();
    if n > h {
        return false;
    }
    let mut i: usize = 0;
    loop
        invariant
            h == haystack@.len(),
            n == needle@.len(),
            n <= h,
            i <= h - n,
            forall|k: int| 0 <= k < i ==> #[trigger] haystack@.subrange(k, k + n) != needle@,
        decreases h - n - i,
    {
        if occurs_at(haystack, needle, i) {
            return true;
        }
        if i == h - n {
            return false;
        }
        i = i + 1;
    }
}

/// ASCII lowercase of one character (other characters are kept).
pub open spec fn ascii_lower(c: char) -> char {
    if 'A' <= c && c <= 'Z' {
        (((c as u32) + 32) as u8) as char
    } else {
        c
    }
}

/// ASCII lowercase of a text.
pub open spec fn ascii_lowercase(s: Seq<char>) -> Seq<char> {
    s.map_values(|c: char| ascii_lower(c))
}

/// The text with ASCII letters lowercased (as `str::to_ascii_lowercase`).
pub fn to_ascii_lowercase(s: &str) -> (r: String)
    ensures
        r@ == ascii_lowercase(s@),
{
    let n = s.unicode_len();
    let mut out = String::new();
    let mut i: usize = 0;
    while i < n
        invariant
            n == s@.len(),
            i <= n,
            out@ == ascii_lowercase(s@.take(i as int)),
        decreases n - i,
    {
        let c = s.get_char(i);
        let l = if 'A' <= c && c <= 'Z' {
            (((c as u32) + 32) as u8) as char
        } else {
            c
        };
        push_char(&mut out, l);
        proof {
            assert(ascii_lowercase(s@.take(i + 1)) =~= ascii_lowercase(s@.take(i as int)).push(l));
        }
        i = i + 1;
    }
    proof {
        assert(s@.take(n as int) =~= s@);
    }
    out
}

} // verus!
