//! Stable identifiers for diagrams, objects, cross-references and sessions.

use vstd::prelude::*;
use crate::order::{CmpResult, chars_lt, compare_str, lemma_chars_lt_irreflexive,
    lemma_chars_lt_transitive, lemma_chars_lt_total};
use crate::sorted_map::{Duplicate, OrdKey};

verus! {

/// Why a raw identifier or reference was rejected.
#[derive(Debug, Clone, Copy, PartialEq, Eq, Structural)]
pub enum IdError {
    /// The identifier (or a path segment) is empty.
    Empty,
    /// The identifier contains `/`, which separates the parts of an object reference.
    ContainsSlash,
    /// A reference does not have the `d:<diagram>/<category…>/<object>` shape.
    Malformed,
}

/// An identifier is valid when it is non-empty and free of `/`.
pub open spec fn valid_ident(s: Seq<char>) -> bool {
    s.len() > 0 && !s.contains('/')
}

/// Checks an identifier and reports the first problem.
pub fn check_ident(s: &str) -> (r: Result<(), IdError>)
    ensures
        r is Ok <==> valid_ident(s@),
        r == Err::<(), IdError>(IdError::Empty) <==> s@.len() == 0,
{
    let n = s.unicode_len();
    if n == 0 {
        return Err(IdError::Empty);
    }
    let mut i: usize = 0;
    while i < n
        invariant
            n == s@.len(),
            i <= n,
            forall|j: int| 0 <= j < i ==> s@[j] != '/',
        decreases n - i,
    {
        if s.get_char(i) == '/' {
            proof {
                assert(s@.contains('/'));
            }
            return Err(IdError::ContainsSlash);
        }
        i = i + 1;
    }
    Ok(())
}

/// A stable identifier (object, diagram, cross-reference or session id).
#[derive(Debug, Clone, PartialEq, Eq, PartialOrd, Ord, Hash)]
pub struct ObjectId {
    value: String,
}

/// Identifier of a diagram within a session.
pub type DiagramId = ObjectId;

/// Identifier of a cross-reference within a session.
pub type XRefId = ObjectId;

/// Identifier of a session.
pub type SessionId = ObjectId;

/// Identifier of a walkthrough.
pub type WalkthroughId = ObjectId;

/// Identifier of a walkthrough node.
pub type WalkthroughNodeId = ObjectId;

impl View for ObjectId {
    type V = Seq<char>;

    closed spec fn view(&self) -> Seq<char> {
        self.value@
    }
}

impl ObjectId {
    /// Creates an identifier; rejects empty text and text containing `/`.
    pub fn new(value: &str) -> (r: Result<ObjectId, IdError>)
        ensures
            r is Ok <==> valid_ident(value@),
            r matches Ok(id) ==> id@ == value@,
            value@.len() == 0 ==> r == Err::<ObjectId, IdError>(IdError::Empty),
    {
        match check_ident(value) {
            Ok(()) => Ok(ObjectId { value: String::from_str(value) }),
            Err(e) => Err(e),
        }
    }

    pub fn as_str(&self) -> (s: &str)
        ensures
            s@ == self@,
    {
        self.value.as_str()
    }

    /// Equality of identifiers by their text.
    pub fn same_as(&self, other: &ObjectId) -> (b: bool)
        ensures
            b <==> self@ == other@,
    {
        match compare_str(self.value.as_str(), other.value.as_str()) {
            CmpResult::Equal => true,
            _ => false,
        }
    }

    /// The identifier's text as an owned string.
    pub fn to_string(&self) -> (s: String)
        ensures
            s@ == self@,
    {
        self.value.clone()
    }
}

impl Duplicate for ObjectId {
    fn duplicate(&self) -> (r: Self) {
        ObjectId { value: self.value.clone() }
    }
}

impl OrdKey for ObjectId {
    open spec fn key_lt(a: Seq<char>, b: Seq<char>) -> bool {
        chars_lt(a, b)
    }

    proof fn lemma_key_irreflexive(a: Seq<char>) {
        lemma_chars_lt_irreflexive(a);
    }

    proof fn lemma_key_transitive(a: Seq<char>, b: Seq<char>, c: Seq<char>) {
        lemma_chars_lt_transitive(a, b, c);
    }

    proof fn lemma_key_total(a: Seq<char>, b: Seq<char>) {
        lemma_chars_lt_total(a, b);
    }

    fn compare_key(&self, other: &Self) -> (c: CmpResult) {
        compare_str(self.value.as_str(), other.value.as_str())
    }

    fn key_dup(&self) -> (r: Self) {
        self.duplicate()
    }
}

} // verus!
