//! Object references: `d:<diagram>/<category segments…>/<object>`.

use vstd::prelude::*;
use crate::order::{CmpResult, chars_lt, compare_str, lemma_chars_lt_irreflexive,
    lemma_chars_lt_transitive, lemma_chars_lt_total, lemma_chars_lt_asymmetric};
use crate::sorted_map::{Duplicate, OrdKey};
use super::ids::{DiagramId, IdError, ObjectId, check_ident, valid_ident};
use super::text_path::{join_slash, slash_free_parts, split_slash, lemma_join_slash_injective,
    lemma_join_push};

verus! {

/// Strict lexicographic order on sequences of segments, segments ordered by `chars_lt`.
pub open spec fn segs_lt(a: Seq<Seq<char>>, b: Seq<Seq<char>>) -> bool
    decreases a.len(),
{
    if a.len() == 0 {
        b.len() > 0
    } else if b.len() == 0 {
        false
    } else if a[0] != b[0] {
        chars_lt(a[0], b[0])
    } else {
        segs_lt(a.drop_first(), b.drop_first())
    }
}

pub proof fn lemma_segs_lt_irreflexive(a: Seq<Seq<char>>)
    ensures
        !segs_lt(a, a),
    decreases a.len(),
{
    if a.len() > 0 {
        lemma_segs_lt_irreflexive(a.drop_first());
    }
}

pub proof fn lemma_segs_lt_transitive(a: Seq<Seq<char>>, b: Seq<Seq<char>>, c: Seq<Seq<char>>)
    requires
        segs_lt(a, b),
        segs_lt(b, c),
    ensures
        segs_lt(a, c),
    decreases a.len(),
{
    if a.len() > 0 && b.len() > 0 && c.len() > 0 {
        if a[0] == b[0] && b[0] == c[0] {
            lemma_segs_lt_transitive(a.drop_first(), b.drop_first(), c.drop_first());
        } else if a[0] != b[0] && b[0] != c[0] {
            lemma_chars_lt_transitive(a[0], b[0], c[0]);
            if a[0] == c[0] {
                lemma_chars_lt_asymmetric(a[0], b[0]);
            }
        } else if a[0] != b[0] {
            assert(b[0] == c[0]);
        }
    }
}

pub proof fn lemma_segs_lt_total(a: Seq<Seq<char>>, b: Seq<Seq<char>>)
    ensures
        a == b || segs_lt(a, b) || segs_lt(b, a),
    decreases a.len(),
{
    if a.len() > 0 && b.len() > 0 {
        if a[0] == b[0] {
            lemma_segs_lt_total(a.drop_first(), b.drop_first());
            if a.drop_first() == b.drop_first() {
                assert(a =~= seq![a[0]] + a.drop_first());
                assert(b =~= seq![b[0]] + b.drop_first());
            }
        } else {
            lemma_chars_lt_total(a[0], b[0]);
        }
    } else if a.len() == 0 && b.len() == 0 {
        assert(a =~= b);
    }
}

/// The view of a reference: diagram id, category segments, object id.
pub type RefView = (Seq<char>, Seq<Seq<char>>, Seq<char>);

/// References order by diagram id, then category, then object id.
pub open spec fn ref_lt(a: RefView, b: RefView) -> bool {
    ||| chars_lt(a.0, b.0)
    ||| (a.0 == b.0 && segs_lt(a.1, b.1))
    ||| (a.0 == b.0 && a.1 == b.1 && chars_lt(a.2, b.2))
}

/// A valid category: at least one segment, each a valid identifier.
pub open spec fn valid_category(segs: Seq<Seq<char>>) -> bool {
    segs.len() >= 1 && forall|i: int| 0 <= i < segs.len() ==> valid_ident(#[trigger] segs[i])
}

/// The canonical text of a reference.
pub open spec fn ref_text(v: RefView) -> Seq<char> {
    seq!['d', ':'] + v.0 + seq!['/'] + join_slash(v.1) + seq!['/'] + v.2
}

/// A category path such as `flow/node` or `seq/message`.
#[derive(Debug, Clone, PartialEq, Eq, PartialOrd, Ord, Hash)]
pub struct CategoryPath {
    segments: Vec<String>,
}

impl View for CategoryPath {
    type V = Seq<Seq<char>>;

    closed spec fn view(&self) -> Seq<Seq<char>> {
        self.segments@.map_values(|s: String| s@)
    }
}

impl CategoryPath {
    /// Creates a category from its segments; each must be a valid identifier.
    pub fn new(segments: Vec<String>) -> (r: Result<CategoryPath, IdError>)
        ensures
            r is Ok <==> valid_category(segments@.map_values(|s: String| s@)),
            r matches Ok(c) ==> c@ == segments@.map_values(|s: String| s@),
    {
        let ghost sv = segments@.map_values(|s: String| s@);
        if segments.len() == 0 {
            return Err(IdError::Malformed);
        }
        let mut i: usize = 0;
        while i < segments.len()
            invariant
                sv == segments@.map_values(|s: String| s@),
                i <= segments@.len(),
                forall|j: int| 0 <= j < i ==> valid_ident(#[trigger] sv[j]),
            decreases segments@.len() - i,
        {
            match check_ident(segments[i].as_str()) {
                Ok(()) => {},
                Err(e) => {
                    proof {
                        assert(!valid_ident(sv[i as int]));
                    }
                    return Err(e);
                },
            }
            i = i + 1;
        }
        Ok(CategoryPath { segments })
    }

    /// The two-segment category `a/b`.
    pub fn pair(a: &str, b: &str) -> (c: CategoryPath)
        requires
            valid_ident(a@),
            valid_ident(b@),
        ensures
            c@ == seq![a@, b@],
            valid_category(c@),
    {
        let mut segments: Vec<String> = Vec::new();
        segments.push(String::from_str(a));
        segments.push(String::from_str(b));
        let c = CategoryPath { segments };
        proof {
            assert(c@ =~= seq![a@, b@]);
        }
        c
    }

    pub fn segments(&self) -> (s: &Vec<String>)
        ensures
            s@.map_values(|x: String| x@) == self@,
    {
        &self.segments
    }

    /// The segments joined by `/`.
    pub fn to_string(&self) -> (s: String)
        ensures
            s@ == join_slash(self@),
    {
        if self.segments.len() == 0 {
            return String::new();
        }
        let mut s = self.segments[0].clone();
        let mut i: usize = 1;
        proof {
            assert(self@.take(1) =~= seq![self@[0]]);
        }
        while i < self.segments.len()
            invariant
                1 <= i <= self@.len(),
                self@.len() == self.segments@.len(),
                s@ == join_slash(self@.take(i as int)),
            decreases self@.len() - i,
        {
            s.append("/");
            s.append(self.segments[i].as_str());
            proof {
                reveal_strlit("/");
                lemma_join_push(self@.take(i as int), self@[i as int]);
                assert(self@.take(i + 1) =~= self@.take(i as int).push(self@[i as int]));
            }
            i = i + 1;
        }
        proof {
            assert(self@.take(i as int) =~= self@);
        }
        s
    }

    fn compare(&self, other: &CategoryPath) -> (c: CmpResult)
        ensures
            c == CmpResult::Less <==> segs_lt(self@, other@),
            c == CmpResult::Equal <==> self@ == other@,
            c == CmpResult::Greater <==> segs_lt(other@, self@),
    {
        let la = self.segments.len();
        let lb = other.segments.len();
        let mut i: usize = 0;
        let ghost a = self@;
        let ghost b = other@;
        proof {
            assert(a.skip(0) =~= a);
            assert(b.skip(0) =~= b);
        }
        while i < la && i < lb
            invariant
                la == a.len(),
                lb == b.len(),
                a == self@,
                b == other@,
                i <= la,
                i <= lb,
                a.take(i as int) =~= b.take(i as int),
                segs_lt(a, b) == segs_lt(a.skip(i as int), b.skip(i as int)),
                segs_lt(b, a) == segs_lt(b.skip(i as int), a.skip(i as int)),
            decreases la - i,
        {
            let c = compare_str(self.segments[i].as_str(), other.segments[i].as_str());
            assert(a.skip(i as int)[0] == a[i as int]);
            assert(b.skip(i as int)[0] == b[i as int]);
            match c {
                CmpResult::Equal => {
                    proof {
                        assert(a.skip(i as int).drop_first() =~= a.skip(i + 1));
                        assert(b.skip(i as int).drop_first() =~= b.skip(i + 1));
                        assert(a.take(i + 1) =~= a.take(i as int).push(a[i as int]));
                        assert(b.take(i + 1) =~= b.take(i as int).push(b[i as int]));
                    }
                    i = i + 1;
                },
                CmpResult::Less => {
                    proof {
                        lemma_chars_lt_asymmetric(a[i as int], b[i as int]);
                        if a == b {
                            assert(a[i as int] == b[i as int]);
                        }
                    }
                    return CmpResult::Less;
                },
                CmpResult::Greater => {
                    proof {
                        lemma_chars_lt_asymmetric(b[i as int], a[i as int]);
                        if a == b {
                            assert(a[i as int] == b[i as int]);
                        }
                    }
                    return CmpResult::Greater;
                },
            }
        }
        if la == lb {
            proof {
                assert(a =~= a.take(i as int));
                assert(b =~= b.take(i as int));
                lemma_segs_lt_irreflexive(a);
            }
            CmpResult::Equal
        } else if la < lb {
            proof {
                if a == b {
                    assert(false);
                }
                assert(a.skip(i as int).len() == 0);
            }
            CmpResult::Less
        } else {
            proof {
                if a == b {
                    assert(false);
                }
                assert(b.skip(i as int).len() == 0);
            }
            CmpResult::Greater
        }
    }

    fn copy_path(&self) -> (r: CategoryPath)
        ensures
            r@ == self@,
    {
        let mut segments: Vec<String> = Vec::new();
        let mut i: usize = 0;
        while i < self.segments.len()
            invariant
                i <= self.segments@.len(),
                segments@.map_values(|s: String| s@) =~= self@.take(i as int),
            decreases self.segments@.len() - i,
        {
            let ghost prev = segments@.map_values(|s: String| s@);
            segments.push(self.segments[i].clone());
            proof {
                assert(segments@.map_values(|s: String| s@) =~= prev.push(self@[i as int]));
                assert(self@.take(i + 1) =~= self@.take(i as int).push(self@[i as int]));
            }
            i = i + 1;
        }
        proof {
            assert(self@.take(i as int) =~= self@);
        }
        CategoryPath { segments }
    }
}

/// A stable reference to one object of one diagram.
#[derive(Debug, Clone, PartialEq, Eq, PartialOrd, Ord, Hash)]
pub struct ObjectRef {
    diagram_id: DiagramId,
    category: CategoryPath,
    object_id: ObjectId,
}

impl View for ObjectRef {
    type V = RefView;

    closed spec fn view(&self) -> RefView {
        (self.diagram_id@, self.category@, self.object_id@)
    }
}

/// A valid reference view: valid identifiers and a valid category.
pub open spec fn valid_ref(v: RefView) -> bool {
    valid_ident(v.0) && valid_category(v.1) && valid_ident(v.2)
}

impl ObjectRef {
    pub fn new(diagram_id: DiagramId, category: CategoryPath, object_id: ObjectId) -> (r: ObjectRef)
        ensures
            r@ == (diagram_id@, category@, object_id@),
    {
        ObjectRef { diagram_id, category, object_id }
    }

    pub fn diagram_id(&self) -> (d: &DiagramId)
        ensures
            d@ == self@.0,
    {
        &self.diagram_id
    }

    pub fn category(&self) -> (c: &CategoryPath)
        ensures
            c@ == self@.1,
    {
        &self.category
    }

    pub fn object_id(&self) -> (o: &ObjectId)
        ensures
            o@ == self@.2,
    {
        &self.object_id
    }

    /// The canonical text `d:<diagram>/<category>/<object>`.
    pub fn to_string(&self) -> (s: String)
        ensures
            s@ == ref_text(self@),
    {
        let mut s = String::from_str("d:");
        s.append(self.diagram_id.as_str());
        s.append("/");
        let cat = self.category.to_string();
        s.append(cat.as_str());
        s.append("/");
        s.append(self.object_id.as_str());
        proof {
            reveal_strlit("d:");
            reveal_strlit("/");
            assert(s@ =~= ref_text(self@));
        }
        s
    }

    /// Parses the canonical text of a reference.
    ///
    /// Succeeds exactly on texts of the form `d:<diagram>/<segment>/…/<object>` with at least
    /// one category segment and valid identifiers throughout.
    pub fn parse(text: &str) -> (r: Result<ObjectRef, IdError>)
        ensures
            r matches Ok(x) ==> ref_text(x@) == text@ && valid_ref(x@),
            r is Ok <==> exists|v: RefView| valid_ref(v) && ref_text(v) == text@,
            r matches Err(e) ==> e == IdError::Malformed,
    {
        let n = text.unicode_len();
        if n < 2 || text.get_char(0) != 'd' || text.get_char(1) != ':' {
            proof {
                assert forall|v: RefView| valid_ref(v) implies ref_text(v) != text@ by {
                    if ref_text(v) == text@ {
                        assert(ref_text(v)[0] == 'd');
                        assert(ref_text(v)[1] == ':');
                    }
                }
            }
            return Err(IdError::Malformed);
        }
        let rest = text.substring_char(2, n);
        let parts = split_slash(rest);
        let ghost pv = parts@.map_values(|p: String| p@);
        proof {
            assert forall|v: RefView| valid_ref(v) && ref_text(v) == text@ implies pv =~= seq![v.0]
                + v.1 + seq![v.2] by {
                lemma_ref_text_parts(v);
                assert(rest@ =~= text@.subrange(2, text@.len() as int));
                assert(rest@ =~= join_slash(seq![v.0] + v.1 + seq![v.2]));
                lemma_join_slash_injective(pv, seq![v.0] + v.1 + seq![v.2]);
            }
        }
        if parts.len() < 3 {
            proof {
                assert forall|v: RefView| valid_ref(v) implies ref_text(v) != text@ by {
                    if ref_text(v) == text@ {
                        assert(pv.len() == (seq![v.0] + v.1 + seq![v.2]).len());
                    }
                }
            }
            return Err(IdError::Malformed);
        }
        let last = parts.len() - 1;
        let mut segments: Vec<String> = Vec::new();
        let mut i: usize = 1;
        while i < last
            invariant
                pv == parts@.map_values(|p: String| p@),
                1 <= i <= last,
                last == parts@.len() - 1,
                segments@.map_values(|s: String| s@) =~= pv.subrange(1, i as int),
            decreases last - i,
        {
            let ghost prev = segments@.map_values(|s: String| s@);
            segments.push(parts[i].clone());
            proof {
                assert(segments@.map_values(|s: String| s@) =~= prev.push(pv[i as int]));
                assert(pv.subrange(1, i + 1) =~= pv.subrange(1, i as int).push(pv[i as int]));
            }
            i = i + 1;
        }
        let diagram_id = ObjectId::new(parts[0].as_str());
        let category = CategoryPath::new(segments);
        let object_id = ObjectId::new(parts[last].as_str());
        let ghost cand: RefView = (pv[0], pv.subrange(1, last as int), pv[last as int]);
        proof {
            assert(pv =~= seq![cand.0] + cand.1 + seq![cand.2]);
            lemma_ref_text_parts(cand);
            assert(rest@ =~= text@.subrange(2, text@.len() as int));
            assert(text@ =~= seq!['d', ':'] + rest@);
        }
        match (diagram_id, category, object_id) {
            (Ok(d), Ok(c), Ok(o)) => {
                let r = ObjectRef { diagram_id: d, category: c, object_id: o };
                proof {
                    assert(r@ == cand);
                }
                Ok(r)
            },
            _ => {
                proof {
                    assert forall|v: RefView| valid_ref(v) implies ref_text(v) != text@ by {
                        if ref_text(v) == text@ {
                            assert(pv =~= seq![v.0] + v.1 + seq![v.2]);
                            assert(v.0 == cand.0);
                            assert(v.2 == cand.2);
                            assert(v.1 =~= cand.1);
                        }
                    }
                }
                Err(IdError::Malformed)
            },
        }
    }
}

/// The text after `d:` is the slash-join of diagram id, category segments and object id.
proof fn lemma_ref_text_parts(v: RefView)
    requires
        valid_category(v.1) || v.1.len() >= 1,
    ensures
        ref_text(v) == seq!['d', ':'] + join_slash(seq![v.0] + v.1 + seq![v.2]),
{
    let all = seq![v.0] + v.1 + seq![v.2];
    lemma_join_push(seq![v.0] + v.1, v.2);
    assert(all =~= (seq![v.0] + v.1).push(v.2));
    assert((seq![v.0] + v.1).drop_first() =~= v.1);
    assert(join_slash(seq![v.0] + v.1) == v.0 + seq!['/'] + join_slash(v.1));
    assert(ref_text(v) =~= seq!['d', ':'] + join_slash(all));
}

impl OrdKey for ObjectRef {
    open spec fn key_lt(a: RefView, b: RefView) -> bool {
        ref_lt(a, b)
    }

    proof fn lemma_key_irreflexive(a: RefView) {
        lemma_chars_lt_irreflexive(a.0);
        lemma_segs_lt_irreflexive(a.1);
        lemma_chars_lt_irreflexive(a.2);
    }

    proof fn lemma_key_transitive(a: RefView, b: RefView, c: RefView) {
        if chars_lt(a.0, b.0) {
            if chars_lt(b.0, c.0) {
                lemma_chars_lt_transitive(a.0, b.0, c.0);
            }
        } else if chars_lt(b.0, c.0) {
        } else if segs_lt(a.1, b.1) {
            if segs_lt(b.1, c.1) {
                lemma_segs_lt_transitive(a.1, b.1, c.1);
            }
        } else if segs_lt(b.1, c.1) {
        } else {
            lemma_chars_lt_transitive(a.2, b.2, c.2);
        }
    }

    proof fn lemma_key_total(a: RefView, b: RefView) {
        lemma_chars_lt_total(a.0, b.0);
        lemma_segs_lt_total(a.1, b.1);
        lemma_chars_lt_total(a.2, b.2);
    }

    fn compare_key(&self, other: &Self) -> (c: CmpResult) {
        proof {
            lemma_chars_lt_total(self@.0, other@.0);
            lemma_segs_lt_total(self@.1, other@.1);
            lemma_chars_lt_irreflexive(self@.0);
            lemma_segs_lt_irreflexive(self@.1);
        }
        match compare_str(self.diagram_id.as_str(), other.diagram_id.as_str()) {
            CmpResult::Equal => {},
            c => {
                proof {
                    if chars_lt(self@.0, other@.0) {
                        lemma_chars_lt_asymmetric(self@.0, other@.0);
                    }
                    if chars_lt(other@.0, self@.0) {
                        lemma_chars_lt_asymmetric(other@.0, self@.0);
                    }
                }
                return c;
            },
        }
        match self.category.compare(&other.category) {
            CmpResult::Equal => {},
            c => {
                proof {
                    if segs_lt(self@.1, other@.1) && segs_lt(other@.1, self@.1) {
                        lemma_segs_lt_transitive(self@.1, other@.1, self@.1);
                    }
                }
                return c;
            },
        }
        let c = compare_str(self.object_id.as_str(), other.object_id.as_str());
        proof {
            lemma_chars_lt_total(self@.2, other@.2);
            if chars_lt(self@.2, other@.2) {
                lemma_chars_lt_asymmetric(self@.2, other@.2);
            }
            if chars_lt(other@.2, self@.2) {
                lemma_chars_lt_asymmetric(other@.2, self@.2);
            }
        }
        c
    }

    fn key_dup(&self) -> (r: Self) {
        ObjectRef {
            diagram_id: self.diagram_id.duplicate(),
            category: self.category.copy_path(),
            object_id: self.object_id.duplicate(),
        }
    }
}

impl std::str::FromStr for ObjectRef {
    type Err = IdError;

    fn from_str(text: &str) -> (r: Result<ObjectRef, IdError>)
        ensures
            r matches Ok(x) ==> ref_text(x@) == text@ && valid_ref(x@),
            r is Ok <==> exists|v: RefView| valid_ref(v) && ref_text(v) == text@,
            r matches Err(e) ==> e == IdError::Malformed,
    {
        ObjectRef::parse(text)
    }
}

} // verus!
