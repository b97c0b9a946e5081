//! Recording which objects a batch of operations added, removed or updated.

use vstd::prelude::*;
use crate::model::ids::ObjectId;
use crate::model::object_ref::{CategoryPath, ObjectRef, RefView};
use crate::model::ids::valid_ident;
use crate::sorted_map::{Duplicate, OrdKey, SortedMap, strictly_sorted};
use super::spec::{ChangeTag, Changes, mark_added, mark_removed, mark_updated, object_ref_view};
use super::Delta;

verus! {

/// Views of a list of references.
pub open spec fn ref_views(v: Seq<ObjectRef>) -> Seq<RefView> {
    v.map_values(|r: ObjectRef| r@)
}

/// `s` lists, in ascending order and once each, exactly the references tagged `tag` in `t`.
pub open spec fn lists_tagged(s: Seq<RefView>, t: Changes, tag: ChangeTag) -> bool {
    &&& strictly_sorted::<ObjectRef>(s)
    &&& forall|r: RefView| #[trigger] s.contains(r) <==> (t.contains_key(r) && t[r] == tag)
}

/// A delta that reports the change record `t`.
pub open spec fn delta_reports(d: Delta, t: Changes) -> bool {
    &&& lists_tagged(ref_views(d.added@), t, ChangeTag::Added)
    &&& lists_tagged(ref_views(d.removed@), t, ChangeTag::Removed)
    &&& lists_tagged(ref_views(d.updated@), t, ChangeTag::Updated)
}

/// The reference to object `object_id` under category `a/b` of diagram `diagram_id`.
pub fn object_ref(diagram_id: &ObjectId, a: &str, b: &str, object_id: &ObjectId) -> (r: ObjectRef)
    requires
        valid_ident(a@),
        valid_ident(b@),
    ensures
        r@ == object_ref_view(diagram_id@, a@, b@, object_id@),
{
    ObjectRef::new(diagram_id.duplicate(), CategoryPath::pair(a, b), object_id.duplicate())
}

/// The latest change of each object touched so far.
pub struct DeltaBuilder {
    tags: SortedMap<ObjectRef, ChangeTag>,
}

impl View for DeltaBuilder {
    type V = Changes;

    closed spec fn view(&self) -> Changes {
        self.tags@
    }
}

/// Membership invariant of the lists built by `finish` after `i` entries: `s[a]` is the key at
/// position `idx[a]`, which carries `tag`.
spec fn collected(s: Seq<RefView>, idx: Seq<int>, ks: Seq<RefView>, vs: Seq<ChangeTag>, i: int, tag: ChangeTag) -> bool {
    &&& strictly_sorted::<ObjectRef>(s)
    &&& idx.len() == s.len()
    &&& forall|a: int| 0 <= a < s.len() ==> 0 <= #[trigger] idx[a] < i && ks[idx[a]] == s[a] && vs[idx[a]] == tag
    &&& forall|j: int| 0 <= j < i && vs[j] == tag ==> s.contains(#[trigger] ks[j])
}

proof fn lemma_collect_step(
    s: Seq<RefView>,
    idx: Seq<int>,
    ks: Seq<RefView>,
    vs: Seq<ChangeTag>,
    i: int,
    tag: ChangeTag,
)
    requires
        0 <= i < ks.len(),
        ks.len() == vs.len(),
        strictly_sorted::<ObjectRef>(ks),
        collected(s, idx, ks, vs, i, tag),
    ensures
        vs[i] == tag ==> collected(s.push(ks[i]), idx.push(i), ks, vs, i + 1, tag),
        vs[i] != tag ==> collected(s, idx, ks, vs, i + 1, tag),
{
    if vs[i] == tag {
        let s2 = s.push(ks[i]);
        let idx2 = idx.push(i);
        assert forall|a: int, b: int| 0 <= a < b < s2.len() implies #[trigger] ObjectRef::key_lt(s2[a], s2[b])
            && #[trigger] s2[b] == s2[b] by {
            if b == s.len() {
                assert(0 <= idx[a] < i);
                assert(ObjectRef::key_lt(ks[idx[a]], ks[i]) && ks[i] == ks[i]);
            } else {
                assert(ObjectRef::key_lt(s[a], s[b]) && s[b] == s[b]);
            }
        }
        assert forall|a: int| 0 <= a < s2.len() implies 0 <= #[trigger] idx2[a] < i + 1 && ks[idx2[a]] == s2[a]
            && vs[idx2[a]] == tag by {
            if a < s.len() {
                assert(idx2[a] == idx[a]);
            }
        }
        assert forall|j: int| 0 <= j < i + 1 && vs[j] == tag implies s2.contains(#[trigger] ks[j]) by {
            if j == i {
                assert(s2[s.len() as int] == ks[j]);
            } else {
                assert(s.contains(ks[j]));
                let a = choose|a: int| 0 <= a < s.len() && s[a] == ks[j];
                assert(s2[a] == ks[j]);
            }
        }
    } else {
        assert forall|j: int| 0 <= j < i + 1 && vs[j] == tag implies s.contains(#[trigger] ks[j]) by {
            assert(j < i);
        }
    }
}

proof fn lemma_collect_done(s: Seq<RefView>, idx: Seq<int>, m: &SortedMap<ObjectRef, ChangeTag>, tag: ChangeTag)
    requires
        m.well_formed(),
        collected(s, idx, m.keys_seq(), m.vals_seq(), m.keys_seq().len() as int, tag),
    ensures
        lists_tagged(s, m@, tag),
{
    m.lemma_shape();
    let ks = m.keys_seq();
    let vs = m.vals_seq();
    assert forall|r: RefView| #[trigger] s.contains(r) <==> (m@.contains_key(r) && m@[r] == tag) by {
        if s.contains(r) {
            let a = choose|a: int| 0 <= a < s.len() && s[a] == r;
            let j = idx[a];
            assert(m@.contains_key(ks[j]));
        }
        if m@.contains_key(r) && m@[r] == tag {
            assert(ks.contains(r));
            let j = choose|j: int| 0 <= j < ks.len() && ks[j] == r;
            assert(m@.contains_key(ks[j]) && m@[ks[j]] == vs[j]);
            assert(s.contains(ks[j]));
        }
    }
}

impl DeltaBuilder {
    pub fn new() -> (b: DeltaBuilder)
        ensures
            b@ == Map::<RefView, ChangeTag>::empty(),
    {
        DeltaBuilder { tags: SortedMap::new() }
    }

    /// Records that an object was added (it is no longer reported removed or updated).
    pub fn record_added(&mut self, object_ref: ObjectRef)
        ensures
            final(self)@ == mark_added(old(self)@, object_ref@),
    {
        self.tags.insert(object_ref, ChangeTag::Added);
    }

    /// Records that an object was removed (it is no longer reported added or updated).
    pub fn record_removed(&mut self, object_ref: ObjectRef)
        ensures
            final(self)@ == mark_removed(old(self)@, object_ref@),
    {
        self.tags.insert(object_ref, ChangeTag::Removed);
    }

    /// Records that an object was updated, unless it was already added or removed.
    pub fn record_updated(&mut self, object_ref: ObjectRef)
        ensures
            final(self)@ == mark_updated(old(self)@, object_ref@),
            old(self)@.contains_key(object_ref@) ==> final(self)@ == old(self)@,
            !old(self)@.contains_key(object_ref@) ==> final(self)@ == old(self)@.insert(object_ref@, ChangeTag::Updated),
    {
        if !self.tags.contains_key(&object_ref) {
            self.tags.insert(object_ref, ChangeTag::Updated);
        }
    }

    /// The delta: added, removed and updated references, each list sorted.
    pub fn finish(self) -> (d: Delta)
        ensures
            delta_reports(d, self@),
    {
        proof {
            use_type_invariant(&self.tags);
            self.tags.lemma_shape();
        }
        let ghost ks = self.tags.keys_seq();
        let ghost vs = self.tags.vals_seq();
        let n = self.tags.len();
        let mut added: Vec<ObjectRef> = Vec::new();
        let mut removed: Vec<ObjectRef> = Vec::new();
        let mut updated: Vec<ObjectRef> = Vec::new();
        let mut i: usize = 0;
        let ghost mut ia: Seq<int> = Seq::empty();
        let ghost mut ir: Seq<int> = Seq::empty();
        let ghost mut iu: Seq<int> = Seq::empty();
        proof {
            assert(ref_views(added@) =~= Seq::<RefView>::empty());
            assert(ref_views(removed@) =~= Seq::<RefView>::empty());
            assert(ref_views(updated@) =~= Seq::<RefView>::empty());
        }
        while i < n
            invariant
                n == ks.len(),
                ks == self.tags.keys_seq(),
                vs == self.tags.vals_seq(),
                vs.len() == n,
                strictly_sorted::<ObjectRef>(ks),
                i <= n,
                collected(ref_views(added@), ia, ks, vs, i as int, ChangeTag::Added),
                collected(ref_views(removed@), ir, ks, vs, i as int, ChangeTag::Removed),
                collected(ref_views(updated@), iu, ks, vs, i as int, ChangeTag::Updated),
            decreases n - i,
        {
            let k = self.tags.key_at(i);
            let tag = *self.tags.value_at(i);
            proof {
                lemma_collect_step(ref_views(added@), ia, ks, vs, i as int, ChangeTag::Added);
                lemma_collect_step(ref_views(removed@), ir, ks, vs, i as int, ChangeTag::Removed);
                lemma_collect_step(ref_views(updated@), iu, ks, vs, i as int, ChangeTag::Updated);
            }
            let ghost a0 = added@;
            let ghost r0 = removed@;
            let ghost u0 = updated@;
            match tag {
                ChangeTag::Added => {
                    added.push(k.key_dup());
                    proof {
                        assert(ref_views(added@) =~= ref_views(a0).push(ks[i as int]));
                        ia = ia.push(i as int);
                    }
                },
                ChangeTag::Removed => {
                    removed.push(k.key_dup());
                    proof {
                        assert(ref_views(removed@) =~= ref_views(r0).push(ks[i as int]));
                        ir = ir.push(i as int);
                    }
                },
                ChangeTag::Updated => {
                    updated.push(k.key_dup());
                    proof {
                        assert(ref_views(updated@) =~= ref_views(u0).push(ks[i as int]));
                        iu = iu.push(i as int);
                    }
                },
            }
            i = i + 1;
        }
        proof {
            lemma_collect_done(ref_views(added@), ia, &self.tags, ChangeTag::Added);
            lemma_collect_done(ref_views(removed@), ir, &self.tags, ChangeTag::Removed);
            lemma_collect_done(ref_views(updated@), iu, &self.tags, ChangeTag::Updated);
        }
        Delta { added, removed, updated }
    }
}

} // verus!
