//! Sequence diagram AST: participants keyed by id and ordered messages.

use vstd::prelude::*;
use crate::order::{CmpResult, chars_lt, compare_str, lemma_chars_lt_asymmetric, lemma_chars_lt_total, lemma_chars_lt_transitive};
use crate::sorted_map::{Duplicate, SortedMap};
use super::ids::ObjectId;
use super::flow_ast::{SymbolAnchor, SymbolAnchorView, dup_opt_string, dup_opt_symbol, opt_as_str,
    opt_view, opt_symbol_view};

verus! {

/// A sequence participant (lifeline).
#[derive(Debug, Clone, PartialEq, Eq)]
pub struct SequenceParticipant {
    pub mermaid_name: String,
    pub role: Option<String>,
    pub note: Option<String>,
    pub symbol: Option<SymbolAnchor>,
}

impl SequenceParticipant {
    pub fn new(mermaid_name: &str) -> (p: SequenceParticipant)
        ensures
            p.mermaid_name@ == mermaid_name@,
            p.role is None,
            p.note is None,
            p.symbol is None,
    {
        SequenceParticipant {
            mermaid_name: String::from_str(mermaid_name),
            role: None,
            note: None,
            symbol: None,
        }
    }

    pub fn mermaid_name(&self) -> (s: &str)
        ensures
            s@ == self.mermaid_name@,
    {
        self.mermaid_name.as_str()
    }

    pub fn role(&self) -> (r: Option<&str>)
        ensures
            r is Some <==> self.role is Some,
            r matches Some(s) ==> s@ == self.role->0@,
    {
        opt_as_str(&self.role)
    }

    pub fn note(&self) -> (r: Option<&str>)
        ensures
            r is Some <==> self.note is Some,
            r matches Some(s) ==> s@ == self.note->0@,
    {
        opt_as_str(&self.note)
    }

    pub fn symbol(&self) -> (r: Option<&SymbolAnchor>)
        ensures
            r is Some <==> self.symbol is Some,
            r matches Some(s) ==> *s == self.symbol->0,
    {
        match &self.symbol {
            Some(s) => Some(s),
            None => None,
        }
    }

    pub fn set_mermaid_name(&mut self, mermaid_name: String)
        ensures
            *final(self) == (SequenceParticipant { mermaid_name, ..*old(self) }),
    {
        self.mermaid_name = mermaid_name;
    }

    pub fn set_role(&mut self, role: Option<&str>)
        ensures
            final(self).mermaid_name == old(self).mermaid_name,
            final(self).note == old(self).note,
            final(self).symbol == old(self).symbol,
            final(self).role is Some <==> role is Some,
            role matches Some(r) ==> final(self).role->0@ == r@,
    {
        self.role = match role {
            Some(r) => Some(String::from_str(r)),
            None => None,
        };
    }

    pub fn set_note(&mut self, note: Option<String>)
        ensures
            *final(self) == (SequenceParticipant { note, ..*old(self) }),
    {
        self.note = note;
    }

    pub fn set_symbol(&mut self, symbol: Option<SymbolAnchor>)
        ensures
            *final(self) == (SequenceParticipant { symbol, ..*old(self) }),
    {
        self.symbol = symbol;
    }
}

/// The abstract value of a participant.
pub struct ParticipantView {
    pub mermaid_name: Seq<char>,
    pub role: Option<Seq<char>>,
    pub note: Option<Seq<char>>,
    pub symbol: Option<SymbolAnchorView>,
}

impl View for SequenceParticipant {
    type V = ParticipantView;

    open spec fn view(&self) -> ParticipantView {
        ParticipantView {
            mermaid_name: self.mermaid_name@,
            role: opt_view(self.role),
            note: opt_view(self.note),
            symbol: opt_symbol_view(self.symbol),
        }
    }
}

impl Duplicate for SequenceParticipant {
    fn duplicate(&self) -> (r: Self) {
        SequenceParticipant {
            mermaid_name: self.mermaid_name.clone(),
            role: dup_opt_string(&self.role),
            note: dup_opt_string(&self.note),
            symbol: dup_opt_symbol(&self.symbol),
        }
    }
}

/// Kind of a sequence message.
#[derive(Debug, Clone, Copy, PartialEq, Eq, Hash, Structural)]
pub enum SequenceMessageKind {
    Sync,
    Async,
    Return,
}

/// A message between two participants.
#[derive(Debug, Clone, PartialEq, Eq)]
pub struct SequenceMessage {
    pub message_id: ObjectId,
    pub from_participant_id: ObjectId,
    pub to_participant_id: ObjectId,
    pub kind: SequenceMessageKind,
    pub text: String,
    pub order_key: i64,
    /// The arrow as written, when it differs from the kind's canonical arrow.
    pub raw_arrow: Option<String>,
}

/// The abstract value of a message.
pub struct MessageView {
    pub message_id: Seq<char>,
    pub from_participant_id: Seq<char>,
    pub to_participant_id: Seq<char>,
    pub kind: SequenceMessageKind,
    pub text: Seq<char>,
    pub order_key: i64,
    pub raw_arrow: Option<Seq<char>>,
}

impl View for SequenceMessage {
    type V = MessageView;

    open spec fn view(&self) -> MessageView {
        MessageView {
            message_id: self.message_id@,
            from_participant_id: self.from_participant_id@,
            to_participant_id: self.to_participant_id@,
            kind: self.kind,
            text: self.text@,
            order_key: self.order_key,
            raw_arrow: opt_view(self.raw_arrow),
        }
    }
}

/// Abstract values of a sequence of messages.
pub open spec fn message_views(s: Seq<SequenceMessage>) -> Seq<MessageView> {
    s.map_values(|m: SequenceMessage| m@)
}

/// Messages are ordered by order key, then by message id.
pub open spec fn msg_before(a: MessageView, b: MessageView) -> bool {
    a.order_key < b.order_key || (a.order_key == b.order_key && chars_lt(
        a.message_id,
        b.message_id,
    ))
}

impl SequenceMessage {
    pub fn new(
        message_id: ObjectId,
        from_participant_id: ObjectId,
        to_participant_id: ObjectId,
        kind: SequenceMessageKind,
        text: &str,
        order_key: i64,
    ) -> (m: SequenceMessage)
        ensures
            m.message_id == message_id,
            m.from_participant_id == from_participant_id,
            m.to_participant_id == to_participant_id,
            m.kind == kind,
            m.text@ == text@,
            m.order_key == order_key,
            m.raw_arrow is None,
    {
        SequenceMessage {
            message_id,
            from_participant_id,
            to_participant_id,
            kind,
            text: String::from_str(text),
            order_key,
            raw_arrow: None,
        }
    }

    pub fn message_id(&self) -> (r: &ObjectId)
        ensures
            *r == self.message_id,
    {
        &self.message_id
    }

    pub fn from_participant_id(&self) -> (r: &ObjectId)
        ensures
            *r == self.from_participant_id,
    {
        &self.from_participant_id
    }

    pub fn to_participant_id(&self) -> (r: &ObjectId)
        ensures
            *r == self.to_participant_id,
    {
        &self.to_participant_id
    }

    pub fn kind(&self) -> (k: SequenceMessageKind)
        ensures
            k == self.kind,
    {
        self.kind
    }

    pub fn text(&self) -> (s: &str)
        ensures
            s@ == self.text@,
    {
        self.text.as_str()
    }

    pub fn order_key(&self) -> (k: i64)
        ensures
            k == self.order_key,
    {
        self.order_key
    }

    pub fn raw_arrow(&self) -> (r: Option<&str>)
        ensures
            r is Some <==> self.raw_arrow is Some,
            r matches Some(s) ==> s@ == self.raw_arrow->0@,
    {
        opt_as_str(&self.raw_arrow)
    }

    pub fn set_raw_arrow(&mut self, raw_arrow: Option<String>)
        ensures
            *final(self) == (SequenceMessage { raw_arrow, ..*old(self) }),
    {
        self.raw_arrow = raw_arrow;
    }

    /// Whether `self` comes strictly before `other` in message order.
    pub fn comes_before(&self, other: &SequenceMessage) -> (b: bool)
        ensures
            b == msg_before(self@, other@),
    {
        if self.order_key < other.order_key {
            true
        } else if self.order_key > other.order_key {
            false
        } else {
            match compare_str(self.message_id.as_str(), other.message_id.as_str()) {
                CmpResult::Less => true,
                _ => false,
            }
        }
    }
}

impl Duplicate for SequenceMessage {
    fn duplicate(&self) -> (r: Self) {
        SequenceMessage {
            message_id: self.message_id.duplicate(),
            from_participant_id: self.from_participant_id.duplicate(),
            to_participant_id: self.to_participant_id.duplicate(),
            kind: self.kind,
            text: self.text.clone(),
            order_key: self.order_key,
            raw_arrow: dup_opt_string(&self.raw_arrow),
        }
    }
}

/// Inserts `m` after every message that does not come after it (stable insertion).
pub open spec fn insert_in_order(s: Seq<MessageView>, m: MessageView) -> Seq<MessageView>
    decreases s.len(),
{
    if s.len() == 0 {
        seq![m]
    } else if msg_before(m, s.last()) {
        insert_in_order(s.drop_last(), m).push(s.last())
    } else {
        s.push(m)
    }
}

/// Messages in message order: none comes before an earlier one (by order key, then id).
pub open spec fn in_message_order(s: Seq<MessageView>) -> bool {
    forall|i: int, j: int| 0 <= i < j < s.len() ==> !(#[trigger] s[j].order_key < #[trigger] s[i].order_key
        || (s[j].order_key == s[i].order_key && chars_lt(s[j].message_id, s[i].message_id)))
}

proof fn lemma_msg_before_asymmetric(a: MessageView, b: MessageView)
    requires
        msg_before(a, b),
    ensures
        !msg_before(b, a),
{
    if a.order_key == b.order_key && chars_lt(a.message_id, b.message_id) {
        lemma_chars_lt_asymmetric(a.message_id, b.message_id);
    }
}

/// If `m` comes before `x` and `x` does not come after `y`, then `m` comes before `y`.
proof fn lemma_msg_before_chain(m: MessageView, x: MessageView, y: MessageView)
    requires
        msg_before(m, x),
        !msg_before(y, x),
    ensures
        msg_before(m, y),
{
    lemma_chars_lt_total(x.message_id, y.message_id);
    if m.order_key == x.order_key && x.order_key == y.order_key && chars_lt(m.message_id, x.message_id)
        && chars_lt(x.message_id, y.message_id) {
        lemma_chars_lt_transitive(m.message_id, x.message_id, y.message_id);
    }
}

/// Inserting a message into a sequence in message order keeps it in message order and adds
/// exactly that message.
proof fn lemma_insert_in_order_sorted(s: Seq<MessageView>, m: MessageView)
    requires
        in_message_order(s),
    ensures
        in_message_order(insert_in_order(s, m)),
        insert_in_order(s, m).to_multiset() == s.to_multiset().insert(m),
    decreases s.len(),
{
    broadcast use vstd::seq_lib::group_to_multiset_ensures;
    if s.len() == 0 {
        assert(seq![m] =~= s.push(m));
    } else {
        let dl = s.drop_last();
        let last = s.last();
        assert(dl.push(last) =~= s);
        assert(in_message_order(dl)) by {
            assert forall|i: int, j: int| 0 <= i < j < dl.len() implies !(#[trigger] dl[j].order_key < #[trigger] dl[i].order_key
                || (dl[j].order_key == dl[i].order_key && chars_lt(dl[j].message_id, dl[i].message_id))) by {
                assert(dl[i] == s[i] && dl[j] == s[j]);
            }
        }
        if msg_before(m, last) {
            lemma_insert_in_order_sorted(dl, m);
            let t = insert_in_order(dl, m);
            let r = t.push(last);
            assert forall|i: int, j: int| 0 <= i < j < r.len() implies !(#[trigger] r[j].order_key < #[trigger] r[i].order_key
                || (r[j].order_key == r[i].order_key && chars_lt(r[j].message_id, r[i].message_id))) by {
                if j == r.len() - 1 {
                    let x = r[i];
                    assert(x == t[i]);
                    assert(t.contains(x));
                    assert(t.to_multiset().count(x) > 0);
                    if x == m {
                        lemma_msg_before_asymmetric(m, last);
                    } else {
                        assert(dl.to_multiset().count(x) > 0);
                        assert(dl.contains(x));
                        let k = choose|k: int| 0 <= k < dl.len() && dl[k] == x;
                        assert(s[k] == x && s[s.len() - 1] == last);
                    }
                    assert(!msg_before(last, x));
                } else {
                    assert(r[i] == t[i] && r[j] == t[j]);
                }
            }
            assert(r.to_multiset() =~= s.to_multiset().insert(m));
        } else {
            let r = s.push(m);
            assert forall|i: int, j: int| 0 <= i < j < r.len() implies !(#[trigger] r[j].order_key < #[trigger] r[i].order_key
                || (r[j].order_key == r[i].order_key && chars_lt(r[j].message_id, r[i].message_id))) by {
                if j == r.len() - 1 {
                    assert(r[i] == s[i]);
                    if msg_before(m, s[i]) {
                        if i < s.len() - 1 {
                            assert(!msg_before(s[s.len() - 1], s[i]));
                            lemma_msg_before_chain(m, s[i], last);
                        }
                    }
                } else {
                    assert(r[i] == s[i] && r[j] == s[j]);
                }
            }
        }
    }
}

/// Message order sorts the messages: the result is in message order (by order key, then by
/// id) and holds exactly the messages given, each as often.
pub proof fn lemma_sort_messages_sorted(s: Seq<MessageView>)
    ensures
        in_message_order(sort_messages(s)),
        sort_messages(s).to_multiset() == s.to_multiset(),
    decreases s.len(),
{
    broadcast use vstd::seq_lib::group_to_multiset_ensures;
    reveal(sort_messages);
    if s.len() == 0 {
        assert(s.to_multiset() =~= Seq::<MessageView>::empty().to_multiset());
    } else {
        lemma_sort_messages_sorted(s.drop_last());
        lemma_insert_in_order_sorted(sort_messages(s.drop_last()), s.last());
        assert(s.drop_last().push(s.last()) =~= s);
    }
}

/// Stable sort of messages by (order key, message id): insertion of each message in turn.
#[verifier::opaque]
pub open spec fn sort_messages(s: Seq<MessageView>) -> Seq<MessageView>
    decreases s.len(),
{
    if s.len() == 0 {
        Seq::empty()
    } else {
        insert_in_order(sort_messages(s.drop_last()), s.last())
    }
}

/// Copies a sequence of messages exactly.
pub fn dup_messages(v: &Vec<SequenceMessage>) -> (r: Vec<SequenceMessage>)
    ensures
        r@ == v@,
{
    let mut r: Vec<SequenceMessage> = Vec::new();
    let mut i: usize = 0;
    while i < v.len()
        invariant
            i <= v@.len(),
            r@ =~= v@.take(i as int),
        decreases v@.len() - i,
    {
        r.push(v[i].duplicate());
        i = i + 1;
        proof {
            assert(r@ =~= v@.take(i as int));
        }
    }
    proof {
        assert(r@ =~= v@);
    }
    r
}

/// Position at which `m` is inserted into `s` by `insert_in_order`.
fn insertion_point(s: &Vec<SequenceMessage>, m: &SequenceMessage) -> (p: usize)
    ensures
        p <= s@.len(),
        insert_in_order(message_views(s@), m@) == message_views(s@).insert(p as int, m@),
{
    let ghost sv = message_views(s@);
    let mut p: usize = s.len();
    proof {
        assert(sv.take(p as int) =~= sv);
        assert(insert_in_order(sv.take(p as int), m@) + sv.skip(p as int) =~= insert_in_order(sv, m@));
    }
    while p > 0 && m.comes_before(&s[p - 1])
        invariant
            sv == message_views(s@),
            p <= s@.len(),
            insert_in_order(sv, m@) == insert_in_order(sv.take(p as int), m@) + sv.skip(p as int),
        decreases p,
    {
        proof {
            let t = sv.take(p as int);
            assert(t.last() == sv[p - 1]);
            assert(t.drop_last() =~= sv.take(p - 1));
            assert(sv[p - 1] == s@[p - 1]@);
            assert(insert_in_order(t, m@) == insert_in_order(t.drop_last(), m@).push(t.last()));
            assert(sv.skip(p - 1) =~= seq![sv[p - 1]] + sv.skip(p as int));
            assert(insert_in_order(t.drop_last(), m@).push(t.last()) + sv.skip(p as int)
                =~= insert_in_order(sv.take(p - 1), m@) + sv.skip(p - 1));
        }
        p = p - 1;
    }
    proof {
        let t = sv.take(p as int);
        if p > 0 {
            assert(t.last() == sv[p - 1]);
            assert(sv[p - 1] == s@[p - 1]@);
            assert(insert_in_order(t, m@) == t.push(m@));
        } else {
            assert(insert_in_order(t, m@) =~= seq![m@]);
        }
        assert(t.push(m@) + sv.skip(p as int) =~= sv.insert(p as int, m@));
    }
    p
}

/// Sorts messages by (order key, message id), keeping the relative order of equal keys.
pub fn sort_message_vec(v: &mut Vec<SequenceMessage>)
    ensures
        message_views(final(v)@) == sort_messages(message_views(old(v)@)),
{
    let src = dup_messages(v);
    let mut out: Vec<SequenceMessage> = Vec::new();
    let mut i: usize = 0;
    proof {
        reveal(sort_messages);
        assert(message_views(out@) =~= Seq::<MessageView>::empty());
        assert(message_views(src@).take(0) =~= Seq::<MessageView>::empty());
    }
    while i < src.len()
        invariant
            i <= src@.len(),
            message_views(out@) == sort_messages(message_views(src@).take(i as int)),
        decreases src@.len() - i,
    {
        proof {
            reveal(sort_messages);
        }
        let p = insertion_point(&out, &src[i]);
        let ghost before = message_views(out@);
        out.insert(p, src[i].duplicate());
        proof {
            assert(message_views(out@) =~= before.insert(p as int, src@[i as int]@));
            let t = message_views(src@).take(i + 1);
            assert(t.drop_last() =~= message_views(src@).take(i as int));
            assert(t.last() == src@[i as int]@);
        }
        i = i + 1;
    }
    proof {
        assert(message_views(src@).take(i as int) =~= message_views(src@));
    }
    *v = out;
}

/// Some message has id `id`.
#[verifier::opaque]
pub open spec fn has_message(ms: Seq<MessageView>, id: Seq<char>) -> bool {
    exists|i: int| 0 <= i < ms.len() && (#[trigger] ms[i]).message_id == id
}

/// Position of the first message with id `id`.
#[verifier::opaque]
pub open spec fn first_message_index(ms: Seq<MessageView>, id: Seq<char>) -> int {
    choose|i: int| 0 <= i < ms.len() && (#[trigger] ms[i]).message_id == id && forall|j: int| 0 <= j < i ==> ms[j].message_id != id
}

/// Position of the first message with id `message_id`, if any.
pub fn find_message_index(ms: &Vec<SequenceMessage>, message_id: &ObjectId) -> (r: Option<usize>)
    ensures
        r is None <==> !has_message(message_views(ms@), message_id@),
        r matches Some(i) ==> i < ms@.len() && i == first_message_index(message_views(ms@), message_id@),
{
    proof {
        reveal(has_message);
        reveal(first_message_index);
    }
    let ghost mv = message_views(ms@);
    let mut i: usize = 0;
    while i < ms.len()
        invariant
            mv == message_views(ms@),
            i <= ms@.len(),
            forall|j: int| 0 <= j < i ==> (#[trigger] mv[j]).message_id != message_id@,
        decreases ms@.len() - i,
    {
        if ms[i].message_id.same_as(message_id) {
            proof {
                reveal(has_message);
                reveal(first_message_index);
                assert(mv[i as int].message_id == message_id@);
                let k = first_message_index(mv, message_id@);
                assert(0 <= k < mv.len() && mv[k].message_id == message_id@ && forall|j: int| 0 <= j < k ==> mv[j].message_id != message_id@);
                if k < i {
                    assert(mv[k].message_id != message_id@);
                } else if k > i {
                    assert(mv[i as int].message_id != message_id@);
                }
            }
            return Some(i);
        }
        i = i + 1;
    }
    proof {
        if has_message(mv, message_id@) {
            let j = choose|j: int| 0 <= j < mv.len() && (#[trigger] mv[j]).message_id == message_id@;
            assert(mv[j].message_id != message_id@);
        }
    }
    None
}

/// A sequence diagram.
#[derive(Debug, Clone)]
pub struct SequenceAst {
    pub participants: SortedMap<ObjectId, SequenceParticipant>,
    pub messages: Vec<SequenceMessage>,
}

impl SequenceAst {
    pub fn default() -> (ast: SequenceAst)
        ensures
            ast.participants@ == Map::<Seq<char>, SequenceParticipant>::empty(),
            ast.messages@.len() == 0,
    {
        SequenceAst { participants: SortedMap::new(), messages: Vec::new() }
    }

    pub fn participants(&self) -> (r: &SortedMap<ObjectId, SequenceParticipant>)
        ensures
            *r == self.participants,
    {
        &self.participants
    }

    pub fn participants_mut(&mut self) -> (r: &mut SortedMap<ObjectId, SequenceParticipant>)
        ensures
            *r == old(self).participants,
            *final(self) == (SequenceAst { participants: *final(r), ..*old(self) }),
    {
        &mut self.participants
    }

    pub fn messages(&self) -> (r: &Vec<SequenceMessage>)
        ensures
            *r == self.messages,
    {
        &self.messages
    }

    pub fn messages_mut(&mut self) -> (r: &mut Vec<SequenceMessage>)
        ensures
            *r == old(self).messages,
            *final(self) == (SequenceAst { messages: *final(r), ..*old(self) }),
    {
        &mut self.messages
    }

    /// The messages sorted by (order key, message id).
    pub fn messages_in_order(&self) -> (r: Vec<SequenceMessage>)
        ensures
            message_views(r@) == sort_messages(message_views(self.messages@)),
    {
        let mut r = dup_messages(&self.messages);
        sort_message_vec(&mut r);
        r
    }

    /// An identical copy of the diagram.
    pub fn duplicate(&self) -> (r: SequenceAst)
        ensures
            r.participants@ == self.participants@,
            r.participants.keys_seq() == self.participants.keys_seq(),
            r.participants.vals_seq() == self.participants.vals_seq(),
            r.messages@ == self.messages@,
    {
        SequenceAst {
            participants: self.participants.duplicate(),
            messages: dup_messages(&self.messages),
        }
    }
}

} // verus!
