//! Applying one sequence-diagram operation to a sequence AST.

use vstd::prelude::*;
use crate::chars::{check_mermaid_ident, is_blank};
use crate::model::flow_ast::{dup_opt_string, dup_opt_symbol};
use crate::model::ids::ObjectId;
use crate::model::object_ref::{ObjectRef, RefView};
use crate::model::seq_ast::{
    MessageView, SequenceAst, SequenceMessage, SequenceParticipant, find_message_index, first_message_index,
    has_message, message_views, sort_message_vec,
};
use crate::sorted_map::{Duplicate, OrdKey};
use super::delta::{DeltaBuilder, object_ref};
use super::normalize::{normalize_seq_raw_arrow, same_text};
use super::spec::{
    Changes, SeqState, patched_message, lemma_least_such_found, lemma_least_such_none,
    mark_removed, mark_removed_all, message_ids_touching, seq_message_ref, seq_name_problem,
    seq_name_taken_by, seq_participant_ref, seq_step, touches,
};
use super::flow_apply::lemma_mark_removed_all_insert;
use super::{ApplyError, ObjectKind, SeqMessagePatch, SeqOp};

verus! {

/// The abstract sequence diagram held by an AST.
pub open spec fn seq_state(ast: SequenceAst) -> SeqState {
    SeqState {
        participants: ast.participants@.map_values(|p: SequenceParticipant| p@),
        messages: message_views(ast.messages@),
    }
}

/// `r` and the new AST and change record are what `seq_step` gives for `op`.
pub open spec fn seq_outcome(
    d: Seq<char>,
    before: SequenceAst,
    t: Changes,
    op: SeqOp,
    after: SequenceAst,
    t2: Changes,
    r: Result<(), ApplyError>,
) -> bool {
    match seq_step(d, seq_state(before), t, op) {
        Ok((st, tt)) => r is Ok && seq_state(after) == st && t2 == tt,
        Err(e) => r matches Err(x) && x@ == e,
    }
}

pub(crate) fn participant_ref_of(diagram_id: &ObjectId, participant_id: &ObjectId) -> (r: ObjectRef)
    ensures
        r@ == seq_participant_ref(diagram_id@, participant_id@),
{
    proof {
        reveal_strlit("seq");
        reveal_strlit("participant");
    }
    object_ref(diagram_id, "seq", "participant", participant_id)
}

pub(crate) fn message_ref_of(diagram_id: &ObjectId, message_id: &ObjectId) -> (r: ObjectRef)
    ensures
        r@ == seq_message_ref(diagram_id@, message_id@),
{
    proof {
        reveal_strlit("seq");
        reveal_strlit("message");
    }
    object_ref(diagram_id, "seq", "message", message_id)
}

/// Checks that participant `participant_id` may take Mermaid name `mermaid_name`: a valid
/// identifier that no other participant has.
#[verifier::rlimit(40)]
fn validate_seq_participant_mermaid_name(
    ast: &SequenceAst,
    participant_id: &ObjectId,
    mermaid_name: &str,
) -> (r: Result<(), ApplyError>)
    ensures
        match seq_name_problem(seq_state(*ast).participants, participant_id@, mermaid_name@) {
            None => r is Ok,
            Some(e) => r matches Err(x) && x@ == e,
        },
{
    match check_mermaid_ident(mermaid_name) {
        Err(reason) => {
            return Err(ApplyError::InvalidSeqParticipantMermaidName {
                mermaid_name: String::from_str(mermaid_name),
                reason,
            });
        },
        Ok(()) => {},
    }
    let ghost ps = seq_state(*ast).participants;
    let ghost p = |o: Seq<char>| seq_name_taken_by(ps, participant_id@, mermaid_name@, o);
    let ghost ks = ast.participants.keys_seq();
    proof {
        use_type_invariant(&ast.participants);
        ast.participants.lemma_shape();
        assert forall|o: Seq<char>| #[trigger] p(o) implies ks.contains(o) by {
            assert(ast.participants@.contains_key(o));
        }
    }
    let n = ast.participants.len();
    let mut i: usize = 0;
    while i < n
        invariant
            n == ks.len(),
            ks == ast.participants.keys_seq(),
            ast.participants.well_formed(),
            ps == seq_state(*ast).participants,
            p == (|o: Seq<char>| seq_name_taken_by(ps, participant_id@, mermaid_name@, o)),
            crate::chars::mermaid_ident_problem(mermaid_name@) is None,
            i <= n,
            forall|j: int| 0 <= j < i ==> !p(#[trigger] ks[j]),
        decreases n - i,
    {
        let cid = ast.participants.key_at(i);
        let cand = ast.participants.value_at(i);
        proof {
            ast.participants.lemma_shape();
            assert(ast.participants@.contains_key(ks[i as int]));
            assert(ps[ks[i as int]] == cand@);
        }
        if !cid.same_as(participant_id) && same_text(cand.mermaid_name.as_str(), mermaid_name) {
            proof {
                assert(p(ks[i as int]));
                lemma_least_such_found(p, ks, i as int);
                assert(super::spec::first_name_owner(ps, participant_id@, mermaid_name@) == Some(ks[i as int]));
            }
            return Err(ApplyError::DuplicateSeqParticipantMermaidName {
                mermaid_name: String::from_str(mermaid_name),
                participant_id: cid.duplicate(),
            });
        }
        i = i + 1;
    }
    proof {
        lemma_least_such_none(p, ks);
    }
    Ok(())
}

fn seq_add_participant(
    d: &ObjectId,
    ast: &mut SequenceAst,
    participant_id: &ObjectId,
    mermaid_name: &String,
    delta: &mut DeltaBuilder,
) -> (r: Result<(), ApplyError>)
    ensures
        seq_outcome(
            d@,
            *old(ast),
            old(delta)@,
            SeqOp::AddParticipant { participant_id: *participant_id, mermaid_name: *mermaid_name },
            *final(ast),
            final(delta)@,
            r,
        ),
{
    if ast.participants.contains_key(participant_id) {
        return Err(ApplyError::AlreadyExists {
            kind: ObjectKind::SeqParticipant,
            object_id: participant_id.duplicate(),
        });
    }
    match validate_seq_participant_mermaid_name(ast, participant_id, mermaid_name.as_str()) {
        Err(e) => {
            return Err(e);
        },
        Ok(()) => {},
    }
    let part = SequenceParticipant::new(mermaid_name.as_str());
    let ghost pv = part@;
    ast.participants.insert(participant_id.duplicate(), part);
    delta.record_added(participant_ref_of(d, participant_id));
    proof {
        assert(seq_state(*ast).participants =~= seq_state(*old(ast)).participants.insert(participant_id@, pv));
    }
    Ok(())
}

/// Rewrites a participant: its Mermaid name (if the patch has one), note or symbol.
fn seq_rewrite_participant(
    d: &ObjectId,
    ast: &mut SequenceAst,
    participant_id: &ObjectId,
    op: &SeqOp,
    delta: &mut DeltaBuilder,
) -> (r: Result<(), ApplyError>)
    requires
        match *op {
            SeqOp::UpdateParticipant { participant_id: p, .. } => p == *participant_id,
            SeqOp::SetParticipantNote { participant_id: p, .. } => p == *participant_id,
            SeqOp::SetParticipantSymbol { participant_id: p, .. } => p == *participant_id,
            _ => false,
        },
    ensures
        seq_outcome(d@, *old(ast), old(delta)@, *op, *final(ast), final(delta)@, r),
{
    let mut part = match ast.participants.get(participant_id) {
        None => {
            return Err(ApplyError::NotFound {
                kind: ObjectKind::SeqParticipant,
                object_id: participant_id.duplicate(),
            });
        },
        Some(p) => p.duplicate(),
    };
    match op {
        SeqOp::UpdateParticipant { patch, .. } => {
            match &patch.mermaid_name {
                None => {
                    delta.record_updated(participant_ref_of(d, participant_id));
                    return Ok(());
                },
                Some(name) => {
                    match validate_seq_participant_mermaid_name(ast, participant_id, name.as_str()) {
                        Err(e) => {
                            return Err(e);
                        },
                        Ok(()) => {},
                    }
                    part.set_mermaid_name(name.clone());
                },
            }
        },
        SeqOp::SetParticipantNote { note, .. } => {
            part.set_note(dup_opt_string(note));
        },
        SeqOp::SetParticipantSymbol { symbol, .. } => {
            part.set_symbol(dup_opt_symbol(symbol));
        },
        _ => {},
    }
    let ghost pv = part@;
    ast.participants.insert(participant_id.duplicate(), part);
    delta.record_updated(participant_ref_of(d, participant_id));
    proof {
        assert(seq_state(*ast).participants =~= seq_state(*old(ast)).participants.insert(participant_id@, pv));
    }
    Ok(())
}

/// Removing the messages one at a time: the ids seen so far that touch `p`.
proof fn lemma_ids_touching_push(s: Seq<MessageView>, m: MessageView, p: Seq<char>)
    ensures
        message_ids_touching(s.push(m), p) == (if touches(m, p) {
            message_ids_touching(s, p).insert(m.message_id)
        } else {
            message_ids_touching(s, p)
        }),
{
    let s2 = s.push(m);
    let lhs = message_ids_touching(s2, p);
    let rhs = if touches(m, p) {
        message_ids_touching(s, p).insert(m.message_id)
    } else {
        message_ids_touching(s, p)
    };
    assert forall|id: Seq<char>| lhs.contains(id) implies rhs.contains(id) by {
        let i = choose|i: int| 0 <= i < s2.len() && (#[trigger] s2[i]).message_id == id && touches(s2[i], p);
        if i < s.len() {
            assert(s2[i] == s[i]);
            assert(message_ids_touching(s, p).contains(id));
        }
    }
    assert forall|id: Seq<char>| rhs.contains(id) implies lhs.contains(id) by {
        if message_ids_touching(s, p).contains(id) {
            let i = choose|i: int| 0 <= i < s.len() && (#[trigger] s[i]).message_id == id && touches(s[i], p);
            assert(s2[i] == s[i]);
        } else {
            assert(s2[s.len() as int] == m);
        }
    }
    assert(lhs =~= rhs);
}

/// One more element of a filtered sequence.
proof fn lemma_filter_take_step<A>(s: Seq<A>, pred: spec_fn(A) -> bool, i: int)
    requires
        0 <= i < s.len(),
    ensures
        s.take(i + 1).filter(pred) == (if pred(s[i]) {
            s.take(i).filter(pred).push(s[i])
        } else {
            s.take(i).filter(pred)
        }),
{
    reveal(Seq::filter);
    assert(s.take(i + 1).drop_last() =~= s.take(i));
    assert(s.take(i + 1).last() == s[i]);
}

fn seq_remove_participant(
    d: &ObjectId,
    ast: &mut SequenceAst,
    participant_id: &ObjectId,
    delta: &mut DeltaBuilder,
) -> (r: Result<(), ApplyError>)
    ensures
        seq_outcome(
            d@,
            *old(ast),
            old(delta)@,
            SeqOp::RemoveParticipant { participant_id: *participant_id },
            *final(ast),
            final(delta)@,
            r,
        ),
{
    proof {
        reveal(super::spec::remove_participant_step);
    }
    if !ast.participants.contains_key(participant_id) {
        return Err(ApplyError::NotFound {
            kind: ObjectKind::SeqParticipant,
            object_id: participant_id.duplicate(),
        });
    }
    let ghost mv = message_views(ast.messages@);
    let ghost pid = participant_id@;
    let ghost pred = |m: MessageView| !touches(m, pid);
    let ghost f = |m: Seq<char>| seq_message_ref(d@, m);
    let ghost t0 = delta@;
    let mut kept: Vec<SequenceMessage> = Vec::new();
    let mut i: usize = 0;
    proof {
        assert(mv.take(0).filter(pred) =~= Seq::<MessageView>::empty()) by {
            reveal(Seq::filter);
        }
        assert(message_views(kept@) =~= Seq::<MessageView>::empty());
        assert(message_ids_touching(mv.take(0), pid) =~= Set::<Seq<char>>::empty());
        assert(mark_removed_all(t0, Set::<Seq<char>>::empty().map(f)) =~= t0);
    }
    while i < ast.messages.len()
        invariant
            mv == message_views(ast.messages@),
            ast.participants == old(ast).participants,
            ast.messages == old(ast).messages,
            pid == participant_id@,
            pred == (|m: MessageView| !touches(m, pid)),
            f == (|m: Seq<char>| seq_message_ref(d@, m)),
            i <= ast.messages@.len(),
            message_views(kept@) == mv.take(i as int).filter(pred),
            delta@ == mark_removed_all(t0, message_ids_touching(mv.take(i as int), pid).map(f)),
        decreases ast.messages@.len() - i,
    {
        let m = &ast.messages[i];
        let ghost k0 = kept@;
        proof {
            lemma_filter_take_step(mv, pred, i as int);
            assert(mv.take(i + 1) =~= mv.take(i as int).push(mv[i as int]));
            lemma_ids_touching_push(mv.take(i as int), mv[i as int], pid);
            assert(mv[i as int] == m@);
        }
        if m.from_participant_id.same_as(participant_id) || m.to_participant_id.same_as(participant_id) {
            delta.record_removed(message_ref_of(d, &m.message_id));
            proof {
                let before = message_ids_touching(mv.take(i as int), pid);
                before.lemma_set_map_insert_commute(m@.message_id, f);
                lemma_mark_removed_all_insert(t0, before.map(f), f(m@.message_id));
            }
        } else {
            kept.push(m.duplicate());
            proof {
                assert(message_views(kept@) =~= message_views(k0).push(m@));
            }
        }
        i = i + 1;
    }
    proof {
        assert(mv.take(i as int) =~= mv);
    }
    ast.messages = kept;
    ast.participants.remove(participant_id);
    delta.record_removed(participant_ref_of(d, participant_id));
    proof {
        assert(seq_state(*ast).participants =~= seq_state(*old(ast)).participants.remove(participant_id@));
        assert(pred =~= (|m: MessageView| !touches(m, participant_id@)));
        assert(f =~= (|m: Seq<char>| seq_message_ref(d@, m)));
    }
    Ok(())
}

fn seq_add_message(
    d: &ObjectId,
    ast: &mut SequenceAst,
    op: &SeqOp,
    delta: &mut DeltaBuilder,
) -> (r: Result<(), ApplyError>)
    requires
        op is AddMessage,
    ensures
        seq_outcome(d@, *old(ast), old(delta)@, *op, *final(ast), final(delta)@, r),
{
    proof {
        reveal(super::spec::add_message_step);
    }
    match op {
        SeqOp::AddMessage {
            message_id,
            from_participant_id,
            to_participant_id,
            kind,
            arrow,
            text,
            order_key,
        } => {
            if find_message_index(&ast.messages, message_id).is_some() {
                return Err(ApplyError::AlreadyExists {
                    kind: ObjectKind::SeqMessage,
                    object_id: message_id.duplicate(),
                });
            }
            if !ast.participants.contains_key(from_participant_id) {
                return Err(ApplyError::NotFound {
                    kind: ObjectKind::SeqParticipant,
                    object_id: from_participant_id.duplicate(),
                });
            }
            if !ast.participants.contains_key(to_participant_id) {
                return Err(ApplyError::NotFound {
                    kind: ObjectKind::SeqParticipant,
                    object_id: to_participant_id.duplicate(),
                });
            }
            if is_blank(text.as_str()) {
                return Err(ApplyError::InvalidSeqMessageText { text: text.clone() });
            }
            let mut m = SequenceMessage::new(
                message_id.duplicate(),
                from_participant_id.duplicate(),
                to_participant_id.duplicate(),
                *kind,
                text.as_str(),
                *order_key,
            );
            m.set_raw_arrow(normalize_seq_raw_arrow(*kind, dup_opt_string(arrow)));
            let ghost before = message_views(ast.messages@);
            let ghost mview = m@;
            ast.messages.push(m);
            proof {
                assert(message_views(ast.messages@) =~= before.push(mview));
            }
            sort_message_vec(&mut ast.messages);
            delta.record_added(message_ref_of(d, message_id));
            Ok(())
        },
        _ => Ok(()),
    }
}

/// `existing` rewritten by `patch`.
fn patch_message(existing: &SequenceMessage, patch: &SeqMessagePatch) -> (m: SequenceMessage)
    ensures
        m@ == patched_message(existing@, *patch),
{
    let from = match &patch.from_participant_id {
        Some(f) => f.duplicate(),
        None => existing.from_participant_id.duplicate(),
    };
    let to = match &patch.to_participant_id {
        Some(x) => x.duplicate(),
        None => existing.to_participant_id.duplicate(),
    };
    let kind = match patch.kind {
        Some(k) => k,
        None => existing.kind,
    };
    let arrow = match &patch.arrow {
        Some(a) => Some(a.clone()),
        None => dup_opt_string(&existing.raw_arrow),
    };
    let text = match &patch.text {
        Some(x) => x.clone(),
        None => existing.text.clone(),
    };
    let order_key = match patch.order_key {
        Some(k) => k,
        None => existing.order_key,
    };
    let mut m = SequenceMessage::new(existing.message_id.duplicate(), from, to, kind, text.as_str(), order_key);
    m.set_raw_arrow(normalize_seq_raw_arrow(kind, arrow));
    m
}

fn seq_update_message(
    d: &ObjectId,
    ast: &mut SequenceAst,
    message_id: &ObjectId,
    patch: &SeqMessagePatch,
    delta: &mut DeltaBuilder,
) -> (r: Result<(), ApplyError>)
    ensures
        seq_outcome(
            d@,
            *old(ast),
            old(delta)@,
            SeqOp::UpdateMessage { message_id: *message_id, patch: *patch },
            *final(ast),
            final(delta)@,
            r,
        ),
{
    proof {
        reveal(super::spec::update_message_step);
    }
    let index = match find_message_index(&ast.messages, message_id) {
        None => {
            return Err(ApplyError::NotFound { kind: ObjectKind::SeqMessage, object_id: message_id.duplicate() });
        },
        Some(i) => i,
    };
    let m = patch_message(&ast.messages[index], patch);
    let ghost st = seq_state(*ast);
    proof {
        assert(st.messages[index as int] == ast.messages@[index as int]@);
        assert(m@ == patched_message(st.messages[first_message_index(st.messages, message_id@)], *patch));
    }
    if !ast.participants.contains_key(&m.from_participant_id) {
        return Err(ApplyError::NotFound { kind: ObjectKind::SeqParticipant, object_id: m.from_participant_id });
    }
    if !ast.participants.contains_key(&m.to_participant_id) {
        return Err(ApplyError::NotFound { kind: ObjectKind::SeqParticipant, object_id: m.to_participant_id });
    }
    if is_blank(m.text.as_str()) {
        return Err(ApplyError::InvalidSeqMessageText { text: m.text });
    }
    let ghost before = message_views(ast.messages@);
    let ghost mview = m@;
    ast.messages.set(index, m);
    proof {
        assert(message_views(ast.messages@) =~= before.update(index as int, mview));
    }
    sort_message_vec(&mut ast.messages);
    delta.record_updated(message_ref_of(d, message_id));
    Ok(())
}

/// The messages whose id is not `message_id`, in order.
fn messages_without(ms: &Vec<SequenceMessage>, message_id: &ObjectId) -> (kept: Vec<SequenceMessage>)
    ensures
        message_views(kept@) == message_views(ms@).filter(|m: MessageView| m.message_id != message_id@),
{
    let ghost mv = message_views(ms@);
    let ghost mid = message_id@;
    let ghost pred = |m: MessageView| m.message_id != mid;
    let mut kept: Vec<SequenceMessage> = Vec::new();
    let mut i: usize = 0;
    proof {
        assert(mv.take(0).filter(pred) =~= Seq::<MessageView>::empty()) by {
            reveal(Seq::filter);
        }
        assert(message_views(kept@) =~= Seq::<MessageView>::empty());
    }
    while i < ms.len()
        invariant
            mv == message_views(ms@),
            mid == message_id@,
            pred == (|m: MessageView| m.message_id != mid),
            i <= ms@.len(),
            message_views(kept@) == mv.take(i as int).filter(pred),
        decreases ms@.len() - i,
    {
        let m = &ms[i];
        let ghost k0 = kept@;
        proof {
            lemma_filter_take_step(mv, pred, i as int);
            assert(mv[i as int] == m@);
        }
        if !m.message_id.same_as(message_id) {
            kept.push(m.duplicate());
            proof {
                assert(message_views(kept@) =~= message_views(k0).push(m@));
            }
        }
        i = i + 1;
    }
    proof {
        assert(mv.take(i as int) =~= mv);
        assert(pred =~= (|m: MessageView| m.message_id != message_id@));
    }
    kept
}

fn seq_remove_message(
    d: &ObjectId,
    ast: &mut SequenceAst,
    message_id: &ObjectId,
    delta: &mut DeltaBuilder,
) -> (r: Result<(), ApplyError>)
    ensures
        seq_outcome(
            d@,
            *old(ast),
            old(delta)@,
            SeqOp::RemoveMessage { message_id: *message_id },
            *final(ast),
            final(delta)@,
            r,
        ),
{
    proof {
        reveal(super::spec::remove_message_step);
    }
    if find_message_index(&ast.messages, message_id).is_none() {
        return Err(ApplyError::NotFound { kind: ObjectKind::SeqMessage, object_id: message_id.duplicate() });
    }
    ast.messages = messages_without(&ast.messages, message_id);
    delta.record_removed(message_ref_of(d, message_id));
    Ok(())
}

/// Applies one sequence operation: on success the AST and change record are those that
/// `seq_step` gives; on refusal the error is the one it gives.
pub fn apply_seq_op(
    diagram_id: &ObjectId,
    ast: &mut SequenceAst,
    op: &SeqOp,
    delta: &mut DeltaBuilder,
) -> (r: Result<(), ApplyError>)
    ensures
        seq_outcome(diagram_id@, *old(ast), old(delta)@, *op, *final(ast), final(delta)@, r),
{
    match op {
        SeqOp::AddParticipant { participant_id, mermaid_name } => seq_add_participant(
            diagram_id,
            ast,
            participant_id,
            mermaid_name,
            delta,
        ),
        SeqOp::UpdateParticipant { participant_id, .. } => seq_rewrite_participant(diagram_id, ast, participant_id, op, delta),
        SeqOp::SetParticipantNote { participant_id, .. } => seq_rewrite_participant(diagram_id, ast, participant_id, op, delta),
        SeqOp::SetParticipantSymbol { participant_id, .. } => seq_rewrite_participant(diagram_id, ast, participant_id, op, delta),
        SeqOp::RemoveParticipant { participant_id } => seq_remove_participant(diagram_id, ast, participant_id, delta),
        SeqOp::AddMessage { .. } => seq_add_message(diagram_id, ast, op, delta),
        SeqOp::UpdateMessage { message_id, patch } => seq_update_message(diagram_id, ast, message_id, patch, delta),
        SeqOp::RemoveMessage { message_id } => seq_remove_message(diagram_id, ast, message_id, delta),
    }
}

} // verus!
