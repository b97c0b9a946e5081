//! The meaning of operations: one step per operation over the abstract diagram state, and the
//! change record (which objects were added, removed or updated) that a batch produces.

use vstd::prelude::*;
use crate::chars::{MermaidIdentError, all_ws, mermaid_ident_problem, trimmed};
use crate::model::flow_ast::{FlowEdgeView, FlowNodeView, opt_view, opt_symbol_view};
use crate::model::seq_ast::{MessageView, ParticipantView, SequenceMessageKind, first_message_index, has_message, sort_messages};
use crate::model::diagram::DiagramKind;
use crate::model::object_ref::RefView;
use crate::order::{chars_lt, lemma_chars_lt_asymmetric, lemma_chars_lt_irreflexive};
use crate::model::ids::ObjectId;
use crate::sorted_map::{OrdKey, strictly_sorted};
use super::{FlowOp, ObjectKind, Op, OpKind, SeqMessagePatch, SeqOp};

verus! {

/// How an object changed within a batch.
#[derive(Debug, Clone, Copy, PartialEq, Eq, Structural)]
pub enum ChangeTag {
    Added,
    Removed,
    Updated,
}

/// Change record: the latest change of each touched object.
pub type Changes = Map<RefView, ChangeTag>;

pub open spec fn mark_added(t: Changes, r: RefView) -> Changes {
    t.insert(r, ChangeTag::Added)
}

pub open spec fn mark_removed(t: Changes, r: RefView) -> Changes {
    t.insert(r, ChangeTag::Removed)
}

/// An update is recorded only for objects not already added or removed in the batch.
pub open spec fn mark_updated(t: Changes, r: RefView) -> Changes {
    if t.contains_key(r) {
        t
    } else {
        t.insert(r, ChangeTag::Updated)
    }
}

/// Recording an update never overrides an earlier record of the same object: an object added
/// (or removed) earlier in the batch keeps that tag, whatever updates follow; an untouched
/// object becomes updated; no other object's record changes.
pub proof fn lemma_update_keeps_earlier_tag(t: Changes, r: RefView)
    ensures
        t.contains_key(r) ==> mark_updated(t, r)[r] == t[r],
        !t.contains_key(r) ==> mark_updated(t, r)[r] == ChangeTag::Updated,
        mark_updated(t, r).dom() == t.dom().insert(r),
        forall|o: RefView| #[trigger] t.contains_key(o) ==> mark_updated(t, r)[o] == t[o],
        mark_updated(mark_added(t, r), r)[r] == ChangeTag::Added,
        mark_updated(mark_removed(t, r), r)[r] == ChangeTag::Removed,
{
    assert(mark_updated(t, r).dom() =~= t.dom().insert(r));
}

/// Marks every reference in `rs` as removed.
pub open spec fn mark_removed_all(t: Changes, rs: Set<RefView>) -> Changes {
    Map::new(
        |r: RefView| t.contains_key(r) || rs.contains(r),
        |r: RefView|
            if rs.contains(r) {
                ChangeTag::Removed
            } else {
                t[r]
            },
    )
}

pub open spec fn object_ref_view(d: Seq<char>, a: Seq<char>, b: Seq<char>, id: Seq<char>) -> RefView {
    (d, seq![a, b], id)
}

pub open spec fn flow_node_ref(d: Seq<char>, id: Seq<char>) -> RefView {
    object_ref_view(d, "flow"@, "node"@, id)
}

pub open spec fn flow_edge_ref(d: Seq<char>, id: Seq<char>) -> RefView {
    object_ref_view(d, "flow"@, "edge"@, id)
}

pub open spec fn seq_participant_ref(d: Seq<char>, id: Seq<char>) -> RefView {
    object_ref_view(d, "seq"@, "participant"@, id)
}

pub open spec fn seq_message_ref(d: Seq<char>, id: Seq<char>) -> RefView {
    object_ref_view(d, "seq"@, "message"@, id)
}

/// Abstract values of operation errors.
pub enum ApplyErrorView {
    Conflict { base_rev: u64, current_rev: u64 },
    KindMismatch { diagram_kind: DiagramKind, op_kind: OpKind },
    UnsupportedOp { op_kind: OpKind },
    AlreadyExists { kind: ObjectKind, object_id: Seq<char> },
    NotFound { kind: ObjectKind, object_id: Seq<char> },
    MissingFlowNode { node_id: Seq<char> },
    InvalidFlowNodeMermaidId { mermaid_id: Seq<char>, reason: MermaidIdentError },
    DuplicateFlowNodeMermaidId { mermaid_id: Seq<char>, node_id: Seq<char> },
    InvalidSeqParticipantMermaidName { mermaid_name: Seq<char>, reason: MermaidIdentError },
    DuplicateSeqParticipantMermaidName { mermaid_name: Seq<char>, participant_id: Seq<char> },
    InvalidSeqMessageText { text: Seq<char> },
}

/// Abstract flowchart: nodes and edges by id.
pub struct FlowState {
    pub nodes: Map<Seq<char>, FlowNodeView>,
    pub edges: Map<Seq<char>, FlowEdgeView>,
}

/// Abstract sequence diagram: participants by id, messages in stored order.
pub struct SeqState {
    pub participants: Map<Seq<char>, ParticipantView>,
    pub messages: Seq<MessageView>,
}

/// Abstract diagram content.
pub enum AstState {
    Sequence(SeqState),
    Flow(FlowState),
}

// ---------------------------------------------------------------------------------------------
// Normalisation of arrow and connector tokens
// ---------------------------------------------------------------------------------------------

/// The arrow that a message kind is written with by default.
pub open spec fn canonical_arrow(kind: SequenceMessageKind) -> Seq<char> {
    match kind {
        SequenceMessageKind::Sync => "->>"@,
        SequenceMessageKind::Async => "-)"@,
        SequenceMessageKind::Return => "-->>"@,
    }
}

/// A message keeps its arrow only when, trimmed, it is non-empty and not the kind's default.
pub open spec fn norm_arrow(kind: SequenceMessageKind, raw: Option<Seq<char>>) -> Option<Seq<char>> {
    match raw {
        None => None,
        Some(a) => {
            let t = trimmed(a);
            if t.len() == 0 || t == canonical_arrow(kind) {
                None
            } else {
                Some(t)
            }
        },
    }
}

/// `s` with every occurrence of `c` removed.
pub open spec fn remove_char(s: Seq<char>, c: char) -> Seq<char>
    decreases s.len(),
{
    if s.len() == 0 {
        s
    } else if s.last() == c {
        remove_char(s.drop_last(), c)
    } else {
        remove_char(s.drop_last(), c).push(s.last())
    }
}

/// A connector written only with a left arrow (`<--`, `<--o`) is turned around to point right,
/// keeping a trailing `o`/`x` decoration last.
pub open spec fn flip_left_connector(t: Seq<char>) -> Seq<char> {
    let r = remove_char(t, '<');
    if r.len() > 0 && (r.last() == 'o' || r.last() == 'x') {
        r.drop_last().push('>').push(r.last())
    } else {
        r.push('>')
    }
}

/// A connector is kept only when, trimmed and turned around, it is not the default `-->`.
pub open spec fn norm_connector(raw: Option<Seq<char>>) -> Option<Seq<char>> {
    match raw {
        None => None,
        Some(a) => {
            let t = trimmed(a);
            if t.len() == 0 {
                None
            } else {
                let u = if t.contains('<') && !t.contains('>') {
                    flip_left_connector(t)
                } else {
                    t
                };
                if u == "-->"@ {
                    None
                } else {
                    Some(u)
                }
            }
        },
    }
}

// ---------------------------------------------------------------------------------------------
// Identity rules
// ---------------------------------------------------------------------------------------------

/// The Mermaid id a flow node is known by: its explicit id, else its object id without `n:`.
pub open spec fn flow_mermaid_key(node_id: Seq<char>, node: FlowNodeView) -> Option<Seq<char>> {
    match node.mermaid_id {
        Some(m) => Some(m),
        None => if node_id.len() >= 2 && node_id[0] == 'n' && node_id[1] == ':' {
            Some(node_id.skip(2))
        } else {
            None
        },
    }
}

/// Another node (not `node_id`) already uses Mermaid id `key`.
pub open spec fn flow_key_taken_by(
    nodes: Map<Seq<char>, FlowNodeView>,
    node_id: Seq<char>,
    key: Seq<char>,
    other: Seq<char>,
) -> bool {
    &&& nodes.contains_key(other)
    &&& other != node_id
    &&& flow_mermaid_key(other, nodes[other]) == Some(key)
}

/// The least identifier (in identifier order) satisfying `p`, if any does.
pub open spec fn least_such(p: spec_fn(Seq<char>) -> bool) -> Option<Seq<char>> {
    if exists|o: Seq<char>| #[trigger] p(o) {
        Some(choose|o: Seq<char>| #[trigger] p(o) && forall|q: Seq<char>| #[trigger] p(q) ==> !chars_lt(q, o))
    } else {
        None
    }
}

/// Scanning ascending identifiers, the first one that satisfies `p` is the least such.
pub proof fn lemma_least_such_found(p: spec_fn(Seq<char>) -> bool, ks: Seq<Seq<char>>, i: int)
    requires
        strictly_sorted::<ObjectId>(ks),
        forall|o: Seq<char>| #[trigger] p(o) ==> ks.contains(o),
        0 <= i < ks.len(),
        p(ks[i]),
        forall|j: int| 0 <= j < i ==> !p(#[trigger] ks[j]),
    ensures
        least_such(p) == Some(ks[i]),
{
    assert forall|q: Seq<char>| #[trigger] p(q) implies !chars_lt(q, ks[i]) by {
        let j = choose|j: int| 0 <= j < ks.len() && ks[j] == q;
        if j > i {
            assert(ObjectId::key_lt(ks[i], ks[j]) && ks[j] == ks[j]);
            lemma_chars_lt_asymmetric(ks[i], ks[j]);
        } else if j == i {
            lemma_chars_lt_irreflexive(q);
        }
    }
    let o = choose|o: Seq<char>| #[trigger] p(o) && forall|q: Seq<char>| #[trigger] p(q) ==> !chars_lt(q, o);
    assert(p(o));
    let j = choose|j: int| 0 <= j < ks.len() && ks[j] == o;
    if j > i {
        assert(ObjectId::key_lt(ks[i], ks[j]) && ks[j] == ks[j]);
    } else if j < i {
        assert(!p(ks[j]));
    }
}

/// When no identifier of an exhaustive list satisfies `p`, none does.
pub proof fn lemma_least_such_none(p: spec_fn(Seq<char>) -> bool, ks: Seq<Seq<char>>)
    requires
        forall|o: Seq<char>| #[trigger] p(o) ==> ks.contains(o),
        forall|j: int| 0 <= j < ks.len() ==> !p(#[trigger] ks[j]),
    ensures
        least_such(p) is None,
{
    if exists|o: Seq<char>| #[trigger] p(o) {
        let o = choose|o: Seq<char>| #[trigger] p(o);
        let j = choose|j: int| 0 <= j < ks.len() && ks[j] == o;
        assert(!p(ks[j]));
    }
}

/// The first (least id) node other than `node_id` using Mermaid id `key`.
pub open spec fn first_flow_key_owner(
    nodes: Map<Seq<char>, FlowNodeView>,
    node_id: Seq<char>,
    key: Seq<char>,
) -> Option<Seq<char>> {
    least_such(|o: Seq<char>| flow_key_taken_by(nodes, node_id, key, o))
}

/// Why `node` (to be stored under `node_id`) would break the Mermaid identity rules.
pub open spec fn flow_identity_problem(
    nodes: Map<Seq<char>, FlowNodeView>,
    node_id: Seq<char>,
    node: FlowNodeView,
) -> Option<ApplyErrorView> {
    match flow_mermaid_key(node_id, node) {
        None => Some(
            ApplyErrorView::InvalidFlowNodeMermaidId {
                mermaid_id: node_id,
                reason: MermaidIdentError::Empty,
            },
        ),
        Some(key) => match mermaid_ident_problem(key) {
            Some(reason) => Some(ApplyErrorView::InvalidFlowNodeMermaidId { mermaid_id: key, reason }),
            None => match first_flow_key_owner(nodes, node_id, key) {
                Some(o) => Some(
                    ApplyErrorView::DuplicateFlowNodeMermaidId { mermaid_id: key, node_id: o },
                ),
                None => None,
            },
        },
    }
}

/// Another participant (not `pid`) already has Mermaid name `name`.
pub open spec fn seq_name_taken_by(
    ps: Map<Seq<char>, ParticipantView>,
    pid: Seq<char>,
    name: Seq<char>,
    other: Seq<char>,
) -> bool {
    &&& ps.contains_key(other)
    &&& other != pid
    &&& ps[other].mermaid_name == name
}

/// The first (least id) participant other than `pid` named `name`.
pub open spec fn first_name_owner(
    ps: Map<Seq<char>, ParticipantView>,
    pid: Seq<char>,
    name: Seq<char>,
) -> Option<Seq<char>> {
    least_such(|o: Seq<char>| seq_name_taken_by(ps, pid, name, o))
}

/// Why participant `pid` may not take Mermaid name `name`.
pub open spec fn seq_name_problem(
    ps: Map<Seq<char>, ParticipantView>,
    pid: Seq<char>,
    name: Seq<char>,
) -> Option<ApplyErrorView> {
    match mermaid_ident_problem(name) {
        Some(reason) => Some(ApplyErrorView::InvalidSeqParticipantMermaidName { mermaid_name: name, reason }),
        None => match first_name_owner(ps, pid, name) {
            Some(o) => Some(
                ApplyErrorView::DuplicateSeqParticipantMermaidName { mermaid_name: name, participant_id: o },
            ),
            None => None,
        },
    }
}

// ---------------------------------------------------------------------------------------------
// Flowchart steps
// ---------------------------------------------------------------------------------------------

pub open spec fn or_else<T>(a: Option<T>, b: Option<T>) -> Option<T> {
    match a {
        Some(x) => Some(x),
        None => b,
    }
}

/// Ids of the edges that touch node `n`.
pub open spec fn edges_touching(edges: Map<Seq<char>, FlowEdgeView>, n: Seq<char>) -> Set<Seq<char>> {
    Set::new(
        |e: Seq<char>|
            edges.contains_key(e) && (edges[e].from_node_id == n || edges[e].to_node_id == n),
    )
}

/// One flowchart operation: the new state and change record, or the error it is refused with.
pub open spec fn flow_step(d: Seq<char>, st: FlowState, t: Changes, op: FlowOp) -> Result<(FlowState, Changes), ApplyErrorView> {
    let nodes = st.nodes;
    let edges = st.edges;
    match op {
        FlowOp::AddNode { node_id, label, shape } => {
            let id = node_id@;
            if nodes.contains_key(id) {
                Err(ApplyErrorView::AlreadyExists { kind: ObjectKind::FlowNode, object_id: id })
            } else {
                let node = FlowNodeView {
                    label: label@,
                    shape: match shape {
                        Some(s) => s@,
                        None => "rect"@,
                    },
                    mermaid_id: None,
                    note: None,
                    symbol: None,
                };
                match flow_identity_problem(nodes, id, node) {
                    Some(e) => Err(e),
                    None => Ok((FlowState { nodes: nodes.insert(id, node), edges }, mark_added(t, flow_node_ref(d, id)))),
                }
            }
        },
        FlowOp::UpdateNode { node_id, patch } => {
            let id = node_id@;
            if !nodes.contains_key(id) {
                Err(ApplyErrorView::NotFound { kind: ObjectKind::FlowNode, object_id: id })
            } else {
                let old = nodes[id];
                let node = FlowNodeView {
                    label: match patch.label {
                        Some(l) => l@,
                        None => old.label,
                    },
                    shape: match patch.shape {
                        Some(s) => s@,
                        None => old.shape,
                    },
                    ..old
                };
                Ok((FlowState { nodes: nodes.insert(id, node), edges }, mark_updated(t, flow_node_ref(d, id))))
            }
        },
        FlowOp::SetNodeMermaidId { node_id, mermaid_id } => {
            let id = node_id@;
            if !nodes.contains_key(id) {
                Err(ApplyErrorView::NotFound { kind: ObjectKind::FlowNode, object_id: id })
            } else {
                let node = FlowNodeView { mermaid_id: opt_view(mermaid_id), ..nodes[id] };
                match flow_identity_problem(nodes, id, node) {
                    Some(e) => Err(e),
                    None => Ok((FlowState { nodes: nodes.insert(id, node), edges }, mark_updated(t, flow_node_ref(d, id)))),
                }
            }
        },
        FlowOp::SetNodeNote { node_id, note } => {
            let id = node_id@;
            if !nodes.contains_key(id) {
                Err(ApplyErrorView::NotFound { kind: ObjectKind::FlowNode, object_id: id })
            } else {
                let node = FlowNodeView { note: opt_view(note), ..nodes[id] };
                Ok((FlowState { nodes: nodes.insert(id, node), edges }, mark_updated(t, flow_node_ref(d, id))))
            }
        },
        FlowOp::SetNodeSymbol { node_id, symbol } => {
            let id = node_id@;
            if !nodes.contains_key(id) {
                Err(ApplyErrorView::NotFound { kind: ObjectKind::FlowNode, object_id: id })
            } else {
                let node = FlowNodeView { symbol: opt_symbol_view(symbol), ..nodes[id] };
                Ok((FlowState { nodes: nodes.insert(id, node), edges }, mark_updated(t, flow_node_ref(d, id))))
            }
        },
        FlowOp::RemoveNode { node_id } => {
            let id = node_id@;
            if !nodes.contains_key(id) {
                Err(ApplyErrorView::NotFound { kind: ObjectKind::FlowNode, object_id: id })
            } else {
                let gone = edges_touching(edges, id);
                let t1 = mark_removed_all(t, gone.map(|e: Seq<char>| flow_edge_ref(d, e)));
                Ok((
                    FlowState { nodes: nodes.remove(id), edges: edges.remove_keys(gone) },
                    mark_removed(t1, flow_node_ref(d, id)),
                ))
            }
        },
        FlowOp::AddEdge { edge_id, from_node_id, to_node_id, label, connector, style } => {
            let id = edge_id@;
            if edges.contains_key(id) {
                Err(ApplyErrorView::AlreadyExists { kind: ObjectKind::FlowEdge, object_id: id })
            } else if !nodes.contains_key(from_node_id@) {
                Err(ApplyErrorView::MissingFlowNode { node_id: from_node_id@ })
            } else if !nodes.contains_key(to_node_id@) {
                Err(ApplyErrorView::MissingFlowNode { node_id: to_node_id@ })
            } else {
                let edge = FlowEdgeView {
                    from_node_id: from_node_id@,
                    to_node_id: to_node_id@,
                    label: opt_view(label),
                    connector: norm_connector(opt_view(connector)),
                    style: opt_view(style),
                };
                Ok((FlowState { nodes, edges: edges.insert(id, edge) }, mark_added(t, flow_edge_ref(d, id))))
            }
        },
        FlowOp::UpdateEdge { edge_id, patch } => {
            let id = edge_id@;
            if !edges.contains_key(id) {
                Err(ApplyErrorView::NotFound { kind: ObjectKind::FlowEdge, object_id: id })
            } else {
                let old = edges[id];
                let from = match patch.from_node_id {
                    Some(f) => f@,
                    None => old.from_node_id,
                };
                let to = match patch.to_node_id {
                    Some(x) => x@,
                    None => old.to_node_id,
                };
                if !nodes.contains_key(from) {
                    Err(ApplyErrorView::MissingFlowNode { node_id: from })
                } else if !nodes.contains_key(to) {
                    Err(ApplyErrorView::MissingFlowNode { node_id: to })
                } else {
                    let edge = FlowEdgeView {
                        from_node_id: from,
                        to_node_id: to,
                        label: or_else(opt_view(patch.label), old.label),
                        connector: norm_connector(or_else(opt_view(patch.connector), old.connector)),
                        style: or_else(opt_view(patch.style), old.style),
                    };
                    Ok((FlowState { nodes, edges: edges.insert(id, edge) }, mark_updated(t, flow_edge_ref(d, id))))
                }
            }
        },
        FlowOp::RemoveEdge { edge_id } => {
            let id = edge_id@;
            if !edges.contains_key(id) {
                Err(ApplyErrorView::NotFound { kind: ObjectKind::FlowEdge, object_id: id })
            } else {
                Ok((FlowState { nodes, edges: edges.remove(id) }, mark_removed(t, flow_edge_ref(d, id))))
            }
        },
    }
}

// ---------------------------------------------------------------------------------------------
// Sequence steps
// ---------------------------------------------------------------------------------------------

/// Messages from or to participant `p`.
pub open spec fn touches(m: MessageView, p: Seq<char>) -> bool {
    m.from_participant_id == p || m.to_participant_id == p
}

/// Message ids of the messages touching participant `p`.
pub open spec fn message_ids_touching(ms: Seq<MessageView>, p: Seq<char>) -> Set<Seq<char>> {
    Set::new(|id: Seq<char>| exists|i: int| 0 <= i < ms.len() && (#[trigger] ms[i]).message_id == id && touches(ms[i], p))
}

/// One sequence operation: the new state and change record, or the error it is refused with.
pub open spec fn seq_step(d: Seq<char>, st: SeqState, t: Changes, op: SeqOp) -> Result<(SeqState, Changes), ApplyErrorView> {
    let ps = st.participants;
    let ms = st.messages;
    match op {
        SeqOp::AddParticipant { participant_id, mermaid_name } => {
            let id = participant_id@;
            if ps.contains_key(id) {
                Err(ApplyErrorView::AlreadyExists { kind: ObjectKind::SeqParticipant, object_id: id })
            } else {
                match seq_name_problem(ps, id, mermaid_name@) {
                    Some(e) => Err(e),
                    None => {
                        let p = ParticipantView { mermaid_name: mermaid_name@, role: None, note: None, symbol: None };
                        Ok((SeqState { participants: ps.insert(id, p), messages: ms }, mark_added(t, seq_participant_ref(d, id))))
                    },
                }
            }
        },
        SeqOp::UpdateParticipant { participant_id, patch } => {
            let id = participant_id@;
            if !ps.contains_key(id) {
                Err(ApplyErrorView::NotFound { kind: ObjectKind::SeqParticipant, object_id: id })
            } else {
                match patch.mermaid_name {
                    None => Ok((st, mark_updated(t, seq_participant_ref(d, id)))),
                    Some(name) => match seq_name_problem(ps, id, name@) {
                        Some(e) => Err(e),
                        None => {
                            let p = ParticipantView { mermaid_name: name@, ..ps[id] };
                            Ok((SeqState { participants: ps.insert(id, p), messages: ms }, mark_updated(t, seq_participant_ref(d, id))))
                        },
                    },
                }
            }
        },
        SeqOp::SetParticipantNote { participant_id, note } => {
            let id = participant_id@;
            if !ps.contains_key(id) {
                Err(ApplyErrorView::NotFound { kind: ObjectKind::SeqParticipant, object_id: id })
            } else {
                let p = ParticipantView { note: opt_view(note), ..ps[id] };
                Ok((SeqState { participants: ps.insert(id, p), messages: ms }, mark_updated(t, seq_participant_ref(d, id))))
            }
        },
        SeqOp::SetParticipantSymbol { participant_id, symbol } => {
            let id = participant_id@;
            if !ps.contains_key(id) {
                Err(ApplyErrorView::NotFound { kind: ObjectKind::SeqParticipant, object_id: id })
            } else {
                let p = ParticipantView { symbol: opt_symbol_view(symbol), ..ps[id] };
                Ok((SeqState { participants: ps.insert(id, p), messages: ms }, mark_updated(t, seq_participant_ref(d, id))))
            }
        },
        SeqOp::RemoveParticipant { participant_id } => remove_participant_step(d, st, t, participant_id@),
        SeqOp::AddMessage { message_id, from_participant_id, to_participant_id, kind, arrow, text, order_key } =>
            add_message_step(d, st, t, message_id@, from_participant_id@, to_participant_id@, kind, opt_view(arrow), text@, order_key),
        SeqOp::UpdateMessage { message_id, patch } => update_message_step(d, st, t, message_id@, patch),
        SeqOp::RemoveMessage { message_id } => remove_message_step(d, st, t, message_id@),
    }
}

/// Removing a participant removes the messages from or to it.
#[verifier::opaque]
pub open spec fn remove_participant_step(d: Seq<char>, st: SeqState, t: Changes, id: Seq<char>) -> Result<(SeqState, Changes), ApplyErrorView> {
    let ps = st.participants;
    let ms = st.messages;
    if !ps.contains_key(id) {
        Err(ApplyErrorView::NotFound { kind: ObjectKind::SeqParticipant, object_id: id })
    } else {
        let gone = message_ids_touching(ms, id);
        let t1 = mark_removed_all(t, gone.map(|m: Seq<char>| seq_message_ref(d, m)));
        Ok((
            SeqState { participants: ps.remove(id), messages: ms.filter(|m: MessageView| !touches(m, id)) },
            mark_removed(t1, seq_participant_ref(d, id)),
        ))
    }
}

/// Adding a message between two existing participants, kept in message order.
#[verifier::opaque]
pub open spec fn add_message_step(
    d: Seq<char>,
    st: SeqState,
    t: Changes,
    id: Seq<char>,
    from: Seq<char>,
    to: Seq<char>,
    kind: SequenceMessageKind,
    arrow: Option<Seq<char>>,
    text: Seq<char>,
    order_key: i64,
) -> Result<(SeqState, Changes), ApplyErrorView> {
    let ps = st.participants;
    let ms = st.messages;
    if has_message(ms, id) {
        Err(ApplyErrorView::AlreadyExists { kind: ObjectKind::SeqMessage, object_id: id })
    } else if !ps.contains_key(from) {
        Err(ApplyErrorView::NotFound { kind: ObjectKind::SeqParticipant, object_id: from })
    } else if !ps.contains_key(to) {
        Err(ApplyErrorView::NotFound { kind: ObjectKind::SeqParticipant, object_id: to })
    } else if all_ws(text) {
        Err(ApplyErrorView::InvalidSeqMessageText { text })
    } else {
        let m = MessageView {
            message_id: id,
            from_participant_id: from,
            to_participant_id: to,
            kind,
            text,
            order_key,
            raw_arrow: norm_arrow(kind, arrow),
        };
        Ok((SeqState { participants: ps, messages: sort_messages(ms.push(m)) }, mark_added(t, seq_message_ref(d, id))))
    }
}

/// A message rewritten by a patch: unset patch fields keep their values.
pub open spec fn patched_message(old: MessageView, patch: SeqMessagePatch) -> MessageView {
    let kind = match patch.kind {
        Some(k) => k,
        None => old.kind,
    };
    MessageView {
        message_id: old.message_id,
        from_participant_id: match patch.from_participant_id {
            Some(f) => f@,
            None => old.from_participant_id,
        },
        to_participant_id: match patch.to_participant_id {
            Some(x) => x@,
            None => old.to_participant_id,
        },
        kind,
        text: match patch.text {
            Some(x) => x@,
            None => old.text,
        },
        order_key: match patch.order_key {
            Some(k) => k,
            None => old.order_key,
        },
        raw_arrow: norm_arrow(kind, or_else(opt_view(patch.arrow), old.raw_arrow)),
    }
}

/// Rewriting the first message with the given id.
#[verifier::opaque]
pub open spec fn update_message_step(d: Seq<char>, st: SeqState, t: Changes, id: Seq<char>, patch: SeqMessagePatch) -> Result<(SeqState, Changes), ApplyErrorView> {
    let ps = st.participants;
    let ms = st.messages;
    if !has_message(ms, id) {
        Err(ApplyErrorView::NotFound { kind: ObjectKind::SeqMessage, object_id: id })
    } else {
        let i = first_message_index(ms, id);
        let m = patched_message(ms[i], patch);
        if !ps.contains_key(m.from_participant_id) {
            Err(ApplyErrorView::NotFound { kind: ObjectKind::SeqParticipant, object_id: m.from_participant_id })
        } else if !ps.contains_key(m.to_participant_id) {
            Err(ApplyErrorView::NotFound { kind: ObjectKind::SeqParticipant, object_id: m.to_participant_id })
        } else if all_ws(m.text) {
            Err(ApplyErrorView::InvalidSeqMessageText { text: m.text })
        } else {
            Ok((SeqState { participants: ps, messages: sort_messages(ms.update(i, m)) }, mark_updated(t, seq_message_ref(d, id))))
        }
    }
}

/// Removing every message with the given id.
#[verifier::opaque]
pub open spec fn remove_message_step(d: Seq<char>, st: SeqState, t: Changes, id: Seq<char>) -> Result<(SeqState, Changes), ApplyErrorView> {
    let ps = st.participants;
    let ms = st.messages;
    if !has_message(ms, id) {
        Err(ApplyErrorView::NotFound { kind: ObjectKind::SeqMessage, object_id: id })
    } else {
        Ok((
            SeqState { participants: ps, messages: ms.filter(|m: MessageView| m.message_id != id) },
            mark_removed(t, seq_message_ref(d, id)),
        ))
    }
}

// ---------------------------------------------------------------------------------------------
// Batches
// ---------------------------------------------------------------------------------------------

pub open spec fn state_kind(a: AstState) -> DiagramKind {
    match a {
        AstState::Sequence(_) => DiagramKind::Sequence,
        AstState::Flow(_) => DiagramKind::Flowchart,
    }
}

/// One operation against a diagram of the state's kind.
pub open spec fn op_step(d: Seq<char>, a: AstState, t: Changes, op: Op) -> Result<(AstState, Changes), ApplyErrorView> {
    match op {
        Op::Sequence(sop) => match a {
            AstState::Sequence(s) => match seq_step(d, s, t, sop) {
                Ok((s2, t2)) => Ok((AstState::Sequence(s2), t2)),
                Err(e) => Err(e),
            },
            _ => Err(ApplyErrorView::KindMismatch { diagram_kind: state_kind(a), op_kind: OpKind::Sequence }),
        },
        Op::Flow(fop) => match a {
            AstState::Flow(f) => match flow_step(d, f, t, fop) {
                Ok((f2, t2)) => Ok((AstState::Flow(f2), t2)),
                Err(e) => Err(e),
            },
            _ => Err(ApplyErrorView::KindMismatch { diagram_kind: state_kind(a), op_kind: OpKind::Flow }),
        },
        Op::XRef(_) => Err(ApplyErrorView::UnsupportedOp { op_kind: OpKind::XRef }),
    }
}

/// Operations applied in order; the first refusal refuses the whole batch.
pub open spec fn apply_all(d: Seq<char>, a: AstState, ops: Seq<Op>) -> Result<(AstState, Changes), ApplyErrorView>
    decreases ops.len(),
{
    if ops.len() == 0 {
        Ok((a, Map::empty()))
    } else {
        match apply_all(d, a, ops.drop_last()) {
            Err(e) => Err(e),
            Ok((a1, t1)) => op_step(d, a1, t1, ops.last()),
        }
    }
}

} // verus!
