//! Mutation operations for diagrams.
//!
//! Operations are applied with optimistic concurrency (revision checks) and produce a minimal
//! delta that tells which objects were added, removed or updated.

pub mod spec;
pub mod normalize;
pub mod delta;
pub mod flow_apply;
pub mod seq_apply;
pub mod apply;

pub use self::apply::apply_ops;






use vstd::prelude::*;
use crate::chars::MermaidIdentError;
use crate::model::diagram::DiagramKind;
use crate::model::flow_ast::SymbolAnchor;
use crate::model::ids::{ObjectId, XRefId};
use crate::model::object_ref::ObjectRef;
use crate::model::seq_ast::SequenceMessageKind;
use self::spec::ApplyErrorView;



verus! {

#[derive(Debug, Clone, PartialEq, Eq)]
pub enum Op {
    Sequence(SeqOp),
    Flow(FlowOp),
    XRef(XRefOp),
}

#[derive(Debug, Clone, PartialEq, Eq)]
pub enum SeqOp {
    AddParticipant { participant_id: ObjectId, mermaid_name: String },
    UpdateParticipant { participant_id: ObjectId, patch: SeqParticipantPatch },
    SetParticipantNote { participant_id: ObjectId, note: Option<String> },
    SetParticipantSymbol { participant_id: ObjectId, symbol: Option<SymbolAnchor> },
    RemoveParticipant { participant_id: ObjectId },
    AddMessage {
        message_id: ObjectId,
        from_participant_id: ObjectId,
        to_participant_id: ObjectId,
        kind: SequenceMessageKind,
        arrow: Option<String>,
        text: String,
        order_key: i64,
    },
    UpdateMessage { message_id: ObjectId, patch: SeqMessagePatch },
    RemoveMessage { message_id: ObjectId },
}

#[derive(Debug, Clone, PartialEq, Eq)]
pub struct SeqParticipantPatch {
    pub mermaid_name: Option<String>,
}

impl Default for SeqParticipantPatch {
    fn default() -> (p: Self)
        ensures
            p.mermaid_name is None,
    {
        SeqParticipantPatch { mermaid_name: None }
    }
}

#[derive(Debug, Clone, PartialEq, Eq)]
pub struct SeqMessagePatch {
    pub from_participant_id: Option<ObjectId>,
    pub to_participant_id: Option<ObjectId>,
    pub kind: Option<SequenceMessageKind>,
    pub arrow: Option<String>,
    pub text: Option<String>,
    pub order_key: Option<i64>,
}

impl Default for SeqMessagePatch {
    fn default() -> (p: Self)
        ensures
            p.from_participant_id is None,
            p.to_participant_id is None,
            p.kind is None,
            p.arrow is None,
            p.text is None,
            p.order_key is None,
    {
        SeqMessagePatch {
            from_participant_id: None,
            to_participant_id: None,
            kind: None,
            arrow: None,
            text: None,
            order_key: None,
        }
    }
}

#[derive(Debug, Clone, PartialEq, Eq)]
pub enum FlowOp {
    AddNode { node_id: ObjectId, label: String, shape: Option<String> },
    UpdateNode { node_id: ObjectId, patch: FlowNodePatch },
    SetNodeMermaidId { node_id: ObjectId, mermaid_id: Option<String> },
    SetNodeNote { node_id: ObjectId, note: Option<String> },
    SetNodeSymbol { node_id: ObjectId, symbol: Option<SymbolAnchor> },
    RemoveNode { node_id: ObjectId },
    AddEdge {
        edge_id: ObjectId,
        from_node_id: ObjectId,
        to_node_id: ObjectId,
        label: Option<String>,
        connector: Option<String>,
        style: Option<String>,
    },
    UpdateEdge { edge_id: ObjectId, patch: FlowEdgePatch },
    RemoveEdge { edge_id: ObjectId },
}

#[derive(Debug, Clone, PartialEq, Eq)]
pub struct FlowNodePatch {
    pub label: Option<String>,
    pub shape: Option<String>,
}

impl Default for FlowNodePatch {
    fn default() -> (p: Self)
        ensures
            p.label is None,
            p.shape is None,
    {
        FlowNodePatch { label: None, shape: None }
    }
}

#[derive(Debug, Clone, PartialEq, Eq)]
pub struct FlowEdgePatch {
    pub from_node_id: Option<ObjectId>,
    pub to_node_id: Option<ObjectId>,
    pub label: Option<String>,
    pub connector: Option<String>,
    pub style: Option<String>,
}

impl Default for FlowEdgePatch {
    fn default() -> (p: Self)
        ensures
            p.from_node_id is None,
            p.to_node_id is None,
            p.label is None,
            p.connector is None,
            p.style is None,
    {
        FlowEdgePatch { from_node_id: None, to_node_id: None, label: None, connector: None, style: None }
    }
}

#[derive(Debug, Clone, PartialEq, Eq)]
pub enum XRefOp {
    Add { xref_id: XRefId, from: ObjectRef, to: ObjectRef, kind: String, label: Option<String> },
    Remove { xref_id: XRefId },
}

#[derive(Debug, Clone, PartialEq, Eq)]
pub struct ApplyResult {
    pub new_rev: u64,
    pub applied: usize,
    pub delta: Delta,
}

/// Minimal delta describing which objects changed as the result of applying ops.
///
/// Each list is sorted by reference (diagram id, then category, then object id).
#[derive(Debug, Clone, PartialEq, Eq)]
pub struct Delta {
    pub added: Vec<ObjectRef>,
    pub removed: Vec<ObjectRef>,
    pub updated: Vec<ObjectRef>,
}

impl Default for Delta {
    fn default() -> (d: Self)
        ensures
            d.added@.len() == 0,
            d.removed@.len() == 0,
            d.updated@.len() == 0,
    {
        Delta { added: Vec::new(), removed: Vec::new(), updated: Vec::new() }
    }
}

#[derive(Debug, Clone, Copy, PartialEq, Eq, Structural)]
pub enum OpKind {
    Sequence,
    Flow,
    XRef,
}

#[derive(Debug, Clone, Copy, PartialEq, Eq, Structural)]
pub enum ObjectKind {
    SeqParticipant,
    SeqMessage,
    FlowNode,
    FlowEdge,
}

#[derive(Debug, Clone, PartialEq, Eq)]
pub enum ApplyError {
    Conflict { base_rev: u64, current_rev: u64 },
    KindMismatch { diagram_kind: DiagramKind, op_kind: OpKind },
    UnsupportedOp { op_kind: OpKind },
    AlreadyExists { kind: ObjectKind, object_id: ObjectId },
    NotFound { kind: ObjectKind, object_id: ObjectId },
    MissingFlowNode { node_id: ObjectId },
    InvalidFlowNodeMermaidId { mermaid_id: String, reason: MermaidIdentError },
    DuplicateFlowNodeMermaidId { mermaid_id: String, node_id: ObjectId },
    InvalidSeqParticipantMermaidName { mermaid_name: String, reason: MermaidIdentError },
    DuplicateSeqParticipantMermaidName { mermaid_name: String, participant_id: ObjectId },
    InvalidSeqMessageText { text: String },
}

impl View for ApplyError {
    type V = ApplyErrorView;

    open spec fn view(&self) -> ApplyErrorView {
        match self {
            ApplyError::Conflict { base_rev, current_rev } => ApplyErrorView::Conflict { base_rev: *base_rev, current_rev: *current_rev },
            ApplyError::KindMismatch { diagram_kind, op_kind } => ApplyErrorView::KindMismatch { diagram_kind: *diagram_kind, op_kind: *op_kind },
            ApplyError::UnsupportedOp { op_kind } => ApplyErrorView::UnsupportedOp { op_kind: *op_kind },
            ApplyError::AlreadyExists { kind, object_id } => ApplyErrorView::AlreadyExists { kind: *kind, object_id: object_id@ },
            ApplyError::NotFound { kind, object_id } => ApplyErrorView::NotFound { kind: *kind, object_id: object_id@ },
            ApplyError::MissingFlowNode { node_id } => ApplyErrorView::MissingFlowNode { node_id: node_id@ },
            ApplyError::InvalidFlowNodeMermaidId { mermaid_id, reason } => ApplyErrorView::InvalidFlowNodeMermaidId { mermaid_id: mermaid_id@, reason: *reason },
            ApplyError::DuplicateFlowNodeMermaidId { mermaid_id, node_id } => ApplyErrorView::DuplicateFlowNodeMermaidId { mermaid_id: mermaid_id@, node_id: node_id@ },
            ApplyError::InvalidSeqParticipantMermaidName { mermaid_name, reason } => ApplyErrorView::InvalidSeqParticipantMermaidName { mermaid_name: mermaid_name@, reason: *reason },
            ApplyError::DuplicateSeqParticipantMermaidName { mermaid_name, participant_id } => ApplyErrorView::DuplicateSeqParticipantMermaidName { mermaid_name: mermaid_name@, participant_id: participant_id@ },
            ApplyError::InvalidSeqMessageText { text } => ApplyErrorView::InvalidSeqMessageText { text: text@ },
        }
    }
}

} // verus!
