//! The diagram model: identifiers, object references, flowchart and sequence ASTs, sessions.

pub mod ids;
pub mod text_path;
pub mod object_ref;
pub mod flow_ast;
pub mod seq_ast;
pub mod diagram;
pub mod walkthrough;

pub use self::diagram::{Diagram, DiagramAst, DiagramKind, KindMismatch, Session, XRef, XRefStatus};
pub use self::flow_ast::{FlowEdge, FlowNode, FlowchartAst, SymbolAnchor};
pub use self::ids::{DiagramId, IdError, ObjectId, SessionId, WalkthroughId, WalkthroughNodeId, XRefId};
pub use self::walkthrough::{Walkthrough, WalkthroughEdge, WalkthroughNode};
pub use self::object_ref::{CategoryPath, ObjectRef};
pub use self::seq_ast::{SequenceAst, SequenceMessage, SequenceMessageKind, SequenceParticipant};
