//! Diagrams (a kind-tagged AST with a revision) and sessions of diagrams and cross-references.

use vstd::prelude::*;
use crate::sorted_map::{Duplicate, SortedMap};
use super::ids::{DiagramId, SessionId, ObjectId};
use super::object_ref::ObjectRef;
use super::flow_ast::FlowchartAst;
use super::seq_ast::SequenceAst;

verus! {

/// The kind of a diagram.
#[derive(Debug, Clone, Copy, PartialEq, Eq, Hash, Structural)]
pub enum DiagramKind {
    Sequence,
    Flowchart,
}

/// The AST of a diagram, tagged by kind.
#[derive(Debug, Clone)]
pub enum DiagramAst {
    Sequence(SequenceAst),
    Flowchart(FlowchartAst),
}

/// The kind of an AST.
pub open spec fn ast_kind(ast: &DiagramAst) -> DiagramKind {
    match ast {
        DiagramAst::Sequence(_) => DiagramKind::Sequence,
        DiagramAst::Flowchart(_) => DiagramKind::Flowchart,
    }
}

impl DiagramAst {
    pub fn kind(&self) -> (k: DiagramKind)
        ensures
            k == ast_kind(self),
    {
        match self {
            DiagramAst::Sequence(_) => DiagramKind::Sequence,
            DiagramAst::Flowchart(_) => DiagramKind::Flowchart,
        }
    }
}

/// An AST of one kind was offered to a diagram of another.
#[derive(Debug, Clone, Copy, PartialEq, Eq, Structural)]
pub struct KindMismatch {
    pub expected: DiagramKind,
    pub found: DiagramKind,
}

impl KindMismatch {
    pub fn expected(&self) -> (k: DiagramKind)
        ensures
            k == self.expected,
    {
        self.expected
    }

    pub fn found(&self) -> (k: DiagramKind)
        ensures
            k == self.found,
    {
        self.found
    }
}

/// A named diagram with its AST and a revision counter.
#[derive(Debug, Clone)]
pub struct Diagram {
    pub diagram_id: DiagramId,
    pub name: String,
    pub ast: DiagramAst,
    pub rev: u64,
}

impl Diagram {
    /// A new diagram at revision 0.
    pub fn new(diagram_id: DiagramId, name: &str, ast: DiagramAst) -> (d: Diagram)
        ensures
            d.diagram_id == diagram_id,
            d.name@ == name@,
            d.ast == ast,
            d.rev == 0,
    {
        Diagram { diagram_id, name: String::from_str(name), ast, rev: 0 }
    }

    pub fn diagram_id(&self) -> (r: &DiagramId)
        ensures
            *r == self.diagram_id,
    {
        &self.diagram_id
    }

    pub fn name(&self) -> (s: &str)
        ensures
            s@ == self.name@,
    {
        self.name.as_str()
    }

    pub fn ast(&self) -> (r: &DiagramAst)
        ensures
            *r == self.ast,
    {
        &self.ast
    }

    pub fn kind(&self) -> (k: DiagramKind)
        ensures
            k == ast_kind(&self.ast),
    {
        self.ast.kind()
    }

    pub fn rev(&self) -> (r: u64)
        ensures
            r == self.rev,
    {
        self.rev
    }

    /// Replaces the AST; the new AST must be of the diagram's kind.
    pub fn set_ast(&mut self, ast: DiagramAst) -> (r: Result<(), KindMismatch>)
        ensures
            r is Ok <==> ast_kind(&ast) == ast_kind(&old(self).ast),
            r is Ok ==> *final(self) == (Diagram { ast, ..*old(self) }),
            r matches Err(m) ==> *final(self) == *old(self) && m.expected == ast_kind(&old(self).ast)
                && m.found == ast_kind(&ast),
    {
        let expected = self.ast.kind();
        let found = ast.kind();
        if expected == found {
            self.ast = ast;
            Ok(())
        } else {
            Err(KindMismatch { expected, found })
        }
    }

    /// Advances the revision by one (it stays at the maximum once reached).
    pub fn bump_rev(&mut self)
        ensures
            *final(self) == (Diagram {
                rev: if old(self).rev < u64::MAX {
                    (old(self).rev + 1) as u64
                } else {
                    old(self).rev
                },
                ..*old(self)
            }),
    {
        if self.rev < u64::MAX {
            self.rev = self.rev + 1;
        }
    }
}

/// Whether a cross-reference still resolves.
#[derive(Debug, Clone, Copy, PartialEq, Eq, Structural)]
pub enum XRefStatus {
    Resolved,
    DanglingFrom,
    DanglingTo,
    DanglingBoth,
}

/// A cross-reference between objects, possibly in different diagrams.
#[derive(Debug, Clone, PartialEq, Eq)]
pub struct XRef {
    pub from: ObjectRef,
    pub to: ObjectRef,
    pub kind: String,
    pub label: Option<String>,
    pub status: XRefStatus,
}

impl XRef {
    pub fn new(from: ObjectRef, to: ObjectRef, kind: &str, status: XRefStatus) -> (x: XRef)
        ensures
            x.from == from,
            x.to == to,
            x.kind@ == kind@,
            x.label is None,
            x.status == status,
    {
        XRef { from, to, kind: String::from_str(kind), label: None, status }
    }

    pub fn from(&self) -> (r: &ObjectRef)
        ensures
            *r == self.from,
    {
        &self.from
    }

    pub fn to(&self) -> (r: &ObjectRef)
        ensures
            *r == self.to,
    {
        &self.to
    }
}

/// A session: diagrams and cross-references keyed by id.
#[derive(Debug)]
pub struct Session {
    pub session_id: SessionId,
    pub diagrams: SortedMap<DiagramId, Diagram>,
    pub xrefs: SortedMap<ObjectId, XRef>,
}

impl Session {
    pub fn new(session_id: SessionId) -> (s: Session)
        ensures
            s.session_id == session_id,
            s.diagrams@ == Map::<Seq<char>, Diagram>::empty(),
            s.xrefs@ == Map::<Seq<char>, XRef>::empty(),
    {
        Session { session_id, diagrams: SortedMap::new(), xrefs: SortedMap::new() }
    }

    pub fn diagrams(&self) -> (r: &SortedMap<DiagramId, Diagram>)
        ensures
            *r == self.diagrams,
    {
        &self.diagrams
    }

    pub fn diagrams_mut(&mut self) -> (r: &mut SortedMap<DiagramId, Diagram>)
        ensures
            *r == old(self).diagrams,
            *final(self) == (Session { diagrams: *final(r), ..*old(self) }),
    {
        &mut self.diagrams
    }

    pub fn xrefs(&self) -> (r: &SortedMap<ObjectId, XRef>)
        ensures
            *r == self.xrefs,
    {
        &self.xrefs
    }

    pub fn xrefs_mut(&mut self) -> (r: &mut SortedMap<ObjectId, XRef>)
        ensures
            *r == old(self).xrefs,
            *final(self) == (Session { xrefs: *final(r), ..*old(self) }),
    {
        &mut self.xrefs
    }
}

} // verus!
