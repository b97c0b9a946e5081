//! Flowchart AST: nodes and directed edges keyed by stable object ids.

use vstd::prelude::*;
use crate::sorted_map::{Duplicate, SortedMap};
use super::ids::{IdError, ObjectId, check_ident, valid_ident};

verus! {

/// Copies an optional string exactly.
pub fn dup_opt_string(o: &Option<String>) -> (r: Option<String>)
    ensures
        r == *o,
{
    match o {
        Some(s) => Some(s.clone()),
        None => None,
    }
}

/// An anchor linking a diagram object to a code symbol.
#[derive(Debug, Clone, PartialEq, Eq)]
pub struct SymbolAnchor {
    pub stable_symbol_id: String,
    pub repo: Option<String>,
}

impl SymbolAnchor {
    /// Creates an anchor; the symbol id must be a valid identifier.
    pub fn new(stable_symbol_id: &str, repo: Option<String>) -> (r: Result<SymbolAnchor, IdError>)
        ensures
            r is Ok <==> valid_ident(stable_symbol_id@),
            r matches Ok(a) ==> a.stable_symbol_id@ == stable_symbol_id@ && a.repo == repo,
    {
        match check_ident(stable_symbol_id) {
            Ok(()) => Ok(SymbolAnchor { stable_symbol_id: String::from_str(stable_symbol_id), repo }),
            Err(e) => Err(e),
        }
    }

    pub fn stable_symbol_id(&self) -> (s: &str)
        ensures
            s@ == self.stable_symbol_id@,
    {
        self.stable_symbol_id.as_str()
    }

    pub fn repo(&self) -> (r: Option<&str>)
        ensures
            r is Some <==> self.repo is Some,
            r matches Some(s) ==> s@ == self.repo->0@,
    {
        match &self.repo {
            Some(s) => Some(s.as_str()),
            None => None,
        }
    }
}

/// The abstract value of a symbol anchor.
pub struct SymbolAnchorView {
    pub stable_symbol_id: Seq<char>,
    pub repo: Option<Seq<char>>,
}

/// The text of an optional string.
pub open spec fn opt_view(o: Option<String>) -> Option<Seq<char>> {
    match o {
        Some(s) => Some(s@),
        None => None,
    }
}

impl View for SymbolAnchor {
    type V = SymbolAnchorView;

    open spec fn view(&self) -> SymbolAnchorView {
        SymbolAnchorView { stable_symbol_id: self.stable_symbol_id@, repo: opt_view(self.repo) }
    }
}

/// The abstract value of an optional symbol anchor.
pub open spec fn opt_symbol_view(o: Option<SymbolAnchor>) -> Option<SymbolAnchorView> {
    match o {
        Some(s) => Some(s@),
        None => None,
    }
}

impl Duplicate for SymbolAnchor {
    fn duplicate(&self) -> (r: Self) {
        SymbolAnchor {
            stable_symbol_id: self.stable_symbol_id.clone(),
            repo: dup_opt_string(&self.repo),
        }
    }
}

/// Copies an optional symbol anchor exactly.
pub fn dup_opt_symbol(o: &Option<SymbolAnchor>) -> (r: Option<SymbolAnchor>)
    ensures
        r == *o,
{
    match o {
        Some(s) => Some(s.duplicate()),
        None => None,
    }
}

/// Borrows the text of an optional string.
pub fn opt_as_str(o: &Option<String>) -> (r: Option<&str>)
    ensures
        r is Some <==> o is Some,
        r matches Some(s) ==> s@ == o->0@,
{
    match o {
        Some(s) => Some(s.as_str()),
        None => None,
    }
}

/// A flowchart node.
#[derive(Debug, Clone, PartialEq, Eq)]
pub struct FlowNode {
    pub label: String,
    pub shape: String,
    pub mermaid_id: Option<String>,
    pub note: Option<String>,
    pub symbol: Option<SymbolAnchor>,
}

impl FlowNode {
    /// A rectangular node with the given label.
    pub fn new(label: &str) -> (n: FlowNode)
        ensures
            n.label@ == label@,
            n.shape@ == seq!['r', 'e', 'c', 't'],
            n.mermaid_id is None,
            n.note is None,
            n.symbol is None,
    {
        let n = FlowNode {
            label: String::from_str(label),
            shape: String::from_str("rect"),
            mermaid_id: None,
            note: None,
            symbol: None,
        };
        proof {
            reveal_strlit("rect");
        }
        n
    }

    pub fn new_with(label: &str, shape: &str, mermaid_id: Option<String>) -> (n: FlowNode)
        ensures
            n.label@ == label@,
            n.shape@ == shape@,
            n.mermaid_id == mermaid_id,
            n.note is None,
            n.symbol is None,
    {
        FlowNode {
            label: String::from_str(label),
            shape: String::from_str(shape),
            mermaid_id,
            note: None,
            symbol: None,
        }
    }

    pub fn label(&self) -> (s: &str)
        ensures
            s@ == self.label@,
    {
        self.label.as_str()
    }

    pub fn shape(&self) -> (s: &str)
        ensures
            s@ == self.shape@,
    {
        self.shape.as_str()
    }

    pub fn mermaid_id(&self) -> (r: Option<&str>)
        ensures
            r is Some <==> self.mermaid_id is Some,
            r matches Some(s) ==> s@ == self.mermaid_id->0@,
    {
        opt_as_str(&self.mermaid_id)
    }

    pub fn note(&self) -> (r: Option<&str>)
        ensures
            r is Some <==> self.note is Some,
            r matches Some(s) ==> s@ == self.note->0@,
    {
        opt_as_str(&self.note)
    }

    pub fn symbol(&self) -> (r: Option<&SymbolAnchor>)
        ensures
            r is Some <==> self.symbol is Some,
            r matches Some(s) ==> *s == self.symbol->0,
    {
        match &self.symbol {
            Some(s) => Some(s),
            None => None,
        }
    }

    pub fn set_label(&mut self, label: String)
        ensures
            *final(self) == (FlowNode { label, ..*old(self) }),
    {
        self.label = label;
    }

    pub fn set_shape(&mut self, shape: String)
        ensures
            *final(self) == (FlowNode { shape, ..*old(self) }),
    {
        self.shape = shape;
    }

    pub fn set_mermaid_id(&mut self, mermaid_id: Option<String>)
        ensures
            *final(self) == (FlowNode { mermaid_id, ..*old(self) }),
    {
        self.mermaid_id = mermaid_id;
    }

    pub fn set_note(&mut self, note: Option<String>)
        ensures
            *final(self) == (FlowNode { note, ..*old(self) }),
    {
        self.note = note;
    }

    pub fn set_symbol(&mut self, symbol: Option<SymbolAnchor>)
        ensures
            *final(self) == (FlowNode { symbol, ..*old(self) }),
    {
        self.symbol = symbol;
    }
}

/// The abstract value of a flowchart node.
pub struct FlowNodeView {
    pub label: Seq<char>,
    pub shape: Seq<char>,
    pub mermaid_id: Option<Seq<char>>,
    pub note: Option<Seq<char>>,
    pub symbol: Option<SymbolAnchorView>,
}

impl View for FlowNode {
    type V = FlowNodeView;

    open spec fn view(&self) -> FlowNodeView {
        FlowNodeView {
            label: self.label@,
            shape: self.shape@,
            mermaid_id: opt_view(self.mermaid_id),
            note: opt_view(self.note),
            symbol: opt_symbol_view(self.symbol),
        }
    }
}

impl Duplicate for FlowNode {
    fn duplicate(&self) -> (r: Self) {
        FlowNode {
            label: self.label.clone(),
            shape: self.shape.clone(),
            mermaid_id: dup_opt_string(&self.mermaid_id),
            note: dup_opt_string(&self.note),
            symbol: dup_opt_symbol(&self.symbol),
        }
    }
}

/// A directed flowchart edge between two nodes.
#[derive(Debug, Clone, PartialEq, Eq)]
pub struct FlowEdge {
    pub from_node_id: ObjectId,
    pub to_node_id: ObjectId,
    pub label: Option<String>,
    pub connector: Option<String>,
    pub style: Option<String>,
}

impl FlowEdge {
    pub fn new(from_node_id: ObjectId, to_node_id: ObjectId) -> (e: FlowEdge)
        ensures
            e == (FlowEdge { from_node_id, to_node_id, label: None, connector: None, style: None }),
    {
        FlowEdge { from_node_id, to_node_id, label: None, connector: None, style: None }
    }

    pub fn new_with(
        from_node_id: ObjectId,
        to_node_id: ObjectId,
        label: Option<String>,
        style: Option<String>,
    ) -> (e: FlowEdge)
        ensures
            e == (FlowEdge { from_node_id, to_node_id, label, connector: None, style }),
    {
        FlowEdge { from_node_id, to_node_id, label, connector: None, style }
    }

    pub fn from_node_id(&self) -> (r: &ObjectId)
        ensures
            *r == self.from_node_id,
    {
        &self.from_node_id
    }

    pub fn to_node_id(&self) -> (r: &ObjectId)
        ensures
            *r == self.to_node_id,
    {
        &self.to_node_id
    }

    pub fn label(&self) -> (r: Option<&str>)
        ensures
            r is Some <==> self.label is Some,
            r matches Some(s) ==> s@ == self.label->0@,
    {
        opt_as_str(&self.label)
    }

    pub fn connector(&self) -> (r: Option<&str>)
        ensures
            r is Some <==> self.connector is Some,
            r matches Some(s) ==> s@ == self.connector->0@,
    {
        opt_as_str(&self.connector)
    }

    pub fn style(&self) -> (r: Option<&str>)
        ensures
            r is Some <==> self.style is Some,
            r matches Some(s) ==> s@ == self.style->0@,
    {
        opt_as_str(&self.style)
    }

    pub fn set_label(&mut self, label: Option<String>)
        ensures
            *final(self) == (FlowEdge { label, ..*old(self) }),
    {
        self.label = label;
    }

    pub fn set_connector(&mut self, connector: Option<String>)
        ensures
            *final(self) == (FlowEdge { connector, ..*old(self) }),
    {
        self.connector = connector;
    }

    pub fn set_style(&mut self, style: Option<String>)
        ensures
            *final(self) == (FlowEdge { style, ..*old(self) }),
    {
        self.style = style;
    }
}

/// The abstract value of a flowchart edge.
pub struct FlowEdgeView {
    pub from_node_id: Seq<char>,
    pub to_node_id: Seq<char>,
    pub label: Option<Seq<char>>,
    pub connector: Option<Seq<char>>,
    pub style: Option<Seq<char>>,
}

impl View for FlowEdge {
    type V = FlowEdgeView;

    open spec fn view(&self) -> FlowEdgeView {
        FlowEdgeView {
            from_node_id: self.from_node_id@,
            to_node_id: self.to_node_id@,
            label: opt_view(self.label),
            connector: opt_view(self.connector),
            style: opt_view(self.style),
        }
    }
}

impl Duplicate for FlowEdge {
    fn duplicate(&self) -> (r: Self) {
        FlowEdge {
            from_node_id: self.from_node_id.duplicate(),
            to_node_id: self.to_node_id.duplicate(),
            label: dup_opt_string(&self.label),
            connector: dup_opt_string(&self.connector),
            style: dup_opt_string(&self.style),
        }
    }
}

/// A flowchart: nodes and edges, each keyed by object id and iterated in id order.
#[derive(Debug, Clone)]
pub struct FlowchartAst {
    pub nodes: SortedMap<ObjectId, FlowNode>,
    pub edges: SortedMap<ObjectId, FlowEdge>,
}

impl FlowchartAst {
    pub fn default() -> (ast: FlowchartAst)
        ensures
            ast.nodes@ == Map::<Seq<char>, FlowNode>::empty(),
            ast.edges@ == Map::<Seq<char>, FlowEdge>::empty(),
    {
        FlowchartAst { nodes: SortedMap::new(), edges: SortedMap::new() }
    }

    pub fn nodes(&self) -> (r: &SortedMap<ObjectId, FlowNode>)
        ensures
            *r == self.nodes,
    {
        &self.nodes
    }

    pub fn edges(&self) -> (r: &SortedMap<ObjectId, FlowEdge>)
        ensures
            *r == self.edges,
    {
        &self.edges
    }

    pub fn nodes_mut(&mut self) -> (r: &mut SortedMap<ObjectId, FlowNode>)
        ensures
            *r == old(self).nodes,
            *final(self) == (FlowchartAst { nodes: *final(r), ..*old(self) }),
    {
        &mut self.nodes
    }

    pub fn edges_mut(&mut self) -> (r: &mut SortedMap<ObjectId, FlowEdge>)
        ensures
            *r == old(self).edges,
            *final(self) == (FlowchartAst { edges: *final(r), ..*old(self) }),
    {
        &mut self.edges
    }

    /// An identical copy of the flowchart.
    pub fn duplicate(&self) -> (r: FlowchartAst)
        ensures
            r.nodes@ == self.nodes@,
            r.edges@ == self.edges@,
            r.nodes.keys_seq() == self.nodes.keys_seq(),
            r.edges.keys_seq() == self.edges.keys_seq(),
            r.nodes.vals_seq() == self.nodes.vals_seq(),
            r.edges.vals_seq() == self.edges.vals_seq(),
    {
        FlowchartAst { nodes: self.nodes.duplicate(), edges: self.edges.duplicate() }
    }
}

} // verus!
