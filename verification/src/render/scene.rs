//! Scene models shared by the painters.
//!
//! Diagram ASTs lower into a graph scene (nodes and edges, as for flowcharts) or a track scene
//! (columns with spans, as for sequence diagrams); painting works on these families.

use vstd::prelude::*;
use crate::chars::{ascii_lowercase, contains_char, contains_seq, contains_text, to_ascii_lowercase, trim, trimmed};
use crate::model::flow_ast::{
    FlowEdge, FlowNode, FlowchartAst, SymbolAnchor, SymbolAnchorView, dup_opt_string, dup_opt_symbol,
    opt_as_str, opt_symbol_view, opt_view,
};
use crate::model::ids::ObjectId;
use crate::model::seq_ast::SequenceAst;
use crate::sorted_map::{Duplicate, OrdKey, SortedMap};

verus! {

/// One-cell endpoint glyph kind.
#[derive(Debug, Clone, Copy, PartialEq, Eq, Hash, Structural)]
pub enum CapKind {
    /// No cap: the line ends plainly.
    NoCap,
    Arrow,
    Circle,
    Cross,
    /// Class composition (`*--`).
    DiamondFilled,
    /// Class aggregation (`o--`).
    DiamondHollow,
    /// Generalization / inheritance.
    TriangleHollow,
    /// ER exactly-one (`||`).
    ExactlyOne,
    /// ER many (crow's foot).
    CrowFoot,
    /// ER zero-or-one.
    ZeroOrOne,
}

impl Default for CapKind {
    fn default() -> (c: CapKind)
        ensures
            c == CapKind::NoCap,
    {
        CapKind::NoCap
    }
}

/// The caps a connector token gives (start, end): the connector (`-->` when absent), trimmed,
/// starts with `<`, `o` or `x` for an arrow, circle or cross at the start, and ends with `o`,
/// `x` or `>` for a circle, cross or arrow at the end.
pub open spec fn flow_caps(connector: Option<Seq<char>>) -> (CapKind, CapKind) {
    let op = trimmed(
        match connector {
            Some(c) => c,
            None => seq!['-', '-', '>'],
        },
    );
    if op.len() == 0 {
        (CapKind::NoCap, CapKind::NoCap)
    } else {
        let start = if op[0] == '<' {
            CapKind::Arrow
        } else if op[0] == 'o' {
            CapKind::Circle
        } else if op[0] == 'x' {
            CapKind::Cross
        } else {
            CapKind::NoCap
        };
        let end = if op.last() == 'o' {
            CapKind::Circle
        } else if op.last() == 'x' {
            CapKind::Cross
        } else if op.last() == '>' {
            CapKind::Arrow
        } else {
            CapKind::NoCap
        };
        (start, end)
    }
}

/// `|v|`, as a wider integer.
pub open spec fn abs_int(v: int) -> int {
    if v < 0 {
        -v
    } else {
        v
    }
}

/// Which of four glyphs points along `(dx, dy)`: horizontal when `|dx| >= |dy|` (left for
/// negative `dx`, right for positive, and by `dy` when both are zero), else up or down.
pub open spec fn oriented(dx: int, dy: int, left: char, right: char, up: char, down: char) -> char {
    if abs_int(dx) >= abs_int(dy) {
        if dx < 0 {
            left
        } else if dx > 0 {
            right
        } else if dy < 0 {
            up
        } else {
            down
        }
    } else if dy < 0 {
        up
    } else {
        down
    }
}

/// The glyph of a cap whose edge leaves the node in direction `(outward_dx, outward_dy)`;
/// oriented glyphs point back toward the node.
pub open spec fn cap_glyph(kind: CapKind, outward_dx: int, outward_dy: int) -> Option<char> {
    let tx = -outward_dx;
    let ty = -outward_dy;
    match kind {
        CapKind::NoCap => None,
        CapKind::Arrow => Some(oriented(tx, ty, '◀', '▶', '▲', '▼')),
        CapKind::Circle | CapKind::ZeroOrOne => Some('○'),
        CapKind::Cross => Some('✕'),
        CapKind::DiamondFilled => Some('◆'),
        CapKind::DiamondHollow => Some('◇'),
        CapKind::TriangleHollow => Some(oriented(tx, ty, '◁', '▷', '△', '▽')),
        CapKind::ExactlyOne => Some('‖'),
        CapKind::CrowFoot => Some(oriented(tx, ty, '⊂', '⊃', '∪', '∩')),
    }
}

fn oriented_glyph(toward_dx: i64, toward_dy: i64, left: char, right: char, up: char, down: char) -> (c: char)
    requires
        -0x1_0000_0000 < toward_dx < 0x1_0000_0000,
        -0x1_0000_0000 < toward_dy < 0x1_0000_0000,
    ensures
        c == oriented(toward_dx as int, toward_dy as int, left, right, up, down),
{
    let ax = if toward_dx < 0 { -toward_dx } else { toward_dx };
    let ay = if toward_dy < 0 { -toward_dy } else { toward_dy };
    if ax >= ay {
        if toward_dx < 0 {
            left
        } else if toward_dx > 0 {
            right
        } else if toward_dy < 0 {
            up
        } else {
            down
        }
    } else if toward_dy < 0 {
        up
    } else {
        down
    }
}

/// A connector draws a cap at an end exactly when its trimmed token has the cap's character
/// there: at the end `o` (circle), `x` (cross) or `>` (arrow); at the start `<` (arrow), `o`
/// (circle) or `x` (cross). Any other end character, or a blank token, draws no cap at that
/// end. No connector means `-->`.
pub proof fn lemma_flow_caps_follow_ends(c: Seq<char>)
    ensures
        ({
            let t = trimmed(c);
            let (start, end) = flow_caps(Some(c));
            &&& t.len() == 0 ==> start == CapKind::NoCap && end == CapKind::NoCap
            &&& t.len() > 0 ==> {
                &&& (end == CapKind::Circle <==> t.last() == 'o')
                &&& (end == CapKind::Cross <==> t.last() == 'x')
                &&& (end == CapKind::Arrow <==> t.last() == '>')
                &&& (end == CapKind::NoCap <==> (t.last() != 'o' && t.last() != 'x' && t.last() != '>'))
                &&& (start == CapKind::Arrow <==> t[0] == '<')
                &&& (start == CapKind::Circle <==> t[0] == 'o')
                &&& (start == CapKind::Cross <==> t[0] == 'x')
                &&& (start == CapKind::NoCap <==> (t[0] != '<' && t[0] != 'o' && t[0] != 'x'))
            }
        }),
        flow_caps(None) == flow_caps(Some(seq!['-', '-', '>'])),
{
}

impl CapKind {
    /// The start and end caps of a flowchart connector token.
    pub fn from_flow_connector(connector: Option<&str>) -> (r: (CapKind, CapKind))
        ensures
            r == flow_caps(
                match connector {
                    Some(c) => Some(c@),
                    None => None,
                },
            ),
            connector matches Some(c) ==> (trimmed(c@).len() > 0 ==> (r.1 == CapKind::NoCap <==> (trimmed(c@).last() != 'o'
                && trimmed(c@).last() != 'x' && trimmed(c@).last() != '>'))),
            connector matches Some(c) ==> (trimmed(c@).len() > 0 ==> (r.0 == CapKind::NoCap <==> (trimmed(c@)[0] != '<'
                && trimmed(c@)[0] != 'o' && trimmed(c@)[0] != 'x'))),
    {
        let op = match connector {
            Some(c) => trim(c),
            None => {
                proof {
                    reveal_strlit("-->");
                }
                trim("-->")
            },
        };
        let n = op.as_str().unicode_len();
        if n == 0 {
            return (CapKind::NoCap, CapKind::NoCap);
        }
        let first = op.as_str().get_char(0);
        let last = op.as_str().get_char(n - 1);
        let start = if first == '<' {
            CapKind::Arrow
        } else if first == 'o' {
            CapKind::Circle
        } else if first == 'x' {
            CapKind::Cross
        } else {
            CapKind::NoCap
        };
        let end = if last == 'o' {
            CapKind::Circle
        } else if last == 'x' {
            CapKind::Cross
        } else if last == '>' {
            CapKind::Arrow
        } else {
            CapKind::NoCap
        };
        (start, end)
    }

    /// The one-cell glyph for this cap on an edge leaving the node along
    /// `(outward_dx, outward_dy)`; `None` draws nothing.
    pub fn glyph(self, outward_dx: i32, outward_dy: i32) -> (r: Option<char>)
        ensures
            r == cap_glyph(self, outward_dx as int, outward_dy as int),
    {
        let tx: i64 = -(outward_dx as i64);
        let ty: i64 = -(outward_dy as i64);
        match self {
            CapKind::NoCap => None,
            CapKind::Arrow => Some(oriented_glyph(tx, ty, '◀', '▶', '▲', '▼')),
            CapKind::Circle | CapKind::ZeroOrOne => Some('○'),
            CapKind::Cross => Some('✕'),
            CapKind::DiamondFilled => Some('◆'),
            CapKind::DiamondHollow => Some('◇'),
            CapKind::TriangleHollow => Some(oriented_glyph(tx, ty, '◁', '▷', '△', '▽')),
            CapKind::ExactlyOne => Some('‖'),
            CapKind::CrowFoot => Some(oriented_glyph(tx, ty, '⊂', '⊃', '∪', '∩')),
        }
    }
}

/// Edge stroke style.
#[derive(Debug, Clone, Copy, PartialEq, Eq, Hash, Structural)]
pub enum EdgeStroke {
    Solid,
    Dashed,
}

impl Default for EdgeStroke {
    fn default() -> (s: EdgeStroke)
        ensures
            s == EdgeStroke::Solid,
    {
        EdgeStroke::Solid
    }
}

/// Dashed when the style mentions `dashed` (ASCII case-insensitively) or the connector has a
/// `.` (dotted forms such as `-.->`); solid otherwise.
pub open spec fn flow_stroke(connector: Option<Seq<char>>, style: Option<Seq<char>>) -> EdgeStroke {
    let dashed_style = match style {
        Some(s) => contains_seq(ascii_lowercase(s), seq!['d', 'a', 's', 'h', 'e', 'd']),
        None => false,
    };
    let dotted = match connector {
        Some(c) => c.contains('.'),
        None => false,
    };
    if dashed_style || dotted {
        EdgeStroke::Dashed
    } else {
        EdgeStroke::Solid
    }
}

/// The view of an optional borrowed text.
pub open spec fn opt_str_view(o: Option<&str>) -> Option<Seq<char>> {
    match o {
        Some(s) => Some(s@),
        None => None,
    }
}

impl EdgeStroke {
    /// The stroke of a flowchart connector and style.
    pub fn from_flow_connector_and_style(connector: Option<&str>, style: Option<&str>) -> (r: EdgeStroke)
        ensures
            r == flow_stroke(opt_str_view(connector), opt_str_view(style)),
    {
        match style {
            Some(s) => {
                let lower = to_ascii_lowercase(s);
                proof {
                    reveal_strlit("dashed");
                    assert("dashed"@ =~= seq!['d', 'a', 's', 'h', 'e', 'd']);
                }
                if contains_text(lower.as_str(), "dashed") {
                    return EdgeStroke::Dashed;
                }
            },
            None => {},
        }
        proof {
            assert(style matches Some(s) ==> !contains_seq(ascii_lowercase(s@), seq!['d', 'a', 's', 'h', 'e', 'd']));
        }
        match connector {
            Some(c) => {
                if contains_char(c, '.') {
                    EdgeStroke::Dashed
                } else {
                    EdgeStroke::Solid
                }
            },
            None => EdgeStroke::Solid,
        }
    }
}

/// One text compartment inside a graph node box (class attributes or methods).
#[derive(Debug, Clone, PartialEq, Eq)]
pub struct GraphCompartment {
    lines: Vec<String>,
}

impl View for GraphCompartment {
    type V = Seq<Seq<char>>;

    closed spec fn view(&self) -> Seq<Seq<char>> {
        self.lines@.map_values(|l: String| l@)
    }
}

impl GraphCompartment {
    pub fn new(lines: &[&str]) -> (c: GraphCompartment)
        ensures
            c@ == lines@.map_values(|l: &str| l@),
    {
        let mut v: Vec<String> = Vec::new();
        let mut i: usize = 0;
        while i < lines.len()
            invariant
                i <= lines@.len(),
                v@.map_values(|l: String| l@) =~= lines@.take(i as int).map_values(|l: &str| l@),
            decreases lines@.len() - i,
        {
            v.push(String::from_str(lines[i]));
            i = i + 1;
            proof {
                assert(lines@.take(i as int).map_values(|l: &str| l@) =~= lines@.take(i - 1).map_values(|l: &str| l@).push(lines@[i - 1]@));
            }
        }
        proof {
            assert(lines@.take(i as int) =~= lines@);
        }
        GraphCompartment { lines: v }
    }

    pub fn lines(&self) -> (r: &Vec<String>)
        ensures
            r@.map_values(|l: String| l@) == self@,
    {
        &self.lines
    }

    pub fn is_empty(&self) -> (b: bool)
        ensures
            b == (self@.len() == 0),
    {
        self.lines.len() == 0
    }
}

/// A graph node (flow box, class, entity).
#[derive(Debug, Clone, PartialEq, Eq)]
pub struct GraphNode {
    mermaid_id: Option<String>,
    label: String,
    /// Flow shape token (`rect`, `circle`, ...).
    shape: String,
    note: Option<String>,
    symbol: Option<SymbolAnchor>,
    /// Stacked compartments below the title row; empty for plain flow nodes.
    compartments: Vec<GraphCompartment>,
}

/// The abstract value of a graph node.
pub struct GraphNodeView {
    pub mermaid_id: Option<Seq<char>>,
    pub label: Seq<char>,
    pub shape: Seq<char>,
    pub note: Option<Seq<char>>,
    pub symbol: Option<SymbolAnchorView>,
    pub compartments: Seq<Seq<Seq<char>>>,
}

impl View for GraphNode {
    type V = GraphNodeView;

    closed spec fn view(&self) -> GraphNodeView {
        GraphNodeView {
            mermaid_id: opt_view(self.mermaid_id),
            label: self.label@,
            shape: self.shape@,
            note: opt_view(self.note),
            symbol: opt_symbol_view(self.symbol),
            compartments: self.compartments@.map_values(|c: GraphCompartment| c@),
        }
    }
}

impl GraphNode {
    /// A rectangular node with the given label and nothing else.
    pub fn new(label: &str) -> (n: GraphNode)
        ensures
            n@ == (GraphNodeView {
                mermaid_id: None,
                label: label@,
                shape: seq!['r', 'e', 'c', 't'],
                note: None,
                symbol: None,
                compartments: Seq::empty(),
            }),
    {
        proof {
            reveal_strlit("rect");
        }
        let n = GraphNode {
            mermaid_id: None,
            label: String::from_str(label),
            shape: String::from_str("rect"),
            note: None,
            symbol: None,
            compartments: Vec::new(),
        };
        proof {
            assert(n@.compartments =~= Seq::<Seq<Seq<char>>>::empty());
            assert(n@.shape =~= seq!['r', 'e', 'c', 't']);
        }
        n
    }

    pub fn with_mermaid_id(self, mermaid_id: Option<String>) -> (n: GraphNode)
        ensures
            n@ == (GraphNodeView { mermaid_id: opt_view(mermaid_id), ..self@ }),
    {
        GraphNode { mermaid_id, ..self }
    }

    pub fn with_shape(self, shape: &str) -> (n: GraphNode)
        ensures
            n@ == (GraphNodeView { shape: shape@, ..self@ }),
    {
        GraphNode { shape: String::from_str(shape), ..self }
    }

    pub fn with_note(self, note: Option<String>) -> (n: GraphNode)
        ensures
            n@ == (GraphNodeView { note: opt_view(note), ..self@ }),
    {
        GraphNode { note, ..self }
    }

    pub fn with_symbol(self, symbol: Option<SymbolAnchor>) -> (n: GraphNode)
        ensures
            n@ == (GraphNodeView { symbol: opt_symbol_view(symbol), ..self@ }),
    {
        GraphNode { symbol, ..self }
    }

    pub fn with_compartments(self, compartments: Vec<GraphCompartment>) -> (n: GraphNode)
        ensures
            n@ == (GraphNodeView { compartments: compartments@.map_values(|c: GraphCompartment| c@), ..self@ }),
    {
        GraphNode { compartments, ..self }
    }

    pub fn mermaid_id(&self) -> (r: Option<&str>)
        ensures
            opt_str_view(r) == self@.mermaid_id,
    {
        opt_as_str(&self.mermaid_id)
    }

    pub fn label(&self) -> (s: &str)
        ensures
            s@ == self@.label,
    {
        self.label.as_str()
    }

    pub fn shape(&self) -> (s: &str)
        ensures
            s@ == self@.shape,
    {
        self.shape.as_str()
    }

    pub fn note(&self) -> (r: Option<&str>)
        ensures
            opt_str_view(r) == self@.note,
    {
        opt_as_str(&self.note)
    }

    pub fn symbol(&self) -> (r: Option<&SymbolAnchor>)
        ensures
            r is Some <==> self@.symbol is Some,
            r matches Some(s) ==> self@.symbol == Some(s@),
    {
        match &self.symbol {
            Some(s) => Some(s),
            None => None,
        }
    }

    pub fn compartments(&self) -> (r: &Vec<GraphCompartment>)
        ensures
            r@.map_values(|c: GraphCompartment| c@) == self@.compartments,
    {
        &self.compartments
    }
}

/// A graph edge with its one-cell caps and stroke.
#[derive(Debug, Clone, PartialEq, Eq)]
pub struct GraphEdge {
    from_node_id: ObjectId,
    to_node_id: ObjectId,
    label: Option<String>,
    /// The Mermaid connector token, when known.
    connector: Option<String>,
    style: Option<String>,
    start_cap: CapKind,
    end_cap: CapKind,
    stroke: EdgeStroke,
}

/// The abstract value of a graph edge.
pub struct GraphEdgeView {
    pub from_node_id: Seq<char>,
    pub to_node_id: Seq<char>,
    pub label: Option<Seq<char>>,
    pub connector: Option<Seq<char>>,
    pub style: Option<Seq<char>>,
    pub start_cap: CapKind,
    pub end_cap: CapKind,
    pub stroke: EdgeStroke,
}

impl View for GraphEdge {
    type V = GraphEdgeView;

    closed spec fn view(&self) -> GraphEdgeView {
        GraphEdgeView {
            from_node_id: self.from_node_id@,
            to_node_id: self.to_node_id@,
            label: opt_view(self.label),
            connector: opt_view(self.connector),
            style: opt_view(self.style),
            start_cap: self.start_cap,
            end_cap: self.end_cap,
            stroke: self.stroke,
        }
    }
}

impl GraphEdge {
    /// A solid edge with an arrow at its end and no label.
    pub fn new(from_node_id: ObjectId, to_node_id: ObjectId) -> (e: GraphEdge)
        ensures
            e@ == (GraphEdgeView {
                from_node_id: from_node_id@,
                to_node_id: to_node_id@,
                label: None,
                connector: None,
                style: None,
                start_cap: CapKind::NoCap,
                end_cap: CapKind::Arrow,
                stroke: EdgeStroke::Solid,
            }),
    {
        GraphEdge {
            from_node_id,
            to_node_id,
            label: None,
            connector: None,
            style: None,
            start_cap: CapKind::NoCap,
            end_cap: CapKind::Arrow,
            stroke: EdgeStroke::Solid,
        }
    }

    pub fn with_label(self, label: Option<String>) -> (e: GraphEdge)
        ensures
            e@ == (GraphEdgeView { label: opt_view(label), ..self@ }),
    {
        GraphEdge { label, ..self }
    }

    pub fn with_connector(self, connector: Option<String>) -> (e: GraphEdge)
        ensures
            e@ == (GraphEdgeView { connector: opt_view(connector), ..self@ }),
    {
        GraphEdge { connector, ..self }
    }

    pub fn with_style(self, style: Option<String>) -> (e: GraphEdge)
        ensures
            e@ == (GraphEdgeView { style: opt_view(style), ..self@ }),
    {
        GraphEdge { style, ..self }
    }

    pub fn with_caps(self, start_cap: CapKind, end_cap: CapKind) -> (e: GraphEdge)
        ensures
            e@ == (GraphEdgeView { start_cap, end_cap, ..self@ }),
    {
        GraphEdge { start_cap, end_cap, ..self }
    }

    pub fn with_stroke(self, stroke: EdgeStroke) -> (e: GraphEdge)
        ensures
            e@ == (GraphEdgeView { stroke, ..self@ }),
    {
        GraphEdge { stroke, ..self }
    }

    pub fn from_node_id(&self) -> (r: &ObjectId)
        ensures
            r@ == self@.from_node_id,
    {
        &self.from_node_id
    }

    pub fn to_node_id(&self) -> (r: &ObjectId)
        ensures
            r@ == self@.to_node_id,
    {
        &self.to_node_id
    }

    pub fn label(&self) -> (r: Option<&str>)
        ensures
            opt_str_view(r) == self@.label,
    {
        opt_as_str(&self.label)
    }

    pub fn connector(&self) -> (r: Option<&str>)
        ensures
            opt_str_view(r) == self@.connector,
    {
        opt_as_str(&self.connector)
    }

    pub fn style(&self) -> (r: Option<&str>)
        ensures
            opt_str_view(r) == self@.style,
    {
        opt_as_str(&self.style)
    }

    pub fn start_cap(&self) -> (c: CapKind)
        ensures
            c == self@.start_cap,
    {
        self.start_cap
    }

    pub fn end_cap(&self) -> (c: CapKind)
        ensures
            c == self@.end_cap,
    {
        self.end_cap
    }

    pub fn stroke(&self) -> (s: EdgeStroke)
        ensures
            s == self@.stroke,
    {
        self.stroke
    }
}

impl Duplicate for GraphEdge {
    fn duplicate(&self) -> (r: Self) {
        GraphEdge {
            from_node_id: self.from_node_id.duplicate(),
            to_node_id: self.to_node_id.duplicate(),
            label: dup_opt_string(&self.label),
            connector: dup_opt_string(&self.connector),
            style: dup_opt_string(&self.style),
            start_cap: self.start_cap,
            end_cap: self.end_cap,
            stroke: self.stroke,
        }
    }
}

/// The flowchart node a graph node stands for.
pub open spec fn graph_node_as_flow(n: GraphNodeView) -> crate::model::flow_ast::FlowNodeView {
    crate::model::flow_ast::FlowNodeView {
        label: n.label,
        shape: n.shape,
        mermaid_id: n.mermaid_id,
        note: n.note,
        symbol: n.symbol,
    }
}

/// The flowchart edge a graph edge stands for.
pub open spec fn graph_edge_as_flow(e: GraphEdgeView) -> crate::model::flow_ast::FlowEdgeView {
    crate::model::flow_ast::FlowEdgeView {
        from_node_id: e.from_node_id,
        to_node_id: e.to_node_id,
        label: e.label,
        connector: e.connector,
        style: e.style,
    }
}

/// A graph scene: nodes and directed edges keyed by object id.
#[derive(Debug)]
pub struct GraphModel {
    pub nodes: SortedMap<ObjectId, GraphNode>,
    pub edges: SortedMap<ObjectId, GraphEdge>,
}

impl GraphModel {
    /// An empty scene.
    pub fn default() -> (m: GraphModel)
        ensures
            m.nodes@ == Map::<Seq<char>, GraphNode>::empty(),
            m.edges@ == Map::<Seq<char>, GraphEdge>::empty(),
    {
        GraphModel { nodes: SortedMap::new(), edges: SortedMap::new() }
    }

    pub fn nodes(&self) -> (r: &SortedMap<ObjectId, GraphNode>)
        ensures
            *r == self.nodes,
    {
        &self.nodes
    }

    pub fn nodes_mut(&mut self) -> (r: &mut SortedMap<ObjectId, GraphNode>)
        ensures
            *r == old(self).nodes,
            *final(self) == (GraphModel { nodes: *final(r), ..*old(self) }),
    {
        &mut self.nodes
    }

    pub fn edges(&self) -> (r: &SortedMap<ObjectId, GraphEdge>)
        ensures
            *r == self.edges,
    {
        &self.edges
    }

    pub fn edges_mut(&mut self) -> (r: &mut SortedMap<ObjectId, GraphEdge>)
        ensures
            *r == old(self).edges,
            *final(self) == (GraphModel { edges: *final(r), ..*old(self) }),
    {
        &mut self.edges
    }

    /// The flowchart this scene stands for: each node and edge with its flowchart fields
    /// (caps and stroke are not part of a flowchart; the connector token is kept as it is).
    pub fn to_flowchart_ast(&self) -> (ast: FlowchartAst)
        ensures
            ast.nodes@.map_values(|n: FlowNode| n@) == self.nodes@.map_values(|g: GraphNode| graph_node_as_flow(g@)),
            ast.edges@.map_values(|e: FlowEdge| e@) == self.edges@.map_values(|g: GraphEdge| graph_edge_as_flow(g@)),
    {
        let mut ast = FlowchartAst::default();
        proof {
            use_type_invariant(&self.nodes);
            use_type_invariant(&self.edges);
            self.nodes.lemma_shape();
            self.edges.lemma_shape();
        }
        let ghost nks = self.nodes.keys_seq();
        let n = self.nodes.len();
        let mut i: usize = 0;
        while i < n
            invariant
                n == nks.len(),
                nks == self.nodes.keys_seq(),
                self.nodes.well_formed(),
                i <= n,
                ast.edges@ == Map::<Seq<char>, FlowEdge>::empty(),
                forall|k: Seq<char>| #[trigger] ast.nodes@.contains_key(k) <==> nks.take(i as int).contains(k),
                forall|k: Seq<char>| #[trigger] ast.nodes@.contains_key(k) ==> ast.nodes@[k]@ == graph_node_as_flow(self.nodes@[k]@),
            decreases n - i,
        {
            let id = self.nodes.key_at(i);
            let node = self.nodes.value_at(i);
            let mut flow_node = FlowNode::new_with(node.label.as_str(), node.shape.as_str(), dup_opt_string(&node.mermaid_id));
            flow_node.set_note(dup_opt_string(&node.note));
            flow_node.set_symbol(dup_opt_symbol(&node.symbol));
            proof {
                self.nodes.lemma_shape();
                assert(self.nodes@.contains_key(nks[i as int]));
                assert(self.nodes@[nks[i as int]] == *node);
            }
            ast.nodes.insert(id.duplicate(), flow_node);
            proof {
                let t0 = nks.take(i as int);
                let t1 = nks.take(i + 1);
                assert(t1 =~= t0.push(nks[i as int]));
                assert forall|k: Seq<char>| #[trigger] ast.nodes@.contains_key(k) <==> t1.contains(k) by {
                    if k == nks[i as int] {
                        assert(t1[i as int] == k);
                    }
                    if t1.contains(k) && k != nks[i as int] {
                        let j = choose|j: int| 0 <= j < t1.len() && t1[j] == k;
                        assert(t0[j] == k);
                    }
                    if t0.contains(k) {
                        let j = choose|j: int| 0 <= j < t0.len() && t0[j] == k;
                        assert(t1[j] == k);
                    }
                }
            }
            i = i + 1;
        }
        proof {
            assert(nks.take(n as int) =~= nks);
            assert(ast.nodes@.map_values(|n: FlowNode| n@) =~= self.nodes@.map_values(|g: GraphNode| graph_node_as_flow(g@)));
        }
        let ghost eks = self.edges.keys_seq();
        let ghost nodes_done = ast.nodes@;
        let m = self.edges.len();
        let mut i: usize = 0;
        while i < m
            invariant
                m == eks.len(),
                eks == self.edges.keys_seq(),
                self.edges.well_formed(),
                i <= m,
                ast.nodes@ == nodes_done,
                forall|k: Seq<char>| #[trigger] ast.edges@.contains_key(k) <==> eks.take(i as int).contains(k),
                forall|k: Seq<char>| #[trigger] ast.edges@.contains_key(k) ==> ast.edges@[k]@ == graph_edge_as_flow(self.edges@[k]@),
            decreases m - i,
        {
            let id = self.edges.key_at(i);
            let edge = self.edges.value_at(i);
            let mut flow_edge = FlowEdge::new(edge.from_node_id.duplicate(), edge.to_node_id.duplicate());
            flow_edge.set_label(dup_opt_string(&edge.label));
            flow_edge.set_connector(dup_opt_string(&edge.connector));
            flow_edge.set_style(dup_opt_string(&edge.style));
            proof {
                self.edges.lemma_shape();
                assert(self.edges@.contains_key(eks[i as int]));
                assert(self.edges@[eks[i as int]] == *edge);
            }
            ast.edges.insert(id.duplicate(), flow_edge);
            proof {
                let t0 = eks.take(i as int);
                let t1 = eks.take(i + 1);
                assert(t1 =~= t0.push(eks[i as int]));
                assert forall|k: Seq<char>| #[trigger] ast.edges@.contains_key(k) <==> t1.contains(k) by {
                    if k == eks[i as int] {
                        assert(t1[i as int] == k);
                    }
                    if t1.contains(k) && k != eks[i as int] {
                        let j = choose|j: int| 0 <= j < t1.len() && t1[j] == k;
                        assert(t0[j] == k);
                    }
                    if t0.contains(k) {
                        let j = choose|j: int| 0 <= j < t0.len() && t0[j] == k;
                        assert(t1[j] == k);
                    }
                }
            }
            i = i + 1;
        }
        proof {
            assert(eks.take(m as int) =~= eks);
            assert(ast.edges@.map_values(|e: FlowEdge| e@) =~= self.edges@.map_values(|g: GraphEdge| graph_edge_as_flow(g@)));
        }
        ast
    }
}

/// How a track span is painted.
#[derive(Debug, Clone, Copy, PartialEq, Eq, Hash, Structural)]
pub enum TrackSpanStyle {
    /// Sequence message arrow.
    Arrow,
    /// Filled duration bar.
    Bar,
}

impl Default for TrackSpanStyle {
    fn default() -> (s: TrackSpanStyle)
        ensures
            s == TrackSpanStyle::Arrow,
    {
        TrackSpanStyle::Arrow
    }
}

/// A track scene: the sequence diagram it paints, and the default span style.
#[derive(Debug)]
pub struct TrackModel {
    sequence: SequenceAst,
    default_span_style: TrackSpanStyle,
}

impl TrackModel {
    pub closed spec fn sequence(&self) -> SequenceAst {
        self.sequence
    }

    pub closed spec fn span_style(&self) -> TrackSpanStyle {
        self.default_span_style
    }

    /// A track scene of a sequence diagram, painted with arrows.
    pub fn from_sequence(sequence: SequenceAst) -> (t: TrackModel)
        ensures
            t.sequence() == sequence,
            t.span_style() == TrackSpanStyle::Arrow,
    {
        TrackModel { sequence, default_span_style: TrackSpanStyle::Arrow }
    }

    pub fn as_sequence_ast(&self) -> (r: &SequenceAst)
        ensures
            *r == self.sequence(),
    {
        &self.sequence
    }

    pub fn into_sequence_ast(self) -> (r: SequenceAst)
        ensures
            r == self.sequence(),
    {
        self.sequence
    }

    pub fn default_span_style(&self) -> (s: TrackSpanStyle)
        ensures
            s == self.span_style(),
    {
        self.default_span_style
    }

    pub fn with_default_span_style(self, style: TrackSpanStyle) -> (t: TrackModel)
        ensures
            t.sequence() == self.sequence(),
            t.span_style() == style,
    {
        TrackModel { default_span_style: style, ..self }
    }
}

/// A scene after lowering a diagram.
#[derive(Debug)]
pub enum RenderScene {
    Graph(GraphModel),
    Track(TrackModel),
}

impl RenderScene {
    /// `graph` or `track`.
    pub fn family_name(&self) -> (s: &'static str)
        ensures
            s@ == (match self {
                RenderScene::Graph(_) => seq!['g', 'r', 'a', 'p', 'h'],
                RenderScene::Track(_) => seq!['t', 'r', 'a', 'c', 'k'],
            }),
    {
        match self {
            RenderScene::Graph(_) => {
                proof {
                    reveal_strlit("graph");
                    assert("graph"@ =~= seq!['g', 'r', 'a', 'p', 'h']);
                }
                "graph"
            },
            RenderScene::Track(_) => {
                proof {
                    reveal_strlit("track");
                    assert("track"@ =~= seq!['t', 'r', 'a', 'c', 'k']);
                }
                "track"
            },
        }
    }
}

} // verus!
