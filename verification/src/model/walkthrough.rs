//! Walkthroughs: an ordered list of titled steps and the links between them.

use vstd::prelude::*;
use super::ids::{WalkthroughId, WalkthroughNodeId};

verus! {

/// One step of a walkthrough.
#[derive(Debug, Clone)]
pub struct WalkthroughNode {
    node_id: WalkthroughNodeId,
    title: String,
}

impl WalkthroughNode {
    pub fn new(node_id: WalkthroughNodeId, title: &str) -> (n: WalkthroughNode)
        ensures
            n.id_view() == node_id@,
            n.title_view() == title@,
    {
        WalkthroughNode { node_id, title: title.to_string() }
    }

    pub closed spec fn id_view(&self) -> Seq<char> {
        self.node_id@
    }

    pub closed spec fn title_view(&self) -> Seq<char> {
        self.title@
    }

    pub fn node_id(&self) -> (r: &WalkthroughNodeId)
        ensures
            r@ == self.id_view(),
    {
        &self.node_id
    }

    pub fn title(&self) -> (r: &str)
        ensures
            r@ == self.title_view(),
    {
        self.title.as_str()
    }
}

/// A link from one step to another.
#[derive(Debug, Clone)]
pub struct WalkthroughEdge {
    from_node_id: WalkthroughNodeId,
    to_node_id: WalkthroughNodeId,
    label: String,
}

impl WalkthroughEdge {
    pub fn new(from_node_id: WalkthroughNodeId, to_node_id: WalkthroughNodeId, label: &str) -> (e: WalkthroughEdge)
        ensures
            e.from_view() == from_node_id@,
            e.to_view() == to_node_id@,
            e.label_view() == label@,
    {
        WalkthroughEdge { from_node_id, to_node_id, label: label.to_string() }
    }

    pub closed spec fn from_view(&self) -> Seq<char> {
        self.from_node_id@
    }

    pub closed spec fn to_view(&self) -> Seq<char> {
        self.to_node_id@
    }

    pub closed spec fn label_view(&self) -> Seq<char> {
        self.label@
    }

    pub fn from_node_id(&self) -> (r: &WalkthroughNodeId)
        ensures
            r@ == self.from_view(),
    {
        &self.from_node_id
    }

    pub fn to_node_id(&self) -> (r: &WalkthroughNodeId)
        ensures
            r@ == self.to_view(),
    {
        &self.to_node_id
    }

    pub fn label(&self) -> (r: &str)
        ensures
            r@ == self.label_view(),
    {
        self.label.as_str()
    }
}

/// A walkthrough: its steps in order and the links between them.
#[derive(Debug, Clone)]
pub struct Walkthrough {
    walkthrough_id: WalkthroughId,
    title: String,
    nodes: Vec<WalkthroughNode>,
    edges: Vec<WalkthroughEdge>,
}

impl Walkthrough {
    /// A walkthrough without steps or links.
    pub fn new(walkthrough_id: WalkthroughId, title: &str) -> (w: Walkthrough)
        ensures
            w.id_view() == walkthrough_id@,
            w.title_view() == title@,
            w.nodes_view().len() == 0,
            w.edges_view().len() == 0,
    {
        Walkthrough { walkthrough_id, title: title.to_string(), nodes: Vec::new(), edges: Vec::new() }
    }

    pub closed spec fn id_view(&self) -> Seq<char> {
        self.walkthrough_id@
    }

    pub closed spec fn title_view(&self) -> Seq<char> {
        self.title@
    }

    pub closed spec fn nodes_view(&self) -> Seq<WalkthroughNode> {
        self.nodes@
    }

    pub closed spec fn edges_view(&self) -> Seq<WalkthroughEdge> {
        self.edges@
    }

    pub fn walkthrough_id(&self) -> (r: &WalkthroughId)
        ensures
            r@ == self.id_view(),
    {
        &self.walkthrough_id
    }

    pub fn title(&self) -> (r: &str)
        ensures
            r@ == self.title_view(),
    {
        self.title.as_str()
    }

    pub fn nodes(&self) -> (r: &Vec<WalkthroughNode>)
        ensures
            r@ == self.nodes_view(),
    {
        &self.nodes
    }

    pub fn nodes_mut(&mut self) -> (r: &mut Vec<WalkthroughNode>)
        ensures
            r@ == old(self).nodes_view(),
            final(self).nodes_view() == final(r)@,
            final(self).edges_view() == old(self).edges_view(),
            final(self).id_view() == old(self).id_view(),
            final(self).title_view() == old(self).title_view(),
    {
        &mut self.nodes
    }

    pub fn edges(&self) -> (r: &Vec<WalkthroughEdge>)
        ensures
            r@ == self.edges_view(),
    {
        &self.edges
    }

    pub fn edges_mut(&mut self) -> (r: &mut Vec<WalkthroughEdge>)
        ensures
            r@ == old(self).edges_view(),
            final(self).edges_view() == final(r)@,
            final(self).nodes_view() == old(self).nodes_view(),
            final(self).id_view() == old(self).id_view(),
            final(self).title_view() == old(self).title_view(),
    {
        &mut self.edges
    }
}

} // verus!
