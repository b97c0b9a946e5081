//! Applying one flowchart operation to a flowchart AST.

use vstd::prelude::*;
use crate::chars::{MermaidIdentError, check_mermaid_ident};
use crate::model::flow_ast::{FlowEdge, FlowNode, FlowchartAst, dup_opt_string, dup_opt_symbol, opt_view};
use crate::model::ids::ObjectId;
use crate::model::object_ref::ObjectRef;
use crate::sorted_map::{Duplicate, OrdKey, SortedMap};
use super::delta::{DeltaBuilder, object_ref};
use super::normalize::{normalize_flow_connector, same_text};
use super::spec::{
    Changes, FlowState, edges_touching, flow_edge_ref, flow_identity_problem, flow_key_taken_by,
    flow_mermaid_key, flow_node_ref, flow_step, lemma_least_such_found, lemma_least_such_none,
    mark_removed, mark_removed_all,
};
use super::{ApplyError, FlowOp, ObjectKind};

verus! {

/// The abstract flowchart held by an AST.
pub open spec fn flow_state(ast: FlowchartAst) -> FlowState {
    FlowState {
        nodes: ast.nodes@.map_values(|n: FlowNode| n@),
        edges: ast.edges@.map_values(|e: FlowEdge| e@),
    }
}

/// `r` and the new AST and change record are what `flow_step` gives for `op`.
pub open spec fn flow_outcome(
    d: Seq<char>,
    before: FlowchartAst,
    t: Changes,
    op: FlowOp,
    after: FlowchartAst,
    t2: Changes,
    r: Result<(), ApplyError>,
) -> bool {
    match flow_step(d, flow_state(before), t, op) {
        Ok((st, tt)) => r is Ok && flow_state(after) == st && t2 == tt,
        Err(e) => r matches Err(x) && x@ == e,
    }
}

pub(crate) fn flow_node_ref_of(diagram_id: &ObjectId, node_id: &ObjectId) -> (r: ObjectRef)
    ensures
        r@ == flow_node_ref(diagram_id@, node_id@),
{
    proof {
        reveal_strlit("flow");
        reveal_strlit("node");
    }
    object_ref(diagram_id, "flow", "node", node_id)
}

pub(crate) fn flow_edge_ref_of(diagram_id: &ObjectId, edge_id: &ObjectId) -> (r: ObjectRef)
    ensures
        r@ == flow_edge_ref(diagram_id@, edge_id@),
{
    proof {
        reveal_strlit("flow");
        reveal_strlit("edge");
    }
    object_ref(diagram_id, "flow", "edge", edge_id)
}

/// The Mermaid id a node is known by: its explicit id, else its object id without `n:`.
pub fn flow_node_mermaid_key(node_id: &ObjectId, node: &FlowNode) -> (r: Option<String>)
    ensures
        opt_view(r) == flow_mermaid_key(node_id@, node@),
{
    match &node.mermaid_id {
        Some(m) => Some(m.clone()),
        None => {
            let s = node_id.as_str();
            let n = s.unicode_len();
            if n >= 2 && s.get_char(0) == 'n' && s.get_char(1) == ':' {
                let rest = s.substring_char(2, n);
                proof {
                    assert(rest@ =~= node_id@.skip(2));
                }
                Some(String::from_str(rest))
            } else {
                None
            }
        },
    }
}

/// Checks that `node`, stored under `node_id`, has a valid Mermaid id that no other node uses.
fn validate_flow_node_mermaid_identity(ast: &FlowchartAst, node_id: &ObjectId, node: &FlowNode) -> (r: Result<(), ApplyError>)
    ensures
        match flow_identity_problem(flow_state(*ast).nodes, node_id@, node@) {
            None => r is Ok,
            Some(e) => r matches Err(x) && x@ == e,
        },
{
    let key = match flow_node_mermaid_key(node_id, node) {
        None => {
            return Err(ApplyError::InvalidFlowNodeMermaidId {
                mermaid_id: node_id.to_string(),
                reason: MermaidIdentError::Empty,
            });
        },
        Some(k) => k,
    };
    match check_mermaid_ident(key.as_str()) {
        Err(reason) => {
            return Err(ApplyError::InvalidFlowNodeMermaidId { mermaid_id: key, reason });
        },
        Ok(()) => {},
    }
    let ghost nodes = flow_state(*ast).nodes;
    let ghost p = |o: Seq<char>| flow_key_taken_by(nodes, node_id@, key@, o);
    let ghost ks = ast.nodes.keys_seq();
    proof {
        use_type_invariant(&ast.nodes);
        ast.nodes.lemma_shape();
        assert forall|o: Seq<char>| #[trigger] p(o) implies ks.contains(o) by {
            assert(ast.nodes@.contains_key(o));
        }
    }
    let n = ast.nodes.len();
    let mut i: usize = 0;
    while i < n
        invariant
            n == ks.len(),
            ks == ast.nodes.keys_seq(),
            ast.nodes.well_formed(),
            nodes == flow_state(*ast).nodes,
            p == (|o: Seq<char>| flow_key_taken_by(nodes, node_id@, key@, o)),
            flow_mermaid_key(node_id@, node@) == Some(key@),
            crate::chars::mermaid_ident_problem(key@) is None,
            i <= n,
            forall|j: int| 0 <= j < i ==> !p(#[trigger] ks[j]),
        decreases n - i,
    {
        let cid = ast.nodes.key_at(i);
        let cand = ast.nodes.value_at(i);
        proof {
            ast.nodes.lemma_shape();
            assert(ast.nodes@.contains_key(ks[i as int]));
            assert(nodes[ks[i as int]] == cand@);
        }
        if !cid.same_as(node_id) {
            match flow_node_mermaid_key(cid, cand) {
                Some(ck) => {
                    if same_text(ck.as_str(), key.as_str()) {
                        proof {
                            assert(p(ks[i as int]));
                            lemma_least_such_found(p, ks, i as int);
                            assert(super::spec::first_flow_key_owner(nodes, node_id@, key@) == Some(ks[i as int]));
                        }
                        return Err(ApplyError::DuplicateFlowNodeMermaidId { mermaid_id: key, node_id: cid.duplicate() });
                    }
                },
                None => {},
            }
        }
        i = i + 1;
    }
    proof {
        lemma_least_such_none(p, ks);
    }
    Ok(())
}

fn flow_add_node(
    d: &ObjectId,
    ast: &mut FlowchartAst,
    node_id: &ObjectId,
    label: &String,
    shape: &Option<String>,
    delta: &mut DeltaBuilder,
) -> (r: Result<(), ApplyError>)
    ensures
        flow_outcome(
            d@,
            *old(ast),
            old(delta)@,
            FlowOp::AddNode { node_id: *node_id, label: *label, shape: *shape },
            *final(ast),
            final(delta)@,
            r,
        ),
{
    if ast.nodes.contains_key(node_id) {
        return Err(ApplyError::AlreadyExists { kind: ObjectKind::FlowNode, object_id: node_id.duplicate() });
    }
    let mut node = FlowNode::new(label.as_str());
    match shape {
        Some(s) => {
            node.set_shape(s.clone());
        },
        None => {},
    }
    proof {
        reveal_strlit("rect");
    }
    match validate_flow_node_mermaid_identity(ast, node_id, &node) {
        Err(e) => {
            return Err(e);
        },
        Ok(()) => {},
    }
    let ghost nv = node@;
    proof {
        assert(nv.label == label@);
        assert(nv.shape == (match *shape { Some(s) => s@, None => "rect"@ }));
        assert(nv.mermaid_id is None);
        assert(nv.note is None);
        assert(nv.symbol is None);
    }
    ast.nodes.insert(node_id.duplicate(), node);
    delta.record_added(flow_node_ref_of(d, node_id));
    proof {
        assert(flow_state(*ast).nodes =~= flow_state(*old(ast)).nodes.insert(node_id@, nv));
    }
    Ok(())
}

/// Which node field a node operation rewrites.
spec fn node_rewrite(op: FlowOp, old_node: crate::model::flow_ast::FlowNodeView) -> crate::model::flow_ast::FlowNodeView {
    match op {
        FlowOp::UpdateNode { patch, .. } => crate::model::flow_ast::FlowNodeView {
            label: match patch.label {
                Some(l) => l@,
                None => old_node.label,
            },
            shape: match patch.shape {
                Some(s) => s@,
                None => old_node.shape,
            },
            ..old_node
        },
        FlowOp::SetNodeMermaidId { mermaid_id, .. } => crate::model::flow_ast::FlowNodeView {
            mermaid_id: opt_view(mermaid_id),
            ..old_node
        },
        FlowOp::SetNodeNote { note, .. } => crate::model::flow_ast::FlowNodeView { note: opt_view(note), ..old_node },
        FlowOp::SetNodeSymbol { symbol, .. } => crate::model::flow_ast::FlowNodeView {
            symbol: crate::model::flow_ast::opt_symbol_view(symbol),
            ..old_node
        },
        _ => old_node,
    }
}

/// Rewrites one field of an existing node (label and shape, Mermaid id, note or symbol).
fn flow_rewrite_node(
    d: &ObjectId,
    ast: &mut FlowchartAst,
    node_id: &ObjectId,
    op: &FlowOp,
    delta: &mut DeltaBuilder,
) -> (r: Result<(), ApplyError>)
    requires
        match *op {
            FlowOp::UpdateNode { node_id: n, .. } => n == *node_id,
            FlowOp::SetNodeMermaidId { node_id: n, .. } => n == *node_id,
            FlowOp::SetNodeNote { node_id: n, .. } => n == *node_id,
            FlowOp::SetNodeSymbol { node_id: n, .. } => n == *node_id,
            _ => false,
        },
    ensures
        flow_outcome(d@, *old(ast), old(delta)@, *op, *final(ast), final(delta)@, r),
{
    let mut node = match ast.nodes.get(node_id) {
        None => {
            return Err(ApplyError::NotFound { kind: ObjectKind::FlowNode, object_id: node_id.duplicate() });
        },
        Some(n) => n.duplicate(),
    };
    let ghost old_view = node@;
    match op {
        FlowOp::UpdateNode { patch, .. } => {
            match &patch.label {
                Some(l) => {
                    node.set_label(l.clone());
                },
                None => {},
            }
            match &patch.shape {
                Some(s) => {
                    node.set_shape(s.clone());
                },
                None => {},
            }
        },
        FlowOp::SetNodeMermaidId { mermaid_id, .. } => {
            node.set_mermaid_id(dup_opt_string(mermaid_id));
            match validate_flow_node_mermaid_identity(ast, node_id, &node) {
                Err(e) => {
                    return Err(e);
                },
                Ok(()) => {},
            }
        },
        FlowOp::SetNodeNote { note, .. } => {
            node.set_note(dup_opt_string(note));
        },
        FlowOp::SetNodeSymbol { symbol, .. } => {
            node.set_symbol(dup_opt_symbol(symbol));
        },
        _ => {},
    }
    let ghost nv = node@;
    proof {
        assert(nv == node_rewrite(*op, old_view));
    }
    ast.nodes.insert(node_id.duplicate(), node);
    delta.record_updated(flow_node_ref_of(d, node_id));
    proof {
        assert(flow_state(*ast).nodes =~= flow_state(*old(ast)).nodes.insert(node_id@, nv));
    }
    Ok(())
}

fn flow_add_edge(
    d: &ObjectId,
    ast: &mut FlowchartAst,
    op: &FlowOp,
    delta: &mut DeltaBuilder,
) -> (r: Result<(), ApplyError>)
    requires
        op is AddEdge,
    ensures
        flow_outcome(d@, *old(ast), old(delta)@, *op, *final(ast), final(delta)@, r),
{
    match op {
        FlowOp::AddEdge { edge_id, from_node_id, to_node_id, label, connector, style } => {
            if ast.edges.contains_key(edge_id) {
                return Err(ApplyError::AlreadyExists { kind: ObjectKind::FlowEdge, object_id: edge_id.duplicate() });
            }
            if !ast.nodes.contains_key(from_node_id) {
                return Err(ApplyError::MissingFlowNode { node_id: from_node_id.duplicate() });
            }
            if !ast.nodes.contains_key(to_node_id) {
                return Err(ApplyError::MissingFlowNode { node_id: to_node_id.duplicate() });
            }
            let mut edge = FlowEdge::new(from_node_id.duplicate(), to_node_id.duplicate());
            edge.set_label(dup_opt_string(label));
            edge.set_connector(normalize_flow_connector(dup_opt_string(connector)));
            edge.set_style(dup_opt_string(style));
            let ghost ev = edge@;
            ast.edges.insert(edge_id.duplicate(), edge);
            delta.record_added(flow_edge_ref_of(d, edge_id));
            proof {
                assert(flow_state(*ast).edges =~= flow_state(*old(ast)).edges.insert(edge_id@, ev));
            }
            Ok(())
        },
        _ => Ok(()),
    }
}

fn flow_update_edge(
    d: &ObjectId,
    ast: &mut FlowchartAst,
    op: &FlowOp,
    delta: &mut DeltaBuilder,
) -> (r: Result<(), ApplyError>)
    requires
        op is UpdateEdge,
    ensures
        flow_outcome(d@, *old(ast), old(delta)@, *op, *final(ast), final(delta)@, r),
{
    match op {
        FlowOp::UpdateEdge { edge_id, patch } => {
            let existing = match ast.edges.get(edge_id) {
                None => {
                    return Err(ApplyError::NotFound { kind: ObjectKind::FlowEdge, object_id: edge_id.duplicate() });
                },
                Some(e) => e,
            };
            let from = match &patch.from_node_id {
                Some(f) => f.duplicate(),
                None => existing.from_node_id.duplicate(),
            };
            let to = match &patch.to_node_id {
                Some(x) => x.duplicate(),
                None => existing.to_node_id.duplicate(),
            };
            let label = match &patch.label {
                Some(l) => Some(l.clone()),
                None => dup_opt_string(&existing.label),
            };
            let connector = match &patch.connector {
                Some(c) => Some(c.clone()),
                None => dup_opt_string(&existing.connector),
            };
            let style = match &patch.style {
                Some(x) => Some(x.clone()),
                None => dup_opt_string(&existing.style),
            };
            if !ast.nodes.contains_key(&from) {
                return Err(ApplyError::MissingFlowNode { node_id: from });
            }
            if !ast.nodes.contains_key(&to) {
                return Err(ApplyError::MissingFlowNode { node_id: to });
            }
            let mut edge = FlowEdge::new_with(from, to, label, style);
            edge.set_connector(normalize_flow_connector(connector));
            let ghost ev = edge@;
            ast.edges.insert(edge_id.duplicate(), edge);
            delta.record_updated(flow_edge_ref_of(d, edge_id));
            proof {
                assert(flow_state(*ast).edges =~= flow_state(*old(ast)).edges.insert(edge_id@, ev));
            }
            Ok(())
        },
        _ => Ok(()),
    }
}

fn flow_remove_edge(
    d: &ObjectId,
    ast: &mut FlowchartAst,
    edge_id: &ObjectId,
    delta: &mut DeltaBuilder,
) -> (r: Result<(), ApplyError>)
    ensures
        flow_outcome(
            d@,
            *old(ast),
            old(delta)@,
            FlowOp::RemoveEdge { edge_id: *edge_id },
            *final(ast),
            final(delta)@,
            r,
        ),
{
    match ast.edges.remove(edge_id) {
        None => Err(ApplyError::NotFound { kind: ObjectKind::FlowEdge, object_id: edge_id.duplicate() }),
        Some(_) => {
            delta.record_removed(flow_edge_ref_of(d, edge_id));
            proof {
                assert(flow_state(*ast).edges =~= flow_state(*old(ast)).edges.remove(edge_id@));
            }
            Ok(())
        },
    }
}

/// Marking one more reference removed extends a bulk removal.
pub proof fn lemma_mark_removed_all_insert(t: Changes, rs: Set<crate::model::object_ref::RefView>, r: crate::model::object_ref::RefView)
    ensures
        mark_removed(mark_removed_all(t, rs), r) == mark_removed_all(t, rs.insert(r)),
{
    assert(mark_removed(mark_removed_all(t, rs), r) =~= mark_removed_all(t, rs.insert(r)));
}

/// Ids of the edges among `ks` (the first `i` edge keys) that touch node `n`, in key order.
spec fn touching_prefix(gone: Seq<Seq<char>>, edges: Map<Seq<char>, crate::model::flow_ast::FlowEdgeView>, ks: Seq<Seq<char>>, n: Seq<char>, i: int) -> bool {
    &&& forall|j: int| 0 <= j < i ==> (edges_touching(edges, n).contains(#[trigger] ks[j]) <==> gone.contains(ks[j]))
    &&& forall|a: int| 0 <= a < gone.len() ==> edges_touching(edges, n).contains(#[trigger] gone[a])
}

fn flow_remove_node(
    d: &ObjectId,
    ast: &mut FlowchartAst,
    node_id: &ObjectId,
    delta: &mut DeltaBuilder,
) -> (r: Result<(), ApplyError>)
    ensures
        flow_outcome(
            d@,
            *old(ast),
            old(delta)@,
            FlowOp::RemoveNode { node_id: *node_id },
            *final(ast),
            final(delta)@,
            r,
        ),
{
    if !ast.nodes.contains_key(node_id) {
        return Err(ApplyError::NotFound { kind: ObjectKind::FlowNode, object_id: node_id.duplicate() });
    }
    let ghost es = flow_state(*ast).edges;
    let ghost n = node_id@;
    let ghost ks = ast.edges.keys_seq();
    proof {
        use_type_invariant(&ast.edges);
        ast.edges.lemma_shape();
    }
    let ne = ast.edges.len();
    let mut gone: Vec<ObjectId> = Vec::new();
    let mut i: usize = 0;
    while i < ne
        invariant
            ne == ks.len(),
            ks == ast.edges.keys_seq(),
            es == flow_state(*ast).edges,
            n == node_id@,
            ast.edges.well_formed(),
            i <= ne,
            touching_prefix(gone@.map_values(|g: ObjectId| g@), es, ks, n, i as int),
        decreases ne - i,
    {
        let eid = ast.edges.key_at(i);
        let e = ast.edges.value_at(i);
        let ghost g0 = gone@.map_values(|g: ObjectId| g@);
        proof {
            ast.edges.lemma_shape();
            assert(ast.edges@.contains_key(ks[i as int]) && ast.edges@[ks[i as int]] == *e);
        }
        if e.from_node_id.same_as(node_id) || e.to_node_id.same_as(node_id) {
            gone.push(eid.key_dup());
            proof {
                let g1 = gone@.map_values(|g: ObjectId| g@);
                assert(g1 =~= g0.push(ks[i as int]));
                assert(edges_touching(es, n).contains(ks[i as int]));
                assert forall|j: int| 0 <= j < i + 1 implies (edges_touching(es, n).contains(#[trigger] ks[j]) <==> g1.contains(ks[j])) by {
                    if j < i {
                        if g0.contains(ks[j]) {
                            let a = choose|a: int| 0 <= a < g0.len() && g0[a] == ks[j];
                            assert(g1[a] == ks[j]);
                        }
                        if g1.contains(ks[j]) && !g0.contains(ks[j]) {
                            let a = choose|a: int| 0 <= a < g1.len() && g1[a] == ks[j];
                            if a < g0.len() {
                                assert(g0[a] == ks[j]);
                            }
                        }
                    } else {
                        assert(g1[g0.len() as int] == ks[j]);
                    }
                }
                assert forall|a: int| 0 <= a < g1.len() implies edges_touching(es, n).contains(#[trigger] g1[a]) by {
                    if a < g0.len() {
                        assert(g1[a] == g0[a]);
                    }
                }
            }
        } else {
            proof {
                assert(!edges_touching(es, n).contains(ks[i as int]));
                assert forall|j: int| 0 <= j < i + 1 implies (edges_touching(es, n).contains(#[trigger] ks[j]) <==> g0.contains(ks[j])) by {
                    if j == i {
                        if g0.contains(ks[j]) {
                            let a = choose|a: int| 0 <= a < g0.len() && g0[a] == ks[j];
                            assert(edges_touching(es, n).contains(g0[a]));
                        }
                    }
                }
            }
        }
        i = i + 1;
    }
    let ghost gset = gone@.map_values(|g: ObjectId| g@).to_set();
    proof {
        assert(gset =~= edges_touching(es, n)) by {
            assert forall|x: Seq<char>| gset.contains(x) implies edges_touching(es, n).contains(x) by {
                let gv = gone@.map_values(|g: ObjectId| g@);
                let a = choose|a: int| 0 <= a < gv.len() && gv[a] == x;
                assert(edges_touching(es, n).contains(gv[a]));
            }
            assert forall|x: Seq<char>| edges_touching(es, n).contains(x) implies gset.contains(x) by {
                assert(ast.edges@.contains_key(x));
                assert(ks.contains(x));
                let j = choose|j: int| 0 <= j < ks.len() && ks[j] == x;
                assert(edges_touching(es, n).contains(ks[j]));
            }
        }
    }
    let ghost e0 = ast.edges@;
    let ghost t0 = delta@;
    let ghost gv = gone@.map_values(|g: ObjectId| g@);
    let m = gone.len();
    let mut k: usize = 0;
    proof {
        assert(gv.take(0).to_set() =~= Set::<Seq<char>>::empty());
        assert(e0.remove_keys(Set::<Seq<char>>::empty()) =~= e0);
        assert(mark_removed_all(t0, Set::<Seq<char>>::empty().map(|e: Seq<char>| flow_edge_ref(d@, e))) =~= t0);
    }
    while k < m
        invariant
            m == gone@.len(),
            gv == gone@.map_values(|g: ObjectId| g@),
            k <= m,
            ast.edges@ == e0.remove_keys(gv.take(k as int).to_set()),
            delta@ == mark_removed_all(t0, gv.take(k as int).to_set().map(|e: Seq<char>| flow_edge_ref(d@, e))),
            ast.nodes == old(ast).nodes,
        decreases m - k,
    {
        let ghost before = gv.take(k as int).to_set();
        ast.edges.remove(&gone[k]);
        delta.record_removed(flow_edge_ref_of(d, &gone[k]));
        proof {
            let after = gv.take(k + 1).to_set();
            assert(gv.take(k + 1) =~= gv.take(k as int).push(gv[k as int]));
            gv.take(k as int).lemma_push_to_set_commute(gv[k as int]);
            assert(after =~= before.insert(gv[k as int]));
            assert(ast.edges@ =~= e0.remove_keys(after));
            before.lemma_set_map_insert_commute(gv[k as int], |e: Seq<char>| flow_edge_ref(d@, e));
            lemma_mark_removed_all_insert(t0, before.map(|e: Seq<char>| flow_edge_ref(d@, e)), flow_edge_ref(d@, gv[k as int]));
        }
        k = k + 1;
    }
    ast.nodes.remove(node_id);
    delta.record_removed(flow_node_ref_of(d, node_id));
    proof {
        assert(gv.take(m as int) =~= gv);
        assert(flow_state(*ast).nodes =~= flow_state(*old(ast)).nodes.remove(node_id@));
        assert(flow_state(*ast).edges =~= es.remove_keys(edges_touching(es, n)));
        assert(gv.to_set().map(|e: Seq<char>| flow_edge_ref(d@, e)) =~= edges_touching(es, n).map(|e: Seq<char>| flow_edge_ref(d@, e)));
    }
    Ok(())
}

/// Applies one flowchart operation: on success the AST and change record are those that
/// `flow_step` gives; on refusal the error is the one it gives.
pub fn apply_flow_op(
    diagram_id: &ObjectId,
    ast: &mut FlowchartAst,
    op: &FlowOp,
    delta: &mut DeltaBuilder,
) -> (r: Result<(), ApplyError>)
    ensures
        flow_outcome(diagram_id@, *old(ast), old(delta)@, *op, *final(ast), final(delta)@, r),
{
    match op {
        FlowOp::AddNode { node_id, label, shape } => flow_add_node(diagram_id, ast, node_id, label, shape, delta),
        FlowOp::UpdateNode { node_id, .. } => flow_rewrite_node(diagram_id, ast, node_id, op, delta),
        FlowOp::SetNodeMermaidId { node_id, .. } => flow_rewrite_node(diagram_id, ast, node_id, op, delta),
        FlowOp::SetNodeNote { node_id, .. } => flow_rewrite_node(diagram_id, ast, node_id, op, delta),
        FlowOp::SetNodeSymbol { node_id, .. } => flow_rewrite_node(diagram_id, ast, node_id, op, delta),
        FlowOp::RemoveNode { node_id } => flow_remove_node(diagram_id, ast, node_id, delta),
        FlowOp::AddEdge { .. } => flow_add_edge(diagram_id, ast, op, delta),
        FlowOp::UpdateEdge { .. } => flow_update_edge(diagram_id, ast, op, delta),
        FlowOp::RemoveEdge { edge_id } => flow_remove_edge(diagram_id, ast, edge_id, delta),
    }
}

} // verus!
