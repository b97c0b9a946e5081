//! Flowchart queries: degrees, reachability, bounded path enumeration, cycles, dead ends.

use vstd::prelude::*;
use crate::model::flow_ast::{FlowEdge, FlowchartAst};
use crate::model::ids::ObjectId;
use crate::order::chars_lt;
use crate::sorted_map::{SortedMap, OrdKey, strictly_sorted, lemma_distinct_within_len};
pub use crate::query::flow_paths::{cycles, paths};

verus! {

/// Edge values of a flowchart, in edge-id order.
pub open spec fn edge_seq(ast: &FlowchartAst) -> Seq<FlowEdge> {
    ast.edges.vals_seq()
}

/// There is an edge from `a` to `b`.
pub open spec fn has_edge(ast: &FlowchartAst, a: Seq<char>, b: Seq<char>) -> bool {
    exists|i: int|
        0 <= i < edge_seq(ast).len() && (#[trigger] edge_seq(ast)[i]).from_node_id@ == a
            && edge_seq(ast)[i].to_node_id@ == b
}

/// A step along an edge, forwards (`from` to `to`) or backwards.
pub open spec fn step(ast: &FlowchartAst, a: Seq<char>, b: Seq<char>, forward: bool) -> bool {
    if forward {
        has_edge(ast, a, b)
    } else {
        has_edge(ast, b, a)
    }
}

/// A walk through declared nodes only.
pub open spec fn is_node_walk(ast: &FlowchartAst, w: Seq<Seq<char>>, forward: bool) -> bool {
    &&& w.len() >= 1
    &&& forall|i: int| 0 <= i < w.len() ==> ast.nodes@.contains_key(#[trigger] w[i])
    &&& forall|i: int| 0 <= i < w.len() - 1 ==> step(ast, #[trigger] w[i], w[i + 1], forward)
}

/// `b` can be reached from `a` through declared nodes.
pub open spec fn reaches(ast: &FlowchartAst, a: Seq<char>, b: Seq<char>, forward: bool) -> bool {
    exists|w: Seq<Seq<char>>| #[trigger] is_node_walk(ast, w, forward) && w[0] == a && w.last() == b
}

/// Ids as their texts.
pub open spec fn id_views(v: Seq<ObjectId>) -> Seq<Seq<char>> {
    v.map_values(|x: ObjectId| x@)
}

/// Ascending and without repetition.
pub open spec fn ascending(v: Seq<Seq<char>>) -> bool {
    strictly_sorted::<ObjectId>(v)
}

/// Direction of a reachability query.
#[derive(Debug, Clone, Copy, PartialEq, Eq, Structural)]
pub enum ReachDirection {
    /// Follow edges forwards.
    Out,
    /// Follow edges backwards.
    In,
    /// Union of the forward and the backward sets.
    Both,
}

proof fn lemma_walk_push(ast: &FlowchartAst, w: Seq<Seq<char>>, x: Seq<char>, forward: bool)
    requires
        is_node_walk(ast, w, forward),
        ast.nodes@.contains_key(x),
        step(ast, w.last(), x, forward),
    ensures
        is_node_walk(ast, w.push(x), forward),
        w.push(x)[0] == w[0],
        w.push(x).last() == x,
{
    let w2 = w.push(x);
    assert forall|i: int| 0 <= i < w2.len() - 1 implies step(ast, #[trigger] w2[i], w2[i + 1], forward) by {
        if i < w.len() - 1 {
            assert(w2[i] == w[i] && w2[i + 1] == w[i + 1]);
        } else {
            assert(w2[i] == w.last());
        }
    }
    assert forall|i: int| 0 <= i < w2.len() implies ast.nodes@.contains_key(#[trigger] w2[i]) by {
        if i < w.len() {
            assert(w2[i] == w[i]);
        }
    }
}

/// Every walk from `a` stays inside a set that contains `a` and is closed under steps.
proof fn lemma_closed_contains_walk(
    ast: &FlowchartAst,
    set: Map<Seq<char>, bool>,
    w: Seq<Seq<char>>,
    forward: bool,
    k: int,
)
    requires
        is_node_walk(ast, w, forward),
        set.contains_key(w[0]),
        forall|u: Seq<char>, x: Seq<char>|
            #![trigger set.contains_key(u), step(ast, u, x, forward)]
            set.contains_key(u) && ast.nodes@.contains_key(x) && step(ast, u, x, forward)
                ==> set.contains_key(x),
        0 <= k < w.len(),
    ensures
        set.contains_key(w[k]),
    decreases k,
{
    if k > 0 {
        lemma_closed_contains_walk(ast, set, w, forward, k - 1);
        assert(step(ast, w[k - 1], w[k], forward));
        assert(ast.nodes@.contains_key(w[k]));
    }
}

/// Breadth-first search through declared nodes; the result's keys are exactly the nodes
/// reachable from `start` (when `start` is declared).
fn visit_from(ast: &FlowchartAst, start: &ObjectId, forward: bool) -> (visited: SortedMap<
    ObjectId,
    bool,
>)
    requires
        ast.nodes@.contains_key(start@),
    ensures
        forall|v: Seq<char>|
            #[trigger] visited@.contains_key(v) <==> reaches(ast, start@, v, forward),
{
    let mut visited: SortedMap<ObjectId, bool> = SortedMap::new();
    let mut queue: Vec<ObjectId> = Vec::new();
    visited.insert(start.key_dup(), true);
    queue.push(start.key_dup());
    proof {
        use_type_invariant(&ast.nodes);
        ast.nodes.lemma_shape();
        let w0 = seq![start@];
        assert(is_node_walk(ast, w0, forward));
        assert(reaches(ast, start@, start@, forward));
        assert(id_views(queue@) =~= seq![start@]);
        assert forall|v: Seq<char>| #[trigger]
            visited@.contains_key(v) <==> id_views(queue@).contains(v) by {
            if v == start@ {
                assert(id_views(queue@)[0] == v);
            }
        }
        use_type_invariant(&ast.edges);
        ast.edges.lemma_shape();
    }
    let ghost nodes_keys = ast.nodes.keys_seq();
    let n_edges = ast.edges.len();
    let mut head: usize = 0;
    while head < queue.len()
        invariant
            nodes_keys == ast.nodes.keys_seq(),
            n_edges == edge_seq(ast).len(),
            n_edges == ast.edges.keys_seq().len(),
            ast.nodes@.contains_key(start@),
            head <= queue@.len(),
            queue@.len() >= 1,
            queue@[0]@ == start@,
            id_views(queue@).no_duplicates(),
            forall|v: Seq<char>| #[trigger]
                visited@.contains_key(v) <==> id_views(queue@).contains(v),
            forall|v: Seq<char>| #[trigger]
                visited@.contains_key(v) ==> reaches(ast, start@, v, forward),
            forall|v: Seq<char>| #[trigger]
                visited@.contains_key(v) ==> ast.nodes@.contains_key(v),
            forall|j: int, x: Seq<char>|
                #![trigger id_views(queue@)[j], step(ast, id_views(queue@)[j], x, forward)]
                0 <= j < head && ast.nodes@.contains_key(x) && step(
                    ast,
                    id_views(queue@)[j],
                    x,
                    forward,
                ) ==> visited@.contains_key(x),
        decreases nodes_keys.len() - head,
    {
        proof {
            use_type_invariant(&ast.nodes);
        ast.nodes.lemma_shape();
            assert forall|i: int| 0 <= i < id_views(queue@).len() implies nodes_keys.contains(
                #[trigger] id_views(queue@)[i],
            ) by {
                assert(visited@.contains_key(id_views(queue@)[i]));
            }
            lemma_distinct_within_len(id_views(queue@), nodes_keys);
        }
        let u = queue[head].key_dup();
        let ghost uv = u@;
        proof {
            assert(id_views(queue@)[head as int] == uv);
            assert(id_views(queue@).contains(uv));
            assert(visited@.contains_key(uv));
        }
        let mut i: usize = 0;
        while i < n_edges
            invariant
                n_edges == edge_seq(ast).len(),
                n_edges == ast.edges.keys_seq().len(),
                i <= n_edges,
                uv == u@,
                head < queue@.len(),
                id_views(queue@)[head as int] == uv,
                visited@.contains_key(uv),
                ast.nodes@.contains_key(start@),
                queue@[0]@ == start@,
                id_views(queue@).no_duplicates(),
                forall|v: Seq<char>| #[trigger]
                    visited@.contains_key(v) <==> id_views(queue@).contains(v),
                forall|v: Seq<char>| #[trigger]
                    visited@.contains_key(v) ==> reaches(ast, start@, v, forward),
                forall|v: Seq<char>| #[trigger]
                    visited@.contains_key(v) ==> ast.nodes@.contains_key(v),
                forall|j: int, x: Seq<char>|
                    #![trigger id_views(queue@)[j], step(ast, id_views(queue@)[j], x, forward)]
                    0 <= j < head && ast.nodes@.contains_key(x) && step(
                        ast,
                        id_views(queue@)[j],
                        x,
                        forward,
                    ) ==> visited@.contains_key(x),
                forall|e: int|
                    0 <= e < i && ast.nodes@.contains_key(
                        if forward {
                            (#[trigger] edge_seq(ast)[e]).to_node_id@
                        } else {
                            edge_seq(ast)[e].from_node_id@
                        },
                    ) && (if forward {
                        edge_seq(ast)[e].from_node_id@
                    } else {
                        edge_seq(ast)[e].to_node_id@
                    }) == uv ==> visited@.contains_key(
                        if forward {
                            edge_seq(ast)[e].to_node_id@
                        } else {
                            edge_seq(ast)[e].from_node_id@
                        },
                    ),
            decreases n_edges - i,
        {
            let edge = ast.edges.value_at(i);
            let (src, dst) = if forward {
                (&edge.from_node_id, &edge.to_node_id)
            } else {
                (&edge.to_node_id, &edge.from_node_id)
            };
            if src.same_as(&u) && ast.nodes.contains_key(dst) && !visited.contains_key(dst) {
                let ghost old_q = id_views(queue@);
                proof {
                    assert(reaches(ast, start@, uv, forward));
                    let w = choose|w: Seq<Seq<char>>| #[trigger]
                        is_node_walk(ast, w, forward) && w[0] == start@ && w.last() == uv;
                    assert(step(ast, uv, dst@, forward)) by {
                        assert(edge_seq(ast)[i as int] == *edge);
                    }
                    lemma_walk_push(ast, w, dst@, forward);
                    assert(reaches(ast, start@, dst@, forward));
                }
                visited.insert(dst.key_dup(), true);
                queue.push(dst.key_dup());
                proof {
                    assert(id_views(queue@) =~= old_q.push(dst@));
                    assert(!old_q.contains(dst@));
                    assert forall|a: int, b: int|
                        0 <= a < b < id_views(queue@).len() implies id_views(queue@)[a]
                        != id_views(queue@)[b] by {
                        if b == old_q.len() {
                            assert(old_q[a] == id_views(queue@)[a]);
                        } else {
                            assert(old_q[a] != old_q[b]);
                        }
                    }
                    assert forall|v: Seq<char>| #[trigger]
                        visited@.contains_key(v) <==> id_views(queue@).contains(v) by {
                        if v == dst@ {
                            assert(id_views(queue@)[old_q.len() as int] == v);
                        } else if old_q.contains(v) {
                            let k = choose|k: int| 0 <= k < old_q.len() && old_q[k] == v;
                            assert(id_views(queue@)[k] == v);
                        } else if id_views(queue@).contains(v) {
                            let k = choose|k: int|
                                0 <= k < id_views(queue@).len() && id_views(queue@)[k] == v;
                            assert(old_q[k] == v);
                        }
                    }
                    assert forall|j: int, x: Seq<char>|
                        #![trigger id_views(queue@)[j], step(ast, id_views(queue@)[j], x, forward)]
                        0 <= j < head && ast.nodes@.contains_key(x) && step(
                            ast,
                            id_views(queue@)[j],
                            x,
                            forward,
                        ) implies visited@.contains_key(x) by {
                        assert(id_views(queue@)[j] == old_q[j]);
                    }
                    assert(id_views(queue@)[head as int] == old_q[head as int]);
                }
            }
            proof {
                assert(edge_seq(ast)[i as int] == *edge);
            }
            i = i + 1;
        }
        proof {
            assert forall|j: int, x: Seq<char>|
                #![trigger id_views(queue@)[j], step(ast, id_views(queue@)[j], x, forward)]
                0 <= j < head + 1 && ast.nodes@.contains_key(x) && step(
                    ast,
                    id_views(queue@)[j],
                    x,
                    forward,
                ) implies visited@.contains_key(x) by {
                if j == head {
                    let e = choose|e: int|
                        0 <= e < edge_seq(ast).len() && (#[trigger] edge_seq(
                            ast,
                        )[e]).from_node_id@ == (if forward {
                            uv
                        } else {
                            x
                        }) && edge_seq(ast)[e].to_node_id@ == (if forward {
                            x
                        } else {
                            uv
                        });
                }
            }
        }
        head = head + 1;
    }
    proof {
        assert forall|u: Seq<char>, x: Seq<char>|
            #![trigger visited@.contains_key(u), step(ast, u, x, forward)]
            visited@.contains_key(u) && ast.nodes@.contains_key(x) && step(ast, u, x, forward)
                implies visited@.contains_key(x) by {
            let k = choose|k: int| 0 <= k < id_views(queue@).len() && id_views(queue@)[k] == u;
        }
        assert forall|v: Seq<char>| reaches(ast, start@, v, forward) implies #[trigger]
            visited@.contains_key(v) by {
            let w = choose|w: Seq<Seq<char>>| #[trigger]
                is_node_walk(ast, w, forward) && w[0] == start@ && w.last() == v;
            assert(visited@.contains_key(start@)) by {
                assert(id_views(queue@)[0] == start@);
            }
            lemma_closed_contains_walk(ast, visited@, w, forward, w.len() - 1);
        }
    }
    visited
}


/// `v` is found from `a` in the given direction.
pub open spec fn reaches_in(ast: &FlowchartAst, a: Seq<char>, v: Seq<char>, d: ReachDirection) -> bool {
    match d {
        ReachDirection::Out => reaches(ast, a, v, true),
        ReachDirection::In => reaches(ast, a, v, false),
        ReachDirection::Both => reaches(ast, a, v, true) || reaches(ast, a, v, false),
    }
}

/// Nodes reachable from `from_node_id` (itself included) in the given direction, in id order.
///
/// Only declared nodes take part; the result is empty when `from_node_id` is not declared.
pub fn reachable_with_direction(
    ast: &FlowchartAst,
    from_node_id: &ObjectId,
    direction: ReachDirection,
) -> (r: Vec<ObjectId>)
    ensures
        ascending(id_views(r@)),
        forall|v: Seq<char>|
            #[trigger] id_views(r@).contains(v) <==> ast.nodes@.contains_key(from_node_id@)
                && reaches_in(ast, from_node_id@, v, direction),
{
    if !ast.nodes.contains_key(from_node_id) {
        let r: Vec<ObjectId> = Vec::new();
        proof {
            assert(id_views(r@) =~= Seq::<Seq<char>>::empty());
        }
        return r;
    }
    let visited: SortedMap<ObjectId, bool> = match direction {
        ReachDirection::Out => visit_from(ast, from_node_id, true),
        ReachDirection::In => visit_from(ast, from_node_id, false),
        ReachDirection::Both => {
            let mut out = visit_from(ast, from_node_id, true);
            let inc = visit_from(ast, from_node_id, false);
            let ghost out0 = out@;
            let n = inc.len();
            let mut i: usize = 0;
            proof {
                use_type_invariant(&inc);
                inc.lemma_shape();
            }
            while i < n
                invariant
                    n == inc.keys_seq().len(),
                    i <= n,
                    forall|v: Seq<char>| #[trigger] out@.contains_key(v) <==> (out0.contains_key(v)
                        || inc.keys_seq().take(i as int).contains(v)),
                decreases n - i,
            {
                let k = inc.key_at(i);
                out.insert(k.key_dup(), true);
                proof {
                    let t0 = inc.keys_seq().take(i as int);
                    let t1 = inc.keys_seq().take(i + 1);
                    assert(t1 =~= t0.push(k@));
                    assert forall|v: Seq<char>| #[trigger] out@.contains_key(v) <==> (out0.contains_key(v)
                        || t1.contains(v)) by {
                        if t0.contains(v) {
                            let j = choose|j: int| 0 <= j < t0.len() && t0[j] == v;
                            assert(t1[j] == v);
                        }
                        if v == k@ {
                            assert(t1[i as int] == v);
                        }
                        if t1.contains(v) && v != k@ {
                            let j = choose|j: int| 0 <= j < t1.len() && t1[j] == v;
                            assert(t0[j] == v);
                        }
                    }
                }
                i = i + 1;
            }
            proof {
                assert(inc.keys_seq().take(n as int) =~= inc.keys_seq());
                assert forall|v: Seq<char>| #[trigger] out@.contains_key(v) <==> reaches_in(
                    ast,
                    from_node_id@,
                    v,
                    direction,
                ) by {
                    assert(inc.keys_seq().contains(v) <==> inc@.contains_key(v));
                }
            }
            out
        },
    };
    let r = visited.keys_vec();
    proof {
        use_type_invariant(&visited);
        visited.lemma_shape();
        assert forall|v: Seq<char>|
            #[trigger] id_views(r@).contains(v) <==> ast.nodes@.contains_key(from_node_id@)
                && reaches_in(ast, from_node_id@, v, direction) by {
            assert(id_views(r@) == visited.keys_seq());
            assert(visited.keys_seq().contains(v) <==> visited@.contains_key(v));
        }
    }
    r
}

/// Nodes reachable from `from_node_id` along edges, itself included, in id order.
pub fn reachable(ast: &FlowchartAst, from_node_id: &ObjectId) -> (r: Vec<ObjectId>)
    ensures
        ascending(id_views(r@)),
        forall|v: Seq<char>|
            #[trigger] id_views(r@).contains(v) <==> ast.nodes@.contains_key(from_node_id@)
                && reaches(ast, from_node_id@, v, true),
{
    reachable_with_direction(ast, from_node_id, ReachDirection::Out)
}


/// In- and out-degree of a flowchart node.
#[derive(Debug, Clone, Copy, PartialEq, Eq, Default)]
pub struct FlowNodeDegree {
    pub in_degree: u64,
    pub out_degree: u64,
}

/// Number of edges in `es` leaving `v`.
pub open spec fn count_from(es: Seq<FlowEdge>, v: Seq<char>) -> nat
    decreases es.len(),
{
    if es.len() == 0 {
        0
    } else {
        count_from(es.drop_last(), v) + if es.last().from_node_id@ == v {
            1nat
        } else {
            0nat
        }
    }
}

/// Number of edges in `es` entering `v`.
pub open spec fn count_to(es: Seq<FlowEdge>, v: Seq<char>) -> nat
    decreases es.len(),
{
    if es.len() == 0 {
        0
    } else {
        count_to(es.drop_last(), v) + if es.last().to_node_id@ == v {
            1nat
        } else {
            0nat
        }
    }
}

proof fn lemma_counts_bounded(es: Seq<FlowEdge>, v: Seq<char>)
    ensures
        count_from(es, v) <= es.len(),
        count_to(es, v) <= es.len(),
    decreases es.len(),
{
    if es.len() > 0 {
        lemma_counts_bounded(es.drop_last(), v);
    }
}

/// `v` is an endpoint of one of the first `n` edges.
pub open spec fn is_endpoint_within(es: Seq<FlowEdge>, v: Seq<char>, n: int) -> bool {
    exists|i: int| 0 <= i < n && (#[trigger] es[i].from_node_id@ == v || es[i].to_node_id@ == v)
}

/// A node id known to the flowchart: declared, or an endpoint of some edge.
pub open spec fn in_universe(ast: &FlowchartAst, v: Seq<char>) -> bool {
    ast.nodes@.contains_key(v) || is_endpoint_within(edge_seq(ast), v, edge_seq(ast).len() as int)
}

/// Some edge leaves `v`.
pub open spec fn has_out_edge(ast: &FlowchartAst, v: Seq<char>) -> bool {
    exists|i: int| 0 <= i < edge_seq(ast).len() && (#[trigger] edge_seq(ast)[i]).from_node_id@ == v
}

/// In- and out-degree of every node id known to the flowchart (declared nodes and edge
/// endpoints), keyed by id.
pub fn degrees(ast: &FlowchartAst) -> (r: SortedMap<ObjectId, FlowNodeDegree>)
    ensures
        forall|v: Seq<char>| #[trigger] r@.contains_key(v) <==> in_universe(ast, v),
        forall|v: Seq<char>|
            #[trigger] r@.contains_key(v) ==> r@[v].out_degree == count_from(edge_seq(ast), v)
                && r@[v].in_degree == count_to(edge_seq(ast), v),
{
    let mut r: SortedMap<ObjectId, FlowNodeDegree> = SortedMap::new();
    proof {
        use_type_invariant(&ast.nodes);
        ast.nodes.lemma_shape();
        use_type_invariant(&ast.edges);
        ast.edges.lemma_shape();
    }
    let n = ast.nodes.len();
    let mut i: usize = 0;
    while i < n
        invariant
            n == ast.nodes.keys_seq().len(),
            i <= n,
            forall|v: Seq<char>| #[trigger] r@.contains_key(v) <==> ast.nodes.keys_seq().take(
                i as int,
            ).contains(v),
            forall|v: Seq<char>| #[trigger]
                r@.contains_key(v) ==> r@[v] == (FlowNodeDegree { in_degree: 0, out_degree: 0 }),
        decreases n - i,
    {
        let k = ast.nodes.key_at(i);
        r.insert(k.key_dup(), FlowNodeDegree { in_degree: 0, out_degree: 0 });
        proof {
            let t0 = ast.nodes.keys_seq().take(i as int);
            let t1 = ast.nodes.keys_seq().take(i + 1);
            assert(t1 =~= t0.push(k@));
            assert forall|v: Seq<char>| #[trigger] r@.contains_key(v) <==> t1.contains(v) by {
                if t0.contains(v) {
                    let j = choose|j: int| 0 <= j < t0.len() && t0[j] == v;
                    assert(t1[j] == v);
                }
                if v == k@ {
                    assert(t1[i as int] == v);
                }
                if t1.contains(v) && v != k@ {
                    let j = choose|j: int| 0 <= j < t1.len() && t1[j] == v;
                    assert(t0[j] == v);
                }
            }
        }
        i = i + 1;
    }
    proof {
        assert(ast.nodes.keys_seq().take(n as int) =~= ast.nodes.keys_seq());
    }
    let ne = ast.edges.len();
    let ghost es = edge_seq(ast);
    let mut i: usize = 0;
    while i < ne
        invariant
            ne == ast.edges.keys_seq().len(),
            es == edge_seq(ast),
            es.len() == ne,
            i <= ne,
            forall|v: Seq<char>| #[trigger] r@.contains_key(v) <==> (ast.nodes@.contains_key(v)
                || is_endpoint_within(es, v, i as int)),
            forall|v: Seq<char>|
                #[trigger] r@.contains_key(v) ==> r@[v].out_degree == count_from(
                    es.take(i as int),
                    v,
                ) && r@[v].in_degree == count_to(es.take(i as int), v),
        decreases ne - i,
    {
        let e = ast.edges.value_at(i);
        let ghost r0 = r@;
        let ghost t0 = es.take(i as int);
        let ghost t1 = es.take(i + 1);
        proof {
            assert(t1.drop_last() =~= t0);
            assert(t1.last() == *e);
            lemma_counts_bounded(t0, e.from_node_id@);
            lemma_counts_bounded(t0, e.to_node_id@);
            lemma_counts_bounded(t1, e.from_node_id@);
            lemma_counts_bounded(t1, e.to_node_id@);
        }
        let from_deg = match r.get(&e.from_node_id) {
            Some(d) => *d,
            None => FlowNodeDegree { in_degree: 0, out_degree: 0 },
        };
        r.insert(
            e.from_node_id.key_dup(),
            FlowNodeDegree { in_degree: from_deg.in_degree, out_degree: from_deg.out_degree + 1 },
        );
        let to_deg = match r.get(&e.to_node_id) {
            Some(d) => *d,
            None => FlowNodeDegree { in_degree: 0, out_degree: 0 },
        };
        proof {
            lemma_endpoint_take(es, e.from_node_id@, i as int);
            lemma_endpoint_take(es, e.to_node_id@, i as int);
            if !r0.contains_key(e.from_node_id@) {
                lemma_count_zero_outside(t0, e.from_node_id@);
            }
            if !r0.contains_key(e.to_node_id@) {
                lemma_count_zero_outside(t0, e.to_node_id@);
            }
        }
        r.insert(
            e.to_node_id.key_dup(),
            FlowNodeDegree { in_degree: to_deg.in_degree + 1, out_degree: to_deg.out_degree },
        );
        proof {
            assert forall|v: Seq<char>| #[trigger] r@.contains_key(v) <==> (ast.nodes@.contains_key(v)
                || is_endpoint_within(es, v, i + 1)) by {
                lemma_endpoint_step(es, v, i as int);
                if v == e.from_node_id@ || v == e.to_node_id@ {
                    assert(es[i as int] == *e);
                }
            }
        }
        i = i + 1;
    }
    proof {
        assert(es.take(ne as int) =~= es);
    }
    r
}

proof fn lemma_endpoint_step(es: Seq<FlowEdge>, v: Seq<char>, i: int)
    requires
        0 <= i < es.len(),
    ensures
        is_endpoint_within(es, v, i + 1) <==> (is_endpoint_within(es, v, i) || es[i].from_node_id@ == v
            || es[i].to_node_id@ == v),
{
    if is_endpoint_within(es, v, i + 1) && !(es[i].from_node_id@ == v || es[i].to_node_id@ == v) {
        let j = choose|j: int| 0 <= j < i + 1 && (#[trigger] es[j].from_node_id@ == v || es[j].to_node_id@ == v);
        assert(j != i);
    }
    if is_endpoint_within(es, v, i) {
        let j = choose|j: int| 0 <= j < i && (#[trigger] es[j].from_node_id@ == v || es[j].to_node_id@ == v);
        assert(0 <= j < i + 1);
    }
    if es[i].from_node_id@ == v || es[i].to_node_id@ == v {
        assert(0 <= i < i + 1);
    }
}

proof fn lemma_endpoint_take(es: Seq<FlowEdge>, v: Seq<char>, i: int)
    requires
        0 <= i <= es.len(),
    ensures
        is_endpoint_within(es.take(i), v, i) <==> is_endpoint_within(es, v, i),
{
    if is_endpoint_within(es, v, i) {
        let j = choose|j: int| 0 <= j < i && (#[trigger] es[j].from_node_id@ == v || es[j].to_node_id@ == v);
        assert(es.take(i)[j] == es[j]);
    }
    if is_endpoint_within(es.take(i), v, i) {
        let j = choose|j: int| 0 <= j < i && (#[trigger] es.take(i)[j].from_node_id@ == v || es.take(i)[j].to_node_id@ == v);
        assert(es.take(i)[j] == es[j]);
    }
}

/// No edge among `es` touches `v` when `v` is not an endpoint of any of them.
proof fn lemma_count_zero_outside(es: Seq<FlowEdge>, v: Seq<char>)
    requires
        !is_endpoint_within(es, v, es.len() as int),
    ensures
        count_from(es, v) == 0,
        count_to(es, v) == 0,
    decreases es.len(),
{
    if es.len() > 0 {
        assert(!is_endpoint_within(es.drop_last(), v, es.drop_last().len() as int)) by {
            if is_endpoint_within(es.drop_last(), v, es.drop_last().len() as int) {
                let j = choose|j: int| 0 <= j < es.drop_last().len() && (#[trigger] es.drop_last()[j].from_node_id@ == v || es.drop_last()[j].to_node_id@ == v);
                assert(es[j] == es.drop_last()[j]);
            }
        }
        lemma_count_zero_outside(es.drop_last(), v);
        let l = es.len() - 1;
        if es.last().from_node_id@ == v || es.last().to_node_id@ == v {
            assert(es[l] == es.last());
        }
    }
}


proof fn lemma_count_from_zero(es: Seq<FlowEdge>, v: Seq<char>)
    ensures
        count_from(es, v) == 0 <==> !(exists|i: int| 0 <= i < es.len() && (#[trigger] es[i]).from_node_id@ == v),
    decreases es.len(),
{
    if es.len() > 0 {
        lemma_count_from_zero(es.drop_last(), v);
        if exists|i: int| 0 <= i < es.drop_last().len() && (#[trigger] es.drop_last()[i]).from_node_id@ == v {
            let i = choose|i: int| 0 <= i < es.drop_last().len() && (#[trigger] es.drop_last()[i]).from_node_id@ == v;
            assert(es[i] == es.drop_last()[i]);
        }
        if exists|i: int| 0 <= i < es.len() && (#[trigger] es[i]).from_node_id@ == v {
            let i = choose|i: int| 0 <= i < es.len() && (#[trigger] es[i]).from_node_id@ == v;
            if i < es.len() - 1 {
                assert(es.drop_last()[i] == es[i]);
            }
        }
        assert(es.last() == es[es.len() - 1]);
    }
}

/// Node ids known to the flowchart (declared or edge endpoints) with no outgoing edge, in id
/// order.
pub fn dead_ends(ast: &FlowchartAst) -> (r: Vec<ObjectId>)
    ensures
        ascending(id_views(r@)),
        forall|v: Seq<char>|
            #[trigger] id_views(r@).contains(v) <==> in_universe(ast, v) && !has_out_edge(ast, v),
{
    let deg = degrees(ast);
    proof {
        use_type_invariant(&deg);
        deg.lemma_shape();
    }
    let n = deg.len();
    let mut r: Vec<ObjectId> = Vec::new();
    let ghost mut idx: Seq<int> = Seq::empty();
    let mut i: usize = 0;
    while i < n
        invariant
            n == deg.keys_seq().len(),
            n == deg.vals_seq().len(),
            i <= n,
            strictly_sorted::<ObjectId>(deg.keys_seq()),
            idx.len() == r@.len(),
            forall|a: int| 0 <= a < idx.len() ==> 0 <= #[trigger] idx[a] < i && deg.keys_seq()[idx[a]] == r@[a]@,
            forall|a: int, b: int| 0 <= a < b < idx.len() ==> #[trigger] idx[a] < #[trigger] idx[b],
            forall|j: int| 0 <= j < i ==> (#[trigger] deg.vals_seq()[j].out_degree == 0 <==> id_views(r@).contains(deg.keys_seq()[j])),
        decreases n - i,
    {
        let d = deg.value_at(i);
        let ghost r_prev = id_views(r@);
        if d.out_degree == 0 {
            let ghost r0 = r@;
            r.push(deg.key_at(i).key_dup());
            proof {
                idx = idx.push(i as int);
                assert(id_views(r@) =~= id_views(r0).push(deg.keys_seq()[i as int]));
            }
        }
        proof {
            assert forall|j: int| 0 <= j < i + 1 implies (#[trigger] deg.vals_seq()[j].out_degree == 0 <==> id_views(r@).contains(deg.keys_seq()[j])) by {
                if j < i {
                    lemma_distinct_keys(deg.keys_seq(), j, i as int);
                    if d.out_degree == 0 {
                        assert(id_views(r@) =~= r_prev.push(deg.keys_seq()[i as int]));
                        if r_prev.contains(deg.keys_seq()[j]) {
                            let a = choose|a: int| 0 <= a < r_prev.len() && r_prev[a] == deg.keys_seq()[j];
                            assert(id_views(r@)[a] == deg.keys_seq()[j]);
                        }
                        if id_views(r@).contains(deg.keys_seq()[j]) {
                            let a = choose|a: int| 0 <= a < id_views(r@).len() && id_views(r@)[a] == deg.keys_seq()[j];
                            assert(a < r_prev.len());
                            assert(r_prev[a] == deg.keys_seq()[j]);
                        }
                    } else {
                        assert(id_views(r@) == r_prev);
                    }
                } else {
                    if d.out_degree == 0 {
                        assert(id_views(r@)[r@.len() - 1] == deg.keys_seq()[j]);
                    } else {
                        assert(id_views(r@) == r_prev);
                        if r_prev.contains(deg.keys_seq()[j]) {
                            let a = choose|a: int| 0 <= a < r_prev.len() && r_prev[a] == deg.keys_seq()[j];
                            lemma_distinct_keys(deg.keys_seq(), idx[a], j);
                        }
                    }
                }
            }
        }
        i = i + 1;
    }
    proof {
        assert forall|a: int, b: int| 0 <= a < b < id_views(r@).len() implies #[trigger] ObjectId::key_lt(id_views(r@)[a], id_views(r@)[b]) && #[trigger] id_views(r@)[b] == id_views(r@)[b] by {
            assert(idx[a] < idx[b]);
            assert(ObjectId::key_lt(deg.keys_seq()[idx[a]], deg.keys_seq()[idx[b]]) && deg.keys_seq()[idx[b]] == deg.keys_seq()[idx[b]]);
        }
        assert forall|v: Seq<char>| #[trigger] id_views(r@).contains(v) <==> in_universe(ast, v) && !has_out_edge(ast, v) by {
            lemma_count_from_zero(edge_seq(ast), v);
            if id_views(r@).contains(v) {
                let a = choose|a: int| 0 <= a < id_views(r@).len() && id_views(r@)[a] == v;
                assert(deg@.contains_key(deg.keys_seq()[idx[a]]));
            }
            if in_universe(ast, v) {
                assert(deg@.contains_key(v));
                let j = deg.keys_seq().index_of(v);
                assert(deg@[deg.keys_seq()[j]] == deg.vals_seq()[j]);
            }
        }
    }
    r
}

proof fn lemma_distinct_keys(s: Seq<Seq<char>>, i: int, j: int)
    requires
        strictly_sorted::<ObjectId>(s),
        0 <= i < s.len(),
        0 <= j < s.len(),
        i != j,
    ensures
        s[i] != s[j],
{
    crate::sorted_map::lemma_sorted_distinct::<ObjectId>(s, i, j);
}

} // verus!
