//! Walks along flowchart edges: distances, bounded enumeration of simple paths, and groups of
//! mutually reachable nodes (cycles).
//!
//! These work over every node id the flowchart knows (declared nodes and edge endpoints),
//! following edges.

use vstd::prelude::*;
use crate::model::flow_ast::FlowchartAst;
use crate::model::ids::ObjectId;
use crate::sorted_map::{OrdKey, SortedMap, lemma_distinct_within_len};
use super::best_first::{first_in_order, lemma_first_in_order_unique, strict_total, lemma_potential_append, lemma_potential_remove, lemma_power_positive, potential, power, weight};
use crate::model::object_ref::{segs_lt, lemma_segs_lt_irreflexive, lemma_segs_lt_transitive, lemma_segs_lt_total};
use crate::order::{CmpResult, chars_lt, lemma_chars_lt_asymmetric};
use super::flow::{edge_seq, step, in_universe, id_views, degrees, ascending};

verus! {

/// Step `i` of `w` goes along an edge from `w[i]` to `w[i + 1]` (or against it, backwards).
pub open spec fn walk_step(ast: &FlowchartAst, w: Seq<Seq<char>>, i: int, forward: bool) -> bool {
    step(ast, w[i], w[i + 1], forward)
}

/// `w` follows edges: each id after the first is one step from the one before.
pub open spec fn is_edge_walk(ast: &FlowchartAst, w: Seq<Seq<char>>, forward: bool) -> bool {
    &&& w.len() >= 1
    &&& forall|i: int| 0 <= i < w.len() - 1 ==> #[trigger] walk_step(ast, w, i, forward)
}

/// `w` follows edges from `a` to `b`.
pub open spec fn walk_from_to(ast: &FlowchartAst, w: Seq<Seq<char>>, a: Seq<char>, b: Seq<char>, forward: bool) -> bool {
    &&& is_edge_walk(ast, w, forward)
    &&& w[0] == a
    &&& w.last() == b
}

/// Some walk leads from `a` to `b` in exactly `k` steps.
pub open spec fn reaches_in_steps(ast: &FlowchartAst, a: Seq<char>, b: Seq<char>, k: int, forward: bool) -> bool {
    exists|w: Seq<Seq<char>>| #[trigger] walk_from_to(ast, w, a, b, forward) && w.len() == k + 1
}

/// Some walk leads from `a` to `b`.
pub open spec fn connected(ast: &FlowchartAst, a: Seq<char>, b: Seq<char>, forward: bool) -> bool {
    exists|w: Seq<Seq<char>>| #[trigger] walk_from_to(ast, w, a, b, forward)
}

/// `d` is the fewest steps of a walk from `a` to `b`.
pub open spec fn is_distance(ast: &FlowchartAst, a: Seq<char>, b: Seq<char>, d: int, forward: bool) -> bool {
    &&& reaches_in_steps(ast, a, b, d, forward)
    &&& forall|w: Seq<Seq<char>>| #[trigger] walk_from_to(ast, w, a, b, forward) ==> d <= w.len() - 1
}

proof fn lemma_walk_extend(ast: &FlowchartAst, w: Seq<Seq<char>>, a: Seq<char>, b: Seq<char>, x: Seq<char>, forward: bool)
    requires
        walk_from_to(ast, w, a, b, forward),
        step(ast, b, x, forward),
    ensures
        walk_from_to(ast, w.push(x), a, x, forward),
{
    let w2 = w.push(x);
    assert forall|i: int| 0 <= i < w2.len() - 1 implies #[trigger] walk_step(ast, w2, i, forward) by {
        if i < w.len() - 1 {
            assert(walk_step(ast, w, i, forward));
        }
    }
}

/// Every walk from a set closed under steps with bounded growth of `d` stays in the set,
/// within its number of steps.
proof fn lemma_walk_within(
    ast: &FlowchartAst,
    d: Map<Seq<char>, usize>,
    w: Seq<Seq<char>>,
    forward: bool,
    k: int,
)
    requires
        is_edge_walk(ast, w, forward),
        d.contains_key(w[0]),
        d[w[0]] == 0,
        forall|u: Seq<char>, x: Seq<char>|
            #![trigger d.contains_key(u), step(ast, u, x, forward)]
            d.contains_key(u) && step(ast, u, x, forward) ==> d.contains_key(x) && d[x] <= d[u] + 1,
        0 <= k < w.len(),
    ensures
        d.contains_key(w[k]),
        d[w[k]] <= k,
    decreases k,
{
    if k > 0 {
        lemma_walk_within(ast, d, w, forward, k - 1);
        assert(walk_step(ast, w, k - 1, forward));
    }
}

/// Breadth-first search from `start`: the fewest steps to each id it reaches.
fn distances(ast: &FlowchartAst, start: &ObjectId, forward: bool, universe: &Vec<ObjectId>) -> (d: SortedMap<ObjectId, usize>)
    requires
        in_universe(ast, start@),
        forall|v: Seq<char>| #[trigger] in_universe(ast, v) ==> id_views(universe@).contains(v),
    ensures
        forall|v: Seq<char>| #[trigger] d@.contains_key(v) <==> connected(ast, start@, v, forward),
        forall|v: Seq<char>| #[trigger] d@.contains_key(v) ==> is_distance(ast, start@, v, d@[v] as int, forward),
{
    let mut dist: SortedMap<ObjectId, usize> = SortedMap::new();
    let mut queue: Vec<ObjectId> = Vec::new();
    dist.insert(start.key_dup(), 0);
    queue.push(start.key_dup());
    proof {
        let w0 = seq![start@];
        assert(walk_from_to(ast, w0, start@, start@, forward));
        assert(reaches_in_steps(ast, start@, start@, 0, forward));
        assert(id_views(queue@) =~= seq![start@]);
        assert forall|v: Seq<char>| #[trigger] dist@.contains_key(v) <==> id_views(queue@).contains(v) by {
            if v == start@ {
                assert(id_views(queue@)[0] == v);
            }
        }
        use_type_invariant(&ast.edges);
        ast.edges.lemma_shape();
    }
    let ghost uni = id_views(universe@);
    let ulen = universe.len();
    let n_edges = ast.edges.len();
    let mut head: usize = 0;
    while head < queue.len()
        invariant
            uni == id_views(universe@),
            ulen == uni.len(),
            forall|v: Seq<char>| #[trigger] in_universe(ast, v) ==> uni.contains(v),
            n_edges == edge_seq(ast).len(),
            n_edges == ast.edges.keys_seq().len(),
            in_universe(ast, start@),
            head <= queue@.len(),
            queue@.len() >= 1,
            queue@[0]@ == start@,
            id_views(queue@).no_duplicates(),
            forall|v: Seq<char>| #[trigger] dist@.contains_key(v) <==> id_views(queue@).contains(v),
            forall|v: Seq<char>| #[trigger] dist@.contains_key(v) ==> reaches_in_steps(ast, start@, v, dist@[v] as int, forward),
            forall|v: Seq<char>| #[trigger] dist@.contains_key(v) ==> in_universe(ast, v),
            forall|a: int, b: int| 0 <= a <= b < queue@.len() ==> dist@[#[trigger] id_views(queue@)[a]] <= dist@[#[trigger] id_views(queue@)[b]],
            head < queue@.len() ==> forall|j: int| head <= j < queue@.len() ==> dist@[#[trigger] id_views(queue@)[j]] <= dist@[id_views(queue@)[head as int]] + 1,
            forall|j: int| 0 <= j < queue@.len() ==> dist@[#[trigger] id_views(queue@)[j]] <= j,
            forall|j: int, x: Seq<char>|
                #![trigger id_views(queue@)[j], step(ast, id_views(queue@)[j], x, forward)]
                0 <= j < head && step(ast, id_views(queue@)[j], x, forward)
                    ==> dist@.contains_key(x) && dist@[x] <= dist@[id_views(queue@)[j]] + 1,
        decreases uni.len() - head,
    {
        proof {
            assert forall|i: int| 0 <= i < id_views(queue@).len() implies uni.contains(#[trigger] id_views(queue@)[i]) by {
                assert(dist@.contains_key(id_views(queue@)[i]));
            }
            lemma_distinct_within_len(id_views(queue@), uni);
        }
        let u = queue[head].key_dup();
        let ghost uv = u@;
        proof {
            assert(id_views(queue@)[head as int] == uv);
            assert(id_views(queue@).contains(uv));
            assert(dist@.contains_key(uv));
        }
        let du: usize = *dist.get(&u).unwrap();
        proof {
            assert(du <= head);
        }
        let mut i: usize = 0;
        while i < n_edges
            invariant
                uni == id_views(universe@),
                ulen == uni.len(),
                forall|v: Seq<char>| #[trigger] in_universe(ast, v) ==> uni.contains(v),
                n_edges == edge_seq(ast).len(),
                n_edges == ast.edges.keys_seq().len(),
                i <= n_edges,
                uv == u@,
                head < queue@.len(),
                id_views(queue@)[head as int] == uv,
                dist@.contains_key(uv),
                du == dist@[uv],
                du <= head,
                in_universe(ast, start@),
                queue@[0]@ == start@,
                id_views(queue@).no_duplicates(),
                forall|v: Seq<char>| #[trigger] dist@.contains_key(v) <==> id_views(queue@).contains(v),
                forall|v: Seq<char>| #[trigger] dist@.contains_key(v) ==> reaches_in_steps(ast, start@, v, dist@[v] as int, forward),
                forall|v: Seq<char>| #[trigger] dist@.contains_key(v) ==> in_universe(ast, v),
                forall|a: int, b: int| 0 <= a <= b < queue@.len() ==> dist@[#[trigger] id_views(queue@)[a]] <= dist@[#[trigger] id_views(queue@)[b]],
                forall|j: int| head <= j < queue@.len() ==> dist@[#[trigger] id_views(queue@)[j]] <= du + 1,
                forall|j: int| 0 <= j < queue@.len() ==> dist@[#[trigger] id_views(queue@)[j]] <= j,
                forall|j: int, x: Seq<char>|
                    #![trigger id_views(queue@)[j], step(ast, id_views(queue@)[j], x, forward)]
                    0 <= j < head && step(ast, id_views(queue@)[j], x, forward)
                        ==> dist@.contains_key(x) && dist@[x] <= dist@[id_views(queue@)[j]] + 1,
                forall|e: int|
                    0 <= e < i && (if forward { (#[trigger] edge_seq(ast)[e]).from_node_id@ } else { edge_seq(ast)[e].to_node_id@ }) == uv
                        ==> dist@.contains_key(if forward { edge_seq(ast)[e].to_node_id@ } else { edge_seq(ast)[e].from_node_id@ })
                        && dist@[if forward { edge_seq(ast)[e].to_node_id@ } else { edge_seq(ast)[e].from_node_id@ }] <= du + 1,
            decreases n_edges - i,
        {
            let edge = ast.edges.value_at(i);
            let (src, dst) = if forward {
                (&edge.from_node_id, &edge.to_node_id)
            } else {
                (&edge.to_node_id, &edge.from_node_id)
            };
            proof {
                assert(edge_seq(ast)[i as int] == *edge);
            }
            if src.same_as(&u) && !dist.contains_key(dst) {
                let ghost old_q = id_views(queue@);
                let ghost old_dist = dist@;
                proof {
                    assert(in_universe(ast, dst@));
                    let q1 = old_q.push(dst@);
                    assert forall|a: int, b: int| 0 <= a < b < q1.len() implies q1[a] != q1[b] by {
                        if b == old_q.len() {
                            assert(old_q.contains(q1[a]));
                        } else {
                            assert(old_q[a] != old_q[b]);
                        }
                    }
                    assert(q1.no_duplicates());
                    assert forall|k: int| 0 <= k < q1.len() implies uni.contains(#[trigger] q1[k]) by {
                        if k < old_q.len() {
                            assert(dist@.contains_key(old_q[k]));
                        }
                    }
                    lemma_distinct_within_len(q1, uni);
                    assert(step(ast, uv, dst@, forward)) by {
                        assert(edge_seq(ast)[i as int] == *edge);
                    }
                    let w = choose|w: Seq<Seq<char>>| #[trigger] walk_from_to(ast, w, start@, uv, forward) && w.len() == du + 1;
                    lemma_walk_extend(ast, w, start@, uv, dst@, forward);
                    assert(reaches_in_steps(ast, start@, dst@, du + 1, forward));
                }
                dist.insert(dst.key_dup(), du + 1);
                queue.push(dst.key_dup());
                proof {
                    let qv = id_views(queue@);
                    assert(qv =~= old_q.push(dst@));
                    assert forall|a: int, b: int| 0 <= a < b < qv.len() implies qv[a] != qv[b] by {
                        if b == old_q.len() {
                            assert(old_q.contains(qv[a]));
                        } else {
                            assert(old_q[a] != old_q[b]);
                        }
                    }
                    assert forall|v: Seq<char>| #[trigger] dist@.contains_key(v) <==> qv.contains(v) by {
                        if v == dst@ {
                            assert(qv[old_q.len() as int] == v);
                        } else if old_q.contains(v) {
                            let k = choose|k: int| 0 <= k < old_q.len() && old_q[k] == v;
                            assert(qv[k] == v);
                        } else if qv.contains(v) {
                            let k = choose|k: int| 0 <= k < qv.len() && qv[k] == v;
                            assert(old_q[k] == v);
                        }
                    }
                    assert forall|j: int| 0 <= j < old_q.len() implies dist@[#[trigger] qv[j]] == old_dist[old_q[j]] by {
                        assert(qv[j] == old_q[j]);
                        assert(old_dist.contains_key(old_q[j]));
                        assert(old_q[j] != dst@);
                    }
                    assert forall|a: int, b: int| 0 <= a <= b < qv.len() implies dist@[#[trigger] qv[a]] <= dist@[#[trigger] qv[b]] by {
                        if b == old_q.len() {
                            if a < old_q.len() {
                                if a < head {
                                    assert(old_dist[old_q[a]] <= old_dist[old_q[head as int]]);
                                } else {
                                    assert(old_dist[old_q[a]] <= du + 1);
                                }
                            }
                        }
                    }
                    assert forall|j: int| head <= j < qv.len() implies dist@[#[trigger] qv[j]] <= du + 1 by {
                        if j < old_q.len() {
                            assert(old_dist[old_q[j]] <= du + 1);
                        }
                    }
                    assert forall|j: int| 0 <= j < qv.len() implies dist@[#[trigger] qv[j]] <= j by {
                        if j < old_q.len() {
                            assert(old_dist[old_q[j]] <= j);
                        }
                    }
                    assert forall|j: int, x: Seq<char>|
                        #![trigger qv[j], step(ast, qv[j], x, forward)]
                        0 <= j < head && step(ast, qv[j], x, forward)
                            implies dist@.contains_key(x) && dist@[x] <= dist@[qv[j]] + 1 by {
                        assert(qv[j] == old_q[j]);
                        assert(old_dist.contains_key(x) && old_dist[x] <= old_dist[old_q[j]] + 1);
                        assert(x != dst@);
                    }
                    assert forall|v: Seq<char>| #[trigger] dist@.contains_key(v) implies reaches_in_steps(ast, start@, v, dist@[v] as int, forward) by {
                        if v != dst@ {
                            assert(old_dist.contains_key(v));
                        }
                    }
                }
            }
            i = i + 1;
        }
        proof {
            let qv = id_views(queue@);
            assert forall|j: int, x: Seq<char>|
                #![trigger qv[j], step(ast, qv[j], x, forward)]
                0 <= j < head + 1 && step(ast, qv[j], x, forward)
                    implies dist@.contains_key(x) && dist@[x] <= dist@[qv[j]] + 1 by {
                if j == head {
                    let e = choose|e: int|
                        0 <= e < edge_seq(ast).len() && (#[trigger] edge_seq(ast)[e]).from_node_id@ == (if forward { uv } else { x })
                            && edge_seq(ast)[e].to_node_id@ == (if forward { x } else { uv });
                }
            }
            if head + 1 < qv.len() {
                assert forall|j: int| head + 1 <= j < qv.len() implies dist@[#[trigger] qv[j]] <= dist@[qv[head + 1]] + 1 by {
                    assert(dist@[qv[head as int]] <= dist@[qv[head + 1]]);
                }
            }
        }
        head = head + 1;
    }
    proof {
        let qv = id_views(queue@);
        assert(qv[0] == start@);
        assert(dist@[start@] == 0) by {
            assert(dist@[qv[0]] <= 0);
        }
        assert forall|u: Seq<char>, x: Seq<char>|
            #![trigger dist@.contains_key(u), step(ast, u, x, forward)]
            dist@.contains_key(u) && step(ast, u, x, forward) implies dist@.contains_key(x) && dist@[x] <= dist@[u] + 1 by {
            let k = choose|k: int| 0 <= k < qv.len() && qv[k] == u;
        }
        assert forall|v: Seq<char>| #[trigger] dist@.contains_key(v) <==> connected(ast, start@, v, forward) by {
            if dist@.contains_key(v) {
                let w = choose|w: Seq<Seq<char>>| #[trigger] walk_from_to(ast, w, start@, v, forward) && w.len() == dist@[v] + 1;
            }
            if connected(ast, start@, v, forward) {
                let w = choose|w: Seq<Seq<char>>| #[trigger] walk_from_to(ast, w, start@, v, forward);
                lemma_walk_within(ast, dist@, w, forward, w.len() - 1);
            }
        }
        assert forall|v: Seq<char>| #[trigger] dist@.contains_key(v) implies is_distance(ast, start@, v, dist@[v] as int, forward) by {
            assert forall|w: Seq<Seq<char>>| #[trigger] walk_from_to(ast, w, start@, v, forward) implies dist@[v] <= w.len() - 1 by {
                lemma_walk_within(ast, dist@, w, forward, w.len() - 1);
            }
        }
    }
    dist
}

/// The ids one step from `v`.
fn successors(ast: &FlowchartAst, v: &ObjectId, forward: bool) -> (r: SortedMap<ObjectId, bool>)
    ensures
        forall|x: Seq<char>| #[trigger] r@.contains_key(x) <==> step(ast, v@, x, forward),
{
    let mut r: SortedMap<ObjectId, bool> = SortedMap::new();
    proof {
        use_type_invariant(&ast.edges);
        ast.edges.lemma_shape();
    }
    let n = ast.edges.len();
    let mut i: usize = 0;
    while i < n
        invariant
            n == edge_seq(ast).len(),
            n == ast.edges.keys_seq().len(),
            i <= n,
            forall|x: Seq<char>| #[trigger] r@.contains_key(x) <==> exists|e: int|
                0 <= e < i && (if forward { (#[trigger] edge_seq(ast)[e]).from_node_id@ } else { edge_seq(ast)[e].to_node_id@ }) == v@
                    && (if forward { edge_seq(ast)[e].to_node_id@ } else { edge_seq(ast)[e].from_node_id@ }) == x,
        decreases n - i,
    {
        let edge = ast.edges.value_at(i);
        let ghost before = r@;
        proof {
            assert(edge_seq(ast)[i as int] == *edge);
        }
        let (src, dst) = if forward {
            (&edge.from_node_id, &edge.to_node_id)
        } else {
            (&edge.to_node_id, &edge.from_node_id)
        };
        if src.same_as(v) {
            r.insert(dst.key_dup(), true);
        }
        proof {
            assert forall|x: Seq<char>| #[trigger] r@.contains_key(x) <==> exists|e: int|
                0 <= e < i + 1 && (if forward { (#[trigger] edge_seq(ast)[e]).from_node_id@ } else { edge_seq(ast)[e].to_node_id@ }) == v@
                    && (if forward { edge_seq(ast)[e].to_node_id@ } else { edge_seq(ast)[e].from_node_id@ }) == x by {
                if r@.contains_key(x) && !before.contains_key(x) {
                    assert(edge_seq(ast)[i as int] == *edge);
                }
                if exists|e: int|
                    0 <= e < i + 1 && (if forward { (#[trigger] edge_seq(ast)[e]).from_node_id@ } else { edge_seq(ast)[e].to_node_id@ }) == v@
                        && (if forward { edge_seq(ast)[e].to_node_id@ } else { edge_seq(ast)[e].from_node_id@ }) == x {
                    let e = choose|e: int|
                        0 <= e < i + 1 && (if forward { (#[trigger] edge_seq(ast)[e]).from_node_id@ } else { edge_seq(ast)[e].to_node_id@ }) == v@
                            && (if forward { edge_seq(ast)[e].to_node_id@ } else { edge_seq(ast)[e].from_node_id@ }) == x;
                    if e < i {
                        assert(before.contains_key(x));
                    }
                }
            }
        }
        i = i + 1;
    }
    proof {
        assert forall|x: Seq<char>| #[trigger] r@.contains_key(x) <==> step(ast, v@, x, forward) by {
            if step(ast, v@, x, forward) {
                let e = choose|e: int|
                    0 <= e < edge_seq(ast).len() && (#[trigger] edge_seq(ast)[e]).from_node_id@ == (if forward { v@ } else { x })
                        && edge_seq(ast)[e].to_node_id@ == (if forward { x } else { v@ });
            }
        }
    }
    r
}

/// Paths by number of hops, then lexicographically by id.
pub open spec fn path_lt(a: Seq<Seq<char>>, b: Seq<Seq<char>>) -> bool {
    a.len() < b.len() || (a.len() == b.len() && segs_lt(a, b))
}

/// Sequences that agree on their first `i` elements compare as their remainders do.
proof fn lemma_segs_lt_skip(a: Seq<Seq<char>>, b: Seq<Seq<char>>, i: int)
    requires
        0 <= i <= a.len(),
        i <= b.len(),
        a.take(i) == b.take(i),
    ensures
        segs_lt(a, b) == segs_lt(a.skip(i), b.skip(i)),
    decreases i,
{
    if i > 0 {
        assert(a[0] == a.take(i)[0]);
        assert(b[0] == b.take(i)[0]);
        assert(a.drop_first().take(i - 1) =~= a.take(i).drop_first());
        assert(b.drop_first().take(i - 1) =~= b.take(i).drop_first());
        lemma_segs_lt_skip(a.drop_first(), b.drop_first(), i - 1);
        assert(a.drop_first().skip(i - 1) =~= a.skip(i));
        assert(b.drop_first().skip(i - 1) =~= b.skip(i));
    } else {
        assert(a.skip(0) =~= a);
        assert(b.skip(0) =~= b);
    }
}

/// Whether path `a` comes strictly before path `b` (see `path_lt`).
fn path_before(a: &Vec<ObjectId>, b: &Vec<ObjectId>) -> (r: bool)
    ensures
        r == path_lt(id_views(a@), id_views(b@)),
{
    if a.len() != b.len() {
        return a.len() < b.len();
    }
    let ghost av = id_views(a@);
    let ghost bv = id_views(b@);
    let mut i: usize = 0;
    while i < a.len()
        invariant
            av == id_views(a@),
            bv == id_views(b@),
            a@.len() == b@.len(),
            i <= a@.len(),
            av.take(i as int) == bv.take(i as int),
        decreases a@.len() - i,
    {
        match a[i].compare_key(&b[i]) {
            CmpResult::Equal => {},
            c => {
                proof {
                    lemma_segs_lt_skip(av, bv, i as int);
                    assert(av.skip(i as int)[0] == av[i as int]);
                    assert(bv.skip(i as int)[0] == bv[i as int]);
                    if chars_lt(bv[i as int], av[i as int]) {
                        lemma_chars_lt_asymmetric(bv[i as int], av[i as int]);
                    }
                }
                return match c {
                    CmpResult::Less => true,
                    _ => false,
                };
            },
        }
        proof {
            assert(av.take(i + 1) =~= av.take(i as int).push(av[i as int]));
            assert(bv.take(i + 1) =~= bv.take(i as int).push(bv[i as int]));
        }
        i = i + 1;
    }
    proof {
        assert(av =~= av.take(i as int));
        assert(bv =~= bv.take(i as int));
        lemma_segs_lt_irreflexive(av);
    }
    false
}

/// Removes and returns the first path in order (see `path_lt`) among `paths`.
fn take_first(paths: &mut Vec<Vec<ObjectId>>) -> (p: Vec<ObjectId>)
    requires
        old(paths)@.len() > 0,
    ensures
        old(paths)@.to_multiset() == final(paths)@.to_multiset().insert(p),
        forall|j: int| 0 <= j < final(paths)@.len() ==> !path_lt(id_views(#[trigger] final(paths)@[j]@), id_views(p@)),
        exists|i: int| 0 <= i < old(paths)@.len() && p == old(paths)@[i] && final(paths)@ == old(paths)@.remove(i),
{
    let mut best: usize = 0;
    let mut j: usize = 1;
    proof {
        lemma_segs_lt_irreflexive(id_views(paths@[0]@));
    }
    while j < paths.len()
        invariant
            1 <= j <= paths@.len(),
            best < j,
            forall|k: int| 0 <= k < j ==> !path_lt(id_views(#[trigger] paths@[k]@), id_views(paths@[best as int]@)),
        decreases paths@.len() - j,
    {
        if path_before(&paths[j], &paths[best]) {
            proof {
                let nb = id_views(paths@[j as int]@);
                let ob = id_views(paths@[best as int]@);
                assert forall|k: int| 0 <= k < j + 1 implies !path_lt(id_views(#[trigger] paths@[k]@), nb) by {
                    let x = id_views(paths@[k]@);
                    lemma_segs_lt_irreflexive(nb);
                    if segs_lt(x, nb) && segs_lt(nb, ob) {
                        lemma_segs_lt_transitive(x, nb, ob);
                    }
                }
            }
            best = j;
        }
        j = j + 1;
    }
    let ghost before = paths@;
    let p = paths.remove(best);
    proof {
        broadcast use vstd::seq_lib::group_to_multiset_ensures;
        broadcast use vstd::multiset::group_multiset_axioms;
        vstd::seq_lib::to_multiset_remove(before, best as int);
        assert(before.contains(before[best as int]));
        assert(before.to_multiset().count(before[best as int]) > 0);
        assert(before.to_multiset() =~= before.remove(best as int).to_multiset().insert(before[best as int]));
        assert forall|k: int| 0 <= k < paths@.len() implies !path_lt(id_views(#[trigger] paths@[k]@), id_views(p@)) by {
            if k < best {
                assert(paths@[k] == before[k]);
            } else {
                assert(paths@[k] == before[k + 1]);
            }
        }
        assert(p == before[best as int] && paths@ == before.remove(best as int));
    }
    p
}

/// Whether path `p` passes `v`.
fn passes(p: &Vec<ObjectId>, v: &ObjectId) -> (b: bool)
    ensures
        b <==> id_views(p@).contains(v@),
{
    let mut i: usize = 0;
    while i < p.len()
        invariant
            i <= p@.len(),
            forall|k: int| 0 <= k < i ==> p@[k]@ != v@,
        decreases p@.len() - i,
    {
        if p[i].same_as(v) {
            proof {
                assert(id_views(p@)[i as int] == v@);
            }
            return true;
        }
        i = i + 1;
    }
    proof {
        if id_views(p@).contains(v@) {
            let k = choose|k: int| 0 <= k < id_views(p@).len() && id_views(p@)[k] == v@;
            assert(p@[k]@ == v@);
        }
    }
    false
}

/// `p` leads along edges from `a` to `b` and passes no id twice.
pub open spec fn is_simple_path(ast: &FlowchartAst, p: Seq<Seq<char>>, a: Seq<char>, b: Seq<char>) -> bool {
    walk_from_to(ast, p, a, b, true) && p.no_duplicates()
}

/// A partial path from `a`: it follows edges, passes no id twice and has at most `max` hops.
spec fn partial_path(ast: &FlowchartAst, p: Seq<Seq<char>>, a: Seq<char>, max: int) -> bool {
    &&& is_edge_walk(ast, p, true)
    &&& p[0] == a
    &&& p.no_duplicates()
    &&& p.len() - 1 <= max
}

/// The ids of the flowchart (declared nodes and edge endpoints), ascending.
fn known_ids(ast: &FlowchartAst) -> (u: Vec<ObjectId>)
    ensures
        forall|v: Seq<char>| #[trigger] id_views(u@).contains(v) <==> in_universe(ast, v),
        ascending(id_views(u@)),
{
    let deg = degrees(ast);
    let u = deg.keys_vec();
    proof {
        use_type_invariant(&deg);
        deg.lemma_shape();
        assert(id_views(u@) =~= deg.keys_seq());
        assert forall|v: Seq<char>| #[trigger] id_views(u@).contains(v) <==> in_universe(ast, v) by {
            assert(deg@.contains_key(v) <==> in_universe(ast, v));
        }
    }
    u
}

/// `c` is a prefix of `q`.
pub open spec fn is_id_prefix(c: Seq<Seq<char>>, q: Seq<Seq<char>>) -> bool {
    c.len() <= q.len() && q.take(c.len() as int) == c
}

/// `p` is a simple path from `a` to `b` with at most `max` hops.
pub open spec fn is_bounded_path(ast: &FlowchartAst, p: Seq<Seq<char>>, a: Seq<char>, b: Seq<char>, max: int) -> bool {
    is_simple_path(ast, p, a, b) && p.len() - 1 <= max
}

/// The views of a sequence of paths.
pub open spec fn id_paths(cs: Seq<Vec<ObjectId>>) -> Seq<Seq<Seq<char>>> {
    cs.map_values(|c: Vec<ObjectId>| id_views(c@))
}

/// `p` is `c` followed by an id one step from the last id of `c` that `c` does not pass.
spec fn extends_path(ast: &FlowchartAst, c: Seq<Seq<char>>, p: Seq<Seq<char>>) -> bool {
    &&& p.len() == c.len() + 1
    &&& p.drop_last() == c
    &&& step(ast, c.last(), p.last(), true)
    &&& !c.contains(p.last())
}

proof fn lemma_path_lt_order(a: Seq<Seq<char>>, b: Seq<Seq<char>>, c: Seq<Seq<char>>)
    ensures
        !path_lt(a, a),
        path_lt(a, b) && path_lt(b, c) ==> path_lt(a, c),
        a == b || path_lt(a, b) || path_lt(b, a),
        path_lt(a, b) ==> !path_lt(b, a),
{
    lemma_segs_lt_irreflexive(a);
    lemma_segs_lt_total(a, b);
    if segs_lt(a, b) && segs_lt(b, c) {
        lemma_segs_lt_transitive(a, b, c);
    }
    if segs_lt(a, b) && segs_lt(b, a) {
        lemma_segs_lt_transitive(a, b, a);
    }
}

/// The state of a search for paths from `a` to `b` with at most `max` hops, all within `uni`:
/// partial paths `cv` to examine, paths `rv` found. The found paths ascend strictly and come
/// before every partial path; no partial path is a prefix of another; and every path is found
/// or extends a partial path.
#[verifier::opaque]
spec fn paths_ok(ast: &FlowchartAst, uni: Seq<Seq<char>>, a: Seq<char>, b: Seq<char>, max: int, cv: Seq<Seq<Seq<char>>>, rv: Seq<Seq<Seq<char>>>) -> bool {
    &&& forall|k: int| 0 <= k < cv.len() ==> partial_path(ast, #[trigger] cv[k], a, max)
    &&& forall|k: int, t: int| 0 <= k < cv.len() && 0 <= t < cv[k].len() ==> uni.contains(#[trigger] cv[k][t])
    &&& forall|k: int| 0 <= k < rv.len() ==> is_bounded_path(ast, #[trigger] rv[k], a, b, max)
    &&& forall|i: int, j: int| 0 <= i < j < rv.len() ==> path_lt(#[trigger] rv[i], #[trigger] rv[j])
    &&& forall|i: int, k: int| 0 <= i < rv.len() && 0 <= k < cv.len() ==> path_lt(#[trigger] rv[i], #[trigger] cv[k])
    &&& forall|i: int, j: int| 0 <= i < cv.len() && 0 <= j < cv.len() && i != j ==> !is_id_prefix(#[trigger] cv[i], #[trigger] cv[j])
    &&& forall|q: Seq<Seq<char>>| #[trigger] is_bounded_path(ast, q, a, b, max) ==> rv.contains(q) || exists|k: int| 0 <= k < cv.len() && is_id_prefix(#[trigger] cv[k], q)
}

proof fn lemma_paths_start(ast: &FlowchartAst, uni: Seq<Seq<char>>, a: Seq<char>, b: Seq<char>, max: int)
    requires
        uni.contains(a),
        max >= 0,
    ensures
        paths_ok(ast, uni, a, b, max, seq![seq![a]], Seq::empty()),
{
    reveal(paths_ok);
    let cv = seq![seq![a]];
    assert(partial_path(ast, cv[0], a, max));
    assert forall|q: Seq<Seq<char>>| #[trigger] is_bounded_path(ast, q, a, b, max) implies exists|k: int| 0 <= k < cv.len() && is_id_prefix(#[trigger] cv[k], q) by {
        assert(q.take(1) =~= seq![a]);
        assert(is_id_prefix(cv[0], q));
    }
}

/// The partial paths other than `cv[i]` keep their properties.
proof fn lemma_paths_rest(ast: &FlowchartAst, uni: Seq<Seq<char>>, a: Seq<char>, b: Seq<char>, max: int, cv: Seq<Seq<Seq<char>>>, rv: Seq<Seq<Seq<char>>>, i: int)
    requires
        paths_ok(ast, uni, a, b, max, cv, rv),
        0 <= i < cv.len(),
    ensures
        forall|k: int| 0 <= k < cv.remove(i).len() ==> partial_path(ast, #[trigger] cv.remove(i)[k], a, max),
        forall|k: int, t: int| 0 <= k < cv.remove(i).len() && 0 <= t < cv.remove(i)[k].len() ==> uni.contains(#[trigger] cv.remove(i)[k][t]),
        forall|x: int, k: int| 0 <= x < rv.len() && 0 <= k < cv.remove(i).len() ==> path_lt(#[trigger] rv[x], #[trigger] cv.remove(i)[k]),
        forall|x: int, y: int| 0 <= x < cv.remove(i).len() && 0 <= y < cv.remove(i).len() && x != y ==> !is_id_prefix(#[trigger] cv.remove(i)[x], #[trigger] cv.remove(i)[y]),
        forall|q: Seq<Seq<char>>| #[trigger] is_bounded_path(ast, q, a, b, max) && !rv.contains(q) && !is_id_prefix(cv[i], q) ==> exists|k: int| 0 <= k < cv.remove(i).len() && is_id_prefix(#[trigger] cv.remove(i)[k], q),
{
    reveal(paths_ok);
    let rem = cv.remove(i);
    assert forall|k: int| 0 <= k < rem.len() implies partial_path(ast, #[trigger] rem[k], a, max) by {
        let k2 = if k < i { k } else { k + 1 };
        assert(rem[k] == cv[k2]);
    }
    assert forall|k: int, t: int| 0 <= k < rem.len() && 0 <= t < rem[k].len() implies uni.contains(#[trigger] rem[k][t]) by {
        let k2 = if k < i { k } else { k + 1 };
        assert(rem[k] == cv[k2]);
    }
    assert forall|x: int, k: int| 0 <= x < rv.len() && 0 <= k < rem.len() implies path_lt(#[trigger] rv[x], #[trigger] rem[k]) by {
        let k2 = if k < i { k } else { k + 1 };
        assert(rem[k] == cv[k2]);
    }
    assert forall|x: int, y: int| 0 <= x < rem.len() && 0 <= y < rem.len() && x != y implies !is_id_prefix(#[trigger] rem[x], #[trigger] rem[y]) by {
        let x2 = if x < i { x } else { x + 1 };
        let y2 = if y < i { y } else { y + 1 };
        assert(rem[x] == cv[x2] && rem[y] == cv[y2]);
    }
    assert forall|q: Seq<Seq<char>>| #[trigger] is_bounded_path(ast, q, a, b, max) && !rv.contains(q) && !is_id_prefix(cv[i], q) implies exists|k: int| 0 <= k < rem.len() && is_id_prefix(#[trigger] rem[k], q) by {
        let k = choose|k: int| 0 <= k < cv.len() && is_id_prefix(#[trigger] cv[k], q);
        let k2 = if k < i { k } else { k - 1 };
        assert(rem[k2] == cv[k]);
    }
}

/// Taking the first partial path `c = cv[i]`, a path to `b`: it joins the found paths.
proof fn lemma_paths_found(ast: &FlowchartAst, uni: Seq<Seq<char>>, a: Seq<char>, b: Seq<char>, max: int, cv: Seq<Seq<Seq<char>>>, rv: Seq<Seq<Seq<char>>>, i: int)
    requires
        paths_ok(ast, uni, a, b, max, cv, rv),
        0 <= i < cv.len(),
        forall|j: int| 0 <= j < cv.len() ==> !path_lt(#[trigger] cv[j], cv[i]),
        cv[i].last() == b,
    ensures
        paths_ok(ast, uni, a, b, max, cv.remove(i), rv.push(cv[i])),
{
    lemma_paths_rest(ast, uni, a, b, max, cv, rv, i);
    reveal(paths_ok);
    let c = cv[i];
    let rem = cv.remove(i);
    let rv2 = rv.push(c);
    assert(partial_path(ast, c, a, max));
    assert(is_bounded_path(ast, c, a, b, max));
    assert forall|k: int| 0 <= k < rem.len() implies path_lt(c, #[trigger] rem[k]) by {
        let k2 = if k < i { k } else { k + 1 };
        assert(rem[k] == cv[k2]);
        assert(!is_id_prefix(cv[k2], c));
        assert(cv[k2] != c) by {
            if cv[k2] == c {
                assert(c.take(c.len() as int) =~= c);
            }
        }
        assert(!path_lt(cv[k2], c));
        lemma_path_lt_order(c, cv[k2], c);
    }
    assert forall|x: int, y: int| 0 <= x < y < rv2.len() implies path_lt(#[trigger] rv2[x], #[trigger] rv2[y]) by {
        if y == rv.len() {
            assert(rv2[x] == rv[x]);
            assert(path_lt(rv[x], cv[i]));
        } else {
            assert(rv2[x] == rv[x] && rv2[y] == rv[y]);
        }
    }
    assert forall|x: int, k: int| 0 <= x < rv2.len() && 0 <= k < rem.len() implies path_lt(#[trigger] rv2[x], #[trigger] rem[k]) by {
        if x < rv.len() {
            assert(rv2[x] == rv[x]);
        }
    }
    assert forall|k: int| 0 <= k < rv2.len() implies is_bounded_path(ast, #[trigger] rv2[k], a, b, max) by {
        if k < rv.len() {
            assert(rv2[k] == rv[k]);
        }
    }
    assert forall|q: Seq<Seq<char>>| #[trigger] is_bounded_path(ast, q, a, b, max) implies rv2.contains(q) || exists|k: int| 0 <= k < rem.len() && is_id_prefix(#[trigger] rem[k], q) by {
        if rv.contains(q) {
            let t = choose|t: int| 0 <= t < rv.len() && rv[t] == q;
            assert(rv2[t] == q);
        } else if is_id_prefix(c, q) {
            if c.len() < q.len() {
                assert(q[c.len() - 1] == c[c.len() - 1]);
                assert(q[c.len() - 1] == q[q.len() - 1]);
            } else {
                assert(q =~= c);
                assert(rv2[rv.len() as int] == q);
            }
        }
    }
}

/// Taking the first partial path `c = cv[i]`, not ending at `b`, when no walk from its last id
/// to `b` completes it within `max` hops: it is dropped.
proof fn lemma_paths_dropped(ast: &FlowchartAst, uni: Seq<Seq<char>>, a: Seq<char>, b: Seq<char>, max: int, cv: Seq<Seq<Seq<char>>>, rv: Seq<Seq<Seq<char>>>, i: int)
    requires
        paths_ok(ast, uni, a, b, max, cv, rv),
        0 <= i < cv.len(),
        cv[i].last() != b,
        forall|w: Seq<Seq<char>>| #[trigger] walk_from_to(ast, w, cv[i].last(), b, true) ==> cv[i].len() - 1 + w.len() - 1 > max,
    ensures
        paths_ok(ast, uni, a, b, max, cv.remove(i), rv),
{
    lemma_paths_rest(ast, uni, a, b, max, cv, rv, i);
    reveal(paths_ok);
    let c = cv[i];
    let rem = cv.remove(i);
    assert forall|q: Seq<Seq<char>>| #[trigger] is_bounded_path(ast, q, a, b, max) implies rv.contains(q) || exists|k: int| 0 <= k < rem.len() && is_id_prefix(#[trigger] rem[k], q) by {
        if !rv.contains(q) && is_id_prefix(c, q) {
            if c.len() == q.len() {
                assert(q =~= c);
            } else {
                let w = q.skip(c.len() - 1);
                assert(w[0] == q[c.len() - 1]);
                assert(q[c.len() - 1] == c[c.len() - 1]);
                assert forall|s: int| 0 <= s < w.len() - 1 implies #[trigger] walk_step(ast, w, s, true) by {
                    assert(walk_step(ast, q, s + c.len() - 1, true));
                }
                assert(walk_from_to(ast, w, c.last(), b, true));
            }
        }
    }
}

/// Taking the first partial path `c = cv[i]`, not ending at `b`: it is replaced by its
/// extensions `ch`, one for each id one step from its last id that it does not pass.
proof fn lemma_paths_extended(
    ast: &FlowchartAst,
    uni: Seq<Seq<char>>,
    a: Seq<char>,
    b: Seq<char>,
    max: int,
    cv: Seq<Seq<Seq<char>>>,
    rv: Seq<Seq<Seq<char>>>,
    i: int,
    ch: Seq<Seq<Seq<char>>>,
)
    requires
        paths_ok(ast, uni, a, b, max, cv, rv),
        0 <= i < cv.len(),
        cv[i].last() != b,
        cv[i].len() - 1 < max,
        forall|t: int| 0 <= t < ch.len() ==> extends_path(ast, cv[i], #[trigger] ch[t]),
        forall|t: int| 0 <= t < ch.len() ==> uni.contains((#[trigger] ch[t]).last()),
        forall|s: int, t: int| 0 <= s < t < ch.len() ==> (#[trigger] ch[s]).last() != (#[trigger] ch[t]).last(),
        forall|x: Seq<char>| #[trigger] step(ast, cv[i].last(), x, true) && !cv[i].contains(x)
            ==> exists|t: int| 0 <= t < ch.len() && #[trigger] ch[t] == cv[i].push(x),
    ensures
        paths_ok(ast, uni, a, b, max, cv.remove(i) + ch, rv),
{
    lemma_paths_rest(ast, uni, a, b, max, cv, rv, i);
    reveal(paths_ok);
    let c = cv[i];
    let rem = cv.remove(i);
    let nv = rem + ch;
    assert(partial_path(ast, c, a, max));
    assert forall|t: int| 0 <= t < ch.len() implies #[trigger] ch[t] == c.push(ch[t].last()) by {
        assert(extends_path(ast, c, ch[t]));
        assert(ch[t] =~= ch[t].drop_last().push(ch[t].last()));
    }
    assert forall|k: int| 0 <= k < nv.len() implies partial_path(ast, #[trigger] nv[k], a, max) by {
        if k < rem.len() {
            assert(nv[k] == rem[k]);
        } else {
            let p = nv[k];
            let t = k - rem.len();
            assert(p == ch[t]);
            assert(extends_path(ast, c, p));
            assert(p == c.push(p.last()));
            assert forall|s: int| 0 <= s < p.len() - 1 implies #[trigger] walk_step(ast, p, s, true) by {
                if s < c.len() - 1 {
                    assert(walk_step(ast, c, s, true));
                }
            }
            assert forall|x: int, y: int| 0 <= x < y < p.len() implies p[x] != p[y] by {
                if y == p.len() - 1 {
                    assert(c.contains(p[x]));
                }
            }
        }
    }
    assert forall|k: int, t: int| 0 <= k < nv.len() && 0 <= t < nv[k].len() implies uni.contains(#[trigger] nv[k][t]) by {
        if k < rem.len() {
            assert(nv[k] == rem[k]);
        } else {
            let s = k - rem.len();
            assert(nv[k] == ch[s]);
            assert(ch[s] == c.push(ch[s].last()));
            if t < c.len() {
                assert(nv[k][t] == cv[i][t]);
            }
        }
    }
    assert forall|x: int, k: int| 0 <= x < rv.len() && 0 <= k < nv.len() implies path_lt(#[trigger] rv[x], #[trigger] nv[k]) by {
        if k < rem.len() {
            assert(nv[k] == rem[k]);
        } else {
            let s = k - rem.len();
            assert(nv[k] == ch[s]);
            assert(extends_path(ast, c, ch[s]));
            assert(path_lt(rv[x], c));
            assert(path_lt(c, ch[s]));
            lemma_path_lt_order(rv[x], c, ch[s]);
        }
    }
    assert forall|x: int, y: int| 0 <= x < nv.len() && 0 <= y < nv.len() && x != y implies !is_id_prefix(#[trigger] nv[x], #[trigger] nv[y]) by {
        if x < rem.len() && y < rem.len() {
            assert(nv[x] == rem[x] && nv[y] == rem[y]);
        } else if x >= rem.len() && y >= rem.len() {
            let s = x - rem.len();
            let t = y - rem.len();
            assert(nv[x] == ch[s] && nv[y] == ch[t]);
            assert(ch[s] == c.push(ch[s].last()) && ch[t] == c.push(ch[t].last()));
            if is_id_prefix(nv[x], nv[y]) {
                assert(nv[y].take(nv[x].len() as int) =~= nv[y]);
                if s < t {
                    assert(ch[s].last() != ch[t].last());
                } else {
                    assert(ch[t].last() != ch[s].last());
                }
            }
        } else if x < rem.len() {
            let x2 = if x < i { x } else { x + 1 };
            let t = y - rem.len();
            assert(rem[x] == cv[x2]);
            assert(nv[x] == cv[x2] && nv[y] == ch[t]);
            assert(ch[t] == c.push(ch[t].last()));
            if is_id_prefix(nv[x], nv[y]) {
                if cv[x2].len() <= c.len() {
                    assert(c.take(cv[x2].len() as int) =~= ch[t].take(cv[x2].len() as int));
                    assert(is_id_prefix(cv[x2], c));
                } else {
                    assert(cv[x2] =~= ch[t]);
                    assert(cv[x2].take(c.len() as int) =~= c);
                    assert(is_id_prefix(c, cv[x2]));
                }
            }
        } else {
            let s = x - rem.len();
            let y2 = if y < i { y } else { y + 1 };
            assert(rem[y] == cv[y2]);
            assert(nv[x] == ch[s] && nv[y] == cv[y2]);
            assert(ch[s] == c.push(ch[s].last()));
            if is_id_prefix(nv[x], nv[y]) {
                assert(cv[y2].take(c.len() as int) =~= ch[s].take(c.len() as int));
                assert(ch[s].take(c.len() as int) =~= c);
                assert(is_id_prefix(c, cv[y2]));
            }
        }
    }
    assert forall|q: Seq<Seq<char>>| #[trigger] is_bounded_path(ast, q, a, b, max) implies rv.contains(q) || exists|k: int| 0 <= k < nv.len() && is_id_prefix(#[trigger] nv[k], q) by {
        if !rv.contains(q) {
            if is_id_prefix(c, q) {
                if c.len() == q.len() {
                    assert(q =~= c);
                } else {
                    let x = q[c.len() as int];
                    assert(q[c.len() - 1] == c.last());
                    assert(walk_step(ast, q, c.len() - 1, true));
                    assert(!c.contains(x)) by {
                        if c.contains(x) {
                            let s = choose|s: int| 0 <= s < c.len() && c[s] == x;
                            assert(q[s] == c[s]);
                        }
                    }
                    assert(step(ast, c.last(), x, true));
                    let t = choose|t: int| 0 <= t < ch.len() && #[trigger] ch[t] == c.push(x);
                    assert(nv[rem.len() + t] == ch[t]);
                    assert(q.take((c.len() + 1) as int) =~= c.push(x));
                    assert(is_id_prefix(nv[rem.len() + t], q));
                }
            } else {
                let k = choose|k: int| 0 <= k < rem.len() && is_id_prefix(#[trigger] rem[k], q);
                assert(nv[k] == rem[k]);
            }
        }
    }
}

/// Every id one step from an id is a known id.
proof fn lemma_step_known(ast: &FlowchartAst, a: Seq<char>, x: Seq<char>)
    requires
        step(ast, a, x, true),
    ensures
        in_universe(ast, x),
{
    let e = choose|e: int| 0 <= e < edge_seq(ast).len() && (#[trigger] edge_seq(ast)[e]).from_node_id@ == a && edge_seq(ast)[e].to_node_id@ == x;
    assert(edge_seq(ast)[e].to_node_id@ == x);
}

/// Appends to `cands` the extensions of `path` by each id one step from its last id that it
/// does not pass, in ascending order.
fn extend_paths(cands: &mut Vec<Vec<ObjectId>>, path: &Vec<ObjectId>, ast: &FlowchartAst)
    requires
        path@.len() >= 1,
    ensures
        final(cands)@.len() >= old(cands)@.len(),
        forall|i: int| 0 <= i < old(cands)@.len() ==> #[trigger] final(cands)@[i] == old(cands)@[i],
        forall|i: int| old(cands)@.len() <= i < final(cands)@.len() ==> extends_path(ast, id_views(path@), id_views(#[trigger] final(cands)@[i]@)),
        forall|s: int, t: int| old(cands)@.len() <= s < t < final(cands)@.len() ==> id_views((#[trigger] final(cands)@[s])@).last() != id_views((#[trigger] final(cands)@[t])@).last(),
        forall|x: Seq<char>| #[trigger] step(ast, id_views(path@).last(), x, true) && !id_views(path@).contains(x)
            ==> exists|t: int| old(cands)@.len() <= t < final(cands)@.len() && id_views(#[trigger] final(cands)@[t]@) == id_views(path@).push(x),
{
    let last = path[path.len() - 1].key_dup();
    let ghost pv = id_views(path@);
    proof {
        assert(last@ == pv.last());
    }
    let nexts = successors(ast, &last, true);
    proof {
        use_type_invariant(&nexts);
        nexts.lemma_shape();
    }
    let ghost c0 = cands@;
    let ghost ks = nexts.keys_seq();
    proof {
        assert forall|a: int, b: int| 0 <= a < b < ks.len() implies #[trigger] ks[a] != #[trigger] ks[b] by {
            crate::sorted_map::lemma_sorted_distinct::<ObjectId>(ks, a, b);
        }
    }
    let m = nexts.len();
    let mut j: usize = 0;
    let ghost mut idx: Seq<int> = Seq::empty();
    while j < m
        invariant
            m == ks.len(),
            ks == nexts.keys_seq(),
            forall|i: int| 0 <= i < ks.len() ==> #[trigger] nexts@.contains_key(ks[i]),
            forall|k: Seq<char>| #[trigger] nexts@.contains_key(k) <==> ks.contains(k),
            forall|x: Seq<char>| #[trigger] nexts@.contains_key(x) <==> step(ast, last@, x, true),
            forall|a: int, b: int| 0 <= a < b < ks.len() ==> #[trigger] ks[a] != #[trigger] ks[b],
            pv == id_views(path@),
            last@ == pv.last(),
            path@.len() >= 1,
            j <= m,
            cands@.len() >= c0.len(),
            idx.len() == cands@.len() - c0.len(),
            forall|i: int| 0 <= i < c0.len() ==> #[trigger] cands@[i] == c0[i],
            forall|i: int| c0.len() <= i < cands@.len() ==> extends_path(ast, pv, id_views(#[trigger] cands@[i]@)),
            forall|t: int| 0 <= t < idx.len() ==> 0 <= #[trigger] idx[t] < j && id_views(cands@[c0.len() + t]@).last() == ks[idx[t]],
            forall|s: int, t: int| 0 <= s < t < idx.len() ==> #[trigger] idx[s] < #[trigger] idx[t],
            forall|jj: int| 0 <= jj < j && !pv.contains(#[trigger] ks[jj]) ==> exists|t: int| c0.len() <= t < cands@.len() && id_views(#[trigger] cands@[t]@) == pv.push(ks[jj]),
        decreases m - j,
    {
        let next = nexts.key_at(j);
        if !passes(path, next) {
            let mut np: Vec<ObjectId> = Vec::new();
            let mut k: usize = 0;
            while k < path.len()
                invariant
                    k <= path@.len(),
                    np@.len() == k,
                    forall|t: int| 0 <= t < k ==> (#[trigger] np@[t])@ == path@[t]@,
                decreases path@.len() - k,
            {
                np.push(path[k].key_dup());
                k = k + 1;
            }
            let ghost nv = next@;
            np.push(next.key_dup());
            let ghost before = cands@;
            proof {
                assert(id_views(np@) =~= pv.push(nv));
                assert(nexts@.contains_key(ks[j as int]));
                assert(id_views(np@).drop_last() =~= pv);
            }
            cands.push(np);
            proof {
                idx = idx.push(j as int);
                assert forall|i: int| c0.len() <= i < cands@.len() implies extends_path(ast, pv, id_views(#[trigger] cands@[i]@)) by {
                    if i < before.len() {
                        assert(cands@[i] == before[i]);
                    }
                }
                assert forall|t: int| 0 <= t < idx.len() implies 0 <= #[trigger] idx[t] < j + 1 && id_views(cands@[c0.len() + t]@).last() == ks[idx[t]] by {
                    if t < idx.len() - 1 {
                        assert(cands@[c0.len() + t] == before[c0.len() + t]);
                    }
                }
                assert forall|jj: int| 0 <= jj < j + 1 && !pv.contains(#[trigger] ks[jj]) implies exists|t: int| c0.len() <= t < cands@.len() && id_views(#[trigger] cands@[t]@) == pv.push(ks[jj]) by {
                    if jj < j {
                        let t = choose|t: int| c0.len() <= t < before.len() && id_views(#[trigger] before[t]@) == pv.push(ks[jj]);
                        assert(cands@[t] == before[t]);
                    } else {
                        assert(id_views(cands@[before.len() as int]@) == pv.push(ks[jj]));
                    }
                }
            }
        }
        j = j + 1;
    }
    proof {
        assert forall|s: int, t: int| c0.len() <= s < t < cands@.len() implies id_views((#[trigger] cands@[s])@).last() != id_views((#[trigger] cands@[t])@).last() by {
            let s2 = s - c0.len();
            let t2 = t - c0.len();
            assert(idx[s2] < idx[t2]);
        }
        assert forall|x: Seq<char>| #[trigger] step(ast, pv.last(), x, true) && !pv.contains(x)
            implies exists|t: int| c0.len() <= t < cands@.len() && id_views(#[trigger] cands@[t]@) == pv.push(x) by {
            assert(nexts@.contains_key(x));
            assert(ks.contains(x));
            let jj = choose|jj: int| 0 <= jj < ks.len() && ks[jj] == x;
            assert(!pv.contains(ks[jj]));
        }
    }
}

/// The simple paths from `from_node_id` to `to_node_id` along edges with at most
/// `max_extra_hops` more hops than the fewest possible: the first `limit` of them by number of
/// hops, then lexicographically, in that order. There are none when `limit` is 0, when an end
/// is not a known id, or when no walk connects them. From a known id to itself the one path
/// is that id alone.
pub fn paths(
    ast: &FlowchartAst,
    from_node_id: &ObjectId,
    to_node_id: &ObjectId,
    limit: usize,
    max_extra_hops: usize,
) -> (r: Vec<Vec<ObjectId>>)
    ensures
        r@.len() <= limit,
        limit > 0 && in_universe(ast, from_node_id@) && from_node_id@ == to_node_id@ ==> id_paths(r@) == seq![seq![from_node_id@]],
        limit == 0 || !in_universe(ast, from_node_id@) || !in_universe(ast, to_node_id@)
            || !connected(ast, from_node_id@, to_node_id@, true) ==> r@.len() == 0,
        forall|i: int| 0 <= i < r@.len() ==> is_simple_path(ast, id_views(#[trigger] r@[i]@), from_node_id@, to_node_id@),
        forall|i: int, j: int| 0 <= i < j < r@.len() ==> path_lt(id_views(#[trigger] r@[i]@), id_views(#[trigger] r@[j]@)),
        in_universe(ast, from_node_id@) && in_universe(ast, to_node_id@) ==> forall|d: int| #[trigger] is_distance(ast, from_node_id@, to_node_id@, d, true) ==> {
            &&& forall|i: int| 0 <= i < r@.len() ==> (#[trigger] r@[i])@.len() - 1 <= d + max_extra_hops
            &&& forall|q: Seq<Seq<char>>| #[trigger] is_bounded_path(ast, q, from_node_id@, to_node_id@, d + max_extra_hops) ==>
                id_paths(r@).contains(q) || (r@.len() == limit && forall|i: int| 0 <= i < r@.len() ==> path_lt(id_views(#[trigger] r@[i]@), q))
        },
{
    if limit == 0 {
        return Vec::new();
    }
    let universe = known_ids(ast);
    if !passes(&universe, from_node_id) || !passes(&universe, to_node_id) {
        return Vec::new();
    }
    let ghost a = from_node_id@;
    let ghost b = to_node_id@;
    if from_node_id.same_as(to_node_id) {
        let r = vec![vec![from_node_id.key_dup()]];
        proof {
            let pv = id_views(r@[0]@);
            assert(pv =~= seq![a]);
            assert(walk_from_to(ast, pv, a, b, true));
            assert(id_paths(r@) =~= seq![pv]);
            assert forall|d: int| #[trigger] is_distance(ast, a, b, d, true) implies {
                &&& forall|i: int| 0 <= i < r@.len() ==> (#[trigger] r@[i])@.len() - 1 <= d + max_extra_hops
                &&& forall|q: Seq<Seq<char>>| #[trigger] is_bounded_path(ast, q, a, b, d + max_extra_hops) ==>
                    id_paths(r@).contains(q) || (r@.len() == limit && forall|i: int| 0 <= i < r@.len() ==> path_lt(id_views(#[trigger] r@[i]@), q))
            } by {
                assert(d >= 0) by {
                    let w = choose|w: Seq<Seq<char>>| #[trigger] walk_from_to(ast, w, a, b, true) && w.len() == d + 1;
                }
                assert forall|q: Seq<Seq<char>>| #[trigger] is_bounded_path(ast, q, a, b, d + max_extra_hops) implies id_paths(r@).contains(q) by {
                    if q.len() > 1 {
                        assert(q[0] == q[q.len() - 1]);
                    }
                    assert(q =~= pv);
                    assert(id_paths(r@)[0] == q);
                }
            }
        }
        return r;
    }
    let dist_from = distances(ast, from_node_id, true, &universe);
    let shortest: usize = match dist_from.get(to_node_id) {
        Some(d) => *d,
        None => {
            return Vec::new();
        },
    };
    let ghost d = shortest as int;
    let max_len: usize = shortest.saturating_add(max_extra_hops);
    let dist_to = distances(ast, to_node_id, false, &universe);
    let ulen = universe.len();
    let ghost uni = id_views(universe@);
    let ghost bb: nat = uni.len() + 1;
    let ghost mm: nat = uni.len();
    proof {
        assert(is_distance(ast, a, b, d, true));
        assert(uni.contains(a));
        lemma_paths_start(ast, uni, a, b, max_len as int);
    }
    let mut cands: Vec<Vec<ObjectId>> = Vec::new();
    cands.push(vec![from_node_id.key_dup()]);
    let mut results: Vec<Vec<ObjectId>> = Vec::new();
    proof {
        assert(id_views(cands@[0]@) =~= seq![a]);
        assert(id_paths(cands@) =~= seq![seq![a]]);
        assert(id_paths(results@) =~= Seq::<Seq<Seq<char>>>::empty());
    }
    while cands.len() > 0 && results.len() < limit
        invariant
            a == from_node_id@,
            b == to_node_id@,
            a != b,
            uni == id_views(universe@),
            ulen == uni.len(),
            forall|v: Seq<char>| #[trigger] uni.contains(v) <==> in_universe(ast, v),
            bb == uni.len() + 1,
            mm == uni.len(),
            is_distance(ast, a, b, d, true),
            max_len == sat_add(d, max_extra_hops as int),
            forall|v: Seq<char>| #[trigger] dist_to@.contains_key(v) <==> connected(ast, b, v, false),
            forall|v: Seq<char>| #[trigger] dist_to@.contains_key(v) ==> is_distance(ast, b, v, dist_to@[v] as int, false),
            results@.len() <= limit,
            paths_ok(ast, uni, a, b, max_len as int, id_paths(cands@), id_paths(results@)),
        decreases potential(id_paths(cands@), bb, mm),
    {
        let ghost cv0 = id_paths(cands@);
        let ghost rv0 = id_paths(results@);
        let ghost old_cands = cands@;
        let path = take_first(&mut cands);
        let ghost i: int = choose|i: int| 0 <= i < old_cands.len() && path == old_cands[i] && cands@ == old_cands.remove(i);
        let ghost c = id_views(path@);
        proof {
            assert(id_paths(cands@) =~= cv0.remove(i));
            assert(cv0[i] == c);
            assert forall|j: int| 0 <= j < cv0.len() implies !path_lt(#[trigger] cv0[j], cv0[i]) by {
                lemma_path_lt_order(c, c, c);
                if j < i {
                    assert(cv0[j] == id_views(cands@[j]@));
                } else if j > i {
                    assert(cv0[j] == id_views(cands@[j - 1]@));
                }
            }
            lemma_potential_remove(cv0, bb, mm, i);
            reveal(paths_ok);
            assert(partial_path(ast, cv0[i], a, max_len as int));
            assert forall|t: int| 0 <= t < c.len() implies uni.contains(#[trigger] c[t]) by {
                assert(uni.contains(cv0[i][t]));
            }
            lemma_distinct_within_len(c, uni);
            lemma_power_positive(bb, (mm - c.len()) as nat);
        }
        let n = path.len();
        let last = path[n - 1].key_dup();
        proof {
            assert(c.last() == last@);
        }
        if last.same_as(to_node_id) {
            proof {
                lemma_paths_found(ast, uni, a, b, max_len as int, cv0, rv0, i);
            }
            results.push(path);
            proof {
                assert(id_paths(results@) =~= rv0.push(c));
            }
        } else {
            let hops: usize = n - 1;
            let keep = if hops < max_len {
                match dist_to.get(&last) {
                    Some(remaining) => *remaining <= max_len - hops,
                    None => false,
                }
            } else {
                false
            };
            if keep {
                let ghost before = cands@;
                extend_paths(&mut cands, &path, ast);
                proof {
                    let ch = id_paths(cands@).skip(before.len() as int);
                    assert(id_paths(cands@) =~= id_paths(before) + ch);
                    assert(id_paths(before) == cv0.remove(i));
                    assert forall|t: int| 0 <= t < ch.len() implies extends_path(ast, cv0[i], #[trigger] ch[t]) by {
                        assert(ch[t] == id_views(cands@[before.len() + t]@));
                    }
                    assert forall|t: int| 0 <= t < ch.len() implies uni.contains((#[trigger] ch[t]).last()) by {
                        assert(ch[t] == id_views(cands@[before.len() + t]@));
                        assert(extends_path(ast, c, ch[t]));
                        lemma_step_known(ast, c.last(), ch[t].last());
                    }
                    assert forall|s: int, t: int| 0 <= s < t < ch.len() implies (#[trigger] ch[s]).last() != (#[trigger] ch[t]).last() by {
                        assert(ch[s] == id_views(cands@[before.len() + s]@));
                        assert(ch[t] == id_views(cands@[before.len() + t]@));
                    }
                    assert forall|x: Seq<char>| #[trigger] step(ast, cv0[i].last(), x, true) && !cv0[i].contains(x)
                        implies exists|t: int| 0 <= t < ch.len() && #[trigger] ch[t] == cv0[i].push(x) by {
                        let t = choose|t: int| before.len() <= t < cands@.len() && id_views(#[trigger] cands@[t]@) == c.push(x);
                        assert(ch[t - before.len()] == id_views(cands@[t]@));
                    }
                    lemma_paths_extended(ast, uni, a, b, max_len as int, cv0, rv0, i, ch);
                    assert forall|t: int| 0 <= t < ch.len() implies (#[trigger] ch[t]).len() == c.len() + 1 by {
                        assert(extends_path(ast, c, ch[t]));
                    }
                    lemma_potential_append(cv0.remove(i), ch, bb, mm, (c.len() + 1) as nat);
                    if ch.len() > 0 {
                        let child = ch[0];
                        assert(extends_path(ast, c, child));
                        assert(child =~= c.push(child.last()));
                        assert(child.no_duplicates()) by {
                            assert forall|x: int, y: int| 0 <= x < y < child.len() implies child[x] != child[y] by {
                                if y == child.len() - 1 {
                                    assert(c.contains(child[x]));
                                }
                            }
                        }
                        assert forall|t: int| 0 <= t < child.len() implies uni.contains(#[trigger] child[t]) by {
                            if t < c.len() {
                                assert(child[t] == c[t]);
                            }
                        }
                        lemma_distinct_within_len(child, uni);
                        let lasts = Seq::new(ch.len(), |t: int| ch[t].last());
                        assert forall|t: int| 0 <= t < lasts.len() implies uni.contains(#[trigger] lasts[t]) by {
                            assert(uni.contains(ch[t].last()));
                        }
                        assert(lasts.no_duplicates()) by {
                            assert forall|x: int, y: int| 0 <= x < lasts.len() && 0 <= y < lasts.len() && x != y implies lasts[x] != lasts[y] by {
                                if x < y {
                                    assert(ch[x].last() != ch[y].last());
                                } else {
                                    assert(ch[y].last() != ch[x].last());
                                }
                            }
                        }
                        lemma_distinct_within_len(lasts, uni);
                        let e = (mm - c.len()) as nat;
                        let w1 = power(bb, (e - 1) as nat);
                        lemma_power_positive(bb, (e - 1) as nat);
                        assert(power(bb, e) == bb * w1);
                        assert(weight(bb, mm, (c.len() + 1) as nat) == w1);
                        let k = ch.len();
                        assert(k * w1 < bb * w1) by (nonlinear_arith)
                            requires
                                k < bb,
                                w1 >= 1,
                        ;
                    }
                }
            } else {
                proof {
                    assert forall|w: Seq<Seq<char>>| #[trigger] walk_from_to(ast, w, c.last(), b, true) implies c.len() - 1 + w.len() - 1 > max_len by {
                        let r = Seq::new(w.len(), |t: int| w[w.len() - 1 - t]);
                        assert forall|s: int| 0 <= s < r.len() - 1 implies #[trigger] walk_step(ast, r, s, false) by {
                            assert(walk_step(ast, w, w.len() - 2 - s, true));
                        }
                        assert(walk_from_to(ast, r, b, c.last(), false));
                        assert(connected(ast, b, c.last(), false));
                        if hops < max_len {
                            assert(dist_to@.contains_key(last@));
                            assert(is_distance(ast, b, last@, dist_to@[last@] as int, false));
                            assert(dist_to@[last@] <= r.len() - 1);
                        }
                    }
                    lemma_paths_dropped(ast, uni, a, b, max_len as int, cv0, rv0, i);
                }
            }
        }
    }
    proof {
        reveal(paths_ok);
        let cv = id_paths(cands@);
        let rv = id_paths(results@);
        assert forall|dd: int| #[trigger] is_distance(ast, a, b, dd, true) implies {
            &&& forall|t: int| 0 <= t < results@.len() ==> (#[trigger] results@[t])@.len() - 1 <= dd + max_extra_hops
            &&& forall|q: Seq<Seq<char>>| #[trigger] is_bounded_path(ast, q, a, b, dd + max_extra_hops) ==>
                rv.contains(q) || (results@.len() == limit && forall|t: int| 0 <= t < results@.len() ==> path_lt(id_views(#[trigger] results@[t]@), q))
        } by {
            lemma_distance_unique(ast, a, b, d, dd);
            assert forall|t: int| 0 <= t < results@.len() implies (#[trigger] results@[t])@.len() - 1 <= dd + max_extra_hops by {
                assert(rv[t] == id_views(results@[t]@));
                assert(is_bounded_path(ast, rv[t], a, b, max_len as int));
            }
            assert forall|q: Seq<Seq<char>>| #[trigger] is_bounded_path(ast, q, a, b, dd + max_extra_hops) implies
                rv.contains(q) || (results@.len() == limit && forall|t: int| 0 <= t < results@.len() ==> path_lt(id_views(#[trigger] results@[t]@), q)) by {
                assert forall|t: int| 0 <= t < q.len() implies uni.contains(#[trigger] q[t]) by {
                    if t == 0 {
                        assert(q[0] == a);
                    } else {
                        assert(walk_step(ast, q, t - 1, true));
                        lemma_step_known(ast, q[t - 1], q[t]);
                    }
                }
                lemma_distinct_within_len(q, uni);
                assert(is_bounded_path(ast, q, a, b, max_len as int));
                if !rv.contains(q) {
                    let k = choose|k: int| 0 <= k < cv.len() && is_id_prefix(#[trigger] cv[k], q);
                    assert forall|t: int| 0 <= t < results@.len() implies path_lt(id_views(#[trigger] results@[t]@), q) by {
                        assert(rv[t] == id_views(results@[t]@));
                        assert(path_lt(rv[t], cv[k]));
                        if cv[k].len() == q.len() {
                            assert(q.take(q.len() as int) =~= q);
                        } else {
                            lemma_path_lt_order(rv[t], cv[k], q);
                        }
                    }
                }
            }
        }
        assert forall|t: int| 0 <= t < results@.len() implies is_simple_path(ast, id_views(#[trigger] results@[t]@), a, b) by {
            assert(rv[t] == id_views(results@[t]@));
        }
        assert forall|x: int, y: int| 0 <= x < y < results@.len() implies path_lt(id_views(#[trigger] results@[x]@), id_views(#[trigger] results@[y]@)) by {
            assert(rv[x] == id_views(results@[x]@));
            assert(rv[y] == id_views(results@[y]@));
        }
    }
    results
}

/// `a + b`, saturated at the largest machine size.
pub open spec fn sat_add(a: int, b: int) -> int {
    if a + b > usize::MAX { usize::MAX as int } else { a + b }
}

/// The fewest steps between two ids is unique.
proof fn lemma_distance_unique(ast: &FlowchartAst, a: Seq<char>, b: Seq<char>, d1: int, d2: int)
    requires
        is_distance(ast, a, b, d1, true),
        is_distance(ast, a, b, d2, true),
    ensures
        d1 == d2,
{
    let w1 = choose|w: Seq<Seq<char>>| #[trigger] walk_from_to(ast, w, a, b, true) && w.len() == d1 + 1;
    let w2 = choose|w: Seq<Seq<char>>| #[trigger] walk_from_to(ast, w, a, b, true) && w.len() == d2 + 1;
}

/// Walks lead from `a` to `b` and from `b` to `a`.
pub open spec fn mutual(ast: &FlowchartAst, a: Seq<char>, b: Seq<char>) -> bool {
    connected(ast, a, b, true) && connected(ast, b, a, true)
}

/// `v` lies on a cycle: it has an edge to some id from which a walk leads back to it.
pub open spec fn on_cycle(ast: &FlowchartAst, v: Seq<char>) -> bool {
    exists|x: Seq<char>| #[trigger] step(ast, v, x, true) && connected(ast, x, v, true)
}

/// `c` is a cycle group: the known ids mutually reachable with its first id, ascending, and
/// more than one id or an id with an edge to itself.
pub open spec fn is_cycle_group(ast: &FlowchartAst, c: Seq<Seq<char>>) -> bool {
    &&& c.len() >= 1
    &&& ascending(c)
    &&& forall|x: Seq<char>| #[trigger] c.contains(x) <==> in_universe(ast, x) && mutual(ast, c[0], x)
    &&& c.len() >= 2 || step(ast, c[0], c[0], true)
}

proof fn lemma_walk_concat(ast: &FlowchartAst, w1: Seq<Seq<char>>, w2: Seq<Seq<char>>, a: Seq<char>, b: Seq<char>, c: Seq<char>)
    requires
        walk_from_to(ast, w1, a, b, true),
        walk_from_to(ast, w2, b, c, true),
    ensures
        walk_from_to(ast, w1 + w2.drop_first(), a, c, true),
{
    let w = w1 + w2.drop_first();
    assert forall|i: int| 0 <= i < w.len() - 1 implies #[trigger] walk_step(ast, w, i, true) by {
        if i < w1.len() - 1 {
            assert(walk_step(ast, w1, i, true));
        } else {
            let k = i - (w1.len() - 1);
            assert(walk_step(ast, w2, k, true));
            if k == 0 {
                assert(w[i] == w1.last());
            } else {
                assert(w[i] == w2[k]);
            }
            assert(w[i + 1] == w2[k + 1]);
        }
    }
    if w2.len() > 1 {
        assert(w.last() == w2.last());
    }
}

proof fn lemma_walk_reverse(ast: &FlowchartAst, w: Seq<Seq<char>>, a: Seq<char>, b: Seq<char>)
    requires
        walk_from_to(ast, w, a, b, false),
    ensures
        walk_from_to(ast, Seq::new(w.len(), |i: int| w[w.len() - 1 - i]), b, a, true),
{
    let r = Seq::new(w.len(), |i: int| w[w.len() - 1 - i]);
    assert forall|i: int| 0 <= i < r.len() - 1 implies #[trigger] walk_step(ast, r, i, true) by {
        let k = w.len() - 2 - i;
        assert(walk_step(ast, w, k, false));
    }
}

proof fn lemma_connected_backward(ast: &FlowchartAst, a: Seq<char>, b: Seq<char>)
    ensures
        connected(ast, a, b, false) <==> connected(ast, b, a, true),
{
    if connected(ast, a, b, false) {
        let w = choose|w: Seq<Seq<char>>| #[trigger] walk_from_to(ast, w, a, b, false);
        lemma_walk_reverse(ast, w, a, b);
        let r = Seq::new(w.len(), |i: int| w[w.len() - 1 - i]);
        assert(walk_from_to(ast, r, b, a, true));
    }
    if connected(ast, b, a, true) {
        let w = choose|w: Seq<Seq<char>>| #[trigger] walk_from_to(ast, w, b, a, true);
        let r = Seq::new(w.len(), |i: int| w[w.len() - 1 - i]);
        assert forall|i: int| 0 <= i < r.len() - 1 implies #[trigger] walk_step(ast, r, i, false) by {
            let k = w.len() - 2 - i;
            assert(walk_step(ast, w, k, true));
        }
        assert(walk_from_to(ast, r, a, b, false));
    }
}

proof fn lemma_mutual_trans(ast: &FlowchartAst, a: Seq<char>, b: Seq<char>, c: Seq<char>)
    requires
        mutual(ast, a, b),
        mutual(ast, b, c),
    ensures
        mutual(ast, a, c),
{
    let w1 = choose|w: Seq<Seq<char>>| #[trigger] walk_from_to(ast, w, a, b, true);
    let w2 = choose|w: Seq<Seq<char>>| #[trigger] walk_from_to(ast, w, b, c, true);
    lemma_walk_concat(ast, w1, w2, a, b, c);
    let w3 = choose|w: Seq<Seq<char>>| #[trigger] walk_from_to(ast, w, c, b, true);
    let w4 = choose|w: Seq<Seq<char>>| #[trigger] walk_from_to(ast, w, b, a, true);
    lemma_walk_concat(ast, w3, w4, c, b, a);
}

proof fn lemma_mutual_refl(ast: &FlowchartAst, a: Seq<char>)
    ensures
        mutual(ast, a, a),
{
    assert(walk_from_to(ast, seq![a], a, a, true));
}

proof fn lemma_step_connected(ast: &FlowchartAst, a: Seq<char>, b: Seq<char>)
    requires
        step(ast, a, b, true),
    ensures
        connected(ast, a, b, true),
{
    let w = seq![a, b];
    assert(walk_step(ast, w, 0, true));
    assert(walk_from_to(ast, w, a, b, true));
}

/// The groups of ids that lie on cycles: each group holds the known ids mutually reachable
/// with one another, ascending, and has more than one id or an id with an edge to itself; the
/// groups come in order of their first ids, and every id on a cycle is in one.
pub fn cycles(ast: &FlowchartAst) -> (r: Vec<Vec<ObjectId>>)
    ensures
        forall|i: int| 0 <= i < r@.len() ==> is_cycle_group(ast, id_views(#[trigger] r@[i]@)),
        forall|i: int, j: int| 0 <= i < j < r@.len() ==> chars_lt(id_views(#[trigger] r@[i]@)[0], id_views(#[trigger] r@[j]@)[0]),
        forall|v: Seq<char>| in_universe(ast, v) && #[trigger] on_cycle(ast, v) ==> exists|i: int| 0 <= i < r@.len() && id_views(#[trigger] r@[i]@).contains(v),
{
    let universe = known_ids(ast);
    let ghost uv = id_views(universe@);
    let mut assigned: SortedMap<ObjectId, bool> = SortedMap::new();
    let mut result: Vec<Vec<ObjectId>> = Vec::new();
    let ghost mut reps: Seq<int> = Seq::empty();
    let n = universe.len();
    let mut i: usize = 0;
    while i < n
        invariant
            n == universe@.len(),
            uv == id_views(universe@),
            ascending(uv),
            forall|v: Seq<char>| #[trigger] uv.contains(v) <==> in_universe(ast, v),
            i <= n,
            forall|k: int| 0 <= k < i ==> assigned@.contains_key(#[trigger] uv[k]),
            forall|y: Seq<char>, z: Seq<char>| #[trigger] assigned@.contains_key(y) && in_universe(ast, z) && #[trigger] mutual(ast, y, z) ==> assigned@.contains_key(z),
            forall|y: Seq<char>| #[trigger] assigned@.contains_key(y) ==> (exists|j: int| 0 <= j < result@.len() && id_views(#[trigger] result@[j]@).contains(y)) || !on_cycle(ast, y),
            forall|y: Seq<char>| #[trigger] assigned@.contains_key(y) ==> in_universe(ast, y),
            reps.len() == result@.len(),
            forall|j: int| 0 <= j < result@.len() ==> 0 <= #[trigger] reps[j] < i && id_views(result@[j]@)[0] == uv[reps[j]],
            forall|a: int, b: int| 0 <= a < b < reps.len() ==> #[trigger] reps[a] < #[trigger] reps[b],
            forall|j: int| 0 <= j < result@.len() ==> is_cycle_group(ast, id_views(#[trigger] result@[j]@)),
        decreases n - i,
    {
        let v = universe[i].key_dup();
        proof {
            assert(uv[i as int] == v@);
            assert(uv.contains(v@));
        }
        if !assigned.contains_key(&v) {
            let fwd = distances(ast, &v, true, &universe);
            let bwd = distances(ast, &v, false, &universe);
            let mut group: Vec<ObjectId> = Vec::new();
            let ghost mut gidx: Seq<int> = Seq::empty();
            let ghost a0 = assigned@;
            let mut k: usize = 0;
            while k < n
                invariant
                    n == universe@.len(),
                    uv == id_views(universe@),
                    ascending(uv),
                    forall|x: Seq<char>| #[trigger] uv.contains(x) <==> in_universe(ast, x),
                    forall|x: Seq<char>| #[trigger] fwd@.contains_key(x) <==> connected(ast, v@, x, true),
                    forall|x: Seq<char>| #[trigger] bwd@.contains_key(x) <==> connected(ast, v@, x, false),
                    k <= n,
                    gidx.len() == group@.len(),
                    forall|t: int| 0 <= t < gidx.len() ==> 0 <= #[trigger] gidx[t] < k && id_views(group@)[t] == uv[gidx[t]],
                    forall|a: int, b: int| 0 <= a < b < gidx.len() ==> #[trigger] gidx[a] < #[trigger] gidx[b],
                    forall|t: int| 0 <= t < k ==> (id_views(group@).contains(#[trigger] uv[t]) <==> fwd@.contains_key(uv[t]) && bwd@.contains_key(uv[t])),
                    forall|x: Seq<char>| #[trigger] id_views(group@).contains(x) ==> uv.contains(x) && fwd@.contains_key(x) && bwd@.contains_key(x),
                    forall|x: Seq<char>| #[trigger] assigned@.contains_key(x) <==> a0.contains_key(x) || id_views(group@).contains(x),
                decreases n - k,
            {
                let x = &universe[k];
                if fwd.contains_key(x) && bwd.contains_key(x) {
                    let ghost g0 = id_views(group@);
                    group.push(x.key_dup());
                    assigned.insert(x.key_dup(), true);
                    proof {
                        gidx = gidx.push(k as int);
                        assert(id_views(group@) =~= g0.push(uv[k as int]));
                        assert forall|t: int| 0 <= t < k + 1 implies (id_views(group@).contains(#[trigger] uv[t]) <==> fwd@.contains_key(uv[t]) && bwd@.contains_key(uv[t])) by {
                            if t < k {
                                if g0.contains(uv[t]) {
                                    let q = choose|q: int| 0 <= q < g0.len() && g0[q] == uv[t];
                                    assert(id_views(group@)[q] == uv[t]);
                                }
                                if id_views(group@).contains(uv[t]) {
                                    let q = choose|q: int| 0 <= q < id_views(group@).len() && id_views(group@)[q] == uv[t];
                                    if q < g0.len() {
                                        assert(g0[q] == uv[t]);
                                    } else {
                                        lemma_distinct_uv(uv, t, k as int);
                                    }
                                }
                            } else {
                                assert(id_views(group@)[g0.len() as int] == uv[t]);
                            }
                        }
                        assert forall|y: Seq<char>| #[trigger] assigned@.contains_key(y) <==> a0.contains_key(y) || id_views(group@).contains(y) by {
                            if g0.contains(y) {
                                let q = choose|q: int| 0 <= q < g0.len() && g0[q] == y;
                                assert(id_views(group@)[q] == y);
                            }
                            if id_views(group@).contains(y) && y != uv[k as int] {
                                let q = choose|q: int| 0 <= q < id_views(group@).len() && id_views(group@)[q] == y;
                                assert(q < g0.len());
                                assert(g0[q] == y);
                            }
                        }
                        assert forall|x: Seq<char>| #[trigger] id_views(group@).contains(x) implies uv.contains(x) && fwd@.contains_key(x) && bwd@.contains_key(x) by {
                            if !g0.contains(x) {
                                assert(x == uv[k as int]);
                            }
                        }
                    }
                } else {
                    proof {
                        assert forall|t: int| 0 <= t < k + 1 implies (id_views(group@).contains(#[trigger] uv[t]) <==> fwd@.contains_key(uv[t]) && bwd@.contains_key(uv[t])) by {
                            if t == k && id_views(group@).contains(uv[t]) {
                                let q = choose|q: int| 0 <= q < id_views(group@).len() && id_views(group@)[q] == uv[t];
                                lemma_distinct_uv(uv, gidx[q], k as int);
                            }
                        }
                    }
                }
                k = k + 1;
            }
            proof {
                lemma_mutual_refl(ast, v@);
                let g = id_views(group@);
                assert forall|x: Seq<char>| #[trigger] g.contains(x) <==> in_universe(ast, x) && mutual(ast, v@, x) by {
                    lemma_connected_backward(ast, v@, x);
                    if in_universe(ast, x) && mutual(ast, v@, x) {
                        assert(uv.contains(x));
                        let t = choose|t: int| 0 <= t < uv.len() && uv[t] == x;
                        assert(fwd@.contains_key(x));
                        assert(bwd@.contains_key(x));
                        assert(fwd@.contains_key(uv[t]) && bwd@.contains_key(uv[t]));
                        assert(id_views(group@).contains(uv[t]));
                    }
                    if g.contains(x) {
                        assert(fwd@.contains_key(x) && bwd@.contains_key(x));
                    }
                }
                assert(g.contains(v@));
            }
            proof {
                let g = id_views(group@);
                if gidx[0] != i {
                    assert(gidx[0] < i) by {
                        let q = choose|q: int| 0 <= q < g.len() && g[q] == v@;
                        if gidx[0] > i {
                            assert(gidx[q] >= gidx[0]);
                            lemma_distinct_uv(uv, gidx[q], i as int);
                        }
                    }
                    let x = g[0];
                    assert(g.contains(x));
                    assert(a0.contains_key(uv[gidx[0]]));
                    assert(mutual(ast, x, v@));
                    assert(a0.contains_key(v@));
                }
                assert(g[0] == v@);
            }
            let keep = group.len() >= 2 || successors(ast, &v, true).contains_key(&v);
            let ghost old_result = result@;
            proof {
                let g = id_views(group@);
                assert forall|a: int, b: int| 0 <= a < b < g.len() implies #[trigger] chars_lt(g[a], g[b]) && #[trigger] g[b] == g[b] by {
                    assert(gidx[a] < gidx[b]);
                    assert(ObjectId::key_lt(uv[gidx[a]], uv[gidx[b]]));
                }
                assert(ascending(g));
                if !keep {
                    assert(g.len() == 1);
                    assert forall|x: Seq<char>| step(ast, v@, x, true) implies !connected(ast, x, v@, true) by {
                        if connected(ast, x, v@, true) {
                            lemma_step_connected(ast, v@, x);
                            assert(x != v@);
                            let e = choose|e: int| 0 <= e < edge_seq(ast).len() && (#[trigger] edge_seq(ast)[e]).from_node_id@ == v@ && edge_seq(ast)[e].to_node_id@ == x;
                            assert(in_universe(ast, x));
                            assert(g.contains(x));
                            let q = choose|q: int| 0 <= q < g.len() && g[q] == x;
                        }
                    }
                    assert(!on_cycle(ast, v@));
                }
            }
            if keep {
                result.push(group);
                proof {
                    reps = reps.push(i as int);
                }
            }
            proof {
                let g = id_views(group@);
                assert forall|y: Seq<char>| #[trigger] assigned@.contains_key(y) implies (exists|j: int| 0 <= j < result@.len() && id_views(#[trigger] result@[j]@).contains(y)) || !on_cycle(ast, y) by {
                    if a0.contains_key(y) {
                        if exists|j: int| 0 <= j < old_result.len() && id_views(#[trigger] old_result[j]@).contains(y) {
                            let j = choose|j: int| 0 <= j < old_result.len() && id_views(#[trigger] old_result[j]@).contains(y);
                            assert(result@[j] == old_result[j]);
                        }
                    } else {
                        assert(g.contains(y));
                        if keep {
                            assert(result@[old_result.len() as int] == group);
                        } else {
                            let q = choose|q: int| 0 <= q < g.len() && g[q] == y;
                        }
                    }
                }
                assert forall|y: Seq<char>, z: Seq<char>| #[trigger] assigned@.contains_key(y) && in_universe(ast, z) && #[trigger] mutual(ast, y, z) implies assigned@.contains_key(z) by {
                    if !a0.contains_key(y) {
                        assert(g.contains(y));
                        lemma_mutual_trans(ast, v@, y, z);
                        assert(g.contains(z));
                    }
                }
                assert forall|j: int| 0 <= j < result@.len() implies 0 <= #[trigger] reps[j] < i + 1 && id_views(result@[j]@)[0] == uv[reps[j]] by {
                    if j < old_result.len() {
                        assert(result@[j] == old_result[j]);
                    }
                }
                assert forall|j: int| 0 <= j < result@.len() implies is_cycle_group(ast, id_views(#[trigger] result@[j]@)) by {
                    if j < old_result.len() {
                        assert(result@[j] == old_result[j]);
                    }
                }
                assert(assigned@.contains_key(uv[i as int]));
            }
        }
        i = i + 1;
    }
    proof {
        assert forall|a: int, b: int| 0 <= a < b < result@.len() implies chars_lt(id_views(#[trigger] result@[a]@)[0], id_views(#[trigger] result@[b]@)[0]) by {
            assert(reps[a] < reps[b]);
            assert(ObjectId::key_lt(uv[reps[a]], uv[reps[b]]));
        }
        assert forall|v: Seq<char>| in_universe(ast, v) && #[trigger] on_cycle(ast, v) implies exists|j: int| 0 <= j < result@.len() && id_views(#[trigger] result@[j]@).contains(v) by {
            assert(uv.contains(v));
            let k = choose|k: int| 0 <= k < uv.len() && uv[k] == v;
            assert(assigned@.contains_key(uv[k]));
        }
    }
    result
}

/// Distinct positions of an ascending sequence hold distinct ids.
proof fn lemma_distinct_uv(uv: Seq<Seq<char>>, a: int, b: int)
    requires
        ascending(uv),
        0 <= a < uv.len(),
        0 <= b < uv.len(),
        a != b,
    ensures
        uv[a] != uv[b],
{
    crate::sorted_map::lemma_sorted_distinct::<ObjectId>(uv, a, b);
}

/// Paths in hop order are determined by the flowchart and the query: two path sequences that
/// both hold the first `limit` simple paths from `a` to `b` with at most `max` hops, ascending
/// in `path_lt`, are the same; so repeating a `paths` query repeats its result.
pub proof fn lemma_paths_determined(
    ast: &FlowchartAst,
    a: Seq<char>,
    b: Seq<char>,
    max: int,
    limit: int,
    r1: Seq<Seq<Seq<char>>>,
    r2: Seq<Seq<Seq<char>>>,
)
    requires
        r1.len() <= limit,
        r2.len() <= limit,
        forall|i: int| 0 <= i < r1.len() ==> is_bounded_path(ast, #[trigger] r1[i], a, b, max),
        forall|i: int| 0 <= i < r2.len() ==> is_bounded_path(ast, #[trigger] r2[i], a, b, max),
        forall|q: Seq<Seq<char>>| #[trigger] is_bounded_path(ast, q, a, b, max) ==> r1.contains(q) || (r1.len() == limit && forall|i: int| 0 <= i < r1.len() ==> path_lt(#[trigger] r1[i], q)),
        forall|q: Seq<Seq<char>>| #[trigger] is_bounded_path(ast, q, a, b, max) ==> r2.contains(q) || (r2.len() == limit && forall|i: int| 0 <= i < r2.len() ==> path_lt(#[trigger] r2[i], q)),
        forall|i: int, j: int| 0 <= i < j < r1.len() ==> path_lt(#[trigger] r1[i], #[trigger] r1[j]),
        forall|i: int, j: int| 0 <= i < j < r2.len() ==> path_lt(#[trigger] r2[i], #[trigger] r2[j]),
    ensures
        r1 == r2,
{
    let ok = |q: Seq<Seq<char>>| is_bounded_path(ast, q, a, b, max);
    let lt = |x: Seq<Seq<char>>, y: Seq<Seq<char>>| path_lt(x, y);
    assert(strict_total(lt)) by {
        assert forall|x: Seq<Seq<char>>| !#[trigger] lt(x, x) by {
            lemma_path_lt_order(x, x, x);
        }
        assert forall|x: Seq<Seq<char>>, y: Seq<Seq<char>>, z: Seq<Seq<char>>| #[trigger] lt(x, y) && #[trigger] lt(y, z) implies lt(x, z) by {
            lemma_path_lt_order(x, y, z);
        }
        assert forall|x: Seq<Seq<char>>, y: Seq<Seq<char>>| x != y implies #[trigger] lt(x, y) || lt(y, x) by {
            lemma_path_lt_order(x, y, x);
        }
    }
    assert(first_in_order(ok, lt, limit, r1));
    assert(first_in_order(ok, lt, limit, r2));
    lemma_first_in_order_unique(ok, lt, limit, r1, r2);
}

} // verus!
