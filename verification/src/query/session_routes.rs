//! Routes between objects across the diagrams of a session.
//!
//! Objects are linked within a diagram (flow nodes to their edges and neighbours, messages to
//! their participants and to the next message) and across diagrams by cross-references; routes
//! follow these links.

use vstd::prelude::*;
use crate::model::diagram::{Diagram, DiagramAst, Session, XRef};
use crate::model::flow_ast::{FlowEdge, FlowNode, FlowchartAst};
use crate::model::ids::ObjectId;
use crate::model::object_ref::{ObjectRef, RefView, ref_lt};
use crate::model::seq_ast::{MessageView, SequenceAst, SequenceMessage, SequenceParticipant, message_views, sort_messages};
use crate::ops::flow_apply::{flow_edge_ref_of, flow_node_ref_of};
use crate::ops::seq_apply::{message_ref_of, participant_ref_of};
use crate::ops::spec::{flow_edge_ref, flow_node_ref, seq_message_ref, seq_participant_ref};
use crate::sorted_map::{OrdKey, SortedMap, lemma_distinct_within_len, strictly_sorted};
use crate::order::CmpResult;
use super::best_first::{first_in_order, lemma_first_in_order_unique, strict_total, lemma_potential_append, lemma_potential_remove, lemma_power_positive, potential, power, weight};

verus! {

/// A directed graph given by its objects and links: every object, and every source of a link,
/// has an entry holding the targets of its links.
pub open spec fn graph_of(objects: Set<RefView>, links: Set<(RefView, RefView)>) -> Map<RefView, Set<RefView>> {
    Map::new(
        |a: RefView| objects.contains(a) || exists|b: RefView| #[trigger] links.contains((a, b)),
        |a: RefView| Set::new(|b: RefView| links.contains((a, b))),
    )
}

/// The objects and targets of an adjacency.
pub open spec fn adjacency_view(adj: SortedMap<ObjectRef, SortedMap<ObjectRef, bool>>) -> Map<RefView, Set<RefView>> {
    adj@.map_values(|s: SortedMap<ObjectRef, bool>| s@.dom())
}

/// Adds an object (with no links) unless it is already present.
fn add_object(adj: &mut SortedMap<ObjectRef, SortedMap<ObjectRef, bool>>, r: ObjectRef)
    ensures
        adjacency_view(*final(adj)) == if adjacency_view(*old(adj)).contains_key(r@) {
            adjacency_view(*old(adj))
        } else {
            adjacency_view(*old(adj)).insert(r@, Set::empty())
        },
{
    if !adj.contains_key(&r) {
        let ghost rv = r@;
        adj.insert(r, SortedMap::new());
        proof {
            assert(adjacency_view(*adj) =~= adjacency_view(*old(adj)).insert(rv, Set::empty()));
        }
    }
}

/// Adds a link from `a` to `b`, adding `a` if needed.
fn add_link(adj: &mut SortedMap<ObjectRef, SortedMap<ObjectRef, bool>>, a: ObjectRef, b: ObjectRef)
    ensures
        adjacency_view(*final(adj)) == adjacency_view(*old(adj)).insert(
            a@,
            (if adjacency_view(*old(adj)).contains_key(a@) {
                adjacency_view(*old(adj))[a@]
            } else {
                Set::empty()
            }).insert(b@),
        ),
{
    let ghost av = a@;
    let ghost bv = b@;
    let mut targets = match adj.remove(&a) {
        Some(t) => t,
        None => SortedMap::new(),
    };
    targets.insert(b, true);
    adj.insert(a, targets);
    proof {
        assert(adjacency_view(*adj) =~= adjacency_view(*old(adj)).insert(
            av,
            (if adjacency_view(*old(adj)).contains_key(av) {
                adjacency_view(*old(adj))[av]
            } else {
                Set::empty()
            }).insert(bv),
        ));
    }
}

proof fn lemma_graph_add_object(objects: Set<RefView>, links: Set<(RefView, RefView)>, r: RefView)
    ensures
        graph_of(objects.insert(r), links) == if graph_of(objects, links).contains_key(r) {
            graph_of(objects, links)
        } else {
            graph_of(objects, links).insert(r, Set::empty())
        },
{
    let g = graph_of(objects, links);
    let g2 = graph_of(objects.insert(r), links);
    if g.contains_key(r) {
        assert(g2 =~= g);
    } else {
        assert(g2[r] =~= Set::<RefView>::empty());
        assert(g2 =~= g.insert(r, Set::empty()));
    }
}

proof fn lemma_graph_add_link(objects: Set<RefView>, links: Set<(RefView, RefView)>, a: RefView, b: RefView)
    ensures
        graph_of(objects, links.insert((a, b))) == graph_of(objects, links).insert(
            a,
            (if graph_of(objects, links).contains_key(a) {
                graph_of(objects, links)[a]
            } else {
                Set::empty()
            }).insert(b),
        ),
{
    let g = graph_of(objects, links);
    let g2 = graph_of(objects, links.insert((a, b)));
    let rhs = g.insert(a, (if g.contains_key(a) { g[a] } else { Set::empty() }).insert(b));
    assert forall|x: RefView| #[trigger] g2.contains_key(x) <==> rhs.contains_key(x) by {
        if x != a && g2.contains_key(x) && !objects.contains(x) {
            let y = choose|y: RefView| #[trigger] links.insert((a, b)).contains((x, y));
            assert(links.contains((x, y)));
        }
        if x != a && g.contains_key(x) && !objects.contains(x) {
            let y = choose|y: RefView| #[trigger] links.contains((x, y));
            assert(links.insert((a, b)).contains((x, y)));
        }
        if x == a {
            assert(links.insert((a, b)).contains((a, b)));
        }
    }
    assert forall|x: RefView| #[trigger] g2.contains_key(x) implies g2[x] == rhs[x] by {
        if x == a {
            if !g.contains_key(a) {
                assert forall|y: RefView| !links.contains((a, y)) by {
                    if links.contains((a, y)) {
                        assert(g.contains_key(a));
                    }
                }
            }
            assert(g2[x] =~= rhs[x]);
        } else {
            assert(g2[x] =~= rhs[x]);
        }
    }
    assert(g2 =~= rhs);
}

/// A graph under construction: its adjacency and the objects and links added so far.
struct Builder {
    adj: SortedMap<ObjectRef, SortedMap<ObjectRef, bool>>,
    objects: Ghost<Set<RefView>>,
    links: Ghost<Set<(RefView, RefView)>>,
}

impl Builder {
    spec fn inv(&self) -> bool {
        adjacency_view(self.adj) == graph_of(self.objects@, self.links@)
    }

    fn new() -> (b: Builder)
        ensures
            b.inv(),
            b.objects@ == Set::<RefView>::empty(),
            b.links@ == Set::<(RefView, RefView)>::empty(),
    {
        let b = Builder { adj: SortedMap::new(), objects: Ghost(Set::empty()), links: Ghost(Set::empty()) };
        proof {
            assert(adjacency_view(b.adj) =~= graph_of(Set::empty(), Set::empty()));
        }
        b
    }

    fn object(&mut self, r: ObjectRef)
        requires
            old(self).inv(),
        ensures
            final(self).inv(),
            final(self).objects@ == old(self).objects@.insert(r@),
            final(self).links@ == old(self).links@,
    {
        proof {
            lemma_graph_add_object(self.objects@, self.links@, r@);
        }
        let ghost rv = r@;
        add_object(&mut self.adj, r);
        self.objects = Ghost(self.objects@.insert(rv));
    }

    fn link(&mut self, a: ObjectRef, b: ObjectRef)
        requires
            old(self).inv(),
        ensures
            final(self).inv(),
            final(self).objects@ == old(self).objects@,
            final(self).links@ == old(self).links@.insert((a@, b@)),
    {
        proof {
            lemma_graph_add_link(self.objects@, self.links@, a@, b@);
        }
        let ghost pair = (a@, b@);
        add_link(&mut self.adj, a, b);
        self.links = Ghost(self.links@.insert(pair));
    }
}

/// The objects an edge `e` of flowchart `d` touches: the edge and its two end nodes.
pub open spec fn edge_objects(d: Seq<char>, e: Seq<char>, edge: FlowEdge) -> Set<RefView> {
    set![flow_edge_ref(d, e), flow_node_ref(d, edge.from_node_id@), flow_node_ref(d, edge.to_node_id@)]
}

/// The links an edge makes: from its source node to its target node, and between the edge
/// and each end node, both ways.
pub open spec fn edge_links(d: Seq<char>, e: Seq<char>, edge: FlowEdge) -> Set<(RefView, RefView)> {
    let f = flow_node_ref(d, edge.from_node_id@);
    let t = flow_node_ref(d, edge.to_node_id@);
    let x = flow_edge_ref(d, e);
    set![(f, t), (f, x), (t, x), (x, f), (x, t)]
}

/// The objects of flowchart `d`: its nodes, its edges and their end nodes.
pub open spec fn flow_objects(d: Seq<char>, f: FlowchartAst) -> Set<RefView> {
    Set::new(
        |r: RefView|
            (exists|n: Seq<char>| #[trigger] f.nodes@.contains_key(n) && r == flow_node_ref(d, n))
            || (exists|e: Seq<char>| #[trigger] f.edges@.contains_key(e) && edge_objects(d, e, f.edges@[e]).contains(r)),
    )
}

/// The links of flowchart `d`: those of its edges.
pub open spec fn flow_links(d: Seq<char>, f: FlowchartAst) -> Set<(RefView, RefView)> {
    Set::new(
        |p: (RefView, RefView)| exists|e: Seq<char>| #[trigger] f.edges@.contains_key(e) && edge_links(d, e, f.edges@[e]).contains(p),
    )
}

/// The nodes among the first `i` keys `ks` of flowchart `d`.
spec fn nodes_upto(d: Seq<char>, ks: Seq<Seq<char>>, i: int) -> Set<RefView> {
    Set::new(|r: RefView| exists|j: int| 0 <= j < i && r == flow_node_ref(d, #[trigger] ks[j]))
}

/// The objects of the first `i` edges (keys `ks`, values `vs`) of flowchart `d`.
spec fn edge_objects_upto(d: Seq<char>, ks: Seq<Seq<char>>, vs: Seq<FlowEdge>, i: int) -> Set<RefView> {
    Set::new(|r: RefView| exists|j: int| 0 <= j < i && #[trigger] edge_objects(d, ks[j], vs[j]).contains(r))
}

/// The links of the first `i` edges (keys `ks`, values `vs`) of flowchart `d`.
spec fn edge_links_upto(d: Seq<char>, ks: Seq<Seq<char>>, vs: Seq<FlowEdge>, i: int) -> Set<(RefView, RefView)> {
    Set::new(|p: (RefView, RefView)| exists|j: int| 0 <= j < i && #[trigger] edge_links(d, ks[j], vs[j]).contains(p))
}

/// Adds the objects and links of flowchart `d`.
fn add_flowchart(b: &mut Builder, d: &ObjectId, f: &FlowchartAst)
    requires
        old(b).inv(),
    ensures
        final(b).inv(),
        final(b).objects@ == old(b).objects@ + flow_objects(d@, *f),
        final(b).links@ == old(b).links@ + flow_links(d@, *f),
{
    let ghost o0 = b.objects@;
    let ghost l0 = b.links@;
    let ghost nks = f.nodes.keys_seq();
    proof {
        use_type_invariant(&f.nodes);
        use_type_invariant(&f.edges);
        f.nodes.lemma_shape();
        f.edges.lemma_shape();
    }
    let n = f.nodes.len();
    proof {
        assert(nodes_upto(d@, nks, 0) =~= Set::empty());
        assert(o0 + nodes_upto(d@, nks, 0) =~= o0);
    }
    let mut i: usize = 0;
    while i < n
        invariant
            n == nks.len(),
            nks == f.nodes.keys_seq(),
            i <= n,
            b.inv(),
            b.links@ == l0,
            b.objects@ == o0 + nodes_upto(d@, nks, i as int),
        decreases n - i,
    {
        let ghost before = b.objects@;
        b.object(flow_node_ref_of(d, f.nodes.key_at(i)));
        proof {
            assert(b.objects@ =~= o0 + nodes_upto(d@, nks, i + 1)) by {
                assert forall|r: RefView| b.objects@.contains(r) implies (o0 + nodes_upto(d@, nks, i + 1)).contains(r) by {
                    if r == flow_node_ref(d@, nks[i as int]) {
                        assert(0 <= i < i + 1 && r == flow_node_ref(d@, nks[i as int]));
                    } else if !o0.contains(r) {
                        let j = choose|j: int| 0 <= j < i && r == flow_node_ref(d@, #[trigger] nks[j]);
                        assert(0 <= j < i + 1);
                    }
                }
                assert forall|r: RefView| (o0 + nodes_upto(d@, nks, i + 1)).contains(r) implies b.objects@.contains(r) by {
                    if !o0.contains(r) {
                        let j = choose|j: int| 0 <= j < i + 1 && r == flow_node_ref(d@, #[trigger] nks[j]);
                        if j < i {
                            assert(before.contains(r));
                        }
                    }
                }
            }
        }
        i = i + 1;
    }
    let ghost node_part = nodes_upto(d@, nks, n as int);
    let ghost eks = f.edges.keys_seq();
    let ghost evs = f.edges.vals_seq();
    let m = f.edges.len();
    proof {
        assert(edge_objects_upto(d@, eks, evs, 0) =~= Set::empty());
        assert(edge_links_upto(d@, eks, evs, 0) =~= Set::empty());
        assert(o0 + node_part + edge_objects_upto(d@, eks, evs, 0) =~= o0 + node_part);
        assert(l0 + edge_links_upto(d@, eks, evs, 0) =~= l0);
    }
    let mut i: usize = 0;
    while i < m
        invariant
            m == eks.len(),
            eks == f.edges.keys_seq(),
            evs == f.edges.vals_seq(),
            evs.len() == m,
            i <= m,
            b.inv(),
            b.objects@ == o0 + node_part + edge_objects_upto(d@, eks, evs, i as int),
            b.links@ == l0 + edge_links_upto(d@, eks, evs, i as int),
        decreases m - i,
    {
        let eid = f.edges.key_at(i);
        let edge = f.edges.value_at(i);
        let ghost ob = b.objects@;
        let ghost lb = b.links@;
        let x = flow_edge_ref_of(d, eid);
        let from = flow_node_ref_of(d, &edge.from_node_id);
        let to = flow_node_ref_of(d, &edge.to_node_id);
        b.object(flow_edge_ref_of(d, eid));
        b.object(flow_node_ref_of(d, &edge.from_node_id));
        b.object(flow_node_ref_of(d, &edge.to_node_id));
        b.link(flow_node_ref_of(d, &edge.from_node_id), flow_node_ref_of(d, &edge.to_node_id));
        b.link(from, flow_edge_ref_of(d, eid));
        b.link(to, x);
        b.link(flow_edge_ref_of(d, eid), flow_node_ref_of(d, &edge.from_node_id));
        b.link(flow_edge_ref_of(d, eid), flow_node_ref_of(d, &edge.to_node_id));
        proof {
            let eo = edge_objects(d@, eks[i as int], evs[i as int]);
            let el = edge_links(d@, eks[i as int], evs[i as int]);
            assert(b.objects@ =~= ob + eo);
            assert(b.links@ =~= lb + el);
            let so = edge_objects_upto(d@, eks, evs, i as int);
            let so2 = edge_objects_upto(d@, eks, evs, i + 1);
            assert(so2 =~= so + eo) by {
                assert forall|r: RefView| so2.contains(r) implies (so + eo).contains(r) by {
                    let j = choose|j: int| 0 <= j < i + 1 && #[trigger] edge_objects(d@, eks[j], evs[j]).contains(r);
                    if j < i {
                        assert(so.contains(r));
                    }
                }
                assert forall|r: RefView| (so + eo).contains(r) implies so2.contains(r) by {
                    if eo.contains(r) {
                        assert(0 <= i < i + 1 && edge_objects(d@, eks[i as int], evs[i as int]).contains(r));
                    } else {
                        let j = choose|j: int| 0 <= j < i && #[trigger] edge_objects(d@, eks[j], evs[j]).contains(r);
                        assert(0 <= j < i + 1);
                    }
                }
            }
            let sl = edge_links_upto(d@, eks, evs, i as int);
            let sl2 = edge_links_upto(d@, eks, evs, i + 1);
            assert(sl2 =~= sl + el) by {
                assert forall|p: (RefView, RefView)| sl2.contains(p) implies (sl + el).contains(p) by {
                    let j = choose|j: int| 0 <= j < i + 1 && #[trigger] edge_links(d@, eks[j], evs[j]).contains(p);
                    if j < i {
                        assert(sl.contains(p));
                    }
                }
                assert forall|p: (RefView, RefView)| (sl + el).contains(p) implies sl2.contains(p) by {
                    if el.contains(p) {
                        assert(0 <= i < i + 1 && edge_links(d@, eks[i as int], evs[i as int]).contains(p));
                    } else {
                        let j = choose|j: int| 0 <= j < i && #[trigger] edge_links(d@, eks[j], evs[j]).contains(p);
                        assert(0 <= j < i + 1);
                    }
                }
            }
            assert(b.objects@ =~= o0 + node_part + so2);
            assert(b.links@ =~= l0 + sl2);
        }
        i = i + 1;
    }
    proof {
        f.nodes.lemma_shape();
        f.edges.lemma_shape();
        let eo_all = edge_objects_upto(d@, eks, evs, m as int);
        let el_all = edge_links_upto(d@, eks, evs, m as int);
        assert(node_part + eo_all =~= flow_objects(d@, *f)) by {
            assert forall|r: RefView| (node_part + eo_all).contains(r) implies flow_objects(d@, *f).contains(r) by {
                if node_part.contains(r) {
                    let j = choose|j: int| 0 <= j < n && r == flow_node_ref(d@, #[trigger] nks[j]);
                    assert(f.nodes@.contains_key(nks[j]));
                } else {
                    let j = choose|j: int| 0 <= j < m && #[trigger] edge_objects(d@, eks[j], evs[j]).contains(r);
                    assert(f.edges@.contains_key(eks[j]));
                    assert(f.edges@[eks[j]] == evs[j]);
                }
            }
            assert forall|r: RefView| flow_objects(d@, *f).contains(r) implies (node_part + eo_all).contains(r) by {
                if exists|k: Seq<char>| #[trigger] f.nodes@.contains_key(k) && r == flow_node_ref(d@, k) {
                    let k = choose|k: Seq<char>| #[trigger] f.nodes@.contains_key(k) && r == flow_node_ref(d@, k);
                    assert(nks.contains(k));
                    let j = choose|j: int| 0 <= j < nks.len() && nks[j] == k;
                    assert(node_part.contains(r));
                } else {
                    let k = choose|k: Seq<char>| #[trigger] f.edges@.contains_key(k) && edge_objects(d@, k, f.edges@[k]).contains(r);
                    assert(eks.contains(k));
                    let j = choose|j: int| 0 <= j < eks.len() && eks[j] == k;
                    assert(f.edges@.contains_key(eks[j]) && f.edges@[eks[j]] == evs[j]);
                    assert(eo_all.contains(r));
                }
            }
        }
        assert(el_all =~= flow_links(d@, *f)) by {
            assert forall|p: (RefView, RefView)| el_all.contains(p) implies flow_links(d@, *f).contains(p) by {
                let j = choose|j: int| 0 <= j < m && #[trigger] edge_links(d@, eks[j], evs[j]).contains(p);
                assert(f.edges@.contains_key(eks[j]));
                assert(f.edges@[eks[j]] == evs[j]);
            }
            assert forall|p: (RefView, RefView)| flow_links(d@, *f).contains(p) implies el_all.contains(p) by {
                let k = choose|k: Seq<char>| #[trigger] f.edges@.contains_key(k) && edge_links(d@, k, f.edges@[k]).contains(p);
                assert(eks.contains(k));
                let j = choose|j: int| 0 <= j < eks.len() && eks[j] == k;
                assert(f.edges@.contains_key(eks[j]) && f.edges@[eks[j]] == evs[j]);
            }
        }
        assert(b.objects@ =~= o0 + (node_part + eo_all));
        assert(b.objects@ =~= o0 + flow_objects(d@, *f));
        assert(b.links@ =~= l0 + flow_links(d@, *f));
    }
}

/// The union of `f(0)`, ..., `f(k - 1)`.
pub open spec fn union_upto<A>(f: spec_fn(int) -> Set<A>, k: int) -> Set<A> {
    Set::new(|x: A| exists|j: int| 0 <= j < k && #[trigger] f(j).contains(x))
}

proof fn lemma_union_upto_step<A>(f: spec_fn(int) -> Set<A>, k: int)
    requires
        0 <= k,
    ensures
        union_upto(f, k + 1) == union_upto(f, k) + f(k),
        union_upto(f, 0) == Set::<A>::empty(),
{
    assert(union_upto(f, k + 1) =~= union_upto(f, k) + f(k)) by {
        assert forall|x: A| #[trigger] union_upto(f, k + 1).contains(x) implies (union_upto(f, k) + f(k)).contains(x) by {
            let j = choose|j: int| 0 <= j < k + 1 && #[trigger] f(j).contains(x);
            if j < k {
                assert(union_upto(f, k).contains(x));
            }
        }
        assert forall|x: A| #[trigger] (union_upto(f, k) + f(k)).contains(x) implies union_upto(f, k + 1).contains(x) by {
            if f(k).contains(x) {
                assert(0 <= k < k + 1 && f(k).contains(x));
            } else {
                let j = choose|j: int| 0 <= j < k && #[trigger] f(j).contains(x);
                assert(0 <= j < k + 1);
            }
        }
    }
    assert(union_upto(f, 0) =~= Set::<A>::empty());
}

/// The objects a message of sequence diagram `d` touches: the message and its two participants.
pub open spec fn message_objects(d: Seq<char>, m: MessageView) -> Set<RefView> {
    set![
        seq_message_ref(d, m.message_id),
        seq_participant_ref(d, m.from_participant_id),
        seq_participant_ref(d, m.to_participant_id),
    ]
}

/// The links message `k` of the ordered messages `ms` makes: with each of its participants,
/// both ways, and from the message just before it.
pub open spec fn message_links(d: Seq<char>, ms: Seq<MessageView>, k: int) -> Set<(RefView, RefView)> {
    let x = seq_message_ref(d, ms[k].message_id);
    let f = seq_participant_ref(d, ms[k].from_participant_id);
    let t = seq_participant_ref(d, ms[k].to_participant_id);
    let own = set![(f, x), (x, f), (t, x), (x, t)];
    if k > 0 {
        own.insert((seq_message_ref(d, ms[k - 1].message_id), x))
    } else {
        own
    }
}

/// The objects of each message, by position in `ms`.
pub open spec fn message_objects_at(d: Seq<char>, ms: Seq<MessageView>) -> spec_fn(int) -> Set<RefView> {
    |k: int| message_objects(d, ms[k])
}

/// The links of each message, by position in `ms`.
pub open spec fn message_links_at(d: Seq<char>, ms: Seq<MessageView>) -> spec_fn(int) -> Set<(RefView, RefView)> {
    |k: int| message_links(d, ms, k)
}

/// The participant objects of sequence diagram `d`.
pub open spec fn participant_objects(d: Seq<char>, s: SequenceAst) -> Set<RefView> {
    Set::new(|r: RefView| exists|p: Seq<char>| #[trigger] s.participants@.contains_key(p) && r == seq_participant_ref(d, p))
}

/// The objects of sequence diagram `d`: its participants, and each message with its participants.
pub open spec fn seq_objects(d: Seq<char>, s: SequenceAst) -> Set<RefView> {
    let ms = sort_messages(message_views(s.messages@));
    participant_objects(d, s) + union_upto(message_objects_at(d, ms), ms.len() as int)
}

/// The links of sequence diagram `d`, its messages taken in order.
pub open spec fn seq_links(d: Seq<char>, s: SequenceAst) -> Set<(RefView, RefView)> {
    let ms = sort_messages(message_views(s.messages@));
    union_upto(message_links_at(d, ms), ms.len() as int)
}

/// The participant objects of the first `i` keys `ks`.
spec fn participants_upto(d: Seq<char>, ks: Seq<Seq<char>>, i: int) -> Set<RefView> {
    Set::new(|r: RefView| exists|j: int| 0 <= j < i && r == seq_participant_ref(d, #[trigger] ks[j]))
}

/// Adds the objects and links of sequence diagram `d`.
fn add_sequence(b: &mut Builder, d: &ObjectId, s: &SequenceAst)
    requires
        old(b).inv(),
    ensures
        final(b).inv(),
        final(b).objects@ == old(b).objects@ + seq_objects(d@, *s),
        final(b).links@ == old(b).links@ + seq_links(d@, *s),
{
    let ghost o0 = b.objects@;
    let ghost l0 = b.links@;
    let ghost pks = s.participants.keys_seq();
    proof {
        use_type_invariant(&s.participants);
        s.participants.lemma_shape();
        assert(participants_upto(d@, pks, 0) =~= Set::empty());
        assert(o0 + participants_upto(d@, pks, 0) =~= o0);
    }
    let n = s.participants.len();
    let mut i: usize = 0;
    while i < n
        invariant
            n == pks.len(),
            pks == s.participants.keys_seq(),
            i <= n,
            b.inv(),
            b.links@ == l0,
            b.objects@ == o0 + participants_upto(d@, pks, i as int),
        decreases n - i,
    {
        let ghost before = b.objects@;
        b.object(participant_ref_of(d, s.participants.key_at(i)));
        proof {
            assert(b.objects@ =~= o0 + participants_upto(d@, pks, i + 1)) by {
                assert forall|r: RefView| b.objects@.contains(r) implies (o0 + participants_upto(d@, pks, i + 1)).contains(r) by {
                    if r == seq_participant_ref(d@, pks[i as int]) {
                        assert(0 <= i < i + 1 && r == seq_participant_ref(d@, pks[i as int]));
                    } else if !o0.contains(r) {
                        let j = choose|j: int| 0 <= j < i && r == seq_participant_ref(d@, #[trigger] pks[j]);
                        assert(0 <= j < i + 1);
                    }
                }
                assert forall|r: RefView| (o0 + participants_upto(d@, pks, i + 1)).contains(r) implies b.objects@.contains(r) by {
                    if !o0.contains(r) {
                        let j = choose|j: int| 0 <= j < i + 1 && r == seq_participant_ref(d@, #[trigger] pks[j]);
                        if j < i {
                            assert(before.contains(r));
                        }
                    }
                }
            }
        }
        i = i + 1;
    }
    let ghost ppart = participants_upto(d@, pks, n as int);
    let msgs = s.messages_in_order();
    let ghost ms = message_views(msgs@);
    let ghost fo = message_objects_at(d@, ms);
    let ghost fl = message_links_at(d@, ms);
    proof {
        lemma_union_upto_step(fo, 0);
        lemma_union_upto_step(fl, 0);
        assert(o0 + ppart + union_upto(fo, 0) =~= o0 + ppart);
        assert(l0 + union_upto(fl, 0) =~= l0);
    }
    let m = msgs.len();
    let mut k: usize = 0;
    while k < m
        invariant
            m == msgs@.len(),
            ms == message_views(msgs@),
            fo == message_objects_at(d@, ms),
            fl == message_links_at(d@, ms),
            k <= m,
            b.inv(),
            b.objects@ == o0 + ppart + union_upto(fo, k as int),
            b.links@ == l0 + union_upto(fl, k as int),
        decreases m - k,
    {
        let ghost ob = b.objects@;
        let ghost lb = b.links@;
        let msg = &msgs[k];
        b.object(message_ref_of(d, &msg.message_id));
        b.object(participant_ref_of(d, &msg.from_participant_id));
        b.object(participant_ref_of(d, &msg.to_participant_id));
        if k > 0 {
            b.link(message_ref_of(d, &msgs[k - 1].message_id), message_ref_of(d, &msg.message_id));
        }
        b.link(participant_ref_of(d, &msg.from_participant_id), message_ref_of(d, &msg.message_id));
        b.link(message_ref_of(d, &msg.message_id), participant_ref_of(d, &msg.from_participant_id));
        b.link(participant_ref_of(d, &msg.to_participant_id), message_ref_of(d, &msg.message_id));
        b.link(message_ref_of(d, &msg.message_id), participant_ref_of(d, &msg.to_participant_id));
        proof {
            lemma_union_upto_step(fo, k as int);
            lemma_union_upto_step(fl, k as int);
            assert(ms[k as int] == msgs@[k as int]@);
            if k > 0 {
                assert(ms[k - 1] == msgs@[k - 1]@);
            }
            assert(b.objects@ =~= ob + fo(k as int));
            assert(b.links@ =~= lb + fl(k as int));
            assert(b.objects@ =~= o0 + ppart + union_upto(fo, k + 1));
            assert(b.links@ =~= l0 + union_upto(fl, k + 1));
        }
        k = k + 1;
    }
    proof {
        s.participants.lemma_shape();
        assert(ppart =~= participant_objects(d@, *s)) by {
            assert forall|r: RefView| ppart.contains(r) implies participant_objects(d@, *s).contains(r) by {
                let j = choose|j: int| 0 <= j < n && r == seq_participant_ref(d@, #[trigger] pks[j]);
                assert(s.participants@.contains_key(pks[j]));
            }
            assert forall|r: RefView| participant_objects(d@, *s).contains(r) implies ppart.contains(r) by {
                let p = choose|p: Seq<char>| #[trigger] s.participants@.contains_key(p) && r == seq_participant_ref(d@, p);
                assert(pks.contains(p));
                let j = choose|j: int| 0 <= j < pks.len() && pks[j] == p;
                assert(r == seq_participant_ref(d@, pks[j]));
            }
        }
        assert(b.objects@ =~= o0 + seq_objects(d@, *s));
        assert(b.links@ =~= l0 + seq_links(d@, *s));
    }
}

/// The links a cross-reference makes: between its two ends, both ways.
pub open spec fn xref_links(x: XRef) -> Set<(RefView, RefView)> {
    set![(x.from@, x.to@), (x.to@, x.from@)]
}

/// The objects of a diagram.
pub open spec fn diagram_objects(g: Diagram) -> Set<RefView> {
    match g.ast {
        DiagramAst::Flowchart(f) => flow_objects(g.diagram_id@, f),
        DiagramAst::Sequence(q) => seq_objects(g.diagram_id@, q),
    }
}

/// The links of a diagram.
pub open spec fn diagram_links(g: Diagram) -> Set<(RefView, RefView)> {
    match g.ast {
        DiagramAst::Flowchart(f) => flow_links(g.diagram_id@, f),
        DiagramAst::Sequence(q) => seq_links(g.diagram_id@, q),
    }
}

/// The objects of a session: those of its diagrams.
pub open spec fn session_objects(s: Session) -> Set<RefView> {
    Set::new(|r: RefView| exists|id: Seq<char>| #[trigger] s.diagrams@.contains_key(id) && diagram_objects(s.diagrams@[id]).contains(r))
}

/// The links of a session: those of its diagrams and of its cross-references.
pub open spec fn session_links(s: Session) -> Set<(RefView, RefView)> {
    Set::new(
        |p: (RefView, RefView)|
            (exists|id: Seq<char>| #[trigger] s.diagrams@.contains_key(id) && diagram_links(s.diagrams@[id]).contains(p))
            || (exists|id: Seq<char>| #[trigger] s.xrefs@.contains_key(id) && xref_links(s.xrefs@[id]).contains(p)),
    )
}

/// The graph that routes of a session follow.
pub open spec fn session_graph(s: Session) -> Map<RefView, Set<RefView>> {
    graph_of(session_objects(s), session_links(s))
}

/// The objects of each diagram, by position among the values `vs`.
pub open spec fn diagram_objects_at(vs: Seq<Diagram>) -> spec_fn(int) -> Set<RefView> {
    |k: int| diagram_objects(vs[k])
}

/// The links of each diagram, by position among the values `vs`.
pub open spec fn diagram_links_at(vs: Seq<Diagram>) -> spec_fn(int) -> Set<(RefView, RefView)> {
    |k: int| diagram_links(vs[k])
}

/// The links of each cross-reference, by position among the values `vs`.
pub open spec fn xref_links_at(vs: Seq<XRef>) -> spec_fn(int) -> Set<(RefView, RefView)> {
    |k: int| xref_links(vs[k])
}

/// Within a session, the messages of one sequence diagram link only forward, each to the
/// message right after it in message order: a message never links back to an earlier one, nor
/// past the next (unless a cross-reference joins the two).
pub proof fn lemma_message_links_run_forward(s: Session, key: Seq<char>, q: SequenceAst, i: int, j: int)
    requires
        s.diagrams@.contains_key(key),
        s.diagrams@[key].ast == DiagramAst::Sequence(q),
        forall|k2: Seq<char>| #[trigger] s.diagrams@.contains_key(k2) && s.diagrams@[k2].diagram_id@ == s.diagrams@[key].diagram_id@
            ==> k2 == key,
        0 <= i < sort_messages(message_views(q.messages@)).len(),
        0 <= j < sort_messages(message_views(q.messages@)).len(),
        forall|a: int, b: int| 0 <= a < b < sort_messages(message_views(q.messages@)).len()
            ==> #[trigger] sort_messages(message_views(q.messages@))[a].message_id
                != #[trigger] sort_messages(message_views(q.messages@))[b].message_id,
        forall|xid: Seq<char>| #[trigger] s.xrefs@.contains_key(xid) ==> {
            let d = s.diagrams@[key].diagram_id@;
            let ms = sort_messages(message_views(q.messages@));
            let x = seq_message_ref(d, ms[i].message_id);
            let y = seq_message_ref(d, ms[j].message_id);
            !((s.xrefs@[xid].from@ == x && s.xrefs@[xid].to@ == y) || (s.xrefs@[xid].from@ == y && s.xrefs@[xid].to@ == x))
        },
    ensures
        ({
            let d = s.diagrams@[key].diagram_id@;
            let ms = sort_messages(message_views(q.messages@));
            let x = seq_message_ref(d, ms[i].message_id);
            let y = seq_message_ref(d, ms[j].message_id);
            (session_graph(s).contains_key(x) && session_graph(s)[x].contains(y)) <==> j == i + 1
        }),
{
    let d = s.diagrams@[key].diagram_id@;
    let ms = sort_messages(message_views(q.messages@));
    let x = seq_message_ref(d, ms[i].message_id);
    let y = seq_message_ref(d, ms[j].message_id);
    let links = session_links(s);
    reveal_strlit("seq");
    reveal_strlit("flow");
    reveal_strlit("message");
    reveal_strlit("participant");
    assert("seq"@ != "flow"@) by {
        assert("seq"@.len() != "flow"@.len());
    }
    assert("message"@ != "participant"@) by {
        assert("message"@.len() != "participant"@.len());
    }
    if j == i + 1 {
        let f = message_links_at(d, ms);
        assert(message_links(d, ms, j).contains((x, y)));
        assert(f(j).contains((x, y)));
        assert(union_upto(f, ms.len() as int).contains((x, y)));
        assert(diagram_links(s.diagrams@[key]).contains((x, y)));
        assert(links.contains((x, y)));
        assert(session_graph(s).contains_key(x));
    }
    if session_graph(s).contains_key(x) && session_graph(s)[x].contains(y) {
        assert(links.contains((x, y)));
        if exists|xid: Seq<char>| #[trigger] s.xrefs@.contains_key(xid) && xref_links(s.xrefs@[xid]).contains((x, y)) {
            let xid = choose|xid: Seq<char>| #[trigger] s.xrefs@.contains_key(xid) && xref_links(s.xrefs@[xid]).contains((x, y));
            assert(false);
        }
        let k2 = choose|k2: Seq<char>| #[trigger] s.diagrams@.contains_key(k2) && diagram_links(s.diagrams@[k2]).contains((x, y));
        let g2 = s.diagrams@[k2];
        match g2.ast {
            DiagramAst::Flowchart(fl) => {
                let e = choose|e: Seq<char>| #[trigger] fl.edges@.contains_key(e) && edge_links(g2.diagram_id@, e, fl.edges@[e]).contains((x, y));
                assert(x.1[0] == "seq"@);
                assert(flow_node_ref(g2.diagram_id@, fl.edges@[e].from_node_id@).1[0] == "flow"@);
                assert(flow_edge_ref(g2.diagram_id@, e).1[0] == "flow"@);
                assert(false);
            },
            DiagramAst::Sequence(q2) => {
                let ms2 = sort_messages(message_views(q2.messages@));
                let f2 = message_links_at(g2.diagram_id@, ms2);
                assert(union_upto(f2, ms2.len() as int).contains((x, y)));
                let k = choose|k: int| 0 <= k < ms2.len() && #[trigger] f2(k).contains((x, y));
                assert(message_links(g2.diagram_id@, ms2, k).contains((x, y)));
                assert(x.1[1] == "message"@);
                assert(seq_participant_ref(g2.diagram_id@, ms2[k].from_participant_id).1[1] == "participant"@);
                assert(seq_participant_ref(g2.diagram_id@, ms2[k].to_participant_id).1[1] == "participant"@);
                assert(k > 0);
                assert(x == seq_message_ref(g2.diagram_id@, ms2[k - 1].message_id));
                assert(y == seq_message_ref(g2.diagram_id@, ms2[k].message_id));
                assert(g2.diagram_id@ == d);
                assert(k2 == key);
                assert(q2 == q);
                assert(ms2[k - 1].message_id == ms[i].message_id);
                assert(ms2[k].message_id == ms[j].message_id);
                if k - 1 != i {
                    if k - 1 < i {
                        assert(ms[k - 1].message_id != ms[i].message_id);
                    } else {
                        assert(ms[i].message_id != ms[k - 1].message_id);
                    }
                }
                if k != j {
                    if k < j {
                        assert(ms[k].message_id != ms[j].message_id);
                    } else {
                        assert(ms[j].message_id != ms[k].message_id);
                    }
                }
            },
        }
    }
}

/// The links between session objects, from which routes are found.
pub struct SessionRouteAdjacency {
    adjacency: SortedMap<ObjectRef, SortedMap<ObjectRef, bool>>,
}

impl SessionRouteAdjacency {
    /// The graph: each object with the targets of its links.
    pub closed spec fn graph(&self) -> Map<RefView, Set<RefView>> {
        adjacency_view(self.adjacency)
    }

    /// The adjacency of every object and link of the session's diagrams and cross-references.
    pub fn derive(session: &Session) -> (r: SessionRouteAdjacency)
        ensures
            r.graph() == session_graph(*session),
    {
        let mut b = Builder::new();
        let ghost dvs = session.diagrams.vals_seq();
        let ghost fo = diagram_objects_at(dvs);
        let ghost fl = diagram_links_at(dvs);
        proof {
            use_type_invariant(&session.diagrams);
            use_type_invariant(&session.xrefs);
            session.diagrams.lemma_shape();
            session.xrefs.lemma_shape();
            lemma_union_upto_step(fo, 0);
            lemma_union_upto_step(fl, 0);
        }
        let n = session.diagrams.len();
        let mut i: usize = 0;
        while i < n
            invariant
                n == dvs.len(),
                n == session.diagrams.keys_seq().len(),
                dvs == session.diagrams.vals_seq(),
                fo == diagram_objects_at(dvs),
                fl == diagram_links_at(dvs),
                i <= n,
                b.inv(),
                b.objects@ == union_upto(fo, i as int),
                b.links@ == union_upto(fl, i as int),
            decreases n - i,
        {
            let g = session.diagrams.value_at(i);
            match &g.ast {
                DiagramAst::Flowchart(f) => add_flowchart(&mut b, &g.diagram_id, f),
                DiagramAst::Sequence(q) => add_sequence(&mut b, &g.diagram_id, q),
            }
            proof {
                lemma_union_upto_step(fo, i as int);
                lemma_union_upto_step(fl, i as int);
            }
            i = i + 1;
        }
        let ghost xvs = session.xrefs.vals_seq();
        let ghost fx = xref_links_at(xvs);
        let ghost ld = b.links@;
        proof {
            lemma_union_upto_step(fx, 0);
            assert(ld + union_upto(fx, 0) =~= ld);
        }
        let m = session.xrefs.len();
        let mut k: usize = 0;
        while k < m
            invariant
                m == xvs.len(),
                m == session.xrefs.keys_seq().len(),
                xvs == session.xrefs.vals_seq(),
                fx == xref_links_at(xvs),
                k <= m,
                b.inv(),
                b.objects@ == union_upto(fo, n as int),
                b.links@ == ld + union_upto(fx, k as int),
            decreases m - k,
        {
            let x = session.xrefs.value_at(k);
            let ghost lb = b.links@;
            b.link(x.from.key_dup(), x.to.key_dup());
            b.link(x.to.key_dup(), x.from.key_dup());
            proof {
                lemma_union_upto_step(fx, k as int);
                assert(b.links@ =~= lb + fx(k as int));
                assert(b.links@ =~= ld + union_upto(fx, k + 1));
            }
            k = k + 1;
        }
        proof {
            session.diagrams.lemma_shape();
            session.xrefs.lemma_shape();
            let dks = session.diagrams.keys_seq();
            let xks = session.xrefs.keys_seq();
            assert(union_upto(fo, n as int) =~= session_objects(*session)) by {
                assert forall|r: RefView| union_upto(fo, n as int).contains(r) implies session_objects(*session).contains(r) by {
                    let j = choose|j: int| 0 <= j < n && #[trigger] fo(j).contains(r);
                    assert(session.diagrams@.contains_key(dks[j]));
                }
                assert forall|r: RefView| session_objects(*session).contains(r) implies union_upto(fo, n as int).contains(r) by {
                    let id = choose|id: Seq<char>| #[trigger] session.diagrams@.contains_key(id) && diagram_objects(session.diagrams@[id]).contains(r);
                    assert(dks.contains(id));
                    let j = choose|j: int| 0 <= j < dks.len() && dks[j] == id;
                    assert(fo(j).contains(r));
                }
            }
            assert(ld + union_upto(fx, m as int) =~= session_links(*session)) by {
                assert forall|p: (RefView, RefView)| (ld + union_upto(fx, m as int)).contains(p) implies session_links(*session).contains(p) by {
                    if ld.contains(p) {
                        let j = choose|j: int| 0 <= j < n && #[trigger] fl(j).contains(p);
                        assert(session.diagrams@.contains_key(dks[j]));
                    } else {
                        let j = choose|j: int| 0 <= j < m && #[trigger] fx(j).contains(p);
                        assert(session.xrefs@.contains_key(xks[j]));
                    }
                }
                assert forall|p: (RefView, RefView)| session_links(*session).contains(p) implies (ld + union_upto(fx, m as int)).contains(p) by {
                    if exists|id: Seq<char>| #[trigger] session.diagrams@.contains_key(id) && diagram_links(session.diagrams@[id]).contains(p) {
                        let id = choose|id: Seq<char>| #[trigger] session.diagrams@.contains_key(id) && diagram_links(session.diagrams@[id]).contains(p);
                        assert(dks.contains(id));
                        let j = choose|j: int| 0 <= j < dks.len() && dks[j] == id;
                        assert(fl(j).contains(p));
                    } else {
                        let id = choose|id: Seq<char>| #[trigger] session.xrefs@.contains_key(id) && xref_links(session.xrefs@[id]).contains(p);
                        assert(xks.contains(id));
                        let j = choose|j: int| 0 <= j < xks.len() && xks[j] == id;
                        assert(fx(j).contains(p));
                    }
                }
            }
        }
        SessionRouteAdjacency { adjacency: b.adj }
    }
}

/// Object `i + 1` of `p` is a target of a link from object `i`.
pub open spec fn step(g: Map<RefView, Set<RefView>>, p: Seq<RefView>, i: int) -> bool {
    g.contains_key(p[i]) && g[p[i]].contains(p[i + 1])
}

/// `p` follows links of `g`: each object after the first is a target of the one before.
pub open spec fn is_walk(g: Map<RefView, Set<RefView>>, p: Seq<RefView>) -> bool {
    forall|i: int| 0 <= i < p.len() - 1 ==> #[trigger] step(g, p, i)
}

/// `p` is a walk of `g` from `a` to `b`.
pub open spec fn is_route(g: Map<RefView, Set<RefView>>, p: Seq<RefView>, a: RefView, b: RefView) -> bool {
    &&& p.len() >= 1
    &&& p[0] == a
    &&& p.last() == b
    &&& is_walk(g, p)
}

/// Some walk of `g` leads from `a` to `b`.
pub open spec fn reachable(g: Map<RefView, Set<RefView>>, a: RefView, b: RefView) -> bool {
    exists|p: Seq<RefView>| #[trigger] is_route(g, p, a, b)
}

/// The views of a sequence of references.
pub open spec fn ref_views(p: Seq<ObjectRef>) -> Seq<RefView> {
    p.map_values(|r: ObjectRef| r@)
}

/// A set holding the first object of a walk, and every target of each of its objects that has
/// links, holds the whole walk.
proof fn lemma_closed_holds_walk(g: Map<RefView, Set<RefView>>, v: Set<RefView>, p: Seq<RefView>)
    requires
        p.len() >= 1,
        v.contains(p[0]),
        is_walk(g, p),
        forall|a: RefView, b: RefView| #[trigger] v.contains(a) && g.contains_key(a) && #[trigger] g[a].contains(b) ==> v.contains(b),
    ensures
        v.contains(p.last()),
    decreases p.len(),
{
    if p.len() > 1 {
        let q = p.drop_last();
        assert forall|i: int| 0 <= i < q.len() - 1 implies #[trigger] step(g, q, i) by {
            assert(step(g, p, i));
        }
        lemma_closed_holds_walk(g, v, q);
        assert(step(g, p, p.len() - 2));
    }
}

/// Whether two references are the same.
fn same_ref(a: &ObjectRef, b: &ObjectRef) -> (r: bool)
    ensures
        r <==> a@ == b@,
{
    match a.compare_key(b) {
        CmpResult::Equal => true,
        _ => false,
    }
}

/// Reaching `nv`, a target of the object at the front of the queue, one layer further than
/// that object, keeps the layers.
proof fn lemma_record_layered(
    s0: Search,
    s1: Search,
    g: Map<RefView, Set<RefView>>,
    a: RefView,
    qi: int,
    nv: RefView,
    pu: ObjectRef,
    qn: ObjectRef,
    pushed: bool,
)
    requires
        s0.layered(g, a, qi),
        0 <= qi < s0.queue@.len(),
        pu@ == s0.queue@[qi]@,
        s0.visited@.contains_key(a),
        forall|j: int| 0 <= j < s0.queue@.len() ==> s0.visited@.contains_key(#[trigger] s0.queue@[j]@),
        forall|v: RefView| #[trigger] s0.visited@.contains_key(v) && v != a ==> s0.visited@.contains_key(s0.previous@[v]@),
        !s0.visited@.contains_key(nv),
        s1.visited@ == s0.visited@.insert(nv, true),
        s1.previous@ == s0.previous@.insert(nv, pu),
        s1.dist@ == s0.dist@.insert(nv, s0.dist@[pu@] + 1),
        pushed ==> s1.queue@ == s0.queue@.push(qn) && qn@ == nv,
        !pushed ==> s1.queue@ == s0.queue@ && !g.contains_key(nv),
    ensures
        s1.layered(g, a, qi),
{
    reveal(Search::layered);
    let d0 = s0.dist@[s0.queue@[qi]@];
    assert(s0.visited@.contains_key(s0.queue@[qi]@) ==> s0.dist@[pu@] <= d0 + 1);
    assert(s1.dist@.dom() =~= s1.visited@.dom());
    assert(s1.queue@[qi] == s0.queue@[qi]);
    assert forall|v: RefView| #[trigger] s1.visited@.contains_key(v) && v != a implies s1.dist@[v] == s1.dist@[s1.previous@[v]@] + 1 by {
        if v != nv {
            assert(s0.visited@.contains_key(v));
            assert(s0.visited@.contains_key(s0.previous@[v]@));
            assert(s0.dist@[v] == s0.dist@[s0.previous@[v]@] + 1);
        } else {
            assert(s0.visited@.contains_key(s0.queue@[qi]@));
        }
    }
    assert forall|j: int| qi <= j < s1.queue@.len() implies d0 <= #[trigger] s1.dist@[s1.queue@[j]@] <= d0 + 1 by {
        if j < s0.queue@.len() {
            assert(s1.queue@[j] == s0.queue@[j]);
            assert(s0.visited@.contains_key(s0.queue@[j]@));
            assert(d0 <= s0.dist@[s0.queue@[j]@] <= d0 + 1);
        } else {
            assert(s0.visited@.contains_key(s0.queue@[qi]@));
        }
    }
    assert forall|j1: int, j2: int| qi <= j1 < j2 < s1.queue@.len()
        implies #[trigger] s1.dist@[s1.queue@[j1]@] <= #[trigger] s1.dist@[s1.queue@[j2]@] by {
        assert(s1.queue@[j1] == s0.queue@[j1]);
        assert(d0 <= s0.dist@[s0.queue@[j1]@] <= d0 + 1);
        assert(s0.visited@.contains_key(s0.queue@[j1]@));
        if j2 < s0.queue@.len() {
            assert(s0.visited@.contains_key(s0.queue@[j2]@));
            assert(s1.queue@[j2] == s0.queue@[j2]);
            assert(s0.dist@[s0.queue@[j1]@] <= s0.dist@[s0.queue@[j2]@]);
        }
    }
    assert forall|v: RefView| #[trigger] s1.visited@.contains_key(v) && g.contains_key(v) implies
        (exists|j: int| qi <= j < s1.queue@.len() && #[trigger] s1.queue@[j]@ == v)
        || (forall|w: RefView| #[trigger] g[v].contains(w)
            ==> s1.visited@.contains_key(w) && s1.dist@[w] <= s1.dist@[v] + 1) by {
        if v == nv {
            assert(s1.queue@[s1.queue@.len() - 1]@ == nv);
        } else {
            assert(s0.visited@.contains_key(v));
            if exists|j: int| qi <= j < s0.queue@.len() && #[trigger] s0.queue@[j]@ == v {
                let j = choose|j: int| qi <= j < s0.queue@.len() && #[trigger] s0.queue@[j]@ == v;
                assert(s1.queue@[j] == s0.queue@[j]);
            } else {
                assert forall|w: RefView| #[trigger] g[v].contains(w)
                    implies s1.visited@.contains_key(w) && s1.dist@[w] <= s1.dist@[v] + 1 by {
                    assert(s0.visited@.contains_key(w));
                }
            }
        }
    }
}

/// Once every target of the object at the front of the queue is reached, the search moves on
/// to the next object and keeps the layers.
proof fn lemma_advance_layered(s: Search, g: Map<RefView, Set<RefView>>, a: RefView, qi: int)
    requires
        s.layered(g, a, qi),
        0 <= qi < s.queue@.len(),
        s.visited@.contains_key(s.queue@[qi]@),
        g.contains_key(s.queue@[qi]@) ==> forall|w: RefView| #[trigger] g[s.queue@[qi]@].contains(w) ==> s.visited@.contains_key(w),
    ensures
        s.layered(g, a, qi + 1),
{
    reveal(Search::layered);
    let uv = s.queue@[qi]@;
    let d0 = s.dist@[uv];
    if qi + 1 < s.queue@.len() {
        let d1 = s.dist@[s.queue@[qi + 1]@];
        assert(d0 <= d1 <= d0 + 1);
        assert forall|j: int| qi + 1 <= j < s.queue@.len() implies d1 <= #[trigger] s.dist@[s.queue@[j]@] <= d1 + 1 by {
            assert(d0 <= s.dist@[s.queue@[j]@] <= d0 + 1);
            if j > qi + 1 {
                assert(s.dist@[s.queue@[qi + 1]@] <= s.dist@[s.queue@[j]@]);
            }
        }
    }
    assert forall|v: RefView| #[trigger] s.visited@.contains_key(v) && g.contains_key(v) implies
        (exists|j: int| qi + 1 <= j < s.queue@.len() && #[trigger] s.queue@[j]@ == v)
        || (forall|w: RefView| #[trigger] g[v].contains(w)
            ==> s.visited@.contains_key(w) && s.dist@[w] <= s.dist@[v] + 1) by {
        if v == uv {
            assert forall|w: RefView| #[trigger] g[v].contains(w)
                implies s.visited@.contains_key(w) && s.dist@[w] <= s.dist@[v] + 1 by {
                assert(s.visited@.contains_key(w));
            }
        } else if exists|j: int| qi <= j < s.queue@.len() && #[trigger] s.queue@[j]@ == v {
            let j = choose|j: int| qi <= j < s.queue@.len() && #[trigger] s.queue@[j]@ == v;
            assert(j != qi);
        }
    }
}

/// While the front of the queue lies `d0` links from `a`, every walk from `a` of at most `d0`
/// links ends at an object already reached.
proof fn lemma_short_walks_reached(s: Search, g: Map<RefView, Set<RefView>>, a: RefView, qi: int, p: Seq<RefView>)
    requires
        s.layered(g, a, qi),
        0 <= qi < s.queue@.len(),
        s.visited@.contains_key(a),
        p.len() >= 1,
        p[0] == a,
        is_walk(g, p),
        p.len() - 1 <= s.dist@[s.queue@[qi]@],
    ensures
        s.visited@.contains_key(p.last()),
        s.dist@[p.last()] <= p.len() - 1,
    decreases p.len(),
{
    reveal(Search::layered);
    if p.len() > 1 {
        let q = p.drop_last();
        assert forall|i: int| 0 <= i < q.len() - 1 implies #[trigger] step(g, q, i) by {
            assert(step(g, p, i));
        }
        lemma_short_walks_reached(s, g, a, qi, q);
        let x = q.last();
        assert(step(g, p, p.len() - 2));
        assert(g.contains_key(x) && g[x].contains(p.last()));
        if exists|j: int| qi <= j < s.queue@.len() && #[trigger] s.queue@[j]@ == x {
            let j = choose|j: int| qi <= j < s.queue@.len() && #[trigger] s.queue@[j]@ == x;
            assert(s.dist@[s.queue@[qi]@] <= s.dist@[s.queue@[j]@]);
        }
    }
}

/// Paths of equal length, each extended by one object, compare as the paths do, and by the
/// added objects when the paths are equal.
proof fn lemma_refs_lt_push(s: Seq<RefView>, t: Seq<RefView>, x: RefView, y: RefView)
    requires
        s.len() == t.len(),
    ensures
        refs_lt(s.push(x), t.push(y)) == (refs_lt(s, t) || (s == t && ref_lt(x, y))),
    decreases s.len(),
{
    if s.len() == 0 {
        assert(s =~= t);
        assert(s.push(x) =~= seq![x]);
        assert(t.push(y) =~= seq![y]);
        assert(seq![x].drop_first() =~= Seq::<RefView>::empty());
        assert(seq![y].drop_first() =~= Seq::<RefView>::empty());
        if x == y {
            <ObjectRef as OrdKey>::lemma_key_irreflexive(x);
            assert(!refs_lt(seq![x].drop_first(), seq![y].drop_first()));
        }
        assert(!refs_lt(s, t));
        assert(refs_lt(s.push(x), t.push(y)) == (if x != y { ref_lt(x, y) } else { refs_lt(seq![x].drop_first(), seq![y].drop_first()) }));
    } else {
        assert(s.push(x)[0] == s[0]);
        assert(t.push(y)[0] == t[0]);
        if s[0] == t[0] {
            lemma_refs_lt_push(s.drop_first(), t.drop_first(), x, y);
            assert(s.push(x).drop_first() =~= s.drop_first().push(x));
            assert(t.push(y).drop_first() =~= t.drop_first().push(y));
            if s.drop_first() == t.drop_first() {
                assert forall|i: int| 0 <= i < s.len() implies s[i] == t[i] by {
                    if i > 0 {
                        assert(s[i] == s.drop_first()[i - 1]);
                        assert(t[i] == t.drop_first()[i - 1]);
                    }
                }
                assert(s =~= t);
            }
            if s == t {
                assert(s.drop_first() == t.drop_first());
            }
            assert(refs_lt(s, t) == refs_lt(s.drop_first(), t.drop_first()));
            assert(refs_lt(s.push(x), t.push(y)) == refs_lt(s.push(x).drop_first(), t.push(y).drop_first()));
        } else {
            assert(s != t);
            assert(refs_lt(s, t) == ref_lt(s[0], t[0]));
            assert(refs_lt(s.push(x), t.push(y)) == ref_lt(s[0], t[0]));
        }
    }
}

/// A newly reached object `w`, a target of the front `u` of the queue: no route to it of one
/// more than `u`'s path length comes before `u`'s path followed by `w`.
proof fn lemma_new_least(s: Search, g: Map<RefView, Set<RefView>>, a: RefView, qi: int, w: RefView)
    requires
        s.layered(g, a, qi),
        s.lexed(g, a, qi, false),
        0 <= qi < s.queue@.len(),
        s.visited@.contains_key(a),
        !s.visited@.contains_key(w),
        g.contains_key(s.queue@[qi]@),
        g[s.queue@[qi]@].contains(w),
        forall|j: int| 0 <= j < s.queue@.len() ==> s.visited@.contains_key(#[trigger] s.queue@[j]@),
    ensures
        forall|q: Seq<RefView>| #[trigger] is_route(g, q, a, w) && q.len() == s.tp@[s.queue@[qi]@].len() + 1
            ==> !refs_lt(q, s.tp@[s.queue@[qi]@].push(w)),
{
    reveal(Search::lexed);
    reveal(Search::tree_ok);
    let u = s.queue@[qi]@;
    let tu = s.tp@[u];
    assert(s.visited@.contains_key(u));
    assert forall|q: Seq<RefView>| #[trigger] is_route(g, q, a, w) && q.len() == tu.len() + 1 implies !refs_lt(q, tu.push(w)) by {
        let q1 = q.drop_last();
        assert forall|i: int| 0 <= i < q1.len() - 1 implies #[trigger] step(g, q1, i) by {
            assert(step(g, q, i));
        }
        assert(q1.len() >= 1);
        assert(q1[0] == a);
        lemma_short_walks_reached(s, g, a, qi, q1);
        let x = q1.last();
        assert(step(g, q, q.len() - 2));
        assert(g.contains_key(x) && g[x].contains(w));
        reveal(Search::layered);
        assert(s.visited@.contains_key(x));
        assert(is_route(g, q1, a, x));
        assert(!refs_lt(q1, s.tp@[x]));
        let j = choose|j: int| qi <= j < s.queue@.len() && #[trigger] s.queue@[j]@ == x;
        assert(qi <= j < s.queue@.len() && s.queue@[j]@ == x);
        if j != qi {
            assert(s.dist@[s.queue@[qi]@] <= s.dist@[s.queue@[j]@]);
            assert(refs_lt(s.tp@[s.queue@[qi]@], s.tp@[s.queue@[j]@]));
            if refs_lt(q1, tu) {
                lemma_refs_lt_transitive(q1, tu, s.tp@[x]);
            }
        }
        lemma_refs_lt_push(q1, tu, w, w);
        <ObjectRef as OrdKey>::lemma_key_irreflexive(w);
        assert(q =~= q1.push(w));
    }
}

/// The start of the search: one object, its path itself alone.
proof fn lemma_start_lexed(s: Search, g: Map<RefView, Set<RefView>>, a: RefView)
    requires
        s.visited@.dom() == set![a],
        s.dist@ == Map::<RefView, nat>::empty().insert(a, 0nat),
        s.tp@ == Map::<RefView, Seq<RefView>>::empty().insert(a, seq![a]),
        s.queue@.len() == 1,
        s.queue@[0]@ == a,
    ensures
        s.lexed(g, a, 0, true),
{
    reveal(Search::lexed);
    reveal(Search::tree_ok);
    assert(is_route(g, seq![a], a, a));
    assert forall|v: RefView, q: Seq<RefView>| #[trigger] s.visited@.contains_key(v) && #[trigger] is_route(g, q, a, v)
        && q.len() == s.tp@[v].len() implies !refs_lt(q, s.tp@[v]) by {
        assert(v == a);
        assert(q =~= seq![a]);
        lemma_refs_lt_irreflexive(q);
    }
}

/// Recording `nv`, reached from the front `u` after every object reached from `u` so far (in
/// the order of targets), keeps the paths least and the queue in order.
proof fn lemma_record_lexed(
    s0: Search,
    s1: Search,
    g: Map<RefView, Set<RefView>>,
    a: RefView,
    qi: int,
    nv: RefView,
    pu: ObjectRef,
    qn: ObjectRef,
    pushed: bool,
)
    requires
        s0.layered(g, a, qi),
        s0.lexed(g, a, qi, false),
        0 <= qi < s0.queue@.len(),
        pu@ == s0.queue@[qi]@,
        g.contains_key(pu@),
        g[pu@].contains(nv),
        s0.visited@.contains_key(a),
        forall|j: int| 0 <= j < s0.queue@.len() ==> s0.visited@.contains_key(#[trigger] s0.queue@[j]@),
        forall|v: RefView| #[trigger] s0.visited@.contains_key(v) && v != a ==> s0.visited@.contains_key(s0.previous@[v]@),
        !s0.visited@.contains_key(nv),
        forall|v: RefView| #[trigger] s0.visited@.contains_key(v) && s0.dist@[v] == s0.dist@[pu@] + 1
            && s0.previous@[v]@ == pu@ ==> ref_lt(v, nv),
        s1.visited@ == s0.visited@.insert(nv, true),
        s1.previous@ == s0.previous@.insert(nv, pu),
        s1.dist@ == s0.dist@.insert(nv, s0.dist@[pu@] + 1),
        s1.tp@ == s0.tp@.insert(nv, s0.tp@[pu@].push(nv)),
        pushed ==> s1.queue@ == s0.queue@.push(qn) && qn@ == nv,
        !pushed ==> s1.queue@ == s0.queue@,
    ensures
        s1.lexed(g, a, qi, false),
{
    lemma_new_least(s0, g, a, qi, nv);
    reveal(Search::lexed);
    reveal(Search::tree_ok);
    reveal(Search::layered);
    let u = pu@;
    let d = s0.dist@[u];
    let tu = s0.tp@[u];
    assert(s0.visited@.contains_key(s0.queue@[qi]@));
    assert(s1.queue@[qi] == s0.queue@[qi]);
    // Paths of the objects reached before are unchanged.
    assert forall|v: RefView| #[trigger] s1.visited@.contains_key(v) && v != a implies s1.tp@[v] == s1.tp@[s1.previous@[v]@].push(v) by {
        if v != nv {
            assert(s0.visited@.contains_key(v));
            assert(s0.visited@.contains_key(s0.previous@[v]@));
        }
    }
    assert forall|v: RefView| #[trigger] s1.visited@.contains_key(v)
        implies is_route(g, s1.tp@[v], a, v) && s1.tp@[v].len() == s1.dist@[v] + 1 by {
        if v == nv {
            assert(is_route(g, tu, a, u));
            let p = tu.push(nv);
            assert forall|i: int| 0 <= i < p.len() - 1 implies #[trigger] step(g, p, i) by {
                if i < tu.len() - 1 {
                    assert(step(g, tu, i));
                }
            }
        } else {
            assert(s0.visited@.contains_key(v));
        }
    }
    assert forall|v: RefView, q: Seq<RefView>| #[trigger] s1.visited@.contains_key(v) && #[trigger] is_route(g, q, a, v)
        && q.len() == s1.tp@[v].len() implies !refs_lt(q, s1.tp@[v]) by {
        if v != nv {
            assert(s0.visited@.contains_key(v));
        }
    }
    assert(s1.tree_ok(g, a));
    // The queue stays in order and the next layer keeps its predecessors.
    assert forall|j1: int, j2: int| qi <= j1 < j2 < s1.queue@.len()
        && s1.dist@[s1.queue@[j1]@] == s1.dist@[s1.queue@[j2]@]
        implies refs_lt(s1.tp@[#[trigger] s1.queue@[j1]@], s1.tp@[#[trigger] s1.queue@[j2]@]) by {
        assert(s1.queue@[j1] == s0.queue@[j1]);
        let v = s0.queue@[j1]@;
        assert(s0.visited@.contains_key(v));
        if j2 < s0.queue@.len() {
            assert(s1.queue@[j2] == s0.queue@[j2]);
            assert(s0.visited@.contains_key(s0.queue@[j2]@));
        } else {
            assert(s1.queue@[j2]@ == nv);
            assert(s0.dist@[v] == d + 1);
            assert(v != a) by {
                assert(s0.dist@[a] == 0);
            }
            let pv = s0.previous@[v]@;
            assert(s0.visited@.contains_key(pv));
            assert(s0.dist@[v] == s0.dist@[pv] + 1);
            assert(s0.tp@[v] == s0.tp@[pv].push(v));
            assert(s0.tp@[pv].len() == tu.len());
            lemma_refs_lt_push(s0.tp@[pv], tu, v, nv);
        }
    }
    assert forall|v: RefView| #[trigger] s1.visited@.contains_key(v) && s1.dist@[v] == s1.dist@[u] + 1
        implies (s1.previous@[v]@ == u) || refs_lt(s1.tp@[s1.previous@[v]@], s1.tp@[u]) by {
        if v != nv {
            assert(s0.visited@.contains_key(v));
            if v != a {
                assert(s0.visited@.contains_key(s0.previous@[v]@));
            } else {
                assert(s0.dist@[a] == 0);
            }
        }
    }
}

/// Once the front's targets are all reached, the next object of the queue is the front, and
/// every object of its next layer was reached from an object whose path comes first.
proof fn lemma_advance_lexed(s: Search, g: Map<RefView, Set<RefView>>, a: RefView, qi: int)
    requires
        s.layered(g, a, qi),
        s.lexed(g, a, qi, false),
        0 <= qi < s.queue@.len(),
        forall|j: int| 0 <= j < s.queue@.len() ==> s.visited@.contains_key(#[trigger] s.queue@[j]@),
    ensures
        s.lexed(g, a, qi + 1, true),
{
    reveal(Search::lexed);
    reveal(Search::layered);
    if qi + 1 < s.queue@.len() {
        let u = s.queue@[qi]@;
        let u1 = s.queue@[qi + 1]@;
        assert(s.visited@.contains_key(u1));
        assert forall|v: RefView| #[trigger] s.visited@.contains_key(v) && s.dist@[v] == s.dist@[u1] + 1
            implies refs_lt(s.tp@[s.previous@[v]@], s.tp@[u1]) by {
            assert(s.dist@[u] <= s.dist@[u1] <= s.dist@[u] + 1);
            assert(s.dist@[v] <= s.dist@[u] + 1);
            assert(s.dist@[u1] == s.dist@[u]);
            assert(refs_lt(s.tp@[s.queue@[qi]@], s.tp@[s.queue@[qi + 1]@]));
            if s.previous@[v]@ != u {
                lemma_refs_lt_transitive(s.tp@[s.previous@[v]@], s.tp@[u], s.tp@[u1]);
            }
        }
    }
}

/// Following recorded predecessors, each reached object's tree path ends at it, after
/// a path to its predecessor.
proof fn lemma_tree_paths_end(
    visited: Set<RefView>,
    previous: Map<RefView, ObjectRef>,
    rank: Map<RefView, nat>,
    tp: Map<RefView, Seq<RefView>>,
    start: RefView,
    v: RefView,
)
    requires
        visited.contains(v),
        rank.dom() == visited,
        tp[start] == seq![start],
        forall|w: RefView| #[trigger] visited.contains(w) && w != start ==> {
            &&& previous.contains_key(w)
            &&& visited.contains(previous[w]@)
            &&& rank[previous[w]@] < rank[w]
            &&& tp[w] == tp[previous[w]@].push(w)
        },
    ensures
        tp[v].len() >= 1,
        tp[v].last() == v,
    decreases rank[v],
{
    if v != start {
        lemma_tree_paths_end(visited, previous, rank, tp, start, previous[v]@);
    }
}

/// Follows the recorded predecessors back from `goal` to `start`, and returns the objects
/// passed, from `start` to `goal`.
#[verifier::rlimit(50)]
#[verifier::spinoff_prover]
fn trace_back(
    goal: &ObjectRef,
    start: &ObjectRef,
    previous: &SortedMap<ObjectRef, ObjectRef>,
    Ghost(g): Ghost<Map<RefView, Set<RefView>>>,
    Ghost(visited): Ghost<Set<RefView>>,
    Ghost(rank): Ghost<Map<RefView, nat>>,
    Ghost(dist): Ghost<Map<RefView, nat>>,
    Ghost(tp): Ghost<Map<RefView, Seq<RefView>>>,
) -> (r: Vec<ObjectRef>)
    requires
        visited.contains(goal@),
        visited.contains(start@),
        rank.dom() == visited,
        dist[start@] == 0,
        tp[start@] == seq![start@],
        forall|v: RefView| #[trigger] visited.contains(v) && v != start@ ==> tp[v] == tp[previous@[v]@].push(v),
        forall|v: RefView| #[trigger] visited.contains(v) && v != start@ ==> {
            &&& previous@.contains_key(v)
            &&& visited.contains(previous@[v]@)
            &&& rank[previous@[v]@] < rank[v]
            &&& dist[v] == dist[previous@[v]@] + 1
            &&& g.contains_key(previous@[v]@)
            &&& g[previous@[v]@].contains(v)
        },
    ensures
        is_route(g, ref_views(r@), start@, goal@),
        r@.len() == dist[goal@] + 1,
        ref_views(r@) == tp[goal@],
{
    proof {
        lemma_tree_paths_end(visited, previous@, rank, tp, start@, goal@);
    }
    let mut rev: Vec<ObjectRef> = Vec::new();
    let mut cur = goal.key_dup();
    rev.push(goal.key_dup());
    while !same_ref(&cur, start)
        invariant
            visited.contains(cur@),
            visited.contains(start@),
            rank.dom() == visited,
            dist[start@] == 0,
            forall|v: RefView| #[trigger] visited.contains(v) && v != start@ ==> {
                &&& previous@.contains_key(v)
                &&& visited.contains(previous@[v]@)
                &&& rank[previous@[v]@] < rank[v]
                &&& dist[v] == dist[previous@[v]@] + 1
                &&& g.contains_key(previous@[v]@)
                &&& g[previous@[v]@].contains(v)
            },
            rev@.len() + dist[cur@] == dist[goal@] + 1,
            tp[start@] == seq![start@],
            forall|v: RefView| #[trigger] visited.contains(v) && v != start@ ==> tp[v] == tp[previous@[v]@].push(v),
            tp[goal@].len() == tp[cur@].len() - 1 + rev@.len(),
            tp[cur@].len() >= 1,
            tp[goal@].subrange(0, tp[cur@].len() as int) == tp[cur@],
            forall|j: int| 0 <= j < rev@.len() ==> tp[goal@][tp[goal@].len() - 1 - j] == (#[trigger] rev@[j])@,
            rev@.len() >= 1,
            rev@[0]@ == goal@,
            rev@.last()@ == cur@,
            forall|j: int| 0 <= j < rev@.len() - 1 ==> g.contains_key(#[trigger] rev@[j + 1]@) && g[rev@[j + 1]@].contains(rev@[j]@),
        decreases rank[cur@],
    {
        assert(visited.contains(cur@) && cur@ != start@);
        let p = previous.get(&cur).unwrap();
        let ghost before = rev@;
        let ghost old_cur = cur@;
        proof {
            lemma_tree_paths_end(visited, previous@, rank, tp, start@, p@);
        }
        cur = p.key_dup();
        rev.push(p.key_dup());
        proof {
            let tc = tp[old_cur];
            assert(tc == tp[cur@].push(old_cur));
            assert(tp[goal@].subrange(0, tp[cur@].len() as int) =~= tc.subrange(0, tp[cur@].len() as int));
            assert(tc.subrange(0, tp[cur@].len() as int) =~= tp[cur@]);
            assert forall|j: int| 0 <= j < rev@.len() implies tp[goal@][tp[goal@].len() - 1 - j] == (#[trigger] rev@[j])@ by {
                if j < before.len() {
                    assert(rev@[j] == before[j]);
                } else {
                    assert(tp[goal@][tp[cur@].len() - 1] == tp[cur@][tp[cur@].len() - 1]);
                }
            }
            assert forall|j: int| 0 <= j < rev@.len() - 1 implies g.contains_key(#[trigger] rev@[j + 1]@) && g[rev@[j + 1]@].contains(rev@[j]@) by {
                if j < before.len() - 1 {
                    assert(rev@[j + 1] == before[j + 1]);
                    assert(rev@[j] == before[j]);
                }
            }
        }
    }
    let n = rev.len();
    let mut path: Vec<ObjectRef> = Vec::new();
    let mut k: usize = 0;
    while k < n
        invariant
            n == rev@.len(),
            k <= n,
            path@.len() == k,
            forall|j: int| 0 <= j < k ==> (#[trigger] path@[j])@ == rev@[n - 1 - j]@,
        decreases n - k,
    {
        path.push(rev[n - 1 - k].key_dup());
        k = k + 1;
    }
    proof {
        let pv = ref_views(path@);
        assert(pv =~= tp[goal@]);
        assert(pv[0] == rev@[n - 1]@);
        assert(pv.last() == rev@[0]@);
        assert forall|i: int| 0 <= i < pv.len() - 1 implies #[trigger] step(g, pv, i) by {
            let j = n - 2 - i;
            assert(rev@[j + 1] == rev@[n - 1 - i]);
            assert(pv[i] == path@[i]@);
            assert(pv[i + 1] == path@[i + 1]@);
        }
    }
    path
}

/// The state of a breadth-first search: the objects reached, the predecessor through which
/// each was first reached, and the queue of reached objects in the order they were reached.
struct Search {
    visited: SortedMap<ObjectRef, bool>,
    previous: SortedMap<ObjectRef, ObjectRef>,
    queue: Vec<ObjectRef>,
    rank: Ghost<Map<RefView, nat>>,
    count: Ghost<nat>,
    dist: Ghost<Map<RefView, nat>>,
    tp: Ghost<Map<RefView, Seq<RefView>>>,
}

impl Search {
    /// `tp` holds, for each reached object, its path from `a` along recorded predecessors.
    spec fn tp_consistent(&self, a: RefView) -> bool {
        &&& self.tp@[a] == seq![a]
        &&& forall|v: RefView| #[trigger] self.visited@.contains_key(v) && v != a
            ==> self.tp@[v] == self.tp@[self.previous@[v]@].push(v)
    }

    /// Each reached object's path is a route from `a` to it, of its layer's length, and no
    /// route of that length to it comes before it lexicographically.
    #[verifier::opaque]
    spec fn tree_ok(&self, g: Map<RefView, Set<RefView>>, a: RefView) -> bool {
        &&& self.tp_consistent(a)
        &&& forall|v: RefView| #[trigger] self.visited@.contains_key(v)
            ==> is_route(g, self.tp@[v], a, v) && self.tp@[v].len() == self.dist@[v] + 1
        &&& forall|v: RefView, q: Seq<RefView>| #[trigger] self.visited@.contains_key(v) && #[trigger] is_route(g, q, a, v)
            && q.len() == self.tp@[v].len() ==> !refs_lt(q, self.tp@[v])
    }

    /// The queue from position `qi` on is in lexicographic order of paths within each layer,
    /// and every object of the next layer was reached from an object whose path comes before
    /// that of the front (or, unless `strict`, from the front itself).
    #[verifier::opaque]
    spec fn lexed(&self, g: Map<RefView, Set<RefView>>, a: RefView, qi: int, strict: bool) -> bool {
        &&& self.tree_ok(g, a)
        &&& qi < self.queue@.len() ==> {
            let u = self.queue@[qi]@;
            &&& forall|j1: int, j2: int| qi <= j1 < j2 < self.queue@.len()
                && self.dist@[self.queue@[j1]@] == self.dist@[self.queue@[j2]@]
                ==> refs_lt(self.tp@[#[trigger] self.queue@[j1]@], self.tp@[#[trigger] self.queue@[j2]@])
            &&& forall|v: RefView| #[trigger] self.visited@.contains_key(v) && self.dist@[v] == self.dist@[u] + 1
                ==> (!strict && self.previous@[v]@ == u) || refs_lt(self.tp@[self.previous@[v]@], self.tp@[u])
        }
    }

    /// `dist` counts, for each reached object, the links from `a` along the recorded
    /// predecessors.
    spec fn dist_consistent(&self, a: RefView) -> bool {
        &&& self.dist@.dom() == self.visited@.dom()
        &&& self.dist@[a] == 0
        &&& forall|v: RefView| #[trigger] self.visited@.contains_key(v) && v != a
            ==> self.dist@[v] == self.dist@[self.previous@[v]@] + 1
    }

    /// The search reaches objects in layers: the queue from position `qi` on holds objects of
    /// one layer, then of the next; nothing reached lies beyond that next layer; and every
    /// reached object with links that has left the queue has all its targets reached, at
    /// most one layer further.
    #[verifier::opaque]
    spec fn layered(&self, g: Map<RefView, Set<RefView>>, a: RefView, qi: int) -> bool {
        &&& self.dist_consistent(a)
        &&& qi < self.queue@.len() ==> {
            let d0 = self.dist@[self.queue@[qi]@];
            &&& forall|j: int| qi <= j < self.queue@.len() ==> d0 <= #[trigger] self.dist@[self.queue@[j]@] <= d0 + 1
            &&& forall|j1: int, j2: int| qi <= j1 < j2 < self.queue@.len()
                ==> #[trigger] self.dist@[self.queue@[j1]@] <= #[trigger] self.dist@[self.queue@[j2]@]
            &&& forall|v: RefView| #[trigger] self.visited@.contains_key(v) ==> self.dist@[v] <= d0 + 1
        }
        &&& forall|v: RefView| #[trigger] self.visited@.contains_key(v) && g.contains_key(v) ==>
            (exists|j: int| qi <= j < self.queue@.len() && #[trigger] self.queue@[j]@ == v)
            || (forall|w: RefView| #[trigger] g[v].contains(w)
                ==> self.visited@.contains_key(w) && self.dist@[w] <= self.dist@[v] + 1)
    }

    /// The search from `a` towards `b` over graph `g` (whose objects with links are `keys`)
    /// is consistent: `b` is not reached yet, every reached object other than `a` has a
    /// predecessor reached before it that links to it, and the queue holds distinct reached
    /// objects, starting with `a`, all others having links.
    #[verifier::opaque]
    spec fn consistent(&self, g: Map<RefView, Set<RefView>>, keys: Seq<RefView>, a: RefView, b: RefView) -> bool {
        &&& forall|k: RefView| #[trigger] g.contains_key(k) <==> keys.contains(k)
        &&& a != b
        &&& self.visited@.contains_key(a)
        &&& !self.visited@.contains_key(b)
        &&& self.rank@.dom() == self.visited@.dom()
        &&& forall|v: RefView| #[trigger] self.rank@.contains_key(v) ==> self.rank@[v] < self.count@
        &&& forall|v: RefView| #[trigger] self.visited@.contains_key(v) && v != a ==> {
            &&& self.previous@.contains_key(v)
            &&& self.visited@.contains_key(self.previous@[v]@)
            &&& self.rank@[self.previous@[v]@] < self.rank@[v]
            &&& g.contains_key(self.previous@[v]@)
            &&& g[self.previous@[v]@].contains(v)
        }
        &&& self.queue@.len() >= 1
        &&& self.queue@[0]@ == a
        &&& forall|j: int| 0 <= j < self.queue@.len() ==> self.visited@.contains_key(#[trigger] self.queue@[j]@)
        &&& forall|j: int| 1 <= j < self.queue@.len() ==> g.contains_key(#[trigger] self.queue@[j]@)
        &&& forall|j1: int, j2: int| 0 <= j1 < j2 < self.queue@.len() ==> #[trigger] self.queue@[j1]@ != #[trigger] self.queue@[j2]@
        &&& self.queue@.len() <= keys.len() + 1
    }

    /// Every reached object with links either waits in the queue from position `qi` on, or
    /// has all its targets reached.
    #[verifier::opaque]
    spec fn explored(&self, g: Map<RefView, Set<RefView>>, qi: int) -> bool {
        forall|v: RefView| #[trigger] self.visited@.contains_key(v) && g.contains_key(v) ==>
            (exists|j: int| qi <= j < self.queue@.len() && #[trigger] self.queue@[j]@ == v)
            || (forall|w: RefView| #[trigger] g[v].contains(w) ==> self.visited@.contains_key(w))
    }

    /// Records that `next`, a target of `u` (the object at position `qi` of the queue), is
    /// reached through `u`; queues it when it has links.
    #[verifier::rlimit(100)]
    #[verifier::spinoff_prover]
    fn record(
        &mut self,
        adj: &SortedMap<ObjectRef, SortedMap<ObjectRef, bool>>,
        qi: usize,
        u: &ObjectRef,
        next: &ObjectRef,
        Ghost(keys): Ghost<Seq<RefView>>,
        Ghost(a): Ghost<RefView>,
        Ghost(b): Ghost<RefView>,
    )
        requires
            keys == adj.keys_seq(),
            old(self).consistent(adjacency_view(*adj), keys, a, b),
            old(self).explored(adjacency_view(*adj), qi as int),
            qi < old(self).queue@.len(),
            old(self).queue@[qi as int]@ == u@,
            adjacency_view(*adj).contains_key(u@),
            adjacency_view(*adj)[u@].contains(next@),
            !old(self).visited@.contains_key(next@),
            next@ != b,
            old(self).layered(adjacency_view(*adj), a, qi as int),
            old(self).lexed(adjacency_view(*adj), a, qi as int, false),
            forall|v: RefView| #[trigger] old(self).visited@.contains_key(v) && old(self).dist@[v] == old(self).dist@[u@] + 1
                && old(self).previous@[v]@ == u@ ==> ref_lt(v, next@),
        ensures
            final(self).consistent(adjacency_view(*adj), keys, a, b),
            final(self).explored(adjacency_view(*adj), qi as int),
            final(self).layered(adjacency_view(*adj), a, qi as int),
            final(self).lexed(adjacency_view(*adj), a, qi as int, false),
            forall|v: RefView| #[trigger] old(self).visited@.contains_key(v)
                ==> final(self).previous@[v] == old(self).previous@[v] && final(self).dist@[v] == old(self).dist@[v],
            final(self).previous@[next@]@ == u@,
            final(self).dist@[next@] == old(self).dist@[u@] + 1,
            final(self).visited@.dom() == old(self).visited@.dom().insert(next@),
            final(self).queue@.len() >= old(self).queue@.len(),
            final(self).queue@[qi as int] == old(self).queue@[qi as int],
    {
        let ghost g = adjacency_view(*adj);
        let ghost nv = next@;
        let ghost old_queue = self.queue@;
        let ghost old_visited = self.visited@;
        let ghost old_rank = self.rank@;
        let ghost c = self.count@;
        let ghost s0 = *self;
        let ghost old_dist = self.dist@;
        let ghost old_tp = self.tp@;
        proof {
            reveal(Search::consistent);
            reveal(Search::explored);
            use_type_invariant(adj);
            adj.lemma_shape();
        }
        self.visited.insert(next.key_dup(), true);
        self.previous.insert(next.key_dup(), u.key_dup());
        proof {
            self.rank = Ghost(old_rank.insert(nv, c));
            self.count = Ghost(c + 1);
            self.dist = Ghost(old_dist.insert(nv, old_dist[u@] + 1));
            self.tp = Ghost(old_tp.insert(nv, old_tp[u@].push(nv)));
            assert(self.visited@.dom() =~= old_visited.dom().insert(nv));
            assert(self.rank@.dom() =~= self.visited@.dom());
        }
        if adj.contains_key(next) {
            proof {
                let q1 = ref_views(old_queue).subrange(1, old_queue.len() as int).push(nv);
                assert forall|i: int, k: int| 0 <= i < q1.len() && 0 <= k < q1.len() && i != k implies q1[i] != q1[k] by {
                    if i == q1.len() - 1 {
                        assert(old_visited.contains_key(old_queue[k + 1]@));
                    } else if k == q1.len() - 1 {
                        assert(old_visited.contains_key(old_queue[i + 1]@));
                    } else if i < k {
                        assert(old_queue[i + 1]@ != old_queue[k + 1]@);
                    } else {
                        assert(old_queue[k + 1]@ != old_queue[i + 1]@);
                    }
                }
                assert(q1.no_duplicates());
                assert forall|i: int| 0 <= i < q1.len() implies keys.contains(#[trigger] q1[i]) by {
                    if i < q1.len() - 1 {
                        assert(g.contains_key(old_queue[i + 1]@));
                    }
                }
                lemma_distinct_within_len(q1, keys);
            }
            self.queue.push(next.key_dup());
            proof {
                assert forall|j1: int, j2: int| 0 <= j1 < j2 < self.queue@.len() implies #[trigger] self.queue@[j1]@ != #[trigger] self.queue@[j2]@ by {
                    if j2 == self.queue@.len() - 1 {
                        assert(old_visited.contains_key(old_queue[j1]@));
                    } else {
                        assert(old_queue[j1]@ != old_queue[j2]@);
                    }
                }
                assert forall|j: int| 0 <= j < self.queue@.len() implies self.visited@.contains_key(#[trigger] self.queue@[j]@) by {
                    if j < old_queue.len() {
                        assert(old_visited.contains_key(old_queue[j]@));
                    }
                }
                assert forall|v: RefView| #[trigger] self.visited@.contains_key(v) && g.contains_key(v) implies
                    (exists|jj: int| qi <= jj < self.queue@.len() && #[trigger] self.queue@[jj]@ == v)
                    || (forall|w: RefView| #[trigger] g[v].contains(w) ==> self.visited@.contains_key(w)) by {
                    if v == nv {
                        assert(self.queue@[self.queue@.len() - 1]@ == nv);
                    } else {
                        assert(old_visited.contains_key(v));
                        if exists|jj: int| qi <= jj < old_queue.len() && #[trigger] old_queue[jj]@ == v {
                            let jj = choose|jj: int| qi <= jj < old_queue.len() && #[trigger] old_queue[jj]@ == v;
                            assert(self.queue@[jj] == old_queue[jj]);
                        }
                    }
                }
            }
        } else {
            proof {
                assert forall|v: RefView| #[trigger] self.visited@.contains_key(v) && g.contains_key(v) implies
                    (exists|jj: int| qi <= jj < self.queue@.len() && #[trigger] self.queue@[jj]@ == v)
                    || (forall|w: RefView| #[trigger] g[v].contains(w) ==> self.visited@.contains_key(w)) by {
                    assert(v != nv);
                    assert(old_visited.contains_key(v));
                    assert(self.queue@ == old_queue);
                    if exists|jj: int| qi <= jj < old_queue.len() && #[trigger] old_queue[jj]@ == v {
                        let jj = choose|jj: int| qi <= jj < old_queue.len() && #[trigger] old_queue[jj]@ == v;
                        assert(self.queue@[jj]@ == v);
                    } else {
                        assert forall|w: RefView| #[trigger] g[v].contains(w) implies self.visited@.contains_key(w) by {
                            assert(old_visited.contains_key(w));
                        }
                    }
                }
                assert forall|j: int| 0 <= j < self.queue@.len() implies self.visited@.contains_key(#[trigger] self.queue@[j]@) by {
                    assert(old_visited.contains_key(old_queue[j]@));
                }
            }
        }
        proof {
            reveal(Search::consistent);
            let pu = self.previous@[nv];
            assert(self.previous@ =~= s0.previous@.insert(nv, pu));
            assert(self.visited@ =~= s0.visited@.insert(nv, true));
            lemma_record_layered(s0, *self, g, a, qi as int, nv, pu, self.queue@.last(), g.contains_key(nv));
            lemma_record_lexed(s0, *self, g, a, qi as int, nv, pu, self.queue@.last(), g.contains_key(nv));
        }
    }

    /// Records that the goal `b`, a target of `u`, is reached through `u`, and returns the
    /// route from `a` to it.
    fn finish(
        &mut self,
        adj: &SortedMap<ObjectRef, SortedMap<ObjectRef, bool>>,
        u: &ObjectRef,
        from: &ObjectRef,
        to: &ObjectRef,
        Ghost(keys): Ghost<Seq<RefView>>,
    ) -> (r: Vec<ObjectRef>)
        requires
            old(self).consistent(adjacency_view(*adj), keys, from@, to@),
            old(self).dist_consistent(from@),
            old(self).tp_consistent(from@),
            old(self).visited@.contains_key(u@),
            adjacency_view(*adj).contains_key(u@),
            adjacency_view(*adj)[u@].contains(to@),
        ensures
            is_route(adjacency_view(*adj), ref_views(r@), from@, to@),
            r@.len() == old(self).dist@[u@] + 2,
            ref_views(r@) == old(self).tp@[u@].push(to@),
    {
        let ghost g = adjacency_view(*adj);
        let ghost old_visited = self.visited@;
        let ghost old_previous = self.previous@;
        let ghost rank = self.rank@.insert(to@, self.count@);
        let ghost dist = self.dist@.insert(to@, self.dist@[u@] + 1);
        let ghost tp = self.tp@.insert(to@, self.tp@[u@].push(to@));
        proof {
            reveal(Search::consistent);
        }
        self.visited.insert(to.key_dup(), true);
        self.previous.insert(to.key_dup(), u.key_dup());
        proof {
            assert(rank.dom() =~= self.visited@.dom());
            assert forall|v: RefView| #[trigger] self.visited@.dom().contains(v) && v != from@ implies {
                &&& self.previous@.contains_key(v)
                &&& self.visited@.dom().contains(self.previous@[v]@)
                &&& rank[self.previous@[v]@] < rank[v]
                &&& dist[v] == dist[self.previous@[v]@] + 1
                &&& tp[v] == tp[self.previous@[v]@].push(v)
                &&& g.contains_key(self.previous@[v]@)
                &&& g[self.previous@[v]@].contains(v)
            } by {
                if v != to@ {
                    assert(old_visited.contains_key(v));
                    assert(old_visited.contains_key(old_previous[v]@));
                    assert(self.rank@.contains_key(old_previous[v]@));
                }
            }
        }
        trace_back(to, from, &self.previous, Ghost(g), Ghost(self.visited@.dom()), Ghost(rank), Ghost(dist), Ghost(tp))
    }

    /// Reaches the targets of the object at position `qi` of the queue; returns the route to
    /// `to` as soon as `to` is reached.
    #[verifier::rlimit(100)]
    fn visit_targets(
        &mut self,
        adj: &SortedMap<ObjectRef, SortedMap<ObjectRef, bool>>,
        qi: usize,
        from: &ObjectRef,
        to: &ObjectRef,
        Ghost(keys): Ghost<Seq<RefView>>,
    ) -> (r: Option<Vec<ObjectRef>>)
        requires
            keys == adj.keys_seq(),
            old(self).consistent(adjacency_view(*adj), keys, from@, to@),
            old(self).explored(adjacency_view(*adj), qi as int),
            old(self).layered(adjacency_view(*adj), from@, qi as int),
            old(self).lexed(adjacency_view(*adj), from@, qi as int, true),
            qi < old(self).queue@.len(),
        ensures
            r matches Some(p) ==> is_route(adjacency_view(*adj), ref_views(p@), from@, to@),
            r matches Some(p) ==> forall|q: Seq<RefView>| #[trigger] is_route(adjacency_view(*adj), q, from@, to@) ==> p@.len() <= q.len(),
            r matches Some(p) ==> forall|q: Seq<RefView>| #[trigger] is_route(adjacency_view(*adj), q, from@, to@)
                && q.len() == p@.len() ==> !refs_lt(q, ref_views(p@)),
            r is None ==> final(self).lexed(adjacency_view(*adj), from@, qi + 1, true),
            r is None ==> final(self).consistent(adjacency_view(*adj), keys, from@, to@),
            r is None ==> final(self).explored(adjacency_view(*adj), qi + 1),
            r is None ==> final(self).layered(adjacency_view(*adj), from@, qi + 1),
            r is None ==> qi < final(self).queue@.len(),
    {
        let ghost g = adjacency_view(*adj);
        let u = self.queue[qi].key_dup();
        let ghost uv = u@;
        proof {
            use_type_invariant(adj);
            adj.lemma_shape();
        }
        match adj.get(&u) {
            None => {
                proof {
                    reveal(Search::consistent);
                    reveal(Search::explored);
                    assert forall|v: RefView| #[trigger] self.visited@.contains_key(v) && g.contains_key(v) implies
                        (exists|j: int| qi + 1 <= j < self.queue@.len() && #[trigger] self.queue@[j]@ == v)
                        || (forall|w: RefView| #[trigger] g[v].contains(w) ==> self.visited@.contains_key(w)) by {
                        if exists|j: int| qi <= j < self.queue@.len() && #[trigger] self.queue@[j]@ == v {
                            let j = choose|j: int| qi <= j < self.queue@.len() && #[trigger] self.queue@[j]@ == v;
                            assert(j != qi);
                        }
                    }
                    assert(self.visited@.contains_key(self.queue@[qi as int]@));
                    lemma_advance_layered(*self, g, from@, qi as int);
                    reveal(Search::lexed);
                    assert(self.lexed(g, from@, qi as int, false));
                    lemma_advance_lexed(*self, g, from@, qi as int);
                }
                None
            },
            Some(targets) => {
                proof {
                    use_type_invariant(targets);
                    targets.lemma_shape();
                    reveal(Search::lexed);
                    reveal(Search::consistent);
                    assert(self.lexed(g, from@, qi as int, false));
                    assert(self.visited@.contains_key(uv));
                    assert forall|v: RefView| #[trigger] self.visited@.contains_key(v) && self.dist@[v] == self.dist@[uv] + 1
                        && self.previous@[v]@ == uv implies exists|i: int| 0 <= i < 0 && targets.keys_seq()[i] == v by {
                        lemma_refs_lt_irreflexive(self.tp@[uv]);
                    }
                }
                let m = targets.len();
                let mut j: usize = 0;
                while j < m
                    invariant
                        keys == adj.keys_seq(),
                        g == adjacency_view(*adj),
                        g.contains_key(uv),
                        g[uv] == targets@.dom(),
                        m == targets.keys_seq().len(),
                        forall|k: RefView| #[trigger] targets@.contains_key(k) <==> targets.keys_seq().contains(k),
                        j <= m,
                        self.consistent(g, keys, from@, to@),
                        self.explored(g, qi as int),
                        self.layered(g, from@, qi as int),
                        self.lexed(g, from@, qi as int, false),
                        qi < self.queue@.len(),
                        self.queue@[qi as int]@ == uv,
                        u@ == uv,
                        self.visited@.contains_key(uv),
                        strictly_sorted::<ObjectRef>(targets.keys_seq()),
                        forall|i: int| 0 <= i < j ==> self.visited@.contains_key(#[trigger] targets.keys_seq()[i]),
                        forall|v: RefView| #[trigger] self.visited@.contains_key(v) && self.dist@[v] == self.dist@[uv] + 1
                            && self.previous@[v]@ == uv ==> exists|i: int| 0 <= i < j && targets.keys_seq()[i] == v,
                    decreases m - j,
                {
                    let next = targets.key_at(j);
                    proof {
                        assert(targets.keys_seq().contains(next@));
                    }
                    if !self.visited.contains_key(next) {
                        if same_ref(next, to) {
                            let ghost du = self.dist@[uv];
                            let ghost tu = self.tp@[uv];
                            proof {
                                reveal(Search::consistent);
                                lemma_new_least(*self, g, from@, qi as int, to@);
                                reveal(Search::lexed);
                                reveal(Search::tree_ok);
                                reveal(Search::layered);
                                assert(tu.len() == du + 1);
                                assert(self.visited@.contains_key(self.queue@[qi as int]@));
                                assert forall|q: Seq<RefView>| #[trigger] is_route(g, q, from@, to@) implies q.len() >= du + 2 by {
                                    if q.len() - 1 <= du {
                                        lemma_short_walks_reached(*self, g, from@, qi as int, q);
                                    }
                                }
                            }
                            let path = self.finish(adj, &u, from, to, Ghost(keys));
                            return Some(path);
                        }
                        proof {
                            assert forall|v: RefView| #[trigger] self.visited@.contains_key(v) && self.dist@[v] == self.dist@[uv] + 1
                                && self.previous@[v]@ == uv implies ref_lt(v, next@) by {
                                let i = choose|i: int| 0 <= i < j && targets.keys_seq()[i] == v;
                                assert(<ObjectRef as OrdKey>::key_lt(targets.keys_seq()[i], targets.keys_seq()[j as int]));
                            }
                        }
                        let ghost before = *self;
                        self.record(adj, qi, &u, next, Ghost(keys), Ghost(from@), Ghost(to@));
                        proof {
                            assert forall|v: RefView| #[trigger] self.visited@.contains_key(v) && self.dist@[v] == self.dist@[uv] + 1
                                && self.previous@[v]@ == uv implies exists|i: int| 0 <= i < j + 1 && targets.keys_seq()[i] == v by {
                                if v == next@ {
                                    assert(targets.keys_seq()[j as int] == v);
                                } else {
                                    assert(before.visited@.contains_key(v));
                                    assert(before.visited@.contains_key(uv));
                                    let i = choose|i: int| 0 <= i < j && targets.keys_seq()[i] == v;
                                    assert(targets.keys_seq()[i] == v);
                                }
                            }
                        }
                    }
                    j = j + 1;
                }
                proof {
                    reveal(Search::consistent);
                    reveal(Search::explored);
                    assert forall|v: RefView| #[trigger] self.visited@.contains_key(v) && g.contains_key(v) implies
                        (exists|jj: int| qi + 1 <= jj < self.queue@.len() && #[trigger] self.queue@[jj]@ == v)
                        || (forall|w: RefView| #[trigger] g[v].contains(w) ==> self.visited@.contains_key(w)) by {
                        if v == uv {
                            assert forall|w: RefView| #[trigger] g[v].contains(w) implies self.visited@.contains_key(w) by {
                                assert(targets.keys_seq().contains(w));
                                let i = choose|i: int| 0 <= i < targets.keys_seq().len() && targets.keys_seq()[i] == w;
                                assert(self.visited@.contains_key(targets.keys_seq()[i]));
                            }
                        } else if exists|jj: int| qi <= jj < self.queue@.len() && #[trigger] self.queue@[jj]@ == v {
                            let jj = choose|jj: int| qi <= jj < self.queue@.len() && #[trigger] self.queue@[jj]@ == v;
                            assert(jj != qi);
                        }
                    }
                    assert forall|w: RefView| #[trigger] g[uv].contains(w) implies self.visited@.contains_key(w) by {
                        assert(targets.keys_seq().contains(w));
                        let i = choose|i: int| 0 <= i < targets.keys_seq().len() && targets.keys_seq()[i] == w;
                        assert(self.visited@.contains_key(targets.keys_seq()[i]));
                    }
                    assert(self.visited@.contains_key(self.queue@[qi as int]@));
                    lemma_advance_layered(*self, g, from@, qi as int);
                    lemma_advance_lexed(*self, g, from@, qi as int);
                }
                None
            },
        }
    }
}

/// A walk with no shorter walk between its ends passes no object twice: cutting out the part
/// between two visits of one object leaves a shorter walk.
proof fn lemma_shortest_route_simple(g: Map<RefView, Set<RefView>>, p: Seq<RefView>, a: RefView, b: RefView)
    requires
        is_route(g, p, a, b),
        forall|q: Seq<RefView>| #[trigger] is_route(g, q, a, b) ==> p.len() <= q.len(),
    ensures
        p.no_duplicates(),
{
    assert forall|i: int, j: int| 0 <= i < p.len() && 0 <= j < p.len() && i != j implies p[i] != p[j] by {
        if p[i] == p[j] {
            let (lo, hi) = if i < j { (i, j) } else { (j, i) };
            let q = p.subrange(0, lo + 1) + p.subrange(hi + 1, p.len() as int);
            assert(q.len() == p.len() - (hi - lo));
            assert forall|k: int| 0 <= k < q.len() - 1 implies #[trigger] step(g, q, k) by {
                if k < lo {
                    assert(step(g, p, k));
                    assert(q[k] == p[k] && q[k + 1] == p[k + 1]);
                } else if k == lo {
                    assert(step(g, p, hi));
                    assert(q[k] == p[lo] && q[k + 1] == p[hi + 1]);
                } else {
                    let m = k - lo + hi;
                    assert(step(g, p, m));
                    assert(q[k] == p[m] && q[k + 1] == p[m + 1]);
                }
            }
            if hi == p.len() - 1 {
                assert(q.last() == p[lo]);
            } else {
                assert(q.last() == p.last());
            }
            assert(q[0] == p[0]);
            assert(is_route(g, q, a, b));
        }
    }
}

/// Finds a route from `from` to `to` by breadth-first search: `Some` of the objects passed,
/// both ends included, exactly when some walk leads there; no walk between them is shorter,
/// the route passes no object twice, and of the shortest routes it is the first in
/// lexicographic order.
pub fn find_route_with_adjacency(adjacency: &SessionRouteAdjacency, from: &ObjectRef, to: &ObjectRef) -> (r: Option<Vec<ObjectRef>>)
    ensures
        r is Some <==> reachable(adjacency.graph(), from@, to@),
        r matches Some(p) ==> is_route(adjacency.graph(), ref_views(p@), from@, to@),
        r matches Some(p) ==> forall|q: Seq<RefView>| #[trigger] is_route(adjacency.graph(), q, from@, to@) ==> p@.len() <= q.len(),
        r matches Some(p) ==> ref_views(p@).no_duplicates(),
        r matches Some(p) ==> forall|q: Seq<RefView>| #[trigger] is_route(adjacency.graph(), q, from@, to@) && q.len() == p@.len()
            ==> q == ref_views(p@) || refs_lt(ref_views(p@), q),
        from@ == to@ ==> (r matches Some(p) && ref_views(p@) == seq![from@]),
{
    let ghost g = adjacency.graph();
    if same_ref(from, to) {
        let p = vec![from.key_dup()];
        proof {
            let pv = ref_views(p@);
            assert(pv =~= seq![from@]);
            assert(is_route(g, pv, from@, to@));
            assert forall|q: Seq<RefView>| #[trigger] is_route(g, q, from@, to@) && q.len() == p@.len()
                implies q == pv || refs_lt(pv, q) by {
                assert(q =~= pv);
            }
        }
        return Some(p);
    }
    let adj = &adjacency.adjacency;
    let mut search = Search {
        visited: SortedMap::new(),
        previous: SortedMap::new(),
        queue: Vec::new(),
        rank: Ghost(Map::empty().insert(from@, 0nat)),
        count: Ghost(1nat),
        dist: Ghost(Map::empty().insert(from@, 0nat)),
        tp: Ghost(Map::empty().insert(from@, seq![from@])),
    };
    search.visited.insert(from.key_dup(), true);
    search.queue.push(from.key_dup());
    let ghost keys = adj.keys_seq();
    proof {
        reveal(Search::consistent);
        reveal(Search::explored);
        use_type_invariant(adj);
        adj.lemma_shape();
        assert(search.visited@.dom() =~= set![from@]);
        assert(search.rank@.dom() =~= set![from@]);
        assert(search.queue@[0]@ == from@);
        reveal(Search::layered);
        assert(search.dist@.dom() =~= search.visited@.dom());
        assert forall|v: RefView| #[trigger] search.visited@.contains_key(v) && g.contains_key(v) implies
            (exists|j: int| 0 <= j < search.queue@.len() && #[trigger] search.queue@[j]@ == v)
            || (forall|w: RefView| #[trigger] g[v].contains(w)
                ==> search.visited@.contains_key(w) && search.dist@[w] <= search.dist@[v] + 1) by {
            assert(search.queue@[0]@ == v);
        }
        assert(search.layered(g, from@, 0));
        assert(search.dist@ =~= Map::<RefView, nat>::empty().insert(from@, 0nat));
        lemma_start_lexed(search, g, from@);
    }
    let mut qi: usize = 0;
    while qi < search.queue.len()
        invariant
            g == adjacency_view(*adj),
            g == adjacency.graph(),
            from@ != to@,
            keys == adj.keys_seq(),
            search.consistent(g, keys, from@, to@),
            search.explored(g, qi as int),
            search.layered(g, from@, qi as int),
            search.lexed(g, from@, qi as int, true),
            qi <= search.queue@.len(),
        decreases keys.len() + 1 - qi,
    {
        match search.visit_targets(adj, qi, from, to, Ghost(keys)) {
            Some(path) => {
                proof {
                    assert(reachable(g, from@, to@));
                    lemma_shortest_route_simple(g, ref_views(path@), from@, to@);
                    assert forall|q: Seq<RefView>| #[trigger] is_route(g, q, from@, to@) && q.len() == path@.len()
                        implies q == ref_views(path@) || refs_lt(ref_views(path@), q) by {
                        lemma_refs_lt_total(q, ref_views(path@));
                    }
                }
                return Some(path);
            },
            None => {},
        }
        proof {
            reveal(Search::consistent);
        }
        qi = qi + 1;
    }
    proof {
        reveal(Search::consistent);
        reveal(Search::explored);
        let v = search.visited@.dom();
        assert forall|a: RefView, b: RefView| #[trigger] v.contains(a) && g.contains_key(a) && #[trigger] g[a].contains(b) implies v.contains(b) by {
            assert(search.visited@.contains_key(a));
        }
        if reachable(g, from@, to@) {
            let p = choose|p: Seq<RefView>| #[trigger] is_route(g, p, from@, to@);
            lemma_closed_holds_walk(g, v, p);
        }
    }
    None
}

/// Finds a route between two objects of a session (see `find_route_with_adjacency`).
pub fn find_route(session: &Session, from: &ObjectRef, to: &ObjectRef) -> (r: Option<Vec<ObjectRef>>)
    ensures
        r is Some <==> reachable(session_graph(*session), from@, to@),
        r matches Some(p) ==> is_route(session_graph(*session), ref_views(p@), from@, to@),
        r matches Some(p) ==> forall|q: Seq<RefView>| #[trigger] is_route(session_graph(*session), q, from@, to@) ==> p@.len() <= q.len(),
        r matches Some(p) ==> ref_views(p@).no_duplicates(),
        r matches Some(p) ==> forall|q: Seq<RefView>| #[trigger] is_route(session_graph(*session), q, from@, to@) && q.len() == p@.len()
            ==> q == ref_views(p@) || refs_lt(ref_views(p@), q),
        from@ == to@ ==> (r matches Some(p) && ref_views(p@) == seq![from@]),
{
    let adjacency = SessionRouteAdjacency::derive(session);
    find_route_with_adjacency(&adjacency, from, to)
}

/// Lexicographic order on sequences of references (a proper prefix is smaller), as the
/// derived order of a vector of references.
pub open spec fn refs_lt(a: Seq<RefView>, b: Seq<RefView>) -> bool
    decreases a.len(),
{
    if a.len() == 0 {
        b.len() > 0
    } else if b.len() == 0 {
        false
    } else if a[0] != b[0] {
        ref_lt(a[0], b[0])
    } else {
        refs_lt(a.drop_first(), b.drop_first())
    }
}

/// Routes by number of hops, then lexicographically.
pub open spec fn route_lt(a: Seq<RefView>, b: Seq<RefView>) -> bool {
    a.len() < b.len() || (a.len() == b.len() && refs_lt(a, b))
}

proof fn lemma_ref_lt_asymmetric(a: RefView, b: RefView)
    requires
        ref_lt(a, b),
    ensures
        !ref_lt(b, a),
{
    if ref_lt(b, a) {
        <ObjectRef as OrdKey>::lemma_key_transitive(a, b, a);
        <ObjectRef as OrdKey>::lemma_key_irreflexive(a);
    }
}

proof fn lemma_refs_lt_irreflexive(a: Seq<RefView>)
    ensures
        !refs_lt(a, a),
    decreases a.len(),
{
    if a.len() > 0 {
        lemma_refs_lt_irreflexive(a.drop_first());
    }
}

proof fn lemma_refs_lt_transitive(a: Seq<RefView>, b: Seq<RefView>, c: Seq<RefView>)
    requires
        refs_lt(a, b),
        refs_lt(b, c),
    ensures
        refs_lt(a, c),
    decreases a.len(),
{
    if a.len() > 0 && b.len() > 0 && c.len() > 0 {
        if a[0] == b[0] && b[0] == c[0] {
            lemma_refs_lt_transitive(a.drop_first(), b.drop_first(), c.drop_first());
        } else if a[0] != b[0] && b[0] != c[0] {
            <ObjectRef as OrdKey>::lemma_key_transitive(a[0], b[0], c[0]);
            if a[0] == c[0] {
                lemma_ref_lt_asymmetric(a[0], b[0]);
            }
        }
    }
}

proof fn lemma_refs_lt_total(a: Seq<RefView>, b: Seq<RefView>)
    ensures
        a == b || refs_lt(a, b) || refs_lt(b, a),
    decreases a.len(),
{
    if a.len() > 0 && b.len() > 0 {
        if a[0] == b[0] {
            lemma_refs_lt_total(a.drop_first(), b.drop_first());
            if a.drop_first() == b.drop_first() {
                assert(a =~= seq![a[0]] + a.drop_first());
                assert(b =~= seq![b[0]] + b.drop_first());
            }
        } else {
            <ObjectRef as OrdKey>::lemma_key_total(a[0], b[0]);
        }
    } else if a.len() == 0 && b.len() == 0 {
        assert(a =~= b);
    }
}

/// Sequences that agree on their first `i` elements compare as their remainders do.
proof fn lemma_refs_lt_skip(a: Seq<RefView>, b: Seq<RefView>, i: int)
    requires
        0 <= i <= a.len(),
        i <= b.len(),
        a.take(i) == b.take(i),
    ensures
        refs_lt(a, b) == refs_lt(a.skip(i), b.skip(i)),
    decreases i,
{
    if i > 0 {
        assert(a[0] == a.take(i)[0]);
        assert(b[0] == b.take(i)[0]);
        assert(a.drop_first().take(i - 1) =~= a.take(i).drop_first());
        assert(b.drop_first().take(i - 1) =~= b.take(i).drop_first());
        lemma_refs_lt_skip(a.drop_first(), b.drop_first(), i - 1);
        assert(a.drop_first().skip(i - 1) =~= a.skip(i));
        assert(b.drop_first().skip(i - 1) =~= b.skip(i));
    } else {
        assert(a.skip(0) =~= a);
        assert(b.skip(0) =~= b);
    }
}

/// Compares two paths lexicographically.
fn compare_paths(a: &Vec<ObjectRef>, b: &Vec<ObjectRef>) -> (c: CmpResult)
    ensures
        c == CmpResult::Less <==> refs_lt(ref_views(a@), ref_views(b@)),
        c == CmpResult::Equal <==> ref_views(a@) == ref_views(b@),
        c == CmpResult::Greater <==> refs_lt(ref_views(b@), ref_views(a@)),
{
    let ghost av = ref_views(a@);
    let ghost bv = ref_views(b@);
    let mut i: usize = 0;
    while i < a.len() && i < b.len()
        invariant
            av == ref_views(a@),
            bv == ref_views(b@),
            i <= a@.len(),
            i <= b@.len(),
            av.take(i as int) == bv.take(i as int),
        decreases a@.len() - i,
    {
        match a[i].compare_key(&b[i]) {
            CmpResult::Equal => {},
            c => {
                proof {
                    lemma_refs_lt_skip(av, bv, i as int);
                    assert(av.skip(i as int)[0] == av[i as int]);
                    assert(bv.skip(i as int)[0] == bv[i as int]);
                    lemma_refs_lt_irreflexive(av);
                    if av == bv {
                        assert(av[i as int] == bv[i as int]);
                    }
                    lemma_refs_lt_skip(bv, av, i as int);
                    if ref_lt(av[i as int], bv[i as int]) {
                        lemma_ref_lt_asymmetric(av[i as int], bv[i as int]);
                    }
                    if ref_lt(bv[i as int], av[i as int]) {
                        lemma_ref_lt_asymmetric(bv[i as int], av[i as int]);
                    }
                }
                return c;
            },
        }
        proof {
            assert(av.take(i + 1) =~= av.take(i as int).push(av[i as int]));
            assert(bv.take(i + 1) =~= bv.take(i as int).push(bv[i as int]));
        }
        i = i + 1;
    }
    proof {
        lemma_refs_lt_skip(av, bv, i as int);
        lemma_refs_lt_skip(bv, av, i as int);
        if i == a@.len() && i == b@.len() {
            assert(av =~= av.take(i as int));
            assert(bv =~= bv.take(i as int));
        } else {
            if av == bv {
                assert(av.len() == bv.len());
            }
        }
    }
    if a.len() < b.len() {
        CmpResult::Less
    } else if b.len() < a.len() {
        CmpResult::Greater
    } else {
        CmpResult::Equal
    }
}

/// How the routes found are ordered.
#[derive(Debug, Clone, Copy, PartialEq, Eq, Structural)]
pub enum RoutesOrdering {
    /// By number of hops, then lexicographically.
    FewestHops,
    /// Lexicographically.
    Lexicographic,
}

/// `a` comes strictly before `b` when sorting by hops (`by_hops`) or lexicographically.
pub open spec fn path_before(by_hops: bool, a: Seq<RefView>, b: Seq<RefView>) -> bool {
    if by_hops {
        route_lt(a, b)
    } else {
        refs_lt(a, b)
    }
}

proof fn lemma_path_before_order(by_hops: bool, a: Seq<RefView>, b: Seq<RefView>, c: Seq<RefView>)
    ensures
        !path_before(by_hops, a, a),
        path_before(by_hops, a, b) && path_before(by_hops, b, c) ==> path_before(by_hops, a, c),
        a == b || path_before(by_hops, a, b) || path_before(by_hops, b, a),
{
    lemma_refs_lt_irreflexive(a);
    lemma_refs_lt_total(a, b);
    if refs_lt(a, b) && refs_lt(b, c) {
        lemma_refs_lt_transitive(a, b, c);
    }
}

/// Whether path `a` comes strictly before path `b` (see `path_before`).
fn comes_before(by_hops: bool, a: &Vec<ObjectRef>, b: &Vec<ObjectRef>) -> (r: bool)
    ensures
        r == path_before(by_hops, ref_views(a@), ref_views(b@)),
{
    if by_hops {
        if a.len() != b.len() {
            return a.len() < b.len();
        }
    }
    match compare_paths(a, b) {
        CmpResult::Less => true,
        _ => false,
    }
}

/// The position of a first path in order among `paths`.
fn least_position(paths: &Vec<Vec<ObjectRef>>, by_hops: bool) -> (i: usize)
    requires
        paths@.len() > 0,
    ensures
        i < paths@.len(),
        forall|j: int| 0 <= j < paths@.len() ==> !path_before(by_hops, ref_views(#[trigger] paths@[j]@), ref_views(paths@[i as int]@)),
{
    let mut best: usize = 0;
    let mut j: usize = 1;
    proof {
        lemma_path_before_order(by_hops, ref_views(paths@[0]@), ref_views(paths@[0]@), ref_views(paths@[0]@));
    }
    while j < paths.len()
        invariant
            1 <= j <= paths@.len(),
            best < j,
            forall|k: int| 0 <= k < j ==> !path_before(by_hops, ref_views(#[trigger] paths@[k]@), ref_views(paths@[best as int]@)),
        decreases paths@.len() - j,
    {
        if comes_before(by_hops, &paths[j], &paths[best]) {
            proof {
                let nb = ref_views(paths@[j as int]@);
                let ob = ref_views(paths@[best as int]@);
                assert forall|k: int| 0 <= k < j + 1 implies !path_before(by_hops, ref_views(#[trigger] paths@[k]@), nb) by {
                    let x = ref_views(paths@[k]@);
                    lemma_path_before_order(by_hops, x, nb, ob);
                    lemma_path_before_order(by_hops, nb, nb, nb);
                }
            }
            best = j;
        }
        j = j + 1;
    }
    best
}

/// Removes and returns the first path in order among `paths`.
fn take_least(paths: &mut Vec<Vec<ObjectRef>>, by_hops: bool) -> (p: Vec<ObjectRef>)
    requires
        old(paths)@.len() > 0,
    ensures
        old(paths)@.to_multiset() == final(paths)@.to_multiset().insert(p),
        final(paths)@.len() == old(paths)@.len() - 1,
        forall|j: int| 0 <= j < final(paths)@.len() ==> !path_before(by_hops, ref_views(#[trigger] final(paths)@[j]@), ref_views(p@)),
        exists|i: int| 0 <= i < old(paths)@.len() && p == old(paths)@[i] && final(paths)@ == old(paths)@.remove(i),
{
    let i = least_position(paths, by_hops);
    let ghost before = paths@;
    let p = paths.remove(i);
    proof {
        broadcast use vstd::seq_lib::group_to_multiset_ensures;
        broadcast use vstd::multiset::group_multiset_axioms;
        vstd::seq_lib::to_multiset_remove(before, i as int);
        assert(before.contains(before[i as int]));
        assert(before.to_multiset().count(before[i as int]) > 0);
        assert(before.to_multiset() =~= before.remove(i as int).to_multiset().insert(before[i as int]));
        assert forall|j: int| 0 <= j < paths@.len() implies !path_before(by_hops, ref_views(#[trigger] paths@[j]@), ref_views(p@)) by {
            if j < i {
                assert(paths@[j] == before[j]);
            } else {
                assert(paths@[j] == before[j + 1]);
            }
        }
        assert(p == before[i as int] && paths@ == before.remove(i as int));
    }
    p
}

/// Sorts paths into ascending order (see `path_before`).
fn sort_paths(paths: Vec<Vec<ObjectRef>>, by_hops: bool) -> (r: Vec<Vec<ObjectRef>>)
    ensures
        r@.to_multiset() == paths@.to_multiset(),
        forall|i: int, j: int| 0 <= i < j < r@.len() ==> !path_before(by_hops, ref_views(#[trigger] r@[j]@), ref_views(#[trigger] r@[i]@)),
{
    let mut rest = paths;
    let mut r: Vec<Vec<ObjectRef>> = Vec::new();
    proof {
        broadcast use vstd::seq_lib::group_to_multiset_ensures;
        assert(r@.to_multiset() =~= vstd::multiset::Multiset::<Vec<ObjectRef>>::empty());
        assert(paths@.to_multiset() =~= r@.to_multiset().add(rest@.to_multiset()));
    }
    while rest.len() > 0
        invariant
            paths@.to_multiset() == r@.to_multiset().add(rest@.to_multiset()),
            forall|i: int, j: int| 0 <= i < j < r@.len() ==> !path_before(by_hops, ref_views(#[trigger] r@[j]@), ref_views(#[trigger] r@[i]@)),
            forall|i: int, j: int| 0 <= i < r@.len() && 0 <= j < rest@.len() ==> !path_before(by_hops, ref_views(#[trigger] rest@[j]@), ref_views(#[trigger] r@[i]@)),
        decreases rest@.len(),
    {
        let ghost old_rest = rest@;
        let ghost old_r = r@;
        let p = take_least(&mut rest, by_hops);
        proof {
            broadcast use vstd::seq_lib::group_to_multiset_ensures;
            assert forall|i: int, j: int| 0 <= i < old_r.len() && 0 <= j < rest@.len() implies !path_before(by_hops, ref_views(#[trigger] rest@[j]@), ref_views(#[trigger] old_r[i]@)) by {
                assert(old_rest.to_multiset().count(rest@[j]) > 0) by {
                    assert(rest@.to_multiset().count(rest@[j]) > 0);
                }
                assert(old_rest.contains(rest@[j]));
                let k = choose|k: int| 0 <= k < old_rest.len() && old_rest[k] == rest@[j];
                assert(!path_before(by_hops, ref_views(old_rest[k]@), ref_views(old_r[i]@)));
            }
            assert(old_rest.to_multiset().count(p) > 0);
            assert(old_rest.contains(p));
            let k = choose|k: int| 0 <= k < old_rest.len() && old_rest[k] == p;
            assert forall|i: int| 0 <= i < old_r.len() implies !path_before(by_hops, ref_views(p@), ref_views(#[trigger] old_r[i]@)) by {
                assert(!path_before(by_hops, ref_views(old_rest[k]@), ref_views(old_r[i]@)));
            }
        }
        r.push(p);
        proof {
            broadcast use vstd::seq_lib::group_to_multiset_ensures;
            assert(r@.to_multiset() =~= old_r.to_multiset().insert(p));
            assert(paths@.to_multiset() =~= r@.to_multiset().add(rest@.to_multiset()));
            assert forall|i: int, j: int| 0 <= i < j < r@.len() implies !path_before(by_hops, ref_views(#[trigger] r@[j]@), ref_views(#[trigger] r@[i]@)) by {
                if j < old_r.len() {
                    assert(r@[j] == old_r[j]);
                    assert(r@[i] == old_r[i]);
                } else {
                    assert(r@[i] == old_r[i]);
                }
            }
            assert forall|i: int, j: int| 0 <= i < r@.len() && 0 <= j < rest@.len() implies !path_before(by_hops, ref_views(#[trigger] rest@[j]@), ref_views(#[trigger] r@[i]@)) by {
                if i < old_r.len() {
                    assert(r@[i] == old_r[i]);
                }
            }
        }
    }
    proof {
        broadcast use vstd::seq_lib::group_to_multiset_ensures;
        assert(rest@.to_multiset() =~= vstd::multiset::Multiset::<Vec<ObjectRef>>::empty());
        assert(paths@.to_multiset() =~= r@.to_multiset());
    }
    r
}

/// The most hops a route may have: `max_hops`, or `u64::MAX` without a bound.
pub open spec fn hop_bound(max_hops: Option<u64>) -> int {
    match max_hops {
        Some(h) => h as int,
        None => u64::MAX as int,
    }
}

/// `p` is a route of `g` from `a` to `b` that passes no object twice and has at most `hb`
/// hops.
pub open spec fn is_simple_route(g: Map<RefView, Set<RefView>>, p: Seq<RefView>, a: RefView, b: RefView, hb: int) -> bool {
    &&& is_route(g, p, a, b)
    &&& p.no_duplicates()
    &&& p.len() - 1 <= hb
}

/// `c` is a prefix of `q`.
pub open spec fn is_prefix(c: Seq<RefView>, q: Seq<RefView>) -> bool {
    c.len() <= q.len() && q.take(c.len() as int) == c
}

/// A partial route: a walk of `g` from `a` that passes no object twice, with at most `hb`
/// hops.
spec fn partial_route(g: Map<RefView, Set<RefView>>, p: Seq<RefView>, a: RefView, hb: int) -> bool {
    &&& p.len() >= 1
    &&& p[0] == a
    &&& is_walk(g, p)
    &&& p.no_duplicates()
    &&& p.len() - 1 <= hb
}

/// The views of a sequence of paths.
pub open spec fn path_views(cs: Seq<Vec<ObjectRef>>) -> Seq<Seq<RefView>> {
    cs.map_values(|c: Vec<ObjectRef>| ref_views(c@))
}

/// The targets of the given adjacency entries, in order.
spec fn flat_targets(vs: Seq<SortedMap<ObjectRef, bool>>) -> Seq<RefView>
    decreases vs.len(),
{
    if vs.len() == 0 {
        Seq::empty()
    } else {
        flat_targets(vs.drop_last()) + vs.last().keys_seq()
    }
}

/// Every reference a search from `a` can pass: `a`, the sources and the targets of links.
spec fn route_universe(adj: SortedMap<ObjectRef, SortedMap<ObjectRef, bool>>, a: RefView) -> Seq<RefView> {
    seq![a] + adj.keys_seq() + flat_targets(adj.vals_seq())
}

proof fn lemma_flat_contains(vs: Seq<SortedMap<ObjectRef, bool>>, k: int, x: RefView)
    requires
        0 <= k < vs.len(),
        vs[k].keys_seq().contains(x),
    ensures
        flat_targets(vs).contains(x),
    decreases vs.len(),
{
    let f = flat_targets(vs);
    if k == vs.len() - 1 {
        let t = choose|t: int| 0 <= t < vs[k].keys_seq().len() && vs[k].keys_seq()[t] == x;
        assert(f[flat_targets(vs.drop_last()).len() + t] == x);
    } else {
        lemma_flat_contains(vs.drop_last(), k, x);
        let t = choose|t: int| 0 <= t < flat_targets(vs.drop_last()).len() && flat_targets(vs.drop_last())[t] == x;
        assert(f[t] == x);
    }
}

proof fn lemma_target_in_universe(adj: SortedMap<ObjectRef, SortedMap<ObjectRef, bool>>, a: RefView, u: RefView, x: RefView)
    requires
        adj.keys_seq().len() == adj.vals_seq().len(),
        adjacency_view(adj).contains_key(u),
        adjacency_view(adj)[u].contains(x),
    ensures
        route_universe(adj, a).contains(x),
{
    let ks = adj.keys_seq();
    let k = ks.index_of(u);
    assert(ks.contains(u));
    assert(adj@[u] == adj.vals_seq()[k]);
    assert(adj.vals_seq()[k]@.contains_key(x));
    lemma_flat_contains(adj.vals_seq(), k, x);
    let u2 = route_universe(adj, a);
    let t = choose|t: int| 0 <= t < flat_targets(adj.vals_seq()).len() && flat_targets(adj.vals_seq())[t] == x;
    assert(u2[1 + ks.len() + t] == x);
}

/// The state of a search for routes from `a` to `b` with at most `hb` hops, all within
/// `uni`: partial routes `cv` to examine, routes `rv` found. The found routes ascend strictly
/// and come before every partial route; no partial route is a prefix of another; and every
/// route is found or extends a partial route.
#[verifier::opaque]
spec fn search_ok(g: Map<RefView, Set<RefView>>, uni: Seq<RefView>, a: RefView, b: RefView, hb: int, cv: Seq<Seq<RefView>>, rv: Seq<Seq<RefView>>) -> bool {
    &&& forall|k: int| 0 <= k < cv.len() ==> partial_route(g, #[trigger] cv[k], a, hb)
    &&& forall|k: int, t: int| 0 <= k < cv.len() && 0 <= t < cv[k].len() ==> uni.contains(#[trigger] cv[k][t])
    &&& forall|k: int| 0 <= k < rv.len() ==> is_simple_route(g, #[trigger] rv[k], a, b, hb)
    &&& forall|i: int, j: int| 0 <= i < j < rv.len() ==> route_lt(#[trigger] rv[i], #[trigger] rv[j])
    &&& forall|i: int, k: int| 0 <= i < rv.len() && 0 <= k < cv.len() ==> route_lt(#[trigger] rv[i], #[trigger] cv[k])
    &&& forall|i: int, j: int| 0 <= i < cv.len() && 0 <= j < cv.len() && i != j ==> !is_prefix(#[trigger] cv[i], #[trigger] cv[j])
    &&& forall|q: Seq<RefView>| #[trigger] is_simple_route(g, q, a, b, hb) ==> rv.contains(q) || exists|k: int| 0 <= k < cv.len() && is_prefix(#[trigger] cv[k], q)
}

proof fn lemma_route_lt_order(a: Seq<RefView>, b: Seq<RefView>, c: Seq<RefView>)
    ensures
        !route_lt(a, a),
        route_lt(a, b) && route_lt(b, c) ==> route_lt(a, c),
        a == b || route_lt(a, b) || route_lt(b, a),
        route_lt(a, b) ==> !route_lt(b, a),
{
    lemma_path_before_order(true, a, b, c);
    lemma_path_before_order(true, a, b, a);
    lemma_path_before_order(true, b, a, b);
}

proof fn lemma_search_start(g: Map<RefView, Set<RefView>>, uni: Seq<RefView>, a: RefView, b: RefView, hb: int)
    requires
        uni.contains(a),
        hb >= 0,
    ensures
        search_ok(g, uni, a, b, hb, seq![seq![a]], Seq::empty()),
{
    reveal(search_ok);
    let cv = seq![seq![a]];
    assert(partial_route(g, cv[0], a, hb));
    assert forall|q: Seq<RefView>| #[trigger] is_simple_route(g, q, a, b, hb) implies exists|k: int| 0 <= k < cv.len() && is_prefix(#[trigger] cv[k], q) by {
        assert(q.take(1) =~= seq![a]);
        assert(is_prefix(cv[0], q));
    }
}

/// Taking the first partial route `c = cv[i]`, a route: it joins the found routes.
proof fn lemma_search_found(g: Map<RefView, Set<RefView>>, uni: Seq<RefView>, a: RefView, b: RefView, hb: int, cv: Seq<Seq<RefView>>, rv: Seq<Seq<RefView>>, i: int)
    requires
        search_ok(g, uni, a, b, hb, cv, rv),
        0 <= i < cv.len(),
        forall|j: int| 0 <= j < cv.len() ==> !route_lt(#[trigger] cv[j], cv[i]),
        cv[i].last() == b,
    ensures
        search_ok(g, uni, a, b, hb, cv.remove(i), rv.push(cv[i])),
{
    reveal(search_ok);
    let c = cv[i];
    let rem = cv.remove(i);
    let rv2 = rv.push(c);
    assert(partial_route(g, c, a, hb));
    assert(is_simple_route(g, c, a, b, hb));
    assert forall|k: int| 0 <= k < rem.len() implies route_lt(c, #[trigger] rem[k]) by {
        let k2 = if k < i { k } else { k + 1 };
        assert(rem[k] == cv[k2]);
        assert(!is_prefix(cv[k2], c));
        assert(cv[k2] != c) by {
            if cv[k2] == c {
                assert(c.take(c.len() as int) =~= c);
            }
        }
        assert(!route_lt(cv[k2], c));
        lemma_route_lt_order(c, cv[k2], c);
    }
    assert forall|x: int, y: int| 0 <= x < y < rv2.len() implies route_lt(#[trigger] rv2[x], #[trigger] rv2[y]) by {
        if y == rv.len() {
            assert(rv2[x] == rv[x]);
            assert(route_lt(rv[x], cv[i]));
        } else {
            assert(rv2[x] == rv[x] && rv2[y] == rv[y]);
        }
    }
    assert forall|x: int, k: int| 0 <= x < rv2.len() && 0 <= k < rem.len() implies route_lt(#[trigger] rv2[x], #[trigger] rem[k]) by {
        let k2 = if k < i { k } else { k + 1 };
        assert(rem[k] == cv[k2]);
        if x < rv.len() {
            assert(rv2[x] == rv[x]);
        }
    }
    assert forall|k: int| 0 <= k < rv2.len() implies is_simple_route(g, #[trigger] rv2[k], a, b, hb) by {
        if k < rv.len() {
            assert(rv2[k] == rv[k]);
        }
    }
    assert forall|x: int, y: int| 0 <= x < rem.len() && 0 <= y < rem.len() && x != y implies !is_prefix(#[trigger] rem[x], #[trigger] rem[y]) by {
        let x2 = if x < i { x } else { x + 1 };
        let y2 = if y < i { y } else { y + 1 };
        assert(rem[x] == cv[x2] && rem[y] == cv[y2]);
    }
    assert forall|k: int, t: int| 0 <= k < rem.len() && 0 <= t < rem[k].len() implies uni.contains(#[trigger] rem[k][t]) by {
        let k2 = if k < i { k } else { k + 1 };
        assert(rem[k] == cv[k2]);
    }
    assert forall|k: int| 0 <= k < rem.len() implies partial_route(g, #[trigger] rem[k], a, hb) by {
        let k2 = if k < i { k } else { k + 1 };
        assert(rem[k] == cv[k2]);
    }
    assert forall|q: Seq<RefView>| #[trigger] is_simple_route(g, q, a, b, hb) implies rv2.contains(q) || exists|k: int| 0 <= k < rem.len() && is_prefix(#[trigger] rem[k], q) by {
        if rv.contains(q) {
            let t = choose|t: int| 0 <= t < rv.len() && rv[t] == q;
            assert(rv2[t] == q);
        } else {
            let k = choose|k: int| 0 <= k < cv.len() && is_prefix(#[trigger] cv[k], q);
            if k == i {
                if c.len() < q.len() {
                    assert(q[c.len() - 1] == c[c.len() - 1]);
                    assert(q[c.len() - 1] == q[q.len() - 1]);
                } else {
                    assert(q =~= c);
                    assert(rv2[rv.len() as int] == q);
                }
            } else {
                let k2 = if k < i { k } else { k - 1 };
                assert(rem[k2] == cv[k]);
            }
        }
    }
}

/// Taking the first partial route `c = cv[i]`, not a route and already at the bound of hops:
/// it is dropped.
proof fn lemma_search_dropped(g: Map<RefView, Set<RefView>>, uni: Seq<RefView>, a: RefView, b: RefView, hb: int, cv: Seq<Seq<RefView>>, rv: Seq<Seq<RefView>>, i: int)
    requires
        search_ok(g, uni, a, b, hb, cv, rv),
        0 <= i < cv.len(),
        cv[i].last() != b,
        cv[i].len() - 1 >= hb,
    ensures
        search_ok(g, uni, a, b, hb, cv.remove(i), rv),
{
    reveal(search_ok);
    let c = cv[i];
    let rem = cv.remove(i);
    assert forall|x: int, k: int| 0 <= x < rv.len() && 0 <= k < rem.len() implies route_lt(#[trigger] rv[x], #[trigger] rem[k]) by {
        let k2 = if k < i { k } else { k + 1 };
        assert(rem[k] == cv[k2]);
    }
    assert forall|x: int, y: int| 0 <= x < rem.len() && 0 <= y < rem.len() && x != y implies !is_prefix(#[trigger] rem[x], #[trigger] rem[y]) by {
        let x2 = if x < i { x } else { x + 1 };
        let y2 = if y < i { y } else { y + 1 };
        assert(rem[x] == cv[x2] && rem[y] == cv[y2]);
    }
    assert forall|k: int, t: int| 0 <= k < rem.len() && 0 <= t < rem[k].len() implies uni.contains(#[trigger] rem[k][t]) by {
        let k2 = if k < i { k } else { k + 1 };
        assert(rem[k] == cv[k2]);
    }
    assert forall|k: int| 0 <= k < rem.len() implies partial_route(g, #[trigger] rem[k], a, hb) by {
        let k2 = if k < i { k } else { k + 1 };
        assert(rem[k] == cv[k2]);
    }
    assert forall|q: Seq<RefView>| #[trigger] is_simple_route(g, q, a, b, hb) implies rv.contains(q) || exists|k: int| 0 <= k < rem.len() && is_prefix(#[trigger] rem[k], q) by {
        if !rv.contains(q) {
            let k = choose|k: int| 0 <= k < cv.len() && is_prefix(#[trigger] cv[k], q);
            if k == i {
                if c.len() == q.len() {
                    assert(q =~= c);
                }
            } else {
                let k2 = if k < i { k } else { k - 1 };
                assert(rem[k2] == cv[k]);
            }
        }
    }
}

/// Taking the first partial route `c = cv[i]`, not a route and below the bound of hops: it is
/// replaced by its extensions `ch`, one for each target of its last object that it does not
/// pass.
proof fn lemma_search_extended(
    g: Map<RefView, Set<RefView>>,
    uni: Seq<RefView>,
    a: RefView,
    b: RefView,
    hb: int,
    cv: Seq<Seq<RefView>>,
    rv: Seq<Seq<RefView>>,
    i: int,
    ch: Seq<Seq<RefView>>,
)
    requires
        search_ok(g, uni, a, b, hb, cv, rv),
        0 <= i < cv.len(),
        cv[i].last() != b,
        cv[i].len() - 1 < hb,
        forall|t: int| 0 <= t < ch.len() ==> extends(g, cv[i], #[trigger] ch[t]),
        forall|t: int| 0 <= t < ch.len() ==> uni.contains((#[trigger] ch[t]).last()),
        forall|s: int, t: int| 0 <= s < t < ch.len() ==> (#[trigger] ch[s]).last() != (#[trigger] ch[t]).last(),
        forall|x: RefView| g.contains_key(cv[i].last()) && #[trigger] g[cv[i].last()].contains(x) && !cv[i].contains(x)
            ==> exists|t: int| 0 <= t < ch.len() && #[trigger] ch[t] == cv[i].push(x),
    ensures
        search_ok(g, uni, a, b, hb, cv.remove(i) + ch, rv),
{
    reveal(search_ok);
    let c = cv[i];
    let rem = cv.remove(i);
    let nv = rem + ch;
    assert(partial_route(g, c, a, hb));
    assert forall|t: int| 0 <= t < ch.len() implies #[trigger] ch[t] == c.push(ch[t].last()) by {
        assert(extends(g, c, ch[t]));
        assert(ch[t] =~= ch[t].drop_last().push(ch[t].last()));
    }
    assert forall|k: int| 0 <= k < nv.len() implies partial_route(g, #[trigger] nv[k], a, hb) by {
        if k < rem.len() {
            let k2 = if k < i { k } else { k + 1 };
            assert(nv[k] == cv[k2]);
        } else {
            let p = nv[k];
            let t = k - rem.len();
            assert(p == ch[t]);
            assert(extends(g, c, p));
            assert(p == c.push(p.last()));
            assert forall|s: int| 0 <= s < p.len() - 1 implies #[trigger] step(g, p, s) by {
                if s < c.len() - 1 {
                    assert(step(g, c, s));
                }
            }
            assert forall|x: int, y: int| 0 <= x < y < p.len() implies p[x] != p[y] by {
                if y == p.len() - 1 {
                    assert(c.contains(p[x]));
                }
            }
        }
    }
    assert forall|k: int, t: int| 0 <= k < nv.len() && 0 <= t < nv[k].len() implies uni.contains(#[trigger] nv[k][t]) by {
        if k < rem.len() {
            let k2 = if k < i { k } else { k + 1 };
            assert(nv[k] == cv[k2]);
        } else {
            let s = k - rem.len();
            assert(nv[k] == ch[s]);
            assert(ch[s] == c.push(ch[s].last()));
            if t < c.len() {
                assert(nv[k][t] == cv[i][t]);
            }
        }
    }
    assert forall|x: int, k: int| 0 <= x < rv.len() && 0 <= k < nv.len() implies route_lt(#[trigger] rv[x], #[trigger] nv[k]) by {
        if k < rem.len() {
            let k2 = if k < i { k } else { k + 1 };
            assert(nv[k] == cv[k2]);
        } else {
            let s = k - rem.len();
            assert(nv[k] == ch[s]);
            assert(extends(g, c, ch[s]));
            assert(route_lt(rv[x], c));
            assert(route_lt(c, ch[s]));
            lemma_route_lt_order(rv[x], c, ch[s]);
        }
    }
    assert forall|x: int, y: int| 0 <= x < nv.len() && 0 <= y < nv.len() && x != y implies !is_prefix(#[trigger] nv[x], #[trigger] nv[y]) by {
        if x < rem.len() && y < rem.len() {
            let x2 = if x < i { x } else { x + 1 };
            let y2 = if y < i { y } else { y + 1 };
            assert(nv[x] == cv[x2] && nv[y] == cv[y2]);
        } else if x >= rem.len() && y >= rem.len() {
            let s = x - rem.len();
            let t = y - rem.len();
            assert(nv[x] == ch[s] && nv[y] == ch[t]);
            assert(ch[s] == c.push(ch[s].last()) && ch[t] == c.push(ch[t].last()));
            if is_prefix(nv[x], nv[y]) {
                assert(nv[y].take(nv[x].len() as int) =~= nv[y]);
                if s < t {
                    assert(ch[s].last() != ch[t].last());
                } else {
                    assert(ch[t].last() != ch[s].last());
                }
            }
        } else if x < rem.len() {
            let x2 = if x < i { x } else { x + 1 };
            let t = y - rem.len();
            assert(nv[x] == cv[x2] && nv[y] == ch[t]);
            assert(ch[t] == c.push(ch[t].last()));
            if is_prefix(nv[x], nv[y]) {
                if cv[x2].len() <= c.len() {
                    assert(c.take(cv[x2].len() as int) =~= ch[t].take(cv[x2].len() as int));
                    assert(is_prefix(cv[x2], c));
                } else {
                    assert(cv[x2] =~= ch[t]);
                    assert(cv[x2].take(c.len() as int) =~= c);
                    assert(is_prefix(c, cv[x2]));
                }
            }
        } else {
            let s = x - rem.len();
            let y2 = if y < i { y } else { y + 1 };
            assert(nv[x] == ch[s] && nv[y] == cv[y2]);
            assert(ch[s] == c.push(ch[s].last()));
            if is_prefix(nv[x], nv[y]) {
                assert(cv[y2].take(c.len() as int) =~= ch[s].take(c.len() as int));
                assert(ch[s].take(c.len() as int) =~= c);
                assert(is_prefix(c, cv[y2]));
            }
        }
    }
    assert forall|q: Seq<RefView>| #[trigger] is_simple_route(g, q, a, b, hb) implies rv.contains(q) || exists|k: int| 0 <= k < nv.len() && is_prefix(#[trigger] nv[k], q) by {
        if !rv.contains(q) {
            let k = choose|k: int| 0 <= k < cv.len() && is_prefix(#[trigger] cv[k], q);
            if k == i {
                if c.len() == q.len() {
                    assert(q =~= c);
                } else {
                    let x = q[c.len() as int];
                    assert(q[c.len() - 1] == c.last());
                    assert(step(g, q, c.len() - 1));
                    assert(!c.contains(x)) by {
                        if c.contains(x) {
                            let s = choose|s: int| 0 <= s < c.len() && c[s] == x;
                            assert(q[s] == c[s]);
                        }
                    }
                    assert(g[c.last()].contains(x));
                    let t = choose|t: int| 0 <= t < ch.len() && #[trigger] ch[t] == c.push(x);
                    assert(nv[rem.len() + t] == ch[t]);
                    assert(q.take((c.len() + 1) as int) =~= c.push(x));
                    assert(is_prefix(nv[rem.len() + t], q));
                }
            } else {
                let k2 = if k < i { k } else { k - 1 };
                assert(nv[k2] == cv[k]);
            }
        }
    }
}

/// Whether `p` passes `r`.
fn path_contains(p: &Vec<ObjectRef>, r: &ObjectRef) -> (b: bool)
    ensures
        b <==> ref_views(p@).contains(r@),
{
    let mut i: usize = 0;
    while i < p.len()
        invariant
            i <= p@.len(),
            forall|k: int| 0 <= k < i ==> p@[k]@ != r@,
        decreases p@.len() - i,
    {
        if same_ref(&p[i], r) {
            proof {
                assert(ref_views(p@)[i as int] == r@);
            }
            return true;
        }
        i = i + 1;
    }
    proof {
        if ref_views(p@).contains(r@) {
            let k = choose|k: int| 0 <= k < ref_views(p@).len() && ref_views(p@)[k] == r@;
            assert(p@[k]@ == r@);
        }
    }
    false
}

/// A copy of path `p`.
fn copy_path(p: &Vec<ObjectRef>) -> (c: Vec<ObjectRef>)
    ensures
        ref_views(c@) == ref_views(p@),
{
    let mut c: Vec<ObjectRef> = Vec::new();
    let mut i: usize = 0;
    while i < p.len()
        invariant
            i <= p@.len(),
            c@.len() == i,
            forall|k: int| 0 <= k < i ==> (#[trigger] c@[k])@ == p@[k]@,
        decreases p@.len() - i,
    {
        c.push(p[i].key_dup());
        i = i + 1;
    }
    proof {
        assert(ref_views(c@) =~= ref_views(p@));
    }
    c
}

/// `p` is `c` followed by a target of the last object of `c` that `c` does not pass.
spec fn extends(g: Map<RefView, Set<RefView>>, c: Seq<RefView>, p: Seq<RefView>) -> bool {
    &&& p.len() == c.len() + 1
    &&& p.drop_last() == c
    &&& g.contains_key(c.last())
    &&& g[c.last()].contains(p.last())
    &&& !c.contains(p.last())
}

/// Appends to `cands` the extensions of `cand` by each target of its last object that `cand`
/// does not pass, in ascending order of the target.
fn extend_candidates(
    cands: &mut Vec<Vec<ObjectRef>>,
    cand: &Vec<ObjectRef>,
    adj: &SortedMap<ObjectRef, SortedMap<ObjectRef, bool>>,
)
    requires
        cand@.len() >= 1,
    ensures
        final(cands)@.len() >= old(cands)@.len(),
        forall|i: int| 0 <= i < old(cands)@.len() ==> #[trigger] final(cands)@[i] == old(cands)@[i],
        forall|i: int| old(cands)@.len() <= i < final(cands)@.len() ==> extends(adjacency_view(*adj), ref_views(cand@), ref_views(#[trigger] final(cands)@[i]@)),
        forall|s: int, t: int| old(cands)@.len() <= s < t < final(cands)@.len() ==> ref_views((#[trigger] final(cands)@[s])@).last() != ref_views((#[trigger] final(cands)@[t])@).last(),
        forall|x: RefView| adjacency_view(*adj).contains_key(ref_views(cand@).last()) && #[trigger] adjacency_view(*adj)[ref_views(cand@).last()].contains(x) && !ref_views(cand@).contains(x)
            ==> exists|t: int| old(cands)@.len() <= t < final(cands)@.len() && ref_views(#[trigger] final(cands)@[t]@) == ref_views(cand@).push(x),
{
    let last = &cand[cand.len() - 1];
    let ghost cv = ref_views(cand@);
    let ghost lv = cv.last();
    let ghost g = adjacency_view(*adj);
    proof {
        assert(last@ == lv);
    }
    match adj.get(last) {
        None => {},
        Some(targets) => {
            proof {
                use_type_invariant(targets);
                targets.lemma_shape();
            }
            let ghost c0 = cands@;
            let ghost ks = targets.keys_seq();
            proof {
                assert forall|a: int, b: int| 0 <= a < b < ks.len() implies #[trigger] ks[a] != #[trigger] ks[b] by {
                    crate::sorted_map::lemma_sorted_distinct::<ObjectRef>(ks, a, b);
                }
            }
            let m = targets.len();
            let mut j: usize = 0;
            let ghost mut idx: Seq<int> = Seq::empty();
            while j < m
                invariant
                    m == ks.len(),
                    ks == targets.keys_seq(),
                    forall|i: int| 0 <= i < ks.len() ==> #[trigger] targets@.contains_key(ks[i]),
                    forall|k: RefView| #[trigger] targets@.contains_key(k) <==> ks.contains(k),
                    forall|a: int, b: int| 0 <= a < b < ks.len() ==> #[trigger] ks[a] != #[trigger] ks[b],
                    g == adjacency_view(*adj),
                    g.contains_key(lv),
                    g[lv] == targets@.dom(),
                    cv == ref_views(cand@),
                    lv == cv.last(),
                    cand@.len() >= 1,
                    j <= m,
                    cands@.len() >= c0.len(),
                    idx.len() == cands@.len() - c0.len(),
                    forall|i: int| 0 <= i < c0.len() ==> #[trigger] cands@[i] == c0[i],
                    forall|i: int| c0.len() <= i < cands@.len() ==> extends(g, cv, ref_views(#[trigger] cands@[i]@)),
                    forall|t: int| 0 <= t < idx.len() ==> 0 <= #[trigger] idx[t] < j && ref_views(cands@[c0.len() + t]@).last() == ks[idx[t]],
                    forall|s: int, t: int| 0 <= s < t < idx.len() ==> #[trigger] idx[s] < #[trigger] idx[t],
                    forall|jj: int| 0 <= jj < j && !cv.contains(#[trigger] ks[jj]) ==> exists|t: int| c0.len() <= t < cands@.len() && ref_views(#[trigger] cands@[t]@) == cv.push(ks[jj]),
                decreases m - j,
            {
                let next = targets.key_at(j);
                if !path_contains(cand, next) {
                    let np0 = copy_path(cand);
                    let mut np = np0;
                    let ghost nv = next@;
                    np.push(next.key_dup());
                    let ghost before = cands@;
                    proof {
                        assert(ref_views(np@) =~= cv.push(nv));
                        assert(targets@.contains_key(ks[j as int]));
                        assert(ref_views(np@).drop_last() =~= cv);
                    }
                    cands.push(np);
                    proof {
                        idx = idx.push(j as int);
                        assert forall|i: int| c0.len() <= i < cands@.len() implies extends(g, cv, ref_views(#[trigger] cands@[i]@)) by {
                            if i < before.len() {
                                assert(cands@[i] == before[i]);
                            }
                        }
                        assert forall|t: int| 0 <= t < idx.len() implies 0 <= #[trigger] idx[t] < j + 1 && ref_views(cands@[c0.len() + t]@).last() == ks[idx[t]] by {
                            if t < idx.len() - 1 {
                                assert(cands@[c0.len() + t] == before[c0.len() + t]);
                            }
                        }
                        assert forall|jj: int| 0 <= jj < j + 1 && !cv.contains(#[trigger] ks[jj]) implies exists|t: int| c0.len() <= t < cands@.len() && ref_views(#[trigger] cands@[t]@) == cv.push(ks[jj]) by {
                            if jj < j {
                                let t = choose|t: int| c0.len() <= t < before.len() && ref_views(#[trigger] before[t]@) == cv.push(ks[jj]);
                                assert(cands@[t] == before[t]);
                            } else {
                                assert(ref_views(cands@[before.len() as int]@) == cv.push(ks[jj]));
                            }
                        }
                    }
                }
                j = j + 1;
            }
            proof {
                assert forall|s: int, t: int| c0.len() <= s < t < cands@.len() implies ref_views((#[trigger] cands@[s])@).last() != ref_views((#[trigger] cands@[t])@).last() by {
                    let s2 = s - c0.len();
                    let t2 = t - c0.len();
                    assert(idx[s2] < idx[t2]);
                }
                assert forall|x: RefView| g.contains_key(lv) && #[trigger] g[lv].contains(x) && !cv.contains(x)
                    implies exists|t: int| c0.len() <= t < cands@.len() && ref_views(#[trigger] cands@[t]@) == cv.push(x) by {
                    assert(ks.contains(x));
                    let jj = choose|jj: int| 0 <= jj < ks.len() && ks[jj] == x;
                    assert(!cv.contains(ks[jj]));
                }
            }
        },
    }
}

/// Finds up to `limit` routes from `from` to `to` that pass no object twice and have at most
/// `max_hops` hops (`u64::MAX` without a bound): the first ones in order of hops, then
/// lexicographically, taking partial routes in that order. They come in that order, or sorted
/// lexicographically.
pub fn find_routes_with_adjacency(
    adjacency: &SessionRouteAdjacency,
    from: &ObjectRef,
    to: &ObjectRef,
    limit: u64,
    max_hops: Option<u64>,
    ordering: RoutesOrdering,
) -> (r: Vec<Vec<ObjectRef>>)
    ensures
        r@.len() <= limit,
        forall|i: int| 0 <= i < r@.len() ==> is_simple_route(adjacency.graph(), ref_views(#[trigger] r@[i]@), from@, to@, hop_bound(max_hops)),
        forall|q: Seq<RefView>| #[trigger] is_simple_route(adjacency.graph(), q, from@, to@, hop_bound(max_hops)) ==>
            path_views(r@).contains(q) || (r@.len() == limit && forall|i: int| 0 <= i < r@.len() ==> route_lt(ref_views(#[trigger] r@[i]@), q)),
        ordering == RoutesOrdering::FewestHops ==> forall|i: int, j: int| 0 <= i < j < r@.len() ==> route_lt(ref_views(#[trigger] r@[i]@), ref_views(#[trigger] r@[j]@)),
        ordering == RoutesOrdering::Lexicographic ==> forall|i: int, j: int| 0 <= i < j < r@.len() ==> refs_lt(ref_views(#[trigger] r@[i]@), ref_views(#[trigger] r@[j]@)),
{
    let routes = fewest_hop_routes(adjacency, from, to, limit, max_hops);
    match ordering {
        RoutesOrdering::FewestHops => routes,
        RoutesOrdering::Lexicographic => {
            let ghost g = adjacency.graph();
            let sorted = sort_paths(routes, false);
            proof {
                broadcast use vstd::seq_lib::group_to_multiset_ensures;
                vstd::seq_lib::to_multiset_len(sorted@);
                vstd::seq_lib::to_multiset_len(routes@);
                assert forall|v: Vec<ObjectRef>| #[trigger] sorted@.contains(v) <==> routes@.contains(v) by {
                    assert(sorted@.to_multiset().count(v) == routes@.to_multiset().count(v));
                }
                assert forall|i: int| 0 <= i < sorted@.len() implies is_simple_route(g, ref_views(#[trigger] sorted@[i]@), from@, to@, hop_bound(max_hops)) by {
                    assert(sorted@.contains(sorted@[i]));
                    let k = choose|k: int| 0 <= k < routes@.len() && routes@[k] == sorted@[i];
                    assert(is_simple_route(g, ref_views(routes@[k]@), from@, to@, hop_bound(max_hops)));
                }
                assert forall|q: Seq<RefView>| #[trigger] is_simple_route(g, q, from@, to@, hop_bound(max_hops)) implies
                    path_views(sorted@).contains(q) || (sorted@.len() == limit && forall|i: int| 0 <= i < sorted@.len() ==> route_lt(ref_views(#[trigger] sorted@[i]@), q)) by {
                    if path_views(routes@).contains(q) {
                        let k = choose|k: int| 0 <= k < routes@.len() && path_views(routes@)[k] == q;
                        assert(routes@.contains(routes@[k]));
                        assert(sorted@.contains(routes@[k]));
                        let t = choose|t: int| 0 <= t < sorted@.len() && sorted@[t] == routes@[k];
                        assert(path_views(sorted@)[t] == q);
                    } else {
                        assert forall|i: int| 0 <= i < sorted@.len() implies route_lt(ref_views(#[trigger] sorted@[i]@), q) by {
                            assert(sorted@.contains(sorted@[i]));
                            let k = choose|k: int| 0 <= k < routes@.len() && routes@[k] == sorted@[i];
                            assert(route_lt(ref_views(routes@[k]@), q));
                        }
                    }
                }
                assert(routes@.no_duplicates()) by {
                    assert forall|a: int, b: int| 0 <= a < routes@.len() && 0 <= b < routes@.len() && a != b implies routes@[a] != routes@[b] by {
                        if routes@[a] == routes@[b] {
                            let v = ref_views(routes@[a]@);
                            lemma_route_lt_order(v, v, v);
                            if a < b {
                                assert(route_lt(ref_views(routes@[a]@), ref_views(routes@[b]@)));
                            } else {
                                assert(route_lt(ref_views(routes@[b]@), ref_views(routes@[a]@)));
                            }
                        }
                    }
                }
                routes@.lemma_multiset_has_no_duplicates();
                assert forall|x: Vec<ObjectRef>| sorted@.to_multiset().contains(x) implies sorted@.to_multiset().count(x) == 1 by {
                    assert(routes@.to_multiset().contains(x));
                }
                sorted@.lemma_multiset_has_no_duplicates_conv();
                assert forall|i: int, j: int| 0 <= i < j < sorted@.len() implies refs_lt(ref_views(#[trigger] sorted@[i]@), ref_views(#[trigger] sorted@[j]@)) by {
                    let a = ref_views(sorted@[i]@);
                    let b = ref_views(sorted@[j]@);
                    assert(!refs_lt(b, a));
                    lemma_refs_lt_total(a, b);
                    if a == b {
                        assert(sorted@[i] != sorted@[j]);
                        assert(sorted@.contains(sorted@[i]) && sorted@.contains(sorted@[j]));
                        let ki = choose|k: int| 0 <= k < routes@.len() && routes@[k] == sorted@[i];
                        let kj = choose|k: int| 0 <= k < routes@.len() && routes@[k] == sorted@[j];
                        lemma_route_lt_order(a, a, a);
                        if ki < kj {
                            assert(route_lt(ref_views(routes@[ki]@), ref_views(routes@[kj]@)));
                        } else {
                            assert(route_lt(ref_views(routes@[kj]@), ref_views(routes@[ki]@)));
                        }
                    }
                }
            }
            sorted
        },
    }
}

/// The first `limit` simple routes from `from` to `to` within the bound of hops, in order of
/// hops, then lexicographically, by best-first search over partial routes.
fn fewest_hop_routes(
    adjacency: &SessionRouteAdjacency,
    from: &ObjectRef,
    to: &ObjectRef,
    limit: u64,
    max_hops: Option<u64>,
) -> (r: Vec<Vec<ObjectRef>>)
    ensures
        r@.len() <= limit,
        forall|i: int| 0 <= i < r@.len() ==> is_simple_route(adjacency.graph(), ref_views(#[trigger] r@[i]@), from@, to@, hop_bound(max_hops)),
        forall|q: Seq<RefView>| #[trigger] is_simple_route(adjacency.graph(), q, from@, to@, hop_bound(max_hops)) ==>
            path_views(r@).contains(q) || (r@.len() == limit && forall|i: int| 0 <= i < r@.len() ==> route_lt(ref_views(#[trigger] r@[i]@), q)),
        forall|i: int, j: int| 0 <= i < j < r@.len() ==> route_lt(ref_views(#[trigger] r@[i]@), ref_views(#[trigger] r@[j]@)),
{
    let ghost g = adjacency.graph();
    let ghost hb = hop_bound(max_hops);
    if limit == 0 {
        return Vec::new();
    }
    let max: u64 = match max_hops {
        Some(h) => h,
        None => u64::MAX,
    };
    let adj = &adjacency.adjacency;
    let ghost uni = route_universe(*adj, from@);
    let ghost bb: nat = uni.len() + 1;
    let ghost mm: nat = uni.len();
    proof {
        use_type_invariant(adj);
        adj.lemma_shape();
        assert(uni[0] == from@);
        lemma_search_start(g, uni, from@, to@, hb);
    }
    let mut cands: Vec<Vec<ObjectRef>> = Vec::new();
    cands.push(vec![from.key_dup()]);
    let mut routes: Vec<Vec<ObjectRef>> = Vec::new();
    let mut found: u64 = 0;
    proof {
        assert(ref_views(cands@[0]@) =~= seq![from@]);
        assert(path_views(cands@) =~= seq![seq![from@]]);
        assert(path_views(routes@) =~= Seq::<Seq<RefView>>::empty());
    }
    while cands.len() > 0 && found < limit
        invariant
            g == adjacency_view(*adj),
            g == adjacency.graph(),
            adj.keys_seq().len() == adj.vals_seq().len(),
            uni == route_universe(*adj, from@),
            bb == uni.len() + 1,
            mm == uni.len(),
            hb == hop_bound(max_hops),
            max == hb,
            found == routes@.len(),
            found <= limit,
            search_ok(g, uni, from@, to@, hb, path_views(cands@), path_views(routes@)),
        decreases potential(path_views(cands@), bb, mm),
    {
        let ghost cv0 = path_views(cands@);
        let ghost rv0 = path_views(routes@);
        let ghost old_cands = cands@;
        let cand = take_least(&mut cands, true);
        let ghost i: int = choose|i: int| 0 <= i < old_cands.len() && cand == old_cands[i] && cands@ == old_cands.remove(i);
        let ghost c = ref_views(cand@);
        proof {
            assert(path_views(cands@) =~= cv0.remove(i));
            assert(cv0[i] == c);
            assert forall|j: int| 0 <= j < cv0.len() implies !route_lt(#[trigger] cv0[j], cv0[i]) by {
                lemma_route_lt_order(c, c, c);
                if j < i {
                    assert(cv0[j] == ref_views(cands@[j]@));
                } else if j > i {
                    assert(cv0[j] == ref_views(cands@[j - 1]@));
                }
            }
            lemma_potential_remove(cv0, bb, mm, i);
            reveal(search_ok);
            assert(partial_route(g, cv0[i], from@, hb));
            assert forall|t: int| 0 <= t < c.len() implies uni.contains(#[trigger] c[t]) by {
                assert(uni.contains(cv0[i][t]));
            }
            lemma_distinct_within_len(c, uni);
            lemma_power_positive(bb, (mm - c.len()) as nat);
        }
        let n = cand.len();
        if same_ref(&cand[n - 1], to) {
            proof {
                assert(c.last() == cand@[n - 1]@);
                lemma_search_found(g, uni, from@, to@, hb, cv0, rv0, i);
            }
            routes.push(cand);
            found = found + 1;
            proof {
                assert(path_views(routes@) =~= rv0.push(c));
            }
        } else if ((n - 1) as u64) < max {
            let ghost before = cands@;
            extend_candidates(&mut cands, &cand, adj);
            proof {
                let ch = path_views(cands@).skip(before.len() as int);
                assert(path_views(cands@) =~= path_views(before) + ch);
                assert(path_views(before) == cv0.remove(i));
                assert(c.last() == cand@[n - 1]@);
                assert forall|t: int| 0 <= t < ch.len() implies extends(g, cv0[i], #[trigger] ch[t]) by {
                    assert(ch[t] == ref_views(cands@[before.len() + t]@));
                }
                assert forall|t: int| 0 <= t < ch.len() implies uni.contains((#[trigger] ch[t]).last()) by {
                    assert(ch[t] == ref_views(cands@[before.len() + t]@));
                    assert(extends(g, c, ch[t]));
                    lemma_target_in_universe(*adj, from@, c.last(), ch[t].last());
                }
                assert forall|a: int, b: int| 0 <= a < b < ch.len() implies (#[trigger] ch[a]).last() != (#[trigger] ch[b]).last() by {
                    assert(ch[a] == ref_views(cands@[before.len() + a]@));
                    assert(ch[b] == ref_views(cands@[before.len() + b]@));
                }
                assert forall|x: RefView| g.contains_key(cv0[i].last()) && #[trigger] g[cv0[i].last()].contains(x) && !cv0[i].contains(x)
                    implies exists|t: int| 0 <= t < ch.len() && #[trigger] ch[t] == cv0[i].push(x) by {
                    let t = choose|t: int| before.len() <= t < cands@.len() && ref_views(#[trigger] cands@[t]@) == c.push(x);
                    assert(ch[t - before.len()] == ref_views(cands@[t]@));
                }
                lemma_search_extended(g, uni, from@, to@, hb, cv0, rv0, i, ch);
                assert forall|t: int| 0 <= t < ch.len() implies (#[trigger] ch[t]).len() == c.len() + 1 by {
                    assert(extends(g, c, ch[t]));
                }
                lemma_potential_append(cv0.remove(i), ch, bb, mm, (c.len() + 1) as nat);
                if ch.len() > 0 {
                    let child = ch[0];
                    assert(extends(g, c, child));
                    assert(child =~= c.push(child.last()));
                    assert(child.no_duplicates()) by {
                        assert forall|a: int, b: int| 0 <= a < b < child.len() implies child[a] != child[b] by {
                            if b == child.len() - 1 {
                                assert(c.contains(child[a]));
                            }
                        }
                    }
                    assert forall|t: int| 0 <= t < child.len() implies uni.contains(#[trigger] child[t]) by {
                        if t < c.len() {
                            assert(child[t] == c[t]);
                        }
                    }
                    lemma_distinct_within_len(child, uni);
                    let lasts = Seq::new(ch.len(), |t: int| ch[t].last());
                    assert forall|t: int| 0 <= t < lasts.len() implies uni.contains(#[trigger] lasts[t]) by {
                        assert(uni.contains(ch[t].last()));
                    }
                    assert(lasts.no_duplicates()) by {
                        assert forall|a: int, b: int| 0 <= a < lasts.len() && 0 <= b < lasts.len() && a != b implies lasts[a] != lasts[b] by {
                            if a < b {
                                assert(ch[a].last() != ch[b].last());
                            } else {
                                assert(ch[b].last() != ch[a].last());
                            }
                        }
                    }
                    lemma_distinct_within_len(lasts, uni);
                    let e = (mm - c.len()) as nat;
                    let w1 = power(bb, (e - 1) as nat);
                    lemma_power_positive(bb, (e - 1) as nat);
                    assert(power(bb, e) == bb * w1);
                    assert(weight(bb, mm, (c.len() + 1) as nat) == w1);
                    let k = ch.len();
                    assert(k * w1 < bb * w1) by (nonlinear_arith)
                        requires
                            k < bb,
                            w1 >= 1,
                    ;
                }
            }
        } else {
            proof {
                assert(c.last() == cand@[n - 1]@);
                lemma_search_dropped(g, uni, from@, to@, hb, cv0, rv0, i);
            }
        }
    }
    proof {
        reveal(search_ok);
        let cv = path_views(cands@);
        let rv = path_views(routes@);
        assert forall|q: Seq<RefView>| #[trigger] is_simple_route(g, q, from@, to@, hb) implies
            rv.contains(q) || (routes@.len() == limit && forall|i: int| 0 <= i < routes@.len() ==> route_lt(ref_views(#[trigger] routes@[i]@), q)) by {
            if !rv.contains(q) {
                let k = choose|k: int| 0 <= k < cv.len() && is_prefix(#[trigger] cv[k], q);
                assert forall|i: int| 0 <= i < routes@.len() implies route_lt(ref_views(#[trigger] routes@[i]@), q) by {
                    assert(rv[i] == ref_views(routes@[i]@));
                    assert(route_lt(rv[i], cv[k]));
                    if cv[k].len() == q.len() {
                        assert(q.take(q.len() as int) =~= q);
                    } else {
                        lemma_route_lt_order(rv[i], cv[k], q);
                    }
                }
            }
        }
        assert forall|i: int| 0 <= i < routes@.len() implies is_simple_route(g, ref_views(#[trigger] routes@[i]@), from@, to@, hb) by {
            assert(rv[i] == ref_views(routes@[i]@));
        }
        assert forall|i: int, j: int| 0 <= i < j < routes@.len() implies route_lt(ref_views(#[trigger] routes@[i]@), ref_views(#[trigger] routes@[j]@)) by {
            assert(rv[i] == ref_views(routes@[i]@));
            assert(rv[j] == ref_views(routes@[j]@));
        }
    }
    proof {
        reveal(search_ok);
    }
    routes
}

/// Finds routes between two objects of a session (see `find_routes_with_adjacency`).
pub fn find_routes(
    session: &Session,
    from: &ObjectRef,
    to: &ObjectRef,
    limit: u64,
    max_hops: Option<u64>,
    ordering: RoutesOrdering,
) -> (r: Vec<Vec<ObjectRef>>)
    ensures
        r@.len() <= limit,
        forall|i: int| 0 <= i < r@.len() ==> is_simple_route(session_graph(*session), ref_views(#[trigger] r@[i]@), from@, to@, hop_bound(max_hops)),
        forall|q: Seq<RefView>| #[trigger] is_simple_route(session_graph(*session), q, from@, to@, hop_bound(max_hops)) ==>
            path_views(r@).contains(q) || (r@.len() == limit && forall|i: int| 0 <= i < r@.len() ==> route_lt(ref_views(#[trigger] r@[i]@), q)),
        ordering == RoutesOrdering::FewestHops ==> forall|i: int, j: int| 0 <= i < j < r@.len() ==> route_lt(ref_views(#[trigger] r@[i]@), ref_views(#[trigger] r@[j]@)),
        ordering == RoutesOrdering::Lexicographic ==> forall|i: int, j: int| 0 <= i < j < r@.len() ==> refs_lt(ref_views(#[trigger] r@[i]@), ref_views(#[trigger] r@[j]@)),
{
    let adjacency = SessionRouteAdjacency::derive(session);
    find_routes_with_adjacency(&adjacency, from, to, limit, max_hops, ordering)
}

/// Routes in hop order are determined by the graph and the query: two route sequences that
/// both meet the contract of `find_routes_with_adjacency` (in hop order) are the same. So
/// `find_routes` on a session and `find_routes_with_adjacency` on its derived adjacency agree,
/// and repeating a search repeats its routes.
pub proof fn lemma_routes_determined(
    g: Map<RefView, Set<RefView>>,
    a: RefView,
    b: RefView,
    hb: int,
    limit: int,
    r1: Seq<Seq<RefView>>,
    r2: Seq<Seq<RefView>>,
)
    requires
        r1.len() <= limit,
        r2.len() <= limit,
        forall|i: int| 0 <= i < r1.len() ==> is_simple_route(g, #[trigger] r1[i], a, b, hb),
        forall|i: int| 0 <= i < r2.len() ==> is_simple_route(g, #[trigger] r2[i], a, b, hb),
        forall|q: Seq<RefView>| #[trigger] is_simple_route(g, q, a, b, hb) ==> r1.contains(q) || (r1.len() == limit && forall|i: int| 0 <= i < r1.len() ==> route_lt(#[trigger] r1[i], q)),
        forall|q: Seq<RefView>| #[trigger] is_simple_route(g, q, a, b, hb) ==> r2.contains(q) || (r2.len() == limit && forall|i: int| 0 <= i < r2.len() ==> route_lt(#[trigger] r2[i], q)),
        forall|i: int, j: int| 0 <= i < j < r1.len() ==> route_lt(#[trigger] r1[i], #[trigger] r1[j]),
        forall|i: int, j: int| 0 <= i < j < r2.len() ==> route_lt(#[trigger] r2[i], #[trigger] r2[j]),
    ensures
        r1 == r2,
{
    let ok = |q: Seq<RefView>| is_simple_route(g, q, a, b, hb);
    let lt = |x: Seq<RefView>, y: Seq<RefView>| route_lt(x, y);
    assert(strict_total(lt)) by {
        assert forall|x: Seq<RefView>| !#[trigger] lt(x, x) by {
            lemma_route_lt_order(x, x, x);
        }
        assert forall|x: Seq<RefView>, y: Seq<RefView>, z: Seq<RefView>| #[trigger] lt(x, y) && #[trigger] lt(y, z) implies lt(x, z) by {
            lemma_route_lt_order(x, y, z);
        }
        assert forall|x: Seq<RefView>, y: Seq<RefView>| x != y implies #[trigger] lt(x, y) || lt(y, x) by {
            lemma_route_lt_order(x, y, x);
        }
    }
    assert(first_in_order(ok, lt, limit, r1));
    assert(first_in_order(ok, lt, limit, r2));
    lemma_first_in_order_unique(ok, lt, limit, r1, r2);
}

} // verus!
