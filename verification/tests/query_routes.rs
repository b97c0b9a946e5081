//! Routes between objects across the diagrams of a session.

use nereid::model::{
    Diagram, DiagramAst, DiagramId, FlowEdge, FlowNode, FlowchartAst, ObjectId, ObjectRef, SequenceAst,
    SequenceMessage, SequenceMessageKind, SequenceParticipant, Session, SessionId, XRef, XRefId, XRefStatus,
};
use nereid::query::session_routes::{
    find_route, find_route_with_adjacency, find_routes, find_routes_with_adjacency, RoutesOrdering,
    SessionRouteAdjacency,
};

fn ref_strings(path: &[ObjectRef]) -> Vec<String> {
    path.iter().map(|r| r.to_string()).collect()
}

fn oid(raw: &str) -> ObjectId {
    ObjectId::new(raw).expect("object id")
}

#[test]
fn finds_simple_cross_diagram_route_via_xref() {
    let mut session = Session::new(SessionId::new("s1").expect("session id"));

    let flow_id = DiagramId::new("flow").expect("diagram id");
    let mut flow_ast = FlowchartAst::default();
    for node in ["n:a", "n:b"] {
        let node_id = ObjectId::new(node).expect("node id");
        flow_ast
            .nodes_mut()
            .insert(node_id, FlowNode::new(&node.to_uppercase()));
    }
    let edge_id = ObjectId::new("e:ab").expect("edge id");
    let from = ObjectId::new("n:a").expect("from node id");
    let to = ObjectId::new("n:b").expect("to node id");
    flow_ast
        .edges_mut()
        .insert(edge_id, FlowEdge::new(from.clone(), to.clone()));

    session.diagrams_mut().insert(
        flow_id.clone(),
        Diagram::new(flow_id.clone(), "Flow", DiagramAst::Flowchart(flow_ast)),
    );

    let seq_id = DiagramId::new("seq").expect("diagram id");
    let mut seq_ast = SequenceAst::default();
    let p1 = ObjectId::new("p:one").expect("participant id");
    let p2 = ObjectId::new("p:two").expect("participant id");
    seq_ast
        .participants_mut()
        .insert(p1.clone(), SequenceParticipant::new("One"));
    seq_ast
        .participants_mut()
        .insert(p2.clone(), SequenceParticipant::new("Two"));

    let m1 = ObjectId::new("m:1").expect("message id");
    let m2 = ObjectId::new("m:2").expect("message id");
    // Insert out of order to validate deterministic ordering by order_key + id.
    seq_ast.messages_mut().push(SequenceMessage::new(
        m2.clone(),
        p1.clone(),
        p2.clone(),
        SequenceMessageKind::Sync,
        "Second",
        200,
    ));
    seq_ast.messages_mut().push(SequenceMessage::new(
        m1.clone(),
        p1.clone(),
        p2.clone(),
        SequenceMessageKind::Sync,
        "First",
        100,
    ));

    session.diagrams_mut().insert(
        seq_id.clone(),
        Diagram::new(seq_id.clone(), "Seq", DiagramAst::Sequence(seq_ast)),
    );

    let xref_id = XRefId::new("x:1").expect("xref id");
    let xref_from: ObjectRef = "d:flow/flow/node/n:b".parse().expect("from ref");
    let xref_to: ObjectRef = "d:seq/seq/message/m:1".parse().expect("to ref");
    session.xrefs_mut().insert(
        xref_id,
        XRef::new(xref_from, xref_to, "relates", XRefStatus::Resolved),
    );

    let start: ObjectRef = "d:flow/flow/node/n:a".parse().expect("start ref");
    let goal: ObjectRef = "d:seq/seq/message/m:2".parse().expect("goal ref");

    let route = find_route(&session, &start, &goal).expect("route");
    let adjacency = SessionRouteAdjacency::derive(&session);
    let cached_route =
        find_route_with_adjacency(&adjacency, &start, &goal).expect("cached route");
    assert_eq!(cached_route, route);

    assert_eq!(
        ref_strings(&route),
        vec![
            "d:flow/flow/node/n:a",
            "d:flow/flow/node/n:b",
            "d:seq/seq/message/m:1",
            "d:seq/seq/message/m:2",
        ]
    );
}

#[test]
fn finds_flow_edge_and_endpoint_node_routes() {
    let mut session = Session::new(SessionId::new("s-edge").expect("session id"));

    let flow_id = DiagramId::new("flow").expect("diagram id");
    let mut flow_ast = FlowchartAst::default();
    for node in ["n:a", "n:b"] {
        let node_id = ObjectId::new(node).expect("node id");
        flow_ast
            .nodes_mut()
            .insert(node_id, FlowNode::new(&node.to_uppercase()));
    }

    flow_ast
        .edges_mut()
        .insert(oid("e:ab"), FlowEdge::new(oid("n:a"), oid("n:b")));

    session.diagrams_mut().insert(
        flow_id.clone(),
        Diagram::new(flow_id.clone(), "Flow", DiagramAst::Flowchart(flow_ast)),
    );

    let edge: ObjectRef = "d:flow/flow/edge/e:ab".parse().expect("edge ref");
    let from: ObjectRef = "d:flow/flow/node/n:a".parse().expect("from node ref");
    let to: ObjectRef = "d:flow/flow/node/n:b".parse().expect("to node ref");

    assert_eq!(
        ref_strings(&find_route(&session, &edge, &from).expect("edge->from route")),
        vec!["d:flow/flow/edge/e:ab", "d:flow/flow/node/n:a"]
    );
    assert_eq!(
        ref_strings(&find_route(&session, &edge, &to).expect("edge->to route")),
        vec!["d:flow/flow/edge/e:ab", "d:flow/flow/node/n:b"]
    );
    assert_eq!(
        ref_strings(&find_route(&session, &from, &edge).expect("from->edge route")),
        vec!["d:flow/flow/node/n:a", "d:flow/flow/edge/e:ab"]
    );
    assert_eq!(
        ref_strings(&find_route(&session, &to, &edge).expect("to->edge route")),
        vec!["d:flow/flow/node/n:b", "d:flow/flow/edge/e:ab"]
    );
}

#[test]
fn finds_seq_participant_and_message_routes() {
    let mut session = Session::new(SessionId::new("s-participant").expect("session id"));

    let seq_id = DiagramId::new("seq").expect("diagram id");
    let mut seq_ast = SequenceAst::default();
    let p1 = ObjectId::new("p:one").expect("participant id");
    let p2 = ObjectId::new("p:two").expect("participant id");
    seq_ast
        .participants_mut()
        .insert(p1.clone(), SequenceParticipant::new("One"));
    seq_ast
        .participants_mut()
        .insert(p2.clone(), SequenceParticipant::new("Two"));

    let m1 = ObjectId::new("m:1").expect("message id");
    let m2 = ObjectId::new("m:2").expect("message id");
    seq_ast.messages_mut().push(SequenceMessage::new(
        m1.clone(),
        p1.clone(),
        p2.clone(),
        SequenceMessageKind::Sync,
        "First",
        100,
    ));
    seq_ast.messages_mut().push(SequenceMessage::new(
        m2.clone(),
        p1.clone(),
        p2.clone(),
        SequenceMessageKind::Sync,
        "Second",
        200,
    ));

    session.diagrams_mut().insert(
        seq_id.clone(),
        Diagram::new(seq_id.clone(), "Seq", DiagramAst::Sequence(seq_ast)),
    );

    let participant: ObjectRef = "d:seq/seq/participant/p:one"
        .parse()
        .expect("participant ref");
    let message: ObjectRef = "d:seq/seq/message/m:2".parse().expect("message ref");
    assert_eq!(
        ref_strings(
            &find_route(&session, &participant, &message).expect("participant->message route")
        ),
        vec!["d:seq/seq/participant/p:one", "d:seq/seq/message/m:2"]
    );

    let participant_to: ObjectRef = "d:seq/seq/participant/p:two"
        .parse()
        .expect("participant ref");
    let message_from: ObjectRef = "d:seq/seq/message/m:1".parse().expect("message ref");
    assert_eq!(
        ref_strings(
            &find_route(&session, &message_from, &participant_to)
                .expect("message->participant route")
        ),
        vec!["d:seq/seq/message/m:1", "d:seq/seq/participant/p:two"]
    );
}

#[test]
fn finds_cross_diagram_route_via_edge_and_participant_xref() {
    let mut session = Session::new(SessionId::new("s-xref").expect("session id"));

    let flow_id = DiagramId::new("flow").expect("diagram id");
    let mut flow_ast = FlowchartAst::default();
    for node in ["n:a", "n:b"] {
        let node_id = ObjectId::new(node).expect("node id");
        flow_ast
            .nodes_mut()
            .insert(node_id, FlowNode::new(&node.to_uppercase()));
    }
    flow_ast
        .edges_mut()
        .insert(oid("e:ab"), FlowEdge::new(oid("n:a"), oid("n:b")));
    session.diagrams_mut().insert(
        flow_id.clone(),
        Diagram::new(flow_id.clone(), "Flow", DiagramAst::Flowchart(flow_ast)),
    );

    let seq_id = DiagramId::new("seq").expect("diagram id");
    let mut seq_ast = SequenceAst::default();
    let p1 = ObjectId::new("p:one").expect("participant id");
    let p2 = ObjectId::new("p:two").expect("participant id");
    seq_ast
        .participants_mut()
        .insert(p1.clone(), SequenceParticipant::new("One"));
    seq_ast
        .participants_mut()
        .insert(p2.clone(), SequenceParticipant::new("Two"));

    let m1 = ObjectId::new("m:1").expect("message id");
    let m2 = ObjectId::new("m:2").expect("message id");
    seq_ast.messages_mut().push(SequenceMessage::new(
        m1.clone(),
        p1.clone(),
        p2.clone(),
        SequenceMessageKind::Sync,
        "First",
        100,
    ));
    seq_ast.messages_mut().push(SequenceMessage::new(
        m2.clone(),
        p1.clone(),
        p2.clone(),
        SequenceMessageKind::Sync,
        "Second",
        200,
    ));

    session.diagrams_mut().insert(
        seq_id.clone(),
        Diagram::new(seq_id.clone(), "Seq", DiagramAst::Sequence(seq_ast)),
    );

    let xref_id = XRefId::new("x:1").expect("xref id");
    let xref_from: ObjectRef = "d:flow/flow/edge/e:ab".parse().expect("from ref");
    let xref_to: ObjectRef = "d:seq/seq/participant/p:one".parse().expect("to ref");
    session.xrefs_mut().insert(
        xref_id,
        XRef::new(xref_from, xref_to, "relates", XRefStatus::Resolved),
    );

    let start: ObjectRef = "d:flow/flow/node/n:a".parse().expect("start ref");
    let goal: ObjectRef = "d:seq/seq/message/m:2".parse().expect("goal ref");
    let route = find_route(&session, &start, &goal).expect("route");
    assert_eq!(
        ref_strings(&route),
        vec![
            "d:flow/flow/node/n:a",
            "d:flow/flow/edge/e:ab",
            "d:seq/seq/participant/p:one",
            "d:seq/seq/message/m:2",
        ]
    );
}

#[test]
fn finds_multiple_routes_deterministically_and_supports_ordering() {
    let mut session = Session::new(SessionId::new("s2").expect("session id"));

    let flow_id = DiagramId::new("flow").expect("diagram id");
    let mut flow_ast = FlowchartAst::default();
    for node in ["n:a", "n:b", "n:c", "n:d"] {
        let node_id = ObjectId::new(node).expect("node id");
        flow_ast
            .nodes_mut()
            .insert(node_id, FlowNode::new(&node.to_uppercase()));
    }

    flow_ast
        .edges_mut()
        .insert(oid("e:ab"), FlowEdge::new(oid("n:a"), oid("n:b")));
    flow_ast
        .edges_mut()
        .insert(oid("e:ac"), FlowEdge::new(oid("n:a"), oid("n:c")));
    flow_ast
        .edges_mut()
        .insert(oid("e:bd"), FlowEdge::new(oid("n:b"), oid("n:d")));
    flow_ast
        .edges_mut()
        .insert(oid("e:cd"), FlowEdge::new(oid("n:c"), oid("n:d")));
    flow_ast
        .edges_mut()
        .insert(oid("e:bc"), FlowEdge::new(oid("n:b"), oid("n:c")));

    session.diagrams_mut().insert(
        flow_id.clone(),
        Diagram::new(flow_id.clone(), "Flow", DiagramAst::Flowchart(flow_ast)),
    );

    let start: ObjectRef = "d:flow/flow/node/n:a".parse().expect("start ref");
    let goal: ObjectRef = "d:flow/flow/node/n:d".parse().expect("goal ref");

    let adjacency = SessionRouteAdjacency::derive(&session);
    let routes = find_routes_with_adjacency(
        &adjacency,
        &start,
        &goal,
        10,
        Some(3),
        RoutesOrdering::FewestHops,
    );
    let repeat = find_routes(
        &session,
        &start,
        &goal,
        10,
        Some(3),
        RoutesOrdering::FewestHops,
    );
    assert_eq!(routes, repeat);

    assert_eq!(routes.len(), 7);
    assert_eq!(
        ref_strings(&routes[0]),
        vec![
            "d:flow/flow/node/n:a",
            "d:flow/flow/node/n:b",
            "d:flow/flow/node/n:d",
        ]
    );
    assert_eq!(
        ref_strings(&routes[1]),
        vec![
            "d:flow/flow/node/n:a",
            "d:flow/flow/node/n:c",
            "d:flow/flow/node/n:d",
        ]
    );
    assert_eq!(
        ref_strings(&routes[2]),
        vec![
            "d:flow/flow/node/n:a",
            "d:flow/flow/edge/e:ab",
            "d:flow/flow/node/n:b",
            "d:flow/flow/node/n:d",
        ]
    );
    assert_eq!(
        ref_strings(&routes[3]),
        vec![
            "d:flow/flow/node/n:a",
            "d:flow/flow/edge/e:ac",
            "d:flow/flow/node/n:c",
            "d:flow/flow/node/n:d",
        ]
    );
    assert_eq!(
        ref_strings(&routes[4]),
        vec![
            "d:flow/flow/node/n:a",
            "d:flow/flow/node/n:b",
            "d:flow/flow/edge/e:bd",
            "d:flow/flow/node/n:d",
        ]
    );
    assert_eq!(
        ref_strings(&routes[5]),
        vec![
            "d:flow/flow/node/n:a",
            "d:flow/flow/node/n:b",
            "d:flow/flow/node/n:c",
            "d:flow/flow/node/n:d",
        ]
    );
    assert_eq!(
        ref_strings(&routes[6]),
        vec![
            "d:flow/flow/node/n:a",
            "d:flow/flow/node/n:c",
            "d:flow/flow/edge/e:cd",
            "d:flow/flow/node/n:d",
        ]
    );

    let lex_routes = find_routes(
        &session,
        &start,
        &goal,
        10,
        Some(3),
        RoutesOrdering::Lexicographic,
    );
    assert_eq!(
        ref_strings(&lex_routes[0]),
        vec![
            "d:flow/flow/node/n:a",
            "d:flow/flow/edge/e:ab",
            "d:flow/flow/node/n:b",
            "d:flow/flow/node/n:d",
        ]
    );
}

fn two_node_session(with_edge: bool) -> Session {
    let mut session = Session::new(SessionId::new("s-own").expect("session id"));
    let flow_id = DiagramId::new("flow").expect("diagram id");
    let mut flow_ast = FlowchartAst::default();
    for node in ["n:a", "n:b"] {
        flow_ast.nodes_mut().insert(oid(node), FlowNode::new(node));
    }
    if with_edge {
        flow_ast.edges_mut().insert(oid("e:ab"), FlowEdge::new(oid("n:a"), oid("n:b")));
    }
    session.diagrams_mut().insert(
        flow_id.clone(),
        Diagram::new(flow_id, "Flow", DiagramAst::Flowchart(flow_ast)),
    );
    session
}

#[test]
fn route_is_none_without_a_connection_and_trivial_to_itself() {
    let session = two_node_session(false);
    let a: ObjectRef = "d:flow/flow/node/n:a".parse().expect("ref");
    let b: ObjectRef = "d:flow/flow/node/n:b".parse().expect("ref");
    assert!(find_route(&session, &a, &b).is_none());
    assert_eq!(ref_strings(&find_route(&session, &a, &a).expect("self route")), vec!["d:flow/flow/node/n:a"]);
    let unknown: ObjectRef = "d:other/flow/node/n:a".parse().expect("ref");
    assert!(find_route(&session, &unknown, &a).is_none());
}

#[test]
fn routes_honour_limit_and_hop_bound() {
    let session = two_node_session(true);
    let a: ObjectRef = "d:flow/flow/node/n:a".parse().expect("ref");
    let b: ObjectRef = "d:flow/flow/node/n:b".parse().expect("ref");
    assert!(find_routes(&session, &a, &b, 0, None, RoutesOrdering::FewestHops).is_empty());
    let direct = find_routes(&session, &a, &b, 10, Some(1), RoutesOrdering::FewestHops);
    assert_eq!(direct.len(), 1);
    assert_eq!(ref_strings(&direct[0]), vec!["d:flow/flow/node/n:a", "d:flow/flow/node/n:b"]);
    let all = find_routes(&session, &a, &b, 10, None, RoutesOrdering::Lexicographic);
    assert_eq!(
        all.iter().map(|r| ref_strings(r)).collect::<Vec<_>>(),
        vec![
            vec!["d:flow/flow/node/n:a", "d:flow/flow/edge/e:ab", "d:flow/flow/node/n:b"],
            vec!["d:flow/flow/node/n:a", "d:flow/flow/node/n:b"],
        ]
    );
    let itself = find_routes(&session, &a, &a, 3, None, RoutesOrdering::FewestHops);
    assert_eq!(itself.len(), 1);
}

#[test]
fn route_takes_fewest_hops_when_a_longer_one_exists() {
    let mut session = Session::new(SessionId::new("s-short").expect("session id"));
    let flow_id = DiagramId::new("flow").expect("diagram id");
    let mut flow_ast = FlowchartAst::default();
    for node in ["n:a", "n:b", "n:c", "n:d"] {
        flow_ast.nodes_mut().insert(oid(node), FlowNode::new(node));
    }
    for (edge, from, to) in [("e:ab", "n:a", "n:b"), ("e:bc", "n:b", "n:c"), ("e:cd", "n:c", "n:d"), ("e:zd", "n:a", "n:d")] {
        flow_ast.edges_mut().insert(oid(edge), FlowEdge::new(oid(from), oid(to)));
    }
    session.diagrams_mut().insert(
        flow_id.clone(),
        Diagram::new(flow_id.clone(), "Flow", DiagramAst::Flowchart(flow_ast)),
    );
    let start: ObjectRef = "d:flow/flow/node/n:a".parse().expect("start ref");
    let goal: ObjectRef = "d:flow/flow/node/n:d".parse().expect("goal ref");
    let route = find_route(&session, &start, &goal).expect("route");
    assert_eq!(
        ref_strings(&route),
        vec!["d:flow/flow/node/n:a", "d:flow/flow/node/n:d"]
    );
    let all = find_routes(&session, &start, &goal, 10, None, RoutesOrdering::FewestHops);
    assert!(all.iter().all(|r| r.len() >= route.len()));
}

#[test]
fn object_ref_text_parses_back_or_is_malformed() {
    let r: ObjectRef = "d:flow/flow/node/n:a".parse().expect("ref");
    assert_eq!(r.to_string(), "d:flow/flow/node/n:a");
    assert_eq!("d:flow/n:a".parse::<ObjectRef>(), Err(nereid::model::IdError::Malformed));
    assert_eq!("x:flow/flow/node/n:a".parse::<ObjectRef>(), Err(nereid::model::IdError::Malformed));
    assert_eq!("d:flow//n:a".parse::<ObjectRef>(), Err(nereid::model::IdError::Malformed));
}

#[test]
fn route_is_the_first_of_the_shortest_in_order() {
    let mut session = Session::new(SessionId::new("s-tie").expect("session id"));
    let flow_id = DiagramId::new("flow").expect("diagram id");
    let mut flow_ast = FlowchartAst::default();
    for node in ["n:a", "n:b", "n:c", "n:d"] {
        flow_ast.nodes_mut().insert(oid(node), FlowNode::new(node));
    }
    for (edge, from, to) in [("e:ac", "n:a", "n:c"), ("e:cd", "n:c", "n:d"), ("e:ab", "n:a", "n:b"), ("e:bd", "n:b", "n:d")] {
        flow_ast.edges_mut().insert(oid(edge), FlowEdge::new(oid(from), oid(to)));
    }
    session.diagrams_mut().insert(
        flow_id.clone(),
        Diagram::new(flow_id.clone(), "Flow", DiagramAst::Flowchart(flow_ast)),
    );
    let start: ObjectRef = "d:flow/flow/node/n:a".parse().expect("start ref");
    let goal: ObjectRef = "d:flow/flow/node/n:d".parse().expect("goal ref");
    let route = find_route(&session, &start, &goal).expect("route");
    assert_eq!(
        ref_strings(&route),
        vec!["d:flow/flow/node/n:a", "d:flow/flow/node/n:b", "d:flow/flow/node/n:d"]
    );
}
