//! Flowchart queries: reachability, degrees, paths, cycles and dead ends.

use nereid::model::{FlowEdge, FlowNode, FlowchartAst, ObjectId};
use nereid::query::flow::{cycles, dead_ends, degrees, paths, reachable, reachable_with_direction, ReachDirection};

fn ids(values: &[ObjectId]) -> Vec<String> {
    values.iter().map(|id| id.as_str().to_owned()).collect()
}

fn paths_ids(values: &[Vec<ObjectId>]) -> Vec<Vec<String>> {
    values.iter().map(|path| ids(path)).collect()
}

fn fixture_ast() -> FlowchartAst {
    let mut ast = FlowchartAst::default();

    for node in [
        "n:a", "n:b", "n:c", "n:d", "n:e", "n:f", "n:x", "n:y", "n:z",
    ] {
        let node_id = ObjectId::new(node).expect("node id");
        ast.nodes_mut()
            .insert(node_id, FlowNode::new(&node.to_uppercase()));
    }

    let mut add_edge = |edge_id: &str, from: &str, to: &str| {
        let edge_id = ObjectId::new(edge_id).expect("edge id");
        let from = ObjectId::new(from).expect("from node id");
        let to = ObjectId::new(to).expect("to node id");
        ast.edges_mut().insert(edge_id, FlowEdge::new(from, to));
    };

    add_edge("e:ab", "n:a", "n:b");
    add_edge("e:bc", "n:b", "n:c");
    add_edge("e:ad", "n:a", "n:d");
    add_edge("e:dc", "n:d", "n:c");
    add_edge("e:ce", "n:c", "n:e");
    add_edge("e:bd", "n:b", "n:d");

    add_edge("e:xy", "n:x", "n:y");
    add_edge("e:yx", "n:y", "n:x");
    add_edge("e:zz", "n:z", "n:z");

    ast
}

#[test]
fn reachable_returns_sorted_ids_including_start() {
    let ast = fixture_ast();
    let start = ObjectId::new("n:a").expect("start node id");
    let results = reachable(&ast, &start);
    assert_eq!(ids(&results), vec!["n:a", "n:b", "n:c", "n:d", "n:e"]);
}

#[test]
fn reachable_with_direction_in_returns_sorted_ids_including_start() {
    let ast = fixture_ast();
    let start = ObjectId::new("n:c").expect("start node id");
    let results = reachable_with_direction(&ast, &start, ReachDirection::In);
    assert_eq!(ids(&results), vec!["n:a", "n:b", "n:c", "n:d"]);
}

#[test]
fn reachable_with_direction_both_unions_in_and_out() {
    let ast = fixture_ast();
    let start = ObjectId::new("n:c").expect("start node id");
    let results = reachable_with_direction(&ast, &start, ReachDirection::Both);
    assert_eq!(ids(&results), vec!["n:a", "n:b", "n:c", "n:d", "n:e"]);
}

#[test]
fn degrees_counts_in_and_out_for_each_node() {
    let ast = fixture_ast();
    let degrees = degrees(&ast);

    let a = degrees
        .get(&ObjectId::new("n:a").expect("a"))
        .expect("degree");
    assert_eq!(a.in_degree, 0);
    assert_eq!(a.out_degree, 2);

    let c = degrees
        .get(&ObjectId::new("n:c").expect("c"))
        .expect("degree");
    assert_eq!(c.in_degree, 2);
    assert_eq!(c.out_degree, 1);

    let f = degrees
        .get(&ObjectId::new("n:f").expect("f"))
        .expect("degree");
    assert_eq!(f.in_degree, 0);
    assert_eq!(f.out_degree, 0);
}

#[test]
fn paths_returns_shortest_paths_then_capped_alternates() {
    let ast = fixture_ast();
    let from = ObjectId::new("n:a").expect("from node id");
    let to = ObjectId::new("n:c").expect("to node id");

    let shortest = paths(&ast, &from, &to, 10, 0);
    assert_eq!(
        paths_ids(&shortest),
        vec![vec!["n:a", "n:b", "n:c"], vec!["n:a", "n:d", "n:c"],]
    );

    let alternates = paths(&ast, &from, &to, 10, 1);
    assert_eq!(
        paths_ids(&alternates),
        vec![
            vec!["n:a", "n:b", "n:c"],
            vec!["n:a", "n:d", "n:c"],
            vec!["n:a", "n:b", "n:d", "n:c"],
        ]
    );
}

#[test]
fn cycles_returns_scc_groups_in_deterministic_order() {
    let ast = fixture_ast();
    let results = cycles(&ast);
    assert_eq!(paths_ids(&results), vec![vec!["n:x", "n:y"], vec!["n:z"]]);
}

#[test]
fn dead_ends_returns_terminal_nodes() {
    let ast = fixture_ast();
    let results = dead_ends(&ast);
    assert_eq!(ids(&results), vec!["n:e", "n:f"]);
}


#[test]
fn paths_are_empty_for_zero_limit_unknown_ends_or_no_connection() {
    let ast = fixture_ast();
    let a = ObjectId::new("n:a").expect("id");
    let c = ObjectId::new("n:c").expect("id");
    let x = ObjectId::new("n:x").expect("id");
    let missing = ObjectId::new("n:missing").expect("id");
    assert!(paths(&ast, &a, &c, 0, 5).is_empty());
    assert!(paths(&ast, &a, &missing, 10, 5).is_empty());
    assert!(paths(&ast, &a, &x, 10, 5).is_empty());
    assert_eq!(paths_ids(&paths(&ast, &a, &a, 10, 5)), vec![vec!["n:a"]]);
}

#[test]
fn paths_respect_the_limit_in_hop_then_id_order() {
    let ast = fixture_ast();
    let a = ObjectId::new("n:a").expect("id");
    let e = ObjectId::new("n:e").expect("id");
    assert_eq!(
        paths_ids(&paths(&ast, &a, &e, 2, 5)),
        vec![vec!["n:a", "n:b", "n:c", "n:e"], vec!["n:a", "n:d", "n:c", "n:e"]]
    );
}

#[test]
fn cycles_include_edge_endpoints_that_are_not_declared() {
    let mut ast = fixture_ast();
    let edge_id = ObjectId::new("e:eq").expect("edge id");
    let e = ObjectId::new("n:e").expect("id");
    let q = ObjectId::new("n:q").expect("undeclared id");
    ast.edges_mut().insert(edge_id, FlowEdge::new(e.clone(), q.clone()));
    let back = ObjectId::new("e:qc").expect("edge id");
    let c = ObjectId::new("n:c").expect("id");
    ast.edges_mut().insert(back, FlowEdge::new(q, c));
    assert_eq!(
        paths_ids(&cycles(&ast)),
        vec![vec!["n:c", "n:e", "n:q"], vec!["n:x", "n:y"], vec!["n:z"]]
    );
}
