use ua_crawler::engine::{Action, Crawler};
use ua_crawler::graph::{crawl, is_finished, Graph, GraphNode};
use ua_crawler::node::{Identifier, NodeClass, NodeId, ReferenceDescription};
use ua_crawler::request::{BrowseDirection, BrowseRequest, NodeClassMask, ResultMask};
use ua_crawler::table::NodeTable;

fn num_id(n: u64) -> NodeId {
    NodeId { namespace: 0, identifier: Identifier::Numeric(n) }
}

fn reference_to(n: u64) -> ReferenceDescription {
    ReferenceDescription {
        target: num_id(n),
        node_class: NodeClass::Object,
        browse_name: format!("node-{}", n),
        type_definition: NodeId::null(),
    }
}

fn plain_node(id: u64, targets: Vec<u64>) -> GraphNode {
    let refs: Vec<ReferenceDescription> = targets.into_iter().map(reference_to).collect();
    GraphNode { id: num_id(id), pages: vec![refs], failing: false }
}

#[test]
fn wth_typing_exists_for_a_reason() {
    assert_eq!(63, ResultMask::all().bits());
    assert_eq!(63, BrowseRequest::for_node(num_id(1)).result_mask.bits());
    assert_eq!(255, NodeClassMask::all().bits());
    assert_eq!(0, NodeClass::Unspecified.code());
}

#[test]
fn request_shape_for_each_node() {
    let r = BrowseRequest::for_node(num_id(7));
    assert!(r.node_id.eq_id(&num_id(7)));
    assert!(matches!(r.direction, BrowseDirection::Both));
    assert!(r.include_subtypes);
    assert!(r.reference_filter.eq_id(&NodeId {
        namespace: 0,
        identifier: Identifier::Numeric(33),
    }));
    assert_eq!(r.node_class_mask.bits(), 255);
    assert_eq!(r.result_mask.bits(), 63);
}

#[test]
fn node_id_equality_is_structural() {
    assert!(num_id(4).eq_id(&num_id(4)));
    assert!(!num_id(4).eq_id(&num_id(5)));
    assert!(!num_id(4).eq_id(&NodeId { namespace: 1, identifier: Identifier::Numeric(4) }));

    let a = NodeId { namespace: 2, identifier: Identifier::Text(String::from("motor")) };
    let b = NodeId { namespace: 2, identifier: Identifier::Text(String::from("motor")) };
    let c = NodeId { namespace: 2, identifier: Identifier::Text(String::from("pump")) };
    assert!(a.eq_id(&b));
    assert!(!a.eq_id(&c));
    assert!(!a.eq_id(&num_id(4)));

    let d = NodeId { namespace: 0, identifier: Identifier::Opaque(vec![1, 2, 3]) };
    let e = NodeId { namespace: 0, identifier: Identifier::Opaque(vec![1, 2, 3]) };
    let f = NodeId { namespace: 0, identifier: Identifier::Opaque(vec![1, 2, 4]) };
    assert!(d.eq_id(&e));
    assert!(!d.eq_id(&f));
    assert!(d.clone_id().eq_id(&d));
    assert!(a.clone_id().eq_id(&a));
}

#[test]
fn insert_if_absent_keeps_first_record() {
    let mut t = NodeTable::new();
    let rec1 = reference_to(9).to_record();
    let first = t.insert_if_absent(num_id(9), rec1);
    assert!(first);
    assert_eq!(t.len(), 1);

    let mut rec2 = reference_to(9).to_record();
    rec2.display_name = String::from("impostor");
    let second = t.insert_if_absent(num_id(9), rec2);
    assert!(!second);
    assert_eq!(t.len(), 1);
    assert_eq!(t.entries()[0].1.display_name, "node-9");
    assert!(t.contains(&num_id(9)));
    assert!(!t.contains(&num_id(10)));
}

#[test]
fn shared_child_expanded_once() {
    // Root 1 has children 2 and 3; both reference the shared child 4.
    let graph = Graph {
        nodes: vec![
            plain_node(1, vec![2, 3]),
            plain_node(2, vec![4]),
            plain_node(3, vec![4]),
            plain_node(4, vec![]),
        ],
    };
    let c = crawl(&graph, &num_id(1));
    assert_eq!(c.table.len(), 4);
    for n in [1, 2, 3, 4] {
        assert!(c.table.contains(&num_id(n)));
    }
    assert!(c.errors.is_empty());
}

#[test]
fn three_pages_fold_into_one_result() {
    // Node 1's browse result is split across three pages.
    let graph = Graph {
        nodes: vec![GraphNode {
            id: num_id(1),
            pages: vec![
                vec![reference_to(10), reference_to(11)],
                vec![reference_to(12)],
                vec![reference_to(13), reference_to(14)],
            ],
            failing: false,
        }],
    };
    let c = crawl(&graph, &num_id(1));
    assert_eq!(c.table.len(), 6);
    for n in [1, 10, 11, 12, 13, 14] {
        assert!(c.table.contains(&num_id(n)));
    }
    assert!(c.errors.is_empty());
}

#[test]
fn nonempty_token_is_not_complete() {
    // Drive the engine by hand: pages keep coming as long as the token is
    // non-empty, and nothing is committed before the last page.
    let mut c = Crawler::new(num_id(1));
    let a = c.next();
    match a {
        Action::Browse(n) => assert!(n.eq_id(&num_id(1))),
        _ => panic!("expected a browse of the root"),
    }
    let a = c.on_page(vec![reference_to(2)], vec![7]);
    match a {
        Action::BrowseNext(t) => assert_eq!(t, vec![7]),
        _ => panic!("a page with a continuation token is not the end"),
    }
    assert_eq!(c.table.len(), 1);  // nothing committed yet
    let a = c.on_page(vec![reference_to(3)], Vec::new());
    match a {
        Action::Browse(n) => {
            // one of the two fresh targets; both are now recorded
            assert!(n.eq_id(&num_id(2)) || n.eq_id(&num_id(3)));
        },
        _ => panic!("two fresh targets are still queued"),
    }
    assert_eq!(c.table.len(), 3);
    assert!(c.table.contains(&num_id(2)));
    assert!(c.table.contains(&num_id(3)));
}

#[test]
fn failing_node_is_isolated() {
    // Node 2's browse fails; the rest of the graph is still crawled.
    let graph = Graph {
        nodes: vec![
            plain_node(1, vec![2, 3]),
            GraphNode { id: num_id(2), pages: vec![], failing: true },
            plain_node(3, vec![5]),
        ],
    };
    let c = crawl(&graph, &num_id(1));
    assert_eq!(c.table.len(), 4);
    for n in [1, 2, 3, 5] {
        assert!(c.table.contains(&num_id(n)));
    }
    assert_eq!(c.errors.len(), 1);
    assert!(c.errors[0].node_id.eq_id(&num_id(2)));
}

#[test]
fn self_reference_terminates() {
    let graph = Graph { nodes: vec![plain_node(1, vec![1])] };
    let c = crawl(&graph, &num_id(1));
    assert_eq!(c.table.len(), 1);
    assert!(c.table.contains(&num_id(1)));
    assert!(c.errors.is_empty());
}

#[test]
fn cycle_terminates() {
    let graph = Graph {
        nodes: vec![
            plain_node(1, vec![2]),
            plain_node(2, vec![3]),
            plain_node(3, vec![1]),
        ],
    };
    let c = crawl(&graph, &num_id(1));
    assert_eq!(c.table.len(), 3);
    assert!(c.errors.is_empty());
}

#[test]
fn duplicate_references_recorded_once() {
    let graph = Graph {
        nodes: vec![GraphNode {
            id: num_id(1),
            pages: vec![vec![reference_to(2), reference_to(2)]],
            failing: false,
        }],
    };
    let c = crawl(&graph, &num_id(1));
    assert_eq!(c.table.len(), 2);
}

#[test]
fn unknown_root_yields_only_itself() {
    let graph = Graph { nodes: vec![] };
    let c = crawl(&graph, &num_id(42));
    assert_eq!(c.table.len(), 1);
    assert!(c.table.contains(&num_id(42)));
    assert!(c.errors.is_empty());
}

#[test]
fn failure_of_root_alone() {
    let mut c = Crawler::new(num_id(1));
    let a = c.next();
    assert!(matches!(a, Action::Browse(_)));
    let a = c.on_failure(String::from("transport error"));
    assert!(is_finished(&a));
    assert_eq!(c.errors.len(), 1);
    assert!(c.errors[0].node_id.eq_id(&num_id(1)));
    assert_eq!(c.errors[0].cause, "transport error");
    assert_eq!(c.table.len(), 1);
}

#[test]
fn record_carries_reference_fields() {
    let mut r = reference_to(8);
    r.node_class = NodeClass::Variable;
    r.type_definition = num_id(77);
    let rec = r.to_record();
    assert!(matches!(rec.node_class, NodeClass::Variable));
    assert_eq!(rec.display_name, "node-8");
    assert!(rec.type_definition.eq_id(&num_id(77)));
}

#[test]
fn node_class_codes() {
    assert_eq!(NodeClass::Object.code(), 1);
    assert_eq!(NodeClass::Variable.code(), 2);
    assert_eq!(NodeClass::Method.code(), 4);
    assert_eq!(NodeClass::ObjectType.code(), 8);
    assert_eq!(NodeClass::VariableType.code(), 16);
    assert_eq!(NodeClass::ReferenceType.code(), 32);
    assert_eq!(NodeClass::DataType.code(), 64);
    assert_eq!(NodeClass::View.code(), 128);
}
