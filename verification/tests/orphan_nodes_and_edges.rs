use decdnnf_rs::DecisionDNNF;
use decdnnf_rs::Edge;
use decdnnf_rs::EdgeIndex;
use decdnnf_rs::Literal;
use decdnnf_rs::Node;
use decdnnf_rs::NodeIndex;
use decdnnf_rs::OrphanFinder;

#[test]
fn orphan_nodes_and_edges_test_node_unreachable() {
    let ddnnf = DecisionDNNF::from_raw_data(0, vec![Node::False, Node::True], vec![]);
    let finder = OrphanFinder::search(&ddnnf).unwrap();
    assert_eq!(&[NodeIndex::from(1)], finder.orphans_nodes());
}

#[test]
fn orphan_nodes_and_edges_test_node_cycle() {
    let ddnnf = DecisionDNNF::from_raw_data(
        0,
        vec![Node::And(vec![0.into()]), Node::And(vec![1.into()])],
        vec![
            Edge::from_raw_data(1.into(), vec![]),
            Edge::from_raw_data(0.into(), vec![]),
        ],
    );
    assert!(OrphanFinder::search(&ddnnf).is_err());
}

#[test]
fn test_remove_node() {
    let mut ddnnf = DecisionDNNF::from_raw_data(
        3,
        vec![
            Node::Or(vec![0.into(), 1.into()]),
            Node::And(vec![2.into()]),
            Node::And(vec![3.into()]),
            Node::True,
        ],
        vec![
            Edge::from_raw_data(1.into(), vec![Literal::from(-1)]),
            Edge::from_raw_data(1.into(), vec![Literal::from(1)]),
            Edge::from_raw_data(3.into(), vec![Literal::from(2), Literal::from(3)]),
            Edge::from_raw_data(3.into(), vec![Literal::from(2), Literal::from(3)]),
        ],
    );
    let finder = OrphanFinder::search(&ddnnf).unwrap();
    assert_eq!(&[NodeIndex::from(2)], finder.orphans_nodes());
    finder.remove_from_formula(&mut ddnnf);
    assert_eq!(
        &[
            Node::Or(vec![0.into(), 1.into()]),
            Node::And(vec![2.into()]),
            Node::True
        ],
        ddnnf.nodes().as_slice()
    );
    assert_eq!(
        &[
            Edge::from_raw_data(1.into(), vec![Literal::from(-1)]),
            Edge::from_raw_data(1.into(), vec![Literal::from(1)]),
            Edge::from_raw_data(2.into(), vec![Literal::from(2), Literal::from(3)]),
        ],
        ddnnf.edges().as_slice(),
    );
}

#[test]
fn test_remove_edge() {
    let mut ddnnf = DecisionDNNF::from_raw_data(
        3,
        vec![
            Node::Or(vec![0.into()]),
            Node::Or(vec![2.into()]),
            Node::True,
        ],
        vec![
            Edge::from_raw_data(1.into(), vec![]),
            Edge::from_raw_data(1.into(), vec![]),
            Edge::from_raw_data(2.into(), vec![Literal::from(1)]),
        ],
    );
    let finder = OrphanFinder::search(&ddnnf).unwrap();
    assert_eq!(&[EdgeIndex::from(1)], finder.orphans_edges());
    finder.remove_from_formula(&mut ddnnf);
    assert_eq!(
        &[
            Node::Or(vec![0.into()]),
            Node::Or(vec![1.into()]),
            Node::True,
        ],
        ddnnf.nodes().as_slice()
    );
    assert_eq!(
        &[
            Edge::from_raw_data(1.into(), vec![]),
            Edge::from_raw_data(2.into(), vec![Literal::from(1)]),
        ],
        ddnnf.edges().as_slice(),
    );
}
