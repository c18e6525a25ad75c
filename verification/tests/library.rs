use decdnnf_rs::formula::free_variables::compute;
use decdnnf_rs::Assumptions;
use decdnnf_rs::BiBottomUpVisitor;
use decdnnf_rs::BinaryReader;
use decdnnf_rs::BinaryWriter;
use decdnnf_rs::BottomUpTraversal;
use decdnnf_rs::BottomUpVisitor;
use decdnnf_rs::C2dWriter;
use decdnnf_rs::D4Reader;
use decdnnf_rs::DecisionDNNF;
use decdnnf_rs::DecisionDNNFReader;
use decdnnf_rs::DecisionDNNFWriter;
use decdnnf_rs::Edge;
use decdnnf_rs::EdgeIndex;
use decdnnf_rs::Error;
use decdnnf_rs::FreeVariables;
use decdnnf_rs::Literal;
use decdnnf_rs::ModelCounter;
use decdnnf_rs::ModelFinder;
use decdnnf_rs::Node;
use decdnnf_rs::NodeIndex;
use decdnnf_rs::OrphanFinder;
use decdnnf_rs::ReadError;
use decdnnf_rs::SmartReader;

const AND_OR: &str =
    "a 1 0\no 2 0\no 3 0\nt 4 0\n1 2 0\n1 3 0\n2 4 -1 0\n2 4 1 0\n3 4 -2 0\n3 4 2 0\n";
const CLAUSE: &str = "o 1 0\no 2 0\nt 3 0\n2 3 -1 -2 0\n2 3 1 0\n1 2 0\n";

fn read(text: &str) -> DecisionDNNF {
    D4Reader::default().read(text.as_bytes()).unwrap()
}

fn lits(values: &[isize]) -> Vec<Literal> {
    values.iter().map(|v| Literal::from(*v)).collect()
}

#[test]
fn literal_encoding() {
    let l = Literal::from(1);
    assert_eq!(0, l.var_index());
    assert!(l.polarity());
    assert_eq!(0, l.flip().var_index());
    assert!(!l.flip().polarity());
    assert_eq!(l, l.flip().flip());
    assert_eq!(0, l.into_usize());
    assert_eq!(1, l.flip().into_usize());
    assert_eq!(Literal::from(-3), Literal::from_usize(5));
    assert_eq!(Literal::from(-3), Literal::new(2, false));
    for v in [1isize, -1, 2, -2, 17, -17, isize::MAX, isize::MIN + 1, isize::MIN] {
        assert_eq!(v, isize::from(Literal::from(v)));
    }
    let mut m = Literal::from(4);
    m.set_negative();
    assert_eq!(Literal::from(-4), m);
    m.set_negative();
    assert_eq!(Literal::from(-4), m);
    assert_eq!(0, isize::from(Literal::from(0)));
}

#[test]
fn index_conversions() {
    assert_eq!(3, usize::from(NodeIndex::from(3)));
    assert_eq!(5, usize::from(EdgeIndex::from(5)));
}

#[test]
fn node_edges() {
    let mut node = Node::from_label(b'a').unwrap();
    assert_eq!(Ok(()), node.add_edge(EdgeIndex::from(4)));
    assert_eq!(Node::And(vec![EdgeIndex::from(4)]), node);
    assert_eq!(&[EdgeIndex::from(4)], node.edge_indices());
    let mut leaf = Node::from_label(b't').unwrap();
    assert_eq!(Err(Error::EdgeFromLeaf), leaf.add_edge(EdgeIndex::from(0)));
    assert_eq!(Some(Node::Or(vec![])), Node::from_label(b'o'));
    assert_eq!(Some(Node::False), Node::from_label(b'f'));
    assert_eq!(None, Node::from_label(b'x'));
    let mut edge = Edge::from_raw_data(NodeIndex::from(2), lits(&[1, -2]));
    assert_eq!(NodeIndex::from(2), edge.target());
    assert_eq!(lits(&[1, -2]), edge.propagated());
    edge.set_target(NodeIndex::from(1));
    assert_eq!(NodeIndex::from(1), edge.target());
}

#[test]
fn formula_sizes() {
    let mut ddnnf = read(AND_OR);
    assert_eq!(2, ddnnf.n_vars());
    assert_eq!(4, ddnnf.n_nodes());
    assert_eq!(6, ddnnf.n_edges());
    assert_eq!(4, ddnnf.nodes().len());
    assert_eq!(6, ddnnf.edges().len());
    ddnnf.update_n_vars(5);
    assert_eq!(5, ddnnf.n_vars());
    assert_eq!(&Node::True, ddnnf.node(NodeIndex::from(3)));
    assert_eq!(NodeIndex::from(3), ddnnf.edge(EdgeIndex::from(2)).target());
}

#[test]
fn assumptions_mapping() {
    let assumptions = Assumptions::new(3, lits(&[-1, 3]));
    assert_eq!(lits(&[-1, 3]), assumptions.as_slice());
    assert_eq!(Some(false), assumptions.get(0));
    assert_eq!(None, assumptions.get(1));
    assert_eq!(Some(true), assumptions.get(2));
    assert_eq!(3, assumptions.n_vars());
    assert!(assumptions.is_contradicted(Literal::from(1)));
    assert!(!assumptions.is_contradicted(Literal::from(-1)));
    assert!(!assumptions.is_contradicted(Literal::from(2)));
    assert!(assumptions.contradicts_any(&lits(&[2, -3])));
    assert!(!assumptions.contradicts_any(&lits(&[2, 3])));
}

#[test]
fn free_variables_of_a_clause() {
    let mut ddnnf = read(CLAUSE);
    ddnnf.update_n_vars(3);
    let free_vars = ddnnf.free_vars();
    assert_eq!(lits(&[-3]), free_vars.root_free_vars());
    let or_free_vars = free_vars.or_free_vars();
    assert_eq!(3, or_free_vars.n_nodes());
    assert_eq!(1, or_free_vars.n_children(0));
    assert_eq!(2, or_free_vars.n_children(1));
    assert_eq!(0, or_free_vars.n_children(2));
    assert_eq!(vec![0, 1], or_free_vars.iter_child_free_vars_lengths(1));
    assert!(or_free_vars.child_free_vars(1, 0).is_empty());
    assert_eq!(lits(&[-2]), or_free_vars.child_free_vars(1, 1));
    let (tables, root) = compute(&ddnnf);
    assert_eq!(lits(&[-3]), root);
    assert_eq!(
        vec![vec![vec![]], vec![vec![], lits(&[-2])], vec![]],
        tables
    );
    let same = FreeVariables::compute(&ddnnf);
    assert_eq!(free_vars.root_free_vars(), same.root_free_vars());
    let left = free_vars.apply_assumptions(&Assumptions::new(3, lits(&[2, -3])));
    assert!(left.root_free_vars().is_empty());
    assert!(left.or_free_vars().child_free_vars(1, 1).is_empty());
    assert_eq!(2, left.or_free_vars().n_children(1));
}

#[test]
fn or_free_variables_polarities() {
    let mut ddnnf = read(CLAUSE);
    ddnnf.update_n_vars(3);
    let (tables, _) = compute(&ddnnf);
    let mut or_free_vars = decdnnf_rs::OrFreeVariables::build(tables);
    {
        let part = or_free_vars.child_free_vars_mut(1, 1);
        part[0] = part[0].flip();
    }
    assert_eq!(lits(&[2]), or_free_vars.child_free_vars(1, 1));
    or_free_vars.set_negative_literals();
    assert_eq!(lits(&[-2]), or_free_vars.child_free_vars(1, 1));
}

#[test]
fn counts_of_the_nodes() {
    let ddnnf = read(AND_OR);
    let counter = ModelCounter::new(&ddnnf, false);
    assert_eq!(4, *counter.count_from(NodeIndex::from(0)));
    assert_eq!(2, *counter.count_from(NodeIndex::from(1)));
    assert_eq!(2, *counter.count_from(NodeIndex::from(2)));
    assert_eq!(1, *counter.count_from(NodeIndex::from(3)));
    assert_eq!(4, *counter.node_count(NodeIndex::from(0)));
    for n in 0..4 {
        assert!(counter.count_from(NodeIndex::from(n)) <= counter.count_from(NodeIndex::from(0)));
    }
    assert!(!counter.partial_models());
    assert!(counter.assumptions().is_none());
    assert_eq!(4, counter.ddnnf().n_nodes());
    assert!(!counter.is_blocked(&lits(&[1])));
    let mut wide = read("t 1 0\n");
    wide.update_n_vars(70);
    let big = ModelCounter::new(&wide, false);
    assert_eq!("1180591620717411303424", big.global_count().to_string());
}

#[test]
fn finder_agrees_with_counter() {
    let ddnnf = read(AND_OR);
    let finder = ModelFinder::new(&ddnnf);
    for assumptions in [vec![], vec![1], vec![-1, 2], vec![2, -1]] {
        let mut counter = ModelCounter::new(&ddnnf, false);
        counter.set_assumptions(&lits(&assumptions));
        let found = finder.find_model_under_assumptions(&lits(&assumptions));
        assert_eq!(*counter.global_count() > 0, found.is_some());
    }
    let unsat = read("a 1 0\nt 2 0\nf 3 0\n1 2 1 0\n1 3 0\n");
    assert!(ModelFinder::new(&unsat).find_model().is_none());
    assert_eq!(0, *ModelCounter::new(&unsat, false).global_count());
    let mut free = read("t 1 0\n");
    free.update_n_vars(2);
    assert_eq!(
        Some(lits(&[1, 2])),
        ModelFinder::new(&free).find_model()
    );
    assert_eq!(
        Some(lits(&[1, -2])),
        ModelFinder::new(&free).find_model_under_assumptions(&lits(&[-2, 2]))
    );
}

#[test]
fn orphans_are_removed() {
    let mut ddnnf = DecisionDNNF::from_raw_data(
        1,
        vec![
            Node::True,
            Node::And(vec![EdgeIndex::from(0)]),
            Node::False,
        ],
        vec![Edge::from_raw_data(NodeIndex::from(0), lits(&[1]))],
    );
    let finder = OrphanFinder::search(&ddnnf).unwrap();
    assert_eq!(
        &[NodeIndex::from(1), NodeIndex::from(2)],
        finder.orphans_nodes()
    );
    assert_eq!(&[EdgeIndex::from(0)], finder.orphans_edges());
    finder.remove_from_formula(&mut ddnnf);
    assert_eq!(1, ddnnf.n_nodes());
    assert_eq!(0, ddnnf.n_edges());
    assert_eq!(1, ddnnf.n_vars());
    let clean = OrphanFinder::search(&ddnnf).unwrap();
    assert!(clean.orphans_nodes().is_empty());
    clean.remove_from_formula(&mut ddnnf);
    assert_eq!(1, ddnnf.n_nodes());
}

#[test]
fn subformula_of_a_node() {
    let ddnnf = read(CLAUSE);
    let sub = ddnnf.subformula(NodeIndex::from(1));
    assert_eq!(2, sub.n_vars());
    assert_eq!(2, sub.n_nodes());
    assert_eq!(2, sub.n_edges());
    assert_eq!(3, *ModelCounter::new(&sub, false).global_count());
    let whole = ddnnf.subformula(NodeIndex::from(0));
    assert_eq!(3, whole.n_nodes());
    assert_eq!(3, *ModelCounter::new(&whole, false).global_count());
    let leaf = ddnnf.subformula(NodeIndex::from(2));
    assert_eq!(&[Node::True], leaf.nodes().as_slice());
    assert_eq!(4, *ModelCounter::new(&leaf, false).global_count());
}

#[test]
fn error_messages() {
    let cases: Vec<(Error, &str)> = vec![
        (Error::UnexpectedFirstWord(b"n".to_vec()), "unexpected first word \"n\""),
        (Error::MissingNodeIndex, "missing node index"),
        (Error::InvalidDigit, "invalid digit found in string"),
        (Error::NumberTooLarge, "number too large to fit in target type"),
        (Error::ExpectedZero, "expected 0 as third word"),
        (Error::ContentAfterZero, "unexpected content after 0"),
        (
            Error::WrongNodeIndex { expected: 1, got: 0 },
            "wrong node index; expected 1, got 0",
        ),
        (Error::MissingTargetIndex, "missing target index"),
        (Error::ExpectedLiteral(b"a".to_vec()), "expected a literal, got \"a\""),
        (Error::MissingFinalZero, "missing final 0"),
        (
            Error::VariablePropagatedTwice,
            "a variable is propagated multiple times",
        ),
        (
            Error::WrongSourceIndex { max: 3, got: 4 },
            "wrong source index; max is 3, got 4",
        ),
        (
            Error::WrongTargetIndex { max: 3, got: 4 },
            "wrong target index; max is 3, got 4",
        ),
        (
            Error::SourceEqualsTarget,
            "source and target index must be different",
        ),
        (Error::EdgeFromLeaf, "cannot add an edge from a leaf node"),
        (Error::EmptyFormula, "formula is empty"),
        (Error::UnreachableNode(2), "no path to the node with index 2"),
        (Error::CycleDetected, "cycle detected"),
        (Error::TruncatedNumber, "while reading a number"),
        (Error::UnknownNodeCode, "unknown node code"),
        (
            Error::WrongOrder,
            "order must involve all variables exactly once",
        ),
        (Error::UnknownFormat, "cannot read with any input formats"),
    ];
    for (error, message) in cases {
        assert_eq!(message, error.to_string());
    }
    assert!(Error::NotADecisionNode(3).to_string().ends_with("index 3"));
}

fn d4_error(text: &str) -> ReadError {
    D4Reader::default().read(text.as_bytes()).unwrap_err()
}

#[test]
fn d4_errors_and_lines() {
    assert_eq!(
        ReadError { line_index: Some(1), cause: Error::MissingNodeIndex },
        d4_error("t 1 0\na\n")
    );
    assert_eq!(
        ReadError { line_index: Some(0), cause: Error::InvalidDigit },
        d4_error("a x 0\n")
    );
    assert_eq!(
        ReadError { line_index: Some(0), cause: Error::NumberTooLarge },
        d4_error("a 99999999999999999999999999 0\n")
    );
    assert_eq!(
        ReadError {
            line_index: Some(0),
            cause: Error::UnexpectedFirstWord(b"99999999999999999999999999".to_vec()),
        },
        d4_error("99999999999999999999999999 1 0\n")
    );
    assert_eq!(
        ReadError { line_index: Some(2), cause: Error::MissingTargetIndex },
        d4_error("a 1 0\nt 2 0\n1\n")
    );
    assert_eq!(
        ReadError { line_index: Some(2), cause: Error::VariablePropagatedTwice },
        d4_error("a 1 0\nt 2 0\n1 2 3 -3 0\n")
    );
    assert_eq!(
        ReadError { line_index: Some(2), cause: Error::WrongSourceIndex { max: 2, got: 0 } },
        d4_error("a 1 0\nt 2 0\n0 2 0\n")
    );
    assert_eq!(
        ReadError { line_index: Some(2), cause: Error::WrongTargetIndex { max: 2, got: 0 } },
        d4_error("a 1 0\nt 2 0\n1 0 0\n")
    );
    assert_eq!(
        ReadError { line_index: None, cause: Error::EmptyFormula },
        d4_error("\n  \n")
    );
    assert_eq!(
        ReadError { line_index: None, cause: Error::UnreachableNode(3) },
        d4_error("a 1 0\nt 2 0\nf 3 0\n1 2 0\n")
    );
    assert_eq!("cycle detected", d4_error("a 1 0\na 2 0\n1 2 0\n2 1 0\n").to_string());
}

#[test]
fn d4_literals_are_sorted_and_kept_once() {
    let ddnnf = read("a 1 0\nt 2 0\n1 2 3 -1 3 +2 0\n");
    assert_eq!(3, ddnnf.n_vars());
    assert_eq!(lits(&[-1, 2, 3]), ddnnf.edges()[0].propagated());
    let tabs = read("o\t1\t0\r\nt 2 0\r\n1 2 -1 0\r\n1   2   1   0");
    assert_eq!(2, tabs.n_edges());
}

#[test]
fn binary_format_bytes() {
    let ddnnf = read("a 1 0\nt 2 0\n1 2 -2 0\n");
    let bytes = BinaryWriter.write(&ddnnf);
    let expected: Vec<u8> = vec![
        0, 0, 0, 0, 0, 0, 0, 2, // the number of variables
        0, 0, 0, 0, 0, 0, 0, 2, // the number of nodes
        0, 0, 0, 0, 0, 0, 0, 0, 1, 0, 0, 0, 0, 0, 0, 0, 0, // a conjunction with edge 0
        2, // true
        0, 0, 0, 0, 0, 0, 0, 1, // the number of edges
        0, 0, 0, 0, 0, 0, 0, 1, 0, 0, 0, 0, 0, 0, 0, 1, 0, 0, 0, 0, 0, 0, 0, 3, // to node 1, literal -2
    ];
    assert_eq!(expected, bytes);
    let back = BinaryReader.read(&bytes).unwrap();
    assert_eq!(ddnnf.nodes(), back.nodes());
    assert_eq!(ddnnf.edges(), back.edges());
    assert_eq!(
        Error::TruncatedNumber,
        BinaryReader.read(&bytes[..bytes.len() - 1]).unwrap_err().cause
    );
    assert_eq!(Error::TruncatedNumber, BinaryReader.read(&[]).unwrap_err().cause);
    let mut wrong = bytes.clone();
    wrong[16] = 9;
    assert_eq!(Error::UnknownNodeCode, BinaryReader.read(&wrong).unwrap_err().cause);
    let through_trait = DecisionDNNFWriter::write(&BinaryWriter, &ddnnf).unwrap();
    assert_eq!(bytes, through_trait);
}

#[test]
fn smart_reader_tries_each_format() {
    let text = read(AND_OR);
    let reader = SmartReader::default();
    let from_text = reader.read(AND_OR.as_bytes()).unwrap();
    assert_eq!(text.nodes(), from_text.nodes());
    let bytes = BinaryWriter.write(&text);
    let from_bytes = reader.read(&bytes).unwrap();
    assert_eq!(text.edges(), from_bytes.edges());
    assert_eq!(
        Error::UnknownFormat,
        reader.read(b"no formula").unwrap_err().cause
    );
    let mut generic = SmartReader::default();
    DecisionDNNFReader::set_do_not_check(&mut generic, true);
    assert!(DecisionDNNFReader::read(&generic, AND_OR.as_bytes()).is_ok());
    let mut d4 = D4Reader::default();
    DecisionDNNFReader::set_do_not_check(&mut d4, true);
    assert!(DecisionDNNFReader::read(&d4, b"f 1 0\nt 2 0\n").is_ok());
}

#[test]
fn c2d_text() {
    let or = read("o 1 0\nt 2 0\n1 2 -1 0\n1 2 1 0\n");
    let text = String::from_utf8(C2dWriter::write(&or).unwrap()).unwrap();
    assert_eq!("nnf 4 3 1\nL -1\nL 1\nO 1 2 0 1\nA 1 2\n", text);
    let leaf = read("t 1 0\n");
    assert_eq!(
        "nnf 1 0 0\nA 0\n",
        String::from_utf8(C2dWriter::write(&leaf).unwrap()).unwrap()
    );
    let no = read("f 1 0\n");
    assert_eq!(
        "nnf 1 0 0\nO 0 0\n",
        String::from_utf8(C2dWriter::write(&no).unwrap()).unwrap()
    );
    let and = read("a 1 0\nt 2 0\n1 2 1 -2 0\n1 2 3 0\n");
    assert_eq!(
        "nnf 5 4 3\nL 1\nL -2\nA 2 0 1\nL 3\nA 2 2 3\n",
        String::from_utf8(C2dWriter::write(&and).unwrap()).unwrap()
    );
    let undecided = read("o 1 0\nt 2 0\n1 2 -1 0\n1 2 2 0\n");
    assert_eq!(Err(Error::NotADecisionNode(0)), C2dWriter::write(&undecided));
}

struct PathCounter;

impl BottomUpVisitor<usize> for PathCounter {
    fn merge_for_and(
        &self,
        _ddnnf: &DecisionDNNF,
        _path: &[NodeIndex],
        children: Vec<(&[Literal], usize)>,
    ) -> usize {
        children.iter().map(|c| c.1).product()
    }

    fn merge_for_or(
        &self,
        _ddnnf: &DecisionDNNF,
        _path: &[NodeIndex],
        children: Vec<(&[Literal], usize)>,
    ) -> usize {
        children.iter().map(|c| c.1).sum()
    }

    fn new_for_true(&self, _ddnnf: &DecisionDNNF, _path: &[NodeIndex]) -> usize {
        1
    }

    fn new_for_false(&self, _ddnnf: &DecisionDNNF, _path: &[NodeIndex]) -> usize {
        0
    }
}

struct Depth;

impl BottomUpVisitor<usize> for Depth {
    fn merge_for_and(
        &self,
        _ddnnf: &DecisionDNNF,
        path: &[NodeIndex],
        children: Vec<(&[Literal], usize)>,
    ) -> usize {
        children.iter().map(|c| c.1).max().unwrap_or(path.len())
    }

    fn merge_for_or(
        &self,
        _ddnnf: &DecisionDNNF,
        path: &[NodeIndex],
        children: Vec<(&[Literal], usize)>,
    ) -> usize {
        children.iter().map(|c| c.1).max().unwrap_or(path.len())
    }

    fn new_for_true(&self, _ddnnf: &DecisionDNNF, path: &[NodeIndex]) -> usize {
        path.len()
    }

    fn new_for_false(&self, _ddnnf: &DecisionDNNF, path: &[NodeIndex]) -> usize {
        path.len()
    }
}

#[test]
fn bottom_up_traversals() {
    let ddnnf = read(AND_OR);
    assert_eq!(4, BottomUpTraversal::new(Box::new(PathCounter)).traverse(&ddnnf));
    assert_eq!(3, BottomUpTraversal::new(Box::new(Depth)).traverse(&ddnnf));
    let both = BottomUpTraversal::new(Box::new(BiBottomUpVisitor::new(
        Box::new(PathCounter),
        Box::new(Depth),
    )));
    assert_eq!((4, 3), both.traverse(&ddnnf));
    let clause = read(CLAUSE);
    let pair = BiBottomUpVisitor::new(Box::new(PathCounter), Box::new(Depth));
    assert_eq!((2, 3), BottomUpTraversal::new(Box::new(pair)).traverse(&clause));
}

#[test]
fn error_messages_hold_the_numbers() {
    assert_eq!(
        "wrong node index; expected 120, got 7",
        Error::WrongNodeIndex { expected: 120, got: 7 }.to_string()
    );
    assert_eq!(
        "wrong source index; max is 10, got 4096",
        Error::WrongSourceIndex { max: 10, got: 4096 }.to_string()
    );
    assert_eq!(
        "no path to the node with index 0",
        Error::UnreachableNode(0).to_string()
    );
    let read_error = ReadError { line_index: Some(3), cause: Error::ExpectedLiteral(b"x1".to_vec()) };
    assert_eq!("expected a literal, got \"x1\"", read_error.to_string());
}
