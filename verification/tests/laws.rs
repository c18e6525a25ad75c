use decdnnf_rs::algorithms::sampling::next_sample;
use decdnnf_rs::algorithms::sampling::Swaps;
use decdnnf_rs::BinaryReader;
use decdnnf_rs::BinaryWriter;
use decdnnf_rs::D4Reader;
use decdnnf_rs::DecisionDNNF;
use decdnnf_rs::DirectAccessEngine;
use decdnnf_rs::Literal;
use decdnnf_rs::ModelCounter;
use decdnnf_rs::ModelEnumerator;
use decdnnf_rs::Node;
use decdnnf_rs::NodeIndex;
use rug::Integer;

const SHARED: &str = "o 1 0\no 2 0\na 3 0\nt 4 0\nf 5 0\n1 2 -1 0\n1 3 1 0\n2 4 -2 0\n2 4 2 3 0\n2 5 -3 0\n3 4 -2 0\n3 4 4 0\n";
const PRODUCT: &str =
    "a 1 0\no 2 0\no 3 0\nt 4 0\n1 2 0\n1 3 0\n2 4 -1 0\n2 4 1 0\n3 4 -2 0\n3 4 2 0\n";
const CLAUSE_OF_TWO: &str = "o 1 0\no 2 0\nt 3 0\n2 3 -1 -2 0\n2 3 1 0\n1 2 0\n";

fn formulas() -> Vec<DecisionDNNF> {
    let mut all = Vec::new();
    for (text, n_vars) in [(SHARED, 5), (PRODUCT, 2), (PRODUCT, 4), (CLAUSE_OF_TWO, 2), (CLAUSE_OF_TWO, 3)] {
        let mut ddnnf = D4Reader::default().read(text.as_bytes()).unwrap();
        ddnnf.update_n_vars(n_vars);
        all.push(ddnnf);
    }
    all
}

fn holds(assignment: usize, l: Literal) -> bool {
    ((assignment >> l.var_index()) & 1 == 1) == l.polarity()
}

fn satisfies(ddnnf: &DecisionDNNF, node: usize, assignment: usize) -> bool {
    let through = |e: &decdnnf_rs::EdgeIndex| {
        let edge = &ddnnf.edges()[e.0];
        edge.propagated().iter().all(|l| holds(assignment, *l))
            && satisfies(ddnnf, edge.target().0, assignment)
    };
    match &ddnnf.nodes()[node] {
        Node::True => true,
        Node::False => false,
        Node::And(edges) => edges.iter().all(through),
        Node::Or(edges) => edges.iter().any(through),
    }
}

fn n_satisfying(ddnnf: &DecisionDNNF) -> usize {
    (0..1usize << ddnnf.n_vars())
        .filter(|a| satisfies(ddnnf, 0, *a))
        .count()
}

fn models_in_order(ddnnf: &DecisionDNNF, partial: bool) -> Vec<Vec<Option<Literal>>> {
    let counter = ModelCounter::new(ddnnf, partial);
    let engine = DirectAccessEngine::new(&counter);
    let n = engine.n_models().to_usize().unwrap();
    (0..n)
        .map(|k| engine.model(Integer::from(k)).unwrap())
        .collect()
}

#[test]
fn the_count_is_the_number_of_satisfying_assignments() {
    for ddnnf in formulas() {
        let counter = ModelCounter::new(&ddnnf, false);
        assert_eq!(n_satisfying(&ddnnf), *counter.global_count());
    }
}

#[test]
fn each_model_satisfies_the_formula() {
    for ddnnf in formulas() {
        for model in models_in_order(&ddnnf, false) {
            assert_eq!(ddnnf.n_vars(), model.len());
            let mut assignment = 0usize;
            for (v, l) in model.iter().enumerate() {
                let l = l.unwrap();
                assert_eq!(v, l.var_index());
                if l.polarity() {
                    assignment |= 1 << v;
                }
            }
            assert!(satisfies(&ddnnf, 0, assignment));
        }
    }
}

#[test]
fn the_paths_stand_for_the_models() {
    for ddnnf in formulas() {
        let n_models = ModelCounter::new(&ddnnf, false).global_count().clone();
        let mut total = Integer::from(0);
        for path in models_in_order(&ddnnf, true) {
            let n_free = path.iter().filter(|l| l.is_none()).count();
            total += Integer::from(1) << (n_free as u32);
        }
        assert_eq!(n_models, total);
    }
}

#[test]
fn the_models_of_two_indices_differ() {
    for ddnnf in formulas() {
        for partial in [false, true] {
            let models = models_in_order(&ddnnf, partial);
            for i in 0..models.len() {
                for j in 0..i {
                    assert_ne!(models[i], models[j]);
                }
            }
        }
    }
}

#[test]
fn contiguous_ranges_give_all_the_models_in_order() {
    for ddnnf in formulas() {
        let expected = models_in_order(&ddnnf, false);
        let counter = ModelCounter::new(&ddnnf, false);
        let engine = DirectAccessEngine::new(&counter);
        for width in 1..=expected.len() {
            let mut found = Vec::new();
            let mut start = 0;
            while start < expected.len() {
                let end = std::cmp::min(start + width, expected.len());
                let mut enumerator = ModelEnumerator::new(&ddnnf, false);
                assert!(enumerator
                    .jump_to(&engine, Integer::from(start))
                    .is_some());
                for _ in start..end {
                    found.push(enumerator.compute_next_model().unwrap().to_vec());
                }
                start = end;
            }
            assert_eq!(expected, found);
        }
    }
}

#[test]
fn a_node_counts_no_more_than_the_root() {
    for (text, n_vars) in [(PRODUCT, 2), (CLAUSE_OF_TWO, 2), (CLAUSE_OF_TWO, 3)] {
        let mut ddnnf = D4Reader::default().read(text.as_bytes()).unwrap();
        ddnnf.update_n_vars(n_vars);
        let counter = ModelCounter::new(&ddnnf, false);
        let root = counter.count_from(NodeIndex::from(0)).clone();
        for n in 0..ddnnf.n_nodes() {
            assert!(*counter.count_from(NodeIndex::from(n)) <= root);
        }
    }
}

#[test]
fn a_reset_starts_the_same_enumeration() {
    for ddnnf in formulas() {
        let mut fresh = ModelEnumerator::new(&ddnnf, false);
        let mut used = ModelEnumerator::new(&ddnnf, false);
        let _ = used.compute_next_model();
        let _ = used.compute_next_model();
        used.reset();
        loop {
            let expected = fresh.compute_next_model().map(|m| m.to_vec());
            let got = used.compute_next_model().map(|m| m.to_vec());
            assert_eq!(expected, got);
            if expected.is_none() {
                break;
            }
        }
    }
}

#[test]
fn what_was_written_is_read_back() {
    for ddnnf in formulas() {
        let mut bytes = BinaryWriter.write(&ddnnf);
        bytes.extend_from_slice(&[7, 7, 7]);
        let back = BinaryReader.read(&bytes).unwrap();
        assert_eq!(ddnnf.n_vars(), back.n_vars());
        assert_eq!(ddnnf.nodes(), back.nodes());
        assert_eq!(ddnnf.edges(), back.edges());
    }
}

#[test]
fn a_subformula_counts_what_its_root_counts() {
    for ddnnf in formulas() {
        let counter = ModelCounter::new(&ddnnf, false);
        for n in 0..ddnnf.n_nodes() {
            let sub = ddnnf.subformula(NodeIndex::from(n));
            let sub_counter = ModelCounter::new(&sub, false);
            assert_eq!(
                *counter.node_count(NodeIndex::from(n)),
                *sub_counter.node_count(NodeIndex::from(0))
            );
        }
    }
}

#[test]
fn drawing_without_replacement_gives_each_index_once() {
    let mut swapped = Swaps::new();
    let draws = [2, 0, 2, 1, 0];
    let mut left = 5;
    let mut found = Vec::new();
    for drawn in draws {
        found.push(next_sample(
            &mut swapped,
            &Integer::from(left),
            &Integer::from(drawn),
        ));
        left -= 1;
    }
    assert_eq!(vec![2, 0, 4, 1, 3], found);
    let mut fresh = Swaps::new();
    assert_eq!(3, next_sample(&mut fresh, &Integer::from(4), &Integer::from(3)));
    assert_eq!(2, next_sample(&mut fresh, &Integer::from(3), &Integer::from(2)));
}
