use decdnnf_rs::Assumptions;
use decdnnf_rs::D4Reader;
use decdnnf_rs::DecisionDNNF;
use decdnnf_rs::DirectAccessEngine;
use decdnnf_rs::Literal;
use decdnnf_rs::ModelCounter;
use decdnnf_rs::ModelEnumerator;
use decdnnf_rs::ModelFinder;
use rug::Integer;
use std::rc::Rc;

const AND_OR: &str =
    "a 1 0\no 2 0\no 3 0\nt 4 0\n1 2 0\n1 3 0\n2 4 -1 0\n2 4 1 0\n3 4 -2 0\n3 4 2 0\n";
const CLAUSE: &str = "o 1 0\no 2 0\nt 3 0\n2 3 -1 -2 0\n2 3 1 0\n1 2 0\n";

fn read(text: &str, n_vars: Option<usize>) -> DecisionDNNF {
    let mut ddnnf = D4Reader::default().read(text.as_bytes()).unwrap();
    if let Some(n) = n_vars {
        ddnnf.update_n_vars(n);
    }
    ddnnf
}

fn dimacs(model: &[Option<Literal>]) -> Vec<isize> {
    model.iter().filter_map(|l| l.map(isize::from)).collect()
}

fn enumerate(enumerator: &mut ModelEnumerator<'_>) -> Vec<Vec<isize>> {
    let mut models = Vec::new();
    while let Some(m) = enumerator.compute_next_model() {
        models.push(dimacs(m));
    }
    models
}

fn direct_access(ddnnf: &DecisionDNNF, partial: bool) -> Vec<Vec<isize>> {
    let counter = ModelCounter::new(ddnnf, partial);
    let engine = DirectAccessEngine::new(&counter);
    let n = engine.n_models().to_usize().unwrap();
    (0..n)
        .map(|k| dimacs(&engine.model(Integer::from(k)).unwrap()))
        .collect()
}

#[test]
fn scenario_tautology_two_variables() {
    let ddnnf = read("t 1 0\n", Some(2));
    let counter = ModelCounter::new(&ddnnf, false);
    assert_eq!(4, *counter.global_count());
    let engine = DirectAccessEngine::new(&counter);
    let expected = vec![vec![-1, -2], vec![-1, 2], vec![1, -2], vec![1, 2]];
    for (k, model) in expected.iter().enumerate() {
        assert_eq!(*model, dimacs(&engine.model(Integer::from(k)).unwrap()));
    }
    assert!(engine.model(Integer::from(4)).is_none());
    assert!(engine.model(Integer::from(-1)).is_none());
    assert_eq!(expected, enumerate(&mut ModelEnumerator::new(&ddnnf, false)));
}

#[test]
fn scenario_trivial_sat() {
    let ddnnf = read("a 1 0\nt 2 0\n1 2 1 0\n", None);
    assert_eq!(1, ddnnf.n_vars());
    let counter = ModelCounter::new(&ddnnf, false);
    assert_eq!(1, *counter.global_count());
    let mut enumerator = ModelEnumerator::new(&ddnnf, false);
    assert_eq!(Some(vec![1]), enumerator.compute_next_model().map(dimacs));
    assert!(enumerator.compute_next_model().is_none());
    assert!(enumerator.compute_next_model().is_none());
    let engine = DirectAccessEngine::new(&counter);
    assert_eq!(vec![1], dimacs(&engine.model(Integer::from(0)).unwrap()));
    assert!(engine.model(Integer::from(1)).is_none());
}

#[test]
fn scenario_symmetric_or() {
    let ddnnf = read("o 1 0\nt 2 0\n1 2 -1 0\n1 2 1 0\n", None);
    assert_eq!(2, *ModelCounter::new(&ddnnf, false).global_count());
    assert_eq!(
        vec![vec![-1], vec![1]],
        enumerate(&mut ModelEnumerator::new(&ddnnf, false))
    );
}

#[test]
fn scenario_and_or_product() {
    let ddnnf = read(AND_OR, None);
    assert_eq!(4, *ModelCounter::new(&ddnnf, false).global_count());
    let expected = vec![vec![-1, -2], vec![-1, 2], vec![1, -2], vec![1, 2]];
    assert_eq!(expected, enumerate(&mut ModelEnumerator::new(&ddnnf, false)));
    assert_eq!(expected, direct_access(&ddnnf, false));
}

#[test]
fn scenario_partial_path_count() {
    let ddnnf = read(AND_OR, None);
    assert_eq!(4, *ModelCounter::new(&ddnnf, true).global_count());
    let expected = vec![vec![-1, -2], vec![-1, 2], vec![1, -2], vec![1, 2]];
    assert_eq!(expected, enumerate(&mut ModelEnumerator::new(&ddnnf, true)));
    assert_eq!(expected, direct_access(&ddnnf, true));
}

#[test]
fn scenario_clause_with_free_variable() {
    let ddnnf = read(CLAUSE, None);
    assert_eq!(3, *ModelCounter::new(&ddnnf, false).global_count());
    assert_eq!(2, *ModelCounter::new(&ddnnf, true).global_count());
    let expected = vec![vec![-1, -2], vec![1, -2], vec![1, 2]];
    assert_eq!(expected, enumerate(&mut ModelEnumerator::new(&ddnnf, false)));
    assert_eq!(expected, direct_access(&ddnnf, false));
    let paths = vec![vec![-1, -2], vec![1]];
    assert_eq!(paths, enumerate(&mut ModelEnumerator::new(&ddnnf, true)));
    assert_eq!(paths, direct_access(&ddnnf, true));
}

#[test]
fn scenario_assumptions() {
    let ddnnf = read(AND_OR, None);
    let mut counter = ModelCounter::new(&ddnnf, false);
    counter.set_assumptions(&[Literal::from(1)]);
    assert_eq!(2, *counter.global_count());
    let mut enumerator = ModelEnumerator::new(&ddnnf, false);
    enumerator.set_assumptions(Rc::new(Assumptions::new(2, vec![Literal::from(1)])));
    let expected = vec![vec![1, -2], vec![1, 2]];
    assert_eq!(expected, enumerate(&mut enumerator));
    let engine = DirectAccessEngine::new(&counter);
    assert_eq!(vec![1, -2], dimacs(&engine.model(Integer::from(0)).unwrap()));
    assert_eq!(vec![1, 2], dimacs(&engine.model(Integer::from(1)).unwrap()));
    assert!(engine.model(Integer::from(2)).is_none());
    assert_eq!(1, enumerator.assumptions().unwrap().as_slice().len());
    assert_eq!(1, counter.assumptions().unwrap().as_slice().len());
}

#[test]
fn scenario_jump_then_enumerate() {
    let ddnnf = read(AND_OR, None);
    let counter = ModelCounter::new(&ddnnf, false);
    let engine = DirectAccessEngine::new(&counter);
    let mut enumerator = ModelEnumerator::new(&ddnnf, false);
    assert_eq!(
        Some(vec![-1, 2]),
        enumerator.jump_to(&engine, Integer::from(2)).map(dimacs)
    );
    assert_eq!(Some(vec![1, -2]), enumerator.compute_next_model().map(dimacs));
    assert_eq!(Some(vec![1, 2]), enumerator.compute_next_model().map(dimacs));
    assert!(enumerator.compute_next_model().is_none());
    assert!(enumerator.jump_to(&engine, Integer::from(0)).is_some());
    assert_eq!(Some(vec![-1, -2]), enumerator.compute_next_model().map(dimacs));
    assert!(enumerator.jump_to(&engine, Integer::from(4)).is_none());
    assert!(enumerator.compute_next_model().is_none());
    assert!(enumerator.jump_to(&engine, Integer::from(-1)).is_none());
    assert!(enumerator.compute_next_model().is_none());
    let mut fresh = ModelEnumerator::new(&ddnnf, false);
    assert!(fresh.jump_to(&engine, Integer::from(4)).is_none());
    assert!(fresh.compute_next_model().is_none());
}

#[test]
fn unsatisfiable_root() {
    let ddnnf = read("f 1 0\n", None);
    let counter = ModelCounter::new(&ddnnf, false);
    assert_eq!(0, *counter.global_count());
    assert!(DirectAccessEngine::new(&counter)
        .model(Integer::from(0))
        .is_none());
    assert!(enumerate(&mut ModelEnumerator::new(&ddnnf, false)).is_empty());
    assert!(ModelFinder::new(&ddnnf).find_model().is_none());
}

#[test]
fn tautology_of_three_variables_in_order() {
    let ddnnf = read("t 1 0\n", Some(3));
    assert_eq!(8, *ModelCounter::new(&ddnnf, false).global_count());
    let expected = vec![
        vec![-1, -2, -3],
        vec![-1, -2, 3],
        vec![-1, 2, -3],
        vec![-1, 2, 3],
        vec![1, -2, -3],
        vec![1, -2, 3],
        vec![1, 2, -3],
        vec![1, 2, 3],
    ];
    assert_eq!(expected, enumerate(&mut ModelEnumerator::new(&ddnnf, false)));
    assert_eq!(expected, direct_access(&ddnnf, false));
}

#[test]
fn or_node_with_a_false_child() {
    let text = "o 1 0\nt 2 0\nf 3 0\n1 3 -1 0\n1 2 1 0\n";
    let ddnnf = read(text, None);
    assert_eq!(1, *ModelCounter::new(&ddnnf, false).global_count());
    assert_eq!(
        vec![vec![1]],
        enumerate(&mut ModelEnumerator::new(&ddnnf, false))
    );
    let counter = ModelCounter::new(&ddnnf, false);
    let engine = DirectAccessEngine::new(&counter);
    let (model, graph) = engine.model_with_graph(Integer::from(0)).unwrap();
    assert_eq!(vec![1], dimacs(&model));
    assert_eq!(vec![1, 0, 0], graph);
}

#[test]
fn enumeration_follows_direct_access() {
    let instances = [
        (AND_OR, None),
        (AND_OR, Some(4)),
        (CLAUSE, None),
        (CLAUSE, Some(3)),
        ("o 1 0\na 2 0\na 3 0\nt 4 0\n1 2 0\n1 3 0\n2 4 -1 0\n2 4 -2 0\n3 4 1 0\n3 4 2 0\n", Some(3)),
        (
            "o 1 0\no 2 0\na 3 0\nt 4 0\nf 5 0\n1 2 -1 0\n1 3 1 0\n2 4 -2 0\n2 4 2 3 0\n2 5 -3 0\n3 4 -2 0\n3 4 4 0\n",
            Some(5),
        ),
    ];
    for (text, n_vars) in instances {
        let ddnnf = read(text, n_vars);
        for partial in [false, true] {
            let by_index = direct_access(&ddnnf, partial);
            let mut enumerator = ModelEnumerator::new(&ddnnf, partial);
            assert_eq!(by_index, enumerate(&mut enumerator));
            enumerator.reset();
            assert_eq!(by_index, enumerate(&mut enumerator));
            let counter = ModelCounter::new(&ddnnf, partial);
            let engine = DirectAccessEngine::new(&counter);
            for start in 0..by_index.len() {
                assert!(enumerator.jump_to(&engine, Integer::from(start)).is_some());
                let from_start = enumerate(&mut enumerator);
                assert_eq!(by_index[start..], from_start[..]);
            }
            let mut distinct = by_index.clone();
            distinct.sort();
            distinct.dedup();
            assert_eq!(by_index.len(), distinct.len());
        }
    }
}
