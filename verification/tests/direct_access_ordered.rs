use decdnnf_rs::D4Reader;
use decdnnf_rs::DecisionDNNF;
use decdnnf_rs::Literal;
use decdnnf_rs::ModelCounter;
use decdnnf_rs::OrderedDirectAccessEngine;

fn compute_models_ordered(ddnnf: &DecisionDNNF, order: &[isize]) -> Vec<Vec<isize>> {
    let lit_order = order.iter().map(|i| Literal::from(*i)).collect::<Vec<_>>();
    let engine = OrderedDirectAccessEngine::new(ddnnf, lit_order).unwrap();
    let model_counter = ModelCounter::new(engine.ddnnf(), false);
    let n_models = model_counter.global_count();
    let mut actual = Vec::with_capacity(n_models.to_usize_wrapping());
    for i in 0..n_models.to_usize_wrapping() {
        let m = engine.model(i.into()).unwrap();
        actual.push(m.iter().map(|l| isize::from(*l)).collect());
    }
    actual
}

#[test]
fn test_same_formula_different_orders() {
    let str_ddnnf = "t 1 0";
    let mut ddnnf = D4Reader::default().read(str_ddnnf.as_bytes()).unwrap();
    ddnnf.update_n_vars(2);
    let mut model_sets = Vec::new();
    let mut check_for = |order| {
        let new_model_set = compute_models_ordered(&ddnnf, order);
        assert!(!model_sets.contains(&new_model_set));
        model_sets.push(new_model_set);
    };
    check_for(&[-1, -2]);
    check_for(&[-1, 2]);
    check_for(&[1, -2]);
    check_for(&[1, 2]);
    check_for(&[-2, -1]);
    check_for(&[-2, 1]);
    check_for(&[2, -1]);
    check_for(&[2, 1]);
}

#[test]
fn test_equivalent_formula_same_order() {
    let mut models = None;
    let models_ref = &mut models;
    let mut check_for = |str_ddnnf: &str| {
        let ddnnf = D4Reader::default().read(str_ddnnf.as_bytes()).unwrap();
        let new_model_set = compute_models_ordered(&ddnnf, &[-1, -2, -3]);
        if let Some(m) = models_ref {
            assert_eq!(m, &new_model_set);
        } else {
            *models_ref = Some(new_model_set);
        }
    };
    check_for("o 1 0\na 2 0\na 3 0\nt 4 0\n1 2 0\n1 3 0\n2 4 -1 -2 0\n3 4 1 3 0\n");
    check_for("o 1 0\na 2 0\na 3 0\nt 4 0\n1 2 0\n1 3 0\n2 4 -1 -2 0\n3 4 3 1 0\n");
    check_for("o 1 0\na 2 0\na 3 0\nt 4 0\n1 2 0\n1 3 0\n2 4 -2 -1 0\n3 4 1 3 0\n");
    check_for("o 1 0\na 2 0\na 3 0\nt 4 0\n1 2 0\n1 3 0\n2 4 -2 -1 0\n3 4 3 1 0\n");
    check_for("o 1 0\na 2 0\na 3 0\nt 4 0\n1 2 0\n1 3 0\n3 4 -1 -2 0\n2 4 1 3 0\n");
    check_for("o 1 0\na 2 0\na 3 0\nt 4 0\n1 2 0\n1 3 0\n3 4 -1 -2 0\n2 4 3 1 0\n");
    check_for("o 1 0\na 2 0\na 3 0\nt 4 0\n1 2 0\n1 3 0\n3 4 -2 -1 0\n2 4 1 3 0\n");
    check_for("o 1 0\na 2 0\na 3 0\nt 4 0\n1 2 0\n1 3 0\n3 4 -2 -1 0\n2 4 3 1 0\n");
}

#[test]
fn test_wrong_order_missing_var() {
    let mut ddnnf = D4Reader::default().read("t 1 0".as_bytes()).unwrap();
    ddnnf.update_n_vars(2);
    assert!(OrderedDirectAccessEngine::new(&ddnnf, vec![Literal::from(1)]).is_err());
}

#[test]
fn test_wrong_order_unknown_var() {
    let mut ddnnf = D4Reader::default().read("t 1 0".as_bytes()).unwrap();
    ddnnf.update_n_vars(2);
    assert!(
        OrderedDirectAccessEngine::new(&ddnnf, vec![Literal::from(1), Literal::from(3)])
            .is_err()
    );
}

#[test]
fn test_wrong_order_multiple_instance_of_var() {
    let mut ddnnf = D4Reader::default().read("t 1 0".as_bytes()).unwrap();
    ddnnf.update_n_vars(2);
    assert!(
        OrderedDirectAccessEngine::new(&ddnnf, vec![Literal::from(1), Literal::from(1)])
            .is_err()
    );
}
