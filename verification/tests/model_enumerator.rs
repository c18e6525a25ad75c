use decdnnf_rs::D4Reader;
use decdnnf_rs::DecisionDNNF;
use decdnnf_rs::DirectAccessEngine;
use decdnnf_rs::ModelCounter;
use decdnnf_rs::ModelEnumerator;

fn assert_models_eq(
    str_ddnnf: &str,
    mut expected: Vec<Vec<isize>>,
    n_vars: Option<usize>,
    hide_free_vars: bool,
) {
    sort_models(&mut expected);
    let mut ddnnf = D4Reader::default().read(str_ddnnf.as_bytes()).unwrap();
    if let Some(n) = n_vars {
        ddnnf.update_n_vars(n);
    }
    let mut model_enum = ModelEnumerator::new(&ddnnf, hide_free_vars);
    let mut actual = Vec::new();
    while let Some(m) = model_enum.compute_next_model() {
        actual.push(
            m.iter()
                .filter_map(|opt_l| opt_l.map(isize::from))
                .collect::<Vec<_>>(),
        );
    }
    sort_models(&mut actual);
    assert_eq!(expected, actual);
    let model_counter = ModelCounter::new(&ddnnf, false);
    let direct_access = DirectAccessEngine::new(&model_counter);
    if hide_free_vars {
        return;
    }
    for i in 0..expected.len() {
        assert_models_eq_after_jump(
            &ddnnf,
            &expected[i..],
            hide_free_vars,
            &direct_access,
            i,
        );
    }
}

fn assert_models_eq_after_jump(
    ddnnf: &DecisionDNNF,
    expected: &[Vec<isize>],
    hide_free_vars: bool,
    direct_access_engine: &DirectAccessEngine<'_>,
    model_id: usize,
) {
    if !hide_free_vars {
        return;
    }
    let mut model_enum = ModelEnumerator::new(ddnnf, hide_free_vars);
    model_enum.jump_to(direct_access_engine, model_id.into());
    let mut actual = Vec::new();
    while let Some(m) = model_enum.compute_next_model() {
        actual.push(
            m.iter()
                .filter_map(|opt_l| opt_l.map(isize::from))
                .collect::<Vec<_>>(),
        );
    }
    sort_models(&mut actual);
    assert_eq!(expected, actual, "for model {model_id}");
}

fn sort_models(models: &mut [Vec<isize>]) {
    models.iter_mut().for_each(|m| m.sort_unstable());
}

#[test]
fn model_enumerator_test_unsat() {
    assert_models_eq("f 1 0\n", vec![], None, false);
}

#[test]
fn model_enumerator_test_single_model() {
    assert_models_eq("a 1 0\nt 2 0\n1 2 1 0\n", vec![vec![1]], None, false);
}

#[test]
fn model_enumerator_test_tautology() {
    assert_models_eq("t 1 0\n", vec![vec![-1], vec![1]], Some(1), false);
}

#[test]
fn model_enumerator_test_or() {
    assert_models_eq(
        "o 1 0\nt 2 0\n1 2 -1 0\n 1 2 1 0\n",
        vec![vec![-1], vec![1]],
        None,
        false,
    );
}

#[test]
fn model_enumerator_test_and() {
    assert_models_eq(
        "a 1 0\nt 2 0\n1 2 -1 0\n 1 2 -2 0\n",
        vec![vec![-1, -2]],
        None,
        false,
    );
}

#[test]
fn model_enumerator_test_and_or() {
    assert_models_eq(
        "a 1 0\no 2 0\no 3 0\nt 4 0\n1 2 0\n1 3 0\n2 4 -1 0\n2 4 1 0\n3 4 -2 0\n3 4 2 0\n",
        vec![vec![-1, -2], vec![-1, 2], vec![1, -2], vec![1, 2]],
        None,
        false,
    );
}

#[test]
fn model_enumerator_test_or_and() {
    assert_models_eq(
        "o 1 0\na 2 0\na 3 0\nt 4 0\n1 2 0\n1 3 0\n2 4 -1 0\n2 4 -2 0\n3 4 1 0\n3 4 2 0\n",
        vec![vec![-1, -2], vec![1, 2]],
        None,
        false,
    );
}

#[test]
fn model_enumerator_test_2_vars_3_models() {
    assert_models_eq(
        r"o 1 0
            o 2 0
            t 3 0
            2 3 -1 -2 0
            2 3 1 0
            1 2 0
            ",
        vec![vec![-1, -2], vec![1, -2], vec![1, 2]],
        None,
        false,
    );
}

#[test]
fn model_enumerator_test_implied_lit() {
    assert_models_eq(
        r"o 1 0
            o 2 0
            t 3 0
            f 4 0
            2 3 -1 0
            2 4 1 0
            1 2 0
            ",
        vec![vec![-1, -2], vec![-1, 2]],
        Some(2),
        false,
    );
}

#[test]
fn test_hide_free_var_tautology() {
    assert_models_eq("t 1 0", vec![vec![]], Some(2), true);
}
