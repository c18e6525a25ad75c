use decdnnf_rs::D4Reader;
use decdnnf_rs::DirectAccessEngine;
use decdnnf_rs::ModelCounter;

fn assert_models_eq(
    str_ddnnf: &str,
    expected_models: Vec<Vec<isize>>,
    expected_partial_models: Vec<Vec<isize>>,
    expected_graphs: Vec<Vec<usize>>,
    expected_partial_graphs: Vec<Vec<usize>>,
    n_vars: Option<usize>,
) {
    let mut ddnnf = D4Reader::default().read(str_ddnnf.as_bytes()).unwrap();
    if let Some(n) = n_vars {
        ddnnf.update_n_vars(n);
    }
    let expected_models_with_graphs = expected_models
        .into_iter()
        .zip(expected_graphs)
        .collect::<Vec<_>>();
    let model_counter = ModelCounter::new(&ddnnf, false);
    let engine = DirectAccessEngine::new(&model_counter);
    let actual_models = compute_models(&engine);
    assert_eq!(expected_models_with_graphs, actual_models);
    let expected_partial_models_with_graphs = expected_partial_models
        .into_iter()
        .zip(expected_partial_graphs)
        .collect::<Vec<_>>();
    let path_counter = ModelCounter::new(&ddnnf, true);
    let engine = DirectAccessEngine::new(&path_counter);
    let actual_partial_models = compute_models(&engine);
    assert_eq!(expected_partial_models_with_graphs, actual_partial_models);
}

fn compute_models(engine: &DirectAccessEngine) -> Vec<(Vec<isize>, Vec<usize>)> {
    let n_models = engine.n_models();
    let mut actual = Vec::with_capacity(n_models.to_usize_wrapping());
    for i in 0..n_models.to_usize_wrapping() {
        let m0 = engine.model(i.into()).unwrap();
        let (m1, g) = engine.model_with_graph(i.into()).unwrap();
        assert_eq!(m0, m1);
        actual.push((
            m1.into_iter()
                .filter_map(|opt_l| opt_l.map(isize::from))
                .collect(),
            g,
        ));
    }
    actual
}

#[test]
fn direct_access_test_unsat() {
    assert_models_eq("f 1 0\n", vec![], vec![], vec![], vec![], None);
}

#[test]
fn direct_access_test_single_model() {
    assert_models_eq(
        "a 1 0\nt 2 0\n1 2 1 0\n",
        vec![vec![1]],
        vec![vec![1]],
        vec![vec![0, 0]],
        vec![vec![0, 0]],
        None,
    );
}

#[test]
fn direct_access_test_tautology() {
    assert_models_eq(
        "t 1 0\n",
        vec![vec![-1], vec![1]],
        vec![vec![]],
        vec![vec![0], vec![0]],
        vec![vec![0], vec![0]],
        Some(1),
    );
}

#[test]
fn test_tautology_two_vars() {
    assert_models_eq(
        "t 1 0\n",
        vec![vec![-1, -2], vec![-1, 2], vec![1, -2], vec![1, 2]],
        vec![vec![]],
        vec![vec![0], vec![0], vec![0], vec![0]],
        vec![vec![0], vec![0], vec![0], vec![0]],
        Some(2),
    );
}

#[test]
fn direct_access_test_or() {
    assert_models_eq(
        "o 1 0\nt 2 0\n1 2 -1 0\n 1 2 1 0\n",
        vec![vec![-1], vec![1]],
        vec![vec![-1], vec![1]],
        vec![vec![0, 0], vec![1, 0]],
        vec![vec![0, 0], vec![1, 0]],
        None,
    );
}

#[test]
fn test_or_with_free_var() {
    assert_models_eq(
        "o 1 0\nt 2 0\n1 2 -1 0\n 1 2 1 0\n",
        vec![vec![-1, -2], vec![-1, 2], vec![1, -2], vec![1, 2]],
        vec![vec![-1], vec![1]],
        vec![vec![0, 0], vec![0, 0], vec![1, 0], vec![1, 0]],
        vec![vec![0, 0], vec![1, 0]],
        Some(2),
    );
}

#[test]
fn direct_access_test_and() {
    assert_models_eq(
        "a 1 0\nt 2 0\n1 2 -1 0\n 1 2 -2 0\n",
        vec![vec![-1, -2]],
        vec![vec![-1, -2]],
        vec![vec![0, 0]],
        vec![vec![0, 0]],
        None,
    );
}

#[test]
fn direct_access_test_and_or() {
    assert_models_eq(
        "a 1 0\no 2 0\no 3 0\nt 4 0\n1 2 0\n1 3 0\n2 4 -1 0\n2 4 1 0\n3 4 -2 0\n3 4 2 0\n",
        vec![vec![-1, -2], vec![-1, 2], vec![1, -2], vec![1, 2]],
        vec![vec![-1, -2], vec![-1, 2], vec![1, -2], vec![1, 2]],
        vec![
            vec![0, 0, 0, 0],
            vec![0, 0, 1, 0],
            vec![0, 1, 0, 0],
            vec![0, 1, 1, 0],
        ],
        vec![
            vec![0, 0, 0, 0],
            vec![0, 0, 1, 0],
            vec![0, 1, 0, 0],
            vec![0, 1, 1, 0],
        ],
        None,
    );
}

#[test]
fn direct_access_test_or_and() {
    assert_models_eq(
        "o 1 0\na 2 0\na 3 0\nt 4 0\n1 2 0\n1 3 0\n2 4 -1 0\n2 4 -2 0\n3 4 1 0\n3 4 2 0\n",
        vec![vec![-1, -2], vec![1, 2]],
        vec![vec![-1, -2], vec![1, 2]],
        vec![vec![0, 0, 0, 0], vec![1, 0, 0, 0]],
        vec![vec![0, 0, 0, 0], vec![1, 0, 0, 0]],
        None,
    );
}

#[test]
fn direct_access_test_2_vars_3_models() {
    assert_models_eq(
        r"o 1 0
        o 2 0
        t 3 0
        2 3 -1 -2 0
        2 3 1 0
        1 2 0
        ",
        vec![vec![-1, -2], vec![1, -2], vec![1, 2]],
        vec![vec![-1, -2], vec![1]],
        vec![vec![0, 0, 0], vec![0, 1, 0], vec![0, 1, 0]],
        vec![vec![0, 0, 0], vec![0, 1, 0], vec![0, 1, 0]],
        None,
    );
}

#[test]
fn direct_access_test_implied_lit() {
    assert_models_eq(
        r"o 1 0
        o 2 0
        t 3 0
        f 4 0
        2 3 -1 0
        2 4 1 0
        1 2 0
        ",
        vec![vec![-1, -2], vec![-1, 2]],
        vec![vec![-1]],
        vec![vec![0, 0, 0, 0], vec![0, 0, 0, 0]],
        vec![vec![0, 0, 0, 0], vec![0, 0, 0, 0]],
        Some(2),
    );
}
