use decdnnf_rs::D4Reader;
use decdnnf_rs::ModelEnumerator;

fn assert_models_eq(str_ddnnf: &str, mut expected: Vec<Vec<isize>>, n_vars: Option<usize>) {
    let sort = |v: &mut Vec<Vec<isize>>| {
        v.iter_mut().for_each(|m| m.sort_unstable());
        v.sort_unstable();
    };
    sort(&mut expected);
    let mut ddnnf = D4Reader::default().read(str_ddnnf.as_bytes()).unwrap();
    if let Some(n) = n_vars {
        ddnnf.update_n_vars(n);
    }
    let mut model_enum = ModelEnumerator::new(&ddnnf, false);
    let mut actual = Vec::new();
    while let Some(m) = model_enum.compute_next_model() {
        actual.push(
            m.iter()
                .map(|l| isize::from(l.unwrap()))
                .collect::<Vec<_>>(),
        );
    }
    sort(&mut actual);
    assert_eq!(expected, actual,);
}

#[test]
fn model_iterator_test_unsat() {
    assert_models_eq("f 1 0\n", vec![], None);
}

#[test]
fn model_iterator_test_single_model() {
    assert_models_eq("a 1 0\nt 2 0\n1 2 1 0\n", vec![vec![1]], None);
}

#[test]
fn model_iterator_test_tautology() {
    assert_models_eq("t 1 0\n", vec![vec![-1], vec![1]], Some(1));
}

#[test]
fn model_iterator_test_or() {
    assert_models_eq(
        "o 1 0\nt 2 0\n1 2 -1 0\n 1 2 1 0\n",
        vec![vec![-1], vec![1]],
        None,
    );
}

#[test]
fn model_iterator_test_and() {
    assert_models_eq(
        "a 1 0\nt 2 0\n1 2 -1 0\n 1 2 -2 0\n",
        vec![vec![-1, -2]],
        None,
    );
}

#[test]
fn model_iterator_test_and_or() {
    assert_models_eq(
        "a 1 0\no 2 0\no 3 0\nt 4 0\n1 2 0\n1 3 0\n2 4 -1 0\n2 4 1 0\n3 4 -2 0\n3 4 2 0\n",
        vec![vec![-1, -2], vec![-1, 2], vec![1, -2], vec![1, 2]],
        None,
    );
}

#[test]
fn model_iterator_test_or_and() {
    assert_models_eq(
        "o 1 0\na 2 0\na 3 0\nt 4 0\n1 2 0\n1 3 0\n2 4 -1 0\n2 4 -2 0\n3 4 1 0\n3 4 2 0\n",
        vec![vec![-1, -2], vec![1, 2]],
        None,
    );
}

#[test]
fn model_iterator_test_2_vars_3_models() {
    assert_models_eq(
        r"o 1 0
            o 2 0
            t 3 0
            2 3 -1 -2 0
            2 3 1 0
            1 2 0
            ",
        vec![vec![-1, -2], vec![1, -2], vec![1, 2]],
        None,
    );
}

#[test]
fn model_iterator_test_implied_lit() {
    assert_models_eq(
        r"o 1 0
            o 2 0
            t 3 0
            f 4 0
            2 3 -1 0
            2 4 1 0
            1 2 0
            ",
        vec![vec![-1, -2], vec![-1, 2]],
        Some(2),
    );
}
