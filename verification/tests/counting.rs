use decdnnf_rs::D4Reader;
use decdnnf_rs::Literal;
use decdnnf_rs::ModelCounter;

fn assert_counts(
    instance: &str,
    n_vars: Option<usize>,
    expected_model_count: usize,
    expected_path_count: usize,
) {
    assert_counts_under_assumptions(
        instance,
        n_vars,
        expected_model_count,
        expected_path_count,
        None,
    );
}

fn assert_counts_under_assumptions(
    instance: &str,
    n_vars: Option<usize>,
    expected_model_count: usize,
    expected_path_count: usize,
    assumptions: Option<Vec<isize>>,
) {
    let mut ddnnf = D4Reader::default().read(instance.as_bytes()).unwrap();
    if let Some(n) = n_vars {
        ddnnf.update_n_vars(n);
    }
    let mut model_counter = ModelCounter::new(&ddnnf, false);
    if let Some(assumps) = assumptions.clone() {
        model_counter.set_assumptions(
            &assumps
                .iter()
                .map(|i| Literal::from(*i))
                .collect::<Vec<_>>(),
        );
    }
    assert_eq!(
        expected_model_count,
        model_counter.global_count().to_usize_wrapping()
    );
    let mut path_counter = ModelCounter::new(&ddnnf, true);
    if let Some(assumps) = assumptions {
        path_counter.set_assumptions(
            &assumps
                .iter()
                .map(|i| Literal::from(*i))
                .collect::<Vec<_>>(),
        );
    }
    assert_eq!(
        expected_path_count,
        path_counter.global_count().to_usize_wrapping()
    );
}

#[test]
fn counting_test_ok() {
    assert_counts(
        "a 1 0\no 2 0\no 3 0\nt 4 0\n1 2 0\n1 3 0\n2 4 -1 0\n2 4 1 0\n3 4 -2 0\n3 4 2 0\n",
        None,
        4,
        4,
    );
}

#[test]
fn counting_test_true_no_vars() {
    assert_counts("t 1 0\n", None, 1, 1);
}

#[test]
fn counting_test_true_one_var() {
    assert_counts("t 1 0\n", Some(1), 2, 1);
}

#[test]
fn counting_test_true_two_vars() {
    assert_counts("t 1 0\n", Some(2), 4, 1);
}

#[test]
fn counting_test_false() {
    assert_counts("f 1 0\n", None, 0, 0);
}

#[test]
fn counting_test_clause() {
    assert_counts(
        r"
                o 1 0
                o 2 0
                t 3 0
                2 3 -1 -2 0
                2 3 1 0
                1 2 0",
        None,
        3,
        2,
    );
}

#[test]
fn counting_test_implied_lit() {
    assert_counts(
        r"
                o 1 0
                o 2 0
                t 3 0
                f 4 0
                2 3 -1 0
                2 4 1 0
                1 2 0",
        Some(2),
        2,
        1,
    );
}

#[test]
fn test_count_under_assumptions_top() {
    let instance = "t 1 0\n";
    let mut ddnnf = D4Reader::default().read(instance.as_bytes()).unwrap();
    ddnnf.update_n_vars(1);
    assert_counts_under_assumptions("t 1 0\n", Some(1), 2, 1, Some(vec![]));
    assert_counts_under_assumptions("t 1 0\n", Some(1), 1, 1, Some(vec![-1]));
    assert_counts_under_assumptions("t 1 0\n", Some(1), 1, 1, Some(vec![1]));
}

#[test]
fn test_assumptions() {
    let instance = r"
        o 1 0
        a 2 0
        a 3 0
        t 4 0
        1 2 0
        1 3 0
        2 4 1 2 0
        3 4 -1 3 0
        ";
    let check = |assumptions, models, paths| {
        assert_counts_under_assumptions(instance, None, models, paths, assumptions);
    };
    check(None, 4, 2);
    check(Some(vec![-1]), 2, 2);
    check(Some(vec![1]), 2, 2);
    check(Some(vec![-2]), 1, 2);
    check(Some(vec![2]), 3, 2);
    check(Some(vec![-1, -2]), 1, 2);
    check(Some(vec![-1, 2]), 1, 2);
    check(Some(vec![1, -2]), 0, 2);
    check(Some(vec![1, 2]), 2, 2);
    check(Some(vec![-1, -2, -3]), 0, 2);
    check(Some(vec![-1, -2, 3]), 1, 2);
    check(Some(vec![-1, 2, -3]), 0, 2);
    check(Some(vec![-1, 2, 3]), 1, 2);
    check(Some(vec![1, -2, -3]), 0, 2);
    check(Some(vec![1, -2, 3]), 0, 2);
    check(Some(vec![1, 2, -3]), 1, 2);
    check(Some(vec![1, 2, 3]), 1, 2);
}

fn model_count(instance: &str, n_vars: Option<usize>) -> usize {
    let mut ddnnf = D4Reader::default().read(instance.as_bytes()).unwrap();
    if let Some(n) = n_vars {
        ddnnf.update_n_vars(n);
    }
    let model_counter = ModelCounter::new(&ddnnf, false);
    model_counter.global_count().to_usize_wrapping()
}

#[test]
fn model_counter_test_ok() {
    assert_eq!(
        4,
        model_count(
            "a 1 0\no 2 0\no 3 0\nt 4 0\n1 2 0\n1 3 0\n2 4 -1 0\n2 4 1 0\n3 4 -2 0\n3 4 2 0\n",
            None
        )
    );
}

#[test]
fn model_counter_test_true_no_vars() {
    assert_eq!(1, model_count("t 1 0\n", None));
}

#[test]
fn model_counter_test_true_one_var() {
    assert_eq!(2, model_count("t 1 0\n", Some(1)));
}

#[test]
fn model_counter_test_true_two_vars() {
    assert_eq!(4, model_count("t 1 0\n", Some(2)));
}

#[test]
fn model_counter_test_false() {
    assert_eq!(0, model_count("f 1 0\n", None));
}

#[test]
fn model_counter_test_clause() {
    assert_eq!(
        3,
        model_count(
            r"
                o 1 0
                o 2 0
                t 3 0
                2 3 -1 -2 0
                2 3 1 0
                1 2 0",
            None
        )
    );
}

#[test]
fn model_counter_test_implied_lit() {
    assert_eq!(
        2,
        model_count(
            r"
                o 1 0
                o 2 0
                t 3 0
                f 4 0
                2 3 -1 0
                2 4 1 0
                1 2 0",
            Some(2)
        )
    );
}
