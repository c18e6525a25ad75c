use decdnnf_rs::D4Reader;
use decdnnf_rs::Literal;
use decdnnf_rs::ModelFinder;

fn get_model(str_ddnnf: &str, assumptions: &[isize], n_vars: Option<usize>) -> Option<Vec<isize>> {
    let mut ddnnf = D4Reader::default().read(str_ddnnf.as_bytes()).unwrap();
    if let Some(n) = n_vars {
        ddnnf.update_n_vars(n);
    }
    let finder = ModelFinder::new(&ddnnf);
    let assumption_lits = assumptions
        .iter()
        .map(|i| Literal::from(*i))
        .collect::<Vec<_>>();
    if let Some(l) = assumption_lits
        .iter()
        .find(|l| l.var_index() >= ddnnf.n_vars())
    {
        panic!(
            "no such literal: {} (the formula has {} variables)",
            isize::from(*l),
            ddnnf.n_vars()
        );
    }
    let model = finder.find_model_under_assumptions(&assumption_lits);
    model.map(|m| m.into_iter().map(isize::from).collect())
}

fn assert_has_model(str_ddnnf: &str, assumptions: &[isize], n_vars: Option<usize>) {
    get_model(str_ddnnf, assumptions, n_vars).unwrap();
}

fn assert_has_no_model(str_ddnnf: &str, assumptions: &[isize], n_vars: Option<usize>) {
    assert!(get_model(str_ddnnf, assumptions, n_vars).is_none());
}

fn assert_model_eq(
    str_ddnnf: &str,
    assumptions: &[isize],
    mut expected: Vec<isize>,
    n_vars: Option<usize>,
) {
    expected.sort_unstable();
    let mut actual = get_model(str_ddnnf, assumptions, n_vars).unwrap();
    actual.sort_unstable();
    assert_eq!(expected, actual);
}

#[test]
fn model_finder_test_unsat() {
    let str_ddnnf = r"
        f 1 0
        ";
    assert_has_no_model(str_ddnnf, &[], None);
}

#[test]
fn test_empty() {
    let str_ddnnf = r"
        t 1 0
        ";
    assert_has_model(str_ddnnf, &[], None);
}

#[test]
fn test_free_var() {
    let str_ddnnf = r"
        t 1 0
        ";
    assert_has_model(str_ddnnf, &[], Some(1));
    assert_model_eq(str_ddnnf, &[-1], vec![-1], Some(1));
    assert_model_eq(str_ddnnf, &[1], vec![1], Some(1));
}

#[test]
fn model_finder_test_and() {
    let str_ddnnf = r"
        a 1 0
        t 2 0
        1 2 1 0
        1 2 2 0
        ";
    assert_has_model(str_ddnnf, &[], None);
    assert_has_model(str_ddnnf, &[1], None);
    assert_has_model(str_ddnnf, &[2], None);
    assert_model_eq(str_ddnnf, &[1, 2], vec![1, 2], None);
    assert_has_no_model(str_ddnnf, &[-1], None);
    assert_has_no_model(str_ddnnf, &[-2], None);
    assert_has_no_model(str_ddnnf, &[-1, 2], None);
    assert_has_no_model(str_ddnnf, &[1, -2], None);
    assert_has_no_model(str_ddnnf, &[-1, -2], None);
}

#[test]
fn model_finder_test_or() {
    let str_ddnnf = r"
        o 1 0
        t 2 0
        1 2 -1 -2 0
        1 2 1 2 0
        ";
    assert_has_model(str_ddnnf, &[], None);
    assert_has_model(str_ddnnf, &[1], None);
    assert_has_model(str_ddnnf, &[2], None);
    assert_model_eq(str_ddnnf, &[1, 2], vec![1, 2], None);
    assert_has_model(str_ddnnf, &[-1], None);
    assert_has_model(str_ddnnf, &[-2], None);
    assert_has_no_model(str_ddnnf, &[-1, 2], None);
    assert_has_no_model(str_ddnnf, &[1, -2], None);
    assert_model_eq(str_ddnnf, &[-1, -2], vec![-1, -2], None);
}

#[test]
fn model_finder_test_and_or() {
    let str_ddnnf = r"
        a 1 0
        o 2 0
        o 3 0
        t 4 0
        1 2 0
        1 3 0
        2 4 -1 0
        2 4 1 0
        3 4 -2 0
        3 4 2 0";
    assert_has_model(str_ddnnf, &[], None);
    assert_has_model(str_ddnnf, &[1], None);
    assert_has_model(str_ddnnf, &[2], None);
    assert_model_eq(str_ddnnf, &[1, 2], vec![1, 2], None);
    assert_has_model(str_ddnnf, &[-1], None);
    assert_has_model(str_ddnnf, &[-2], None);
    assert_model_eq(str_ddnnf, &[-1, 2], vec![-1, 2], None);
    assert_model_eq(str_ddnnf, &[1, -2], vec![1, -2], None);
    assert_model_eq(str_ddnnf, &[-1, -2], vec![-1, -2], None);
}

#[test]
fn model_finder_test_or_and() {
    let str_ddnnf = r"
        o 1 0
        a 2 0
        a 3 0
        t 4 0
        1 2 0
        1 3 0
        2 4 -1 0
        2 4 -2 0
        3 4 1 0
        3 4 2 0";
    assert_has_model(str_ddnnf, &[], None);
    assert_has_model(str_ddnnf, &[1], None);
    assert_has_model(str_ddnnf, &[2], None);
    assert_model_eq(str_ddnnf, &[1, 2], vec![1, 2], None);
    assert_has_model(str_ddnnf, &[-1], None);
    assert_has_model(str_ddnnf, &[-2], None);
    assert_has_no_model(str_ddnnf, &[-1, 2], None);
    assert_has_no_model(str_ddnnf, &[1, -2], None);
    assert_model_eq(str_ddnnf, &[-1, -2], vec![-1, -2], None);
}

#[test]
#[should_panic(expected = "no such literal: -1 (the formula has 0 variables)")]
fn test_no_such_literal() {
    let str_ddnnf = "t 1 0";
    assert_has_model(str_ddnnf, &[-1], None);
}
