use decdnnf_rs::D4Reader;
use decdnnf_rs::DecisionDNNF;
use decdnnf_rs::DecisionDNNFChecker;

fn read_correct_ddnnf(str_ddnnf: &str) -> DecisionDNNF {
    D4Reader::default().read(str_ddnnf.as_bytes()).unwrap()
}

#[test]
fn test_not_decomposable() {
    let str_ddnnf = "a 1 0\nt 2 0\n1 2 1 0\n1 2 -1 0";
    let ddnnf = read_correct_ddnnf(str_ddnnf);
    let result = DecisionDNNFChecker::check(&ddnnf);
    assert_eq!(
        "AND children share variables (AND node index is 0)",
        result.error().unwrap()
    );
}

#[test]
fn test_not_determinist() {
    let str_ddnnf = "o 1 0\nt 2 0\n1 2 1 0\n1 2 1 0";
    let ddnnf = read_correct_ddnnf(str_ddnnf);
    let result = DecisionDNNFChecker::check(&ddnnf);
    assert!(result.error().is_none());
    assert_eq!(
        vec!["OR children at indices 0 and 1 may not be contradictory (OR node index is 0)"],
        result.warnings()
    );
}

#[test]
fn checker_test_ok() {
    let str_ddnnf =
        "a 1 0\no 2 0\no 3 0\nt 4 0\n1 2 0\n1 3 0\n2 4 -1 0\n2 4 1 0\n3 4 -2 0\n3 4 2 0\n";
    let ddnnf = read_correct_ddnnf(str_ddnnf);
    let result = DecisionDNNFChecker::check(&ddnnf);
    assert!(result.error().is_none());
}

#[test]
fn test_or_determinism_with_false_node() {
    let str_ddnnf = "o 1 0\nt 2 0\nf 3 0\n1 2 1 0\n1 3 0";
    let ddnnf = read_correct_ddnnf(str_ddnnf);
    let result = DecisionDNNFChecker::check(&ddnnf);
    assert!(result.error().is_none());
}

#[test]
fn warnings_come_in_the_order_of_the_branches() {
    let str_ddnnf = "o 1 0\nt 2 0\n1 2 1 0\n1 2 2 0\n1 2 -1 0\n1 2 3 0";
    let ddnnf = read_correct_ddnnf(str_ddnnf);
    let result = DecisionDNNFChecker::check(&ddnnf);
    assert!(result.error().is_none());
    assert_eq!(
        vec![
            "OR children at indices 0 and 1 may not be contradictory (OR node index is 0)",
            "OR children at indices 0 and 3 may not be contradictory (OR node index is 0)",
            "OR children at indices 1 and 2 may not be contradictory (OR node index is 0)",
            "OR children at indices 1 and 3 may not be contradictory (OR node index is 0)",
            "OR children at indices 2 and 3 may not be contradictory (OR node index is 0)",
        ],
        result.warnings()
    );
}

#[test]
fn the_first_faulty_node_of_the_walk_is_the_error() {
    let str_ddnnf = "a 1 0\na 2 0\na 3 0\nt 4 0\n1 2 0\n1 3 0\n2 4 1 0\n2 4 -1 0\n3 4 2 0\n3 4 2 0";
    let ddnnf = read_correct_ddnnf(str_ddnnf);
    let result = DecisionDNNFChecker::check(&ddnnf);
    assert_eq!(
        "AND children share variables (AND node index is 1)",
        result.error().unwrap()
    );
}

#[test]
fn a_node_that_cannot_be_reached_is_not_checked() {
    let str_ddnnf = "a 1 0\nt 2 0\na 3 0\n1 2 1 0\n3 2 2 0\n3 2 -2 0";
    let mut reader = D4Reader::default();
    reader.set_do_not_check(true);
    let ddnnf = reader.read(str_ddnnf.as_bytes()).unwrap();
    let result = DecisionDNNFChecker::check(&ddnnf);
    assert!(result.error().is_none());
    assert!(result.warnings().is_empty());
}
