use decdnnf_rs::D4Reader;
use decdnnf_rs::DecisionDNNF;

fn assert_error(instance: &str, expected_error: &str) {
    match D4Reader::default().read(instance.as_bytes()) {
        Ok(_) => panic!(),
        Err(e) => assert_eq!(expected_error, format!("{}", e.root_cause().to_string())),
    }
}

#[test]
fn test_node_unexpected_kind() {
    assert_error("n 1 0\n", r#"unexpected first word "n""#);
}

#[test]
fn test_node_wrong_index() {
    assert_error("a 0 0\n", "wrong node index; expected 1, got 0");
}

#[test]
fn test_node_missing_zero() {
    assert_error("a 1\n", "expected 0 as third word");
}

#[test]
fn test_node_not_a_zero() {
    assert_error("a 1 1\n", "expected 0 as third word");
}

#[test]
fn test_node_content_after_zero() {
    assert_error("a 1 0 0\n", "unexpected content after 0");
}

#[test]
fn test_edge_source_equals_target() {
    assert_error(
        "a 1 0\nt 2 0\nf 3 0\n1 1 0",
        "source and target index must be different",
    );
}

#[test]
fn test_edge_unknown_source() {
    assert_error(
        "a 1 0\nt 2 0\nf 3 0\n4 1 0",
        "wrong source index; max is 3, got 4",
    );
}

#[test]
fn test_edge_target_is_not_a_number() {
    assert_error(
        "a 1 0\nt 2 0\nf 3 0\n1 a 0",
        "invalid digit found in string",
    );
}

#[test]
fn test_edge_unknown_target() {
    assert_error(
        "a 1 0\nt 2 0\nf 3 0\n1 4 0",
        "wrong target index; max is 3, got 4",
    );
}

#[test]
fn test_edge_missing_zero() {
    assert_error("a 1 0\nt 2 0\nf 3 0\n1 2", "missing final 0");
}

#[test]
fn test_edge_content_after_zero() {
    assert_error("a 1 0\nt 2 0\nf 3 0\n1 2 0 0", "unexpected content after 0");
}

#[test]
fn test_edge_literal_is_not_a_number() {
    assert_error(
        "a 1 0\nt 2 0\nf 3 0\n1 2 a 0",
        r#"expected a literal, got "a""#,
    );
}

#[test]
fn d4_format_test_node_unreachable() {
    assert_error("f 1 0\nt 2 0\n", "no path to the node with index 2");
}

#[test]
fn d4_format_test_node_cycle() {
    assert_error("a 1 0\na 2 0\n1 2 0\n2 1 0\n", "cycle detected");
}

#[test]
fn test_edge_from_true() {
    assert_error(
        "a 1 0\nt 2 0\n2 1 0\n2 1 0\n",
        "cannot add an edge from a leaf node",
    );
}

#[test]
fn test_edge_from_false() {
    assert_error(
        "a 1 0\nf 2 0\n2 1 0\n2 1 0\n",
        "cannot add an edge from a leaf node",
    );
}

#[test]
fn test_do_not_check() {
    let mut reader = D4Reader::default();
    reader.set_do_not_check(true);
    assert!(reader.read("f 1 0\nt 2 0\n".as_bytes()).is_ok());
    assert!(reader
        .read("a 1 0\na 2 0\n1 2 0\n2 1 0\n".as_bytes())
        .is_ok());
}

fn read_correct_ddnnf(str_ddnnf: &str) -> DecisionDNNF {
    D4Reader::default().read(str_ddnnf.as_bytes()).unwrap()
}

#[test]
fn d4_format_test_ok() {
    let instance =
        "a 1 0\no 2 0\no 3 0\nt 4 0\n1 2 0\n1 3 0\n2 4 -1 0\n2 4 1 0\n3 4 -2 0\n3 4 2 0\n";
    let ddnnf = read_correct_ddnnf(instance);
    assert_eq!(2, ddnnf.n_vars());
    assert_eq!(4, ddnnf.nodes().as_slice().len());
    assert_eq!(6, ddnnf.edges().as_slice().len());
}

#[test]
fn d4_format_test_clause() {
    let instance = r"
    o 1 0
    o 2 0
    t 3 0
    2 3 -1 -2 0
    2 3 1 0
    1 2 0";
    let ddnnf = read_correct_ddnnf(instance);
    assert_eq!(2, ddnnf.n_vars());
    assert_eq!(3, ddnnf.nodes().as_slice().len());
    assert_eq!(3, ddnnf.edges().as_slice().len());
}

#[test]
fn test_true_instance() {
    let instance = "t 1 0";
    let ddnnf = read_correct_ddnnf(instance);
    assert_eq!(0, ddnnf.n_vars());
    assert_eq!(1, ddnnf.nodes().as_slice().len());
    assert_eq!(0, ddnnf.edges().as_slice().len());
}

#[test]
fn test_empty_instance() {
    assert_error("", "formula is empty");
}
