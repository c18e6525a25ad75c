use decdnnf_rs::BinaryReader;
use decdnnf_rs::BinaryWriter;
use decdnnf_rs::D4Reader;

fn assert_for_instance(instance_str: &str) {
    let init_formula = D4Reader::default().read(instance_str.as_bytes()).unwrap();
    let bytes = BinaryWriter.write(&init_formula);
    let new_formula = BinaryReader.read(bytes.as_slice()).unwrap();
    assert_eq!(init_formula.n_vars(), new_formula.n_vars());
    assert_eq!(init_formula.nodes(), new_formula.nodes());
    assert_eq!(init_formula.edges(), new_formula.edges());
}

#[test]
fn test_trivial() {
    assert_for_instance("t 1 0");
    assert_for_instance("f 1 0");
}

#[test]
fn binary_format_test_and() {
    assert_for_instance("a 1 0\nt 2 0\n1 2 1 2 0");
}

#[test]
fn binary_format_test_or() {
    assert_for_instance("o 1 0\nt 2 0\n1 2 -1 0\n1 2 1 2 0\n");
}
