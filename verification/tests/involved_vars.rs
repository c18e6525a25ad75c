use decdnnf_rs::formula::involved_vars::N_BITS;
use decdnnf_rs::formula::BitToLitIterator;
use decdnnf_rs::formula::InvolvedVars;
use decdnnf_rs::Literal;

#[test]
fn test_iter_missing_literals_all_missing() {
    let involved = InvolvedVars::new(200);
    assert_eq!(
        (1..=200).map(|i| Literal::from(-i)).collect::<Vec<_>>(),
        involved
            .iter_missing_literals()
            .into_iter()
            .collect::<Vec<_>>(),
    );
}

#[test]
fn test_iter_missing_literals_none_missing() {
    let mut involved = InvolvedVars::new(1);
    involved.set_literal(Literal::from(1));
    assert_eq!(
        vec![] as Vec<Literal>,
        involved
            .iter_missing_literals()
            .into_iter()
            .collect::<Vec<_>>(),
    );
}

#[test]
fn test_bit_to_lit_it_first_bit() {
    let bits: u32 = 1;
    let it = BitToLitIterator::new(N_BITS, 0, bits);
    assert_eq!(it.collect(), vec![Literal::from(1)]);
}

#[test]
fn test_bit_to_lit_it_last_bit() {
    let bits: u32 = 1 << (N_BITS - 1);
    let it = BitToLitIterator::new(N_BITS, 0, bits);
    assert_eq!(it.collect(), vec![Literal::from(N_BITS as isize)]);
}
