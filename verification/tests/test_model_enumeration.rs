use decdnnf_rs::algorithms::batches::next_batch;
use decdnnf_rs::D4Reader;
use decdnnf_rs::DecisionDNNF;
use decdnnf_rs::DecisionTreeEnumerator;
use decdnnf_rs::DirectAccessEngine;
use decdnnf_rs::Literal;
use decdnnf_rs::ModelCounter;
use decdnnf_rs::ModelEnumerator;
use decdnnf_rs::ModelWriter;
use rug::Integer;

const FORCE_ONE_INSTANCE: &str = "a 1 0\nt 2 0\n1 2 1 0\n";

fn read(content: &str, n_vars: Option<usize>) -> DecisionDNNF {
    let mut ddnnf = D4Reader::default().read(content.as_bytes()).unwrap();
    if let Some(n) = n_vars {
        ddnnf.update_n_vars(n);
    }
    ddnnf
}

fn enumeration_output(content: &str, n_vars: Option<usize>, compact: bool, silent: bool) -> String {
    let ddnnf = read(content, n_vars);
    let mut writer = ModelWriter::new(ddnnf.n_vars(), compact, silent);
    let mut enumerator = ModelEnumerator::new(&ddnnf, compact);
    let mut out = Vec::new();
    while let Some(model) = enumerator.compute_next_model() {
        if let Some(line) = writer.write_model_ordered(model) {
            out.extend_from_slice(line);
        }
    }
    String::from_utf8(out).unwrap()
}

#[test]
fn test_enumeration_default() {
    assert_eq!("v  1 0 \n", enumeration_output(FORCE_ONE_INSTANCE, None, false, false));
}

#[test]
fn test_enumeration_no_output() {
    assert_eq!("", enumeration_output(FORCE_ONE_INSTANCE, None, false, true));
}

#[test]
fn test_enumeration_n_vars() {
    assert_eq!(
        "v  1 -2 0 \nv  1  2 0 \n",
        enumeration_output(FORCE_ONE_INSTANCE, Some(2), false, false)
    );
}

#[test]
fn test_enumeration_n_vars_compact() {
    assert_eq!(
        "v  1 *2 0 \n",
        enumeration_output(FORCE_ONE_INSTANCE, Some(2), true, false)
    );
}

#[test]
fn writer_counts_models() {
    let ddnnf = read(FORCE_ONE_INSTANCE, Some(4));
    let mut writer = ModelWriter::new(4, true, true);
    let mut enumerator = ModelEnumerator::new(&ddnnf, true);
    while let Some(model) = enumerator.compute_next_model() {
        assert!(writer.write_model_ordered(model).is_none());
    }
    assert!(writer.compact_display());
    assert_eq!(1, *writer.n_enumerated());
    assert_eq!(8, *writer.n_models());
    let mut lines = ModelWriter::new(3, false, false);
    let model = vec![Literal::from(-2), Literal::from(3)];
    assert_eq!(
        "v  1 -2  3 0 \n",
        String::from_utf8(lines.write_model_no_opt(&model).unwrap().to_vec()).unwrap()
    );
    assert_eq!(1, *lines.n_enumerated());
    assert_eq!(1, *lines.n_models());
    let twelve = ModelWriter::new(12, false, false).write_model_ordered(&[None; 12]).map(<[u8]>::to_vec);
    assert_eq!(
        "v *1 *2 *3 *4 *5 *6 *7 *8 *9 *10 *11 *12 0 \n",
        String::from_utf8(twelve.unwrap()).unwrap()
    );
}

fn decision_tree_models(content: &str, n_vars: Option<usize>) -> Vec<Vec<isize>> {
    let ddnnf = read(content, n_vars);
    let mut enumerator = DecisionTreeEnumerator::new(&ddnnf);
    let mut models = Vec::new();
    while let Some(model) = enumerator.compute_next_model() {
        let mut dimacs = model.iter().map(|l| isize::from(*l)).collect::<Vec<_>>();
        dimacs.sort_unstable_by_key(|l| l.unsigned_abs());
        models.push(dimacs);
    }
    models.sort();
    models
}

#[test]
fn decision_tree_enumerates_each_model_once() {
    assert_eq!(
        vec![vec![1, -2], vec![1, 2]],
        decision_tree_models(FORCE_ONE_INSTANCE, Some(2))
    );
    assert_eq!(
        vec![vec![-1, -2], vec![1, -2], vec![1, 2]],
        decision_tree_models("o 1 0\no 2 0\nt 3 0\n2 3 -1 -2 0\n2 3 1 0\n1 2 0\n", None)
    );
    assert!(decision_tree_models("f 1 0\n", None).is_empty());
    assert_eq!(vec![Vec::<isize>::new()], decision_tree_models("t 1 0\n", None));
    assert_eq!(8, decision_tree_models("t 1 0\n", Some(3)).len());
}

#[test]
fn batches_cover_the_models_in_order() {
    assert_eq!(
        Some(Integer::from(4)),
        next_batch(&Integer::from(0), 4, &Integer::from(10))
    );
    assert_eq!(
        Some(Integer::from(10)),
        next_batch(&Integer::from(8), 4, &Integer::from(10))
    );
    assert_eq!(None, next_batch(&Integer::from(10), 4, &Integer::from(10)));
    assert_eq!(None, next_batch(&Integer::from(0), 4, &Integer::from(0)));
    let ddnnf = read("t 1 0\n", Some(5));
    let counter = ModelCounter::new(&ddnnf, false);
    let engine = DirectAccessEngine::new(&counter);
    let mut whole = ModelEnumerator::new(&ddnnf, false);
    let mut expected = Vec::new();
    while let Some(model) = whole.compute_next_model() {
        expected.push(model.to_vec());
    }
    let mut by_batches = Vec::new();
    let mut start = Integer::from(0);
    let mut enumerator = ModelEnumerator::new(&ddnnf, false);
    while let Some(end) = next_batch(&start, 5, counter.global_count()) {
        assert!(enumerator.jump_to(&engine, start.clone()).is_some());
        while start != end {
            by_batches.push(enumerator.compute_next_model().unwrap().to_vec());
            start += 1;
        }
    }
    assert_eq!(32, expected.len());
    assert_eq!(expected, by_batches);
}
