use hotdrink_rs::toposort::toposort;
use hotdrink_rs::method::{Identity, Method};

/// A method that only has inputs and outputs.
struct DummyMethod;

impl DummyMethod {
    fn dummy(inputs: Vec<usize>, outputs: Vec<usize>) -> Method<()> {
        Method::new(String::new(), inputs, outputs, &Identity)
    }
}

#[test]
fn empty_plan_gives_empty_sorted_plan() {
    assert_eq!(
        toposort::<Method<()>>(&[], 0),
        Some(Vec::new()),
        "Empty plan should yield empty sorted plan"
    );
}

#[test]
fn singleton_plan_gives_singleton_sorted_plan() {
    let m0 = DummyMethod::dummy(vec![0], vec![1]);
    assert_eq!(
        toposort(&[m0.clone()], 2),
        Some(vec![&m0]),
        "m0 should be included"
    );
}

#[test]
fn single_method_with_loop_is_ok() {
    let m0 = DummyMethod::dummy(vec![0], vec![0]);
    assert_eq!(toposort(&[m0.clone()], 1), Some(vec![&m0]));
}

#[test]
fn a_to_b_is_ok() {
    let m0 = DummyMethod::dummy(vec![0], vec![1]);
    let m1 = DummyMethod::dummy(vec![1], vec![2]);
    assert_eq!(toposort(&[m0.clone(), m1.clone()], 3), Some(vec![&m0, &m1]));
    assert_eq!(toposort(&[m1.clone(), m0.clone()], 3), Some(vec![&m0, &m1]));
}

#[test]
fn cycle_gives_none() {
    let m0 = DummyMethod::dummy(vec![0], vec![1]);
    let m1 = DummyMethod::dummy(vec![1], vec![0]);
    assert_eq!(toposort(&[m0.clone(), m1.clone()], 2), None);
    assert_eq!(toposort(&[m1, m0], 2), None);
}

#[test]
fn larger_example_is_ok() {
    let m0 = DummyMethod::dummy(vec![0], vec![1, 2]);
    let m1 = DummyMethod::dummy(vec![1], vec![3]);
    let m2 = DummyMethod::dummy(vec![2], vec![4, 5]);
    let m3 = DummyMethod::dummy(vec![5, 6], vec![7]);
    assert_eq!(
        toposort(&[m0.clone(), m1.clone(), m2.clone(), m3.clone()], 8),
        Some(vec![&m0, &m2, &m3, &m1])
    );
}

#[test]
fn three_cycle_gives_none_and_indices_follow_dataflow() {
    let m0 = DummyMethod::dummy(vec![0], vec![1]);
    let m1 = DummyMethod::dummy(vec![1], vec![2]);
    let m2 = DummyMethod::dummy(vec![2], vec![0]);
    assert_eq!(toposort(&[m0.clone(), m1.clone(), m2.clone()], 3), None);
    let ord = hotdrink_rs::toposort::toposort_indices(&[m1.clone(), m0.clone()], 3);
    assert_eq!(ord, Some(vec![1, 0]));
}
