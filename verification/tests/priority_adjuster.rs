use hotdrink_rs::component::Component;
use hotdrink_rs::error::MethodFailure;
use hotdrink_rs::hierarchical_planner::{hierarchical_planner, OwnedEnforcedConstraint};
use hotdrink_rs::method::{Identity, Method, MethodFn, MethodFunction};
use hotdrink_rs::priority::CompareByPriority;
use hotdrink_rs::priority_adjuster::adjust_priorities;
use hotdrink_rs::ranking::SortRanker;
use hotdrink_rs::raw::{RawComponent, RawConstraint, RawMethod};

#[derive(Debug)]
struct Text(&'static str);

impl MethodFn<String> for Text {
    fn call(&self, _args: Vec<String>) -> Result<Vec<String>, MethodFailure> {
        Ok(vec![self.0.to_string()])
    }
}

fn method<T: 'static>(name: &str, inputs: &[&str], outputs: &[&str], f: MethodFunction<T>) -> RawMethod<T> {
    RawMethod::new(name, inputs.to_vec(), outputs.to_vec(), f)
}

fn priority_adjust() -> Component<String> {
    RawComponent::new(
        "PriorityAdjust",
        vec!["_a", "_b", "_c", "_d"],
        vec!["a".to_string(), "b".to_string(), "c".to_string(), "".to_string()],
        vec![
            RawConstraint::new(
                "Ab",
                vec![method("m1", &["_a"], &["_b"], &Text("a")), method("m2", &["_b"], &["_a"], &Text("b"))],
            ),
            RawConstraint::new(
                "Bcd",
                vec![method("m3", &["_b", "_c"], &["_d"], &Text("b & c")), method("m4", &["_d"], &["_b", "_c"], &Text("d"))],
            ),
        ],
    )
    .into_component()
}

fn sum() -> Component<i32> {
    RawComponent::new(
        "Component",
        vec!["a", "b", "c"],
        vec![0, 0, 0],
        vec![RawConstraint::new(
            "Sum",
            vec![
                method("abc", &["a", "b"], &["c"], &Identity),
                method("acb", &["a", "c"], &["b"], &Identity),
                method("bca", &["b", "c"], &["a"], &Identity),
            ],
        )],
    )
    .into_component()
}

fn dummy<T: 'static>(constraint: &str, method: &str, inputs: &[usize], outputs: &[usize]) -> OwnedEnforcedConstraint<Method<T>> {
    OwnedEnforcedConstraint::new(constraint, Method::new(method.to_string(), inputs.to_vec(), outputs.to_vec(), &Identity))
}

#[test]
fn compare_by_priority_eq() {
    let priority = [0];
    let a = CompareByPriority::new(0, &priority);
    let b = CompareByPriority::new(0, &priority);
    assert_eq!(a, b, "a should be equal to b");
}

#[test]
fn compare_by_priority_lt() {
    let priority = [0, 1];
    let a = CompareByPriority::new(0, &priority);
    let b = CompareByPriority::new(1, &priority);
    assert!(a < b, "a should be less than b");

    let priority = [1, 0];
    let a = CompareByPriority::new(0, &priority);
    let b = CompareByPriority::new(1, &priority);
    assert!(b < a, "b should be less than a");
}

#[test]
fn compare_by_priority_gt() {
    let priority = [0, 1];
    let a = CompareByPriority::new(0, &priority);
    let b = CompareByPriority::new(1, &priority);
    assert!(b > a, "b should be greater than a");

    let priority = [1, 0];
    let a = CompareByPriority::new(0, &priority);
    let b = CompareByPriority::new(1, &priority);
    assert!(a > b, "a should be greater than b");
}

#[test]
fn not_adjusting_priorities_gives_unexpected_result() {
    let component = priority_adjust();
    // Create ranking
    let mut ranker = SortRanker::of_size(component.n_variables());
    ranker.touch(0);
    ranker.touch(3);
    ranker.touch(2);
    let ranking = ranker.ranking();
    assert_eq!(ranking, vec![2, 3, 0, 1]);

    // See what happens if we don't update the ranking
    ranker.touch(2);
    let plan = hierarchical_planner(&component, &ranker.ranking()).unwrap();
    assert_eq!(plan, vec![dummy("Ab", "m1", &[0], &[1]), dummy("Bcd", "m3", &[1, 2], &[3]),]);
}

#[test]
fn adjusting_priorities_gives_expected_result() {
    let component = priority_adjust();
    // Create ranking
    let mut ranker = SortRanker::of_size(component.n_variables());
    ranker.touch(0);
    ranker.touch(3);
    let ranking = ranker.ranking();
    assert_eq!(ranking, vec![3, 0, 1, 2]);

    // See that the expected plan is found
    let plan = hierarchical_planner(&component, &ranking).unwrap();
    assert_eq!(plan, vec![dummy("Bcd", "m4", &[3], &[1, 2]), dummy("Ab", "m2", &[1], &[0]),]);

    // Update the ranking based on the plan
    let mut new_ranker = adjust_priorities(&plan, &ranker);
    assert_eq!(new_ranker.ranking(), &[3, 1, 0, 2]);

    // Verify that the updated ranking works as expected
    new_ranker.touch(2);
    let plan = hierarchical_planner(&component, &new_ranker.ranking()).unwrap();
    assert_eq!(plan, vec![dummy("Bcd", "m3", &[1, 2], &[3]), dummy("Ab", "m2", &[1], &[0]),]);
}

#[test]
fn adjusting_priorities_in_sum_gives_expected_result() {
    let component = sum();
    // Create ranking
    let mut ranker = SortRanker::of_size(component.n_variables());
    ranker.touch(0);
    let ranking = ranker.ranking();
    assert_eq!(ranking, vec![0, 1, 2]);

    // See that the expected plan is found
    let plan = hierarchical_planner(&component, &ranking).unwrap();
    assert_eq!(plan, vec![dummy("Sum", "abc", &[0, 1], &[2])]);

    // Update the ranking based on the plan
    let mut new_ranker = adjust_priorities(&plan, &ranker);
    assert_eq!(new_ranker.ranking(), &[0, 1, 2]);

    // Verify that the updated ranking works as expected
    new_ranker.touch(2);
    let plan = hierarchical_planner(&component, &new_ranker.ranking()).unwrap();
    assert_eq!(plan, vec![dummy("Sum", "acb", &[0, 2], &[1]),]);
}

#[test]
fn unreached_variables_follow_in_ascending_order() {
    // A method that reads and writes the same variable never lets it be reached.
    let plan = vec![dummy::<i32>("C", "loop", &[1], &[1])];
    let ranker = SortRanker::of_size(3);
    let adjusted = adjust_priorities(&plan, &ranker);
    assert_eq!(adjusted.ranking(), vec![0, 2, 1]);
}

#[test]
fn touch_moves_to_front() {
    let mut ranker = SortRanker::of_size(4);
    ranker.touch(2);
    assert_eq!(ranker.ranking(), vec![2, 0, 1, 3]);
    ranker.touch(3);
    assert_eq!(ranker.ranking(), vec![3, 2, 0, 1]);
    assert_eq!(ranker.size(), 4);
}
