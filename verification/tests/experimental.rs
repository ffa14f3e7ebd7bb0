use hotdrink_rs::component::Component;
use hotdrink_rs::constraint::Constraint;
use hotdrink_rs::experimental::{musts_and_stays_planner, new_new_simple_planner, ConstraintRefCounter, MustsAndStays};
use hotdrink_rs::method::{Identity, Method};
use hotdrink_rs::vertex::Vertex;

fn m(name: &str, inputs: Vec<usize>, outputs: Vec<usize>) -> Method<i32> {
    Method::new(name.to_string(), inputs, outputs, &Identity)
}

fn c(name: &str, methods: Vec<Method<i32>>) -> Constraint<i32> {
    Constraint::new_with_name(name.to_string(), methods)
}

// C1 over a and b, C2 over b and c.
fn chain() -> Component<i32> {
    Component::new(
        "chain".to_string(),
        vec![0, 0, 0],
        vec![
            c("C1", vec![m("m1", vec![0], vec![1]), m("m2", vec![1], vec![0])]),
            c("C2", vec![m("m3", vec![1], vec![2])]),
        ],
    )
}

#[test]
fn counters_count_neighbours_and_writes() {
    let comp = chain();
    let counters = ConstraintRefCounter::count_constraint_refs(&comp);
    assert_eq!(counters.len(), 2);
    assert_eq!(counters[0].references(), &[1]);
    assert_eq!(counters[0].method_writes(), &[vec![1], vec![]]);
    assert!(counters[0].has_free_method());
    assert_eq!(counters[1].references(), &[0]);
    assert_eq!(counters[1].method_writes(), &[Vec::<usize>::new()]);
    assert!(counters[1].has_free_method());
}

#[test]
fn counter_edits() {
    let mut counter = ConstraintRefCounter::new();
    assert!(!counter.has_free_method());
    counter.add_reference(3);
    counter.add_reference(5);
    counter.add_reference(3);
    assert_eq!(counter.references(), &[3, 5, 3]);
    counter.remove_reference(3);
    assert_eq!(counter.references(), &[5]);
}

#[test]
fn free_methods_are_planned() {
    let comp = chain();
    let plan = new_new_simple_planner(&comp).unwrap();
    let names: Vec<&str> = plan.iter().map(|m| m.name()).collect();
    assert_eq!(names, vec!["m2", "m3"]);
}

#[test]
fn constraint_without_free_method_gives_none() {
    let comp = Component::new(
        "cycle".to_string(),
        vec![0, 0, 0],
        vec![
            c("C1", vec![m("m1", vec![0], vec![1]), m("m2", vec![1], vec![0])]),
            c("C2", vec![m("m3", vec![1], vec![2])]),
            c("C3", vec![m("m4", vec![0], vec![2])]),
        ],
    );
    assert!(new_new_simple_planner(&comp).is_none());
}

#[test]
fn fewest_outputs_win() {
    let comp = Component::new(
        "one".to_string(),
        vec![0, 0],
        vec![c("C", vec![m("both", vec![], vec![0, 1]), m("one", vec![1], vec![0]), m("other", vec![0], vec![1])])],
    );
    let plan = new_new_simple_planner(&comp).unwrap();
    assert_eq!(plan.len(), 1);
    assert_eq!(plan[0].name(), "one");
}

#[test]
fn musts_and_stays_are_one_list() {
    let musts = [1, 2];
    let stays = [3];
    let both = MustsAndStays::new(&musts, &stays);
    assert_eq!(both.len(), 3);
    assert_eq!(*both.index(0), 1);
    assert_eq!(*both.index(1), 2);
    assert_eq!(*both.index(2), 3);
}

#[test]
fn musts_and_stays_planner_plans_both_lists() {
    let musts = [c("Eq", vec![m("a_to_b", vec![0], vec![1]), m("b_to_a", vec![1], vec![0])])];
    let stays = [c("keep_a", vec![Method::stay(0)])];
    let both = MustsAndStays::new(&musts, &stays);
    let plan = musts_and_stays_planner(2, &both).unwrap();
    assert_eq!(plan.len(), 2);
    assert!(plan.iter().any(|m| m.name() == "a_to_b"));
    assert!(plan.iter().any(|m| m.is_stay()));
    assert!(!plan.iter().any(|m| m.name() == "b_to_a"));
}

#[test]
fn musts_and_stays_planner_fails_when_overconstrained() {
    let musts = [c("Eq", vec![m("a_to_b", vec![0], vec![1]), m("b_to_a", vec![1], vec![0])])];
    let stays = [c("keep_a", vec![Method::stay(0)]), c("keep_b", vec![Method::stay(1)])];
    let both = MustsAndStays::new(&musts, &stays);
    assert!(musts_and_stays_planner(2, &both).is_none());
}
