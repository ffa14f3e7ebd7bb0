use hotdrink_rs::component::Component;
use hotdrink_rs::constraint::Constraint;
use hotdrink_rs::method::{Identity, Method};
use hotdrink_rs::traits::{ComponentLike, ConstraintLike, MethodLike};

fn make_method<M: MethodLike<Arg = i32>>(name: &str, inputs: Vec<usize>, outputs: Vec<usize>) -> M {
    M::new(name.to_string(), inputs, outputs, &Identity)
}

fn method_names<C: ConstraintLike>(c: &C) -> Vec<String> {
    c.methods().iter().map(|m| m.name().to_string()).collect()
}

#[test]
fn methods_through_the_trait() {
    let m: Method<i32> = make_method("m", vec![0, 1], vec![2]);
    assert_eq!(MethodLike::name(&m), "m");
    assert_eq!(MethodLike::apply(&m, vec![1, 2]).is_err(), true);
    assert_eq!(MethodLike::apply(&Method::new("id".to_string(), vec![0], vec![1], &Identity), vec![5]), Ok(vec![5]));
}

#[test]
fn constraints_through_the_trait() {
    let mut c: Constraint<i32> = ConstraintLike::new(vec![make_method("m1", vec![0], vec![1])]);
    assert_eq!(ConstraintLike::name(&c), "");
    ConstraintLike::add_method(&mut c, make_method("m2", vec![1], vec![2]));
    assert_eq!(method_names(&c), vec!["m1".to_string(), "m2".to_string()]);
    assert_eq!(ConstraintLike::variables(&c), &[0, 1, 2]);
    ConstraintLike::remove_method(&mut c, "m1");
    assert_eq!(method_names(&c), vec!["m2".to_string()]);
    assert_eq!(ConstraintLike::variables(&c), &[1, 2]);
}

#[test]
fn components_through_the_trait() {
    let constraint: Constraint<i32> = ConstraintLike::new(vec![make_method("m", vec![0], vec![1])]);
    let mut comp: Component<i32> = ComponentLike::new("c".to_string(), vec![4, 5], vec![constraint]);
    assert_eq!(ComponentLike::n_variables(&comp), 2);
    assert_eq!(ComponentLike::get(&comp, 1).latest_value(), 5);
    ComponentLike::set(&mut comp, 0, 7);
    assert_eq!(ComponentLike::get(&comp, 0).latest_value(), 7);
    assert_eq!(ComponentLike::ranking(&comp), vec![0, 1]);
    assert_eq!(ComponentLike::update(&mut comp), Ok(()));
    assert_eq!(ComponentLike::get(&comp, 1).latest_value(), 7);
    let popped = ComponentLike::pop(&mut comp).unwrap();
    assert_eq!(method_names(&popped), vec!["m".to_string()]);
    assert!(ComponentLike::pop(&mut comp).is_none());
    assert_eq!(ComponentLike::name_to_idx(&comp, "a"), None);
}
