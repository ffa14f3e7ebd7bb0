use hotdrink_rs::activation::{SharedState, State};
use hotdrink_rs::error::{MethodFailure, Reason, SolveError};
use hotdrink_rs::solver::{gather_values, settle_outputs, write_values};
use hotdrink_rs::variable_information::{Status, VariableInfo};

#[test]
fn gather_values_copies_the_inputs_in_order() {
    let values = vec![10, 20, 30];
    assert_eq!(gather_values(&values, &[2, 0, 2]), vec![30, 10, 30]);
}

#[test]
fn write_values_writes_each_result_in_turn() {
    let mut values = vec![1, 2, 3];
    write_values(&mut values, &[2, 0, 2], vec![7, 8, 9]);
    assert_eq!(values, vec![8, 2, 9]);
}

#[test]
fn settle_outputs_puts_the_kth_value_in_the_kth_output() {
    let mut infos: Vec<VariableInfo<i32, SolveError>> = vec![VariableInfo::new(Status::Ready); 3];
    let states = vec![SharedState::from_value(1), SharedState::from_value(2)];
    let r = settle_outputs(Ok(vec![5, 6]), states, &[2, 0], 4, &mut infos);
    assert_eq!(*r[0].shared_state().current_value(), 5);
    assert_eq!(*r[1].shared_state().current_value(), 6);
    assert!(matches!(r[1].shared_state().get_state(), State::Ready));
    assert_eq!(infos[2].generation(), 4);
    assert_eq!(infos[1].generation(), 0);
}

#[test]
fn settle_outputs_keeps_the_values_on_failure() {
    let mut infos: Vec<VariableInfo<i32, SolveError>> = vec![VariableInfo::new(Status::Ready); 2];
    let states = vec![SharedState::from_value(1)];
    let e = SolveError::new("comp".to_string(), "C".to_string(), "m".to_string(), Reason::MethodFailure(MethodFailure::WrongOutputCount(1, 0)));
    let r = settle_outputs(Err(vec![e.clone()]), states, &[1], 3, &mut infos);
    assert_eq!(*r[0].shared_state().current_value(), 1);
    match r[0].shared_state().get_state() {
        State::Error(errors) => assert_eq!(errors, &vec![e]),
        _ => panic!("the output should have failed"),
    }
    assert_eq!(infos[1].status(), Status::Error);
}
