use hotdrink_rs::activation::{SharedState, State, VariableActivation};
use hotdrink_rs::builders::{ComponentBuilder, ConstraintBuilder, ConversionError, MethodBuilder, MethodInput, MethodOutput};
use hotdrink_rs::callback::{Callback, ErrorListener, PendingListener, ReadyListener};
use hotdrink_rs::component::Component;
use hotdrink_rs::constraint::Constraint;
use hotdrink_rs::error::{MethodFailure, MutabilityMismatch, Reason, SolveError};
use hotdrink_rs::event::{Event, EventWithLocation, Ready};
use hotdrink_rs::fib::slow_fib;
use hotdrink_rs::method::{Identity, KeepFirst, Method, MethodFn};
use hotdrink_rs::name_map::NameMap;
use hotdrink_rs::raw::{RawComponent, RawConstraint, RawMethod};
use hotdrink_rs::solver::solve;
use hotdrink_rs::variable_information::{EventListener, FilteredCallback, Status, VariableInfo};
use std::sync::atomic::{AtomicUsize, Ordering};

#[derive(Debug)]
struct Fails;

impl MethodFn<i32> for Fails {
    fn call(&self, _args: Vec<i32>) -> Result<Vec<i32>, MethodFailure> {
        Err(MethodFailure::Custom("no".to_string()))
    }
}

#[derive(Debug)]
struct Double;

impl MethodFn<i32> for Double {
    fn call(&self, args: Vec<i32>) -> Result<Vec<i32>, MethodFailure> {
        Ok(vec![args[0] * 2])
    }
}

#[derive(Debug)]
struct Counter(AtomicUsize);

impl EventListener<i32, SolveError> for Counter {
    fn on_event(&self, _event: Event<'_, i32, SolveError>) {
        self.0.fetch_add(1, Ordering::SeqCst);
    }
}

impl PendingListener for Counter {
    fn on_pending(&self) {
        self.0.fetch_add(1, Ordering::SeqCst);
    }
}

impl ReadyListener<i32> for Counter {
    fn on_ready(&self, _value: &i32) {
        self.0.fetch_add(10, Ordering::SeqCst);
    }
}

impl ErrorListener<SolveError> for Counter {
    fn on_error(&self, _error: SolveError) {
        self.0.fetch_add(100, Ordering::SeqCst);
    }
}

fn error(reason: Reason) -> SolveError {
    SolveError::new("comp".to_string(), "cons".to_string(), "meth".to_string(), reason)
}

#[test]
fn solve_error_texts() {
    assert_eq!(
        error(Reason::MethodFailure(MethodFailure::WrongInputCount(2, 13))).to_string(),
        "comp.cons.meth: Method takes 2 input(s), but got 13."
    );
    assert_eq!(
        error(Reason::MethodFailure(MethodFailure::WrongOutputCount(0, 1))).to_string(),
        "comp.cons.meth: Method takes 0 output(s), but got 1."
    );
    assert_eq!(error(Reason::PreConditionFailure("p".to_string())).to_string(), "comp.cons.meth: Precondition p did not hold.");
    assert_eq!(error(Reason::PostConditionFailure("q".to_string())).to_string(), "comp.cons.meth: Postcondition q did not hold.");
    assert_eq!(
        error(Reason::MethodFailure(MethodFailure::NoSuchVariable("x".to_string()))).to_string(),
        "comp.cons.meth: Unknown variable x."
    );
    assert_eq!(
        error(Reason::MethodFailure(MethodFailure::TypeConversionFailure("x".to_string(), "i32".to_string()))).to_string(),
        "comp.cons.meth: Variable x could not be converted to i32."
    );
    assert_eq!(error(Reason::MethodFailure(MethodFailure::Custom("oops".to_string()))).to_string(), "comp.cons.meth: oops");
    assert_eq!(
        error(Reason::MethodFailure(MethodFailure::MutabilityMismatch(MutabilityMismatch::ExpectedMutableGotImmutable))).to_string(),
        "comp.cons.meth: Expected mutable reference, got immutable"
    );
}

#[test]
fn method_apply_checks_counts() {
    let m = Method::new("m".to_string(), vec![0, 1], vec![2], &Identity);
    assert_eq!(m.apply(vec![1]), Err(MethodFailure::WrongInputCount(2, 1)));
    assert_eq!(m.apply(vec![1, 2]), Err(MethodFailure::WrongOutputCount(1, 2)));
    let d = Method::new("d".to_string(), vec![0], vec![1], &Double);
    assert_eq!(d.apply(vec![4]), Ok(vec![8]));
    let f = Method::new("f".to_string(), vec![0], vec![1], &Fails);
    assert_eq!(f.apply(vec![4]), Err(MethodFailure::Custom("no".to_string())));
}

#[test]
fn stay_methods_are_named_by_index() {
    let m: Method<i32> = Method::stay(42);
    assert_eq!(m.name(), "_stay_42");
    assert_eq!(m.apply(vec![7]), Ok(vec![7]));
    assert_eq!(KeepFirst.call(Vec::<i32>::new()), Err(MethodFailure::WrongInputCount(1, 0)));
}

#[test]
fn compute_reports_input_errors_first() {
    let d = Method::new("d".to_string(), vec![0], vec![1], &Double);
    let failed = error(Reason::PreConditionFailure("p".to_string()));
    let r = d.compute(vec![(1, State::Error(vec![failed.clone()]))], "c", "k");
    assert_eq!(r, Err(vec![failed]));
    let r = d.compute(vec![(3, State::Ready)], "c", "k");
    assert_eq!(r, Ok(vec![6]));
    let r = d.compute(vec![(3, State::Ready), (4, State::Ready)], "c", "k");
    assert_eq!(
        r,
        Err(vec![SolveError::new("c".to_string(), "k".to_string(), "d".to_string(), Reason::MethodFailure(MethodFailure::WrongInputCount(1, 2)))])
    );
    let f = Method::new("f".to_string(), vec![0], vec![1], &Fails);
    let r = f.compute(vec![(3, State::Ready)], "c", "k");
    assert_eq!(
        r,
        Err(vec![SolveError::new("c".to_string(), "k".to_string(), "f".to_string(), Reason::MethodFailure(MethodFailure::Custom("no".to_string())))])
    );
}

#[test]
fn solve_is_atomic() {
    let d = Method::new("d".to_string(), vec![0], vec![1], &Double);
    let f = Method::new("f".to_string(), vec![1], vec![2], &Fails);
    let mut values = vec![1, 0, 0];
    assert_eq!(solve(&[&d], &mut values), Ok(()));
    assert_eq!(values, vec![1, 2, 0]);
    assert_eq!(solve(&[&d, &f], &mut values), Err(MethodFailure::Custom("no".to_string())));
    assert_eq!(values, vec![1, 2, 0]);
}

#[test]
fn failing_method_leaves_errors_and_old_values() {
    let mut component: Component<i32> = RawComponent::new(
        "comp",
        vec!["a", "b"],
        vec![1, 5],
        vec![RawConstraint::new("C", vec![RawMethod::new("f", vec!["a"], vec!["b"], &Fails)])],
    )
    .into_component();
    static LISTENER: Counter = Counter(AtomicUsize::new(0));
    component.subscribe("b", &LISTENER).unwrap();
    assert_eq!(LISTENER.0.load(Ordering::SeqCst), 1);
    component.update().unwrap();
    // pending, then error
    assert_eq!(LISTENER.0.load(Ordering::SeqCst), 3);
    assert_eq!(component.get_variable("b"), Some(5));
    let state = component.variables()[1].shared_state().get_state().clone();
    assert!(matches!(state, State::Error(ref es) if es.len() == 1));
    component.unsubscribe("b").unwrap();
    assert!(component.unsubscribe("zz").is_err());
}

#[test]
fn variable_info_ignores_old_generations() {
    let mut info: VariableInfo<i32, SolveError> = VariableInfo::new(Status::Ready);
    info.set_generation(3);
    info.call_callback(EventWithLocation::new(0, 2, Event::Pending));
    assert_eq!(info.status(), Status::Ready);
    assert_eq!(info.generation(), 3);
    info.call_callback(EventWithLocation::new(0, 4, Event::Pending));
    assert_eq!(info.status(), Status::Pending);
    assert_eq!(info.generation(), 4);
    let v = 1;
    info.call_callback(EventWithLocation::new(0, 4, Event::Ready(Ready::Changed(&v))));
    assert_eq!(info.status(), Status::Ready);
}

#[test]
fn filtered_callback_drops_older_events() {
    static LISTENER: Counter = Counter(AtomicUsize::new(0));
    let mut filtered: FilteredCallback<i32, SolveError> = FilteredCallback::new();
    assert!(!filtered.call_callback(EventWithLocation::new(0, 0, Event::Pending)));
    filtered.subscribe(&LISTENER);
    filtered.set_target(2);
    assert!(!filtered.call_callback(EventWithLocation::new(0, 1, Event::Pending)));
    assert!(filtered.call_callback(EventWithLocation::new(0, 2, Event::Pending)));
    assert_eq!(LISTENER.0.load(Ordering::SeqCst), 1);
    assert!(filtered.call_callback(EventWithLocation::new(0, 3, Event::Pending)));
    assert_eq!(LISTENER.0.load(Ordering::SeqCst), 2);
    filtered.unsubscribe();
    assert!(!filtered.call_callback(EventWithLocation::new(0, 2, Event::Pending)));
}

#[test]
fn callbacks_are_called_when_set() {
    static LISTENER: Counter = Counter(AtomicUsize::new(0));
    let mut callback: Callback<i32, SolveError> = Callback::new();
    assert_eq!(callback.call_pending(), None);
    callback.set_pending(&LISTENER);
    callback.set_ready(&LISTENER);
    callback.set_error(&LISTENER);
    assert_eq!(callback.call_pending(), Some(()));
    assert_eq!(callback.call_ready(&3), Some(()));
    assert_eq!(callback.call_error(error(Reason::PreConditionFailure("p".to_string()))), Some(()));
    assert_eq!(LISTENER.0.load(Ordering::SeqCst), 111);
}

#[test]
fn shared_state_errors_accumulate() {
    let mut st: SharedState<i32, i32> = SharedState::from_value(3);
    st.set_error(vec![1]);
    st.set_error(vec![2, 3]);
    assert_eq!(st.get_state(), &State::Error(vec![1, 2, 3]));
    assert_eq!(st.current_value(), &3);
    st.set_value(4);
    assert_eq!(st.get_state(), &State::Ready);
    let next = SharedState::from_previous(&st);
    assert_eq!(next.get_state(), &State::Pending);
    assert_eq!(VariableActivation { shared_state: next }.latest_value(), 4);
}

#[test]
fn slow_fib_values() {
    assert_eq!(slow_fib(0), 0);
    assert_eq!(slow_fib(1), 1);
    assert_eq!(slow_fib(10), 55);
    assert_eq!(slow_fib(-3), -3);
}

#[test]
fn builders_build() {
    let builder: ComponentBuilder<i32> = ComponentBuilder::new("Component")
        .variables(vec![("a", 3), ("b", 7)])
        .variable_mut("c", 10)
        .constraint(
            ConstraintBuilder::new("Sum")
                .method(MethodBuilder::new("m1").input("a").outputs(vec![MethodOutput::new("b")]).apply(&Double))
                .method(MethodBuilder::new("m2").input_mut("b").outputs(vec![MethodOutput::new("a")]).pure(false)),
        )
        .constraint(ConstraintBuilder::new("Product"));
    let _ = builder.variable("a", 4);
    assert_eq!(MethodInput::make_ref("x"), MethodInput::Ref("x".to_string()));
    assert_eq!(MethodInput::make_mut_ref("x"), MethodInput::MutRef("x".to_string()));
    assert_eq!(
        MethodFailure::from_conversion(ConversionError::TypeConversionFailure),
        MethodFailure::TypeConversionFailure("<VARIABLE>".to_string(), "<TYPE>".to_string())
    );
    assert_eq!(
        MethodFailure::from(MutabilityMismatch::ExpectedImmutableGotMutable),
        MethodFailure::MutabilityMismatch(MutabilityMismatch::ExpectedImmutableGotMutable)
    );
}

#[test]
fn later_names_replace_earlier_ones() {
    let raw: RawComponent<'_, i32> = RawComponent::new("c", vec!["a", "b", "a"], vec![1, 2, 3], vec![]);
    let map = raw.indices();
    assert_eq!(map.get("a"), Some(2));
    assert_eq!(map.get("b"), Some(1));
    assert_eq!(map.get("z"), None);
    let mut names = NameMap::new();
    names.insert("x".to_string(), 1);
    names.insert("x".to_string(), 5);
    assert_eq!(names.len(), 1);
    assert_eq!(names.get("x"), Some(5));
}

#[test]
fn constraints_track_their_variables() {
    let mut c: Constraint<i32> = Constraint::new_with_name(
        "C".to_string(),
        vec![Method::new("m".to_string(), vec![0], vec![1], &Identity)],
    );
    assert_eq!(c.variables(), &[0, 1]);
    c.add_method(Method::new("n".to_string(), vec![2], vec![0], &Identity));
    assert_eq!(c.variables(), &[0, 1, 2]);
    c.remove_method("m");
    assert_eq!(c.variables(), &[2, 0]);
    c.remove_methods_writing(0);
    assert_eq!(c.methods().len(), 0);
    assert_eq!(c.variables().len(), 0);
}

#[test]
fn into_component_marks_every_variable_set_and_lists_used_variables() {
    let component: Component<i32> = RawComponent::new(
        "Comp",
        vec!["a", "b", "c"],
        vec![1, 2, 3],
        vec![RawConstraint::new(
            "C",
            vec![
                RawMethod::new("ab", vec!["a"], vec!["b"], &Identity),
                RawMethod::new("ba", vec!["b"], vec!["a"], &Identity),
            ],
        )],
    )
    .into_component();
    assert!(component.is_modified());
    let mut vars = component.constraints()[0].variables().to_vec();
    vars.sort();
    assert_eq!(vars, vec![0, 1]);
    assert_eq!(component.name_to_idx("c"), Some(2));
}
