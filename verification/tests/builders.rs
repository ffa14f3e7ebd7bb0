use hotdrink_rs::builders::{
    ComponentBuilder, ConstraintBuilder, ConversionError, MethodArg, MethodBuilder, MethodInput, MethodOutput,
    WrongEnumVariant,
};
use hotdrink_rs::component::Component;
use hotdrink_rs::constraint::Constraint;
use hotdrink_rs::error::{MethodFailure, MutabilityMismatch};
use hotdrink_rs::method::{Method, MethodFn, MethodResult};
use std::convert::TryFrom;

// Two wrapper types and a sum type over them, with the conversions a sum type has.
#[derive(Copy, Clone, Debug, PartialEq)]
struct A;
#[derive(Copy, Clone, Debug, PartialEq)]
struct B;

#[derive(Debug, PartialEq)]
enum AB {
    A(A),
    B(B),
}

impl From<A> for AB {
    fn from(a: A) -> Self {
        AB::A(a)
    }
}

impl From<B> for AB {
    fn from(b: B) -> Self {
        AB::B(b)
    }
}

impl<'a> TryFrom<&'a AB> for &'a A {
    type Error = WrongEnumVariant;
    fn try_from(ab: &'a AB) -> Result<Self, Self::Error> {
        match ab {
            AB::A(a) => Ok(a),
            _ => Err(WrongEnumVariant("AB", "A")),
        }
    }
}

impl<'a> TryFrom<&'a AB> for &'a B {
    type Error = WrongEnumVariant;
    fn try_from(ab: &'a AB) -> Result<Self, Self::Error> {
        match ab {
            AB::B(b) => Ok(b),
            _ => Err(WrongEnumVariant("AB", "B")),
        }
    }
}

impl<'a> TryFrom<&'a mut AB> for &'a mut A {
    type Error = WrongEnumVariant;
    fn try_from(ab: &'a mut AB) -> Result<Self, Self::Error> {
        match ab {
            AB::A(a) => Ok(a),
            _ => Err(WrongEnumVariant("AB", "A")),
        }
    }
}

impl<'a> TryFrom<&'a mut AB> for &'a mut B {
    type Error = WrongEnumVariant;
    fn try_from(ab: &'a mut AB) -> Result<Self, Self::Error> {
        match ab {
            AB::B(b) => Ok(b),
            _ => Err(WrongEnumVariant("AB", "B")),
        }
    }
}

fn failure(ce: ConversionError) -> MethodFailure {
    MethodFailure::from_conversion(ce)
}

// Reads `a` immutably and `b` mutably, and returns their sum.
fn add_refs(mut v: Vec<MethodArg<'_, i32>>) -> MethodResult<i32> {
    let a: &i32 = v.remove(0).try_into_ref().map_err(failure)?;
    assert_eq!(a, &3);
    let b: &mut i32 = v.remove(0).try_into_mut().map_err(failure)?;
    assert_eq!(b, &4);
    Ok(vec![*a + *b])
}

// Runs `add_refs` on values: the first by reference, the second by mutable reference.
#[derive(Debug)]
struct AddRefs;

impl MethodFn<i32> for AddRefs {
    fn call(&self, mut args: Vec<i32>) -> Result<Vec<i32>, MethodFailure> {
        let mut b = args.remove(1);
        let a = args.remove(0);
        add_refs(vec![MethodArg::from(&a), MethodArg::MutRef(&mut b)])
    }
}

#[test]
fn method_builder_builder_builds() {
    let mb = MethodBuilder::new("m")
        .input("a")
        .input_mut("b")
        .outputs(vec![MethodOutput::new("c")])
        .apply(&AddRefs);
    let result = add_refs(vec![MethodArg::from(&3), MethodArg::MutRef(&mut 4)]);
    assert_eq!(result, Ok(vec![7]));
    if let Some(f) = mb.function() {
        assert_eq!(f.call(vec![3, 4]), Ok(vec![7]));
    } else {
        panic!("the method has a function");
    }
}

#[test]
fn wrong_mutability_gives_error() {
    // Tries to get mutable reference when it is immutable
    let f = |mut v: Vec<MethodArg<'_, i32>>| -> MethodResult<i32> {
        let a: &mut i32 = v.remove(0).try_into_mut().map_err(failure)?;
        Ok(vec![*a])
    };
    let result = f(vec![MethodArg::from(&0)]);
    assert_eq!(
        result,
        Err(MethodFailure::MutabilityMismatch(MutabilityMismatch::ExpectedMutableGotImmutable))
    );

    // Tries to get immutable reference when it is mutable
    let f = |mut v: Vec<MethodArg<'_, i32>>| -> MethodResult<i32> {
        let a: &i32 = v.remove(0).try_into_ref().map_err(failure)?;
        Ok(vec![*a])
    };
    let result = f(vec![MethodArg::MutRef(&mut 0)]);
    assert_eq!(
        result,
        Err(MethodFailure::MutabilityMismatch(MutabilityMismatch::ExpectedImmutableGotMutable))
    );
}

#[test]
fn auto_conversion_in_apply() {
    // A function that converts automatically.
    let f = |mut v: Vec<MethodArg<'_, AB>>| -> MethodResult<AB> {
        let a: &A = v.remove(0).try_into_ref::<A>().map_err(failure)?;
        assert_eq!(a, &A);
        let b: &mut B = v.remove(0).try_into_mut::<B>().map_err(failure)?;
        assert_eq!(b, &B);
        Ok(vec![A.into(), B.into()])
    };

    let result = f(vec![MethodArg::from(&AB::A(A)), MethodArg::MutRef(&mut AB::B(B))]);

    assert_eq!(result, Ok(vec![AB::A(A), AB::B(B)]));
}

#[test]
fn auto_conversion_may_fail() {
    // A function that tries to get a B
    let f = |mut v: Vec<MethodArg<'_, AB>>| -> MethodResult<AB> {
        let b: &B = v.remove(0).try_into_ref().map_err(failure)?;
        Ok(vec![(*b).into()])
    };

    // We pass in an A
    let result = f(vec![MethodArg::from(&AB::A(A))]);

    // Should be type conversion error
    assert_eq!(
        result,
        Err(MethodFailure::TypeConversionFailure("<VARIABLE>".to_string(), "<TYPE>".to_string()))
    );
}

// Reads an A and a B and returns both.
#[derive(Debug)]
struct PassBoth;

impl MethodFn<AB> for PassBoth {
    fn call(&self, mut args: Vec<AB>) -> Result<Vec<AB>, MethodFailure> {
        let mut second = args.remove(1);
        let first = args.remove(0);
        let mut v = vec![MethodArg::from(&first), MethodArg::MutRef(&mut second)];
        let a: &A = v.remove(0).try_into_ref().map_err(failure)?;
        let b: &mut B = v.remove(0).try_into_mut().map_err(failure)?;
        let a: &A = a;
        let b: &B = b;
        Ok(vec![(*a).into(), (*b).into()])
    }
}

#[test]
fn make_method() {
    let mb: MethodBuilder<AB> = MethodBuilder::new("m")
        .inputs(vec![MethodInput::make_ref("a"), MethodInput::make_mut_ref("b")])
        .outputs(vec![MethodOutput::new("c"), MethodOutput::new("d")])
        .apply(&PassBoth)
        .pure(false);
    let f = mb.function().unwrap();
    assert_eq!(f.call(vec![AB::A(A), AB::B(B)]), Ok(vec![AB::A(A), AB::B(B)]));
}

#[test]
fn wrong_variant_is_a_type_conversion_failure() {
    let e = <&A>::try_from(&AB::B(B)).unwrap_err();
    assert_eq!(e, WrongEnumVariant("AB", "A"));
    assert_eq!(e.into_failure(), MethodFailure::TypeConversionFailure("AB".to_string(), "A".to_string()));
}

#[test]
fn make_params() {
    let none: Vec<MethodInput> = Vec::new();
    assert!(none.is_empty());
    assert_eq!(vec![MethodInput::make_ref("a")], vec![MethodInput::make_ref("a")]);
    assert_eq!(vec![MethodInput::make_mut_ref("a")], vec![MethodInput::MutRef("a".to_string())]);
    assert_eq!(
        vec![MethodInput::make_ref("a"), MethodInput::make_mut_ref("b")],
        vec![MethodInput::Ref("a".to_string()), MethodInput::MutRef("b".to_string())]
    );

    let many = vec![
        MethodInput::make_ref("a"),
        MethodInput::make_mut_ref("b"),
        MethodInput::make_ref("c"),
        MethodInput::make_mut_ref("d"),
        MethodInput::make_ref("e"),
        MethodInput::make_mut_ref("f"),
    ];
    assert_eq!(
        many,
        vec![
            MethodInput::Ref("a".to_string()),
            MethodInput::MutRef("b".to_string()),
            MethodInput::Ref("c".to_string()),
            MethodInput::MutRef("d".to_string()),
            MethodInput::Ref("e".to_string()),
            MethodInput::MutRef("f".to_string())
        ]
    );
}

#[test]
fn dyn_fn() {
    fn make() -> impl Fn(Vec<MethodArg<'_, i32>>) -> MethodResult<i32> {
        |mut values: Vec<MethodArg<'_, i32>>| -> MethodResult<i32> {
            let _a: &i32 = values.remove(0).try_into_ref().map_err(failure)?;
            let _b: &mut i32 = values.remove(0).try_into_mut().map_err(failure)?;
            Ok(vec![1, 2, 3])
        }
    }
    let f = make();
    assert_eq!(f(vec![MethodArg::Ref(&3i32), MethodArg::MutRef(&mut 4)]), Ok(vec![1, 2, 3]));
}

// Returns its only input.
#[derive(Debug)]
struct First;

impl MethodFn<i32> for First {
    fn call(&self, args: Vec<i32>) -> Result<Vec<i32>, MethodFailure> {
        Ok(vec![args[0]])
    }
}

// Adds its two inputs.
#[derive(Debug)]
struct Add;

impl MethodFn<i32> for Add {
    fn call(&self, args: Vec<i32>) -> Result<Vec<i32>, MethodFailure> {
        Ok(vec![args[0] + args[1]])
    }
}

// Subtracts its first input from its second.
#[derive(Debug)]
struct SubFirst;

impl MethodFn<i32> for SubFirst {
    fn call(&self, args: Vec<i32>) -> Result<Vec<i32>, MethodFailure> {
        Ok(vec![args[1] - args[0]])
    }
}

#[test]
fn component_builder_builder_builds() {
    let _: ComponentBuilder<i32> = ComponentBuilder::new("Component")
        .variables(vec![("a", 3), ("b", 7)])
        .variable_mut("c", 10)
        .constraint(
            ConstraintBuilder::new("Sum")
                .method(
                    MethodBuilder::new("m1")
                        .inputs(vec![MethodInput::make_ref("a")])
                        .outputs(vec![MethodOutput::new("b")])
                        .apply(&First),
                )
                .method(
                    MethodBuilder::new("m2")
                        .inputs(vec![MethodInput::make_mut_ref("b")])
                        .outputs(vec![MethodOutput::new("a")])
                        .apply(&First),
                ),
        )
        .constraint(ConstraintBuilder::new("Product"));
}

#[test]
fn make_constraint() {
    let _: ConstraintBuilder<i32> = ConstraintBuilder::new("Sum")
        .method(
            MethodBuilder::new("m1")
                .inputs(vec![MethodInput::make_ref("a"), MethodInput::make_ref("b")])
                .outputs(vec![MethodOutput::new("c")])
                .apply(&Add),
        )
        .method(
            MethodBuilder::new("m2")
                .inputs(vec![MethodInput::make_ref("a"), MethodInput::make_ref("c")])
                .outputs(vec![MethodOutput::new("b")])
                .apply(&SubFirst),
        )
        .method(
            MethodBuilder::new("m3")
                .inputs(vec![MethodInput::make_ref("b"), MethodInput::make_mut_ref("c")])
                .outputs(vec![MethodOutput::new("a")])
                .apply(&SubFirst),
        );
}

// A sum type over three standard types.
#[allow(non_camel_case_types)]
#[derive(Debug, Clone, PartialEq)]
enum Foo {
    i32(i32),
    f64(f64),
    String(String),
}

// Returns nothing.
#[derive(Debug)]
struct Nothing;

impl MethodFn<Foo> for Nothing {
    fn call(&self, _args: Vec<Foo>) -> Result<Vec<Foo>, MethodFailure> {
        Ok(vec![])
    }
}

// Appends "def" to its only input, a string, and returns nothing.
#[derive(Debug)]
struct AppendDef;

impl MethodFn<Foo> for AppendDef {
    fn call(&self, mut args: Vec<Foo>) -> Result<Vec<Foo>, MethodFailure> {
        match &mut args[0] {
            Foo::String(s) => {
                s.push_str("def");
                Ok(vec![])
            }
            _ => Err(WrongEnumVariant("Foo", "String").into_failure()),
        }
    }
}

#[test]
fn build_component() {
    let comp: ComponentBuilder<Foo> = ComponentBuilder::new("Component")
        .variable("x", Foo::i32(0))
        .variable("y", Foo::i32(i32::default()))
        .variable("z", Foo::f64(f64::default()))
        .variable_mut("s", Foo::String(String::default()))
        .constraint(
            ConstraintBuilder::new("Constraint")
                .method(MethodBuilder::new("m").apply(&Nothing))
                .method(
                    MethodBuilder::new("add")
                        .inputs(vec![MethodInput::make_ref("x"), MethodInput::make_ref("y")])
                        .apply(&Nothing),
                )
                .method(
                    MethodBuilder::new("append")
                        .inputs(vec![MethodInput::make_mut_ref("s")])
                        .apply(&AppendDef)
                        .pure(false),
                ),
        );
    let _ = format!("{:?}", comp);
    assert_eq!(AppendDef.call(vec![Foo::String("abc".to_string())]), Ok(vec![]));
    assert_eq!(
        AppendDef.call(vec![Foo::i32(1)]),
        Err(MethodFailure::TypeConversionFailure("Foo".to_string(), "String".to_string()))
    );
}

// A sum type over two standard types.
#[allow(non_camel_case_types)]
#[derive(Debug, PartialEq, Clone)]
enum Standard {
    i32(i32),
    String(String),
}

// Checks that it gets 4 and "abc", and returns nothing.
#[derive(Debug)]
struct CheckArgs;

impl MethodFn<Standard> for CheckArgs {
    fn call(&self, args: Vec<Standard>) -> Result<Vec<Standard>, MethodFailure> {
        assert_eq!(args[0], Standard::i32(4));
        assert_eq!(args[1], Standard::String("abc".to_string()));
        Ok(vec![])
    }
}

// Doubles its only input, an integer.
#[derive(Debug)]
struct DoubleStandard;

impl MethodFn<Standard> for DoubleStandard {
    fn call(&self, args: Vec<Standard>) -> Result<Vec<Standard>, MethodFailure> {
        match &args[0] {
            Standard::i32(i) => Ok(vec![Standard::i32(2 * i)]),
            _ => Err(WrongEnumVariant("Standard", "i32").into_failure()),
        }
    }
}

fn standard_component(m: Method<Standard>) -> Component<Standard> {
    let mut names = hotdrink_rs::name_map::NameMap::new();
    names.insert("i".to_string(), 0);
    names.insert("s".to_string(), 1);
    Component::new_with_map(
        "comp".to_string(),
        names,
        vec![Standard::i32(4), Standard::String("abc".to_string())],
        vec![Constraint::new_with_name("constr".to_string(), vec![m])],
    )
}

#[test]
fn methods_automatically_unwrap_arguments() {
    let comp = standard_component(Method::new("m".to_string(), vec![0, 1], vec![], &CheckArgs));

    let constr = comp.constraints()[0].clone();
    let m = constr.methods()[0].clone();
    assert_eq!(m.apply(vec![Standard::i32(4), Standard::String("abc".to_string())]), Ok(vec![]));
}

#[test]
fn method_output_is_saved() {
    let comp = standard_component(Method::new("m".to_string(), vec![0], vec![0], &DoubleStandard));

    let constr = &comp.constraints()[0].clone();
    let m = &constr.methods()[0].clone();
    assert_eq!(m.apply(vec![Standard::i32(3)]), Ok(vec![Standard::i32(6)]));
}

#[test]
fn assertion_is_run() {}
