use hotdrink_rs::component::Component;
use hotdrink_rs::constraint::Constraint;
use hotdrink_rs::method::{Identity, Method};
use hotdrink_rs::name_map::NameMap;

// A component with variables a, b and c, and a constraint C with a method m1 from a and b to c
// and a method m2 from c to a and b.
fn abc() -> Component<i32> {
    let mut names = NameMap::new();
    names.insert("a".to_string(), 0);
    names.insert("b".to_string(), 1);
    names.insert("c".to_string(), 2);
    let m1 = Method::new("m1".to_string(), vec![0, 1], vec![2], &Identity);
    let m2 = Method::new("m2".to_string(), vec![2], vec![0, 1], &Identity);
    Component::new_with_map(
        "comp".to_string(),
        names,
        vec![1, 2, 3],
        vec![Constraint::new_with_name("C".to_string(), vec![m1, m2])],
    )
}

#[test]
fn dot_simple_lists_boxes_and_edges() {
    let text = abc().to_dot_simple().unwrap();
    assert_eq!(
        text,
        "strict graph comp {\n  a [shape=box];\n  b [shape=box];\n  c [shape=box];\n    C -- a;\n    C -- b;\n    C -- c;\n}\n"
    );
}

#[test]
fn dot_detailed_lists_methods_and_arrows() {
    let text = abc().to_dot_detailed().unwrap();
    let expected = "strict digraph comp {\n  rankdir=LR;\n  a [shape=box];\n  b [shape=box];\n  c [shape=box];\n  subgraph C {\n    color=gray;\n    style=filled;\n    style=rounded;\n    label=C;\n    C_m1 [label=m1];\n    C_m2 [label=m2];\n    { rank = same; C_m1; C_m2; }\n  }\n  a -> C_m1 [style=dotted];\n  b -> C_m1 [style=dotted];\n  C_m1 -> c;\n  c -> C_m2 [style=dotted];\n  C_m2 -> a;\n  C_m2 -> b;\n}\n";
    assert_eq!(text, expected);
}

#[test]
fn dot_of_empty_component() {
    let comp: Component<i32> = Component::new("empty".to_string(), vec![], vec![]);
    assert_eq!(comp.to_dot_simple().unwrap(), "strict graph empty {\n}\n");
    assert_eq!(comp.to_dot_detailed().unwrap(), "strict digraph empty {\n  rankdir=LR;\n}\n");
}

#[test]
fn dot_skips_unnamed_variables() {
    let mut names = NameMap::new();
    names.insert("b".to_string(), 1);
    let comp: Component<i32> = Component::new_with_map("comp".to_string(), names, vec![1, 2], vec![]);
    assert_eq!(comp.to_dot_simple().unwrap(), "strict graph comp {\n  b [shape=box];\n}\n");
}
