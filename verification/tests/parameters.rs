use kessetsu::expression::{parse_expression, ParameterDecl};
use kessetsu::ir::SIUnit;
use kessetsu::parameters::parameter_order;

fn decl(name: &str, source: &str, line: usize) -> ParameterDecl {
    ParameterDecl {
        name: name.to_string(),
        unit: SIUnit::Ratio,
        expression: parse_expression(source).expect("expression"),
        line,
        column: 1,
        instance_path: vec![],
        default_expression: None,
    }
}

#[test]
fn parameters_are_evaluated_least_ready_first() {
    let ds = vec![decl("z", "1", 1), decl("c", "b + a", 2), decl("b", "a * 2", 3), decl("a", "1", 4), decl("y", "pi", 5)];
    let plan = parameter_order(&ds).expect("plan");
    assert_eq!(plan.order, vec![3, 2, 1, 4, 0]);
    assert!(plan.cycle.is_none());
}

#[test]
fn parameter_cycle_is_walked_from_the_least_name_left() {
    let ds = vec![decl("c", "1", 1), decl("b", "a + 1", 2), decl("a", "b", 3), decl("d", "a", 4)];
    let plan = parameter_order(&ds).expect("plan");
    assert_eq!(plan.order, vec![0]);
    let e = plan.cycle.expect("cycle");
    assert_eq!((e.code, e.message.as_str()), ("KES-C023", "Parameter dependency cycle: a -> b -> a"));
    assert_eq!((e.name.as_str(), e.line), ("a", 3));
    let ds = vec![decl("s", "s * 2", 7)];
    let e = parameter_order(&ds).expect("plan").cycle.expect("cycle");
    assert_eq!(e.message, "Parameter dependency cycle: s -> s");
}

#[test]
fn parameter_declaration_refusals() {
    let e = parameter_order(&vec![decl("a", "1", 1), decl("a", "2", 2)]).err().expect("refused");
    assert_eq!((e.code, e.message.as_str(), e.line), ("KES-C020", "Duplicate or reserved parameter 'a'", 2));
    let e = parameter_order(&vec![decl("pi", "3", 1)]).err().expect("refused");
    assert_eq!(e.message, "Duplicate or reserved parameter 'pi'");
    let e = parameter_order(&vec![decl("b", "q + r", 1), decl("a", "z", 2)]).err().expect("refused");
    assert_eq!((e.code, e.message.as_str(), e.name.as_str()), ("KES-C021", "Parameter 'a' refers to unknown parameter 'z'", "a"));
    let e = parameter_order(&vec![decl("b", "r + q", 1)]).err().expect("refused");
    assert_eq!(e.message, "Parameter 'b' refers to unknown parameter 'q'");
}
