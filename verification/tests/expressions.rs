use kessetsu::expression::{parameter_unit, parse_expression, MAX_EXPRESSION_BYTES};
use kessetsu::ir::SIUnit;

fn failure(source: &str) -> (String, usize) {
    let error = parse_expression(source).unwrap_err();
    (error.message, error.offset)
}

#[test]
fn formulas_keep_their_text_and_count_nodes() {
    let e = parse_expression("2 * R1 + 1k").unwrap();
    assert_eq!(e.source(), "2 * R1 + 1k");
    assert_eq!(e.node_count(), 5);
    assert_eq!(e.dependencies(), vec!["R1".to_string()]);

    let e = parse_expression("-(a - b) / 2 * pi").unwrap();
    assert_eq!(e.node_count(), 8);
    assert_eq!(e.dependencies(), vec!["a".to_string(), "b".to_string()]);
}

#[test]
fn qualifying_renames_every_parameter_but_pi() {
    let e = parse_expression("2 * pi * f * C").unwrap();
    let q = e.qualify("X1.");
    assert_eq!(q.dependencies(), vec!["X1.C".to_string(), "X1.f".to_string()]);
    assert_eq!(q.source(), "2 * pi * f * C");
    assert_eq!(q.node_count(), e.node_count());
    assert_eq!(e.qualify("").dependencies(), e.dependencies());
}

#[test]
fn syntax_errors_carry_byte_offsets() {
    assert_eq!(failure("1 +"), ("Expected a quantity, parameter name or '('".to_string(), 3));
    assert_eq!(failure("(1"), ("Expected closing ')'".to_string(), 2));
    assert_eq!(failure("a b"), ("Unexpected token; use explicit +, -, * or /".to_string(), 2));
    assert_eq!(failure("1\n2"), ("Expressions must stay on one line".to_string(), 1));
    assert_eq!(failure("1x"), ("unsupported unit or trailing text 'x'".to_string(), 0));
    assert_eq!(failure("1Ω + )"), ("Expected a quantity, parameter name or '('".to_string(), 6));
    let long = "1".repeat(MAX_EXPRESSION_BYTES + 1);
    assert_eq!(failure(&long), ("Expression exceeds the byte limit".to_string(), 0));
}

#[test]
fn units_are_checked_by_dimension() {
    let units = vec![("R".to_string(), SIUnit::Ohm), ("C".to_string(), SIUnit::Farad)];
    let corner = parse_expression("1 / (R * C)").unwrap();
    assert!(corner.validate_units(&units, SIUnit::Hertz).is_ok());
    assert_eq!(corner.validate_units(&units, SIUnit::Volt).unwrap_err().message, "Expected Volt, got Hz");
    let square = parse_expression("R * R").unwrap();
    assert_eq!(
        square.validate_units(&units, SIUnit::Ohm).unwrap_err().message,
        "Expected Ohm, got compound dimension [2, -2, 0, 0] (V, A, s, angle)"
    );
    let unknown = parse_expression("L * 2").unwrap();
    assert_eq!(unknown.validate_units(&units, SIUnit::Henry).unwrap_err().message, "Unknown parameter 'L'");
    let mixed = parse_expression("R + C").unwrap();
    assert_eq!(
        mixed.validate_units(&units, SIUnit::Ohm).unwrap_err().message,
        "Cannot add/subtract incompatible dimensions"
    );
    let bare = parse_expression("-10k").unwrap();
    assert!(bare.validate_units(&units, SIUnit::Ohm).is_ok());
    let volts = parse_expression("1V").unwrap();
    let error = volts.validate_units(&units, SIUnit::Ohm).unwrap_err();
    assert_eq!((error.message.as_str(), error.offset), ("Expected Ohm, got V", 0));
}

#[test]
fn parameter_unit_names() {
    assert_eq!(parameter_unit("Ohm"), Some(SIUnit::Ohm));
    assert_eq!(parameter_unit("Hz"), Some(SIUnit::Hertz));
    assert_eq!(parameter_unit("percent"), Some(SIUnit::Percent));
    assert_eq!(parameter_unit("ohm"), None);
}
