use kessetsu::component::component_definition;
use kessetsu::ir::{resolve_model, ComponentKind, ModelDefinition};
use kessetsu::models::{builtin_model, is_safe_identifier, validate_component_model_pins, validate_external_resource_reference};

#[test]
fn builtin_models_resolve_ignoring_case() {
    let model = builtin_model("2n3904").unwrap();
    assert_eq!(model.name, "2N3904");
    assert_eq!(model.kind, ComponentKind::BJT(kessetsu::ir::BJTPolarity::NPN));
    assert!(model.provenance.content_hash.starts_with("sha256:"));
    assert_eq!(model.provenance.content_hash.len(), 71);
    assert!(builtin_model("nothing").is_none());
    let opamp = resolve_model("kessetsu_opamp_v1").unwrap();
    match &opamp.definition {
        ModelDefinition::Subcircuit { directive, pins } => {
            assert!(directive.contains("EGAIN n_int 0 in_p in_n 200000"));
            assert!(directive.contains("CPOLE out 0 0.031830988618379"));
            assert_eq!(pins.len(), 5);
        }
        _ => panic!("expected a subcircuit"),
    }
}

#[test]
fn subcircuit_pins_must_follow_catalog_order() {
    let opamp = builtin_model("KESSETSU_OPAMP_V1").unwrap();
    assert!(validate_component_model_pins(&ComponentKind::OpAmp, &opamp).is_ok());
    let error = validate_component_model_pins(&ComponentKind::Resistor, &opamp).unwrap_err();
    assert_eq!(error.code, "KES-C012");
    assert_eq!(
        error.message,
        "subcircuit 'KESSETSU_OPAMP_V1' pin order [\"in_p\", \"in_n\", \"vcc\", \"vee\", \"out\"] does not match Resistor catalog order [\"p1\", \"p2\"]"
    );
    let diode = builtin_model("1N4148").unwrap();
    assert!(validate_component_model_pins(&ComponentKind::Resistor, &diode).is_ok());
    assert_eq!(component_definition(&ComponentKind::Resistor).pins.len(), 2);
}

#[test]
fn external_references_are_relative_plain_paths() {
    assert!(validate_external_resource_reference("models/op amp.lib").is_ok());
    for bad in ["", "/abs.lib", "a//b", "a/../b", "./a", "a/", "a\\b", "c:x", "a/ b", "x".repeat(513).as_str()] {
        assert_eq!(
            validate_external_resource_reference(bad),
            Err("file must be a source-relative forward-slash path without traversal or control characters".to_string()),
            "{bad}"
        );
    }
    assert!(validate_external_resource_reference(&"x".repeat(512)).is_ok());
}

#[test]
fn safe_identifiers() {
    assert!(is_safe_identifier("OPA_1"));
    assert!(!is_safe_identifier("1OPA"));
    assert!(!is_safe_identifier(""));
    assert!(!is_safe_identifier("a-b"));
}
