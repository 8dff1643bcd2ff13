use kessetsu::ast::{ComponentDecl, ComponentType, Program};
use kessetsu::devices::component_kind_and_model;
use kessetsu::expression::parse_expression;
use kessetsu::ir::{
    BJTPolarity, ComponentKind, FETPolarity, ModelDefinition, ModelProvenance, ModelRef, ModelSource,
};
use kessetsu::models::{resolve_program_models, validate_component_model_pins, ModelLibrary, UserReadings};

fn no_readings() -> UserReadings {
    UserReadings { models: vec![], subcircuits: vec![], poles: vec![] }
}

fn library() -> ModelLibrary {
    let p = Program {
        modules: vec![],
        model_includes: vec![],
        models: vec![],
        subcircuits: vec![],
        external_subcircuits: vec![],
        statements: vec![],
    };
    resolve_program_models(&p, &no_readings()).expect("library")
}

fn declared(comp_type: ComponentType, name: &str, subtype: Option<&str>, value: Option<&str>) -> ComponentDecl {
    ComponentDecl {
        comp_type,
        name: name.to_string(),
        subtype: subtype.map(str::to_string),
        value: value.map(str::to_string),
        value_expression: None,
        waveform_expression: None,
        interface_pins: vec![],
        instance_path: vec![],
    }
}

fn refusal(decl: &ComponentDecl, lib: &ModelLibrary) -> (String, String, String, String) {
    let d = component_kind_and_model(decl, lib).expect_err("refused");
    (d.code, d.message, d.component.unwrap(), d.field.unwrap())
}

fn subcircuit(name: &str, kind: ComponentKind, pins: &[&str]) -> ModelRef {
    ModelRef {
        name: name.to_string(),
        kind,
        source: ModelSource::UserDefined,
        definition: ModelDefinition::Subcircuit {
            directive: format!(".subckt {name}"),
            pins: pins.iter().map(|p| p.to_string()).collect(),
        },
        provenance: ModelProvenance {
            source: "user".to_string(),
            license: "user".to_string(),
            version: "1".to_string(),
            content_hash: "sha256:0".to_string(),
            simulator: "ngspice".to_string(),
        },
    }
}

#[test]
fn numeric_types_need_no_model() {
    let lib = library();
    let (kind, model) = component_kind_and_model(&declared(ComponentType::Resistor, "R1", None, Some("1k")), &lib).unwrap();
    assert_eq!(kind, ComponentKind::Resistor);
    assert!(model.is_none());
    let (kind, _) = component_kind_and_model(&declared(ComponentType::Source, "V1", None, Some("5")), &lib).unwrap();
    assert_eq!(kind, ComponentKind::VoltageSource);
    let (kind, _) = component_kind_and_model(&declared(ComponentType::ModulePort, "P", None, None), &lib).unwrap();
    assert_eq!(kind, ComponentKind::ModulePort);
}

#[test]
fn transistors_take_default_models_by_polarity() {
    let lib = library();
    let (kind, model) =
        component_kind_and_model(&declared(ComponentType::Transistor, "Q1", None, None), &lib).unwrap();
    assert_eq!(kind, ComponentKind::BJT(BJTPolarity::NPN));
    assert_eq!(model.unwrap().name, "2N3904");
    let (kind, model) =
        component_kind_and_model(&declared(ComponentType::Transistor, "Q2", Some("PnP"), Some("")), &lib).unwrap();
    assert_eq!(kind, ComponentKind::BJT(BJTPolarity::PNP));
    assert_eq!(model.unwrap().name, "2N3906");
    let (kind, model) =
        component_kind_and_model(&declared(ComponentType::Mosfet, "M1", None, None), &lib).unwrap();
    assert_eq!(kind, ComponentKind::MOSFET(FETPolarity::NMOS));
    assert_eq!(model.unwrap().name, "IRF540");
    let (kind, model) = component_kind_and_model(&declared(ComponentType::Diode, "D1", None, Some("1n4007")), &lib).unwrap();
    assert_eq!(kind, ComponentKind::Diode);
    assert_eq!(model.unwrap().name, "1N4007");
    let (kind, model) = component_kind_and_model(&declared(ComponentType::OpAmp, "U1", None, None), &lib).unwrap();
    assert_eq!(kind, ComponentKind::OpAmp);
    assert_eq!(model.unwrap().name, "KESSETSU_OPAMP_V1");
}

#[test]
fn polarity_must_match_the_model() {
    let lib = library();
    assert_eq!(
        refusal(&declared(ComponentType::Transistor, "Q1", Some("pnp"), Some("2N3904")), &lib),
        (
            "KES-C004".to_string(),
            "BJT polarity PNP conflicts with model '2N3904' (NPN)".to_string(),
            "Q1".to_string(),
            "model".to_string()
        )
    );
    assert_eq!(
        refusal(&declared(ComponentType::Transistor, "Q1", None, Some("1N4148")), &lib).1,
        "model '1N4148' is not a BJT model"
    );
    assert_eq!(
        refusal(&declared(ComponentType::Mosfet, "M1", None, Some("2N3904")), &lib).1,
        "model '2N3904' is not a MOSFET model"
    );
    assert_eq!(
        refusal(&declared(ComponentType::Diode, "D1", None, Some("IRF540")), &lib).1,
        "model 'IRF540' is not a diode model"
    );
    assert_eq!(
        refusal(&declared(ComponentType::OpAmp, "U1", None, Some("1N4148")), &lib).1,
        "model '1N4148' is not an op-amp subcircuit"
    );
    assert_eq!(
        refusal(&declared(ComponentType::ExternalDevice, "X1", None, Some("1N4148")), &lib).1,
        "model '1N4148' is not an external device interface"
    );
}

#[test]
fn unknown_models_are_refused() {
    let lib = library();
    assert_eq!(
        refusal(&declared(ComponentType::Transistor, "Q1", None, Some("BC547")), &lib),
        (
            "KES-C003".to_string(),
            "unsupported BJT model 'BC547'; user-defined models are not yet declared by the language".to_string(),
            "Q1".to_string(),
            "model".to_string()
        )
    );
    assert_eq!(
        refusal(&declared(ComponentType::OpAmp, "U1", None, Some("LM741")), &lib).1,
        "unsupported op-amp model 'LM741'"
    );
    assert_eq!(
        refusal(&declared(ComponentType::ExternalDevice, "X1", None, None), &lib).1,
        "device 'X1' requires a declared external device model"
    );
}

#[test]
fn expressions_only_in_numeric_fields() {
    let lib = library();
    let mut d = declared(ComponentType::Diode, "D1", None, Some("1N4148"));
    d.value_expression = Some(parse_expression("2").expect("expression"));
    assert_eq!(
        refusal(&d, &lib),
        (
            "KES-C022".to_string(),
            "Expressions are only accepted in numeric component fields, not model names".to_string(),
            "D1".to_string(),
            "value".to_string()
        )
    );
    let mut r = declared(ComponentType::Resistor, "R1", None, None);
    r.value_expression = Some(parse_expression("2").expect("expression"));
    assert!(component_kind_and_model(&r, &lib).is_ok());
}

#[test]
fn subcircuit_pins_must_follow_the_catalog() {
    let amp = subcircuit("AMP2", ComponentKind::OpAmp, &["a", "b"]);
    let d = validate_component_model_pins(&ComponentKind::OpAmp, &amp).expect_err("refused");
    assert_eq!(d.code, "KES-C012");
    assert_eq!(d.component.as_deref(), Some("AMP2"));
    assert_eq!(d.field.as_deref(), Some("pins"));
    assert!(d.message.starts_with("subcircuit 'AMP2' pin order [\"a\", \"b\"] does not match OpAmp catalog order ["));
}

#[test]
fn manifest_lists_each_used_model_once_by_name() {
    let p = Program {
        modules: vec![],
        model_includes: vec![kessetsu::ast::ModelInclude {
            package: "kessetsu_analog".to_string(),
            version: "1.0.0".to_string(),
        }],
        models: vec![],
        subcircuits: vec![],
        external_subcircuits: vec![],
        statements: vec![],
    };
    let lib = resolve_program_models(&p, &no_readings()).expect("library");
    let used: Vec<ModelRef> = ["2N3904", "1n4148", "2n3904"]
        .iter()
        .map(|name| lib.resolve(name).expect("registered"))
        .collect();
    let m = lib.manifest(&used);
    assert_eq!(m.schema_version, "kessetsu.models.v2");
    let names: Vec<&str> = m.models.iter().map(|e| e.name.as_str()).collect();
    assert_eq!(names, vec!["1N4148", "2N3904"]);
    assert_eq!(m.models[1].kind, ComponentKind::BJT(BJTPolarity::NPN));
    assert!(m.models.iter().all(|e| e.external.is_none()));
    assert_eq!(m.packages.len(), 1);
    assert_eq!(m.packages[0].name, "kessetsu_analog");
    assert!(lib.manifest(&vec![]).models.is_empty());
}
