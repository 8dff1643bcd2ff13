use kessetsu::ast::{ModelDecl, ModelDeclKind, NamedValue, SubcircuitDecl};
use kessetsu::ir::{BJTPolarity, ComponentKind, ModelDefinition, ModelSource};
use kessetsu::models::{compile_user_model, compile_user_subcircuit, ValueReading};

fn named(pairs: &[(&str, &str)]) -> Vec<NamedValue> {
    pairs.iter().map(|(n, v)| NamedValue { name: n.to_string(), value: v.to_string() }).collect()
}

fn number(text: &str, positive: bool) -> Result<ValueReading, String> {
    Ok(ValueReading { text: text.to_string(), positive })
}

fn text_field() -> Result<ValueReading, String> {
    Err("not a number".to_string())
}

fn diode(params: &[(&str, &str)], polarity: Option<&str>) -> ModelDecl {
    ModelDecl {
        kind: ModelDeclKind::Diode,
        name: "D1".to_string(),
        polarity: polarity.map(str::to_string),
        parameters: named(params),
    }
}

#[test]
fn user_diode_model_lists_fields_in_name_order() {
    let decl = diode(&[("version", "1"), ("RS", "2"), ("license", "MIT"), ("is", "1n")], None);
    let readings = vec![text_field(), number("2", true), text_field(), number("1e-09", true)];
    let m = compile_user_model(&decl, &readings).expect("model");
    assert_eq!(m.name, "D1");
    assert_eq!(m.kind, ComponentKind::Diode);
    assert_eq!(m.source, ModelSource::UserDefined);
    match &m.definition {
        ModelDefinition::Device { directive } => assert_eq!(directive, ".model D1 D (is=1e-09 rs=2)"),
        other => panic!("unexpected definition {other:?}"),
    }
    assert_eq!(m.provenance.source, "user-defined");
    assert_eq!(m.provenance.license, "MIT");
    assert_eq!(m.provenance.version, "1");
    assert!(m.provenance.content_hash.starts_with("sha256:"));
}

#[test]
fn user_bjt_model_takes_its_polarity() {
    let decl = ModelDecl {
        kind: ModelDeclKind::BJT,
        name: "Q9".to_string(),
        polarity: Some("Npn".to_string()),
        parameters: named(&[("version", "2"), ("license", "MIT"), ("is", "1e-14"), ("bf", "100")]),
    };
    let readings = vec![text_field(), text_field(), number("1e-14", true), number("100", true)];
    let m = compile_user_model(&decl, &readings).expect("model");
    assert_eq!(m.kind, ComponentKind::BJT(BJTPolarity::NPN));
    match &m.definition {
        ModelDefinition::Device { directive } => assert_eq!(directive, ".model Q9 NPN (bf=100 is=1e-14)"),
        other => panic!("unexpected definition {other:?}"),
    }
    let mut bad = decl.clone();
    bad.polarity = Some("xyz".to_string());
    let d = compile_user_model(&bad, &readings).unwrap_err();
    assert_eq!((d.code.as_str(), d.message.as_str(), d.field.as_deref()), ("KES-C010", "invalid BJT polarity 'xyz'", Some("polarity")));
    bad.polarity = None;
    let d = compile_user_model(&bad, &readings).unwrap_err();
    assert_eq!(d.message, "BJT model requires npn or pnp polarity");
}

#[test]
fn user_model_refusals() {
    let meta = [("version", "1"), ("license", "MIT")];
    let d = compile_user_model(&diode(&meta, Some("npn")), &vec![text_field(), text_field()]).unwrap_err();
    assert_eq!((d.message.as_str(), d.field.as_deref()), ("diode models do not accept polarity", Some("polarity")));
    let d = compile_user_model(&diode(&meta, None), &vec![text_field(), text_field()]).unwrap_err();
    assert_eq!((d.message.as_str(), d.field.as_deref()), ("user model requires at least one typed electrical parameter", Some("parameters")));
    let d = compile_user_model(&diode(&[("version", "1"), ("license", "MIT"), ("foo", "1")], None), &vec![text_field(), text_field(), number("1", true)]).unwrap_err();
    assert_eq!(d.message, "unsupported parameter 'foo' for 'D1'; allowed parameters: is, rs, n, cjo, m, vj, tt");
    assert_eq!((d.code.as_str(), d.component.as_deref(), d.field.as_deref()), ("KES-C010", Some("D1"), Some("foo")));
    let d = compile_user_model(&diode(&[("version", "1"), ("license", "MIT"), ("is", "x")], None), &vec![text_field(), text_field(), Err("bad number".to_string())]).unwrap_err();
    assert_eq!(d.message, "invalid typed parameter 'is': bad number");
    let d = compile_user_model(&diode(&[("version", "1"), ("license", "MIT"), ("is", "1"), ("IS", "2")], None), &vec![text_field(), text_field(), number("1", true), number("2", true)]).unwrap_err();
    assert_eq!((d.message.as_str(), d.field.as_deref()), ("duplicate parameter 'IS'", Some("IS")));
    let d = compile_user_model(&diode(&[("license", "MIT"), ("is", "1")], None), &vec![text_field(), number("1", true)]).unwrap_err();
    assert_eq!(d.message, "user model/subcircuit requires version metadata");
}

fn opamp(kind: &str, pins: &[&str], params: &[(&str, &str)]) -> SubcircuitDecl {
    SubcircuitDecl {
        kind: kind.to_string(),
        name: "A1".to_string(),
        pins: pins.iter().map(|p| p.to_string()).collect(),
        parameters: named(params),
    }
}

const PINS: [&str; 5] = ["in_p", "in_n", "vcc", "vee", "out"];

#[test]
fn user_opamp_subcircuit_builds_a_single_pole_model() {
    let decl = opamp("OpAmp", &PINS, &[("version", "1"), ("license", "MIT"), ("gain", "100k"), ("bandwidth", "1meg")]);
    let readings = vec![text_field(), text_field(), number("100000", true), number("1000000", true)];
    let m = compile_user_subcircuit(&decl, &readings, "0.0159154943091895").expect("model");
    assert_eq!(m.kind, ComponentKind::OpAmp);
    assert_eq!(m.source, ModelSource::UserDefined);
    match &m.definition {
        ModelDefinition::Subcircuit { directive, pins } => {
            assert_eq!(
                directive,
                ".subckt A1 in_p in_n vcc vee out\nEGAIN n_int 0 in_p in_n 100000\nRPOLE n_int out 1\nCPOLE out 0 0.0159154943091895\nRLOAD out 0 1e9\n.ends A1"
            );
            assert_eq!(pins, &PINS.iter().map(|p| p.to_string()).collect::<Vec<_>>());
        }
        other => panic!("unexpected definition {other:?}"),
    }
}

#[test]
fn user_opamp_subcircuit_refusals() {
    let meta = [("version", "1"), ("license", "MIT"), ("gain", "10")];
    let readings = vec![text_field(), text_field(), number("10", true)];
    let d = compile_user_subcircuit(&opamp("comparator", &PINS, &meta), &readings, "1").unwrap_err();
    assert_eq!((d.code.as_str(), d.message.as_str(), d.field.as_deref()), ("KES-C012", "unsupported subcircuit kind 'comparator'", Some("kind")));
    let d = compile_user_subcircuit(&opamp("opamp", &["a"], &meta), &readings, "1").unwrap_err();
    assert_eq!(
        d.message,
        "opamp subcircuit 'A1' pins [\"a\"] must exactly match catalog order [\"in_p\", \"in_n\", \"vcc\", \"vee\", \"out\"]"
    );
    let d = compile_user_subcircuit(&opamp("opamp", &PINS, &meta), &readings, "1").unwrap_err();
    assert_eq!((d.code.as_str(), d.message.as_str(), d.field.as_deref()), ("KES-C012", "opamp subcircuit requires bandwidth", Some("bandwidth")));
    let both = [("version", "1"), ("license", "MIT"), ("gain", "-1"), ("bandwidth", "1")];
    let signs = vec![text_field(), text_field(), number("-1", false), number("1", true)];
    let d = compile_user_subcircuit(&opamp("opamp", &PINS, &both), &signs, "1").unwrap_err();
    assert_eq!((d.message.as_str(), d.field.as_deref()), ("opamp gain and bandwidth must be positive", Some("parameters")));
    let d = compile_user_subcircuit(&opamp("opamp", &PINS, &[("version", "1"), ("license", "MIT"), ("q", "1")]), &vec![text_field(), text_field(), number("1", true)], "1").unwrap_err();
    assert_eq!((d.code.as_str(), d.message.as_str()), ("KES-C010", "unsupported parameter 'q' for 'A1'; allowed parameters: gain, bandwidth"));
}
