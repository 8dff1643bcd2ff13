use kessetsu::ast::{
    AssertStmt, Cmp, ComponentDecl, ComponentType, Connection, NetDecl, PinRef, Program, SimulateStmt, Statement,
    UseStmt,
};
use kessetsu::expression::ParameterError;
use kessetsu::ir::{ComponentKind, SemanticDiagnostic};
use kessetsu::lowering::{ast_to_ir, ast_to_ir_with_resources, AnalysisKind};
use kessetsu::models::{ExternalModelResources, UserReadings};

fn no_readings() -> UserReadings {
    UserReadings { models: vec![], subcircuits: vec![], poles: vec![] }
}

fn decl(comp_type: ComponentType, name: &str, value: Option<&str>) -> Statement {
    Statement::Decl(ComponentDecl {
        comp_type,
        name: name.to_string(),
        subtype: None,
        value: value.map(str::to_string),
        value_expression: None,
        waveform_expression: None,
        interface_pins: vec![],
        instance_path: vec![],
    })
}

fn assertion(metric: &str) -> Statement {
    Statement::Assert(AssertStmt {
        metric: metric.to_string(),
        signal: "V(out)".to_string(),
        cmp: Cmp::Lt,
        threshold: "5V".to_string(),
        threshold_expression: None,
        numeric_expressions: vec![],
    })
}

fn simulate(cmd: &str, args: &[&str]) -> Statement {
    Statement::Simulate(SimulateStmt {
        cmd: cmd.to_string(),
        args: args.iter().map(|a| a.to_string()).collect(),
        numeric_expressions: vec![],
    })
}

fn program(statements: Vec<Statement>) -> Program {
    Program {
        modules: vec![],
        model_includes: vec![],
        models: vec![],
        subcircuits: vec![],
        external_subcircuits: vec![],
        statements,
    }
}

fn all_read(p: &Program) -> Vec<Result<(), SemanticDiagnostic>> {
    p.statements.iter().map(|_| Ok(())).collect()
}

fn diagnostic(code: &str, message: &str) -> SemanticDiagnostic {
    SemanticDiagnostic { code: code.to_string(), message: message.to_string(), component: None, field: None }
}

#[test]
fn lowering_binds_kinds_and_models_in_order() {
    let p = program(vec![
        decl(ComponentType::Resistor, "R1", Some("1k")),
        decl(ComponentType::Diode, "D1", None),
        Statement::Connect(Connection {
            pins: vec![
                PinRef { component: "R1".to_string(), pin: "p2".to_string() },
                PinRef { component: "D1".to_string(), pin: "anode".to_string() },
            ],
        }),
        Statement::Net(NetDecl { name: "out".to_string() }),
        simulate("TRAN", &["1us", "1ms"]),
        assertion("MAX"),
    ]);
    let checks = all_read(&p);
    let (c, lib) = ast_to_ir(p, Ok(()), &no_readings(), checks).expect("lowered");
    assert_eq!(c.components.len(), 2);
    assert_eq!(c.components[0].id, "R1");
    assert_eq!(c.components[0].kind, ComponentKind::Resistor);
    assert!(c.components[0].model.is_none());
    assert_eq!(c.components[1].kind, ComponentKind::Diode);
    assert_eq!(c.components[1].model.as_ref().map(|m| m.name.as_str()), Some("1N4148"));
    assert_eq!(c.connections.len(), 1);
    assert_eq!(c.nets, vec!["out".to_string()]);
    assert_eq!(c.analyses[0].cmd, "TRAN");
    assert_eq!(c.analysis_kinds, vec![AnalysisKind::Transient]);
    assert_eq!(c.assertions[0].metric, "MAX");
    assert!(lib.resolve("2n3904").is_some());
    assert_eq!(c.model_manifest.schema_version, "kessetsu.models.v2");
    let names: Vec<&str> = c.model_manifest.models.iter().map(|e| e.name.as_str()).collect();
    assert_eq!(names, vec!["1N4148"]);
}

#[test]
fn lowering_refusals_come_in_statement_order() {
    let p = program(vec![decl(ComponentType::Diode, "D1", Some("NOPE")), Statement::Use(UseStmt {
        module_name: "M".to_string(),
        inst_name: "u".to_string(),
        overrides: vec![],
    })]);
    let checks = all_read(&p);
    let d = ast_to_ir(p, Ok(()), &no_readings(), checks).unwrap_err();
    assert_eq!((d.code.as_str(), d.component.as_deref(), d.field.as_deref()), ("KES-C003", Some("D1"), Some("model")));

    let p = program(vec![decl(ComponentType::Resistor, "R1", Some("1k")), Statement::Use(UseStmt {
        module_name: "M".to_string(),
        inst_name: "u".to_string(),
        overrides: vec![],
    })]);
    let checks = all_read(&p);
    let d = ast_to_ir(p, Ok(()), &no_readings(), checks).unwrap_err();
    assert_eq!((d.code.as_str(), d.message.as_str()), ("KES-C007", "use statements must be flattened before IR conversion"));
    assert!(d.component.is_none() && d.field.is_none());

    let p = program(vec![assertion("loudness")]);
    let checks = all_read(&p);
    let d = ast_to_ir(p, Ok(()), &no_readings(), checks).unwrap_err();
    assert_eq!(d.code, "KES-C006");
    assert!(d.message.starts_with("unsupported assertion metric 'loudness'; expected value, min, max,"));
    assert_eq!(d.field.as_deref(), Some("signal"));
}

#[test]
fn lowering_reports_what_reading_numbers_gave() {
    let bad = diagnostic("KES-C001", "invalid resistor value: no number");
    let p = program(vec![decl(ComponentType::Resistor, "R1", Some("x")), assertion("max")]);
    let checks = vec![Err(bad.clone()), Ok(())];
    let d = ast_to_ir(p, Ok(()), &no_readings(), checks).unwrap_err();
    assert_eq!((d.code.as_str(), d.message.as_str()), ("KES-C001", "invalid resistor value: no number"));

    let p = program(vec![decl(ComponentType::Resistor, "R1", Some("1k"))]);
    let checks = all_read(&p);
    let first = ParameterError { code: "KES-C020", message: "parameter cycle".to_string(), name: "gain".to_string(), line: 3, column: 1 };
    let d = ast_to_ir_with_resources(p, &ExternalModelResources::new(), Err(first), &no_readings(), checks).unwrap_err();
    assert_eq!((d.code.as_str(), d.message.as_str()), ("KES-C020", "parameter cycle"));
    assert_eq!((d.component.as_deref(), d.field.as_deref()), (None, Some("gain")));
}

fn analysis_refusal(statements: Vec<Statement>, checks: Vec<Result<(), SemanticDiagnostic>>) -> (String, String, Option<String>) {
    let p = program(statements);
    let d = ast_to_ir(p, Ok(()), &no_readings(), checks).unwrap_err();
    (d.code, d.message, d.field)
}

#[test]
fn analyses_are_read_then_checked_for_repeats() {
    let p = program(vec![
        decl(ComponentType::Source, "V1", Some("5")),
        simulate("op", &[]),
        simulate("ac", &["DEC", "10", "1", "1meg"]),
        simulate("dc", &["V1", "0", "5", "1"]),
    ]);
    let checks = all_read(&p);
    let (c, _) = ast_to_ir(p, Ok(()), &no_readings(), checks).expect("lowered");
    assert_eq!(
        c.analysis_kinds,
        vec![AnalysisKind::OperatingPoint, AnalysisKind::Ac, AnalysisKind::DcSweep("V1".to_string())]
    );

    let (code, message, field) = analysis_refusal(vec![simulate("tran", &["1us", "1ms"]), simulate("Tran", &["1us", "2ms"])], vec![Ok(()), Ok(())]);
    assert_eq!((code.as_str(), field.as_deref()), ("KES-C009", Some("analysis")));
    assert_eq!(message, "duplicate 'tran' analysis; ambiguous repeated analyses require named analysis selectors");

    let (_, message, _) = analysis_refusal(
        vec![
            decl(ComponentType::Source, "V1", Some("5")),
            decl(ComponentType::Source, "v1", Some("3")),
            simulate("dc", &["V1", "0", "5", "1"]),
            simulate("dc", &["v1", "0", "1", "1"]),
        ],
        vec![Ok(()), Ok(()), Ok(()), Ok(())],
    );
    assert_eq!(message, "duplicate dc analysis for source 'v1'; ambiguous repeated analyses require named analysis selectors");

    let (_, message, _) = analysis_refusal(
        vec![simulate("tran", &["1us", "1ms"]), simulate("tran", &["1us", "1ms"]), simulate("op", &["x"])],
        vec![Ok(()), Ok(()), Ok(())],
    );
    assert_eq!(message, "simulate op expects no arguments, got 1");
}

#[test]
fn analysis_refusals() {
    let (_, message, _) = analysis_refusal(vec![simulate("noise", &[])], vec![Ok(())]);
    assert_eq!(message, "unsupported simulation analysis 'noise'; expected op, tran, ac or dc");
    let (_, message, _) = analysis_refusal(vec![simulate("tran", &["1us"])], vec![Ok(())]);
    assert_eq!(message, "simulate tran expects step and stop, optionally followed by uic; got 1 arguments");
    let (_, message, _) = analysis_refusal(vec![simulate("ac", &["LOG", "10", "1", "2"])], vec![Ok(())]);
    assert_eq!(message, "unsupported AC scale 'log'; expected dec, oct or lin");
    let (_, message, _) = analysis_refusal(vec![simulate("ac", &["dec", "ten", "1", "2"])], vec![Ok(())]);
    assert_eq!(message, "AC points must be a positive integer");
    let (_, message, _) = analysis_refusal(vec![simulate("dc", &["V9", "0", "1", "1"])], vec![Ok(())]);
    assert_eq!(message, "DC sweep source 'V9' is not declared");
    let (_, message, _) = analysis_refusal(
        vec![decl(ComponentType::Resistor, "R1", Some("1k")), simulate("dc", &["R1", "0", "1", "1"])],
        vec![Ok(()), Ok(())],
    );
    assert_eq!(message, "DC sweep target 'R1' must be a voltage or current source");
    let unread = diagnostic("KES-C009", "invalid transient step: no number");
    let (code, message, _) = analysis_refusal(vec![simulate("tran", &["x", "1ms"], ), assertion("max")], vec![Err(unread), Ok(())]);
    assert_eq!((code.as_str(), message.as_str()), ("KES-C009", "invalid transient step: no number"));
}
