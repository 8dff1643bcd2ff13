use kessetsu::ast::{ComponentDecl, ComponentType, Connection, PinRef, Program, Statement, UseStmt};
use kessetsu::compiler::{CompileOptions, DiagnosticStage};
use kessetsu::models::{ExternalModelResources, UserReadings};
use kessetsu::pipeline::compile_program;

fn no_readings() -> UserReadings {
    UserReadings { models: vec![], subcircuits: vec![], poles: vec![] }
}

fn decl(comp_type: ComponentType, name: &str, value: &str) -> Statement {
    Statement::Decl(ComponentDecl {
        comp_type,
        name: name.to_string(),
        subtype: None,
        value: Some(value.to_string()),
        value_expression: None,
        waveform_expression: None,
        interface_pins: vec![],
        instance_path: vec![],
    })
}

fn connect(a: (&str, &str), b: (&str, &str)) -> Statement {
    Statement::Connect(Connection {
        pins: vec![
            PinRef { component: a.0.to_string(), pin: a.1.to_string() },
            PinRef { component: b.0.to_string(), pin: b.1.to_string() },
        ],
    })
}

fn program(statements: Vec<Statement>) -> Program {
    Program { modules: vec![], model_includes: vec![], models: vec![], subcircuits: vec![], external_subcircuits: vec![], statements }
}

fn options() -> CompileOptions {
    CompileOptions { include_ast: false, generate_spice: false, generate_layout: true, generate_kicad: false }
}

fn compile(p: Program) -> kessetsu::pipeline::CompileOutcome {
    let checks = p.statements.iter().map(|_| Ok(())).collect();
    compile_program("R1 V1", Ok(p), &ExternalModelResources::new(), Ok(()), &no_readings(), checks, options())
}

#[test]
fn clean_circuit_is_laid_out() {
    let out = compile(program(vec![
        decl(ComponentType::Resistor, "R1", "1k"),
        decl(ComponentType::Source, "V1", "5"),
        connect(("V1", "plus"), ("R1", "p1")),
        connect(("R1", "p2"), ("V1", "minus")),
    ]));
    assert!(out.diagnostics.is_empty());
    assert_eq!(out.circuit.as_ref().map(|c| c.components.len()), Some(2));
    assert_eq!(out.topology.as_ref().map(|t| t.connections.len()), Some(2));
    assert!(out.graph.is_some());
    assert_eq!(out.layout.as_ref().map(|l| l.components.len()), Some(2));
}

#[test]
fn rule_errors_withhold_the_layout() {
    let out = compile(program(vec![
        decl(ComponentType::Source, "V1", "5"),
        decl(ComponentType::Resistor, "R1", "1k"),
        connect(("V1", "plus"), ("V1", "minus")),
    ]));
    let codes: Vec<&str> = out.diagnostics.iter().map(|d| d.code.as_str()).collect();
    assert_eq!(codes, vec!["KES-E003", "KES-E003", "KES-E004"]);
    assert_eq!(out.diagnostics[0].stage, DiagnosticStage::Erc);
    assert_eq!(out.diagnostics[0].line, Some(1));
    assert!(out.circuit.is_some());
    assert!(out.layout.is_none());
}

#[test]
fn flattening_and_lowering_failures_stop_the_compile() {
    let out = compile_program(
        "x",
        Err("Recursive module or module nesting limit exceeded: A".to_string()),
        &ExternalModelResources::new(),
        Ok(()),
        &no_readings(),
        vec![],
        options(),
    );
    assert_eq!(out.diagnostics.len(), 1);
    assert_eq!(out.diagnostics[0].code, "KES-C008");
    assert_eq!(out.diagnostics[0].stage, DiagnosticStage::Flatten);
    assert!(out.circuit.is_none() && out.layout.is_none());
    let out = compile(program(vec![Statement::Use(UseStmt { module_name: "M".to_string(), inst_name: "u".to_string(), overrides: vec![] })]));
    assert_eq!(out.diagnostics.len(), 1);
    assert_eq!((out.diagnostics[0].code.as_str(), out.diagnostics[0].stage), ("KES-C007", DiagnosticStage::Semantic));
    assert!(out.circuit.is_none());
}
